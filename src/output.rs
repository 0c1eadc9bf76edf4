//! Output side of a run: the mean rounded up to a tenth, values written with
//! one decimal, and the name of the output file.
use vstd::prelude::*;
use vstd::string::StringExecFns;
use crate::aggregator::Summary;
use crate::pipeline::ResultMapping;
use crate::router::distinct;

verus! {

/// `r` is the least whole number not below `sum / count`.
pub open spec fn is_ceil_of(r: int, sum: int, count: int) -> bool {
    r * count >= sum && (r - 1) * count < sum
}

/// The least whole number not below `sum / count`, for a positive `count`.
pub open spec fn ceil_div(sum: int, count: int) -> int {
    -((-sum) / count)
}

proof fn lemma_ceil_div(r: int, sum: int, count: int)
    requires
        count > 0,
        is_ceil_of(r, sum, count),
    ensures
        r == ceil_div(sum, count),
{
    let q = (-sum) / count;
    let rem = (-sum) % count;
    vstd::arithmetic::div_mod::lemma_fundamental_div_mod(-sum, count);
    vstd::arithmetic::div_mod::lemma_mod_bound(-sum, count);
    assert(r == -q) by (nonlinear_arith)
        requires
            -sum == count * q + rem,
            0 <= rem < count,
            r * count >= sum,
            (r - 1) * count < sum,
    ;
}

impl Summary {
    /// The mean `sum / count`, rounded up to a whole number of tenths.
    pub fn mean_ceil_tenths(&self) -> (r: i128)
        requires
            self.count >= 1,
        ensures
            is_ceil_of(r as int, self.sum as int, self.count as int),
            r == ceil_div(self.sum as int, self.count as int),
    {
        let c: u128 = self.count as u128;
        let negative = self.sum < 0;
        let mag: u128 = if negative {
            (0 - (self.sum + 1)) as u128 + 1
        } else {
            self.sum as u128
        };
        let q = mag / c;
        let rem = mag % c;
        proof {
            vstd::arithmetic::div_mod::lemma_fundamental_div_mod(mag as int, c as int);
            vstd::arithmetic::div_mod::lemma_mod_pos_bound(mag as int, c as int);
        }
        assert(q <= mag && (rem > 0 ==> c >= 2 && 2 * q <= mag)) by (nonlinear_arith)
            requires
                mag == c * q + rem,
                c >= 1,
                0 <= rem < c,
        ;
        if negative {
            let r: i128 = if q == 0 {
                0
            } else {
                (0 - ((q - 1) as i128)) - 1
            };
            assert(is_ceil_of(r as int, self.sum as int, c as int)) by (nonlinear_arith)
                requires
                    mag == c * q + rem,
                    0 <= rem < c,
                    r == -q,
                    self.sum == -mag,
            ;
            proof {
                lemma_ceil_div(r as int, self.sum as int, c as int);
            }
            r
        } else if rem == 0 {
            let r = q as i128;
            assert(is_ceil_of(r as int, self.sum as int, c as int)) by (nonlinear_arith)
                requires
                    mag == c * q + rem,
                    rem == 0,
                    c >= 1,
                    r == q,
                    self.sum == mag,
            ;
            proof {
                lemma_ceil_div(r as int, self.sum as int, c as int);
            }
            r
        } else {
            let r = q as i128 + 1;
            assert(is_ceil_of(r as int, self.sum as int, c as int)) by (nonlinear_arith)
                requires
                    mag == c * q + rem,
                    0 < rem < c,
                    r == q + 1,
                    self.sum == mag,
            ;
            proof {
                lemma_ceil_div(r as int, self.sum as int, c as int);
            }
            r
        }
    }
}

/// The decimal digits of `n`, most significant first.
pub open spec fn decimal_digits(n: nat) -> Seq<u8>
    decreases n,
{
    if n < 10 {
        seq![(48 + n) as u8]
    } else {
        decimal_digits(n / 10).push((48 + n % 10) as u8)
    }
}

/// A number of tenths written with one decimal: `-12.3`, `0.5`.
pub open spec fn tenths_text(v: int) -> Seq<u8> {
    let mag = if v < 0 {
        -v
    } else {
        v
    };
    let body = decimal_digits((mag / 10) as nat) + seq![46u8, (48 + mag % 10) as u8];
    if v < 0 {
        seq![45u8] + body
    } else {
        body
    }
}

fn push_decimal(out: &mut Vec<u8>, n: u128)
    ensures
        final(out)@ == old(out)@ + decimal_digits(n as nat),
    decreases n,
{
    if n < 10 {
        out.push((48 + n) as u8);
    } else {
        push_decimal(out, n / 10);
        out.push((48 + n % 10) as u8);
    }
}

/// Appends `v` tenths, written with one decimal, to `out`.
pub fn push_tenths(out: &mut Vec<u8>, v: i128)
    ensures
        final(out)@ == old(out)@ + tenths_text(v as int),
{
    let ghost start = out@;
    let mag: u128 = if v < 0 {
        out.push(45);
        (0 - (v + 1)) as u128 + 1
    } else {
        v as u128
    };
    push_decimal(out, mag / 10);
    out.push(46);
    out.push((48 + mag % 10) as u8);
    assert(out@ =~= start + tenths_text(v as int));
}

/// What `std::path::Path::file_name` gives for a path: its last component,
/// where that is a normal one.
pub uninterp spec fn file_name_of(path: Seq<char>) -> Option<Seq<char>>;

/// Relies on `std::path::Path::file_name`: the final component of the path
/// (none for a path ending in `..`, or for a root); the result depends on the
/// path's text alone.
#[verifier::external_body]
fn file_name(path: &str) -> (r: Option<String>)
    ensures
        match r {
            Some(n) => file_name_of(path@) == Some(n@),
            None => file_name_of(path@) is None,
        },
{
    match std::path::Path::new(path).file_name() {
        Some(n) => Some(n.to_string_lossy().into_owned()),
        None => None,
    }
}

/// `i` is the position of the first `.` in `s`.
pub open spec fn is_first_dot(s: Seq<char>, i: int) -> bool {
    0 <= i < s.len() && s[i] == '.' && forall|j: int| 0 <= j < i ==> s[j] != '.'
}

/// The text before the first `.` of `s`; all of `s` where it holds none.
pub open spec fn stem(s: Seq<char>) -> Seq<char> {
    if exists|i: int| is_first_dot(s, i) {
        s.subrange(0, choose|i: int| is_first_dot(s, i))
    } else {
        s
    }
}

/// Relies on `str::split`: its first item is the text before the first
/// occurrence of the pattern, or the whole string where it does not occur.
#[verifier::external_body]
fn first_dot_piece(s: &str) -> (r: &str)
    ensures
        r@ == stem(s@),
{
    match s.split('.').next() {
        Some(p) => p,
        None => s,
    }
}

/// The output file's name for a file name: its text before the first `.`,
/// followed by `.out`.
pub open spec fn output_name(file_name: Seq<char>) -> Seq<char> {
    stem(file_name) + seq!['.', 'o', 'u', 't']
}

/// The output file's name for the input path `filename`, or `None` where the
/// path has no file name.
pub fn get_output_filename(filename: &str) -> (r: Option<String>)
    ensures
        match file_name_of(filename@) {
            Some(n) => r matches Some(out) && out@ == output_name(n),
            None => r is None,
        },
{
    match file_name(filename) {
        None => None,
        Some(name) => {
            let mut out = String::from_str(first_dot_piece(name.as_str()));
            let suffix = ".out";
            proof {
                reveal_strlit(".out");
            }
            out.append(suffix);
            assert(out@ =~= output_name(name@));
            Some(out)
        },
    }
}

/// Byte-wise lexicographic order: `a` sorts before `b`.
pub open spec fn lex_lt(a: Seq<u8>, b: Seq<u8>) -> bool
    decreases a.len(),
{
    if a.len() == 0 {
        b.len() > 0
    } else if b.len() == 0 {
        false
    } else if a[0] != b[0] {
        a[0] < b[0]
    } else {
        lex_lt(a.drop_first(), b.drop_first())
    }
}

proof fn lemma_lex_total(a: Seq<u8>, b: Seq<u8>)
    requires
        a != b,
    ensures
        lex_lt(a, b) || lex_lt(b, a),
    decreases a.len(),
{
    if a.len() > 0 && b.len() > 0 && a[0] == b[0] {
        if a.drop_first() == b.drop_first() {
            assert(a =~= seq![a[0]] + a.drop_first());
            assert(b =~= seq![b[0]] + b.drop_first());
        }
        lemma_lex_total(a.drop_first(), b.drop_first());
    } else if a.len() == 0 && b.len() == 0 {
        assert(a =~= b);
    }
}

proof fn lemma_lex_transitive(a: Seq<u8>, b: Seq<u8>, c: Seq<u8>)
    requires
        lex_lt(a, b),
        lex_lt(b, c),
    ensures
        lex_lt(a, c),
    decreases a.len(),
{
    if a.len() > 0 && b.len() > 0 && c.len() > 0 && a[0] == b[0] && b[0] == c[0] {
        lemma_lex_transitive(a.drop_first(), b.drop_first(), c.drop_first());
    }
}

/// Whether `a` sorts before `b`, byte by byte.
pub fn bytes_less(a: &[u8], b: &[u8]) -> (r: bool)
    ensures
        r == lex_lt(a@, b@),
{
    let mut i: usize = 0;
    assert(a@.subrange(0, a@.len() as int) =~= a@);
    assert(b@.subrange(0, b@.len() as int) =~= b@);
    while i < a.len() && i < b.len()
        invariant
            0 <= i <= a@.len(),
            i <= b@.len(),
            lex_lt(a@, b@) == lex_lt(a@.subrange(i as int, a@.len() as int), b@.subrange(
                i as int,
                b@.len() as int,
            )),
        decreases a@.len() - i,
    {
        let ghost sa = a@.subrange(i as int, a@.len() as int);
        let ghost sb = b@.subrange(i as int, b@.len() as int);
        assert(sa.drop_first() =~= a@.subrange(i + 1, a@.len() as int));
        assert(sb.drop_first() =~= b@.subrange(i + 1, b@.len() as int));
        if a[i] != b[i] {
            return a[i] < b[i];
        }
        i = i + 1;
    }
    i < b.len() && i >= a.len()
}

/// `order` lists every position of `keys` once, in increasing key order.
pub open spec fn is_sorted_order(keys: Seq<Seq<u8>>, order: Seq<int>) -> bool {
    &&& order.len() == keys.len()
    &&& forall|i: int| 0 <= i < order.len() ==> 0 <= #[trigger] order[i] < keys.len()
    &&& forall|i: int, j: int|
        0 <= i < j < order.len() ==> lex_lt(keys[#[trigger] order[i]], keys[#[trigger] order[j]])
}

/// The positions of the mapping's keys, in increasing key order.
pub fn sorted_order(m: &ResultMapping) -> (r: Vec<usize>)
    requires
        m.wf(),
    ensures
        is_sorted_order(m.keys(), r@.map_values(|p: usize| p as int)),
{
    let ghost keys = m.keys();
    let n = m.len();
    let mut order: Vec<usize> = Vec::new();
    let mut p: usize = 0;
    while p < n
        invariant
            m.wf(),
            keys == m.keys(),
            n == keys.len(),
            0 <= p <= n,
            order@.len() == p,
            forall|i: int| 0 <= i < order@.len() ==> #[trigger] order@[i] < p,
            forall|i: int, j: int|
                0 <= i < j < order@.len() ==> lex_lt(
                    keys[#[trigger] order@[i] as int],
                    keys[#[trigger] order@[j] as int],
                ),
        decreases n - p,
    {
        let key = m.key_at(p);
        let mut j: usize = 0;
        while j < order.len() && bytes_less(m.key_at(order[j]).as_slice(), key.as_slice())
            invariant
                m.wf(),
                keys == m.keys(),
                n == keys.len(),
                p < n,
                key@ == keys[p as int],
                0 <= j <= order@.len(),
                forall|i: int| 0 <= i < order@.len() ==> #[trigger] order@[i] < p,
                forall|i: int| 0 <= i < j ==> lex_lt(keys[#[trigger] order@[i] as int], key@),
            decreases order@.len() - j,
        {
            j = j + 1;
        }
        proof {
            if j < order@.len() {
                let q = order@[j as int] as int;
                assert(keys[q] != keys[p as int]);
                lemma_lex_total(keys[q], key@);
                assert forall|t: int| j < t < order@.len() implies lex_lt(
                    key@,
                    keys[#[trigger] order@[t] as int],
                ) by {
                    lemma_lex_transitive(key@, keys[q], keys[order@[t] as int]);
                }
            }
        }
        let ghost prev = order@;
        order.insert(j, p);
        assert forall|i: int, k: int|
            0 <= i < k < order@.len() implies lex_lt(
            keys[#[trigger] order@[i] as int],
            keys[#[trigger] order@[k] as int],
        ) by {
            if i < j && k == j {
            } else if i == j {
                if k > j {
                    assert(order@[k] == prev[k - 1]);
                }
            } else if i < j && k > j {
                assert(order@[k] == prev[k - 1]);
                assert(order@[i] == prev[i]);
                if k - 1 == j {
                    assert(lex_lt(keys[p as int], keys[prev[j as int] as int]));
                } else {
                    assert(lex_lt(keys[p as int], keys[prev[k - 1] as int]));
                }
                lemma_lex_transitive(keys[prev[i] as int], keys[p as int], keys[prev[k - 1] as int]);
            } else if i > j {
                assert(order@[k] == prev[k - 1]);
                assert(order@[i] == prev[i - 1]);
            }
        }
        p = p + 1;
    }
    order
}

/// One entry of the output: `key=min/mean/max`, the mean rounded up to a tenth.
pub open spec fn entry_text(key: Seq<u8>, sm: Summary) -> Seq<u8> {
    key + seq![61u8] + tenths_text(sm.min as int) + seq![47u8] + tenths_text(
        ceil_div(sm.sum as int, sm.count as int),
    ) + seq![47u8] + tenths_text(sm.max as int)
}

/// The entries at the positions `order`, separated by `, `.
pub open spec fn entries_text(keys: Seq<Seq<u8>>, sms: Seq<Summary>, order: Seq<int>) -> Seq<u8>
    decreases order.len(),
{
    if order.len() == 0 {
        Seq::empty()
    } else if order.len() == 1 {
        entry_text(keys[order[0]], sms[order[0]])
    } else {
        entries_text(keys, sms, order.drop_last()) + seq![44u8, 32u8] + entry_text(
            keys[order.last()],
            sms[order.last()],
        )
    }
}

/// The output line: `{` and the entries in `order`, then `}` and a newline.
pub open spec fn results_text(keys: Seq<Seq<u8>>, sms: Seq<Summary>, order: Seq<int>) -> Seq<u8> {
    seq![123u8] + entries_text(keys, sms, order) + seq![125u8, 10u8]
}

fn push_entry(out: &mut Vec<u8>, key: &[u8], sm: Summary)
    requires
        sm.count >= 1,
    ensures
        final(out)@ == old(out)@ + entry_text(key@, sm),
{
    let ghost start = out@;
    let mut i: usize = 0;
    while i < key.len()
        invariant
            0 <= i <= key@.len(),
            out@ == start + key@.subrange(0, i as int),
        decreases key@.len() - i,
    {
        out.push(key[i]);
        assert(out@ =~= start + key@.subrange(0, i + 1));
        i = i + 1;
    }
    assert(key@.subrange(0, i as int) =~= key@);
    out.push(61);
    push_tenths(out, sm.min as i128);
    out.push(47);
    push_tenths(out, sm.mean_ceil_tenths());
    out.push(47);
    push_tenths(out, sm.max as i128);
    assert(out@ =~= start + entry_text(key@, sm));
}

/// The summary line of a run's result, keys in increasing byte order:
/// `{key=min/mean/max, ...}` and a newline.
pub fn format_results(m: &ResultMapping) -> (r: Vec<u8>)
    requires
        m.wf(),
    ensures
        exists|order: Seq<int>|
            is_sorted_order(m.keys(), order) && r@ == results_text(
                m.keys(),
                m.summaries(),
                order,
            ),
{
    let order = sorted_order(m);
    let ghost ord = order@.map_values(|p: usize| p as int);
    let mut out: Vec<u8> = Vec::new();
    out.push(123);
    let mut k: usize = 0;
    while k < order.len()
        invariant
            m.wf(),
            is_sorted_order(m.keys(), ord),
            ord == order@.map_values(|p: usize| p as int),
            0 <= k <= order@.len(),
            out@ == seq![123u8] + entries_text(m.keys(), m.summaries(), ord.take(k as int)),
        decreases order@.len() - k,
    {
        let p = order[k];
        assert(ord[k as int] == p as int);
        if k > 0 {
            out.push(44);
            out.push(32);
        }
        push_entry(&mut out, m.key_at(p).as_slice(), m.summary_at(p));
        assert(ord.take(k + 1).drop_last() =~= ord.take(k as int));
        assert(out@ =~= seq![123u8] + entries_text(m.keys(), m.summaries(), ord.take(k + 1)));
        k = k + 1;
    }
    out.push(125);
    out.push(10);
    assert(ord.take(k as int) =~= ord);
    assert(out@ =~= results_text(m.keys(), m.summaries(), ord));
    out
}

} // verus!
