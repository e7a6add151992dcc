//! Character-level helpers: whitespace trimming and decimal numbers.

use vstd::prelude::*;
use vstd::string::StringExecFns;

verus! {

/// Whether `c` carries the Unicode `White_Space` property.
pub open spec fn is_space(c: char) -> bool {
    let u = c as u32;
    ||| 0x09 <= u <= 0x0D
    ||| u == 0x20
    ||| u == 0x85
    ||| u == 0xA0
    ||| u == 0x1680
    ||| 0x2000 <= u <= 0x200A
    ||| u == 0x2028
    ||| u == 0x2029
    ||| u == 0x202F
    ||| u == 0x205F
    ||| u == 0x3000
}

/// `s` without its leading whitespace.
pub open spec fn trim_start(s: Seq<char>) -> Seq<char>
    decreases s.len(),
{
    if s.len() > 0 && is_space(s.first()) {
        trim_start(s.drop_first())
    } else {
        s
    }
}

/// `s` without its trailing whitespace.
pub open spec fn trim_end(s: Seq<char>) -> Seq<char>
    decreases s.len(),
{
    if s.len() > 0 && is_space(s.last()) {
        trim_end(s.drop_last())
    } else {
        s
    }
}

/// `s` without leading and trailing whitespace.
pub open spec fn trim(s: Seq<char>) -> Seq<char> {
    trim_end(trim_start(s))
}

/// Executable test for [`is_space`].
pub fn is_space_char(c: char) -> (b: bool)
    ensures
        b == is_space(c),
{
    let u: u32 = c as u32;
    (0x09 <= u && u <= 0x0D) || u == 0x20 || u == 0x85 || u == 0xA0 || u == 0x1680 || (0x2000 <= u
        && u <= 0x200A) || u == 0x2028 || u == 0x2029 || u == 0x202F || u == 0x205F || u == 0x3000
}

/// The characters of a string slice, in order.
pub fn chars_of(s: &str) -> (v: Vec<char>)
    ensures
        v@ == s@,
{
    let mut v: Vec<char> = Vec::new();
    for c in it: s.chars()
        invariant
            v@ == it.seq().take(it.index()),
            it.seq() == s@,
    {
        v.push(c);
    }
    v
}

/// Whether two string slices hold the same characters.
pub fn same_text(a: &str, b: &str) -> (r: bool)
    ensures
        r == (a@ == b@),
{
    let x = chars_of(a);
    let y = chars_of(b);
    if x.len() != y.len() {
        return false;
    }
    let mut i: usize = 0;
    while i < x.len()
        invariant
            i <= x.len() == y.len(),
            x@ == a@,
            y@ == b@,
            x@.take(i as int) == y@.take(i as int),
        decreases x.len() - i,
    {
        if x[i] != y[i] {
            return false;
        }
        proof {
            assert(x@.take(i + 1) == x@.take(i as int).push(x@[i as int]));
            assert(y@.take(i + 1) == y@.take(i as int).push(y@[i as int]));
        }
        i = i + 1;
    }
    proof {
        assert(x@.take(x.len() as int) == x@);
        assert(y@.take(y.len() as int) == y@);
    }
    true
}

/// Index of the first `c` in `s`, or `s.len()` where it has none.
pub open spec fn first_of(s: Seq<char>, c: char) -> int
    decreases s.len(),
{
    if s.len() == 0 || s[0] == c {
        0
    } else {
        1 + first_of(s.drop_first(), c)
    }
}

/// The first `c` is where a scan from the left meets it.
pub proof fn lemma_first_of(s: Seq<char>, c: char, k: int)
    requires
        0 <= k <= s.len(),
        forall|i: int| 0 <= i < k ==> s[i] != c,
        k < s.len() ==> s[k] == c,
    ensures
        first_of(s, c) == k,
    decreases k,
{
    if k > 0 {
        lemma_first_of(s.drop_first(), c, k - 1);
    }
}

/// Finds the first `c` in `chars[lo..hi]`; `hi` where there is none.
pub fn find_char(chars: &Vec<char>, lo: usize, hi: usize, c: char) -> (k: usize)
    requires
        lo <= hi <= chars.len(),
    ensures
        lo <= k <= hi,
        k - lo == first_of(chars@.subrange(lo as int, hi as int), c),
{
    let mut k: usize = lo;
    while k < hi && chars[k] != c
        invariant
            lo <= k <= hi <= chars.len(),
            forall|i: int| lo <= i < k ==> chars@[i] != c,
        decreases hi - k,
    {
        k = k + 1;
    }
    proof {
        lemma_first_of(chars@.subrange(lo as int, hi as int), c, k - lo);
    }
    k
}

/// `s` without one trailing carriage return.
pub open spec fn strip_cr(s: Seq<char>) -> Seq<char> {
    if s.len() > 0 && s.last() == '\r' {
        s.drop_last()
    } else {
        s
    }
}

/// The lines of `s`. A line ends at a line feed, which is left out together
/// with a carriage return right before it. What follows the last line feed
/// is a line of its own unless it is empty.
pub open spec fn lines(s: Seq<char>) -> Seq<Seq<char>>
    decreases s.len(),
{
    let k = first_of(s, '\n');
    if s.len() == 0 {
        Seq::empty()
    } else if 0 <= k < s.len() {
        seq![strip_cr(s.take(k))] + lines(s.skip(k + 1))
    } else {
        seq![s]
    }
}

/// Whether `ranges` cuts exactly the pieces `parts` out of `s`.
pub open spec fn cuts(s: Seq<char>, ranges: Seq<(usize, usize)>, parts: Seq<Seq<char>>) -> bool {
    &&& ranges.len() == parts.len()
    &&& forall|i: int|
        0 <= i < ranges.len() ==> {
            &&& (#[trigger] ranges[i]).0 <= ranges[i].1 <= s.len()
            &&& s.subrange(ranges[i].0 as int, ranges[i].1 as int) == parts[i]
        }
}

/// Where the lines of `chars` start and end.
pub fn line_ranges(chars: &Vec<char>) -> (r: Vec<(usize, usize)>)
    ensures
        cuts(chars@, r@, lines(chars@)),
{
    let n = chars.len();
    let mut out: Vec<(usize, usize)> = Vec::new();
    let ghost mut done: Seq<Seq<char>> = Seq::empty();
    let mut pos: usize = 0;
    proof {
        assert(chars@.skip(0) == chars@);
    }
    while pos < n
        invariant
            pos <= n == chars.len(),
            cuts(chars@, out@, done),
            lines(chars@) == done + lines(chars@.skip(pos as int)),
        decreases n - pos,
    {
        let ghost rest = chars@.skip(pos as int);
        let end = find_char(chars, pos, n, '\n');
        proof {
            assert(chars@.subrange(pos as int, n as int) == rest);
        }
        if end == n {
            out.push((pos, n));
            proof {
                assert(chars@.subrange(pos as int, n as int) == rest);
                assert(chars@.skip(n as int).len() == 0);
                done = done.push(rest);
                assert(lines(rest) == seq![rest]);
                assert(seq![rest] + lines(chars@.skip(n as int)) == seq![rest]);
            }
            pos = n;
        } else {
            let stop: usize = if end > pos && chars[end - 1] == '\r' {
                end - 1
            } else {
                end
            };
            out.push((pos, stop));
            proof {
                let raw = rest.take(end - pos);
                assert(raw == chars@.subrange(pos as int, end as int));
                assert(strip_cr(raw) == chars@.subrange(pos as int, stop as int));
                assert(rest.skip(end - pos + 1) == chars@.skip(end + 1));
                assert(lines(rest) == seq![strip_cr(raw)] + lines(chars@.skip(end + 1)));
                done = done.push(strip_cr(raw));
            }
            pos = end + 1;
        }
    }
    proof {
        assert(lines(chars@.skip(n as int)) == Seq::<Seq<char>>::empty());
    }
    out
}

/// Bounds `(a, b)` of the trimmed part of `chars[lo..hi]`.
pub fn trim_range(chars: &Vec<char>, lo: usize, hi: usize) -> (r: (usize, usize))
    requires
        lo <= hi <= chars.len(),
    ensures
        lo <= r.0 <= r.1 <= hi,
        chars@.subrange(r.0 as int, r.1 as int) == trim(chars@.subrange(lo as int, hi as int)),
{
    let mut a: usize = lo;
    while a < hi && is_space_char(chars[a])
        invariant
            lo <= a <= hi <= chars.len(),
            trim_start(chars@.subrange(lo as int, hi as int)) == trim_start(
                chars@.subrange(a as int, hi as int),
            ),
        decreases hi - a,
    {
        proof {
            assert(chars@.subrange(a as int, hi as int).drop_first() == chars@.subrange(
                a as int + 1,
                hi as int,
            ));
        }
        a = a + 1;
    }
    let mut b: usize = hi;
    while a < b && is_space_char(chars[b - 1])
        invariant
            a <= b <= hi <= chars.len(),
            trim_end(chars@.subrange(a as int, hi as int)) == trim_end(
                chars@.subrange(a as int, b as int),
            ),
        decreases b - a,
    {
        proof {
            assert(chars@.subrange(a as int, b as int).drop_last() == chars@.subrange(
                a as int,
                b as int - 1,
            ));
        }
        b = b - 1;
    }
    (a, b)
}

/// Whether `c` is one of the ASCII digits `0` to `9`.
pub open spec fn is_digit(c: char) -> bool {
    0x30 <= c as u32 <= 0x39
}

/// The number that the digit `c` stands for.
pub open spec fn digit_value(c: char) -> nat {
    (c as u32 - 0x30) as nat
}

/// Whether every character of `s` is a digit.
pub open spec fn all_digits(s: Seq<char>) -> bool {
    forall|i: int| 0 <= i < s.len() ==> is_digit(#[trigger] s[i])
}

/// The number written by the digits `s`, most significant first (0 for none).
pub open spec fn digits_nat(s: Seq<char>) -> nat
    decreases s.len(),
{
    if s.len() == 0 {
        0
    } else {
        digits_nat(s.drop_last()) * 10 + digit_value(s.last())
    }
}

/// The value of a non-empty run of digits; `None` for anything else.
pub open spec fn decimal(s: Seq<char>) -> Option<nat> {
    if s.len() > 0 && all_digits(s) {
        Some(digits_nat(s))
    } else {
        None
    }
}

/// The value of digits with an optional leading `+`.
pub open spec fn unsigned_decimal(s: Seq<char>) -> Option<nat> {
    if s.len() > 0 && s[0] == '+' {
        decimal(s.drop_first())
    } else {
        decimal(s)
    }
}

/// The value of digits with an optional leading `+` or `-`.
pub open spec fn signed_decimal(s: Seq<char>) -> Option<int> {
    if s.len() > 0 && s[0] == '-' {
        match decimal(s.drop_first()) {
            Some(v) => Some(-(v as int)),
            None => None,
        }
    } else {
        match unsigned_decimal(s) {
            Some(v) => Some(v as int),
            None => None,
        }
    }
}

/// `v` when it lies in `min..=max`, else `None`.
pub open spec fn within(v: Option<int>, min: int, max: int) -> Option<int> {
    match v {
        Some(x) if min <= x <= max => Some(x),
        _ => None,
    }
}

/// Reading more digits never makes the number smaller.
pub proof fn lemma_digits_prefix_le(s: Seq<char>, k: int)
    requires
        0 <= k <= s.len(),
    ensures
        digits_nat(s.take(k)) <= digits_nat(s),
    decreases s.len() - k,
{
    if k == s.len() {
        assert(s.take(k) == s);
    } else {
        lemma_digits_prefix_le(s.drop_last(), k);
        assert(s.drop_last().take(k) == s.take(k));
    }
}

/// Executable test for [`is_digit`].
pub fn is_digit_char(c: char) -> (b: bool)
    ensures
        b == is_digit(c),
{
    let u: u32 = c as u32;
    0x30 <= u && u <= 0x39
}

/// Reads `chars[lo..hi]` as a run of digits whose value is at most `limit`.
pub fn parse_digits(chars: &Vec<char>, lo: usize, hi: usize, limit: u64) -> (r: Option<u64>)
    requires
        lo <= hi <= chars.len(),
    ensures
        match within(
            match decimal(chars@.subrange(lo as int, hi as int)) {
                Some(v) => Some(v as int),
                None => None,
            },
            0,
            limit as int,
        ) {
            Some(v) => r == Some(v as u64),
            None => r is None,
        },
{
    let ghost s = chars@.subrange(lo as int, hi as int);
    if lo == hi {
        return None;
    }
    let mut acc: u64 = 0;
    let mut i: usize = lo;
    while i < hi
        invariant
            lo <= i <= hi <= chars.len(),
            s == chars@.subrange(lo as int, hi as int),
            all_digits(s.take(i - lo)),
            acc == digits_nat(s.take(i - lo)),
            acc <= limit,
        decreases hi - i,
    {
        let c: char = chars[i];
        let ghost next = s.take(i - lo + 1);
        proof {
            assert(s[i - lo] == c);
            assert(next.drop_last() == s.take(i - lo));
            assert(next.last() == c);
        }
        if !is_digit_char(c) {
            return None;
        }
        let d: u64 = (c as u32 - 0x30) as u64;
        proof {
            lemma_digits_prefix_le(s, i - lo + 1);
            assert(digits_nat(next) == acc * 10 + d);
            assert(all_digits(s) ==> digits_nat(s) >= acc * 10 + d);
        }
        if acc > limit / 10 {
            return None;
        }
        if d > limit - acc * 10 {
            return None;
        }
        acc = acc * 10 + d;
        i = i + 1;
    }
    proof {
        assert(s.take(hi - lo) == s);
    }
    Some(acc)
}

/// Reads `chars[lo..hi]` as digits with an optional `+`, up to `limit`.
pub fn parse_unsigned(chars: &Vec<char>, lo: usize, hi: usize, limit: u64) -> (r: Option<u64>)
    requires
        lo <= hi <= chars.len(),
    ensures
        match within(
            match unsigned_decimal(chars@.subrange(lo as int, hi as int)) {
                Some(v) => Some(v as int),
                None => None,
            },
            0,
            limit as int,
        ) {
            Some(v) => r == Some(v as u64),
            None => r is None,
        },
{
    let ghost s = chars@.subrange(lo as int, hi as int);
    if lo < hi && chars[lo] == '+' {
        proof {
            assert(s[0] == '+');
            assert(s.drop_first() == chars@.subrange(lo as int + 1, hi as int));
        }
        parse_digits(chars, lo + 1, hi, limit)
    } else {
        proof {
            assert(lo < hi ==> s[0] == chars@[lo as int]);
        }
        parse_digits(chars, lo, hi, limit)
    }
}

/// Reads `chars[lo..hi]` as digits with an optional sign, within `i64`.
pub fn parse_signed(chars: &Vec<char>, lo: usize, hi: usize) -> (r: Option<i64>)
    requires
        lo <= hi <= chars.len(),
    ensures
        match within(
            signed_decimal(chars@.subrange(lo as int, hi as int)),
            i64::MIN as int,
            i64::MAX as int,
        ) {
            Some(v) => r == Some(v as i64),
            None => r is None,
        },
{
    let ghost s = chars@.subrange(lo as int, hi as int);
    if lo < hi && chars[lo] == '-' {
        proof {
            assert(s[0] == '-');
            assert(s.drop_first() == chars@.subrange(lo as int + 1, hi as int));
        }
        match parse_digits(chars, lo + 1, hi, 0x8000_0000_0000_0000u64) {
            Some(m) => {
                if m == 0x8000_0000_0000_0000u64 {
                    Some(i64::MIN)
                } else {
                    Some(-(m as i64))
                }
            },
            None => None,
        }
    } else {
        proof {
            assert(lo < hi ==> s[0] == chars@[lo as int]);
        }
        match parse_unsigned(chars, lo, hi, 0x7fff_ffff_ffff_ffffu64) {
            Some(m) => Some(m as i64),
            None => None,
        }
    }
}

/// The digit that writes `d`.
pub open spec fn digit_text(d: nat) -> Seq<char> {
    if d == 0 {
        "0"@
    } else if d == 1 {
        "1"@
    } else if d == 2 {
        "2"@
    } else if d == 3 {
        "3"@
    } else if d == 4 {
        "4"@
    } else if d == 5 {
        "5"@
    } else if d == 6 {
        "6"@
    } else if d == 7 {
        "7"@
    } else if d == 8 {
        "8"@
    } else {
        "9"@
    }
}

/// `n` written in decimal, without leading zeros.
pub open spec fn decimal_text(n: nat) -> Seq<char>
    decreases n,
{
    if n < 10 {
        digit_text(n)
    } else {
        decimal_text(n / 10) + digit_text(n % 10)
    }
}

/// The digit that writes `d`.
fn digit_str(d: u64) -> (r: &'static str)
    requires
        d < 10,
    ensures
        r@ == digit_text(d as nat),
{
    if d == 0 {
        "0"
    } else if d == 1 {
        "1"
    } else if d == 2 {
        "2"
    } else if d == 3 {
        "3"
    } else if d == 4 {
        "4"
    } else if d == 5 {
        "5"
    } else if d == 6 {
        "6"
    } else if d == 7 {
        "7"
    } else if d == 8 {
        "8"
    } else {
        "9"
    }
}

/// Writes `n` in decimal.
pub fn write_decimal(n: u64) -> (r: String)
    ensures
        r@ == decimal_text(n as nat),
    decreases n,
{
    if n < 10 {
        digit_str(n).to_owned()
    } else {
        let mut s = write_decimal(n / 10);
        s.append(digit_str(n % 10));
        s
    }
}

/// The texts `parts` in a row, with `sep` between each two.
pub open spec fn join_with(parts: Seq<Seq<char>>, sep: Seq<char>) -> Seq<char>
    decreases parts.len(),
{
    if parts.len() == 0 {
        Seq::empty()
    } else if parts.len() == 1 {
        parts[0]
    } else {
        join_with(parts.drop_last(), sep) + sep + parts.last()
    }
}

/// Joins `parts`, with `sep` between each two.
pub fn join_strings(parts: &Vec<String>, sep: &str) -> (r: String)
    ensures
        r@ == join_with(parts.deep_view(), sep@),
{
    let ghost pv = parts.deep_view();
    let mut out = String::new();
    let mut i: usize = 0;
    proof {
        assert(pv.take(0) =~= Seq::<Seq<char>>::empty());
    }
    while i < parts.len()
        invariant
            i <= parts.len(),
            pv == parts.deep_view(),
            out@ == join_with(pv.take(i as int), sep@),
        decreases parts.len() - i,
    {
        proof {
            assert(pv.take(i + 1).drop_last() == pv.take(i as int));
            assert(pv.take(i + 1).last() == parts[i as int]@);
        }
        if i > 0 {
            out.append(sep);
            out.append(parts[i].as_str());
        } else {
            out.append(parts[i].as_str());
            proof {
                assert(Seq::<char>::empty() + parts[0]@ == parts[0]@);
            }
        }
        i = i + 1;
    }
    proof {
        assert(pv.take(pv.len() as int) == pv);
    }
    out
}

} // verus!
