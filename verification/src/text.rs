use vstd::prelude::*;

verus! {

// ---------------------------------------------------------------------------
// Searching
// ---------------------------------------------------------------------------

/// The byte `b` occurs nowhere in `s`.
pub open spec fn lacks(s: Seq<u8>, b: u8) -> bool {
    forall|i: int| 0 <= i < s.len() ==> s[i] != b
}

/// `i` is the position of the first `b` in `s`.
pub open spec fn first_at(s: Seq<u8>, b: u8, i: int) -> bool {
    0 <= i < s.len() && s[i] == b && lacks(s.take(i), b)
}

/// The position of the first `b` in `s`, if `b` occurs in `s`.
pub open spec fn find(s: Seq<u8>, b: u8) -> Option<int> {
    if lacks(s, b) {
        None
    } else {
        Some(choose|i: int| first_at(s, b, i))
    }
}

/// A first occurrence is unique, so it is what `find` gives.
pub proof fn lemma_find_at(s: Seq<u8>, b: u8, i: int)
    requires
        first_at(s, b, i),
    ensures
        find(s, b) == Some(i),
{
    assert(s[i] == b);
    assert(!lacks(s, b));
    let j = choose|j: int| first_at(s, b, j);
    if j < i {
        assert(s.take(i)[j] == b);
    }
    if i < j {
        assert(s.take(j)[i] == b);
    }
}

proof fn lemma_first_exists(s: Seq<u8>, b: u8, k: int)
    requires
        0 <= k < s.len(),
        s[k] == b,
    ensures
        exists|i: int| first_at(s, b, i),
    decreases k,
{
    if lacks(s.take(k), b) {
        assert(first_at(s, b, k));
    } else {
        let j = choose|j: int| 0 <= j < s.take(k).len() && s.take(k)[j] == b;
        lemma_first_exists(s, b, j);
    }
}

/// What `find` gives is a first occurrence.
pub proof fn lemma_find(s: Seq<u8>, b: u8)
    ensures
        match find(s, b) {
            Some(i) => first_at(s, b, i),
            None => lacks(s, b),
        },
{
    if !lacks(s, b) {
        let k = choose|k: int| 0 <= k < s.len() && s[k] != b ==> false;
        assert(exists|k: int| 0 <= k < s.len() && s[k] == b);
        let k = choose|k: int| 0 <= k < s.len() && s[k] == b;
        lemma_first_exists(s, b, k);
    }
}

/// The position of the first `b` in `s`.
pub fn find_byte(s: &[u8], b: u8) -> (r: Option<usize>)
    ensures
        match r {
            Some(i) => first_at(s@, b, i as int) && find(s@, b) == Some(i as int),
            None => lacks(s@, b) && find(s@, b) is None,
        },
{
    let mut i: usize = 0;
    while i < s.len()
        invariant
            i <= s@.len(),
            lacks(s@.take(i as int), b),
        decreases s@.len() - i,
    {
        if s[i] == b {
            proof {
                lemma_find_at(s@, b, i as int);
            }
            return Some(i);
        }
        assert(s@.take(i + 1) =~= s@.take(i as int).push(s@[i as int]));
        i = i + 1;
    }
    assert(s@.take(i as int) =~= s@);
    None
}

// ---------------------------------------------------------------------------
// Copying
// ---------------------------------------------------------------------------

/// Appends `src` to `out`.
pub fn push_all(out: &mut Vec<u8>, src: &[u8])
    ensures
        final(out)@ == old(out)@ + src@,
{
    let mut i: usize = 0;
    while i < src.len()
        invariant
            i <= src@.len(),
            out@ == old(out)@ + src@.take(i as int),
        decreases src@.len() - i,
    {
        out.push(src[i]);
        assert(src@.take(i + 1) =~= src@.take(i as int).push(src@[i as int]));
        i = i + 1;
    }
    assert(src@.take(i as int) =~= src@);
}

/// The bytes of `s` from `start` up to `end`, copied.
pub fn slice_to_vec(s: &[u8], start: usize, end: usize) -> (r: Vec<u8>)
    requires
        start <= end <= s@.len(),
    ensures
        r@ == s@.subrange(start as int, end as int),
{
    let mut r: Vec<u8> = Vec::new();
    let mut i: usize = start;
    while i < end
        invariant
            start <= i <= end <= s@.len(),
            r@ == s@.subrange(start as int, i as int),
        decreases end - i,
    {
        r.push(s[i]);
        assert(s@.subrange(start as int, i + 1) =~= s@.subrange(start as int, i as int).push(
            s@[i as int],
        ));
        i = i + 1;
    }
    r
}

/// Byte-for-byte equality of two slices.
pub fn bytes_eq(a: &[u8], b: &[u8]) -> (r: bool)
    ensures
        r == (a@ == b@),
{
    if a.len() != b.len() {
        return false;
    }
    let mut i: usize = 0;
    while i < a.len()
        invariant
            i <= a@.len() == b@.len(),
            a@.take(i as int) == b@.take(i as int),
        decreases a@.len() - i,
    {
        if a[i] != b[i] {
            return false;
        }
        assert(a@.take(i + 1) =~= a@.take(i as int).push(a@[i as int]));
        assert(b@.take(i + 1) =~= b@.take(i as int).push(b@[i as int]));
        i = i + 1;
    }
    assert(a@.take(i as int) =~= a@);
    assert(b@.take(i as int) =~= b@);
    true
}

// ---------------------------------------------------------------------------
// Decimal numbers
// ---------------------------------------------------------------------------

/// An ASCII digit.
pub open spec fn is_digit(b: u8) -> bool {
    48 <= b <= 57
}

/// Every byte of `s` is an ASCII digit.
pub open spec fn all_digits(s: Seq<u8>) -> bool {
    forall|i: int| 0 <= i < s.len() ==> is_digit(#[trigger] s[i])
}

/// The shortest decimal writing of `n`, as ASCII digits.
pub open spec fn decimal(n: nat) -> Seq<u8>
    decreases n,
{
    if n < 10 {
        seq![(48 + n) as u8]
    } else {
        decimal(n / 10).push((48 + n % 10) as u8)
    }
}

/// The decimal writing of a number starts with `0` only when it is `0`.
pub proof fn lemma_decimal_no_leading_zero(n: nat)
    ensures
        decimal(n).len() > 1 ==> decimal(n)[0] != 48,
    decreases n,
{
    if n >= 10 {
        lemma_decimal_no_leading_zero(n / 10);
        assert(decimal(n)[0] == decimal(n / 10)[0]);
        let m = n / 10;
        if decimal(m).len() == 1 {
            assert(m >= 1);
            if m >= 10 {
                lemma_decimal_parse(m / 10);
                assert(decimal(m).len() == decimal(m / 10).len() + 1);
            }
            assert(decimal(m)[0] == (48 + m) as u8);
        }
    }
}

/// The number that the ASCII digits `s` write in base ten.
pub open spec fn digits_value(s: Seq<u8>) -> nat
    decreases s.len(),
{
    if s.len() == 0 {
        0
    } else {
        digits_value(s.drop_last()) * 10 + (s.last() - 48) as nat
    }
}

/// The digits of an unsigned number: `s` without one leading `+`.
pub open spec fn unsigned_digits(s: Seq<u8>) -> Seq<u8> {
    if s.len() > 0 && s[0] == 43 {
        s.drop_first()
    } else {
        s
    }
}

/// How text is read as a `usize`: an optional `+`, then at least one
/// digit, and a value that fits.
pub open spec fn parse_usize(s: Seq<u8>) -> Option<usize> {
    let d = unsigned_digits(s);
    if d.len() > 0 && all_digits(d) && digits_value(d) <= usize::MAX {
        Some(digits_value(d) as usize)
    } else {
        None
    }
}

/// Writes `n` in decimal.
pub fn decimal_bytes(n: u64) -> (r: Vec<u8>)
    ensures
        r@ == decimal(n as nat),
    decreases n,
{
    if n < 10 {
        let mut v: Vec<u8> = Vec::new();
        v.push((48 + n) as u8);
        assert(v@ =~= decimal(n as nat));
        v
    } else {
        let mut v = decimal_bytes(n / 10);
        v.push((48 + n % 10) as u8);
        v
    }
}

proof fn lemma_digits_value_grows(d: Seq<u8>, i: int, j: int)
    requires
        0 <= i <= j <= d.len(),
        all_digits(d),
    ensures
        digits_value(d.take(i)) <= digits_value(d.take(j)),
    decreases j - i,
{
    if i < j {
        lemma_digits_value_grows(d, i, j - 1);
        assert(d.take(j).drop_last() =~= d.take(j - 1));
        assert(is_digit(d[j - 1]));
    }
}

/// Reads text as a `usize` the way `str::parse::<usize>` does.
pub fn parse_usize_bytes(s: &[u8]) -> (r: Option<usize>)
    ensures
        r == parse_usize(s@),
{
    let start: usize = if s.len() > 0 && s[0] == 43 { 1 } else { 0 };
    let ghost d = unsigned_digits(s@);
    assert(d =~= s@.subrange(start as int, s@.len() as int));
    if start == s.len() {
        return None;
    }
    let mut value: usize = 0;
    let mut i: usize = start;
    while i < s.len()
        invariant
            start <= i <= s@.len(),
            start < s@.len(),
            d == unsigned_digits(s@),
            d =~= s@.subrange(start as int, s@.len() as int),
            all_digits(d.take(i - start)),
            value as nat == digits_value(d.take(i - start)),
        decreases s@.len() - i,
    {
        let b = s[i];
        let ghost k = i - start;
        assert(d[k] == b);
        if b < 48 || b > 57 {
            assert(!is_digit(d[k]));
            return None;
        }
        assert(d.take(k + 1).drop_last() =~= d.take(k));
        assert(d.take(k + 1).last() == b);
        assert(all_digits(d.take(k + 1)));
        assert(digits_value(d.take(k + 1)) == value as nat * 10 + (b - 48) as nat);
        let next = match value.checked_mul(10) {
            None => None,
            Some(v10) => v10.checked_add((b - 48) as usize),
        };
        match next {
            None => {
                proof {
                    if all_digits(d) {
                        lemma_digits_value_grows(d, k + 1, d.len() as int);
                        assert(d.take(d.len() as int) =~= d);
                    }
                }
                return None;
            },
            Some(v) => {
                value = v;
            },
        }
        i = i + 1;
    }
    assert(d.take(i - start) =~= d);
    Some(value)
}

/// Decimal writing is read back as the same number.
pub proof fn lemma_decimal_parse(n: nat)
    ensures
        decimal(n).len() > 0,
        all_digits(decimal(n)),
        decimal(n)[0] != 43,
        digits_value(decimal(n)) == n,
        n <= usize::MAX ==> parse_usize(decimal(n)) == Some(n as usize),
    decreases n,
{
    if n >= 10 {
        lemma_decimal_parse(n / 10);
        assert(decimal(n).drop_last() =~= decimal(n / 10));
        assert(decimal(n)[0] == decimal(n / 10)[0]);
        assert((n / 10) * 10 + n % 10 == n);
        assert(digits_value(decimal(n)) == digits_value(decimal(n / 10)) * 10 + n % 10);
    } else {
        assert(decimal(n) == seq![(48 + n) as u8]);
        assert(decimal(n).drop_last() =~= Seq::<u8>::empty());
        assert(digits_value(Seq::<u8>::empty()) == 0);
        assert(digits_value(decimal(n)) == n);
    }
    assert(unsigned_digits(decimal(n)) == decimal(n));
}

} // verus!

verus! {

// ---------------------------------------------------------------------------
// UTF-8
// ---------------------------------------------------------------------------

/// Calls `std::str::from_utf8`. Trusted: it succeeds exactly on the byte
/// sequences that are valid UTF-8, which vstd's `valid_utf8` defines.
#[verifier::external_body]
pub(crate) fn is_utf8(bytes: &[u8]) -> (r: bool)
    ensures
        r == vstd::utf8::valid_utf8(bytes@),
{
    std::str::from_utf8(bytes).is_ok()
}

/// Every byte of `s` is ASCII.
pub open spec fn all_ascii(s: Seq<u8>) -> bool {
    forall|i: int| 0 <= i < s.len() ==> #[trigger] s[i] < 128
}

/// ASCII bytes are valid UTF-8.
pub proof fn lemma_ascii_utf8(s: Seq<u8>)
    requires
        all_ascii(s),
    ensures
        vstd::utf8::valid_utf8(s),
    decreases s.len(),
{
    if s.len() > 0 {
        let b = s[0];
        assert(b < 128);
        assert(b & 0x7f == b) by (bit_vector)
            requires
                b < 128,
        ;
        assert(vstd::utf8::valid_first_scalar(s));
        assert(vstd::utf8::pop_first_scalar(s) =~= s.drop_first());
        lemma_ascii_utf8(s.drop_first());
    }
}

/// Decimal digits are ASCII.
pub proof fn lemma_digits_ascii(s: Seq<u8>)
    requires
        all_digits(s),
    ensures
        all_ascii(s),
{
    assert forall|i: int| 0 <= i < s.len() implies #[trigger] s[i] < 128 by {
        assert(is_digit(s[i]));
    }
}

} // verus!

verus! {

// ---------------------------------------------------------------------------
// Lines, trimming, splitting
// ---------------------------------------------------------------------------

/// Searches for `b` from `start` on, and gives its position in `s`.
pub fn find_byte_from(s: &[u8], b: u8, start: usize) -> (r: Option<usize>)
    requires
        start <= s@.len(),
    ensures
        match r {
            Some(i) => start <= i && first_at(s@.skip(start as int), b, i - start) && find(
                s@.skip(start as int),
                b,
            ) == Some(i - start),
            None => lacks(s@.skip(start as int), b) && find(s@.skip(start as int), b) is None,
        },
{
    let ghost rest = s@.skip(start as int);
    let mut i: usize = start;
    while i < s.len()
        invariant
            start <= i <= s@.len(),
            rest == s@.skip(start as int),
            lacks(rest.take(i - start), b),
        decreases s@.len() - i,
    {
        if s[i] == b {
            assert(rest[i - start] == b);
            proof {
                lemma_find_at(rest, b, i - start);
            }
            return Some(i);
        }
        assert(rest.take(i - start + 1) =~= rest.take(i - start).push(rest[i - start]));
        i = i + 1;
    }
    assert(rest.take(i - start) =~= rest);
    None
}

/// A line without the `\r` of a `\r\n` ending.
pub open spec fn strip_cr(l: Seq<u8>) -> Seq<u8> {
    if l.len() > 0 && l.last() == 13 {
        l.drop_last()
    } else {
        l
    }
}

/// The lines of `s`, as `str::lines` gives them: split at each `\n`, a
/// `\r` right before a `\n` dropped, and no empty line after a final `\n`.
pub open spec fn lines(s: Seq<u8>) -> Seq<Seq<u8>>
    decreases s.len(),
{
    if s.len() == 0 {
        seq![]
    } else {
        match find(s, 10) {
            None => seq![s],
            Some(i) => {
                proof {
                    lemma_find(s, 10);
                }
                seq![strip_cr(s.take(i))] + lines(s.skip(i + 1))
            },
        }
    }
}

/// The views of a sequence of byte vectors.
pub open spec fn views(v: Seq<Vec<u8>>) -> Seq<Seq<u8>> {
    v.map_values(|x: Vec<u8>| x@)
}

/// Splits `s` into its lines.
pub fn split_lines(s: &[u8]) -> (r: Vec<Vec<u8>>)
    ensures
        views(r@) == lines(s@),
{
    let mut out: Vec<Vec<u8>> = Vec::new();
    let mut pos: usize = 0;
    assert(s@.skip(0) =~= s@);
    while pos < s.len()
        invariant
            pos <= s@.len(),
            views(out@) + lines(s@.skip(pos as int)) == lines(s@),
        decreases s@.len() - pos,
    {
        let ghost rest = s@.skip(pos as int);
        let ghost before = views(out@);
        match find_byte_from(s, 10, pos) {
            None => {
                let line = slice_to_vec(s, pos, s.len());
                assert(line@ =~= rest);
                assert(lines(rest) == seq![rest]);
                out.push(line);
                assert(views(out@) =~= before + seq![rest]);
                pos = s.len();
                assert(s@.skip(pos as int) =~= Seq::<u8>::empty());
                assert(lines(s@.skip(pos as int)) =~= Seq::<Seq<u8>>::empty());
                assert(views(out@) + lines(s@.skip(pos as int)) =~= before + lines(rest));
            },
            Some(i) => {
                let end = if i > pos && s[i - 1] == 13 { i - 1 } else { i };
                let line = slice_to_vec(s, pos, end);
                assert(line@ =~= strip_cr(rest.take(i - pos)));
                assert(rest.skip(i - pos + 1) =~= s@.skip(i + 1));
                out.push(line);
                assert(views(out@) =~= before + seq![line@]);
                pos = i + 1;
                assert(lines(rest) == seq![line@] + lines(s@.skip(pos as int)));
                assert(views(out@) + lines(s@.skip(pos as int)) =~= before + lines(rest));
            },
        }
    }
    assert(s@.skip(pos as int) =~= Seq::<u8>::empty());
    out
}

} // verus!

verus! {

/// The three-byte UTF-8 encodings of Unicode white space: U+1680,
/// U+2000 to U+200A, U+2028, U+2029, U+202F, U+205F and U+3000.
pub open spec fn is_ws3(a: u8, b: u8, c: u8) -> bool {
    ||| (a == 0xe1 && b == 0x9a && c == 0x80)
    ||| (a == 0xe2 && b == 0x80 && ((0x80 <= c <= 0x8a) || c == 0xa8 || c == 0xa9 || c == 0xaf))
    ||| (a == 0xe2 && b == 0x81 && c == 0x9f)
    ||| (a == 0xe3 && b == 0x80 && c == 0x80)
}

/// The one-byte white space: tab, line feed, vertical tab, form feed,
/// carriage return, space.
pub open spec fn is_ws1(a: u8) -> bool {
    (9 <= a <= 13) || a == 32
}

/// The two-byte white space: U+0085 and U+00A0.
pub open spec fn is_ws2(a: u8, b: u8) -> bool {
    a == 0xc2 && (b == 0x85 || b == 0xa0)
}

/// The length of the white-space character that `s` starts with, or 0.
pub open spec fn ws_prefix_len(s: Seq<u8>) -> int {
    if s.len() >= 1 && is_ws1(s[0]) {
        1
    } else if s.len() >= 2 && is_ws2(s[0], s[1]) {
        2
    } else if s.len() >= 3 && is_ws3(s[0], s[1], s[2]) {
        3
    } else {
        0
    }
}

/// The length of the white-space character that `s` ends with, or 0.
pub open spec fn ws_suffix_len(s: Seq<u8>) -> int {
    let n = s.len() as int;
    if n >= 1 && is_ws1(s[n - 1]) {
        1
    } else if n >= 2 && is_ws2(s[n - 2], s[n - 1]) {
        2
    } else if n >= 3 && is_ws3(s[n - 3], s[n - 2], s[n - 1]) {
        3
    } else {
        0
    }
}

/// UTF-8 text without its leading white space.
pub open spec fn trim_start(s: Seq<u8>) -> Seq<u8>
    decreases s.len(),
{
    if ws_prefix_len(s) > 0 {
        trim_start(s.skip(ws_prefix_len(s)))
    } else {
        s
    }
}

/// UTF-8 text without its trailing white space.
pub open spec fn trim_end(s: Seq<u8>) -> Seq<u8>
    decreases s.len(),
{
    if ws_suffix_len(s) > 0 {
        trim_end(s.take(s.len() - ws_suffix_len(s)))
    } else {
        s
    }
}

/// UTF-8 text without white space at either end, as `str::trim` gives it.
pub open spec fn trim(s: Seq<u8>) -> Seq<u8> {
    trim_end(trim_start(s))
}

fn ws_prefix_at(s: &[u8], i: usize, end: usize) -> (n: usize)
    requires
        i <= end <= s@.len(),
    ensures
        n as int == ws_prefix_len(s@.subrange(i as int, end as int)),
{
    let ghost t = s@.subrange(i as int, end as int);
    if end - i >= 1 && ((9 <= s[i] && s[i] <= 13) || s[i] == 32) {
        1
    } else if end - i >= 2 && s[i] == 0xc2 && (s[i + 1] == 0x85 || s[i + 1] == 0xa0) {
        2
    } else if end - i >= 3 && ((s[i] == 0xe1 && s[i + 1] == 0x9a && s[i + 2] == 0x80) || (s[i]
        == 0xe2 && s[i + 1] == 0x80 && ((0x80 <= s[i + 2] && s[i + 2] <= 0x8a) || s[i + 2] == 0xa8
        || s[i + 2] == 0xa9 || s[i + 2] == 0xaf)) || (s[i] == 0xe2 && s[i + 1] == 0x81 && s[i + 2]
        == 0x9f) || (s[i] == 0xe3 && s[i + 1] == 0x80 && s[i + 2] == 0x80)) {
        3
    } else {
        0
    }
}

fn ws_suffix_at(s: &[u8], start: usize, j: usize) -> (n: usize)
    requires
        start <= j <= s@.len(),
    ensures
        n as int == ws_suffix_len(s@.subrange(start as int, j as int)),
{
    let ghost t = s@.subrange(start as int, j as int);
    if j - start >= 1 && ((9 <= s[j - 1] && s[j - 1] <= 13) || s[j - 1] == 32) {
        1
    } else if j - start >= 2 && s[j - 2] == 0xc2 && (s[j - 1] == 0x85 || s[j - 1] == 0xa0) {
        2
    } else if j - start >= 3 && ((s[j - 3] == 0xe1 && s[j - 2] == 0x9a && s[j - 1] == 0x80) || (
    s[j - 3] == 0xe2 && s[j - 2] == 0x80 && ((0x80 <= s[j - 1] && s[j - 1] <= 0x8a) || s[j - 1]
        == 0xa8 || s[j - 1] == 0xa9 || s[j - 1] == 0xaf)) || (s[j - 3] == 0xe2 && s[j - 2] == 0x81
        && s[j - 1] == 0x9f) || (s[j - 3] == 0xe3 && s[j - 2] == 0x80 && s[j - 1] == 0x80)) {
        3
    } else {
        0
    }
}

/// `s` without white space at either end, copied.
pub fn trim_bytes(s: &[u8]) -> (r: Vec<u8>)
    ensures
        r@ == trim(s@),
{
    let mut i: usize = 0;
    let len = s.len();
    assert(s@.subrange(0, len as int) =~= s@);
    while i < len
        invariant
            i <= len == s@.len(),
            trim_start(s@.subrange(i as int, len as int)) == trim_start(s@),
        ensures
            i <= len,
            trim_start(s@.subrange(i as int, len as int)) == trim_start(s@),
            trim_start(s@.subrange(i as int, len as int)) == s@.subrange(i as int, len as int),
        decreases len - i,
    {
        let n = ws_prefix_at(s, i, len);
        if n == 0 {
            break;
        }
        assert(s@.subrange(i as int, len as int).skip(n as int) =~= s@.subrange(
            i + n,
            len as int,
        ));
        i = i + n;
    }
    let ghost front = s@.subrange(i as int, len as int);
    let mut j: usize = len;
    assert(s@.subrange(i as int, j as int) == front);
    while j > i
        invariant
            i <= j <= len == s@.len(),
            front == s@.subrange(i as int, len as int),
            trim_end(s@.subrange(i as int, j as int)) == trim_end(front),
        ensures
            i <= j <= len,
            trim_end(s@.subrange(i as int, j as int)) == trim_end(front),
            trim_end(s@.subrange(i as int, j as int)) == s@.subrange(i as int, j as int),
        decreases j - i,
    {
        let n = ws_suffix_at(s, i, j);
        if n == 0 {
            break;
        }
        assert(s@.subrange(i as int, j as int).take(j - i - n) =~= s@.subrange(
            i as int,
            j - n,
        ));
        j = j - n;
    }
    slice_to_vec(s, i, j)
}

/// `s` without the prefix `p`, if it starts with `p`.
pub open spec fn strip_prefix(s: Seq<u8>, p: Seq<u8>) -> Option<Seq<u8>> {
    if s.len() >= p.len() && s.take(p.len() as int) == p {
        Some(s.skip(p.len() as int))
    } else {
        None
    }
}

/// Whether `s` starts with `p`.
pub fn starts_with(s: &[u8], p: &[u8]) -> (r: bool)
    ensures
        r == (s@.len() >= p@.len() && s@.take(p@.len() as int) == p@),
{
    if s.len() < p.len() {
        return false;
    }
    let mut i: usize = 0;
    while i < p.len()
        invariant
            i <= p@.len() <= s@.len(),
            s@.take(i as int) == p@.take(i as int),
        decreases p@.len() - i,
    {
        if s[i] != p[i] {
            assert(s@.take(p@.len() as int)[i as int] != p@[i as int]);
            return false;
        }
        assert(s@.take(i + 1) =~= s@.take(i as int).push(s@[i as int]));
        assert(p@.take(i + 1) =~= p@.take(i as int).push(p@[i as int]));
        i = i + 1;
    }
    assert(p@.take(i as int) =~= p@);
    true
}

/// `s` without the prefix `p`, copied, if it starts with `p`.
pub fn strip_prefix_bytes(s: &[u8], p: &[u8]) -> (r: Option<Vec<u8>>)
    ensures
        match strip_prefix(s@, p@) {
            Some(rest) => r matches Some(v) && v@ == rest,
            None => r is None,
        },
{
    if starts_with(s, p) {
        let v = slice_to_vec(s, p.len(), s.len());
        assert(v@ =~= s@.skip(p@.len() as int));
        Some(v)
    } else {
        None
    }
}

/// `s` split at its first `b`, as `str::split_once` does.
pub open spec fn split_once(s: Seq<u8>, b: u8) -> Option<(Seq<u8>, Seq<u8>)> {
    match find(s, b) {
        Some(i) => Some((s.take(i), s.skip(i + 1))),
        None => None,
    }
}

/// Splits `s` at its first `b`.
pub fn split_once_bytes(s: &[u8], b: u8) -> (r: Option<(Vec<u8>, Vec<u8>)>)
    ensures
        match split_once(s@, b) {
            Some((x, y)) => r matches Some((u, v)) && u@ == x && v@ == y,
            None => r is None,
        },
{
    match find_byte(s, b) {
        None => None,
        Some(i) => {
            let len = s.len();
            assert(i < len);
            let u = slice_to_vec(s, 0, i);
            let v = slice_to_vec(s, i + 1, len);
            assert(u@ =~= s@.take(i as int));
            assert(v@ =~= s@.skip(i + 1));
            Some((u, v))
        },
    }
}

} // verus!

verus! {

/// The view of an optional byte vector.
pub open spec fn opt_view(o: Option<Vec<u8>>) -> Option<Seq<u8>> {
    match o {
        Some(v) => Some(v@),
        None => None,
    }
}

} // verus!

verus! {

/// Text without `b` joined to text without `b` has no `b`.
pub proof fn lemma_lacks_concat(x: Seq<u8>, y: Seq<u8>, b: u8)
    requires
        lacks(x, b),
        lacks(y, b),
    ensures
        lacks(x + y, b),
{
    assert forall|i: int| 0 <= i < (x + y).len() implies (x + y)[i] != b by {
        if i >= x.len() {
            assert((x + y)[i] == y[i - x.len()]);
        }
    }
}

/// A line without line feeds, then a line feed, then the rest: the first
/// line comes off whole (a `\r` right before the line feed dropped).
pub proof fn lemma_lines_cons(x: Seq<u8>, rest: Seq<u8>)
    requires
        lacks(x, 10),
    ensures
        lines(x + seq![10u8] + rest) == seq![strip_cr(x)] + lines(rest),
{
    let s = x + seq![10u8] + rest;
    assert(s.take(x.len() as int) =~= x);
    lemma_find_at(s, 10, x.len() as int);
    assert(s.skip(x.len() as int + 1) =~= rest);
}

/// `p` followed by anything starts with `p`.
pub proof fn lemma_strip_prefix_concat(p: Seq<u8>, x: Seq<u8>)
    ensures
        strip_prefix(p + x, p) == Some(x),
{
    assert((p + x).take(p.len() as int) =~= p);
    assert((p + x).skip(p.len() as int) =~= x);
}

/// Text that differs from `p` at a position both have does not start
/// with `p`.
pub proof fn lemma_strip_prefix_differs(s: Seq<u8>, p: Seq<u8>, i: int)
    requires
        0 <= i < s.len(),
        i < p.len(),
        s[i] != p[i],
    ensures
        strip_prefix(s, p) is None,
{
    if s.len() >= p.len() && s.take(p.len() as int) == p {
        assert(s.take(p.len() as int)[i] == s[i]);
    }
}

/// Trimming the start leaves no white space in front.
pub proof fn lemma_trim_start_clean(s: Seq<u8>)
    ensures
        ws_prefix_len(trim_start(s)) == 0,
    decreases s.len(),
{
    if ws_prefix_len(s) > 0 {
        lemma_trim_start_clean(s.skip(ws_prefix_len(s)));
    }
}

/// Trimming the end leaves no white space behind.
pub proof fn lemma_trim_end_clean(s: Seq<u8>)
    ensures
        ws_suffix_len(trim_end(s)) == 0,
    decreases s.len(),
{
    if ws_suffix_len(s) > 0 {
        lemma_trim_end_clean(s.take(s.len() - ws_suffix_len(s)));
    }
}

proof fn lemma_prefix_clean_take(s: Seq<u8>, k: int)
    requires
        ws_prefix_len(s) == 0,
        0 <= k <= s.len(),
    ensures
        ws_prefix_len(s.take(k)) == 0,
{
}

/// Trimming the end of text without white space in front leaves none in
/// front.
pub proof fn lemma_trim_end_keeps_front(s: Seq<u8>)
    requires
        ws_prefix_len(s) == 0,
    ensures
        ws_prefix_len(trim_end(s)) == 0,
    decreases s.len(),
{
    if ws_suffix_len(s) > 0 {
        let t = s.take(s.len() - ws_suffix_len(s));
        lemma_prefix_clean_take(s, s.len() - ws_suffix_len(s));
        lemma_trim_end_keeps_front(t);
    }
}

/// Leading white space is a run of whole characters, so UTF-8 text stays
/// UTF-8 without it.
pub proof fn lemma_trim_start_utf8(s: Seq<u8>)
    requires
        vstd::utf8::valid_utf8(s),
    ensures
        vstd::utf8::valid_utf8(trim_start(s)),
    decreases s.len(),
{
    let k = ws_prefix_len(s);
    if k > 0 {
        assert(vstd::utf8::length_of_first_scalar(s) == k);
        assert(vstd::utf8::pop_first_scalar(s) =~= s.skip(k));
        lemma_trim_start_utf8(s.skip(k));
    }
}

/// Trailing white space is a run of whole characters, so UTF-8 text stays
/// UTF-8 without it.
pub proof fn lemma_trim_end_utf8(s: Seq<u8>)
    requires
        vstd::utf8::valid_utf8(s),
    ensures
        vstd::utf8::valid_utf8(trim_end(s)),
    decreases s.len(),
{
    let k = ws_suffix_len(s);
    if k > 0 {
        let n = s.len() as int;
        assert(!vstd::utf8::is_continuation_byte(s[n - k]));
        vstd::utf8::is_char_boundary_iff_not_is_continuation_byte(s, n - k);
        vstd::utf8::valid_utf8_split(s, n - k);
        assert(s.subrange(0, n - k) =~= s.take(n - k));
        lemma_trim_end_utf8(s.take(n - k));
    }
}

/// Trimming UTF-8 text leaves UTF-8 text.
pub proof fn lemma_trim_utf8(s: Seq<u8>)
    requires
        vstd::utf8::valid_utf8(s),
    ensures
        vstd::utf8::valid_utf8(trim(s)),
{
    lemma_trim_start_utf8(s);
    lemma_trim_end_utf8(trim_start(s));
}

/// Trimmed text has no white space at either end.
pub proof fn lemma_trim_clean(s: Seq<u8>)
    ensures
        ws_prefix_len(trim(s)) == 0,
        ws_suffix_len(trim(s)) == 0,
{
    lemma_trim_start_clean(s);
    lemma_trim_end_keeps_front(trim_start(s));
    lemma_trim_end_clean(trim_start(s));
}

/// Trimmed text with a line feed after it trims back to itself.
pub proof fn lemma_trim_newline(s: Seq<u8>)
    ensures
        trim(trim(s) + seq![10u8]) == trim(s),
{
    let y = trim(s);
    lemma_trim_clean(s);
    let z = y + seq![10u8];
    if y.len() == 0 {
        assert(z =~= seq![10u8]);
        assert(ws_prefix_len(z) == 1);
        assert(z.skip(1) =~= Seq::<u8>::empty());
        assert(trim_start(z) == trim_start(Seq::<u8>::empty()));
        assert(trim_start(z) =~= Seq::<u8>::empty());
    } else {
        assert(ws_prefix_len(z) == 0);
        assert(trim_start(z) == z);
        assert(ws_suffix_len(z) == 1);
        assert(z.take(z.len() - 1) =~= y);
        assert(trim_end(y) == y);
    }
}

} // verus!
