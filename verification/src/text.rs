//! Byte-level text helpers shared by the card, table and checksum code.
//!
//! FITS headers are ASCII, so the library works on the bytes of its string
//! arguments (their UTF-8 encoding) and states results over byte sequences.
use vstd::prelude::*;
use vstd::utf8::*;
use vstd::string::StrSliceExecFns;

verus! {

/// ASCII decimal digit.
pub open spec fn is_digit(b: u8) -> bool {
    48 <= b <= 57
}

/// ASCII upper-case letter.
pub open spec fn is_upper(b: u8) -> bool {
    65 <= b <= 90
}

/// ASCII lower-case letter.
pub open spec fn is_lower(b: u8) -> bool {
    97 <= b <= 122
}

/// ASCII upper-casing of one byte (other bytes unchanged).
pub open spec fn to_upper(b: u8) -> u8 {
    if is_lower(b) {
        (b - 32) as u8
    } else {
        b
    }
}

/// `n` space bytes.
pub open spec fn spaces(n: nat) -> Seq<u8> {
    Seq::new(n, |_i: int| 32u8)
}

/// The bytes of an ASCII text: each character as its byte.
pub open spec fn ascii_bytes(lit: Seq<char>) -> Seq<u8> {
    lit.map_values(|c: char| c as u8)
}

/// `lit` occurs in `s` starting at byte `i` (characters compared as code points).
pub open spec fn lit_at(s: Seq<u8>, i: int, lit: Seq<char>) -> bool {
    &&& 0 <= i
    &&& i + lit.len() <= s.len()
    &&& forall|k: int| 0 <= k < lit.len() ==> s[i + k] as u32 == #[trigger] lit[k] as u32
}

/// `s` with its trailing spaces removed.
pub open spec fn trim_end(s: Seq<u8>) -> Seq<u8>
    decreases s.len(),
{
    if s.len() > 0 && s.last() == 32u8 {
        trim_end(s.drop_last())
    } else {
        s
    }
}

/// Number of leading spaces of `s`.
pub open spec fn leading_spaces(s: Seq<u8>) -> nat
    decreases s.len(),
{
    if s.len() > 0 && s[0] == 32u8 {
        1 + leading_spaces(s.drop_first())
    } else {
        0
    }
}

/// The bytes themselves when they are valid UTF-8, otherwise nothing.
pub open spec fn utf8_or_empty(b: Seq<u8>) -> Seq<u8> {
    if valid_utf8(b) {
        b
    } else {
        Seq::empty()
    }
}

/// Index of the first occurrence of `x` in `s`, if any.
pub open spec fn find_byte(s: Seq<u8>, x: u8) -> Option<int>
    decreases s.len(),
{
    if s.len() == 0 {
        None
    } else if s[0] == x {
        Some(0)
    } else {
        match find_byte(s.drop_first(), x) {
            Some(k) => Some(k + 1),
            None => None,
        }
    }
}

/// Decimal digits of a natural number, most significant first.
pub open spec fn decimal_nat(n: nat) -> Seq<u8>
    decreases n,
{
    if n < 10 {
        seq![(48 + n) as u8]
    } else {
        decimal_nat(n / 10).push((48 + n % 10) as u8)
    }
}

/// Decimal text of an integer (`-` before negative numbers).
pub open spec fn decimal_int(v: int) -> Seq<u8> {
    if v < 0 {
        seq![45u8] + decimal_nat((-v) as nat)
    } else {
        decimal_nat(v as nat)
    }
}

/// Upper-case hexadecimal digit of a value below 16.
pub open spec fn hex_digit(d: nat) -> u8 {
    if d < 10 {
        (48 + d) as u8
    } else {
        (55 + d) as u8
    }
}

/// Upper-case hexadecimal text of a natural number, without leading zeros.
pub open spec fn hex_nat(n: nat) -> Seq<u8>
    decreases n,
{
    if n < 16 {
        seq![hex_digit(n)]
    } else {
        hex_nat(n / 16).push(hex_digit(n % 16))
    }
}

/// ASCII digit test.
pub fn ascii_digit(b: u8) -> (r: bool)
    ensures
        r == is_digit(b),
{
    48 <= b && b <= 57
}

/// ASCII upper-casing of one byte.
pub fn upper(b: u8) -> (r: u8)
    ensures
        r == to_upper(b),
{
    if 97 <= b && b <= 122 {
        b - 32
    } else {
        b
    }
}

/// Does `lit` occur in `s` at byte `i`?
pub fn has_lit(s: &[u8], i: usize, lit: &str) -> (r: bool)
    ensures
        r == lit_at(s@, i as int, lit@),
{
    let n = lit.unicode_len();
    if i > s.len() || n > s.len() - i {
        return false;
    }
    let mut k: usize = 0;
    while k < n
        invariant
            n == lit@.len(),
            i + n <= s@.len(),
            k <= n,
            i + n <= usize::MAX,
            forall|j: int| 0 <= j < k ==> #[trigger] s@[i + j] as u32 == lit@[j] as u32,
        decreases n - k,
    {
        let c = lit.get_char(k);
        if s[i + k] as u32 != c as u32 {
            return false;
        }
        k += 1;
    }
    true
}

/// Append the bytes of an ASCII literal.
pub fn push_lit(out: &mut Vec<u8>, lit: &str)
    ensures
        final(out)@ == old(out)@ + ascii_bytes(lit@),
{
    let n = lit.unicode_len();
    let mut k: usize = 0;
    while k < n
        invariant
            n == lit@.len(),
            k <= n,
            out@ == old(out)@ + ascii_bytes(lit@).subrange(0, k as int),
        decreases n - k,
    {
        let c = lit.get_char(k);
        out.push(c as u8);
        assert(ascii_bytes(lit@).subrange(0, k + 1) =~= ascii_bytes(lit@).subrange(0, k as int).push(c as u8));
        k += 1;
    }
    assert(ascii_bytes(lit@).subrange(0, n as int) =~= ascii_bytes(lit@));
}

/// Append `n` spaces.
pub fn push_spaces(out: &mut Vec<u8>, n: usize)
    ensures
        final(out)@ == old(out)@ + spaces(n as nat),
{
    let mut k: usize = 0;
    while k < n
        invariant
            k <= n,
            out@ == old(out)@ + spaces(k as nat),
        decreases n - k,
    {
        out.push(32u8);
        assert(spaces((k + 1) as nat) =~= spaces(k as nat).push(32u8));
        k += 1;
    }
}

/// Append `src[from..to]`.
pub fn push_range(out: &mut Vec<u8>, src: &[u8], from: usize, to: usize)
    requires
        from <= to <= src@.len(),
    ensures
        final(out)@ == old(out)@ + src@.subrange(from as int, to as int),
{
    let mut k: usize = from;
    while k < to
        invariant
            from <= k <= to <= src@.len(),
            out@ == old(out)@ + src@.subrange(from as int, k as int),
        decreases to - k,
    {
        out.push(src[k]);
        assert(src@.subrange(from as int, k + 1) =~= src@.subrange(from as int, k as int).push(src@[k as int]));
        k += 1;
    }
}

/// Copy `src[from..to]` into a new vector.
pub fn copy_range(src: &[u8], from: usize, to: usize) -> (r: Vec<u8>)
    requires
        from <= to <= src@.len(),
    ensures
        r@ == src@.subrange(from as int, to as int),
{
    let mut out: Vec<u8> = Vec::new();
    push_range(&mut out, src, from, to);
    assert(out@ =~= src@.subrange(from as int, to as int));
    out
}

/// Length of `s` once its trailing spaces are removed.
pub fn trim_end_len(s: &[u8]) -> (r: usize)
    ensures
        r <= s@.len(),
        s@.subrange(0, r as int) == trim_end(s@),
{
    let mut end = s.len();
    assert(s@.subrange(0, end as int) =~= s@);
    while end > 0 && s[end - 1] == 32u8
        invariant
            end <= s@.len(),
            trim_end(s@.subrange(0, end as int)) == trim_end(s@),
        decreases end,
    {
        assert(s@.subrange(0, end as int).drop_last() =~= s@.subrange(0, end - 1));
        end -= 1;
    }
    end
}

/// Number of leading spaces of `s`.
pub fn count_leading_spaces(s: &[u8]) -> (r: usize)
    ensures
        r == leading_spaces(s@),
        r <= s@.len(),
{
    let mut k: usize = 0;
    assert(s@.subrange(0, s@.len() as int) =~= s@);
    while k < s.len() && s[k] == 32u8
        invariant
            k <= s@.len(),
            leading_spaces(s@) == k + leading_spaces(s@.subrange(k as int, s@.len() as int)),
        decreases s.len() - k,
    {
        assert(s@.subrange(k as int, s@.len() as int).drop_first() =~= s@.subrange(k + 1, s@.len() as int));
        k += 1;
    }
    k
}

/// Position of the first `x` in `s`.
pub fn position_of(s: &[u8], x: u8) -> (r: Option<usize>)
    ensures
        r matches Some(k) ==> find_byte(s@, x) == Some(k as int),
        r is None ==> find_byte(s@, x) is None,
        r matches Some(k) ==> k < s@.len() && s@[k as int] == x,
        r matches Some(k) ==> forall|j: int| 0 <= j < k ==> s@[j] != x,
        r is None ==> forall|j: int| 0 <= j < s@.len() ==> s@[j] != x,
{
    let mut k: usize = 0;
    assert(s@.subrange(0, s@.len() as int) =~= s@);
    while k < s.len()
        invariant
            k <= s@.len(),
            forall|j: int| 0 <= j < k ==> s@[j] != x,
            find_byte(s@, x) == (match find_byte(s@.subrange(k as int, s@.len() as int), x) {
                Some(j) => Some(j + k),
                None => None,
            }),
        decreases s.len() - k,
    {
        if s[k] == x {
            return Some(k);
        }
        assert(s@.subrange(k as int, s@.len() as int).drop_first() =~= s@.subrange(k + 1, s@.len() as int));
        k += 1;
    }
    None
}

/// `String::from_utf8`: a string exactly when the bytes are valid UTF-8,
/// and then its UTF-8 encoding is those bytes.
#[verifier::external_body]
fn string_from_utf8(bytes: Vec<u8>) -> (r: Option<String>)
    ensures
        r is Some <==> valid_utf8(bytes@),
        r matches Some(s) ==> encode_utf8(s@) == bytes@,
{
    String::from_utf8(bytes).ok()
}

/// `std::str::from_utf8`: a string slice exactly when the bytes are valid
/// UTF-8, and then its encoding is those bytes.
#[verifier::external_body]
pub fn str_from_utf8(bytes: &[u8]) -> (r: Option<&str>)
    ensures
        r is Some <==> valid_utf8(bytes@),
        r matches Some(s) ==> encode_utf8(s@) == bytes@,
{
    std::str::from_utf8(bytes).ok()
}

/// `String::push`: appends one character.
#[verifier::external_body]
pub fn push_char(s: &mut String, c: char)
    ensures
        final(s)@ == old(s)@.push(c),
{
    s.push(c)
}

/// The bytes as a `String` when they are valid UTF-8, else the empty string.
pub fn owned_utf8(bytes: Vec<u8>) -> (r: String)
    ensures
        encode_utf8(r@) == utf8_or_empty(bytes@),
{
    match string_from_utf8(bytes) {
        Some(s) => s,
        None => String::new(),
    }
}

/// Decimal text of a non-negative number.
pub fn format_u64(n: u64) -> (r: Vec<u8>)
    ensures
        r@ == decimal_nat(n as nat),
    decreases n,
{
    if n < 10 {
        let mut v: Vec<u8> = Vec::new();
        v.push(48 + n as u8);
        assert(v@ =~= seq![(48 + n) as u8]);
        v
    } else {
        let mut v = format_u64(n / 10);
        v.push(48 + (n % 10) as u8);
        v
    }
}

/// Decimal text of a signed number, as `to_string` writes it.
pub fn format_i64(v: i64) -> (r: Vec<u8>)
    ensures
        r@ == decimal_int(v as int),
{
    if v < 0 {
        let mag: u64 = if v == i64::MIN { 9223372036854775808u64 } else { (-v) as u64 };
        let digits = format_u64(mag);
        let mut out: Vec<u8> = Vec::new();
        out.push(45u8);
        let mut k: usize = 0;
        while k < digits.len()
            invariant
                k <= digits@.len(),
                out@ == seq![45u8] + digits@.subrange(0, k as int),
            decreases digits.len() - k,
        {
            out.push(digits[k]);
            assert(digits@.subrange(0, k + 1) =~= digits@.subrange(0, k as int).push(digits@[k as int]));
            k += 1;
        }
        assert(digits@.subrange(0, digits@.len() as int) =~= digits@);
        out
    } else {
        format_u64(v as u64)
    }
}

/// Upper-case hexadecimal text of a number, without leading zeros.
pub fn format_hex(n: u64) -> (r: Vec<u8>)
    ensures
        r@ == hex_nat(n as nat),
    decreases n,
{
    let d = (n % 16) as u8;
    let c = if d < 10 { 48 + d } else { 55 + d };
    if n < 16 {
        let mut v: Vec<u8> = Vec::new();
        v.push(c);
        assert(v@ =~= seq![hex_digit(n as nat)]);
        v
    } else {
        let mut v = format_hex(n / 16);
        v.push(c);
        v
    }
}

/// In valid UTF-8, the position just after an ASCII byte starts a character.
pub proof fn lemma_boundary_after_ascii(b: Seq<u8>, i: int)
    requires
        valid_utf8(b),
        0 < i <= b.len(),
        b[i - 1] < 128,
    ensures
        is_char_boundary(b, i),
    decreases b.len(),
{
    let l = length_of_first_scalar(b);
    let pop = pop_first_scalar(b);
    assert(valid_first_scalar(b));
    assert(valid_utf8(pop));
    assert(pop.len() == b.len() - l);
    if i == 1 {
        assert(l == 1);
        assert(is_char_boundary(pop, 0));
    } else {
        if l > i - 1 {
            assert(is_continuation_byte(b[i - 1]));
        }
        assert(l <= i - 1);
        assert(pop[i - l - 1] == b[i - 1]);
        lemma_boundary_after_ascii(pop, i - l);
    }
    assert(is_char_boundary(b, i) == is_char_boundary(pop, i - l));
}

/// The bytes `b[from..to]` of valid UTF-8 are valid UTF-8 when `from` follows
/// an ASCII byte (or is 0) and `to` holds an ASCII byte (or is the end).
pub proof fn lemma_ascii_delimited_valid(b: Seq<u8>, from: int, to: int)
    requires
        valid_utf8(b),
        0 <= from <= to <= b.len(),
        from > 0 ==> b[from - 1] < 128,
        to < b.len() ==> b[to] < 128,
    ensures
        valid_utf8(b.subrange(from, to)),
{
    broadcast use valid_utf8_split, is_char_boundary_start_end_of_seq;

    let head = b.subrange(0, to);
    if to < b.len() {
        is_char_boundary_iff_not_is_continuation_byte(b, to);
        assert(is_char_boundary(b, to));
        assert(valid_utf8(head));
    } else {
        assert(head =~= b);
    }
    if from > 0 {
        if from < to {
            assert(head[from - 1] == b[from - 1]);
            lemma_boundary_after_ascii(head, from);
            assert(is_char_boundary(head, from));
            assert(valid_utf8(head.subrange(from, head.len() as int)));
            assert(head.subrange(from, head.len() as int) =~= b.subrange(from, to));
        } else {
            assert(b.subrange(from, to) =~= Seq::<u8>::empty());
        }
    } else {
        assert(head =~= b.subrange(from, to));
    }
}

/// Removing trailing spaces keeps a prefix, and the byte after it (if any)
/// is a space.
pub proof fn lemma_trim_end_prefix(x: Seq<u8>)
    ensures
        trim_end(x).len() <= x.len(),
        trim_end(x) == x.subrange(0, trim_end(x).len() as int),
        trim_end(x).len() < x.len() ==> x[trim_end(x).len() as int] == 32u8,
    decreases x.len(),
{
    if x.len() > 0 && x.last() == 32u8 {
        lemma_trim_end_prefix(x.drop_last());
        let t = trim_end(x.drop_last());
        assert(x.subrange(0, t.len() as int) =~= x.drop_last().subrange(0, t.len() as int));
    } else {
        assert(x.subrange(0, x.len() as int) =~= x);
    }
}

/// Trailing-space removal keeps UTF-8 valid.
pub proof fn lemma_trim_end_valid(x: Seq<u8>)
    requires
        valid_utf8(x),
    ensures
        valid_utf8(trim_end(x)),
{
    lemma_trim_end_prefix(x);
    lemma_ascii_delimited_valid(x, 0, trim_end(x).len() as int);
}

/// The leading spaces of `s` are spaces.
pub proof fn lemma_leading_spaces_prefix(s: Seq<u8>)
    ensures
        leading_spaces(s) <= s.len(),
        forall|i: int| 0 <= i < leading_spaces(s) ==> s[i] == 32u8,
        leading_spaces(s) < s.len() ==> s[leading_spaces(s) as int] != 32u8,
    decreases s.len(),
{
    if s.len() > 0 && s[0] == 32u8 {
        lemma_leading_spaces_prefix(s.drop_first());
        assert forall|i: int| 0 <= i < leading_spaces(s) implies s[i] == 32u8 by {
            if i > 0 {
                assert(s[i] == s.drop_first()[i - 1]);
            }
        }
    }
}

/// The characters of a byte string read one byte per character.
pub open spec fn latin1(b: Seq<u8>) -> Seq<char> {
    b.map_values(|x: u8| x as char)
}

/// A string holding one character per byte of `b`.
pub fn string_of_bytes(b: &[u8]) -> (r: String)
    ensures
        r@ == latin1(b@),
{
    let mut s = String::new();
    let mut k: usize = 0;
    while k < b.len()
        invariant
            k <= b@.len(),
            s@ == latin1(b@.subrange(0, k as int)),
        decreases b.len() - k,
    {
        push_char(&mut s, b[k] as char);
        assert(latin1(b@.subrange(0, k + 1)) =~= latin1(b@.subrange(0, k as int)).push(b@[k as int] as char));
        k += 1;
    }
    assert(b@.subrange(0, b@.len() as int) =~= b@);
    s
}

/// ASCII bytes read as characters encode back to the same bytes.
pub proof fn lemma_latin1_ascii(b: Seq<u8>)
    requires
        forall|i: int| 0 <= i < b.len() ==> b[i] < 128,
    ensures
        encode_utf8(latin1(b)) == b,
        valid_utf8(b),
{
    let c = latin1(b);
    assert(is_ascii_chars(c));
    is_ascii_chars_encode_utf8(c);
    assert(encode_utf8(c) =~= b);
    encode_utf8_valid_utf8(c);
}

/// The characters of a string slice, in order.
pub fn chars_of(s: &str) -> (r: Vec<char>)
    ensures
        r@ == s@,
{
    let n = s.unicode_len();
    let mut out: Vec<char> = Vec::new();
    let mut k: usize = 0;
    while k < n
        invariant
            n == s@.len(),
            k <= n,
            out@ == s@.subrange(0, k as int),
        decreases n - k,
    {
        out.push(s.get_char(k));
        assert(s@.subrange(0, k + 1) =~= s@.subrange(0, k as int).push(s@[k as int]));
        k += 1;
    }
    assert(s@.subrange(0, n as int) =~= s@);
    out
}

/// Length of the UTF-8 encoding of a `char::is_whitespace` character at the
/// start of `b`, or 0 when `b` does not start with one.
pub open spec fn ws_len(b: Seq<u8>) -> nat {
    if b.len() >= 1 && (b[0] == 32 || 9 <= b[0] <= 13) {
        1
    } else if b.len() >= 2 && b[0] == 0xc2 && (b[1] == 0x85 || b[1] == 0xa0) {
        2
    } else if b.len() >= 3 && b[0] == 0xe1 && b[1] == 0x9a && b[2] == 0x80 {
        3
    } else if b.len() >= 3 && b[0] == 0xe2 && b[1] == 0x80 && ((0x80 <= b[2] <= 0x8a) || b[2]
        == 0xa8 || b[2] == 0xa9 || b[2] == 0xaf) {
        3
    } else if b.len() >= 3 && b[0] == 0xe2 && b[1] == 0x81 && b[2] == 0x9f {
        3
    } else if b.len() >= 3 && b[0] == 0xe3 && b[1] == 0x80 && b[2] == 0x80 {
        3
    } else {
        0
    }
}

/// `str::trim_start` on the UTF-8 bytes of a string.
pub open spec fn trim_start_bytes(b: Seq<u8>) -> Seq<u8>
    decreases b.len(),
{
    let k = ws_len(b);
    if k == 0 {
        b
    } else {
        trim_start_bytes(b.subrange(k as int, b.len() as int))
    }
}

/// `ws_len` of `b[i..]`.
pub fn ws_len_at(b: &[u8], i: usize) -> (r: usize)
    requires
        i <= b@.len(),
    ensures
        r == ws_len(b@.subrange(i as int, b@.len() as int)),
        i + r <= b@.len(),
{
    let ghost t = b@.subrange(i as int, b@.len() as int);
    let n = b.len() - i;
    if n >= 1 && (b[i] == 32 || (9 <= b[i] && b[i] <= 13)) {
        return 1;
    }
    if n >= 2 && b[i] == 0xc2 && (b[i + 1] == 0x85 || b[i + 1] == 0xa0) {
        return 2;
    }
    if n >= 3 {
        let (x, y, z) = (b[i], b[i + 1], b[i + 2]);
        assert(t[0] == x && t[1] == y && t[2] == z);
        if x == 0xe1 && y == 0x9a && z == 0x80 {
            return 3;
        }
        if x == 0xe2 && y == 0x80 && ((0x80 <= z && z <= 0x8a) || z == 0xa8 || z == 0xa9 || z
            == 0xaf) {
            return 3;
        }
        if x == 0xe2 && y == 0x81 && z == 0x9f {
            return 3;
        }
        if x == 0xe3 && y == 0x80 && z == 0x80 {
            return 3;
        }
    }
    0
}

/// Where `str::trim_start` of `b[from..]` begins.
pub fn skip_ws(b: &[u8], from: usize) -> (r: usize)
    requires
        from <= b@.len(),
    ensures
        from <= r <= b@.len(),
        b@.subrange(r as int, b@.len() as int) == trim_start_bytes(
            b@.subrange(from as int, b@.len() as int),
        ),
{
    let mut i = from;
    loop
        invariant
            from <= i <= b@.len(),
            trim_start_bytes(b@.subrange(from as int, b@.len() as int)) == trim_start_bytes(
                b@.subrange(i as int, b@.len() as int),
            ),
        decreases b.len() - i,
    {
        let k = ws_len_at(b, i);
        if k == 0 {
            return i;
        }
        assert(b@.subrange(i as int, b@.len() as int).subrange(k as int, (b@.len() - i) as int)
            =~= b@.subrange(i + k, b@.len() as int));
        i += k;
    }
}

/// Number of ASCII digits in a row in `t` from position `i`.
pub open spec fn digit_run(t: Seq<u8>, i: int) -> nat
    decreases t.len() - i,
{
    if 0 <= i < t.len() && is_digit(t[i]) {
        1 + digit_run(t, i + 1)
    } else {
        0
    }
}

/// Value of a run of ASCII decimal digits.
pub open spec fn digits_val(t: Seq<u8>) -> int
    decreases t.len(),
{
    if t.len() == 0 {
        0
    } else {
        digits_val(t.drop_last()) * 10 + (t.last() - 48)
    }
}

/// `digit_run` of `t` from `i`, as a position.
pub fn digit_run_end(t: &[u8], i: usize) -> (r: usize)
    requires
        i <= t@.len(),
    ensures
        i <= r <= t@.len(),
        r - i == digit_run(t@, i as int),
        forall|j: int| i <= j < r ==> is_digit(#[trigger] t@[j]),
{
    let mut j = i;
    while j < t.len() && 48 <= t[j] && t[j] <= 57
        invariant
            i <= j <= t@.len(),
            forall|m: int| i <= m < j ==> is_digit(#[trigger] t@[m]),
        decreases t.len() - j,
    {
        j += 1;
    }
    proof {
        lemma_digit_run(t@, i as int, j as int);
    }
    j
}

/// A maximal run of digits from `i` to `j` has length `j - i`.
pub proof fn lemma_digit_run(t: Seq<u8>, i: int, j: int)
    requires
        0 <= i <= j <= t.len(),
        forall|m: int| i <= m < j ==> is_digit(#[trigger] t[m]),
        j == t.len() || !is_digit(t[j]),
    ensures
        digit_run(t, i) == j - i,
    decreases j - i,
{
    if i < j {
        lemma_digit_run(t, i + 1, j);
    }
}

/// Digits never sum to a negative value, and a longer run never to a
/// smaller one.
pub proof fn lemma_digits_val_grow(t: Seq<u8>, k: int)
    requires
        0 <= k <= t.len(),
        forall|m: int| 0 <= m < t.len() ==> is_digit(#[trigger] t[m]),
    ensures
        0 <= digits_val(t.subrange(0, k)) <= digits_val(t),
    decreases t.len(),
{
    if t.len() > 0 {
        if k == t.len() {
            assert(t.subrange(0, k) =~= t);
            lemma_digits_val_grow(t.drop_last(), k - 1);
            assert(t.drop_last().subrange(0, k - 1) =~= t.drop_last());
        } else {
            lemma_digits_val_grow(t.drop_last(), k);
            assert(t.drop_last().subrange(0, k) =~= t.subrange(0, k));
            lemma_digits_val_grow(t.drop_last(), t.len() - 1);
            assert(t.drop_last().subrange(0, t.len() - 1) =~= t.drop_last());
        }
    } else {
        assert(t.subrange(0, k) =~= t);
    }
}

/// Value of the digits `t[from..to]`, or `None` when it is above `limit`.
pub fn digits_value_upto(t: &[u8], from: usize, to: usize, limit: u64) -> (r: Option<u64>)
    requires
        from <= to <= t@.len(),
        forall|j: int| from <= j < to ==> is_digit(#[trigger] t@[j]),
        limit <= 0x8000_0000_0000_0000,
    ensures
        match r {
            Some(v) => v == digits_val(t@.subrange(from as int, to as int)) && v <= limit,
            None => digits_val(t@.subrange(from as int, to as int)) > limit,
        },
{
    let ghost d = t@.subrange(from as int, to as int);
    let mut v: u64 = 0;
    let mut k = from;
    while k < to
        invariant
            from <= k <= to <= t@.len(),
            d == t@.subrange(from as int, to as int),
            forall|j: int| from <= j < to ==> is_digit(#[trigger] t@[j]),
            v == digits_val(t@.subrange(from as int, k as int)),
            v <= limit,
            limit <= 0x8000_0000_0000_0000,
        decreases to - k,
    {
        assert(t@.subrange(from as int, k + 1).drop_last() =~= t@.subrange(from as int, k as int));
        assert(is_digit(t@[k as int]));
        let dg = (t[k] - 48) as u64;
        if (v as u128) * 10 + (dg as u128) > (limit as u128) {
            proof {
                assert forall|m: int| 0 <= m < d.len() implies is_digit(#[trigger] d[m]) by {
                    assert(d[m] == t@[from + m]);
                }
                lemma_digits_val_grow(d, k + 1 - from);
                assert(d.subrange(0, k + 1 - from) =~= t@.subrange(from as int, k + 1));
            }
            return None;
        }
        v = v * 10 + dg;
        k += 1;
    }
    Some(v)
}

/// What `String::from_utf8_lossy` makes of `b`: the characters of `b`, with
/// U+FFFD in place of each run of bytes that is not valid UTF-8.
pub uninterp spec fn utf8_lossy(b: Seq<u8>) -> Seq<char>;

/// `String::from_utf8_lossy(b).into_owned()`. Its result is named
/// `utf8_lossy`; on valid UTF-8 the documentation promises the string that
/// encodes to exactly `b`, which is stated.
#[verifier::external_body]
pub fn string_from_utf8_lossy(b: &[u8]) -> (r: String)
    ensures
        r@ == utf8_lossy(b@),
        valid_utf8(b@) ==> encode_utf8(r@) == b@,
{
    String::from_utf8_lossy(b).into_owned()
}

} // verus!
