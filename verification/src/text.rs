//! Character-level text primitives shared by every module.
//!
//! Text is handled as `Vec<char>` inside the library so that every algorithm is
//! stated over `Seq<char>`. Byte offsets, where a caller needs them, are the
//! UTF-8 offsets of the same characters.
use vstd::prelude::*;

verus! {

/// UTF-8 width of one character.
pub open spec fn char_width(c: char) -> nat {
    if (c as u32) < 0x80 {
        1
    } else if (c as u32) < 0x800 {
        2
    } else if (c as u32) < 0x10000 {
        3
    } else {
        4
    }
}

/// UTF-8 length in bytes of a character sequence.
pub open spec fn byte_len(s: Seq<char>) -> nat
    decreases s.len(),
{
    if s.len() == 0 {
        0
    } else {
        byte_len(s.drop_last()) + char_width(s.last())
    }
}

/// Byte offset at which character `k` of `s` starts.
pub open spec fn byte_offset(s: Seq<char>, k: int) -> nat {
    byte_len(s.take(k))
}

/// Number of characters of `s` that start before byte `b`.
pub open spec fn chars_before(s: Seq<char>, b: int) -> nat
    decreases s.len(),
{
    if s.len() == 0 {
        0
    } else if byte_len(s.drop_last()) < b {
        s.len()
    } else {
        chars_before(s.drop_last(), b)
    }
}

/// The White_Space property of Unicode, which `char::is_whitespace` tests.
pub open spec fn whitespace(c: char) -> bool {
    let v = c as u32;
    ||| 0x09 <= v <= 0x0D
    ||| v == 0x20
    ||| v == 0x85
    ||| v == 0xA0
    ||| v == 0x1680
    ||| 0x2000 <= v <= 0x200A
    ||| v == 0x2028
    ||| v == 0x2029
    ||| v == 0x202F
    ||| v == 0x205F
    ||| v == 0x3000
}

/// ASCII lowercase of one character; other characters are unchanged.
pub open spec fn ascii_lower(c: char) -> char {
    if 'A' <= c <= 'Z' {
        ((c as u32) + 32) as char
    } else {
        c
    }
}

/// ASCII uppercase of one character; other characters are unchanged.
pub open spec fn ascii_upper(c: char) -> char {
    if 'a' <= c <= 'z' {
        ((c as u32) - 32) as char
    } else {
        c
    }
}

pub open spec fn ascii_lower_seq(s: Seq<char>) -> Seq<char> {
    s.map_values(|c: char| ascii_lower(c))
}

pub open spec fn ascii_upper_seq(s: Seq<char>) -> Seq<char> {
    s.map_values(|c: char| ascii_upper(c))
}

/// Result of `str::to_lowercase`: the text under the Unicode lowercase
/// mapping, where a capital sigma becomes a final or a medial sigma by the
/// characters around it, so the result is not a map over single characters.
pub uninterp spec fn lowercase(s: Seq<char>) -> Seq<char>;

/// Result of `char::is_uppercase`: the Unicode Uppercase property.
pub uninterp spec fn uppercase_char(c: char) -> bool;

/// Result of `char::is_alphanumeric`: the Unicode Alphabetic or Numeric
/// property.
pub uninterp spec fn alphanumeric_char(c: char) -> bool;

/// Result of `char::to_uppercase`: the Unicode uppercase mapping of one
/// character, which can be several characters.
pub uninterp spec fn uppercase(c: char) -> Seq<char>;

/// Calls `char::to_uppercase`; the result is named `uppercase`.
#[verifier::external_body]
pub(crate) fn to_uppercase_char(c: char) -> (r: Vec<char>)
    ensures
        r@ == uppercase(c),
{
    c.to_uppercase().collect()
}

/// Calls `str::to_lowercase` on the text; the result is named `lowercase`.
#[verifier::external_body]
pub(crate) fn to_lowercase(s: &[char]) -> (r: Vec<char>)
    ensures
        r@ == lowercase(s@),
{
    let text: String = s.iter().collect();
    text.to_lowercase().chars().collect()
}

/// Calls `char::is_uppercase`; the result is named `uppercase_char`.
#[verifier::external_body]
pub(crate) fn is_uppercase(c: char) -> (r: bool)
    ensures
        r == uppercase_char(c),
{
    c.is_uppercase()
}

/// Calls `char::is_alphanumeric`; the result is named `alphanumeric_char`.
#[verifier::external_body]
pub(crate) fn is_alphanumeric(c: char) -> (r: bool)
    ensures
        r == alphanumeric_char(c),
{
    c.is_alphanumeric()
}

/// Collects the characters of a string slice (`str::chars`).
#[verifier::external_body]
pub(crate) fn chars_of(s: &str) -> (r: Vec<char>)
    ensures
        r@ == s@,
{
    s.chars().collect()
}

/// Builds a `String` from characters (`FromIterator<char>`).
#[verifier::external_body]
pub(crate) fn string_of(s: &[char]) -> (r: String)
    ensures
        r@ == s@,
{
    s.iter().collect()
}

/// `char::is_whitespace`, written out over the White_Space list.
pub fn is_whitespace(c: char) -> (r: bool)
    ensures
        r == whitespace(c),
{
    let v = c as u32;
    (0x09 <= v && v <= 0x0D) || v == 0x20 || v == 0x85 || v == 0xA0 || v == 0x1680 || (0x2000
        <= v && v <= 0x200A) || v == 0x2028 || v == 0x2029 || v == 0x202F || v == 0x205F || v
        == 0x3000
}

/// `char::len_utf8`.
pub fn width_of(c: char) -> (r: usize)
    ensures
        r == char_width(c),
{
    let v = c as u32;
    if v < 0x80 {
        1
    } else if v < 0x800 {
        2
    } else if v < 0x10000 {
        3
    } else {
        4
    }
}

/// ASCII lowercase of one character.
pub fn lower_ascii_char(c: char) -> (r: char)
    ensures
        r == ascii_lower(c),
{
    if 'A' <= c && c <= 'Z' {
        let v = (c as u32) + 32;
        let r = char_from_ascii(v);
        r
    } else {
        c
    }
}

/// ASCII uppercase of one character.
pub fn upper_ascii_char(c: char) -> (r: char)
    ensures
        r == ascii_upper(c),
{
    if 'a' <= c && c <= 'z' {
        let v = (c as u32) - 32;
        char_from_ascii(v)
    } else {
        c
    }
}

/// The character with an ASCII code.
fn char_from_ascii(v: u32) -> (r: char)
    requires
        v < 128,
    ensures
        r as u32 == v,
        r == v as char,
{
    let b = v as u8;
    assert(b as u32 == v) by (bit_vector)
        requires
            v < 128,
            b == v as u8,
    ;
    let r = b as char;
    assert(r as u32 == b as u32);
    r
}

pub fn lower_ascii(s: &[char]) -> (r: Vec<char>)
    ensures
        r@ == ascii_lower_seq(s@),
{
    let mut out: Vec<char> = Vec::new();
    let mut i: usize = 0;
    while i < s.len()
        invariant
            i <= s@.len(),
            out@ == ascii_lower_seq(s@.take(i as int)),
        decreases s@.len() - i,
    {
        out.push(lower_ascii_char(s[i]));
        assert(s@.take(i as int + 1) == s@.take(i as int).push(s@[i as int]));
        i += 1;
    }
    assert(s@.take(s@.len() as int) == s@);
    out
}

pub fn upper_ascii(s: &[char]) -> (r: Vec<char>)
    ensures
        r@ == ascii_upper_seq(s@),
{
    let mut out: Vec<char> = Vec::new();
    let mut i: usize = 0;
    while i < s.len()
        invariant
            i <= s@.len(),
            out@ == ascii_upper_seq(s@.take(i as int)),
        decreases s@.len() - i,
    {
        out.push(upper_ascii_char(s[i]));
        assert(s@.take(i as int + 1) == s@.take(i as int).push(s@[i as int]));
        i += 1;
    }
    assert(s@.take(s@.len() as int) == s@);
    out
}

/// Byte offsets only grow along a sequence.
pub proof fn lemma_byte_offset_monotone(s: Seq<char>, j: int, k: int)
    requires
        0 <= j <= k <= s.len(),
    ensures
        byte_offset(s, j) <= byte_offset(s, k),
    decreases k - j,
{
    if j < k {
        lemma_byte_offset_monotone(s, j, k - 1);
        assert(s.take(k).drop_last() == s.take(k - 1));
    }
}

/// Byte lengths add up over concatenation.
pub proof fn lemma_byte_len_concat(a: Seq<char>, b: Seq<char>)
    ensures
        byte_len(a + b) == byte_len(a) + byte_len(b),
    decreases b.len(),
{
    if b.len() == 0 {
        assert(a + b =~= a);
    } else {
        lemma_byte_len_concat(a, b.drop_last());
        assert((a + b).drop_last() =~= a + b.drop_last());
        assert((a + b).last() == b.last());
    }
}

/// `byte_offset(s, k + 1)` adds the width of character `k`.
pub proof fn lemma_byte_offset_step(s: Seq<char>, k: int)
    requires
        0 <= k < s.len(),
    ensures
        byte_offset(s, k + 1) == byte_offset(s, k) + char_width(s[k]),
{
    assert(s.take(k + 1).drop_last() == s.take(k));
}

/// The byte length of a prefix is the byte length of a longer prefix's prefix.
pub proof fn lemma_prefix_offsets(s: Seq<char>, n: int, k: int)
    requires
        0 <= k <= n <= s.len(),
    ensures
        byte_offset(s.take(n), k) == byte_offset(s, k),
{
    assert(s.take(n).take(k) == s.take(k));
}

/// Characterises `chars_before` by the first character at or after `b`.
pub proof fn lemma_chars_before(s: Seq<char>, b: int, k: int)
    requires
        0 <= k <= s.len(),
        forall|j: int| 0 <= j < k ==> byte_offset(s, j) < b,
        k == s.len() || byte_offset(s, k) >= b,
    ensures
        chars_before(s, b) == k,
    decreases s.len(),
{
    if s.len() == 0 {
    } else {
        let n = s.len() - 1;
        assert(s.drop_last() == s.take(n));
        if k == s.len() {
            assert(byte_offset(s, n) < b);
        } else {
            lemma_byte_offset_monotone(s, k, n);
            assert(byte_offset(s, n) >= b);
            assert forall|j: int| 0 <= j < k implies byte_offset(s.drop_last(), j) < b by {
                lemma_prefix_offsets(s, n, j);
            }
            if k < n {
                lemma_prefix_offsets(s, n, k);
            }
            lemma_chars_before(s.drop_last(), b, k);
        }
    }
}

pub proof fn lemma_chars_before_bounds(s: Seq<char>, a: int, b: int)
    ensures
        chars_before(s, a) <= s.len(),
        a <= b ==> chars_before(s, a) <= chars_before(s, b),
    decreases s.len(),
{
    if s.len() > 0 {
        lemma_chars_before_bounds(s.drop_last(), a, b);
    }
}

/// Whether byte `b` falls on a character boundary of `s` (or its end).
pub open spec fn is_boundary(s: Seq<char>, b: int) -> bool {
    0 <= b <= byte_len(s) && byte_offset(s, chars_before(s, b) as int) == b
}

/// `str::get(start..end)` over characters: the characters between two
/// byte offsets, when both fall on boundaries in order.
pub open spec fn byte_slice(s: Seq<char>, start: int, end: int) -> Option<Seq<char>> {
    if start <= end && is_boundary(s, start) && is_boundary(s, end) {
        Some(s.subrange(chars_before(s, start) as int, chars_before(s, end) as int))
    } else {
        None
    }
}

/// `str::get(start..end)`, given the byte offsets of `s`.
pub fn get_byte_range(s: &[char], offsets: &Vec<u128>, start: usize, end: usize) -> (r: Option<
    Vec<char>,
>)
    requires
        offsets@.len() == s@.len() + 1,
        forall|k: int| 0 <= k <= s@.len() ==> offsets@[k] == byte_offset(s@, k),
    ensures
        match r {
            Some(v) => byte_slice(s@, start as int, end as int) == Some(v@),
            None => byte_slice(s@, start as int, end as int) is None,
        },
{
    let n = s.len();
    assert(s@.take(n as int) == s@);
    if start > end || (start as u128) > offsets[n] || (end as u128) > offsets[n] {
        return None;
    }
    let a = count_chars_before(s, start as u128);
    let b = count_chars_before(s, end as u128);
    proof {
        lemma_chars_before_bounds(s@, start as int, end as int);
        lemma_chars_before_bounds(s@, end as int, end as int);
    }
    if offsets[a] != start as u128 || offsets[b] != end as u128 {
        return None;
    }
    Some(slice_chars(s, a, b))
}

/// Number of characters of `s` that start before byte `b`; the column of a
/// byte offset.
pub fn count_chars_before(s: &[char], b: u128) -> (r: usize)
    ensures
        r == chars_before(s@, b as int),
{
    let mut k: usize = 0;
    let mut pos: u128 = 0;
    while k < s.len() && pos < b
        invariant
            k <= s@.len(),
            pos == byte_offset(s@, k as int),
            pos <= 4 * k,
            forall|j: int| 0 <= j < k ==> byte_offset(s@, j) < b,
        decreases s@.len() - k,
    {
        proof {
            lemma_byte_offset_step(s@, k as int);
        }
        let w = width_of(s[k]);
        pos = pos + w as u128;
        k += 1;
    }
    proof {
        lemma_chars_before(s@, b as int, k as int);
    }
    k
}

/// Byte offset of every character boundary of `s`: entry `k` is where
/// character `k` starts, and the last entry is the byte length.
pub fn byte_offsets(s: &[char]) -> (r: Vec<u128>)
    ensures
        r@.len() == s@.len() + 1,
        forall|k: int| 0 <= k <= s@.len() ==> r@[k] == byte_offset(s@, k),
{
    let mut out: Vec<u128> = Vec::new();
    out.push(0);
    let mut pos: u128 = 0;
    let mut k: usize = 0;
    while k < s.len()
        invariant
            k <= s@.len(),
            out@.len() == k + 1,
            pos == byte_offset(s@, k as int),
            pos <= 4 * k,
            forall|j: int| 0 <= j <= k ==> out@[j] == byte_offset(s@, j),
        decreases s@.len() - k,
    {
        proof {
            lemma_byte_offset_step(s@, k as int);
        }
        pos = pos + width_of(s[k]) as u128;
        out.push(pos);
        k += 1;
    }
    out
}

/// UTF-8 length in bytes of `s`.
pub fn byte_length(s: &[char]) -> (r: u128)
    ensures
        r == byte_len(s@),
{
    let offs = byte_offsets(s);
    assert(s@.take(s@.len() as int) =~= s@);
    offs[s.len()]
}

/// Exact equality of two character slices.
pub fn chars_eq(a: &[char], b: &[char]) -> (r: bool)
    ensures
        r == (a@ == b@),
{
    if a.len() != b.len() {
        return false;
    }
    let mut i: usize = 0;
    while i < a.len()
        invariant
            a@.len() == b@.len(),
            i <= a@.len(),
            forall|j: int| 0 <= j < i ==> a@[j] == b@[j],
        decreases a@.len() - i,
    {
        if a[i] != b[i] {
            return false;
        }
        i += 1;
    }
    assert(a@ =~= b@);
    true
}

/// Whether two strings hold the same text.
pub fn same_text(a: &str, b: &str) -> (r: bool)
    ensures
        r == (a@ == b@),
{
    let x = chars_of(a);
    let y = chars_of(b);
    chars_eq(&x, &y)
}

/// `str` order: lexicographic by code point (which is the order of the
/// UTF-8 bytes), a proper prefix coming first.
pub open spec fn lex_lt(a: Seq<char>, b: Seq<char>) -> bool
    decreases a.len(),
{
    if a.len() == 0 {
        b.len() > 0
    } else if b.len() == 0 {
        false
    } else if a[0] != b[0] {
        (a[0] as int) < (b[0] as int)
    } else {
        lex_lt(a.drop_first(), b.drop_first())
    }
}

/// `lex_lt` is irreflexive, asymmetric and total.
pub proof fn lemma_lex_strict(a: Seq<char>, b: Seq<char>)
    ensures
        !lex_lt(a, a),
        lex_lt(a, b) ==> !lex_lt(b, a),
        a != b ==> lex_lt(a, b) || lex_lt(b, a),
    decreases a.len(),
{
    if a.len() > 0 {
        lemma_lex_strict(a.drop_first(), a.drop_first());
        if b.len() > 0 {
            lemma_lex_strict(a.drop_first(), b.drop_first());
            if a[0] == b[0] && a != b {
                assert(a.drop_first() != b.drop_first()) by {
                    if a.drop_first() == b.drop_first() {
                        assert(a =~= seq![a[0]] + a.drop_first());
                        assert(b =~= seq![b[0]] + b.drop_first());
                    }
                }
            }
        }
    } else if b.len() == 0 {
        assert(a =~= b);
    }
}

/// `lex_lt` is transitive.
pub proof fn lemma_lex_trans(a: Seq<char>, b: Seq<char>, c: Seq<char>)
    requires
        lex_lt(a, b),
        lex_lt(b, c),
    ensures
        lex_lt(a, c),
    decreases a.len(),
{
    if a.len() > 0 && b.len() > 0 && c.len() > 0 && a[0] == b[0] && b[0] == c[0] {
        lemma_lex_trans(a.drop_first(), b.drop_first(), c.drop_first());
    }
}

/// Whether `a` comes before `b` in `str` order.
pub fn lex_less(a: &[char], b: &[char]) -> (r: bool)
    ensures
        r == lex_lt(a@, b@),
{
    let mut i: usize = 0;
    assert(a@.skip(0) =~= a@);
    assert(b@.skip(0) =~= b@);
    while i < a.len() && i < b.len()
        invariant
            i <= a@.len(),
            i <= b@.len(),
            lex_lt(a@, b@) == lex_lt(a@.skip(i as int), b@.skip(i as int)),
        decreases a@.len() - i,
    {
        assert(a@.skip(i as int).drop_first() =~= a@.skip(i + 1));
        assert(b@.skip(i as int).drop_first() =~= b@.skip(i + 1));
        if a[i] != b[i] {
            return a[i] < b[i];
        }
        i += 1;
    }
    i == a.len() && i < b.len()
}

/// Whether `s` starts with `p`.
pub fn starts_with(s: &[char], p: &[char]) -> (r: bool)
    ensures
        r == p@.is_prefix_of(s@),
{
    if p.len() > s.len() {
        return false;
    }
    let mut i: usize = 0;
    while i < p.len()
        invariant
            p@.len() <= s@.len(),
            i <= p@.len(),
            forall|j: int| 0 <= j < i ==> p@[j] == s@[j],
        decreases p@.len() - i,
    {
        if p[i] != s[i] {
            return false;
        }
        i += 1;
    }
    true
}

/// Whether `s` ends with `p`.
pub fn ends_with(s: &[char], p: &[char]) -> (r: bool)
    ensures
        r == p@.is_suffix_of(s@),
{
    if p.len() > s.len() {
        return false;
    }
    let n = s.len();
    let off = n - p.len();
    let mut i: usize = 0;
    while i < p.len()
        invariant
            n == s@.len(),
            p@.len() <= s@.len(),
            off == s@.len() - p@.len(),
            i <= p@.len(),
            forall|j: int| 0 <= j < i ==> p@[j] == s@[off + j],
        decreases p@.len() - i,
    {
        if p[i] != s[off + i] {
            return false;
        }
        i += 1;
    }
    true
}

/// Whether `c` occurs in `s`.
pub fn contains_char(s: &[char], c: char) -> (r: bool)
    ensures
        r == s@.contains(c),
{
    let mut i: usize = 0;
    while i < s.len()
        invariant
            i <= s@.len(),
            forall|j: int| 0 <= j < i ==> s@[j] != c,
        decreases s@.len() - i,
    {
        if s[i] == c {
            return true;
        }
        i += 1;
    }
    false
}

/// Copies `s[from..to]`.
pub fn slice_chars(s: &[char], from: usize, to: usize) -> (r: Vec<char>)
    requires
        from <= to <= s@.len(),
    ensures
        r@ == s@.subrange(from as int, to as int),
{
    let mut out: Vec<char> = Vec::new();
    let mut i: usize = from;
    while i < to
        invariant
            from <= i <= to <= s@.len(),
            out@ == s@.subrange(from as int, i as int),
        decreases to - i,
    {
        out.push(s[i]);
        assert(s@.subrange(from as int, i as int + 1) == s@.subrange(from as int, i as int).push(
            s@[i as int],
        ));
        i += 1;
    }
    out
}

/// Copies a character slice.
pub fn copy_chars(s: &[char]) -> (r: Vec<char>)
    ensures
        r@ == s@,
{
    let r = slice_chars(s, 0, s.len());
    assert(s@.subrange(0, s@.len() as int) =~= s@);
    r
}

/// Appends the characters of `b` to `a`.
pub fn append_chars(a: &mut Vec<char>, b: &[char])
    ensures
        final(a)@ == old(a)@ + b@,
{
    let mut i: usize = 0;
    while i < b.len()
        invariant
            i <= b@.len(),
            a@ == old(a)@ + b@.take(i as int),
        decreases b@.len() - i,
    {
        a.push(b[i]);
        assert(b@.take(i as int + 1) == b@.take(i as int).push(b@[i as int]));
        i += 1;
    }
    assert(b@.take(b@.len() as int) == b@);
}

/// Decimal digits of `n`, most significant first, as ASCII bytes.
pub open spec fn decimal(n: nat) -> Seq<u8>
    decreases n,
{
    if n < 10 {
        seq![(48 + n) as u8]
    } else {
        decimal(n / 10).push((48 + n % 10) as u8)
    }
}

/// Decimal digits of `n` as characters.
pub open spec fn decimal_chars(n: nat) -> Seq<char> {
    decimal(n).map_values(|b: u8| b as char)
}

/// Appends the decimal digits of `n` (`format!("{n}")`).
pub fn push_decimal(out: &mut Vec<u8>, n: u64)
    ensures
        final(out)@ == old(out)@ + decimal(n as nat),
    decreases n,
{
    if n >= 10 {
        push_decimal(out, n / 10);
    }
    out.push(48 + (n % 10) as u8);
    assert(old(out)@ + decimal(n as nat) =~= out@);
}

/// The decimal digits of `n` as characters.
pub fn decimal_string(n: u64) -> (r: Vec<char>)
    ensures
        r@ == decimal_chars(n as nat),
{
    let mut bytes: Vec<u8> = Vec::new();
    push_decimal(&mut bytes, n);
    assert(bytes@ =~= decimal(n as nat));
    proof {
        lemma_decimal_digits(n as nat);
    }
    let mut out: Vec<char> = Vec::new();
    let mut i: usize = 0;
    while i < bytes.len()
        invariant
            i <= bytes@.len(),
            bytes@ == decimal(n as nat),
            forall|k: int| 0 <= k < decimal(n as nat).len() ==> 48 <= #[trigger] decimal(n as nat)[k] <= 57,
            out@ == decimal(n as nat).take(i as int).map_values(|b: u8| b as char),
        decreases bytes@.len() - i,
    {
        out.push(ascii_char(bytes[i]));
        assert(decimal(n as nat).take(i + 1) == decimal(n as nat).take(i as int).push(bytes@[i as int]));
        assert(out@ =~= decimal(n as nat).take(i + 1).map_values(|b: u8| b as char));
        i += 1;
    }
    assert(decimal(n as nat).take(bytes@.len() as int) == decimal(n as nat));
    out
}

/// The character for an ASCII byte.
pub fn ascii_char(b: u8) -> (r: char)
    requires
        b < 128,
    ensures
        r == b as char,
{
    char_from_ascii(b as u32)
}

/// Every decimal digit is an ASCII digit.
pub proof fn lemma_decimal_digits(n: nat)
    ensures
        forall|k: int| 0 <= k < decimal(n).len() ==> 48 <= #[trigger] decimal(n)[k] <= 57,
        decimal(n).len() >= 1,
    decreases n,
{
    if n >= 10 {
        lemma_decimal_digits(n / 10);
    }
}

/// Whether `n` occurs in `h` at index `i`.
pub fn occurs_at(h: &[char], n: &[char], i: usize) -> (r: bool)
    requires
        i + n@.len() <= h@.len(),
    ensures
        r == (h@.subrange(i as int, i + n@.len()) == n@),
{
    let hl = h.len();
    let mut k: usize = 0;
    while k < n.len()
        invariant
            hl == h@.len(),
            i + n@.len() <= h@.len(),
            k <= n@.len(),
            forall|j: int| 0 <= j < k ==> h@[i + j] == n@[j],
        decreases n@.len() - k,
    {
        if h[i + k] != n[k] {
            assert(h@.subrange(i as int, i + n@.len())[k as int] != n@[k as int]);
            return false;
        }
        k += 1;
    }
    assert(h@.subrange(i as int, i + n@.len()) =~= n@);
    true
}

/// `s` with every non-overlapping occurrence of `pat` (scanning left to
/// right) replaced by `rep`, as `str::replace` does.
pub open spec fn replaced(s: Seq<char>, pat: Seq<char>, rep: Seq<char>) -> Seq<char>
    decreases s.len(),
{
    if pat.len() == 0 || s.len() == 0 {
        s
    } else if pat.is_prefix_of(s) {
        rep + replaced(s.skip(pat.len() as int), pat, rep)
    } else {
        seq![s[0]] + replaced(s.skip(1), pat, rep)
    }
}

/// `str::replace` over characters, for a non-empty pattern.
pub fn replace_all(s: &[char], pat: &[char], rep: &[char]) -> (r: Vec<char>)
    requires
        pat@.len() > 0,
    ensures
        r@ == replaced(s@, pat@, rep@),
{
    let n = s.len();
    let mut out: Vec<char> = Vec::new();
    let mut i: usize = 0;
    assert(s@.skip(0) == s@);
    assert(out@ + replaced(s@, pat@, rep@) =~= replaced(s@, pat@, rep@));
    while i < n
        invariant
            n == s@.len(),
            pat@.len() > 0,
            i <= n,
            replaced(s@, pat@, rep@) == out@ + replaced(s@.skip(i as int), pat@, rep@),
        decreases n - i,
    {
        let ghost rest = s@.skip(i as int);
        if pat.len() <= n - i && occurs_at(s, pat, i) {
            assert(pat@.is_prefix_of(rest)) by {
                assert(s@.subrange(i as int, i + pat@.len()) == pat@);
                assert forall|k: int| 0 <= k < pat@.len() implies pat@[k] == rest[k] by {
                    assert(s@.subrange(i as int, i + pat@.len())[k] == s@[i + k]);
                }
            }
            assert(rest.skip(pat@.len() as int) == s@.skip(i + pat@.len()));
            let ghost before = out@;
            let ghost tail = replaced(s@.skip(i + pat@.len()), pat@, rep@);
            append_chars(&mut out, rep);
            assert(before + (rep@ + tail) =~= out@ + tail);
            i = i + pat.len();
        } else {
            assert(!pat@.is_prefix_of(rest)) by {
                if pat@.is_prefix_of(rest) {
                    assert(s@.subrange(i as int, i + pat@.len()) =~= pat@) by {
                        assert forall|k: int| 0 <= k < pat@.len() implies s@.subrange(
                            i as int,
                            i + pat@.len(),
                        )[k] == pat@[k] by {
                            assert(rest[k] == s@[i + k]);
                        }
                    }
                }
            }
            assert(rest.skip(1) == s@.skip(i + 1));
            assert(seq![s@[i as int]] =~= seq![rest[0]]);
            let c = s[i];
            let ghost before = out@;
            let ghost tail = replaced(s@.skip(i + 1), pat@, rep@);
            out.push(c);
            assert(before + (seq![c] + tail) =~= out@ + tail);
            i = i + 1;
        }
    }
    assert(replaced(s@.skip(n as int), pat@, rep@) =~= seq![]);
    assert(out@ + seq![] =~= out@);
    out
}

pub open spec fn space_or_tab(c: char) -> bool {
    c == ' ' || c == '\t'
}

/// `s` without its leading Unicode whitespace.
pub open spec fn skip_ws(s: Seq<char>) -> Seq<char>
    decreases s.len(),
{
    if s.len() > 0 && whitespace(s[0]) {
        skip_ws(s.skip(1))
    } else {
        s
    }
}

/// `s` without its trailing Unicode whitespace.
pub open spec fn drop_ws_end(s: Seq<char>) -> Seq<char>
    decreases s.len(),
{
    if s.len() > 0 && whitespace(s.last()) {
        drop_ws_end(s.drop_last())
    } else {
        s
    }
}

/// `str::trim`.
pub open spec fn trim(s: Seq<char>) -> Seq<char> {
    drop_ws_end(skip_ws(s))
}

/// `s` without its leading spaces and tabs.
pub open spec fn skip_space_tab(s: Seq<char>) -> Seq<char>
    decreases s.len(),
{
    if s.len() > 0 && space_or_tab(s[0]) {
        skip_space_tab(s.skip(1))
    } else {
        s
    }
}

/// `s` without its trailing spaces and tabs.
pub open spec fn drop_space_tab_end(s: Seq<char>) -> Seq<char>
    decreases s.len(),
{
    if s.len() > 0 && space_or_tab(s.last()) {
        drop_space_tab_end(s.drop_last())
    } else {
        s
    }
}

/// `s` without any leading copies of `c`.
pub open spec fn skip_char(s: Seq<char>, c: char) -> Seq<char>
    decreases s.len(),
{
    if s.len() > 0 && s[0] == c {
        skip_char(s.skip(1), c)
    } else {
        s
    }
}

pub fn trim_start_ws(s: &[char]) -> (r: Vec<char>)
    ensures
        r@ == skip_ws(s@),
{
    let mut i: usize = 0;
    assert(s@.skip(0) == s@);
    while i < s.len() && is_whitespace(s[i])
        invariant
            i <= s@.len(),
            skip_ws(s@) == skip_ws(s@.skip(i as int)),
        decreases s@.len() - i,
    {
        assert(s@.skip(i as int).skip(1) == s@.skip(i + 1));
        i += 1;
    }
    assert(s@.skip(i as int) == s@.subrange(i as int, s@.len() as int));
    slice_chars(s, i, s.len())
}

pub fn trim_end_ws(s: &[char]) -> (r: Vec<char>)
    ensures
        r@ == drop_ws_end(s@),
{
    let mut j: usize = s.len();
    assert(s@.take(s@.len() as int) == s@);
    while j > 0 && is_whitespace(s[j - 1])
        invariant
            j <= s@.len(),
            drop_ws_end(s@) == drop_ws_end(s@.take(j as int)),
        decreases j,
    {
        assert(s@.take(j as int).drop_last() == s@.take(j - 1));
        j -= 1;
    }
    assert(s@.take(j as int) == s@.subrange(0, j as int));
    slice_chars(s, 0, j)
}

/// `str::trim`.
pub fn trim_ws(s: &[char]) -> (r: Vec<char>)
    ensures
        r@ == trim(s@),
{
    let a = trim_start_ws(s);
    trim_end_ws(&a)
}

pub fn trim_start_space_tab(s: &[char]) -> (r: Vec<char>)
    ensures
        r@ == skip_space_tab(s@),
{
    let mut i: usize = 0;
    assert(s@.skip(0) == s@);
    while i < s.len() && (s[i] == ' ' || s[i] == '\t')
        invariant
            i <= s@.len(),
            skip_space_tab(s@) == skip_space_tab(s@.skip(i as int)),
        decreases s@.len() - i,
    {
        assert(s@.skip(i as int).skip(1) == s@.skip(i + 1));
        i += 1;
    }
    assert(s@.skip(i as int) == s@.subrange(i as int, s@.len() as int));
    slice_chars(s, i, s.len())
}

pub fn trim_end_space_tab(s: &[char]) -> (r: Vec<char>)
    ensures
        r@ == drop_space_tab_end(s@),
{
    let mut j: usize = s.len();
    assert(s@.take(s@.len() as int) == s@);
    while j > 0 && (s[j - 1] == ' ' || s[j - 1] == '\t')
        invariant
            j <= s@.len(),
            drop_space_tab_end(s@) == drop_space_tab_end(s@.take(j as int)),
        decreases j,
    {
        assert(s@.take(j as int).drop_last() == s@.take(j - 1));
        j -= 1;
    }
    assert(s@.take(j as int) == s@.subrange(0, j as int));
    slice_chars(s, 0, j)
}

pub fn trim_start_char(s: &[char], c: char) -> (r: Vec<char>)
    ensures
        r@ == skip_char(s@, c),
{
    let mut i: usize = 0;
    assert(s@.skip(0) == s@);
    while i < s.len() && s[i] == c
        invariant
            i <= s@.len(),
            skip_char(s@, c) == skip_char(s@.skip(i as int), c),
        decreases s@.len() - i,
    {
        assert(s@.skip(i as int).skip(1) == s@.skip(i + 1));
        i += 1;
    }
    assert(s@.skip(i as int) == s@.subrange(i as int, s@.len() as int));
    slice_chars(s, i, s.len())
}

/// `s` split at every `c` (`str::split` with a character), as pieces.
pub open spec fn split_on(s: Seq<char>, c: char) -> Seq<Seq<char>>
    decreases s.len(),
{
    if s.len() == 0 {
        seq![Seq::<char>::empty()]
    } else {
        let r = split_on(s.drop_last(), c);
        if s.last() == c {
            r.push(Seq::<char>::empty())
        } else {
            r.update(r.len() - 1, r.last().push(s.last()))
        }
    }
}

pub proof fn lemma_split_on_nonempty(s: Seq<char>, c: char)
    ensures
        split_on(s, c).len() >= 1,
    decreases s.len(),
{
    if s.len() > 0 {
        lemma_split_on_nonempty(s.drop_last(), c);
    }
}

/// `str::split` on one character.
pub fn split_char(s: &[char], c: char) -> (r: Vec<Vec<char>>)
    ensures
        r@.len() == split_on(s@, c).len(),
        forall|k: int| 0 <= k < r@.len() ==> #[trigger] r@[k]@ == split_on(s@, c)[k],
{
    let mut pieces: Vec<Vec<char>> = Vec::new();
    let mut current: Vec<char> = Vec::new();
    let mut i: usize = 0;
    assert(s@.take(0) =~= Seq::<char>::empty());
    while i < s.len()
        invariant
            i <= s@.len(),
            pieces@.len() + 1 == split_on(s@.take(i as int), c).len(),
            forall|k: int| 0 <= k < pieces@.len() ==> #[trigger] pieces@[k]@ == split_on(s@.take(i as int), c)[k],
            current@ == split_on(s@.take(i as int), c).last(),
        decreases s@.len() - i,
    {
        proof {
            lemma_split_on_nonempty(s@.take(i as int), c);
            assert(s@.take(i + 1).drop_last() == s@.take(i as int));
            assert(s@.take(i + 1).last() == s@[i as int]);
        }
        if s[i] == c {
            let done = current;
            pieces.push(done);
            current = Vec::new();
        } else {
            current.push(s[i]);
        }
        i += 1;
    }
    assert(s@.take(s@.len() as int) == s@);
    pieces.push(current);
    pieces
}

} // verus!
