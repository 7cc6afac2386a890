use vstd::prelude::*;
use vstd::std_specs::iter::IteratorSpec;

verus! {

/// The characters whose code points are the given bytes (Latin-1 reading).
pub open spec fn latin1_chars(bytes: Seq<u8>) -> Seq<char> {
    Seq::new(bytes.len(), |i: int| bytes[i] as char)
}

pub open spec fn is_ascii_bytes(bytes: Seq<u8>) -> bool {
    forall|i: int| 0 <= i < bytes.len() ==> #[trigger] bytes[i] < 128
}

/// What `String::from_utf8_lossy` makes of a byte sequence.
pub uninterp spec fn utf8_lossy(bytes: Seq<u8>) -> Seq<char>;

/// The text `String::from_utf8_lossy` makes of bytes: ASCII character for
/// byte, valid UTF-8 decoded as it is, anything else the named lossy decoding.
pub open spec fn lossy_text(bytes: Seq<u8>) -> Seq<char> {
    if is_ascii_bytes(bytes) {
        latin1_chars(bytes)
    } else if vstd::utf8::valid_utf8(bytes) {
        vstd::utf8::decode_utf8(bytes)
    } else {
        utf8_lossy(bytes)
    }
}

/// Decodes bytes as UTF-8 with `String::from_utf8_lossy` and takes ownership of the result.
/// Claims: ASCII bytes and valid UTF-8 are decoded as they are (the result is
/// then the string the bytes encode); other bytes give the named lossy decoding.
#[verifier::external_body]
pub(crate) fn lossy_string(bytes: &[u8]) -> (res: String)
    ensures
        res@ == lossy_text(bytes@),
        !vstd::utf8::valid_utf8(bytes@) ==> res@ == utf8_lossy(bytes@),
{
    String::from_utf8_lossy(bytes).into_owned()
}

/// Appends one character with `String::push`.
/// Claims: the character is added at the end and nothing else changes.
#[verifier::external_body]
pub(crate) fn push_char(s: &mut String, c: char)
    ensures
        final(s)@ == old(s)@.push(c),
{
    s.push(c)
}

pub fn byte_char(b: u8) -> (c: char)
    ensures
        c == b as char,
{
    b as char
}

} // verus!

verus! {

/// The bytes of an ASCII string, one per character.
pub fn ascii_bytes(s: &str) -> (b: &[u8])
    requires
        vstd::utf8::is_ascii_chars(s@),
    ensures
        latin1_chars(b@) == s@,
{
    let b = s.as_bytes();
    proof {
        vstd::utf8::is_ascii_chars_encode_utf8(s@);
        assert forall|i: int| 0 <= i < s@.len() implies #[trigger] latin1_chars(b@)[i] == s@[i] by {
            assert(s@[i] as u8 == b@[i]);
            assert((s@[i] as int) < 128);
        }
        assert(latin1_chars(b@) =~= s@);
    }
    b
}

} // verus!

verus! {

pub open spec fn is_unicode_scalar(v: u32) -> bool {
    v < 0xD800 || (0xE000 <= v && v <= 0x10FFFF)
}

/// Converts a code point with `char::from_u32`.
/// Claims: the result is the character for every Unicode scalar value and
/// `None` for surrogates and values above U+10FFFF, as std documents.
#[verifier::external_body]
pub(crate) fn char_from_u32(v: u32) -> (res: Option<char>)
    ensures
        is_unicode_scalar(v) ==> res == Some(v as char),
        !is_unicode_scalar(v) ==> res is None,
{
    char::from_u32(v)
}

pub open spec fn is_high_surrogate(u: u16) -> bool {
    0xD800 <= u && u <= 0xDBFF
}

pub open spec fn is_low_surrogate(u: u16) -> bool {
    0xDC00 <= u && u <= 0xDFFF
}

pub open spec fn replacement_char() -> char {
    '\u{FFFD}'
}

pub open spec fn pair_code_point(hi: u16, lo: u16) -> u32 {
    (0x10000 + (hi - 0xD800) * 0x400 + (lo - 0xDC00)) as u32
}

/// UTF-16 decoding in which every unpaired surrogate becomes U+FFFD, as
/// `String::from_utf16_lossy` documents.
pub open spec fn utf16_lossy(u: Seq<u16>) -> Seq<char>
    decreases u.len(),
{
    if u.len() == 0 {
        Seq::empty()
    } else if u.len() >= 2 && is_high_surrogate(u[0]) && is_low_surrogate(u[1]) {
        seq![pair_code_point(u[0], u[1]) as char] + utf16_lossy(u.subrange(2, u.len() as int))
    } else if 0xD800 <= u[0] && u[0] <= 0xDFFF {
        seq![replacement_char()] + utf16_lossy(u.subrange(1, u.len() as int))
    } else {
        seq![u[0] as u32 as char] + utf16_lossy(u.subrange(1, u.len() as int))
    }
}

/// Decodes UTF-16, replacing unpaired surrogates by U+FFFD.
pub fn utf16_lossy_string(u: &[u16]) -> (res: String)
    ensures
        res@ == utf16_lossy(u@),
{
    let mut out = String::new();
    let mut i: usize = 0;
    assert(u@.subrange(0, u@.len() as int) =~= u@);
    assert(out@ + utf16_lossy(u@) =~= utf16_lossy(u@));
    while i < u.len()
        invariant
            i <= u@.len(),
            utf16_lossy(u@) == out@ + utf16_lossy(u@.subrange(i as int, u@.len() as int)),
        decreases u@.len() - i,
    {
        let ghost rest = u@.subrange(i as int, u@.len() as int);
        let a = u[i];
        if i + 1 < u.len() && 0xD800u16 <= a && a <= 0xDBFFu16 && 0xDC00u16 <= u[i + 1] && u[i + 1]
            <= 0xDFFFu16 {
            let b = u[i + 1];
            let cp: u32 = 0x10000u32 + ((a - 0xD800u16) as u32) * 0x400u32 + ((b - 0xDC00u16) as u32);
            assert(cp == pair_code_point(a, b));
            let c = match char_from_u32(cp) {
                Some(c) => c,
                None => '\u{FFFD}',
            };
            assert(is_unicode_scalar(cp));
            let ghost before = out@;
            push_char(&mut out, c);
            proof {
                assert(rest.subrange(2, rest.len() as int) =~= u@.subrange(i + 2, u@.len() as int));
                assert(before + (seq![c] + utf16_lossy(rest.subrange(2, rest.len() as int))) =~= out@
                    + utf16_lossy(u@.subrange(i + 2, u@.len() as int)));
            }
            i = i + 2;
        } else {
            let c = if 0xD800u16 <= a && a <= 0xDFFFu16 {
                '\u{FFFD}'
            } else {
                match char_from_u32(a as u32) {
                    Some(c) => c,
                    None => '\u{FFFD}',
                }
            };
            let ghost before = out@;
            push_char(&mut out, c);
            proof {
                assert(rest.subrange(1, rest.len() as int) =~= u@.subrange(i + 1, u@.len() as int));
                assert(before + (seq![c] + utf16_lossy(rest.subrange(1, rest.len() as int))) =~= out@
                    + utf16_lossy(u@.subrange(i + 1, u@.len() as int)));
            }
            i = i + 1;
        }
    }
    proof {
        assert(u@.subrange(i as int, u@.len() as int) =~= Seq::<u16>::empty());
        assert(out@ + Seq::<char>::empty() =~= out@);
    }
    out
}

} // verus!

verus! {

/// Checks UTF-8 with `std::str::from_utf8` and copies the text.
/// Claims: text is returned exactly when the bytes are valid UTF-8, and it is
/// their decoding.
#[verifier::external_body]
pub(crate) fn utf8_string(bytes: &[u8]) -> (res: Option<String>)
    ensures
        res is Some <==> vstd::utf8::valid_utf8(bytes@),
        res matches Some(s) ==> s@ == vstd::utf8::decode_utf8(bytes@),
{
    std::str::from_utf8(bytes).ok().map(|s| s.to_string())
}

} // verus!

verus! {

/// The characters of a string, in order.
pub fn string_chars(s: &str) -> (res: Vec<char>)
    ensures
        res@ == s@,
{
    broadcast use vstd::string::axiom_spec_iter, vstd::string::next_postcondition;
    let mut it = s.chars();
    let mut out: Vec<char> = Vec::new();
    loop
        invariant
            out@ + it.remaining() == s@,
            it.obeys_prophetic_iter_laws(),
            it.decrease() is Some,
        decreases it.decrease()->0,
    {
        match it.next() {
            Some(c) => {
                out.push(c);
            },
            None => {
                return out;
            },
        }
    }
}

} // verus!
