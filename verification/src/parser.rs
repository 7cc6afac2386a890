use vstd::prelude::*;
use crate::numbers::{parse_u16, parse_u32, parse_u64, parse_unsigned, unsigned_body, all_char_digits, char_is_digit};
use crate::text::{latin1_chars, string_chars, utf8_string};
use vstd::utf8::{decode_utf8, valid_utf8};
use vstd::string::StrSliceExecFns;
use std::collections::HashMap;
use crate::ast_parser::{parse_bytes_spec, parse_object_bytes};
use crate::error::{ErrModel, PdfError};
use crate::object::{DictModel, ObjModel, PdfObject};
use crate::text::push_char;
use crate::xref::{opt_dict_model, XrefEntry, XrefTable};
use crate::numbers::parse_unsigned_bytes;
use vstd::utf8::encode_utf8;
use crate::lexer::{bytes_equal, is_digit, lex, occurs_at};
use crate::ast_parser::{parse_obj, PState, Parser};
use crate::object::PdfDictionary;

verus! {

// ---------------------------------------------------------------- reading lines

/// Why a line could not be read.
#[derive(Debug, PartialEq, Eq, Structural)]
pub enum LineError {
    /// The bytes of the line are not UTF-8.
    InvalidUtf8,
    /// The limit was reached before a newline.
    LimitExceeded,
}

pub open spec fn line_span_from(r: Seq<u8>, i: int, w: int) -> int
    decreases w - i,
{
    if i >= w {
        w
    } else if r[i] == 10 {
        i + 1
    } else {
        line_span_from(r, i + 1, w)
    }
}

/// The number of bytes a line read takes from `r` when at most `limit` may be
/// read: up to and including the first newline, or all that may be read.
pub open spec fn line_span(r: Seq<u8>, limit: nat) -> int {
    let w = if limit < r.len() {
        limit as int
    } else {
        r.len() as int
    };
    line_span_from(r, 0, w)
}

pub proof fn lemma_line_span_from(r: Seq<u8>, i: int, w: int)
    requires
        0 <= i <= w <= r.len(),
    ensures
        i <= line_span_from(r, i, w) <= w,
        line_span_from(r, i, w) > i || i == w,
    decreases w - i,
{
    if i < w && r[i] != 10 {
        lemma_line_span_from(r, i + 1, w);
    }
}

pub open spec fn ends_with_newline(s: Seq<char>) -> bool {
    s.len() > 0 && s.last() == '\n'
}

/// A read of one line of at most `limit` bytes from `r` into a buffer holding
/// `buf`: the outcome, the buffer afterwards, and the number of bytes taken from
/// the reader. Bytes that are not UTF-8 leave the buffer as it was; a line that
/// reaches the limit without a newline is refused after it was appended.
pub open spec fn read_line_spec(r: Seq<u8>, buf: Seq<char>, limit: nat) -> (
    Result<nat, LineError>,
    Seq<char>,
    int,
) {
    let n = line_span(r, limit);
    let chunk = r.subrange(0, n);
    if !valid_utf8(chunk) {
        (Err(LineError::InvalidUtf8), buf, n)
    } else {
        let b2 = buf + decode_utf8(chunk);
        if n == limit && !ends_with_newline(b2) {
            (Err(LineError::LimitExceeded), b2, n)
        } else {
            (Ok(n as nat), b2, n)
        }
    }
}

pub proof fn lemma_line_span(r: Seq<u8>, limit: nat)
    ensures
        0 <= line_span(r, limit) <= r.len(),
        line_span(r, limit) <= limit,
        line_span(r, limit) == 0 ==> (r.len() == 0 || limit == 0),
{
    let w = if limit < r.len() {
        limit as int
    } else {
        r.len() as int
    };
    lemma_line_span_from(r, 0, w);
}

/// Reads one line of at most `limit` bytes from the front of `reader`, appending
/// it to `buf`, as `BufRead::read_line` does on a reader limited by `take`.
pub fn read_line_core(reader: &mut &[u8], buf: &mut String, limit: u64) -> (res: Result<
    usize,
    LineError,
>)
    ensures
        ({
            let s = read_line_spec(old(reader)@, old(buf)@, limit as nat);
            &&& final(buf)@ == s.1
            &&& final(reader)@ == old(reader)@.subrange(s.2, old(reader)@.len() as int)
            &&& match s.0 {
                Ok(n) => res matches Ok(k) && k as nat == n,
                Err(e) => res == Err::<usize, LineError>(e),
            }
        }),
{
    let r: &[u8] = *reader;
    let len = r.len();
    let w: usize = if limit < len as u64 {
        limit as usize
    } else {
        len
    };
    proof {
        lemma_line_span(r@, limit as nat);
    }
    let mut i: usize = 0;
    while i < w && r[i] != 10u8
        invariant
            i <= w <= r@.len(),
            w == (if (limit as nat) < r@.len() {
                limit as int
            } else {
                r@.len() as int
            }),
            line_span_from(r@, i as int, w as int) == line_span(r@, limit as nat),
        decreases w - i,
    {
        i = i + 1;
    }
    let n: usize = if i < w {
        i + 1
    } else {
        w
    };
    let chunk = vstd::slice::slice_subrange(r, 0, n);
    *reader = vstd::slice::slice_subrange(r, n, len);
    match utf8_string(chunk) {
        None => Err(LineError::InvalidUtf8),
        Some(text) => {
            buf.append(text.as_str());
            let l = buf.as_str().unicode_len();
            let ends = l > 0 && buf.as_str().get_char(l - 1) == '\n';
            if n as u64 == limit && !ends {
                Err(LineError::LimitExceeded)
            } else {
                Ok(n)
            }
        },
    }
}

/// The error type of `std::io`.
#[verifier::external_type_specification]
#[verifier::external_body]
pub struct ExIoError(std::io::Error);

/// Builds an `std::io::Error` of kind `InvalidData` with the given message,
/// by `std::io::Error::new`. Nothing is claimed of the value: `std::io::Error`
/// is declared opaque here, so its kind and message are left unsaid (the kind
/// of failure is stated by `read_line_core`, as a `LineError`).
#[verifier::external_body]
fn invalid_data_error(msg: &str) -> std::io::Error {
    std::io::Error::new(std::io::ErrorKind::InvalidData, msg)
}

/// Reads one line of at most `limit` bytes from the front of `reader` into
/// `buf`; a line that reaches the limit without a newline is an error, which
/// bounds what an unterminated line can make the reader allocate.
pub fn read_line_limited(reader: &mut &[u8], buf: &mut String, limit: u64) -> (res: Result<
    usize,
    std::io::Error,
>)
    ensures
        ({
            let s = read_line_spec(old(reader)@, old(buf)@, limit as nat);
            &&& final(buf)@ == s.1
            &&& final(reader)@ == old(reader)@.subrange(s.2, old(reader)@.len() as int)
            &&& match s.0 {
                Ok(n) => res matches Ok(k) && k == n,
                Err(_) => res is Err,
            }
        }),
        old(reader)@.len() - final(reader)@.len() <= limit,
{
    proof {
        lemma_line_span(old(reader)@, limit as nat);
    }
    match read_line_core(reader, buf, limit) {
        Ok(n) => Ok(n),
        Err(LineError::InvalidUtf8) => Err(invalid_data_error("stream did not contain valid UTF-8")),
        Err(LineError::LimitExceeded) => Err(invalid_data_error("Line length limit exceeded")),
    }
}

// ---------------------------------------------------------------- characters of a line

/// Whitespace as `char::is_whitespace` has it: the Unicode `White_Space` characters.
pub open spec fn is_unicode_space(c: char) -> bool {
    ('\u{9}' <= c && c <= '\u{d}') || c == ' ' || c == '\u{85}' || c == '\u{a0}' || c
        == '\u{1680}' || ('\u{2000}' <= c && c <= '\u{200a}') || c == '\u{2028}' || c
        == '\u{2029}' || c == '\u{202f}' || c == '\u{205f}' || c == '\u{3000}'
}

pub fn is_unicode_space_char(c: char) -> (res: bool)
    ensures
        res == is_unicode_space(c),
{
    ('\u{9}' <= c && c <= '\u{d}') || c == ' ' || c == '\u{85}' || c == '\u{a0}' || c
        == '\u{1680}' || ('\u{2000}' <= c && c <= '\u{200a}') || c == '\u{2028}' || c
        == '\u{2029}' || c == '\u{202f}' || c == '\u{205f}' || c == '\u{3000}'
}

pub open spec fn trim_start(s: Seq<char>) -> Seq<char>
    decreases s.len(),
{
    if s.len() > 0 && is_unicode_space(s[0]) {
        trim_start(s.drop_first())
    } else {
        s
    }
}

pub open spec fn trim_end(s: Seq<char>) -> Seq<char>
    decreases s.len(),
{
    if s.len() > 0 && is_unicode_space(s.last()) {
        trim_end(s.drop_last())
    } else {
        s
    }
}

/// The text without its leading and trailing whitespace.
pub open spec fn trim(s: Seq<char>) -> Seq<char> {
    trim_end(trim_start(s))
}

pub open spec fn starts_with(s: Seq<char>, p: Seq<char>) -> bool {
    p.len() <= s.len() && s.subrange(0, p.len() as int) == p
}

/// The text after every leading repetition of `p` (as `trim_start_matches`).
pub open spec fn strip_repeated(s: Seq<char>, p: Seq<char>) -> Seq<char>
    decreases s.len(),
{
    if p.len() > 0 && starts_with(s, p) {
        strip_repeated(s.subrange(p.len() as int, s.len() as int), p)
    } else {
        s
    }
}

/// Splitting on whitespace from position `i`, with the word being read and the
/// words found so far.
pub open spec fn split_from(s: Seq<char>, i: int, cur: Seq<char>, acc: Seq<Seq<char>>) -> Seq<
    Seq<char>,
>
    decreases s.len() - i,
{
    if i >= s.len() {
        if cur.len() > 0 {
            acc.push(cur)
        } else {
            acc
        }
    } else if is_unicode_space(s[i]) {
        split_from(
            s,
            i + 1,
            Seq::empty(),
            if cur.len() > 0 {
                acc.push(cur)
            } else {
                acc
            },
        )
    } else {
        split_from(s, i + 1, cur.push(s[i]), acc)
    }
}

/// The words of a text: its maximal runs of non-whitespace characters (as
/// `split_whitespace`).
pub open spec fn words(s: Seq<char>) -> Seq<Seq<char>> {
    split_from(s, 0, Seq::empty(), Seq::empty())
}

pub open spec fn words_view(v: Seq<Vec<char>>) -> Seq<Seq<char>> {
    v.map_values(|w: Vec<char>| w@)
}

/// The bounds of the text left by `trim`.
fn trim_bounds(s: &[char]) -> (res: (usize, usize))
    ensures
        res.0 <= res.1 <= s@.len(),
        trim(s@) == s@.subrange(res.0 as int, res.1 as int),
{
    let mut a: usize = 0;
    assert(s@.subrange(0, s@.len() as int) =~= s@);
    while a < s.len() && is_unicode_space_char(s[a])
        invariant
            a <= s@.len(),
            trim_start(s@) == trim_start(s@.subrange(a as int, s@.len() as int)),
        decreases s@.len() - a,
    {
        assert(s@.subrange(a as int, s@.len() as int).drop_first() =~= s@.subrange(
            a + 1,
            s@.len() as int,
        ));
        a = a + 1;
    }
    let ghost t = s@.subrange(a as int, s@.len() as int);
    assert(trim_start(t) == t);
    let mut b: usize = s.len();
    while b > a && is_unicode_space_char(s[b - 1])
        invariant
            a <= b <= s@.len(),
            t == s@.subrange(a as int, s@.len() as int),
            trim_start(s@) == t,
            trim_end(t) == trim_end(s@.subrange(a as int, b as int)),
        decreases b - a,
    {
        assert(s@.subrange(a as int, b as int).drop_last() =~= s@.subrange(a as int, b - 1));
        b = b - 1;
    }
    (a, b)
}

/// Whether the text starts with the given characters.
fn starts_with_chars(s: &[char], p: &[char]) -> (res: bool)
    ensures
        res == starts_with(s@, p@),
{
    if p.len() > s.len() {
        return false;
    }
    let mut i: usize = 0;
    while i < p.len()
        invariant
            p@.len() <= s@.len(),
            i <= p@.len(),
            forall|k: int| 0 <= k < i ==> s@[k] == p@[k],
        decreases p@.len() - i,
    {
        if s[i] != p[i] {
            assert(s@.subrange(0, p@.len() as int)[i as int] != p@[i as int]);
            return false;
        }
        i = i + 1;
    }
    assert(s@.subrange(0, p@.len() as int) =~= p@);
    true
}

/// The words of a text, as `split_whitespace` gives them.
fn split_words(s: &[char]) -> (res: Vec<Vec<char>>)
    ensures
        words_view(res@) == words(s@),
{
    let mut acc: Vec<Vec<char>> = Vec::new();
    let mut cur: Vec<char> = Vec::new();
    let mut i: usize = 0;
    assert(words_view(acc@) =~= Seq::<Seq<char>>::empty());
    while i < s.len()
        invariant
            i <= s@.len(),
            split_from(s@, i as int, cur@, words_view(acc@)) == words(s@),
        decreases s@.len() - i,
    {
        let c = s[i];
        if is_unicode_space_char(c) {
            if cur.len() > 0 {
                let w = cur;
                cur = Vec::new();
                let ghost before = acc@;
                acc.push(w);
                assert(words_view(acc@) =~= words_view(before).push(w@));
            } else {
                cur = Vec::new();
            }
            assert(cur@ =~= Seq::<char>::empty());
        } else {
            cur.push(c);
        }
        i = i + 1;
    }
    if cur.len() > 0 {
        let ghost before = acc@;
        let ghost last = cur@;
        acc.push(cur);
        assert(words_view(acc@) =~= words_view(before).push(last));
    }
    acc
}

// ---------------------------------------------------------------- the cross-reference table

broadcast use vstd::std_specs::hash::group_hash_axioms;

pub open spec fn line_error_model(e: LineError) -> ErrModel {
    match e {
        LineError::InvalidUtf8 => ErrModel::Io("stream did not contain valid UTF-8"@),
        LineError::LimitExceeded => ErrModel::Io("Line length limit exceeded"@),
    }
}

/// Reading a line of at most 1024 bytes from the front of `r` into an empty
/// buffer: its characters or the error, and the number of bytes taken.
pub open spec fn xref_line(r: Seq<u8>) -> (Result<Seq<char>, ErrModel>, int) {
    let s = read_line_spec(r, Seq::empty(), 1024);
    match s.0 {
        Ok(_) => (Ok(s.1), s.2),
        Err(e) => (Err(line_error_model(e)), s.2),
    }
}

pub open spec fn xref_word() -> Seq<char> {
    seq!['x', 'r', 'e', 'f']
}

pub open spec fn trailer_word() -> Seq<char> {
    seq!['t', 'r', 'a', 'i', 'l', 'e', 'r']
}

/// An entry line `nnnnnnnnnn ggggg n` (in use, at a byte offset) or
/// `nnnnnnnnnn ggggg f` (free, with the next free object): at least three words.
pub open spec fn entry_spec(line: Seq<char>) -> Result<XrefEntry, ErrModel> {
    let parts = words(line);
    if parts.len() < 3 {
        Err(ErrModel::InvalidXrefFormat)
    } else {
        match parse_unsigned(parts[0], u64::MAX as int) {
            None => Err(ErrModel::InvalidXrefFormat),
            Some(num1) => match parse_unsigned(parts[1], u16::MAX as int) {
                None => Err(ErrModel::InvalidXrefFormat),
                Some(g) => if parts[2] == seq!['n'] {
                    Ok(XrefEntry::InUse { byte_offset: num1 as u64, generation_number: g as u16 })
                } else if parts[2] == seq!['f'] {
                    Ok(XrefEntry::Free { next_free_object: num1 as u32, generation_number: g as u16 })
                } else {
                    Err(ErrModel::InvalidXrefFormat)
                },
            },
        }
    }
}

/// The end of reading a cross-reference table: the table (entries and trailer)
/// or an error; or the point where an object number `start + i` leaves `u32`.
pub enum XrefOutcome {
    Done(Result<(Map<u32, XrefEntry>, Option<DictModel>), ErrModel>),
    Overflow,
}

/// The trailer: the text after `trailer` on its line, then the rest of the
/// data, read as one object that must be a dictionary.
pub open spec fn trailer_outcome(rest: Seq<u8>, t: Seq<char>, entries: Map<u32, XrefEntry>) -> Result<
    (Map<u32, XrefEntry>, Option<DictModel>),
    ErrModel,
> {
    let inline = trim(strip_repeated(t, trailer_word()));
    match parse_bytes_spec(encode_utf8(inline) + rest) {
        Err(e) => Err(e),
        Ok(ObjModel::Dictionary(d)) => Ok((entries, Some(d))),
        Ok(_) => Err(ErrModel::InvalidTrailer),
    }
}

/// Reading the lines of a table from the remaining bytes `r`. `sub` is the
/// subsection being read: its first object number, its count, and how many of
/// its entries were read.
pub open spec fn xref_scan(r: Seq<u8>, sub: Option<(u32, u32, u32)>, entries: Map<u32, XrefEntry>) -> XrefOutcome
    decreases r.len(), if sub is Some {
        1int
    } else {
        0int
    },
{
    let l = xref_line(r);
    proof {
        lemma_line_span(r, 1024);
        if l.1 == 0 {
            assert(r.subrange(0, 0) =~= Seq::<u8>::empty());
            assert(Seq::<char>::empty() + Seq::<char>::empty() =~= Seq::<char>::empty());
        }
    }
    let rest = r.subrange(l.1, r.len() as int);
    match sub {
        Some((start, count, i)) => if i >= count {
            xref_scan(r, None, entries)
        } else {
            match l.0 {
                Err(e) => XrefOutcome::Done(Err(e)),
                Ok(line) => match entry_spec(line) {
                    Err(e) => XrefOutcome::Done(Err(e)),
                    Ok(entry) => if start + i > u32::MAX {
                        XrefOutcome::Overflow
                    } else {
                        xref_scan(
                            rest,
                            Some((start, count, (i + 1) as u32)),
                            entries.insert((start + i) as u32, entry),
                        )
                    },
                },
            }
        },
        None => match l.0 {
            Err(e) => XrefOutcome::Done(Err(e)),
            Ok(line) => if l.1 == 0 {
                XrefOutcome::Done(Ok((entries, None)))
            } else {
                let t = trim(line);
                if t.len() == 0 {
                    xref_scan(rest, None, entries)
                } else if starts_with(t, trailer_word()) {
                    XrefOutcome::Done(trailer_outcome(rest, t, entries))
                } else {
                    let parts = words(t);
                    if parts.len() != 2 {
                        XrefOutcome::Done(Err(ErrModel::InvalidXrefFormat))
                    } else {
                        match parse_unsigned(parts[0], u32::MAX as int) {
                            None => XrefOutcome::Done(Err(ErrModel::InvalidXrefFormat)),
                            Some(first) => match parse_unsigned(parts[1], u32::MAX as int) {
                                None => XrefOutcome::Done(Err(ErrModel::InvalidXrefFormat)),
                                Some(count) => xref_scan(
                                    rest,
                                    Some((first as u32, count as u32, 0u32)),
                                    entries,
                                ),
                            },
                        }
                    }
                }
            },
        },
    }
}

/// Reading a cross-reference table at `offset`: a line starting with `xref`,
/// then subsections (a line `first count`, then `count` entry lines) up to the
/// end of the data or a `trailer` line.
pub open spec fn xref_table_spec(data: Seq<u8>, offset: u64) -> XrefOutcome {
    let start = if offset > data.len() {
        data.len() as int
    } else {
        offset as int
    };
    let r = data.subrange(start, data.len() as int);
    let l = xref_line(r);
    match l.0 {
        Err(e) => XrefOutcome::Done(Err(e)),
        Ok(line) => if !starts_with(trim(line), xref_word()) {
            XrefOutcome::Done(Err(ErrModel::InvalidXrefFormat))
        } else {
            xref_scan(r.subrange(l.1, r.len() as int), None, Map::empty())
        },
    }
}

/// Reads a line of at most 1024 bytes and returns its characters and length.
fn read_xref_line(reader: &mut &[u8]) -> (res: Result<(Vec<char>, usize), PdfError>)
    ensures
        ({
            let l = xref_line(old(reader)@);
            &&& final(reader)@ == old(reader)@.subrange(l.1, old(reader)@.len() as int)
            &&& match l.0 {
                Ok(line) => res matches Ok((v, n)) && v@ == line && n == l.1,
                Err(e) => res matches Err(x) && x@ == e,
            }
        }),
{
    let mut buf = String::new();
    proof {
        lemma_line_span(reader@, 1024);
    }
    match read_line_core(reader, &mut buf, 1024) {
        Ok(n) => Ok((string_chars(buf.as_str()), n)),
        Err(LineError::InvalidUtf8) => Err(
            PdfError::Io(String::from_str("stream did not contain valid UTF-8")),
        ),
        Err(LineError::LimitExceeded) => Err(
            PdfError::Io(String::from_str("Line length limit exceeded")),
        ),
    }
}

/// Reads a word as an unsigned integer no larger than `max`.
fn parse_word(w: &[char], max: u64) -> (res: Option<u64>)
    requires
        max >= 9,
    ensures
        match parse_unsigned(w@, max as int) {
            Some(v) => res matches Some(x) && x as int == v && v <= max,
            None => res is None,
        },
{
    let mut bytes: Vec<u8> = Vec::new();
    let mut i: usize = 0;
    while i < w.len()
        invariant
            i <= w@.len(),
            bytes@.len() == i,
            forall|k: int| 0 <= k < i ==> #[trigger] (bytes@[k] as char) == w@[k],
        decreases w@.len() - i,
    {
        let v = w[i] as u32;
        if v >= 128 {
            proof {
                let body = unsigned_body(w@);
                if w@.len() > 0 && w@[0] == '+' {
                    assert(body[i - 1] == w@[i as int]);
                    assert(!char_is_digit(body[i - 1]));
                } else {
                    assert(body[i as int] == w@[i as int]);
                    assert(!char_is_digit(body[i as int]));
                }
            }
            return None;
        }
        proof {
            vstd::utf8::char_u32_cast(w@[i as int], v);
            assert((v as u8) as u32 == v);
            assert(((v as u8) as char) == (v as char));
        }
        bytes.push(v as u8);
        i = i + 1;
    }
    assert(latin1_chars(bytes@) =~= w@);
    parse_unsigned_bytes(bytes.as_slice(), max)
}

/// Reads one entry line of the table.
fn parse_entry(line: &[char]) -> (res: Result<XrefEntry, PdfError>)
    ensures
        match entry_spec(line@) {
            Ok(e) => res == Ok::<XrefEntry, PdfError>(e),
            Err(e) => res matches Err(x) && x@ == e,
        },
{
    let parts = split_words(line);
    if parts.len() < 3 {
        return Err(PdfError::InvalidXrefFormat);
    }
    assert(parts@[0]@ == words(line@)[0]);
    assert(parts@[1]@ == words(line@)[1]);
    assert(parts@[2]@ == words(line@)[2]);
    let num1 = match parse_word(parts[0].as_slice(), 0xFFFF_FFFF_FFFF_FFFFu64) {
        Some(v) => v,
        None => {
            return Err(PdfError::InvalidXrefFormat);
        },
    };
    let gen = match parse_word(parts[1].as_slice(), 0xFFFFu64) {
        Some(v) => {
            assert(v <= 0xFFFF);
            v as u16
        },
        None => {
            return Err(PdfError::InvalidXrefFormat);
        },
    };
    let status = &parts[2];
    if status.len() == 1 && status[0] == 'n' {
        assert(status@ =~= seq!['n']);
        Ok(XrefEntry::InUse { byte_offset: num1, generation_number: gen })
    } else if status.len() == 1 && status[0] == 'f' {
        assert(status@ =~= seq!['f']);
        let next_free: u32 = #[verifier::truncate] (num1 as u32);
        assert(next_free == (num1 as int) as u32) by (bit_vector)
            requires
                next_free == num1 as u32,
        ;
        Ok(XrefEntry::Free { next_free_object: next_free, generation_number: gen })
    } else {
        proof {
            if status@ == seq!['n'] {
                assert(status@[0] == 'n');
            }
            if status@ == seq!['f'] {
                assert(status@[0] == 'f');
            }
        }
        Err(PdfError::InvalidXrefFormat)
    }
}

/// Reads the trailer dictionary: the text after `trailer` on its line, then the
/// rest of the data.
fn read_trailer(t: &[char], rest: &[u8], table: XrefTable) -> (res: Result<XrefTable, PdfError>)
    ensures
        match trailer_outcome(rest@, t@, table.entries@) {
            Ok((m, d)) => res matches Ok(tab) && tab.entries@ == m && opt_dict_model(
                tab.trailer_dict,
            ) == d,
            Err(e) => res matches Err(x) && x@ == e,
        },
{
    let kw: [char; 7] = ['t', 'r', 'a', 'i', 'l', 'e', 'r'];
    assert(kw@ =~= trailer_word());
    let mut k: usize = 0;
    assert(t@.subrange(0, t@.len() as int) =~= t@);
    while starts_with_chars(vstd::slice::slice_subrange(t, k, t.len()), &kw)
        invariant
            k <= t@.len(),
            kw@ == trailer_word(),
            strip_repeated(t@, trailer_word()) == strip_repeated(
                t@.subrange(k as int, t@.len() as int),
                trailer_word(),
            ),
        decreases t@.len() - k,
    {
        assert(t@.subrange(k as int, t@.len() as int).subrange(7, t@.len() - k) =~= t@.subrange(
            k + 7,
            t@.len() as int,
        ));
        k = k + 7;
    }
    let after = vstd::slice::slice_subrange(t, k, t.len());
    let (a, b) = trim_bounds(after);
    let inline = vstd::slice::slice_subrange(after, a, b);
    let mut text = String::new();
    let mut j: usize = 0;
    while j < inline.len()
        invariant
            j <= inline@.len(),
            text@ == inline@.subrange(0, j as int),
        decreases inline@.len() - j,
    {
        push_char(&mut text, inline[j]);
        j = j + 1;
        assert(text@ =~= inline@.subrange(0, j as int));
    }
    assert(inline@.subrange(0, inline@.len() as int) =~= inline@);
    let mut tdata = vstd::slice::slice_to_vec(text.as_str().as_bytes());
    let mut remaining = vstd::slice::slice_to_vec(rest);
    tdata.append(&mut remaining);
    let obj = parse_object_bytes(tdata.as_slice())?;
    match obj {
        PdfObject::Dictionary(d) => {
            let mut table = table;
            table.trailer_dict = Some(d);
            Ok(table)
        },
        _ => Err(PdfError::InvalidTrailer),
    }
}

/// Reads the cross-reference table at `offset`; `None` where an object number
/// `first + i` of a subsection leaves `u32`.
fn scan_xref_table(data: &[u8], offset: u64) -> (res: Option<Result<XrefTable, PdfError>>)
    ensures
        match xref_table_spec(data@, offset) {
            XrefOutcome::Done(Ok((m, t))) => res matches Some(Ok(tab)) && tab.entries@ == m
                && opt_dict_model(tab.trailer_dict) == t,
            XrefOutcome::Done(Err(e)) => res matches Some(Err(x)) && x@ == e,
            XrefOutcome::Overflow => res is None,
        },
{
    let ghost total = xref_table_spec(data@, offset);
    let len = data.len();
    let start: usize = if offset > len as u64 {
        len
    } else {
        offset as usize
    };
    let mut reader: &[u8] = vstd::slice::slice_subrange(data, start, len);
    let first = match read_xref_line(&mut reader) {
        Ok((f, _n)) => f,
        Err(e) => {
            return Some(Err(e));
        },
    };
    let (a0, b0) = trim_bounds(first.as_slice());
    let head = vstd::slice::slice_subrange(first.as_slice(), a0, b0);
    let xref_kw: [char; 4] = ['x', 'r', 'e', 'f'];
    assert(xref_kw@ =~= xref_word());
    if !starts_with_chars(head, &xref_kw) {
        return Some(Err(PdfError::InvalidXrefFormat));
    }
    let trailer_kw: [char; 7] = ['t', 'r', 'a', 'i', 'l', 'e', 'r'];
    assert(trailer_kw@ =~= trailer_word());
    let mut table = XrefTable::new();
    loop
        invariant
            total == xref_table_spec(data@, offset),
            xref_scan(reader@, None, table.entries@) == total,
            table.trailer_dict is None,
            trailer_kw@ == trailer_word(),
        decreases reader@.len(),
    {
        let ghost r = reader@;
        proof {
            lemma_line_span(r, 1024);
        }
        let (line, n) = match read_xref_line(&mut reader) {
            Ok(x) => x,
            Err(e) => {
                return Some(Err(e));
            },
        };
        if n == 0 {
            return Some(Ok(table));
        }
        let (a, b) = trim_bounds(line.as_slice());
        let t = vstd::slice::slice_subrange(line.as_slice(), a, b);
        if t.len() == 0 {
            continue;
        }
        if starts_with_chars(t, &trailer_kw) {
            return Some(read_trailer(t, reader, table));
        }
        let parts = split_words(t);
        if parts.len() != 2 {
            return Some(Err(PdfError::InvalidXrefFormat));
        }
        assert(parts@[0]@ == words(t@)[0]);
        assert(parts@[1]@ == words(t@)[1]);
        let first_obj: u32 = match parse_word(parts[0].as_slice(), 0xFFFF_FFFFu64) {
            Some(v) => v as u32,
            None => {
                return Some(Err(PdfError::InvalidXrefFormat));
            },
        };
        let count: u32 = match parse_word(parts[1].as_slice(), 0xFFFF_FFFFu64) {
            Some(v) => v as u32,
            None => {
                return Some(Err(PdfError::InvalidXrefFormat));
            },
        };
        let mut i: u32 = 0;
        while i < count
            invariant
                total == xref_table_spec(data@, offset),
                xref_scan(reader@, Some((first_obj, count, i)), table.entries@) == total,
                table.trailer_dict is None,
                trailer_kw@ == trailer_word(),
                reader@.len() < r.len(),
                i <= count,
            decreases count - i,
        {
            proof {
                lemma_line_span(reader@, 1024);
            }
            let eline = match read_xref_line(&mut reader) {
                Ok((l, _m)) => l,
                Err(e) => {
                    return Some(Err(e));
                },
            };
            let entry = match parse_entry(eline.as_slice()) {
                Ok(e) => e,
                Err(e) => {
                    return Some(Err(e));
                },
            };
            let key = match first_obj.checked_add(i) {
                Some(k) => k,
                None => {
                    return None;
                },
            };
            table.entries.insert(key, entry);
            i = i + 1;
        }
    }
}

/// Reads the cross-reference table that starts at `offset` in the bytes of a
/// file: a line starting with `xref`, then subsections (`first count` and
/// `count` entry lines) until the data ends or a `trailer` line, whose
/// dictionary completes the table. Lines are read at most 1024 bytes at a time.
pub fn parse_xref_table(data: &[u8], offset: u64) -> (res: Result<XrefTable, PdfError>)
    requires
        !(xref_table_spec(data@, offset) is Overflow),
    ensures
        match xref_table_spec(data@, offset) {
            XrefOutcome::Done(Ok((m, t))) => res matches Ok(tab) && tab.entries@ == m
                && opt_dict_model(tab.trailer_dict) == t,
            XrefOutcome::Done(Err(e)) => res matches Err(x) && x@ == e,
            XrefOutcome::Overflow => true,
        },
{
    match scan_xref_table(data, offset) {
        Some(r) => r,
        None => Err(PdfError::InvalidXrefFormat),
    }
}

/// Like `parse_xref_table`, but `None` when an object number `first + i` of
/// a subsection would go beyond `u32::MAX`.
pub fn parse_xref_table_checked(data: &[u8], offset: u64) -> (res: Option<Result<XrefTable, PdfError>>)
    ensures
        match xref_table_spec(data@, offset) {
            XrefOutcome::Done(Ok((m, t))) => res matches Some(Ok(tab)) && tab.entries@ == m
                && opt_dict_model(tab.trailer_dict) == t,
            XrefOutcome::Done(Err(e)) => res matches Some(Err(x)) && x@ == e,
            XrefOutcome::Overflow => res is None,
        },
{
    scan_xref_table(data, offset)
}

// ---------------------------------------------------------------- locating the table

/// Space, carriage return, line feed and tab.
pub open spec fn is_xref_space(c: u8) -> bool {
    c == 32 || c == 13 || c == 10 || c == 9
}

fn is_xref_space_byte(c: u8) -> (res: bool)
    ensures
        res == is_xref_space(c),
{
    c == 32u8 || c == 13u8 || c == 10u8 || c == 9u8
}

/// The last position at or before `p` where `needle` occurs.
pub open spec fn find_last_from(data: Seq<u8>, needle: Seq<u8>, p: int) -> Option<int>
    decreases p + 1,
{
    if p < 0 {
        None
    } else if occurs_at(data, needle, p) {
        Some(p)
    } else {
        find_last_from(data, needle, p - 1)
    }
}

/// The last position where `needle` occurs in `data`.
pub open spec fn find_last(data: Seq<u8>, needle: Seq<u8>) -> Option<int> {
    find_last_from(data, needle, data.len() - needle.len())
}

/// The last position where a non-empty `needle` occurs in `haystack`.
pub fn find_last_subsequence(haystack: &[u8], needle: &[u8]) -> (res: Option<usize>)
    requires
        needle@.len() > 0,
    ensures
        match find_last(haystack@, needle@) {
            Some(i) => res matches Some(x) && x as int == i && 0 <= i && occurs_at(
                haystack@,
                needle@,
                i,
            ),
            None => res is None,
        },
{
    proof {
        lemma_find_last_from(haystack@, needle@, haystack@.len() - needle@.len());
    }
    if needle.len() > haystack.len() {
        return None;
    }
    let mut i: usize = haystack.len() - needle.len() + 1;
    while i > 0
        invariant
            i <= haystack@.len() - needle@.len() + 1,
            needle@.len() <= haystack@.len(),
            haystack@.len() <= usize::MAX,
            find_last(haystack@, needle@) == find_last_from(haystack@, needle@, i - 1),
        decreases i,
    {
        let j = i - 1;
        if bytes_equal(vstd::slice::slice_subrange(haystack, j, j + needle.len()), needle) {
            return Some(j);
        }
        i = j;
    }
    None
}

pub open spec fn startxref_keyword() -> Seq<u8> {
    // `startxref`
    seq![115u8, 116u8, 97u8, 114u8, 116u8, 120u8, 114u8, 101u8, 102u8]
}

pub open spec fn skip_xref_space(d: Seq<u8>, i: int) -> int
    decreases d.len() - i,
{
    if 0 <= i < d.len() && is_xref_space(d[i]) {
        skip_xref_space(d, i + 1)
    } else {
        i
    }
}

pub open spec fn digits_end(d: Seq<u8>, i: int) -> int
    decreases d.len() - i,
{
    if 0 <= i < d.len() && is_digit(d[i]) {
        digits_end(d, i + 1)
    } else {
        i
    }
}

/// The offset written after the last `startxref` in the last 1024 bytes of a
/// file of at least 16 bytes.
pub open spec fn startxref_spec(data: Seq<u8>) -> Result<u64, ErrModel> {
    if data.len() < 16 {
        Err(ErrModel::FileTooSmall)
    } else {
        let k = if data.len() < 1024 {
            data.len() as int
        } else {
            1024
        };
        let w = data.subrange(data.len() - k, data.len() as int);
        match find_last(w, startxref_keyword()) {
            None => Err(ErrModel::MissingStartXref),
            Some(m) => {
                let a = skip_xref_space(w, m + 9);
                let b = digits_end(w, a);
                if a == b {
                    Err(ErrModel::InvalidStartXrefOffset)
                } else {
                    match parse_unsigned(latin1_chars(w.subrange(a, b)), u64::MAX as int) {
                        Some(v) => Ok(v as u64),
                        None => Err(ErrModel::InvalidStartXrefOffset),
                    }
                }
            },
        }
    }
}

/// Finds the offset of the cross-reference table: the number after the last
/// `startxref` within the last 1024 bytes of the file.
pub fn find_startxref(data: &[u8]) -> (res: Result<u64, PdfError>)
    ensures
        match startxref_spec(data@) {
            Ok(v) => res == Ok::<u64, PdfError>(v),
            Err(e) => res matches Err(x) && x@ == e,
        },
{
    let len = data.len();
    if len < 16 {
        return Err(PdfError::FileTooSmall);
    }
    let k: usize = if len < 1024 {
        len
    } else {
        1024
    };
    let w = vstd::slice::slice_subrange(data, len - k, len);
    let kw: [u8; 9] = [115u8, 116, 97, 114, 116, 120, 114, 101, 102];
    assert(kw@ =~= startxref_keyword());
    let m = match find_last_subsequence(w, &kw) {
        Some(m) => m,
        None => {
            return Err(PdfError::MissingStartXref);
        },
    };
    let mut a = m + 9;
    while a < k && is_xref_space_byte(w[a])
        invariant
            m + 9 <= a <= k,
            k == w@.len(),
            skip_xref_space(w@, a as int) == skip_xref_space(w@, m + 9),
        decreases k - a,
    {
        a = a + 1;
    }
    let mut b = a;
    while b < k && 48u8 <= w[b] && w[b] <= 57u8
        invariant
            a <= b <= k,
            k == w@.len(),
            digits_end(w@, b as int) == digits_end(w@, a as int),
        decreases k - b,
    {
        b = b + 1;
    }
    if a == b {
        return Err(PdfError::InvalidStartXrefOffset);
    }
    match crate::numbers::parse_u64(vstd::slice::slice_subrange(w, a, b)) {
        Some(v) => Ok(v),
        None => Err(PdfError::InvalidStartXrefOffset),
    }
}

pub proof fn lemma_find_last_from(data: Seq<u8>, needle: Seq<u8>, p: int)
    ensures
        match find_last_from(data, needle, p) {
            Some(i) => 0 <= i <= p && occurs_at(data, needle, i),
            None => true,
        },
    decreases p + 1,
{
    if p >= 0 && !occurs_at(data, needle, p) {
        lemma_find_last_from(data, needle, p - 1);
    }
}

// ---------------------------------------------------------------- recovering a table by scanning

pub open spec fn obj_keyword() -> Seq<u8> {
    // `obj`
    seq![111u8, 98u8, 106u8]
}

pub open spec fn trailer_keyword() -> Seq<u8> {
    // `trailer`
    seq![116u8, 114u8, 97u8, 105u8, 108u8, 101u8, 114u8]
}

/// An `obj` marker at `i`: preceded by whitespace, and not among the last three bytes.
pub open spec fn obj_marker_at(d: Seq<u8>, i: int) -> bool {
    0 < i && i + 3 < d.len() && d.subrange(i, i + 3) == obj_keyword() && is_xref_space(d[i - 1])
}

/// The first marker at or after `pos`.
pub open spec fn next_obj_marker(d: Seq<u8>, pos: int) -> Option<int>
    decreases d.len() - pos,
{
    if pos < 0 || pos + 3 >= d.len() {
        None
    } else if obj_marker_at(d, pos) {
        Some(pos)
    } else {
        next_obj_marker(d, pos + 1)
    }
}

pub proof fn lemma_next_obj_marker(d: Seq<u8>, pos: int)
    ensures
        match next_obj_marker(d, pos) {
            Some(i) => pos <= i && obj_marker_at(d, i),
            None => true,
        },
    decreases d.len() - pos,
{
    if !(pos < 0 || pos + 3 >= d.len()) && !obj_marker_at(d, pos) {
        lemma_next_obj_marker(d, pos + 1);
    }
}

pub open spec fn back_skip_space(d: Seq<u8>, p: int) -> int
    decreases p,
{
    if p > 0 && is_xref_space(d[p]) {
        back_skip_space(d, p - 1)
    } else {
        p
    }
}

pub open spec fn back_skip_digits(d: Seq<u8>, p: int) -> int
    decreases p,
{
    if p > 0 && is_digit(d[p]) {
        back_skip_digits(d, p - 1)
    } else {
        p
    }
}

/// Reading `num gen` backwards from the `obj` marker at `idx`: the object
/// number, the generation, and where the object number starts. A number that
/// reaches the first byte of the data is not read.
pub open spec fn header_backwards(d: Seq<u8>, idx: int) -> Option<(u32, u16, int)> {
    let p0 = if idx >= 1 {
        idx - 1
    } else {
        0
    };
    let p1 = back_skip_space(d, p0);
    let p2 = back_skip_digits(d, p1);
    if p2 + 1 == p1 + 1 {
        None
    } else {
        match parse_unsigned(latin1_chars(d.subrange(p2 + 1, p1 + 1)), u16::MAX as int) {
            None => None,
            Some(g) => {
                let p3 = back_skip_space(d, p2);
                let p4 = back_skip_digits(d, p3);
                if p4 + 1 == p3 + 1 {
                    None
                } else {
                    match parse_unsigned(latin1_chars(d.subrange(p4 + 1, p3 + 1)), u32::MAX as int) {
                        None => None,
                        Some(o) => Some((o as u32, g as u16, p4 + 1)),
                    }
                }
            },
        }
    }
}

fn back_skip_space_exec(d: &[u8], p: usize) -> (res: usize)
    requires
        p < d@.len(),
    ensures
        res as int == back_skip_space(d@, p as int),
        res <= p,
    decreases p,
{
    if p > 0 && is_xref_space_byte(d[p]) {
        back_skip_space_exec(d, p - 1)
    } else {
        p
    }
}

fn back_skip_digits_exec(d: &[u8], p: usize) -> (res: usize)
    requires
        p < d@.len(),
    ensures
        res as int == back_skip_digits(d@, p as int),
        res <= p,
    decreases p,
{
    if p > 0 && 48u8 <= d[p] && d[p] <= 57u8 {
        back_skip_digits_exec(d, p - 1)
    } else {
        p
    }
}

/// Reads `num gen` backwards from an `obj` marker at `obj_idx`: the object
/// number, the generation and where the object starts.
pub fn parse_obj_header_backwards(buffer: &[u8], obj_idx: usize) -> (res: Option<(u32, u16, usize)>)
    requires
        obj_idx <= buffer@.len() || obj_idx <= 1,
    ensures
        match header_backwards(buffer@, obj_idx as int) {
            Some((o, g, s)) => res == Some((o, g, s as usize)) && 0 <= s <= obj_idx,
            None => res is None,
        },
{
    if buffer.len() == 0 {
        return None;
    }
    let p0: usize = if obj_idx >= 1 {
        obj_idx - 1
    } else {
        0
    };
    let p1 = back_skip_space_exec(buffer, p0);
    let p2 = back_skip_digits_exec(buffer, p1);
    if p2 == p1 {
        return None;
    }
    let g = match parse_u16(vstd::slice::slice_subrange(buffer, p2 + 1, p1 + 1)) {
        Some(g) => g,
        None => {
            return None;
        },
    };
    let p3 = back_skip_space_exec(buffer, p2);
    let p4 = back_skip_digits_exec(buffer, p3);
    if p4 == p3 {
        return None;
    }
    let o = match parse_u32(vstd::slice::slice_subrange(buffer, p4 + 1, p3 + 1)) {
        Some(o) => o,
        None => {
            return None;
        },
    };
    Some((o, g, p4 + 1))
}

/// The entries found by scanning from `pos` for `obj` markers.
pub open spec fn rebuild_scan(d: Seq<u8>, pos: int, entries: Map<u32, XrefEntry>) -> Map<u32, XrefEntry>
    decreases d.len() - pos,
{
    if !(0 <= pos < d.len()) {
        entries
    } else {
        match next_obj_marker(d, pos) {
            None => entries,
            Some(idx) => {
                proof {
                    lemma_next_obj_marker(d, pos);
                }
                let e2 = match header_backwards(d, idx) {
                    Some((o, g, s)) => entries.insert(
                        o,
                        XrefEntry::InUse { byte_offset: s as u64, generation_number: g },
                    ),
                    None => entries,
                };
                rebuild_scan(d, idx + 3, e2)
            },
        }
    }
}

pub proof fn lemma_back_skip_space_bounds(d: Seq<u8>, p: int)
    requires
        0 <= p,
    ensures
        0 <= back_skip_space(d, p) <= p,
    decreases p,
{
    if p > 0 && is_xref_space(d[p]) {
        lemma_back_skip_space_bounds(d, p - 1);
    }
}

pub proof fn lemma_back_skip_digits_bounds(d: Seq<u8>, p: int)
    requires
        0 <= p,
    ensures
        0 <= back_skip_digits(d, p) <= p,
    decreases p,
{
    if p > 0 && is_digit(d[p]) {
        lemma_back_skip_digits_bounds(d, p - 1);
    }
}

/// Whether the decimal digits of `n` are written at `off` in `d`.
pub open spec fn number_written_at(d: Seq<u8>, off: int, n: u32) -> bool {
    exists|e: int|
        off < e <= d.len() && #[trigger] parse_unsigned(latin1_chars(d.subrange(off, e)), u32::MAX as int)
            == Some(n as int)
}

/// Whether every entry of a table is in use and gives the offset at which its
/// object number is written.
pub open spec fn entries_point_at_numbers(d: Seq<u8>, m: Map<u32, XrefEntry>) -> bool {
    forall|k: u32|
        #[trigger] m.dom().contains(k) ==> match m[k] {
            XrefEntry::InUse { byte_offset, .. } => number_written_at(d, byte_offset as int, k),
            _ => false,
        }
}

proof fn lemma_header_backwards_points(d: Seq<u8>, idx: int)
    requires
        0 < idx < d.len(),
        d.len() <= usize::MAX,
    ensures
        match header_backwards(d, idx) {
            Some((o, g, s)) => 0 <= s && s <= u64::MAX && number_written_at(d, s, o),
            None => true,
        },
{
    let p0 = idx - 1;
    let p1 = back_skip_space(d, p0);
    lemma_back_skip_space_bounds(d, p0);
    let p2 = back_skip_digits(d, p1);
    lemma_back_skip_digits_bounds(d, p1);
    let p3 = back_skip_space(d, p2);
    lemma_back_skip_space_bounds(d, p2);
    let p4 = back_skip_digits(d, p3);
    lemma_back_skip_digits_bounds(d, p3);
    match header_backwards(d, idx) {
        Some((o, g, s)) => {
            assert(s == p4 + 1);
            let x = parse_unsigned(latin1_chars(d.subrange(p4 + 1, p3 + 1)), u32::MAX as int);
            assert(x is Some);
            crate::numbers::lemma_digits_value_nonneg(unsigned_body(latin1_chars(d.subrange(p4 + 1, p3 + 1))));
            assert(0 <= x->0 <= u32::MAX);
            assert(o as int == x->0);
            assert(parse_unsigned(latin1_chars(d.subrange(s, p3 + 1)), u32::MAX as int) == Some(o as int));
        },
        None => {},
    }
}

proof fn lemma_rebuild_scan_points(d: Seq<u8>, pos: int, entries: Map<u32, XrefEntry>)
    requires
        d.len() <= usize::MAX,
        entries_point_at_numbers(d, entries),
    ensures
        entries_point_at_numbers(d, rebuild_scan(d, pos, entries)),
    decreases d.len() - pos,
{
    if 0 <= pos < d.len() {
        match next_obj_marker(d, pos) {
            None => {},
            Some(idx) => {
                lemma_next_obj_marker(d, pos);
                lemma_header_backwards_points(d, idx);
                let e2 = match header_backwards(d, idx) {
                    Some((o, g, s)) => entries.insert(
                        o,
                        XrefEntry::InUse { byte_offset: s as u64, generation_number: g },
                    ),
                    None => entries,
                };
                assert(entries_point_at_numbers(d, e2)) by {
                    match header_backwards(d, idx) {
                        Some((o, g, s)) => {
                            assert forall|k: u32| #[trigger] e2.dom().contains(k) implies match e2[k] {
                                XrefEntry::InUse { byte_offset, .. } => number_written_at(d, byte_offset as int, k),
                                _ => false,
                            } by {
                                if k != o {
                                    assert(entries.dom().contains(k));
                                }
                            }
                        },
                        None => {},
                    }
                }
                lemma_rebuild_scan_points(d, idx + 3, e2);
            },
        }
    }
}

/// A table rebuilt by scanning the bytes holds only objects in use, each at
/// the offset where its object number is written (before its generation and
/// `obj`).
pub proof fn law_rebuilt_entries_point_at_object_numbers(d: Seq<u8>)
    requires
        d.len() <= usize::MAX,
    ensures
        match rebuild_spec(d) {
            Ok((m, _)) => entries_point_at_numbers(d, m),
            Err(_) => true,
        },
{
    lemma_rebuild_scan_points(d, 0, Map::empty());
}

/// Whether an `obj` marker at `i` carries a header `n g` whose object number is `n`.
pub open spec fn header_names(d: Seq<u8>, i: int, n: u32) -> bool {
    &&& obj_marker_at(d, i)
    &&& match header_backwards(d, i) {
        Some((o, _, _)) => o == n,
        None => false,
    }
}

proof fn lemma_next_obj_marker_first(d: Seq<u8>, pos: int, i: int)
    requires
        0 <= pos <= i,
        obj_marker_at(d, i),
    ensures
        next_obj_marker(d, pos) matches Some(idx) && pos <= idx <= i && obj_marker_at(d, idx)
            && forall|j: int| pos <= j < idx ==> !#[trigger] obj_marker_at(d, j),
    decreases i - pos,
{
    if !obj_marker_at(d, pos) {
        lemma_next_obj_marker_first(d, pos + 1, i);
    }
}

proof fn lemma_markers_apart(d: Seq<u8>, i: int, j: int)
    requires
        obj_marker_at(d, i),
        obj_marker_at(d, j),
        i < j,
    ensures
        i + 3 <= j,
{
    assert(d.subrange(i, i + 3)[1] == obj_keyword()[1]);
    assert(d.subrange(i, i + 3)[2] == obj_keyword()[2]);
    assert(d.subrange(j, j + 3)[0] == obj_keyword()[0]);
    if j == i + 1 {
        assert(d[j] == d.subrange(i, i + 3)[1]);
    } else if j == i + 2 {
        assert(d[j] == d.subrange(i, i + 3)[2]);
    }
}

/// With no header for `n` at or after `pos`, the scan leaves the entry of `n` as it was.
proof fn lemma_rebuild_scan_keeps(d: Seq<u8>, pos: int, entries: Map<u32, XrefEntry>, n: u32)
    requires
        0 <= pos,
        forall|j: int| pos <= j ==> !#[trigger] header_names(d, j, n),
    ensures
        rebuild_scan(d, pos, entries).dom().contains(n) == entries.dom().contains(n),
        entries.dom().contains(n) ==> rebuild_scan(d, pos, entries)[n] == entries[n],
    decreases d.len() - pos,
{
    if 0 <= pos < d.len() {
        match next_obj_marker(d, pos) {
            None => {},
            Some(idx) => {
                lemma_next_obj_marker(d, pos);
                assert(!header_names(d, idx, n));
                let e2 = match header_backwards(d, idx) {
                    Some((o, g, s)) => entries.insert(
                        o,
                        XrefEntry::InUse { byte_offset: s as u64, generation_number: g },
                    ),
                    None => entries,
                };
                lemma_rebuild_scan_keeps(d, idx + 3, e2, n);
            },
        }
    }
}

/// The last header for `n` at or after `pos` decides the entry of `n`.
proof fn lemma_rebuild_scan_last(
    d: Seq<u8>,
    pos: int,
    entries: Map<u32, XrefEntry>,
    i: int,
    g: u16,
    s: int,
    n: u32,
)
    requires
        0 <= pos <= i,
        obj_marker_at(d, i),
        header_backwards(d, i) == Some((n, g, s)),
        forall|j: int| i < j ==> !#[trigger] header_names(d, j, n),
    ensures
        rebuild_scan(d, pos, entries).dom().contains(n),
        rebuild_scan(d, pos, entries)[n] == (XrefEntry::InUse {
            byte_offset: s as u64,
            generation_number: g,
        }),
    decreases d.len() - pos,
{
    lemma_next_obj_marker_first(d, pos, i);
    let idx = next_obj_marker(d, pos)->0;
    let e2 = match header_backwards(d, idx) {
        Some((o, g2, s2)) => entries.insert(
            o,
            XrefEntry::InUse { byte_offset: s2 as u64, generation_number: g2 },
        ),
        None => entries,
    };
    if idx < i {
        lemma_markers_apart(d, idx, i);
        lemma_rebuild_scan_last(d, idx + 3, e2, i, g, s, n);
    } else {
        assert forall|j: int| idx + 3 <= j implies !#[trigger] header_names(d, j, n) by {
            if header_names(d, j, n) {
                assert(i < j);
            }
        }
        lemma_rebuild_scan_keeps(d, idx + 3, e2, n);
    }
}

/// When the header of an object number occurs several times (as after an
/// incremental update), the rebuilt entry of that number points at the last
/// occurrence in the file, with its generation.
pub proof fn law_rebuild_takes_last_header(d: Seq<u8>, n: u32, i: int, g: u16, s: int)
    requires
        obj_marker_at(d, i),
        header_backwards(d, i) == Some((n, g, s)),
        forall|j: int| i < j ==> !#[trigger] header_names(d, j, n),
    ensures
        match rebuild_spec(d) {
            Ok((m, _)) => m.dom().contains(n) && m[n] == (XrefEntry::InUse {
                byte_offset: s as u64,
                generation_number: g,
            }),
            Err(_) => true,
        },
{
    lemma_rebuild_scan_last(d, 0, Map::empty(), i, g, s, n);
}

/// A rebuilt table has an entry for an object number only when a header for
/// that number occurs in the file.
pub proof fn law_rebuild_entry_needs_header(d: Seq<u8>, n: u32)
    requires
        forall|j: int| !#[trigger] header_names(d, j, n),
    ensures
        match rebuild_spec(d) {
            Ok((m, _)) => !m.dom().contains(n),
            Err(_) => true,
        },
{
    lemma_rebuild_scan_keeps(d, 0, Map::empty(), n);
}

/// The bytes from the last `trailer` on, cut before the last `startxref` in them.
pub open spec fn trailer_region(d: Seq<u8>) -> Option<Seq<u8>> {
    match find_last(d, trailer_keyword()) {
        None => None,
        Some(t) => {
            let td = d.subrange(t, d.len() as int);
            Some(
                match find_last(td, startxref_keyword()) {
                    Some(s) => td.subrange(0, s),
                    None => td,
                },
            )
        },
    }
}

/// The second object of the bytes (the first being the `trailer` keyword),
/// when it is a dictionary and the first token can be read.
pub open spec fn second_object_dict(td: Seq<u8>) -> Option<DictModel> {
    let l = lex(td, 0);
    match l.0 {
        Err(_) => None,
        Ok(tok) => {
            let st1 = parse_obj(td, PState { pos: l.1, cur: tok }).1;
            match parse_obj(td, st1).0 {
                Ok(ObjModel::Dictionary(x)) => Some(x),
                _ => None,
            }
        },
    }
}

/// Rebuilding the table of a file by scanning all its bytes: the entries found
/// before `obj` markers and the trailer dictionary after the last `trailer`.
pub open spec fn rebuild_spec(d: Seq<u8>) -> Result<(Map<u32, XrefEntry>, DictModel), ErrModel> {
    let entries = rebuild_scan(d, 0, Map::empty());
    match trailer_region(d) {
        None => Err(ErrModel::InvalidTrailer),
        Some(td) => match second_object_dict(td) {
            None => Err(ErrModel::InvalidTrailer),
            Some(x) => Ok((entries, x)),
        },
    }
}

/// The trailer dictionary that a scan of the bytes recovers.
fn recover_trailer(data: &[u8]) -> (res: Option<PdfDictionary>)
    ensures
        match trailer_region(data@) {
            None => res is None,
            Some(td) => match second_object_dict(td) {
                None => res is None,
                Some(x) => res matches Some(dict) && dict@ == x,
            },
        },
{
    let tkw: [u8; 7] = [116u8, 114, 97, 105, 108, 101, 114];
    assert(tkw@ =~= trailer_keyword());
    let t = match find_last_subsequence(data, &tkw) {
        Some(t) => t,
        None => {
            return None;
        },
    };
    let td0 = vstd::slice::slice_subrange(data, t, data.len());
    let skw: [u8; 9] = [115u8, 116, 97, 114, 116, 120, 114, 101, 102];
    assert(skw@ =~= startxref_keyword());
    let td = match find_last_subsequence(td0, &skw) {
        Some(sx) => vstd::slice::slice_subrange(td0, 0, sx),
        None => td0,
    };
    second_dict(td)
}

/// The dictionary that is the second object of the bytes, if there is one.
fn second_dict(td: &[u8]) -> (res: Option<PdfDictionary>)
    ensures
        match second_object_dict(td@) {
            None => res is None,
            Some(x) => res matches Some(dict) && dict@ == x,
        },
{
    let lexer = crate::lexer::Lexer::new(td);
    let mut parser = match Parser::new(lexer) {
        Ok(p) => p,
        Err(_) => {
            return None;
        },
    };
    let _first = parser.parse_object();
    match parser.parse_object() {
        Ok(PdfObject::Dictionary(dict)) => Some(dict),
        _ => None,
    }
}

/// Rebuilds the table of a file whose table is missing or broken by scanning
/// all of its bytes for `num gen obj` headers, and reads the trailer after the
/// last `trailer`; without a trailer dictionary the table is refused.
pub fn rebuild_xref_from_linear_scan(data: &[u8]) -> (res: Result<XrefTable, PdfError>)
    ensures
        match rebuild_spec(data@) {
            Ok((m, x)) => res matches Ok(tab) && tab.entries@ == m && opt_dict_model(
                tab.trailer_dict,
            ) == Some(x),
            Err(e) => res matches Err(err) && err@ == e,
        },
{
    let mut table = XrefTable::new();
    let len = data.len();
    let okw: [u8; 3] = [111u8, 98, 106];
    assert(okw@ =~= obj_keyword());
    let mut pos: usize = 0;
    while pos < len
        invariant
            pos <= len,
            len == data@.len(),
            okw@ == obj_keyword(),
            rebuild_scan(data@, pos as int, table.entries@) == rebuild_scan(
                data@,
                0,
                Map::empty(),
            ),
            table.trailer_dict is None,
        ensures
            rebuild_scan(data@, 0, Map::empty()) == table.entries@,
            table.trailer_dict is None,
        decreases len - pos,
    {
        let end: usize = if len >= 3 {
            len - 3
        } else {
            0
        };
        let mut found: Option<usize> = None;
        let mut i = pos;
        while found.is_none() && i < end
            invariant
                pos <= i,
                end == (if len >= 3 {
                    len - 3
                } else {
                    0
                }),
                len == data@.len(),
                okw@ == obj_keyword(),
                found is None ==> next_obj_marker(data@, i as int) == next_obj_marker(
                    data@,
                    pos as int,
                ),
                found matches Some(j) ==> next_obj_marker(data@, pos as int) == Some(j as int),
            decreases end - i,
        {
            if bytes_equal(vstd::slice::slice_subrange(data, i, i + 3), &okw) && i > 0
                && is_xref_space_byte(data[i - 1]) {
                found = Some(i);
            }
            i = i + 1;
        }
        proof {
            lemma_next_obj_marker(data@, pos as int);
        }
        match found {
            Some(idx) => {
                assert(next_obj_marker(data@, pos as int) == Some(idx as int));
                match parse_obj_header_backwards(data, idx) {
                    Some((obj_num, gen_num, start_offset)) => {
                        table.entries.insert(
                            obj_num,
                            XrefEntry::InUse {
                                byte_offset: start_offset as u64,
                                generation_number: gen_num,
                            },
                        );
                    },
                    None => {},
                }
                pos = idx + 3;
            },
            None => {
                break;
            },
        }
    }
    match recover_trailer(data) {
        Some(dict) => {
            table.trailer_dict = Some(dict);
            Ok(table)
        },
        None => Err(PdfError::InvalidTrailer),
    }
}

// ---------------------------------------------------------------- recovering a table in memory

/// ASCII whitespace as `u8::is_ascii_whitespace` has it: space, tab, line feed,
/// form feed and carriage return.
pub open spec fn is_ascii_space(c: u8) -> bool {
    c == 32 || c == 9 || c == 10 || c == 12 || c == 13
}

fn is_ascii_space_byte(c: u8) -> (res: bool)
    ensures
        res == is_ascii_space(c),
{
    c == 32u8 || c == 9u8 || c == 10u8 || c == 12u8 || c == 13u8
}

/// Where the token that ends at `t - 1` starts.
pub open spec fn token_start(d: Seq<u8>, t: int) -> int
    decreases t,
{
    if t > 0 && !is_ascii_space(d[t - 1]) {
        token_start(d, t - 1)
    } else {
        t
    }
}

pub proof fn lemma_token_start(d: Seq<u8>, t: int)
    requires
        0 <= t,
    ensures
        0 <= token_start(d, t) <= t,
    decreases t,
{
    if t > 0 && !is_ascii_space(d[t - 1]) {
        lemma_token_start(d, t - 1);
    }
}

/// Reading up to two numbers backwards from `b`: the numbers read (nearest
/// first) and where reading stopped. A token that is UTF-8 but no `u32` ends
/// the reading; one that is not UTF-8 is passed over.
pub open spec fn back_numbers(d: Seq<u8>, b: int, parts: Seq<u32>) -> (Seq<u32>, int)
    decreases b,
{
    if b > d.len() || !(b > 0 && parts.len() < 2) {
        (parts, b)
    } else {
        let b1 = b - 1;
        if is_ascii_space(d[b1]) {
            back_numbers(d, b1, parts)
        } else {
            let ts = token_start(d, b1);
            proof {
                lemma_token_start(d, b1);
            }
            let tok = d.subrange(ts, b1 + 1);
            if valid_utf8(tok) {
                match parse_unsigned(decode_utf8(tok), u32::MAX as int) {
                    Some(n) => back_numbers(d, ts, parts.push(n as u32)),
                    None => (parts, b1),
                }
            } else {
                back_numbers(d, ts, parts)
            }
        }
    }
}

pub open spec fn space_obj_keyword() -> Seq<u8> {
    // ` obj`
    seq![32u8, 111u8, 98u8, 106u8]
}

/// The entries found by a scan from `i` for ` obj`, each read from the two
/// numbers before it (object number, then generation).
pub open spec fn linear_scan(d: Seq<u8>, i: int, entries: Map<u32, XrefEntry>) -> Map<u32, XrefEntry>
    decreases d.len() - i,
{
    if !(0 <= i < d.len()) {
        entries
    } else {
        let e2 = if i + 4 <= d.len() && d.subrange(i, i + 4) == space_obj_keyword() {
            let r = back_numbers(d, i, Seq::empty());
            if r.0.len() == 2 {
                entries.insert(
                    r.0[1],
                    XrefEntry::InUse { byte_offset: r.1 as u64, generation_number: r.0[0] as u16 },
                )
            } else {
                entries
            }
        } else {
            entries
        };
        linear_scan(d, i + 1, e2)
    }
}

/// Whether a ` obj` marker at `i` has the two numbers `n g` before it, with object number `n`.
pub open spec fn linear_header_names(d: Seq<u8>, i: int, n: u32) -> bool {
    &&& 0 <= i
    &&& i + 4 <= d.len()
    &&& d.subrange(i, i + 4) == space_obj_keyword()
    &&& back_numbers(d, i, Seq::empty()).0.len() == 2
    &&& back_numbers(d, i, Seq::empty()).0[1] == n
}

proof fn lemma_linear_scan_keeps(d: Seq<u8>, pos: int, entries: Map<u32, XrefEntry>, n: u32)
    requires
        0 <= pos,
        forall|j: int| pos <= j ==> !#[trigger] linear_header_names(d, j, n),
    ensures
        linear_scan(d, pos, entries).dom().contains(n) == entries.dom().contains(n),
        entries.dom().contains(n) ==> linear_scan(d, pos, entries)[n] == entries[n],
    decreases d.len() - pos,
{
    if 0 <= pos < d.len() {
        assert(!linear_header_names(d, pos, n));
        let e2 = if pos + 4 <= d.len() && d.subrange(pos, pos + 4) == space_obj_keyword() {
            let r = back_numbers(d, pos, Seq::empty());
            if r.0.len() == 2 {
                entries.insert(
                    r.0[1],
                    XrefEntry::InUse { byte_offset: r.1 as u64, generation_number: r.0[0] as u16 },
                )
            } else {
                entries
            }
        } else {
            entries
        };
        lemma_linear_scan_keeps(d, pos + 1, e2, n);
    }
}

proof fn lemma_linear_scan_last(d: Seq<u8>, pos: int, entries: Map<u32, XrefEntry>, i: int, n: u32)
    requires
        0 <= pos <= i,
        linear_header_names(d, i, n),
        forall|j: int| i < j ==> !#[trigger] linear_header_names(d, j, n),
    ensures
        linear_scan(d, pos, entries).dom().contains(n),
        linear_scan(d, pos, entries)[n] == (XrefEntry::InUse {
            byte_offset: back_numbers(d, i, Seq::empty()).1 as u64,
            generation_number: back_numbers(d, i, Seq::empty()).0[0] as u16,
        }),
    decreases d.len() - pos,
{
    let e2 = if pos + 4 <= d.len() && d.subrange(pos, pos + 4) == space_obj_keyword() {
        let r = back_numbers(d, pos, Seq::empty());
        if r.0.len() == 2 {
            entries.insert(
                r.0[1],
                XrefEntry::InUse { byte_offset: r.1 as u64, generation_number: r.0[0] as u16 },
            )
        } else {
            entries
        }
    } else {
        entries
    };
    assert(linear_scan(d, pos, entries) == linear_scan(d, pos + 1, e2));
    if pos < i {
        lemma_linear_scan_last(d, pos + 1, e2, i, n);
    } else {
        lemma_linear_scan_keeps(d, pos + 1, e2, n);
    }
}

/// A table rebuilt by the ` obj` scan of the parser takes, for an object number
/// whose header occurs several times, the last occurrence in the file: its
/// offset and generation.
pub proof fn law_linear_scan_takes_last_header(d: Seq<u8>, n: u32, i: int)
    requires
        linear_header_names(d, i, n),
        forall|j: int| i < j ==> !#[trigger] linear_header_names(d, j, n),
    ensures
        linear_scan(d, 0, Map::empty()).dom().contains(n),
        linear_scan(d, 0, Map::empty())[n] == (XrefEntry::InUse {
            byte_offset: back_numbers(d, i, Seq::empty()).1 as u64,
            generation_number: back_numbers(d, i, Seq::empty()).0[0] as u16,
        }),
{
    lemma_linear_scan_last(d, 0, Map::empty(), i, n);
}

/// Searching backwards from `t` for a `trailer` (starting at position 6 or
/// later) followed by a dictionary.
pub open spec fn trailer_search(d: Seq<u8>, t: int) -> Option<DictModel>
    decreases t,
{
    if t < 7 {
        None
    } else {
        let u = t - 1;
        if u + 7 <= d.len() && d.subrange(u, u + 7) == trailer_keyword() {
            match parse_bytes_spec(d.subrange(u + 7, d.len() as int)) {
                Ok(ObjModel::Dictionary(x)) => Some(x),
                _ => trailer_search(d, u),
            }
        } else {
            trailer_search(d, u)
        }
    }
}

/// Reads up to two numbers backwards from `i`.
fn back_numbers_exec(d: &[u8], i: usize) -> (res: (Vec<u32>, usize))
    requires
        i <= d@.len(),
    ensures
        back_numbers(d@, i as int, Seq::empty()) == (res.0@, res.1 as int),
{
    let mut b = i;
    let mut parts: Vec<u32> = Vec::new();
    while b > 0 && parts.len() < 2
        invariant
            b <= d@.len(),
            back_numbers(d@, b as int, parts@) == back_numbers(d@, i as int, Seq::empty()),
        decreases b,
    {
        b = b - 1;
        if is_ascii_space_byte(d[b]) {
            continue;
        }
        let mut ts = b;
        while ts > 0 && !is_ascii_space_byte(d[ts - 1])
            invariant
                ts <= b < d@.len(),
                token_start(d@, ts as int) == token_start(d@, b as int),
            decreases ts,
        {
            ts = ts - 1;
        }
        match utf8_string(vstd::slice::slice_subrange(d, ts, b + 1)) {
            Some(text) => {
                let chars = string_chars(text.as_str());
                match parse_word(chars.as_slice(), 0xFFFF_FFFFu64) {
                    Some(n) => {
                        parts.push(n as u32);
                    },
                    None => {
                        return (parts, b);
                    },
                }
            },
            None => {},
        }
        b = ts;
    }
    (parts, b)
}

impl<'a> Parser<'a> {
    /// Rebuilds a cross-reference table by scanning the bytes for ` obj`
    /// markers, reading the object number and generation before each, and takes
    /// the first dictionary found after a `trailer` searching from the end; the
    /// trailer is an empty dictionary when none is found.
    pub fn rebuild_xref_from_linear_scan_bytes(data: &'a [u8]) -> (res: Result<XrefTable, PdfError>)
        ensures
            res matches Ok(tab) && tab.entries@ == linear_scan(data@, 0, Map::empty())
                && opt_dict_model(tab.trailer_dict) == Some(
                match trailer_search(data@, data@.len() as int) {
                    Some(x) => x,
                    None => Seq::empty(),
                },
            ),
    {
        let mut table = XrefTable::new();
        let len = data.len();
        let marker: [u8; 4] = [32u8, 111, 98, 106];
        assert(marker@ =~= space_obj_keyword());
        let mut i: usize = 0;
        while i < len
            invariant
                i <= len,
                len == data@.len(),
                marker@ == space_obj_keyword(),
                linear_scan(data@, i as int, table.entries@) == linear_scan(
                    data@,
                    0,
                    Map::empty(),
                ),
            decreases len - i,
        {
            if len >= 4 && i <= len - 4 && bytes_equal(
                vstd::slice::slice_subrange(data, i, i + 4),
                &marker,
            ) {
                let (parts, backtrack) = back_numbers_exec(data, i);
                if parts.len() == 2 {
                    let gen: u16 = #[verifier::truncate] (parts[0] as u16);
                    table.entries.insert(
                        parts[1],
                        XrefEntry::InUse { byte_offset: backtrack as u64, generation_number: gen },
                    );
                }
            }
            i = i + 1;
        }
        let tkw: [u8; 7] = [116u8, 114, 97, 105, 108, 101, 114];
        assert(tkw@ =~= trailer_keyword());
        let mut t: usize = len;
        let mut found: Option<PdfDictionary> = None;
        while found.is_none() && t >= 7
            invariant
                t <= len,
                len == data@.len(),
                tkw@ == trailer_keyword(),
                found is None ==> trailer_search(data@, t as int) == trailer_search(
                    data@,
                    len as int,
                ),
                found matches Some(x) ==> trailer_search(data@, len as int) == Some(x@),
            decreases t,
        {
            t = t - 1;
            if t <= len - 7 && bytes_equal(vstd::slice::slice_subrange(data, t, t + 7), &tkw) {
                match parse_object_bytes(vstd::slice::slice_subrange(data, t + 7, len)) {
                    Ok(PdfObject::Dictionary(x)) => {
                        found = Some(x);
                    },
                    _ => {},
                }
            }
        }
        match found {
            Some(x) => {
                table.trailer_dict = Some(x);
            },
            None => {
                table.trailer_dict = Some(PdfDictionary::new());
            },
        }
        Ok(table)
    }
}

} // verus!
