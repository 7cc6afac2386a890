use vstd::prelude::*;
use crate::error::{ErrModel, PdfError};
use vstd::slice::{slice_subrange, slice_to_vec};
use crate::text::{latin1_chars, lossy_string, push_char, lossy_text, is_ascii_bytes};

verus! {

/// A lexical token of PDF syntax.
#[derive(Debug, PartialEq)]
pub enum PdfToken {
    /// `<<`
    DictStart,
    /// `>>`
    DictEnd,
    /// `[`
    ArrayStart,
    /// `]`
    ArrayEnd,
    /// e.g. `/Name`
    Name(String),
    /// e.g. `(Literal String)`, escapes kept as written
    StringLiteral(Vec<u8>),
    /// e.g. `<48656C6C6F>`, the hex digits as written
    HexString(Vec<u8>),
    /// e.g. `123`, `-4.5`
    Number(String),
    /// e.g. `true`, `false`, `null`, `obj`, `endobj`, `R`
    Keyword(String),
    /// The raw bytes between `stream` and `endstream`
    StreamData(Vec<u8>),
}

pub enum TokenModel {
    DictStart,
    DictEnd,
    ArrayStart,
    ArrayEnd,
    Name(Seq<char>),
    StringLiteral(Seq<u8>),
    HexString(Seq<u8>),
    Number(Seq<char>),
    Keyword(Seq<char>),
    StreamData(Seq<u8>),
}

impl View for PdfToken {
    type V = TokenModel;

    open spec fn view(&self) -> TokenModel {
        match self {
            PdfToken::DictStart => TokenModel::DictStart,
            PdfToken::DictEnd => TokenModel::DictEnd,
            PdfToken::ArrayStart => TokenModel::ArrayStart,
            PdfToken::ArrayEnd => TokenModel::ArrayEnd,
            PdfToken::Name(s) => TokenModel::Name(s@),
            PdfToken::StringLiteral(v) => TokenModel::StringLiteral(v@),
            PdfToken::HexString(v) => TokenModel::HexString(v@),
            PdfToken::Number(s) => TokenModel::Number(s@),
            PdfToken::Keyword(s) => TokenModel::Keyword(s@),
            PdfToken::StreamData(v) => TokenModel::StreamData(v@),
        }
    }
}

pub open spec fn opt_token_view(t: Option<PdfToken>) -> Option<TokenModel> {
    match t {
        Some(x) => Some(x@),
        None => None,
    }
}

// ---------------------------------------------------------------- character classes

pub open spec fn spec_is_whitespace(c: u8) -> bool {
    c == 0 || c == 9 || c == 10 || c == 12 || c == 13 || c == 32
}

pub open spec fn spec_is_delimiter(c: u8) -> bool {
    c == 40 || c == 41 || c == 60 || c == 62 || c == 91 || c == 93 || c == 123 || c == 125 || c
        == 47 || c == 37
}

pub open spec fn spec_is_regular(c: u8) -> bool {
    !spec_is_whitespace(c) && !spec_is_delimiter(c)
}

pub open spec fn is_digit(c: u8) -> bool {
    48 <= c <= 57
}

pub open spec fn is_number_char(c: u8) -> bool {
    c == 43 || c == 45 || c == 46 || is_digit(c)
}

pub open spec fn is_hex_digit(c: u8) -> bool {
    is_digit(c) || (97 <= c <= 102) || (65 <= c <= 70)
}

/// PDF white-space: NUL, TAB, LF, FF, CR and SPACE.
#[verifier::when_used_as_spec(spec_is_whitespace)]
pub fn is_whitespace(c: u8) -> (res: bool)
    returns
        spec_is_whitespace(c),
{
    c == 0 || c == 9 || c == 10 || c == 12 || c == 13 || c == 32
}

/// PDF delimiters: `( ) < > [ ] { } / %`.
#[verifier::when_used_as_spec(spec_is_delimiter)]
pub fn is_delimiter(c: u8) -> (res: bool)
    returns
        spec_is_delimiter(c),
{
    c == 40u8 || c == 41u8 || c == 60u8 || c == 62u8 || c == 91u8 || c == 93u8 || c == 123u8 || c
        == 125u8 || c == 47u8 || c == 37u8
}

/// Regular characters: neither white-space nor delimiters.
#[verifier::when_used_as_spec(spec_is_regular)]
pub fn is_regular(c: u8) -> (res: bool)
    returns
        spec_is_regular(c),
{
    !is_whitespace(c) && !is_delimiter(c)
}

// ---------------------------------------------------------------- scanning specifications

/// The position after white-space and comments from `p`; `in_comment` tells
/// whether `p` lies inside a comment.
pub open spec fn skip_space(data: Seq<u8>, p: int, in_comment: bool) -> int
    decreases data.len() - p, if in_comment { 1int } else { 0int },
{
    if p < 0 || p >= data.len() {
        p
    } else if in_comment {
        if data[p] == 10 || data[p] == 13 {
            skip_space(data, p, false)
        } else {
            skip_space(data, p + 1, true)
        }
    } else if spec_is_whitespace(data[p]) {
        skip_space(data, p + 1, false)
    } else if data[p] == 37 {
        skip_space(data, p + 1, true)
    } else {
        p
    }
}

/// The end of the run of regular characters starting at `p`.
pub open spec fn regular_end(data: Seq<u8>, p: int) -> int
    decreases data.len() - p,
{
    if p < 0 || p >= data.len() || !spec_is_regular(data[p]) {
        p
    } else {
        regular_end(data, p + 1)
    }
}

/// The end of the run of number characters (`+ - .` and digits) starting at `p`.
pub open spec fn number_end(data: Seq<u8>, p: int) -> int
    decreases data.len() - p,
{
    if p < 0 || p >= data.len() || !is_number_char(data[p]) {
        p
    } else {
        number_end(data, p + 1)
    }
}

/// The hex digits met from `p` up to the closing `>` (or the end of the data),
/// and the position after that `>`.
pub open spec fn hex_scan(data: Seq<u8>, p: int) -> (Seq<u8>, int)
    decreases data.len() - p,
{
    if p < 0 || p >= data.len() {
        (Seq::empty(), p)
    } else if data[p] == 62 {
        (Seq::empty(), p + 1)
    } else {
        let rest = hex_scan(data, p + 1);
        if is_hex_digit(data[p]) {
            (seq![data[p]] + rest.0, rest.1)
        } else {
            rest
        }
    }
}

/// The bytes of a literal string from `p`, at parenthesis depth `depth`, with
/// escapes kept raw; the position after it; and whether the closing `)` was met.
pub open spec fn literal_scan(data: Seq<u8>, p: int, depth: nat) -> (Seq<u8>, int, bool)
    decreases data.len() + 1 - p,
{
    if p < 0 || p >= data.len() {
        (Seq::empty(), p, false)
    } else {
        let c = data[p];
        if c == 92 {
            if p + 1 < data.len() {
                let rest = literal_scan(data, p + 2, depth);
                (seq![c, data[p + 1]] + rest.0, rest.1, rest.2)
            } else {
                let rest = literal_scan(data, p + 1, depth);
                (seq![c] + rest.0, rest.1, rest.2)
            }
        } else if c == 40 {
            let rest = literal_scan(data, p + 1, depth + 1);
            (seq![c] + rest.0, rest.1, rest.2)
        } else if c == 41 {
            if depth <= 1 {
                (Seq::empty(), p + 1, true)
            } else {
                let rest = literal_scan(data, p + 1, (depth - 1) as nat);
                (seq![c] + rest.0, rest.1, rest.2)
            }
        } else {
            let rest = literal_scan(data, p + 1, depth);
            (seq![c] + rest.0, rest.1, rest.2)
        }
    }
}

pub open spec fn stream_keyword() -> Seq<u8> {
    seq![115u8, 116, 114, 101, 97, 109]
}

pub open spec fn endstream_keyword() -> Seq<u8> {
    seq![101u8, 110, 100, 115, 116, 114, 101, 97, 109]
}

/// Whether `needle` occurs in `data` at position `i`.
pub open spec fn occurs_at(data: Seq<u8>, needle: Seq<u8>, i: int) -> bool {
    0 <= i && i + needle.len() <= data.len() && data.subrange(i, i + needle.len()) == needle
}

/// The first position at or after `p` where `needle` occurs.
pub open spec fn find_from(data: Seq<u8>, needle: Seq<u8>, p: int) -> Option<int>
    decreases data.len() + 1 - p,
{
    if p < 0 || p + needle.len() > data.len() {
        None
    } else if occurs_at(data, needle, p) {
        Some(p)
    } else {
        find_from(data, needle, p + 1)
    }
}

/// The position after the end-of-line that may follow the `stream` keyword.
pub open spec fn after_stream_eol(data: Seq<u8>, q: int) -> int {
    if 0 <= q && q + 1 < data.len() && data[q] == 13 && data[q + 1] == 10 {
        q + 2
    } else if 0 <= q < data.len() && (data[q] == 10 || data[q] == 13) {
        q + 1
    } else {
        q
    }
}

/// Stream bytes without the one end-of-line that precedes `endstream`.
pub open spec fn strip_final_eol(s: Seq<u8>) -> Seq<u8> {
    if s.len() >= 2 && s[s.len() - 2] == 13 && s[s.len() - 1] == 10 {
        s.subrange(0, s.len() - 2)
    } else if s.len() >= 1 && (s[s.len() - 1] == 10 || s[s.len() - 1] == 13) {
        s.subrange(0, s.len() - 1)
    } else {
        s
    }
}

/// The stream data token that follows the keyword `stream` ending at `q`.
pub open spec fn stream_token(data: Seq<u8>, q: int) -> (Result<Option<TokenModel>, ErrModel>, int) {
    let start = after_stream_eol(data, q);
    match find_from(data, endstream_keyword(), start) {
        Some(e) => (
            Ok(Some(TokenModel::StreamData(strip_final_eol(data.subrange(start, e))))),
            e + 9,
        ),
        None => (Err(ErrModel::UnexpectedEof), data.len() as int),
    }
}

/// The next token at or after `pos`, and the lexer position afterwards.
pub open spec fn lex(data: Seq<u8>, pos: int) -> (Result<Option<TokenModel>, ErrModel>, int) {
    let p = skip_space(data, pos, false);
    if p < 0 || p >= data.len() {
        (Ok(None), p)
    } else {
        let c = data[p];
        if c == 60 {
            if p + 1 < data.len() && data[p + 1] == 60 {
                (Ok(Some(TokenModel::DictStart)), p + 2)
            } else {
                let h = hex_scan(data, p + 1);
                (Ok(Some(TokenModel::HexString(h.0))), h.1)
            }
        } else if c == 62 {
            if p + 1 < data.len() && data[p + 1] == 62 {
                (Ok(Some(TokenModel::DictEnd)), p + 2)
            } else {
                (Err(ErrModel::InvalidSyntax("Unexpected single '>'"@)), p)
            }
        } else if c == 91 {
            (Ok(Some(TokenModel::ArrayStart)), p + 1)
        } else if c == 93 {
            (Ok(Some(TokenModel::ArrayEnd)), p + 1)
        } else if c == 47 {
            let e = regular_end(data, p + 1);
            (Ok(Some(TokenModel::Name(lossy_text(data.subrange(p + 1, e))))), e)
        } else if c == 40 {
            let l = literal_scan(data, p + 1, 1);
            if l.2 {
                (Ok(Some(TokenModel::StringLiteral(l.0))), l.1)
            } else {
                (Err(ErrModel::UnexpectedEof), l.1)
            }
        } else if is_number_char(c) {
            let e = number_end(data, p);
            (Ok(Some(TokenModel::Number(latin1_chars(data.subrange(p, e))))), e)
        } else if spec_is_regular(c) {
            let e = regular_end(data, p);
            if data.subrange(p, e) == stream_keyword() {
                stream_token(data, e)
            } else {
                (Ok(Some(TokenModel::Keyword(lossy_text(data.subrange(p, e))))), e)
            }
        } else {
            (Err(ErrModel::InvalidSyntax("Unexpected character: "@.push(c as char))), p)
        }
    }
}

// ---------------------------------------------------------------- lemmas

pub proof fn lemma_skip_space(data: Seq<u8>, p: int, c: bool)
    requires
        0 <= p,
    ensures
        p <= skip_space(data, p, c),
        p <= data.len() ==> skip_space(data, p, c) <= data.len(),
        skip_space(data, p, c) < data.len() ==> !spec_is_whitespace(data[skip_space(data, p, c)])
            && data[skip_space(data, p, c)] != 37,
    decreases data.len() - p, if c { 1int } else { 0int },
{
    if p < data.len() {
        if c {
            if data[p] == 10 || data[p] == 13 {
                lemma_skip_space(data, p, false);
            } else {
                lemma_skip_space(data, p + 1, true);
            }
        } else if spec_is_whitespace(data[p]) {
            lemma_skip_space(data, p + 1, false);
        } else if data[p] == 37 {
            lemma_skip_space(data, p + 1, true);
        }
    }
}

pub proof fn lemma_regular_end(data: Seq<u8>, p: int)
    requires
        0 <= p <= data.len(),
    ensures
        p <= regular_end(data, p) <= data.len(),
        forall|i: int| p <= i < regular_end(data, p) ==> spec_is_regular(#[trigger] data[i]),
    decreases data.len() - p,
{
    if p < data.len() && spec_is_regular(data[p]) {
        lemma_regular_end(data, p + 1);
    }
}

pub proof fn lemma_number_end(data: Seq<u8>, p: int)
    requires
        0 <= p <= data.len(),
    ensures
        p <= number_end(data, p) <= data.len(),
        forall|i: int| p <= i < number_end(data, p) ==> is_number_char(#[trigger] data[i]),
    decreases data.len() - p,
{
    if p < data.len() && is_number_char(data[p]) {
        lemma_number_end(data, p + 1);
    }
}

pub proof fn lemma_hex_scan(data: Seq<u8>, p: int)
    requires
        0 <= p <= data.len(),
    ensures
        p <= hex_scan(data, p).1 <= data.len(),
    decreases data.len() - p,
{
    if p < data.len() && data[p] != 62 {
        lemma_hex_scan(data, p + 1);
    }
}

pub proof fn lemma_literal_scan(data: Seq<u8>, p: int, depth: nat)
    requires
        0 <= p <= data.len(),
    ensures
        p <= literal_scan(data, p, depth).1 <= data.len(),
    decreases data.len() + 1 - p,
{
    if 0 <= p < data.len() {
        let c = data[p];
        if c == 92 {
            if p + 1 < data.len() {
                lemma_literal_scan(data, p + 2, depth);
            } else {
                lemma_literal_scan(data, p + 1, depth);
            }
        } else if c == 40 {
            lemma_literal_scan(data, p + 1, depth + 1);
        } else if c == 41 {
            if depth > 1 {
                lemma_literal_scan(data, p + 1, (depth - 1) as nat);
            }
        } else {
            lemma_literal_scan(data, p + 1, depth);
        }
    }
}

pub proof fn lemma_find_from(data: Seq<u8>, needle: Seq<u8>, p: int)
    requires
        0 <= p,
    ensures
        match find_from(data, needle, p) {
            Some(e) => p <= e && occurs_at(data, needle, e) && forall|j: int|
                p <= j < e ==> !occurs_at(data, needle, j),
            None => forall|j: int| p <= j ==> !occurs_at(data, needle, j),
        },
    decreases data.len() + 1 - p,
{
    if p + needle.len() <= data.len() {
        if !occurs_at(data, needle, p) {
            lemma_find_from(data, needle, p + 1);
        }
    }
}

// ---------------------------------------------------------------- laws of the lexer

/// The position after `k` calls of the lexer from `pos` when each call gives a
/// token, or `None` when one of them does not.
pub open spec fn tokens_run(data: Seq<u8>, pos: int, k: nat) -> Option<int>
    decreases k,
{
    if k == 0 {
        Some(pos)
    } else {
        match tokens_run(data, pos, (k - 1) as nat) {
            Some(p) => match lex(data, p).0 {
                Ok(Some(_)) => Some(lex(data, p).1),
                _ => None,
            },
            None => None,
        }
    }
}

/// Every token takes at least one byte: however the calls go, no more tokens
/// come from `pos` than there are bytes left.
pub proof fn law_tokens_at_most_bytes(data: Seq<u8>, pos: int, k: nat)
    requires
        0 <= pos <= data.len(),
        tokens_run(data, pos, k) is Some,
    ensures
        pos + k <= tokens_run(data, pos, k)->0 <= data.len(),
    decreases k,
{
    if k > 0 {
        law_tokens_at_most_bytes(data, pos, (k - 1) as nat);
        let p = tokens_run(data, pos, (k - 1) as nat)->0;
        lemma_lex_progress(data, p);
    }
}

/// The lexer reports the end (`Ok(None)`) exactly when skipping white-space
/// and comments from `pos` reaches the end of the data, and once it has, every
/// further call reports the end again at the same position.
pub proof fn law_lex_end_is_final(data: Seq<u8>, pos: int)
    requires
        0 <= pos,
    ensures
        (lex(data, pos).0 == Ok::<Option<TokenModel>, ErrModel>(None)) <==> skip_space(data, pos, false)
            >= data.len(),
        lex(data, pos).0 == Ok::<Option<TokenModel>, ErrModel>(None) ==> lex(data, lex(data, pos).1)
            == lex(data, pos),
{
    lemma_skip_space(data, pos, false);
    let p = skip_space(data, pos, false);
    if p >= data.len() {
        assert(skip_space(data, p, false) == p);
    }
}

proof fn lemma_hex_scan_digits(data: Seq<u8>, q: int, e: int)
    requires
        0 <= q <= e <= data.len(),
        forall|k: int| q <= k < e ==> #[trigger] data[k] != 62,
        e == data.len() || data[e] == 62,
    ensures
        hex_scan(data, q) == (
            data.subrange(q, e).filter(
                |c: u8| (48 <= c <= 57) || (97 <= c <= 102) || (65 <= c <= 70),
            ),
            if e < data.len() {
                e + 1
            } else {
                e
            },
        ),
    decreases e - q,
{
    let f = |c: u8| (48 <= c <= 57) || (97 <= c <= 102) || (65 <= c <= 70);
    if q == e {
        assert(data.subrange(q, e) =~= Seq::<u8>::empty());
        reveal(Seq::filter);
    } else {
        lemma_hex_scan_digits(data, q + 1, e);
        let x = data[q];
        let rest = data.subrange(q + 1, e);
        assert(data.subrange(q, e) =~= seq![x] + rest);
        Seq::filter_distributes_over_add(seq![x], rest, f);
        reveal_with_fuel(Seq::filter, 2);
        assert(seq![x].drop_last() =~= Seq::<u8>::empty());
        if f(x) {
            assert(seq![x].filter(f) =~= seq![x]);
        } else {
            assert(seq![x].filter(f) =~= Seq::<u8>::empty());
            assert(Seq::<u8>::empty() + rest.filter(f) =~= rest.filter(f));
        }
    }
}

/// A hex string `<...>` (a `<` not followed by another `<`) reads as the bytes
/// between the `<` and the first `>` (or the end of the data) that are ASCII
/// hex digits, upper- or lower-case, in order; every other byte is dropped.
pub proof fn law_hex_string_token(data: Seq<u8>, p: int, e: int)
    requires
        0 <= p < e <= data.len(),
        data[p] == 60,
        p + 1 < data.len() ==> data[p + 1] != 60,
        forall|k: int| p < k < e ==> #[trigger] data[k] != 62,
        e == data.len() || data[e] == 62,
    ensures
        lex(data, p) == (
            Ok::<Option<TokenModel>, ErrModel>(
                Some(
                    TokenModel::HexString(
                        data.subrange(p + 1, e).filter(
                            |c: u8| (48 <= c <= 57) || (97 <= c <= 102) || (65 <= c <= 70),
                        ),
                    ),
                ),
            ),
            if e < data.len() {
                e + 1
            } else {
                e
            },
        ),
{
    assert(skip_space(data, p, false) == p);
    lemma_hex_scan_digits(data, p + 1, e);
}

/// The characters of a number token: signs, dots and digits only.
pub open spec fn is_number_text(s: Seq<char>) -> bool {
    forall|i: int|
        0 <= i < s.len() ==> (#[trigger] s[i] == '+' || s[i] == '-' || s[i] == '.' || ('0' <= s[i]
            <= '9'))
}

/// Lexing never moves backwards, stays within one past the end of the data,
/// a token consumes at least one byte, and number tokens hold only number characters.
pub proof fn lemma_lex_progress(data: Seq<u8>, pos: int)
    requires
        0 <= pos <= data.len() + 1,
    ensures
        pos <= lex(data, pos).1 <= data.len() + 1,
        pos <= data.len() ==> lex(data, pos).1 <= data.len(),
        lex(data, pos).0 matches Ok(Some(_)) ==> pos < lex(data, pos).1 <= data.len(),
        lex(data, pos).0 matches Ok(Some(TokenModel::Number(s))) ==> is_number_text(s),
{
    let p = skip_space(data, pos, false);
    lemma_skip_space(data, pos, false);
    if 0 <= p < data.len() {
        let c = data[p];
        if c == 60 {
            if !(p + 1 < data.len() && data[p + 1] == 60) {
                lemma_hex_scan(data, p + 1);
            }
        } else if c == 47 {
            lemma_regular_end(data, p + 1);
        } else if c == 40 {
            lemma_literal_scan(data, p + 1, 1);
        } else if is_number_char(c) {
            lemma_number_end(data, p + 1);
            assert(number_end(data, p) == number_end(data, p + 1));
            lemma_number_end(data, p);
            let e = number_end(data, p);
            let cs = latin1_chars(data.subrange(p, e));
            assert forall|i: int| 0 <= i < cs.len() implies (#[trigger] cs[i] == '+' || cs[i] == '-'
                || cs[i] == '.' || ('0' <= cs[i] <= '9')) by {
                assert(is_number_char(data[p + i]));
            }
        } else if spec_is_regular(c) {
            lemma_regular_end(data, p + 1);
            assert(regular_end(data, p) == regular_end(data, p + 1));
            let e = regular_end(data, p);
            if data.subrange(p, e) == stream_keyword() {
                let start = after_stream_eol(data, e);
                lemma_find_from(data, endstream_keyword(), start);
                match find_from(data, endstream_keyword(), start) {
                    Some(k) => {
                        assert(occurs_at(data, endstream_keyword(), k));
                        assert(k + 9 <= data.len());
                    },
                    None => {},
                }
            }
        }
    }
}

// ---------------------------------------------------------------- the lexer

/// A tokenizer over a byte buffer.
#[derive(Clone, Copy)]
pub struct Lexer<'a> {
    data: &'a [u8],
    pos: usize,
}

impl<'a> Lexer<'a> {
    /// The bytes being tokenized.
    pub closed spec fn input(&self) -> Seq<u8> {
        self.data@
    }

    /// The position of the next byte to read.
    pub closed spec fn position(&self) -> int {
        self.pos as int
    }

    pub open spec fn wf(&self) -> bool {
        &&& 0 <= self.position() <= self.input().len()
        &&& self.input().len() <= usize::MAX
    }

    /// A lexer at the start of `data`.
    pub fn new(data: &'a [u8]) -> (res: Self)
        ensures
            res.input() == data@,
            res.position() == 0,
            res.wf(),
    {
        let _len = data.len();
        Lexer { data, pos: 0 }
    }

    /// Reads the next token. `Ok(None)` means the input is exhausted.
    pub fn next_token(&mut self) -> (res: Result<Option<PdfToken>, PdfError>)
        requires
            old(self).wf(),
        ensures
            final(self).wf(),
            final(self).input() == old(self).input(),
            final(self).position() == lex(old(self).input(), old(self).position()).1,
            match res {
                Ok(t) => lex(old(self).input(), old(self).position()).0 == Ok::<
                    Option<TokenModel>,
                    ErrModel,
                >(opt_token_view(t)),
                Err(e) => lex(old(self).input(), old(self).position()).0 == Err::<
                    Option<TokenModel>,
                    ErrModel,
                >(e@),
            },
    {
        proof {
            lemma_lex_progress(self.data@, self.pos as int);
        }
        self.skip_whitespace_and_comments();
        if self.pos >= self.data.len() {
            return Ok(None);
        }
        let c = self.data[self.pos];
        if c == 60u8 {
            if self.peek() == Some(60u8) {
                self.pos = self.pos + 2;
                Ok(Some(PdfToken::DictStart))
            } else {
                self.lex_hex_string()
            }
        } else if c == 62u8 {
            if self.peek() == Some(62u8) {
                self.pos = self.pos + 2;
                Ok(Some(PdfToken::DictEnd))
            } else {
                Err(PdfError::InvalidSyntax(String::from_str("Unexpected single '>'")))
            }
        } else if c == 91u8 {
            self.pos = self.pos + 1;
            Ok(Some(PdfToken::ArrayStart))
        } else if c == 93u8 {
            self.pos = self.pos + 1;
            Ok(Some(PdfToken::ArrayEnd))
        } else if c == 47u8 {
            self.lex_name()
        } else if c == 40u8 {
            self.lex_string_literal()
        } else if c == 43u8 || c == 45u8 || c == 46u8 || (48u8 <= c && c <= 57u8) {
            self.lex_number()
        } else if is_regular(c) {
            self.lex_keyword()
        } else {
            let mut msg = String::from_str("Unexpected character: ");
            push_char(&mut msg, c as char);
            Err(PdfError::InvalidSyntax(msg))
        }
    }

    fn peek(&self) -> (res: Option<u8>)
        requires
            self.pos < self.data@.len(),
        ensures
            res == if self.pos + 1 < self.data@.len() {
                Some(self.data@[self.pos + 1])
            } else {
                None::<u8>
            },
    {
        if self.pos < self.data.len() - 1 {
            Some(self.data[self.pos + 1])
        } else {
            None
        }
    }

    fn skip_whitespace_and_comments(&mut self)
        requires
            old(self).wf(),
        ensures
            final(self).data == old(self).data,
            final(self).pos as int == skip_space(old(self).data@, old(self).pos as int, false),
            final(self).wf(),
    {
        let ghost target = skip_space(self.data@, self.pos as int, false);
        proof {
            lemma_skip_space(self.data@, self.pos as int, false);
        }
        let mut done = false;
        while !done && self.pos < self.data.len()
            invariant
                self.data == old(self).data,
                old(self).pos <= self.pos <= self.data@.len(),
                !done ==> skip_space(self.data@, self.pos as int, false) == target,
                done ==> self.pos as int == target,
            decreases self.data@.len() - self.pos + if done { 0int } else { 1int },
        {
            let c = self.data[self.pos];
            if is_whitespace(c) {
                self.pos = self.pos + 1;
            } else if c == 37u8 {
                self.pos = self.pos + 1;
                let ghost after_percent = self.pos;
                while self.pos < self.data.len() && self.data[self.pos] != 10u8 && self.data[self.pos]
                    != 13u8
                    invariant
                        self.data == old(self).data,
                        after_percent <= self.pos <= self.data@.len(),
                        old(self).pos <= self.pos,
                        !done,
                        skip_space(self.data@, self.pos as int, true) == target,
                    decreases self.data@.len() - self.pos,
                {
                    self.pos = self.pos + 1;
                }
            } else {
                done = true;
            }
        }
    }

    fn lex_name(&mut self) -> (res: Result<Option<PdfToken>, PdfError>)
        requires
            old(self).wf(),
            old(self).pos < old(self).data@.len(),
        ensures
            final(self).data == old(self).data,
            final(self).pos as int == regular_end(old(self).data@, old(self).pos + 1),
            res matches Ok(Some(t)) && t@ == TokenModel::Name(
                lossy_text(
                    old(self).data@.subrange(
                        old(self).pos + 1,
                        regular_end(old(self).data@, old(self).pos + 1),
                    ),
                ),
            ),
    {
        self.pos = self.pos + 1;
        let start = self.pos;
        proof {
            lemma_regular_end(self.data@, start as int);
        }
        while self.pos < self.data.len() && is_regular(self.data[self.pos])
            invariant
                self.data == old(self).data,
                start <= self.pos <= self.data@.len(),
                regular_end(self.data@, self.pos as int) == regular_end(self.data@, start as int),
            decreases self.data@.len() - self.pos,
        {
            self.pos = self.pos + 1;
        }
        let name = lossy_string(slice_subrange(self.data, start, self.pos));
        Ok(Some(PdfToken::Name(name)))
    }

    fn lex_number(&mut self) -> (res: Result<Option<PdfToken>, PdfError>)
        requires
            old(self).wf(),
            old(self).pos < old(self).data@.len(),
        ensures
            final(self).data == old(self).data,
            final(self).pos as int == number_end(old(self).data@, old(self).pos as int),
            res matches Ok(Some(t)) && t@ == TokenModel::Number(
                latin1_chars(
                    old(self).data@.subrange(
                        old(self).pos as int,
                        number_end(old(self).data@, old(self).pos as int),
                    ),
                ),
            ),
    {
        let start = self.pos;
        proof {
            lemma_number_end(self.data@, start as int);
        }
        while self.pos < self.data.len() && is_number_byte(self.data[self.pos])
            invariant
                self.data == old(self).data,
                start <= self.pos <= self.data@.len(),
                number_end(self.data@, self.pos as int) == number_end(self.data@, start as int),
            decreases self.data@.len() - self.pos,
        {
            self.pos = self.pos + 1;
        }
        let bytes = slice_subrange(self.data, start, self.pos);
        proof {
            assert(is_ascii_bytes(bytes@)) by {
                assert forall|i: int| 0 <= i < bytes@.len() implies #[trigger] bytes@[i] < 128 by {
                    assert(bytes@[i] == self.data@[start + i]);
                }
            }
        }
        let num = lossy_string(bytes);
        Ok(Some(PdfToken::Number(num)))
    }

    fn lex_keyword(&mut self) -> (res: Result<Option<PdfToken>, PdfError>)
        requires
            old(self).wf(),
            old(self).pos < old(self).data@.len(),
            spec_is_regular(old(self).data@[old(self).pos as int]),
        ensures
            final(self).wf(),
            final(self).data == old(self).data,
            ({
                let e = regular_end(old(self).data@, old(self).pos as int);
                if old(self).data@.subrange(old(self).pos as int, e) == stream_keyword() {
                    &&& final(self).pos as int == stream_token(old(self).data@, e).1
                    &&& match res {
                        Ok(t) => stream_token(old(self).data@, e).0 == Ok::<
                            Option<TokenModel>,
                            ErrModel,
                        >(opt_token_view(t)),
                        Err(err) => stream_token(old(self).data@, e).0 == Err::<
                            Option<TokenModel>,
                            ErrModel,
                        >(err@),
                    }
                } else {
                    &&& final(self).pos as int == e
                    &&& res matches Ok(Some(t)) && t@ == TokenModel::Keyword(
                        lossy_text(old(self).data@.subrange(old(self).pos as int, e)),
                    )
                }
            }),
    {
        let start = self.pos;
        proof {
            lemma_regular_end(self.data@, start as int);
        }
        while self.pos < self.data.len() && is_regular(self.data[self.pos])
            invariant
                self.data == old(self).data,
                start <= self.pos <= self.data@.len(),
                regular_end(self.data@, self.pos as int) == regular_end(self.data@, start as int),
            decreases self.data@.len() - self.pos,
        {
            self.pos = self.pos + 1;
        }
        let word = slice_subrange(self.data, start, self.pos);
        let kw_stream: [u8; 6] = [115u8, 116, 114, 101, 97, 109];
        assert(kw_stream@ == stream_keyword());
        if bytes_equal(word, &kw_stream) {
            assert(word@ == stream_keyword());
            return self.lex_stream_data();
        }
        proof {
            assert(word@ != stream_keyword());
        }
        let kw = lossy_string(word);
        Ok(Some(PdfToken::Keyword(kw)))
    }

    fn lex_stream_data(&mut self) -> (res: Result<Option<PdfToken>, PdfError>)
        requires
            old(self).wf(),
            old(self).pos <= old(self).data@.len(),
        ensures
            final(self).wf(),
            final(self).data == old(self).data,
            final(self).pos as int == stream_token(old(self).data@, old(self).pos as int).1,
            match res {
                Ok(t) => stream_token(old(self).data@, old(self).pos as int).0 == Ok::<
                    Option<TokenModel>,
                    ErrModel,
                >(opt_token_view(t)),
                Err(err) => stream_token(old(self).data@, old(self).pos as int).0 == Err::<
                    Option<TokenModel>,
                    ErrModel,
                >(err@),
            },
    {
        let data = self.data;
        let len = data.len();
        let q = self.pos;
        let start = if q < len && q < len - 1 && data[q] == 13 && data[q + 1] == 10 {
            q + 2
        } else if q < len && (data[q] == 10 || data[q] == 13) {
            q + 1
        } else {
            q
        };
        assert(start as int == after_stream_eol(data@, q as int));
        let needle: [u8; 9] = [101u8, 110, 100, 115, 116, 114, 101, 97, 109];
        assert(needle@ == endstream_keyword());
        let found = find_bytes_from(data, &needle, start);
        proof {
            lemma_find_from(data@, endstream_keyword(), start as int);
        }
        match found {
            Some(e) => {
                let raw = slice_subrange(data, start, e);
                let n = raw.len();
                let end = if n >= 2 && raw[n - 2] == 13 && raw[n - 1] == 10 {
                    n - 2
                } else if n >= 1 && (raw[n - 1] == 10 || raw[n - 1] == 13) {
                    n - 1
                } else {
                    n
                };
                let body = slice_to_vec(slice_subrange(raw, 0, end));
                assert(body@ =~= strip_final_eol(data@.subrange(start as int, e as int)));
                self.pos = e + 9;
                Ok(Some(PdfToken::StreamData(body)))
            },
            None => {
                self.pos = len;
                Err(PdfError::UnexpectedEof)
            },
        }
    }

    fn lex_hex_string(&mut self) -> (res: Result<Option<PdfToken>, PdfError>)
        requires
            old(self).wf(),
            old(self).pos < old(self).data@.len(),
        ensures
            final(self).data == old(self).data,
            final(self).pos as int == hex_scan(old(self).data@, old(self).pos + 1).1,
            res matches Ok(Some(t)) && t@ == TokenModel::HexString(
                hex_scan(old(self).data@, old(self).pos + 1).0,
            ),
    {
        self.pos = self.pos + 1;
        let ghost start = self.pos as int;
        let mut hex_bytes: Vec<u8> = Vec::new();
        proof {
            lemma_hex_scan(self.data@, start);
        }
        let mut closed = false;
        while !closed && self.pos < self.data.len()
            invariant
                self.data == old(self).data,
                start <= self.pos <= self.data@.len(),
                !closed ==> hex_scan(self.data@, start).0 == hex_bytes@ + hex_scan(
                    self.data@,
                    self.pos as int,
                ).0,
                !closed ==> hex_scan(self.data@, start).1 == hex_scan(self.data@, self.pos as int).1,
                closed ==> hex_scan(self.data@, start) == (hex_bytes@, self.pos as int),
            decreases self.data@.len() - self.pos + if closed { 0int } else { 1int },
        {
            let c = self.data[self.pos];
            if c == 62u8 {
                self.pos = self.pos + 1;
                assert(hex_bytes@ + Seq::<u8>::empty() =~= hex_bytes@);
                closed = true;
            } else {
            if (48u8 <= c && c <= 57u8) || (97u8 <= c && c <= 102u8) || (65u8 <= c && c <= 70u8) {
                let ghost before = hex_bytes@;
                hex_bytes.push(c);
                assert(before + (seq![c] + hex_scan(self.data@, self.pos + 1).0) =~= hex_bytes@
                    + hex_scan(self.data@, self.pos + 1).0);
            }
            self.pos = self.pos + 1;
            }
        }
        proof {
            if !closed {
                assert(hex_bytes@ + Seq::<u8>::empty() =~= hex_bytes@);
            }
        }
        Ok(Some(PdfToken::HexString(hex_bytes)))
    }

    fn lex_string_literal(&mut self) -> (res: Result<Option<PdfToken>, PdfError>)
        requires
            old(self).wf(),
            old(self).pos < old(self).data@.len(),
        ensures
            final(self).data == old(self).data,
            final(self).pos as int == literal_scan(old(self).data@, old(self).pos + 1, 1).1,
            ({
                let l = literal_scan(old(self).data@, old(self).pos + 1, 1);
                if l.2 {
                    res matches Ok(Some(t)) && t@ == TokenModel::StringLiteral(l.0)
                } else {
                    res matches Err(e) && e@ == ErrModel::UnexpectedEof
                }
            }),
    {
        self.pos = self.pos + 1;
        let ghost start = self.pos as int;
        let mut string_bytes: Vec<u8> = Vec::new();
        let mut open_parens: usize = 1;
        proof {
            lemma_literal_scan(self.data@, start, 1);
        }
        while open_parens > 0 && self.pos < self.data.len()
            invariant
                self.data == old(self).data,
                start <= self.pos <= self.data@.len(),
                1 <= start,
                open_parens <= self.pos - start + 1,
                self.data@.len() <= usize::MAX,
                open_parens == 0 ==> literal_scan(self.data@, start, 1) == (
                    string_bytes@,
                    self.pos as int,
                    true,
                ),
                open_parens > 0 ==> ({
                    let whole = literal_scan(self.data@, start, 1);
                    let here = literal_scan(self.data@, self.pos as int, open_parens as nat);
                    &&& whole.0 == string_bytes@ + here.0
                    &&& whole.1 == here.1
                    &&& whole.2 == here.2
                }),
            decreases self.data@.len() + 1 - self.pos,
        {
            let c = self.data[self.pos];
            let ghost before = string_bytes@;
            let ghost p = self.pos as int;
            if c == 92u8 {
                string_bytes.push(c);
                if self.pos + 1 < self.data.len() {
                    self.pos = self.pos + 1;
                    string_bytes.push(self.data[self.pos]);
                    proof {
                        let rest = literal_scan(self.data@, p + 2, open_parens as nat);
                        assert(before + (seq![c, self.data@[p + 1]] + rest.0) =~= string_bytes@
                            + rest.0);
                    }
                } else {
                    proof {
                        let rest = literal_scan(self.data@, p + 1, open_parens as nat);
                        assert(before + (seq![c] + rest.0) =~= string_bytes@ + rest.0);
                    }
                }
            } else if c == 40u8 {
                open_parens = open_parens + 1;
                string_bytes.push(c);
                proof {
                    let rest = literal_scan(self.data@, p + 1, open_parens as nat);
                    assert(before + (seq![c] + rest.0) =~= string_bytes@ + rest.0);
                }
            } else if c == 41u8 {
                open_parens = open_parens - 1;
                if open_parens == 0 {
                    assert(string_bytes@ + Seq::<u8>::empty() =~= string_bytes@);
                } else {
                    string_bytes.push(c);
                    proof {
                        let rest = literal_scan(self.data@, p + 1, open_parens as nat);
                        assert(before + (seq![c] + rest.0) =~= string_bytes@ + rest.0);
                    }
                }
            } else {
                string_bytes.push(c);
                proof {
                    let rest = literal_scan(self.data@, p + 1, open_parens as nat);
                    assert(before + (seq![c] + rest.0) =~= string_bytes@ + rest.0);
                }
            }
            self.pos = self.pos + 1;
        }
        if open_parens > 0 {
            return Err(PdfError::UnexpectedEof);
        }
        Ok(Some(PdfToken::StringLiteral(string_bytes)))
    }
}

fn is_number_byte(c: u8) -> (res: bool)
    ensures
        res == is_number_char(c),
{
    c == 43u8 || c == 45u8 || c == 46u8 || (48u8 <= c && c <= 57u8)
}

/// Whether two byte slices are equal.
pub fn bytes_equal(a: &[u8], b: &[u8]) -> (res: bool)
    ensures
        res == (a@ == b@),
{
    if a.len() != b.len() {
        return false;
    }
    let mut i: usize = 0;
    while i < a.len()
        invariant
            a@.len() == b@.len(),
            i <= a@.len(),
            forall|j: int| 0 <= j < i ==> a@[j] == b@[j],
        decreases a@.len() - i,
    {
        if a[i] != b[i] {
            return false;
        }
        i = i + 1;
    }
    assert(a@ =~= b@);
    true
}

/// The first position at or after `from` where `needle` occurs in `data`.
pub fn find_bytes_from(data: &[u8], needle: &[u8], from: usize) -> (res: Option<usize>)
    requires
        needle@.len() > 0,
    ensures
        match res {
            Some(i) => find_from(data@, needle@, from as int) == Some(i as int),
            None => find_from(data@, needle@, from as int) is None,
        },
{
    let mut i = from;
    while i <= data.len() && needle.len() <= data.len() - i
        invariant
            from <= i,
            needle@.len() > 0,
            find_from(data@, needle@, i as int) == find_from(data@, needle@, from as int),
        decreases data@.len() + 1 - i,
    {
        let window = slice_subrange(data, i, i + needle.len());
        if bytes_equal(window, needle) {
            return Some(i);
        }
        i = i + 1;
    }
    None
}

} // verus!
