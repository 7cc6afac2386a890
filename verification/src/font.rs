use vstd::prelude::*;
use std::collections::HashMap;
use crate::error::{ErrModel, PdfError};
use crate::lexer::{lex, lemma_lex_progress, Lexer, PdfToken, TokenModel};
use crate::text::{push_char, lossy_string, lossy_text, utf16_lossy, utf16_lossy_string};
use crate::object::str_equal;

verus! {

broadcast use vstd::std_specs::hash::group_hash_axioms;

// ---------------------------------------------------------------- hex text

/// The value of one hex digit; other bytes count as zero.
pub open spec fn nibble(b: u8) -> u8 {
    if 48 <= b <= 57 {
        (b - 48) as u8
    } else if 97 <= b <= 102 {
        (b - 87) as u8
    } else if 65 <= b <= 70 {
        (b - 55) as u8
    } else {
        0
    }
}

pub open spec fn is_hex(b: u8) -> bool {
    (48 <= b <= 57) || (97 <= b <= 102) || (65 <= b <= 70)
}

/// A character code read from hex digits: each digit shifts the code left by four bits
/// (dropping what leaves the 32 bits) and fills the low four.
pub open spec fn hex_u32(h: Seq<u8>) -> u32
    decreases h.len(),
{
    if h.len() == 0 {
        0
    } else {
        (hex_u32(h.subrange(0, h.len() - 1)) << 4u32) | (nibble(h[h.len() - 1]) as u32)
    }
}

/// The bytes written by pairs of hex digits, skipping other bytes and a final
/// unpaired digit.
pub open spec fn hex_pairs(h: Seq<u8>, i: int, high: Option<u8>) -> Seq<u8>
    decreases h.len() - i,
{
    if i < 0 || i >= h.len() {
        Seq::empty()
    } else if !is_hex(h[i]) {
        hex_pairs(h, i + 1, high)
    } else {
        match high {
            Some(x) => seq![((x as int) * 16 + (nibble(h[i]) as int)) as u8] + hex_pairs(h, i + 1, None),
            None => hex_pairs(h, i + 1, Some(nibble(h[i]))),
        }
    }
}

/// Big-endian 16-bit units from pairs of bytes.
pub open spec fn be_units(b: Seq<u8>) -> Seq<u16> {
    Seq::new(b.len() / 2, |i: int| (b[2 * i] as int * 256 + b[2 * i + 1] as int) as u16)
}

/// The text a CMap destination denotes: UTF-16BE when its byte count is even,
/// UTF-8 otherwise.
pub open spec fn hex_unicode(h: Seq<u8>) -> Seq<char> {
    let b = hex_pairs(h, 0, None);
    if b.len() % 2 == 0 {
        utf16_lossy(be_units(b))
    } else {
        lossy_text(b)
    }
}

/// The text of one UTF-16 unit taken from the low 16 bits of a code.
pub open spec fn unit_string(v: u32) -> Seq<char> {
    utf16_lossy(seq![v as u16])
}

fn hex_value(b: u8) -> (res: u8)
    ensures
        res == nibble(b),
{
    if 48u8 <= b && b <= 57u8 {
        b - 48u8
    } else if 97u8 <= b && b <= 102u8 {
        b - 87u8
    } else if 65u8 <= b && b <= 70u8 {
        b - 55u8
    } else {
        0
    }
}

/// Reads a character code from hex digits.
pub fn hex_bytes_to_u32(hex_ascii: &[u8]) -> (res: u32)
    ensures
        res == hex_u32(hex_ascii@),
{
    let mut val: u32 = 0;
    let mut i: usize = 0;
    while i < hex_ascii.len()
        invariant
            i <= hex_ascii@.len(),
            val == hex_u32(hex_ascii@.subrange(0, i as int)),
        decreases hex_ascii@.len() - i,
    {
        let v = hex_value(hex_ascii[i]);
        proof {
            assert(hex_ascii@.subrange(0, i + 1).subrange(0, i as int) =~= hex_ascii@.subrange(
                0,
                i as int,
            ));
        }
        val = (val << 4u32) | (v as u32);
        i = i + 1;
    }
    assert(hex_ascii@.subrange(0, i as int) =~= hex_ascii@);
    val
}

/// The text a CMap destination written in hex denotes.
pub fn hex_bytes_to_unicode_string(hex_ascii: &[u8]) -> (res: String)
    ensures
        res@ == hex_unicode(hex_ascii@),
{
    let mut bytes: Vec<u8> = Vec::new();
    let mut high_nibble: Option<u8> = None;
    let mut i: usize = 0;
    while i < hex_ascii.len()
        invariant
            i <= hex_ascii@.len(),
            high_nibble matches Some(x) ==> x < 16,
            hex_pairs(hex_ascii@, 0, None) == bytes@ + hex_pairs(hex_ascii@, i as int, high_nibble),
        decreases hex_ascii@.len() - i,
    {
        let b = hex_ascii[i];
        let is_h = (48u8 <= b && b <= 57u8) || (97u8 <= b && b <= 102u8) || (65u8 <= b && b <= 70u8);
        if is_h {
            let v = hex_value(b);
            match high_nibble {
                Some(h) => {
                    let ghost before = bytes@;
                    bytes.push(h * 16 + v);
                    high_nibble = None;
                    assert(before + (seq![((h as int) * 16 + (v as int)) as u8] + hex_pairs(
                        hex_ascii@,
                        i + 1,
                        None,
                    )) =~= bytes@ + hex_pairs(hex_ascii@, i + 1, None));
                },
                None => {
                    high_nibble = Some(v);
                },
            }
        }
        i = i + 1;
    }
    assert(bytes@ + Seq::<u8>::empty() =~= bytes@);
    if bytes.len() % 2 == 0 {
        let mut units: Vec<u16> = Vec::new();
        let mut k: usize = 0;
        while k < bytes.len() / 2
            invariant
                k <= bytes@.len() / 2,
                bytes@.len() % 2 == 0,
                units@ =~= be_units(bytes@).subrange(0, k as int),
            decreases bytes@.len() / 2 - k,
        {
            let hi = bytes[2 * k] as u16;
            let lo = bytes[2 * k + 1] as u16;
            units.push(hi * 256 + lo);
            k = k + 1;
        }
        assert(units@ =~= be_units(bytes@));
        utf16_lossy_string(units.as_slice())
    } else {
        lossy_string(bytes.as_slice())
    }
}

/// The text of one UTF-16 unit taken from the low 16 bits of a code.
pub fn u32_to_unicode_string(val: u32) -> (res: String)
    ensures
        res@ == unit_string(val),
{
    let u16_val = val as u16;
    let units: [u16; 1] = [u16_val];
    assert(units@ =~= seq![val as u16]);
    utf16_lossy_string(&units)
}

// ---------------------------------------------------------------- CMap model

/// The text each code maps to.
pub open spec fn cmap_model(m: Map<u32, String>) -> Map<u32, Seq<char>> {
    Map::new(|k: u32| m.dom().contains(k), |k: u32| m[k]@)
}

pub proof fn lemma_cmap_model_insert(m: Map<u32, String>, k: u32, v: String)
    ensures
        cmap_model(m.insert(k, v)) == cmap_model(m).insert(k, v@),
{
    assert(cmap_model(m.insert(k, v)) =~= cmap_model(m).insert(k, v@));
}

/// What reading a CMap (or one of its blocks) comes to.
pub enum CMapOutcome {
    /// The mapping, and the lexer position afterwards.
    Done(Map<u32, Seq<char>>, int),
    /// An error is reported.
    Failed(ErrModel),
    /// The reading never ends (an unterminated block) or overflows a code.
    Diverges,
}

pub open spec fn moves_forward(data: Seq<u8>, from: int, to: int) -> bool {
    from < to <= data.len() + 1
}

/// A `beginbfchar` block from `pos` up to `endbfchar`: pairs `<src> <dst>`.
pub open spec fn bfchar_block(data: Seq<u8>, pos: int, m: Map<u32, Seq<char>>) -> CMapOutcome
    decreases data.len() + 1 - pos,
{
    if pos < 0 || pos > data.len() + 1 {
        CMapOutcome::Diverges
    } else {
        let l = lex(data, pos);
        match l.0 {
            Err(e) => CMapOutcome::Failed(e),
            Ok(None) => CMapOutcome::Diverges,
            Ok(Some(TokenModel::HexString(src))) => {
                let l2 = lex(data, l.1);
                match l2.0 {
                    Err(e) => CMapOutcome::Failed(e),
                    Ok(Some(TokenModel::HexString(dst))) => if moves_forward(data, pos, l2.1) {
                        bfchar_block(data, l2.1, m.insert(hex_u32(src), hex_unicode(dst)))
                    } else {
                        CMapOutcome::Diverges
                    },
                    Ok(_) => CMapOutcome::Failed(ErrModel::InvalidCMap),
                }
            },
            Ok(Some(tok)) => if tok == TokenModel::Keyword("endbfchar"@) {
                CMapOutcome::Done(m, l.1)
            } else if moves_forward(data, pos, l.1) {
                bfchar_block(data, l.1, m)
            } else {
                CMapOutcome::Diverges
            },
        }
    }
}

/// Codes `code..=end` mapped to consecutive UTF-16 units from `dst`; `None`
/// when the unit counter overflows.
pub open spec fn range_fill(m: Map<u32, Seq<char>>, code: int, end: int, dst: int) -> Option<
    Map<u32, Seq<char>>,
>
    decreases end + 1 - code,
{
    if code > end {
        Some(m)
    } else {
        let m2 = m.insert(code as u32, unit_string(dst as u32));
        if dst >= u32::MAX {
            None
        } else {
            range_fill(m2, code + 1, end, dst + 1)
        }
    }
}

/// The destinations of an array `[ <d1> <d2> ... ]` mapped to consecutive codes from `code`.
pub open spec fn array_fill(data: Seq<u8>, pos: int, m: Map<u32, Seq<char>>, code: int) -> CMapOutcome
    decreases data.len() + 1 - pos,
{
    if pos < 0 || pos > data.len() + 1 {
        CMapOutcome::Diverges
    } else {
        let l = lex(data, pos);
        match l.0 {
            Err(e) => CMapOutcome::Failed(e),
            Ok(None) => CMapOutcome::Done(m, l.1),
            Ok(Some(TokenModel::ArrayEnd)) => CMapOutcome::Done(m, l.1),
            Ok(Some(TokenModel::HexString(dst))) => {
                let m2 = m.insert(code as u32, hex_unicode(dst));
                if code >= u32::MAX {
                    CMapOutcome::Diverges
                } else if moves_forward(data, pos, l.1) {
                    array_fill(data, l.1, m2, code + 1)
                } else {
                    CMapOutcome::Diverges
                }
            },
            Ok(Some(_)) => if moves_forward(data, pos, l.1) {
                array_fill(data, l.1, m, code)
            } else {
                CMapOutcome::Diverges
            },
        }
    }
}

/// A `beginbfrange` block from `pos` up to `endbfrange`: triples
/// `<start> <end> <dst>` or `<start> <end> [ ... ]`.
pub open spec fn bfrange_block(data: Seq<u8>, pos: int, m: Map<u32, Seq<char>>) -> CMapOutcome
    decreases data.len() + 1 - pos,
{
    if pos < 0 || pos > data.len() + 1 {
        CMapOutcome::Diverges
    } else {
        let l = lex(data, pos);
        match l.0 {
            Err(e) => CMapOutcome::Failed(e),
            Ok(None) => CMapOutcome::Diverges,
            Ok(Some(TokenModel::HexString(s))) => {
                let l2 = lex(data, l.1);
                match l2.0 {
                    Err(e) => CMapOutcome::Failed(e),
                    Ok(Some(TokenModel::HexString(e))) => {
                        let l3 = lex(data, l2.1);
                        match l3.0 {
                            Err(err) => CMapOutcome::Failed(err),
                            Ok(Some(TokenModel::HexString(d))) => match range_fill(
                                m,
                                hex_u32(s) as int,
                                hex_u32(e) as int,
                                hex_u32(d) as int,
                            ) {
                                Some(m2) => if moves_forward(data, pos, l3.1) {
                                    bfrange_block(data, l3.1, m2)
                                } else {
                                    CMapOutcome::Diverges
                                },
                                None => CMapOutcome::Diverges,
                            },
                            Ok(Some(TokenModel::ArrayStart)) => match array_fill(
                                data,
                                l3.1,
                                m,
                                hex_u32(s) as int,
                            ) {
                                CMapOutcome::Done(m2, p) => if moves_forward(data, pos, p) {
                                    bfrange_block(data, p, m2)
                                } else {
                                    CMapOutcome::Diverges
                                },
                                other => other,
                            },
                            Ok(_) => CMapOutcome::Failed(ErrModel::InvalidCMap),
                        }
                    },
                    Ok(_) => CMapOutcome::Failed(ErrModel::InvalidCMap),
                }
            },
            Ok(Some(tok)) => if tok == TokenModel::Keyword("endbfrange"@) {
                CMapOutcome::Done(m, l.1)
            } else if moves_forward(data, pos, l.1) {
                bfrange_block(data, l.1, m)
            } else {
                CMapOutcome::Diverges
            },
        }
    }
}

/// Reading a whole CMap stream: tokens are scanned for `beginbfchar` and
/// `beginbfrange` blocks; the scan stops at the end of the data or at a lexing error.
pub open spec fn cmap_scan(data: Seq<u8>, pos: int, m: Map<u32, Seq<char>>) -> CMapOutcome
    decreases data.len() + 1 - pos,
{
    if pos < 0 || pos > data.len() + 1 {
        CMapOutcome::Diverges
    } else {
        let l = lex(data, pos);
        match l.0 {
            Ok(Some(tok)) => {
                let block = if tok == TokenModel::Keyword("beginbfchar"@) {
                    bfchar_block(data, l.1, m)
                } else if tok == TokenModel::Keyword("beginbfrange"@) {
                    bfrange_block(data, l.1, m)
                } else {
                    CMapOutcome::Done(m, l.1)
                };
                match block {
                    CMapOutcome::Done(m2, p) => if moves_forward(data, pos, p) {
                        cmap_scan(data, p, m2)
                    } else {
                        CMapOutcome::Diverges
                    },
                    other => other,
                }
            },
            _ => CMapOutcome::Done(m, l.1),
        }
    }
}

/// Decoding a string: a one-byte code that the map knows, else a two-byte
/// code that it knows, else the byte itself as a character.
pub open spec fn decode_spec(m: Map<u32, Seq<char>>, b: Seq<u8>) -> Seq<char>
    decreases b.len(),
{
    if b.len() == 0 {
        Seq::empty()
    } else if m.contains_key(b[0] as u32) {
        m[b[0] as u32] + decode_spec(m, b.subrange(1, b.len() as int))
    } else if b.len() >= 2 && m.contains_key((b[0] as int * 256 + b[1] as int) as u32) {
        m[(b[0] as int * 256 + b[1] as int) as u32] + decode_spec(m, b.subrange(2, b.len() as int))
    } else {
        seq![b[0] as char] + decode_spec(m, b.subrange(1, b.len() as int))
    }
}

/// How decoding reads codes from the front of a string: a one-byte code the map
/// knows gives its text; otherwise a two-byte code `b0 * 256 + b1` the map knows
/// gives its text; otherwise the byte stands for itself. In particular, for a
/// map that holds a two-byte code and not its first byte, decoding those two
/// bytes gives exactly the text of the code.
pub proof fn law_decode_codes(m: Map<u32, Seq<char>>, b0: u8, b1: u8, rest: Seq<u8>)
    ensures
        decode_spec(m, Seq::empty()) == Seq::<char>::empty(),
        m.contains_key(b0 as u32) ==> decode_spec(m, seq![b0] + rest) == m[b0 as u32] + decode_spec(
            m,
            rest,
        ),
        !m.contains_key(b0 as u32) && m.contains_key((b0 as int * 256 + b1 as int) as u32)
            ==> decode_spec(m, seq![b0, b1] + rest) == m[(b0 as int * 256 + b1 as int) as u32]
            + decode_spec(m, rest),
        !m.contains_key(b0 as u32) && m.contains_key((b0 as int * 256 + b1 as int) as u32)
            ==> decode_spec(m, seq![b0, b1]) == m[(b0 as int * 256 + b1 as int) as u32],
        !m.contains_key(b0 as u32) && !m.contains_key((b0 as int * 256 + b1 as int) as u32)
            ==> decode_spec(m, seq![b0, b1] + rest) == seq![b0 as char] + decode_spec(
            m,
            seq![b1] + rest,
        ),
        !m.contains_key(b0 as u32) ==> decode_spec(m, seq![b0]) == seq![b0 as char],
{
    let one = seq![b0] + rest;
    let two = seq![b0, b1] + rest;
    assert(one.subrange(1, one.len() as int) =~= rest);
    assert(two.subrange(2, two.len() as int) =~= rest);
    assert(two.subrange(1, two.len() as int) =~= seq![b1] + rest);
    assert(seq![b0, b1].subrange(2, 2) =~= Seq::<u8>::empty());
    assert(seq![b0].subrange(1, 1) =~= Seq::<u8>::empty());
    assert(decode_spec(m, Seq::empty()) == Seq::<char>::empty());
    assert(m.contains_key(b0 as u32) ==> m[b0 as u32] + Seq::<char>::empty() =~= m[b0 as u32]);
    let c = (b0 as int * 256 + b1 as int) as u32;
    if !m.contains_key(b0 as u32) && m.contains_key(c) {
        assert(decode_spec(m, seq![b0, b1]) == m[c] + decode_spec(m, Seq::empty()));
        assert(m[c] + Seq::<char>::empty() =~= m[c]);
    }
    if !m.contains_key(b0 as u32) {
        assert(decode_spec(m, seq![b0]) == seq![b0 as char] + decode_spec(m, Seq::empty()));
        assert(seq![b0 as char] + Seq::<char>::empty() =~= seq![b0 as char]);
    }
}

/// A character map (CMap) translating PDF character codes into Unicode text.
#[derive(Debug, Default)]
pub struct CMap {
    /// The text each raw character code maps to.
    pub mapping: HashMap<u32, String>,
}

impl View for CMap {
    type V = Map<u32, Seq<char>>;

    open spec fn view(&self) -> Map<u32, Seq<char>> {
        cmap_model(self.mapping@)
    }
}

fn next_token_of(lexer: &mut Lexer) -> (res: Result<Option<PdfToken>, PdfError>)
    requires
        old(lexer).wf(),
    ensures
        final(lexer).wf(),
        final(lexer).input() == old(lexer).input(),
        final(lexer).position() == lex(old(lexer).input(), old(lexer).position()).1,
        old(lexer).position() <= final(lexer).position(),
        match res {
            Ok(Some(t)) => lex(old(lexer).input(), old(lexer).position()).0 == Ok::<
                Option<TokenModel>,
                ErrModel,
            >(Some(t@)) && old(lexer).position() < final(lexer).position(),
            Ok(None) => lex(old(lexer).input(), old(lexer).position()).0 == Ok::<
                Option<TokenModel>,
                ErrModel,
            >(None),
            Err(e) => lex(old(lexer).input(), old(lexer).position()).0 == Err::<
                Option<TokenModel>,
                ErrModel,
            >(e@),
        },
{
    proof {
        lemma_lex_progress(lexer.input(), lexer.position());
    }
    lexer.next_token()
}

fn is_keyword(t: &PdfToken, word: &str) -> (res: bool)
    ensures
        res == (t@ == TokenModel::Keyword(word@)),
{
    match t {
        PdfToken::Keyword(kw) => str_equal(kw.as_str(), word),
        _ => false,
    }
}

fn parse_bfchar(lexer: &mut Lexer, cmap: &mut CMap) -> (res: Option<Result<(), PdfError>>)
    requires
        old(lexer).wf(),
    ensures
        final(lexer).wf(),
        final(lexer).input() == old(lexer).input(),
        old(lexer).position() <= final(lexer).position(),
        match bfchar_block(old(lexer).input(), old(lexer).position(), old(cmap)@) {
            CMapOutcome::Done(m, p) => res matches Some(Ok(_)) && final(cmap)@ == m && final(lexer).position() == p,
            CMapOutcome::Failed(e) => res matches Some(Err(x)) && x@ == e,
            CMapOutcome::Diverges => res is None,
        },
{
    let ghost data = lexer.input();
    let ghost start = lexer.position();
    loop
        invariant
            lexer.wf(),
            lexer.input() == data,
            data == old(lexer).input(),
            start == old(lexer).position(),
            start <= lexer.position(),
            bfchar_block(data, lexer.position(), cmap@) == bfchar_block(data, start, old(cmap)@),
        decreases data.len() + 1 - lexer.position(),
    {
        let ghost pos = lexer.position();
        proof {
            lemma_lex_progress(data, pos);
        }
        let tok = match next_token_of(lexer) {
            Ok(t) => t,
            Err(e) => {
                return Some(Err(e));
            },
        };
        match tok {
            Some(PdfToken::HexString(src_bytes)) => {
                let ghost p1 = lexer.position();
                proof {
                    lemma_lex_progress(data, p1);
                }
                let dst_tok = match next_token_of(lexer) {
                    Ok(t) => t,
                    Err(e) => {
                        return Some(Err(e));
                    },
                };
                match dst_tok {
                    Some(PdfToken::HexString(dst_bytes)) => {
                        let src_code = hex_bytes_to_u32(src_bytes.as_slice());
                        let dst_unicode = hex_bytes_to_unicode_string(dst_bytes.as_slice());
                        proof {
                            lemma_cmap_model_insert(cmap.mapping@, src_code, dst_unicode);
                        }
                        cmap.mapping.insert(src_code, dst_unicode);
                    },
                    _ => {
                        return Some(Err(PdfError::InvalidCMap));
                    },
                }
            },
            Some(t) => {
                if is_keyword(&t, "endbfchar") {
                    return Some(Ok(()));
                }
            },
            None => {
                return None;
            },
        }
    }
}

fn fill_range(cmap: &mut CMap, start_code: u32, end_code: u32, dst: u32) -> (res: bool)
    ensures
        res == range_fill(old(cmap)@, start_code as int, end_code as int, dst as int) is Some,
        res ==> final(cmap)@ == range_fill(old(cmap)@, start_code as int, end_code as int, dst as int)->0,
{
    if start_code > end_code {
        return true;
    }
    let mut code = start_code;
    let mut current_dst = dst;
    loop
        invariant
            start_code <= code <= end_code,
            range_fill(cmap@, code as int, end_code as int, current_dst as int) == range_fill(
                old(cmap)@,
                start_code as int,
                end_code as int,
                dst as int,
            ),
        decreases end_code - code,
    {
        let s = u32_to_unicode_string(current_dst);
        proof {
            lemma_cmap_model_insert(cmap.mapping@, code, s);
        }
        cmap.mapping.insert(code, s);
        if current_dst == u32::MAX {
            return false;
        }
        if code == end_code {
            assert(range_fill(cmap@, code + 1, end_code as int, current_dst + 1) == Some(cmap@));
            return true;
        }
        current_dst = current_dst + 1;
        code = code + 1;
    }
}

fn fill_array(lexer: &mut Lexer, cmap: &mut CMap, start_code: u32) -> (res: Option<Result<(), PdfError>>)
    requires
        old(lexer).wf(),
    ensures
        final(lexer).wf(),
        final(lexer).input() == old(lexer).input(),
        old(lexer).position() <= final(lexer).position(),
        match array_fill(old(lexer).input(), old(lexer).position(), old(cmap)@, start_code as int) {
            CMapOutcome::Done(m, p) => res matches Some(Ok(_)) && final(cmap)@ == m && final(lexer).position() == p,
            CMapOutcome::Failed(e) => res matches Some(Err(x)) && x@ == e,
            CMapOutcome::Diverges => res is None,
        },
{
    let ghost data = lexer.input();
    let ghost start = lexer.position();
    let mut current_code = start_code;
    loop
        invariant
            lexer.wf(),
            lexer.input() == data,
            data == old(lexer).input(),
            start == old(lexer).position(),
            start <= lexer.position(),
            array_fill(data, lexer.position(), cmap@, current_code as int) == array_fill(
                data,
                start,
                old(cmap)@,
                start_code as int,
            ),
        decreases data.len() + 1 - lexer.position(),
    {
        let ghost pos = lexer.position();
        proof {
            lemma_lex_progress(data, pos);
        }
        let tok = match next_token_of(lexer) {
            Ok(t) => t,
            Err(e) => {
                return Some(Err(e));
            },
        };
        match tok {
            None => {
                return Some(Ok(()));
            },
            Some(PdfToken::ArrayEnd) => {
                return Some(Ok(()));
            },
            Some(PdfToken::HexString(dst_bytes)) => {
                let s = hex_bytes_to_unicode_string(dst_bytes.as_slice());
                proof {
                    lemma_cmap_model_insert(cmap.mapping@, current_code, s);
                }
                cmap.mapping.insert(current_code, s);
                if current_code == u32::MAX {
                    return None;
                }
                current_code = current_code + 1;
            },
            Some(_) => {},
        }
    }
}

fn parse_bfrange(lexer: &mut Lexer, cmap: &mut CMap) -> (res: Option<Result<(), PdfError>>)
    requires
        old(lexer).wf(),
    ensures
        final(lexer).wf(),
        final(lexer).input() == old(lexer).input(),
        old(lexer).position() <= final(lexer).position(),
        match bfrange_block(old(lexer).input(), old(lexer).position(), old(cmap)@) {
            CMapOutcome::Done(m, p) => res matches Some(Ok(_)) && final(cmap)@ == m && final(lexer).position() == p,
            CMapOutcome::Failed(e) => res matches Some(Err(x)) && x@ == e,
            CMapOutcome::Diverges => res is None,
        },
{
    let ghost data = lexer.input();
    let ghost start = lexer.position();
    loop
        invariant
            lexer.wf(),
            lexer.input() == data,
            data == old(lexer).input(),
            start == old(lexer).position(),
            start <= lexer.position(),
            bfrange_block(data, lexer.position(), cmap@) == bfrange_block(data, start, old(cmap)@),
        decreases data.len() + 1 - lexer.position(),
    {
        let ghost pos = lexer.position();
        proof {
            lemma_lex_progress(data, pos);
        }
        let tok = match next_token_of(lexer) {
            Ok(t) => t,
            Err(e) => {
                return Some(Err(e));
            },
        };
        match tok {
            Some(PdfToken::HexString(start_bytes)) => {
                let ghost p1 = lexer.position();
                proof {
                    lemma_lex_progress(data, p1);
                }
                let end_tok = match next_token_of(lexer) {
                    Ok(t) => t,
                    Err(e) => {
                        return Some(Err(e));
                    },
                };
                match end_tok {
                    Some(PdfToken::HexString(end_bytes)) => {
                        let ghost p2 = lexer.position();
                        proof {
                            lemma_lex_progress(data, p2);
                        }
                        let dst_tok = match next_token_of(lexer) {
                            Ok(t) => t,
                            Err(e) => {
                                return Some(Err(e));
                            },
                        };
                        let start_code = hex_bytes_to_u32(start_bytes.as_slice());
                        let end_code = hex_bytes_to_u32(end_bytes.as_slice());
                        match dst_tok {
                            Some(PdfToken::HexString(dst_bytes)) => {
                                let dst = hex_bytes_to_u32(dst_bytes.as_slice());
                                if !fill_range(cmap, start_code, end_code, dst) {
                                    return None;
                                }
                            },
                            Some(PdfToken::ArrayStart) => {
                                match fill_array(lexer, cmap, start_code) {
                                    Some(Ok(_)) => {},
                                    other => {
                                        return other;
                                    },
                                }
                            },
                            _ => {
                                return Some(Err(PdfError::InvalidCMap));
                            },
                        }
                    },
                    _ => {
                        return Some(Err(PdfError::InvalidCMap));
                    },
                }
            },
            Some(t) => {
                if is_keyword(&t, "endbfrange") {
                    return Some(Ok(()));
                }
            },
            None => {
                return None;
            },
        }
    }
}

impl CMap {
    /// An empty map.
    pub fn new() -> (res: Self)
        ensures
            res@ == Map::<u32, Seq<char>>::empty(),
    {
        let res = CMap { mapping: HashMap::new() };
        assert(res@ =~= Map::<u32, Seq<char>>::empty());
        res
    }

    /// Reads a `/ToUnicode` CMap stream: every `beginbfchar` and `beginbfrange`
    /// block adds its mappings; the scan stops at the end of the data or at a lexing
    /// error outside the blocks.
    pub fn parse(stream_data: &[u8]) -> (res: Result<Self, PdfError>)
        requires
            !(cmap_scan(stream_data@, 0, Map::empty()) is Diverges),
        ensures
            match cmap_scan(stream_data@, 0, Map::empty()) {
                CMapOutcome::Done(m, _) => res matches Ok(c) && c@ == m,
                CMapOutcome::Failed(e) => res matches Err(x) && x@ == e,
                CMapOutcome::Diverges => false,
            },
    {
        match Self::parse_checked(stream_data) {
            Some(r) => r,
            None => Err(PdfError::InvalidCMap),
        }
    }

    /// Like `parse`, but `None` where reading would never end (a block left
    /// open at the end of the data) or a code or destination would pass `u32::MAX`.
    pub fn parse_checked(stream_data: &[u8]) -> (res: Option<Result<Self, PdfError>>)
        ensures
            match cmap_scan(stream_data@, 0, Map::empty()) {
                CMapOutcome::Done(m, _) => res matches Some(Ok(c)) && c@ == m,
                CMapOutcome::Failed(e) => res matches Some(Err(x)) && x@ == e,
                CMapOutcome::Diverges => res is None,
            },
    {
        let mut cmap = CMap::new();
        let mut lexer = Lexer::new(stream_data);
        let ghost data = stream_data@;
        loop
            invariant
                lexer.wf(),
                lexer.input() == data,
                data == stream_data@,
                cmap_scan(data, lexer.position(), cmap@) == cmap_scan(data, 0, Map::empty()),
            decreases data.len() + 1 - lexer.position(),
        {
            let ghost pos = lexer.position();
            proof {
                lemma_lex_progress(data, pos);
            }
            match next_token_of(&mut lexer) {
                Ok(Some(tok)) => {
                    if is_keyword(&tok, "beginbfchar") {
                        match parse_bfchar(&mut lexer, &mut cmap) {
                            Some(Ok(_)) => {},
                            Some(Err(e)) => {
                                return Some(Err(e));
                            },
                            None => {
                                return None;
                            },
                        }
                    } else if is_keyword(&tok, "beginbfrange") {
                        match parse_bfrange(&mut lexer, &mut cmap) {
                            Some(Ok(_)) => {},
                            Some(Err(e)) => {
                                return Some(Err(e));
                            },
                            None => {
                                return None;
                            },
                        }
                    }
                },
                _ => {
                    return Some(Ok(cmap));
                },
            }
        }
    }

    /// Maps the bytes of a PDF string to text: a one-byte code the map knows,
    /// else a two-byte code it knows, else the byte as a character.
    pub fn decode_string(&self, bytes: &[u8]) -> (res: String)
        ensures
            res@ == decode_spec(self@, bytes@),
    {
        let mut result = String::new();
        let mut i: usize = 0;
        assert(bytes@.subrange(0, bytes@.len() as int) =~= bytes@);
        assert(result@ + decode_spec(self@, bytes@) =~= decode_spec(self@, bytes@));
        while i < bytes.len()
            invariant
                i <= bytes@.len(),
                decode_spec(self@, bytes@) == result@ + decode_spec(
                    self@,
                    bytes@.subrange(i as int, bytes@.len() as int),
                ),
            decreases bytes@.len() - i,
        {
            let ghost rest = bytes@.subrange(i as int, bytes@.len() as int);
            let ghost before = result@;
            let code_1 = bytes[i] as u32;
            match self.mapping.get(&code_1) {
                Some(unicode) => {
                    result.append(unicode.as_str());
                    proof {
                        assert(rest.subrange(1, rest.len() as int) =~= bytes@.subrange(
                            i + 1,
                            bytes@.len() as int,
                        ));
                    }
                    i = i + 1;
                    continue;
                },
                None => {},
            }
            if i + 1 < bytes.len() {
                let code_2 = (bytes[i] as u32) * 256 + (bytes[i + 1] as u32);
                match self.mapping.get(&code_2) {
                    Some(unicode) => {
                        result.append(unicode.as_str());
                        proof {
                            assert(rest.subrange(2, rest.len() as int) =~= bytes@.subrange(
                                i + 2,
                                bytes@.len() as int,
                            ));
                        }
                        i = i + 2;
                        continue;
                    },
                    None => {},
                }
            }
            push_char(&mut result, bytes[i] as char);
            proof {
                assert(rest.subrange(1, rest.len() as int) =~= bytes@.subrange(
                    i + 1,
                    bytes@.len() as int,
                ));
            }
            i = i + 1;
        }
        assert(bytes@.subrange(i as int, bytes@.len() as int) =~= Seq::<u8>::empty());
        assert(result@ + Seq::<char>::empty() =~= result@);
        result
    }
}

} // verus!

verus! {

// ---------------------------------------------------------------- TrueType fonts

/// The face type of `ttf_parser`.
#[verifier::external_type_specification]
#[verifier::external_body]
pub struct ExFace<'a>(ttf_parser::Face<'a>);

/// The text of the error with which `ttf_parser::Face::parse` refuses font
/// bytes (face 0), or none when it accepts them.
pub uninterp spec fn ttf_parse_error(font_data: Seq<u8>) -> Option<Seq<char>>;

/// The glyph that the font bytes map a character to (`Face::glyph_index`).
pub uninterp spec fn ttf_glyph_index(font_data: Seq<u8>, c: char) -> Option<u16>;

/// The horizontal advance of a glyph in the font bytes (`Face::glyph_hor_advance`).
pub uninterp spec fn ttf_hor_advance(font_data: Seq<u8>, glyph: u16) -> Option<u16>;

/// A parsed TrueType font face, with the bytes it was parsed from.
pub struct TrueTypeFont<'a> {
    face: ttf_parser::Face<'a>,
    data: &'a [u8],
}

/// Parses font bytes with `ttf_parser::Face::parse` (face 0). Claims: the face
/// is refused exactly as named, with the text of the parser's error.
#[verifier::external_body]
fn parse_face<'a>(font_data: &'a [u8]) -> (res: Result<ttf_parser::Face<'a>, String>)
    ensures
        match ttf_parse_error(font_data@) {
            Some(msg) => res matches Err(s) && s@ == msg,
            None => res is Ok,
        },
{
    ttf_parser::Face::parse(font_data, 0).map_err(|e| e.to_string())
}

/// Looks a character up with `Face::glyph_index`. Claims: the named glyph of
/// the font's bytes; the face was parsed from those bytes by `TrueTypeFont::parse`.
#[verifier::external_body]
fn face_glyph_index(font: &TrueTypeFont, c: char) -> (res: Option<u16>)
    ensures
        res == ttf_glyph_index(font.font_data(), c),
{
    font.face.glyph_index(c).map(|g| g.0)
}

/// Reads a glyph's advance with `Face::glyph_hor_advance`. Claims: the named
/// advance in the font's bytes.
#[verifier::external_body]
fn face_hor_advance(font: &TrueTypeFont, glyph: u16) -> (res: Option<u16>)
    ensures
        res == ttf_hor_advance(font.font_data(), glyph),
{
    font.face.glyph_hor_advance(ttf_parser::GlyphId(glyph))
}

impl<'a> TrueTypeFont<'a> {
    /// The bytes the face was parsed from.
    pub closed spec fn font_data(&self) -> Seq<u8> {
        self.data@
    }

    /// Loads a TrueType font from the decoded bytes of a `/FontFile2` stream.
    pub fn parse(font_data: &'a [u8]) -> (res: Result<Self, PdfError>)
        ensures
            match ttf_parse_error(font_data@) {
                Some(msg) => res matches Err(e) && e@ == ErrModel::InvalidTrueTypeFont(msg),
                None => res matches Ok(f) && f.font_data() == font_data@,
            },
    {
        match parse_face(font_data) {
            Ok(face) => Ok(TrueTypeFont { face, data: font_data }),
            Err(msg) => Err(PdfError::InvalidTrueTypeFont(msg)),
        }
    }

    /// The advance width of the glyph a character maps to, from the `hmtx` table.
    pub fn get_glyph_width(&self, char_code: char) -> (res: Option<u16>)
        ensures
            res == match ttf_glyph_index(self.font_data(), char_code) {
                Some(g) => ttf_hor_advance(self.font_data(), g),
                None => None,
            },
    {
        match face_glyph_index(self, char_code) {
            Some(g) => face_hor_advance(self, g),
            None => None,
        }
    }
}

} // verus!
