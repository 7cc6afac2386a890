use vstd::prelude::*;
use crate::error::{ErrModel, PdfError};
use crate::lexer::{
    lex, lemma_lex_progress, is_number_text, opt_token_view, Lexer, PdfToken, TokenModel,
};
use crate::numbers::{parse_unsigned, parse_i32_spec, parse_decimal_spec, parse_u16, parse_u32,
    parse_i32, parse_decimal};
use crate::object::{
    dict_insert, lemma_entries_model_push, lemma_objects_model_push, objects_model, DictModel,
    ObjModel, ObjectId, PdfDictionary, PdfObject, PdfStream, real_normal,
};
use crate::text::ascii_bytes;
use crate::object::str_equal;

verus! {

/// Where a parser stands: the lexer position and the token it holds.
pub struct PState {
    pub pos: int,
    pub cur: Option<TokenModel>,
}

pub open spec fn in_range(data: Seq<u8>, st: PState) -> bool {
    0 <= st.pos <= data.len() + 1
}

/// What is left to read: two units per byte and one for a held token.
pub open spec fn measure(data: Seq<u8>, st: PState) -> int {
    if in_range(data, st) {
        2 * (data.len() + 1 - st.pos) + if st.cur is Some {
            1int
        } else {
            0int
        }
    } else {
        0
    }
}

pub open spec fn token_ok(t: Option<TokenModel>) -> bool {
    t matches Some(TokenModel::Number(s)) ==> is_number_text(s)
}

/// Replacing the held token by the next one; on a lexing error the held token stays.
pub open spec fn advance_spec(data: Seq<u8>, st: PState) -> (Result<(), ErrModel>, PState) {
    let l = lex(data, st.pos);
    match l.0 {
        Ok(t) => (Ok(()), PState { pos: l.1, cur: t }),
        Err(e) => (Err(e), PState { pos: l.1, cur: st.cur }),
    }
}

pub proof fn lemma_advance(data: Seq<u8>, st: PState)
    requires
        in_range(data, st),
    ensures
        in_range(data, advance_spec(data, st).1),
        token_ok(st.cur) ==> token_ok(advance_spec(data, st).1.cur),
        advance_spec(data, st).0 is Ok ==> measure(data, advance_spec(data, st).1) <= 2 * (
        data.len() + 1 - st.pos),
        advance_spec(data, st).0 is Ok ==> token_ok(advance_spec(data, st).1.cur),
{
    lemma_lex_progress(data, st.pos);
}

/// How the token after a number decides its meaning: a reference `n g R`, an
/// indirect object `n g obj`, or a plain number.
pub enum NumberRole {
    Reference(int),
    IndirectObject,
    Plain,
}

pub open spec fn number_role(data: Seq<u8>, st: PState) -> NumberRole {
    match st.cur {
        Some(TokenModel::Number(g)) => match lex(data, st.pos).0 {
            Ok(Some(TokenModel::Keyword(kw))) => if kw == "R"@ {
                match parse_unsigned(g, u16::MAX as int) {
                    Some(v) => NumberRole::Reference(v),
                    None => NumberRole::Plain,
                }
            } else if kw == "obj"@ {
                NumberRole::IndirectObject
            } else {
                NumberRole::Plain
            },
            _ => NumberRole::Plain,
        },
        _ => NumberRole::Plain,
    }
}

/// The meaning of a number token that is neither a reference nor an object header.
pub open spec fn plain_number(s: Seq<char>) -> Result<ObjModel, ErrModel> {
    match parse_i32_spec(s) {
        Some(v) => Ok(ObjModel::Integer(v as i32)),
        None => match parse_decimal_spec(s) {
            Some(r) => Ok(ObjModel::Real(r)),
            None => Err(ErrModel::InvalidSyntax("Invalid number format: "@ + s)),
        },
    }
}

/// Parsing one object from the parser state.
pub open spec fn parse_obj(data: Seq<u8>, st: PState) -> (Result<ObjModel, ErrModel>, PState)
    decreases measure(data, st), 0int,
{
    if !in_range(data, st) {
        (Err(ErrModel::UnexpectedEof), st)
    } else {
        match st.cur {
            None => (Err(ErrModel::UnexpectedEof), st),
            Some(tok) => {
                let st1 = PState { pos: st.pos, cur: None };
                let a = advance_spec(data, st1);
                match tok {
                    TokenModel::Name(s) => match a.0 {
                        Err(e) => (Err(e), a.1),
                        Ok(_) => (Ok(ObjModel::Name(s)), a.1),
                    },
                    TokenModel::StringLiteral(b) => match a.0 {
                        Err(e) => (Err(e), a.1),
                        Ok(_) => (Ok(ObjModel::String(b)), a.1),
                    },
                    TokenModel::HexString(b) => match a.0 {
                        Err(e) => (Err(e), a.1),
                        Ok(_) => (Ok(ObjModel::String(b)), a.1),
                    },
                    TokenModel::Number(s) => match a.0 {
                        Err(e) => (Err(e), a.1),
                        Ok(_) => {
                            let st2 = a.1;
                            match number_role(data, st2) {
                                NumberRole::Reference(g) => match parse_unsigned(
                                    s,
                                    u32::MAX as int,
                                ) {
                                    None => (Err(ErrModel::UnexpectedToken), st2),
                                    Some(n) => {
                                        let a3 = advance_spec(data, st2);
                                        match a3.0 {
                                            Err(e) => (Err(e), a3.1),
                                            Ok(_) => {
                                                let a4 = advance_spec(data, a3.1);
                                                match a4.0 {
                                                    Err(e) => (Err(e), a4.1),
                                                    Ok(_) => (
                                                        Ok(
                                                            ObjModel::Reference(
                                                                ObjectId {
                                                                    object_number: n as u32,
                                                                    generation_number: g as u16,
                                                                },
                                                            ),
                                                        ),
                                                        a4.1,
                                                    ),
                                                }
                                            },
                                        }
                                    },
                                },
                                NumberRole::IndirectObject => {
                                    let a3 = advance_spec(data, st2);
                                    match a3.0 {
                                        Err(e) => (Err(e), a3.1),
                                        Ok(_) => {
                                            let a4 = advance_spec(data, a3.1);
                                            match a4.0 {
                                                Err(e) => (Err(e), a4.1),
                                                Ok(_) => if measure(data, a4.1) < measure(
                                                    data,
                                                    st,
                                                ) {
                                                    let inner = parse_obj(data, a4.1);
                                                    match inner.0 {
                                                        Err(e) => (Err(e), inner.1),
                                                        Ok(o) => if inner.1.cur == Some(
                                                            TokenModel::Keyword("endobj"@),
                                                        ) {
                                                            let a6 = advance_spec(data, inner.1);
                                                            match a6.0 {
                                                                Err(e) => (Err(e), a6.1),
                                                                Ok(_) => (Ok(o), a6.1),
                                                            }
                                                        } else {
                                                            (Err(ErrModel::UnexpectedEndObj), inner.1)
                                                        },
                                                    }
                                                } else {
                                                    (Err(ErrModel::UnexpectedEof), a4.1)
                                                },
                                            }
                                        },
                                    }
                                },
                                NumberRole::Plain => (plain_number(s), st2),
                            }
                        },
                    },
                    TokenModel::Keyword(kw) => match a.0 {
                        Err(e) => (Err(e), a.1),
                        Ok(_) => if kw == "true"@ {
                            (Ok(ObjModel::Boolean(true)), a.1)
                        } else if kw == "false"@ {
                            (Ok(ObjModel::Boolean(false)), a.1)
                        } else if kw == "null"@ {
                            (Ok(ObjModel::Null), a.1)
                        } else {
                            (Err(ErrModel::UnexpectedToken), a.1)
                        },
                    },
                    TokenModel::ArrayStart => match a.0 {
                        Err(e) => (Err(e), a.1),
                        Ok(_) => if measure(data, a.1) < measure(data, st) {
                            parse_array_items(data, a.1, Seq::empty())
                        } else {
                            (Err(ErrModel::UnexpectedEof), a.1)
                        },
                    },
                    TokenModel::DictStart => match a.0 {
                        Err(e) => (Err(e), a.1),
                        Ok(_) => if measure(data, a.1) < measure(data, st) {
                            dict_or_stream(data, parse_dict_entries(data, a.1, Seq::empty()))
                        } else {
                            (Err(ErrModel::UnexpectedEof), a.1)
                        },
                    },
                    _ => (Err(ErrModel::UnexpectedToken), st1),
                }
            },
        }
    }
}

/// A parsed dictionary becomes a stream when stream data follows it.
pub open spec fn dict_or_stream(data: Seq<u8>, d: (Result<DictModel, ErrModel>, PState)) -> (
    Result<ObjModel, ErrModel>,
    PState,
) {
    match d.0 {
        Err(e) => (Err(e), d.1),
        Ok(entries) => match d.1.cur {
            Some(TokenModel::StreamData(bytes)) => {
                let a5 = advance_spec(data, d.1);
                match a5.0 {
                    Err(e) => (Err(e), a5.1),
                    Ok(_) => (Ok(ObjModel::Stream(entries, bytes)), a5.1),
                }
            },
            _ => (Ok(ObjModel::Dictionary(entries)), d.1),
        },
    }
}

/// Parsing array elements up to `]`, after the elements `acc` already read.
pub open spec fn parse_array_items(data: Seq<u8>, st: PState, acc: Seq<ObjModel>) -> (
    Result<ObjModel, ErrModel>,
    PState,
)
    decreases measure(data, st), 1int,
{
    if !in_range(data, st) {
        (Err(ErrModel::UnexpectedEof), st)
    } else {
        match st.cur {
            Some(TokenModel::ArrayEnd) => {
                let a = advance_spec(data, st);
                match a.0 {
                    Err(e) => (Err(e), a.1),
                    Ok(_) => (Ok(ObjModel::Array(acc)), a.1),
                }
            },
            None => (Err(ErrModel::UnexpectedEof), st),
            Some(_) => {
                let r = parse_obj(data, st);
                match r.0 {
                    Err(e) => (Err(e), r.1),
                    Ok(o) => if measure(data, r.1) < measure(data, st) {
                        parse_array_items(data, r.1, acc.push(o))
                    } else {
                        (Err(ErrModel::UnexpectedEof), r.1)
                    },
                }
            },
        }
    }
}

/// Parsing dictionary entries up to `>>`, after the entries `acc` already read.
pub open spec fn parse_dict_entries(data: Seq<u8>, st: PState, acc: DictModel) -> (
    Result<DictModel, ErrModel>,
    PState,
)
    decreases measure(data, st), 1int,
{
    if !in_range(data, st) {
        (Err(ErrModel::UnexpectedEof), st)
    } else {
        match st.cur {
            Some(TokenModel::DictEnd) => {
                let a = advance_spec(data, st);
                match a.0 {
                    Err(e) => (Err(e), a.1),
                    Ok(_) => (Ok(acc), a.1),
                }
            },
            None => (Err(ErrModel::UnexpectedEof), st),
            Some(TokenModel::Name(key)) => {
                let a = advance_spec(data, st);
                match a.0 {
                    Err(e) => (Err(e), a.1),
                    Ok(_) => if measure(data, a.1) < measure(data, st) {
                        let r = parse_obj(data, a.1);
                        match r.0 {
                            Err(e) => (Err(e), r.1),
                            Ok(v) => if measure(data, r.1) < measure(data, st) {
                                parse_dict_entries(data, r.1, dict_insert(acc, key, v))
                            } else {
                                (Err(ErrModel::UnexpectedEof), r.1)
                            },
                        }
                    } else {
                        (Err(ErrModel::UnexpectedEof), a.1)
                    },
                }
            },
            Some(_) => (Err(ErrModel::ExpectedDictKeyName), st),
        }
    }
}

/// A recursive-descent parser turning tokens into objects.
pub struct Parser<'a> {
    lexer: Lexer<'a>,
    current_token: Option<PdfToken>,
}

impl<'a> Parser<'a> {
    /// The bytes being parsed.
    pub closed spec fn input(&self) -> Seq<u8> {
        self.lexer.input()
    }

    /// The lexer position and the held token.
    pub closed spec fn state(&self) -> PState {
        PState { pos: self.lexer.position(), cur: opt_token_view(self.current_token) }
    }

    pub closed spec fn wf(&self) -> bool {
        &&& self.lexer.wf()
        &&& token_ok(opt_token_view(self.current_token))
    }

    /// A parser holding the first token of the lexer.
    pub fn new(lexer: Lexer<'a>) -> (res: Result<Self, PdfError>)
        requires
            lexer.wf(),
        ensures
            match res {
                Ok(p) => {
                    &&& p.wf()
                    &&& p.input() == lexer.input()
                    &&& lex(lexer.input(), lexer.position()).0 == Ok::<
                        Option<TokenModel>,
                        ErrModel,
                    >(p.state().cur)
                    &&& p.state().pos == lex(lexer.input(), lexer.position()).1
                },
                Err(e) => lex(lexer.input(), lexer.position()).0 == Err::<
                    Option<TokenModel>,
                    ErrModel,
                >(e@),
            },
    {
        let mut lexer = lexer;
        proof {
            lemma_lex_progress(lexer.input(), lexer.position());
        }
        let first_token = lexer.next_token()?;
        Ok(Parser { lexer, current_token: first_token })
    }

    fn advance(&mut self) -> (res: Result<(), PdfError>)
        requires
            old(self).wf(),
        ensures
            final(self).wf(),
            final(self).input() == old(self).input(),
            final(self).state() == advance_spec(old(self).input(), old(self).state()).1,
            match res {
                Ok(_) => advance_spec(old(self).input(), old(self).state()).0 is Ok,
                Err(e) => advance_spec(old(self).input(), old(self).state()).0 == Err::<
                    (),
                    ErrModel,
                >(e@),
            },
    {
        proof {
            lemma_advance(self.input(), self.state());
        }
        let t = self.lexer.next_token()?;
        self.current_token = t;
        Ok(())
    }

    /// Parses the next object.
    pub fn parse_object(&mut self) -> (res: Result<PdfObject, PdfError>)
        requires
            old(self).wf(),
        ensures
            final(self).wf(),
            final(self).input() == old(self).input(),
            final(self).state() == parse_obj(old(self).input(), old(self).state()).1,
            match res {
                Ok(o) => parse_obj(old(self).input(), old(self).state()).0 == Ok::<
                    ObjModel,
                    ErrModel,
                >(o@) && measure(final(self).input(), final(self).state()) < measure(
                    old(self).input(),
                    old(self).state(),
                ),
                Err(e) => parse_obj(old(self).input(), old(self).state()).0 == Err::<
                    ObjModel,
                    ErrModel,
                >(e@),
            },
        decreases measure(old(self).input(), old(self).state()), 0int,
    {
        let ghost data = self.input();
        let ghost st = self.state();
        let token = match self.current_token.take() {
            Some(t) => t,
            None => return Err(PdfError::UnexpectedEof),
        };
        let ghost st1 = self.state();
        assert(st1 == PState { pos: st.pos, cur: None });
        proof {
            lemma_advance(data, st1);
        }
        match token {
            PdfToken::Name(s) => {
                self.advance()?;
                Ok(PdfObject::Name(s))
            },
            PdfToken::StringLiteral(bytes) => {
                self.advance()?;
                Ok(PdfObject::String(bytes))
            },
            PdfToken::HexString(bytes) => {
                self.advance()?;
                Ok(PdfObject::String(bytes))
            },
            PdfToken::Number(s) => {
                self.advance()?;
                let ghost st2 = self.state();
                let mut is_reference = false;
                let mut is_obj = false;
                let mut ref_gen: u16 = 0;
                match &self.current_token {
                    Some(PdfToken::Number(gen_str)) => {
                        let mut lookahead = self.lexer;
                        proof {
                            lemma_lex_progress(data, st2.pos);
                        }
                        match lookahead.next_token() {
                            Ok(Some(PdfToken::Keyword(kw))) => {
                                if str_equal(kw.as_str(), "R") {
                                    match parse_u16(ascii_bytes(gen_str.as_str())) {
                                        Some(g) => {
                                            is_reference = true;
                                            ref_gen = g;
                                        },
                                        None => {},
                                    }
                                } else if str_equal(kw.as_str(), "obj") {
                                    is_obj = true;
                                }
                            },
                            _ => {},
                        }
                    },
                    _ => {},
                }
                assert(is_reference ==> number_role(data, st2) == NumberRole::Reference(
                    ref_gen as int,
                ));
                assert(is_obj ==> number_role(data, st2) == NumberRole::IndirectObject);
                assert(!is_reference && !is_obj ==> number_role(data, st2) == NumberRole::Plain);
                if is_reference {
                    let obj_num = match parse_u32(ascii_bytes(s.as_str())) {
                        Some(n) => n,
                        None => return Err(PdfError::UnexpectedToken),
                    };
                    proof {
                        lemma_advance(data, self.state());
                    }
                    self.advance()?;
                    proof {
                        lemma_advance(data, self.state());
                    }
                    self.advance()?;
                    return Ok(
                        PdfObject::Reference(
                            ObjectId { object_number: obj_num, generation_number: ref_gen },
                        ),
                    );
                } else if is_obj {
                    proof {
                        lemma_advance(data, self.state());
                    }
                    self.advance()?;
                    proof {
                        lemma_advance(data, self.state());
                    }
                    self.advance()?;
                    let inner_obj = self.parse_object()?;
                    let mut has_endobj = false;
                    match &self.current_token {
                        Some(PdfToken::Keyword(endkw)) => {
                            if str_equal(endkw.as_str(), "endobj") {
                                has_endobj = true;
                            }
                        },
                        _ => {},
                    }
                    assert(has_endobj == (self.state().cur == Some(
                        TokenModel::Keyword("endobj"@),
                    )));
                    if has_endobj {
                        proof {
                            lemma_advance(data, self.state());
                        }
                        self.advance()?;
                        return Ok(inner_obj);
                    }
                    return Err(PdfError::UnexpectedEndObj);
                }
                let digits = ascii_bytes(s.as_str());
                match parse_i32(digits) {
                    Some(v) => {
                        return Ok(PdfObject::Integer(v));
                    },
                    None => {},
                }
                match parse_decimal(digits) {
                    Some(r) => {
                        return Ok(PdfObject::Real(r));
                    },
                    None => {},
                }
                let mut msg = String::from_str("Invalid number format: ");
                msg.append(s.as_str());
                Err(PdfError::InvalidSyntax(msg))
            },
            PdfToken::Keyword(kw) => {
                self.advance()?;
                if str_equal(kw.as_str(), "true") {
                    Ok(PdfObject::Boolean(true))
                } else if str_equal(kw.as_str(), "false") {
                    Ok(PdfObject::Boolean(false))
                } else if str_equal(kw.as_str(), "null") {
                    Ok(PdfObject::Null)
                } else {
                    Err(PdfError::UnexpectedToken)
                }
            },
            PdfToken::ArrayStart => {
                self.advance()?;
                let mut array: Vec<PdfObject> = Vec::new();
                loop
                    invariant
                        self.wf(),
                        self.input() == data,
                        data == old(self).input(),
                        st == old(self).state(),
                        in_range(data, st),
                        measure(data, self.state()) < measure(data, st),
                        parse_obj(data, st) == parse_array_items(
                            data,
                            self.state(),
                            objects_model(array@),
                        ),
                    decreases measure(data, self.state()),
                {
                    let ghost sti = self.state();
                    let is_end = match &self.current_token {
                        Some(PdfToken::ArrayEnd) => true,
                        _ => false,
                    };
                    if is_end {
                        proof {
                            lemma_advance(data, sti);
                        }
                        self.advance()?;
                        return Ok(PdfObject::Array(array));
                    }
                    if self.current_token.is_none() {
                        return Err(PdfError::UnexpectedEof);
                    }
                    let obj = self.parse_object()?;
                    proof {
                        lemma_objects_model_push(array@, obj);
                    }
                    array.push(obj);
                }
            },
            PdfToken::DictStart => {
                self.advance()?;
                let mut dict = PdfDictionary::new();
                loop
                    invariant
                        self.wf(),
                        self.input() == data,
                        data == old(self).input(),
                        st == old(self).state(),
                        in_range(data, st),
                        measure(data, self.state()) < measure(data, st),
                        parse_obj(data, st) == dict_or_stream(
                            data,
                            parse_dict_entries(data, self.state(), dict@),
                        ),
                    decreases measure(data, self.state()),
                {
                    let ghost sti = self.state();
                    let is_end = match &self.current_token {
                        Some(PdfToken::DictEnd) => true,
                        _ => false,
                    };
                    if is_end {
                        proof {
                            lemma_advance(data, sti);
                        }
                        self.advance()?;
                        let ghost std = self.state();
                        let mut stream_data: Option<Vec<u8>> = None;
                        match &self.current_token {
                            Some(PdfToken::StreamData(bytes)) => {
                                stream_data = Some(bytes.clone());
                            },
                            _ => {},
                        }
                        match stream_data {
                            Some(bytes) => {
                                proof {
                                    lemma_advance(data, std);
                                }
                                self.advance()?;
                                return Ok(PdfObject::Stream(PdfStream { dict, data: bytes }));
                            },
                            None => {
                                return Ok(PdfObject::Dictionary(dict));
                            },
                        }
                    }
                    if self.current_token.is_none() {
                        return Err(PdfError::UnexpectedEof);
                    }
                    let key = match &self.current_token {
                        Some(PdfToken::Name(name_str)) => name_str.clone(),
                        _ => return Err(PdfError::ExpectedDictKeyName),
                    };
                    proof {
                        lemma_advance(data, sti);
                    }
                    self.advance()?;
                    let value = self.parse_object()?;
                    dict.insert_string(key, value);
                }
            },
            _ => Err(PdfError::UnexpectedToken),
        }
    }
}

} // verus!

verus! {

/// Parsing the first object of a byte buffer.
pub open spec fn parse_bytes_spec(b: Seq<u8>) -> Result<ObjModel, ErrModel> {
    let l = lex(b, 0);
    match l.0 {
        Err(e) => Err(e),
        Ok(t) => parse_obj(b, PState { pos: l.1, cur: t }).0,
    }
}

/// Parses the first object of a byte buffer.
pub fn parse_object_bytes(b: &[u8]) -> (res: Result<PdfObject, PdfError>)
    ensures
        match parse_bytes_spec(b@) {
            Ok(o) => res matches Ok(x) && x@ == o,
            Err(e) => res matches Err(x) && x@ == e,
        },
{
    let lexer = Lexer::new(b);
    let mut parser = Parser::new(lexer)?;
    parser.parse_object()
}

} // verus!
