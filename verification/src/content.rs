use vstd::prelude::*;
use crate::error::{ErrModel, PdfError};
use crate::lexer::{lemma_lex_progress, lex, Lexer, PdfToken, TokenModel};
use crate::numbers::{parse_decimal, parse_decimal_spec, parse_i32, parse_i32_spec};
use crate::object::{lemma_objects_model_push, objects_model, str_equal, ObjModel, PdfObject};
use crate::text::ascii_bytes;
use crate::catalog::{load_object, load_spec, pages_spec, DocumentCatalog};
use crate::document::PdfDocument;
use crate::filter::{decode_spec, decode_stream};
use crate::object::{dict_get, lemma_objects_model, ObjectId};

verus! {

/// A graphics operator of a content stream, with the operands written before it.
#[derive(Debug, PartialEq)]
pub struct ContentOperation {
    pub operator: String,
    pub operands: Vec<PdfObject>,
}

/// The mathematical value of a content operation.
#[verifier::ext_equal]
pub struct OpModel {
    pub operator: Seq<char>,
    pub operands: Seq<ObjModel>,
}

impl View for ContentOperation {
    type V = OpModel;

    open spec fn view(&self) -> OpModel {
        OpModel { operator: self.operator@, operands: objects_model(self.operands@) }
    }
}

pub open spec fn ops_model(s: Seq<ContentOperation>) -> Seq<OpModel> {
    s.map_values(|o: ContentOperation| o@)
}

pub proof fn lemma_ops_model_push(s: Seq<ContentOperation>, o: ContentOperation)
    ensures
        ops_model(s.push(o)) == ops_model(s).push(o@),
{
    assert(ops_model(s.push(o)) =~= ops_model(s).push(o@));
}

/// The operand a number token stands for: an integer when the text reads as
/// an `i32`, else a real when it reads as a decimal; other text gives none.
pub open spec fn number_operand(s: Seq<char>) -> Option<ObjModel> {
    match parse_i32_spec(s) {
        Some(v) => Some(ObjModel::Integer(v as i32)),
        None => match parse_decimal_spec(s) {
            Some(r) => Some(ObjModel::Real(r)),
            None => None,
        },
    }
}

pub open spec fn push_number(acc: Seq<ObjModel>, s: Seq<char>) -> Seq<ObjModel> {
    match number_operand(s) {
        Some(o) => acc.push(o),
        None => acc,
    }
}

pub open spec fn nested_array_message() -> Seq<char> {
    "Complex nested objects in content stream array not fully supported yet"@
}

pub open spec fn inline_image_message() -> Seq<char> {
    "Inline Image Dictionaries (EI) not yet supported"@
}

/// Reading the items of an array operand from `pos` (just after its `[`) up to
/// its `]` or the end of the data; returns the items and the position after them.
pub open spec fn array_scan(data: Seq<u8>, pos: int, acc: Seq<ObjModel>) -> (
    Result<Seq<ObjModel>, ErrModel>,
    int,
)
    decreases data.len() + 1 - pos,
{
    if !(0 <= pos <= data.len()) {
        (Err(ErrModel::UnexpectedEof), pos)
    } else {
        let l = lex(data, pos);
        proof {
            lemma_lex_progress(data, pos);
        }
        match l.0 {
            Err(e) => (Err(e), l.1),
            Ok(None) => (Ok(acc), l.1),
            Ok(Some(t)) => match t {
                TokenModel::ArrayEnd => (Ok(acc), l.1),
                TokenModel::Number(n) => array_scan(data, l.1, push_number(acc, n)),
                TokenModel::StringLiteral(b) => array_scan(data, l.1, acc.push(ObjModel::String(b))),
                TokenModel::HexString(b) => array_scan(data, l.1, acc.push(ObjModel::String(b))),
                TokenModel::Name(n) => array_scan(data, l.1, acc.push(ObjModel::Name(n))),
                _ => (Err(ErrModel::InvalidSyntax(nested_array_message())), l.1),
            },
        }
    }
}

pub proof fn lemma_array_scan(data: Seq<u8>, pos: int, acc: Seq<ObjModel>)
    requires
        0 <= pos <= data.len(),
    ensures
        pos <= array_scan(data, pos, acc).1 <= data.len(),
    decreases data.len() + 1 - pos,
{
    lemma_lex_progress(data, pos);
    let l = lex(data, pos);
    match l.0 {
        Ok(Some(t)) => match t {
            TokenModel::Number(n) => lemma_array_scan(data, l.1, push_number(acc, n)),
            TokenModel::StringLiteral(b) => lemma_array_scan(
                data,
                l.1,
                acc.push(ObjModel::String(b)),
            ),
            TokenModel::HexString(b) => lemma_array_scan(data, l.1, acc.push(ObjModel::String(b))),
            TokenModel::Name(n) => lemma_array_scan(data, l.1, acc.push(ObjModel::Name(n))),
            _ => {},
        },
        _ => {},
    }
}

/// Reading a content stream from `pos`, with the operands gathered so far and
/// the operations read so far. A keyword other than `true`, `false` and `null`
/// closes an operation with the operands before it; operands left at the end
/// belong to no operation.
pub open spec fn content_scan(
    data: Seq<u8>,
    pos: int,
    operands: Seq<ObjModel>,
    ops: Seq<OpModel>,
) -> Result<Seq<OpModel>, ErrModel>
    decreases data.len() + 1 - pos,
{
    if !(0 <= pos <= data.len()) {
        Err(ErrModel::UnexpectedEof)
    } else {
        let l = lex(data, pos);
        proof {
            lemma_lex_progress(data, pos);
        }
        match l.0 {
            Err(e) => Err(e),
            Ok(None) => Ok(ops),
            Ok(Some(t)) => match t {
                TokenModel::Keyword(kw) => if kw == "true"@ {
                    content_scan(data, l.1, operands.push(ObjModel::Boolean(true)), ops)
                } else if kw == "false"@ {
                    content_scan(data, l.1, operands.push(ObjModel::Boolean(false)), ops)
                } else if kw == "null"@ {
                    content_scan(data, l.1, operands.push(ObjModel::Null), ops)
                } else {
                    content_scan(
                        data,
                        l.1,
                        Seq::empty(),
                        ops.push(OpModel { operator: kw, operands }),
                    )
                },
                TokenModel::Number(n) => content_scan(data, l.1, push_number(operands, n), ops),
                TokenModel::StringLiteral(b) => content_scan(
                    data,
                    l.1,
                    operands.push(ObjModel::String(b)),
                    ops,
                ),
                TokenModel::HexString(b) => content_scan(
                    data,
                    l.1,
                    operands.push(ObjModel::String(b)),
                    ops,
                ),
                TokenModel::Name(n) => content_scan(data, l.1, operands.push(ObjModel::Name(n)), ops),
                TokenModel::ArrayStart => {
                    let a = array_scan(data, l.1, Seq::empty());
                    proof {
                        lemma_array_scan(data, l.1, Seq::empty());
                    }
                    match a.0 {
                        Ok(arr) => content_scan(data, a.1, operands.push(ObjModel::Array(arr)), ops),
                        Err(e) => Err(e),
                    }
                },
                TokenModel::DictStart => Err(ErrModel::InvalidSyntax(inline_image_message())),
                _ => Err(ErrModel::UnexpectedToken),
            },
        }
    }
}

/// The operations of a content stream.
pub open spec fn content_spec(data: Seq<u8>) -> Result<Seq<OpModel>, ErrModel> {
    content_scan(data, 0, Seq::empty(), Seq::empty())
}

/// The tokens of `n` successive reads from `pos`, and the position after them;
/// `None` when a read fails or finds the end first.
pub open spec fn tokens_from(data: Seq<u8>, pos: int, n: nat) -> Option<(Seq<TokenModel>, int)>
    decreases n,
{
    if n == 0 {
        Some((Seq::empty(), pos))
    } else {
        match lex(data, pos).0 {
            Ok(Some(t)) => match tokens_from(data, lex(data, pos).1, (n - 1) as nat) {
                Some((ts, q)) => Some((seq![t] + ts, q)),
                None => None,
            },
            _ => None,
        }
    }
}

/// The operand a single token stands for: a string (literal or hex) its bytes,
/// a name itself, a number its value, and `true`, `false` and `null` the
/// boolean or null object.
pub open spec fn token_operand(t: TokenModel) -> Option<ObjModel> {
    match t {
        TokenModel::StringLiteral(b) => Some(ObjModel::String(b)),
        TokenModel::HexString(b) => Some(ObjModel::String(b)),
        TokenModel::Name(n) => Some(ObjModel::Name(n)),
        TokenModel::Number(n) => number_operand(n),
        TokenModel::Keyword(kw) => if kw == "true"@ {
            Some(ObjModel::Boolean(true))
        } else if kw == "false"@ {
            Some(ObjModel::Boolean(false))
        } else if kw == "null"@ {
            Some(ObjModel::Null)
        } else {
            None
        },
        _ => None,
    }
}

pub open spec fn token_operands(ts: Seq<TokenModel>) -> Seq<ObjModel> {
    ts.map_values(|t: TokenModel| token_operand(t)->Some_0)
}

proof fn lemma_operand_run(
    data: Seq<u8>,
    pos: int,
    n: nat,
    operands: Seq<ObjModel>,
    ops: Seq<OpModel>,
    ts: Seq<TokenModel>,
    q: int,
)
    requires
        0 <= pos <= data.len(),
        tokens_from(data, pos, n) == Some((ts, q)),
        forall|i: int| 0 <= i < ts.len() ==> #[trigger] token_operand(ts[i]) is Some,
    ensures
        pos <= q <= data.len(),
        content_scan(data, pos, operands, ops) == content_scan(
            data,
            q,
            operands + token_operands(ts),
            ops,
        ),
    decreases n,
{
    if n == 0 {
        assert(operands + token_operands(ts) =~= operands);
    } else {
        lemma_lex_progress(data, pos);
        let t = lex(data, pos).0->Ok_0->Some_0;
        let p1 = lex(data, pos).1;
        let rest = tokens_from(data, p1, (n - 1) as nat)->0;
        let ts1 = rest.0;
        assert(tokens_from(data, p1, (n - 1) as nat) == Some((ts1, q)));
        assert(ts == seq![t] + ts1);
        assert(token_operand(ts[0]) is Some);
        assert forall|i: int| 0 <= i < ts1.len() implies #[trigger] token_operand(ts1[i]) is Some by {
            assert(ts1[i] == ts[i + 1]);
        }
        lemma_operand_run(data, p1, (n - 1) as nat, operands.push(token_operand(t)->Some_0), ops, ts1, q);
        assert(content_scan(data, pos, operands, ops) == content_scan(
            data,
            p1,
            operands.push(token_operand(t)->Some_0),
            ops,
        ));
        assert(operands.push(token_operand(t)->Some_0) + token_operands(ts1) =~= operands + token_operands(
            ts,
        ));
    }
}

/// The operands of an operation are the operand tokens read since the previous
/// operator, in order, none dropped: after single-token operands (strings,
/// literal or hex, names, numbers, booleans, null), an operator keyword closes
/// an operation whose operands are the operands pending before them followed
/// by one operand for each of these tokens.
pub proof fn law_token_operands_kept(
    data: Seq<u8>,
    pos: int,
    n: nat,
    operands: Seq<ObjModel>,
    ops: Seq<OpModel>,
    ts: Seq<TokenModel>,
    q: int,
    kw: Seq<char>,
    r: int,
)
    requires
        0 <= pos <= data.len(),
        tokens_from(data, pos, n) == Some((ts, q)),
        forall|i: int| 0 <= i < ts.len() ==> #[trigger] token_operand(ts[i]) is Some,
        lex(data, q) == (Ok::<Option<TokenModel>, ErrModel>(Some(TokenModel::Keyword(kw))), r),
        kw != "true"@,
        kw != "false"@,
        kw != "null"@,
    ensures
        content_scan(data, pos, operands, ops) == content_scan(
            data,
            r,
            Seq::empty(),
            ops.push(OpModel { operator: kw, operands: operands + token_operands(ts) }),
        ),
{
    lemma_operand_run(data, pos, n, operands, ops, ts, q);
}

/// A content stream that begins with single-token operands and an operator
/// keyword has as its first operation that operator with one operand for each
/// of these tokens, in order.
pub proof fn law_first_operation_operands(
    data: Seq<u8>,
    n: nat,
    ts: Seq<TokenModel>,
    q: int,
    kw: Seq<char>,
    r: int,
)
    requires
        tokens_from(data, 0, n) == Some((ts, q)),
        forall|i: int| 0 <= i < ts.len() ==> #[trigger] token_operand(ts[i]) is Some,
        lex(data, q) == (Ok::<Option<TokenModel>, ErrModel>(Some(TokenModel::Keyword(kw))), r),
        kw != "true"@,
        kw != "false"@,
        kw != "null"@,
    ensures
        content_spec(data) == content_scan(
            data,
            r,
            Seq::empty(),
            seq![OpModel { operator: kw, operands: token_operands(ts) }],
        ),
{
    law_token_operands_kept(data, 0, n, Seq::empty(), Seq::empty(), ts, q, kw, r);
    assert(Seq::<ObjModel>::empty() + token_operands(ts) =~= token_operands(ts));
    assert(Seq::<OpModel>::empty().push(OpModel { operator: kw, operands: token_operands(ts) }) =~= seq![
        OpModel { operator: kw, operands: token_operands(ts) },
    ]);
}

/// The operand of a number token, if its text reads as a number.
fn number_object(s: &String) -> (res: Option<PdfObject>)
    requires
        crate::lexer::is_number_text(s@),
    ensures
        match number_operand(s@) {
            Some(o) => res matches Some(x) && x@ == o,
            None => res is None,
        },
{
    let digits = ascii_bytes(s.as_str());
    match parse_i32(digits) {
        Some(v) => {
            return Some(PdfObject::Integer(v));
        },
        None => {},
    }
    match parse_decimal(digits) {
        Some(r) => Some(PdfObject::Real(r)),
        None => None,
    }
}

fn push_operand(v: &mut Vec<PdfObject>, o: PdfObject)
    ensures
        objects_model(final(v)@) == objects_model(old(v)@).push(o@),
{
    proof {
        lemma_objects_model_push(v@, o);
    }
    v.push(o);
}

/// Reads the items of an array operand after its `[`.
fn scan_array(lexer: &mut Lexer) -> (res: Result<Vec<PdfObject>, PdfError>)
    requires
        old(lexer).wf(),
    ensures
        final(lexer).wf(),
        final(lexer).input() == old(lexer).input(),
        ({
            let a = array_scan(old(lexer).input(), old(lexer).position(), Seq::empty());
            &&& final(lexer).position() == a.1
            &&& match a.0 {
                Ok(arr) => res matches Ok(v) && objects_model(v@) == arr,
                Err(e) => res matches Err(x) && x@ == e,
            }
        }),
{
    let ghost data = lexer.input();
    let ghost start = lexer.position();
    let mut arr: Vec<PdfObject> = Vec::new();
    loop
        invariant
            lexer.wf(),
            lexer.input() == data,
            data == old(lexer).input(),
            start == old(lexer).position(),
            0 <= start <= data.len(),
            array_scan(data, lexer.position(), objects_model(arr@)) == array_scan(
                data,
                start,
                Seq::empty(),
            ),
        decreases data.len() + 1 - lexer.position(),
    {
        let ghost p = lexer.position();
        proof {
            lemma_lex_progress(data, p);
        }
        let tok = lexer.next_token()?;
        match tok {
            None => {
                return Ok(arr);
            },
            Some(t) => match t {
                PdfToken::ArrayEnd => {
                    return Ok(arr);
                },
                PdfToken::Number(n) => {
                    match number_object(&n) {
                        Some(o) => push_operand(&mut arr, o),
                        None => {},
                    }
                },
                PdfToken::StringLiteral(b) => push_operand(&mut arr, PdfObject::String(b)),
                PdfToken::HexString(b) => push_operand(&mut arr, PdfObject::String(b)),
                PdfToken::Name(n) => push_operand(&mut arr, PdfObject::Name(n)),
                _ => {
                    return Err(
                        PdfError::InvalidSyntax(
                            String::from_str(
                                "Complex nested objects in content stream array not fully supported yet",
                            ),
                        ),
                    );
                },
            },
        }
    }
}

/// Parses a content stream into its graphics operations.
pub fn parse_content_stream(data: &[u8]) -> (res: Result<Vec<ContentOperation>, PdfError>)
    ensures
        match content_spec(data@) {
            Ok(ops) => res matches Ok(v) && ops_model(v@) == ops,
            Err(e) => res matches Err(x) && x@ == e,
        },
{
    let mut lexer = Lexer::new(data);
    let mut operations: Vec<ContentOperation> = Vec::new();
    let mut current: Vec<PdfObject> = Vec::new();
    assert(objects_model(current@) =~= Seq::<ObjModel>::empty());
    assert(ops_model(operations@) =~= Seq::<OpModel>::empty());
    loop
        invariant
            lexer.wf(),
            lexer.input() == data@,
            content_scan(data@, lexer.position(), objects_model(current@), ops_model(operations@))
                == content_spec(data@),
        decreases data@.len() + 1 - lexer.position(),
    {
        let ghost p = lexer.position();
        proof {
            lemma_lex_progress(data@, p);
        }
        let tok = lexer.next_token()?;
        match tok {
            None => {
                return Ok(operations);
            },
            Some(t) => match t {
                PdfToken::Keyword(kw) => {
                    if str_equal(kw.as_str(), "true") {
                        push_operand(&mut current, PdfObject::Boolean(true));
                    } else if str_equal(kw.as_str(), "false") {
                        push_operand(&mut current, PdfObject::Boolean(false));
                    } else if str_equal(kw.as_str(), "null") {
                        push_operand(&mut current, PdfObject::Null);
                    } else {
                        let operands = current;
                        current = Vec::new();
                        assert(objects_model(current@) =~= Seq::<ObjModel>::empty());
                        let op = ContentOperation { operator: kw, operands };
                        proof {
                            lemma_ops_model_push(operations@, op);
                        }
                        operations.push(op);
                    }
                },
                PdfToken::Number(n) => {
                    match number_object(&n) {
                        Some(o) => push_operand(&mut current, o),
                        None => {},
                    }
                },
                PdfToken::StringLiteral(b) => push_operand(&mut current, PdfObject::String(b)),
                PdfToken::HexString(b) => push_operand(&mut current, PdfObject::String(b)),
                PdfToken::Name(n) => push_operand(&mut current, PdfObject::Name(n)),
                PdfToken::ArrayStart => {
                    proof {
                        lemma_array_scan(data@, lexer.position(), Seq::empty());
                    }
                    let arr = scan_array(&mut lexer)?;
                    push_operand(&mut current, PdfObject::Array(arr));
                },
                PdfToken::DictStart => {
                    return Err(
                        PdfError::InvalidSyntax(
                            String::from_str("Inline Image Dictionaries (EI) not yet supported"),
                        ),
                    );
                },
                _ => {
                    return Err(PdfError::UnexpectedToken);
                },
            },
        }
    }
}

/// The objects that a page's `/Contents` entry names: one reference, or an
/// array made of references only.
pub open spec fn content_refs(c: ObjModel) -> Result<Seq<ObjectId>, ErrModel> {
    match c {
        ObjModel::Reference(id) => Ok(seq![id]),
        ObjModel::Array(a) => if forall|i: int| 0 <= i < a.len() ==> #[trigger] a[i] is Reference {
            Ok(
                Seq::new(
                    a.len(),
                    |i: int|
                        match a[i] {
                            ObjModel::Reference(id) => id,
                            _ => ObjectId { object_number: 0, generation_number: 0 },
                        },
                ),
            )
        } else {
            Err(ErrModel::InvalidPageContents)
        },
        _ => Err(ErrModel::InvalidPageContents),
    }
}

/// The decoded data of the content streams `ids[i..]`, each followed by a
/// newline, appended to `acc`.
pub open spec fn streams_data(doc: PdfDocument, ids: Seq<ObjectId>, i: int, acc: Seq<u8>) -> Result<
    Seq<u8>,
    ErrModel,
>
    decreases ids.len() - i,
{
    if i < 0 || i >= ids.len() {
        Ok(acc)
    } else {
        match load_spec(doc, ids[i]) {
            Err(e) => Err(e),
            Ok(ObjModel::Stream(d, data)) => match decode_spec(d, data) {
                Err(e) => Err(e),
                Ok(bytes) => streams_data(doc, ids, i + 1, acc + bytes.push(10u8)),
            },
            Ok(_) => Err(ErrModel::InvalidPageContents),
        }
    }
}

/// The operations of a page: its `/Contents` streams decoded, joined by
/// newlines and read as one content stream.
pub open spec fn page_contents_spec(doc: PdfDocument, page_id: ObjectId) -> Result<
    Seq<OpModel>,
    ErrModel,
> {
    match load_spec(doc, page_id) {
        Err(e) => Err(e),
        Ok(ObjModel::Dictionary(d)) => match dict_get(d, "Contents"@) {
            None => Err(ErrModel::MissingPageContents),
            Some(c) => match content_refs(c) {
                Err(e) => Err(e),
                Ok(ids) => match streams_data(doc, ids, 0, Seq::empty()) {
                    Err(e) => Err(e),
                    Ok(bytes) => content_spec(bytes),
                },
            },
        },
        Ok(_) => Err(ErrModel::InvalidPageTree),
    }
}

/// The object ids that a `/Contents` value names.
fn collect_content_refs(c: &PdfObject) -> (res: Result<Vec<ObjectId>, PdfError>)
    ensures
        match content_refs(c@) {
            Ok(ids) => res matches Ok(v) && v@ == ids,
            Err(e) => res matches Err(x) && x@ == e,
        },
{
    let mut ids: Vec<ObjectId> = Vec::new();
    match c {
        PdfObject::Reference(id) => {
            ids.push(*id);
            assert(ids@ =~= seq![*id]);
            Ok(ids)
        },
        PdfObject::Array(arr) => {
            let ghost a = objects_model(arr@);
            proof {
                lemma_objects_model(arr@);
            }
            assert(c@ == ObjModel::Array(a));
            let mut i: usize = 0;
            while i < arr.len()
                invariant
                    0 <= i <= arr.len(),
                    a == objects_model(arr@),
                    c@ == ObjModel::Array(a),
                    a.len() == arr@.len(),
                    forall|j: int| 0 <= j < arr@.len() ==> #[trigger] a[j] == arr@[j]@,
                    ids@.len() == i,
                    forall|j: int| 0 <= j < i ==> #[trigger] a[j] is Reference,
                    forall|j: int|
                        0 <= j < i ==> (#[trigger] a[j] matches ObjModel::Reference(r) && ids@[j]
                            == r),
                decreases arr.len() - i,
            {
                match &arr[i] {
                    PdfObject::Reference(id) => {
                        ids.push(*id);
                    },
                    _ => {
                        assert(!(a[i as int] is Reference));
                        assert(!(forall|j: int| 0 <= j < a.len() ==> #[trigger] a[j] is Reference));
                        return Err(PdfError::InvalidPageContents);
                    },
                }
                i = i + 1;
            }
            proof {
                let want = Seq::new(
                    a.len(),
                    |k: int|
                        match a[k] {
                            ObjModel::Reference(id) => id,
                            _ => ObjectId { object_number: 0, generation_number: 0 },
                        },
                );
                assert(ids@ =~= want);
            }
            Ok(ids)
        },
        _ => Err(PdfError::InvalidPageContents),
    }
}

/// The decoded data of the given content streams, each followed by a newline.
fn gather_streams(doc: &PdfDocument, stream_ids: &Vec<ObjectId>) -> (res: Result<Vec<u8>, PdfError>)
    ensures
        match streams_data(*doc, stream_ids@, 0, Seq::empty()) {
            Ok(b) => res matches Ok(v) && v@ == b,
            Err(e) => res matches Err(x) && x@ == e,
        },
{
    let ghost ids = stream_ids@;
    let mut full: Vec<u8> = Vec::new();
    let mut i: usize = 0;
    while i < stream_ids.len()
        invariant
            0 <= i <= stream_ids@.len(),
            ids == stream_ids@,
            streams_data(*doc, ids, i as int, full@) == streams_data(*doc, ids, 0, Seq::empty()),
        decreases stream_ids.len() - i,
    {
        let stream_obj = load_object(doc, stream_ids[i])?;
        match stream_obj {
            PdfObject::Stream(s) => {
                let mut decoded = decode_stream(&s)?;
                let ghost before = full@;
                let ghost dec = decoded@;
                full.append(&mut decoded);
                full.push(10u8);
                assert(full@ =~= before + dec.push(10u8));
            },
            _ => {
                return Err(PdfError::InvalidPageContents);
            },
        }
        i = i + 1;
    }
    Ok(full)
}

/// Reads the operations of a page: the streams its `/Contents` names are
/// decoded, joined with a newline after each, and parsed as one content stream.
pub fn parse_page_contents(doc: &PdfDocument, page_id: ObjectId) -> (res: Result<
    Vec<ContentOperation>,
    PdfError,
>)
    ensures
        match page_contents_spec(*doc, page_id) {
            Ok(ops) => res matches Ok(v) && ops_model(v@) == ops,
            Err(e) => res matches Err(x) && x@ == e,
        },
{
    let page_obj = load_object(doc, page_id)?;
    let page_dict = match page_obj {
        PdfObject::Dictionary(d) => d,
        _ => {
            return Err(PdfError::InvalidPageTree);
        },
    };
    let contents_obj = match page_dict.get("Contents") {
        Some(c) => c,
        None => {
            return Err(PdfError::MissingPageContents);
        },
    };
    let stream_ids = collect_content_refs(contents_obj)?;
    let full = gather_streams(doc, &stream_ids)?;
    parse_content_stream(full.as_slice())
}


/// The operations of the page at `page_index` of the page tree (searched at
/// most `max_depth` levels down), or `None` when the pages cannot be listed,
/// there is no such page, or its contents cannot be read.
pub open spec fn page_operations_spec(doc: PdfDocument, page_index: int, max_depth: nat) -> Option<
    Seq<OpModel>,
> {
    match pages_spec(doc, max_depth) {
        Some(Ok(p)) => if 0 <= page_index < p.len() {
            match page_contents_spec(doc, p[page_index]) {
                Ok(ops) => Some(ops),
                Err(_) => None,
            }
        } else {
            None
        },
        _ => None,
    }
}

/// Finds the page at `page_index` and parses its content streams.
pub fn page_operations(doc: &PdfDocument, page_index: usize, max_depth: usize) -> (res: Option<
    Vec<ContentOperation>,
>)
    ensures
        match page_operations_spec(*doc, page_index as int, max_depth as nat) {
            Some(ops) => res matches Some(v) && ops_model(v@) == ops,
            None => res is None,
        },
{
    let pages = match DocumentCatalog::get_pages_within(doc, max_depth) {
        Some(Ok(p)) => p,
        _ => return None,
    };
    if page_index >= pages.len() {
        return None;
    }
    match parse_page_contents(doc, pages[page_index]) {
        Ok(ops) => Some(ops),
        Err(_) => None,
    }
}

} // verus!
