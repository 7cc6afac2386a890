use vstd::prelude::*;
use crate::content::{ContentOperation, OpModel};
use crate::error::{ErrModel, PdfError};
use crate::object::{copy_real, lemma_objects_model, objects_model, str_equal, ObjModel, PdfObject, PdfReal, RealModel};
use crate::text::{lossy_string, lossy_text};

verus! {

/// A number operand of a graphics operator: an integer or an exact decimal.
#[derive(Debug, PartialEq)]
pub enum Number {
    Int(i32),
    Real(PdfReal),
}

pub enum NumModel {
    Int(i32),
    Real(RealModel),
}

impl View for Number {
    type V = NumModel;

    open spec fn view(&self) -> NumModel {
        match self {
            Number::Int(i) => NumModel::Int(*i),
            Number::Real(r) => NumModel::Real(r@),
        }
    }
}

pub open spec fn numbers_view(v: Seq<Number>) -> Seq<NumModel> {
    v.map_values(|n: Number| n@)
}

/// What a graphics-state operator asks of the graphics state, with its operands read.
#[derive(Debug, PartialEq)]
pub enum GraphicsCommand {
    /// `q`
    Save,
    /// `Q`
    Restore,
    /// `cm`: the six numbers of a matrix to concatenate to the CTM
    Concat(Vec<Number>),
    /// `rg`: red, green, blue
    FillRgb(Vec<Number>),
    /// `RG`
    StrokeRgb(Vec<Number>),
    /// `k`: cyan, magenta, yellow, black
    FillCmyk(Vec<Number>),
    /// `K`
    StrokeCmyk(Vec<Number>),
    /// `g`
    FillGray(Number),
    /// `G`
    StrokeGray(Number),
    /// `w`
    LineWidth(Number),
    /// `Tc`
    CharSpacing(Number),
    /// `Tw`
    WordSpacing(Number),
    /// `Tz`
    HorizontalScaling(Number),
    /// `TL`
    Leading(Number),
    /// `Tf`: font name and size
    Font(String, Number),
    /// `Tr`
    RenderMode(Number),
    /// `Ts`
    Rise(Number),
    /// `BT`
    BeginText,
    /// `ET`
    EndText,
    /// `Tm`: the six numbers of the text matrix
    TextMatrix(Vec<Number>),
    /// `Td`
    MoveText(Number, Number),
    /// `TD`, which also sets the leading
    MoveTextSetLeading(Number, Number),
    /// `T*`
    NextLine,
    /// `Do`: the name of the XObject
    InvokeXObject(String),
    /// Any other operator, which leaves the state alone
    Other,
}

pub enum CommandModel {
    Save,
    Restore,
    Concat(Seq<NumModel>),
    FillRgb(Seq<NumModel>),
    StrokeRgb(Seq<NumModel>),
    FillCmyk(Seq<NumModel>),
    StrokeCmyk(Seq<NumModel>),
    FillGray(NumModel),
    StrokeGray(NumModel),
    LineWidth(NumModel),
    CharSpacing(NumModel),
    WordSpacing(NumModel),
    HorizontalScaling(NumModel),
    Leading(NumModel),
    Font(Seq<char>, NumModel),
    RenderMode(NumModel),
    Rise(NumModel),
    BeginText,
    EndText,
    TextMatrix(Seq<NumModel>),
    MoveText(NumModel, NumModel),
    MoveTextSetLeading(NumModel, NumModel),
    NextLine,
    InvokeXObject(Seq<char>),
    Other,
}

impl View for GraphicsCommand {
    type V = CommandModel;

    open spec fn view(&self) -> CommandModel {
        match self {
            GraphicsCommand::Save => CommandModel::Save,
            GraphicsCommand::Restore => CommandModel::Restore,
            GraphicsCommand::Concat(v) => CommandModel::Concat(numbers_view(v@)),
            GraphicsCommand::FillRgb(v) => CommandModel::FillRgb(numbers_view(v@)),
            GraphicsCommand::StrokeRgb(v) => CommandModel::StrokeRgb(numbers_view(v@)),
            GraphicsCommand::FillCmyk(v) => CommandModel::FillCmyk(numbers_view(v@)),
            GraphicsCommand::StrokeCmyk(v) => CommandModel::StrokeCmyk(numbers_view(v@)),
            GraphicsCommand::FillGray(n) => CommandModel::FillGray(n@),
            GraphicsCommand::StrokeGray(n) => CommandModel::StrokeGray(n@),
            GraphicsCommand::LineWidth(n) => CommandModel::LineWidth(n@),
            GraphicsCommand::CharSpacing(n) => CommandModel::CharSpacing(n@),
            GraphicsCommand::WordSpacing(n) => CommandModel::WordSpacing(n@),
            GraphicsCommand::HorizontalScaling(n) => CommandModel::HorizontalScaling(n@),
            GraphicsCommand::Leading(n) => CommandModel::Leading(n@),
            GraphicsCommand::Font(s, n) => CommandModel::Font(s@, n@),
            GraphicsCommand::RenderMode(n) => CommandModel::RenderMode(n@),
            GraphicsCommand::Rise(n) => CommandModel::Rise(n@),
            GraphicsCommand::BeginText => CommandModel::BeginText,
            GraphicsCommand::EndText => CommandModel::EndText,
            GraphicsCommand::TextMatrix(v) => CommandModel::TextMatrix(numbers_view(v@)),
            GraphicsCommand::MoveText(a, b) => CommandModel::MoveText(a@, b@),
            GraphicsCommand::MoveTextSetLeading(a, b) => CommandModel::MoveTextSetLeading(a@, b@),
            GraphicsCommand::NextLine => CommandModel::NextLine,
            GraphicsCommand::InvokeXObject(s) => CommandModel::InvokeXObject(s@),
            GraphicsCommand::Other => CommandModel::Other,
        }
    }
}

pub open spec fn graphic_error(msg: Seq<char>) -> ErrModel {
    ErrModel::InvalidGraphicOperator(msg)
}

/// The number operand at `i`.
pub open spec fn number_at(ops: Seq<ObjModel>, i: int) -> Result<NumModel, ErrModel> {
    if 0 <= i < ops.len() {
        match ops[i] {
            ObjModel::Real(r) => Ok(NumModel::Real(r)),
            ObjModel::Integer(v) => Ok(NumModel::Int(v)),
            _ => Err(graphic_error("Expected Number"@)),
        }
    } else {
        Err(graphic_error("Missing Operand"@))
    }
}

/// The first `n` number operands, read in order; the first failure is the error.
pub open spec fn numbers_at(ops: Seq<ObjModel>, n: nat) -> Result<Seq<NumModel>, ErrModel>
    decreases n,
{
    if n == 0 {
        Ok(Seq::empty())
    } else {
        match numbers_at(ops, (n - 1) as nat) {
            Err(e) => Err(e),
            Ok(s) => match number_at(ops, n - 1) {
                Err(e) => Err(e),
                Ok(x) => Ok(s.push(x)),
            },
        }
    }
}

/// The name operand at `i`.
pub open spec fn name_at(ops: Seq<ObjModel>, i: int) -> Result<Seq<char>, ErrModel> {
    if 0 <= i < ops.len() && ops[i] is Name {
        match ops[i] {
            ObjModel::Name(n) => Ok(n),
            _ => Err(graphic_error("Expected Name"@)),
        }
    } else {
        Err(graphic_error("Expected Name"@))
    }
}

/// The six operands of a matrix operator.
pub open spec fn matrix_at(ops: Seq<ObjModel>) -> Result<Seq<NumModel>, ErrModel> {
    if ops.len() != 6 {
        Err(graphic_error("Matrix requires 6 operands"@))
    } else {
        numbers_at(ops, 6)
    }
}

pub open spec fn one(ops: Seq<ObjModel>, f: spec_fn(NumModel) -> CommandModel) -> Result<
    CommandModel,
    ErrModel,
> {
    match number_at(ops, 0) {
        Ok(x) => Ok(f(x)),
        Err(e) => Err(e),
    }
}

pub open spec fn several(ops: Seq<ObjModel>, n: nat, f: spec_fn(Seq<NumModel>) -> CommandModel) -> Result<
    CommandModel,
    ErrModel,
> {
    match numbers_at(ops, n) {
        Ok(x) => Ok(f(x)),
        Err(e) => Err(e),
    }
}

/// What a content operation asks of the graphics state.
pub open spec fn graphics_command_spec(op: OpModel) -> Result<CommandModel, ErrModel> {
    let o = op.operator;
    let ops = op.operands;
    if o == "q"@ {
        Ok(CommandModel::Save)
    } else if o == "Q"@ {
        Ok(CommandModel::Restore)
    } else if o == "cm"@ {
        match matrix_at(ops) {
            Ok(m) => Ok(CommandModel::Concat(m)),
            Err(e) => Err(e),
        }
    } else if o == "rg"@ {
        several(ops, 3, |x: Seq<NumModel>| CommandModel::FillRgb(x))
    } else if o == "RG"@ {
        several(ops, 3, |x: Seq<NumModel>| CommandModel::StrokeRgb(x))
    } else if o == "k"@ {
        several(ops, 4, |x: Seq<NumModel>| CommandModel::FillCmyk(x))
    } else if o == "K"@ {
        several(ops, 4, |x: Seq<NumModel>| CommandModel::StrokeCmyk(x))
    } else if o == "g"@ {
        one(ops, |x: NumModel| CommandModel::FillGray(x))
    } else if o == "G"@ {
        one(ops, |x: NumModel| CommandModel::StrokeGray(x))
    } else if o == "w"@ {
        one(ops, |x: NumModel| CommandModel::LineWidth(x))
    } else if o == "Tc"@ {
        one(ops, |x: NumModel| CommandModel::CharSpacing(x))
    } else if o == "Tw"@ {
        one(ops, |x: NumModel| CommandModel::WordSpacing(x))
    } else if o == "Tz"@ {
        one(ops, |x: NumModel| CommandModel::HorizontalScaling(x))
    } else if o == "TL"@ {
        one(ops, |x: NumModel| CommandModel::Leading(x))
    } else if o == "Tf"@ {
        match name_at(ops, 0) {
            Err(e) => Err(e),
            Ok(n) => match number_at(ops, 1) {
                Err(e) => Err(e),
                Ok(size) => Ok(CommandModel::Font(n, size)),
            },
        }
    } else if o == "Tr"@ {
        one(ops, |x: NumModel| CommandModel::RenderMode(x))
    } else if o == "Ts"@ {
        one(ops, |x: NumModel| CommandModel::Rise(x))
    } else if o == "BT"@ {
        Ok(CommandModel::BeginText)
    } else if o == "ET"@ {
        Ok(CommandModel::EndText)
    } else if o == "Tm"@ {
        match matrix_at(ops) {
            Ok(m) => Ok(CommandModel::TextMatrix(m)),
            Err(e) => Err(e),
        }
    } else if o == "Td"@ {
        match number_at(ops, 0) {
            Err(e) => Err(e),
            Ok(tx) => match number_at(ops, 1) {
                Err(e) => Err(e),
                Ok(ty) => Ok(CommandModel::MoveText(tx, ty)),
            },
        }
    } else if o == "TD"@ {
        match number_at(ops, 0) {
            Err(e) => Err(e),
            Ok(tx) => match number_at(ops, 1) {
                Err(e) => Err(e),
                Ok(ty) => Ok(CommandModel::MoveTextSetLeading(tx, ty)),
            },
        }
    } else if o == "T*"@ {
        Ok(CommandModel::NextLine)
    } else if o == "Do"@ {
        match name_at(ops, 0) {
            Ok(n) => Ok(CommandModel::InvokeXObject(n)),
            Err(e) => Err(e),
        }
    } else {
        Ok(CommandModel::Other)
    }
}

/// Reads the number operand at `i`.
fn number_operand(ops: &Vec<PdfObject>, i: usize) -> (res: Result<Number, PdfError>)
    ensures
        match number_at(objects_model(ops@), i as int) {
            Ok(x) => res matches Ok(n) && n@ == x,
            Err(e) => res matches Err(err) && err@ == e,
        },
{
    proof {
        lemma_objects_model(ops@);
    }
    if i < ops.len() {
        match &ops[i] {
            PdfObject::Real(r) => Ok(Number::Real(copy_real(r))),
            PdfObject::Integer(v) => Ok(Number::Int(*v)),
            _ => Err(PdfError::InvalidGraphicOperator(String::from_str("Expected Number"))),
        }
    } else {
        Err(PdfError::InvalidGraphicOperator(String::from_str("Missing Operand")))
    }
}

/// Reads the first `n` number operands in order.
fn number_operands(ops: &Vec<PdfObject>, n: usize) -> (res: Result<Vec<Number>, PdfError>)
    ensures
        match numbers_at(objects_model(ops@), n as nat) {
            Ok(x) => res matches Ok(v) && numbers_view(v@) == x,
            Err(e) => res matches Err(err) && err@ == e,
        },
{
    let mut out: Vec<Number> = Vec::new();
    let mut i: usize = 0;
    assert(numbers_view(out@) =~= Seq::<NumModel>::empty());
    while i < n
        invariant
            i <= n,
            numbers_at(objects_model(ops@), i as nat) == Ok::<Seq<NumModel>, ErrModel>(
                numbers_view(out@),
            ),
        decreases n - i,
    {
        let x = match number_operand(ops, i) {
            Ok(x) => x,
            Err(e) => {
                proof {
                    lemma_numbers_at_err(objects_model(ops@), (i + 1) as nat, n as nat);
                }
                return Err(e);
            },
        };
        let ghost before = out@;
        let ghost xv = x@;
        out.push(x);
        assert(numbers_view(out@) =~= numbers_view(before).push(xv));
        i = i + 1;
    }
    Ok(out)
}

/// Once reading the operands fails, reading more of them fails the same way.
pub proof fn lemma_numbers_at_err(ops: Seq<ObjModel>, m: nat, n: nat)
    requires
        m <= n,
        numbers_at(ops, m) is Err,
    ensures
        numbers_at(ops, n) == numbers_at(ops, m),
    decreases n - m,
{
    if m < n {
        lemma_numbers_at_err(ops, m, (n - 1) as nat);
    }
}

/// Reads the name operand at `i`.
fn name_operand(ops: &Vec<PdfObject>, i: usize) -> (res: Result<String, PdfError>)
    ensures
        match name_at(objects_model(ops@), i as int) {
            Ok(x) => res matches Ok(s) && s@ == x,
            Err(e) => res matches Err(err) && err@ == e,
        },
{
    proof {
        lemma_objects_model(ops@);
    }
    if i < ops.len() {
        match &ops[i] {
            PdfObject::Name(n) => {
                return Ok(n.clone());
            },
            _ => {},
        }
    }
    Err(PdfError::InvalidGraphicOperator(String::from_str("Expected Name")))
}

/// Reads the six operands of a matrix operator.
fn matrix_operands(ops: &Vec<PdfObject>) -> (res: Result<Vec<Number>, PdfError>)
    ensures
        match matrix_at(objects_model(ops@)) {
            Ok(x) => res matches Ok(v) && numbers_view(v@) == x,
            Err(e) => res matches Err(err) && err@ == e,
        },
{
    proof {
        lemma_objects_model(ops@);
    }
    if ops.len() != 6 {
        return Err(PdfError::InvalidGraphicOperator(String::from_str("Matrix requires 6 operands")));
    }
    number_operands(ops, 6)
}

/// Reads what a content operation asks of the graphics state: which state it
/// changes and the operands it changes it with. Operators that do not concern
/// the graphics state give `Other`.
pub fn graphics_command(op: &ContentOperation) -> (res: Result<GraphicsCommand, PdfError>)
    ensures
        match graphics_command_spec(op@) {
            Ok(c) => res matches Ok(x) && x@ == c,
            Err(e) => res matches Err(err) && err@ == e,
        },
{
    let o = op.operator.as_str();
    let ops = &op.operands;
    if str_equal(o, "q") {
        Ok(GraphicsCommand::Save)
    } else if str_equal(o, "Q") {
        Ok(GraphicsCommand::Restore)
    } else if str_equal(o, "cm") {
        Ok(GraphicsCommand::Concat(matrix_operands(ops)?))
    } else if str_equal(o, "rg") {
        Ok(GraphicsCommand::FillRgb(number_operands(ops, 3)?))
    } else if str_equal(o, "RG") {
        Ok(GraphicsCommand::StrokeRgb(number_operands(ops, 3)?))
    } else if str_equal(o, "k") {
        Ok(GraphicsCommand::FillCmyk(number_operands(ops, 4)?))
    } else if str_equal(o, "K") {
        Ok(GraphicsCommand::StrokeCmyk(number_operands(ops, 4)?))
    } else if str_equal(o, "g") {
        Ok(GraphicsCommand::FillGray(number_operand(ops, 0)?))
    } else if str_equal(o, "G") {
        Ok(GraphicsCommand::StrokeGray(number_operand(ops, 0)?))
    } else if str_equal(o, "w") {
        Ok(GraphicsCommand::LineWidth(number_operand(ops, 0)?))
    } else if str_equal(o, "Tc") {
        Ok(GraphicsCommand::CharSpacing(number_operand(ops, 0)?))
    } else if str_equal(o, "Tw") {
        Ok(GraphicsCommand::WordSpacing(number_operand(ops, 0)?))
    } else if str_equal(o, "Tz") {
        Ok(GraphicsCommand::HorizontalScaling(number_operand(ops, 0)?))
    } else if str_equal(o, "TL") {
        Ok(GraphicsCommand::Leading(number_operand(ops, 0)?))
    } else if str_equal(o, "Tf") {
        let name = name_operand(ops, 0)?;
        let size = number_operand(ops, 1)?;
        Ok(GraphicsCommand::Font(name, size))
    } else if str_equal(o, "Tr") {
        Ok(GraphicsCommand::RenderMode(number_operand(ops, 0)?))
    } else if str_equal(o, "Ts") {
        Ok(GraphicsCommand::Rise(number_operand(ops, 0)?))
    } else if str_equal(o, "BT") {
        Ok(GraphicsCommand::BeginText)
    } else if str_equal(o, "ET") {
        Ok(GraphicsCommand::EndText)
    } else if str_equal(o, "Tm") {
        Ok(GraphicsCommand::TextMatrix(matrix_operands(ops)?))
    } else if str_equal(o, "Td") {
        let tx = number_operand(ops, 0)?;
        let ty = number_operand(ops, 1)?;
        Ok(GraphicsCommand::MoveText(tx, ty))
    } else if str_equal(o, "TD") {
        let tx = number_operand(ops, 0)?;
        let ty = number_operand(ops, 1)?;
        Ok(GraphicsCommand::MoveTextSetLeading(tx, ty))
    } else if str_equal(o, "T*") {
        Ok(GraphicsCommand::NextLine)
    } else if str_equal(o, "Do") {
        Ok(GraphicsCommand::InvokeXObject(name_operand(ops, 0)?))
    } else {
        Ok(GraphicsCommand::Other)
    }
}

// ---------------------------------------------------------------- text of an operation

/// The text of the string items of an array, each decoded as lossy UTF-8, in order.
pub open spec fn strings_text(items: Seq<ObjModel>) -> Seq<char>
    decreases items.len(),
{
    if items.len() == 0 {
        Seq::empty()
    } else {
        strings_text(items.drop_last()) + match items.last() {
            ObjModel::String(b) => lossy_text(b),
            _ => Seq::empty(),
        }
    }
}

/// The text an operation shows: the string operand of `Tj`, `'` and `"`, or
/// the strings of the array operand of `TJ` (its numbers only adjust spacing).
pub open spec fn operation_text_spec(op: OpModel) -> Option<Seq<char>> {
    let o = op.operator;
    if o == "Tj"@ || o == "'"@ || o == "\""@ {
        if op.operands.len() > 0 {
            match op.operands[0] {
                ObjModel::String(b) => Some(lossy_text(b)),
                _ => None,
            }
        } else {
            None
        }
    } else if o == "TJ"@ {
        if op.operands.len() > 0 {
            match op.operands[0] {
                ObjModel::Array(a) => Some(strings_text(a)),
                _ => None,
            }
        } else {
            None
        }
    } else {
        None
    }
}

/// The text an operation shows, if it is a text-showing operation with a
/// string (or, for `TJ`, an array) as its first operand.
pub fn operation_text(op: &ContentOperation) -> (res: Option<String>)
    ensures
        match operation_text_spec(op@) {
            Some(t) => res matches Some(s) && s@ == t,
            None => res is None,
        },
{
    let o = op.operator.as_str();
    proof {
        lemma_objects_model(op.operands@);
    }
    if str_equal(o, "Tj") || str_equal(o, "'") || str_equal(o, "\"") {
        if op.operands.len() > 0 {
            match &op.operands[0] {
                PdfObject::String(b) => Some(lossy_string(b.as_slice())),
                _ => None,
            }
        } else {
            None
        }
    } else if str_equal(o, "TJ") {
        if op.operands.len() > 0 {
            match &op.operands[0] {
                PdfObject::Array(arr) => {
                    let ghost a = objects_model(arr@);
                    proof {
                        lemma_objects_model(arr@);
                    }
                    let mut text = String::new();
                    let mut i: usize = 0;
                    while i < arr.len()
                        invariant
                            i <= arr@.len(),
                            a == objects_model(arr@),
                            a.len() == arr@.len(),
                            forall|k: int| 0 <= k < arr@.len() ==> #[trigger] a[k] == arr@[k]@,
                            text@ == strings_text(a.subrange(0, i as int)),
                        decreases arr@.len() - i,
                    {
                        match &arr[i] {
                            PdfObject::String(b) => {
                                let piece = lossy_string(b.as_slice());
                                text.append(piece.as_str());
                            },
                            _ => {},
                        }
                        proof {
                            let p = a.subrange(0, i + 1);
                            assert(p.drop_last() =~= a.subrange(0, i as int));
                            assert(p.last() == a[i as int]);
                        }
                        i = i + 1;
                    }
                    assert(a.subrange(0, a.len() as int) =~= a);
                    Some(text)
                },
                _ => None,
            }
        } else {
            None
        }
    } else {
        None
    }
}

// ---------------------------------------------------------------- path operators

/// What a path-construction or path-painting operator asks for.
#[derive(Debug, PartialEq)]
pub enum PathCommand {
    /// `m x y`
    MoveTo(Number, Number),
    /// `l x y`
    LineTo(Number, Number),
    /// `c x1 y1 x2 y2 x3 y3`
    CurveTo(Vec<Number>),
    /// `h`
    Close,
    /// `S` or `s`
    Stroke,
    /// `f` or `F`
    Fill,
    /// Any other operator
    Other,
}

pub enum PathModel {
    MoveTo(NumModel, NumModel),
    LineTo(NumModel, NumModel),
    CurveTo(Seq<NumModel>),
    Close,
    Stroke,
    Fill,
    Other,
}

impl View for PathCommand {
    type V = PathModel;

    open spec fn view(&self) -> PathModel {
        match self {
            PathCommand::MoveTo(a, b) => PathModel::MoveTo(a@, b@),
            PathCommand::LineTo(a, b) => PathModel::LineTo(a@, b@),
            PathCommand::CurveTo(v) => PathModel::CurveTo(numbers_view(v@)),
            PathCommand::Close => PathModel::Close,
            PathCommand::Stroke => PathModel::Stroke,
            PathCommand::Fill => PathModel::Fill,
            PathCommand::Other => PathModel::Other,
        }
    }
}

pub open spec fn path_command_spec(op: OpModel) -> Result<PathModel, ErrModel> {
    let o = op.operator;
    let ops = op.operands;
    if o == "m"@ {
        match number_at(ops, 0) {
            Err(e) => Err(e),
            Ok(x) => match number_at(ops, 1) {
                Err(e) => Err(e),
                Ok(y) => Ok(PathModel::MoveTo(x, y)),
            },
        }
    } else if o == "l"@ {
        match number_at(ops, 0) {
            Err(e) => Err(e),
            Ok(x) => match number_at(ops, 1) {
                Err(e) => Err(e),
                Ok(y) => Ok(PathModel::LineTo(x, y)),
            },
        }
    } else if o == "c"@ {
        match numbers_at(ops, 6) {
            Err(e) => Err(e),
            Ok(v) => Ok(PathModel::CurveTo(v)),
        }
    } else if o == "h"@ {
        Ok(PathModel::Close)
    } else if o == "S"@ || o == "s"@ {
        Ok(PathModel::Stroke)
    } else if o == "f"@ || o == "F"@ {
        Ok(PathModel::Fill)
    } else {
        Ok(PathModel::Other)
    }
}

/// Reads what a path operator asks for, with its number operands.
pub fn path_command(op: &ContentOperation) -> (res: Result<PathCommand, PdfError>)
    ensures
        match path_command_spec(op@) {
            Ok(c) => res matches Ok(x) && x@ == c,
            Err(e) => res matches Err(err) && err@ == e,
        },
{
    let o = op.operator.as_str();
    let ops = &op.operands;
    if str_equal(o, "m") {
        let x = number_operand(ops, 0)?;
        let y = number_operand(ops, 1)?;
        Ok(PathCommand::MoveTo(x, y))
    } else if str_equal(o, "l") {
        let x = number_operand(ops, 0)?;
        let y = number_operand(ops, 1)?;
        Ok(PathCommand::LineTo(x, y))
    } else if str_equal(o, "c") {
        Ok(PathCommand::CurveTo(number_operands(ops, 6)?))
    } else if str_equal(o, "h") {
        Ok(PathCommand::Close)
    } else if str_equal(o, "S") || str_equal(o, "s") {
        Ok(PathCommand::Stroke)
    } else if str_equal(o, "f") || str_equal(o, "F") {
        Ok(PathCommand::Fill)
    } else {
        Ok(PathCommand::Other)
    }
}


// ---------------------------------------------------------------- saved states

/// The stack of graphics states saved by `q` (and around an XObject), restored by `Q`.
pub struct StateStack<T> {
    saved: Vec<T>,
}

/// The stack after saving `state` on `saved`.
pub open spec fn pushed<T>(saved: Seq<T>, state: T) -> Seq<T> {
    saved.push(state)
}

/// What restoring from `saved` gives: the last saved state and the stack without it,
/// or nothing (an underflow) when no state is saved.
pub open spec fn popped<T>(saved: Seq<T>) -> (Option<T>, Seq<T>) {
    if saved.len() == 0 {
        (None, saved)
    } else {
        (Some(saved.last()), saved.drop_last())
    }
}

impl<T> View for StateStack<T> {
    type V = Seq<T>;

    closed spec fn view(&self) -> Seq<T> {
        self.saved@
    }
}

impl<T> StateStack<T> {
    /// A stack with no saved state.
    pub fn new() -> (res: Self)
        ensures
            res@ == Seq::<T>::empty(),
    {
        StateStack { saved: Vec::new() }
    }

    /// How many states are saved.
    pub fn depth(&self) -> (res: usize)
        ensures
            res == self@.len(),
    {
        self.saved.len()
    }

    /// Saves `state` on top of the stack.
    pub fn save(&mut self, state: T)
        ensures
            final(self)@ == pushed(old(self)@, state),
    {
        self.saved.push(state);
    }

    /// Takes back the most recently saved state; with none saved, fails with
    /// `GraphicsStackUnderflow` and leaves the stack as it was.
    pub fn restore(&mut self) -> (res: Result<T, PdfError>)
        ensures
            final(self)@ == popped(old(self)@).1,
            match popped(old(self)@).0 {
                Some(s) => res == Ok::<T, PdfError>(s),
                None => res matches Err(e) && e@ == ErrModel::GraphicsStackUnderflow,
            },
    {
        match self.saved.pop() {
            Some(s) => Ok(s),
            None => Err(PdfError::GraphicsStackUnderflow),
        }
    }
}

/// The operand object of a number.
pub open spec fn num_object(n: NumModel) -> ObjModel {
    match n {
        NumModel::Int(v) => ObjModel::Integer(v),
        NumModel::Real(r) => ObjModel::Real(r),
    }
}

pub open spec fn num_objects(x: Seq<NumModel>) -> Seq<ObjModel> {
    x.map_values(|n: NumModel| num_object(n))
}

proof fn lemma_numbers_at(x: Seq<NumModel>, n: nat)
    requires
        n <= x.len(),
    ensures
        numbers_at(num_objects(x), n) == Ok::<Seq<NumModel>, ErrModel>(x.take(n as int)),
    decreases n,
{
    if n == 0 {
        assert(x.take(0) =~= Seq::<NumModel>::empty());
    } else {
        lemma_numbers_at(x, (n - 1) as nat);
        assert(num_objects(x)[n - 1] == num_object(x[n - 1]));
        assert(x.take((n - 1) as int).push(x[n - 1]) =~= x.take(n as int));
    }
}

proof fn lemma_operator_names_differ(a: Seq<char>, b: Seq<char>)
    requires
        a.len() != b.len() || (a.len() > 0 && b.len() > 0 && a[0] != b[0]) || (a.len() > 1 && b.len()
            > 1 && a[1] != b[1]),
    ensures
        a != b,
{
}

/// Each graphics- and text-state operator asks for its own change, with its
/// operands in order: `q`/`Q` save and restore, `cm` and `Tm` take six
/// numbers as a matrix, `w`, `Tc`, `Tw`, `Tz`, `TL`, `Tr` and `Ts` one number,
/// `Td` and `TD` two, `Tf` a font name and size, `Do` an XObject name, and
/// `BT`, `ET` and `T*` nothing.
pub proof fn law_state_operators(ops: Seq<ObjModel>, m: Seq<NumModel>, x: NumModel, y: NumModel, name: Seq<char>)
    ensures
        graphics_command_spec(OpModel { operator: "q"@, operands: ops }) == Ok::<CommandModel, ErrModel>(CommandModel::Save),
        graphics_command_spec(OpModel { operator: "Q"@, operands: ops }) == Ok::<CommandModel, ErrModel>(CommandModel::Restore),
        graphics_command_spec(OpModel { operator: "BT"@, operands: ops }) == Ok::<CommandModel, ErrModel>(CommandModel::BeginText),
        graphics_command_spec(OpModel { operator: "ET"@, operands: ops }) == Ok::<CommandModel, ErrModel>(CommandModel::EndText),
        graphics_command_spec(OpModel { operator: "T*"@, operands: ops }) == Ok::<CommandModel, ErrModel>(CommandModel::NextLine),
        m.len() == 6 ==> graphics_command_spec(OpModel { operator: "cm"@, operands: num_objects(m) }) == Ok::<CommandModel, ErrModel>(CommandModel::Concat(m)),
        m.len() == 6 ==> graphics_command_spec(OpModel { operator: "Tm"@, operands: num_objects(m) }) == Ok::<CommandModel, ErrModel>(CommandModel::TextMatrix(m)),
        graphics_command_spec(OpModel { operator: "w"@, operands: seq![num_object(x)] }) == Ok::<CommandModel, ErrModel>(CommandModel::LineWidth(x)),
        graphics_command_spec(OpModel { operator: "Tc"@, operands: seq![num_object(x)] }) == Ok::<CommandModel, ErrModel>(CommandModel::CharSpacing(x)),
        graphics_command_spec(OpModel { operator: "Tw"@, operands: seq![num_object(x)] }) == Ok::<CommandModel, ErrModel>(CommandModel::WordSpacing(x)),
        graphics_command_spec(OpModel { operator: "Tz"@, operands: seq![num_object(x)] }) == Ok::<CommandModel, ErrModel>(CommandModel::HorizontalScaling(x)),
        graphics_command_spec(OpModel { operator: "TL"@, operands: seq![num_object(x)] }) == Ok::<CommandModel, ErrModel>(CommandModel::Leading(x)),
        graphics_command_spec(OpModel { operator: "Tr"@, operands: seq![num_object(x)] }) == Ok::<CommandModel, ErrModel>(CommandModel::RenderMode(x)),
        graphics_command_spec(OpModel { operator: "Ts"@, operands: seq![num_object(x)] }) == Ok::<CommandModel, ErrModel>(CommandModel::Rise(x)),
        graphics_command_spec(OpModel { operator: "Td"@, operands: seq![num_object(x), num_object(y)] }) == Ok::<CommandModel, ErrModel>(CommandModel::MoveText(x, y)),
        graphics_command_spec(OpModel { operator: "TD"@, operands: seq![num_object(x), num_object(y)] }) == Ok::<CommandModel, ErrModel>(CommandModel::MoveTextSetLeading(x, y)),
        graphics_command_spec(OpModel { operator: "Tf"@, operands: seq![ObjModel::Name(name), num_object(x)] }) == Ok::<CommandModel, ErrModel>(CommandModel::Font(name, x)),
        graphics_command_spec(OpModel { operator: "Do"@, operands: seq![ObjModel::Name(name)] }) == Ok::<CommandModel, ErrModel>(CommandModel::InvokeXObject(name)),
{
    reveal_strlit("q");
    reveal_strlit("Q");
    reveal_strlit("cm");
    reveal_strlit("rg");
    reveal_strlit("RG");
    reveal_strlit("k");
    reveal_strlit("K");
    reveal_strlit("g");
    reveal_strlit("G");
    reveal_strlit("w");
    reveal_strlit("Tc");
    reveal_strlit("Tw");
    reveal_strlit("Tz");
    reveal_strlit("TL");
    reveal_strlit("Tf");
    reveal_strlit("Tr");
    reveal_strlit("Ts");
    reveal_strlit("BT");
    reveal_strlit("ET");
    reveal_strlit("Tm");
    reveal_strlit("Td");
    reveal_strlit("TD");
    reveal_strlit("T*");
    reveal_strlit("Do");
    lemma_operator_names_differ("Q"@, "q"@);
    lemma_operator_names_differ("cm"@, "q"@);
    lemma_operator_names_differ("cm"@, "Q"@);
    lemma_operator_names_differ("w"@, "q"@);
    lemma_operator_names_differ("w"@, "Q"@);
    lemma_operator_names_differ("w"@, "cm"@);
    lemma_operator_names_differ("w"@, "rg"@);
    lemma_operator_names_differ("w"@, "RG"@);
    lemma_operator_names_differ("w"@, "k"@);
    lemma_operator_names_differ("w"@, "K"@);
    lemma_operator_names_differ("w"@, "g"@);
    lemma_operator_names_differ("w"@, "G"@);
    lemma_operator_names_differ("Tc"@, "q"@);
    lemma_operator_names_differ("Tc"@, "Q"@);
    lemma_operator_names_differ("Tc"@, "cm"@);
    lemma_operator_names_differ("Tc"@, "rg"@);
    lemma_operator_names_differ("Tc"@, "RG"@);
    lemma_operator_names_differ("Tc"@, "k"@);
    lemma_operator_names_differ("Tc"@, "K"@);
    lemma_operator_names_differ("Tc"@, "g"@);
    lemma_operator_names_differ("Tc"@, "G"@);
    lemma_operator_names_differ("Tc"@, "w"@);
    lemma_operator_names_differ("Tw"@, "q"@);
    lemma_operator_names_differ("Tw"@, "Q"@);
    lemma_operator_names_differ("Tw"@, "cm"@);
    lemma_operator_names_differ("Tw"@, "rg"@);
    lemma_operator_names_differ("Tw"@, "RG"@);
    lemma_operator_names_differ("Tw"@, "k"@);
    lemma_operator_names_differ("Tw"@, "K"@);
    lemma_operator_names_differ("Tw"@, "g"@);
    lemma_operator_names_differ("Tw"@, "G"@);
    lemma_operator_names_differ("Tw"@, "w"@);
    lemma_operator_names_differ("Tw"@, "Tc"@);
    lemma_operator_names_differ("Tz"@, "q"@);
    lemma_operator_names_differ("Tz"@, "Q"@);
    lemma_operator_names_differ("Tz"@, "cm"@);
    lemma_operator_names_differ("Tz"@, "rg"@);
    lemma_operator_names_differ("Tz"@, "RG"@);
    lemma_operator_names_differ("Tz"@, "k"@);
    lemma_operator_names_differ("Tz"@, "K"@);
    lemma_operator_names_differ("Tz"@, "g"@);
    lemma_operator_names_differ("Tz"@, "G"@);
    lemma_operator_names_differ("Tz"@, "w"@);
    lemma_operator_names_differ("Tz"@, "Tc"@);
    lemma_operator_names_differ("Tz"@, "Tw"@);
    lemma_operator_names_differ("TL"@, "q"@);
    lemma_operator_names_differ("TL"@, "Q"@);
    lemma_operator_names_differ("TL"@, "cm"@);
    lemma_operator_names_differ("TL"@, "rg"@);
    lemma_operator_names_differ("TL"@, "RG"@);
    lemma_operator_names_differ("TL"@, "k"@);
    lemma_operator_names_differ("TL"@, "K"@);
    lemma_operator_names_differ("TL"@, "g"@);
    lemma_operator_names_differ("TL"@, "G"@);
    lemma_operator_names_differ("TL"@, "w"@);
    lemma_operator_names_differ("TL"@, "Tc"@);
    lemma_operator_names_differ("TL"@, "Tw"@);
    lemma_operator_names_differ("TL"@, "Tz"@);
    lemma_operator_names_differ("Tf"@, "q"@);
    lemma_operator_names_differ("Tf"@, "Q"@);
    lemma_operator_names_differ("Tf"@, "cm"@);
    lemma_operator_names_differ("Tf"@, "rg"@);
    lemma_operator_names_differ("Tf"@, "RG"@);
    lemma_operator_names_differ("Tf"@, "k"@);
    lemma_operator_names_differ("Tf"@, "K"@);
    lemma_operator_names_differ("Tf"@, "g"@);
    lemma_operator_names_differ("Tf"@, "G"@);
    lemma_operator_names_differ("Tf"@, "w"@);
    lemma_operator_names_differ("Tf"@, "Tc"@);
    lemma_operator_names_differ("Tf"@, "Tw"@);
    lemma_operator_names_differ("Tf"@, "Tz"@);
    lemma_operator_names_differ("Tf"@, "TL"@);
    lemma_operator_names_differ("Tr"@, "q"@);
    lemma_operator_names_differ("Tr"@, "Q"@);
    lemma_operator_names_differ("Tr"@, "cm"@);
    lemma_operator_names_differ("Tr"@, "rg"@);
    lemma_operator_names_differ("Tr"@, "RG"@);
    lemma_operator_names_differ("Tr"@, "k"@);
    lemma_operator_names_differ("Tr"@, "K"@);
    lemma_operator_names_differ("Tr"@, "g"@);
    lemma_operator_names_differ("Tr"@, "G"@);
    lemma_operator_names_differ("Tr"@, "w"@);
    lemma_operator_names_differ("Tr"@, "Tc"@);
    lemma_operator_names_differ("Tr"@, "Tw"@);
    lemma_operator_names_differ("Tr"@, "Tz"@);
    lemma_operator_names_differ("Tr"@, "TL"@);
    lemma_operator_names_differ("Tr"@, "Tf"@);
    lemma_operator_names_differ("Ts"@, "q"@);
    lemma_operator_names_differ("Ts"@, "Q"@);
    lemma_operator_names_differ("Ts"@, "cm"@);
    lemma_operator_names_differ("Ts"@, "rg"@);
    lemma_operator_names_differ("Ts"@, "RG"@);
    lemma_operator_names_differ("Ts"@, "k"@);
    lemma_operator_names_differ("Ts"@, "K"@);
    lemma_operator_names_differ("Ts"@, "g"@);
    lemma_operator_names_differ("Ts"@, "G"@);
    lemma_operator_names_differ("Ts"@, "w"@);
    lemma_operator_names_differ("Ts"@, "Tc"@);
    lemma_operator_names_differ("Ts"@, "Tw"@);
    lemma_operator_names_differ("Ts"@, "Tz"@);
    lemma_operator_names_differ("Ts"@, "TL"@);
    lemma_operator_names_differ("Ts"@, "Tf"@);
    lemma_operator_names_differ("Ts"@, "Tr"@);
    lemma_operator_names_differ("BT"@, "q"@);
    lemma_operator_names_differ("BT"@, "Q"@);
    lemma_operator_names_differ("BT"@, "cm"@);
    lemma_operator_names_differ("BT"@, "rg"@);
    lemma_operator_names_differ("BT"@, "RG"@);
    lemma_operator_names_differ("BT"@, "k"@);
    lemma_operator_names_differ("BT"@, "K"@);
    lemma_operator_names_differ("BT"@, "g"@);
    lemma_operator_names_differ("BT"@, "G"@);
    lemma_operator_names_differ("BT"@, "w"@);
    lemma_operator_names_differ("BT"@, "Tc"@);
    lemma_operator_names_differ("BT"@, "Tw"@);
    lemma_operator_names_differ("BT"@, "Tz"@);
    lemma_operator_names_differ("BT"@, "TL"@);
    lemma_operator_names_differ("BT"@, "Tf"@);
    lemma_operator_names_differ("BT"@, "Tr"@);
    lemma_operator_names_differ("BT"@, "Ts"@);
    lemma_operator_names_differ("ET"@, "q"@);
    lemma_operator_names_differ("ET"@, "Q"@);
    lemma_operator_names_differ("ET"@, "cm"@);
    lemma_operator_names_differ("ET"@, "rg"@);
    lemma_operator_names_differ("ET"@, "RG"@);
    lemma_operator_names_differ("ET"@, "k"@);
    lemma_operator_names_differ("ET"@, "K"@);
    lemma_operator_names_differ("ET"@, "g"@);
    lemma_operator_names_differ("ET"@, "G"@);
    lemma_operator_names_differ("ET"@, "w"@);
    lemma_operator_names_differ("ET"@, "Tc"@);
    lemma_operator_names_differ("ET"@, "Tw"@);
    lemma_operator_names_differ("ET"@, "Tz"@);
    lemma_operator_names_differ("ET"@, "TL"@);
    lemma_operator_names_differ("ET"@, "Tf"@);
    lemma_operator_names_differ("ET"@, "Tr"@);
    lemma_operator_names_differ("ET"@, "Ts"@);
    lemma_operator_names_differ("ET"@, "BT"@);
    lemma_operator_names_differ("Tm"@, "q"@);
    lemma_operator_names_differ("Tm"@, "Q"@);
    lemma_operator_names_differ("Tm"@, "cm"@);
    lemma_operator_names_differ("Tm"@, "rg"@);
    lemma_operator_names_differ("Tm"@, "RG"@);
    lemma_operator_names_differ("Tm"@, "k"@);
    lemma_operator_names_differ("Tm"@, "K"@);
    lemma_operator_names_differ("Tm"@, "g"@);
    lemma_operator_names_differ("Tm"@, "G"@);
    lemma_operator_names_differ("Tm"@, "w"@);
    lemma_operator_names_differ("Tm"@, "Tc"@);
    lemma_operator_names_differ("Tm"@, "Tw"@);
    lemma_operator_names_differ("Tm"@, "Tz"@);
    lemma_operator_names_differ("Tm"@, "TL"@);
    lemma_operator_names_differ("Tm"@, "Tf"@);
    lemma_operator_names_differ("Tm"@, "Tr"@);
    lemma_operator_names_differ("Tm"@, "Ts"@);
    lemma_operator_names_differ("Tm"@, "BT"@);
    lemma_operator_names_differ("Tm"@, "ET"@);
    lemma_operator_names_differ("Td"@, "q"@);
    lemma_operator_names_differ("Td"@, "Q"@);
    lemma_operator_names_differ("Td"@, "cm"@);
    lemma_operator_names_differ("Td"@, "rg"@);
    lemma_operator_names_differ("Td"@, "RG"@);
    lemma_operator_names_differ("Td"@, "k"@);
    lemma_operator_names_differ("Td"@, "K"@);
    lemma_operator_names_differ("Td"@, "g"@);
    lemma_operator_names_differ("Td"@, "G"@);
    lemma_operator_names_differ("Td"@, "w"@);
    lemma_operator_names_differ("Td"@, "Tc"@);
    lemma_operator_names_differ("Td"@, "Tw"@);
    lemma_operator_names_differ("Td"@, "Tz"@);
    lemma_operator_names_differ("Td"@, "TL"@);
    lemma_operator_names_differ("Td"@, "Tf"@);
    lemma_operator_names_differ("Td"@, "Tr"@);
    lemma_operator_names_differ("Td"@, "Ts"@);
    lemma_operator_names_differ("Td"@, "BT"@);
    lemma_operator_names_differ("Td"@, "ET"@);
    lemma_operator_names_differ("Td"@, "Tm"@);
    lemma_operator_names_differ("TD"@, "q"@);
    lemma_operator_names_differ("TD"@, "Q"@);
    lemma_operator_names_differ("TD"@, "cm"@);
    lemma_operator_names_differ("TD"@, "rg"@);
    lemma_operator_names_differ("TD"@, "RG"@);
    lemma_operator_names_differ("TD"@, "k"@);
    lemma_operator_names_differ("TD"@, "K"@);
    lemma_operator_names_differ("TD"@, "g"@);
    lemma_operator_names_differ("TD"@, "G"@);
    lemma_operator_names_differ("TD"@, "w"@);
    lemma_operator_names_differ("TD"@, "Tc"@);
    lemma_operator_names_differ("TD"@, "Tw"@);
    lemma_operator_names_differ("TD"@, "Tz"@);
    lemma_operator_names_differ("TD"@, "TL"@);
    lemma_operator_names_differ("TD"@, "Tf"@);
    lemma_operator_names_differ("TD"@, "Tr"@);
    lemma_operator_names_differ("TD"@, "Ts"@);
    lemma_operator_names_differ("TD"@, "BT"@);
    lemma_operator_names_differ("TD"@, "ET"@);
    lemma_operator_names_differ("TD"@, "Tm"@);
    lemma_operator_names_differ("TD"@, "Td"@);
    lemma_operator_names_differ("T*"@, "q"@);
    lemma_operator_names_differ("T*"@, "Q"@);
    lemma_operator_names_differ("T*"@, "cm"@);
    lemma_operator_names_differ("T*"@, "rg"@);
    lemma_operator_names_differ("T*"@, "RG"@);
    lemma_operator_names_differ("T*"@, "k"@);
    lemma_operator_names_differ("T*"@, "K"@);
    lemma_operator_names_differ("T*"@, "g"@);
    lemma_operator_names_differ("T*"@, "G"@);
    lemma_operator_names_differ("T*"@, "w"@);
    lemma_operator_names_differ("T*"@, "Tc"@);
    lemma_operator_names_differ("T*"@, "Tw"@);
    lemma_operator_names_differ("T*"@, "Tz"@);
    lemma_operator_names_differ("T*"@, "TL"@);
    lemma_operator_names_differ("T*"@, "Tf"@);
    lemma_operator_names_differ("T*"@, "Tr"@);
    lemma_operator_names_differ("T*"@, "Ts"@);
    lemma_operator_names_differ("T*"@, "BT"@);
    lemma_operator_names_differ("T*"@, "ET"@);
    lemma_operator_names_differ("T*"@, "Tm"@);
    lemma_operator_names_differ("T*"@, "Td"@);
    lemma_operator_names_differ("T*"@, "TD"@);
    lemma_operator_names_differ("Do"@, "q"@);
    lemma_operator_names_differ("Do"@, "Q"@);
    lemma_operator_names_differ("Do"@, "cm"@);
    lemma_operator_names_differ("Do"@, "rg"@);
    lemma_operator_names_differ("Do"@, "RG"@);
    lemma_operator_names_differ("Do"@, "k"@);
    lemma_operator_names_differ("Do"@, "K"@);
    lemma_operator_names_differ("Do"@, "g"@);
    lemma_operator_names_differ("Do"@, "G"@);
    lemma_operator_names_differ("Do"@, "w"@);
    lemma_operator_names_differ("Do"@, "Tc"@);
    lemma_operator_names_differ("Do"@, "Tw"@);
    lemma_operator_names_differ("Do"@, "Tz"@);
    lemma_operator_names_differ("Do"@, "TL"@);
    lemma_operator_names_differ("Do"@, "Tf"@);
    lemma_operator_names_differ("Do"@, "Tr"@);
    lemma_operator_names_differ("Do"@, "Ts"@);
    lemma_operator_names_differ("Do"@, "BT"@);
    lemma_operator_names_differ("Do"@, "ET"@);
    lemma_operator_names_differ("Do"@, "Tm"@);
    lemma_operator_names_differ("Do"@, "Td"@);
    lemma_operator_names_differ("Do"@, "TD"@);
    lemma_operator_names_differ("Do"@, "T*"@);
    if m.len() == 6 {
        lemma_numbers_at(m, 6);
        assert(m.take(6) =~= m);
        assert(num_objects(m).len() == 6);
    }
}

/// The lower-case colour operators set the fill colour and the upper-case
/// ones the stroke colour: `rg`/`RG` with three numbers, `k`/`K` with four and
/// `g`/`G` with one give those numbers, in order, as the fill or stroke colour.
pub proof fn law_colour_operators(x: Seq<NumModel>, y: NumModel)
    ensures
        x.len() == 3 ==> graphics_command_spec(OpModel { operator: "rg"@, operands: num_objects(x) })
            == Ok::<CommandModel, ErrModel>(CommandModel::FillRgb(x)),
        x.len() == 3 ==> graphics_command_spec(OpModel { operator: "RG"@, operands: num_objects(x) })
            == Ok::<CommandModel, ErrModel>(CommandModel::StrokeRgb(x)),
        x.len() == 4 ==> graphics_command_spec(OpModel { operator: "k"@, operands: num_objects(x) })
            == Ok::<CommandModel, ErrModel>(CommandModel::FillCmyk(x)),
        x.len() == 4 ==> graphics_command_spec(OpModel { operator: "K"@, operands: num_objects(x) })
            == Ok::<CommandModel, ErrModel>(CommandModel::StrokeCmyk(x)),
        graphics_command_spec(OpModel { operator: "g"@, operands: seq![num_object(y)] }) == Ok::<
            CommandModel,
            ErrModel,
        >(CommandModel::FillGray(y)),
        graphics_command_spec(OpModel { operator: "G"@, operands: seq![num_object(y)] }) == Ok::<
            CommandModel,
            ErrModel,
        >(CommandModel::StrokeGray(y)),
{
    reveal_strlit("q");
    reveal_strlit("Q");
    reveal_strlit("cm");
    reveal_strlit("rg");
    reveal_strlit("RG");
    reveal_strlit("k");
    reveal_strlit("K");
    reveal_strlit("g");
    reveal_strlit("G");
    assert("rg"@ != "q"@ && "rg"@ != "Q"@ && "rg"@ != "cm"@) by {
        assert("rg"@[0] != "cm"@[0]);
    }
    assert("RG"@ != "q"@ && "RG"@ != "Q"@ && "RG"@ != "cm"@ && "RG"@ != "rg"@) by {
        assert("RG"@[0] != "cm"@[0]);
        assert("RG"@[0] != "rg"@[0]);
    }
    assert("k"@ != "q"@ && "k"@ != "Q"@ && "k"@ != "cm"@ && "k"@ != "rg"@ && "k"@ != "RG"@) by {
        assert("k"@[0] != "q"@[0]);
        assert("k"@[0] != "Q"@[0]);
    }
    assert("K"@ != "q"@ && "K"@ != "Q"@ && "K"@ != "cm"@ && "K"@ != "rg"@ && "K"@ != "RG"@
        && "K"@ != "k"@) by {
        assert("K"@[0] != "q"@[0]);
        assert("K"@[0] != "Q"@[0]);
        assert("K"@[0] != "k"@[0]);
    }
    assert("g"@ != "q"@ && "g"@ != "Q"@ && "g"@ != "cm"@ && "g"@ != "rg"@ && "g"@ != "RG"@
        && "g"@ != "k"@ && "g"@ != "K"@) by {
        assert("g"@[0] != "q"@[0]);
        assert("g"@[0] != "Q"@[0]);
        assert("g"@[0] != "k"@[0]);
        assert("g"@[0] != "K"@[0]);
    }
    assert("G"@ != "q"@ && "G"@ != "Q"@ && "G"@ != "cm"@ && "G"@ != "rg"@ && "G"@ != "RG"@
        && "G"@ != "k"@ && "G"@ != "K"@ && "G"@ != "g"@) by {
        assert("G"@[0] != "q"@[0]);
        assert("G"@[0] != "Q"@[0]);
        assert("G"@[0] != "k"@[0]);
        assert("G"@[0] != "K"@[0]);
        assert("G"@[0] != "g"@[0]);
    }
    if x.len() == 3 {
        lemma_numbers_at(x, 3);
        assert(x.take(3) =~= x);
    }
    if x.len() == 4 {
        lemma_numbers_at(x, 4);
        assert(x.take(4) =~= x);
    }
}

/// Restoring right after saving gives back the state that was saved and the
/// stack as it was before: `q ... Q` leaves the graphics state unchanged.
pub proof fn law_restore_undoes_save<T>(saved: Seq<T>, state: T)
    ensures
        popped(pushed(saved, state)) == (Some(state), saved),
{
    assert(pushed(saved, state).drop_last() =~= saved);
}

/// Restoring with no saved state is an underflow that changes nothing.
pub proof fn law_restore_empty_underflows<T>(saved: Seq<T>)
    requires
        saved.len() == 0,
    ensures
        popped(saved) == (None::<T>, saved),
{
}


/// One use of the saved-state stack: a save of a state (`q`, or the start of
/// an XObject) or a restore (`Q`, or its end).
pub enum StackStep<T> {
    Save(T),
    Restore,
}

/// The stack after the steps, or `None` when a restore finds it empty.
pub open spec fn run_steps<T>(saved: Seq<T>, steps: Seq<StackStep<T>>) -> Option<Seq<T>>
    decreases steps.len(),
{
    if steps.len() == 0 {
        Some(saved)
    } else {
        match run_steps(saved, steps.drop_last()) {
            None => None,
            Some(s) => match steps.last() {
                StackStep::Save(x) => Some(pushed(s, x)),
                StackStep::Restore => if s.len() == 0 {
                    None
                } else {
                    Some(popped(s).1)
                },
            },
        }
    }
}

/// Saves minus restores in the steps.
pub open spec fn step_depth<T>(steps: Seq<StackStep<T>>) -> int
    decreases steps.len(),
{
    if steps.len() == 0 {
        0
    } else {
        step_depth(steps.drop_last()) + match steps.last() {
            StackStep::Save(_) => 1int,
            StackStep::Restore => -1int,
        }
    }
}

/// Steps in which every restore has a save before it that no other restore
/// took, and every save is restored.
pub open spec fn balanced<T>(steps: Seq<StackStep<T>>) -> bool {
    &&& forall|k: int| 0 <= k <= steps.len() ==> step_depth(#[trigger] steps.take(k)) >= 0
    &&& step_depth(steps) == 0
}

proof fn lemma_run_steps_prefix<T>(saved: Seq<T>, steps: Seq<StackStep<T>>, k: int)
    requires
        0 <= k <= steps.len(),
        forall|j: int| 0 <= j <= steps.len() ==> step_depth(#[trigger] steps.take(j)) >= 0,
    ensures
        run_steps(saved, steps.take(k)) matches Some(s) && s.len() == saved.len() + step_depth(
            steps.take(k),
        ) && s.take(saved.len() as int) == saved,
    decreases k,
{
    if k == 0 {
        assert(steps.take(0) =~= Seq::<StackStep<T>>::empty());
        assert(saved.take(saved.len() as int) =~= saved);
    } else {
        lemma_run_steps_prefix(saved, steps, k - 1);
        assert(steps.take(k).drop_last() =~= steps.take(k - 1));
        let s = run_steps(saved, steps.take(k - 1))->0;
        assert(step_depth(steps.take(k)) >= 0);
        match steps[k - 1] {
            StackStep::Save(x) => {
                assert(s.push(x).take(saved.len() as int) =~= s.take(saved.len() as int));
            },
            StackStep::Restore => {
                assert(s.drop_last().take(saved.len() as int) =~= s.take(saved.len() as int));
            },
        }
    }
}

/// Balanced steps leave the stack as they found it.
pub proof fn law_balanced_steps_keep_stack<T>(saved: Seq<T>, steps: Seq<StackStep<T>>)
    requires
        balanced(steps),
    ensures
        run_steps(saved, steps) == Some(saved),
{
    lemma_run_steps_prefix(saved, steps, steps.len() as int);
    assert(steps.take(steps.len() as int) =~= steps);
    let s = run_steps(saved, steps)->0;
    assert(s =~= s.take(saved.len() as int));
}

/// After a save of `state`, balanced steps and then a restore, the restore
/// gives back `state` and the stack is what it was before the save: what
/// `q ... Q` brackets cannot change the state outside it.
pub proof fn law_save_balanced_restore<T>(saved: Seq<T>, state: T, inner: Seq<StackStep<T>>)
    requires
        balanced(inner),
    ensures
        run_steps(pushed(saved, state), inner) == Some(pushed(saved, state)),
        popped(pushed(saved, state)) == (Some(state), saved),
        run_steps(saved, seq![StackStep::Save(state)] + inner + seq![StackStep::Restore]) == Some(saved),
{
    law_balanced_steps_keep_stack(pushed(saved, state), inner);
    law_restore_undoes_save(saved, state);
    let all = seq![StackStep::Save(state)] + inner + seq![StackStep::Restore];
    let front = seq![StackStep::Save(state)] + inner;
    assert(all.drop_last() =~= front);
    let one = seq![StackStep::Save(state)];
    assert(run_steps(saved, one) == Some(pushed(saved, state))) by {
        assert(one.drop_last() =~= Seq::<StackStep<T>>::empty());
        assert(run_steps(saved, Seq::<StackStep<T>>::empty()) == Some(saved));
        assert(one.last() == StackStep::Save(state));
    }
    lemma_run_steps_append(saved, seq![StackStep::Save(state)], inner);
}

proof fn lemma_run_steps_append<T>(saved: Seq<T>, a: Seq<StackStep<T>>, b: Seq<StackStep<T>>)
    requires
        run_steps(saved, a) is Some,
    ensures
        run_steps(saved, a + b) == run_steps(run_steps(saved, a)->0, b),
    decreases b.len(),
{
    if b.len() == 0 {
        assert(a + b =~= a);
    } else {
        lemma_run_steps_append(saved, a, b.drop_last());
        assert((a + b).drop_last() =~= a + b.drop_last());
    }
}

} // verus!
