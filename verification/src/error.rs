use vstd::prelude::*;

verus! {

/// Every failure the engine reports.
#[derive(Debug, PartialEq, Eq)]
pub enum PdfError {
    Io(String),
    InvalidFileSignature,
    FileTooSmall,
    MissingStartXref,
    InvalidStartXrefOffset,
    InvalidXrefFormat,
    UnexpectedEof,
    InvalidSyntax(String),
    ObjectIsFree(u32),
    ObjectRequiresDecompression(u32),
    ObjectNotFound(u32),
    MalformedIndirectObject(u32),
    UnexpectedToken,
    ExpectedDictKeyName,
    UnexpectedEndStream,
    UnexpectedEndObj,
    InvalidTrailer,
    MissingRoot,
    InvalidPageTree,
    MissingPageContents,
    InvalidPageContents,
    FilterDecodeError(String),
    UnsupportedFilter(String),
    InvalidCMap,
    InvalidTrueTypeFont(String),
    GraphicsStackUnderflow,
    InvalidGraphicOperator(String),
    RenderError(String),
}

/// The value of a `PdfError`, messages as character sequences.
pub enum ErrModel {
    Io(Seq<char>),
    InvalidFileSignature,
    FileTooSmall,
    MissingStartXref,
    InvalidStartXrefOffset,
    InvalidXrefFormat,
    UnexpectedEof,
    InvalidSyntax(Seq<char>),
    ObjectIsFree(u32),
    ObjectRequiresDecompression(u32),
    ObjectNotFound(u32),
    MalformedIndirectObject(u32),
    UnexpectedToken,
    ExpectedDictKeyName,
    UnexpectedEndStream,
    UnexpectedEndObj,
    InvalidTrailer,
    MissingRoot,
    InvalidPageTree,
    MissingPageContents,
    InvalidPageContents,
    FilterDecodeError(Seq<char>),
    UnsupportedFilter(Seq<char>),
    InvalidCMap,
    InvalidTrueTypeFont(Seq<char>),
    GraphicsStackUnderflow,
    InvalidGraphicOperator(Seq<char>),
    RenderError(Seq<char>),
}

impl View for PdfError {
    type V = ErrModel;

    open spec fn view(&self) -> ErrModel {
        match self {
            PdfError::Io(s) => ErrModel::Io(s@),
            PdfError::InvalidFileSignature => ErrModel::InvalidFileSignature,
            PdfError::FileTooSmall => ErrModel::FileTooSmall,
            PdfError::MissingStartXref => ErrModel::MissingStartXref,
            PdfError::InvalidStartXrefOffset => ErrModel::InvalidStartXrefOffset,
            PdfError::InvalidXrefFormat => ErrModel::InvalidXrefFormat,
            PdfError::UnexpectedEof => ErrModel::UnexpectedEof,
            PdfError::InvalidSyntax(s) => ErrModel::InvalidSyntax(s@),
            PdfError::ObjectIsFree(n) => ErrModel::ObjectIsFree(*n),
            PdfError::ObjectRequiresDecompression(n) => ErrModel::ObjectRequiresDecompression(*n),
            PdfError::ObjectNotFound(n) => ErrModel::ObjectNotFound(*n),
            PdfError::MalformedIndirectObject(n) => ErrModel::MalformedIndirectObject(*n),
            PdfError::UnexpectedToken => ErrModel::UnexpectedToken,
            PdfError::ExpectedDictKeyName => ErrModel::ExpectedDictKeyName,
            PdfError::UnexpectedEndStream => ErrModel::UnexpectedEndStream,
            PdfError::UnexpectedEndObj => ErrModel::UnexpectedEndObj,
            PdfError::InvalidTrailer => ErrModel::InvalidTrailer,
            PdfError::MissingRoot => ErrModel::MissingRoot,
            PdfError::InvalidPageTree => ErrModel::InvalidPageTree,
            PdfError::MissingPageContents => ErrModel::MissingPageContents,
            PdfError::InvalidPageContents => ErrModel::InvalidPageContents,
            PdfError::FilterDecodeError(s) => ErrModel::FilterDecodeError(s@),
            PdfError::UnsupportedFilter(s) => ErrModel::UnsupportedFilter(s@),
            PdfError::InvalidCMap => ErrModel::InvalidCMap,
            PdfError::InvalidTrueTypeFont(s) => ErrModel::InvalidTrueTypeFont(s@),
            PdfError::GraphicsStackUnderflow => ErrModel::GraphicsStackUnderflow,
            PdfError::InvalidGraphicOperator(s) => ErrModel::InvalidGraphicOperator(s@),
            PdfError::RenderError(s) => ErrModel::RenderError(s@),
        }
    }
}

} // verus!
