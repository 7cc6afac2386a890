use vstd::prelude::*;
use crate::error::{ErrModel, PdfError};
use crate::lexer::{find_bytes_from, find_from, lemma_find_from, occurs_at};
use crate::object::ObjectId;
use crate::text::utf8_string;
use crate::xref::{XrefEntry, XrefTable};

verus! {

broadcast use vstd::std_specs::hash::group_hash_axioms;

pub open spec fn pdf_signature() -> Seq<u8> {
    seq![37u8, 80, 68, 70, 45]
}

pub open spec fn endobj_keyword() -> Seq<u8> {
    seq![101u8, 110, 100, 111, 98, 106]
}

/// The part of a file examined for the header: its first 1024 bytes.
pub open spec fn header_window(data: Seq<u8>) -> Seq<u8> {
    if data.len() <= 1024 {
        data
    } else {
        data.subrange(0, 1024)
    }
}

/// The end of the version text: the first CR, LF or space from `p`.
pub open spec fn version_end(b: Seq<u8>, p: int) -> int
    decreases b.len() - p,
{
    if p < 0 || p >= b.len() || b[p] == 13 || b[p] == 10 || b[p] == 32 {
        p
    } else {
        version_end(b, p + 1)
    }
}

/// The version a file declares in its `%PDF-` header: the text after the first
/// signature within the first 1024 bytes, up to a CR, LF or space (empty when
/// it is not UTF-8).
pub open spec fn header_version(data: Seq<u8>) -> Result<Seq<char>, ErrModel> {
    let b = header_window(data);
    if b.len() < 8 {
        Err(ErrModel::FileTooSmall)
    } else {
        match find_from(b, pdf_signature(), 0) {
            None => Err(ErrModel::InvalidFileSignature),
            Some(i) => {
                let v = b.subrange(i + 5, version_end(b, i + 5));
                Ok(
                    if vstd::utf8::valid_utf8(v) {
                        vstd::utf8::decode_utf8(v)
                    } else {
                        Seq::empty()
                    },
                )
            },
        }
    }
}

/// The largest span an object may take before its `endobj` is given up on.
pub open spec fn object_cap() -> int {
    52429824
}

/// The bytes of an indirect object: from its recorded offset up to and
/// including the first `endobj`.
pub open spec fn raw_object_spec(data: Seq<u8>, entries: Map<u32, XrefEntry>, id: ObjectId) -> Result<
    Seq<u8>,
    ErrModel,
> {
    let n = id.object_number;
    if !entries.contains_key(n) {
        Err(ErrModel::ObjectNotFound(n))
    } else {
        match entries[n] {
            XrefEntry::Free { .. } => Err(ErrModel::ObjectIsFree(n)),
            XrefEntry::Compressed { .. } => Err(ErrModel::ObjectRequiresDecompression(n)),
            XrefEntry::InUse { byte_offset, .. } => {
                if byte_offset > data.len() {
                    Err(ErrModel::MalformedIndirectObject(n))
                } else {
                    match find_from(data, endobj_keyword(), byte_offset as int) {
                        Some(j) => if j + 6 - byte_offset <= object_cap() {
                            Ok(data.subrange(byte_offset as int, j + 6))
                        } else {
                            Err(ErrModel::MalformedIndirectObject(n))
                        },
                        None => Err(ErrModel::MalformedIndirectObject(n)),
                    }
                }
            },
        }
    }
}

/// An open PDF document: the file's bytes, its declared version and its
/// cross-reference table.
pub struct PdfDocument {
    pub data: Vec<u8>,
    pub version: String,
    pub xref_table: XrefTable,
    pub original_startxref: Option<u64>,
}

impl PdfDocument {
    /// The bytes of the file.
    pub open spec fn file_data(&self) -> Seq<u8> {
        self.data@
    }

    /// Opens a document from the bytes of its file: the header must hold the
    /// `%PDF-` signature within the first 1024 bytes; the table starts empty.
    pub fn from_bytes(data: Vec<u8>) -> (res: Result<Self, PdfError>)
        ensures
            match header_version(data@) {
                Ok(v) => res matches Ok(doc) && doc.version@ == v && doc.file_data() == data@
                    && doc.xref_table.entries@ == Map::<u32, XrefEntry>::empty()
                    && doc.xref_table.trailer_dict is None && doc.original_startxref is None,
                Err(e) => res matches Err(x) && x@ == e,
            },
    {
        let n: usize = if data.len() <= 1024 {
            data.len()
        } else {
            1024
        };
        let window = vstd::slice::slice_subrange(data.as_slice(), 0, n);
        assert(window@ =~= header_window(data@));
        if n < 8 {
            return Err(PdfError::FileTooSmall);
        }
        let signature: [u8; 5] = [37u8, 80, 68, 70, 45];
        assert(signature@ =~= pdf_signature());
        let found = find_bytes_from(window, &signature, 0);
        proof {
            lemma_find_from(window@, pdf_signature(), 0);
        }
        match found {
            None => Err(PdfError::InvalidFileSignature),
            Some(i) => {
                let version_start = i + 5;
                let mut version_end_at = version_start;
                while version_end_at < n && window[version_end_at] != 13u8 && window[version_end_at]
                    != 10u8 && window[version_end_at] != 32u8
                    invariant
                        version_start <= version_end_at <= n,
                        n == window@.len(),
                        version_end(window@, version_end_at as int) == version_end(
                            window@,
                            version_start as int,
                        ),
                    decreases n - version_end_at,
                {
                    version_end_at = version_end_at + 1;
                }
                let v = vstd::slice::slice_subrange(window, version_start, version_end_at);
                let version = match utf8_string(v) {
                    Some(s) => s,
                    None => String::new(),
                };
                Ok(
                    PdfDocument {
                        data,
                        version,
                        xref_table: XrefTable::new(),
                        original_startxref: None,
                    },
                )
            },
        }
    }

    /// The bytes of the file.
    pub fn data(&self) -> (res: &[u8])
        ensures
            res@ == self.file_data(),
    {
        self.data.as_slice()
    }

    /// Reads the raw bytes of an indirect object, from its recorded offset up to and
    /// including the first `endobj` keyword.
    pub fn get_raw_object_bytes(&self, id: ObjectId) -> (res: Result<Vec<u8>, PdfError>)
        ensures
            match raw_object_spec(self.file_data(), self.xref_table.entries@, id) {
                Ok(b) => res matches Ok(v) && v@ == b && b.len() <= self.file_data().len(),
                Err(e) => res matches Err(x) && x@ == e,
            },
    {
        let n = id.object_number;
        let offset = match self.xref_table.entries.get(&n) {
            None => return Err(PdfError::ObjectNotFound(n)),
            Some(XrefEntry::Free { .. }) => return Err(PdfError::ObjectIsFree(n)),
            Some(XrefEntry::Compressed { .. }) => return Err(
                PdfError::ObjectRequiresDecompression(n),
            ),
            Some(XrefEntry::InUse { byte_offset, .. }) => *byte_offset,
        };
        if offset > self.data.len() as u64 {
            return Err(PdfError::MalformedIndirectObject(n));
        }
        let start = offset as usize;
        let needle: [u8; 6] = [101u8, 110, 100, 111, 98, 106];
        assert(needle@ =~= endobj_keyword());
        let found = find_bytes_from(self.data.as_slice(), &needle, start);
        proof {
            lemma_find_from(self.data@, endobj_keyword(), start as int);
        }
        match found {
            Some(j) => {
                if j - start <= 52429818 {
                    Ok(
                        vstd::slice::slice_to_vec(
                            vstd::slice::slice_subrange(self.data.as_slice(), start, j + 6),
                        ),
                    )
                } else {
                    Err(PdfError::MalformedIndirectObject(n))
                }
            },
            None => Err(PdfError::MalformedIndirectObject(n)),
        }
    }
}

} // verus!
