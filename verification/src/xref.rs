use vstd::prelude::*;
use std::collections::HashMap;
use crate::object::{DictModel, PdfDictionary};

verus! {

/// One entry of a cross-reference table.
#[derive(Debug, Clone, Copy, PartialEq, Eq, Structural)]
pub enum XrefEntry {
    Free { next_free_object: u32, generation_number: u16 },
    InUse { byte_offset: u64, generation_number: u16 },
    Compressed { object_stream_num: u32, index_in_stream: u16 },
}

/// A cross-reference table: where each object lives, and the trailer dictionary.
#[derive(Debug)]
pub struct XrefTable {
    pub entries: HashMap<u32, XrefEntry>,
    pub trailer_dict: Option<PdfDictionary>,
}

pub open spec fn opt_dict_model(d: Option<PdfDictionary>) -> Option<DictModel> {
    match d {
        Some(x) => Some(x@),
        None => None,
    }
}

impl XrefTable {
    /// An empty table without a trailer.
    pub fn new() -> (res: Self)
        ensures
            res.entries@ == Map::<u32, XrefEntry>::empty(),
            res.trailer_dict is None,
    {
        XrefTable { entries: HashMap::new(), trailer_dict: None }
    }

    /// The trailer dictionary, if one was read.
    pub fn trailer(&self) -> (res: Option<&PdfDictionary>)
        ensures
            match res {
                Some(d) => self.trailer_dict == Some(*d),
                None => self.trailer_dict is None,
            },
    {
        match &self.trailer_dict {
            Some(d) => Some(d),
            None => None,
        }
    }
}

} // verus!
