use vstd::prelude::*;
use crate::ast_parser::{parse_bytes_spec, parse_object_bytes};
use crate::document::{raw_object_spec, PdfDocument};
use crate::error::{ErrModel, PdfError};
use crate::object::{dict_get, lemma_objects_model, ObjModel, ObjectId, PdfObject};
use crate::xref::opt_dict_model;

verus! {

/// The document's catalog, found through the trailer's `/Root`.
pub struct DocumentCatalog {
    pub root_id: ObjectId,
}

/// Reading and parsing an indirect object of a document.
pub open spec fn load_spec(doc: PdfDocument, id: ObjectId) -> Result<ObjModel, ErrModel> {
    match raw_object_spec(doc.file_data(), doc.xref_table.entries@, id) {
        Err(e) => Err(e),
        Ok(b) => parse_bytes_spec(b),
    }
}

/// Reads and parses an indirect object of a document.
pub fn load_object(doc: &PdfDocument, id: ObjectId) -> (res: Result<PdfObject, PdfError>)
    ensures
        match load_spec(*doc, id) {
            Ok(o) => res matches Ok(x) && x@ == o,
            Err(e) => res matches Err(x) && x@ == e,
        },
{
    let raw = doc.get_raw_object_bytes(id)?;
    parse_object_bytes(raw.as_slice())
}

/// Flattening a page tree node into the pages below it, appended to `acc`.
/// `fuel` bounds the depth; `None` means the depth was not enough.
pub open spec fn traverse_spec(doc: PdfDocument, node: ObjectId, acc: Seq<ObjectId>, fuel: nat) -> Option<
    Result<Seq<ObjectId>, ErrModel>,
>
    decreases fuel, 0int,
{
    if fuel == 0 {
        None
    } else {
        match load_spec(doc, node) {
            Err(e) => Some(Err(e)),
            Ok(ObjModel::Dictionary(d)) => match dict_get(d, "Type"@) {
                Some(ObjModel::Name(n)) => if n == "Page"@ {
                    Some(Ok(acc.push(node)))
                } else if n != "Pages"@ {
                    Some(Err(ErrModel::InvalidPageTree))
                } else {
                    match dict_get(d, "Kids"@) {
                        Some(ObjModel::Array(kids)) => kids_spec(doc, kids, 0, acc, (fuel - 1) as nat),
                        _ => Some(Err(ErrModel::InvalidPageTree)),
                    }
                },
                _ => Some(Err(ErrModel::InvalidPageTree)),
            },
            Ok(_) => Some(Err(ErrModel::InvalidPageTree)),
        }
    }
}

/// Flattening the kids `kids[i..]` of a page tree node, in order.
pub open spec fn kids_spec(doc: PdfDocument, kids: Seq<ObjModel>, i: int, acc: Seq<ObjectId>, fuel: nat) -> Option<
    Result<Seq<ObjectId>, ErrModel>,
>
    decreases fuel, kids.len() - i + 1,
{
    if i < 0 || i >= kids.len() {
        Some(Ok(acc))
    } else {
        match kids[i] {
            ObjModel::Reference(k) => match traverse_spec(doc, k, acc, fuel) {
                None => None,
                Some(Err(e)) => Some(Err(e)),
                Some(Ok(acc2)) => kids_spec(doc, kids, i + 1, acc2, fuel),
            },
            _ => Some(Err(ErrModel::InvalidPageTree)),
        }
    }
}

/// All pages of a document: from the trailer's `/Root` catalog to its `/Pages`
/// tree, flattened in order.
pub open spec fn pages_spec(doc: PdfDocument, fuel: nat) -> Option<Result<Seq<ObjectId>, ErrModel>> {
    match opt_dict_model(doc.xref_table.trailer_dict) {
        None => Some(Err(ErrModel::InvalidTrailer)),
        Some(t) => match dict_get(t, "Root"@) {
            Some(ObjModel::Reference(root_id)) => match load_spec(doc, root_id) {
                Err(e) => Some(Err(e)),
                Ok(ObjModel::Dictionary(c)) => match dict_get(c, "Pages"@) {
                    Some(ObjModel::Reference(pages_id)) => traverse_spec(doc, pages_id, Seq::empty(), fuel),
                    _ => Some(Err(ErrModel::InvalidPageTree)),
                },
                Ok(_) => Some(Err(ErrModel::InvalidPageTree)),
            },
            _ => Some(Err(ErrModel::MissingRoot)),
        },
    }
}

/// Whether flattening the page tree comes to an end (it does not on a cycle).
pub open spec fn page_tree_finite(doc: PdfDocument) -> bool {
    exists|f: nat| #[trigger] pages_spec(doc, f) is Some
}

pub proof fn lemma_traverse_mono(doc: PdfDocument, node: ObjectId, acc: Seq<ObjectId>, f: nat)
    requires
        traverse_spec(doc, node, acc, f) is Some,
    ensures
        traverse_spec(doc, node, acc, f + 1) == traverse_spec(doc, node, acc, f),
    decreases f, 0int,
{
    if f > 0 {
        match load_spec(doc, node) {
            Ok(ObjModel::Dictionary(d)) => match dict_get(d, "Type"@) {
                Some(ObjModel::Name(n)) => if n != "Page"@ && n == "Pages"@ {
                    match dict_get(d, "Kids"@) {
                        Some(ObjModel::Array(kids)) => {
                            lemma_kids_mono(doc, kids, 0, acc, (f - 1) as nat);
                        },
                        _ => {},
                    }
                },
                _ => {},
            },
            _ => {},
        }
    }
}

pub proof fn lemma_kids_mono(doc: PdfDocument, kids: Seq<ObjModel>, i: int, acc: Seq<ObjectId>, f: nat)
    requires
        kids_spec(doc, kids, i, acc, f) is Some,
    ensures
        kids_spec(doc, kids, i, acc, f + 1) == kids_spec(doc, kids, i, acc, f),
    decreases f, kids.len() - i + 1,
{
    if 0 <= i < kids.len() {
        match kids[i] {
            ObjModel::Reference(k) => {
                lemma_traverse_mono(doc, k, acc, f);
                match traverse_spec(doc, k, acc, f) {
                    Some(Ok(acc2)) => {
                        lemma_kids_mono(doc, kids, i + 1, acc2, f);
                    },
                    _ => {},
                }
            },
            _ => {},
        }
    }
}

/// More depth never changes a flattening that already came to an end.
pub proof fn lemma_pages_mono(doc: PdfDocument, f: nat, g: nat)
    requires
        pages_spec(doc, f) is Some,
        f <= g,
    ensures
        pages_spec(doc, g) == pages_spec(doc, f),
    decreases g - f,
{
    if f < g {
        match opt_dict_model(doc.xref_table.trailer_dict) {
            Some(t) => match dict_get(t, "Root"@) {
                Some(ObjModel::Reference(root_id)) => match load_spec(doc, root_id) {
                    Ok(ObjModel::Dictionary(c)) => match dict_get(c, "Pages"@) {
                        Some(ObjModel::Reference(pages_id)) => {
                            lemma_traverse_mono(doc, pages_id, Seq::empty(), f);
                        },
                        _ => {},
                    },
                    _ => {},
                },
                _ => {},
            },
            None => {},
        }
        lemma_pages_mono(doc, f + 1, g);
    }
}

fn traverse_page_tree(
    doc: &PdfDocument,
    node_id: ObjectId,
    out_pages: &mut Vec<ObjectId>,
    Ghost(fuel): Ghost<nat>,
) -> (res: Result<(), PdfError>)
    requires
        traverse_spec(*doc, node_id, old(out_pages)@, fuel) is Some,
    ensures
        match traverse_spec(*doc, node_id, old(out_pages)@, fuel)->0 {
            Ok(acc) => res is Ok && final(out_pages)@ == acc,
            Err(e) => res matches Err(x) && x@ == e,
        },
    decreases fuel,
{
    let node_obj = load_object(doc, node_id)?;
    let node_dict = match node_obj {
        PdfObject::Dictionary(d) => d,
        _ => return Err(PdfError::InvalidPageTree),
    };
    let is_page = match node_dict.get("Type") {
        Some(PdfObject::Name(n)) => {
            if crate::object::str_equal(n.as_str(), "Page") {
                true
            } else if !crate::object::str_equal(n.as_str(), "Pages") {
                return Err(PdfError::InvalidPageTree);
            } else {
                false
            }
        },
        _ => return Err(PdfError::InvalidPageTree),
    };
    if is_page {
        out_pages.push(node_id);
        return Ok(());
    }
    let kids_array = match node_dict.get("Kids") {
        Some(PdfObject::Array(arr)) => arr,
        _ => return Err(PdfError::InvalidPageTree),
    };
    proof {
        lemma_objects_model(kids_array@);
    }
    let ghost kids = crate::object::objects_model(kids_array@);
    let ghost f1 = (fuel - 1) as nat;
    let mut i: usize = 0;
    while i < kids_array.len()
        invariant
                fuel > 0,
            f1 == fuel - 1,
            i <= kids_array@.len(),
            kids.len() == kids_array@.len(),
            forall|j: int| 0 <= j < kids_array@.len() ==> #[trigger] kids[j] == kids_array@[j]@,
            kids_spec(*doc, kids, i as int, out_pages@, f1) == traverse_spec(
                *doc,
                node_id,
                old(out_pages)@,
                fuel,
            ),
            traverse_spec(*doc, node_id, old(out_pages)@, fuel) is Some,
        decreases kids_array@.len() - i,
    {
        match &kids_array[i] {
            PdfObject::Reference(kid_id) => {
                traverse_page_tree(doc, *kid_id, out_pages, Ghost(f1))?;
            },
            _ => {
                return Err(PdfError::InvalidPageTree);
            },
        }
        i = i + 1;
    }
    Ok(())
}

/// Flattens the page tree below `node_id` into `out_pages`, going at most
/// `depth` levels down; `None` when the tree is deeper than that.
fn traverse_within(
    doc: &PdfDocument,
    node_id: ObjectId,
    out_pages: &mut Vec<ObjectId>,
    depth: usize,
) -> (res: Option<Result<(), PdfError>>)
    ensures
        match traverse_spec(*doc, node_id, old(out_pages)@, depth as nat) {
            None => res is None,
            Some(Ok(acc)) => res matches Some(Ok(_)) && final(out_pages)@ == acc,
            Some(Err(e)) => res matches Some(Err(x)) && x@ == e,
        },
    decreases depth,
{
    if depth == 0 {
        return None;
    }
    let node_obj = match load_object(doc, node_id) {
        Ok(o) => o,
        Err(e) => return Some(Err(e)),
    };
    let node_dict = match node_obj {
        PdfObject::Dictionary(d) => d,
        _ => return Some(Err(PdfError::InvalidPageTree)),
    };
    let is_page = match node_dict.get("Type") {
        Some(PdfObject::Name(n)) => {
            if crate::object::str_equal(n.as_str(), "Page") {
                true
            } else if !crate::object::str_equal(n.as_str(), "Pages") {
                return Some(Err(PdfError::InvalidPageTree));
            } else {
                false
            }
        },
        _ => return Some(Err(PdfError::InvalidPageTree)),
    };
    if is_page {
        out_pages.push(node_id);
        return Some(Ok(()));
    }
    let kids_array = match node_dict.get("Kids") {
        Some(PdfObject::Array(arr)) => arr,
        _ => return Some(Err(PdfError::InvalidPageTree)),
    };
    proof {
        lemma_objects_model(kids_array@);
    }
    let ghost kids = crate::object::objects_model(kids_array@);
    let below: usize = depth - 1;
    let mut i: usize = 0;
    while i < kids_array.len()
        invariant
            depth > 0,
            below == depth - 1,
            i <= kids_array@.len(),
            kids.len() == kids_array@.len(),
            forall|j: int| 0 <= j < kids_array@.len() ==> #[trigger] kids[j] == kids_array@[j]@,
            kids_spec(*doc, kids, i as int, out_pages@, below as nat) == traverse_spec(
                *doc,
                node_id,
                old(out_pages)@,
                depth as nat,
            ),
        decreases kids_array@.len() - i,
    {
        match &kids_array[i] {
            PdfObject::Reference(kid_id) => {
                match traverse_within(doc, *kid_id, out_pages, below) {
                    None => return None,
                    Some(Err(e)) => return Some(Err(e)),
                    Some(Ok(_)) => {},
                }
            },
            _ => {
                return Some(Err(PdfError::InvalidPageTree));
            },
        }
        i = i + 1;
    }
    Some(Ok(()))
}

impl DocumentCatalog {
    /// Finds the document catalog through the trailer's `/Root` and returns the
    /// references of all pages of its page tree, in order.
    pub fn get_all_pages(doc: &PdfDocument) -> (res: Result<Vec<ObjectId>, PdfError>)
        requires
                page_tree_finite(*doc),
        ensures
            forall|f: nat|
                #[trigger] pages_spec(*doc, f) is Some ==> match pages_spec(*doc, f)->0 {
                    Ok(p) => res matches Ok(v) && v@ == p,
                    Err(e) => res matches Err(x) && x@ == e,
                },
    {
        let ghost fuel = choose|f: nat| #[trigger] pages_spec(*doc, f) is Some;
        proof {
            assert forall|f: nat| #[trigger] pages_spec(*doc, f) is Some implies pages_spec(
                *doc,
                f,
            ) == pages_spec(*doc, fuel) by {
                if f <= fuel {
                    lemma_pages_mono(*doc, f, fuel);
                } else {
                    lemma_pages_mono(*doc, fuel, f);
                }
            }
        }
        let trailer = match doc.xref_table.trailer() {
            Some(t) => t,
            None => return Err(PdfError::InvalidTrailer),
        };
        let root_id = match trailer.get("Root") {
            Some(PdfObject::Reference(id)) => *id,
            _ => return Err(PdfError::MissingRoot),
        };
        let catalog_obj = load_object(doc, root_id)?;
        let catalog_dict = match catalog_obj {
            PdfObject::Dictionary(d) => d,
            _ => return Err(PdfError::InvalidPageTree),
        };
        let pages_root_id = match catalog_dict.get("Pages") {
            Some(PdfObject::Reference(id)) => *id,
            _ => return Err(PdfError::InvalidPageTree),
        };
        let mut page_list: Vec<ObjectId> = Vec::new();
        traverse_page_tree(doc, pages_root_id, &mut page_list, Ghost(fuel))?;
        Ok(page_list)
    }

    /// Like `get_all_pages`, but goes at most `max_depth` levels down the page
    /// tree: `None` when the tree is deeper, as a cyclic tree always is.
    pub fn get_pages_within(doc: &PdfDocument, max_depth: usize) -> (res: Option<
        Result<Vec<ObjectId>, PdfError>,
    >)
        ensures
            match pages_spec(*doc, max_depth as nat) {
                None => res is None,
                Some(Ok(p)) => res matches Some(Ok(v)) && v@ == p,
                Some(Err(e)) => res matches Some(Err(x)) && x@ == e,
            },
    {
        let trailer = match doc.xref_table.trailer() {
            Some(t) => t,
            None => return Some(Err(PdfError::InvalidTrailer)),
        };
        let root_id = match trailer.get("Root") {
            Some(PdfObject::Reference(id)) => *id,
            _ => return Some(Err(PdfError::MissingRoot)),
        };
        let catalog_obj = match load_object(doc, root_id) {
            Ok(o) => o,
            Err(e) => return Some(Err(e)),
        };
        let catalog_dict = match catalog_obj {
            PdfObject::Dictionary(d) => d,
            _ => return Some(Err(PdfError::InvalidPageTree)),
        };
        let pages_root_id = match catalog_dict.get("Pages") {
            Some(PdfObject::Reference(id)) => *id,
            _ => return Some(Err(PdfError::InvalidPageTree)),
        };
        let mut page_list: Vec<ObjectId> = Vec::new();
        match traverse_within(doc, pages_root_id, &mut page_list, max_depth) {
            None => None,
            Some(Err(e)) => Some(Err(e)),
            Some(Ok(_)) => Some(Ok(page_list)),
        }
    }
}

} // verus!
