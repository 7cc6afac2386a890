use vstd::prelude::*;
use std::collections::HashMap;
use vstd::std_specs::iter::IteratorSpec;
use vstd::std_specs::hash::spec_keys_iter;
use crate::document::PdfDocument;
use crate::edit::{object_text, serialize_object};
use crate::error::{ErrModel, PdfError};
use vstd::utf8::encode_utf8;
use crate::numbers::{nat_text, padded_text, padded_u64_text, u64_text};
use crate::object::{copy_dictionary, dict_get, dict_insert, dict_key_index, DictModel, ObjModel, ObjectId, PdfDictionary, PdfObject, lemma_objects_model, lemma_entries_model};
use crate::catalog::{load_object, load_spec};
use std::collections::HashSet;
use crate::xref::XrefEntry;
use crate::lexer::{is_digit, occurs_at};
use crate::numbers::{all_char_digits, digits_value, lemma_nat_digit_values, parse_unsigned};
use crate::parser::{digits_end, find_last_from, skip_xref_space, startxref_keyword, startxref_spec};
use crate::text::latin1_chars;

verus! {

broadcast use vstd::std_specs::hash::group_hash_axioms;

// ---------------------------------------------------------------- pieces of text

/// `n g obj` and a newline.
pub open spec fn obj_header_text(n: u32, g: u16) -> Seq<u8> {
    nat_text(n as nat) + seq![32u8] + nat_text(g as nat) + seq![32u8, 111u8, 98u8, 106u8, 10u8]
}

/// A newline, `endobj` and a newline.
pub open spec fn endobj_footer() -> Seq<u8> {
    seq![10u8, 101u8, 110u8, 100u8, 111u8, 98u8, 106u8, 10u8]
}

/// An in-use entry line of a table: ten digits of offset, five of generation,
/// `n` and CR LF.
pub open spec fn in_use_line(offset: nat, g: u16) -> Seq<u8> {
    padded_text(offset, 10) + seq![32u8] + padded_text(g as nat, 5) + seq![32u8, 110u8, 13u8, 10u8]
}

/// `startxref`, the offset, and `%%EOF`, each on a line.
pub open spec fn eof_block(startxref: nat) -> Seq<u8> {
    // `startxref\n`
    seq![115u8, 116u8, 97u8, 114u8, 116u8, 120u8, 114u8, 101u8, 102u8, 10u8] + nat_text(startxref)
        // `\n%%EOF\n`
        + seq![10u8, 37u8, 37u8, 69u8, 79u8, 70u8, 10u8]
}

/// The largest object number of a set, 0 for none.
pub open spec fn max_key(s: Set<u32>) -> u32 {
    if s.is_empty() {
        0
    } else {
        choose|m: u32| s.contains(m) && forall|k: u32| s.contains(k) ==> k <= m
    }
}

// ---------------------------------------------------------------- incremental update

/// The objects appended by an incremental update, written from `start`: their
/// bytes (each `n g obj` header, body and `endobj`), their table entries, and
/// the offset after them.
pub open spec fn appended_objects(objs: Seq<(ObjectId, ObjModel)>, start: nat) -> (
    Seq<u8>,
    Seq<(u32, u16, nat)>,
    nat,
)
    decreases objs.len(),
{
    if objs.len() == 0 {
        (Seq::empty(), Seq::empty(), start)
    } else {
        let r = appended_objects(objs.drop_last(), start);
        let id = objs.last().0;
        let body = object_text(objs.last().1);
        let h = obj_header_text(id.object_number, id.generation_number);
        (
            r.0 + h + body + endobj_footer(),
            r.1.push((id.object_number, id.generation_number, r.2)),
            r.2 + h.len() + body.len() + 8,
        )
    }
}

/// One subsection of one entry per appended object.
pub open spec fn incremental_xref_lines(entries: Seq<(u32, u16, nat)>) -> Seq<u8>
    decreases entries.len(),
{
    if entries.len() == 0 {
        Seq::empty()
    } else {
        let e = entries.last();
        incremental_xref_lines(entries.drop_last()) + nat_text(e.0 as nat) + seq![32u8, 49u8, 10u8]
            + in_use_line(e.2, e.1)
    }
}

/// The largest of `m` and the object numbers of the entries.
pub open spec fn max_entry_number(m: u32, entries: Seq<(u32, u16, nat)>) -> u32
    decreases entries.len(),
{
    if entries.len() == 0 {
        m
    } else {
        let r = max_entry_number(m, entries.drop_last());
        if entries.last().0 > r {
            entries.last().0
        } else {
            r
        }
    }
}

/// The text after `/Size n`: ` /Prev p ` when the file had a table before.
pub open spec fn prev_text(prev: Option<u64>) -> Seq<u8> {
    match prev {
        // ` /Prev `, the offset, and a space
        Some(p) => seq![32u8, 47u8, 80u8, 114u8, 101u8, 118u8, 32u8] + nat_text(p as nat) + seq![
            32u8,
        ],
        None => Seq::empty(),
    }
}

/// The bytes an incremental update appends to a file of `file_size` bytes: a
/// newline, the objects, a table with one subsection per object, a trailer
/// with `/Size` one above the largest object number (and `/Prev` when known),
/// and the `startxref` block.
pub open spec fn incremental_text(
    keys: Set<u32>,
    prev: Option<u64>,
    file_size: u64,
    objs: Seq<(ObjectId, ObjModel)>,
) -> Seq<u8> {
    let a = appended_objects(objs, (file_size + 1) as nat);
    let mx = max_entry_number(max_key(keys), a.1);
    seq![10u8] + a.0
        // `xref\n`
        + seq![120u8, 114u8, 101u8, 102u8, 10u8] + incremental_xref_lines(a.1)
        // `trailer\n<< /Size `
        + seq![116u8, 114u8, 97u8, 105u8, 108u8, 101u8, 114u8, 10u8, 60u8, 60u8, 32u8, 47u8, 83u8, 105u8, 122u8, 101u8, 32u8]
        + nat_text(mx as nat + 1) + prev_text(prev)
        // `>>\n`
        + seq![62u8, 62u8, 10u8] + eof_block(a.2)
}

/// Whether the offsets and object numbers of an incremental update stay
/// within their integer types.
pub open spec fn incremental_fits(keys: Set<u32>, file_size: u64, objs: Seq<(ObjectId, ObjModel)>) -> bool {
    let a = appended_objects(objs, (file_size + 1) as nat);
    &&& a.2 <= u64::MAX
    &&& max_entry_number(max_key(keys), a.1) < u32::MAX
}

pub open spec fn objs_model(v: Seq<(ObjectId, PdfObject)>) -> Seq<(ObjectId, ObjModel)> {
    v.map_values(|e: (ObjectId, PdfObject)| (e.0, e.1@))
}

fn push_all(buf: &mut Vec<u8>, s: &[u8])
    ensures
        final(buf)@ == old(buf)@ + s@,
{
    let mut i: usize = 0;
    while i < s.len()
        invariant
            i <= s@.len(),
            buf@ == old(buf)@ + s@.subrange(0, i as int),
        decreases s@.len() - i,
    {
        buf.push(s[i]);
        i = i + 1;
        assert(buf@ =~= old(buf)@ + s@.subrange(0, i as int));
    }
    assert(s@.subrange(0, s@.len() as int) =~= s@);
}

/// The largest key of a table, 0 for an empty one.
fn max_table_key(m: &HashMap<u32, XrefEntry>) -> (res: u32)
    ensures
        res == max_key(m@.dom()),
{
    let mut mx: u32 = 0;
    let mut any = false;
    let ghost keys: Seq<u32> = spec_keys_iter(m).remaining().unref();
    let ghost mut seen: int = 0;
    proof {
        vstd::std_specs::hash::axiom_spec_keys_iter(m);
    }
    for k in iter: m.keys()
        invariant
            seen == iter.index(),
            keys == iter.seq().unref(),
            keys.to_set() == m@.dom(),
            any == (seen > 0),
            forall|j: int| 0 <= j < seen ==> keys[j] <= mx,
            any ==> exists|j: int| 0 <= j < seen && keys[j] == mx,
            !any ==> mx == 0,
        ensures
            seen == keys.len(),
    {
        proof {
            assert(keys[seen] == *k);
        }
        if !any || *k > mx {
            mx = *k;
        }
        any = true;
        proof {
            seen = seen + 1;
        }
    }
    proof {
        let s = m@.dom();
        if any {
            let j = choose|j: int| 0 <= j < seen && keys[j] == mx;
            assert(s.contains(mx));
            assert forall|k: u32| s.contains(k) implies k <= mx by {
                assert(keys.to_set().contains(k));
                let i = choose|i: int| 0 <= i < keys.len() && keys[i] == k;
            }
            let c = choose|c: u32| s.contains(c) && forall|k: u32| s.contains(k) ==> k <= c;
            assert(c <= mx && mx <= c);
        } else {
            assert(keys.len() == 0);
            assert(s =~= Set::<u32>::empty());
        }
    }
    mx
}

pub open spec fn entries_view(v: Seq<(u32, u16, u64)>) -> Seq<(u32, u16, nat)> {
    v.map_values(|e: (u32, u16, u64)| (e.0, e.1, e.2 as nat))
}

/// Offsets only grow as objects are appended.
pub proof fn lemma_appended_prefix(objs: Seq<(ObjectId, ObjModel)>, start: nat, k: int)
    requires
        0 <= k <= objs.len(),
    ensures
        appended_objects(objs.subrange(0, k), start).2 <= appended_objects(objs, start).2,
        start <= appended_objects(objs, start).2,
    decreases objs.len(),
{
    if objs.len() > 0 {
        lemma_appended_prefix(objs.drop_last(), start, if k < objs.len() {
            k
        } else {
            0
        });
        if k < objs.len() {
            assert(objs.drop_last().subrange(0, k) =~= objs.subrange(0, k));
        } else {
            assert(objs.subrange(0, k) =~= objs);
        }
    }
}

/// The decimal text of a number followed by a byte sequence.
fn push_number(buf: &mut Vec<u8>, n: u64)
    ensures
        final(buf)@ == old(buf)@ + nat_text(n as nat),
{
    let mut t = u64_text(n);
    buf.append(&mut t);
}

/// `n g obj` and a newline, as text.
fn header_len(n: u32, g: u16) -> (res: u64)
    ensures
        res == obj_header_text(n, g).len(),
{
    let a = u64_text(n as u64);
    let b = u64_text(g as u64);
    proof {
        crate::numbers::lemma_nat_digit_values(n as nat);
        crate::numbers::lemma_nat_digit_values(g as nat);
        lemma_nat_text_short(n as nat);
        lemma_nat_text_short(g as nat);
    }
    (a.len() as u64) + 1 + (b.len() as u64) + 5
}

/// The text of a number below 2^32 has at most ten digits.
proof fn lemma_nat_text_short(n: nat)
    requires
        n < 0x1_0000_0000,
    ensures
        nat_text(n).len() <= 10,
{
    assert(pow10(10) == 10000000000nat) by {
        reveal_with_fuel(pow10, 11);
    }
    lemma_digit_count(n, 10);
}

proof fn lemma_digit_count(n: nat, k: nat)
    requires
        k >= 1,
        n < pow10(k),
    ensures
        crate::numbers::nat_digit_values(n).len() <= k,
    decreases k,
{
    if n >= 10 {
        assert(n / 10 < pow10((k - 1) as nat)) by {
            assert(pow10(k) == 10 * pow10((k - 1) as nat));
        }
        if k >= 2 {
            lemma_digit_count(n / 10, (k - 1) as nat);
        } else {
            assert(pow10(1) == 10);
        }
    }
}

pub open spec fn pow10(k: nat) -> nat
    decreases k,
{
    if k == 0 {
        1
    } else {
        10 * pow10((k - 1) as nat)
    }
}

/// Writes the appended objects: their bytes, table entries and the offset after them.
fn write_objects(modified_objects: &[(ObjectId, PdfObject)], start: u64) -> (res: (
    Vec<u8>,
    Vec<(u32, u16, u64)>,
    u64,
))
    requires
        appended_objects(objs_model(modified_objects@), start as nat).2 <= u64::MAX,
    ensures
        ({
            let a = appended_objects(objs_model(modified_objects@), start as nat);
            &&& res.0@ == a.0
            &&& entries_view(res.1@) == a.1
            &&& res.2 == a.2
        }),
{
    let ghost objs = objs_model(modified_objects@);
    let ghost full = appended_objects(objs, start as nat);
    let mut out: Vec<u8> = Vec::new();
    let mut offset: u64 = start;
    let mut entries: Vec<(u32, u16, u64)> = Vec::new();
    let mut i: usize = 0;
    assert(objs.subrange(0, 0) =~= Seq::<(ObjectId, ObjModel)>::empty());
    assert(entries_view(entries@) =~= Seq::<(u32, u16, nat)>::empty());
    while i < modified_objects.len()
        invariant
            i <= modified_objects@.len(),
            objs == objs_model(modified_objects@),
            objs.len() == modified_objects@.len(),
            full == appended_objects(objs, start as nat),
            full.2 <= u64::MAX,
            out@ == appended_objects(objs.subrange(0, i as int), start as nat).0,
            entries_view(entries@) == appended_objects(objs.subrange(0, i as int), start as nat).1,
            offset == appended_objects(objs.subrange(0, i as int), start as nat).2,
        decreases modified_objects@.len() - i,
    {
        let entry = &modified_objects[i];
        let id = entry.0;
        let hlen = header_len(id.object_number, id.generation_number);
        let mut body = serialize_object(&entry.1);
        let blen = body.len() as u64;
        proof {
            let p = objs.subrange(0, i + 1);
            assert(p.drop_last() =~= objs.subrange(0, i as int));
            assert(p.last() == (id, entry.1@));
            lemma_appended_prefix(objs, start as nat, i + 1);
        }
        let ghost before_entries = entries@;
        entries.push((id.object_number, id.generation_number, offset));
        assert(entries_view(entries@) =~= entries_view(before_entries).push(
            (id.object_number, id.generation_number, offset as nat),
        ));
        let ghost before_out = out@;
        push_number(&mut out, id.object_number as u64);
        out.push(32u8);
        push_number(&mut out, id.generation_number as u64);
        push_all(&mut out, &[32u8, 111, 98, 106, 10]);
        out.append(&mut body);
        push_all(&mut out, &[10u8, 101, 110, 100, 111, 98, 106, 10]);
        proof {
            let h = obj_header_text(id.object_number, id.generation_number);
            assert(out@ =~= before_out + h + object_text(entry.1@) + endobj_footer());
        }
        offset = offset + hlen + blen + 8;
        i = i + 1;
    }
    assert(objs.subrange(0, objs.len() as int) =~= objs);
    (out, entries, offset)
}

/// A finite set of object numbers has a largest one, which `max_key` names.
pub proof fn lemma_max_key(s: Set<u32>)
    requires
        s.finite(),
    ensures
        forall|k: u32| s.contains(k) ==> k <= max_key(s),
        !s.is_empty() ==> s.contains(max_key(s)),
    decreases s.len(),
{
    if !s.is_empty() {
        let x = s.choose();
        let r = s.remove(x);
        lemma_max_key(r);
        let m: u32 = if r.is_empty() || x >= max_key(r) {
            x
        } else {
            max_key(r)
        };
        assert(s.contains(m) && forall|k: u32| s.contains(k) ==> k <= m) by {
            assert forall|k: u32| s.contains(k) implies k <= m by {
                if k != x {
                    assert(r.contains(k));
                }
            }
        }
    }
}

/// The largest of `m` and the entries' object numbers is at least each of them.
pub proof fn lemma_max_entry_number(m: u32, entries: Seq<(u32, u16, nat)>)
    ensures
        m <= max_entry_number(m, entries),
        forall|j: int| 0 <= j < entries.len() ==> #[trigger] entries[j].0 <= max_entry_number(m, entries),
    decreases entries.len(),
{
    if entries.len() > 0 {
        lemma_max_entry_number(m, entries.drop_last());
        assert forall|j: int| 0 <= j < entries.len() implies #[trigger] entries[j].0 <= max_entry_number(
            m,
            entries,
        ) by {
            if j < entries.len() - 1 {
                assert(entries[j] == entries.drop_last()[j]);
            }
        }
    }
}

/// The table entries of appended objects are theirs, in order.
pub proof fn lemma_appended_entries(objs: Seq<(ObjectId, ObjModel)>, start: nat)
    ensures
        appended_objects(objs, start).1.len() == objs.len(),
        forall|j: int| 0 <= j < objs.len() ==> #[trigger] appended_objects(objs, start).1[j].0
            == objs[j].0.object_number,
    decreases objs.len(),
{
    if objs.len() > 0 {
        lemma_appended_entries(objs.drop_last(), start);
        assert forall|j: int| 0 <= j < objs.len() implies #[trigger] appended_objects(objs, start).1[j].0
            == objs[j].0.object_number by {
            if j < objs.len() - 1 {
                assert(objs[j] == objs.drop_last()[j]);
            }
        }
    }
}

/// The `/Size` an incremental update writes is above the number of every object
/// of the table the document was read with and of every appended object.
pub proof fn law_incremental_size_covers_all_objects(
    keys: Set<u32>,
    file_size: u64,
    objs: Seq<(ObjectId, ObjModel)>,
)
    requires
        keys.finite(),
    ensures
        forall|k: u32|
            keys.contains(k) ==> k < max_entry_number(
                max_key(keys),
                appended_objects(objs, (file_size + 1) as nat).1,
            ) + 1,
        forall|j: int|
            0 <= j < objs.len() ==> #[trigger] objs[j].0.object_number < max_entry_number(
                max_key(keys),
                appended_objects(objs, (file_size + 1) as nat).1,
            ) + 1,
{
    let a = appended_objects(objs, (file_size + 1) as nat);
    lemma_max_key(keys);
    lemma_max_entry_number(max_key(keys), a.1);
    lemma_appended_entries(objs, (file_size + 1) as nat);
    assert forall|j: int| 0 <= j < objs.len() implies #[trigger] objs[j].0.object_number
        < max_entry_number(max_key(keys), a.1) + 1 by {
        assert(a.1[j].0 == objs[j].0.object_number);
    }
}

/// Writes one subsection per entry and returns the largest object number
/// among `mx0` and the entries.
fn write_entries(out: &mut Vec<u8>, entries: &Vec<(u32, u16, u64)>, mx0: u32) -> (mx: u32)
    ensures
        final(out)@ == old(out)@ + incremental_xref_lines(entries_view(entries@)),
        mx == max_entry_number(mx0, entries_view(entries@)),
{
    let ghost es = entries_view(entries@);
    let mut mx = mx0;
    let mut j: usize = 0;
    while j < entries.len()
        invariant
            j <= entries@.len(),
            es == entries_view(entries@),
            out@ == old(out)@ + incremental_xref_lines(es.subrange(0, j as int)),
            mx == max_entry_number(mx0, es.subrange(0, j as int)),
        decreases entries@.len() - j,
    {
        let e = entries[j];
        let ghost before = out@;
        push_number(out, e.0 as u64);
        push_all(out, &[32u8, 49, 10]);
        let mut off_text = padded_u64_text(e.2, 10);
        out.append(&mut off_text);
        out.push(32u8);
        let mut gen_text = padded_u64_text(e.1 as u64, 5);
        out.append(&mut gen_text);
        push_all(out, &[32u8, 110, 13, 10]);
        if e.0 > mx {
            mx = e.0;
        }
        proof {
            let p = es.subrange(0, j + 1);
            assert(p.drop_last() =~= es.subrange(0, j as int));
            assert(p.last() == es[j as int]);
            assert(out@ =~= before + nat_text(e.0 as nat) + seq![32u8, 49u8, 10u8] + in_use_line(
                e.2 as nat,
                e.1,
            ));
        }
        j = j + 1;
    }
    assert(es.subrange(0, es.len() as int) =~= es);
    mx
}

impl PdfDocument {
    /// The bytes that an incremental update appends to the file of `file_size`
    /// bytes this document was read from: the modified objects, a table of
    /// their offsets and a trailer pointing back to the previous table.
    pub fn incremental_update_bytes(&self, file_size: u64, modified_objects: &[(ObjectId, PdfObject)]) -> (res: Vec<u8>)
        requires
            incremental_fits(self.xref_table.entries@.dom(), file_size, objs_model(modified_objects@)),
        ensures
            res@ == incremental_text(
                self.xref_table.entries@.dom(),
                self.original_startxref,
                file_size,
                objs_model(modified_objects@),
            ),
    {
        let ghost objs = objs_model(modified_objects@);
        proof {
            lemma_appended_prefix(objs, (file_size + 1) as nat, 0);
        }
        let (mut body, entries, offset) = write_objects(modified_objects, file_size + 1);
        let mut out: Vec<u8> = Vec::new();
        out.push(10u8);
        out.append(&mut body);
        push_all(&mut out, &[120u8, 114, 101, 102, 10]);
        let mx0 = max_table_key(&self.xref_table.entries);
        let mx = write_entries(&mut out, &entries, mx0);
        push_all(
            &mut out,
            &[116u8, 114, 97, 105, 108, 101, 114, 10, 60, 60, 32, 47, 83, 105, 122, 101, 32],
        );
        push_number(&mut out, (mx + 1) as u64);
        match self.original_startxref {
            Some(prev) => {
                push_all(&mut out, &[32u8, 47, 80, 114, 101, 118, 32]);
                push_number(&mut out, prev);
                out.push(32u8);
            },
            None => {},
        }
        push_all(&mut out, &[62u8, 62, 10]);
        push_all(&mut out, &[115u8, 116, 97, 114, 116, 120, 114, 101, 102, 10]);
        push_number(&mut out, offset);
        push_all(&mut out, &[10u8, 37, 37, 69, 79, 70, 10]);
        assert(out@ =~= incremental_text(
            self.xref_table.entries@.dom(),
            self.original_startxref,
            file_size,
            objs,
        ));
        out
    }
}

impl PdfDocument {
    /// Like `incremental_update_bytes`, but first checks that the offsets and
    /// the table size fit their types: `None` when they do not.
    pub fn incremental_update_bytes_checked(&self, file_size: u64, modified_objects: &[(ObjectId, PdfObject)]) -> (res:
        Option<Vec<u8>>)
        ensures
            incremental_fits(self.xref_table.entries@.dom(), file_size, objs_model(modified_objects@))
                ==> (res matches Some(v) && v@ == incremental_text(
                self.xref_table.entries@.dom(),
                self.original_startxref,
                file_size,
                objs_model(modified_objects@),
            )),
            !incremental_fits(self.xref_table.entries@.dom(), file_size, objs_model(modified_objects@))
                ==> res is None,
    {
        let ghost objs = objs_model(modified_objects@);
        let ghost keys = self.xref_table.entries@.dom();
        if file_size == u64::MAX {
            proof {
                lemma_appended_prefix(objs, (file_size + 1) as nat, 0);
            }
            return None;
        }
        let start: u64 = file_size + 1;
        let mx0 = max_table_key(&self.xref_table.entries);
        let mut mx: u32 = mx0;
        let mut off: u64 = start;
        let mut i: usize = 0;
        assert(objs.subrange(0, 0) =~= Seq::<(ObjectId, ObjModel)>::empty());
        while i < modified_objects.len()
            invariant
                i <= modified_objects@.len(),
                objs == objs_model(modified_objects@),
                objs.len() == modified_objects@.len(),
                start == file_size + 1,
                mx0 == max_key(keys),
                keys == self.xref_table.entries@.dom(),
                off == appended_objects(objs.subrange(0, i as int), start as nat).2,
                mx == max_entry_number(mx0, appended_objects(objs.subrange(0, i as int), start as nat).1),
            decreases modified_objects@.len() - i,
        {
            let entry = &modified_objects[i];
            let id = entry.0;
            let hlen = header_len(id.object_number, id.generation_number);
            let blen = serialize_object(&entry.1).len() as u64;
            proof {
                let p = objs.subrange(0, i + 1);
                assert(p.drop_last() =~= objs.subrange(0, i as int));
                assert(p.last() == (id, entry.1@));
                lemma_appended_prefix(objs, start as nat, i + 1);
            }
            let a = match off.checked_add(hlen) {
                Some(v) => v,
                None => {
                    return None;
                },
            };
            let b = match a.checked_add(blen) {
                Some(v) => v,
                None => {
                    return None;
                },
            };
            off = match b.checked_add(8) {
                Some(v) => v,
                None => {
                    return None;
                },
            };
            if id.object_number > mx {
                mx = id.object_number;
            }
            proof {
                let p = objs.subrange(0, i + 1);
                let r = appended_objects(objs.subrange(0, i as int), start as nat);
                let es = appended_objects(p, start as nat).1;
                assert(es == r.1.push((id.object_number, id.generation_number, r.2)));
                assert(es.drop_last() =~= r.1);
            }
            i = i + 1;
        }
        assert(objs.subrange(0, objs.len() as int) =~= objs);
        if mx == u32::MAX {
            return None;
        }
        Some(self.incremental_update_bytes(file_size, modified_objects))
    }
}

// ---------------------------------------------------------------- reachable objects

/// The references an object holds, in the order they are written.
pub open spec fn refs_of(o: ObjModel) -> Seq<ObjectId>
    decreases o,
{
    match o {
        ObjModel::Reference(id) => seq![id],
        ObjModel::Array(a) => refs_of_items(a),
        ObjModel::Dictionary(d) => refs_of_entries(d),
        ObjModel::Stream(d, _) => refs_of_entries(d),
        _ => Seq::empty(),
    }
}

pub open spec fn refs_of_items(s: Seq<ObjModel>) -> Seq<ObjectId>
    decreases s,
{
    if s.len() == 0 {
        Seq::empty()
    } else {
        refs_of_items(s.drop_last()) + refs_of(s.last())
    }
}

pub open spec fn refs_of_entries(d: DictModel) -> Seq<ObjectId>
    decreases d,
{
    if d.len() == 0 {
        Seq::empty()
    } else {
        refs_of_entries(d.drop_last()) + refs_of(d.last().1)
    }
}

/// Appends the references an object holds.
fn collect_refs(obj: &PdfObject, out: &mut Vec<ObjectId>)
    ensures
        final(out)@ == old(out)@ + refs_of(obj@),
    decreases obj,
{
    match obj {
        PdfObject::Reference(id) => {
            out.push(*id);
        },
        PdfObject::Array(arr) => {
            let ghost a = crate::object::objects_model(arr@);
            proof {
                lemma_objects_model(arr@);
            }
            let mut i: usize = 0;
            while i < arr.len()
                invariant
                    *obj == PdfObject::Array(*arr),
                    i <= arr@.len(),
                    a == crate::object::objects_model(arr@),
                    a.len() == arr@.len(),
                    forall|k: int| 0 <= k < arr@.len() ==> #[trigger] a[k] == arr@[k]@,
                    out@ == old(out)@ + refs_of_items(a.subrange(0, i as int)),
                decreases arr@.len() - i,
            {
                assert(decreases_to!(*obj => obj->Array_0));
                assert(decreases_to!(*arr => arr@[i as int]));
                collect_refs(&arr[i], out);
                proof {
                    let p = a.subrange(0, i + 1);
                    assert(p.drop_last() =~= a.subrange(0, i as int));
                }
                i = i + 1;
            }
            assert(a.subrange(0, a.len() as int) =~= a);
        },
        PdfObject::Dictionary(d) => {
            collect_dict_refs(d, out);
        },
        PdfObject::Stream(s) => {
            collect_dict_refs(&s.dict, out);
        },
        _ => {
            assert(old(out)@ + Seq::<ObjectId>::empty() =~= old(out)@);
        },
    }
}

/// Appends the references held by the values of a dictionary.
fn collect_dict_refs(dict: &PdfDictionary, out: &mut Vec<ObjectId>)
    ensures
        final(out)@ == old(out)@ + refs_of_entries(dict@),
    decreases dict,
{
    let ghost d = dict@;
    proof {
        lemma_entries_model(dict.entries@);
    }
    let mut i: usize = 0;
    while i < dict.entries.len()
        invariant
            i <= dict.entries@.len(),
            d == dict@,
            d.len() == dict.entries@.len(),
            forall|j: int|
                0 <= j < dict.entries@.len() ==> #[trigger] d[j] == (
                    dict.entries@[j].0@,
                    dict.entries@[j].1@,
                ),
            out@ == old(out)@ + refs_of_entries(d.subrange(0, i as int)),
        decreases dict.entries@.len() - i,
    {
        collect_refs(&dict.entries[i].1, out);
        proof {
            let p = d.subrange(0, i + 1);
            assert(p.drop_last() =~= d.subrange(0, i as int));
            assert(p.last() == d[i as int]);
        }
        i = i + 1;
    }
    assert(d.subrange(0, d.len() as int) =~= d);
}

/// The objects an object of the document points to; none when it does not load.
pub open spec fn links(doc: PdfDocument, id: ObjectId) -> Seq<ObjectId> {
    match load_spec(doc, id) {
        Ok(o) => refs_of(o),
        Err(_) => Seq::empty(),
    }
}

/// The objects reached from the roots in at most `n` steps.
pub open spec fn reach_within(doc: PdfDocument, roots: Seq<ObjectId>, n: nat) -> Set<ObjectId>
    decreases n,
{
    if n == 0 {
        roots.to_set()
    } else {
        let r = reach_within(doc, roots, (n - 1) as nat);
        r + Set::new(|x: ObjectId| exists|y: ObjectId| r.contains(y) && #[trigger] links(doc, y).contains(x))
    }
}

/// Whether an object can be reached from the roots by following references
/// through objects that load.
pub open spec fn reachable(doc: PdfDocument, roots: Seq<ObjectId>, id: ObjectId) -> bool {
    exists|n: nat| #[trigger] reach_within(doc, roots, n).contains(id)
}

pub proof fn lemma_reach_step(doc: PdfDocument, roots: Seq<ObjectId>, y: ObjectId, x: ObjectId)
    requires
        reachable(doc, roots, y),
        links(doc, y).contains(x),
    ensures
        reachable(doc, roots, x),
{
    let n = choose|n: nat| #[trigger] reach_within(doc, roots, n).contains(y);
    assert(reach_within(doc, roots, n + 1).contains(x));
}

pub proof fn lemma_reach_closed(doc: PdfDocument, roots: Seq<ObjectId>, vis: Seq<ObjectId>, n: nat)
    requires
        forall|x: ObjectId| roots.contains(x) ==> vis.contains(x),
        forall|y: ObjectId, x: ObjectId|
            #![trigger vis.contains(y), links(doc, y).contains(x)]
            vis.contains(y) && links(doc, y).contains(x) ==> vis.contains(x),
    ensures
        forall|x: ObjectId| reach_within(doc, roots, n).contains(x) ==> vis.contains(x),
    decreases n,
{
    if n > 0 {
        lemma_reach_closed(doc, roots, vis, (n - 1) as nat);
        let r = reach_within(doc, roots, (n - 1) as nat);
        assert forall|x: ObjectId| reach_within(doc, roots, n).contains(x) implies vis.contains(x) by {
            if !r.contains(x) {
                let y = choose|y: ObjectId| r.contains(y) && #[trigger] links(doc, y).contains(x);
                assert(vis.contains(y));
            }
        }
    }
}

/// The key that identifies an object id among all of them.
pub open spec fn id_key(id: ObjectId) -> int {
    id.object_number * 65536 + id.generation_number
}

fn id_key_exec(id: ObjectId) -> (res: u64)
    ensures
        res == id_key(id),
        res < 0x1_0000_0000_0000,
{
    (id.object_number as u64) * 65536 + (id.generation_number as u64)
}

proof fn lemma_id_key_injective(a: ObjectId, b: ObjectId)
    requires
        id_key(a) == id_key(b),
    ensures
        a == b,
{
    assert(a.object_number == b.object_number && a.generation_number == b.generation_number)
        by (nonlinear_arith)
        requires
            a.object_number * 65536 + a.generation_number == b.object_number * 65536
                + b.generation_number,
            a.generation_number < 65536,
            b.generation_number < 65536,
    ;
}

/// There are at most 2^48 keys.
proof fn lemma_key_set_bound(s: Set<u64>)
    requires
        s.finite(),
        forall|k: u64| s.contains(k) ==> k < 0x1_0000_0000_0000,
    ensures
        s.len() <= 0x1_0000_0000_0000,
{
    let f = |k: u64| k as int;
    let t = s.map(f);
    assert(vstd::relations::injective_on(f, s));
    vstd::set_lib::lemma_map_size(s, t, f);
    vstd::set_lib::lemma_int_range(0, 0x1_0000_0000_0000);
    assert(t.subset_of(vstd::set_lib::set_int_range(0, 0x1_0000_0000_0000)));
    vstd::set_lib::lemma_len_subset(t, vstd::set_lib::set_int_range(0, 0x1_0000_0000_0000));
}

proof fn lemma_seq_pop(old_work: Seq<ObjectId>, w: Seq<ObjectId>, id: ObjectId)
    requires
        old_work == w.push(id),
    ensures
        forall|x: ObjectId| #[trigger] old_work.contains(x) ==> w.contains(x) || x == id,
        forall|x: ObjectId| #[trigger] w.contains(x) ==> old_work.contains(x),
{
    assert forall|x: ObjectId| #[trigger] old_work.contains(x) implies w.contains(x) || x == id by {
        let j = choose|j: int| 0 <= j < old_work.len() && old_work[j] == x;
        if j < w.len() {
            assert(w[j] == x);
        }
    }
    assert forall|x: ObjectId| #[trigger] w.contains(x) implies old_work.contains(x) by {
        let j = choose|j: int| 0 <= j < w.len() && w[j] == x;
        assert(old_work[j] == x);
    }
}

proof fn lemma_seq_extend(w: Seq<ObjectId>, refs: Seq<ObjectId>, w2: Seq<ObjectId>)
    requires
        w2 == w + refs,
    ensures
        forall|x: ObjectId| #[trigger] w2.contains(x) <==> w.contains(x) || refs.contains(x),
{
    assert forall|x: ObjectId| #[trigger] w2.contains(x) <==> w.contains(x) || refs.contains(x) by {
        if w2.contains(x) {
            let j = choose|j: int| 0 <= j < w2.len() && w2[j] == x;
            if j >= w.len() {
                assert(refs[j - w.len()] == x);
            }
        }
        if w.contains(x) {
            let j = choose|j: int| 0 <= j < w.len() && w[j] == x;
            assert(w2[j] == x);
        }
        if refs.contains(x) {
            let j = choose|j: int| 0 <= j < refs.len() && refs[j] == x;
            assert(w2[w.len() + j] == x);
        }
    }
}

/// The objects reachable from the roots, each once.
#[verifier::rlimit(40)]
fn mark_reachable(doc: &PdfDocument, roots: Vec<ObjectId>) -> (res: Vec<ObjectId>)
    ensures
        res@.no_duplicates(),
        forall|id: ObjectId| res@.contains(id) <==> reachable(*doc, roots@, id),
{
    let ghost r0 = roots@;
    let mut visited: Vec<ObjectId> = Vec::new();
    let mut seen: HashSet<u64> = HashSet::new();
    let mut work: Vec<ObjectId> = roots;
    proof {
        assert forall|x: ObjectId| work@.contains(x) implies reachable(*doc, r0, x) by {
            assert(reach_within(*doc, r0, 0).contains(x));
        }
    }
    loop
        invariant
            seen@.finite(),
            seen@.len() == visited@.len(),
            forall|k: u64| seen@.contains(k) ==> k < 0x1_0000_0000_0000,
            forall|k: u64|
                seen@.contains(k) <==> exists|i: int|
                    0 <= i < visited@.len() && id_key(#[trigger] visited@[i]) == k,
            visited@.no_duplicates(),
            forall|x: ObjectId| visited@.contains(x) ==> reachable(*doc, r0, x),
            forall|x: ObjectId| work@.contains(x) ==> reachable(*doc, r0, x),
            forall|x: ObjectId| r0.contains(x) ==> visited@.contains(x) || work@.contains(x),
            forall|y: ObjectId, x: ObjectId|
                #![trigger visited@.contains(y), links(*doc, y).contains(x)]
                visited@.contains(y) && links(*doc, y).contains(x) ==> visited@.contains(x)
                    || work@.contains(x),
        ensures
            visited@.no_duplicates(),
            forall|x: ObjectId| visited@.contains(x) ==> reachable(*doc, r0, x),
            forall|x: ObjectId| r0.contains(x) ==> visited@.contains(x),
            forall|y: ObjectId, x: ObjectId|
                #![trigger visited@.contains(y), links(*doc, y).contains(x)]
                visited@.contains(y) && links(*doc, y).contains(x) ==> visited@.contains(x),
        decreases 0x1_0000_0000_0000 - visited@.len(), work@.len(),
    {
        proof {
            lemma_key_set_bound(seen@);
        }
        let ghost old_work = work@;
        let ghost old_visited = visited@;
        match work.pop() {
            None => {
                break;
            },
            Some(id) => {
                assert(old_work == work@.push(id));
                proof {
                    lemma_seq_pop(old_work, work@, id);
                }
                let k = id_key_exec(id);
                let ghost old_seen = seen@;
                if !seen.insert(k) {
                    proof {
                        let i = choose|i: int| 0 <= i < visited@.len() && id_key(visited@[i]) == k;
                        lemma_id_key_injective(visited@[i], id);
                        assert(visited@.contains(id));
                    }
                    continue;
                }
                proof {
                    lemma_key_set_bound(seen@);
                    assert(!visited@.contains(id)) by {
                        if visited@.contains(id) {
                            let i = choose|i: int| 0 <= i < visited@.len() && visited@[i] == id;
                            assert(id_key(visited@[i]) == k);
                            assert(old_seen.contains(k));
                        }
                    }
                }
                visited.push(id);
                let ghost before_refs = work@;
                match load_object(doc, id) {
                    Ok(o) => {
                        collect_refs(&o, &mut work);
                    },
                    Err(_) => {},
                }
                proof {
                    assert(work@ =~= before_refs + links(*doc, id));
                    lemma_seq_extend(before_refs, links(*doc, id), work@);
                    lemma_seq_pop(visited@, old_visited, id);
                    assert(visited@[visited@.len() - 1] == id);
                    assert(visited@.contains(id));
                    assert forall|x: ObjectId| work@.contains(x) implies reachable(*doc, r0, x) by {
                        if links(*doc, id).contains(x) {
                            lemma_reach_step(*doc, r0, id, x);
                        }
                    }
                    assert forall|k2: u64| seen@.contains(k2) <==> exists|i: int|
                        0 <= i < visited@.len() && id_key(#[trigger] visited@[i]) == k2 by {
                        if seen@.contains(k2) && k2 != k {
                            let i = choose|i: int| 0 <= i < old_visited.len() && id_key(old_visited[i]) == k2;
                            assert(visited@[i] == old_visited[i]);
                        }
                        if seen@.contains(k2) && k2 == k {
                            assert(visited@[old_visited.len() as int] == id);
                        }
                        if exists|i: int| 0 <= i < visited@.len() && id_key(#[trigger] visited@[i]) == k2 {
                            let i = choose|i: int| 0 <= i < visited@.len() && id_key(#[trigger] visited@[i]) == k2;
                            if i < old_visited.len() {
                                assert(old_visited[i] == visited@[i]);
                            }
                        }
                    }
                }
            },
        }
    }
    proof {
        assert forall|id: ObjectId| reachable(*doc, r0, id) implies visited@.contains(id) by {
            let n = choose|n: nat| #[trigger] reach_within(*doc, r0, n).contains(id);
            lemma_reach_closed(*doc, r0, visited@, n);
        }
    }
    visited
}

// ---------------------------------------------------------------- ordering ids

/// Ids in strictly increasing order of object number, then generation.
pub open spec fn strictly_sorted(s: Seq<ObjectId>) -> bool {
    forall|i: int, j: int| 0 <= i < j < s.len() ==> id_key(s[i]) < id_key(s[j])
}

/// Sorts with `slice::sort_unstable`. Claims: the same values, as a multiset,
/// in ascending order.
#[verifier::external_body]
fn sort_keys(v: &mut Vec<u64>)
    ensures
        final(v)@.to_multiset() == old(v)@.to_multiset(),
        forall|i: int, j: int| 0 <= i <= j < final(v)@.len() ==> final(v)@[i] <= final(v)@[j],
{
    v.sort_unstable()
}

fn id_of_key(k: u64) -> (res: ObjectId)
    requires
        k < 0x1_0000_0000_0000,
    ensures
        id_key(res) == k,
{
    let res = ObjectId { object_number: (k / 65536) as u32, generation_number: (k % 65536) as u16 };
    assert(id_key(res) == k) by (nonlinear_arith)
        requires
            res.object_number == k / 65536,
            res.generation_number == k % 65536,
            k < 0x1_0000_0000_0000,
    ;
    res
}

/// The ids of a list in increasing order.
fn sort_ids(v: &Vec<ObjectId>) -> (res: Vec<ObjectId>)
    requires
        v@.no_duplicates(),
    ensures
        strictly_sorted(res@),
        forall|x: ObjectId| res@.contains(x) <==> v@.contains(x),
{
    broadcast use vstd::seq_lib::group_to_multiset_ensures;

    let mut keys: Vec<u64> = Vec::new();
    let mut i: usize = 0;
    while i < v.len()
        invariant
            i <= v@.len(),
            keys@.len() == i,
            forall|j: int| 0 <= j < i ==> #[trigger] keys@[j] == id_key(v@[j]),
        decreases v@.len() - i,
    {
        keys.push(id_key_exec(v[i]));
        i = i + 1;
    }
    let ghost before = keys@;
    proof {
        assert forall|a: int, b: int| 0 <= a < before.len() && 0 <= b < before.len() && a != b implies before[a] != before[b] by {
            if before[a] == before[b] {
                lemma_id_key_injective(v@[a], v@[b]);
            }
        }
        assert(before.no_duplicates());
        before.lemma_multiset_has_no_duplicates();
    }
    sort_keys(&mut keys);
    proof {
        keys@.lemma_multiset_has_no_duplicates_conv();
    }
    let mut out: Vec<ObjectId> = Vec::new();
    let mut j: usize = 0;
    while j < keys.len()
        invariant
            j <= keys@.len(),
            out@.len() == j,
            keys@.to_multiset() == before.to_multiset(),
            before.len() == v@.len(),
            forall|a: int| 0 <= a < before.len() ==> before[a] == id_key(v@[a]),
            forall|a: int| 0 <= a < j ==> id_key(#[trigger] out@[a]) == keys@[a],
        decreases keys@.len() - j,
    {
        let k = keys[j];
        proof {
            keys@.to_multiset_ensures();
            before.to_multiset_ensures();
            assert(keys@.contains(k));
            assert(keys@.to_multiset().count(k) > 0);
            assert(before.to_multiset().count(k) > 0);
            assert(before.contains(k));
            let a = choose|a: int| 0 <= a < before.len() && before[a] == k;
        }
        out.push(id_of_key(k));
        j = j + 1;
    }
    proof {
        keys@.to_multiset_ensures();
        before.to_multiset_ensures();
        assert forall|a: int, b: int| 0 <= a < b < out@.len() implies id_key(out@[a]) < id_key(out@[b]) by {
            assert(keys@[a] <= keys@[b]);
            assert(keys@[a] != keys@[b]);
        }
        assert forall|x: ObjectId| out@.contains(x) <==> v@.contains(x) by {
            if out@.contains(x) {
                let a = choose|a: int| 0 <= a < out@.len() && out@[a] == x;
                assert(keys@.contains(keys@[a]));
                assert(keys@.to_multiset().count(keys@[a]) > 0);
                assert(before.to_multiset().count(keys@[a]) > 0);
                assert(before.contains(keys@[a]));
                let b = choose|b: int| 0 <= b < before.len() && before[b] == keys@[a];
                lemma_id_key_injective(v@[b], x);
            }
            if v@.contains(x) {
                let b = choose|b: int| 0 <= b < v@.len() && v@[b] == x;
                assert(before.contains(before[b]));
                assert(before.to_multiset().count(before[b]) > 0);
                assert(keys@.to_multiset().count(before[b]) > 0);
                assert(keys@.contains(before[b]));
                let a = choose|a: int| 0 <= a < keys@.len() && keys@[a] == before[b];
                lemma_id_key_injective(out@[a], x);
            }
        }
    }
    out
}

// ---------------------------------------------------------------- full rewrite

/// The roots of a full rewrite: the `/Info` dictionary when the trailer names
/// one, and the `/Root` catalog, which it must name.
pub open spec fn optimized_roots(trailer: DictModel) -> Result<Seq<ObjectId>, ErrModel> {
    match dict_get(trailer, "Root"@) {
        Some(ObjModel::Reference(root)) => Ok(
            match dict_get(trailer, "Info"@) {
                Some(ObjModel::Reference(info)) => seq![info, root],
                _ => seq![root],
            },
        ),
        _ => Err(ErrModel::MissingRoot),
    }
}

/// A listing of the reachable objects: each once, in increasing order.
pub open spec fn reachable_listing(doc: PdfDocument, roots: Seq<ObjectId>, ids: Seq<ObjectId>) -> bool {
    &&& strictly_sorted(ids)
    &&& forall|x: ObjectId| ids.contains(x) <==> reachable(doc, roots, x)
}

/// The objects written by a full rewrite from `start`: each that loads, with its
/// header, body and `endobj`; their table entries; and the offset after them.
pub open spec fn optimized_objects(doc: PdfDocument, ids: Seq<ObjectId>, start: nat) -> (
    Seq<u8>,
    Seq<(u32, u16, nat)>,
    nat,
)
    decreases ids.len(),
{
    if ids.len() == 0 {
        (Seq::empty(), Seq::empty(), start)
    } else {
        let r = optimized_objects(doc, ids.drop_last(), start);
        let id = ids.last();
        match load_spec(doc, id) {
            Err(_) => r,
            Ok(o) => {
                let h = obj_header_text(id.object_number, id.generation_number);
                let body = object_text(o);
                (
                    r.0 + h + body + endobj_footer(),
                    r.1.push((id.object_number, id.generation_number, r.2)),
                    r.2 + h.len() + body.len() + 8,
                )
            },
        }
    }
}

/// A free entry line of a table.
pub open spec fn free_line() -> Seq<u8> {
    // `0000000000 00000 f \r\n`
    seq![48u8, 48, 48, 48, 48, 48, 48, 48, 48, 48, 32, 48, 48, 48, 48, 48, 32, 102, 32, 13, 10]
}

/// The generation and offset of the first entry for an object number.
pub open spec fn entry_for(entries: Seq<(u32, u16, nat)>, n: u32) -> Option<(u16, nat)>
    decreases entries.len(),
{
    if entries.len() == 0 {
        None
    } else if entries[0].0 == n {
        Some((entries[0].1, entries[0].2))
    } else {
        entry_for(entries.drop_first(), n)
    }
}

/// The table lines for object numbers `i..=max_id`, walking the listed ids
/// from `idx`: a number that is the next listed id gets the entry written for
/// it (or a free line when its object did not load), any other a free line.
pub open spec fn table_lines(ids: Seq<ObjectId>, entries: Seq<(u32, u16, nat)>, i: nat, idx: nat, max_id: nat) -> Seq<u8>
    decreases max_id + 1 - i,
{
    if i > max_id {
        Seq::empty()
    } else if idx < ids.len() && ids[idx as int].object_number == i {
        (match entry_for(entries, i as u32) {
            Some((g, off)) => in_use_line(off, g),
            None => free_line(),
        }) + table_lines(ids, entries, i + 1, idx + 1, max_id)
    } else {
        free_line() + table_lines(ids, entries, i + 1, idx, max_id)
    }
}

/// The dictionary without its first entry for a key.
pub open spec fn dict_without(d: DictModel, key: Seq<char>) -> DictModel {
    match dict_key_index(d, key) {
        Some(i) => d.remove(i),
        None => d,
    }
}

/// The trailer of a full rewrite: `/Size` set, `/Prev` dropped.
pub open spec fn rewritten_trailer(trailer: DictModel, size: nat) -> DictModel {
    dict_without(dict_insert(trailer, "Size"@, ObjModel::Integer(size as i32)), "Prev"@)
}

/// `%PDF-`, the version and a newline, then a comment of four high bytes.
pub open spec fn file_head(version: Seq<char>) -> Seq<u8> {
    seq![37u8, 80, 68, 70, 45] + encode_utf8(version) + seq![10u8] + seq![37u8, 0xE2, 0xE3, 0xCF, 0xD3, 10]
}

pub open spec fn max_listed(ids: Seq<ObjectId>) -> nat {
    if ids.len() == 0 {
        0
    } else {
        ids.last().object_number as nat
    }
}

/// The file a full rewrite writes, given the listing of the objects to keep.
pub open spec fn optimized_text(doc: PdfDocument, trailer: DictModel, ids: Seq<ObjectId>) -> Seq<u8> {
    let head = file_head(doc.version@);
    let o = optimized_objects(doc, ids, head.len());
    let max_id = max_listed(ids);
    head + o.0
        // `xref\n0 `
        + seq![120u8, 114, 101, 102, 10, 48, 32] + nat_text(max_id + 1) + seq![10u8]
        // the free head of the list of free objects
        + seq![48u8, 48, 48, 48, 48, 48, 48, 48, 48, 48, 32, 54, 53, 53, 51, 53, 32, 102, 32, 13, 10]
        + table_lines(ids, o.1, 1, 0, max_id)
        // `trailer\n`
        + seq![116u8, 114, 97, 105, 108, 101, 114, 10]
        + object_text(ObjModel::Dictionary(rewritten_trailer(trailer, max_id + 1))) + seq![10u8]
        + eof_block(o.2)
}

/// Reading a fully rewritten file by its own table finds what was written:
/// each in-use entry gives the offset of its object's `n g obj` header, and
/// `startxref` gives the offset of the `xref` keyword of the table.
pub proof fn law_rewrite_table_points_at_objects(doc: PdfDocument, trailer: DictModel, ids: Seq<ObjectId>)
    ensures
        forall|k: int|
            0 <= k < optimized_objects(doc, ids, file_head(doc.version@).len()).1.len() ==> {
                let e = #[trigger] optimized_objects(doc, ids, file_head(doc.version@).len()).1[k];
                optimized_text(doc, trailer, ids).subrange(
                    e.2 as int,
                    (e.2 + obj_header_text(e.0, e.1).len()) as int,
                ) == obj_header_text(e.0, e.1)
            },
        optimized_text(doc, trailer, ids).subrange(
            optimized_objects(doc, ids, file_head(doc.version@).len()).2 as int,
            (optimized_objects(doc, ids, file_head(doc.version@).len()).2 + 4) as int,
        ) == seq![120u8, 114, 101, 102],
{
    let head = file_head(doc.version@);
    let o = optimized_objects(doc, ids, head.len());
    lemma_optimized_offsets(doc, ids, head);
    let text = optimized_text(doc, trailer, ids);
    let front = head + o.0;
    assert(text.subrange(0, front.len() as int) =~= front);
    assert forall|k: int| 0 <= k < o.1.len() implies {
        let e = #[trigger] o.1[k];
        text.subrange(e.2 as int, (e.2 + obj_header_text(e.0, e.1).len()) as int) == obj_header_text(
            e.0,
            e.1,
        )
    } by {
        let e = o.1[k];
        assert(text.subrange(e.2 as int, (e.2 + obj_header_text(e.0, e.1).len()) as int)
            =~= front.subrange(e.2 as int, (e.2 + obj_header_text(e.0, e.1).len()) as int));
    }
    assert(text.subrange(o.2 as int, (o.2 + 4) as int) =~= seq![120u8, 114, 101, 102]);
}

/// Whether the size of the table of a full rewrite fits its type: the largest
/// kept object number is below `u32::MAX`.
pub open spec fn optimized_fits(ids: Seq<ObjectId>) -> bool {
    max_listed(ids) < u32::MAX
}

/// The objects of a full rewrite end at `start` plus their length, and each
/// of their entries gives the offset, after a prefix of length `start`, at
/// which the object's header is written.
pub proof fn lemma_optimized_offsets(doc: PdfDocument, ids: Seq<ObjectId>, prefix: Seq<u8>)
    ensures
        optimized_objects(doc, ids, prefix.len()).2 == prefix.len() + optimized_objects(
            doc,
            ids,
            prefix.len(),
        ).0.len(),
        forall|k: int|
            0 <= k < optimized_objects(doc, ids, prefix.len()).1.len() ==> {
                let e = #[trigger] optimized_objects(doc, ids, prefix.len()).1[k];
                &&& e.2 + obj_header_text(e.0, e.1).len() <= optimized_objects(doc, ids, prefix.len()).2
                &&& (prefix + optimized_objects(doc, ids, prefix.len()).0).subrange(
                    e.2 as int,
                    (e.2 + obj_header_text(e.0, e.1).len()) as int,
                ) == obj_header_text(e.0, e.1)
            },
    decreases ids.len(),
{
    if ids.len() > 0 {
        let start = prefix.len();
        lemma_optimized_offsets(doc, ids.drop_last(), prefix);
        let r = optimized_objects(doc, ids.drop_last(), start);
        let id = ids.last();
        match load_spec(doc, id) {
            Err(_) => {},
            Ok(o) => {
                let h = obj_header_text(id.object_number, id.generation_number);
                let body = object_text(o);
                let all = optimized_objects(doc, ids, start);
                assert(all.0 == r.0 + h + body + endobj_footer());
                assert(all.1 == r.1.push((id.object_number, id.generation_number, r.2)));
                let whole = prefix + all.0;
                let old_whole = prefix + r.0;
                assert(whole =~= old_whole + h + body + endobj_footer());
                assert forall|k: int| 0 <= k < all.1.len() implies {
                    let e = #[trigger] all.1[k];
                    &&& e.2 + obj_header_text(e.0, e.1).len() <= all.2
                    &&& whole.subrange(e.2 as int, (e.2 + obj_header_text(e.0, e.1).len()) as int)
                        == obj_header_text(e.0, e.1)
                } by {
                    let e = all.1[k];
                    if k < r.1.len() {
                        assert(e == r.1[k]);
                        assert(whole.subrange(e.2 as int, (e.2 + obj_header_text(e.0, e.1).len()) as int)
                            =~= old_whole.subrange(e.2 as int, (e.2 + obj_header_text(e.0, e.1).len()) as int));
                    } else {
                        assert(e == (id.object_number, id.generation_number, r.2));
                        assert(whole.subrange(e.2 as int, (e.2 + h.len()) as int) =~= h);
                    }
                }
            },
        }
    }
}

/// Appends the listed objects that load to `out`; returns their table entries,
/// whose offsets count from the start of `out`.
fn write_kept_objects(doc: &PdfDocument, ids: &Vec<ObjectId>, out: &mut Vec<u8>) -> (entries: Vec<
    (u32, u16, u64),
>)
    ensures
        final(out)@ == old(out)@ + optimized_objects(*doc, ids@, old(out)@.len()).0,
        entries_view(entries@) == optimized_objects(*doc, ids@, old(out)@.len()).1,
{
    let ghost head = out@;
    let mut entries: Vec<(u32, u16, u64)> = Vec::new();
    let mut i: usize = 0;
    assert(ids@.subrange(0, 0) =~= Seq::<ObjectId>::empty());
    assert(entries_view(entries@) =~= Seq::<(u32, u16, nat)>::empty());
    assert(out@ =~= head + optimized_objects(*doc, ids@.subrange(0, 0), head.len()).0);
    while i < ids.len()
        invariant
            i <= ids@.len(),
            out@ == head + optimized_objects(*doc, ids@.subrange(0, i as int), head.len()).0,
            entries_view(entries@) == optimized_objects(*doc, ids@.subrange(0, i as int), head.len()).1,
        decreases ids@.len() - i,
    {
        let id = ids[i];
        let ghost done = ids@.subrange(0, i as int);
        proof {
            let p = ids@.subrange(0, i + 1);
            assert(p.drop_last() =~= done);
            assert(p.last() == id);
            lemma_optimized_offsets(*doc, done, head);
        }
        match load_object(doc, id) {
            Ok(obj) => {
                let offset = out.len() as u64;
                let mut body = serialize_object(&obj);
                let ghost before_entries = entries@;
                let ghost before_out = out@;
                entries.push((id.object_number, id.generation_number, offset));
                assert(entries_view(entries@) =~= entries_view(before_entries).push(
                    (id.object_number, id.generation_number, offset as nat),
                ));
                push_number(out, id.object_number as u64);
                out.push(32u8);
                push_number(out, id.generation_number as u64);
                push_all(out, &[32u8, 111, 98, 106, 10]);
                out.append(&mut body);
                push_all(out, &[10u8, 101, 110, 100, 111, 98, 106, 10]);
                proof {
                    let h = obj_header_text(id.object_number, id.generation_number);
                    let b = object_text(obj@);
                    assert(out@ =~= before_out + h + b + endobj_footer());
                    assert(head + optimized_objects(*doc, ids@.subrange(0, i + 1), head.len()).0
                        =~= before_out + h + b + endobj_footer());
                }
            },
            Err(_) => {},
        }
        i = i + 1;
    }
    assert(ids@.subrange(0, ids@.len() as int) =~= ids@);
    entries
}

/// The first entry written for an object number.
fn find_entry(entries: &Vec<(u32, u16, u64)>, n: u32) -> (res: Option<(u16, u64)>)
    ensures
        match entry_for(entries_view(entries@), n) {
            Some((g, off)) => res matches Some((g2, off2)) && g2 == g && off2 == off,
            None => res is None,
        },
{
    let ghost es = entries_view(entries@);
    let mut i: usize = 0;
    assert(es.subrange(0, es.len() as int) =~= es);
    while i < entries.len()
        invariant
            i <= entries@.len(),
            es == entries_view(entries@),
            entry_for(es, n) == entry_for(es.subrange(i as int, es.len() as int), n),
        decreases entries@.len() - i,
    {
        let e = entries[i];
        if e.0 == n {
            return Some((e.1, e.2));
        }
        assert(es.subrange(i as int, es.len() as int).drop_first() =~= es.subrange(
            i + 1,
            es.len() as int,
        ));
        i = i + 1;
    }
    None
}

/// Writes the table lines for object numbers 1 to `max_id`.
fn write_table_lines(out: &mut Vec<u8>, ids: &Vec<ObjectId>, entries: &Vec<(u32, u16, u64)>, max_id: u32)
    requires
        max_id < u32::MAX,
    ensures
        final(out)@ == old(out)@ + table_lines(ids@, entries_view(entries@), 1, 0, max_id as nat),
{
    let ghost es = entries_view(entries@);
    let mut id_idx: usize = 0;
    let mut i: u32 = 1;
    while i <= max_id
        invariant
            1 <= i,
            i <= max_id + 1,
            max_id < u32::MAX,
            id_idx <= ids@.len(),
            es == entries_view(entries@),
            out@ + table_lines(ids@, es, i as nat, id_idx as nat, max_id as nat) == old(out)@
                + table_lines(ids@, es, 1, 0, max_id as nat),
        decreases max_id + 1 - i,
    {
        let ghost before = out@;
        let ghost idx0 = id_idx;
        if id_idx < ids.len() && ids[id_idx].object_number == i {
            match find_entry(entries, i) {
                Some((g, off)) => {
                    let mut off_text = padded_u64_text(off, 10);
                    out.append(&mut off_text);
                    out.push(32u8);
                    let mut gen_text = padded_u64_text(g as u64, 5);
                    out.append(&mut gen_text);
                    push_all(out, &[32u8, 110, 13, 10]);
                },
                None => {
                    push_all(
                        out,
                        &[48u8, 48, 48, 48, 48, 48, 48, 48, 48, 48, 32, 48, 48, 48, 48, 48, 32, 102, 32, 13, 10],
                    );
                },
            }
            id_idx = id_idx + 1;
        } else {
            push_all(
                out,
                &[48u8, 48, 48, 48, 48, 48, 48, 48, 48, 48, 32, 48, 48, 48, 48, 48, 32, 102, 32, 13, 10],
            );
        }
        assert(out@ + table_lines(ids@, es, (i + 1) as nat, id_idx as nat, max_id as nat) =~= before
            + table_lines(ids@, es, i as nat, idx0 as nat, max_id as nat));
        i = i + 1;
    }
    assert(table_lines(ids@, es, i as nat, id_idx as nat, max_id as nat) =~= Seq::<u8>::empty());
}

impl PdfDocument {
    /// Reads and parses the indirect object `id` from the document's bytes.
    pub fn parse_object_from_stream(&self, id: ObjectId) -> (res: Result<PdfObject, PdfError>)
        ensures
            match load_spec(*self, id) {
                Ok(o) => res matches Ok(x) && x@ == o,
                Err(e) => res matches Err(x) && x@ == e,
            },
    {
        load_object(self, id)
    }
}

impl PdfDocument {
    /// The objects a full rewrite keeps: those reachable from the trailer's
    /// `/Info` and `/Root`, each once, in increasing order.
    fn kept_listing(&self, trailer: &PdfDictionary) -> (res: Result<Vec<ObjectId>, PdfError>)
        ensures
            match optimized_roots(trailer@) {
                Err(e) => res matches Err(x) && x@ == e,
                Ok(roots) => res matches Ok(ids) && reachable_listing(*self, roots, ids@),
            },
    {
        let root_id = match trailer.get("Root") {
            Some(PdfObject::Reference(id)) => *id,
            _ => {
                return Err(PdfError::MissingRoot);
            },
        };
        let mut roots: Vec<ObjectId> = Vec::new();
        match trailer.get("Info") {
            Some(PdfObject::Reference(id)) => {
                roots.push(*id);
            },
            _ => {},
        }
        roots.push(root_id);
        let ghost r0 = roots@;
        assert(r0 =~= optimized_roots(trailer@)->Ok_0);
        let visited = mark_reachable(self, roots);
        let ids = sort_ids(&visited);
        assert(reachable_listing(*self, r0, ids@));
        Ok(ids)
    }

    /// Writes a full rewrite that keeps the listed objects.
    fn rewrite_listed(&self, trailer: &PdfDictionary, ids: &Vec<ObjectId>) -> (res: Vec<u8>)
        requires
            optimized_fits(ids@),
        ensures
            res@ == optimized_text(*self, trailer@, ids@),
    {
        let mut out: Vec<u8> = Vec::new();
        push_all(&mut out, &[37u8, 80, 68, 70, 45]);
        push_all(&mut out, self.version.as_str().as_bytes());
        out.push(10u8);
        push_all(&mut out, &[37u8, 0xE2, 0xE3, 0xCF, 0xD3, 10]);
        assert(out@ =~= file_head(self.version@));
        let ghost head = out@;
        let entries = write_kept_objects(self, ids, &mut out);
        proof {
            lemma_optimized_offsets(*self, ids@, head);
        }
        let offset = out.len() as u64;
        push_all(&mut out, &[120u8, 114, 101, 102, 10, 48, 32]);
        let max_id: u32 = if ids.len() == 0 {
            0
        } else {
            ids[ids.len() - 1].object_number
        };
        assert(max_id == max_listed(ids@));
        push_number(&mut out, (max_id + 1) as u64);
        out.push(10u8);
        push_all(
            &mut out,
            &[48u8, 48, 48, 48, 48, 48, 48, 48, 48, 48, 32, 54, 53, 53, 51, 53, 32, 102, 32, 13, 10],
        );
        write_table_lines(&mut out, ids, &entries, max_id);
        push_all(&mut out, &[116u8, 114, 97, 105, 108, 101, 114, 10]);
        let mut t2 = copy_dictionary(trailer);
        let size: i32 = #[verifier::truncate] ((max_id + 1) as i32);
        t2.insert("Size", PdfObject::Integer(size));
        let _prev = t2.remove("Prev");
        let mut tb = serialize_object(&PdfObject::Dictionary(t2));
        out.append(&mut tb);
        out.push(10u8);
        push_all(&mut out, &[115u8, 116, 97, 114, 116, 120, 114, 101, 102, 10]);
        push_number(&mut out, offset);
        push_all(&mut out, &[10u8, 37, 37, 69, 79, 70, 10]);
        assert(out@ =~= optimized_text(*self, trailer@, ids@));
        out
    }

    /// The bytes of a full rewrite of the document: only the objects reachable
    /// from the trailer's `/Root` (and `/Info`) are kept, in increasing order,
    /// with a new table, and a trailer whose `/Size` is set and `/Prev` dropped.
    pub fn optimized_file_bytes(&self) -> (res: Result<Vec<u8>, PdfError>)
        requires
            match self.xref_table.trailer_dict {
                Some(t) => match optimized_roots(t@) {
                    Ok(roots) => forall|ids: Seq<ObjectId>|
                        reachable_listing(*self, roots, ids) ==> optimized_fits(ids),
                    Err(_) => true,
                },
                None => true,
            },
        ensures
            match self.xref_table.trailer_dict {
                None => res matches Err(e) && e@ == ErrModel::InvalidTrailer,
                Some(t) => match optimized_roots(t@) {
                    Err(e) => res matches Err(x) && x@ == e,
                    Ok(roots) => res matches Ok(v) && exists|ids: Seq<ObjectId>|
                        reachable_listing(*self, roots, ids) && v@ == optimized_text(*self, t@, ids),
                },
            },
    {
        let trailer = match &self.xref_table.trailer_dict {
            Some(t) => t,
            None => {
                return Err(PdfError::InvalidTrailer);
            },
        };
        let ids = self.kept_listing(trailer)?;
        assert(self.xref_table.trailer_dict == Some(*trailer));
        Ok(self.rewrite_listed(trailer, &ids))
    }

    /// Like `optimized_file_bytes`, but first checks that the table size fits:
    /// `None` when the largest kept object number is `u32::MAX`.
    pub fn optimized_file_bytes_checked(&self) -> (res: Option<Result<Vec<u8>, PdfError>>)
        ensures
            match self.xref_table.trailer_dict {
                None => res matches Some(Err(e)) && e@ == ErrModel::InvalidTrailer,
                Some(t) => match optimized_roots(t@) {
                    Err(e) => res matches Some(Err(x)) && x@ == e,
                    Ok(roots) => match res {
                        None => exists|ids: Seq<ObjectId>|
                            reachable_listing(*self, roots, ids) && !optimized_fits(ids),
                        Some(r) => r matches Ok(v) && exists|ids: Seq<ObjectId>|
                            reachable_listing(*self, roots, ids) && optimized_fits(ids) && v@
                                == optimized_text(*self, t@, ids),
                    },
                },
            },
    {
        let trailer = match &self.xref_table.trailer_dict {
            Some(t) => t,
            None => {
                return Some(Err(PdfError::InvalidTrailer));
            },
        };
        let ids = match self.kept_listing(trailer) {
            Ok(ids) => ids,
            Err(e) => {
                return Some(Err(e));
            },
        };
        assert(self.xref_table.trailer_dict == Some(*trailer));
        if ids.len() > 0 && ids[ids.len() - 1].object_number == u32::MAX {
            assert(!optimized_fits(ids@));
            return None;
        }
        let out = self.rewrite_listed(trailer, &ids);
        assert(optimized_fits(ids@) && out@ == optimized_text(*self, trailer@, ids@));
        Some(Ok(out))
    }
}

/// Two increasing lists of the same ids are the same list.
pub proof fn lemma_sorted_same_members(a: Seq<ObjectId>, b: Seq<ObjectId>)
    requires
        strictly_sorted(a),
        strictly_sorted(b),
        forall|x: ObjectId| a.contains(x) <==> b.contains(x),
    ensures
        a == b,
    decreases a.len() + b.len(),
{
    if a.len() == 0 {
        if b.len() > 0 {
            assert(b.contains(b[0]));
        }
        assert(b =~= a);
    } else if b.len() == 0 {
        assert(a.contains(a[0]));
    } else {
        assert(a.contains(a[0]));
        assert(b.contains(b[0]));
        let j = choose|j: int| 0 <= j < b.len() && b[j] == a[0];
        let i = choose|i: int| 0 <= i < a.len() && a[i] == b[0];
        if i > 0 {
            assert(id_key(a[0]) < id_key(a[i]));
        }
        if j > 0 {
            assert(id_key(b[0]) < id_key(b[j]));
        }
        assert(a[0] == b[0]);
        let a2 = a.drop_first();
        let b2 = b.drop_first();
        assert forall|x: ObjectId| a2.contains(x) <==> b2.contains(x) by {
            if a2.contains(x) {
                let k = choose|k: int| 0 <= k < a2.len() && a2[k] == x;
                assert(a[k + 1] == x);
                assert(id_key(a[0]) < id_key(a[k + 1]));
                assert(b.contains(x));
                let m = choose|m: int| 0 <= m < b.len() && b[m] == x;
                if m == 0 {
                    assert(false);
                }
                assert(b2[m - 1] == x);
            }
            if b2.contains(x) {
                let k = choose|k: int| 0 <= k < b2.len() && b2[k] == x;
                assert(b[k + 1] == x);
                assert(id_key(b[0]) < id_key(b[k + 1]));
                assert(a.contains(x));
                let m = choose|m: int| 0 <= m < a.len() && a[m] == x;
                if m == 0 {
                    assert(false);
                }
                assert(a2[m - 1] == x);
            }
        }
        lemma_sorted_same_members(a2, b2);
        assert forall|k: int| 0 <= k < a.len() implies a[k] == b[k] by {
            if k > 0 {
                assert(a[k] == a2[k - 1]);
                assert(b[k] == b2[k - 1]);
            }
        }
        assert(a =~= b);
    }
}

/// The objects a full rewrite keeps have exactly one listing, so the file it
/// writes is determined by the document.
pub proof fn law_reachable_listing_unique(doc: PdfDocument, roots: Seq<ObjectId>, a: Seq<ObjectId>, b: Seq<ObjectId>)
    requires
        reachable_listing(doc, roots, a),
        reachable_listing(doc, roots, b),
    ensures
        a == b,
{
    lemma_sorted_same_members(a, b);
}


// ---------------------------------------------------------------- reading the end of a file back

/// The decimal text of a number is made of digits and reads back as the number.
proof fn lemma_nat_text_reads_back(n: nat)
    ensures
        nat_text(n).len() >= 1,
        forall|i: int| 0 <= i < nat_text(n).len() ==> is_digit(#[trigger] nat_text(n)[i]),
        all_char_digits(latin1_chars(nat_text(n))),
        digits_value(latin1_chars(nat_text(n))) == n,
    decreases n,
{
    lemma_nat_digit_values(n);
    if n >= 10 {
        lemma_nat_text_reads_back(n / 10);
        let t = nat_text(n);
        let t0 = nat_text(n / 10);
        assert(t =~= t0.push(((n % 10) + 48) as u8));
        let s = latin1_chars(t);
        assert(s.subrange(0, s.len() - 1) =~= latin1_chars(t0));
        let c = ((n % 10) + 48) as u8;
        assert(s[s.len() - 1] == c as char);
        assert(crate::numbers::digit_value(c as char) == n % 10);
        assert(digits_value(s) == digits_value(latin1_chars(t0)) * 10 + n % 10);
        assert(n == (n / 10) * 10 + n % 10);
    } else {
        let s = latin1_chars(nat_text(n));
        assert(s.subrange(0, 0) =~= Seq::<char>::empty());
        let c = (n + 48) as u8;
        assert(s.len() == 1);
        assert(s[0] == c as char);
        assert(crate::numbers::digit_value(c as char) == n);
        assert(digits_value(s.subrange(0, 0)) == 0);
        assert(digits_value(s) == digits_value(s.subrange(0, 0)) * 10 + crate::numbers::digit_value(s[0]));
    }
}

/// The text of a `u64` has at most twenty digits.
proof fn lemma_u64_text_short(n: nat)
    requires
        n <= u64::MAX,
    ensures
        nat_text(n).len() <= 20,
{
    assert(pow10(20) == 100000000000000000000nat) by {
        reveal_with_fuel(pow10, 21);
    }
    lemma_digit_count(n, 20);
}

proof fn lemma_find_last_from_tail(w: Seq<u8>, kw: Seq<u8>, m: int, p: int)
    requires
        0 <= m <= p,
        occurs_at(w, kw, m),
        forall|q: int| m < q <= p ==> !occurs_at(w, kw, q),
    ensures
        find_last_from(w, kw, p) == Some(m),
    decreases p - m,
{
    if p > m {
        lemma_find_last_from_tail(w, kw, m, p - 1);
    }
}

proof fn lemma_digits_end_run(w: Seq<u8>, i: int, e: int)
    requires
        0 <= i <= e < w.len(),
        forall|j: int| i <= j < e ==> is_digit(#[trigger] w[j]),
        !is_digit(w[e]),
    ensures
        digits_end(w, i) == e,
    decreases e - i,
{
    if i < e {
        lemma_digits_end_run(w, i + 1, e);
    }
}

/// A file that ends with the `startxref` block of `n` reads `n` back as the
/// offset of its table.
pub proof fn law_startxref_block_reads_back(prefix: Seq<u8>, n: nat)
    requires
        n <= u64::MAX,
        prefix.len() + eof_block(n).len() >= 16,
    ensures
        startxref_spec(prefix + eof_block(n)) == Ok::<u64, ErrModel>(n as u64),
{
    let t = eof_block(n);
    let d = prefix + t;
    let digits = nat_text(n);
    let l: int = digits.len() as int;
    lemma_nat_text_reads_back(n);
    lemma_u64_text_short(n);
    assert(t.len() == 17 + l);
    let k: int = if d.len() < 1024 {
        d.len() as int
    } else {
        1024
    };
    let w = d.subrange(d.len() - k, d.len() as int);
    let m = k - t.len();
    assert forall|j: int| 0 <= j < t.len() implies #[trigger] w[m + j] == t[j] by {
        assert(w[m + j] == d[d.len() - k + m + j]);
        assert(d[prefix.len() + j] == t[j]);
    }
    let kw = startxref_keyword();
    assert(w.subrange(m, m + 9) =~= kw) by {
        assert forall|j: int| 0 <= j < 9 implies w.subrange(m, m + 9)[j] == kw[j] by {
            assert(w[m + j] == t[j]);
        }
    }
    assert(occurs_at(w, kw, m));
    assert forall|q: int| m < q <= k - 9 implies !occurs_at(w, kw, q) by {
        let j = q - m;
        assert(w[q] == t[j]);
        if j < 10 {
            assert(t[j] != 115);
        } else {
            assert(t[j] == digits[j - 10]);
            assert(is_digit(digits[j - 10]));
        }
        if occurs_at(w, kw, q) {
            assert(w.subrange(q, q + 9)[0] == kw[0]);
        }
    }
    lemma_find_last_from_tail(w, kw, m, k - 9);
    assert(w[m + 9] == 10u8) by {
        assert(t[9] == 10u8);
    }
    assert(w[m + 10] == digits[0]) by {
        assert(t[10] == digits[0]);
    }
    assert(is_digit(digits[0]));
    assert(skip_xref_space(w, m + 10) == m + 10);
    assert(skip_xref_space(w, m + 9) == skip_xref_space(w, m + 10));
    assert forall|j: int| m + 10 <= j < m + 10 + l implies is_digit(#[trigger] w[j]) by {
        assert(w[j] == t[j - m]);
        assert(t[j - m] == digits[j - m - 10]);
    }
    assert(w[m + 10 + l] == 10u8) by {
        assert(t[10 + l] == 10u8);
    }
    lemma_digits_end_run(w, m + 10, m + 10 + l);
    assert(w.subrange(m + 10, m + 10 + l) =~= digits) by {
        assert forall|j: int| 0 <= j < l implies w.subrange(m + 10, m + 10 + l)[j] == digits[j] by {
            assert(w[m + 10 + j] == t[10 + j]);
        }
    }
    let s = latin1_chars(digits);
    assert(s[0] != '+');
    assert(crate::numbers::unsigned_body(s) == s);
    assert(parse_unsigned(s, u64::MAX as int) == Some(n as int));
}

/// A full rewrite reads back: the offset `find_startxref` reads from the end of
/// the written file is the offset of its table.
pub proof fn law_rewrite_startxref_reads_back(doc: PdfDocument, trailer: DictModel, ids: Seq<ObjectId>)
    requires
        optimized_objects(doc, ids, file_head(doc.version@).len()).2 <= u64::MAX,
    ensures
        startxref_spec(optimized_text(doc, trailer, ids)) == Ok::<u64, ErrModel>(
            optimized_objects(doc, ids, file_head(doc.version@).len()).2 as u64,
        ),
{
    let o = optimized_objects(doc, ids, file_head(doc.version@).len());
    let text = optimized_text(doc, trailer, ids);
    let e = eof_block(o.2);
    let pre = text.subrange(0, text.len() - e.len());
    assert(pre + e =~= text);
    assert(file_head(doc.version@).len() >= 11);
    law_startxref_block_reads_back(pre, o.2);
}


// ---------------------------------------------------------------- reading an incremental update back

/// The appended objects end at `start` plus their length, and each of their
/// entries gives the offset, after a prefix of length `start`, at which the
/// object's header is written.
pub proof fn lemma_appended_offsets(objs: Seq<(ObjectId, ObjModel)>, prefix: Seq<u8>)
    ensures
        appended_objects(objs, prefix.len()).2 == prefix.len() + appended_objects(objs, prefix.len()).0.len(),
        forall|k: int|
            0 <= k < appended_objects(objs, prefix.len()).1.len() ==> {
                let e = #[trigger] appended_objects(objs, prefix.len()).1[k];
                &&& e.2 + obj_header_text(e.0, e.1).len() <= appended_objects(objs, prefix.len()).2
                &&& (prefix + appended_objects(objs, prefix.len()).0).subrange(
                    e.2 as int,
                    (e.2 + obj_header_text(e.0, e.1).len()) as int,
                ) == obj_header_text(e.0, e.1)
            },
    decreases objs.len(),
{
    if objs.len() > 0 {
        let start = prefix.len();
        lemma_appended_offsets(objs.drop_last(), prefix);
        let r = appended_objects(objs.drop_last(), start);
        let id = objs.last().0;
        let h = obj_header_text(id.object_number, id.generation_number);
        let body = object_text(objs.last().1);
        let all = appended_objects(objs, start);
        assert(all.0 == r.0 + h + body + endobj_footer());
        assert(all.1 == r.1.push((id.object_number, id.generation_number, r.2)));
        let whole = prefix + all.0;
        let old_whole = prefix + r.0;
        assert(whole =~= old_whole + h + body + endobj_footer());
        assert forall|k: int| 0 <= k < all.1.len() implies {
            let e = #[trigger] all.1[k];
            &&& e.2 + obj_header_text(e.0, e.1).len() <= all.2
            &&& whole.subrange(e.2 as int, (e.2 + obj_header_text(e.0, e.1).len()) as int)
                == obj_header_text(e.0, e.1)
        } by {
            let e = all.1[k];
            if k < r.1.len() {
                assert(e == r.1[k]);
                assert(whole.subrange(e.2 as int, (e.2 + obj_header_text(e.0, e.1).len()) as int)
                    =~= old_whole.subrange(e.2 as int, (e.2 + obj_header_text(e.0, e.1).len()) as int));
            } else {
                assert(e == (id.object_number, id.generation_number, r.2));
                assert(whole.subrange(e.2 as int, (e.2 + h.len()) as int) =~= h);
            }
        }
    }
}

/// Reading a file after its incremental update by the new table finds what was
/// appended: each new entry gives the offset of its object's `n g obj` header,
/// `startxref` gives the offset of the new `xref` keyword, and `find_startxref`
/// reads that offset back.
pub proof fn law_incremental_update_reads_back(
    file: Seq<u8>,
    keys: Set<u32>,
    prev: Option<u64>,
    file_size: u64,
    objs: Seq<(ObjectId, ObjModel)>,
)
    requires
        file.len() == file_size,
        appended_objects(objs, (file_size + 1) as nat).2 <= u64::MAX,
    ensures
        forall|k: int|
            0 <= k < appended_objects(objs, (file_size + 1) as nat).1.len() ==> {
                let e = #[trigger] appended_objects(objs, (file_size + 1) as nat).1[k];
                (file + incremental_text(keys, prev, file_size, objs)).subrange(
                    e.2 as int,
                    (e.2 + obj_header_text(e.0, e.1).len()) as int,
                ) == obj_header_text(e.0, e.1)
            },
        (file + incremental_text(keys, prev, file_size, objs)).subrange(
            appended_objects(objs, (file_size + 1) as nat).2 as int,
            (appended_objects(objs, (file_size + 1) as nat).2 + 4) as int,
        ) == seq![120u8, 114, 101, 102],
        startxref_spec(file + incremental_text(keys, prev, file_size, objs)) == Ok::<u64, ErrModel>(
            appended_objects(objs, (file_size + 1) as nat).2 as u64,
        ),
{
    let pre = file + seq![10u8];
    let a = appended_objects(objs, (file_size + 1) as nat);
    assert(pre.len() == file_size + 1);
    lemma_appended_offsets(objs, pre);
    let whole = file + incremental_text(keys, prev, file_size, objs);
    let front = pre + a.0;
    assert(whole.subrange(0, front.len() as int) =~= front);
    assert forall|k: int| 0 <= k < a.1.len() implies {
        let e = #[trigger] a.1[k];
        whole.subrange(e.2 as int, (e.2 + obj_header_text(e.0, e.1).len()) as int) == obj_header_text(
            e.0,
            e.1,
        )
    } by {
        let e = a.1[k];
        assert(whole.subrange(e.2 as int, (e.2 + obj_header_text(e.0, e.1).len()) as int)
            =~= front.subrange(e.2 as int, (e.2 + obj_header_text(e.0, e.1).len()) as int));
    }
    assert(whole.subrange(a.2 as int, (a.2 + 4) as int) =~= seq![120u8, 114, 101, 102]);
    let eb = eof_block(a.2);
    let body = whole.subrange(0, whole.len() - eb.len());
    assert(body + eb =~= whole);
    law_startxref_block_reads_back(body, a.2);
}

} // verus!
