use vstd::prelude::*;
use crate::content::{ops_model, ContentOperation, OpModel};
use crate::numbers::{i64_text, int_text, nat_text, u64_text};
use crate::object::{
    lemma_entries_model, lemma_objects_model, objects_model, DictModel, ObjModel, PdfDictionary, PdfObject,
    PdfReal, RealModel, ObjectId,
};
use vstd::utf8::encode_utf8;
use crate::lexer::bytes_equal;
use crate::object::str_equal;

verus! {

// ---------------------------------------------------------------- writing objects

/// The ASCII character of a digit value (taken modulo 256 for values above 9).
pub open spec fn digit_char(d: u8) -> u8 {
    ((d as int + 48) % 256) as u8
}

pub open spec fn digit_chars(d: Seq<u8>) -> Seq<u8> {
    d.map_values(|x: u8| digit_char(x))
}

pub open spec fn zeros(n: nat) -> Seq<u8> {
    Seq::new(n, |i: int| 48u8)
}

/// The decimal text of a real: its digits with a point placed `scale` digits
/// from the right (padded with zeros before it), `0` for no digits, and a `-`
/// when it is negative.
pub open spec fn real_text(r: RealModel) -> Seq<u8> {
    let ds = digit_chars(r.digits);
    let n = ds.len();
    let body = if r.scale == 0 {
        if n == 0 {
            seq![48u8]
        } else {
            ds
        }
    } else if n > r.scale {
        ds.subrange(0, n - r.scale) + seq![46u8] + ds.subrange(n - r.scale, n as int)
    } else {
        seq![48u8, 46u8] + zeros((r.scale - n) as nat) + ds
    };
    if r.negative {
        seq![45u8] + body
    } else {
        body
    }
}

/// A string's bytes with a backslash before each `(`, `)` and `\`.
pub open spec fn escape_bytes(b: Seq<u8>) -> Seq<u8>
    decreases b.len(),
{
    if b.len() == 0 {
        Seq::empty()
    } else {
        let c = b.last();
        escape_bytes(b.drop_last()) + if c == 40 || c == 41 || c == 92 {
            seq![92u8, c]
        } else {
            seq![c]
        }
    }
}

/// The text of a reference: `n g R`.
pub open spec fn reference_text(id: ObjectId) -> Seq<u8> {
    nat_text(id.object_number as nat) + seq![32u8] + nat_text(id.generation_number as nat) + seq![
        32u8,
        82u8,
    ]
}

/// The PDF text of an object. Arrays are written `[ a b ]`, dictionaries one
/// entry per line between `<<` and `>>`, strings as literals.
pub open spec fn object_text(o: ObjModel) -> Seq<u8>
    decreases o,
{
    match o {
        // null
        ObjModel::Null => seq![110u8, 117u8, 108u8, 108u8],
        // true / false
        ObjModel::Boolean(b) => if b {
            seq![116u8, 114u8, 117u8, 101u8]
        } else {
            seq![102u8, 97u8, 108u8, 115u8, 101u8]
        },
        ObjModel::Integer(i) => int_text(i as int),
        ObjModel::Real(r) => real_text(r),
        ObjModel::String(b) => seq![40u8] + escape_bytes(b) + seq![41u8],
        ObjModel::Name(n) => seq![47u8] + encode_utf8(n),
        ObjModel::Array(a) => seq![91u8, 32u8] + items_text(a) + seq![93u8],
        ObjModel::Dictionary(d) => seq![60u8, 60u8, 10u8] + entries_text(d) + seq![62u8, 62u8],
        // the dictionary, then `\nstream\n`, the data and `\nendstream`
        ObjModel::Stream(d, data) => seq![60u8, 60u8, 10u8] + entries_text(d) + seq![62u8, 62u8]
            + seq![
            10u8,
            115u8,
            116u8,
            114u8,
            101u8,
            97u8,
            109u8,
            10u8,
        ] + data + seq![10u8, 101u8, 110u8, 100u8, 115u8, 116u8, 114u8, 101u8, 97u8, 109u8],
        ObjModel::Reference(id) => reference_text(id),
    }
}

/// The items of an array, each followed by a space.
pub open spec fn items_text(s: Seq<ObjModel>) -> Seq<u8>
    decreases s,
{
    if s.len() == 0 {
        Seq::empty()
    } else {
        items_text(s.drop_last()) + object_text(s.last()) + seq![32u8]
    }
}

/// Each entry of a dictionary as `/key value` on a line of its own.
pub open spec fn entries_text(d: DictModel) -> Seq<u8>
    decreases d,
{
    if d.len() == 0 {
        Seq::empty()
    } else {
        entries_text(d.drop_last()) + seq![47u8] + encode_utf8(d.last().0) + seq![32u8]
            + object_text(d.last().1) + seq![10u8]
    }
}

/// `<<`, a newline, the entries, and `>>`.
pub open spec fn dict_text(d: DictModel) -> Seq<u8> {
    seq![60u8, 60u8, 10u8] + entries_text(d) + seq![62u8, 62u8]
}

/// The text of a content stream: each operation's operands, each followed by a
/// space, then its operator and a newline.
pub open spec fn ops_text(ops: Seq<OpModel>) -> Seq<u8>
    decreases ops.len(),
{
    if ops.len() == 0 {
        Seq::empty()
    } else {
        ops_text(ops.drop_last()) + operands_text(ops.last().operands) + encode_utf8(
            ops.last().operator,
        ) + seq![10u8]
    }
}

pub open spec fn operands_text(s: Seq<ObjModel>) -> Seq<u8>
    decreases s.len(),
{
    if s.len() == 0 {
        Seq::empty()
    } else {
        operands_text(s.drop_last()) + object_text(s.last()) + seq![32u8]
    }
}

fn push_all(buf: &mut Vec<u8>, s: &[u8])
    ensures
        final(buf)@ == old(buf)@ + s@,
{
    let mut i: usize = 0;
    while i < s.len()
        invariant
            i <= s@.len(),
            buf@ == old(buf)@ + s@.subrange(0, i as int),
        decreases s@.len() - i,
    {
        buf.push(s[i]);
        i = i + 1;
        assert(buf@ =~= old(buf)@ + s@.subrange(0, i as int));
    }
    assert(s@.subrange(0, s@.len() as int) =~= s@);
}

/// The decimal text of a real.
pub fn real_bytes(r: &PdfReal) -> (res: Vec<u8>)
    ensures
        res@ == real_text(r@),
{
    let mut ds: Vec<u8> = Vec::new();
    let mut i: usize = 0;
    while i < r.digits.len()
        invariant
            i <= r.digits@.len(),
            ds@ == digit_chars(r.digits@).subrange(0, i as int),
        decreases r.digits@.len() - i,
    {
        ds.push(r.digits[i].wrapping_add(48));
        i = i + 1;
        assert(ds@ =~= digit_chars(r.digits@).subrange(0, i as int));
    }
    assert(ds@ =~= digit_chars(r.digits@));
    let n = ds.len();
    let mut out: Vec<u8> = Vec::new();
    if r.negative {
        out.push(45u8);
    }
    let ghost sign = out@;
    if r.scale == 0 {
        if n == 0 {
            out.push(48u8);
        } else {
            push_all(&mut out, ds.as_slice());
        }
    } else if n > r.scale {
        push_all(&mut out, vstd::slice::slice_subrange(ds.as_slice(), 0, n - r.scale));
        out.push(46u8);
        push_all(&mut out, vstd::slice::slice_subrange(ds.as_slice(), n - r.scale, n));
    } else {
        out.push(48u8);
        out.push(46u8);
        let k = r.scale - n;
        let mut j: usize = 0;
        while j < k
            invariant
                j <= k,
                out@ == sign + seq![48u8, 46u8] + zeros(j as nat),
            decreases k - j,
        {
            out.push(48u8);
            j = j + 1;
            assert(out@ =~= sign + seq![48u8, 46u8] + zeros(j as nat));
        }
        push_all(&mut out, ds.as_slice());
    }
    assert(out@ =~= real_text(r@));
    out
}

/// The escaped bytes of a literal string.
fn escape_into(buf: &mut Vec<u8>, b: &[u8])
    ensures
        final(buf)@ == old(buf)@ + escape_bytes(b@),
{
    let mut i: usize = 0;
    while i < b.len()
        invariant
            i <= b@.len(),
            buf@ == old(buf)@ + escape_bytes(b@.subrange(0, i as int)),
        decreases b@.len() - i,
    {
        let c = b[i];
        let ghost before = buf@;
        if c == 40u8 || c == 41u8 || c == 92u8 {
            buf.push(92u8);
        }
        buf.push(c);
        proof {
            let p = b@.subrange(0, i + 1);
            assert(p.drop_last() =~= b@.subrange(0, i as int));
            assert(p.last() == c);
        }
        i = i + 1;
        assert(buf@ =~= old(buf)@ + escape_bytes(b@.subrange(0, i as int)));
    }
    assert(b@.subrange(0, b@.len() as int) =~= b@);
}

/// The text of a reference `n g R`.
fn reference_bytes(id: ObjectId) -> (res: Vec<u8>)
    ensures
        res@ == reference_text(id),
{
    let mut out = u64_text(id.object_number as u64);
    out.push(32u8);
    let mut g = u64_text(id.generation_number as u64);
    out.append(&mut g);
    out.push(32u8);
    out.push(82u8);
    assert(out@ =~= reference_text(id));
    out
}

/// Writes an object as PDF text.
pub fn serialize_object(obj: &PdfObject) -> (res: Vec<u8>)
    ensures
        res@ == object_text(obj@),
    decreases obj,
{
    let mut buf: Vec<u8> = Vec::new();
    match obj {
        PdfObject::Null => {
            push_all(&mut buf, &[110u8, 117, 108, 108]);
        },
        PdfObject::Boolean(b) => {
            if *b {
                push_all(&mut buf, &[116u8, 114, 117, 101]);
            } else {
                push_all(&mut buf, &[102u8, 97, 108, 115, 101]);
            }
        },
        PdfObject::Integer(i) => {
            buf = i64_text(*i as i64);
        },
        PdfObject::Real(r) => {
            buf = real_bytes(r);
        },
        PdfObject::String(bytes) => {
            buf.push(40u8);
            escape_into(&mut buf, bytes.as_slice());
            buf.push(41u8);
        },
        PdfObject::Name(name) => {
            buf.push(47u8);
            push_all(&mut buf, name.as_str().as_bytes());
        },
        PdfObject::Array(arr) => {
            buf.push(91u8);
            buf.push(32u8);
            let ghost a = objects_model(arr@);
            proof {
                lemma_objects_model(arr@);
            }
            let mut i: usize = 0;
            while i < arr.len()
                invariant
                    *obj == PdfObject::Array(*arr),
                    i <= arr@.len(),
                    a.len() == arr@.len(),
                    forall|j: int| 0 <= j < arr@.len() ==> #[trigger] a[j] == arr@[j]@,
                    buf@ == seq![91u8, 32u8] + items_text(a.subrange(0, i as int)),
                decreases arr@.len() - i,
            {
                let item = &arr[i];
                assert(decreases_to!(*obj => obj->Array_0));
                assert(decreases_to!(*arr => arr@[i as int]));
                assert(decreases_to!(*obj => *item));
                let mut t = serialize_object(item);
                buf.append(&mut t);
                buf.push(32u8);
                proof {
                    let p = a.subrange(0, i + 1);
                    assert(p.drop_last() =~= a.subrange(0, i as int));
                }
                i = i + 1;
                assert(buf@ =~= seq![91u8, 32u8] + items_text(a.subrange(0, i as int)));
            }
            assert(a.subrange(0, a.len() as int) =~= a);
            buf.push(93u8);
            assert(buf@ =~= object_text(obj@));
        },
        PdfObject::Dictionary(dict) => {
            buf = dict_bytes(dict);
        },
        PdfObject::Reference(id) => {
            buf = reference_bytes(*id);
        },
        PdfObject::Stream(s) => {
            buf = dict_bytes(&s.dict);
            push_all(&mut buf, &[10u8, 115, 116, 114, 101, 97, 109, 10]);
            push_all(&mut buf, s.data.as_slice());
            push_all(&mut buf, &[10u8, 101, 110, 100, 115, 116, 114, 101, 97, 109]);
        },
    }
    buf
}

/// Writes a dictionary as PDF text.
fn dict_bytes(dict: &PdfDictionary) -> (res: Vec<u8>)
    ensures
        res@ == dict_text(dict@),
    decreases dict,
{
    let mut buf: Vec<u8> = Vec::new();
    push_all(&mut buf, &[60u8, 60, 10]);
    let ghost d = dict@;
    proof {
        lemma_entries_model(dict.entries@);
    }
    let mut i: usize = 0;
    while i < dict.entries.len()
        invariant
            i <= dict.entries@.len(),
            d == dict@,
            d.len() == dict.entries@.len(),
            forall|j: int|
                0 <= j < dict.entries@.len() ==> #[trigger] d[j] == (
                    dict.entries@[j].0@,
                    dict.entries@[j].1@,
                ),
            buf@ == seq![60u8, 60u8, 10u8] + entries_text(d.subrange(0, i as int)),
        decreases dict.entries@.len() - i,
    {
        let entry = &dict.entries[i];
        buf.push(47u8);
        push_all(&mut buf, entry.0.as_str().as_bytes());
        buf.push(32u8);
        let mut t = serialize_object(&entry.1);
        buf.append(&mut t);
        buf.push(10u8);
        proof {
            let p = d.subrange(0, i + 1);
            assert(p.drop_last() =~= d.subrange(0, i as int));
            assert(p.last() == d[i as int]);
        }
        i = i + 1;
        assert(buf@ =~= seq![60u8, 60u8, 10u8] + entries_text(d.subrange(0, i as int)));
    }
    assert(d.subrange(0, d.len() as int) =~= d);
    push_all(&mut buf, &[62u8, 62]);
    assert(buf@ =~= dict_text(dict@));
    buf
}

/// Writes content operations back as content stream bytes.
pub fn serialize_content_operations(operations: &[ContentOperation]) -> (res: Vec<u8>)
    ensures
        res@ == ops_text(ops_model(operations@)),
{
    let ghost ops = ops_model(operations@);
    let mut buf: Vec<u8> = Vec::new();
    let mut i: usize = 0;
    while i < operations.len()
        invariant
            i <= operations@.len(),
            ops == ops_model(operations@),
            buf@ == ops_text(ops.subrange(0, i as int)),
        decreases operations@.len() - i,
    {
        let op = &operations[i];
        let ghost before = buf@;
        proof {
            lemma_objects_model(op.operands@);
        }
        let ghost a = op@.operands;
        let mut j: usize = 0;
        while j < op.operands.len()
            invariant
                j <= op.operands@.len(),
                a == objects_model(op.operands@),
                a.len() == op.operands@.len(),
                forall|k: int| 0 <= k < op.operands@.len() ==> #[trigger] a[k] == op.operands@[k]@,
                buf@ == before + operands_text(a.subrange(0, j as int)),
            decreases op.operands@.len() - j,
        {
            let mut t = serialize_object(&op.operands[j]);
            buf.append(&mut t);
            buf.push(32u8);
            proof {
                let p = a.subrange(0, j + 1);
                assert(p.drop_last() =~= a.subrange(0, j as int));
            }
            j = j + 1;
            assert(buf@ =~= before + operands_text(a.subrange(0, j as int)));
        }
        assert(a.subrange(0, a.len() as int) =~= a);
        push_all(&mut buf, op.operator.as_str().as_bytes());
        buf.push(10u8);
        proof {
            let p = ops.subrange(0, i + 1);
            assert(p.drop_last() =~= ops.subrange(0, i as int));
            assert(p.last() == operations@[i as int]@);
        }
        i = i + 1;
        assert(buf@ =~= ops_text(ops.subrange(0, i as int)));
    }
    assert(ops.subrange(0, ops.len() as int) =~= ops);
    buf
}

// ---------------------------------------------------------------- editing text

/// A string operand equal to the target becomes the replacement; any other
/// operand is kept.
pub open spec fn replace_string(o: ObjModel, target: Seq<u8>, replacement: Seq<u8>) -> ObjModel {
    match o {
        ObjModel::String(b) => if b == target {
            ObjModel::String(replacement)
        } else {
            o
        },
        _ => o,
    }
}

/// 1 for a string operand equal to the target, else 0.
pub open spec fn string_match(o: ObjModel, target: Seq<u8>) -> nat {
    match o {
        ObjModel::String(b) => if b == target {
            1
        } else {
            0
        },
        _ => 0,
    }
}

/// The number of string items of an array equal to the target.
pub open spec fn count_matches(s: Seq<ObjModel>, target: Seq<u8>) -> nat
    decreases s.len(),
{
    if s.len() == 0 {
        0
    } else {
        count_matches(s.drop_last(), target) + string_match(s.last(), target)
    }
}

/// The text of an operation after replacement: the first operand of `Tj`
/// when it is the target string, or each target string of the array that is
/// the first operand of `TJ`.
pub open spec fn replace_op(op: OpModel, target: Seq<u8>, replacement: Seq<u8>) -> OpModel {
    if op.operands.len() == 0 {
        op
    } else if op.operator == "Tj"@ {
        OpModel {
            operator: op.operator,
            operands: op.operands.update(0, replace_string(op.operands[0], target, replacement)),
        }
    } else if op.operator == "TJ"@ {
        match op.operands[0] {
            ObjModel::Array(a) => OpModel {
                operator: op.operator,
                operands: op.operands.update(
                    0,
                    ObjModel::Array(a.map_values(|x: ObjModel| replace_string(x, target, replacement))),
                ),
            },
            _ => op,
        }
    } else {
        op
    }
}

/// The number of replacements made in one operation.
pub open spec fn op_matches(op: OpModel, target: Seq<u8>) -> nat {
    if op.operands.len() == 0 {
        0
    } else if op.operator == "Tj"@ {
        string_match(op.operands[0], target)
    } else if op.operator == "TJ"@ {
        match op.operands[0] {
            ObjModel::Array(a) => count_matches(a, target),
            _ => 0,
        }
    } else {
        0
    }
}

/// The number of replacements made in a list of operations.
pub open spec fn total_matches(ops: Seq<OpModel>, target: Seq<u8>) -> nat
    decreases ops.len(),
{
    if ops.len() == 0 {
        0
    } else {
        total_matches(ops.drop_last(), target) + op_matches(ops.last(), target)
    }
}

pub proof fn lemma_objects_model_update(s: Seq<PdfObject>, i: int, o: PdfObject)
    requires
        0 <= i < s.len(),
    ensures
        objects_model(s.update(i, o)) == objects_model(s).update(i, o@),
{
    lemma_objects_model(s);
    lemma_objects_model(s.update(i, o));
    assert(objects_model(s.update(i, o)) =~= objects_model(s).update(i, o@));
}

pub proof fn lemma_count_matches_le(s: Seq<ObjModel>, target: Seq<u8>)
    ensures
        count_matches(s, target) <= s.len(),
    decreases s.len(),
{
    if s.len() > 0 {
        lemma_count_matches_le(s.drop_last(), target);
    }
}

/// Replaces the target strings of an array in place; returns how many there were.
fn replace_in_array(arr: &mut Vec<PdfObject>, target: &[u8], replacement: &[u8]) -> (n: usize)
    ensures
        objects_model(final(arr)@) == objects_model(old(arr)@).map_values(
            |x: ObjModel| replace_string(x, target@, replacement@),
        ),
        n == count_matches(objects_model(old(arr)@), target@),
{
    let ghost a = objects_model(arr@);
    proof {
        lemma_objects_model(arr@);
    }
    let ghost want = a.map_values(|x: ObjModel| replace_string(x, target@, replacement@));
    let mut n: usize = 0;
    let mut j: usize = 0;
    while j < arr.len()
        invariant
            j <= arr@.len(),
            arr@.len() == old(arr)@.len(),
            a == objects_model(old(arr)@),
            a.len() == arr@.len(),
            want == a.map_values(|x: ObjModel| replace_string(x, target@, replacement@)),
            forall|k: int| 0 <= k < j ==> #[trigger] arr@[k]@ == want[k],
            forall|k: int| j <= k < arr@.len() ==> #[trigger] arr@[k] == old(arr)@[k],
            forall|k: int| 0 <= k < old(arr)@.len() ==> #[trigger] a[k] == old(arr)@[k]@,
            n == count_matches(a.subrange(0, j as int), target@),
            n <= j,
        decreases arr@.len() - j,
    {
        let ghost here = a[j as int];
        let mut hit = false;
        match &mut arr[j] {
            PdfObject::String(bytes) => {
                if bytes_equal(bytes.as_slice(), target) {
                    *bytes = vstd::slice::slice_to_vec(replacement);
                    hit = true;
                }
            },
            _ => {},
        }
        proof {
            let p = a.subrange(0, j + 1);
            assert(p.drop_last() =~= a.subrange(0, j as int));
            assert(p.last() == here);
        }
        if hit {
            n = n + 1;
        }
        j = j + 1;
    }
    proof {
        assert(a.subrange(0, a.len() as int) =~= a);
        lemma_objects_model(arr@);
        assert forall|k: int| 0 <= k < arr@.len() implies #[trigger] objects_model(arr@)[k]
            == want[k] by {
            assert(arr@[k]@ == want[k]);
        }
        assert(objects_model(arr@) =~= want);
    }
    n
}

/// Replaces the target text in one operation; returns how many strings were replaced.
fn replace_in_op(op: &mut ContentOperation, target: &[u8], replacement: &[u8]) -> (n: usize)
    ensures
        final(op)@ == replace_op(old(op)@, target@, replacement@),
        n == op_matches(old(op)@, target@),
{
    if op.operands.len() == 0 {
        return 0;
    }
    proof {
        lemma_objects_model(op.operands@);
    }
    if str_equal(op.operator.as_str(), "Tj") {
        let ghost old_operands = op.operands@;
        let mut n: usize = 0;
        match &mut op.operands[0] {
            PdfObject::String(bytes) => {
                if bytes_equal(bytes.as_slice(), target) {
                    *bytes = vstd::slice::slice_to_vec(replacement);
                    n = 1;
                }
            },
            _ => {},
        }
        proof {
            lemma_objects_model_update(old_operands, 0, op.operands@[0]);
            assert(op.operands@ =~= old_operands.update(0, op.operands@[0]));
            assert(op.operands@[0]@ == replace_string(old_operands[0]@, target@, replacement@));
            assert(n == string_match(old_operands[0]@, target@));
            assert(op@ =~= replace_op(old(op)@, target@, replacement@));
        }
        n
    } else if str_equal(op.operator.as_str(), "TJ") {
        let ghost old_operands = op.operands@;
        let mut n: usize = 0;
        match &mut op.operands[0] {
            PdfObject::Array(arr) => {
                n = replace_in_array(arr, target, replacement);
            },
            _ => {},
        }
        proof {
            lemma_objects_model_update(old_operands, 0, op.operands@[0]);
            assert(op.operands@ =~= old_operands.update(0, op.operands@[0]));
            assert(op.operands@[0]@ == match old_operands[0]@ {
                ObjModel::Array(a) => ObjModel::Array(
                    a.map_values(|x: ObjModel| replace_string(x, target@, replacement@)),
                ),
                _ => old_operands[0]@,
            });
            assert(op@ =~= replace_op(old(op)@, target@, replacement@));
        }
        n
    } else {
        0
    }
}

/// Replaces, in the text-showing operations, every string equal to `target`
/// with `replacement`: the first operand of `Tj`, and the strings of the array
/// that is the first operand of `TJ`. Returns the number of strings replaced.
pub fn replace_text_in_operations(ops: &mut Vec<ContentOperation>, target: &str, replacement: &str) -> (count: usize)
    requires
        total_matches(ops_model(old(ops)@), encode_utf8(target@)) <= usize::MAX,
    ensures
        ops_model(final(ops)@) == ops_model(old(ops)@).map_values(
            |op: OpModel| replace_op(op, encode_utf8(target@), encode_utf8(replacement@)),
        ),
        count == total_matches(ops_model(old(ops)@), encode_utf8(target@)),
{
    let t = target.as_bytes();
    let r = replacement.as_bytes();
    let ghost o = ops_model(ops@);
    let ghost want = o.map_values(|op: OpModel| replace_op(op, t@, r@));
    let mut count: usize = 0;
    let mut i: usize = 0;
    while i < ops.len()
        invariant
            i <= ops@.len(),
            ops@.len() == old(ops)@.len(),
            o == ops_model(old(ops)@),
            want == o.map_values(|op: OpModel| replace_op(op, t@, r@)),
            forall|k: int| 0 <= k < i ==> #[trigger] ops@[k]@ == want[k],
            forall|k: int| i <= k < ops@.len() ==> #[trigger] ops@[k] == old(ops)@[k],
            count == total_matches(o.subrange(0, i as int), t@),
            total_matches(o, t@) <= usize::MAX,
        decreases ops@.len() - i,
    {
        let ghost here = o[i as int];
        assert(here == ops@[i as int]@);
        let n = replace_in_op(&mut ops[i], t, r);
        proof {
            let p = o.subrange(0, i + 1);
            assert(p.drop_last() =~= o.subrange(0, i as int));
            assert(p.last() == here);
            lemma_total_matches_prefix(o, t@, i + 1);
        }
        count = count + n;
        i = i + 1;
    }
    proof {
        assert(o.subrange(0, o.len() as int) =~= o);
        assert(ops_model(ops@) =~= want);
    }
    count
}

/// Counts the strings of an array equal to the target.
fn array_match_count(arr: &Vec<PdfObject>, target: &[u8]) -> (n: usize)
    ensures
        n == count_matches(objects_model(arr@), target@),
{
    let ghost a = objects_model(arr@);
    proof {
        lemma_objects_model(arr@);
    }
    let mut n: usize = 0;
    let mut j: usize = 0;
    while j < arr.len()
        invariant
            j <= arr@.len(),
            a == objects_model(arr@),
            a.len() == arr@.len(),
            forall|k: int| 0 <= k < arr@.len() ==> #[trigger] a[k] == arr@[k]@,
            n == count_matches(a.subrange(0, j as int), target@),
            n <= j,
        decreases arr@.len() - j,
    {
        let ghost here = a[j as int];
        let mut hit = false;
        match &arr[j] {
            PdfObject::String(bytes) => {
                if bytes_equal(bytes.as_slice(), target) {
                    hit = true;
                }
            },
            _ => {},
        }
        proof {
            let p = a.subrange(0, j + 1);
            assert(p.drop_last() =~= a.subrange(0, j as int));
            assert(p.last() == here);
        }
        if hit {
            n = n + 1;
        }
        j = j + 1;
    }
    proof {
        assert(a.subrange(0, a.len() as int) =~= a);
    }
    n
}

/// Counts the strings of one operation that a replacement of `target` would replace.
fn op_match_count(op: &ContentOperation, target: &[u8]) -> (n: usize)
    ensures
        n == op_matches(op@, target@),
{
    if op.operands.len() == 0 {
        return 0;
    }
    proof {
        lemma_objects_model(op.operands@);
    }
    if str_equal(op.operator.as_str(), "Tj") {
        match &op.operands[0] {
            PdfObject::String(bytes) => {
                if bytes_equal(bytes.as_slice(), target) {
                    1
                } else {
                    0
                }
            },
            _ => 0,
        }
    } else if str_equal(op.operator.as_str(), "TJ") {
        match &op.operands[0] {
            PdfObject::Array(arr) => array_match_count(arr, target),
            _ => 0,
        }
    } else {
        0
    }
}

/// How many strings `replace_text_in_operations` would replace, or `None`
/// when that number does not fit in a `usize`.
pub fn count_text_matches(ops: &Vec<ContentOperation>, target: &str) -> (res: Option<usize>)
    ensures
        match res {
            Some(n) => n == total_matches(ops_model(ops@), encode_utf8(target@)),
            None => total_matches(ops_model(ops@), encode_utf8(target@)) > usize::MAX,
        },
{
    let t = target.as_bytes();
    let ghost o = ops_model(ops@);
    let mut count: usize = 0;
    let mut i: usize = 0;
    while i < ops.len()
        invariant
            i <= ops@.len(),
            o == ops_model(ops@),
            o.len() == ops@.len(),
            t@ == encode_utf8(target@),
            count == total_matches(o.subrange(0, i as int), t@),
        decreases ops@.len() - i,
    {
        let ghost here = o[i as int];
        assert(here == ops@[i as int]@);
        let n = op_match_count(&ops[i], t);
        proof {
            let p = o.subrange(0, i + 1);
            assert(p.drop_last() =~= o.subrange(0, i as int));
            assert(p.last() == here);
        }
        match count.checked_add(n) {
            Some(c) => {
                count = c;
            },
            None => {
                proof {
                    lemma_total_matches_prefix(o, t@, i + 1);
                }
                return None;
            },
        }
        i = i + 1;
    }
    proof {
        assert(o.subrange(0, o.len() as int) =~= o);
    }
    Some(count)
}

/// A prefix of the operations has no more matches than the whole.
pub proof fn lemma_total_matches_prefix(o: Seq<OpModel>, target: Seq<u8>, k: int)
    requires
        0 <= k <= o.len(),
    ensures
        total_matches(o.subrange(0, k), target) <= total_matches(o, target),
    decreases o.len() - k,
{
    if k < o.len() {
        lemma_total_matches_prefix(o, target, k + 1);
        let p = o.subrange(0, k + 1);
        assert(p.drop_last() =~= o.subrange(0, k));
    } else {
        assert(o.subrange(0, k) =~= o);
    }
}

// ---------------------------------------------------------------- laws of replacement

proof fn lemma_replace_string_clears(x: ObjModel, target: Seq<u8>, replacement: Seq<u8>)
    requires
        target != replacement,
    ensures
        string_match(replace_string(x, target, replacement), target) == 0,
{
}

proof fn lemma_array_replace_clears(a: Seq<ObjModel>, target: Seq<u8>, replacement: Seq<u8>)
    requires
        target != replacement,
    ensures
        count_matches(a.map_values(|x: ObjModel| replace_string(x, target, replacement)), target)
            == 0,
    decreases a.len(),
{
    if a.len() > 0 {
        let m = a.map_values(|x: ObjModel| replace_string(x, target, replacement));
        lemma_array_replace_clears(a.drop_last(), target, replacement);
        assert(m.drop_last() =~= a.drop_last().map_values(
            |x: ObjModel| replace_string(x, target, replacement),
        ));
        lemma_replace_string_clears(a.last(), target, replacement);
    }
}

/// After every string equal to the target has been replaced by a different
/// text, no text-showing operation holds the target any more: a second
/// replacement of the same target finds nothing.
pub proof fn law_replace_leaves_no_match(ops: Seq<OpModel>, target: Seq<u8>, replacement: Seq<u8>)
    requires
        target != replacement,
    ensures
        total_matches(ops.map_values(|op: OpModel| replace_op(op, target, replacement)), target)
            == 0,
    decreases ops.len(),
{
    if ops.len() > 0 {
        let m = ops.map_values(|op: OpModel| replace_op(op, target, replacement));
        law_replace_leaves_no_match(ops.drop_last(), target, replacement);
        assert(m.drop_last() =~= ops.drop_last().map_values(
            |op: OpModel| replace_op(op, target, replacement),
        ));
        let op = ops.last();
        if op.operands.len() > 0 {
            lemma_replace_string_clears(op.operands[0], target, replacement);
            match op.operands[0] {
                ObjModel::Array(a) => lemma_array_replace_clears(a, target, replacement),
                _ => {},
            }
        }
    }
}

/// Replacing a text by itself changes no operation.
pub proof fn law_replace_with_same_text(ops: Seq<OpModel>, target: Seq<u8>)
    ensures
        ops.map_values(|op: OpModel| replace_op(op, target, target)) == ops,
{
    assert forall|i: int| 0 <= i < ops.len() implies #[trigger] replace_op(ops[i], target, target)
        == ops[i] by {
        let op = ops[i];
        if op.operands.len() > 0 {
            assert(op.operands.update(0, replace_string(op.operands[0], target, target))
                =~= op.operands);
            match op.operands[0] {
                ObjModel::Array(a) => {
                    assert(a.map_values(|x: ObjModel| replace_string(x, target, target)) =~= a);
                    assert(op.operands.update(
                        0,
                        ObjModel::Array(a.map_values(|x: ObjModel| replace_string(x, target, target))),
                    ) =~= op.operands);
                },
                _ => {},
            }
        }
        assert(replace_op(op, target, target) =~= op);
    }
    assert(ops.map_values(|op: OpModel| replace_op(op, target, target)) =~= ops);
}

} // verus!
