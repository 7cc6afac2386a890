use vstd::prelude::*;
use vstd::utf8::{encode_utf8, valid_utf8, decode_utf8, encode_utf8_valid_utf8, encode_utf8_decode_utf8};
use crate::ast_parser::{parse_obj, parse_bytes_spec, parse_array_items, parse_dict_entries, advance_spec, measure, number_role, plain_number, NumberRole, PState};
use crate::edit::{object_text, items_text, entries_text, escape_bytes};
use crate::lexer::{lex, skip_space, regular_end, literal_scan, number_end, spec_is_regular, spec_is_whitespace, is_digit, is_number_char, lemma_lex_progress, TokenModel};
use crate::numbers::{nat_text, int_text, lemma_nat_digit_values, nat_digit_values, digits_value, all_char_digits, parse_i32_spec, parse_unsigned, signed_body};
use crate::error::ErrModel;
use crate::object::{ObjModel, DictModel, ObjectId, dict_key_index, dict_has_distinct_keys};
use crate::text::{latin1_chars, lossy_text, is_ascii_bytes};

verus! {

// ---------------------------------------------------------------- objects whose text reads back

/// A name whose UTF-8 bytes are all regular characters.
pub open spec fn name_ok(n: Seq<char>) -> bool {
    forall|i: int| 0 <= i < encode_utf8(n).len() ==> spec_is_regular(#[trigger] encode_utf8(n)[i])
}

/// String bytes that need no escape: no `(`, `)` or `\`.
pub open spec fn string_ok(b: Seq<u8>) -> bool {
    forall|i: int| 0 <= i < b.len() ==> #[trigger] b[i] != 40 && b[i] != 41 && b[i] != 92
}

/// Objects made of null, booleans, integers, references, names whose UTF-8
/// bytes are regular characters, strings that need no escape, arrays of these
/// and dictionaries of these with distinct keys of such names.
pub open spec fn writable(o: ObjModel) -> bool
    decreases o,
{
    match o {
        ObjModel::Null => true,
        ObjModel::Boolean(_) => true,
        ObjModel::Integer(_) => true,
        ObjModel::Reference(_) => true,
        ObjModel::Name(n) => name_ok(n),
        ObjModel::String(b) => string_ok(b),
        ObjModel::Array(a) => writable_items(a),
        ObjModel::Dictionary(d) => dict_has_distinct_keys(d) && writable_entries(d),
        _ => false,
    }
}

pub open spec fn writable_items(a: Seq<ObjModel>) -> bool
    decreases a,
{
    if a.len() == 0 {
        true
    } else {
        writable_items(a.drop_last()) && writable(a.last())
    }
}

pub open spec fn writable_entries(d: DictModel) -> bool
    decreases d,
{
    if d.len() == 0 {
        true
    } else {
        writable_entries(d.drop_last()) && name_ok(d.last().0) && writable(d.last().1)
    }
}

/// `t` is written at `p` in `data`.
pub open spec fn written_at(data: Seq<u8>, p: int, t: Seq<u8>) -> bool {
    0 <= p && p + t.len() <= data.len() && data.subrange(p, p + t.len()) == t
}

/// A token that stops at `q`: the data ends there or a non-regular byte stands there.
pub open spec fn ends_at(data: Seq<u8>, q: int) -> bool {
    q == data.len() || (0 <= q < data.len() && !spec_is_regular(data[q]))
}

/// A token that is not the keyword `R` or `obj`, which make the two numbers
/// before them a reference or an object header.
pub open spec fn not_reference_keyword(t: Result<Option<TokenModel>, ErrModel>) -> bool {
    !(t matches Ok(Some(TokenModel::Keyword(kw))) && (kw == "R"@ || kw == "obj"@))
}

/// What follows `q` reads without error, is no stream data, and cannot turn a
/// number written before it into part of a reference or an object header.
pub open spec fn follow_ok(data: Seq<u8>, q: int) -> bool {
    &&& lex(data, q).0 is Ok
    &&& !(lex(data, q).0 matches Ok(Some(TokenModel::StreamData(_))))
    &&& not_reference_keyword(lex(data, q).0)
    &&& (lex(data, q).0 matches Ok(Some(TokenModel::Number(_))) ==> not_reference_keyword(
        lex(data, lex(data, q).1).0,
    ))
}

/// The parser state after reading from `q`.
pub open spec fn next_state(data: Seq<u8>, q: int) -> PState {
    PState { pos: lex(data, q).1, cur: lex(data, q).0->Ok_0 }
}

/// The first token of a written object.
pub open spec fn first_token(o: ObjModel) -> TokenModel {
    match o {
        ObjModel::Integer(v) => TokenModel::Number(latin1_chars(int_text(v as int))),
        ObjModel::Reference(id) => TokenModel::Number(latin1_chars(nat_text(id.object_number as nat))),
        ObjModel::Name(n) => TokenModel::Name(n),
        ObjModel::String(b) => TokenModel::StringLiteral(b),
        ObjModel::Array(_) => TokenModel::ArrayStart,
        ObjModel::Dictionary(_) => TokenModel::DictStart,
        _ => TokenModel::Keyword(latin1_chars(object_text(o))),
    }
}

/// The length of the first token of a written object.
pub open spec fn first_len(o: ObjModel) -> int {
    match o {
        ObjModel::Reference(id) => nat_text(id.object_number as nat).len() as int,
        ObjModel::Name(n) => 1 + encode_utf8(n).len() as int,
        ObjModel::String(b) => b.len() as int + 2,
        ObjModel::Array(_) => 1,
        ObjModel::Dictionary(_) => 2,
        _ => object_text(o).len() as int,
    }
}

// ---------------------------------------------------------------- lexing written text

proof fn lemma_skip_ws(data: Seq<u8>, q: int)
    requires
        0 <= q < data.len(),
        spec_is_whitespace(data[q]),
    ensures
        lex(data, q) == lex(data, q + 1),
{
    assert(skip_space(data, q, false) == skip_space(data, q + 1, false));
}

proof fn lemma_regular_run(data: Seq<u8>, i: int, e: int)
    requires
        0 <= i <= e <= data.len(),
        forall|j: int| i <= j < e ==> spec_is_regular(#[trigger] data[j]),
        ends_at(data, e),
    ensures
        regular_end(data, i) == e,
    decreases e - i,
{
    if i < e {
        lemma_regular_run(data, i + 1, e);
    }
}

proof fn lemma_literal_plain(data: Seq<u8>, i: int, e: int)
    requires
        0 <= i <= e < data.len(),
        forall|j: int| i <= j < e ==> #[trigger] data[j] != 40 && data[j] != 41 && data[j] != 92,
        data[e] == 41,
    ensures
        literal_scan(data, i, 1) == (data.subrange(i, e), e + 1, true),
    decreases e - i,
{
    if i < e {
        lemma_literal_plain(data, i + 1, e);
        assert(seq![data[i]] + data.subrange(i + 1, e) =~= data.subrange(i, e));
    } else {
        assert(data.subrange(i, e) =~= Seq::<u8>::empty());
    }
}

proof fn lemma_escape_plain(b: Seq<u8>)
    requires
        string_ok(b),
    ensures
        escape_bytes(b) == b,
    decreases b.len(),
{
    if b.len() > 0 {
        assert(string_ok(b.drop_last()));
        lemma_escape_plain(b.drop_last());
        assert(b.drop_last().push(b.last()) =~= b);
    }
}

proof fn lemma_ascii_decode(b: Seq<u8>)
    requires
        is_ascii_bytes(b),
        valid_utf8(b),
    ensures
        decode_utf8(b) == latin1_chars(b),
    decreases b.len(),
{
    if b.len() > 0 {
        let b0 = b[0];
        assert(b0 < 128);
        assert(vstd::utf8::codepoint_width_1(b0) == b0 as u32) by (bit_vector)
            requires
                b0 < 128,
        ;
        let r = b.subrange(1, b.len() as int);
        assert(vstd::utf8::pop_first_scalar(b) == r);
        assert(is_ascii_bytes(r)) by {
            assert forall|i: int| 0 <= i < r.len() implies #[trigger] r[i] < 128 by {
                assert(r[i] == b[i + 1]);
            }
        }
        lemma_ascii_decode(r);
        assert(latin1_chars(b) =~= seq![b0 as char] + latin1_chars(r));
    }
}

/// The lexer reads a written name back as the name.
proof fn lemma_name_text(n: Seq<char>)
    ensures
        lossy_text(encode_utf8(n)) == n,
{
    let e = encode_utf8(n);
    encode_utf8_valid_utf8(n);
    encode_utf8_decode_utf8(n);
    if is_ascii_bytes(e) {
        lemma_ascii_decode(e);
    }
}

/// The decimal text of a natural number is digits, at least one, that read back as the number.
proof fn lemma_nat_text(n: nat)
    ensures
        nat_text(n).len() >= 1,
        forall|i: int| 0 <= i < nat_text(n).len() ==> is_digit(#[trigger] nat_text(n)[i]),
        all_char_digits(latin1_chars(nat_text(n))),
        digits_value(latin1_chars(nat_text(n))) == n,
    decreases n,
{
    lemma_nat_digit_values(n);
    let t = nat_text(n);
    let c = latin1_chars(t);
    assert forall|i: int| 0 <= i < t.len() implies is_digit(#[trigger] t[i]) by {
        assert(nat_digit_values(n)[i] < 10);
    }
    assert forall|i: int| 0 <= i < c.len() implies crate::numbers::char_is_digit(#[trigger] c[i]) by {
        assert(is_digit(t[i]));
        assert(c[i] == t[i] as char);
    }
    if n < 10 {
        assert(c.subrange(0, 0) =~= Seq::<char>::empty());
        assert(nat_digit_values(n) == seq![n as u8]);
        assert(t[0] == (n + 48) as u8);
        assert(c[0] == t[0] as char);
        assert(crate::numbers::digit_value(c[0]) == n);
        assert(digits_value(c) == digits_value(c.subrange(0, 0)) * 10 + crate::numbers::digit_value(c[0]));
    } else {
        lemma_nat_text(n / 10);
        let t1 = nat_text(n / 10);
        assert(nat_digit_values(n) == nat_digit_values(n / 10).push((n % 10) as u8));
        assert(t =~= t1.push(((n % 10) + 48) as u8));
        assert(c.subrange(0, c.len() - 1) =~= latin1_chars(t1));
        assert(c[c.len() - 1] == t[t.len() - 1] as char);
        assert(t[t.len() - 1] == ((n % 10) + 48) as u8);
        assert(crate::numbers::digit_value(c[c.len() - 1]) == n % 10);
        assert(digits_value(c) == digits_value(c.subrange(0, c.len() - 1)) * 10
            + crate::numbers::digit_value(c[c.len() - 1]));
        assert((n / 10) * 10 + n % 10 == n);
    }
}

/// The decimal text of an `i32` is number characters that `i32` reads back.
proof fn lemma_int_text(v: int)
    requires
        i32::MIN <= v <= i32::MAX,
    ensures
        int_text(v).len() >= 1,
        forall|i: int| 0 <= i < int_text(v).len() ==> is_number_char(#[trigger] int_text(v)[i]),
        parse_i32_spec(latin1_chars(int_text(v))) == Some(v),
{
    let t = int_text(v);
    let s = latin1_chars(t);
    if v < 0 {
        let m = (-v) as nat;
        lemma_nat_text(m);
        assert(t == seq![45u8] + nat_text(m));
        assert forall|i: int| 0 <= i < t.len() implies is_number_char(#[trigger] t[i]) by {
            if i > 0 {
                assert(t[i] == nat_text(m)[i - 1]);
            }
        }
        assert(s[0] == '-');
        assert(signed_body(s) =~= latin1_chars(nat_text(m)));
    } else {
        lemma_nat_text(v as nat);
        assert(is_digit(t[0]));
        assert(s[0] == t[0] as char);
        assert(signed_body(s) == s);
    }
}

/// `number_end` stops at the end of a run of number characters.
proof fn lemma_number_run(data: Seq<u8>, i: int, e: int)
    requires
        0 <= i <= e <= data.len(),
        forall|j: int| i <= j < e ==> is_number_char(#[trigger] data[j]),
        e == data.len() || !is_number_char(data[e]),
    ensures
        number_end(data, i) == e,
    decreases e - i,
{
    if i < e {
        lemma_number_run(data, i + 1, e);
    }
}


/// The lexer reads the first token of a written object.
proof fn lemma_first_token(data: Seq<u8>, p: int, o: ObjModel)
    requires
        writable(o),
        written_at(data, p, object_text(o)),
        ends_at(data, p + object_text(o).len()),
    ensures
        lex(data, p) == (Ok::<Option<TokenModel>, ErrModel>(Some(first_token(o))), p + first_len(o)),
        1 <= first_len(o) <= object_text(o).len(),
        !(o is Array) && !(o is Dictionary) && !(o is Reference) ==> first_len(o) == object_text(o).len(),
{
    let t = object_text(o);
    let q = p + t.len();
    assert forall|j: int| 0 <= j < t.len() implies data[p + j] == #[trigger] t[j] by {
        assert(data.subrange(p, q)[j] == t[j]);
    }
    assert(t.len() > 0 ==> data[p] == t[0]);
    match o {
        ObjModel::Null => {
            assert(t =~= seq![110u8, 117u8, 108u8, 108u8]);
            assert(skip_space(data, p, false) == p);
            lemma_regular_run(data, p, q);
            assert(data.subrange(p, q) == t);
            assert(is_ascii_bytes(t));
        },
        ObjModel::Boolean(b) => {
            assert(skip_space(data, p, false) == p);
            lemma_regular_run(data, p, q);
            assert(data.subrange(p, q) == t);
            assert(is_ascii_bytes(t));
        },
        ObjModel::Name(n) => {
            lemma_name_text(n);
            assert(skip_space(data, p, false) == p);
            assert forall|j: int| p + 1 <= j < q implies spec_is_regular(#[trigger] data[j]) by {
                assert(data[j] == t[j - p]);
                assert(t[j - p] == encode_utf8(n)[j - p - 1]);
            }
            lemma_regular_run(data, p + 1, q);
            assert(data.subrange(p + 1, q) =~= encode_utf8(n)) by {
                assert forall|j: int| 0 <= j < encode_utf8(n).len() implies data.subrange(p + 1, q)[j]
                    == encode_utf8(n)[j] by {
                    assert(data[p + 1 + j] == t[1 + j]);
                }
            }
        },
        ObjModel::String(b) => {
            lemma_escape_plain(b);
            assert(skip_space(data, p, false) == p);
            assert forall|j: int| p + 1 <= j < q - 1 implies #[trigger] data[j] != 40 && data[j] != 41
                && data[j] != 92 by {
                assert(data[j] == t[j - p]);
                assert(t[j - p] == b[j - p - 1]);
            }
            assert(data[q - 1] == t[t.len() - 1]);
            lemma_literal_plain(data, p + 1, q - 1);
            assert(data.subrange(p + 1, q - 1) =~= b) by {
                assert forall|j: int| 0 <= j < b.len() implies data.subrange(p + 1, q - 1)[j] == b[j] by {
                    assert(data[p + 1 + j] == t[1 + j]);
                }
            }
        },
        ObjModel::Integer(v) => {
            lemma_int_text(v as int);
            assert(skip_space(data, p, false) == p);
            assert forall|j: int| p <= j < q implies is_number_char(#[trigger] data[j]) by {
                assert(data[j] == t[j - p]);
            }
            lemma_number_run(data, p, q);
            assert(data.subrange(p, q) == t);
        },
        ObjModel::Reference(id) => {
            lemma_reference_tokens(data, p, id);
        },
        ObjModel::Array(a) => {
            assert(skip_space(data, p, false) == p);
        },
        ObjModel::Dictionary(d) => {
            assert(skip_space(data, p, false) == p);
            assert(data[p + 1] == t[1]);
        },
        _ => {},
    }
}


// ---------------------------------------------------------------- prefixes of written sequences

proof fn lemma_items_take(a: Seq<ObjModel>, k: int)
    requires
        0 <= k <= a.len(),
    ensures
        writable_items(a) ==> writable_items(a.take(k)),
        items_text(a.take(k)).len() <= items_text(a).len(),
        items_text(a).subrange(0, items_text(a.take(k)).len() as int) == items_text(a.take(k)),
    decreases a.len(),
{
    if k == a.len() {
        assert(a.take(k) =~= a);
        assert(items_text(a).subrange(0, items_text(a).len() as int) =~= items_text(a));
    } else {
        lemma_items_take(a.drop_last(), k);
        assert(a.drop_last().take(k) =~= a.take(k));
        let t0 = items_text(a.take(k));
        let t1 = items_text(a.drop_last());
        assert(items_text(a) == t1 + object_text(a.last()) + seq![32u8]);
        assert(items_text(a).subrange(0, t0.len() as int) =~= t1.subrange(0, t0.len() as int));
    }
}

proof fn lemma_items_step(a: Seq<ObjModel>, k: int)
    requires
        0 <= k < a.len(),
    ensures
        items_text(a.take(k + 1)) == items_text(a.take(k)) + object_text(a[k]) + seq![32u8],
        writable_items(a.take(k + 1)) ==> writable(a[k]),
{
    assert(a.take(k + 1).drop_last() =~= a.take(k));
    assert(a.take(k + 1).last() == a[k]);
}

proof fn lemma_entries_take(d: DictModel, k: int)
    requires
        0 <= k <= d.len(),
    ensures
        writable_entries(d) ==> writable_entries(d.take(k)),
        entries_text(d.take(k)).len() <= entries_text(d).len(),
        entries_text(d).subrange(0, entries_text(d.take(k)).len() as int) == entries_text(d.take(k)),
    decreases d.len(),
{
    if k == d.len() {
        assert(d.take(k) =~= d);
        assert(entries_text(d).subrange(0, entries_text(d).len() as int) =~= entries_text(d));
    } else {
        lemma_entries_take(d.drop_last(), k);
        assert(d.drop_last().take(k) =~= d.take(k));
        let t0 = entries_text(d.take(k));
        let t1 = entries_text(d.drop_last());
        assert(entries_text(d) == t1 + seq![47u8] + encode_utf8(d.last().0) + seq![32u8] + object_text(
            d.last().1,
        ) + seq![10u8]);
        assert(entries_text(d).subrange(0, t0.len() as int) =~= t1.subrange(0, t0.len() as int));
    }
}

proof fn lemma_entries_step(d: DictModel, k: int)
    requires
        0 <= k < d.len(),
    ensures
        entries_text(d.take(k + 1)) == entries_text(d.take(k)) + seq![47u8] + encode_utf8(d[k].0) + seq![32u8]
            + object_text(d[k].1) + seq![10u8],
        writable_entries(d.take(k + 1)) ==> name_ok(d[k].0) && writable(d[k].1),
{
    assert(d.take(k + 1).drop_last() =~= d.take(k));
    assert(d.take(k + 1).last() == d[k]);
}

proof fn lemma_key_absent(s: DictModel, key: Seq<char>)
    requires
        forall|i: int| 0 <= i < s.len() ==> #[trigger] s[i].0 != key,
    ensures
        dict_key_index(s, key) is None,
    decreases s.len(),
{
    if s.len() > 0 {
        let r = s.subrange(0, s.len() - 1);
        assert forall|i: int| 0 <= i < r.len() implies #[trigger] r[i].0 != key by {
            assert(r[i] == s[i]);
        }
        lemma_key_absent(r, key);
    }
}


// ---------------------------------------------------------------- placing items in written text

proof fn lemma_item_layout(data: Seq<u8>, base: int, a: Seq<ObjModel>, k: int)
    requires
        0 <= k < a.len(),
        written_at(data, base, items_text(a)),
    ensures
        written_at(data, base + items_text(a.take(k)).len(), object_text(a[k])),
        data[base + items_text(a.take(k)).len() + object_text(a[k]).len()] == 32,
        items_text(a.take(k + 1)).len() == items_text(a.take(k)).len() + object_text(a[k]).len() + 1,
        items_text(a.take(k + 1)).len() <= items_text(a).len(),
        writable_items(a) ==> writable(a[k]),
{
    let all = items_text(a);
    lemma_items_take(a, k + 1);
    lemma_items_step(a, k);
    let pre = items_text(a.take(k));
    let pre1 = items_text(a.take(k + 1));
    let it = object_text(a[k]);
    let pos = base + pre.len();
    let qk = pos + it.len();
    assert forall|j: int| 0 <= j < pre1.len() implies data[base + j] == #[trigger] pre1[j] by {
        assert(all.subrange(0, pre1.len() as int)[j] == pre1[j]);
        assert(data.subrange(base, base + all.len())[j] == all[j]);
    }
    assert(data.subrange(pos, qk) =~= it) by {
        assert forall|j: int| 0 <= j < it.len() implies data.subrange(pos, qk)[j] == it[j] by {
            assert(data[base + pre.len() + j] == pre1[pre.len() + j]);
        }
    }
    assert(data[qk] == pre1[(pre.len() + it.len()) as int]);
}

proof fn lemma_entry_layout(data: Seq<u8>, base: int, d: DictModel, k: int)
    requires
        0 <= k < d.len(),
        written_at(data, base, entries_text(d)),
    ensures
        ({
            let pos = base + entries_text(d.take(k)).len();
            let kt = object_text(ObjModel::Name(d[k].0));
            let vt = object_text(d[k].1);
            &&& written_at(data, pos, kt)
            &&& data[pos + kt.len()] == 32
            &&& written_at(data, pos + kt.len() + 1, vt)
            &&& data[pos + kt.len() + 1 + vt.len()] == 10
            &&& entries_text(d.take(k + 1)).len() == entries_text(d.take(k)).len() + kt.len() + 1
                + vt.len() + 1
        }),
        entries_text(d.take(k + 1)).len() <= entries_text(d).len(),
        writable_entries(d) ==> name_ok(d[k].0) && writable(d[k].1),
{
    let all = entries_text(d);
    lemma_entries_take(d, k + 1);
    lemma_entries_step(d, k);
    let pre = entries_text(d.take(k));
    let pre1 = entries_text(d.take(k + 1));
    let kt = object_text(ObjModel::Name(d[k].0));
    let vt = object_text(d[k].1);
    let pos = base + pre.len();
    let sp = pos + kt.len();
    let vstart = sp + 1;
    let qv = vstart + vt.len();
    assert(kt == seq![47u8] + encode_utf8(d[k].0));
    assert(pre1 == pre + kt + seq![32u8] + vt + seq![10u8]);
    assert forall|j: int| 0 <= j < pre1.len() implies data[base + j] == #[trigger] pre1[j] by {
        assert(all.subrange(0, pre1.len() as int)[j] == pre1[j]);
        assert(data.subrange(base, base + all.len())[j] == all[j]);
    }
    assert(data.subrange(pos, sp) =~= kt) by {
        assert forall|j: int| 0 <= j < kt.len() implies data.subrange(pos, sp)[j] == kt[j] by {
            assert(data[base + pre.len() + j] == pre1[pre.len() + j]);
        }
    }
    assert(data.subrange(vstart, qv) =~= vt) by {
        assert forall|j: int| 0 <= j < vt.len() implies data.subrange(vstart, qv)[j] == vt[j] by {
            assert(data[base + pre.len() + kt.len() + 1 + j] == pre1[pre.len() + kt.len() + 1 + j]);
        }
    }
    assert(data[sp] == pre1[(pre.len() + kt.len()) as int]);
    assert(data[qv] == pre1[(pre.len() + kt.len() + 1 + vt.len()) as int]);
}

/// An object written in a sequence is followed by a space and what reads on.
proof fn lemma_object_then_space(data: Seq<u8>, pos: int, o: ObjModel)
    requires
        writable(o),
        written_at(data, pos, object_text(o)),
        pos + object_text(o).len() < data.len(),
        data[pos + object_text(o).len()] == 32 || data[pos + object_text(o).len()] == 10,
        follow_ok(data, pos + object_text(o).len() + 1),
    ensures
        lex(data, pos) == (Ok::<Option<TokenModel>, ErrModel>(Some(first_token(o))), pos + first_len(o)),
        next_state(data, pos) == (PState { pos: pos + first_len(o), cur: Some(first_token(o)) }),
        1 <= first_len(o) <= object_text(o).len(),
        follow_ok(data, pos + object_text(o).len()),
        next_state(data, pos + object_text(o).len()) == next_state(data, pos + object_text(o).len() + 1),
{
    let qk = pos + object_text(o).len();
    assert(spec_is_whitespace(data[qk]));
    lemma_skip_ws(data, qk);
    lemma_first_token(data, pos, o);
}

/// The three tokens of a written reference `n g R`.
proof fn lemma_reference_tokens(data: Seq<u8>, p: int, id: ObjectId)
    requires
        written_at(data, p, object_text(ObjModel::Reference(id))),
        ends_at(data, p + object_text(ObjModel::Reference(id)).len()),
    ensures
        ({
            let nt = nat_text(id.object_number as nat);
            let gt = nat_text(id.generation_number as nat);
            let p2 = p + nt.len();
            let p3 = p2 + 1 + gt.len();
            &&& lex(data, p) == (Ok::<Option<TokenModel>, ErrModel>(
                Some(TokenModel::Number(latin1_chars(nt))),
            ), p2)
            &&& lex(data, p2) == (Ok::<Option<TokenModel>, ErrModel>(
                Some(TokenModel::Number(latin1_chars(gt))),
            ), p3)
            &&& lex(data, p3) == (Ok::<Option<TokenModel>, ErrModel>(
                Some(TokenModel::Keyword("R"@)),
            ), p + object_text(ObjModel::Reference(id)).len())
            &&& p3 + 2 == p + object_text(ObjModel::Reference(id)).len()
        }),
{
    let t = object_text(ObjModel::Reference(id));
    let q = p + t.len();
    let nt = nat_text(id.object_number as nat);
    let gt = nat_text(id.generation_number as nat);
    let p2 = p + nt.len();
    let p3 = p2 + 1 + gt.len();
    lemma_nat_text(id.object_number as nat);
    lemma_nat_text(id.generation_number as nat);
    assert(t == nt + seq![32u8] + gt + seq![32u8, 82u8]);
    assert forall|j: int| 0 <= j < t.len() implies data[p + j] == #[trigger] t[j] by {
        assert(data.subrange(p, q)[j] == t[j]);
    }
    // the object number
    assert(data[p] == t[0]);
    assert(skip_space(data, p, false) == p);
    assert forall|j: int| p <= j < p2 implies is_number_char(#[trigger] data[j]) by {
        assert(data[j] == t[j - p]);
        assert(t[j - p] == nt[j - p]);
    }
    assert(data[p2] == t[nt.len() as int]);
    lemma_number_run(data, p, p2);
    assert(data.subrange(p, p2) =~= nt) by {
        assert forall|j: int| 0 <= j < nt.len() implies data.subrange(p, p2)[j] == nt[j] by {
            assert(data[p + j] == t[j]);
        }
    }
    // the generation number
    lemma_skip_ws(data, p2);
    assert(data[p2 + 1] == t[(nt.len() + 1) as int]);
    assert(skip_space(data, p2 + 1, false) == p2 + 1);
    assert forall|j: int| p2 + 1 <= j < p3 implies is_number_char(#[trigger] data[j]) by {
        assert(data[j] == t[j - p]);
        assert(t[j - p] == gt[j - p2 - 1]);
    }
    assert(data[p3] == t[(nt.len() + 1 + gt.len()) as int]);
    lemma_number_run(data, p2 + 1, p3);
    assert(data.subrange(p2 + 1, p3) =~= gt) by {
        assert forall|j: int| 0 <= j < gt.len() implies data.subrange(p2 + 1, p3)[j] == gt[j] by {
            assert(data[p2 + 1 + j] == t[(nt.len() + 1 + j) as int]);
        }
    }
    // the keyword
    lemma_skip_ws(data, p3);
    assert(data[p3 + 1] == t[t.len() - 1]);
    assert(skip_space(data, p3 + 1, false) == p3 + 1);
    lemma_regular_run(data, p3 + 1, q);
    assert(data.subrange(p3 + 1, q) =~= seq![82u8]);
    assert(seq![82u8] != crate::lexer::stream_keyword()) by {
        assert(seq![82u8].len() != crate::lexer::stream_keyword().len());
    }
    reveal_strlit("R");
    assert(is_ascii_bytes(seq![82u8]));
    assert(latin1_chars(seq![82u8]) =~= "R"@);
}

/// After a written object, what follows `q` leaves its first token as it was read.
proof fn lemma_follow_written(data: Seq<u8>, pos: int, o: ObjModel)
    requires
        writable(o),
        written_at(data, pos, object_text(o)),
        ends_at(data, pos + object_text(o).len()),
        follow_ok(data, pos + object_text(o).len()),
    ensures
        follow_ok(data, pos),
{
    lemma_first_token(data, pos, o);
    reveal_strlit("R");
    reveal_strlit("obj");
    match o {
        ObjModel::Null => {
            assert(latin1_chars(object_text(o)).len() == 4);
        },
        ObjModel::Boolean(b) => {
            assert(latin1_chars(object_text(o)).len() >= 4);
        },
        ObjModel::Reference(id) => {
            lemma_reference_tokens(data, pos, id);
        },
        _ => {},
    }
}

proof fn lemma_parse_integer(data: Seq<u8>, p: int, v: i32)
    requires
        written_at(data, p, object_text(ObjModel::Integer(v))),
        ends_at(data, p + object_text(ObjModel::Integer(v)).len()),
        follow_ok(data, p + object_text(ObjModel::Integer(v)).len()),
    ensures
        parse_obj(data, PState {
            pos: p + object_text(ObjModel::Integer(v)).len(),
            cur: Some(TokenModel::Number(latin1_chars(int_text(v as int)))),
        }) == (
            Ok::<ObjModel, ErrModel>(ObjModel::Integer(v)),
            next_state(data, p + object_text(ObjModel::Integer(v)).len()),
        ),
{
    let q = p + object_text(ObjModel::Integer(v)).len();
    lemma_int_text(v as int);
    let st1 = PState { pos: q, cur: None };
    assert(advance_spec(data, st1) == (Ok::<(), ErrModel>(()), next_state(data, q)));
    assert(number_role(data, next_state(data, q)) is Plain);
    assert(plain_number(latin1_chars(int_text(v as int))) == Ok::<ObjModel, ErrModel>(ObjModel::Integer(v)));
}

proof fn lemma_parse_reference(data: Seq<u8>, p: int, id: ObjectId)
    requires
        written_at(data, p, object_text(ObjModel::Reference(id))),
        ends_at(data, p + object_text(ObjModel::Reference(id)).len()),
        follow_ok(data, p + object_text(ObjModel::Reference(id)).len()),
    ensures
        parse_obj(data, PState {
            pos: p + nat_text(id.object_number as nat).len(),
            cur: Some(TokenModel::Number(latin1_chars(nat_text(id.object_number as nat)))),
        }) == (
            Ok::<ObjModel, ErrModel>(ObjModel::Reference(id)),
            next_state(data, p + object_text(ObjModel::Reference(id)).len()),
        ),
{
    let q = p + object_text(ObjModel::Reference(id)).len();
    let nt = nat_text(id.object_number as nat);
    let gt = nat_text(id.generation_number as nat);
    let sn = latin1_chars(nt);
    let sg = latin1_chars(gt);
    let p2 = p + nt.len();
    let p3 = p2 + 1 + gt.len();
    lemma_reference_tokens(data, p, id);
    lemma_nat_text(id.object_number as nat);
    lemma_nat_text(id.generation_number as nat);
    reveal_strlit("R");
    assert(sn[0] == nt[0] as char);
    assert(sg[0] == gt[0] as char);
    assert(crate::numbers::unsigned_body(sn) == sn);
    assert(crate::numbers::unsigned_body(sg) == sg);
    assert(parse_unsigned(sn, u32::MAX as int) == Some(id.object_number as int));
    assert(parse_unsigned(sg, u16::MAX as int) == Some(id.generation_number as int));
    let st1 = PState { pos: p2, cur: None };
    let st2 = PState { pos: p3, cur: Some(TokenModel::Number(sg)) };
    assert(advance_spec(data, st1) == (Ok::<(), ErrModel>(()), st2));
    assert(number_role(data, st2) == NumberRole::Reference(id.generation_number as int));
    let st3 = PState { pos: q, cur: Some(TokenModel::Keyword("R"@)) };
    assert(advance_spec(data, st2) == (Ok::<(), ErrModel>(()), st3));
    assert(advance_spec(data, st3) == (Ok::<(), ErrModel>(()), next_state(data, q)));
}

// ---------------------------------------------------------------- parsing written text

proof fn lemma_parse_keyword(data: Seq<u8>, p: int, o: ObjModel)
    requires
        o is Null || o is Boolean,
        writable(o),
        written_at(data, p, object_text(o)),
        ends_at(data, p + object_text(o).len()),
        follow_ok(data, p + object_text(o).len()),
    ensures
        parse_obj(data, PState { pos: p + first_len(o), cur: Some(first_token(o)) }) == (
            Ok::<ObjModel, ErrModel>(o),
            next_state(data, p + object_text(o).len()),
        ),
{
    let t = object_text(o);
    let q = p + t.len();
    reveal_strlit("true");
    reveal_strlit("false");
    reveal_strlit("null");
    let kw = latin1_chars(t);
    if o is Null {
        assert(kw =~= "null"@);
        assert(kw != "true"@) by {
            assert(kw[0] != "true"@[0]);
        }
        assert(kw != "false"@) by {
            assert(kw.len() != "false"@.len());
        }
    } else if o == ObjModel::Boolean(true) {
        assert(kw =~= "true"@);
    } else {
        assert(kw =~= "false"@);
        assert(kw != "true"@) by {
            assert(kw.len() != "true"@.len());
        }
    }
    assert(first_token(o) == TokenModel::Keyword(kw));
    assert(first_len(o) == t.len());
    let st1 = PState { pos: q, cur: None };
    assert(advance_spec(data, st1) == (Ok::<(), ErrModel>(()), next_state(data, q)));
    let st = PState { pos: q, cur: Some(TokenModel::Keyword(kw)) };
    assert(PState { pos: p + first_len(o), cur: Some(first_token(o)) } == st);
}

proof fn lemma_parse_written(data: Seq<u8>, p: int, o: ObjModel)
    requires
        writable(o),
        written_at(data, p, object_text(o)),
        ends_at(data, p + object_text(o).len()),
        follow_ok(data, p + object_text(o).len()),
    ensures
        parse_obj(data, PState { pos: p + first_len(o), cur: Some(first_token(o)) }) == (
            Ok::<ObjModel, ErrModel>(o),
            next_state(data, p + object_text(o).len()),
        ),
    decreases o, 2int,
{
    let q = p + object_text(o).len();
    lemma_first_token(data, p, o);
    match o {
        ObjModel::Null => {
            lemma_parse_keyword(data, p, o);
        },
        ObjModel::Boolean(_) => {
            lemma_parse_keyword(data, p, o);
        },
        ObjModel::Name(n) => {
            let st1 = PState { pos: q, cur: None };
            assert(advance_spec(data, st1) == (Ok::<(), ErrModel>(()), next_state(data, q)));
        },
        ObjModel::String(b) => {
            let st1 = PState { pos: q, cur: None };
            assert(advance_spec(data, st1) == (Ok::<(), ErrModel>(()), next_state(data, q)));
        },
        ObjModel::Integer(v) => {
            lemma_parse_integer(data, p, v);
        },
        ObjModel::Reference(id) => {
            lemma_parse_reference(data, p, id);
        },
        ObjModel::Array(a) => {
            lemma_parse_array(data, p, a);
        },
        ObjModel::Dictionary(d) => {
            lemma_parse_dict(data, p, d);
        },
        _ => {},
    }
}

proof fn lemma_parse_array(data: Seq<u8>, p: int, a: Seq<ObjModel>)
    requires
        writable(ObjModel::Array(a)),
        written_at(data, p, object_text(ObjModel::Array(a))),
        ends_at(data, p + object_text(ObjModel::Array(a)).len()),
        follow_ok(data, p + object_text(ObjModel::Array(a)).len()),
    ensures
        parse_obj(data, PState { pos: p + 1, cur: Some(TokenModel::ArrayStart) }) == (
            Ok::<ObjModel, ErrModel>(ObjModel::Array(a)),
            next_state(data, p + object_text(ObjModel::Array(a)).len()),
        ),
    decreases ObjModel::Array(a), 1int,
{
    let o = ObjModel::Array(a);
    let t = object_text(o);
    let q = p + t.len();
    let items = items_text(a);
    let base = p + 2;
    assert(t == seq![91u8, 32u8] + items + seq![93u8]);
    assert forall|j: int| 0 <= j < t.len() implies data[p + j] == #[trigger] t[j] by {
        assert(data.subrange(p, q)[j] == t[j]);
    }
    assert(data[p + 1] == t[1]);
    lemma_skip_ws(data, p + 1);
    assert(data[q - 1] == t[t.len() - 1]);
    assert(data.subrange(base, base + items.len()) =~= items) by {
        assert forall|j: int| 0 <= j < items.len() implies data.subrange(base, base + items.len())[j]
            == items[j] by {
            assert(data[p + 2 + j] == t[2 + j]);
        }
    }
    assert(decreases_to!(o => a));
    lemma_items(data, base, a, 0, q);
    assert(a.take(0) =~= Seq::<ObjModel>::empty());
    lemma_lex_progress(data, base);
    assert(next_state(data, p + 1) == next_state(data, base));
    let st = PState { pos: p + 1, cur: Some(TokenModel::ArrayStart) };
    let st1 = PState { pos: p + 1, cur: None };
    assert(advance_spec(data, st1) == (Ok::<(), ErrModel>(()), next_state(data, base)));
}

proof fn lemma_parse_dict(data: Seq<u8>, p: int, d: DictModel)
    requires
        writable(ObjModel::Dictionary(d)),
        written_at(data, p, object_text(ObjModel::Dictionary(d))),
        ends_at(data, p + object_text(ObjModel::Dictionary(d)).len()),
        follow_ok(data, p + object_text(ObjModel::Dictionary(d)).len()),
    ensures
        parse_obj(data, PState { pos: p + 2, cur: Some(TokenModel::DictStart) }) == (
            Ok::<ObjModel, ErrModel>(ObjModel::Dictionary(d)),
            next_state(data, p + object_text(ObjModel::Dictionary(d)).len()),
        ),
    decreases ObjModel::Dictionary(d), 1int,
{
    let o = ObjModel::Dictionary(d);
    let t = object_text(o);
    let q = p + t.len();
    let es = entries_text(d);
    let base = p + 3;
    assert(t == seq![60u8, 60u8, 10u8] + es + seq![62u8, 62u8]);
    assert forall|j: int| 0 <= j < t.len() implies data[p + j] == #[trigger] t[j] by {
        assert(data.subrange(p, q)[j] == t[j]);
    }
    assert(data[p + 2] == t[2]);
    lemma_skip_ws(data, p + 2);
    assert(data[q - 1] == t[t.len() - 1]);
    assert(data[q - 2] == t[t.len() - 2]);
    assert(data.subrange(base, base + es.len()) =~= es) by {
        assert forall|j: int| 0 <= j < es.len() implies data.subrange(base, base + es.len())[j]
            == es[j] by {
            assert(data[p + 3 + j] == t[3 + j]);
        }
    }
    assert(decreases_to!(o => d));
    lemma_entries(data, base, d, 0, q);
    assert(d.take(0) =~= Seq::<(Seq<char>, ObjModel)>::empty());
    lemma_lex_progress(data, base);
    assert(next_state(data, p + 2) == next_state(data, base));
    let st1 = PState { pos: p + 2, cur: None };
    assert(advance_spec(data, st1) == (Ok::<(), ErrModel>(()), next_state(data, base)));
    let r = parse_dict_entries(data, next_state(data, base), Seq::empty());
    assert(r.1.cur == lex(data, q).0->Ok_0);
}

proof fn lemma_items(data: Seq<u8>, base: int, a: Seq<ObjModel>, k: int, q: int)
    requires
        writable_items(a),
        0 <= k <= a.len(),
        written_at(data, base, items_text(a)),
        base + items_text(a).len() + 1 == q,
        q <= data.len(),
        data[q - 1] == 93,
        follow_ok(data, q),
    ensures
        follow_ok(data, base + items_text(a.take(k)).len()),
        lex(data, base + items_text(a.take(k)).len()).0 matches Ok(Some(_)),
        base + items_text(a.take(k)).len() < lex(data, base + items_text(a.take(k)).len()).1,
        parse_array_items(data, next_state(data, base + items_text(a.take(k)).len()), a.take(k)) == (
            Ok::<ObjModel, ErrModel>(ObjModel::Array(a)),
            next_state(data, q),
        ),
    decreases a, a.len() - k,
{
    let pos = base + items_text(a.take(k)).len();
    if k == a.len() {
        assert(a.take(k) =~= a);
        assert(pos == q - 1);
        assert(skip_space(data, pos, false) == pos);
        let st = next_state(data, pos);
        assert(st == PState { pos: q, cur: Some(TokenModel::ArrayEnd) });
        assert(advance_spec(data, st) == (Ok::<(), ErrModel>(()), next_state(data, q)));
    } else {
        let item = a[k];
        lemma_item_layout(data, base, a, k);
        let qk = pos + object_text(item).len();
        assert(decreases_to!(a => a[k]));
        lemma_items(data, base, a, k + 1, q);
        lemma_object_then_space(data, pos, item);
        lemma_follow_written(data, pos, item);
        lemma_parse_written(data, pos, item);
        lemma_lex_progress(data, qk + 1);
        assert(a.take(k).push(item) =~= a.take(k + 1));
        let st = next_state(data, pos);
        let r = parse_obj(data, st);
        assert(r == (Ok::<ObjModel, ErrModel>(item), next_state(data, qk + 1)));
        assert(measure(data, r.1) < measure(data, st));
    }
}

proof fn lemma_entries(data: Seq<u8>, base: int, d: DictModel, k: int, q: int)
    requires
        writable_entries(d),
        dict_has_distinct_keys(d),
        0 <= k <= d.len(),
        written_at(data, base, entries_text(d)),
        base + entries_text(d).len() + 2 == q,
        q <= data.len(),
        data[q - 2] == 62,
        data[q - 1] == 62,
        follow_ok(data, q),
    ensures
        follow_ok(data, base + entries_text(d.take(k)).len()),
        lex(data, base + entries_text(d.take(k)).len()).0 matches Ok(Some(_)),
        base + entries_text(d.take(k)).len() < lex(data, base + entries_text(d.take(k)).len()).1,
        parse_dict_entries(data, next_state(data, base + entries_text(d.take(k)).len()), d.take(k))
            == (Ok::<DictModel, ErrModel>(d), next_state(data, q)),
    decreases d, 2 * (d.len() - k) + 1,
{
    let pos = base + entries_text(d.take(k)).len();
    if k == d.len() {
        assert(d.take(k) =~= d);
        assert(pos == q - 2);
        assert(skip_space(data, pos, false) == pos);
        let st = next_state(data, pos);
        assert(st == PState { pos: q, cur: Some(TokenModel::DictEnd) });
        assert(advance_spec(data, st) == (Ok::<(), ErrModel>(()), next_state(data, q)));
    } else {
        lemma_entry_layout(data, base, d, k);
        lemma_entry_step(data, base, d, k, q);
    }
}

proof fn lemma_entry_step(data: Seq<u8>, base: int, d: DictModel, k: int, q: int)
    requires
        writable_entries(d),
        dict_has_distinct_keys(d),
        0 <= k < d.len(),
        written_at(data, base, entries_text(d)),
        base + entries_text(d).len() + 2 == q,
        q <= data.len(),
        data[q - 2] == 62,
        data[q - 1] == 62,
        follow_ok(data, q),
        ({
            let pos = base + entries_text(d.take(k)).len();
            let kt = object_text(ObjModel::Name(d[k].0));
            let vt = object_text(d[k].1);
            &&& written_at(data, pos, kt)
            &&& data[pos + kt.len()] == 32
            &&& written_at(data, pos + kt.len() + 1, vt)
            &&& data[pos + kt.len() + 1 + vt.len()] == 10
            &&& entries_text(d.take(k + 1)).len() == entries_text(d.take(k)).len() + kt.len() + 1
                + vt.len() + 1
        }),
        entries_text(d.take(k + 1)).len() <= entries_text(d).len(),
        name_ok(d[k].0),
        writable(d[k].1),
    ensures
        follow_ok(data, base + entries_text(d.take(k)).len()),
        lex(data, base + entries_text(d.take(k)).len()).0 matches Ok(Some(_)),
        base + entries_text(d.take(k)).len() < lex(data, base + entries_text(d.take(k)).len()).1,
        parse_dict_entries(data, next_state(data, base + entries_text(d.take(k)).len()), d.take(k))
            == (Ok::<DictModel, ErrModel>(d), next_state(data, q)),
    decreases d, 2 * (d.len() - k),
{
    let pos = base + entries_text(d.take(k)).len();
    let key = d[k].0;
    let val = d[k].1;
    let kt = object_text(ObjModel::Name(key));
    let vt = object_text(val);
    let sp = pos + kt.len();
    let vstart = sp + 1;
    let qv = vstart + vt.len();
    assert(decreases_to!(d => d[k]));
    assert(decreases_to!(d[k] => d[k].1));
    lemma_entries(data, base, d, k + 1, q);
    lemma_object_then_space(data, vstart, val);
    lemma_parse_written(data, vstart, val);
    lemma_lex_progress(data, qv + 1);
    lemma_lex_progress(data, vstart);
    lemma_follow_written(data, vstart, val);
    lemma_object_then_space(data, pos, ObjModel::Name(key));
    lemma_name_text(key);
    assert forall|i: int| 0 <= i < d.take(k).len() implies #[trigger] d.take(k)[i].0 != key by {
        assert(d.take(k)[i] == d[i]);
    }
    lemma_key_absent(d.take(k), key);
    assert(d.take(k).push(d[k]) =~= d.take(k + 1));
    let st = next_state(data, pos);
    assert(st == PState { pos: sp, cur: Some(TokenModel::Name(key)) });
    let a = advance_spec(data, st);
    assert(a == (Ok::<(), ErrModel>(()), next_state(data, vstart)));
    let r = parse_obj(data, a.1);
    assert(r == (Ok::<ObjModel, ErrModel>(val), next_state(data, qv + 1)));
}

/// Parsing the written text of an object made of null, booleans, integers,
/// references, names whose UTF-8 bytes are regular characters, strings that
/// need no escape, and arrays and dictionaries (with distinct keys of such names)
/// of these gives the object back.
pub proof fn law_parse_written_object(o: ObjModel)
    requires
        writable(o),
    ensures
        parse_bytes_spec(object_text(o)) == Ok::<ObjModel, ErrModel>(o),
{
    let data = object_text(o);
    assert(data.subrange(0, data.len() as int) =~= data);
    assert(skip_space(data, data.len() as int, false) == data.len());
    lemma_first_token(data, 0, o);
    lemma_parse_written(data, 0, o);
}

} // verus!
