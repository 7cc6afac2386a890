use vstd::prelude::*;
use std::io::Read;
use crate::error::{ErrModel, PdfError};
use crate::font::{is_hex, nibble};
use crate::object::{dict_get, lemma_objects_model, objects_model, DictModel, ObjModel, PdfObject, PdfStream, str_equal};

verus! {

/// What inflating zlib data gives: the bytes, or the decoder's error message.
pub uninterp spec fn zlib_decode(data: Seq<u8>) -> Result<Seq<u8>, Seq<char>>;

/// Inflates zlib data with `flate2::read::ZlibDecoder` and `read_to_end`.
/// Claims: the result (or the error's message) is the named decoding of the input.
#[verifier::external_body]
fn zlib_inflate(data: &[u8]) -> (res: Result<Vec<u8>, String>)
    ensures
        match res {
            Ok(v) => zlib_decode(data@) == Ok::<Seq<u8>, Seq<char>>(v@),
            Err(s) => zlib_decode(data@) == Err::<Seq<u8>, Seq<char>>(s@),
        },
{
    let mut decoder = flate2::read::ZlibDecoder::new(data);
    let mut decompressed = Vec::new();
    match decoder.read_to_end(&mut decompressed) {
        Ok(_) => Ok(decompressed),
        Err(e) => Err(e.to_string()),
    }
}

pub open spec fn is_ascii_whitespace(c: u8) -> bool {
    c == 32 || c == 9 || c == 10 || c == 12 || c == 13
}

/// ASCIIHexDecode from position `i`, `high` holding a pending first digit:
/// pairs of hex digits become bytes, white-space is skipped, `>` ends the data,
/// and a final unpaired digit counts as followed by `0`.
pub open spec fn ahx_spec(d: Seq<u8>, i: int, high: Option<u8>) -> Result<Seq<u8>, ErrModel>
    decreases d.len() - i,
{
    if i < 0 || i >= d.len() || d[i] == 62 {
        Ok(
            match high {
                Some(h) => seq![(h as int * 16) as u8],
                None => Seq::empty(),
            },
        )
    } else if is_ascii_whitespace(d[i]) {
        ahx_spec(d, i + 1, high)
    } else if is_hex(d[i]) {
        match high {
            Some(h) => match ahx_spec(d, i + 1, None) {
                Ok(r) => Ok(seq![(h as int * 16 + nibble(d[i]) as int) as u8] + r),
                Err(e) => Err(e),
            },
            None => ahx_spec(d, i + 1, Some(nibble(d[i]))),
        }
    } else {
        Err(ErrModel::FilterDecodeError("Invalid character in ASCIIHexDecode"@))
    }
}

pub open spec fn prepend_ok(acc: Seq<u8>, r: Result<Seq<u8>, ErrModel>) -> Result<Seq<u8>, ErrModel> {
    match r {
        Ok(x) => Ok(acc + x),
        Err(e) => Err(e),
    }
}

/// What one filter does to data.
pub open spec fn apply_filter_spec(name: Seq<char>, data: Seq<u8>) -> Result<Seq<u8>, ErrModel> {
    if name == "FlateDecode"@ || name == "Fl"@ {
        match zlib_decode(data) {
            Ok(v) => Ok(v),
            Err(m) => Err(ErrModel::FilterDecodeError(m)),
        }
    } else if name == "ASCIIHexDecode"@ || name == "AHx"@ {
        ahx_spec(data, 0, None)
    } else if name == "ASCII85Decode"@ || name == "A85"@ {
        Err(ErrModel::UnsupportedFilter("ASCII85Decode"@))
    } else if name == "LZWDecode"@ || name == "LZW"@ {
        Err(ErrModel::UnsupportedFilter("LZWDecode"@))
    } else {
        Err(ErrModel::UnsupportedFilter(name))
    }
}

/// Filters `names[i..]` applied in order.
pub open spec fn apply_filters(names: Seq<Seq<char>>, i: int, data: Seq<u8>) -> Result<Seq<u8>, ErrModel>
    decreases names.len() - i,
{
    if i < 0 || i >= names.len() {
        Ok(data)
    } else {
        match apply_filter_spec(names[i], data) {
            Ok(d2) => apply_filters(names, i + 1, d2),
            Err(e) => Err(e),
        }
    }
}

pub open spec fn all_names(a: Seq<ObjModel>) -> bool {
    forall|i: int| 0 <= i < a.len() ==> #[trigger] a[i] is Name
}

pub open spec fn names_of(a: Seq<ObjModel>) -> Seq<Seq<char>> {
    Seq::new(a.len(), |i: int| a[i]->Name_0)
}

/// The filters a stream dictionary names: `None` when it has no `/Filter`.
pub open spec fn filter_names(d: DictModel) -> Option<Result<Seq<Seq<char>>, ErrModel>> {
    match dict_get(d, "Filter"@) {
        None => None,
        Some(ObjModel::Name(n)) => Some(Ok(seq![n])),
        Some(ObjModel::Array(a)) => if all_names(a) {
            Some(Ok(names_of(a)))
        } else {
            Some(Err(ErrModel::InvalidSyntax("Filter array contains non-Name object"@)))
        },
        Some(_) => Some(Err(ErrModel::InvalidSyntax("Filter must be a Name or Array of Names"@))),
    }
}

/// The decoded data of a stream.
pub open spec fn decode_spec(dict: DictModel, data: Seq<u8>) -> Result<Seq<u8>, ErrModel> {
    match filter_names(dict) {
        None => Ok(data),
        Some(Err(e)) => Err(e),
        Some(Ok(names)) => apply_filters(names, 0, data),
    }
}

/// Decodes ASCII hex data.
pub fn ascii_hex_decode(data: &[u8]) -> (res: Result<Vec<u8>, PdfError>)
    ensures
        match ahx_spec(data@, 0, None) {
            Ok(v) => res matches Ok(x) && x@ == v,
            Err(e) => res matches Err(x) && x@ == e,
        },
{
    let mut decoded: Vec<u8> = Vec::new();
    let mut high_nibble: Option<u8> = None;
    let mut i: usize = 0;
    while i < data.len() && data[i] != 62u8
        invariant
            i <= data@.len(),
            high_nibble matches Some(h) ==> h < 16,
            ahx_spec(data@, 0, None) == prepend_ok(decoded@, ahx_spec(data@, i as int, high_nibble)),
        decreases data@.len() - i,
    {
        let byte = data[i];
        if byte == 32u8 || byte == 9u8 || byte == 10u8 || byte == 12u8 || byte == 13u8 {
            i = i + 1;
            continue;
        }
        let val: u8 = if 48u8 <= byte && byte <= 57u8 {
            byte - 48u8
        } else if 97u8 <= byte && byte <= 102u8 {
            byte - 87u8
        } else if 65u8 <= byte && byte <= 70u8 {
            byte - 55u8
        } else {
            return Err(
                PdfError::FilterDecodeError(String::from_str("Invalid character in ASCIIHexDecode")),
            );
        };
        match high_nibble {
            Some(high) => {
                let ghost before = decoded@;
                decoded.push(high * 16 + val);
                high_nibble = None;
                proof {
                    match ahx_spec(data@, i + 1, None) {
                        Ok(r) => {
                            assert(before + (seq![(high as int * 16 + val as int) as u8] + r)
                                =~= decoded@ + r);
                        },
                        Err(e) => {},
                    }
                }
            },
            None => {
                high_nibble = Some(val);
            },
        }
        i = i + 1;
    }
    match high_nibble {
        Some(high) => {
            decoded.push(high * 16);
        },
        None => {
            assert(decoded@ + Seq::<u8>::empty() =~= decoded@);
        },
    }
    Ok(decoded)
}

fn apply_decode_filter(filter_name: &str, data: &[u8]) -> (res: Result<Vec<u8>, PdfError>)
    ensures
        match apply_filter_spec(filter_name@, data@) {
            Ok(v) => res matches Ok(x) && x@ == v,
            Err(e) => res matches Err(x) && x@ == e,
        },
{
    if str_equal(filter_name, "FlateDecode") || str_equal(filter_name, "Fl") {
        match zlib_inflate(data) {
            Ok(v) => Ok(v),
            Err(m) => Err(PdfError::FilterDecodeError(m)),
        }
    } else if str_equal(filter_name, "ASCIIHexDecode") || str_equal(filter_name, "AHx") {
        ascii_hex_decode(data)
    } else if str_equal(filter_name, "ASCII85Decode") || str_equal(filter_name, "A85") {
        Err(PdfError::UnsupportedFilter(String::from_str("ASCII85Decode")))
    } else if str_equal(filter_name, "LZWDecode") || str_equal(filter_name, "LZW") {
        Err(PdfError::UnsupportedFilter(String::from_str("LZWDecode")))
    } else {
        Err(PdfError::UnsupportedFilter(String::from_str(filter_name)))
    }
}

/// Decodes the data of a stream through the filters its `/Filter` entry names, in order.
pub fn decode_stream(stream: &PdfStream) -> (res: Result<Vec<u8>, PdfError>)
    ensures
        match decode_spec(stream.dict@, stream.data@) {
            Ok(v) => res matches Ok(x) && x@ == v,
            Err(e) => res matches Err(x) && x@ == e,
        },
{
    let filter_obj = match stream.dict.get("Filter") {
        Some(f) => f,
        None => return Ok(stream.data.clone()),
    };
    let mut filters: Vec<String> = Vec::new();
    match filter_obj {
        PdfObject::Name(name) => {
            filters.push(name.clone());
        },
        PdfObject::Array(arr) => {
            proof {
                lemma_objects_model(arr@);
            }
            let ghost a = objects_model(arr@);
            let mut k: usize = 0;
            while k < arr.len()
                invariant
                    k <= arr@.len(),
                    a.len() == arr@.len(),
                    dict_get(stream.dict@, "Filter"@) == Some(ObjModel::Array(a)),
                    forall|j: int| 0 <= j < arr@.len() ==> #[trigger] a[j] == arr@[j]@,
                    filters@.len() == k,
                    forall|j: int| 0 <= j < k ==> #[trigger] a[j] is Name && filters@[j]@ == a[j]->Name_0,
                decreases arr@.len() - k,
            {
                match &arr[k] {
                    PdfObject::Name(name) => {
                        filters.push(name.clone());
                    },
                    _ => {
                        assert(!(a[k as int] is Name));
                        assert(!all_names(a));
                        return Err(
                            PdfError::InvalidSyntax(
                                String::from_str("Filter array contains non-Name object"),
                            ),
                        );
                    },
                }
                k = k + 1;
            }
        },
        _ => {
            return Err(
                PdfError::InvalidSyntax(String::from_str("Filter must be a Name or Array of Names")),
            );
        },
    }
    let ghost names = match filter_names(stream.dict@) {
        Some(Ok(n)) => n,
        _ => Seq::empty(),
    };
    assert(names.len() == filters@.len());
    assert(forall|j: int| 0 <= j < names.len() ==> #[trigger] filters@[j]@ == names[j]);
    let mut current_data = stream.data.clone();
    let mut i: usize = 0;
    while i < filters.len()
        invariant
            i <= filters@.len(),
            names.len() == filters@.len(),
            forall|j: int| 0 <= j < names.len() ==> #[trigger] filters@[j]@ == names[j],
            apply_filters(names, i as int, current_data@) == apply_filters(names, 0, stream.data@),
            decode_spec(stream.dict@, stream.data@) == apply_filters(names, 0, stream.data@),
        decreases filters@.len() - i,
    {
        current_data = apply_decode_filter(filters[i].as_str(), current_data.as_slice())?;
        i = i + 1;
    }
    Ok(current_data)
}

// ---------------------------------------------------------------- the hex round trip

pub open spec fn hex_digit(v: int) -> u8 {
    if v < 10 {
        (48 + v) as u8
    } else {
        (55 + v) as u8
    }
}

/// Each byte written as two upper-case hex digits.
pub open spec fn hex_encode(b: Seq<u8>) -> Seq<u8> {
    Seq::new(
        2 * b.len(),
        |i: int|
            if i % 2 == 0 {
                hex_digit(b[i / 2] as int / 16)
            } else {
                hex_digit(b[i / 2] as int % 16)
            },
    )
}

proof fn lemma_ahx_encoded_suffix(b: Seq<u8>, k: int)
    requires
        0 <= k <= b.len(),
    ensures
        ahx_spec(hex_encode(b), 2 * k, None) == Ok::<Seq<u8>, ErrModel>(b.subrange(k, b.len() as int)),
    decreases b.len() - k,
{
    let e = hex_encode(b);
    if k < b.len() {
        lemma_ahx_encoded_suffix(b, k + 1);
        let v = b[k] as int;
        let hi = v / 16;
        let lo = v % 16;
        assert((2 * k) % 2 == 0 && (2 * k) / 2 == k);
        assert((2 * k + 1) % 2 == 1 && (2 * k + 1) / 2 == k);
        assert(e[2 * k] == hex_digit(hi));
        assert(e[2 * k + 1] == hex_digit(lo));
        assert(0 <= hi < 16 && 0 <= lo < 16);
        assert(nibble(hex_digit(hi)) as int == hi);
        assert(nibble(hex_digit(lo)) as int == lo);
        assert(is_hex(e[2 * k]) && e[2 * k] != 62 && !is_ascii_whitespace(e[2 * k]));
        assert(is_hex(e[2 * k + 1]) && e[2 * k + 1] != 62 && !is_ascii_whitespace(e[2 * k + 1]));
        assert(hi * 16 + lo == v);
        assert(ahx_spec(e, 2 * k + 1, Some(nibble(e[2 * k]))) == Ok::<Seq<u8>, ErrModel>(
            seq![(hi * 16 + lo) as u8] + b.subrange(k + 1, b.len() as int),
        ));
        assert(seq![b[k]] + b.subrange(k + 1, b.len() as int) =~= b.subrange(k, b.len() as int));
    } else {
        assert(b.subrange(k, b.len() as int) =~= Seq::<u8>::empty());
    }
}

/// Decoding the hex encoding of any bytes gives the bytes back.
pub proof fn law_ascii_hex_round_trip(b: Seq<u8>)
    ensures
        ahx_spec(hex_encode(b), 0, None) == Ok::<Seq<u8>, ErrModel>(b),
{
    lemma_ahx_encoded_suffix(b, 0);
    assert(b.subrange(0, b.len() as int) =~= b);
}

} // verus!
