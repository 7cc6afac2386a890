use vstd::prelude::*;
use crate::object::{PdfReal, RealModel, real_normal, all_digits_below_ten};
use crate::text::latin1_chars;

verus! {

// ---------------------------------------------------------------- reading numbers

pub open spec fn char_is_digit(c: char) -> bool {
    '0' <= c <= '9'
}

pub open spec fn all_char_digits(s: Seq<char>) -> bool {
    forall|i: int| 0 <= i < s.len() ==> char_is_digit(#[trigger] s[i])
}

pub open spec fn digit_value(c: char) -> int {
    c as int - 48
}

/// The natural number written by a sequence of decimal digits.
pub open spec fn digits_value(s: Seq<char>) -> int
    decreases s.len(),
{
    if s.len() == 0 {
        0
    } else {
        digits_value(s.subrange(0, s.len() - 1)) * 10 + digit_value(s[s.len() - 1])
    }
}

/// The text after an optional leading `+`.
pub open spec fn unsigned_body(s: Seq<char>) -> Seq<char> {
    if s.len() > 0 && s[0] == '+' {
        s.subrange(1, s.len() as int)
    } else {
        s
    }
}

/// How an unsigned integer type no larger than `max` reads text:
/// an optional `+`, then at least one digit, and a value within range.
pub open spec fn parse_unsigned(s: Seq<char>, max: int) -> Option<int> {
    let body = unsigned_body(s);
    if body.len() > 0 && all_char_digits(body) && digits_value(body) <= max {
        Some(digits_value(body))
    } else {
        None
    }
}

pub open spec fn has_sign(s: Seq<char>) -> bool {
    s.len() > 0 && (s[0] == '+' || s[0] == '-')
}

pub open spec fn signed_body(s: Seq<char>) -> Seq<char> {
    if has_sign(s) {
        s.subrange(1, s.len() as int)
    } else {
        s
    }
}

pub open spec fn is_negative_text(s: Seq<char>) -> bool {
    s.len() > 0 && s[0] == '-'
}

/// How `i32` reads text: an optional sign, at least one digit, and a value within range.
pub open spec fn parse_i32_spec(s: Seq<char>) -> Option<int> {
    let body = signed_body(s);
    if body.len() > 0 && all_char_digits(body) {
        let v = if is_negative_text(s) {
            -digits_value(body)
        } else {
            digits_value(body)
        };
        if i32::MIN <= v <= i32::MAX {
            Some(v)
        } else {
            None
        }
    } else {
        None
    }
}

/// The first position of `c` in `s`.
pub open spec fn first_index_of(s: Seq<char>, c: char) -> Option<int>
    decreases s.len(),
{
    if s.len() == 0 {
        None
    } else if s[0] == c {
        Some(0)
    } else {
        match first_index_of(s.subrange(1, s.len() as int), c) {
            Some(i) => Some(i + 1),
            None => None,
        }
    }
}

pub open spec fn digit_values(s: Seq<char>) -> Seq<u8> {
    Seq::new(s.len(), |i: int| (s[i] as int - 48) as u8)
}

/// Drops zeros at the end of the digits while the scale allows.
pub open spec fn strip_trailing_zeros(d: Seq<u8>, scale: nat) -> (Seq<u8>, nat)
    decreases scale,
{
    if scale > 0 && d.len() > 0 && d[d.len() - 1] == 0 {
        strip_trailing_zeros(d.subrange(0, d.len() - 1), (scale - 1) as nat)
    } else {
        (d, scale)
    }
}

/// Drops zeros at the start of the digits.
pub open spec fn strip_leading_zeros(d: Seq<u8>) -> Seq<u8>
    decreases d.len(),
{
    if d.len() > 0 && d[0] == 0 {
        strip_leading_zeros(d.subrange(1, d.len() as int))
    } else {
        d
    }
}

/// The normal form of `(-1)^negative * digits / 10^scale`.
pub open spec fn normalize_real(negative: bool, digits: Seq<u8>, scale: nat) -> RealModel {
    let t = strip_trailing_zeros(digits, scale);
    let m = strip_leading_zeros(t.0);
    RealModel {
        negative: negative && m.len() > 0,
        digits: m,
        scale: if m.len() == 0 {
            0
        } else {
            t.1
        },
    }
}

/// How a real number is read from text made of signs, dots and digits:
/// an optional sign, then digits with at most one dot among them, and at least one digit.
pub open spec fn parse_decimal_spec(s: Seq<char>) -> Option<RealModel> {
    let body = signed_body(s);
    match first_index_of(body, '.') {
        Some(k) => {
            let ip = body.subrange(0, k);
            let fp = body.subrange(k + 1, body.len() as int);
            if all_char_digits(ip) && all_char_digits(fp) && ip.len() + fp.len() > 0 {
                Some(normalize_real(is_negative_text(s), digit_values(ip + fp), fp.len()))
            } else {
                None
            }
        },
        None => if body.len() > 0 && all_char_digits(body) {
            Some(normalize_real(is_negative_text(s), digit_values(body), 0))
        } else {
            None
        },
    }
}

pub proof fn lemma_digits_value_nonneg(s: Seq<char>)
    requires
        all_char_digits(s),
    ensures
        digits_value(s) >= 0,
    decreases s.len(),
{
    if s.len() > 0 {
        lemma_digits_value_nonneg(s.subrange(0, s.len() - 1));
    }
}

/// The value of a prefix of digits never exceeds the value of the whole.
pub proof fn lemma_digits_value_prefix(s: Seq<char>, j: int)
    requires
        all_char_digits(s),
        0 <= j <= s.len(),
    ensures
        digits_value(s.subrange(0, j)) <= digits_value(s),
    decreases s.len() - j,
{
    if j < s.len() {
        let p = s.subrange(0, s.len() - 1);
        assert(p.subrange(0, j) =~= s.subrange(0, j));
        lemma_digits_value_prefix(p, j);
        lemma_digits_value_nonneg(p);
    } else {
        assert(s.subrange(0, j) =~= s);
    }
}

pub proof fn lemma_digits_value_step(s: Seq<char>, j: int)
    requires
        0 <= j < s.len(),
    ensures
        digits_value(s.subrange(0, j + 1)) == digits_value(s.subrange(0, j)) * 10 + digit_value(s[j]),
{
    assert(s.subrange(0, j + 1).subrange(0, j) =~= s.subrange(0, j));
}

pub proof fn lemma_first_index_of(s: Seq<char>, c: char)
    ensures
        match first_index_of(s, c) {
            Some(k) => 0 <= k < s.len() && s[k] == c && forall|j: int|
                0 <= j < k ==> #[trigger] s[j] != c,
            None => forall|j: int| 0 <= j < s.len() ==> #[trigger] s[j] != c,
        },
    decreases s.len(),
{
    if s.len() > 0 && s[0] != c {
        let t = s.subrange(1, s.len() as int);
        lemma_first_index_of(t, c);
        match first_index_of(t, c) {
            Some(k) => {
                assert forall|j: int| 0 <= j < k + 1 implies #[trigger] s[j] != c by {
                    if j > 0 {
                        assert(s[j] == t[j - 1]);
                    }
                }
            },
            None => {
                assert forall|j: int| 0 <= j < s.len() implies #[trigger] s[j] != c by {
                    if j > 0 {
                        assert(s[j] == t[j - 1]);
                    }
                }
            },
        }
    }
}

pub proof fn lemma_first_index_of_at(s: Seq<char>, c: char, k: int)
    requires
        0 <= k < s.len(),
        s[k] == c,
        forall|j: int| 0 <= j < k ==> #[trigger] s[j] != c,
    ensures
        first_index_of(s, c) == Some(k),
{
    lemma_first_index_of(s, c);
    match first_index_of(s, c) {
        Some(i) => {
            if i < k {
                assert(s[i] != c);
            }
            if k < i {
                assert(s[k] != c);
            }
        },
        None => {
            assert(s[k] != c);
        },
    }
}

fn is_digit_byte(c: u8) -> (res: bool)
    ensures
        res == char_is_digit(c as char),
{
    48u8 <= c && c <= 57u8
}

/// Reads an unsigned integer no larger than `max`, as Rust's unsigned parsers do.
pub fn parse_unsigned_bytes(b: &[u8], max: u64) -> (res: Option<u64>)
    ensures
        match res {
            Some(v) => parse_unsigned(latin1_chars(b@), max as int) == Some(v as int),
            None => parse_unsigned(latin1_chars(b@), max as int) is None,
        },
{
    let ghost s = latin1_chars(b@);
    let start: usize = if b.len() > 0 && b[0] == 43u8 {
        1
    } else {
        0
    };
    let ghost body = unsigned_body(s);
    assert(body =~= s.subrange(start as int, s.len() as int));
    if start == b.len() {
        return None;
    }
    let mut acc: u64 = 0;
    let mut i = start;
    while i < b.len()
        invariant
            start <= i <= b@.len(),
            s == latin1_chars(b@),
            body == s.subrange(start as int, s.len() as int),
            body == unsigned_body(s),
            acc as int == digits_value(body.subrange(0, i - start)),
            acc <= max,
            all_char_digits(body.subrange(0, i - start)),
        decreases b@.len() - i,
    {
        let c = b[i];
        if !is_digit_byte(c) {
            proof {
                assert(body[i - start] == c as char);
            }
            return None;
        }
        proof {
            lemma_digits_value_step(body, i - start);
            assert(body[i - start] == c as char);
        }
        let d = (c - 48u8) as u64;
        let next: u128 = (acc as u128) * 10 + (d as u128);
        if next > max as u128 {
            proof {
                let j = i - start + 1;
                assert(all_char_digits(body.subrange(0, j))) by {
                    assert forall|k: int| 0 <= k < j implies char_is_digit(
                        #[trigger] body.subrange(0, j)[k],
                    ) by {
                        if k < j - 1 {
                            assert(body.subrange(0, j)[k] == body.subrange(0, j - 1)[k]);
                        }
                    }
                }
                if all_char_digits(body) {
                    lemma_digits_value_prefix(body, j);
                }
            }
            return None;
        }
        acc = next as u64;
        proof {
            let j = i - start + 1;
            assert forall|k: int| 0 <= k < j implies char_is_digit(
                #[trigger] body.subrange(0, j)[k],
            ) by {
                if k < j - 1 {
                    assert(body.subrange(0, j)[k] == body.subrange(0, j - 1)[k]);
                }
            }
        }
        i = i + 1;
    }
    proof {
        assert(body.subrange(0, i - start) =~= body);
    }
    Some(acc)
}

/// Reads text as `u32` does.
pub fn parse_u32(b: &[u8]) -> (res: Option<u32>)
    ensures
        match res {
            Some(v) => parse_unsigned(latin1_chars(b@), u32::MAX as int) == Some(v as int),
            None => parse_unsigned(latin1_chars(b@), u32::MAX as int) is None,
        },
{
    match parse_unsigned_bytes(b, 0xFFFF_FFFFu64) {
        Some(v) => Some(v as u32),
        None => None,
    }
}

/// Reads text as `u16` does.
pub fn parse_u16(b: &[u8]) -> (res: Option<u16>)
    ensures
        match res {
            Some(v) => parse_unsigned(latin1_chars(b@), u16::MAX as int) == Some(v as int),
            None => parse_unsigned(latin1_chars(b@), u16::MAX as int) is None,
        },
{
    match parse_unsigned_bytes(b, 0xFFFFu64) {
        Some(v) => Some(v as u16),
        None => None,
    }
}

/// Reads text as `u64` does.
pub fn parse_u64(b: &[u8]) -> (res: Option<u64>)
    ensures
        match res {
            Some(v) => parse_unsigned(latin1_chars(b@), u64::MAX as int) == Some(v as int),
            None => parse_unsigned(latin1_chars(b@), u64::MAX as int) is None,
        },
{
    parse_unsigned_bytes(b, 0xFFFF_FFFF_FFFF_FFFFu64)
}

/// Reads text as `i32` does.
pub fn parse_i32(b: &[u8]) -> (res: Option<i32>)
    ensures
        match res {
            Some(v) => parse_i32_spec(latin1_chars(b@)) == Some(v as int),
            None => parse_i32_spec(latin1_chars(b@)) is None,
        },
{
    let ghost s = latin1_chars(b@);
    let neg = b.len() > 0 && b[0] == 45u8;
    let signed = b.len() > 0 && (b[0] == 43u8 || b[0] == 45u8);
    assert(signed == has_sign(s));
    assert(neg == is_negative_text(s));
    let rest = if signed {
        vstd::slice::slice_subrange(b, 1, b.len())
    } else {
        b
    };
    assert(latin1_chars(rest@) =~= signed_body(s));
    let limit: u64 = if neg {
        0x8000_0000u64
    } else {
        0x7FFF_FFFFu64
    };
    let ghost body = signed_body(s);
    if rest.len() == 0 || !is_digit_byte(rest[0]) {
        proof {
            if body.len() > 0 {
                assert(body[0] == rest@[0] as char);
                assert(!char_is_digit(body[0]));
            }
        }
        return None;
    }
    proof {
        assert(body[0] == rest@[0] as char);
        assert(unsigned_body(body) == body);
    }
    match parse_unsigned_bytes(rest, limit) {
        Some(v) => {
            if neg {
                if v == 0x8000_0000u64 {
                    Some(-2147483648i32)
                } else {
                    Some(-(v as i32))
                }
            } else {
                Some(v as i32)
            }
        },
        None => None,
    }
}

/// Reads text made of signs, dots and digits as an exact decimal, accepting
/// exactly the text that Rust's float parser accepts among such text.
pub fn parse_decimal(b: &[u8]) -> (res: Option<PdfReal>)
    ensures
        match res {
            Some(r) => parse_decimal_spec(latin1_chars(b@)) == Some(r@) && real_normal(r@),
            None => parse_decimal_spec(latin1_chars(b@)) is None,
        },
{
    let ghost s = latin1_chars(b@);
    let neg = b.len() > 0 && b[0] == 45u8;
    let signed = b.len() > 0 && (b[0] == 43u8 || b[0] == 45u8);
    let start: usize = if signed {
        1
    } else {
        0
    };
    let ghost body = signed_body(s);
    assert(body =~= s.subrange(start as int, s.len() as int));
    let mut digits: Vec<u8> = Vec::new();
    let mut seen_dot = false;
    let mut dot_at: usize = 0;
    let mut before_dot: usize = 0;
    let mut i = start;
    while i < b.len()
        invariant
            start <= i <= b@.len(),
            s == latin1_chars(b@),
            body == s.subrange(start as int, s.len() as int),
            body == signed_body(s),
            neg == is_negative_text(s),
            !seen_dot ==> all_char_digits(body.subrange(0, i - start)) && digits@ == digit_values(
                body.subrange(0, i - start),
            ),
            seen_dot ==> {
                &&& start <= dot_at < i
                &&& body[dot_at - start] == '.'
                &&& all_char_digits(body.subrange(0, dot_at - start))
                &&& all_char_digits(body.subrange(dot_at - start + 1, i - start))
                &&& digits@ == digit_values(
                    body.subrange(0, dot_at - start) + body.subrange(dot_at - start + 1, i - start),
                )
                &&& before_dot == dot_at - start
            },
        decreases b@.len() - i,
    {
        let c = b[i];
        let ghost k = i - start;
        proof {
            assert(body[k] == c as char);
        }
        if is_digit_byte(c) {
            let ghost old_digits = digits@;
            digits.push(c - 48u8);
            proof {
                if seen_dot {
                    let ip = body.subrange(0, dot_at - start);
                    let fp = body.subrange(dot_at - start + 1, k);
                    let fp2 = body.subrange(dot_at - start + 1, k + 1);
                    assert(fp2 =~= fp.push(body[k]));
                    assert(ip + fp2 =~= (ip + fp).push(body[k]));
                    assert(digits@ =~= digit_values(ip + fp2));
                    assert forall|j: int| 0 <= j < fp2.len() implies char_is_digit(#[trigger] fp2[j]) by {
                        if j < fp.len() {
                            assert(fp2[j] == fp[j]);
                        }
                    }
                } else {
                    let p = body.subrange(0, k);
                    let p2 = body.subrange(0, k + 1);
                    assert(p2 =~= p.push(body[k]));
                    assert(digits@ =~= digit_values(p2));
                    assert forall|j: int| 0 <= j < p2.len() implies char_is_digit(#[trigger] p2[j]) by {
                        if j < p.len() {
                            assert(p2[j] == p[j]);
                        }
                    }
                }
            }
        } else if c == 46u8 && !seen_dot {
            seen_dot = true;
            dot_at = i;
            before_dot = digits.len();
            proof {
                assert(body.subrange(k + 1, k + 1) =~= Seq::<char>::empty());
                assert(body.subrange(0, k) + Seq::<char>::empty() =~= body.subrange(0, k));
            }
        } else {
            proof {
                lemma_first_index_of(body, '.');
                if seen_dot {
                    let dk = dot_at - start;
                    assert forall|j: int| 0 <= j < dk implies #[trigger] body[j] != '.' by {
                        assert(char_is_digit(body.subrange(0, dk)[j]));
                    }
                    lemma_first_index_of_at(body, '.', dot_at - start);
                    assert(!char_is_digit(body.subrange(dot_at - start + 1, body.len() as int)[k
                        - (dot_at - start + 1)]));
                } else {
                    assert forall|j: int| 0 <= j < k implies #[trigger] body[j] != '.' by {
                        assert(char_is_digit(body.subrange(0, k)[j]));
                    }
                    if c == 46u8 {
                        lemma_first_index_of_at(body, '.', k);
                    } else {
                        match first_index_of(body, '.') {
                            Some(d) => {
                                if d < k {
                                    assert(body[d] != '.');
                                }
                                if d > k {
                                    assert(!char_is_digit(body.subrange(0, d)[k]));
                                }
                            },
                            None => {
                                assert(!char_is_digit(body[k]));
                            },
                        }
                    }
                }
            }
            return None;
        }
        i = i + 1;
    }
    proof {
        lemma_first_index_of(body, '.');
        if seen_dot {
            let dk = dot_at - start;
            assert forall|j: int| 0 <= j < dk implies #[trigger] body[j] != '.' by {
                assert(char_is_digit(body.subrange(0, dk)[j]));
            }
            lemma_first_index_of_at(body, '.', dot_at - start);
            assert(body.subrange(dot_at - start + 1, i - start) =~= body.subrange(
                dot_at - start + 1,
                body.len() as int,
            ));
        } else {
            assert(body.subrange(0, i - start) =~= body);
            match first_index_of(body, '.') {
                Some(d) => {
                    assert(char_is_digit(body[d]));
                },
                None => {},
            }
        }
    }
    if digits.len() == 0 {
        return None;
    }
    let scale = if seen_dot {
        digits.len() - before_dot
    } else {
        0
    };
    proof {
        if seen_dot {
            assert(scale as int == body.subrange(dot_at - start + 1, body.len() as int).len());
        }
    }
    Some(normalize_digits(neg, digits, scale))
}

/// Brings `(-1)^negative * digits / 10^scale` to normal form.
pub fn normalize_digits(negative: bool, digits: Vec<u8>, scale: usize) -> (res: PdfReal)
    requires
        all_digits_below_ten(digits@),
    ensures
        res@ == normalize_real(negative, digits@, scale as nat),
        real_normal(res@),
{
    let mut d = digits;
    let mut sc = scale;
    while sc > 0 && d.len() > 0 && d[d.len() - 1] == 0
        invariant
            strip_trailing_zeros(d@, sc as nat) == strip_trailing_zeros(digits@, scale as nat),
            all_digits_below_ten(d@),
        decreases sc,
    {
        let ghost before = d@;
        d.pop();
        assert(d@ =~= before.subrange(0, before.len() - 1));
        sc = sc - 1;
    }
    let ghost t = d@;
    let mut z: usize = 0;
    assert(d@.subrange(0, d@.len() as int) =~= d@);
    while z < d.len() && d[z] == 0
        invariant
            z <= d@.len(),
            t == d@,
            strip_leading_zeros(d@.subrange(z as int, d@.len() as int)) == strip_leading_zeros(t),
        decreases d@.len() - z,
    {
        proof {
            let r = d@.subrange(z as int, d@.len() as int);
            assert(r.subrange(1, r.len() as int) =~= d@.subrange(z + 1, d@.len() as int));
        }
        z = z + 1;
    }
    let m = vstd::slice::slice_to_vec(vstd::slice::slice_subrange(d.as_slice(), z, d.len()));
    assert(m@ =~= d@.subrange(z as int, d@.len() as int));
    let empty = m.len() == 0;
    let res = PdfReal { negative: negative && !empty, digits: m, scale: if empty { 0 } else { sc } };
    proof {
        assert(all_digits_below_ten(res.digits@)) by {
            assert forall|i: int| 0 <= i < res.digits@.len() implies #[trigger] res.digits@[i] < 10 by {
                assert(res.digits@[i] == d@[z + i]);
            }
        }
        if sc > 0 && !empty {
            assert(res.digits@[res.digits@.len() - 1] == d@[d@.len() - 1]);
        }
    }
    res
}

// ---------------------------------------------------------------- writing numbers

/// The decimal digits (as values 0..9) of a natural number; zero is one digit.
pub open spec fn nat_digit_values(n: nat) -> Seq<u8>
    decreases n,
{
    if n < 10 {
        seq![n as u8]
    } else {
        nat_digit_values(n / 10).push((n % 10) as u8)
    }
}

/// The decimal text (ASCII) of a natural number.
pub open spec fn nat_text(n: nat) -> Seq<u8> {
    Seq::new(nat_digit_values(n).len(), |i: int| (nat_digit_values(n)[i] + 48) as u8)
}

/// The decimal text of an integer, with a `-` when it is negative.
pub open spec fn int_text(i: int) -> Seq<u8> {
    if i < 0 {
        seq![45u8] + nat_text((-i) as nat)
    } else {
        nat_text(i as nat)
    }
}

/// The decimal text of a natural number, padded on the left with zeros to `width`.
pub open spec fn padded_text(n: nat, width: nat) -> Seq<u8> {
    let t = nat_text(n);
    if t.len() < width {
        Seq::new((width - t.len()) as nat, |i: int| 48u8) + t
    } else {
        t
    }
}

pub open spec fn abs_i64(m: i64) -> nat {
    if m < 0 {
        (-(m as int)) as nat
    } else {
        m as nat
    }
}

pub proof fn lemma_nat_digit_values(n: nat)
    ensures
        nat_digit_values(n).len() >= 1,
        all_digits_below_ten(nat_digit_values(n)),
    decreases n,
{
    if n >= 10 {
        lemma_nat_digit_values(n / 10);
    }
}

/// The decimal digit values of a `u64`.
pub fn u64_digit_values(n: u64) -> (res: Vec<u8>)
    ensures
        res@ == nat_digit_values(n as nat),
    decreases n,
{
    if n < 10 {
        let mut v = Vec::new();
        v.push(n as u8);
        v
    } else {
        let mut v = u64_digit_values(n / 10);
        v.push((n % 10) as u8);
        v
    }
}

/// The decimal text of a `u64`.
pub fn u64_text(n: u64) -> (res: Vec<u8>)
    ensures
        res@ == nat_text(n as nat),
{
    let d = u64_digit_values(n);
    proof {
        lemma_nat_digit_values(n as nat);
    }
    let mut out: Vec<u8> = Vec::new();
    let mut i: usize = 0;
    while i < d.len()
        invariant
            i <= d@.len(),
            d@ == nat_digit_values(n as nat),
            all_digits_below_ten(d@),
            out@ =~= Seq::new(i as nat, |k: int| (d@[k] + 48) as u8),
        decreases d@.len() - i,
    {
        out.push(d[i] + 48);
        i = i + 1;
    }
    out
}

/// The decimal text of an `i64`.
pub fn i64_text(v: i64) -> (res: Vec<u8>)
    ensures
        res@ == int_text(v as int),
{
    if v < 0 {
        let mag: u64 = (-(v as i128)) as u64;
        let t = u64_text(mag);
        let mut out: Vec<u8> = Vec::new();
        out.push(45u8);
        let mut t2 = t;
        out.append(&mut t2);
        out
    } else {
        u64_text(v as u64)
    }
}

/// The decimal text of a `u64` padded with zeros on the left to `width` characters.
pub fn padded_u64_text(n: u64, width: usize) -> (res: Vec<u8>)
    ensures
        res@ == padded_text(n as nat, width as nat),
{
    let t = u64_text(n);
    if t.len() < width {
        let k = width - t.len();
        let mut out: Vec<u8> = Vec::new();
        let mut i: usize = 0;
        while i < k
            invariant
                i <= k,
                out@ =~= Seq::new(i as nat, |j: int| 48u8),
            decreases k - i,
        {
            out.push(48u8);
            i = i + 1;
        }
        let mut t2 = t;
        out.append(&mut t2);
        out
    } else {
        t
    }
}

impl PdfReal {
    /// The real `mantissa / 10^scale`, in normal form.
    pub fn from_scaled(mantissa: i64, scale: u32) -> (res: Self)
        ensures
            real_normal(res@),
            res@ == normalize_real(mantissa < 0, nat_digit_values(abs_i64(mantissa)), scale as nat),
    {
        let mag: u64 = if mantissa < 0 {
            (-(mantissa as i128)) as u64
        } else {
            mantissa as u64
        };
        let digits = u64_digit_values(mag);
        proof {
            lemma_nat_digit_values(abs_i64(mantissa));
        }
        normalize_digits(mantissa < 0, digits, scale as usize)
    }
}

} // verus!
