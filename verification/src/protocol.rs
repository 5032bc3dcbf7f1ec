//! The wire-protocol codec: an incremental, binary-safe decoder and an
//! encoder for the tagged, self-describing RESP value tree.

use vstd::prelude::*;

verus! {

/// One decoded wire value. Payloads are raw byte strings; containers own
/// their elements, which may themselves be containers of any depth.
#[derive(Debug, PartialEq)]
pub enum ProtocolData {
    SimpleString(Vec<u8>),
    SimpleError(Vec<u8>),
    Integer(i64),
    BulkString(Vec<u8>),
    Array(Vec<ProtocolData>),
    Null,
    Boolean(bool),
    Double(Vec<u8>),
    BigNums(Vec<u8>),
    BulkError(Vec<u8>),
    Verbatim(Vec<u8>, Vec<u8>),
    MapData(Vec<(ProtocolData, ProtocolData)>),
    Attributes(Vec<(ProtocolData, ProtocolData)>),
    SetData(Vec<ProtocolData>),
    Push(Vec<ProtocolData>),
}

/// The mathematical model of a wire value, used by every contract.
pub enum ValueModel {
    SimpleString(Seq<u8>),
    SimpleError(Seq<u8>),
    Integer(int),
    BulkString(Seq<u8>),
    Array(Seq<ValueModel>),
    Null,
    Boolean(bool),
    Double(Seq<u8>),
    BigNums(Seq<u8>),
    BulkError(Seq<u8>),
    Verbatim(Seq<u8>, Seq<u8>),
    MapData(Seq<(ValueModel, ValueModel)>),
    Attributes(Seq<(ValueModel, ValueModel)>),
    SetData(Seq<ValueModel>),
    Push(Seq<ValueModel>),
}

impl ProtocolData {
    pub open spec fn view_elems(v: Seq<ProtocolData>, i: int) -> Seq<ValueModel>
        decreases v, 1int, v.len() - i,
    {
        if i < 0 || i >= v.len() {
            Seq::empty()
        } else {
            seq![v[i]@] + Self::view_elems(v, i + 1)
        }
    }

    pub open spec fn view_pairs(v: Seq<(ProtocolData, ProtocolData)>, i: int) -> Seq<(ValueModel, ValueModel)>
        decreases v, 1int, v.len() - i,
    {
        if i < 0 || i >= v.len() {
            Seq::empty()
        } else {
            seq![(v[i].0@, v[i].1@)] + Self::view_pairs(v, i + 1)
        }
    }
}

impl View for ProtocolData {
    type V = ValueModel;

    open spec fn view(&self) -> ValueModel
        decreases self, 0int, 0int,
    {
        match self {
            ProtocolData::SimpleString(s) => ValueModel::SimpleString(s@),
            ProtocolData::SimpleError(s) => ValueModel::SimpleError(s@),
            ProtocolData::Integer(v) => ValueModel::Integer(*v as int),
            ProtocolData::BulkString(s) => ValueModel::BulkString(s@),
            ProtocolData::Array(v) => ValueModel::Array(ProtocolData::view_elems(v@, 0)),
            ProtocolData::Null => ValueModel::Null,
            ProtocolData::Boolean(b) => ValueModel::Boolean(*b),
            ProtocolData::Double(s) => ValueModel::Double(s@),
            ProtocolData::BigNums(s) => ValueModel::BigNums(s@),
            ProtocolData::BulkError(s) => ValueModel::BulkError(s@),
            ProtocolData::Verbatim(e, s) => ValueModel::Verbatim(e@, s@),
            ProtocolData::MapData(v) => ValueModel::MapData(ProtocolData::view_pairs(v@, 0)),
            ProtocolData::Attributes(v) => ValueModel::Attributes(ProtocolData::view_pairs(v@, 0)),
            ProtocolData::SetData(v) => ValueModel::SetData(ProtocolData::view_elems(v@, 0)),
            ProtocolData::Push(v) => ValueModel::Push(ProtocolData::view_elems(v@, 0)),
        }
    }
}

/// Carriage return and line feed, the terminator of every line-oriented field.
pub open spec fn is_crlf_at(s: Seq<u8>, i: int) -> bool {
    0 <= i && i + 2 <= s.len() && s[i] == 13u8 && s[i + 1] == 10u8
}

/// Position of the first CRLF at or after `i`, if one is present.
pub open spec fn find_crlf(s: Seq<u8>, i: int) -> Option<int>
    decreases s.len() - i,
{
    if i < 0 || i + 2 > s.len() {
        None::<int>
    } else if s[i] == 13u8 && s[i + 1] == 10u8 {
        Some(i)
    } else {
        find_crlf(s, i + 1)
    }
}

/// Scans for the terminator of the line starting at `from`.
fn scan_crlf(s: &[u8], from: usize) -> (r: Option<usize>)
    ensures
        match r {
            Some(j) => find_crlf(s@, from as int) == Some(j as int),
            None => find_crlf(s@, from as int) is None,
        },
{
    let n: usize = s.len();
    if from > n {
        return None;
    }
    let mut i: usize = from;
    loop
        invariant
            from <= i <= n,
            n == s@.len(),
            find_crlf(s@, from as int) == find_crlf(s@, i as int),
        decreases n - i,
    {
        if n - i < 2 {
            return None;
        }
        if s[i] == 13u8 && s[i + 1] == 10u8 {
            return Some(i);
        }
        i = i + 1;
    }
}

/// Position of the first occurrence of `b` at or after `i`, if any.
pub open spec fn find_byte(s: Seq<u8>, i: int, b: u8) -> Option<int>
    decreases s.len() - i,
{
    if i < 0 || i >= s.len() {
        None::<int>
    } else if s[i] == b {
        Some(i)
    } else {
        find_byte(s, i + 1, b)
    }
}

/// Scans for the first occurrence of `b` at or after `from`.
fn scan_byte(s: &[u8], from: usize, b: u8) -> (r: Option<usize>)
    ensures
        match r {
            Some(j) => find_byte(s@, from as int, b) == Some(j as int),
            None => find_byte(s@, from as int, b) is None,
        },
{
    let n: usize = s.len();
    if from > n {
        return None;
    }
    let mut i: usize = from;
    loop
        invariant
            from <= i <= n,
            n == s@.len(),
            find_byte(s@, from as int, b) == find_byte(s@, i as int, b),
        decreases n - i,
    {
        if i >= n {
            return None;
        }
        if s[i] == b {
            return Some(i);
        }
        i = i + 1;
    }
}

pub open spec fn is_digit(b: u8) -> bool {
    48 <= b <= 57
}

pub open spec fn all_digits(s: Seq<u8>) -> bool {
    forall|i: int| 0 <= i < s.len() ==> is_digit(#[trigger] s[i])
}

/// The integer a string of decimal digits denotes.
pub open spec fn dec_val(s: Seq<u8>) -> int
    decreases s.len(),
{
    if s.len() == 0 {
        0
    } else {
        dec_val(s.drop_last()) * 10 + (s.last() - 48)
    }
}

/// The canonical decimal digit string of a non-negative integer.
pub open spec fn dec_digits(n: nat) -> Seq<u8>
    decreases n,
{
    if n < 10 {
        seq![(48 + n) as u8]
    } else {
        dec_digits(n / 10).push((48 + n % 10) as u8)
    }
}

/// The digit part of a numeric line: everything after an optional sign.
pub open spec fn num_body(s: Seq<u8>) -> Seq<u8> {
    if s.len() > 0 && (s[0] == 43 || s[0] == 45) {
        s.skip(1)
    } else {
        s
    }
}

pub open spec fn line_is_neg(s: Seq<u8>) -> bool {
    s.len() > 0 && s[0] == 45
}

/// An optional sign followed by at least one digit.
pub open spec fn valid_int_line(s: Seq<u8>) -> bool {
    num_body(s).len() > 0 && all_digits(num_body(s))
}

/// The signed value a numeric line denotes.
pub open spec fn line_int_val(s: Seq<u8>) -> int {
    if line_is_neg(s) {
        -dec_val(num_body(s))
    } else {
        dec_val(num_body(s))
    }
}

pub open spec fn valid_u64_line(s: Seq<u8>) -> bool {
    valid_int_line(s) && !line_is_neg(s) && dec_val(num_body(s)) <= u64::MAX
}

pub open spec fn valid_i64_line(s: Seq<u8>) -> bool {
    valid_int_line(s) && i64::MIN <= line_int_val(s) <= i64::MAX
}

/// ASCII lowercase of one byte.
pub open spec fn ascii_lower(b: u8) -> u8 {
    if 65 <= b <= 90 {
        (b + 32) as u8
    } else {
        b
    }
}

pub open spec fn lower_seq(s: Seq<u8>) -> Seq<u8> {
    Seq::new(s.len(), |i: int| ascii_lower(s[i]))
}

/// Position of the first exponent marker, `e` or `E`, at or after `i`.
pub open spec fn find_exp_marker(s: Seq<u8>, i: int) -> Option<int>
    decreases s.len() - i,
{
    if i < 0 || i >= s.len() {
        None::<int>
    } else if s[i] == 101 || s[i] == 69 {
        Some(i)
    } else {
        find_exp_marker(s, i + 1)
    }
}

/// The mantissa of a decimal number: digits with at most one point and at
/// least one digit.
pub open spec fn valid_double_mantissa(m: Seq<u8>) -> bool {
    match find_byte(m, 0, 46) {
        Option::None => m.len() > 0 && all_digits(m),
        Option::Some(d) => all_digits(m.take(d)) && all_digits(m.skip(d + 1)) && m.len() > 1,
    }
}

/// A mantissa with an optional exponent part: a marker, an optional sign
/// and at least one digit.
pub open spec fn valid_double_number(b: Seq<u8>) -> bool {
    match find_exp_marker(b, 0) {
        Option::None => valid_double_mantissa(b),
        Option::Some(p) => valid_double_mantissa(b.take(p)) && valid_int_line(b.skip(p + 1)),
    }
}

pub open spec fn lit_inf() -> Seq<u8> {
    seq![105u8, 110u8, 102u8]
}

pub open spec fn lit_infinity() -> Seq<u8> {
    seq![105u8, 110u8, 102u8, 105u8, 110u8, 105u8, 116u8, 121u8]
}

pub open spec fn lit_nan() -> Seq<u8> {
    seq![110u8, 97u8, 110u8]
}

/// The lines the double rule accepts: an optional sign, then either a
/// decimal number or a spelling of infinity or the not-a-number value,
/// case-insensitively.
pub open spec fn valid_double_line(s: Seq<u8>) -> bool {
    let b = num_body(s);
    ||| lower_seq(b) == lit_inf()
    ||| lower_seq(b) == lit_infinity()
    ||| lower_seq(b) == lit_nan()
    ||| valid_double_number(b)
}

proof fn lemma_dec_val_take_le(s: Seq<u8>, k: int)
    requires
        all_digits(s),
        0 <= k <= s.len(),
    ensures
        dec_val(s) >= 0,
        dec_val(s.take(k)) <= dec_val(s),
    decreases s.len(),
{
    if s.len() == 0 {
        assert(s.take(k) =~= s);
    } else {
        assert(all_digits(s.drop_last()));
        lemma_dec_val_take_le(s.drop_last(), if k <= s.len() - 1 { k } else { s.len() - 1 });
        if k == s.len() {
            assert(s.take(k) =~= s);
        } else {
            assert(s.take(k) =~= s.drop_last().take(k));
        }
    }
}

proof fn lemma_dec_digits_form(n: nat)
    ensures
        dec_digits(n).len() >= 1,
        all_digits(dec_digits(n)),
        dec_val(dec_digits(n)) == n,
    decreases n,
{
    if n < 10 {
        let d0 = dec_digits(n);
        assert(d0 =~= seq![(48 + n) as u8]);
        assert(d0.drop_last() =~= Seq::<u8>::empty());
        assert(dec_val(Seq::<u8>::empty()) == 0);
        assert(dec_val(d0) == dec_val(d0.drop_last()) * 10 + (d0.last() - 48));
    } else {
        lemma_dec_digits_form(n / 10);
        let d = dec_digits(n / 10);
        let w = d.push((48 + n % 10) as u8);
        assert(w.drop_last() =~= d);
        assert(dec_val(w) == dec_val(d) * 10 + (n % 10));
        assert(n / 10 * 10 + n % 10 == n) by (nonlinear_arith);
    }
}

/// Parses the digits of `s[lo..hi]` as an unsigned 64-bit value.
fn parse_digits_range(s: &[u8], lo: usize, hi: usize) -> (r: Option<u64>)
    requires
        lo <= hi <= s@.len(),
    ensures
        ({
            let body = s@.subrange(lo as int, hi as int);
            match r {
                Some(v) => body.len() > 0 && all_digits(body) && dec_val(body) == v,
                None => !(body.len() > 0 && all_digits(body) && dec_val(body) <= u64::MAX),
            }
        }),
{
    let ghost body = s@.subrange(lo as int, hi as int);
    if lo == hi {
        return None;
    }
    let mut acc: u64 = 0;
    let mut i: usize = lo;
    while i < hi
        invariant
            lo <= i <= hi <= s@.len(),
            body == s@.subrange(lo as int, hi as int),
            all_digits(body.take(i - lo)),
            acc == dec_val(body.take(i - lo)),
        decreases hi - i,
    {
        let b = s[i];
        proof {
            assert(body[i - lo] == s@[i as int]);
        }
        if b < 48 || b > 57 {
            proof {
                assert(!is_digit(body[i - lo]));
            }
            return None;
        }
        let d = (b - 48) as u64;
        proof {
            let t1 = body.take(i - lo + 1);
            assert(t1.drop_last() =~= body.take(i - lo));
            assert(t1.last() == body[i - lo]);
        }
        if acc > (u64::MAX - d) / 10 {
            proof {
                assert(acc * 10 + d > u64::MAX) by (nonlinear_arith)
                    requires
                        acc > (u64::MAX - d) / 10,
                        d <= 9,
                ;
                if all_digits(body) && dec_val(body) <= u64::MAX {
                    lemma_dec_val_take_le(body, i - lo + 1);
                    assert(false);
                }
            }
            return None;
        }
        proof {
            assert(acc * 10 + d <= u64::MAX) by (nonlinear_arith)
                requires
                    acc <= (u64::MAX - d) / 10,
                    d <= 9,
            ;
        }
        acc = acc * 10 + d;
        i = i + 1;
    }
    proof {
        assert(body.take(hi - lo) =~= body);
    }
    Some(acc)
}

/// Parses the line `s[lo..hi]` as an unsigned 64-bit decimal, allowing a
/// leading `+`.
fn parse_u64_range(s: &[u8], lo: usize, hi: usize) -> (r: Option<u64>)
    requires
        lo <= hi <= s@.len(),
    ensures
        ({
            let line = s@.subrange(lo as int, hi as int);
            match r {
                Some(v) => valid_u64_line(line) && line_int_val(line) == v,
                None => !valid_u64_line(line),
            }
        }),
{
    let ghost line = s@.subrange(lo as int, hi as int);
    if lo < hi && s[lo] == 43u8 {
        proof {
            assert(line[0] == 43);
            assert(line.skip(1) =~= s@.subrange(lo + 1, hi as int));
        }
        parse_digits_range(s, lo + 1, hi)
    } else if lo < hi && s[lo] == 45u8 {
        proof {
            assert(line[0] == 45);
        }
        None
    } else {
        proof {
            if line.len() > 0 {
                assert(line[0] == s@[lo as int]);
            }
            assert(num_body(line) =~= line);
        }
        parse_digits_range(s, lo, hi)
    }
}

/// Parses the line `s[lo..hi]` as a signed 64-bit decimal, allowing a
/// leading `+` or `-`.
fn parse_i64_range(s: &[u8], lo: usize, hi: usize) -> (r: Option<i64>)
    requires
        lo <= hi <= s@.len(),
    ensures
        ({
            let line = s@.subrange(lo as int, hi as int);
            match r {
                Some(v) => valid_i64_line(line) && line_int_val(line) == v,
                None => !valid_i64_line(line),
            }
        }),
{
    let ghost line = s@.subrange(lo as int, hi as int);
    if lo < hi && s[lo] == 45u8 {
        proof {
            assert(line[0] == 45);
            assert(line.skip(1) =~= s@.subrange(lo + 1, hi as int));
        }
        match parse_digits_range(s, lo + 1, hi) {
            Some(v) => {
                if v <= 9223372036854775807u64 {
                    Some(-(v as i64))
                } else if v == 9223372036854775808u64 {
                    Some(i64::MIN)
                } else {
                    None
                }
            },
            None => {
                proof {
                    let body = s@.subrange(lo + 1, hi as int);
                    if valid_i64_line(line) {
                        lemma_dec_val_take_le(body, body.len() as int);
                        assert(false);
                    }
                }
                None
            },
        }
    } else {
        if lo < hi && s[lo] == 43u8 {
            proof {
                assert(line[0] == 43);
                assert(line.skip(1) =~= s@.subrange(lo + 1, hi as int));
            }
            match parse_digits_range(s, lo + 1, hi) {
                Some(v) => {
                    if v <= 9223372036854775807u64 {
                        Some(v as i64)
                    } else {
                        None
                    }
                },
                None => None,
            }
        } else {
            proof {
                if line.len() > 0 {
                    assert(line[0] == s@[lo as int]);
                }
                assert(num_body(line) =~= line);
            }
            match parse_digits_range(s, lo, hi) {
                Some(v) => {
                    if v <= 9223372036854775807u64 {
                        Some(v as i64)
                    } else {
                        None
                    }
                },
                None => None,
            }
        }
    }
}

/// Whether every byte of `s[lo..hi]` is a decimal digit.
fn all_digits_range(s: &[u8], lo: usize, hi: usize) -> (r: bool)
    requires
        lo <= hi <= s@.len(),
    ensures
        r == all_digits(s@.subrange(lo as int, hi as int)),
{
    let ghost body = s@.subrange(lo as int, hi as int);
    let mut i: usize = lo;
    while i < hi
        invariant
            lo <= i <= hi <= s@.len(),
            body == s@.subrange(lo as int, hi as int),
            forall|t: int| 0 <= t < i - lo ==> is_digit(#[trigger] body[t]),
        decreases hi - i,
    {
        proof {
            assert(body[i - lo] == s@[i as int]);
        }
        if s[i] < 48 || s[i] > 57 {
            return false;
        }
        i = i + 1;
    }
    true
}

/// An ASCII-lowercase copy of `s[lo..hi]`.
fn lower_range(s: &[u8], lo: usize, hi: usize) -> (r: Vec<u8>)
    requires
        lo <= hi <= s@.len(),
    ensures
        r@ == lower_seq(s@.subrange(lo as int, hi as int)),
{
    let ghost body = s@.subrange(lo as int, hi as int);
    let mut out: Vec<u8> = Vec::new();
    let mut i: usize = lo;
    while i < hi
        invariant
            lo <= i <= hi <= s@.len(),
            body == s@.subrange(lo as int, hi as int),
            out@.len() == i - lo,
            forall|t: int| 0 <= t < i - lo ==> out@[t] == ascii_lower(#[trigger] body[t]),
        decreases hi - i,
    {
        proof {
            assert(body[i - lo] == s@[i as int]);
        }
        let b = s[i];
        if 65 <= b && b <= 90 {
            out.push(b + 32);
        } else {
            out.push(b);
        }
        i = i + 1;
    }
    proof {
        assert(out@ =~= lower_seq(body));
    }
    out
}

/// Scans `s[lo..hi]` for the first occurrence of `b`.
fn scan_byte_in(s: &[u8], lo: usize, hi: usize, b: u8) -> (r: Option<usize>)
    requires
        lo <= hi <= s@.len(),
    ensures
        ({
            let body = s@.subrange(lo as int, hi as int);
            match r {
                Some(p) => lo <= p < hi && find_byte(body, 0, b) == Some(p - lo),
                None => find_byte(body, 0, b) is None,
            }
        }),
{
    let ghost body = s@.subrange(lo as int, hi as int);
    let mut i: usize = lo;
    loop
        invariant
            lo <= i <= hi <= s@.len(),
            body == s@.subrange(lo as int, hi as int),
            find_byte(body, 0, b) == find_byte(body, i - lo, b),
        decreases hi - i,
    {
        if i >= hi {
            return None;
        }
        proof {
            assert(body[i - lo] == s@[i as int]);
        }
        if s[i] == b {
            return Some(i);
        }
        i = i + 1;
    }
}

/// Scans `s[lo..hi]` for the first exponent marker.
fn scan_exp_marker(s: &[u8], lo: usize, hi: usize) -> (r: Option<usize>)
    requires
        lo <= hi <= s@.len(),
    ensures
        ({
            let body = s@.subrange(lo as int, hi as int);
            match r {
                Some(p) => lo <= p < hi && find_exp_marker(body, 0) == Some(p - lo),
                None => find_exp_marker(body, 0) is None,
            }
        }),
{
    let ghost body = s@.subrange(lo as int, hi as int);
    let mut i: usize = lo;
    loop
        invariant
            lo <= i <= hi <= s@.len(),
            body == s@.subrange(lo as int, hi as int),
            find_exp_marker(body, 0) == find_exp_marker(body, i - lo),
        decreases hi - i,
    {
        if i >= hi {
            return None;
        }
        proof {
            assert(body[i - lo] == s@[i as int]);
        }
        if s[i] == 101 || s[i] == 69 {
            return Some(i);
        }
        i = i + 1;
    }
}

/// Whether `s[lo..hi]` is a well-formed decimal mantissa.
fn valid_mantissa_range(s: &[u8], lo: usize, hi: usize) -> (r: bool)
    requires
        lo <= hi <= s@.len(),
    ensures
        r == valid_double_mantissa(s@.subrange(lo as int, hi as int)),
{
    let ghost body = s@.subrange(lo as int, hi as int);
    match scan_byte_in(s, lo, hi, 46) {
        None => {
            if lo == hi {
                false
            } else {
                all_digits_range(s, lo, hi)
            }
        },
        Some(d) => {
            proof {
                assert(body.take(d - lo) =~= s@.subrange(lo as int, d as int));
                assert(body.skip(d - lo + 1) =~= s@.subrange(d + 1, hi as int));
            }
            if hi - lo <= 1 {
                false
            } else {
                all_digits_range(s, lo, d) && all_digits_range(s, d + 1, hi)
            }
        },
    }
}

/// Whether `s[lo..hi]` is a well-formed exponent: an optional sign and at
/// least one digit.
fn valid_exponent_range(s: &[u8], lo: usize, hi: usize) -> (r: bool)
    requires
        lo <= hi <= s@.len(),
    ensures
        r == valid_int_line(s@.subrange(lo as int, hi as int)),
{
    let ghost body = s@.subrange(lo as int, hi as int);
    let mut b: usize = lo;
    if lo < hi && (s[lo] == 43 || s[lo] == 45) {
        b = lo + 1;
    }
    proof {
        if body.len() > 0 {
            assert(body[0] == s@[lo as int]);
        }
        if b == lo {
            assert(num_body(body) =~= body);
        } else {
            assert(num_body(body) =~= s@.subrange(b as int, hi as int));
        }
        assert(num_body(body) =~= s@.subrange(b as int, hi as int));
    }
    if b == hi {
        false
    } else {
        all_digits_range(s, b, hi)
    }
}

/// Whether the line `s[lo..hi]` reads as a decimal number, as the double
/// rule demands.
fn valid_double_range(s: &[u8], lo: usize, hi: usize) -> (r: bool)
    requires
        lo <= hi <= s@.len(),
    ensures
        r == valid_double_line(s@.subrange(lo as int, hi as int)),
{
    let ghost line = s@.subrange(lo as int, hi as int);
    let mut b: usize = lo;
    if lo < hi && (s[lo] == 43 || s[lo] == 45) {
        b = lo + 1;
    }
    proof {
        if line.len() > 0 {
            assert(line[0] == s@[lo as int]);
        }
        if b == lo {
            assert(num_body(line) =~= line);
        } else {
            assert(num_body(line) =~= s@.subrange(b as int, hi as int));
        }
        assert(num_body(line) =~= s@.subrange(b as int, hi as int));
    }
    let ghost body = s@.subrange(b as int, hi as int);
    let low = lower_range(s, b, hi);
    if eq_bytes(&low, &vec![105u8, 110u8, 102u8]) {
        return true;
    }
    if eq_bytes(&low, &vec![105u8, 110u8, 102u8, 105u8, 110u8, 105u8, 116u8, 121u8]) {
        return true;
    }
    if eq_bytes(&low, &vec![110u8, 97u8, 110u8]) {
        return true;
    }
    match scan_exp_marker(s, b, hi) {
        None => valid_mantissa_range(s, b, hi),
        Some(p) => {
            proof {
                assert(body.take(p - b) =~= s@.subrange(b as int, p as int));
                assert(body.skip(p - b + 1) =~= s@.subrange(p + 1, hi as int));
            }
            let m_ok = valid_mantissa_range(s, b, p);
            let e_ok = valid_exponent_range(s, p + 1, hi);
            m_ok && e_ok
        },
    }
}

/// Appends the canonical decimal digits of `n`.
fn push_u64(out: &mut Vec<u8>, n: u64)
    ensures
        final(out)@ == old(out)@ + dec_digits(n as nat),
    decreases n,
{
    if n < 10 {
        out.push(48 + n as u8);
        proof {
            assert(final(out)@ =~= old(out)@ + dec_digits(n as nat));
        }
    } else {
        push_u64(out, n / 10);
        out.push(48 + (n % 10) as u8);
        proof {
            assert(final(out)@ =~= old(out)@ + dec_digits(n as nat));
        }
    }
}

/// What decoding a byte sequence yields: one complete value and the number
/// of bytes it occupied, a request for more bytes, or a grammar violation.
pub enum DecodeOutcome {
    Parsed(ValueModel, int),
    Incomplete,
    Malformed,
}

/// Decoding a run of consecutive values: the values and their total size.
pub enum ElemsOutcome {
    Parsed(Seq<ValueModel>, int),
    Incomplete,
    Malformed,
}

/// Decoding a run of consecutive key-value pairs.
pub enum PairsOutcome {
    Parsed(Seq<(ValueModel, ValueModel)>, int),
    Incomplete,
    Malformed,
}

/// The grammar of the wire format: what one value at the head of `s` means.
/// Every line-oriented field runs to the next CRLF; a missing terminator or
/// a missing byte is `Incomplete`, a violated rule is `Malformed`.
pub open spec fn spec_decode(s: Seq<u8>) -> DecodeOutcome
    decreases s.len(), 0int, 0nat,
{
    if s.len() == 0 {
        DecodeOutcome::Incomplete
    } else if s[0] == 43 || s[0] == 45 || s[0] == 40 {
        // '+' simple string, '-' simple error, '(' big number
        match find_crlf(s, 1) {
            Option::None => DecodeOutcome::Incomplete,
            Option::Some(j) => {
                let p = s.subrange(1, j);
                let v = if s[0] == 43 {
                    ValueModel::SimpleString(p)
                } else if s[0] == 45 {
                    ValueModel::SimpleError(p)
                } else {
                    ValueModel::BigNums(p)
                };
                DecodeOutcome::Parsed(v, j + 2)
            },
        }
    } else if s[0] == 44 {
        // ',' double: the line must read as a decimal number
        match find_crlf(s, 1) {
            Option::None => DecodeOutcome::Incomplete,
            Option::Some(j) => {
                let line = s.subrange(1, j);
                if valid_double_line(line) {
                    DecodeOutcome::Parsed(ValueModel::Double(line), j + 2)
                } else {
                    DecodeOutcome::Malformed
                }
            },
        }
    } else if s[0] == 58 {
        // ':' signed 64-bit integer
        match find_crlf(s, 1) {
            Option::None => DecodeOutcome::Incomplete,
            Option::Some(j) => {
                let line = s.subrange(1, j);
                if valid_i64_line(line) {
                    DecodeOutcome::Parsed(ValueModel::Integer(line_int_val(line)), j + 2)
                } else {
                    DecodeOutcome::Malformed
                }
            },
        }
    } else if s[0] == 36 || s[0] == 33 {
        // '$' bulk string, '!' bulk error: the length is declarative
        match find_crlf(s, 1) {
            Option::None => DecodeOutcome::Incomplete,
            Option::Some(j) => {
                if !valid_u64_line(s.subrange(1, j)) {
                    DecodeOutcome::Malformed
                } else {
                    match find_crlf(s, j + 2) {
                        Option::None => DecodeOutcome::Incomplete,
                        Option::Some(k) => {
                            let p = s.subrange(j + 2, k);
                            let v = if s[0] == 36 {
                                ValueModel::BulkString(p)
                            } else {
                                ValueModel::BulkError(p)
                            };
                            DecodeOutcome::Parsed(v, k + 2)
                        },
                    }
                }
            },
        }
    } else if s[0] == 42 || s[0] == 126 || s[0] == 62 {
        // '*' array, '~' set, '>' push: a count line, then that many values
        match find_crlf(s, 1) {
            Option::None => DecodeOutcome::Incomplete,
            Option::Some(j) => {
                let line = s.subrange(1, j);
                if !(1 <= j && j + 2 <= s.len() && valid_u64_line(line)) {
                    DecodeOutcome::Malformed
                } else {
                    match spec_decode_elems(s.subrange(j + 2, s.len() as int), line_int_val(line) as nat) {
                        ElemsOutcome::Incomplete => DecodeOutcome::Incomplete,
                        ElemsOutcome::Malformed => DecodeOutcome::Malformed,
                        ElemsOutcome::Parsed(vs, c) => {
                            let v = if s[0] == 42 {
                                ValueModel::Array(vs)
                            } else if s[0] == 126 {
                                ValueModel::SetData(vs)
                            } else {
                                ValueModel::Push(vs)
                            };
                            DecodeOutcome::Parsed(v, j + 2 + c)
                        },
                    }
                }
            },
        }
    } else if s[0] == 37 || s[0] == 124 {
        // '%' map, '|' attributes: a pair-count line, then that many pairs
        match find_crlf(s, 1) {
            Option::None => DecodeOutcome::Incomplete,
            Option::Some(j) => {
                let line = s.subrange(1, j);
                if !(1 <= j && j + 2 <= s.len() && valid_u64_line(line)) {
                    DecodeOutcome::Malformed
                } else {
                    match spec_decode_pairs(s.subrange(j + 2, s.len() as int), line_int_val(line) as nat) {
                        PairsOutcome::Incomplete => DecodeOutcome::Incomplete,
                        PairsOutcome::Malformed => DecodeOutcome::Malformed,
                        PairsOutcome::Parsed(ps, c) => {
                            let v = if s[0] == 37 {
                                ValueModel::MapData(ps)
                            } else {
                                ValueModel::Attributes(ps)
                            };
                            DecodeOutcome::Parsed(v, j + 2 + c)
                        },
                    }
                }
            },
        }
    } else if s[0] == 95 {
        // '_' null: the sigil and a bare terminator
        if s.len() < 2 {
            DecodeOutcome::Incomplete
        } else if s[1] != 13 {
            DecodeOutcome::Malformed
        } else if s.len() < 3 {
            DecodeOutcome::Incomplete
        } else if s[2] != 10 {
            DecodeOutcome::Malformed
        } else {
            DecodeOutcome::Parsed(ValueModel::Null, 3)
        }
    } else if s[0] == 35 {
        // '#' boolean: the sigil and one of 't' or 'f'
        if s.len() < 2 {
            DecodeOutcome::Incomplete
        } else if s[1] == 116 {
            DecodeOutcome::Parsed(ValueModel::Boolean(true), 2)
        } else if s[1] == 102 {
            DecodeOutcome::Parsed(ValueModel::Boolean(false), 2)
        } else {
            DecodeOutcome::Malformed
        }
    } else if s[0] == 61 {
        // '=' verbatim string: a length line, a three-character encoding
        // tag, ':', payload
        match find_crlf(s, 1) {
            Option::None => DecodeOutcome::Incomplete,
            Option::Some(j) => {
                if !valid_u64_line(s.subrange(1, j)) {
                    DecodeOutcome::Malformed
                } else {
                    match find_byte(s, j + 2, 58) {
                        Option::None => DecodeOutcome::Incomplete,
                        Option::Some(t) => {
                            if t != j + 5 {
                                // the encoding tag is exactly three characters
                                DecodeOutcome::Malformed
                            } else {
                                match find_crlf(s, t + 1) {
                                    Option::None => DecodeOutcome::Incomplete,
                                    Option::Some(k) => DecodeOutcome::Parsed(
                                        ValueModel::Verbatim(
                                            s.subrange(j + 2, t),
                                            s.subrange(t + 1, k),
                                        ),
                                        k + 2,
                                    ),
                                }
                            }
                        },
                    }
                }
            },
        }
    } else {
        DecodeOutcome::Malformed
    }
}

/// Decodes `n` consecutive values from the head of `s`.
pub open spec fn spec_decode_elems(s: Seq<u8>, n: nat) -> ElemsOutcome
    decreases s.len(), 1int, n,
{
    if n == 0 {
        ElemsOutcome::Parsed(Seq::empty(), 0)
    } else {
        match spec_decode(s) {
            DecodeOutcome::Incomplete => ElemsOutcome::Incomplete,
            DecodeOutcome::Malformed => ElemsOutcome::Malformed,
            DecodeOutcome::Parsed(v, c) => {
                if 1 <= c <= s.len() {
                    match spec_decode_elems(s.subrange(c, s.len() as int), (n - 1) as nat) {
                        ElemsOutcome::Incomplete => ElemsOutcome::Incomplete,
                        ElemsOutcome::Malformed => ElemsOutcome::Malformed,
                        ElemsOutcome::Parsed(vs, c2) => ElemsOutcome::Parsed(seq![v] + vs, c + c2),
                    }
                } else {
                    ElemsOutcome::Malformed
                }
            },
        }
    }
}

/// Decodes `n` consecutive key-value pairs from the head of `s`.
pub open spec fn spec_decode_pairs(s: Seq<u8>, n: nat) -> PairsOutcome
    decreases s.len(), 1int, n,
{
    if n == 0 {
        PairsOutcome::Parsed(Seq::empty(), 0)
    } else {
        match spec_decode(s) {
            DecodeOutcome::Incomplete => PairsOutcome::Incomplete,
            DecodeOutcome::Malformed => PairsOutcome::Malformed,
            DecodeOutcome::Parsed(kv, c1) => {
                if 1 <= c1 <= s.len() {
                    match spec_decode(s.subrange(c1, s.len() as int)) {
                        DecodeOutcome::Incomplete => PairsOutcome::Incomplete,
                        DecodeOutcome::Malformed => PairsOutcome::Malformed,
                        DecodeOutcome::Parsed(vv, c2) => {
                            if 1 <= c2 <= s.len() - c1 {
                                match spec_decode_pairs(s.subrange(c1 + c2, s.len() as int), (n - 1) as nat) {
                                    PairsOutcome::Incomplete => PairsOutcome::Incomplete,
                                    PairsOutcome::Malformed => PairsOutcome::Malformed,
                                    PairsOutcome::Parsed(ps, c3) => PairsOutcome::Parsed(
                                        seq![(kv, vv)] + ps,
                                        c1 + c2 + c3,
                                    ),
                                }
                            } else {
                                PairsOutcome::Malformed
                            }
                        },
                    }
                } else {
                    PairsOutcome::Malformed
                }
            },
        }
    }
}

proof fn lemma_find_crlf_props(s: Seq<u8>, i: int)
    requires
        i >= 0,
    ensures
        match find_crlf(s, i) {
            Option::Some(j) => i <= j && is_crlf_at(s, j),
            Option::None => true,
        },
    decreases s.len() - i,
{
    if i + 2 <= s.len() && !(s[i] == 13 && s[i + 1] == 10) {
        lemma_find_crlf_props(s, i + 1);
    }
}

proof fn lemma_find_byte_props(s: Seq<u8>, i: int, b: u8)
    requires
        i >= 0,
    ensures
        match find_byte(s, i, b) {
            Option::Some(j) => i <= j < s.len() && s[j] == b,
            Option::None => true,
        },
    decreases s.len() - i,
{
    if i < s.len() && s[i] != b {
        lemma_find_byte_props(s, i + 1, b);
    }
}

pub proof fn lemma_view_elems_props(v: Seq<ProtocolData>, i: int)
    requires
        0 <= i <= v.len(),
    ensures
        ProtocolData::view_elems(v, i).len() == v.len() - i,
        forall|t: int| i <= t < v.len() ==> ProtocolData::view_elems(v, i)[t - i] == v[t]@,
    decreases v.len() - i,
{
    if i < v.len() {
        lemma_view_elems_props(v, i + 1);
        assert(ProtocolData::view_elems(v, i) == seq![v[i]@] + ProtocolData::view_elems(v, i + 1));
        assert forall|t: int| i <= t < v.len() implies ProtocolData::view_elems(v, i)[t - i]
            == v[t]@ by {
            if t == i {
                assert(ProtocolData::view_elems(v, i)[0] == v[i]@);
            } else {
                assert(ProtocolData::view_elems(v, i)[t - i] == ProtocolData::view_elems(
                    v,
                    i + 1,
                )[t - (i + 1)]);
            }
        }
    } else {
        assert(ProtocolData::view_elems(v, i) == Seq::<ValueModel>::empty());
    }
}

pub proof fn lemma_view_pairs_props(v: Seq<(ProtocolData, ProtocolData)>, i: int)
    requires
        0 <= i <= v.len(),
    ensures
        ProtocolData::view_pairs(v, i).len() == v.len() - i,
        forall|t: int| i <= t < v.len() ==> ProtocolData::view_pairs(v, i)[t - i] == (
        v[t].0@,
        v[t].1@,
        ),
    decreases v.len() - i,
{
    if i < v.len() {
        lemma_view_pairs_props(v, i + 1);
        assert(ProtocolData::view_pairs(v, i) == seq![(v[i].0@, v[i].1@)]
            + ProtocolData::view_pairs(v, i + 1));
        assert forall|t: int| i <= t < v.len() implies ProtocolData::view_pairs(v, i)[t - i] == (
        v[t].0@,
        v[t].1@,
        ) by {
            if t == i {
                assert(ProtocolData::view_pairs(v, i)[0] == (v[i].0@, v[i].1@));
            } else {
                assert(ProtocolData::view_pairs(v, i)[t - i] == ProtocolData::view_pairs(
                    v,
                    i + 1,
                )[t - (i + 1)]);
            }
        }
    } else {
        assert(ProtocolData::view_pairs(v, i) == Seq::<(ValueModel, ValueModel)>::empty());
    }
}

proof fn lemma_view_elems_push(v: Seq<ProtocolData>, x: ProtocolData)
    ensures
        ProtocolData::view_elems(v.push(x), 0) == ProtocolData::view_elems(v, 0) + seq![x@],
{
    lemma_view_elems_props(v, 0);
    lemma_view_elems_props(v.push(x), 0);
    assert forall|t: int| 0 <= t < v.len() + 1 implies ProtocolData::view_elems(v.push(x), 0)[t]
        == (ProtocolData::view_elems(v, 0) + seq![x@])[t] by {
        assert(ProtocolData::view_elems(v.push(x), 0)[t - 0] == v.push(x)[t]@);
        if t < v.len() {
            assert(v.push(x)[t] == v[t]);
            assert(ProtocolData::view_elems(v, 0)[t - 0] == v[t]@);
        } else {
            assert(v.push(x)[t] == x);
        }
    }
    assert(ProtocolData::view_elems(v.push(x), 0) =~= ProtocolData::view_elems(v, 0) + seq![x@]);
}

proof fn lemma_view_pairs_push(v: Seq<(ProtocolData, ProtocolData)>, x: (ProtocolData, ProtocolData))
    ensures
        ProtocolData::view_pairs(v.push(x), 0) == ProtocolData::view_pairs(v, 0) + seq![
            (x.0@, x.1@),
        ],
{
    lemma_view_pairs_props(v, 0);
    lemma_view_pairs_props(v.push(x), 0);
    assert forall|t: int| 0 <= t < v.len() + 1 implies ProtocolData::view_pairs(v.push(x), 0)[t]
        == (ProtocolData::view_pairs(v, 0) + seq![(x.0@, x.1@)])[t] by {
        assert(ProtocolData::view_pairs(v.push(x), 0)[t - 0] == (v.push(x)[t].0@, v.push(x)[t].1@));
        if t < v.len() {
            assert(v.push(x)[t] == v[t]);
            assert(ProtocolData::view_pairs(v, 0)[t - 0] == (v[t].0@, v[t].1@));
        } else {
            assert(v.push(x)[t] == x);
        }
    }
    assert(ProtocolData::view_pairs(v.push(x), 0) =~= ProtocolData::view_pairs(v, 0) + seq![
        (x.0@, x.1@),
    ]);
}

/// Prefixes decoded values and their size onto a run outcome.
pub open spec fn elems_prepend(vs: Seq<ValueModel>, c: int, o: ElemsOutcome) -> ElemsOutcome {
    match o {
        ElemsOutcome::Parsed(vs2, c2) => ElemsOutcome::Parsed(vs + vs2, c + c2),
        ElemsOutcome::Incomplete => ElemsOutcome::Incomplete,
        ElemsOutcome::Malformed => ElemsOutcome::Malformed,
    }
}

/// Prefixes decoded pairs and their size onto a pair-run outcome.
pub open spec fn pairs_prepend(ps: Seq<(ValueModel, ValueModel)>, c: int, o: PairsOutcome) -> PairsOutcome {
    match o {
        PairsOutcome::Parsed(ps2, c2) => PairsOutcome::Parsed(ps + ps2, c + c2),
        PairsOutcome::Incomplete => PairsOutcome::Incomplete,
        PairsOutcome::Malformed => PairsOutcome::Malformed,
    }
}

proof fn lemma_elems_prepend_join(a: Seq<ValueModel>, c1: int, b: Seq<ValueModel>, c2: int, o: ElemsOutcome)
    ensures
        elems_prepend(a, c1, elems_prepend(b, c2, o)) == elems_prepend(a + b, c1 + c2, o),
{
    match o {
        ElemsOutcome::Parsed(vs, c) => {
            assert(a + (b + vs) =~= (a + b) + vs);
        },
        _ => {},
    }
}

proof fn lemma_pairs_prepend_join(
    a: Seq<(ValueModel, ValueModel)>,
    c1: int,
    b: Seq<(ValueModel, ValueModel)>,
    c2: int,
    o: PairsOutcome,
)
    ensures
        pairs_prepend(a, c1, pairs_prepend(b, c2, o)) == pairs_prepend(a + b, c1 + c2, o),
{
    match o {
        PairsOutcome::Parsed(ps, c) => {
            assert(a + (b + ps) =~= (a + b) + ps);
        },
        _ => {},
    }
}

/// Why a buffer was rejected as malformed.
#[derive(Clone, Copy, PartialEq, Eq, Debug)]
pub enum DecodeFault {
    UnknownSigil,
    BadLength,
    BadInteger,
    BadDouble,
    BadTerminator,
    BadBoolean,
    BadTag,
}

/// What the decoder reports for a buffer: a complete value and how many
/// bytes of the buffer it occupied, a request for more bytes, or a
/// diagnostic for a grammar violation.
#[derive(Debug, PartialEq)]
pub enum ParseOutcome {
    Parsed(ProtocolData, usize),
    Incomplete,
    Malformed(DecodeFault),
}

/// The decoder's outcome agrees with the grammar's, up to the diagnostic.
pub open spec fn outcome_models(r: ParseOutcome, m: DecodeOutcome) -> bool {
    match r {
        ParseOutcome::Parsed(v, c) => m == DecodeOutcome::Parsed(v@, c as int),
        ParseOutcome::Incomplete => m == DecodeOutcome::Incomplete,
        ParseOutcome::Malformed(_) => m == DecodeOutcome::Malformed,
    }
}

fn copy_range(s: &[u8], lo: usize, hi: usize) -> (r: Vec<u8>)
    requires
        lo <= hi <= s@.len(),
    ensures
        r@ == s@.subrange(lo as int, hi as int),
{
    vstd::slice::slice_to_vec(vstd::slice::slice_subrange(s, lo, hi))
}

/// A fresh byte string with the same contents.
pub(crate) fn clone_bytes(v: &Vec<u8>) -> (r: Vec<u8>)
    ensures
        r@ == v@,
{
    let r = vstd::slice::slice_to_vec(v.as_slice());
    proof {
        assert(r@ =~= v@);
    }
    r
}

/// Whether two byte strings hold the same bytes.
pub(crate) fn eq_bytes(a: &Vec<u8>, b: &Vec<u8>) -> (r: bool)
    ensures
        r == (a@ == b@),
{
    if a.len() != b.len() {
        proof {
            assert(a@ != b@);
        }
        return false;
    }
    let n = a.len();
    let mut i: usize = 0;
    while i < n
        invariant
            0 <= i <= n,
            n == a@.len() == b@.len(),
            forall|t: int| 0 <= t < i ==> a@[t] == b@[t],
        decreases n - i,
    {
        if a[i] != b[i] {
            return false;
        }
        i = i + 1;
    }
    proof {
        assert(a@ =~= b@);
    }
    true
}

/// Parses a whole line as an unsigned 64-bit decimal, allowing a
/// leading `+`.
pub fn parse_u64_slice(s: &[u8]) -> (r: Option<u64>)
    ensures
        match r {
            Some(v) => valid_u64_line(s@) && line_int_val(s@) == v,
            None => !valid_u64_line(s@),
        },
{
    proof {
        assert(s@.subrange(0, s@.len() as int) =~= s@);
    }
    parse_u64_range(s, 0, s.len())
}

/// Decodes one value from the head of the buffer. Never needs the whole
/// buffer: it consumes exactly the prefix that one value occupies, and
/// reports `Incomplete` whenever the bytes seen so far are a strict prefix
/// of some longer value.
#[verifier::loop_isolation(false)]
#[verifier::rlimit(100)]
pub fn parse_protocol(s: &[u8]) -> (r: ParseOutcome)
    ensures
        outcome_models(r, spec_decode(s@)),
        r matches ParseOutcome::Parsed(_, c) ==> 1 <= c <= s@.len(),
    decreases s@.len(),
{
    let n: usize = s.len();
    if n == 0 {
        return ParseOutcome::Incomplete;
    }
    let sig = s[0];
    if sig == 43 || sig == 45 || sig == 40 {
        // '+', '-', '(': one line of payload
        proof {
            lemma_find_crlf_props(s@, 1);
        }
        match scan_crlf(s, 1) {
            Option::None => ParseOutcome::Incomplete,
            Option::Some(j) => {
                let payload = copy_range(s, 1, j);
                let v = if sig == 43 {
                    ProtocolData::SimpleString(payload)
                } else if sig == 45 {
                    ProtocolData::SimpleError(payload)
                } else {
                    ProtocolData::BigNums(payload)
                };
                ParseOutcome::Parsed(v, j + 2)
            },
        }
    } else if sig == 44 {
        // ',': a line that must read as a decimal number
        proof {
            lemma_find_crlf_props(s@, 1);
        }
        match scan_crlf(s, 1) {
            Option::None => ParseOutcome::Incomplete,
            Option::Some(j) => {
                if valid_double_range(s, 1, j) {
                    ParseOutcome::Parsed(ProtocolData::Double(copy_range(s, 1, j)), j + 2)
                } else {
                    ParseOutcome::Malformed(DecodeFault::BadDouble)
                }
            },
        }
    } else if sig == 58 {
        // ':': a signed decimal line
        proof {
            lemma_find_crlf_props(s@, 1);
        }
        match scan_crlf(s, 1) {
            Option::None => ParseOutcome::Incomplete,
            Option::Some(j) => {
                match parse_i64_range(s, 1, j) {
                    Option::Some(v) => ParseOutcome::Parsed(ProtocolData::Integer(v), j + 2),
                    Option::None => ParseOutcome::Malformed(DecodeFault::BadInteger),
                }
            },
        }
    } else if sig == 36 || sig == 33 {
        // '$', '!': a declarative length line, then one payload line
        proof {
            lemma_find_crlf_props(s@, 1);
        }
        match scan_crlf(s, 1) {
            Option::None => ParseOutcome::Incomplete,
            Option::Some(j) => {
                match parse_u64_range(s, 1, j) {
                    Option::None => ParseOutcome::Malformed(DecodeFault::BadLength),
                    Option::Some(_declared) => {
                        proof {
                            lemma_find_crlf_props(s@, j + 2);
                        }
                        match scan_crlf(s, j + 2) {
                            Option::None => ParseOutcome::Incomplete,
                            Option::Some(k) => {
                                let payload = copy_range(s, j + 2, k);
                                let v = if sig == 36 {
                                    ProtocolData::BulkString(payload)
                                } else {
                                    ProtocolData::BulkError(payload)
                                };
                                ParseOutcome::Parsed(v, k + 2)
                            },
                        }
                    },
                }
            },
        }
    } else if sig == 42 || sig == 126 || sig == 62 {
        // '*', '~', '>': a count line, then that many values
        proof {
            lemma_find_crlf_props(s@, 1);
        }
        match scan_crlf(s, 1) {
            Option::None => ParseOutcome::Incomplete,
            Option::Some(j) => {
                match parse_u64_range(s, 1, j) {
                    Option::None => ParseOutcome::Malformed(DecodeFault::BadLength),
                    Option::Some(count) => {
                        let start: usize = j + 2;
                        let ghost tail = s@.subrange(start as int, n as int);
                        let mut elems: Vec<ProtocolData> = Vec::new();
                        let mut cur: usize = start;
                        let mut k: u64 = 0;
                        proof {
                            lemma_view_elems_props(elems@, 0);
                            assert(ProtocolData::view_elems(elems@, 0) =~= Seq::<ValueModel>::empty());
                            match spec_decode_elems(tail, count as nat) {
                                ElemsOutcome::Parsed(vs2, c2) => {
                                    assert(Seq::<ValueModel>::empty() + vs2 =~= vs2);
                                },
                                _ => {},
                            }
                        }
                        while k < count
                            invariant
                                n == s@.len(),
                                start == j + 2,
                                1 <= j,
                                start <= cur <= n,
                                k <= count,
                                elems@.len() == k as int,
                                tail == s@.subrange(start as int, n as int),
                                spec_decode_elems(tail, count as nat) == elems_prepend(
                                    ProtocolData::view_elems(elems@, 0),
                                    cur - start,
                                    spec_decode_elems(
                                        s@.subrange(cur as int, n as int),
                                        (count - k) as nat,
                                    ),
                                ),
                            decreases count - k,
                        {
                            let sub = vstd::slice::slice_subrange(s, cur, n);
                            let ghost rem = s@.subrange(cur as int, n as int);
                            let ghost m = (count - k) as nat;
                            let step = parse_protocol(sub);
                            match step {
                                ParseOutcome::Incomplete => {
                                    proof {
                                        assert(spec_decode_elems(rem, m) == ElemsOutcome::Incomplete);
                                    }
                                    return ParseOutcome::Incomplete;
                                },
                                ParseOutcome::Malformed(f) => {
                                    proof {
                                        assert(spec_decode_elems(rem, m) == ElemsOutcome::Malformed);
                                    }
                                    return ParseOutcome::Malformed(f);
                                },
                                ParseOutcome::Parsed(pv, c) => {
                                    proof {
                                        let rem2 = rem.subrange(c as int, rem.len() as int);
                                        assert(rem2 =~= s@.subrange(cur + c, n as int));
                                        assert(spec_decode_elems(rem, m) == elems_prepend(
                                            seq![pv@],
                                            c as int,
                                            spec_decode_elems(rem2, (m - 1) as nat),
                                        ));
                                        lemma_elems_prepend_join(
                                            ProtocolData::view_elems(elems@, 0),
                                            cur - start,
                                            seq![pv@],
                                            c as int,
                                            spec_decode_elems(rem2, (m - 1) as nat),
                                        );
                                        lemma_view_elems_push(elems@, pv);
                                    }
                                    elems.push(pv);
                                    cur = cur + c;
                                    k = k + 1;
                                },
                            }
                        }
                        proof {
                            let remf = s@.subrange(cur as int, n as int);
                            assert(spec_decode_elems(remf, 0nat) == ElemsOutcome::Parsed(
                                Seq::<ValueModel>::empty(),
                                0,
                            ));
                            assert(ProtocolData::view_elems(elems@, 0) + Seq::<ValueModel>::empty()
                                =~= ProtocolData::view_elems(elems@, 0));
                        }
                        let v = if sig == 42 {
                            ProtocolData::Array(elems)
                        } else if sig == 126 {
                            ProtocolData::SetData(elems)
                        } else {
                            ProtocolData::Push(elems)
                        };
                        ParseOutcome::Parsed(v, cur)
                    },
                }
            },
        }
    } else if sig == 37 || sig == 124 {
        // '%', '|': a pair-count line, then that many key-value pairs
        proof {
            lemma_find_crlf_props(s@, 1);
        }
        match scan_crlf(s, 1) {
            Option::None => ParseOutcome::Incomplete,
            Option::Some(j) => {
                match parse_u64_range(s, 1, j) {
                    Option::None => ParseOutcome::Malformed(DecodeFault::BadLength),
                    Option::Some(count) => {
                        let start: usize = j + 2;
                        let ghost tail = s@.subrange(start as int, n as int);
                        let mut pairs: Vec<(ProtocolData, ProtocolData)> = Vec::new();
                        let mut cur: usize = start;
                        let mut k: u64 = 0;
                        proof {
                            lemma_view_pairs_props(pairs@, 0);
                            assert(ProtocolData::view_pairs(pairs@, 0) =~= Seq::<(
                                ValueModel,
                                ValueModel,
                            )>::empty());
                            match spec_decode_pairs(tail, count as nat) {
                                PairsOutcome::Parsed(ps2, c2) => {
                                    assert(Seq::<(ValueModel, ValueModel)>::empty() + ps2 =~= ps2);
                                },
                                _ => {},
                            }
                        }
                        while k < count
                            invariant
                                n == s@.len(),
                                start == j + 2,
                                1 <= j,
                                start <= cur <= n,
                                k <= count,
                                pairs@.len() == k as int,
                                tail == s@.subrange(start as int, n as int),
                                spec_decode_pairs(tail, count as nat) == pairs_prepend(
                                    ProtocolData::view_pairs(pairs@, 0),
                                    cur - start,
                                    spec_decode_pairs(
                                        s@.subrange(cur as int, n as int),
                                        (count - k) as nat,
                                    ),
                                ),
                            decreases count - k,
                        {
                            let ghost rem = s@.subrange(cur as int, n as int);
                            let ghost m = (count - k) as nat;
                            let sub = vstd::slice::slice_subrange(s, cur, n);
                            let kstep = parse_protocol(sub);
                            match kstep {
                                ParseOutcome::Incomplete => {
                                    proof {
                                        assert(spec_decode_pairs(rem, m) == PairsOutcome::Incomplete);
                                    }
                                    return ParseOutcome::Incomplete;
                                },
                                ParseOutcome::Malformed(f) => {
                                    proof {
                                        assert(spec_decode_pairs(rem, m) == PairsOutcome::Malformed);
                                    }
                                    return ParseOutcome::Malformed(f);
                                },
                                ParseOutcome::Parsed(kv, c1) => {
                                    let ghost rem2 = rem.subrange(c1 as int, rem.len() as int);
                                    proof {
                                        assert(rem2 =~= s@.subrange(cur + c1, n as int));
                                    }
                                    let sub2 = vstd::slice::slice_subrange(s, cur + c1, n);
                                    let vstep = parse_protocol(sub2);
                                    match vstep {
                                        ParseOutcome::Incomplete => {
                                            proof {
                                                assert(spec_decode_pairs(rem, m)
                                                    == PairsOutcome::Incomplete);
                                            }
                                            return ParseOutcome::Incomplete;
                                        },
                                        ParseOutcome::Malformed(f) => {
                                            proof {
                                                assert(spec_decode_pairs(rem, m)
                                                    == PairsOutcome::Malformed);
                                            }
                                            return ParseOutcome::Malformed(f);
                                        },
                                        ParseOutcome::Parsed(vv, c2) => {
                                            proof {
                                                let rem3 = rem.subrange(
                                                    (c1 + c2) as int,
                                                    rem.len() as int,
                                                );
                                                assert(rem3 =~= s@.subrange(cur + c1 + c2, n as int));
                                                assert(rem2.subrange(c2 as int, rem2.len() as int)
                                                    =~= rem3);
                                                assert(spec_decode_pairs(rem, m) == pairs_prepend(
                                                    seq![(kv@, vv@)],
                                                    c1 + c2,
                                                    spec_decode_pairs(rem3, (m - 1) as nat),
                                                ));
                                                lemma_pairs_prepend_join(
                                                    ProtocolData::view_pairs(pairs@, 0),
                                                    cur - start,
                                                    seq![(kv@, vv@)],
                                                    c1 + c2,
                                                    spec_decode_pairs(rem3, (m - 1) as nat),
                                                );
                                                lemma_view_pairs_push(pairs@, (kv, vv));
                                            }
                                            pairs.push((kv, vv));
                                            cur = cur + c1 + c2;
                                            k = k + 1;
                                        },
                                    }
                                },
                            }
                        }
                        proof {
                            let remf = s@.subrange(cur as int, n as int);
                            assert(spec_decode_pairs(remf, 0nat) == PairsOutcome::Parsed(
                                Seq::<(ValueModel, ValueModel)>::empty(),
                                0,
                            ));
                            assert(ProtocolData::view_pairs(pairs@, 0) + Seq::<(
                                ValueModel,
                                ValueModel,
                            )>::empty() =~= ProtocolData::view_pairs(pairs@, 0));
                        }
                        let v = if sig == 37 {
                            ProtocolData::MapData(pairs)
                        } else {
                            ProtocolData::Attributes(pairs)
                        };
                        ParseOutcome::Parsed(v, cur)
                    },
                }
            },
        }
    } else if sig == 95 {
        // '_': the sigil and a bare terminator
        if n < 2 {
            ParseOutcome::Incomplete
        } else if s[1] != 13 {
            ParseOutcome::Malformed(DecodeFault::BadTerminator)
        } else if n < 3 {
            ParseOutcome::Incomplete
        } else if s[2] != 10 {
            ParseOutcome::Malformed(DecodeFault::BadTerminator)
        } else {
            ParseOutcome::Parsed(ProtocolData::Null, 3)
        }
    } else if sig == 35 {
        // '#': the sigil and one of 't' or 'f'
        if n < 2 {
            ParseOutcome::Incomplete
        } else if s[1] == 116 {
            ParseOutcome::Parsed(ProtocolData::Boolean(true), 2)
        } else if s[1] == 102 {
            ParseOutcome::Parsed(ProtocolData::Boolean(false), 2)
        } else {
            ParseOutcome::Malformed(DecodeFault::BadBoolean)
        }
    } else if sig == 61 {
        // '=': a length line, a three-character encoding tag, ':', payload
        proof {
            lemma_find_crlf_props(s@, 1);
        }
        match scan_crlf(s, 1) {
            Option::None => ParseOutcome::Incomplete,
            Option::Some(j) => {
                match parse_u64_range(s, 1, j) {
                    Option::None => ParseOutcome::Malformed(DecodeFault::BadLength),
                    Option::Some(_declared) => {
                        proof {
                            lemma_find_byte_props(s@, j + 2, 58);
                        }
                        match scan_byte(s, j + 2, 58) {
                            Option::None => ParseOutcome::Incomplete,
                            Option::Some(t) => {
                                if t - (j + 2) != 3 {
                                    return ParseOutcome::Malformed(DecodeFault::BadTag);
                                }
                                proof {
                                    lemma_find_crlf_props(s@, t + 1);
                                }
                                match scan_crlf(s, t + 1) {
                                    Option::None => ParseOutcome::Incomplete,
                                    Option::Some(kk) => {
                                        let enc = copy_range(s, j + 2, t);
                                        let payload = copy_range(s, t + 1, kk);
                                        ParseOutcome::Parsed(
                                            ProtocolData::Verbatim(enc, payload),
                                            kk + 2,
                                        )
                                    },
                                }
                            },
                        }
                    },
                }
            },
        }
    } else {
        ParseOutcome::Malformed(DecodeFault::UnknownSigil)
    }
}

/// The wire form of a signed decimal: an optional minus sign and digits.
pub open spec fn int_line(i: int) -> Seq<u8> {
    if i < 0 {
        seq![45u8] + dec_digits((-i) as nat)
    } else {
        dec_digits(i as nat)
    }
}

/// Appends the wire form of a signed 64-bit decimal.
fn push_i64(out: &mut Vec<u8>, v: i64)
    ensures
        final(out)@ == old(out)@ + int_line(v as int),
{
    if v < 0 {
        out.push(45u8);
        let mag: u64 = if v == i64::MIN {
            9223372036854775808u64
        } else {
            (-v) as u64
        };
        push_u64(out, mag);
        proof {
            assert(final(out)@ =~= old(out)@ + int_line(v as int));
        }
    } else {
        push_u64(out, v as u64);
    }
}

/// A payload that can sit on one line: it contains no CRLF pair.
pub open spec fn payload_ok(p: Seq<u8>) -> bool {
    forall|i: int| 0 <= i && i + 1 < p.len() ==> !(#[trigger] p[i] == 13u8 && p[i + 1] == 10u8)
}

/// The values the encoder can produce: the reply variants of the command
/// layer and arrays of such values, with sizes a length line can carry.
pub open spec fn spec_encodable(m: ValueModel) -> bool
    decreases m,
{
    match m {
        ValueModel::SimpleString(_) => true,
        ValueModel::SimpleError(_) => true,
        ValueModel::Integer(i) => i64::MIN <= i <= i64::MAX,
        ValueModel::BulkString(p) => p.len() <= u64::MAX,
        ValueModel::Null => true,
        ValueModel::Array(vs) => vs.len() <= u64::MAX && (forall|i: int|
            0 <= i < vs.len() ==> spec_encodable(#[trigger] vs[i])),
        _ => false,
    }
}

/// No payload anywhere in the value embeds a CRLF pair, so each payload
/// ends exactly where its line does.
pub open spec fn wire_safe(m: ValueModel) -> bool
    decreases m,
{
    match m {
        ValueModel::SimpleString(p) => payload_ok(p),
        ValueModel::SimpleError(p) => payload_ok(p),
        ValueModel::BulkString(p) => payload_ok(p),
        ValueModel::Array(vs) => forall|i: int| 0 <= i < vs.len() ==> wire_safe(#[trigger] vs[i]),
        _ => true,
    }
}

pub open spec fn crlf() -> Seq<u8> {
    seq![13u8, 10u8]
}

/// The exact wire bytes of an encodable value.
pub open spec fn spec_encode(m: ValueModel) -> Seq<u8>
    decreases m, 0int, 0int,
{
    match m {
        ValueModel::SimpleString(p) => seq![43u8] + p + crlf(),
        ValueModel::SimpleError(p) => seq![45u8] + p + crlf(),
        ValueModel::Integer(i) => seq![58u8] + int_line(i) + crlf(),
        ValueModel::BulkString(p) => seq![36u8] + dec_digits(p.len()) + crlf() + p + crlf(),
        ValueModel::Null => seq![95u8, 13u8, 10u8],
        ValueModel::Array(vs) => seq![42u8] + dec_digits(vs.len()) + crlf() + spec_encode_elems(
            vs,
            0,
        ),
        _ => Seq::empty(),
    }
}

/// The concatenated wire bytes of the values from index `i` on.
pub open spec fn spec_encode_elems(vs: Seq<ValueModel>, i: int) -> Seq<u8>
    decreases vs, 1int, vs.len() - i,
{
    if i < 0 || i >= vs.len() {
        Seq::empty()
    } else {
        spec_encode(vs[i]) + spec_encode_elems(vs, i + 1)
    }
}

/// Appends the payload bytes of `src`.
fn push_bytes(out: &mut Vec<u8>, src: &Vec<u8>)
    ensures
        final(out)@ == old(out)@ + src@,
{
    out.extend_from_slice(src.as_slice());
}

#[verifier::loop_isolation(false)]
fn encode_into(p: &ProtocolData, out: &mut Vec<u8>)
    requires
        spec_encodable(p@),
    ensures
        final(out)@ == old(out)@ + spec_encode(p@),
    decreases *p,
{
    match p {
        ProtocolData::SimpleString(s) => {
            out.push(43u8);
            push_bytes(out, s);
            out.push(13u8);
            out.push(10u8);
            proof {
                assert(out@ =~= old(out)@ + spec_encode(p@));
            }
        },
        ProtocolData::SimpleError(s) => {
            out.push(45u8);
            push_bytes(out, s);
            out.push(13u8);
            out.push(10u8);
            proof {
                assert(out@ =~= old(out)@ + spec_encode(p@));
            }
        },
        ProtocolData::Integer(v) => {
            out.push(58u8);
            push_i64(out, *v);
            out.push(13u8);
            out.push(10u8);
            proof {
                assert(out@ =~= old(out)@ + spec_encode(p@));
            }
        },
        ProtocolData::BulkString(s) => {
            out.push(36u8);
            push_u64(out, s.len() as u64);
            out.push(13u8);
            out.push(10u8);
            push_bytes(out, s);
            out.push(13u8);
            out.push(10u8);
            proof {
                assert(out@ =~= old(out)@ + spec_encode(p@));
            }
        },
        ProtocolData::Null => {
            out.push(95u8);
            out.push(13u8);
            out.push(10u8);
            proof {
                assert(out@ =~= old(out)@ + spec_encode(p@));
            }
        },
        ProtocolData::Array(v) => {
            let ghost vs = ProtocolData::view_elems(v@, 0);
            proof {
                lemma_view_elems_props(v@, 0);
            }
            out.push(42u8);
            push_u64(out, v.len() as u64);
            out.push(13u8);
            out.push(10u8);
            let ghost base = out@;
            let mut k: usize = 0;
            while k < v.len()
                invariant
                    0 <= k <= v@.len(),
                    spec_encodable(p@),
                    vs == ProtocolData::view_elems(v@, 0),
                    vs.len() == v@.len(),
                    forall|t: int| 0 <= t < v@.len() ==> vs[t] == v@[t]@,
                    base + spec_encode_elems(vs, 0) == out@ + spec_encode_elems(vs, k as int),
                decreases v@.len() - k,
            {
                proof {
                    assert(vs[k as int] == v@[k as int]@);
                    assert(spec_encodable(vs[k as int]));
                }
                let ghost before = out@;
                encode_into(&v[k], out);
                proof {
                    assert(spec_encode_elems(vs, k as int) == spec_encode(vs[k as int])
                        + spec_encode_elems(vs, k + 1));
                    assert(before + (spec_encode(vs[k as int]) + spec_encode_elems(vs, k + 1))
                        =~= (before + spec_encode(vs[k as int])) + spec_encode_elems(vs, k + 1));
                }
                k = k + 1;
            }
            proof {
                assert(spec_encode_elems(vs, v@.len() as int) == Seq::<u8>::empty());
                assert(out@ + Seq::<u8>::empty() =~= out@);
                assert(base =~= old(out)@ + (seq![42u8] + dec_digits(v@.len() as nat) + crlf()));
                assert(old(out)@ + (seq![42u8] + dec_digits(v@.len() as nat) + crlf())
                    + spec_encode_elems(vs, 0) =~= old(out)@ + (seq![42u8] + dec_digits(
                    v@.len() as nat,
                ) + crlf() + spec_encode_elems(vs, 0)));
            }
        },
        _ => {
            proof {
                assert(false);
            }
        },
    }
}

/// Produces the exact wire bytes of a reply value.
pub fn encode_protocol(prot: ProtocolData) -> (r: Vec<u8>)
    requires
        spec_encodable(prot@),
    ensures
        r@ == spec_encode(prot@),
{
    let mut out: Vec<u8> = Vec::new();
    encode_into(&prot, &mut out);
    proof {
        assert(Seq::<u8>::empty() + spec_encode(prot@) =~= spec_encode(prot@));
    }
    out
}

proof fn lemma_find_crlf_exact(s: Seq<u8>, from: int, end: int)
    requires
        0 <= from <= end,
        end + 2 <= s.len(),
        s[end] == 13u8,
        s[end + 1] == 10u8,
        forall|t: int| from <= t < end ==> !(#[trigger] s[t] == 13u8 && s[t + 1] == 10u8),
    ensures
        find_crlf(s, from) == Some(end),
    decreases end - from,
{
    if from < end {
        lemma_find_crlf_exact(s, from + 1, end);
    }
}

proof fn lemma_int_line_form(i: int)
    requires
        i64::MIN <= i <= i64::MAX,
    ensures
        int_line(i).len() >= 1,
        forall|t: int| 0 <= t < int_line(i).len() ==> 45 <= #[trigger] int_line(i)[t] <= 57,
        valid_i64_line(int_line(i)),
        line_int_val(int_line(i)) == i,
{
    if i < 0 {
        let dd = dec_digits((-i) as nat);
        lemma_dec_digits_form((-i) as nat);
        let line = seq![45u8] + dd;
        assert(line[0] == 45);
        assert(line.skip(1) =~= dd);
        assert(forall|t: int| 0 <= t < line.len() ==> 45 <= #[trigger] line[t] <= 57) by {
            assert forall|t: int| 0 <= t < line.len() implies 45 <= #[trigger] line[t] <= 57 by {
                if t > 0 {
                    assert(line[t] == dd[t - 1]);
                    assert(is_digit(dd[t - 1]));
                }
            }
        }
    } else {
        let dd = dec_digits(i as nat);
        lemma_dec_digits_form(i as nat);
        assert(is_digit(dd[0]));
        assert(num_body(dd) == dd);
    }
}

proof fn lemma_encode_nonempty(m: ValueModel)
    requires
        spec_encodable(m),
    ensures
        spec_encode(m).len() >= 3,
{
    match m {
        ValueModel::Integer(i) => {
            lemma_int_line_form(i);
        },
        ValueModel::BulkString(p) => {
            lemma_dec_digits_form(p.len());
        },
        ValueModel::Array(vs) => {
            lemma_dec_digits_form(vs.len());
        },
        _ => {},
    }
}

/// Law: decoding any buffer that starts with the encoding of a value
/// yields that value back and consumes exactly the encoding, whatever
/// bytes follow it. This is the incremental-delivery guarantee for the
/// complete side of a split: once the whole encoding has arrived, later
/// bytes cannot change the result.
pub proof fn lemma_decode_encode_prefix(m: ValueModel, rest: Seq<u8>)
    requires
        spec_encodable(m),
        wire_safe(m),
    ensures
        spec_decode(spec_encode(m) + rest) == DecodeOutcome::Parsed(
            m,
            spec_encode(m).len() as int,
        ),
    decreases m, 0int, 0int,
{
    let enc = spec_encode(m);
    let s = enc + rest;
    match m {
        ValueModel::SimpleString(p) => {
            lemma_decode_line_value(s, p, rest, 43u8);
        },
        ValueModel::SimpleError(p) => {
            lemma_decode_line_value(s, p, rest, 45u8);
        },
        ValueModel::Integer(i) => {
            let line = int_line(i);
            lemma_int_line_form(i);
            assert(s =~= seq![58u8] + line + crlf() + rest);
            let end = 1 + line.len() as int;
            assert(s[0] == 58);
            assert(s[end] == 13 && s[end + 1] == 10);
            assert forall|t: int| 1 <= t < end implies !(#[trigger] s[t] == 13u8 && s[t + 1]
                == 10u8) by {
                assert(s[t] == line[t - 1]);
            }
            lemma_find_crlf_exact(s, 1, end);
            assert(s.subrange(1, end) =~= line);
        },
        ValueModel::BulkString(p) => {
            let dd = dec_digits(p.len());
            lemma_dec_digits_form(p.len());
            assert(s =~= seq![36u8] + dd + crlf() + p + crlf() + rest);
            let end1 = 1 + dd.len() as int;
            assert(s[0] == 36);
            assert(s[end1] == 13 && s[end1 + 1] == 10);
            assert forall|t: int| 1 <= t < end1 implies !(#[trigger] s[t] == 13u8 && s[t + 1]
                == 10u8) by {
                assert(s[t] == dd[t - 1]);
                assert(is_digit(dd[t - 1]));
            }
            lemma_find_crlf_exact(s, 1, end1);
            let line = s.subrange(1, end1);
            assert(line =~= dd);
            assert(is_digit(dd[0]));
            assert(num_body(line) == line);
            assert(valid_u64_line(line));
            let from2 = end1 + 2;
            let end2 = from2 + p.len() as int;
            assert(s[end2] == 13 && s[end2 + 1] == 10);
            assert forall|t: int| from2 <= t < end2 implies !(#[trigger] s[t] == 13u8 && s[t + 1]
                == 10u8) by {
                assert(s[t] == p[t - from2]);
                if t < end2 - 1 {
                    assert(s[t + 1] == p[t + 1 - from2]);
                } else {
                    assert(s[t + 1] == 13u8);
                }
            }
            lemma_find_crlf_exact(s, from2, end2);
            assert(s.subrange(from2, end2) =~= p);
        },
        ValueModel::Null => {
            assert(s =~= seq![95u8, 13u8, 10u8] + rest);
            assert(s[0] == 95 && s[1] == 13 && s[2] == 10);
        },
        ValueModel::Array(vs) => {
            let dd = dec_digits(vs.len());
            lemma_dec_digits_form(vs.len());
            let body = spec_encode_elems(vs, 0);
            assert(s =~= seq![42u8] + dd + crlf() + (body + rest));
            let end1 = 1 + dd.len() as int;
            assert(s[0] == 42);
            assert(s[end1] == 13 && s[end1 + 1] == 10);
            assert forall|t: int| 1 <= t < end1 implies !(#[trigger] s[t] == 13u8 && s[t + 1]
                == 10u8) by {
                assert(s[t] == dd[t - 1]);
                assert(is_digit(dd[t - 1]));
            }
            lemma_find_crlf_exact(s, 1, end1);
            let line = s.subrange(1, end1);
            assert(line =~= dd);
            assert(is_digit(dd[0]));
            assert(num_body(line) == line);
            assert(valid_u64_line(line));
            assert(line_int_val(line) == vs.len());
            let tail = s.subrange(end1 + 2, s.len() as int);
            assert(tail =~= body + rest);
            lemma_decode_encode_elems(vs, 0, rest);
            assert(vs.subrange(0, vs.len() as int) =~= vs);
            assert(spec_decode_elems(tail, vs.len() as nat) == ElemsOutcome::Parsed(
                vs,
                body.len() as int,
            ));
        },
        _ => {
            assert(false);
        },
    }
}

proof fn lemma_decode_line_value(s: Seq<u8>, p: Seq<u8>, rest: Seq<u8>, sig: u8)
    requires
        payload_ok(p),
        sig == 43 || sig == 45,
        s == seq![sig] + p + crlf() + rest,
    ensures
        sig == 43 ==> spec_decode(s) == DecodeOutcome::Parsed(
            ValueModel::SimpleString(p),
            p.len() + 3int,
        ),
        sig == 45 ==> spec_decode(s) == DecodeOutcome::Parsed(
            ValueModel::SimpleError(p),
            p.len() + 3int,
        ),
{
    let end = 1 + p.len() as int;
    assert(s[0] == sig);
    assert(s[end] == 13 && s[end + 1] == 10);
    assert forall|t: int| 1 <= t < end implies !(#[trigger] s[t] == 13u8 && s[t + 1] == 10u8) by {
        assert(s[t] == p[t - 1]);
        if t < end - 1 {
            assert(s[t + 1] == p[t + 1 - 1]);
        } else {
            assert(s[t + 1] == 13u8);
        }
    }
    lemma_find_crlf_exact(s, 1, end);
    assert(s.subrange(1, end) =~= p);
}

proof fn lemma_decode_encode_elems(vs: Seq<ValueModel>, i: int, rest: Seq<u8>)
    requires
        0 <= i <= vs.len(),
        forall|t: int| 0 <= t < vs.len() ==> spec_encodable(#[trigger] vs[t]),
        forall|t: int| 0 <= t < vs.len() ==> wire_safe(#[trigger] vs[t]),
    ensures
        spec_decode_elems(spec_encode_elems(vs, i) + rest, (vs.len() - i) as nat)
            == ElemsOutcome::Parsed(
            vs.subrange(i, vs.len() as int),
            spec_encode_elems(vs, i).len() as int,
        ),
    decreases vs, 1int, vs.len() - i,
{
    if i == vs.len() {
        assert(spec_encode_elems(vs, i) == Seq::<u8>::empty());
        assert(Seq::<u8>::empty() + rest =~= rest);
        assert(vs.subrange(i, vs.len() as int) =~= Seq::<ValueModel>::empty());
    } else {
        let enc_i = spec_encode(vs[i]);
        let tail_enc = spec_encode_elems(vs, i + 1);
        let s = spec_encode_elems(vs, i) + rest;
        assert(s =~= enc_i + (tail_enc + rest));
        lemma_decode_encode_prefix(vs[i], tail_enc + rest);
        lemma_encode_nonempty(vs[i]);
        assert(spec_decode(s) == DecodeOutcome::Parsed(vs[i], enc_i.len() as int));
        assert(s.subrange(enc_i.len() as int, s.len() as int) =~= tail_enc + rest);
        lemma_decode_encode_elems(vs, i + 1, rest);
        assert(seq![vs[i]] + vs.subrange(i + 1, vs.len() as int) =~= vs.subrange(
            i,
            vs.len() as int,
        ));
    }
}

/// Law: the round trip. Decoding the encoding of any value the encoder
/// can produce yields that value and consumes the full encoding.
pub proof fn lemma_round_trip(m: ValueModel)
    requires
        spec_encodable(m),
        wire_safe(m),
    ensures
        spec_decode(spec_encode(m)) == DecodeOutcome::Parsed(m, spec_encode(m).len() as int),
{
    lemma_decode_encode_prefix(m, Seq::empty());
    assert(spec_encode(m) + Seq::<u8>::empty() =~= spec_encode(m));
}

proof fn lemma_find_crlf_none(s: Seq<u8>, i: int)
    requires
        forall|t: int| i <= t ==> !is_crlf_at(s, t),
    ensures
        find_crlf(s, i) is None,
    decreases s.len() - i,
{
    if !(i < 0 || i + 2 > s.len()) {
        assert(!is_crlf_at(s, i));
        lemma_find_crlf_none(s, i + 1);
    }
}

proof fn lemma_encode_prefix_incomplete(m: ValueModel, k: int)
    requires
        spec_encodable(m),
        wire_safe(m),
        0 <= k < spec_encode(m).len(),
    ensures
        spec_decode(spec_encode(m).take(k)) == DecodeOutcome::Incomplete,
    decreases m, 0int, 0int,
{
    let enc = spec_encode(m);
    let s = enc.take(k);
    if k == 0 {
        assert(s.len() == 0);
        return;
    }
    match m {
        ValueModel::SimpleString(p) => {
            lemma_line_prefix_incomplete(enc, p, k);
        },
        ValueModel::SimpleError(p) => {
            lemma_line_prefix_incomplete(enc, p, k);
        },
        ValueModel::Integer(i) => {
            lemma_int_line_form(i);
            let line = int_line(i);
            assert(enc =~= seq![58u8] + line + crlf());
            assert forall|t: int| 1 <= t implies !is_crlf_at(s, t) by {
                if is_crlf_at(s, t) {
                    assert(s[t] == enc[t] && s[t + 1] == enc[t + 1]);
                    assert(t < 1 + line.len() ==> enc[t] == line[t - 1]);
                    assert(t == 1 + line.len() ==> enc[t + 1] == 13u8);
                }
            }
            lemma_find_crlf_none(s, 1);
        },
        ValueModel::Null => {
            assert(enc =~= seq![95u8, 13u8, 10u8]);
            if k == 1 {
                assert(s.len() < 2);
            } else {
                assert(k == 2);
                assert(s[1] == 13u8 && s.len() < 3);
            }
        },
        ValueModel::BulkString(p) => {
            let dd = dec_digits(p.len());
            lemma_dec_digits_form(p.len());
            assert(enc =~= seq![36u8] + dd + crlf() + p + crlf());
            let j = 1 + dd.len() as int;
            if k < j + 2 {
                assert forall|t: int| 1 <= t implies !is_crlf_at(s, t) by {
                    if is_crlf_at(s, t) {
                        assert(s[t] == enc[t] && s[t + 1] == enc[t + 1]);
                        assert(t < j ==> is_digit(dd[t - 1]));
                        assert(t == j ==> enc[t + 1] == 13u8 || t + 1 >= s.len());
                    }
                }
                lemma_find_crlf_none(s, 1);
            } else {
                assert(s[j] == 13u8 && s[j + 1] == 10u8);
                assert forall|t: int| 1 <= t < j implies !(#[trigger] s[t] == 13u8 && s[t + 1]
                    == 10u8) by {
                    assert(s[t] == enc[t]);
                    assert(enc[t] == dd[t - 1]);
                    assert(is_digit(dd[t - 1]));
                }
                lemma_find_crlf_exact(s, 1, j);
                assert(s.subrange(1, j) =~= dd);
                assert(num_body(dd) == dd);
                assert(valid_u64_line(dd));
                assert forall|t: int| j + 2 <= t implies !is_crlf_at(s, t) by {
                    if is_crlf_at(s, t) {
                        assert(s[t] == enc[t] && s[t + 1] == enc[t + 1]);
                        assert(t < j + 2 + p.len() ==> enc[t] == p[t - (j + 2)]);
                        assert(t < j + 2 + p.len() - 1 ==> enc[t + 1] == p[t + 1 - (j + 2)]);
                        assert(t == j + 2 + p.len() - 1 ==> enc[t + 1] == 13u8);
                        assert(t == j + 2 + p.len() ==> t + 2 > s.len());
                    }
                }
                lemma_find_crlf_none(s, j + 2);
            }
        },
        ValueModel::Array(vs) => {
            let dd = dec_digits(vs.len());
            lemma_dec_digits_form(vs.len());
            let body = spec_encode_elems(vs, 0);
            assert(enc =~= seq![42u8] + dd + crlf() + body);
            let j = 1 + dd.len() as int;
            if k < j + 2 {
                assert forall|t: int| 1 <= t implies !is_crlf_at(s, t) by {
                    if is_crlf_at(s, t) {
                        assert(s[t] == enc[t] && s[t + 1] == enc[t + 1]);
                        assert(t < j ==> is_digit(dd[t - 1]));
                        assert(t == j ==> enc[t + 1] == 13u8 || t + 1 >= s.len());
                    }
                }
                lemma_find_crlf_none(s, 1);
            } else {
                assert(s[j] == 13u8 && s[j + 1] == 10u8);
                assert forall|t: int| 1 <= t < j implies !(#[trigger] s[t] == 13u8 && s[t + 1]
                    == 10u8) by {
                    assert(s[t] == enc[t]);
                    assert(enc[t] == dd[t - 1]);
                    assert(is_digit(dd[t - 1]));
                }
                lemma_find_crlf_exact(s, 1, j);
                assert(s.subrange(1, j) =~= dd);
                assert(num_body(dd) == dd);
                assert(valid_u64_line(dd));
                assert(line_int_val(dd) == vs.len());
                let kb = k - (j + 2);
                assert(s.subrange(j + 2, s.len() as int) =~= body.take(kb));
                lemma_elems_prefix_incomplete(vs, 0, kb);
            }
        },
        _ => {
            assert(false);
        },
    }
}

proof fn lemma_line_prefix_incomplete(enc: Seq<u8>, p: Seq<u8>, k: int)
    requires
        payload_ok(p),
        enc.len() == p.len() + 3,
        enc =~= enc.take(1) + p + crlf(),
        1 <= k < enc.len(),
    ensures
        find_crlf(enc.take(k), 1) is None,
{
    let s = enc.take(k);
    assert forall|t: int| 1 <= t implies !is_crlf_at(s, t) by {
        if is_crlf_at(s, t) {
            assert(s[t] == enc[t] && s[t + 1] == enc[t + 1]);
            assert(t < 1 + p.len() ==> enc[t] == p[t - 1]);
            assert(t < p.len() ==> enc[t + 1] == p[t]);
            assert(t == p.len() ==> enc[t + 1] == 13u8);
        }
    }
    lemma_find_crlf_none(s, 1);
}

proof fn lemma_elems_prefix_incomplete(vs: Seq<ValueModel>, i: int, k: int)
    requires
        0 <= i <= vs.len(),
        forall|t: int| 0 <= t < vs.len() ==> spec_encodable(#[trigger] vs[t]),
        forall|t: int| 0 <= t < vs.len() ==> wire_safe(#[trigger] vs[t]),
        0 <= k < spec_encode_elems(vs, i).len(),
    ensures
        spec_decode_elems(spec_encode_elems(vs, i).take(k), (vs.len() - i) as nat)
            == ElemsOutcome::Incomplete,
    decreases vs, 1int, vs.len() - i,
{
    assert(i < vs.len());
    let enc_i = spec_encode(vs[i]);
    let tail = spec_encode_elems(vs, i + 1);
    let s = spec_encode_elems(vs, i).take(k);
    if k < enc_i.len() {
        assert(s =~= enc_i.take(k));
        if k == 0 {
            assert(s.len() == 0);
            assert(spec_decode(s) == DecodeOutcome::Incomplete);
        } else {
            lemma_encode_prefix_incomplete(vs[i], k);
        }
        assert(spec_decode(s) == DecodeOutcome::Incomplete);
    } else {
        let kt = k - enc_i.len();
        assert(s =~= enc_i + tail.take(kt));
        lemma_decode_encode_prefix(vs[i], tail.take(kt));
        assert(spec_decode(s) == DecodeOutcome::Parsed(vs[i], enc_i.len() as int));
        lemma_encode_nonempty(vs[i]);
        assert(s.subrange(enc_i.len() as int, s.len() as int) =~= tail.take(kt));
        lemma_elems_prefix_incomplete(vs, i + 1, kt);
    }
}

/// Law: incremental delivery. Split the encoding of any value the encoder
/// can produce at any byte offset: decoding the first chunk alone reports
/// that more bytes are needed, and decoding the concatenation of the two
/// chunks yields the same value and length as decoding the whole message.
pub proof fn lemma_incremental_delivery(m: ValueModel, k: int)
    requires
        spec_encodable(m),
        wire_safe(m),
        0 <= k < spec_encode(m).len(),
    ensures
        spec_decode(spec_encode(m).take(k)) == DecodeOutcome::Incomplete,
        spec_decode(spec_encode(m).take(k) + spec_encode(m).skip(k)) == DecodeOutcome::Parsed(
            m,
            spec_encode(m).len() as int,
        ),
{
    lemma_encode_prefix_incomplete(m, k);
    assert(spec_encode(m).take(k) + spec_encode(m).skip(k) =~= spec_encode(m));
    lemma_round_trip(m);
}

proof fn lemma_find_crlf_first(s: Seq<u8>, i: int)
    requires
        i >= 0,
    ensures
        match find_crlf(s, i) {
            Option::Some(j) => i <= j && is_crlf_at(s, j) && (forall|t: int|
                i <= t < j ==> !(#[trigger] s[t] == 13u8 && s[t + 1] == 10u8)),
            Option::None => forall|t: int| i <= t ==> !is_crlf_at(s, t),
        },
    decreases s.len() - i,
{
    if !(i + 2 > s.len()) && !(s[i] == 13 && s[i + 1] == 10) {
        lemma_find_crlf_first(s, i + 1);
    }
}

/// Cutting a buffer short never moves a line's terminator: the search
/// still finds it if it is wholly inside the cut, and finds nothing if
/// it is not.
proof fn lemma_find_crlf_truncate(s: Seq<u8>, i: int, k: int)
    requires
        i >= 0,
        0 <= k <= s.len(),
    ensures
        match find_crlf(s, i) {
            Option::Some(j) => (k >= j + 2 ==> find_crlf(s.take(k), i) == Some(j)) && (k <= j + 1
                ==> find_crlf(s.take(k), i) is None),
            Option::None => find_crlf(s.take(k), i) is None,
        },
{
    lemma_find_crlf_first(s, i);
    let s2 = s.take(k);
    match find_crlf(s, i) {
        Option::Some(j) => {
            if k >= j + 2 {
                assert forall|t: int| i <= t < j implies !(#[trigger] s2[t] == 13u8 && s2[t + 1]
                    == 10u8) by {
                    assert(s2[t] == s[t] && s2[t + 1] == s[t + 1]);
                }
                lemma_find_crlf_exact(s2, i, j);
            } else {
                assert forall|t: int| i <= t implies !is_crlf_at(s2, t) by {
                    if is_crlf_at(s2, t) {
                        assert(s2[t] == s[t] && s2[t + 1] == s[t + 1]);
                        assert(t < j || t == j);
                    }
                }
                lemma_find_crlf_none(s2, i);
            }
        },
        Option::None => {
            assert forall|t: int| i <= t implies !is_crlf_at(s2, t) by {
                if is_crlf_at(s2, t) {
                    assert(s2[t] == s[t] && s2[t + 1] == s[t + 1]);
                    assert(is_crlf_at(s, t));
                }
            }
            lemma_find_crlf_none(s2, i);
        },
    }
}

proof fn lemma_find_byte_exact(s: Seq<u8>, i: int, t0: int, b: u8)
    requires
        0 <= i <= t0 < s.len(),
        s[t0] == b,
        forall|u: int| i <= u < t0 ==> s[u] != b,
    ensures
        find_byte(s, i, b) == Some(t0),
    decreases t0 - i,
{
    if i < t0 {
        lemma_find_byte_exact(s, i + 1, t0, b);
    }
}

proof fn lemma_find_byte_none(s: Seq<u8>, i: int, b: u8)
    requires
        i >= 0,
        forall|u: int| i <= u < s.len() ==> s[u] != b,
    ensures
        find_byte(s, i, b) is None,
    decreases s.len() - i,
{
    if i < s.len() {
        lemma_find_byte_none(s, i + 1, b);
    }
}

proof fn lemma_find_byte_first(s: Seq<u8>, i: int, b: u8)
    requires
        i >= 0,
    ensures
        match find_byte(s, i, b) {
            Option::Some(t0) => i <= t0 < s.len() && s[t0] == b && (forall|u: int|
                i <= u < t0 ==> s[u] != b),
            Option::None => forall|u: int| i <= u < s.len() ==> s[u] != b,
        },
    decreases s.len() - i,
{
    if i < s.len() && s[i] != b {
        lemma_find_byte_first(s, i + 1, b);
    }
}

proof fn lemma_find_byte_truncate(s: Seq<u8>, i: int, b: u8, k: int)
    requires
        i >= 0,
        0 <= k <= s.len(),
    ensures
        match find_byte(s, i, b) {
            Option::Some(t0) => (k >= t0 + 1 ==> find_byte(s.take(k), i, b) == Some(t0)) && (k
                <= t0 ==> find_byte(s.take(k), i, b) is None),
            Option::None => find_byte(s.take(k), i, b) is None,
        },
{
    lemma_find_byte_first(s, i, b);
    let s2 = s.take(k);
    match find_byte(s, i, b) {
        Option::Some(t0) => {
            if k >= t0 + 1 {
                assert forall|u: int| i <= u < t0 implies s2[u] != b by {
                    assert(s2[u] == s[u]);
                }
                lemma_find_byte_exact(s2, i, t0, b);
            } else {
                assert forall|u: int| i <= u < s2.len() implies s2[u] != b by {
                    assert(s2[u] == s[u]);
                }
                lemma_find_byte_none(s2, i, b);
            }
        },
        Option::None => {
            assert forall|u: int| i <= u < s2.len() implies s2[u] != b by {
                assert(s2[u] == s[u]);
            }
            lemma_find_byte_none(s2, i, b);
        },
    }
}

proof fn lemma_decode_bounds(s: Seq<u8>)
    ensures
        match spec_decode(s) {
            DecodeOutcome::Parsed(v, n) => 1 <= n <= s.len(),
            _ => true,
        },
    decreases s.len(), 0int, 0nat,
{
    if s.len() == 0 || !(spec_decode(s) matches DecodeOutcome::Parsed(_, _)) {
        return;
    }
    if s[0] == 43 || s[0] == 45 || s[0] == 40 || s[0] == 44 || s[0] == 58 {
        lemma_find_crlf_first(s, 1);
    } else if s[0] == 36 || s[0] == 33 {
        lemma_find_crlf_first(s, 1);
        let j = find_crlf(s, 1)->Some_0;
        lemma_find_crlf_first(s, j + 2);
    } else if s[0] == 42 || s[0] == 126 || s[0] == 62 {
        lemma_find_crlf_first(s, 1);
        let j = find_crlf(s, 1)->Some_0;
        let line = s.subrange(1, j);
        lemma_decode_elems_bounds(s.subrange(j + 2, s.len() as int), line_int_val(line) as nat);
    } else if s[0] == 37 || s[0] == 124 {
        lemma_find_crlf_first(s, 1);
        let j = find_crlf(s, 1)->Some_0;
        let line = s.subrange(1, j);
        lemma_decode_pairs_bounds(s.subrange(j + 2, s.len() as int), line_int_val(line) as nat);
    } else if s[0] == 61 {
        lemma_find_crlf_first(s, 1);
        let j = find_crlf(s, 1)->Some_0;
        lemma_find_byte_first(s, j + 2, 58u8);
        let t = find_byte(s, j + 2, 58)->Some_0;
        lemma_find_crlf_first(s, t + 1);
    }
}

proof fn lemma_decode_elems_bounds(s: Seq<u8>, n: nat)
    ensures
        match spec_decode_elems(s, n) {
            ElemsOutcome::Parsed(vs, c) => 0 <= c <= s.len(),
            _ => true,
        },
    decreases s.len(), 1int, n,
{
    if n > 0 && spec_decode_elems(s, n) matches ElemsOutcome::Parsed(_, _) {
        let c1 = spec_decode(s)->Parsed_1;
        lemma_decode_elems_bounds(s.subrange(c1, s.len() as int), (n - 1) as nat);
    }
}

proof fn lemma_decode_pairs_bounds(s: Seq<u8>, n: nat)
    ensures
        match spec_decode_pairs(s, n) {
            PairsOutcome::Parsed(ps, c) => 0 <= c <= s.len(),
            _ => true,
        },
    decreases s.len(), 1int, n,
{
    if n > 0 && spec_decode_pairs(s, n) matches PairsOutcome::Parsed(_, _) {
        let c1 = spec_decode(s)->Parsed_1;
        let rest1 = s.subrange(c1, s.len() as int);
        if spec_decode(rest1) matches DecodeOutcome::Parsed(_, _) {
            let c2 = spec_decode(rest1)->Parsed_1;
            lemma_decode_pairs_bounds(s.subrange(c1 + c2, s.len() as int), (n - 1) as nat);
        }
    }
}

/// Law: the decoder is prefix-determined over any buffer. If a buffer
/// decodes to one complete value of `n` bytes, then cutting it anywhere
/// at or past `n` leaves the same value and length, and cutting it
/// strictly before `n` reports Incomplete — never Malformed, never a
/// value — so a caller that keeps buffering converges on the same result.
#[verifier::rlimit(100)]
pub proof fn lemma_decode_of_prefix(s: Seq<u8>, k: int)
    requires
        0 <= k <= s.len(),
    ensures
        match spec_decode(s) {
            DecodeOutcome::Parsed(v, n) => (k >= n ==> spec_decode(s.take(k))
                == DecodeOutcome::Parsed(v, n)) && (k < n ==> spec_decode(s.take(k))
                == DecodeOutcome::Incomplete),
            _ => true,
        },
    decreases s.len(), 0int, 0nat,
{
    let s2 = s.take(k);
    if s.len() == 0 || !(spec_decode(s) matches DecodeOutcome::Parsed(_, _)) {
        return;
    }
    if k == 0 {
        lemma_decode_bounds(s);
        assert(s2.len() == 0);
        return;
    }
    assert(s2[0] == s[0]);
    lemma_find_crlf_truncate(s, 1, k);
    if s[0] == 43 || s[0] == 45 || s[0] == 40 || s[0] == 44 || s[0] == 58 {
        let j = find_crlf(s, 1)->Some_0;
        lemma_find_crlf_first(s, 1);
        if k >= j + 2 {
            assert(find_crlf(s2, 1) == Some(j));
            assert(s2.subrange(1, j) =~= s.subrange(1, j));
            assert(spec_decode(s2) == spec_decode(s));
        } else {
            assert(find_crlf(s2, 1) is None);
            assert(spec_decode(s2) == DecodeOutcome::Incomplete);
        }
    } else if s[0] == 36 || s[0] == 33 {
        let j = find_crlf(s, 1)->Some_0;
        lemma_find_crlf_first(s, 1);
        lemma_find_crlf_first(s, j + 2);
        let kk = find_crlf(s, j + 2)->Some_0;
        if k >= j + 2 {
            assert(s2.subrange(1, j) =~= s.subrange(1, j));
            lemma_find_crlf_truncate(s, j + 2, k);
            if k >= kk + 2 {
                assert(s2.subrange(j + 2, kk) =~= s.subrange(j + 2, kk));
                assert(spec_decode(s2) == spec_decode(s));
            } else {
                assert(spec_decode(s2) == DecodeOutcome::Incomplete);
            }
        } else {
            assert(spec_decode(s2) == DecodeOutcome::Incomplete);
        }
    } else if s[0] == 42 || s[0] == 126 || s[0] == 62 {
        let j = find_crlf(s, 1)->Some_0;
        lemma_find_crlf_first(s, 1);
        if k >= j + 2 {
            assert(s2.subrange(1, j) =~= s.subrange(1, j));
            let line = s.subrange(1, j);
            let cnt = line_int_val(line) as nat;
            let tail = s.subrange(j + 2, s.len() as int);
            lemma_decode_elems_bounds(tail, cnt);
            assert(s2.subrange(j + 2, k) =~= tail.take(k - (j + 2)));
            lemma_decode_elems_of_prefix(tail, cnt, k - (j + 2));
            match spec_decode_elems(tail, cnt) {
                ElemsOutcome::Parsed(vs, c) => {
                    if k - (j + 2) >= c {
                        assert(spec_decode(s2) == spec_decode(s));
                    } else {
                        assert(spec_decode(s2) == DecodeOutcome::Incomplete);
                    }
                },
                _ => {},
            }
        } else {
            lemma_decode_elems_bounds(s.subrange(j + 2, s.len() as int), line_int_val(
                s.subrange(1, j),
            ) as nat);
            assert(find_crlf(s2, 1) is None);
        }
    } else if s[0] == 37 || s[0] == 124 {
        let j = find_crlf(s, 1)->Some_0;
        lemma_find_crlf_first(s, 1);
        if k >= j + 2 {
            assert(s2.subrange(1, j) =~= s.subrange(1, j));
            let line = s.subrange(1, j);
            let cnt = line_int_val(line) as nat;
            let tail = s.subrange(j + 2, s.len() as int);
            lemma_decode_pairs_bounds(tail, cnt);
            assert(s2.subrange(j + 2, k) =~= tail.take(k - (j + 2)));
            lemma_decode_pairs_of_prefix(tail, cnt, k - (j + 2));
            match spec_decode_pairs(tail, cnt) {
                PairsOutcome::Parsed(ps, c) => {
                    if k - (j + 2) >= c {
                        assert(spec_decode(s2) == spec_decode(s));
                    } else {
                        assert(spec_decode(s2) == DecodeOutcome::Incomplete);
                    }
                },
                _ => {},
            }
        } else {
            lemma_decode_pairs_bounds(s.subrange(j + 2, s.len() as int), line_int_val(
                s.subrange(1, j),
            ) as nat);
            assert(find_crlf(s2, 1) is None);
        }
    } else if s[0] == 95 || s[0] == 35 {
        if k >= 2 {
            assert(s2[1] == s[1]);
        }
        if k >= 3 {
            assert(s2[2] == s[2]);
        }
        if s[0] == 35 && k >= 2 {
            assert(spec_decode(s2) == spec_decode(s));
        }
        if s[0] == 35 && k < 2 {
            assert(s2.len() < 2);
            assert(spec_decode(s2) == DecodeOutcome::Incomplete);
        }
        if s[0] == 95 && k >= 3 {
            assert(spec_decode(s2) == spec_decode(s));
        }
        if s[0] == 95 && k < 3 {
            assert(spec_decode(s2) == DecodeOutcome::Incomplete);
        }
    } else if s[0] == 61 {
        let j = find_crlf(s, 1)->Some_0;
        lemma_find_crlf_first(s, 1);
        lemma_find_byte_first(s, j + 2, 58u8);
        let t = find_byte(s, j + 2, 58)->Some_0;
        lemma_find_crlf_first(s, t + 1);
        let kk = find_crlf(s, t + 1)->Some_0;
        if k >= j + 2 {
            assert(s2.subrange(1, j) =~= s.subrange(1, j));
            lemma_find_byte_truncate(s, j + 2, 58u8, k);
            if k >= t + 1 {
                lemma_find_crlf_truncate(s, t + 1, k);
                if k >= kk + 2 {
                    assert(s2.subrange(j + 2, t) =~= s.subrange(j + 2, t));
                    assert(s2.subrange(t + 1, kk) =~= s.subrange(t + 1, kk));
                    assert(spec_decode(s2) == spec_decode(s));
                } else {
                    assert(spec_decode(s2) == DecodeOutcome::Incomplete);
                }
            } else {
                assert(spec_decode(s2) == DecodeOutcome::Incomplete);
            }
        } else {
            assert(spec_decode(s2) == DecodeOutcome::Incomplete);
        }
    }
}

proof fn lemma_decode_elems_of_prefix(s: Seq<u8>, n: nat, k: int)
    requires
        0 <= k <= s.len(),
    ensures
        match spec_decode_elems(s, n) {
            ElemsOutcome::Parsed(vs, c) => (k >= c ==> spec_decode_elems(s.take(k), n)
                == ElemsOutcome::Parsed(vs, c)) && (k < c ==> spec_decode_elems(s.take(k), n)
                == ElemsOutcome::Incomplete),
            _ => true,
        },
    decreases s.len(), 1int, n,
{
    if n == 0 || !(spec_decode_elems(s, n) matches ElemsOutcome::Parsed(_, _)) {
        assert(spec_decode_elems(s.take(k), 0nat) == ElemsOutcome::Parsed(
            Seq::<ValueModel>::empty(),
            0,
        ));
        return;
    }
    let v1 = spec_decode(s)->Parsed_0;
    let c1 = spec_decode(s)->Parsed_1;
    assert(spec_decode(s) == DecodeOutcome::Parsed(v1, c1));
    assert(1 <= c1 <= s.len());
    let rest = s.subrange(c1, s.len() as int);
    assert(spec_decode_elems(rest, (n - 1) as nat) matches ElemsOutcome::Parsed(_, _));
    lemma_decode_elems_bounds(rest, (n - 1) as nat);
    lemma_decode_of_prefix(s, k);
    if k < c1 {
        assert(spec_decode(s.take(k)) == DecodeOutcome::Incomplete);
        assert(spec_decode_elems(s.take(k), n) == ElemsOutcome::Incomplete);
    } else {
        assert(spec_decode(s.take(k)) == DecodeOutcome::Parsed(v1, c1));
        assert(s.take(k).subrange(c1, k) =~= rest.take(k - c1));
        lemma_decode_elems_of_prefix(rest, (n - 1) as nat, k - c1);
    }
}

proof fn lemma_decode_pairs_of_prefix(s: Seq<u8>, n: nat, k: int)
    requires
        0 <= k <= s.len(),
    ensures
        match spec_decode_pairs(s, n) {
            PairsOutcome::Parsed(ps, c) => (k >= c ==> spec_decode_pairs(s.take(k), n)
                == PairsOutcome::Parsed(ps, c)) && (k < c ==> spec_decode_pairs(s.take(k), n)
                == PairsOutcome::Incomplete),
            _ => true,
        },
    decreases s.len(), 1int, n,
{
    if n == 0 || !(spec_decode_pairs(s, n) matches PairsOutcome::Parsed(_, _)) {
        assert(spec_decode_pairs(s.take(k), 0nat) == PairsOutcome::Parsed(
            Seq::<(ValueModel, ValueModel)>::empty(),
            0,
        ));
        return;
    }
    let kv = spec_decode(s)->Parsed_0;
    let c1 = spec_decode(s)->Parsed_1;
    assert(spec_decode(s) == DecodeOutcome::Parsed(kv, c1));
    assert(1 <= c1 <= s.len());
    let rest1 = s.subrange(c1, s.len() as int);
    let vv = spec_decode(rest1)->Parsed_0;
    let c2 = spec_decode(rest1)->Parsed_1;
    assert(spec_decode(rest1) == DecodeOutcome::Parsed(vv, c2));
    assert(1 <= c2 <= s.len() - c1);
    let rest2 = s.subrange(c1 + c2, s.len() as int);
    assert(rest1.subrange(c2, rest1.len() as int) =~= rest2);
    assert(spec_decode_pairs(rest2, (n - 1) as nat) matches PairsOutcome::Parsed(_, _));
    lemma_decode_pairs_bounds(rest2, (n - 1) as nat);
    lemma_decode_of_prefix(s, k);
    if k < c1 {
        assert(spec_decode(s.take(k)) == DecodeOutcome::Incomplete);
        assert(spec_decode_pairs(s.take(k), n) == PairsOutcome::Incomplete);
    } else {
        assert(spec_decode(s.take(k)) == DecodeOutcome::Parsed(kv, c1));
        assert(s.take(k).subrange(c1, k) =~= rest1.take(k - c1));
        lemma_decode_of_prefix(rest1, k - c1);
        if k - c1 < c2 {
            assert(spec_decode(rest1.take(k - c1)) == DecodeOutcome::Incomplete);
            assert(spec_decode_pairs(s.take(k), n) == PairsOutcome::Incomplete);
        } else {
            assert(spec_decode(rest1.take(k - c1)) == DecodeOutcome::Parsed(vv, c2));
            assert(s.take(k).subrange(c1 + c2, k) =~= rest2.take(k - c1 - c2));
            lemma_decode_pairs_of_prefix(rest2, (n - 1) as nat, k - c1 - c2);
        }
    }
}

} // verus!
