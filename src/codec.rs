use vstd::prelude::*;
use vstd::arithmetic::div_mod::{lemma_div_denominator, lemma_fundamental_div_mod, lemma_small_mod};
use vstd::arithmetic::power2::{lemma2_to64, lemma2_to64_rest, lemma_pow2_adds, pow2};
use vstd::utf8::encode_utf8;

use crate::decimal::{all_digits, digits_value, int_value, parse_int, parse_uint, uint_value};

verus! {

/// A column type of the database, as its catalog names it.
#[derive(Debug, PartialEq, Eq)]
pub enum ColumnType {
    String,
    FixedString(usize),
    UInt8,
    UInt16,
    UInt32,
    UInt64,
    UInt128,
    UInt256,
    Int8,
    Int16,
    Int32,
    Int64,
    Int128,
    Int256,
    Float32,
    Float64,
    DateTime,
    Date,
    Bool,
    LowCardinality,
    Decimal,
    Nullable(Box<ColumnType>),
}

/// One typed value of a row, ready for the database's binary row format.
/// Floating-point values keep their text: the caller parses them.
#[derive(Clone, Debug, PartialEq)]
pub enum Cell {
    String(String),
    FixedString(Vec<u8>),
    UInt8(u8),
    UInt16(u16),
    UInt32(u32),
    UInt64(u64),
    UInt128(u128),
    /// Four little-endian 64-bit limbs, least significant first.
    UInt256([u64; 4]),
    Int8(i8),
    Int16(i16),
    Int32(i32),
    Int64(i64),
    Int128(i128),
    Bool(bool),
    /// Seconds since the Unix epoch, truncated to 32 bits.
    DateTime(i32),
    Float32(String),
    Float64(String),
}

#[derive(Clone, Copy, Debug, PartialEq, Eq, Structural)]
pub enum CodecError {
    /// The text is not a value of the column's type.
    InvalidValue,
    /// The column's type has no encoding.
    UnsupportedType,
}

pub open spec fn is_supported(t: ColumnType) -> bool {
    !(t is Date || t is LowCardinality || t is Decimal || t is Nullable)
}

/// Seconds since the Unix epoch of an RFC 3339 date and time.
pub uninterp spec fn rfc3339_timestamp(text: Seq<char>) -> Option<i64>;

/// Relies on chrono's `DateTime::parse_from_rfc3339` and `timestamp`: the
/// seconds since the epoch of the instant that the text denotes, if it is
/// RFC 3339.
#[verifier::external_body]
fn parse_rfc3339_seconds(text: &str) -> (r: Option<i64>)
    ensures
        r == rfc3339_timestamp(text@),
{
    chrono::DateTime::parse_from_rfc3339(text).ok().map(|t| t.timestamp())
}

/// The limb holding bits `64 * i ..` of `v`.
pub open spec fn limb(v: nat, i: nat) -> nat {
    (v / pow2(64 * i)) % 0x1_0000_0000_0000_0000
}

/// The value of a 256-bit text as primitive-types reads it: decimal digits
/// only (none reads as zero), below 2^256.
pub open spec fn u256_value(b: Seq<u8>) -> Option<nat> {
    if all_digits(b) && digits_value(b) < pow2(256) {
        Some(digits_value(b))
    } else {
        None
    }
}

/// Relies on primitive-types' `U256::from_dec_str`, which accepts only
/// decimal digits and fails on overflow, and on `U256` holding its value as
/// little-endian limbs.
#[verifier::external_body]
fn parse_u256_limbs(text: &str) -> (r: Option<[u64; 4]>)
    ensures
        match u256_value(encode_utf8(text@)) {
            Some(v) => r matches Some(l) && l[0] == limb(v, 0) && l[1] == limb(v, 1) && l[2]
                == limb(v, 2) && l[3] == limb(v, 3),
            None => r is None,
        },
{
    primitive_types::U256::from_dec_str(text).ok().map(|v| v.0)
}

/// The integer a 256-bit cell holds.
pub open spec fn limbs_value(l: [u64; 4]) -> nat {
    l[0] as nat + l[1] as nat * pow2(64) + l[2] as nat
        * pow2(128) + l[3] as nat * pow2(192)
}

/// `n` bytes: the first bytes of `b`, then zeros.
pub open spec fn fixed_bytes(b: Seq<u8>, n: nat) -> Seq<u8> {
    Seq::new(n, |i: int| if i < b.len() { b[i] } else { 0u8 })
}

/// Whether the text is exactly `true` or `false`.
pub open spec fn bool_value(text: Seq<char>) -> Option<bool> {
    if text == "true"@ {
        Some(true)
    } else if text == "false"@ {
        Some(false)
    } else {
        None
    }
}

/// The integer value of `text` for an integer column type up to 128 bits.
pub open spec fn small_int_value(t: ColumnType, text: Seq<char>) -> Option<int> {
    let b = encode_utf8(text);
    match t {
        ColumnType::UInt8 => uint_value(b, u8::MAX as nat),
        ColumnType::UInt16 => uint_value(b, u16::MAX as nat),
        ColumnType::UInt32 => uint_value(b, u32::MAX as nat),
        ColumnType::UInt64 => uint_value(b, u64::MAX as nat),
        ColumnType::UInt128 => uint_value(b, u128::MAX as nat),
        ColumnType::Int8 => int_value(b, i8::MIN as int, i8::MAX as int),
        ColumnType::Int16 => int_value(b, i16::MIN as int, i16::MAX as int),
        ColumnType::Int32 => int_value(b, i32::MIN as int, i32::MAX as int),
        ColumnType::Int64 => int_value(b, i64::MIN as int, i64::MAX as int),
        ColumnType::Int128 => int_value(b, i128::MIN as int, i128::MAX as int),
        _ => None,
    }
}

/// Whether `text` can be encoded for a column of type `t`.
pub open spec fn encodable(t: ColumnType, text: Seq<char>) -> bool {
    match t {
        ColumnType::String | ColumnType::FixedString(_) => true,
        ColumnType::Float32 | ColumnType::Float64 => true,
        ColumnType::UInt256 | ColumnType::Int256 => u256_value(encode_utf8(text)) is Some,
        ColumnType::Bool => bool_value(text) is Some,
        ColumnType::DateTime => rfc3339_timestamp(text) is Some,
        ColumnType::Date | ColumnType::LowCardinality | ColumnType::Decimal
        | ColumnType::Nullable(_) => false,
        _ => small_int_value(t, text) is Some,
    }
}

/// Whether `c` is the cell that encodes `text` for a column of type `t`.
pub open spec fn encodes(t: ColumnType, text: Seq<char>, c: Cell) -> bool {
    let v = small_int_value(t, text);
    match t {
        ColumnType::String => c matches Cell::String(s) && s@ == text,
        ColumnType::FixedString(n) => c matches Cell::FixedString(f) && f@ == fixed_bytes(
            encode_utf8(text),
            n as nat,
        ),
        ColumnType::UInt8 => c matches Cell::UInt8(x) && v == Some(x as int),
        ColumnType::UInt16 => c matches Cell::UInt16(x) && v == Some(x as int),
        ColumnType::UInt32 => c matches Cell::UInt32(x) && v == Some(x as int),
        ColumnType::UInt64 => c matches Cell::UInt64(x) && v == Some(x as int),
        ColumnType::UInt128 => c matches Cell::UInt128(x) && v == Some(x as int),
        ColumnType::Int8 => c matches Cell::Int8(x) && v == Some(x as int),
        ColumnType::Int16 => c matches Cell::Int16(x) && v == Some(x as int),
        ColumnType::Int32 => c matches Cell::Int32(x) && v == Some(x as int),
        ColumnType::Int64 => c matches Cell::Int64(x) && v == Some(x as int),
        ColumnType::Int128 => c matches Cell::Int128(x) && v == Some(x as int),
        ColumnType::UInt256 | ColumnType::Int256 => c matches Cell::UInt256(l) && u256_value(
            encode_utf8(text),
        ) == Some(limbs_value(l)),
        ColumnType::Bool => c matches Cell::Bool(x) && bool_value(text) == Some(x),
        ColumnType::DateTime => c matches Cell::DateTime(x) && rfc3339_timestamp(text) matches Some(
            s,
        ) && x == s as i32,
        ColumnType::Float32 => c matches Cell::Float32(s) && s@ == text,
        ColumnType::Float64 => c matches Cell::Float64(s) && s@ == text,
        _ => false,
    }
}

/// Index of the first `(` of a type descriptor, or its length.
pub open spec fn name_end(d: Seq<char>) -> nat
    decreases d.len(),
{
    if d.len() == 0 || d[0] == '(' {
        0
    } else {
        1 + name_end(d.skip(1))
    }
}

proof fn lemma_name_end(d: Seq<char>, i: int)
    requires
        0 <= i <= d.len(),
        forall|j: int| 0 <= j < i ==> d[j] != '(',
        i == d.len() || d[i] == '(',
    ensures
        name_end(d) == i,
    decreases i,
{
    if i > 0 {
        lemma_name_end(d.skip(1), i - 1);
    }
}

/// The type that a plain type name denotes.
pub open spec fn named_type(name: Seq<char>) -> Option<ColumnType> {
    if name == "String"@ {
        Some(ColumnType::String)
    } else if name == "UInt8"@ {
        Some(ColumnType::UInt8)
    } else if name == "UInt16"@ {
        Some(ColumnType::UInt16)
    } else if name == "UInt32"@ {
        Some(ColumnType::UInt32)
    } else if name == "UInt64"@ {
        Some(ColumnType::UInt64)
    } else if name == "UInt128"@ {
        Some(ColumnType::UInt128)
    } else if name == "UInt256"@ {
        Some(ColumnType::UInt256)
    } else if name == "Int8"@ {
        Some(ColumnType::Int8)
    } else if name == "Int16"@ {
        Some(ColumnType::Int16)
    } else if name == "Int32"@ {
        Some(ColumnType::Int32)
    } else if name == "Int64"@ {
        Some(ColumnType::Int64)
    } else if name == "Int128"@ {
        Some(ColumnType::Int128)
    } else if name == "Int256"@ {
        Some(ColumnType::Int256)
    } else if name == "Float32"@ {
        Some(ColumnType::Float32)
    } else if name == "Float64"@ {
        Some(ColumnType::Float64)
    } else if name == "DateTime"@ {
        Some(ColumnType::DateTime)
    } else if name == "Date"@ {
        Some(ColumnType::Date)
    } else if name == "Bool"@ {
        Some(ColumnType::Bool)
    } else if name == "LowCardinality"@ {
        Some(ColumnType::LowCardinality)
    } else if name == "Decimal"@ {
        Some(ColumnType::Decimal)
    } else {
        None
    }
}

/// The type that a catalog descriptor such as `UInt64`, `FixedString(40)`
/// or `Nullable(String)` denotes. The name stops at the first `(`; the
/// parameter of `FixedString` and `Nullable` is what the outer parentheses
/// enclose, and other parameters are ignored.
pub open spec fn descriptor_type(d: Seq<char>) -> Option<ColumnType>
    decreases d.len(),
{
    let k = name_end(d) as int;
    let name = d.take(k);
    let enclosed = k + 1 < d.len() && d.last() == ')';
    if name == "FixedString"@ {
        if enclosed {
            match uint_value(encode_utf8(d.subrange(k + 1, d.len() - 1)), usize::MAX as nat) {
                Some(n) => Some(ColumnType::FixedString(n as usize)),
                None => None,
            }
        } else {
            None
        }
    } else if name == "Nullable"@ {
        if enclosed {
            match descriptor_type(d.subrange(k + 1, d.len() - 1)) {
                Some(t) => Some(ColumnType::Nullable(Box::new(t))),
                None => None,
            }
        } else {
            None
        }
    } else {
        named_type(name)
    }
}

fn named_type_exec(name: &str) -> (r: Option<ColumnType>)
    ensures
        r == named_type(name@),
{
    if same_text(name, "String") {
        Some(ColumnType::String)
    } else if same_text(name, "UInt8") {
        Some(ColumnType::UInt8)
    } else if same_text(name, "UInt16") {
        Some(ColumnType::UInt16)
    } else if same_text(name, "UInt32") {
        Some(ColumnType::UInt32)
    } else if same_text(name, "UInt64") {
        Some(ColumnType::UInt64)
    } else if same_text(name, "UInt128") {
        Some(ColumnType::UInt128)
    } else if same_text(name, "UInt256") {
        Some(ColumnType::UInt256)
    } else if same_text(name, "Int8") {
        Some(ColumnType::Int8)
    } else if same_text(name, "Int16") {
        Some(ColumnType::Int16)
    } else if same_text(name, "Int32") {
        Some(ColumnType::Int32)
    } else if same_text(name, "Int64") {
        Some(ColumnType::Int64)
    } else if same_text(name, "Int128") {
        Some(ColumnType::Int128)
    } else if same_text(name, "Int256") {
        Some(ColumnType::Int256)
    } else if same_text(name, "Float32") {
        Some(ColumnType::Float32)
    } else if same_text(name, "Float64") {
        Some(ColumnType::Float64)
    } else if same_text(name, "DateTime") {
        Some(ColumnType::DateTime)
    } else if same_text(name, "Date") {
        Some(ColumnType::Date)
    } else if same_text(name, "Bool") {
        Some(ColumnType::Bool)
    } else if same_text(name, "LowCardinality") {
        Some(ColumnType::LowCardinality)
    } else if same_text(name, "Decimal") {
        Some(ColumnType::Decimal)
    } else {
        None
    }
}

impl ColumnType {
    /// Reads a type descriptor of the database's catalog.
    pub fn parse(descriptor: &str) -> (r: Option<ColumnType>)
        ensures
            r == descriptor_type(descriptor@),
        decreases descriptor@.len(),
    {
        let d = descriptor;
        let n = d.unicode_len();
        let mut k: usize = 0;
        while k < n && d.get_char(k) != '('
            invariant
                n == d@.len(),
                k <= n,
                forall|j: int| 0 <= j < k ==> d@[j] != '(',
            decreases n - k,
        {
            k = k + 1;
        }
        proof {
            lemma_name_end(d@, k as int);
        }
        let name = d.substring_char(0, k);
        assert(name@ == d@.take(k as int));
        let enclosed = k < n && k + 1 < n && d.get_char(n - 1) == ')';
        if same_text(name, "FixedString") {
            if enclosed {
                let p = d.substring_char(k + 1, n - 1);
                match parse_uint(p.as_bytes(), usize::MAX as u128) {
                    Some(v) => Some(ColumnType::FixedString(v as usize)),
                    None => None,
                }
            } else {
                None
            }
        } else if same_text(name, "Nullable") {
            if enclosed {
                let inner = d.substring_char(k + 1, n - 1);
                match ColumnType::parse(inner) {
                    Some(t) => Some(ColumnType::Nullable(Box::new(t))),
                    None => None,
                }
            } else {
                None
            }
        } else {
            named_type_exec(name)
        }
    }

    /// Whether values of this type can be encoded.
    pub fn is_supported(&self) -> (r: bool)
        ensures
            r == is_supported(*self),
    {
        match self {
            ColumnType::Date | ColumnType::LowCardinality | ColumnType::Decimal
            | ColumnType::Nullable(_) => false,
            _ => true,
        }
    }
}

/// Whether two texts hold the same characters.
fn same_text(a: &str, b: &str) -> (r: bool)
    ensures
        r == (a@ == b@),
{
    let n = a.unicode_len();
    if n != b.unicode_len() {
        return false;
    }
    let mut i: usize = 0;
    while i < n
        invariant
            n == a@.len() == b@.len(),
            i <= n,
            a@.subrange(0, i as int) == b@.subrange(0, i as int),
        decreases n - i,
    {
        if a.get_char(i) != b.get_char(i) {
            return false;
        }
        assert(a@.subrange(0, i + 1) =~= a@.subrange(0, i as int).push(a@[i as int]));
        assert(b@.subrange(0, i + 1) =~= b@.subrange(0, i as int).push(b@[i as int]));
        i = i + 1;
    }
    assert(a@ =~= a@.subrange(0, n as int));
    assert(b@ =~= b@.subrange(0, n as int));
    true
}

fn fixed_string(b: &[u8], n: usize) -> (r: Vec<u8>)
    ensures
        r@ == fixed_bytes(b@, n as nat),
{
    let mut r: Vec<u8> = Vec::new();
    let mut i: usize = 0;
    while i < n
        invariant
            i <= n,
            r@ =~= fixed_bytes(b@, i as nat),
        decreases n - i,
    {
        if i < b.len() {
            r.push(b[i]);
        } else {
            r.push(0);
        }
        i = i + 1;
    }
    r
}

proof fn lemma_limbs_value(v: nat)
    requires
        v < pow2(256),
    ensures
        limb(v, 0) + limb(v, 1) * pow2(64) + limb(v, 2)
            * pow2(128) + limb(v, 3) * pow2(192)
            == v,
{
    let p = pow2(64) as int;
    lemma2_to64();
    lemma2_to64_rest();
    lemma_pow2_adds(64, 64);
    lemma_pow2_adds(128, 64);
    lemma_pow2_adds(192, 64);
    let a = v as int;
    let q1 = a / p;
    let q2 = q1 / p;
    let q3 = q2 / p;
    lemma_fundamental_div_mod(a, p);
    lemma_fundamental_div_mod(q1, p);
    lemma_fundamental_div_mod(q2, p);
    lemma_div_denominator(a, p, p);
    lemma_div_denominator(a, p * p, p);
    assert(pow2(64 * 0) == 1);
    assert(a / 1 == a);
    let (r0, r1, r2) = (a % p, q1 % p, q2 % p);
    assert(0 <= r0 < p && 0 <= r1 < p && 0 <= r2 < p);
    assert(a == r0 + p * r1 + p * p * r2 + p * p * p * q3) by (nonlinear_arith)
        requires
            a == p * q1 + r0,
            q1 == p * q2 + r1,
            q2 == p * q3 + r2,
    ;
    assert(q3 < p) by (nonlinear_arith)
        requires
            a == r0 + p * r1 + p * p * r2 + p * p * p * q3,
            a < p * p * p * p,
            r0 >= 0,
            r1 >= 0,
            r2 >= 0,
            p > 0,
    ;
    assert(q3 >= 0);
    lemma_small_mod(q3 as nat, p as nat);
    assert(limb(v, 3) == q3);
    assert(limb(v, 0) + limb(v, 1) * p + limb(v, 2) * (p * p) + limb(v, 3) * (p * p * p) == a)
        by (nonlinear_arith)
        requires
            limb(v, 0) == r0,
            limb(v, 1) == r1,
            limb(v, 2) == r2,
            limb(v, 3) == q3,
            a == r0 + p * r1 + p * p * r2 + p * p * p * q3,
    ;
}

/// Encodes `text` as the cell of a column of type `t`.
pub fn encode_value(t: &ColumnType, text: &str) -> (r: Result<Cell, CodecError>)
    ensures
        r is Ok <==> encodable(*t, text@),
        r matches Ok(c) ==> encodes(*t, text@, c),
        r matches Err(e) ==> e == if is_supported(*t) {
            CodecError::InvalidValue
        } else {
            CodecError::UnsupportedType
        },
{
    let b = text.as_bytes();
    let bad = Err(CodecError::InvalidValue);
    match t {
        ColumnType::String => Ok(Cell::String(text.to_owned())),
        ColumnType::FixedString(n) => Ok(Cell::FixedString(fixed_string(b, *n))),
        ColumnType::UInt8 => match parse_uint(b, u8::MAX as u128) {
            Some(v) => Ok(Cell::UInt8(v as u8)),
            None => bad,
        },
        ColumnType::UInt16 => match parse_uint(b, u16::MAX as u128) {
            Some(v) => Ok(Cell::UInt16(v as u16)),
            None => bad,
        },
        ColumnType::UInt32 => match parse_uint(b, u32::MAX as u128) {
            Some(v) => Ok(Cell::UInt32(v as u32)),
            None => bad,
        },
        ColumnType::UInt64 => match parse_uint(b, u64::MAX as u128) {
            Some(v) => Ok(Cell::UInt64(v as u64)),
            None => bad,
        },
        ColumnType::UInt128 => match parse_uint(b, u128::MAX) {
            Some(v) => Ok(Cell::UInt128(v)),
            None => bad,
        },
        ColumnType::Int8 => match parse_int(b, i8::MIN as i128, i8::MAX as i128) {
            Some(v) => Ok(Cell::Int8(v as i8)),
            None => bad,
        },
        ColumnType::Int16 => match parse_int(b, i16::MIN as i128, i16::MAX as i128) {
            Some(v) => Ok(Cell::Int16(v as i16)),
            None => bad,
        },
        ColumnType::Int32 => match parse_int(b, i32::MIN as i128, i32::MAX as i128) {
            Some(v) => Ok(Cell::Int32(v as i32)),
            None => bad,
        },
        ColumnType::Int64 => match parse_int(b, i64::MIN as i128, i64::MAX as i128) {
            Some(v) => Ok(Cell::Int64(v as i64)),
            None => bad,
        },
        ColumnType::Int128 => match parse_int(b, i128::MIN, i128::MAX) {
            Some(v) => Ok(Cell::Int128(v)),
            None => bad,
        },
        ColumnType::UInt256 | ColumnType::Int256 => match parse_u256_limbs(text) {
            Some(l) => {
                proof {
                    lemma_limbs_value(u256_value(b@).unwrap());
                }
                Ok(Cell::UInt256(l))
            },
            None => bad,
        },
        ColumnType::Bool => {
            if same_text(text, "true") {
                Ok(Cell::Bool(true))
            } else if same_text(text, "false") {
                Ok(Cell::Bool(false))
            } else {
                bad
            }
        },
        ColumnType::DateTime => match parse_rfc3339_seconds(text) {
            Some(s) => Ok(Cell::DateTime(#[verifier::truncate] (s as i32))),
            None => bad,
        },
        ColumnType::Float32 => Ok(Cell::Float32(text.to_owned())),
        ColumnType::Float64 => Ok(Cell::Float64(text.to_owned())),
        ColumnType::Date | ColumnType::LowCardinality | ColumnType::Decimal
        | ColumnType::Nullable(_) => Err(CodecError::UnsupportedType),
    }
}

} // verus!
