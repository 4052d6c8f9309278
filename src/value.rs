//! Protocol reply values and their normalization to one signed integer.
use vstd::prelude::*;

verus! {

/// A tagged numeric reply value, as an agent returns it.
#[derive(Debug, Clone, Copy, PartialEq, Eq, Structural)]
pub enum SnmpValue {
    Integer(i64),
    Counter32(u32),
    Unsigned32(u32),
    Timeticks(u32),
    Counter64(u64),
    Other,
}

/// What a reply value stands for as a signed 64-bit integer. Numeric tags keep
/// their value; a 64-bit counter above `i64::MAX` wraps around modulo 2^64;
/// any other tag is zero.
pub open spec fn normalized(v: SnmpValue) -> int {
    match v {
        SnmpValue::Integer(x) => x as int,
        SnmpValue::Counter32(x) => x as int,
        SnmpValue::Unsigned32(x) => x as int,
        SnmpValue::Timeticks(x) => x as int,
        SnmpValue::Counter64(x) => if x <= i64::MAX {
            x as int
        } else {
            x - 0x1_0000_0000_0000_0000
        },
        SnmpValue::Other => 0,
    }
}

/// Normalizes a reply value; never fails.
pub fn normalize(v: &SnmpValue) -> (r: i64)
    ensures
        r == normalized(*v),
{
    match v {
        SnmpValue::Integer(x) => *x,
        SnmpValue::Counter32(x) => *x as i64,
        SnmpValue::Unsigned32(x) => *x as i64,
        SnmpValue::Timeticks(x) => *x as i64,
        SnmpValue::Counter64(x) => {
            if *x <= 0x7fff_ffff_ffff_ffff {
                *x as i64
            } else {
                ((*x - 0x8000_0000_0000_0000) as i64) + i64::MIN
            }
        },
        SnmpValue::Other => 0,
    }
}

/// Every tag has a value in range, the unsigned 32-bit kinds are never
/// negative, and an unrecognized tag is zero.
pub proof fn lemma_normalize_range(v: SnmpValue)
    ensures
        i64::MIN <= normalized(v) <= i64::MAX,
        match v {
            SnmpValue::Counter32(x) => normalized(v) == x && normalized(v) >= 0,
            SnmpValue::Unsigned32(x) => normalized(v) == x && normalized(v) >= 0,
            SnmpValue::Timeticks(x) => normalized(v) == x && normalized(v) >= 0,
            SnmpValue::Integer(x) => normalized(v) == x,
            SnmpValue::Other => normalized(v) == 0,
            SnmpValue::Counter64(x) => x <= i64::MAX ==> normalized(v) == x,
        },
{
}

} // verus!
