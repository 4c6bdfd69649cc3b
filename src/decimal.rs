use vstd::prelude::*;

verus! {

pub open spec fn is_digit(c: u8) -> bool {
    48 <= c <= 57
}

pub open spec fn all_digits(b: Seq<u8>) -> bool {
    forall|i: int| 0 <= i < b.len() ==> is_digit(b[i])
}

/// The number that a run of decimal digits denotes (0 for no digits).
pub open spec fn digits_value(b: Seq<u8>) -> nat
    decreases b.len(),
{
    if b.len() == 0 {
        0
    } else {
        digits_value(b.drop_last()) * 10 + (b.last() - 48) as nat
    }
}

/// A decimal integer as std's integer parsing reads it: an optional sign,
/// then one or more digits. A minus sign is accepted only when `signed`.
pub open spec fn decimal_value(b: Seq<u8>, signed: bool) -> Option<int> {
    if b.len() > 0 && b[0] == 45u8 {
        if signed && b.len() > 1 && all_digits(b.skip(1)) {
            Some(-(digits_value(b.skip(1)) as int))
        } else {
            None
        }
    } else {
        let d = if b.len() > 0 && b[0] == 43u8 {
            b.skip(1)
        } else {
            b
        };
        if d.len() > 0 && all_digits(d) {
            Some(digits_value(d) as int)
        } else {
            None
        }
    }
}

/// The value of `b` as an unsigned integer no greater than `max`.
pub open spec fn uint_value(b: Seq<u8>, max: nat) -> Option<int> {
    match decimal_value(b, false) {
        Some(v) => if v <= max {
            Some(v)
        } else {
            None
        },
        None => None,
    }
}

/// The value of `b` as a signed integer within `min..=max`.
pub open spec fn int_value(b: Seq<u8>, min: int, max: int) -> Option<int> {
    match decimal_value(b, true) {
        Some(v) => if min <= v <= max {
            Some(v)
        } else {
            None
        },
        None => None,
    }
}

/// The decimal digits of `v`, most significant first, with no leading zero.
pub open spec fn decimal_text(v: nat) -> Seq<u8>
    decreases v,
{
    if v < 10 {
        seq![(v + 48) as u8]
    } else {
        decimal_text(v / 10).push((v % 10 + 48) as u8)
    }
}

proof fn lemma_decimal_text(v: nat)
    ensures
        decimal_text(v).len() > 0,
        all_digits(decimal_text(v)),
        digits_value(decimal_text(v)) == v,
    decreases v,
{
    if v >= 10 {
        lemma_decimal_text(v / 10);
        let s = decimal_text(v);
        assert(s.drop_last() =~= decimal_text(v / 10));
        assert(s.last() == (v % 10 + 48) as u8);
        assert((s.last() - 48) as nat == v % 10);
        assert(v == (v / 10) * 10 + v % 10) by (nonlinear_arith);
        assert(digits_value(s) == digits_value(s.drop_last()) * 10 + (s.last() - 48) as nat);
        assert forall|i: int| 0 <= i < s.len() implies is_digit(s[i]) by {
            if i < s.len() - 1 {
                assert(s[i] == decimal_text(v / 10)[i]);
            }
        }
    } else {
        let s = decimal_text(v);
        assert(s.drop_last() =~= Seq::<u8>::empty());
        assert(s.last() == (v + 48) as u8);
        assert(digits_value(s) == digits_value(s.drop_last()) * 10 + (s.last() - 48) as nat);
    }
}

/// Reading back the decimal text of any integer gives that integer: for an
/// unsigned column no smaller than it, and for a signed column whose range
/// holds it, whether it is written with or without its sign.
pub proof fn lemma_decimal_round_trip(v: nat, min: int, max: nat)
    ensures
        v <= max ==> uint_value(decimal_text(v), max) == Some(v as int),
        min <= v <= max ==> int_value(decimal_text(v), min, max as int) == Some(v as int),
        v > 0 && min <= -(v as int) <= max ==> int_value(
            seq![45u8] + decimal_text(v),
            min,
            max as int,
        ) == Some(-(v as int)),
{
    lemma_decimal_text(v);
    let s = decimal_text(v);
    assert(is_digit(s[0]));
    let n = seq![45u8] + s;
    assert(n.skip(1) =~= s);
    assert(n[0] == 45u8);
}

proof fn lemma_digits_value_prefix(b: Seq<u8>, k: int)
    requires
        all_digits(b),
        0 <= k <= b.len(),
    ensures
        digits_value(b.take(k)) <= digits_value(b),
    decreases b.len(),
{
    if k == b.len() {
        assert(b.take(k) =~= b);
    } else {
        let p = b.drop_last();
        assert(all_digits(p)) by {
            assert forall|i: int| 0 <= i < p.len() implies is_digit(p[i]) by {
                assert(p[i] == b[i]);
            }
        }
        lemma_digits_value_prefix(p, k);
        assert(p.take(k) =~= b.take(k));
    }
}

/// Reads all of `b` from `start` on as decimal digits; `None` when a byte is
/// not a digit or the value does not fit in a `u128`.
fn read_digits(b: &[u8], start: usize) -> (r: Option<u128>)
    requires
        start <= b@.len(),
    ensures
        match r {
            Some(v) => all_digits(b@.skip(start as int)) && v == digits_value(
                b@.skip(start as int),
            ),
            None => !all_digits(b@.skip(start as int)) || digits_value(b@.skip(start as int))
                > u128::MAX,
        },
{
    let ghost s = b@.skip(start as int);
    let mut acc: u128 = 0;
    let mut i: usize = start;
    while i < b.len()
        invariant
            start <= i <= b@.len(),
            s == b@.skip(start as int),
            all_digits(b@.subrange(start as int, i as int)),
            acc == digits_value(b@.subrange(start as int, i as int)),
        decreases b@.len() - i,
    {
        let c = b[i];
        if c < 48 || c > 57 {
            assert(s[i - start] == c);
            return None;
        }
        let d: u128 = (c - 48) as u128;
        let ghost next = b@.subrange(start as int, i + 1);
        assert(next.drop_last() =~= b@.subrange(start as int, i as int));
        assert(all_digits(next)) by {
            assert forall|j: int| 0 <= j < next.len() implies is_digit(next[j]) by {
                if j < next.len() - 1 {
                    assert(next[j] == b@.subrange(start as int, i as int)[j]);
                }
            }
        }
        if acc > (u128::MAX - d) / 10 {
            proof {
                assert(acc * 10 + d > u128::MAX) by (nonlinear_arith)
                    requires
                        acc > (u128::MAX - d) / 10,
                        d <= 9,
                ;
                if all_digits(s) {
                    assert(s.take(i + 1 - start) =~= next);
                    lemma_digits_value_prefix(s, i + 1 - start);
                }
            }
            return None;
        }
        proof {
            assert(acc * 10 + d <= u128::MAX) by (nonlinear_arith)
                requires
                    acc <= (u128::MAX - d) / 10,
                    d <= 9,
            ;
        }
        acc = acc * 10 + d;
        i = i + 1;
    }
    assert(b@.subrange(start as int, i as int) =~= s);
    Some(acc)
}

/// Sign and magnitude of the decimal integer in `b`, as `decimal_value`
/// reads it; `None` when it is malformed or its magnitude exceeds `u128`.
fn read_decimal(b: &[u8], signed: bool) -> (r: Option<(bool, u128)>)
    ensures
        match r {
            Some((neg, m)) => decimal_value(b@, signed) == Some(
                if neg {
                    -(m as int)
                } else {
                    m as int
                },
            ),
            None => decimal_value(b@, signed) is None || decimal_value(b@, signed).unwrap()
                > u128::MAX || decimal_value(b@, signed).unwrap() < -(u128::MAX as int),
        },
{
    if b.len() > 0 && b[0] == 45 {
        if signed && b.len() > 1 {
            match read_digits(b, 1) {
                Some(m) => Some((true, m)),
                None => None,
            }
        } else {
            None
        }
    } else {
        let start: usize = if b.len() > 0 && b[0] == 43 {
            1
        } else {
            0
        };
        assert(b@.skip(0) =~= b@);
        if start < b.len() {
            match read_digits(b, start) {
                Some(m) => Some((false, m)),
                None => None,
            }
        } else {
            None
        }
    }
}

/// Parses `b` as an unsigned integer no greater than `max`.
pub fn parse_uint(b: &[u8], max: u128) -> (r: Option<u128>)
    ensures
        match uint_value(b@, max as nat) {
            Some(v) => r == Some(v as u128),
            None => r is None,
        },
{
    match read_decimal(b, false) {
        Some((_, m)) => if m <= max {
            Some(m)
        } else {
            None
        },
        None => None,
    }
}

/// Parses `b` as a signed integer within `min..=max`.
pub fn parse_int(b: &[u8], min: i128, max: i128) -> (r: Option<i128>)
    requires
        min < 0 < max,
    ensures
        match int_value(b@, min as int, max as int) {
            Some(v) => r == Some(v as i128),
            None => r is None,
        },
{
    match read_decimal(b, true) {
        Some((neg, m)) => {
            if neg {
                if m == 0 {
                    Some(0)
                } else if m - 1 <= (-(min + 1)) as u128 {
                    Some(-((m - 1) as i128) - 1)
                } else {
                    None
                }
            } else if m <= max as u128 {
                Some(m as i128)
            } else {
                None
            }
        },
        None => None,
    }
}

} // verus!
