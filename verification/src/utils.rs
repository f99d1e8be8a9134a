//! Small helpers shared by the engines: lineup copying, lineup uniqueness,
//! and driver-number input validation.

use vstd::prelude::*;
use vstd::string::StringSliceAdditionalSpecFns;

verus! {

/// An element-for-element copy of a lineup.
pub(crate) fn copy_drivers(v: &Vec<u8>) -> (r: Vec<u8>)
    ensures
        r@ == v@,
{
    let n = v.len();
    let mut r: Vec<u8> = Vec::new();
    let mut i: usize = 0;
    while i < n
        invariant
            i <= n,
            n == v@.len(),
            r@ == v@.subrange(0, i as int),
        decreases n - i,
    {
        r.push(v[i]);
        proof {
            assert(v@.subrange(0, i + 1) =~= v@.subrange(0, i as int).push(v@[i as int]));
        }
        i += 1;
    }
    proof {
        assert(v@.subrange(0, n as int) =~= v@);
    }
    r
}

/// The first driver of `l` already in `seen`, drivers before it joining
/// `seen` as they are passed.
pub open spec fn spec_dup_in_lineup(l: Seq<u8>, seen: Seq<u8>) -> Option<u8>
    decreases l.len(),
{
    if l.len() == 0 {
        None
    } else if seen.contains(l[0]) {
        Some(l[0])
    } else {
        spec_dup_in_lineup(l.drop_first(), seen.push(l[0]))
    }
}

/// The first driver to appear twice, scanning lineups in team order and
/// each lineup in driver order, starting from the drivers in `seen`.
pub open spec fn spec_first_dup(lineups: Seq<Seq<u8>>, seen: Seq<u8>) -> Option<u8>
    decreases lineups.len(),
{
    if lineups.len() == 0 {
        None
    } else {
        match spec_dup_in_lineup(lineups[0], seen) {
            Some(d) => Some(d),
            None => spec_first_dup(lineups.drop_first(), seen + lineups[0]),
        }
    }
}

/// Scans the lineups in team-then-driver order for the first driver that
/// appears twice.
pub(crate) fn scan_first_dup(lineups: &Vec<Vec<u8>>) -> (r: Option<u8>)
    ensures
        r == spec_first_dup(lineups@.map_values(|v: Vec<u8>| v@), Seq::<u8>::empty()),
{
    let ghost views = lineups@.map_values(|v: Vec<u8>| v@);
    let mut seen: Vec<u8> = Vec::new();
    let n = lineups.len();
    let mut t: usize = 0;
    proof {
        assert(views.skip(0) =~= views);
    }
    while t < n
        invariant
            t <= n,
            n == lineups@.len(),
            views == lineups@.map_values(|v: Vec<u8>| v@),
            spec_first_dup(views, Seq::<u8>::empty()) == spec_first_dup(
                views.skip(t as int),
                seen@,
            ),
        decreases n - t,
    {
        let ghost seen0 = seen@;
        let lineup = &lineups[t];
        let ghost lv = lineup@;
        proof {
            assert(views.skip(t as int)[0] == lv);
            assert(views.skip(t as int).drop_first() =~= views.skip(t as int + 1));
            assert(lv.skip(0) =~= lv);
        }
        let m = lineup.len();
        let mut k: usize = 0;
        while k < m
            invariant
                k <= m,
                m == lv.len(),
                lineup@ == lv,
                views == lineups@.map_values(|v: Vec<u8>| v@),
                spec_first_dup(views, Seq::<u8>::empty()) == spec_first_dup(
                    views.skip(t as int),
                    seen0,
                ),
                spec_dup_in_lineup(lv, seen0) == spec_dup_in_lineup(lv.skip(k as int), seen@),
                seen@ == seen0 + lv.take(k as int),
                views.skip(t as int)[0] == lv,
                views.skip(t as int).len() > 0,
            decreases m - k,
        {
            proof {
                assert(lv.skip(k as int)[0] == lv[k as int]);
                assert(lv.skip(k as int).drop_first() =~= lv.skip(k as int + 1));
            }
            let d = lineup[k];
            if seen_contains(&seen, d) {
                proof {
                    assert(spec_dup_in_lineup(lv.skip(k as int), seen@) == Some(d));
                    assert(spec_first_dup(views.skip(t as int), seen0) == Some(d));
                }
                return Some(d);
            }
            seen.push(d);
            proof {
                assert(seen@ =~= seen0 + lv.take(k as int + 1));
            }
            k += 1;
        }
        proof {
            assert(lv.skip(m as int) =~= Seq::<u8>::empty());
            assert(spec_dup_in_lineup(lv, seen0) is None);
            assert(seen@ =~= seen0 + lv);
            assert(spec_first_dup(views.skip(t as int), seen0) == spec_first_dup(
                views.skip(t as int + 1),
                seen0 + lv,
            ));
        }
        t += 1;
    }
    proof {
        assert(views.skip(n as int) =~= Seq::<Seq<u8>>::empty());
    }
    None
}

/// No driver appears twice across the given lineups.
pub fn is_unique_lineups(lineups: Vec<Vec<u8>>) -> (r: bool)
    ensures
        r == (spec_first_dup(lineups@.map_values(|v: Vec<u8>| v@), Seq::<u8>::empty()) is None),
{
    match scan_first_dup(&lineups) {
        Some(_) => false,
        None => true,
    }
}

/// The numeric value of a digit string, most significant digit first.
pub open spec fn spec_digits_value(bs: Seq<u8>) -> int
    decreases bs.len(),
{
    if bs.len() == 0 {
        0
    } else {
        spec_digits_value(bs.drop_last()) * 10 + (bs.last() - 48)
    }
}

/// Every byte is an ASCII digit.
pub open spec fn spec_all_digits(bs: Seq<u8>) -> bool {
    forall|i: int| 0 <= i < bs.len() ==> 48 <= #[trigger] bs[i] <= 57
}

/// The digits of a number string: everything after an optional leading `+`.
pub open spec fn spec_digit_body(bs: Seq<u8>) -> Seq<u8> {
    if bs.len() > 0 && bs[0] == 43 {
        bs.drop_first()
    } else {
        bs
    }
}

/// Whether the bytes parse as an unsigned number below 100: an optional
/// `+`, then at least one digit, all digits, value under 100.
pub open spec fn spec_parses_below_100(bs: Seq<u8>) -> bool {
    let ds = spec_digit_body(bs);
    ds.len() > 0 && spec_all_digits(ds) && spec_digits_value(ds) < 100
}

/// A digit string's value is never negative.
proof fn lemma_digits_value_nonneg(bs: Seq<u8>)
    requires
        spec_all_digits(bs),
    ensures
        spec_digits_value(bs) >= 0,
    decreases bs.len(),
{
    if bs.len() > 0 {
        lemma_digits_value_nonneg(bs.drop_last());
    }
}

/// Whether `new` reads as a driver number: an unsigned integer below 100,
/// as the standard number parser accepts it.
pub fn is_parsable_driver(new: &str) -> (r: bool)
    ensures
        r == spec_parses_below_100(new.spec_bytes()),
{
    let bytes = new.as_bytes();
    let n = bytes.len();
    let start: usize = if n > 0 && bytes[0] == 43 {
        1
    } else {
        0
    };
    proof {
        if start == 1 {
            assert(spec_digit_body(bytes@) =~= bytes@.subrange(1, n as int));
        } else {
            assert(spec_digit_body(bytes@) =~= bytes@.subrange(0, n as int));
        }
    }
    let ghost ds = spec_digit_body(bytes@);
    if n == start {
        return false;
    }
    let mut val: u32 = 0;
    let mut i: usize = start;
    proof {
        assert(bytes@.subrange(start as int, start as int) =~= Seq::<u8>::empty());
    }
    while i < n
        invariant
            start <= i <= n,
            n == bytes@.len(),
            bytes@ == new.spec_bytes(),
            ds == spec_digit_body(bytes@),
            ds == bytes@.subrange(start as int, n as int),
            forall|j: int| start <= j < i ==> 48 <= #[trigger] bytes@[j] <= 57,
            val < 10000,
            ({
                let v = spec_digits_value(bytes@.subrange(start as int, i as int));
                (v < 1000 && val == v) || (v >= 1000 && val >= 1000)
            }),
        decreases n - i,
    {
        let b = bytes[i];
        if b < 48 || b > 57 {
            proof {
                assert(ds[i - start as int] == b);
                assert(!spec_all_digits(ds));
            }
            return false;
        }
        proof {
            let prefix = bytes@.subrange(start as int, i as int);
            assert(bytes@.subrange(start as int, i as int + 1).drop_last() =~= prefix);
            assert(bytes@.subrange(start as int, i as int + 1).last() == b);
            assert(spec_all_digits(prefix));
            lemma_digits_value_nonneg(prefix);
        }
        if val < 1000 {
            val = val * 10 + (b - 48) as u32;
        }
        i += 1;
    }
    proof {
        assert(bytes@.subrange(start as int, n as int) =~= ds);
        assert(spec_all_digits(ds));
    }
    val < 100
}

/// Whether `new` is acceptable driver-number input: empty (still being
/// typed) or a parsable driver number.
pub fn is_valid_driver_input(new: &str) -> (r: bool)
    ensures
        r == (new.spec_bytes().len() == 0 || spec_parses_below_100(new.spec_bytes())),
{
    let bytes = new.as_bytes();
    if bytes.len() == 0 {
        true
    } else {
        is_parsable_driver(new)
    }
}

/// Whether `new` is acceptable driver-number input: empty or a parsable
/// driver number.
pub fn is_valid_driver_str(new: &str) -> (r: bool)
    ensures
        r == (new.spec_bytes().len() == 0 || spec_parses_below_100(new.spec_bytes())),
{
    is_valid_driver_input(new)
}

/// Whether `seen` holds `x`.
pub(crate) fn seen_contains(seen: &Vec<u8>, x: u8) -> (r: bool)
    ensures
        r == seen@.contains(x),
{
    let n = seen.len();
    let mut i: usize = 0;
    while i < n
        invariant
            i <= n,
            n == seen@.len(),
            forall|j: int| 0 <= j < i ==> seen@[j] != x,
        decreases n - i,
    {
        if seen[i] == x {
            return true;
        }
        i += 1;
    }
    false
}

} // verus!
