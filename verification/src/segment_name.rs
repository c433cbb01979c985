//! The names of segment files: the id in decimal, without padding, and then
//! `.log`.

use vstd::prelude::*;

verus! {

/// The byte of the ASCII digit `d`.
pub open spec fn digit_byte(d: nat) -> u8 {
    (48 + d) as u8
}

/// `b` is an ASCII digit.
pub open spec fn is_digit(b: u8) -> bool {
    48 <= b <= 57
}

/// The decimal digits of `n`, most significant first, without padding.
pub open spec fn decimal(n: nat) -> Seq<u8>
    decreases n,
{
    if n < 10 {
        seq![digit_byte(n)]
    } else {
        decimal(n / 10).push(digit_byte(n % 10))
    }
}

/// The number that a string of digits stands for.
pub open spec fn decimal_value(digits: Seq<u8>) -> nat
    decreases digits.len(),
{
    if digits.len() == 0 {
        0
    } else {
        (10 * decimal_value(digits.drop_last()) + (digits.last() - 48)) as nat
    }
}

/// A string of digits as `decimal` writes one: not empty, digits only, and
/// no zero in front of another digit.
pub open spec fn canonical(digits: Seq<u8>) -> bool {
    &&& digits.len() > 0
    &&& forall|i: int| 0 <= i < digits.len() ==> is_digit(#[trigger] digits[i])
    &&& digits.len() > 1 ==> digits[0] != 48
}

/// The bytes of `.log`.
pub open spec fn log_suffix() -> Seq<u8> {
    seq![46u8, 108u8, 111u8, 103u8]
}

/// The name of the file that holds the segment `id`.
pub open spec fn segment_file_name(id: u64) -> Seq<u8> {
    decimal(id as nat) + log_suffix()
}

/// The id of the segment that a file named `name` holds, if the name is
/// that of a segment file.
pub open spec fn segment_id_of(name: Seq<u8>) -> Option<u64> {
    if exists|id: u64| name == segment_file_name(id) {
        Some(choose|id: u64| name == segment_file_name(id))
    } else {
        None
    }
}

/// What `decimal` writes is canonical and stands for the number written.
pub proof fn lemma_decimal(n: nat)
    ensures
        canonical(decimal(n)),
        decimal_value(decimal(n)) == n,
        n >= 10 ==> decimal(n).len() > 1,
        n > 0 ==> decimal(n)[0] != 48,
    decreases n,
{
    if n < 10 {
        assert(decimal(n).drop_last() =~= Seq::<u8>::empty());
        assert(decimal_value(decimal(n).drop_last()) == 0);
    } else {
        lemma_decimal(n / 10);
        let front = decimal(n / 10);
        let all = decimal(n);
        assert(all.drop_last() =~= front);
        assert(all[0] == front[0]);
        assert forall|i: int| 0 <= i < all.len() implies is_digit(#[trigger] all[i]) by {
            if i < front.len() {
                assert(all[i] == front[i]);
            }
        }
    }
}

/// A canonical string of digits is the decimal form of its value.
pub proof fn lemma_canonical_is_decimal(digits: Seq<u8>)
    requires
        canonical(digits),
    ensures
        decimal(decimal_value(digits)) == digits,
        digits.len() > 1 ==> decimal_value(digits) >= 10,
        digits[0] != 48 ==> decimal_value(digits) > 0,
    decreases digits.len(),
{
    let front = digits.drop_last();
    let d = (digits.last() - 48) as nat;
    if digits.len() == 1 {
        assert(front =~= Seq::<u8>::empty());
        assert(decimal_value(front) == 0);
        assert(decimal_value(digits) == d);
        assert(decimal(d) =~= digits);
    } else {
        assert(front[0] == digits[0]);
        assert forall|i: int| 0 <= i < front.len() implies is_digit(#[trigger] front[i]) by {
            assert(front[i] == digits[i]);
        }
        lemma_canonical_is_decimal(front);
        let v = decimal_value(front);
        assert(v > 0);
        assert(decimal_value(digits) == 10 * v + d);
        assert((10 * v + d) / 10 == v && (10 * v + d) % 10 == d) by (nonlinear_arith)
            requires
                0 <= d < 10,
        ;
        assert(decimal(10 * v + d) =~= digits);
    }
}

/// Two ids with one file name are one id.
pub proof fn lemma_file_name_injective(a: u64, b: u64)
    requires
        segment_file_name(a) == segment_file_name(b),
    ensures
        a == b,
{
    lemma_decimal(a as nat);
    lemma_decimal(b as nat);
    let da = decimal(a as nat);
    let db = decimal(b as nat);
    assert(segment_file_name(a).len() == da.len() + 4);
    assert(segment_file_name(b).len() == db.len() + 4);
    assert(da =~= segment_file_name(a).subrange(0, da.len() as int));
    assert(db =~= segment_file_name(b).subrange(0, db.len() as int));
}

/// The value of a string of digits is at least the value of each of its
/// fronts.
pub proof fn lemma_value_grows(digits: Seq<u8>, n: int)
    requires
        forall|i: int| 0 <= i < digits.len() ==> is_digit(#[trigger] digits[i]),
        0 <= n <= digits.len(),
    ensures
        decimal_value(digits.subrange(0, n)) <= decimal_value(digits),
    decreases digits.len() - n,
{
    if n < digits.len() {
        let longer = digits.subrange(0, n + 1);
        assert(longer.drop_last() =~= digits.subrange(0, n));
        assert(is_digit(digits[n]));
        assert(longer.last() == digits[n]);
        lemma_value_grows(digits, n + 1);
    } else {
        assert(digits.subrange(0, n) =~= digits);
    }
}

/// The name of the file that holds the segment `id`: `0.log`, `1.log`, ...
pub fn file_name(id: u64) -> (name: Vec<u8>)
    ensures
        name@ == segment_file_name(id),
{
    let mut reversed: Vec<u8> = Vec::new();
    let mut n: u64 = id;
    loop
        invariant_except_break
            decimal(id as nat) == decimal(n as nat) + reversed@.reverse(),
        ensures
            decimal(id as nat) == reversed@.reverse(),
        decreases n,
    {
        let d: u8 = (n % 10) as u8;
        let ghost before = reversed@;
        reversed.push(48 + d);
        assert(reversed@.reverse() =~= seq![digit_byte((n % 10) as nat)] + before.reverse());
        if n < 10 {
            assert(decimal(n as nat) + before.reverse() =~= reversed@.reverse());
            break ;
        }
        assert(decimal(n as nat) + before.reverse() =~= decimal((n / 10) as nat)
            + reversed@.reverse());
        n = n / 10;
    }
    let mut name: Vec<u8> = Vec::new();
    let mut i: usize = reversed.len();
    while i > 0
        invariant
            i <= reversed@.len(),
            name@.len() == reversed@.len() - i,
            forall|k: int| 0 <= k < name@.len() ==> name@[k] == reversed@[reversed@.len() - 1 - k],
        decreases i,
    {
        i -= 1;
        name.push(reversed[i]);
    }
    assert(name@ =~= reversed@.reverse());
    name.push(46u8);
    name.push(108u8);
    name.push(111u8);
    name.push(103u8);
    assert(name@ =~= segment_file_name(id));
    name
}

/// The id of the segment that a file named `name` holds; `None` for a name
/// that is not that of a segment file.
pub fn parse_file_name(name: &[u8]) -> (out: Option<u64>)
    ensures
        match out {
            Some(id) => name@ == segment_file_name(id),
            None => forall|id: u64| name@ != segment_file_name(id),
        },
        out == segment_id_of(name@),
{
    let len = name.len();
    if len < 5 || name[len - 4] != 46u8 || name[len - 3] != 108u8 || name[len - 2] != 111u8
        || name[len - 1] != 103u8 {
        proof {
            assert forall|id: u64| name@ != segment_file_name(id) by {
                lemma_decimal(id as nat);
                let full = segment_file_name(id);
                let k = full.len();
                assert(full[k - 4] == 46u8 && full[k - 3] == 108u8 && full[k - 2] == 111u8 && full[k
                    - 1] == 103u8);
            }
        }
        return None;
    }
    let count = len - 4;
    let ghost digits = name@.subrange(0, count as int);
    assert(name@ =~= digits + log_suffix());
    proof {
        assert forall|id: u64| name@ == segment_file_name(id) implies digits == decimal(
            id as nat,
        ) by {
            assert(decimal(id as nat) =~= segment_file_name(id).subrange(0, count as int));
        }
    }
    if count > 1 && name[0] == 48u8 {
        proof {
            assert forall|id: u64| name@ != segment_file_name(id) by {
                lemma_decimal(id as nat);
                if name@ == segment_file_name(id) {
                    assert(digits[0] == 48u8);
                }
            }
        }
        return None;
    }
    let mut value: u64 = 0;
    let mut i: usize = 0;
    while i < count
        invariant
            count == len - 4,
            len == name@.len(),
            digits == name@.subrange(0, count as int),
            i <= count,
            value == decimal_value(digits.subrange(0, i as int)),
            forall|k: int| 0 <= k < i ==> is_digit(#[trigger] digits[k]),
            forall|id: u64| name@ == segment_file_name(id) ==> digits == decimal(id as nat),
        decreases count - i,
    {
        let b = name[i];
        if b < 48u8 || b > 57u8 {
            proof {
                assert forall|id: u64| name@ != segment_file_name(id) by {
                    lemma_decimal(id as nat);
                    if name@ == segment_file_name(id) {
                        assert(!is_digit(digits[i as int]));
                    }
                }
            }
            return None;
        }
        let d: u64 = (b - 48u8) as u64;
        let ghost longer = digits.subrange(0, i + 1);
        proof {
            assert(longer.drop_last() =~= digits.subrange(0, i as int));
            assert(longer.last() == b);
            assert(decimal_value(longer) == 10 * value + d);
        }
        if value > (u64::MAX - d) / 10 {
            proof {
                assert(10 * value + d > u64::MAX);
                assert forall|id: u64| name@ != segment_file_name(id) by {
                    lemma_decimal(id as nat);
                    if name@ == segment_file_name(id) {
                        lemma_value_grows(digits, i + 1);
                    }
                }
            }
            return None;
        }
        value = value * 10 + d;
        i += 1;
    }
    proof {
        assert(digits.subrange(0, count as int) =~= digits);
        lemma_canonical_is_decimal(digits);
        assert(name@ == segment_file_name(value));
        lemma_file_name_injective(value, segment_id_of(name@)->0);
    }
    Some(value)
}

} // verus!
