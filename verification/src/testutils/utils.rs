use vstd::prelude::*;
use vstd::std_specs::cmp::PartialEqSpec;
use vstd::string::StringExecFns;

use crate::testutils::errors::Error;

verus! {

/// The two sequences have one length, and `==` holds of each pair of items
/// at one position.
pub open spec fn items_equal<T: PartialEq>(a: Seq<T>, b: Seq<T>) -> bool {
    a.len() == b.len() && forall|i: int| 0 <= i < a.len() ==> (#[trigger] a[i]).eq_spec(&b[i])
}

/// The first position at which the two sequences differ under `==`, from
/// `from` on, if there is one within both.
pub open spec fn first_difference<T: PartialEq>(a: Seq<T>, b: Seq<T>, from: int) -> Option<int>
    decreases a.len() - from,
{
    if from < 0 || from >= a.len() || from >= b.len() {
        None
    } else if !a[from].eq_spec(&b[from]) {
        Some(from)
    } else {
        first_difference(a, b, from + 1)
    }
}

/// Compare vectors item by item.
/// Returns true iff the vectors are equal length and associated items are equal.
pub fn vecs_equal<T: PartialEq>(a: &Vec<T>, b: &Vec<T>) -> (r: bool)
    requires
        T::obeys_eq_spec(),
    ensures
        r == items_equal(a@, b@),
{
    if a.len() != b.len() {
        return false;
    }
    let mut i: usize = 0;
    while i < a.len()
        invariant
            T::obeys_eq_spec(),
            a@.len() == b@.len(),
            i <= a@.len(),
            forall|k: int| 0 <= k < i ==> (#[trigger] a@[k]).eq_spec(&b@[k]),
        decreases a@.len() - i,
    {
        if !(a[i] == b[i]) {
            return false;
        }
        i += 1;
    }
    true
}

/// The decimal digit for `d`, which is below ten.
pub open spec fn digit(d: nat) -> char {
    if d == 0 {
        '0'
    } else if d == 1 {
        '1'
    } else if d == 2 {
        '2'
    } else if d == 3 {
        '3'
    } else if d == 4 {
        '4'
    } else if d == 5 {
        '5'
    } else if d == 6 {
        '6'
    } else if d == 7 {
        '7'
    } else if d == 8 {
        '8'
    } else {
        '9'
    }
}

/// `n` in decimal digits, without leading zeros.
pub open spec fn decimal(n: nat) -> Seq<char>
    decreases n,
{
    if n < 10 {
        seq![digit(n)]
    } else {
        decimal(n / 10).push(digit(n % 10))
    }
}

/// The decimal digit for `d`, as a string.
fn digit_str(d: usize) -> (r: &'static str)
    requires
        d < 10,
    ensures
        r@ == seq![digit(d as nat)],
{
    proof {
        reveal_strlit("0");
        reveal_strlit("1");
        reveal_strlit("2");
        reveal_strlit("3");
        reveal_strlit("4");
        reveal_strlit("5");
        reveal_strlit("6");
        reveal_strlit("7");
        reveal_strlit("8");
        reveal_strlit("9");
    }
    let r = if d == 0 {
        "0"
    } else if d == 1 {
        "1"
    } else if d == 2 {
        "2"
    } else if d == 3 {
        "3"
    } else if d == 4 {
        "4"
    } else if d == 5 {
        "5"
    } else if d == 6 {
        "6"
    } else if d == 7 {
        "7"
    } else if d == 8 {
        "8"
    } else {
        "9"
    };
    assert(r@ =~= seq![digit(d as nat)]);
    r
}

/// `n` in decimal digits.
pub fn decimal_string(n: usize) -> (r: String)
    ensures
        r@ == decimal(n as nat),
    decreases n,
{
    if n < 10 {
        digit_str(n).to_owned()
    } else {
        let mut r = decimal_string(n / 10);
        r.append(digit_str(n % 10));
        assert(r@ =~= decimal(n as nat));
        r
    }
}

/// What reports that two vectors have the lengths `a` and `b`, which differ.
pub open spec fn length_report(a: usize, b: usize) -> Seq<char> {
    "a.len() != b.len(); "@ + decimal(a as nat) + " != "@ + decimal(b as nat)
}

/// What reports that two vectors differ at `i`, where `left` and `right`
/// show the two items.
pub open spec fn item_report(i: usize, left: Seq<char>, right: Seq<char>) -> Seq<char> {
    "a["@ + decimal(i as nat) + "] != b["@ + decimal(i as nat) + "]; "@ + left + " != "@ + right
        + ", "@
}

/// How `std` shows `item` under the format `{:?}`. What comes back is up to
/// the type's own `Debug`, so nothing is claimed of it.
#[verifier::external_body]
fn show<T: std::fmt::Debug>(item: &T) -> (r: String) {
    format!("{:?}", item)
}

/// Compare vectors item by item.
/// Returns `Ok` iff the vectors are equal length and associated items are
/// equal, and else an error that says where the first difference is.
pub fn assert_vecs_equal<T: PartialEq + std::fmt::Debug>(a: &Vec<T>, b: &Vec<T>) -> (r: Result<
    (),
    Error,
>)
    requires
        T::obeys_eq_spec(),
    ensures
        match r {
            Ok(_) => items_equal(a@, b@),
            Err(Error::TestCaseFailedAssertionVecsEqual(report)) => !items_equal(a@, b@) && if a@.len()
                != b@.len() {
                report@ == length_report(a.len(), b.len())
            } else {
                first_difference(a@, b@, 0) is Some && exists|left: Seq<char>, right: Seq<char>|
                    report@ == #[trigger] item_report(
                        first_difference(a@, b@, 0)->Some_0 as usize,
                        left,
                        right,
                    )
            },
        },
{
    if a.len() != b.len() {
        let mut report = "a.len() != b.len(); ".to_owned();
        report.append(decimal_string(a.len()).as_str());
        report.append(" != ");
        report.append(decimal_string(b.len()).as_str());
        assert(report@ =~= length_report(a.len(), b.len()));
        Err(Error::TestCaseFailedAssertionVecsEqual(report))
    } else {
        let mut i: usize = 0;
        while i < a.len()
            invariant
                T::obeys_eq_spec(),
                a@.len() == b@.len(),
                i <= a@.len(),
                forall|k: int| 0 <= k < i ==> (#[trigger] a@[k]).eq_spec(&b@[k]),
                first_difference(a@, b@, 0) == first_difference(a@, b@, i as int),
            decreases a@.len() - i,
        {
            if !(a[i] == b[i]) {
                let left = show(&a[i]);
                let right = show(&b[i]);
                let at = decimal_string(i);
                let mut report = "a[".to_owned();
                report.append(at.as_str());
                report.append("] != b[");
                report.append(at.as_str());
                report.append("]; ");
                report.append(left.as_str());
                report.append(" != ");
                report.append(right.as_str());
                report.append(", ");
                assert(report@ =~= item_report(i, left@, right@));
                assert(!a@[i as int].eq_spec(&b@[i as int]));
                assert(first_difference(a@, b@, i as int) == Some(i as int));
                assert(first_difference(a@, b@, 0)->Some_0 as usize == i);
                return Err(Error::TestCaseFailedAssertionVecsEqual(report));
            }
            i += 1;
        }
        Ok(())
    }
}

} // verus!
