use itertools::Itertools;
use vstd::prelude::*;

verus! {

/// Relies on `Itertools::tuple_windows`: each item paired with the next, in order.
#[verifier::external_body]
pub(crate) fn pairs<T: Copy>(v: &[T]) -> (r: Vec<(T, T)>)
    ensures
        v@.len() == 0 ==> r@.len() == 0,
        v@.len() > 0 ==> r@.len() == v@.len() - 1,
        forall|i: int| 0 <= i < r@.len() ==> #[trigger] r@[i] == (v@[i], v@[i + 1]),
{
    v.iter().copied().tuple_windows::<(T, T)>().collect()
}

/// Relies on `Itertools::sorted`: the same items in ascending order.
#[verifier::external_body]
pub(crate) fn sorted_u64(v: &[u64]) -> (r: Vec<u64>)
    ensures
        r@.to_multiset() == v@.to_multiset(),
        r@.len() == v@.len(),
        forall|i: int, j: int| 0 <= i <= j < r@.len() ==> r@[i] <= r@[j],
{
    v.iter().copied().sorted().collect()
}

/// Relies on `Itertools::minmax`: with two or more items, the least and the
/// greatest of them; with fewer, no pair.
#[verifier::external_body]
pub(crate) fn min_max(v: &[i64]) -> (r: Option<(i64, i64)>)
    ensures
        r is Some <==> v@.len() >= 2,
        r matches Some((lo, hi)) ==> v@.contains(lo) && v@.contains(hi) && forall|i: int|
            0 <= i < v@.len() ==> lo <= #[trigger] v@[i] <= hi,
{
    match v.iter().copied().minmax() {
        itertools::MinMaxResult::NoElements => None,
        itertools::MinMaxResult::OneElement(_) => None,
        itertools::MinMaxResult::MinMax(lo, hi) => Some((lo, hi)),
    }
}

/// Relies on `Itertools::cartesian_product`: every pair of an `a` in
/// `a_lo..=a_hi` and a `b` in `b_lo..b_hi`, the `b` running fastest.
#[verifier::external_body]
pub(crate) fn pairs_of_ranges(a_lo: i32, a_hi: i32, b_lo: i32, b_hi: i32) -> (r: Vec<(i32, i32)>)
    requires
        a_lo <= a_hi,
        b_lo < b_hi,
    ensures
        r@.len() == (a_hi - a_lo + 1) * (b_hi - b_lo),
        forall|k: int|
            0 <= k < r@.len() ==> #[trigger] r@[k] == ((a_lo + k / (b_hi - b_lo)) as i32, (b_lo + k
                % (b_hi - b_lo)) as i32),
{
    (a_lo..=a_hi).cartesian_product(b_lo..b_hi).collect()
}

/// Relies on `Itertools::contains`: whether some character of `s` equals `c`.
#[verifier::external_body]
pub(crate) fn has_char(s: &str, c: char) -> (r: bool)
    ensures
        r == s@.contains(c),
{
    s.chars().contains(&c)
}

/// Whether a character is lowercase, as Unicode defines it.
pub uninterp spec fn lowercase_char(c: char) -> bool;

/// Relies on `char::is_lowercase`: a property of the character alone.
#[verifier::external_body]
pub(crate) fn is_lowercase(c: char) -> (r: bool)
    ensures
        r == lowercase_char(c),
{
    c.is_lowercase()
}

/// The texts that the regular expression `(-?\d+)` finds in `s`, left to
/// right, without overlaps: runs of decimal digits, each with the minus sign
/// before it, if any.
pub uninterp spec fn number_matches(s: Seq<char>) -> Seq<Seq<char>>;

/// Relies on `regex::Regex::new`, which accepts this fixed pattern, and on
/// `Regex::find_iter`: the text of each match, in order.
#[verifier::external_body]
pub(crate) fn find_numbers(s: &str) -> (r: Vec<String>)
    ensures
        r@.len() == number_matches(s@).len(),
        forall|i: int| 0 <= i < r@.len() ==> (#[trigger] r@[i])@ == number_matches(s@)[i],
{
    let re = regex::Regex::new(r"(-?\d+)").unwrap();
    re.find_iter(s).map(|m| m.as_str().to_owned()).collect()
}

} // verus!
