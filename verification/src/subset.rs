//! The containment checker: is every address covered by A covered by B?
//!
//! `covered` says what it means for a collection of ranges to cover an
//! address; `is_contained` is containment of one collection in another. The
//! checker walks A in order and reports the first uncovered address it meets:
//! the first A-range, in file order, holding an uncovered address, and the
//! smallest uncovered address within that range. B is never expanded; an
//! A-range is not expanded address by address either, the checker instead
//! leaps past every B-range it finds itself inside, which decides the same
//! verdict with the same diagnostic.

use vstd::prelude::*;
use vstd::string::StringExecFns;

use crate::codec::integer_to_ipv4_address;
use crate::codec::quad_str;
use crate::range::in_range;
use crate::range::IPRange;

verus! {

/// Some range of `rs` covers `x`.
pub open spec fn covered(rs: Seq<IPRange>, x: u32) -> bool {
    exists|i: int| 0 <= i < rs.len() && in_range(rs[i], x)
}

/// Containment: every address covered by `a` is covered by `b`.
pub open spec fn is_contained(a: Seq<IPRange>, b: Seq<IPRange>) -> bool {
    forall|x: u32| covered(a, x) ==> covered(b, x)
}

/// The verdict of the containment check. On failure it carries the position
/// of the offending A-range and the unmatched address, for diagnostics.
#[derive(Clone, Copy, Debug, PartialEq, Eq, Structural)]
pub enum SubsetVerdict {
    /// Every address covered by A is covered by B.
    Contained,
    /// The address `address`, lying in the A-range at position `index`, is
    /// covered by no range of B; it is the first such address in scan order.
    Unmatched { index: usize, address: u32 },
}

/// The end bound of some range of `b` that covers `x`, or nothing when no
/// range of `b` does.
fn covering_end(x: u32, b: &Vec<IPRange>) -> (r: Option<u32>)
    ensures
        match r {
            Some(cend) => exists|i: int|
                0 <= i < b@.len() && in_range(b@[i], x) && b@[i].end == cend,
            None => !covered(b@, x),
        },
{
    let mut j: usize = 0;
    while j < b.len()
        invariant
            j <= b@.len(),
            forall|k: int| 0 <= k < j ==> !in_range(b@[k], x),
        decreases b@.len() - j,
    {
        let rng = b[j];
        if rng.start <= x && x <= rng.end {
            proof {
                assert(in_range(b@[j as int], x));
            }
            return Some(rng.end);
        }
        j = j + 1;
    }
    None
}

/// The smallest address in `[lo, hi]` that no range of `b` covers, or nothing
/// when `b` covers the whole interval.
fn first_uncovered(lo: u32, hi: u32, b: &Vec<IPRange>) -> (r: Option<u32>)
    requires
        lo <= hi,
    ensures
        match r {
            Some(x) => lo <= x <= hi && !covered(b@, x) && forall|y: u32|
                lo <= y < x ==> covered(b@, y),
            None => forall|y: u32| lo <= y <= hi ==> covered(b@, y),
        },
{
    let mut x: u32 = lo;
    loop
        invariant
            lo <= x <= hi,
            forall|y: u32| lo <= y < x ==> covered(b@, y),
        decreases hi - x,
    {
        match covering_end(x, b) {
            None => {
                return Some(x);
            },
            Some(cend) => {
                proof {
                    let i = choose|i: int|
                        0 <= i < b@.len() && in_range(b@[i], x) && b@[i].end == cend;
                    assert forall|y: u32| x <= y <= cend implies covered(b@, y) by {
                        assert(in_range(b@[i], y));
                    }
                }
                if cend >= hi {
                    return None;
                }
                x = cend + 1;
            },
        }
    }
}

/// Decides whether every address covered by `a` is covered by `b`.
///
/// A positive verdict means exactly containment. A negative verdict carries
/// the first failure in scan order: every A-range before position `index`
/// is fully covered by `b`, and within the range at `index` every address
/// below `address` is covered while `address` itself is not. A range with
/// `start > end` covers no address and cannot fail.
pub fn is_subset(a: &Vec<IPRange>, b: &Vec<IPRange>) -> (r: SubsetVerdict)
    ensures
        (r is Contained) == is_contained(a@, b@),
        r matches SubsetVerdict::Unmatched { index, address } ==> {
            &&& index < a@.len()
            &&& in_range(a@[index as int], address)
            &&& !covered(b@, address)
            &&& forall|y: u32| a@[index as int].start <= y < address ==> covered(b@, y)
            &&& forall|j: int, y: u32| 0 <= j < index && in_range(a@[j], y) ==> covered(b@, y)
        },
{
    let mut k: usize = 0;
    while k < a.len()
        invariant
            k <= a@.len(),
            forall|j: int, y: u32| 0 <= j < k && in_range(a@[j], y) ==> covered(b@, y),
        decreases a@.len() - k,
    {
        let rng = a[k];
        if rng.start <= rng.end {
            match first_uncovered(rng.start, rng.end, b) {
                Some(x) => {
                    proof {
                        assert(in_range(a@[k as int], x));
                        assert(covered(a@, x));
                        assert(!is_contained(a@, b@));
                    }
                    return SubsetVerdict::Unmatched { index: k, address: x };
                },
                None => {
                    proof {
                        assert forall|j: int, y: u32|
                            0 <= j < k + 1 && in_range(a@[j], y) implies covered(b@, y) by {
                            if j == k {
                                assert(rng.start <= y <= rng.end);
                            }
                        }
                    }
                },
            }
        } else {
            proof {
                assert forall|j: int, y: u32|
                    0 <= j < k + 1 && in_range(a@[j], y) implies covered(b@, y) by {}
            }
        }
        k = k + 1;
    }
    proof {
        assert forall|x: u32| covered(a@, x) implies covered(b@, x) by {
            let i = choose|i: int| 0 <= i < a@.len() && in_range(a@[i], x);
            assert(in_range(a@[i], x));
        }
    }
    SubsetVerdict::Contained
}

/// Checks whether all of the addresses covered by one collection of ranges
/// are covered by another: the bare boolean verdict of `is_subset`.
pub fn a_in_b(a: &Vec<IPRange>, b: &Vec<IPRange>) -> (r: bool)
    ensures
        r == is_contained(a@, b@),
{
    match is_subset(a, b) {
        SubsetVerdict::Contained => true,
        SubsetVerdict::Unmatched { .. } => false,
    }
}

/// The diagnostic line content for an unmatched address: the address and the
/// bounds of the A-range it came from, all in dotted-quad form.
pub open spec fn unmatched_message_spec(address: u32, range: IPRange) -> Seq<char> {
    "Unmatched address "@ + quad_str(address as nat) + " from A entry "@ + quad_str(
        range.start as nat,
    ) + "-"@ + quad_str(range.end as nat)
}

/// Renders the diagnostic for an unmatched address and its source A-range.
pub fn unmatched_message(address: u32, range: IPRange) -> (r: String)
    ensures
        r@ == unmatched_message_spec(address, range),
{
    let mut out: String = "Unmatched address ".to_owned();
    let addr_text = integer_to_ipv4_address(address);
    out.append(addr_text.as_str());
    out.append(" from A entry ");
    let start_text = integer_to_ipv4_address(range.start);
    out.append(start_text.as_str());
    out.append("-");
    let end_text = integer_to_ipv4_address(range.end);
    out.append(end_text.as_str());
    out
}

/// A collection with a range spanning the whole address space covers
/// everything: with such a range among B's, any A is contained in B.
pub proof fn lemma_full_range_contains_all(a: Seq<IPRange>, b: Seq<IPRange>)
    requires
        b.contains(IPRange { start: 0, end: 0xffffffff }),
    ensures
        is_contained(a, b),
{
    let full = IPRange { start: 0, end: 0xffffffff };
    let i = choose|i: int| 0 <= i < b.len() && b[i] == full;
    assert forall|x: u32| covered(a, x) implies covered(b, x) by {
        assert(in_range(b[i], x));
    }
}

/// Which addresses a collection covers depends only on which ranges are in
/// it, not on their order or position.
pub proof fn lemma_covered_permutation(r1: Seq<IPRange>, r2: Seq<IPRange>, x: u32)
    requires
        r1.to_multiset() == r2.to_multiset(),
    ensures
        covered(r1, x) == covered(r2, x),
{
    r1.to_multiset_ensures();
    r2.to_multiset_ensures();
    if covered(r1, x) {
        let i = choose|i: int| 0 <= i < r1.len() && in_range(r1[i], x);
        assert(r1.contains(r1[i]));
        assert(r1.to_multiset().count(r1[i]) > 0);
        assert(r2.to_multiset().count(r1[i]) > 0);
        assert(r2.contains(r1[i]));
        let j = choose|j: int| 0 <= j < r2.len() && r2[j] == r1[i];
        assert(in_range(r2[j], x));
    }
    if covered(r2, x) {
        let i = choose|i: int| 0 <= i < r2.len() && in_range(r2[i], x);
        assert(r2.contains(r2[i]));
        assert(r2.to_multiset().count(r2[i]) > 0);
        assert(r1.to_multiset().count(r2[i]) > 0);
        assert(r1.contains(r2[i]));
        let j = choose|j: int| 0 <= j < r1.len() && r1[j] == r2[i];
        assert(in_range(r1[j], x));
    }
}

/// The boolean verdict does not depend on the order in which either
/// collection lists its ranges: rearranging A and B leaves it the same.
pub proof fn lemma_verdict_order_independent(
    a1: Seq<IPRange>,
    b1: Seq<IPRange>,
    a2: Seq<IPRange>,
    b2: Seq<IPRange>,
)
    requires
        a1.to_multiset() == a2.to_multiset(),
        b1.to_multiset() == b2.to_multiset(),
    ensures
        is_contained(a1, b1) == is_contained(a2, b2),
{
    if is_contained(a1, b1) {
        assert forall|x: u32| covered(a2, x) implies covered(b2, x) by {
            lemma_covered_permutation(a1, a2, x);
            lemma_covered_permutation(b1, b2, x);
        }
    }
    if is_contained(a2, b2) {
        assert forall|x: u32| covered(a1, x) implies covered(b1, x) by {
            lemma_covered_permutation(a1, a2, x);
            lemma_covered_permutation(b1, b2, x);
        }
    }
}

} // verus!
