//! Trusted interface to `indexmap::IndexSet<u8>`, the indexed hash set the
//! engine keeps its perimeter and legal-move sets in.  An `IndexSet` holds
//! each value at most once, in insertion order, and hands values out by
//! position, which lets a uniformly random member be drawn in O(1).
//!
//! The set's contents are modelled by the uninterpreted `iset_seq`, the
//! sequence of members in the set's order; every wrapper states its effect
//! over that sequence, as the crate's source shows it.

use vstd::prelude::*;
use indexmap::IndexSet;

verus! {

#[verifier::external_type_specification]
#[verifier::external_body]
#[verifier::reject_recursive_types(T)]
#[verifier::reject_recursive_types(S)]
pub struct ExIndexSet<T, S>(IndexSet<T, S>);

/// The members of `s`, in the set's own order.
pub uninterp spec fn iset_seq(s: IndexSet<u8>) -> Seq<u8>;

/// Relies on indexmap's `IndexSet::new`: a new set is empty.
#[verifier::external_body]
pub(crate) fn iset_new() -> (r: IndexSet<u8>)
    ensures
        iset_seq(r) == Seq::<u8>::empty(),
{
    IndexSet::new()
}

/// Relies on indexmap's `IndexSet::len`: the number of members.
#[verifier::external_body]
pub(crate) fn iset_len(s: &IndexSet<u8>) -> (r: usize)
    ensures
        r == iset_seq(*s).len(),
{
    s.len()
}

/// Relies on indexmap's `IndexSet::contains`: membership.
#[verifier::external_body]
pub(crate) fn iset_contains(s: &IndexSet<u8>, v: u8) -> (r: bool)
    ensures
        r == iset_seq(*s).contains(v),
{
    s.contains(&v)
}

/// Relies on indexmap's `IndexSet::insert`: a value not yet present is
/// appended at the end of the order; a present value leaves the set and
/// its order untouched.  Returns whether the value was newly inserted.
#[verifier::external_body]
pub(crate) fn iset_insert(s: &mut IndexSet<u8>, v: u8) -> (r: bool)
    ensures
        r == !iset_seq(*old(s)).contains(v),
        iset_seq(*old(s)).contains(v) ==> iset_seq(*final(s)) == iset_seq(*old(s)),
        !iset_seq(*old(s)).contains(v) ==> iset_seq(*final(s)) == iset_seq(*old(s)).push(v),
{
    s.insert(v)
}

/// Relies on indexmap's `IndexSet::swap_remove`: the value's single
/// occurrence is removed (by swapping the last member into its place, so
/// the order of the others may change); a missing value changes nothing.
/// Returns whether the value was present.
#[verifier::external_body]
pub(crate) fn iset_remove(s: &mut IndexSet<u8>, v: u8) -> (r: bool)
    ensures
        r == iset_seq(*old(s)).contains(v),
        forall|x: u8|
            #[trigger] iset_seq(*final(s)).contains(x) <==> (iset_seq(*old(s)).contains(x) && x
                != v),
        iset_seq(*final(s)).len() == iset_seq(*old(s)).len() - (if iset_seq(*old(s)).contains(v) {
            1int
        } else {
            0int
        }),
{
    s.swap_remove(&v)
}

/// Relies on indexmap's `IndexSet::get_index`: the member at a position
/// of the set's order, or `None` past the end.
#[verifier::external_body]
pub(crate) fn iset_get_index(s: &IndexSet<u8>, i: usize) -> (r: Option<u8>)
    ensures
        match r {
            Some(x) => i < iset_seq(*s).len() && x == iset_seq(*s)[i as int],
            None => i >= iset_seq(*s).len(),
        },
{
    s.get_index(i).copied()
}

/// Relies on indexmap's `Clone` impl for `IndexSet`: the clone holds the
/// same members in the same order, fully independent of the original.
#[verifier::external_body]
pub(crate) fn iset_clone(s: &IndexSet<u8>) -> (r: IndexSet<u8>)
    ensures
        iset_seq(r) == iset_seq(*s),
{
    s.clone()
}

/// The members of an `IndexSet`, materialised into a vector in the set's
/// own order.
pub(crate) fn iset_to_vec(s: &IndexSet<u8>) -> (r: Vec<u8>)
    ensures
        r@ == iset_seq(*s),
{
    let n = iset_len(s);
    let mut r: Vec<u8> = Vec::new();
    let mut i: usize = 0;
    while i < n
        invariant
            n == iset_seq(*s).len(),
            i <= n,
            r@ == iset_seq(*s).take(i as int),
        decreases n - i,
    {
        match iset_get_index(s, i) {
            Some(x) => {
                r.push(x);
                proof {
                    assert(r@ =~= iset_seq(*s).take(i + 1));
                }
            },
            None => {
                proof {
                    assert(false);
                }
            },
        }
        i = i + 1;
    }
    proof {
        assert(r@ =~= iset_seq(*s));
    }
    r
}

} // verus!
