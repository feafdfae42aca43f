//! The `bit_set::BitSet` collection as the library sees it: a finite set of
//! indices.  Every operation the library performs on a bit set goes through one
//! of the trusted wrappers below, whose contracts are stated over
//! [`members`], the set of indices a bit set holds.
use vstd::prelude::*;
use bit_set::BitSet;

verus! {

#[verifier::external_type_specification]
#[verifier::external_body]
#[verifier::reject_recursive_types(B)]
pub struct ExBitSet<B>(bit_set::BitSet<B>);

/// The indices held by a bit set.
pub uninterp spec fn members(s: BitSet) -> Set<usize>;

/// The indices `0..n`.
pub open spec fn below(n: nat) -> Set<usize> {
    Set::new(|i: usize| i < n)
}

/// The pairs of sets that a list of bit-set pairs holds.
pub open spec fn pair_sets(v: Seq<(BitSet, BitSet)>) -> Seq<(Set<usize>, Set<usize>)> {
    v.map_values(|p: (BitSet, BitSet)| (members(p.0), members(p.1)))
}

/// The sets that a list of bit sets holds.
pub open spec fn set_list(v: Seq<BitSet>) -> Seq<Set<usize>> {
    v.map_values(|b: BitSet| members(b))
}

/// Every set of `usize` is finite.
pub proof fn lemma_usize_set_finite(s: Set<usize>)
    ensures
        s.finite(),
{
    broadcast use vstd::set_lib::full_set_properties;

    assert(Set::<usize>::full().finite());
    vstd::set_lib::lemma_set_subset_finite(Set::<usize>::full(), s);
}

/// `below(n)` holds exactly `n` indices.
pub proof fn lemma_below_len(n: usize)
    ensures
        below(n as nat).finite(),
        below(n as nat).len() == n,
{
    broadcast use vstd::set_lib::range_set_properties;

    assert(below(n as nat) =~= Set::<usize>::range(0, n));
}

/// `BitSet::new`: a bit set that holds nothing.
#[verifier::external_body]
pub fn bs_new() -> (r: BitSet)
    ensures
        members(r) == Set::<usize>::empty(),
{
    BitSet::new()
}

/// `BitSet::clone`: a bit set with the same members.
#[verifier::external_body]
pub fn bs_clone(s: &BitSet) -> (r: BitSet)
    ensures
        members(r) == members(*s),
{
    s.clone()
}

/// `BitSet::insert`: adds `v`; answers whether `v` was absent before.
/// (The bit vector grows to `v + 1` bits, so `v` must be below `usize::MAX`.)
#[verifier::external_body]
pub fn bs_insert(s: &mut BitSet, v: usize) -> (r: bool)
    requires
        v < usize::MAX,
    ensures
        members(*final(s)) == members(*old(s)).insert(v),
        r == !members(*old(s)).contains(v),
{
    s.insert(v)
}

/// `BitSet::remove`: takes `v` out; answers whether `v` was present.
#[verifier::external_body]
pub fn bs_remove(s: &mut BitSet, v: usize) -> (r: bool)
    ensures
        members(*final(s)) == members(*old(s)).remove(v),
        r == members(*old(s)).contains(v),
{
    s.remove(v)
}

/// `BitSet::contains`: whether `v` is held.
#[verifier::external_body]
pub fn bs_contains(s: &BitSet, v: usize) -> (r: bool)
    ensures
        r == members(*s).contains(v),
{
    s.contains(v)
}

/// `BitSet::len`: how many indices are held.
#[verifier::external_body]
pub fn bs_len(s: &BitSet) -> (r: usize)
    ensures
        r == members(*s).len(),
{
    s.len()
}

/// `BitSet::intersect_with`: keeps only the indices that `other` holds too.
#[verifier::external_body]
pub fn bs_intersect_with(s: &mut BitSet, other: &BitSet)
    ensures
        members(*final(s)) == members(*old(s)).intersect(members(*other)),
{
    s.intersect_with(other)
}

/// `BitSet::union_with`: adds every index that `other` holds.
#[verifier::external_body]
pub fn bs_union_with(s: &mut BitSet, other: &BitSet)
    ensures
        members(*final(s)) == members(*old(s)).union(members(*other)),
{
    s.union_with(other)
}

/// `BitSet::is_subset`: whether every index of `s` is held by `other`.
#[verifier::external_body]
pub fn bs_is_subset(s: &BitSet, other: &BitSet) -> (r: bool)
    ensures
        r == members(*s).subset_of(members(*other)),
{
    s.is_subset(other)
}

/// `BitSet`'s `==`, which compares the two sequences of members.
#[verifier::external_body]
pub fn bs_eq(s: &BitSet, other: &BitSet) -> (r: bool)
    ensures
        r == (members(*s) == members(*other)),
{
    s == other
}

/// `BitSet::iter`, collected: the members in increasing order.
#[verifier::external_body]
pub fn bs_iter(s: &BitSet) -> (r: Vec<usize>)
    ensures
        r@.to_set() == members(*s),
        forall|i: int, j: int| 0 <= i < j < r@.len() ==> r@[i] < r@[j],
{
    s.iter().collect()
}

/// The bit set holding exactly `0..n`.
pub fn bs_below(n: usize) -> (r: BitSet)
    requires
        n < usize::MAX,
    ensures
        members(r) == below(n as nat),
{
    let mut r = bs_new();
    let mut i: usize = 0;
    while i < n
        invariant
            i <= n < usize::MAX,
            members(r) == below(i as nat),
        decreases n - i,
    {
        bs_insert(&mut r, i);
        i = i + 1;
        assert(members(r) =~= below(i as nat));
    }
    r
}

/// The bit set holding the members of `s` that lie below `n`.
pub fn bs_restrict(s: &BitSet, n: usize) -> (r: BitSet)
    requires
        n < usize::MAX,
    ensures
        members(r) == members(*s).intersect(below(n as nat)),
{
    let mut r = bs_below(n);
    bs_intersect_with(&mut r, s);
    assert(members(r) =~= members(*s).intersect(below(n as nat)));
    r
}

} // verus!
