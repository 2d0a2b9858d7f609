use vstd::prelude::*;
use smallvec::SmallVec;

verus! {

/// A list of packed target entities, held in a `smallvec::SmallVec` with room for four items
/// inline.
#[verifier::external_body]
pub struct TargetList {
    inner: SmallVec<[u64; 4]>,
}

/// The packed target entities held by a target list, in order.
pub uninterp spec fn target_bits(v: TargetList) -> Seq<u64>;

/// Calls `SmallVec::new`: the list it returns holds nothing.
#[verifier::external_body]
pub fn targets_new() -> (v: TargetList)
    ensures
        target_bits(v) == Seq::<u64>::empty(),
{
    TargetList { inner: SmallVec::new() }
}

/// Calls `SmallVec::push`, which appends `x` at the end. When the list is full it grows to the
/// next power of two above its length, and panics if that many `u64` items would not fit in a
/// layout (size over `isize::MAX`); the bound on the length rules that out.
#[verifier::external_body]
pub fn targets_push(v: &mut TargetList, x: u64)
    requires
        target_bits(*old(v)).len() < usize::MAX / 32,
    ensures
        target_bits(*final(v)) == target_bits(*old(v)).push(x),
{
    v.inner.push(x)
}

/// Calls `SmallVec::len`: the number of items held.
#[verifier::external_body]
pub fn targets_len(v: &TargetList) -> (n: usize)
    ensures
        n == target_bits(*v).len(),
{
    v.inner.len()
}

/// Indexes the list (`Index` of `SmallVec`), which returns the `i`-th item; `i` is in bounds.
#[verifier::external_body]
pub fn targets_get(v: &TargetList, i: usize) -> (x: u64)
    requires
        i < target_bits(*v).len(),
    ensures
        x == target_bits(*v)[i as int],
{
    v.inner[i]
}

/// Calls `Clone::clone` of `SmallVec`, which copies the items in order.
#[verifier::external_body]
pub fn targets_clone(v: &TargetList) -> (c: TargetList)
    ensures
        target_bits(c) == target_bits(*v),
{
    TargetList { inner: v.inner.clone() }
}

/// Appends every item of `src` to `dst`, in order.
pub fn targets_append(dst: &mut TargetList, src: &TargetList)
    requires
        target_bits(*old(dst)).len() + target_bits(*src).len() < usize::MAX / 32,
    ensures
        target_bits(*final(dst)) == target_bits(*old(dst)) + target_bits(*src),
{
    let n = targets_len(src);
    let mut i: usize = 0;
    while i < n
        invariant
            n == target_bits(*src).len(),
            i <= n,
            target_bits(*old(dst)).len() + target_bits(*src).len() < usize::MAX / 32,
            target_bits(*dst) == target_bits(*old(dst)) + target_bits(*src).take(i as int),
        decreases n - i,
    {
        let x = targets_get(src, i);
        targets_push(dst, x);
        assert(target_bits(*src).take(i + 1) =~= target_bits(*src).take(i as int).push(x));
        i += 1;
    }
    assert(target_bits(*src).take(n as int) =~= target_bits(*src));
}

/// Whether `x` occurs in the list.
pub fn targets_contains(v: &TargetList, x: u64) -> (r: bool)
    ensures
        r == target_bits(*v).contains(x),
{
    let n = targets_len(v);
    let mut i: usize = 0;
    while i < n
        invariant
            n == target_bits(*v).len(),
            i <= n,
            forall|j: int| 0 <= j < i ==> target_bits(*v)[j] != x,
        decreases n - i,
    {
        if targets_get(v, i) == x {
            return true;
        }
        i += 1;
    }
    false
}

/// Whether two lists hold the same items in the same order.
pub fn targets_equal(a: &TargetList, b: &TargetList) -> (r: bool)
    ensures
        r == (target_bits(*a) == target_bits(*b)),
{
    let n = targets_len(a);
    if n != targets_len(b) {
        return false;
    }
    let mut i: usize = 0;
    while i < n
        invariant
            n == target_bits(*a).len(),
            n == target_bits(*b).len(),
            i <= n,
            forall|j: int| 0 <= j < i ==> target_bits(*a)[j] == target_bits(*b)[j],
        decreases n - i,
    {
        if targets_get(a, i) != targets_get(b, i) {
            return false;
        }
        i += 1;
    }
    assert(target_bits(*a) =~= target_bits(*b));
    true
}

} // verus!
