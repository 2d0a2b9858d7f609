use vstd::prelude::*;

verus! {

/// Something that can be ordered by labels: it carries labels, and asks to run before or after
/// whatever carries given labels.
pub trait GraphNode {
    spec fn spec_labels(&self) -> Seq<u64>;

    spec fn spec_before(&self) -> Seq<u64>;

    spec fn spec_after(&self) -> Seq<u64>;

    fn labels(&self) -> (r: &[u64])
        ensures
            r@ == self.spec_labels(),
    ;

    fn before(&self) -> (r: &[u64])
        ensures
            r@ == self.spec_before(),
    ;

    fn after(&self) -> (r: &[u64])
        ensures
            r@ == self.spec_after(),
    ;
}

/// Whether two label lists have a label in common.
pub open spec fn shares(a: Seq<u64>, b: Seq<u64>) -> bool {
    exists|x: u64| #[trigger] a.contains(x) && b.contains(x)
}

/// Whether node `i` must run after node `j`: `i` asks to run after one of `j`'s labels, or `j`
/// asks to run before one of `i`'s labels.
pub open spec fn depends_on<N: GraphNode>(nodes: Seq<N>, i: int, j: int) -> bool {
    shares(nodes[i].spec_after(), nodes[j].spec_labels()) || shares(nodes[j].spec_before(), nodes[i].spec_labels())
}

/// Whether `order` lists every node exactly once, and no node comes before (or is) a node it
/// must run after.
pub open spec fn is_topological<N: GraphNode>(nodes: Seq<N>, order: Seq<usize>) -> bool {
    &&& order.len() == nodes.len()
    &&& forall|k: int| 0 <= k < order.len() ==> (#[trigger] order[k]) < nodes.len()
    &&& forall|a: int, b: int| 0 <= a < order.len() && 0 <= b < order.len() && a != b ==> order[a] != order[b]
    &&& forall|i: int| 0 <= i < nodes.len() ==> #[trigger] order.contains(i as usize)
    &&& forall|a: int, b: int| 0 <= a <= b < order.len() ==> !depends_on(nodes, #[trigger] order[a] as int, #[trigger] order[b] as int)
}

/// No node comes before (or is) a node it must run after.
pub open spec fn respects_order<N: GraphNode>(nodes: Seq<N>) -> bool {
    forall|a: int, b: int| 0 <= a <= b < nodes.len() ==> !#[trigger] depends_on(nodes, a, b)
}

/// Filtering a sequence that ends in `x` filters the rest, then keeps `x` if it passes.
pub proof fn lemma_filter_push<A>(s: Seq<A>, pred: spec_fn(A) -> bool, x: A)
    ensures
        s.push(x).filter(pred) == if pred(x) { s.filter(pred).push(x) } else { s.filter(pred) },
{
    reveal(Seq::filter);
    assert(s.push(x).drop_last() =~= s);
}

/// Every item a filter keeps is an item of the sequence.
proof fn lemma_filter_from<A>(s: Seq<A>, pred: spec_fn(A) -> bool)
    ensures
        forall|i: int| 0 <= i < s.filter(pred).len() ==> exists|k: int| 0 <= k < s.len() && s[k] == #[trigger] s.filter(pred)[i],
    decreases s.len(),
{
    if s.len() > 0 {
        let p = s.drop_last();
        let x = s.last();
        assert(s =~= p.push(x));
        lemma_filter_from(p, pred);
        lemma_filter_push(p, pred, x);
        assert forall|i: int| 0 <= i < s.filter(pred).len() implies exists|k: int| 0 <= k < s.len() && s[k] == #[trigger] s.filter(pred)[i] by {
            if i < p.filter(pred).len() {
                assert(s.filter(pred)[i] == p.filter(pred)[i]);
                let k = choose|k: int| 0 <= k < p.len() && p[k] == #[trigger] p.filter(pred)[i];
                assert(s[k] == p[k]);
            } else {
                assert(s.filter(pred)[i] == x);
                assert(s[s.len() - 1] == x);
            }
        }
    } else {
        reveal(Seq::filter);
    }
}

/// Keeping only some nodes of a sequence that respects their order keeps it respected.
pub proof fn law_kept_nodes_keep_order<N: GraphNode>(nodes: Seq<N>, keep: spec_fn(N) -> bool)
    requires
        respects_order(nodes),
    ensures
        respects_order(nodes.filter(keep)),
    decreases nodes.len(),
{
    if nodes.len() == 0 {
        reveal(Seq::filter);
        return;
    }
    let p = nodes.drop_last();
    let x = nodes.last();
    let n = nodes.len() - 1;
    assert(nodes =~= p.push(x));
    assert forall|a: int, b: int| 0 <= a <= b < p.len() implies !#[trigger] depends_on(p, a, b) by {
        assert(p[a] == nodes[a] && p[b] == nodes[b]);
        assert(!depends_on(nodes, a, b));
    }
    law_kept_nodes_keep_order(p, keep);
    lemma_filter_push(p, keep, x);
    if keep(x) {
        let f = p.filter(keep);
        let f2 = f.push(x);
        lemma_filter_from(p, keep);
        assert forall|a: int, b: int| 0 <= a <= b < f2.len() implies !#[trigger] depends_on(f2, a, b) by {
            if b < f.len() {
                assert(f2[a] == f[a] && f2[b] == f[b]);
                assert(!depends_on(f, a, b));
            } else if a < f.len() {
                let k = choose|k: int| 0 <= k < p.len() && p[k] == #[trigger] f[a];
                assert(f2[a] == nodes[k] && f2[b] == nodes[n]);
                assert(!depends_on(nodes, k, n));
            } else {
                assert(f2[a] == nodes[n] && f2[b] == nodes[n]);
                assert(!depends_on(nodes, n, n));
            }
        }
    }
}

/// The labels could not be ordered: some nodes wait on each other in a cycle.
#[derive(Debug, Clone, Copy, PartialEq, Eq, Structural)]
pub struct DependencyCycle;

fn slices_share(a: &[u64], b: &[u64]) -> (r: bool)
    ensures
        r == shares(a@, b@),
{
    let mut i: usize = 0;
    while i < a.len()
        invariant
            i <= a@.len(),
            forall|k: int| 0 <= k < i ==> !b@.contains(#[trigger] a@[k]),
        decreases a@.len() - i,
    {
        let x = a[i];
        let mut j: usize = 0;
        while j < b.len()
            invariant
                i < a@.len(),
                x == a@[i as int],
                j <= b@.len(),
                forall|k: int| 0 <= k < j ==> b@[k] != x,
            decreases b@.len() - j,
        {
            if b[j] == x {
                assert(a@[i as int] == x && b@[j as int] == x);
                assert(a@.contains(x) && b@.contains(x));
                return true;
            }
            j += 1;
        }
        i += 1;
    }
    proof {
        if shares(a@, b@) {
            let x = choose|x: u64| #[trigger] a@.contains(x) && b@.contains(x);
            let k = choose|k: int| 0 <= k < a@.len() && a@[k] == x;
            assert(!b@.contains(a@[k]));
        }
    }
    false
}

/// Whether node `i` must run after node `j`.
pub fn depends<N: GraphNode>(nodes: &Vec<N>, i: usize, j: usize) -> (r: bool)
    requires
        i < nodes@.len(),
        j < nodes@.len(),
    ensures
        r == depends_on(nodes@, i as int, j as int),
{
    slices_share(nodes[i].after(), nodes[j].labels()) || slices_share(nodes[j].before(), nodes[i].labels())
}

/// Whether every node that `i` must run after is already placed.
fn ready<N: GraphNode>(nodes: &Vec<N>, placed: &Vec<bool>, i: usize) -> (r: bool)
    requires
        i < nodes@.len(),
        placed@.len() == nodes@.len(),
    ensures
        r == forall|j: int| 0 <= j < nodes@.len() && #[trigger] depends_on(nodes@, i as int, j) ==> placed@[j],
{
    let mut j: usize = 0;
    while j < nodes.len()
        invariant
            i < nodes@.len(),
            placed@.len() == nodes@.len(),
            j <= nodes@.len(),
            forall|k: int| 0 <= k < j && #[trigger] depends_on(nodes@, i as int, k) ==> placed@[k],
        decreases nodes@.len() - j,
    {
        if !placed[j] && depends(nodes, i, j) {
            return false;
        }
        j += 1;
    }
    true
}

/// The first position of `order` whose node is not placed, given that some node is not placed.
proof fn first_unplaced(order: Seq<usize>, placed: Seq<bool>, i0: usize) -> (k: int)
    requires
        forall|q: int| 0 <= q < order.len() ==> (#[trigger] order[q]) < placed.len(),
        i0 < placed.len(),
        !placed[i0 as int],
        order.contains(i0),
    ensures
        0 <= k < order.len(),
        !placed[order[k] as int],
        forall|q: int| 0 <= q < k ==> placed[(#[trigger] order[q]) as int],
    decreases order.len(),
{
    if !placed[order[0] as int] {
        0
    } else {
        let rest = order.drop_first();
        let w = choose|w: int| 0 <= w < order.len() && order[w] == i0;
        assert(w != 0);
        assert(rest[w - 1] == i0);
        assert forall|q: int| 0 <= q < rest.len() implies (#[trigger] rest[q]) < placed.len() by {
            assert(rest[q] == order[q + 1]);
        }
        let k = first_unplaced(rest, placed, i0);
        assert forall|q: int| 0 <= q < k + 1 implies placed[(#[trigger] order[q]) as int] by {
            if q > 0 {
                assert(order[q] == rest[q - 1]);
            }
        }
        k + 1
    }
}

/// When every unplaced node waits on another unplaced node, no topological order exists.
proof fn lemma_stuck_means_cycle<N: GraphNode>(nodes: Seq<N>, placed: Seq<bool>, i0: usize)
    requires
        nodes.len() <= usize::MAX,
        placed.len() == nodes.len(),
        i0 < nodes.len(),
        !placed[i0 as int],
        forall|i: int|
            0 <= i < nodes.len() && !placed[i] ==> exists|j: int|
                0 <= j < nodes.len() && #[trigger] depends_on(nodes, i, j) && !placed[j],
    ensures
        forall|order: Seq<usize>| !is_topological(nodes, order),
{
    assert forall|order: Seq<usize>| !is_topological(nodes, order) by {
        if is_topological(nodes, order) {
            assert(order.contains((i0 as int) as usize));
            let k = first_unplaced(order, placed, i0);
            let i = order[k] as int;
            let j = choose|j: int| 0 <= j < nodes.len() && #[trigger] depends_on(nodes, i, j) && !placed[j];
            assert(order.contains(j as usize));
            let kj = choose|kj: int| 0 <= kj < order.len() && order[kj] == j as usize;
            assert(order[kj] as int == j);
            if kj < k {
                assert(placed[order[kj] as int]);
            }
            assert(k <= kj);
            assert(!depends_on(nodes, order[k] as int, order[kj] as int));
        }
    }
}

/// A topological order of the nodes; an error exactly when there is none, that is when the
/// dependencies form a cycle.
pub fn topological_order<N: GraphNode>(nodes: &Vec<N>) -> (r: Result<Vec<usize>, DependencyCycle>)
    ensures
        match r {
            Ok(order) => is_topological(nodes@, order@),
            Err(_) => forall|order: Seq<usize>| !is_topological(nodes@, order),
        },
{
    let n = nodes.len();
    let mut placed: Vec<bool> = Vec::new();
    let mut p: usize = 0;
    while p < n
        invariant
            n == nodes@.len(),
            p <= n,
            placed@.len() == p,
            forall|q: int| 0 <= q < p ==> !placed@[q],
        decreases n - p,
    {
        placed.push(false);
        p += 1;
    }
    let mut order: Vec<usize> = Vec::new();
    while order.len() < n
        invariant
            n == nodes@.len(),
            placed@.len() == n,
            order@.len() <= n,
            forall|k: int| 0 <= k < order@.len() ==> (#[trigger] order@[k]) < n,
            forall|a: int, b: int| 0 <= a < order@.len() && 0 <= b < order@.len() && a != b ==> order@[a] != order@[b],
            forall|i: int| 0 <= i < n ==> (placed@[i] <==> #[trigger] order@.contains(i as usize)),
            forall|a: int, b: int| 0 <= a <= b < order@.len() ==> !depends_on(nodes@, #[trigger] order@[a] as int, #[trigger] order@[b] as int),
            forall|b: int, j: int| 0 <= b < order@.len() && 0 <= j < n && depends_on(nodes@, #[trigger] order@[b] as int, j) ==> #[trigger] placed@[j],
        decreases n - order@.len(),
    {
        let mut found: Option<usize> = None;
        let mut i: usize = 0;
        while i < n
            invariant_except_break
                found is None,
            invariant
                n == nodes@.len(),
                placed@.len() == n,
                i <= n,
                forall|q: int| 0 <= q < i && !placed@[q] ==> exists|j: int|
                    0 <= j < n && #[trigger] depends_on(nodes@, q, j) && !placed@[j],
            ensures
                found is None ==> forall|q: int| 0 <= q < n && !placed@[q] ==> exists|j: int|
                    0 <= j < n && #[trigger] depends_on(nodes@, q, j) && !placed@[j],
                found matches Some(f) ==> f < n && !placed@[f as int] && forall|j: int| 0 <= j < n && #[trigger] depends_on(nodes@, f as int, j) ==> placed@[j],
            decreases n - i,
        {
            if !placed[i] && ready(nodes, &placed, i) {
                found = Some(i);
                break;
            }
            i += 1;
        }
        match found {
            None => {
                proof {
                    // some node is unplaced, since fewer than n are placed
                    lemma_all_listed_means_full(order@, n as nat);
                    let w = choose|w: int| 0 <= w < n && !(#[trigger] order@.contains(w as usize));
                    assert(!placed@[w]);
                    let unplaced = w;
                    lemma_stuck_means_cycle(nodes@, placed@, unplaced as usize);
                }
                return Err(DependencyCycle);
            },
            Some(i) => {
                let ghost before = order@;
                proof {
                    assert(!before.contains((i as int) as usize));
                }
                order.push(i);
                placed.set(i, true);
                proof {
                    assert forall|q: int| 0 <= q < n implies (placed@[q] <==> #[trigger] order@.contains(q as usize)) by {
                        vstd::seq_lib::lemma_seq_contains_after_push(before, i, q as usize);
                    }
                    assert forall|a: int, b: int| 0 <= a <= b < order@.len() implies !depends_on(nodes@, #[trigger] order@[a] as int, #[trigger] order@[b] as int) by {
                        if b == order@.len() - 1 {
                            if a < b {
                                // order[a] was placed before i, so it cannot wait on i
                                assert(depends_on(nodes@, order@[a] as int, i as int) ==> placed@[i as int] && before.contains(i));
                            } else {
                                // i is ready, so it does not wait on itself (i was unplaced)
                            }
                        }
                    }
                }
            },
        }
    }
    proof {
        assert forall|q: int| 0 <= q < n implies #[trigger] order@.contains(q as usize) by {
            if !placed@[q] {
                lemma_all_listed_means_full(order@, n as nat);
            }
        }
    }
    Ok(order)
}

/// A list of `n` distinct indices below `n` contains every index below `n`.
proof fn lemma_all_listed_means_full(order: Seq<usize>, n: nat)
    requires
        n <= usize::MAX,
        order.len() <= n,
        forall|k: int| 0 <= k < order.len() ==> (#[trigger] order[k]) < n,
        forall|a: int, b: int| 0 <= a < order.len() && 0 <= b < order.len() && a != b ==> order[a] != order[b],
    ensures
        order.len() == n ==> forall|i: int| 0 <= i < n ==> #[trigger] order.contains(i as usize),
        order.len() < n ==> exists|i: int| 0 <= i < n && !(#[trigger] order.contains(i as usize)),
{
    let oi = order.map_values(|x: usize| x as int);
    assert(oi.no_duplicates()) by {
        assert forall|a: int, b: int| 0 <= a < oi.len() && 0 <= b < oi.len() && a != b implies oi[a] != oi[b] by {
            assert(order[a] != order[b]);
        }
    }
    oi.unique_seq_to_set();
    let s = oi.to_set();
    let full = vstd::set_lib::set_int_range(0, n as int);
    vstd::set_lib::lemma_int_range(0, n as int);
    assert(s.subset_of(full)) by {
        assert forall|x: int| s.contains(x) implies full.contains(x) by {
            let k = choose|k: int| 0 <= k < oi.len() && oi[k] == x;
            assert(order[k] < n);
        }
    }
    vstd::set_lib::lemma_len_subset(s, full);
    assert forall|i: int| 0 <= i < n && s.contains(i) implies #[trigger] order.contains(i as usize) by {
        let k = choose|k: int| 0 <= k < oi.len() && oi[k] == i;
        assert(order[k] == i as usize);
    }
    assert forall|i: int| 0 <= i < n && #[trigger] order.contains(i as usize) implies s.contains(i) by {
        let k = choose|k: int| 0 <= k < order.len() && order[k] == i as usize;
        assert(oi[k] == i);
    }
    if order.len() == n {
        vstd::set_lib::lemma_subset_equality(s, full);
        assert forall|i: int| 0 <= i < n implies #[trigger] order.contains(i as usize) by {
            assert(full.contains(i));
        }
    } else {
        if forall|i: int| 0 <= i < n ==> #[trigger] order.contains(i as usize) {
            assert(full.subset_of(s)) by {
                assert forall|i: int| full.contains(i) implies s.contains(i) by {
                    assert(order.contains(i as usize));
                }
            }
            vstd::set_lib::lemma_len_subset(full, s);
        }
    }
}

} // verus!
