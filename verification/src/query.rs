use vstd::prelude::*;
use fixedbitset::FixedBitSet;
use crate::bitset::{bitset_contains, bitset_grow, bitset_new, bitset_ones, bitset_set, bitset_wf};
use std::any::TypeId;
use crate::component::{type_id_eq, RelationKindId, StorageType};
use crate::entity::Entity;
use crate::graph::lemma_filter_push;
use crate::targets::{
    target_bits, targets_append, targets_clone, targets_contains, targets_equal, targets_get, targets_len, targets_new,
    targets_push, TargetList,
};

verus! {

/// Why a query could not produce an item for an entity.
#[derive(Debug, Clone, Copy, PartialEq, Eq, Structural)]
pub enum QueryEntityError {
    QueryDoesNotMatch,
    NoSuchEntity,
}

/// Where an entity lives: its archetype and its row in that archetype.
#[derive(Debug, Clone, Copy, PartialEq, Eq, Structural)]
pub struct EntityLocation {
    pub archetype_id: usize,
    pub index: usize,
}

/// The archetypes and tables that one relation filter of a query matches.
pub struct QueryAccessCache {
    pub archetype_generation: usize,
    pub matched_tables: FixedBitSet,
    pub matched_archetypes: FixedBitSet,
    pub matched_table_ids: Vec<usize>,
    pub matched_archetype_ids: Vec<usize>,
}

pub open spec fn no_duplicates(s: Seq<usize>) -> bool {
    forall|i: int, j: int| 0 <= i < s.len() && 0 <= j < s.len() && i != j ==> s[i] != s[j]
}

impl QueryAccessCache {
    /// The bit sets hold exactly the ids listed, and no id is listed twice.
    pub open spec fn wf(&self) -> bool {
        &&& bitset_wf(self.matched_tables)
        &&& bitset_wf(self.matched_archetypes)
        &&& bitset_ones(self.matched_tables) == self.matched_table_ids@.to_set()
        &&& bitset_ones(self.matched_archetypes) == self.matched_archetype_ids@.to_set()
        &&& no_duplicates(self.matched_table_ids@)
        &&& no_duplicates(self.matched_archetype_ids@)
    }

    /// A cache that has matched nothing yet and has never seen an archetype generation.
    pub fn new() -> (c: Self)
        ensures
            c.wf(),
            c.archetype_generation == usize::MAX,
            c.matched_table_ids@ == Seq::<usize>::empty(),
            c.matched_archetype_ids@ == Seq::<usize>::empty(),
    {
        let c = QueryAccessCache {
            archetype_generation: usize::MAX,
            matched_tables: bitset_new(),
            matched_archetypes: bitset_new(),
            matched_table_ids: Vec::new(),
            matched_archetype_ids: Vec::new(),
        };
        assert(c.matched_table_ids@.to_set() =~= Set::empty());
        assert(c.matched_archetype_ids@.to_set() =~= Set::empty());
        c
    }

    fn add_id(set: &mut FixedBitSet, ids: &mut Vec<usize>, id: usize)
        requires
            bitset_wf(*old(set)),
            bitset_ones(*old(set)) == old(ids)@.to_set(),
            no_duplicates(old(ids)@),
            id < usize::MAX,
        ensures
            bitset_wf(*final(set)),
            bitset_ones(*final(set)) == final(ids)@.to_set(),
            no_duplicates(final(ids)@),
            final(ids)@ == if old(ids)@.contains(id) {
                old(ids)@
            } else {
                old(ids)@.push(id)
            },
    {
        if !bitset_contains(set, id) {
            bitset_grow(set, id + 1);
            bitset_set(set, id, true);
            proof {
                assert(!old(ids)@.contains(id));
            }
            ids.push(id);
            proof {
                old(ids)@.lemma_push_to_set_commute(id);
                assert(ids@ == old(ids)@.push(id));
            }
        } else {
            assert(old(ids)@.to_set().contains(id));
        }
    }

    /// Records that an archetype (and its table) was looked at: when `matches`, its id and its
    /// table's id join the matched ids, each at most once, in first-seen order.
    pub fn new_archetype(&mut self, matches: bool, archetype_id: usize, table_id: usize)
        requires
            old(self).wf(),
            archetype_id < usize::MAX,
            table_id < usize::MAX,
        ensures
            final(self).wf(),
            final(self).archetype_generation == old(self).archetype_generation,
            final(self).matched_archetype_ids@ == if matches && !old(self).matched_archetype_ids@.contains(archetype_id) {
                old(self).matched_archetype_ids@.push(archetype_id)
            } else {
                old(self).matched_archetype_ids@
            },
            final(self).matched_table_ids@ == if matches && !old(self).matched_table_ids@.contains(table_id) {
                old(self).matched_table_ids@.push(table_id)
            } else {
                old(self).matched_table_ids@
            },
    {
        if matches {
            Self::add_id(&mut self.matched_archetypes, &mut self.matched_archetype_ids, archetype_id);
            Self::add_id(&mut self.matched_tables, &mut self.matched_table_ids, table_id);
        }
    }

    /// Whether the archetype with this id is matched.
    pub fn matches_archetype_id(&self, archetype_id: usize) -> (r: bool)
        requires
            self.wf(),
        ensures
            r == self.matched_archetype_ids@.contains(archetype_id),
    {
        bitset_contains(&self.matched_archetypes, archetype_id)
    }

    /// Checks an entity before an item is fetched for it: it must exist, its archetype must be
    /// matched, and the query's filter must accept its row (`row_accepted`, the filter's answer
    /// for that row).
    pub fn check_entity(&self, location: Option<EntityLocation>, row_accepted: bool) -> (r: Result<EntityLocation, QueryEntityError>)
        requires
            self.wf(),
        ensures
            match location {
                None => r == Err::<EntityLocation, QueryEntityError>(QueryEntityError::NoSuchEntity),
                Some(l) => if self.matched_archetype_ids@.contains(l.archetype_id) && row_accepted {
                    r == Ok::<EntityLocation, QueryEntityError>(l)
                } else {
                    r == Err::<EntityLocation, QueryEntityError>(QueryEntityError::QueryDoesNotMatch)
                },
            },
    {
        match location {
            None => Err(QueryEntityError::NoSuchEntity),
            Some(l) => if self.matches_archetype_id(l.archetype_id) && row_accepted {
                Ok(l)
            } else {
                Err(QueryEntityError::QueryDoesNotMatch)
            },
        }
    }
}

/// The range of archetype indices a cache still has to look at: none when it saw the current
/// generation, all of them when it never saw one, otherwise the ones created since.
pub fn archetype_index_range(cached_generation: usize, current_generation: usize, archetype_count: usize) -> (r: (usize, usize))
    ensures
        r == if cached_generation == current_generation {
            (0usize, 0usize)
        } else if cached_generation == usize::MAX {
            (0usize, archetype_count)
        } else {
            (cached_generation, archetype_count)
        },
{
    if cached_generation == current_generation {
        (0, 0)
    } else if cached_generation == usize::MAX {
        (0, archetype_count)
    } else {
        (cached_generation, archetype_count)
    }
}

/// The batches that a parallel iteration hands out over `len` items: consecutive ranges of
/// `batch_size` items starting at 0, the last one cut at `len`.
pub fn batch_ranges(len: usize, batch_size: usize) -> (r: Vec<(usize, usize)>)
    requires
        batch_size > 0,
    ensures
        r@.len() == if len == 0 { 0 } else { (len - 1) as int / batch_size as int + 1 },
        forall|k: int| 0 <= k < r@.len() ==> {
            let (s, e) = #[trigger] r@[k];
            &&& s == k * batch_size
            &&& e == if s + batch_size < len { s + batch_size } else { len as int }
        },
{
    let mut r: Vec<(usize, usize)> = Vec::new();
    let mut offset: usize = 0;
    while offset < len
        invariant
            batch_size > 0,
            offset == r@.len() * batch_size,
            offset < len + batch_size,
            r@.len() > 0 ==> offset < len,
            r@.len() == if offset == 0 { 0 } else { (offset - 1) as int / batch_size as int + 1 },
            forall|k: int| 0 <= k < r@.len() ==> {
                let (s, e) = #[trigger] r@[k];
                &&& s == k * batch_size
                &&& e == if s + batch_size < len { s + batch_size } else { len as int }
            },
        decreases len - offset,
    {
        let remaining = len - offset;
        let n = if batch_size < remaining { batch_size } else { remaining };
        proof {
            let k = r@.len() as int;
            assert((k + 1) * batch_size == k * batch_size + batch_size) by (nonlinear_arith);
            assert(((k + 1) * batch_size - 1) / batch_size as int == k) by (nonlinear_arith)
                requires batch_size > 0, k >= 0;
        }
        r.push((offset, offset + n));
        if batch_size >= len - offset {
            proof {
                let k = (r@.len() - 1) as int;
                assert(len - 1 < (k + 1) * batch_size) by (nonlinear_arith)
                    requires offset == k * batch_size, batch_size >= len - offset, len > offset;
                assert((len - 1) as int / batch_size as int == k) by (nonlinear_arith)
                    requires k * batch_size <= len - 1, len - 1 < (k + 1) * batch_size, batch_size > 0;
            }
            return r;
        }
        offset = offset + batch_size;
    }
    proof {
        if r@.len() > 0 {
            assert(false);
        }
    }
    r
}

/// The rows of storage `id`, in order.
pub open spec fn rows_of(id: usize, len: nat) -> Seq<(usize, usize)> {
    Seq::new(len, |r: int| (id, r as usize))
}

/// The order a query visits rows: each storage of `ids` in turn (`lens` gives their lengths),
/// its rows in order.
pub open spec fn visit_order(ids: Seq<usize>, lens: Seq<usize>) -> Seq<(usize, usize)>
    decreases ids.len(),
{
    if ids.len() == 0 {
        Seq::empty()
    } else {
        visit_order(ids.drop_last(), lens) + rows_of(ids.last(), lens[ids.last() as int] as nat)
    }
}

/// The number of batches of `batch_size` rows that cover `len` rows.
pub open spec fn batch_count(len: nat, batch_size: nat) -> nat {
    if len == 0 { 0 } else { ((len - 1) as int / batch_size as int + 1) as nat }
}

/// The batches of storage `id`: consecutive ranges of `batch_size` rows, the last cut at `len`.
pub open spec fn batches_of(id: usize, len: nat, batch_size: nat) -> Seq<(usize, usize, usize)> {
    Seq::new(batch_count(len, batch_size), |k: int| (id, (k * batch_size) as usize, (if (k + 1) * batch_size < len { (k + 1) * batch_size } else { len as int }) as usize))
}

/// The batches a parallel iteration hands out: those of each storage of `ids` in turn.
pub open spec fn batch_plan(ids: Seq<usize>, lens: Seq<usize>, batch_size: nat) -> Seq<(usize, usize, usize)>
    decreases ids.len(),
{
    if ids.len() == 0 {
        Seq::empty()
    } else {
        batch_plan(ids.drop_last(), lens, batch_size) + batches_of(ids.last(), lens[ids.last() as int] as nat, batch_size)
    }
}

/// The rows a sequence of batches covers, batch after batch.
pub open spec fn expand(batches: Seq<(usize, usize, usize)>) -> Seq<(usize, usize)>
    decreases batches.len(),
{
    if batches.len() == 0 {
        Seq::empty()
    } else {
        let b = batches.last();
        expand(batches.drop_last()) + Seq::new((b.2 - b.1) as nat, |r: int| (b.0, (b.1 + r) as usize))
    }
}

/// Whether every storage of `ids` has a length in `lens`.
pub open spec fn lengths_known(ids: Seq<usize>, lens: Seq<usize>) -> bool {
    forall|k: int| 0 <= k < ids.len() ==> (#[trigger] ids[k]) < lens.len()
}

/// The rows to visit, storage after storage.
pub fn iteration_plan(ids: &Vec<usize>, lens: &Vec<usize>) -> (r: Vec<(usize, usize)>)
    requires
        lengths_known(ids@, lens@),
    ensures
        r@ == visit_order(ids@, lens@),
{
    let mut r: Vec<(usize, usize)> = Vec::new();
    let mut k: usize = 0;
    while k < ids.len()
        invariant
            k <= ids@.len(),
            lengths_known(ids@, lens@),
            r@ == visit_order(ids@.take(k as int), lens@),
        decreases ids@.len() - k,
    {
        let id = ids[k];
        let len = lens[id];
        let ghost before = r@;
        let mut row: usize = 0;
        while row < len
            invariant
                row <= len,
                r@ == before + rows_of(id, row as nat),
            decreases len - row,
        {
            r.push((id, row));
            proof {
                assert(r@ =~= before + rows_of(id, (row + 1) as nat));
            }
            row += 1;
        }
        proof {
            assert(ids@.take(k + 1).drop_last() =~= ids@.take(k as int));
            assert(ids@.take(k + 1).last() == id);
        }
        k += 1;
    }
    proof {
        assert(ids@.take(ids@.len() as int) =~= ids@);
    }
    r
}

/// The batches of a parallel iteration, storage after storage.
pub fn parallel_plan(ids: &Vec<usize>, lens: &Vec<usize>, batch_size: usize) -> (r: Vec<(usize, usize, usize)>)
    requires
        batch_size > 0,
        lengths_known(ids@, lens@),
    ensures
        r@ == batch_plan(ids@, lens@, batch_size as nat),
{
    let mut r: Vec<(usize, usize, usize)> = Vec::new();
    let mut k: usize = 0;
    while k < ids.len()
        invariant
            batch_size > 0,
            k <= ids@.len(),
            lengths_known(ids@, lens@),
            r@ == batch_plan(ids@.take(k as int), lens@, batch_size as nat),
        decreases ids@.len() - k,
    {
        let id = ids[k];
        let ranges = batch_ranges(lens[id], batch_size);
        let ghost before = r@;
        let mut j: usize = 0;
        while j < ranges.len()
            invariant
                j <= ranges@.len(),
                batch_size > 0,
                ranges@.len() == batch_count(lens@[id as int] as nat, batch_size as nat),
                forall|q: int| 0 <= q < ranges@.len() ==> {
                    let (s, e) = #[trigger] ranges@[q];
                    &&& s == q * batch_size
                    &&& e == if s + batch_size < lens@[id as int] { s + batch_size } else { lens@[id as int] as int }
                },
                r@ == before + batches_of(id, lens@[id as int] as nat, batch_size as nat).take(j as int),
            decreases ranges@.len() - j,
        {
            let (s, e) = ranges[j];
            r.push((id, s, e));
            proof {
                let b = batches_of(id, lens@[id as int] as nat, batch_size as nat);
                assert((j + 1) * batch_size == j * batch_size + batch_size) by (nonlinear_arith);
                assert(b[j as int] == (id, s, e));
                assert(b.take(j + 1) =~= b.take(j as int).push(b[j as int]));
                assert(r@ =~= before + b.take(j + 1));
            }
            j += 1;
        }
        proof {
            let b = batches_of(id, lens@[id as int] as nat, batch_size as nat);
            assert(b.take(ranges@.len() as int) =~= b);
            assert(ids@.take(k + 1).drop_last() =~= ids@.take(k as int));
            assert(ids@.take(k + 1).last() == id);
        }
        k += 1;
    }
    proof {
        assert(ids@.take(ids@.len() as int) =~= ids@);
    }
    r
}

impl QueryAccessCache {
    /// The rows a query runs its function on: of every row of each matched table when the query
    /// walks tables, otherwise of every row of each matched archetype (storages in the order they
    /// were matched, rows in storage order), those its filter accepts by its answers `accepted`.
    /// The item handed to the function for a row is the one fetched at that row.
    pub fn for_each_plan(&self, dense: bool, table_lens: &Vec<usize>, archetype_lens: &Vec<usize>, accepted: &Vec<Vec<bool>>) -> (r: Vec<(usize, usize)>)
        requires
            dense ==> lengths_known(self.matched_table_ids@, table_lens@),
            !dense ==> lengths_known(self.matched_archetype_ids@, archetype_lens@),
        ensures
            r@ == if dense {
                visit_order(self.matched_table_ids@, table_lens@)
            } else {
                visit_order(self.matched_archetype_ids@, archetype_lens@)
            }.filter(|p: (usize, usize)| row_accepted(accepted@, p)),
    {
        let rows = if dense {
            iteration_plan(&self.matched_table_ids, table_lens)
        } else {
            iteration_plan(&self.matched_archetype_ids, archetype_lens)
        };
        accepted_rows(&rows, accepted)
    }

    /// The batches a parallel iteration hands out: those of each matched table when the query
    /// walks tables, otherwise those of each matched archetype. Each batch runs the rows it covers
    /// that the filter accepts (see `accepted_rows`, `law_parallel_runs_accepted_rows` and
    /// `law_batches_are_bounded`).
    pub fn par_for_each_plan(&self, dense: bool, table_lens: &Vec<usize>, archetype_lens: &Vec<usize>, batch_size: usize) -> (r: Vec<(usize, usize, usize)>)
        requires
            batch_size > 0,
            dense ==> lengths_known(self.matched_table_ids@, table_lens@),
            !dense ==> lengths_known(self.matched_archetype_ids@, archetype_lens@),
        ensures
            r@ == if dense {
                batch_plan(self.matched_table_ids@, table_lens@, batch_size as nat)
            } else {
                batch_plan(self.matched_archetype_ids@, archetype_lens@, batch_size as nat)
            },
    {
        if dense {
            parallel_plan(&self.matched_table_ids, table_lens, batch_size)
        } else {
            parallel_plan(&self.matched_archetype_ids, archetype_lens, batch_size)
        }
    }
}

proof fn lemma_expand_append(a: Seq<(usize, usize, usize)>, b: Seq<(usize, usize, usize)>)
    ensures
        expand(a + b) == expand(a) + expand(b),
    decreases b.len(),
{
    if b.len() == 0 {
        assert(a + b =~= a);
        assert(expand(b) =~= Seq::<(usize, usize)>::empty());
        assert(expand(a) + expand(b) =~= expand(a));
    } else {
        lemma_expand_append(a, b.drop_last());
        assert((a + b).drop_last() =~= a + b.drop_last());
        assert((a + b).last() == b.last());
        let l = b.last();
        let tail = Seq::new((l.2 - l.1) as nat, |r: int| (l.0, (l.1 + r) as usize));
        assert(expand(a + b) == expand(a + b.drop_last()) + tail);
        assert(expand(b) == expand(b.drop_last()) + tail);
        assert(expand(a) + expand(b.drop_last()) + tail =~= expand(a) + (expand(b.drop_last()) + tail));
    }
}

proof fn lemma_expand_batches_prefix(id: usize, len: nat, batch_size: nat, k: nat)
    requires
        batch_size > 0,
        len <= usize::MAX,
        k <= batch_count(len, batch_size),
    ensures
        expand(batches_of(id, len, batch_size).take(k as int)) == rows_of(id, if k * batch_size < len { k * batch_size } else { len }),
    decreases k,
{
    let b = batches_of(id, len, batch_size);
    if k == 0 {
        assert(b.take(0) =~= Seq::<(usize, usize, usize)>::empty());
        assert(rows_of(id, 0) =~= Seq::<(usize, usize)>::empty());
    } else {
        lemma_expand_batches_prefix(id, len, batch_size, (k - 1) as nat);
        let j: nat = (k - 1) as nat;
        assert(b.take(k as int).drop_last() =~= b.take(j as int));
        assert(b.take(k as int).last() == b[j as int]);
        assert(j * batch_size < len) by (nonlinear_arith)
            requires j < batch_count(len, batch_size), batch_size > 0, len > 0 || batch_count(len, batch_size) == 0,
                batch_count(len, batch_size) == if len == 0 { 0 } else { ((len - 1) as int / batch_size as int + 1) as nat };
        assert(k * batch_size == j * batch_size + batch_size) by (nonlinear_arith) requires k == j + 1;
        let start: nat = j * batch_size;
        let end: int = if k * batch_size < len { (k * batch_size) as int } else { len as int };
        assert(b[j as int] == (id, start as usize, end as usize));
        let tail = Seq::new((end - start) as nat, |r: int| (id, (start + r) as usize));
        assert(rows_of(id, start) + tail =~= rows_of(id, end as nat));
    }
}

/// Batch `b` covers at least one and at most `batch_size` rows of a single storage, all of them
/// within that storage's length in `lens`.
pub open spec fn batch_bounded(b: (usize, usize, usize), lens: Seq<usize>, batch_size: nat) -> bool {
    &&& b.0 < lens.len()
    &&& b.1 < b.2 <= lens[b.0 as int]
    &&& b.2 - b.1 <= batch_size
}

proof fn lemma_batches_of_bounded(id: usize, lens: Seq<usize>, batch_size: nat)
    requires
        batch_size > 0,
        id < lens.len(),
    ensures
        forall|k: int| 0 <= k < batches_of(id, lens[id as int] as nat, batch_size).len() ==> batch_bounded(
            #[trigger] batches_of(id, lens[id as int] as nat, batch_size)[k],
            lens,
            batch_size,
        ),
{
    let len = lens[id as int] as nat;
    assert forall|k: int| 0 <= k < batches_of(id, len, batch_size).len() implies batch_bounded(
        #[trigger] batches_of(id, len, batch_size)[k],
        lens,
        batch_size,
    ) by {
        assert(len > 0);
        assert(k * batch_size < len && 0 <= k * batch_size && (k + 1) * batch_size == k * batch_size + batch_size) by (nonlinear_arith)
            requires
                0 <= k < (len - 1) as int / batch_size as int + 1,
                batch_size > 0,
                len > 0,
        ;
    }
}

/// Every batch a parallel iteration hands out covers at least one and at most `batch_size` rows
/// of one of the storages it walks.
pub proof fn law_batches_are_bounded(ids: Seq<usize>, lens: Seq<usize>, batch_size: nat)
    requires
        batch_size > 0,
        lengths_known(ids, lens),
    ensures
        forall|i: int| 0 <= i < batch_plan(ids, lens, batch_size).len() ==> {
            &&& batch_bounded(#[trigger] batch_plan(ids, lens, batch_size)[i], lens, batch_size)
            &&& ids.contains(batch_plan(ids, lens, batch_size)[i].0)
        },
    decreases ids.len(),
{
    if ids.len() > 0 {
        let rest = ids.drop_last();
        assert(lengths_known(rest, lens)) by {
            assert forall|k: int| 0 <= k < rest.len() implies (#[trigger] rest[k]) < lens.len() by {
                assert(rest[k] == ids[k]);
            }
        }
        law_batches_are_bounded(rest, lens, batch_size);
        let id = ids.last();
        assert(ids[ids.len() - 1] == id);
        lemma_batches_of_bounded(id, lens, batch_size);
        let prev = batch_plan(rest, lens, batch_size);
        let tail = batches_of(id, lens[id as int] as nat, batch_size);
        assert forall|i: int| 0 <= i < batch_plan(ids, lens, batch_size).len() implies {
            &&& batch_bounded(#[trigger] batch_plan(ids, lens, batch_size)[i], lens, batch_size)
            &&& ids.contains(batch_plan(ids, lens, batch_size)[i].0)
        } by {
            if i < prev.len() {
                assert(batch_plan(ids, lens, batch_size)[i] == prev[i]);
                assert(ids.contains(prev[i].0));
                let j = choose|j: int| 0 <= j < rest.len() && rest[j] == prev[i].0;
                assert(ids[j] == rest[j]);
            } else {
                assert(batch_plan(ids, lens, batch_size)[i] == tail[i - prev.len()]);
                assert(batch_bounded(tail[i - prev.len()], lens, batch_size));
            }
        }
    }
}

/// Whether the query's filter accepts row `p.1` of storage `p.0`, by its answers `accepted`, one
/// list per storage with one answer per row; a row it gave no answer for is not accepted.
pub open spec fn row_accepted(accepted: Seq<Vec<bool>>, p: (usize, usize)) -> bool {
    &&& p.0 < accepted.len()
    &&& p.1 < accepted[p.0 as int]@.len()
    &&& accepted[p.0 as int]@[p.1 as int]
}

/// The rows of `rows` that the filter accepts, in order.
pub fn accepted_rows(rows: &Vec<(usize, usize)>, accepted: &Vec<Vec<bool>>) -> (r: Vec<(usize, usize)>)
    ensures
        r@ == rows@.filter(|p: (usize, usize)| row_accepted(accepted@, p)),
{
    let mut r: Vec<(usize, usize)> = Vec::new();
    let mut k: usize = 0;
    while k < rows.len()
        invariant
            k <= rows@.len(),
            r@ == rows@.take(k as int).filter(|p: (usize, usize)| row_accepted(accepted@, p)),
        decreases rows@.len() - k,
    {
        let p = rows[k];
        let ok = p.0 < accepted.len() && p.1 < accepted[p.0].len() && accepted[p.0][p.1];
        proof {
            assert(rows@.take(k + 1) =~= rows@.take(k as int).push(p));
            lemma_filter_push(rows@.take(k as int), |p: (usize, usize)| row_accepted(accepted@, p), p);
        }
        if ok {
            r.push(p);
        }
        k += 1;
    }
    assert(rows@.take(rows@.len() as int) =~= rows@);
    r
}

/// A parallel iteration runs, batch after batch, exactly the rows a sequential iteration runs,
/// in the same order, once the filter's answers leave out the rows it does not accept.
pub proof fn law_parallel_runs_accepted_rows(ids: Seq<usize>, lens: Seq<usize>, batch_size: nat, accepted: Seq<Vec<bool>>)
    requires
        batch_size > 0,
        lengths_known(ids, lens),
    ensures
        expand(batch_plan(ids, lens, batch_size)).filter(|p: (usize, usize)| row_accepted(accepted, p))
            == visit_order(ids, lens).filter(|p: (usize, usize)| row_accepted(accepted, p)),
{
    law_batches_cover_rows(ids, lens, batch_size);
}

/// The rows a parallel iteration's batches cover, batch after batch, are the rows a sequential
/// iteration visits, in the same order: each row of each storage exactly once.
pub proof fn law_batches_cover_rows(ids: Seq<usize>, lens: Seq<usize>, batch_size: nat)
    requires
        batch_size > 0,
        lengths_known(ids, lens),
    ensures
        expand(batch_plan(ids, lens, batch_size)) == visit_order(ids, lens),
    decreases ids.len(),
{
    if ids.len() > 0 {
        let rest = ids.drop_last();
        assert(lengths_known(rest, lens)) by {
            assert forall|k: int| 0 <= k < rest.len() implies (#[trigger] rest[k]) < lens.len() by {
                assert(rest[k] == ids[k]);
            }
        }
        law_batches_cover_rows(rest, lens, batch_size);
        let id = ids.last();
        assert(id == ids[ids.len() - 1]);
        let len = lens[id as int] as nat;
        lemma_expand_append(batch_plan(rest, lens, batch_size), batches_of(id, len, batch_size));
        lemma_expand_batches_prefix(id, len, batch_size, batch_count(len, batch_size));
        let b = batches_of(id, len, batch_size);
        assert(b.take(batch_count(len, batch_size) as int) =~= b);
        let n = batch_count(len, batch_size);
        assert(n * batch_size >= len) by (nonlinear_arith)
            requires n == if len == 0 { 0 } else { ((len - 1) as int / batch_size as int + 1) as nat }, batch_size > 0;
    }
}

/// Whether a storage type lets a query walk whole tables.
pub fn is_dense(storage_type: StorageType) -> (r: bool)
    ensures
        r == (storage_type == StorageType::Table),
{
    match storage_type {
        StorageType::Table => true,
        StorageType::SparseSet => false,
    }
}

/// Whether the columns hold the one of `kind` aimed at `target`.
pub open spec fn columns_contain(columns: Seq<(usize, Option<u64>)>, kind: usize, target: Option<u64>) -> bool {
    columns.contains((kind, target))
}

/// Whether the columns hold one of `kind`, aimed at anything.
pub open spec fn columns_have_kind(columns: Seq<(usize, Option<u64>)>, kind: usize) -> bool {
    exists|i: int| 0 <= i < columns.len() && (#[trigger] columns[i]).0 == kind
}

/// Whether the column of `kind` is aimed at every target of `filter`.
pub open spec fn all_targets_present(columns: Seq<(usize, Option<u64>)>, kind: usize, filter: Seq<u64>) -> bool {
    forall|i: int| 0 <= i < filter.len() ==> columns_contain(columns, kind, Some(#[trigger] filter[i]))
}

/// Whether `columns` hold the one of `kind` aimed at `target`.
pub fn contains_column(columns: &Vec<(usize, Option<u64>)>, kind: usize, target: Option<u64>) -> (r: bool)
    ensures
        r == columns_contain(columns@, kind, target),
{
    let mut i: usize = 0;
    while i < columns.len()
        invariant
            i <= columns@.len(),
            forall|j: int| 0 <= j < i ==> columns@[j] != (kind, target),
        decreases columns@.len() - i,
    {
        if columns[i].0 == kind && columns[i].1 == target {
            assert(columns@[i as int] == (kind, target));
            return true;
        }
        i += 1;
    }
    false
}

/// Whether `columns` hold one of `kind`.
pub fn has_kind_column(columns: &Vec<(usize, Option<u64>)>, kind: usize) -> (r: bool)
    ensures
        r == columns_have_kind(columns@, kind),
{
    let mut i: usize = 0;
    while i < columns.len()
        invariant
            i <= columns@.len(),
            forall|j: int| 0 <= j < i ==> columns@[j].0 != kind,
        decreases columns@.len() - i,
    {
        if columns[i].0 == kind {
            return true;
        }
        i += 1;
    }
    false
}

/// An archetype: its table, and its component columns, each a kind and, for a relation, its
/// packed target, with the id of the column in this archetype at the same position of
/// `component_ids`.
pub struct Archetype {
    pub id: usize,
    pub table_id: usize,
    pub columns: Vec<(usize, Option<u64>)>,
    pub component_ids: Vec<usize>,
}

/// A table: its component columns, each a kind and, for a relation, its packed target.
pub struct Table {
    pub id: usize,
    pub columns: Vec<(usize, Option<u64>)>,
}

/// Whether a column is of `kind` and, when `target` is given, aimed at it.
pub open spec fn selects(column: (usize, Option<u64>), kind: usize, target: Option<Option<u64>>) -> bool {
    column.0 == kind && match target {
        Some(t) => column.1 == t,
        None => true,
    }
}

/// The ids of the columns among the first `n` of `a` that `selects` picks.
pub open spec fn selected_ids(a: Archetype, kind: usize, target: Option<Option<u64>>, n: int) -> Set<usize> {
    Set::new(|x: usize| exists|j: int| 0 <= j < n && j < a.columns@.len() && j < a.component_ids@.len()
        && selects(#[trigger] a.columns@[j], kind, target) && a.component_ids@[j] == x)
}

impl Archetype {
    /// Each column has its id, and every id leaves room for the bit after it.
    pub open spec fn wf(&self) -> bool {
        &&& self.component_ids@.len() == self.columns@.len()
        &&& forall|j: int| 0 <= j < self.component_ids@.len() ==> #[trigger] self.component_ids@[j] < usize::MAX
    }

    pub open spec fn spec_contains(&self, kind: usize, target: Option<u64>) -> bool {
        columns_contain(self.columns@, kind, target)
    }

    pub open spec fn spec_has_kind(&self, kind: usize) -> bool {
        columns_have_kind(self.columns@, kind)
    }

    /// Whether the archetype has the column of `kind` aimed at `target`.
    pub fn contains(&self, kind: usize, target: Option<u64>) -> (r: bool)
        ensures
            r == self.spec_contains(kind, target),
    {
        contains_column(&self.columns, kind, target)
    }

    /// Whether the archetype has any column of `kind`.
    pub fn has_kind(&self, kind: usize) -> (r: bool)
        ensures
            r == self.spec_has_kind(kind),
    {
        has_kind_column(&self.columns, kind)
    }
}

impl Table {
    /// Whether the table has the column of `kind` aimed at `target`.
    pub fn has_column(&self, kind: usize, target: Option<u64>) -> (r: bool)
        ensures
            r == columns_contain(self.columns@, kind, target),
    {
        contains_column(&self.columns, kind, target)
    }
}

/// The archetype components a query reads or writes: `reads_and_writes` holds both kinds,
/// `writes` the written ones.
pub struct Access {
    pub reads_and_writes: FixedBitSet,
    pub writes: FixedBitSet,
}

impl Access {
    pub open spec fn wf(&self) -> bool {
        bitset_wf(self.reads_and_writes) && bitset_wf(self.writes)
    }

    /// The components read or written.
    pub open spec fn touched(&self) -> Set<usize> {
        bitset_ones(self.reads_and_writes)
    }

    /// The components written.
    pub open spec fn written(&self) -> Set<usize> {
        bitset_ones(self.writes)
    }

    /// Nothing accessed.
    pub fn new() -> (a: Self)
        ensures
            a.wf(),
            a.touched() == Set::<usize>::empty(),
            a.written() == Set::<usize>::empty(),
    {
        Access { reads_and_writes: bitset_new(), writes: bitset_new() }
    }

    /// Records a read of `index`.
    pub fn add_read(&mut self, index: usize)
        requires
            old(self).wf(),
            index < usize::MAX,
        ensures
            final(self).wf(),
            final(self).touched() == old(self).touched().insert(index),
            final(self).written() == old(self).written(),
    {
        bitset_grow(&mut self.reads_and_writes, index + 1);
        bitset_set(&mut self.reads_and_writes, index, true);
    }

    /// Records a write of `index`.
    pub fn add_write(&mut self, index: usize)
        requires
            old(self).wf(),
            index < usize::MAX,
        ensures
            final(self).wf(),
            final(self).touched() == old(self).touched().insert(index),
            final(self).written() == old(self).written().insert(index),
    {
        bitset_grow(&mut self.reads_and_writes, index + 1);
        bitset_set(&mut self.reads_and_writes, index, true);
        bitset_grow(&mut self.writes, index + 1);
        bitset_set(&mut self.writes, index, true);
    }

    /// Whether `index` is read or written.
    pub fn has_read(&self, index: usize) -> (r: bool)
        ensures
            r == self.touched().contains(index),
    {
        bitset_contains(&self.reads_and_writes, index)
    }

    /// Whether `index` is written.
    pub fn has_write(&self, index: usize) -> (r: bool)
        ensures
            r == self.written().contains(index),
    {
        bitset_contains(&self.writes, index)
    }
}

/// Records, as reads or as writes, the ids of the columns of `archetype` of `kind` (aimed at
/// `target` when it is given).
pub fn add_selected(archetype: &Archetype, kind: usize, target: Option<Option<u64>>, write: bool, access: &mut Access)
    requires
        old(access).wf(),
        archetype.wf(),
    ensures
        final(access).wf(),
        final(access).touched() == old(access).touched() + selected_ids(*archetype, kind, target, archetype.columns@.len() as int),
        final(access).written() == if write {
            old(access).written() + selected_ids(*archetype, kind, target, archetype.columns@.len() as int)
        } else {
            old(access).written()
        },
{
    let n = archetype.columns.len();
    let mut j: usize = 0;
    while j < n
        invariant
            n == archetype.columns@.len(),
            archetype.wf(),
            j <= n,
            access.wf(),
            access.touched() == old(access).touched() + selected_ids(*archetype, kind, target, j as int),
            access.written() == if write {
                old(access).written() + selected_ids(*archetype, kind, target, j as int)
            } else {
                old(access).written()
            },
        decreases n - j,
    {
        let column = archetype.columns[j];
        let picked = column.0 == kind && match target {
            Some(t) => column.1 == t,
            None => true,
        };
        let id = archetype.component_ids[j];
        proof {
            let before = selected_ids(*archetype, kind, target, j as int);
            let after = selected_ids(*archetype, kind, target, j + 1);
            assert(picked == selects(archetype.columns@[j as int], kind, target));
            if picked {
                assert(after =~= before.insert(id)) by {
                    assert forall|x: usize| after.contains(x) implies before.insert(id).contains(x) by {
                        let k = choose|k: int| 0 <= k < j + 1 && k < archetype.columns@.len() && k < archetype.component_ids@.len()
                            && selects(#[trigger] archetype.columns@[k], kind, target) && archetype.component_ids@[k] == x;
                        if k < j {
                            assert(before.contains(x));
                        }
                    }
                    assert forall|x: usize| before.insert(id).contains(x) implies after.contains(x) by {
                        if x == id {
                            assert(selects(archetype.columns@[j as int], kind, target) && archetype.component_ids@[j as int] == x);
                        } else {
                            let k = choose|k: int| 0 <= k < j && k < archetype.columns@.len() && k < archetype.component_ids@.len()
                                && selects(#[trigger] archetype.columns@[k], kind, target) && archetype.component_ids@[k] == x;
                            assert(0 <= k < j + 1);
                        }
                    }
                }
            } else {
                assert(after =~= before) by {
                    assert forall|x: usize| after.contains(x) implies before.contains(x) by {
                        let k = choose|k: int| 0 <= k < j + 1 && k < archetype.columns@.len() && k < archetype.component_ids@.len()
                            && selects(#[trigger] archetype.columns@[k], kind, target) && archetype.component_ids@[k] == x;
                        assert(k != j);
                    }
                    assert forall|x: usize| before.contains(x) implies after.contains(x) by {
                        let k = choose|k: int| 0 <= k < j && k < archetype.columns@.len() && k < archetype.component_ids@.len()
                            && selects(#[trigger] archetype.columns@[k], kind, target) && archetype.component_ids@[k] == x;
                        assert(0 <= k < j + 1);
                    }
                }
            }
        }
        if picked {
            if write {
                access.add_write(id);
            } else {
                access.add_read(id);
            }
        }
        j += 1;
    }
}

/// The component ids a query reads and writes.
pub struct FilteredAccess {
    pub reads: Vec<usize>,
    pub writes: Vec<usize>,
}

/// A read and a write of the same component within one query.
#[derive(Debug, Clone, Copy, PartialEq, Eq, Structural)]
pub enum AccessConflict {
    SharedAfterExclusive(usize),
    ExclusiveAfterShared(usize),
}

fn vec_contains(v: &Vec<usize>, x: usize) -> (r: bool)
    ensures
        r == v@.contains(x),
{
    let mut i: usize = 0;
    while i < v.len()
        invariant
            i <= v@.len(),
            forall|j: int| 0 <= j < i ==> v@[j] != x,
        decreases v@.len() - i,
    {
        if v[i] == x {
            return true;
        }
        i += 1;
    }
    false
}

impl FilteredAccess {
    pub fn new() -> (a: Self)
        ensures
            a.reads@ == Seq::<usize>::empty(),
            a.writes@ == Seq::<usize>::empty(),
    {
        FilteredAccess { reads: Vec::new(), writes: Vec::new() }
    }

    pub fn has_read(&self, id: usize) -> (r: bool)
        ensures
            r == self.reads@.contains(id),
    {
        vec_contains(&self.reads, id)
    }

    pub fn has_write(&self, id: usize) -> (r: bool)
        ensures
            r == self.writes@.contains(id),
    {
        vec_contains(&self.writes, id)
    }

    /// Records every access of `other` too, without checking them against those recorded
    /// before: a query's filters may touch what its data touches.
    pub fn extend(&mut self, other: &FilteredAccess)
        ensures
            final(self).reads@ == old(self).reads@ + other.reads@,
            final(self).writes@ == old(self).writes@ + other.writes@,
    {
        let mut i: usize = 0;
        while i < other.reads.len()
            invariant
                i <= other.reads@.len(),
                self.reads@ == old(self).reads@ + other.reads@.take(i as int),
                self.writes@ == old(self).writes@,
            decreases other.reads@.len() - i,
        {
            self.reads.push(other.reads[i]);
            assert(other.reads@.take(i + 1) =~= other.reads@.take(i as int).push(other.reads@[i as int]));
            i += 1;
        }
        let mut j: usize = 0;
        while j < other.writes.len()
            invariant
                j <= other.writes@.len(),
                self.reads@ == old(self).reads@ + other.reads@,
                self.writes@ == old(self).writes@ + other.writes@.take(j as int),
            decreases other.writes@.len() - j,
        {
            self.writes.push(other.writes[j]);
            assert(other.writes@.take(j + 1) =~= other.writes@.take(j as int).push(other.writes@[j as int]));
            j += 1;
        }
        assert(other.reads@.take(other.reads@.len() as int) =~= other.reads@);
        assert(other.writes@.take(other.writes@.len() as int) =~= other.writes@);
    }

    /// Records a shared access to `id`; refused when the query already writes `id`.
    pub fn add_read(&mut self, id: usize) -> (r: Result<(), AccessConflict>)
        ensures
            old(self).writes@.contains(id) ==> r == Err::<(), AccessConflict>(AccessConflict::SharedAfterExclusive(id)) && *final(self) == *old(self),
            !old(self).writes@.contains(id) ==> r == Ok::<(), AccessConflict>(()) && final(self).reads@ == old(self).reads@.push(id) && final(self).writes@ == old(self).writes@,
    {
        if self.has_write(id) {
            return Err(AccessConflict::SharedAfterExclusive(id));
        }
        self.reads.push(id);
        Ok(())
    }

    /// Records an exclusive access to `id`; refused when the query already reads `id`.
    pub fn add_write(&mut self, id: usize) -> (r: Result<(), AccessConflict>)
        ensures
            old(self).reads@.contains(id) ==> r == Err::<(), AccessConflict>(AccessConflict::ExclusiveAfterShared(id)) && *final(self) == *old(self),
            !old(self).reads@.contains(id) ==> r == Ok::<(), AccessConflict>(()) && final(self).writes@ == old(self).writes@.push(id) && final(self).reads@ == old(self).reads@,
    {
        if self.has_read(id) {
            return Err(AccessConflict::ExclusiveAfterShared(id));
        }
        self.writes.push(id);
        Ok(())
    }
}

/// What a query for `&T` (shared access to one component) looks for.
pub struct ReadState {
    pub relation_kind_id: RelationKindId,
    pub relation_target: Option<Entity>,
    pub storage_type: StorageType,
}

/// What a query for `&mut T` (exclusive access to one component) looks for.
pub struct WriteState {
    pub relation_kind_id: RelationKindId,
    pub relation_target: Option<Entity>,
    pub storage_type: StorageType,
}

/// What a query for `ChangeTrackers<T>` looks for.
pub struct ChangeTrackersState {
    pub relation_kind_id: RelationKindId,
    pub relation_target: Option<Entity>,
    pub storage_type: StorageType,
}

/// The packed form of an optional target.
pub open spec fn target_key(t: Option<Entity>) -> Option<u64> {
    match t {
        Some(e) => Some(e.spec_bits()),
        None => None,
    }
}

pub fn pack_target(t: Option<Entity>) -> (r: Option<u64>)
    ensures
        r == target_key(t),
{
    match t {
        Some(e) => Some(e.to_bits()),
        None => None,
    }
}

/// What a query for `&Relation<K>` looks for: every relation of kind `K`, registered for the
/// type `relation_type`.
pub struct ReadRelationState {
    pub relation_type: TypeId,
    pub relation_kind: RelationKindId,
    pub storage_type: StorageType,
}

/// Where a relation term of a query stands: among the data it fetches, or among its filters.
#[derive(Clone, Copy, PartialEq, Eq, Debug, Structural)]
pub enum QuerySide {
    Data,
    Filter,
}

/// A filter on the targets of relation kind `kind`: the listed targets must all be present.
pub struct RelationFilter {
    pub kind: TypeId,
    pub targets: TargetList,
}

impl RelationFilter {
    pub fn new(kind: TypeId) -> (f: Self)
        ensures
            f.kind == kind,
            target_bits(f.targets) == Seq::<u64>::empty(),
    {
        RelationFilter { kind, targets: targets_new() }
    }

    /// Adds a required target.
    pub fn target(self, target: Entity) -> (f: Self)
        requires
            target_bits(self.targets).len() < usize::MAX / 32,
        ensures
            f.kind == self.kind,
            target_bits(f.targets) == target_bits(self.targets).push(target.spec_bits()),
    {
        let mut s = self;
        targets_push(&mut s.targets, target.to_bits());
        s
    }
}

/// The targets required of the relation term of kind `kind` on one side of a query.
pub struct RelationSlot {
    pub side: QuerySide,
    pub kind: TypeId,
    pub targets: TargetList,
}

/// Whether a slot is the one of the term on `side` with kind `kind`.
pub open spec fn slot_is(slot: RelationSlot, side: QuerySide, kind: TypeId) -> bool {
    slot.side == side && slot.kind == kind
}

/// The targets required of the term on `side` with kind `kind`: those of its slot, the last
/// one when several were made, none when it has none.
pub open spec fn required_targets(slots: Seq<RelationSlot>, side: QuerySide, kind: TypeId) -> Seq<u64>
    decreases slots.len(),
{
    if slots.len() == 0 {
        Seq::empty()
    } else if slot_is(slots.last(), side, kind) {
        target_bits(slots.last().targets)
    } else {
        required_targets(slots.drop_last(), side, kind)
    }
}

/// The relation filters of a query: for each relation term, named by its side and kind, the
/// targets it must be aimed at.
pub struct QueryRelationFilter {
    pub slots: Vec<RelationSlot>,
}

/// `s` with each item kept only at its first occurrence.
pub open spec fn first_occurrences(s: Seq<u64>) -> Seq<u64>
    decreases s.len(),
{
    if s.len() == 0 {
        s
    } else {
        let rest = first_occurrences(s.drop_last());
        if rest.contains(s.last()) {
            rest
        } else {
            rest.push(s.last())
        }
    }
}

proof fn lemma_first_occurrences_contains(s: Seq<u64>, x: u64)
    ensures
        first_occurrences(s).contains(x) == s.contains(x),
        first_occurrences(s).len() <= s.len(),
    decreases s.len(),
{
    broadcast use vstd::seq_lib::lemma_seq_contains_after_push;
    if s.len() > 0 {
        let p = s.drop_last();
        lemma_first_occurrences_contains(p, x);
        assert(s =~= p.push(s.last()));
    }
}

fn dedup_list(v: &TargetList) -> (r: TargetList)
    requires
        target_bits(*v).len() < usize::MAX / 32,
    ensures
        target_bits(r) == first_occurrences(target_bits(*v)),
{
    let n = targets_len(v);
    let mut out = targets_new();
    let mut i: usize = 0;
    while i < n
        invariant
            n == target_bits(*v).len(),
            n < usize::MAX / 32,
            i <= n,
            target_bits(out) == first_occurrences(target_bits(*v).take(i as int)),
            target_bits(out).len() <= i,
        decreases n - i,
    {
        let x = targets_get(v, i);
        proof {
            assert(target_bits(*v).take(i + 1).drop_last() =~= target_bits(*v).take(i as int));
            assert(target_bits(*v).take(i + 1).last() == x);
        }
        if !targets_contains(&out, x) {
            targets_push(&mut out, x);
        }
        i += 1;
    }
    assert(target_bits(*v).take(n as int) =~= target_bits(*v));
    out
}

proof fn lemma_required_last_match(slots: Seq<RelationSlot>, i: int, side: QuerySide, kind: TypeId)
    requires
        0 <= i < slots.len(),
        slot_is(slots[i], side, kind),
        forall|j: int| i < j < slots.len() ==> !slot_is(#[trigger] slots[j], side, kind),
    ensures
        required_targets(slots, side, kind) == target_bits(slots[i].targets),
    decreases slots.len(),
{
    if i < slots.len() - 1 {
        assert(!slot_is(slots[slots.len() - 1], side, kind));
        lemma_required_last_match(slots.drop_last(), i, side, kind);
    }
}

proof fn lemma_required_no_match(slots: Seq<RelationSlot>, side: QuerySide, kind: TypeId)
    requires
        forall|j: int| 0 <= j < slots.len() ==> !slot_is(#[trigger] slots[j], side, kind),
    ensures
        required_targets(slots, side, kind) == Seq::<u64>::empty(),
    decreases slots.len(),
{
    if slots.len() > 0 {
        assert(!slot_is(slots[slots.len() - 1], side, kind));
        lemma_required_no_match(slots.drop_last(), side, kind);
    }
}

/// Replacing the targets of the last slot of a term changes what is required of that term only.
proof fn lemma_required_update(slots: Seq<RelationSlot>, i: int, targets: TargetList, side: QuerySide, kind: TypeId)
    requires
        0 <= i < slots.len(),
        forall|j: int| i < j < slots.len() ==> !slot_is(#[trigger] slots[j], slots[i].side, slots[i].kind),
    ensures
        required_targets(slots.update(i, RelationSlot { side: slots[i].side, kind: slots[i].kind, targets }), side, kind)
            == if slot_is(slots[i], side, kind) { target_bits(targets) } else { required_targets(slots, side, kind) },
    decreases slots.len(),
{
    let u = slots.update(i, RelationSlot { side: slots[i].side, kind: slots[i].kind, targets });
    if i == slots.len() - 1 {
        assert(u.drop_last() =~= slots.drop_last());
    } else {
        let l = slots.len() - 1;
        assert(!slot_is(slots[l], slots[i].side, slots[i].kind));
        assert(u.drop_last() =~= slots.drop_last().update(i, RelationSlot { side: slots[i].side, kind: slots[i].kind, targets }));
        lemma_required_update(slots.drop_last(), i, targets, side, kind);
    }
}

/// Slots with the same terms in the same order, each holding the first occurrences of the
/// other's targets, require the first occurrences of the other's targets of every term.
proof fn lemma_required_dedup(new: Seq<RelationSlot>, old: Seq<RelationSlot>, side: QuerySide, kind: TypeId)
    requires
        new.len() == old.len(),
        forall|j: int| 0 <= j < old.len() ==> (#[trigger] new[j]).side == old[j].side && new[j].kind == old[j].kind
            && target_bits(new[j].targets) == first_occurrences(target_bits(old[j].targets)),
    ensures
        required_targets(new, side, kind) == first_occurrences(required_targets(old, side, kind)),
    decreases old.len(),
{
    if old.len() > 0 {
        let l = old.len() - 1;
        assert(new[l].side == old[l].side);
        lemma_required_dedup(new.drop_last(), old.drop_last(), side, kind);
    }
}

/// The position of the last slot of the term on `side` with kind `kind`, if it has one.
fn find_slot(slots: &Vec<RelationSlot>, side: QuerySide, kind: &TypeId) -> (r: Option<usize>)
    ensures
        match r {
            Some(i) => {
                &&& i < slots@.len()
                &&& slot_is(slots@[i as int], side, *kind)
                &&& forall|j: int| i < j < slots@.len() ==> !slot_is(#[trigger] slots@[j], side, *kind)
            },
            None => forall|j: int| 0 <= j < slots@.len() ==> !slot_is(#[trigger] slots@[j], side, *kind),
        },
{
    let mut k: usize = slots.len();
    while k > 0
        invariant
            k <= slots@.len(),
            forall|j: int| k <= j < slots@.len() ==> !slot_is(#[trigger] slots@[j], side, *kind),
        decreases k,
    {
        let j = k - 1;
        if slots[j].side == side && type_id_eq(&slots[j].kind, kind) {
            return Some(j);
        }
        k = j;
    }
    None
}

impl QueryRelationFilter {
    /// The targets required of the term on `side` with kind `kind`.
    pub open spec fn targets_for(&self, side: QuerySide, kind: TypeId) -> Seq<u64> {
        required_targets(self.slots@, side, kind)
    }

    /// Every list of targets has room to grow.
    pub open spec fn wf(&self) -> bool {
        forall|i: int| 0 <= i < self.slots@.len() ==> target_bits((#[trigger] self.slots@[i]).targets).len() < usize::MAX / 32
    }

    /// No required targets.
    pub fn new() -> (f: Self)
        ensures
            f.wf(),
            forall|side: QuerySide, kind: TypeId| f.targets_for(side, kind) == Seq::<u64>::empty(),
    {
        QueryRelationFilter { slots: Vec::new() }
    }

    /// Requires the term on `side` with kind `kind` to be aimed at `target` too.
    pub fn add_target_filter(self, side: QuerySide, kind: TypeId, target: Entity) -> (f: Self)
        requires
            self.wf(),
            self.targets_for(side, kind).len() + 1 < usize::MAX / 32,
        ensures
            f.wf(),
            forall|s: QuerySide, k: TypeId| #[trigger] f.targets_for(s, k) == if s == side && k == kind {
                self.targets_for(s, k).push(target.spec_bits())
            } else {
                self.targets_for(s, k)
            },
    {
        let mut f = self;
        let filter = RelationFilter::new(kind).target(target);
        f.add_filter_relation(side, filter);
        f
    }

    /// Adds every target of `filter` to the targets required of the term on `side` with the
    /// filter's kind.
    pub fn add_filter_relation(&mut self, side: QuerySide, filter: RelationFilter)
        requires
            old(self).wf(),
            old(self).targets_for(side, filter.kind).len() + target_bits(filter.targets).len() < usize::MAX / 32,
        ensures
            final(self).wf(),
            forall|s: QuerySide, k: TypeId| #[trigger] final(self).targets_for(s, k) == if s == side && k == filter.kind {
                old(self).targets_for(s, k) + target_bits(filter.targets)
            } else {
                old(self).targets_for(s, k)
            },
    {
        match find_slot(&self.slots, side, &filter.kind) {
            Some(i) => {
                proof {
                    lemma_required_last_match(self.slots@, i as int, side, filter.kind);
                }
                let mut slot = self.slots.remove(i);
                targets_append(&mut slot.targets, &filter.targets);
                self.slots.insert(i, slot);
                proof {
                    let olds = old(self).slots@;
                    assert(self.slots@ =~= olds.update(i as int, RelationSlot { side: olds[i as int].side, kind: olds[i as int].kind, targets: slot.targets }));
                    assert forall|s: QuerySide, k: TypeId| #[trigger] self.targets_for(s, k) == if s == side && k == filter.kind {
                        old(self).targets_for(s, k) + target_bits(filter.targets)
                    } else {
                        old(self).targets_for(s, k)
                    } by {
                        lemma_required_update(olds, i as int, slot.targets, s, k);
                    }
                }
            },
            None => {
                proof {
                    lemma_required_no_match(self.slots@, side, filter.kind);
                }
                let ghost olds = self.slots@;
                let slot = RelationSlot { side, kind: filter.kind, targets: filter.targets };
                self.slots.push(slot);
                proof {
                    assert(self.slots@.drop_last() =~= olds);
                }
            },
        }
    }

    /// The targets required of the term on `side` with kind `kind`.
    pub(crate) fn required(&self, side: QuerySide, kind: &TypeId) -> (r: TargetList)
        ensures
            target_bits(r) == self.targets_for(side, *kind),
    {
        match find_slot(&self.slots, side, kind) {
            Some(i) => {
                proof {
                    lemma_required_last_match(self.slots@, i as int, side, *kind);
                }
                targets_clone(&self.slots[i].targets)
            },
            None => {
                proof {
                    lemma_required_no_match(self.slots@, side, *kind);
                }
                targets_new()
            },
        }
    }

    /// The targets required of the term on `side` with kind `kind`, as packed entities.
    pub fn targets(&self, side: QuerySide, kind: &TypeId) -> (r: Vec<u64>)
        ensures
            r@ == self.targets_for(side, *kind),
    {
        let list = self.required(side, kind);
        let n = targets_len(&list);
        let mut r: Vec<u64> = Vec::new();
        let mut i: usize = 0;
        while i < n
            invariant
                n == target_bits(list).len(),
                i <= n,
                r@ == target_bits(list).take(i as int),
            decreases n - i,
        {
            r.push(targets_get(&list, i));
            assert(target_bits(list).take(i + 1) =~= target_bits(list).take(i as int).push(target_bits(list)[i as int]));
            i += 1;
        }
        assert(target_bits(list).take(n as int) =~= target_bits(list));
        r
    }

    /// Drops repeated targets of every term, keeping the first occurrence of each.
    pub fn deduplicate_targets(&mut self)
        requires
            old(self).wf(),
        ensures
            final(self).wf(),
            forall|s: QuerySide, k: TypeId| #[trigger] final(self).targets_for(s, k) == first_occurrences(old(self).targets_for(s, k)),
    {
        let n = self.slots.len();
        let mut i: usize = 0;
        while i < n
            invariant
                n == self.slots@.len(),
                n == old(self).slots@.len(),
                i <= n,
                old(self).wf(),
                forall|j: int| 0 <= j < i ==> (#[trigger] self.slots@[j]).side == old(self).slots@[j].side
                    && self.slots@[j].kind == old(self).slots@[j].kind
                    && target_bits(self.slots@[j].targets) == first_occurrences(target_bits(old(self).slots@[j].targets)),
                forall|j: int| i <= j < n ==> #[trigger] self.slots@[j] == old(self).slots@[j],
            decreases n - i,
        {
            let d = dedup_list(&self.slots[i].targets);
            self.slots[i].targets = d;
            i += 1;
        }
        proof {
            assert forall|j: int| 0 <= j < self.slots@.len() implies target_bits((#[trigger] self.slots@[j]).targets).len() < usize::MAX / 32 by {
                lemma_first_occurrences_contains(target_bits(old(self).slots@[j].targets), 0);
            }
            assert forall|s: QuerySide, k: TypeId| #[trigger] self.targets_for(s, k) == first_occurrences(old(self).targets_for(s, k)) by {
                lemma_required_dedup(self.slots@, old(self).slots@, s, k);
            }
        }
    }
}

/// Whether two relation filters require the same targets of every term.
pub open spec fn same_targets(a: QueryRelationFilter, b: QueryRelationFilter) -> bool {
    forall|s: QuerySide, k: TypeId| #[trigger] a.targets_for(s, k) == b.targets_for(s, k)
}

/// Whether, for every term that has a slot among `slots[..n]`, `a` and `b` require the same
/// targets of it.
pub open spec fn agree_on_slots(slots: Seq<RelationSlot>, n: int, a: QueryRelationFilter, b: QueryRelationFilter) -> bool {
    forall|j: int| 0 <= j < n ==> #[trigger] a.targets_for(slots[j].side, slots[j].kind) == b.targets_for(slots[j].side, slots[j].kind)
}

/// Whether `a` and `b` require the same targets of every term that has a slot in `a.slots`.
fn agree_on_slots_of(a: &QueryRelationFilter, b: &QueryRelationFilter, slots_of_b: bool) -> (r: bool)
    ensures
        r == agree_on_slots(if slots_of_b { b.slots@ } else { a.slots@ }, if slots_of_b { b.slots@.len() as int } else { a.slots@.len() as int }, *a, *b),
{
    let n = if slots_of_b { b.slots.len() } else { a.slots.len() };
    let ghost slots = if slots_of_b { b.slots@ } else { a.slots@ };
    let mut i: usize = 0;
    while i < n
        invariant
            slots == (if slots_of_b { b.slots@ } else { a.slots@ }),
            n == slots.len(),
            i <= n,
            agree_on_slots(slots, i as int, *a, *b),
        decreases n - i,
    {
        let (side, kind) = if slots_of_b { (b.slots[i].side, b.slots[i].kind) } else { (a.slots[i].side, a.slots[i].kind) };
        let x = a.required(side, &kind);
        let y = b.required(side, &kind);
        if !targets_equal(&x, &y) {
            assert(a.targets_for(slots[i as int].side, slots[i as int].kind) != b.targets_for(slots[i as int].side, slots[i as int].kind));
            return false;
        }
        i += 1;
    }
    true
}

proof fn lemma_agreement_is_sameness(a: QueryRelationFilter, b: QueryRelationFilter)
    requires
        agree_on_slots(a.slots@, a.slots@.len() as int, a, b),
        agree_on_slots(b.slots@, b.slots@.len() as int, a, b),
    ensures
        same_targets(a, b),
{
    assert forall|s: QuerySide, k: TypeId| #[trigger] a.targets_for(s, k) == b.targets_for(s, k) by {
        if exists|j: int| 0 <= j < a.slots@.len() && slot_is(a.slots@[j], s, k) {
            let j = choose|j: int| 0 <= j < a.slots@.len() && slot_is(a.slots@[j], s, k);
            assert(a.targets_for(a.slots@[j].side, a.slots@[j].kind) == b.targets_for(a.slots@[j].side, a.slots@[j].kind));
        } else if exists|j: int| 0 <= j < b.slots@.len() && slot_is(b.slots@[j], s, k) {
            let j = choose|j: int| 0 <= j < b.slots@.len() && slot_is(b.slots@[j], s, k);
            assert(a.targets_for(b.slots@[j].side, b.slots@[j].kind) == b.targets_for(b.slots@[j].side, b.slots@[j].kind));
        } else {
            lemma_required_no_match(a.slots@, s, k);
            lemma_required_no_match(b.slots@, s, k);
        }
    }
}

/// Whether two relation filters require the same targets of every term.
pub fn same_filter(a: &QueryRelationFilter, b: &QueryRelationFilter) -> (r: bool)
    ensures
        r == same_targets(*a, *b),
{
    let first = agree_on_slots_of(a, b, false);
    if !first {
        return false;
    }
    let second = agree_on_slots_of(a, b, true);
    if !second {
        return false;
    }
    proof {
        lemma_agreement_is_sameness(*a, *b);
    }
    true
}

impl Default for QueryRelationFilter {
    /// No required targets.
    fn default() -> (f: Self)
        ensures
            f.wf(),
            forall|side: QuerySide, kind: TypeId| f.targets_for(side, kind) == Seq::<u64>::empty(),
    {
        QueryRelationFilter::new()
    }
}

/// Deduplicating keeps exactly the same targets, without repeats, never more of them.
pub proof fn lemma_deduplicate_keeps_targets(s: Seq<u64>)
    ensures
        forall|x: u64| first_occurrences(s).contains(x) == s.contains(x),
        first_occurrences(s).len() <= s.len(),
{
    assert forall|x: u64| first_occurrences(s).contains(x) == s.contains(x) by {
        lemma_first_occurrences_contains(s, x);
    }
    lemma_first_occurrences_contains(s, 0);
}


/// Marks the path by which a query term names a relation: the term itself.
#[derive(Debug, Clone, Copy, PartialEq, Eq, Structural)]
pub struct Intrinsic;

/// Marks the path by which a query names a relation: through its data terms, along `Inner`.
pub struct InData<Inner>(pub std::marker::PhantomData<Inner>);

/// Marks the path by which a query names a relation: through its filter terms, along `Inner`.
pub struct InFilter<Inner>(pub std::marker::PhantomData<Inner>);

/// Marks the path by which a tuple of terms names a relation: through its `I`-th term, along
/// `Inner`.
pub struct InTuple<Inner, const I: usize>(pub std::marker::PhantomData<Inner>);

} // verus!
