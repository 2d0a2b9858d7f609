//! The cached state of a query over one world: the components its terms access and, for each
//! relation filter it has been used with, the archetypes and tables it matches.
use vstd::prelude::*;
use std::any::TypeId;
use crate::fetch::{record_terms, targets_on, FetchState};
use crate::query::{
    archetype_index_range, batch_plan, lengths_known, no_duplicates, same_filter, same_targets, visit_order, Access,
    AccessConflict, Archetype, EntityLocation, FilteredAccess, QueryAccessCache, QueryEntityError, QueryRelationFilter,
    QuerySide, row_accepted,
};

verus! {

/// The archetypes of a world, each at the position of its id.
pub open spec fn archetypes_wf(archetypes: Seq<Archetype>) -> bool {
    &&& archetypes.len() < usize::MAX
    &&& forall|i: int| 0 <= i < archetypes.len() ==> (#[trigger] archetypes[i]).id == i && archetypes[i].table_id < usize::MAX
        && archetypes[i].wf()
}

/// Whether the query with data term `fetch` and filter term `filter_term` matches archetype `a`
/// under relation filter `filter`.
pub open spec fn query_matches<Q: FetchState, F: FetchState>(fetch: Q, filter_term: F, filter: QueryRelationFilter, a: Archetype) -> bool {
    &&& fetch.spec_matches(a.columns@, targets_on(filter, QuerySide::Data))
    &&& filter_term.spec_matches(a.columns@, targets_on(filter, QuerySide::Filter))
}

/// `ids` with `id` added at the end, unless it is there already.
pub open spec fn add_new(ids: Seq<usize>, id: usize) -> Seq<usize> {
    if ids.contains(id) {
        ids
    } else {
        ids.push(id)
    }
}

/// The archetype ids (`tables` false) or table ids (`tables` true) a cache holds after looking
/// at the archetypes `lo..hi` in order, starting from `ids`: each matching one is added, once.
pub open spec fn matched_after<Q: FetchState, F: FetchState>(
    ids: Seq<usize>,
    archetypes: Seq<Archetype>,
    lo: int,
    hi: int,
    fetch: Q,
    filter_term: F,
    filter: QueryRelationFilter,
    tables: bool,
) -> Seq<usize>
    decreases hi - lo,
{
    if hi <= lo {
        ids
    } else {
        let prev = matched_after(ids, archetypes, lo, hi - 1, fetch, filter_term, filter, tables);
        let a = archetypes[hi - 1];
        if query_matches(fetch, filter_term, filter, a) {
            add_new(prev, if tables { a.table_id } else { a.id })
        } else {
            prev
        }
    }
}

/// The first archetype index a cache that last saw `generation` has not looked at, among `n`
/// archetypes: all of them were seen when it saw `n`, none when it never saw any.
pub open spec fn first_unseen(generation: usize, n: nat) -> int {
    if generation == n {
        n as int
    } else if generation == usize::MAX {
        0
    } else {
        generation as int
    }
}

/// `new` is `old` brought up to date with `archetypes`: it has looked at every archetype it had
/// not seen, in order, and added those that match.
pub open spec fn cache_updated<Q: FetchState, F: FetchState>(
    old: QueryAccessCache,
    new: QueryAccessCache,
    archetypes: Seq<Archetype>,
    fetch: Q,
    filter_term: F,
    filter: QueryRelationFilter,
) -> bool {
    let lo = first_unseen(old.archetype_generation, archetypes.len());
    &&& new.wf()
    &&& new.archetype_generation == archetypes.len()
    &&& new.matched_archetype_ids@ == matched_after(old.matched_archetype_ids@, archetypes, lo, archetypes.len() as int, fetch, filter_term, filter, false)
    &&& new.matched_table_ids@ == matched_after(old.matched_table_ids@, archetypes, lo, archetypes.len() as int, fetch, filter_term, filter, true)
}

/// The archetype components the query reads (`writes` false) or writes (`writes` true) in the
/// archetypes `lo..hi` it matches under `filter`.
pub open spec fn accessed_in<Q: FetchState, F: FetchState>(
    archetypes: Seq<Archetype>,
    lo: int,
    hi: int,
    fetch: Q,
    filter_term: F,
    filter: QueryRelationFilter,
    writes: bool,
) -> Set<usize>
    decreases hi - lo,
{
    if hi <= lo {
        Set::empty()
    } else {
        let prev = accessed_in(archetypes, lo, hi - 1, fetch, filter_term, filter, writes);
        let a = archetypes[hi - 1];
        if query_matches(fetch, filter_term, filter, a) {
            prev + fetch.spec_archetype_access(a, writes) + filter_term.spec_archetype_access(a, writes)
        } else {
            prev
        }
    }
}

/// What the first `k` caches add to the archetype component access when they catch up with
/// `archetypes`: each looks at the archetypes it has not seen, under its relation filter.
pub open spec fn accessed_by_caches<Q: FetchState, F: FetchState>(
    caches: Seq<QueryAccessCache>,
    filters: Seq<QueryRelationFilter>,
    k: int,
    archetypes: Seq<Archetype>,
    fetch: Q,
    filter_term: F,
    writes: bool,
) -> Set<usize>
    decreases k,
{
    if k <= 0 {
        Set::empty()
    } else {
        accessed_by_caches(caches, filters, k - 1, archetypes, fetch, filter_term, writes) + accessed_in(
            archetypes,
            first_unseen(caches[k - 1].archetype_generation, archetypes.len()),
            archetypes.len() as int,
            fetch,
            filter_term,
            filters[k - 1],
            writes,
        )
    }
}

/// The caches and filters before position `k` are the same in both.
proof fn lemma_accessed_by_caches_prefix<Q: FetchState, F: FetchState>(
    c1: Seq<QueryAccessCache>,
    f1: Seq<QueryRelationFilter>,
    c2: Seq<QueryAccessCache>,
    f2: Seq<QueryRelationFilter>,
    k: int,
    archetypes: Seq<Archetype>,
    fetch: Q,
    filter_term: F,
    writes: bool,
)
    requires
        forall|i: int| 0 <= i < k ==> #[trigger] c1[i] == c2[i] && f1[i] == f2[i],
    ensures
        accessed_by_caches(c1, f1, k, archetypes, fetch, filter_term, writes) == accessed_by_caches(c2, f2, k, archetypes, fetch, filter_term, writes),
    decreases k,
{
    if k > 0 {
        assert(c1[k - 1] == c2[k - 1]);
        lemma_accessed_by_caches_prefix(c1, f1, c2, f2, k - 1, archetypes, fetch, filter_term, writes);
    }
}

/// Brings one cache up to date with the archetypes of the world.
fn update_cache<Q: FetchState, F: FetchState>(
    fetch: &Q,
    filter_term: &F,
    filter: &QueryRelationFilter,
    cache: &mut QueryAccessCache,
    access: &mut Access,
    archetypes: &Vec<Archetype>,
)
    requires
        old(cache).wf(),
        old(access).wf(),
        archetypes_wf(archetypes@),
    ensures
        cache_updated(*old(cache), *final(cache), archetypes@, *fetch, *filter_term, *filter),
        final(access).wf(),
        ({
            let lo = first_unseen(old(cache).archetype_generation, archetypes@.len());
            let n = archetypes@.len() as int;
            &&& final(access).touched() == old(access).touched() + accessed_in(archetypes@, lo, n, *fetch, *filter_term, *filter, false)
                + accessed_in(archetypes@, lo, n, *fetch, *filter_term, *filter, true)
            &&& final(access).written() == old(access).written() + accessed_in(archetypes@, lo, n, *fetch, *filter_term, *filter, true)
        }),
{
    let n = archetypes.len();
    let (lo, hi) = archetype_index_range(cache.archetype_generation, n, n);
    cache.archetype_generation = n;
    let mut i = lo;
    while i < hi
        invariant
            archetypes_wf(archetypes@),
            n == archetypes@.len(),
            hi <= n,
            lo <= i,
            i <= hi || i == lo,
            cache.wf(),
            cache.archetype_generation == n,
            cache.matched_archetype_ids@ == matched_after(old(cache).matched_archetype_ids@, archetypes@, lo as int, i as int, *fetch, *filter_term, *filter, false),
            cache.matched_table_ids@ == matched_after(old(cache).matched_table_ids@, archetypes@, lo as int, i as int, *fetch, *filter_term, *filter, true),
            access.wf(),
            access.touched() == old(access).touched() + accessed_in(archetypes@, lo as int, i as int, *fetch, *filter_term, *filter, false)
                + accessed_in(archetypes@, lo as int, i as int, *fetch, *filter_term, *filter, true),
            access.written() == old(access).written() + accessed_in(archetypes@, lo as int, i as int, *fetch, *filter_term, *filter, true),
        decreases hi - i,
    {
        let a = &archetypes[i];
        let m = fetch.matches_archetype(a, filter, QuerySide::Data) && filter_term.matches_archetype(a, filter, QuerySide::Filter);
        let ghost before = *access;
        if m {
            fetch.update_archetype_component_access(a, access);
            filter_term.update_archetype_component_access(a, access);
            proof {
                let (t0, t1) = (old(access).touched(), old(access).written());
                let (rf, wf) = (accessed_in(archetypes@, lo as int, i as int, *fetch, *filter_term, *filter, false),
                    accessed_in(archetypes@, lo as int, i as int, *fetch, *filter_term, *filter, true));
                let (fr, fw, gr, gw) = (fetch.spec_archetype_access(*a, false), fetch.spec_archetype_access(*a, true),
                    filter_term.spec_archetype_access(*a, false), filter_term.spec_archetype_access(*a, true));
                assert(access.touched() =~= t0 + (rf + fr + gr) + (wf + fw + gw));
                assert(access.written() =~= t1 + (wf + fw + gw));
            }
        }
        cache.new_archetype(m, a.id, a.table_id);
        i += 1;
    }
    proof {
        let start = first_unseen(old(cache).archetype_generation, n as nat);
        let g = old(cache).archetype_generation;
        if g == n {
            assert(i == 0 && start == n);
        } else if g == usize::MAX {
            assert(i == n && start == 0);
        } else if g <= n {
            assert(i == n && start == g);
        } else {
            assert(i == lo && start == g);
        }
        if hi <= lo {
            assert(access.touched() =~= old(access).touched() + Set::<usize>::empty() + Set::<usize>::empty());
            assert(access.written() =~= old(access).written() + Set::<usize>::empty());
        }
    }
}

/// The position of a filter among `filters` that requires the same targets as `filter`.
fn find_filter(filters: &Vec<QueryRelationFilter>, filter: &QueryRelationFilter) -> (r: Option<usize>)
    ensures
        match r {
            Some(i) => i < filters@.len() && same_targets(filters@[i as int], *filter),
            None => forall|j: int| 0 <= j < filters@.len() ==> !same_targets(#[trigger] filters@[j], *filter),
        },
{
    let mut i: usize = 0;
    while i < filters.len()
        invariant
            i <= filters@.len(),
            forall|j: int| 0 <= j < i ==> !same_targets(#[trigger] filters@[j], *filter),
        decreases filters@.len() - i,
    {
        if same_filter(&filters[i], filter) {
            return Some(i);
        }
        i += 1;
    }
    None
}

/// The cached state of a query whose data is the term of `fetch_state` and whose filter is the
/// term of `filter_state`, over the world `world_id`.
pub struct QueryState<Q: FetchState, F: FetchState> {
    pub world_id: u64,
    pub component_access: FilteredAccess,
    /// The archetype components the query reads and writes in the archetypes it matches.
    pub archetype_component_access: Access,
    /// The relation filters the query has been used with, each with its cache at the same
    /// position of `relation_filter_accesses`.
    pub relation_filters: Vec<QueryRelationFilter>,
    pub relation_filter_accesses: Vec<QueryAccessCache>,
    /// The position of the relation filter in use.
    pub current_relation_filter: usize,
    pub fetch_state: Q,
    pub filter_state: F,
}

impl<Q: FetchState, F: FetchState> QueryState<Q, F> {
    /// Each relation filter has its cache; no two filters require the same targets.
    pub open spec fn wf(&self) -> bool {
        &&& self.relation_filters@.len() == self.relation_filter_accesses@.len()
        &&& self.current_relation_filter < self.relation_filters@.len()
        &&& self.archetype_component_access.wf()
        &&& forall|i: int| 0 <= i < self.relation_filters@.len() ==> (#[trigger] self.relation_filters@[i]).wf()
        &&& forall|i: int| 0 <= i < self.relation_filter_accesses@.len() ==> (#[trigger] self.relation_filter_accesses@[i]).wf()
        &&& forall|i: int, j: int| 0 <= i < j < self.relation_filters@.len()
            ==> !same_targets(#[trigger] self.relation_filters@[i], #[trigger] self.relation_filters@[j])
    }

    /// The relation filter in use.
    pub open spec fn current_filter(&self) -> QueryRelationFilter {
        self.relation_filters@[self.current_relation_filter as int]
    }

    /// The cache of the relation filter in use.
    pub open spec fn current_cache(&self) -> QueryAccessCache {
        self.relation_filter_accesses@[self.current_relation_filter as int]
    }

    /// The state of a query over the world `world_id`, whose archetypes are `archetypes`: it
    /// records the components its data term accesses, then, apart, those its filter term
    /// accesses, and adds the second to the first without checking one against the other; it
    /// starts with the relation filter that requires nothing. No access of a term conflicts with one
    /// the same term recorded before (see `access_conflict`).
    pub fn new(world_id: u64, fetch_state: Q, filter_state: F, archetypes: &Vec<Archetype>) -> (s: Self)
        requires
            archetypes_wf(archetypes@),
            record_terms(Seq::empty(), Seq::empty(), fetch_state.spec_access()).2 is None,
            record_terms(Seq::empty(), Seq::empty(), filter_state.spec_access()).2 is None,
        ensures
            ({
                let data = record_terms(Seq::empty(), Seq::empty(), fetch_state.spec_access());
                let filtered = record_terms(Seq::empty(), Seq::empty(), filter_state.spec_access());
                {
                    &&& s.wf()
                    &&& s.world_id == world_id
                    &&& s.fetch_state == fetch_state
                    &&& s.filter_state == filter_state
                    &&& s.component_access.reads@ == data.0 + filtered.0
                    &&& s.component_access.writes@ == data.1 + filtered.1
                    &&& s.relation_filters@.len() == 1
                    &&& s.current_relation_filter == 0
                    &&& forall|side: QuerySide, kind: TypeId| s.current_filter().targets_for(side, kind) == Seq::<u64>::empty()
                    &&& s.current_cache().archetype_generation == archetypes@.len()
                    &&& s.current_cache().matched_archetype_ids@ == matched_after(Seq::empty(), archetypes@, 0, archetypes@.len() as int, fetch_state, filter_state, s.current_filter(), false)
                    &&& s.current_cache().matched_table_ids@ == matched_after(Seq::empty(), archetypes@, 0, archetypes@.len() as int, fetch_state, filter_state, s.current_filter(), true)
                    &&& s.archetype_component_access.touched() == accessed_in(archetypes@, 0, archetypes@.len() as int, fetch_state, filter_state, s.current_filter(), false)
                        + accessed_in(archetypes@, 0, archetypes@.len() as int, fetch_state, filter_state, s.current_filter(), true)
                    &&& s.archetype_component_access.written() == accessed_in(archetypes@, 0, archetypes@.len() as int, fetch_state, filter_state, s.current_filter(), true)
                }
            }),
    {
        let mut component_access = FilteredAccess::new();
        let _ = fetch_state.update_component_access(&mut component_access);
        let mut filter_access = FilteredAccess::new();
        let _ = filter_state.update_component_access(&mut filter_access);
        component_access.extend(&filter_access);
        let filter = QueryRelationFilter::new();
        let mut cache = QueryAccessCache::new();
        let mut archetype_component_access = Access::new();
        update_cache(&fetch_state, &filter_state, &filter, &mut cache, &mut archetype_component_access, archetypes);
        proof {
            let n = archetypes@.len() as int;
            let (r, w) = (accessed_in(archetypes@, 0, n, fetch_state, filter_state, filter, false),
                accessed_in(archetypes@, 0, n, fetch_state, filter_state, filter, true));
            assert(archetype_component_access.touched() =~= r + w);
            assert(archetype_component_access.written() =~= w);
        }
        let mut relation_filters: Vec<QueryRelationFilter> = Vec::new();
        relation_filters.push(filter);
        let mut relation_filter_accesses: Vec<QueryAccessCache> = Vec::new();
        relation_filter_accesses.push(cache);
        QueryState {
            world_id,
            component_access,
            archetype_component_access,
            relation_filters,
            relation_filter_accesses,
            current_relation_filter: 0,
            fetch_state,
            filter_state,
        }
    }

    /// The first access of the data term, then of the filter term, that conflicts with one the
    /// same term recorded before, if any: `new` accepts the two terms exactly when there is none.
    pub fn access_conflict(fetch_state: &Q, filter_state: &F) -> (r: Option<AccessConflict>)
        ensures
            ({
                let data = record_terms(Seq::empty(), Seq::empty(), fetch_state.spec_access());
                let filtered = record_terms(Seq::empty(), Seq::empty(), filter_state.spec_access());
                r == match data.2 {
                    Some(e) => Some(e),
                    None => filtered.2,
                }
            }),
    {
        let mut data = FilteredAccess::new();
        match fetch_state.update_component_access(&mut data) {
            Err(e) => {
                return Some(e);
            },
            Ok(_) => {},
        }
        let mut filtered = FilteredAccess::new();
        match filter_state.update_component_access(&mut filtered) {
            Err(e) => Some(e),
            Ok(_) => None,
        }
    }

    /// The cache of the relation filter in use.
    pub fn current_query_access_cache(&self) -> (c: &QueryAccessCache)
        requires
            self.wf(),
        ensures
            *c == self.current_cache(),
    {
        &self.relation_filter_accesses[self.current_relation_filter]
    }

    /// Checks an entity before an item is fetched for it, under the relation filter in use: it
    /// must exist, its archetype must be matched, and the query's filter must accept its row
    /// (`row_accepted`, the filter's answer for that row). The item is then the one fetched at
    /// that row.
    pub fn check_entity(&self, location: Option<EntityLocation>, row_accepted: bool) -> (r: Result<EntityLocation, QueryEntityError>)
        requires
            self.wf(),
        ensures
            match location {
                None => r == Err::<EntityLocation, QueryEntityError>(QueryEntityError::NoSuchEntity),
                Some(l) => if self.current_cache().matched_archetype_ids@.contains(l.archetype_id) && row_accepted {
                    r == Ok::<EntityLocation, QueryEntityError>(l)
                } else {
                    r == Err::<EntityLocation, QueryEntityError>(QueryEntityError::QueryDoesNotMatch)
                },
            },
    {
        self.relation_filter_accesses[self.current_relation_filter].check_entity(location, row_accepted)
    }

    /// The rows the query runs its function on under the relation filter in use: of every row of
    /// each matched table when it walks tables, otherwise of every row of each matched archetype,
    /// those its filter accepts by its answers `accepted` (one list per storage, one answer per
    /// row). The item handed to the function for a row is the one fetched at that row.
    pub fn for_each_plan(&self, dense: bool, table_lens: &Vec<usize>, archetype_lens: &Vec<usize>, accepted: &Vec<Vec<bool>>) -> (r: Vec<(usize, usize)>)
        requires
            self.wf(),
            dense ==> lengths_known(self.current_cache().matched_table_ids@, table_lens@),
            !dense ==> lengths_known(self.current_cache().matched_archetype_ids@, archetype_lens@),
        ensures
            r@ == if dense {
                visit_order(self.current_cache().matched_table_ids@, table_lens@)
            } else {
                visit_order(self.current_cache().matched_archetype_ids@, archetype_lens@)
            }.filter(|p: (usize, usize)| row_accepted(accepted@, p)),
    {
        self.relation_filter_accesses[self.current_relation_filter].for_each_plan(dense, table_lens, archetype_lens, accepted)
    }

    /// The batches a parallel iteration hands out under the relation filter in use. Each batch
    /// runs the rows it covers that the filter accepts (see `accepted_rows` and
    /// `law_parallel_runs_accepted_rows`; each batch covers at most `batch_size` rows of one
    /// storage, `law_batches_are_bounded`).
    pub fn par_for_each_plan(&self, dense: bool, table_lens: &Vec<usize>, archetype_lens: &Vec<usize>, batch_size: usize) -> (r: Vec<(usize, usize, usize)>)
        requires
            self.wf(),
            batch_size > 0,
            dense ==> lengths_known(self.current_cache().matched_table_ids@, table_lens@),
            !dense ==> lengths_known(self.current_cache().matched_archetype_ids@, archetype_lens@),
        ensures
            r@ == if dense {
                batch_plan(self.current_cache().matched_table_ids@, table_lens@, batch_size as nat)
            } else {
                batch_plan(self.current_cache().matched_archetype_ids@, archetype_lens@, batch_size as nat)
            },
    {
        self.relation_filter_accesses[self.current_relation_filter].par_for_each_plan(dense, table_lens, archetype_lens, batch_size)
    }

    /// Brings the cache of every relation filter up to date with the archetypes `archetypes` of
    /// world `world_id`, the world the state was made for.
    pub fn validate_world_and_update_archetypes(&mut self, world_id: u64, archetypes: &Vec<Archetype>)
        requires
            old(self).wf(),
            world_id == old(self).world_id,
            archetypes_wf(archetypes@),
        ensures
            final(self).wf(),
            ({
                &&& final(self).world_id == old(self).world_id
                &&& final(self).component_access == old(self).component_access
                &&& final(self).relation_filters@ == old(self).relation_filters@
                &&& final(self).current_relation_filter == old(self).current_relation_filter
                &&& final(self).fetch_state == old(self).fetch_state
                &&& final(self).filter_state == old(self).filter_state
                &&& final(self).relation_filter_accesses@.len() == old(self).relation_filter_accesses@.len()
                &&& forall|i: int| 0 <= i < old(self).relation_filter_accesses@.len() ==> cache_updated(
                    #[trigger] old(self).relation_filter_accesses@[i],
                    final(self).relation_filter_accesses@[i],
                    archetypes@,
                    old(self).fetch_state,
                    old(self).filter_state,
                    old(self).relation_filters@[i],
                )
                &&& final(self).archetype_component_access.touched() == old(self).archetype_component_access.touched()
                    + accessed_by_caches(old(self).relation_filter_accesses@, old(self).relation_filters@, old(self).relation_filters@.len() as int, archetypes@, old(self).fetch_state, old(self).filter_state, false)
                    + accessed_by_caches(old(self).relation_filter_accesses@, old(self).relation_filters@, old(self).relation_filters@.len() as int, archetypes@, old(self).fetch_state, old(self).filter_state, true)
                &&& final(self).archetype_component_access.written() == old(self).archetype_component_access.written()
                    + accessed_by_caches(old(self).relation_filter_accesses@, old(self).relation_filters@, old(self).relation_filters@.len() as int, archetypes@, old(self).fetch_state, old(self).filter_state, true)
            }),
    {
        self.update_archetypes(archetypes);
    }

    /// Brings the cache of every relation filter up to date with the archetypes `archetypes`.
    fn update_archetypes(&mut self, archetypes: &Vec<Archetype>)
        requires
            old(self).wf(),
            archetypes_wf(archetypes@),
        ensures
            final(self).wf(),
            final(self).world_id == old(self).world_id,
            final(self).component_access == old(self).component_access,
            final(self).relation_filters@ == old(self).relation_filters@,
            final(self).current_relation_filter == old(self).current_relation_filter,
            final(self).fetch_state == old(self).fetch_state,
            final(self).filter_state == old(self).filter_state,
            final(self).relation_filter_accesses@.len() == old(self).relation_filter_accesses@.len(),
            forall|i: int| 0 <= i < old(self).relation_filter_accesses@.len() ==> cache_updated(
                #[trigger] old(self).relation_filter_accesses@[i],
                final(self).relation_filter_accesses@[i],
                archetypes@,
                old(self).fetch_state,
                old(self).filter_state,
                old(self).relation_filters@[i],
            ),
            final(self).archetype_component_access.touched() == old(self).archetype_component_access.touched()
                + accessed_by_caches(old(self).relation_filter_accesses@, old(self).relation_filters@, old(self).relation_filters@.len() as int, archetypes@, old(self).fetch_state, old(self).filter_state, false)
                + accessed_by_caches(old(self).relation_filter_accesses@, old(self).relation_filters@, old(self).relation_filters@.len() as int, archetypes@, old(self).fetch_state, old(self).filter_state, true),
            final(self).archetype_component_access.written() == old(self).archetype_component_access.written()
                + accessed_by_caches(old(self).relation_filter_accesses@, old(self).relation_filters@, old(self).relation_filters@.len() as int, archetypes@, old(self).fetch_state, old(self).filter_state, true),
    {
        let n = self.relation_filter_accesses.len();
        let mut i: usize = 0;
        while i < n
            invariant
                archetypes_wf(archetypes@),
                n == old(self).relation_filter_accesses@.len(),
                n == self.relation_filter_accesses@.len(),
                i <= n,
                old(self).wf(),
                self.world_id == old(self).world_id,
                self.component_access == old(self).component_access,
                self.relation_filters@ == old(self).relation_filters@,
                self.current_relation_filter == old(self).current_relation_filter,
                self.fetch_state == old(self).fetch_state,
                self.filter_state == old(self).filter_state,
                forall|j: int| 0 <= j < i ==> cache_updated(
                    #[trigger] old(self).relation_filter_accesses@[j],
                    self.relation_filter_accesses@[j],
                    archetypes@,
                    old(self).fetch_state,
                    old(self).filter_state,
                    old(self).relation_filters@[j],
                ),
                forall|j: int| i <= j < n ==> #[trigger] self.relation_filter_accesses@[j] == old(self).relation_filter_accesses@[j],
                self.archetype_component_access.wf(),
                self.archetype_component_access.touched() == old(self).archetype_component_access.touched()
                    + accessed_by_caches(old(self).relation_filter_accesses@, old(self).relation_filters@, i as int, archetypes@, old(self).fetch_state, old(self).filter_state, false) + accessed_by_caches(old(self).relation_filter_accesses@, old(self).relation_filters@, i as int, archetypes@, old(self).fetch_state, old(self).filter_state, true),
                self.archetype_component_access.written() == old(self).archetype_component_access.written()
                    + accessed_by_caches(old(self).relation_filter_accesses@, old(self).relation_filters@, i as int, archetypes@, old(self).fetch_state, old(self).filter_state, true),
            decreases n - i,
        {
            let mut cache = self.relation_filter_accesses.remove(i);
            let ghost before = self.archetype_component_access;
            update_cache(&self.fetch_state, &self.filter_state, &self.relation_filters[i], &mut cache, &mut self.archetype_component_access, archetypes);
            self.relation_filter_accesses.insert(i, cache);
            proof {
                let lo = first_unseen(old(self).relation_filter_accesses@[i as int].archetype_generation, archetypes@.len());
                let len = archetypes@.len() as int;
                let f = old(self).relation_filters@[i as int];
                let (ar, aw) = (accessed_in(archetypes@, lo, len, old(self).fetch_state, old(self).filter_state, f, false),
                    accessed_in(archetypes@, lo, len, old(self).fetch_state, old(self).filter_state, f, true));
                let (br, bw) = (accessed_by_caches(old(self).relation_filter_accesses@, old(self).relation_filters@, i as int, archetypes@, old(self).fetch_state, old(self).filter_state, false), accessed_by_caches(old(self).relation_filter_accesses@, old(self).relation_filters@, i as int, archetypes@, old(self).fetch_state, old(self).filter_state, true));
                assert(accessed_by_caches(old(self).relation_filter_accesses@, old(self).relation_filters@, i + 1, archetypes@, old(self).fetch_state, old(self).filter_state, false) == br + ar);
                assert(accessed_by_caches(old(self).relation_filter_accesses@, old(self).relation_filters@, i + 1, archetypes@, old(self).fetch_state, old(self).filter_state, true) == bw + aw);
                assert(self.archetype_component_access.touched() =~= old(self).archetype_component_access.touched() + (br + ar) + (bw + aw));
                assert(self.archetype_component_access.written() =~= old(self).archetype_component_access.written() + (bw + aw));
            }
            i += 1;
        }
        proof {
            assert forall|j: int| 0 <= j < self.relation_filter_accesses@.len() implies (#[trigger] self.relation_filter_accesses@[j]).wf() by {
                assert(cache_updated(old(self).relation_filter_accesses@[j], self.relation_filter_accesses@[j], archetypes@,
                    old(self).fetch_state, old(self).filter_state, old(self).relation_filters@[j]));
            }
        }
    }

    /// Puts `filter` in use, with a new cache when no relation filter used before requires the
    /// same targets; then brings every cache up to date with the archetypes `archetypes` of world
    /// `world_id`, the world the state was made for.
    pub fn set_relation_filter(&mut self, world_id: u64, archetypes: &Vec<Archetype>, filter: QueryRelationFilter)
        requires
            old(self).wf(),
            world_id == old(self).world_id,
            archetypes_wf(archetypes@),
            filter.wf(),
        ensures
            final(self).wf(),
            ({
                &&& final(self).world_id == old(self).world_id
                &&& final(self).component_access == old(self).component_access
                &&& final(self).fetch_state == old(self).fetch_state
                &&& final(self).filter_state == old(self).filter_state
                &&& same_targets(final(self).current_filter(), filter)
                &&& forall|i: int| 0 <= i < old(self).relation_filters@.len() && same_targets(#[trigger] old(self).relation_filters@[i], filter)
                    ==> final(self).relation_filters@ == old(self).relation_filters@ && final(self).current_relation_filter == i
                &&& (forall|i: int| 0 <= i < old(self).relation_filters@.len() ==> !same_targets(#[trigger] old(self).relation_filters@[i], filter))
                    ==> final(self).relation_filters@ == old(self).relation_filters@.push(filter)
                        && final(self).current_relation_filter == old(self).relation_filters@.len()
                &&& forall|i: int| 0 <= i < old(self).relation_filter_accesses@.len() ==> cache_updated(
                    #[trigger] old(self).relation_filter_accesses@[i],
                    final(self).relation_filter_accesses@[i],
                    archetypes@,
                    old(self).fetch_state,
                    old(self).filter_state,
                    old(self).relation_filters@[i],
                )
                &&& ({
                    let fresh = forall|i: int| 0 <= i < old(self).relation_filters@.len() ==> !same_targets(#[trigger] old(self).relation_filters@[i], filter);
                    let n = archetypes@.len() as int;
                    let extra_r = if fresh { accessed_in(archetypes@, 0, n, old(self).fetch_state, old(self).filter_state, filter, false) } else { Set::<usize>::empty() };
                    let extra_w = if fresh { accessed_in(archetypes@, 0, n, old(self).fetch_state, old(self).filter_state, filter, true) } else { Set::<usize>::empty() };
                    let by_r = accessed_by_caches(old(self).relation_filter_accesses@, old(self).relation_filters@, old(self).relation_filters@.len() as int, archetypes@, old(self).fetch_state, old(self).filter_state, false);
                    let by_w = accessed_by_caches(old(self).relation_filter_accesses@, old(self).relation_filters@, old(self).relation_filters@.len() as int, archetypes@, old(self).fetch_state, old(self).filter_state, true);
                    &&& final(self).archetype_component_access.touched() == old(self).archetype_component_access.touched() + by_r + by_w + extra_r + extra_w
                    &&& final(self).archetype_component_access.written() == old(self).archetype_component_access.written() + by_w + extra_w
                })
                &&& final(self).current_relation_filter == old(self).relation_filters@.len() ==> {
                    &&& final(self).current_cache().archetype_generation == archetypes@.len()
                    &&& final(self).current_cache().matched_archetype_ids@ == matched_after(Seq::empty(), archetypes@, 0, archetypes@.len() as int, old(self).fetch_state, old(self).filter_state, filter, false)
                    &&& final(self).current_cache().matched_table_ids@ == matched_after(Seq::empty(), archetypes@, 0, archetypes@.len() as int, old(self).fetch_state, old(self).filter_state, filter, true)
                }
            }),
    {
        match find_filter(&self.relation_filters, &filter) {
            Some(i) => {
                proof {
                    assert forall|j: int| 0 <= j < old(self).relation_filters@.len() && same_targets(#[trigger] old(self).relation_filters@[j], filter)
                        implies j == i by {
                        if j != i {
                            let a = old(self).relation_filters@[j];
                            let b = old(self).relation_filters@[i as int];
                            assert(same_targets(a, b)) by {
                                assert forall|s: QuerySide, k: TypeId| #[trigger] a.targets_for(s, k) == b.targets_for(s, k) by {
                                    assert(a.targets_for(s, k) == filter.targets_for(s, k));
                                    assert(b.targets_for(s, k) == filter.targets_for(s, k));
                                }
                            }
                            if j < i {
                                assert(!same_targets(old(self).relation_filters@[j], old(self).relation_filters@[i as int]));
                            } else {
                                assert(!same_targets(old(self).relation_filters@[i as int], old(self).relation_filters@[j]));
                                assert(same_targets(b, a)) by {
                                    assert forall|s: QuerySide, k: TypeId| #[trigger] b.targets_for(s, k) == a.targets_for(s, k) by {
                                        assert(a.targets_for(s, k) == filter.targets_for(s, k));
                                    }
                                }
                            }
                        }
                    }
                }
                self.current_relation_filter = i;
            },
            None => {
                let cache = QueryAccessCache::new();
                self.current_relation_filter = self.relation_filters.len();
                self.relation_filters.push(filter);
                self.relation_filter_accesses.push(cache);
                proof {
                    assert forall|i: int, j: int| 0 <= i < j < self.relation_filters@.len()
                        implies !same_targets(#[trigger] self.relation_filters@[i], #[trigger] self.relation_filters@[j]) by {
                        if j == self.relation_filters@.len() - 1 {
                            assert(!same_targets(old(self).relation_filters@[i], filter));
                        } else {
                            assert(self.relation_filters@[j] == old(self).relation_filters@[j]);
                        }
                    }
                }
            },
        }
        let ghost mid = *self;
        proof {
            assert forall|i: int| 0 <= i < old(self).relation_filter_accesses@.len() implies
                #[trigger] mid.relation_filter_accesses@[i] == old(self).relation_filter_accesses@[i]
                && mid.relation_filters@[i] == old(self).relation_filters@[i] by {
            }
        }
        self.update_archetypes(archetypes);
        proof {
            assert(same_targets(self.current_filter(), filter));
            assert forall|i: int| 0 <= i < old(self).relation_filter_accesses@.len() implies cache_updated(
                    #[trigger] old(self).relation_filter_accesses@[i],
                    self.relation_filter_accesses@[i],
                    archetypes@,
                    old(self).fetch_state,
                    old(self).filter_state,
                    old(self).relation_filters@[i],
                ) by {
                assert(cache_updated(mid.relation_filter_accesses@[i], self.relation_filter_accesses@[i], archetypes@,
                    mid.fetch_state, mid.filter_state, mid.relation_filters@[i]));
            }
            let on = old(self).relation_filters@.len() as int;
            let n = archetypes@.len() as int;
            lemma_accessed_by_caches_prefix(mid.relation_filter_accesses@, mid.relation_filters@, old(self).relation_filter_accesses@,
                old(self).relation_filters@, on, archetypes@, mid.fetch_state, mid.filter_state, false);
            lemma_accessed_by_caches_prefix(mid.relation_filter_accesses@, mid.relation_filters@, old(self).relation_filter_accesses@,
                old(self).relation_filters@, on, archetypes@, mid.fetch_state, mid.filter_state, true);
            let by_r = accessed_by_caches(old(self).relation_filter_accesses@, old(self).relation_filters@, on, archetypes@, old(self).fetch_state, old(self).filter_state, false);
            let by_w = accessed_by_caches(old(self).relation_filter_accesses@, old(self).relation_filters@, on, archetypes@, old(self).fetch_state, old(self).filter_state, true);
            if mid.relation_filters@.len() == on {
                assert(self.archetype_component_access.touched() =~= old(self).archetype_component_access.touched() + by_r + by_w
                    + Set::<usize>::empty() + Set::<usize>::empty());
                assert(self.archetype_component_access.written() =~= old(self).archetype_component_access.written() + by_w + Set::<usize>::empty());
            } else {
                let extra_r = accessed_in(archetypes@, 0, n, old(self).fetch_state, old(self).filter_state, filter, false);
                let extra_w = accessed_in(archetypes@, 0, n, old(self).fetch_state, old(self).filter_state, filter, true);
                assert(mid.relation_filters@[on] == filter);
                assert(accessed_by_caches(mid.relation_filter_accesses@, mid.relation_filters@, on + 1, archetypes@, mid.fetch_state, mid.filter_state, false) == by_r + extra_r);
                assert(accessed_by_caches(mid.relation_filter_accesses@, mid.relation_filters@, on + 1, archetypes@, mid.fetch_state, mid.filter_state, true) == by_w + extra_w);
                assert(self.archetype_component_access.touched() =~= old(self).archetype_component_access.touched() + by_r + by_w + extra_r + extra_w);
                assert(self.archetype_component_access.written() =~= old(self).archetype_component_access.written() + by_w + extra_w);
            }
            if self.current_relation_filter == old(self).relation_filters@.len() {
                let c = self.current_relation_filter as int;
                assert(cache_updated(mid.relation_filter_accesses@[c], self.relation_filter_accesses@[c], archetypes@,
                    mid.fetch_state, mid.filter_state, mid.relation_filters@[c]));
                assert(mid.relation_filters@[c] == filter);
            }
        }
    }
}

/// A cache that started empty and has looked at the first `n` archetypes holds the id of each of
/// them that the query matches, and no other id, each once; and the table of each of them that
/// the query matches, and no other table, each once.
pub proof fn law_cache_holds_matching_archetypes<Q: FetchState, F: FetchState>(
    archetypes: Seq<Archetype>,
    n: int,
    fetch: Q,
    filter_term: F,
    filter: QueryRelationFilter,
)
    requires
        archetypes_wf(archetypes),
        0 <= n <= archetypes.len(),
    ensures
        ({
            let ids = matched_after(Seq::empty(), archetypes, 0, n, fetch, filter_term, filter, false);
            let tables = matched_after(Seq::empty(), archetypes, 0, n, fetch, filter_term, filter, true);
            &&& no_duplicates(ids)
            &&& forall|x: usize| #[trigger] ids.contains(x) <==> (x < n && query_matches(fetch, filter_term, filter, archetypes[x as int]))
            &&& no_duplicates(tables)
            &&& forall|t: usize| #[trigger] tables.contains(t) <==> exists|i: int| 0 <= i < n
                && #[trigger] archetypes[i].table_id == t && query_matches(fetch, filter_term, filter, archetypes[i])
        }),
    decreases n,
{
    if n > 0 {
        law_cache_holds_matching_archetypes(archetypes, n - 1, fetch, filter_term, filter);
        let prev = matched_after(Seq::<usize>::empty(), archetypes, 0, n - 1, fetch, filter_term, filter, false);
        let prev_t = matched_after(Seq::<usize>::empty(), archetypes, 0, n - 1, fetch, filter_term, filter, true);
        let ids = matched_after(Seq::<usize>::empty(), archetypes, 0, n, fetch, filter_term, filter, false);
        let tables = matched_after(Seq::<usize>::empty(), archetypes, 0, n, fetch, filter_term, filter, true);
        let a = archetypes[n - 1];
        assert(a.id == n - 1);
        assert(!prev.contains(a.id));
        if query_matches(fetch, filter_term, filter, a) {
            assert(ids == prev.push(a.id));
            assert forall|x: usize| #[trigger] ids.contains(x) <==> (x < n && query_matches(fetch, filter_term, filter, archetypes[x as int])) by {
                if x == n - 1 {
                    assert(ids[prev.len() as int] == x);
                } else if ids.contains(x) {
                    let j = choose|j: int| 0 <= j < ids.len() && ids[j] == x;
                    assert(prev[j] == x);
                    assert(prev.contains(x));
                } else if x < n - 1 && query_matches(fetch, filter_term, filter, archetypes[x as int]) {
                    assert(prev.contains(x));
                    let j = choose|j: int| 0 <= j < prev.len() && prev[j] == x;
                    assert(ids[j] == x);
                }
            }
        }
        assert forall|t: usize| #[trigger] tables.contains(t) <==> exists|i: int| 0 <= i < n
            && #[trigger] archetypes[i].table_id == t && query_matches(fetch, filter_term, filter, archetypes[i]) by {
            if tables.contains(t) {
                let j = choose|j: int| 0 <= j < tables.len() && tables[j] == t;
                if j < prev_t.len() && prev_t[j] == t {
                    assert(prev_t.contains(t));
                    let i = choose|i: int| 0 <= i < n - 1 && #[trigger] archetypes[i].table_id == t && query_matches(fetch, filter_term, filter, archetypes[i]);
                    assert(0 <= i < n);
                } else {
                    assert(archetypes[n - 1].table_id == t);
                }
            }
            if exists|i: int| 0 <= i < n && #[trigger] archetypes[i].table_id == t && query_matches(fetch, filter_term, filter, archetypes[i]) {
                let i = choose|i: int| 0 <= i < n && #[trigger] archetypes[i].table_id == t && query_matches(fetch, filter_term, filter, archetypes[i]);
                if i < n - 1 {
                    assert(prev_t.contains(t));
                    let j = choose|j: int| 0 <= j < prev_t.len() && prev_t[j] == t;
                    assert(tables[j] == t);
                } else if !prev_t.contains(t) {
                    assert(tables[prev_t.len() as int] == t);
                } else {
                    let j = choose|j: int| 0 <= j < prev_t.len() && prev_t[j] == t;
                    assert(tables[j] == t);
                }
            }
        }
    }
}

} // verus!
