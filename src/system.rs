//! The engine: the atlas of cells, the frontier of cells waiting to be
//! collapsed with their entropies, the compatibility cache, and the run's
//! configuration.
use vstd::prelude::*;
use crate::cache::{DomainCache, cache_extends};
use crate::entropy::{entropy_key, entropy_of};
use crate::node::Node;
use crate::select::{
    ENTROPY_MAX, chunk_views, get_lowest_entropy, lemma_lowest_is_minimum, lemma_partitioned_lowest, lowest,
    lowest_of_chunks, split_chunks,
};
use crate::variant::{NodeVariants, domain_weights, get_domain_weights};
use crate::weighted::pick_weighted;

verus! {

/// A misconfiguration of the run.
#[derive(Clone, Copy, Debug, PartialEq, Eq, Structural)]
pub enum ConfigError {
    /// Selection cannot be split among zero workers.
    ZeroThreads,
}

/// The cell at `p`, if the atlas holds one.
pub open spec fn cell_in<V>(atlas: Seq<Option<Node<V>>>, p: int) -> Option<Node<V>> {
    if 0 <= p < atlas.len() { atlas[p] } else { None }
}

/// The atlas holds a cell at `p` and it has not been collapsed.
pub open spec fn is_open<V>(atlas: Seq<Option<Node<V>>>, p: int) -> bool {
    cell_in(atlas, p) is Some && !cell_in(atlas, p).unwrap().collapsed
}

/// The variants of those positions in `ps` that hold cells, in order.
pub open spec fn neighbour_types<V>(atlas: Seq<Option<Node<V>>>, ps: Seq<usize>) -> Seq<V>
    decreases ps.len(),
{
    if ps.len() == 0 {
        Seq::empty()
    } else {
        let rest = neighbour_types(atlas, ps.drop_last());
        match cell_in(atlas, ps.last() as int) {
            Some(n) => rest.push(n.node_type),
            None => rest,
        }
    }
}

/// The names of the variants laid end to end.
pub open spec fn joined_names<V: NodeVariants>(vs: Seq<V>) -> Seq<char>
    decreases vs.len(),
{
    if vs.len() == 0 {
        Seq::empty()
    } else {
        joined_names(vs.drop_last()) + vs.last().spec_name()
    }
}

/// The compatibility-cache key of a candidate among resolved neighbours.
pub open spec fn candidate_key<V: NodeVariants>(candidate: V, neighbours: Seq<V>) -> Seq<char> {
    candidate.spec_name() + joined_names(neighbours)
}

/// Every neighbour lets the candidate stand beside it, and the candidate's
/// context rule accepts the neighbourhood.
pub open spec fn fits<V: NodeVariants>(candidate: V, neighbours: Seq<V>) -> bool {
    &&& forall|j: int| 0 <= j < neighbours.len() ==> #[trigger] neighbours[j].spec_next_to(candidate)
    &&& candidate.spec_can_spawn(neighbours)
}

/// The weight a candidate is drawn with: its base weight times its
/// multiplier among the neighbours.
pub open spec fn adjusted_weight<V: NodeVariants>(candidate: V, weight: u32, neighbours: Seq<V>) -> int {
    weight * candidate.spec_multiplier(neighbours)
}

/// A candidate may be drawn: positive base weight, a cached verdict that it
/// fits, and a positive adjusted weight.
pub open spec fn qualifies<V: NodeVariants>(
    cache: Map<Seq<char>, bool>,
    candidate: V,
    weight: u32,
    neighbours: Seq<V>,
) -> bool {
    &&& weight > 0
    &&& cache.contains_key(candidate_key(candidate, neighbours))
    &&& cache[candidate_key(candidate, neighbours)]
    &&& adjusted_weight(candidate, weight, neighbours) > 0
}

/// The frontier without the entry of position `p`.
pub open spec fn without(queue: Seq<(usize, u32)>, p: usize) -> Seq<(usize, u32)>
    decreases queue.len(),
{
    if queue.len() == 0 {
        Seq::empty()
    } else if queue.last().0 == p {
        without(queue.drop_last(), p)
    } else {
        without(queue.drop_last(), p).push(queue.last())
    }
}

/// The frontier with position `p` given entropy `e`: its entry updated in
/// place where it has one, else appended.
pub open spec fn with_entry(queue: Seq<(usize, u32)>, p: usize, e: u32) -> Seq<(usize, u32)> {
    if exists|i: int| 0 <= i < queue.len() && queue[i].0 == p {
        queue.map_values(|x: (usize, u32)| if x.0 == p { (p, e) } else { x })
    } else {
        queue.push((p, e))
    }
}

/// The highest position of an uncollapsed cell, or 0 where there is none.
pub open spec fn last_open<V>(atlas: Seq<Option<Node<V>>>) -> usize
    decreases atlas.len(),
{
    if atlas.len() == 0 {
        0
    } else if is_open(atlas, atlas.len() - 1) {
        (atlas.len() - 1) as usize
    } else {
        last_open(atlas.drop_last())
    }
}

/// No position has two entries.
pub open spec fn positions_unique(queue: Seq<(usize, u32)>) -> bool {
    forall|i: int, j: int| 0 <= i < j < queue.len() ==> queue[i].0 != queue[j].0
}

/// What collapsing the cell at `position` does, given the atlas and cache
/// before (`atlas`, `cache`) and after (`new_atlas`, `new_cache`), and the
/// cell `r` handed back.
///
/// Each member of the domain is judged among the variants of the cell's
/// neighbours that the atlas holds: by the cache where its key is there,
/// else by `fits`, whose verdict is then stored.  A candidate qualifies with
/// a positive base weight, a fitting verdict and a positive adjusted weight.
/// The cell becomes one qualifying candidate, drawn at random, or the
/// invalid sentinel where none qualifies; either way it is collapsed.
pub open spec fn collapse_outcome<V: NodeVariants>(
    atlas: Seq<Option<Node<V>>>,
    cache: Map<Seq<char>, bool>,
    position: int,
    new_atlas: Seq<Option<Node<V>>>,
    new_cache: Map<Seq<char>, bool>,
    r: Node<V>,
) -> bool {
    let cell = atlas[position].unwrap();
    let nbrs = neighbour_types(atlas, cell.connecting_nodes@);
    let dw = domain_weights::<V>();
    &&& cache_extends(cache, new_cache)
    &&& forall|i: int| 0 <= i < dw.len() ==> new_cache.contains_key(#[trigger] candidate_key(dw[i].0, nbrs))
    &&& forall|k: Seq<char>| #[trigger] new_cache.contains_key(k) && !cache.contains_key(k)
        ==> exists|i: int| 0 <= i < dw.len() && candidate_key(dw[i].0, nbrs) == k
            && new_cache[k] == fits(dw[i].0, nbrs)
    &&& r.position == cell.position
    &&& r.connecting_nodes@ == cell.connecting_nodes@
    &&& r.collapsed
    &&& (forall|i: int| 0 <= i < dw.len() ==> !#[trigger] qualifies(new_cache, dw[i].0, dw[i].1, nbrs))
        ==> r.node_type == V::spec_invalid()
    &&& (exists|i: int| 0 <= i < dw.len() && #[trigger] qualifies(new_cache, dw[i].0, dw[i].1, nbrs))
        ==> exists|i: int| 0 <= i < dw.len() && #[trigger] qualifies(new_cache, dw[i].0, dw[i].1, nbrs)
            && r.node_type == dw[i].0
    &&& new_atlas.len() == atlas.len()
    &&& new_atlas[position] is Some
    &&& new_atlas[position].unwrap().same(r)
    &&& forall|q: int| 0 <= q < atlas.len() && q != position ==> #[trigger] new_atlas[q] == atlas[q]
}

proof fn lemma_qualifies_stable<V: NodeVariants>(
    c1: Map<Seq<char>, bool>,
    c2: Map<Seq<char>, bool>,
    dw: Seq<(V, u32)>,
    nbrs: Seq<V>,
    n: int,
)
    requires
        cache_extends(c1, c2),
        n <= dw.len(),
        forall|j: int| 0 <= j < n ==> c1.contains_key(#[trigger] candidate_key(dw[j].0, nbrs)),
    ensures
        forall|j: int| 0 <= j < n ==>
            #[trigger] qualifies(c2, dw[j].0, dw[j].1, nbrs) == qualifies(c1, dw[j].0, dw[j].1, nbrs),
{
    assert forall|j: int| 0 <= j < n implies
        #[trigger] qualifies(c2, dw[j].0, dw[j].1, nbrs) == qualifies(c1, dw[j].0, dw[j].1, nbrs) by {
        assert(c1.contains_key(candidate_key(dw[j].0, nbrs)));
    }
}

proof fn lemma_without<V>(queue: Seq<(usize, u32)>, p: usize)
    ensures
        forall|i: int| 0 <= i < without(queue, p).len() ==>
            (#[trigger] without(queue, p)[i]).0 != p
            && exists|j: int| 0 <= j < queue.len() && queue[j] == without(queue, p)[i],
        positions_unique(queue) ==> positions_unique(without(queue, p)),
    decreases queue.len(),
{
    if queue.len() > 0 {
        let q = queue.drop_last();
        lemma_without::<V>(q, p);
        assert forall|i: int| 0 <= i < without(queue, p).len() implies
            (#[trigger] without(queue, p)[i]).0 != p
            && exists|j: int| 0 <= j < queue.len() && queue[j] == without(queue, p)[i] by {
            if i < without(q, p).len() {
                assert(without(queue, p)[i] == without(q, p)[i]);
                let j = choose|j: int| 0 <= j < q.len() && q[j] == without(q, p)[i];
                assert(queue[j] == q[j]);
            } else {
                assert(queue[queue.len() - 1] == without(queue, p)[i]);
            }
        }
        if positions_unique(queue) {
            assert(positions_unique(q));
            assert forall|a: int, b: int| 0 <= a < b < without(queue, p).len() implies
                without(queue, p)[a].0 != without(queue, p)[b].0 by {
                if b >= without(q, p).len() {
                    assert(without(queue, p)[a] == without(q, p)[a]);
                    let j = choose|j: int| 0 <= j < q.len() && q[j] == without(q, p)[a];
                    assert(queue[j] == q[j]);
                } else {
                    assert(without(queue, p)[a] == without(q, p)[a]);
                    assert(without(queue, p)[b] == without(q, p)[b]);
                }
            }
        }
    }
}

/// Every neighbour lets `candidate` stand beside it and its context rule
/// accepts them.
fn fits_among<V: NodeVariants>(candidate: V, node_types: &Vec<V>) -> (r: bool)
    ensures
        r == fits(candidate, node_types@),
{
    let mut j: usize = 0;
    while j < node_types.len()
        invariant
            j <= node_types@.len(),
            forall|m: int| 0 <= m < j ==> #[trigger] node_types@[m].spec_next_to(candidate),
        decreases node_types@.len() - j,
    {
        if !node_types[j].can_spawn_next_to(candidate) {
            return false;
        }
        j = j + 1;
    }
    candidate.can_spawn(node_types)
}

/// The names laid end to end.
fn join_names<V: NodeVariants>(node_types: &Vec<V>, names: &Vec<String>) -> (r: String)
    requires
        names@.len() == node_types@.len(),
        forall|i: int| 0 <= i < names@.len() ==> (#[trigger] names@[i])@ == node_types@[i].spec_name(),
    ensures
        r@ == joined_names(node_types@),
{
    let mut r = String::new();
    let mut i: usize = 0;
    while i < names.len()
        invariant
            i <= names@.len(),
            names@.len() == node_types@.len(),
            forall|j: int| 0 <= j < names@.len() ==> (#[trigger] names@[j])@ == node_types@[j].spec_name(),
            r@ == joined_names(node_types@.take(i as int)),
        decreases names@.len() - i,
    {
        assert(node_types@.take(i as int + 1).drop_last() =~= node_types@.take(i as int));
        r.append(names[i].as_str());
        i = i + 1;
    }
    assert(node_types@.take(i as int) =~= node_types@);
    r
}

/// A collapse with exactly one qualifying candidate gives the cell that
/// candidate: weighted sampling over one choice has one outcome.
pub proof fn lemma_single_candidate<V: NodeVariants>(
    atlas: Seq<Option<Node<V>>>,
    cache: Map<Seq<char>, bool>,
    position: int,
    new_atlas: Seq<Option<Node<V>>>,
    new_cache: Map<Seq<char>, bool>,
    r: Node<V>,
    i: int,
)
    requires
        collapse_outcome(atlas, cache, position, new_atlas, new_cache, r),
        0 <= i < domain_weights::<V>().len(),
        ({
            let dw = domain_weights::<V>();
            let nbrs = neighbour_types(atlas, atlas[position].unwrap().connecting_nodes@);
            &&& qualifies(new_cache, dw[i].0, dw[i].1, nbrs)
            &&& forall|j: int| 0 <= j < dw.len() && j != i ==> !#[trigger] qualifies(new_cache, dw[j].0, dw[j].1, nbrs)
        }),
    ensures
        r.node_type == domain_weights::<V>()[i].0,
        r.collapsed,
{
    let dw = domain_weights::<V>();
    let nbrs = neighbour_types(atlas, atlas[position].unwrap().connecting_nodes@);
    assert(qualifies(new_cache, dw[i].0, dw[i].1, nbrs));
}

/// A collapse where no candidate qualifies gives the cell the invalid
/// sentinel and marks it collapsed.
pub proof fn lemma_no_candidate<V: NodeVariants>(
    atlas: Seq<Option<Node<V>>>,
    cache: Map<Seq<char>, bool>,
    position: int,
    new_atlas: Seq<Option<Node<V>>>,
    new_cache: Map<Seq<char>, bool>,
    r: Node<V>,
)
    requires
        collapse_outcome(atlas, cache, position, new_atlas, new_cache, r),
        ({
            let dw = domain_weights::<V>();
            let nbrs = neighbour_types(atlas, atlas[position].unwrap().connecting_nodes@);
            forall|j: int| 0 <= j < dw.len() ==> !#[trigger] qualifies(new_cache, dw[j].0, dw[j].1, nbrs)
        }),
    ensures
        r.node_type == V::spec_invalid(),
        r.collapsed,
        new_atlas[position].unwrap().node_type == V::spec_invalid(),
        new_atlas[position].unwrap().collapsed,
{
}

/// Where the cache held no verdict for any candidate in this neighbourhood
/// and the candidates' keys differ, a cell that is not given the invalid
/// sentinel gets a variant that every present neighbour lets stand beside
/// it and whose context rule accepts them.
pub proof fn lemma_fresh_verdicts_respect_neighbours<V: NodeVariants>(
    atlas: Seq<Option<Node<V>>>,
    cache: Map<Seq<char>, bool>,
    position: int,
    new_atlas: Seq<Option<Node<V>>>,
    new_cache: Map<Seq<char>, bool>,
    r: Node<V>,
)
    requires
        collapse_outcome(atlas, cache, position, new_atlas, new_cache, r),
        ({
            let dw = domain_weights::<V>();
            let nbrs = neighbour_types(atlas, atlas[position].unwrap().connecting_nodes@);
            &&& forall|i: int| 0 <= i < dw.len() ==> !cache.contains_key(#[trigger] candidate_key(dw[i].0, nbrs))
            &&& forall|i: int, j: int| 0 <= i < dw.len() && 0 <= j < dw.len() && i != j
                ==> #[trigger] candidate_key(dw[i].0, nbrs) != #[trigger] candidate_key(dw[j].0, nbrs)
        }),
        r.node_type != V::spec_invalid(),
    ensures
        fits(r.node_type, neighbour_types(atlas, atlas[position].unwrap().connecting_nodes@)),
{
    let dw = domain_weights::<V>();
    let nbrs = neighbour_types(atlas, atlas[position].unwrap().connecting_nodes@);
    let i = choose|i: int| 0 <= i < dw.len() && #[trigger] qualifies(new_cache, dw[i].0, dw[i].1, nbrs)
        && r.node_type == dw[i].0;
    let k = candidate_key(dw[i].0, nbrs);
    assert(new_cache.contains_key(k) && !cache.contains_key(k));
    let j = choose|j: int| 0 <= j < dw.len() && candidate_key(dw[j].0, nbrs) == k
        && new_cache[k] == fits(dw[j].0, nbrs);
    assert(j == i);
}

/// A cached verdict survives a collapse unchanged, whatever the
/// neighbourhood it is consulted in now: memoised verdicts are never
/// re-evaluated.
pub proof fn lemma_cached_verdict_kept<V: NodeVariants>(
    atlas: Seq<Option<Node<V>>>,
    cache: Map<Seq<char>, bool>,
    position: int,
    new_atlas: Seq<Option<Node<V>>>,
    new_cache: Map<Seq<char>, bool>,
    r: Node<V>,
    key: Seq<char>,
)
    requires
        collapse_outcome(atlas, cache, position, new_atlas, new_cache, r),
        cache.contains_key(key),
    ensures
        new_cache.contains_key(key),
        new_cache[key] == cache[key],
{
}

/// The number of uncollapsed cells.
pub open spec fn open_count<V>(atlas: Seq<Option<Node<V>>>) -> nat
    decreases atlas.len(),
{
    if atlas.len() == 0 {
        0
    } else {
        open_count(atlas.drop_last()) + if is_open(atlas, atlas.len() - 1) { 1nat } else { 0nat }
    }
}

proof fn lemma_open_count_bounded<V>(atlas: Seq<Option<Node<V>>>)
    ensures
        open_count(atlas) <= atlas.len(),
    decreases atlas.len(),
{
    if atlas.len() > 0 {
        lemma_open_count_bounded(atlas.drop_last());
    }
}

proof fn lemma_open_count_same<V>(a: Seq<Option<Node<V>>>, b: Seq<Option<Node<V>>>)
    requires
        a.len() == b.len(),
        forall|q: int| 0 <= q < a.len() ==> is_open(a, q) == is_open(b, q),
    ensures
        open_count(a) == open_count(b),
    decreases a.len(),
{
    if a.len() > 0 {
        assert forall|q: int| 0 <= q < a.len() - 1 implies
            is_open(a.drop_last(), q) == is_open(b.drop_last(), q) by {
            assert(is_open(a.drop_last(), q) == is_open(a, q));
            assert(is_open(b.drop_last(), q) == is_open(b, q));
        }
        lemma_open_count_same(a.drop_last(), b.drop_last());
    }
}

/// Collapsing one uncollapsed cell, and changing no other, leaves one
/// uncollapsed cell fewer.
proof fn lemma_open_count_step<V>(a: Seq<Option<Node<V>>>, b: Seq<Option<Node<V>>>, p: int)
    requires
        a.len() == b.len(),
        0 <= p < a.len(),
        is_open(a, p),
        !is_open(b, p),
        forall|q: int| 0 <= q < a.len() && q != p ==> #[trigger] b[q] == a[q],
    ensures
        open_count(b) + 1 == open_count(a),
    decreases a.len(),
{
    if p == a.len() - 1 {
        assert(a.drop_last() =~= b.drop_last());
    } else {
        assert forall|q: int| 0 <= q < a.len() - 1 && q != p implies #[trigger] b.drop_last()[q] == a.drop_last()[q] by {
            assert(b[q] == a[q]);
        }
        assert(b[a.len() - 1] == a[a.len() - 1]);
        assert(is_open(a.drop_last(), p) == is_open(a, p));
        assert(is_open(b.drop_last(), p) == is_open(b, p));
        lemma_open_count_step(a.drop_last(), b.drop_last(), p);
    }
}

/// The cell at `p` holds the invalid sentinel, or its context rule rejects
/// the variants of its present neighbours.
pub open spec fn is_anomalous<V: NodeVariants>(atlas: Seq<Option<Node<V>>>, p: int) -> bool {
    &&& cell_in(atlas, p) is Some
    &&& ({
        let n = cell_in(atlas, p).unwrap();
        n.node_type == V::spec_invalid()
            || !n.node_type.spec_can_spawn(neighbour_types(atlas, n.connecting_nodes@))
    })
}

/// `now` is `before` returned to the unset, uncollapsed state.
pub open spec fn is_reset_of<V: NodeVariants>(now: Option<Node<V>>, before: Option<Node<V>>) -> bool {
    &&& before is Some
    &&& now is Some
    &&& now.unwrap().position == before.unwrap().position
    &&& now.unwrap().connecting_nodes@ == before.unwrap().connecting_nodes@
    &&& now.unwrap().node_type == V::spec_unset()
    &&& !now.unwrap().collapsed
}

/// The cell at `p` holds the invalid sentinel.
pub open spec fn invalid_at<V: NodeVariants>(atlas: Seq<Option<Node<V>>>, p: int) -> bool {
    cell_in(atlas, p) is Some && cell_in(atlas, p).unwrap().node_type == V::spec_invalid()
}

/// The `j`-th neighbour position of the cell at `p`.
pub open spec fn neighbour_of<V>(atlas: Seq<Option<Node<V>>>, p: int, j: int) -> int {
    cell_in(atlas, p).unwrap().connecting_nodes@[j] as int
}

/// The resets owed to the invalid cells below `n`: one for each cell and
/// one for each of its neighbour positions.
pub open spec fn invalid_reset_total<V: NodeVariants>(atlas: Seq<Option<Node<V>>>, n: int) -> nat
    decreases n,
{
    if n <= 0 {
        0
    } else {
        invalid_reset_total(atlas, n - 1) + if invalid_at(atlas, n - 1) {
            cell_in(atlas, n - 1).unwrap().connecting_nodes@.len() + 1
        } else {
            0nat
        }
    }
}

/// One more, short of the largest `usize`.
fn bump(n: usize) -> (r: usize)
    ensures
        r > 0,
        n < usize::MAX ==> r == n + 1,
        n == usize::MAX ==> r == n,
{
    if n < usize::MAX { n + 1 } else { n }
}

/// The number of positions below `n` whose cell was uncollapsed in `before`
/// and is collapsed to the invalid sentinel in `after`.
pub open spec fn newly_invalid<V: NodeVariants>(
    before: Seq<Option<Node<V>>>,
    after: Seq<Option<Node<V>>>,
    n: int,
) -> nat
    decreases n,
{
    if n <= 0 {
        0
    } else {
        newly_invalid(before, after, n - 1) + if is_open(before, n - 1) && !is_open(after, n - 1)
            && cell_in(after, n - 1) is Some && cell_in(after, n - 1).unwrap().node_type == V::spec_invalid() {
            1nat
        } else {
            0nat
        }
    }
}

/// Every entropy on the frontier is below the sentinel.
pub open spec fn entropies_below_max(queue: Seq<(usize, u32)>) -> bool {
    forall|i: int| 0 <= i < queue.len() ==> (#[trigger] queue[i]).1 < ENTROPY_MAX
}

proof fn lemma_newly_invalid_none<V: NodeVariants>(a: Seq<Option<Node<V>>>, n: int)
    ensures
        newly_invalid(a, a, n) == 0,
    decreases n,
{
    if n > 0 {
        lemma_newly_invalid_none(a, n - 1);
    }
}

proof fn lemma_newly_invalid_step<V: NodeVariants>(
    before: Seq<Option<Node<V>>>,
    a: Seq<Option<Node<V>>>,
    b: Seq<Option<Node<V>>>,
    p: int,
    n: int,
)
    requires
        is_open(a, p),
        !is_open(b, p),
        cell_in(b, p) is Some,
        forall|q: int| q != p ==> #[trigger] cell_in(b, q) == cell_in(a, q),
    ensures
        newly_invalid(before, b, n) == newly_invalid(before, a, n) + if 0 <= p < n && is_open(before, p)
            && cell_in(b, p).unwrap().node_type == V::spec_invalid() { 1nat } else { 0nat },
    decreases n,
{
    if n > 0 {
        lemma_newly_invalid_step(before, a, b, p, n - 1);
        if n - 1 != p {
            assert(cell_in(b, n - 1) == cell_in(a, n - 1));
        }
    }
}

/// Where some cell is uncollapsed, `last_open` names one.
proof fn lemma_last_open<V>(atlas: Seq<Option<Node<V>>>, p: int)
    requires
        is_open(atlas, p),
        atlas.len() <= usize::MAX,
    ensures
        is_open(atlas, last_open(atlas) as int),
    decreases atlas.len(),
{
    if !is_open(atlas, atlas.len() - 1) {
        assert(is_open(atlas.drop_last(), p));
        lemma_last_open(atlas.drop_last(), p);
        assert(is_open(atlas, last_open(atlas.drop_last()) as int));
    }
}

/// `with_entry` holds the old entries, one of them possibly replaced by the
/// new one, and the new one.
proof fn lemma_with_entry(queue: Seq<(usize, u32)>, p: usize, e: u32)
    ensures
        with_entry(queue, p, e).len() >= queue.len(),
        forall|i: int| 0 <= i < with_entry(queue, p, e).len() ==>
            #[trigger] with_entry(queue, p, e)[i] == (p, e) || with_entry(queue, p, e)[i] == queue[i],
        exists|i: int| 0 <= i < with_entry(queue, p, e).len() && with_entry(queue, p, e)[i] == (p, e),
{
    if exists|i: int| 0 <= i < queue.len() && queue[i].0 == p {
        let c = choose|i: int| 0 <= i < queue.len() && queue[i].0 == p;
        assert(with_entry(queue, p, e)[c] == (p, e));
    } else {
        assert(with_entry(queue, p, e)[queue.len() as int] == (p, e));
    }
}

/// Re-queuing a position, as after a reset, puts it on the frontier with
/// the entropy just computed, in place of any earlier entry of it.
pub proof fn lemma_requeued<V>(queue: Seq<(usize, u32)>, p: usize, e: u32)
    requires
        positions_unique(queue),
    ensures
        positions_unique(with_entry(queue, p, e)),
        exists|i: int| 0 <= i < with_entry(queue, p, e).len() && with_entry(queue, p, e)[i] == (p, e),
        forall|i: int| 0 <= i < with_entry(queue, p, e).len() && (#[trigger] with_entry(queue, p, e)[i]).0 == p
            ==> with_entry(queue, p, e)[i].1 == e,
{
    lemma_with_entry(queue, p, e);
    let w = with_entry(queue, p, e);
    if exists|i: int| 0 <= i < queue.len() && queue[i].0 == p {
        let c = choose|i: int| 0 <= i < queue.len() && queue[i].0 == p;
        assert forall|a: int, b: int| 0 <= a < b < w.len() implies w[a].0 != w[b].0 by {
            assert(w[a].0 == queue[a].0);
            assert(w[b].0 == queue[b].0);
        }
        assert forall|i: int| 0 <= i < w.len() && (#[trigger] w[i]).0 == p implies w[i].1 == e by {
            if i != c {
                assert(w[i] == queue[i]);
            }
        }
    } else {
        assert forall|a: int, b: int| 0 <= a < b < w.len() implies w[a].0 != w[b].0 by {
            assert(w[a] == queue[a]);
            if b < queue.len() {
                assert(w[b] == queue[b]);
            }
        }
        assert forall|i: int| 0 <= i < w.len() && (#[trigger] w[i]).0 == p implies w[i].1 == e by {
            if i < queue.len() {
                assert(w[i] == queue[i]);
            }
        }
    }
}

/// The engine over variants `V`.
pub struct NodeSystem<V> {
    atlas: Vec<Option<Node<V>>>,
    queue: Vec<(usize, u32)>,
    domain_cache: DomainCache,
    max_threads: usize,
    chunk_limit: usize,
}

impl<V: NodeVariants> NodeSystem<V> {
    /// Cell `p` of the atlas, if any.
    pub closed spec fn atlas(&self) -> Seq<Option<Node<V>>> {
        self.atlas@
    }

    /// The frontier: positions waiting to be collapsed, with their entropies.
    pub closed spec fn queue(&self) -> Seq<(usize, u32)> {
        self.queue@
    }

    /// The compatibility cache.
    pub closed spec fn cache(&self) -> Map<Seq<char>, bool> {
        self.domain_cache@
    }

    /// The number of workers among which a large selection is split.
    pub closed spec fn max_threads(&self) -> usize {
        self.max_threads
    }

    /// Selection is split only where each worker's share exceeds this.
    pub closed spec fn chunk_limit(&self) -> usize {
        self.chunk_limit
    }

    pub open spec fn cell(&self, p: int) -> Option<Node<V>> {
        cell_in(self.atlas(), p)
    }

    /// Each position is on the frontier at most once, and only while it
    /// holds an uncollapsed cell.
    pub open spec fn frontier_sound(&self) -> bool {
        &&& positions_unique(self.queue())
        &&& forall|i: int| 0 <= i < self.queue().len() ==> is_open(self.atlas(), #[trigger] self.queue()[i].0 as int)
    }

    /// A well-formed engine's frontier is sound.
    pub proof fn lemma_frontier_sound(&self)
        requires
            self.wf(),
        ensures
            self.frontier_sound(),
    {
    }

    pub closed spec fn wf(&self) -> bool {
        &&& self.domain_cache.wf()
        &&& self.max_threads >= 1
        &&& positions_unique(self.queue@)
        &&& forall|i: int| 0 <= i < self.queue@.len() ==> is_open(self.atlas@, #[trigger] self.queue@[i].0 as int)
        &&& forall|p: int| 0 <= p < self.atlas@.len() && (#[trigger] self.atlas@[p]) is Some
            ==> self.atlas@[p].unwrap().position == p
    }

    /// An empty engine: no cells, an empty frontier and cache, one worker,
    /// and selection never split until a chunk limit is set.
    pub fn new() -> (r: NodeSystem<V>)
        ensures
            r.wf(),
            r.atlas().len() == 0,
            r.queue().len() == 0,
            r.cache() == Map::<Seq<char>, bool>::empty(),
            r.max_threads() == 1,
            r.chunk_limit() == usize::MAX,
    {
        NodeSystem {
            atlas: Vec::new(),
            queue: Vec::new(),
            domain_cache: DomainCache::new(),
            max_threads: 1,
            chunk_limit: usize::MAX,
        }
    }

    /// Sets the number of workers; zero is refused.
    pub fn set_max_threads(&mut self, thread_count: usize) -> (r: Result<(), ConfigError>)
        requires
            old(self).wf(),
        ensures
            final(self).wf(),
            r is Err <==> thread_count == 0,
            r is Err ==> r == Err::<(), ConfigError>(ConfigError::ZeroThreads),
            final(self).max_threads() == if thread_count == 0 { old(self).max_threads() } else { thread_count },
            final(self).chunk_limit() == old(self).chunk_limit(),
            final(self).atlas() == old(self).atlas(),
            final(self).queue() == old(self).queue(),
            final(self).cache() == old(self).cache(),
    {
        if thread_count == 0 {
            return Err(ConfigError::ZeroThreads);
        }
        self.max_threads = thread_count;
        Ok(())
    }

    /// Sets the share per worker above which selection is split.
    pub fn set_chunk_limit(&mut self, chunk_limit: usize)
        requires
            old(self).wf(),
        ensures
            final(self).wf(),
            final(self).chunk_limit() == chunk_limit,
            final(self).max_threads() == old(self).max_threads(),
            final(self).atlas() == old(self).atlas(),
            final(self).queue() == old(self).queue(),
            final(self).cache() == old(self).cache(),
    {
        self.chunk_limit = chunk_limit;
    }

    /// The cache's entries, for keeping between runs.
    pub fn get_cache(&self) -> (r: Vec<(String, bool)>)
        requires
            self.wf(),
        ensures
            forall|i: int| 0 <= i < r@.len() ==> self.cache().contains_key(#[trigger] r@[i].0@)
                && self.cache()[r@[i].0@] == r@[i].1,
            forall|k: Seq<char>| #[trigger] self.cache().contains_key(k)
                ==> exists|i: int| 0 <= i < r@.len() && r@[i].0@ == k,
    {
        let r = self.domain_cache.to_entries();
        proof {
            self.domain_cache.lemma_entries(r@);
        }
        r
    }

    /// Replaces the cache by the given entries; of a repeated key the first
    /// verdict is kept.
    pub fn set_cache(&mut self, cache: Vec<(String, bool)>)
        requires
            old(self).wf(),
        ensures
            final(self).wf(),
            forall|i: int| 0 <= i < cache@.len() ==> final(self).cache().contains_key(#[trigger] cache@[i].0@),
            forall|k: Seq<char>| final(self).cache().contains_key(k)
                ==> exists|i: int| 0 <= i < cache@.len() && #[trigger] cache@[i].0@ == k
                    && final(self).cache()[k] == cache@[i].1
                    && forall|j: int| 0 <= j < i ==> cache@[j].0@ != k,
            final(self).atlas() == old(self).atlas(),
            final(self).queue() == old(self).queue(),
            final(self).max_threads() == old(self).max_threads(),
            final(self).chunk_limit() == old(self).chunk_limit(),
    {
        self.domain_cache = DomainCache::from_entries(cache);
    }

    /// A copy of the cell at `position`, if the atlas holds one.
    pub fn get_node(&self, position: usize) -> (r: Option<Node<V>>)
        ensures
            r is Some <==> self.cell(position as int) is Some,
            r is Some ==> r.unwrap().same(self.cell(position as int).unwrap()),
    {
        if position < self.atlas.len() {
            match &self.atlas[position] {
                Some(n) => Some(n.copied()),
                None => None,
            }
        } else {
            None
        }
    }

    /// A copy of the whole atlas, indexed by position.
    pub fn get_atlas(&self) -> (r: Vec<Option<Node<V>>>)
        ensures
            r@.len() == self.atlas().len(),
            forall|p: int| 0 <= p < r@.len() ==> (#[trigger] r@[p] is Some <==> self.atlas()[p] is Some),
            forall|p: int| 0 <= p < r@.len() && #[trigger] r@[p] is Some
                ==> r@[p].unwrap().same(self.atlas()[p].unwrap()),
    {
        let mut r: Vec<Option<Node<V>>> = Vec::new();
        let mut i: usize = 0;
        while i < self.atlas.len()
            invariant
                i <= self.atlas@.len(),
                r@.len() == i,
                forall|p: int| 0 <= p < i ==> (#[trigger] r@[p] is Some <==> self.atlas@[p] is Some),
                forall|p: int| 0 <= p < i && #[trigger] r@[p] is Some
                    ==> r@[p].unwrap().same(self.atlas@[p].unwrap()),
            decreases self.atlas@.len() - i,
        {
            let c = match &self.atlas[i] {
                Some(n) => Some(n.copied()),
                None => None,
            };
            r.push(c);
            i = i + 1;
        }
        r
    }

    /// The position the next collapse takes: the frontier's first entry of
    /// least entropy where it has two entries or more, else the highest
    /// uncollapsed cell of the atlas (0 where there is none).
    pub open spec fn selected(&self) -> usize {
        if self.queue().len() > 1 {
            lowest(self.queue()).0
        } else {
            last_open(self.atlas())
        }
    }

    /// Returns the cell at `position` to the unset, uncollapsed state with
    /// the same neighbours.  The engine holds no adjacency rule of its own:
    /// neighbour lists come with `add_node_to_atlas`, so a position without
    /// a cell is left without one here; give it a cell with
    /// `add_node_to_atlas`.
    pub fn reset_node(&mut self, position: usize)
        requires
            old(self).wf(),
        ensures
            final(self).wf(),
            old(self).cell(position as int) is None ==> final(self).atlas() == old(self).atlas(),
            old(self).cell(position as int) is Some ==> {
                &&& final(self).cell(position as int) is Some
                &&& final(self).cell(position as int).unwrap().position == position
                &&& final(self).cell(position as int).unwrap().node_type == V::spec_unset()
                &&& final(self).cell(position as int).unwrap().connecting_nodes@
                    == old(self).cell(position as int).unwrap().connecting_nodes@
                &&& !final(self).cell(position as int).unwrap().collapsed
            },
            forall|q: int| q != position ==> #[trigger] final(self).cell(q) == old(self).cell(q),
            final(self).atlas().len() == old(self).atlas().len(),
            final(self).queue() == old(self).queue(),
            final(self).cache() == old(self).cache(),
            final(self).max_threads() == old(self).max_threads(),
            final(self).chunk_limit() == old(self).chunk_limit(),
    {
        if position < self.atlas.len() {
            let fresh = match &self.atlas[position] {
                Some(n) => Some(Node::new(position, n.get_connecting_nodes())),
                None => None,
            };
            if let Some(f) = fresh {
                let ghost before = self.atlas@;
                self.atlas[position] = Some(f);
                assert forall|q: int| q != position implies #[trigger] cell_in(self.atlas@, q) == cell_in(before, q) by {
                    if 0 <= q < before.len() {
                        assert(self.atlas@[q] == before[q]);
                    }
                }
                assert forall|i: int| 0 <= i < self.queue@.len()
                    implies is_open(self.atlas@, #[trigger] self.queue@[i].0 as int) by {
                    let q = self.queue@[i].0 as int;
                    if q != position {
                        assert(cell_in(self.atlas@, q) == cell_in(before, q));
                    }
                }
                assert forall|q: int| q != position implies #[trigger] self.cell(q) == old(self).cell(q) by {
                    assert(cell_in(self.atlas@, q) == cell_in(before, q));
                }
            }
        }
    }

    /// Gives `position` the entropy `entropy_of(domain weights, measured)`
    /// on the frontier, where `measured` is the Shannon entropy of the
    /// domain weights as an `f32` bit pattern; only a cell that is in the
    /// atlas and not collapsed is queued.
    pub fn add_node_to_queue(&mut self, position: usize, measured: u32)
        requires
            old(self).wf(),
        ensures
            final(self).wf(),
            is_open(old(self).atlas(), position as int) ==> final(self).queue()
                == with_entry(old(self).queue(), position, entropy_of(domain_weights::<V>(), measured)),
            !is_open(old(self).atlas(), position as int) ==> final(self).queue() == old(self).queue(),
            final(self).atlas() == old(self).atlas(),
            final(self).cache() == old(self).cache(),
            final(self).max_threads() == old(self).max_threads(),
            final(self).chunk_limit() == old(self).chunk_limit(),
    {
        if position >= self.atlas.len() {
            return;
        }
        let open = match &self.atlas[position] {
            Some(n) => !n.has_collapsed(),
            None => false,
        };
        if !open {
            return;
        }
        let weights = get_domain_weights::<V>();
        let e = entropy_key(&weights, measured);
        let mut i: usize = 0;
        while i < self.queue.len()
            invariant
                i <= self.queue@.len(),
                self.wf(),
                self.queue@ == old(self).queue@,
                self.atlas@ == old(self).atlas@,
                self.domain_cache == old(self).domain_cache,
                self.max_threads == old(self).max_threads,
                self.chunk_limit == old(self).chunk_limit,
                is_open(self.atlas@, position as int),
                e == entropy_of(domain_weights::<V>(), measured),
                forall|j: int| 0 <= j < i ==> (#[trigger] self.queue@[j]).0 != position,
            decreases self.queue@.len() - i,
        {
            if self.queue[i].0 == position {
                proof {
                    assert(exists|j: int| 0 <= j < self.queue@.len() && self.queue@[j].0 == position);
                }
                self.queue[i] = (position, e);
                proof {
                    assert forall|j: int| 0 <= j < self.queue@.len() implies
                        #[trigger] self.queue@[j] == with_entry(old(self).queue@, position, e)[j] by {
                        if j != i {
                            assert(old(self).queue@[j].0 != old(self).queue@[i as int].0);
                        }
                    }
                    assert(self.queue@ =~= with_entry(old(self).queue@, position, e));
                    assert forall|a: int, b: int| 0 <= a < b < self.queue@.len() implies
                        self.queue@[a].0 != self.queue@[b].0 by {
                        assert(self.queue@[a].0 == old(self).queue@[a].0);
                        assert(self.queue@[b].0 == old(self).queue@[b].0);
                    }
                    assert forall|j: int| 0 <= j < self.queue@.len()
                        implies is_open(self.atlas@, #[trigger] self.queue@[j].0 as int) by {
                        assert(self.queue@[j].0 == old(self).queue@[j].0);
                    }
                }
                return;
            }
            i = i + 1;
        }
        self.queue.push((position, e));
        proof {
            assert forall|a: int, b: int| 0 <= a < b < self.queue@.len() implies
                self.queue@[a].0 != self.queue@[b].0 by {
                if b < old(self).queue@.len() {
                    assert(self.queue@[a] == old(self).queue@[a]);
                    assert(self.queue@[b] == old(self).queue@[b]);
                } else {
                    assert(self.queue@[a] == old(self).queue@[a]);
                }
            }
            assert forall|j: int| 0 <= j < self.queue@.len()
                implies is_open(self.atlas@, #[trigger] self.queue@[j].0 as int) by {
                if j < old(self).queue@.len() {
                    assert(self.queue@[j] == old(self).queue@[j]);
                }
            }
        }
    }

    /// The variants of those positions that hold cells, in order.
    pub fn get_connecting_node_types(&self, nodes: &Vec<usize>) -> (r: Vec<V>)
        ensures
            r@ == neighbour_types(self.atlas(), nodes@),
    {
        let mut r: Vec<V> = Vec::new();
        let mut i: usize = 0;
        while i < nodes.len()
            invariant
                i <= nodes@.len(),
                r@ == neighbour_types(self.atlas@, nodes@.take(i as int)),
            decreases nodes@.len() - i,
        {
            assert(nodes@.take(i as int + 1).drop_last() =~= nodes@.take(i as int));
            let p = nodes[i];
            if p < self.atlas.len() {
                match &self.atlas[p] {
                    Some(n) => r.push(n.node_type),
                    None => {},
                }
            }
            i = i + 1;
        }
        assert(nodes@.take(i as int) =~= nodes@);
        r
    }

    /// The name of each variant, in order.
    pub fn get_connecting_node_type_names(&self, nodes: &Vec<V>) -> (r: Vec<String>)
        ensures
            r@.len() == nodes@.len(),
            forall|i: int| 0 <= i < r@.len() ==> (#[trigger] r@[i])@ == nodes@[i].spec_name(),
    {
        let mut r: Vec<String> = Vec::new();
        let mut i: usize = 0;
        while i < nodes.len()
            invariant
                i <= nodes@.len(),
                r@.len() == i,
                forall|j: int| 0 <= j < i ==> (#[trigger] r@[j])@ == nodes@[j].spec_name(),
            decreases nodes@.len() - i,
        {
            r.push(nodes[i].get_name());
            i = i + 1;
        }
        r
    }

    /// Collapses the cell at `position`, which is not on the frontier.
    fn collapse_node(&mut self, position: usize) -> (r: Node<V>)
        requires
            old(self).wf(),
            old(self).cell(position as int) is Some,
            forall|i: int| 0 <= i < old(self).queue().len() ==> (#[trigger] old(self).queue()[i]).0 != position,
        ensures
            final(self).wf(),
            collapse_outcome(old(self).atlas(), old(self).cache(), position as int,
                final(self).atlas(), final(self).cache(), r),
            final(self).queue() == old(self).queue(),
            final(self).max_threads() == old(self).max_threads(),
            final(self).chunk_limit() == old(self).chunk_limit(),
    {
        let mut node = match &self.atlas[position] {
            Some(n) => n.copied(),
            None => Node::new(position, Vec::new()),
        };
        let node_types = self.get_connecting_node_types(&node.connecting_nodes);
        let node_names = self.get_connecting_node_type_names(&node_types);
        let suffix = join_names(&node_types, &node_names);
        let domain = get_domain_weights::<V>();
        let ghost nbrs = node_types@;
        let ghost dw = domain_weights::<V>();
        let ghost c0 = self.domain_cache@;
        let mut choices: Vec<V> = Vec::new();
        let mut weights: Vec<u64> = Vec::new();
        let mut i: usize = 0;
        while i < domain.len()
            invariant
                i <= domain@.len(),
                domain@ == dw,
                nbrs == node_types@,
                suffix@ == joined_names(nbrs),
                self.domain_cache.wf(),
                self.atlas@ == old(self).atlas@,
                self.queue@ == old(self).queue@,
                self.max_threads == old(self).max_threads,
                self.chunk_limit == old(self).chunk_limit,
                c0 == old(self).domain_cache@,
                cache_extends(c0, self.domain_cache@),
                forall|j: int| 0 <= j < i ==> self.domain_cache@.contains_key(#[trigger] candidate_key(dw[j].0, nbrs)),
                forall|k: Seq<char>| #[trigger] self.domain_cache@.contains_key(k) && !c0.contains_key(k)
                    ==> exists|j: int| 0 <= j < i && candidate_key(dw[j].0, nbrs) == k
                        && self.domain_cache@[k] == fits(dw[j].0, nbrs),
                choices@.len() == weights@.len(),
                forall|m: int| 0 <= m < weights@.len() ==> #[trigger] weights@[m] > 0,
                forall|m: int| 0 <= m < choices@.len() ==> exists|j: int| 0 <= j < i
                    && #[trigger] qualifies(self.domain_cache@, dw[j].0, dw[j].1, nbrs)
                    && #[trigger] choices@[m] == dw[j].0,
                (exists|j: int| 0 <= j < i && #[trigger] qualifies(self.domain_cache@, dw[j].0, dw[j].1, nbrs))
                    ==> choices@.len() > 0,
            decreases domain@.len() - i,
        {
            let (choice, weight) = domain[i];
            let mut key = choice.get_name();
            key.append(suffix.as_str());
            assert(key@ == candidate_key(dw[i as int].0, nbrs));
            let ghost before = self.domain_cache@;
            let can_spawn = match self.domain_cache.get(&key) {
                Some(v) => v,
                None => {
                    let v = fits_among(choice, &node_types);
                    self.domain_cache.insert(key, v);
                    v
                },
            };
            proof {
                lemma_qualifies_stable(before, self.domain_cache@, dw, nbrs, i as int);
                assert forall|k: Seq<char>| #[trigger] self.domain_cache@.contains_key(k) && !c0.contains_key(k)
                    implies exists|j: int| 0 <= j < i + 1 && candidate_key(dw[j].0, nbrs) == k
                        && self.domain_cache@[k] == fits(dw[j].0, nbrs) by {
                    if before.contains_key(k) {
                        let j = choose|j: int| 0 <= j < i && candidate_key(dw[j].0, nbrs) == k
                            && before[k] == fits(dw[j].0, nbrs);
                        assert(self.domain_cache@[k] == before[k]);
                    } else {
                        assert(candidate_key(dw[i as int].0, nbrs) == k);
                    }
                }
                assert forall|m: int| 0 <= m < choices@.len() implies exists|j: int| 0 <= j < i + 1
                    && #[trigger] qualifies(self.domain_cache@, dw[j].0, dw[j].1, nbrs)
                    && #[trigger] choices@[m] == dw[j].0 by {
                    let j = choose|j: int| 0 <= j < i
                        && #[trigger] qualifies(before, dw[j].0, dw[j].1, nbrs) && #[trigger] choices@[m] == dw[j].0;
                    assert(qualifies(self.domain_cache@, dw[j].0, dw[j].1, nbrs));
                }
                if exists|j: int| 0 <= j < i && #[trigger] qualifies(self.domain_cache@, dw[j].0, dw[j].1, nbrs) {
                    let j = choose|j: int| 0 <= j < i && #[trigger] qualifies(self.domain_cache@, dw[j].0, dw[j].1, nbrs);
                    assert(qualifies(before, dw[j].0, dw[j].1, nbrs));
                }
                assert(self.domain_cache@.contains_key(candidate_key(dw[i as int].0, nbrs)));
                assert(can_spawn == self.domain_cache@[candidate_key(dw[i as int].0, nbrs)]);
            }
            if weight > 0 && can_spawn {
                let m = choice.get_weighting_multiplier(&node_types);
                proof {
                    assert((weight as int) * (m as int) <= (u32::MAX as int) * (u32::MAX as int)) by (nonlinear_arith)
                        requires weight <= u32::MAX, m <= u32::MAX;
                }
                let adjusted = (weight as u64) * (m as u64);
                if adjusted > 0 {
                    let ghost old_choices = choices@;
                    choices.push(choice);
                    weights.push(adjusted);
                    proof {
                        assert(qualifies(self.domain_cache@, dw[i as int].0, dw[i as int].1, nbrs));
                        assert forall|mm: int| 0 <= mm < choices@.len() implies exists|j: int| 0 <= j < i + 1
                            && #[trigger] qualifies(self.domain_cache@, dw[j].0, dw[j].1, nbrs)
                            && #[trigger] choices@[mm] == dw[j].0 by {
                            if mm < old_choices.len() {
                                assert(choices@[mm] == old_choices[mm]);
                            } else {
                                assert(choices@[mm] == dw[i as int].0);
                            }
                        }
                    }
                }
            }
            i = i + 1;
        }
        if choices.len() == 0 {
            node.node_type = V::get_invalid_type();
        } else {
            assert(weights@[0] > 0);
            let k = pick_weighted(&weights);
            node.node_type = choices[k];
        }
        node.collapsed = true;
        let ghost before_atlas = self.atlas@;
        self.atlas[position] = Some(node.copied());
        proof {
            assert forall|q: int| 0 <= q < before_atlas.len() && q != position
                implies #[trigger] self.atlas@[q] == before_atlas[q] by {}
            assert forall|j: int| 0 <= j < self.queue@.len()
                implies is_open(self.atlas@, #[trigger] self.queue@[j].0 as int) by {
                let q = self.queue@[j].0 as int;
                assert(self.queue@[j] == old(self).queue()[j]);
                assert(q != position);
                assert(cell_in(self.atlas@, q) == cell_in(before_atlas, q));
            }
        }
        node
    }

    /// Finds the position that `selected` names, splitting the frontier
    /// among the workers where each one's share exceeds the chunk limit.
    fn select(&self) -> (r: usize)
        requires
            self.wf(),
        ensures
            r == self.selected(),
    {
        if self.queue.len() > 1 {
            let chunk_size = self.queue.len() / self.max_threads;
            if chunk_size > self.chunk_limit {
                proof {
                    vstd::arithmetic::div_mod::lemma_fundamental_div_mod(
                        self.queue@.len() as int, self.max_threads as int);
                    assert(self.max_threads * chunk_size <= self.queue@.len());
                }
                let chunks = split_chunks(&self.queue, self.max_threads, chunk_size);
                let minima = lowest_of_chunks(&chunks);
                let (p, _) = get_lowest_entropy(&minima);
                proof {
                    lemma_partitioned_lowest(chunk_views(chunks@));
                }
                p
            } else {
                let (p, _) = get_lowest_entropy(&self.queue);
                p
            }
        } else {
            let mut found: usize = 0;
            let mut i: usize = 0;
            while i < self.atlas.len()
                invariant
                    i <= self.atlas@.len(),
                    found == last_open(self.atlas@.take(i as int)),
                decreases self.atlas@.len() - i,
            {
                let ghost t = self.atlas@.take(i as int + 1);
                assert(t.drop_last() =~= self.atlas@.take(i as int));
                assert(cell_in(t, i as int) == cell_in(self.atlas@, i as int));
                let open = match &self.atlas[i] {
                    Some(n) => !n.collapsed,
                    None => false,
                };
                if open {
                    found = i;
                }
                i = i + 1;
            }
            assert(self.atlas@.take(i as int) =~= self.atlas@);
            found
        }
    }

    /// Takes `position` off the frontier.
    fn remove_from_queue(&mut self, position: usize)
        requires
            old(self).wf(),
        ensures
            final(self).wf(),
            final(self).queue() == without(old(self).queue(), position),
            final(self).atlas() == old(self).atlas(),
            final(self).cache() == old(self).cache(),
            final(self).max_threads() == old(self).max_threads(),
            final(self).chunk_limit() == old(self).chunk_limit(),
    {
        let mut kept: Vec<(usize, u32)> = Vec::new();
        let mut i: usize = 0;
        while i < self.queue.len()
            invariant
                i <= self.queue@.len(),
                kept@ == without(self.queue@.take(i as int), position),
            decreases self.queue@.len() - i,
        {
            assert(self.queue@.take(i as int + 1).drop_last() =~= self.queue@.take(i as int));
            let e = self.queue[i];
            if e.0 != position {
                kept.push(e);
            }
            i = i + 1;
        }
        assert(self.queue@.take(i as int) =~= self.queue@);
        proof {
            lemma_without::<V>(self.queue@, position);
            assert forall|j: int| 0 <= j < kept@.len() implies is_open(self.atlas@, #[trigger] kept@[j].0 as int) by {
                let m = choose|m: int| 0 <= m < self.queue@.len() && self.queue@[m] == kept@[j];
                assert(is_open(self.atlas@, self.queue@[m].0 as int));
            }
        }
        self.queue = kept;
    }

    /// Advances the production sequence by one collapse: selects a
    /// position, and where it holds an uncollapsed cell, takes it off the
    /// frontier and collapses it.  Returns `None` once the selected position
    /// holds no such cell: the sequence is exhausted.
    pub fn next(&mut self) -> (r: Option<Node<V>>)
        requires
            old(self).wf(),
        ensures
            final(self).wf(),
            r is None <==> !is_open(old(self).atlas(), old(self).selected() as int),
            r is None ==> final(self).atlas() == old(self).atlas() && final(self).queue() == old(self).queue()
                && final(self).cache() == old(self).cache(),
            r is Some ==> final(self).queue() == without(old(self).queue(), old(self).selected()),
            r is Some ==> collapse_outcome(old(self).atlas(), old(self).cache(), old(self).selected() as int,
                final(self).atlas(), final(self).cache(), r.unwrap()),
            final(self).max_threads() == old(self).max_threads(),
            final(self).chunk_limit() == old(self).chunk_limit(),
    {
        let p = self.select();
        let open = p < self.atlas.len() && match &self.atlas[p] {
            Some(n) => !n.collapsed,
            None => false,
        };
        if !open {
            return None;
        }
        self.remove_from_queue(p);
        proof {
            lemma_without::<V>(old(self).queue@, p);
        }
        let node = self.collapse_node(p);
        Some(node)
    }

    /// Runs the production sequence to its end, putting the neighbours of
    /// each collapsed cell on the frontier with entropy measure `measured`
    /// (see `add_node_to_queue`).  Returns how many cells the pass set to the
    /// invalid sentinel.  Where the frontier's entropies and the domain's
    /// are all below the sentinel, every cell ends collapsed.
    pub fn collapse_pass(&mut self, measured: u32) -> (invalid: usize)
        requires
            old(self).wf(),
        ensures
            final(self).wf(),
            !is_open(final(self).atlas(), final(self).selected() as int),
            final(self).atlas().len() == old(self).atlas().len(),
            forall|q: int| #[trigger] is_open(final(self).atlas(), q) ==> is_open(old(self).atlas(), q),
            invalid == newly_invalid(old(self).atlas(), final(self).atlas(), old(self).atlas().len() as int),
            entropies_below_max(old(self).queue()) && entropy_of(domain_weights::<V>(), measured) < ENTROPY_MAX
                ==> forall|p: int| !#[trigger] is_open(final(self).atlas(), p),
            final(self).max_threads() == old(self).max_threads(),
            final(self).chunk_limit() == old(self).chunk_limit(),
    {
        let mut invalid: usize = 0;
        let n = self.atlas.len();
        let ghost finite = entropies_below_max(old(self).queue()) && entropy_of(domain_weights::<V>(), measured) < ENTROPY_MAX;
        proof {
            lemma_open_count_bounded(self.atlas@);
            lemma_newly_invalid_none(self.atlas@, n as int);
        }
        loop
            invariant
                self.wf(),
                n == old(self).atlas@.len(),
                self.atlas@.len() == n,
                open_count(old(self).atlas()) <= n,
                invalid + open_count(self.atlas()) <= open_count(old(self).atlas()),
                invalid == newly_invalid(old(self).atlas@, self.atlas@, n as int),
                forall|q: int| #[trigger] is_open(self.atlas@, q) ==> is_open(old(self).atlas@, q),
                finite == (entropies_below_max(old(self).queue()) && entropy_of(domain_weights::<V>(), measured) < ENTROPY_MAX),
                finite ==> entropies_below_max(self.queue@),
                self.max_threads == old(self).max_threads,
                self.chunk_limit == old(self).chunk_limit,
            decreases open_count(self.atlas()),
        {
            let ghost before = *self;
            match self.next() {
                None => {
                    proof {
                        if finite {
                            self.lemma_exhausted();
                        }
                    }
                    return invalid;
                },
                Some(node) => {
                    proof {
                        let p = before.selected() as int;
                        lemma_open_count_step(before.atlas(), self.atlas(), p);
                        assert forall|q: int| q != p implies #[trigger] cell_in(self.atlas@, q) == cell_in(before.atlas@, q) by {
                            if 0 <= q < n {
                                assert(self.atlas@[q] == before.atlas@[q]);
                            }
                        }
                        lemma_newly_invalid_step(old(self).atlas@, before.atlas@, self.atlas@, p, n as int);
                        assert(cell_in(self.atlas@, p).unwrap().node_type == node.node_type);
                        assert(!is_open(self.atlas@, p));
                        assert forall|q: int| #[trigger] is_open(self.atlas@, q) implies is_open(old(self).atlas@, q) by {
                            if q != p {
                                assert(cell_in(self.atlas@, q) == cell_in(before.atlas@, q));
                                assert(is_open(before.atlas@, q));
                            }
                        }
                        lemma_without::<V>(before.queue@, p as usize);
                        if finite {
                            assert forall|i: int| 0 <= i < self.queue@.len() implies (#[trigger] self.queue@[i]).1 < ENTROPY_MAX by {
                                let j = choose|j: int| 0 <= j < before.queue@.len() && before.queue@[j] == self.queue@[i];
                                assert(before.queue@[j].1 < ENTROPY_MAX);
                            }
                        }
                    }
                    if node.node_type.is_invalid() {
                        invalid = invalid + 1;
                    }
                    let neighbours = node.get_connecting_nodes();
                    let mut i: usize = 0;
                    while i < neighbours.len()
                        invariant
                            i <= neighbours@.len(),
                            self.wf(),
                            self.atlas@.len() == n,
                            open_count(self.atlas()) + 1 == open_count(before.atlas()),
                            invalid == newly_invalid(old(self).atlas@, self.atlas@, n as int),
                            forall|q: int| #[trigger] is_open(self.atlas@, q) ==> is_open(old(self).atlas@, q),
                            finite == (entropies_below_max(old(self).queue()) && entropy_of(domain_weights::<V>(), measured) < ENTROPY_MAX),
                            finite ==> entropies_below_max(self.queue@),
                            self.max_threads == old(self).max_threads,
                            self.chunk_limit == old(self).chunk_limit,
                        decreases neighbours@.len() - i,
                    {
                        let ghost q0 = self.queue@;
                        self.add_node_to_queue(neighbours[i], measured);
                        proof {
                            lemma_with_entry(q0, neighbours@[i as int], entropy_of(domain_weights::<V>(), measured));
                            if finite {
                                assert forall|k: int| 0 <= k < self.queue@.len() implies (#[trigger] self.queue@[k]).1 < ENTROPY_MAX by {
                                    if self.queue@ != q0 {
                                        let w = with_entry(q0, neighbours@[i as int], entropy_of(domain_weights::<V>(), measured));
                                        assert(w[k] == (neighbours@[i as int], entropy_of(domain_weights::<V>(), measured)) || w[k] == q0[k]);
                                    }
                                }
                            }
                        }
                        i = i + 1;
                    }
                },
            }
        }
    }

    /// With every frontier entropy below the sentinel, a selection that
    /// finds no uncollapsed cell means there is none.
    proof fn lemma_exhausted(&self)
        requires
            self.wf(),
            self.atlas().len() <= usize::MAX,
            entropies_below_max(self.queue()),
            !is_open(self.atlas(), self.selected() as int),
        ensures
            forall|p: int| !#[trigger] is_open(self.atlas(), p),
    {
        if self.queue@.len() > 1 {
            lemma_lowest_is_minimum(self.queue@);
            assert(self.queue@[0].1 < ENTROPY_MAX);
            let i = choose|i: int| 0 <= i < self.queue@.len() && self.queue@[i] == lowest(self.queue@);
            assert(is_open(self.atlas@, self.queue@[i].0 as int));
        } else {
            assert forall|p: int| !#[trigger] is_open(self.atlas(), p) by {
                if is_open(self.atlas(), p) {
                    lemma_last_open(self.atlas@, p);
                }
            }
        }
    }

    /// Scans the atlas as it stood on entry, position by position: a cell
    /// holding the invalid sentinel is reset together with its neighbours;
    /// another cell whose context rule rejects its present neighbours (as
    /// they stand when it is reached) is reset alone.  Returns the number of
    /// resets made, one per reset position (short of the largest `usize`):
    /// at least those owed to the invalid cells, at most one more per cell.
    /// It is zero exactly when no cell was anomalous, and then nothing
    /// changed.  A neighbour position without a cell stays without one.
    pub fn reset_invalid_nodes(&mut self) -> (r: usize)
        requires
            old(self).wf(),
        ensures
            final(self).wf(),
            r == 0 <==> forall|p: int| 0 <= p < old(self).atlas().len() ==> !#[trigger] is_anomalous(old(self).atlas(), p),
            r == 0 ==> final(self).atlas() == old(self).atlas(),
            r >= if invalid_reset_total(old(self).atlas(), old(self).atlas().len() as int) <= usize::MAX {
                invalid_reset_total(old(self).atlas(), old(self).atlas().len() as int)
            } else {
                usize::MAX as nat
            },
            r <= invalid_reset_total(old(self).atlas(), old(self).atlas().len() as int) + old(self).atlas().len(),
            final(self).atlas().len() == old(self).atlas().len(),
            forall|q: int| #[trigger] final(self).cell(q) == old(self).cell(q)
                || is_reset_of(final(self).cell(q), old(self).cell(q)),
            forall|q: int| invalid_at(old(self).atlas(), q)
                ==> is_reset_of(#[trigger] final(self).cell(q), old(self).cell(q)),
            forall|p: int, j: int| invalid_at(old(self).atlas(), p)
                && 0 <= j < old(self).cell(p).unwrap().connecting_nodes@.len()
                && old(self).cell(#[trigger] neighbour_of(old(self).atlas(), p, j)) is Some
                ==> is_reset_of(final(self).cell(neighbour_of(old(self).atlas(), p, j)),
                    old(self).cell(neighbour_of(old(self).atlas(), p, j))),
            final(self).queue() == old(self).queue(),
            final(self).cache() == old(self).cache(),
            final(self).max_threads() == old(self).max_threads(),
            final(self).chunk_limit() == old(self).chunk_limit(),
    {
        let snapshot = self.get_atlas();
        let mut resets: usize = 0;
        let ghost mut made: int = 0;
        let ghost orig = old(self).atlas@;
        let mut p: usize = 0;
        while p < snapshot.len()
            invariant
                p <= snapshot@.len(),
                orig == old(self).atlas@,
                snapshot@.len() == orig.len(),
                forall|q: int| 0 <= q < snapshot@.len() ==> (#[trigger] snapshot@[q] is Some <==> orig[q] is Some),
                forall|q: int| 0 <= q < snapshot@.len() && #[trigger] snapshot@[q] is Some
                    ==> snapshot@[q].unwrap().same(orig[q].unwrap()),
                self.wf(),
                self.atlas@.len() == orig.len(),
                self.queue@ == old(self).queue@,
                self.domain_cache@ == old(self).domain_cache@,
                self.max_threads == old(self).max_threads,
                self.chunk_limit == old(self).chunk_limit,
                forall|q: int| #[trigger] cell_in(self.atlas@, q) == cell_in(orig, q)
                    || is_reset_of(cell_in(self.atlas@, q), cell_in(orig, q)),
                forall|q: int| 0 <= q < p && invalid_at(orig, q)
                    ==> is_reset_of(#[trigger] cell_in(self.atlas@, q), cell_in(orig, q)),
                forall|q: int, j: int| 0 <= q < p && invalid_at(orig, q)
                    && 0 <= j < cell_in(orig, q).unwrap().connecting_nodes@.len()
                    && cell_in(orig, #[trigger] neighbour_of(orig, q, j)) is Some
                    ==> is_reset_of(cell_in(self.atlas@, neighbour_of(orig, q, j)), cell_in(orig, neighbour_of(orig, q, j))),
                invalid_reset_total(orig, p as int) <= made <= invalid_reset_total(orig, p as int) + p,
                resets == if made <= usize::MAX { made } else { usize::MAX as int },
                resets == 0 ==> self.atlas@ == orig,
                resets == 0 ==> forall|q: int| 0 <= q < p ==> !#[trigger] is_anomalous(orig, q),
                resets > 0 ==> exists|q: int| 0 <= q < p && #[trigger] is_anomalous(orig, q),
            decreases snapshot@.len() - p,
        {
            match &snapshot[p] {
                None => {},
                Some(node) => {
                    if node.node_type.is_invalid() {
                        let mut i: usize = 0;
                        while i < node.connecting_nodes.len()
                            invariant
                                i <= node.connecting_nodes@.len(),
                                p < snapshot@.len(),
                                orig == old(self).atlas@,
                                snapshot@.len() == orig.len(),
                                invalid_at(orig, p as int),
                                node.connecting_nodes@ == cell_in(orig, p as int).unwrap().connecting_nodes@,
                                self.wf(),
                                self.atlas@.len() == orig.len(),
                                self.queue@ == old(self).queue@,
                                self.domain_cache@ == old(self).domain_cache@,
                                self.max_threads == old(self).max_threads,
                                self.chunk_limit == old(self).chunk_limit,
                                forall|q: int| #[trigger] cell_in(self.atlas@, q) == cell_in(orig, q)
                                    || is_reset_of(cell_in(self.atlas@, q), cell_in(orig, q)),
                                forall|q: int| 0 <= q < p && invalid_at(orig, q)
                                    ==> is_reset_of(#[trigger] cell_in(self.atlas@, q), cell_in(orig, q)),
                                forall|q: int, j: int| 0 <= q < p && invalid_at(orig, q)
                                    && 0 <= j < cell_in(orig, q).unwrap().connecting_nodes@.len()
                                    && cell_in(orig, #[trigger] neighbour_of(orig, q, j)) is Some
                                    ==> is_reset_of(cell_in(self.atlas@, neighbour_of(orig, q, j)), cell_in(orig, neighbour_of(orig, q, j))),
                                forall|j: int| 0 <= j < i
                                    && cell_in(orig, #[trigger] neighbour_of(orig, p as int, j)) is Some
                                    ==> is_reset_of(cell_in(self.atlas@, neighbour_of(orig, p as int, j)), cell_in(orig, neighbour_of(orig, p as int, j))),
                                                invalid_reset_total(orig, p as int) + i <= made <= invalid_reset_total(orig, p as int) + p + i,
                                resets == if made <= usize::MAX { made } else { usize::MAX as int },
                                resets == 0 ==> self.atlas@ == orig,
                                resets == 0 ==> forall|q: int| 0 <= q < p ==> !#[trigger] is_anomalous(orig, q),
                            decreases node.connecting_nodes@.len() - i,
                        {
                            let ghost before = self.atlas@;
                            let q = node.connecting_nodes[i];
                            self.reset_node(q);
                            proof {
                                assert forall|x: int| x != q implies #[trigger] cell_in(self.atlas@, x) == cell_in(before, x) by {
                                    assert(self.cell(x) == cell_in(before, x));
                                }
                                assert(self.cell(q as int) == cell_in(self.atlas@, q as int));
                                self.lemma_reset_keeps_relation(before, orig, q as int);
                                assert(neighbour_of(orig, p as int, i as int) == q as int);
                                made = made + 1;
                            }
                            resets = bump(resets);
                            i = i + 1;
                        }
                        let ghost before = self.atlas@;
                        self.reset_node(p);
                        proof {
                            assert forall|x: int| x != p implies #[trigger] cell_in(self.atlas@, x) == cell_in(before, x) by {
                                assert(self.cell(x) == cell_in(before, x));
                            }
                            assert(self.cell(p as int) == cell_in(self.atlas@, p as int));
                            self.lemma_reset_keeps_relation(before, orig, p as int);
                            assert(is_anomalous(orig, p as int));
                            made = made + 1;
                        }
                        resets = bump(resets);
                    } else {
                        let types = self.get_connecting_node_types(&node.connecting_nodes);
                        if !node.node_type.can_spawn(&types) {
                            let ghost before = self.atlas@;
                            self.reset_node(p);
                            proof {
                                assert forall|x: int| x != p implies #[trigger] cell_in(self.atlas@, x) == cell_in(before, x) by {
                                    assert(self.cell(x) == cell_in(before, x));
                                }
                                assert(self.cell(p as int) == cell_in(self.atlas@, p as int));
                                self.lemma_reset_keeps_relation(before, orig, p as int);
                                if resets == 0 {
                                    assert(is_anomalous(orig, p as int));
                                }
                                made = made + 1;
                            }
                            resets = bump(resets);
                        }
                    }
                },
            }
            p = p + 1;
        }
        resets
    }

    proof fn lemma_reset_keeps_relation(&self, before: Seq<Option<Node<V>>>, orig: Seq<Option<Node<V>>>, q: int)
        requires
            forall|x: int| #[trigger] cell_in(before, x) == cell_in(orig, x)
                || is_reset_of(cell_in(before, x), cell_in(orig, x)),
            cell_in(before, q) is None ==> self.atlas@ == before,
            cell_in(before, q) is Some ==> is_reset_of(cell_in(self.atlas@, q), cell_in(before, q)),
            forall|x: int| x != q ==> #[trigger] cell_in(self.atlas@, x) == cell_in(before, x),
        ensures
            forall|x: int| #[trigger] cell_in(self.atlas@, x) == cell_in(orig, x)
                || is_reset_of(cell_in(self.atlas@, x), cell_in(orig, x)),
            forall|x: int| cell_in(before, x) is Some && is_reset_of(cell_in(before, x), cell_in(orig, x))
                ==> is_reset_of(#[trigger] cell_in(self.atlas@, x), cell_in(orig, x)),
            cell_in(orig, q) is Some ==> is_reset_of(cell_in(self.atlas@, q), cell_in(orig, q)),
    {
        assert(cell_in(before, q) == cell_in(orig, q) || is_reset_of(cell_in(before, q), cell_in(orig, q)));
    }

    /// Puts a fresh, unset and uncollapsed cell at `position` with the given
    /// neighbours, replacing any cell there.
    pub fn add_node_to_atlas(&mut self, position: usize, connecting_nodes: Vec<usize>)
        requires
            old(self).wf(),
            position < usize::MAX,
        ensures
            final(self).wf(),
            final(self).cell(position as int) is Some,
            final(self).cell(position as int).unwrap().position == position,
            final(self).cell(position as int).unwrap().node_type == V::spec_unset(),
            final(self).cell(position as int).unwrap().connecting_nodes@ == connecting_nodes@,
            !final(self).cell(position as int).unwrap().collapsed,
            forall|q: int| q != position ==> #[trigger] final(self).cell(q) == old(self).cell(q),
            final(self).queue() == old(self).queue(),
            final(self).cache() == old(self).cache(),
            final(self).max_threads() == old(self).max_threads(),
            final(self).chunk_limit() == old(self).chunk_limit(),
    {
        while self.atlas.len() <= position
            invariant
                self.wf(),
                forall|q: int| #[trigger] cell_in(self.atlas@, q) == cell_in(old(self).atlas@, q),
                self.queue@ == old(self).queue@,
                self.domain_cache == old(self).domain_cache,
                self.max_threads == old(self).max_threads,
                self.chunk_limit == old(self).chunk_limit,
                position < usize::MAX,
            decreases position + 1 - self.atlas@.len(),
        {
            let ghost before = self.atlas@;
            self.atlas.push(None);
            assert forall|q: int| #[trigger] cell_in(self.atlas@, q) == cell_in(before, q) by {
                if 0 <= q < before.len() {
                    assert(self.atlas@[q] == before[q]);
                }
            }
            assert forall|i: int| 0 <= i < self.queue@.len()
                implies is_open(self.atlas@, #[trigger] self.queue@[i].0 as int) by {
                assert(cell_in(self.atlas@, self.queue@[i].0 as int) == cell_in(before, self.queue@[i].0 as int));
            }
        }
        let ghost before = self.atlas@;
        self.atlas[position] = Some(Node::new(position, connecting_nodes));
        assert forall|q: int| q != position implies #[trigger] cell_in(self.atlas@, q) == cell_in(before, q) by {
            if 0 <= q < before.len() {
                assert(self.atlas@[q] == before[q]);
            }
        }
        assert forall|i: int| 0 <= i < self.queue@.len()
            implies is_open(self.atlas@, #[trigger] self.queue@[i].0 as int) by {
            let q = self.queue@[i].0 as int;
            if q != position {
                assert(cell_in(self.atlas@, q) == cell_in(before, q));
            }
        }
        assert forall|q: int| q != position implies #[trigger] self.cell(q) == old(self).cell(q) by {
            assert(cell_in(self.atlas@, q) == cell_in(before, q));
            assert(cell_in(before, q) == cell_in(old(self).atlas@, q));
        }
    }
}

} // verus!
