//! Minimum-entropy selection over a snapshot of the frontier, in one scan or
//! split into contiguous chunks whose minima are then reduced.
//!
//! Entropies are carried as the bit patterns of non-negative `f32` values,
//! which order as the values themselves do.
use vstd::prelude::*;

verus! {

/// The bit pattern of the largest finite `f32`: the entropy of a cell with
/// no viable variant, and the starting point of every scan.
pub const ENTROPY_MAX: u32 = 0x7f7f_ffff;

/// Prefers `candidate` to `best` only where its entropy is strictly lower.
pub open spec fn better(best: (usize, u32), candidate: (usize, u32)) -> (usize, u32) {
    if candidate.1 < best.1 { candidate } else { best }
}

/// The first entry of least entropy below `ENTROPY_MAX`, or position 0 with
/// `ENTROPY_MAX` where there is none.
pub open spec fn lowest(s: Seq<(usize, u32)>) -> (usize, u32)
    decreases s.len(),
{
    if s.len() == 0 {
        (0, ENTROPY_MAX)
    } else {
        better(lowest(s.drop_last()), s.last())
    }
}

/// The chunks laid end to end.
pub open spec fn joined(chunks: Seq<Seq<(usize, u32)>>) -> Seq<(usize, u32)>
    decreases chunks.len(),
{
    if chunks.len() == 0 {
        Seq::empty()
    } else {
        joined(chunks.drop_last()) + chunks.last()
    }
}

/// The contents of each chunk.
pub open spec fn chunk_views(chunks: Seq<Vec<(usize, u32)>>) -> Seq<Seq<(usize, u32)>> {
    chunks.map_values(|c: Vec<(usize, u32)>| c@)
}

/// The lowest entry of each chunk.
pub open spec fn chunk_minima(chunks: Seq<Seq<(usize, u32)>>) -> Seq<(usize, u32)> {
    chunks.map_values(|c: Seq<(usize, u32)>| lowest(c))
}

/// What `lowest` finds: an entropy no greater than any entry's, that is
/// `ENTROPY_MAX` or the entropy of an entry at the position found.
pub proof fn lemma_lowest_is_minimum(s: Seq<(usize, u32)>)
    ensures
        lowest(s).1 <= ENTROPY_MAX,
        forall|i: int| 0 <= i < s.len() ==> lowest(s).1 <= #[trigger] s[i].1,
        lowest(s).1 < ENTROPY_MAX ==> exists|i: int| 0 <= i < s.len() && s[i] == lowest(s),
        lowest(s).1 == ENTROPY_MAX ==> lowest(s).0 == 0,
    decreases s.len(),
{
    if s.len() > 0 {
        lemma_lowest_is_minimum(s.drop_last());
        assert forall|i: int| 0 <= i < s.len() implies lowest(s).1 <= #[trigger] s[i].1 by {
            if i < s.len() - 1 {
                assert(s.drop_last()[i] == s[i]);
            }
        }
        if lowest(s).1 < ENTROPY_MAX && lowest(s) != s.last() {
            let i = choose|i: int| 0 <= i < s.len() - 1 && s.drop_last()[i] == lowest(s.drop_last());
            assert(s[i] == lowest(s));
        }
    }
}

/// Scanning two pieces and keeping the strictly better result finds what
/// one scan of both finds.
pub proof fn lemma_lowest_append(a: Seq<(usize, u32)>, b: Seq<(usize, u32)>)
    ensures
        lowest(a + b) == better(lowest(a), lowest(b)),
    decreases b.len(),
{
    if b.len() == 0 {
        assert(a + b =~= a);
        lemma_lowest_is_minimum(a);
    } else {
        lemma_lowest_append(a, b.drop_last());
        assert((a + b).drop_last() =~= a + b.drop_last());
    }
}

/// Partitioned selection agrees with sequential selection: for any split of
/// a snapshot into contiguous chunks, reducing the chunks' minima gives the
/// same entry, hence the same minimum entropy, as one scan of the snapshot.
pub proof fn lemma_partitioned_lowest(chunks: Seq<Seq<(usize, u32)>>)
    ensures
        lowest(chunk_minima(chunks)) == lowest(joined(chunks)),
        lowest(chunk_minima(chunks)).1 == lowest(joined(chunks)).1,
    decreases chunks.len(),
{
    if chunks.len() > 0 {
        lemma_partitioned_lowest(chunks.drop_last());
        assert(chunk_minima(chunks).drop_last() =~= chunk_minima(chunks.drop_last()));
        lemma_lowest_append(joined(chunks.drop_last()), chunks.last());
    }
}

/// Scans the entries for the first one of least entropy below `ENTROPY_MAX`.
pub fn get_lowest_entropy(entropy_list: &Vec<(usize, u32)>) -> (r: (usize, u32))
    ensures
        r == lowest(entropy_list@),
{
    let mut lowest_entropy: u32 = ENTROPY_MAX;
    let mut lowest_node: usize = 0;
    let mut i: usize = 0;
    while i < entropy_list.len()
        invariant
            i <= entropy_list@.len(),
            (lowest_node, lowest_entropy) == lowest(entropy_list@.take(i as int)),
        decreases entropy_list@.len() - i,
    {
        assert(entropy_list@.take(i as int + 1).drop_last() =~= entropy_list@.take(i as int));
        let (position, entropy) = entropy_list[i];
        if entropy < lowest_entropy {
            lowest_entropy = entropy;
            lowest_node = position;
        }
        i = i + 1;
    }
    assert(entropy_list@.take(i as int) =~= entropy_list@);
    (lowest_node, lowest_entropy)
}

/// A copy of `v[lo..hi]`.
fn copy_range(v: &Vec<(usize, u32)>, lo: usize, hi: usize) -> (r: Vec<(usize, u32)>)
    requires
        lo <= hi <= v@.len(),
    ensures
        r@ == v@.subrange(lo as int, hi as int),
{
    let mut r: Vec<(usize, u32)> = Vec::new();
    let mut i: usize = lo;
    while i < hi
        invariant
            lo <= i <= hi,
            hi <= v@.len(),
            r@ == v@.subrange(lo as int, i as int),
        decreases hi - i,
    {
        r.push(v[i]);
        i = i + 1;
        assert(r@ =~= v@.subrange(lo as int, i as int));
    }
    r
}

/// Splits a snapshot into `workers` chunks of `chunk_size` entries each, in
/// order, and one more chunk for what is left where anything is.
pub fn split_chunks(snapshot: &Vec<(usize, u32)>, workers: usize, chunk_size: usize) -> (r: Vec<Vec<(usize, u32)>>)
    requires
        workers * chunk_size <= snapshot@.len(),
    ensures
        joined(chunk_views(r@)) == snapshot@,
        r@.len() == workers + if workers * chunk_size < snapshot@.len() { 1int } else { 0int },
        forall|k: int| 0 <= k < workers ==> (#[trigger] r@[k])@.len() == chunk_size,
{
    let n = snapshot.len();
    let mut chunks: Vec<Vec<(usize, u32)>> = Vec::new();
    let mut index: usize = 0;
    let mut k: usize = 0;
    while k < workers
        invariant
            k <= workers,
            n == snapshot@.len(),
            workers * chunk_size <= snapshot@.len(),
            index == k * chunk_size,
            chunks@.len() == k,
            joined(chunk_views(chunks@)) == snapshot@.take(index as int),
            forall|j: int| 0 <= j < k ==> (#[trigger] chunks@[j])@.len() == chunk_size,
        decreases workers - k,
    {
        proof {
            assert((k + 1) * chunk_size <= workers * chunk_size) by (nonlinear_arith)
                requires k + 1 <= workers;
            assert((k + 1) * chunk_size == k * chunk_size + chunk_size) by (nonlinear_arith);
            assert(index + chunk_size <= snapshot@.len());
        }
        let chunk = copy_range(snapshot, index, index + chunk_size);
        let ghost before = chunks@;
        chunks.push(chunk);
        proof {
            let views = chunk_views(chunks@);
            assert(views.drop_last() =~= chunk_views(before));
            assert(snapshot@.take(index + chunk_size) =~= snapshot@.take(index as int)
                + snapshot@.subrange(index as int, index + chunk_size));
        }
        index = index + chunk_size;
        k = k + 1;
    }
    if index < snapshot.len() {
        let chunk = copy_range(snapshot, index, snapshot.len());
        let ghost before = chunks@;
        chunks.push(chunk);
        proof {
            let views = chunk_views(chunks@);
            assert(views.drop_last() =~= chunk_views(before));
            assert(snapshot@ =~= snapshot@.take(index as int)
                + snapshot@.subrange(index as int, snapshot@.len() as int));
        }
    } else {
        assert(snapshot@.take(index as int) =~= snapshot@);
    }
    chunks
}

/// The lowest entry of each chunk, in chunk order.
pub fn lowest_of_chunks(chunks: &Vec<Vec<(usize, u32)>>) -> (r: Vec<(usize, u32)>)
    ensures
        r@ == chunk_minima(chunk_views(chunks@)),
{
    let mut r: Vec<(usize, u32)> = Vec::new();
    let mut i: usize = 0;
    while i < chunks.len()
        invariant
            i <= chunks@.len(),
            r@ == chunk_minima(chunk_views(chunks@)).take(i as int),
        decreases chunks@.len() - i,
    {
        let m = get_lowest_entropy(&chunks[i]);
        r.push(m);
        i = i + 1;
        assert(r@ =~= chunk_minima(chunk_views(chunks@)).take(i as int));
    }
    assert(r@ =~= chunk_minima(chunk_views(chunks@)));
    r
}

} // verus!
