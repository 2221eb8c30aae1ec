//! The merge cursor: combines several sorted sources into one sorted stream,
//! letting the earliest-listed source win on equal keys.

use vstd::prelude::*;
use vstd::map::*;
use vstd::set_lib::lemma_set_subset_finite;
use crate::order::{
    entry_le, entries_sorted, key_compare, KeyOrdering, lemma_entry_le_transitive,
};
use crate::model::{
    Sources, SourceEntries, sources_wf, is_min_source, min_source, merge_spec, merge_step,
    skip_key, k_suffix, keys_of, all_source_keys, lemma_k_suffix_init, lemma_k_suffix_step,
    lemma_k_suffix_done, lemma_merge_spec_step, lemma_merge_spec_empty, lemma_merge_spec_len,
    lemma_len_zero_empty, lemma_min_source_exists, lemma_merge_spec_sorted,
    lemma_merge_spec_keys, lemma_merge_spec_single, lemma_duplicate_key_shadowed,
};
use crate::source::StorageIterator;

verus! {

/// A source wrapped with the priority index it held in the construction-time
/// input order. Smaller index means higher precedence.
pub struct ActiveEntry<I: StorageIterator> {
    pub index: usize,
    pub iter: Box<I>,
}

impl<I: StorageIterator> ActiveEntry<I> {
    /// The records this entry still has to produce.
    pub open spec fn rem(self) -> SourceEntries {
        (*self.iter).entries()
    }

    /// The key this entry currently exposes.
    pub open spec fn front_key(self) -> Seq<u8> {
        self.rem()[0].0
    }

    /// The wrapped source is well-formed, still valid, and sorted.
    pub open spec fn wf(self) -> bool {
        &&& (*self.iter).inv()
        &&& self.rem().len() > 0
        &&& entries_sorted(self.rem())
    }
}

/// Some position of `q` holds an entry whose priority index is `j`.
pub open spec fn queue_has_index<I: StorageIterator>(q: Seq<ActiveEntry<I>>, j: int) -> bool {
    exists|p: int| 0 <= p < q.len() && (#[trigger] q[p]).index as int == j
}

/// No two positions of `q` hold the same priority index.
pub open spec fn distinct_indices<I: StorageIterator>(q: Seq<ActiveEntry<I>>) -> bool {
    forall|p1: int, p2: int|
        0 <= p1 < p2 < q.len() ==> (#[trigger] q[p1]).index != (#[trigger] q[p2]).index
}

/// The sources held by the entries of `q`, keyed by priority index.
pub open spec fn queue_map<I: StorageIterator>(q: Seq<ActiveEntry<I>>) -> Sources {
    Map::new(
        |j: int| queue_has_index(q, j),
        |j: int| q[choose|p: int| 0 <= p < q.len() && (#[trigger] q[p]).index as int == j].rem(),
    )
}

/// Total number of records the entries of `q` still hold, the measure that
/// shrinks whenever one of them is advanced.
pub open spec fn total_rem<I: StorageIterator>(q: Seq<ActiveEntry<I>>) -> nat
    decreases q.len(),
{
    if q.len() == 0 {
        0
    } else {
        total_rem(q.drop_last()) + q.last().rem().len()
    }
}

/// With distinct indices, `queue_map` reads back pointwise: position `p`
/// answers for index `q[p].index`, and every mapped index is held somewhere.
proof fn lemma_queue_map_props<I: StorageIterator>(q: Seq<ActiveEntry<I>>)
    requires
        distinct_indices(q),
    ensures
        forall|p: int|
            0 <= p < q.len() ==> queue_map(q).dom().contains((#[trigger] q[p]).index as int)
                && queue_map(q)[q[p].index as int] == q[p].rem(),
        forall|j: int| #[trigger] queue_map(q).dom().contains(j) ==> queue_has_index(q, j),
        queue_map(q).dom().finite(),
{
    assert forall|p: int|
        0 <= p < q.len() implies queue_map(q).dom().contains((#[trigger] q[p]).index as int)
        && queue_map(q)[q[p].index as int] == q[p].rem() by {
        let j = q[p].index as int;
        assert(queue_has_index(q, j));
        let p2 = choose|p2: int| 0 <= p2 < q.len() && (#[trigger] q[p2]).index as int == j;
        assert(p2 == p);
    }
    let idxs = q.map_values(|e: ActiveEntry<I>| e.index as int).to_set();
    assert forall|j: int| #[trigger] queue_map(q).dom().contains(j) implies idxs.contains(j) by {
        let p = choose|p: int| 0 <= p < q.len() && (#[trigger] q[p]).index as int == j;
        assert(q.map_values(|e: ActiveEntry<I>| e.index as int)[p] == j);
    }
    assert(queue_map(q).dom().subset_of(idxs));
    vstd::seq_lib::seq_to_set_is_finite(q.map_values(|e: ActiveEntry<I>| e.index as int));
    lemma_set_subset_finite(idxs, queue_map(q).dom());
}

/// Appending an entry with a fresh index extends the mapped sources by it.
proof fn lemma_queue_map_push<I: StorageIterator>(q: Seq<ActiveEntry<I>>, e: ActiveEntry<I>)
    requires
        distinct_indices(q),
        !queue_has_index(q, e.index as int),
    ensures
        distinct_indices(q.push(e)),
        queue_map(q.push(e)) == queue_map(q).insert(e.index as int, e.rem()),
{
    let q2 = q.push(e);
    assert forall|p1: int, p2: int|
        0 <= p1 < p2 < q2.len() implies (#[trigger] q2[p1]).index != (#[trigger] q2[p2]).index by {
        if p2 == q.len() {
            assert(q2[p1] == q[p1]);
            if q[p1].index == e.index {
                assert(queue_has_index(q, e.index as int));
            }
        } else {
            assert(q2[p1] == q[p1]);
            assert(q2[p2] == q[p2]);
        }
    }
    lemma_queue_map_props(q);
    lemma_queue_map_props(q2);
    assert forall|j: int| #[trigger] queue_has_index(q2, j) implies queue_map(q2)[j] == queue_map(
        q,
    ).insert(e.index as int, e.rem())[j] && (queue_has_index(q, j) || j == e.index as int) by {
        let p = choose|p: int| 0 <= p < q2.len() && (#[trigger] q2[p]).index as int == j;
        if p == q.len() {
            assert(q2[p] == e);
        } else {
            assert(q2[p] == q[p]);
            assert(queue_has_index(q, j));
            if j == e.index as int {
                assert(queue_has_index(q, e.index as int));
            }
        }
    }
    assert forall|j: int| queue_has_index(q, j) implies queue_has_index(q2, j) by {
        let p = choose|p: int| 0 <= p < q.len() && (#[trigger] q[p]).index as int == j;
        assert(q2[p] == q[p]);
    }
    assert(queue_has_index(q2, e.index as int)) by {
        assert(q2[q.len() as int] == e);
    }
    assert(queue_map(q2) =~= queue_map(q).insert(e.index as int, e.rem()));
}

/// Removing the entry at `pos` by a swap with the last removes exactly its
/// index from the mapped sources.
proof fn lemma_queue_map_swap_remove<I: StorageIterator>(q: Seq<ActiveEntry<I>>, pos: int)
    requires
        distinct_indices(q),
        0 <= pos < q.len(),
    ensures
        distinct_indices(q.update(pos, q.last()).drop_last()),
        !queue_has_index(q.update(pos, q.last()).drop_last(), q[pos].index as int),
        queue_map(q.update(pos, q.last()).drop_last()) == queue_map(q).remove(
            q[pos].index as int,
        ),
{
    let q2 = q.update(pos, q.last()).drop_last();
    assert forall|p: int| 0 <= p < q2.len() implies q2[p] == q[p] || (p == pos && q2[p]
        == q.last()) by {}
    assert forall|p1: int, p2: int|
        0 <= p1 < p2 < q2.len() implies (#[trigger] q2[p1]).index != (#[trigger] q2[p2]).index by {
        if p1 == pos {
            assert(q2[p1] == q.last() && q2[p2] == q[p2]);
        } else if p2 == pos {
            assert(q2[p1] == q[p1] && q2[p2] == q.last());
        }
    }
    assert forall|j: int| #[trigger] queue_has_index(q2, j) implies j != q[pos].index as int
        && queue_has_index(q, j) by {
        let p = choose|p: int| 0 <= p < q2.len() && (#[trigger] q2[p]).index as int == j;
        if p == pos && q2[p] == q.last() {
            assert(q[q.len() - 1].index as int == j);
            assert(q.len() - 1 != pos);
        } else {
            assert(q2[p] == q[p]);
            if q[p].index as int == q[pos].index as int {
                assert(p == pos);
            }
        }
    }
    lemma_queue_map_props(q);
    lemma_queue_map_props(q2);
    assert forall|j: int|
        queue_has_index(q, j) && j != q[pos].index as int implies queue_has_index(q2, j)
        && queue_map(q2)[j] == queue_map(q)[j] by {
        let p = choose|p: int| 0 <= p < q.len() && (#[trigger] q[p]).index as int == j;
        if p == q.len() - 1 {
            if pos < q.len() - 1 {
                assert(q2[pos] == q.last());
                assert(q2[pos].index as int == j);
            }
        } else {
            assert(q2[p] == q[p]);
        }
        let p3 = choose|p3: int| 0 <= p3 < q2.len() && (#[trigger] q2[p3]).index as int == j;
        assert(queue_map(q2)[j] == q2[p3].rem());
    }
    assert(queue_map(q2) =~= queue_map(q).remove(q[pos].index as int));
}

proof fn lemma_total_rem_push<I: StorageIterator>(q: Seq<ActiveEntry<I>>, e: ActiveEntry<I>)
    ensures
        total_rem(q.push(e)) == total_rem(q) + e.rem().len(),
{
    assert(q.push(e).drop_last() =~= q);
    assert(q.push(e).last() == e);
}

proof fn lemma_total_rem_update<I: StorageIterator>(
    q: Seq<ActiveEntry<I>>,
    p: int,
    e: ActiveEntry<I>,
)
    requires
        0 <= p < q.len(),
    ensures
        total_rem(q.update(p, e)) + q[p].rem().len() == total_rem(q) + e.rem().len(),
    decreases q.len(),
{
    if p == q.len() - 1 {
        assert(q.update(p, e).drop_last() =~= q.drop_last());
        assert(q.update(p, e).last() == e);
    } else {
        lemma_total_rem_update(q.drop_last(), p, e);
        assert(q.update(p, e).drop_last() =~= q.drop_last().update(p, e));
        assert(q.update(p, e).last() == q.last());
    }
}

proof fn lemma_total_rem_swap_remove<I: StorageIterator>(q: Seq<ActiveEntry<I>>, pos: int)
    requires
        0 <= pos < q.len(),
    ensures
        total_rem(q.update(pos, q.last()).drop_last()) + q[pos].rem().len() == total_rem(q),
{
    lemma_total_rem_update(q, pos, q.last());
    let qu = q.update(pos, q.last());
    assert(qu.last() == q.last());
    assert(total_rem(qu) == total_rem(qu.drop_last()) + qu.last().rem().len());
}

/// Position of the queue entry with the smallest (current key, priority
/// index) pair.
fn find_min<I: StorageIterator>(queue: &Vec<ActiveEntry<I>>) -> (pos: usize)
    requires
        queue@.len() > 0,
        forall|p: int| 0 <= p < queue@.len() ==> (#[trigger] queue@[p]).wf(),
    ensures
        pos < queue@.len(),
        forall|p: int|
            0 <= p < queue@.len() ==> entry_le(
                queue@[pos as int].front_key(),
                queue@[pos as int].index as int,
                (#[trigger] queue@[p]).front_key(),
                queue@[p].index as int,
            ),
{
    let mut best: usize = 0;
    let mut bkey: Vec<u8> = queue[0].iter.key();
    let mut p: usize = 1;
    while p < queue.len()
        invariant
            queue@.len() > 0,
            forall|r: int| 0 <= r < queue@.len() ==> (#[trigger] queue@[r]).wf(),
            best < queue@.len(),
            1 <= p <= queue@.len(),
            bkey@ == queue@[best as int].front_key(),
            forall|r: int|
                0 <= r < p ==> entry_le(
                    bkey@,
                    queue@[best as int].index as int,
                    (#[trigger] queue@[r]).front_key(),
                    queue@[r].index as int,
                ),
        decreases queue@.len() - p,
    {
        let ckey = queue[p].iter.key();
        let take_it: bool = match key_compare(&ckey, &bkey) {
            KeyOrdering::Less => true,
            KeyOrdering::Equal => queue[p].index < queue[best].index,
            KeyOrdering::Greater => false,
        };
        if take_it {
            proof {
                assert forall|r: int|
                    0 <= r < p implies entry_le(
                    ckey@,
                    queue@[p as int].index as int,
                    (#[trigger] queue@[r]).front_key(),
                    queue@[r].index as int,
                ) by {
                    lemma_entry_le_transitive(
                        ckey@,
                        queue@[p as int].index as int,
                        bkey@,
                        queue@[best as int].index as int,
                        queue@[r].front_key(),
                        queue@[r].index as int,
                    );
                }
            }
            best = p;
            bkey = ckey;
        }
        p = p + 1;
    }
    proof {
        assert(entry_le(
            bkey@,
            queue@[best as int].index as int,
            bkey@,
            queue@[best as int].index as int,
        ));
    }
    best
}

/// Position of some queue entry currently exposing key `k`, if any.
fn find_key<I: StorageIterator>(queue: &Vec<ActiveEntry<I>>, k: &Vec<u8>) -> (pos: Option<usize>)
    requires
        forall|p: int| 0 <= p < queue@.len() ==> (#[trigger] queue@[p]).wf(),
    ensures
        match pos {
            Some(p) => p < queue@.len() && queue@[p as int].front_key() == k@,
            None => forall|p: int|
                0 <= p < queue@.len() ==> (#[trigger] queue@[p]).front_key() != k@,
        },
{
    let mut p: usize = 0;
    while p < queue.len()
        invariant
            p <= queue@.len(),
            forall|r: int| 0 <= r < queue@.len() ==> (#[trigger] queue@[r]).wf(),
            forall|r: int| 0 <= r < p ==> (#[trigger] queue@[r]).front_key() != k@,
        decreases queue@.len() - p,
    {
        let ckey = queue[p].iter.key();
        match key_compare(&ckey, k) {
            KeyOrdering::Equal => {
                return Some(p);
            }
            _ => {}
        }
        p = p + 1;
    }
    None
}

/// Merge several sources of the same type into one sorted stream. When the
/// same key is exposed by several sources at once, the one with the smaller
/// priority index wins and the others' records under that key are skipped.
pub struct MergeIterator<I: StorageIterator> {
    queue: Vec<ActiveEntry<I>>,
    current: Option<ActiveEntry<I>>,
}

impl<I: StorageIterator> MergeIterator<I> {
    /// The remaining entries of every active source, keyed by priority index.
    pub closed spec fn sources(self) -> Sources {
        match self.current {
            Some(e) => queue_map(self.queue@).insert(e.index as int, e.rem()),
            None => queue_map(self.queue@),
        }
    }

    /// The cursor exposes a record.
    pub closed spec fn valid(self) -> bool {
        self.current is Some
    }

    /// Structural well-formedness: every active source is wrapped exactly
    /// once, all are valid and sorted, and the current entry is minimal.
    pub closed spec fn wf_internal(self) -> bool {
        &&& (forall|p: int| 0 <= p < self.queue@.len() ==> (#[trigger] self.queue@[p]).wf())
        &&& distinct_indices(self.queue@)
        &&& match self.current {
            Some(e) => {
                &&& e.wf()
                &&& !queue_has_index(self.queue@, e.index as int)
                &&& (forall|p: int|
                    0 <= p < self.queue@.len() ==> entry_le(
                        e.front_key(),
                        e.index as int,
                        (#[trigger] self.queue@[p]).front_key(),
                        self.queue@[p].index as int,
                    ))
            },
            None => self.queue@.len() == 0,
        }
    }
}

/// A well-formed cursor models a well-formed source map, owned by its
/// current entry when one exists.
proof fn lemma_wf_sources<I: StorageIterator>(s: MergeIterator<I>)
    requires
        s.wf_internal(),
    ensures
        sources_wf(s.sources()),
        match s.current {
            Some(e) => is_min_source(s.sources(), e.index as int) && s.sources()[e.index as int]
                == e.rem() && s.sources().dom().len() > 0,
            None => s.sources().dom().len() == 0,
        },
{
    lemma_queue_map_props(s.queue@);
    match s.current {
        Some(e) => {
            let m = s.sources();
            assert forall|j: int| #[trigger] m.dom().contains(j) implies m[j].len() > 0
                && entries_sorted(m[j]) && entry_le(
                m[e.index as int][0].0,
                e.index as int,
                m[j][0].0,
                j,
            ) by {
                if j != e.index as int {
                    let p = choose|p: int|
                        0 <= p < s.queue@.len() && (#[trigger] s.queue@[p]).index as int == j;
                    assert(m[j] == s.queue@[p].rem());
                }
            }
            assert(m.dom().finite());
            assert(m.dom().contains(e.index as int));
            if m.dom().len() == 0 {
                lemma_len_zero_empty(m.dom());
            }
        }
        None => {
            assert(s.sources().dom() =~= Set::<int>::empty());
        }
    }
}

/// The sources a freshly built cursor starts from: every input that exposes
/// a record, under the position it held in the input order.
pub open spec fn initial_sources<I: StorageIterator>(iters: Seq<Box<I>>) -> Sources {
    Map::new(
        |j: int| 0 <= j < iters.len() && (*iters[j]).entries().len() > 0,
        |j: int| (*iters[j]).entries(),
    )
}

impl<I: StorageIterator> MergeIterator<I> {
    /// Build a merge cursor over `iters`. Position in the input order is the
    /// priority: on key ties the earliest-listed source wins. Sources that
    /// start out exhausted are discarded at once; if none is valid the
    /// cursor starts invalid.
    pub fn create(iters: Vec<Box<I>>) -> (c: Self)
        requires
            forall|p: int|
                0 <= p < iters@.len() ==> (*(#[trigger] iters@[p])).inv() && entries_sorted(
                    (*iters@[p]).entries(),
                ),
        ensures
            c.inv(),
            c.sources() == initial_sources(iters@),
            c.entries() == merge_spec(initial_sources(iters@)),
    {
        let ghost orig = iters@;
        let mut iters = iters;
        let mut queue: Vec<ActiveEntry<I>> = Vec::new();
        while iters.len() > 0
            invariant
                iters@ == orig.take(iters@.len() as int),
                iters@.len() <= orig.len(),
                forall|p: int|
                    0 <= p < orig.len() ==> (*(#[trigger] orig[p])).inv() && entries_sorted(
                        (*orig[p]).entries(),
                    ),
                forall|p: int|
                    0 <= p < queue@.len() ==> (#[trigger] queue@[p]).wf()
                        && iters@.len() <= queue@[p].index < orig.len() && queue@[p].rem() == (
                    *orig[queue@[p].index as int]).entries(),
                distinct_indices(queue@),
                forall|j: int|
                    iters@.len() <= j < orig.len() && (*orig[j]).entries().len() > 0
                        ==> queue_has_index(queue@, j),
            decreases iters@.len(),
        {
            let idx = iters.len() - 1;
            let it = match iters.pop() {
                Some(it) => it,
                None => {
                    proof {
                        assert(false);
                    }
                    return MergeIterator { queue: Vec::new(), current: None };
                }
            };
            proof {
                assert(orig.take(idx + 1).last() == orig[idx as int]);
                assert(orig.take(idx + 1).drop_last() =~= orig.take(idx as int));
            }
            let valid = it.is_valid();
            if valid {
                let ghost qold = queue@;
                let e = ActiveEntry { index: idx, iter: it };
                queue.push(e);
                proof {
                    assert forall|j: int|
                        iters@.len() <= j < orig.len() && (*orig[j]).entries().len() > 0
                            implies queue_has_index(queue@, j) by {
                        if j == idx as int {
                            assert(queue@[qold.len() as int].index as int == j);
                        } else {
                            assert(queue_has_index(qold, j));
                            let p = choose|p: int|
                                0 <= p < qold.len() && (#[trigger] qold[p]).index as int == j;
                            assert(queue@[p].index as int == j);
                        }
                    }
                }
            } else {
                proof {
                    assert forall|j: int|
                        iters@.len() <= j < orig.len() && (*orig[j]).entries().len() > 0
                            implies queue_has_index(queue@, j) by {
                        if j == idx as int {
                            assert((*orig[j]).entries().len() == 0);
                        } else {
                            assert(queue_has_index(queue@, j));
                        }
                    }
                }
            }
        }
        proof {
            assert(iters@.len() == 0);
        }
        let current: Option<ActiveEntry<I>>;
        let ghost qfull = queue@;
        proof {
            lemma_queue_map_props(qfull);
            assert forall|j: int| #[trigger] queue_has_index(qfull, j) implies 0 <= j
                < orig.len() && (*orig[j]).entries().len() > 0 && queue_map(qfull)[j] == (
            *orig[j]).entries() by {
                let p = choose|p: int|
                    0 <= p < qfull.len() && (#[trigger] qfull[p]).index as int == j;
            }
            assert(queue_map(qfull) =~= initial_sources(orig));
        }
        if queue.len() > 0 {
            let pos = find_min(&queue);
            let e = queue.swap_remove(pos);
            proof {
                lemma_queue_map_swap_remove(qfull, pos as int);
                assert forall|p: int|
                    0 <= p < queue@.len() implies (#[trigger] queue@[p]).wf() && entry_le(
                    e.front_key(),
                    e.index as int,
                    queue@[p].front_key(),
                    queue@[p].index as int,
                ) by {
                    assert(queue@[p] == qfull[p] || queue@[p] == qfull.last());
                }
                assert(queue_map(queue@).insert(e.index as int, e.rem()) =~= queue_map(qfull));
            }
            current = Some(e);
        } else {
            current = None;
        }
        let c = MergeIterator { queue, current };
        proof {
            assert(c.wf_internal());
            assert(c.sources() == initial_sources(orig));
        }
        c
    }
}

/// Law: the whole remaining output of a well-formed cursor is in
/// non-decreasing key order, whatever mix of sources it was built over.
pub proof fn lemma_cursor_output_sorted<I: StorageIterator>(c: MergeIterator<I>)
    requires
        c.inv(),
    ensures
        entries_sorted(c.entries()),
{
    lemma_wf_sources(c);
    lemma_merge_spec_sorted(c.sources());
}

/// Law: the remaining output visits exactly the keys the active sources
/// still hold: a record is dropped only while its key is being emitted from
/// a preferred source, so once the cursor is exhausted every key of every
/// source has been visited.
pub proof fn lemma_cursor_output_keys<I: StorageIterator>(c: MergeIterator<I>)
    requires
        c.inv(),
    ensures
        keys_of(c.entries()) == all_source_keys(c.sources()),
{
    lemma_wf_sources(c);
    lemma_merge_spec_keys(c.sources());
}

/// Law: the exposed record always comes from the source owning the smallest
/// (key, priority) pair, so any other source exposing the same key is
/// shadowed by one with a smaller priority index.
pub proof fn lemma_cursor_shadows<I: StorageIterator>(c: MergeIterator<I>, j: int)
    requires
        c.inv(),
        c.entries().len() > 0,
        c.sources().dom().contains(j),
        c.sources()[j][0].0 == c.entries()[0].0,
    ensures
        is_min_source(c.sources(), min_source(c.sources())),
        c.entries()[0] == c.sources()[min_source(c.sources())][0],
        min_source(c.sources()) <= j,
{
    lemma_wf_sources(c);
    lemma_merge_spec_len(c.sources());
    lemma_min_source_exists(c.sources());
    lemma_merge_spec_step(c.sources(), min_source(c.sources()));
    lemma_duplicate_key_shadowed(c.sources(), min_source(c.sources()), j);
}

/// Law: a cursor built over exactly one valid source reproduces that
/// source's records unchanged, in order.
pub proof fn lemma_cursor_single_source<I: StorageIterator>(iters: Seq<Box<I>>)
    requires
        iters.len() == 1,
        (*iters[0]).entries().len() > 0,
        entries_sorted((*iters[0]).entries()),
    ensures
        merge_spec(initial_sources(iters)) == (*iters[0]).entries(),
{
    assert(initial_sources(iters) =~= Map::<int, SourceEntries>::empty().insert(
        0,
        (*iters[0]).entries(),
    ));
    lemma_merge_spec_single(0, (*iters[0]).entries());
}

/// Law: merging zero sources, or only sources that start exhausted, merges
/// nothing: the cursor built from them is invalid from the start, and its
/// key and value read back empty.
pub proof fn lemma_create_no_valid_sources<I: StorageIterator>(iters: Seq<Box<I>>)
    requires
        forall|p: int| 0 <= p < iters.len() ==> (*(#[trigger] iters[p])).entries().len() == 0,
    ensures
        initial_sources(iters).dom() =~= Set::<int>::empty(),
        merge_spec(initial_sources(iters)) == Seq::<(Seq<u8>, Seq<u8>)>::empty(),
{
    assert(initial_sources(iters).dom() =~= Set::<int>::empty());
    lemma_merge_spec_empty(initial_sources(iters));
}

impl<I: StorageIterator> StorageIterator for MergeIterator<I> {
    closed spec fn inv(&self) -> bool {
        self.wf_internal()
    }

    open spec fn entries(&self) -> Seq<(Seq<u8>, Seq<u8>)> {
        merge_spec(self.sources())
    }

    fn is_valid(&self) -> (b: bool) {
        proof {
            lemma_wf_sources(*self);
            lemma_merge_spec_len(self.sources());
        }
        self.current.is_some()
    }

    fn key(&self) -> (k: Vec<u8>) {
        proof {
            lemma_wf_sources(*self);
        }
        match &self.current {
            Some(e) => {
                proof {
                    lemma_merge_spec_step(self.sources(), e.index as int);
                }
                e.iter.key()
            }
            None => {
                proof {
                    lemma_merge_spec_empty(self.sources());
                    assert(false);
                }
                Vec::new()
            }
        }
    }

    fn value(&self) -> (v: Vec<u8>) {
        proof {
            lemma_wf_sources(*self);
        }
        match &self.current {
            Some(e) => {
                proof {
                    lemma_merge_spec_step(self.sources(), e.index as int);
                }
                e.iter.value()
            }
            None => {
                proof {
                    lemma_merge_spec_empty(self.sources());
                    assert(false);
                }
                Vec::new()
            }
        }
    }

    fn next(&mut self) -> (r: Result<(), anyhow::Error>) {
        proof {
            lemma_wf_sources(*self);
            if self.current is None {
                lemma_merge_spec_empty(self.sources());
            }
        }
        let ghost m0 = self.sources();
        let mut cur = match self.current.take() {
            Some(cur) => cur,
            None => {
                proof {
                    assert(false);
                }
                return Ok(());
            }
        };
        let ghost i0 = cur.index as int;
        let ghost k0 = cur.front_key();
        let k = cur.iter.key();
        proof {
            lemma_queue_map_props(self.queue@);
            assert(queue_map(self.queue@) =~= m0.remove(i0));
            assert forall|p: int|
                0 <= p < self.queue@.len() implies {
                let j = (#[trigger] self.queue@[p]).index as int;
                m0.dom().contains(j) && j != i0 && k_suffix(m0[j], self.queue@[p].rem(), k0)
            } by {
                let j = self.queue@[p].index as int;
                assert(m0.remove(i0).dom().contains(j));
                assert(m0[j] == self.queue@[p].rem());
                lemma_k_suffix_init(m0[j], k0);
            }
        }
        loop
            invariant
                self.current is None,
                forall|p: int| 0 <= p < self.queue@.len() ==> (#[trigger] self.queue@[p]).wf(),
                distinct_indices(self.queue@),
                !queue_has_index(self.queue@, i0),
                cur.wf(),
                cur.index as int == i0,
                cur.rem() == m0[i0],
                k@ == k0,
                k0 == m0[i0][0].0,
                sources_wf(m0),
                is_min_source(m0, i0),
                m0.dom().contains(i0),
                forall|p: int|
                    0 <= p < self.queue@.len() ==> {
                        let j = (#[trigger] self.queue@[p]).index as int;
                        m0.dom().contains(j) && j != i0 && k_suffix(
                            m0[j],
                            self.queue@[p].rem(),
                            k0,
                        )
                    },
                forall|j: int|
                    #[trigger] m0.dom().contains(j) && j != i0 && !queue_has_index(self.queue@, j)
                        ==> skip_key(m0[j], k0).len() == 0,
            ensures
                self.current is None,
                forall|p: int| 0 <= p < self.queue@.len() ==> (#[trigger] self.queue@[p]).wf(),
                distinct_indices(self.queue@),
                !queue_has_index(self.queue@, i0),
                forall|p: int|
                    0 <= p < self.queue@.len() ==> {
                        let j = (#[trigger] self.queue@[p]).index as int;
                        m0.dom().contains(j) && j != i0 && k_suffix(
                            m0[j],
                            self.queue@[p].rem(),
                            k0,
                        ) && self.queue@[p].front_key() != k0
                    },
                forall|j: int|
                    #[trigger] m0.dom().contains(j) && j != i0 && !queue_has_index(self.queue@, j)
                        ==> skip_key(m0[j], k0).len() == 0,
            decreases total_rem(self.queue@),
        {
            let pos_opt = find_key(&self.queue, &k);
            let pos = match pos_opt {
                None => {
                    break ;
                }
                Some(pos) => pos,
            };
            let ghost qold = self.queue@;
            let mut e = self.queue.swap_remove(pos);
            let ghost j = e.index as int;
            let ghost erem = e.rem();
            proof {
                lemma_queue_map_props(qold);
                lemma_queue_map_swap_remove(qold, pos as int);
                lemma_queue_map_props(self.queue@);
                lemma_total_rem_swap_remove(qold, pos as int);
            }
            match e.iter.next() {
                Ok(()) => {}
                Err(err) => {
                    return Err(err);
                }
            }
            proof {
                lemma_k_suffix_step(m0[j], erem, k0);
                crate::model::lemma_sorted_skip(erem, 1);
                assert(erem.drop_first() =~= erem.skip(1));
            }
            let valid = e.iter.is_valid();
            if valid {
                let ghost qmid = self.queue@;
                self.queue.push(e);
                proof {
                    assert(e.wf());
                    lemma_queue_map_push(qmid, e);
                    lemma_total_rem_push(qmid, e);
                    assert(queue_has_index(self.queue@, j)) by {
                        assert(self.queue@[qmid.len() as int].index as int == j);
                    }
                    assert forall|j2: int|
                        #[trigger] m0.dom().contains(j2) && j2 != i0 && !queue_has_index(
                            self.queue@,
                            j2,
                        ) implies skip_key(m0[j2], k0).len() == 0 by {
                        if j2 != j && queue_has_index(qold, j2) {
                            let p0 = choose|p0: int|
                                0 <= p0 < qold.len() && (#[trigger] qold[p0]).index as int == j2;
                            assert(queue_map(qold).dom().contains(j2));
                            assert(queue_map(qmid).dom().contains(j2));
                            assert(queue_has_index(qmid, j2));
                            let p = choose|p: int|
                                0 <= p < qmid.len() && (#[trigger] qmid[p]).index as int == j2;
                            assert(self.queue@[p].index as int == j2);
                            assert(queue_has_index(self.queue@, j2));
                        }
                    }
                    assert forall|p: int|
                        0 <= p < self.queue@.len() implies {
                        let j2 = (#[trigger] self.queue@[p]).index as int;
                        m0.dom().contains(j2) && j2 != i0 && k_suffix(
                            m0[j2],
                            self.queue@[p].rem(),
                            k0,
                        )
                    } by {
                        if p < qmid.len() {
                            assert(self.queue@[p] == qmid[p]);
                            assert(qmid[p] == qold[p] || qmid[p] == qold.last());
                        } else {
                            assert(self.queue@[p] == e);
                        }
                    }
                }
            } else {
                proof {
                    assert(e.rem().len() == 0);
                    lemma_k_suffix_done(m0[j], erem.drop_first(), k0);
                    assert(skip_key(m0[j], k0).len() == 0);
                    assert forall|j2: int|
                        #[trigger] m0.dom().contains(j2) && j2 != i0 && !queue_has_index(
                            self.queue@,
                            j2,
                        ) implies skip_key(m0[j2], k0).len() == 0 by {
                        if j2 != j && queue_has_index(qold, j2) {
                            let p0 = choose|p0: int|
                                0 <= p0 < qold.len() && (#[trigger] qold[p0]).index as int == j2;
                            assert(queue_map(qold).dom().contains(j2));
                            assert(queue_map(self.queue@).dom().contains(j2));
                            assert(queue_has_index(self.queue@, j2));
                        }
                    }
                    assert forall|p: int|
                        0 <= p < self.queue@.len() implies {
                        let j2 = (#[trigger] self.queue@[p]).index as int;
                        m0.dom().contains(j2) && j2 != i0 && k_suffix(
                            m0[j2],
                            self.queue@[p].rem(),
                            k0,
                        )
                    } by {
                        assert(self.queue@[p] == qold[p] || self.queue@[p] == qold.last());
                    }
                }
            }
        }
        // The queue now holds, for every shadowed source, exactly what
        // remains past its run of records under the consumed key.
        let ghost m1 = merge_step(m0, i0, k0);
        proof {
            lemma_queue_map_props(self.queue@);
            assert forall|p: int|
                0 <= p < self.queue@.len() implies (#[trigger] self.queue@[p]).rem() == skip_key(
                m0[self.queue@[p].index as int],
                k0,
            ) by {
                lemma_k_suffix_done(
                    m0[self.queue@[p].index as int],
                    self.queue@[p].rem(),
                    k0,
                );
            }
        }
        match cur.iter.next() {
            Ok(()) => {}
            Err(err) => {
                return Err(err);
            }
        }
        let cur_valid = cur.iter.is_valid();
        let ghost qdrained = self.queue@;
        if cur_valid {
            proof {
                assert(!queue_has_index(qdrained, i0));
                lemma_queue_map_push(qdrained, cur);
            }
            self.queue.push(cur);
        }
        proof {
            assert(queue_map(self.queue@) =~= m1);
        }
        let ghost qfinal = self.queue@;
        if self.queue.len() > 0 {
            let pos = find_min(&self.queue);
            let e = self.queue.swap_remove(pos);
            proof {
                lemma_queue_map_swap_remove(qfinal, pos as int);
                lemma_queue_map_props(qfinal);
                assert forall|p: int|
                    0 <= p < self.queue@.len() implies (#[trigger] self.queue@[p]).wf()
                    && entry_le(
                    e.front_key(),
                    e.index as int,
                    self.queue@[p].front_key(),
                    self.queue@[p].index as int,
                ) by {
                    assert(self.queue@[p] == qfinal[p] || self.queue@[p] == qfinal.last());
                }
                assert(queue_map(self.queue@).insert(e.index as int, e.rem()) =~= queue_map(
                    qfinal,
                ));
            }
            self.current = Some(e);
            proof {
                assert(self.sources() =~= m1);
            }
        } else {
            self.current = None;
            proof {
                assert(self.sources() =~= m1);
            }
        }
        proof {
            lemma_merge_spec_step(m0, i0);
            assert(self.wf_internal());
            assert(self.entries() == old(self).entries().drop_first());
        }
        Ok(())
    }
}

impl<I: StorageIterator> MergeIterator<I> {
    /// The exposed key, or empty bytes when the cursor is exhausted:
    /// querying an exhausted cursor is an ordinary, observable state.
    pub fn key(&self) -> (k: Vec<u8>)
        requires
            self.inv(),
        ensures
            self.entries().len() > 0 ==> k@ == self.entries()[0].0,
            self.entries().len() == 0 ==> k@ == Seq::<u8>::empty(),
    {
        proof {
            lemma_wf_sources(*self);
        }
        match &self.current {
            Some(e) => {
                proof {
                    lemma_merge_spec_step(self.sources(), e.index as int);
                }
                e.iter.key()
            }
            None => {
                proof {
                    lemma_merge_spec_empty(self.sources());
                }
                Vec::new()
            }
        }
    }

    /// The exposed value, or empty bytes when the cursor is exhausted.
    pub fn value(&self) -> (v: Vec<u8>)
        requires
            self.inv(),
        ensures
            self.entries().len() > 0 ==> v@ == self.entries()[0].1,
            self.entries().len() == 0 ==> v@ == Seq::<u8>::empty(),
    {
        proof {
            lemma_wf_sources(*self);
        }
        match &self.current {
            Some(e) => {
                proof {
                    lemma_merge_spec_step(self.sources(), e.index as int);
                }
                e.iter.value()
            }
            None => {
                proof {
                    lemma_merge_spec_empty(self.sources());
                }
                Vec::new()
            }
        }
    }
}

} // verus!
