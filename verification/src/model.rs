//! The mathematical model of k-way merging: the remaining entries of every
//! active source, indexed by priority, and the merged output they determine.

use vstd::prelude::*;
use vstd::set_lib::lemma_set_subset_finite;
use crate::order::{
    key_lt, key_le, entry_le, entries_sorted, entries_strictly_sorted, lemma_key_lt_total,
    lemma_key_lt_transitive, lemma_key_le_transitive, lemma_entry_le_total,
    lemma_entry_le_transitive,
};

verus! {

/// The entries a single source still has to produce, the exposed one first.
pub type SourceEntries = Seq<(Seq<u8>, Seq<u8>)>;

/// The remaining entries of every active source, keyed by priority index.
pub type Sources = Map<int, SourceEntries>;

/// Every active source is non-empty and sorted, and only finitely many exist.
pub open spec fn sources_wf(m: Sources) -> bool {
    &&& m.dom().finite()
    &&& forall|j: int| #[trigger] m.dom().contains(j) ==> m[j].len() > 0 && entries_sorted(m[j])
}

/// Source `i` owns the output position: no active source has a smaller
/// (current key, priority index) pair.
pub open spec fn is_min_source(m: Sources, i: int) -> bool {
    &&& m.dom().contains(i)
    &&& forall|j: int| #[trigger] m.dom().contains(j) ==> entry_le(m[i][0].0, i, m[j][0].0, j)
}

/// The priority index of the source owning the output position.
pub open spec fn min_source(m: Sources) -> int {
    choose|i: int| is_min_source(m, i)
}

/// Drop the leading run of records whose key is `k`.
pub open spec fn skip_key(s: SourceEntries, k: Seq<u8>) -> SourceEntries
    decreases s.len(),
{
    if s.len() > 0 && s[0].0 == k {
        skip_key(s.drop_first(), k)
    } else {
        s
    }
}

/// `skip_key` yields the suffix that starts at the first record whose key is
/// not `k`.
pub proof fn lemma_skip_key_is_suffix(s: SourceEntries, k: Seq<u8>)
    ensures
        exists|t: int|
            0 <= t <= s.len() && skip_key(s, k) == s.skip(t) && (forall|d: int|
                0 <= d < t ==> s[d].0 == k) && (t == s.len() || s[t].0 != k),
    decreases s.len(),
{
    if s.len() > 0 && s[0].0 == k {
        lemma_skip_key_is_suffix(s.drop_first(), k);
        let t0 = choose|t0: int|
            0 <= t0 <= s.drop_first().len() && skip_key(s.drop_first(), k) == s.drop_first().skip(
                t0,
            ) && (forall|d: int| 0 <= d < t0 ==> s.drop_first()[d].0 == k) && (t0
                == s.drop_first().len() || s.drop_first()[t0].0 != k);
        let t = t0 + 1;
        assert(s.drop_first().skip(t0) =~= s.skip(t));
        assert forall|d: int| 0 <= d < t implies s[d].0 == k by {
            if d > 0 {
                assert(s.drop_first()[d - 1] == s[d]);
            }
        }
        assert(t == s.len() || s[t].0 != k) by {
            if t < s.len() {
                assert(s.drop_first()[t0] == s[t]);
            }
        }
        assert(0 <= t <= s.len() && skip_key(s, k) == s.skip(t) && (forall|d: int|
            0 <= d < t ==> s[d].0 == k) && (t == s.len() || s[t].0 != k));
    } else {
        assert(s.skip(0) =~= s);
        assert(0 <= 0 <= s.len() && skip_key(s, k) == s.skip(0) && (forall|d: int|
            0 <= d < 0 ==> s[d].0 == k) && (0 == s.len() || s[0].0 != k));
    }
}

/// Dropping leading records one at a time, while each dropped record carried
/// key `k` and the first kept one does not, lands exactly on `skip_key`.
pub proof fn lemma_skip_key_reaches(s: SourceEntries, k: Seq<u8>, t: int)
    requires
        0 <= t <= s.len(),
        forall|d: int| 0 <= d < t ==> s[d].0 == k,
        t == s.len() || s[t].0 != k,
    ensures
        skip_key(s, k) == s.skip(t),
    decreases t,
{
    if t == 0 {
        assert(s.skip(0) =~= s);
    } else {
        assert(s[0].0 == k);
        assert forall|d: int| 0 <= d < t - 1 implies s.drop_first()[d].0 == k by {
            assert(s.drop_first()[d] == s[d + 1]);
        }
        assert(t - 1 == s.drop_first().len() || s.drop_first()[t - 1].0 != k) by {
            if t < s.len() {
                assert(s.drop_first()[t - 1] == s[t]);
            }
        }
        lemma_skip_key_reaches(s.drop_first(), k, t - 1);
        assert(s.drop_first().skip(t - 1) =~= s.skip(t));
    }
}

/// A sorted suffix of a sorted sequence stays sorted.
pub proof fn lemma_sorted_skip(s: SourceEntries, t: int)
    requires
        entries_sorted(s),
        0 <= t <= s.len(),
    ensures
        entries_sorted(s.skip(t)),
{
    assert forall|p: int, q: int| 0 <= p < q < s.skip(t).len() implies key_le(
        #[trigger] s.skip(t)[p].0,
        #[trigger] s.skip(t)[q].0,
    ) by {
        assert(s.skip(t)[p] == s[p + t]);
        assert(s.skip(t)[q] == s[q + t]);
    }
}

pub proof fn lemma_strictly_sorted_skip(s: SourceEntries, t: int)
    requires
        entries_strictly_sorted(s),
        0 <= t <= s.len(),
    ensures
        entries_strictly_sorted(s.skip(t)),
{
    assert forall|p: int, q: int| 0 <= p < q < s.skip(t).len() implies key_lt(
        #[trigger] s.skip(t)[p].0,
        #[trigger] s.skip(t)[q].0,
    ) by {
        assert(s.skip(t)[p] == s[p + t]);
        assert(s.skip(t)[q] == s[q + t]);
    }
}

/// What `skip_key` keeps: a sorted suffix whose first key differs from `k`
/// and comes no earlier than the original first key.
pub proof fn lemma_skip_key_props(s: SourceEntries, k: Seq<u8>)
    requires
        entries_sorted(s),
    ensures
        skip_key(s, k).len() <= s.len(),
        entries_sorted(skip_key(s, k)),
        skip_key(s, k).len() > 0 ==> skip_key(s, k)[0].0 != k,
        s.len() > 0 && skip_key(s, k).len() > 0 ==> key_le(s[0].0, skip_key(s, k)[0].0),
{
    lemma_skip_key_is_suffix(s, k);
    let t = choose|t: int|
        0 <= t <= s.len() && skip_key(s, k) == s.skip(t) && (forall|d: int|
            0 <= d < t ==> s[d].0 == k) && (t == s.len() || s[t].0 != k);
    lemma_sorted_skip(s, t);
    if skip_key(s, k).len() > 0 {
        assert(s.skip(t)[0] == s[t]);
    }
}

/// `cur` is what is left of `orig` after dropping some leading records that
/// all carried key `k`: the intermediate states of a shadow-skipping pass.
pub open spec fn k_suffix(orig: SourceEntries, cur: SourceEntries, k: Seq<u8>) -> bool {
    exists|t: int|
        0 <= t <= orig.len() && cur == orig.skip(t) && (forall|d: int|
            0 <= d < t ==> orig[d].0 == k)
}

pub proof fn lemma_k_suffix_init(orig: SourceEntries, k: Seq<u8>)
    ensures
        k_suffix(orig, orig, k),
{
    assert(orig.skip(0) =~= orig);
    assert(0 <= 0 <= orig.len() && orig == orig.skip(0) && (forall|d: int|
        0 <= d < 0 ==> orig[d].0 == k));
}

pub proof fn lemma_k_suffix_step(orig: SourceEntries, cur: SourceEntries, k: Seq<u8>)
    requires
        k_suffix(orig, cur, k),
        cur.len() > 0,
        cur[0].0 == k,
    ensures
        k_suffix(orig, cur.drop_first(), k),
{
    let t = choose|t: int|
        0 <= t <= orig.len() && cur == orig.skip(t) && (forall|d: int|
            0 <= d < t ==> orig[d].0 == k);
    assert(orig.skip(t)[0] == orig[t]);
    assert(cur.drop_first() =~= orig.skip(t + 1));
    assert forall|d: int| 0 <= d < t + 1 implies orig[d].0 == k by {}
    assert(0 <= t + 1 <= orig.len() && cur.drop_first() == orig.skip(t + 1) && (forall|d: int|
        0 <= d < t + 1 ==> orig[d].0 == k));
}

/// Once the first remaining key differs from `k`, the pass has computed
/// exactly `skip_key`.
pub proof fn lemma_k_suffix_done(orig: SourceEntries, cur: SourceEntries, k: Seq<u8>)
    requires
        k_suffix(orig, cur, k),
        cur.len() == 0 || cur[0].0 != k,
    ensures
        cur == skip_key(orig, k),
{
    let t = choose|t: int|
        0 <= t <= orig.len() && cur == orig.skip(t) && (forall|d: int|
            0 <= d < t ==> orig[d].0 == k);
    if cur.len() == 0 {
        assert(t == orig.len());
    } else {
        assert(orig.skip(t)[0] == orig[t]);
    }
    lemma_skip_key_reaches(orig, k, t);
}

/// The set of keys a sequence of records carries.
pub open spec fn keys_of(s: SourceEntries) -> Set<Seq<u8>> {
    Set::new(|k: Seq<u8>| exists|q: int| 0 <= q < s.len() && (#[trigger] s[q]).0 == k)
}

/// `skip_key` loses no key other than `k`, and adds none.
pub proof fn lemma_skip_key_keys(s: SourceEntries, k: Seq<u8>)
    ensures
        keys_of(skip_key(s, k)).subset_of(keys_of(s)),
        keys_of(s).subset_of(keys_of(skip_key(s, k)).insert(k)),
    decreases s.len(),
{
    if s.len() > 0 && s[0].0 == k {
        lemma_skip_key_keys(s.drop_first(), k);
        assert forall|x: Seq<u8>| keys_of(s.drop_first()).contains(x) implies keys_of(
            s,
        ).contains(x) by {
            let q = choose|q: int| 0 <= q < s.drop_first().len() && s.drop_first()[q].0 == x;
            assert(s[q + 1] == s.drop_first()[q]);
        }
        assert forall|x: Seq<u8>| keys_of(s).contains(x) implies keys_of(
            s.drop_first(),
        ).insert(k).contains(x) by {
            let q = choose|q: int| 0 <= q < s.len() && s[q].0 == x;
            if q > 0 {
                assert(s.drop_first()[q - 1] == s[q]);
            }
        }
    }
}

/// The total number of records still held across all active sources.
pub open spec fn total_size(m: Sources) -> nat
    decreases m.dom().len(),
    when m.dom().finite()
{
    if m.dom().len() == 0 {
        0
    } else {
        let j = m.dom().choose();
        if m.dom().contains(j) {
            m[j].len() + total_size(m.remove(j))
        } else {
            0
        }
    }
}

/// A finite non-empty set has a member, and its `choose` is one.
proof fn lemma_set_choose_member(s: Set<int>)
    requires
        s.finite(),
        s.len() > 0,
    ensures
        s.contains(s.choose()),
{
    if forall|x: int| !s.contains(x) {
        assert(s =~= Set::<int>::empty());
    }
}

/// Splitting off any one member of the map splits `total_size` accordingly.
pub proof fn lemma_total_size_remove(m: Sources, j: int)
    requires
        m.dom().finite(),
        m.dom().contains(j),
    ensures
        total_size(m) == m[j].len() + total_size(m.remove(j)),
    decreases m.dom().len(),
{
    lemma_set_choose_member(m.dom());
    let c = m.dom().choose();
    if c == j {
    } else {
        lemma_total_size_remove(m.remove(c), j);
        lemma_total_size_remove(m.remove(j), c);
        assert(m.remove(c).remove(j) =~= m.remove(j).remove(c));
    }
}

/// A pointwise-smaller map has no larger total size.
pub proof fn lemma_total_size_le(m1: Sources, m2: Sources)
    requires
        m1.dom().finite(),
        m2.dom().finite(),
        m2.dom().subset_of(m1.dom()),
        forall|j: int| #[trigger] m2.dom().contains(j) ==> m2[j].len() <= m1[j].len(),
    ensures
        total_size(m2) <= total_size(m1),
    decreases m1.dom().len(),
{
    if m2.dom().len() == 0 {
        lemma_total_size_le_zero(m1);
    } else {
        lemma_set_choose_member(m2.dom());
        let c = m2.dom().choose();
        lemma_total_size_remove(m1, c);
        lemma_total_size_remove(m2, c);
        lemma_total_size_le(m1.remove(c), m2.remove(c));
    }
}

proof fn lemma_total_size_le_zero(m: Sources)
    requires
        m.dom().finite(),
    ensures
        total_size(m) >= 0,
{
}

/// A map that shrank somewhere and grew nowhere has a strictly smaller total
/// size, provided every source of the larger map holds at least one record.
pub proof fn lemma_total_size_lt(m1: Sources, m2: Sources, jw: int)
    requires
        m1.dom().finite(),
        m2.dom().finite(),
        m2.dom().subset_of(m1.dom()),
        forall|j: int| #[trigger] m2.dom().contains(j) ==> m2[j].len() <= m1[j].len(),
        m1.dom().contains(jw),
        m1[jw].len() > 0,
        m2.dom().contains(jw) ==> m2[jw].len() < m1[jw].len(),
    ensures
        total_size(m2) < total_size(m1),
{
    lemma_total_size_remove(m1, jw);
    if m2.dom().contains(jw) {
        lemma_total_size_remove(m2, jw);
        lemma_total_size_le(m1.remove(jw), m2.remove(jw));
    } else {
        lemma_total_size_le(m1.remove(jw), m2);
    }
}

/// What remains of source `j` once the record under key `k`, owned by source
/// `i`, has been consumed: the owner drops exactly that record, every other
/// source skips its whole run of now-shadowed `k` records.
pub open spec fn advanced(m: Sources, i: int, k: Seq<u8>, j: int) -> SourceEntries {
    if j == i {
        m[j].drop_first()
    } else {
        skip_key(m[j], k)
    }
}

/// One merge step: advance every source as `advanced` says and drop the
/// sources that thereby become exhausted.
pub open spec fn merge_step(m: Sources, i: int, k: Seq<u8>) -> Sources {
    Map::new(
        |j: int| m.dom().contains(j) && advanced(m, i, k, j).len() > 0,
        |j: int| advanced(m, i, k, j),
    )
}

pub proof fn lemma_merge_step_wf(m: Sources, i: int)
    requires
        sources_wf(m),
        is_min_source(m, i),
    ensures
        sources_wf(merge_step(m, i, m[i][0].0)),
        merge_step(m, i, m[i][0].0).dom().subset_of(m.dom()),
        total_size(merge_step(m, i, m[i][0].0)) < total_size(m),
{
    let k = m[i][0].0;
    let step = merge_step(m, i, k);
    assert(step.dom().subset_of(m.dom()));
    lemma_set_subset_finite(m.dom(), step.dom());
    assert forall|j: int| #[trigger] step.dom().contains(j) implies step[j].len() > 0
        && entries_sorted(step[j]) && step[j].len() <= m[j].len() by {
        if j == i {
            lemma_sorted_skip(m[j], 1);
            assert(m[j].drop_first() =~= m[j].skip(1));
        } else {
            lemma_skip_key_props(m[j], k);
            lemma_skip_key_is_suffix(m[j], k);
        }
    }
    assert forall|j: int| #[trigger] step.dom().contains(j) implies step[j].len()
        <= m[j].len() by {
        if j != i {
            lemma_skip_key_props(m[j], k);
        }
    }
    lemma_total_size_lt(m, step, i);
}

/// The merged output: the record of the owning source, then the merge of
/// what the step leaves behind.
pub open spec fn merge_spec(m: Sources) -> SourceEntries
    decreases total_size(m) via merge_spec_decreases
{
    if sources_wf(m) && m.dom().len() > 0 && is_min_source(m, min_source(m)) {
        let i = min_source(m);
        seq![m[i][0]] + merge_spec(merge_step(m, i, m[i][0].0))
    } else {
        Seq::empty()
    }
}

#[via_fn]
proof fn merge_spec_decreases(m: Sources) {
    if sources_wf(m) && m.dom().len() > 0 && is_min_source(m, min_source(m)) {
        lemma_merge_step_wf(m, min_source(m));
    }
}

/// Some source owns the output position of any non-empty well-formed state,
/// and `min_source` names one.
pub proof fn lemma_min_source_exists(m: Sources)
    requires
        sources_wf(m),
        m.dom().len() > 0,
    ensures
        is_min_source(m, min_source(m)),
    decreases m.dom().len(),
{
    lemma_set_choose_member(m.dom());
    let x = m.dom().choose();
    let rest = m.remove(x);
    if rest.dom().len() == 0 {
        assert forall|j: int| #[trigger] m.dom().contains(j) implies entry_le(
            m[x][0].0,
            x,
            m[j][0].0,
            j,
        ) by {
            if j != x {
                assert(rest.dom().contains(j));
                assert(rest.dom().len() > 0) by {
                    if rest.dom().len() == 0 {
                        crate::model::lemma_len_zero_empty(rest.dom());
                    }
                }
            }
        }
        assert(is_min_source(m, x));
    } else {
        lemma_min_source_exists(rest);
        let i0 = min_source(rest);
        lemma_entry_le_total(m[i0][0].0, i0, m[x][0].0, x);
        if entry_le(m[i0][0].0, i0, m[x][0].0, x) {
            assert forall|j: int| #[trigger] m.dom().contains(j) implies entry_le(
                m[i0][0].0,
                i0,
                m[j][0].0,
                j,
            ) by {
                if j != x {
                    assert(rest.dom().contains(j));
                    assert(entry_le(rest[i0][0].0, i0, rest[j][0].0, j));
                }
            }
            assert(is_min_source(m, i0));
        } else {
            assert forall|j: int| #[trigger] m.dom().contains(j) implies entry_le(
                m[x][0].0,
                x,
                m[j][0].0,
                j,
            ) by {
                if j != x {
                    assert(rest.dom().contains(j));
                    assert(entry_le(rest[i0][0].0, i0, rest[j][0].0, j));
                    lemma_entry_le_transitive(
                        m[x][0].0,
                        x,
                        m[i0][0].0,
                        i0,
                        m[j][0].0,
                        j,
                    );
                }
            }
            assert(is_min_source(m, x));
        }
    }
}

/// A finite set of length zero has no member.
pub proof fn lemma_len_zero_empty(s: Set<int>)
    requires
        s.finite(),
        s.len() == 0,
    ensures
        s =~= Set::<int>::empty(),
{
    if exists|x: int| s.contains(x) {
        let x = choose|x: int| s.contains(x);
        assert(s.remove(x).len() + 1 == s.len());
    }
}

/// Only one source can own the output position.
pub proof fn lemma_min_source_unique(m: Sources, i1: int, i2: int)
    requires
        is_min_source(m, i1),
        is_min_source(m, i2),
    ensures
        i1 == i2,
{
    lemma_key_lt_total(m[i1][0].0, m[i2][0].0);
}

/// Unfolds one round of the merge: the owning source's record comes out
/// first, and the rest is the merge of the stepped state.
pub proof fn lemma_merge_spec_step(m: Sources, i: int)
    requires
        sources_wf(m),
        is_min_source(m, i),
    ensures
        min_source(m) == i,
        merge_spec(m).len() > 0,
        merge_spec(m)[0] == m[i][0],
        merge_spec(m).drop_first() == merge_spec(merge_step(m, i, m[i][0].0)),
        merge_spec(m) == seq![m[i][0]] + merge_spec(merge_step(m, i, m[i][0].0)),
{
    assert(is_min_source(m, min_source(m)));
    lemma_min_source_unique(m, i, min_source(m));
    assert(m.dom().len() > 0) by {
        if m.dom().len() == 0 {
            lemma_len_zero_empty(m.dom());
        }
    }
    let rest = merge_spec(merge_step(m, i, m[i][0].0));
    assert(merge_spec(m) == seq![m[i][0]] + rest);
    assert((seq![m[i][0]] + rest)[0] == m[i][0]);
    assert((seq![m[i][0]] + rest).drop_first() =~= rest);
}

/// An empty or ill-formed state merges to nothing.
pub proof fn lemma_merge_spec_empty(m: Sources)
    requires
        m.dom().len() == 0 || !sources_wf(m),
    ensures
        merge_spec(m) == Seq::<(Seq<u8>, Seq<u8>)>::empty(),
{
}

/// The merge of a well-formed state is non-empty exactly while a source is
/// active.
pub proof fn lemma_merge_spec_len(m: Sources)
    requires
        sources_wf(m),
    ensures
        (merge_spec(m).len() > 0) == (m.dom().len() > 0),
{
    if m.dom().len() > 0 {
        lemma_min_source_exists(m);
        lemma_merge_spec_step(m, min_source(m));
    }
}

/// Whether `a` precedes `b`, strictly or not.
pub open spec fn key_below(strict: bool, a: Seq<u8>, b: Seq<u8>) -> bool {
    if strict {
        key_lt(a, b)
    } else {
        key_le(a, b)
    }
}

proof fn lemma_key_below_le(strict: bool, a: Seq<u8>, b: Seq<u8>, c: Seq<u8>)
    requires
        key_below(strict, a, b),
        key_le(b, c),
    ensures
        key_below(strict, a, c),
{
    if strict {
        if key_lt(b, c) {
            lemma_key_lt_transitive(a, b, c);
        }
    } else {
        lemma_key_le_transitive(a, b, c);
    }
}

/// Every key of the merged output lies at or above any bound that lies at or
/// below every source's current key.
proof fn lemma_merge_spec_bound(m: Sources, lb: Seq<u8>, strict: bool)
    requires
        sources_wf(m),
        forall|j: int| #[trigger] m.dom().contains(j) ==> key_below(strict, lb, m[j][0].0),
    ensures
        forall|q: int|
            0 <= q < merge_spec(m).len() ==> key_below(
                strict,
                lb,
                (#[trigger] merge_spec(m)[q]).0,
            ),
    decreases total_size(m),
{
    if m.dom().len() > 0 {
        lemma_min_source_exists(m);
        let i = min_source(m);
        let k = m[i][0].0;
        lemma_merge_spec_step(m, i);
        lemma_merge_step_wf(m, i);
        let step = merge_step(m, i, k);
        assert forall|j: int| #[trigger] step.dom().contains(j) implies key_below(
            strict,
            lb,
            step[j][0].0,
        ) by {
            if j == i {
                assert(m[i].drop_first()[0] == m[i][1]);
                assert(key_le(k, m[i][1].0));
                lemma_key_below_le(strict, lb, k, m[i][1].0);
            } else {
                lemma_skip_key_props(m[j], k);
                lemma_key_below_le(strict, lb, m[j][0].0, skip_key(m[j], k)[0].0);
            }
        }
        lemma_merge_spec_bound(step, lb, strict);
        let out = merge_spec(m);
        let rec = merge_spec(step);
        assert forall|q: int| 0 <= q < out.len() implies key_below(strict, lb, out[q].0) by {
            if q > 0 {
                assert(out[q] == rec[q - 1]);
            }
        }
    } else {
        lemma_merge_spec_empty(m);
    }
}

/// Law: merging sources whose keys are individually non-decreasing yields a
/// stream whose keys are globally non-decreasing.
pub proof fn lemma_merge_spec_sorted(m: Sources)
    requires
        sources_wf(m),
    ensures
        entries_sorted(merge_spec(m)),
    decreases total_size(m),
{
    if m.dom().len() > 0 {
        lemma_min_source_exists(m);
        let i = min_source(m);
        let k = m[i][0].0;
        lemma_merge_spec_step(m, i);
        lemma_merge_step_wf(m, i);
        let step = merge_step(m, i, k);
        lemma_merge_spec_sorted(step);
        assert forall|j: int| #[trigger] step.dom().contains(j) implies key_below(
            false,
            k,
            step[j][0].0,
        ) by {
            if j == i {
                assert(m[i].drop_first()[0] == m[i][1]);
            } else {
                lemma_skip_key_props(m[j], k);
                lemma_key_le_transitive(k, m[j][0].0, skip_key(m[j], k)[0].0);
            }
        }
        lemma_merge_spec_bound(step, k, false);
        let out = merge_spec(m);
        let rec = merge_spec(step);
        assert forall|p: int, q: int| 0 <= p < q < out.len() implies key_le(
            #[trigger] out[p].0,
            #[trigger] out[q].0,
        ) by {
            assert(out[q] == rec[q - 1]);
            if p > 0 {
                assert(out[p] == rec[p - 1]);
            }
        }
    }
}

/// Law: when every source's keys are strictly increasing, the merged keys
/// are strictly increasing too, so no key is visited twice.
pub proof fn lemma_merge_spec_strictly_sorted(m: Sources)
    requires
        sources_wf(m),
        forall|j: int| #[trigger] m.dom().contains(j) ==> entries_strictly_sorted(m[j]),
    ensures
        entries_strictly_sorted(merge_spec(m)),
    decreases total_size(m),
{
    if m.dom().len() > 0 {
        lemma_min_source_exists(m);
        let i = min_source(m);
        let k = m[i][0].0;
        lemma_merge_spec_step(m, i);
        lemma_merge_step_wf(m, i);
        let step = merge_step(m, i, k);
        assert forall|j: int| #[trigger] step.dom().contains(j) implies entries_strictly_sorted(
            step[j],
        ) && key_below(true, k, step[j][0].0) by {
            if j == i {
                lemma_strictly_sorted_skip(m[i], 1);
                assert(m[i].drop_first() =~= m[i].skip(1));
                assert(m[i].drop_first()[0] == m[i][1]);
                assert(key_lt(k, m[i][1].0));
            } else {
                lemma_skip_key_is_suffix(m[j], k);
                let t = choose|t: int|
                    0 <= t <= m[j].len() && skip_key(m[j], k) == m[j].skip(t) && (forall|d: int|
                        0 <= d < t ==> m[j][d].0 == k) && (t == m[j].len() || m[j][t].0 != k);
                lemma_strictly_sorted_skip(m[j], t);
                lemma_skip_key_props(m[j], k);
                lemma_key_le_transitive(k, m[j][0].0, skip_key(m[j], k)[0].0);
            }
        }
        lemma_merge_spec_strictly_sorted(step);
        lemma_merge_spec_bound(step, k, true);
        let out = merge_spec(m);
        let rec = merge_spec(step);
        assert forall|p: int, q: int| 0 <= p < q < out.len() implies key_lt(
            #[trigger] out[p].0,
            #[trigger] out[q].0,
        ) by {
            assert(out[q] == rec[q - 1]);
            if p > 0 {
                assert(out[p] == rec[p - 1]);
            }
        }
    }
}

/// Law: when several sources expose the same key at once, the record that
/// comes out carries the value of the source with the smallest priority
/// index; the others are shadowed.
pub proof fn lemma_duplicate_key_shadowed(m: Sources, i: int, j: int)
    requires
        sources_wf(m),
        is_min_source(m, i),
        m.dom().contains(j),
        m[j][0].0 == m[i][0].0,
    ensures
        merge_spec(m)[0] == m[i][0],
        i <= j,
{
    lemma_merge_spec_step(m, i);
    lemma_key_lt_total(m[i][0].0, m[j][0].0);
}

/// Law: merging exactly one source reproduces its records unchanged.
pub proof fn lemma_merge_spec_single(i: int, s: SourceEntries)
    requires
        entries_sorted(s),
        s.len() > 0,
    ensures
        merge_spec(Map::<int, SourceEntries>::empty().insert(i, s)) == s,
    decreases s.len(),
{
    let m = Map::<int, SourceEntries>::empty().insert(i, s);
    assert(m.dom() =~= Set::<int>::empty().insert(i));
    assert(sources_wf(m));
    assert(is_min_source(m, i));
    lemma_merge_spec_step(m, i);
    let k = s[0].0;
    let step = merge_step(m, i, k);
    if s.len() == 1 {
        assert(step.dom() =~= Set::<int>::empty());
        lemma_merge_spec_empty(step);
        assert(merge_spec(m) =~= s);
    } else {
        lemma_sorted_skip(s, 1);
        assert(s.drop_first() =~= s.skip(1));
        lemma_merge_spec_single(i, s.drop_first());
        assert(step =~= Map::<int, SourceEntries>::empty().insert(i, s.drop_first()));
        assert(merge_spec(m) =~= s);
    }
}

/// The keys all active sources still hold, collectively.
pub open spec fn all_source_keys(m: Sources) -> Set<Seq<u8>> {
    Set::new(
        |k: Seq<u8>| exists|j: int| #[trigger] m.dom().contains(j) && keys_of(m[j]).contains(k),
    )
}

/// Law: the merged stream visits exactly the keys the sources hold. A record
/// is skipped only while another source emits the same key, so no key is
/// lost, and an exhausted state has visited them all.
pub proof fn lemma_merge_spec_keys(m: Sources)
    requires
        sources_wf(m),
    ensures
        keys_of(merge_spec(m)) == all_source_keys(m),
    decreases total_size(m),
{
    if m.dom().len() == 0 {
        lemma_merge_spec_empty(m);
        lemma_len_zero_empty(m.dom());
        assert(keys_of(merge_spec(m)) =~= all_source_keys(m));
    } else {
        lemma_min_source_exists(m);
        let i = min_source(m);
        let k = m[i][0].0;
        lemma_merge_spec_step(m, i);
        lemma_merge_step_wf(m, i);
        let step = merge_step(m, i, k);
        lemma_merge_spec_keys(step);
        let out = merge_spec(m);
        let rec = merge_spec(step);
        assert(keys_of(out) =~= keys_of(rec).insert(k)) by {
            assert forall|x: Seq<u8>| keys_of(out).contains(x) implies keys_of(rec).insert(
                k,
            ).contains(x) by {
                let q = choose|q: int| 0 <= q < out.len() && (#[trigger] out[q]).0 == x;
                if q > 0 {
                    assert(rec[q - 1] == out[q]);
                }
            }
            assert forall|x: Seq<u8>| keys_of(rec).insert(k).contains(x) implies keys_of(
                out,
            ).contains(x) by {
                if x == k {
                    assert(out[0].0 == k);
                } else {
                    let q = choose|q: int| 0 <= q < rec.len() && (#[trigger] rec[q]).0 == x;
                    assert(out[q + 1] == rec[q]);
                }
            }
        }
        assert(all_source_keys(m) =~= all_source_keys(step).insert(k)) by {
            assert forall|x: Seq<u8>| all_source_keys(step).insert(k).contains(x)
                implies all_source_keys(m).contains(x) by {
                if x == k {
                    assert(m[i][0].0 == k);
                    assert(keys_of(m[i]).contains(k));
                } else {
                    let j = choose|j: int|
                        #[trigger] step.dom().contains(j) && keys_of(step[j]).contains(x);
                    if j == i {
                        let q = choose|q: int|
                            0 <= q < step[j].len() && (#[trigger] step[j][q]).0 == x;
                        assert(m[i][q + 1] == m[i].drop_first()[q]);
                        assert(keys_of(m[i]).contains(x));
                    } else {
                        lemma_skip_key_keys(m[j], k);
                        assert(keys_of(m[j]).contains(x));
                    }
                }
            }
            assert forall|x: Seq<u8>| all_source_keys(m).contains(x)
                implies all_source_keys(step).insert(k).contains(x) by {
                if x != k {
                    let j = choose|j: int|
                        #[trigger] m.dom().contains(j) && keys_of(m[j]).contains(x);
                    if j == i {
                        let q = choose|q: int| 0 <= q < m[i].len() && (#[trigger] m[i][q]).0 == x;
                        assert(q > 0);
                        assert(m[i].drop_first()[q - 1] == m[i][q]);
                        assert(keys_of(m[i].drop_first()).contains(x));
                        assert(step.dom().contains(i));
                        assert(all_source_keys(step).contains(x));
                    } else {
                        lemma_skip_key_keys(m[j], k);
                        assert(keys_of(skip_key(m[j], k)).insert(k).contains(x));
                        assert(keys_of(skip_key(m[j], k)).contains(x));
                        let q = choose|q: int|
                            0 <= q < skip_key(m[j], k).len() && (#[trigger] skip_key(m[j], k)[q]).0
                                == x;
                        assert(step.dom().contains(j));
                        assert(all_source_keys(step).contains(x));
                    }
                }
            }
        }
    }
}

} // verus!
