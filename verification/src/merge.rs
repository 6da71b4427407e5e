//! Label reconciliation: the model of the merge pass that `append` runs.
//!
//! Merging walks the incoming dataset's images in order and resolves each
//! label value against the destination vocabulary: through a memo of values
//! already resolved, then by first-match string lookup, and finally by
//! appending the string to the vocabulary — unless that would push the
//! vocabulary past the 16-bit index ceiling, which fails the whole merge.

use vstd::prelude::*;

verus! {

/// Most labels a vocabulary may hold: label values are 16-bit indices.
pub const MAX_LABELS: usize = 65535;

/// State of one reconciliation pass: the destination vocabulary as grown
/// so far, the memo from source label values to destination label values,
/// the rewritten labels of the images walked so far, and whether the pass
/// is still on its success path.
#[verifier::ext_equal]
pub ghost struct MergeState {
    pub labels: Seq<Seq<char>>,
    pub map: Map<u16, u16>,
    pub out: Seq<u16>,
    pub ok: bool,
}

/// Lowest index at which `s` occurs in `labels`, or `labels.len()` when
/// it does not occur. First match wins when a string occurs twice.
pub open spec fn first_match(labels: Seq<Seq<char>>, s: Seq<char>) -> int
    decreases labels.len(),
{
    if labels.len() == 0 {
        0
    } else if labels[0] == s {
        0
    } else {
        1 + first_match(labels.drop_first(), s)
    }
}

/// `first_match` is the least index holding `s`, or the length.
pub proof fn lemma_first_match(labels: Seq<Seq<char>>, s: Seq<char>)
    ensures
        0 <= first_match(labels, s) <= labels.len(),
        first_match(labels, s) < labels.len() ==> labels[first_match(labels, s)] == s,
        forall|k: int| 0 <= k < first_match(labels, s) ==> labels[k] != s,
    decreases labels.len(),
{
    if labels.len() != 0 && labels[0] != s {
        lemma_first_match(labels.drop_first(), s);
        assert forall|k: int| 0 <= k < first_match(labels, s) implies labels[k] != s by {
            if k > 0 {
                assert(labels.drop_first()[k - 1] == labels[k]);
            }
        }
    }
}

/// Resolve one source label value `l` against the state.
///
/// A memoised value is reused as is. Otherwise the label string is looked
/// up in the destination vocabulary by first match; a match within u16
/// range is cached and used, an absent string is appended while the
/// vocabulary is below `MAX_LABELS`, and past the ceiling the pass fails.
pub open spec fn merge_step(st: MergeState, src_labels: Seq<Seq<char>>, l: u16) -> MergeState {
    if !st.ok {
        st
    } else if st.map.contains_key(l) {
        MergeState { out: st.out.push(st.map[l]), ..st }
    } else {
        let s = src_labels[l as int];
        let p = first_match(st.labels, s);
        if p < st.labels.len() && p <= 0xFFFF {
            MergeState { map: st.map.insert(l, p as u16), out: st.out.push(p as u16), ..st }
        } else if st.labels.len() < MAX_LABELS {
            let q = st.labels.len() as u16;
            MergeState {
                labels: st.labels.push(s),
                map: st.map.insert(l, q),
                out: st.out.push(q),
                ok: st.ok,
            }
        } else {
            MergeState { ok: false, ..st }
        }
    }
}

/// The whole pass: fold `merge_step` over the image labels `ls`, starting
/// from the destination vocabulary `dest` with an empty memo.
pub open spec fn merge_run(dest: Seq<Seq<char>>, src_labels: Seq<Seq<char>>, ls: Seq<u16>) -> MergeState
    decreases ls.len(),
{
    if ls.len() == 0 {
        MergeState { labels: dest, map: Map::empty(), out: Seq::empty(), ok: true }
    } else {
        merge_step(merge_run(dest, src_labels, ls.drop_last()), src_labels, ls.last())
    }
}

/// Everything a single step preserves of the state's sanity.
pub open spec fn merge_state_wf(st: MergeState, dest: Seq<Seq<char>>) -> bool {
    &&& st.labels.len() >= dest.len()
    &&& st.labels.take(dest.len() as int) == dest
    &&& dest.len() <= MAX_LABELS ==> st.labels.len() <= MAX_LABELS
    &&& forall|l: u16| #[trigger] st.map.contains_key(l) ==> (st.map[l] as int) < st.labels.len()
    &&& forall|k: int| 0 <= k < st.out.len() ==> (#[trigger] st.out[k] as int) < st.labels.len()
}

/// The pass keeps the destination vocabulary as a prefix, never grows it
/// past the ceiling, and hands out only label values that index it.
pub proof fn lemma_merge_run_wf(dest: Seq<Seq<char>>, src_labels: Seq<Seq<char>>, ls: Seq<u16>)
    ensures
        merge_state_wf(merge_run(dest, src_labels, ls), dest),
        merge_run(dest, src_labels, ls).ok ==> merge_run(dest, src_labels, ls).out.len()
            == ls.len(),
    decreases ls.len(),
{
    if ls.len() == 0 {
        assert(dest.take(dest.len() as int) =~= dest);
    } else {
        lemma_merge_run_wf(dest, src_labels, ls.drop_last());
        let st = merge_run(dest, src_labels, ls.drop_last());
        let l = ls.last();
        if st.ok && !st.map.contains_key(l) {
            let s = src_labels[l as int];
            lemma_first_match(st.labels, s);
            if !(first_match(st.labels, s) < st.labels.len() && first_match(st.labels, s)
                <= 0xFFFF) && st.labels.len() < MAX_LABELS {
                assert(st.labels.push(s).take(dest.len() as int) =~= st.labels.take(
                    dest.len() as int,
                ));
            }
        }
    }
}

/// Once a prefix of the pass has failed, the whole pass fails.
pub proof fn lemma_merge_run_fail(
    dest: Seq<Seq<char>>,
    src_labels: Seq<Seq<char>>,
    ls: Seq<u16>,
    j: int,
)
    requires
        0 <= j <= ls.len(),
        !merge_run(dest, src_labels, ls.take(j)).ok,
    ensures
        !merge_run(dest, src_labels, ls).ok,
    decreases ls.len() - j,
{
    if j < ls.len() {
        assert(ls.take(j + 1).drop_last() =~= ls.take(j));
        assert(!merge_run(dest, src_labels, ls.take(j + 1)).ok);
        lemma_merge_run_fail(dest, src_labels, ls, j + 1);
    } else {
        assert(ls.take(j) =~= ls);
    }
}

/// Merging against a duplicate-free vocabulary that already resolves every
/// incoming label value to itself changes nothing: same vocabulary out,
/// the label values returned unchanged, and the pass succeeds. This is
/// what merging a dataset with itself does when its vocabulary holds no
/// duplicate string.
pub proof fn lemma_merge_same_vocab(dest: Seq<Seq<char>>, ls: Seq<u16>)
    requires
        dest.len() <= MAX_LABELS,
        forall|i: int, j: int| 0 <= i < j < dest.len() ==> dest[i] != dest[j],
        forall|k: int| 0 <= k < ls.len() ==> (#[trigger] ls[k] as int) < dest.len(),
    ensures
        merge_run(dest, dest, ls).ok,
        merge_run(dest, dest, ls).labels == dest,
        merge_run(dest, dest, ls).out == ls,
    decreases ls.len(),
{
    if ls.len() == 0 {
        assert(merge_run(dest, dest, ls).out =~= ls);
    } else {
        assert forall|k: int| 0 <= k < ls.drop_last().len() implies (#[trigger] ls.drop_last()[k]
            as int) < dest.len() by {
            assert(ls.drop_last()[k] == ls[k]);
        }
        lemma_merge_same_vocab(dest, ls.drop_last());
        let st = merge_run(dest, dest, ls.drop_last());
        let l = ls.last();
        assert((l as int) < dest.len());
        if !st.map.contains_key(l) {
            let s = dest[l as int];
            lemma_first_match(dest, s);
            let p = first_match(dest, s);
            assert(p <= l as int);
            if p < l as int {
                assert(dest[p] == s && dest[l as int] == s);
                assert(false);
            }
            assert(p == l as int);
        } else {
            lemma_merge_map_identity(dest, ls.drop_last(), l);
        }
        assert(merge_run(dest, dest, ls).out =~= ls);
    }
}

/// In a same-vocabulary merge over a duplicate-free vocabulary, every
/// memo entry maps a label value to itself.
proof fn lemma_merge_map_identity(dest: Seq<Seq<char>>, ls: Seq<u16>, l: u16)
    requires
        dest.len() <= MAX_LABELS,
        forall|i: int, j: int| 0 <= i < j < dest.len() ==> dest[i] != dest[j],
        forall|k: int| 0 <= k < ls.len() ==> (#[trigger] ls[k] as int) < dest.len(),
        merge_run(dest, dest, ls).map.contains_key(l),
    ensures
        merge_run(dest, dest, ls).map[l] == l,
        (l as int) < dest.len(),
    decreases ls.len(),
{
    if ls.len() > 0 {
        assert forall|k: int| 0 <= k < ls.drop_last().len() implies (#[trigger] ls.drop_last()[k]
            as int) < dest.len() by {
            assert(ls.drop_last()[k] == ls[k]);
        }
        lemma_merge_same_vocab(dest, ls.drop_last());
        let st = merge_run(dest, dest, ls.drop_last());
        let last = ls.last();
        if st.map.contains_key(l) {
            lemma_merge_map_identity(dest, ls.drop_last(), l);
        } else {
            assert(l == last);
            let s = dest[last as int];
            lemma_first_match(dest, s);
            let p = first_match(dest, s);
            assert(p <= last as int);
            if p < last as int {
                assert(dest[p] == s && dest[last as int] == s);
                assert(false);
            }
        }
    }
}

} // verus!
