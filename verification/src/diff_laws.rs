//! The laws of the diff engine, proved over the specification model: the
//! balance between added and deleted lines, the validity and uniqueness of
//! the reported line numbers, and the monotonicity of the stable backbone.

use vstd::prelude::*;

use crate::diff_engine::{stats_of, DiffLineModel, DiffState, LineModel};
use crate::diff_model::{
    added_line_model, built_state, classify_fold, classify_result, classify_step, count_key,
    deleted_line_model, diff_spec, final_flush, first_key_index_from, first_free_match,
    flush_state, greedy_prefix, greedy_step, has_match_at, initial_build_state,
    lemma_count_key_pos, lemma_first_free_match, lemma_first_key_index_from,
    lemma_unique_key_first, linked, scan_prefix, scan_step,
    skip_processed, unchanged_line_model, BuildState, Links, MatchModel, unique_links,
    unique_na_at, unique_oa_at,
};

verus! {

/// How many flags of a sequence are set.
pub open spec fn count_true(s: Seq<bool>) -> nat
    decreases s.len(),
{
    if s.len() == 0 {
        0
    } else {
        count_true(s.drop_last()) + if s.last() {
            1nat
        } else {
            0nat
        }
    }
}

/// Setting one unset flag raises the count by one.
pub proof fn lemma_count_true_update(s: Seq<bool>, i: int)
    requires
        0 <= i < s.len(),
        !s[i],
    ensures
        count_true(s.update(i, true)) == count_true(s) + 1,
    decreases s.len(),
{
    if i == s.len() - 1 {
        assert(s.update(i, true).drop_last() == s.drop_last());
    } else {
        assert(s.update(i, true).drop_last() == s.drop_last().update(i, true));
        lemma_count_true_update(s.drop_last(), i);
    }
}

/// A sequence of set flags counts its whole length.
pub proof fn lemma_count_true_all(s: Seq<bool>)
    requires
        forall|q: int| 0 <= q < s.len() ==> s[q],
    ensures
        count_true(s) == s.len(),
    decreases s.len(),
{
    if s.len() > 0 {
        lemma_count_true_all(s.drop_last());
    }
}

/// A sequence of clear flags counts zero.
pub proof fn lemma_count_true_none(s: Seq<bool>)
    requires
        forall|q: int| 0 <= q < s.len() ==> !s[q],
    ensures
        count_true(s) == 0,
    decreases s.len(),
{
    if s.len() > 0 {
        lemma_count_true_none(s.drop_last());
    }
}

/// The correspondence arrays form a partial bijection: whenever one side
/// points at the other, the other points back.
pub open spec fn links_bijective(links: Links, alen: int, blen: int) -> bool {
    &&& links.oa.len() == alen
    &&& links.na.len() == blen
    &&& forall|i: int|
        0 <= i < alen && #[trigger] links.oa[i] is Some ==> 0 <= links.oa[i]->Some_0 < blen
            && links.na[links.oa[i]->Some_0] == Some(i)
    &&& forall|j: int|
        0 <= j < blen && #[trigger] links.na[j] is Some ==> 0 <= links.na[j]->Some_0 < alen
            && links.oa[links.na[j]->Some_0] == Some(j)
}

/// The unique-anchor pass yields a partial bijection.
pub proof fn lemma_unique_links_bijective(a: Seq<LineModel>, b: Seq<LineModel>)
    ensures
        links_bijective(unique_links(a, b), a.len() as int, b.len() as int),
{
    let links = unique_links(a, b);
    assert forall|i: int| 0 <= i < a.len() && #[trigger] links.oa[i] is Some implies 0
        <= links.oa[i]->Some_0 < b.len() && links.na[links.oa[i]->Some_0] == Some(i) by {
        let key = a[i].key;
        let j = first_key_index_from(b, key, 0);
        lemma_first_key_index_from(b, key, 0);
        assert(b[j].key == key);
        lemma_count_key_pos(a, key);
        lemma_first_key_index_from(a, key, 0);
        lemma_unique_key_first(a, key, i);
        assert(unique_na_at(a, b, j) is Some);
    }
    assert forall|j: int| 0 <= j < b.len() && #[trigger] links.na[j] is Some implies 0
        <= links.na[j]->Some_0 < a.len() && links.oa[links.na[j]->Some_0] == Some(j) by {
        let key = b[j].key;
        let i = first_key_index_from(a, key, 0);
        lemma_first_key_index_from(a, key, 0);
        assert(a[i].key == key);
        lemma_count_key_pos(b, key);
        lemma_first_key_index_from(b, key, 0);
        lemma_unique_key_first(b, key, j);
        assert(unique_oa_at(a, b, i) is Some);
    }
}

/// One greedy step preserves the partial bijection.
pub proof fn lemma_greedy_step_bijective(
    a: Seq<LineModel>,
    b: Seq<LineModel>,
    links: Links,
    i: int,
)
    requires
        links_bijective(links, a.len() as int, b.len() as int),
        0 <= i < a.len(),
    ensures
        links_bijective(greedy_step(a, b, links, i), a.len() as int, b.len() as int),
{
    let key = a[i].key;
    if links.oa[i] is None && count_key(b, key) >= 1 {
        let j = first_free_match(b, links.na, key, 0);
        lemma_first_free_match(b, links.na, key, 0);
        if j < b.len() {
            let l2 = greedy_step(a, b, links, i);
            assert forall|i2: int| 0 <= i2 < a.len() && #[trigger] l2.oa[i2] is Some implies 0
                <= l2.oa[i2]->Some_0 < b.len() && l2.na[l2.oa[i2]->Some_0] == Some(i2) by {
                if i2 != i {
                    assert(links.oa[i2] is Some);
                    let j2 = links.oa[i2]->Some_0;
                    assert(links.na[j2] == Some(i2));
                    assert(j2 != j);
                }
            }
            assert forall|j2: int| 0 <= j2 < b.len() && #[trigger] l2.na[j2] is Some implies 0
                <= l2.na[j2]->Some_0 < a.len() && l2.oa[l2.na[j2]->Some_0] == Some(j2) by {
                if j2 != j {
                    assert(links.na[j2] is Some);
                    let i2 = links.na[j2]->Some_0;
                    assert(links.oa[i2] == Some(j2));
                    assert(i2 != i);
                }
            }
        }
    }
}

/// The whole duplicate-resolution pass preserves the partial bijection.
pub proof fn lemma_greedy_prefix_bijective(
    a: Seq<LineModel>,
    b: Seq<LineModel>,
    init: Links,
    i: int,
)
    requires
        links_bijective(init, a.len() as int, b.len() as int),
        0 <= i <= a.len(),
    ensures
        links_bijective(greedy_prefix(a, b, init, i), a.len() as int, b.len() as int),
    decreases i,
{
    if i > 0 {
        lemma_greedy_prefix_bijective(a, b, init, i - 1);
        lemma_greedy_step_bijective(a, b, greedy_prefix(a, b, init, i - 1), i - 1);
    }
}

/// The completed correspondence is a partial bijection.
pub proof fn lemma_linked_bijective(a: Seq<LineModel>, b: Seq<LineModel>)
    ensures
        links_bijective(linked(a, b), a.len() as int, b.len() as int),
{
    lemma_unique_links_bijective(a, b);
    lemma_greedy_prefix_bijective(a, b, unique_links(a, b), a.len() as int);
}

/// The shape of one line emitted by the alignment builder while the first
/// `jbound` positions of B have been scanned.
pub open spec fn build_line_wf(
    a: Seq<LineModel>,
    b: Seq<LineModel>,
    l: DiffLineModel,
    jbound: int,
) -> bool {
    match l.state {
        DiffState::Added => l.left is None && l.right is Some && l.moved_from is None
            && l.moved_to is None && 1 <= l.right->Some_0.line_number <= jbound
            && l.right->Some_0.text == b[l.right->Some_0.line_number - 1].original,
        DiffState::Deleted => l.left is Some && l.right is None && l.moved_from is None
            && l.moved_to is None && 1 <= l.left->Some_0.line_number <= a.len()
            && l.left->Some_0.text == a[l.left->Some_0.line_number - 1].original,
        DiffState::Unchanged => l.left is Some && l.right is Some && l.moved_from is None
            && l.moved_to is None && 1 <= l.left->Some_0.line_number <= a.len() && 1
            <= l.right->Some_0.line_number <= jbound,
        DiffState::Moved => false,
    }
}

/// One recorded match is well formed: it points at an unchanged output line
/// pairing a consumed position of A with an already-scanned position of B.
pub open spec fn match_wf(
    a: Seq<LineModel>,
    b: Seq<LineModel>,
    st: BuildState,
    jbound: int,
    m: MatchModel,
) -> bool {
    &&& 0 <= m.line_index < st.lines.len()
    &&& st.lines[m.line_index] == unchanged_line_model(a, b, m.old, m.new)
    &&& 0 <= m.old < a.len()
    &&& st.processed[m.old]
    &&& 0 <= m.new < jbound
}

/// Everything that holds of the alignment builder's state once the first `j`
/// positions of B are scanned.
pub open spec fn scan_inv(
    a: Seq<LineModel>,
    b: Seq<LineModel>,
    oa: Seq<Option<int>>,
    st: BuildState,
    j: int,
) -> bool {
    &&& st.processed.len() == a.len()
    &&& 0 <= st.i_ptr <= a.len()
    &&& j <= b.len()
    &&& forall|q: int| 0 <= q < st.i_ptr ==> #[trigger] st.processed[q]
    &&& forall|i: int|
        0 <= i < a.len() && #[trigger] oa[i] is Some && oa[i]->Some_0 < j ==> st.processed[i]
    &&& stats_of(st.lines).additions + st.matches.len() == j
    &&& stats_of(st.lines).unchanged == st.matches.len()
    &&& stats_of(st.lines).moves == 0
    &&& stats_of(st.lines).deletions + st.matches.len() == count_true(st.processed)
    &&& forall|li: int|
        0 <= li < st.lines.len() ==> build_line_wf(a, b, #[trigger] st.lines[li], j)
    &&& forall|l1: int, l2: int|
        0 <= l1 < l2 < st.lines.len() && (#[trigger] st.lines[l1]).right is Some && (
        #[trigger] st.lines[l2]).right is Some ==> st.lines[l1].right->Some_0.line_number
            < st.lines[l2].right->Some_0.line_number
    &&& forall|li: int|
        0 <= li < st.lines.len() && (#[trigger] st.lines[li]).state is Deleted
            ==> st.lines[li].left->Some_0.line_number <= st.i_ptr
    &&& forall|l1: int, l2: int|
        0 <= l1 < l2 < st.lines.len() && (#[trigger] st.lines[l1]).state is Deleted && (
        #[trigger] st.lines[l2]).state is Deleted ==> st.lines[l1].left->Some_0.line_number
            < st.lines[l2].left->Some_0.line_number
    &&& forall|k: int|
        0 <= k < st.matches.len() ==> match_wf(a, b, st, j, #[trigger] st.matches[k])
    &&& forall|k1: int, k2: int|
        0 <= k1 < k2 < st.matches.len() ==> (#[trigger] st.matches[k1]).line_index < (
        #[trigger] st.matches[k2]).line_index && st.matches[k1].new < st.matches[k2].new
            && st.matches[k1].old != st.matches[k2].old
    &&& forall|li: int|
        0 <= li < st.lines.len() && (#[trigger] st.lines[li]).state is Unchanged ==> exists|k: int|
            0 <= k < st.matches.len() && (#[trigger] st.matches[k]).line_index == li
}

/// Flushing pending deletions preserves the builder's invariant: it emits
/// deletions in ascending order, consumes exactly the positions it emits,
/// and never touches positions at or above the match being scanned.
pub proof fn lemma_flush_inv(
    a: Seq<LineModel>,
    b: Seq<LineModel>,
    oa: Seq<Option<int>>,
    st: BuildState,
    i_match: int,
    j: int,
)
    requires
        scan_inv(a, b, oa, st, j),
        oa.len() == a.len(),
        0 <= j < b.len(),
        0 <= i_match <= a.len(),
    ensures
        ({
            let st1 = flush_state(a, oa, st, i_match, j);
            &&& scan_inv(a, b, oa, st1, j)
            &&& st1.matches == st.matches
            &&& st.i_ptr <= st1.i_ptr
            &&& forall|q: int|
                i_match <= q < a.len() ==> st1.processed[q] == st.processed[q]
            &&& st1.i_ptr <= i_match || st1.i_ptr == st.i_ptr
        }),
    decreases i_match - st.i_ptr,
{
    let st1 = flush_state(a, oa, st, i_match, j);
    if st.i_ptr < 0 || st.i_ptr >= i_match || st.i_ptr >= a.len() || st.i_ptr
        >= st.processed.len() || st.i_ptr >= oa.len() {
    } else if st.processed[st.i_ptr] {
        lemma_flush_inv(a, b, oa, BuildState { i_ptr: st.i_ptr + 1, ..st }, i_match, j);
    } else {
        match oa[st.i_ptr] {
            Some(mj) => {
                if mj >= j {
                } else {
                    assert(st.processed[st.i_ptr]);
                    assert(false);
                }
            },
            None => {
                let line = deleted_line_model(a, st.i_ptr);
                let st2 = BuildState {
                    lines: st.lines.push(line),
                    processed: st.processed.update(st.i_ptr, true),
                    i_ptr: st.i_ptr + 1,
                    ..st
                };
                assert(st2.lines.drop_last() == st.lines);
                lemma_count_true_update(st.processed, st.i_ptr);
                assert forall|li: int|
                    0 <= li < st2.lines.len() implies build_line_wf(
                    a,
                    b,
                    #[trigger] st2.lines[li],
                    j,
                ) by {
                    if li < st.lines.len() {
                        assert(st2.lines[li] == st.lines[li]);
                    }
                }
                assert forall|k: int| 0 <= k < st2.matches.len() implies match_wf(
                    a,
                    b,
                    st2,
                    j,
                    #[trigger] st2.matches[k],
                ) by {
                    assert(match_wf(a, b, st, j, st.matches[k]));
                    assert(st2.lines[st.matches[k].line_index] == st.lines[
                        st.matches[k].line_index
                    ]);
                    assert(st2.processed[st.matches[k].old]);
                }
                assert forall|li: int|
                    0 <= li < st2.lines.len() && (#[trigger] st2.lines[li]).state is Unchanged
                    implies exists|k: int|
                    0 <= k < st2.matches.len() && (#[trigger] st2.matches[k]).line_index == li by {
                    assert(li < st.lines.len());
                    assert(st.lines[li].state is Unchanged);
                    let k = choose|k: int|
                        0 <= k < st.matches.len() && (#[trigger] st.matches[k]).line_index == li;
                    assert(0 <= k < st2.matches.len() && st2.matches[k].line_index == li);
                }
                assert(scan_inv(a, b, oa, st2, j));
                lemma_flush_inv(a, b, oa, st2, i_match, j);
            },
        }
    }
}

/// What skipping consumed positions returns: a position no smaller, no
/// further than the end, with everything in between consumed.
pub proof fn lemma_skip_processed(processed: Seq<bool>, i: int)
    requires
        0 <= i <= processed.len(),
    ensures
        i <= skip_processed(processed, i) <= processed.len(),
        forall|q: int| i <= q < skip_processed(processed, i) ==> #[trigger] processed[q],
    decreases processed.len() - i,
{
    if i < processed.len() && processed[i] {
        lemma_skip_processed(processed, i + 1);
    }
}

/// Scanning one position of B preserves the builder's invariant.
pub proof fn lemma_scan_step_inv(
    a: Seq<LineModel>,
    b: Seq<LineModel>,
    oa: Seq<Option<int>>,
    na: Seq<Option<int>>,
    st: BuildState,
    j: int,
)
    requires
        scan_inv(a, b, oa, st, j),
        links_bijective(Links { oa, na }, a.len() as int, b.len() as int),
        0 <= j < b.len(),
    ensures
        scan_inv(a, b, oa, scan_step(a, b, oa, na, st, j), j + 1),
{
    if has_match_at(oa, na, st.processed, j) {
        lemma_scan_step_inv_matched(a, b, oa, na, st, j);
    } else {
        lemma_scan_step_inv_added(a, b, oa, na, st, j);
    }
}

/// The matched case of one scan step.
#[verifier::rlimit(100)]
proof fn lemma_scan_step_inv_matched(
    a: Seq<LineModel>,
    b: Seq<LineModel>,
    oa: Seq<Option<int>>,
    na: Seq<Option<int>>,
    st: BuildState,
    j: int,
)
    requires
        scan_inv(a, b, oa, st, j),
        links_bijective(Links { oa, na }, a.len() as int, b.len() as int),
        0 <= j < b.len(),
        has_match_at(oa, na, st.processed, j),
    ensures
        scan_inv(a, b, oa, scan_step(a, b, oa, na, st, j), j + 1),
{
    {
        let i_match = na[j]->Some_0;
        assert(0 <= i_match < a.len());
        lemma_flush_inv(a, b, oa, st, i_match, j);
        let st1 = flush_state(a, oa, st, i_match, j);
        assert(!st1.processed[i_match]);
        let line = unchanged_line_model(a, b, i_match, j);
        let lines2 = st1.lines.push(line);
        let newm = MatchModel { line_index: st1.lines.len() as int, old: i_match, new: j };
        let matches2 = st1.matches.push(newm);
        let processed2 = st1.processed.update(i_match, true);
        let ip2: int = if st1.i_ptr == i_match {
            st1.i_ptr + 1
        } else {
            st1.i_ptr
        };
        let st2 = BuildState {
            lines: lines2,
            matches: matches2,
            processed: processed2,
            i_ptr: skip_processed(processed2, ip2),
        };
        assert(lines2.drop_last() == st1.lines);
        lemma_count_true_update(st1.processed, i_match);
        lemma_skip_processed(processed2, ip2);
        assert forall|li: int| 0 <= li < lines2.len() implies build_line_wf(
            a,
            b,
            #[trigger] lines2[li],
            j + 1,
        ) by {
            if li < st1.lines.len() {
                assert(lines2[li] == st1.lines[li]);
                assert(build_line_wf(a, b, st1.lines[li], j));
            }
        }
        assert forall|k: int| 0 <= k < matches2.len() implies match_wf(
            a,
            b,
            st2,
            j + 1,
            #[trigger] matches2[k],
        ) by {
            if k < st1.matches.len() {
                assert(match_wf(a, b, st1, j, st1.matches[k]));
                assert(lines2[st1.matches[k].line_index] == st1.lines[st1.matches[k].line_index]);
            } else {
                assert(matches2[k] == newm);
                assert(lines2[newm.line_index] == line);
            }
        }
        assert forall|k1: int, k2: int| 0 <= k1 < k2 < matches2.len() implies (
        #[trigger] matches2[k1]).line_index < (#[trigger] matches2[k2]).line_index
            && matches2[k1].new < matches2[k2].new && matches2[k1].old != matches2[k2].old by {
            if k2 == matches2.len() - 1 {
                assert(match_wf(a, b, st1, j, st1.matches[k1]));
                assert(st1.processed[matches2[k1].old]);
            }
        }
        assert forall|li: int|
            0 <= li < lines2.len() && (#[trigger] lines2[li]).state is Unchanged implies exists|
            k: int,
        |
            0 <= k < matches2.len() && (#[trigger] matches2[k]).line_index == li by {
            if li < st1.lines.len() {
                assert(st1.lines[li].state is Unchanged);
                let k = choose|k: int|
                    0 <= k < st1.matches.len() && (#[trigger] st1.matches[k]).line_index == li;
                assert(0 <= k < matches2.len() && matches2[k].line_index == li);
            } else {
                assert(matches2[matches2.len() - 1].line_index == li);
            }
        }
        assert forall|i: int|
            0 <= i < a.len() && #[trigger] oa[i] is Some && oa[i]->Some_0 < j + 1 implies
            st2.processed[i] by {
            if oa[i]->Some_0 < j {
                assert(st1.processed[i]);
            } else {
                assert(oa[i] == Some(j));
                assert(na[j] == Some(i));
            }
        }
        assert forall|q: int| 0 <= q < st2.i_ptr implies #[trigger] st2.processed[q] by {
            if q < st1.i_ptr {
                assert(st1.processed[q]);
            } else if q < ip2 {
                assert(q == i_match);
            }
        }
        assert(lines2.last() == line);
        assert forall|l1: int, l2: int|
            0 <= l1 < l2 < lines2.len() && (#[trigger] lines2[l1]).right is Some && (
        #[trigger] lines2[l2]).right is Some implies lines2[l1].right->Some_0.line_number
            < lines2[l2].right->Some_0.line_number by {
            if l2 == lines2.len() - 1 {
                assert(build_line_wf(a, b, st1.lines[l1], j));
            } else {
                assert(lines2[l1] == st1.lines[l1]);
                assert(lines2[l2] == st1.lines[l2]);
            }
        }
        assert forall|li: int|
            0 <= li < lines2.len() && (#[trigger] lines2[li]).state is Deleted implies
            lines2[li].left->Some_0.line_number <= st2.i_ptr by {
            assert(li < st1.lines.len());
            assert(st1.lines[li].state is Deleted);
            assert(st1.lines[li].left->Some_0.line_number <= st1.i_ptr);
            assert(st1.i_ptr <= ip2);
        }
        assert forall|l1: int, l2: int|
            0 <= l1 < l2 < lines2.len() && (#[trigger] lines2[l1]).state is Deleted && (
        #[trigger] lines2[l2]).state is Deleted implies lines2[l1].left->Some_0.line_number
            < lines2[l2].left->Some_0.line_number by {
            assert(l2 < st1.lines.len());
            assert(lines2[l1] == st1.lines[l1]);
            assert(lines2[l2] == st1.lines[l2]);
        }
        assert(st2.processed.len() == a.len());
        assert(0 <= st2.i_ptr <= a.len());
        assert(stats_of(st2.lines).additions + st2.matches.len() == j + 1);
        assert(stats_of(st2.lines).unchanged == st2.matches.len());
        assert(stats_of(st2.lines).moves == 0);
        assert(stats_of(st2.lines).deletions + st2.matches.len() == count_true(st2.processed));
        assert(scan_inv(a, b, oa, st2, j + 1));
    }
}

/// The unmatched case of one scan step.
#[verifier::rlimit(100)]
proof fn lemma_scan_step_inv_added(
    a: Seq<LineModel>,
    b: Seq<LineModel>,
    oa: Seq<Option<int>>,
    na: Seq<Option<int>>,
    st: BuildState,
    j: int,
)
    requires
        scan_inv(a, b, oa, st, j),
        links_bijective(Links { oa, na }, a.len() as int, b.len() as int),
        0 <= j < b.len(),
        !has_match_at(oa, na, st.processed, j),
    ensures
        scan_inv(a, b, oa, scan_step(a, b, oa, na, st, j), j + 1),
{
    {
        let line = added_line_model(b, j);
        let lines2 = st.lines.push(line);
        let st2 = BuildState { lines: lines2, ..st };
        assert(lines2.drop_last() == st.lines);
        assert forall|li: int| 0 <= li < lines2.len() implies build_line_wf(
            a,
            b,
            #[trigger] lines2[li],
            j + 1,
        ) by {
            if li < st.lines.len() {
                assert(lines2[li] == st.lines[li]);
                assert(build_line_wf(a, b, st.lines[li], j));
            }
        }
        assert forall|k: int| 0 <= k < st2.matches.len() implies match_wf(
            a,
            b,
            st2,
            j + 1,
            #[trigger] st2.matches[k],
        ) by {
            assert(match_wf(a, b, st, j, st.matches[k]));
            assert(lines2[st.matches[k].line_index] == st.lines[st.matches[k].line_index]);
        }
        assert forall|i: int|
            0 <= i < a.len() && #[trigger] oa[i] is Some && oa[i]->Some_0 < j + 1 implies
            st2.processed[i] by {
            if oa[i]->Some_0 == j {
                assert(na[j] == Some(i));
                assert(!has_match_at(oa, na, st.processed, j));
            }
        }
        assert forall|li: int|
            0 <= li < lines2.len() && (#[trigger] lines2[li]).state is Unchanged implies exists|
            k: int,
        |
            0 <= k < st2.matches.len() && (#[trigger] st2.matches[k]).line_index == li by {
            assert(li < st.lines.len());
            assert(st.lines[li].state is Unchanged);
            let k = choose|k: int|
                0 <= k < st.matches.len() && (#[trigger] st.matches[k]).line_index == li;
            assert(0 <= k < st2.matches.len() && st2.matches[k].line_index == li);
        }
        assert(scan_inv(a, b, oa, st2, j + 1));
    }
}

/// The builder's invariant holds after scanning any prefix of B.
pub proof fn lemma_scan_prefix_inv(
    a: Seq<LineModel>,
    b: Seq<LineModel>,
    oa: Seq<Option<int>>,
    na: Seq<Option<int>>,
    j: int,
)
    requires
        links_bijective(Links { oa, na }, a.len() as int, b.len() as int),
        0 <= j <= b.len(),
    ensures
        scan_inv(a, b, oa, scan_prefix(a, b, oa, na, j), j),
    decreases j,
{
    if j == 0 {
        let st = initial_build_state(a);
        lemma_count_true_none(st.processed);
    } else {
        lemma_scan_prefix_inv(a, b, oa, na, j - 1);
        lemma_scan_step_inv(a, b, oa, na, scan_prefix(a, b, oa, na, j - 1), j - 1);
    }
}

/// The closing flush preserves the invariant and consumes every position.
pub proof fn lemma_final_flush_inv(
    a: Seq<LineModel>,
    b: Seq<LineModel>,
    oa: Seq<Option<int>>,
    st: BuildState,
)
    requires
        scan_inv(a, b, oa, st, b.len() as int),
    ensures
        ({
            let stf = final_flush(a, st);
            &&& scan_inv(a, b, oa, stf, b.len() as int)
            &&& stf.matches == st.matches
            &&& forall|q: int| 0 <= q < a.len() ==> #[trigger] stf.processed[q]
        }),
    decreases a.len() - st.i_ptr,
{
    if st.i_ptr < 0 || st.i_ptr >= a.len() || st.i_ptr >= st.processed.len() {
    } else if st.processed[st.i_ptr] {
        lemma_final_flush_inv(a, b, oa, BuildState { i_ptr: st.i_ptr + 1, ..st });
    } else {
        let line = deleted_line_model(a, st.i_ptr);
        let st2 = BuildState {
            lines: st.lines.push(line),
            processed: st.processed.update(st.i_ptr, true),
            i_ptr: st.i_ptr + 1,
            ..st
        };
        assert(st2.lines.drop_last() == st.lines);
        lemma_count_true_update(st.processed, st.i_ptr);
        assert forall|li: int| 0 <= li < st2.lines.len() implies build_line_wf(
            a,
            b,
            #[trigger] st2.lines[li],
            b.len() as int,
        ) by {
            if li < st.lines.len() {
                assert(st2.lines[li] == st.lines[li]);
            }
        }
        assert forall|k: int| 0 <= k < st2.matches.len() implies match_wf(
            a,
            b,
            st2,
            b.len() as int,
            #[trigger] st2.matches[k],
        ) by {
            assert(match_wf(a, b, st, b.len() as int, st.matches[k]));
            assert(st2.lines[st.matches[k].line_index] == st.lines[st.matches[k].line_index]);
            assert(st2.processed[st.matches[k].old]);
        }
        assert forall|li: int|
            0 <= li < st2.lines.len() && (#[trigger] st2.lines[li]).state is Unchanged implies
            exists|k: int|
            0 <= k < st2.matches.len() && (#[trigger] st2.matches[k]).line_index == li by {
            assert(li < st.lines.len());
            assert(st.lines[li].state is Unchanged);
            let k = choose|k: int|
                0 <= k < st.matches.len() && (#[trigger] st.matches[k]).line_index == li;
            assert(0 <= k < st2.matches.len() && st2.matches[k].line_index == li);
        }
        assert(scan_inv(a, b, oa, st2, b.len() as int));
        lemma_final_flush_inv(a, b, oa, st2);
    }
}

/// The builder's complete output satisfies the invariant with every position
/// of A consumed: its statistics balance against the two input lengths.
pub proof fn lemma_built_state_inv(
    a: Seq<LineModel>,
    b: Seq<LineModel>,
    oa: Seq<Option<int>>,
    na: Seq<Option<int>>,
)
    requires
        links_bijective(Links { oa, na }, a.len() as int, b.len() as int),
    ensures
        ({
            let built = built_state(a, b, oa, na);
            &&& scan_inv(a, b, oa, built, b.len() as int)
            &&& stats_of(built.lines).additions + built.matches.len() == b.len()
            &&& stats_of(built.lines).deletions + built.matches.len() == a.len()
            &&& stats_of(built.lines).unchanged == built.matches.len()
            &&& stats_of(built.lines).moves == 0
        }),
{
    lemma_scan_prefix_inv(a, b, oa, na, b.len() as int);
    let sts = scan_prefix(a, b, oa, na, b.len() as int);
    lemma_final_flush_inv(a, b, oa, sts);
    let built = built_state(a, b, oa, na);
    lemma_count_true_all(built.processed);
}

/// Whether some recorded match points at output line `li`.
pub open spec fn line_is_matched(matches: Seq<MatchModel>, li: int) -> bool {
    exists|k: int| 0 <= k < matches.len() && (#[trigger] matches[k]).line_index == li
}

/// Whether one of the first `t` matches points at output line `li`.
pub open spec fn line_matched_below(matches: Seq<MatchModel>, li: int, t: int) -> bool {
    exists|k: int| 0 <= k < t <= matches.len() && (#[trigger] matches[k]).line_index == li
}

/// Replacing one line changes the statistics by the two lines' contributions.
pub proof fn lemma_stats_of_update(s: Seq<DiffLineModel>, i: int, v: DiffLineModel)
    requires
        0 <= i < s.len(),
    ensures
        stats_of(s.update(i, v)).additions == stats_of(s).additions + (if v.state is Added {
            1int
        } else {
            0
        }) - (if s[i].state is Added {
            1int
        } else {
            0
        }),
        stats_of(s.update(i, v)).deletions == stats_of(s).deletions + (if v.state is Deleted {
            1int
        } else {
            0
        }) - (if s[i].state is Deleted {
            1int
        } else {
            0
        }),
        stats_of(s.update(i, v)).moves == stats_of(s).moves + (if v.state is Moved {
            1int
        } else {
            0
        }) - (if s[i].state is Moved {
            1int
        } else {
            0
        }),
        stats_of(s.update(i, v)).unchanged == stats_of(s).unchanged + (if v.state is Unchanged {
            1int
        } else {
            0
        }) - (if s[i].state is Unchanged {
            1int
        } else {
            0
        }),
    decreases s.len(),
{
    if i == s.len() - 1 {
        assert(s.update(i, v).drop_last() == s.drop_last());
        assert(s.update(i, v).last() == v);
    } else {
        assert(s.update(i, v).drop_last() == s.drop_last().update(i, v));
        assert(s.update(i, v).last() == s.last());
        lemma_stats_of_update(s.drop_last(), i, v);
    }
}

/// The exact line the classifier writes for one match: kept matches stay
/// unchanged with the movement fields cleared, the rest become moved lines
/// carrying their 1-based source and destination numbers.
pub open spec fn classified_line(
    lines0: Seq<DiffLineModel>,
    m: MatchModel,
    kept: bool,
) -> DiffLineModel {
    if kept {
        DiffLineModel {
            state: DiffState::Unchanged,
            left: lines0[m.line_index].left,
            right: lines0[m.line_index].right,
            moved_from: None,
            moved_to: None,
        }
    } else {
        DiffLineModel {
            state: DiffState::Moved,
            left: lines0[m.line_index].left,
            right: lines0[m.line_index].right,
            moved_from: Some(m.old + 1),
            moved_to: Some(m.new + 1),
        }
    }
}

/// The move classifier rewrites exactly the matched lines, keeps both their
/// sides, and leaves additions and deletions untouched.
pub proof fn lemma_classify_fold_preserves(
    matches: Seq<MatchModel>,
    flags: Seq<bool>,
    lines0: Seq<DiffLineModel>,
    t: int,
)
    requires
        0 <= t <= matches.len(),
        flags.len() == matches.len(),
        forall|k: int|
            0 <= k < matches.len() ==> 0 <= (#[trigger] matches[k]).line_index < lines0.len()
                && lines0[matches[k].line_index].state is Unchanged,
        forall|k1: int, k2: int|
            0 <= k1 < k2 < matches.len() ==> (#[trigger] matches[k1]).line_index < (
            #[trigger] matches[k2]).line_index,
    ensures
        ({
            let st = classify_fold(matches, flags, lines0, t);
            &&& st.lines.len() == lines0.len()
            &&& forall|li: int|
                0 <= li < lines0.len() && !line_matched_below(matches, li, t)
                    ==> st.lines[li] == lines0[li]
            &&& forall|k: int|
                0 <= k < t ==> (#[trigger] st.lines[matches[k].line_index]) == classified_line(
                    lines0,
                    matches[k],
                    flags[k],
                )
            &&& stats_of(st.lines).additions == stats_of(lines0).additions
            &&& stats_of(st.lines).deletions == stats_of(lines0).deletions
        }),
    decreases t,
{
    if t > 0 {
        lemma_classify_fold_preserves(matches, flags, lines0, t - 1);
        let st = classify_fold(matches, flags, lines0, t - 1);
        let st2 = classify_step(matches, flags, st, t - 1);
        let m = matches[t - 1];
        assert(!line_matched_below(matches, m.line_index, t - 1)) by {
            if line_matched_below(matches, m.line_index, t - 1) {
                let k = choose|k: int|
                    0 <= k < t - 1 <= matches.len() && (#[trigger] matches[k]).line_index
                        == m.line_index;
                assert(matches[k].line_index < matches[t - 1].line_index);
            }
        }
        assert(st.lines[m.line_index] == lines0[m.line_index]);
        lemma_stats_of_update(st.lines, m.line_index, st2.lines[m.line_index]);
        assert forall|li: int|
            0 <= li < lines0.len() && !line_matched_below(matches, li, t) implies st2.lines[li]
            == lines0[li] by {
            assert(!line_matched_below(matches, li, t - 1));
            assert(li != m.line_index);
        }
        assert forall|k: int|
            0 <= k < t implies (#[trigger] st2.lines[matches[k].line_index]) == classified_line(
            lines0,
            matches[k],
            flags[k],
        ) by {
            if k < t - 1 {
                assert(matches[k].line_index != m.line_index);
                assert(st2.lines[matches[k].line_index] == st.lines[matches[k].line_index]);
            }
        }
    }
}

/// Which matches the classifier keeps unchanged: the flags marking the
/// longest increasing subsequence of the matches' old indices.
pub open spec fn backbone_flags(matches: Seq<MatchModel>) -> Seq<bool> {
    let positions = crate::diff_model::lis_positions(crate::diff_model::olds_of(matches));
    crate::diff_model::lis_flags(matches.len() as int, positions, positions.len() as int)
}

/// The classifier's output: matched lines keep their sides and stay
/// unchanged or become moved; everything else is untouched; additions and
/// deletions are preserved.
pub proof fn lemma_classify_result_preserves(lines0: Seq<DiffLineModel>, matches: Seq<MatchModel>)
    requires
        forall|k: int|
            0 <= k < matches.len() ==> 0 <= (#[trigger] matches[k]).line_index < lines0.len()
                && lines0[matches[k].line_index].state is Unchanged,
        forall|k1: int, k2: int|
            0 <= k1 < k2 < matches.len() ==> (#[trigger] matches[k1]).line_index < (
            #[trigger] matches[k2]).line_index,
    ensures
        ({
            let r = classify_result(lines0, matches);
            &&& r.0.len() == lines0.len()
            &&& forall|li: int|
                0 <= li < lines0.len() && !line_is_matched(matches, li) ==> r.0[li] == lines0[li]
            &&& forall|k: int|
                0 <= k < matches.len() ==> (#[trigger] r.0[matches[k].line_index])
                    == classified_line(lines0, matches[k], backbone_flags(matches)[k])
            &&& stats_of(r.0).additions == stats_of(lines0).additions
            &&& stats_of(r.0).deletions == stats_of(lines0).deletions
        }),
{
    if matches.len() == 0 {
        assert forall|li: int|
            0 <= li < lines0.len() && !line_is_matched(matches, li) implies classify_result(
            lines0,
            matches,
        ).0[li] == lines0[li] by {}
    } else {
        let positions = crate::diff_model::lis_positions(crate::diff_model::olds_of(matches));
        let flags = crate::diff_model::lis_flags(
            matches.len() as int,
            positions,
            positions.len() as int,
        );
        lemma_lis_flags_len(matches.len() as int, positions, positions.len() as int);
        lemma_classify_fold_preserves(matches, flags, lines0, matches.len() as int);
        assert forall|li: int|
            0 <= li < lines0.len() && !line_is_matched(matches, li) implies classify_result(
            lines0,
            matches,
        ).0[li] == lines0[li] by {
            assert(!line_matched_below(matches, li, matches.len() as int));
        }
    }
}

/// The backbone flags keep the match count's length.
pub proof fn lemma_lis_flags_len(n: int, positions: Seq<int>, t: int)
    requires
        n >= 0,
        0 <= t,
    ensures
        crate::diff_model::lis_flags(n, positions, t).len() == n,
    decreases t,
{
    if t > 0 {
        lemma_lis_flags_len(n, positions, t - 1);
    }
}

/// The facts that every complete diff establishes, on the way to the laws
/// below: the builder's invariant for its lines and matches, and the
/// classifier's preservation of sides, additions and deletions.
proof fn lemma_diff_spec_facts(a: Seq<LineModel>, b: Seq<LineModel>)
    ensures
        ({
            let links = linked(a, b);
            let built = built_state(a, b, links.oa, links.na);
            let r = diff_spec(a, b);
            &&& scan_inv(a, b, links.oa, built, b.len() as int)
            &&& r.lines == classify_result(built.lines, built.matches).0
            &&& r.moved_blocks == classify_result(built.lines, built.matches).1
            &&& r.statistics == stats_of(r.lines)
            &&& r.lines.len() == built.lines.len()
            &&& stats_of(built.lines).additions + built.matches.len() == b.len()
            &&& stats_of(built.lines).deletions + built.matches.len() == a.len()
            &&& forall|li: int|
                0 <= li < built.lines.len() && !line_is_matched(built.matches, li)
                    ==> r.lines[li] == built.lines[li]
            &&& forall|k: int|
                0 <= k < built.matches.len() ==> ((#[trigger] r.lines[
                    built.matches[k].line_index
                ]).left == built.lines[built.matches[k].line_index].left && r.lines[
                    built.matches[k].line_index
                ].right == built.lines[built.matches[k].line_index].right && (r.lines[
                    built.matches[k].line_index
                ].state is Unchanged || r.lines[built.matches[k].line_index].state is Moved))
            &&& stats_of(r.lines).additions == stats_of(built.lines).additions
            &&& stats_of(r.lines).deletions == stats_of(built.lines).deletions
        }),
{
    let links = linked(a, b);
    lemma_linked_bijective(a, b);
    lemma_built_state_inv(a, b, links.oa, links.na);
    let built = built_state(a, b, links.oa, links.na);
    assert forall|k: int|
        0 <= k < built.matches.len() implies 0 <= (#[trigger] built.matches[k]).line_index
        < built.lines.len() && built.lines[built.matches[k].line_index].state is Unchanged by {
        assert(match_wf(a, b, built, b.len() as int, built.matches[k]));
    }
    lemma_classify_result_preserves(built.lines, built.matches);
}

/// The number of added lines exceeds the number of deleted lines by exactly
/// the growth of the input: over any two sequences, additions minus
/// deletions equals the length of B minus the length of A.
pub proof fn lemma_diff_balance(a: Seq<LineModel>, b: Seq<LineModel>)
    ensures
        diff_spec(a, b).statistics.additions + a.len() == diff_spec(a, b).statistics.deletions
            + b.len(),
{
    lemma_diff_spec_facts(a, b);
}

/// Every line number a diff reports is a valid 1-based position of its own
/// input sequence, and a position of A is deleted at most once, a position
/// of B added at most once: among deleted lines (and among added lines) the
/// reported numbers strictly increase with the output order.
pub proof fn lemma_diff_line_numbers(a: Seq<LineModel>, b: Seq<LineModel>)
    ensures
        ({
            let r = diff_spec(a, b);
            &&& forall|li: int|
                0 <= li < r.lines.len() ==> (match (#[trigger] r.lines[li]).left {
                    Some(c) => 1 <= c.line_number <= a.len(),
                    None => true,
                } && match r.lines[li].right {
                    Some(c) => 1 <= c.line_number <= b.len(),
                    None => true,
                })
            &&& forall|l1: int, l2: int|
                0 <= l1 < l2 < r.lines.len() && (#[trigger] r.lines[l1]).state is Deleted && (
                #[trigger] r.lines[l2]).state is Deleted
                    ==> r.lines[l1].left->Some_0.line_number
                    < r.lines[l2].left->Some_0.line_number
            &&& forall|l1: int, l2: int|
                0 <= l1 < l2 < r.lines.len() && (#[trigger] r.lines[l1]).state is Added && (
                #[trigger] r.lines[l2]).state is Added ==> r.lines[l1].right->Some_0.line_number
                    < r.lines[l2].right->Some_0.line_number
        }),
{
    lemma_diff_spec_facts(a, b);
    let links = linked(a, b);
    let built = built_state(a, b, links.oa, links.na);
    let r = diff_spec(a, b);
    assert forall|li: int|
        0 <= li < r.lines.len() implies (match (#[trigger] r.lines[li]).left {
        Some(c) => 1 <= c.line_number <= a.len(),
        None => true,
    } && match r.lines[li].right {
        Some(c) => 1 <= c.line_number <= b.len(),
        None => true,
    }) by {
        assert(build_line_wf(a, b, built.lines[li], b.len() as int));
        if line_is_matched(built.matches, li) {
            let k = choose|k: int|
                0 <= k < built.matches.len() && (#[trigger] built.matches[k]).line_index == li;
            assert(match_wf(a, b, built, b.len() as int, built.matches[k]));
            assert(r.lines[li].left == built.lines[li].left);
            assert(r.lines[li].right == built.lines[li].right);
        } else {
            assert(r.lines[li] == built.lines[li]);
        }
    }
    assert forall|l1: int, l2: int|
        0 <= l1 < l2 < r.lines.len() && (#[trigger] r.lines[l1]).state is Deleted && (
    #[trigger] r.lines[l2]).state is Deleted implies r.lines[l1].left->Some_0.line_number
        < r.lines[l2].left->Some_0.line_number by {
        lemma_unmatched_line_untouched(a, b, l1);
        lemma_unmatched_line_untouched(a, b, l2);
    }
    assert forall|l1: int, l2: int|
        0 <= l1 < l2 < r.lines.len() && (#[trigger] r.lines[l1]).state is Added && (
    #[trigger] r.lines[l2]).state is Added implies r.lines[l1].right->Some_0.line_number
        < r.lines[l2].right->Some_0.line_number by {
        lemma_unmatched_line_untouched(a, b, l1);
        lemma_unmatched_line_untouched(a, b, l2);
    }
}

/// A result line that is added or deleted is exactly the builder's line:
/// the classifier only rewrites matched lines, and those end up unchanged
/// or moved.
proof fn lemma_unmatched_line_untouched(a: Seq<LineModel>, b: Seq<LineModel>, li: int)
    requires
        0 <= li < diff_spec(a, b).lines.len(),
        diff_spec(a, b).lines[li].state is Deleted || diff_spec(a, b).lines[li].state is Added,
    ensures
        ({
            let links = linked(a, b);
            let built = built_state(a, b, links.oa, links.na);
            diff_spec(a, b).lines[li] == built.lines[li]
        }),
{
    lemma_diff_spec_facts(a, b);
    let links = linked(a, b);
    let built = built_state(a, b, links.oa, links.na);
    if line_is_matched(built.matches, li) {
        let k = choose|k: int|
            0 <= k < built.matches.len() && (#[trigger] built.matches[k]).line_index == li;
        assert(diff_spec(a, b).lines[li].state is Unchanged || diff_spec(
            a,
            b,
        ).lines[li].state is Moved);
        assert(false);
    }
}

/// The stable backbone never regresses: among the unchanged lines of any
/// diff, the right-side line numbers strictly increase with the output
/// order.
pub proof fn lemma_diff_backbone_order(a: Seq<LineModel>, b: Seq<LineModel>)
    ensures
        ({
            let r = diff_spec(a, b);
            forall|l1: int, l2: int|
                0 <= l1 < l2 < r.lines.len() && (#[trigger] r.lines[l1]).state is Unchanged && (
                #[trigger] r.lines[l2]).state is Unchanged
                    ==> r.lines[l1].right->Some_0.line_number
                    < r.lines[l2].right->Some_0.line_number
        }),
{
    lemma_diff_spec_facts(a, b);
    let links = linked(a, b);
    let built = built_state(a, b, links.oa, links.na);
    let r = diff_spec(a, b);
    assert forall|l1: int, l2: int|
        0 <= l1 < l2 < r.lines.len() && (#[trigger] r.lines[l1]).state is Unchanged && (
    #[trigger] r.lines[l2]).state is Unchanged implies r.lines[l1].right->Some_0.line_number
        < r.lines[l2].right->Some_0.line_number by {
        let k1 = lemma_unchanged_line_matched(a, b, l1);
        let k2 = lemma_unchanged_line_matched(a, b, l2);
        assert(match_wf(a, b, built, b.len() as int, built.matches[k1]));
        assert(match_wf(a, b, built, b.len() as int, built.matches[k2]));
        if k2 < k1 {
            assert(built.matches[k2].line_index < built.matches[k1].line_index);
            assert(false);
        } else if k1 == k2 {
            assert(false);
        } else {
            assert(built.matches[k1].new < built.matches[k2].new);
        }
    }
}

/// An unchanged result line always comes from a recorded match, whose index
/// this lemma hands back.
proof fn lemma_unchanged_line_matched(a: Seq<LineModel>, b: Seq<LineModel>, li: int) -> (k: int)
    requires
        0 <= li < diff_spec(a, b).lines.len(),
        diff_spec(a, b).lines[li].state is Unchanged,
    ensures
        ({
            let links = linked(a, b);
            let built = built_state(a, b, links.oa, links.na);
            &&& 0 <= k < built.matches.len()
            &&& built.matches[k].line_index == li
            &&& diff_spec(a, b).lines[li].right == built.lines[li].right
            &&& built.lines[li].right == Some(
                crate::diff_engine::LineContentModel {
                    line_number: built.matches[k].new + 1,
                    text: b[built.matches[k].new].original,
                },
            )
        }),
{
    lemma_diff_spec_facts(a, b);
    let links = linked(a, b);
    let built = built_state(a, b, links.oa, links.na);
    if !line_is_matched(built.matches, li) {
        assert(diff_spec(a, b).lines[li] == built.lines[li]);
        assert(built.lines[li].state is Unchanged);
        assert(line_is_matched(built.matches, li));
    }
    let k = choose|k: int|
        0 <= k < built.matches.len() && (#[trigger] built.matches[k]).line_index == li;
    assert(match_wf(a, b, built, b.len() as int, built.matches[k]));
    assert(built.lines[li] == unchanged_line_model(a, b, built.matches[k].old, built.matches[k].new));
    k
}

/// Every output line has the sides its state promises: an added line only a
/// right side, a deleted line only a left side, an unchanged or moved line
/// both; and the movement fields are populated exactly on moved lines, with
/// the 1-based source and destination numbers of the line's two sides.
pub proof fn lemma_diff_line_shape(a: Seq<LineModel>, b: Seq<LineModel>)
    ensures
        ({
            let r = diff_spec(a, b);
            forall|li: int|
                0 <= li < r.lines.len() ==> (match (#[trigger] r.lines[li]).state {
                    DiffState::Added => r.lines[li].left is None && r.lines[li].right is Some
                        && r.lines[li].moved_from is None && r.lines[li].moved_to is None,
                    DiffState::Deleted => r.lines[li].left is Some && r.lines[li].right is None
                        && r.lines[li].moved_from is None && r.lines[li].moved_to is None,
                    DiffState::Unchanged => r.lines[li].left is Some && r.lines[li].right is Some
                        && r.lines[li].moved_from is None && r.lines[li].moved_to is None,
                    DiffState::Moved => r.lines[li].left is Some && r.lines[li].right is Some
                        && r.lines[li].moved_from == Some(r.lines[li].left->Some_0.line_number)
                        && r.lines[li].moved_to == Some(r.lines[li].right->Some_0.line_number),
                })
        }),
{
    lemma_diff_spec_facts(a, b);
    let links = linked(a, b);
    let built = built_state(a, b, links.oa, links.na);
    let r = diff_spec(a, b);
    assert forall|k: int|
        0 <= k < built.matches.len() implies 0 <= (#[trigger] built.matches[k]).line_index
        < built.lines.len() && built.lines[built.matches[k].line_index].state is Unchanged by {
        assert(match_wf(a, b, built, b.len() as int, built.matches[k]));
    }
    lemma_classify_result_preserves(built.lines, built.matches);
    assert forall|li: int|
        0 <= li < r.lines.len() implies (match (#[trigger] r.lines[li]).state {
        DiffState::Added => r.lines[li].left is None && r.lines[li].right is Some
            && r.lines[li].moved_from is None && r.lines[li].moved_to is None,
        DiffState::Deleted => r.lines[li].left is Some && r.lines[li].right is None
            && r.lines[li].moved_from is None && r.lines[li].moved_to is None,
        DiffState::Unchanged => r.lines[li].left is Some && r.lines[li].right is Some
            && r.lines[li].moved_from is None && r.lines[li].moved_to is None,
        DiffState::Moved => r.lines[li].left is Some && r.lines[li].right is Some
            && r.lines[li].moved_from == Some(r.lines[li].left->Some_0.line_number)
            && r.lines[li].moved_to == Some(r.lines[li].right->Some_0.line_number),
    }) by {
        assert(build_line_wf(a, b, built.lines[li], b.len() as int));
        if line_is_matched(built.matches, li) {
            let k = choose|k: int|
                0 <= k < built.matches.len() && (#[trigger] built.matches[k]).line_index == li;
            assert(match_wf(a, b, built, b.len() as int, built.matches[k]));
            assert(r.lines[li] == classified_line(
                built.lines,
                built.matches[k],
                backbone_flags(built.matches)[k],
            ));
            assert(built.lines[li] == unchanged_line_model(
                a,
                b,
                built.matches[k].old,
                built.matches[k].new,
            ));
        } else {
            assert(r.lines[li] == built.lines[li]);
        }
    }
}

/// A free match found no earlier than where it sits is found exactly there.
proof fn lemma_first_free_match_bracket(
    b: Seq<LineModel>,
    na: Seq<Option<int>>,
    key: Seq<char>,
    lo: int,
    k: int,
)
    requires
        0 <= k <= lo <= b.len(),
        forall|q: int| k <= q < lo ==> !(na[q] is None && b[q].key == key),
        lo < b.len() ==> (na[lo] is None && b[lo].key == key),
    ensures
        first_free_match(b, na, key, k) == lo,
    decreases lo - k,
{
    if k < lo {
        lemma_first_free_match_bracket(b, na, key, lo, k + 1);
    }
}

/// The correspondence the two passes build between a sequence and itself,
/// once the first `i` positions have gone through duplicate resolution:
/// every position up to `i`, and every unique key's position, is linked to
/// itself.
spec fn self_links_at(a: Seq<LineModel>, i: int) -> Links {
    Links {
        oa: Seq::new(
            a.len(),
            |q: int|
                if q < i || count_key(a, a[q].key) == 1 {
                    Some(q)
                } else {
                    None
                },
        ),
        na: Seq::new(
            a.len(),
            |q: int|
                if q < i || count_key(a, a[q].key) == 1 {
                    Some(q)
                } else {
                    None
                },
        ),
    }
}

/// Diffing a sequence against itself links every position to itself.
proof fn lemma_self_links(a: Seq<LineModel>, i: int)
    requires
        0 <= i <= a.len(),
    ensures
        greedy_prefix(a, a, unique_links(a, a), i) == self_links_at(a, i),
    decreases i,
{
    if i == 0 {
        assert forall|q: int| 0 <= q < a.len() implies unique_oa_at(a, a, q) == self_links_at(
            a,
            0,
        ).oa[q] by {
            let key = a[q].key;
            if count_key(a, key) == 1 {
                lemma_unique_key_first(a, key, q);
            }
        }
        assert forall|q: int| 0 <= q < a.len() implies unique_na_at(a, a, q) == self_links_at(
            a,
            0,
        ).na[q] by {
            let key = a[q].key;
            if count_key(a, key) == 1 {
                lemma_unique_key_first(a, key, q);
            }
        }
        assert(unique_links(a, a).oa =~= self_links_at(a, 0).oa);
        assert(unique_links(a, a).na =~= self_links_at(a, 0).na);
    } else {
        lemma_self_links(a, i - 1);
        let links = self_links_at(a, i - 1);
        let key = a[i - 1].key;
        let step = greedy_step(a, a, links, i - 1);
        if count_key(a, key) == 1 {
            assert(links.oa[i - 1] == Some(i - 1));
            assert(step == links);
            assert(links.oa =~= self_links_at(a, i).oa);
            assert(links.na =~= self_links_at(a, i).na);
        } else {
            assert(links.oa[i - 1] is None);
            lemma_count_key_pos(a, key);
            assert(a[i - 1].key == key);
            assert(count_key(a, key) >= 1);
            assert forall|q: int| 0 <= q < i - 1 implies !(links.na[q] is None && a[q].key
                == key) by {
                assert(links.na[q] == Some(q));
            }
            assert(links.na[i - 1] is None && a[i - 1].key == key);
            lemma_first_free_match_bracket(a, links.na, key, i - 1, 0);
            assert(first_free_match(a, links.na, key, 0) == i - 1);
            assert(step.oa =~= self_links_at(a, i).oa);
            assert(step.na =~= self_links_at(a, i).na);
        }
    }
}

/// The builder's state while a sequence is diffed against itself: the first
/// `j` positions paired with themselves, and the cursor right behind them.
spec fn self_build_at(a: Seq<LineModel>, j: int) -> BuildState {
    BuildState {
        lines: Seq::new(j as nat, |k: int| unchanged_line_model(a, a, k, k)),
        matches: Seq::new(j as nat, |k: int| MatchModel { line_index: k, old: k, new: k }),
        processed: Seq::new(a.len(), |q: int| q < j),
        i_ptr: j,
    }
}

/// Scanning a sequence against itself emits one unchanged line per position.
proof fn lemma_self_scan(a: Seq<LineModel>, j: int)
    requires
        0 <= j <= a.len(),
    ensures
        scan_prefix(a, a, linked(a, a).oa, linked(a, a).na, j) == self_build_at(a, j),
    decreases j,
{
    lemma_self_links(a, a.len() as int);
    let oa = linked(a, a).oa;
    let na = linked(a, a).na;
    if j == 0 {
        assert(initial_build_state(a).lines =~= self_build_at(a, 0).lines);
        assert(initial_build_state(a).matches =~= self_build_at(a, 0).matches);
        assert(initial_build_state(a).processed =~= self_build_at(a, 0).processed);
    } else {
        lemma_self_scan(a, j - 1);
        let st = self_build_at(a, j - 1);
        assert(na[j - 1] == Some(j - 1));
        assert(oa[j - 1] == Some(j - 1));
        assert(!st.processed[j - 1]);
        assert(has_match_at(oa, na, st.processed, j - 1));
        let st1 = flush_state(a, oa, st, j - 1, j - 1);
        assert(st1 == st);
        let st2 = scan_step(a, a, oa, na, st, j - 1);
        assert(st2.lines =~= self_build_at(a, j).lines);
        assert(st2.matches =~= self_build_at(a, j).matches);
        assert(st2.processed =~= self_build_at(a, j).processed);
        assert(skip_processed(st2.processed, j) == j);
    }
}

/// The identity sequence of a given length.
spec fn identity_seq(n: int) -> Seq<int> {
    Seq::new(n as nat, |k: int| k)
}

/// Patience sorting over the identity sequence keeps every element: each new
/// element extends the best subsequence.
proof fn lemma_lis_fold_identity(n: int, i: int)
    requires
        0 <= i <= n,
    ensures
        ({
            let st = crate::diff_model::lis_fold(identity_seq(n), i);
            &&& st.length == i
            &&& st.tails.len() == n
            &&& st.preds.len() == n
            &&& forall|k: int| 0 <= k < i ==> st.tails[k] == k
            &&& forall|x: int|
                0 <= x < n ==> st.preds[x] == (if 1 <= x < i {
                    Some(x - 1)
                } else {
                    None::<int>
                })
        }),
    decreases i,
{
    let s = identity_seq(n);
    if i > 0 {
        lemma_lis_fold_identity(n, i - 1);
        let st = crate::diff_model::lis_fold(s, i - 1);
        let value = s[i - 1];
        assert(value == i - 1);
        assert forall|q: int| 0 <= q < i - 1 implies (0 <= st.tails[q] < s.len() && s[st.tails[q]]
            < value) by {
            assert(st.tails[q] == q);
        }
        lemma_lis_lower_bound_bracket_here(s, st.tails, st.length, value);
        assert(crate::diff_model::lis_lower_bound(s, st.tails, st.length, value, 0) == i - 1);
    }
}

/// The lower bound over tails all smaller than the value is the length.
proof fn lemma_lis_lower_bound_bracket_here(s: Seq<int>, tails: Seq<int>, length: int, value: int)
    requires
        0 <= length <= tails.len(),
        forall|q: int|
            0 <= q < length ==> (0 <= #[trigger] tails[q] < s.len() && s[tails[q]] < value),
    ensures
        crate::diff_model::lis_lower_bound(s, tails, length, value, 0) == length,
{
    crate::diff_model::lemma_lis_lower_bound_bracket(s, tails, length, value, length, 0);
}

/// Backtracking the identity predecessors collects every position up to the
/// start.
proof fn lemma_backtrack_identity(preds: Seq<Option<int>>, k: int)
    requires
        0 <= k < preds.len(),
        forall|x: int|
            0 <= x < preds.len() ==> preds[x] == (if 1 <= x <= k {
                Some(x - 1)
            } else {
                preds[x]
            }),
    ensures
        crate::diff_model::lis_backtrack(preds, k) =~= Seq::new((k + 1) as nat, |q: int| q),
    decreases k,
{
    if k == 0 {
    } else {
        assert(preds[k] == Some(k - 1));
        lemma_backtrack_identity(preds, k - 1);
    }
}

/// Recording the identity positions sets every backbone flag.
proof fn lemma_flags_identity(n: int, t: int)
    requires
        0 <= t <= n,
    ensures
        ({
            let flags = crate::diff_model::lis_flags(n, identity_seq(n), t);
            &&& flags.len() == n
            &&& forall|x: int| 0 <= x < n ==> flags[x] == (x < t)
        }),
    decreases t,
{
    if t > 0 {
        lemma_flags_identity(n, t - 1);
        assert(identity_seq(n)[t - 1] == t - 1);
    }
}

/// Classifying a fully matched, already ascending alignment changes nothing:
/// every line stays unchanged and no block is opened.
proof fn lemma_self_classify(a: Seq<LineModel>, t: int)
    requires
        0 <= t <= a.len(),
    ensures
        ({
            let built = self_build_at(a, a.len() as int);
            let flags = crate::diff_model::lis_flags(
                a.len() as int,
                identity_seq(a.len() as int),
                a.len() as int,
            );
            let st = classify_fold(built.matches, flags, built.lines, t);
            &&& st.lines == built.lines
            &&& st.blocks == Seq::<crate::diff_engine::MovedBlockModel>::empty()
            &&& st.cur is None
        }),
    decreases t,
{
    let n = a.len() as int;
    let built = self_build_at(a, n);
    let flags = crate::diff_model::lis_flags(n, identity_seq(n), n);
    lemma_flags_identity(n, n);
    if t > 0 {
        lemma_self_classify(a, t - 1);
        let st = classify_fold(built.matches, flags, built.lines, t - 1);
        let m = built.matches[t - 1];
        assert(m.line_index == t - 1);
        assert(flags[t - 1]);
        let line2 = crate::diff_engine::DiffLineModel {
            state: DiffState::Unchanged,
            left: st.lines[m.line_index].left,
            right: st.lines[m.line_index].right,
            moved_from: None,
            moved_to: None,
        };
        assert(st.lines[m.line_index] == unchanged_line_model(a, a, t - 1, t - 1));
        assert(line2 == st.lines[m.line_index]);
        assert(st.lines.update(m.line_index, line2) =~= st.lines);
    }
}

/// A line list of unchanged lines only counts nothing but unchanged lines.
proof fn lemma_stats_all_unchanged(lines: Seq<DiffLineModel>)
    requires
        forall|li: int| 0 <= li < lines.len() ==> (#[trigger] lines[li]).state is Unchanged,
    ensures
        stats_of(lines).additions == 0,
        stats_of(lines).deletions == 0,
        stats_of(lines).moves == 0,
        stats_of(lines).unchanged == lines.len(),
    decreases lines.len(),
{
    if lines.len() > 0 {
        lemma_stats_all_unchanged(lines.drop_last());
    }
}

/// Diffing a sequence against itself yields one unchanged line per input
/// line, no additions, deletions or moves, and no moved blocks.
pub proof fn lemma_diff_self(a: Seq<LineModel>)
    ensures
        ({
            let r = diff_spec(a, a);
            &&& r.lines.len() == a.len()
            &&& forall|li: int|
                0 <= li < r.lines.len() ==> (#[trigger] r.lines[li]) == unchanged_line_model(
                    a,
                    a,
                    li,
                    li,
                )
            &&& r.statistics.additions == 0
            &&& r.statistics.deletions == 0
            &&& r.statistics.moves == 0
            &&& r.statistics.unchanged == a.len()
            &&& r.moved_blocks.len() == 0
        }),
{
    let n = a.len() as int;
    lemma_self_links(a, n);
    lemma_self_scan(a, n);
    let built0 = scan_prefix(a, a, linked(a, a).oa, linked(a, a).na, n);
    let built = self_build_at(a, n);
    assert(built0 == built);
    assert(final_flush(a, built) == built);
    assert(built_state(a, a, linked(a, a).oa, linked(a, a).na) == built);
    if n == 0 {
        assert(built.matches.len() == 0);
        lemma_stats_all_unchanged(built.lines);
    } else {
        assert(crate::diff_model::olds_of(built.matches) =~= identity_seq(n));
        lemma_lis_fold_identity(n, n);
        let st = crate::diff_model::lis_fold(identity_seq(n), n);
        assert(st.length == n);
        assert(st.tails[n - 1] == n - 1);
        lemma_backtrack_identity(st.preds, n - 1);
        assert(crate::diff_model::lis_positions(identity_seq(n)) =~= identity_seq(n));
        lemma_flags_identity(n, n);
        assert(crate::diff_model::lis_positions(olds_of_matches_abbrev(built.matches))
            == identity_seq(n)) by {
            assert(crate::diff_model::olds_of(built.matches) =~= identity_seq(n));
        }
        lemma_self_classify(a, n);
        let flags = crate::diff_model::lis_flags(n, identity_seq(n), n);
        let cst = classify_fold(built.matches, flags, built.lines, n);
        assert(classify_result(built.lines, built.matches).0 == built.lines);
        assert(classify_result(built.lines, built.matches).1
            =~= Seq::<crate::diff_engine::MovedBlockModel>::empty());
        lemma_stats_all_unchanged(built.lines);
    }
}

/// Abbreviation used while relating the match list to the identity sequence.
spec fn olds_of_matches_abbrev(matches: Seq<MatchModel>) -> Seq<int> {
    crate::diff_model::olds_of(matches)
}

} // verus!

