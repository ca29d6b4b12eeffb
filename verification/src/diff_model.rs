//! Specification-level model of the diff pipeline.
//!
//! Every phase of the executable engine is pinned to a spec function in this
//! module, so that the whole diff is a mathematical function of the two input
//! sequences. The laws about diff results are proved over these functions.

use vstd::prelude::*;

use crate::diff_engine::{
    DiffLineModel, DiffResultModel, DiffState, LineContentModel, LineModel, MovedBlockModel,
    stats_of,
};

verus! {

/// Number of occurrences of `key` among the comparison keys of `s`.
pub open spec fn count_key(s: Seq<LineModel>, key: Seq<char>) -> nat
    decreases s.len(),
{
    if s.len() == 0 {
        0
    } else {
        count_key(s.drop_last(), key) + if s.last().key == key {
            1nat
        } else {
            0nat
        }
    }
}

/// The first position at or after `j` whose comparison key is `key`, or
/// `s.len()` when there is none.
pub open spec fn first_key_index_from(s: Seq<LineModel>, key: Seq<char>, j: int) -> int
    decreases s.len() - j,
{
    if j < 0 || j >= s.len() {
        s.len() as int
    } else if s[j].key == key {
        j
    } else {
        first_key_index_from(s, key, j + 1)
    }
}

/// Counting a one-longer prefix adds one exactly when the new element's key
/// matches.
pub proof fn lemma_count_key_take_step(s: Seq<LineModel>, key: Seq<char>, i: int)
    requires
        0 <= i < s.len(),
    ensures
        count_key(s.take(i + 1), key) == count_key(s.take(i), key) + if s[i].key == key {
            1nat
        } else {
            0nat
        },
{
    assert(s.take(i + 1).drop_last() == s.take(i));
    assert(s.take(i + 1).last() == s[i]);
}

/// A key cannot occur more often than the sequence is long.
pub proof fn lemma_count_key_le_len(s: Seq<LineModel>, key: Seq<char>)
    ensures
        count_key(s, key) <= s.len(),
    decreases s.len(),
{
    if s.len() > 0 {
        lemma_count_key_le_len(s.drop_last(), key);
    }
}

/// A key occurs in a sequence exactly when its count is positive.
pub proof fn lemma_count_key_pos(s: Seq<LineModel>, key: Seq<char>)
    ensures
        count_key(s, key) >= 1 <==> exists|i: int| 0 <= i < s.len() && s[i].key == key,
    decreases s.len(),
{
    if s.len() > 0 {
        lemma_count_key_pos(s.drop_last(), key);
        if s.last().key == key {
            assert(s[s.len() - 1].key == key);
        } else if exists|i: int| 0 <= i < s.len() && s[i].key == key {
            let i = choose|i: int| 0 <= i < s.len() && s[i].key == key;
            if i < s.len() - 1 {
                assert(s.drop_last()[i].key == key);
            }
        } else if count_key(s.drop_last(), key) >= 1 {
            let i = choose|i: int| 0 <= i < s.drop_last().len() && s.drop_last()[i].key == key;
            assert(s[i].key == key);
        }
    }
}

/// Two distinct positions with the same key force a count of at least two.
pub proof fn lemma_count_key_two(s: Seq<LineModel>, key: Seq<char>, i: int, j: int)
    requires
        0 <= i < j < s.len(),
        s[i].key == key,
        s[j].key == key,
    ensures
        count_key(s, key) >= 2,
    decreases s.len(),
{
    if j == s.len() - 1 {
        lemma_count_key_pos(s.drop_last(), key);
        assert(s.drop_last()[i].key == key);
    } else {
        lemma_count_key_two(s.drop_last(), key, i, j);
    }
}

/// What `first_key_index_from` returns: a position in `[j, s.len()]`, a match
/// if it is a real position, and no match before it.
pub proof fn lemma_first_key_index_from(s: Seq<LineModel>, key: Seq<char>, j: int)
    requires
        0 <= j <= s.len(),
    ensures
        j <= first_key_index_from(s, key, j) <= s.len(),
        first_key_index_from(s, key, j) < s.len() ==> s[first_key_index_from(s, key, j)].key
            == key,
        forall|q: int|
            j <= q < first_key_index_from(s, key, j) ==> s[q].key != key,
    decreases s.len() - j,
{
    if j < s.len() && s[j].key != key {
        lemma_first_key_index_from(s, key, j + 1);
    }
}

/// When a key's count is one, the position holding it is the first.
pub proof fn lemma_unique_key_first(s: Seq<LineModel>, key: Seq<char>, i: int)
    requires
        0 <= i < s.len(),
        s[i].key == key,
        count_key(s, key) == 1,
    ensures
        first_key_index_from(s, key, 0) == i,
{
    lemma_first_key_index_from(s, key, 0);
    let f = first_key_index_from(s, key, 0);
    assert(f <= i);
    if f < i {
        lemma_count_key_two(s, key, f, i);
    }
}

/// The two position-correspondence arrays produced by the linking passes:
/// `oa` maps a position in sequence A to its partner in B (if any), and `na`
/// the other way round.
pub ghost struct Links {
    pub oa: Seq<Option<int>>,
    pub na: Seq<Option<int>>,
}

/// What the unique-anchor pass puts in `old_to_new` at position `i`: the one
/// position of B holding the same key, provided the key occurs exactly once
/// on each side.
pub open spec fn unique_oa_at(a: Seq<LineModel>, b: Seq<LineModel>, i: int) -> Option<int> {
    let key = a[i].key;
    if count_key(a, key) == 1 && count_key(b, key) == 1 {
        let j = first_key_index_from(b, key, 0);
        if j < b.len() {
            Some(j)
        } else {
            None
        }
    } else {
        None
    }
}

/// What the unique-anchor pass puts in `new_to_old` at position `j`.
pub open spec fn unique_na_at(a: Seq<LineModel>, b: Seq<LineModel>, j: int) -> Option<int> {
    let key = b[j].key;
    if count_key(a, key) == 1 && count_key(b, key) == 1 {
        let i = first_key_index_from(a, key, 0);
        if i < a.len() {
            Some(i)
        } else {
            None
        }
    } else {
        None
    }
}

/// The correspondence after the unique-anchor pass.
pub open spec fn unique_links(a: Seq<LineModel>, b: Seq<LineModel>) -> Links {
    Links {
        oa: Seq::new(a.len(), |i: int| unique_oa_at(a, b, i)),
        na: Seq::new(b.len(), |j: int| unique_na_at(a, b, j)),
    }
}

/// The first still-unlinked position of B at or after `j` holding `key`, or
/// `b.len()` when there is none.
pub open spec fn first_free_match(
    b: Seq<LineModel>,
    na: Seq<Option<int>>,
    key: Seq<char>,
    j: int,
) -> int
    decreases b.len() - j,
{
    if j < 0 || j >= b.len() {
        b.len() as int
    } else if na[j] is None && b[j].key == key {
        j
    } else {
        first_free_match(b, na, key, j + 1)
    }
}

/// What `first_free_match` returns: a position in `[j, b.len()]`, a free
/// match if it is a real position, and no free match before it.
pub proof fn lemma_first_free_match(b: Seq<LineModel>, na: Seq<Option<int>>, key: Seq<char>, j: int)
    requires
        0 <= j <= b.len(),
    ensures
        j <= first_free_match(b, na, key, j) <= b.len(),
        first_free_match(b, na, key, j) < b.len() ==> na[first_free_match(b, na, key, j)] is None
            && b[first_free_match(b, na, key, j)].key == key,
        forall|q: int|
            j <= q < first_free_match(b, na, key, j) ==> !(na[q] is None && b[q].key == key),
    decreases b.len() - j,
{
    if j < b.len() && !(na[j] is None && b[j].key == key) {
        lemma_first_free_match(b, na, key, j + 1);
    }
}

/// One step of the duplicate-resolution pass: position `i` of A, when still
/// unlinked and its key occurs in B, greedily takes the first still-unlinked
/// matching position of B.
pub open spec fn greedy_step(a: Seq<LineModel>, b: Seq<LineModel>, links: Links, i: int) -> Links {
    let key = a[i].key;
    if links.oa[i] is None && count_key(b, key) >= 1 {
        let j = first_free_match(b, links.na, key, 0);
        if j < b.len() {
            Links { oa: links.oa.update(i, Some(j)), na: links.na.update(j, Some(i)) }
        } else {
            links
        }
    } else {
        links
    }
}

/// The duplicate-resolution pass applied to the first `i` positions of A.
pub open spec fn greedy_prefix(a: Seq<LineModel>, b: Seq<LineModel>, init: Links, i: int) -> Links
    decreases i,
{
    if i <= 0 {
        init
    } else {
        greedy_step(a, b, greedy_prefix(a, b, init, i - 1), i - 1)
    }
}

/// The completed correspondence between the two sequences: unique anchors
/// first, then greedy resolution of the remaining duplicates.
pub open spec fn linked(a: Seq<LineModel>, b: Seq<LineModel>) -> Links {
    greedy_prefix(a, b, unique_links(a, b), a.len() as int)
}

/// One matched pair as recorded by the alignment builder: the index of the
/// output line holding the pair, and the positions matched in A and B.
pub ghost struct MatchModel {
    pub line_index: int,
    pub old: int,
    pub new: int,
}

/// Intermediate state of the alignment builder: the output lines and matches
/// emitted so far, which positions of A have been consumed, and the cursor
/// from which pending deletions are flushed.
pub ghost struct BuildState {
    pub lines: Seq<DiffLineModel>,
    pub matches: Seq<MatchModel>,
    pub processed: Seq<bool>,
    pub i_ptr: int,
}

/// The deleted line emitted for position `i` of A.
pub open spec fn deleted_line_model(a: Seq<LineModel>, i: int) -> DiffLineModel {
    DiffLineModel {
        state: DiffState::Deleted,
        left: Some(LineContentModel { line_number: i + 1, text: a[i].original }),
        right: None,
        moved_from: None,
        moved_to: None,
    }
}

/// The added line emitted for position `j` of B.
pub open spec fn added_line_model(b: Seq<LineModel>, j: int) -> DiffLineModel {
    DiffLineModel {
        state: DiffState::Added,
        left: None,
        right: Some(LineContentModel { line_number: j + 1, text: b[j].original }),
        moved_from: None,
        moved_to: None,
    }
}

/// The unchanged line emitted when position `i` of A matches position `j`
/// of B.
pub open spec fn unchanged_line_model(a: Seq<LineModel>, b: Seq<LineModel>, i: int, j: int)
    -> DiffLineModel {
    DiffLineModel {
        state: DiffState::Unchanged,
        left: Some(LineContentModel { line_number: i + 1, text: a[i].original }),
        right: Some(LineContentModel { line_number: j + 1, text: b[j].original }),
        moved_from: None,
        moved_to: None,
    }
}

/// Flushing pending positions of A below `i_match` while scanning position
/// `j` of B: consumed positions are skipped, positions linked to a later
/// position of B stop the flush, positions linked to an earlier one are
/// silently consumed, and unlinked positions are emitted as deletions.
pub open spec fn flush_state(
    a: Seq<LineModel>,
    oa: Seq<Option<int>>,
    st: BuildState,
    i_match: int,
    j: int,
) -> BuildState
    decreases i_match - st.i_ptr,
{
    if st.i_ptr < 0 || st.i_ptr >= i_match || st.i_ptr >= a.len() || st.i_ptr
        >= st.processed.len() || st.i_ptr >= oa.len() {
        st
    } else if st.processed[st.i_ptr] {
        flush_state(a, oa, BuildState { i_ptr: st.i_ptr + 1, ..st }, i_match, j)
    } else {
        match oa[st.i_ptr] {
            Some(mj) => if mj >= j {
                st
            } else {
                flush_state(
                    a,
                    oa,
                    BuildState {
                        processed: st.processed.update(st.i_ptr, true),
                        i_ptr: st.i_ptr + 1,
                        ..st
                    },
                    i_match,
                    j,
                )
            },
            None => flush_state(
                a,
                oa,
                BuildState {
                    lines: st.lines.push(deleted_line_model(a, st.i_ptr)),
                    processed: st.processed.update(st.i_ptr, true),
                    i_ptr: st.i_ptr + 1,
                    ..st
                },
                i_match,
                j,
            ),
        }
    }
}

/// The first position at or after `i` that is not yet consumed, or the end.
pub open spec fn skip_processed(processed: Seq<bool>, i: int) -> int
    decreases processed.len() - i,
{
    if i < 0 || i >= processed.len() {
        i
    } else if processed[i] {
        skip_processed(processed, i + 1)
    } else {
        i
    }
}

/// Whether position `j` of B has a valid, not-yet-consumed correspondence in
/// the given state.
pub open spec fn has_match_at(
    oa: Seq<Option<int>>,
    na: Seq<Option<int>>,
    processed: Seq<bool>,
    j: int,
) -> bool {
    match na[j] {
        Some(i) => 0 <= i < oa.len() && oa[i] == Some(j) && 0 <= i < processed.len()
            && !processed[i],
        None => false,
    }
}

/// One step of the alignment builder: scanning position `j` of B either
/// flushes pending deletions and emits the matched pair, or emits an added
/// line.
pub open spec fn scan_step(
    a: Seq<LineModel>,
    b: Seq<LineModel>,
    oa: Seq<Option<int>>,
    na: Seq<Option<int>>,
    st: BuildState,
    j: int,
) -> BuildState {
    if has_match_at(oa, na, st.processed, j) {
        let i_match = na[j]->Some_0;
        let st1 = flush_state(a, oa, st, i_match, j);
        let lines2 = st1.lines.push(unchanged_line_model(a, b, i_match, j));
        let matches2 = st1.matches.push(
            MatchModel { line_index: st1.lines.len() as int, old: i_match, new: j },
        );
        let processed2 = st1.processed.update(i_match, true);
        let ip2 = if st1.i_ptr == i_match {
            st1.i_ptr + 1
        } else {
            st1.i_ptr
        };
        BuildState {
            lines: lines2,
            matches: matches2,
            processed: processed2,
            i_ptr: skip_processed(processed2, ip2),
        }
    } else {
        BuildState { lines: st.lines.push(added_line_model(b, j)), ..st }
    }
}

/// The alignment builder's state before scanning anything.
pub open spec fn initial_build_state(a: Seq<LineModel>) -> BuildState {
    BuildState {
        lines: Seq::empty(),
        matches: Seq::empty(),
        processed: Seq::new(a.len(), |i: int| false),
        i_ptr: 0,
    }
}

/// The alignment builder's state after scanning the first `j` positions of B.
pub open spec fn scan_prefix(
    a: Seq<LineModel>,
    b: Seq<LineModel>,
    oa: Seq<Option<int>>,
    na: Seq<Option<int>>,
    j: int,
) -> BuildState
    decreases j,
{
    if j <= 0 {
        initial_build_state(a)
    } else {
        scan_step(a, b, oa, na, scan_prefix(a, b, oa, na, j - 1), j - 1)
    }
}

/// Emitting the positions of A never consumed by the scan as deletions, in
/// ascending order.
pub open spec fn final_flush(a: Seq<LineModel>, st: BuildState) -> BuildState
    decreases a.len() - st.i_ptr,
{
    if st.i_ptr < 0 || st.i_ptr >= a.len() || st.i_ptr >= st.processed.len() {
        st
    } else if st.processed[st.i_ptr] {
        final_flush(a, BuildState { i_ptr: st.i_ptr + 1, ..st })
    } else {
        final_flush(
            a,
            BuildState {
                lines: st.lines.push(deleted_line_model(a, st.i_ptr)),
                processed: st.processed.update(st.i_ptr, true),
                i_ptr: st.i_ptr + 1,
                ..st
            },
        )
    }
}

/// The alignment builder's complete output for the given correspondence.
pub open spec fn built_state(
    a: Seq<LineModel>,
    b: Seq<LineModel>,
    oa: Seq<Option<int>>,
    na: Seq<Option<int>>,
) -> BuildState {
    final_flush(a, scan_prefix(a, b, oa, na, b.len() as int))
}

/// State of the patience-sorting pass: `tails[l]` is the input position
/// ending the best increasing subsequence of length `l + 1` found so far,
/// `preds` are the reconstruction links, and `length` the best length.
pub ghost struct LisState {
    pub tails: Seq<int>,
    pub preds: Seq<Option<int>>,
    pub length: int,
}

/// The first slot in `[k, length)` whose tail value is at least `value`, or
/// `length` when every tail is smaller.
pub open spec fn lis_lower_bound(
    s: Seq<int>,
    tails: Seq<int>,
    length: int,
    value: int,
    k: int,
) -> int
    decreases length - k,
{
    if k < 0 || k >= length || k >= tails.len() {
        length
    } else if 0 <= tails[k] < s.len() && s[tails[k]] >= value {
        k
    } else {
        lis_lower_bound(s, tails, length, value, k + 1)
    }
}

/// One step of patience sorting: element `i` replaces the first tail at
/// least as large as it, or extends the best subsequence by one.
pub open spec fn lis_step(s: Seq<int>, st: LisState, i: int) -> LisState {
    let value = s[i];
    let p = lis_lower_bound(s, st.tails, st.length, value, 0);
    LisState {
        tails: st.tails.update(p, i),
        preds: if p > 0 && 0 <= p - 1 < st.tails.len() {
            st.preds.update(i, Some(st.tails[p - 1]))
        } else {
            st.preds
        },
        length: if p + 1 > st.length {
            p + 1
        } else {
            st.length
        },
    }
}

/// The patience-sorting state after the first `i` elements.
pub open spec fn lis_fold(s: Seq<int>, i: int) -> LisState
    decreases i,
{
    if i <= 0 {
        LisState {
            tails: Seq::new(s.len(), |k: int| 0),
            preds: Seq::new(s.len(), |k: int| None),
            length: 0,
        }
    } else {
        lis_step(s, lis_fold(s, i - 1), i - 1)
    }
}

/// Well-formedness of the patience state after `i` elements: the arrays keep
/// their length, tails point at already-seen positions, tail values rise
/// strictly, and predecessor links point strictly backwards.
pub open spec fn lis_wf(s: Seq<int>, st: LisState, i: int) -> bool {
    &&& st.tails.len() == s.len()
    &&& st.preds.len() == s.len()
    &&& 0 <= st.length <= i <= s.len()
    &&& forall|k: int| 0 <= k < st.length ==> 0 <= #[trigger] st.tails[k] < i
    &&& forall|p: int, q: int|
        0 <= p < q < st.length ==> s[#[trigger] st.tails[p]] < s[#[trigger] st.tails[q]]
    &&& forall|x: int|
        0 <= x < s.len() && #[trigger] st.preds[x] is Some ==> 0 <= st.preds[x]->Some_0 < x
    &&& (i >= 1 ==> st.length >= 1)
}

/// What `lis_lower_bound` returns: a slot in `[k, length]`, whose tail (if a
/// real slot) is at least `value`, with every earlier slot's tail smaller.
pub proof fn lemma_lis_lower_bound(s: Seq<int>, tails: Seq<int>, length: int, value: int, k: int)
    requires
        0 <= k <= length <= tails.len(),
    ensures
        k <= lis_lower_bound(s, tails, length, value, k) <= length,
        lis_lower_bound(s, tails, length, value, k) < length ==> (0 <= tails[lis_lower_bound(
            s,
            tails,
            length,
            value,
            k,
        )] < s.len() && s[tails[lis_lower_bound(s, tails, length, value, k)]] >= value),
        forall|q: int|
            k <= q < lis_lower_bound(s, tails, length, value, k) ==> !(0 <= #[trigger] tails[q]
                < s.len() && s[tails[q]] >= value),
    decreases length - k,
{
    if k < length && !(0 <= tails[k] < s.len() && s[tails[k]] >= value) {
        lemma_lis_lower_bound(s, tails, length, value, k + 1);
    }
}

/// A slot below which every tail is smaller than `value` and at which the
/// tail (if real) is at least `value` is exactly what `lis_lower_bound`
/// finds.
pub proof fn lemma_lis_lower_bound_bracket(
    s: Seq<int>,
    tails: Seq<int>,
    length: int,
    value: int,
    lo: int,
    k: int,
)
    requires
        0 <= k <= lo <= length <= tails.len(),
        forall|q: int|
            0 <= q < lo ==> (0 <= #[trigger] tails[q] < s.len() && s[tails[q]] < value),
        lo < length ==> (0 <= tails[lo] < s.len() && s[tails[lo]] >= value),
    ensures
        lis_lower_bound(s, tails, length, value, k) == lo,
    decreases lo - k,
{
    if k < lo {
        lemma_lis_lower_bound_bracket(s, tails, length, value, lo, k + 1);
    }
}

/// One patience step preserves well-formedness.
pub proof fn lemma_lis_step_wf(s: Seq<int>, st: LisState, i: int)
    requires
        lis_wf(s, st, i),
        0 <= i < s.len(),
    ensures
        lis_wf(s, lis_step(s, st, i), i + 1),
{
    let value = s[i];
    let p = lis_lower_bound(s, st.tails, st.length, value, 0);
    lemma_lis_lower_bound(s, st.tails, st.length, value, 0);
    let st2 = lis_step(s, st, i);
    assert forall|x: int, y: int| 0 <= x < y < st2.length implies s[#[trigger] st2.tails[x]]
        < s[#[trigger] st2.tails[y]] by {
        if y == p {
            assert(!(0 <= st.tails[x] < s.len() && s[st.tails[x]] >= value));
        } else if x == p {
            if p < st.length {
                assert(s[st.tails[p]] >= value);
                assert(s[st.tails[p]] < s[st.tails[y]]);
            }
        }
    }
}

/// The positions of one longest increasing subsequence, reconstructed by
/// walking the predecessor links back from `k`.
pub open spec fn lis_backtrack(preds: Seq<Option<int>>, k: int) -> Seq<int>
    decreases k,
{
    if 0 <= k < preds.len() && (match preds[k] {
        Some(p) => 0 <= p < k,
        None => false,
    }) {
        lis_backtrack(preds, preds[k]->Some_0).push(k)
    } else {
        Seq::empty().push(k)
    }
}

/// The positions (in input order) of the longest increasing subsequence that
/// patience sorting selects.
pub open spec fn lis_positions(s: Seq<int>) -> Seq<int> {
    if s.len() == 0 {
        Seq::empty()
    } else {
        let st = lis_fold(s, s.len() as int);
        if st.length == 0 {
            Seq::empty()
        } else if 0 <= st.length - 1 < st.tails.len() {
            lis_backtrack(st.preds, st.tails[st.length - 1])
        } else {
            Seq::empty()
        }
    }
}

/// The flags marking which match positions belong to the stable backbone,
/// after recording the first `t` of the given positions.
pub open spec fn lis_flags(n: int, positions: Seq<int>, t: int) -> Seq<bool>
    decreases t,
{
    if t <= 0 {
        Seq::new(n as nat, |x: int| false)
    } else {
        let prev = lis_flags(n, positions, t - 1);
        if 0 <= positions[t - 1] < n {
            prev.update(positions[t - 1], true)
        } else {
            prev
        }
    }
}

/// Intermediate state of the move classifier: the reclassified lines, the
/// closed moved blocks, and the block still being extended.
pub ghost struct ClassifyState {
    pub lines: Seq<DiffLineModel>,
    pub blocks: Seq<MovedBlockModel>,
    pub cur: Option<MovedBlockModel>,
}

/// One step of the move classifier over match `t`: a backbone match stays
/// unchanged and closes any open block; any other match becomes a moved line
/// and opens or extends a block.
pub open spec fn classify_step(
    matches: Seq<MatchModel>,
    flags: Seq<bool>,
    st: ClassifyState,
    t: int,
) -> ClassifyState {
    let m = matches[t];
    let in_range = 0 <= m.line_index < st.lines.len();
    if flags[t] {
        let line2 = DiffLineModel {
            state: DiffState::Unchanged,
            left: st.lines[m.line_index].left,
            right: st.lines[m.line_index].right,
            moved_from: None,
            moved_to: None,
        };
        ClassifyState {
            lines: if in_range {
                st.lines.update(m.line_index, line2)
            } else {
                st.lines
            },
            blocks: match st.cur {
                Some(blk) => st.blocks.push(blk),
                None => st.blocks,
            },
            cur: None,
        }
    } else {
        let line2 = DiffLineModel {
            state: DiffState::Moved,
            left: st.lines[m.line_index].left,
            right: st.lines[m.line_index].right,
            moved_from: Some(m.old + 1),
            moved_to: Some(m.new + 1),
        };
        ClassifyState {
            lines: if in_range {
                st.lines.update(m.line_index, line2)
            } else {
                st.lines
            },
            blocks: st.blocks,
            cur: match st.cur {
                Some(blk) => Some(
                    MovedBlockModel {
                        source_start: blk.source_start,
                        source_end: m.old + 1,
                        destination_start: blk.destination_start,
                        destination_end: m.new + 1,
                    },
                ),
                None => Some(
                    MovedBlockModel {
                        source_start: m.old + 1,
                        source_end: m.old + 1,
                        destination_start: m.new + 1,
                        destination_end: m.new + 1,
                    },
                ),
            },
        }
    }
}

/// The move classifier's state after the first `t` matches.
pub open spec fn classify_fold(
    matches: Seq<MatchModel>,
    flags: Seq<bool>,
    lines0: Seq<DiffLineModel>,
    t: int,
) -> ClassifyState
    decreases t,
{
    if t <= 0 {
        ClassifyState { lines: lines0, blocks: Seq::empty(), cur: None }
    } else {
        classify_step(matches, flags, classify_fold(matches, flags, lines0, t - 1), t - 1)
    }
}

/// The old-index sequence of a match list, in match order.
pub open spec fn olds_of(matches: Seq<MatchModel>) -> Seq<int> {
    matches.map(|t: int, m: MatchModel| m.old)
}

/// The move classifier's complete output: the final lines and the moved
/// blocks, in the order discovered.
pub open spec fn classify_result(lines0: Seq<DiffLineModel>, matches: Seq<MatchModel>) -> (
    Seq<DiffLineModel>,
    Seq<MovedBlockModel>,
) {
    if matches.len() == 0 {
        (lines0, Seq::empty())
    } else {
        let positions = lis_positions(olds_of(matches));
        let flags = lis_flags(matches.len() as int, positions, positions.len() as int);
        let st = classify_fold(matches, flags, lines0, matches.len() as int);
        match st.cur {
            Some(blk) => (st.lines, st.blocks.push(blk)),
            None => (st.lines, st.blocks),
        }
    }
}

/// The lines and moved blocks of the whole alignment-plus-classification
/// pipeline for a given correspondence.
pub open spec fn diff_lines_spec(
    a: Seq<LineModel>,
    b: Seq<LineModel>,
    oa: Seq<Option<int>>,
    na: Seq<Option<int>>,
) -> (Seq<DiffLineModel>, Seq<MovedBlockModel>) {
    let st = built_state(a, b, oa, na);
    classify_result(st.lines, st.matches)
}

/// The complete diff of two input sequences: symbol table, anchor linking,
/// alignment and move classification, as one mathematical function.
pub open spec fn diff_spec(a: Seq<LineModel>, b: Seq<LineModel>) -> DiffResultModel {
    let links = linked(a, b);
    let r = diff_lines_spec(a, b, links.oa, links.na);
    DiffResultModel { lines: r.0, statistics: stats_of(r.0), moved_blocks: r.1 }
}

} // verus!
