//! The diff engine: data model and the symbol-table / anchor-linking /
//! alignment / move-classification pipeline.

use vstd::prelude::*;

use crate::diff_model::{
    count_key, first_key_index_from, first_free_match, greedy_prefix, greedy_step,
    lemma_count_key_le_len, lemma_count_key_pos, lemma_count_key_take_step, lemma_count_key_two,
    lemma_first_free_match, lemma_first_key_index_from,
    lemma_lis_lower_bound_bracket, lemma_lis_step_wf,
    lemma_unique_key_first, linked, lis_backtrack, lis_flags, lis_fold, lis_lower_bound,
    lis_positions, lis_step, lis_wf, classify_fold, classify_result, classify_step, olds_of,
    added_line_model, built_state, deleted_line_model, diff_lines_spec, diff_spec, final_flush,
    flush_state, has_match_at, initial_build_state, scan_prefix, scan_step, skip_processed,
    unchanged_line_model, BuildState, ClassifyState, Links, LisState, MatchModel, unique_links,
    unique_na_at, unique_oa_at,
};

verus! {

/// Mathematical model of a [`ComparableLine`]: the displayed text and the
/// key that equality between lines is decided by.
pub ghost struct LineModel {
    pub original: Seq<char>,
    pub key: Seq<char>,
}

/// A line of input: the text shown to the user together with the derived
/// comparison key. Equality is decided by the comparison key alone, so two
/// lines that render differently (say, with different timestamps) can still
/// count as the same line.
#[derive(Debug, Clone)]
pub struct ComparableLine {
    pub original_text: String,
    pub comparable_text: String,
}

impl View for ComparableLine {
    type V = LineModel;

    open spec fn view(&self) -> LineModel {
        LineModel { original: self.original_text@, key: self.comparable_text@ }
    }
}

impl ComparableLine {
    pub fn new(original_text: String, comparable_text: String) -> (r: Self)
        ensures
            r@.original == original_text@,
            r@.key == comparable_text@,
    {
        Self { original_text, comparable_text }
    }
}

impl PartialEq for ComparableLine {
    fn eq(&self, other: &Self) -> (r: bool) {
        self.comparable_text == other.comparable_text
    }
}

impl Eq for ComparableLine {

}

impl vstd::std_specs::cmp::PartialEqSpecImpl for ComparableLine {
    open spec fn obeys_eq_spec() -> bool {
        true
    }

    open spec fn eq_spec(&self, other: &Self) -> bool {
        self@.key == other@.key
    }
}

/// Spec-level view of a sequence of input lines.
pub open spec fn comparable_models(s: Seq<ComparableLine>) -> Seq<LineModel> {
    s.map(|i: int, l: ComparableLine| l@)
}

/// One row of the symbol table: a distinct comparison key together with how
/// often it occurs in each input sequence.
struct SymbolEntry {
    key: String,
    count_a: usize,
    count_b: usize,
}

spec fn entries_wf(es: Seq<SymbolEntry>) -> bool {
    forall|p: int, q: int| 0 <= p < q < es.len() ==> es[p].key@ != es[q].key@
}

spec fn entries_has_key(es: Seq<SymbolEntry>, key: Seq<char>) -> bool {
    exists|p: int| 0 <= p < es.len() && es[p].key@ == key
}

spec fn entries_lookup(es: Seq<SymbolEntry>, key: Seq<char>) -> Option<(nat, nat)> {
    if entries_has_key(es, key) {
        let p = choose|p: int| 0 <= p < es.len() && es[p].key@ == key;
        Some((es[p].count_a as nat, es[p].count_b as nat))
    } else {
        None
    }
}

proof fn lemma_entries_lookup_at(es: Seq<SymbolEntry>, p: int)
    requires
        entries_wf(es),
        0 <= p < es.len(),
    ensures
        entries_lookup(es, es[p].key@) == Some((es[p].count_a as nat, es[p].count_b as nat)),
{
    let key = es[p].key@;
    assert(entries_has_key(es, key));
    let q = choose|q: int| 0 <= q < es.len() && es[q].key@ == key;
    assert(q == p);
}

/// The symbol table of one diff invocation: for each distinct comparison key,
/// how many times it occurs in sequence A and in sequence B.
pub struct SymbolTable {
    entries: Vec<SymbolEntry>,
}

impl SymbolTable {
    #[verifier::type_invariant]
    spec fn wf(self) -> bool {
        entries_wf(self.entries@)
    }

    /// What looking a key up in this table yields, if anything.
    pub closed spec fn spec_lookup(&self, key: Seq<char>) -> Option<(nat, nat)> {
        entries_lookup(self.entries@, key)
    }

    /// The number of distinct keys tabulated.
    pub closed spec fn spec_len(&self) -> nat {
        self.entries@.len()
    }

    /// The table tabulates exactly the keys of the two input sequences, each
    /// with its pair of occurrence counts.
    pub open spec fn models(&self, a: Seq<LineModel>, b: Seq<LineModel>) -> bool {
        forall|key: Seq<char>|
            #![auto]
            self.spec_lookup(key) == (if count_key(a, key) + count_key(b, key) >= 1 {
                Some((count_key(a, key), count_key(b, key)))
            } else {
                None::<(nat, nat)>
            })
    }

    /// How many distinct comparison keys the two inputs held between them.
    pub fn len(&self) -> (r: usize)
        ensures
            r == self.spec_len(),
    {
        self.entries.len()
    }

    /// The occurrence counts of this line's comparison key, or `None` when
    /// the key is absent from both inputs.
    pub fn get(&self, line: &ComparableLine) -> (r: Option<(usize, usize)>)
        ensures
            match r {
                Some(c) => self.spec_lookup(line@.key) == Some((c.0 as nat, c.1 as nat)),
                None => self.spec_lookup(line@.key) is None,
            },
    {
        proof {
            use_type_invariant(&*self);
        }
        let ghost key = line@.key;
        let mut idx: usize = 0;
        while idx < self.entries.len()
            invariant
                0 <= idx <= self.entries@.len(),
                entries_wf(self.entries@),
                key == line@.key,
                forall|q: int| 0 <= q < idx ==> self.entries@[q].key@ != key,
            decreases self.entries@.len() - idx,
        {
            if self.entries[idx].key == line.comparable_text {
                proof {
                    lemma_entries_lookup_at(self.entries@, idx as int);
                }
                return Some((self.entries[idx].count_a, self.entries[idx].count_b));
            }
            idx = idx + 1;
        }
        proof {
            assert(!entries_has_key(self.entries@, key));
        }
        None
    }
}

/// Records one more occurrence of `line`'s key, on side A or side B.
fn bump_entry(entries: &mut Vec<SymbolEntry>, line: &ComparableLine, side_b: bool)
    requires
        entries_wf(old(entries)@),
        match entries_lookup(old(entries)@, line@.key) {
            Some(c) => (if side_b {
                c.1
            } else {
                c.0
            }) < usize::MAX,
            None => true,
        },
    ensures
        entries_wf(final(entries)@),
        forall|key: Seq<char>|
            key != line@.key ==> entries_lookup(final(entries)@, key) == entries_lookup(
                old(entries)@,
                key,
            ),
        entries_lookup(final(entries)@, line@.key) == (match entries_lookup(
            old(entries)@,
            line@.key,
        ) {
            Some(c) => if side_b {
                Some((c.0, (c.1 + 1) as nat))
            } else {
                Some(((c.0 + 1) as nat, c.1))
            },
            None => if side_b {
                Some((0nat, 1nat))
            } else {
                Some((1nat, 0nat))
            },
        }),
{
    let ghost key = line@.key;
    let ghost es0 = entries@;
    let mut idx: usize = 0;
    let n = entries.len();
    while idx < n
        invariant
            0 <= idx <= entries@.len(),
            n == entries@.len(),
            entries@ == es0,
            es0 == old(entries)@,
            entries_wf(es0),
            match entries_lookup(es0, key) {
                Some(c) => (if side_b {
                    c.1
                } else {
                    c.0
                }) < usize::MAX,
                None => true,
            },
            forall|q: int| 0 <= q < idx ==> entries@[q].key@ != key,
            key == line@.key,
        decreases n - idx,
    {
        if entries[idx].key == line.comparable_text {
            proof {
                lemma_entries_lookup_at(es0, idx as int);
            }
            if side_b {
                entries[idx].count_b = entries[idx].count_b + 1;
            } else {
                entries[idx].count_a = entries[idx].count_a + 1;
            }
            proof {
                let es1 = entries@;
                assert(es1 == es0.update(idx as int, es1[idx as int]));
                assert(es1[idx as int].key@ == key);
                assert forall|q: int| 0 <= q < es1.len() implies es1[q].key@ == es0[q].key@ by {}
                assert(entries_wf(es1));
                lemma_entries_lookup_at(es1, idx as int);
                assert forall|k: Seq<char>| k != key implies entries_lookup(es1, k)
                    == entries_lookup(es0, k) by {
                    assert(entries_has_key(es1, k) <==> entries_has_key(es0, k));
                    if entries_has_key(es0, k) {
                        let p = choose|p: int| 0 <= p < es1.len() && es1[p].key@ == k;
                        let p0 = choose|p: int| 0 <= p < es0.len() && es0[p].key@ == k;
                        assert(es1[p0].key@ == k);
                        assert(p == p0);
                        assert(p != idx as int);
                    }
                }
            }
            return ;
        }
        idx = idx + 1;
    }
    proof {
        assert(!entries_has_key(es0, key));
    }
    let entry = SymbolEntry {
        key: line.comparable_text.clone(),
        count_a: if side_b {
            0
        } else {
            1
        },
        count_b: if side_b {
            1
        } else {
            0
        },
    };
    entries.push(entry);
    proof {
        let es1 = entries@;
        assert(es1 == es0.push(es1.last()));
        assert(es1.last().key@ == key);
        assert forall|p: int, q: int| 0 <= p < q < es1.len() implies es1[p].key@
            != es1[q].key@ by {
            if q == es1.len() - 1 {
                assert(es1[p].key@ == es0[p].key@);
            }
        }
        lemma_entries_lookup_at(es1, es1.len() - 1);
        assert forall|k: Seq<char>| k != key implies entries_lookup(es1, k) == entries_lookup(
            es0,
            k,
        ) by {
            assert forall|p: int| 0 <= p < es0.len() implies es1[p].key@ == es0[p].key@ by {}
            assert(entries_has_key(es1, k) <==> entries_has_key(es0, k));
            if entries_has_key(es0, k) {
                let p = choose|p: int| 0 <= p < es1.len() && es1[p].key@ == k;
                let p0 = choose|p: int| 0 <= p < es0.len() && es0[p].key@ == k;
                assert(es1[p0].key@ == k);
                assert(p == p0);
            }
        }
    }
}

/// The diff algorithm: symbol-table based anchor matching with greedy
/// resolution of duplicate lines, followed by a longest-increasing-
/// subsequence pass that separates genuine relocations from the stable
/// skeleton of the two sequences.
pub struct HeckelDiffEngine;

impl HeckelDiffEngine {
    pub fn new() -> (r: Self) {
        Self
    }

    /// Tabulates, for each distinct comparison key, how many times it occurs
    /// in sequence A and in sequence B.
    pub fn build_symbol_table(lines_a: &[ComparableLine], lines_b: &[ComparableLine]) -> (t:
        SymbolTable)
        ensures
            t.models(comparable_models(lines_a@), comparable_models(lines_b@)),
    {
        let ghost am = comparable_models(lines_a@);
        let ghost bm = comparable_models(lines_b@);
        let mut entries: Vec<SymbolEntry> = Vec::new();
        let mut i: usize = 0;
        while i < lines_a.len()
            invariant
                0 <= i <= lines_a@.len(),
                am == comparable_models(lines_a@),
                am.len() == lines_a@.len(),
                entries_wf(entries@),
                forall|key: Seq<char>|
                    #![auto]
                    entries_lookup(entries@, key) == (if count_key(am.take(i as int), key) >= 1 {
                        Some((count_key(am.take(i as int), key), 0nat))
                    } else {
                        None::<(nat, nat)>
                    }),
            decreases lines_a@.len() - i,
        {
            let ghost key = am[i as int].key;
            let ghost es0 = entries@;
            proof {
                assert(lines_a@[i as int]@ == am[i as int]);
                lemma_count_key_le_len(am.take(i as int), key);
            }
            bump_entry(&mut entries, &lines_a[i], false);
            proof {
                assert forall|k: Seq<char>|
                    #![auto]
                    entries_lookup(entries@, k) == (if count_key(am.take(i + 1), k) >= 1 {
                        Some((count_key(am.take(i + 1), k), 0nat))
                    } else {
                        None::<(nat, nat)>
                    }) by {
                    lemma_count_key_take_step(am, k, i as int);
                    if k != key {
                        assert(entries_lookup(entries@, k) == entries_lookup(es0, k));
                    }
                }
            }
            i = i + 1;
        }
        proof {
            assert(am.take(am.len() as int) == am);
            assert(bm.take(0) =~= Seq::<LineModel>::empty());
        }
        let mut j: usize = 0;
        while j < lines_b.len()
            invariant
                0 <= j <= lines_b@.len(),
                am == comparable_models(lines_a@),
                bm == comparable_models(lines_b@),
                bm.len() == lines_b@.len(),
                entries_wf(entries@),
                forall|key: Seq<char>|
                    #![auto]
                    entries_lookup(entries@, key) == (if count_key(am, key) + count_key(
                        bm.take(j as int),
                        key,
                    ) >= 1 {
                        Some((count_key(am, key), count_key(bm.take(j as int), key)))
                    } else {
                        None::<(nat, nat)>
                    }),
            decreases lines_b@.len() - j,
        {
            let ghost key = bm[j as int].key;
            let ghost es0 = entries@;
            proof {
                assert(lines_b@[j as int]@ == bm[j as int]);
                lemma_count_key_le_len(bm.take(j as int), key);
            }
            bump_entry(&mut entries, &lines_b[j], true);
            proof {
                assert forall|k: Seq<char>|
                    #![auto]
                    entries_lookup(entries@, k) == (if count_key(am, k) + count_key(
                        bm.take(j + 1),
                        k,
                    ) >= 1 {
                        Some((count_key(am, k), count_key(bm.take(j + 1), k)))
                    } else {
                        None::<(nat, nat)>
                    }) by {
                    lemma_count_key_take_step(bm, k, j as int);
                    if k != key {
                        assert(entries_lookup(entries@, k) == entries_lookup(es0, k));
                    }
                }
            }
            j = j + 1;
        }
        proof {
            assert(bm.take(bm.len() as int) == bm);
        }
        SymbolTable { entries }
    }

    /// The first position of `lines` whose comparison key equals `line`'s.
    fn position_of_key(lines: &[ComparableLine], line: &ComparableLine) -> (r: Option<usize>)
        ensures
            ({
                let s = comparable_models(lines@);
                let f = first_key_index_from(s, line@.key, 0);
                match r {
                    Some(j) => j < s.len() && f == j,
                    None => f == s.len(),
                }
            }),
    {
        let ghost s = comparable_models(lines@);
        let ghost key = line@.key;
        let mut idx: usize = 0;
        while idx < lines.len()
            invariant
                0 <= idx <= lines@.len(),
                s == comparable_models(lines@),
                s.len() == lines@.len(),
                key == line@.key,
                first_key_index_from(s, key, 0) == first_key_index_from(s, key, idx as int),
            decreases lines@.len() - idx,
        {
            if lines[idx].comparable_text == line.comparable_text {
                proof {
                    assert(lines@[idx as int]@ == s[idx as int]);
                }
                return Some(idx);
            }
            idx = idx + 1;
        }
        None
    }

    /// The unique-anchor pass: links every position of A whose key occurs
    /// exactly once in each sequence to the one matching position of B.
    pub fn link_unique_anchors(
        lines_a: &[ComparableLine],
        lines_b: &[ComparableLine],
        table: &SymbolTable,
    ) -> (r: (Vec<Option<usize>>, Vec<Option<usize>>))
        requires
            table.models(comparable_models(lines_a@), comparable_models(lines_b@)),
        ensures
            opt_seq_models(r.0@) == unique_links(
                comparable_models(lines_a@),
                comparable_models(lines_b@),
            ).oa,
            opt_seq_models(r.1@) == unique_links(
                comparable_models(lines_a@),
                comparable_models(lines_b@),
            ).na,
            r.0@.len() == lines_a@.len(),
            r.1@.len() == lines_b@.len(),
    {
        let ghost am = comparable_models(lines_a@);
        let ghost bm = comparable_models(lines_b@);
        let mut oa: Vec<Option<usize>> = vec![None; lines_a.len()];
        let mut na: Vec<Option<usize>> = vec![None; lines_b.len()];
        proof {
            assert forall|q: int| 0 <= q < oa@.len() implies oa@[q] is None by {
                assert(oa@[q] == None::<usize>);
            }
            assert forall|j: int| 0 <= j < na@.len() implies na@[j] is None by {
                assert(na@[j] == None::<usize>);
            }
            assert forall|j: int|
                #![auto]
                0 <= j < bm.len() implies opt_pos_model(na@[j]) == (match unique_na_at(am, bm, j) {
                Some(p) => if p < 0 {
                    Some(p)
                } else {
                    None
                },
                None => None,
            }) by {
                assert(na@[j] is None);
                lemma_first_key_index_from(am, bm[j].key, 0);
            }
        }
        let mut i: usize = 0;
        while i < lines_a.len()
            invariant
                0 <= i <= lines_a@.len(),
                am == comparable_models(lines_a@),
                bm == comparable_models(lines_b@),
                am.len() == lines_a@.len(),
                bm.len() == lines_b@.len(),
                oa@.len() == am.len(),
                na@.len() == bm.len(),
                table.models(am, bm),
                forall|q: int|
                    #![auto]
                    0 <= q < i ==> opt_pos_model(oa@[q]) == unique_oa_at(am, bm, q),
                forall|q: int| #![auto] i <= q < am.len() ==> oa@[q] is None,
                forall|j: int|
                    #![auto]
                    0 <= j < bm.len() ==> opt_pos_model(na@[j]) == (match unique_na_at(am, bm, j) {
                        Some(p) => if p < i {
                            Some(p)
                        } else {
                            None
                        },
                        None => None,
                    }),
            decreases lines_a@.len() - i,
        {
            let ghost key = am[i as int].key;
            proof {
                assert(lines_a@[i as int]@ == am[i as int]);
            }
            let line = &lines_a[i];
            if let Some(counts) = table.get(line) {
                if counts.0 == 1 && counts.1 == 1 {
                    proof {
                        lemma_count_key_pos(bm, key);
                        lemma_first_key_index_from(bm, key, 0);
                        if first_key_index_from(bm, key, 0) == bm.len() {
                            assert(forall|q: int|
                                0 <= q < bm.len() ==> bm[q].key != key);
                            assert(count_key(bm, key) == 0);
                        }
                        lemma_unique_key_first(am, key, i as int);
                    }
                    if let Some(j) = Self::position_of_key(lines_b, line) {
                        let ghost oa0 = oa@;
                        let ghost na0 = na@;
                        oa[i] = Some(j);
                        na[j] = Some(i);
                        proof {
                            assert(oa@ == oa0.update(i as int, Some(j)));
                            assert(na@ == na0.update(j as int, Some(i)));
                            assert(unique_oa_at(am, bm, i as int) == Some(j as int));
                            assert(bm[j as int].key == key);
                            assert(unique_na_at(am, bm, j as int) == Some(i as int));
                            assert forall|j2: int|
                                #![auto]
                                0 <= j2 < bm.len() implies opt_pos_model(na@[j2]) == (
                            match unique_na_at(am, bm, j2) {
                                Some(p) => if p < i + 1 {
                                    Some(p)
                                } else {
                                    None
                                },
                                None => None,
                            }) by {
                                if j2 != j as int {
                                    if unique_na_at(am, bm, j2) == Some(i as int) {
                                        let key2 = bm[j2].key;
                                        lemma_first_key_index_from(am, key2, 0);
                                        assert(am[i as int].key == key2);
                                        if j2 < j as int {
                                            lemma_count_key_two(bm, key, j2, j as int);
                                        } else {
                                            lemma_count_key_two(bm, key, j as int, j2);
                                        }
                                        assert(false);
                                    }
                                }
                            }
                        }
                    }
                }
            } else {
                proof {
                    lemma_count_key_pos(am, key);
                    assert(false);
                }
            }
            proof {
                if !(count_key(am, key) == 1 && count_key(bm, key) == 1) {
                    assert forall|j2: int|
                        #![auto]
                        0 <= j2 < bm.len() implies opt_pos_model(na@[j2]) == (
                    match unique_na_at(am, bm, j2) {
                        Some(p) => if p < i + 1 {
                            Some(p)
                        } else {
                            None
                        },
                        None => None,
                    }) by {
                        if unique_na_at(am, bm, j2) == Some(i as int) {
                            let key2 = bm[j2].key;
                            lemma_first_key_index_from(am, key2, 0);
                            assert(am[i as int].key == key2);
                            assert(false);
                        }
                    }
                }
            }
            i = i + 1;
        }
        proof {
            assert(opt_seq_models(oa@) =~= unique_links(am, bm).oa);
            assert forall|j: int|
                #![auto]
                0 <= j < bm.len() implies opt_pos_model(na@[j]) == unique_na_at(am, bm, j) by {
                if unique_na_at(am, bm, j) is Some {
                    let p = unique_na_at(am, bm, j)->Some_0;
                    lemma_first_key_index_from(am, bm[j].key, 0);
                }
            }
            assert(opt_seq_models(na@) =~= unique_links(am, bm).na);
        }
        (oa, na)
    }
}

/// Spec-level view of a correspondence array.
pub open spec fn opt_seq_models(s: Seq<Option<usize>>) -> Seq<Option<int>> {
    s.map(|i: int, o: Option<usize>| opt_pos_model(o))
}

impl HeckelDiffEngine {
    /// The duplicate-resolution pass: every still-unlinked position of A
    /// whose key also occurs in B greedily takes the first still-unlinked
    /// matching position of B, in left-to-right order.
    pub fn link_non_unique_matches(
        lines_a: &[ComparableLine],
        lines_b: &[ComparableLine],
        table: &SymbolTable,
        oa: &mut Vec<Option<usize>>,
        na: &mut Vec<Option<usize>>,
    )
        requires
            table.models(comparable_models(lines_a@), comparable_models(lines_b@)),
            old(oa)@.len() == lines_a@.len(),
            old(na)@.len() == lines_b@.len(),
        ensures
            final(oa)@.len() == lines_a@.len(),
            final(na)@.len() == lines_b@.len(),
            (Links { oa: opt_seq_models(final(oa)@), na: opt_seq_models(final(na)@) })
                == greedy_prefix(
                comparable_models(lines_a@),
                comparable_models(lines_b@),
                Links { oa: opt_seq_models(old(oa)@), na: opt_seq_models(old(na)@) },
                lines_a@.len() as int,
            ),
    {
        let ghost am = comparable_models(lines_a@);
        let ghost bm = comparable_models(lines_b@);
        let ghost links0 = Links { oa: opt_seq_models(old(oa)@), na: opt_seq_models(old(na)@) };
        let mut i: usize = 0;
        while i < lines_a.len()
            invariant
                0 <= i <= lines_a@.len(),
                am == comparable_models(lines_a@),
                bm == comparable_models(lines_b@),
                am.len() == lines_a@.len(),
                bm.len() == lines_b@.len(),
                oa@.len() == am.len(),
                na@.len() == bm.len(),
                table.models(am, bm),
                (Links { oa: opt_seq_models(oa@), na: opt_seq_models(na@) }) == greedy_prefix(
                    am,
                    bm,
                    links0,
                    i as int,
                ),
            decreases lines_a@.len() - i,
        {
            let ghost cur = greedy_prefix(am, bm, links0, i as int);
            let ghost key = am[i as int].key;
            proof {
                assert(lines_a@[i as int]@ == am[i as int]);
                assert(greedy_prefix(am, bm, links0, i + 1) == greedy_step(am, bm, cur, i as int));
            }
            if oa[i].is_none() {
                let line_a = &lines_a[i];
                if let Some(counts) = table.get(line_a) {
                    if counts.0 != 0 && counts.1 != 0 {
                        proof {
                            lemma_count_key_pos(bm, key);
                        }
                        let ghost oa1 = oa@;
                        let ghost na1 = na@;
                        let mut j: usize = 0;
                        let mut matched = false;
                        while j < lines_b.len() && !matched
                            invariant
                                0 <= j <= lines_b@.len(),
                                am == comparable_models(lines_a@),
                                bm == comparable_models(lines_b@),
                                bm.len() == lines_b@.len(),
                                am.len() == lines_a@.len(),
                                i < am.len(),
                                key == am[i as int].key,
                                lines_a@[i as int]@ == am[i as int],
                                oa@.len() == am.len(),
                                na@.len() == bm.len(),
                                cur == (Links { oa: opt_seq_models(oa1), na: opt_seq_models(na1) }),
                                !matched ==> oa@ == oa1 && na@ == na1 && first_free_match(
                                    bm,
                                    cur.na,
                                    key,
                                    0,
                                ) == first_free_match(bm, cur.na, key, j as int),
                                matched ==> j >= 1 && first_free_match(bm, cur.na, key, 0) == j - 1
                                    && j - 1 < bm.len() && oa@ == oa1.update(
                                    i as int,
                                    Some((j - 1) as usize),
                                ) && na@ == na1.update(j - 1, Some(i as usize)),
                            decreases lines_b@.len() - j,
                        {
                            if na[j].is_none() && lines_a[i] == lines_b[j] {
                                proof {
                                    assert(lines_b@[j as int]@ == bm[j as int]);
                                    assert(cur.na[j as int] is None);
                                    assert(bm[j as int].key == key);
                                    assert(first_free_match(bm, cur.na, key, j as int) == j as int);
                                }
                                oa[i] = Some(j);
                                na[j] = Some(i);
                                matched = true;
                            } else {
                                proof {
                                    assert(lines_b@[j as int]@ == bm[j as int]);
                                    assert(!(cur.na[j as int] is None && bm[j as int].key == key));
                                    assert(first_free_match(bm, cur.na, key, j as int)
                                        == first_free_match(bm, cur.na, key, j + 1));
                                }
                            }
                            j = j + 1;
                        }
                        proof {
                            let step = greedy_step(am, bm, cur, i as int);
                            assert(cur.oa[i as int] is None);
                            assert(count_key(bm, key) >= 1);
                            let f = first_free_match(bm, cur.na, key, 0);
                            lemma_first_free_match(bm, cur.na, key, 0);
                            if matched {
                                assert(f == j - 1 && f < bm.len());
                                assert(opt_seq_models(oa@) =~= cur.oa.update(
                                    i as int,
                                    Some((j - 1) as int),
                                ));
                                assert(opt_seq_models(na@) =~= cur.na.update(
                                    j - 1,
                                    Some(i as int),
                                ));
                                assert((Links { oa: opt_seq_models(oa@), na: opt_seq_models(na@) })
                                    == step);
                            } else {
                                assert(j == lines_b@.len());
                                assert(f == first_free_match(bm, cur.na, key, j as int));
                                assert(f == bm.len());
                                assert((Links { oa: opt_seq_models(oa@), na: opt_seq_models(na@) })
                                    == step);
                            }
                        }
                    } else {
                        proof {
                            if counts.0 == 0 {
                                lemma_count_key_pos(am, key);
                                assert(false);
                            }
                            assert(count_key(bm, key) == 0);
                            assert(greedy_step(am, bm, cur, i as int) == cur);
                        }
                    }
                } else {
                    proof {
                        lemma_count_key_pos(am, key);
                        assert(false);
                    }
                }
            } else {
                proof {
                    assert(cur.oa[i as int] is Some);
                    assert(greedy_step(am, bm, cur, i as int) == cur);
                }
            }
            i = i + 1;
        }
    }
}

/// Spec-level view of a sequence of machine integers.
pub open spec fn usize_seq_models(s: Seq<usize>) -> Seq<int> {
    s.map(|i: int, v: usize| v as int)
}

/// Pairs every raw line with its derived comparison key. The key deriver
/// promises one key per line, so the two sequences run in step.
pub fn build_comparable_lines(original: &[String], stripped: &[String]) -> (r: Vec<ComparableLine>)
    requires
        original@.len() == stripped@.len(),
    ensures
        r@.len() == original@.len(),
        forall|i: int|
            0 <= i < r@.len() ==> (#[trigger] r@[i])@.original == original@[i]@ && r@[i]@.key
                == stripped@[i]@,
{
    let mut out: Vec<ComparableLine> = Vec::new();
    let mut i: usize = 0;
    while i < original.len()
        invariant
            0 <= i <= original@.len(),
            original@.len() == stripped@.len(),
            out@.len() == i,
            forall|q: int|
                0 <= q < i ==> (#[trigger] out@[q])@.original == original@[q]@ && out@[q]@.key
                    == stripped@[q]@,
        decreases original@.len() - i,
    {
        out.push(ComparableLine::new(original[i].clone(), stripped[i].clone()));
        i = i + 1;
    }
    out
}

impl HeckelDiffEngine {
    /// The positions, in input order, of one longest strictly increasing
    /// subsequence of `sequence`, found by patience sorting: each element
    /// replaces the first recorded tail at least as large as itself, and the
    /// subsequence is reconstructed through predecessor links.
    pub fn longest_increasing_subsequence_indices(sequence: &[usize]) -> (r: Vec<usize>)
        ensures
            usize_seq_models(r@) == lis_positions(usize_seq_models(sequence@)),
            forall|t: int| 0 <= t < r@.len() ==> (r@[t] as int) < sequence@.len(),
    {
        let ghost sm = usize_seq_models(sequence@);
        if sequence.is_empty() {
            let r: Vec<usize> = Vec::new();
            proof {
                assert(usize_seq_models(r@) =~= lis_positions(sm));
            }
            return r;
        }
        let n = sequence.len();
        let mut tail_indices: Vec<usize> = vec![0usize; n];
        let mut predecessors: Vec<Option<usize>> = vec![None; n];
        let mut length: usize = 0;
        proof {
            assert(usize_seq_models(tail_indices@) =~= lis_fold(sm, 0).tails);
            assert(opt_seq_models(predecessors@) =~= lis_fold(sm, 0).preds);
        }
        let mut i: usize = 0;
        while i < n
            invariant
                sm == usize_seq_models(sequence@),
                sm.len() == sequence@.len(),
                n == sequence@.len(),
                n >= 1,
                0 <= i <= n,
                tail_indices@.len() == n,
                predecessors@.len() == n,
                (LisState {
                    tails: usize_seq_models(tail_indices@),
                    preds: opt_seq_models(predecessors@),
                    length: length as int,
                }) == lis_fold(sm, i as int),
                lis_wf(sm, lis_fold(sm, i as int), i as int),
            decreases n - i,
        {
            let ghost st = lis_fold(sm, i as int);
            let value = sequence[i];
            proof {
                assert(value as int == sm[i as int]);
            }
            let mut left: usize = 0;
            let mut right: usize = length;
            while left < right
                invariant
                    sm == usize_seq_models(sequence@),
                    sm.len() == sequence@.len(),
                    n == sequence@.len(),
                    0 <= i < n,
                    tail_indices@.len() == n,
                    st == lis_fold(sm, i as int),
                    st.tails == usize_seq_models(tail_indices@),
                    st.length == length as int,
                    lis_wf(sm, st, i as int),
                    value as int == sm[i as int],
                    0 <= left <= right <= length,
                    forall|q: int| 0 <= q < left ==> sm[#[trigger] st.tails[q]] < value as int,
                    forall|q: int|
                        right <= q < length ==> sm[#[trigger] st.tails[q]] >= value as int,
                decreases right - left,
            {
                let mid = left + (right - left) / 2;
                proof {
                    assert(st.tails[mid as int] == tail_indices@[mid as int] as int);
                    assert(0 <= st.tails[mid as int] < n);
                }
                if sequence[tail_indices[mid]] < value {
                    proof {
                        assert forall|q: int| 0 <= q < mid + 1 implies sm[#[trigger] st.tails[q]]
                            < value as int by {
                            if q < mid {
                                assert(sm[st.tails[q]] < sm[st.tails[mid as int]]);
                            }
                        }
                    }
                    left = mid + 1;
                } else {
                    proof {
                        assert forall|q: int|
                            mid <= q < length implies sm[#[trigger] st.tails[q]]
                            >= value as int by {
                            if q > mid {
                                assert(sm[st.tails[mid as int]] < sm[st.tails[q]]);
                            }
                        }
                    }
                    right = mid;
                }
            }
            proof {
                lemma_lis_lower_bound_bracket(
                    sm,
                    st.tails,
                    st.length,
                    value as int,
                    left as int,
                    0,
                );
            }
            let ghost p = left as int;
            if left > 0 {
                predecessors[i] = Some(tail_indices[left - 1]);
            }
            tail_indices[left] = i;
            if left + 1 > length {
                length = left + 1;
            }
            proof {
                let st2 = lis_step(sm, st, i as int);
                assert(usize_seq_models(tail_indices@) =~= st.tails.update(p, i as int));
                if p > 0 {
                    assert(opt_seq_models(predecessors@) =~= st.preds.update(
                        i as int,
                        Some(st.tails[p - 1]),
                    ));
                } else {
                    assert(opt_seq_models(predecessors@) =~= st.preds);
                }
                assert((LisState {
                    tails: usize_seq_models(tail_indices@),
                    preds: opt_seq_models(predecessors@),
                    length: length as int,
                }) == st2);
                lemma_lis_step_wf(sm, st, i as int);
                assert(lis_fold(sm, i + 1) == st2);
            }
            i = i + 1;
        }
        let ghost st = lis_fold(sm, n as int);
        if length == 0 {
            proof {
                assert(false);
            }
            return Vec::new();
        }
        let ghost pm = opt_seq_models(predecessors@);
        let mut stack: Vec<usize> = Vec::new();
        let mut k = tail_indices[length - 1];
        let ghost k0 = k as int;
        proof {
            assert(k0 == st.tails[st.length - 1]);
            assert(lis_positions(sm) == lis_backtrack(pm, k0));
        }
        let mut done = false;
        while !done
            invariant
                pm == opt_seq_models(predecessors@),
                predecessors@.len() == n,
                n == sequence@.len(),
                forall|x: int|
                    0 <= x < n && #[trigger] pm[x] is Some ==> 0 <= pm[x]->Some_0 < x,
                0 <= k < n,
                forall|q: int| 0 <= q < stack@.len() ==> (stack@[q] as int) < n,
                !done ==> lis_backtrack(pm, k0) == lis_backtrack(pm, k as int)
                    + usize_seq_models(stack@).reverse(),
                done ==> lis_backtrack(pm, k0) == usize_seq_models(stack@).reverse(),
            decreases (if done {
                0int
            } else {
                k as int + 2
            }),
        {
            let ghost stack0 = stack@;
            stack.push(k);
            proof {
                assert(usize_seq_models(stack@) =~= usize_seq_models(stack0).push(k as int));
                assert(usize_seq_models(stack@).reverse() =~= seq![k as int]
                    + usize_seq_models(stack0).reverse());
            }
            if let Some(prev) = predecessors[k] {
                proof {
                    assert(pm[k as int] == Some(prev as int));
                    assert(0 <= prev < k);
                    assert(lis_backtrack(pm, k as int) == lis_backtrack(pm, prev as int).push(
                        k as int,
                    ));
                    assert(lis_backtrack(pm, prev as int).push(k as int)
                        + usize_seq_models(stack0).reverse() =~= lis_backtrack(pm, prev as int)
                        + usize_seq_models(stack@).reverse());
                }
                k = prev;
            } else {
                proof {
                    assert(pm[k as int] is None);
                    assert(lis_backtrack(pm, k as int) =~= seq![k as int]);
                    assert(lis_backtrack(pm, k as int) + usize_seq_models(stack0).reverse()
                        =~= usize_seq_models(stack@).reverse());
                }
                done = true;
            }
        }
        let mut out: Vec<usize> = Vec::new();
        let mut t: usize = stack.len();
        while t > 0
            invariant
                0 <= t <= stack@.len(),
                out@.len() == stack@.len() - t,
                forall|q: int|
                    0 <= q < out@.len() ==> out@[q] == stack@[stack@.len() - 1 - q],
            decreases t,
        {
            t = t - 1;
            out.push(stack[t]);
        }
        proof {
            assert(usize_seq_models(out@) =~= usize_seq_models(stack@).reverse());
        }
        out
    }
}

/// Classification of one output line of a diff.
#[derive(Debug, Clone, Copy, PartialEq, Eq, Structural)]
pub enum DiffState {
    Added,
    Deleted,
    Unchanged,
    Moved,
}

/// Mathematical model of a [`LineContent`].
pub ghost struct LineContentModel {
    pub line_number: int,
    pub text: Seq<char>,
}

/// One side's rendering of a diff line: the 1-based position in that side's
/// input sequence, and the original display text.
#[derive(Debug, Clone)]
pub struct LineContent {
    line_number: usize,
    text: String,
}

impl View for LineContent {
    type V = LineContentModel;

    closed spec fn view(&self) -> LineContentModel {
        LineContentModel { line_number: self.line_number as int, text: self.text@ }
    }
}

impl LineContent {
    pub fn new(line_number: usize, text: String) -> (r: Self)
        ensures
            r@.line_number == line_number as int,
            r@.text == text@,
    {
        Self { line_number, text }
    }

    pub fn line_number(&self) -> (r: usize)
        ensures
            r as int == self@.line_number,
    {
        self.line_number
    }

    pub fn text(&self) -> (r: &str)
        ensures
            r@ == self@.text,
    {
        self.text.as_str()
    }
}

/// Mathematical model of a [`DiffLine`].
pub ghost struct DiffLineModel {
    pub state: DiffState,
    pub left: Option<LineContentModel>,
    pub right: Option<LineContentModel>,
    pub moved_from: Option<int>,
    pub moved_to: Option<int>,
}

/// Spec-level view of an optional line content.
pub open spec fn opt_content_model(o: Option<LineContent>) -> Option<LineContentModel> {
    match o {
        Some(c) => Some(c@),
        None => None,
    }
}

/// Spec-level view of an optional position.
pub open spec fn opt_pos_model(o: Option<usize>) -> Option<int> {
    match o {
        Some(p) => Some(p as int),
        None => None,
    }
}

/// One line of diff output. The state decides which sides are present:
/// an added line has only a right side, a deleted line only a left side,
/// and unchanged or moved lines both. The movement fields are populated
/// only for moved lines.
#[derive(Debug, Clone)]
pub struct DiffLine {
    state: DiffState,
    left: Option<LineContent>,
    right: Option<LineContent>,
    moved_from: Option<usize>,
    moved_to: Option<usize>,
}

impl View for DiffLine {
    type V = DiffLineModel;

    closed spec fn view(&self) -> DiffLineModel {
        DiffLineModel {
            state: self.state,
            left: opt_content_model(self.left),
            right: opt_content_model(self.right),
            moved_from: opt_pos_model(self.moved_from),
            moved_to: opt_pos_model(self.moved_to),
        }
    }
}

impl DiffLine {
    pub fn new(state: DiffState, left: Option<LineContent>, right: Option<LineContent>) -> (r:
        Self)
        ensures
            r@.state == state,
            r@.left == opt_content_model(left),
            r@.right == opt_content_model(right),
            r@.moved_from is None,
            r@.moved_to is None,
    {
        Self { state, left, right, moved_from: None, moved_to: None }
    }

    pub fn with_movement(self, moved_from: Option<usize>, moved_to: Option<usize>) -> (r: Self)
        ensures
            r@.state == self@.state,
            r@.left == self@.left,
            r@.right == self@.right,
            r@.moved_from == opt_pos_model(moved_from),
            r@.moved_to == opt_pos_model(moved_to),
    {
        Self { moved_from, moved_to, ..self }
    }

    pub fn state(&self) -> (r: DiffState)
        ensures
            r == self@.state,
    {
        self.state
    }

    pub fn left(&self) -> (r: Option<&LineContent>)
        ensures
            opt_ref_content_model(r) == self@.left,
    {
        self.left.as_ref()
    }

    pub fn right(&self) -> (r: Option<&LineContent>)
        ensures
            opt_ref_content_model(r) == self@.right,
    {
        self.right.as_ref()
    }

    pub fn moved_from(&self) -> (r: Option<usize>)
        ensures
            opt_pos_model(r) == self@.moved_from,
    {
        self.moved_from
    }

    pub fn moved_to(&self) -> (r: Option<usize>)
        ensures
            opt_pos_model(r) == self@.moved_to,
    {
        self.moved_to
    }
}

/// A diff algorithm: one named interface with one concrete implementation,
/// so that an alternative alignment strategy could be substituted without
/// touching callers.
pub trait DiffEngineOperations {
    /// Classifies every line of the two sequences as added, deleted,
    /// unchanged or moved.
    fn compute_diff(&self, lines_a: &[ComparableLine], lines_b: &[ComparableLine]) -> DiffResult;
}

impl DiffEngineOperations for HeckelDiffEngine {
    /// The complete pipeline, in fixed order: symbol table, unique anchors,
    /// greedy duplicate resolution, alignment, move classification. The
    /// result is a mathematical function of the two inputs alone.
    fn compute_diff(&self, lines_a: &[ComparableLine], lines_b: &[ComparableLine]) -> (r:
        DiffResult)
        ensures
            r@ == diff_spec(comparable_models(lines_a@), comparable_models(lines_b@)),
            r.statistics_wf(),
    {
        let ghost am = comparable_models(lines_a@);
        let ghost bm = comparable_models(lines_b@);
        let table = Self::build_symbol_table(lines_a, lines_b);
        let (mut oa, mut na) = Self::link_unique_anchors(lines_a, lines_b, &table);
        Self::link_non_unique_matches(lines_a, lines_b, &table, &mut oa, &mut na);
        proof {
            assert((Links { oa: opt_seq_models(oa@), na: opt_seq_models(na@) }) == linked(am, bm));
        }
        let pair = Self::build_diff_lines(lines_a, lines_b, oa.as_slice(), na.as_slice());
        let (lines, moved_blocks) = pair;
        DiffResult::with_moved_blocks(lines, moved_blocks)
    }
}

/// Spec-level view of a borrowed optional line content.
pub open spec fn opt_ref_content_model(o: Option<&LineContent>) -> Option<LineContentModel> {
    match o {
        Some(c) => Some(c@),
        None => None,
    }
}

/// Spec-level view of a sequence of diff lines.
pub open spec fn line_models(s: Seq<DiffLine>) -> Seq<DiffLineModel> {
    s.map(|i: int, l: DiffLine| l@)
}

/// Mathematical model of [`DiffStatistics`].
pub ghost struct StatisticsModel {
    pub additions: int,
    pub deletions: int,
    pub moves: int,
    pub unchanged: int,
}

/// Counts of each diff state over a sequence of line models, scanning from
/// the front.
pub open spec fn stats_of(lines: Seq<DiffLineModel>) -> StatisticsModel
    decreases lines.len(),
{
    if lines.len() == 0 {
        StatisticsModel { additions: 0, deletions: 0, moves: 0, unchanged: 0 }
    } else {
        let rest = stats_of(lines.drop_last());
        let last = lines.last();
        StatisticsModel {
            additions: rest.additions + if last.state is Added { 1int } else { 0 },
            deletions: rest.deletions + if last.state is Deleted { 1int } else { 0 },
            moves: rest.moves + if last.state is Moved { 1int } else { 0 },
            unchanged: rest.unchanged + if last.state is Unchanged { 1int } else { 0 },
        }
    }
}

/// The total number of lines counted is exactly the length of the sequence.
pub proof fn lemma_stats_of_total(lines: Seq<DiffLineModel>)
    ensures
        stats_of(lines).additions + stats_of(lines).deletions + stats_of(lines).moves + stats_of(
            lines,
        ).unchanged == lines.len(),
        stats_of(lines).additions >= 0,
        stats_of(lines).deletions >= 0,
        stats_of(lines).moves >= 0,
        stats_of(lines).unchanged >= 0,
    decreases lines.len(),
{
    if lines.len() > 0 {
        lemma_stats_of_total(lines.drop_last());
    }
}

/// Aggregate counts of additions, deletions, moves and unchanged lines,
/// derived by scanning a final line list.
#[derive(Debug, Clone)]
pub struct DiffStatistics {
    additions: usize,
    deletions: usize,
    moves: usize,
    unchanged: usize,
}

impl View for DiffStatistics {
    type V = StatisticsModel;

    closed spec fn view(&self) -> StatisticsModel {
        StatisticsModel {
            additions: self.additions as int,
            deletions: self.deletions as int,
            moves: self.moves as int,
            unchanged: self.unchanged as int,
        }
    }
}

impl Default for DiffStatistics {
    fn default() -> (r: Self)
        ensures
            r@ == (StatisticsModel { additions: 0int, deletions: 0int, moves: 0int, unchanged: 0int }),
    {
        Self { additions: 0, deletions: 0, moves: 0, unchanged: 0 }
    }
}

impl DiffStatistics {
    /// Every statistic this type ever holds comes from counting a line list,
    /// so the four counters always fit in a machine word together.
    pub open spec fn wf(&self) -> bool {
        self@.additions + self@.deletions + self@.moves + self@.unchanged <= usize::MAX
    }

    /// Derives the statistics from a final line list: each line contributes
    /// one to the counter of its state.
    pub fn from_lines(lines: &[DiffLine]) -> (r: Self)
        ensures
            r@ == stats_of(line_models(lines@)),
            r.wf(),
    {
        let ghost target = line_models(lines@);
        let mut additions: usize = 0;
        let mut deletions: usize = 0;
        let mut moves: usize = 0;
        let mut unchanged: usize = 0;
        let mut idx: usize = 0;
        while idx < lines.len()
            invariant
                0 <= idx <= lines.len(),
                target == line_models(lines@),
                target.len() == lines@.len(),
                stats_of(target.take(idx as int)) == (StatisticsModel {
                    additions: additions as int,
                    deletions: deletions as int,
                    moves: moves as int,
                    unchanged: unchanged as int,
                }),
                additions + deletions + moves + unchanged == idx,
            decreases lines.len() - idx,
        {
            proof {
                assert(target.take(idx + 1).drop_last() == target.take(idx as int));
                assert(target.take(idx + 1).last() == lines@[idx as int]@);
            }
            match lines[idx].state() {
                DiffState::Added => additions = additions + 1,
                DiffState::Deleted => deletions = deletions + 1,
                DiffState::Unchanged => unchanged = unchanged + 1,
                DiffState::Moved => moves = moves + 1,
            }
            idx = idx + 1;
        }
        proof {
            assert(target.take(lines@.len() as int) == target);
        }
        Self { additions, deletions, moves, unchanged }
    }

    /// The number of lines that differ between the two sides: everything but
    /// the unchanged lines.
    pub fn total_changes(&self) -> (r: usize)
        requires
            self.wf(),
        ensures
            r as int == self@.additions + self@.deletions + self@.moves,
    {
        self.additions + self.deletions + self.moves
    }

    pub fn additions(&self) -> (r: usize)
        ensures
            r as int == self@.additions,
    {
        self.additions
    }

    pub fn deletions(&self) -> (r: usize)
        ensures
            r as int == self@.deletions,
    {
        self.deletions
    }

    pub fn moves(&self) -> (r: usize)
        ensures
            r as int == self@.moves,
    {
        self.moves
    }

    pub fn unchanged(&self) -> (r: usize)
        ensures
            r as int == self@.unchanged,
    {
        self.unchanged
    }
}

/// Mathematical model of a [`MovedBlock`].
pub ghost struct MovedBlockModel {
    pub source_start: int,
    pub source_end: int,
    pub destination_start: int,
    pub destination_end: int,
}

/// One maximal contiguous run of moved lines, as 1-based inclusive line
/// ranges on the source and destination sides.
#[derive(Debug, Clone)]
pub struct MovedBlock {
    source_start: usize,
    source_end: usize,
    destination_start: usize,
    destination_end: usize,
}

impl View for MovedBlock {
    type V = MovedBlockModel;

    closed spec fn view(&self) -> MovedBlockModel {
        MovedBlockModel {
            source_start: self.source_start as int,
            source_end: self.source_end as int,
            destination_start: self.destination_start as int,
            destination_end: self.destination_end as int,
        }
    }
}

impl MovedBlock {
    pub fn new(
        source_start: usize,
        source_end: usize,
        destination_start: usize,
        destination_end: usize,
    ) -> (r: Self)
        ensures
            r@ == (MovedBlockModel {
                source_start: source_start as int,
                source_end: source_end as int,
                destination_start: destination_start as int,
                destination_end: destination_end as int,
            }),
    {
        Self { source_start, source_end, destination_start, destination_end }
    }

    pub fn source_start(&self) -> (r: usize)
        ensures
            r as int == self@.source_start,
    {
        self.source_start
    }

    pub fn source_end(&self) -> (r: usize)
        ensures
            r as int == self@.source_end,
    {
        self.source_end
    }

    pub fn destination_start(&self) -> (r: usize)
        ensures
            r as int == self@.destination_start,
    {
        self.destination_start
    }

    pub fn destination_end(&self) -> (r: usize)
        ensures
            r as int == self@.destination_end,
    {
        self.destination_end
    }
}

/// Spec-level view of a sequence of moved blocks.
pub open spec fn block_models(s: Seq<MovedBlock>) -> Seq<MovedBlockModel> {
    s.map(|i: int, b: MovedBlock| b@)
}

/// Mathematical model of a [`DiffResult`].
pub ghost struct DiffResultModel {
    pub lines: Seq<DiffLineModel>,
    pub statistics: StatisticsModel,
    pub moved_blocks: Seq<MovedBlockModel>,
}

/// The complete outcome of one diff invocation: the ordered output lines,
/// statistics derived from them, and the moved blocks discovered.
#[derive(Debug, Clone)]
pub struct DiffResult {
    lines: Vec<DiffLine>,
    statistics: DiffStatistics,
    moved_blocks: Vec<MovedBlock>,
}

impl View for DiffResult {
    type V = DiffResultModel;

    closed spec fn view(&self) -> DiffResultModel {
        DiffResultModel {
            lines: line_models(self.lines@),
            statistics: self.statistics@,
            moved_blocks: block_models(self.moved_blocks@),
        }
    }
}

impl DiffResult {
    /// Wraps a line list, deriving its statistics; no moved blocks.
    pub fn new(lines: Vec<DiffLine>) -> (r: Self)
        ensures
            r@.lines == line_models(lines@),
            r@.statistics == stats_of(line_models(lines@)),
            r@.moved_blocks == Seq::<MovedBlockModel>::empty(),
            r.statistics_wf(),
    {
        let statistics = DiffStatistics::from_lines(lines.as_slice());
        proof {
            assert(block_models(Seq::<MovedBlock>::empty()) =~= Seq::<MovedBlockModel>::empty());
        }
        Self { lines, statistics, moved_blocks: Vec::new() }
    }

    /// Wraps a line list together with the moved blocks discovered while
    /// classifying it, deriving the statistics from the lines.
    pub fn with_moved_blocks(lines: Vec<DiffLine>, moved_blocks: Vec<MovedBlock>) -> (r: Self)
        ensures
            r@.lines == line_models(lines@),
            r@.statistics == stats_of(line_models(lines@)),
            r@.moved_blocks == block_models(moved_blocks@),
            r.statistics_wf(),
    {
        let statistics = DiffStatistics::from_lines(lines.as_slice());
        Self { lines, statistics, moved_blocks }
    }

    /// The statistics a result carries are always derived from its lines.
    pub open spec fn statistics_wf(&self) -> bool {
        self@.statistics == stats_of(self@.lines) && self.statistics_ref().wf()
    }

    /// Spec-level access to the statistics value, for stating well-formedness.
    pub closed spec fn statistics_ref(&self) -> DiffStatistics {
        self.statistics
    }

    pub fn is_empty(&self) -> (r: bool)
        ensures
            r == (self@.lines.len() == 0),
    {
        self.lines.is_empty()
    }

    pub fn lines(&self) -> (r: &[DiffLine])
        ensures
            line_models(r@) == self@.lines,
    {
        self.lines.as_slice()
    }

    pub fn statistics(&self) -> (r: &DiffStatistics)
        ensures
            r@ == self@.statistics,
            r == self.statistics_ref(),
    {
        &self.statistics
    }

    pub fn moved_blocks(&self) -> (r: &[MovedBlock])
        ensures
            block_models(r@) == self@.moved_blocks,
    {
        self.moved_blocks.as_slice()
    }
}

/// Spec-level view of the recorded match triples: output line index, matched
/// position in A, matched position in B.
pub open spec fn match_models(s: Seq<(usize, usize, usize)>) -> Seq<MatchModel> {
    s.map(
        |t: int, m: (usize, usize, usize)|
            MatchModel { line_index: m.0 as int, old: m.1 as int, new: m.2 as int },
    )
}

/// Spec-level view of the moved block still being extended.
pub open spec fn opt_block_model(o: Option<(usize, usize, usize, usize)>) -> Option<
    MovedBlockModel,
> {
    match o {
        Some(b) => Some(
            MovedBlockModel {
                source_start: b.0 as int,
                source_end: b.1 as int,
                destination_start: b.2 as int,
                destination_end: b.3 as int,
            },
        ),
        None => None,
    }
}

/// The alignment builder's state as the executable code carries it.
spec fn build_now(
    lines: Seq<DiffLine>,
    matches: Seq<(usize, usize, usize)>,
    processed: Seq<bool>,
    i_ptr: int,
) -> BuildState {
    BuildState { lines: line_models(lines), matches: match_models(matches), processed, i_ptr }
}

impl HeckelDiffEngine {
    /// The alignment builder: walks sequence B in order, emitting an
    /// unchanged line for every position with a valid, unconsumed
    /// correspondence (flushing pending deletions from A first, in ascending
    /// order) and an added line for every position without one; positions of
    /// A never consumed are flushed as deletions at the end. The matched
    /// pairs are then handed to the move classifier.
    pub fn build_diff_lines(
        lines_a: &[ComparableLine],
        lines_b: &[ComparableLine],
        oa: &[Option<usize>],
        na: &[Option<usize>],
    ) -> (r: (Vec<DiffLine>, Vec<MovedBlock>))
        requires
            oa@.len() == lines_a@.len(),
            na@.len() == lines_b@.len(),
        ensures
            line_models(r.0@) == diff_lines_spec(
                comparable_models(lines_a@),
                comparable_models(lines_b@),
                opt_seq_models(oa@),
                opt_seq_models(na@),
            ).0,
            block_models(r.1@) == diff_lines_spec(
                comparable_models(lines_a@),
                comparable_models(lines_b@),
                opt_seq_models(oa@),
                opt_seq_models(na@),
            ).1,
    {
        let ghost am = comparable_models(lines_a@);
        let ghost bm = comparable_models(lines_b@);
        let ghost oam = opt_seq_models(oa@);
        let ghost nam = opt_seq_models(na@);
        let mut result_lines: Vec<DiffLine> = Vec::new();
        let mut matched_info: Vec<(usize, usize, usize)> = Vec::new();
        let mut processed_old: Vec<bool> = vec![false; lines_a.len()];
        let mut i_ptr: usize = 0;
        proof {
            assert(processed_old@ =~= initial_build_state(am).processed);
            assert(line_models(result_lines@) =~= initial_build_state(am).lines);
            assert(match_models(matched_info@) =~= initial_build_state(am).matches);
        }
        let mut j: usize = 0;
        while j < lines_b.len()
            invariant
                0 <= j <= lines_b@.len(),
                am == comparable_models(lines_a@),
                bm == comparable_models(lines_b@),
                oam == opt_seq_models(oa@),
                nam == opt_seq_models(na@),
                am.len() == lines_a@.len(),
                bm.len() == lines_b@.len(),
                oa@.len() == am.len(),
                na@.len() == bm.len(),
                processed_old@.len() == am.len(),
                0 <= i_ptr <= am.len(),
                build_now(result_lines@, matched_info@, processed_old@, i_ptr as int)
                    == scan_prefix(am, bm, oam, nam, j as int),
                forall|t: int|
                    0 <= t < matched_info@.len() ==> (#[trigger] matched_info@[t]).0
                        < result_lines@.len() && (matched_info@[t]).1 < am.len() && (
                    matched_info@[t]).2 < bm.len(),
            decreases lines_b@.len() - j,
        {
            let ghost st = scan_prefix(am, bm, oam, nam, j as int);
            let mut i_match_opt: Option<usize> = None;
            if let Some(i_cand) = na[j] {
                if i_cand < lines_a.len() {
                    if let Some(jj) = oa[i_cand] {
                        if jj == j && !processed_old[i_cand] {
                            i_match_opt = Some(i_cand);
                        }
                    }
                }
            }
            proof {
                match i_match_opt {
                    Some(im) => {
                        assert(has_match_at(oam, nam, processed_old@, j as int));
                        assert(nam[j as int] == Some(im as int));
                    },
                    None => {
                        assert(!has_match_at(oam, nam, processed_old@, j as int));
                    },
                }
            }
            if let Some(i_match) = i_match_opt {
                let ghost st_entry = st;
                let mut blocked = false;
                while i_ptr < i_match && !blocked
                    invariant
                        am == comparable_models(lines_a@),
                        am.len() == lines_a@.len(),
                        oam == opt_seq_models(oa@),
                        oa@.len() == am.len(),
                        processed_old@.len() == am.len(),
                        0 <= i_ptr <= am.len(),
                        i_match < am.len(),
                        flush_state(
                            am,
                            oam,
                            build_now(
                                result_lines@,
                                matched_info@,
                                processed_old@,
                                i_ptr as int,
                            ),
                            i_match as int,
                            j as int,
                        ) == flush_state(am, oam, st_entry, i_match as int, j as int),
                        blocked ==> i_ptr < i_match && !processed_old@[i_ptr as int] && oa@[
                            i_ptr as int
                        ] is Some && (oa@[i_ptr as int]->Some_0) >= j,
                        forall|t: int|
                            0 <= t < matched_info@.len() ==> (#[trigger] matched_info@[t]).0
                                < result_lines@.len() && (matched_info@[t]).1 < am.len() && (
                            matched_info@[t]).2 < bm.len(),
                        bm == comparable_models(lines_b@),
                        bm.len() == lines_b@.len(),
                        j < bm.len(),
                    decreases (if blocked {
                        0int
                    } else {
                        i_match - i_ptr + 1
                    }),
                {
                    let ghost cur = build_now(
                        result_lines@,
                        matched_info@,
                        processed_old@,
                        i_ptr as int,
                    );
                    if processed_old[i_ptr] {
                        i_ptr = i_ptr + 1;
                        proof {
                            assert(build_now(
                                result_lines@,
                                matched_info@,
                                processed_old@,
                                i_ptr as int,
                            ) == (BuildState { i_ptr: cur.i_ptr + 1, ..cur }));
                        }
                    } else {
                        match oa[i_ptr] {
                            Some(mapped_j) => {
                                if mapped_j >= j {
                                    blocked = true;
                                } else {
                                    processed_old[i_ptr] = true;
                                    i_ptr = i_ptr + 1;
                                    proof {
                                        assert(build_now(
                                            result_lines@,
                                            matched_info@,
                                            processed_old@,
                                            i_ptr as int,
                                        ) == (BuildState {
                                            processed: cur.processed.update(cur.i_ptr, true),
                                            i_ptr: cur.i_ptr + 1,
                                            ..cur
                                        }));
                                    }
                                }
                            },
                            None => {
                                let deleted = DiffLine::new(
                                    DiffState::Deleted,
                                    Some(
                                        LineContent::new(
                                            i_ptr + 1,
                                            lines_a[i_ptr].original_text.clone(),
                                        ),
                                    ),
                                    None,
                                );
                                result_lines.push(deleted);
                                processed_old[i_ptr] = true;
                                i_ptr = i_ptr + 1;
                                proof {
                                    assert(lines_a@[cur.i_ptr]@ == am[cur.i_ptr]);
                                    assert(line_models(result_lines@) =~= cur.lines.push(
                                        deleted_line_model(am, cur.i_ptr),
                                    ));
                                    assert(match_models(matched_info@) == cur.matches);
                                    assert(build_now(
                                        result_lines@,
                                        matched_info@,
                                        processed_old@,
                                        i_ptr as int,
                                    ) == (BuildState {
                                        lines: cur.lines.push(deleted_line_model(am, cur.i_ptr)),
                                        processed: cur.processed.update(cur.i_ptr, true),
                                        i_ptr: cur.i_ptr + 1,
                                        ..cur
                                    }));
                                }
                            },
                        }
                    }
                }
                let ghost st1 = flush_state(am, oam, st_entry, i_match as int, j as int);
                proof {
                    let cur = build_now(
                        result_lines@,
                        matched_info@,
                        processed_old@,
                        i_ptr as int,
                    );
                    assert(flush_state(am, oam, cur, i_match as int, j as int) == cur);
                    assert(cur == st1);
                }
                let line_index = result_lines.len();
                result_lines.push(
                    DiffLine::new(
                        DiffState::Unchanged,
                        Some(LineContent::new(i_match + 1, lines_a[i_match].original_text.clone())),
                        Some(LineContent::new(j + 1, lines_b[j].original_text.clone())),
                    ),
                );
                matched_info.push((line_index, i_match, j));
                processed_old[i_match] = true;
                if i_ptr == i_match {
                    i_ptr = i_ptr + 1;
                }
                proof {
                    assert(lines_a@[i_match as int]@ == am[i_match as int]);
                    assert(lines_b@[j as int]@ == bm[j as int]);
                    assert(line_models(result_lines@) =~= st1.lines.push(
                        unchanged_line_model(am, bm, i_match as int, j as int),
                    ));
                    assert(match_models(matched_info@) =~= st1.matches.push(
                        MatchModel {
                            line_index: st1.lines.len() as int,
                            old: i_match as int,
                            new: j as int,
                        },
                    ));
                    assert(processed_old@ == st1.processed.update(i_match as int, true));
                }
                let ghost ip2 = i_ptr as int;
                let ghost p2 = processed_old@;
                while i_ptr < lines_a.len() && processed_old[i_ptr]
                    invariant
                        processed_old@ == p2,
                        p2.len() == am.len(),
                        am.len() == lines_a@.len(),
                        0 <= i_ptr <= am.len(),
                        skip_processed(p2, ip2) == skip_processed(p2, i_ptr as int),
                    decreases am.len() - i_ptr,
                {
                    i_ptr = i_ptr + 1;
                }
                proof {
                    assert(skip_processed(p2, i_ptr as int) == i_ptr as int);
                    assert(scan_prefix(am, bm, oam, nam, j + 1) == scan_step(
                        am,
                        bm,
                        oam,
                        nam,
                        st,
                        j as int,
                    ));
                    assert(build_now(result_lines@, matched_info@, processed_old@, i_ptr as int)
                        == scan_step(am, bm, oam, nam, st, j as int));
                }
            } else {
                result_lines.push(
                    DiffLine::new(
                        DiffState::Added,
                        None,
                        Some(LineContent::new(j + 1, lines_b[j].original_text.clone())),
                    ),
                );
                proof {
                    assert(lines_b@[j as int]@ == bm[j as int]);
                    assert(line_models(result_lines@) =~= st.lines.push(
                        added_line_model(bm, j as int),
                    ));
                    assert(scan_prefix(am, bm, oam, nam, j + 1) == scan_step(
                        am,
                        bm,
                        oam,
                        nam,
                        st,
                        j as int,
                    ));
                    assert(build_now(result_lines@, matched_info@, processed_old@, i_ptr as int)
                        == scan_step(am, bm, oam, nam, st, j as int));
                }
            }
            j = j + 1;
        }
        let ghost st_scan = scan_prefix(am, bm, oam, nam, bm.len() as int);
        while i_ptr < lines_a.len()
            invariant
                am == comparable_models(lines_a@),
                am.len() == lines_a@.len(),
                bm.len() == lines_b@.len(),
                processed_old@.len() == am.len(),
                0 <= i_ptr <= am.len(),
                final_flush(
                    am,
                    build_now(result_lines@, matched_info@, processed_old@, i_ptr as int),
                ) == final_flush(am, st_scan),
                forall|t: int|
                    0 <= t < matched_info@.len() ==> (#[trigger] matched_info@[t]).0
                        < result_lines@.len() && (matched_info@[t]).1 < am.len() && (
                    matched_info@[t]).2 < bm.len(),
            decreases am.len() - i_ptr,
        {
            let ghost cur = build_now(result_lines@, matched_info@, processed_old@, i_ptr as int);
            if processed_old[i_ptr] {
                i_ptr = i_ptr + 1;
                proof {
                    assert(build_now(result_lines@, matched_info@, processed_old@, i_ptr as int)
                        == (BuildState { i_ptr: cur.i_ptr + 1, ..cur }));
                }
            } else {
                result_lines.push(
                    DiffLine::new(
                        DiffState::Deleted,
                        Some(LineContent::new(i_ptr + 1, lines_a[i_ptr].original_text.clone())),
                        None,
                    ),
                );
                processed_old[i_ptr] = true;
                i_ptr = i_ptr + 1;
                proof {
                    assert(lines_a@[cur.i_ptr]@ == am[cur.i_ptr]);
                    assert(line_models(result_lines@) =~= cur.lines.push(
                        deleted_line_model(am, cur.i_ptr),
                    ));
                    assert(match_models(matched_info@) == cur.matches);
                    assert(build_now(result_lines@, matched_info@, processed_old@, i_ptr as int)
                        == (BuildState {
                        lines: cur.lines.push(deleted_line_model(am, cur.i_ptr)),
                        processed: cur.processed.update(cur.i_ptr, true),
                        i_ptr: cur.i_ptr + 1,
                        ..cur
                    }));
                }
            }
        }
        proof {
            let cur = build_now(result_lines@, matched_info@, processed_old@, i_ptr as int);
            assert(final_flush(am, cur) == cur);
            assert(cur == built_state(am, bm, oam, nam));
        }
        let moved_blocks = Self::classify_matched_lines(&mut result_lines, &matched_info);
        (result_lines, moved_blocks)
    }
}

impl HeckelDiffEngine {
    /// The move classifier: the matches on the longest increasing
    /// subsequence of old indices stay unchanged; every other match becomes
    /// a moved line, and contiguous runs of moved matches are grouped into
    /// blocks.
    pub fn classify_matched_lines(
        lines: &mut Vec<DiffLine>,
        matched_info: &[(usize, usize, usize)],
    ) -> (r: Vec<MovedBlock>)
        requires
            forall|t: int|
                0 <= t < matched_info@.len() ==> (#[trigger] matched_info@[t]).0 < old(
                    lines,
                )@.len(),
            forall|t: int|
                0 <= t < matched_info@.len() ==> (#[trigger] matched_info@[t]).1 < usize::MAX && (
                matched_info@[t]).2 < usize::MAX,
        ensures
            line_models(final(lines)@) == classify_result(
                line_models(old(lines)@),
                match_models(matched_info@),
            ).0,
            block_models(r@) == classify_result(
                line_models(old(lines)@),
                match_models(matched_info@),
            ).1,
            final(lines)@.len() == old(lines)@.len(),
    {
        let ghost lines0 = line_models(old(lines)@);
        let ghost mm = match_models(matched_info@);
        if matched_info.is_empty() {
            let r: Vec<MovedBlock> = Vec::new();
            proof {
                assert(block_models(r@) =~= Seq::<MovedBlockModel>::empty());
            }
            return r;
        }
        let m_len = matched_info.len();
        let mut sequence: Vec<usize> = Vec::new();
        let mut t: usize = 0;
        while t < m_len
            invariant
                0 <= t <= m_len,
                m_len == matched_info@.len(),
                mm == match_models(matched_info@),
                mm.len() == m_len,
                usize_seq_models(sequence@) =~= olds_of(mm).take(t as int),
                sequence@.len() == t,
            decreases m_len - t,
        {
            sequence.push(matched_info[t].1);
            proof {
                assert(usize_seq_models(sequence@) =~= olds_of(mm).take(t + 1));
            }
            t = t + 1;
        }
        proof {
            assert(olds_of(mm).take(m_len as int) == olds_of(mm));
        }
        let lis_v = Self::longest_increasing_subsequence_indices(sequence.as_slice());
        let ghost positions = lis_positions(olds_of(mm));
        let mut is_in_lis: Vec<bool> = vec![false; m_len];
        proof {
            assert(is_in_lis@ =~= lis_flags(m_len as int, positions, 0));
        }
        let mut t: usize = 0;
        while t < lis_v.len()
            invariant
                0 <= t <= lis_v@.len(),
                m_len == matched_info@.len(),
                usize_seq_models(lis_v@) == positions,
                positions.len() == lis_v@.len(),
                is_in_lis@.len() == m_len,
                is_in_lis@ == lis_flags(m_len as int, positions, t as int),
            decreases lis_v@.len() - t,
        {
            let idx = lis_v[t];
            if idx < m_len {
                is_in_lis[idx] = true;
            }
            proof {
                assert(positions[t as int] == idx as int);
            }
            t = t + 1;
        }
        proof {
            assert(positions.len() as int == positions.len());
        }
        let mut moved_blocks: Vec<MovedBlock> = Vec::new();
        let mut current_block: Option<(usize, usize, usize, usize)> = None;
        let ghost flags = lis_flags(m_len as int, positions, positions.len() as int);
        proof {
            assert(block_models(moved_blocks@) =~= Seq::<MovedBlockModel>::empty());
        }
        let mut t: usize = 0;
        while t < m_len
            invariant
                0 <= t <= m_len,
                m_len == matched_info@.len(),
                mm == match_models(matched_info@),
                mm.len() == m_len,
                flags.len() == m_len,
                lines@.len() == lines0.len(),
                forall|q: int|
                    0 <= q < matched_info@.len() ==> (#[trigger] matched_info@[q]).0
                        < lines@.len(),
                forall|q: int|
                    0 <= q < matched_info@.len() ==> (#[trigger] matched_info@[q]).1 < usize::MAX
                        && (matched_info@[q]).2 < usize::MAX,
                is_in_lis@ == flags,
                (ClassifyState {
                    lines: line_models(lines@),
                    blocks: block_models(moved_blocks@),
                    cur: opt_block_model(current_block),
                }) == classify_fold(mm, flags, lines0, t as int),
            decreases m_len - t,
        {
            let ghost cst = classify_fold(mm, flags, lines0, t as int);
            let trip = matched_info[t];
            let line_idx = trip.0;
            let old_idx = trip.1;
            let new_idx = trip.2;
            proof {
                assert(mm[t as int] == (MatchModel {
                    line_index: line_idx as int,
                    old: old_idx as int,
                    new: new_idx as int,
                }));
                assert(cst.lines.len() == lines0.len());
            }
            if is_in_lis[t] {
                lines[line_idx].state = DiffState::Unchanged;
                lines[line_idx].moved_from = None;
                lines[line_idx].moved_to = None;
                match current_block {
                    Some(blk) => {
                        moved_blocks.push(MovedBlock::new(blk.0, blk.1, blk.2, blk.3));
                        current_block = None;
                    },
                    None => {},
                }
            } else {
                lines[line_idx].state = DiffState::Moved;
                lines[line_idx].moved_from = Some(old_idx + 1);
                lines[line_idx].moved_to = Some(new_idx + 1);
                current_block = match current_block {
                    Some(blk) => Some((blk.0, old_idx + 1, blk.2, new_idx + 1)),
                    None => Some((old_idx + 1, old_idx + 1, new_idx + 1, new_idx + 1)),
                };
            }
            proof {
                let cst2 = classify_step(mm, flags, cst, t as int);
                assert(line_models(lines@) =~= cst2.lines);
                assert(block_models(moved_blocks@) =~= cst2.blocks);
                assert(opt_block_model(current_block) == cst2.cur);
                assert(classify_fold(mm, flags, lines0, t + 1) == cst2);
            }
            t = t + 1;
        }
        let ghost cst = classify_fold(mm, flags, lines0, m_len as int);
        match current_block {
            Some(blk) => {
                moved_blocks.push(MovedBlock::new(blk.0, blk.1, blk.2, blk.3));
                proof {
                    assert(block_models(moved_blocks@) =~= cst.blocks.push(
                        opt_block_model(Some(blk))->Some_0,
                    ));
                }
            },
            None => {},
        }
        moved_blocks
    }
}

} // verus!
