//! The user settings that persist between sessions: the two file paths, the
//! timestamp pattern, and a short most-recently-used list of past patterns.

use vstd::prelude::*;

use std::collections::VecDeque;

verus! {

/// The most-recently-used pattern list keeps at most this many entries.
pub const MAX_TIMESTAMP_HISTORY: usize = 5;

/// Mathematical model of [`AppSettings`].
pub ghost struct AppSettingsModel {
    pub left_file_path: Option<Seq<char>>,
    pub right_file_path: Option<Seq<char>>,
    pub timestamp_pattern: Seq<char>,
    pub timestamp_history: Seq<Seq<char>>,
}

/// Spec-level view of an optional path.
pub open spec fn opt_path_model(o: Option<String>) -> Option<Seq<char>> {
    match o {
        Some(p) => Some(p@),
        None => None,
    }
}

/// Spec-level view of a pattern history.
pub open spec fn history_models(h: Seq<String>) -> Seq<Seq<char>> {
    h.map(|i: int, s: String| s@)
}

/// Snapshot of the fields persisted between sessions. Paths are carried as
/// plain strings; turning them into filesystem paths is the caller's
/// business.
#[derive(Debug, Clone)]
pub struct AppSettings {
    left_file_path: Option<String>,
    right_file_path: Option<String>,
    timestamp_pattern: String,
    timestamp_history: VecDeque<String>,
}

impl View for AppSettings {
    type V = AppSettingsModel;

    closed spec fn view(&self) -> AppSettingsModel {
        AppSettingsModel {
            left_file_path: opt_path_model(self.left_file_path),
            right_file_path: opt_path_model(self.right_file_path),
            timestamp_pattern: self.timestamp_pattern@,
            timestamp_history: history_models(self.timestamp_history@),
        }
    }
}

impl Default for AppSettings {
    fn default() -> (r: Self)
        ensures
            r@.left_file_path is None,
            r@.right_file_path is None,
            r@.timestamp_pattern.len() == 0,
            r@.timestamp_history.len() == 0,
    {
        Self {
            left_file_path: None,
            right_file_path: None,
            timestamp_pattern: String::new(),
            timestamp_history: VecDeque::new(),
        }
    }
}

impl AppSettings {
    pub fn new() -> (r: Self)
        ensures
            r@.left_file_path is None,
            r@.right_file_path is None,
            r@.timestamp_pattern.len() == 0,
            r@.timestamp_history.len() == 0,
    {
        Self::default()
    }

    pub fn with_values(
        left_file_path: Option<String>,
        right_file_path: Option<String>,
        timestamp_pattern: String,
        timestamp_history: VecDeque<String>,
    ) -> (r: Self)
        ensures
            r@.left_file_path == opt_path_model(left_file_path),
            r@.right_file_path == opt_path_model(right_file_path),
            r@.timestamp_pattern == timestamp_pattern@,
            r@.timestamp_history == history_models(timestamp_history@),
    {
        Self { left_file_path, right_file_path, timestamp_pattern, timestamp_history }
    }

    pub fn left_file_path(&self) -> (r: Option<&String>)
        ensures
            match r {
                Some(p) => self@.left_file_path == Some(p@),
                None => self@.left_file_path is None,
            },
    {
        self.left_file_path.as_ref()
    }

    pub fn right_file_path(&self) -> (r: Option<&String>)
        ensures
            match r {
                Some(p) => self@.right_file_path == Some(p@),
                None => self@.right_file_path is None,
            },
    {
        self.right_file_path.as_ref()
    }

    pub fn timestamp_pattern(&self) -> (r: &str)
        ensures
            r@ == self@.timestamp_pattern,
    {
        self.timestamp_pattern.as_str()
    }

    pub fn timestamp_history(&self) -> (r: &VecDeque<String>)
        ensures
            history_models(r@) == self@.timestamp_history,
    {
        &self.timestamp_history
    }
}

/// The first index of `h` holding `p`, or `h.len()` when `p` is absent.
pub open spec fn first_history_index(h: Seq<Seq<char>>, p: Seq<char>, i: int) -> int
    decreases h.len() - i,
{
    if i < 0 || i >= h.len() {
        h.len() as int
    } else if h[i] == p {
        i
    } else {
        first_history_index(h, p, i + 1)
    }
}

/// What recording one pattern does to the history: nothing for an empty
/// pattern; otherwise the pattern moves (or is inserted) at the front, its
/// old occurrence is dropped, and the list is cut back to the newest
/// [`MAX_TIMESTAMP_HISTORY`] entries.
pub open spec fn mru_update(h: Seq<Seq<char>>, p: Seq<char>) -> Seq<Seq<char>> {
    if p.len() == 0 {
        h
    } else {
        let f = first_history_index(h, p, 0);
        let without = if f < h.len() {
            h.remove(f)
        } else {
            h
        };
        let fronted = seq![p] + without;
        if fronted.len() <= MAX_TIMESTAMP_HISTORY {
            fronted
        } else {
            fronted.take(MAX_TIMESTAMP_HISTORY as int)
        }
    }
}

/// Records a just-validated pattern in the most-recently-used history.
pub fn record_timestamp_pattern_history(history: &mut VecDeque<String>, pattern: &String)
    ensures
        history_models(final(history)@) == mru_update(history_models(old(history)@), pattern@),
{
    let ghost h0 = history_models(old(history)@);
    if pattern.as_str().is_empty() {
        return ;
    }
    let mut pos: usize = 0;
    let mut found = false;
    while pos < history.len() && !found
        invariant
            h0 == history_models(history@),
            0 <= pos <= history@.len(),
            h0.len() == history@.len(),
            !found ==> first_history_index(h0, pattern@, 0) == first_history_index(
                h0,
                pattern@,
                pos as int,
            ),
            found ==> pos >= 1 && first_history_index(h0, pattern@, 0) == pos - 1,
        decreases history@.len() - pos + (if found {
            0int
        } else {
            1int
        }),
    {
        if history[pos] == *pattern {
            proof {
                assert(h0[pos as int] == pattern@);
            }
            found = true;
        } else {
            proof {
                assert(h0[pos as int] != pattern@);
            }
        }
        pos = pos + 1;
    }
    proof {
        lemma_first_history_index(h0, pattern@, 0);
    }
    if found {
        history.remove(pos - 1);
        proof {
            assert(history_models(history@) =~= h0.remove(first_history_index(h0, pattern@, 0)));
        }
    } else {
        proof {
            assert(first_history_index(h0, pattern@, pos as int) == h0.len());
        }
    }
    let ghost without = history_models(history@);
    history.push_front(pattern.clone());
    proof {
        assert(history_models(history@) =~= seq![pattern@] + without);
    }
    let ghost fronted = history_models(history@);
    proof {
        assert(history_models(history@) =~= fronted.take(history@.len() as int));
    }
    while history.len() > MAX_TIMESTAMP_HISTORY
        invariant
            history_models(history@) == fronted.take(history@.len() as int),
            history@.len() <= fronted.len(),
            history@.len() >= MAX_TIMESTAMP_HISTORY || history@.len() == fronted.len(),
        decreases history@.len(),
    {
        let ghost before = history_models(history@);
        history.pop_back();
        proof {
            assert(history_models(history@) =~= before.take(history@.len() as int));
            assert(before.take(history@.len() as int) =~= fronted.take(history@.len() as int));
        }
    }
    proof {
        if fronted.len() <= MAX_TIMESTAMP_HISTORY {
            assert(history@.len() == fronted.len());
            assert(history_models(history@) =~= fronted);
        } else {
            assert(history@.len() == MAX_TIMESTAMP_HISTORY);
        }
    }
}

/// What `first_history_index` returns: a position up to the length, a match
/// if real, and no match before it.
pub proof fn lemma_first_history_index(h: Seq<Seq<char>>, p: Seq<char>, i: int)
    requires
        0 <= i <= h.len(),
    ensures
        i <= first_history_index(h, p, i) <= h.len(),
        first_history_index(h, p, i) < h.len() ==> h[first_history_index(h, p, i)] == p,
        forall|q: int| i <= q < first_history_index(h, p, i) ==> h[q] != p,
    decreases h.len() - i,
{
    if i < h.len() && h[i] != p {
        lemma_first_history_index(h, p, i + 1);
    }
}

} // verus!
