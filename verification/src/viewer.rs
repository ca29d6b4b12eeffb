//! Rendering a diff line list as the two panes of text shown side by side.

use vstd::prelude::*;
use vstd::string::StringExecFns;

use crate::diff_engine::{
    line_models, opt_ref_content_model, DiffLine, DiffLineModel, DiffState, LineContent,
    LineContentModel,
};

verus! {

/// The one-character marker that starts a rendered line of the given state.
pub open spec fn state_prefix(state: DiffState) -> Seq<char> {
    match state {
        DiffState::Added => seq!['+'],
        DiffState::Deleted => seq!['-'],
        DiffState::Moved => seq!['\u{2194}'],
        DiffState::Unchanged => seq![' '],
    }
}

/// One side of one rendered diff line: the state marker, a space, and the
/// side's text (empty when the side is absent).
pub open spec fn side_text_model(state: DiffState, content: Option<LineContentModel>) -> Seq<
    char,
> {
    state_prefix(state) + seq![' '] + (match content {
        Some(c) => c.text,
        None => Seq::<char>::empty(),
    })
}

/// One whole pane: the rendered sides joined by a carriage-return line feed.
pub open spec fn pane_model(lines: Seq<DiffLineModel>, right_side: bool) -> Seq<char>
    decreases lines.len(),
{
    if lines.len() == 0 {
        Seq::empty()
    } else {
        let last = lines.last();
        let rendered = side_text_model(
            last.state,
            if right_side {
                last.right
            } else {
                last.left
            },
        );
        if lines.len() == 1 {
            rendered
        } else {
            pane_model(lines.drop_last(), right_side) + seq!['\r', '\n'] + rendered
        }
    }
}

/// Renders one side of one diff line: the state marker, a space, and the
/// side's display text.
pub fn format_line_for_side(state: DiffState, content: Option<&LineContent>) -> (r: String)
    ensures
        r@ == side_text_model(state, opt_ref_content_model(content)),
{
    let mut out = String::new();
    let prefix: &str = match state {
        DiffState::Added => "+",
        DiffState::Deleted => "-",
        DiffState::Moved => "\u{2194}",
        DiffState::Unchanged => " ",
    };
    proof {
        reveal_strlit("+");
        reveal_strlit("-");
        reveal_strlit("\u{2194}");
        reveal_strlit(" ");
        assert(prefix@ == state_prefix(state));
    }
    out.append(prefix);
    out.append(" ");
    match content {
        Some(line) => {
            out.append(line.text());
        },
        None => {},
    }
    proof {
        assert(out@ =~= side_text_model(state, opt_ref_content_model(content)));
    }
    out
}

/// Renders the whole line list as the two panes of viewer text, each line
/// prefixed with its state marker and the panes' rows separated by
/// carriage-return line feeds.
pub fn build_viewer_text(lines: &[DiffLine]) -> (r: (String, String))
    ensures
        r.0@ == pane_model(line_models(lines@), false),
        r.1@ == pane_model(line_models(lines@), true),
{
    let ghost lm = line_models(lines@);
    let mut left_text = String::new();
    let mut right_text = String::new();
    let mut idx: usize = 0;
    while idx < lines.len()
        invariant
            0 <= idx <= lines@.len(),
            lm == line_models(lines@),
            lm.len() == lines@.len(),
            left_text@ == pane_model(lm.take(idx as int), false),
            right_text@ == pane_model(lm.take(idx as int), true),
        decreases lines@.len() - idx,
    {
        if idx > 0 {
            proof {
                reveal_strlit("\r\n");
            }
            left_text.append("\r\n");
            right_text.append("\r\n");
        }
        let line = &lines[idx];
        let state = line.state();
        let left = format_line_for_side(state, line.left());
        let right = format_line_for_side(state, line.right());
        left_text.append(left.as_str());
        right_text.append(right.as_str());
        proof {
            assert(lm.take(idx + 1).drop_last() =~= lm.take(idx as int));
            assert(lm.take(idx + 1).last() == lines@[idx as int]@);
            assert(left_text@ =~= pane_model(lm.take(idx + 1), false));
            assert(right_text@ =~= pane_model(lm.take(idx + 1), true));
        }
        idx = idx + 1;
    }
    proof {
        assert(lm.take(lm.len() as int) == lm);
    }
    (left_text, right_text)
}

} // verus!
