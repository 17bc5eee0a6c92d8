//! What the engine asks of the input-method framework that hosts it.
//!
//! The engine does not draw anything itself. Each of its steps returns the
//! list of things that the host is to do, in order.
use vstd::prelude::*;
use crate::text::byte_len;

verus! {

/// One thing that the host is to do.
#[derive(Debug, PartialEq, Eq)]
pub enum EngineAction {
    /// Hand `text` to the application as typed.
    CommitText { text: String },
    /// Hide the text that is being composed.
    HidePreeditText,
    /// Hide the window of candidates.
    HideLookupTable,
    /// Hide the line above the candidates.
    HideAuxiliaryText,
    /// Show `text` as the text that is being composed, underlined from its
    /// start up to byte `underline_to`, with the cursor after byte `cursor`,
    /// and with a background from byte `background.0` up to byte
    /// `background.1` if there is one.
    UpdatePreeditText {
        text: String,
        underline_to: usize,
        background: Option<(usize, usize)>,
        cursor: usize,
        visible: bool,
    },
    /// Show `text` in the line above the candidates.
    UpdateAuxiliaryText { text: String, visible: bool },
    /// Show the candidates, or hide them if there are none.
    UpdateLookupTable { visible: bool },
}

/// Whether `a` commits the text `committed`.
pub open spec fn commits(a: EngineAction, committed: Seq<char>) -> bool {
    match a {
        EngineAction::CommitText { text } => text@ == committed,
        _ => false,
    }
}

/// Whether `a` shows `shown` as the composed text, underlined as a whole,
/// with the cursor at its end, and visible unless it is empty.
pub open spec fn shows_preedit(a: EngineAction, shown: Seq<char>) -> bool {
    match a {
        EngineAction::UpdatePreeditText { text, underline_to, background, cursor, visible } => {
            &&& text@ == shown
            &&& underline_to == byte_len(shown)
            &&& cursor == byte_len(shown)
            &&& visible == (shown.len() > 0)
        },
        _ => false,
    }
}

/// The background that `a` gives the composed text, if any.
pub open spec fn background_of(a: EngineAction) -> Option<(usize, usize)> {
    match a {
        EngineAction::UpdatePreeditText { text, underline_to, background, cursor, visible } => background,
        _ => None,
    }
}

/// The byte at which the background of the composed text starts and the
/// byte at which it ends, or -1 and -1 where `a` gives it none.
pub open spec fn background_range(a: EngineAction) -> (int, int) {
    match background_of(a) {
        Some(range) => (range.0 as int, range.1 as int),
        None => (-1, -1),
    }
}

/// Whether `a` shows `shown` in the line above the candidates.
pub open spec fn shows_auxiliary(a: EngineAction, shown: Seq<char>, seen: bool) -> bool {
    match a {
        EngineAction::UpdateAuxiliaryText { text, visible } => text@ == shown && visible == seen,
        _ => false,
    }
}

/// Whether `a` shows or hides the window of candidates.
pub open spec fn shows_lookup_table(a: EngineAction, seen: bool) -> bool {
    match a {
        EngineAction::UpdateLookupTable { visible } => visible == seen,
        _ => false,
    }
}

/// The truth value as the framework's C interface writes it: 1 for true,
/// 0 for false.
pub fn to_gboolean(b: bool) -> (r: i32)
    ensures
        r == if b {
            1i32
        } else {
            0i32
        },
{
    if b {
        1
    } else {
        0
    }
}

} // verus!
