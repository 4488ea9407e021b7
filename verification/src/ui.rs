//! How statuses are shown.

use vstd::prelude::*;

use crate::engine::status::{status_of, SyncTopicStatus};
use crate::text::same;

verus! {

/// The colour of a text.
#[derive(Debug, Clone, Copy, PartialEq, Eq, Structural)]
pub enum Colour {
    Plain,
    Blue,
    Yellow,
    Green,
    Red,
}

/// How a text is shown.
#[derive(Debug, Clone, Copy, PartialEq, Eq, Structural)]
pub struct TextStyle {
    pub colour: Colour,
    pub bold: bool,
    pub dimmed: bool,
}

/// A style of one colour.
pub open spec fn coloured(colour: Colour, bold: bool) -> TextStyle {
    TextStyle { colour, bold, dimmed: false }
}

/// How the name of a status is shown; any other text is shown plainly.
pub open spec fn style_of(text: Seq<char>) -> TextStyle {
    if text == "unchanged"@ {
        TextStyle { colour: Colour::Plain, bold: false, dimmed: true }
    } else if text == "captured"@ {
        coloured(Colour::Blue, true)
    } else if text == "applied"@ {
        coloured(Colour::Yellow, true)
    } else if text == "captured and applied"@ {
        coloured(Colour::Green, true)
    } else if text == "would capture"@ {
        coloured(Colour::Blue, false)
    } else if text == "would apply"@ {
        coloured(Colour::Yellow, false)
    } else if text == "would capture and apply"@ {
        coloured(Colour::Green, false)
    } else if text == "conflict"@ {
        coloured(Colour::Red, true)
    } else {
        coloured(Colour::Plain, false)
    }
}

/// Color a sync status string for display.
pub fn color_status(text: &str) -> (r: TextStyle)
    ensures
        r == style_of(text@),
{
    if same(text, "unchanged") {
        TextStyle { colour: Colour::Plain, bold: false, dimmed: true }
    } else if same(text, "captured") {
        TextStyle { colour: Colour::Blue, bold: true, dimmed: false }
    } else if same(text, "applied") {
        TextStyle { colour: Colour::Yellow, bold: true, dimmed: false }
    } else if same(text, "captured and applied") {
        TextStyle { colour: Colour::Green, bold: true, dimmed: false }
    } else if same(text, "would capture") {
        TextStyle { colour: Colour::Blue, bold: false, dimmed: false }
    } else if same(text, "would apply") {
        TextStyle { colour: Colour::Yellow, bold: false, dimmed: false }
    } else if same(text, "would capture and apply") {
        TextStyle { colour: Colour::Green, bold: false, dimmed: false }
    } else if same(text, "conflict") {
        TextStyle { colour: Colour::Red, bold: true, dimmed: false }
    } else {
        TextStyle { colour: Colour::Plain, bold: false, dimmed: false }
    }
}

/// Different statuses are shown differently.
pub proof fn law_statuses_look_different(a: SyncTopicStatus, b: SyncTopicStatus)
    requires
        a != b,
    ensures
        style_of(a.label_text()) != style_of(b.label_text()),
{
    reveal_strlit("unchanged");
    reveal_strlit("captured");
    reveal_strlit("applied");
    reveal_strlit("captured and applied");
    reveal_strlit("would capture");
    reveal_strlit("would apply");
    reveal_strlit("would capture and apply");
    reveal_strlit("conflict");
    assert("unchanged"@.len() == 9 && "captured"@.len() == 8 && "applied"@.len() == 7
        && "captured and applied"@.len() == 20 && "would capture"@.len() == 13
        && "would apply"@.len() == 11 && "would capture and apply"@.len() == 23
        && "conflict"@.len() == 8);
    assert("captured"@[1] == 'a' && "conflict"@[1] == 'o');
}

/// What would be done looks like what is done, but not as bold, and text that is no status is
/// plain.
pub proof fn law_previews_look_like_what_they_preview(repo: bool, system: bool, text: Seq<char>)
    requires
        repo || system,
    ensures
        ({
            let run = style_of(status_of(false, repo, system).label_text());
            let preview = style_of(status_of(true, repo, system).label_text());
            run.colour == preview.colour && run.bold && !preview.bold && !run.dimmed
                && !preview.dimmed
        }),
        (forall|status: SyncTopicStatus| #[trigger] status.label_text() != text) ==> style_of(text)
            == (TextStyle { colour: Colour::Plain, bold: false, dimmed: false }),
{
    reveal_strlit("unchanged");
    reveal_strlit("captured");
    reveal_strlit("applied");
    reveal_strlit("captured and applied");
    reveal_strlit("would capture");
    reveal_strlit("would apply");
    reveal_strlit("would capture and apply");
    reveal_strlit("conflict");
    assert("unchanged"@.len() == 9 && "captured"@.len() == 8 && "applied"@.len() == 7
        && "captured and applied"@.len() == 20 && "would capture"@.len() == 13
        && "would apply"@.len() == 11 && "would capture and apply"@.len() == 23
        && "conflict"@.len() == 8);
    if forall|status: SyncTopicStatus| #[trigger] status.label_text() != text {
        assert(SyncTopicStatus::Unchanged.label_text() != text);
        assert(SyncTopicStatus::Captured.label_text() != text);
        assert(SyncTopicStatus::Applied.label_text() != text);
        assert(SyncTopicStatus::CapturedAndApplied.label_text() != text);
        assert(SyncTopicStatus::WouldCapture.label_text() != text);
        assert(SyncTopicStatus::WouldApply.label_text() != text);
        assert(SyncTopicStatus::WouldCaptureAndApply.label_text() != text);
        assert(SyncTopicStatus::Conflict.label_text() != text);
    }
}

} // verus!
