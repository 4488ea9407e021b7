//! The choice of an editor.

use vstd::prelude::*;

use crate::text::{same, text_view, views};

verus! {

/// The editors that are looked for where the user names none, in order.
pub open spec fn fallbacks() -> Seq<Seq<char>> {
    seq!["nvim"@, "nano"@, "vim"@, "vi"@]
}

/// Lists the editors that are looked for where the user names none.
pub fn editor_fallbacks() -> (r: Vec<String>)
    ensures
        views(r@) == fallbacks(),
{
    let mut list: Vec<String> = Vec::new();
    list.push("nvim".to_owned());
    list.push("nano".to_owned());
    list.push("vim".to_owned());
    list.push("vi".to_owned());
    assert(views(list@) =~= fallbacks());
    list
}

/// What is said where there is no editor.
pub open spec fn no_editor_text() -> Seq<char> {
    "No suitable editor found. Please set the $EDITOR environment variable (e.g. export EDITOR=nvim)."@
}

/// The first fallback from `i` on that is among `available`.
pub open spec fn first_available(available: Seq<Seq<char>>, i: int) -> Option<Seq<char>>
    decreases fallbacks().len() - i,
{
    if i >= fallbacks().len() {
        None
    } else if available.contains(fallbacks()[i]) {
        Some(fallbacks()[i])
    } else {
        first_available(available, i + 1)
    }
}

/// The editor of the user: what `$EDITOR` names, else what `$VISUAL` names, else the first of the
/// fallbacks that is there.
pub open spec fn editor_of(
    editor: Option<Seq<char>>,
    visual: Option<Seq<char>>,
    available: Seq<Seq<char>>,
) -> Option<Seq<char>> {
    if editor is Some {
        editor
    } else if visual is Some {
        visual
    } else {
        first_available(available, 0)
    }
}

fn is_listed(list: &Vec<String>, name: &str) -> (r: bool)
    ensures
        r == views(list@).contains(name@),
{
    for i in 0..list.len()
        invariant
            forall|k: int| 0 <= k < i ==> #[trigger] views(list@)[k] != name@,
    {
        if same(list[i].as_str(), name) {
            assert(views(list@)[i as int] == name@);
            return true;
        }
        assert(views(list@)[i as int] != name@);
    }
    false
}

/// Chooses the editor of the user, by what `$EDITOR` and `$VISUAL` hold and by which editors are
/// there.
pub fn get_editor(
    editor: Option<String>,
    visual: Option<String>,
    available: &Vec<String>,
) -> (r: Result<String, String>)
    ensures
        match r {
            Ok(chosen) => editor_of(text_view(editor), text_view(visual), views(available@))
                == Some(chosen@),
            Err(text) => editor_of(text_view(editor), text_view(visual), views(available@)) is None
                && text@ == no_editor_text(),
        },
{
    if let Some(editor) = editor {
        return Ok(editor);
    }
    if let Some(visual) = visual {
        return Ok(visual);
    }
    let list = editor_fallbacks();
    for i in 0..list.len()
        invariant
            views(list@) == fallbacks(),
            editor is None,
            visual is None,
            first_available(views(available@), 0) == first_available(views(available@), i as int),
    {
        assert(views(list@)[i as int] == list@[i as int]@);
        if is_listed(available, list[i].as_str()) {
            return Ok(list[i].clone());
        }
    }
    Err(
        "No suitable editor found. Please set the $EDITOR environment variable (e.g. export EDITOR=nvim).".to_owned(),
    )
}

// ----------------------------------------------------------------------------
// Laws
// ----------------------------------------------------------------------------

/// The user decides: what `$EDITOR` names is taken, and what `$VISUAL` names where that is not
/// set. Where neither is, an editor that is there is taken, and `nvim` before `nano` before `vim`
/// before `vi`; there is none only where none of these is there.
pub proof fn law_user_decides_on_the_editor(
    editor: Option<String>,
    visual: Option<String>,
    available: Vec<String>,
    r: Result<String, String>,
)
    requires
        call_ensures(get_editor, (editor, visual, &available), r),
    ensures
        editor is Some ==> r is Ok && r->Ok_0@ == editor->Some_0@,
        editor is None && visual is Some ==> r is Ok && r->Ok_0@ == visual->Some_0@,
        editor is None && visual is None ==> {
            let there = views(available@);
            if there.contains("nvim"@) {
                r is Ok && r->Ok_0@ == "nvim"@
            } else if there.contains("nano"@) {
                r is Ok && r->Ok_0@ == "nano"@
            } else if there.contains("vim"@) {
                r is Ok && r->Ok_0@ == "vim"@
            } else if there.contains("vi"@) {
                r is Ok && r->Ok_0@ == "vi"@
            } else {
                r is Err
            }
        },
{
    reveal_with_fuel(first_available, 6);
}

} // verus!
