//! The beat editor: what each key does to the project and to the beat on screen.
use vstd::prelude::*;
use crate::models::{Project, ProjectView, StepView};
use crate::text::{decimal, owned, pop_char, push_char, push_decimal};

verus! {

/// A key press as the editor tells them apart.
#[derive(Debug, Clone, Copy, PartialEq, Eq)]
pub enum Key {
    Esc,
    /// Tab, with or without Shift held.
    Tab { shift: bool },
    /// A character key, with or without Control held.
    Char { c: char, ctrl: bool },
    Enter,
    Backspace,
    /// Any other key, which the editor ignores.
    Other,
}

/// What the editor asks its driver to do after a key.
#[derive(Debug, Clone, Copy, PartialEq, Eq)]
pub enum EditorAction {
    /// Go on editing.
    Continue,
    /// Save the project, then go on editing.
    Save,
    /// Save the project and leave the editor.
    SaveAndQuit,
    /// Save the project, offer the export menu, then go on editing.
    SaveAndExport,
}

/// What the editor asks for after `key`.
pub open spec fn action_of(key: Key) -> EditorAction {
    match key {
        Key::Esc => EditorAction::SaveAndQuit,
        Key::Tab { .. } => EditorAction::Save,
        Key::Char { c, ctrl } => if c == 'x' && ctrl {
            EditorAction::SaveAndExport
        } else {
            EditorAction::Continue
        },
        _ => EditorAction::Continue,
    }
}

/// The beat on screen after `key`, when `current` of `total` was.
pub open spec fn index_after(current: nat, total: nat, key: Key) -> nat {
    match key {
        Key::Tab { shift } => if shift {
            if current > 0 { (current - 1) as nat } else { current }
        } else {
            if current + 1 < total { current + 1 } else { current }
        },
        _ => current,
    }
}

/// The beat on screen after `key`: typing appends to its text and marks it
/// done, Enter appends a line break, Backspace removes the last character.
pub open spec fn step_after(s: StepView, key: Key) -> StepView {
    match key {
        Key::Char { c, ctrl } => if c == 'x' && ctrl {
            s
        } else {
            StepView { content: s.content.push(c), status: "done"@, ..s }
        },
        Key::Enter => StepView { content: s.content.push('\n'), ..s },
        Key::Backspace => if s.content.len() > 0 {
            StepView { content: s.content.drop_last(), ..s }
        } else {
            s
        },
        _ => s,
    }
}

/// The project after `key` while the beat at `current` is on screen.
pub open spec fn project_after(p: ProjectView, current: int, key: Key) -> ProjectView {
    ProjectView { steps: p.steps.update(current, step_after(p.steps[current], key)), ..p }
}

/// Applies `key` to the project and to the beat on screen, and says what the
/// driver must do next (save, quit, export).
pub fn handle_key(project: &mut Project, current: &mut usize, key: Key) -> (action: EditorAction)
    requires
        *old(current) < old(project).steps@.len(),
    ensures
        action == action_of(key),
        *final(current) as nat == index_after(*old(current) as nat, old(project).steps@.len(), key),
        *final(current) < final(project).steps@.len(),
        final(project)@ == project_after(old(project)@, *old(current) as int, key),
{
    let i = *current;
    let ghost before = project@;
    let n = project.steps.len();
    match key {
        Key::Esc => {
            assert(project@.steps =~= before.steps.update(i as int, step_after(before.steps[i as int], key)));
            EditorAction::SaveAndQuit
        },
        Key::Tab { shift } => {
            if shift {
                if i > 0 {
                    *current = i - 1;
                }
            } else {
                if i < n - 1 {
                    *current = i + 1;
                }
            }
            assert(project@.steps =~= before.steps.update(i as int, step_after(before.steps[i as int], key)));
            EditorAction::Save
        },
        Key::Char { c, ctrl } => {
            if c == 'x' && ctrl {
                assert(project@.steps =~= before.steps.update(i as int, step_after(before.steps[i as int], key)));
                EditorAction::SaveAndExport
            } else {
                let mut step = project.steps[i].clone();
                push_char(&mut step.content, c);
                step.status = owned("done");
                project.steps.set(i, step);
                assert(project@.steps =~= before.steps.update(i as int, step_after(before.steps[i as int], key)));
                EditorAction::Continue
            }
        },
        Key::Enter => {
            let mut step = project.steps[i].clone();
            push_char(&mut step.content, '\n');
            project.steps.set(i, step);
            assert(project@.steps =~= before.steps.update(i as int, step_after(before.steps[i as int], key)));
            EditorAction::Continue
        },
        Key::Backspace => {
            if !project.steps[i].content.as_str().is_empty() {
                let mut step = project.steps[i].clone();
                let _ = pop_char(&mut step.content);
                project.steps.set(i, step);
            }
            assert(project@.steps =~= before.steps.update(i as int, step_after(before.steps[i as int], key)));
            EditorAction::Continue
        },
        Key::Other => {
            assert(project@.steps =~= before.steps.update(i as int, step_after(before.steps[i as int], key)));
            EditorAction::Continue
        },
    }
}

/// The progress shown under the beat: its number from 1, a slash and the
/// number of beats.
pub fn progress_label(current: usize, total: usize) -> (r: String)
    requires
        current < total,
    ensures
        r@ == decimal((current + 1) as nat) + "/"@ + decimal(total as nat),
{
    let mut r = String::new();
    push_decimal(&mut r, current + 1);
    r.append("/");
    push_decimal(&mut r, total);
    assert(r@ =~= decimal((current + 1) as nat) + "/"@ + decimal(total as nat));
    r
}

/// Typing a character and then Backspace leaves the beat's text as it was.
pub proof fn lemma_backspace_undoes_typing(s: StepView, c: char, ctrl: bool)
    requires
        !(c == 'x' && ctrl),
    ensures
        step_after(step_after(s, Key::Char { c, ctrl }), Key::Backspace).content == s.content,
{
    assert(s.content.push(c).drop_last() =~= s.content);
}

/// Tab and then Shift+Tab come back to the same beat, unless the beat on
/// screen was the last one.
pub proof fn lemma_back_tab_undoes_tab(current: nat, total: nat)
    requires
        current + 1 < total,
    ensures
        index_after(index_after(current, total, Key::Tab { shift: false }), total, Key::Tab { shift: true })
            == current,
{
}

/// A key changes no beat but the one on screen, and keeps the number of beats.
pub proof fn lemma_key_touches_only_current_beat(p: ProjectView, current: int, key: Key)
    requires
        0 <= current < p.steps.len(),
    ensures
        project_after(p, current, key).steps.len() == p.steps.len(),
        forall|j: int| 0 <= j < p.steps.len() && j != current ==> #[trigger] project_after(p, current, key).steps[j] == p.steps[j],
        project_after(p, current, key).metadata == p.metadata,
{
}

} // verus!
