//! The decisions taken on each key press, per mode.  Each handler changes
//! the [`App`] and names the work on disk that the caller performs.

use vstd::prelude::*;
use crate::app::{
    assignable_type, parent_dir, parent_of, type_names, Action, App, EditorRequest, Focus, Key,
    Mode, is_index_memory,
};
use crate::memory::Memory;
use crate::mutate::{sanitize_slug, sanitized};
use crate::text::{append, chars_eq, chars_of, decimal, decimal_chars, pop_char, push_char, string_of};

verus! {

/// `new` differs from `old` in its status alone, which reads `msg`.
pub open spec fn only_status(old: App, new: App, msg: Seq<char>) -> bool {
    &&& new == (App { status: new.status, ..old })
    &&& new.status matches Some(s) && s@ == msg
}

/// The position of a type among the assignable ones, 0 when it is none of them.
pub open spec fn type_position(t: Seq<char>) -> usize {
    if t == type_names()[0] {
        0
    } else if t == type_names()[1] {
        1
    } else if t == type_names()[2] {
        2
    } else if t == type_names()[3] {
        3
    } else {
        0
    }
}

fn type_position_of(t: &String) -> (res: usize)
    ensures
        res == type_position(t@),
{
    let v = chars_of(t.as_str());
    if chars_eq(&v, &chars_of(assignable_type(0))) {
        0
    } else if chars_eq(&v, &chars_of(assignable_type(1))) {
        1
    } else if chars_eq(&v, &chars_of(assignable_type(2))) {
        2
    } else if chars_eq(&v, &chars_of(assignable_type(3))) {
        3
    } else {
        0
    }
}

fn is_index(m: &Memory) -> (res: bool)
    ensures
        res == is_index_memory(*m),
{
    chars_eq(&chars_of(m.mtype.as_str()), &chars_of("index"))
}

/// How a key changes the state in `Filter` mode.
pub open spec fn filter_key_post(o: App, f: App, key: Key) -> bool {
    &&& (key == Key::Esc ==> f.filter@.len() == 0 && f == (App {
            mode: Mode::Normal,
            filter: f.filter,
            ..o
        }).clamped())
    &&& (key == Key::Enter ==> f == (App { mode: Mode::Normal, ..o }))
    &&& (key == Key::Backspace ==> f.filter@ == (if o.filter@.len() == 0 {
            o.filter@
        } else {
            o.filter@.drop_last()
        }) && f == (App { filter: f.filter, ..o }).clamped())
    &&& (key is Char ==> f.filter@ == o.filter@.push(key->Char_0) && f
            == (App { filter: f.filter, ..o }).clamped())
    &&& (!(key == Key::Esc || key == Key::Enter || key == Key::Backspace || key is Char)
            ==> f == o)
}

/// How a key changes the state, and what it asks for, in `Normal` mode.
pub open spec fn nav_key_post(o: App, f: App, key: Key, act: Action) -> bool {
    &&& (key == Key::Char('r') <==> act is Rescan)
    &&& (key == Key::Char('o') ==> f == o && match o.focus {
            Focus::Memories => match o.selected_spec() {
                Some(i) => act == Action::Reveal { path: o.library.memories@[i as int].path },
                None => act is Nothing,
            },
            Focus::Projects => if o.selected_project >= 1 {
                act == Action::OpenDir {
                    mem_dir: o.library.projects@[o.selected_project - 1].mem_dir,
                }
            } else {
                act is Nothing
            },
        })
    &&& (!(key == Key::Char('r') || key == Key::Char('o')) ==> act is Nothing)
    &&& (key == Key::Char('q') ==> f == (App { should_quit: true, ..o }))
    &&& (key == Key::Esc && o.filter@.len() > 0 ==> f.filter@.len() == 0
            && f == (App { filter: f.filter, ..o }).clamped())
    &&& (key == Key::Esc && o.filter@.len() == 0 ==> f == o)
    &&& (key == Key::Char('/') ==> f.filter@.len() == 0 && f == (App {
            mode: Mode::Filter,
            filter: f.filter,
            ..o
        }))
    &&& (key == Key::Char('r') ==> f == o)
    &&& (key == Key::Char('e') ==> match o.selected_spec() {
            Some(i) => f.pending_editor matches Some(r) && r.path
                == o.library.memories@[i as int].path && !r.is_new && r.mem_dir@
                == parent_dir(o.library.memories@[i as int].path@) && f == (App {
                pending_editor: f.pending_editor,
                ..o
            }),
            None => f == o,
        })
    &&& (key == Key::Char('n') && o.selected_project == 0 ==> only_status(
            o,
            f,
            "select a project first (n needs a target)"@,
        ))
    &&& (key == Key::Char('n') && o.selected_project != 0 ==> f.input@.len() == 0
            && f == (App { mode: Mode::NewSlug, input: f.input, ..o }))
    &&& (key == Key::Char('d') && o.focus == Focus::Projects ==> if o.selected_project == 0 {
            only_status(o, f, "select a project, not ALL"@)
        } else {
            f == (App { mode: Mode::ConfirmDeleteProject, ..o })
        })
    &&& (key == Key::Char('d') && o.focus == Focus::Memories ==> match o.selected_spec() {
            Some(i) => if is_index_memory(o.library.memories@[i as int]) {
                only_status(o, f, "the index can only be edited"@)
            } else {
                f == (App { mode: Mode::ConfirmDelete, ..o })
            },
            None => f == o,
        })
    &&& (key == Key::Char('m') ==> match o.selected_spec() {
            Some(i) => if is_index_memory(o.library.memories@[i as int]) {
                only_status(o, f, "the index can only be edited"@)
            } else if o.library.projects@.len() < 2 {
                only_status(o, f, "no other project to move to"@)
            } else {
                f == (App { mode: Mode::MoveProject, move_cursor: 1, ..o })
            },
            None => f == o,
        })
    &&& (key == Key::Char('t') ==> match o.selected_spec() {
            Some(i) => if is_index_memory(o.library.memories@[i as int]) {
                only_status(o, f, "the index can only be edited"@)
            } else {
                f == (App {
                    mode: Mode::PickType,
                    type_cursor: type_position(o.library.memories@[i as int].mtype@),
                    ..o
                })
            },
            None => f == o,
        })
    &&& (key == Key::Tab || key == Key::BackTab ==> f == (App {
            focus: if o.focus == Focus::Projects {
                Focus::Memories
            } else {
                Focus::Projects
            },
            ..o
        }))
    &&& (key == Key::Left || key == Key::Char('h') ==> f == (App {
            focus: Focus::Projects,
            ..o
        }))
    &&& (key == Key::Right || key == Key::Char('l') ==> f == (App {
            focus: Focus::Memories,
            ..o
        }))
    &&& (key == Key::Down || key == Key::Char('j') ==> f == if o.focus
            == Focus::Projects {
            o.after_next_project()
        } else {
            o.after_next_memory()
        })
    &&& (key == Key::Up || key == Key::Char('k') ==> f == if o.focus
            == Focus::Projects {
            o.after_prev_project()
        } else {
            o.after_prev_memory()
        })
    &&& (key == Key::PageDown ==> f == o.after_scroll_down())
    &&& (key == Key::PageUp ==> f == o.after_scroll_up())
    &&& (!(key == Key::Char('q') || key == Key::Esc || key == Key::Char('/') || key == Key::Char(
            'r',
        ) || key == Key::Char('o') || key == Key::Char('e') || key == Key::Char('n') || key == Key::Char('d') || key
            == Key::Char('m') || key == Key::Char('t') || key == Key::Tab || key == Key::BackTab
            || key == Key::Left || key == Key::Char('h') || key == Key::Right || key == Key::Char(
            'l',
        ) || key == Key::Down || key == Key::Char('j') || key == Key::Up || key == Key::Char('k')
            || key == Key::PageDown || key == Key::PageUp) ==> f == o)
}

/// How a key changes the state, and what it asks for, on the delete prompt.
pub open spec fn confirm_key_post(o: App, f: App, key: Key, act: Action) -> bool {
    &&& (f == (App { mode: Mode::Normal, ..o }))
    &&& (key == Key::Char('y') && o.selected_spec() is Some ==> ({
            let m = o.library.memories@[o.selected_spec()->0 as int];
            act matches Action::DeleteMemory { path, slug } && path == m.path && slug == m.slug
        }))
    &&& (!(key == Key::Char('y') && o.selected_spec() is Some) ==> act is Nothing)
}

/// How a key changes the state, and what it asks for, on the delete-project prompt.
pub open spec fn confirm_project_key_post(o: App, f: App, key: Key, act: Action) -> bool {
    &&& (f == (App { mode: Mode::Normal, ..o }))
    &&& (key == Key::Char('y') && o.selected_project > 0 ==> ({
            let p = o.library.projects@[o.selected_project - 1];
            act matches Action::DeleteProject { mem_dir, label } && mem_dir == p.mem_dir && label
                == p.label
        }))
    &&& (!(key == Key::Char('y') && o.selected_project > 0) ==> act is Nothing)
}

/// How a key changes the state, and what it asks for, in `NewSlug` mode.
pub open spec fn slug_key_post(o: App, f: App, key: Key, act: Action) -> bool {
    &&& (!(key == Key::Enter) ==> act is Nothing)
    &&& (key == Key::Esc ==> f == (App { mode: Mode::Normal, ..o }))
    &&& (key == Key::Backspace ==> f.input@ == (if o.input@.len() == 0 {
            o.input@
        } else {
            o.input@.drop_last()
        }) && f == (App { input: f.input, ..o }))
    &&& (key is Char ==> f.input@ == o.input@.push(key->Char_0) && f
            == (App { input: f.input, ..o }))
    &&& (key == Key::Enter && sanitized(o.input@).len() == 0 ==> only_status(
            App { mode: Mode::Normal, ..o },
            f,
            "empty slug"@,
        ) && act is Nothing)
    &&& (key == Key::Enter && sanitized(o.input@).len() > 0 ==> f == (App {
            mode: Mode::Normal,
            ..o
        }) && (act matches Action::CreateMemory { mem_dir, slug } && mem_dir
            == o.library.projects@[o.selected_project - 1].mem_dir && slug@
            == sanitized(o.input@)))
    &&& (!(key == Key::Esc || key == Key::Backspace || key is Char || key == Key::Enter)
            ==> f == o)
}

/// How a key changes the state, and what it asks for, in `MoveProject` mode.
pub open spec fn move_key_post(o: App, f: App, key: Key, act: Action) -> bool {
    &&& (!(key == Key::Enter) ==> act is Nothing)
    &&& (key == Key::Esc ==> f == (App { mode: Mode::Normal, ..o }))
    &&& (key == Key::Down || key == Key::Char('j') ==> f == (App {
            move_cursor: if o.move_cursor >= o.library.projects@.len() {
                1
            } else {
                (o.move_cursor + 1) as usize
            },
            ..o
        }))
    &&& (key == Key::Up || key == Key::Char('k') ==> f == (App {
            move_cursor: if o.move_cursor <= 1 {
                o.library.projects@.len() as usize
            } else {
                (o.move_cursor - 1) as usize
            },
            ..o
        }))
    &&& (key == Key::Enter ==> match o.selected_spec() {
            None => f == (App { mode: Mode::Normal, ..o }) && act is Nothing,
            Some(i) => {
                let m = o.library.memories@[i as int];
                let target = o.library.projects@[o.move_cursor - 1];
                if parent_dir(m.path@) == target.mem_dir@ {
                    only_status(
                        App { mode: Mode::Normal, ..o },
                        f,
                        "already in that project"@,
                    ) && act is Nothing
                } else {
                    f == (App { mode: Mode::Normal, ..o }) && (
                    act matches Action::MoveMemory {
                        path,
                        slug,
                        name,
                        description,
                        dst_dir,
                        label,
                    } && path == m.path && slug == m.slug && name == m.name && description
                        == m.description && dst_dir == target.mem_dir && label == target.label)
                }
            },
        })
    &&& (!(key == Key::Esc || key == Key::Down || key == Key::Char('j') || key == Key::Up || key
            == Key::Char('k') || key == Key::Enter) ==> f == o)
}

/// How a key changes the state, and what it asks for, in `PickType` mode.
pub open spec fn type_key_post(o: App, f: App, key: Key, act: Action) -> bool {
    &&& (!(key == Key::Enter) ==> act is Nothing)
    &&& (key == Key::Esc ==> f == (App { mode: Mode::Normal, ..o }))
    &&& (key == Key::Left || key == Key::Char('h') || key == Key::Up || key == Key::Char('k')
            ==> f == (App {
            type_cursor: ((o.type_cursor + 3) % 4) as usize,
            ..o
        }))
    &&& (key == Key::Right || key == Key::Char('l') || key == Key::Down || key == Key::Char('j')
            ==> f == (App {
            type_cursor: ((o.type_cursor + 1) % 4) as usize,
            ..o
        }))
    &&& (key == Key::Enter ==> f == (App { mode: Mode::Normal, ..o }) && match o.selected_spec() {
            None => act is Nothing,
            Some(i) => {
                let m = o.library.memories@[i as int];
                act matches Action::Retype { path, slug, new_type } && path == m.path && slug
                    == m.slug && new_type@ == type_names()[o.type_cursor as int]
            },
        })
    &&& (!(key == Key::Esc || key == Key::Left || key == Key::Char('h') || key == Key::Up || key
            == Key::Char('k') || key == Key::Right || key == Key::Char('l') || key == Key::Down
            || key == Key::Char('j') || key == Key::Enter) ==> f == o)
}

/// Keys while the search prompt is active.
pub fn handle_filter_key(app: &mut App, key: Key)
    requires
        old(app).wf(),
    ensures
        final(app).wf(),
        filter_key_post(*old(app), *final(app), key),
{
    match key {
        Key::Esc => {
            app.mode = Mode::Normal;
            app.filter = String::new();
            app.clamp_selection();
        },
        Key::Enter => {
            app.mode = Mode::Normal;
        },
        Key::Backspace => {
            pop_char(&mut app.filter);
            app.clamp_selection();
        },
        Key::Char(c) => {
            push_char(&mut app.filter, c);
            app.clamp_selection();
        },
        _ => {},
    }
}

/// Keys during normal navigation.
pub fn handle_nav_key(app: &mut App, key: Key) -> (act: Action)
    requires
        old(app).wf(),
        old(app).mode == Mode::Normal,
    ensures
        final(app).wf(),
        nav_key_post(*old(app), *final(app), key, act),
{
    match key {
        Key::Char('q') => {
            app.should_quit = true;
        },
        Key::Esc => {
            if !app.filter.as_str().is_empty() {
                app.filter = String::new();
                app.clamp_selection();
            }
        },
        Key::Char('/') => {
            app.mode = Mode::Filter;
            app.filter = String::new();
        },
        Key::Char('r') => {
            return Action::Rescan;
        },
        Key::Char('o') => {
            match app.focus {
                Focus::Memories => {
                    if let Some(i) = app.selected_index() {
                        return Action::Reveal { path: app.library.memories[i].path.clone() };
                    }
                },
                Focus::Projects => {
                    if app.selected_project >= 1 {
                        return Action::OpenDir {
                            mem_dir: app.library.projects[app.selected_project - 1].mem_dir.clone(),
                        };
                    }
                },
            }
        },
        Key::Char('e') => {
            if let Some(i) = app.selected_index() {
                let path = app.library.memories[i].path.clone();
                let mem_dir = parent_of(&path);
                app.pending_editor = Some(EditorRequest { path, is_new: false, mem_dir });
            }
        },
        Key::Char('n') => {
            if app.selected_project == 0 {
                app.status = Some("select a project first (n needs a target)".to_owned());
            } else {
                app.mode = Mode::NewSlug;
                app.input = String::new();
            }
        },
        Key::Char('d') => {
            match app.focus {
                Focus::Projects => {
                    if app.selected_project == 0 {
                        app.status = Some("select a project, not ALL".to_owned());
                    } else {
                        app.mode = Mode::ConfirmDeleteProject;
                    }
                },
                Focus::Memories => {
                    if let Some(i) = app.selected_index() {
                        if is_index(&app.library.memories[i]) {
                            app.status = Some("the index can only be edited".to_owned());
                        } else {
                            app.mode = Mode::ConfirmDelete;
                        }
                    }
                },
            }
        },
        Key::Char('m') => {
            if let Some(i) = app.selected_index() {
                if is_index(&app.library.memories[i]) {
                    app.status = Some("the index can only be edited".to_owned());
                } else if app.library.projects.len() < 2 {
                    app.status = Some("no other project to move to".to_owned());
                } else {
                    app.mode = Mode::MoveProject;
                    app.move_cursor = 1;
                }
            }
        },
        Key::Char('t') => {
            if let Some(i) = app.selected_index() {
                if is_index(&app.library.memories[i]) {
                    app.status = Some("the index can only be edited".to_owned());
                } else {
                    let p = type_position_of(&app.library.memories[i].mtype);
                    app.mode = Mode::PickType;
                    app.type_cursor = p;
                }
            }
        },
        Key::Tab | Key::BackTab => {
            app.focus = match app.focus {
                Focus::Projects => Focus::Memories,
                Focus::Memories => Focus::Projects,
            };
        },
        Key::Left | Key::Char('h') => {
            app.focus = Focus::Projects;
        },
        Key::Right | Key::Char('l') => {
            app.focus = Focus::Memories;
        },
        Key::Down | Key::Char('j') => {
            match app.focus {
                Focus::Projects => app.next_project(),
                Focus::Memories => app.next_memory(),
            }
        },
        Key::Up | Key::Char('k') => {
            match app.focus {
                Focus::Projects => app.prev_project(),
                Focus::Memories => app.prev_memory(),
            }
        },
        Key::PageDown => {
            app.scroll_detail_down();
        },
        Key::PageUp => {
            app.scroll_detail_up();
        },
        _ => {},
    }
    Action::Nothing
}


/// `y` or `n` on the delete prompt: `y` deletes the memory under the cursor.
pub fn handle_confirm_key(app: &mut App, key: Key) -> (act: Action)
    requires
        old(app).wf(),
    ensures
        final(app).wf(),
        confirm_key_post(*old(app), *final(app), key, act),
{
    let mut act = Action::Nothing;
    if key == Key::Char('y') {
        if let Some(i) = app.selected_index() {
            let m = &app.library.memories[i];
            act = Action::DeleteMemory { path: m.path.clone(), slug: m.slug.clone() };
        }
    }
    app.mode = Mode::Normal;
    act
}

/// `y` or `n` on the delete-whole-project prompt.
pub fn handle_confirm_project_key(app: &mut App, key: Key) -> (act: Action)
    requires
        old(app).wf(),
    ensures
        final(app).wf(),
        confirm_project_key_post(*old(app), *final(app), key, act),
{
    let mut act = Action::Nothing;
    if key == Key::Char('y') && app.selected_project > 0 {
        let p = &app.library.projects[app.selected_project - 1];
        act = Action::DeleteProject { mem_dir: p.mem_dir.clone(), label: p.label.clone() };
    }
    app.mode = Mode::Normal;
    act
}

/// Slug input for a new memory.
pub fn handle_slug_key(app: &mut App, key: Key) -> (act: Action)
    requires
        old(app).wf(),
        old(app).mode == Mode::NewSlug,
    ensures
        final(app).wf(),
        slug_key_post(*old(app), *final(app), key, act),
{
    match key {
        Key::Esc => {
            app.mode = Mode::Normal;
        },
        Key::Backspace => {
            pop_char(&mut app.input);
        },
        Key::Char(c) => {
            push_char(&mut app.input, c);
        },
        Key::Enter => {
            let slug = sanitize_slug(app.input.as_str());
            app.mode = Mode::Normal;
            if slug.as_str().is_empty() {
                app.status = Some("empty slug".to_owned());
                return Action::Nothing;
            }
            let dir = app.library.projects[app.selected_project - 1].mem_dir.clone();
            return Action::CreateMemory { mem_dir: dir, slug };
        },
        _ => {},
    }
    Action::Nothing
}

/// Pick a target project for the move.
pub fn handle_move_key(app: &mut App, key: Key) -> (act: Action)
    requires
        old(app).wf(),
        1 <= old(app).move_cursor <= old(app).library.projects@.len(),
    ensures
        final(app).wf(),
        move_key_post(*old(app), *final(app), key, act),
{
    let n = app.library.projects.len();
    match key {
        Key::Esc => {
            app.mode = Mode::Normal;
        },
        Key::Down | Key::Char('j') => {
            app.move_cursor = if app.move_cursor >= n {
                1
            } else {
                app.move_cursor + 1
            };
        },
        Key::Up | Key::Char('k') => {
            app.move_cursor = if app.move_cursor <= 1 {
                n
            } else {
                app.move_cursor - 1
            };
        },
        Key::Enter => {
            app.mode = Mode::Normal;
            let i = match app.selected_index() {
                Some(i) => i,
                None => {
                    return Action::Nothing;
                },
            };
            let m = &app.library.memories[i];
            let target = &app.library.projects[app.move_cursor - 1];
            let parent = parent_of(&m.path);
            if chars_eq(&chars_of(parent.as_str()), &chars_of(target.mem_dir.as_str())) {
                app.status = Some("already in that project".to_owned());
                return Action::Nothing;
            }
            return Action::MoveMemory {
                path: m.path.clone(),
                slug: m.slug.clone(),
                name: m.name.clone(),
                description: m.description.clone(),
                dst_dir: target.mem_dir.clone(),
                label: target.label.clone(),
            };
        },
        _ => {},
    }
    Action::Nothing
}

/// Pick a new `type:` for the memory.
pub fn handle_type_key(app: &mut App, key: Key) -> (act: Action)
    requires
        old(app).wf(),
    ensures
        final(app).wf(),
        type_key_post(*old(app), *final(app), key, act),
{
    match key {
        Key::Esc => {
            app.mode = Mode::Normal;
        },
        Key::Left | Key::Char('h') | Key::Up | Key::Char('k') => {
            app.type_cursor = (app.type_cursor + 3) % 4;
        },
        Key::Right | Key::Char('l') | Key::Down | Key::Char('j') => {
            app.type_cursor = (app.type_cursor + 1) % 4;
        },
        Key::Enter => {
            app.mode = Mode::Normal;
            if let Some(i) = app.selected_index() {
                let m = &app.library.memories[i];
                let t = assignable_type(app.type_cursor);
                return Action::Retype {
                    path: m.path.clone(),
                    slug: m.slug.clone(),
                    new_type: t.to_owned(),
                };
            }
        },
        _ => {},
    }
    Action::Nothing
}

/// A key press: clears the one-shot status, then hands the key to the
/// current mode's handler.
pub fn handle_key(app: &mut App, key: Key) -> (act: Action)
    requires
        old(app).wf(),
    ensures
        final(app).wf(),
        ({
            let o = App { status: None, ..*old(app) };
            let f = *final(app);
            match old(app).mode {
                Mode::Normal => nav_key_post(o, f, key, act),
                Mode::Filter => filter_key_post(o, f, key) && act is Nothing,
                Mode::ConfirmDelete => confirm_key_post(o, f, key, act),
                Mode::ConfirmDeleteProject => confirm_project_key_post(o, f, key, act),
                Mode::NewSlug => slug_key_post(o, f, key, act),
                Mode::MoveProject => move_key_post(o, f, key, act),
                Mode::PickType => type_key_post(o, f, key, act),
            }
        }),
{
    app.status = None;
    match app.mode {
        Mode::Normal => handle_nav_key(app, key),
        Mode::Filter => {
            handle_filter_key(app, key);
            Action::Nothing
        },
        Mode::ConfirmDelete => handle_confirm_key(app, key),
        Mode::ConfirmDeleteProject => handle_confirm_project_key(app, key),
        Mode::NewSlug => handle_slug_key(app, key),
        Mode::MoveProject => handle_move_key(app, key),
        Mode::PickType => handle_type_key(app, key),
    }
}

// ------------------------------------------------------------------
// After the work on disk
// ------------------------------------------------------------------

/// `a` followed by `b`.
fn cat(a: &str, b: &str) -> (r: String)
    ensures
        r@ == a@ + b@,
{
    let mut v = chars_of(a);
    append(&mut v, &chars_of(b));
    string_of(&v)
}

/// How the work asked for by a key turned out.
pub enum ActionOutcome {
    /// A memory was deleted, or the error why not.
    Deleted { slug: String, result: Result<(), String> },
    /// A project's files were deleted (how many), or the error why not.
    ProjectDeleted { label: String, result: Result<u64, String> },
    /// A memory file was created in `mem_dir` (its path), or the error why not.
    Created { mem_dir: String, result: Result<String, String> },
    /// A memory was moved into the project `label`, or the error why not.
    Moved { slug: String, label: String, result: Result<(), String> },
    /// A memory's type was rewritten, or the error why not.
    Retyped { slug: String, new_type: String, result: Result<(), String> },
    /// A file or directory was shown in the file manager, or the error why not.
    Opened { result: Result<(), String> },
}

/// What [`after_action`] does: the status it sets (or the editor it asks
/// for, after a creation), and whether the library is scanned again.
pub open spec fn after_action_post(o: App, f: App, outcome: ActionOutcome, rescan: bool) -> bool {
    match outcome {
        ActionOutcome::Deleted { slug, result } => rescan && match result {
            Ok(_) => only_status(o, f, "deleted "@ + slug@ + " (backed up)"@),
            Err(e) => only_status(o, f, "delete failed: "@ + e@),
        },
        ActionOutcome::ProjectDeleted { label, result } => rescan && match result {
            Ok(n) => only_status(
                o,
                f,
                "deleted "@ + label@ + ": "@ + decimal(n as nat) + " files (backed up)"@,
            ),
            Err(e) => only_status(o, f, "delete failed: "@ + e@),
        },
        ActionOutcome::Created { mem_dir, result } => !rescan && match result {
            Ok(p) => f == (App {
                pending_editor: Some(EditorRequest { path: p, is_new: true, mem_dir }),
                ..o
            }),
            Err(e) => only_status(o, f, "create failed: "@ + e@),
        },
        ActionOutcome::Moved { slug, label, result } => rescan && match result {
            Ok(_) => only_status(o, f, "moved "@ + slug@ + " \u{2192} "@ + label@),
            Err(e) => only_status(o, f, "move failed: "@ + e@),
        },
        ActionOutcome::Retyped { slug, new_type, result } => rescan && match result {
            Ok(_) => only_status(o, f, slug@ + " type \u{2192} "@ + new_type@),
            Err(e) => only_status(o, f, "retype failed: "@ + e@),
        },
        ActionOutcome::Opened { result } => !rescan && match result {
            Ok(_) => f == o,
            Err(e) => only_status(o, f, "open failed: "@ + e@),
        },
    }
}

/// Takes in how the work a key asked for turned out: sets the status line,
/// or after a creation asks for the editor on the new file; returns whether
/// to scan the library again.
pub fn after_action(app: &mut App, outcome: ActionOutcome) -> (rescan: bool)
    requires
        old(app).wf(),
    ensures
        final(app).wf(),
        after_action_post(*old(app), *final(app), outcome, rescan),
{
    match outcome {
        ActionOutcome::Deleted { slug, result } => {
            app.status = Some(match result {
                Ok(_) => cat(cat("deleted ", slug.as_str()).as_str(), " (backed up)"),
                Err(e) => cat("delete failed: ", e.as_str()),
            });
            true
        },
        ActionOutcome::ProjectDeleted { label, result } => {
            app.status = Some(match result {
                Ok(n) => {
                    let head = cat(cat("deleted ", label.as_str()).as_str(), ": ");
                    let mut v = chars_of(head.as_str());
                    append(&mut v, &decimal_chars(n));
                    append(&mut v, &chars_of(" files (backed up)"));
                    assert(v@ =~= "deleted "@ + label@ + ": "@ + decimal(n as nat) + " files (backed up)"@);
                    string_of(&v)
                },
                Err(e) => cat("delete failed: ", e.as_str()),
            });
            true
        },
        ActionOutcome::Created { mem_dir, result } => {
            match result {
                Ok(p) => {
                    app.pending_editor = Some(EditorRequest { path: p, is_new: true, mem_dir });
                },
                Err(e) => {
                    app.status = Some(cat("create failed: ", e.as_str()));
                },
            }
            false
        },
        ActionOutcome::Moved { slug, label, result } => {
            app.status = Some(match result {
                Ok(_) => {
                    let r = cat(cat("moved ", slug.as_str()).as_str(), cat(" \u{2192} ", label.as_str()).as_str());
                    assert(r@ =~= "moved "@ + slug@ + " \u{2192} "@ + label@);
                    r
                },
                Err(e) => cat("move failed: ", e.as_str()),
            });
            true
        },
        ActionOutcome::Retyped { slug, new_type, result } => {
            app.status = Some(match result {
                Ok(_) => cat(cat(slug.as_str(), " type \u{2192} ").as_str(), new_type.as_str()),
                Err(e) => cat("retype failed: ", e.as_str()),
            });
            true
        },
        ActionOutcome::Opened { result } => {
            match result {
                Ok(_) => {},
                Err(e) => {
                    app.status = Some(cat("open failed: ", e.as_str()));
                },
            }
            false
        },
    }
}

// ------------------------------------------------------------------
// The editor session
// ------------------------------------------------------------------

/// What happened in the editor session since the last step.
pub enum EditorEvent {
    /// The session starts.
    Requested,
    /// The file was backed up.
    BackedUp,
    /// Backing the file up failed, with this error.
    BackupFailed(String),
    /// The editor ran and exited, successfully or not.
    Exited { success: bool },
    /// The editor could not be started (`<editor>: <error>`).
    LaunchFailed(String),
    /// The new memory's file is gone after the editor.
    NewFileMissing,
    /// The new memory's file could not be read after the editor.
    NewFileUnreadable,
    /// The new memory, of this slug, got its index line.
    IndexAppended { slug: String },
    /// Appending the new memory's index line failed, with this error.
    IndexFailed(String),
    /// The discarded new file was removed.
    FileRemoved,
}

/// The next piece of work in the editor session.
pub enum EditorStep {
    /// Back up the file.
    Backup { path: String },
    /// Suspend the terminal and run the editor on the file.
    Launch { path: String },
    /// Read the new memory and append its pointer to the directory's index.
    AppendIndex { mem_dir: String, path: String },
    /// Remove the file.
    RemoveFile { path: String },
    /// Scan the library again; the session is over.
    Rescan,
    /// The session is over.
    Done,
}

/// What [`editor_step`] does with an event: the status it sets and the
/// step that follows.  An existing file is backed up before the editor
/// runs, and left alone when that fails; a new memory that was saved gets
/// its index line, one whose editor failed is removed.
pub open spec fn editor_step_post(
    o: App,
    f: App,
    req: EditorRequest,
    ev: EditorEvent,
    step: EditorStep,
) -> bool {
    match ev {
        EditorEvent::Requested => f == o && if req.is_new {
            step == EditorStep::Launch { path: req.path }
        } else {
            step == EditorStep::Backup { path: req.path }
        },
        EditorEvent::BackedUp => f == o && step == EditorStep::Launch { path: req.path },
        EditorEvent::BackupFailed(e) => only_status(o, f, "backup failed, not editing: "@ + e@)
            && step is Done,
        EditorEvent::Exited { success } => if success {
            if req.is_new {
                f == o && step == EditorStep::AppendIndex { mem_dir: req.mem_dir, path: req.path }
            } else {
                only_status(o, f, "edited "@ + req.path@) && step is Rescan
            }
        } else {
            if req.is_new {
                only_status(o, f, "new memory aborted"@) && step == EditorStep::RemoveFile {
                    path: req.path,
                }
            } else {
                only_status(o, f, "editor exited non-zero"@) && step is Rescan
            }
        },
        EditorEvent::LaunchFailed(e) => only_status(o, f, "failed to launch "@ + e@)
            && step is Rescan,
        EditorEvent::NewFileMissing => only_status(o, f, "new memory discarded"@) && step is Rescan,
        EditorEvent::NewFileUnreadable => f == o && step is Rescan,
        EditorEvent::IndexAppended { slug } => only_status(
            o,
            f,
            "created "@ + slug@ + " + indexed"@,
        ) && step is Rescan,
        EditorEvent::IndexFailed(e) => only_status(o, f, "created, but index update failed: "@ + e@)
            && step is Rescan,
        EditorEvent::FileRemoved => f == o && step is Rescan,
    }
}

/// One decision of the editor session: from what just happened to the
/// status line and the next piece of work.
pub fn editor_step(app: &mut App, req: &EditorRequest, ev: EditorEvent) -> (step: EditorStep)
    requires
        old(app).wf(),
    ensures
        final(app).wf(),
        editor_step_post(*old(app), *final(app), *req, ev, step),
{
    match ev {
        EditorEvent::Requested => {
            if req.is_new {
                EditorStep::Launch { path: req.path.clone() }
            } else {
                EditorStep::Backup { path: req.path.clone() }
            }
        },
        EditorEvent::BackedUp => EditorStep::Launch { path: req.path.clone() },
        EditorEvent::BackupFailed(e) => {
            app.status = Some(cat("backup failed, not editing: ", e.as_str()));
            EditorStep::Done
        },
        EditorEvent::Exited { success } => {
            if success {
                if req.is_new {
                    EditorStep::AppendIndex { mem_dir: req.mem_dir.clone(), path: req.path.clone() }
                } else {
                    app.status = Some(cat("edited ", req.path.as_str()));
                    EditorStep::Rescan
                }
            } else {
                if req.is_new {
                    app.status = Some("new memory aborted".to_owned());
                    EditorStep::RemoveFile { path: req.path.clone() }
                } else {
                    app.status = Some("editor exited non-zero".to_owned());
                    EditorStep::Rescan
                }
            }
        },
        EditorEvent::LaunchFailed(e) => {
            app.status = Some(cat("failed to launch ", e.as_str()));
            EditorStep::Rescan
        },
        EditorEvent::NewFileMissing => {
            app.status = Some("new memory discarded".to_owned());
            EditorStep::Rescan
        },
        EditorEvent::NewFileUnreadable => EditorStep::Rescan,
        EditorEvent::IndexAppended { slug } => {
            app.status = Some(cat(cat("created ", slug.as_str()).as_str(), " + indexed"));
            EditorStep::Rescan
        },
        EditorEvent::IndexFailed(e) => {
            app.status = Some(cat("created, but index update failed: ", e.as_str()));
            EditorStep::Rescan
        },
        EditorEvent::FileRemoved => EditorStep::Rescan,
    }
}

} // verus!
