use auto_memories::app::{assignable_type, assignable_types, parent_of, Action, App, Focus, Key, Mode};
use auto_memories::app::EditorRequest;
use auto_memories::keys::{
    after_action, editor_step, handle_filter_key, handle_key, handle_move_key, ActionOutcome,
    EditorEvent, EditorStep,
};
use auto_memories::memory::{Library, Memory, Project};

fn mem(slug: &str, dir: &str, mtype: &str, body: &str) -> Memory {
    Memory {
        project: dir.to_string(),
        project_dir: format!("-{dir}"),
        path: format!("/{dir}/memory/{slug}.md"),
        slug: slug.to_string(),
        name: format!("Name {slug}"),
        description: format!("about {slug}"),
        mtype: mtype.to_string(),
        body: body.to_string(),
        created: None,
        modified: None,
    }
}

fn library() -> Library {
    Library {
        memories: vec![
            mem("alpha", "one", "user", "Rust notes"),
            mem("MEMORY", "one", "index", "- [Name alpha](alpha.md)"),
            mem("beta", "one", "feedback", "testing things"),
            mem("gamma", "two", "project", "other body"),
        ],
        projects: vec![
            Project {
                label: "one".to_string(),
                mem_dir: "/one/memory".to_string(),
                memory_idx: vec![0, 1, 2],
            },
            Project {
                label: "two".to_string(),
                mem_dir: "/two/memory".to_string(),
                memory_idx: vec![3],
            },
        ],
    }
}

fn press(app: &mut App, keys: &[Key]) -> Vec<Action> {
    keys.iter().map(|&k| handle_key(app, k)).collect()
}

#[test]
fn new_app_starts_on_all() {
    let app = App::new(library());
    assert_eq!(app.selected_project, 0);
    assert_eq!(app.mem_cursor, 0);
    assert_eq!(app.focus, Focus::Projects);
    assert_eq!(app.mode, Mode::Normal);
    assert_eq!(app.move_cursor, 1);
    assert!(app.status.is_none());
    // the ALL view hides the index entry
    assert_eq!(app.current_memory_indices(), vec![0, 2, 3]);
}

#[test]
fn project_navigation_wraps() {
    let mut app = App::new(library());
    app.next_project();
    assert_eq!(app.selected_project, 1);
    assert_eq!(app.current_memory_indices(), vec![0, 1, 2]);
    app.next_project();
    app.next_project();
    assert_eq!(app.selected_project, 0);
    app.prev_project();
    assert_eq!(app.selected_project, 2);
    app.next_project();
    assert_eq!(app.selected_project, 0);
}

#[test]
fn memory_navigation_round_trips() {
    let mut app = App::new(library());
    app.next_memory();
    assert_eq!(app.mem_cursor, 1);
    app.prev_memory();
    assert_eq!(app.mem_cursor, 0);
    app.prev_memory();
    assert_eq!(app.mem_cursor, 2);
    app.next_memory();
    assert_eq!(app.mem_cursor, 0);
    app.detail_scroll = 8;
    app.next_memory();
    assert_eq!(app.detail_scroll, 0);
    let sel = app.selected_memory().unwrap();
    assert_eq!(sel.slug, "beta");
    assert_eq!(app.selected_index(), Some(2));
}

#[test]
fn selecting_a_project_resets_the_cursor() {
    let mut app = App::new(library());
    app.mem_cursor = 2;
    app.detail_scroll = 12;
    app.next_project();
    assert_eq!(app.mem_cursor, 0);
    assert_eq!(app.detail_scroll, 0);
}

#[test]
fn detail_scroll_saturates() {
    let mut app = App::new(library());
    app.scroll_detail_up();
    assert_eq!(app.detail_scroll, 0);
    app.scroll_detail_down();
    assert_eq!(app.detail_scroll, 4);
    app.detail_scroll = u16::MAX - 1;
    app.scroll_detail_down();
    assert_eq!(app.detail_scroll, u16::MAX);
}

#[test]
fn filter_matches_any_field_ignoring_case() {
    let mut app = App::new(library());
    app.mode = Mode::Filter;
    for c in "RUST".chars() {
        handle_filter_key(&mut app, Key::Char(c));
    }
    assert_eq!(app.filter, "RUST");
    assert_eq!(app.current_memory_indices(), vec![0]);
    handle_filter_key(&mut app, Key::Backspace);
    handle_filter_key(&mut app, Key::Backspace);
    handle_filter_key(&mut app, Key::Backspace);
    handle_filter_key(&mut app, Key::Backspace);
    assert_eq!(app.filter, "");
    for c in "feed".chars() {
        handle_filter_key(&mut app, Key::Char(c));
    }
    assert_eq!(app.current_memory_indices(), vec![2]);
    handle_filter_key(&mut app, Key::Enter);
    assert_eq!(app.mode, Mode::Normal);
    assert_eq!(app.filter, "feed");
    // Esc in normal mode clears the filter
    press(&mut app, &[Key::Esc]);
    assert_eq!(app.filter, "");
    assert_eq!(app.current_memory_indices(), vec![0, 2, 3]);
}

#[test]
fn filter_with_no_match_clamps_cursor() {
    let mut app = App::new(library());
    app.mem_cursor = 2;
    press(&mut app, &[Key::Char('/')]);
    assert_eq!(app.mode, Mode::Filter);
    for c in "zzzqqq_nomatch".chars() {
        handle_key(&mut app, Key::Char(c));
    }
    assert!(app.current_memory_indices().is_empty());
    assert_eq!(app.mem_cursor, 0);
    assert!(app.selected_memory().is_none());
    handle_key(&mut app, Key::Esc);
    assert_eq!(app.mode, Mode::Normal);
    assert_eq!(app.filter, "");
}

#[test]
fn new_memory_needs_a_project() {
    let mut app = App::new(library());
    press(&mut app, &[Key::Char('n')]);
    assert_eq!(app.status.as_deref(), Some("select a project first (n needs a target)"));
    assert_eq!(app.mode, Mode::Normal);
    // the status is cleared by the next key
    press(&mut app, &[Key::Tab]);
    assert!(app.status.is_none());
    assert_eq!(app.focus, Focus::Memories);
}

#[test]
fn slug_prompt_creates_memory() {
    let mut app = App::new(library());
    press(&mut app, &[Key::Down, Key::Char('n')]);
    assert_eq!(app.mode, Mode::NewSlug);
    let acts = press(
        &mut app,
        &[Key::Char('M'), Key::Char('y'), Key::Char('!'), Key::Char('x'), Key::Backspace, Key::Char(' '), Key::Char('N')],
    );
    assert!(acts.iter().all(|a| matches!(a, Action::Nothing)));
    assert_eq!(app.input, "My! N");
    match handle_key(&mut app, Key::Enter) {
        Action::CreateMemory { mem_dir, slug } => {
            assert_eq!(mem_dir, "/one/memory");
            assert_eq!(slug, "my-n");
        }
        _ => panic!("expected a create action"),
    }
    assert_eq!(app.mode, Mode::Normal);
}

#[test]
fn empty_slug_is_refused() {
    let mut app = App::new(library());
    press(&mut app, &[Key::Down, Key::Char('n'), Key::Char('*')]);
    assert!(matches!(handle_key(&mut app, Key::Enter), Action::Nothing));
    assert_eq!(app.status.as_deref(), Some("empty slug"));
}

#[test]
fn delete_memory_after_confirm() {
    let mut app = App::new(library());
    press(&mut app, &[Key::Right, Key::Down]);
    assert_eq!(app.mem_cursor, 1);
    press(&mut app, &[Key::Char('d')]);
    assert_eq!(app.mode, Mode::ConfirmDelete);
    match handle_key(&mut app, Key::Char('y')) {
        Action::DeleteMemory { path, slug } => {
            assert_eq!(slug, "beta");
            assert_eq!(path, "/one/memory/beta.md");
        }
        _ => panic!("expected a delete action"),
    }
    assert_eq!(app.mode, Mode::Normal);
    // any other key cancels
    press(&mut app, &[Key::Char('d')]);
    assert!(matches!(handle_key(&mut app, Key::Char('n')), Action::Nothing));
    assert_eq!(app.mode, Mode::Normal);
}

#[test]
fn index_entry_is_protected() {
    let mut app = App::new(library());
    press(&mut app, &[Key::Down, Key::Tab, Key::Down]);
    assert_eq!(app.selected_memory().unwrap().mtype, "index");
    for k in ['d', 'm', 't'] {
        press(&mut app, &[Key::Char(k)]);
        assert_eq!(app.status.as_deref(), Some("the index can only be edited"));
        assert_eq!(app.mode, Mode::Normal);
    }
}

#[test]
fn delete_project_from_projects_pane() {
    let mut app = App::new(library());
    press(&mut app, &[Key::Char('d')]);
    assert_eq!(app.status.as_deref(), Some("select a project, not ALL"));
    press(&mut app, &[Key::Down, Key::Down, Key::Char('d')]);
    assert_eq!(app.mode, Mode::ConfirmDeleteProject);
    match handle_key(&mut app, Key::Char('y')) {
        Action::DeleteProject { mem_dir, label } => {
            assert_eq!(mem_dir, "/two/memory");
            assert_eq!(label, "two");
        }
        _ => panic!("expected a project delete"),
    }
}

#[test]
fn move_picks_another_project() {
    let mut app = App::new(library());
    press(&mut app, &[Key::Right, Key::Char('m')]);
    assert_eq!(app.mode, Mode::MoveProject);
    assert_eq!(app.move_cursor, 1);
    // alpha already lives in project one
    assert!(matches!(handle_key(&mut app, Key::Enter), Action::Nothing));
    assert_eq!(app.status.as_deref(), Some("already in that project"));
    press(&mut app, &[Key::Char('m'), Key::Up]);
    assert_eq!(app.move_cursor, 2);
    press(&mut app, &[Key::Down]);
    assert_eq!(app.move_cursor, 1);
    press(&mut app, &[Key::Char('k')]);
    match handle_key(&mut app, Key::Enter) {
        Action::MoveMemory { path, slug, name, description, dst_dir, label } => {
            assert_eq!(path, "/one/memory/alpha.md");
            assert_eq!(slug, "alpha");
            assert_eq!(name, "Name alpha");
            assert_eq!(description, "about alpha");
            assert_eq!(dst_dir, "/two/memory");
            assert_eq!(label, "two");
        }
        _ => panic!("expected a move"),
    }
}

#[test]
fn move_needs_two_projects() {
    let mut lib = library();
    lib.projects.truncate(1);
    lib.memories.truncate(3);
    let mut app = App::new(lib);
    press(&mut app, &[Key::Right, Key::Char('m')]);
    assert_eq!(app.status.as_deref(), Some("no other project to move to"));
}

#[test]
fn type_picker_starts_at_current_type_and_wraps() {
    let mut app = App::new(library());
    press(&mut app, &[Key::Right, Key::Down, Key::Char('t')]);
    assert_eq!(app.mode, Mode::PickType);
    assert_eq!(app.type_cursor, 1); // feedback
    press(&mut app, &[Key::Left, Key::Left]);
    assert_eq!(app.type_cursor, 3);
    press(&mut app, &[Key::Char('l')]);
    assert_eq!(app.type_cursor, 0);
    match handle_key(&mut app, Key::Enter) {
        Action::Retype { path, slug, new_type } => {
            assert_eq!(path, "/one/memory/beta.md");
            assert_eq!(slug, "beta");
            assert_eq!(new_type, "user");
        }
        _ => panic!("expected a retype"),
    }
    assert_eq!(app.mode, Mode::Normal);
}

#[test]
fn edit_requests_the_editor() {
    let mut app = App::new(library());
    press(&mut app, &[Key::Char('e')]);
    let req = app.pending_editor.take().unwrap();
    assert_eq!(req.path, "/one/memory/alpha.md");
    assert_eq!(req.mem_dir, "/one/memory");
    assert!(!req.is_new);
}

#[test]
fn quit_and_rescan_keys() {
    let mut app = App::new(library());
    assert!(matches!(handle_key(&mut app, Key::Char('r')), Action::Rescan));
    handle_key(&mut app, Key::Char('q'));
    assert!(app.should_quit);
}

#[test]
fn rescan_keeps_selection_in_range() {
    let mut app = App::new(library());
    press(&mut app, &[Key::Down, Key::Right, Key::Down, Key::Down]);
    assert_eq!(app.mem_cursor, 2);
    let mut smaller = library();
    smaller.projects[0].memory_idx = vec![0];
    app.rescan(smaller);
    assert_eq!(app.selected_project, 1);
    assert_eq!(app.mem_cursor, 0);
}

#[test]
fn type_names_and_parents() {
    assert_eq!(assignable_types(), vec!["user", "feedback", "project", "reference"]);
    assert_eq!(assignable_type(3), "reference");
    assert_eq!(parent_of(&"/a/b/c.md".to_string()), "/a/b");
    assert_eq!(parent_of(&"/c.md".to_string()), "/");
    assert_eq!(parent_of(&"c.md".to_string()), "");
}

#[test]
fn o_reveals_memory_or_opens_project_dir() {
    let mut app = App::new(library());
    // projects pane on ALL: nothing to open
    assert!(matches!(handle_key(&mut app, Key::Char('o')), Action::Nothing));
    handle_key(&mut app, Key::Down);
    match handle_key(&mut app, Key::Char('o')) {
        Action::OpenDir { mem_dir } => assert_eq!(mem_dir, "/one/memory"),
        _ => panic!("expected the project directory"),
    }
    handle_key(&mut app, Key::Tab);
    handle_key(&mut app, Key::Down);
    match handle_key(&mut app, Key::Char('o')) {
        Action::Reveal { path } => assert_eq!(path, "/one/memory/MEMORY.md"),
        _ => panic!("expected the memory file"),
    }
    assert_eq!(app.mode, Mode::Normal);
}

#[test]
fn after_actions_set_status_or_editor() {
    let mut app = App::new(library());
    assert!(after_action(&mut app, ActionOutcome::Deleted { slug: "x".into(), result: Ok(()) }));
    assert_eq!(app.status.as_deref(), Some("deleted x (backed up)"));
    assert!(after_action(&mut app, ActionOutcome::Deleted { slug: "x".into(), result: Err("nope".into()) }));
    assert_eq!(app.status.as_deref(), Some("delete failed: nope"));
    assert!(after_action(&mut app, ActionOutcome::ProjectDeleted { label: "one".into(), result: Ok(12) }));
    assert_eq!(app.status.as_deref(), Some("deleted one: 12 files (backed up)"));
    assert!(after_action(&mut app, ActionOutcome::Moved { slug: "a".into(), label: "two".into(), result: Ok(()) }));
    assert_eq!(app.status.as_deref(), Some("moved a → two"));
    assert!(after_action(&mut app, ActionOutcome::Retyped { slug: "a".into(), new_type: "user".into(), result: Ok(()) }));
    assert_eq!(app.status.as_deref(), Some("a type → user"));
    assert!(after_action(&mut app, ActionOutcome::Retyped { slug: "a".into(), new_type: "user".into(), result: Err("e".into()) }));
    assert_eq!(app.status.as_deref(), Some("retype failed: e"));
    app.status = None;
    assert!(!after_action(&mut app, ActionOutcome::Created { mem_dir: "/one/memory".into(), result: Ok("/one/memory/n.md".into()) }));
    let req = app.pending_editor.take().unwrap();
    assert_eq!(req.path, "/one/memory/n.md");
    assert!(req.is_new);
    assert_eq!(req.mem_dir, "/one/memory");
    assert!(app.status.is_none());
    assert!(!after_action(&mut app, ActionOutcome::Created { mem_dir: "/one/memory".into(), result: Err("file already exists".into()) }));
    assert_eq!(app.status.as_deref(), Some("create failed: file already exists"));
    assert!(!after_action(&mut app, ActionOutcome::Opened { result: Err("no".into()) }));
    assert_eq!(app.status.as_deref(), Some("open failed: no"));
}

#[test]
fn editor_session_backs_up_before_editing() {
    let mut app = App::new(library());
    let old = EditorRequest { path: "/one/memory/alpha.md".into(), is_new: false, mem_dir: "/one/memory".into() };
    assert!(matches!(editor_step(&mut app, &old, EditorEvent::Requested), EditorStep::Backup { .. }));
    assert!(matches!(editor_step(&mut app, &old, EditorEvent::BackedUp), EditorStep::Launch { .. }));
    assert!(matches!(editor_step(&mut app, &old, EditorEvent::BackupFailed("disk full".into())), EditorStep::Done));
    assert_eq!(app.status.as_deref(), Some("backup failed, not editing: disk full"));
    assert!(matches!(editor_step(&mut app, &old, EditorEvent::Exited { success: true }), EditorStep::Rescan));
    assert_eq!(app.status.as_deref(), Some("edited /one/memory/alpha.md"));
    assert!(matches!(editor_step(&mut app, &old, EditorEvent::Exited { success: false }), EditorStep::Rescan));
    assert_eq!(app.status.as_deref(), Some("editor exited non-zero"));
    assert!(matches!(editor_step(&mut app, &old, EditorEvent::LaunchFailed("vi: not found".into())), EditorStep::Rescan));
    assert_eq!(app.status.as_deref(), Some("failed to launch vi: not found"));

    let new = EditorRequest { path: "/one/memory/n.md".into(), is_new: true, mem_dir: "/one/memory".into() };
    app.status = None;
    assert!(matches!(editor_step(&mut app, &new, EditorEvent::Requested), EditorStep::Launch { .. }));
    match editor_step(&mut app, &new, EditorEvent::Exited { success: true }) {
        EditorStep::AppendIndex { mem_dir, path } => {
            assert_eq!(mem_dir, "/one/memory");
            assert_eq!(path, "/one/memory/n.md");
        }
        _ => panic!("a saved new memory is indexed"),
    }
    assert!(matches!(editor_step(&mut app, &new, EditorEvent::IndexAppended { slug: "n".into() }), EditorStep::Rescan));
    assert_eq!(app.status.as_deref(), Some("created n + indexed"));
    assert!(matches!(editor_step(&mut app, &new, EditorEvent::IndexFailed("e".into())), EditorStep::Rescan));
    assert_eq!(app.status.as_deref(), Some("created, but index update failed: e"));
    assert!(matches!(editor_step(&mut app, &new, EditorEvent::NewFileMissing), EditorStep::Rescan));
    assert_eq!(app.status.as_deref(), Some("new memory discarded"));
    assert!(matches!(editor_step(&mut app, &new, EditorEvent::Exited { success: false }), EditorStep::RemoveFile { .. }));
    assert_eq!(app.status.as_deref(), Some("new memory aborted"));
    assert!(matches!(editor_step(&mut app, &new, EditorEvent::FileRemoved), EditorStep::Rescan));
}

#[test]
fn longer_filter_only_narrows() {
    let mut short = App::new(library());
    short.filter = "e".to_string();
    let mut long = App::new(library());
    long.filter = "eta".to_string();
    let wide = short.current_memory_indices();
    let narrow = long.current_memory_indices();
    assert!(narrow.iter().all(|i| wide.contains(i)));
    assert_eq!(narrow, vec![2]);
}

#[test]
fn rescan_after_the_selected_project_is_gone() {
    let mut app = App::new(library());
    press(&mut app, &[Key::Up, Key::Right, Key::Down]);
    assert_eq!(app.selected_project, 2);
    let mut smaller = library();
    smaller.projects.truncate(1);
    smaller.memories.truncate(3);
    app.rescan(smaller);
    assert_eq!(app.selected_project, 0);
    assert_eq!(app.current_memory_indices(), vec![0, 2]);
    assert_eq!(app.mem_cursor, 0);
}

#[test]
fn move_cursor_wraps_within_the_projects() {
    let mut app = App::new(library());
    assert_eq!(app.mode, Mode::Normal);
    assert!(matches!(handle_move_key(&mut app, Key::Down), Action::Nothing));
    assert_eq!((app.move_cursor, app.mode), (2, Mode::Normal));
    handle_move_key(&mut app, Key::Char('j'));
    assert_eq!(app.move_cursor, 1);
    handle_move_key(&mut app, Key::Up);
    assert_eq!(app.move_cursor, 2);
    handle_move_key(&mut app, Key::Char('k'));
    assert_eq!((app.move_cursor, app.mode), (1, Mode::Normal));
}
