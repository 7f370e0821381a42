use auto_memories::app::{App, Key, Mode};
use auto_memories::keys::handle_key;
use auto_memories::memory::{Library, Memory, Project};
use auto_memories::screen::{
    detail, header_summary, index_ledger, memories_title, memory_rows, project_rows, stats_segments,
    status_segments, type_tone, DetailBody, LedgerLine, SegKind, Segment, Tone,
};

fn mem(slug: &str, dir: &str, mtype: &str, body: &str) -> Memory {
    Memory {
        project: dir.to_string(),
        project_dir: format!("-{dir}"),
        path: format!("/{dir}/memory/{slug}.md"),
        slug: slug.to_string(),
        name: format!("Name {slug}"),
        description: format!("about {slug}"),
        mtype: mtype.to_string(),
        body: body.to_string(),
        created: None,
        modified: None,
    }
}

fn library() -> Library {
    let mut index = mem("MEMORY", "one", "index", "# Notes\n- [Name alpha](alpha.md) — rust\n- [Gone](gone.md)\nplain line");
    index.description = String::new();
    let mut alpha = mem("alpha", "one", "user", "Rust notes\nsecond line");
    alpha.created = Some(0);
    alpha.modified = Some(86_400);
    Library {
        memories: vec![alpha, index, mem("beta", "one", "feedback", "testing"), mem("gamma", "two", "project", "")],
        projects: vec![
            Project { label: "one".to_string(), mem_dir: "/one/memory".to_string(), memory_idx: vec![0, 1, 2] },
            Project { label: "two".to_string(), mem_dir: "/two/memory".to_string(), memory_idx: vec![3] },
        ],
    }
}

fn texts(segs: &[Segment]) -> Vec<String> {
    segs.iter().map(|s| s.text.clone()).collect()
}

#[test]
fn types_have_their_tones() {
    assert_eq!(type_tone("feedback"), Tone::Amber);
    assert_eq!(type_tone("project"), Tone::Cyan);
    assert_eq!(type_tone("reference"), Tone::Phosphor);
    assert_eq!(type_tone("user"), Tone::Magenta);
    assert_eq!(type_tone("index"), Tone::Paper);
    assert_eq!(type_tone("?"), Tone::Faint);
    assert_eq!(type_tone("User"), Tone::Faint);
}

#[test]
fn index_is_shown_as_a_ledger() {
    let lib = library();
    let ledger = index_ledger(&lib, &lib.memories[1]);
    assert_eq!(ledger.len(), 5);
    assert!(matches!(&ledger[0], LedgerLine::Blank));
    assert!(matches!(&ledger[1], LedgerLine::Heading(h) if h == "NOTES"));
    assert!(matches!(&ledger[2], LedgerLine::Entry { name, hook, tone }
        if name == "Name alpha" && hook == "rust" && *tone == Tone::Magenta));
    assert!(matches!(&ledger[3], LedgerLine::Entry { name, hook, tone }
        if name == "Gone" && hook.is_empty() && *tone == Tone::Faint));
    assert!(matches!(&ledger[4], LedgerLine::Plain(p) if p == "plain line"));
}

#[test]
fn ledger_links_only_within_the_index_directory() {
    let mut lib = library();
    lib.memories[1].path = "/two/memory/MEMORY.md".to_string();
    lib.memories[1].body = "## Über  \n- [x](gamma.md)\n- [y](alpha.md)".to_string();
    let ledger = index_ledger(&lib, &lib.memories[1]);
    assert!(matches!(&ledger[1], LedgerLine::Heading(h) if h == "ÜBER"));
    assert!(matches!(&ledger[2], LedgerLine::Entry { tone, .. } if *tone == Tone::Cyan));
    assert!(matches!(&ledger[3], LedgerLine::Entry { tone, .. } if *tone == Tone::Faint));
}

#[test]
fn header_and_panes() {
    let lib = library();
    assert_eq!(header_summary(&lib), "  3 memories across 2 projects");
    let rows = project_rows(&lib);
    assert_eq!(rows.len(), 3);
    assert_eq!((rows[0].label.as_str(), rows[0].count), ("ALL PROJECTS", 3));
    assert_eq!((rows[1].label.as_str(), rows[1].count), ("one", 2));
    assert_eq!((rows[2].label.as_str(), rows[2].count), ("two", 1));

    let mut app = App::new(lib);
    assert_eq!(memories_title(&app), "MEMORIES [3]");
    let mrows = memory_rows(&app);
    assert_eq!(mrows.len(), 3);
    assert_eq!(mrows[0].name, "Name alpha");
    assert_eq!(mrows[0].tone, Tone::Magenta);
    assert_eq!(mrows[0].project.as_deref(), Some("one"));
    handle_key(&mut app, Key::Down);
    let mrows = memory_rows(&app);
    assert!(mrows.iter().all(|r| r.project.is_none()));
    for k in [Key::Char('/'), Key::Char('r'), Key::Char('u')] {
        handle_key(&mut app, k);
    }
    assert_eq!(memories_title(&app), "MEMORIES [2] /ru");
}

#[test]
fn detail_of_the_selected_memory() {
    let mut app = App::new(library());
    let d = detail(&app).unwrap();
    assert_eq!(d.name, "Name alpha");
    assert_eq!(d.file, "alpha.md");
    assert_eq!(d.tone, Tone::Magenta);
    assert_eq!(d.created, "1970-01-01 00:00");
    assert_eq!(d.modified, "1970-01-02 00:00");
    assert_eq!(d.description.as_deref(), Some("about alpha"));
    assert!(matches!(&d.body, DetailBody::Text(t) if t.len() == 2 && t[1] == "second line"));
    // the index entry of project one
    press(&mut app, &[Key::Down, Key::Right, Key::Down]);
    let d = detail(&app).unwrap();
    assert_eq!(d.mtype, "index");
    assert_eq!(d.created, "?");
    assert!(d.description.is_none());
    assert!(matches!(&d.body, DetailBody::Ledger(l) if l.len() == 5));
    // nothing selected
    let mut empty = library();
    empty.memories.clear();
    empty.projects.clear();
    assert!(detail(&App::new(empty)).is_none());
}

fn press(app: &mut App, keys: &[Key]) {
    for &k in keys {
        handle_key(app, k);
    }
}

#[test]
fn status_line_in_each_mode() {
    let mut app = App::new(library());
    let help = status_segments(&app);
    assert_eq!(help.len(), 21);
    assert_eq!(help[1].text, " ↑↓/jk ");
    assert_eq!(help[1].kind, SegKind::Badge);
    assert_eq!(help[20].text, " quit   ");

    press(&mut app, &[Key::Char('/'), Key::Char('x')]);
    assert_eq!(texts(&status_segments(&app)), vec![" SEARCH ", " /x", "▏", "   [enter] apply  [esc] cancel"]);
    press(&mut app, &[Key::Backspace, Key::Esc]);

    press(&mut app, &[Key::Right, Key::Char('d')]);
    assert_eq!(app.mode, Mode::ConfirmDelete);
    assert_eq!(status_segments(&app)[1].text, " alpha.md — sure? ");
    press(&mut app, &[Key::Esc]);

    press(&mut app, &[Key::Char('t')]);
    assert_eq!(app.mode, Mode::PickType);
    let picks = status_segments(&app);
    assert_eq!(picks.len(), 11);
    assert_eq!((picks[2].text.as_str(), picks[2].kind, picks[2].tone), (" user ", SegKind::Chosen, Tone::Magenta));
    assert_eq!((picks[4].text.as_str(), picks[4].kind), (" feedback ", SegKind::Text));
    press(&mut app, &[Key::Esc]);

    press(&mut app, &[Key::Left, Key::Down, Key::Char('d')]);
    assert_eq!(app.mode, Mode::ConfirmDeleteProject);
    assert_eq!(status_segments(&app)[1].text, " one — all 3 files — sure? ");
}

#[test]
fn stats_strip() {
    let lib = library();
    let (counts, recency) = stats_segments(&lib, &vec![0, 1, 2, 3], 86_400 * 3);
    assert_eq!(texts(&counts), vec!["3 ", "· ", "user 1  ", "feedback 1  ", "project 1  "]);
    assert_eq!(counts[0].kind, SegKind::Strong);
    assert_eq!(counts[2].tone, Tone::Magenta);
    assert_eq!(texts(&recency), vec!["  ", "new 7d: 1  30d: 1", "  ·  1970-01-01 → 1970-01-01"]);
    let (counts, recency) = stats_segments(&lib, &vec![3], 0);
    assert_eq!(texts(&counts), vec!["1 ", "· ", "project 1  "]);
    assert_eq!(recency[2].text, "  ·  no timestamps");
}
