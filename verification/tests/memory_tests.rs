use auto_memories::memory::{
    assemble, is_memory_file, file_slug, parse_str, short_label, split_frontmatter, FileEntry,
    Memory, ProjectListing,
};

// Thin wrapper over the real parser.
fn parse_inline(raw: &str, slug: &str) -> Memory {
    parse_str(raw, slug, "p", "d", "x.md")
}

#[test]
fn flat_frontmatter() {
    let raw = "---\nname: Don't sleep\ndescription: just run it\ntype: feedback\noriginSessionId: abc\n---\nbody line one\n\nbody line two\n";
    let m = parse_inline(raw, "no_sleep");
    assert_eq!(m.name, "Don't sleep");
    assert_eq!(m.description, "just run it");
    assert_eq!(m.mtype, "feedback");
    assert!(m.body.starts_with("body line one"));
    assert!(m.body.contains("body line two"));
}

#[test]
fn nested_metadata_type() {
    let raw = "---\nname: A fact\ndescription: d\nmetadata:\n  type: project\n---\nthe body\n";
    let m = parse_inline(raw, "slug");
    assert_eq!(m.mtype, "project");
    assert_eq!(m.name, "A fact");
}

#[test]
fn missing_frontmatter_falls_back_to_slug() {
    let m = parse_inline("just some text, no fences", "my_slug");
    assert_eq!(m.name, "my_slug");
    assert_eq!(m.mtype, "?");
    assert!(m.body.contains("just some text"));
}

#[test]
fn short_label_strips_to_project() {
    assert_eq!(short_label("-Users-jane-code-webapp"), "webapp");
    assert_eq!(short_label("-Users-jane-code-my-app"), "my-app");
}

#[test]
fn short_label_without_code_marker_drops_leading_dashes() {
    assert_eq!(short_label("--Users-jane-notes"), "Users-jane-notes");
    assert_eq!(short_label("-a-code-b-code-c"), "c");
    assert_eq!(short_label(""), "");
}

#[test]
fn parse_keeps_paths_and_trims_body() {
    let m = parse_str("---\nname: n\n---\n\n  body  \n\n", "s", "proj", "-dir", "/a/b/s.md");
    assert_eq!(m.project, "proj");
    assert_eq!(m.project_dir, "-dir");
    assert_eq!(m.path, "/a/b/s.md");
    assert_eq!(m.slug, "s");
    assert_eq!(m.body, "body");
    assert_eq!(m.created, None);
    assert_eq!(m.modified, None);
}

#[test]
fn quoted_values_are_unquoted() {
    let raw = "---\nname: \"Quoted\"\ndescription: 'single'\ntype:   user  \n---\n";
    let m = parse_inline(raw, "q");
    assert_eq!(m.name, "Quoted");
    assert_eq!(m.description, "single");
    assert_eq!(m.mtype, "user");
}

#[test]
fn indented_type_outside_metadata_is_ignored() {
    let raw = "---\nname: x\nother:\n  type: feedback\n---\nb\n";
    let m = parse_inline(raw, "x");
    assert_eq!(m.mtype, "?");
    // a later top-level key closes the metadata block
    let raw2 = "---\nmetadata:\nfoo: bar\n  type: feedback\n---\n";
    assert_eq!(parse_inline(raw2, "y").mtype, "?");
}

#[test]
fn unclosed_fence_is_all_body() {
    let raw = "---\nname: x\nno closing";
    let (front, body) = split_frontmatter(raw);
    assert_eq!(front, "");
    assert_eq!(body, raw);
    let m = parse_inline(raw, "slug");
    assert_eq!(m.name, "slug");
    assert_eq!(m.body, raw);
}

#[test]
fn bom_before_fence_is_tolerated() {
    let raw = "\u{feff}---\nname: Bom\n---  \nrest\n";
    let (front, body) = split_frontmatter(raw);
    assert_eq!(front, "name: Bom\n");
    assert_eq!(body, "rest\n");
    assert_eq!(parse_inline(raw, "b").name, "Bom");
}

#[test]
fn memory_files_exclude_the_index() {
    assert!(is_memory_file("note.md"));
    assert!(!is_memory_file("MEMORY.md"));
    assert!(!is_memory_file("memory.md"));
    assert!(!is_memory_file("Memory.md"));
    assert!(!is_memory_file("note.txt"));
    assert!(!is_memory_file(".md"));
    assert!(!is_memory_file("note.MD"));
    assert!(is_memory_file("a.b.md"));
    assert_eq!(file_slug("a.b.md"), "a.b");
    assert_eq!(file_slug("plain.md"), "plain");
}

fn entry(name: &str, raw: Option<&str>, created: Option<u64>) -> FileEntry {
    FileEntry {
        file_name: name.to_string(),
        path: format!("/m/{name}"),
        raw: raw.map(|r| r.to_string()),
        created,
        modified: None,
    }
}

#[test]
fn assemble_orders_filters_and_groups() {
    let listings = vec![
        ProjectListing {
            dir_name: "-Users-jane-code-zeta".to_string(),
            mem_dir: "/p/zeta/memory".to_string(),
            files: vec![
                entry("b.md", Some("---\nname: B\n---\nbee"), Some(5)),
                entry("MEMORY.md", Some("- [B](b.md)"), None),
                entry("a.md", Some("alpha"), None),
                entry("c.txt", Some("not a memory"), None),
                entry("unreadable.md", None, None),
            ],
        },
        ProjectListing {
            dir_name: "-Users-jane-code-empty".to_string(),
            mem_dir: "/p/empty/memory".to_string(),
            files: vec![entry("memory.md", Some("index"), None)],
        },
        ProjectListing {
            dir_name: "-Users-jane-code-alpha".to_string(),
            mem_dir: "/p/alpha/memory".to_string(),
            files: vec![entry("x.md", Some("---\ntype: user\n---\n"), None)],
        },
    ];
    let lib = assemble(&listings);
    // projects in directory-name order; the one without memories left out
    assert_eq!(lib.projects.len(), 2);
    assert_eq!(lib.projects[0].label, "alpha");
    assert_eq!(lib.projects[0].mem_dir, "/p/alpha/memory");
    assert_eq!(lib.projects[1].label, "zeta");
    assert_eq!(lib.memories.len(), 3);
    assert_eq!(lib.projects[0].memory_idx, vec![0]);
    assert_eq!(lib.projects[1].memory_idx, vec![1, 2]);
    assert_eq!(lib.memories[0].slug, "x");
    assert_eq!(lib.memories[0].mtype, "user");
    // files in name order
    assert_eq!(lib.memories[1].slug, "a");
    assert_eq!(lib.memories[1].body, "alpha");
    assert_eq!(lib.memories[2].slug, "b");
    assert_eq!(lib.memories[2].name, "B");
    assert_eq!(lib.memories[2].created, Some(5));
    assert_eq!(lib.memories[2].project, "zeta");
    assert_eq!(lib.memories[2].project_dir, "-Users-jane-code-zeta");
    for p in &lib.projects {
        for &i in &p.memory_idx {
            assert!(i < lib.memories.len());
        }
    }
    for m in &lib.memories {
        assert_ne!(m.slug.to_lowercase(), "memory");
    }
}

#[test]
fn assemble_of_nothing_is_empty() {
    let lib = assemble(&Vec::new());
    assert!(lib.memories.is_empty());
    assert!(lib.projects.is_empty());
}
