use auto_memories::memory::parse_str;
use auto_memories::mutate::{
    backup, create_memory, index_append, index_remove, move_memory, rewrite_type, sanitize_slug,
    slug_from_lowercase, MutateError,
};

#[test]
fn rewrite_type_flat() {
    let raw = "---\nname: x\ntype: feedback\n---\nbody\n";
    let out = rewrite_type(raw, "user");
    assert!(out.contains("type: user"));
    assert!(!out.contains("feedback"));
    assert!(out.ends_with("body\n"));
}

#[test]
fn rewrite_type_nested() {
    let raw = "---\nname: x\nmetadata:\n  type: project\n---\nbody\n";
    let out = rewrite_type(raw, "reference");
    assert!(out.contains("  type: reference"));
}

#[test]
fn rewrite_type_absent_inserts() {
    let raw = "---\nname: x\n---\nbody\n";
    let out = rewrite_type(raw, "user");
    assert!(out.contains("type: user"));
    assert!(out.contains("body"));
}

#[test]
fn rewrite_type_no_frontmatter_prepends() {
    let out = rewrite_type("just body\n", "user");
    assert!(out.starts_with("---\ntype: user\n---\n"));
    assert!(out.contains("just body"));
}

#[test]
fn rewrite_type_exact_texts() {
    assert_eq!(
        rewrite_type("---\nname: x\ntype: feedback\n---\nbody\n", "user"),
        "---\nname: x\ntype: user\n---\nbody\n"
    );
    assert_eq!(
        rewrite_type("---\nname: x\n---\nbody", "user"),
        "---\nname: x\ntype: user\n---\nbody"
    );
    assert_eq!(rewrite_type("just body\n", "user"), "---\ntype: user\n---\n\njust body\n");
    // an unclosed fence is treated as having no frontmatter
    assert_eq!(rewrite_type("---\nname: x", "user"), "---\ntype: user\n---\n\n---\nname: x");
    // only the first type line inside the frontmatter is rewritten
    assert_eq!(
        rewrite_type("---\n\ttype: a\ntype: b\n---\ntype: c\n", "user"),
        "---\n\ttype: user\ntype: b\n---\ntype: c\n"
    );
}

#[test]
fn retyped_memory_reads_back_with_new_type() {
    for t in ["user", "feedback", "project", "reference"] {
        let flat = rewrite_type("---\nname: x\ntype: feedback\n---\nbody\n", t);
        assert_eq!(parse_str(&flat, "x", "p", "d", "x.md").mtype, t);
        let untyped = rewrite_type("---\nname: x\ndescription: d\n---\nbody", t);
        assert_eq!(parse_str(&untyped, "x", "p", "d", "x.md").mtype, t);
        let marked = rewrite_type("\u{feff}---\nname: x\r\n---\r\nbody\r\n", t);
        assert_eq!(parse_str(&marked, "x", "p", "d", "x.md").mtype, t);
        assert_eq!(parse_str(&marked, "x", "p", "d", "x.md").name, "x");
        let bare = rewrite_type("no frontmatter at all", t);
        assert_eq!(parse_str(&bare, "x", "p", "d", "x.md").mtype, t);
        assert_eq!(parse_str(&bare, "x", "p", "d", "x.md").body, "no frontmatter at all");
    }
}

#[test]
fn create_then_retype() {
    let created = create_memory("fresh", false).unwrap();
    assert_eq!(created.file_name, "fresh.md");
    let raw = rewrite_type(&created.content, "user");
    assert!(raw.contains("  type: user"));
}

#[test]
fn new_memory_template() {
    let m = create_memory("my-note", false).unwrap();
    assert_eq!(
        m.content,
        "---\nname: my-note\ndescription: \nmetadata:\n  type: project\n---\n\n"
    );
    let parsed = parse_str(&m.content, "my-note", "p", "d", "my-note.md");
    assert_eq!(parsed.name, "my-note");
    assert_eq!(parsed.mtype, "project");
    assert_eq!(parsed.description, "");
    assert_eq!(parsed.body, "");
}

#[test]
fn create_refused_when_file_exists() {
    match create_memory("dup", true) {
        Err(e) => {
            assert_eq!(e, MutateError::AlreadyExists);
            assert_eq!(e.message(), "file already exists");
        }
        Ok(_) => panic!("creating over an existing file must fail"),
    }
}

#[test]
fn move_refusals() {
    assert_eq!(move_memory(false, false), Err(MutateError::BadPath));
    assert_eq!(move_memory(false, true), Err(MutateError::BadPath));
    assert_eq!(move_memory(true, true), Err(MutateError::TargetExists));
    assert_eq!(move_memory(true, false), Ok(()));
    assert_eq!(MutateError::BadPath.message(), "bad path");
    assert_eq!(
        MutateError::TargetExists.message(),
        "a file with that name exists in the target"
    );
}

#[test]
fn slug_sanitizes() {
    assert_eq!(sanitize_slug("  My Cool Memory! "), "my-cool-memory");
    assert_eq!(sanitize_slug("a--b__c"), "a-b-c");
    assert_eq!(sanitize_slug("***"), "");
}

#[test]
fn slug_lowercases_and_drops_non_ascii() {
    assert_eq!(sanitize_slug("ABC Def"), "abc-def");
    assert_eq!(sanitize_slug("Café Noir"), "caf-noir");
    assert_eq!(sanitize_slug("-x-"), "x");
    assert_eq!(sanitize_slug(""), "");
    assert_eq!(sanitize_slug("\t2024 Plans\n"), "2024-plans");
}

#[test]
fn slug_of_a_slug_is_itself() {
    for s in ["my-cool-memory", "a-b-c", "", "x1"] {
        assert_eq!(slug_from_lowercase(s), s);
        assert_eq!(sanitize_slug(s), s);
    }
    let once = sanitize_slug("  Some ~~ Title!! ");
    assert_eq!(once, "some-title");
    assert_eq!(sanitize_slug(&once), once);
}

#[test]
fn index_append_and_remove_text() {
    let raw = index_append("", "a-slug", "A Name", "the hook");
    let raw = index_append(&raw, "other", "Other", "");
    assert!(raw.contains("- [A Name](a-slug.md) — the hook"));
    assert!(raw.contains("- [Other](other.md)"));
    assert_eq!(raw, "- [A Name](a-slug.md) — the hook\n- [Other](other.md)\n");

    let raw = index_remove(&raw, "a-slug");
    assert!(!raw.contains("a-slug"));
    assert!(raw.contains("other.md"));
    assert_eq!(raw, "- [Other](other.md)\n");
}

#[test]
fn index_append_adds_missing_line_break() {
    assert_eq!(index_append("# Index", "s", "S", "d"), "# Index\n- [S](s.md) — d\n");
    assert_eq!(index_append("# Index\n", "s", "S", ""), "# Index\n- [S](s.md)\n");
}

#[test]
fn index_remove_keeps_trailing_break_only_when_present() {
    assert_eq!(index_remove("a\n- [X](x.md)\nb", "x"), "a\nb");
    assert_eq!(index_remove("a\n- [X](x.md)\n", "x"), "a\n");
    assert_eq!(index_remove("- [X](x.md)\n", "x"), "");
    assert_eq!(index_remove("", "x"), "");
    // both lines linking to the memory go
    assert_eq!(index_remove("(x.md)\nkeep\n- [X](x.md)\n", "x"), "keep\n");
}

#[test]
fn append_then_remove_restores_index() {
    let base = "# Memories\n- [Other](other.md)\n";
    let added = index_append(base, "new", "New", "hook");
    assert_eq!(index_remove(&added, "new"), index_remove(base, "new"));
    assert_eq!(index_remove(&added, "new"), base);
}

#[test]
fn delete_drops_index_line() {
    let created = create_memory("doomed", false).unwrap();
    assert_eq!(created.file_name, "doomed.md");
    let idx = index_append("", "doomed", "Doomed", "x");
    assert!(idx.contains("doomed"));
    assert!(!index_remove(&idx, "doomed").contains("doomed"));
}

#[test]
fn move_fixes_both_index_texts() {
    let src = index_append("", "wanderer", "Wanderer", "roams");
    assert_eq!(move_memory(true, false), Ok(()));
    let src_after = index_remove(&src, "wanderer");
    let dst_after = index_append("", "wanderer", "Wanderer", "roams");
    assert!(!src_after.contains("wanderer"));
    assert!(dst_after.contains("wanderer"));
}

#[test]
fn backup_names() {
    assert_eq!(
        backup(Some("-Users-jane-code-app"), Some("note.md"), 1700000000123),
        ("-Users-jane-code-app".to_string(), "note.md.1700000000123".to_string())
    );
    assert_eq!(backup(None, None, 0), ("unknown".to_string(), "file.md.0".to_string()));
}

#[test]
fn new_memory_retyped_reads_back() {
    let m = create_memory("fresh", false).unwrap();
    for t in ["user", "feedback", "reference"] {
        let raw = rewrite_type(&m.content, t);
        assert_eq!(parse_str(&raw, "fresh", "p", "d", "fresh.md").mtype, t);
        assert_eq!(
            raw,
            format!("---\nname: fresh\ndescription: \nmetadata:\n  type: {t}\n---\n\n")
        );
    }
}

#[test]
fn retype_keeps_name_description_and_body() {
    let cases = [
        "---\nname: N\ndescription: D\ntype: user\n---\nbody text\n\nmore\n",
        "---\nname: N\ndescription: D\nmetadata:\n  type: user\n---\nbody text\n\nmore",
        "---\nname: N\ndescription: D\n---\nbody text\n\nmore\n",
    ];
    for raw in cases {
        let before = parse_str(raw, "s", "p", "d", "s.md");
        let after = parse_str(&rewrite_type(raw, "reference"), "s", "p", "d", "s.md");
        assert_eq!(after.name, before.name);
        assert_eq!(after.description, before.description);
        assert_eq!(after.body, before.body);
        assert_eq!(after.body, "body text\n\nmore");
        assert_eq!(after.mtype, "reference");
    }
    // without a frontmatter there is no name or description before or after
    let plain = parse_str(&rewrite_type("text", "user"), "s", "p", "d", "s.md");
    assert_eq!(plain.name, "s");
    assert_eq!(plain.description, "");
}

#[test]
fn ascii_slug_is_lowercase_and_stable() {
    for input in ["Hello World", "  MIXED-case__Input  ", "a", "ABC123xyz"] {
        let s = sanitize_slug(input);
        assert!(s.chars().all(|c| c.is_ascii_lowercase() || c.is_ascii_digit() || c == '-'));
        assert!(!s.starts_with('-') && !s.ends_with('-') && !s.contains("--"));
        assert_eq!(sanitize_slug(&s), s);
    }
}

#[test]
fn new_memory_reads_back() {
    let m = create_memory("fresh-note", false).unwrap();
    let p = parse_str(&m.content, "fresh-note", "p", "d", "fresh-note.md");
    assert_eq!(p.name, "fresh-note");
    assert_eq!(p.description, "");
    assert_eq!(p.mtype, "project");
    assert_eq!(p.body, "");
}

#[test]
fn rewritten_type_reads_back() {
    let raw = "---\nname: x\nmetadata:\n  type: project\nother: y\n---\nbody\n";
    let out = rewrite_type(raw, "feedback");
    assert_eq!(out, "---\nname: x\nmetadata:\n  type: feedback\nother: y\n---\nbody\n");
    assert_eq!(parse_str(&out, "x", "p", "d", "x.md").mtype, "feedback");
}

#[test]
fn retyping_twice_is_retyping_once() {
    let texts = [
        "plain text\n",
        "",
        "---\nname: x\n---\nbody",
        "---\nname: x\nmetadata:\n  type: project\n---\nbody\n",
        "\u{feff}---\nname: x\ntype: user\n---\n",
    ];
    for raw in texts {
        for (a, b) in [("user", "feedback"), ("project", "project"), ("", "reference")] {
            assert_eq!(rewrite_type(&rewrite_type(raw, a), b), rewrite_type(raw, b));
        }
    }
}

#[test]
fn timestamps_have_fixed_shape_and_whole_minutes() {
    for secs in [0u64, 59, 1_000_000_000, 1_780_012_800, 253_402_300_799] {
        let t = auto_memories::display::fmt_ts(secs);
        assert_eq!(t.len(), 16);
        let b = t.as_bytes();
        assert_eq!((b[4], b[7], b[10], b[13]), (b'-', b'-', b' ', b':'));
        assert_eq!(t, auto_memories::display::fmt_ts(secs - secs % 60));
    }
}

#[test]
fn retype_without_frontmatter_keeps_body() {
    for raw in ["plain text\n", "  lead and trail  \n\n", "", "---\nunclosed\n", "a\nb\n\nc"] {
        let before = parse_str(raw, "s", "p", "d", "s.md");
        let after = parse_str(&rewrite_type(raw, "feedback"), "s", "p", "d", "s.md");
        assert_eq!(after.body, before.body);
        assert_eq!(after.mtype, "feedback");
    }
    let after = parse_str(&rewrite_type("---\nunclosed\n", "user"), "s", "p", "d", "s.md");
    assert_eq!(after.body, "---\nunclosed");
}

#[test]
fn slug_of_any_text_is_lowercase_and_stable() {
    for input in ["Ærø Ölfus", "ÀBC Ḉafé", "İstanbul KELVIN \u{212A}", "ΣΟΦΙΑ 42", "  ÉCOLE—Été  "] {
        let s = sanitize_slug(input);
        assert!(s.chars().all(|c| c.is_ascii_lowercase() || c.is_ascii_digit() || c == '-'));
        assert!(!s.starts_with('-') && !s.ends_with('-') && !s.contains("--"));
        assert_eq!(sanitize_slug(&s), s);
    }
    assert_eq!(sanitize_slug("ΣΟΦΙΑ 42"), "42");
    assert_eq!(sanitize_slug("İstanbul KELVIN \u{212A}"), "i-stanbul-kelvin-k");
}
