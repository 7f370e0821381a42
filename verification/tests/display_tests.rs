use auto_memories::display::{
    civil_from_unix, fmt_date, fmt_ts, linked_memory, parse_index_line, real_count, scope_stats,
    type_count,
};
use auto_memories::memory::{Library, Memory, Project};
use auto_memories::mutate::index_append;

#[test]
fn formats_unix_timestamps() {
    assert_eq!(fmt_ts(0), "1970-01-01 00:00");
    assert_eq!(fmt_ts(1_000_000_000), "2001-09-09 01:46");
    // Cross-checked with `date -u -r 1780012800`.
    assert_eq!(fmt_ts(1_780_012_800), "2026-05-29 00:00");
}

#[test]
fn formats_dates_and_leap_days() {
    assert_eq!(fmt_date(0), "1970-01-01");
    assert_eq!(fmt_date(86_399), "1970-01-01");
    assert_eq!(fmt_date(86_400), "1970-01-02");
    // 2000-02-29 (a leap day of a century divisible by 400)
    assert_eq!(fmt_date(951_782_400), "2000-02-29");
    assert_eq!(fmt_date(951_868_800), "2000-03-01");
    // 2100 is not a leap year
    assert_eq!(fmt_date(4_107_456_000), "2100-02-28");
    assert_eq!(fmt_date(4_107_542_400), "2100-03-01");
    assert_eq!(fmt_ts(1_700_000_000), "2023-11-14 22:13");
    assert!(fmt_ts(1_700_000_000).starts_with(&fmt_date(1_700_000_000)));
}

#[test]
fn civil_parts() {
    assert_eq!(civil_from_unix(0), (1970, 1, 1, 0, 0));
    assert_eq!(civil_from_unix(1_000_000_000), (2001, 9, 9, 1, 46));
    assert_eq!(civil_from_unix(86_399), (1970, 1, 1, 23, 59));
    assert_eq!(civil_from_unix(1_709_208_000), (2024, 2, 29, 12, 0));
    assert_eq!(civil_from_unix(253_402_300_799), (9999, 12, 31, 23, 59));
    assert_eq!(civil_from_unix(253_402_300_800), (10000, 1, 1, 0, 0));
}

#[test]
fn index_line_with_hook() {
    let (name, slug, desc) =
        parse_index_line("- [Pre-commit builds dist](precommit-builds-dist.md) — hook text")
            .unwrap();
    assert_eq!(name, "Pre-commit builds dist");
    assert_eq!(slug, "precommit-builds-dist");
    assert_eq!(desc, "hook text");
}

#[test]
fn index_line_without_hook() {
    let (name, slug, desc) = parse_index_line("- [Thing](thing.md)").unwrap();
    assert_eq!(name, "Thing");
    assert_eq!(slug, "thing");
    assert_eq!(desc, "");
}

#[test]
fn non_pointer_lines_pass_through() {
    assert!(parse_index_line("## Rules").is_none());
    assert!(parse_index_line("- plain bullet, no link").is_none());
    assert!(parse_index_line("").is_none());
}

#[test]
fn index_line_variants() {
    assert_eq!(
        parse_index_line("   - [A](a.md) -- dashes and spaces  "),
        Some(("A".to_string(), "a".to_string(), "dashes and spaces".to_string()))
    );
    assert_eq!(
        parse_index_line("- [A](a.md)\u{2013}en dash"),
        Some(("A".to_string(), "a".to_string(), "en dash".to_string()))
    );
    assert!(parse_index_line("- [A](a.txt) nope").is_none());
    assert!(parse_index_line("- [A] (a.md)").is_none());
}

#[test]
fn appended_pointer_reads_back() {
    let idx = index_append("# Index\n", "my-note", "My Note", "why it matters");
    let last = idx.lines().last().unwrap();
    assert_eq!(
        parse_index_line(last),
        Some(("My Note".to_string(), "my-note".to_string(), "why it matters".to_string()))
    );
}

fn mem(slug: &str, mtype: &str, created: Option<u64>) -> Memory {
    Memory {
        project: "p".to_string(),
        project_dir: "-p".to_string(),
        path: format!("/p/memory/{slug}.md"),
        slug: slug.to_string(),
        name: slug.to_string(),
        description: String::new(),
        mtype: mtype.to_string(),
        body: String::new(),
        created,
        modified: None,
    }
}

fn sample() -> Library {
    Library {
        memories: vec![
            mem("a", "user", Some(1_000)),
            mem("b", "feedback", Some(300_000)),
            mem("MEMORY", "index", Some(10)),
            mem("c", "user", None),
            mem("d", "?", Some(990_000)),
        ],
        projects: vec![Project {
            label: "p".to_string(),
            mem_dir: "/p/memory".to_string(),
            memory_idx: vec![0, 1, 2, 3, 4],
        }],
    }
}

#[test]
fn stats_over_scope() {
    let lib = sample();
    let idxs = vec![0, 1, 2, 3, 4];
    let now = 1_000_000;
    assert_eq!(real_count(&lib, &idxs), 4);
    assert_eq!(type_count(&lib, &idxs, "user"), 2);
    assert_eq!(type_count(&lib, &idxs, "feedback"), 1);
    assert_eq!(type_count(&lib, &idxs, "?"), 1);
    assert_eq!(type_count(&lib, &idxs, "index"), 0);
    let st = scope_stats(&lib, &idxs, now);
    assert_eq!(st.total, 4);
    // d is 10_000 s old; b 700_000 s and a 999_000 s (both under 30 days)
    assert_eq!(st.new_7d, 1);
    assert_eq!(st.new_30d, 3);
    assert!(st.new_7d <= st.new_30d && st.new_30d <= st.total);
    // the index entry's time does not count
    assert_eq!(st.oldest, Some(1_000));
    assert_eq!(st.newest, Some(990_000));
}

#[test]
fn stats_without_times() {
    let lib = sample();
    let st = scope_stats(&lib, &vec![3], 0);
    assert_eq!(st.total, 1);
    assert_eq!(st.oldest, None);
    assert_eq!(st.newest, None);
    let none = scope_stats(&lib, &vec![], 0);
    assert_eq!(none.total, 0);
    // a creation time in the future counts as just now
    let future = scope_stats(&lib, &vec![4], 0);
    assert_eq!(future.new_7d, 1);
}

#[test]
fn timestamps_sort_in_time_order() {
    let times = [0u64, 59, 60, 3_599, 3_600, 86_399, 86_400, 951_782_400, 1_000_000_000, 253_402_300_799];
    for w in times.windows(2) {
        assert!(fmt_ts(w[0]) <= fmt_ts(w[1]));
    }
}

#[test]
fn index_lines_resolve_to_memories_of_their_directory() {
    let m = |slug: &str, dir: &str| Memory {
        project: dir.to_string(),
        project_dir: dir.to_string(),
        path: format!("/{dir}/memory/{slug}.md"),
        slug: slug.to_string(),
        name: slug.to_string(),
        description: String::new(),
        mtype: "user".to_string(),
        body: String::new(),
        created: None,
        modified: None,
    };
    let lib = Library { memories: vec![m("a", "one"), m("b", "one"), m("a", "two")], projects: Vec::new() };
    assert_eq!(linked_memory(&lib, "a", "/two/memory"), Some(2));
    assert_eq!(linked_memory(&lib, "a", "/one/memory"), Some(0));
    assert_eq!(linked_memory(&lib, "b", "/two/memory"), None);
    assert_eq!(linked_memory(&lib, "c", "/one/memory"), None);
}
