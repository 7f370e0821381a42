use auto_memories::mutate::MutateError;
use auto_memories::steps::{
    delete_memory_steps, delete_project_steps, link_memory_steps, move_memory_steps, retype_steps,
    DiskStep,
};

fn s(x: &str) -> String {
    x.to_string()
}

#[test]
fn delete_backs_up_before_removing() {
    let steps = delete_memory_steps(&s("/p/memory/a.md"), &s("a"));
    assert_eq!(steps.len(), 4);
    assert!(matches!(&steps[0], DiskStep::Backup { path } if path == "/p/memory/a.md"));
    assert!(matches!(&steps[1], DiskStep::RemoveFile { path } if path == "/p/memory/a.md"));
    assert!(matches!(&steps[2], DiskStep::BackupIndex { dir } if dir == "/p/memory"));
    assert!(matches!(&steps[3], DiskStep::UnlinkFromIndex { dir, slug } if dir == "/p/memory" && slug == "a"));
}

#[test]
fn move_backs_up_both_indexes() {
    let steps = move_memory_steps(
        &s("/p/memory/a.md"),
        &s("a"),
        &s("A"),
        &s("about a"),
        &s("/q/memory"),
        true,
        false,
    )
    .unwrap();
    assert_eq!(steps.len(), 6);
    assert!(matches!(&steps[0], DiskStep::Backup { path } if path == "/p/memory/a.md"));
    assert!(matches!(&steps[1], DiskStep::MoveInto { path, dst_dir } if path == "/p/memory/a.md" && dst_dir == "/q/memory"));
    assert!(matches!(&steps[2], DiskStep::BackupIndex { dir } if dir == "/p/memory"));
    assert!(matches!(&steps[3], DiskStep::UnlinkFromIndex { dir, slug } if dir == "/p/memory" && slug == "a"));
    assert!(matches!(&steps[4], DiskStep::BackupIndex { dir } if dir == "/q/memory"));
    assert!(matches!(&steps[5], DiskStep::LinkInIndex { dir, slug, name, description }
        if dir == "/q/memory" && slug == "a" && name == "A" && description == "about a"));
}

#[test]
fn move_refused_before_any_step() {
    let args = (s("/p/memory/a.md"), s("a"), s("A"), s(""), s("/q/memory"));
    let r = move_memory_steps(&args.0, &args.1, &args.2, &args.3, &args.4, true, true);
    assert!(matches!(r, Err(MutateError::TargetExists)));
    let r = move_memory_steps(&args.0, &args.1, &args.2, &args.3, &args.4, false, false);
    assert!(matches!(r, Err(MutateError::BadPath)));
}

#[test]
fn retype_backs_up_before_rewriting() {
    let steps = retype_steps(&s("/p/memory/a.md"), &s("user"));
    assert_eq!(steps.len(), 2);
    assert!(matches!(&steps[0], DiskStep::Backup { path } if path == "/p/memory/a.md"));
    assert!(matches!(&steps[1], DiskStep::SetType { path, new_type } if path == "/p/memory/a.md" && new_type == "user"));
}

#[test]
fn project_deletion_backs_up_each_file_first() {
    let files = vec![s("/p/memory/a.md"), s("/p/memory/MEMORY.md")];
    let steps = delete_project_steps(&s("/p/memory"), &files);
    assert_eq!(steps.len(), 5);
    for (k, f) in files.iter().enumerate() {
        assert!(matches!(&steps[2 * k], DiskStep::Backup { path } if path == f));
        assert!(matches!(&steps[2 * k + 1], DiskStep::RemoveFile { path } if path == f));
    }
    assert!(matches!(&steps[4], DiskStep::RemoveDirIfEmpty { dir } if dir == "/p/memory"));
    let none = delete_project_steps(&s("/e/memory"), &Vec::new());
    assert_eq!(none.len(), 1);
}

#[test]
fn new_memory_link_backs_up_the_index_first() {
    let steps = link_memory_steps(&s("/p/memory"), &s("a"), &s("A"), &s(""));
    assert_eq!(steps.len(), 2);
    assert!(matches!(&steps[0], DiskStep::BackupIndex { dir } if dir == "/p/memory"));
    assert!(matches!(&steps[1], DiskStep::LinkInIndex { dir, slug, name, description }
        if dir == "/p/memory" && slug == "a" && name == "A" && description.is_empty()));
}
