//! The disk work behind each mutation, as an ordered list of steps.  The
//! caller that owns the disk carries the steps out in order and stops at the
//! first one that fails; the lists here guarantee that a file, or a
//! directory's `MEMORY.md`, is always copied to the backups before any step
//! removes, moves or rewrites it.

use vstd::prelude::*;
use crate::app::{parent_dir, parent_of};
use crate::mutate::{move_memory, MutateError};

verus! {

/// One piece of disk work.
pub enum DiskStep {
    /// Copy the file into the backups.
    Backup { path: String },
    /// Copy the directory's `MEMORY.md` into the backups, when there is one.
    BackupIndex { dir: String },
    /// Remove the file.
    RemoveFile { path: String },
    /// Rename the file into `dst_dir`, under its own file name.
    MoveInto { path: String, dst_dir: String },
    /// Rewrite the file's `type:` (with `mutate::rewrite_type`), atomically.
    SetType { path: String, new_type: String },
    /// Drop the index lines that link to the slug (with
    /// `mutate::index_remove`); nothing when the directory has no index.
    UnlinkFromIndex { dir: String, slug: String },
    /// Append the memory's pointer line to the index (with
    /// `mutate::index_append`), starting one when there is none.
    LinkInIndex { dir: String, slug: String, name: String, description: String },
    /// Remove the directory if it is empty; that this fails is no failure.
    RemoveDirIfEmpty { dir: String },
}

/// A step, over plain text.
pub enum StepView {
    Backup(Seq<char>),
    BackupIndex(Seq<char>),
    RemoveFile(Seq<char>),
    MoveInto(Seq<char>, Seq<char>),
    SetType(Seq<char>, Seq<char>),
    UnlinkFromIndex(Seq<char>, Seq<char>),
    LinkInIndex(Seq<char>, Seq<char>, Seq<char>, Seq<char>),
    RemoveDirIfEmpty(Seq<char>),
}

impl View for DiskStep {
    type V = StepView;

    open spec fn view(&self) -> StepView {
        match self {
            DiskStep::Backup { path } => StepView::Backup(path@),
            DiskStep::BackupIndex { dir } => StepView::BackupIndex(dir@),
            DiskStep::RemoveFile { path } => StepView::RemoveFile(path@),
            DiskStep::MoveInto { path, dst_dir } => StepView::MoveInto(path@, dst_dir@),
            DiskStep::SetType { path, new_type } => StepView::SetType(path@, new_type@),
            DiskStep::UnlinkFromIndex { dir, slug } => StepView::UnlinkFromIndex(dir@, slug@),
            DiskStep::LinkInIndex { dir, slug, name, description } => StepView::LinkInIndex(
                dir@,
                slug@,
                name@,
                description@,
            ),
            DiskStep::RemoveDirIfEmpty { dir } => StepView::RemoveDirIfEmpty(dir@),
        }
    }
}

/// The steps, over plain text.
pub open spec fn steps_view(steps: Seq<DiskStep>) -> Seq<StepView> {
    steps.map_values(|s: DiskStep| s@)
}

/// The file that a step removes, moves away or rewrites.
pub open spec fn changed_file(s: StepView) -> Option<Seq<char>> {
    match s {
        StepView::RemoveFile(p) => Some(p),
        StepView::MoveInto(p, _) => Some(p),
        StepView::SetType(p, _) => Some(p),
        _ => None,
    }
}

/// The directory whose index a step rewrites.
pub open spec fn changed_index(s: StepView) -> Option<Seq<char>> {
    match s {
        StepView::UnlinkFromIndex(d, _) => Some(d),
        StepView::LinkInIndex(d, _, _, _) => Some(d),
        _ => None,
    }
}

/// Every step that removes, moves or rewrites a file, or rewrites an index,
/// comes after a step that copied that file, or that index, to the backups.
pub open spec fn backed_up_first(steps: Seq<StepView>) -> bool {
    &&& forall|i: int|
        0 <= i < steps.len() && #[trigger] changed_file(steps[i]) is Some ==> exists|j: int|
            0 <= j < i && steps[j] == StepView::Backup(changed_file(steps[i])->0)
    &&& forall|i: int|
        0 <= i < steps.len() && #[trigger] changed_index(steps[i]) is Some ==> exists|j: int|
            0 <= j < i && steps[j] == StepView::BackupIndex(changed_index(steps[i])->0)
}

fn copy_of(s: &String) -> (res: String)
    ensures
        res@ == s@,
{
    s.clone()
}

/// Deleting a memory: back the file up, remove it, then back up its
/// directory's index and drop the memory's pointer from it.
pub fn delete_memory_steps(path: &String, slug: &String) -> (res: Vec<DiskStep>)
    ensures
        steps_view(res@) == seq![
            StepView::Backup(path@),
            StepView::RemoveFile(path@),
            StepView::BackupIndex(parent_dir(path@)),
            StepView::UnlinkFromIndex(parent_dir(path@), slug@),
        ],
        backed_up_first(steps_view(res@)),
{
    let dir = parent_of(path);
    let res = vec![
        DiskStep::Backup { path: copy_of(path) },
        DiskStep::RemoveFile { path: copy_of(path) },
        DiskStep::BackupIndex { dir: copy_of(&dir) },
        DiskStep::UnlinkFromIndex { dir, slug: copy_of(slug) },
    ];
    let ghost v = steps_view(res@);
    assert(v =~= seq![
        StepView::Backup(path@),
        StepView::RemoveFile(path@),
        StepView::BackupIndex(parent_dir(path@)),
        StepView::UnlinkFromIndex(parent_dir(path@), slug@),
    ]);
    assert(v[0] == StepView::Backup(path@));
    assert(v[2] == StepView::BackupIndex(parent_dir(path@)));
    res
}

/// Moving a memory: refused as [`move_memory`] says; otherwise back the file
/// up, rename it into the target directory, then back up and fix the index
/// it left and the index it joined.
pub fn move_memory_steps(
    path: &String,
    slug: &String,
    name: &String,
    description: &String,
    dst_dir: &String,
    has_file_name: bool,
    target_exists: bool,
) -> (res: Result<Vec<DiskStep>, MutateError>)
    ensures
        !has_file_name ==> res == Err::<Vec<DiskStep>, MutateError>(MutateError::BadPath),
        has_file_name && target_exists ==> res == Err::<Vec<DiskStep>, MutateError>(
            MutateError::TargetExists,
        ),
        has_file_name && !target_exists ==> (res matches Ok(steps) && steps_view(steps@) == seq![
            StepView::Backup(path@),
            StepView::MoveInto(path@, dst_dir@),
            StepView::BackupIndex(parent_dir(path@)),
            StepView::UnlinkFromIndex(parent_dir(path@), slug@),
            StepView::BackupIndex(dst_dir@),
            StepView::LinkInIndex(dst_dir@, slug@, name@, description@),
        ] && backed_up_first(steps_view(steps@))),
{
    match move_memory(has_file_name, target_exists) {
        Err(e) => Err(e),
        Ok(()) => {
            let src = parent_of(path);
            let res = vec![
                DiskStep::Backup { path: copy_of(path) },
                DiskStep::MoveInto { path: copy_of(path), dst_dir: copy_of(dst_dir) },
                DiskStep::BackupIndex { dir: copy_of(&src) },
                DiskStep::UnlinkFromIndex { dir: src, slug: copy_of(slug) },
                DiskStep::BackupIndex { dir: copy_of(dst_dir) },
                DiskStep::LinkInIndex {
                    dir: copy_of(dst_dir),
                    slug: copy_of(slug),
                    name: copy_of(name),
                    description: copy_of(description),
                },
            ];
            let ghost v = steps_view(res@);
            assert(v =~= seq![
                StepView::Backup(path@),
                StepView::MoveInto(path@, dst_dir@),
                StepView::BackupIndex(parent_dir(path@)),
                StepView::UnlinkFromIndex(parent_dir(path@), slug@),
                StepView::BackupIndex(dst_dir@),
                StepView::LinkInIndex(dst_dir@, slug@, name@, description@),
            ]);
            assert(v[0] == StepView::Backup(path@));
            assert(v[2] == StepView::BackupIndex(parent_dir(path@)));
            assert(v[4] == StepView::BackupIndex(dst_dir@));
            Ok(res)
        },
    }
}

/// Retyping a memory: back the file up, then rewrite its `type:`.
pub fn retype_steps(path: &String, new_type: &String) -> (res: Vec<DiskStep>)
    ensures
        steps_view(res@) == seq![StepView::Backup(path@), StepView::SetType(path@, new_type@)],
        backed_up_first(steps_view(res@)),
{
    let res = vec![
        DiskStep::Backup { path: copy_of(path) },
        DiskStep::SetType { path: copy_of(path), new_type: copy_of(new_type) },
    ];
    let ghost v = steps_view(res@);
    assert(v =~= seq![StepView::Backup(path@), StepView::SetType(path@, new_type@)]);
    assert(v[0] == StepView::Backup(path@));
    res
}

/// Listing a new memory in its directory's index: back the index up, then
/// append the memory's pointer line.
pub fn link_memory_steps(dir: &String, slug: &String, name: &String, description: &String) -> (res:
    Vec<DiskStep>)
    ensures
        steps_view(res@) == seq![
            StepView::BackupIndex(dir@),
            StepView::LinkInIndex(dir@, slug@, name@, description@),
        ],
        backed_up_first(steps_view(res@)),
{
    let res = vec![
        DiskStep::BackupIndex { dir: copy_of(dir) },
        DiskStep::LinkInIndex {
            dir: copy_of(dir),
            slug: copy_of(slug),
            name: copy_of(name),
            description: copy_of(description),
        },
    ];
    let ghost v = steps_view(res@);
    assert(v =~= seq![
        StepView::BackupIndex(dir@),
        StepView::LinkInIndex(dir@, slug@, name@, description@),
    ]);
    assert(v[0] == StepView::BackupIndex(dir@));
    res
}

/// Deleting a project: back up and remove each of its files in turn, then
/// remove its memory directory if that left it empty.
pub fn delete_project_steps(mem_dir: &String, files: &Vec<String>) -> (res: Vec<DiskStep>)
    requires
        2 * files@.len() + 1 <= usize::MAX,
    ensures
        steps_view(res@).len() == 2 * files@.len() + 1,
        forall|k: int|
            0 <= k < files@.len() ==> steps_view(res@)[2 * k] == StepView::Backup(
                #[trigger] files@[k]@,
            ) && steps_view(res@)[2 * k + 1] == StepView::RemoveFile(files@[k]@),
        steps_view(res@).last() == StepView::RemoveDirIfEmpty(mem_dir@),
        backed_up_first(steps_view(res@)),
{
    let mut res: Vec<DiskStep> = Vec::new();
    let mut k: usize = 0;
    while k < files.len()
        invariant
            k <= files@.len(),
            2 * files@.len() + 1 <= usize::MAX,
            res@.len() == 2 * k,
            forall|m: int|
                0 <= m < k ==> res@[2 * m]@ == StepView::Backup(#[trigger] files@[m]@)
                    && res@[2 * m + 1]@ == StepView::RemoveFile(files@[m]@),
        decreases files@.len() - k,
    {
        res.push(DiskStep::Backup { path: copy_of(&files[k]) });
        res.push(DiskStep::RemoveFile { path: copy_of(&files[k]) });
        proof {
            assert forall|m: int|
                0 <= m < k + 1 implies res@[2 * m]@ == StepView::Backup(#[trigger] files@[m]@)
                && res@[2 * m + 1]@ == StepView::RemoveFile(files@[m]@) by {
                if m == k {
                    assert(res@[2 * m]@ == StepView::Backup(files@[m]@));
                }
            }
        }
        k += 1;
    }
    res.push(DiskStep::RemoveDirIfEmpty { dir: copy_of(mem_dir) });
    let ghost v = steps_view(res@);
    assert forall|k: int|
        0 <= k < files@.len() implies v[2 * k] == StepView::Backup(#[trigger] files@[k]@)
        && v[2 * k + 1] == StepView::RemoveFile(files@[k]@) by {
        assert(res@[2 * k]@ == StepView::Backup(files@[k]@));
    }
    assert(v.last() == StepView::RemoveDirIfEmpty(mem_dir@));
    assert forall|i: int| 0 <= i < v.len() && #[trigger] changed_file(v[i]) is Some implies exists|
        j: int,
    | 0 <= j < i && v[j] == StepView::Backup(changed_file(v[i])->0) by {
        let m = i / 2;
        assert(i == 2 * m || i == 2 * m + 1);
        if i == v.len() - 1 {
            assert(changed_file(v[i]) is None);
        } else {
            assert(0 <= m < files@.len());
            assert(v[2 * m] == StepView::Backup(files@[m]@));
            assert(v[2 * m + 1] == StepView::RemoveFile(files@[m]@));
            assert(i == 2 * m + 1);
        }
    }
    assert forall|i: int| 0 <= i < v.len() && #[trigger] changed_index(v[i]) is Some implies exists|
        j: int,
    | 0 <= j < i && v[j] == StepView::BackupIndex(changed_index(v[i])->0) by {
        let m = i / 2;
        if i < v.len() - 1 {
            assert(0 <= m < files@.len());
            assert(v[2 * m] == StepView::Backup(files@[m]@));
            assert(v[2 * m + 1] == StepView::RemoveFile(files@[m]@));
            assert(i == 2 * m || i == 2 * m + 1);
        }
    }
    res
}

} // verus!
