//! Application state, selection, filtering and modes, and the decisions
//! taken on each key press.  Work on disk and in the terminal is left to the
//! caller: a key handler returns an [`Action`] to perform.

use vstd::prelude::*;
use crate::memory::{library_wf, Library, Memory};
use crate::text::{
    chars_eq, chars_of, contains, contains_chars, lower, rfind,
    rfind_chars, slice, string_of, to_lowercase, lemma_last_match_below,
};

verus! {

/// Which pane has the focus.
#[derive(Clone, Copy, PartialEq, Eq, Structural, Debug)]
pub enum Focus {
    Projects,
    Memories,
}

/// What the keys currently do.
#[derive(Clone, Copy, PartialEq, Eq, Structural, Debug)]
pub enum Mode {
    Normal,
    Filter,
    ConfirmDelete,
    ConfirmDeleteProject,
    NewSlug,
    MoveProject,
    PickType,
}

/// A request to suspend the terminal and open `$EDITOR` on a file.
pub struct EditorRequest {
    pub path: String,
    /// Newly created file: indexed on save, removed again on editor abort.
    pub is_new: bool,
    /// The memory directory owning `path`, for index updates.
    pub mem_dir: String,
}

/// A key press, as the browser distinguishes them.
#[derive(Clone, Copy, PartialEq, Eq, Structural, Debug)]
pub enum Key {
    Char(char),
    Esc,
    Enter,
    Backspace,
    Tab,
    BackTab,
    Left,
    Right,
    Up,
    Down,
    PageUp,
    PageDown,
    Other,
}

/// Work outside the browser that a key press asks for.  After a rescan, a
/// deletion, a move or a retype the library is scanned again.
pub enum Action {
    Nothing,
    Rescan,
    /// Show the memory file in the file manager.
    Reveal { path: String },
    /// Open a project's memory directory in the file manager.
    OpenDir { mem_dir: String },
    /// Back up and delete the memory file, and drop its index line.
    DeleteMemory { path: String, slug: String },
    /// Back up and delete every file of a project's memory directory.
    DeleteProject { mem_dir: String, label: String },
    /// Create `<slug>.md` in the directory and open it in the editor.
    CreateMemory { mem_dir: String, slug: String },
    /// Move the memory into another project and fix both indexes.
    MoveMemory {
        path: String,
        slug: String,
        name: String,
        description: String,
        dst_dir: String,
        label: String,
    },
    /// Rewrite the memory's `type`.
    Retype { path: String, slug: String, new_type: String },
}

/// The assignable memory types (`index` is reserved for `MEMORY.md`).
pub open spec fn type_names() -> Seq<Seq<char>> {
    seq!["user"@, "feedback"@, "project"@, "reference"@]
}

/// The assignable memory types, in the order the type picker shows them.
pub fn assignable_types() -> (res: Vec<&'static str>)
    ensures
        res@.len() == 4,
        forall|i: int| 0 <= i < 4 ==> #[trigger] res@[i]@ == type_names()[i],
{
    vec!["user", "feedback", "project", "reference"]
}

/// The name of the assignable type at `i`.
pub fn assignable_type(i: usize) -> (res: &'static str)
    requires
        i < 4,
    ensures
        res@ == type_names()[i as int],
{
    if i == 0 {
        "user"
    } else if i == 1 {
        "feedback"
    } else if i == 2 {
        "project"
    } else {
        "reference"
    }
}

/// The type of the `MEMORY.md` index entries.
pub open spec fn is_index_memory(m: Memory) -> bool {
    m.mtype@ == "index"@
}

/// The positions below `n` of memories that are not index entries.
pub open spec fn non_index_upto(mems: Seq<Memory>, n: nat) -> Seq<usize>
    decreases n,
{
    if n == 0 {
        Seq::empty()
    } else {
        let r = non_index_upto(mems, (n - 1) as nat);
        if !is_index_memory(mems[n - 1]) {
            r.push((n - 1) as usize)
        } else {
            r
        }
    }
}

/// A field matches a lower-cased query when its lower-cased text holds it.
pub open spec fn field_matches(f: Seq<char>, q: Seq<char>) -> bool {
    contains(lower(f), q)
}

/// The filter matches name, description, slug, type or body.
pub open spec fn memory_matches(m: Memory, q: Seq<char>) -> bool {
    ||| field_matches(m.name@, q)
    ||| field_matches(m.description@, q)
    ||| field_matches(m.slug@, q)
    ||| field_matches(m.mtype@, q)
    ||| field_matches(m.body@, q)
}

/// The indices whose memories match the query, in order.
pub open spec fn matching(idxs: Seq<usize>, mems: Seq<Memory>, q: Seq<char>) -> Seq<usize>
    decreases idxs.len(),
{
    if idxs.len() == 0 {
        Seq::empty()
    } else {
        let r = matching(idxs.drop_last(), mems, q);
        if memory_matches(mems[idxs.last() as int], q) {
            r.push(idxs.last())
        } else {
            r
        }
    }
}

/// The parent directory of a path: what precedes its last `/` (`/` itself
/// for a file at the root, empty without any `/`).
pub open spec fn parent_dir(path: Seq<char>) -> Seq<char> {
    match rfind(path, seq!['/']) {
        Some(i) => if i == 0 {
            seq!['/']
        } else {
            path.take(i)
        },
        None => Seq::empty(),
    }
}

pub fn parent_of(path: &String) -> (res: String)
    ensures
        res@ == parent_dir(path@),
{
    let p = chars_of(path.as_str());
    let slash = vec!['/'];
    assert(slash@ =~= seq!['/']);
    match rfind_chars(&p, &slash) {
        Some(i) => {
            proof {
                lemma_last_match_below(p@, slash@, p@.len() + 1);
            }
            if i == 0 {
                string_of(&slash)
            } else {
                string_of(&slice(&p, 0, i))
            }
        },
        None => String::new(),
    }
}

/// The browser's state.
pub struct App {
    pub library: Library,
    /// 0 = the synthetic "ALL PROJECTS" entry; 1.. = `library.projects[i-1]`.
    pub selected_project: usize,
    /// The cursor in the memories pane.
    pub mem_cursor: usize,
    pub focus: Focus,
    pub mode: Mode,
    pub filter: String,
    /// Text being typed in `NewSlug` mode.
    pub input: String,
    /// `MoveProject` cursor into the projects pane (1.. since ALL is no target).
    pub move_cursor: usize,
    /// `PickType` cursor into the assignable types.
    pub type_cursor: usize,
    /// One-shot message shown in the status line until the next key press.
    pub status: Option<String>,
    pub pending_editor: Option<EditorRequest>,
    pub detail_scroll: u16,
    pub should_quit: bool,
}

impl App {
    /// The state every operation keeps: the library's grouping is valid, the
    /// selected project exists, and each mode's cursor points at something.
    pub open spec fn wf(&self) -> bool {
        &&& self.core_wf()
        &&& self.mode == Mode::NewSlug ==> self.selected_project > 0
    }

    /// [`App::wf`] without the demand on the `NewSlug` mode.
    pub open spec fn core_wf(&self) -> bool {
        &&& library_wf(&self.library)
        &&& self.selected_project <= self.library.projects@.len()
        &&& self.type_cursor < 4
        &&& self.mode == Mode::MoveProject ==> 1 <= self.move_cursor
            <= self.library.projects@.len()
    }

    /// The projects pane's length: the projects and the ALL entry.
    pub open spec fn project_count_spec(&self) -> int {
        self.library.projects@.len() + 1int
    }

    /// The memories shown: those of the selected project (all but the index
    /// entries for ALL), narrowed by the filter when there is one.
    pub open spec fn visible(&self) -> Seq<usize> {
        let mems = self.library.memories@;
        let base = if self.selected_project == 0 {
            non_index_upto(mems, mems.len())
        } else {
            self.library.projects@[self.selected_project - 1].memory_idx@
        };
        if self.filter@.len() == 0 {
            base
        } else {
            matching(base, mems, lower(self.filter@))
        }
    }

    /// The memory cursor kept within the visible memories.
    pub open spec fn clamped_cursor(&self) -> usize {
        if self.visible().len() == 0 {
            0
        } else if self.mem_cursor < self.visible().len() {
            self.mem_cursor
        } else {
            (self.visible().len() - 1) as usize
        }
    }

    /// The selected project kept within the projects pane: one past the
    /// last project falls back to the ALL entry.
    pub open spec fn reselected(self) -> App {
        App {
            selected_project: if self.selected_project > self.library.projects@.len() {
                0
            } else {
                self.selected_project
            },
            ..self
        }
    }

    /// The memory cursor kept within the visible memories.
    pub open spec fn clamped(self) -> App {
        App { mem_cursor: self.clamped_cursor(), ..self }
    }

    /// The state after [`App::next_project`].
    pub open spec fn after_next_project(self) -> App {
        App {
            selected_project: ((self.selected_project + 1int) % self.project_count_spec()) as usize,
            mem_cursor: 0,
            detail_scroll: 0,
            ..self
        }
    }

    /// The state after [`App::prev_project`].
    pub open spec fn after_prev_project(self) -> App {
        App {
            selected_project: ((self.selected_project + self.project_count_spec() - 1int)
                % self.project_count_spec()) as usize,
            mem_cursor: 0,
            detail_scroll: 0,
            ..self
        }
    }

    /// The state after [`App::next_memory`].
    pub open spec fn after_next_memory(self) -> App {
        if self.visible().len() == 0 {
            self
        } else {
            App {
                mem_cursor: ((self.mem_cursor + 1int) % (self.visible().len() as int)) as usize,
                detail_scroll: 0,
                ..self
            }
        }
    }

    /// The state after [`App::prev_memory`].
    pub open spec fn after_prev_memory(self) -> App {
        if self.visible().len() == 0 {
            self
        } else {
            App {
                mem_cursor: ((self.mem_cursor + self.visible().len() - 1int) % (
                self.visible().len() as int)) as usize,
                detail_scroll: 0,
                ..self
            }
        }
    }

    /// The state after [`App::scroll_detail_down`].
    pub open spec fn after_scroll_down(self) -> App {
        App {
            detail_scroll: if self.detail_scroll + 4 > u16::MAX {
                u16::MAX
            } else {
                (self.detail_scroll + 4) as u16
            },
            ..self
        }
    }

    /// The state after [`App::scroll_detail_up`].
    pub open spec fn after_scroll_up(self) -> App {
        App {
            detail_scroll: if self.detail_scroll < 4 {
                0
            } else {
                (self.detail_scroll - 4) as u16
            },
            ..self
        }
    }

    /// The memory under the cursor, by its position in the library.
    pub open spec fn selected_spec(&self) -> Option<usize> {
        if self.mem_cursor < self.visible().len() {
            Some(self.visible()[self.mem_cursor as int])
        } else {
            None
        }
    }

    /// A fresh browser over a scanned library: ALL selected, projects pane
    /// focused, no filter.
    pub fn new(library: Library) -> (app: App)
        requires
            library_wf(&library),
        ensures
            app.wf(),
            app.library == library,
            app.selected_project == 0,
            app.mem_cursor == 0,
            app.focus == Focus::Projects,
            app.mode == Mode::Normal,
            app.filter@.len() == 0,
            app.input@.len() == 0,
            app.move_cursor == 1,
            app.type_cursor == 0,
            app.status is None,
            app.pending_editor is None,
            app.detail_scroll == 0,
            !app.should_quit,
    {
        App {
            library,
            selected_project: 0,
            mem_cursor: 0,
            focus: Focus::Projects,
            mode: Mode::Normal,
            filter: String::new(),
            input: String::new(),
            move_cursor: 1,
            type_cursor: 0,
            status: None,
            pending_editor: None,
            detail_scroll: 0,
            should_quit: false,
        }
    }

    fn project_count(&self) -> (n: usize)
        requires
            library_wf(&self.library),
        ensures
            n == self.project_count_spec(),
    {
        self.library.projects.len() + 1
    }

    fn is_index(m: &Memory) -> (res: bool)
        ensures
            res == is_index_memory(*m),
    {
        chars_eq(&chars_of(m.mtype.as_str()), &chars_of("index"))
    }

    fn field_contains(f: &String, q: &Vec<char>) -> (res: bool)
        ensures
            res == field_matches(f@, q@),
    {
        let l = to_lowercase(f.as_str());
        contains_chars(&chars_of(l.as_str()), q)
    }

    fn matches(m: &Memory, q: &Vec<char>) -> (res: bool)
        ensures
            res == memory_matches(*m, q@),
    {
        Self::field_contains(&m.name, q) || Self::field_contains(&m.description, q)
            || Self::field_contains(&m.slug, q) || Self::field_contains(&m.mtype, q)
            || Self::field_contains(&m.body, q)
    }

    /// Indices into `library.memories` for the current project and filter.
    pub fn current_memory_indices(&self) -> (res: Vec<usize>)
        requires
            self.core_wf(),
        ensures
            res@ == self.visible(),
            forall|k: int| 0 <= k < res@.len() ==> #[trigger] res@[k] < self.library.memories@.len(),
    {
        let mems = &self.library.memories;
        let mut base: Vec<usize> = Vec::new();
        if self.selected_project == 0 {
            let mut i: usize = 0;
            while i < mems.len()
                invariant
                    i <= mems@.len(),
                    base@ == non_index_upto(mems@, i as nat),
                    forall|k: int| 0 <= k < base@.len() ==> #[trigger] base@[k] < i,
                decreases mems@.len() - i,
            {
                if !Self::is_index(&mems[i]) {
                    base.push(i);
                }
                i += 1;
            }
        } else {
            let p = &self.library.projects[self.selected_project - 1];
            base = p.memory_idx.clone();
            assert(base@ == p.memory_idx@);
            assert forall|k: int| 0 <= k < base@.len() implies #[trigger] base@[k]
                < mems@.len() by {
                assert(self.library.projects@[self.selected_project - 1].memory_idx@[k]
                    < mems@.len());
            }
        }
        if self.filter.as_str().is_empty() {
            return base;
        }
        let ql = to_lowercase(self.filter.as_str());
        let q = chars_of(ql.as_str());
        let mut res: Vec<usize> = Vec::new();
        let mut j: usize = 0;
        while j < base.len()
            invariant
                j <= base@.len(),
                forall|k: int| 0 <= k < base@.len() ==> #[trigger] base@[k] < mems@.len(),
                res@ == matching(base@.take(j as int), mems@, q@),
                forall|k: int| 0 <= k < res@.len() ==> #[trigger] res@[k] < mems@.len(),
            decreases base@.len() - j,
        {
            proof {
                assert(base@.take(j + 1).drop_last() =~= base@.take(j as int));
                assert(base@.take(j + 1).last() == base@[j as int]);
            }
            if Self::matches(&mems[base[j]], &q) {
                res.push(base[j]);
            }
            j += 1;
        }
        proof {
            assert(base@.take(base@.len() as int) =~= base@);
        }
        res
    }

    /// The position in `library.memories` of the memory under the cursor.
    pub fn selected_index(&self) -> (res: Option<usize>)
        requires
            self.wf(),
        ensures
            res == self.selected_spec(),
            res matches Some(i) ==> i < self.library.memories@.len(),
    {
        let idxs = self.current_memory_indices();
        if self.mem_cursor < idxs.len() {
            Some(idxs[self.mem_cursor])
        } else {
            None
        }
    }

    /// Snapshot of the memory under the cursor, if any.
    pub fn selected_memory(&self) -> (res: Option<Memory>)
        requires
            self.wf(),
        ensures
            self.mem_cursor < self.visible().len() ==> res == Some(
                self.library.memories@[self.visible()[self.mem_cursor as int] as int],
            ),
            self.mem_cursor >= self.visible().len() ==> res is None,
    {
        match self.selected_index() {
            Some(i) => Some(self.library.memories[i].duplicate()),
            None => None,
        }
    }

    /// Select the next project (wrapping around), cursor back to the top.
    pub fn next_project(&mut self)
        requires
            old(self).wf(),
        ensures
            final(self).core_wf(),
            old(self).mode != Mode::NewSlug ==> final(self).wf(),
            *final(self) == old(self).after_next_project(),
    {
        let n = self.project_count();
        self.selected_project = (self.selected_project + 1) % n;
        self.on_list_change();
    }

    /// Select the previous project (wrapping around), cursor back to the top.
    pub fn prev_project(&mut self)
        requires
            old(self).wf(),
        ensures
            final(self).core_wf(),
            old(self).mode != Mode::NewSlug ==> final(self).wf(),
            *final(self) == old(self).after_prev_project(),
    {
        let n = self.project_count();
        self.selected_project = if self.selected_project == 0 {
            n - 1
        } else {
            self.selected_project - 1
        };
        proof {
            let s = old(self).selected_project as int;
            let c = n as int;
            assert((s + c - 1) % c == if s == 0 {
                c - 1
            } else {
                s - 1
            }) by (nonlinear_arith)
                requires
                    0 <= s < c,
            ;
        }
        self.on_list_change();
    }

    /// Move the memory cursor down (wrapping around).
    pub fn next_memory(&mut self)
        requires
            old(self).wf(),
        ensures
            final(self).wf(),
            *final(self) == old(self).after_next_memory(),
    {
        let len = self.current_memory_indices().len();
        if len == 0 {
            return;
        }
        let c = self.mem_cursor % len;
        self.mem_cursor = if c + 1 == len {
            0
        } else {
            c + 1
        };
        proof {
            let x = old(self).mem_cursor as int;
            let l = len as int;
            assert((x + 1) % l == if x % l + 1 == l {
                0
            } else {
                x % l + 1
            }) by (nonlinear_arith)
                requires
                    0 <= x,
                    0 < l,
            ;
        }
        self.detail_scroll = 0;
    }

    /// Move the memory cursor up (wrapping around).
    pub fn prev_memory(&mut self)
        requires
            old(self).wf(),
        ensures
            final(self).wf(),
            *final(self) == old(self).after_prev_memory(),
    {
        let len = self.current_memory_indices().len();
        if len == 0 {
            return;
        }
        let c = self.mem_cursor % len;
        self.mem_cursor = if c == 0 {
            len - 1
        } else {
            c - 1
        };
        proof {
            let x = old(self).mem_cursor as int;
            let l = len as int;
            assert((x + l - 1) % l == if x % l == 0 {
                l - 1
            } else {
                x % l - 1
            }) by (nonlinear_arith)
                requires
                    0 <= x,
                    0 < l,
            ;
        }
        self.detail_scroll = 0;
    }

    /// Scroll the detail pane down by four lines (saturating).
    pub fn scroll_detail_down(&mut self)
        ensures
            *final(self) == old(self).after_scroll_down(),
    {
        self.detail_scroll = self.detail_scroll.saturating_add(4);
    }

    /// Scroll the detail pane up by four lines (saturating).
    pub fn scroll_detail_up(&mut self)
        ensures
            *final(self) == old(self).after_scroll_up(),
    {
        self.detail_scroll = self.detail_scroll.saturating_sub(4);
    }

    /// Selecting a new project resets the memory cursor to the top.
    fn on_list_change(&mut self)
        ensures
            *final(self) == (App { mem_cursor: 0, detail_scroll: 0, ..*old(self) }),
    {
        self.mem_cursor = 0;
        self.detail_scroll = 0;
    }

    /// After a filter edit or rescan: a selected project that no longer
    /// exists falls back to the ALL entry, then the memory cursor is kept
    /// within the memories now shown.
    pub fn clamp_selection(&mut self)
        requires
            library_wf(&old(self).library),
            old(self).type_cursor < 4,
            old(self).mode == Mode::MoveProject ==> 1 <= old(self).move_cursor
                <= old(self).library.projects@.len(),
        ensures
            final(self).core_wf(),
            *final(self) == old(self).reselected().clamped(),
            old(self).core_wf() ==> *final(self) == old(self).clamped(),
            old(self).wf() ==> final(self).wf(),
    {
        if self.selected_project >= self.project_count() {
            self.selected_project = 0;
        }
        proof {
            assert(old(self).core_wf() ==> old(self).reselected() == *old(self));
        }
        let len = self.current_memory_indices().len();
        if len == 0 {
            self.mem_cursor = 0;
        } else if self.mem_cursor >= len {
            self.mem_cursor = len - 1;
        }
    }

    /// Replace the library with a fresh scan, keeping the selection where
    /// it still exists: a selected project that is gone falls back to the
    /// ALL entry, a move whose target is gone is called off, and the memory
    /// cursor is kept in range.
    pub fn rescan(&mut self, library: Library)
        requires
            old(self).wf(),
            library_wf(&library),
        ensures
            final(self).core_wf(),
            *final(self) == (App {
                library,
                mode: if old(self).mode == Mode::MoveProject && old(self).move_cursor
                    > library.projects@.len() {
                    Mode::Normal
                } else {
                    old(self).mode
                },
                ..*old(self)
            }).reselected().clamped(),
            old(self).selected_project <= library.projects@.len() ==> final(self).wf(),
    {
        self.library = library;
        if self.mode == Mode::MoveProject && self.move_cursor > self.library.projects.len() {
            self.mode = Mode::Normal;
        }
        self.clamp_selection();
    }
}

impl Memory {
    /// A copy of the memory.
    pub fn duplicate(&self) -> (res: Memory)
        ensures
            res == *self,
    {
        Memory {
            project: self.project.clone(),
            project_dir: self.project_dir.clone(),
            path: self.path.clone(),
            slug: self.slug.clone(),
            name: self.name.clone(),
            description: self.description.clone(),
            mtype: self.mtype.clone(),
            body: self.body.clone(),
            created: self.created,
            modified: self.modified,
        }
    }
}

} // verus!
