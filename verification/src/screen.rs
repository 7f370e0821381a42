//! What the browser draws, as plain values: the tone of each memory type
//! and the ledger that a `MEMORY.md` index is shown as.  The terminal front
//! end only turns tones into colours and lines into widgets.

use vstd::prelude::*;
use crate::app::{parent_dir, parent_of, App, Mode};
use crate::display::{
    civil_date, count_recent, count_type, date_text, fmt_date, newest_created, oldest_created,
    scope_stats, type_count, fmt_ts, in_scope, index_entry, timestamp_text, linked_memory, links_to, parse_index_line, real_count};
use crate::memory::{library_wf, Library, Memory};
use crate::text::{
    append, chars_eq, chars_of, decimal, decimal_chars, lines, lines_of, slice, string_of,
    to_uppercase, trim_by, trim_chars, trim_start_by, trim_start_chars, upper, views, Strip,
};

verus! {

// ------------------------------------------------------------------
// Tones
// ------------------------------------------------------------------

/// The palette the browser draws with.
#[derive(Clone, Copy, PartialEq, Eq, Debug)]
pub enum Tone {
    Amber,
    Cyan,
    Phosphor,
    Magenta,
    Paper,
    Faint,
    Dim,
}

/// The tone a memory of type `t` is drawn in: feedback amber, project
/// cyan, reference green, user magenta, index white, anything else grey.
pub open spec fn type_tone_spec(t: Seq<char>) -> Tone {
    if t == "feedback"@ {
        Tone::Amber
    } else if t == "project"@ {
        Tone::Cyan
    } else if t == "reference"@ {
        Tone::Phosphor
    } else if t == "user"@ {
        Tone::Magenta
    } else if t == "index"@ {
        Tone::Paper
    } else {
        Tone::Faint
    }
}

/// The tone a memory of type `t` is drawn in.
pub fn type_tone(t: &str) -> (res: Tone)
    ensures
        res == type_tone_spec(t@),
{
    let v = chars_of(t);
    if chars_eq(&v, &chars_of("feedback")) {
        Tone::Amber
    } else if chars_eq(&v, &chars_of("project")) {
        Tone::Cyan
    } else if chars_eq(&v, &chars_of("reference")) {
        Tone::Phosphor
    } else if chars_eq(&v, &chars_of("user")) {
        Tone::Magenta
    } else if chars_eq(&v, &chars_of("index")) {
        Tone::Paper
    } else {
        Tone::Faint
    }
}

// ------------------------------------------------------------------
// The index ledger
// ------------------------------------------------------------------

/// One line of the ledger a `MEMORY.md` index is shown as.
pub enum LedgerLine {
    /// A pointer line: the title and hook, in the tone of the memory it
    /// links to.
    Entry { name: String, hook: String, tone: Tone },
    /// The gap before a heading.
    Blank,
    /// A `#` heading, without its marks, upper-cased.
    Heading(String),
    /// Any other line, as it is.
    Plain(String),
}

/// A ledger line, over plain text.
pub enum LedgerView {
    Entry(Seq<char>, Seq<char>, Tone),
    Blank,
    Heading(Seq<char>),
    Plain(Seq<char>),
}

impl View for LedgerLine {
    type V = LedgerView;

    open spec fn view(&self) -> LedgerView {
        match self {
            LedgerLine::Entry { name, hook, tone } => LedgerView::Entry(name@, hook@, *tone),
            LedgerLine::Blank => LedgerView::Blank,
            LedgerLine::Heading(h) => LedgerView::Heading(h@),
            LedgerLine::Plain(p) => LedgerView::Plain(p@),
        }
    }
}

/// The ledger lines, over plain text.
pub open spec fn ledger_views(v: Seq<LedgerLine>) -> Seq<LedgerView> {
    v.map_values(|l: LedgerLine| l@)
}

/// Memory `i` is the first that an index line of `dir` links to as `slug`.
pub open spec fn first_link(mems: Seq<Memory>, slug: Seq<char>, dir: Seq<char>, i: int) -> bool {
    &&& 0 <= i < mems.len()
    &&& links_to(mems[i], slug, dir)
    &&& forall|j: int| 0 <= j < i ==> !links_to(#[trigger] mems[j], slug, dir)
}

/// The tone of an entry: that of the first memory it links to, grey when
/// it links to none.
pub open spec fn link_tone(mems: Seq<Memory>, slug: Seq<char>, dir: Seq<char>) -> Tone {
    if exists|i: int| #[trigger] first_link(mems, slug, dir, i) {
        type_tone_spec(mems[choose|i: int| #[trigger] first_link(mems, slug, dir, i)].mtype@)
    } else {
        Tone::Faint
    }
}

/// The heading text of a `#` line: the marks dropped, trimmed, upper-cased.
pub open spec fn heading_text(r: Seq<char>) -> Seq<char> {
    upper(trim_by(trim_start_by(r.drop_first(), Strip::Char('#')), Strip::Whitespace))
}

/// What one line of an index in directory `dir` is shown as.
pub open spec fn line_ledger(r: Seq<char>, mems: Seq<Memory>, dir: Seq<char>) -> Seq<LedgerView> {
    match index_entry(r) {
        Some((n, s, d)) => seq![LedgerView::Entry(n, d, link_tone(mems, s, dir))],
        None => if r.len() > 0 && r[0] == '#' {
            seq![LedgerView::Blank, LedgerView::Heading(heading_text(r))]
        } else {
            seq![LedgerView::Plain(r)]
        },
    }
}

/// What the lines of an index in directory `dir` are shown as.
pub open spec fn ledger(ls: Seq<Seq<char>>, mems: Seq<Memory>, dir: Seq<char>) -> Seq<LedgerView>
    decreases ls.len(),
{
    if ls.len() == 0 {
        Seq::empty()
    } else {
        ledger(ls.drop_last(), mems, dir) + line_ledger(ls.last(), mems, dir)
    }
}

/// The tone of the memory that an entry links to.
fn entry_tone(library: &Library, slug: &String, dir: &String) -> (res: Tone)
    ensures
        res == link_tone(library.memories@, slug@, dir@),
{
    let ghost mems = library.memories@;
    match linked_memory(library, slug.as_str(), dir.as_str()) {
        Some(i) => {
            proof {
                assert(first_link(mems, slug@, dir@, i as int));
                let c = choose|k: int| #[trigger] first_link(mems, slug@, dir@, k);
                if c < i {
                    assert(!links_to(mems[c], slug@, dir@));
                } else if c > i {
                    assert(!links_to(mems[i as int], slug@, dir@));
                }
            }
            type_tone(library.memories[i].mtype.as_str())
        },
        None => {
            proof {
                if exists|k: int| #[trigger] first_link(mems, slug@, dir@, k) {
                    let c = choose|k: int| #[trigger] first_link(mems, slug@, dir@, k);
                    assert(links_to(mems[c], slug@, dir@));
                }
            }
            Tone::Faint
        },
    }
}

/// The heading text of a line that starts with `#`.
fn heading_of(r: &Vec<char>) -> (res: String)
    requires
        r@.len() > 0,
    ensures
        res@ == heading_text(r@),
{
    let rest = slice(r, 1, r.len());
    assert(rest@ =~= r@.drop_first());
    let marks_gone = trim_start_chars(&rest, Strip::Char('#'));
    let t = trim_chars(&marks_gone, Strip::Whitespace);
    to_uppercase(string_of(&t).as_str())
}

/// The ledger a `MEMORY.md` index is shown as, line by line: a pointer line
/// becomes an entry in the tone of the memory it links to in the index's
/// directory, a `#` line a gap and an upper-cased heading, any other line
/// itself.
pub fn index_ledger(library: &Library, index: &Memory) -> (res: Vec<LedgerLine>)
    ensures
        ledger_views(res@) == ledger(
            lines(index.body@),
            library.memories@,
            parent_dir(index.path@),
        ),
{
    let dir = parent_of(&index.path);
    let ls = lines_of(&chars_of(index.body.as_str()));
    let ghost lv = views(ls@);
    let ghost mems = library.memories@;
    let mut res: Vec<LedgerLine> = Vec::new();
    let mut i: usize = 0;
    while i < ls.len()
        invariant
            i <= ls@.len(),
            lv == views(ls@),
            lv == lines(index.body@),
            mems == library.memories@,
            dir@ == parent_dir(index.path@),
            ledger_views(res@) == ledger(lv.take(i as int), mems, dir@),
        decreases ls@.len() - i,
    {
        let r = &ls[i];
        let ghost before = ledger_views(res@);
        proof {
            assert(lv.take(i + 1).drop_last() =~= lv.take(i as int));
            assert(lv.take(i + 1).last() == r@);
        }
        match parse_index_line(string_of(r).as_str()) {
            Some((name, slug, hook)) => {
                let tone = entry_tone(library, &slug, &dir);
                res.push(LedgerLine::Entry { name, hook, tone });
            },
            None => {
                if r.len() > 0 && r[0] == '#' {
                    res.push(LedgerLine::Blank);
                    res.push(LedgerLine::Heading(heading_of(r)));
                } else {
                    res.push(LedgerLine::Plain(string_of(r)));
                }
            },
        }
        proof {
            assert(ledger_views(res@) =~= before + line_ledger(r@, mems, dir@));
        }
        i += 1;
    }
    proof {
        assert(lv.take(ls@.len() as int) =~= lv);
    }
    res
}

// ------------------------------------------------------------------
// Header, projects pane and memories pane
// ------------------------------------------------------------------

/// The positions `0..n`.
pub open spec fn upto(n: nat) -> Seq<usize> {
    Seq::new(n, |i: int| i as usize)
}

/// How many memories the library holds, the index entries aside.
pub open spec fn memory_total(lib: Library) -> nat {
    in_scope(lib.memories@, upto(lib.memories@.len())).len()
}

/// `  <n> memories across <p> projects`
pub open spec fn header_text(total: nat, projects: nat) -> Seq<char> {
    "  "@ + decimal(total) + " memories across "@ + decimal(projects) + " projects"@
}

fn all_positions(n: usize) -> (res: Vec<usize>)
    ensures
        res@ == upto(n as nat),
{
    let mut res: Vec<usize> = Vec::new();
    let mut i: usize = 0;
    while i < n
        invariant
            i <= n,
            res@ == upto(i as nat),
        decreases n - i,
    {
        res.push(i);
        i += 1;
        assert(res@ =~= upto(i as nat));
    }
    res
}

fn total_of(library: &Library) -> (n: usize)
    ensures
        n == memory_total(*library),
{
    let all = all_positions(library.memories.len());
    real_count(library, &all)
}

/// The header's summary line: how many memories, across how many projects.
pub fn header_summary(library: &Library) -> (res: String)
    ensures
        res@ == header_text(memory_total(*library), library.projects@.len()),
{
    let total = total_of(library);
    let mut v = chars_of("  ");
    append(&mut v, &decimal_chars(total as u64));
    append(&mut v, &chars_of(" memories across "));
    append(&mut v, &decimal_chars(library.projects.len() as u64));
    append(&mut v, &chars_of(" projects"));
    string_of(&v)
}

/// A row of the projects pane: its label and how many memories it holds,
/// the index entries aside.
pub struct ProjectRow {
    pub label: String,
    pub count: usize,
}

/// The projects pane: the ALL entry with every memory, then each project.
pub fn project_rows(library: &Library) -> (res: Vec<ProjectRow>)
    requires
        library_wf(library),
    ensures
        res@.len() == library.projects@.len() + 1,
        res@[0].label@ == "ALL PROJECTS"@,
        res@[0].count == memory_total(*library),
        forall|k: int|
            0 <= k < library.projects@.len() ==> (#[trigger] res@[k + 1]).label@
                == library.projects@[k].label@ && res@[k + 1].count == in_scope(
                library.memories@,
                library.projects@[k].memory_idx@,
            ).len(),
{
    let mut res: Vec<ProjectRow> = Vec::new();
    res.push(ProjectRow { label: string_of(&chars_of("ALL PROJECTS")), count: total_of(library) });
    let mut k: usize = 0;
    while k < library.projects.len()
        invariant
            k <= library.projects@.len(),
            library_wf(library),
            res@.len() == k + 1,
            res@[0].label@ == "ALL PROJECTS"@,
            res@[0].count == memory_total(*library),
            forall|j: int|
                0 <= j < k ==> (#[trigger] res@[j + 1]).label@ == library.projects@[j].label@
                    && res@[j + 1].count == in_scope(
                    library.memories@,
                    library.projects@[j].memory_idx@,
                ).len(),
        decreases library.projects@.len() - k,
    {
        let p = &library.projects[k];
        assert forall|m: int| 0 <= m < p.memory_idx@.len() implies #[trigger] p.memory_idx@[m]
            < library.memories@.len() by {
            assert(library.projects@[k as int].memory_idx@[m] < library.memories@.len());
        }
        let count = real_count(library, &p.memory_idx);
        res.push(ProjectRow { label: string_of(&chars_of(p.label.as_str())), count });
        k += 1;
    }
    res
}

/// `MEMORIES [<n>]`, followed by ` /<filter>` while a filter is set.
pub open spec fn memories_title_text(n: nat, filter: Seq<char>) -> Seq<char> {
    if filter.len() == 0 {
        "MEMORIES ["@ + decimal(n) + "]"@
    } else {
        "MEMORIES ["@ + decimal(n) + "]"@ + " /"@ + filter
    }
}

/// The memories pane's title: how many memories are shown, and the filter.
pub fn memories_title(app: &App) -> (res: String)
    requires
        app.core_wf(),
    ensures
        res@ == memories_title_text(app.visible().len(), app.filter@),
{
    let n = app.current_memory_indices().len();
    let mut v = chars_of("MEMORIES [");
    append(&mut v, &decimal_chars(n as u64));
    append(&mut v, &chars_of("]"));
    if !app.filter.as_str().is_empty() {
        append(&mut v, &chars_of(" /"));
        append(&mut v, &chars_of(app.filter.as_str()));
    }
    string_of(&v)
}

/// A row of the memories pane: the memory's name in the tone of its type,
/// and its project in the ALL view.
pub struct MemoryRow {
    pub name: String,
    pub tone: Tone,
    pub project: Option<String>,
}

/// The memories pane: a row for each memory shown, in order.
pub fn memory_rows(app: &App) -> (res: Vec<MemoryRow>)
    requires
        app.core_wf(),
    ensures
        res@.len() == app.visible().len(),
        forall|k: int|
            0 <= k < res@.len() ==> {
                let m = app.library.memories@[app.visible()[k] as int];
                &&& (#[trigger] res@[k]).name@ == m.name@
                &&& res@[k].tone == type_tone_spec(m.mtype@)
                &&& app.selected_project == 0 ==> (res@[k].project matches Some(p)
                    && p@ == m.project@)
                &&& app.selected_project != 0 ==> res@[k].project is None
            },
{
    let idxs = app.current_memory_indices();
    let mut res: Vec<MemoryRow> = Vec::new();
    let mut k: usize = 0;
    while k < idxs.len()
        invariant
            k <= idxs@.len(),
            idxs@ == app.visible(),
            forall|j: int| 0 <= j < idxs@.len() ==> #[trigger] idxs@[j] < app.library.memories@.len(),
            res@.len() == k,
            forall|j: int|
                0 <= j < k ==> {
                    let m = app.library.memories@[app.visible()[j] as int];
                    &&& (#[trigger] res@[j]).name@ == m.name@
                    &&& res@[j].tone == type_tone_spec(m.mtype@)
                    &&& app.selected_project == 0 ==> (res@[j].project matches Some(p)
                        && p@ == m.project@)
                    &&& app.selected_project != 0 ==> res@[j].project is None
                },
        decreases idxs@.len() - k,
    {
        let m = &app.library.memories[idxs[k]];
        let project = if app.selected_project == 0 {
            Some(string_of(&chars_of(m.project.as_str())))
        } else {
            None
        };
        res.push(
            MemoryRow {
                name: string_of(&chars_of(m.name.as_str())),
                tone: type_tone(m.mtype.as_str()),
                project,
            },
        );
        k += 1;
    }
    res
}

// ------------------------------------------------------------------
// The detail pane
// ------------------------------------------------------------------

/// A time stamp as the detail pane shows it: `YYYY-MM-DD HH:MM` (UTC), `?`
/// when unknown.
pub open spec fn stamp_text(t: Option<u64>) -> Seq<char> {
    match t {
        Some(secs) => timestamp_text(secs as int),
        None => "?"@,
    }
}

fn stamp(t: Option<u64>) -> (res: String)
    ensures
        res@ == stamp_text(t),
{
    match t {
        Some(secs) => fmt_ts(secs),
        None => string_of(&chars_of("?")),
    }
}

/// The texts, over plain text.
pub open spec fn string_views(v: Seq<String>) -> Seq<Seq<char>> {
    v.map_values(|s: String| s@)
}

/// The body as the detail pane shows it.
pub enum DetailBody {
    /// An index, as its ledger.
    Ledger(Vec<LedgerLine>),
    /// Any other memory, line by line.
    Text(Vec<String>),
}

/// What the detail pane shows of a memory.
pub struct Detail {
    pub name: String,
    pub mtype: String,
    /// The tone of the type.
    pub tone: Tone,
    pub project: String,
    /// `<slug>.md`
    pub file: String,
    pub created: String,
    pub modified: String,
    /// The description, when there is one.
    pub description: Option<String>,
    pub body: DetailBody,
    pub project_dir: String,
    pub path: String,
}

/// Whether `d` is what the detail pane shows of memory `m` of `lib`.
pub open spec fn shows(d: Detail, m: Memory, lib: Library) -> bool {
    &&& d.name@ == m.name@
    &&& d.mtype@ == m.mtype@
    &&& d.tone == type_tone_spec(m.mtype@)
    &&& d.project@ == m.project@
    &&& d.file@ == m.slug@ + ".md"@
    &&& d.created@ == stamp_text(m.created)
    &&& d.modified@ == stamp_text(m.modified)
    &&& (if m.description@.len() == 0 {
        d.description is None
    } else {
        d.description matches Some(t) && t@ == m.description@
    })
    &&& (if m.mtype@ == "index"@ {
        d.body matches DetailBody::Ledger(l) && ledger_views(l@) == ledger(
            lines(m.body@),
            lib.memories@,
            parent_dir(m.path@),
        )
    } else {
        d.body matches DetailBody::Text(t) && string_views(t@) == lines(m.body@)
    })
    &&& d.project_dir@ == m.project_dir@
    &&& d.path@ == m.path@
}

fn text_lines(body: &String) -> (res: Vec<String>)
    ensures
        string_views(res@) == lines(body@),
{
    let ls = lines_of(&chars_of(body.as_str()));
    let mut res: Vec<String> = Vec::new();
    let mut i: usize = 0;
    while i < ls.len()
        invariant
            i <= ls@.len(),
            views(ls@) == lines(body@),
            string_views(res@) == views(ls@).take(i as int),
        decreases ls@.len() - i,
    {
        let ghost before = res@;
        let t = string_of(&ls[i]);
        res.push(t);
        assert(res@ == before.push(t));
        assert(string_views(res@) =~= string_views(before).push(ls@[i as int]@));
        assert(views(ls@).take(i + 1) =~= views(ls@).take(i as int).push(ls@[i as int]@));
        i += 1;
    }
    assert(views(ls@).take(ls@.len() as int) =~= views(ls@));
    res
}

/// What the detail pane shows: the memory under the cursor, if any.
pub fn detail(app: &App) -> (res: Option<Detail>)
    requires
        app.wf(),
    ensures
        res is None <==> app.selected_spec() is None,
        res matches Some(d) ==> shows(
            d,
            app.library.memories@[app.selected_spec()->0 as int],
            app.library,
        ),
{
    let i = match app.selected_index() {
        Some(i) => i,
        None => {
            return None;
        },
    };
    let m = &app.library.memories[i];
    let mut file = chars_of(m.slug.as_str());
    append(&mut file, &chars_of(".md"));
    let description = if m.description.as_str().is_empty() {
        None
    } else {
        Some(m.description.clone())
    };
    let body = if chars_eq(&chars_of(m.mtype.as_str()), &chars_of("index")) {
        DetailBody::Ledger(index_ledger(&app.library, m))
    } else {
        DetailBody::Text(text_lines(&m.body))
    };
    Some(
        Detail {
            name: m.name.clone(),
            mtype: m.mtype.clone(),
            tone: type_tone(m.mtype.as_str()),
            project: m.project.clone(),
            file: string_of(&file),
            created: stamp(m.created),
            modified: stamp(m.modified),
            description,
            body,
            project_dir: m.project_dir.clone(),
            path: m.path.clone(),
        },
    )
}

// ------------------------------------------------------------------
// The status line
// ------------------------------------------------------------------

/// How a piece of the status line is drawn.
#[derive(Clone, Copy, PartialEq, Eq, Debug)]
pub enum SegKind {
    /// Text in its tone.
    Text,
    /// Dark text on its tone.
    Badge,
    /// Dark bold text on its tone: the choice under the cursor.
    Chosen,
    /// Bold text in its tone.
    Strong,
}

/// A piece of the status line.
pub struct Segment {
    pub text: String,
    pub tone: Tone,
    pub kind: SegKind,
}

/// A piece of the status line, over plain text.
pub struct SegView {
    pub text: Seq<char>,
    pub tone: Tone,
    pub kind: SegKind,
}

impl View for Segment {
    type V = SegView;

    open spec fn view(&self) -> SegView {
        SegView { text: self.text@, tone: self.tone, kind: self.kind }
    }
}

/// The pieces, over plain text.
pub open spec fn seg_views(v: Seq<Segment>) -> Seq<SegView> {
    v.map_values(|s: Segment| s@)
}

pub open spec fn text_seg(t: Seq<char>, tone: Tone) -> SegView {
    SegView { text: t, tone, kind: SegKind::Text }
}

pub open spec fn badge_seg(t: Seq<char>, tone: Tone) -> SegView {
    SegView { text: t, tone, kind: SegKind::Badge }
}

/// A key of the help line and what it does.
pub open spec fn key_help(k: Seq<char>, what: Seq<char>) -> Seq<SegView> {
    seq![badge_seg(" "@ + k + " "@, Tone::Phosphor), text_seg(" "@ + what + "   "@, Tone::Dim)]
}

/// The help line shown when nothing else is.
pub open spec fn help_line() -> Seq<SegView> {
    seq![text_seg(" "@, Tone::Dim)] + key_help("↑↓/jk"@, "move"@) + key_help("tab"@, "pane"@)
        + key_help("/"@, "search"@) + key_help("e"@, "edit"@) + key_help("n"@, "new"@) + key_help(
        "d"@,
        "del"@,
    ) + key_help("m"@, "move"@) + key_help("t"@, "type"@) + key_help("r"@, "rescan"@) + key_help(
        "q"@,
        "quit"@,
    )
}

/// The type picker's entry for type `i`, and the gap after it.
pub open spec fn type_pick(i: int, cursor: usize) -> Seq<SegView> {
    let t = crate::app::type_names()[i];
    seq![
        SegView {
            text: " "@ + t + " "@,
            tone: type_tone_spec(t),
            kind: if i == cursor {
                SegKind::Chosen
            } else {
                SegKind::Text
            },
        },
        text_seg(" "@, Tone::Dim),
    ]
}

/// The slug under the cursor, empty when there is none.
pub open spec fn selected_slug(app: App) -> Seq<char> {
    match app.selected_spec() {
        Some(i) => app.library.memories@[i as int].slug@,
        None => Seq::empty(),
    }
}

/// The label and file count of the selected project; empty and 0 for ALL.
pub open spec fn selected_project_summary(app: App) -> (Seq<char>, nat) {
    if app.selected_project > 0 {
        let p = app.library.projects@[app.selected_project - 1];
        (p.label@, p.memory_idx@.len())
    } else {
        (Seq::empty(), 0)
    }
}

/// The status line in each mode.
pub open spec fn status_view(app: App) -> Seq<SegView> {
    match app.mode {
        Mode::Filter => seq![
            badge_seg(" SEARCH "@, Tone::Amber),
            text_seg(" /"@ + app.filter@, Tone::Amber),
            text_seg("▏"@, Tone::Amber),
            text_seg("   [enter] apply  [esc] cancel"@, Tone::Dim),
        ],
        Mode::ConfirmDelete => seq![
            badge_seg(" DELETE "@, Tone::Amber),
            text_seg(" "@ + selected_slug(app) + ".md — sure? "@, Tone::Amber),
            text_seg("[y] delete  [esc/n] cancel"@, Tone::Dim),
        ],
        Mode::ConfirmDeleteProject => seq![
            badge_seg(" DELETE PROJECT "@, Tone::Amber),
            text_seg(
                " "@ + selected_project_summary(app).0 + " — all "@ + decimal(
                    selected_project_summary(app).1,
                ) + " files — sure? "@,
                Tone::Amber,
            ),
            text_seg("[y] delete  [esc/n] cancel"@, Tone::Dim),
        ],
        Mode::NewSlug => seq![
            badge_seg(" NEW "@, Tone::Phosphor),
            text_seg(" slug: "@ + app.input@, Tone::Phosphor),
            text_seg("▏"@, Tone::Phosphor),
            text_seg("   [enter] create + edit  [esc] cancel"@, Tone::Dim),
        ],
        Mode::MoveProject => seq![
            badge_seg(" MOVE "@, Tone::Cyan),
            text_seg("  [j/k] pick target  [enter] move  [esc] cancel"@, Tone::Dim),
        ],
        Mode::PickType => seq![badge_seg(" TYPE "@, Tone::Cyan), text_seg("  "@, Tone::Dim)]
            + type_pick(0, app.type_cursor) + type_pick(1, app.type_cursor) + type_pick(
            2,
            app.type_cursor,
        ) + type_pick(3, app.type_cursor) + seq![
            text_seg("  [h/l] pick  [enter] apply  [esc] cancel"@, Tone::Dim),
        ],
        Mode::Normal => match app.status {
            Some(msg) => seq![text_seg(" » "@, Tone::Faint), text_seg(msg@, Tone::Amber)],
            None => help_line(),
        },
    }
}

fn seg(text: &str, tone: Tone, kind: SegKind) -> (res: Segment)
    ensures
        res@ == (SegView { text: text@, tone, kind }),
{
    Segment { text: string_of(&chars_of(text)), tone, kind }
}

fn seg_of(text: &Vec<char>, tone: Tone, kind: SegKind) -> (res: Segment)
    ensures
        res@ == (SegView { text: text@, tone, kind }),
{
    Segment { text: string_of(text), tone, kind }
}

/// `text` with a space on either side.
fn spaced(text: &str) -> (res: Vec<char>)
    ensures
        res@ == " "@ + text@ + " "@,
{
    let mut v = chars_of(" ");
    append(&mut v, &chars_of(text));
    append(&mut v, &chars_of(" "));
    v
}

fn push_key(res: &mut Vec<Segment>, k: &str, what: &str)
    ensures
        seg_views(final(res)@) == seg_views(old(res)@) + key_help(k@, what@),
{
    let ghost before = res@;
    res.push(seg_of(&spaced(k), Tone::Phosphor, SegKind::Badge));
    let mut w = chars_of(" ");
    append(&mut w, &chars_of(what));
    append(&mut w, &chars_of("   "));
    res.push(seg_of(&w, Tone::Dim, SegKind::Text));
    assert(seg_views(res@) =~= seg_views(before) + key_help(k@, what@));
}

fn push_type_pick(res: &mut Vec<Segment>, i: usize, cursor: usize)
    requires
        i < 4,
    ensures
        seg_views(final(res)@) == seg_views(old(res)@) + type_pick(i as int, cursor),
{
    let ghost before = res@;
    let t = crate::app::assignable_type(i);
    let kind = if i == cursor {
        SegKind::Chosen
    } else {
        SegKind::Text
    };
    res.push(seg_of(&spaced(t), type_tone(t), kind));
    res.push(seg(" ", Tone::Dim, SegKind::Text));
    assert(seg_views(res@) =~= seg_views(before) + type_pick(i as int, cursor));
}

fn help_segments() -> (res: Vec<Segment>)
    ensures
        seg_views(res@) == help_line(),
{
    let mut res: Vec<Segment> = Vec::new();
    res.push(seg(" ", Tone::Dim, SegKind::Text));
    assert(seg_views(res@) =~= seq![text_seg(" "@, Tone::Dim)]);
    push_key(&mut res, "↑↓/jk", "move");
    push_key(&mut res, "tab", "pane");
    push_key(&mut res, "/", "search");
    push_key(&mut res, "e", "edit");
    push_key(&mut res, "n", "new");
    push_key(&mut res, "d", "del");
    push_key(&mut res, "m", "move");
    push_key(&mut res, "t", "type");
    push_key(&mut res, "r", "rescan");
    push_key(&mut res, "q", "quit");
    res
}

/// The status line: what the current mode asks for, the one-shot message,
/// or the key help.
pub fn status_segments(app: &App) -> (res: Vec<Segment>)
    requires
        app.wf(),
    ensures
        seg_views(res@) == status_view(*app),
{
    let mut res: Vec<Segment> = Vec::new();
    match app.mode {
        Mode::Filter => {
            res.push(seg(" SEARCH ", Tone::Amber, SegKind::Badge));
            let mut t = chars_of(" /");
            append(&mut t, &chars_of(app.filter.as_str()));
            res.push(seg_of(&t, Tone::Amber, SegKind::Text));
            res.push(seg("▏", Tone::Amber, SegKind::Text));
            res.push(seg("   [enter] apply  [esc] cancel", Tone::Dim, SegKind::Text));
        },
        Mode::ConfirmDelete => {
            res.push(seg(" DELETE ", Tone::Amber, SegKind::Badge));
            let mut t = chars_of(" ");
            match app.selected_index() {
                Some(i) => append(&mut t, &chars_of(app.library.memories[i].slug.as_str())),
                None => {},
            }
            append(&mut t, &chars_of(".md — sure? "));
            res.push(seg_of(&t, Tone::Amber, SegKind::Text));
            res.push(seg("[y] delete  [esc/n] cancel", Tone::Dim, SegKind::Text));
        },
        Mode::ConfirmDeleteProject => {
            res.push(seg(" DELETE PROJECT ", Tone::Amber, SegKind::Badge));
            let mut t = chars_of(" ");
            let mut count: usize = 0;
            if app.selected_project > 0 {
                let p = &app.library.projects[app.selected_project - 1];
                append(&mut t, &chars_of(p.label.as_str()));
                count = p.memory_idx.len();
            }
            append(&mut t, &chars_of(" — all "));
            append(&mut t, &decimal_chars(count as u64));
            append(&mut t, &chars_of(" files — sure? "));
            res.push(seg_of(&t, Tone::Amber, SegKind::Text));
            res.push(seg("[y] delete  [esc/n] cancel", Tone::Dim, SegKind::Text));
        },
        Mode::NewSlug => {
            res.push(seg(" NEW ", Tone::Phosphor, SegKind::Badge));
            let mut t = chars_of(" slug: ");
            append(&mut t, &chars_of(app.input.as_str()));
            res.push(seg_of(&t, Tone::Phosphor, SegKind::Text));
            res.push(seg("▏", Tone::Phosphor, SegKind::Text));
            res.push(seg("   [enter] create + edit  [esc] cancel", Tone::Dim, SegKind::Text));
        },
        Mode::MoveProject => {
            res.push(seg(" MOVE ", Tone::Cyan, SegKind::Badge));
            res.push(
                seg("  [j/k] pick target  [enter] move  [esc] cancel", Tone::Dim, SegKind::Text),
            );
        },
        Mode::PickType => {
            res.push(seg(" TYPE ", Tone::Cyan, SegKind::Badge));
            res.push(seg("  ", Tone::Dim, SegKind::Text));
            let ghost head = seg_views(res@);
            push_type_pick(&mut res, 0, app.type_cursor);
            push_type_pick(&mut res, 1, app.type_cursor);
            push_type_pick(&mut res, 2, app.type_cursor);
            push_type_pick(&mut res, 3, app.type_cursor);
            let ghost picked = seg_views(res@);
            res.push(seg("  [h/l] pick  [enter] apply  [esc] cancel", Tone::Dim, SegKind::Text));
            assert(seg_views(res@) =~= picked + seq![
                text_seg("  [h/l] pick  [enter] apply  [esc] cancel"@, Tone::Dim),
            ]);
        },
        Mode::Normal => {
            match &app.status {
                Some(msg) => {
                    res.push(seg(" » ", Tone::Faint, SegKind::Text));
                    res.push(seg(msg.as_str(), Tone::Amber, SegKind::Text));
                },
                None => {
                    res = help_segments();
                },
            }
        },
    }
    assert(seg_views(res@) =~= status_view(*app));
    res
}

// ------------------------------------------------------------------
// The statistics strip
// ------------------------------------------------------------------

/// The date of a time stamp, `YYYY-MM-DD` (UTC).
pub open spec fn date_of(secs: u64) -> Seq<char> {
    let t = civil_date(secs as int / 86400);
    date_text(t.0, t.1, t.2)
}

/// How many memories in scope have type `t`, when there are any.
pub open spec fn kind_count(sc: Seq<Memory>, t: Seq<char>) -> Seq<SegView> {
    let n = count_type(sc, t);
    if n > 0 {
        seq![text_seg(t + " "@ + decimal(n) + "  "@, type_tone_spec(t))]
    } else {
        Seq::empty()
    }
}

/// The first line of the strip: the total, then the count of each type
/// present (`?` for memories without one).
pub open spec fn counts_view(sc: Seq<Memory>) -> Seq<SegView> {
    seq![
        SegView { text: decimal(sc.len()) + " "@, tone: Tone::Amber, kind: SegKind::Strong },
        text_seg("· "@, Tone::Faint),
    ] + kind_count(sc, "user"@) + kind_count(sc, "feedback"@) + kind_count(sc, "project"@)
        + kind_count(sc, "reference"@) + kind_count(sc, "?"@)
}

/// The span of creation dates, oldest to newest.
pub open spec fn span_text(sc: Seq<Memory>) -> Seq<char> {
    match (oldest_created(sc), newest_created(sc)) {
        (Some(o), Some(n)) => date_of(o) + " → "@ + date_of(n),
        _ => "no timestamps"@,
    }
}

/// The second line of the strip: how many are new in the last 7 and 30
/// days, and the span of creation dates.
pub open spec fn recency_view(sc: Seq<Memory>, now: u64) -> Seq<SegView> {
    seq![
        text_seg("  "@, Tone::Dim),
        text_seg(
            "new 7d: "@ + decimal(count_recent(sc, now, 7int * 86400)) + "  30d: "@ + decimal(
                count_recent(sc, now, 30int * 86400),
            ),
            Tone::Phosphor,
        ),
        text_seg("  ·  "@ + span_text(sc), Tone::Dim),
    ]
}

fn push_kind_count(
    res: &mut Vec<Segment>,
    library: &Library,
    idxs: &Vec<usize>,
    t: &str,
)
    requires
        forall|k: int| 0 <= k < idxs@.len() ==> #[trigger] idxs@[k] < library.memories@.len(),
    ensures
        seg_views(final(res)@) == seg_views(old(res)@) + kind_count(
            in_scope(library.memories@, idxs@),
            t@,
        ),
{
    let ghost before = res@;
    let n = type_count(library, idxs, t);
    if n > 0 {
        let mut v = chars_of(t);
        append(&mut v, &chars_of(" "));
        append(&mut v, &decimal_chars(n as u64));
        append(&mut v, &chars_of("  "));
        res.push(seg_of(&v, type_tone(t), SegKind::Text));
    }
    assert(seg_views(res@) =~= seg_views(before) + kind_count(
        in_scope(library.memories@, idxs@),
        t@,
    ));
}

/// The statistics strip over the memories in scope, at time `now`: its two
/// lines.
pub fn stats_segments(library: &Library, idxs: &Vec<usize>, now: u64) -> (res: (
    Vec<Segment>,
    Vec<Segment>,
))
    requires
        forall|k: int| 0 <= k < idxs@.len() ==> #[trigger] idxs@[k] < library.memories@.len(),
    ensures
        seg_views(res.0@) == counts_view(in_scope(library.memories@, idxs@)),
        seg_views(res.1@) == recency_view(in_scope(library.memories@, idxs@), now),
{
    let ghost sc = in_scope(library.memories@, idxs@);
    let st = scope_stats(library, idxs, now);
    let mut counts: Vec<Segment> = Vec::new();
    let mut total = decimal_chars(st.total as u64);
    append(&mut total, &chars_of(" "));
    counts.push(seg_of(&total, Tone::Amber, SegKind::Strong));
    counts.push(seg("· ", Tone::Faint, SegKind::Text));
    assert(seg_views(counts@) =~= seq![
        SegView { text: decimal(sc.len()) + " "@, tone: Tone::Amber, kind: SegKind::Strong },
        text_seg("· "@, Tone::Faint),
    ]);
    push_kind_count(&mut counts, library, idxs, "user");
    push_kind_count(&mut counts, library, idxs, "feedback");
    push_kind_count(&mut counts, library, idxs, "project");
    push_kind_count(&mut counts, library, idxs, "reference");
    push_kind_count(&mut counts, library, idxs, "?");
    let mut recency: Vec<Segment> = Vec::new();
    recency.push(seg("  ", Tone::Dim, SegKind::Text));
    let mut r = chars_of("new 7d: ");
    append(&mut r, &decimal_chars(st.new_7d as u64));
    append(&mut r, &chars_of("  30d: "));
    append(&mut r, &decimal_chars(st.new_30d as u64));
    recency.push(seg_of(&r, Tone::Phosphor, SegKind::Text));
    let mut sp = chars_of("  ·  ");
    match (st.oldest, st.newest) {
        (Some(o), Some(n)) => {
            append(&mut sp, &chars_of(fmt_date(o).as_str()));
            append(&mut sp, &chars_of(" → "));
            append(&mut sp, &chars_of(fmt_date(n).as_str()));
            assert(sp@ =~= "  ·  "@ + (date_of(o) + " → "@ + date_of(n)));
        },
        _ => append(&mut sp, &chars_of("no timestamps")),
    }
    assert(sp@ == "  ·  "@ + span_text(sc));
    assert(r@ =~= "new 7d: "@ + decimal(count_recent(sc, now, 7int * 86400)) + "  30d: "@
        + decimal(count_recent(sc, now, 30int * 86400)));
    recency.push(seg_of(&sp, Tone::Dim, SegKind::Text));
    assert(seg_views(recency@) =~= recency_view(sc, now));
    (counts, recency)
}

} // verus!
