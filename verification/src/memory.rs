//! Memory files: frontmatter splitting and parsing, project labels, and
//! the assembly of a scanned directory tree into a [`Library`].
//!
//! Layout on disk:
//!   `<config-dir>/projects/<mangled-project-path>/memory/`
//!     `MEMORY.md` (the human-curated index, not a memory) and
//!     `<slug>.md` (one memory each, with YAML-ish frontmatter).

use vstd::prelude::*;
use crate::text::{
    chars_eq, chars_of, has_prefix, lines, lines_of, starts_with, string_of, sub_lines, trim_end_by,
    trim_end_chars, trim_start_by, trim_start_chars, unlines, unlines_chars, views, Strip, trim, trim_by, trim_chars,
    split_once, split_once_chars, rfind, rfind_chars, slice, lemma_last_match_below, ascii_ci_eq,
    eq_ignore_ascii_case, is_stable_order, sort_order,
};

verus! {

/// A single extracted memory (one `<slug>.md` file).
#[derive(Clone)]
pub struct Memory {
    /// Best-effort short label of the owning project.
    pub project: String,
    /// Raw mangled directory name of the project.
    pub project_dir: String,
    /// Path of the `.md` file.
    pub path: String,
    /// File stem.
    pub slug: String,
    /// Frontmatter `name`, or the slug when absent.
    pub name: String,
    /// Frontmatter `description`.
    pub description: String,
    /// Frontmatter `type` (flat or under `metadata:`), `?` when absent.
    pub mtype: String,
    /// Markdown after the frontmatter block, trimmed.
    pub body: String,
    /// Creation time of the file (UNIX seconds), when known.
    pub created: Option<u64>,
    /// Last modification time of the file (UNIX seconds), when known.
    pub modified: Option<u64>,
}

/// A project that owns one or more memories.
pub struct Project {
    /// Best-effort short name.
    pub label: String,
    /// The project's memory directory.
    pub mem_dir: String,
    /// Indices into the flat memory vector.
    pub memory_idx: Vec<usize>,
}

/// Result of a full scan: every memory, flat, plus the per-project grouping.
pub struct Library {
    pub memories: Vec<Memory>,
    pub projects: Vec<Project>,
}

// ------------------------------------------------------------------
// Frontmatter splitting
// ------------------------------------------------------------------

/// The byte-order mark tolerated before the opening fence.
pub open spec fn bom() -> char {
    '\u{feff}'
}

pub open spec fn dashes() -> Seq<char> {
    seq!['-', '-', '-']
}

/// A closing fence: a line that is `---` once trailing whitespace is dropped.
pub open spec fn is_fence(l: Seq<char>) -> bool {
    trim_end_by(l, Strip::Whitespace) == dashes()
}

/// The first fence at index `i` or later.
pub open spec fn fence_from(ls: Seq<Seq<char>>, i: int) -> Option<int>
    decreases ls.len() - i,
{
    if i < 0 || i >= ls.len() {
        None
    } else if is_fence(ls[i]) {
        Some(i)
    } else {
        fence_from(ls, i + 1)
    }
}

/// The frontmatter and body of `raw`.  Without an opening `---` (after an
/// optional BOM), or without a closing fence, there is no frontmatter and
/// the body is the whole input.
pub open spec fn frontmatter_split(raw: Seq<char>) -> (Seq<char>, Seq<char>) {
    let t = trim_start_by(raw, Strip::Char(bom()));
    if !has_prefix(t, dashes()) {
        (Seq::empty(), raw)
    } else {
        let ls = lines(t);
        match fence_from(ls, 1) {
            None => (Seq::empty(), raw),
            Some(k) => (unlines(ls.subrange(1, k)), unlines(ls.subrange(k + 1, ls.len() as int))),
        }
    }
}

pub proof fn lemma_fence_from(ls: Seq<Seq<char>>, i: int)
    requires
        0 <= i,
    ensures
        fence_from(ls, i) matches Some(k) ==> i <= k < ls.len() && is_fence(ls[k]) && forall|
            j: int,
        |
            i <= j < k ==> !is_fence(#[trigger] ls[j]),
        fence_from(ls, i) is None ==> forall|j: int| i <= j < ls.len() ==> !is_fence(#[trigger] ls[j]),
    decreases ls.len() - i,
{
    if i < ls.len() && !is_fence(ls[i]) {
        lemma_fence_from(ls, i + 1);
    }
}

fn dashes_vec() -> (res: Vec<char>)
    ensures
        res@ == dashes(),
{
    let res = vec!['-', '-', '-'];
    assert(res@ =~= dashes());
    res
}

/// Whether `l` is a closing fence.
pub fn is_fence_line(l: &Vec<char>) -> (res: bool)
    ensures
        res == is_fence(l@),
{
    let t = trim_end_chars(l, Strip::Whitespace);
    chars_eq(&t, &dashes_vec())
}

/// The index of the first fence at or after `from`.
pub fn find_fence(ls: &Vec<Vec<char>>, from: usize) -> (res: Option<usize>)
    ensures
        res matches Some(k) ==> fence_from(views(ls@), from as int) == Some(k as int),
        res is None ==> fence_from(views(ls@), from as int) is None,
{
    let mut i: usize = from;
    while i < ls.len()
        invariant
            from <= i,
            fence_from(views(ls@), i as int) == fence_from(views(ls@), from as int),
        decreases ls@.len() - i,
    {
        assert(views(ls@)[i as int] == ls@[i as int]@);
        if is_fence_line(&ls[i]) {
            return Some(i);
        }
        i += 1;
    }
    None
}

/// Split a `---`-fenced YAML frontmatter block from the markdown body.
/// Without frontmatter the result is `("", raw)`.
pub fn split_frontmatter(raw: &str) -> (res: (String, String))
    ensures
        (res.0@, res.1@) == frontmatter_split(raw@),
{
    let raw_v = chars_of(raw);
    let t = trim_start_chars(&raw_v, Strip::Char('\u{feff}'));
    if !starts_with(&t, &dashes_vec()) {
        return (String::new(), raw.to_owned());
    }
    let ls = lines_of(&t);
    match find_fence(&ls, 1) {
        None => (String::new(), raw.to_owned()),
        Some(k) => {
            proof {
                lemma_fence_from(views(ls@), 1);
            }
            let front = sub_lines(&ls, 1, k);
            let body = sub_lines(&ls, k + 1, ls.len());
            (string_of(&unlines_chars(&front)), string_of(&unlines_chars(&body)))
        },
    }
}


// ------------------------------------------------------------------
// Frontmatter fields
// ------------------------------------------------------------------

/// The fields gathered so far by the line-by-line frontmatter reader.
pub struct Fields {
    pub name: Seq<char>,
    pub description: Seq<char>,
    pub mtype: Seq<char>,
    /// The reader is inside a `metadata:` block.
    pub in_metadata: bool,
}

pub open spec fn no_fields() -> Fields {
    Fields {
        name: Seq::empty(),
        description: Seq::empty(),
        mtype: Seq::empty(),
        in_metadata: false,
    }
}

/// A line starting with a space or a tab.
pub open spec fn is_indented(l: Seq<char>) -> bool {
    l.len() > 0 && (l[0] == ' ' || l[0] == '\t')
}

/// A value with surrounding whitespace, then double quotes, then single
/// quotes removed.
pub open spec fn clean_value(v: Seq<char>) -> Seq<char> {
    trim_by(trim_by(trim(v), Strip::Char('"')), Strip::Char('\''))
}

/// The key and value of a frontmatter line: the trimmed line split at its
/// first colon, the key trimmed and the value cleaned.
pub open spec fn key_value(l: Seq<char>) -> Option<(Seq<char>, Seq<char>)> {
    match split_once(trim(l), ':') {
        Some((k, v)) => Some((trim(k), clean_value(v))),
        None => None,
    }
}

/// How one frontmatter line changes the gathered fields.  A top-level
/// `name:` / `description:` sets that field; `type:` counts at top level or
/// inside `metadata:`; `metadata:` with an empty value opens the block and any
/// other top-level key closes it.
pub open spec fn step(f: Fields, l: Seq<char>) -> Fields {
    let ind = is_indented(l);
    match key_value(l) {
        None => f,
        Some((key, val)) => if key == "metadata"@ && val.len() == 0 {
            Fields { in_metadata: true, ..f }
        } else if key == "name"@ && !ind {
            Fields { name: val, ..f }
        } else if key == "description"@ && !ind {
            Fields { description: val, ..f }
        } else if key == "type"@ {
            if !ind || f.in_metadata {
                Fields { mtype: val, ..f }
            } else {
                f
            }
        } else if !ind {
            Fields { in_metadata: false, ..f }
        } else {
            f
        },
    }
}

/// The fields after reading every line, in order.
pub open spec fn read_fields(ls: Seq<Seq<char>>) -> Fields
    decreases ls.len(),
{
    if ls.len() == 0 {
        no_fields()
    } else {
        step(read_fields(ls.drop_last()), ls.last())
    }
}

/// The fields of the frontmatter of `raw`.
pub open spec fn frontmatter_fields(raw: Seq<char>) -> Fields {
    read_fields(lines(frontmatter_split(raw).0))
}

/// The memory's name: the frontmatter `name`, else the slug.
pub open spec fn memory_name(raw: Seq<char>, slug: Seq<char>) -> Seq<char> {
    let n = frontmatter_fields(raw).name;
    if n.len() == 0 {
        slug
    } else {
        n
    }
}

/// The memory's type: the frontmatter `type`, else `?`.
pub open spec fn memory_type(raw: Seq<char>) -> Seq<char> {
    let t = frontmatter_fields(raw).mtype;
    if t.len() == 0 {
        seq!['?']
    } else {
        t
    }
}

/// The memory's body: what follows the frontmatter, trimmed.
pub open spec fn memory_body(raw: Seq<char>) -> Seq<char> {
    trim(frontmatter_split(raw).1)
}

/// The key and value of one frontmatter line.
pub fn key_value_of(l: &Vec<char>) -> (res: Option<(Vec<char>, Vec<char>)>)
    ensures
        res matches Some((k, v)) ==> key_value(l@) == Some((k@, v@)),
        res is None ==> key_value(l@) is None,
{
    let t = trim_chars(l, Strip::Whitespace);
    match split_once_chars(&t, ':') {
        Some((k, v)) => {
            let key = trim_chars(&k, Strip::Whitespace);
            let v1 = trim_chars(&v, Strip::Whitespace);
            let v2 = trim_chars(&v1, Strip::Char('"'));
            let val = trim_chars(&v2, Strip::Char('\''));
            Some((key, val))
        },
        None => None,
    }
}

/// Executable counterpart of [`Fields`].
struct FieldsExec {
    name: Vec<char>,
    description: Vec<char>,
    mtype: Vec<char>,
    in_metadata: bool,
}

impl FieldsExec {
    spec fn view_fields(&self) -> Fields {
        Fields {
            name: self.name@,
            description: self.description@,
            mtype: self.mtype@,
            in_metadata: self.in_metadata,
        }
    }
}

/// Applies one frontmatter line.
fn step_exec(f: &mut FieldsExec, l: &Vec<char>)
    ensures
        final(f).view_fields() == step(old(f).view_fields(), l@),
{
    let ind = l.len() > 0 && (l[0] == ' ' || l[0] == '\t');
    match key_value_of(l) {
        None => {},
        Some((key, val)) => {
            if chars_eq(&key, &chars_of("metadata")) && val.len() == 0 {
                f.in_metadata = true;
            } else if chars_eq(&key, &chars_of("name")) && !ind {
                f.name = val;
            } else if chars_eq(&key, &chars_of("description")) && !ind {
                f.description = val;
            } else if chars_eq(&key, &chars_of("type")) {
                if !ind || f.in_metadata {
                    f.mtype = val;
                }
            } else if !ind {
                f.in_metadata = false;
            }
        },
    }
}

/// Core parse: frontmatter and body of `raw` into a [`Memory`].
pub fn parse_str(raw: &str, slug: &str, project: &str, project_dir: &str, path: &str) -> (m:
    Memory)
    ensures
        m.name@ == memory_name(raw@, slug@),
        m.description@ == frontmatter_fields(raw@).description,
        m.mtype@ == memory_type(raw@),
        m.body@ == memory_body(raw@),
        m.slug@ == slug@,
        m.project@ == project@,
        m.project_dir@ == project_dir@,
        m.path@ == path@,
        m.created is None,
        m.modified is None,
{
    let (front, body) = split_frontmatter(raw);
    let ls = lines_of(&chars_of(front.as_str()));
    let mut f = FieldsExec {
        name: Vec::new(),
        description: Vec::new(),
        mtype: Vec::new(),
        in_metadata: false,
    };
    let mut i: usize = 0;
    proof {
        assert(views(ls@).take(0) =~= Seq::<Seq<char>>::empty());
        assert(f.view_fields() == no_fields()) by {
            assert(f.name@ =~= Seq::<char>::empty());
            assert(f.description@ =~= Seq::<char>::empty());
            assert(f.mtype@ =~= Seq::<char>::empty());
        }
    }
    while i < ls.len()
        invariant
            i <= ls@.len(),
            f.view_fields() == read_fields(views(ls@).take(i as int)),
        decreases ls@.len() - i,
    {
        step_exec(&mut f, &ls[i]);
        proof {
            assert(views(ls@).take(i + 1).drop_last() =~= views(ls@).take(i as int));
            assert(views(ls@).take(i + 1).last() == ls@[i as int]@);
        }
        i += 1;
    }
    proof {
        assert(views(ls@).take(ls@.len() as int) =~= views(ls@));
    }
    let name = if f.name.len() == 0 {
        slug.to_owned()
    } else {
        string_of(&f.name)
    };
    let mtype = if f.mtype.len() == 0 {
        let q = vec!['?'];
        assert(q@ =~= seq!['?']);
        string_of(&q)
    } else {
        string_of(&f.mtype)
    };
    let body_t = trim_chars(&chars_of(body.as_str()), Strip::Whitespace);
    Memory {
        project: project.to_owned(),
        project_dir: project_dir.to_owned(),
        path: path.to_owned(),
        slug: slug.to_owned(),
        name,
        description: string_of(&f.description),
        mtype,
        body: string_of(&body_t),
        created: None,
        modified: None,
    }
}


// ------------------------------------------------------------------
// Project labels and file names
// ------------------------------------------------------------------

/// The marker before the project name in a mangled directory.
pub open spec fn code_marker() -> Seq<char> {
    seq!['-', 'c', 'o', 'd', 'e', '-']
}

/// Best-effort short label of a mangled project directory: what follows the
/// last `-code-`, else the name without leading dashes.
pub open spec fn project_label(dir: Seq<char>) -> Seq<char> {
    match rfind(dir, code_marker()) {
        Some(p) => dir.skip(p + 6),
        None => trim_start_by(dir, Strip::Char('-')),
    }
}

/// Best-effort short name from a mangled dir like
/// `-Users-jane-code-my-app` -> `my-app`.
///
/// The mangling replaces both `/` and `.` with `-`, so it is lossy: this
/// takes everything after the last `-code-` segment when present, otherwise
/// the raw name with its leading dashes stripped.
pub fn short_label(dir: &str) -> (res: String)
    ensures
        res@ == project_label(dir@),
{
    let d = chars_of(dir);
    let marker = vec!['-', 'c', 'o', 'd', 'e', '-'];
    assert(marker@ =~= code_marker());
    match rfind_chars(&d, &marker) {
        Some(pos) => {
            proof {
                lemma_last_match_below(d@, marker@, d@.len() + 1);
            }
            let dl: usize = d.len();
            assert(pos + 6 <= dl);
            string_of(&slice(&d, pos + 6, dl))
        },
        None => string_of(&trim_start_chars(&d, Strip::Char('-'))),
    }
}

/// The name of the project index file.
pub open spec fn index_file_name() -> Seq<char> {
    seq!['M', 'E', 'M', 'O', 'R', 'Y', '.', 'm', 'd']
}

/// The file name has the extension `md` (as `Path::extension` sees it: the
/// part after the last dot, unless that dot starts the name).
pub open spec fn has_md_extension(name: Seq<char>) -> bool {
    match rfind(name, seq!['.']) {
        Some(i) => i > 0 && name.skip(i + 1) == seq!['m', 'd'],
        None => false,
    }
}

/// A memory file: a `.md` file other than the index (compared ignoring
/// ASCII case).
pub open spec fn is_memory_file_name(name: Seq<char>) -> bool {
    has_md_extension(name) && !ascii_ci_eq(name, index_file_name())
}

/// The slug of a `.md` file: its name without the extension.
pub open spec fn slug_of_file(name: Seq<char>) -> Seq<char> {
    match rfind(name, seq!['.']) {
        Some(i) => name.take(i),
        None => name,
    }
}

/// Whether a directory entry with this file name is a memory.
pub fn is_memory_file(name: &str) -> (res: bool)
    ensures
        res == is_memory_file_name(name@),
{
    let n = chars_of(name);
    let dot = vec!['.'];
    let md = vec!['m', 'd'];
    let index = vec!['M', 'E', 'M', 'O', 'R', 'Y', '.', 'm', 'd'];
    assert(dot@ =~= seq!['.']);
    assert(md@ =~= seq!['m', 'd']);
    assert(index@ =~= index_file_name());
    let ext = match rfind_chars(&n, &dot) {
        Some(i) => {
            proof {
                lemma_last_match_below(n@, dot@, n@.len() + 1);
            }
            let nl: usize = n.len();
            assert(i + 1 <= nl);
            i > 0 && chars_eq(&slice(&n, i + 1, nl), &md)
        },
        None => false,
    };
    ext && !eq_ignore_ascii_case(&n, &index)
}

/// The slug of a memory file name.
pub fn file_slug(name: &str) -> (res: String)
    ensures
        res@ == slug_of_file(name@),
{
    let n = chars_of(name);
    let dot = vec!['.'];
    assert(dot@ =~= seq!['.']);
    match rfind_chars(&n, &dot) {
        Some(i) => {
            proof {
                lemma_last_match_below(n@, dot@, n@.len() + 1);
            }
            string_of(&slice(&n, 0, i))
        },
        None => string_of(&n),
    }
}


// ------------------------------------------------------------------
// Assembling a scan
// ------------------------------------------------------------------

/// A file found in a project's memory directory.
pub struct FileEntry {
    pub file_name: String,
    pub path: String,
    /// The file's text, `None` when it could not be read.
    pub raw: Option<String>,
    pub created: Option<u64>,
    pub modified: Option<u64>,
}

/// A project directory that has a memory directory.
pub struct ProjectListing {
    /// The mangled directory name.
    pub dir_name: String,
    /// Its memory directory.
    pub mem_dir: String,
    /// The entries of the memory directory.
    pub files: Vec<FileEntry>,
}

/// A file that becomes a memory: a `.md` file other than the index, whose
/// text could be read.
pub open spec fn eligible(f: FileEntry) -> bool {
    is_memory_file_name(f.file_name@) && f.raw is Some
}

pub open spec fn file_names(l: ProjectListing) -> Seq<Seq<char>> {
    Seq::new(l.files@.len(), |i: int| l.files@[i].file_name@)
}

pub open spec fn dir_names(ls: Seq<ProjectListing>) -> Seq<Seq<char>> {
    Seq::new(ls.len(), |i: int| ls[i].dir_name@)
}

/// The eligible files of `l`, taken in the order `fo`.
pub open spec fn eligible_in(l: ProjectListing, fo: Seq<usize>) -> Seq<usize>
    decreases fo.len(),
{
    if fo.len() == 0 {
        Seq::empty()
    } else {
        let r = eligible_in(l, fo.drop_last());
        if eligible(l.files@[fo.last() as int]) {
            r.push(fo.last())
        } else {
            r
        }
    }
}

/// Pairs each file position in `e` with the listing `k`.
pub open spec fn tagged(k: usize, e: Seq<usize>) -> Seq<(usize, usize)> {
    Seq::new(e.len(), |t: int| (k, e[t]))
}

/// The (listing, file) source of each memory, the listings taken in the
/// order `po` and the files of listing `k` in the order `fo[k]`.
pub open spec fn memory_sources(ls: Seq<ProjectListing>, po: Seq<usize>, fo: Seq<Seq<usize>>) -> Seq<
    (usize, usize),
>
    decreases po.len(),
{
    if po.len() == 0 {
        Seq::empty()
    } else {
        let k = po.last();
        memory_sources(ls, po.drop_last(), fo) + tagged(k, eligible_in(ls[k as int], fo[k as int]))
    }
}

/// The (listing, first memory, number of memories) of each project: the
/// listings with at least one memory, in the order `po`.
pub open spec fn project_sources(ls: Seq<ProjectListing>, po: Seq<usize>, fo: Seq<Seq<usize>>) -> Seq<
    (usize, nat, nat),
>
    decreases po.len(),
{
    if po.len() == 0 {
        Seq::empty()
    } else {
        let k = po.last();
        let e = eligible_in(ls[k as int], fo[k as int]);
        let r = project_sources(ls, po.drop_last(), fo);
        if e.len() > 0 {
            r.push((k, memory_sources(ls, po.drop_last(), fo).len(), e.len()))
        } else {
            r
        }
    }
}

/// `m` is the memory parsed from file `f` of listing `l`.
pub open spec fn memory_from(m: Memory, l: ProjectListing, f: FileEntry) -> bool {
    &&& f.raw matches Some(raw) && {
        &&& m.name@ == memory_name(raw@, slug_of_file(f.file_name@))
        &&& m.description@ == frontmatter_fields(raw@).description
        &&& m.mtype@ == memory_type(raw@)
        &&& m.body@ == memory_body(raw@)
    }
    &&& m.slug@ == slug_of_file(f.file_name@)
    &&& m.project@ == project_label(l.dir_name@)
    &&& m.project_dir@ == l.dir_name@
    &&& m.path@ == f.path@
    &&& m.created == f.created
    &&& m.modified == f.modified
}

/// `p` is the project of listing `l`, owning memories `start..start+count`.
pub open spec fn project_from(p: Project, l: ProjectListing, start: nat, count: nat) -> bool {
    &&& p.label@ == project_label(l.dir_name@)
    &&& p.mem_dir@ == l.mem_dir@
    &&& p.memory_idx@ == Seq::new(count, |t: int| (start + t) as usize)
}

/// The memories hold, in order, one memory per eligible file.
pub open spec fn memories_ok(mems: Seq<Memory>, ls: Seq<ProjectListing>, po: Seq<usize>, fo: Seq<Seq<usize>>) -> bool {
    let ms = memory_sources(ls, po, fo);
    &&& mems.len() == ms.len()
    &&& forall|j: int|
        0 <= j < ms.len() ==> memory_from(
            #[trigger] mems[j],
            ls[ms[j].0 as int],
            ls[ms[j].0 as int].files@[ms[j].1 as int],
        )
}

/// The projects hold, in order, one project per listing with memories.
pub open spec fn projects_ok(ps_: Seq<Project>, ls: Seq<ProjectListing>, po: Seq<usize>, fo: Seq<Seq<usize>>) -> bool {
    let ps = project_sources(ls, po, fo);
    &&& ps_.len() == ps.len()
    &&& forall|p: int|
        0 <= p < ps.len() ==> project_from(#[trigger] ps_[p], ls[ps[p].0 as int], ps[p].1, ps[p].2)
}

/// `lib` holds, in the orders `po` and `fo`, a memory for each eligible
/// file and a project for each listing with at least one.
pub open spec fn assembled(lib: Library, ls: Seq<ProjectListing>, po: Seq<usize>, fo: Seq<Seq<usize>>) -> bool {
    memories_ok(lib.memories@, ls, po, fo) && projects_ok(lib.projects@, ls, po, fo)
}

pub proof fn lemma_sources(ls: Seq<ProjectListing>, po: Seq<usize>, fo: Seq<Seq<usize>>)
    ensures
        forall|p: int|
            0 <= p < project_sources(ls, po, fo).len() ==> #[trigger] project_sources(ls, po, fo)[p].1
                + project_sources(ls, po, fo)[p].2 <= memory_sources(ls, po, fo).len(),
        project_sources(ls, po, fo).len() <= po.len(),
    decreases po.len(),
{
    if po.len() > 0 {
        lemma_sources(ls, po.drop_last(), fo);
    }
}

/// Every index in the grouping points at a memory, and the projects (with
/// the synthetic ALL entry) can be counted.
pub open spec fn library_wf(lib: &Library) -> bool {
    &&& lib.projects@.len() < usize::MAX
    &&& forall|p: int, k: int|
        0 <= p < lib.projects@.len() && 0 <= k < lib.projects@[p].memory_idx@.len()
            ==> #[trigger] lib.projects@[p].memory_idx@[k] < lib.memories@.len()
}

/// Turns the directory listings of a scan into a [`Library`]: projects in
/// directory-name order, each with its memories in file-name order; a file
/// is a memory when [`eligible`]; a project without memories is left out.
///
/// A directory's `MEMORY.md` (in any letter case) is the index of its
/// memories, not a memory, and is left out of the scan.  The README speaks
/// of the index as an entry of type `index`; the scan's own contract and its
/// test leave it out, and that is the reading followed here.  An entry of
/// type `index` is then a memory file that declares `type: index`; it is
/// still hidden from the ALL view and shown as a ledger.
pub fn assemble(listings: &Vec<ProjectListing>) -> (lib: Library)
    requires
        listings@.len() < usize::MAX,
    ensures
        library_wf(&lib),
        exists|po: Seq<usize>, fo: Seq<Seq<usize>>|
            {
                &&& is_stable_order(dir_names(listings@), po)
                &&& fo.len() == listings@.len()
                &&& forall|k: int|
                    0 <= k < listings@.len() ==> is_stable_order(
                        file_names(#[trigger] listings@[k]),
                        fo[k],
                    )
                &&& assembled(lib, listings@, po, fo)
            },
{
    let ghost ls = listings@;
    // Directory order.
    let mut names: Vec<Vec<char>> = Vec::new();
    let mut i: usize = 0;
    while i < listings.len()
        invariant
            i <= ls.len(),
            ls == listings@,
            views(names@) =~= dir_names(ls).take(i as int),
        decreases ls.len() - i,
    {
        let ghost before = views(names@);
        names.push(chars_of(listings[i].dir_name.as_str()));
        proof {
            assert(views(names@) =~= before.push(ls[i as int].dir_name@));
        }
        i += 1;
    }
    assert(views(names@) =~= dir_names(ls));
    let po = sort_order(&names);
    // File orders.
    let mut forders: Vec<Vec<usize>> = Vec::new();
    let mut k: usize = 0;
    while k < listings.len()
        invariant
            k <= ls.len(),
            ls == listings@,
            forders@.len() == k,
            forall|j: int| 0 <= j < k ==> is_stable_order(file_names(#[trigger] ls[j]), forders@[j]@),
        decreases ls.len() - k,
    {
        let files = &listings[k].files;
        let mut fnames: Vec<Vec<char>> = Vec::new();
        let mut t: usize = 0;
        while t < files.len()
            invariant
                t <= files@.len(),
                files@ == ls[k as int].files@,
                views(fnames@) =~= file_names(ls[k as int]).take(t as int),
            decreases files@.len() - t,
        {
            let ghost before = views(fnames@);
            fnames.push(chars_of(files[t].file_name.as_str()));
            proof {
                assert(views(fnames@) =~= before.push(files@[t as int].file_name@));
            }
            t += 1;
        }
        assert(views(fnames@) =~= file_names(ls[k as int]));
        forders.push(sort_order(&fnames));
        k += 1;
    }
    let ghost fo: Seq<Seq<usize>> = Seq::new(forders@.len(), |j: int| forders@[j]@);
    // Memories and projects.
    let mut memories: Vec<Memory> = Vec::new();
    let mut projects: Vec<Project> = Vec::new();
    let mut i: usize = 0;
    while i < po.len()
        invariant
            i <= po@.len(),
            ls == listings@,
            is_stable_order(dir_names(ls), po@),
            forders@.len() == ls.len(),
            fo.len() == ls.len(),
            forall|j: int| 0 <= j < ls.len() ==> #[trigger] fo[j] == forders@[j]@,
            forall|j: int| 0 <= j < ls.len() ==> is_stable_order(file_names(#[trigger] ls[j]), fo[j]),
            memories_ok(memories@, ls, po@.take(i as int), fo),
            projects_ok(projects@, ls, po@.take(i as int), fo),
        decreases po@.len() - i,
    {
        let k = po[i];
        let l = &listings[k];
        let fk = &forders[k];
        let label = short_label(l.dir_name.as_str());
        let mut idxs: Vec<usize> = Vec::new();
        let ghost ms0 = memory_sources(ls, po@.take(i as int), fo);
        let ghost ps0 = project_sources(ls, po@.take(i as int), fo);
        let ghost start = memories@.len();
        let ghost old_mems = memories@;
        proof {
            assert(po@.take(i as int).len() == i);
        }
        let mut t: usize = 0;
        while t < fk.len()
            invariant
                t <= fk@.len(),
                fk@ == fo[k as int],
                ls == listings@,
                *l == ls[k as int],
                k < ls.len(),
                label@ == project_label(l.dir_name@),
                is_stable_order(file_names(*l), fk@),
                start == ms0.len(),
                memories@.len() == start + eligible_in(*l, fk@.take(t as int)).len(),
                forall|j: int| 0 <= j < start ==> #[trigger] memories@[j] == old_mems[j],
                idxs@ == Seq::new(eligible_in(*l, fk@.take(t as int)).len(), |u: int| (start + u) as usize),
                forall|u: int| 0 <= u < eligible_in(*l, fk@.take(t as int)).len() ==> memory_from(
                    #[trigger] memories@[start + u],
                    *l,
                    l.files@[eligible_in(*l, fk@.take(t as int))[u] as int],
                ),
            decreases fk@.len() - t,
        {
            proof {
                assert(fk@.take(t + 1).drop_last() =~= fk@.take(t as int));
            }
            let f = &l.files[fk[t]];
            if is_memory_file(f.file_name.as_str()) {
                if let Some(raw) = &f.raw {
                    let slug = file_slug(f.file_name.as_str());
                    let mut m = parse_str(raw.as_str(), slug.as_str(), label.as_str(), l.dir_name.as_str(), f.path.as_str());
                    m.created = f.created;
                    m.modified = f.modified;
                    idxs.push(memories.len());
                    memories.push(m);
                }
            }
            t += 1;
        }
        let ghost e = eligible_in(*l, fk@);
        proof {
            assert(fk@.take(fk@.len() as int) =~= fk@);
        }
        let ghost old_projects = projects@;
        if idxs.len() > 0 {
            projects.push(Project { label, mem_dir: l.mem_dir.clone(), memory_idx: idxs });
        }
        proof {
            let pt = po@.take(i + 1);
            assert(pt.drop_last() =~= po@.take(i as int));
            assert(pt.last() == k);
            let ms1 = memory_sources(ls, pt, fo);
            assert(ms1 == ms0 + tagged(k, e));
            assert forall|j: int| 0 <= j < ms1.len() implies memory_from(
                #[trigger] memories@[j],
                ls[ms1[j].0 as int],
                ls[ms1[j].0 as int].files@[ms1[j].1 as int],
            ) by {
                if j < start {
                    assert(ms1[j] == ms0[j]);
                    assert(memories@[j] == old_mems[j]);
                    assert(memory_from(
                        old_mems[j],
                        ls[ms0[j].0 as int],
                        ls[ms0[j].0 as int].files@[ms0[j].1 as int],
                    ));
                } else {
                    let u = j - start;
                    assert(ms1[j] == (k, e[u]));
                    assert(memories@[start + u] == memories@[j]);
                    assert(memory_from(memories@[start + u], *l, l.files@[e[u] as int]));
                }
            }
            let ps1 = project_sources(ls, pt, fo);
            assert forall|p: int| 0 <= p < ps1.len() implies project_from(
                #[trigger] projects@[p],
                ls[ps1[p].0 as int],
                ps1[p].1,
                ps1[p].2,
            ) by {
                if p < ps0.len() {
                    assert(ps1[p] == ps0[p]);
                    assert(projects@[p] == old_projects[p]);
                }
            }
        }
        i += 1;
    }
    proof {
        assert(po@.take(po@.len() as int) =~= po@);
    }
    let lib = Library { memories, projects };
    assert(assembled(lib, ls, po@, fo));
    proof {
        lemma_sources(ls, po@, fo);
        let ps = project_sources(ls, po@, fo);
        assert forall|p: int, t: int|
            0 <= p < lib.projects@.len() && 0 <= t < lib.projects@[p].memory_idx@.len()
                implies #[trigger] lib.projects@[p].memory_idx@[t] < lib.memories@.len() by {
            assert(project_from(lib.projects@[p], ls[ps[p].0 as int], ps[p].1, ps[p].2));
            assert(ps[p].1 + ps[p].2 <= memory_sources(ls, po@, fo).len());
        }
    }
    assert(forall|k: int|
        0 <= k < listings@.len() ==> is_stable_order(file_names(#[trigger] listings@[k]), fo[k]));
    lib
}

} // verus!
