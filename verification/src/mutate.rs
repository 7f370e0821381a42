//! The text transformations behind mutations of memory files: rewriting a
//! memory's `type`, keeping the `MEMORY.md` index in sync, the template of a
//! new memory, slugs and backup names.
//!
//! The order of the disk work around these texts (a backup of each file or
//! index before it is removed, moved or rewritten, and the index kept in
//! sync on insert, delete and move) is laid down in `steps`.

use vstd::prelude::*;
use crate::text::{
    append, chars_of, concat, decimal, decimal_chars, has_prefix, has_suffix,
    is_ascii_alnum, is_ascii_alphanumeric, join, join_chars, lead_count, lead_len, lemma_lead_len,
    lines, lines_of, slice, split_chars, split_on, starts_with, string_of, to_lowercase, trim,
    trim_chars, trim_start_by, trim_start_chars, views, lower, Strip, contains, contains_chars,
    ends_with, no_capital,
};
use crate::memory::{bom, dashes, fence_from, find_fence, lemma_fence_from};
use crate::laws::{is_kebab, lemma_slug_settled};

verus! {

// ------------------------------------------------------------------
// Slugs
// ------------------------------------------------------------------

/// ASCII letters and digits kept, everything else a dash.
pub open spec fn slug_chars(s: Seq<char>) -> Seq<char> {
    Seq::new(s.len(), |i: int| if is_ascii_alnum(s[i]) { s[i] } else { '-' })
}

/// The non-empty pieces, in order.
pub open spec fn nonempty(ps: Seq<Seq<char>>) -> Seq<Seq<char>>
    decreases ps.len(),
{
    if ps.len() == 0 {
        Seq::empty()
    } else if ps.last().len() > 0 {
        nonempty(ps.drop_last()).push(ps.last())
    } else {
        nonempty(ps.drop_last())
    }
}

/// The slug of an already lower-cased text: non-alphanumerics become
/// dashes, and runs of dashes collapse to one, none at either end.
pub open spec fn slug_of_lowercase(s: Seq<char>) -> Seq<char> {
    join(nonempty(split_on(slug_chars(s), '-')), seq!['-'])
}

/// What [`sanitize_slug`] gives for `input`.
pub open spec fn sanitized(input: Seq<char>) -> Seq<char> {
    slug_of_lowercase(lower(trim(input)))
}

fn nonempty_pieces(ps: &Vec<Vec<char>>) -> (res: Vec<Vec<char>>)
    ensures
        views(res@) == nonempty(views(ps@)),
{
    let mut res: Vec<Vec<char>> = Vec::new();
    let mut i: usize = 0;
    while i < ps.len()
        invariant
            i <= ps@.len(),
            views(res@) == nonempty(views(ps@).take(i as int)),
        decreases ps@.len() - i,
    {
        proof {
            assert(views(ps@).take(i + 1).drop_last() =~= views(ps@).take(i as int));
            assert(views(ps@).take(i + 1).last() == ps@[i as int]@);
        }
        if ps[i].len() > 0 {
            let c = slice(&ps[i], 0, ps[i].len());
            assert(c@ =~= ps@[i as int]@);
            let ghost before = views(res@);
            res.push(c);
            proof {
                assert(views(res@) =~= before.push(ps@[i as int]@));
            }
        }
        i += 1;
    }
    proof {
        assert(views(ps@).take(ps@.len() as int) =~= views(ps@));
    }
    res
}

/// The slug of a text that has already been lower-cased.
pub fn slug_from_lowercase(lowered: &str) -> (res: String)
    ensures
        res@ == slug_of_lowercase(lowered@),
{
    let v = chars_of(lowered);
    let mut m: Vec<char> = Vec::new();
    let mut i: usize = 0;
    while i < v.len()
        invariant
            i <= v@.len(),
            m@ =~= slug_chars(v@.take(i as int)),
        decreases v@.len() - i,
    {
        if is_ascii_alphanumeric(v[i]) {
            m.push(v[i]);
        } else {
            m.push('-');
        }
        i += 1;
    }
    proof {
        assert(v@.take(v@.len() as int) =~= v@);
    }
    let pieces = split_chars(&m, '-');
    let kept = nonempty_pieces(&pieces);
    let dash = vec!['-'];
    assert(dash@ =~= seq!['-']);
    string_of(&join_chars(&kept, &dash))
}

/// Lowercase kebab-case: trims, lower-cases, and collapses runs of
/// non-alphanumerics into single dashes.  The result holds only lower-case
/// ASCII letters, digits and single inner dashes, and is its own slug.
pub fn sanitize_slug(input: &str) -> (res: String)
    ensures
        res@ == sanitized(input@),
        is_kebab(res@),
        forall|i: int| 0 <= i < res@.len() ==> no_capital(#[trigger] res@[i]),
        sanitized(res@) == res@,
{
    let t = trim_chars(&chars_of(input), Strip::Whitespace);
    let lowered = to_lowercase(string_of(&t).as_str());
    proof {
        lemma_slug_settled(lowered@);
    }
    slug_from_lowercase(lowered.as_str())
}

// ------------------------------------------------------------------
// Rewriting the type
// ------------------------------------------------------------------

/// `type:`
pub open spec fn type_key() -> Seq<char> {
    seq!['t', 'y', 'p', 'e', ':']
}

/// A frontmatter line whose text, after its indentation, starts with `type:`.
pub open spec fn is_type_line(l: Seq<char>) -> bool {
    has_prefix(trim_start_by(l, Strip::Whitespace), type_key())
}

/// `<indent>type: <t>`
pub open spec fn type_line(indent: Seq<char>, t: Seq<char>) -> Seq<char> {
    indent + type_key() + seq![' '] + t
}

/// The leading whitespace of a line.
pub open spec fn indentation(l: Seq<char>) -> Seq<char> {
    l.take(lead_len(l, Strip::Whitespace) as int)
}

/// The first type line in `ls[i..end]`.
pub open spec fn type_line_from(ls: Seq<Seq<char>>, i: int, end: int) -> Option<int>
    decreases end - i,
{
    if i < 0 || i >= end || end > ls.len() {
        None
    } else if is_type_line(ls[i]) {
        Some(i)
    } else {
        type_line_from(ls, i + 1, end)
    }
}

/// A fresh frontmatter holding only the type, in front of `raw`.
pub open spec fn prepend_type(raw: Seq<char>, t: Seq<char>) -> Seq<char> {
    seq!['-', '-', '-', '\n'] + type_line(Seq::empty(), t) + seq!['\n', '-', '-', '-', '\n', '\n']
        + raw
}

/// The frontmatter lines of `raw` with the type set to `t`: the first type
/// line inside the frontmatter is rewritten (keeping its indentation), or a
/// top-level `type:` line is added just before the closing fence.
pub open spec fn retyped_lines(ls: Seq<Seq<char>>, close: int, t: Seq<char>) -> Seq<Seq<char>> {
    match type_line_from(ls, 1, close) {
        Some(j) => ls.update(j, type_line(indentation(ls[j]), t)),
        None => ls.insert(close, type_line(Seq::empty(), t)),
    }
}

/// `raw` opens with `---` (after optional byte-order marks) and a later
/// line closes the frontmatter.
pub open spec fn closed_frontmatter(raw: Seq<char>) -> bool {
    has_prefix(trim_start_by(raw, Strip::Char(bom())), dashes()) && fence_from(lines(raw), 1) is Some
}

/// What [`rewrite_type`] gives for `raw` and `t`.
pub open spec fn retyped(raw: Seq<char>, t: Seq<char>) -> Seq<char> {
    if !has_prefix(trim_start_by(raw, Strip::Char(bom())), dashes()) {
        prepend_type(raw, t)
    } else {
        let ls = lines(raw);
        match fence_from(ls, 1) {
            None => prepend_type(raw, t),
            Some(close) => {
                let out = join(retyped_lines(ls, close, t), seq!['\n']);
                if has_suffix(raw, seq!['\n']) {
                    out.push('\n')
                } else {
                    out
                }
            },
        }
    }
}

pub proof fn lemma_type_line_from(ls: Seq<Seq<char>>, i: int, end: int)
    requires
        0 <= i,
        end <= ls.len(),
    ensures
        type_line_from(ls, i, end) matches Some(j) ==> i <= j < end && is_type_line(ls[j])
            && forall|m: int| i <= m < j ==> !is_type_line(#[trigger] ls[m]),
        type_line_from(ls, i, end) is None ==> forall|m: int|
            i <= m < end ==> !is_type_line(#[trigger] ls[m]),
    decreases end - i,
{
    if i < end && !is_type_line(ls[i]) {
        lemma_type_line_from(ls, i + 1, end);
    }
}

fn type_line_chars(indent: &Vec<char>, t: &Vec<char>) -> (res: Vec<char>)
    ensures
        res@ == type_line(indent@, t@),
{
    let key = vec!['t', 'y', 'p', 'e', ':', ' '];
    let mut r = concat(indent, &key);
    append(&mut r, t);
    assert(r@ =~= type_line(indent@, t@));
    r
}

fn prepend_type_chars(raw: &Vec<char>, t: &Vec<char>) -> (res: Vec<char>)
    ensures
        res@ == prepend_type(raw@, t@),
{
    let mut r = vec!['-', '-', '-', '\n'];
    let empty: Vec<char> = Vec::new();
    append(&mut r, &type_line_chars(&empty, t));
    append(&mut r, &vec!['\n', '-', '-', '-', '\n', '\n']);
    append(&mut r, raw);
    assert(empty@ =~= Seq::<char>::empty());
    assert(r@ =~= prepend_type(raw@, t@));
    r
}

/// Whether `l` is a type line.
fn is_type_line_exec(l: &Vec<char>) -> (res: bool)
    ensures
        res == is_type_line(l@),
{
    let t = trim_start_chars(l, Strip::Whitespace);
    let key = vec!['t', 'y', 'p', 'e', ':'];
    assert(key@ =~= type_key());
    starts_with(&t, &key)
}

/// The first type line in `ls[1..close]`.
fn find_type_line(ls: &Vec<Vec<char>>, close: usize) -> (res: Option<usize>)
    requires
        close <= ls@.len(),
    ensures
        res matches Some(j) ==> type_line_from(views(ls@), 1, close as int) == Some(j as int),
        res is None ==> type_line_from(views(ls@), 1, close as int) is None,
{
    let mut j: usize = 1;
    while j < close
        invariant
            1 <= j,
            close <= ls@.len(),
            type_line_from(views(ls@), j as int, close as int) == type_line_from(
                views(ls@),
                1,
                close as int,
            ),
        decreases close - j,
    {
        assert(views(ls@)[j as int] == ls@[j as int]@);
        if is_type_line_exec(&ls[j]) {
            return Some(j);
        }
        j += 1;
    }
    None
}

/// Rewrite the frontmatter `type:` (flat or nested under `metadata:`) of a
/// memory file's text.  Without a (closed) frontmatter, one holding just
/// the type is put in front.
pub fn rewrite_type(raw: &str, new_type: &str) -> (res: String)
    ensures
        res@ == retyped(raw@, new_type@),
{
    let rv = chars_of(raw);
    let t = chars_of(new_type);
    let bare = trim_start_chars(&rv, Strip::Char('\u{feff}'));
    let d = vec!['-', '-', '-'];
    assert(d@ =~= dashes());
    if !starts_with(&bare, &d) {
        return string_of(&prepend_type_chars(&rv, &t));
    }
    let mut ls = lines_of(&rv);
    let close: usize = match find_fence(&ls, 1) {
        Some(c) => c,
        None => {
            return string_of(&prepend_type_chars(&rv, &t));
        },
    };
    proof {
        lemma_fence_from(views(ls@), 1);
    }
    let ghost ls0 = views(ls@);
    let found = find_type_line(&ls, close);
    proof {
        lemma_type_line_from(ls0, 1, close as int);
    }
    if let Some(j) = found {
        let n: usize = lead_count(&ls[j], Strip::Whitespace);
        proof {
            lemma_lead_len(ls@[j as int]@, Strip::Whitespace);
        }
        let indent = slice(&ls[j], 0, n);
        let nl = type_line_chars(&indent, &t);
        ls.set(j, nl);
        assert(views(ls@) =~= retyped_lines(ls0, close as int, t@));
    } else {
        let nl = type_line_chars(&Vec::new(), &t);
        assert(nl@ =~= type_line(Seq::empty(), t@));
        ls.insert(close, nl);
        assert(views(ls@) =~= retyped_lines(ls0, close as int, t@));
    }
    let nlv = vec!['\n'];
    assert(nlv@ =~= seq!['\n']);
    let mut out = join_chars(&ls, &nlv);
    if ends_with(&rv, &nlv) {
        out.push('\n');
    }
    string_of(&out)
}


// ------------------------------------------------------------------
// The MEMORY.md index
// ------------------------------------------------------------------

/// `- [name](slug.md)`, followed by ` — description` when there is one.
pub open spec fn pointer_line(slug: Seq<char>, name: Seq<char>, description: Seq<char>) -> Seq<
    char,
> {
    let head = seq!['-', ' ', '['] + name + seq![']', '('] + slug + seq!['.', 'm', 'd', ')'];
    if description.len() == 0 {
        head
    } else {
        head + seq![' ', '\u{2014}', ' '] + description
    }
}

/// `raw` ending with a line break unless it is empty.
pub open spec fn ended(raw: Seq<char>) -> Seq<char> {
    if raw.len() > 0 && raw.last() != '\n' {
        raw.push('\n')
    } else {
        raw
    }
}

/// The index with a pointer line for a memory appended.
pub open spec fn appended_index(
    raw: Seq<char>,
    slug: Seq<char>,
    name: Seq<char>,
    description: Seq<char>,
) -> Seq<char> {
    ended(raw) + pointer_line(slug, name, description) + seq!['\n']
}

/// `(slug.md)`: what every line that links to the memory holds.
pub open spec fn link_of(slug: Seq<char>) -> Seq<char> {
    seq!['('] + slug + seq!['.', 'm', 'd', ')']
}

/// The lines that do not hold `needle`, in order.
pub open spec fn lines_without(ls: Seq<Seq<char>>, needle: Seq<char>) -> Seq<Seq<char>>
    decreases ls.len(),
{
    if ls.len() == 0 {
        Seq::empty()
    } else if contains(ls.last(), needle) {
        lines_without(ls.drop_last(), needle)
    } else {
        lines_without(ls.drop_last(), needle).push(ls.last())
    }
}

/// The index without the lines that link to `slug`; a final line break is
/// kept when there was one and something is left.
pub open spec fn removed_index(raw: Seq<char>, slug: Seq<char>) -> Seq<char> {
    let out = join(lines_without(lines(raw), link_of(slug)), seq!['\n']);
    if has_suffix(raw, seq!['\n']) && out.len() > 0 {
        out.push('\n')
    } else {
        out
    }
}

fn pointer_line_chars(slug: &Vec<char>, name: &Vec<char>, description: &Vec<char>) -> (res: Vec<
    char,
>)
    ensures
        res@ == pointer_line(slug@, name@, description@),
{
    let mut r = vec!['-', ' ', '['];
    append(&mut r, name);
    append(&mut r, &vec![']', '(']);
    append(&mut r, slug);
    append(&mut r, &vec!['.', 'm', 'd', ')']);
    if description.len() > 0 {
        append(&mut r, &vec![' ', '\u{2014}', ' ']);
        append(&mut r, description);
    }
    assert(r@ =~= pointer_line(slug@, name@, description@));
    r
}

/// The index text `raw` with a `- [name](slug.md) — description` pointer
/// appended (without the dash part when the description is empty).
pub fn index_append(raw: &str, slug: &str, name: &str, description: &str) -> (res: String)
    ensures
        res@ == appended_index(raw@, slug@, name@, description@),
{
    let mut r = chars_of(raw);
    if r.len() > 0 && r[r.len() - 1] != '\n' {
        r.push('\n');
    }
    let p = pointer_line_chars(&chars_of(slug), &chars_of(name), &chars_of(description));
    append(&mut r, &p);
    r.push('\n');
    assert(r@ =~= appended_index(raw@, slug@, name@, description@));
    string_of(&r)
}

fn lines_without_exec(ls: &Vec<Vec<char>>, needle: &Vec<char>) -> (res: Vec<Vec<char>>)
    ensures
        views(res@) == lines_without(views(ls@), needle@),
{
    let mut res: Vec<Vec<char>> = Vec::new();
    let mut i: usize = 0;
    while i < ls.len()
        invariant
            i <= ls@.len(),
            views(res@) == lines_without(views(ls@).take(i as int), needle@),
        decreases ls@.len() - i,
    {
        proof {
            assert(views(ls@).take(i + 1).drop_last() =~= views(ls@).take(i as int));
            assert(views(ls@).take(i + 1).last() == ls@[i as int]@);
        }
        if !contains_chars(&ls[i], needle) {
            let c = slice(&ls[i], 0, ls[i].len());
            assert(c@ =~= ls@[i as int]@);
            let ghost before = views(res@);
            res.push(c);
            proof {
                assert(views(res@) =~= before.push(ls@[i as int]@));
            }
        }
        i += 1;
    }
    proof {
        assert(views(ls@).take(ls@.len() as int) =~= views(ls@));
    }
    res
}

/// The index text `raw` without every line that links to `slug.md`.
pub fn index_remove(raw: &str, slug: &str) -> (res: String)
    ensures
        res@ == removed_index(raw@, slug@),
{
    let rv = chars_of(raw);
    let mut needle = vec!['('];
    append(&mut needle, &chars_of(slug));
    append(&mut needle, &vec!['.', 'm', 'd', ')']);
    assert(needle@ =~= link_of(slug@));
    let kept = lines_without_exec(&lines_of(&rv), &needle);
    let nl = vec!['\n'];
    assert(nl@ =~= seq!['\n']);
    let mut out = join_chars(&kept, &nl);
    if ends_with(&rv, &nl) && out.len() > 0 {
        out.push('\n');
    }
    string_of(&out)
}

// ------------------------------------------------------------------
// New memories, moves and backups
// ------------------------------------------------------------------

/// Why a mutation was refused.
#[derive(Clone, Copy, PartialEq, Eq, Debug)]
pub enum MutateError {
    /// The file of a new memory exists already.
    AlreadyExists,
    /// The target project holds a file of the same name.
    TargetExists,
    /// The path of the memory has no file name.
    BadPath,
}

impl MutateError {
    /// The message shown to the user.
    pub fn message(&self) -> (res: String)
        ensures
            res@ == error_message(*self),
    {
        match self {
            MutateError::AlreadyExists => "file already exists".to_owned(),
            MutateError::TargetExists => "a file with that name exists in the target".to_owned(),
            MutateError::BadPath => "bad path".to_owned(),
        }
    }
}

pub open spec fn error_message(e: MutateError) -> Seq<char> {
    match e {
        MutateError::AlreadyExists => "file already exists"@,
        MutateError::TargetExists => "a file with that name exists in the target"@,
        MutateError::BadPath => "bad path"@,
    }
}

/// A memory file to be written.
pub struct NewMemory {
    /// `<slug>.md`
    pub file_name: String,
    /// The frontmatter template.
    pub content: String,
}

/// `<slug>.md`
pub open spec fn memory_file_name(slug: Seq<char>) -> Seq<char> {
    slug + seq!['.', 'm', 'd']
}

/// The template of a new memory: its name is the slug, its description
/// empty and its type `project`, nested under `metadata:`.
pub open spec fn memory_template(slug: Seq<char>) -> Seq<char> {
    "---\nname: "@ + slug + "\ndescription: \nmetadata:\n  type: project\n---\n\n"@
}

/// Create `<slug>.md` from a frontmatter template; refused when a file of
/// that name exists.
pub fn create_memory(slug: &str, target_exists: bool) -> (res: Result<NewMemory, MutateError>)
    ensures
        target_exists ==> res == Err::<NewMemory, MutateError>(MutateError::AlreadyExists),
        !target_exists ==> (res matches Ok(m) && m.file_name@ == memory_file_name(slug@)
            && m.content@ == memory_template(slug@)),
{
    if target_exists {
        return Err(MutateError::AlreadyExists);
    }
    let s = chars_of(slug);
    let mut f = slice(&s, 0, s.len());
    append(&mut f, &vec!['.', 'm', 'd']);
    assert(f@ =~= memory_file_name(slug@));
    let mut c = chars_of("---\nname: ");
    append(&mut c, &s);
    append(&mut c, &chars_of("\ndescription: \nmetadata:\n  type: project\n---\n\n"));
    Ok(NewMemory { file_name: string_of(&f), content: string_of(&c) })
}

/// Moving a memory is refused when the target project holds a file of the
/// same name, or when the memory's path has no file name.
pub fn move_memory(has_file_name: bool, target_exists: bool) -> (res: Result<(), MutateError>)
    ensures
        !has_file_name ==> res == Err::<(), MutateError>(MutateError::BadPath),
        has_file_name && target_exists ==> res == Err::<(), MutateError>(MutateError::TargetExists),
        has_file_name && !target_exists ==> res is Ok,
{
    if !has_file_name {
        Err(MutateError::BadPath)
    } else if target_exists {
        Err(MutateError::TargetExists)
    } else {
        Ok(())
    }
}

/// The name of a backup copy: `<file>.<millis>`, with `file.md` standing in
/// for a path without a file name.
pub open spec fn backup_name(file_name: Option<Seq<char>>, millis: nat) -> Seq<char> {
    let f = match file_name {
        Some(f) => f,
        None => "file.md"@,
    };
    f + seq!['.'] + decimal(millis)
}

/// The backup directory of a project: its directory name, `unknown` when
/// the path has none.
pub open spec fn backup_dir_name(project: Option<Seq<char>>) -> Seq<char> {
    match project {
        Some(p) => p,
        None => "unknown"@,
    }
}

/// Where a backup of a file goes: the project's directory name under the
/// backup root, and `<file>.<millis>` inside it.
pub fn backup(project: Option<&str>, file_name: Option<&str>, millis: u64) -> (res: (
    String,
    String,
))
    ensures
        res.0@ == backup_dir_name(match project {
            Some(p) => Some(p@),
            None => None,
        }),
        res.1@ == backup_name(
            match file_name {
                Some(f) => Some(f@),
                None => None,
            },
            millis as nat,
        ),
{
    let dir = match project {
        Some(p) => p.to_owned(),
        None => "unknown".to_owned(),
    };
    let mut f = match file_name {
        Some(f) => chars_of(f),
        None => chars_of("file.md"),
    };
    f.push('.');
    append(&mut f, &decimal_chars(millis));
    (dir, string_of(&f))
}

} // verus!
