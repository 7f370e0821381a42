//! Properties that relate several operations of the library.

use vstd::prelude::*;
use crate::app::{
    field_matches, is_index_memory, matching, memory_matches, non_index_upto, Action, App, Key, Mode,
};
use crate::keys::{move_key_post, nav_key_post, type_position};
use crate::app::type_names;
use crate::display::{count_type, in_scope};
use crate::display::{
    civil_date, civil_from_days, count_recent, index_entry, is_civil_date, lemma_civil_from_days,
    lemma_days_before_month_mono, lemma_days_before_year, lemma_days_before_year_mono, leaps,
    days_before_month, days_before_year, lemma_within_year, month_len, year_len,
    newest_created, oldest_created, timestamp_text,
};
use crate::memory::{
    assembled, bom, clean_value, dashes, eligible, eligible_in, fence_from, frontmatter_fields,
    frontmatter_split, memory_body,
    index_file_name, is_fence, is_indented, is_memory_file_name, key_value, memory_name, lemma_fence_from, memory_sources,
    memory_type, no_fields, read_fields, slug_of_file, step, tagged, Fields, Library, Memory,
    ProjectListing,
};
use crate::mutate::{
    appended_index, closed_frontmatter, ended, is_type_line, lemma_type_line_from, lines_without,
    indentation, link_of, memory_template, nonempty, pointer_line, prepend_type, removed_index, retyped,
    retyped_lines, sanitized, slug_chars, slug_of_lowercase, type_key, type_line, type_line_from,
};
use crate::text::{
    all_ascii, ascii_ci_eq, ascii_lower, no_capital, chars_lt, contains, decimal, digit_char, zero_pad, free_of, has_prefix, has_suffix, is_ascii_alnum, is_ws,
    join, lead_len, lemma_contains_prefix, lemma_find_char_is, lemma_first_match_is,
    lemma_has_suffix_char, lemma_join_split, lemma_last_match_below, lemma_lead_len,
    lemma_lead_len_exact, lemma_lines_concat, lemma_lines_free, lemma_lines_pieces,
    lemma_lines_single, lemma_lines_unlines, lemma_split_free, lemma_split_join,
    lemma_split_on_len, lemma_split_pieces_free, lemma_trail_len, lemma_trail_len_exact, lines, lower, matches_at, rfind,
    split_on, split_once, split_once_str, strip_cr, strip_prefix, strip_suffix, strips, trail_len,
    trim, trim_end_by, trim_start_by, unlines, Strip,
};

verus! {

/// The pointer line of a memory holds the memory's link.
pub proof fn lemma_pointer_links(slug: Seq<char>, name: Seq<char>, description: Seq<char>)
    ensures
        contains(pointer_line(slug, name, description), link_of(slug)),
{
    let p = pointer_line(slug, name, description);
    let at: int = 3 + name.len() as int + 1;
    assert(p.subrange(at, at + link_of(slug).len() as int) =~= link_of(slug));
    assert(matches_at(p, link_of(slug), at));
}

/// The kept lines are lines of the original, none holding the needle.
proof fn lemma_lines_without(ls: Seq<Seq<char>>, needle: Seq<char>)
    ensures
        forall|k: int|
            0 <= k < lines_without(ls, needle).len() ==> !contains(
                #[trigger] lines_without(ls, needle)[k],
                needle,
            ) && exists|i: int| 0 <= i < ls.len() && ls[i] == lines_without(ls, needle)[k],
    decreases ls.len(),
{
    if ls.len() > 0 {
        lemma_lines_without(ls.drop_last(), needle);
        let r = lines_without(ls.drop_last(), needle);
        assert forall|k: int| 0 <= k < lines_without(ls, needle).len() implies !contains(
            #[trigger] lines_without(ls, needle)[k],
            needle,
        ) && exists|i: int| 0 <= i < ls.len() && ls[i] == lines_without(ls, needle)[k] by {
            if k < r.len() {
                assert(lines_without(ls, needle)[k] == r[k]);
                let i = choose|i: int| 0 <= i < ls.drop_last().len() && ls.drop_last()[i] == r[k];
                assert(ls[i] == r[k]);
            } else {
                assert(ls[ls.len() - 1] == lines_without(ls, needle)[k]);
            }
        }
    }
}

/// Appending a memory's pointer to the index and then removing the memory
/// gives what removing it from the index alone gives (the index ending
/// with a line break): the two operations undo each other.
pub proof fn law_append_then_remove(
    raw: Seq<char>,
    slug: Seq<char>,
    name: Seq<char>,
    description: Seq<char>,
)
    requires
        free_of(slug, '\n'),
        free_of(name, '\n'),
        free_of(description, '\n'),
        !(description.len() > 0 && description.last() == '\r'),
    ensures
        removed_index(appended_index(raw, slug, name, description), slug) == removed_index(
            ended(raw),
            slug,
        ),
{
    let a = ended(raw);
    let p = pointer_line(slug, name, description);
    let full = appended_index(raw, slug, name, description);
    assert(free_of(p, '\n'));
    assert(full =~= a + (p + seq!['\n']));
    lemma_lines_concat(a, p + seq!['\n']);
    lemma_lines_single(p);
    assert(strip_cr(p) == p);
    assert(lines(full) =~= lines(a).push(p));
    lemma_pointer_links(slug, name, description);
    assert(lines(full).drop_last() =~= lines(a));
    assert(lines_without(lines(full), link_of(slug)) == lines_without(lines(a), link_of(slug)));
    lemma_has_suffix_char(full, '\n');
    lemma_has_suffix_char(a, '\n');
    if a.len() == 0 {
        assert(lines(a) =~= Seq::<Seq<char>>::empty());
    }
}

/// After removing a memory from the index, no line of the index links to it.
pub proof fn law_removed_has_no_link(raw: Seq<char>, slug: Seq<char>)
    ensures
        forall|i: int|
            0 <= i < lines(removed_index(raw, slug)).len() ==> !contains(
                #[trigger] lines(removed_index(raw, slug))[i],
                link_of(slug),
            ),
{
    let needle = link_of(slug);
    let k = lines_without(lines(raw), needle);
    lemma_lines_without(lines(raw), needle);
    lemma_lines_free(raw);
    let out = join(k, seq!['\n']);
    let res = removed_index(raw, slug);
    if k.len() == 0 {
        assert(out =~= Seq::<char>::empty());
        assert(res == out);
        assert(lines(res) =~= Seq::<Seq<char>>::empty());
    } else {
        assert forall|j: int| 0 <= j < k.len() implies free_of(#[trigger] k[j], '\n') by {
            let i = choose|i: int| 0 <= i < lines(raw).len() && lines(raw)[i] == k[j];
            assert(free_of(lines(raw)[i], '\n'));
        }
        lemma_split_join(k, '\n');
        lemma_lines_pieces(res);
        let ps = split_on(res, '\n');
        if res != out {
            assert(res == out.push('\n'));
            assert(res.drop_last() =~= out);
            assert(ps == k.push(Seq::empty()));
        }
        assert forall|i: int| 0 <= i < lines(res).len() implies !contains(
            #[trigger] lines(res)[i],
            needle,
        ) by {
            assert(ps[i] == k[i]);
            assert(!contains(k[i], needle));
            if lines(res)[i] != ps[i] {
                let l = k[i];
                if l.len() > 0 && l.last() == '\r' {
                    lemma_contains_prefix(l, l.len() - 1, needle);
                    assert(l.take(l.len() - 1) =~= l.drop_last());
                }
            }
        }
    }
}


/// The hook of an index line: what follows the link, without the spaces
/// and dashes in front of it and surrounding whitespace.
pub open spec fn plain_hook(d: Seq<char>) -> bool {
    d.len() > 0 ==> !is_ws(d[0]) && !strips(Strip::Dash, d[0]) && !is_ws(d.last())
}

/// The hook that follows a pointer's link.
pub open spec fn pointer_tail(description: Seq<char>) -> Seq<char> {
    if description.len() == 0 {
        Seq::empty()
    } else {
        seq![' ', '\u{2014}', ' '] + description
    }
}

proof fn lemma_title(name: Seq<char>, after: Seq<char>)
    requires
        !contains(name, seq![']', '(']),
    ensures
        split_once_str(name + seq![']', '('] + after, seq![']', '(']) == Some((name, after)),
{
    let rest = name + seq![']', '('] + after;
    let n = name.len() as int;
    let mid = seq![']', '('];
    assert(rest.subrange(n, n + 2) =~= mid);
    assert forall|m: int| 0 <= m < n implies !matches_at(rest, mid, m) by {
        if m + 2 <= n {
            if matches_at(rest, mid, m) {
                assert(name.subrange(m, m + 2) =~= rest.subrange(m, m + 2));
                assert(matches_at(name, mid, m));
            }
        } else {
            assert(rest.subrange(m, m + 2)[1] == rest[n]);
        }
    }
    lemma_first_match_is(rest, mid, n);
    assert(rest.take(n) =~= name);
    assert(rest.skip(n + 2) =~= after);
}

proof fn lemma_target(slug: Seq<char>, tail: Seq<char>)
    requires
        free_of(slug, ')'),
    ensures
        ({
            let rest2 = slug + seq!['.', 'm', 'd', ')'] + tail;
            split_once(rest2, ')') == Some((slug + seq!['.', 'm', 'd'], tail))
        }),
        strip_suffix(slug + seq!['.', 'm', 'd'], seq!['.', 'm', 'd']) == Some(slug),
{
    let rest2 = slug + seq!['.', 'm', 'd', ')'] + tail;
    let t = slug.len() as int + 3;
    assert forall|m: int| 0 <= m < t implies rest2[m] != ')' by {
        if m < slug.len() {
            assert(rest2[m] == slug[m]);
        }
    }
    lemma_find_char_is(rest2, ')', t);
    let target = slug + seq!['.', 'm', 'd'];
    assert(rest2.take(t) =~= target);
    assert(rest2.skip(t + 1) =~= tail);
    assert(target.skip(target.len() - 3) =~= seq!['.', 'm', 'd']);
    assert(target.take(target.len() - 3) =~= slug);
}

proof fn lemma_hook(description: Seq<char>)
    requires
        plain_hook(description),
    ensures
        trim(trim_start_by(trim_start_by(pointer_tail(description), Strip::Whitespace), Strip::Dash))
            == description,
{
    let tail = pointer_tail(description);
    if description.len() == 0 {
        assert(tail =~= Seq::<char>::empty());
        lemma_lead_len_exact(tail, Strip::Whitespace, 0);
        lemma_lead_len_exact(tail, Strip::Dash, 0);
        lemma_trail_len_exact(tail, Strip::Whitespace, 0);
        assert(tail.skip(0) =~= tail);
        assert(tail.take(0) =~= description);
    } else {
        lemma_lead_len_exact(tail, Strip::Whitespace, 1);
        let t1 = tail.skip(1);
        assert(t1 =~= seq!['\u{2014}', ' '] + description);
        lemma_lead_len_exact(t1, Strip::Dash, 1);
        let t2 = t1.skip(1);
        assert(t2 =~= seq![' '] + description);
        lemma_lead_len_exact(t2, Strip::Whitespace, 1);
        let t3 = t2.skip(1);
        assert(t3 =~= description);
        lemma_trail_len_exact(t3, Strip::Whitespace, 0);
        assert(t3.take(t3.len() - 0) =~= t3);
    }
}

/// The pointer line that the index gets for a memory reads back as that
/// memory's name, slug and description, when the name holds no `](`, the
/// slug no `)`, and the description has no leading dash or surrounding
/// whitespace.
pub proof fn law_pointer_line_parses(slug: Seq<char>, name: Seq<char>, description: Seq<char>)
    requires
        !contains(name, seq![']', '(']),
        free_of(slug, ')'),
        plain_hook(description),
    ensures
        index_entry(pointer_line(slug, name, description)) == Some((name, slug, description)),
{
    let p = pointer_line(slug, name, description);
    let tail = pointer_tail(description);
    let rest2 = slug + seq!['.', 'm', 'd', ')'] + tail;
    let rest = name + seq![']', '('] + rest2;
    assert(p =~= seq!['-', ' ', '['] + rest);
    lemma_lead_len_exact(p, Strip::Whitespace, 0);
    assert(trim_start_by(p, Strip::Whitespace) =~= p);
    assert(p.take(3) =~= seq!['-', ' ', '[']);
    assert(p.skip(3) =~= rest);
    assert(strip_prefix(p, seq!['-', ' ', '[']) == Some(rest));
    lemma_title(name, rest2);
    lemma_target(slug, tail);
    lemma_hook(description);
}


// ------------------------------------------------------------------
// Retyping reads back
// ------------------------------------------------------------------

/// A frontmatter value that the reader keeps as it is: not empty, on one
/// line, with no whitespace and no quote at either end.
pub open spec fn plain_value(t: Seq<char>) -> bool {
    &&& t.len() > 0
    &&& free_of(t, '\n')
    &&& !is_ws(t[0])
    &&& !is_ws(t.last())
    &&& t[0] != '"' && t.last() != '"'
    &&& t[0] != '\'' && t.last() != '\''
}

proof fn lemma_plain_clean(t: Seq<char>)
    requires
        plain_value(t),
    ensures
        clean_value(seq![' '] + t) == t,
{
    let s = seq![' '] + t;
    assert(is_ws(s[0]));
    assert(s[1] == t[0]);
    lemma_lead_len_exact(s, Strip::Whitespace, 1);
    assert(s.skip(1) =~= t);
    lemma_trail_len_exact(t, Strip::Whitespace, 0);
    assert(t.take(t.len() as int) =~= t);
    lemma_lead_len_exact(t, Strip::Char('"'), 0);
    lemma_trail_len_exact(t, Strip::Char('"'), 0);
    lemma_lead_len_exact(t, Strip::Char('\''), 0);
    lemma_trail_len_exact(t, Strip::Char('\''), 0);
    assert(t.skip(0) =~= t);
}

/// `<ind>type: <t>` is read as the key `type` with the value `t`.
proof fn lemma_type_line_key_value(ind: Seq<char>, t: Seq<char>)
    requires
        plain_value(t),
        forall|j: int| 0 <= j < ind.len() ==> is_ws(#[trigger] ind[j]),
    ensures
        key_value(type_line(ind, t)) == Some((seq!['t', 'y', 'p', 'e'], t)),
{
    let l = type_line(ind, t);
    let n = ind.len() as int;
    let x = type_key() + seq![' '] + t;
    assert(l =~= ind + x);
    assert forall|j: int| 0 <= j < n implies strips(Strip::Whitespace, #[trigger] l[j]) by {
        assert(l[j] == ind[j]);
    }
    assert(l[n] == 't');
    lemma_lead_len_exact(l, Strip::Whitespace, n);
    assert(l.skip(n) =~= x);
    assert(x.last() == t.last());
    lemma_trail_len_exact(x, Strip::Whitespace, 0);
    assert(x.take(x.len() as int) =~= x);
    assert(trim(l) == x);
    lemma_find_char_is(x, ':', 4);
    let k = seq!['t', 'y', 'p', 'e'];
    assert(x.take(4) =~= k);
    assert(x.skip(5) =~= seq![' '] + t);
    lemma_lead_len_exact(k, Strip::Whitespace, 0);
    lemma_trail_len_exact(k, Strip::Whitespace, 0);
    assert(k.skip(0) =~= k);
    assert(k.take(4) =~= k);
    lemma_plain_clean(t);
}

/// A type line sets the type when it is at top level or inside `metadata:`.
proof fn lemma_step_type(f: Fields, ind: Seq<char>, t: Seq<char>)
    requires
        plain_value(t),
        forall|j: int| 0 <= j < ind.len() ==> is_ws(#[trigger] ind[j]),
        ind.len() == 0 || f.in_metadata,
    ensures
        step(f, type_line(ind, t)).mtype == t,
{
    lemma_type_line_key_value(ind, t);
    reveal_strlit("type");
    reveal_strlit("metadata");
    reveal_strlit("name");
    reveal_strlit("description");
    assert("type"@ =~= seq!['t', 'y', 'p', 'e']);
    assert("name"@[0] != 't');
    if ind.len() == 0 {
        assert(type_line(ind, t)[0] == 't');
    }
}

/// `metadata:` opens the metadata block.
proof fn lemma_step_metadata(f: Fields)
    ensures
        step(f, metadata_line()).in_metadata,
{
    let l = metadata_line();
    lemma_lead_len_exact(l, Strip::Whitespace, 0);
    lemma_trail_len_exact(l, Strip::Whitespace, 0);
    assert(l.skip(0) =~= l);
    assert(l.take(9) =~= l);
    lemma_find_char_is(l, ':', 8);
    let k = l.take(8);
    let v = l.skip(9);
    assert(v =~= Seq::<char>::empty());
    lemma_lead_len_exact(k, Strip::Whitespace, 0);
    lemma_trail_len_exact(k, Strip::Whitespace, 0);
    assert(k.skip(0) =~= k);
    assert(k.take(8) =~= k);
    lemma_lead_len_exact(v, Strip::Whitespace, 0);
    lemma_lead_len_exact(v, Strip::Char('"'), 0);
    lemma_lead_len_exact(v, Strip::Char('\''), 0);
    reveal_strlit("metadata");
    assert(k =~= "metadata"@);
}

/// A line that does not start with `-` is no fence.
proof fn lemma_not_fence(x: Seq<char>)
    requires
        x.len() > 0,
        x[0] != '-',
    ensures
        !is_fence(x),
{
    lemma_trail_len(x, Strip::Whitespace);
    if is_fence(x) {
        let te = trim_end_by(x, Strip::Whitespace);
        assert(te == dashes());
        assert(te.len() == 3);
        assert(te =~= x.take(x.len() - trail_len(x, Strip::Whitespace)));
        assert(te[0] == x[0]);
        assert(dashes()[0] == '-');
    }
}

/// `---` is a fence.
proof fn lemma_dashes_fence()
    ensures
        is_fence(dashes()),
{
    lemma_trail_len_exact(dashes(), Strip::Whitespace, 0);
    assert(dashes().take(3) =~= dashes());
}

/// A line that starts with neither whitespace nor `t` is no type line.
proof fn lemma_not_type_line(x: Seq<char>)
    requires
        x.len() > 0,
        !is_ws(x[0]),
        x[0] != 't',
    ensures
        !is_type_line(x),
{
    lemma_lead_len_exact(x, Strip::Whitespace, 0);
    assert(x.skip(0) =~= x);
    if is_type_line(x) {
        assert(x.take(5)[0] == x[0]);
    }
}

proof fn lemma_fence_at(ls: Seq<Seq<char>>, k: int, i: int)
    requires
        0 <= i <= k < ls.len(),
        is_fence(ls[k]),
        forall|j: int| i <= j < k ==> !is_fence(#[trigger] ls[j]),
    ensures
        fence_from(ls, i) == Some(k),
    decreases k - i,
{
    if i < k {
        lemma_fence_at(ls, k, i + 1);
    }
}

/// Joined lines with a final break are those lines, each followed by one.
proof fn lemma_join_unlines(ls: Seq<Seq<char>>)
    requires
        ls.len() > 0,
    ensures
        join(ls, seq!['\n']) + seq!['\n'] == unlines(ls),
    decreases ls.len(),
{
    if ls.len() == 1 {
        assert(ls.drop_last() =~= Seq::<Seq<char>>::empty());
        let u = unlines(ls.drop_last());
        assert(u =~= Seq::<char>::empty());
        assert(unlines(ls) == u + ls[0] + seq!['\n']);
        assert(u + ls[0] + seq!['\n'] =~= ls[0] + seq!['\n']);
    } else {
        lemma_join_unlines(ls.drop_last());
        assert(join(ls, seq!['\n']) + seq!['\n'] =~= (join(ls.drop_last(), seq!['\n']) + seq![
            '\n',
        ]) + ls.last() + seq!['\n']);
    }
}

/// The text of lines starts with the first line.
proof fn lemma_unlines_prefix(ls: Seq<Seq<char>>)
    requires
        ls.len() > 0,
    ensures
        unlines(ls).len() > ls[0].len(),
        unlines(ls).take(ls[0].len() as int) == ls[0],
    decreases ls.len(),
{
    if ls.len() == 1 {
        assert(ls.drop_last() =~= Seq::<Seq<char>>::empty());
        assert(unlines(ls.drop_last()) =~= Seq::<char>::empty());
        assert(ls.last() == ls[0]);
        let u = unlines(ls.drop_last());
        assert(u.len() == 0);
        assert(unlines(ls) == u + ls[0] + seq!['\n']);
        assert(u + ls[0] + seq!['\n'] =~= ls[0] + seq!['\n']);
        assert(unlines(ls).take(ls[0].len() as int) =~= ls[0]);
    } else {
        let init = ls.drop_last();
        lemma_unlines_prefix(init);
        assert(init[0] == ls[0]);
        let u = unlines(init);
        assert(unlines(ls) == u + ls.last() + seq!['\n']);
        assert(unlines(ls).take(ls[0].len() as int) =~= u.take(ls[0].len() as int));
    }
}

/// The fields of a text whose first line is `---` and whose first fence
/// after it is line `k`: what the lines in between give.
proof fn lemma_fields_of(s: Seq<char>, k: int)
    requires
        has_prefix(s, dashes()),
        1 <= k < lines(s).len(),
        is_fence(lines(s)[k]),
        forall|j: int| 1 <= j < k ==> !is_fence(#[trigger] lines(s)[j]),
    ensures
        frontmatter_fields(s) == read_fields(
            Seq::new((k - 1) as nat, |i: int| strip_cr(lines(s)[i + 1])),
        ),
{
    let ls = lines(s);
    assert(s.take(3)[0] == s[0]);
    lemma_lead_len_exact(s, Strip::Char(bom()), 0);
    assert(s.skip(0) =~= s);
    lemma_fence_at(ls, k, 1);
    let front = ls.subrange(1, k);
    lemma_lines_free(s);
    assert forall|i: int| 0 <= i < front.len() implies free_of(#[trigger] front[i], '\n') by {
        assert(front[i] == ls[i + 1]);
    }
    lemma_lines_unlines(front);
    assert(Seq::new(front.len(), |i: int| strip_cr(front[i])) =~= Seq::new(
        (k - 1) as nat,
        |i: int| strip_cr(lines(s)[i + 1]),
    ));
}

/// `strip_cr` keeps the first character of a line of two or more.
proof fn lemma_strip_cr_first(x: Seq<char>)
    requires
        x.len() >= 2,
    ensures
        strip_cr(x).len() >= 1,
        strip_cr(x)[0] == x[0],
{
}

/// A type value on its own line reads back as the type.
proof fn lemma_lines_of_type_line(t: Seq<char>)
    requires
        plain_value(t),
    ensures
        free_of(type_line(Seq::empty(), t), '\n'),
        strip_cr(type_line(Seq::empty(), t)) == type_line(Seq::empty(), t),
        lines(type_line(Seq::empty(), t) + seq!['\n']) == seq![type_line(Seq::empty(), t)],
{
    let tl = type_line(Seq::empty(), t);
    assert(tl =~= type_key() + seq![' '] + t);
    assert forall|i: int| 0 <= i < tl.len() implies tl[i] != '\n' by {
        if i >= 6 {
            assert(tl[i] == t[i - 6]);
        }
    }
    assert(tl.last() == t.last());
    assert(is_ws('\r'));
    lemma_lines_single(tl);
}

/// Retyping a text without a closed frontmatter puts one in front, and
/// reading it back gives the new type.
pub proof fn law_retype_prepended(raw: Seq<char>, t: Seq<char>)
    requires
        plain_value(t),
        !closed_frontmatter(raw),
    ensures
        memory_type(retyped(raw, t)) == t,
{
    let tl = type_line(Seq::empty(), t);
    let s = retyped(raw, t);
    assert(s == prepend_type(raw, t));
    let p1 = seq!['-', '-', '-', '\n'];
    let p2 = tl + seq!['\n'];
    let p3 = seq!['-', '-', '-', '\n'];
    let p4 = seq!['\n'];
    let a = p1 + (p2 + (p3 + p4));
    assert(s =~= a + raw);
    lemma_lines_concat(a, raw);
    lemma_lines_concat(p1, p2 + (p3 + p4));
    lemma_lines_concat(p2, p3 + p4);
    lemma_lines_concat(p3, p4);
    assert(p1 =~= dashes() + seq!['\n']);
    assert(p4 =~= Seq::<char>::empty() + seq!['\n']);
    lemma_lines_single(dashes());
    lemma_lines_single(Seq::<char>::empty());
    lemma_lines_of_type_line(t);
    let ls = lines(s);
    assert(ls[0] == dashes());
    assert(ls[1] == tl);
    assert(ls[2] == dashes());
    lemma_dashes_fence();
    assert(tl[0] == 't');
    lemma_not_fence(tl);
    assert(s.take(3) =~= dashes());
    lemma_fields_of(s, 2);
    let fl = Seq::new(1, |i: int| strip_cr(ls[i + 1]));
    assert(fl =~= seq![tl]);
    assert(fl.drop_last() =~= Seq::<Seq<char>>::empty());
    lemma_step_type(no_fields(), Seq::empty(), t);
}

proof fn lemma_type_line_at(ls: Seq<Seq<char>>, j: int, i: int, end: int)
    requires
        0 <= i <= j < end <= ls.len(),
        is_type_line(ls[j]),
        forall|m: int| i <= m < j ==> !is_type_line(#[trigger] ls[m]),
    ensures
        type_line_from(ls, i, end) == Some(j),
    decreases j - i,
{
    if i < j {
        lemma_type_line_at(ls, j, i + 1, end);
    }
}

spec fn template_description_line() -> Seq<char> {
    seq!['d', 'e', 's', 'c', 'r', 'i', 'p', 't', 'i', 'o', 'n', ':', ' ']
}

spec fn metadata_line() -> Seq<char> {
    seq!['m', 'e', 't', 'a', 'd', 'a', 't', 'a', ':']
}

spec fn template_type_line() -> Seq<char> {
    seq![' ', ' ', 't', 'y', 'p', 'e', ':', ' ', 'p', 'r', 'o', 'j', 'e', 'c', 't']
}

/// The lines of a new memory's text.
proof fn lemma_template_lines(slug: Seq<char>)
    requires
        free_of(slug, '\n'),
    ensures
        ({
            let s0 = memory_template(slug);
            let ls = lines(s0);
            &&& ls.len() == 7
            &&& ls[0] == dashes()
            &&& ls[1].len() >= 5 && ls[1][0] == 'n'
            &&& ls[1] == strip_cr(seq!['n', 'a', 'm', 'e', ':', ' '] + slug)
            &&& ls[6] == Seq::<char>::empty()
            &&& ls[2] == template_description_line()
            &&& ls[3] == metadata_line()
            &&& ls[4] == template_type_line()
            &&& ls[5] == dashes()
            &&& has_prefix(s0, dashes())
            &&& s0[0] == '-'
            &&& s0.last() == '\n'
        }),
{
    let q0 = dashes();
    let q1 = seq!['n', 'a', 'm', 'e', ':', ' '] + slug;
    let q2 = template_description_line();
    let q3 = metadata_line();
    let q4 = template_type_line();
    let q6 = Seq::<char>::empty();
    let qs = seq![q0, q1, q2, q3, q4, q0, q6];
    let s0 = memory_template(slug);
    assert(s0 =~= unlines(qs)) by {
        reveal_strlit("---\nname: ");
        reveal_strlit("\ndescription: \nmetadata:\n  type: project\n---\n\n");
        reveal_with_fuel(unlines, 8);
        assert(qs.drop_last() =~= seq![q0, q1, q2, q3, q4, q0]);
        assert(qs.drop_last().drop_last() =~= seq![q0, q1, q2, q3, q4]);
        assert(qs.drop_last().drop_last().drop_last() =~= seq![q0, q1, q2, q3]);
        assert(qs.drop_last().drop_last().drop_last().drop_last() =~= seq![q0, q1, q2]);
        assert(qs.drop_last().drop_last().drop_last().drop_last().drop_last() =~= seq![q0, q1]);
        assert(qs.drop_last().drop_last().drop_last().drop_last().drop_last().drop_last()
            =~= seq![q0]);
        assert(seq![q0].drop_last() =~= Seq::<Seq<char>>::empty());
    }
    assert forall|i: int| 0 <= i < qs.len() implies free_of(#[trigger] qs[i], '\n') by {
        if i == 1 {
            assert forall|m: int| 0 <= m < q1.len() implies q1[m] != '\n' by {
                if m >= 6 {
                    assert(q1[m] == slug[m - 6]);
                }
            }
        }
    }
    lemma_lines_unlines(qs);
    lemma_strip_cr_first(q1);
    lemma_unlines_prefix(qs);
    assert(s0.take(3) == q0);
    assert(s0.take(3)[0] == s0[0]);
    assert(unlines(qs) == unlines(qs.drop_last()) + q6 + seq!['\n']);
}

/// What retyping a new memory's text gives: its nested type line rewritten.
proof fn lemma_retyped_template(slug: Seq<char>, t: Seq<char>)
    requires
        free_of(slug, '\n'),
    ensures
        retyped(memory_template(slug), t) == unlines(
            lines(memory_template(slug)).update(4, type_line(seq![' ', ' '], t)),
        ),
{
    let s0 = memory_template(slug);
    lemma_template_lines(slug);
    let ls = lines(s0);
    lemma_dashes_fence();
    lemma_not_fence(ls[1]);
    lemma_not_fence(ls[2]);
    lemma_not_fence(ls[3]);
    lemma_not_fence(ls[4]);
    lemma_fence_at(ls, 5, 1);
    lemma_lead_len_exact(s0, Strip::Char(bom()), 0);
    assert(s0.skip(0) =~= s0);
    lemma_not_type_line(ls[1]);
    lemma_not_type_line(ls[2]);
    lemma_not_type_line(ls[3]);
    let q4 = template_type_line();
    lemma_lead_len_exact(q4, Strip::Whitespace, 2);
    assert(q4.skip(2).take(5) =~= type_key());
    lemma_type_line_at(ls, 4, 1, 5);
    assert(q4.take(2) =~= seq![' ', ' ']);
    let ls2 = ls.update(4, type_line(seq![' ', ' '], t));
    lemma_has_suffix_char(s0, '\n');
    lemma_join_unlines(ls2);
    assert(join(ls2, seq!['\n']).push('\n') =~= join(ls2, seq!['\n']) + seq!['\n']);
}

/// A memory created from the template and then retyped reads back with
/// the new type (the template's nested `type:` is the one rewritten).
pub proof fn law_retype_new_memory(slug: Seq<char>, t: Seq<char>)
    requires
        plain_value(t),
        free_of(slug, '\n'),
    ensures
        memory_type(retyped(memory_template(slug), t)) == t,
{
    let s0 = memory_template(slug);
    lemma_template_lines(slug);
    lemma_retyped_template(slug, t);
    let ls = lines(s0);
    let ind = seq![' ', ' '];
    let tl = type_line(ind, t);
    let ls2 = ls.update(4, tl);
    let out = retyped(s0, t);
    lemma_lines_free(s0);
    assert(tl =~= ind + (type_key() + seq![' '] + t));
    assert forall|m: int| 0 <= m < tl.len() implies tl[m] != '\n' by {
        if m >= 8 {
            assert(tl[m] == t[m - 8]);
        }
    }
    assert forall|i: int| 0 <= i < ls2.len() implies free_of(#[trigger] ls2[i], '\n') by {
        if i != 4 {
            assert(ls2[i] == ls[i]);
        }
    }
    lemma_lines_unlines(ls2);
    let ms = lines(out);
    assert(tl.last() == t.last());
    assert(is_ws('\r'));
    assert(ms[4] == tl);
    assert(ms[5] == dashes());
    assert(ms[3] == metadata_line());
    assert(ms[2] == template_description_line());
    assert(ms[1] == strip_cr(ls2[1]));
    lemma_strip_cr_first(ls[1]);
    lemma_dashes_fence();
    lemma_not_fence(ms[1]);
    lemma_not_fence(ms[2]);
    lemma_not_fence(ms[3]);
    assert(tl[0] == ' ');
    lemma_not_fence(tl);
    lemma_unlines_prefix(ls2);
    assert(ls2[0] == dashes());
    lemma_fields_of(out, 5);
    let fl = Seq::new(4, |i: int| strip_cr(ms[i + 1]));
    assert(fl[3] == tl);
    assert(fl[2] == metadata_line());
    let before = read_fields(fl.drop_last().drop_last());
    lemma_step_metadata(before);
    assert(fl.drop_last().last() == metadata_line());
    assert(read_fields(fl.drop_last()) == step(before, metadata_line()));
    assert forall|j: int| 0 <= j < ind.len() implies is_ws(#[trigger] ind[j]) by {}
    lemma_step_type(step(before, metadata_line()), ind, t);
}

// ------------------------------------------------------------------
// Browsing
// ------------------------------------------------------------------

/// Moving to the next project and back returns to the same project, and so
/// does moving back first.
pub proof fn law_next_prev_project(a: App)
    requires
        a.core_wf(),
    ensures
        a.after_next_project().after_prev_project().selected_project == a.selected_project,
        a.after_prev_project().after_next_project().selected_project == a.selected_project,
{
    let s = a.selected_project as int;
    let c = a.project_count_spec();
    assert(0 <= (s + 1) % c < c && 0 <= (s + c - 1) % c < c) by (nonlinear_arith)
        requires
            0 <= s < c,
    ;
    assert(((s + 1) % c + c - 1) % c == s && ((s + c - 1) % c + 1) % c == s) by (nonlinear_arith)
        requires
            0 <= s < c,
    ;
}

/// Moving the memory cursor down and back up returns it to where it was
/// (and so does moving up first), when it was on a shown memory.
pub proof fn law_next_prev_memory(a: App)
    requires
        a.mem_cursor < a.visible().len() <= usize::MAX,
    ensures
        a.after_next_memory().after_prev_memory().mem_cursor == a.mem_cursor,
        a.after_prev_memory().after_next_memory().mem_cursor == a.mem_cursor,
{
    let x = a.mem_cursor as int;
    let l = a.visible().len() as int;
    assert(a.after_next_memory().visible() == a.visible());
    assert(a.after_prev_memory().visible() == a.visible());
    assert(0 <= (x + 1) % l < l && 0 <= (x + l - 1) % l < l) by (nonlinear_arith)
        requires
            0 <= x < l,
    ;
    assert(((x + 1) % l + l - 1) % l == x && ((x + l - 1) % l + 1) % l == x) by (nonlinear_arith)
        requires
            0 <= x < l,
    ;
}

proof fn lemma_matching(idxs: Seq<usize>, mems: Seq<Memory>, q: Seq<char>)
    ensures
        forall|k: int|
            0 <= k < matching(idxs, mems, q).len() ==> memory_matches(
                mems[#[trigger] matching(idxs, mems, q)[k] as int],
                q,
            ) && idxs.contains(matching(idxs, mems, q)[k]),
    decreases idxs.len(),
{
    if idxs.len() > 0 {
        let init = idxs.drop_last();
        lemma_matching(init, mems, q);
        assert forall|k: int| 0 <= k < matching(idxs, mems, q).len() implies memory_matches(
            mems[#[trigger] matching(idxs, mems, q)[k] as int],
            q,
        ) && idxs.contains(matching(idxs, mems, q)[k]) by {
            let r = matching(init, mems, q);
            if k < r.len() {
                assert(matching(idxs, mems, q)[k] == r[k]);
                let i = choose|i: int| 0 <= i < init.len() && init[i] == r[k];
                assert(idxs[i] == r[k]);
            } else {
                assert(idxs[idxs.len() - 1] == idxs.last());
            }
        }
    }
}

proof fn lemma_non_index(mems: Seq<Memory>, n: nat)
    requires
        n <= usize::MAX + 1,
    ensures
        forall|k: int|
            0 <= k < non_index_upto(mems, n).len() ==> !is_index_memory(
                mems[#[trigger] non_index_upto(mems, n)[k] as int],
            ),
    decreases n,
{
    if n > 0 {
        lemma_non_index(mems, (n - 1) as nat);
        let r = non_index_upto(mems, (n - 1) as nat);
        assert forall|k: int| 0 <= k < non_index_upto(mems, n).len() implies !is_index_memory(
            mems[#[trigger] non_index_upto(mems, n)[k] as int],
        ) by {
            if !is_index_memory(mems[n - 1]) {
                assert(non_index_upto(mems, n) == r.push((n - 1) as usize));
                if k < r.len() {
                    assert(non_index_upto(mems, n)[k] == r[k]);
                } else {
                    assert(non_index_upto(mems, n)[k] == (n - 1) as usize);
                }
            } else {
                assert(non_index_upto(mems, n) == r);
            }
        }
    }
}

/// Under a filter, every memory shown matches it (in its name, description,
/// slug, type or body, ignoring case).
pub proof fn law_filter_shows_matches(a: App)
    requires
        a.filter@.len() > 0,
    ensures
        forall|k: int|
            0 <= k < a.visible().len() ==> memory_matches(
                a.library.memories@[#[trigger] a.visible()[k] as int],
                lower(a.filter@),
            ),
{
    let mems = a.library.memories@;
    let base = if a.selected_project == 0 {
        non_index_upto(mems, mems.len())
    } else {
        a.library.projects@[a.selected_project - 1].memory_idx@
    };
    lemma_matching(base, mems, lower(a.filter@));
}

/// The ALL PROJECTS view shows no index entry.
pub proof fn law_all_hides_index(a: App)
    requires
        a.selected_project == 0,
        a.library.memories@.len() <= usize::MAX,
    ensures
        forall|k: int|
            0 <= k < a.visible().len() ==> !is_index_memory(
                a.library.memories@[#[trigger] a.visible()[k] as int],
            ),
{
    let mems = a.library.memories@;
    let base = non_index_upto(mems, mems.len());
    lemma_non_index(mems, mems.len());
    if a.filter@.len() > 0 {
        lemma_matching(base, mems, lower(a.filter@));
        assert forall|k: int| 0 <= k < a.visible().len() implies !is_index_memory(
            mems[#[trigger] a.visible()[k] as int],
        ) by {
            let i = choose|i: int| 0 <= i < base.len() && base[i] == a.visible()[k];
            assert(!is_index_memory(mems[base[i] as int]));
        }
    }
}

// ------------------------------------------------------------------
// Slugs
// ------------------------------------------------------------------

/// Kebab-case: ASCII letters, digits and dashes, where the dashes separate
/// non-empty runs of letters and digits (none at either end, never two in a
/// row).
pub open spec fn is_kebab(s: Seq<char>) -> bool {
    &&& forall|i: int| 0 <= i < s.len() ==> is_ascii_alnum(#[trigger] s[i]) || s[i] == '-'
    &&& s.len() > 0 ==> forall|k: int|
        0 <= k < split_on(s, '-').len() ==> #[trigger] split_on(s, '-')[k].len() > 0
}

/// Only letters and digits.
spec fn alnum_only(s: Seq<char>) -> bool {
    forall|i: int| 0 <= i < s.len() ==> is_ascii_alnum(#[trigger] s[i])
}

proof fn lemma_split_alnum(s: Seq<char>)
    requires
        forall|i: int| 0 <= i < s.len() ==> is_ascii_alnum(#[trigger] s[i]) || s[i] == '-',
    ensures
        forall|k: int| 0 <= k < split_on(s, '-').len() ==> alnum_only(#[trigger] split_on(s, '-')[k]),
    decreases s.len(),
{
    lemma_split_on_len(s, '-');
    if s.len() > 0 {
        let init = s.drop_last();
        assert forall|i: int| 0 <= i < init.len() implies is_ascii_alnum(#[trigger] init[i])
            || init[i] == '-' by {
            assert(init[i] == s[i]);
        }
        lemma_split_alnum(init);
        lemma_split_on_len(init, '-');
        let p = split_on(init, '-');
        assert forall|k: int| 0 <= k < split_on(s, '-').len() implies alnum_only(
            #[trigger] split_on(s, '-')[k],
        ) by {
            if s.last() == '-' {
                if k < p.len() {
                    assert(split_on(s, '-')[k] == p[k]);
                }
            } else if k == p.len() - 1 {
                let l = p.last().push(s.last());
                assert(alnum_only(p[k]));
                assert forall|j: int| 0 <= j < l.len() implies is_ascii_alnum(#[trigger] l[j]) by {
                    if j < l.len() - 1 {
                        assert(l[j] == p[k][j]);
                    }
                }
            } else {
                assert(split_on(s, '-')[k] == p[k]);
            }
        }
    }
}

proof fn lemma_nonempty(ps: Seq<Seq<char>>)
    ensures
        forall|k: int|
            0 <= k < nonempty(ps).len() ==> (#[trigger] nonempty(ps)[k]).len() > 0 && ps.contains(
                nonempty(ps)[k],
            ),
    decreases ps.len(),
{
    if ps.len() > 0 {
        let init = ps.drop_last();
        lemma_nonempty(init);
        let r = nonempty(init);
        assert forall|k: int| 0 <= k < nonempty(ps).len() implies (
        #[trigger] nonempty(ps)[k]).len() > 0 && ps.contains(nonempty(ps)[k]) by {
            if k < r.len() {
                assert(nonempty(ps)[k] == r[k]);
                let i = choose|i: int| 0 <= i < init.len() && init[i] == r[k];
                assert(ps[i] == r[k]);
            } else {
                assert(ps[ps.len() - 1] == ps.last());
            }
        }
    }
}

proof fn lemma_nonempty_all(ps: Seq<Seq<char>>)
    requires
        forall|k: int| 0 <= k < ps.len() ==> (#[trigger] ps[k]).len() > 0,
    ensures
        nonempty(ps) == ps,
    decreases ps.len(),
{
    if ps.len() > 0 {
        let init = ps.drop_last();
        assert forall|k: int| 0 <= k < init.len() implies (#[trigger] init[k]).len() > 0 by {
            assert(init[k] == ps[k]);
        }
        lemma_nonempty_all(init);
        assert(ps.last() == ps[ps.len() - 1]);
        assert(init.push(ps.last()) =~= ps);
    }
}

proof fn lemma_join_alnum(ps: Seq<Seq<char>>)
    requires
        forall|k: int| 0 <= k < ps.len() ==> alnum_only(#[trigger] ps[k]),
    ensures
        forall|i: int|
            0 <= i < join(ps, seq!['-']).len() ==> is_ascii_alnum(#[trigger] join(ps, seq!['-'])[i])
                || join(ps, seq!['-'])[i] == '-',
    decreases ps.len(),
{
    if ps.len() == 1 {
        assert(alnum_only(ps[0]));
    } else if ps.len() > 1 {
        let init = ps.drop_last();
        assert forall|k: int| 0 <= k < init.len() implies alnum_only(#[trigger] init[k]) by {
            assert(init[k] == ps[k]);
        }
        lemma_join_alnum(init);
        let a = join(init, seq!['-']);
        let j = join(ps, seq!['-']);
        assert(j == a + seq!['-'] + ps.last());
        assert(alnum_only(ps[ps.len() - 1]));
        assert forall|i: int| 0 <= i < j.len() implies is_ascii_alnum(#[trigger] j[i]) || j[i]
            == '-' by {
            if i < a.len() {
                assert(j[i] == a[i]);
            } else if i > a.len() {
                assert(j[i] == ps.last()[i - a.len() - 1]);
            }
        }
    }
}

/// The slug of any lower-cased text is kebab-case.
proof fn lemma_slug_kebab(x: Seq<char>)
    ensures
        is_kebab(slug_of_lowercase(x)),
{
    let m = slug_chars(x);
    assert forall|i: int| 0 <= i < m.len() implies is_ascii_alnum(#[trigger] m[i]) || m[i]
        == '-' by {}
    lemma_split_alnum(m);
    let ps = nonempty(split_on(m, '-'));
    lemma_nonempty(split_on(m, '-'));
    let r = join(ps, seq!['-']);
    assert forall|k: int| 0 <= k < ps.len() implies alnum_only(#[trigger] ps[k]) by {
        let i = choose|i: int| 0 <= i < split_on(m, '-').len() && split_on(m, '-')[i] == ps[k];
        assert(alnum_only(split_on(m, '-')[i]));
    }
    lemma_join_alnum(ps);
    if ps.len() > 0 {
        assert forall|k: int| 0 <= k < ps.len() implies free_of(#[trigger] ps[k], '-') by {
            assert(alnum_only(ps[k]));
            assert forall|j: int| 0 <= j < ps[k].len() implies ps[k][j] != '-' by {
                assert(is_ascii_alnum(ps[k][j]));
            }
        }
        lemma_split_join(ps, '-');
    } else {
        assert(r =~= Seq::<char>::empty());
    }
}

/// What `sanitize_slug` gives is kebab-case.
pub proof fn law_slug_is_kebab(input: Seq<char>)
    ensures
        is_kebab(sanitized(input)),
{
    lemma_slug_kebab(lower(trim(input)));
}

/// A kebab-case text is its own slug, so making a slug twice changes
/// nothing more than making it once.
pub proof fn law_slug_of_kebab(s: Seq<char>)
    requires
        is_kebab(s),
    ensures
        slug_of_lowercase(s) == s,
{
    assert(slug_chars(s) =~= s);
    lemma_split_on_len(s, '-');
    lemma_join_split(s, '-');
    if s.len() > 0 {
        lemma_nonempty_all(split_on(s, '-'));
    } else {
        assert(s =~= Seq::<char>::empty());
        assert(split_on(s, '-') == seq![Seq::<char>::empty()]);
        let e = seq![Seq::<char>::empty()];
        assert(e.drop_last() =~= Seq::<Seq<char>>::empty());
        assert(nonempty(e.drop_last()) =~= Seq::<Seq<char>>::empty());
        assert(e.last().len() == 0);
        assert(nonempty(e) == nonempty(e.drop_last()));
    }
}

// ------------------------------------------------------------------
// The index, read back
// ------------------------------------------------------------------

/// Appending a memory to the index keeps the lines that were there and adds
/// one last line, which reads back as the memory's name, slug and
/// description.
pub proof fn law_appended_entry_reads_back(
    raw: Seq<char>,
    slug: Seq<char>,
    name: Seq<char>,
    description: Seq<char>,
)
    requires
        free_of(slug, '\n'),
        free_of(name, '\n'),
        free_of(description, '\n'),
        !contains(name, seq![']', '(']),
        free_of(slug, ')'),
        plain_hook(description),
    ensures
        lines(appended_index(raw, slug, name, description)).drop_last() == lines(ended(raw)),
        index_entry(lines(appended_index(raw, slug, name, description)).last()) == Some(
            (name, slug, description),
        ),
{
    let a = ended(raw);
    let p = pointer_line(slug, name, description);
    let full = appended_index(raw, slug, name, description);
    assert(free_of(p, '\n'));
    assert(full =~= a + (p + seq!['\n']));
    lemma_lines_concat(a, p + seq!['\n']);
    lemma_lines_single(p);
    assert(is_ws('\r'));
    assert(strip_cr(p) == p);
    assert(lines(full) =~= lines(a).push(p));
    law_pointer_line_parses(slug, name, description);
}

// ------------------------------------------------------------------
// Statistics
// ------------------------------------------------------------------

/// Of the memories in scope, those created in the last 7 days are among
/// those created in the last 30 days, which are among all of them.
pub proof fn law_recent_counts_nested(ms: Seq<Memory>, now: u64)
    ensures
        count_recent(ms, now, 7int * 86400) <= count_recent(ms, now, 30int * 86400) <= ms.len(),
    decreases ms.len(),
{
    if ms.len() > 0 {
        law_recent_counts_nested(ms.drop_last(), now);
    }
}

/// There is an oldest creation time exactly when there is a newest one,
/// and the oldest is no later than the newest.
pub proof fn law_oldest_before_newest(ms: Seq<Memory>)
    ensures
        oldest_created(ms) is Some <==> newest_created(ms) is Some,
        oldest_created(ms) matches Some(o) ==> newest_created(ms) matches Some(n) && o <= n,
    decreases ms.len(),
{
    if ms.len() > 0 {
        law_oldest_before_newest(ms.drop_last());
    }
}

// ------------------------------------------------------------------
// Scanning
// ------------------------------------------------------------------

proof fn lemma_eligible_in(l: ProjectListing, fo: Seq<usize>)
    ensures
        forall|t: int|
            0 <= t < eligible_in(l, fo).len() ==> eligible(
                l.files@[#[trigger] eligible_in(l, fo)[t] as int],
            ),
    decreases fo.len(),
{
    if fo.len() > 0 {
        lemma_eligible_in(l, fo.drop_last());
        let r = eligible_in(l, fo.drop_last());
        assert forall|t: int| 0 <= t < eligible_in(l, fo).len() implies eligible(
            l.files@[#[trigger] eligible_in(l, fo)[t] as int],
        ) by {
            if t < r.len() {
                assert(eligible_in(l, fo)[t] == r[t]);
            }
        }
    }
}

proof fn lemma_sources_eligible(ls: Seq<ProjectListing>, po: Seq<usize>, fo: Seq<Seq<usize>>)
    ensures
        forall|j: int|
            0 <= j < memory_sources(ls, po, fo).len() ==> eligible(
                ls[(#[trigger] memory_sources(ls, po, fo)[j]).0 as int].files@[memory_sources(
                    ls,
                    po,
                    fo,
                )[j].1 as int],
            ),
    decreases po.len(),
{
    if po.len() > 0 {
        let k = po.last();
        let r = memory_sources(ls, po.drop_last(), fo);
        let e = eligible_in(ls[k as int], fo[k as int]);
        lemma_sources_eligible(ls, po.drop_last(), fo);
        lemma_eligible_in(ls[k as int], fo[k as int]);
        let ms = memory_sources(ls, po, fo);
        assert(ms == r + tagged(k, e));
        assert forall|j: int| 0 <= j < ms.len() implies eligible(
            ls[(#[trigger] ms[j]).0 as int].files@[ms[j].1 as int],
        ) by {
            if j < r.len() {
                assert(ms[j] == r[j]);
            } else {
                assert(ms[j] == (k, e[j - r.len()]));
            }
        }
    }
}

/// `MEMORY`, the stem of the index file.
pub open spec fn index_stem() -> Seq<char> {
    seq!['M', 'E', 'M', 'O', 'R', 'Y']
}

/// The slug of a memory file is never the index's stem, in any ASCII case.
proof fn lemma_memory_file_slug(f: Seq<char>)
    requires
        is_memory_file_name(f),
    ensures
        !ascii_ci_eq(slug_of_file(f), index_stem()),
{
    let dot = seq!['.'];
    lemma_last_match_below(f, dot, f.len() + 1);
    let i = rfind(f, dot).unwrap();
    assert(f.subrange(i, i + 1)[0] == f[i]);
    let slug = f.take(i);
    if ascii_ci_eq(slug, index_stem()) {
        assert(f.skip(i + 1).len() == 2);
        assert(f.len() == 9);
        let idx = index_file_name();
        assert forall|j: int| 0 <= j < f.len() implies ascii_lower(f[j]) == ascii_lower(
            #[trigger] idx[j],
        ) by {
            if j < 6 {
                assert(slug[j] == f[j]);
                assert(index_stem()[j] == idx[j]);
            } else if j > 6 {
                assert(f.skip(7)[j - 7] == f[j]);
            }
        }
        assert(ascii_ci_eq(f, idx));
    }
}

/// No memory of an assembled library is the project index: each one's
/// slug is that of a `.md` file other than `MEMORY.md`, and so is never
/// `MEMORY` in any ASCII case.
pub proof fn law_no_memory_is_the_index(
    lib: Library,
    ls: Seq<ProjectListing>,
    po: Seq<usize>,
    fo: Seq<Seq<usize>>,
)
    requires
        assembled(lib, ls, po, fo),
    ensures
        forall|j: int|
            0 <= j < lib.memories@.len() ==> !ascii_ci_eq(
                (#[trigger] lib.memories@[j]).slug@,
                index_stem(),
            ),
{
    let ms = memory_sources(ls, po, fo);
    lemma_sources_eligible(ls, po, fo);
    assert forall|j: int| 0 <= j < lib.memories@.len() implies !ascii_ci_eq(
        (#[trigger] lib.memories@[j]).slug@,
        index_stem(),
    ) by {
        let f = ls[ms[j].0 as int].files@[ms[j].1 as int];
        assert(eligible(ls[(ms[j]).0 as int].files@[ms[j].1 as int]));
        lemma_memory_file_slug(f.file_name@);
    }
}

// ------------------------------------------------------------------
// Retyping a frontmatter without a type
// ------------------------------------------------------------------

/// Text in front of a split, free of the separator, joins the first piece.
proof fn lemma_split_prefix(a: Seq<char>, b: Seq<char>, c: char)
    requires
        free_of(a, c),
    ensures
        split_on(a + b, c) == split_on(b, c).update(0, a + split_on(b, c)[0]),
    decreases b.len(),
{
    lemma_split_on_len(b, c);
    if b.len() == 0 {
        assert(a + b =~= a);
        lemma_split_free(a, c);
        assert(split_on(b, c) == seq![Seq::<char>::empty()]);
        assert(a + Seq::<char>::empty() =~= a);
        assert(seq![Seq::<char>::empty()].update(0, a) =~= seq![a]);
    } else {
        let b1 = b.drop_last();
        let x = b.last();
        lemma_split_prefix(a, b1, c);
        lemma_split_on_len(b1, c);
        assert((a + b).drop_last() =~= a + b1);
        assert((a + b).last() == x);
        let q = split_on(b1, c);
        let p = q.update(0, a + q[0]);
        if x == c {
            assert(split_on(a + b, c) == p.push(Seq::empty()));
            assert(split_on(b, c) == q.push(Seq::empty()));
            assert(p.push(Seq::empty()) =~= q.push(Seq::empty()).update(
                0,
                a + q.push(Seq::empty())[0],
            ));
        } else {
            assert(split_on(a + b, c) == p.update(p.len() - 1, p.last().push(x)));
            let qq = q.update(q.len() - 1, q.last().push(x));
            assert(split_on(b, c) == qq);
            if q.len() == 1 {
                assert((a + q[0]).push(x) =~= a + q[0].push(x));
            }
            assert(p.update(p.len() - 1, p.last().push(x)) =~= qq.update(0, a + qq[0]));
        }
    }
}

/// Text in front of the first line break leaves the other lines alone.
proof fn lemma_lines_prefix(a: Seq<char>, b: Seq<char>)
    requires
        free_of(a, '\n'),
        b.len() > 0,
    ensures
        lines(a + b).len() == lines(b).len(),
        forall|i: int| 1 <= i < lines(b).len() ==> #[trigger] lines(a + b)[i] == lines(b)[i],
{
    lemma_split_prefix(a, b, '\n');
    lemma_split_on_len(b, '\n');
    assert((a + b).last() == b.last());
}

/// A first line that starts with `a` (no break in it, not ending with a
/// carriage return) keeps `a` in front.
proof fn lemma_first_line_prefix(a: Seq<char>, b: Seq<char>)
    requires
        free_of(a, '\n'),
        a.len() > 0,
        a.last() != '\r',
    ensures
        lines(a + b).len() > 0,
        has_prefix(lines(a + b)[0], a),
{
    lemma_split_prefix(a, b, '\n');
    lemma_split_on_len(b, '\n');
    let s = a + b;
    let q0 = split_on(b, '\n')[0];
    let p0 = a + q0;
    assert(split_on(s, '\n')[0] == p0);
    assert(s.len() > 0);
    if s.last() == '\n' {
        lemma_split_on_len(s.drop_last(), '\n');
        assert(split_on(s, '\n').len() >= 2);
    }
    let l0 = lines(s)[0];
    assert(l0 == p0 || l0 == strip_cr(p0));
    assert(p0.take(a.len() as int) =~= a);
    if q0.len() > 0 {
        assert(l0.take(a.len() as int) =~= a);
    } else {
        assert(p0 =~= a);
    }
}

/// The last character of joined pieces is that of the last piece.
proof fn lemma_join_last(ls: Seq<Seq<char>>, sep: Seq<char>)
    requires
        ls.len() > 0,
        ls.last().len() > 0,
    ensures
        join(ls, sep).len() > 0,
        join(ls, sep).last() == ls.last().last(),
{
    if ls.len() == 1 {
        assert(ls.last() == ls[0]);
    }
}

/// Joined pieces start with the first piece.
proof fn lemma_join_prefix(ls: Seq<Seq<char>>, sep: Seq<char>)
    requires
        ls.len() > 0,
    ensures
        join(ls, sep).len() >= ls[0].len(),
        join(ls, sep).take(ls[0].len() as int) == ls[0],
    decreases ls.len(),
{
    if ls.len() == 1 {
        assert(join(ls, sep).take(ls[0].len() as int) =~= ls[0]);
    } else {
        let init = ls.drop_last();
        lemma_join_prefix(init, sep);
        assert(init[0] == ls[0]);
        let j = join(init, sep);
        assert(join(ls, sep) == j + sep + ls.last());
        assert(join(ls, sep).take(ls[0].len() as int) =~= j.take(ls[0].len() as int));
    }
}

/// The lines of joined lines, with or without a final break: each line
/// comes back, those before the last without a trailing carriage return.
proof fn lemma_lines_of_joined(ls: Seq<Seq<char>>, ends: bool, out: Seq<char>)
    requires
        ls.len() > 0,
        forall|i: int| 0 <= i < ls.len() ==> free_of(#[trigger] ls[i], '\n'),
        !ends ==> ls.last().len() > 0,
        out == if ends {
            join(ls, seq!['\n']) + seq!['\n']
        } else {
            join(ls, seq!['\n'])
        },
    ensures
        lines(out).len() == ls.len(),
        forall|i: int| 0 <= i < ls.len() - 1 ==> #[trigger] lines(out)[i] == strip_cr(ls[i]),
        lines(out).last() == ls.last() || lines(out).last() == strip_cr(ls.last()),
        has_prefix(out, ls[0]),
{
    lemma_join_prefix(ls, seq!['\n']);
    if ends {
        lemma_join_unlines(ls);
        lemma_lines_unlines(ls);
        assert(out.take(ls[0].len() as int) =~= join(ls, seq!['\n']).take(ls[0].len() as int));
    } else {
        lemma_split_join(ls, '\n');
        lemma_join_last(ls, seq!['\n']);
        assert(ls.last() == ls[ls.len() - 1]);
        assert(ls.last().last() != '\n');
    }
}

/// A fence stays a fence without its carriage return.
proof fn lemma_fence_strip_cr(x: Seq<char>)
    ensures
        is_fence(strip_cr(x)) == is_fence(x),
{
    if x.len() > 0 && x.last() == '\r' {
        assert(is_ws('\r'));
        assert(trail_len(x, Strip::Whitespace) == 1 + trail_len(x.drop_last(), Strip::Whitespace));
        lemma_trail_len(x.drop_last(), Strip::Whitespace);
        assert(trim_end_by(x, Strip::Whitespace) =~= trim_end_by(x.drop_last(), Strip::Whitespace));
    }
}

/// A text that does not end with a line break ends with a non-empty line.
proof fn lemma_last_line_nonempty(s: Seq<char>)
    requires
        s.len() > 0,
        s.last() != '\n',
    ensures
        lines(s).len() > 0,
        lines(s).last().len() > 0,
{
    lemma_split_on_len(s.drop_last(), '\n');
    let p = split_on(s, '\n');
    assert(p.last().len() > 0);
    assert(lines(s).last() == p[p.len() - 1]);
}

/// The fields of a text whose first line, once byte-order marks are
/// dropped, opens a frontmatter that line `k` closes.
proof fn lemma_fields_of_trimmed(s: Seq<char>, k: int)
    requires
        has_prefix(trim_start_by(s, Strip::Char(bom())), dashes()),
        1 <= k < lines(trim_start_by(s, Strip::Char(bom()))).len(),
        is_fence(lines(trim_start_by(s, Strip::Char(bom())))[k]),
        forall|j: int|
            1 <= j < k ==> !is_fence(#[trigger] lines(trim_start_by(s, Strip::Char(bom())))[j]),
    ensures
        frontmatter_fields(s) == read_fields(
            Seq::new(
                (k - 1) as nat,
                |i: int| strip_cr(lines(trim_start_by(s, Strip::Char(bom())))[i + 1]),
            ),
        ),
{
    let tb = trim_start_by(s, Strip::Char(bom()));
    let ls = lines(tb);
    lemma_fence_at(ls, k, 1);
    let front = ls.subrange(1, k);
    lemma_lines_free(tb);
    assert forall|i: int| 0 <= i < front.len() implies free_of(#[trigger] front[i], '\n') by {
        assert(front[i] == ls[i + 1]);
    }
    lemma_lines_unlines(front);
    assert(Seq::new(front.len(), |i: int| strip_cr(front[i])) =~= Seq::new(
        (k - 1) as nat,
        |i: int| strip_cr(ls[i + 1]),
    ));
}

/// A closed frontmatter holding no type line.
pub open spec fn untyped_frontmatter(raw: Seq<char>) -> bool {
    closed_frontmatter(raw) && type_line_from(lines(raw), 1, fence_from(lines(raw), 1).unwrap())
        is None
}

/// The text and lines of a retyped untyped frontmatter: a top-level type
/// line sits where the closing fence was.
proof fn lemma_inserted_text(raw: Seq<char>, t: Seq<char>)
    requires
        plain_value(t),
        untyped_frontmatter(raw),
    ensures
        ({
            let ls = lines(raw);
            let close = fence_from(ls, 1).unwrap();
            let tl = type_line(Seq::empty(), t);
            let out = retyped(raw, t);
            let m = lines(out);
            &&& 1 <= close < ls.len()
            &&& is_fence(ls[close])
            &&& forall|j: int| 1 <= j < close ==> !is_fence(#[trigger] ls[j])
            &&& m.len() == ls.len() + 1
            &&& forall|j: int| 0 <= j < close ==> #[trigger] m[j] == strip_cr(ls[j])
            &&& m[close] == tl
            &&& (m[close + 1] == ls[close] || m[close + 1] == strip_cr(ls[close]))
            &&& has_prefix(out, ls[0])
        }),
{
    let ls = lines(raw);
    lemma_fence_from(ls, 1);
    let close = fence_from(ls, 1).unwrap();
    lemma_type_line_from(ls, 1, close);
    let tl = type_line(Seq::empty(), t);
    let ls2 = ls.insert(close, tl);
    let ends = has_suffix(raw, seq!['\n']);
    lemma_has_suffix_char(raw, '\n');
    let out = retyped(raw, t);
    assert(retyped_lines(ls, close, t) == ls2);
    assert(out == if ends {
        join(ls2, seq!['\n']) + seq!['\n']
    } else {
        join(ls2, seq!['\n'])
    }) by {
        if ends {
            assert(join(ls2, seq!['\n']).push('\n') =~= join(ls2, seq!['\n']) + seq!['\n']);
        }
    }
    lemma_lines_of_type_line(t);
    lemma_lines_free(raw);
    assert forall|i: int| 0 <= i < ls2.len() implies free_of(#[trigger] ls2[i], '\n') by {
        if i < close {
            assert(ls2[i] == ls[i]);
        } else if i > close {
            assert(ls2[i] == ls[i - 1]);
        }
    }
    if !ends {
        lemma_last_line_nonempty(raw);
        assert(ls2.last() == ls.last());
    }
    lemma_lines_of_joined(ls2, ends, out);
    let m = lines(out);
    assert(ls2[0] == ls[0]);
    assert forall|j: int| 0 <= j < close implies #[trigger] m[j] == strip_cr(ls[j]) by {
        assert(ls2[j] == ls[j]);
    }
    assert(m[close] == strip_cr(tl));
    assert(ls2[close + 1] == ls[close]);
    if close + 1 < ls2.len() - 1 {
        assert(m[close + 1] == strip_cr(ls2[close + 1]));
    } else {
        assert(m.last() == m[close + 1]);
    }
}

/// The byte-order marks and dashes that open a frontmatter start its first
/// line.
proof fn lemma_opening(raw: Seq<char>)
    requires
        has_prefix(trim_start_by(raw, Strip::Char(bom())), dashes()),
    ensures
        ({
            let n = lead_len(raw, Strip::Char(bom())) as int;
            let q = raw.take(n + 3);
            &&& n + 3 <= raw.len()
            &&& forall|j: int| 0 <= j < n ==> #[trigger] q[j] == bom()
            &&& q.skip(n) == dashes()
            &&& lines(raw).len() > 0
            &&& has_prefix(lines(raw)[0], q)
        }),
{
    let b = bom();
    let n = lead_len(raw, Strip::Char(b)) as int;
    lemma_lead_len(raw, Strip::Char(b));
    let q = raw.take(n + 3);
    assert(raw.skip(n).take(3) == dashes());
    assert forall|j: int| 0 <= j < n implies #[trigger] q[j] == b by {
        assert(strips(Strip::Char(b), raw[j]));
    }
    assert(q.skip(n) =~= raw.skip(n).take(3));
    assert forall|j: int| 0 <= j < q.len() implies q[j] != '\n' by {
        if j >= n {
            assert(q[j] == q.skip(n)[j - n]);
        }
    }
    assert(q.last() == q.skip(n)[2]);
    assert(raw =~= q + raw.skip(n + 3));
    lemma_first_line_prefix(q, raw.skip(n + 3));
}

/// A text that starts with `n` byte-order marks and then dashes: dropping
/// the marks gives a text that opens with the dashes and has the same lines
/// but the first.
proof fn lemma_drop_marks(out: Seq<char>, q: Seq<char>, n: int)
    requires
        0 <= n,
        q.len() == n + 3,
        forall|j: int| 0 <= j < n ==> #[trigger] q[j] == bom(),
        q.skip(n) == dashes(),
        has_prefix(out, q),
    ensures
        trim_start_by(out, Strip::Char(bom())) == out.skip(n),
        has_prefix(out.skip(n), dashes()),
        lines(out.skip(n)).len() == lines(out).len(),
        forall|i: int|
            1 <= i < lines(out).len() ==> #[trigger] lines(out.skip(n))[i] == lines(out)[i],
{
    let b = bom();
    assert forall|j: int| 0 <= j < n implies strips(Strip::Char(b), #[trigger] out[j]) by {
        assert(out[j] == out.take(q.len() as int)[j]);
    }
    assert(out[n] == out.take(q.len() as int)[n]);
    assert(q[n] == q.skip(n)[0]);
    lemma_lead_len_exact(out, Strip::Char(b), n);
    let tb = out.skip(n);
    assert(tb.take(3) =~= dashes()) by {
        assert forall|j: int| 0 <= j < 3 implies tb.take(3)[j] == dashes()[j] by {
            assert(tb.take(3)[j] == out.take(q.len() as int)[n + j]);
            assert(q[n + j] == q.skip(n)[j]);
        }
    }
    let bs = out.take(n);
    assert forall|j: int| 0 <= j < bs.len() implies bs[j] != '\n' by {
        assert(strips(Strip::Char(b), out[j]));
    }
    assert(out =~= bs + tb);
    lemma_lines_prefix(bs, tb);
}

/// Retyping a memory whose frontmatter has no type adds a `type:` line at
/// its end, and reading it back gives the new type.
pub proof fn law_retype_inserted(raw: Seq<char>, t: Seq<char>)
    requires
        plain_value(t),
        untyped_frontmatter(raw),
    ensures
        memory_type(retyped(raw, t)) == t,
{
    let ls = lines(raw);
    let close = fence_from(ls, 1).unwrap();
    let tl = type_line(Seq::empty(), t);
    let out = retyped(raw, t);
    lemma_inserted_text(raw, t);
    let m = lines(out);
    lemma_opening(raw);
    let n = lead_len(raw, Strip::Char(bom())) as int;
    let q = raw.take(n + 3);
    assert(has_prefix(out, q)) by {
        assert(out.take(ls[0].len() as int) == ls[0]);
        assert(ls[0].take(q.len() as int) == q);
        assert(out.take(q.len() as int) =~= q);
    }
    lemma_drop_marks(out, q, n);
    let tb = out.skip(n);
    let mt = lines(tb);
    lemma_dashes_fence();
    assert(tl[0] == 't');
    lemma_not_fence(tl);
    assert forall|j: int| 1 <= j < close + 1 implies !is_fence(#[trigger] mt[j]) by {
        assert(mt[j] == m[j]);
        if j < close {
            lemma_fence_strip_cr(ls[j]);
        }
    }
    assert(is_fence(mt[close + 1])) by {
        assert(mt[close + 1] == m[close + 1]);
        lemma_fence_strip_cr(ls[close]);
    }
    lemma_fields_of_trimmed(out, close + 1);
    let fl = Seq::new(close as nat, |i: int| strip_cr(mt[i + 1]));
    assert(fl.last() == strip_cr(mt[close]));
    assert(mt[close] == m[close]);
    lemma_lines_of_type_line(t);
    assert(fl.last() == tl);
    lemma_step_type(read_fields(fl.drop_last()), Seq::empty(), t);
}

// ------------------------------------------------------------------
// Retyping leaves the other fields alone
// ------------------------------------------------------------------

/// Two states of the frontmatter reader that agree on all but the type.
pub open spec fn same_but_type(f: Fields, g: Fields) -> bool {
    f.name == g.name && f.description == g.description && f.in_metadata == g.in_metadata
}

/// A frontmatter line whose key is `type`.
pub open spec fn type_keyed(l: Seq<char>) -> bool {
    key_value(l) matches Some((k, _)) && k == seq!['t', 'y', 'p', 'e']
}

/// A line keyed `type` changes the type alone.
proof fn lemma_step_type_keyed(f: Fields, g: Fields, a: Seq<char>, b: Seq<char>)
    requires
        same_but_type(f, g),
        type_keyed(a),
        type_keyed(b),
    ensures
        same_but_type(step(f, a), step(g, b)),
        same_but_type(step(f, a), g),
{
    reveal_strlit("type");
    reveal_strlit("metadata");
    reveal_strlit("name");
    reveal_strlit("description");
    assert("type"@ =~= seq!['t', 'y', 'p', 'e']);
    assert("name"@[0] != 't');
}

/// A type line is keyed `type`.
proof fn lemma_type_line_keyed(l: Seq<char>)
    requires
        is_type_line(l),
    ensures
        type_keyed(l),
{
    let n = lead_len(l, Strip::Whitespace) as int;
    lemma_lead_len(l, Strip::Whitespace);
    let x = l.skip(n);
    assert(x.take(5) == type_key());
    assert(x[4] == ':') by {
        assert(x.take(5)[4] == x[4]);
    }
    lemma_trail_len(x, Strip::Whitespace);
    let tr = trail_len(x, Strip::Whitespace) as int;
    if tr > x.len() - 5 {
        assert(strips(Strip::Whitespace, x[4]));
        assert(false);
    }
    let y = x.take(x.len() - tr);
    assert(trim(l) == y);
    assert forall|m: int| 0 <= m < 4 implies y[m] != ':' by {
        assert(y[m] == x.take(5)[m]);
    }
    assert(y[4] == ':');
    lemma_find_char_is(y, ':', 4);
    let k = y.take(4);
    assert(k =~= seq!['t', 'y', 'p', 'e']) by {
        assert forall|m: int| 0 <= m < 4 implies k[m] == type_key()[m] by {
            assert(k[m] == x.take(5)[m]);
        }
    }
    lemma_lead_len_exact(k, Strip::Whitespace, 0);
    lemma_trail_len_exact(k, Strip::Whitespace, 0);
    assert(k.skip(0) =~= k);
    assert(k.take(4) =~= k);
}

/// Dropping trailing whitespace one character at a time.
proof fn lemma_trim_end_drop(x: Seq<char>)
    requires
        x.len() > 0,
        is_ws(x.last()),
    ensures
        trim_end_by(x.drop_last(), Strip::Whitespace) == trim_end_by(x, Strip::Whitespace),
{
    assert(trail_len(x, Strip::Whitespace) == 1 + trail_len(x.drop_last(), Strip::Whitespace));
    lemma_trail_len(x.drop_last(), Strip::Whitespace);
    assert(trim_end_by(x, Strip::Whitespace) =~= trim_end_by(x.drop_last(), Strip::Whitespace));
}

/// Trimming does not see a trailing whitespace character.
proof fn lemma_trim_drop(l: Seq<char>)
    requires
        l.len() > 0,
        is_ws(l.last()),
    ensures
        trim(l.drop_last()) == trim(l),
{
    let l1 = l.drop_last();
    let n = lead_len(l, Strip::Whitespace) as int;
    lemma_lead_len(l, Strip::Whitespace);
    if n < l.len() {
        assert(n < l.len() - 1);
        assert forall|j: int| 0 <= j < n implies strips(Strip::Whitespace, #[trigger] l1[j]) by {
            assert(l1[j] == l[j]);
        }
        assert(l1[n] == l[n]);
        lemma_lead_len_exact(l1, Strip::Whitespace, n);
        let x = l.skip(n);
        assert(l1.skip(n) =~= x.drop_last());
        assert(x.last() == l.last());
        lemma_trim_end_drop(x);
    } else {
        assert forall|j: int| 0 <= j < l1.len() implies strips(
            Strip::Whitespace,
            #[trigger] l1[j],
        ) by {
            assert(l1[j] == l[j]);
        }
        lemma_lead_len_exact(l1, Strip::Whitespace, l1.len() as int);
        lemma_trail_len(l.skip(n), Strip::Whitespace);
        lemma_trail_len(l1.skip(l1.len() as int), Strip::Whitespace);
        assert(trim(l) =~= Seq::<char>::empty());
        assert(trim(l1) =~= Seq::<char>::empty());
    }
}

/// The reader does not see a line's carriage return.
proof fn lemma_step_strip_cr(f: Fields, l: Seq<char>)
    ensures
        step(f, strip_cr(l)) == step(f, l),
{
    if l.len() > 0 && l.last() == '\r' {
        assert(is_ws('\r'));
        lemma_trim_drop(l);
        if l.len() >= 2 {
            assert(strip_cr(l)[0] == l[0]);
        }
    }
}

/// The reader does not see the lines' carriage returns.
proof fn lemma_read_fields_strip_cr(ls: Seq<Seq<char>>)
    ensures
        read_fields(Seq::new(ls.len(), |i: int| strip_cr(ls[i]))) == read_fields(ls),
    decreases ls.len(),
{
    if ls.len() > 0 {
        let sl = Seq::new(ls.len(), |i: int| strip_cr(ls[i]));
        let init = ls.drop_last();
        lemma_read_fields_strip_cr(init);
        assert(sl.drop_last() =~= Seq::new(init.len(), |i: int| strip_cr(init[i])));
        lemma_step_strip_cr(read_fields(init), ls.last());
    }
}

/// Lines that differ only in lines keyed `type` give the same fields but
/// the type.
proof fn lemma_read_fields_typed(a: Seq<Seq<char>>, b: Seq<Seq<char>>)
    requires
        a.len() == b.len(),
        forall|i: int|
            0 <= i < a.len() ==> a[i] == b[i] || (type_keyed(#[trigger] a[i]) && type_keyed(b[i])),
    ensures
        same_but_type(read_fields(a), read_fields(b)),
    decreases a.len(),
{
    if a.len() > 0 {
        lemma_read_fields_typed(a.drop_last(), b.drop_last());
        let f = read_fields(a.drop_last());
        let g = read_fields(b.drop_last());
        assert(a.last() == a[a.len() - 1]);
        assert(b.last() == b[b.len() - 1]);
        if a.last() != b.last() {
            lemma_step_type_keyed(f, g, a.last(), b.last());
        }
    }
}

/// A written type line is a type line.
proof fn lemma_type_line_is(ind: Seq<char>, t: Seq<char>)
    requires
        forall|j: int| 0 <= j < ind.len() ==> is_ws(#[trigger] ind[j]),
    ensures
        is_type_line(type_line(ind, t)),
        type_line(ind, t).len() > 0,
        type_line(ind, t)[0] != '-',
        indentation(type_line(ind, t)) == ind,
{
    let l = type_line(ind, t);
    let n = ind.len() as int;
    assert(l =~= ind + (type_key() + seq![' '] + t));
    assert forall|j: int| 0 <= j < n implies strips(Strip::Whitespace, #[trigger] l[j]) by {
        assert(l[j] == ind[j]);
    }
    assert(l[n] == 't');
    lemma_lead_len_exact(l, Strip::Whitespace, n);
    assert(l.skip(n).take(5) =~= type_key());
    assert(l.take(n) =~= ind);
    if n > 0 {
        assert(is_ws(l[0]));
    }
}

/// Lists that agree from their second element on find the same fences.
proof fn lemma_fence_from_agree(a: Seq<Seq<char>>, b: Seq<Seq<char>>, i: int)
    requires
        1 <= i,
        a.len() == b.len(),
        forall|j: int| 1 <= j < a.len() ==> #[trigger] a[j] == b[j],
    ensures
        fence_from(a, i) == fence_from(b, i),
    decreases a.len() - i,
{
    if i < a.len() {
        lemma_fence_from_agree(a, b, i + 1);
    }
}

/// The fields of a text: those of the lines between its fences, or none
/// without a closed frontmatter.
proof fn lemma_raw_fields(raw: Seq<char>)
    ensures
        closed_frontmatter(raw) ==> frontmatter_fields(raw) == read_fields(
            lines(raw).subrange(1, fence_from(lines(raw), 1).unwrap()),
        ),
        !closed_frontmatter(raw) ==> frontmatter_fields(raw) == no_fields(),
{
    let b = bom();
    let ls = lines(raw);
    if has_prefix(trim_start_by(raw, Strip::Char(b)), dashes()) {
        lemma_opening(raw);
        let n = lead_len(raw, Strip::Char(b)) as int;
        let q = raw.take(n + 3);
        assert(has_prefix(raw, q));
        lemma_drop_marks(raw, q, n);
        let lt = lines(raw.skip(n));
        lemma_fence_from_agree(lt, ls, 1);
        if closed_frontmatter(raw) {
            lemma_fence_from(ls, 1);
            let close = fence_from(ls, 1).unwrap();
            assert forall|j: int| 1 <= j < close implies !is_fence(
                #[trigger] lines(trim_start_by(raw, Strip::Char(b)))[j],
            ) by {
                assert(lt[j] == ls[j]);
            }
            lemma_fields_of_trimmed(raw, close);
            let sub = ls.subrange(1, close);
            lemma_read_fields_strip_cr(sub);
            assert(Seq::new((close - 1) as nat, |i: int| strip_cr(lt[i + 1])) =~= Seq::new(
                sub.len(),
                |i: int| strip_cr(sub[i]),
            ));
        } else {
            assert(lines(Seq::<char>::empty()) =~= Seq::<Seq<char>>::empty());
        }
    } else {
        assert(lines(Seq::<char>::empty()) =~= Seq::<Seq<char>>::empty());
    }
}

/// The lines of a retyped text, for a text with a closed frontmatter.
proof fn lemma_retyped_lines_joined(raw: Seq<char>, t: Seq<char>)
    requires
        free_of(t, '\n'),
        closed_frontmatter(raw),
    ensures
        ({
            let ls = lines(raw);
            let close = fence_from(ls, 1).unwrap();
            let ls2 = retyped_lines(ls, close, t);
            let out = retyped(raw, t);
            &&& lines(out).len() == ls2.len()
            &&& forall|j: int| 0 <= j < ls2.len() - 1 ==> #[trigger] lines(out)[j] == strip_cr(ls2[j])
            &&& (lines(out).last() == ls2.last() || lines(out).last() == strip_cr(ls2.last()))
            &&& has_prefix(out, ls[0])
            &&& ls2[0] == ls[0]
            &&& ls2.last() == ls.last()
            &&& forall|i: int| 0 <= i < ls2.len() ==> free_of(#[trigger] ls2[i], '\n')
        }),
{
    let ls = lines(raw);
    lemma_fence_from(ls, 1);
    let close = fence_from(ls, 1).unwrap();
    lemma_type_line_from(ls, 1, close);
    let ls2 = retyped_lines(ls, close, t);
    let ends = has_suffix(raw, seq!['\n']);
    lemma_has_suffix_char(raw, '\n');
    let out = retyped(raw, t);
    assert(out == if ends {
        join(ls2, seq!['\n']) + seq!['\n']
    } else {
        join(ls2, seq!['\n'])
    }) by {
        if ends {
            assert(join(ls2, seq!['\n']).push('\n') =~= join(ls2, seq!['\n']) + seq!['\n']);
        }
    }
    lemma_lines_free(raw);
    match type_line_from(ls, 1, close) {
        Some(j) => {
            let ind = indentation(ls[j]);
            lemma_lead_len(ls[j], Strip::Whitespace);
            let tl = type_line(ind, t);
            assert(tl =~= ind + (type_key() + seq![' '] + t));
            assert(free_of(ls[j], '\n'));
            assert forall|m: int| 0 <= m < tl.len() implies tl[m] != '\n' by {
                if m < ind.len() {
                    assert(tl[m] == ls[j][m]);
                } else if m >= ind.len() + 6 {
                    assert(tl[m] == t[m - ind.len() - 6]);
                }
            }
            assert(ls2 == ls.update(j, tl));
            assert forall|i: int| 0 <= i < ls2.len() implies free_of(#[trigger] ls2[i], '\n') by {
                if i != j {
                    assert(ls2[i] == ls[i]);
                }
            }
            assert(ls2.last() == ls2[ls2.len() - 1]);
        },
        None => {
            let tl = type_line(Seq::empty(), t);
            assert(tl =~= type_key() + seq![' '] + t);
            assert forall|m: int| 0 <= m < tl.len() implies tl[m] != '\n' by {
                if m >= 6 {
                    assert(tl[m] == t[m - 6]);
                }
            }
            assert(ls2 == ls.insert(close, tl));
            assert forall|i: int| 0 <= i < ls2.len() implies free_of(#[trigger] ls2[i], '\n') by {
                if i < close {
                    assert(ls2[i] == ls[i]);
                } else if i > close {
                    assert(ls2[i] == ls[i - 1]);
                }
            }
        },
    }
    if !ends {
        lemma_last_line_nonempty(raw);
    }
    lemma_lines_of_joined(ls2, ends, out);
}

/// Where the retyped frontmatter closes: after the inserted type line, or
/// where it closed before when a type line was rewritten.
pub open spec fn retyped_close(ls: Seq<Seq<char>>, close: int) -> int {
    if type_line_from(ls, 1, close) is Some {
        close
    } else {
        close + 1
    }
}

/// The fields of a retyped text with a closed frontmatter: those of the
/// rewritten lines between its fences.
proof fn lemma_out_fields(raw: Seq<char>, t: Seq<char>)
    requires
        free_of(t, '\n'),
        closed_frontmatter(raw),
    ensures
        ({
            let ls = lines(raw);
            let close = fence_from(ls, 1).unwrap();
            let ls2 = retyped_lines(ls, close, t);
            frontmatter_fields(retyped(raw, t)) == read_fields(
                ls2.subrange(1, retyped_close(ls, close)),
            )
        }),
{
    let ls = lines(raw);
    lemma_fence_from(ls, 1);
    let close = fence_from(ls, 1).unwrap();
    lemma_type_line_from(ls, 1, close);
    let ls2 = retyped_lines(ls, close, t);
    let k2 = retyped_close(ls, close);
    let out = retyped(raw, t);
    lemma_retyped_lines_joined(raw, t);
    let m = lines(out);
    // the marks and dashes that open `raw` open `out`
    lemma_opening(raw);
    let n = lead_len(raw, Strip::Char(bom())) as int;
    let q = raw.take(n + 3);
    assert(has_prefix(out, q)) by {
        assert(out.take(ls[0].len() as int) == ls[0]);
        assert(ls[0].take(q.len() as int) == q);
        assert(out.take(q.len() as int) =~= q);
    }
    lemma_drop_marks(out, q, n);
    let mt = lines(out.skip(n));
    // the fences of `out`
    lemma_dashes_fence();
    assert(ls2.len() >= close + 1);
    assert(k2 <= ls2.len() - 1);
    assert(ls2[k2] == ls[close]);
    assert forall|i: int| 1 <= i < k2 implies !is_fence(
        #[trigger] lines(trim_start_by(out, Strip::Char(bom())))[i],
    ) by {
        assert(mt[i] == m[i]);
        assert(m[i] == strip_cr(ls2[i]));
        lemma_fence_strip_cr(ls2[i]);
        match type_line_from(ls, 1, close) {
            Some(j) => {
                if i == j {
                    lemma_lead_len(ls[j], Strip::Whitespace);
                    lemma_type_line_is(indentation(ls[j]), t);
                    lemma_not_fence(ls2[i]);
                } else {
                    assert(ls2[i] == ls[i]);
                }
            },
            None => {
                if i == close {
                    lemma_type_line_is(Seq::empty(), t);
                    lemma_not_fence(ls2[i]);
                } else {
                    assert(ls2[i] == ls[i]);
                }
            },
        }
    }
    assert(is_fence(lines(trim_start_by(out, Strip::Char(bom())))[k2])) by {
        assert(mt[k2] == m[k2]);
        lemma_fence_strip_cr(ls[close]);
        if k2 < ls2.len() - 1 {
            assert(m[k2] == strip_cr(ls2[k2]));
        } else {
            assert(m.last() == m[k2]);
            assert(ls2.last() == ls2[k2]);
        }
    }
    lemma_fields_of_trimmed(out, k2);
    let sub = ls2.subrange(1, k2);
    let once = Seq::new(sub.len(), |i: int| strip_cr(sub[i]));
    lemma_read_fields_strip_cr(sub);
    lemma_read_fields_strip_cr(once);
    assert(Seq::new((k2 - 1) as nat, |i: int| strip_cr(mt[i + 1])) =~= Seq::new(
        once.len(),
        |i: int| strip_cr(once[i]),
    )) by {
        assert forall|i: int| 0 <= i < k2 - 1 implies mt[i + 1] == strip_cr(sub[i]) by {
            assert(mt[i + 1] == m[i + 1]);
        }
    }
}

/// Retyping changes the type alone: the name and the description read from
/// the frontmatter stay what they were.
pub proof fn law_retype_keeps_other_fields(raw: Seq<char>, t: Seq<char>)
    requires
        free_of(t, '\n'),
    ensures
        frontmatter_fields(retyped(raw, t)).name == frontmatter_fields(raw).name,
        frontmatter_fields(retyped(raw, t)).description == frontmatter_fields(raw).description,
{
    lemma_raw_fields(raw);
    let ls = lines(raw);
    if closed_frontmatter(raw) {
        lemma_fence_from(ls, 1);
        let close = fence_from(ls, 1).unwrap();
        lemma_type_line_from(ls, 1, close);
        lemma_out_fields(raw, t);
        let ls2 = retyped_lines(ls, close, t);
        let before = ls.subrange(1, close);
        match type_line_from(ls, 1, close) {
            Some(j) => {
                lemma_lead_len(ls[j], Strip::Whitespace);
                lemma_type_line_is(indentation(ls[j]), t);
                let after = ls2.subrange(1, close);
                assert forall|i: int| 0 <= i < before.len() implies before[i] == after[i] || (
                type_keyed(#[trigger] before[i]) && type_keyed(after[i])) by {
                    if i + 1 == j {
                        lemma_type_line_keyed(ls[j]);
                        lemma_type_line_keyed(ls2[j]);
                    }
                }
                lemma_read_fields_typed(before, after);
                assert(retyped_close(ls, close) == close);
                assert(same_but_type(frontmatter_fields(retyped(raw, t)), frontmatter_fields(raw)));
            },
            None => {
                let tl = type_line(Seq::empty(), t);
                lemma_type_line_is(Seq::empty(), t);
                lemma_type_line_keyed(tl);
                let after = ls2.subrange(1, close + 1);
                assert(after.drop_last() =~= before);
                assert(after.last() == tl);
                lemma_step_type_keyed(read_fields(before), read_fields(before), tl, tl);
                assert(retyped_close(ls, close) == close + 1);
                assert(read_fields(after) == step(read_fields(before), tl));
                assert(same_but_type(frontmatter_fields(retyped(raw, t)), frontmatter_fields(raw)));
            },
        }
    } else {
        let tl = type_line(Seq::empty(), t);
        let s = retyped(raw, t);
        assert(s == prepend_type(raw, t));
        let p1 = seq!['-', '-', '-', '\n'];
        let p2 = tl + seq!['\n'];
        let p3 = seq!['-', '-', '-', '\n'];
        let p4 = seq!['\n'];
        let a = p1 + (p2 + (p3 + p4));
        assert(s =~= a + raw);
        lemma_lines_concat(a, raw);
        lemma_lines_concat(p1, p2 + (p3 + p4));
        lemma_lines_concat(p2, p3 + p4);
        lemma_lines_concat(p3, p4);
        assert(p1 =~= dashes() + seq!['\n']);
        assert(p4 =~= Seq::<char>::empty() + seq!['\n']);
        lemma_lines_single(dashes());
        lemma_lines_single(Seq::<char>::empty());
        assert(tl =~= type_key() + seq![' '] + t);
        assert forall|m: int| 0 <= m < tl.len() implies tl[m] != '\n' by {
            if m >= 6 {
                assert(tl[m] == t[m - 6]);
            }
        }
        lemma_lines_single(tl);
        let ls_s = lines(s);
        assert(ls_s[0] == dashes());
        assert(ls_s[1] == strip_cr(tl));
        assert(ls_s[2] == dashes());
        lemma_dashes_fence();
        lemma_strip_cr_first(tl);
        lemma_not_fence(strip_cr(tl));
        assert(s.take(3) =~= dashes());
        lemma_fields_of(s, 2);
        let fl = Seq::new(1, |i: int| strip_cr(ls_s[i + 1]));
        assert(fl =~= seq![strip_cr(strip_cr(tl))]);
        assert(fl.drop_last() =~= Seq::<Seq<char>>::empty());
        lemma_step_strip_cr(no_fields(), strip_cr(tl));
        lemma_step_strip_cr(no_fields(), tl);
        lemma_type_line_is(Seq::empty(), t);
        lemma_type_line_keyed(tl);
        lemma_step_type_keyed(no_fields(), no_fields(), tl, tl);
        assert(fl.last() == strip_cr(strip_cr(tl)));
        assert(read_fields(fl.drop_last()) == no_fields());
        assert(read_fields(fl) == step(no_fields(), strip_cr(strip_cr(tl))));
        assert(same_but_type(frontmatter_fields(retyped(raw, t)), frontmatter_fields(raw)));
    }
}

/// The body of a text whose frontmatter, once byte-order marks are dropped,
/// closes at line `k`: the lines after it.
proof fn lemma_body_of_trimmed(s: Seq<char>, k: int)
    requires
        has_prefix(trim_start_by(s, Strip::Char(bom())), dashes()),
        1 <= k < lines(trim_start_by(s, Strip::Char(bom()))).len(),
        is_fence(lines(trim_start_by(s, Strip::Char(bom())))[k]),
        forall|j: int|
            1 <= j < k ==> !is_fence(#[trigger] lines(trim_start_by(s, Strip::Char(bom())))[j]),
    ensures
        ({
            let ls = lines(trim_start_by(s, Strip::Char(bom())));
            frontmatter_split(s).1 == unlines(ls.subrange(k + 1, ls.len() as int))
        }),
{
    lemma_fence_at(lines(trim_start_by(s, Strip::Char(bom()))), k, 1);
}

/// A line that does not end with a carriage return.
pub open spec fn no_cr_end(l: Seq<char>) -> bool {
    !(l.len() > 0 && l.last() == '\r')
}

/// Retyping a memory with a frontmatter leaves its body as it was, when no
/// line of the body ends with a carriage return (the rewrite joins lines
/// with bare line breaks).
pub proof fn law_retype_keeps_body(raw: Seq<char>, t: Seq<char>)
    requires
        free_of(t, '\n'),
        closed_frontmatter(raw),
        forall|i: int|
            fence_from(lines(raw), 1).unwrap() < i < lines(raw).len() ==> no_cr_end(
                #[trigger] lines(raw)[i],
            ),
    ensures
        memory_body(retyped(raw, t)) == memory_body(raw),
{
    let b = bom();
    let ls = lines(raw);
    lemma_fence_from(ls, 1);
    let close = fence_from(ls, 1).unwrap();
    lemma_type_line_from(ls, 1, close);
    let ls2 = retyped_lines(ls, close, t);
    let k2 = retyped_close(ls, close);
    let out = retyped(raw, t);
    lemma_retyped_lines_joined(raw, t);
    let m = lines(out);
    lemma_opening(raw);
    let n = lead_len(raw, Strip::Char(b)) as int;
    let q = raw.take(n + 3);
    // the body of `raw`
    assert(has_prefix(raw, q));
    lemma_drop_marks(raw, q, n);
    let lt = lines(raw.skip(n));
    assert forall|j: int| 1 <= j < close implies !is_fence(
        #[trigger] lines(trim_start_by(raw, Strip::Char(b)))[j],
    ) by {
        assert(lt[j] == ls[j]);
    }
    assert(lt[close] == ls[close]);
    lemma_body_of_trimmed(raw, close);
    // the body of `out`
    assert(has_prefix(out, q)) by {
        assert(out.take(ls[0].len() as int) == ls[0]);
        assert(ls[0].take(q.len() as int) == q);
        assert(out.take(q.len() as int) =~= q);
    }
    lemma_drop_marks(out, q, n);
    let mt = lines(out.skip(n));
    lemma_dashes_fence();
    assert(k2 <= ls2.len() - 1);
    assert forall|i: int| 1 <= i < k2 implies !is_fence(
        #[trigger] lines(trim_start_by(out, Strip::Char(b)))[i],
    ) by {
        assert(mt[i] == m[i]);
        assert(m[i] == strip_cr(ls2[i]));
        lemma_fence_strip_cr(ls2[i]);
        match type_line_from(ls, 1, close) {
            Some(j) => {
                if i == j {
                    lemma_lead_len(ls[j], Strip::Whitespace);
                    lemma_type_line_is(indentation(ls[j]), t);
                    lemma_not_fence(ls2[i]);
                } else {
                    assert(ls2[i] == ls[i]);
                }
            },
            None => {
                if i == close {
                    lemma_type_line_is(Seq::empty(), t);
                    lemma_not_fence(ls2[i]);
                } else {
                    assert(ls2[i] == ls[i]);
                }
            },
        }
    }
    assert(ls2[k2] == ls[close]);
    assert(is_fence(lines(trim_start_by(out, Strip::Char(b)))[k2])) by {
        assert(mt[k2] == m[k2]);
        lemma_fence_strip_cr(ls[close]);
        if k2 < ls2.len() - 1 {
            assert(m[k2] == strip_cr(ls2[k2]));
        } else {
            assert(m.last() == m[k2]);
            assert(ls2.last() == ls2[k2]);
        }
    }
    lemma_body_of_trimmed(out, k2);
    // the lines after the fences agree
    let after_raw = lt.subrange(close + 1, lt.len() as int);
    let after_out = mt.subrange(k2 + 1, mt.len() as int);
    assert(ls2.len() - k2 == ls.len() - close);
    assert forall|i: int| 0 <= i < after_raw.len() implies #[trigger] after_out[i]
        == after_raw[i] by {
        let r = close + 1 + i;
        let o = k2 + 1 + i;
        assert(after_raw[i] == ls[r]);
        assert(ls2[o] == ls[r]);
        assert(no_cr_end(ls[r]));
        assert(after_out[i] == m[o]);
        if o < ls2.len() - 1 {
            assert(m[o] == strip_cr(ls2[o]));
        } else {
            assert(m.last() == m[o]);
            assert(ls2.last() == ls2[o]);
        }
    }
    assert(after_out =~= after_raw);
}

/// The text of two runs of lines is the text of each, one after the other.
proof fn lemma_unlines_concat(a: Seq<Seq<char>>, b: Seq<Seq<char>>)
    ensures
        unlines(a + b) == unlines(a) + unlines(b),
    decreases b.len(),
{
    if b.len() == 0 {
        assert(a + b =~= a);
        assert(unlines(b) =~= Seq::<char>::empty());
        assert(unlines(a) + unlines(b) =~= unlines(a));
    } else {
        lemma_unlines_concat(a, b.drop_last());
        assert((a + b).drop_last() =~= a + b.drop_last());
        assert((a + b).last() == b.last());
        assert(unlines(a + b) =~= unlines(a) + unlines(b));
    }
}

/// Trimming does not see a leading whitespace character.
proof fn lemma_trim_front(c: char, x: Seq<char>)
    requires
        is_ws(c),
    ensures
        trim(seq![c] + x) == trim(x),
{
    let y = seq![c] + x;
    assert(y.drop_first() =~= x);
    assert(lead_len(y, Strip::Whitespace) == 1 + lead_len(x, Strip::Whitespace));
    lemma_lead_len(x, Strip::Whitespace);
    assert(trim_start_by(y, Strip::Whitespace) =~= trim_start_by(x, Strip::Whitespace));
}

/// Without carriage returns, the lines of a text, each with its line break,
/// give the text back up to a final line break.
proof fn lemma_unlines_lines(raw: Seq<char>)
    requires
        free_of(raw, '\r'),
    ensures
        trim(unlines(lines(raw))) == trim(raw),
{
    if raw.len() == 0 {
        assert(lines(raw) =~= Seq::<Seq<char>>::empty());
        assert(unlines(lines(raw)) =~= Seq::<char>::empty());
        assert(raw =~= Seq::<char>::empty());
    } else {
        lemma_split_on_len(raw, '\n');
        if raw.last() == '\n' {
            lemma_split_on_len(raw.drop_last(), '\n');
            assert(split_on(raw, '\n') == split_on(raw.drop_last(), '\n').push(Seq::empty()));
        }
        assert(lines(raw).len() > 0);
        lemma_lines_rejoin(raw);
        lemma_join_unlines(lines(raw));
        let j = join(lines(raw), seq!['\n']);
        if has_suffix(raw, seq!['\n']) {
            assert(unlines(lines(raw)) == raw);
        } else {
            let u = j + seq!['\n'];
            assert(u.drop_last() =~= raw);
            assert(is_ws('\n'));
            lemma_trim_drop(u);
        }
    }
}

/// Retyping a text without a closed frontmatter puts a frontmatter in
/// front of it and leaves its body as it was, when the text holds no
/// carriage return (the reader drops one before each line break).
pub proof fn law_retype_keeps_body_unfenced(raw: Seq<char>, t: Seq<char>)
    requires
        free_of(t, '\n'),
        free_of(raw, '\r'),
        !closed_frontmatter(raw),
    ensures
        memory_body(retyped(raw, t)) == memory_body(raw),
{
    let b = bom();
    // the body of `raw` is the whole text
    let ls = lines(raw);
    if has_prefix(trim_start_by(raw, Strip::Char(b)), dashes()) {
        lemma_opening(raw);
        let n = lead_len(raw, Strip::Char(b)) as int;
        let q = raw.take(n + 3);
        assert(has_prefix(raw, q));
        lemma_drop_marks(raw, q, n);
        lemma_fence_from_agree(lines(raw.skip(n)), ls, 1);
    }
    assert(frontmatter_split(raw).1 == raw);
    // the retyped text
    let tl = type_line(Seq::empty(), t);
    let out = retyped(raw, t);
    assert(out == prepend_type(raw, t));
    let p1 = seq!['-', '-', '-', '\n'];
    let p2 = tl + seq!['\n'];
    let p3 = seq!['-', '-', '-', '\n'];
    let p4 = seq!['\n'];
    let a = p1 + (p2 + (p3 + p4));
    assert(out =~= a + raw);
    lemma_lines_concat(a, raw);
    lemma_lines_concat(p1, p2 + (p3 + p4));
    lemma_lines_concat(p2, p3 + p4);
    lemma_lines_concat(p3, p4);
    assert(p1 =~= dashes() + seq!['\n']);
    assert(p4 =~= Seq::<char>::empty() + seq!['\n']);
    lemma_lines_single(dashes());
    lemma_lines_single(Seq::<char>::empty());
    assert(free_of(tl, '\n')) by {
        assert forall|i: int| 0 <= i < tl.len() implies tl[i] != '\n' by {
            if i >= 6 {
                assert(tl[i] == t[i - 6]);
            }
        }
    }
    lemma_lines_single(tl);
    let m = lines(out);
    assert(m =~= seq![dashes(), strip_cr(tl), dashes(), Seq::<char>::empty()] + ls);
    lemma_dashes_fence();
    assert(tl.len() >= 2 && tl[0] == 't');
    lemma_strip_cr_first(tl);
    lemma_not_fence(strip_cr(tl));
    // no byte-order mark in front of the retyped text
    assert(out[0] == '-');
    lemma_lead_len_exact(out, Strip::Char(b), 0);
    assert(out.skip(0) =~= out);
    assert(out.take(3) =~= dashes());
    lemma_body_of_trimmed(out, 2);
    let after = m.subrange(3, m.len() as int);
    assert(after =~= seq![Seq::<char>::empty()] + ls);
    lemma_unlines_concat(seq![Seq::<char>::empty()], ls);
    let e = seq![Seq::<char>::empty()];
    assert(e.drop_last() =~= Seq::<Seq<char>>::empty());
    assert(unlines(e.drop_last()) =~= Seq::<char>::empty());
    assert(e.last() =~= Seq::<char>::empty());
    assert(unlines(e) =~= seq!['\n']);
    lemma_trim_front('\n', unlines(ls));
    lemma_unlines_lines(raw);
}

/// Retyping a memory sets the type that is read back and keeps its name,
/// description and body, whatever the shape of its frontmatter (none, one
/// without a type line, or one whose type line the reader takes), when the
/// text holds no carriage return and the type is a plain value.
pub proof fn law_retype_reads_back(raw: Seq<char>, t: Seq<char>)
    requires
        plain_value(t),
        free_of(raw, '\r'),
        closed_frontmatter(raw) ==> rewritable_type(raw) || untyped_frontmatter(raw),
    ensures
        memory_type(retyped(raw, t)) == t,
        frontmatter_fields(retyped(raw, t)).name == frontmatter_fields(raw).name,
        frontmatter_fields(retyped(raw, t)).description == frontmatter_fields(raw).description,
        memory_body(retyped(raw, t)) == memory_body(raw),
{
    law_retype_keeps_other_fields(raw, t);
    if closed_frontmatter(raw) {
        if rewritable_type(raw) {
            law_retype_rewritten(raw, t);
        } else {
            law_retype_inserted(raw, t);
        }
        lemma_lines_rejoin(raw);
        let ls = lines(raw);
        lemma_fence_from(ls, 1);
        assert forall|i: int|
            fence_from(ls, 1).unwrap() < i < ls.len() implies no_cr_end(#[trigger] ls[i]) by {
            assert(free_of(ls[i], '\r'));
            if ls[i].len() > 0 {
                assert(ls[i][ls[i].len() - 1] != '\r');
            }
        }
        law_retype_keeps_body(raw, t);
    } else {
        law_retype_prepended(raw, t);
        law_retype_keeps_body_unfenced(raw, t);
    }
}

// ------------------------------------------------------------------
// Narrowing the filter
// ------------------------------------------------------------------

/// A field that holds a query holds every prefix of it.
proof fn lemma_contains_shorter(x: Seq<char>, q1: Seq<char>, q2: Seq<char>)
    requires
        has_prefix(q2, q1),
        contains(x, q2),
    ensures
        contains(x, q1),
{
    let i = choose|i: int| matches_at(x, q2, i);
    assert(x.subrange(i, i + q1.len()) =~= q2.take(q1.len() as int));
    assert(matches_at(x, q1, i));
}

/// Filtering by a query that implies another is filtering by the other
/// first.
proof fn lemma_matching_twice(idxs: Seq<usize>, mems: Seq<Memory>, q1: Seq<char>, q2: Seq<char>)
    requires
        has_prefix(q2, q1),
    ensures
        matching(matching(idxs, mems, q1), mems, q2) == matching(idxs, mems, q2),
    decreases idxs.len(),
{
    if idxs.len() > 0 {
        let init = idxs.drop_last();
        let l = idxs.last();
        lemma_matching_twice(init, mems, q1, q2);
        let r1 = matching(init, mems, q1);
        let m = mems[l as int];
        if memory_matches(m, q2) {
            if field_matches(m.name@, q2) {
                lemma_contains_shorter(lower(m.name@), q1, q2);
            } else if field_matches(m.description@, q2) {
                lemma_contains_shorter(lower(m.description@), q1, q2);
            } else if field_matches(m.slug@, q2) {
                lemma_contains_shorter(lower(m.slug@), q1, q2);
            } else if field_matches(m.mtype@, q2) {
                lemma_contains_shorter(lower(m.mtype@), q1, q2);
            } else {
                lemma_contains_shorter(lower(m.body@), q1, q2);
            }
            assert(memory_matches(m, q1));
        }
        if memory_matches(m, q1) {
            assert(r1.push(l).drop_last() =~= r1);
            assert(r1.push(l).last() == l);
        }
    }
}

/// Typing more filter text never adds a match: with ASCII filter text, the
/// memories shown under the longer filter are those shown under the shorter
/// one, filtered again (so they keep their order and are among them).
pub proof fn law_filter_narrows(a: App, b: App)
    requires
        b.library == a.library,
        b.selected_project == a.selected_project,
        has_prefix(b.filter@, a.filter@),
        all_ascii(b.filter@),
    ensures
        b.filter@.len() > 0 ==> b.visible() == matching(
            a.visible(),
            a.library.memories@,
            lower(b.filter@),
        ),
        b.filter@.len() == 0 ==> b.visible() == a.visible(),
{
    let f1 = a.filter@;
    let f2 = b.filter@;
    if f2.len() > 0 && f1.len() > 0 {
        assert(f2.take(f1.len() as int) == f1);
        assert forall|i: int| 0 <= i < f1.len() implies (#[trigger] f1[i] as u32) < 128 by {
            assert(f1[i] == f2[i]);
        }
        let q1 = lower(f1);
        let q2 = lower(f2);
        assert(q2.take(q1.len() as int) =~= q1);
        let mems = a.library.memories@;
        let base = if a.selected_project == 0 {
            non_index_upto(mems, mems.len())
        } else {
            a.library.projects@[a.selected_project - 1].memory_idx@
        };
        lemma_matching_twice(base, mems, q1, q2);
    } else if f2.len() == 0 {
        assert(f1.len() == 0);
    }
}

// ------------------------------------------------------------------
// Slugs of ASCII text
// ------------------------------------------------------------------

proof fn lemma_split_lower(s: Seq<char>)
    requires
        forall|i: int| 0 <= i < s.len() ==> no_capital(#[trigger] s[i]),
    ensures
        forall|k: int, j: int|
            0 <= k < split_on(s, '-').len() && 0 <= j < split_on(s, '-')[k].len() ==> no_capital(
                #[trigger] split_on(s, '-')[k][j],
            ),
    decreases s.len(),
{
    lemma_split_on_len(s, '-');
    if s.len() > 0 {
        let init = s.drop_last();
        assert forall|i: int| 0 <= i < init.len() implies no_capital(#[trigger] init[i]) by {
            assert(init[i] == s[i]);
        }
        lemma_split_lower(init);
        lemma_split_on_len(init, '-');
        let p = split_on(init, '-');
        assert forall|k: int, j: int|
            0 <= k < split_on(s, '-').len() && 0 <= j < split_on(s, '-')[k].len() implies no_capital(
            #[trigger] split_on(s, '-')[k][j],
        ) by {
            if s.last() == '-' {
                if k < p.len() {
                    assert(split_on(s, '-')[k] == p[k]);
                }
            } else if k == p.len() - 1 {
                let l = p.last().push(s.last());
                assert(split_on(s, '-')[k] == l);
                if j < l.len() - 1 {
                    assert(l[j] == p[k][j]);
                } else {
                    assert(l[j] == s[s.len() - 1]);
                }
            } else {
                assert(split_on(s, '-')[k] == p[k]);
            }
        }
    }
}

proof fn lemma_join_lower(ps: Seq<Seq<char>>)
    requires
        forall|k: int, j: int|
            0 <= k < ps.len() && 0 <= j < ps[k].len() ==> no_capital(#[trigger] ps[k][j]),
    ensures
        forall|i: int|
            0 <= i < join(ps, seq!['-']).len() ==> no_capital(#[trigger] join(ps, seq!['-'])[i]),
    decreases ps.len(),
{
    if ps.len() == 1 {
        assert forall|i: int| 0 <= i < join(ps, seq!['-']).len() implies no_capital(
            #[trigger] join(ps, seq!['-'])[i],
        ) by {
            assert(join(ps, seq!['-'])[i] == ps[0][i]);
        }
    } else if ps.len() > 1 {
        let init = ps.drop_last();
        assert forall|k: int, j: int| 0 <= k < init.len() && 0 <= j < init[k].len() implies no_capital(
            #[trigger] init[k][j],
        ) by {
            assert(init[k] == ps[k]);
        }
        lemma_join_lower(init);
        let a = join(init, seq!['-']);
        let jn = join(ps, seq!['-']);
        assert(jn == a + seq!['-'] + ps.last());
        assert forall|i: int| 0 <= i < jn.len() implies no_capital(#[trigger] jn[i]) by {
            if i < a.len() {
                assert(jn[i] == a[i]);
            } else if i > a.len() {
                assert(jn[i] == ps[ps.len() - 1][i - a.len() - 1]);
            }
        }
    }
}

/// The slug of a text without capitals is lower-case kebab-case, and making
/// a slug of it again changes nothing.
pub(crate) proof fn lemma_slug_settled(x: Seq<char>)
    requires
        forall|i: int| 0 <= i < x.len() ==> no_capital(#[trigger] x[i]),
    ensures
        is_kebab(slug_of_lowercase(x)),
        forall|i: int|
            0 <= i < slug_of_lowercase(x).len() ==> no_capital(#[trigger] slug_of_lowercase(x)[i]),
        sanitized(slug_of_lowercase(x)) == slug_of_lowercase(x),
{
    let m = slug_chars(x);
    assert forall|i: int| 0 <= i < m.len() implies no_capital(#[trigger] m[i]) by {
        assert(no_capital(x[i]));
    }
    lemma_split_lower(m);
    let ps = nonempty(split_on(m, '-'));
    lemma_nonempty(split_on(m, '-'));
    assert forall|k: int, j: int| 0 <= k < ps.len() && 0 <= j < ps[k].len() implies no_capital(
        #[trigger] ps[k][j],
    ) by {
        let i = choose|i: int| 0 <= i < split_on(m, '-').len() && split_on(m, '-')[i] == ps[k];
        assert(no_capital(split_on(m, '-')[i][j]));
    }
    lemma_join_lower(ps);
    let r = slug_of_lowercase(x);
    lemma_slug_kebab(x);
    // the slug is its own trimmed, lower-cased text
    if r.len() > 0 {
        assert(!is_ws(r[0]));
        assert(!is_ws(r.last()));
    }
    lemma_lead_len_exact(r, Strip::Whitespace, 0);
    lemma_trail_len_exact(r, Strip::Whitespace, 0);
    assert(r.skip(0) =~= r);
    assert(r.take(r.len() as int) =~= r);
    assert(trim(r) == r);
    assert forall|i: int| 0 <= i < r.len() implies (#[trigger] r[i] as u32) < 128 by {
        assert(is_ascii_alnum(r[i]) || r[i] == '-');
    }
    assert(lower(r) =~= r);
    law_slug_of_kebab(r);
}

/// The slug of ASCII text is lower-case kebab-case, and making a slug of it
/// again changes nothing.
pub proof fn law_slug_of_ascii(input: Seq<char>)
    requires
        all_ascii(input),
    ensures
        is_kebab(sanitized(input)),
        forall|i: int| 0 <= i < sanitized(input).len() ==> no_capital(#[trigger] sanitized(input)[i]),
        sanitized(sanitized(input)) == sanitized(input),
{
    let t = trim(input);
    lemma_lead_len(input, Strip::Whitespace);
    let st = trim_start_by(input, Strip::Whitespace);
    lemma_trail_len(st, Strip::Whitespace);
    assert forall|i: int| 0 <= i < t.len() implies (#[trigger] t[i] as u32) < 128 by {
        assert(t[i] == input[i + lead_len(input, Strip::Whitespace)]);
    }
    let x = lower(t);
    assert forall|i: int| 0 <= i < x.len() implies no_capital(#[trigger] x[i]) by {
        assert(x[i] == ascii_lower(t[i]));
    }
    lemma_slug_settled(x);
}

// ------------------------------------------------------------------
// A new memory, read back
// ------------------------------------------------------------------

/// `<key>: <val>` is read as that key and value.
proof fn lemma_field_line(key: Seq<char>, val: Seq<char>)
    requires
        key.len() > 0,
        free_of(key, ':'),
        !is_ws(key[0]),
        !is_ws(key.last()),
        plain_value(val),
    ensures
        key_value(key + seq![':', ' '] + val) == Some((key, val)),
{
    let l = key + seq![':', ' '] + val;
    let n = key.len() as int;
    assert(l[0] == key[0]);
    lemma_lead_len_exact(l, Strip::Whitespace, 0);
    assert(l.skip(0) =~= l);
    assert(l.last() == val.last());
    lemma_trail_len_exact(l, Strip::Whitespace, 0);
    assert(l.take(l.len() as int) =~= l);
    assert forall|m: int| 0 <= m < n implies l[m] != ':' by {
        assert(l[m] == key[m]);
    }
    assert(l[n] == ':');
    lemma_find_char_is(l, ':', n);
    assert(l.take(n) =~= key);
    assert(l.skip(n + 1) =~= seq![' '] + val);
    lemma_lead_len_exact(key, Strip::Whitespace, 0);
    lemma_trail_len_exact(key, Strip::Whitespace, 0);
    assert(key.skip(0) =~= key);
    assert(key.take(key.len() as int) =~= key);
    lemma_plain_clean(val);
}

/// `<key>: ` is read as that key with an empty value.
proof fn lemma_empty_field_line(key: Seq<char>)
    requires
        key.len() > 0,
        free_of(key, ':'),
        !is_ws(key[0]),
        !is_ws(key.last()),
    ensures
        key_value(key + seq![':', ' ']) == Some((key, Seq::<char>::empty())),
{
    let l = key + seq![':', ' '];
    let n = key.len() as int;
    let x = key + seq![':'];
    assert(l[0] == key[0]);
    lemma_lead_len_exact(l, Strip::Whitespace, 0);
    assert(l.skip(0) =~= l);
    assert(is_ws(' '));
    lemma_trail_len_exact(l, Strip::Whitespace, 1);
    assert(trim(l) =~= x);
    assert forall|m: int| 0 <= m < n implies x[m] != ':' by {
        assert(x[m] == key[m]);
    }
    lemma_find_char_is(x, ':', n);
    assert(x.take(n) =~= key);
    let v = x.skip(n + 1);
    assert(v =~= Seq::<char>::empty());
    lemma_lead_len_exact(key, Strip::Whitespace, 0);
    lemma_trail_len_exact(key, Strip::Whitespace, 0);
    assert(key.skip(0) =~= key);
    assert(key.take(key.len() as int) =~= key);
    lemma_lead_len_exact(v, Strip::Whitespace, 0);
    lemma_lead_len_exact(v, Strip::Char('"'), 0);
    lemma_lead_len_exact(v, Strip::Char('\''), 0);
}

/// A new memory reads back with its slug as name, an empty description,
/// the type `project` and an empty body, for a non-empty kebab-case slug
/// (what `sanitize_slug` gives).
pub proof fn law_new_memory_reads_back(slug: Seq<char>)
    requires
        slug.len() > 0,
        is_kebab(slug),
    ensures
        frontmatter_fields(memory_template(slug)).name == slug,
        memory_name(memory_template(slug), slug) == slug,
        frontmatter_fields(memory_template(slug)).description.len() == 0,
        memory_type(memory_template(slug)) == "project"@,
        memory_body(memory_template(slug)).len() == 0,
{
    let s0 = memory_template(slug);
    lemma_split_on_len(slug, '-');
    assert(split_on(slug, '-')[0].len() > 0);
    assert(slug[0] != '-' && slug.last() != '-') by {
        lemma_join_split(slug, '-');
        assert(split_on(slug, '-')[0].len() > 0);
        let ps = split_on(slug, '-');
        lemma_split_pieces_free(slug, '-');
        lemma_join_prefix(ps, seq!['-']);
        assert(slug[0] == ps[0][0]);
        assert(ps.last().len() > 0);
        assert(ps.last() == ps[ps.len() - 1]);
        lemma_join_last(ps, seq!['-']);
        assert(free_of(ps[ps.len() - 1], '-'));
    }
    assert(plain_value(slug)) by {
        assert(is_ascii_alnum(slug[0]));
        assert(is_ascii_alnum(slug.last()));
        assert forall|i: int| 0 <= i < slug.len() implies slug[i] != '\n' by {
            assert(is_ascii_alnum(slug[i]) || slug[i] == '-');
        }
    }
    assert(free_of(slug, '\n'));
    lemma_template_lines(slug);
    let ls = lines(s0);
    let name_key = seq!['n', 'a', 'm', 'e'];
    let q1 = name_key + seq![':', ' '] + slug;
    assert(seq!['n', 'a', 'm', 'e', ':', ' '] + slug =~= q1);
    assert(q1.last() == slug.last());
    assert(is_ws('\r'));
    assert(ls[1] == q1);
    lemma_dashes_fence();
    lemma_not_fence(ls[1]);
    lemma_not_fence(ls[2]);
    lemma_not_fence(ls[3]);
    lemma_not_fence(ls[4]);
    lemma_fields_of(s0, 5);
    let fl = Seq::new(4, |i: int| strip_cr(ls[i + 1]));
    assert(fl[0] == q1);
    let desc_key = seq!['d', 'e', 's', 'c', 'r', 'i', 'p', 't', 'i', 'o', 'n'];
    assert(fl[1] == desc_key + seq![':', ' ']);
    assert(fl[2] == metadata_line());
    let project = seq!['p', 'r', 'o', 'j', 'e', 'c', 't'];
    let ind = seq![' ', ' '];
    assert(fl[3] == type_line(ind, project));
    lemma_field_line(name_key, slug);
    lemma_empty_field_line(desc_key);
    reveal_strlit("type");
    reveal_strlit("metadata");
    reveal_strlit("name");
    reveal_strlit("description");
    reveal_strlit("project");
    assert("name"@ =~= name_key);
    assert("description"@ =~= desc_key);
    let f0 = step(no_fields(), fl[0]);
    assert(f0.name == slug);
    let f1 = step(f0, fl[1]);
    assert(f1.name == slug && f1.description.len() == 0);
    let f2 = step(f1, fl[2]);
    lemma_step_metadata(f1);
    assert(f2.name == slug && f2.description.len() == 0);
    assert forall|j: int| 0 <= j < ind.len() implies is_ws(#[trigger] ind[j]) by {}
    lemma_step_type(f2, ind, project);
    assert(fl.take(1).drop_last() =~= Seq::<Seq<char>>::empty());
    assert(fl.take(2).drop_last() =~= fl.take(1));
    assert(fl.take(3).drop_last() =~= fl.take(2));
    assert(fl.drop_last() =~= fl.take(3));
    assert(fl.take(1).last() == fl[0]);
    assert(read_fields(fl.take(1).drop_last()) == no_fields());
    assert(read_fields(fl.take(1)) == f0);
    assert(fl.take(2).last() == fl[1]);
    assert(fl.take(3).last() == fl[2]);
    assert(read_fields(fl.take(2)) == f1);
    assert(read_fields(fl.take(3)) == f2);
    assert(read_fields(fl) == step(f2, fl[3]));
    assert("project"@ =~= project);
    // the body
    lemma_lead_len_exact(s0, Strip::Char(bom()), 0);
    assert(s0.skip(0) =~= s0);
    lemma_body_of_trimmed(s0, 5);
    let after = ls.subrange(6, 7);
    assert(after =~= seq![Seq::<char>::empty()]);
    assert(after.drop_last() =~= Seq::<Seq<char>>::empty());
    assert(unlines(after.drop_last()) =~= Seq::<char>::empty());
    assert(after.last() =~= Seq::<char>::empty());
    assert(unlines(after) == unlines(after.drop_last()) + after.last() + seq!['\n']);
    assert(unlines(after) =~= seq!['\n']);
    lemma_lead_len_exact(seq!['\n'], Strip::Whitespace, 1);
    lemma_trail_len(seq!['\n'].skip(1), Strip::Whitespace);
}

// ------------------------------------------------------------------
// Rewriting an existing type line
// ------------------------------------------------------------------

/// The frontmatter of `raw` has a type line that the reader takes for the
/// type: its first type line is the last line keyed `type`, and it stands at
/// top level or inside `metadata:`.
pub open spec fn rewritable_type(raw: Seq<char>) -> bool {
    let ls = lines(raw);
    let close = fence_from(ls, 1).unwrap();
    &&& closed_frontmatter(raw)
    &&& type_line_from(ls, 1, close) matches Some(j) && {
        &&& forall|m: int| j < m < close ==> !type_keyed(#[trigger] ls[m])
        &&& (!is_indented(ls[j]) || read_fields(ls.subrange(1, j)).in_metadata)
    }
}

/// A line not keyed `type` leaves the type alone.
proof fn lemma_step_keeps_type(f: Fields, l: Seq<char>)
    requires
        !type_keyed(l),
    ensures
        step(f, l).mtype == f.mtype,
{
    reveal_strlit("type");
    assert("type"@ =~= seq!['t', 'y', 'p', 'e']);
}

/// Lines after position `n` that are not keyed `type` leave the type alone.
proof fn lemma_tail_keeps_type(a: Seq<Seq<char>>, n: int)
    requires
        0 <= n <= a.len(),
        forall|m: int| n <= m < a.len() ==> !type_keyed(#[trigger] a[m]),
    ensures
        read_fields(a).mtype == read_fields(a.take(n)).mtype,
    decreases a.len(),
{
    if a.len() == n {
        assert(a.take(n) =~= a);
    } else {
        let init = a.drop_last();
        assert forall|m: int| n <= m < init.len() implies !type_keyed(#[trigger] init[m]) by {
            assert(init[m] == a[m]);
        }
        lemma_tail_keeps_type(init, n);
        assert(init.take(n) =~= a.take(n));
        assert(a.last() == a[a.len() - 1]);
        lemma_step_keeps_type(read_fields(init), a.last());
    }
}

/// A type line that the reader takes sets the type.
proof fn lemma_step_type_taken(f: Fields, ind: Seq<char>, t: Seq<char>)
    requires
        plain_value(t),
        forall|j: int| 0 <= j < ind.len() ==> is_ws(#[trigger] ind[j]),
        !is_indented(type_line(ind, t)) || f.in_metadata,
    ensures
        step(f, type_line(ind, t)).mtype == t,
{
    lemma_type_line_key_value(ind, t);
    reveal_strlit("type");
    reveal_strlit("metadata");
    reveal_strlit("name");
    reveal_strlit("description");
    assert("type"@ =~= seq!['t', 'y', 'p', 'e']);
    assert("name"@[0] != 't');
}

/// Retyping a memory whose type line the reader takes rewrites that line,
/// and reading it back gives the new type.
pub proof fn law_retype_rewritten(raw: Seq<char>, t: Seq<char>)
    requires
        plain_value(t),
        rewritable_type(raw),
    ensures
        memory_type(retyped(raw, t)) == t,
{
    let ls = lines(raw);
    lemma_fence_from(ls, 1);
    let close = fence_from(ls, 1).unwrap();
    lemma_type_line_from(ls, 1, close);
    let j = type_line_from(ls, 1, close).unwrap();
    lemma_out_fields(raw, t);
    let ind = indentation(ls[j]);
    lemma_lead_len(ls[j], Strip::Whitespace);
    let tl = type_line(ind, t);
    let ls2 = ls.update(j, tl);
    assert(retyped_lines(ls, close, t) == ls2);
    assert(retyped_close(ls, close) == close);
    let sub2 = ls2.subrange(1, close);
    // the rewritten line keeps the original's first character
    assert(tl =~= ind + (type_key() + seq![' '] + t));
    lemma_type_line_is(ind, t);
    assert(is_indented(tl) == is_indented(ls[j])) by {
        let x = trim_start_by(ls[j], Strip::Whitespace);
        assert(x.take(5) == type_key());
        if ind.len() > 0 {
            assert(tl[0] == ind[0]);
            assert(ind[0] == ls[j][0]);
        } else {
            assert(ls[j].skip(0) =~= ls[j]);
            assert(ls[j][0] == x.take(5)[0]);
        }
    }
    let pre = sub2.take(j - 1);
    assert(pre =~= ls.subrange(1, j));
    assert(sub2.take(j).drop_last() =~= pre);
    assert(sub2.take(j).last() == tl);
    lemma_step_type_taken(read_fields(pre), ind, t);
    assert(read_fields(sub2.take(j)).mtype == t);
    assert forall|m: int| j <= m < sub2.len() implies !type_keyed(#[trigger] sub2[m]) by {
        assert(sub2[m] == ls[m + 1]);
    }
    lemma_tail_keeps_type(sub2, j);
}

// ------------------------------------------------------------------
// Timestamps
// ------------------------------------------------------------------

/// An ASCII digit.
pub open spec fn is_digit(c: char) -> bool {
    '0' <= c && c <= '9'
}

proof fn lemma_decimal_digits(n: nat)
    ensures
        decimal(n).len() >= 1,
        forall|i: int| 0 <= i < decimal(n).len() ==> is_digit(#[trigger] decimal(n)[i]),
    decreases n,
{
    if n >= 10 {
        lemma_decimal_digits(n / 10);
        let d = decimal(n / 10);
        assert forall|i: int| 0 <= i < decimal(n).len() implies is_digit(#[trigger] decimal(n)[i]) by {
            if i < d.len() {
                assert(decimal(n)[i] == d[i]);
            }
        }
    }
}

proof fn lemma_decimal_len(n: nat)
    ensures
        n < 10 ==> decimal(n).len() == 1,
        n < 100 ==> decimal(n).len() <= 2,
        n < 1000 ==> decimal(n).len() <= 3,
        n < 10000 ==> decimal(n).len() <= 4,
    decreases n,
{
    if n >= 10 {
        lemma_decimal_len(n / 10);
    }
}

/// A zero-padded number of at most `w` digits: `w` digits.
proof fn lemma_padded(n: nat, w: nat)
    requires
        decimal(n).len() <= w,
    ensures
        zero_pad(decimal(n), w).len() == w,
        forall|i: int| 0 <= i < w ==> is_digit(#[trigger] zero_pad(decimal(n), w)[i]),
{
    lemma_decimal_digits(n);
    let z = zero_pad(decimal(n), w);
    assert forall|i: int| 0 <= i < w implies is_digit(#[trigger] z[i]) by {
        if decimal(n).len() < w {
            let k = w - decimal(n).len();
            if i >= k {
                assert(z[i] == decimal(n)[i - k]);
            }
        }
    }
}

/// Before the year 10000, a timestamp is `YYYY-MM-DD HH:MM`: sixteen
/// characters, digits but for the separators at fixed places.
pub proof fn law_timestamp_shape(secs: int)
    requires
        0 <= secs < 253_402_300_800,
    ensures
        timestamp_text(secs).len() == 16,
        timestamp_text(secs)[4] == '-' && timestamp_text(secs)[7] == '-',
        timestamp_text(secs)[10] == ' ' && timestamp_text(secs)[13] == ':',
        forall|i: int|
            0 <= i < 16 && i != 4 && i != 7 && i != 10 && i != 13 ==> is_digit(
                #[trigger] timestamp_text(secs)[i],
            ),
{
    let days = secs / 86400;
    lemma_civil_from_days(days);
    let w = civil_from_days(days);
    let t = civil_date(days);
    assert(is_civil_date(days, t.0, t.1, t.2));
    // the year has at most four digits
    if t.0 >= 10000 {
        lemma_days_before_year(10000);
        assert(leaps(9999) == 2424);
        assert(leaps(1969) == 477);
        lemma_days_before_year_mono(10000, t.0);
        lemma_days_before_month_mono(t.0, 1, t.1);
        assert(false);
    }
    let h = (secs % 86400) / 3600;
    let mi = (secs % 86400) % 3600 / 60;
    lemma_decimal_len(t.0 as nat);
    lemma_decimal_len(t.1 as nat);
    lemma_decimal_len(t.2 as nat);
    lemma_decimal_len(h as nat);
    lemma_decimal_len(mi as nat);
    lemma_padded(t.0 as nat, 4);
    lemma_padded(t.1 as nat, 2);
    lemma_padded(t.2 as nat, 2);
    lemma_padded(h as nat, 2);
    lemma_padded(mi as nat, 2);
    let ys = zero_pad(decimal(t.0 as nat), 4);
    let ms = zero_pad(decimal(t.1 as nat), 2);
    let ds = zero_pad(decimal(t.2 as nat), 2);
    let hs = zero_pad(decimal(h as nat), 2);
    let mns = zero_pad(decimal(mi as nat), 2);
    let s = timestamp_text(secs);
    assert(s =~= ys + seq!['-'] + ms + seq!['-'] + ds + seq![' '] + hs + seq![':'] + mns);
    assert forall|i: int| 0 <= i < 16 && i != 4 && i != 7 && i != 10 && i != 13 implies is_digit(
        #[trigger] s[i],
    ) by {
        if i < 4 {
            assert(s[i] == ys[i]);
        } else if i < 7 {
            assert(s[i] == ms[i - 5]);
        } else if i < 10 {
            assert(s[i] == ds[i - 8]);
        } else if i < 13 {
            assert(s[i] == hs[i - 11]);
        } else {
            assert(s[i] == mns[i - 14]);
        }
    }
}

/// A timestamp shows whole minutes: the seconds within the minute do not
/// change it.
pub proof fn law_timestamp_minutes(secs: int)
    requires
        secs >= 0,
    ensures
        timestamp_text(secs) == timestamp_text(secs - secs % 60),
{
    let s2 = secs - secs % 60;
    assert(s2 / 86400 == secs / 86400 && (s2 % 86400) / 3600 == (secs % 86400) / 3600 && (s2
        % 86400) % 3600 / 60 == (secs % 86400) % 3600 / 60) by (nonlinear_arith)
        requires
            secs >= 0,
            s2 == secs - secs % 60,
    ;
}

// ------------------------------------------------------------------
// Retyping twice
// ------------------------------------------------------------------

proof fn lemma_split_keeps_free(s: Seq<char>, c: char, d: char)
    requires
        free_of(s, d),
    ensures
        forall|k: int| 0 <= k < split_on(s, c).len() ==> free_of(#[trigger] split_on(s, c)[k], d),
    decreases s.len(),
{
    lemma_split_on_len(s, c);
    if s.len() > 0 {
        let init = s.drop_last();
        assert(free_of(init, d)) by {
            assert forall|i: int| 0 <= i < init.len() implies init[i] != d by {
                assert(init[i] == s[i]);
            }
        }
        lemma_split_keeps_free(init, c, d);
        lemma_split_on_len(init, c);
        let p = split_on(init, c);
        assert forall|k: int| 0 <= k < split_on(s, c).len() implies free_of(
            #[trigger] split_on(s, c)[k],
            d,
        ) by {
            if s.last() == c {
                if k < p.len() {
                    assert(split_on(s, c)[k] == p[k]);
                }
            } else if k == p.len() - 1 {
                let l = p.last().push(s.last());
                assert(split_on(s, c)[k] == l);
                assert forall|j: int| 0 <= j < l.len() implies l[j] != d by {
                    if j < l.len() - 1 {
                        assert(l[j] == p[k][j]);
                    } else {
                        assert(l[j] == s[s.len() - 1]);
                    }
                }
            } else {
                assert(split_on(s, c)[k] == p[k]);
            }
        }
    }
}

/// Without carriage returns, a text is its lines joined, with its final
/// line break when it had one.
proof fn lemma_lines_rejoin(s: Seq<char>)
    requires
        free_of(s, '\r'),
    ensures
        forall|i: int| 0 <= i < lines(s).len() ==> free_of(#[trigger] lines(s)[i], '\r'),
        s == if has_suffix(s, seq!['\n']) {
            join(lines(s), seq!['\n']) + seq!['\n']
        } else {
            join(lines(s), seq!['\n'])
        },
{
    lemma_has_suffix_char(s, '\n');
    lemma_split_on_len(s, '\n');
    lemma_split_keeps_free(s, '\n', '\r');
    lemma_join_split(s, '\n');
    let p = split_on(s, '\n');
    if s.len() > 0 {
        assert forall|i: int| 0 <= i < p.len() implies strip_cr(#[trigger] p[i]) == p[i] by {
            assert(free_of(p[i], '\r'));
            if p[i].len() > 0 {
                assert(p[i][p[i].len() - 1] != '\r');
            }
        }
        if s.last() == '\n' {
            lemma_split_on_len(s.drop_last(), '\n');
            assert(p == split_on(s.drop_last(), '\n').push(Seq::empty()));
            assert(lines(s) =~= p.drop_last());
            assert(join(p, seq!['\n']) == join(p.drop_last(), seq!['\n']) + seq!['\n'] + p.last());
            assert(p.last() =~= Seq::<char>::empty());
            assert(join(p, seq!['\n']) =~= join(p.drop_last(), seq!['\n']) + seq!['\n']);
        } else {
            assert(lines(s) =~= p);
        }
    } else {
        assert(lines(s) =~= Seq::<Seq<char>>::empty());
        assert(s =~= Seq::<char>::empty());
    }
}

/// Joining two non-empty lists of pieces.
proof fn lemma_join_concat(a: Seq<Seq<char>>, b: Seq<Seq<char>>, sep: Seq<char>)
    requires
        a.len() > 0,
        b.len() > 0,
    ensures
        join(a + b, sep) == join(a, sep) + sep + join(b, sep),
    decreases b.len(),
{
    if b.len() == 1 {
        assert((a + b).drop_last() =~= a);
        assert((a + b).last() == b[0]);
    } else {
        lemma_join_concat(a, b.drop_last(), sep);
        assert((a + b).drop_last() =~= a + b.drop_last());
        assert((a + b).last() == b.last());
        assert(join(a + b, sep) =~= join(a, sep) + sep + join(b, sep));
    }
}

/// Retyping a text with a closed frontmatter gives a text whose lines are
/// the rewritten lines, with a closed frontmatter again, and the same final
/// line break.
proof fn lemma_retyped_closed(raw: Seq<char>, a: Seq<char>)
    requires
        free_of(raw, '\r'),
        free_of(a, '\n'),
        free_of(a, '\r'),
        closed_frontmatter(raw),
    ensures
        ({
            let ls = lines(raw);
            let close = fence_from(ls, 1).unwrap();
            let ls2 = retyped_lines(ls, close, a);
            let r1 = retyped(raw, a);
            &&& lines(r1) == ls2
            &&& closed_frontmatter(r1)
            &&& fence_from(ls2, 1) == Some(retyped_close(ls, close))
            &&& has_suffix(r1, seq!['\n']) == has_suffix(raw, seq!['\n'])
        }),
{
    let ls = lines(raw);
    lemma_fence_from(ls, 1);
    let close = fence_from(ls, 1).unwrap();
    lemma_type_line_from(ls, 1, close);
    let ls2 = retyped_lines(ls, close, a);
    let k2 = retyped_close(ls, close);
    let r1 = retyped(raw, a);
    lemma_retyped_lines_joined(raw, a);
    lemma_lines_rejoin(raw);
    // no line holds a carriage return
    let tl_ind = match type_line_from(ls, 1, close) {
        Some(j) => indentation(ls[j]),
        None => Seq::<char>::empty(),
    };
    let tl = type_line(tl_ind, a);
    match type_line_from(ls, 1, close) {
        Some(j) => {
            lemma_lead_len(ls[j], Strip::Whitespace);
            assert(ls2 == ls.update(j, tl));
        },
        None => {
            assert(ls2 == ls.insert(close, tl));
        },
    }
    assert(tl =~= tl_ind + (type_key() + seq![' '] + a));
    assert forall|i: int| 0 <= i < ls2.len() implies free_of(#[trigger] ls2[i], '\r') by {
        match type_line_from(ls, 1, close) {
            Some(j) => {
                if i == j {
                    assert(free_of(ls[j], '\r'));
                    assert forall|m: int| 0 <= m < tl.len() implies tl[m] != '\r' by {
                        if m < tl_ind.len() {
                            assert(tl[m] == ls[j][m]);
                        } else if m >= tl_ind.len() + 6 {
                            assert(tl[m] == a[m - tl_ind.len() - 6]);
                        }
                    }
                } else {
                    assert(ls2[i] == ls[i]);
                }
            },
            None => {
                if i == close {
                    assert forall|m: int| 0 <= m < tl.len() implies tl[m] != '\r' by {
                        if m >= 6 {
                            assert(tl[m] == a[m - 6]);
                        }
                    }
                } else if i < close {
                    assert(ls2[i] == ls[i]);
                } else {
                    assert(ls2[i] == ls[i - 1]);
                }
            },
        }
    }
    let m = lines(r1);
    assert forall|i: int| 0 <= i < ls2.len() implies #[trigger] m[i] == ls2[i] by {
        assert(free_of(ls2[i], '\r'));
        if ls2[i].len() > 0 {
            assert(ls2[i][ls2[i].len() - 1] != '\r');
        }
        if i < ls2.len() - 1 {
            assert(m[i] == strip_cr(ls2[i]));
        } else {
            assert(m.last() == m[i]);
            assert(ls2.last() == ls2[i]);
        }
    }
    assert(m =~= ls2);
    // the frontmatter closes where the rewritten lines say
    lemma_dashes_fence();
    assert forall|i: int| 1 <= i < k2 implies !is_fence(#[trigger] ls2[i]) by {
        match type_line_from(ls, 1, close) {
            Some(j) => {
                if i == j {
                    lemma_type_line_is(tl_ind, a);
                    lemma_not_fence(ls2[i]);
                } else {
                    assert(ls2[i] == ls[i]);
                }
            },
            None => {
                if i == close {
                    lemma_type_line_is(tl_ind, a);
                    lemma_not_fence(ls2[i]);
                } else {
                    assert(ls2[i] == ls[i]);
                }
            },
        }
    }
    assert(ls2[k2] == ls[close]);
    lemma_fence_at(ls2, k2, 1);
    // it still opens with the marks and dashes of `raw`
    lemma_opening(raw);
    let n = lead_len(raw, Strip::Char(bom())) as int;
    let q = raw.take(n + 3);
    assert(has_prefix(r1, q)) by {
        assert(r1.take(ls[0].len() as int) == ls[0]);
        assert(ls[0].take(q.len() as int) == q);
        assert(r1.take(q.len() as int) =~= q);
    }
    lemma_drop_marks(r1, q, n);
    // the final line break
    lemma_has_suffix_char(raw, '\n');
    lemma_has_suffix_char(r1, '\n');
    let ends = has_suffix(raw, seq!['\n']);
    if !ends {
        lemma_last_line_nonempty(raw);
        lemma_join_last(ls2, seq!['\n']);
        assert(ls2.last() == ls2[ls2.len() - 1]);
        assert(free_of(ls2[ls2.len() - 1], '\n'));
        assert(r1 == join(ls2, seq!['\n']));
    } else {
        assert(join(ls2, seq!['\n']).push('\n').last() == '\n');
    }
}

proof fn lemma_twice_closed(raw: Seq<char>, a: Seq<char>, b: Seq<char>)
    requires
        free_of(raw, '\r'),
        free_of(a, '\n'),
        free_of(a, '\r'),
        free_of(b, '\n'),
        free_of(b, '\r'),
        closed_frontmatter(raw),
    ensures
        retyped(retyped(raw, a), b) == retyped(raw, b),
{
    let ls = lines(raw);
    lemma_fence_from(ls, 1);
    let close = fence_from(ls, 1).unwrap();
    lemma_type_line_from(ls, 1, close);
    lemma_retyped_closed(raw, a);
    let ls2 = retyped_lines(ls, close, a);
    let k2 = retyped_close(ls, close);
    let r1 = retyped(raw, a);
    match type_line_from(ls, 1, close) {
        Some(j) => {
            let ind = indentation(ls[j]);
            lemma_lead_len(ls[j], Strip::Whitespace);
            let tl = type_line(ind, a);
            assert(ls2 == ls.update(j, tl));
            lemma_type_line_is(ind, a);
            assert forall|m: int| 1 <= m < j implies !is_type_line(#[trigger] ls2[m]) by {
                assert(ls2[m] == ls[m]);
            }
            lemma_type_line_at(ls2, j, 1, k2);
            assert(retyped_lines(ls2, k2, b) =~= retyped_lines(ls, close, b));
        },
        None => {
            let tl = type_line(Seq::empty(), a);
            assert(ls2 == ls.insert(close, tl));
            lemma_type_line_is(Seq::empty(), a);
            assert forall|m: int| 1 <= m < close implies !is_type_line(#[trigger] ls2[m]) by {
                assert(ls2[m] == ls[m]);
            }
            lemma_type_line_at(ls2, close, 1, k2);
            assert(retyped_lines(ls2, k2, b) =~= retyped_lines(ls, close, b));
        },
    }
}

/// The lines of the frontmatter put in front of a text without one.
spec fn head_lines(a: Seq<char>) -> Seq<Seq<char>> {
    seq![dashes(), type_line(Seq::empty(), a), dashes(), Seq::<char>::empty()]
}

proof fn lemma_type_line_clean(a: Seq<char>)
    requires
        free_of(a, '\n'),
        free_of(a, '\r'),
    ensures
        free_of(type_line(Seq::empty(), a), '\n'),
        free_of(type_line(Seq::empty(), a), '\r'),
        type_line(Seq::empty(), a).last() != '\r',
{
    let ta = type_line(Seq::empty(), a);
    assert(ta =~= type_key() + seq![' '] + a);
    assert forall|m: int| 0 <= m < ta.len() implies ta[m] != '\n' && ta[m] != '\r' by {
        if m >= 6 {
            assert(ta[m] == a[m - 6]);
        }
    }
    assert(ta.last() == ta[ta.len() - 1]);
}

/// The text put in front is the head lines, each ended by a line break.
#[verifier::spinoff_prover]
proof fn lemma_prepend_head(raw: Seq<char>, a: Seq<char>)
    requires
        free_of(a, '\n'),
        free_of(a, '\r'),
    ensures
        prepend_type(raw, a) == unlines(head_lines(a)) + raw,
        lines(unlines(head_lines(a))) == head_lines(a),
        unlines(head_lines(a)) == join(head_lines(a), seq!['\n']) + seq!['\n'],
{
    let ta = type_line(Seq::empty(), a);
    let la = head_lines(a);
    lemma_type_line_clean(a);
    assert(unlines(la) =~= seq!['-', '-', '-', '\n'] + (ta + seq!['\n']) + seq!['-', '-', '-', '\n']
        + seq!['\n']) by {
        reveal_with_fuel(unlines, 5);
        assert(la.drop_last() =~= seq![dashes(), ta, dashes()]);
        assert(la.drop_last().drop_last() =~= seq![dashes(), ta]);
        assert(la.drop_last().drop_last().drop_last() =~= seq![dashes()]);
        assert(seq![dashes()].drop_last() =~= Seq::<Seq<char>>::empty());
    }
    assert(prepend_type(raw, a) =~= unlines(la) + raw);
    assert forall|i: int| 0 <= i < la.len() implies free_of(#[trigger] la[i], '\n') by {}
    lemma_lines_unlines(la);
    assert(lines(unlines(la)) =~= la);
    lemma_join_unlines(la);
}

/// A text given a frontmatter has that frontmatter closed after its type
/// line, which comes first.
proof fn lemma_prepended_closed(raw: Seq<char>, a: Seq<char>)
    requires
        free_of(a, '\n'),
        free_of(a, '\r'),
    ensures
        lines(prepend_type(raw, a)) == head_lines(a) + lines(raw),
        closed_frontmatter(prepend_type(raw, a)),
        fence_from(lines(prepend_type(raw, a)), 1) == Some(2int),
        type_line_from(lines(prepend_type(raw, a)), 1, 2) == Some(1int),
        indentation(type_line(Seq::empty(), a)) == Seq::<char>::empty(),
{
    let r1 = prepend_type(raw, a);
    let la = head_lines(a);
    let ta = type_line(Seq::empty(), a);
    lemma_prepend_head(raw, a);
    let u = unlines(la);
    assert(u.last() == '\n');
    lemma_lines_concat(u, raw);
    let l1 = la + lines(raw);
    lemma_dashes_fence();
    lemma_type_line_is(Seq::empty(), a);
    lemma_not_fence(ta);
    assert(l1[1] == ta && l1[2] == dashes());
    lemma_fence_at(l1, 2, 1);
    lemma_unlines_prefix(la);
    assert(r1.take(3) =~= u.take(3));
    assert(r1[0] == r1.take(3)[0]);
    lemma_lead_len_exact(r1, Strip::Char(bom()), 0);
    assert(r1.skip(0) =~= r1);
    lemma_type_line_at(l1, 1, 1, 2);
}

/// Joining the head lines of `b` with the lines of a text without carriage
/// returns gives the text with that frontmatter in front.
proof fn lemma_prepend_rejoin(raw: Seq<char>, b: Seq<char>)
    requires
        free_of(raw, '\r'),
        free_of(b, '\n'),
        free_of(b, '\r'),
    ensures
        (if raw.len() == 0 || has_suffix(raw, seq!['\n']) {
            join(head_lines(b) + lines(raw), seq!['\n']) + seq!['\n']
        } else {
            join(head_lines(b) + lines(raw), seq!['\n'])
        }) == prepend_type(raw, b),
{
    let lb = head_lines(b);
    let lr = lines(raw);
    lemma_prepend_head(raw, b);
    lemma_lines_rejoin(raw);
    lemma_has_suffix_char(raw, '\n');
    let pb = unlines(lb);
    if raw.len() > 0 {
        lemma_split_on_len(raw, '\n');
        if raw.last() == '\n' {
            lemma_split_on_len(raw.drop_last(), '\n');
        }
        assert(lr.len() > 0);
    }
    if lr.len() == 0 {
        assert(lb + lr =~= lb);
        assert(pb + raw =~= pb);
    } else {
        lemma_join_concat(lb, lr, seq!['\n']);
        if has_suffix(raw, seq!['\n']) {
            assert(join(lb + lr, seq!['\n']) + seq!['\n'] =~= (join(lb, seq!['\n'])
                + seq!['\n']) + (join(lr, seq!['\n']) + seq!['\n']));
        } else {
            assert(join(lb + lr, seq!['\n']) =~= (join(lb, seq!['\n']) + seq!['\n']) + join(
                lr,
                seq!['\n'],
            ));
        }
    }
}

proof fn lemma_twice_prepended(raw: Seq<char>, a: Seq<char>, b: Seq<char>)
    requires
        free_of(raw, '\r'),
        free_of(a, '\n'),
        free_of(a, '\r'),
        free_of(b, '\n'),
        free_of(b, '\r'),
        !closed_frontmatter(raw),
    ensures
        retyped(retyped(raw, a), b) == retyped(raw, b),
{
    let r1 = retyped(raw, a);
    assert(r1 == prepend_type(raw, a));
    lemma_prepended_closed(raw, a);
    lemma_prepend_head(raw, a);
    let l1 = head_lines(a) + lines(raw);
    let tb = type_line(Seq::empty(), b);
    assert(retyped_lines(l1, 2, b) =~= head_lines(b) + lines(raw));
    lemma_prepend_rejoin(raw, b);
    assert(retyped(raw, b) == prepend_type(raw, b));
    lemma_has_suffix_char(r1, '\n');
    lemma_has_suffix_char(raw, '\n');
    assert(r1 == unlines(head_lines(a)) + raw);
    if raw.len() == 0 {
        assert(r1 =~= unlines(head_lines(a)));
        assert(r1.last() == '\n') by {
            assert(unlines(head_lines(a)) == join(head_lines(a), seq!['\n']) + seq!['\n']);
        }
    } else {
        assert(r1.last() == raw.last());
    }
}

/// Retyping twice is retyping once with the second type, for text without
/// carriage returns and types on one line.
pub proof fn law_retype_twice(raw: Seq<char>, a: Seq<char>, b: Seq<char>)
    requires
        free_of(raw, '\r'),
        free_of(a, '\n'),
        free_of(a, '\r'),
        free_of(b, '\n'),
        free_of(b, '\r'),
    ensures
        retyped(retyped(raw, a), b) == retyped(raw, b),
{
    if closed_frontmatter(raw) {
        lemma_twice_closed(raw, a, b);
    } else {
        lemma_twice_prepended(raw, a, b);
    }
}

// ------------------------------------------------------------------
// Picking a move target
// ------------------------------------------------------------------

/// Moving the target cursor up or down wraps around the projects, never
/// lands on the ALL entry, and leaves the mode as it was.
pub proof fn law_move_cursor_stays(o: App, f: App, key: Key, act: Action)
    requires
        o.wf(),
        1 <= o.move_cursor <= o.library.projects@.len(),
        move_key_post(o, f, key, act),
        key == Key::Up || key == Key::Char('k') || key == Key::Down || key == Key::Char('j'),
    ensures
        1 <= f.move_cursor <= f.library.projects@.len(),
        key == Key::Down || key == Key::Char('j') ==> f.move_cursor == if o.move_cursor
            >= o.library.projects@.len() {
            1
        } else {
            o.move_cursor + 1
        },
        key == Key::Up || key == Key::Char('k') ==> f.move_cursor == if o.move_cursor <= 1 {
            o.library.projects@.len() as int
        } else {
            o.move_cursor - 1
        },
        f.mode == o.mode,
        f.library == o.library,
        act is Nothing,
{
}

// ------------------------------------------------------------------
// Timestamps in time order
// ------------------------------------------------------------------

/// The number a string of decimal digits writes.
spec fn digits_value(s: Seq<char>) -> int
    decreases s.len(),
{
    if s.len() == 0 {
        0
    } else {
        digits_value(s.drop_last()) * 10 + (s.last() as int - 48)
    }
}

spec fn all_digits(s: Seq<char>) -> bool {
    forall|i: int| 0 <= i < s.len() ==> is_digit(#[trigger] s[i])
}

proof fn lemma_zeros_value(z: Seq<char>, s: Seq<char>)
    requires
        forall|i: int| 0 <= i < z.len() ==> #[trigger] z[i] == '0',
    ensures
        digits_value(z + s) == digits_value(s),
    decreases z.len() + s.len(),
{
    if s.len() == 0 {
        assert(z + s =~= z);
        if z.len() > 0 {
            lemma_zeros_value(z.drop_last(), s);
            assert(z.drop_last() + s =~= z.drop_last());
            assert(z.last() == z[z.len() - 1]);
        }
    } else {
        lemma_zeros_value(z, s.drop_last());
        assert((z + s).drop_last() =~= z + s.drop_last());
        assert((z + s).last() == s.last());
    }
}

proof fn lemma_padded_value(n: nat, w: nat)
    ensures
        digits_value(zero_pad(decimal(n), w)) == n,
    decreases n,
{
    if n >= 10 {
        lemma_padded_value(n / 10, 0);
        assert(decimal(n).drop_last() =~= decimal(n / 10));
    } else {
        assert(decimal(n).drop_last() =~= Seq::<char>::empty());
    }
    assert(zero_pad(decimal(n / 10), 0) == decimal(n / 10));
    assert(digits_value(decimal(n)) == n) by {
        let d: nat = n % 10;
        assert(digit_char(d) as int == 48 + d);
        if n >= 10 {
            assert(decimal(n).last() == digit_char(d));
            assert(digits_value(decimal(n)) == digits_value(decimal(n / 10)) * 10 + d);
        } else {
            assert(d == n);
            assert(decimal(n).last() == digit_char(n));
            assert(digits_value(decimal(n).drop_last()) == 0);
        }
    }
    if decimal(n).len() < w {
        lemma_zeros_value(Seq::new((w - decimal(n).len()) as nat, |i: int| '0'), decimal(n));
    }
}

/// Two equally long digit strings of the same value are the same.
proof fn lemma_value_same(a: Seq<char>, b: Seq<char>)
    requires
        a.len() == b.len(),
        all_digits(a),
        all_digits(b),
        digits_value(a) == digits_value(b),
    ensures
        a == b,
    decreases a.len(),
{
    if a.len() > 0 {
        let x = digits_value(a.drop_last());
        let y = digits_value(b.drop_last());
        let da = a.last() as int - 48;
        let db = b.last() as int - 48;
        assert(is_digit(a[a.len() - 1]) && is_digit(b[b.len() - 1]));
        assert(x == y && da == db) by (nonlinear_arith)
            requires
                x * 10 + da == y * 10 + db,
                0 <= da <= 9,
                0 <= db <= 9,
        ;
        lemma_value_same(a.drop_last(), b.drop_last());
        assert(a =~= a.drop_last().push(a.last()));
        assert(b =~= b.drop_last().push(b.last()));
    } else {
        assert(a =~= b);
    }
}

/// Of two equally long digit strings, the smaller value has the smaller
/// digit where they first differ.
proof fn lemma_first_difference(a: Seq<char>, b: Seq<char>) -> (i: int)
    requires
        a.len() == b.len(),
        all_digits(a),
        all_digits(b),
        digits_value(a) < digits_value(b),
    ensures
        0 <= i < a.len(),
        a.take(i) == b.take(i),
        a[i] < b[i],
    decreases a.len(),
{
    if a.len() == 0 {
        assert(false);
        0
    } else {
        let pa = a.drop_last();
        let pb = b.drop_last();
        let x = digits_value(pa);
        let y = digits_value(pb);
        let da = a.last() as int - 48;
        let db = b.last() as int - 48;
        assert(is_digit(a[a.len() - 1]) && is_digit(b[b.len() - 1]));
        assert(all_digits(pa) && all_digits(pb)) by {
            assert forall|k: int| 0 <= k < pa.len() implies is_digit(#[trigger] pa[k]) by {
                assert(pa[k] == a[k]);
            }
            assert forall|k: int| 0 <= k < pb.len() implies is_digit(#[trigger] pb[k]) by {
                assert(pb[k] == b[k]);
            }
        }
        assert(x <= y) by (nonlinear_arith)
            requires
                x * 10 + da < y * 10 + db,
                0 <= da <= 9,
                0 <= db <= 9,
        ;
        if x < y {
            let i = lemma_first_difference(pa, pb);
            assert(a.take(i) =~= pa.take(i));
            assert(b.take(i) =~= pb.take(i));
            assert(a[i] == pa[i] && b[i] == pb[i]);
            i
        } else {
            lemma_value_same(pa, pb);
            let i = a.len() - 1;
            assert(a.take(i) =~= pa);
            assert(b.take(i) =~= pb);
            i
        }
    }
}

/// The first difference decides the order of texts.
proof fn lemma_lt_at(a: Seq<char>, b: Seq<char>, i: int)
    requires
        0 <= i < a.len(),
        i < b.len(),
        a.take(i) == b.take(i),
        a[i] < b[i],
    ensures
        chars_lt(a, b),
    decreases i,
{
    if i > 0 {
        assert(a[0] == a.take(i)[0] && b[0] == b.take(i)[0]);
        assert(a.drop_first().take(i - 1) =~= b.drop_first().take(i - 1)) by {
            assert forall|k: int| 0 <= k < i - 1 implies #[trigger] a.drop_first().take(i - 1)[k]
                == b.drop_first().take(i - 1)[k] by {
                assert(a.take(i)[k + 1] == b.take(i)[k + 1]);
                assert(a.take(i)[k + 1] == a[k + 1]);
                assert(b.take(i)[k + 1] == b[k + 1]);
                assert(a.drop_first().take(i - 1)[k] == a.drop_first()[k]);
                assert(b.drop_first().take(i - 1)[k] == b.drop_first()[k]);
                assert(a.drop_first()[k] == a[k + 1]);
                assert(b.drop_first()[k] == b[k + 1]);
            }
        }
        lemma_lt_at(a.drop_first(), b.drop_first(), i - 1);
    }
}

/// An earlier date has an earlier day count.
proof fn lemma_date_order(
    days1: int,
    y1: int,
    m1: int,
    d1: int,
    days2: int,
    y2: int,
    m2: int,
    d2: int,
)
    requires
        is_civil_date(days1, y1, m1, d1),
        is_civil_date(days2, y2, m2, d2),
        y1 < y2 || (y1 == y2 && m1 < m2) || (y1 == y2 && m1 == m2 && d1 < d2),
    ensures
        days1 < days2,
{
    lemma_within_year(y1, m1, d1);
    lemma_days_before_month_mono(y2, 1, m2);
    if y1 < y2 {
        assert(days_before_year(y1 + 1) == days_before_year(y1) + year_len(y1));
        lemma_days_before_year_mono(y1 + 1, y2);
    } else if m1 < m2 {
        assert(days_before_month(y1, m1 + 1) == days_before_month(y1, m1) + month_len(y1, m1));
        lemma_days_before_month_mono(y1, m1 + 1, m2);
    }
}

/// The parts of a timestamp as padded digit strings.
spec fn stamp_parts(secs: int) -> Seq<Seq<char>> {
    let t = civil_date(secs / 86400);
    seq![
        zero_pad(decimal(t.0 as nat), 4),
        zero_pad(decimal(t.1 as nat), 2),
        zero_pad(decimal(t.2 as nat), 2),
        zero_pad(decimal(((secs % 86400) / 3600) as nat), 2),
        zero_pad(decimal(((secs % 86400) % 3600 / 60) as nat), 2),
    ]
}

spec fn stamp_values(secs: int) -> Seq<int> {
    let t = civil_date(secs / 86400);
    seq![t.0, t.1, t.2, (secs % 86400) / 3600, (secs % 86400) % 3600 / 60]
}

/// The parts of a timestamp before the year 10000: digits, of the widths
/// shown, writing the date and time.
proof fn lemma_stamp_parts(secs: int)
    requires
        0 <= secs < 253_402_300_800,
    ensures
        ({
            let ps = stamp_parts(secs);
            let vs = stamp_values(secs);
            &&& is_civil_date(secs / 86400, vs[0], vs[1], vs[2])
            &&& 0 <= vs[3] && 0 <= vs[4]
            &&& ps[0].len() == 4 && ps[1].len() == 2 && ps[2].len() == 2 && ps[3].len() == 2
                && ps[4].len() == 2
            &&& forall|k: int| 0 <= k < 5 ==> all_digits(#[trigger] ps[k]) && digits_value(ps[k])
                == vs[k]
            &&& timestamp_text(secs) == ps[0] + seq!['-'] + ps[1] + seq!['-'] + ps[2] + seq![' ']
                + ps[3] + seq![':'] + ps[4]
        }),
{
    let days = secs / 86400;
    lemma_civil_from_days(days);
    let t = civil_date(days);
    assert(is_civil_date(days, t.0, t.1, t.2));
    if t.0 >= 10000 {
        lemma_days_before_year(10000);
        assert(leaps(9999) == 2424);
        assert(leaps(1969) == 477);
        lemma_days_before_year_mono(10000, t.0);
        lemma_days_before_month_mono(t.0, 1, t.1);
        assert(false);
    }
    let vs = stamp_values(secs);
    let ps = stamp_parts(secs);
    assert forall|k: int| 0 <= k < 5 implies all_digits(#[trigger] ps[k]) && digits_value(ps[k])
        == vs[k] by {
        let w: nat = if k == 0 { 4 } else { 2 };
        lemma_decimal_len(vs[k] as nat);
        lemma_padded(vs[k] as nat, w);
        lemma_padded_value(vs[k] as nat, w);
    }
    lemma_decimal_len(t.0 as nat);
    lemma_decimal_len(t.1 as nat);
    lemma_decimal_len(t.2 as nat);
    lemma_decimal_len(vs[3] as nat);
    lemma_decimal_len(vs[4] as nat);
    lemma_padded(t.0 as nat, 4);
    lemma_padded(t.1 as nat, 2);
    lemma_padded(t.2 as nat, 2);
    lemma_padded(vs[3] as nat, 2);
    lemma_padded(vs[4] as nat, 2);
}

/// `YYYY-MM-DD HH:MM` from its parts.
spec fn stamp(p: Seq<Seq<char>>) -> Seq<char> {
    p[0] + seq!['-'] + p[1] + seq!['-'] + p[2] + seq![' '] + p[3] + seq![':'] + p[4]
}

spec fn stamp_offset(k: int) -> int {
    if k == 0 { 0 } else if k == 1 { 5 } else if k == 2 { 8 } else if k == 3 { 11 } else { 14 }
}

spec fn stamp_widths(p: Seq<Seq<char>>) -> bool {
    p.len() == 5 && p[0].len() == 4 && p[1].len() == 2 && p[2].len() == 2 && p[3].len() == 2
        && p[4].len() == 2
}

/// Stamps whose parts agree before part `k` and first differ at digit `i`
/// of it are in the order of that digit.
proof fn lemma_stamp_lt(p1: Seq<Seq<char>>, p2: Seq<Seq<char>>, k: int, i: int)
    requires
        stamp_widths(p1),
        stamp_widths(p2),
        0 <= k < 5,
        forall|j: int| 0 <= j < k ==> #[trigger] p1[j] == p2[j],
        0 <= i < p1[k].len(),
        p1[k].take(i) == p2[k].take(i),
        p1[k][i] < p2[k][i],
    ensures
        chars_lt(stamp(p1), stamp(p2)),
{
    let t1 = stamp(p1);
    let t2 = stamp(p2);
    let off = stamp_offset(k);
    assert(t1 =~= p1[0] + seq!['-'] + p1[1] + seq!['-'] + p1[2] + seq![' '] + p1[3] + seq![':'] + p1[4]);
    assert(t1.len() == 16 && t2.len() == 16);
    assert forall|m: int| 0 <= m < off + i implies #[trigger] t1[m] == t2[m] by {
        if m < 4 {
            assert(t1[m] == p1[0][m] && t2[m] == p2[0][m]);
            if k == 0 {
                assert(p1[0].take(i)[m] == p2[0].take(i)[m]);
            }
        } else if m == 4 || m == 7 || m == 10 || m == 13 {
        } else if m < 7 {
            assert(t1[m] == p1[1][m - 5] && t2[m] == p2[1][m - 5]);
            if k == 1 {
                assert(p1[1].take(i)[m - 5] == p2[1].take(i)[m - 5]);
            }
        } else if m < 10 {
            assert(t1[m] == p1[2][m - 8] && t2[m] == p2[2][m - 8]);
            if k == 2 {
                assert(p1[2].take(i)[m - 8] == p2[2].take(i)[m - 8]);
            }
        } else if m < 13 {
            assert(t1[m] == p1[3][m - 11] && t2[m] == p2[3][m - 11]);
            if k == 3 {
                assert(p1[3].take(i)[m - 11] == p2[3].take(i)[m - 11]);
            }
        } else {
            assert(t1[m] == p1[4][m - 14] && t2[m] == p2[4][m - 14]);
            assert(p1[4].take(i)[m - 14] == p2[4].take(i)[m - 14]);
        }
    }
    assert(t1.take(off + i) =~= t2.take(off + i));
    assert(t1[off + i] == p1[k][i] && t2[off + i] == p2[k][i]);
    lemma_lt_at(t1, t2, off + i);
}

/// Before the year 10000, timestamps sort in time order: a later time never
/// gives a text that sorts before an earlier one.
pub proof fn law_timestamps_in_time_order(s1: int, s2: int)
    requires
        0 <= s1 <= s2 < 253_402_300_800,
    ensures
        timestamp_text(s1) == timestamp_text(s2) || chars_lt(timestamp_text(s1), timestamp_text(s2)),
{
    lemma_stamp_parts(s1);
    lemma_stamp_parts(s2);
    let p1 = stamp_parts(s1);
    let p2 = stamp_parts(s2);
    let v1 = stamp_values(s1);
    let v2 = stamp_values(s2);
    assert(timestamp_text(s1) == stamp(p1));
    assert(timestamp_text(s2) == stamp(p2));
    let d1 = s1 / 86400;
    let d2 = s2 / 86400;
    let r1 = s1 % 86400;
    let r2 = s2 % 86400;
    assert(d1 <= d2 && (d1 == d2 ==> r1 <= r2)) by (nonlinear_arith)
        requires
            0 <= s1 <= s2,
            d1 == s1 / 86400,
            d2 == s2 / 86400,
            r1 == s1 % 86400,
            r2 == s2 % 86400,
    ;
    // the first differing part is smaller in the earlier stamp
    let k: int = if v1[0] != v2[0] {
        0
    } else if v1[1] != v2[1] {
        1
    } else if v1[2] != v2[2] {
        2
    } else if v1[3] != v2[3] {
        3
    } else if v1[4] != v2[4] {
        4
    } else {
        5
    };
    if k < 3 {
        if d1 == d2 {
            assert(false);
        }
        let later_first = v2[0] < v1[0] || (v2[0] == v1[0] && v2[1] < v1[1]) || (v2[0] == v1[0]
            && v2[1] == v1[1] && v2[2] < v1[2]);
        if later_first {
            lemma_date_order(d2, v2[0], v2[1], v2[2], d1, v1[0], v1[1], v1[2]);
        }
    } else if k < 5 {
        assert(d1 == d2);
    }
    if k == 3 || k == 4 {
        assert(v1[3] <= v2[3] && (v1[3] == v2[3] ==> v1[4] <= v2[4])) by (nonlinear_arith)
            requires
                0 <= r1 <= r2,
                v1[3] == r1 / 3600,
                v2[3] == r2 / 3600,
                v1[4] == r1 % 3600 / 60,
                v2[4] == r2 % 3600 / 60,
        ;
    }
    if k == 5 {
        assert(p1 =~= p2);
    } else {
        assert(v1[k] < v2[k]);
        assert forall|j: int| 0 <= j < k implies #[trigger] p1[j] == p2[j] by {
            assert(v1[j] == v2[j]);
        }
        let i = lemma_first_difference(p1[k], p2[k]);
        lemma_stamp_lt(p1, p2, k, i);
    }
}

// ------------------------------------------------------------------
// What the views and operations are for
// ------------------------------------------------------------------

/// The positions below `n` of memories that are not index entries: each
/// such position, and nothing else, in increasing order.
proof fn lemma_non_index_exact(mems: Seq<Memory>, n: nat)
    requires
        n <= mems.len(),
        n <= usize::MAX + 1,
    ensures
        forall|i: int|
            0 <= i < n ==> (mems[i].mtype@ != "index"@ <==> non_index_upto(mems, n).contains(
                i as usize,
            )),
        forall|k: int| 0 <= k < non_index_upto(mems, n).len() ==> #[trigger] non_index_upto(mems, n)[k] < n,
        forall|j: int, k: int|
            0 <= j < k < non_index_upto(mems, n).len() ==> non_index_upto(mems, n)[j]
                < non_index_upto(mems, n)[k],
    decreases n,
{
    if n > 0 {
        let m = (n - 1) as nat;
        lemma_non_index_exact(mems, m);
        let r = non_index_upto(mems, m);
        let x = non_index_upto(mems, n);
        assert forall|i: int| 0 <= i < n implies (mems[i].mtype@ != "index"@ <==> x.contains(
            i as usize,
        )) by {
            if i < m {
                if r.contains(i as usize) {
                    let k = choose|k: int| 0 <= k < r.len() && r[k] == i as usize;
                    if !is_index_memory(mems[m as int]) {
                        assert(x[k] == r[k]);
                    }
                }
                if x.contains(i as usize) {
                    let k = choose|k: int| 0 <= k < x.len() && x[k] == i as usize;
                    if !is_index_memory(mems[m as int]) && k == r.len() {
                        assert(x[k] == m as usize);
                    } else {
                        assert(x[k] == r[k]);
                    }
                }
            } else {
                if !is_index_memory(mems[m as int]) {
                    assert(x[r.len() as int] == m as usize);
                } else if x.contains(i as usize) {
                    let k = choose|k: int| 0 <= k < x.len() && x[k] == i as usize;
                    assert(x[k] == r[k]);
                }
            }
        }
    }
}

/// With ALL selected and no filter, the memories shown are exactly those
/// whose type is not `index`, each once, in library order.
pub proof fn law_all_view_lists_every_memory(a: App)
    requires
        a.selected_project == 0,
        a.filter@.len() == 0,
        a.library.memories@.len() <= usize::MAX,
    ensures
        forall|i: int|
            0 <= i < a.library.memories@.len() ==> (a.library.memories@[i].mtype@ != "index"@
                <==> a.visible().contains(i as usize)),
        forall|k: int|
            0 <= k < a.visible().len() ==> #[trigger] a.visible()[k] < a.library.memories@.len(),
        forall|j: int, k: int| 0 <= j < k < a.visible().len() ==> a.visible()[j] < a.visible()[k],
{
    let mems = a.library.memories@;
    lemma_non_index_exact(mems, mems.len());
}

/// A position of `idxs` whose memory matches the query is kept.
proof fn lemma_matching_keeps(idxs: Seq<usize>, mems: Seq<Memory>, q: Seq<char>, i: usize)
    requires
        idxs.contains(i),
        memory_matches(mems[i as int], q),
    ensures
        matching(idxs, mems, q).contains(i),
    decreases idxs.len(),
{
    let r = matching(idxs.drop_last(), mems, q);
    if idxs.last() == i {
        assert(matching(idxs, mems, q).last() == i);
    } else {
        let k = choose|k: int| 0 <= k < idxs.len() && idxs[k] == i;
        assert(idxs.drop_last()[k] == i);
        lemma_matching_keeps(idxs.drop_last(), mems, q, i);
        let k2 = choose|k2: int| 0 <= k2 < r.len() && r[k2] == i;
        if memory_matches(mems[idxs.last() as int], q) {
            assert(matching(idxs, mems, q)[k2] == i);
        }
    }
}

/// Under a filter, every memory of the current scope (the selected
/// project's memories, or every memory but the index entries for ALL)
/// whose lower-cased name, description, slug, type or body holds the
/// lower-cased filter is shown.
pub proof fn law_filter_finds_every_match(a: App, i: usize)
    requires
        a.filter@.len() > 0,
        a.library.memories@.len() <= usize::MAX,
        a.selected_project == 0 ==> i < a.library.memories@.len()
            && a.library.memories@[i as int].mtype@ != "index"@,
        a.selected_project > 0 ==> a.selected_project <= a.library.projects@.len()
            && a.library.projects@[a.selected_project - 1].memory_idx@.contains(i),
        ({
            let m = a.library.memories@[i as int];
            let q = lower(a.filter@);
            ||| contains(lower(m.name@), q)
            ||| contains(lower(m.description@), q)
            ||| contains(lower(m.slug@), q)
            ||| contains(lower(m.mtype@), q)
            ||| contains(lower(m.body@), q)
        }),
    ensures
        a.visible().contains(i),
{
    let mems = a.library.memories@;
    let base = if a.selected_project == 0 {
        non_index_upto(mems, mems.len())
    } else {
        a.library.projects@[a.selected_project - 1].memory_idx@
    };
    if a.selected_project == 0 {
        lemma_non_index_exact(mems, mems.len());
    }
    lemma_matching_keeps(base, mems, lower(a.filter@), i);
}

/// The newest and oldest creation times are the latest and earliest of the
/// memories that have one: each creation time lies between them, both are
/// creation times of some memory, and there are none exactly when no
/// memory has a creation time.
pub proof fn law_newest_and_oldest_bound_all(ms: Seq<Memory>)
    ensures
        newest_created(ms) is None <==> forall|k: int| 0 <= k < ms.len() ==> (#[trigger] ms[k]).created is None,
        oldest_created(ms) is None <==> forall|k: int| 0 <= k < ms.len() ==> (#[trigger] ms[k]).created is None,
        forall|k: int|
            0 <= k < ms.len() && (#[trigger] ms[k]).created is Some ==> newest_created(ms) is Some
                && ms[k].created->0 <= newest_created(ms)->0 && oldest_created(ms) is Some
                && oldest_created(ms)->0 <= ms[k].created->0,
        newest_created(ms) matches Some(n) ==> exists|k: int|
            0 <= k < ms.len() && (#[trigger] ms[k]).created == Some(n),
        oldest_created(ms) matches Some(o) ==> exists|k: int|
            0 <= k < ms.len() && (#[trigger] ms[k]).created == Some(o),
    decreases ms.len(),
{
    if ms.len() > 0 {
        let init = ms.drop_last();
        law_newest_and_oldest_bound_all(init);
        assert forall|k: int| 0 <= k < init.len() implies #[trigger] init[k] == ms[k] by {}
        assert(ms.last() == ms[ms.len() - 1]);
        if newest_created(ms) is None {
            assert forall|k: int| 0 <= k < ms.len() implies (#[trigger] ms[k]).created is None by {
                if k < init.len() {
                    assert(init[k] == ms[k]);
                }
            }
        }
        if oldest_created(ms) is None {
            assert forall|k: int| 0 <= k < ms.len() implies (#[trigger] ms[k]).created is None by {
                if k < init.len() {
                    assert(init[k] == ms[k]);
                }
            }
        }
        assert forall|k: int|
            0 <= k < ms.len() && (#[trigger] ms[k]).created is Some implies newest_created(ms) is Some
            && ms[k].created->0 <= newest_created(ms)->0 && oldest_created(ms) is Some
            && oldest_created(ms)->0 <= ms[k].created->0 by {
            if k < init.len() {
                assert(init[k].created is Some);
            }
        }
        if let Some(n) = newest_created(ms) {
            if ms.last().created == Some(n) {
                assert(ms[ms.len() - 1].created == Some(n));
            } else {
                let k = choose|k: int| 0 <= k < init.len() && (#[trigger] init[k]).created == Some(n);
                assert(ms[k].created == Some(n));
            }
        }
        if let Some(o) = oldest_created(ms) {
            if ms.last().created == Some(o) {
                assert(ms[ms.len() - 1].created == Some(o));
            } else {
                let k = choose|k: int| 0 <= k < init.len() && (#[trigger] init[k]).created == Some(o);
                assert(ms[k].created == Some(o));
            }
        }
    }
}

/// The type picker opens on the memory's own type whenever that type is
/// one of the assignable ones.
pub proof fn law_type_picker_opens_on_own_type(o: App, f: App, act: Action, k: int)
    requires
        nav_key_post(o, f, Key::Char('t'), act),
        o.selected_spec() is Some,
        0 <= k < 4,
        o.library.memories@[o.selected_spec()->0 as int].mtype@ == type_names()[k],
    ensures
        f.mode == Mode::PickType,
        f.type_cursor == k,
{
    reveal_strlit("user");
    reveal_strlit("feedback");
    reveal_strlit("project");
    reveal_strlit("reference");
    reveal_strlit("index");
    let t = o.library.memories@[o.selected_spec()->0 as int].mtype@;
    assert(t.len() == 4 || t.len() == 8 || t.len() == 7 || t.len() == 9);
    assert(!is_index_memory(o.library.memories@[o.selected_spec()->0 as int]));
    assert(type_position(t) == k);
}

/// The lines of `ls` that pass `keep`, in order, as `Seq::filter` gives them.
proof fn lemma_lines_without_filter(ls: Seq<Seq<char>>, needle: Seq<char>)
    ensures
        lines_without(ls, needle) == ls.filter(|l: Seq<char>| !contains(l, needle)),
    decreases ls.len(),
{
    reveal(Seq::filter);
    if ls.len() > 0 {
        lemma_lines_without_filter(ls.drop_last(), needle);
    }
}

/// Dropping a memory's pointer from an index keeps every other line as it
/// was, in order: the lines of the result are the lines of the index that
/// do not hold `(<slug>.md)`.  Said of an index without carriage returns;
/// the one other case left out is a result whose last kept line is empty
/// and that gets no final line break (the index has none, or that empty
/// line is all that is kept), where joining the lines loses that line.
pub proof fn law_index_remove_keeps_other_lines(raw: Seq<char>, slug: Seq<char>)
    requires
        free_of(raw, '\r'),
        ({
            let kept = lines(raw).filter(
                |l: Seq<char>| !contains(l, seq!['('] + slug + seq!['.', 'm', 'd', ')']),
            );
            ||| kept.len() == 0
            ||| kept.last().len() > 0
            ||| has_suffix(raw, seq!['\n']) && kept.len() > 1
        }),
    ensures
        lines(removed_index(raw, slug)) == lines(raw).filter(
            |l: Seq<char>| !contains(l, seq!['('] + slug + seq!['.', 'm', 'd', ')']),
        ),
{
    let needle = link_of(slug);
    assert(needle == seq!['('] + slug + seq!['.', 'm', 'd', ')']);
    let ls = lines(raw);
    let k = lines_without(ls, needle);
    lemma_lines_without_filter(ls, needle);
    lemma_lines_without(ls, needle);
    lemma_lines_free(raw);
    lemma_lines_rejoin(raw);
    assert forall|j: int| 0 <= j < k.len() implies free_of(#[trigger] k[j], '\n') && free_of(
        k[j],
        '\r',
    ) by {
        let i = choose|i: int| 0 <= i < ls.len() && ls[i] == k[j];
        assert(free_of(ls[i], '\n'));
        assert(free_of(ls[i], '\r'));
    }
    let out = join(k, seq!['\n']);
    let res = removed_index(raw, slug);
    if k.len() == 0 {
        assert(out =~= Seq::<char>::empty());
        assert(lines(res) =~= Seq::<Seq<char>>::empty());
    } else {
        assert forall|j: int| 0 <= j < k.len() implies strip_cr(#[trigger] k[j]) == k[j] by {
            assert(free_of(k[j], '\r'));
            if k[j].len() > 0 {
                assert(k[j][k[j].len() - 1] != '\r');
            }
        }
        if k.last().len() > 0 {
            lemma_join_last(k, seq!['\n']);
        } else {
            assert(out.len() > 0) by {
                assert(k.len() > 1);
                assert(out == join(k.drop_last(), seq!['\n']) + seq!['\n'] + k.last());
            }
        }
        if has_suffix(raw, seq!['\n']) {
            assert(res == out + seq!['\n']);
            lemma_join_unlines(k);
            lemma_lines_unlines(k);
            assert(lines(res) =~= k);
        } else {
            assert(res == out);
            assert(k.last().len() > 0);
            lemma_split_join(k, '\n');
            assert(out.last() != '\n') by {
                assert(free_of(k[k.len() - 1], '\n'));
                assert(k.last() == k[k.len() - 1]);
                assert(k.last()[k.last().len() - 1] != '\n');
            }
            assert(lines(out) =~= k);
        }
    }
}

// ------------------------------------------------------------------
// The statistics and the views, spelled out
// ------------------------------------------------------------------

/// The memories in scope are those at the given positions, in that order,
/// without the ones of type `index`.
pub proof fn law_scope_is_the_non_index_memories(mems: Seq<Memory>, idxs: Seq<usize>)
    ensures
        in_scope(mems, idxs) == idxs.map_values(|i: usize| mems[i as int]).filter(
            |m: Memory| m.mtype@ != "index"@,
        ),
    decreases idxs.len(),
{
    reveal(Seq::filter);
    if idxs.len() > 0 {
        law_scope_is_the_non_index_memories(mems, idxs.drop_last());
        let f = |i: usize| mems[i as int];
        assert(idxs.map_values(f).drop_last() =~= idxs.drop_last().map_values(f));
        assert(idxs.map_values(f).last() == mems[idxs.last() as int]);
    }
}

/// The count of a type is how many of the memories have exactly that type.
pub proof fn law_type_count_counts_that_type(ms: Seq<Memory>, t: Seq<char>)
    ensures
        count_type(ms, t) == ms.filter(|m: Memory| m.mtype@ == t).len(),
    decreases ms.len(),
{
    reveal(Seq::filter);
    if ms.len() > 0 {
        law_type_count_counts_that_type(ms.drop_last(), t);
    }
}

/// The recent count is how many of the memories have a creation time at
/// most `secs` seconds before `now` (one after `now` counts as now).
pub proof fn law_recent_count_counts_recent(ms: Seq<Memory>, now: u64, secs: int)
    ensures
        count_recent(ms, now, secs) == ms.filter(
            |m: Memory|
                m.created is Some && (if now >= m.created->0 {
                    now - m.created->0
                } else {
                    0
                }) <= secs,
        ).len(),
    decreases ms.len(),
{
    reveal(Seq::filter);
    if ms.len() > 0 {
        law_recent_count_counts_recent(ms.drop_last(), now, secs);
    }
}

/// Under a filter, what is shown is in the current scope and matches: its
/// lower-cased name, description, slug, type or body holds the lower-cased
/// filter.
pub proof fn law_filter_shows_only_matches(a: App)
    requires
        a.filter@.len() > 0,
        a.library.memories@.len() <= usize::MAX,
    ensures
        forall|k: int|
            0 <= k < a.visible().len() ==> {
                let i = #[trigger] a.visible()[k];
                let m = a.library.memories@[i as int];
                let q = lower(a.filter@);
                &&& (a.selected_project == 0 ==> m.mtype@ != "index"@)
                &&& (a.selected_project > 0 ==> a.library.projects@[a.selected_project
                    - 1].memory_idx@.contains(i))
                &&& (contains(lower(m.name@), q) || contains(lower(m.description@), q)
                    || contains(lower(m.slug@), q) || contains(lower(m.mtype@), q) || contains(
                    lower(m.body@),
                    q,
                ))
            },
{
    let mems = a.library.memories@;
    let base = if a.selected_project == 0 {
        non_index_upto(mems, mems.len())
    } else {
        a.library.projects@[a.selected_project - 1].memory_idx@
    };
    lemma_matching(base, mems, lower(a.filter@));
    law_filter_shows_matches(a);
    if a.selected_project == 0 {
        lemma_non_index(mems, mems.len());
    }
    assert forall|k: int| 0 <= k < a.visible().len() implies {
        let i = #[trigger] a.visible()[k];
        let m = a.library.memories@[i as int];
        &&& (a.selected_project == 0 ==> m.mtype@ != "index"@)
        &&& (a.selected_project > 0 ==> a.library.projects@[a.selected_project
            - 1].memory_idx@.contains(i))
    } by {
        let j = choose|j: int| 0 <= j < base.len() && base[j] == a.visible()[k];
        if a.selected_project == 0 {
            assert(!is_index_memory(mems[base[j] as int]));
        }
    }
}

/// Without a filter, a project's view shows exactly its memories, in its
/// order.
pub proof fn law_project_view_is_its_memories(a: App)
    requires
        a.selected_project > 0,
        a.filter@.len() == 0,
    ensures
        a.visible() == a.library.projects@[a.selected_project - 1].memory_idx@,
{
}

} // verus!
