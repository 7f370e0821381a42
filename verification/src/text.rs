//! Character-level text utilities with their specifications.
//!
//! Text is modelled as `Seq<char>`; executable code works on `Vec<char>`
//! and converts from and to `String` at the edges.

use vstd::prelude::*;
use vstd::std_specs::iter::IteratorSpec;

verus! {

// ------------------------------------------------------------------
// Conversions
// ------------------------------------------------------------------

/// The characters of `s`, in order.
pub fn chars_of(s: &str) -> (res: Vec<char>)
    ensures
        res@ == s@,
{
    let mut res: Vec<char> = Vec::new();
    proof {
        broadcast use vstd::string::group_string_axioms;
    }
    for c in it: s.chars()
        invariant
            it.seq() == s@,
            res@ == s@.take(it.index() as int),
    {
        res.push(c);
    }
    proof {
        assert(s@.take(s@.len() as int) =~= s@);
    }
    res
}

/// Appends one character to a string: calls `String::push`, which std
/// documents as appending the given `char` to the end of the `String`.
#[verifier::external_body]
pub(crate) fn push_char(s: &mut String, c: char)
    ensures
        final(s)@ == old(s)@.push(c),
{
    s.push(c);
}

/// Removes the last character of a string: calls `String::pop`, which std
/// documents as removing the last character and returning it, or returning
/// `None` when the string is empty.
#[verifier::external_body]
pub(crate) fn pop_char(s: &mut String) -> (r: Option<char>)
    ensures
        old(s)@.len() == 0 ==> r is None && final(s)@ == old(s)@,
        old(s)@.len() > 0 ==> r == Some(old(s)@.last()) && final(s)@ == old(s)@.drop_last(),
{
    s.pop()
}

/// The string made of the characters of `v`.
pub fn string_of(v: &Vec<char>) -> (res: String)
    ensures
        res@ == v@,
{
    let mut res = String::new();
    let n: usize = v.len();
    let mut i: usize = 0;
    while i < n
        invariant
            n == v@.len(),
            i <= n,
            res@ == v@.take(i as int),
        decreases n - i,
    {
        push_char(&mut res, v[i]);
        proof {
            assert(v@.take(i + 1) =~= v@.take(i as int).push(v@[i as int]));
        }
        i += 1;
    }
    proof {
        assert(v@.take(n as int) =~= v@);
    }
    res
}

/// The characters `v[from..to]`.
pub fn slice(v: &Vec<char>, from: usize, to: usize) -> (res: Vec<char>)
    requires
        from <= to <= v@.len(),
    ensures
        res@ == v@.subrange(from as int, to as int),
{
    let mut res: Vec<char> = Vec::new();
    let mut i: usize = from;
    while i < to
        invariant
            from <= i <= to,
            to <= v@.len(),
            res@ == v@.subrange(from as int, i as int),
        decreases to - i,
    {
        res.push(v[i]);
        proof {
            assert(v@.subrange(from as int, i + 1) =~= v@.subrange(from as int, i as int).push(
                v@[i as int],
            ));
        }
        i += 1;
    }
    res
}

/// `a` followed by `b`.
pub fn concat(a: &Vec<char>, b: &Vec<char>) -> (res: Vec<char>)
    ensures
        res@ == a@ + b@,
{
    let mut res: Vec<char> = Vec::new();
    let mut i: usize = 0;
    while i < a.len()
        invariant
            i <= a@.len(),
            res@ == a@.take(i as int),
        decreases a@.len() - i,
    {
        res.push(a[i]);
        proof {
            assert(a@.take(i + 1) =~= a@.take(i as int).push(a@[i as int]));
        }
        i += 1;
    }
    let mut j: usize = 0;
    while j < b.len()
        invariant
            j <= b@.len(),
            i == a@.len(),
            res@ == a@ + b@.take(j as int),
        decreases b@.len() - j,
    {
        res.push(b[j]);
        proof {
            assert(a@ + b@.take(j + 1) =~= (a@ + b@.take(j as int)).push(b@[j as int]));
        }
        j += 1;
    }
    proof {
        assert(a@.take(a@.len() as int) =~= a@);
        assert(b@.take(b@.len() as int) =~= b@);
    }
    res
}

/// Appends the characters of `b` to `a`.
pub fn append(a: &mut Vec<char>, b: &Vec<char>)
    ensures
        final(a)@ == old(a)@ + b@,
{
    let mut j: usize = 0;
    while j < b.len()
        invariant
            j <= b@.len(),
            a@ == old(a)@ + b@.take(j as int),
        decreases b@.len() - j,
    {
        a.push(b[j]);
        proof {
            assert(old(a)@ + b@.take(j + 1) =~= (old(a)@ + b@.take(j as int)).push(b@[j as int]));
        }
        j += 1;
    }
    proof {
        assert(b@.take(b@.len() as int) =~= b@);
    }
}

/// Whether two character sequences are equal.
pub fn chars_eq(a: &Vec<char>, b: &Vec<char>) -> (res: bool)
    ensures
        res == (a@ == b@),
{
    if a.len() != b.len() {
        return false;
    }
    let mut i: usize = 0;
    while i < a.len()
        invariant
            a@.len() == b@.len(),
            i <= a@.len(),
            forall|j: int| 0 <= j < i ==> a@[j] == b@[j],
        decreases a@.len() - i,
    {
        if a[i] != b[i] {
            return false;
        }
        i += 1;
    }
    proof {
        assert(a@ =~= b@);
    }
    true
}


// ------------------------------------------------------------------
// Character classes
// ------------------------------------------------------------------

/// Unicode `White_Space`: the characters `char::is_whitespace` accepts.
pub open spec fn is_ws(c: char) -> bool {
    let u = c as u32;
    ||| 9 <= u <= 13
    ||| u == 32
    ||| u == 0x85
    ||| u == 0xA0
    ||| u == 0x1680
    ||| 0x2000 <= u <= 0x200A
    ||| u == 0x2028
    ||| u == 0x2029
    ||| u == 0x202F
    ||| u == 0x205F
    ||| u == 0x3000
}

pub fn is_whitespace(c: char) -> (b: bool)
    ensures
        b == is_ws(c),
{
    let u = c as u32;
    (9 <= u && u <= 13) || u == 32 || u == 0x85 || u == 0xA0 || u == 0x1680 || (0x2000 <= u && u
        <= 0x200A) || u == 0x2028 || u == 0x2029 || u == 0x202F || u == 0x205F || u == 0x3000
}

/// ASCII letters and digits.
pub open spec fn is_ascii_alnum(c: char) -> bool {
    ||| ('0' <= c && c <= '9')
    ||| ('a' <= c && c <= 'z')
    ||| ('A' <= c && c <= 'Z')
}

pub fn is_ascii_alphanumeric(c: char) -> (b: bool)
    ensures
        b == is_ascii_alnum(c),
{
    ('0' <= c && c <= '9') || ('a' <= c && c <= 'z') || ('A' <= c && c <= 'Z')
}

/// The ASCII lower-case form of `c` (other characters are unchanged).
pub open spec fn ascii_lower(c: char) -> char {
    if 'A' <= c && c <= 'Z' {
        ((c as u32) + 32) as char
    } else {
        c
    }
}

pub fn to_ascii_lower(c: char) -> (r: char)
    ensures
        r == ascii_lower(c),
{
    if 'A' <= c && c <= 'Z' {
        let u: u32 = (c as u32) + 32;
        char_from_ascii(u)
    } else {
        c
    }
}

/// The ASCII character with the given code.
fn char_from_ascii(u: u32) -> (c: char)
    requires
        u < 128,
    ensures
        c == u as char,
{
    let b: u8 = u as u8;
    b as char
}

// ------------------------------------------------------------------
// Stripping
// ------------------------------------------------------------------

/// What a strip operation removes: whitespace, or one given character.
#[derive(Clone, Copy)]
pub enum Strip {
    Whitespace,
    Char(char),
    /// Em dash, hyphen-minus or en dash.
    Dash,
}

pub open spec fn strips(k: Strip, c: char) -> bool {
    match k {
        Strip::Whitespace => is_ws(c),
        Strip::Char(d) => c == d,
        Strip::Dash => c == '\u{2014}' || c == '-' || c == '\u{2013}',
    }
}

pub fn strips_char(k: Strip, c: char) -> (b: bool)
    ensures
        b == strips(k, c),
{
    match k {
        Strip::Whitespace => is_whitespace(c),
        Strip::Char(d) => c == d,
        Strip::Dash => c == '\u{2014}' || c == '-' || c == '\u{2013}',
    }
}

/// Number of leading characters removed by `k`.
pub open spec fn lead_len(s: Seq<char>, k: Strip) -> nat
    decreases s.len(),
{
    if s.len() > 0 && strips(k, s[0]) {
        1 + lead_len(s.drop_first(), k)
    } else {
        0
    }
}

/// Number of trailing characters removed by `k`.
pub open spec fn trail_len(s: Seq<char>, k: Strip) -> nat
    decreases s.len(),
{
    if s.len() > 0 && strips(k, s.last()) {
        1 + trail_len(s.drop_last(), k)
    } else {
        0
    }
}

/// `trim_start_matches` / `trim_start`.
pub open spec fn trim_start_by(s: Seq<char>, k: Strip) -> Seq<char> {
    s.skip(lead_len(s, k) as int)
}

/// `trim_end_matches` / `trim_end`.
pub open spec fn trim_end_by(s: Seq<char>, k: Strip) -> Seq<char> {
    s.take(s.len() - trail_len(s, k))
}

/// `trim_matches` / `trim`.
pub open spec fn trim_by(s: Seq<char>, k: Strip) -> Seq<char> {
    trim_end_by(trim_start_by(s, k), k)
}

/// `str::trim`.
pub open spec fn trim(s: Seq<char>) -> Seq<char> {
    trim_by(s, Strip::Whitespace)
}

pub proof fn lemma_lead_len(s: Seq<char>, k: Strip)
    ensures
        lead_len(s, k) <= s.len(),
        forall|j: int| 0 <= j < lead_len(s, k) ==> strips(k, #[trigger] s[j]),
        lead_len(s, k) < s.len() ==> !strips(k, s[lead_len(s, k) as int]),
    decreases s.len(),
{
    if s.len() > 0 && strips(k, s[0]) {
        lemma_lead_len(s.drop_first(), k);
        assert forall|j: int| 0 <= j < lead_len(s, k) implies strips(k, #[trigger] s[j]) by {
            if j > 0 {
                assert(s[j] == s.drop_first()[j - 1]);
            }
        }
    }
}

pub proof fn lemma_trail_len(s: Seq<char>, k: Strip)
    ensures
        trail_len(s, k) <= s.len(),
        forall|j: int| s.len() - trail_len(s, k) <= j < s.len() ==> strips(k, #[trigger] s[j]),
        trail_len(s, k) < s.len() ==> !strips(k, s[s.len() - trail_len(s, k) - 1]),
    decreases s.len(),
{
    if s.len() > 0 && strips(k, s.last()) {
        lemma_trail_len(s.drop_last(), k);
        assert forall|j: int| s.len() - trail_len(s, k) <= j < s.len() implies strips(
            k,
            #[trigger] s[j],
        ) by {
            if j < s.len() - 1 {
                assert(s[j] == s.drop_last()[j]);
            }
        }
    }
}

/// A leading run of `k`-characters of length `n` (followed by a non-`k`
/// character or the end) is exactly what `lead_len` counts.
pub proof fn lemma_lead_len_exact(s: Seq<char>, k: Strip, n: int)
    requires
        0 <= n <= s.len(),
        forall|j: int| 0 <= j < n ==> strips(k, #[trigger] s[j]),
        n < s.len() ==> !strips(k, s[n]),
    ensures
        lead_len(s, k) == n,
    decreases n,
{
    if n > 0 {
        assert(strips(k, s[0]));
        assert forall|j: int| 0 <= j < n - 1 implies strips(k, #[trigger] s.drop_first()[j]) by {
            assert(s.drop_first()[j] == s[j + 1]);
        }
        if n < s.len() {
            assert(s.drop_first()[n - 1] == s[n]);
        }
        lemma_lead_len_exact(s.drop_first(), k, n - 1);
    }
}

pub proof fn lemma_trail_len_exact(s: Seq<char>, k: Strip, n: int)
    requires
        0 <= n <= s.len(),
        forall|j: int| s.len() - n <= j < s.len() ==> strips(k, #[trigger] s[j]),
        n < s.len() ==> !strips(k, s[s.len() - n - 1]),
    ensures
        trail_len(s, k) == n,
    decreases n,
{
    if n > 0 {
        assert(strips(k, s[s.len() - 1]));
        assert forall|j: int| s.len() - 1 - (n - 1) <= j < s.len() - 1 implies strips(
            k,
            #[trigger] s.drop_last()[j],
        ) by {
            assert(s.drop_last()[j] == s[j]);
        }
        if n < s.len() {
            assert(s.drop_last()[s.len() - 1 - (n - 1) - 1] == s[s.len() - n - 1]);
        }
        lemma_trail_len_exact(s.drop_last(), k, n - 1);
    }
}

/// Number of leading characters that `k` removes.
pub fn lead_count(v: &Vec<char>, k: Strip) -> (n: usize)
    ensures
        n == lead_len(v@, k),
{
    let mut i: usize = 0;
    while i < v.len() && strips_char(k, v[i])
        invariant
            i <= v@.len(),
            forall|j: int| 0 <= j < i ==> strips(k, #[trigger] v@[j]),
        decreases v@.len() - i,
    {
        i += 1;
    }
    proof {
        lemma_lead_len_exact(v@, k, i as int);
    }
    i
}

/// Number of trailing characters that `k` removes.
pub fn trail_count(v: &Vec<char>, k: Strip) -> (n: usize)
    ensures
        n == trail_len(v@, k),
{
    let mut i: usize = 0;
    while i < v.len() && strips_char(k, v[v.len() - 1 - i])
        invariant
            i <= v@.len(),
            forall|j: int| v@.len() - i <= j < v@.len() ==> strips(k, #[trigger] v@[j]),
        decreases v@.len() - i,
    {
        i += 1;
    }
    proof {
        lemma_trail_len_exact(v@, k, i as int);
    }
    i
}

pub fn trim_start_chars(v: &Vec<char>, k: Strip) -> (res: Vec<char>)
    ensures
        res@ == trim_start_by(v@, k),
{
    let n: usize = lead_count(v, k);
    proof {
        lemma_lead_len(v@, k);
    }
    slice(v, n, v.len())
}

pub fn trim_end_chars(v: &Vec<char>, k: Strip) -> (res: Vec<char>)
    ensures
        res@ == trim_end_by(v@, k),
{
    let n: usize = trail_count(v, k);
    proof {
        lemma_trail_len(v@, k);
    }
    slice(v, 0, v.len() - n)
}

pub fn trim_chars(v: &Vec<char>, k: Strip) -> (res: Vec<char>)
    ensures
        res@ == trim_by(v@, k),
{
    let a = trim_start_chars(v, k);
    trim_end_chars(&a, k)
}


// ------------------------------------------------------------------
// Prefixes, suffixes and search
// ------------------------------------------------------------------

/// `s` starts with `p`.
pub open spec fn has_prefix(s: Seq<char>, p: Seq<char>) -> bool {
    p.len() <= s.len() && s.take(p.len() as int) == p
}

/// `s` ends with `p`.
pub open spec fn has_suffix(s: Seq<char>, p: Seq<char>) -> bool {
    p.len() <= s.len() && s.skip(s.len() - p.len()) == p
}

/// `p` occurs in `s` at position `i`.
pub open spec fn matches_at(s: Seq<char>, p: Seq<char>, i: int) -> bool {
    0 <= i && i + p.len() <= s.len() && s.subrange(i, i + p.len()) == p
}

/// `p` occurs somewhere in `s`.
pub open spec fn contains(s: Seq<char>, p: Seq<char>) -> bool {
    exists|i: int| matches_at(s, p, i)
}

/// The last position below `n` at which `p` occurs in `s`.
pub open spec fn last_match_below(s: Seq<char>, p: Seq<char>, n: nat) -> Option<int>
    decreases n,
{
    if n == 0 {
        None
    } else if matches_at(s, p, n - 1) {
        Some(n - 1)
    } else {
        last_match_below(s, p, (n - 1) as nat)
    }
}

/// `str::rfind`: the last position at which `p` occurs in `s`.
pub open spec fn rfind(s: Seq<char>, p: Seq<char>) -> Option<int> {
    last_match_below(s, p, s.len() + 1)
}

/// The first position at or after `i` holding `c`.
pub open spec fn find_char_from(s: Seq<char>, c: char, i: int) -> Option<int>
    decreases s.len() - i,
{
    if i < 0 || i >= s.len() {
        None
    } else if s[i] == c {
        Some(i)
    } else {
        find_char_from(s, c, i + 1)
    }
}

/// The first position holding `c`.
pub open spec fn find_char(s: Seq<char>, c: char) -> Option<int> {
    find_char_from(s, c, 0)
}

pub proof fn lemma_find_char_from(s: Seq<char>, c: char, i: int)
    requires
        0 <= i,
    ensures
        find_char_from(s, c, i) matches Some(j) ==> i <= j < s.len() && s[j] == c && forall|
            m: int,
        |
            i <= m < j ==> s[m] != c,
        find_char_from(s, c, i) is None ==> forall|m: int| i <= m < s.len() ==> s[m] != c,
    decreases s.len() - i,
{
    if i < s.len() && s[i] != c {
        lemma_find_char_from(s, c, i + 1);
    }
}

pub proof fn lemma_last_match_below(s: Seq<char>, p: Seq<char>, n: nat)
    ensures
        last_match_below(s, p, n) matches Some(j) ==> j < n && matches_at(s, p, j) && forall|
            m: int,
        |
            j < m < n ==> !matches_at(s, p, m),
        last_match_below(s, p, n) is None ==> forall|m: int| 0 <= m < n ==> !matches_at(s, p, m),
    decreases n,
{
    if n > 0 && !matches_at(s, p, n - 1) {
        lemma_last_match_below(s, p, (n - 1) as nat);
    }
}

/// Whether `p` occurs in `s` at position `i`.
pub fn match_at(s: &Vec<char>, p: &Vec<char>, i: usize) -> (res: bool)
    ensures
        res == matches_at(s@, p@, i as int),
{
    if i > s.len() || s.len() - i < p.len() {
        return false;
    }
    let mut j: usize = 0;
    while j < p.len()
        invariant
            i + p@.len() <= s@.len(),
            s@.len() <= usize::MAX,
            j <= p@.len(),
            forall|m: int| 0 <= m < j ==> s@[i + m] == p@[m],
        decreases p@.len() - j,
    {
        if s[i + j] != p[j] {
            assert(s@.subrange(i as int, i + p@.len())[j as int] == s@[i + j]);
            return false;
        }
        j += 1;
    }
    assert(s@.subrange(i as int, i + p@.len()) =~= p@);
    true
}

/// `s` starts with `p`.
pub fn starts_with(s: &Vec<char>, p: &Vec<char>) -> (res: bool)
    ensures
        res == has_prefix(s@, p@),
{
    let r = match_at(s, p, 0);
    proof {
        if p@.len() <= s@.len() {
            assert(s@.subrange(0, p@.len() as int) == s@.take(p@.len() as int));
        }
    }
    r
}

/// `s` ends with `p`.
pub fn ends_with(s: &Vec<char>, p: &Vec<char>) -> (res: bool)
    ensures
        res == has_suffix(s@, p@),
{
    if p.len() > s.len() {
        return false;
    }
    let r = match_at(s, p, s.len() - p.len());
    proof {
        assert(s@.subrange(s@.len() - p@.len(), s@.len() as int) == s@.skip(s@.len() - p@.len()));
    }
    r
}

/// Whether `p` occurs in `s`.
pub fn contains_chars(s: &Vec<char>, p: &Vec<char>) -> (res: bool)
    ensures
        res == contains(s@, p@),
{
    if p.len() > s.len() {
        return false;
    }
    if p.len() == 0 {
        assert(s@.subrange(0, 0) =~= p@);
        assert(matches_at(s@, p@, 0));
        return true;
    }
    let end: usize = s.len() - p.len() + 1;
    let mut i: usize = 0;
    while i < end
        invariant
            end == s@.len() - p@.len() + 1,
            i <= end,
            forall|m: int| 0 <= m < i ==> !matches_at(s@, p@, m),
        decreases end - i,
    {
        if match_at(s, p, i) {
            return true;
        }
        i += 1;
    }
    false
}

proof fn lemma_last_match_tail(s: Seq<char>, p: Seq<char>, n: nat)
    requires
        p.len() <= s.len(),
        s.len() - p.len() + 1 <= n,
    ensures
        last_match_below(s, p, n) == last_match_below(s, p, (s.len() - p.len() + 1) as nat),
    decreases n,
{
    if n > s.len() - p.len() + 1 {
        lemma_last_match_tail(s, p, (n - 1) as nat);
    }
}

/// The last position at which `p` occurs in `s`.
pub fn rfind_chars(s: &Vec<char>, p: &Vec<char>) -> (res: Option<usize>)
    ensures
        res matches Some(i) ==> rfind(s@, p@) == Some(i as int),
        res is None ==> rfind(s@, p@) is None,
{
    if p.len() > s.len() {
        proof {
            lemma_last_match_below(s@, p@, s@.len() + 1);
        }
        return None;
    }
    if p.len() == 0 {
        assert(s@.subrange(s@.len() as int, s@.len() as int) =~= p@);
        return Some(s.len());
    }
    let mut n: usize = s.len() - p.len() + 1;
    proof {
        lemma_last_match_tail(s@, p@, s@.len() + 1);
    }
    while n > 0
        invariant
            n <= s@.len() + 1,
            last_match_below(s@, p@, n as nat) == rfind(s@, p@),
        decreases n,
    {
        if match_at(s, p, n - 1) {
            return Some(n - 1);
        }
        n -= 1;
    }
    None
}

/// The first position holding `c`.
pub fn find_char_exec(s: &Vec<char>, c: char) -> (res: Option<usize>)
    ensures
        res matches Some(i) ==> find_char(s@, c) == Some(i as int),
        res is None ==> find_char(s@, c) is None,
{
    let mut i: usize = 0;
    while i < s.len()
        invariant
            i <= s@.len(),
            find_char_from(s@, c, i as int) == find_char(s@, c),
        decreases s@.len() - i,
    {
        if s[i] == c {
            return Some(i);
        }
        i += 1;
    }
    None
}


// ------------------------------------------------------------------
// Splitting and joining
// ------------------------------------------------------------------

/// The character sequences held by a vector of character vectors.
pub open spec fn views(v: Seq<Vec<char>>) -> Seq<Seq<char>> {
    Seq::new(v.len(), |i: int| v[i]@)
}

/// `str::split(c)`: the pieces between occurrences of `c` (always at least one).
pub open spec fn split_on(s: Seq<char>, c: char) -> Seq<Seq<char>>
    decreases s.len(),
{
    if s.len() == 0 {
        seq![Seq::empty()]
    } else {
        let p = split_on(s.drop_last(), c);
        if s.last() == c {
            p.push(Seq::empty())
        } else {
            p.update(p.len() - 1, p.last().push(s.last()))
        }
    }
}

pub proof fn lemma_split_on_len(s: Seq<char>, c: char)
    ensures
        split_on(s, c).len() >= 1,
    decreases s.len(),
{
    if s.len() > 0 {
        lemma_split_on_len(s.drop_last(), c);
    }
}

/// Drops one trailing carriage return.
pub open spec fn strip_cr(l: Seq<char>) -> Seq<char> {
    if l.len() > 0 && l.last() == '\r' {
        l.drop_last()
    } else {
        l
    }
}

/// `str::lines`: split at `\n`; a line ended by `\n` also loses one
/// trailing `\r`; a final line ending is optional.
pub open spec fn lines(s: Seq<char>) -> Seq<Seq<char>> {
    if s.len() == 0 {
        Seq::empty()
    } else {
        let p = split_on(s, '\n');
        let n: int = if s.last() == '\n' {
            p.len() - 1
        } else {
            p.len() as int
        };
        Seq::new(n as nat, |i: int| if i < p.len() - 1 { strip_cr(p[i]) } else { p[i] })
    }
}

/// `join(sep)`.
pub open spec fn join(ps: Seq<Seq<char>>, sep: Seq<char>) -> Seq<char>
    decreases ps.len(),
{
    if ps.len() == 0 {
        Seq::empty()
    } else if ps.len() == 1 {
        ps[0]
    } else {
        join(ps.drop_last(), sep) + sep + ps.last()
    }
}

/// Every line followed by `\n`.
pub open spec fn unlines(ls: Seq<Seq<char>>) -> Seq<char>
    decreases ls.len(),
{
    if ls.len() == 0 {
        Seq::empty()
    } else {
        unlines(ls.drop_last()) + ls.last() + seq!['\n']
    }
}

/// The pieces of `s` between occurrences of `c`.
pub fn split_chars(s: &Vec<char>, c: char) -> (res: Vec<Vec<char>>)
    ensures
        views(res@) == split_on(s@, c),
{
    let mut pieces: Vec<Vec<char>> = Vec::new();
    let mut cur: Vec<char> = Vec::new();
    let mut i: usize = 0;
    proof {
        assert(s@.take(0) =~= Seq::<char>::empty());
        assert(views(pieces@).push(cur@) =~= split_on(s@.take(0), c));
    }
    while i < s.len()
        invariant
            i <= s@.len(),
            views(pieces@).push(cur@) == split_on(s@.take(i as int), c),
        decreases s@.len() - i,
    {
        let ghost before = views(pieces@).push(cur@);
        proof {
            assert(s@.take(i + 1).drop_last() =~= s@.take(i as int));
            assert(s@.take(i + 1).last() == s@[i as int]);
        }
        if s[i] == c {
            pieces.push(cur);
            cur = Vec::new();
            proof {
                assert(views(pieces@).push(cur@) =~= before.push(Seq::empty()));
            }
        } else {
            cur.push(s[i]);
            proof {
                assert(views(pieces@).push(cur@) =~= before.update(
                    before.len() - 1,
                    before.last().push(s@[i as int]),
                ));
            }
        }
        i += 1;
    }
    pieces.push(cur);
    proof {
        assert(s@.take(s@.len() as int) =~= s@);
        assert(views(pieces@) =~= split_on(s@, c));
    }
    pieces
}

/// `strip_cr` on a vector.
fn strip_cr_chars(l: &Vec<char>) -> (res: Vec<char>)
    ensures
        res@ == strip_cr(l@),
{
    if l.len() > 0 && l[l.len() - 1] == '\r' {
        slice(l, 0, l.len() - 1)
    } else {
        slice(l, 0, l.len())
    }
}

/// The lines of `s`, as `str::lines` gives them.
pub fn lines_of(s: &Vec<char>) -> (res: Vec<Vec<char>>)
    ensures
        views(res@) == lines(s@),
{
    let mut res: Vec<Vec<char>> = Vec::new();
    if s.len() == 0 {
        assert(views(res@) =~= lines(s@));
        return res;
    }
    let p = split_chars(s, '\n');
    proof {
        lemma_split_on_len(s@, '\n');
    }
    let n: usize = if s[s.len() - 1] == '\n' {
        p.len() - 1
    } else {
        p.len()
    };
    let mut i: usize = 0;
    while i < n
        invariant
            s@.len() > 0,
            views(p@) == split_on(s@, '\n'),
            p@.len() >= 1,
            n as int == (if s@.last() == '\n' {
                p@.len() - 1
            } else {
                p@.len() as int
            }),
            i <= n,
            views(res@) =~= lines(s@).take(i as int),
        decreases n - i,
    {
        let line = if i < p.len() - 1 {
            strip_cr_chars(&p[i])
        } else {
            slice(&p[i], 0, p[i].len())
        };
        proof {
            assert(views(p@)[i as int] == p@[i as int]@);
            assert(lines(s@).len() == n);
            assert(line@ == lines(s@)[i as int]);
        }
        let ghost old_res = views(res@);
        res.push(line);
        proof {
            assert(views(res@) =~= old_res.push(lines(s@)[i as int]));
            assert(lines(s@).take(i as int).push(lines(s@)[i as int]) =~= lines(s@).take(i + 1));
            assert(views(res@) =~= lines(s@).take(i + 1));
        }
        i += 1;
    }
    proof {
        assert(lines(s@).len() == n);
        assert(lines(s@).take(n as int) =~= lines(s@));
    }
    res
}

/// The pieces joined with `sep` between them.
pub fn join_chars(ps: &Vec<Vec<char>>, sep: &Vec<char>) -> (res: Vec<char>)
    ensures
        res@ == join(views(ps@), sep@),
{
    let mut res: Vec<char> = Vec::new();
    let mut i: usize = 0;
    while i < ps.len()
        invariant
            i <= ps@.len(),
            res@ == join(views(ps@).take(i as int), sep@),
        decreases ps@.len() - i,
    {
        proof {
            assert(views(ps@).take(i + 1).drop_last() =~= views(ps@).take(i as int));
            assert(views(ps@).take(i + 1).last() == ps@[i as int]@);
        }
        if i > 0 {
            append(&mut res, sep);
        }
        append(&mut res, &ps[i]);
        proof {
            if i == 0 {
                assert(res@ =~= join(views(ps@).take(1), sep@));
            }
        }
        i += 1;
    }
    proof {
        assert(views(ps@).take(ps@.len() as int) =~= views(ps@));
    }
    res
}

/// Every line followed by `\n`.
pub fn unlines_chars(ls: &Vec<Vec<char>>) -> (res: Vec<char>)
    ensures
        res@ == unlines(views(ls@)),
{
    let mut res: Vec<char> = Vec::new();
    let mut i: usize = 0;
    while i < ls.len()
        invariant
            i <= ls@.len(),
            res@ == unlines(views(ls@).take(i as int)),
        decreases ls@.len() - i,
    {
        proof {
            assert(views(ls@).take(i + 1).drop_last() =~= views(ls@).take(i as int));
            assert(views(ls@).take(i + 1).last() == ls@[i as int]@);
        }
        append(&mut res, &ls[i]);
        res.push('\n');
        i += 1;
    }
    proof {
        assert(views(ls@).take(ls@.len() as int) =~= views(ls@));
    }
    res
}


/// The lines `ls[from..to]`, copied.
pub fn sub_lines(ls: &Vec<Vec<char>>, from: usize, to: usize) -> (res: Vec<Vec<char>>)
    requires
        from <= to <= ls@.len(),
    ensures
        views(res@) == views(ls@).subrange(from as int, to as int),
{
    let mut res: Vec<Vec<char>> = Vec::new();
    let mut i: usize = from;
    while i < to
        invariant
            from <= i <= to,
            to <= ls@.len(),
            views(res@) =~= views(ls@).subrange(from as int, i as int),
        decreases to - i,
    {
        let l = slice(&ls[i], 0, ls[i].len());
        assert(l@ =~= ls@[i as int]@);
        let ghost old_res = views(res@);
        res.push(l);
        proof {
            assert(views(res@) =~= old_res.push(ls@[i as int]@));
            assert(views(ls@).subrange(from as int, i + 1) =~= views(ls@).subrange(
                from as int,
                i as int,
            ).push(ls@[i as int]@));
        }
        i += 1;
    }
    res
}

/// The first occurrence of `c` splits `s` into what comes before and after it.
pub open spec fn split_once(s: Seq<char>, c: char) -> Option<(Seq<char>, Seq<char>)> {
    match find_char(s, c) {
        Some(i) => Some((s.take(i), s.skip(i + 1))),
        None => None,
    }
}

pub fn split_once_chars(s: &Vec<char>, c: char) -> (res: Option<(Vec<char>, Vec<char>)>)
    ensures
        res matches Some((a, b)) ==> split_once(s@, c) == Some((a@, b@)),
        res is None ==> split_once(s@, c) is None,
{
    match find_char_exec(s, c) {
        Some(i) => {
            proof {
                lemma_find_char_from(s@, c, 0);
            }
            let n: usize = s.len();
            assert(i < n);
            let a = slice(s, 0, i);
            let b = slice(s, i + 1, n);
            Some((a, b))
        },
        None => None,
    }
}


/// `eq_ignore_ascii_case`.
pub open spec fn ascii_ci_eq(a: Seq<char>, b: Seq<char>) -> bool {
    a.len() == b.len() && forall|i: int| 0 <= i < a.len() ==> ascii_lower(a[i]) == ascii_lower(b[i])
}

pub fn eq_ignore_ascii_case(a: &Vec<char>, b: &Vec<char>) -> (res: bool)
    ensures
        res == ascii_ci_eq(a@, b@),
{
    if a.len() != b.len() {
        return false;
    }
    let mut i: usize = 0;
    while i < a.len()
        invariant
            a@.len() == b@.len(),
            i <= a@.len(),
            forall|j: int| 0 <= j < i ==> ascii_lower(a@[j]) == ascii_lower(b@[j]),
        decreases a@.len() - i,
    {
        if to_ascii_lower(a[i]) != to_ascii_lower(b[i]) {
            return false;
        }
        i += 1;
    }
    true
}

/// The first position at or after `i` at which `p` occurs in `s`.
pub open spec fn first_match_from(s: Seq<char>, p: Seq<char>, i: int) -> Option<int>
    decreases s.len() + 1 - i,
{
    if i < 0 || i > s.len() {
        None
    } else if matches_at(s, p, i) {
        Some(i)
    } else {
        first_match_from(s, p, i + 1)
    }
}

/// `str::split_once` with a string pattern.
pub open spec fn split_once_str(s: Seq<char>, p: Seq<char>) -> Option<(Seq<char>, Seq<char>)> {
    match first_match_from(s, p, 0) {
        Some(i) => Some((s.take(i), s.skip(i + p.len()))),
        None => None,
    }
}

pub proof fn lemma_first_match_from(s: Seq<char>, p: Seq<char>, i: int)
    requires
        0 <= i,
    ensures
        first_match_from(s, p, i) matches Some(j) ==> i <= j && matches_at(s, p, j) && forall|
            m: int,
        |
            i <= m < j ==> !matches_at(s, p, m),
        first_match_from(s, p, i) is None ==> forall|m: int| i <= m ==> !matches_at(s, p, m),
    decreases s.len() + 1 - i,
{
    if i <= s.len() && !matches_at(s, p, i) {
        lemma_first_match_from(s, p, i + 1);
    }
}

pub fn split_once_str_chars(s: &Vec<char>, p: &Vec<char>) -> (res: Option<(Vec<char>, Vec<char>)>)
    ensures
        res matches Some((a, b)) ==> split_once_str(s@, p@) == Some((a@, b@)),
        res is None ==> split_once_str(s@, p@) is None,
{
    let n: usize = s.len();
    let mut i: usize = 0;
    while i < n
        invariant
            n == s@.len(),
            i <= n,
            first_match_from(s@, p@, i as int) == first_match_from(s@, p@, 0),
        decreases n - i,
    {
        if match_at(s, p, i) {
            let a = slice(s, 0, i);
            let b = slice(s, i + p.len(), n);
            return Some((a, b));
        }
        i += 1;
    }
    if match_at(s, p, n) {
        let a = slice(s, 0, n);
        let b = slice(s, n, n);
        assert(p@.len() == 0);
        return Some((a, b));
    }
    proof {
        lemma_first_match_from(s@, p@, n as int);
    }
    None
}

/// `strip_prefix`.
pub open spec fn strip_prefix(s: Seq<char>, p: Seq<char>) -> Option<Seq<char>> {
    if has_prefix(s, p) {
        Some(s.skip(p.len() as int))
    } else {
        None
    }
}

/// `strip_suffix`.
pub open spec fn strip_suffix(s: Seq<char>, p: Seq<char>) -> Option<Seq<char>> {
    if has_suffix(s, p) {
        Some(s.take(s.len() - p.len()))
    } else {
        None
    }
}

pub fn strip_prefix_chars(s: &Vec<char>, p: &Vec<char>) -> (res: Option<Vec<char>>)
    ensures
        res matches Some(r) ==> strip_prefix(s@, p@) == Some(r@),
        res is None ==> strip_prefix(s@, p@) is None,
{
    if starts_with(s, p) {
        Some(slice(s, p.len(), s.len()))
    } else {
        None
    }
}

pub fn strip_suffix_chars(s: &Vec<char>, p: &Vec<char>) -> (res: Option<Vec<char>>)
    ensures
        res matches Some(r) ==> strip_suffix(s@, p@) == Some(r@),
        res is None ==> strip_suffix(s@, p@) is None,
{
    if ends_with(s, p) {
        Some(slice(s, 0, s.len() - p.len()))
    } else {
        None
    }
}


// ------------------------------------------------------------------
// Case mapping and numbers
// ------------------------------------------------------------------

/// What `str::to_lowercase` returns for a string: its Unicode lowercase
/// mapping, which depends on the string alone.
pub uninterp spec fn lowercase(s: Seq<char>) -> Seq<char>;

/// Only ASCII characters.
pub open spec fn all_ascii(s: Seq<char>) -> bool {
    forall|i: int| 0 <= i < s.len() ==> (#[trigger] s[i] as u32) < 128
}

/// What `str::to_lowercase` returns: on ASCII text, `A`-`Z` lowered
/// character by character and the rest kept; on other text, the Unicode
/// lowercase mapping, which is only named.
pub open spec fn lower(s: Seq<char>) -> Seq<char> {
    if all_ascii(s) {
        s.map_values(|c: char| ascii_lower(c))
    } else {
        lowercase(s)
    }
}

/// Not an ASCII capital letter.
pub open spec fn no_capital(c: char) -> bool {
    ascii_lower(c) == c
}

/// Calls `str::to_lowercase`.  On ASCII text its result is stated (std
/// lowers `A`-`Z` and keeps the other ASCII characters); on other text it is
/// named, as [`lowercase`] of the argument, and the one fact stated of it is
/// that, being the lowercase equivalent of the text, it holds no `A`-`Z`.
/// The Unicode mapping itself is left unsaid.
#[verifier::external_body]
pub(crate) fn to_lowercase(s: &str) -> (r: String)
    ensures
        all_ascii(s@) ==> r@ == s@.map_values(|c: char| ascii_lower(c)),
        !all_ascii(s@) ==> r@ == lowercase(s@),
        forall|i: int| 0 <= i < r@.len() ==> no_capital(#[trigger] r@[i]),
{
    s.to_lowercase()
}

/// What `str::to_uppercase` returns for a string: its Unicode uppercase
/// mapping, which depends on the string alone.
pub uninterp spec fn uppercase(s: Seq<char>) -> Seq<char>;

/// `c` with `a`-`z` raised.
pub open spec fn ascii_upper(c: char) -> char {
    if 'a' <= c && c <= 'z' {
        ((c as u32) - 32) as char
    } else {
        c
    }
}

/// What `str::to_uppercase` returns: on ASCII text, `a`-`z` raised
/// character by character and the rest kept; on other text, the Unicode
/// uppercase mapping, which is only named.
pub open spec fn upper(s: Seq<char>) -> Seq<char> {
    if all_ascii(s) {
        s.map_values(|c: char| ascii_upper(c))
    } else {
        uppercase(s)
    }
}

/// Calls `str::to_uppercase`.  On ASCII text its result is stated (std
/// raises `a`-`z` and keeps the other ASCII characters); on other text it is
/// only named, as [`uppercase`] of the argument: the Unicode mapping itself
/// is left unsaid.
#[verifier::external_body]
pub(crate) fn to_uppercase(s: &str) -> (r: String)
    ensures
        all_ascii(s@) ==> r@ == s@.map_values(|c: char| ascii_upper(c)),
        !all_ascii(s@) ==> r@ == uppercase(s@),
{
    s.to_uppercase()
}

/// The character of a decimal digit.
pub open spec fn digit_char(d: nat) -> char {
    (48 + d) as char
}

/// The decimal representation of `n`, without leading zeros.
pub open spec fn decimal(n: nat) -> Seq<char>
    decreases n,
{
    if n < 10 {
        seq![digit_char(n)]
    } else {
        decimal(n / 10).push(digit_char(n % 10))
    }
}

/// `s` left-padded with zeros to at least `w` characters.
pub open spec fn zero_pad(s: Seq<char>, w: nat) -> Seq<char> {
    if s.len() < w {
        Seq::new((w - s.len()) as nat, |i: int| '0') + s
    } else {
        s
    }
}

fn digit(d: u64) -> (c: char)
    requires
        d < 10,
    ensures
        c == digit_char(d as nat),
{
    char_from_ascii((48 + d) as u32)
}

/// The decimal digits of `n`.
pub fn decimal_chars(n: u64) -> (res: Vec<char>)
    ensures
        res@ == decimal(n as nat),
    decreases n,
{
    if n < 10 {
        let v = vec![digit(n)];
        assert(v@ =~= decimal(n as nat));
        v
    } else {
        let mut v = decimal_chars(n / 10);
        v.push(digit(n % 10));
        v
    }
}

/// The decimal digits of `n`, zero-padded to at least `w` characters.
pub fn padded_decimal(n: u64, w: usize) -> (res: Vec<char>)
    ensures
        res@ == zero_pad(decimal(n as nat), w as nat),
{
    let d = decimal_chars(n);
    if d.len() < w {
        let mut z: Vec<char> = Vec::new();
        let k: usize = w - d.len();
        let mut i: usize = 0;
        while i < k
            invariant
                i <= k,
                z@ =~= Seq::new(i as nat, |j: int| '0'),
            decreases k - i,
        {
            z.push('0');
            i += 1;
        }
        let r = concat(&z, &d);
        assert(r@ =~= zero_pad(decimal(n as nat), w as nat));
        r
    } else {
        d
    }
}


// ------------------------------------------------------------------
// Ordering
// ------------------------------------------------------------------

/// Lexicographic order by Unicode scalar value (for UTF-8 text the same
/// as the byte order of `str` and of file names).
pub open spec fn chars_lt(a: Seq<char>, b: Seq<char>) -> bool
    decreases a.len(),
{
    if b.len() == 0 {
        false
    } else if a.len() == 0 {
        true
    } else if a[0] != b[0] {
        a[0] < b[0]
    } else {
        chars_lt(a.drop_first(), b.drop_first())
    }
}

pub proof fn lemma_chars_lt_irrefl(a: Seq<char>)
    ensures
        !chars_lt(a, a),
    decreases a.len(),
{
    if a.len() > 0 {
        lemma_chars_lt_irrefl(a.drop_first());
    }
}

pub proof fn lemma_chars_lt_total(a: Seq<char>, b: Seq<char>)
    ensures
        a != b ==> chars_lt(a, b) || chars_lt(b, a),
        !(chars_lt(a, b) && chars_lt(b, a)),
        !chars_lt(a, a),
    decreases a.len(),
{
    lemma_chars_lt_irrefl(a);
    if a.len() > 0 && b.len() > 0 {
        lemma_chars_lt_total(a.drop_first(), b.drop_first());
        if a[0] == b[0] && a.drop_first() == b.drop_first() {
            assert forall|i: int| 0 <= i < a.len() implies a[i] == b[i] by {
                if i > 0 {
                    assert(a[i] == a.drop_first()[i - 1]);
                    assert(b[i] == b.drop_first()[i - 1]);
                }
            }
            assert(a =~= b);
        }
    } else if a.len() == 0 && b.len() == 0 {
        assert(a =~= b);
    }
}

pub proof fn lemma_chars_lt_trans(a: Seq<char>, b: Seq<char>, c: Seq<char>)
    requires
        chars_lt(a, b),
        chars_lt(b, c),
    ensures
        chars_lt(a, c),
    decreases a.len(),
{
    if a.len() > 0 && b.len() > 0 && c.len() > 0 && a[0] == b[0] && b[0] == c[0] {
        lemma_chars_lt_trans(a.drop_first(), b.drop_first(), c.drop_first());
    }
}

/// `order` lists `0..keys.len()` once each, sorted by key, equal keys in
/// their original order.
pub open spec fn is_stable_order(keys: Seq<Seq<char>>, order: Seq<usize>) -> bool {
    &&& order.len() == keys.len()
    &&& forall|i: int| 0 <= i < order.len() ==> #[trigger] order[i] < keys.len()
    &&& order.no_duplicates()
    &&& forall|i: int, j: int|
        0 <= i < j < order.len() ==> chars_lt(keys[order[i] as int], keys[order[j] as int]) || (
        keys[order[i] as int] == keys[order[j] as int] && order[i] < order[j])
}

/// The positions of `keys` in ascending key order (a stable insertion sort).
pub fn sort_order(keys: &Vec<Vec<char>>) -> (order: Vec<usize>)
    ensures
        is_stable_order(views(keys@), order@),
{
    let ghost k = views(keys@);
    let mut order: Vec<usize> = Vec::new();
    let mut m: usize = 0;
    while m < keys.len()
        invariant
            m <= keys@.len(),
            k == views(keys@),
            order@.len() == m,
            forall|i: int| 0 <= i < order@.len() ==> #[trigger] order@[i] < m,
            order@.no_duplicates(),
            forall|i: int, j: int|
                0 <= i < j < order@.len() ==> chars_lt(k[order@[i] as int], k[order@[j] as int])
                    || (k[order@[i] as int] == k[order@[j] as int] && order@[i] < order@[j]),
        decreases keys@.len() - m,
    {
        let mut p: usize = order.len();
        while p > 0 && less_than(&keys[m], &keys[order[p - 1]])
            invariant
                p <= order@.len(),
                order@.len() == m,
                m < keys@.len(),
                k == views(keys@),
                forall|i: int| 0 <= i < order@.len() ==> #[trigger] order@[i] < m,
                forall|q: int| p <= q < order@.len() ==> chars_lt(k[m as int], #[trigger] k[order@[q] as int]),
            decreases p,
        {
            p -= 1;
        }
        let ghost old_order = order@;
        proof {
            if p > 0 {
                assert(!chars_lt(k[m as int], k[old_order[p - 1] as int]));
            }
            assert forall|q: int| 0 <= q < p implies !chars_lt(k[m as int], #[trigger] k[old_order[q] as int]) by {
                if q < p - 1 {
                    let e = k[old_order[q] as int];
                    let f = k[old_order[p - 1] as int];
                    lemma_chars_lt_total(e, f);
                    lemma_chars_lt_total(k[m as int], f);
                    if chars_lt(k[m as int], e) {
                        if chars_lt(e, f) {
                            lemma_chars_lt_trans(k[m as int], e, f);
                        }
                    }
                }
            }
        }
        order.insert(p, m);
        proof {
            old_order.insert_ensures(p as int, m);
            assert forall|i: int| 0 <= i < order@.len() implies #[trigger] order@[i] < m + 1 by {
                if i < p {
                } else if i > p {
                    assert(order@[i] == old_order[i - 1]);
                }
            }
            assert forall|i: int, j: int|
                0 <= i < order@.len() && 0 <= j < order@.len() && i != j implies order@[i]
                != order@[j] by {
                if i != p && j != p {
                    let oi = if i < p { i } else { i - 1 };
                    let oj = if j < p { j } else { j - 1 };
                    assert(order@[i] == old_order[oi]);
                    assert(order@[j] == old_order[oj]);
                } else if i == p {
                    let oj = if j < p { j } else { j - 1 };
                    assert(order@[j] == old_order[oj]);
                } else {
                    let oi = if i < p { i } else { i - 1 };
                    assert(order@[i] == old_order[oi]);
                }
            }
            assert forall|i: int, j: int| 0 <= i < j < order@.len() implies chars_lt(
                k[order@[i] as int],
                k[order@[j] as int],
            ) || (k[order@[i] as int] == k[order@[j] as int] && order@[i] < order@[j]) by {
                if i < p && j < p {
                    assert(order@[i] == old_order[i] && order@[j] == old_order[j]);
                } else if i > p && j > p {
                    assert(order@[i] == old_order[i - 1] && order@[j] == old_order[j - 1]);
                } else if i < p && j == p {
                    let e = k[old_order[i] as int];
                    assert(order@[i] == old_order[i]);
                    lemma_chars_lt_total(e, k[m as int]);
                } else if i < p && j > p {
                    assert(order@[i] == old_order[i] && order@[j] == old_order[j - 1]);
                } else {
                    assert(i == p && j > p);
                    assert(order@[j] == old_order[j - 1]);
                }
            }
        }
        m += 1;
    }
    order
}

/// Whether `a` sorts before `b`.
pub fn less_than(a: &Vec<char>, b: &Vec<char>) -> (res: bool)
    ensures
        res == chars_lt(a@, b@),
{
    let mut i: usize = 0;
    assert(a@.skip(0) =~= a@);
    assert(b@.skip(0) =~= b@);
    while i < a.len() && i < b.len() && a[i] == b[i]
        invariant
            i <= a@.len(),
            i <= b@.len(),
            chars_lt(a@, b@) == chars_lt(a@.skip(i as int), b@.skip(i as int)),
        decreases a@.len() - i,
    {
        proof {
            assert(a@.skip(i as int).drop_first() =~= a@.skip(i + 1));
            assert(b@.skip(i as int).drop_first() =~= b@.skip(i + 1));
        }
        i += 1;
    }
    if i == b.len() {
        false
    } else if i == a.len() {
        true
    } else {
        a[i] < b[i]
    }
}


// ------------------------------------------------------------------
// Facts about splitting, lines and joining
// ------------------------------------------------------------------

/// `c` does not occur in `s`.
pub open spec fn free_of(s: Seq<char>, c: char) -> bool {
    forall|i: int| 0 <= i < s.len() ==> s[i] != c
}

/// A piece without the separator is split into itself.
pub proof fn lemma_split_free(s: Seq<char>, c: char)
    requires
        free_of(s, c),
    ensures
        split_on(s, c) == seq![s],
    decreases s.len(),
{
    if s.len() > 0 {
        lemma_split_free(s.drop_last(), c);
        assert(s.drop_last().push(s.last()) =~= s);
        assert(seq![s.drop_last()].update(0, s.drop_last().push(s.last())) =~= seq![s]);
    } else {
        assert(s =~= Seq::<char>::empty());
    }
}

/// Splitting text that follows a separator.
pub proof fn lemma_split_concat(a: Seq<char>, b: Seq<char>, c: char)
    requires
        a.len() > 0,
        a.last() == c,
    ensures
        split_on(a + b, c) == split_on(a, c).drop_last() + split_on(b, c),
        split_on(a, c).last() == Seq::<char>::empty(),
    decreases b.len(),
{
    lemma_split_on_len(a, c);
    lemma_split_on_len(b, c);
    if b.len() == 0 {
        assert(a + b =~= a);
        assert(split_on(a, c) =~= split_on(a.drop_last(), c).push(Seq::empty()));
        assert(split_on(b, c) =~= seq![Seq::<char>::empty()]);
        assert(split_on(a, c).drop_last() + split_on(b, c) =~= split_on(a, c));
    } else {
        lemma_split_concat(a, b.drop_last(), c);
        lemma_split_on_len(b.drop_last(), c);
        assert((a + b).drop_last() =~= a + b.drop_last());
        assert((a + b).last() == b.last());
        let p = split_on(a + b.drop_last(), c);
        let q = split_on(b.drop_last(), c);
        let pre = split_on(a, c).drop_last();
        assert(p == pre + q);
        if b.last() == c {
            assert(split_on(a + b, c) == p.push(Seq::empty()));
            assert(split_on(b, c) == q.push(Seq::empty()));
            assert(p.push(Seq::empty()) =~= pre + q.push(Seq::empty()));
        } else {
            assert(split_on(a + b, c) == p.update(p.len() - 1, p.last().push(b.last())));
            assert(split_on(b, c) == q.update(q.len() - 1, q.last().push(b.last())));
            assert(p.update(p.len() - 1, p.last().push(b.last())) =~= pre + q.update(
                q.len() - 1,
                q.last().push(b.last()),
            ));
        }
    }
    assert(split_on(a, c) == split_on(a.drop_last(), c).push(Seq::empty()));
}

/// Splitting undoes joining, when no piece holds the separator.
pub proof fn lemma_split_join(ps: Seq<Seq<char>>, c: char)
    requires
        ps.len() > 0,
        forall|i: int| 0 <= i < ps.len() ==> free_of(#[trigger] ps[i], c),
    ensures
        split_on(join(ps, seq![c]), c) == ps,
    decreases ps.len(),
{
    if ps.len() == 1 {
        lemma_split_free(ps[0], c);
        assert(seq![ps[0]] =~= ps);
    } else {
        let init = ps.drop_last();
        assert forall|i: int| 0 <= i < init.len() implies free_of(#[trigger] init[i], c) by {
            assert(init[i] == ps[i]);
        }
        lemma_split_join(init, c);
        let a = join(init, seq![c]) + seq![c];
        assert(join(ps, seq![c]) == a + ps.last());
        lemma_split_concat(a, ps.last(), c);
        assert(a.drop_last() =~= join(init, seq![c]));
        assert(split_on(a, c) == split_on(join(init, seq![c]), c).push(Seq::empty()));
        lemma_split_free(ps.last(), c);
        assert(split_on(a, c).drop_last() =~= init);
        assert(init + seq![ps.last()] =~= ps);
    }
}

/// The lines of text that follows a line break are lines of their own.
pub proof fn lemma_lines_concat(a: Seq<char>, b: Seq<char>)
    requires
        a.len() == 0 || a.last() == '\n',
    ensures
        lines(a + b) == lines(a) + lines(b),
{
    if a.len() == 0 {
        assert(a + b =~= b);
        assert(lines(a) =~= Seq::<Seq<char>>::empty());
        assert(lines(a) + lines(b) =~= lines(b));
    } else if b.len() == 0 {
        assert(a + b =~= a);
        assert(lines(a) + lines(b) =~= lines(a));
    } else {
        lemma_split_concat(a, b, '\n');
        lemma_split_on_len(a, '\n');
        lemma_split_on_len(b, '\n');
        let pa = split_on(a, '\n');
        let pb = split_on(b, '\n');
        let p = split_on(a + b, '\n');
        assert((a + b).last() == b.last());
        let la = lines(a);
        let lb = lines(b);
        assert(la.len() == pa.len() - 1);
        assert forall|i: int| 0 <= i < lines(a + b).len() implies #[trigger] lines(a + b)[i] == (la
            + lb)[i] by {
            if i < la.len() {
                assert(p[i] == pa[i]);
            } else {
                assert(p[i] == pb[i - la.len()]);
            }
        }
        assert(lines(a + b) =~= la + lb);
    }
}

/// A line without a break, followed by one.
pub proof fn lemma_lines_single(x: Seq<char>)
    requires
        free_of(x, '\n'),
    ensures
        lines(x + seq!['\n']) == seq![strip_cr(x)],
        x.len() > 0 ==> lines(x) == seq![x],
{
    lemma_split_free(x, '\n');
    let s = x + seq!['\n'];
    assert(s.drop_last() =~= x);
    assert(split_on(s, '\n') == split_on(x, '\n').push(Seq::empty()));
    assert(lines(s) =~= seq![strip_cr(x)]);
    if x.len() > 0 {
        assert(lines(x) =~= seq![x]);
    }
}

/// The lines of joined pieces, each followed by a break.
pub proof fn lemma_lines_unlines(ls: Seq<Seq<char>>)
    requires
        forall|i: int| 0 <= i < ls.len() ==> free_of(#[trigger] ls[i], '\n'),
    ensures
        lines(unlines(ls)) == Seq::new(ls.len(), |i: int| strip_cr(ls[i])),
    decreases ls.len(),
{
    if ls.len() == 0 {
        assert(lines(unlines(ls)) =~= Seq::new(ls.len(), |i: int| strip_cr(ls[i])));
    } else {
        let init = ls.drop_last();
        assert forall|i: int| 0 <= i < init.len() implies free_of(#[trigger] init[i], '\n') by {
            assert(init[i] == ls[i]);
        }
        lemma_lines_unlines(init);
        let u = unlines(init);
        assert(unlines(ls) == u + ls.last() + seq!['\n']);
        assert(u.len() == 0 || u.last() == '\n') by {
            if init.len() > 0 {
                assert(unlines(init) == unlines(init.drop_last()) + init.last() + seq!['\n']);
            }
        }
        assert(u + ls.last() + seq!['\n'] =~= u + (ls.last() + seq!['\n']));
        lemma_lines_concat(u, ls.last() + seq!['\n']);
        lemma_lines_single(ls.last());
        assert(lines(unlines(ls)) =~= Seq::new(ls.len(), |i: int| strip_cr(ls[i])));
    }
}

/// Every line of `s` is one of the pieces between its breaks, or such a
/// piece without its carriage return.
pub proof fn lemma_lines_pieces(s: Seq<char>)
    ensures
        forall|i: int|
            0 <= i < lines(s).len() ==> #[trigger] lines(s)[i] == split_on(s, '\n')[i] || lines(
                s,
            )[i] == strip_cr(split_on(s, '\n')[i]),
        lines(s).len() <= split_on(s, '\n').len(),
{
    lemma_split_on_len(s, '\n');
}

/// A piece of a split holds no separator.
pub proof fn lemma_split_pieces_free(s: Seq<char>, c: char)
    ensures
        forall|i: int| 0 <= i < split_on(s, c).len() ==> free_of(#[trigger] split_on(s, c)[i], c),
    decreases s.len(),
{
    lemma_split_on_len(s, c);
    if s.len() > 0 {
        lemma_split_pieces_free(s.drop_last(), c);
        lemma_split_on_len(s.drop_last(), c);
        let p = split_on(s.drop_last(), c);
        if s.last() != c {
            assert forall|i: int| 0 <= i < split_on(s, c).len() implies free_of(
                #[trigger] split_on(s, c)[i],
                c,
            ) by {
                if i == p.len() - 1 {
                    let l = p.last().push(s.last());
                    assert(free_of(p[i], c));
                    assert forall|j: int| 0 <= j < l.len() implies l[j] != c by {
                        if j < l.len() - 1 {
                            assert(l[j] == p[i][j]);
                        }
                    }
                }
            }
        } else {
            assert forall|i: int| 0 <= i < split_on(s, c).len() implies free_of(
                #[trigger] split_on(s, c)[i],
                c,
            ) by {
                if i < p.len() {
                    assert(split_on(s, c)[i] == p[i]);
                }
            }
        }
    }
}

/// No line holds a line break.
pub proof fn lemma_lines_free(s: Seq<char>)
    ensures
        forall|i: int| 0 <= i < lines(s).len() ==> free_of(#[trigger] lines(s)[i], '\n'),
{
    lemma_split_pieces_free(s, '\n');
    lemma_lines_pieces(s);
    assert forall|i: int| 0 <= i < lines(s).len() implies free_of(#[trigger] lines(s)[i], '\n') by {
        let p = split_on(s, '\n')[i];
        assert(free_of(p, '\n'));
        if lines(s)[i] != p {
            assert forall|j: int| 0 <= j < lines(s)[i].len() implies lines(s)[i][j] != '\n' by {
                assert(lines(s)[i][j] == p[j]);
            }
        }
    }
}

/// A prefix of a text without `needle` is without it too.
pub proof fn lemma_contains_prefix(s: Seq<char>, n: int, needle: Seq<char>)
    requires
        0 <= n <= s.len(),
        !contains(s, needle),
    ensures
        !contains(s.take(n), needle),
{
    if contains(s.take(n), needle) {
        let i = choose|i: int| matches_at(s.take(n), needle, i);
        assert(s.subrange(i, i + needle.len()) =~= s.take(n).subrange(i, i + needle.len()));
        assert(matches_at(s, needle, i));
    }
}


/// The first match, characterized.
pub proof fn lemma_first_match_is(s: Seq<char>, p: Seq<char>, n: int)
    requires
        matches_at(s, p, n),
        forall|m: int| 0 <= m < n ==> !matches_at(s, p, m),
    ensures
        first_match_from(s, p, 0) == Some(n),
{
    lemma_first_match_at(s, p, n, 0);
}

proof fn lemma_first_match_at(s: Seq<char>, p: Seq<char>, n: int, i: int)
    requires
        0 <= i <= n,
        matches_at(s, p, n),
        forall|m: int| 0 <= m < n ==> !matches_at(s, p, m),
    ensures
        first_match_from(s, p, i) == Some(n),
    decreases n - i,
{
    if i < n {
        lemma_first_match_at(s, p, n, i + 1);
    }
}

/// The first occurrence of a character, characterized.
pub proof fn lemma_find_char_is(s: Seq<char>, c: char, n: int)
    requires
        0 <= n < s.len(),
        s[n] == c,
        forall|m: int| 0 <= m < n ==> s[m] != c,
    ensures
        find_char(s, c) == Some(n),
{
    lemma_find_char_at(s, c, n, 0);
}

proof fn lemma_find_char_at(s: Seq<char>, c: char, n: int, i: int)
    requires
        0 <= i <= n < s.len(),
        s[n] == c,
        forall|m: int| 0 <= m < n ==> s[m] != c,
    ensures
        find_char_from(s, c, i) == Some(n),
    decreases n - i,
{
    if i < n {
        lemma_find_char_at(s, c, n, i + 1);
    }
}

/// `has_suffix` with a one-character suffix.
pub proof fn lemma_has_suffix_char(s: Seq<char>, c: char)
    ensures
        has_suffix(s, seq![c]) <==> (s.len() > 0 && s.last() == c),
{
    if s.len() > 0 {
        if s.last() == c {
            assert(s.skip(s.len() - 1) =~= seq![c]);
        } else {
            assert(s.skip(s.len() - 1)[0] == s.last());
        }
    }
}

/// Joining the pieces of a split gives the text back.
pub proof fn lemma_join_split(s: Seq<char>, c: char)
    ensures
        join(split_on(s, c), seq![c]) == s,
    decreases s.len(),
{
    if s.len() == 0 {
        assert(join(seq![Seq::<char>::empty()], seq![c]) == Seq::<char>::empty());
        assert(s =~= Seq::<char>::empty());
    } else {
        let init = s.drop_last();
        lemma_join_split(init, c);
        lemma_split_on_len(init, c);
        let p = split_on(init, c);
        if s.last() == c {
            assert(split_on(s, c) == p.push(Seq::empty()));
            assert(p.push(Seq::<char>::empty()).drop_last() =~= p);
            assert(join(p.push(Seq::empty()), seq![c]) == join(p, seq![c]) + seq![c] + Seq::<
                char,
            >::empty());
            assert(init + seq![c] + Seq::<char>::empty() =~= s);
        } else {
            let q = p.update(p.len() - 1, p.last().push(s.last()));
            assert(split_on(s, c) == q);
            if p.len() == 1 {
                assert(join(p, seq![c]) == p[0]);
                assert(join(q, seq![c]) == q[0]);
                assert(q[0] =~= s);
            } else {
                assert(q.drop_last() =~= p.drop_last());
                assert(join(q, seq![c]) == join(p.drop_last(), seq![c]) + seq![c] + p.last().push(
                    s.last(),
                ));
                assert(join(p, seq![c]) == join(p.drop_last(), seq![c]) + seq![c] + p.last());
                assert(join(q, seq![c]) =~= join(p, seq![c]).push(s.last()));
                assert(init.push(s.last()) =~= s);
            }
        }
    }
}

} // verus!
