//! Scanners for the annotation grammar: comment markers, `name:` and
//! `param:` directives, placeholder occurrences and variant-selector tokens.
//!
//! Every scanner has a specification function over `Seq<char>` that states
//! exactly what it recognizes, and an executable counterpart proved to return
//! the same answer.

use vstd::prelude::*;
use crate::chars::{
    is_space, is_alpha, is_word, is_space_char, is_alpha_char, is_word_char, chars_to_string,
};

verus! {

/// First index at or after `i` holding a non-whitespace character (or the
/// index where the scan gave up: the length, or `i` itself when out of range).
pub open spec fn skip_spaces(s: Seq<char>, i: int) -> int
    decreases s.len() - i,
{
    if i < 0 || i >= s.len() || !is_space(s[i]) {
        i
    } else {
        skip_spaces(s, i + 1)
    }
}

/// First index at or after `i` holding a non-word character (or the length).
pub open spec fn word_end(s: Seq<char>, i: int) -> int
    decreases s.len() - i,
{
    if i < 0 || i >= s.len() {
        s.len() as int
    } else if is_word(s[i]) {
        word_end(s, i + 1)
    } else {
        i
    }
}

/// First index at or after `i` holding a whitespace character (or the length).
pub open spec fn nonspace_end(s: Seq<char>, i: int) -> int
    decreases s.len() - i,
{
    if i < 0 || i >= s.len() {
        s.len() as int
    } else if !is_space(s[i]) {
        nonspace_end(s, i + 1)
    } else {
        i
    }
}

/// First index at or after `i` holding a newline (or the length).
pub open spec fn find_nl(s: Seq<char>, i: int) -> int
    decreases s.len() - i,
{
    if i < 0 || i >= s.len() {
        s.len() as int
    } else if s[i] == '\n' {
        i
    } else {
        find_nl(s, i + 1)
    }
}

pub proof fn lemma_find_nl_bounds(s: Seq<char>, i: int)
    requires
        0 <= i <= s.len(),
    ensures
        i <= find_nl(s, i) <= s.len(),
    decreases s.len() - i,
{
    if i < s.len() && s[i] != '\n' {
        lemma_find_nl_bounds(s, i + 1);
    }
}

pub fn find_nl_in(cs: &Vec<char>, from: usize) -> (r: usize)
    requires
        from <= cs@.len(),
    ensures
        r as int == find_nl(cs@, from as int),
        from <= r <= cs@.len(),
{
    let n = cs.len();
    let mut j = from;
    while j < n && cs[j] != '\n'
        invariant
            from <= j <= n,
            n == cs@.len(),
            find_nl(cs@, from as int) == find_nl(cs@, j as int),
        decreases n - j,
    {
        j = j + 1;
    }
    j
}

/// Whether `pat` occurs in `s` starting exactly at index `i`.
pub open spec fn starts_with_at(s: Seq<char>, i: int, pat: Seq<char>) -> bool {
    0 <= i && i + pat.len() <= s.len() && s.subrange(i, i + pat.len() as int) == pat
}

pub proof fn lemma_skip_spaces_bounds(s: Seq<char>, i: int)
    requires
        0 <= i <= s.len(),
    ensures
        i <= skip_spaces(s, i) <= s.len(),
    decreases s.len() - i,
{
    if i < s.len() && is_space(s[i]) {
        lemma_skip_spaces_bounds(s, i + 1);
    }
}

pub proof fn lemma_word_end_bounds(s: Seq<char>, i: int)
    requires
        0 <= i <= s.len(),
    ensures
        i <= word_end(s, i) <= s.len(),
    decreases s.len() - i,
{
    if i < s.len() && is_word(s[i]) {
        lemma_word_end_bounds(s, i + 1);
    }
}

pub fn skip_spaces_in(cs: &Vec<char>, from: usize) -> (r: usize)
    requires
        from <= cs@.len(),
    ensures
        r as int == skip_spaces(cs@, from as int),
        from <= r <= cs@.len(),
{
    let n = cs.len();
    let mut j = from;
    while j < n && is_space_char(cs[j])
        invariant
            from <= j <= n,
            n == cs@.len(),
            skip_spaces(cs@, from as int) == skip_spaces(cs@, j as int),
        decreases n - j,
    {
        j = j + 1;
    }
    j
}

pub fn word_end_in(cs: &Vec<char>, from: usize) -> (r: usize)
    requires
        from <= cs@.len(),
    ensures
        r as int == word_end(cs@, from as int),
        from <= r <= cs@.len(),
{
    let n = cs.len();
    let mut j = from;
    while j < n && is_word_char(cs[j])
        invariant
            from <= j <= n,
            n == cs@.len(),
            word_end(cs@, from as int) == word_end(cs@, j as int),
        decreases n - j,
    {
        j = j + 1;
    }
    j
}

pub fn nonspace_end_in(cs: &Vec<char>, from: usize) -> (r: usize)
    requires
        from <= cs@.len(),
    ensures
        r as int == nonspace_end(cs@, from as int),
        from <= r <= cs@.len(),
{
    let n = cs.len();
    let mut j = from;
    while j < n && !is_space_char(cs[j])
        invariant
            from <= j <= n,
            n == cs@.len(),
            nonspace_end(cs@, from as int) == nonspace_end(cs@, j as int),
        decreases n - j,
    {
        j = j + 1;
    }
    j
}

/// Copy of the characters in `[from, to)`.
pub fn copy_range(cs: &Vec<char>, from: usize, to: usize) -> (r: Vec<char>)
    requires
        from <= to <= cs@.len(),
    ensures
        r@ == cs@.subrange(from as int, to as int),
{
    let mut r: Vec<char> = Vec::new();
    let mut j = from;
    while j < to
        invariant
            from <= j <= to <= cs@.len(),
            r@ == cs@.subrange(from as int, j as int),
        decreases to - j,
    {
        r.push(cs[j]);
        proof {
            assert(cs@.subrange(from as int, j as int).push(cs@[j as int]) =~= cs@.subrange(
                from as int,
                j + 1 as int,
            ));
        }
        j = j + 1;
    }
    r
}

/// The `String` holding the characters in `[from, to)`.
pub fn string_range(cs: &Vec<char>, from: usize, to: usize) -> (r: String)
    requires
        from <= to <= cs@.len(),
    ensures
        r@ == cs@.subrange(from as int, to as int),
{
    let v = copy_range(cs, from, to);
    chars_to_string(&v)
}

// ---------------------------------------------------------------------------
// Full-line comments and trailing comments
// ---------------------------------------------------------------------------

/// Where the body of a full-line comment starts: the line's first
/// non-whitespace content must be the `--` marker; the body is what follows.
pub open spec fn comment_body_start(line: Seq<char>) -> Option<int> {
    let k = skip_spaces(line, 0);
    if k + 2 <= line.len() && line[k] == '-' && line[k + 1] == '-' {
        Some(k + 2)
    } else {
        None
    }
}

/// If the line's first non-whitespace content is the `--` marker, the body
/// after the marker; otherwise `None`.
pub fn comment_body_of(line: &Vec<char>) -> (r: Option<Vec<char>>)
    ensures
        (match comment_body_start(line@) {
            Some(k) => r matches Some(v) && v@ == line@.subrange(k, line@.len() as int),
            None => r is None,
        }),
{
    let n = line.len();
    let k = skip_spaces_in(line, 0);
    if k < n && line[k] == '-' {
        if k + 1 < n && line[k + 1] == '-' {
            return Some(copy_range(line, k + 2, n));
        }
    }
    None
}

/// First index at or after `i` where `--` occurs.
pub open spec fn find_dashes(s: Seq<char>, i: int) -> Option<int>
    decreases s.len() - i,
{
    if i < 0 || i + 2 > s.len() {
        None
    } else if s[i] == '-' && s[i + 1] == '-' {
        Some(i)
    } else {
        find_dashes(s, i + 1)
    }
}

/// Start of the maximal whitespace run that ends just before index `q`.
pub open spec fn space_run_start(s: Seq<char>, q: int) -> int
    decreases q,
{
    if q <= 0 {
        0
    } else if is_space(s[q - 1]) {
        space_run_start(s, q - 1)
    } else {
        q
    }
}

/// A code line truncated at its trailing comment: everything from the first
/// `--` on is cut, together with the whitespace run just before it.
pub open spec fn strip_tail_comment(line: Seq<char>) -> Seq<char> {
    match find_dashes(line, 0) {
        None => line,
        Some(q) => line.subrange(0, space_run_start(line, q)),
    }
}

pub fn strip_tail_comment_in(line: &Vec<char>) -> (r: Vec<char>)
    ensures
        r@ == strip_tail_comment(line@),
{
    let n = line.len();
    let mut j: usize = 0;
    while n - j >= 2 && !(line[j] == '-' && line[j + 1] == '-')
        invariant
            0 <= j <= n,
            n == line@.len(),
            find_dashes(line@, 0) == find_dashes(line@, j as int),
        decreases n - j,
    {
        j = j + 1;
    }
    if n - j < 2 {
        // no trailing comment
        return copy_range(line, 0, n);
    }
    // j is the first occurrence of `--`; back off the whitespace run before it
    let mut p = j;
    while p > 0 && is_space_char(line[p - 1])
        invariant
            0 <= p <= j,
            n == line@.len(),
            j + 2 <= n,
            space_run_start(line@, j as int) == space_run_start(line@, p as int),
        decreases p,
    {
        p = p - 1;
    }
    copy_range(line, 0, p)
}

// ---------------------------------------------------------------------------
// Name directives
// ---------------------------------------------------------------------------

pub open spec fn name_tag() -> Seq<char> {
    seq!['n', 'a', 'm', 'e', ':']
}

pub open spec fn param_tag() -> Seq<char> {
    seq!['p', 'a', 'r', 'a', 'm', ':']
}

/// The characters a variant selector may consist of.
pub open spec fn is_variant_symbol(c: char) -> bool {
    c == '!' || c == '#' || c == '$' || c == '%' || c == '&' || c == '*' || c == '+' || c == '.'
        || c == '/' || c == ':' || c == '<' || c == '=' || c == '>' || c == '?' || c == '@' || c
        == '^' || c == '|' || c == '~' || c == '-'
}

/// First index at or after `i` holding a non-variant-symbol character
/// (or the length).
pub open spec fn variant_end(s: Seq<char>, i: int) -> int
    decreases s.len() - i,
{
    if i < 0 || i >= s.len() {
        s.len() as int
    } else if is_variant_symbol(s[i]) {
        variant_end(s, i + 1)
    } else {
        i
    }
}

pub fn is_variant_symbol_char(c: char) -> (b: bool)
    ensures
        b == is_variant_symbol(c),
{
    c == '!' || c == '#' || c == '$' || c == '%' || c == '&' || c == '*' || c == '+' || c == '.'
        || c == '/' || c == ':' || c == '<' || c == '=' || c == '>' || c == '?' || c == '@' || c
        == '^' || c == '|' || c == '~' || c == '-'
}

pub fn variant_end_in(cs: &Vec<char>, from: usize) -> (r: usize)
    requires
        from <= cs@.len(),
    ensures
        r as int == variant_end(cs@, from as int),
        from <= r <= cs@.len(),
{
    let n = cs.len();
    let mut j = from;
    while j < n && is_variant_symbol_char(cs[j])
        invariant
            from <= j <= n,
            n == cs@.len(),
            variant_end(cs@, from as int) == variant_end(cs@, j as int),
        decreases n - j,
    {
        j = j + 1;
    }
    j
}

/// Whether a name directive match begins at index `i` of a comment body:
/// the literal `name:` tag, optional whitespace, then a letter that opens
/// the statement name.
pub open spec fn name_match_at(c: Seq<char>, i: int) -> bool {
    starts_with_at(c, i, name_tag()) && ({
        let p = skip_spaces(c, i + 5);
        p < c.len() && is_alpha(c[p])
    })
}

/// First index at or after `i` where a name directive match begins.
pub open spec fn find_name_match(c: Seq<char>, i: int) -> Option<int>
    decreases c.len() - i,
{
    if i < 0 || i >= c.len() {
        None
    } else if name_match_at(c, i) {
        Some(i)
    } else {
        find_name_match(c, i + 1)
    }
}

/// What a comment body declares as a name directive, if anything: the
/// statement name (a letter followed by word characters) and the variant
/// selector run just after it (possibly empty).
pub open spec fn name_directive_of(c: Seq<char>) -> Option<(Seq<char>, Seq<char>)> {
    match find_name_match(c, 0) {
        None => None,
        Some(i) => {
            let p = skip_spaces(c, i + 5);
            let e = word_end(c, p + 1);
            let v = variant_end(c, e);
            Some((c.subrange(p, e), c.subrange(e, v)))
        },
    }
}

fn has_tag_at(cs: &Vec<char>, j: usize, tag: &Vec<char>) -> (b: bool)
    requires
        j <= cs@.len(),
    ensures
        b == starts_with_at(cs@, j as int, tag@),
{
    let n = cs.len();
    let m = tag.len();
    if n - j < m {
        return false;
    }
    let mut k: usize = 0;
    while k < m
        invariant
            0 <= k <= m,
            m == tag@.len(),
            j + m <= n,
            n == cs@.len(),
            forall|t: int| 0 <= t < k ==> cs@[j + t] == tag@[t],
        decreases m - k,
    {
        if cs[j + k] != tag[k] {
            return false;
        }
        k = k + 1;
    }
    proof {
        assert(cs@.subrange(j as int, j + m as int) =~= tag@);
    }
    true
}

fn name_tag_vec() -> (r: Vec<char>)
    ensures
        r@ == name_tag(),
{
    let mut r: Vec<char> = Vec::new();
    r.push('n');
    r.push('a');
    r.push('m');
    r.push('e');
    r.push(':');
    proof {
        assert(r@ =~= name_tag());
    }
    r
}

fn param_tag_vec() -> (r: Vec<char>)
    ensures
        r@ == param_tag(),
{
    let mut r: Vec<char> = Vec::new();
    r.push('p');
    r.push('a');
    r.push('r');
    r.push('a');
    r.push('m');
    r.push(':');
    proof {
        assert(r@ =~= param_tag());
    }
    r
}

/// Recognizes a name directive in a comment body; returns the statement name
/// and the (possibly empty) variant selector run.
pub fn find_name_directive(c: &Vec<char>) -> (r: Option<(String, String)>)
    ensures
        (match name_directive_of(c@) {
            Some(nv) => r matches Some(p) && p.0@ == nv.0 && p.1@ == nv.1,
            None => r is None,
        }),
{
    let n = c.len();
    let tag = name_tag_vec();
    let mut i: usize = 0;
    while i < n
        invariant
            0 <= i <= n,
            n == c@.len(),
            tag@ == name_tag(),
            find_name_match(c@, 0) == find_name_match(c@, i as int),
        decreases n - i,
    {
        if has_tag_at(c, i, &tag) {
            let p = skip_spaces_in(c, i + 5);
            if p < n && is_alpha_char(c[p]) {
                // a full name directive match at i
                let e = word_end_in(c, p + 1);
                let v = variant_end_in(c, e);
                let name = string_range(c, p, e);
                let variant = string_range(c, e, v);
                return Some((name, variant));
            }
        }
        i = i + 1;
    }
    None
}

// ---------------------------------------------------------------------------
// Parameter directives
// ---------------------------------------------------------------------------

/// Whether a parameter directive match begins at index `i` of a comment body:
/// the literal `param:` tag, a parameter name, a colon, and a type token.
pub open spec fn param_match_at(c: Seq<char>, i: int) -> bool {
    starts_with_at(c, i, param_tag()) && ({
        let p = skip_spaces(c, i + 6);
        p < c.len() && is_alpha(c[p]) && ({
            let e = word_end(c, p + 1);
            let q = skip_spaces(c, e);
            q < c.len() && c[q] == ':' && skip_spaces(c, q + 1) < c.len()
        })
    })
}

/// First index at or after `i` where a parameter directive match begins.
pub open spec fn find_param_match(c: Seq<char>, i: int) -> Option<int>
    decreases c.len() - i,
{
    if i < 0 || i >= c.len() {
        None
    } else if param_match_at(c, i) {
        Some(i)
    } else {
        find_param_match(c, i + 1)
    }
}

/// What a comment body declares as a parameter directive, if anything:
/// the parameter name (as written), the declared type token, and the
/// free description text after it.
pub open spec fn param_directive_of(c: Seq<char>) -> Option<(Seq<char>, Seq<char>, Seq<char>)> {
    match find_param_match(c, 0) {
        None => None,
        Some(i) => {
            let p = skip_spaces(c, i + 6);
            let e = word_end(c, p + 1);
            let q = skip_spaces(c, e);
            let t = skip_spaces(c, q + 1);
            let te = nonspace_end(c, t);
            let d = skip_spaces(c, te);
            Some((c.subrange(p, e), c.subrange(t, te), c.subrange(d, c.len() as int)))
        },
    }
}

/// Recognizes a parameter directive in a comment body; returns the parameter
/// name as written, the declared type token, and the description text.
pub fn find_param_directive(c: &Vec<char>) -> (r: Option<(String, String, String)>)
    ensures
        (match param_directive_of(c@) {
            Some(nt) => r matches Some(p) && p.0@ == nt.0 && p.1@ == nt.1 && p.2@ == nt.2,
            None => r is None,
        }),
{
    let n = c.len();
    let tag = param_tag_vec();
    let mut i: usize = 0;
    while i < n
        invariant
            0 <= i <= n,
            n == c@.len(),
            tag@ == param_tag(),
            find_param_match(c@, 0) == find_param_match(c@, i as int),
        decreases n - i,
    {
        if has_tag_at(c, i, &tag) {
            let p = skip_spaces_in(c, i + 6);
            if p < n && is_alpha_char(c[p]) {
                let e = word_end_in(c, p + 1);
                let q = skip_spaces_in(c, e);
                if q < n && c[q] == ':' {
                    let t = skip_spaces_in(c, q + 1);
                    if t < n {
                        // a full parameter directive match at i
                        let te = nonspace_end_in(c, t);
                        let d = skip_spaces_in(c, te);
                        let name = string_range(c, p, e);
                        let ptype = string_range(c, t, te);
                        let text = string_range(c, d, n);
                        return Some((name, ptype, text));
                    }
                }
            }
        }
        i = i + 1;
    }
    None
}

// ---------------------------------------------------------------------------
// Placeholder occurrences
// ---------------------------------------------------------------------------

/// A placeholder occurrence: `colon` is the index of its `:` sigil, the
/// name spans `(colon, name_end)`, and `is_list` tells an IN-list bind from
/// a scalar bind.
pub struct PlaceholderMatch {
    pub colon: int,
    pub name_end: int,
    pub is_list: bool,
}

/// Whether an IN-list placeholder pattern begins at index `j`: the word `in`
/// (any case, at a word boundary), then `(`, then a placeholder that is the
/// sole content before the closing `)`.
pub open spec fn list_match_at(s: Seq<char>, j: int) -> bool {
    &&& (j == 0 || !is_word(s[j - 1]))
    &&& j + 2 <= s.len()
    &&& (s[j] == 'i' || s[j] == 'I')
    &&& (s[j + 1] == 'n' || s[j + 1] == 'N')
    &&& ({
        let a = skip_spaces(s, j + 2);
        a < s.len() && s[a] == '(' && ({
            let b = skip_spaces(s, a + 1);
            b + 1 < s.len() && s[b] == ':' && is_alpha(s[b + 1]) && ({
                let e = word_end(s, b + 2);
                let r = skip_spaces(s, e);
                r < s.len() && s[r] == ')'
            })
        })
    })
}

/// Whether a scalar placeholder pattern begins at index `j`: the `:` sigil
/// immediately followed by a letter.
pub open spec fn plain_match_at(s: Seq<char>, j: int) -> bool {
    j + 1 < s.len() && s[j] == ':' && is_alpha(s[j + 1])
}

/// The leftmost placeholder occurrence at or after index `j`; at equal
/// starts the IN-list pattern is preferred over the scalar one.
pub open spec fn find_placeholder(s: Seq<char>, j: int) -> Option<PlaceholderMatch>
    decreases s.len() - j,
{
    if j < 0 || j >= s.len() {
        None
    } else if list_match_at(s, j) {
        let a = skip_spaces(s, j + 2);
        let b = skip_spaces(s, a + 1);
        Some(PlaceholderMatch { colon: b, name_end: word_end(s, b + 2), is_list: true })
    } else if plain_match_at(s, j) {
        Some(PlaceholderMatch { colon: j, name_end: word_end(s, j + 2), is_list: false })
    } else {
        find_placeholder(s, j + 1)
    }
}

pub proof fn lemma_find_placeholder_bounds(s: Seq<char>, j: int)
    requires
        0 <= j,
    ensures
        (match find_placeholder(s, j) {
            Some(m) => j <= m.colon && m.colon + 2 <= m.name_end && m.name_end <= s.len(),
            None => true,
        }),
    decreases s.len() - j,
{
    if j < s.len() {
        if list_match_at(s, j) {
            let a = skip_spaces(s, j + 2);
            lemma_skip_spaces_bounds(s, j + 2);
            let b = skip_spaces(s, a + 1);
            lemma_skip_spaces_bounds(s, a + 1);
            lemma_word_end_bounds(s, b + 2);
        } else if plain_match_at(s, j) {
            lemma_word_end_bounds(s, j + 2);
        } else {
            lemma_find_placeholder_bounds(s, j + 1);
        }
    }
}

fn try_list_match(cs: &Vec<char>, j: usize) -> (r: Option<(usize, usize)>)
    requires
        j < cs@.len(),
    ensures
        r is Some <==> list_match_at(cs@, j as int),
        (r matches Some(t) ==> ({
            let a = skip_spaces(cs@, j + 2);
            let b = skip_spaces(cs@, a + 1);
            t.0 as int == b && t.1 as int == word_end(cs@, b + 2)
        })),
{
    let n = cs.len();
    if j > 0 && is_word_char(cs[j - 1]) {
        return None;
    }
    if !(cs[j] == 'i' || cs[j] == 'I') {
        return None;
    }
    if j + 1 >= n {
        return None;
    }
    if !(cs[j + 1] == 'n' || cs[j + 1] == 'N') {
        return None;
    }
    let a = skip_spaces_in(cs, j + 2);
    if a >= n || cs[a] != '(' {
        return None;
    }
    let b = skip_spaces_in(cs, a + 1);
    if b >= n || cs[b] != ':' {
        return None;
    }
    if b + 1 >= n || !is_alpha_char(cs[b + 1]) {
        return None;
    }
    let e = word_end_in(cs, b + 2);
    let rp = skip_spaces_in(cs, e);
    if rp >= n || cs[rp] != ')' {
        return None;
    }
    Some((b, e))
}

fn try_plain_match(cs: &Vec<char>, j: usize) -> (r: Option<usize>)
    requires
        j < cs@.len(),
    ensures
        r is Some <==> plain_match_at(cs@, j as int),
        (r matches Some(e) ==> e as int == word_end(cs@, j + 2)),
{
    let n = cs.len();
    if cs[j] != ':' {
        return None;
    }
    if j + 1 >= n || !is_alpha_char(cs[j + 1]) {
        return None;
    }
    let e = word_end_in(cs, j + 2);
    Some(e)
}

/// Finds the leftmost placeholder occurrence at or after `from`; returns its
/// colon index, name end and list classification.
pub fn find_placeholder_in(cs: &Vec<char>, from: usize) -> (r: Option<(usize, usize, bool)>)
    requires
        from <= cs@.len(),
    ensures
        (match find_placeholder(cs@, from as int) {
            Some(m) => r matches Some(t) && t.0 as int == m.colon && t.1 as int == m.name_end
                && t.2 == m.is_list,
            None => r is None,
        }),
{
    let n = cs.len();
    let mut j = from;
    while j < n
        invariant
            from <= j <= n,
            n == cs@.len(),
            find_placeholder(cs@, from as int) == find_placeholder(cs@, j as int),
        decreases n - j,
    {
        let lm = try_list_match(cs, j);
        if let Some((b, e)) = lm {
            return Some((b, e, true));
        }
        let pm = try_plain_match(cs, j);
        if let Some(e) = pm {
            return Some((j, e, false));
        }
        j = j + 1;
    }
    None
}

// ---------------------------------------------------------------------------
// Variant selector tokens
// ---------------------------------------------------------------------------

/// The single-character variant selector tokens.
pub open spec fn is_variant_token_1(a: char) -> bool {
    a == '@' || a == ',' || a == '#' || a == '$' || a == '?' || a == ';' || a == '~' || a == '_'
        || a == '.' || a == '+' || a == '^' || a == '/' || a == '*' || a == '!' || a == '%' || a
        == '&' || a == '=' || a == '>' || a == '<' || a == '|' || a == '-' || a == ':'
}

/// The two-character variant selector tokens.
pub open spec fn is_variant_token_2(a: char, b: char) -> bool {
    ||| ((a == '+' || a == '^' || a == '/' || a == '*' || a == '!' || a == '%') && b == '=')
    ||| (a == '&' && (b == '&' || b == '='))
    ||| (a == '=' && (b == '=' || b == '>'))
    ||| (a == '>' && (b == '>' || b == '='))
    ||| (a == '<' && (b == '<' || b == '=' || b == '-'))
    ||| (a == '|' && (b == '=' || b == '|'))
    ||| (a == '-' && (b == '=' || b == '>'))
    ||| (a == ':' && b == ':')
    ||| (a == '.' && b == '.')
}

/// The three-character variant selector tokens.
pub open spec fn is_variant_token_3(a: char, b: char, c: char) -> bool {
    ||| (a == '.' && b == '.' && (c == '.' || c == '='))
    ||| (a == '>' && b == '>' && c == '=')
    ||| (a == '<' && b == '<' && c == '=')
}

/// Whether `s` is a single well-formed variant selector token.
pub open spec fn is_variant_token(s: Seq<char>) -> bool {
    if s.len() == 1 {
        is_variant_token_1(s[0])
    } else if s.len() == 2 {
        is_variant_token_2(s[0], s[1])
    } else if s.len() == 3 {
        is_variant_token_3(s[0], s[1], s[2])
    } else {
        false
    }
}

/// Decides whether a string is a single well-formed variant selector token.
pub fn is_variant_selector(s: &str) -> (b: bool)
    ensures
        b == is_variant_token(s@),
{
    let cs = crate::chars::str_to_chars(s);
    let n = cs.len();
    if n == 1 {
        let a = cs[0];
        a == '@' || a == ',' || a == '#' || a == '$' || a == '?' || a == ';' || a == '~' || a
            == '_' || a == '.' || a == '+' || a == '^' || a == '/' || a == '*' || a == '!' || a
            == '%' || a == '&' || a == '=' || a == '>' || a == '<' || a == '|' || a == '-' || a
            == ':'
    } else if n == 2 {
        let a = cs[0];
        let b = cs[1];
        ((a == '+' || a == '^' || a == '/' || a == '*' || a == '!' || a == '%') && b == '=') || (a
            == '&' && (b == '&' || b == '=')) || (a == '=' && (b == '=' || b == '>')) || (a == '>'
            && (b == '>' || b == '=')) || (a == '<' && (b == '<' || b == '=' || b == '-')) || (a
            == '|' && (b == '=' || b == '|')) || (a == '-' && (b == '=' || b == '>')) || (a == ':'
            && b == ':') || (a == '.' && b == '.')
    } else if n == 3 {
        let a = cs[0];
        let b = cs[1];
        let c = cs[2];
        (a == '.' && b == '.' && (c == '.' || c == '=')) || (a == '>' && b == '>' && c == '=') || (
        a == '<' && b == '<' && c == '=')
    } else {
        false
    }
}

} // verus!
