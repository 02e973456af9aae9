//! The positional-statement dialect: a simpler annotated-SQL form whose
//! scalar placeholders are rewritten in place into numbered positional
//! parameters (`:1`, `:2`, ...), while IN-list placeholders are cut out and
//! remembered by position, to be expanded once the list lengths are known.
//! A placeholder name counts as an IN-list name when it appears anywhere in
//! the statement as the sole content of an `IN ( ... )` clause; every
//! occurrence of such a name is then treated as a list occurrence.

use vstd::prelude::*;
use crate::chars::{
    is_word, is_word_char, upper, lower, str_to_chars, chars_to_string, trim_end_of, trim_end_in,
    to_upper_char, to_lower_char,
};
use crate::scan::{
    skip_spaces, skip_spaces_in, word_end, word_end_in, starts_with_at, name_tag, find_nl,
    find_nl_in, lemma_find_nl_bounds, copy_range, string_range, lemma_skip_spaces_bounds,
    lemma_word_end_bounds,
};
use crate::helper::{dec_digits, expansion};
use crate::sql::strings_view;

verus! {

/// Every character ASCII-uppercased.
pub open spec fn upper_all(s: Seq<char>) -> Seq<char> {
    s.map_values(|c: char| upper(c))
}

/// ASCII-uppercases an identifier.
pub fn upper_ident(s: &str) -> (r: String)
    ensures
        r@ == upper_all(s@),
{
    let cs = str_to_chars(s);
    let n = cs.len();
    let mut out: Vec<char> = Vec::new();
    let mut i: usize = 0;
    while i < n
        invariant
            0 <= i <= n,
            n == cs@.len(),
            out@.len() == i,
            forall|k: int| 0 <= k < i ==> out@[k] == upper(cs@[k]),
        decreases n - i,
    {
        out.push(to_upper_char(cs[i]));
        i = i + 1;
    }
    proof {
        assert(out@ =~= upper_all(cs@));
    }
    chars_to_string(&out)
}

/// The camel-case rendering used for synthesized type names: underscores are
/// dropped, each fragment's first character is uppercased and the rest of
/// the fragment lowercased.
pub open spec fn camel_lower_core(s: Seq<char>, i: int, boundary: bool) -> Seq<char>
    decreases s.len() - i,
{
    if i < 0 || i >= s.len() {
        Seq::empty()
    } else {
        let c = s[i];
        if c == '_' {
            camel_lower_core(s, i + 1, true)
        } else if boundary {
            seq![upper(c)] + camel_lower_core(s, i + 1, false)
        } else {
            seq![lower(c)] + camel_lower_core(s, i + 1, false)
        }
    }
}

/// The camel-case form of a statement name, with fragment tails lowercased.
pub open spec fn camel_lower_of(s: Seq<char>) -> Seq<char> {
    camel_lower_core(s, 0, true)
}

/// Turns a statement name into the camel-case name of its argument type.
pub fn to_camel_case(stmt_name: &str) -> (r: String)
    ensures
        r@ == camel_lower_of(stmt_name@),
{
    let cs = str_to_chars(stmt_name);
    let n = cs.len();
    let mut out: Vec<char> = Vec::new();
    let mut boundary: bool = true;
    let mut i: usize = 0;
    while i < n
        invariant
            0 <= i <= n,
            n == cs@.len(),
            cs@ == stmt_name@,
            camel_lower_of(stmt_name@) == out@ + camel_lower_core(cs@, i as int, boundary),
        decreases n - i,
    {
        let c = cs[i];
        let ghost out0 = out@;
        let ghost b0 = boundary;
        if c == '_' {
            boundary = true;
        } else if boundary {
            out.push(to_upper_char(c));
            boundary = false;
        } else {
            out.push(to_lower_char(c));
            boundary = false;
        }
        proof {
            assert(out0 + camel_lower_core(cs@, i as int, b0) =~= out@ + camel_lower_core(
                cs@,
                i + 1 as int,
                boundary,
            ));
        }
        i = i + 1;
    }
    chars_to_string(&out)
}

// ---------------------------------------------------------------------------
// Placeholder scanning for the positional dialect
// ---------------------------------------------------------------------------

/// Whether an IN-list pattern begins at index `j`: the word `in` (any case,
/// at a word boundary), `(`, and a lone placeholder before the closing `)`.
/// In this dialect a placeholder name is any run of word characters.
pub open spec fn in_list_at(s: Seq<char>, j: int) -> bool {
    &&& (j == 0 || !is_word(s[j - 1]))
    &&& j + 2 <= s.len()
    &&& (s[j] == 'i' || s[j] == 'I')
    &&& (s[j + 1] == 'n' || s[j + 1] == 'N')
    &&& ({
        let a = skip_spaces(s, j + 2);
        a < s.len() && s[a] == '(' && ({
            let b = skip_spaces(s, a + 1);
            b + 1 < s.len() && s[b] == ':' && is_word(s[b + 1]) && ({
                let e = word_end(s, b + 1);
                let r = skip_spaces(s, e);
                r < s.len() && s[r] == ')'
            })
        })
    })
}

/// An IN-list occurrence: the placeholder's `:` sigil, its name end, and the
/// index of the closing parenthesis.
pub struct InListMatch {
    pub colon: int,
    pub name_end: int,
    pub close: int,
}

/// The leftmost IN-list occurrence at or after `j`.
pub open spec fn find_in_list(s: Seq<char>, j: int) -> Option<InListMatch>
    decreases s.len() - j,
{
    if j < 0 || j >= s.len() {
        Option::None
    } else if in_list_at(s, j) {
        let a = skip_spaces(s, j + 2);
        let b = skip_spaces(s, a + 1);
        let e = word_end(s, b + 1);
        Option::Some(InListMatch { colon: b, name_end: e, close: skip_spaces(s, e) })
    } else {
        find_in_list(s, j + 1)
    }
}

pub proof fn lemma_find_in_list_bounds(s: Seq<char>, j: int)
    requires
        0 <= j,
    ensures
        (match find_in_list(s, j) {
            Option::Some(m) => j < m.colon && m.colon + 1 < m.name_end && m.name_end <= m.close
                && m.close < s.len(),
            Option::None => true,
        }),
    decreases s.len() - j,
{
    if 0 <= j < s.len() {
        if in_list_at(s, j) {
            lemma_skip_spaces_bounds(s, j + 2);
            let a = skip_spaces(s, j + 2);
            lemma_skip_spaces_bounds(s, a + 1);
            let b = skip_spaces(s, a + 1);
            lemma_word_end_bounds(s, b + 1);
            let e = word_end(s, b + 1);
            lemma_skip_spaces_bounds(s, e);
        } else {
            lemma_find_in_list_bounds(s, j + 1);
        }
    }
}

/// The distinct IN-list names of the statement text from index `j` on,
/// appended to `acc` in first-occurrence order.
pub open spec fn in_names_from(s: Seq<char>, j: int, acc: Seq<Seq<char>>) -> Seq<Seq<char>>
    decreases s.len() - j,
{
    if j < 0 || j > s.len() {
        acc
    } else {
        match find_in_list(s, j) {
            Option::None => acc,
            Option::Some(m) => {
                let nm = s.subrange(m.colon + 1, m.name_end);
                let acc2 = if acc.contains(nm) {
                    acc
                } else {
                    acc.push(nm)
                };
                let next = if j + 1 <= m.close + 1 && m.close + 1 <= s.len() {
                    m.close + 1
                } else {
                    j + 1
                };
                in_names_from(s, next, acc2)
            },
        }
    }
}

/// The distinct IN-list names of a statement text, in first-occurrence order.
pub open spec fn in_names_of(s: Seq<char>) -> Seq<Seq<char>> {
    in_names_from(s, 0, Seq::empty())
}

fn try_in_list(cs: &Vec<char>, j: usize) -> (r: Option<(usize, usize, usize)>)
    requires
        j < cs@.len(),
    ensures
        r is Some <==> in_list_at(cs@, j as int),
        (r matches Some(t) ==> ({
            let a = skip_spaces(cs@, j + 2);
            let b = skip_spaces(cs@, a + 1);
            let e = word_end(cs@, b + 1);
            t.0 as int == b && t.1 as int == e && t.2 as int == skip_spaces(cs@, e)
        })),
{
    let n = cs.len();
    if j > 0 && is_word_char(cs[j - 1]) {
        return Option::None;
    }
    if !(cs[j] == 'i' || cs[j] == 'I') {
        return Option::None;
    }
    if j + 1 >= n {
        return Option::None;
    }
    if !(cs[j + 1] == 'n' || cs[j + 1] == 'N') {
        return Option::None;
    }
    let a = skip_spaces_in(cs, j + 2);
    if a >= n || cs[a] != '(' {
        return Option::None;
    }
    let b = skip_spaces_in(cs, a + 1);
    if b >= n || cs[b] != ':' {
        return Option::None;
    }
    if b + 1 >= n || !is_word_char(cs[b + 1]) {
        return Option::None;
    }
    let e = word_end_in(cs, b + 1);
    let rp = skip_spaces_in(cs, e);
    if rp >= n || cs[rp] != ')' {
        return Option::None;
    }
    Option::Some((b, e, rp))
}

/// Collects the distinct IN-list names of a statement text.
fn in_names_in(cs: &Vec<char>) -> (r: Vec<String>)
    ensures
        strings_view(r@) == in_names_of(cs@),
{
    let n = cs.len();
    let mut names: Vec<String> = Vec::new();
    let mut j: usize = 0;
    proof {
        assert(strings_view(names@) =~= Seq::<Seq<char>>::empty());
    }
    while j < n
        invariant
            0 <= j <= n,
            n == cs@.len(),
            in_names_of(cs@) == in_names_from(cs@, j as int, strings_view(names@)),
        decreases n - j,
    {
        let ghost names0 = names@;
        let m = try_in_list(cs, j);
        match m {
            Option::Some((colon, name_end, close)) => {
                proof {
                    lemma_find_in_list_bounds(cs@, j as int);
                }
                let nm = string_range(cs, colon + 1, name_end);
                if !crate::sql::names_contain(&names, nm.as_str()) {
                    names.push(nm);
                    proof {
                        assert(strings_view(names@) =~= strings_view(names0).push(
                            cs@.subrange(colon + 1, name_end as int),
                        ));
                    }
                }
                j = close + 1;
            },
            Option::None => {
                proof {
                    lemma_find_in_list_bounds(cs@, j + 1);
                }
                j = j + 1;
            },
        }
    }
    proof {
        assert(in_names_from(cs@, n as int, strings_view(names@)) == strings_view(names@));
    }
    names
}

/// Whether a placeholder occurrence begins at index `j`: the `:` sigil
/// immediately followed by a word character.
pub open spec fn param_at(s: Seq<char>, j: int) -> bool {
    j + 1 < s.len() && s[j] == ':' && is_word(s[j + 1])
}

/// The leftmost placeholder occurrence at or after `j`.
pub open spec fn find_param(s: Seq<char>, j: int) -> Option<int>
    decreases s.len() - j,
{
    if j < 0 || j >= s.len() {
        Option::None
    } else if param_at(s, j) {
        Option::Some(j)
    } else {
        find_param(s, j + 1)
    }
}

pub proof fn lemma_find_param_bounds(s: Seq<char>, j: int)
    requires
        0 <= j,
    ensures
        (match find_param(s, j) {
            Option::Some(p) => j <= p && p + 1 < s.len() && p + 1 < word_end(s, p + 1)
                && word_end(s, p + 1) <= s.len(),
            Option::None => true,
        }),
    decreases s.len() - j,
{
    if 0 <= j < s.len() {
        if param_at(s, j) {
            lemma_word_end_bounds(s, j + 2);
            assert(word_end(s, j + 1) == word_end(s, j + 2));
        } else {
            lemma_find_param_bounds(s, j + 1);
        }
    }
}

fn find_param_in(cs: &Vec<char>, from: usize) -> (r: Option<usize>)
    requires
        from <= cs@.len(),
    ensures
        (match find_param(cs@, from as int) {
            Option::Some(p) => r matches Some(q) && q as int == p,
            Option::None => r is None,
        }),
{
    let n = cs.len();
    let mut j = from;
    while j < n
        invariant
            from <= j <= n,
            n == cs@.len(),
            find_param(cs@, from as int) == find_param(cs@, j as int),
        decreases n - j,
    {
        if cs[j] == ':' {
            if j + 1 < n && is_word_char(cs[j + 1]) {
                return Option::Some(j);
            }
        }
        j = j + 1;
    }
    Option::None
}

/// First index whose element equals `x`.
pub open spec fn seq_index_of(l: Seq<Seq<char>>, x: Seq<char>) -> int
    decreases l.len(),
{
    if l.len() == 0 {
        0
    } else if l[0] == x {
        0
    } else {
        1 + seq_index_of(l.drop_first(), x)
    }
}

pub proof fn lemma_seq_index_of(l: Seq<Seq<char>>, x: Seq<char>)
    requires
        l.contains(x),
    ensures
        0 <= seq_index_of(l, x) < l.len(),
        l[seq_index_of(l, x)] == x,
        forall|i: int| 0 <= i < seq_index_of(l, x) ==> l[i] != x,
    decreases l.len(),
{
    if l.len() > 0 && l[0] != x {
        assert(l.drop_first().contains(x)) by {
            let w = choose|i: int| 0 <= i < l.len() && l[i] == x;
            assert(l.drop_first()[w - 1] == x);
        }
        lemma_seq_index_of(l.drop_first(), x);
        assert forall|i: int| 0 <= i < seq_index_of(l, x) implies l[i] != x by {
            if i > 0 {
                assert(l.drop_first()[i - 1] == l[i]);
            }
        }
    }
}

fn index_of_name(names: &Vec<String>, x: &str) -> (r: Option<usize>)
    ensures
        (match r {
            Some(k) => strings_view(names@).contains(x@) && k as int == seq_index_of(
                strings_view(names@),
                x@,
            ) && (k as int) < names@.len(),
            None => !strings_view(names@).contains(x@),
        }),
{
    let n = names.len();
    let mut i: usize = 0;
    while i < n
        invariant
            0 <= i <= n,
            n == names@.len(),
            forall|j: int| 0 <= j < i ==> strings_view(names@)[j] != x@,
        decreases n - i,
    {
        let hit = crate::chars::str_eq(names[i].as_str(), x);
        proof {
            assert(strings_view(names@)[i as int] == names@[i as int]@);
        }
        if hit {
            proof {
                assert(strings_view(names@).contains(x@));
                lemma_seq_index_of(strings_view(names@), x@);
            }
            return Option::Some(i);
        }
        i = i + 1;
    }
    proof {
        assert(!strings_view(names@).contains(x@));
    }
    Option::None
}

// ---------------------------------------------------------------------------
// Statement text rewriting
// ---------------------------------------------------------------------------

/// The rewriting state: the rewritten text so far, the positional parameter
/// names in numbering order, and the IN-list occurrences with the rewritten
/// position at which each expansion belongs.
pub struct Rewrite {
    pub text: Seq<char>,
    pub pos: Seq<Seq<char>>,
    pub lst: Seq<(Seq<char>, int)>,
}

/// What rewriting the statement text from index `j` on does to `acc`: each
/// placeholder whose name is an IN-list name is cut out and its position
/// recorded; any other placeholder is replaced by the prefix and its number,
/// a name's number being fixed at its first occurrence.
pub open spec fn rewrite_from(
    s: Seq<char>,
    j: int,
    names: Seq<Seq<char>>,
    prefix: Seq<char>,
    acc: Rewrite,
) -> Rewrite
    decreases s.len() - j,
{
    if j < 0 || j > s.len() {
        acc
    } else {
        match find_param(s, j) {
            Option::None => Rewrite {
                text: acc.text + s.subrange(j, s.len() as int),
                ..acc
            },
            Option::Some(p) => {
                let e = word_end(s, p + 1);
                let nm = s.subrange(p + 1, e);
                let text1 = acc.text + s.subrange(j, p);
                let next = if j + 1 <= e && e <= s.len() {
                    e
                } else {
                    j + 1
                };
                if names.contains(nm) {
                    rewrite_from(
                        s,
                        next,
                        names,
                        prefix,
                        Rewrite {
                            text: text1,
                            pos: acc.pos,
                            lst: acc.lst.push((nm, text1.len() as int)),
                        },
                    )
                } else if acc.pos.contains(nm) {
                    rewrite_from(
                        s,
                        next,
                        names,
                        prefix,
                        Rewrite {
                            text: text1 + prefix + dec_digits(seq_index_of(acc.pos, nm) + 1),
                            pos: acc.pos,
                            lst: acc.lst,
                        },
                    )
                } else {
                    rewrite_from(
                        s,
                        next,
                        names,
                        prefix,
                        Rewrite {
                            text: text1 + prefix + dec_digits(acc.pos.len() as int + 1),
                            pos: acc.pos.push(nm),
                            lst: acc.lst,
                        },
                    )
                }
            },
        }
    }
}

/// The full rewriting of a statement text under the given parameter prefix.
pub open spec fn rewrite_of(s: Seq<char>, prefix: Seq<char>) -> Rewrite {
    rewrite_from(
        s,
        0,
        in_names_of(s),
        prefix,
        Rewrite { text: Seq::empty(), pos: Seq::empty(), lst: Seq::empty() },
    )
}

/// An IN-list parameter: its name and the position in the rewritten text
/// where its expansion belongs.
#[derive(Debug)]
pub struct LstParam {
    pub name: String,
    pub position: usize,
}

/// The models of a vector of IN-list parameters.
pub open spec fn lst_view(v: Seq<LstParam>) -> Seq<(Seq<char>, int)> {
    v.map_values(|p: LstParam| (p.name@, p.position as int))
}

/// Rewrites a statement text: scalar placeholders become numbered positional
/// parameters, IN-list placeholders are cut out and recorded by position.
pub fn parse_sql_text(stmt_text: &str, param_prefix: &str) -> (r: (String, Vec<String>, Vec<
    LstParam,
>))
    ensures
        ({
            let rw = rewrite_of(stmt_text@, param_prefix@);
            r.0@ == rw.text && strings_view(r.1@) == rw.pos && lst_view(r.2@) == rw.lst
        }),
{
    let cs = str_to_chars(stmt_text);
    let n = cs.len();
    let in_names = in_names_in(&cs);
    let mut text: Vec<char> = Vec::new();
    let mut pos_params: Vec<String> = Vec::new();
    let mut lst_params: Vec<LstParam> = Vec::new();
    let mut j: usize = 0;
    let mut done = false;
    let ghost names = in_names_of(cs@);
    proof {
        assert(strings_view(pos_params@) =~= Seq::<Seq<char>>::empty());
        assert(lst_view(lst_params@) =~= Seq::<(Seq<char>, int)>::empty());
        assert(text@ =~= Seq::<char>::empty());
    }
    while !done
        invariant
            0 <= j <= n,
            n == cs@.len(),
            names == in_names_of(cs@),
            strings_view(in_names@) == names,
            rewrite_of(cs@, param_prefix@) == (if done {
                Rewrite {
                    text: text@,
                    pos: strings_view(pos_params@),
                    lst: lst_view(lst_params@),
                }
            } else {
                rewrite_from(
                    cs@,
                    j as int,
                    names,
                    param_prefix@,
                    Rewrite {
                        text: text@,
                        pos: strings_view(pos_params@),
                        lst: lst_view(lst_params@),
                    },
                )
            }),
        decreases (if done {
            0int
        } else {
            n - j + 1
        }),
    {
        let ghost text0 = text@;
        let ghost pos0 = pos_params@;
        let ghost lst0 = lst_params@;
        let found = find_param_in(&cs, j);
        proof {
            lemma_find_param_bounds(cs@, j as int);
        }
        match found {
            Option::None => {
                let mut tail = copy_range(&cs, j, n);
                text.append(&mut tail);
                done = true;
            },
            Option::Some(p) => {
                let e = word_end_in(&cs, p + 1);
                let nm = string_range(&cs, p + 1, e);
                let mut gap = copy_range(&cs, j, p);
                text.append(&mut gap);
                let ghost text1 = text@;
                if crate::sql::names_contain(&in_names, nm.as_str()) {
                    let position = text.len();
                    lst_params.push(LstParam { name: nm, position });
                    proof {
                        assert(lst_view(lst_params@) =~= lst0.map_values(
                            |p: LstParam| (p.name@, p.position as int),
                        ).push((cs@.subrange(p + 1, e as int), text1.len() as int)));
                    }
                } else {
                    let existing = index_of_name(&pos_params, nm.as_str());
                    let num: usize = match existing {
                        Option::Some(k) => {
                            // k indexes pos_params, so k + 1 cannot overflow
                            let np = pos_params.len();
                            proof {
                                assert(k < np);
                            }
                            k + 1
                        },
                        Option::None => {
                            pos_params.push(nm);
                            proof {
                                assert(strings_view(pos_params@) =~= strings_view(pos0).push(
                                    cs@.subrange(p + 1, e as int),
                                ));
                            }
                            pos_params.len()
                        },
                    };
                    let mut pre = str_to_chars(param_prefix);
                    text.append(&mut pre);
                    let nums = crate::helper::usize_to_string(num);
                    let mut dig = str_to_chars(nums.as_str());
                    text.append(&mut dig);
                }
                j = e;
            },
        }
    }
    (chars_to_string(&text), pos_params, lst_params)
}

// ---------------------------------------------------------------------------
// Statements of the positional dialect
// ---------------------------------------------------------------------------

/// A single statement of the positional dialect: its name, the uppercased
/// constant name synthesized from it, the rewritten text, and its parameters
/// (absent when the statement has no placeholder at all).
#[derive(Debug)]
pub struct Stmt {
    pub name: String,
    pub const_name: String,
    pub text: String,
    pub params: Option<StmtParams>,
}

/// The parameters of a positional statement: the camel-cased name of the
/// argument type to synthesize, the scalar parameter names in numbering
/// order, and the IN-list occurrences.
#[derive(Debug)]
pub struct StmtParams {
    pub struct_name: String,
    pub pos_params: Vec<String>,
    pub lst_params: Vec<LstParam>,
}

/// The mathematical model of a positional `Stmt`.
pub struct StmtView {
    pub name: Seq<char>,
    pub const_name: Seq<char>,
    pub text: Seq<char>,
    pub params: Option<StmtParamsView>,
}

/// The mathematical model of `StmtParams`.
pub struct StmtParamsView {
    pub struct_name: Seq<char>,
    pub pos_params: Seq<Seq<char>>,
    pub lst_params: Seq<(Seq<char>, int)>,
}

impl View for StmtParams {
    type V = StmtParamsView;

    open spec fn view(&self) -> StmtParamsView {
        StmtParamsView {
            struct_name: self.struct_name@,
            pos_params: strings_view(self.pos_params@),
            lst_params: lst_view(self.lst_params@),
        }
    }
}

impl View for Stmt {
    type V = StmtView;

    open spec fn view(&self) -> StmtView {
        StmtView {
            name: self.name@,
            const_name: self.const_name@,
            text: self.text@,
            params: match self.params {
                Option::Some(p) => Option::Some(p@),
                Option::None => Option::None,
            },
        }
    }
}

/// The models of a vector of positional statements.
pub open spec fn pstmts_view(v: Seq<Stmt>) -> Seq<StmtView> {
    v.map_values(|st: Stmt| st@)
}

/// What a positional statement looks like once built from its name and raw
/// text: the rewritten text, and parameters present exactly when some
/// placeholder occurs.
pub open spec fn stmt_new_spec(name: Seq<char>, text: Seq<char>, prefix: Seq<char>) -> StmtView {
    let rw = rewrite_of(text, prefix);
    StmtView {
        name: name,
        const_name: upper_all(name),
        text: rw.text,
        params: if rw.pos.len() > 0 || rw.lst.len() > 0 {
            Option::Some(
                StmtParamsView {
                    struct_name: camel_lower_of(name),
                    pos_params: rw.pos,
                    lst_params: rw.lst,
                },
            )
        } else {
            Option::None
        },
    }
}

impl StmtParams {
    /// Builds the parameter record of a statement.
    pub fn new(stmt_name: &str, pos_params: Vec<String>, lst_params: Vec<LstParam>) -> (r:
        StmtParams)
        ensures
            r@ == (StmtParamsView {
                struct_name: camel_lower_of(stmt_name@),
                pos_params: strings_view(pos_params@),
                lst_params: lst_view(lst_params@),
            }),
    {
        StmtParams { struct_name: to_camel_case(stmt_name), pos_params, lst_params }
    }
}

impl Stmt {
    /// Builds a statement from its name and raw SQL text.
    pub fn new(stmt_name: &str, stmt_text: &str, param_prefix: &str) -> (r: Stmt)
        ensures
            r@ == stmt_new_spec(stmt_name@, stmt_text@, param_prefix@),
    {
        let const_name = upper_ident(stmt_name);
        let (text, pos_params, lst_params) = parse_sql_text(stmt_text, param_prefix);
        let params = if pos_params.len() > 0 || lst_params.len() > 0 {
            Option::Some(StmtParams::new(stmt_name, pos_params, lst_params))
        } else {
            proof {
                assert(strings_view(pos_params@) =~= Seq::<Seq<char>>::empty());
                assert(lst_view(lst_params@) =~= Seq::<(Seq<char>, int)>::empty());
            }
            Option::None
        };
        Stmt { name: stmt_name.to_owned(), const_name, text, params }
    }
}

// ---------------------------------------------------------------------------
// Parsing a positional-dialect document
// ---------------------------------------------------------------------------

/// Whether a (right-trimmed) line is a name directive of this dialect: it
/// must start with the `--` marker at column zero, then optional whitespace,
/// the `name:` tag, optional whitespace and a word-character run.
pub open spec fn pname_directive_of(line: Seq<char>) -> Option<Seq<char>> {
    if line.len() >= 2 && line[0] == '-' && line[1] == '-' {
        let p = skip_spaces(line, 2);
        if starts_with_at(line, p, name_tag()) {
            let q = skip_spaces(line, p + 5);
            if q < line.len() && is_word(line[q]) {
                Option::Some(line.subrange(q, word_end(line, q)))
            } else {
                Option::None
            }
        } else {
            Option::None
        }
    } else {
        Option::None
    }
}

/// The parser's state: the most recent statement name, the accumulating
/// text, and the statements already produced.
pub struct PState {
    pub name: Seq<char>,
    pub text: Seq<char>,
    pub out: Seq<StmtView>,
}

/// The name a closing statement gets: the latest name directive, or the
/// document's base name if none was seen.
pub open spec fn close_name(st: PState, fname: Seq<char>) -> Seq<char> {
    if st.name.len() == 0 {
        fname
    } else {
        st.name
    }
}

/// What one raw line does to the parser's state: a blank line does nothing;
/// a `--` comment line sets the pending name if it is a name directive
/// (closing a non-empty draft first) and is otherwise ignored; any other
/// line is newline-joined onto the accumulating text.
pub open spec fn pstep_line(st: PState, fname: Seq<char>, prefix: Seq<char>, raw: Seq<char>)
    -> PState {
    let line = trim_end_of(raw);
    if line.len() == 0 {
        st
    } else if line.len() >= 2 && line[0] == '-' && line[1] == '-' {
        match pname_directive_of(line) {
            Option::Some(nm) => {
                if st.text.len() > 0 {
                    PState {
                        name: nm,
                        text: Seq::empty(),
                        out: st.out.push(stmt_new_spec(close_name(st, fname), st.text, prefix)),
                    }
                } else {
                    PState { name: nm, ..st }
                }
            },
            Option::None => st,
        }
    } else {
        PState {
            text: if st.text.len() > 0 {
                st.text + seq!['\n'] + line
            } else {
                line
            },
            ..st
        }
    }
}

/// End of input: a pending draft with text closes under the pending name.
pub open spec fn pclose(st: PState, fname: Seq<char>, prefix: Seq<char>) -> Seq<StmtView> {
    if st.text.len() > 0 {
        st.out.push(stmt_new_spec(close_name(st, fname), st.text, prefix))
    } else {
        st.out
    }
}

/// The statements of the positional-dialect document from index `i` on.
pub open spec fn pparse_lines(
    s: Seq<char>,
    i: int,
    st: PState,
    fname: Seq<char>,
    prefix: Seq<char>,
) -> Seq<StmtView>
    decreases s.len() - i,
    via pparse_lines_decreases
{
    if i < 0 || i >= s.len() {
        pclose(st, fname, prefix)
    } else {
        let j = find_nl(s, i);
        let line = s.subrange(i, j);
        let next = if j + 1 <= s.len() {
            j + 1
        } else {
            s.len() as int
        };
        pparse_lines(s, next, pstep_line(st, fname, prefix, line), fname, prefix)
    }
}

#[via_fn]
proof fn pparse_lines_decreases(s: Seq<char>, i: int, st: PState, fname: Seq<char>, prefix: Seq<
    char,
>) {
    if 0 <= i < s.len() {
        lemma_find_nl_bounds(s, i);
    }
}

/// The statement list that a positional-dialect document parses to.
pub open spec fn parse_sql_spec(s: Seq<char>, fname: Seq<char>, prefix: Seq<char>) -> Seq<
    StmtView,
> {
    pparse_lines(s, 0, PState { name: Seq::empty(), text: Seq::empty(), out: Seq::empty() }, fname,
        prefix)
}

/// Recognizes a name directive line of this dialect.
fn pname_directive_in(line: &Vec<char>) -> (r: Option<String>)
    ensures
        (match pname_directive_of(line@) {
            Option::Some(nm) => r matches Some(s) && s@ == nm,
            Option::None => r is None,
        }),
{
    let n = line.len();
    if n < 2 || line[0] != '-' || line[1] != '-' {
        return Option::None;
    }
    let p = skip_spaces_in(line, 2);
    if n - p < 5 {
        return Option::None;
    }
    if !(line[p] == 'n' && line[p + 1] == 'a' && line[p + 2] == 'm' && line[p + 3] == 'e' && line[p
        + 4] == ':') {
        proof {
            assert(!starts_with_at(line@, p as int, name_tag()));
        }
        return Option::None;
    }
    proof {
        assert(line@.subrange(p as int, p + 5 as int) =~= name_tag());
    }
    let q = skip_spaces_in(line, p + 5);
    if q < n && is_word_char(line[q]) {
        let e = word_end_in(line, q);
        Option::Some(string_range(line, q, e))
    } else {
        Option::None
    }
}

/// Parses the text of a positional-dialect document: statements are
/// separated by `-- name:` directive lines; a statement with no preceding
/// name directive is named after the document itself.
pub fn parse_sql(file_name: &str, text: &str, param_prefix: &str) -> (r: Vec<Stmt>)
    ensures
        pstmts_view(r@) == parse_sql_spec(text@, file_name@, param_prefix@),
{
    let cs = str_to_chars(text);
    let n = cs.len();
    let mut sql_name = String::new();
    let mut sql_text: Vec<char> = Vec::new();
    let mut all_stmt: Vec<Stmt> = Vec::new();
    let mut i: usize = 0;
    proof {
        assert(pstmts_view(all_stmt@) =~= Seq::<StmtView>::empty());
        assert(sql_text@ =~= Seq::<char>::empty());
    }
    while i < n
        invariant
            0 <= i <= n,
            n == cs@.len(),
            cs@ == text@,
            parse_sql_spec(text@, file_name@, param_prefix@) == pparse_lines(
                cs@,
                i as int,
                (PState { name: sql_name@, text: sql_text@, out: pstmts_view(all_stmt@) }),
                file_name@,
                param_prefix@,
            ),
        decreases n - i,
    {
        let ghost st0 = PState { name: sql_name@, text: sql_text@, out: pstmts_view(all_stmt@) };
        let j = find_nl_in(&cs, i);
        let raw = copy_range(&cs, i, j);
        let line = trim_end_in(&raw);
        if line.len() == 0 {
            // blank line
        } else if line.len() >= 2 && {
            let c0 = line[0];
            let c1 = line[1];
            c0 == '-' && c1 == '-'
        } {
            match pname_directive_in(&line) {
                Option::Some(nm) => {
                    if sql_text.len() > 0 {
                        let close = if sql_name.as_str().is_empty() {
                            file_name
                        } else {
                            sql_name.as_str()
                        };
                        let t = chars_to_string(&sql_text);
                        let stmt = Stmt::new(close, t.as_str(), param_prefix);
                        let ghost prev = all_stmt@;
                        all_stmt.push(stmt);
                        sql_text.clear();
                        proof {
                            assert(pstmts_view(all_stmt@) =~= pstmts_view(prev).push(
                                stmt_new_spec(
                                    close_name(st0, file_name@),
                                    st0.text,
                                    param_prefix@,
                                ),
                            ));
                        }
                    }
                    sql_name = nm;
                },
                Option::None => {},
            }
        } else {
            if sql_text.len() > 0 {
                sql_text.push('\n');
                proof {
                    assert(sql_text@ =~= st0.text + seq!['\n']);
                }
            }
            let mut l = line;
            sql_text.append(&mut l);
        }
        i = if j < n {
            j + 1
        } else {
            n
        };
    }
    if sql_text.len() > 0 {
        let close = if sql_name.as_str().is_empty() {
            file_name
        } else {
            sql_name.as_str()
        };
        let t = chars_to_string(&sql_text);
        let stmt = Stmt::new(close, t.as_str(), param_prefix);
        let ghost prev = all_stmt@;
        all_stmt.push(stmt);
        proof {
            assert(pstmts_view(all_stmt@) =~= pstmts_view(prev).push(stmt@));
        }
    }
    all_stmt
}

// ---------------------------------------------------------------------------
// Expanding list arguments into a final query and argument list
// ---------------------------------------------------------------------------

/// The distinct IN-list names of the occurrences from index `i` on, appended
/// to `seen` in first-occurrence order.
pub open spec fn lst_names_rec(
    lst: Seq<(Seq<char>, int)>,
    i: int,
    seen: Seq<Seq<char>>,
) -> Seq<Seq<char>>
    decreases lst.len() - i,
{
    if i < 0 || i >= lst.len() {
        seen
    } else if seen.contains(lst[i].0) {
        lst_names_rec(lst, i + 1, seen)
    } else {
        lst_names_rec(lst, i + 1, seen.push(lst[i].0))
    }
}

/// The distinct IN-list names of a statement, in first-occurrence order.
pub open spec fn lst_names_of(lst: Seq<(Seq<char>, int)>) -> Seq<Seq<char>> {
    lst_names_rec(lst, 0, Seq::empty())
}

pub proof fn lemma_lst_names_len(lst: Seq<(Seq<char>, int)>, i: int, seen: Seq<Seq<char>>)
    ensures
        lst_names_rec(lst, i, seen).len() >= seen.len(),
    decreases lst.len() - i,
{
    if 0 <= i < lst.len() {
        if seen.contains(lst[i].0) {
            lemma_lst_names_len(lst, i + 1, seen);
        } else {
            lemma_lst_names_len(lst, i + 1, seen.push(lst[i].0));
        }
    }
}

/// The final query text, spliced one IN-list occurrence at a time: literal
/// text up to the occurrence, then the expansion of its list. A name's
/// expansion is fixed at its first occurrence: the next unused block of
/// argument numbers, whose width comes from `avail` (the list lengths, in
/// first-occurrence order); repeats replay the same block.
pub open spec fn splice_rec(
    text: Seq<char>,
    lst: Seq<(Seq<char>, int)>,
    i: int,
    cursor: int,
    prefix: Seq<char>,
    names: Seq<Seq<char>>,
    starts: Seq<int>,
    widths: Seq<int>,
    avail: Seq<int>,
    base: int,
) -> Seq<char>
    decreases lst.len() - i,
{
    if i < 0 || i >= lst.len() {
        text.subrange(cursor, text.len() as int)
    } else {
        let nm = lst[i].0;
        let p = lst[i].1;
        let gap = text.subrange(cursor, p);
        if names.contains(nm) {
            let k = seq_index_of(names, nm);
            gap + expansion(prefix, starts[k], widths[k]) + splice_rec(
                text,
                lst,
                i + 1,
                p,
                prefix,
                names,
                starts,
                widths,
                avail,
                base,
            )
        } else {
            let cnt = avail[names.len() as int];
            gap + expansion(prefix, base + 1, cnt) + splice_rec(
                text,
                lst,
                i + 1,
                p,
                prefix,
                names.push(nm),
                starts.push(base + 1),
                widths.push(cnt),
                avail,
                base + cnt,
            )
        }
    }
}

/// The final query text of a statement whose list arguments have the given
/// lengths, with scalar arguments numbered `1..=base` first.
pub open spec fn into_sql_spec(
    text: Seq<char>,
    lst: Seq<(Seq<char>, int)>,
    prefix: Seq<char>,
    avail: Seq<int>,
    base: int,
) -> Seq<char> {
    splice_rec(text, lst, 0, 0, prefix, Seq::empty(), Seq::empty(), Seq::empty(), avail, base)
}

/// Builds the final query and its flat argument list from a rewritten
/// statement text, its IN-list occurrences, the scalar argument values (in
/// numbering order) and one list of values per distinct IN-list name (in
/// first-occurrence order). Scalar values come first in the argument list,
/// then each list's values; every occurrence of one list name replays the
/// same argument numbers.
pub fn into_sql_with_args<'a, T: ?Sized>(
    stmt_text: &str,
    lst_params: &Vec<LstParam>,
    param_prefix: &str,
    pos_args: Vec<&'a T>,
    lst_args: &Vec<Vec<&'a T>>,
) -> (r: (String, Vec<&'a T>))
    requires
        lst_args@.len() == lst_names_of(lst_view(lst_params@)).len(),
        forall|a: int, b: int|
            0 <= a <= b < lst_params@.len() ==> (#[trigger] lst_params@[a]).position <= (
            #[trigger] lst_params@[b]).position,
        forall|a: int|
            0 <= a < lst_params@.len() ==> (#[trigger] lst_params@[a]).position <= stmt_text@.len(),
        pos_args@.len() + lst_args@.map_values(|v: Vec<&'a T>| v@).flatten().len() + 1
            <= usize::MAX,
    ensures
        r.0@ == into_sql_spec(
            stmt_text@,
            lst_view(lst_params@),
            param_prefix@,
            lst_args@.map_values(|v: Vec<&'a T>| v@.len() as int),
            pos_args@.len() as int,
        ),
        r.1@ == pos_args@ + lst_args@.map_values(|v: Vec<&'a T>| v@).flatten(),
{
    let cs = str_to_chars(stmt_text);
    let tn = cs.len();
    let ghost lstv = lst_view(lst_params@);
    let ghost avail = lst_args@.map_values(|v: Vec<&'a T>| v@.len() as int);
    let ghost views = lst_args@.map_values(|v: Vec<&'a T>| v@);
    let ghost pos0 = pos_args@;
    let mut sql = String::new();
    let mut args = pos_args;
    let mut names_seen: Vec<String> = Vec::new();
    let mut starts: Vec<usize> = Vec::new();
    let mut widths: Vec<usize> = Vec::new();
    let mut cursor: usize = 0;
    let no = lst_params.len();
    let mut i: usize = 0;
    proof {
        assert(strings_view(names_seen@) =~= Seq::<Seq<char>>::empty());
        assert(starts@.map_values(|x: usize| x as int) =~= Seq::<int>::empty());
        assert(widths@.map_values(|x: usize| x as int) =~= Seq::<int>::empty());
        assert(views.skip(0) =~= views);
        assert(args@ + views.flatten() =~= pos0 + views.flatten());
        assert(sql@ + splice_rec(cs@, lstv, 0, 0, param_prefix@, Seq::empty(), Seq::empty(),
            Seq::empty(), avail, pos0.len() as int) =~= splice_rec(cs@, lstv, 0, 0,
            param_prefix@, Seq::empty(), Seq::empty(), Seq::empty(), avail, pos0.len() as int));
    }
    while i < no
        invariant
            0 <= i <= no,
            no == lst_params@.len(),
            tn == cs@.len(),
            cs@ == stmt_text@,
            lstv == lst_view(lst_params@),
            avail == lst_args@.map_values(|v: Vec<&'a T>| v@.len() as int),
            views == lst_args@.map_values(|v: Vec<&'a T>| v@),
            avail.len() == lst_names_of(lstv).len(),
            forall|a: int, b: int|
                0 <= a <= b < lst_params@.len() ==> (#[trigger] lst_params@[a]).position <= (
                #[trigger] lst_params@[b]).position,
            forall|a: int|
                0 <= a < lst_params@.len() ==> (#[trigger] lst_params@[a]).position <= tn,
            pos0.len() + views.flatten().len() + 1 <= usize::MAX,
            names_seen@.len() <= avail.len(),
            starts@.len() == names_seen@.len(),
            widths@.len() == names_seen@.len(),
            forall|k: int|
                0 <= k < starts@.len() ==> (#[trigger] starts@[k]) + widths@[k] <= args@.len()
                    + 1,
            0 <= cursor <= tn,
            i == 0 ==> cursor == 0,
            i > 0 ==> cursor as int == lstv[i - 1].1,
            args@.len() as int == pos0.len() + views.flatten().len() - views.skip(
                names_seen@.len() as int,
            ).flatten().len(),
            args@ + views.skip(names_seen@.len() as int).flatten() == pos0 + views.flatten(),
            lst_names_of(lstv) == lst_names_rec(lstv, i as int, strings_view(names_seen@)),
            splice_rec(cs@, lstv, 0, 0, param_prefix@, Seq::empty(), Seq::empty(), Seq::empty(),
                avail, pos0.len() as int) == sql@ + splice_rec(
                cs@,
                lstv,
                i as int,
                cursor as int,
                param_prefix@,
                strings_view(names_seen@),
                starts@.map_values(|x: usize| x as int),
                widths@.map_values(|x: usize| x as int),
                avail,
                args@.len() as int,
            ),
        decreases no - i,
    {
        let ghost names0 = strings_view(names_seen@);
        let ghost starts0 = starts@.map_values(|x: usize| x as int);
        let ghost widths0 = widths@.map_values(|x: usize| x as int);
        let ghost args_before = args@;
        let ghost sql0 = sql@;
        let p = lst_params[i].position;
        proof {
            let pi = lst_params@[i as int];
            assert(lstv[i as int] == (pi.name@, pi.position as int));
            if i > 0 {
                assert(lst_params@[i - 1].position <= lst_params@[i as int].position);
            }
        }
        let gap = string_range(&cs, cursor, p);
        sql.append(gap.as_str());
        let nm = &lst_params[i].name;
        let seen = index_of_name(&names_seen, nm.as_str());
        match seen {
            Option::Some(k) => {
                let nk = names_seen.len();
                let start = starts[k];
                let width = widths[k];
                proof {
                    assert(starts0[k as int] == starts@[k as int] as int);
                    assert(widths0[k as int] == widths@[k as int] as int);
                }
                crate::helper::append_expansion(&mut sql, param_prefix, start, width);
            },
            Option::None => {
                let k = names_seen.len();
                proof {
                    // a new name: the distinct-name count strictly grows, so k
                    // is within the supplied list arguments
                    assert(lst_names_rec(lstv, i as int, names0) == lst_names_rec(
                        lstv,
                        i + 1 as int,
                        names0.push(lstv[i as int].0),
                    ));
                    lemma_lst_names_len(lstv, i + 1 as int, names0.push(lstv[i as int].0));
                    assert(avail.len() >= names0.len() + 1);
                    // the remaining list values split as this block plus the rest
                    assert(views.skip(k as int).len() > 0);
                    assert(views.skip(k as int).first() == views[k as int]);
                    assert(views.skip(k as int).drop_first() =~= views.skip(k + 1 as int));
                    assert(views.skip(k as int).flatten() == views[k as int] + views.skip(
                        k + 1 as int,
                    ).flatten());
                }
                let start = args.len() + 1;
                names_seen.push(nm.clone());
                starts.push(start);
                let width = lst_args[k].len();
                widths.push(width);
                crate::helper::push(lst_args[k].as_slice(), param_prefix, &mut sql, &mut args);
                proof {
                    assert(strings_view(names_seen@) =~= names0.push(lstv[i as int].0));
                    assert(starts@.map_values(|x: usize| x as int) =~= starts0.push(
                        args_before.len() as int + 1,
                    ));
                    assert(widths@.map_values(|x: usize| x as int) =~= widths0.push(
                        avail[k as int],
                    ));
                    assert(args@ + views.skip(k + 1 as int).flatten() =~= pos0 + views.flatten());
                }
            },
        }
        cursor = p;
        i = i + 1;
    }
    let tail = string_range(&cs, cursor, tn);
    sql.append(tail.as_str());
    (sql, args)
}

/// Finds the given parameter in a statement's identifier list and returns
/// its index offset by `start_index`; `None` when the list does not hold it.
pub fn index_of(param_name: &str, stmt_params: &Vec<String>, start_index: usize) -> (r: Option<
    usize,
>)
    requires
        start_index + stmt_params@.len() <= usize::MAX,
    ensures
        (match r {
            Some(i) => strings_view(stmt_params@).contains(param_name@) && i as int == start_index
                + seq_index_of(strings_view(stmt_params@), param_name@),
            None => !strings_view(stmt_params@).contains(param_name@),
        }),
{
    match index_of_name(stmt_params, param_name) {
        Option::Some(k) => Option::Some(start_index + k),
        Option::None => Option::None,
    }
}

/// Law: the IN-list occurrences that rewriting records are well-placed —
/// their positions never decrease and never point past the rewritten text —
/// so a rewritten statement can always be expanded.
pub proof fn lemma_rewrite_positions(
    s: Seq<char>,
    j: int,
    names: Seq<Seq<char>>,
    prefix: Seq<char>,
    acc: Rewrite,
)
    requires
        0 <= j <= s.len(),
        forall|a: int, b: int|
            0 <= a <= b < acc.lst.len() ==> (#[trigger] acc.lst[a]).1 <= (#[trigger] acc.lst[b]).1,
        forall|a: int| 0 <= a < acc.lst.len() ==> 0 <= (#[trigger] acc.lst[a]).1 <= acc.text.len(),
    ensures
        ({
            let rw = rewrite_from(s, j, names, prefix, acc);
            &&& rw.text.len() >= acc.text.len()
            &&& (forall|a: int, b: int|
                0 <= a <= b < rw.lst.len() ==> (#[trigger] rw.lst[a]).1 <= (
                #[trigger] rw.lst[b]).1)
            &&& (forall|a: int|
                0 <= a < rw.lst.len() ==> 0 <= (#[trigger] rw.lst[a]).1 <= rw.text.len())
        }),
    decreases s.len() - j,
{
    match find_param(s, j) {
        Option::None => {},
        Option::Some(p) => {
            lemma_find_param_bounds(s, j);
            let e = word_end(s, p + 1);
            let nm = s.subrange(p + 1, e);
            let text1 = acc.text + s.subrange(j, p);
            if names.contains(nm) {
                let acc2 = Rewrite {
                    text: text1,
                    pos: acc.pos,
                    lst: acc.lst.push((nm, text1.len() as int)),
                };
                assert forall|a: int, b: int| 0 <= a <= b < acc2.lst.len() implies (
                #[trigger] acc2.lst[a]).1 <= (#[trigger] acc2.lst[b]).1 by {
                    if b < acc.lst.len() {
                    } else if a < acc.lst.len() {
                        assert(acc2.lst[a] == acc.lst[a]);
                    }
                }
                lemma_rewrite_positions(s, e, names, prefix, acc2);
            } else if acc.pos.contains(nm) {
                let acc2 = Rewrite {
                    text: text1 + prefix + dec_digits(seq_index_of(acc.pos, nm) + 1),
                    pos: acc.pos,
                    lst: acc.lst,
                };
                lemma_rewrite_positions(s, e, names, prefix, acc2);
            } else {
                let acc2 = Rewrite {
                    text: text1 + prefix + dec_digits(acc.pos.len() as int + 1),
                    pos: acc.pos.push(nm),
                    lst: acc.lst,
                };
                lemma_rewrite_positions(s, e, names, prefix, acc2);
            }
        },
    }
}

/// Law: the occurrences of a fully rewritten statement are well-placed, so
/// `into_sql_with_args` can always splice the expansions in.
pub proof fn lemma_rewrite_of_positions(s: Seq<char>, prefix: Seq<char>)
    ensures
        ({
            let rw = rewrite_of(s, prefix);
            &&& (forall|a: int, b: int|
                0 <= a <= b < rw.lst.len() ==> (#[trigger] rw.lst[a]).1 <= (
                #[trigger] rw.lst[b]).1)
            &&& (forall|a: int|
                0 <= a < rw.lst.len() ==> 0 <= (#[trigger] rw.lst[a]).1 <= rw.text.len())
        }),
{
    lemma_rewrite_positions(
        s,
        0,
        in_names_of(s),
        prefix,
        Rewrite { text: Seq::empty(), pos: Seq::empty(), lst: Seq::empty() },
    );
}

} // verus!
