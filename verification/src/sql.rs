//! The statement catalog: parsing an annotated SQL document into an ordered
//! list of statements, each holding its name, variant selector,
//! documentation, declared parameters and its ordered sequence of literal
//! text fragments and placeholders.

use vstd::prelude::*;
use crate::chars::{trim_of, trim_end_of, chars_to_string, str_to_chars, trim_in, trim_end_in};
use crate::conv::{snake_of, to_snake_case};
use crate::scan::{
    find_placeholder, find_placeholder_in, lemma_find_placeholder_bounds, string_range, copy_range,
    find_nl, find_nl_in, lemma_find_nl_bounds, comment_body_start, comment_body_of,
    name_directive_of, find_name_directive, param_directive_of, find_param_directive,
    strip_tail_comment, strip_tail_comment_in, is_variant_token, is_variant_selector,
    list_match_at, plain_match_at, skip_spaces, lemma_skip_spaces_bounds,
};
use crate::params::{Params, params_insert};
use crate::err::Error;

verus! {

/// An element of a statement: a literal SQL fragment, a scalar placeholder,
/// or an IN-list placeholder. Placeholder names are snake-case normalized.
#[derive(Debug)]
pub enum StmtItem {
    /// Text portion of the SQL statement
    Text(String),
    /// Parameter placeholder
    Bind(String),
    /// IN-list parameter placeholder
    List(String),
}

/// The mathematical model of a `StmtItem`.
pub enum ItemView {
    Text(Seq<char>),
    Bind(Seq<char>),
    List(Seq<char>),
}

impl View for StmtItem {
    type V = ItemView;

    open spec fn view(&self) -> ItemView {
        match self {
            StmtItem::Text(t) => ItemView::Text(t@),
            StmtItem::Bind(n) => ItemView::Bind(n@),
            StmtItem::List(n) => ItemView::List(n@),
        }
    }
}

/// The models of a vector of statement items.
pub open spec fn items_view(v: Seq<StmtItem>) -> Seq<ItemView> {
    v.map_values(|it: StmtItem| it@)
}

/// The item sequence of a statement text, read from index `i` on: literal
/// text up to the next placeholder becomes a `Text` item (a zero-length gap
/// is omitted), each placeholder becomes a `Bind` or `List` item under its
/// snake-cased name, and the final literal tail is trimmed on both ends.
pub open spec fn items_of(s: Seq<char>, i: int) -> Seq<ItemView>
    decreases s.len() - i,
{
    if i < 0 || i > s.len() {
        Seq::empty()
    } else {
        match find_placeholder(s, i) {
            Option::None => {
                let tail = trim_of(s.subrange(i, s.len() as int));
                if tail.len() == 0 {
                    Seq::empty()
                } else {
                    seq![ItemView::Text(tail)]
                }
            },
            Option::Some(m) => {
                let nm = snake_of(s.subrange(m.colon + 1, m.name_end));
                let item = if m.is_list {
                    ItemView::List(nm)
                } else {
                    ItemView::Bind(nm)
                };
                let gap = if i < m.colon {
                    seq![ItemView::Text(s.subrange(i, m.colon))]
                } else {
                    Seq::empty()
                };
                let next = if i + 1 <= m.name_end && m.name_end <= s.len() {
                    m.name_end
                } else {
                    i + 1
                };
                gap + seq![item] + items_of(s, next)
            },
        }
    }
}

/// The item sequence of a whole statement text.
pub open spec fn items_text_of(s: Seq<char>) -> Seq<ItemView> {
    items_of(s, 0)
}

fn parse_items(cs: &Vec<char>) -> (r: Vec<StmtItem>)
    ensures
        items_view(r@) == items_text_of(cs@),
{
    let n = cs.len();
    let mut items: Vec<StmtItem> = Vec::new();
    let mut i: usize = 0;
    let mut done = false;
    while !done
        invariant
            0 <= i <= n,
            n == cs@.len(),
            items_text_of(cs@) == items_view(items@) + (if done {
                Seq::<ItemView>::empty()
            } else {
                items_of(cs@, i as int)
            }),
        decreases (if done {
            0int
        } else {
            n - i + 1
        }),
    {
        let ghost items0 = items@;
        let found = find_placeholder_in(cs, i);
        proof {
            lemma_find_placeholder_bounds(cs@, i as int);
        }
        match found {
            Option::None => {
                let t = copy_range(cs, i, n);
                let trimmed = trim_in(&t);
                if trimmed.len() > 0 {
                    let text = chars_to_string(&trimmed);
                    items.push(StmtItem::Text(text));
                    proof {
                        assert(items_view(items@) =~= items_view(items0).push(
                            ItemView::Text(trim_of(cs@.subrange(i as int, n as int))),
                        ));
                        assert(items_view(items0) + items_of(cs@, i as int) =~= items_view(
                            items@,
                        ));
                    }
                } else {
                    proof {
                        assert(items_view(items0) + items_of(cs@, i as int) =~= items_view(
                            items@,
                        ));
                    }
                }
                done = true;
            },
            Option::Some((colon, name_end, is_list)) => {
                if i < colon {
                    let gap = string_range(cs, i, colon);
                    items.push(StmtItem::Text(gap));
                }
                let raw = string_range(cs, colon + 1, name_end);
                let name = to_snake_case(raw.as_str());
                if is_list {
                    items.push(StmtItem::List(name));
                } else {
                    items.push(StmtItem::Bind(name));
                }
                proof {
                    let m = find_placeholder(cs@, i as int)->Some_0;
                    let nm = snake_of(cs@.subrange(m.colon + 1, m.name_end));
                    let item = if m.is_list {
                        ItemView::List(nm)
                    } else {
                        ItemView::Bind(nm)
                    };
                    if i < colon {
                        assert(items_view(items@) =~= items_view(items0).push(
                            ItemView::Text(cs@.subrange(i as int, m.colon)),
                        ).push(item));
                    } else {
                        assert(items_view(items@) =~= items_view(items0).push(item));
                    }
                    assert(items_view(items0) + items_of(cs@, i as int) =~= items_view(items@)
                        + items_of(cs@, name_end as int));
                }
                i = name_end;
            },
        }
    }
    items
}

/// Represents the parsed annotated SQL document.
#[derive(Debug)]
pub struct IncludedSql {
    pub file_name: String,
    pub stmt_list: Vec<Stmt>,
}

/// The mathematical model of an `IncludedSql`.
pub struct IncludedSqlView {
    pub file_name: Seq<char>,
    pub stmt_list: Seq<StmtView>,
}

impl View for IncludedSql {
    type V = IncludedSqlView;

    open spec fn view(&self) -> IncludedSqlView {
        IncludedSqlView { file_name: self.file_name@, stmt_list: stmts_view(self.stmt_list@) }
    }
}

/// A single SQL statement found in the document.
#[derive(Debug)]
pub struct Stmt {
    pub name: String,
    /// Indicates how (into what) the statement should be transformed.
    /// For example, `?` might indicate that the generated code would
    /// retrieve and process rows returned by a query.
    pub into: String,
    pub docs: Option<String>,
    pub params: Params,
    pub items: Vec<StmtItem>,
}

/// The mathematical model of a `Stmt`.
pub struct StmtView {
    pub name: Seq<char>,
    pub into: Seq<char>,
    pub docs: Option<Seq<char>>,
    pub params: Seq<(Seq<char>, Seq<char>)>,
    pub items: Seq<ItemView>,
}

impl View for Stmt {
    type V = StmtView;

    open spec fn view(&self) -> StmtView {
        StmtView {
            name: self.name@,
            into: self.into@,
            docs: match self.docs {
                Option::Some(d) => Option::Some(d@),
                Option::None => Option::None,
            },
            params: self.params@,
            items: items_view(self.items@),
        }
    }
}

/// The models of a vector of statements.
pub open spec fn stmts_view(v: Seq<Stmt>) -> Seq<StmtView> {
    v.map_values(|st: Stmt| st@)
}

/// The model of an optional string.
pub open spec fn opt_str_view(o: Option<String>) -> Option<Seq<char>> {
    match o {
        Option::Some(s) => Option::Some(s@),
        Option::None => Option::None,
    }
}

/// What a closed statement looks like: a missing name defaults to the empty
/// string, a missing variant selector to `!`, empty documentation to `None`,
/// and the accumulated text resolves into the item sequence.
pub open spec fn stmt_new_spec(
    name: Option<Seq<char>>,
    into: Option<Seq<char>>,
    params: Seq<(Seq<char>, Seq<char>)>,
    text: Seq<char>,
    docs: Seq<char>,
) -> StmtView {
    StmtView {
        name: match name {
            Option::Some(n) => n,
            Option::None => Seq::empty(),
        },
        into: match into {
            Option::Some(v) => v,
            Option::None => seq!['!'],
        },
        docs: if docs.len() == 0 {
            Option::None
        } else {
            Option::Some(docs)
        },
        params: params,
        items: items_text_of(text),
    }
}

/// The name carried by a `Bind` or `List` item.
pub open spec fn bind_name_of(it: ItemView) -> Option<Seq<char>> {
    match it {
        ItemView::Text(_) => Option::None,
        ItemView::Bind(n) => Option::Some(n),
        ItemView::List(n) => Option::Some(n),
    }
}

/// The distinct placeholders of `items` from index `i` on, each kept at its
/// first occurrence, skipping names already in `seen`.
pub open spec fn unique_binds_from(
    items: Seq<ItemView>,
    i: int,
    seen: Seq<Seq<char>>,
) -> Seq<ItemView>
    decreases items.len() - i,
{
    if i < 0 || i >= items.len() {
        Seq::empty()
    } else {
        match bind_name_of(items[i]) {
            Option::None => unique_binds_from(items, i + 1, seen),
            Option::Some(nm) => if seen.contains(nm) {
                unique_binds_from(items, i + 1, seen)
            } else {
                seq![items[i]] + unique_binds_from(items, i + 1, seen.push(nm))
            },
        }
    }
}

/// Each distinct placeholder of `items`, exactly once, in first-occurrence
/// order: the ordinal contract that positional-argument generation relies on.
pub open spec fn unique_binds_of(items: Seq<ItemView>) -> Seq<ItemView> {
    unique_binds_from(items, 0, Seq::empty())
}

/// The models of a vector of strings.
pub open spec fn strings_view(v: Seq<String>) -> Seq<Seq<char>> {
    v.map_values(|s: String| s@)
}

pub(crate) fn names_contain(names: &Vec<String>, n: &str) -> (b: bool)
    ensures
        b == strings_view(names@).contains(n@),
{
    let len = names.len();
    let mut i: usize = 0;
    while i < len
        invariant
            0 <= i <= len,
            len == names@.len(),
            forall|j: int| 0 <= j < i ==> strings_view(names@)[j] != n@,
        decreases len - i,
    {
        let hit = crate::chars::str_eq(names[i].as_str(), n);
        proof {
            assert(strings_view(names@)[i as int] == names@[i as int]@);
        }
        if hit {
            return true;
        }
        i = i + 1;
    }
    proof {
        assert(!strings_view(names@).contains(n@));
    }
    false
}

impl StmtItem {
    /// Whether this item is a placeholder with the given name.
    pub fn is_bind(&self, name: &str) -> (r: bool)
        ensures
            r == (bind_name_of(self@) == Option::Some(name@)),
    {
        match self {
            StmtItem::Text(_) => false,
            StmtItem::Bind(param_name) => crate::chars::str_eq(param_name.as_str(), name),
            StmtItem::List(param_name) => crate::chars::str_eq(param_name.as_str(), name),
        }
    }
}

impl Stmt {
    /// Builds a statement from what the assembler accumulated.
    pub fn new(
        name: Option<String>,
        into: Option<String>,
        params: Params,
        stmt_text: &str,
        stmt_docs: &str,
    ) -> (r: Stmt)
        ensures
            r@ == stmt_new_spec(
                opt_str_view(name),
                opt_str_view(into),
                params@,
                stmt_text@,
                stmt_docs@,
            ),
    {
        let name_s = match name {
            Option::Some(n) => n,
            Option::None => String::new(),
        };
        let into_s = match into {
            Option::Some(v) => v,
            Option::None => {
                let b = "!".to_owned();
                proof {
                    reveal_strlit("!");
                    assert(b@ =~= seq!['!']);
                }
                b
            },
        };
        let cs = str_to_chars(stmt_text);
        let items = parse_items(&cs);
        let docs = if stmt_docs.is_empty() {
            Option::None
        } else {
            Option::Some(stmt_docs.to_owned())
        };
        Stmt { name: name_s, into: into_s, docs, params, items }
    }

    /// Splits a statement text into its ordered item sequence.
    pub fn parse_text(text: &str) -> (r: Vec<StmtItem>)
        ensures
            items_view(r@) == items_text_of(text@),
    {
        let cs = str_to_chars(text);
        parse_items(&cs)
    }

    /// The statement's distinct placeholders, each exactly once, in
    /// first-occurrence order.
    pub fn unique_binds(&self) -> (r: Vec<StmtItem>)
        ensures
            items_view(r@) == unique_binds_of(items_view(self.items@)),
    {
        let n = self.items.len();
        let mut binds: Vec<StmtItem> = Vec::new();
        let mut names: Vec<String> = Vec::new();
        let mut i: usize = 0;
        let ghost iv = items_view(self.items@);
        proof {
            assert(items_view(binds@) =~= Seq::<ItemView>::empty());
            assert(strings_view(names@) =~= Seq::<Seq<char>>::empty());
            assert(items_view(binds@) + unique_binds_from(iv, 0, strings_view(names@))
                =~= unique_binds_from(iv, 0, Seq::empty()));
        }
        while i < n
            invariant
                0 <= i <= n,
                n == self.items@.len(),
                iv == items_view(self.items@),
                unique_binds_of(iv) == items_view(binds@) + unique_binds_from(
                    iv,
                    i as int,
                    strings_view(names@),
                ),
            decreases n - i,
        {
            let ghost binds0 = binds@;
            let ghost names0 = names@;
            proof {
                assert(iv[i as int] == self.items@[i as int]@);
            }
            match &self.items[i] {
                StmtItem::Text(_) => {},
                StmtItem::Bind(nm) => {
                    if !names_contain(&names, nm.as_str()) {
                        binds.push(StmtItem::Bind(nm.clone()));
                        names.push(nm.clone());
                        proof {
                            assert(items_view(binds@) =~= items_view(binds0).push(iv[i as int]));
                            assert(strings_view(names@) =~= strings_view(names0).push(nm@));
                        }
                    }
                },
                StmtItem::List(nm) => {
                    if !names_contain(&names, nm.as_str()) {
                        binds.push(StmtItem::List(nm.clone()));
                        names.push(nm.clone());
                        proof {
                            assert(items_view(binds@) =~= items_view(binds0).push(iv[i as int]));
                            assert(strings_view(names@) =~= strings_view(names0).push(nm@));
                        }
                    }
                },
            }
            proof {
                assert(items_view(binds0) + unique_binds_from(iv, i as int, strings_view(names0))
                    =~= items_view(binds@) + unique_binds_from(
                    iv,
                    i + 1 as int,
                    strings_view(names@),
                ));
            }
            i = i + 1;
        }
        binds
    }
}


// ---------------------------------------------------------------------------
// The statement assembler
// ---------------------------------------------------------------------------

/// The assembler's state between lines: the pending draft (name, variant,
/// accumulated SQL text, documentation and declared parameters) and the
/// statements emitted so far.
pub struct AsmState {
    pub name: Option<Seq<char>>,
    pub into: Option<Seq<char>>,
    pub text: Seq<char>,
    pub docs: Seq<char>,
    pub params: Seq<(Seq<char>, Seq<char>)>,
    pub out: Seq<StmtView>,
}

/// The assembler's state before any line was seen.
pub open spec fn init_state() -> AsmState {
    AsmState {
        name: Option::None,
        into: Option::None,
        text: Seq::empty(),
        docs: Seq::empty(),
        params: Seq::empty(),
        out: Seq::empty(),
    }
}

/// The statement that closing the pending draft yields.
pub open spec fn close_stmt(st: AsmState) -> StmtView {
    stmt_new_spec(st.name, st.into, st.params, st.text, st.docs)
}

/// Documentation accumulation: lines are joined with single newlines.
pub open spec fn docs_append(docs: Seq<char>, line: Seq<char>) -> Seq<char> {
    (if docs.len() > 0 {
        docs + seq!['\n']
    } else {
        docs
    }) + line
}

/// The documentation line recorded for a declared parameter.
pub open spec fn param_doc_line(name: Seq<char>, text: Seq<char>) -> Seq<char> {
    " * `"@ + name + "` "@ + text
}

/// What one full-line comment (with the marker already stripped) does to the
/// assembler's state: a name directive closes a non-empty draft and starts a
/// fresh one under the new name; after SQL text has started, any other
/// comment is discarded; before that, a parameter directive records the
/// declaration and its documentation line, and anything else is
/// documentation.
pub open spec fn step_comment(st: AsmState, c: Seq<char>) -> AsmState {
    match name_directive_of(c) {
        Option::Some(nv) => AsmState {
            name: Option::Some(nv.0),
            into: if nv.1.len() > 0 {
                Option::Some(nv.1)
            } else {
                Option::None
            },
            text: Seq::empty(),
            docs: Seq::empty(),
            params: Seq::empty(),
            out: if st.text.len() > 0 {
                st.out.push(close_stmt(st))
            } else {
                st.out
            },
        },
        Option::None => if st.text.len() > 0 {
            st
        } else {
            match param_directive_of(c) {
                Option::Some(pd) => {
                    let pname = snake_of(pd.0);
                    AsmState {
                        docs: docs_append(st.docs, param_doc_line(pname, pd.2)),
                        params: params_insert(st.params, pname, pd.1),
                        ..st
                    }
                },
                Option::None => AsmState { docs: docs_append(st.docs, c), ..st },
            }
        },
    }
}

/// Whether a code line ends with the explicit statement terminator.
pub open spec fn ends_semi(s: Seq<char>) -> bool {
    s.len() > 0 && s[s.len() - 1] == ';'
}

/// What one code line does to the assembler's state: its trailing comment is
/// cut, its text is newline-joined onto the draft, and an explicit `;`
/// terminator closes the draft (a draft whose text still comes out empty is
/// discarded together with everything pending).
pub open spec fn step_code(st: AsmState, l: Seq<char>) -> AsmState {
    let joined = if st.text.len() > 0 {
        st.text + seq!['\n']
    } else {
        st.text
    };
    let stripped = strip_tail_comment(l);
    if ends_semi(stripped) {
        let text2 = joined + trim_end_of(stripped.drop_last());
        AsmState {
            name: Option::None,
            into: Option::None,
            text: Seq::empty(),
            docs: Seq::empty(),
            params: Seq::empty(),
            out: if text2.len() > 0 {
                st.out.push(close_stmt(AsmState { text: text2, ..st }))
            } else {
                st.out
            },
        }
    } else {
        AsmState { text: joined + stripped, ..st }
    }
}

/// What one raw input line does to the assembler's state: the line is
/// right-trimmed; a blank line does nothing; a full-line comment goes to the
/// directive recognizer; anything else is SQL text.
pub open spec fn step_line(st: AsmState, raw: Seq<char>) -> AsmState {
    let line = trim_end_of(raw);
    if line.len() == 0 {
        st
    } else {
        match comment_body_start(line) {
            Option::Some(k) => step_comment(st, line.subrange(k, line.len() as int)),
            Option::None => step_code(st, line),
        }
    }
}

/// End of input: a pending draft with SQL text is closed and emitted, with
/// whatever name, variant, documentation and parameters were pending.
pub open spec fn eof_close(st: AsmState) -> Seq<StmtView> {
    if st.text.len() > 0 {
        st.out.push(close_stmt(st))
    } else {
        st.out
    }
}

/// The statements of the document text from index `i` on, given the
/// assembler state `st`: one line at a time, then the end-of-input close.
pub open spec fn parse_lines(s: Seq<char>, i: int, st: AsmState) -> Seq<StmtView>
    decreases s.len() - i,
    via parse_lines_decreases
{
    if i < 0 || i >= s.len() {
        eof_close(st)
    } else {
        let j = find_nl(s, i);
        let line = s.subrange(i, j);
        let next = if j + 1 <= s.len() {
            j + 1
        } else {
            s.len() as int
        };
        parse_lines(s, next, step_line(st, line))
    }
}

#[via_fn]
proof fn parse_lines_decreases(s: Seq<char>, i: int, st: AsmState) {
    if 0 <= i < s.len() {
        lemma_find_nl_bounds(s, i);
    }
}

/// The statement list that the document text parses to.
pub open spec fn parse_text_spec(s: Seq<char>) -> Seq<StmtView> {
    parse_lines(s, 0, init_state())
}

/// The executable assembler: one draft under construction, plus the
/// statements already emitted.
struct Assembler {
    name: Option<String>,
    into: Option<String>,
    text: Vec<char>,
    docs: Vec<char>,
    params: Params,
    out: Vec<Stmt>,
}

impl Assembler {
    spec fn st(&self) -> AsmState {
        AsmState {
            name: opt_str_view(self.name),
            into: opt_str_view(self.into),
            text: self.text@,
            docs: self.docs@,
            params: self.params@,
            out: stmts_view(self.out@),
        }
    }

    fn new() -> (r: Assembler)
        ensures
            r.st() == init_state(),
    {
        let r = Assembler {
            name: Option::None,
            into: Option::None,
            text: Vec::new(),
            docs: Vec::new(),
            params: Params::new(),
            out: Vec::new(),
        };
        proof {
            assert(stmts_view(r.out@) =~= Seq::<StmtView>::empty());
        }
        r
    }

    /// Closes the pending draft into the output and resets everything.
    fn close_draft(&mut self)
        ensures
            final(self).st() == (AsmState {
                name: Option::None,
                into: Option::None,
                text: Seq::empty(),
                docs: Seq::empty(),
                params: Seq::empty(),
                out: old(self).st().out.push(close_stmt(old(self).st())),
            }),
    {
        let ghost st0 = self.st();
        let name = self.name.take();
        let into = self.into.take();
        let mut params = Params::new();
        core::mem::swap(&mut params, &mut self.params);
        let t = chars_to_string(&self.text);
        let d = chars_to_string(&self.docs);
        let stmt = Stmt::new(name, into, params, t.as_str(), d.as_str());
        proof {
            assert(stmt@ == close_stmt(st0));
        }
        self.out.push(stmt);
        self.text.clear();
        self.docs.clear();
        proof {
            assert(stmts_view(self.out@) =~= st0.out.push(close_stmt(st0)));
        }
    }

    /// Discards the pending draft: everything is reset, nothing is emitted.
    fn reset_draft(&mut self)
        ensures
            final(self).st() == (AsmState {
                name: Option::None,
                into: Option::None,
                text: Seq::empty(),
                docs: Seq::empty(),
                params: Seq::empty(),
                out: old(self).st().out,
            }),
    {
        self.name = Option::None;
        self.into = Option::None;
        self.text.clear();
        self.docs.clear();
        self.params = Params::new();
    }

    /// Joins `line` onto the accumulating documentation.
    fn append_doc_line(&mut self, line: &Vec<char>)
        ensures
            final(self).st() == (AsmState {
                docs: docs_append(old(self).st().docs, line@),
                ..old(self).st()
            }),
    {
        let ghost d0 = self.docs@;
        if self.docs.len() > 0 {
            self.docs.push('\n');
            proof {
                assert(self.docs@ =~= d0 + seq!['\n']);
            }
        }
        let mut b = copy_range(line, 0, line.len());
        proof {
            assert(b@ =~= line@);
        }
        self.docs.append(&mut b);
        proof {
            assert(self.docs@ =~= docs_append(d0, line@));
        }
    }

    /// Handles one full-line comment body.
    fn handle_comment(&mut self, body: &Vec<char>)
        ensures
            final(self).st() == step_comment(old(self).st(), body@),
    {
        let ghost st0 = self.st();
        match find_name_directive(body) {
            Option::Some((nm, var)) => {
                if self.text.len() > 0 {
                    self.close_draft();
                } else {
                    self.docs.clear();
                    self.params = Params::new();
                }
                proof {
                    assert(self.text@ =~= Seq::<char>::empty());
                }
                self.name = Option::Some(nm);
                self.into = if !var.as_str().is_empty() {
                    Option::Some(var)
                } else {
                    Option::None
                };
            },
            Option::None => {
                if self.text.len() > 0 {
                    // a comment inside the statement's SQL text: discarded
                } else {
                    match find_param_directive(body) {
                        Option::Some((rawname, ptype, ptext)) => {
                            let pname = to_snake_case(rawname.as_str());
                            let ghost docs0 = self.docs@;
                            if self.docs.len() > 0 {
                                self.docs.push('\n');
                            }
                            let mut pre = str_to_chars(" * `");
                            self.docs.append(&mut pre);
                            let mut nmv = str_to_chars(pname.as_str());
                            self.docs.append(&mut nmv);
                            let mut mid = str_to_chars("` ");
                            self.docs.append(&mut mid);
                            let mut txt = str_to_chars(ptext.as_str());
                            self.docs.append(&mut txt);
                            proof {
                                assert(self.docs@ =~= docs_append(
                                    docs0,
                                    param_doc_line(snake_of(rawname@), ptext@),
                                ));
                            }
                            self.params.insert(pname, ptype);
                        },
                        Option::None => {
                            self.append_doc_line(body);
                        },
                    }
                }
            },
        }
    }

    /// Handles one code line.
    fn handle_code(&mut self, line: &Vec<char>)
        ensures
            final(self).st() == step_code(old(self).st(), line@),
    {
        let ghost st0 = self.st();
        if self.text.len() > 0 {
            self.text.push('\n');
            proof {
                assert(self.text@ =~= st0.text + seq!['\n']);
            }
        }
        let ghost joined = self.text@;
        let mut stripped = strip_tail_comment_in(line);
        let n = stripped.len();
        if n > 0 && stripped[n - 1] == ';' {
            stripped.pop();
            proof {
                assert(stripped@ =~= strip_tail_comment(line@).drop_last());
            }
            let mut body = trim_end_in(&stripped);
            self.text.append(&mut body);
            if self.text.len() > 0 {
                self.close_draft();
            } else {
                self.reset_draft();
            }
        } else {
            let mut s = stripped;
            self.text.append(&mut s);
        }
    }

    /// Handles one raw input line.
    fn handle_line(&mut self, raw: &Vec<char>)
        ensures
            final(self).st() == step_line(old(self).st(), raw@),
    {
        let line = trim_end_in(raw);
        if line.len() == 0 {
            return ;
        }
        match comment_body_of(&line) {
            Option::Some(body) => {
                self.handle_comment(&body);
            },
            Option::None => {
                self.handle_code(&line);
            },
        }
    }

    /// Ends the input: closes a pending draft and hands out the catalog.
    fn into_catalog(self) -> (r: Vec<Stmt>)
        ensures
            stmts_view(r@) == eof_close(self.st()),
    {
        let mut a = self;
        if a.text.len() > 0 {
            a.close_draft();
        }
        a.out
    }
}

/// Splits the document text into its statements: the single pass of the
/// assembler over the lines, closing a pending statement at end of input.
pub fn parse_text(text: &str) -> (r: Vec<Stmt>)
    ensures
        stmts_view(r@) == parse_text_spec(text@),
{
    let cs = str_to_chars(text);
    let n = cs.len();
    let mut mach = Assembler::new();
    let mut i: usize = 0;
    while i < n
        invariant
            0 <= i <= n,
            n == cs@.len(),
            cs@ == text@,
            parse_text_spec(text@) == parse_lines(cs@, i as int, mach.st()),
        decreases n - i,
    {
        let j = find_nl_in(&cs, i);
        let raw = copy_range(&cs, i, j);
        mach.handle_line(&raw);
        i = if j < n {
            j + 1
        } else {
            n
        };
    }
    mach.into_catalog()
}

// ---------------------------------------------------------------------------
// Validation
// ---------------------------------------------------------------------------

/// How the head of a statement is rendered in the unnamed-statement error.
pub open spec fn stmt_head_text(items: Seq<ItemView>) -> Seq<char> {
    match items[0] {
        ItemView::Text(t) => t,
        ItemView::Bind(n) => seq![':'] + n,
        ItemView::List(n) => seq![':'] + n,
    }
}

/// The malformed-statement error message.
pub open spec fn msg_unnamed(head: Seq<char>) -> Seq<char> {
    "statement `"@ + head + "...` must have a name"@
}

/// The malformed-variant error message.
pub open spec fn msg_bad_variant(name: Seq<char>, into: Seq<char>) -> Seq<char> {
    "statement `"@ + name + "` variant selector `"@ + into
        + "` is not a single punctuation token"@
}

/// The unused-parameter error message.
pub open spec fn msg_unused_param(param: Seq<char>, name: Seq<char>) -> Seq<char> {
    "param `"@ + param + "` is not found in `"@ + name + "`"@
}

/// The naming error of one statement, if any: a statement with content must
/// have a name, and its variant selector must be a single well-formed token.
pub open spec fn stmt_name_error(st: StmtView) -> Option<Seq<char>> {
    if st.items.len() > 0 && st.name.len() == 0 {
        Option::Some(msg_unnamed(stmt_head_text(st.items)))
    } else if st.items.len() > 0 && !is_variant_token(st.into) {
        Option::Some(msg_bad_variant(st.name, st.into))
    } else {
        Option::None
    }
}

/// The first naming error in the catalog from index `i` on.
pub open spec fn first_name_error(l: Seq<StmtView>, i: int) -> Option<Seq<char>>
    decreases l.len() - i,
{
    if i < 0 || i >= l.len() {
        Option::None
    } else {
        match stmt_name_error(l[i]) {
            Option::Some(m) => Option::Some(m),
            Option::None => first_name_error(l, i + 1),
        }
    }
}

/// Whether some item of `items` is a placeholder named `name`.
pub open spec fn items_have_bind(items: Seq<ItemView>, name: Seq<char>) -> bool {
    exists|k: int| 0 <= k < items.len() && bind_name_of(items[k]) == Option::Some(name)
}

/// The first declared parameter of the statement, from index `i` on, that no
/// placeholder references.
pub open spec fn first_unused_param(st: StmtView, i: int) -> Option<Seq<char>>
    decreases st.params.len() - i,
{
    if i < 0 || i >= st.params.len() {
        Option::None
    } else if !items_have_bind(st.items, st.params[i].0) {
        Option::Some(st.params[i].0)
    } else {
        first_unused_param(st, i + 1)
    }
}

/// The first unused-parameter error in the catalog from index `i` on.
pub open spec fn first_param_error(l: Seq<StmtView>, i: int) -> Option<Seq<char>>
    decreases l.len() - i,
{
    if i < 0 || i >= l.len() {
        Option::None
    } else {
        match first_unused_param(l[i], 0) {
            Option::Some(p) => Option::Some(msg_unused_param(p, l[i].name)),
            Option::None => first_param_error(l, i + 1),
        }
    }
}

/// The first error that validation reports for the catalog: all naming
/// checks run first, then the parameter checks.
pub open spec fn parse_error_of(stmts: Seq<StmtView>) -> Option<Seq<char>> {
    match first_name_error(stmts, 0) {
        Option::Some(m) => Option::Some(m),
        Option::None => first_param_error(stmts, 0),
    }
}

/// Checks that every statement with content has a name and a well-formed
/// variant selector; fails fast with the first offender.
pub fn check_stmt_names(stmt_list: &Vec<Stmt>) -> (r: Result<(), Error>)
    ensures
        (match first_name_error(stmts_view(stmt_list@), 0) {
            Option::Some(m) => r matches Err(e) && e@ == m,
            Option::None => r is Ok,
        }),
{
    let ghost sv = stmts_view(stmt_list@);
    let n = stmt_list.len();
    let mut i: usize = 0;
    while i < n
        invariant
            0 <= i <= n,
            n == stmt_list@.len(),
            sv == stmts_view(stmt_list@),
            first_name_error(sv, 0) == first_name_error(sv, i as int),
        decreases n - i,
    {
        let stmt = &stmt_list[i];
        proof {
            assert(sv[i as int] == stmt_list@[i as int]@);
        }
        if stmt.items.len() > 0 {
            if stmt.name.as_str().is_empty() {
                let head: String = match &stmt.items[0] {
                    StmtItem::Text(t) => t.clone(),
                    StmtItem::Bind(nm) => {
                        let mut s = ":".to_owned();
                        s.append(nm.as_str());
                        proof {
                            reveal_strlit(":");
                            assert(s@ =~= seq![':'] + nm@);
                        }
                        s
                    },
                    StmtItem::List(nm) => {
                        let mut s = ":".to_owned();
                        s.append(nm.as_str());
                        proof {
                            reveal_strlit(":");
                            assert(s@ =~= seq![':'] + nm@);
                        }
                        s
                    },
                };
                proof {
                    assert(items_view(stmt.items@)[0] == stmt.items@[0]@);
                    assert(head@ == stmt_head_text(sv[i as int].items));
                }
                let mut msg = "statement `".to_owned();
                msg.append(head.as_str());
                msg.append("...` must have a name");
                proof {
                    assert(msg@ =~= msg_unnamed(stmt_head_text(sv[i as int].items)));
                }
                return Err(crate::err::new(msg));
            }
            if !is_variant_selector(stmt.into.as_str()) {
                let mut msg = "statement `".to_owned();
                msg.append(stmt.name.as_str());
                msg.append("` variant selector `");
                msg.append(stmt.into.as_str());
                msg.append("` is not a single punctuation token");
                proof {
                    assert(msg@ =~= msg_bad_variant(sv[i as int].name, sv[i as int].into));
                }
                return Err(crate::err::new(msg));
            }
        }
        i = i + 1;
    }
    Ok(())
}

fn stmt_has_bind(stmt: &Stmt, name: &str) -> (b: bool)
    ensures
        b == items_have_bind(items_view(stmt.items@), name@),
{
    let n = stmt.items.len();
    let mut t: usize = 0;
    while t < n
        invariant
            0 <= t <= n,
            n == stmt.items@.len(),
            forall|k: int|
                0 <= k < t ==> bind_name_of(items_view(stmt.items@)[k]) != Option::Some(name@),
        decreases n - t,
    {
        let hit = stmt.items[t].is_bind(name);
        proof {
            assert(items_view(stmt.items@)[t as int] == stmt.items@[t as int]@);
        }
        if hit {
            return true;
        }
        t = t + 1;
    }
    proof {
        assert(!items_have_bind(items_view(stmt.items@), name@));
    }
    false
}

/// Checks that every declared parameter is referenced by some placeholder of
/// its statement; fails fast with the first offender.
pub fn check_parameters(stmt_list: &Vec<Stmt>) -> (r: Result<(), Error>)
    ensures
        (match first_param_error(stmts_view(stmt_list@), 0) {
            Option::Some(m) => r matches Err(e) && e@ == m,
            Option::None => r is Ok,
        }),
{
    let ghost sv = stmts_view(stmt_list@);
    let n = stmt_list.len();
    let mut i: usize = 0;
    while i < n
        invariant
            0 <= i <= n,
            n == stmt_list@.len(),
            sv == stmts_view(stmt_list@),
            first_param_error(sv, 0) == first_param_error(sv, i as int),
        decreases n - i,
    {
        let stmt = &stmt_list[i];
        proof {
            assert(sv[i as int] == stmt_list@[i as int]@);
        }
        let pn = stmt.params.len();
        let mut k: usize = 0;
        while k < pn
            invariant
                0 <= k <= pn,
                pn == stmt.params@.len(),
                sv == stmts_view(stmt_list@),
                0 <= i < stmt_list@.len(),
                stmt == &stmt_list@[i as int],
                sv[i as int] == stmt_list@[i as int]@,
                first_param_error(sv, 0) == first_param_error(sv, i as int),
                first_unused_param(sv[i as int], 0) == first_unused_param(sv[i as int], k as int),
            decreases pn - k,
        {
            let pname = stmt.params.key_at(k);
            let found_bind = stmt_has_bind(stmt, pname.as_str());
            proof {
                assert(sv[i as int].params == stmt.params@);
                assert(sv[i as int].items == items_view(stmt.items@));
            }
            if !found_bind {
                proof {
                    assert(first_unused_param(sv[i as int], k as int) == Option::Some(
                        sv[i as int].params[k as int].0,
                    ));
                }
                let mut msg = "param `".to_owned();
                msg.append(pname.as_str());
                msg.append("` is not found in `");
                msg.append(stmt.name.as_str());
                msg.append("`");
                proof {
                    assert(msg@ =~= msg_unused_param(
                        sv[i as int].params[k as int].0,
                        sv[i as int].name,
                    ));
                }
                return Err(crate::err::new(msg));
            }
            k = k + 1;
        }
        i = i + 1;
    }
    Ok(())
}

/// The document's base name, applied as the fallback statement name: a
/// statement name set by a directive is never empty (it starts with a
/// letter), so an empty name on the catalog's first statement identifies
/// exactly the statement that no directive ever named, and that one takes
/// the base name. A later nameless statement keeps its empty name and is a
/// malformed-statement error.
pub open spec fn apply_base_name(stmts: Seq<StmtView>, fname: Seq<char>) -> Seq<StmtView> {
    if stmts.len() > 0 && stmts[0].name.len() == 0 {
        stmts.update(0, StmtView { name: fname, ..stmts[0] })
    } else {
        stmts
    }
}

/// Parses the content of an annotated SQL document into its catalog: the
/// assembler runs once over the lines, a very first statement that was never
/// named by any directive takes the document's base name (`file_name`), then
/// validation; the first error aborts the parse and no partial catalog is
/// returned.
pub fn parse(text: &str, file_name: &str) -> (r: Result<IncludedSql, Error>)
    ensures
        ({
            let stmts = apply_base_name(parse_text_spec(text@), file_name@);
            match parse_error_of(stmts) {
                Option::Some(m) => r matches Err(e) && e@ == m,
                Option::None => r matches Ok(inc) && inc@.file_name == file_name@
                    && inc@.stmt_list == stmts,
            }
        }),
{
    let file_name = file_name.to_owned();
    let mut stmt_list = parse_text(text);
    let ghost parsed = stmts_view(stmt_list@);
    if stmt_list.len() > 0 && stmt_list[0].name.as_str().is_empty() {
        // the very first statement was never named: it takes the base name
        let first = stmt_list.remove(0);
        let renamed = Stmt { name: file_name.clone(), ..first };
        stmt_list.insert(0, renamed);
        proof {
            assert(stmts_view(stmt_list@) =~= apply_base_name(parsed, file_name@));
        }
    } else {
        proof {
            assert(stmts_view(stmt_list@) =~= apply_base_name(parsed, file_name@));
        }
    }
    match check_stmt_names(&stmt_list) {
        Result::Err(e) => {
            return Err(e);
        },
        Result::Ok(()) => {},
    }
    match check_parameters(&stmt_list) {
        Result::Err(e) => {
            return Err(e);
        },
        Result::Ok(()) => {},
    }
    Ok(IncludedSql { file_name, stmt_list })
}

// ---------------------------------------------------------------------------
// Laws of the catalog
// ---------------------------------------------------------------------------

/// The index of the first placeholder named `nm` at or after `i` (the length
/// when there is none).
pub open spec fn first_bind_from(items: Seq<ItemView>, i: int, nm: Seq<char>) -> int
    decreases items.len() - i,
{
    if i < 0 || i >= items.len() {
        items.len() as int
    } else if bind_name_of(items[i]) == Option::Some(nm) {
        i
    } else {
        first_bind_from(items, i + 1, nm)
    }
}

/// The index of the first placeholder named `nm` (the length when none).
pub open spec fn first_bind_pos(items: Seq<ItemView>, nm: Seq<char>) -> int {
    first_bind_from(items, 0, nm)
}

pub proof fn lemma_first_bind_from(items: Seq<ItemView>, i: int, nm: Seq<char>)
    requires
        0 <= i <= items.len(),
    ensures
        ({
            let f = first_bind_from(items, i, nm);
            &&& i <= f <= items.len()
            &&& (f < items.len() ==> bind_name_of(items[f]) == Option::Some(nm))
            &&& (forall|k: int|
                i <= k < f ==> bind_name_of(#[trigger] items[k]) != Option::Some(nm))
        }),
    decreases items.len() - i,
{
    if i < items.len() && bind_name_of(items[i]) != Option::Some(nm) {
        lemma_first_bind_from(items, i + 1, nm);
    }
}

proof fn lemma_push_contains(s: Seq<Seq<char>>, x: Seq<char>, y: Seq<char>)
    ensures
        s.push(x).contains(y) <==> (s.contains(y) || x == y),
{
    if s.push(x).contains(y) {
        let w = choose|w: int| 0 <= w < s.push(x).len() && s.push(x)[w] == y;
        if w < s.len() {
            assert(s[w] == y);
        }
    }
    if s.contains(y) {
        let w = choose|w: int| 0 <= w < s.len() && s[w] == y;
        assert(s.push(x)[w] == y);
    }
    if x == y {
        assert(s.push(x)[s.len() as int] == y);
    }
}

proof fn lemma_unique_binds_from(items: Seq<ItemView>, i: int, seen: Seq<Seq<char>>)
    requires
        0 <= i <= items.len(),
    ensures
        ({
            let ub = unique_binds_from(items, i, seen);
            &&& (forall|j: int| 0 <= j < ub.len() ==> bind_name_of(#[trigger] ub[j]) is Some)
            &&& (forall|j: int|
                0 <= j < ub.len() ==> !seen.contains(bind_name_of(#[trigger] ub[j])->Some_0))
            &&& (forall|j: int|
                0 <= j < ub.len() ==> ({
                    let f = first_bind_from(items, i, bind_name_of(#[trigger] ub[j])->Some_0);
                    i <= f < items.len() && items[f] == ub[j]
                }))
            &&& (forall|a: int, b: int|
                0 <= a < b < ub.len() ==> first_bind_from(
                    items,
                    i,
                    bind_name_of(#[trigger] ub[a])->Some_0,
                ) < first_bind_from(items, i, bind_name_of(#[trigger] ub[b])->Some_0))
            &&& (forall|a: int, b: int|
                0 <= a < b < ub.len() ==> bind_name_of(#[trigger] ub[a]) != bind_name_of(
                    #[trigger] ub[b],
                ))
            &&& (forall|k: int|
                i <= k < items.len() && bind_name_of(#[trigger] items[k]) is Some
                    && !seen.contains(bind_name_of(items[k])->Some_0) ==> (exists|j: int|
                    0 <= j < ub.len() && bind_name_of(#[trigger] ub[j]) == bind_name_of(
                        items[k],
                    )))
        }),
    decreases items.len() - i,
{
    let ub = unique_binds_from(items, i, seen);
    if i >= items.len() {
    } else {
        match bind_name_of(items[i]) {
            Option::None => {
                lemma_unique_binds_from(items, i + 1, seen);
            },
            Option::Some(nm) => {
                if seen.contains(nm) {
                    lemma_unique_binds_from(items, i + 1, seen);
                    let rec = unique_binds_from(items, i + 1, seen);
                    assert forall|k: int|
                        i <= k < items.len() && bind_name_of(#[trigger] items[k]) is Some
                            && !seen.contains(bind_name_of(items[k])->Some_0) implies (exists|
                        j: int,
                    |
                        0 <= j < ub.len() && bind_name_of(#[trigger] ub[j]) == bind_name_of(
                            items[k],
                        )) by {
                        assert(k != i);
                    }
                } else {
                    let seen2 = seen.push(nm);
                    lemma_unique_binds_from(items, i + 1, seen2);
                    let rec = unique_binds_from(items, i + 1, seen2);
                    assert(ub == seq![items[i]] + rec);
                    assert(ub[0] == items[i]);
                    assert forall|j: int|
                        0 <= j < ub.len() implies bind_name_of(#[trigger] ub[j]) is Some by {
                        if j > 0 {
                            assert(ub[j] == rec[j - 1]);
                        }
                    }
                    assert forall|j: int| 0 <= j < ub.len() implies !seen.contains(
                        bind_name_of(#[trigger] ub[j])->Some_0,
                    ) by {
                        if j > 0 {
                            assert(ub[j] == rec[j - 1]);
                            lemma_push_contains(seen, nm, bind_name_of(ub[j])->Some_0);
                        }
                    }
                    assert forall|j: int|
                        0 <= j < ub.len() implies ({
                        let f = first_bind_from(items, i, bind_name_of(#[trigger] ub[j])->Some_0);
                        i <= f < items.len() && items[f] == ub[j]
                    }) by {
                        if j == 0 {
                            assert(first_bind_from(items, i, nm) == i);
                        } else {
                            assert(ub[j] == rec[j - 1]);
                            let nj = bind_name_of(ub[j])->Some_0;
                            lemma_push_contains(seen, nm, nj);
                            assert(nj != nm);
                            assert(first_bind_from(items, i, nj) == first_bind_from(
                                items,
                                i + 1,
                                nj,
                            ));
                        }
                    }
                    assert forall|a: int, b: int| 0 <= a < b < ub.len() implies first_bind_from(
                        items,
                        i,
                        bind_name_of(#[trigger] ub[a])->Some_0,
                    ) < first_bind_from(items, i, bind_name_of(#[trigger] ub[b])->Some_0) by {
                        let nb = bind_name_of(ub[b])->Some_0;
                        assert(ub[b] == rec[b - 1]);
                        lemma_push_contains(seen, nm, nb);
                        assert(nb != nm);
                        assert(first_bind_from(items, i, nb) == first_bind_from(items, i + 1, nb));
                        lemma_first_bind_from(items, i + 1, nb);
                        if a == 0 {
                            assert(first_bind_from(items, i, nm) == i);
                        } else {
                            assert(ub[a] == rec[a - 1]);
                            let na = bind_name_of(ub[a])->Some_0;
                            lemma_push_contains(seen, nm, na);
                            assert(na != nm);
                            assert(first_bind_from(items, i, na) == first_bind_from(
                                items,
                                i + 1,
                                na,
                            ));
                        }
                    }
                    assert forall|a: int, b: int| 0 <= a < b < ub.len() implies bind_name_of(
                        #[trigger] ub[a],
                    ) != bind_name_of(#[trigger] ub[b]) by {
                        let nb = bind_name_of(ub[b])->Some_0;
                        assert(ub[b] == rec[b - 1]);
                        lemma_push_contains(seen, nm, nb);
                        if a == 0 {
                            assert(nb != nm);
                        } else {
                            assert(ub[a] == rec[a - 1]);
                        }
                    }
                    assert forall|k: int|
                        i <= k < items.len() && bind_name_of(#[trigger] items[k]) is Some
                            && !seen.contains(bind_name_of(items[k])->Some_0) implies (exists|
                        j: int,
                    |
                        0 <= j < ub.len() && bind_name_of(#[trigger] ub[j]) == bind_name_of(
                            items[k],
                        )) by {
                        let nk = bind_name_of(items[k])->Some_0;
                        if nk == nm {
                            assert(bind_name_of(ub[0]) == bind_name_of(items[k]));
                        } else {
                            lemma_push_contains(seen, nm, nk);
                            assert(k != i);
                            let j = choose|j: int|
                                0 <= j < rec.len() && bind_name_of(#[trigger] rec[j])
                                    == bind_name_of(items[k]);
                            assert(ub[j + 1] == rec[j]);
                            assert(bind_name_of(ub[j + 1]) == bind_name_of(items[k]));
                        }
                    }
                }
            },
        }
    }
}

/// Law: ordinal stability of the deduplicated placeholder list. Each entry
/// of `unique_binds` is a placeholder of the statement, kept at its first
/// occurrence; the names are pairwise distinct; the entries come in
/// first-occurrence order; and every placeholder name of the statement
/// appears.
pub proof fn lemma_unique_binds_ordinals(items: Seq<ItemView>)
    ensures
        ({
            let ub = unique_binds_of(items);
            &&& (forall|j: int|
                0 <= j < ub.len() ==> ({
                    let f = first_bind_pos(items, bind_name_of(#[trigger] ub[j])->Some_0);
                    bind_name_of(ub[j]) is Some && 0 <= f < items.len() && items[f] == ub[j]
                }))
            &&& (forall|a: int, b: int|
                0 <= a < b < ub.len() ==> bind_name_of(#[trigger] ub[a]) != bind_name_of(
                    #[trigger] ub[b],
                ))
            &&& (forall|a: int, b: int|
                0 <= a < b < ub.len() ==> first_bind_pos(
                    items,
                    bind_name_of(#[trigger] ub[a])->Some_0,
                ) < first_bind_pos(items, bind_name_of(#[trigger] ub[b])->Some_0))
            &&& (forall|k: int|
                0 <= k < items.len() && bind_name_of(#[trigger] items[k]) is Some ==> (exists|
                j: int,
            |
                0 <= j < ub.len() && bind_name_of(#[trigger] ub[j]) == bind_name_of(items[k])))
        }),
{
    lemma_unique_binds_from(items, 0, Seq::empty());
}

/// Law: list vs scalar classification is decided once per textual
/// occurrence. The placeholder occurrence found at or after `i` becomes the
/// next placeholder item of the resolved sequence; it is a `List` exactly
/// when it was found as the sole content of an `IN ( ... )` clause (the
/// IN-list pattern matched at some earlier point of the scan, placing this
/// very `:` sigil), and a `Bind` otherwise — in which case no IN-list
/// pattern matched anywhere the scan looked, up to and including the sigil.
/// The same name is free to classify differently at its other occurrences.
pub proof fn lemma_classification_per_occurrence(s: Seq<char>, i: int)
    requires
        0 <= i,
    ensures
        (match find_placeholder(s, i) {
            Option::Some(m) => ({
                let name = snake_of(s.subrange(m.colon + 1, m.name_end));
                let items = items_of(s, i);
                let idx: int = if i < m.colon {
                    1int
                } else {
                    0int
                };
                &&& 0 <= idx < items.len()
                &&& (m.is_list ==> items[idx] == ItemView::List(name) && (exists|j: int|
                    i <= j < m.colon && #[trigger] list_match_at(s, j) && m.colon == skip_spaces(
                        s,
                        skip_spaces(s, j + 2) + 1,
                    )))
                &&& (!m.is_list ==> items[idx] == ItemView::Bind(name) && plain_match_at(s, m.colon)
                    && (forall|j: int| i <= j <= m.colon ==> !(#[trigger] list_match_at(s, j))))
            }),
            Option::None => true,
        }),
    decreases s.len() - i,
{
    if 0 <= i < s.len() {
        lemma_find_placeholder_bounds(s, i);
        if list_match_at(s, i) {
            let a = skip_spaces(s, i + 2);
            lemma_skip_spaces_bounds(s, i + 2);
            let b = skip_spaces(s, a + 1);
            lemma_skip_spaces_bounds(s, a + 1);
            assert(list_match_at(s, i) && i <= i < b);
        } else if plain_match_at(s, i) {
        } else {
            lemma_classification_per_occurrence(s, i + 1);
            match find_placeholder(s, i) {
                Option::None => {},
                Option::Some(m) => {
                    let name = snake_of(s.subrange(m.colon + 1, m.name_end));
                    let items = items_of(s, i);
                    // the occurrence starts past i, so a gap item precedes it
                    assert(i < m.colon) by {
                        lemma_find_placeholder_bounds(s, i + 1);
                    }
                    assert(items[1] == (if m.is_list {
                        ItemView::List(name)
                    } else {
                        ItemView::Bind(name)
                    }));
                },
            }
        }
    }
}

/// A document whose every line is blank or a full-line comment, read from
/// index `i` on.
pub open spec fn comment_only_from(s: Seq<char>, i: int) -> bool
    decreases s.len() - i,
    via comment_only_decreases
{
    if i < 0 || i >= s.len() {
        true
    } else {
        let j = find_nl(s, i);
        let line = trim_end_of(s.subrange(i, j));
        let next = if j + 1 <= s.len() {
            j + 1
        } else {
            s.len() as int
        };
        (line.len() == 0 || comment_body_start(line) is Some) && comment_only_from(s, next)
    }
}

#[via_fn]
proof fn comment_only_decreases(s: Seq<char>, i: int) {
    if 0 <= i < s.len() {
        lemma_find_nl_bounds(s, i);
    }
}

proof fn lemma_comment_only_lines(s: Seq<char>, i: int, st: AsmState)
    requires
        0 <= i,
        comment_only_from(s, i),
        st.text.len() == 0,
    ensures
        parse_lines(s, i, st) == st.out,
    decreases s.len() - i,
{
    if i >= s.len() {
    } else {
        let j = find_nl(s, i);
        lemma_find_nl_bounds(s, i);
        let line = trim_end_of(s.subrange(i, j));
        let st2 = step_line(st, s.subrange(i, j));
        assert(st2.text.len() == 0 && st2.out == st.out) by {
            if line.len() > 0 {
                let k = comment_body_start(line)->Some_0;
                let c = line.subrange(k, line.len() as int);
                assert(st2 == step_comment(st, c));
            }
        }
        let next = if j + 1 <= s.len() {
            j + 1
        } else {
            s.len() as int
        };
        lemma_comment_only_lines(s, next, st2);
    }
}

/// Law: a document holding only blank lines and full-line comments yields an
/// empty catalog — untouched by the base-name fallback — and parsing it
/// reports no error.
pub proof fn lemma_comment_only_empty_catalog(s: Seq<char>)
    requires
        comment_only_from(s, 0),
    ensures
        parse_text_spec(s) == Seq::<StmtView>::empty(),
        forall|fname: Seq<char>|
            #[trigger] apply_base_name(parse_text_spec(s), fname) == parse_text_spec(s),
        parse_error_of(parse_text_spec(s)) is None,
{
    lemma_comment_only_lines(s, 0, init_state());
}

/// Law: no terminator is needed at end of input. A draft that still holds
/// SQL text when the document ends is closed and emitted as the catalog's
/// last statement, built from whatever name, variant selector, parameters
/// and documentation were pending.
pub proof fn lemma_eof_closes_pending(s: Seq<char>, i: int, st: AsmState)
    requires
        i >= s.len(),
        st.text.len() > 0,
    ensures
        parse_lines(s, i, st) == st.out.push(
            stmt_new_spec(st.name, st.into, st.params, st.text, st.docs),
        ),
        parse_lines(s, i, st).len() == st.out.len() + 1,
        parse_lines(s, i, st).last() == close_stmt(st),
{
}

/// Law: placeholder names in a resolved item sequence are always snake-case
/// normalized, whatever case the placeholder was written in.
pub proof fn lemma_item_names_normalized(s: Seq<char>, i: int)
    requires
        0 <= i,
    ensures
        forall|k: int|
            0 <= k < items_of(s, i).len() ==> (match bind_name_of(#[trigger] items_of(s, i)[k]) {
                Option::Some(nm) => crate::conv::is_snake_normal(nm),
                Option::None => true,
            }),
    decreases s.len() - i,
{
    let out = items_of(s, i);
    if i > s.len() {
    } else {
        match find_placeholder(s, i) {
            Option::None => {},
            Option::Some(m) => {
                let nm = snake_of(s.subrange(m.colon + 1, m.name_end));
                crate::conv::lemma_snake_of_normal(s.subrange(m.colon + 1, m.name_end));
                let next = if i + 1 <= m.name_end && m.name_end <= s.len() {
                    m.name_end
                } else {
                    i + 1
                };
                lemma_item_names_normalized(s, next);
                let rest = items_of(s, next);
                let head = out.len() - rest.len();
                assert forall|k: int|
                    0 <= k < out.len() implies (match bind_name_of(#[trigger] out[k]) {
                    Option::Some(nmk) => crate::conv::is_snake_normal(nmk),
                    Option::None => true,
                }) by {
                    if k >= head {
                        assert(out[k] == rest[k - head]);
                    }
                }
            },
        }
    }
}

proof fn lemma_name_error_none(l: Seq<StmtView>, i: int)
    requires
        0 <= i,
        first_name_error(l, i) is None,
    ensures
        forall|j: int| i <= j < l.len() ==> stmt_name_error(#[trigger] l[j]) is None,
    decreases l.len() - i,
{
    if i < l.len() {
        lemma_name_error_none(l, i + 1);
    }
}

proof fn lemma_param_error_none(l: Seq<StmtView>, i: int)
    requires
        0 <= i,
        first_param_error(l, i) is None,
    ensures
        forall|j: int| i <= j < l.len() ==> first_unused_param(#[trigger] l[j], 0) is None,
    decreases l.len() - i,
{
    if i < l.len() {
        lemma_param_error_none(l, i + 1);
    }
}

proof fn lemma_unused_param_none(st: StmtView, i: int)
    requires
        0 <= i,
        first_unused_param(st, i) is None,
    ensures
        forall|k: int| i <= k < st.params.len() ==> items_have_bind(st.items, (#[trigger] st.params[k]).0),
    decreases st.params.len() - i,
{
    if i < st.params.len() {
        lemma_unused_param_none(st, i + 1);
    }
}

/// Law: a catalog that validation lets through satisfies the catalog
/// invariants — every statement with content carries a non-empty name and a
/// single well-formed variant selector token, and every declared parameter
/// is referenced by some placeholder of its statement.
pub proof fn lemma_validated_catalog(stmts: Seq<StmtView>)
    requires
        parse_error_of(stmts) is None,
    ensures
        forall|i: int|
            0 <= i < stmts.len() && (#[trigger] stmts[i]).items.len() > 0 ==> stmts[i].name.len()
                > 0 && is_variant_token(stmts[i].into),
        forall|i: int, k: int|
            0 <= i < stmts.len() && 0 <= k < (#[trigger] stmts[i]).params.len()
                ==> items_have_bind(stmts[i].items, (#[trigger] stmts[i].params[k]).0),
{
    lemma_name_error_none(stmts, 0);
    lemma_param_error_none(stmts, 0);
    assert forall|i: int, k: int|
        0 <= i < stmts.len() && 0 <= k < (#[trigger] stmts[i]).params.len() implies items_have_bind(
        stmts[i].items,
        (#[trigger] stmts[i].params[k]).0,
    ) by {
        lemma_unused_param_none(stmts[i], 0);
    }
}

} // verus!
