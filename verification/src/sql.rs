//! A small SQL front end: statement normalization and parsing into an AST.
use crate::text::{
    chars_of, concat, copy_range, eq_ignore_ascii_case, find_after_chars, is_ascii_whitespace,
    last_piece_chars, split_chars, starts_with_chars, string_of, trim_chars,
    trim_end_matches_chars, trim_matches_chars, trim_start_matches_chars, uppercase, words_chars,
};
use vstd::prelude::*;
use vstd::string::*;

verus! {

broadcast use vstd::seq_lib::group_seq_properties;

/// Comparison operators in WHERE conditions.
#[derive(Debug, PartialEq, Eq, Clone, Copy, Structural)]
pub enum Operator {
    Eq,
    Neq,
    Gt,
    Gte,
    Lt,
    Lte,
}

/// How a condition combines with the next one.
#[derive(Debug, PartialEq, Eq, Clone, Copy, Structural)]
pub enum LogicOp {
    And,
    Or,
}

/// One `column <op> value` condition.
#[derive(Debug, PartialEq, Clone)]
pub struct WhereCondition {
    pub left_col: String,
    pub operator: Operator,
    pub right_val: String,
    pub next_logic: Option<LogicOp>,
}

/// A column declared in CREATE TABLE.
#[derive(Debug, PartialEq, Clone)]
pub struct ColumnDef {
    pub name: String,
    pub data_type: String,
}

/// A parsed statement.
#[allow(inconsistent_fields)]
#[derive(Debug, PartialEq)]
pub enum Ast {
    Select {
        columns: Vec<String>,
        table: String,
        table_alias: Option<String>,
        join: Vec<JoinClause>,
        where_clause: Vec<WhereCondition>,
        order_by: Option<String>,
    },
    Insert { table: String, values: Vec<String> },
    CreateTable { table: String, columns: Vec<ColumnDef>, if_not_exists: bool },
    DropTable { table: String, if_exists: bool },
    Delete { table: String, where_clause: Vec<WhereCondition> },
}

/// A JOIN ... ON left = right clause.
#[derive(Debug, PartialEq)]
pub struct JoinClause {
    pub table: String,
    pub alias: Option<String>,
    pub left_col: String,
    pub right_col: String,
}

// ---------------------------------------------------------------------------
// Views
// ---------------------------------------------------------------------------

pub struct CondView {
    pub left_col: Seq<char>,
    pub operator: Operator,
    pub right_val: Seq<char>,
    pub next_logic: Option<LogicOp>,
}

pub struct ColumnDefView {
    pub name: Seq<char>,
    pub data_type: Seq<char>,
}

pub struct JoinView {
    pub table: Seq<char>,
    pub alias: Option<Seq<char>>,
    pub left_col: Seq<char>,
    pub right_col: Seq<char>,
}

#[allow(inconsistent_fields)]
pub enum AstView {
    Select {
        columns: Seq<Seq<char>>,
        table: Seq<char>,
        table_alias: Option<Seq<char>>,
        join: Seq<JoinView>,
        where_clause: Seq<CondView>,
        order_by: Option<Seq<char>>,
    },
    Insert { table: Seq<char>, values: Seq<Seq<char>> },
    CreateTable { table: Seq<char>, columns: Seq<ColumnDefView>, if_not_exists: bool },
    DropTable { table: Seq<char>, if_exists: bool },
    Delete { table: Seq<char>, where_clause: Seq<CondView> },
}

/// What parsing a statement yields: an AST, an error message, or nothing because the
/// statement's parts overlap so that it cannot be taken apart.
pub enum ParseOutcome {
    Parsed(AstView),
    Failed(Seq<char>),
    Undefined,
}

impl View for WhereCondition {
    type V = CondView;

    open spec fn view(&self) -> CondView {
        CondView {
            left_col: self.left_col@,
            operator: self.operator,
            right_val: self.right_val@,
            next_logic: self.next_logic,
        }
    }
}

impl View for ColumnDef {
    type V = ColumnDefView;

    open spec fn view(&self) -> ColumnDefView {
        ColumnDefView { name: self.name@, data_type: self.data_type@ }
    }
}

pub open spec fn opt_view(o: Option<String>) -> Option<Seq<char>> {
    match o {
        Some(s) => Some(s@),
        None => None,
    }
}

impl View for JoinClause {
    type V = JoinView;

    open spec fn view(&self) -> JoinView {
        JoinView {
            table: self.table@,
            alias: opt_view(self.alias),
            left_col: self.left_col@,
            right_col: self.right_col@,
        }
    }
}

pub open spec fn strings_view(v: Seq<String>) -> Seq<Seq<char>> {
    v.map_values(|s: String| s@)
}

impl View for Ast {
    type V = AstView;

    open spec fn view(&self) -> AstView {
        match self {
            Ast::Select { columns, table, table_alias, join, where_clause, order_by } => AstView::Select {
                columns: strings_view(columns@),
                table: table@,
                table_alias: opt_view(*table_alias),
                join: join@.map_values(|j: JoinClause| j@),
                where_clause: where_clause@.map_values(|c: WhereCondition| c@),
                order_by: opt_view(*order_by),
            },
            Ast::Insert { table, values } => AstView::Insert { table: table@, values: strings_view(values@) },
            Ast::CreateTable { table, columns, if_not_exists } => AstView::CreateTable {
                table: table@,
                columns: columns@.map_values(|c: ColumnDef| c@),
                if_not_exists: *if_not_exists,
            },
            Ast::DropTable { table, if_exists } => AstView::DropTable { table: table@, if_exists: *if_exists },
            Ast::Delete { table, where_clause } => AstView::Delete {
                table: table@,
                where_clause: where_clause@.map_values(|c: WhereCondition| c@),
            },
        }
    }
}

// ---------------------------------------------------------------------------
// Normalization
// ---------------------------------------------------------------------------

/// Normalizes `s[i..]` given whether the scan is inside a quoted string, inside a `--`
/// comment, and whether the last emitted character was a space: comments are dropped (a
/// newline ending one emits a space), runs of ASCII whitespace outside quotes become one
/// space, and everything else is copied.
pub open spec fn norm_from(s: Seq<char>, i: nat, in_quotes: bool, in_comment: bool, last_space: bool) -> Seq<char>
    decreases s.len() - i,
{
    if i >= s.len() {
        Seq::empty()
    } else if in_comment {
        if s[i as int] == '\n' {
            (if !last_space { seq![' '] } else { Seq::empty() }) + norm_from(s, i + 1, in_quotes, false, true)
        } else {
            norm_from(s, i + 1, in_quotes, true, last_space)
        }
    } else if !in_quotes && s[i as int] == '-' && i + 1 < s.len() && s[i + 1int] == '-' {
        norm_from(s, i + 2, in_quotes, true, last_space)
    } else if s[i as int] == '\'' {
        seq!['\''] + norm_from(s, i + 1, !in_quotes, false, false)
    } else if !in_quotes && crate::text::is_ascii_ws(s[i as int]) {
        (if !last_space { seq![' '] } else { Seq::empty() }) + norm_from(s, i + 1, in_quotes, false, true)
    } else {
        seq![s[i as int]] + norm_from(s, i + 1, in_quotes, false, false)
    }
}

/// The normalized statement: comments removed, whitespace collapsed, and trimmed.
pub open spec fn normalize(s: Seq<char>) -> Seq<char> {
    crate::text::trim(norm_from(s, 0, false, false, false))
}

fn normalize_sql(sql: &[char]) -> (r: Vec<char>)
    ensures
        r@ == normalize(sql@),
{
    let mut out: Vec<char> = Vec::new();
    let mut in_quotes = false;
    let mut in_comment = false;
    let mut last_was_space = false;
    let mut i: usize = 0;
    while i < sql.len()
        invariant
            i <= sql@.len(),
            norm_from(sql@, 0, false, false, false) == out@ + norm_from(
                sql@,
                i as nat,
                in_quotes,
                in_comment,
                last_was_space,
            ),
        decreases sql@.len() - i,
    {
        let c = sql[i];
        let ghost before = out@;
        if in_comment {
            if c == '\n' {
                in_comment = false;
                if !last_was_space {
                    out.push(' ');
                    last_was_space = true;
                }
                last_was_space = true;
            }
            i += 1;
            assert(norm_from(sql@, 0, false, false, false) =~= out@ + norm_from(
                sql@,
                i as nat,
                in_quotes,
                in_comment,
                last_was_space,
            ));
            continue;
        }
        if !in_quotes && c == '-' && i + 1 < sql.len() && sql[i + 1] == '-' {
            in_comment = true;
            i += 2;
            continue;
        }
        if c == '\'' {
            in_quotes = !in_quotes;
            out.push(c);
            last_was_space = false;
        } else if !in_quotes && is_ascii_whitespace(c) {
            if !last_was_space {
                out.push(' ');
                last_was_space = true;
            }
        } else {
            out.push(c);
            last_was_space = false;
        }
        i += 1;
        assert(norm_from(sql@, 0, false, false, false) =~= out@ + norm_from(
            sql@,
            i as nat,
            in_quotes,
            in_comment,
            last_was_space,
        ));
    }
    assert(out@ =~= norm_from(sql@, 0, false, false, false));
    trim_chars(out.as_slice())
}

// ---------------------------------------------------------------------------
// WHERE conditions
// ---------------------------------------------------------------------------

/// `word` occurs at `c` in `w`, ignoring ASCII case.
pub open spec fn window_is(w: Seq<char>, c: nat, word: Seq<char>) -> bool {
    c + word.len() <= w.len() && crate::text::eq_ignore_case(w.subrange(c as int, (c + word.len()) as int), word)
}

pub open spec fn and_word() -> Seq<char> {
    seq![' ', 'a', 'n', 'd', ' ']
}

pub open spec fn or_word() -> Seq<char> {
    seq![' ', 'o', 'r', ' ']
}

/// Splits a WHERE body at ` and ` / ` or ` (any ASCII case) scanning from `c`, the current
/// condition having started at `start`; each piece carries the connective that follows it.
pub open spec fn split_conds(w: Seq<char>, c: nat, start: nat) -> Seq<(Seq<char>, Option<LogicOp>)>
    decreases w.len() - c,
{
    if c >= w.len() {
        seq![(w.subrange(start as int, w.len() as int), None)]
    } else if window_is(w, c, and_word()) {
        seq![(w.subrange(start as int, c as int), Some(LogicOp::And))] + split_conds(w, c + 5, c + 5)
    } else if window_is(w, c, or_word()) {
        seq![(w.subrange(start as int, c as int), Some(LogicOp::Or))] + split_conds(w, c + 4, c + 4)
    } else {
        split_conds(w, c + 1, start)
    }
}

/// The operator of a condition and where it stands: the two-character operators are looked
/// for first (`>=`, `<=`, `!=`), then `>`, `<`, `=`.
pub open spec fn find_op(r: Seq<char>) -> Option<(int, int, Operator)> {
    match crate::text::find(r, seq!['>', '=']) {
        Some(i) => Some((i, 2, Operator::Gte)),
        None => match crate::text::find(r, seq!['<', '=']) {
            Some(i) => Some((i, 2, Operator::Lte)),
            None => match crate::text::find(r, seq!['!', '=']) {
                Some(i) => Some((i, 2, Operator::Neq)),
                None => match crate::text::find(r, seq!['>']) {
                    Some(i) => Some((i, 1, Operator::Gt)),
                    None => match crate::text::find(r, seq!['<']) {
                        Some(i) => Some((i, 1, Operator::Lt)),
                        None => match crate::text::find(r, seq!['=']) {
                            Some(i) => Some((i, 1, Operator::Eq)),
                            None => None,
                        },
                    },
                },
            },
        },
    }
}

/// How an operator is written in a condition.
pub open spec fn op_spelling(op: Operator) -> Seq<char> {
    match op {
        Operator::Eq => seq!['='],
        Operator::Neq => seq!['!', '='],
        Operator::Gt => seq!['>'],
        Operator::Gte => seq!['>', '='],
        Operator::Lt => seq!['<'],
        Operator::Lte => seq!['<', '='],
    }
}

/// A character that operators are spelled with.
pub open spec fn op_char(c: char) -> bool {
    c == '<' || c == '>' || c == '=' || c == '!'
}

/// The text holds no character that operators are spelled with.
pub open spec fn no_op_chars(s: Seq<char>) -> bool {
    forall|i: int| 0 <= i < s.len() ==> !op_char(#[trigger] s[i])
}

/// A pattern that starts with an operator character occurs in `c`, an operator spelling and
/// `v` only within the spelling, and `find` gives its first place there.
proof fn lemma_find_in_spelling(c: Seq<char>, sp: Seq<char>, v: Seq<char>, pat: Seq<char>)
    requires
        no_op_chars(c),
        no_op_chars(v),
        1 <= pat.len(),
        op_char(pat[0]),
        1 <= sp.len() <= 2,
    ensures
        crate::text::find(c + sp + v, pat) == if crate::text::occurs_at(c + sp + v, pat, c.len() as int) {
            Some(c.len() as int)
        } else if crate::text::occurs_at(c + sp + v, pat, c.len() + 1int) && sp.len() == 2 {
            Some(c.len() + 1int)
        } else {
            None::<int>
        },
{
    let r = c + sp + v;
    let a = c.len() as int;
    assert forall|j: int| #[trigger] crate::text::occurs_at(r, pat, j) implies a <= j < a + sp.len() by {
        crate::text::lemma_occurs_at_chars(r, pat, j);
        assert(r[j + 0] == pat[0]);
        if j < a {
            assert(r[j] == c[j]);
        } else if j >= a + sp.len() {
            assert(r[j] == v[j - a - sp.len()]);
        }
    }
    if crate::text::occurs_at(r, pat, a) {
        crate::text::lemma_find_first(r, pat, a);
    } else if crate::text::occurs_at(r, pat, a + 1) && sp.len() == 2 {
        crate::text::lemma_find_first(r, pat, a + 1);
    } else {
        assert forall|j: int| !crate::text::occurs_at(r, pat, j) by {
            if crate::text::occurs_at(r, pat, j) {
                assert(a <= j < a + sp.len());
            }
        }
        crate::text::lemma_find_absent(r, pat);
    }
}

/// Text that starts and ends with a character other than whitespace is its own trim.
proof fn lemma_trim_whole(r: Seq<char>)
    requires
        r.len() > 0,
        !crate::text::is_ws(r[0]),
        !crate::text::is_ws(r.last()),
    ensures
        crate::text::trim(r) == r,
{
    assert(crate::text::trim_start(r) == r);
    assert(crate::text::trim_end(r) == r);
}

/// Where a pattern of operator characters stands right at the spelling.
proof fn lemma_spelling_chars(c: Seq<char>, sp: Seq<char>, v: Seq<char>, pat: Seq<char>)
    requires
        no_op_chars(v),
        1 <= sp.len() <= 2,
        v.len() > 0,
        1 <= pat.len() <= 2,
        forall|k: int| 0 <= k < pat.len() ==> op_char(#[trigger] pat[k]),
    ensures
        crate::text::occurs_at(c + sp + v, pat, c.len() as int) <==> (pat[0] == sp[0] && (pat.len() == 2 ==> sp.len()
            == 2 && pat[1] == sp[1])),
        crate::text::occurs_at(c + sp + v, pat, c.len() + 1int) && sp.len() == 2 <==> (sp.len() == 2 && pat.len() == 1
            && pat[0] == sp[1]),
{
    let r = c + sp + v;
    let a = c.len() as int;
    crate::text::lemma_occurs_at_chars(r, pat, a);
    crate::text::lemma_occurs_at_chars(r, pat, a + 1);
    assert(r[a + 0] == sp[0]);
    if sp.len() == 2 {
        assert(r[a + 1] == sp[1]);
        assert(r[a + 1 + 0] == sp[1]);
        assert(r[a + 2] == v[0]);
        assert(r[a + 1 + 1] == v[0]);
        assert(!op_char(v[0]));
    } else {
        assert(r[a + 1] == v[0]);
        assert(r[a + 0 + 1] == v[0]);
        assert(r[a + 1 + 0] == v[0]);
        assert(!op_char(v[0]));
    }
}

/// Each operator's spelling, between text without operator characters, is found as that
/// operator at the spelling's place.
proof fn lemma_find_op_spelled(c: Seq<char>, op: Operator, v: Seq<char>)
    requires
        no_op_chars(c),
        no_op_chars(v),
        v.len() > 0,
    ensures
        find_op(c + op_spelling(op) + v) == Some((c.len() as int, op_spelling(op).len() as int, op)),
{
    let sp = op_spelling(op);
    let pge = seq!['>', '='];
    let ple = seq!['<', '='];
    let pne = seq!['!', '='];
    let pgt = seq!['>'];
    let plt = seq!['<'];
    let peq = seq!['='];
    assert(forall|k: int| 0 <= k < pge.len() ==> op_char(#[trigger] pge[k]));
    assert(forall|k: int| 0 <= k < ple.len() ==> op_char(#[trigger] ple[k]));
    assert(forall|k: int| 0 <= k < pne.len() ==> op_char(#[trigger] pne[k]));
    assert(forall|k: int| 0 <= k < pgt.len() ==> op_char(#[trigger] pgt[k]));
    assert(forall|k: int| 0 <= k < plt.len() ==> op_char(#[trigger] plt[k]));
    assert(forall|k: int| 0 <= k < peq.len() ==> op_char(#[trigger] peq[k]));
    lemma_spelling_chars(c, sp, v, pge);
    lemma_find_in_spelling(c, sp, v, pge);
    if op == Operator::Gte {
        return;
    }
    lemma_spelling_chars(c, sp, v, ple);
    lemma_find_in_spelling(c, sp, v, ple);
    if op == Operator::Lte {
        return;
    }
    lemma_spelling_chars(c, sp, v, pne);
    lemma_find_in_spelling(c, sp, v, pne);
    if op == Operator::Neq {
        return;
    }
    lemma_spelling_chars(c, sp, v, pgt);
    lemma_find_in_spelling(c, sp, v, pgt);
    if op == Operator::Gt {
        return;
    }
    lemma_spelling_chars(c, sp, v, plt);
    lemma_find_in_spelling(c, sp, v, plt);
    if op == Operator::Lt {
        return;
    }
    lemma_spelling_chars(c, sp, v, peq);
    lemma_find_in_spelling(c, sp, v, peq);
}

/// A condition written as a column, an operator and a value (neither holding operator
/// characters) parses to that operator, with the column on the left and the value on the
/// right: each of the six spellings `=`, `!=`, `>`, `>=`, `<`, `<=` gives its own operator.
pub proof fn lemma_condition_operator(c: Seq<char>, op: Operator, v: Seq<char>, next: Option<LogicOp>)
    requires
        no_op_chars(c),
        no_op_chars(v),
        c.len() > 0,
        v.len() > 0,
        !crate::text::is_ws(c[0]),
        !crate::text::is_ws(v.last()),
    ensures
        cond_of(c + op_spelling(op) + v, next, false) == Some(
            CondView {
                left_col: crate::text::trim(c),
                operator: op,
                right_val: crate::text::trim_matches(crate::text::trim(v), '\''),
                next_logic: next,
            },
        ),
{
    let sp = op_spelling(op);
    let r = c + sp + v;
    let a = c.len() as int;
    assert(r[0] == c[0]);
    assert(r.last() == v.last());
    lemma_trim_whole(r);
    lemma_find_op_spelled(c, op, v);
    assert(r.take(a) =~= c);
    assert(r.skip(a + sp.len()) =~= v);
}

/// One condition from its raw text; nothing when the text is blank or has no operator.
/// With `qualified`, a `table.` prefix of the column is dropped.
pub open spec fn cond_of(raw: Seq<char>, next: Option<LogicOp>, qualified: bool) -> Option<CondView> {
    let r = crate::text::trim(raw);
    if r.len() == 0 {
        None
    } else {
        match find_op(r) {
            None => None,
            Some((i, l, op)) => {
                let left = crate::text::trim(r.take(i));
                Some(
                    CondView {
                        left_col: if qualified {
                            crate::text::last_piece(left, '.')
                        } else {
                            left
                        },
                        operator: op,
                        right_val: crate::text::trim_matches(crate::text::trim(r.skip(i + l)), '\''),
                        next_logic: next,
                    },
                )
            },
        }
    }
}

pub open spec fn conds_of(raws: Seq<(Seq<char>, Option<LogicOp>)>, qualified: bool) -> Seq<CondView>
    decreases raws.len(),
{
    if raws.len() == 0 {
        Seq::empty()
    } else {
        (match cond_of(raws[0].0, raws[0].1, qualified) {
            Some(c) => seq![c],
            None => Seq::empty(),
        }) + conds_of(raws.drop_first(), qualified)
    }
}

/// The conditions of a WHERE body.
pub open spec fn parse_where(w: Seq<char>, qualified: bool) -> Seq<CondView> {
    conds_of(split_conds(w, 0, 0), qualified)
}

fn split_conds_exec(w: &[char]) -> (r: Vec<(Vec<char>, Option<LogicOp>)>)
    ensures
        r@.len() == split_conds(w@, 0, 0).len(),
        forall|i: int|
            0 <= i < r@.len() ==> (#[trigger] r@[i]).0@ == split_conds(w@, 0, 0)[i].0 && r@[i].1
                == split_conds(w@, 0, 0)[i].1,
{
    let and_w = [' ', 'a', 'n', 'd', ' '];
    let or_w = [' ', 'o', 'r', ' '];
    assert(and_w@ =~= and_word());
    assert(or_w@ =~= or_word());
    let mut out: Vec<(Vec<char>, Option<LogicOp>)> = Vec::new();
    let ghost mut done: Seq<(Seq<char>, Option<LogicOp>)> = Seq::empty();
    let mut c: usize = 0;
    let mut start: usize = 0;
    while c < w.len()
        invariant
            start <= c <= w@.len(),
            and_w@ == and_word(),
            or_w@ == or_word(),
            out@.len() == done.len(),
            forall|i: int| 0 <= i < out@.len() ==> (#[trigger] out@[i]).0@ == done[i].0 && out@[i].1 == done[i].1,
            split_conds(w@, 0, 0) == done + split_conds(w@, c as nat, start as nat),
        decreases w@.len() - c,
    {
        if w.len() - c >= 5 && eq_ignore_ascii_case(&w[c..c + 5], and_w.as_slice()) {
            let piece = copy_range(w, start, c);
            proof {
                done = done.push((piece@, Some(LogicOp::And)));
                assert(split_conds(w@, 0, 0) =~= done + split_conds(w@, (c + 5) as nat, (c + 5) as nat));
            }
            out.push((piece, Some(LogicOp::And)));
            c = c + 5;
            start = c;
        } else if w.len() - c >= 4 && eq_ignore_ascii_case(&w[c..c + 4], or_w.as_slice()) {
            let piece = copy_range(w, start, c);
            proof {
                done = done.push((piece@, Some(LogicOp::Or)));
                assert(split_conds(w@, 0, 0) =~= done + split_conds(w@, (c + 4) as nat, (c + 4) as nat));
            }
            out.push((piece, Some(LogicOp::Or)));
            c = c + 4;
            start = c;
        } else {
            c = c + 1;
        }
    }
    let piece = copy_range(w, start, w.len());
    proof {
        done = done.push((piece@, None));
        assert(split_conds(w@, 0, 0) =~= done);
    }
    out.push((piece, None));
    out
}

fn find_op_exec(r: &[char]) -> (res: Option<(usize, usize, Operator)>)
    ensures
        match (res, find_op(r@)) {
            (Some((i, l, op)), Some((si, sl, sop))) => i == si && l == sl && op == sop && i + l <= r@.len(),
            (None, None) => true,
            _ => false,
        },
{
    let ge = ['>', '='];
    let le = ['<', '='];
    let ne = ['!', '='];
    let gt = ['>'];
    let lt = ['<'];
    let eq = ['='];
    assert(ge@ =~= seq!['>', '=']);
    assert(le@ =~= seq!['<', '=']);
    assert(ne@ =~= seq!['!', '=']);
    assert(gt@ =~= seq!['>']);
    assert(lt@ =~= seq!['<']);
    assert(eq@ =~= seq!['=']);
    if let Some(i) = crate::text::find_chars(r, ge.as_slice()) {
        return Some((i, 2, Operator::Gte));
    }
    if let Some(i) = crate::text::find_chars(r, le.as_slice()) {
        return Some((i, 2, Operator::Lte));
    }
    if let Some(i) = crate::text::find_chars(r, ne.as_slice()) {
        return Some((i, 2, Operator::Neq));
    }
    if let Some(i) = crate::text::find_chars(r, gt.as_slice()) {
        return Some((i, 1, Operator::Gt));
    }
    if let Some(i) = crate::text::find_chars(r, lt.as_slice()) {
        return Some((i, 1, Operator::Lt));
    }
    if let Some(i) = crate::text::find_chars(r, eq.as_slice()) {
        return Some((i, 1, Operator::Eq));
    }
    None
}

fn cond_exec(raw: &[char], next: Option<LogicOp>, qualified: bool) -> (r: Option<WhereCondition>)
    ensures
        match (r, cond_of(raw@, next, qualified)) {
            (Some(c), Some(v)) => c@ == v,
            (None, None) => true,
            _ => false,
        },
{
    let t = trim_chars(raw);
    if t.len() == 0 {
        return None;
    }
    match find_op_exec(t.as_slice()) {
        None => None,
        Some((i, l, op)) => {
            let left_raw = copy_range(t.as_slice(), 0, i);
            let left = trim_chars(left_raw.as_slice());
            let left_col = if qualified {
                last_piece_chars(left.as_slice(), '.')
            } else {
                left
            };
            let right_raw = copy_range(t.as_slice(), i + l, t.len());
            let right_trim = trim_chars(right_raw.as_slice());
            let right = trim_matches_chars(right_trim.as_slice(), '\'');
            assert(left_raw@ =~= t@.take(i as int));
            assert(right_raw@ =~= t@.skip((i + l) as int));
            Some(
                WhereCondition {
                    left_col: string_of(left_col.as_slice()),
                    operator: op,
                    right_val: string_of(right.as_slice()),
                    next_logic: next,
                },
            )
        },
    }
}

/// Parses the conditions of a WHERE body.
fn parse_where_exec(w: &[char], qualified: bool) -> (r: Vec<WhereCondition>)
    ensures
        r@.map_values(|c: WhereCondition| c@) == parse_where(w@, qualified),
{
    let raws = split_conds_exec(w);
    let ghost sraws = split_conds(w@, 0, 0);
    let mut out: Vec<WhereCondition> = Vec::new();
    let mut i: usize = 0;
    while i < raws.len()
        invariant
            i <= raws@.len(),
            raws@.len() == sraws.len(),
            sraws == split_conds(w@, 0, 0),
            forall|k: int| 0 <= k < raws@.len() ==> (#[trigger] raws@[k]).0@ == sraws[k].0 && raws@[k].1 == sraws[k].1,
            parse_where(w@, qualified) == out@.map_values(|c: WhereCondition| c@) + conds_of(sraws.skip(i as int), qualified),
        decreases raws@.len() - i,
    {
        let ghost pre = out@.map_values(|c: WhereCondition| c@);
        let (piece, next) = (&raws[i].0, raws[i].1);
        let c = cond_exec(piece.as_slice(), next, qualified);
        assert(sraws.skip(i as int).drop_first() =~= sraws.skip(i + 1));
        assert(sraws.skip(i as int)[0] == sraws[i as int]);
        match c {
            Some(cond) => {
                out.push(cond);
                assert(out@.map_values(|c: WhereCondition| c@) =~= pre.push(out@.last()@));
            },
            None => {},
        }
        i += 1;
    }
    assert(sraws.skip(i as int) =~= Seq::<(Seq<char>, Option<LogicOp>)>::empty());
    out
}

// ---------------------------------------------------------------------------
// SELECT
// ---------------------------------------------------------------------------

pub open spec fn kw_from() -> Seq<char> {
    seq![' ', 'F', 'R', 'O', 'M', ' ']
}

pub open spec fn kw_join() -> Seq<char> {
    seq![' ', 'J', 'O', 'I', 'N', ' ']
}

pub open spec fn kw_where() -> Seq<char> {
    seq![' ', 'W', 'H', 'E', 'R', 'E', ' ']
}

pub open spec fn kw_order() -> Seq<char> {
    seq![' ', 'O', 'R', 'D', 'E', 'R', ' ', 'B', 'Y', ' ']
}

pub open spec fn kw_on() -> Seq<char> {
    seq![' ', 'O', 'N', ' ']
}

/// What the clauses after the table name of a SELECT yield.
pub enum TailOutcome {
    Done(Seq<JoinView>, Seq<CondView>, Option<Seq<char>>),
    Failed(Seq<char>),
    Undefined,
}

pub open spec fn prefix_tail(js: Seq<JoinView>, cs: Seq<CondView>, t: TailOutcome) -> TailOutcome {
    match t {
        TailOutcome::Done(a, b, o) => TailOutcome::Done(js + a, cs + b, o),
        other => other,
    }
}

/// Whether the next clause at `cp` is a JOIN: one is found and no WHERE (or, without a
/// WHERE, no ORDER BY) comes before it.
pub open spec fn join_next(nj: Option<int>, nw: Option<int>, no: Option<int>) -> bool {
    match (nj, nw, no) {
        (Some(j), Some(w), _) => j < w,
        (Some(j), None, Some(o)) => j < o,
        (Some(_), None, None) => true,
        _ => false,
    }
}

/// The clauses of a SELECT after its table, scanning `rest` (and its upper-case form `up`)
/// from position `cp`: JOIN ... ON a = b clauses, WHERE bodies, and a final ORDER BY.
pub open spec fn select_tail(rest: Seq<char>, up: Seq<char>, cp: nat) -> TailOutcome
    decreases rest.len() - cp,
{
    if cp >= rest.len() {
        TailOutcome::Done(Seq::empty(), Seq::empty(), None)
    } else {
        let nj = crate::text::find_after(up, kw_join(), cp as int);
        let nw = crate::text::find_after(up, kw_where(), cp as int);
        let no = crate::text::find_after(up, kw_order(), cp as int);
        if join_next(nj, nw, no) {
            let j = nj->0;
            match crate::text::find_after(up, kw_on(), j) {
                None => TailOutcome::Failed("Missing ON clause in JOIN"@),
                Some(on) => if on < j + 6 {
                    TailOutcome::Undefined
                } else {
                    let toks = crate::text::words(crate::text::trim(rest.subrange(j + 6, on)));
                    if toks.len() == 0 {
                        TailOutcome::Failed("Missing join table name"@)
                    } else {
                        let end = match crate::text::find_after(up, kw_join(), on) {
                            Some(x) => x,
                            None => match (if nw is Some {
                                nw
                            } else {
                                no
                            }) {
                                Some(x) => x,
                                None => rest.len() as int,
                            },
                        };
                        if end < on + 4 || end <= cp || end > rest.len() {
                            TailOutcome::Undefined
                        } else {
                            let parts = crate::text::split(crate::text::trim(rest.subrange(on + 4, end)), '=');
                            if parts.len() < 2 {
                                TailOutcome::Failed("Missing right ON condition"@)
                            } else {
                                let jv = JoinView {
                                    table: toks[0],
                                    alias: if toks.len() > 1 {
                                        Some(toks[1])
                                    } else {
                                        None
                                    },
                                    left_col: crate::text::last_piece(crate::text::trim(parts[0]), '.'),
                                    right_col: crate::text::last_piece(crate::text::trim(parts[1]), '.'),
                                };
                                prefix_tail(seq![jv], Seq::empty(), select_tail(rest, up, end as nat))
                            }
                        }
                    }
                },
            }
        } else if nw is Some && (no is None || nw->0 < no->0) {
            let w = nw->0;
            let w_end = match no {
                Some(o) => o,
                None => rest.len() as int,
            };
            if w + 7 > w_end || w_end <= cp || w_end > rest.len() {
                TailOutcome::Undefined
            } else {
                let conds = parse_where(crate::text::trim(rest.subrange(w + 7, w_end)), true);
                prefix_tail(Seq::empty(), conds, select_tail(rest, up, w_end as nat))
            }
        } else if no is Some {
            TailOutcome::Done(
                Seq::empty(),
                Seq::empty(),
                Some(crate::text::trim(rest.subrange(no->0 + 10, rest.len() as int))),
            )
        } else {
            TailOutcome::Done(Seq::empty(), Seq::empty(), None)
        }
    }
}

/// The first token of `s`, and the second if there is one.
pub open spec fn first_two(toks: Seq<Seq<char>>) -> (Seq<char>, Option<Seq<char>>) {
    (toks[0], if toks.len() > 1 { Some(toks[1]) } else { None })
}

/// Parses a SELECT statement (`sql` normalized, `up` its upper-case form).
pub open spec fn parse_select(sql: Seq<char>, up: Seq<char>) -> ParseOutcome {
    match crate::text::find(up, kw_from()) {
        None => ParseOutcome::Failed("Missing FROM clause"@),
        Some(f) => if f < 7 {
            ParseOutcome::Undefined
        } else {
            let columns = crate::text::split(crate::text::trim(sql.subrange(7, f)), ',').map_values(
                |p: Seq<char>| crate::text::last_piece(crate::text::trim(p), '.'),
            );
            let rest = crate::text::trim(sql.subrange(f + 6, sql.len() as int));
            let ur = crate::text::upper_seq(rest);
            let te = match crate::text::find(ur, kw_join()) {
                Some(x) => x,
                None => match crate::text::find(ur, kw_where()) {
                    Some(x) => x,
                    None => match crate::text::find(ur, kw_order()) {
                        Some(x) => x,
                        None => rest.len() as int,
                    },
                },
            };
            let toks = crate::text::words(crate::text::trim(rest.subrange(0, te)));
            if toks.len() == 0 {
                ParseOutcome::Failed("Missing table name"@)
            } else {
                match select_tail(rest, ur, te as nat) {
                    TailOutcome::Done(js, cs, ob) => ParseOutcome::Parsed(
                        AstView::Select {
                            columns,
                            table: toks[0],
                            table_alias: first_two(toks).1,
                            join: js,
                            where_clause: cs,
                            order_by: ob,
                        },
                    ),
                    TailOutcome::Failed(m) => ParseOutcome::Failed(m),
                    TailOutcome::Undefined => ParseOutcome::Undefined,
                }
            }
        },
    }
}

pub open spec fn joins_view(v: Seq<JoinClause>) -> Seq<JoinView> {
    v.map_values(|j: JoinClause| j@)
}

pub open spec fn conds_view(v: Seq<WhereCondition>) -> Seq<CondView> {
    v.map_values(|c: WhereCondition| c@)
}

/// An executable tail result agrees with the specified outcome.
pub open spec fn tail_agrees(
    r: Option<Result<(Vec<JoinClause>, Vec<WhereCondition>, Option<String>), String>>,
    t: TailOutcome,
) -> bool {
    match (r, t) {
        (Some(Ok((js, cs, ob))), TailOutcome::Done(a, b, o)) => joins_view(js@) == a && conds_view(cs@) == b
            && opt_view(ob) == o,
        (Some(Err(m)), TailOutcome::Failed(w)) => m@ == w,
        (None, TailOutcome::Undefined) => true,
        _ => false,
    }
}

proof fn lemma_prefix_tail_assoc(js: Seq<JoinView>, cs: Seq<CondView>, js2: Seq<JoinView>, cs2: Seq<CondView>, t: TailOutcome)
    ensures
        prefix_tail(js, cs, prefix_tail(js2, cs2, t)) == prefix_tail(js + js2, cs + cs2, t),
{
    match t {
        TailOutcome::Done(a, b, o) => {
            assert(js + (js2 + a) =~= (js + js2) + a);
            assert(cs + (cs2 + b) =~= (cs + cs2) + b);
        },
        _ => {},
    }
}

fn msg(text: &str) -> (r: String)
    ensures
        r@ == text@,
{
    String::from_str(text)
}

fn opt_string(o: Option<&Vec<char>>) -> (r: Option<String>)
    ensures
        match o {
            Some(v) => r matches Some(s) && s@ == v@,
            None => r is None,
        },
{
    match o {
        Some(v) => Some(string_of(v.as_slice())),
        None => None,
    }
}

fn select_tail_exec(rest: &[char], up: &[char], te: usize) -> (r: Option<
    Result<(Vec<JoinClause>, Vec<WhereCondition>, Option<String>), String>,
>)
    requires
        up@ == crate::text::upper_seq(rest@),
        te <= rest@.len(),
    ensures
        tail_agrees(r, select_tail(rest@, up@, te as nat)),
{
    let kj = [' ', 'J', 'O', 'I', 'N', ' '];
    let kw = [' ', 'W', 'H', 'E', 'R', 'E', ' '];
    let ko = [' ', 'O', 'R', 'D', 'E', 'R', ' ', 'B', 'Y', ' '];
    let kon = [' ', 'O', 'N', ' '];
    assert(kj@ =~= kw_join());
    assert(kw@ =~= kw_where());
    assert(ko@ =~= kw_order());
    assert(kon@ =~= kw_on());
    let mut joins: Vec<JoinClause> = Vec::new();
    let mut conds: Vec<WhereCondition> = Vec::new();
    let mut cp = te;
    loop
        invariant
            up@ == crate::text::upper_seq(rest@),
            up@.len() == rest@.len(),
            cp <= rest@.len(),
            kj@ == kw_join(),
            kw@ == kw_where(),
            ko@ == kw_order(),
            kon@ == kw_on(),
            select_tail(rest@, up@, te as nat) == prefix_tail(
                joins_view(joins@),
                conds_view(conds@),
                select_tail(rest@, up@, cp as nat),
            ),
        decreases rest@.len() - cp,
    {
        let ghost js0 = joins_view(joins@);
        let ghost cs0 = conds_view(conds@);
        if cp >= rest.len() {
            proof {
                assert(js0 + Seq::empty() =~= js0);
                assert(cs0 + Seq::empty() =~= cs0);
            }
            return Some(Ok((joins, conds, None)));
        }
        let nj = find_after_chars(up, kj.as_slice(), cp);
        let nw = find_after_chars(up, kw.as_slice(), cp);
        let no = find_after_chars(up, ko.as_slice(), cp);
        let process_join = match (nj, nw, no) {
            (Some(j), Some(w), _) => j < w,
            (Some(j), None, Some(o)) => j < o,
            (Some(_), None, None) => true,
            _ => false,
        };
        if process_join {
            let j = match nj {
                Some(j) => j,
                None => {
                    return None;
                },
            };
            let on = match find_after_chars(up, kon.as_slice(), j) {
                Some(x) => x,
                None => {
                    return Some(Err(msg("Missing ON clause in JOIN")));
                },
            };
            if on < j + 6 {
                return None;
            }
            let seg = copy_range(rest, j + 6, on);
            let seg_t = trim_chars(seg.as_slice());
            let toks = words_chars(seg_t.as_slice());
            if toks.len() == 0 {
                return Some(Err(msg("Missing join table name")));
            }
            let end = match find_after_chars(up, kj.as_slice(), on) {
                Some(x) => x,
                None => match (if nw.is_some() {
                    nw
                } else {
                    no
                }) {
                    Some(x) => x,
                    None => rest.len(),
                },
            };
            if end < on + 4 || end <= cp || end > rest.len() {
                return None;
            }
            let on_raw = copy_range(rest, on + 4, end);
            let on_part = trim_chars(on_raw.as_slice());
            let parts = split_chars(on_part.as_slice(), '=');
            if parts.len() < 2 {
                return Some(Err(msg("Missing right ON condition")));
            }
            let l0 = trim_chars(parts[0].as_slice());
            let r0 = trim_chars(parts[1].as_slice());
            let lc = last_piece_chars(l0.as_slice(), '.');
            let rc = last_piece_chars(r0.as_slice(), '.');
            let alias = opt_string(if toks.len() > 1 {
                Some(&toks[1])
            } else {
                None
            });
            let jc = JoinClause {
                table: string_of(toks[0].as_slice()),
                alias,
                left_col: string_of(lc.as_slice()),
                right_col: string_of(rc.as_slice()),
            };
            let ghost jv = jc@;
            joins.push(jc);
            proof {
                assert(joins_view(joins@) =~= js0 + seq![jv]);
                assert(cs0 + Seq::<CondView>::empty() =~= cs0);
                lemma_prefix_tail_assoc(js0, cs0, seq![jv], Seq::empty(), select_tail(rest@, up@, end as nat));
            }
            cp = end;
        } else if nw.is_some() && (no.is_none() || nw.unwrap() < no.unwrap()) {
            let w = nw.unwrap();
            let w_end = match no {
                Some(o) => o,
                None => rest.len(),
            };
            if w + 7 > w_end || w_end <= cp || w_end > rest.len() {
                return None;
            }
            let w_raw = copy_range(rest, w + 7, w_end);
            let w_part = trim_chars(w_raw.as_slice());
            let mut new_conds = parse_where_exec(w_part.as_slice(), true);
            let ghost nc = conds_view(new_conds@);
            conds.append(&mut new_conds);
            proof {
                assert(conds_view(conds@) =~= cs0 + nc);
                assert(js0 + Seq::<JoinView>::empty() =~= js0);
                lemma_prefix_tail_assoc(js0, cs0, Seq::empty(), nc, select_tail(rest@, up@, w_end as nat));
            }
            cp = w_end;
        } else if no.is_some() {
            let o = no.unwrap();
            let ob_raw = copy_range(rest, o + 10, rest.len());
            let ob = trim_chars(ob_raw.as_slice());
            proof {
                assert(js0 + Seq::empty() =~= js0);
                assert(cs0 + Seq::empty() =~= cs0);
            }
            return Some(Ok((joins, conds, Some(string_of(ob.as_slice())))));
        } else {
            proof {
                assert(js0 + Seq::empty() =~= js0);
                assert(cs0 + Seq::empty() =~= cs0);
            }
            return Some(Ok((joins, conds, None)));
        }
    }
}

fn parse_select_exec(sql: &[char], up: &[char]) -> (r: Option<Result<Ast, String>>)
    requires
        up@ == crate::text::upper_seq(sql@),
        crate::text::starts_with(up@, seq!['S', 'E', 'L', 'E', 'C', 'T', ' ']),
    ensures
        outcome_agrees(r, parse_select(sql@, up@)),
{
    let kf = [' ', 'F', 'R', 'O', 'M', ' '];
    let kj = [' ', 'J', 'O', 'I', 'N', ' '];
    let kw = [' ', 'W', 'H', 'E', 'R', 'E', ' '];
    let ko = [' ', 'O', 'R', 'D', 'E', 'R', ' ', 'B', 'Y', ' '];
    assert(kf@ =~= kw_from());
    assert(kj@ =~= kw_join());
    assert(kw@ =~= kw_where());
    assert(ko@ =~= kw_order());
    let f = match crate::text::find_chars(up, kf.as_slice()) {
        None => {
            return Some(Err(msg("Missing FROM clause")));
        },
        Some(f) => f,
    };
    if f < 7 {
        return None;
    }
    assert(up@.len() == sql@.len());
    assert(kf@.len() == 6);
    assert(f + 6 <= sql.len());
    let cols_raw = copy_range(sql, 7, f);
    let cols_str = trim_chars(cols_raw.as_slice());
    let pieces = split_chars(cols_str.as_slice(), ',');
    let mut columns: Vec<String> = Vec::new();
    let ghost spieces = crate::text::split(cols_str@, ',');
    let mut i: usize = 0;
    while i < pieces.len()
        invariant
            i <= pieces@.len(),
            pieces@.len() == spieces.len(),
            forall|k: int| 0 <= k < pieces@.len() ==> (#[trigger] pieces@[k])@ == spieces[k],
            columns@.len() == i,
            forall|k: int| 0 <= k < i ==> (#[trigger] columns@[k])@ == crate::text::last_piece(crate::text::trim(spieces[k]), '.'),
        decreases pieces@.len() - i,
    {
        let t = trim_chars(pieces[i].as_slice());
        let c = last_piece_chars(t.as_slice(), '.');
        columns.push(string_of(c.as_slice()));
        i += 1;
    }
    assert(strings_view(columns@) =~= spieces.map_values(
        |p: Seq<char>| crate::text::last_piece(crate::text::trim(p), '.'),
    ));
    let rest_raw = copy_range(sql, f + 6, sql.len());
    let rest = trim_chars(rest_raw.as_slice());
    let ur = uppercase(rest.as_slice());
    let te = match crate::text::find_chars(ur.as_slice(), kj.as_slice()) {
        Some(x) => x,
        None => match crate::text::find_chars(ur.as_slice(), kw.as_slice()) {
            Some(x) => x,
            None => match crate::text::find_chars(ur.as_slice(), ko.as_slice()) {
                Some(x) => x,
                None => rest.len(),
            },
        },
    };
    let tp_raw = copy_range(rest.as_slice(), 0, te);
    let tp = trim_chars(tp_raw.as_slice());
    let toks = words_chars(tp.as_slice());
    if toks.len() == 0 {
        return Some(Err(msg("Missing table name")));
    }
    let table = string_of(toks[0].as_slice());
    let alias = opt_string(if toks.len() > 1 {
        Some(&toks[1])
    } else {
        None
    });
    match select_tail_exec(rest.as_slice(), ur.as_slice(), te) {
        None => None,
        Some(Err(m)) => Some(Err(m)),
        Some(Ok((join, where_clause, order_by))) => Some(
            Ok(Ast::Select { columns, table, table_alias: alias, join, where_clause, order_by }),
        ),
    }
}

/// An executable parse result agrees with the specified outcome.
pub open spec fn outcome_agrees(r: Option<Result<Ast, String>>, o: ParseOutcome) -> bool {
    match (r, o) {
        (Some(Ok(a)), ParseOutcome::Parsed(v)) => a@ == v,
        (Some(Err(m)), ParseOutcome::Failed(w)) => m@ == w,
        (None, ParseOutcome::Undefined) => true,
        _ => false,
    }
}

// ---------------------------------------------------------------------------
// INSERT, CREATE TABLE, DROP TABLE, DELETE
// ---------------------------------------------------------------------------

pub open spec fn kw_values() -> Seq<char> {
    seq![' ', 'V', 'A', 'L', 'U', 'E', 'S', ' ']
}

/// Parses `INSERT INTO <table> VALUES (<v>, ...)`.
pub open spec fn parse_insert(sql: Seq<char>, up: Seq<char>) -> ParseOutcome {
    match crate::text::find(up, kw_values()) {
        None => ParseOutcome::Failed("Missing VALUES clause"@),
        Some(v) => if v < 12 {
            ParseOutcome::Undefined
        } else {
            let vs = crate::text::trim_end_matches(
                crate::text::trim_start_matches(crate::text::trim(sql.subrange(v + 8, sql.len() as int)), '('),
                ')',
            );
            ParseOutcome::Parsed(
                AstView::Insert {
                    table: crate::text::trim(sql.subrange(12, v)),
                    values: crate::text::split(vs, ',').map_values(
                        |p: Seq<char>| crate::text::trim_matches(crate::text::trim(p), '\''),
                    ),
                },
            )
        },
    }
}

fn parse_insert_exec(sql: &[char], up: &[char]) -> (r: Option<Result<Ast, String>>)
    requires
        up@ == crate::text::upper_seq(sql@),
    ensures
        outcome_agrees(r, parse_insert(sql@, up@)),
{
    let kv = [' ', 'V', 'A', 'L', 'U', 'E', 'S', ' '];
    assert(kv@ =~= kw_values());
    let v = match crate::text::find_chars(up, kv.as_slice()) {
        None => {
            return Some(Err(msg("Missing VALUES clause")));
        },
        Some(v) => v,
    };
    if v < 12 {
        return None;
    }
    assert(up@.len() == sql@.len());
    assert(kv@.len() == 8);
    assert(v + 8 <= sql.len());
    let t_raw = copy_range(sql, 12, v);
    let table = trim_chars(t_raw.as_slice());
    let vs_raw = copy_range(sql, v + 8, sql.len());
    let vs_t = trim_chars(vs_raw.as_slice());
    let vs_a = trim_start_matches_chars(vs_t.as_slice(), '(');
    let vs = trim_end_matches_chars(vs_a.as_slice(), ')');
    let pieces = split_chars(vs.as_slice(), ',');
    let ghost spieces = crate::text::split(vs@, ',');
    let mut values: Vec<String> = Vec::new();
    let mut i: usize = 0;
    while i < pieces.len()
        invariant
            i <= pieces@.len(),
            pieces@.len() == spieces.len(),
            forall|k: int| 0 <= k < pieces@.len() ==> (#[trigger] pieces@[k])@ == spieces[k],
            values@.len() == i,
            forall|k: int| 0 <= k < i ==> (#[trigger] values@[k])@ == crate::text::trim_matches(crate::text::trim(spieces[k]), '\''),
        decreases pieces@.len() - i,
    {
        let t = trim_chars(pieces[i].as_slice());
        let c = trim_matches_chars(t.as_slice(), '\'');
        values.push(string_of(c.as_slice()));
        i += 1;
    }
    assert(strings_view(values@) =~= spieces.map_values(
        |p: Seq<char>| crate::text::trim_matches(crate::text::trim(p), '\''),
    ));
    Some(Ok(Ast::Insert { table: string_of(table.as_slice()), values }))
}

pub open spec fn kw_if_not_exists() -> Seq<char> {
    seq!['I', 'F', ' ', 'N', 'O', 'T', ' ', 'E', 'X', 'I', 'S', 'T', 'S', ' ']
}

/// Column definitions: each comma-separated piece with at least two words gives a name
/// (first word) and a type (second word); other pieces are skipped.
pub open spec fn column_defs(pieces: Seq<Seq<char>>) -> Seq<ColumnDefView>
    decreases pieces.len(),
{
    if pieces.len() == 0 {
        Seq::empty()
    } else {
        let ws = crate::text::words(pieces[0]);
        (if ws.len() >= 2 {
            seq![ColumnDefView { name: ws[0], data_type: ws[1] }]
        } else {
            Seq::empty()
        }) + column_defs(pieces.drop_first())
    }
}

/// Parses `CREATE TABLE [IF NOT EXISTS] <table> (<col> <type>, ...)`.
pub open spec fn parse_create(sql: Seq<char>) -> ParseOutcome {
    let rest = crate::text::trim(sql.subrange(13, sql.len() as int));
    let ine = crate::text::starts_with(crate::text::upper_seq(rest), kw_if_not_exists());
    let tp = crate::text::trim(rest.subrange(if ine { 14 } else { 0 }, rest.len() as int));
    match crate::text::find(tp, seq!['(']) {
        Some(i) => ParseOutcome::Parsed(
            AstView::CreateTable {
                table: crate::text::trim(tp.take(i)),
                columns: column_defs(
                    crate::text::split(crate::text::trim_end_matches(crate::text::trim(tp.skip(i + 1)), ')'), ','),
                ),
                if_not_exists: ine,
            },
        ),
        None => ParseOutcome::Parsed(
            AstView::CreateTable {
                table: crate::text::trim(
                    if crate::text::words(tp).len() > 0 {
                        crate::text::words(tp)[0]
                    } else {
                        Seq::empty()
                    },
                ),
                columns: Seq::empty(),
                if_not_exists: ine,
            },
        ),
    }
}

fn parse_create_exec(sql: &[char]) -> (r: Option<Result<Ast, String>>)
    requires
        13 <= sql@.len(),
    ensures
        outcome_agrees(r, parse_create(sql@)),
{
    let ki = ['I', 'F', ' ', 'N', 'O', 'T', ' ', 'E', 'X', 'I', 'S', 'T', 'S', ' '];
    assert(ki@ =~= kw_if_not_exists());
    let rest_raw = copy_range(sql, 13, sql.len());
    let rest = trim_chars(rest_raw.as_slice());
    let ur = uppercase(rest.as_slice());
    let ine = starts_with_chars(ur.as_slice(), ki.as_slice());
    let start: usize = if ine { 14 } else { 0 };
    assert(ki@.len() == 14);
    assert(ine ==> 14 <= rest@.len()) by {
        assert(ur@.len() == rest@.len());
    }
    let tp_raw = copy_range(rest.as_slice(), start, rest.len());
    let tp = trim_chars(tp_raw.as_slice());
    let paren = ['('];
    assert(paren@ =~= seq!['(']);
    match crate::text::find_chars(tp.as_slice(), paren.as_slice()) {
        Some(i) => {
            let name_raw = copy_range(tp.as_slice(), 0, i);
            let name = trim_chars(name_raw.as_slice());
            assert(paren@.len() == 1);
            assert(i + 1 <= tp.len());
            let cols_raw = copy_range(tp.as_slice(), i + 1, tp.len());
            assert(name_raw@ =~= tp@.take(i as int));
            assert(cols_raw@ =~= tp@.skip(i + 1));
            let cols_t = trim_chars(cols_raw.as_slice());
            let cols_str = trim_end_matches_chars(cols_t.as_slice(), ')');
            let pieces = split_chars(cols_str.as_slice(), ',');
            let ghost spieces = crate::text::split(cols_str@, ',');
            let mut columns: Vec<ColumnDef> = Vec::new();
            let mut k: usize = 0;
            while k < pieces.len()
                invariant
                    k <= pieces@.len(),
                    pieces@.len() == spieces.len(),
                    forall|m: int| 0 <= m < pieces@.len() ==> (#[trigger] pieces@[m])@ == spieces[m],
                    column_defs(spieces) == columns@.map_values(|c: ColumnDef| c@) + column_defs(
                        spieces.skip(k as int),
                    ),
                decreases pieces@.len() - k,
            {
                let ghost pre = columns@.map_values(|c: ColumnDef| c@);
                let parts = words_chars(pieces[k].as_slice());
                assert(spieces.skip(k as int)[0] == spieces[k as int]);
                assert(spieces.skip(k as int).drop_first() =~= spieces.skip(k + 1));
                if parts.len() >= 2 {
                    columns.push(
                        ColumnDef {
                            name: string_of(parts[0].as_slice()),
                            data_type: string_of(parts[1].as_slice()),
                        },
                    );
                    assert(columns@.map_values(|c: ColumnDef| c@) =~= pre.push(columns@.last()@));
                }
                k += 1;
            }
            assert(spieces.skip(k as int) =~= Seq::<Seq<char>>::empty());
            assert(columns@.map_values(|c: ColumnDef| c@) =~= column_defs(spieces));
            Some(
                Ok(
                    Ast::CreateTable {
                        table: string_of(name.as_slice()),
                        columns,
                        if_not_exists: ine,
                    },
                ),
            )
        },
        None => {
            let ws = words_chars(tp.as_slice());
            let first: Vec<char> = if ws.len() > 0 {
                copy_range(ws[0].as_slice(), 0, ws[0].len())
            } else {
                Vec::new()
            };
            let table = trim_chars(first.as_slice());
            let columns: Vec<ColumnDef> = Vec::new();
            assert(columns@.map_values(|c: ColumnDef| c@) =~= Seq::<ColumnDefView>::empty());
            Some(
                Ok(
                    Ast::CreateTable {
                        table: string_of(table.as_slice()),
                        columns,
                        if_not_exists: ine,
                    },
                ),
            )
        },
    }
}

pub open spec fn kw_if_exists() -> Seq<char> {
    seq!['I', 'F', ' ', 'E', 'X', 'I', 'S', 'T', 'S', ' ']
}

/// Parses `DROP TABLE [IF EXISTS] <table>`.
pub open spec fn parse_drop(sql: Seq<char>, up: Seq<char>) -> ParseOutcome {
    let t0 = crate::text::trim(sql.subrange(11, sql.len() as int));
    if crate::text::starts_with(up.subrange(11, up.len() as int), kw_if_exists()) {
        if t0.len() < 10 {
            ParseOutcome::Undefined
        } else {
            ParseOutcome::Parsed(AstView::DropTable { table: crate::text::trim(t0.skip(10)), if_exists: true })
        }
    } else {
        ParseOutcome::Parsed(AstView::DropTable { table: t0, if_exists: false })
    }
}

fn parse_drop_exec(sql: &[char], up: &[char]) -> (r: Option<Result<Ast, String>>)
    requires
        up@ == crate::text::upper_seq(sql@),
        11 <= sql@.len(),
    ensures
        outcome_agrees(r, parse_drop(sql@, up@)),
{
    let ke = ['I', 'F', ' ', 'E', 'X', 'I', 'S', 'T', 'S', ' '];
    assert(ke@ =~= kw_if_exists());
    let t_raw = copy_range(sql, 11, sql.len());
    let t0 = trim_chars(t_raw.as_slice());
    let u_rest = copy_range(up, 11, up.len());
    if starts_with_chars(u_rest.as_slice(), ke.as_slice()) {
        if t0.len() < 10 {
            return None;
        }
        let t1 = copy_range(t0.as_slice(), 10, t0.len());
        let t = trim_chars(t1.as_slice());
        assert(t1@ =~= t0@.skip(10));
        Some(Ok(Ast::DropTable { table: string_of(t.as_slice()), if_exists: true }))
    } else {
        Some(Ok(Ast::DropTable { table: string_of(t0.as_slice()), if_exists: false }))
    }
}

/// Parses `DELETE FROM <table> [WHERE <conditions>]`.
pub open spec fn parse_delete(sql: Seq<char>) -> ParseOutcome {
    let rest = crate::text::trim(sql.subrange(12, sql.len() as int));
    let wi = crate::text::find(crate::text::upper_seq(rest), kw_where());
    let te = match wi {
        Some(w) => w,
        None => rest.len() as int,
    };
    ParseOutcome::Parsed(
        AstView::Delete {
            table: crate::text::trim(rest.take(te)),
            where_clause: match wi {
                Some(w) => parse_where(crate::text::trim(rest.subrange(w + 7, rest.len() as int)), false),
                None => Seq::empty(),
            },
        },
    )
}

fn parse_delete_exec(sql: &[char]) -> (r: Option<Result<Ast, String>>)
    requires
        12 <= sql@.len(),
    ensures
        outcome_agrees(r, parse_delete(sql@)),
{
    let kw = [' ', 'W', 'H', 'E', 'R', 'E', ' '];
    assert(kw@ =~= kw_where());
    let rest_raw = copy_range(sql, 12, sql.len());
    let rest = trim_chars(rest_raw.as_slice());
    let ur = uppercase(rest.as_slice());
    let wi = crate::text::find_chars(ur.as_slice(), kw.as_slice());
    let te = match wi {
        Some(w) => w,
        None => rest.len(),
    };
    let t_raw = copy_range(rest.as_slice(), 0, te);
    let table = trim_chars(t_raw.as_slice());
    assert(t_raw@ =~= rest@.take(te as int));
    let where_clause = match wi {
        Some(w) => {
            assert(kw@.len() == 7);
            assert(ur@.len() == rest@.len());
            assert(w + 7 <= rest.len());
            let w_raw = copy_range(rest.as_slice(), w + 7, rest.len());
            let w_part = trim_chars(w_raw.as_slice());
            parse_where_exec(w_part.as_slice(), false)
        },
        None => Vec::new(),
    };
    proof {
        if wi is None {
            assert(where_clause@.map_values(|c: WhereCondition| c@) =~= Seq::<CondView>::empty());
        }
    }
    Some(Ok(Ast::Delete { table: string_of(table.as_slice()), where_clause }))
}

// ---------------------------------------------------------------------------
// Statements
// ---------------------------------------------------------------------------

pub open spec fn kw_select() -> Seq<char> {
    seq!['S', 'E', 'L', 'E', 'C', 'T', ' ']
}

pub open spec fn kw_insert() -> Seq<char> {
    seq!['I', 'N', 'S', 'E', 'R', 'T', ' ', 'I', 'N', 'T', 'O', ' ']
}

pub open spec fn kw_create() -> Seq<char> {
    seq!['C', 'R', 'E', 'A', 'T', 'E', ' ', 'T', 'A', 'B', 'L', 'E', ' ']
}

pub open spec fn kw_drop() -> Seq<char> {
    seq!['D', 'R', 'O', 'P', ' ', 'T', 'A', 'B', 'L', 'E', ' ']
}

pub open spec fn kw_delete() -> Seq<char> {
    seq!['D', 'E', 'L', 'E', 'T', 'E', ' ', 'F', 'R', 'O', 'M', ' ']
}

/// The statement as the parser sees it: trimmed, trailing semicolons removed, then normalized.
pub open spec fn normalized_statement(raw: Seq<char>) -> Seq<char> {
    normalize(crate::text::trim_end_matches(crate::text::trim(raw), ';'))
}

/// Normalizing `p[i..]` alone, from state (in quotes, in a comment, last emitted a space): the
/// text emitted and the state at the end. A `-` at the very end is read as an ordinary
/// character.
pub open spec fn norm_prefix(p: Seq<char>, i: nat, q: bool, c: bool, l: bool) -> (Seq<char>, bool, bool, bool)
    decreases p.len() - i,
{
    if i >= p.len() {
        (Seq::empty(), q, c, l)
    } else if c {
        if p[i as int] == '\n' {
            let rest = norm_prefix(p, i + 1, q, false, true);
            ((if !l { seq![' '] } else { Seq::empty() }) + rest.0, rest.1, rest.2, rest.3)
        } else {
            norm_prefix(p, i + 1, q, true, l)
        }
    } else if !q && p[i as int] == '-' && i + 1 < p.len() && p[i + 1int] == '-' {
        norm_prefix(p, i + 2, q, true, l)
    } else if p[i as int] == '\'' {
        let rest = norm_prefix(p, i + 1, !q, false, false);
        (seq!['\''] + rest.0, rest.1, rest.2, rest.3)
    } else if !q && crate::text::is_ascii_ws(p[i as int]) {
        let rest = norm_prefix(p, i + 1, q, false, true);
        ((if !l { seq![' '] } else { Seq::empty() }) + rest.0, rest.1, rest.2, rest.3)
    } else {
        let rest = norm_prefix(p, i + 1, q, false, false);
        (seq![p[i as int]] + rest.0, rest.1, rest.2, rest.3)
    }
}

/// Normalizing from a position depends only on the text from that position on.
proof fn lemma_norm_suffix(a: Seq<char>, i: nat, b: Seq<char>, j: nat, q: bool, c: bool, l: bool)
    requires
        i <= a.len(),
        j <= b.len(),
        a.skip(i as int) == b.skip(j as int),
    ensures
        norm_from(a, i, q, c, l) == norm_from(b, j, q, c, l),
    decreases a.len() - i,
{
    assert(a.len() - i == b.len() - j) by {
        assert(a.skip(i as int).len() == b.skip(j as int).len());
    }
    if i < a.len() {
        assert(a[i as int] == a.skip(i as int)[0]);
        assert(b[j as int] == b.skip(j as int)[0]);
        if i + 1 < a.len() {
            assert(a[(i + 1) as int] == a.skip(i as int)[1]);
            assert(b[(j + 1) as int] == b.skip(j as int)[1]);
        }
        assert(a.skip((i + 1) as int) =~= a.skip(i as int).skip(1));
        assert(b.skip((j + 1) as int) =~= b.skip(j as int).skip(1));
        lemma_norm_suffix(a, i + 1, b, j + 1, true, true, l);
        lemma_norm_suffix(a, i + 1, b, j + 1, q, false, true);
        lemma_norm_suffix(a, i + 1, b, j + 1, q, false, false);
        lemma_norm_suffix(a, i + 1, b, j + 1, !q, false, false);
        lemma_norm_suffix(a, i + 1, b, j + 1, q, true, l);
        if i + 2 <= a.len() {
            assert(a.skip((i + 2) as int) =~= a.skip(i as int).skip(2));
            assert(b.skip((j + 2) as int) =~= b.skip(j as int).skip(2));
            lemma_norm_suffix(a, i + 2, b, j + 2, q, true, l);
        }
    }
}

/// Normalizing `p` followed by text that does not start with `-` emits what normalizing `p`
/// alone emits, then goes on from the end of `p` in the state `p` leaves.
#[verifier::rlimit(30)]
proof fn lemma_norm_split(p: Seq<char>, r: Seq<char>, i: nat, q: bool, c: bool, l: bool)
    requires
        i <= p.len(),
        r.len() > 0,
        r[0] != '-',
    ensures
        ({
            let pre = norm_prefix(p, i, q, c, l);
            norm_from(p + r, i, q, c, l) == pre.0 + norm_from(p + r, p.len(), pre.1, pre.2, pre.3)
        }),
    decreases p.len() - i,
{
    let s = p + r;
    if i < p.len() {
        let ch = p[i as int];
        assert(s[i as int] == ch);
        if (i + 1) as int == p.len() {
            assert(s[(i + 1) as int] == r[0]);
        } else {
            assert(s[(i + 1) as int] == p[(i + 1) as int]);
        }
        let pre = norm_prefix(p, i, q, c, l);
        if c {
            if ch == '\n' {
                lemma_norm_split(p, r, i + 1, q, false, true);
            } else {
                lemma_norm_split(p, r, i + 1, q, true, l);
            }
        } else if !q && ch == '-' && i + 1 < p.len() && p[(i + 1) as int] == '-' {
            lemma_norm_split(p, r, i + 2, q, true, l);
        } else if ch == '\'' {
            lemma_norm_split(p, r, i + 1, !q, false, false);
        } else if !q && crate::text::is_ascii_ws(ch) {
            lemma_norm_split(p, r, i + 1, q, false, true);
        } else {
            lemma_norm_split(p, r, i + 1, q, false, false);
        }
        assert(norm_from(s, i, q, c, l) =~= pre.0 + norm_from(s, p.len(), pre.1, pre.2, pre.3));
    } else {
        assert(norm_prefix(p, i, q, c, l).0 =~= Seq::<char>::empty());
        assert(Seq::<char>::empty() + norm_from(s, p.len(), q, c, l) =~= norm_from(s, p.len(), q, c, l));
    }
}

/// Outside quotes and comments, which whitespace character stands somewhere makes no
/// difference to the normalized statement.
pub proof fn lemma_whitespace_kind_ignored(p: Seq<char>, w1: char, w2: char, rest: Seq<char>)
    requires
        crate::text::is_ascii_ws(w1),
        crate::text::is_ascii_ws(w2),
        !norm_prefix(p, 0, false, false, false).1,
        !norm_prefix(p, 0, false, false, false).2,
    ensures
        normalize(p + seq![w1] + rest) == normalize(p + seq![w2] + rest),
{
    let pre = norm_prefix(p, 0, false, false, false);
    let a = p + (seq![w1] + rest);
    let b = p + (seq![w2] + rest);
    assert(p + seq![w1] + rest =~= a);
    assert(p + seq![w2] + rest =~= b);
    lemma_norm_split(p, seq![w1] + rest, 0, false, false, false);
    lemma_norm_split(p, seq![w2] + rest, 0, false, false, false);
    assert(a[p.len() as int] == w1);
    assert(b[p.len() as int] == w2);
    assert(a.skip((p.len() + 1) as int) =~= rest);
    assert(b.skip((p.len() + 1) as int) =~= rest);
    lemma_norm_suffix(a, p.len() + 1, b, p.len() + 1, false, false, true);
    assert(norm_from(a, p.len(), false, false, pre.3) == norm_from(b, p.len(), false, false, pre.3));
}

/// Outside quotes and comments, a whitespace character more after a whitespace character
/// makes no difference to the normalized statement: a run of whitespace counts as one.
pub proof fn lemma_whitespace_run_collapses(p: Seq<char>, w1: char, w2: char, rest: Seq<char>)
    requires
        crate::text::is_ascii_ws(w1),
        crate::text::is_ascii_ws(w2),
        !norm_prefix(p, 0, false, false, false).1,
        !norm_prefix(p, 0, false, false, false).2,
    ensures
        normalize(p + seq![w1] + rest) == normalize(p + seq![w1, w2] + rest),
{
    let pre = norm_prefix(p, 0, false, false, false);
    let a = p + (seq![w1] + rest);
    let b = p + (seq![w1, w2] + rest);
    assert(p + seq![w1] + rest =~= a);
    assert(p + seq![w1, w2] + rest =~= b);
    lemma_norm_split(p, seq![w1] + rest, 0, false, false, false);
    lemma_norm_split(p, seq![w1, w2] + rest, 0, false, false, false);
    assert(a[p.len() as int] == w1);
    assert(b[p.len() as int] == w1);
    assert(b[(p.len() + 1) as int] == w2);
    assert(a.skip((p.len() + 1) as int) =~= rest);
    assert(b.skip((p.len() + 2) as int) =~= rest);
    lemma_norm_suffix(a, p.len() + 1, b, p.len() + 2, false, false, true);
    assert(norm_from(b, p.len() + 1, false, false, true) == norm_from(b, p.len() + 2, false, false, true));
    assert(norm_from(a, p.len(), false, false, pre.3) == norm_from(b, p.len(), false, false, pre.3));
}

/// Skipping comment text: from inside a comment, everything up to the newline is dropped.
proof fn lemma_comment_skipped(s: Seq<char>, i: nat, n: nat, q: bool, l: bool)
    requires
        i <= n < s.len(),
        s[n as int] == '\n',
        forall|k: int| i <= k < n ==> s[k] != '\n',
    ensures
        norm_from(s, i, q, true, l) == (if !l { seq![' '] } else { Seq::<char>::empty() }) + norm_from(s, n + 1, q, false, true),
    decreases n - i,
{
    if i < n {
        lemma_comment_skipped(s, i + 1, n, q, l);
    }
}

/// Outside quotes and comments, a whitespace character and a whitespace character followed by
/// a `--` comment up to its newline normalize alike: comments are dropped.
pub proof fn lemma_comment_ignored(p: Seq<char>, w: char, text: Seq<char>, rest: Seq<char>)
    requires
        crate::text::is_ascii_ws(w),
        forall|k: int| 0 <= k < text.len() ==> text[k] != '\n',
        !norm_prefix(p, 0, false, false, false).1,
        !norm_prefix(p, 0, false, false, false).2,
    ensures
        normalize(p + seq![w] + rest) == normalize(p + seq![w, '-', '-'] + text + seq!['\n'] + rest),
{
    let pre = norm_prefix(p, 0, false, false, false);
    let a = p + (seq![w] + rest);
    let b = p + (seq![w, '-', '-'] + text + seq!['\n'] + rest);
    assert(p + seq![w] + rest =~= a);
    assert(p + seq![w, '-', '-'] + text + seq!['\n'] + rest =~= b);
    lemma_norm_split(p, seq![w] + rest, 0, false, false, false);
    lemma_norm_split(p, seq![w, '-', '-'] + text + seq!['\n'] + rest, 0, false, false, false);
    let n = p.len() + 3 + text.len();
    assert(b[p.len() as int] == w);
    assert(b[(p.len() + 1) as int] == '-');
    assert(b[(p.len() + 2) as int] == '-');
    assert(b[n as int] == '\n');
    assert forall|k: int| p.len() + 3 <= k < n implies b[k] != '\n' by {
        assert(b[k] == text[k - p.len() - 3]);
    }
    lemma_comment_skipped(b, p.len() + 3, n, false, true);
    assert(a.skip((p.len() + 1) as int) =~= rest);
    assert(b.skip((n + 1) as int) =~= rest);
    lemma_norm_suffix(a, p.len() + 1, b, n + 1, false, false, true);
    assert(norm_from(b, p.len() + 1, false, false, true) == norm_from(b, n + 1, false, false, true));
    assert(norm_from(a, p.len(), false, false, pre.3) == norm_from(b, p.len(), false, false, pre.3));
}

/// Two statements with the same normalized form parse alike: parsing depends on nothing but
/// the normalized statement.
pub proof fn lemma_parse_depends_on_normalized(a: Seq<char>, b: Seq<char>)
    requires
        normalized_statement(a) == normalized_statement(b),
    ensures
        parse_statement(a) == parse_statement(b),
{
}

/// Parsing a statement: the text is trimmed, trailing `;` are removed, it is normalized, and
/// its keyword (any ASCII case) selects the statement kind.
pub open spec fn parse_statement(raw: Seq<char>) -> ParseOutcome {
    let sql = normalized_statement(raw);
    let up = crate::text::upper_seq(sql);
    if crate::text::starts_with(up, kw_select()) {
        parse_select(sql, up)
    } else if crate::text::starts_with(up, kw_insert()) {
        parse_insert(sql, up)
    } else if crate::text::starts_with(up, kw_create()) {
        parse_create(sql)
    } else if crate::text::starts_with(up, kw_drop()) {
        parse_drop(sql, up)
    } else if crate::text::starts_with(up, kw_delete()) {
        parse_delete(sql)
    } else {
        ParseOutcome::Failed("Unsupported SQL statement"@)
    }
}

/// Parses a statement; `None` when its parts overlap so that it cannot be taken apart
/// (e.g. `SELECT FROM t`, where FROM starts inside the SELECT keyword).
pub fn try_parse_sql(raw_sql: &str) -> (r: Option<Result<Ast, String>>)
    ensures
        outcome_agrees(r, parse_statement(raw_sql@)),
{
    let raw = chars_of(raw_sql);
    let t = trim_chars(raw.as_slice());
    let t2 = trim_end_matches_chars(t.as_slice(), ';');
    let sql = normalize_sql(t2.as_slice());
    let up = uppercase(sql.as_slice());
    let ks = ['S', 'E', 'L', 'E', 'C', 'T', ' '];
    let ki = ['I', 'N', 'S', 'E', 'R', 'T', ' ', 'I', 'N', 'T', 'O', ' '];
    let kc = ['C', 'R', 'E', 'A', 'T', 'E', ' ', 'T', 'A', 'B', 'L', 'E', ' '];
    let kd = ['D', 'R', 'O', 'P', ' ', 'T', 'A', 'B', 'L', 'E', ' '];
    let kx = ['D', 'E', 'L', 'E', 'T', 'E', ' ', 'F', 'R', 'O', 'M', ' '];
    assert(ks@ =~= kw_select());
    assert(ki@ =~= kw_insert());
    assert(kc@ =~= kw_create());
    assert(kd@ =~= kw_drop());
    assert(kx@ =~= kw_delete());
    if starts_with_chars(up.as_slice(), ks.as_slice()) {
        parse_select_exec(sql.as_slice(), up.as_slice())
    } else if starts_with_chars(up.as_slice(), ki.as_slice()) {
        parse_insert_exec(sql.as_slice(), up.as_slice())
    } else if starts_with_chars(up.as_slice(), kc.as_slice()) {
        parse_create_exec(sql.as_slice())
    } else if starts_with_chars(up.as_slice(), kd.as_slice()) {
        parse_drop_exec(sql.as_slice(), up.as_slice())
    } else if starts_with_chars(up.as_slice(), kx.as_slice()) {
        parse_delete_exec(sql.as_slice())
    } else {
        Some(Err(msg("Unsupported SQL statement")))
    }
}

/// Parses a SQL statement into an AST, or returns an error message.
pub fn parse_sql(raw_sql: &str) -> (r: Result<Ast, String>)
    requires
        !(parse_statement(raw_sql@) is Undefined),
    ensures
        outcome_agrees(Some(r), parse_statement(raw_sql@)),
{
    match try_parse_sql(raw_sql) {
        Some(r) => r,
        None => Err(msg("Unsupported SQL statement")),
    }
}

} // verus!
