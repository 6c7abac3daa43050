//! Evaluation of WHERE conditions against decoded values.
use crate::schema::{Column, Schema};
use crate::sql::{LogicOp, Operator, WhereCondition};
use crate::text::{chars_of, chars_eq, parse_bool_chars, parse_i32_chars};
use crate::value::{Value, ValueView};
use vstd::prelude::*;

verus! {

/// Strict lexicographic order on character sequences by code point, which is the order
/// `str` comparison gives (UTF-8 byte order agrees with code-point order).
pub open spec fn lex_less(a: Seq<char>, b: Seq<char>) -> bool
    decreases a.len(),
{
    if a.len() == 0 {
        b.len() > 0
    } else if b.len() == 0 {
        false
    } else if a[0] != b[0] {
        (a[0] as u32) < (b[0] as u32)
    } else {
        lex_less(a.drop_first(), b.drop_first())
    }
}

/// The result of comparing two ordered quantities with an operator, given whether
/// `a < b` and whether `a == b`.
pub open spec fn compare(op: Operator, less: bool, equal: bool) -> bool {
    match op {
        Operator::Eq => equal,
        Operator::Neq => !equal,
        Operator::Gt => !less && !equal,
        Operator::Gte => !less,
        Operator::Lt => less,
        Operator::Lte => less || equal,
    }
}

/// Integer comparison against the text of the right-hand side; false when it is not an integer.
pub open spec fn int_cond(v: i32, r: Seq<char>, op: Operator) -> bool {
    match crate::text::parse_i32(r) {
        None => false,
        Some(rv) => compare(op, v < rv, v == rv),
    }
}

/// Boolean comparison; only `=` and `!=` can hold, and only against `true` or `false`.
pub open spec fn bool_cond(v: bool, r: Seq<char>, op: Operator) -> bool {
    match crate::text::parse_bool(r) {
        None => false,
        Some(rv) => match op {
            Operator::Eq => v == rv,
            Operator::Neq => v != rv,
            _ => false,
        },
    }
}

/// Text comparison in lexicographic order.
pub open spec fn str_cond(v: Seq<char>, r: Seq<char>, op: Operator) -> bool {
    compare(op, lex_less(v, r), v == r)
}

/// Whether a value satisfies a condition; NULL satisfies none.
pub open spec fn value_matches(v: ValueView, r: Seq<char>, op: Operator) -> bool {
    match v {
        ValueView::Null => false,
        ValueView::Integer(x) => int_cond(x, r, op),
        ValueView::Boolean(b) => bool_cond(b, r, op),
        ValueView::Varchar(s) => str_cond(s, r, op),
    }
}

/// Index of the first column with the given name.
pub open spec fn col_position(cols: Seq<Column>, name: Seq<char>) -> Option<int>
    decreases cols.len(),
{
    if cols.len() == 0 {
        None
    } else if cols.last().name@ == name {
        match col_position(cols.drop_last(), name) {
            Some(k) => Some(k),
            None => Some(cols.len() - 1),
        }
    } else {
        col_position(cols.drop_last(), name)
    }
}

/// Evaluates conditions `i..` with the result so far and the current AND group: conditions
/// on unknown columns are skipped; an OR closes the group into the result; the last
/// condition closes the final group.
pub open spec fn eval_from(
    conds: Seq<WhereCondition>,
    cols: Seq<Column>,
    vals: Seq<ValueView>,
    i: nat,
    result: bool,
    group: bool,
) -> bool
    decreases conds.len() - i,
{
    if i >= conds.len() {
        result
    } else {
        let c = conds[i as int];
        match col_position(cols, c.left_col@) {
            None => eval_from(conds, cols, vals, i + 1, result, group),
            Some(k) => {
                let g = group && value_matches(vals[k], c.right_val@, c.operator);
                if c.next_logic == Some(LogicOp::Or) {
                    eval_from(conds, cols, vals, i + 1, result || g, true)
                } else if i == conds.len() - 1 {
                    eval_from(conds, cols, vals, i + 1, result || g, g)
                } else {
                    eval_from(conds, cols, vals, i + 1, result, g)
                }
            },
        }
    }
}

/// The WHERE clause holds for the values: true when it is empty.
pub open spec fn where_holds(conds: Seq<WhereCondition>, cols: Seq<Column>, vals: Seq<ValueView>) -> bool {
    conds.len() == 0 || eval_from(conds, cols, vals, 0, false, true)
}

/// Every condition whose column exists names a column for which a value is present.
pub open spec fn values_cover(conds: Seq<WhereCondition>, cols: Seq<Column>, n: nat) -> bool {
    forall|i: int|
        0 <= i < conds.len() ==> (#[trigger] col_position(cols, conds[i].left_col@) matches Some(k) ==> k < n)
}

pub(crate) proof fn lemma_col_position(cols: Seq<Column>, name: Seq<char>)
    ensures
        col_position(cols, name) matches Some(k) ==> 0 <= k < cols.len() && cols[k].name@ == name && forall|j: int|
            0 <= j < k ==> cols[j].name@ != name,
        col_position(cols, name) is None ==> forall|j: int| 0 <= j < cols.len() ==> cols[j].name@ != name,
    decreases cols.len(),
{
    if cols.len() > 0 {
        let d = cols.drop_last();
        lemma_col_position(d, name);
        assert forall|j: int| 0 <= j < d.len() implies d[j] == cols[j] by {}
    }
}

/// A condition on an integer value against an integer right-hand side holds exactly as the
/// integers compare: `>` is strictly greater (false on equal values), `>=` greater or equal,
/// and so on for each operator.
pub proof fn lemma_integer_condition(x: i32, r: Seq<char>, op: Operator, rv: i32)
    requires
        crate::text::parse_i32(r) == Some(rv),
    ensures
        value_matches(ValueView::Integer(x), r, op) == match op {
            Operator::Eq => x == rv,
            Operator::Neq => x != rv,
            Operator::Gt => x > rv,
            Operator::Gte => x >= rv,
            Operator::Lt => x < rv,
            Operator::Lte => x <= rv,
        },
{
}

/// A condition on a text value holds exactly as the texts compare in lexicographic order:
/// `>` holds when the value comes strictly after the right-hand side (never on equal texts),
/// `>=` when it comes after or is equal, and so on for each operator.
pub proof fn lemma_text_condition(v: Seq<char>, r: Seq<char>, op: Operator)
    ensures
        value_matches(ValueView::Varchar(v), r, op) == match op {
            Operator::Eq => v == r,
            Operator::Neq => v != r,
            Operator::Gt => lex_less(r, v),
            Operator::Gte => lex_less(r, v) || v == r,
            Operator::Lt => lex_less(v, r),
            Operator::Lte => lex_less(v, r) || v == r,
        },
{
    if v == r {
        crate::sort::lemma_lex_less_irreflexive(v);
    } else {
        crate::sort::lemma_lex_less_total(v, r);
        if lex_less(v, r) {
            crate::sort::lemma_lex_less_asymmetric(v, r);
        }
    }
}

/// A condition on a boolean value holds only for `=` and `!=` against `true` or `false`:
/// `=` when the values are the same, `!=` when they differ.
pub proof fn lemma_boolean_condition(b: bool, r: Seq<char>, op: Operator, rv: bool)
    requires
        crate::text::parse_bool(r) == Some(rv),
    ensures
        value_matches(ValueView::Boolean(b), r, op) == match op {
            Operator::Eq => b == rv,
            Operator::Neq => b != rv,
            _ => false,
        },
{
}

/// NULL satisfies no condition.
pub proof fn lemma_null_condition(r: Seq<char>, op: Operator)
    ensures
        !value_matches(ValueView::Null, r, op),
{
}

/// Two conditions on columns the schema has, joined by AND, hold exactly when both hold;
/// joined by OR, exactly when either holds.
pub proof fn lemma_two_conditions(
    c1: WhereCondition,
    c2: WhereCondition,
    cols: Seq<Column>,
    vals: Seq<ValueView>,
    k1: int,
    k2: int,
)
    requires
        col_position(cols, c1.left_col@) == Some(k1),
        col_position(cols, c2.left_col@) == Some(k2),
        c1.next_logic is Some,
    ensures
        where_holds(seq![c1, c2], cols, vals) == if c1.next_logic == Some(LogicOp::And) {
            value_matches(vals[k1], c1.right_val@, c1.operator) && value_matches(vals[k2], c2.right_val@, c2.operator)
        } else {
            value_matches(vals[k1], c1.right_val@, c1.operator) || value_matches(vals[k2], c2.right_val@, c2.operator)
        },
{
    let conds = seq![c1, c2];
    assert(conds.len() == 2);
    assert(conds[0] == c1);
    assert(conds[1] == c2);
    let g1 = value_matches(vals[k1], c1.right_val@, c1.operator);
    let g2 = value_matches(vals[k2], c2.right_val@, c2.operator);
    assert(eval_from(conds, cols, vals, 2, true, true) == true);
    assert(eval_from(conds, cols, vals, 2, false, false) == false);
    assert(eval_from(conds, cols, vals, 2, g1 && g2, true) == (g1 && g2));
    assert(eval_from(conds, cols, vals, 2, g1 && g2, g1 && g2) == (g1 && g2));
    assert(eval_from(conds, cols, vals, 2, g1 || g2, true) == (g1 || g2));
    assert(eval_from(conds, cols, vals, 2, g1 || g2, g2) == (g1 || g2));
    assert(eval_from(conds, cols, vals, 2, false || (g1 && g2), true) == (g1 && g2));
    assert(eval_from(conds, cols, vals, 2, false || (g1 && g2), g1 && g2) == (g1 && g2));
    if c1.next_logic == Some(LogicOp::And) {
        assert(eval_from(conds, cols, vals, 1, false, g1) == (g1 && g2));
        assert(eval_from(conds, cols, vals, 0, false, true) == eval_from(conds, cols, vals, 1, false, true && g1));
        assert((true && g1) == g1);
    } else {
        assert(c1.next_logic == Some(LogicOp::Or)) by {
            match c1.next_logic {
                Some(LogicOp::Or) => {},
                Some(LogicOp::And) => {},
                None => {},
            }
        }
        assert(eval_from(conds, cols, vals, 1, false || g1, true) == (g1 || g2));
        assert(eval_from(conds, cols, vals, 0, false, true) == eval_from(conds, cols, vals, 1, false || (true && g1), true));
        assert((true && g1) == g1);
    }
}

/// A WHERE clause of one condition on a column the schema has holds exactly when that
/// column's value satisfies the condition.
pub proof fn lemma_single_condition(c: WhereCondition, cols: Seq<Column>, vals: Seq<ValueView>, k: int)
    requires
        col_position(cols, c.left_col@) == Some(k),
    ensures
        where_holds(seq![c], cols, vals) == value_matches(vals[k], c.right_val@, c.operator),
{
    let conds = seq![c];
    assert(conds[0] == c);
    reveal_with_fuel(eval_from, 3);
}

/// Index of the first column with the given name.
pub fn find_column(schema: &Schema, name: &String) -> (r: Option<usize>)
    ensures
        match r {
            Some(k) => col_position(schema.columns@, name@) == Some(k as int),
            None => col_position(schema.columns@, name@) is None,
        },
{
    let mut i: usize = 0;
    proof {
        lemma_col_position(schema.columns@, name@);
    }
    while i < schema.columns.len()
        invariant
            i <= schema.columns@.len(),
            forall|j: int| 0 <= j < i ==> schema.columns@[j].name@ != name@,
        decreases schema.columns@.len() - i,
    {
        if schema.columns[i].name == *name {
            proof {
                lemma_col_position(schema.columns@, name@);
                match col_position(schema.columns@, name@) {
                    Some(k) => {
                        assert(k == i);
                    },
                    None => {},
                }
            }
            return Some(i);
        }
        i += 1;
    }
    None
}

fn compare_exec(op: Operator, less: bool, equal: bool) -> (r: bool)
    ensures
        r == compare(op, less, equal),
{
    match op {
        Operator::Eq => equal,
        Operator::Neq => !equal,
        Operator::Gt => !less && !equal,
        Operator::Gte => !less,
        Operator::Lt => less,
        Operator::Lte => less || equal,
    }
}

pub(crate) fn lex_less_exec(a: &[char], b: &[char]) -> (r: bool)
    ensures
        r == lex_less(a@, b@),
{
    let mut i: usize = 0;
    assert(a@.skip(0) =~= a@);
    assert(b@.skip(0) =~= b@);
    while i < a.len() && i < b.len() && a[i] == b[i]
        invariant
            i <= a@.len(),
            i <= b@.len(),
            lex_less(a@, b@) == lex_less(a@.skip(i as int), b@.skip(i as int)),
        decreases a@.len() - i,
    {
        assert(a@.skip(i as int).drop_first() =~= a@.skip(i + 1));
        assert(b@.skip(i as int).drop_first() =~= b@.skip(i + 1));
        i += 1;
    }
    if i == a.len() {
        i < b.len()
    } else if i == b.len() {
        false
    } else {
        assert(a@.skip(i as int)[0] == a@[i as int]);
        assert(b@.skip(i as int)[0] == b@[i as int]);
        (a[i] as u32) < (b[i] as u32)
    }
}

/// Compares an integer with the text of the right-hand side.
pub fn evaluate_int_cond(v: i32, r_val: &str, op: &Operator) -> (r: bool)
    ensures
        r == int_cond(v, r_val@, *op),
{
    let cs = chars_of(r_val);
    match parse_i32_chars(cs.as_slice()) {
        None => false,
        Some(rv) => compare_exec(*op, v < rv, v == rv),
    }
}

/// Compares a boolean with the text of the right-hand side.
pub fn evaluate_bool_cond(v: bool, r_val: &str, op: &Operator) -> (r: bool)
    ensures
        r == bool_cond(v, r_val@, *op),
{
    let cs = chars_of(r_val);
    match parse_bool_chars(cs.as_slice()) {
        None => false,
        Some(rv) => match op {
            Operator::Eq => v == rv,
            Operator::Neq => v != rv,
            _ => false,
        },
    }
}

/// Compares two strings lexicographically.
pub fn evaluate_str_cond(v: &str, r_val: &str, op: &Operator) -> (r: bool)
    ensures
        r == str_cond(v@, r_val@, *op),
{
    let a = chars_of(v);
    let b = chars_of(r_val);
    compare_exec(*op, lex_less_exec(a.as_slice(), b.as_slice()), chars_eq(a.as_slice(), b.as_slice()))
}

fn value_matches_exec(v: &Value, r_val: &String, op: &Operator) -> (r: bool)
    ensures
        r == value_matches(v@, r_val@, *op),
{
    match v {
        Value::Null => false,
        Value::Integer(x) => evaluate_int_cond(*x, r_val.as_str(), op),
        Value::Boolean(b) => evaluate_bool_cond(*b, r_val.as_str(), op),
        Value::Varchar(s) => evaluate_str_cond(s.as_str(), r_val.as_str(), op),
    }
}

/// Evaluates a list of WHERE conditions against a row: AND binds tighter than OR, conditions
/// on columns the schema does not have are skipped, and NULL satisfies no condition.
pub fn evaluate_where_clause(where_clause: &[WhereCondition], schema: &Schema, vals: &[Value]) -> (r: bool)
    requires
        values_cover(where_clause@, schema.columns@, vals@.len()),
    ensures
        r == where_holds(where_clause@, schema.columns@, crate::value::values_view(vals@)),
{
    if where_clause.len() == 0 {
        return true;
    }
    let ghost vv = crate::value::values_view(vals@);
    let mut final_result = false;
    let mut current_and_group = true;
    let mut i: usize = 0;
    while i < where_clause.len()
        invariant
            i <= where_clause@.len(),
            vv == crate::value::values_view(vals@),
            values_cover(where_clause@, schema.columns@, vals@.len()),
            where_holds(where_clause@, schema.columns@, vv) == eval_from(
                where_clause@,
                schema.columns@,
                vv,
                i as nat,
                final_result,
                current_and_group,
            ),
        decreases where_clause@.len() - i,
    {
        let cond = &where_clause[i];
        match find_column(schema, &cond.left_col) {
            None => {},
            Some(col_idx) => {
                assert(col_position(schema.columns@, where_clause@[i as int].left_col@) matches Some(k) ==> k < vals@.len());
                let is_match = value_matches_exec(&vals[col_idx], &cond.right_val, &cond.operator);
                current_and_group = current_and_group && is_match;
                if cond.next_logic == Some(LogicOp::Or) {
                    final_result = final_result || current_and_group;
                    current_and_group = true;
                } else if i == where_clause.len() - 1 {
                    final_result = final_result || current_and_group;
                }
            },
        }
        i += 1;
    }
    final_result
}

} // verus!
