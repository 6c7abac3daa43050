//! Sorting an operator's output by one column: sorted runs of bounded size, merged by
//! always taking the least head.
use crate::predicate::{lex_less, lex_less_exec};
use crate::query::{copy_tuple, exhausted, ExecutionContext, Executor, QueryError};
use crate::schema::{Column, Schema};
use crate::text::chars_of;
use crate::tuple::{decode, Tuple};
use crate::value::{Value, ValueView};
use vstd::prelude::*;

verus! {

broadcast use {vstd::seq_lib::group_seq_properties, vstd::seq_lib::group_to_multiset_ensures};

/// The part of a tuple that orders it: the value in the sort column, when the tuple decodes,
/// has that column and the value is not NULL.
pub enum KeyView {
    Int(i32),
    Text(Seq<char>),
    Bool(bool),
    Unordered,
}

/// The sort key of a tuple's bytes under the given columns.
pub open spec fn sort_key(data: Seq<u8>, cols: Seq<Column>, idx: int) -> KeyView {
    match decode(data, cols) {
        Ok(vals) => if 0 <= idx < vals.len() {
            match vals[idx] {
                ValueView::Integer(i) => KeyView::Int(i),
                ValueView::Varchar(s) => KeyView::Text(s),
                ValueView::Boolean(b) => KeyView::Bool(b),
                ValueView::Null => KeyView::Unordered,
            }
        } else {
            KeyView::Unordered
        },
        Err(_) => KeyView::Unordered,
    }
}

/// `a` sorts strictly before `b`: both are of one kind and ordered so. Keys of different
/// kinds, and unordered keys, compare as equal.
pub open spec fn key_less(a: KeyView, b: KeyView) -> bool {
    match (a, b) {
        (KeyView::Int(x), KeyView::Int(y)) => x < y,
        (KeyView::Text(x), KeyView::Text(y)) => lex_less(x, y),
        (KeyView::Bool(x), KeyView::Bool(y)) => !x && y,
        _ => false,
    }
}

/// The sort key of a tuple.
pub open spec fn tuple_key(t: Tuple, cols: Seq<Column>, idx: int) -> KeyView {
    sort_key(t.data@, cols, idx)
}

/// No tuple sorts strictly before the one in front of it.
pub open spec fn sorted_by(s: Seq<Tuple>, cols: Seq<Column>, idx: int) -> bool {
    forall|q: int| 0 <= q < s.len() - 1 ==> !key_less(
        #[trigger] tuple_key(s[q + 1], cols, idx),
        tuple_key(s[q], cols, idx),
    )
}

/// The tuple decodes under the columns and its value in column `idx` is the boolean `b`.
pub open spec fn holds_bool(t: Tuple, cols: Seq<Column>, idx: int, b: bool) -> bool {
    decode(t.data@, cols) matches Ok(vs) && 0 <= idx < vs.len() && vs[idx] == ValueView::Boolean(b)
}

/// In a sequence sorted on a boolean column, `false` comes before `true`: no tuple holding
/// `true` stands anywhere before a tuple holding `false`.
pub proof fn lemma_sorted_booleans_false_first(s: Seq<Tuple>, cols: Seq<Column>, idx: int, p: int, q: int)
    requires
        sorted_by(s, cols, idx),
        forall|t: int| 0 <= t < s.len() ==> holds_bool(#[trigger] s[t], cols, idx, true) || holds_bool(s[t], cols, idx, false),
        0 <= p < q < s.len(),
    ensures
        !(holds_bool(s[p], cols, idx, true) && holds_bool(s[q], cols, idx, false)),
    decreases q - p,
{
    if holds_bool(s[p], cols, idx, true) && holds_bool(s[q], cols, idx, false) {
        let m = q - 1;
        assert(holds_bool(s[m], cols, idx, true) || holds_bool(s[m], cols, idx, false));
        if m > p {
            if holds_bool(s[m], cols, idx, false) {
                lemma_sorted_booleans_false_first(s, cols, idx, p, m);
            }
        }
        assert(holds_bool(s[m], cols, idx, true));
        assert(tuple_key(s[m], cols, idx) == KeyView::Bool(true));
        assert(tuple_key(s[m + 1], cols, idx) == KeyView::Bool(false));
        assert(!key_less(tuple_key(s[m + 1], cols, idx), tuple_key(s[m], cols, idx)));
    }
}

/// The tuple decodes under the columns and its value in column `idx` is the integer `x`.
pub open spec fn holds_int(t: Tuple, cols: Seq<Column>, idx: int, x: i32) -> bool {
    decode(t.data@, cols) matches Ok(vs) && 0 <= idx < vs.len() && vs[idx] == ValueView::Integer(x)
}

/// The tuple decodes under the columns and its value in column `idx` is an integer.
pub open spec fn has_int(t: Tuple, cols: Seq<Column>, idx: int) -> bool {
    decode(t.data@, cols) matches Ok(vs) && 0 <= idx < vs.len() && vs[idx] is Integer
}

/// In a sequence sorted on an integer column the values ascend: no tuple stands before a
/// tuple with a smaller value.
pub proof fn lemma_sorted_integers_ascend(s: Seq<Tuple>, cols: Seq<Column>, idx: int, p: int, q: int, x: i32, y: i32)
    requires
        sorted_by(s, cols, idx),
        forall|t: int| 0 <= t < s.len() ==> has_int(#[trigger] s[t], cols, idx),
        0 <= p < q < s.len(),
        holds_int(s[p], cols, idx, x),
        holds_int(s[q], cols, idx, y),
    ensures
        x <= y,
    decreases q - p,
{
    let m = q - 1;
    assert(has_int(s[m], cols, idx));
    let vs = decode(s[m].data@, cols)->Ok_0;
    let z = vs[idx]->Integer_0;
    assert(holds_int(s[m], cols, idx, z));
    if m > p {
        lemma_sorted_integers_ascend(s, cols, idx, p, m, x, z);
    }
    assert(tuple_key(s[m], cols, idx) == KeyView::Int(z));
    assert(tuple_key(s[m + 1], cols, idx) == KeyView::Int(y));
    assert(!key_less(tuple_key(s[m + 1], cols, idx), tuple_key(s[m], cols, idx)));
}

/// The tuple decodes under the columns and its value in column `idx` is a text.
pub open spec fn has_text(t: Tuple, cols: Seq<Column>, idx: int) -> bool {
    decode(t.data@, cols) matches Ok(vs) && 0 <= idx < vs.len() && vs[idx] is Varchar
}

/// In a sequence sorted on a text column the texts ascend in lexicographic order: no tuple
/// stands before a tuple whose text comes strictly before its own.
pub proof fn lemma_sorted_texts_ascend(
    s: Seq<Tuple>,
    cols: Seq<Column>,
    idx: int,
    p: int,
    q: int,
    x: Seq<char>,
    y: Seq<char>,
)
    requires
        sorted_by(s, cols, idx),
        forall|t: int| 0 <= t < s.len() ==> has_text(#[trigger] s[t], cols, idx),
        0 <= p < q < s.len(),
        decode(s[p].data@, cols) matches Ok(vs) && 0 <= idx < vs.len() && vs[idx] == ValueView::Varchar(x),
        decode(s[q].data@, cols) matches Ok(vs) && 0 <= idx < vs.len() && vs[idx] == ValueView::Varchar(y),
    ensures
        !lex_less(y, x),
    decreases q - p,
{
    let m = q - 1;
    assert(has_text(s[m], cols, idx));
    let vs = decode(s[m].data@, cols)->Ok_0;
    let z = vs[idx]->Varchar_0;
    assert(tuple_key(s[m], cols, idx) == KeyView::Text(z));
    assert(tuple_key(s[m + 1], cols, idx) == KeyView::Text(y));
    assert(!key_less(tuple_key(s[m + 1], cols, idx), tuple_key(s[m], cols, idx)));
    if m > p {
        lemma_sorted_texts_ascend(s, cols, idx, p, m, x, z);
        lemma_not_before_transitive(KeyView::Text(x), KeyView::Text(z), KeyView::Text(y));
    }
}

/// Lexicographic order is asymmetric.
pub proof fn lemma_lex_less_asymmetric(a: Seq<char>, b: Seq<char>)
    requires
        lex_less(a, b),
    ensures
        !lex_less(b, a),
    decreases a.len(),
{
    if a.len() > 0 && b.len() > 0 && a[0] == b[0] {
        lemma_lex_less_asymmetric(a.drop_first(), b.drop_first());
    }
}

/// Key order is asymmetric.
pub proof fn lemma_key_less_asymmetric(a: KeyView, b: KeyView)
    requires
        key_less(a, b),
    ensures
        !key_less(b, a),
{
    match (a, b) {
        (KeyView::Text(x), KeyView::Text(y)) => lemma_lex_less_asymmetric(x, y),
        _ => {},
    }
}

/// Lexicographic order is irreflexive.
pub(crate) proof fn lemma_lex_less_irreflexive(a: Seq<char>)
    ensures
        !lex_less(a, a),
    decreases a.len(),
{
    if a.len() > 0 {
        lemma_lex_less_irreflexive(a.drop_first());
    }
}

/// Lexicographic order is transitive.
proof fn lemma_lex_less_transitive(a: Seq<char>, b: Seq<char>, c: Seq<char>)
    requires
        lex_less(a, b),
        lex_less(b, c),
    ensures
        lex_less(a, c),
    decreases a.len(),
{
    if a.len() > 0 && b.len() > 0 && c.len() > 0 && a[0] == b[0] && b[0] == c[0] {
        lemma_lex_less_transitive(a.drop_first(), b.drop_first(), c.drop_first());
    }
}

/// Lexicographic order is total on distinct sequences.
pub(crate) proof fn lemma_lex_less_total(a: Seq<char>, b: Seq<char>)
    requires
        a != b,
    ensures
        lex_less(a, b) || lex_less(b, a),
    decreases a.len(),
{
    if a.len() > 0 && b.len() > 0 && a[0] == b[0] {
        if a.drop_first() == b.drop_first() {
            assert(a =~= seq![a[0]] + a.drop_first());
            assert(b =~= seq![b[0]] + b.drop_first());
        } else {
            lemma_lex_less_total(a.drop_first(), b.drop_first());
        }
    } else if a.len() > 0 && b.len() > 0 {
        vstd::utf8::char_u32_cast(a[0], a[0] as u32);
        vstd::utf8::char_u32_cast(b[0], b[0] as u32);
    } else if a.len() == 0 && b.len() == 0 {
        assert(a =~= b);
    }
}

/// Two keys are of one ordered kind: both integers, both text, or both booleans.
pub open spec fn same_kind(a: KeyView, b: KeyView) -> bool {
    match (a, b) {
        (KeyView::Int(_), KeyView::Int(_)) => true,
        (KeyView::Text(_), KeyView::Text(_)) => true,
        (KeyView::Bool(_), KeyView::Bool(_)) => true,
        _ => false,
    }
}

/// Among keys of one kind, "not before" is transitive.
proof fn lemma_not_before_transitive(a: KeyView, b: KeyView, c: KeyView)
    requires
        same_kind(a, b),
        same_kind(b, c),
        !key_less(b, a),
        !key_less(c, b),
    ensures
        !key_less(c, a),
{
    match (a, b, c) {
        (KeyView::Text(x), KeyView::Text(y), KeyView::Text(z)) => {
            if lex_less(z, x) {
                if x == y {
                } else {
                    lemma_lex_less_total(x, y);
                    if lex_less(x, y) {
                        lemma_lex_less_transitive(z, x, y);
                    }
                }
            }
        },
        _ => {},
    }
}

/// No key sorts before itself.
proof fn lemma_key_less_irreflexive(a: KeyView)
    ensures
        !key_less(a, a),
{
    match a {
        KeyView::Text(x) => lemma_lex_less_irreflexive(x),
        _ => {},
    }
}

/// Sorting strictly before is transitive.
proof fn lemma_key_less_transitive(a: KeyView, b: KeyView, c: KeyView)
    requires
        key_less(a, b),
        key_less(b, c),
    ensures
        key_less(a, c),
{
    match (a, b, c) {
        (KeyView::Text(x), KeyView::Text(y), KeyView::Text(z)) => lemma_lex_less_transitive(x, y, z),
        _ => {},
    }
}

/// No other head among the first `n` sorts strictly before the head [`pick_from`] picks there;
/// it picks none only when there is no head.
proof fn lemma_pick_is_least(heads: Seq<Option<Tuple>>, cols: Seq<Column>, idx: int, n: nat)
    requires
        n <= heads.len(),
    ensures
        pick_from(heads, cols, idx, n) is None ==> forall|j: int| 0 <= j < n ==> #[trigger] heads[j] is None,
        pick_from(heads, cols, idx, n) matches Some(b) ==> forall|j: int|
            0 <= j < n && #[trigger] heads[j] is Some ==> !key_less(
                tuple_key(heads[j]->0, cols, idx),
                tuple_key(heads[b]->0, cols, idx),
            ),
    decreases n,
{
    if n > 0 {
        let m = (n - 1) as nat;
        lemma_pick_is_least(heads, cols, idx, m);
        lemma_pick_from_bounds(heads, cols, idx, m);
        let prev = pick_from(heads, cols, idx, m);
        match heads[n - 1] {
            None => {},
            Some(t) => {
                let kt = tuple_key(t, cols, idx);
                lemma_key_less_irreflexive(kt);
                match prev {
                    None => {},
                    Some(b) => {
                        let kb = tuple_key(heads[b]->0, cols, idx);
                        if key_less(kt, kb) {
                            assert forall|j: int| 0 <= j < n && #[trigger] heads[j] is Some implies !key_less(
                                tuple_key(heads[j]->0, cols, idx),
                                kt,
                            ) by {
                                if j < n - 1 && key_less(tuple_key(heads[j]->0, cols, idx), kt) {
                                    lemma_key_less_transitive(tuple_key(heads[j]->0, cols, idx), kt, kb);
                                }
                            }
                        }
                    },
                }
            },
        }
    }
}

/// Sorted output is in order throughout when every key is of one kind: no tuple sorts
/// strictly before any tuple in front of it.
pub proof fn lemma_sorted_is_ordered(s: Seq<Tuple>, cols: Seq<Column>, idx: int)
    requires
        sorted_by(s, cols, idx),
        forall|i: int, j: int| 0 <= i < s.len() && 0 <= j < s.len() ==> same_kind(
            #[trigger] tuple_key(s[i], cols, idx),
            #[trigger] tuple_key(s[j], cols, idx),
        ),
    ensures
        forall|i: int, j: int| 0 <= i < j < s.len() ==> !key_less(
            #[trigger] tuple_key(s[j], cols, idx),
            #[trigger] tuple_key(s[i], cols, idx),
        ),
{
    assert forall|i: int, j: int| 0 <= i < j < s.len() implies !key_less(
        #[trigger] tuple_key(s[j], cols, idx),
        #[trigger] tuple_key(s[i], cols, idx),
    ) by {
        lemma_ordered_from(s, cols, idx, i, j);
    }
}

proof fn lemma_ordered_from(s: Seq<Tuple>, cols: Seq<Column>, idx: int, i: int, j: int)
    requires
        sorted_by(s, cols, idx),
        forall|a: int, b: int| 0 <= a < s.len() && 0 <= b < s.len() ==> same_kind(
            #[trigger] tuple_key(s[a], cols, idx),
            #[trigger] tuple_key(s[b], cols, idx),
        ),
        0 <= i < j < s.len(),
    ensures
        !key_less(tuple_key(s[j], cols, idx), tuple_key(s[i], cols, idx)),
    decreases j - i,
{
    let kj = tuple_key(s[j], cols, idx);
    let ki = tuple_key(s[i], cols, idx);
    let q = j - 1;
    assert(!key_less(tuple_key(s[q + 1], cols, idx), tuple_key(s[q], cols, idx)));
    assert(q + 1 == j);
    if q > i {
        lemma_ordered_from(s, cols, idx, i, q);
        let kq = tuple_key(s[q], cols, idx);
        assert(same_kind(ki, kq));
        assert(same_kind(kq, kj));
        lemma_not_before_transitive(ki, kq, kj);
    }
}

enum SortKey {
    Int(i32),
    Text(Vec<char>),
    Bool(bool),
    Unordered,
}

spec fn key_view(k: SortKey) -> KeyView {
    match k {
        SortKey::Int(i) => KeyView::Int(i),
        SortKey::Text(s) => KeyView::Text(s@),
        SortKey::Bool(b) => KeyView::Bool(b),
        SortKey::Unordered => KeyView::Unordered,
    }
}

fn key_for(t: &Tuple, schema: &Schema, idx: usize) -> (r: SortKey)
    ensures
        key_view(r) == tuple_key(*t, schema.columns@, idx as int),
{
    match t.to_values(schema) {
        Ok(vals) => {
            if idx < vals.len() {
                match &vals[idx] {
                    Value::Integer(i) => SortKey::Int(*i),
                    Value::Varchar(s) => SortKey::Text(chars_of(s.as_str())),
                    Value::Boolean(b) => SortKey::Bool(*b),
                    Value::Null => SortKey::Unordered,
                }
            } else {
                SortKey::Unordered
            }
        },
        Err(_) => SortKey::Unordered,
    }
}

fn key_less_exec(a: &SortKey, b: &SortKey) -> (r: bool)
    ensures
        r == key_less(key_view(*a), key_view(*b)),
{
    match (a, b) {
        (SortKey::Int(x), SortKey::Int(y)) => *x < *y,
        (SortKey::Text(x), SortKey::Text(y)) => lex_less_exec(x.as_slice(), y.as_slice()),
        (SortKey::Bool(x), SortKey::Bool(y)) => !*x && *y,
        _ => false,
    }
}

/// Sorts tuples by the value in one column (stable insertion sort): the result holds the same
/// tuples and no tuple sorts strictly before the one in front of it.
#[verifier::rlimit(40)]
pub fn sort_tuples(buf: &mut Vec<Tuple>, schema: &Schema, idx: usize)
    ensures
        final(buf)@.to_multiset() == old(buf)@.to_multiset(),
        sorted_by(final(buf)@, schema.columns@, idx as int),
{
    let ghost cols = schema.columns@;
    let mut keys: Vec<SortKey> = Vec::new();
    let mut j: usize = 0;
    while j < buf.len()
        invariant
            j <= buf@.len(),
            keys@.len() == j,
            cols == schema.columns@,
            forall|q: int| 0 <= q < j ==> key_view(#[trigger] keys@[q]) == tuple_key(buf@[q], cols, idx as int),
        decreases buf@.len() - j,
    {
        let k = key_for(&buf[j], schema, idx);
        keys.push(k);
        j += 1;
    }
    if buf.len() == 0 {
        return;
    }
    let mut i: usize = 1;
    while i < buf.len()
        invariant
            1 <= i <= buf@.len(),
            keys@.len() == buf@.len(),
            cols == schema.columns@,
            buf@.to_multiset() == old(buf)@.to_multiset(),
            forall|q: int| 0 <= q < buf@.len() ==> key_view(#[trigger] keys@[q]) == tuple_key(buf@[q], cols, idx as int),
            forall|q: int| 0 <= q < i - 1 ==> !key_less(#[trigger] key_view(keys@[q + 1]), key_view(keys@[q])),
        decreases buf@.len() - i,
    {
        let ghost b0 = buf@;
        let ghost k0 = keys@;
        let t = buf.remove(i);
        let k = keys.remove(i);
        assert(b0.remove(i as int).to_multiset() == b0.to_multiset().remove(t));
        let mut p: usize = i;
        while p > 0 && key_less_exec(&k, &keys[p - 1])
            invariant
                p <= i,
                i < b0.len(),
                k0.len() == b0.len(),
                keys@ == k0.remove(i as int),
                keys@.len() == i + (b0.len() - i - 1),
                p < i ==> key_less(key_view(k), key_view(keys@[p as int])),
            decreases p,
        {
            p -= 1;
        }
        let ghost b1 = buf@;
        let ghost k1 = keys@;
        buf.insert(p, t);
        keys.insert(p, k);
        proof {
            assert(b1.insert(p as int, t).to_multiset() == b1.to_multiset().insert(t));
            assert(b1.to_multiset().insert(t) =~= b0.to_multiset());
            assert forall|q: int| 0 <= q < buf@.len() implies key_view(#[trigger] keys@[q]) == tuple_key(buf@[q], cols, idx as int) by {
                if q < p {
                    assert(keys@[q] == k0[q] && buf@[q] == b0[q]);
                } else if q == p {
                } else if q <= i {
                    assert(keys@[q] == k0[q - 1] && buf@[q] == b0[q - 1]);
                } else {
                    assert(keys@[q] == k0[q] && buf@[q] == b0[q]);
                }
            }
            assert forall|q: int| 0 <= q < i implies !key_less(#[trigger] key_view(keys@[q + 1]), key_view(keys@[q])) by {
                if q + 1 < p {
                    assert(keys@[q] == k0[q] && keys@[q + 1] == k0[q + 1]);
                    assert(!key_less(key_view(k0[q + 1]), key_view(k0[q])));
                } else if q + 1 == p {
                    assert(keys@[q] == k0[q]);
                    assert(k1[q] == k0[q]);
                    assert(keys@[q + 1] == k);
                    assert(!key_less(key_view(k), key_view(k1[q])));
                } else if q == p {
                    assert(keys@[q + 1] == k1[p as int]);
                    lemma_key_less_asymmetric(key_view(k), key_view(k1[p as int]));
                } else {
                    assert(keys@[q] == k0[q - 1] && keys@[q + 1] == k0[q]);
                    let r = q - 1;
                    assert(!key_less(key_view(k0[r + 1]), key_view(k0[r])));
                    assert(r + 1 == q);
                }
            }
        }
        i += 1;
    }
    proof {
        assert forall|q: int| 0 <= q < buf@.len() - 1 implies !key_less(
            #[trigger] tuple_key(buf@[q + 1], cols, idx as int),
            tuple_key(buf@[q], cols, idx as int),
        ) by {
            assert(key_view(keys@[q + 1]) == tuple_key(buf@[q + 1], cols, idx as int));
            assert(key_view(keys@[q]) == tuple_key(buf@[q], cols, idx as int));
        }
    }
}

/// The head of each run: the tuple at its cursor, or `None` once the run is used up.
pub open spec fn run_heads(runs: Seq<Vec<Tuple>>, cursors: Seq<usize>) -> Seq<Option<Tuple>> {
    Seq::new(runs.len(), |i: int| if cursors[i] < runs[i]@.len() { Some(runs[i]@[cursors[i] as int]) } else { None })
}

/// The run picked among the first `n` heads: scanning in order, a head replaces the one picked
/// so far when it sorts strictly before it.
pub open spec fn pick_from(heads: Seq<Option<Tuple>>, cols: Seq<Column>, idx: int, n: nat) -> Option<int>
    decreases n,
{
    if n == 0 {
        None
    } else {
        let prev = pick_from(heads, cols, idx, (n - 1) as nat);
        match heads[n - 1] {
            None => prev,
            Some(t) => match prev {
                None => Some(n - 1),
                Some(b) => if key_less(tuple_key(t, cols, idx), tuple_key(heads[b]->0, cols, idx)) {
                    Some(n - 1)
                } else {
                    prev
                },
            },
        }
    }
}

proof fn lemma_pick_from_bounds(heads: Seq<Option<Tuple>>, cols: Seq<Column>, idx: int, n: nat)
    requires
        n <= heads.len(),
    ensures
        pick_from(heads, cols, idx, n) matches Some(b) ==> 0 <= b < n && heads[b] is Some,
    decreases n,
{
    if n > 0 {
        lemma_pick_from_bounds(heads, cols, idx, (n - 1) as nat);
    }
}

/// The run whose head is output next, as [`pick_from`] over all heads.
pub fn best_run(runs: &Vec<Vec<Tuple>>, cursors: &Vec<usize>, schema: &Schema, idx: usize) -> (r: Option<usize>)
    requires
        cursors@.len() == runs@.len(),
    ensures
        match r {
            Some(b) => pick_from(run_heads(runs@, cursors@), schema.columns@, idx as int, runs@.len()) == Some(b as int),
            None => pick_from(run_heads(runs@, cursors@), schema.columns@, idx as int, runs@.len()) is None,
        },
{
    let ghost heads = run_heads(runs@, cursors@);
    let ghost cols = schema.columns@;
    let mut best: Option<usize> = None;
    let mut best_key: SortKey = SortKey::Unordered;
    let mut i: usize = 0;
    while i < runs.len()
        invariant
            i <= runs@.len(),
            cursors@.len() == runs@.len(),
            heads == run_heads(runs@, cursors@),
            cols == schema.columns@,
            match best {
                Some(b) => pick_from(heads, cols, idx as int, i as nat) == Some(b as int) && b < i
                    && heads[b as int] is Some && key_view(best_key) == tuple_key(heads[b as int]->0, cols, idx as int),
                None => pick_from(heads, cols, idx as int, i as nat) is None,
            },
        decreases runs@.len() - i,
    {
        let c = cursors[i];
        if c < runs[i].len() {
            let k = key_for(&runs[i][c], schema, idx);
            match best {
                None => {
                    best = Some(i);
                    best_key = k;
                },
                Some(_) => {
                    if key_less_exec(&k, &best_key) {
                        best = Some(i);
                        best_key = k;
                    }
                },
            }
        }
        i += 1;
    }
    best
}

/// Sorts the child's tuples by one column. Tuples are gathered in runs of `chunk_size`, each
/// run sorted; when everything fits in one run it is returned in order, otherwise the runs are
/// merged by repeatedly taking the head that sorts first (the earliest run among equals).
pub struct ExternalMergeSort<E> {
    child: E,
    runs: Vec<Vec<Tuple>>,
    cursors: Vec<usize>,
    in_memory: bool,
    sorted: Vec<Tuple>,
    position: usize,
    initialized: bool,
    sort_col_idx: usize,
    chunk_size: usize,
    read: Ghost<Seq<Tuple>>,
    given: Ghost<Seq<Tuple>>,
}

/// The tuples of the runs still to give: each run from its cursor on, one run after the other.
pub open spec fn tails(rs: Seq<Vec<Tuple>>, cs: Seq<usize>) -> Seq<Tuple>
    decreases rs.len(),
{
    if rs.len() == 0 {
        Seq::empty()
    } else {
        tails(rs.drop_last(), cs.drop_last()) + rs.last()@.skip(cs.last() as int)
    }
}

/// Moving one run's cursor past its head takes exactly that head out of the tuples to give.
proof fn lemma_tails_advance(rs: Seq<Vec<Tuple>>, cs: Seq<usize>, cs2: Seq<usize>, b: int)
    requires
        cs.len() == rs.len(),
        cs2.len() == rs.len(),
        0 <= b < rs.len(),
        cs[b] < rs[b]@.len(),
        cs2[b] == cs[b] + 1,
        forall|j: int| 0 <= j < rs.len() && j != b ==> cs2[j] == cs[j],
    ensures
        tails(rs, cs).to_multiset() == tails(rs, cs2).to_multiset().insert(rs[b]@[cs[b] as int]),
    decreases rs.len(),
{
    let n = rs.len() - 1;
    let pre = tails(rs.drop_last(), cs.drop_last());
    let pre2 = tails(rs.drop_last(), cs2.drop_last());
    let last = rs.last()@;
    vstd::seq_lib::lemma_multiset_commutative(pre, last.skip(cs.last() as int));
    vstd::seq_lib::lemma_multiset_commutative(pre2, last.skip(cs2.last() as int));
    if b == n {
        assert(cs.drop_last() =~= cs2.drop_last());
        let c = cs[b] as int;
        assert(last.skip(c) =~= seq![last[c]] + last.skip(c + 1));
        vstd::seq_lib::lemma_multiset_commutative(seq![last[c]], last.skip(c + 1));
        assert(seq![last[c]].to_multiset() =~= vstd::multiset::Multiset::<Tuple>::empty().insert(last[c]));
    } else {
        lemma_tails_advance(rs.drop_last(), cs.drop_last(), cs2.drop_last(), b);
        assert(cs2.last() == cs.last());
    }
}

/// With every cursor at the end of its run there is nothing left to give.
proof fn lemma_tails_done(rs: Seq<Vec<Tuple>>, cs: Seq<usize>)
    requires
        cs.len() == rs.len(),
        forall|j: int| 0 <= j < rs.len() ==> cs[j] == rs[j]@.len(),
    ensures
        tails(rs, cs).len() == 0,
    decreases rs.len(),
{
    if rs.len() > 0 {
        lemma_tails_done(rs.drop_last(), cs.drop_last());
        assert(rs.last()@.skip(cs.last() as int) =~= Seq::<Tuple>::empty());
    }
}

/// With every cursor at the start of its run, every tuple of the runs is still to give.
proof fn lemma_tails_start(rs: Seq<Vec<Tuple>>, cs: Seq<usize>)
    requires
        cs.len() == rs.len(),
        forall|j: int| 0 <= j < rs.len() ==> cs[j] == 0,
    ensures
        tails(rs, cs) == flatten_runs(rs),
    decreases rs.len(),
{
    if rs.len() > 0 {
        lemma_tails_start(rs.drop_last(), cs.drop_last());
        assert(rs.last()@.skip(0) =~= rs.last()@);
    }
}

/// Appending a run appends its tuples.
proof fn lemma_flatten_push_seq(rs: Seq<Vec<Tuple>>, rs2: Seq<Vec<Tuple>>, last: Seq<Tuple>)
    requires
        rs2.len() == rs.len() + 1,
        rs2.drop_last() == rs,
        rs2.last()@ == last,
    ensures
        flatten_runs(rs2) == flatten_runs(rs) + last,
{
}

/// What a started sort `before` does in one call, under `cols`: it gives the bytes of its next
/// output and becomes `after`, or gives `None` when nothing is left.
pub open spec fn gives<E>(before: ExternalMergeSort<E>, after: ExternalMergeSort<E>, cols: Seq<Column>, r: Result<
    Option<Tuple>,
    QueryError,
>) -> bool {
    match before.next_output(cols) {
        Some(d) => r matches Ok(Some(t)) && t.data@ == d && before.advanced_to(&after, cols),
        None => r == Ok::<Option<Tuple>, QueryError>(None),
    }
}

/// `c1` is `c0` followed by the same tuples that `p1` has after `p0`.
pub open spec fn grew_alike(c0: Seq<Tuple>, c1: Seq<Tuple>, p0: Seq<Tuple>, p1: Seq<Tuple>) -> bool {
    exists|f: Seq<Tuple>| #[trigger] c0.add(f) == c1 && p0.add(f) == p1
}

/// The bytes of each tuple, in order.
pub open spec fn tuple_datas(s: Seq<Tuple>) -> Seq<Seq<u8>> {
    s.map_values(|t: Tuple| t.data@)
}

/// Sequences of tuples that hold the same tuples hold the same byte strings.
pub proof fn lemma_same_datas(a: Seq<Tuple>, b: Seq<Tuple>)
    requires
        a.to_multiset() == b.to_multiset(),
    ensures
        tuple_datas(a).to_multiset() == tuple_datas(b).to_multiset(),
    decreases a.len(),
{
    broadcast use vstd::seq_lib::group_to_multiset_ensures;
    broadcast use vstd::multiset::group_multiset_axioms;

    if a.len() == 0 {
        vstd::seq_lib::to_multiset_len(a);
        vstd::seq_lib::to_multiset_len(b);
        assert(b.len() == 0);
        assert(tuple_datas(a) =~= tuple_datas(b));
    } else {
        let e = a.last();
        let a2 = a.drop_last();
        assert(a2.push(e) =~= a);
        assert(a.to_multiset().count(e) > 0);
        assert(b.contains(e));
        let i = choose|i: int| 0 <= i < b.len() && b[i] == e;
        let b2 = b.remove(i);
        assert(a2.to_multiset() =~= a.to_multiset().remove(e));
        assert(b2.to_multiset() == b.to_multiset().remove(e));
        lemma_same_datas(a2, b2);
        assert(tuple_datas(a) =~= tuple_datas(a2).push(e.data@));
        assert(tuple_datas(b2) =~= tuple_datas(b).remove(i));
        assert(tuple_datas(b).to_multiset() =~= tuple_datas(b2).to_multiset().insert(e.data@)) by {
            assert(tuple_datas(b).remove(i).to_multiset() == tuple_datas(b).to_multiset().remove(tuple_datas(b)[i]));
            assert(tuple_datas(b).to_multiset().count(e.data@) > 0) by {
                assert(tuple_datas(b)[i] == e.data@);
            }
        }
    }
}

/// One more tuple given, and one with the same bytes no longer pending: what was given and
/// what is pending still add up to what was read.
proof fn lemma_account_step(given: Seq<Tuple>, p0: Seq<Tuple>, p1: Seq<Tuple>, t: Tuple, t2: Tuple, c: Seq<Tuple>)
    requires
        tuple_datas(given).to_multiset().add(tuple_datas(p0).to_multiset()) == tuple_datas(c).to_multiset(),
        p0.to_multiset() == p1.to_multiset().insert(t2),
        t2.data@ == t.data@,
    ensures
        tuple_datas(given.push(t)).to_multiset().add(tuple_datas(p1).to_multiset()) == tuple_datas(c).to_multiset(),
{
    broadcast use vstd::seq_lib::group_to_multiset_ensures;
    broadcast use vstd::multiset::group_multiset_axioms;

    assert(p1.push(t2).to_multiset() =~= p1.to_multiset().insert(t2));
    lemma_same_datas(p0, p1.push(t2));
    assert(tuple_datas(p1.push(t2)) =~= tuple_datas(p1).push(t.data@));
    assert(tuple_datas(given.push(t)) =~= tuple_datas(given).push(t.data@));
    assert(tuple_datas(given.push(t)).to_multiset().add(tuple_datas(p1).to_multiset()) =~= tuple_datas(given).to_multiset().add(
        tuple_datas(p0).to_multiset(),
    ));
}

/// The tuples of the runs, one run after the other.
pub open spec fn flatten_runs(rs: Seq<Vec<Tuple>>) -> Seq<Tuple>
    decreases rs.len(),
{
    if rs.len() == 0 {
        Seq::empty()
    } else {
        flatten_runs(rs.drop_last()) + rs.last()@
    }
}

impl<E> ExternalMergeSort<E> {
    /// The operator sorted.
    pub closed spec fn source(&self) -> E {
        self.child
    }

    /// The sort column's position.
    pub closed spec fn column(&self) -> usize {
        self.sort_col_idx
    }

    /// The most tuples sorted together in one run.
    pub closed spec fn chunk(&self) -> usize {
        self.chunk_size
    }

    /// Whether the child has been read and the runs are formed.
    pub closed spec fn started(&self) -> bool {
        self.initialized
    }

    /// The tuples read from the child, in the order it gave them.
    pub closed spec fn collected(&self) -> Seq<Tuple> {
        self.read@
    }

    /// The tuples the sort holds to give: the buffer kept when everything fit in one run,
    /// then every run.
    pub closed spec fn stored(&self) -> Seq<Tuple> {
        self.sorted@ + flatten_runs(self.runs@)
    }

    /// The sort holds exactly the tuples it has read, as a multiset; until it has read all of
    /// them, it keeps them in runs only.
    pub closed spec fn holds_what_it_read(&self) -> bool {
        &&& self.stored().to_multiset() == self.collected().to_multiset()
        &&& !self.initialized ==> self.sorted@.len() == 0 && !self.in_memory && self.position == 0 && forall|j: int|
            0 <= j < self.cursors@.len() ==> #[trigger] self.cursors@[j] == 0
        &&& !self.in_memory ==> self.sorted@.len() == 0 && self.position == 0
        &&& self.in_memory ==> self.runs@.len() == 0
    }

    /// Every tuple read is given or still to give: the bytes of the tuples given and of those
    /// pending make up, as a multiset, the bytes of the tuples read. Nothing is given before
    /// the child is read.
    pub closed spec fn accounted(&self) -> bool {
        &&& !self.initialized ==> self.given@.len() == 0
        &&& self.initialized ==> tuple_datas(self.given@).to_multiset().add(tuple_datas(self.pending()).to_multiset())
            == tuple_datas(self.collected()).to_multiset()
    }

    /// Nothing has been given yet: the buffer position and every cursor are at the start.
    pub closed spec fn at_start(&self) -> bool {
        &&& self.position == 0
        &&& forall|j: int| 0 <= j < self.cursors@.len() ==> #[trigger] self.cursors@[j] == 0
    }

    /// The tuples still to give: the rest of the buffer, then the rest of every run.
    pub closed spec fn pending(&self) -> Seq<Tuple> {
        self.sorted@.skip(self.position as int) + tails(self.runs@, self.cursors@)
    }

    /// A sort that has just read its child has every tuple it read still to give.
    pub proof fn lemma_pending_at_start(&self)
        requires
            self.shaped(),
            self.holds_what_it_read(),
            self.started(),
            self.at_start(),
        ensures
            self.pending().to_multiset() == self.collected().to_multiset(),
    {
        lemma_tails_start(self.runs@, self.cursors@);
        assert(self.sorted@.skip(0) =~= self.sorted@);
    }

    /// Each tuple given is taken out of the tuples still to give, and nothing else is.
    pub proof fn lemma_next_takes_one(&self, after: &Self, cols: Seq<Column>)
        requires
            self.shaped(),
            self.holds_what_it_read(),
            self.advanced_to(after, cols),
            self.next_output(cols) is Some,
        ensures
            exists|t: Tuple|
                t.data@ == self.next_output(cols)->0 && #[trigger] self.pending().to_multiset() == after.pending().to_multiset().insert(t),
    {
        if self.in_memory {
            let p = self.position as int;
            let t = self.sorted@[p];
            assert(self.runs@.len() == 0);
            assert(self.sorted@.skip(p) =~= seq![t] + self.sorted@.skip(p + 1));
            vstd::seq_lib::lemma_multiset_commutative(seq![t], self.sorted@.skip(p + 1));
            assert(seq![t].to_multiset() =~= vstd::multiset::Multiset::<Tuple>::empty().insert(t));
            assert(tails(self.runs@, self.cursors@) =~= Seq::<Tuple>::empty());
            assert(tails(after.runs@, after.cursors@) =~= Seq::<Tuple>::empty());
            assert(self.pending() =~= self.sorted@.skip(p));
            assert(after.pending() =~= self.sorted@.skip(p + 1));
            assert(self.pending().to_multiset() == after.pending().to_multiset().insert(t));
        } else {
            let n = self.runs@.len();
            let heads = run_heads(self.runs@, self.cursors@);
            lemma_pick_from_bounds(heads, cols, self.sort_col_idx as int, n);
            let b = pick_from(heads, cols, self.sort_col_idx as int, n)->0;
            let t = self.runs@[b]@[self.cursors@[b] as int];
            lemma_tails_advance(self.runs@, self.cursors@, after.cursors@, b);
            assert(self.sorted@.skip(0) =~= Seq::<Tuple>::empty());
            assert(self.pending() =~= tails(self.runs@, self.cursors@));
            assert(after.pending() =~= tails(self.runs@, after.cursors@));
            assert(self.pending().to_multiset() == after.pending().to_multiset().insert(t));
        }
    }

    /// A sort with nothing more to give has nothing pending.
    pub proof fn lemma_nothing_pending_when_done(&self, cols: Seq<Column>)
        requires
            self.shaped(),
            self.holds_what_it_read(),
            self.next_output(cols) is None,
        ensures
            self.pending().len() == 0,
    {
        if self.in_memory {
            assert(tails(self.runs@, self.cursors@) =~= Seq::<Tuple>::empty());
        } else {
            let heads = run_heads(self.runs@, self.cursors@);
            lemma_pick_is_least(heads, cols, self.sort_col_idx as int, self.runs@.len());
            assert forall|j: int| 0 <= j < self.runs@.len() implies self.cursors@[j] == self.runs@[j]@.len() by {
                assert(heads[j] is None);
            }
            lemma_tails_done(self.runs@, self.cursors@);
        }
    }

    /// Every run, and the buffer kept when everything fit in one run, is in sort order under
    /// the given columns.
    pub closed spec fn runs_sorted(&self, cols: Seq<Column>) -> bool {
        &&& forall|i: int| 0 <= i < self.runs@.len() ==> sorted_by(#[trigger] self.runs@[i]@, cols, self.sort_col_idx as int)
        &&& sorted_by(self.sorted@, cols, self.sort_col_idx as int)
    }

    /// Every run has a cursor within it, and the buffer position is within the buffer.
    pub closed spec fn shaped(&self) -> bool {
        &&& self.cursors@.len() == self.runs@.len()
        &&& forall|i: int| 0 <= i < self.runs@.len() ==> #[trigger] self.cursors@[i] <= self.runs@[i]@.len()
        &&& self.position <= self.sorted@.len()
    }

    /// `after` is this sort once it has given its next tuple under `cols`: the buffer position,
    /// or the cursor of the run picked, moved one on; nothing else changed.
    pub closed spec fn advanced_to(&self, after: &Self, cols: Seq<Column>) -> bool {
        &&& after.runs@ == self.runs@
        &&& after.sorted@ == self.sorted@
        &&& after.in_memory == self.in_memory
        &&& after.sort_col_idx == self.sort_col_idx
        &&& if self.in_memory {
            after.position == self.position + 1 && after.cursors@ == self.cursors@
        } else {
            &&& after.position == self.position
            &&& pick_from(run_heads(self.runs@, self.cursors@), cols, self.sort_col_idx as int, self.runs@.len()) matches Some(b)
            &&& after.cursors@.len() == self.cursors@.len()
            &&& after.cursors@[b] == self.cursors@[b] + 1
            &&& forall|j: int| 0 <= j < self.cursors@.len() && j != b ==> #[trigger] after.cursors@[j] == self.cursors@[j]
        }
    }

    /// The bytes of the tuple a started sort gives next under the given columns: the next one
    /// of the buffer when everything fit in one run, else the head of the run [`pick_from`]
    /// picks; `None` when nothing is left.
    pub closed spec fn next_output(&self, cols: Seq<Column>) -> Option<Seq<u8>> {
        if self.in_memory {
            if self.position < self.sorted@.len() {
                Some(self.sorted@[self.position as int].data@)
            } else {
                None
            }
        } else {
            match pick_from(run_heads(self.runs@, self.cursors@), cols, self.sort_col_idx as int, self.runs@.len()) {
                Some(b) => Some(self.runs@[b]@[self.cursors@[b] as int].data@),
                None => None,
            }
        }
    }

    /// A sort gives its tuples in order: the tuple it gives after another never sorts strictly
    /// before it.
    pub proof fn lemma_output_in_order(&self, after: &Self, cols: Seq<Column>)
        requires
            self.shaped(),
            self.runs_sorted(cols),
            self.advanced_to(after, cols),
            self.next_output(cols) is Some,
            after.next_output(cols) is Some,
        ensures
            !key_less(
                sort_key(after.next_output(cols)->0, cols, self.column() as int),
                sort_key(self.next_output(cols)->0, cols, self.column() as int),
            ),
    {
        let idx = self.sort_col_idx as int;
        if self.in_memory {
            let p = self.position as int;
            assert(!key_less(tuple_key(self.sorted@[p + 1], cols, idx), tuple_key(self.sorted@[p], cols, idx)));
        } else {
            let n = self.runs@.len();
            let heads = run_heads(self.runs@, self.cursors@);
            let after_heads = run_heads(after.runs@, after.cursors@);
            let b = pick_from(heads, cols, idx, n)->0;
            lemma_pick_from_bounds(heads, cols, idx, n);
            lemma_pick_from_bounds(after_heads, cols, idx, n);
            lemma_pick_is_least(heads, cols, idx, n);
            let b2 = pick_from(after_heads, cols, idx, n)->0;
            let c = self.cursors@[b];
            assert(heads[b] is Some);
            if b2 == b {
                assert(after.cursors@[b] == c + 1);
                assert(after_heads[b] is Some);
                let run = self.runs@[b]@;
                assert(sorted_by(run, cols, idx));
                assert(!key_less(tuple_key(run[c + 1], cols, idx), tuple_key(run[c as int], cols, idx)));
            } else {
                assert(after.cursors@[b2] == self.cursors@[b2]);
                assert(after_heads[b2] is Some);
                assert(heads[b2] is Some);
                assert(heads[b2] == after_heads[b2]);
            }
        }
    }

    /// A sort run to its end gave each tuple it read exactly once: once it is finished, the
    /// bytes of the tuples it gave are, as a multiset, the bytes of the tuples it read from its
    /// child.
    pub proof fn lemma_gave_what_it_read<C: ExecutionContext>(&self) where E: Executor<C>
        requires
            Executor::<C>::inv(self),
            Executor::<C>::finished(self),
        ensures
            tuple_datas(Executor::<C>::produced(self)).to_multiset() == tuple_datas(self.collected()).to_multiset(),
    {
        broadcast use vstd::multiset::group_multiset_axioms;

        self.lemma_nothing_pending_when_done(self.child.out_schema().columns@);
        assert(tuple_datas(self.pending()) =~= Seq::<Seq<u8>>::empty());
        assert(tuple_datas(self.given@).to_multiset().add(tuple_datas(self.pending()).to_multiset()) =~= tuple_datas(
            self.given@,
        ).to_multiset());
    }

    /// A sort of `child` on the column at `sort_col_idx`, reading at most `chunk_size` tuples
    /// into one run.
    pub fn new<C: ExecutionContext>(child: E, sort_col_idx: usize, chunk_size: usize) -> (r: Self) where
        E: Executor<C>,
        ensures
            r.source() == child,
            r.column() == sort_col_idx,
            r.chunk() == chunk_size,
            !r.started(),
            Executor::<C>::inv(&child) ==> Executor::<C>::inv(&r),
            Executor::<C>::out_schema(&r) == Executor::<C>::out_schema(&child),
            Executor::<C>::produced(&r) == Seq::<Tuple>::empty(),
    {
        ExternalMergeSort {
            child,
            runs: Vec::new(),
            cursors: Vec::new(),
            in_memory: false,
            sorted: Vec::new(),
            position: 0,
            initialized: false,
            sort_col_idx,
            chunk_size,
            read: Ghost(Seq::empty()),
            given: Ghost(Seq::empty()),
        }
    }

    fn init<C: ExecutionContext>(&mut self, ctx: &mut C) -> (r: Result<(), QueryError>) where
        E: Executor<C>,
        requires
            Executor::<C>::inv(old(self)),
            !old(self).initialized,
            old(ctx).ready(),
        ensures
            final(self).inv(),
            final(ctx).ready(),
            final(self).child.out_schema() == old(self).child.out_schema(),
            final(self).sort_col_idx == old(self).sort_col_idx,
            final(self).given == old(self).given,
            r is Ok ==> final(self).initialized,
            r is Ok ==> final(self).stored().to_multiset() == final(self).collected().to_multiset(),
            r is Ok ==> final(self).at_start(),
            r is Ok ==> grew_alike(old(self).collected(), final(self).collected(), old(self).child.produced(), final(self).child.produced()),
    {
        proof {
            assert(self.stored() =~= flatten_runs(self.runs@));
        }
        let mut buffer: Vec<Tuple> = Vec::new();
        let mut budget: u64 = u64::MAX;
        let ghost mut chunk: Seq<Tuple> = Seq::empty();
        let ghost mut fresh: Seq<Tuple> = Seq::empty();
        proof {
            assert(old(self).read@ + fresh =~= self.read@ + chunk);
            assert(old(self).child.produced() + fresh =~= self.child.produced());
        }
        loop
            invariant
                old(self).read@ + fresh == self.read@ + chunk,
                self.child.produced() == old(self).child.produced() + fresh,
                self.child.inv(),
                self.shaped(),
                self.runs_sorted(self.child.out_schema().columns@),
                !self.initialized,
                self.sorted@.len() == 0,
                ctx.ready(),
                self.child.out_schema() == old(self).child.out_schema(),
                self.sort_col_idx == old(self).sort_col_idx,
                self.given == old(self).given,
                self.given@.len() == 0,
                buffer@.to_multiset() == chunk.to_multiset(),
                flatten_runs(self.runs@).to_multiset() == self.read@.to_multiset(),
                self.position == 0,
                forall|j: int| 0 <= j < self.cursors@.len() ==> #[trigger] self.cursors@[j] == 0,
                !self.in_memory,
            decreases budget,
        {
            if budget == 0 {
                return Err(exhausted());
            }
            budget = budget - 1;
            let t = match self.child.next(ctx) {
                Err(e) => {
                    return Err(e);
                },
                Ok(None) => {
                    break;
                },
                Ok(Some(t)) => t,
            };
            proof {
                let f0 = fresh;
                let c0 = chunk;
                chunk = chunk.push(t);
                fresh = fresh.push(t);
                assert(old(self).read@ + fresh =~= (old(self).read@ + f0).push(t));
                assert(self.read@ + chunk =~= (self.read@ + c0).push(t));
                assert(old(self).child.produced() + fresh =~= (old(self).child.produced() + f0).push(t));
            }
            buffer.push(t);
            if buffer.len() >= self.chunk_size {
                sort_tuples(&mut buffer, self.child.schema(), self.sort_col_idx);
                let run = buffer;
                buffer = Vec::new();
                let ghost runs0 = self.runs@;
                let ghost rv = run@;
                self.runs.push(run);
                self.cursors.push(0);
                proof {
                    assert(self.runs@.drop_last() =~= runs0);
                    lemma_flatten_push_seq(runs0, self.runs@, rv);
                    vstd::seq_lib::lemma_multiset_commutative(flatten_runs(runs0), rv);
                    vstd::seq_lib::lemma_multiset_commutative(self.read@, chunk);
                    self.read@ = self.read@ + chunk;
                    chunk = Seq::empty();
                    assert(self.read@ + chunk =~= self.read@);
                    assert(buffer@.to_multiset() =~= chunk.to_multiset());
                }
            }
        }
        if self.runs.len() == 0 {
            sort_tuples(&mut buffer, self.child.schema(), self.sort_col_idx);
            self.sorted = buffer;
            self.position = 0;
            self.in_memory = true;
            proof {
                assert(flatten_runs(self.runs@) =~= Seq::<Tuple>::empty());
                assert(self.stored() =~= self.sorted@);
                vstd::seq_lib::lemma_multiset_commutative(self.read@, chunk);
                assert(self.read@.to_multiset() =~= Seq::<Tuple>::empty().to_multiset());
                self.read@ = self.read@ + chunk;
            }
        } else if buffer.len() > 0 {
            sort_tuples(&mut buffer, self.child.schema(), self.sort_col_idx);
            let ghost runs0 = self.runs@;
            let ghost last = buffer@;
            self.runs.push(buffer);
            self.cursors.push(0);
            proof {
                assert(self.runs@.drop_last() =~= runs0);
                lemma_flatten_push_seq(runs0, self.runs@, last);
                vstd::seq_lib::lemma_multiset_commutative(flatten_runs(runs0), last);
                vstd::seq_lib::lemma_multiset_commutative(self.read@, chunk);
                self.read@ = self.read@ + chunk;
                assert(self.stored() =~= flatten_runs(self.runs@));
            }
        } else {
            proof {
                assert(buffer@.to_multiset() =~= vstd::multiset::Multiset::<Tuple>::empty());
                vstd::seq_lib::lemma_multiset_commutative(self.read@, chunk);
                self.read@ = self.read@ + chunk;
                assert(self.stored() =~= flatten_runs(self.runs@));
            }
        }
        assert(self.shaped());
        assert(self.runs_sorted(self.child.out_schema().columns@));
        assert(self.stored().to_multiset() == self.collected().to_multiset());
        self.initialized = true;
        assert(old(self).read@.add(fresh) == self.read@ && old(self).child.produced().add(fresh) == self.child.produced());
        proof {
            self.lemma_pending_at_start();
            lemma_same_datas(self.pending(), self.collected());
            assert(tuple_datas(self.given@) =~= Seq::<Seq<u8>>::empty());
            broadcast use vstd::multiset::group_multiset_axioms;
            assert(tuple_datas(self.given@).to_multiset().add(tuple_datas(self.pending()).to_multiset()) =~= tuple_datas(
                self.pending(),
            ).to_multiset());
        }
        Ok(())
    }
}

impl<C: ExecutionContext, E: Executor<C>> Executor<C> for ExternalMergeSort<E> {

    closed spec fn inv(&self) -> bool {
        &&& self.child.inv()
        &&& self.shaped()
        &&& self.runs_sorted(self.child.out_schema().columns@)
        &&& self.holds_what_it_read()
        &&& self.accounted()
    }

    closed spec fn out_schema(&self) -> Schema {
        self.child.out_schema()
    }

    /// Finished once the child is read and nothing is left to give.
    closed spec fn finished(&self) -> bool {
        self.initialized && self.next_output(self.child.out_schema().columns@) is None
    }

    closed spec fn produced(&self) -> Seq<Tuple> {
        self.given@
    }

    /// The next tuple in sort order; the child is read whole on the first call.
    fn next(&mut self, ctx: &mut C) -> (r: Result<Option<Tuple>, QueryError>)
        ensures
            old(self).started() ==> final(self).started(),
            r is Ok ==> final(self).started(),
            final(self).column() == old(self).column(),
            old(self).started() ==> gives(*old(self), *final(self), Executor::<C>::out_schema(old(self)).columns@, r),
            old(self).started() ==> final(self).collected() == old(self).collected(),
            !old(self).started() && r is Ok ==> exists|mid: Self|
                #[trigger] gives(mid, *final(self), Executor::<C>::out_schema(old(self)).columns@, r) && mid.started()
                    && mid.at_start() && mid.shaped() && mid.holds_what_it_read() && mid.collected() == final(self).collected(),
            final(self).shaped(),
            final(self).holds_what_it_read(),
            final(self).runs_sorted(Executor::<C>::out_schema(old(self)).columns@),
            !old(self).started() && r is Ok ==> grew_alike(
                old(self).collected(),
                final(self).collected(),
                old(self).source().produced(),
                final(self).source().produced(),
            ),
            old(self).started() ==> final(self).source().produced() == old(self).source().produced(),
    {
        if !self.initialized {
            match self.init(ctx) {
                Ok(()) => {},
                Err(e) => {
                    return Err(e);
                },
            }
        }
        let ghost mid = *self;
        proof {
            assert(self.child.out_schema() == Executor::<C>::out_schema(old(self)));
            if !old(self).started() {
                assert(mid.started() && mid.at_start() && mid.shaped() && mid.holds_what_it_read());
            }
        }
        if self.in_memory {
            if self.position < self.sorted.len() {
                let t = copy_tuple(&self.sorted[self.position]);
                self.position = self.position + 1;
                self.given = Ghost(self.given@.push(t));
                proof {
                    let cols = self.child.out_schema().columns@;
                    assert(gives(mid, *self, cols, Ok::<Option<Tuple>, QueryError>(Some(t))));
                    mid.lemma_next_takes_one(&*self, cols);
                    let t2 = choose|t2: Tuple|
                        t2.data@ == mid.next_output(cols)->0 && #[trigger] mid.pending().to_multiset()
                            == self.pending().to_multiset().insert(t2);
                    lemma_account_step(mid.given@, mid.pending(), self.pending(), t, t2, mid.collected());
                    assert(self.accounted());
                }
                return Ok(Some(t));
            }
            proof {
                assert(gives(mid, *self, self.child.out_schema().columns@, Ok::<Option<Tuple>, QueryError>(None)));
            }
            return Ok(None);
        }
        match best_run(&self.runs, &self.cursors, self.child.schema(), self.sort_col_idx) {
            Some(b) => {
                proof {
                    lemma_pick_from_bounds(
                        run_heads(self.runs@, self.cursors@),
                        self.child.out_schema().columns@,
                        self.sort_col_idx as int,
                        self.runs@.len(),
                    );
                }
                let c = self.cursors[b];
                let n = self.runs[b].len();
                assert(run_heads(self.runs@, self.cursors@)[b as int] is Some);
                assert(c < n);
                let t = copy_tuple(&self.runs[b][c]);
                self.cursors.set(b, c + 1);
                self.given = Ghost(self.given@.push(t));
                proof {
                    let cols = self.child.out_schema().columns@;
                    assert(gives(mid, *self, cols, Ok::<Option<Tuple>, QueryError>(Some(t))));
                    mid.lemma_next_takes_one(&*self, cols);
                    let t2 = choose|t2: Tuple|
                        t2.data@ == mid.next_output(cols)->0 && #[trigger] mid.pending().to_multiset()
                            == self.pending().to_multiset().insert(t2);
                    lemma_account_step(mid.given@, mid.pending(), self.pending(), t, t2, mid.collected());
                    assert(self.accounted());
                }
                Ok(Some(t))
            },
            None => {
                proof {
                    assert(gives(mid, *self, self.child.out_schema().columns@, Ok::<Option<Tuple>, QueryError>(None)));
                }
                Ok(None)
            },
        }
    }

    fn schema(&self) -> &Schema {
        self.child.schema()
    }
}

} // verus!
