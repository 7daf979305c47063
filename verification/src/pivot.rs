//! Pivot tables: one row per distinct group key, with aggregates of value columns.
use vstd::prelude::*;
use crate::formula::FormulaExpr;
use crate::models::{copy_texts, has_text, lemma_dv_push, position, DataTable, PivotValue};
use crate::excel_io::{all_present, cell_at, cell_text, first_missing_message};
use crate::numbers::{flip, Aggregate, CellOrder, Numbers};
use crate::ops::{pick_columns, picked_index};
use crate::sort::{lemma_text_order_flip, text_order};
use crate::text::{blank, decimal, decimal_string, is_blank, same_text};
use crate::dedupe::holds_row;

verus! {

/// Aggregation named by `a`: `count`, `avg`, anything else sums.
pub open spec fn agg_kind(a: Seq<char>) -> Aggregate {
    if a == "count"@ {
        Aggregate::Count
    } else if a == "avg"@ {
        Aggregate::Avg
    } else {
        Aggregate::Sum
    }
}

/// Value columns of a pivot: `value_fields`, or else the single legacy field.
pub open spec fn pivot_values(value_fields: Seq<PivotValue>, legacy_field: Seq<char>, legacy_agg: Seq<char>) -> Seq<(Seq<char>, Seq<char>, Seq<char>)> {
    if value_fields.len() > 0 {
        value_fields.map_values(|v: PivotValue| (v.field@, v.aggregation@, v.alias@))
    } else {
        seq![(legacy_field, legacy_agg, Seq::<char>::empty())]
    }
}

/// Header of a value column given as `(field, aggregation, alias)`.
pub open spec fn value_title(v: (Seq<char>, Seq<char>, Seq<char>)) -> Seq<char> {
    if !is_blank(v.2) {
        v.2
    } else {
        v.0 + "_"@ + match agg_kind(v.1) {
            Aggregate::Count => "计数"@,
            Aggregate::Avg => "平均"@,
            Aggregate::Sum => "求和"@,
        }
    }
}

/// Why a pivot cannot run, if it cannot.
pub open spec fn pivot_fault(
    headers: Seq<Seq<char>>,
    row_fields: Seq<Seq<char>>,
    value_fields: Seq<PivotValue>,
    legacy_field: Seq<char>,
    legacy_agg: Seq<char>,
) -> Option<Seq<char>> {
    let vals = pivot_values(value_fields, legacy_field, legacy_agg);
    let names = vals.map_values(|v: (Seq<char>, Seq<char>, Seq<char>)| v.0);
    if row_fields.len() == 0 {
        Some("透视表至少需要一个行字段"@)
    } else if value_fields.len() == 0 && is_blank(legacy_field) {
        Some("请至少选择一个值字段"@)
    } else if !all_present(headers, row_fields) {
        Some(first_missing_message(headers, row_fields))
    } else if !all_present(headers, names) {
        Some(first_missing_message(headers, names))
    } else {
        None
    }
}

/// Order of two group keys: the first differing cell decides by text, a prefix first.
pub open spec fn key_order(a: Seq<Seq<char>>, b: Seq<Seq<char>>) -> CellOrder
    decreases a.len(),
{
    if a.len() == 0 {
        if b.len() == 0 { CellOrder::Equal } else { CellOrder::Less }
    } else if b.len() == 0 {
        CellOrder::Greater
    } else if text_order(a[0], b[0]) != CellOrder::Equal {
        text_order(a[0], b[0])
    } else {
        key_order(a.drop_first(), b.drop_first())
    }
}

/// Group key of a row: its cells in the row-field columns.
pub open spec fn group_key(headers: Seq<Seq<char>>, row_fields: Seq<Seq<char>>, row: Seq<Seq<char>>) -> Seq<Seq<char>> {
    Seq::new(row_fields.len(), |k: int| cell_at(row, position(headers, row_fields[k])))
}

/// `gs` lists each group key of `keys` once, in ascending order.
pub open spec fn sorted_groups(gs: Seq<Seq<Seq<char>>>, keys: Seq<Seq<Seq<char>>>) -> bool {
    &&& forall|i: int, j: int| 0 <= i < j < gs.len() ==> key_order(#[trigger] gs[i], #[trigger] gs[j]) == CellOrder::Less
    &&& forall|i: int| 0 <= i < gs.len() ==> has_text(keys, #[trigger] gs[i])
    &&& forall|r: int| 0 <= r < keys.len() ==> has_text(gs, #[trigger] keys[r])
}

/// Cells in column `c` of the rows whose key is `g`, in row order.
pub open spec fn group_cells(rows: Seq<Seq<Seq<char>>>, keys: Seq<Seq<Seq<char>>>, g: Seq<Seq<char>>, c: int) -> Seq<Seq<char>>
    decreases rows.len(),
{
    if rows.len() == 0 {
        Seq::empty()
    } else {
        let n = rows.len() - 1;
        let before = group_cells(rows.drop_last(), keys, g, c);
        if keys[n] == g { before.push(cell_at(rows[n], c)) } else { before }
    }
}

/// Text order is `Equal` exactly on equal texts.
pub proof fn lemma_text_order_equal(a: Seq<char>, b: Seq<char>)
    ensures
        (text_order(a, b) == CellOrder::Equal) == (a == b),
    decreases a.len(),
{
    if a.len() > 0 && b.len() > 0 {
        if a[0] == b[0] {
            lemma_text_order_equal(a.drop_first(), b.drop_first());
            assert(text_order(a, b) == text_order(a.drop_first(), b.drop_first()));
            if a.drop_first() =~= b.drop_first() {
                assert(a =~= b) by {
                    assert forall|i: int| 0 <= i < a.len() implies a[i] == b[i] by {
                        if i > 0 {
                            assert(a[i] == a.drop_first()[i - 1]);
                            assert(b[i] == b.drop_first()[i - 1]);
                        }
                    }
                }
            } else {
                assert(a != b);
            }
        } else {
            assert(a[0] < b[0] || a[0] > b[0]);
            assert(text_order(a, b) != CellOrder::Equal);
            assert(a != b);
        }
    } else if a.len() == 0 && b.len() == 0 {
        assert(a =~= b);
    } else {
        assert(a.len() != b.len());
    }
}

/// Text order is transitive on `Less`.
pub proof fn lemma_text_order_trans(a: Seq<char>, b: Seq<char>, c: Seq<char>)
    requires
        text_order(a, b) == CellOrder::Less,
        text_order(b, c) == CellOrder::Less,
    ensures
        text_order(a, c) == CellOrder::Less,
    decreases a.len(),
{
    if a.len() > 0 && b.len() > 0 && c.len() > 0 && a[0] == b[0] && b[0] == c[0] {
        lemma_text_order_trans(a.drop_first(), b.drop_first(), c.drop_first());
    }
}

/// Key order is `Equal` exactly on equal keys.
pub proof fn lemma_key_order_equal(a: Seq<Seq<char>>, b: Seq<Seq<char>>)
    ensures
        (key_order(a, b) == CellOrder::Equal) == (a == b),
    decreases a.len(),
{
    if a.len() > 0 && b.len() > 0 {
        lemma_text_order_equal(a[0], b[0]);
        lemma_key_order_equal(a.drop_first(), b.drop_first());
        if a[0] == b[0] && a.drop_first() =~= b.drop_first() {
            assert(a =~= b) by {
                assert forall|i: int| 0 <= i < a.len() implies a[i] == b[i] by {
                    if i > 0 {
                        assert(a[i] == a.drop_first()[i - 1]);
                        assert(b[i] == b.drop_first()[i - 1]);
                    }
                }
            }
        } else if a[0] != b[0] {
            assert(a != b);
        } else {
            assert(a.drop_first() != b.drop_first());
            assert(a != b);
        }
    } else if a.len() == 0 && b.len() == 0 {
        assert(a =~= b);
    } else {
        assert(a.len() != b.len());
    }
}

/// Key order is reversed by swapping its arguments.
pub proof fn lemma_key_order_flip(a: Seq<Seq<char>>, b: Seq<Seq<char>>)
    ensures
        key_order(b, a) == flip(key_order(a, b)),
    decreases a.len(),
{
    if a.len() > 0 && b.len() > 0 {
        lemma_text_order_flip(a[0], b[0]);
        lemma_key_order_flip(a.drop_first(), b.drop_first());
    }
}

/// Key order is transitive on `Less`.
pub proof fn lemma_key_order_trans(a: Seq<Seq<char>>, b: Seq<Seq<char>>, c: Seq<Seq<char>>)
    requires
        key_order(a, b) == CellOrder::Less,
        key_order(b, c) == CellOrder::Less,
    ensures
        key_order(a, c) == CellOrder::Less,
    decreases a.len(),
{
    if a.len() > 0 && b.len() > 0 && c.len() > 0 {
        lemma_text_order_equal(a[0], b[0]);
        lemma_text_order_equal(b[0], c[0]);
        lemma_text_order_equal(a[0], c[0]);
        if text_order(a[0], b[0]) == CellOrder::Equal && text_order(b[0], c[0]) == CellOrder::Equal {
            lemma_key_order_trans(a.drop_first(), b.drop_first(), c.drop_first());
        } else if text_order(a[0], b[0]) == CellOrder::Equal {
        } else if text_order(b[0], c[0]) == CellOrder::Equal {
        } else {
            lemma_text_order_trans(a[0], b[0], c[0]);
        }
    }
}

/// `key_order` of two keys.
fn keys_order(a: &Vec<String>, b: &Vec<String>) -> (r: CellOrder)
    ensures
        r == key_order(a.deep_view(), b.deep_view()),
{
    let ghost x = a.deep_view();
    let ghost y = b.deep_view();
    assert(x.subrange(0, x.len() as int) =~= x);
    assert(y.subrange(0, y.len() as int) =~= y);
    let mut i: usize = 0;
    while i < a.len() && i < b.len()
        invariant
            i <= a@.len(),
            i <= b@.len(),
            x == a.deep_view(),
            y == b.deep_view(),
            key_order(x, y) == key_order(x.subrange(i as int, x.len() as int), y.subrange(i as int, y.len() as int)),
        decreases a@.len() - i,
    {
        let ghost xs = x.subrange(i as int, x.len() as int);
        let ghost ys = y.subrange(i as int, y.len() as int);
        assert(xs[0] == x[i as int] && ys[0] == y[i as int]);
        assert(xs.drop_first() =~= x.subrange(i + 1, x.len() as int));
        assert(ys.drop_first() =~= y.subrange(i + 1, y.len() as int));
        let o = crate::sort::texts_order(a[i].as_str(), b[i].as_str());
        if o != CellOrder::Equal {
            return o;
        }
        i += 1;
    }
    if i < a.len() {
        CellOrder::Greater
    } else if i < b.len() {
        CellOrder::Less
    } else {
        CellOrder::Equal
    }
}

/// The cells of `row` at `idxs`.
fn cells_at(row: &Vec<String>, idxs: &Vec<usize>) -> (r: Vec<String>)
    ensures
        r.deep_view() == idxs@.map_values(|c: usize| cell_at(row.deep_view(), c as int)),
{
    let mut r: Vec<String> = Vec::new();
    let mut k: usize = 0;
    while k < idxs.len()
        invariant
            k <= idxs@.len(),
            r.deep_view() == idxs@.take(k as int).map_values(|c: usize| cell_at(row.deep_view(), c as int)),
        decreases idxs@.len() - k,
    {
        let ghost r0 = r;
        let c = cell_text(row, idxs[k]).to_owned();
        r.push(c);
        proof {
            lemma_dv_push(r0, r, c);
            assert(idxs@.take(k + 1) =~= idxs@.take(k as int).push(idxs@[k as int]));
            assert(r.deep_view() =~= idxs@.take(k + 1).map_values(|c: usize| cell_at(row.deep_view(), c as int)));
        }
        k += 1;
    }
    assert(idxs@.take(k as int) =~= idxs@);
    r
}

/// Adds `key` to the ascending list `groups` unless it is there.
fn add_group(groups: &mut Vec<Vec<String>>, key: Vec<String>)
    requires
        forall|i: int, j: int| 0 <= i < j < old(groups)@.len() ==> key_order(#[trigger] old(groups).deep_view()[i], #[trigger] old(groups).deep_view()[j]) == CellOrder::Less,
    ensures
        forall|i: int, j: int| 0 <= i < j < final(groups)@.len() ==> key_order(#[trigger] final(groups).deep_view()[i], #[trigger] final(groups).deep_view()[j]) == CellOrder::Less,
        forall|x: Seq<Seq<char>>| has_text(final(groups).deep_view(), x) <==> (has_text(old(groups).deep_view(), x) || x == key.deep_view()),
{
    let ghost g0 = groups.deep_view();
    let ghost kv = key.deep_view();
    let mut q: usize = 0;
    while q < groups.len() && keys_order(&groups[q], &key) == CellOrder::Less
        invariant
            q <= groups@.len(),
            g0 == groups.deep_view(),
            kv == key.deep_view(),
            forall|a: int| 0 <= a < q ==> key_order(#[trigger] g0[a], kv) == CellOrder::Less,
        decreases groups@.len() - q,
    {
        assert(groups@[q as int].deep_view() == g0[q as int]);
        q += 1;
    }
    proof {
        assert forall|a: int| 0 <= a < q implies #[trigger] g0[a] != kv by {
            lemma_key_order_equal(g0[a], kv);
        }
    }
    if q < groups.len() && keys_order(&groups[q], &key) == CellOrder::Equal {
        proof {
            lemma_key_order_equal(g0[q as int], kv);
        }
        return;
    }
    proof {
        if q < g0.len() {
            assert(groups@[q as int].deep_view() == g0[q as int]);
            lemma_key_order_flip(g0[q as int], kv);
            assert(key_order(kv, g0[q as int]) == CellOrder::Less);
            assert forall|b: int| q <= b < g0.len() implies key_order(kv, #[trigger] g0[b]) == CellOrder::Less by {
                if b > q {
                    lemma_key_order_trans(kv, g0[q as int], g0[b]);
                }
            }
        }
        assert forall|b: int| q <= b < g0.len() implies #[trigger] g0[b] != kv by {
            lemma_key_order_equal(kv, g0[b]);
            lemma_key_order_equal(kv, kv);
        }
    }
    let ghost before = *groups;
    groups.insert(q, key);
    proof {
        let g = groups.deep_view();
        assert(g =~= g0.insert(q as int, kv));
        assert forall|i: int, j: int| 0 <= i < j < g.len() implies key_order(#[trigger] g[i], #[trigger] g[j]) == CellOrder::Less by {
            if j < q {
                assert(g[i] == g0[i] && g[j] == g0[j]);
            } else if j == q {
                assert(g[i] == g0[i]);
            } else if i < q {
                assert(g[i] == g0[i] && g[j] == g0[j - 1]);
                lemma_key_order_trans(g0[i], kv, g0[j - 1]);
            } else if i == q {
                assert(g[j] == g0[j - 1]);
            } else {
                assert(g[i] == g0[i - 1] && g[j] == g0[j - 1]);
            }
        }
        assert forall|x: Seq<Seq<char>>| has_text(g, x) <==> (has_text(g0, x) || x == kv) by {
            if has_text(g, x) {
                let a = choose|a: int| 0 <= a < g.len() && g[a] == x;
                if a < q {
                    assert(g0[a] == x);
                } else if a > q {
                    assert(g0[a - 1] == x);
                }
            }
            if has_text(g0, x) {
                let a = choose|a: int| 0 <= a < g0.len() && g0[a] == x;
                if a < q {
                    assert(g[a] == x);
                } else {
                    assert(g[a + 1] == x);
                }
            }
            if x == kv {
                assert(g[q as int] == x);
            }
        }
    }
}

/// Keys of the rows of a table, by `row_fields`.
pub open spec fn row_keys(headers: Seq<Seq<char>>, row_fields: Seq<Seq<char>>, rows: Seq<Seq<Seq<char>>>) -> Seq<Seq<Seq<char>>> {
    rows.map_values(|row: Seq<Seq<char>>| group_key(headers, row_fields, row))
}

/// The aggregate of a group's cells as text: their number for a count, else their sum
/// or average read as numbers (see `Numbers::total`).
pub open spec fn aggregate_text<K, C, T, E>(nums: Numbers<K, C, T, E>, cells: Seq<Seq<char>>, agg: Aggregate) -> Seq<char> where
    K: Fn(&str) -> Option<String>,
    C: Fn(&str, &str) -> Option<CellOrder>,
    T: Fn(&Vec<String>, Aggregate) -> String,
    E: Fn(&FormulaExpr, &Vec<(String, String)>) -> String,
 {
    if agg == Aggregate::Count { decimal(cells.len()) } else { nums.total_of(cells, agg) }
}

/// Number of rows whose key is `g`.
pub open spec fn rows_in_group(keys: Seq<Seq<Seq<char>>>, g: Seq<Seq<char>>) -> nat
    decreases keys.len(),
{
    if keys.len() == 0 { 0 } else { rows_in_group(keys.drop_last(), g) + if keys.last() == g { 1nat } else { 0nat } }
}

/// Output row of group `g`: the key, then each value column's aggregate over the group.
pub open spec fn pivot_row<K, C, T, E>(
    nums: Numbers<K, C, T, E>,
    headers: Seq<Seq<char>>,
    rows: Seq<Seq<Seq<char>>>,
    keys: Seq<Seq<Seq<char>>>,
    vals: Seq<(Seq<char>, Seq<char>, Seq<char>)>,
    g: Seq<Seq<char>>,
) -> Seq<Seq<char>> where
    K: Fn(&str) -> Option<String>,
    C: Fn(&str, &str) -> Option<CellOrder>,
    T: Fn(&Vec<String>, Aggregate) -> String,
    E: Fn(&FormulaExpr, &Vec<(String, String)>) -> String,
 {
    g + Seq::new(vals.len(), |v: int| aggregate_text(nums, group_cells(rows, keys, g, position(headers, vals[v].0)), agg_kind(vals[v].1)))
}

/// `value_title` of a value column.
fn title_of(field: &String, agg: &String, alias: &String) -> (t: String)
    ensures
        t@ == value_title((field@, agg@, alias@)),
{
    if !blank(alias.as_str()) {
        return alias.clone();
    }
    let mut t = field.clone();
    t.append("_");
    if same_text(agg.as_str(), "count") {
        t.append("计数");
    } else if same_text(agg.as_str(), "avg") {
        t.append("平均");
    } else {
        t.append("求和");
    }
    t
}

/// `agg_kind` of an aggregation name.
fn kind_of(agg: &String) -> (k: Aggregate)
    ensures
        k == agg_kind(agg@),
{
    if same_text(agg.as_str(), "count") {
        Aggregate::Count
    } else if same_text(agg.as_str(), "avg") {
        Aggregate::Avg
    } else {
        Aggregate::Sum
    }
}

/// Value columns as `(field, aggregation, alias)`.
fn value_specs(value_fields: &[PivotValue]) -> (r: Vec<(String, String, String)>)
    ensures
        r@.map_values(|v: (String, String, String)| (v.0@, v.1@, v.2@)) == value_fields@.map_values(|v: PivotValue| (v.field@, v.aggregation@, v.alias@)),
{
    let mut r: Vec<(String, String, String)> = Vec::new();
    let mut k: usize = 0;
    while k < value_fields.len()
        invariant
            k <= value_fields@.len(),
            r@.len() == k,
            forall|j: int| 0 <= j < k ==> (#[trigger] r@[j]).0@ == value_fields@[j].field@ && r@[j].1@ == value_fields@[j].aggregation@
                && r@[j].2@ == value_fields@[j].alias@,
        decreases value_fields@.len() - k,
    {
        let v = &value_fields[k];
        let a = v.field.clone();
        let b = v.aggregation.clone();
        let c = v.alias.clone();
        let ghost r0 = r@;
        r.push((a, b, c));
        assert(r@ == r0.push((a, b, c)));
        k += 1;
    }
    assert(r@.map_values(|v: (String, String, String)| (v.0@, v.1@, v.2@)) =~= value_fields@.map_values(|v: PivotValue| (v.field@, v.aggregation@, v.alias@)));
    r
}

/// Cells in column `c` of the rows whose key is `g`.
fn collect_group_cells(rows: &Vec<Vec<String>>, keys: &Vec<Vec<String>>, g: &Vec<String>, c: usize) -> (cells: Vec<String>)
    requires
        keys@.len() == rows@.len(),
    ensures
        cells.deep_view() == group_cells(rows.deep_view(), keys.deep_view(), g.deep_view(), c as int),
{
    let mut cells: Vec<String> = Vec::new();
    let mut r: usize = 0;
    while r < rows.len()
        invariant
            r <= rows@.len(),
            keys@.len() == rows@.len(),
            cells.deep_view() == group_cells(rows.deep_view().take(r as int), keys.deep_view(), g.deep_view(), c as int),
        decreases rows@.len() - r,
    {
        assert(rows.deep_view().take(r + 1).drop_last() =~= rows.deep_view().take(r as int));
        assert(rows.deep_view().take(r + 1)[r as int] == rows@[r as int].deep_view());
        if crate::dedupe::same_cells(&keys[r], g) {
            let ghost c0 = cells;
            let x = cell_text(&rows[r], c).to_owned();
            cells.push(x);
            proof {
                lemma_dv_push(c0, cells, x);
            }
        }
        r += 1;
    }
    assert(rows.deep_view().take(r as int) =~= rows.deep_view());
    cells
}

/// What a pivot of `t` gives.
pub open spec fn pivot_outcome<K, C, T, E>(
    nums: Numbers<K, C, T, E>,
    t: crate::models::TableView,
    rf: Seq<Seq<char>>,
    value_fields: Seq<PivotValue>,
    legacy_field: Seq<char>,
    legacy_agg: Seq<char>,
    res: Result<crate::models::TableView, Seq<char>>,
) -> bool where
    K: Fn(&str) -> Option<String>,
    C: Fn(&str, &str) -> Option<CellOrder>,
    T: Fn(&Vec<String>, Aggregate) -> String,
    E: Fn(&FormulaExpr, &Vec<(String, String)>) -> String,
 {
    match res {
        Ok(out) => {
            let h = t.headers;
            let vals = pivot_values(value_fields, legacy_field, legacy_agg);
            let keys = row_keys(h, rf, t.rows);
            &&& pivot_fault(h, rf, value_fields, legacy_field, legacy_agg) is None
            &&& out.headers == rf + vals.map_values(|v: (Seq<char>, Seq<char>, Seq<char>)| value_title(v))
            &&& out.groups == Seq::<u32>::empty()
            &&& sorted_groups(out.rows.map_values(|row: Seq<Seq<char>>| row.take(rf.len() as int)), keys)
            &&& forall|i: int| 0 <= i < out.rows.len() ==> (#[trigger] out.rows[i]).len() == rf.len() + vals.len()
                && out.rows[i] == pivot_row(nums, h, t.rows, keys, vals, out.rows[i].take(rf.len() as int))
        },
        Err(e) => pivot_fault(t.headers, rf, value_fields, legacy_field, legacy_agg) == Some(e),
    }
}

/// A group's cells in a column are one per row with the group's key.
pub proof fn lemma_group_cells_len(rows: Seq<Seq<Seq<char>>>, keys: Seq<Seq<Seq<char>>>, g: Seq<Seq<char>>, c: int)
    requires
        keys.len() == rows.len(),
    ensures
        group_cells(rows, keys, g, c).len() == rows_in_group(keys, g),
    decreases rows.len(),
{
    if rows.len() > 0 {
        lemma_group_cells_len(rows.drop_last(), keys.drop_last(), g, c);
        lemma_group_cells_prefix(rows.drop_last(), keys, keys.drop_last(), g, c);
    }
}

/// The cells of a group among the first rows depend only on those rows' keys.
proof fn lemma_group_cells_prefix(rows: Seq<Seq<Seq<char>>>, keys: Seq<Seq<Seq<char>>>, keys2: Seq<Seq<Seq<char>>>, g: Seq<Seq<char>>, c: int)
    requires
        rows.len() <= keys.len(),
        rows.len() <= keys2.len(),
        forall|i: int| 0 <= i < rows.len() ==> keys[i] == keys2[i],
    ensures
        group_cells(rows, keys, g, c) == group_cells(rows, keys2, g, c),
    decreases rows.len(),
{
    if rows.len() > 0 {
        lemma_group_cells_prefix(rows.drop_last(), keys, keys2, g, c);
    }
}

/// Pivot law: every row of a pivot is one group of the input, every group of the input
/// has a row (see `sorted_groups`), and each count cell is the number of input rows in
/// its group.
pub proof fn lemma_pivot_counts<K, C, T, E>(
    nums: Numbers<K, C, T, E>,
    t: crate::models::TableView,
    rf: Seq<Seq<char>>,
    value_fields: Seq<PivotValue>,
    legacy_field: Seq<char>,
    legacy_agg: Seq<char>,
    out: crate::models::TableView,
) where
    K: Fn(&str) -> Option<String>,
    C: Fn(&str, &str) -> Option<CellOrder>,
    T: Fn(&Vec<String>, Aggregate) -> String,
    E: Fn(&FormulaExpr, &Vec<(String, String)>) -> String,
    requires
        pivot_outcome(nums, t, rf, value_fields, legacy_field, legacy_agg, Ok(out)),
    ensures
        ({
            let vals = pivot_values(value_fields, legacy_field, legacy_agg);
            let keys = row_keys(t.headers, rf, t.rows);
            &&& out.headers == rf + vals.map_values(|v: (Seq<char>, Seq<char>, Seq<char>)| value_title(v))
            &&& sorted_groups(out.rows.map_values(|row: Seq<Seq<char>>| row.take(rf.len() as int)), keys)
            &&& forall|i: int, v: int| 0 <= i < out.rows.len() && 0 <= v < vals.len() && agg_kind(vals[v].1) == Aggregate::Count
                ==> #[trigger] out.rows[i][rf.len() + v] == decimal(rows_in_group(keys, out.rows[i].take(rf.len() as int)))
        }),
{
    let vals = pivot_values(value_fields, legacy_field, legacy_agg);
    let keys = row_keys(t.headers, rf, t.rows);
    assert forall|i: int, v: int| 0 <= i < out.rows.len() && 0 <= v < vals.len() && agg_kind(vals[v].1) == Aggregate::Count
        implies #[trigger] out.rows[i][rf.len() + v] == decimal(rows_in_group(keys, out.rows[i].take(rf.len() as int))) by {
        let g = out.rows[i].take(rf.len() as int);
        assert(out.rows[i] == pivot_row(nums, t.headers, t.rows, keys, vals, g));
        assert(g.len() == rf.len());
        let cells = group_cells(t.rows, keys, g, position(t.headers, vals[v].0));
        assert(out.rows[i][rf.len() + v] == aggregate_text(nums, cells, agg_kind(vals[v].1)));
        lemma_group_cells_len(t.rows, keys, g, position(t.headers, vals[v].0));
    }
}

/// Pivot law: each cell of a value column is the caller's total of that column's cells
/// over the row's group, taken as an average for an `avg` column and as a sum for a
/// column that is neither `avg` nor `count`; a `count` cell is the group's row count.
pub proof fn lemma_pivot_aggregates<K, C, T, E>(
    nums: Numbers<K, C, T, E>,
    t: crate::models::TableView,
    rf: Seq<Seq<char>>,
    value_fields: Seq<PivotValue>,
    legacy_field: Seq<char>,
    legacy_agg: Seq<char>,
    out: crate::models::TableView,
) where
    K: Fn(&str) -> Option<String>,
    C: Fn(&str, &str) -> Option<CellOrder>,
    T: Fn(&Vec<String>, Aggregate) -> String,
    E: Fn(&FormulaExpr, &Vec<(String, String)>) -> String,
    requires
        pivot_outcome(nums, t, rf, value_fields, legacy_field, legacy_agg, Ok(out)),
    ensures
        ({
            let vals = pivot_values(value_fields, legacy_field, legacy_agg);
            let keys = row_keys(t.headers, rf, t.rows);
            forall|i: int, v: int| 0 <= i < out.rows.len() && 0 <= v < vals.len() ==> {
                let g = out.rows[i].take(rf.len() as int);
                let cells = group_cells(t.rows, keys, g, position(t.headers, vals[v].0));
                &&& vals[v].1 == "avg"@ ==> #[trigger] out.rows[i][rf.len() + v] == nums.total_of(cells, Aggregate::Avg)
                &&& vals[v].1 == "count"@ ==> out.rows[i][rf.len() + v] == decimal(rows_in_group(keys, g))
                &&& vals[v].1 != "avg"@ && vals[v].1 != "count"@ ==> out.rows[i][rf.len() + v] == nums.total_of(cells, Aggregate::Sum)
            }
        }),
{
    let vals = pivot_values(value_fields, legacy_field, legacy_agg);
    let keys = row_keys(t.headers, rf, t.rows);
    assert forall|i: int, v: int| 0 <= i < out.rows.len() && 0 <= v < vals.len() implies {
        let g = out.rows[i].take(rf.len() as int);
        let cells = group_cells(t.rows, keys, g, position(t.headers, vals[v].0));
        &&& vals[v].1 == "avg"@ ==> #[trigger] out.rows[i][rf.len() + v] == nums.total_of(cells, Aggregate::Avg)
        &&& vals[v].1 == "count"@ ==> out.rows[i][rf.len() + v] == decimal(rows_in_group(keys, g))
        &&& vals[v].1 != "avg"@ && vals[v].1 != "count"@ ==> out.rows[i][rf.len() + v] == nums.total_of(cells, Aggregate::Sum)
    } by {
        reveal_strlit("avg");
        reveal_strlit("count");
        let g = out.rows[i].take(rf.len() as int);
        assert(out.rows[i] == pivot_row(nums, t.headers, t.rows, keys, vals, g));
        assert(g.len() == rf.len());
        let cells = group_cells(t.rows, keys, g, position(t.headers, vals[v].0));
        assert(out.rows[i][rf.len() + v] == aggregate_text(nums, cells, agg_kind(vals[v].1)));
        lemma_group_cells_len(t.rows, keys, g, position(t.headers, vals[v].0));
        assert("avg"@.len() == 3 && "count"@.len() == 5);
        if vals[v].1 == "avg"@ {
            assert(vals[v].1 != "count"@);
            assert(agg_kind(vals[v].1) == Aggregate::Avg);
            assert(out.rows[i][rf.len() + v] == nums.total_of(cells, Aggregate::Avg));
        } else if vals[v].1 == "count"@ {
            assert(agg_kind(vals[v].1) == Aggregate::Count);
            assert(out.rows[i][rf.len() + v] == decimal(rows_in_group(keys, g)));
        } else {
            assert(agg_kind(vals[v].1) == Aggregate::Sum);
        }
    }
}

/// Row `orow` starts with the cells of `row` in the row-field columns.
pub open spec fn keyed_by(headers: Seq<Seq<char>>, rf: Seq<Seq<char>>, orow: Seq<Seq<char>>, row: Seq<Seq<char>>) -> bool {
    forall|k: int| 0 <= k < rf.len() ==> #[trigger] orow[k] == cell_at(row, position(headers, rf[k]))
}

/// Row `orow` starts with the row-field cells of some row of `rows`.
pub open spec fn keyed_by_some(headers: Seq<Seq<char>>, rf: Seq<Seq<char>>, orow: Seq<Seq<char>>, rows: Seq<Seq<Seq<char>>>) -> bool {
    exists|j: int| 0 <= j < rows.len() && #[trigger] keyed_by(headers, rf, orow, rows[j])
}

/// Some row of `orows` starts with the row-field cells of `row`.
pub open spec fn keys_some(headers: Seq<Seq<char>>, rf: Seq<Seq<char>>, orows: Seq<Seq<Seq<char>>>, row: Seq<Seq<char>>) -> bool {
    exists|i: int| 0 <= i < orows.len() && #[trigger] keyed_by(headers, rf, orows[i], row)
}

/// Pivot law: each pivot row starts with the row-field cells of some input row, every
/// input row's row-field cells start some pivot row, and those key cells strictly
/// increase from row to row (so each group has one row).
pub proof fn lemma_pivot_groups<K, C, T, E>(
    nums: Numbers<K, C, T, E>,
    t: crate::models::TableView,
    rf: Seq<Seq<char>>,
    value_fields: Seq<PivotValue>,
    legacy_field: Seq<char>,
    legacy_agg: Seq<char>,
    out: crate::models::TableView,
) where
    K: Fn(&str) -> Option<String>,
    C: Fn(&str, &str) -> Option<CellOrder>,
    T: Fn(&Vec<String>, Aggregate) -> String,
    E: Fn(&FormulaExpr, &Vec<(String, String)>) -> String,
    requires
        pivot_outcome(nums, t, rf, value_fields, legacy_field, legacy_agg, Ok(out)),
    ensures
        forall|i: int| 0 <= i < out.rows.len() ==> #[trigger] keyed_by_some(t.headers, rf, out.rows[i], t.rows),
        forall|j: int| 0 <= j < t.rows.len() ==> #[trigger] keys_some(t.headers, rf, out.rows, t.rows[j]),
        forall|i: int, i2: int| 0 <= i < i2 < out.rows.len() ==>
            key_order(#[trigger] out.rows[i].take(rf.len() as int), #[trigger] out.rows[i2].take(rf.len() as int)) == CellOrder::Less,
{
    let keys = row_keys(t.headers, rf, t.rows);
    let gs = out.rows.map_values(|row: Seq<Seq<char>>| row.take(rf.len() as int));
    let vals = pivot_values(value_fields, legacy_field, legacy_agg);
    assert forall|i: int| 0 <= i < out.rows.len() implies #[trigger] keyed_by_some(t.headers, rf, out.rows[i], t.rows) by {
        assert(has_text(keys, gs[i]));
        let j = choose|j: int| 0 <= j < keys.len() && keys[j] == gs[i];
        assert(out.rows[i].len() == rf.len() + vals.len());
        assert forall|k: int| 0 <= k < rf.len() implies #[trigger] out.rows[i][k] == cell_at(t.rows[j], position(t.headers, rf[k])) by {
            assert(gs[i][k] == out.rows[i][k]);
            assert(keys[j] == group_key(t.headers, rf, t.rows[j]));
        }
        assert(keyed_by(t.headers, rf, out.rows[i], t.rows[j]));
    }
    assert forall|j: int| 0 <= j < t.rows.len() implies #[trigger] keys_some(t.headers, rf, out.rows, t.rows[j]) by {
        assert(has_text(gs, keys[j]));
        let i = choose|i: int| 0 <= i < gs.len() && gs[i] == keys[j];
        assert(out.rows[i].len() == rf.len() + vals.len());
        assert forall|k: int| 0 <= k < rf.len() implies #[trigger] out.rows[i][k] == cell_at(t.rows[j], position(t.headers, rf[k])) by {
            assert(gs[i][k] == out.rows[i][k]);
            assert(keys[j] == group_key(t.headers, rf, t.rows[j]));
        }
        assert(keyed_by(t.headers, rf, out.rows[i], t.rows[j]));
    }
    assert forall|i: int, i2: int| 0 <= i < i2 < out.rows.len() implies
        key_order(#[trigger] out.rows[i].take(rf.len() as int), #[trigger] out.rows[i2].take(rf.len() as int)) == CellOrder::Less by {
        assert(gs[i] == out.rows[i].take(rf.len() as int));
        assert(gs[i2] == out.rows[i2].take(rf.len() as int));
    }
}

/// Pivot law: a pivot with no row field, or with no value field at all, fails with its
/// message; otherwise it fails exactly when a row field or a value field is not a
/// column of the table.
pub proof fn lemma_pivot_refuses<K, C, T, E>(
    nums: Numbers<K, C, T, E>,
    t: crate::models::TableView,
    rf: Seq<Seq<char>>,
    value_fields: Seq<PivotValue>,
    legacy_field: Seq<char>,
    legacy_agg: Seq<char>,
    res: Result<crate::models::TableView, Seq<char>>,
) where
    K: Fn(&str) -> Option<String>,
    C: Fn(&str, &str) -> Option<CellOrder>,
    T: Fn(&Vec<String>, Aggregate) -> String,
    E: Fn(&FormulaExpr, &Vec<(String, String)>) -> String,
    requires
        pivot_outcome(nums, t, rf, value_fields, legacy_field, legacy_agg, res),
    ensures
        rf.len() == 0 ==> res == Err::<crate::models::TableView, Seq<char>>("透视表至少需要一个行字段"@),
        rf.len() > 0 && value_fields.len() == 0 && is_blank(legacy_field) ==> res == Err::<crate::models::TableView, Seq<char>>("请至少选择一个值字段"@),
        rf.len() > 0 && !(value_fields.len() == 0 && is_blank(legacy_field)) ==> (res is Err <==> (
            (exists|i: int| 0 <= i < rf.len() && !has_text(t.headers, #[trigger] rf[i]))
            || (exists|i: int| 0 <= i < pivot_values(value_fields, legacy_field, legacy_agg).len()
                && !has_text(t.headers, #[trigger] pivot_values(value_fields, legacy_field, legacy_agg)[i].0)))),
{
    let vals = pivot_values(value_fields, legacy_field, legacy_agg);
    let names = vals.map_values(|v: (Seq<char>, Seq<char>, Seq<char>)| v.0);
    if exists|i: int| 0 <= i < vals.len() && !has_text(t.headers, #[trigger] vals[i].0) {
        let i = choose|i: int| 0 <= i < vals.len() && !has_text(t.headers, #[trigger] vals[i].0);
        assert(names[i] == vals[i].0);
    }
    if !all_present(t.headers, names) {
        let i = choose|i: int| 0 <= i < names.len() && !has_text(t.headers, #[trigger] names[i]);
        assert(names[i] == vals[i].0);
    }
}

/// Groups the rows by the cells in `row_fields` and gives one row per group, in
/// ascending key order: the key cells, then for each value column the sum, count or
/// average of its cells over the group (`value_fields`, or else the single legacy
/// field). Value headers are the alias, or the field with `_求和`, `_计数` or `_平均`.
pub fn apply_pivot<K, C, T, E>(
    nums: &Numbers<K, C, T, E>,
    table: &DataTable,
    row_fields: &[String],
    value_fields: &[PivotValue],
    legacy_field: &str,
    legacy_agg: &str,
) -> (r: Result<DataTable, String>) where
    K: Fn(&str) -> Option<String>,
    C: Fn(&str, &str) -> Option<CellOrder>,
    T: Fn(&Vec<String>, Aggregate) -> String,
    E: Fn(&FormulaExpr, &Vec<(String, String)>) -> String,
    requires
        nums.wf(),
    ensures
        pivot_outcome(*nums, table@, row_fields.deep_view(), value_fields@, legacy_field@, legacy_agg@, crate::models::table_result(r)),
{
    let ghost h = table@.headers;
    let ghost rf = row_fields.deep_view();
    if row_fields.len() == 0 {
        return Err("透视表至少需要一个行字段".to_owned());
    }
    let mut vals: Vec<(String, String, String)> = value_specs(value_fields);
    if value_fields.len() == 0 {
        if blank(legacy_field) {
            return Err("请至少选择一个值字段".to_owned());
        }
        vals = Vec::new();
        vals.push((legacy_field.to_owned(), legacy_agg.to_owned(), String::new()));
    }
    let ghost vs = pivot_values(value_fields@, legacy_field@, legacy_agg@);
    assert(vals@.map_values(|v: (String, String, String)| (v.0@, v.1@, v.2@)) =~= vs);
    let row_idx = match pick_columns(table, row_fields) {
        Ok(v) => v,
        Err(e) => return Err(e),
    };
    let mut names: Vec<String> = Vec::new();
    let mut k: usize = 0;
    while k < vals.len()
        invariant
            k <= vals@.len(),
            names.deep_view() == vals@.take(k as int).map_values(|v: (String, String, String)| v.0@),
        decreases vals@.len() - k,
    {
        let ghost n0 = names;
        let x = vals[k].0.clone();
        names.push(x);
        proof {
            lemma_dv_push(n0, names, x);
            assert(vals@.take(k + 1) =~= vals@.take(k as int).push(vals@[k as int]));
            assert(names.deep_view() =~= vals@.take(k + 1).map_values(|v: (String, String, String)| v.0@));
        }
        k += 1;
    }
    assert(vals@.take(k as int) =~= vals@);
    assert(names.deep_view() =~= vs.map_values(|v: (Seq<char>, Seq<char>, Seq<char>)| v.0));
    let val_idx = match pick_columns(table, names.as_slice()) {
        Ok(v) => v,
        Err(e) => return Err(e),
    };
    assert(pivot_fault(h, rf, value_fields@, legacy_field@, legacy_agg@) is None);
    // Keys of the rows, and the ascending list of distinct keys.
    let ghost keys = row_keys(h, rf, table@.rows);
    let mut rkeys: Vec<Vec<String>> = Vec::new();
    let mut groups: Vec<Vec<String>> = Vec::new();
    let mut r: usize = 0;
    while r < table.rows.len()
        invariant
            r <= table@.rows.len(),
            keys == row_keys(h, rf, table@.rows),
            h == table@.headers,
            rf == row_fields.deep_view(),
            row_idx@.len() == rf.len(),
            forall|q: int| 0 <= q < row_idx@.len() ==> #[trigger] row_idx@[q] == position(h, rf[q]),
            rkeys.deep_view() == keys.take(r as int),
            forall|i: int, j: int| 0 <= i < j < groups@.len() ==> key_order(#[trigger] groups.deep_view()[i], #[trigger] groups.deep_view()[j]) == CellOrder::Less,
            forall|x: Seq<Seq<char>>| has_text(groups.deep_view(), x) <==> has_text(keys.take(r as int), x),
        decreases table@.rows.len() - r,
    {
        let key = cells_at(&table.rows[r], &row_idx);
        proof {
            assert(table@.rows[r as int] == table.rows@[r as int].deep_view());
            assert(key.deep_view() =~= keys[r as int]);
        }
        let ghost k0 = rkeys;
        let ghost g0 = groups.deep_view();
        let kc = copy_texts(&key);
        rkeys.push(kc);
        add_group(&mut groups, key);
        proof {
            lemma_dv_push(k0, rkeys, kc);
            let kt1 = keys.take(r + 1);
            let kt0 = keys.take(r as int);
            assert(kt1 =~= kt0.push(keys[r as int]));
            assert forall|x: Seq<Seq<char>>| has_text(groups.deep_view(), x) <==> has_text(kt1, x) by {
                assert(has_text(g0, x) == has_text(kt0, x));
                assert(has_text(groups.deep_view(), x) == (has_text(g0, x) || x == keys[r as int]));
                if has_text(kt1, x) {
                    let a = choose|a: int| 0 <= a < kt1.len() && kt1[a] == x;
                    if a < r {
                        assert(kt0[a] == x);
                        assert(has_text(kt0, x));
                    }
                }
                if has_text(kt0, x) {
                    let a = choose|a: int| 0 <= a < kt0.len() && kt0[a] == x;
                    assert(kt1[a] == x);
                }
                if x == keys[r as int] {
                    assert(kt1[r as int] == x);
                }
            }
        }
        r += 1;
    }
    assert(keys.take(r as int) =~= keys);
    assert(rkeys.deep_view() == keys);
    // Headers.
    let mut headers: Vec<String> = Vec::new();
    let mut k: usize = 0;
    while k < row_fields.len()
        invariant
            k <= row_fields@.len(),
            rf == row_fields.deep_view(),
            headers.deep_view() == rf.take(k as int),
        decreases row_fields@.len() - k,
    {
        let ghost h0 = headers;
        let x = row_fields[k].clone();
        headers.push(x);
        proof {
            lemma_dv_push(h0, headers, x);
            assert(headers.deep_view() =~= rf.take(k + 1));
        }
        k += 1;
    }
    assert(rf.take(k as int) =~= rf);
    assert(headers.deep_view() == rf + vs.take(0).map_values(|v: (Seq<char>, Seq<char>, Seq<char>)| value_title(v)));
    let mut k: usize = 0;
    while k < vals.len()
        invariant
            k <= vals@.len(),
            vals@.map_values(|v: (String, String, String)| (v.0@, v.1@, v.2@)) == vs,
            headers.deep_view() == rf + vs.take(k as int).map_values(|v: (Seq<char>, Seq<char>, Seq<char>)| value_title(v)),
        decreases vals@.len() - k,
    {
        let ghost h0 = headers;
        let t = title_of(&vals[k].0, &vals[k].1, &vals[k].2);
        headers.push(t);
        proof {
            lemma_dv_push(h0, headers, t);
            assert(vs[k as int] == (vals@[k as int].0@, vals@[k as int].1@, vals@[k as int].2@));
            assert(vs.take(k + 1) =~= vs.take(k as int).push(vs[k as int]));
            assert(headers.deep_view() =~= rf + vs.take(k + 1).map_values(|v: (Seq<char>, Seq<char>, Seq<char>)| value_title(v)));
        }
        k += 1;
    }
    assert(vs.take(k as int) =~= vs);
    // Rows.
    let ghost gv = groups.deep_view();
    proof {
        assert forall|i: int| 0 <= i < gv.len() implies (#[trigger] gv[i]).len() == rf.len() by {
            assert(has_text(gv, gv[i]));
            assert(has_text(keys, gv[i]));
            let a = choose|a: int| 0 <= a < keys.len() && keys[a] == gv[i];
            assert(keys[a] == group_key(h, rf, table@.rows[a]));
        }
    }
    let mut rows: Vec<Vec<String>> = Vec::new();
    let mut gi: usize = 0;
    while gi < groups.len()
        invariant
            gi <= groups@.len(),
            nums.wf(),
            gv == groups.deep_view(),
            h == table@.headers,
            keys == row_keys(h, rf, table@.rows),
            rkeys.deep_view() == keys,
            rkeys@.len() == table@.rows.len(),
            rf.len() == row_fields@.len(),
            vals@.map_values(|v: (String, String, String)| (v.0@, v.1@, v.2@)) == vs,
            val_idx@.len() == vs.len(),
            forall|q: int| 0 <= q < val_idx@.len() ==> #[trigger] val_idx@[q] == position(h, names.deep_view()[q]),
            names.deep_view() == vs.map_values(|v: (Seq<char>, Seq<char>, Seq<char>)| v.0),
            forall|i: int| 0 <= i < gv.len() ==> (#[trigger] gv[i]).len() == rf.len(),
            rows@.len() == gi,
            forall|i: int| 0 <= i < gi ==> #[trigger] rows.deep_view()[i] == pivot_row(*nums, h, table@.rows, keys, vs, gv[i]),
        decreases groups@.len() - gi,
    {
        let g = &groups[gi];
        let mut out: Vec<String> = copy_texts(g);
        let mut v: usize = 0;
        while v < vals.len()
            invariant
                v <= vals@.len(),
                nums.wf(),
                gi < gv.len(),
                g.deep_view() == gv[gi as int],
                h == table@.headers,
                rkeys.deep_view() == keys,
                rkeys@.len() == table@.rows.len(),
                vals@.map_values(|v: (String, String, String)| (v.0@, v.1@, v.2@)) == vs,
                val_idx@.len() == vs.len(),
                forall|q: int| 0 <= q < val_idx@.len() ==> #[trigger] val_idx@[q] == position(h, names.deep_view()[q]),
                names.deep_view() == vs.map_values(|v: (Seq<char>, Seq<char>, Seq<char>)| v.0),
                out.deep_view() == gv[gi as int] + Seq::new(v as nat, |w: int| aggregate_text(*nums, group_cells(table@.rows, keys, gv[gi as int], position(h, vs[w].0)), agg_kind(vs[w].1))),
            decreases vals@.len() - v,
        {
            let cells = collect_group_cells(&table.rows, &rkeys, g, val_idx[v]);
            let agg = kind_of(&vals[v].1);
            let t = if agg == Aggregate::Count { decimal_string(cells.len()) } else { nums.aggregate(&cells, agg) };
            let ghost o0 = out;
            out.push(t);
            proof {
                lemma_dv_push(o0, out, t);
                assert(vs[v as int] == (vals@[v as int].0@, vals@[v as int].1@, vals@[v as int].2@));
                assert(names.deep_view()[v as int] == vs[v as int].0);
                assert(out.deep_view() =~= gv[gi as int] + Seq::new((v + 1) as nat, |w: int| aggregate_text(*nums, group_cells(table@.rows, keys, gv[gi as int], position(h, vs[w].0)), agg_kind(vs[w].1))));
            }
            v += 1;
        }
        let ghost r0 = rows;
        rows.push(out);
        proof {
            lemma_dv_push(r0, rows, out);
            assert(out.deep_view() =~= pivot_row(*nums, h, table@.rows, keys, vs, gv[gi as int]));
        }
        gi += 1;
    }
    proof {
        let outv = rows.deep_view();
        let tk = outv.map_values(|row: Seq<Seq<char>>| row.take(rf.len() as int));
        assert forall|i: int| 0 <= i < outv.len() implies #[trigger] tk[i] == gv[i] by {
            assert(outv[i] == pivot_row(*nums, h, table@.rows, keys, vs, gv[i]));
            assert(outv[i].take(rf.len() as int) =~= gv[i]);
        }
        assert(tk =~= gv);
        assert forall|i: int| 0 <= i < outv.len() implies (#[trigger] outv[i]).len() == rf.len() + vs.len()
            && outv[i] == pivot_row(*nums, h, table@.rows, keys, vs, outv[i].take(rf.len() as int)) by {
            assert(tk[i] == gv[i]);
        }
        assert forall|i: int| 0 <= i < gv.len() implies has_text(keys, #[trigger] gv[i]) by {
            assert(has_text(gv, gv[i]));
        }
    }
    Ok(DataTable { headers, rows, header_groups: Vec::new() })
}

} // verus!
