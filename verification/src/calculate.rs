//! Calculated columns: a formula over the base table's cells and the cells of joined
//! tables, evaluated row by row.
use vstd::prelude::*;
use crate::formula::{formula_parse, FormulaExpr};
use crate::models::{
    copy_texts, find_named, first_at, has_text, ids_of, lemma_dv_push, lemma_first_at_unique,
    missing_column_message, position, table_named, CalcJoin, DataTable, TableView,
};
use crate::excel_io::{cell_at, cell_text};
use crate::numbers::{ctx_names, ctx_view, result_view, Aggregate, CellOrder, Numbers};
use crate::text::{chars_of, string_of_range, trim, trimmed, same_text};

verus! {

/// `s` without its leading `=` characters.
pub open spec fn strip_eq(s: Seq<char>) -> Seq<char>
    decreases s.len(),
{
    if s.len() > 0 && s[0] == '=' {
        strip_eq(s.drop_first())
    } else {
        s
    }
}

/// The expression of a formula: trimmed, without leading `=`, trimmed again.
pub open spec fn formula_body(formula: Seq<char>) -> Seq<char> {
    trim(strip_eq(trim(formula)))
}

/// Name of column `h` of table `id` in a formula.
pub open spec fn qualified(id: Seq<char>, h: Seq<char>) -> Seq<char> {
    id + "!"@ + h
}

/// Why the joins cannot run: the first join whose table or foreign key is missing.
pub open spec fn join_fault(ts: Seq<(String, &DataTable)>, joins: Seq<CalcJoin>) -> Option<Seq<char>>
    decreases joins.len(),
{
    if joins.len() == 0 {
        None
    } else {
        let tid = joins[0].table_id@;
        if !has_text(ids_of(ts), tid) {
            Some("关联表不存在: "@ + tid)
        } else if !has_text(table_named(ts, tid).headers, joins[0].foreign_key@) {
            Some(missing_column_message(table_named(ts, tid).headers, joins[0].foreign_key@))
        } else {
            join_fault(ts, joins.drop_first())
        }
    }
}

/// The first join whose base key the base table lacks.
pub open spec fn base_key_fault(headers: Seq<Seq<char>>, joins: Seq<CalcJoin>) -> Option<Seq<char>>
    decreases joins.len(),
{
    if joins.len() == 0 {
        None
    } else if !has_text(headers, joins[0].base_key@) {
        Some(missing_column_message(headers, joins[0].base_key@))
    } else {
        base_key_fault(headers, joins.drop_first())
    }
}

/// `i` is the last join on table `tid`.
pub open spec fn last_join_at(joins: Seq<CalcJoin>, tid: Seq<char>, i: int) -> bool {
    &&& 0 <= i < joins.len()
    &&& joins[i].table_id@ == tid
    &&& forall|k: int| i < k < joins.len() ==> joins[k].table_id@ != tid
}

/// The last join on table `tid`: its foreign key is the one a lookup into `tid` uses.
pub open spec fn last_join(joins: Seq<CalcJoin>, tid: Seq<char>) -> int {
    choose|i: int| last_join_at(joins, tid, i)
}

/// Cells in column `c` of the rows.
pub open spec fn column_of(rows: Seq<Seq<Seq<char>>>, c: int) -> Seq<Seq<char>> {
    Seq::new(rows.len(), |r: int| cell_at(rows[r], c))
}

/// Cells `i` of the rows whose key cell (column `fk`) is `key` and that have a cell `i`.
pub open spec fn key_cells(rows: Seq<Seq<Seq<char>>>, fk: int, key: Seq<char>, i: int) -> Seq<Seq<char>>
    decreases rows.len(),
{
    if rows.len() == 0 {
        Seq::empty()
    } else {
        let n = rows.len() - 1;
        let before = key_cells(rows.drop_last(), fk, key, i);
        if cell_at(rows[n], fk) == key && i < rows[n].len() { before.push(rows[n][i]) } else { before }
    }
}

/// The joined row for `key`: the first row with that key, each cell replaced by the sum
/// of that column over all rows with the key.
pub open spec fn summed_row<K, C, T, E>(nums: Numbers<K, C, T, E>, rows: Seq<Seq<Seq<char>>>, fk: int, key: Seq<char>, first: int) -> Seq<Seq<char>> where
    K: Fn(&str) -> Option<String>,
    C: Fn(&str, &str) -> Option<CellOrder>,
    T: Fn(&Vec<String>, Aggregate) -> String,
    E: Fn(&FormulaExpr, &Vec<(String, String)>) -> String,
 {
    Seq::new(rows[first].len(), |i: int| nums.total_of(key_cells(rows, fk, key, i), Aggregate::Sum))
}

/// Entries for a matched joined row.
pub open spec fn found_entries(tid: Seq<char>, headers: Seq<Seq<char>>, row: Seq<Seq<char>>) -> Seq<(Seq<char>, Seq<char>)> {
    Seq::new(headers.len(), |i: int| (qualified(tid, headers[i]), cell_at(row, i)))
}

/// `entries` names `name`.
pub open spec fn has_name(entries: Seq<(Seq<char>, Seq<char>)>, name: Seq<char>) -> bool {
    exists|k: int| 0 <= k < entries.len() && entries[k].0 == name
}

/// Entries for an unmatched join: each qualified name not yet named, with an empty value.
pub open spec fn absent_entries(prev: Seq<(Seq<char>, Seq<char>)>, tid: Seq<char>, headers: Seq<Seq<char>>) -> Seq<(Seq<char>, Seq<char>)>
    decreases headers.len(),
{
    if headers.len() == 0 {
        Seq::empty()
    } else {
        let a = absent_entries(prev, tid, headers.drop_last());
        let name = qualified(tid, headers.last());
        if has_name(prev + a, name) { a } else { a.push((name, Seq::<char>::empty())) }
    }
}

/// Entries for the base row: each column under its qualified and its bare name.
pub open spec fn base_entries(base_id: Seq<char>, headers: Seq<Seq<char>>, row: Seq<Seq<char>>) -> Seq<(Seq<char>, Seq<char>)>
    decreases headers.len(),
{
    if headers.len() == 0 {
        Seq::empty()
    } else {
        let i = headers.len() - 1;
        base_entries(base_id, headers.drop_last(), row) + seq![
            (qualified(base_id, headers[i]), cell_at(row, i)),
            (headers[i], cell_at(row, i)),
        ]
    }
}

/// Entries that join `j` adds after `prev` for base row `row`.
pub open spec fn join_entries<K, C, T, E>(
    nums: Numbers<K, C, T, E>,
    ts: Seq<(String, &DataTable)>,
    joins: Seq<CalcJoin>,
    j: int,
    prev: Seq<(Seq<char>, Seq<char>)>,
    headers: Seq<Seq<char>>,
    row: Seq<Seq<char>>,
) -> Seq<(Seq<char>, Seq<char>)> where
    K: Fn(&str) -> Option<String>,
    C: Fn(&str, &str) -> Option<CellOrder>,
    T: Fn(&Vec<String>, Aggregate) -> String,
    E: Fn(&FormulaExpr, &Vec<(String, String)>) -> String,
 {
    let tid = joins[j].table_id@;
    let ft = table_named(ts, tid);
    let fk = position(ft.headers, joins[last_join(joins, tid)].foreign_key@);
    let key = cell_at(row, position(headers, joins[j].base_key@));
    let keys = column_of(ft.rows, fk);
    if has_text(keys, key) {
        found_entries(tid, ft.headers, summed_row(nums, ft.rows, fk, key, position(keys, key)))
    } else {
        absent_entries(prev, tid, ft.headers)
    }
}

/// Named values for base row `row` after the first `n` joins; a later entry of a name
/// overrides an earlier one.
pub open spec fn calc_ctx<K, C, T, E>(
    nums: Numbers<K, C, T, E>,
    ts: Seq<(String, &DataTable)>,
    base_id: Seq<char>,
    joins: Seq<CalcJoin>,
    n: nat,
    headers: Seq<Seq<char>>,
    row: Seq<Seq<char>>,
) -> Seq<(Seq<char>, Seq<char>)> where
    K: Fn(&str) -> Option<String>,
    C: Fn(&str, &str) -> Option<CellOrder>,
    T: Fn(&Vec<String>, Aggregate) -> String,
    E: Fn(&FormulaExpr, &Vec<(String, String)>) -> String,
    decreases n,
{
    if n == 0 {
        base_entries(base_id, headers, row)
    } else {
        let prev = calc_ctx(nums, ts, base_id, joins, (n - 1) as nat, headers, row);
        prev + join_entries(nums, ts, joins, n - 1, prev, headers, row)
    }
}

/// Output rows of a calculation: each base row with its formula value, or the first
/// evaluation error.
pub open spec fn calc_rows<K, C, T, E>(
    nums: Numbers<K, C, T, E>,
    ts: Seq<(String, &DataTable)>,
    base_id: Seq<char>,
    joins: Seq<CalcJoin>,
    expr: Seq<char>,
    headers: Seq<Seq<char>>,
    rows: Seq<Seq<Seq<char>>>,
) -> Result<Seq<Seq<Seq<char>>>, Seq<char>> where
    K: Fn(&str) -> Option<String>,
    C: Fn(&str, &str) -> Option<CellOrder>,
    T: Fn(&Vec<String>, Aggregate) -> String,
    E: Fn(&FormulaExpr, &Vec<(String, String)>) -> String,
    decreases rows.len(),
{
    if rows.len() == 0 {
        Ok(Seq::empty())
    } else {
        match calc_rows(nums, ts, base_id, joins, expr, headers, rows.drop_last()) {
            Err(e) => Err(e),
            Ok(done) => match nums.eval_of(expr, calc_ctx(nums, ts, base_id, joins, joins.len(), headers, rows.last())) {
                Ok(v) => Ok(done.push(rows.last().push(v))),
                Err(e) => Err("公式计算失败（行键相关）: "@ + e),
            },
        }
    }
}

/// What a calculation gives: the base table with the output column, or its error.
pub open spec fn calc_result<K, C, T, E>(
    nums: Numbers<K, C, T, E>,
    ts: Seq<(String, &DataTable)>,
    base_id: Seq<char>,
    output_field: Seq<char>,
    formula: Seq<char>,
    joins: Seq<CalcJoin>,
) -> Result<TableView, Seq<char>> where
    K: Fn(&str) -> Option<String>,
    C: Fn(&str, &str) -> Option<CellOrder>,
    T: Fn(&Vec<String>, Aggregate) -> String,
    E: Fn(&FormulaExpr, &Vec<(String, String)>) -> String,
 {
    if !has_text(ids_of(ts), base_id) {
        Err("找不到基准表「"@ + base_id + "」"@)
    } else {
        match join_fault(ts, joins) {
            Some(e) => Err(e),
            None => {
                let expr = formula_body(formula);
                let base = table_named(ts, base_id);
                if expr.len() == 0 {
                    Err("计算公式不能为空"@)
                } else if base.rows.len() > 0 && base_key_fault(base.headers, joins) is Some {
                    Err(base_key_fault(base.headers, joins)->0)
                } else {
                    match calc_rows(nums, ts, base_id, joins, expr, base.headers, base.rows) {
                        Err(e) => Err(e),
                        Ok(rows) => Ok(TableView { headers: base.headers.push(output_field), rows, groups: Seq::empty() }),
                    }
                }
            },
        }
    }
}

/// Every base column is named in the base entries, under its bare name and under its
/// table-qualified name, with the row's cell.
proof fn lemma_base_entries_name(base_id: Seq<char>, headers: Seq<Seq<char>>, row: Seq<Seq<char>>, c: int)
    requires
        0 <= c < headers.len(),
    ensures
        base_entries(base_id, headers, row).len() == 2 * headers.len(),
        base_entries(base_id, headers, row)[2 * c] == (qualified(base_id, headers[c]), cell_at(row, c)),
        base_entries(base_id, headers, row)[2 * c + 1] == (headers[c], cell_at(row, c)),
    decreases headers.len(),
{
    let h2 = headers.drop_last();
    lemma_base_entries_len(base_id, h2, row);
    if c < headers.len() - 1 {
        lemma_base_entries_name(base_id, h2, row, c);
        assert(h2[c] == headers[c]);
    }
}

proof fn lemma_base_entries_len(base_id: Seq<char>, headers: Seq<Seq<char>>, row: Seq<Seq<char>>)
    ensures
        base_entries(base_id, headers, row).len() == 2 * headers.len(),
    decreases headers.len(),
{
    if headers.len() > 0 {
        lemma_base_entries_len(base_id, headers.drop_last(), row);
    }
}

/// `orow` is base row `row` with one more cell: the caller's value of `expr`, parsed
/// against the row's named values, over those values.
pub open spec fn calc_row_is<K, C, T, E>(
    nums: Numbers<K, C, T, E>,
    ts: Seq<(String, &DataTable)>,
    base_id: Seq<char>,
    joins: Seq<CalcJoin>,
    expr: Seq<char>,
    headers: Seq<Seq<char>>,
    row: Seq<Seq<char>>,
    orow: Seq<Seq<char>>,
) -> bool where
    K: Fn(&str) -> Option<String>,
    C: Fn(&str, &str) -> Option<CellOrder>,
    T: Fn(&Vec<String>, Aggregate) -> String,
    E: Fn(&FormulaExpr, &Vec<(String, String)>) -> String,
 {
    let ctx = calc_ctx(nums, ts, base_id, joins, joins.len(), headers, row);
    &&& formula_parse(expr, ctx_names(ctx)) is Ok
    &&& orow == row.push(nums.value_of(formula_parse(expr, ctx_names(ctx))->Ok_0, ctx))
}

/// Each calculated row is its base row with one cell added: the caller's value of the
/// parsed formula over the row's named values.
proof fn lemma_calc_rows_shape<K, C, T, E>(
    nums: Numbers<K, C, T, E>,
    ts: Seq<(String, &DataTable)>,
    base_id: Seq<char>,
    joins: Seq<CalcJoin>,
    expr: Seq<char>,
    headers: Seq<Seq<char>>,
    rows: Seq<Seq<Seq<char>>>,
) where
    K: Fn(&str) -> Option<String>,
    C: Fn(&str, &str) -> Option<CellOrder>,
    T: Fn(&Vec<String>, Aggregate) -> String,
    E: Fn(&FormulaExpr, &Vec<(String, String)>) -> String,
    ensures
        calc_rows(nums, ts, base_id, joins, expr, headers, rows) matches Ok(out) ==> {
            &&& out.len() == rows.len()
            &&& forall|i: int| 0 <= i < rows.len() ==> #[trigger] calc_row_is(nums, ts, base_id, joins, expr, headers, rows[i], out[i])
        },
    decreases rows.len(),
{
    if rows.len() > 0 {
        lemma_calc_rows_shape(nums, ts, base_id, joins, expr, headers, rows.drop_last());
        if calc_rows(nums, ts, base_id, joins, expr, headers, rows) is Ok {
            let out = calc_rows(nums, ts, base_id, joins, expr, headers, rows)->Ok_0;
            let done = calc_rows(nums, ts, base_id, joins, expr, headers, rows.drop_last())->Ok_0;
            assert forall|i: int| 0 <= i < rows.len() implies #[trigger] calc_row_is(nums, ts, base_id, joins, expr, headers, rows[i], out[i]) by {
                let ctx = calc_ctx(nums, ts, base_id, joins, joins.len(), headers, rows[i]);
                if i < rows.len() - 1 {
                    assert(rows.drop_last()[i] == rows[i]);
                    assert(out[i] == done[i]);
                    assert(calc_row_is(nums, ts, base_id, joins, expr, headers, rows.drop_last()[i], done[i]));
                } else {
                    assert(rows.last() == rows[i]);
                    let r = nums.eval_of(expr, ctx);
                    assert(r is Ok);
                    assert(out == done.push(rows[i].push(r->Ok_0)));
                }
            }
        }
    }
}

/// Calculation law: a calculation keeps the base table's headers with the output field
/// added, and each base row in order with one more cell: the caller's value of the
/// parsed formula body over that row's named values, which hold every base column under
/// its bare name and under `table!column` with the row's cell.
pub proof fn lemma_calculate_rows<K, C, T, E>(
    nums: Numbers<K, C, T, E>,
    ts: Seq<(String, &DataTable)>,
    base_id: Seq<char>,
    output_field: Seq<char>,
    formula: Seq<char>,
    joins: Seq<CalcJoin>,
    out: TableView,
) where
    K: Fn(&str) -> Option<String>,
    C: Fn(&str, &str) -> Option<CellOrder>,
    T: Fn(&Vec<String>, Aggregate) -> String,
    E: Fn(&FormulaExpr, &Vec<(String, String)>) -> String,
    requires
        calc_result(nums, ts, base_id, output_field, formula, joins) == Ok::<TableView, Seq<char>>(out),
    ensures
        ({
            let base = table_named(ts, base_id);
            &&& out.headers == base.headers.push(output_field)
            &&& out.rows.len() == base.rows.len()
            &&& forall|i: int| 0 <= i < base.rows.len() ==> #[trigger] calc_row_is(nums, ts, base_id, joins, formula_body(formula), base.headers, base.rows[i], out.rows[i])
            &&& forall|i: int, c: int| #![trigger base.rows[i], base.headers[c]] 0 <= i < base.rows.len() && 0 <= c < base.headers.len() ==> {
                let ctx0 = calc_ctx(nums, ts, base_id, joins, 0, base.headers, base.rows[i]);
                &&& ctx0[2 * c + 1] == (base.headers[c], cell_at(base.rows[i], c))
                &&& ctx0[2 * c] == (qualified(base_id, base.headers[c]), cell_at(base.rows[i], c))
                &&& joins.len() == 0 ==> calc_ctx(nums, ts, base_id, joins, joins.len(), base.headers, base.rows[i]) == ctx0
            }
        }),
{
    let base = table_named(ts, base_id);
    lemma_calc_rows_shape(nums, ts, base_id, joins, formula_body(formula), base.headers, base.rows);
    assert forall|i: int, c: int| #![trigger base.rows[i], base.headers[c]] 0 <= i < base.rows.len() && 0 <= c < base.headers.len() implies {
        let ctx0 = calc_ctx(nums, ts, base_id, joins, 0, base.headers, base.rows[i]);
        &&& ctx0[2 * c + 1] == (base.headers[c], cell_at(base.rows[i], c))
        &&& ctx0[2 * c] == (qualified(base_id, base.headers[c]), cell_at(base.rows[i], c))
        &&& joins.len() == 0 ==> calc_ctx(nums, ts, base_id, joins, joins.len(), base.headers, base.rows[i]) == ctx0
    } by {
        lemma_base_entries_name(base_id, base.headers, base.rows[i], c);
    }
}

/// The expression of a formula (see `formula_body`).
pub fn formula_expr(formula: &str) -> (r: String)
    ensures
        r@ == formula_body(formula@),
{
    let t = trimmed(formula);
    let v = chars_of(t.as_str());
    assert(v@.subrange(0, v@.len() as int) =~= v@);
    let mut i: usize = 0;
    while i < v.len() && v[i] == '='
        invariant
            i <= v@.len(),
            v@ == trim(formula@),
            strip_eq(v@) == strip_eq(v@.subrange(i as int, v@.len() as int)),
        decreases v@.len() - i,
    {
        assert(v@.subrange(i as int, v@.len() as int).drop_first() =~= v@.subrange(i + 1, v@.len() as int));
        i += 1;
    }
    let s = string_of_range(&v, i, v.len());
    trimmed(s.as_str())
}

/// `has_name` of a list of entries.
fn names_holds(ctx: &Vec<(String, String)>, name: &String) -> (r: bool)
    ensures
        r == has_name(ctx_view(ctx@), name@),
{
    let mut k: usize = 0;
    while k < ctx.len()
        invariant
            k <= ctx@.len(),
            forall|j: int| 0 <= j < k ==> ctx_view(ctx@)[j].0 != name@,
        decreases ctx@.len() - k,
    {
        if same_text(ctx[k].0.as_str(), name.as_str()) {
            assert(ctx_view(ctx@)[k as int].0 == name@);
            return true;
        }
        k += 1;
    }
    false
}

/// `qualified` names.
fn qualify(id: &str, h: &str) -> (r: String)
    ensures
        r@ == qualified(id@, h@),
{
    let mut r = id.to_owned();
    r.append("!");
    r.append(h);
    r
}

/// `key_cells` of a table.
fn collect_key_cells(rows: &Vec<Vec<String>>, fk: usize, key: &str, i: usize) -> (cells: Vec<String>)
    ensures
        cells.deep_view() == key_cells(rows.deep_view(), fk as int, key@, i as int),
{
    let mut cells: Vec<String> = Vec::new();
    let mut r: usize = 0;
    while r < rows.len()
        invariant
            r <= rows@.len(),
            cells.deep_view() == key_cells(rows.deep_view().take(r as int), fk as int, key@, i as int),
        decreases rows@.len() - r,
    {
        let ghost rv = rows.deep_view();
        assert(rv.take(r + 1).drop_last() =~= rv.take(r as int));
        assert(rv.take(r + 1)[r as int] == rows@[r as int].deep_view());
        if same_text(cell_text(&rows[r], fk), key) && i < rows[r].len() {
            let ghost c0 = cells;
            let x = rows[r][i].clone();
            cells.push(x);
            proof {
                lemma_dv_push(c0, cells, x);
            }
        }
        r += 1;
    }
    assert(rows.deep_view().take(r as int) =~= rows.deep_view());
    cells
}

/// Appends the entries of one join for a base row whose key cell is `key`.
fn add_join_entries<K, C, T, E>(
    nums: &Numbers<K, C, T, E>,
    ctx: &mut Vec<(String, String)>,
    tid: &str,
    ft: &DataTable,
    fk: usize,
    key: &str,
)
    where
    K: Fn(&str) -> Option<String>,
    C: Fn(&str, &str) -> Option<CellOrder>,
    T: Fn(&Vec<String>, Aggregate) -> String,
    E: Fn(&FormulaExpr, &Vec<(String, String)>) -> String,
    requires
        nums.wf(),
    ensures
        ctx_view(final(ctx)@) == ctx_view(old(ctx)@) + if has_text(column_of(ft@.rows, fk as int), key@) {
            found_entries(tid@, ft@.headers, summed_row(*nums, ft@.rows, fk as int, key@, position(column_of(ft@.rows, fk as int), key@)))
        } else {
            absent_entries(ctx_view(old(ctx)@), tid@, ft@.headers)
        },
{
    let ghost c0 = ctx_view(ctx@);
    let ghost keys = column_of(ft@.rows, fk as int);
    let mut r: usize = 0;
    let mut hit = false;
    while r < ft.rows.len() && !hit
        invariant
            r <= ft@.rows.len(),
            keys == column_of(ft@.rows, fk as int),
            forall|q: int| 0 <= q < r ==> keys[q] != key@,
            hit ==> r < ft@.rows.len() && keys[r as int] == key@,
        decreases ft@.rows.len() - r + (if hit { 0int } else { 1int }),
    {
        assert(ft@.rows[r as int] == ft.rows@[r as int].deep_view());
        if same_text(cell_text(&ft.rows[r], fk), key) {
            hit = true;
        } else {
            r += 1;
        }
    }
    if hit {
        proof {
            assert(first_at(keys, key@, r as int));
            lemma_first_at_unique(keys, key@, r as int);
            assert(has_text(keys, key@));
        }
        // Summed row.
        let frow = &ft.rows[r];
        let mut srow: Vec<String> = Vec::new();
        let mut i: usize = 0;
        while i < frow.len()
            invariant
                i <= frow@.len(),
                nums.wf(),
                r < ft@.rows.len(),
                frow.deep_view() == ft@.rows[r as int],
                srow.deep_view() == Seq::new(i as nat, |c: int| nums.total_of(key_cells(ft@.rows, fk as int, key@, c), Aggregate::Sum)),
            decreases frow@.len() - i,
        {
            let cells = collect_key_cells(&ft.rows, fk, key, i);
            let t = nums.aggregate(&cells, Aggregate::Sum);
            let ghost s0 = srow;
            srow.push(t);
            proof {
                lemma_dv_push(s0, srow, t);
                assert(srow.deep_view() =~= Seq::new((i + 1) as nat, |c: int| nums.total_of(key_cells(ft@.rows, fk as int, key@, c), Aggregate::Sum)));
            }
            i += 1;
        }
        assert(srow.deep_view() =~= summed_row(*nums, ft@.rows, fk as int, key@, r as int));
        let mut h: usize = 0;
        while h < ft.headers.len()
            invariant
                h <= ft@.headers.len(),
                ctx_view(ctx@) == c0 + found_entries(tid@, ft@.headers.take(h as int), srow.deep_view()),
            decreases ft@.headers.len() - h,
        {
            let name = qualify(tid, ft.headers[h].as_str());
            let val = cell_text(&srow, h).to_owned();
            let ghost x0 = ctx@;
            ctx.push((name, val));
            proof {
                assert(ctx@ == x0.push((name, val)));
                let sv = srow.deep_view();
                assert(found_entries(tid@, ft@.headers.take(h + 1), sv) =~= found_entries(tid@, ft@.headers.take(h as int), sv).push(
                    (qualified(tid@, ft@.headers[h as int]), cell_at(sv, h as int)),
                ));
                assert(ctx_view(ctx@) =~= ctx_view(x0).push((name@, val@)));
                assert(ctx_view(ctx@) =~= c0 + found_entries(tid@, ft@.headers.take(h + 1), sv));
            }
            h += 1;
        }
        assert(ft@.headers.take(h as int) =~= ft@.headers);
    } else {
        proof {
            assert(!has_text(keys, key@));
        }
        let mut h: usize = 0;
        while h < ft.headers.len()
            invariant
                h <= ft@.headers.len(),
                ctx_view(ctx@) == c0 + absent_entries(c0, tid@, ft@.headers.take(h as int)),
            decreases ft@.headers.len() - h,
        {
            let name = qualify(tid, ft.headers[h].as_str());
            proof {
                assert(ft@.headers.take(h + 1).drop_last() =~= ft@.headers.take(h as int));
                assert(ft@.headers.take(h + 1).last() == ft@.headers[h as int]);
            }
            if !names_holds(ctx, &name) {
                let ghost x0 = ctx@;
                let empty = String::new();
                ctx.push((name, empty));
                proof {
                    assert(ctx@ == x0.push((name, empty)));
                    assert(ctx_view(ctx@) =~= ctx_view(x0).push((name@, Seq::<char>::empty())));
                }
            }
            h += 1;
        }
        assert(ft@.headers.take(h as int) =~= ft@.headers);
    }
}

/// The last join on a table is unique.
proof fn lemma_last_join_unique(joins: Seq<CalcJoin>, tid: Seq<char>, i: int)
    requires
        last_join_at(joins, tid, i),
    ensures
        last_join(joins, tid) == i,
{
    let l = last_join(joins, tid);
    assert(last_join_at(joins, tid, l));
    if l < i {
        assert(joins[i].table_id@ != tid);
    } else if l > i {
        assert(joins[l].table_id@ != tid);
    }
}

/// An evaluation error in a prefix of the rows is the error of all rows.
proof fn lemma_calc_rows_err<K, C, T, E>(
    nums: Numbers<K, C, T, E>,
    ts: Seq<(String, &DataTable)>,
    base_id: Seq<char>,
    joins: Seq<CalcJoin>,
    expr: Seq<char>,
    headers: Seq<Seq<char>>,
    rows: Seq<Seq<Seq<char>>>,
    k: int,
    m: Seq<char>,
) where
    K: Fn(&str) -> Option<String>,
    C: Fn(&str, &str) -> Option<CellOrder>,
    T: Fn(&Vec<String>, Aggregate) -> String,
    E: Fn(&FormulaExpr, &Vec<(String, String)>) -> String,
    requires
        0 <= k <= rows.len(),
        calc_rows(nums, ts, base_id, joins, expr, headers, rows.take(k)) == Err::<Seq<Seq<Seq<char>>>, Seq<char>>(m),
    ensures
        calc_rows(nums, ts, base_id, joins, expr, headers, rows) == Err::<Seq<Seq<Seq<char>>>, Seq<char>>(m),
    decreases rows.len(),
{
    if k == rows.len() {
        assert(rows.take(k) =~= rows);
    } else {
        assert(rows.drop_last().take(k) =~= rows.take(k));
        lemma_calc_rows_err(nums, ts, base_id, joins, expr, headers, rows.drop_last(), k, m);
    }
}

/// Named values for a base row (see `calc_ctx`).
fn build_ctx<K, C, T, E>(
    nums: &Numbers<K, C, T, E>,
    tables: &Vec<(String, &DataTable)>,
    base_id: &str,
    base: &DataTable,
    joins: &[CalcJoin],
    tix: &Vec<usize>,
    lastfk: &Vec<usize>,
    bks: &Vec<usize>,
    row: &Vec<String>,
) -> (ctx: Vec<(String, String)>) where
    K: Fn(&str) -> Option<String>,
    C: Fn(&str, &str) -> Option<CellOrder>,
    T: Fn(&Vec<String>, Aggregate) -> String,
    E: Fn(&FormulaExpr, &Vec<(String, String)>) -> String,
    requires
        nums.wf(),
        tix@.len() == joins@.len(),
        lastfk@.len() == joins@.len(),
        bks@.len() == joins@.len(),
        forall|j: int| 0 <= j < joins@.len() ==> #[trigger] tix@[j] < tables@.len()
            && tables@[tix@[j] as int].1@ == table_named(tables@, joins@[j].table_id@),
        forall|j: int| 0 <= j < joins@.len() ==> #[trigger] lastfk@[j] == position(
            table_named(tables@, joins@[j].table_id@).headers,
            joins@[last_join(joins@, joins@[j].table_id@)].foreign_key@,
        ),
        forall|j: int| 0 <= j < joins@.len() ==> #[trigger] bks@[j] == position(base@.headers, joins@[j].base_key@),
    ensures
        ctx_view(ctx@) == calc_ctx(*nums, tables@, base_id@, joins@, joins@.len(), base@.headers, row.deep_view()),
{
    let ghost hs = base@.headers;
    let ghost rv = row.deep_view();
    let mut ctx: Vec<(String, String)> = Vec::new();
    let mut i: usize = 0;
    while i < base.headers.len()
        invariant
            i <= hs.len(),
            hs == base@.headers,
            rv == row.deep_view(),
            ctx_view(ctx@) == base_entries(base_id@, hs.take(i as int), rv),
        decreases hs.len() - i,
    {
        let val = cell_text(row, i);
        let q = qualify(base_id, base.headers[i].as_str());
        let v1 = val.to_owned();
        let h = base.headers[i].clone();
        let v2 = val.to_owned();
        let ghost x0 = ctx@;
        ctx.push((q, v1));
        ctx.push((h, v2));
        proof {
            assert(ctx@ == x0.push((q, v1)).push((h, v2)));
            assert(hs.take(i + 1).drop_last() =~= hs.take(i as int));
            assert(hs.take(i + 1)[i as int] == hs[i as int]);
            assert(ctx_view(ctx@) =~= ctx_view(x0) + seq![(qualified(base_id@, hs[i as int]), cell_at(rv, i as int)), (hs[i as int], cell_at(rv, i as int))]);
        }
        i += 1;
    }
    assert(hs.take(i as int) =~= hs);
    let mut j: usize = 0;
    while j < joins.len()
        invariant
            j <= joins@.len(),
            nums.wf(),
            hs == base@.headers,
            rv == row.deep_view(),
            tix@.len() == joins@.len(),
            lastfk@.len() == joins@.len(),
            bks@.len() == joins@.len(),
            forall|q: int| 0 <= q < joins@.len() ==> #[trigger] tix@[q] < tables@.len()
                && tables@[tix@[q] as int].1@ == table_named(tables@, joins@[q].table_id@),
            forall|q: int| 0 <= q < joins@.len() ==> #[trigger] lastfk@[q] == position(
                table_named(tables@, joins@[q].table_id@).headers,
                joins@[last_join(joins@, joins@[q].table_id@)].foreign_key@,
            ),
            forall|q: int| 0 <= q < joins@.len() ==> #[trigger] bks@[q] == position(base@.headers, joins@[q].base_key@),
            ctx_view(ctx@) == calc_ctx(*nums, tables@, base_id@, joins@, j as nat, hs, rv),
        decreases joins@.len() - j,
    {
        let ghost prev = ctx_view(ctx@);
        let ti = tix[j];
        let key = cell_text(row, bks[j]);
        proof {
            assert(tix@[j as int] < tables@.len());
            assert(lastfk@[j as int] == position(
                table_named(tables@, joins@[j as int].table_id@).headers,
                joins@[last_join(joins@, joins@[j as int].table_id@)].foreign_key@,
            ));
            assert(bks@[j as int] == position(base@.headers, joins@[j as int].base_key@));
        }
        add_join_entries(nums, &mut ctx, joins[j].table_id.as_str(), tables[ti].1, lastfk[j], key);
        proof {
            assert(ctx_view(ctx@) == prev + join_entries(*nums, tables@, joins@, j as int, prev, hs, rv));
        }
        j += 1;
    }
    ctx
}

/// Adds the column `output_field` to the base table `base_table_id`: for each base row,
/// the value of `formula` (leading `=` optional) over the row's cells (named `[column]`
/// or `[table!column]`) and the cells of each join's matching row (named
/// `[table!column]`). A join matches the first row of its table whose key cell equals
/// the base row's key cell, with each cell replaced by the sum of its column over all
/// rows with that key; without a match the join's names read as empty. Formulas are
/// evaluated by the caller's `evaluate`.
pub fn apply_calculate<K, C, T, E>(
    nums: &Numbers<K, C, T, E>,
    tables: &Vec<(String, &DataTable)>,
    base_table_id: &str,
    output_field: &str,
    formula: &str,
    joins: &[CalcJoin],
) -> (r: Result<DataTable, String>) where
    K: Fn(&str) -> Option<String>,
    C: Fn(&str, &str) -> Option<CellOrder>,
    T: Fn(&Vec<String>, Aggregate) -> String,
    E: Fn(&FormulaExpr, &Vec<(String, String)>) -> String,
    requires
        nums.wf(),
    ensures
        calc_result(*nums, tables@, base_table_id@, output_field@, formula@, joins@) == crate::models::table_result(r),
{
    let ghost ts = tables@;
    let ghost js = joins@;
    let bi = match find_named(tables, base_table_id) {
        Some(i) => i,
        None => {
            let mut e = "找不到基准表「".to_owned();
            e.append(base_table_id);
            e.append("」");
            return Err(e);
        },
    };
    let base: &DataTable = tables[bi].1;
    proof {
        lemma_first_at_unique(ids_of(ts), base_table_id@, bi as int);
        assert(base@ == table_named(ts, base_table_id@));
    }
    // Joined tables and their foreign keys.
    let mut tix: Vec<usize> = Vec::new();
    let mut fks: Vec<usize> = Vec::new();
    assert(js.subrange(0, js.len() as int) =~= js);
    let mut j: usize = 0;
    while j < joins.len()
        invariant
            j <= js.len(),
            ts == tables@,
            js == joins@,
            join_fault(ts, js) == join_fault(ts, js.subrange(j as int, js.len() as int)),
            has_text(ids_of(ts), base_table_id@),
            base@ == table_named(ts, base_table_id@),
            tix@.len() == j,
            fks@.len() == j,
            forall|q: int| 0 <= q < j ==> #[trigger] tix@[q] < ts.len() && ts[tix@[q] as int].1@ == table_named(ts, js[q].table_id@),
            forall|q: int| 0 <= q < j ==> #[trigger] fks@[q] == position(table_named(ts, js[q].table_id@).headers, js[q].foreign_key@)
                && has_text(table_named(ts, js[q].table_id@).headers, js[q].foreign_key@),
        decreases js.len() - j,
    {
        let ghost rest = js.subrange(j as int, js.len() as int);
        assert(rest[0] == js[j as int]);
        assert(rest.drop_first() =~= js.subrange(j + 1, js.len() as int));
        let ti = match find_named(tables, joins[j].table_id.as_str()) {
            Some(i) => i,
            None => {
                let mut e = "关联表不存在: ".to_owned();
                e.append(joins[j].table_id.as_str());
                return Err(e);
            },
        };
        proof {
            lemma_first_at_unique(ids_of(ts), js[j as int].table_id@, ti as int);
        }
        let fk = match tables[ti].1.col_index(joins[j].foreign_key.as_str()) {
            Ok(c) => c,
            Err(e) => {
                return Err(e);
            },
        };
        proof {
            assert(ts[ti as int].1@ == table_named(ts, js[j as int].table_id@));
            lemma_first_at_unique(table_named(ts, js[j as int].table_id@).headers, js[j as int].foreign_key@, fk as int);
        }
        let ghost t0 = tix@;
        let ghost f0 = fks@;
        tix.push(ti);
        fks.push(fk);
        proof {
            assert forall|q: int| 0 <= q < j + 1 implies #[trigger] fks@[q] == position(table_named(ts, js[q].table_id@).headers, js[q].foreign_key@)
                && has_text(table_named(ts, js[q].table_id@).headers, js[q].foreign_key@) by {
                if q < j {
                    assert(fks@[q] == f0[q]);
                } else {
                    assert(table_named(ts, js[q].table_id@).headers[fk as int] == js[q].foreign_key@);
                }
            }
            assert forall|q: int| 0 <= q < j + 1 implies #[trigger] tix@[q] < ts.len() && ts[tix@[q] as int].1@ == table_named(ts, js[q].table_id@) by {
                if q < j {
                    assert(tix@[q] == t0[q]);
                }
            }
        }
        j += 1;
    }
    assert(js.subrange(js.len() as int, js.len() as int).len() == 0);
    let expr = formula_expr(formula);
    if expr.as_str().is_empty() {
        return Err("计算公式不能为空".to_owned());
    }
    let mut headers = copy_texts(&base.headers);
    let ghost h0 = headers;
    let of = output_field.to_owned();
    headers.push(of);
    proof {
        lemma_dv_push(h0, headers, of);
    }
    if base.rows.len() == 0 {
        assert(calc_rows(*nums, ts, base_table_id@, js, expr@, base@.headers, base@.rows) == Ok::<Seq<Seq<Seq<char>>>, Seq<char>>(Seq::empty()));
        assert(join_fault(ts, js) is None);
        assert(expr@ == formula_body(formula@));
        assert(headers.deep_view() == base@.headers.push(output_field@));
        let res = DataTable { headers, rows: Vec::new(), header_groups: Vec::new() };
        assert(res@.rows =~= Seq::<Seq<Seq<char>>>::empty());
        assert(res@ == TableView { headers: base@.headers.push(output_field@), rows: Seq::empty(), groups: Seq::empty() });
        assert(formula_body(formula@).len() != 0);
        return Ok(res);
    }
    // Base key columns.
    let mut bks: Vec<usize> = Vec::new();
    let mut j: usize = 0;
    while j < joins.len()
        invariant
            j <= js.len(),
            js == joins@,
            base_key_fault(base@.headers, js) == base_key_fault(base@.headers, js.subrange(j as int, js.len() as int)),
            ts == tables@,
            has_text(ids_of(ts), base_table_id@),
            base@ == table_named(ts, base_table_id@),
            join_fault(ts, js) is None,
            expr@ == formula_body(formula@),
            expr@.len() > 0,
            base@.rows.len() > 0,
            bks@.len() == j,
            forall|q: int| 0 <= q < j ==> #[trigger] bks@[q] == position(base@.headers, js[q].base_key@),
        decreases js.len() - j,
    {
        let ghost rest = js.subrange(j as int, js.len() as int);
        assert(rest[0] == js[j as int]);
        assert(rest.drop_first() =~= js.subrange(j + 1, js.len() as int));
        let c = match base.col_index(joins[j].base_key.as_str()) {
            Ok(c) => c,
            Err(e) => {
                proof {
                    assert(base_key_fault(base@.headers, rest) == Some(e@));
                    assert(base_key_fault(base@.headers, js) == Some(e@));
                    assert(table_named(ts, base_table_id@).rows.len() > 0);
                    assert(table_named(ts, base_table_id@).headers == base@.headers);
                    assert(formula_body(formula@).len() != 0);
                    assert(calc_result(*nums, ts, base_table_id@, output_field@, formula@, js) == Err::<TableView, Seq<char>>(e@));
                }
                return Err(e);
            },
        };
        proof {
            lemma_first_at_unique(base@.headers, js[j as int].base_key@, c as int);
        }
        bks.push(c);
        j += 1;
    }
    assert(js.subrange(js.len() as int, js.len() as int).len() == 0);
    // Foreign key of the last join on each join's table.
    let mut lastfk: Vec<usize> = Vec::new();
    let mut j: usize = 0;
    while j < joins.len()
        invariant
            j <= js.len(),
            js == joins@,
            fks@.len() == js.len(),
            forall|q: int| 0 <= q < js.len() ==> #[trigger] fks@[q] == position(table_named(ts, js[q].table_id@).headers, js[q].foreign_key@),
            lastfk@.len() == j,
            forall|q: int| 0 <= q < j ==> #[trigger] lastfk@[q] == position(
                table_named(ts, js[q].table_id@).headers,
                js[last_join(js, js[q].table_id@)].foreign_key@,
            ),
        decreases js.len() - j,
    {
        let ghost tid = js[j as int].table_id@;
        let mut k: usize = joins.len();
        let mut hit = false;
        while k > 0 && !hit
            invariant
                k <= js.len(),
                j < js.len(),
                js == joins@,
                tid == js[j as int].table_id@,
                forall|q: int| k <= q < js.len() ==> js[q].table_id@ != tid,
                hit ==> k > 0 && js[k - 1].table_id@ == tid,
                !hit ==> k > j,
            decreases k + (if hit { 0int } else { 1int }),
        {
            if same_text(joins[k - 1].table_id.as_str(), joins[j].table_id.as_str()) {
                hit = true;
            } else {
                k -= 1;
            }
        }
        if !hit {
            assert(false);
        }
        proof {
            assert(last_join_at(js, tid, k - 1));
            lemma_last_join_unique(js, tid, k - 1);
        }
        lastfk.push(fks[k - 1]);
        j += 1;
    }
    // Rows.
    let mut rows: Vec<Vec<String>> = Vec::new();
    assert(base@.rows.take(0) =~= Seq::<Seq<Seq<char>>>::empty());
    assert(rows.deep_view() =~= Seq::<Seq<Seq<char>>>::empty());
    assert(base_key_fault(base@.headers, js) is None);
    let mut i: usize = 0;
    while i < base.rows.len()
        invariant
            i <= base@.rows.len(),
            nums.wf(),
            ts == tables@,
            js == joins@,
            base@ == table_named(ts, base_table_id@),
            tix@.len() == js.len(),
            lastfk@.len() == js.len(),
            bks@.len() == js.len(),
            forall|q: int| 0 <= q < js.len() ==> #[trigger] tix@[q] < ts.len() && ts[tix@[q] as int].1@ == table_named(ts, js[q].table_id@),
            forall|q: int| 0 <= q < js.len() ==> #[trigger] lastfk@[q] == position(
                table_named(ts, js[q].table_id@).headers,
                js[last_join(js, js[q].table_id@)].foreign_key@,
            ),
            forall|q: int| 0 <= q < js.len() ==> #[trigger] bks@[q] == position(base@.headers, js[q].base_key@),
            calc_rows(*nums, ts, base_table_id@, js, expr@, base@.headers, base@.rows.take(i as int)) == Ok::<Seq<Seq<Seq<char>>>, Seq<char>>(rows.deep_view()),
            has_text(ids_of(ts), base_table_id@),
            join_fault(ts, js) is None,
            expr@ == formula_body(formula@),
            expr@.len() > 0,
            base_key_fault(base@.headers, js) is None,
            headers.deep_view() == base@.headers.push(output_field@),
        decreases base@.rows.len() - i,
    {
        let row = &base.rows[i];
        let ctx = build_ctx(nums, tables, base_table_id, base, joins, &tix, &lastfk, &bks, row);
        let ghost rv = base@.rows;
        proof {
            assert(rv.take(i + 1).drop_last() =~= rv.take(i as int));
            assert(rv.take(i + 1).last() == row.deep_view());
        }
        match nums.eval(expr.as_str(), &ctx) {
            Ok(v) => {
                let mut out = copy_texts(row);
                let ghost o0 = out;
                out.push(v);
                proof {
                    lemma_dv_push(o0, out, v);
                }
                let ghost r0 = rows;
                rows.push(out);
                proof {
                    lemma_dv_push(r0, rows, out);
                }
            },
            Err(e) => {
                let mut m = "公式计算失败（行键相关）: ".to_owned();
                m.append(e.as_str());
                proof {
                    lemma_calc_rows_err(*nums, ts, base_table_id@, js, expr@, base@.headers, rv, i + 1, m@);
                }
                return Err(m);
            },
        }
        i += 1;
    }
    assert(base@.rows.take(i as int) =~= base@.rows);
    Ok(DataTable { headers, rows, header_groups: Vec::new() })
}

/// Formula of a lookup-subtract: the base value minus the joined value.
pub open spec fn subtract_formula(left_value_field: Seq<char>, right_value_field: Seq<char>) -> Seq<char> {
    "=[BASE!"@ + left_value_field + "]-[RIGHT!"@ + right_value_field + "]"@
}

/// The tables `BASE` (`left`) and `RIGHT` (`right`), and the one join of `RIGHT` on
/// `left_key` = `right_key`, of a lookup-subtract.
pub open spec fn subtract_inputs(
    ts: Seq<(String, &DataTable)>,
    js: Seq<CalcJoin>,
    left: TableView,
    right: TableView,
    left_key: Seq<char>,
    right_key: Seq<char>,
) -> bool {
    &&& ts.len() == 2
    &&& ts[0].0@ == "BASE"@ && ts[0].1@ == left
    &&& ts[1].0@ == "RIGHT"@ && ts[1].1@ == right
    &&& js.len() == 1
    &&& js[0].table_id@ == "RIGHT"@ && js[0].base_key@ == left_key && js[0].foreign_key@ == right_key
}

/// What a lookup-subtract gives.
pub open spec fn subtract_outcome<K, C, T, E>(
    nums: Numbers<K, C, T, E>,
    left: TableView,
    right: TableView,
    left_key: Seq<char>,
    right_key: Seq<char>,
    left_value_field: Seq<char>,
    right_value_field: Seq<char>,
    output_field: Seq<char>,
    res: Result<TableView, Seq<char>>,
) -> bool where
    K: Fn(&str) -> Option<String>,
    C: Fn(&str, &str) -> Option<CellOrder>,
    T: Fn(&Vec<String>, Aggregate) -> String,
    E: Fn(&FormulaExpr, &Vec<(String, String)>) -> String,
 {
    exists|ts: Seq<(String, &DataTable)>, js: Seq<CalcJoin>|
        #[trigger] subtract_inputs(ts, js, left, right, left_key, right_key)
            && calc_result(nums, ts, "BASE"@, output_field, subtract_formula(left_value_field, right_value_field), js) == res
}

/// For each row of `left`, the `left_value_field` cell minus the `right_value_field`
/// cell of the row of `right` whose `right_key` matches its `left_key` (see
/// `apply_calculate`), in the new column `output_field`.
pub fn apply_lookup_subtract<K, C, T, E>(
    nums: &Numbers<K, C, T, E>,
    left: &DataTable,
    right: &DataTable,
    left_key: &str,
    right_key: &str,
    left_value_field: &str,
    right_value_field: &str,
    output_field: &str,
) -> (r: Result<DataTable, String>) where
    K: Fn(&str) -> Option<String>,
    C: Fn(&str, &str) -> Option<CellOrder>,
    T: Fn(&Vec<String>, Aggregate) -> String,
    E: Fn(&FormulaExpr, &Vec<(String, String)>) -> String,
    requires
        nums.wf(),
    ensures
        subtract_outcome(*nums, left@, right@, left_key@, right_key@, left_value_field@, right_value_field@, output_field@, crate::models::table_result(r)),
{
    let mut formula = "=[BASE!".to_owned();
    formula.append(left_value_field);
    formula.append("]-[RIGHT!");
    formula.append(right_value_field);
    formula.append("]");
    let join = CalcJoin { table_id: "RIGHT".to_owned(), base_key: left_key.to_owned(), foreign_key: right_key.to_owned() };
    let mut joins: Vec<CalcJoin> = Vec::new();
    joins.push(join);
    let mut tables: Vec<(String, &DataTable)> = Vec::new();
    tables.push(("BASE".to_owned(), left));
    tables.push(("RIGHT".to_owned(), right));
    let r = apply_calculate(nums, &tables, "BASE", output_field, formula.as_str(), joins.as_slice());
    assert(subtract_inputs(tables@, joins@, left@, right@, left_key@, right_key@));
    r
}

} // verus!
