//! Step operations on tables.
use vstd::prelude::*;
use crate::formula::FormulaExpr;
use crate::models::{
    blanks, copy_texts, extend_texts, find_named, first_at, has_text, ids_of, lemma_dv_push,
    lemma_first_at_unique, missing_column_message, position, push_blanks, table_named, DataTable, first_of,
    SideColumn, TableView,
};
use crate::text::{blank, chars_of, chars_range, find_char, find_char_from, lemma_find_char_range, trim, trimmed_chars, decimal, is_blank, lemma_decimal_injective, lemma_decimal_len, lemma_pigeonhole, push_decimal};
use crate::excel_io::{
    all_present, cell_at, cell_text, first_missing_at, first_missing_message,
    lemma_first_missing_unique, match_key, match_key_spec, numeric_key_spec, safe_numeric_key,
};
use crate::numbers::{opt_view, Aggregate, CellOrder, Numbers};
use crate::text::trimmed;
pub use crate::sort::apply_sort;
pub use crate::dedupe::apply_dedupe;
pub use crate::pivot::apply_pivot;
pub use crate::calculate::{apply_calculate, apply_lookup_subtract};

verus! {

/// Views of a list of tables.
pub open spec fn views(ts: Seq<&DataTable>) -> Seq<TableView> {
    ts.map_values(|t: &DataTable| t@)
}

/// Headers of tables placed side by side, one empty header between neighbours.
pub open spec fn side_headers(ts: Seq<TableView>) -> Seq<Seq<char>>
    decreases ts.len(),
{
    if ts.len() == 0 {
        Seq::empty()
    } else if ts.len() == 1 {
        ts[0].headers
    } else {
        side_headers(ts.drop_last()).push(Seq::empty()) + ts.last().headers
    }
}

/// Row `r` of a table, or empty cells for each header past its last row.
pub open spec fn row_or_blanks(t: TableView, r: int) -> Seq<Seq<char>> {
    if r < t.rows.len() {
        t.rows[r]
    } else {
        blanks(t.headers.len())
    }
}

/// Row `r` of tables placed side by side.
pub open spec fn side_row(ts: Seq<TableView>, r: int) -> Seq<Seq<char>>
    decreases ts.len(),
{
    if ts.len() == 0 {
        Seq::empty()
    } else if ts.len() == 1 {
        row_or_blanks(ts[0], r)
    } else {
        side_row(ts.drop_last(), r).push(Seq::empty()) + row_or_blanks(ts.last(), r)
    }
}

/// The largest row count.
pub open spec fn max_rows(ts: Seq<TableView>) -> nat
    decreases ts.len(),
{
    if ts.len() == 0 {
        0
    } else {
        let m = max_rows(ts.drop_last());
        if ts.last().rows.len() > m { ts.last().rows.len() } else { m }
    }
}

proof fn lemma_views_take(ts: Seq<&DataTable>, i: int)
    requires
        0 <= i < ts.len(),
    ensures
        views(ts.take(i + 1)).drop_last() == views(ts.take(i)),
        views(ts.take(i + 1)).last() == ts[i]@,
        views(ts.take(i + 1)).len() == i + 1,
{
    assert(views(ts.take(i + 1)).drop_last() =~= views(ts.take(i)));
}

/// What placing `ts` side by side gives.
pub open spec fn side_outcome(ts: Seq<TableView>, res: Result<TableView, Seq<char>>) -> bool {
    match res {
        Ok(out) => {
            &&& ts.len() > 0
            &&& out.headers == side_headers(ts)
            &&& out.rows.len() == max_rows(ts)
            &&& forall|i: int| 0 <= i < out.rows.len() ==> #[trigger] out.rows[i] == side_row(ts, i)
            &&& out.groups.len() == 0
        },
        Err(e) => ts.len() == 0 && e == "并排输出至少需要一张表"@,
    }
}

/// A side-by-side row is as long as the side-by-side headers when every table's rows are
/// as long as its headers.
proof fn lemma_side_row_len(ts: Seq<TableView>, r: int)
    requires
        r >= 0,
        forall|i: int, j: int| 0 <= i < ts.len() && 0 <= j < ts[i].rows.len() ==> (#[trigger] ts[i].rows[j]).len() == ts[i].headers.len(),
    ensures
        side_row(ts, r).len() == side_headers(ts).len(),
    decreases ts.len(),
{
    if ts.len() > 1 {
        lemma_side_row_len(ts.drop_last(), r);
        assert(ts.last() == ts[ts.len() - 1]);
    } else if ts.len() == 1 {
        assert(ts[0] == ts[0]);
    }
}

/// Side-by-side law: placing tables side by side fails exactly when there is none; the
/// tables stand in order with one empty column between neighbours, there are as many
/// rows as the longest table has, and, when each table's rows are as long as its headers,
/// every row is as long as the headers (a table past its last row gives empty cells).
pub proof fn lemma_side_layout(ts: Seq<TableView>, res: Result<TableView, Seq<char>>)
    requires
        side_outcome(ts, res),
    ensures
        res is Err <==> ts.len() == 0,
        res matches Ok(out) ==> out.headers == side_headers(ts) && out.rows.len() == max_rows(ts)
            && forall|r: int| 0 <= r < out.rows.len() ==> #[trigger] out.rows[r] == side_row(ts, r),
        (forall|i: int, j: int| 0 <= i < ts.len() && 0 <= j < ts[i].rows.len() ==> (#[trigger] ts[i].rows[j]).len() == ts[i].headers.len())
            ==> (res matches Ok(out) ==> forall|r: int| 0 <= r < out.rows.len() ==> (#[trigger] out.rows[r]).len() == out.headers.len()),
{
    if res is Ok {
        let out = res->Ok_0;
        if forall|i: int, j: int| 0 <= i < ts.len() && 0 <= j < ts[i].rows.len() ==> (#[trigger] ts[i].rows[j]).len() == ts[i].headers.len() {
            assert forall|r: int| 0 <= r < out.rows.len() implies (#[trigger] out.rows[r]).len() == out.headers.len() by {
                lemma_side_row_len(ts, r);
            }
        }
    }
}

/// Tables placed side by side, row-aligned, separated by an empty column.
pub fn apply_side_by_side(tables: &[&DataTable]) -> (r: Result<DataTable, String>)
    ensures
        side_outcome(views(tables@), crate::models::table_result(r)),
{
    if tables.len() == 0 {
        return Err("并排输出至少需要一张表".to_owned());
    }
    let ghost vs = views(tables@);
    let mut headers: Vec<String> = Vec::new();
    let mut max: usize = 0;
    let mut i: usize = 0;
    while i < tables.len()
        invariant
            i <= tables@.len(),
            vs == views(tables@),
            headers.deep_view() == side_headers(views(tables@.take(i as int))),
            max == max_rows(views(tables@.take(i as int))),
        decreases tables@.len() - i,
    {
        proof {
            lemma_views_take(tables@, i as int);
        }
        if i > 0 {
            let ghost before = headers;
            let e = String::new();
            headers.push(e);
            proof {
                lemma_dv_push(before, headers, e);
            }
        }
        extend_texts(&mut headers, &tables[i].headers);
        if tables[i].rows.len() > max {
            max = tables[i].rows.len();
        }
        proof {
            if i == 0 {
                assert(headers.deep_view() =~= side_headers(views(tables@.take(1))));
            }
        }
        i += 1;
    }
    assert(tables@.take(tables@.len() as int) =~= tables@);
    let mut rows: Vec<Vec<String>> = Vec::new();
    let mut r: usize = 0;
    while r < max
        invariant
            r <= max,
            vs == views(tables@),
            max == max_rows(vs),
            rows@.len() == r,
            forall|k: int| 0 <= k < r ==> #[trigger] rows.deep_view()[k] == side_row(vs, k),
        decreases max - r,
    {
        let mut row: Vec<String> = Vec::new();
        let mut i: usize = 0;
        while i < tables.len()
            invariant
                i <= tables@.len(),
                row.deep_view() == side_row(views(tables@.take(i as int)), r as int),
            decreases tables@.len() - i,
        {
            proof {
                lemma_views_take(tables@, i as int);
            }
            if i > 0 {
                let ghost before = row;
                let e = String::new();
                row.push(e);
                proof {
                    lemma_dv_push(before, row, e);
                }
            }
            let t = tables[i];
            if r < t.rows.len() {
                extend_texts(&mut row, &t.rows[r]);
            } else {
                push_blanks(&mut row, t.headers.len());
            }
            proof {
                if i == 0 {
                    assert(row.deep_view() =~= side_row(views(tables@.take(1)), r as int));
                }
            }
            i += 1;
        }
        let ghost before = rows;
        rows.push(row);
        proof {
            lemma_dv_push(before, rows, row);
            assert(tables@.take(tables@.len() as int) =~= tables@);
        }
        r += 1;
    }
    Ok(DataTable { headers, rows, header_groups: Vec::new() })
}

/// Why a picked column cannot be placed, if it cannot.
pub open spec fn column_fault(ts: Seq<(String, &DataTable)>, c: SideColumn) -> Option<Seq<char>> {
    if is_blank(c.column@) {
        None
    } else if is_blank(c.table_id@) {
        Some("列未指定来源表"@)
    } else if !has_text(ids_of(ts), c.table_id@) {
        Some("找不到表「"@ + c.table_id@ + "」"@)
    } else if !has_text(table_named(ts, c.table_id@).headers, c.column@) {
        Some(missing_column_message(table_named(ts, c.table_id@).headers, c.column@))
    } else {
        None
    }
}

/// `k` is the first picked column that cannot be placed.
pub open spec fn first_fault_at(ts: Seq<(String, &DataTable)>, cols: Seq<SideColumn>, k: int) -> bool {
    &&& 0 <= k < cols.len()
    &&& column_fault(ts, cols[k]) is Some
    &&& forall|j: int| 0 <= j < k ==> column_fault(ts, #[trigger] cols[j]) is None
}

/// Row count of a picked column's table (none for a spacer).
pub open spec fn picked_rows(ts: Seq<(String, &DataTable)>, c: SideColumn) -> nat {
    if is_blank(c.column@) { 0 } else { table_named(ts, c.table_id@).rows.len() }
}

pub open spec fn max_picked_rows(ts: Seq<(String, &DataTable)>, cols: Seq<SideColumn>) -> nat
    decreases cols.len(),
{
    if cols.len() == 0 {
        0
    } else {
        let m = max_picked_rows(ts, cols.drop_last());
        if picked_rows(ts, cols.last()) > m { picked_rows(ts, cols.last()) } else { m }
    }
}

/// Header of a picked column (empty for a spacer).
pub open spec fn picked_header(c: SideColumn) -> Seq<char> {
    if is_blank(c.column@) { Seq::empty() } else { c.column@ }
}

/// Cell `r` of a picked column (empty for a spacer or past the table's last row).
pub open spec fn picked_cell(ts: Seq<(String, &DataTable)>, c: SideColumn, r: int) -> Seq<char> {
    if is_blank(c.column@) {
        Seq::empty()
    } else {
        let t = table_named(ts, c.table_id@);
        if r < t.rows.len() { cell_at(t.rows[r], position(t.headers, c.column@)) } else { Seq::empty() }
    }
}

/// What picking `columns` from `tables` gives.
pub open spec fn side_columns_outcome(tables: Seq<(String, &DataTable)>, columns: Seq<SideColumn>, res: Result<TableView, Seq<char>>) -> bool {
    match res {
        Ok(out) => {
            &&& columns.len() > 0
            &&& forall|j: int| 0 <= j < columns.len() ==> column_fault(tables, #[trigger] columns[j]) is None
            &&& out.headers == columns.map_values(|c: SideColumn| picked_header(c))
            &&& out.rows.len() == max_picked_rows(tables, columns)
            &&& forall|i: int| 0 <= i < out.rows.len() ==> #[trigger] out.rows[i] == columns.map_values(
                |c: SideColumn| picked_cell(tables, c, i),
            )
            &&& out.groups.len() == 0
        },
        Err(e) => {
            ||| columns.len() == 0 && e == "请至少选择一列（或插入空列）"@
            ||| exists|k: int| first_fault_at(tables, columns, k) && e == column_fault(tables, columns[k])->0
        },
    }
}

/// Side-by-side-by-column law: with no column it fails; otherwise, when it succeeds, each
/// picked column gives one column, headed by its name (empty for a spacer), there are as
/// many rows as the longest table picked from has, and each cell is the picked column's
/// cell in that row (empty for a spacer or past the table's last row).
pub proof fn lemma_side_columns_layout(tables: Seq<(String, &DataTable)>, columns: Seq<SideColumn>, res: Result<TableView, Seq<char>>)
    requires
        side_columns_outcome(tables, columns, res),
    ensures
        columns.len() == 0 ==> res == Err::<TableView, Seq<char>>("请至少选择一列（或插入空列）"@),
        res matches Ok(out) ==> {
            &&& out.headers.len() == columns.len()
            &&& forall|c: int| 0 <= c < columns.len() ==> #[trigger] out.headers[c] == (if is_blank(columns[c].column@) { Seq::empty() } else { columns[c].column@ })
            &&& out.rows.len() == max_picked_rows(tables, columns)
            &&& forall|r: int, c: int| 0 <= r < out.rows.len() && 0 <= c < columns.len() ==> (#[trigger] out.rows[r][c]) == picked_cell(tables, columns[c], r)
                && out.rows[r].len() == columns.len()
        },
{
    if columns.len() == 0 && res is Err {
        let e = res->Err_0;
        if exists|k: int| first_fault_at(tables, columns, k) && e == column_fault(tables, columns[k])->0 {
            let k = choose|k: int| first_fault_at(tables, columns, k) && e == column_fault(tables, columns[k])->0;
            assert(false);
        }
    }
}

/// A table built from picked columns (empty `column` = spacer), row-aligned by index.
pub fn apply_side_by_side_columns(tables: &Vec<(String, &DataTable)>, columns: &[SideColumn]) -> (r: Result<DataTable, String>)
    ensures
        side_columns_outcome(tables@, columns@, crate::models::table_result(r)),
{
    if columns.len() == 0 {
        return Err("请至少选择一列（或插入空列）".to_owned());
    }
    // (table position, column index) per picked column; spacers hold `None`.
    let mut resolved: Vec<Option<(usize, usize)>> = Vec::new();
    let mut max: usize = 0;
    let mut k: usize = 0;
    while k < columns.len()
        invariant
            k <= columns@.len(),
            resolved@.len() == k,
            max == max_picked_rows(tables@, columns@.take(k as int)),
            forall|j: int| 0 <= j < k ==> column_fault(tables@, #[trigger] columns@[j]) is None,
            forall|j: int| 0 <= j < k ==> match #[trigger] resolved@[j] {
                None => is_blank(columns@[j].column@),
                Some((t, c)) => !is_blank(columns@[j].column@)
                    && first_at(ids_of(tables@), columns@[j].table_id@, t as int)
                    && t < tables@.len()
                    && c == position(table_named(tables@, columns@[j].table_id@).headers, columns@[j].column@),
            },
        decreases columns@.len() - k,
    {
        let c = &columns[k];
        proof {
            assert(columns@.take(k + 1).drop_last() =~= columns@.take(k as int));
        }
        if blank(c.column.as_str()) {
            resolved.push(None);
        } else {
            if blank(c.table_id.as_str()) {
                proof {
                    assert(first_fault_at(tables@, columns@, k as int));
                }
                return Err("列未指定来源表".to_owned());
            }
            match find_named(tables, c.table_id.as_str()) {
                None => {
                    let mut e = "找不到表「".to_owned();
                    e.append(c.table_id.as_str());
                    e.append("」");
                    proof {
                        assert(first_fault_at(tables@, columns@, k as int));
                    }
                    return Err(e);
                },
                Some(t) => {
                    proof {
                        lemma_first_at_unique(ids_of(tables@), c.table_id@, t as int);
                    }
                    let table = tables[t].1;
                    match table.col_index(c.column.as_str()) {
                        Err(e) => {
                            proof {
                                assert(first_fault_at(tables@, columns@, k as int));
                            }
                            return Err(e);
                        },
                        Ok(i) => {
                            proof {
                                lemma_first_at_unique(table@.headers, c.column@, i as int);
                            }
                            if table.rows.len() > max {
                                max = table.rows.len();
                            }
                            resolved.push(Some((t, i)));
                        },
                    }
                },
            }
        }
        k += 1;
    }
    assert(columns@.take(columns@.len() as int) =~= columns@);
    let mut headers: Vec<String> = Vec::new();
    let mut k: usize = 0;
    while k < columns.len()
        invariant
            k <= columns@.len(),
            resolved@.len() == columns@.len(),
            forall|j: int| 0 <= j < columns@.len() ==> match #[trigger] resolved@[j] {
                None => is_blank(columns@[j].column@),
                Some((t, c)) => !is_blank(columns@[j].column@),
            },
            headers.deep_view() == columns@.take(k as int).map_values(|c: SideColumn| picked_header(c)),
        decreases columns@.len() - k,
    {
        let ghost before = headers;
        let h = match &resolved[k] {
            None => String::new(),
            Some(_) => columns[k].column.clone(),
        };
        headers.push(h);
        proof {
            lemma_dv_push(before, headers, h);
            assert(headers.deep_view() =~= columns@.take(k + 1).map_values(|c: SideColumn| picked_header(c)));
        }
        k += 1;
    }
    let mut rows: Vec<Vec<String>> = Vec::new();
    let mut r: usize = 0;
    while r < max
        invariant
            r <= max,
            max == max_picked_rows(tables@, columns@),
            resolved@.len() == columns@.len(),
            forall|j: int| 0 <= j < columns@.len() ==> match #[trigger] resolved@[j] {
                None => is_blank(columns@[j].column@),
                Some((t, c)) => !is_blank(columns@[j].column@)
                    && first_at(ids_of(tables@), columns@[j].table_id@, t as int)
                    && t < tables@.len()
                    && c == position(table_named(tables@, columns@[j].table_id@).headers, columns@[j].column@),
            },
            rows@.len() == r,
            forall|i: int| 0 <= i < r ==> #[trigger] rows.deep_view()[i] == columns@.map_values(
                |c: SideColumn| picked_cell(tables@, c, i),
            ),
        decreases max - r,
    {
        let mut row: Vec<String> = Vec::new();
        let mut k: usize = 0;
        while k < columns.len()
            invariant
                k <= columns@.len(),
                resolved@.len() == columns@.len(),
                forall|j: int| 0 <= j < columns@.len() ==> match #[trigger] resolved@[j] {
                    None => is_blank(columns@[j].column@),
                    Some((t, c)) => !is_blank(columns@[j].column@)
                        && first_at(ids_of(tables@), columns@[j].table_id@, t as int)
                        && t < tables@.len()
                        && c == position(table_named(tables@, columns@[j].table_id@).headers, columns@[j].column@),
                },
                row.deep_view() == columns@.take(k as int).map_values(|c: SideColumn| picked_cell(tables@, c, r as int)),
            decreases columns@.len() - k,
        {
            let ghost before = row;
            let cell = match &resolved[k] {
                None => String::new(),
                Some((t, i)) => {
                    let table = tables[*t].1;
                    proof {
                        assert(ids_of(tables@)[*t as int] == tables@[*t as int].0@);
                        lemma_first_at_unique(ids_of(tables@), columns@[k as int].table_id@, *t as int);
                    }
                    if r < table.rows.len() {
                        cell_text(&table.rows[r], *i).to_owned()
                    } else {
                        String::new()
                    }
                },
            };
            row.push(cell);
            proof {
                lemma_dv_push(before, row, cell);
                assert(row.deep_view() =~= columns@.take(k + 1).map_values(|c: SideColumn| picked_cell(tables@, c, r as int)));
            }
            k += 1;
        }
        let ghost before = rows;
        rows.push(row);
        proof {
            lemma_dv_push(before, rows, row);
            assert(columns@.take(columns@.len() as int) =~= columns@);
        }
        r += 1;
    }
    assert(columns@.take(columns@.len() as int) =~= columns@);
    Ok(DataTable { headers, rows, header_groups: Vec::new() })
}

/// The `n`-th name tried for a header that clashes: `name`, `name_B`, `name_B2`, `name_B3`, ...
pub open spec fn clash_candidate(name: Seq<char>, n: int) -> Seq<char> {
    if n <= 0 {
        name
    } else if n == 1 {
        name + "_B"@
    } else {
        name + "_B"@ + decimal(n as nat)
    }
}

proof fn lemma_clash_candidates_distinct(name: Seq<char>, a: int, b: int)
    requires
        0 <= a < b,
    ensures
        clash_candidate(name, a) != clash_candidate(name, b),
{
    reveal_strlit("_B");
    lemma_decimal_len(b as nat);
    if a == 0 {
        assert(clash_candidate(name, a).len() < clash_candidate(name, b).len());
    } else if a == 1 {
        assert(clash_candidate(name, a).len() < clash_candidate(name, b).len());
    } else {
        let p = name + "_B"@;
        if clash_candidate(name, a) == clash_candidate(name, b) {
            assert(decimal(a as nat) =~= clash_candidate(name, a).subrange(p.len() as int, clash_candidate(name, a).len() as int));
            assert(decimal(b as nat) =~= clash_candidate(name, b).subrange(p.len() as int, clash_candidate(name, b).len() as int));
            lemma_decimal_injective(a as nat, b as nat);
        }
    }
}

/// `n` is the first candidate for `name` that `existing` lacks.
pub open spec fn fresh_at(existing: Seq<Seq<char>>, name: Seq<char>, n: int) -> bool {
    &&& 0 <= n
    &&& !has_text(existing, clash_candidate(name, n))
    &&& forall|m: int| 0 <= m < n ==> has_text(existing, #[trigger] clash_candidate(name, m))
}

/// The header given to `name` next to `existing` headers.
pub open spec fn fresh_header(existing: Seq<Seq<char>>, name: Seq<char>) -> Seq<char> {
    clash_candidate(name, choose|n: int| fresh_at(existing, name, n))
}

pub proof fn lemma_fresh_header(existing: Seq<Seq<char>>, name: Seq<char>, n: int)
    requires
        fresh_at(existing, name, n),
    ensures
        fresh_header(existing, name) == clash_candidate(name, n),
{
    let c = choose|c: int| fresh_at(existing, name, c);
    assert(fresh_at(existing, name, c));
    if c < n {
        assert(has_text(existing, clash_candidate(name, c)));
    } else if c > n {
        assert(has_text(existing, clash_candidate(name, n)));
    }
}

/// A header for `name` that `existing` lacks: `name` itself, else the first free of
/// `name_B`, `name_B2`, `name_B3`, ...
pub fn unique_header(existing: &Vec<String>, name: &str) -> (r: String)
    ensures
        !has_text(existing.deep_view(), r@),
        r@ == fresh_header(existing.deep_view(), name@),
{
    let ghost xs = existing.deep_view();
    let ghost f = |k: int| clash_candidate(name@, k);
    assert(xs.len() == existing.len());
    if crate::models::find_text(existing, name).is_none() {
        proof {
            lemma_fresh_header(xs, name@, 0);
        }
        return name.to_owned();
    }
    let mut candidate = name.to_owned();
    candidate.append("_B");
    if crate::models::find_text(existing, candidate.as_str()).is_none() {
        assert(clash_candidate(name@, 1) == candidate@);
        assert(forall|m: int| 0 <= m < 1 ==> has_text(xs, #[trigger] clash_candidate(name@, m)));
        proof {
            lemma_fresh_header(xs, name@, 1);
        }
        return candidate;
    }
    let mut n: usize = 2;
    loop
        invariant
            2 <= n,
            n <= xs.len() + 1,
            xs == existing.deep_view(),
            xs.len() == existing.len(),
            f == (|k: int| clash_candidate(name@, k)),
            forall|m: int| 0 <= m < n ==> has_text(xs, #[trigger] clash_candidate(name@, m)),
        decreases xs.len() + 1 - n,
    {
        let mut c = name.to_owned();
        c.append("_B");
        push_decimal(&mut c, n);
        assert(c@ == clash_candidate(name@, n as int));
        if crate::models::find_text(existing, c.as_str()).is_none() {
            proof {
                lemma_fresh_header(xs, name@, n as int);
            }
            return c;
        }
        proof {
            assert forall|a: int, b: int| 0 <= a < b < n + 1 implies #[trigger] f(a) != #[trigger] f(b) by {
                lemma_clash_candidates_distinct(name@, a, b);
            }
            if n + 1 > xs.len() {
                lemma_pigeonhole(xs, f, n + 1);
                let k = choose|k: int| 0 <= k < n + 1 && !xs.contains(#[trigger] f(k));
                assert(has_text(xs, clash_candidate(name@, k)));
            }
        }
        n += 1;
    }
}


/// Business keys tried first when guessing a join.
pub open spec fn preferred_keys() -> Seq<Seq<char>> {
    seq!["业务员代码"@, "业务员编码"@, "人员代码"@, "工号"@, "代码"@, "编号"@, "ID"@, "id"@, "Id"@]
}

/// `x` is a header of both tables.
pub open spec fn shared(base: Seq<Seq<char>>, foreign: Seq<Seq<char>>, x: Seq<char>) -> bool {
    has_text(base, x) && has_text(foreign, x)
}

/// `base[i]` is a non-blank header that `foreign` has too.
pub open spec fn common_at(base: Seq<Seq<char>>, foreign: Seq<Seq<char>>, i: int) -> bool {
    0 <= i < base.len() && !is_blank(base[i]) && has_text(foreign, base[i])
}

/// The join key guessed for two header lists: the first preferred key both have,
/// else the first non-blank base header that the foreign headers have.
pub open spec fn guessed_key(base: Seq<Seq<char>>, foreign: Seq<Seq<char>>) -> Option<Seq<char>> {
    if exists|k: int| 0 <= k < 9 && shared(base, foreign, #[trigger] preferred_keys()[k]) {
        let k = choose|k: int|
            0 <= k < 9 && shared(base, foreign, #[trigger] preferred_keys()[k])
            && forall|j: int| 0 <= j < k ==> !shared(base, foreign, #[trigger] preferred_keys()[j]);
        Some(preferred_keys()[k])
    } else if exists|i: int| common_at(base, foreign, i) {
        let i = choose|i: int| common_at(base, foreign, i) && forall|j: int| 0 <= j < i ==> !common_at(base, foreign, j);
        Some(base[i])
    } else {
        None
    }
}

fn preferred_key(k: usize) -> (s: &'static str)
    requires
        k < 9,
    ensures
        s@ == preferred_keys()[k as int],
{
    if k == 0 { "业务员代码" } else if k == 1 { "业务员编码" } else if k == 2 { "人员代码" }
    else if k == 3 { "工号" } else if k == 4 { "代码" } else if k == 5 { "编号" }
    else if k == 6 { "ID" } else if k == 7 { "id" } else { "Id" }
}

/// Guess the join keys of two tables: common business keys first, then any shared header.
pub fn guess_join_keys(base_headers: &[String], foreign_headers: &[String]) -> (r: Option<(String, String)>)
    ensures
        match r {
            Some((a, b)) => guessed_key(base_headers.deep_view(), foreign_headers.deep_view()) == Some(a@) && b@ == a@,
            None => guessed_key(base_headers.deep_view(), foreign_headers.deep_view()) is None,
        },
{
    let ghost bs = base_headers.deep_view();
    let ghost fs = foreign_headers.deep_view();
    let mut k: usize = 0;
    while k < 9
        invariant
            k <= 9,
            bs == base_headers.deep_view(),
            fs == foreign_headers.deep_view(),
            forall|j: int| 0 <= j < k ==> !shared(bs, fs, #[trigger] preferred_keys()[j]),
        decreases 9 - k,
    {
        let key = preferred_key(k);
        if crate::models::find_text(base_headers, key).is_some() && crate::models::find_text(foreign_headers, key).is_some() {
            proof {
                let kk = k as int;
                assert(shared(bs, fs, preferred_keys()[kk]));
                let c = choose|c: int|
                    0 <= c < 9 && shared(bs, fs, #[trigger] preferred_keys()[c])
                    && forall|j: int| 0 <= j < c ==> !shared(bs, fs, #[trigger] preferred_keys()[j]);
                assert(c == kk) by {
                    if c < kk {
                        assert(!shared(bs, fs, preferred_keys()[c]));
                    } else if c > kk {
                        assert(!shared(bs, fs, preferred_keys()[kk]));
                    }
                }
            }
            return Some((key.to_owned(), key.to_owned()));
        }
        k += 1;
    }
    let mut i: usize = 0;
    while i < base_headers.len()
        invariant
            i <= bs.len(),
            bs == base_headers.deep_view(),
            fs == foreign_headers.deep_view(),
            forall|j: int| 0 <= j < 9 ==> !shared(bs, fs, #[trigger] preferred_keys()[j]),
            forall|j: int| 0 <= j < i ==> !common_at(bs, fs, j),
        decreases bs.len() - i,
    {
        let h = &base_headers[i];
        if !blank(h.as_str()) && crate::models::find_text(foreign_headers, h.as_str()).is_some() {
            proof {
                let ii = i as int;
                assert(common_at(bs, fs, ii));
                let c = choose|c: int| common_at(bs, fs, c) && forall|j: int| 0 <= j < c ==> !common_at(bs, fs, j);
                assert(c == ii) by {
                    if c < ii {
                        assert(!common_at(bs, fs, c));
                    } else if c > ii {
                        assert(!common_at(bs, fs, ii));
                    }
                }
            }
            return Some((h.clone(), h.clone()));
        }
        i += 1;
    }
    None
}

/// The texts inside `[`…`]` pairs of a formula, in order: each starts after a `[` and
/// ends at the next `]`; scanning stops at a `[` with no `]` after it.
pub open spec fn bracket_insides(s: Seq<char>) -> Seq<Seq<char>>
    decreases s.len(),
{
    let i = find_char(s, '[');
    if i < 0 {
        Seq::empty()
    } else {
        let after = s.subrange(i + 1, s.len() as int);
        let j = find_char(after, ']');
        if j < 0 {
            Seq::empty()
        } else {
            proof {
                lemma_find_char_range(s, '[');
                lemma_find_char_range(after, ']');
            }
            seq![after.subrange(0, j)] + bracket_insides(after.subrange(j + 1, after.len() as int))
        }
    }
}

/// The table id of a reference `tableId!column` (trimmed, non-empty), if it names one.
pub open spec fn ref_table_id(inside: Seq<char>) -> Option<Seq<char>> {
    let k = find_char(inside, '!');
    if k < 0 {
        None
    } else {
        let t = trim(inside.subrange(0, k));
        if t.len() == 0 { None } else { Some(t) }
    }
}

/// Table ids of references, each once, in order of first appearance.
pub open spec fn table_ids_of(insides: Seq<Seq<char>>) -> Seq<Seq<char>>
    decreases insides.len(),
{
    if insides.len() == 0 {
        Seq::empty()
    } else {
        let acc = table_ids_of(insides.drop_last());
        match ref_table_id(insides.last()) {
            Some(t) => if acc.contains(t) { acc } else { acc.push(t) },
            None => acc,
        }
    }
}

proof fn lemma_bracket_step(s: Seq<char>, p: int, i: int, j: int)
    requires
        0 <= p <= i < j < s.len(),
        find_char(s.subrange(p, s.len() as int), '[') == i - p,
        find_char(s.subrange(i + 1, s.len() as int), ']') == j - (i + 1),
    ensures
        bracket_insides(s.subrange(p, s.len() as int))
            == seq![s.subrange(i + 1, j)] + bracket_insides(s.subrange(j + 1, s.len() as int)),
{
    let rest = s.subrange(p, s.len() as int);
    let after = rest.subrange(i - p + 1, rest.len() as int);
    assert(after =~= s.subrange(i + 1, s.len() as int));
    assert(after.subrange(0, j - (i + 1)) =~= s.subrange(i + 1, j));
    assert(after.subrange(j - (i + 1) + 1, after.len() as int) =~= s.subrange(j + 1, s.len() as int));
}

/// Table ids that a formula references as `[tableId!column]`, each once, in order.
pub fn formula_table_ids(formula: &str) -> (ids: Vec<String>)
    ensures
        ids.deep_view() == table_ids_of(bracket_insides(formula@)),
{
    let v = chars_of(formula);
    let ghost s = v@;
    let mut ids: Vec<String> = Vec::new();
    let ghost mut done: Seq<Seq<char>> = Seq::empty();
    let mut p: usize = 0;
    assert(s.subrange(0, s.len() as int) =~= s);
    loop
        invariant
            p <= s.len(),
            s == v@,
            s.len() == v.len(),
            s == formula@,
            bracket_insides(s) == done + bracket_insides(s.subrange(p as int, s.len() as int)),
            ids.deep_view() == table_ids_of(done),
        decreases s.len() - p,
    {
        let i = match find_char_from(&v, '[', p) {
            None => {
                proof {
                    assert(done + Seq::<Seq<char>>::empty() =~= done);
                }
                return ids;
            },
            Some(i) => i,
        };
        let j = match find_char_from(&v, ']', i + 1) {
            None => {
                proof {
                    let rest = s.subrange(p as int, s.len() as int);
                    assert(rest.subrange(i - p + 1, rest.len() as int) =~= s.subrange(i + 1, s.len() as int));
                    assert(done + Seq::<Seq<char>>::empty() =~= done);
                }
                return ids;
            },
            Some(j) => j,
        };
        proof {
            lemma_bracket_step(s, p as int, i as int, j as int);
        }
        let inside = chars_range(&v, i + 1, j);
        let ghost old_done = done;
        proof {
            done = done.push(inside@);
            assert(done.drop_last() == old_done);
            assert(old_done + (seq![inside@] + bracket_insides(s.subrange(j + 1, s.len() as int)))
                =~= done + bracket_insides(s.subrange(j + 1, s.len() as int)));
        }
        match find_char_from(&inside, '!', 0) {
            None => {
                assert(inside@.subrange(0, inside@.len() as int) =~= inside@);
            },
            Some(k) => {
                assert(inside@.subrange(0, inside@.len() as int) =~= inside@);
                let prefix = chars_range(&inside, 0, k);
                let tid = trimmed_chars(&prefix);
                if !tid.as_str().is_empty() && crate::models::find_text(&ids, tid.as_str()).is_none() {
                    let ghost before = ids;
                    ids.push(tid);
                    proof {
                        lemma_dv_push(before, ids, tid);
                    }
                }
            },
        }
        p = j + 1;
    }
}

/// Number of columns picked by `cols` (empty = every column).
pub open spec fn picked_len(headers: Seq<Seq<char>>, cols: Seq<Seq<char>>) -> nat {
    if cols.len() == 0 { headers.len() } else { cols.len() }
}

/// Names of the columns picked by `cols` (empty = every column, in order).
pub open spec fn picked_names(headers: Seq<Seq<char>>, cols: Seq<Seq<char>>) -> Seq<Seq<char>> {
    if cols.len() == 0 { headers } else { cols }
}

/// Index of the `k`-th picked column.
pub open spec fn picked_index(headers: Seq<Seq<char>>, cols: Seq<Seq<char>>, k: int) -> int {
    if cols.len() == 0 { k } else { position(headers, cols[k]) }
}

/// Indices of the columns named by `cols` (empty = every column).
pub fn pick_columns(table: &DataTable, cols: &[String]) -> (r: Result<Vec<usize>, String>)
    ensures
        match r {
            Ok(idx) => {
                &&& all_present(table@.headers, cols.deep_view())
                &&& idx@.len() == picked_len(table@.headers, cols.deep_view())
                &&& forall|k: int| 0 <= k < idx@.len() ==> #[trigger] idx@[k] == picked_index(table@.headers, cols.deep_view(), k)
                &&& forall|k: int| 0 <= k < idx@.len() ==> #[trigger] idx@[k] < table@.headers.len()
            },
            Err(e) => {
                &&& !all_present(table@.headers, cols.deep_view())
                &&& e@ == first_missing_message(table@.headers, cols.deep_view())
            },
        },
{
    let mut idx: Vec<usize> = Vec::new();
    if cols.len() == 0 {
        let mut k: usize = 0;
        while k < table.headers.len()
            invariant
                k <= table@.headers.len(),
                cols@.len() == 0,
                idx@.len() == k,
                forall|j: int| 0 <= j < k ==> #[trigger] idx@[j] == j,
            decreases table@.headers.len() - k,
        {
            idx.push(k);
            k += 1;
        }
        return Ok(idx);
    }
    let ghost names = cols.deep_view();
    let mut k: usize = 0;
    while k < cols.len()
        invariant
            k <= cols@.len(),
            names == cols.deep_view(),
            idx@.len() == k,
            forall|j: int| 0 <= j < k ==> has_text(table@.headers, #[trigger] names[j]),
            forall|j: int| 0 <= j < k ==> #[trigger] idx@[j] == position(table@.headers, names[j]),
            forall|j: int| 0 <= j < k ==> #[trigger] idx@[j] < table@.headers.len(),
        decreases cols@.len() - k,
    {
        match table.col_index(cols[k].as_str()) {
            Ok(i) => {
                proof {
                    lemma_first_at_unique(table@.headers, names[k as int], i as int);
                }
                idx.push(i);
            },
            Err(e) => {
                proof {
                    assert(first_missing_at(table@.headers, names, k as int));
                    lemma_first_missing_unique(table@.headers, names, k as int);
                }
                return Err(e);
            },
        }
        k += 1;
    }
    Ok(idx)
}

/// Headers of a lookup result: left names, then each right name made unique against
/// the headers before it.
pub open spec fn lookup_headers(left: Seq<Seq<char>>, right: Seq<Seq<char>>) -> Seq<Seq<char>>
    decreases right.len(),
{
    if right.len() == 0 {
        left
    } else {
        let acc = lookup_headers(left, right.drop_last());
        acc.push(fresh_header(acc, right.last()))
    }
}

/// Some candidate for `name` from `n` on is missing from `existing`, given that those
/// before `n` are present.
proof fn lemma_fresh_from(existing: Seq<Seq<char>>, name: Seq<char>, n: int)
    requires
        0 <= n,
        forall|m: int| 0 <= m < n ==> has_text(existing, #[trigger] clash_candidate(name, m)),
    ensures
        exists|c: int| fresh_at(existing, name, c),
    decreases existing.len() + 1 - n,
{
    if !has_text(existing, clash_candidate(name, n)) {
        assert(fresh_at(existing, name, n));
    } else if n + 1 > existing.len() {
        let f = |k: int| clash_candidate(name, k);
        assert forall|a: int, b: int| 0 <= a < b < n + 1 implies #[trigger] f(a) != #[trigger] f(b) by {
            lemma_clash_candidates_distinct(name, a, b);
        }
        lemma_pigeonhole(existing, f, n + 1);
        let k = choose|k: int| 0 <= k < n + 1 && !existing.contains(#[trigger] f(k));
        assert(has_text(existing, clash_candidate(name, k)));
    } else {
        lemma_fresh_from(existing, name, n + 1);
    }
}

/// The header given to a name is new to the headers before it.
pub proof fn lemma_fresh_header_new(existing: Seq<Seq<char>>, name: Seq<char>)
    ensures
        !has_text(existing, fresh_header(existing, name)),
{
    lemma_fresh_from(existing, name, 0);
    let c = choose|c: int| fresh_at(existing, name, c);
    lemma_fresh_header(existing, name, c);
}

/// Lookup law: the headers of a lookup keep the left headers and add one header per
/// right column, each new to those before it; so when the left headers are pairwise
/// different, all of them are.
pub proof fn lemma_lookup_headers_distinct(left: Seq<Seq<char>>, right: Seq<Seq<char>>)
    requires
        forall|i: int, j: int| 0 <= i < j < left.len() ==> left[i] != left[j],
    ensures
        lookup_headers(left, right).len() == left.len() + right.len(),
        lookup_headers(left, right).take(left.len() as int) == left,
        forall|i: int, j: int| 0 <= i < j < lookup_headers(left, right).len() ==> lookup_headers(left, right)[i] != lookup_headers(left, right)[j],
    decreases right.len(),
{
    if right.len() > 0 {
        let acc = lookup_headers(left, right.drop_last());
        lemma_lookup_headers_distinct(left, right.drop_last());
        let h = fresh_header(acc, right.last());
        lemma_fresh_header_new(acc, right.last());
        let all = lookup_headers(left, right);
        assert(all == acc.push(h));
        assert(all.take(left.len() as int) =~= acc.take(left.len() as int));
        assert forall|i: int, j: int| 0 <= i < j < all.len() implies all[i] != all[j] by {
            if j == acc.len() {
                assert(all[i] == acc[i]);
                if acc[i] == h {
                    assert(has_text(acc, h));
                }
            } else {
                assert(all[i] == acc[i] && all[j] == acc[j]);
            }
        }
    } else {
        assert(left.take(left.len() as int) =~= left);
    }
}

/// Trimmed texts of column `k`.
pub open spec fn column_texts(rows: Seq<Seq<Seq<char>>>, k: int) -> Seq<Seq<char>> {
    Seq::new(rows.len(), |j: int| trim(cell_at(rows[j], k)))
}

/// Numeric keys of column `k`.
pub open spec fn column_keys<K, C, T, E>(nums: Numbers<K, C, T, E>, rows: Seq<Seq<Seq<char>>>, k: int) -> Seq<Option<Seq<char>>> where
    K: Fn(&str) -> Option<String>,
    C: Fn(&str, &str) -> Option<CellOrder>,
    T: Fn(&Vec<String>, Aggregate) -> String,
    E: Fn(&FormulaExpr, &Vec<(String, String)>) -> String,
 {
    Seq::new(rows.len(), |j: int| numeric_key_spec(nums, cell_at(rows[j], k)))
}

/// The first row of `rows` whose trimmed column-`k` text is `t`.
pub open spec fn first_text_row(rows: Seq<Seq<Seq<char>>>, k: int, t: Seq<char>) -> Option<int> {
    first_of(column_texts(rows, k), t)
}

/// The first row of `rows` whose column-`k` numeric key is `n`.
pub open spec fn first_number_row<K, C, T, E>(nums: Numbers<K, C, T, E>, rows: Seq<Seq<Seq<char>>>, k: int, n: Seq<char>) -> Option<int> where
    K: Fn(&str) -> Option<String>,
    C: Fn(&str, &str) -> Option<CellOrder>,
    T: Fn(&Vec<String>, Aggregate) -> String,
    E: Fn(&FormulaExpr, &Vec<(String, String)>) -> String,
 {
    first_of(column_keys(nums, rows, k), Some(n))
}

/// The row of `rows` that a lookup of `raw` in column `k` finds: the first with the same
/// trimmed text, else the first with the same numeric key.
pub open spec fn lookup_row<K, C, T, E>(nums: Numbers<K, C, T, E>, rows: Seq<Seq<Seq<char>>>, k: int, raw: Seq<char>) -> Option<int> where
    K: Fn(&str) -> Option<String>,
    C: Fn(&str, &str) -> Option<CellOrder>,
    T: Fn(&Vec<String>, Aggregate) -> String,
    E: Fn(&FormulaExpr, &Vec<(String, String)>) -> String,
 {
    let t = trim(raw);
    if t.len() > 0 && first_text_row(rows, k, t) is Some {
        first_text_row(rows, k, t)
    } else {
        match numeric_key_spec(nums, raw) {
            Some(n) => first_number_row(nums, rows, k, n),
            None => None,
        }
    }
}

/// Why a lookup cannot run, if it cannot.
pub open spec fn vlookup_fault(
    left: TableView,
    right: TableView,
    left_key: Seq<char>,
    right_key: Seq<char>,
    left_columns: Seq<Seq<char>>,
    right_columns: Seq<Seq<char>>,
) -> Option<Seq<char>> {
    if crate::text::is_blank(left_key) || crate::text::is_blank(right_key) {
        Some("请选择表A与表B的匹配列"@)
    } else if !has_text(left.headers, left_key) {
        Some(missing_column_message(left.headers, left_key))
    } else if !has_text(right.headers, right_key) {
        Some(missing_column_message(right.headers, right_key))
    } else if !all_present(left.headers, left_columns) {
        Some(first_missing_message(left.headers, left_columns))
    } else if !all_present(right.headers, right_columns) {
        Some(first_missing_message(right.headers, right_columns))
    } else if picked_len(left.headers, left_columns) == 0 {
        Some("请至少选择表A的一列"@)
    } else {
        None
    }
}

/// Row `i` of a lookup result.
pub open spec fn lookup_result_row<K, C, T, E>(
    nums: Numbers<K, C, T, E>,
    left: TableView,
    right: TableView,
    left_key: Seq<char>,
    right_key: Seq<char>,
    left_columns: Seq<Seq<char>>,
    right_columns: Seq<Seq<char>>,
    i: int,
) -> Seq<Seq<char>> where
    K: Fn(&str) -> Option<String>,
    C: Fn(&str, &str) -> Option<CellOrder>,
    T: Fn(&Vec<String>, Aggregate) -> String,
    E: Fn(&FormulaExpr, &Vec<(String, String)>) -> String,
 {
    let row = left.rows[i];
    let raw = cell_at(row, position(left.headers, left_key));
    let found = lookup_row(nums, right.rows, position(right.headers, right_key), raw);
    Seq::new(picked_len(left.headers, left_columns), |k: int| cell_at(row, picked_index(left.headers, left_columns, k)))
        + Seq::new(picked_len(right.headers, right_columns), |k: int| match found {
            Some(j) => cell_at(right.rows[j], picked_index(right.headers, right_columns, k)),
            None => Seq::<char>::empty(),
        })
}

/// First row whose trimmed key text (precomputed in `texts`) is `t`.
fn text_row(right: &DataTable, rk: usize, texts: &Vec<String>, t: &String) -> (r: Option<usize>)
    requires
        texts.deep_view() == column_texts(right@.rows, rk as int),
    ensures
        match r {
            Some(j) => first_text_row(right@.rows, rk as int, t@) == Some(j as int) && j < right@.rows.len(),
            None => first_text_row(right@.rows, rk as int, t@) is None,
        },
{
    let r = crate::models::find_text(texts, t.as_str());
    proof {
        if let Some(j) = r {
            lemma_first_at_unique(texts.deep_view(), t@, j as int);
        }
    }
    r
}

/// First row whose numeric key (precomputed in `keys`) is `n`.
fn number_row<K, C, T, E>(nums: &Numbers<K, C, T, E>, right: &DataTable, rk: usize, keys: &Vec<Option<String>>, n: &String) -> (r: Option<usize>) where
    K: Fn(&str) -> Option<String>,
    C: Fn(&str, &str) -> Option<CellOrder>,
    T: Fn(&Vec<String>, Aggregate) -> String,
    E: Fn(&FormulaExpr, &Vec<(String, String)>) -> String,
    requires
        keys@.map_values(|o: Option<String>| opt_view(o)) == column_keys(*nums, right@.rows, rk as int),
    ensures
        match r {
            Some(j) => first_number_row(*nums, right@.rows, rk as int, n@) == Some(j as int) && j < right@.rows.len(),
            None => first_number_row(*nums, right@.rows, rk as int, n@) is None,
        },
{
    let ghost ks = keys@.map_values(|o: Option<String>| opt_view(o));
    let mut j: usize = 0;
    while j < keys.len()
        invariant
            j <= keys@.len(),
            ks == keys@.map_values(|o: Option<String>| opt_view(o)),
            ks == column_keys(*nums, right@.rows, rk as int),
            forall|i: int| 0 <= i < j ==> ks[i] != Some(n@),
        decreases keys@.len() - j,
    {
        match &keys[j] {
            Some(k) => {
                if *k == *n {
                    proof {
                        assert(ks[j as int] == opt_view(keys@[j as int]));
                        assert(ks[j as int] == Some(n@));
                        assert(first_at(ks, Some(n@), j as int));
                        assert(has_text(ks, Some(n@)));
                        lemma_first_at_unique(ks, Some(n@), j as int);
                    }
                    return Some(j);
                }
            },
            None => {},
        }
        j += 1;
    }
    None
}

/// The row that `lookup_row` finds, given the trimmed texts and numeric keys of the
/// key column.
fn lookup_in<K, C, T, E>(
    nums: &Numbers<K, C, T, E>,
    right: &DataTable,
    rk: usize,
    texts: &Vec<String>,
    keys: &Vec<Option<String>>,
    raw: &str,
) -> (matched: Option<usize>) where
    K: Fn(&str) -> Option<String>,
    C: Fn(&str, &str) -> Option<CellOrder>,
    T: Fn(&Vec<String>, Aggregate) -> String,
    E: Fn(&FormulaExpr, &Vec<(String, String)>) -> String,
    requires
        nums.wf(),
        texts.deep_view() == column_texts(right@.rows, rk as int),
        keys@.map_values(|o: Option<String>| opt_view(o)) == column_keys(*nums, right@.rows, rk as int),
    ensures
        match matched {
            Some(jj) => lookup_row(*nums, right@.rows, rk as int, raw@) == Some(jj as int) && jj < right@.rows.len(),
            None => lookup_row(*nums, right@.rows, rk as int, raw@) is None,
        },
{
    let t = trimmed(raw);
    if !t.as_str().is_empty() {
        let m = text_row(right, rk, texts, &t);
        if m.is_some() {
            return m;
        }
    }
    match safe_numeric_key(nums, raw) {
        Some(n) => number_row(nums, right, rk, keys, &n),
        None => None,
    }
}

/// Lookup law: a lookup keeps one row per left row, built from that row and its match
/// (see `lookup_result_row`); its columns are the picked left columns (group 0) then the
/// picked right columns (group 1), each right header renamed to differ from those before
/// it, so that all headers differ when the picked left ones do.
pub proof fn lemma_vlookup_layout<K, C, T, E>(
    nums: Numbers<K, C, T, E>,
    left: TableView,
    right: TableView,
    left_key: Seq<char>,
    right_key: Seq<char>,
    left_columns: Seq<Seq<char>>,
    right_columns: Seq<Seq<char>>,
    out: TableView,
) where
    K: Fn(&str) -> Option<String>,
    C: Fn(&str, &str) -> Option<CellOrder>,
    T: Fn(&Vec<String>, Aggregate) -> String,
    E: Fn(&FormulaExpr, &Vec<(String, String)>) -> String,
    requires
        vlookup_outcome(nums, left, right, left_key, right_key, left_columns, right_columns, Ok(out)),
    ensures
        out.rows.len() == left.rows.len(),
        forall|i: int| 0 <= i < out.rows.len() ==> #[trigger] out.rows[i] == lookup_result_row(nums, left, right, left_key, right_key, left_columns, right_columns, i),
        out.groups == Seq::new(picked_len(left.headers, left_columns), |k: int| 0u32) + Seq::new(picked_len(right.headers, right_columns), |k: int| 1u32),
        out.headers.take(picked_names(left.headers, left_columns).len() as int) == picked_names(left.headers, left_columns),
        (forall|i: int, j: int| 0 <= i < j < picked_names(left.headers, left_columns).len()
            ==> picked_names(left.headers, left_columns)[i] != picked_names(left.headers, left_columns)[j])
            ==> forall|i: int, j: int| 0 <= i < j < out.headers.len() ==> out.headers[i] != out.headers[j],
{
    let l = picked_names(left.headers, left_columns);
    let r = picked_names(right.headers, right_columns);
    lemma_lookup_headers_take(l, r);
    if forall|i: int, j: int| 0 <= i < j < l.len() ==> l[i] != l[j] {
        lemma_lookup_headers_distinct(l, r);
    }
}

/// Lookup law: the right-hand cells of left row `i` come from right row `j` when `j` is
/// the first right row whose trimmed key text is the left row's non-empty trimmed key
/// text; failing any such row, from the first right row with the same numeric key
/// (see `safe_numeric_key`); and are all empty when neither kind of row exists.
pub proof fn lemma_vlookup_matches<K, C, T, E>(
    nums: Numbers<K, C, T, E>,
    left: TableView,
    right: TableView,
    left_key: Seq<char>,
    right_key: Seq<char>,
    left_columns: Seq<Seq<char>>,
    right_columns: Seq<Seq<char>>,
    out: TableView,
    i: int,
    j: int,
) where
    K: Fn(&str) -> Option<String>,
    C: Fn(&str, &str) -> Option<CellOrder>,
    T: Fn(&Vec<String>, Aggregate) -> String,
    E: Fn(&FormulaExpr, &Vec<(String, String)>) -> String,
    requires
        vlookup_outcome(nums, left, right, left_key, right_key, left_columns, right_columns, Ok(out)),
        0 <= i < left.rows.len(),
    ensures
        ({
            let rk = position(right.headers, right_key);
            let raw = cell_at(left.rows[i], position(left.headers, left_key));
            let t = trim(raw);
            let l = picked_len(left.headers, left_columns);
            let rn = picked_len(right.headers, right_columns);
            let no_text = t.len() == 0 || forall|q: int| 0 <= q < right.rows.len() ==> #[trigger] trim(cell_at(right.rows[q], rk)) != t;
            let n = numeric_key_spec(nums, raw);
            &&& (t.len() > 0 && 0 <= j < right.rows.len() && trim(cell_at(right.rows[j], rk)) == t
                && forall|q: int| 0 <= q < j ==> #[trigger] trim(cell_at(right.rows[q], rk)) != t)
                ==> forall|k: int| 0 <= k < rn ==> #[trigger] out.rows[i][l + k] == cell_at(right.rows[j], picked_index(right.headers, right_columns, k))
            &&& (no_text && n is Some && 0 <= j < right.rows.len() && numeric_key_spec(nums, cell_at(right.rows[j], rk)) == n
                && forall|q: int| 0 <= q < j ==> #[trigger] numeric_key_spec(nums, cell_at(right.rows[q], rk)) != n)
                ==> forall|k: int| 0 <= k < rn ==> #[trigger] out.rows[i][l + k] == cell_at(right.rows[j], picked_index(right.headers, right_columns, k))
            &&& (no_text && (n is None || forall|q: int| 0 <= q < right.rows.len() ==> #[trigger] numeric_key_spec(nums, cell_at(right.rows[q], rk)) != n))
                ==> forall|k: int| 0 <= k < rn ==> #[trigger] out.rows[i][l + k] == Seq::<char>::empty()
        }),
{
    let rk = position(right.headers, right_key);
    let raw = cell_at(left.rows[i], position(left.headers, left_key));
    let t = trim(raw);
    let l = picked_len(left.headers, left_columns);
    let rn = picked_len(right.headers, right_columns);
    lemma_vlookup_layout(nums, left, right, left_key, right_key, left_columns, right_columns, out);
    let row = lookup_result_row(nums, left, right, left_key, right_key, left_columns, right_columns, i);
    assert(out.rows[i] == row);
    let texts = column_texts(right.rows, rk);
    let keys = column_keys(nums, right.rows, rk);
    let found = lookup_row(nums, right.rows, rk, raw);
    assert forall|k: int| 0 <= k < rn implies #[trigger] out.rows[i][l + k] == match found {
        Some(jj) => cell_at(right.rows[jj], picked_index(right.headers, right_columns, k)),
        None => Seq::<char>::empty(),
    } by {
        assert(row[l + k] == match found {
            Some(jj) => cell_at(right.rows[jj], picked_index(right.headers, right_columns, k)),
            None => Seq::<char>::empty(),
        });
    }
    if t.len() > 0 && 0 <= j < right.rows.len() && trim(cell_at(right.rows[j], rk)) == t
        && forall|q: int| 0 <= q < j ==> trim(cell_at(right.rows[q], rk)) != t {
        assert(texts[j] == t);
        assert(first_at(texts, t, j)) by {
            assert forall|q: int| 0 <= q < j implies texts[q] != t by {
                assert(texts[q] == trim(cell_at(right.rows[q], rk)));
            }
        }
        lemma_first_at_unique(texts, t, j);
        assert(has_text(texts, t));
        assert(found == Some(j));
    }
    if (t.len() == 0 || forall|q: int| 0 <= q < right.rows.len() ==> trim(cell_at(right.rows[q], rk)) != t) {
        if t.len() > 0 {
            assert(!has_text(texts, t)) by {
                if has_text(texts, t) {
                    let q = choose|q: int| 0 <= q < texts.len() && texts[q] == t;
                    assert(trim(cell_at(right.rows[q], rk)) == t);
                }
            }
        }
        let n = numeric_key_spec(nums, raw);
        if n is Some && 0 <= j < right.rows.len() && numeric_key_spec(nums, cell_at(right.rows[j], rk)) == n
            && forall|q: int| 0 <= q < j ==> !(numeric_key_spec(nums, cell_at(right.rows[q], rk)) == n) {
            assert(keys[j] == n);
            assert(first_at(keys, n, j)) by {
                assert forall|q: int| 0 <= q < j implies keys[q] != n by {
                    assert(keys[q] == numeric_key_spec(nums, cell_at(right.rows[q], rk)));
                }
            }
            lemma_first_at_unique(keys, n, j);
            assert(has_text(keys, n));
            assert(found == Some(j));
        }
        if n is None || forall|q: int| 0 <= q < right.rows.len() ==> !(numeric_key_spec(nums, cell_at(right.rows[q], rk)) == n) {
            if n is Some {
                assert(!has_text(keys, n)) by {
                    if has_text(keys, n) {
                        let q = choose|q: int| 0 <= q < keys.len() && keys[q] == n;
                        assert(numeric_key_spec(nums, cell_at(right.rows[q], rk)) == n);
                    }
                }
            }
            assert(found is None);
        }
    }
}

/// The headers of a lookup begin with the left ones.
proof fn lemma_lookup_headers_take(left: Seq<Seq<char>>, right: Seq<Seq<char>>)
    ensures
        lookup_headers(left, right).len() == left.len() + right.len(),
        lookup_headers(left, right).take(left.len() as int) == left,
    decreases right.len(),
{
    if right.len() > 0 {
        lemma_lookup_headers_take(left, right.drop_last());
        let acc = lookup_headers(left, right.drop_last());
        assert(lookup_headers(left, right).take(left.len() as int) =~= acc.take(left.len() as int));
    } else {
        assert(left.take(left.len() as int) =~= left);
    }
}

/// What a lookup of `right` into `left` gives.
pub open spec fn vlookup_outcome<K, C, T, E>(
    nums: Numbers<K, C, T, E>,
    left: TableView,
    right: TableView,
    left_key: Seq<char>,
    right_key: Seq<char>,
    left_columns: Seq<Seq<char>>,
    right_columns: Seq<Seq<char>>,
    res: Result<TableView, Seq<char>>,
) -> bool where
    K: Fn(&str) -> Option<String>,
    C: Fn(&str, &str) -> Option<CellOrder>,
    T: Fn(&Vec<String>, Aggregate) -> String,
    E: Fn(&FormulaExpr, &Vec<(String, String)>) -> String,
 {
    match res {
        Ok(out) => {
            &&& vlookup_fault(left, right, left_key, right_key, left_columns, right_columns) is None
            &&& out.headers == lookup_headers(picked_names(left.headers, left_columns), picked_names(right.headers, right_columns))
            &&& out.groups == Seq::new(picked_len(left.headers, left_columns), |k: int| 0u32)
                + Seq::new(picked_len(right.headers, right_columns), |k: int| 1u32)
            &&& out.rows.len() == left.rows.len()
            &&& forall|i: int| 0 <= i < out.rows.len() ==> #[trigger] out.rows[i] == lookup_result_row(
                nums, left, right, left_key, right_key, left_columns, right_columns, i,
            )
        },
        Err(e) => vlookup_fault(left, right, left_key, right_key, left_columns, right_columns) == Some(e),
    }
}

/// VLOOKUP-style left join: keep the rows of `left`, find each row's `left_key` cell in
/// the `right_key` column of `right` (by trimmed text, else by numeric key; the first
/// matching row wins), keep the picked left columns and append the picked right columns
/// (empty lists pick every column). Clashing right headers get a `_B` suffix.
pub fn apply_vlookup<K, C, T, E>(
    nums: &Numbers<K, C, T, E>,
    left: &DataTable,
    right: &DataTable,
    left_key: &str,
    right_key: &str,
    left_columns: &[String],
    right_columns: &[String],
) -> (r: Result<DataTable, String>) where
    K: Fn(&str) -> Option<String>,
    C: Fn(&str, &str) -> Option<CellOrder>,
    T: Fn(&Vec<String>, Aggregate) -> String,
    E: Fn(&FormulaExpr, &Vec<(String, String)>) -> String,
    requires
        nums.wf(),
    ensures
        vlookup_outcome(*nums, left@, right@, left_key@, right_key@, left_columns.deep_view(), right_columns.deep_view(), crate::models::table_result(r)),
{
    if blank(left_key) || blank(right_key) {
        return Err("请选择表A与表B的匹配列".to_owned());
    }
    let lk = match left.col_index(left_key) {
        Ok(i) => i,
        Err(e) => return Err(e),
    };
    let rk = match right.col_index(right_key) {
        Ok(i) => i,
        Err(e) => return Err(e),
    };
    proof {
        lemma_first_at_unique(left@.headers, left_key@, lk as int);
        lemma_first_at_unique(right@.headers, right_key@, rk as int);
    }
    let left_idx = match pick_columns(left, left_columns) {
        Ok(v) => v,
        Err(e) => return Err(e),
    };
    let right_idx = match pick_columns(right, right_columns) {
        Ok(v) => v,
        Err(e) => return Err(e),
    };
    if left_idx.len() == 0 {
        return Err("请至少选择表A的一列".to_owned());
    }
    let ghost lnames = picked_names(left@.headers, left_columns.deep_view());
    let ghost rnames = picked_names(right@.headers, right_columns.deep_view());
    // Headers and groups.
    let mut headers: Vec<String> = Vec::new();
    let mut groups: Vec<u32> = Vec::new();
    let mut k: usize = 0;
    while k < left_idx.len()
        invariant
            k <= left_idx@.len(),
            left_idx@.len() == picked_len(left@.headers, left_columns.deep_view()),
            forall|j: int| 0 <= j < left_idx@.len() ==> #[trigger] left_idx@[j] == picked_index(left@.headers, left_columns.deep_view(), j),
            forall|j: int| 0 <= j < left_idx@.len() ==> #[trigger] left_idx@[j] < left@.headers.len(),
            lnames == picked_names(left@.headers, left_columns.deep_view()),
            all_present(left@.headers, left_columns.deep_view()),
            headers.deep_view() == lnames.take(k as int),
            groups@ == Seq::new(k as nat, |j: int| 0u32),
        decreases left_idx@.len() - k,
    {
        let ghost before = headers;
        let h = if left_columns.len() == 0 { left.headers[left_idx[k]].clone() } else { left_columns[k].clone() };
        proof {
            if left_columns@.len() > 0 {
                let nm = left_columns.deep_view()[k as int];
                assert(has_text(left@.headers, nm));
                crate::models::lemma_position(left@.headers, nm);
            }
        }
        headers.push(h);
        groups.push(0);
        proof {
            lemma_dv_push(before, headers, h);
            assert(headers.deep_view() =~= lnames.take(k + 1));
            assert(groups@ =~= Seq::new((k + 1) as nat, |j: int| 0u32));
        }
        k += 1;
    }
    assert(lnames.take(k as int) =~= lnames);
    let mut k: usize = 0;
    while k < right_idx.len()
        invariant
            k <= right_idx@.len(),
            right_idx@.len() == picked_len(right@.headers, right_columns.deep_view()),
            forall|j: int| 0 <= j < right_idx@.len() ==> #[trigger] right_idx@[j] == picked_index(right@.headers, right_columns.deep_view(), j),
            forall|j: int| 0 <= j < right_idx@.len() ==> #[trigger] right_idx@[j] < right@.headers.len(),
            rnames == picked_names(right@.headers, right_columns.deep_view()),
            rnames.len() == right_idx@.len(),
            headers.deep_view() == lookup_headers(lnames, rnames.take(k as int)),
            groups@ == Seq::new(left_idx@.len() as nat, |j: int| 0u32) + Seq::new(k as nat, |j: int| 1u32),
        decreases right_idx@.len() - k,
    {
        let name = if right_columns.len() == 0 { &right.headers[right_idx[k]] } else { &right_columns[k] };
        assert(name@ == rnames[k as int]);
        let h = unique_header(&headers, name.as_str());
        let ghost before = headers;
        headers.push(h);
        groups.push(1);
        proof {
            lemma_dv_push(before, headers, h);
            assert(rnames.take(k + 1).drop_last() =~= rnames.take(k as int));
            assert(groups@ =~= Seq::new(left_idx@.len() as nat, |j: int| 0u32) + Seq::new((k + 1) as nat, |j: int| 1u32));
        }
        k += 1;
    }
    assert(rnames.take(k as int) =~= rnames);
    // Keys of the right rows.
    let mut texts: Vec<String> = Vec::new();
    let mut keys: Vec<Option<String>> = Vec::new();
    let mut j: usize = 0;
    while j < right.rows.len()
        invariant
            j <= right@.rows.len(),
            nums.wf(),
            texts.deep_view() == column_texts(right@.rows, rk as int).take(j as int),
            keys@.map_values(|o: Option<String>| opt_view(o)) == column_keys(*nums, right@.rows, rk as int).take(j as int),
        decreases right@.rows.len() - j,
    {
        let raw = cell_text(&right.rows[j], rk);
        let t = trimmed(raw);
        let n = safe_numeric_key(nums, raw);
        let ghost before = texts;
        let ghost kbefore = keys;
        texts.push(t);
        keys.push(n);
        proof {
            lemma_dv_push(before, texts, t);
            assert(texts.deep_view() =~= column_texts(right@.rows, rk as int).take(j + 1));
            assert(right@.rows[j as int] == right.rows@[j as int].deep_view());
            assert(opt_view(n) == column_keys(*nums, right@.rows, rk as int)[j as int]);
            assert(keys@ == kbefore@.push(n));
            assert(keys@.map_values(|o: Option<String>| opt_view(o)) =~= kbefore@.map_values(|o: Option<String>| opt_view(o)).push(opt_view(n)));
            assert(keys@.map_values(|o: Option<String>| opt_view(o)) =~= column_keys(*nums, right@.rows, rk as int).take(j + 1));
        }
        j += 1;
    }
    assert(column_texts(right@.rows, rk as int).take(j as int) =~= column_texts(right@.rows, rk as int));
    assert(column_keys(*nums, right@.rows, rk as int).take(j as int) =~= column_keys(*nums, right@.rows, rk as int));
    // Rows.
    let mut rows: Vec<Vec<String>> = Vec::new();
    let mut i: usize = 0;
    while i < left.rows.len()
        invariant
            i <= left@.rows.len(),
            nums.wf(),
            vlookup_fault(left@, right@, left_key@, right_key@, left_columns.deep_view(), right_columns.deep_view()) is None,
            lk as int == position(left@.headers, left_key@),
            rk as int == position(right@.headers, right_key@),
            left_idx@.len() == picked_len(left@.headers, left_columns.deep_view()),
            forall|q: int| 0 <= q < left_idx@.len() ==> #[trigger] left_idx@[q] == picked_index(left@.headers, left_columns.deep_view(), q),
            right_idx@.len() == picked_len(right@.headers, right_columns.deep_view()),
            forall|q: int| 0 <= q < right_idx@.len() ==> #[trigger] right_idx@[q] == picked_index(right@.headers, right_columns.deep_view(), q),
            texts.deep_view() == column_texts(right@.rows, rk as int),
            keys@.map_values(|o: Option<String>| opt_view(o)) == column_keys(*nums, right@.rows, rk as int),
            rows@.len() == i,
            forall|q: int| 0 <= q < i ==> #[trigger] rows.deep_view()[q] == lookup_result_row(
                *nums, left@, right@, left_key@, right_key@, left_columns.deep_view(), right_columns.deep_view(), q,
            ),
        decreases left@.rows.len() - i,
    {
        let arow = &left.rows[i];
        let raw = cell_text(arow, lk);
        let ghost rk_i = rk as int;
        let ghost found = lookup_row(*nums, right@.rows, rk_i, raw@);
        let matched = lookup_in(nums, right, rk, &texts, &keys, raw);
        let mut out: Vec<String> = Vec::new();
        let mut k: usize = 0;
        while k < left_idx.len()
            invariant
                k <= left_idx@.len(),
                i < left@.rows.len(),
                arow.deep_view() == left@.rows[i as int],
                left_idx@.len() == picked_len(left@.headers, left_columns.deep_view()),
                forall|q: int| 0 <= q < left_idx@.len() ==> #[trigger] left_idx@[q] == picked_index(left@.headers, left_columns.deep_view(), q),
                out.deep_view() == Seq::new(k as nat, |q: int| cell_at(left@.rows[i as int], picked_index(left@.headers, left_columns.deep_view(), q))),
            decreases left_idx@.len() - k,
        {
            let ghost before = out;
            let c = cell_text(arow, left_idx[k]).to_owned();
            out.push(c);
            proof {
                lemma_dv_push(before, out, c);
                assert(out.deep_view() =~= Seq::new((k + 1) as nat, |q: int| cell_at(left@.rows[i as int], picked_index(left@.headers, left_columns.deep_view(), q))));
            }
            k += 1;
        }
        let ghost left_part = out.deep_view();
        let mut k: usize = 0;
        while k < right_idx.len()
            invariant
                k <= right_idx@.len(),
                right_idx@.len() == picked_len(right@.headers, right_columns.deep_view()),
                forall|q: int| 0 <= q < right_idx@.len() ==> #[trigger] right_idx@[q] == picked_index(right@.headers, right_columns.deep_view(), q),
                match matched { Some(jj) => found == Some(jj as int) && jj < right@.rows.len(), None => found is None },
                out.deep_view() == left_part + Seq::new(k as nat, |q: int| match found {
                    Some(jj) => cell_at(right@.rows[jj], picked_index(right@.headers, right_columns.deep_view(), q)),
                    None => Seq::<char>::empty(),
                }),
            decreases right_idx@.len() - k,
        {
            let ghost before = out;
            let c = match matched {
                Some(jj) => cell_text(&right.rows[jj], right_idx[k]).to_owned(),
                None => String::new(),
            };
            out.push(c);
            proof {
                lemma_dv_push(before, out, c);
                assert(out.deep_view() =~= left_part + Seq::new((k + 1) as nat, |q: int| match found {
                    Some(jj) => cell_at(right@.rows[jj], picked_index(right@.headers, right_columns.deep_view(), q)),
                    None => Seq::<char>::empty(),
                }));
            }
            k += 1;
        }
        let ghost before = rows;
        rows.push(out);
        proof {
            lemma_dv_push(before, rows, out);
            assert(out.deep_view() =~= lookup_result_row(
                *nums, left@, right@, left_key@, right_key@, left_columns.deep_view(), right_columns.deep_view(), i as int,
            ));
        }
        i += 1;
    }
    Ok(DataTable { headers, rows, header_groups: groups })
}

} // verus!
