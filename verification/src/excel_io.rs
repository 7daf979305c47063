//! Row filtering, dated-folder merging, match keys, and sheet-reading logic.
use vstd::prelude::*;
use crate::text::{join, occurs_at};
use crate::formula::FormulaExpr;
use crate::models::{
    copy_groups, copy_texts, first_at, has_text, lemma_dv_push, missing_column_message,
    position, DataTable, FilterCondition, TableView,
};
use crate::text::{
    blank, chars_of, contains_str, contains_text, find_char, find_char_from, is_blank, push_char,
    same_text, string_of, trim, trimmed,
};
use crate::numbers::{Aggregate, CellOrder, Numbers};
pub use crate::folder::{merge_dated_tables, read_folder_merged, read_folder_preview, PreviewDataLike, RankedFile};
pub use crate::sheet::{peek_raw_rows, read_excel_first_sheet, read_excel_preview, scan_sheet_meta, RawCell, RawSheet};
pub use crate::dates::{extract_date_from_name, parse_source_date};

verus! {

/// The cell of `row` at `i`, or empty text past its end (`row.get(i).unwrap_or("")`).
pub open spec fn cell_at(row: Seq<Seq<char>>, i: int) -> Seq<char> {
    if 0 <= i < row.len() {
        row[i]
    } else {
        Seq::empty()
    }
}

/// Whether `cell` satisfies the condition `op` with `value`; unknown operators pass.
pub open spec fn condition_holds(op: Seq<char>, value: Seq<char>, cell: Seq<char>) -> bool {
    if op == "eq"@ {
        cell == value
    } else if op == "neq"@ {
        cell != value
    } else if op == "contains"@ {
        contains_text(cell, value)
    } else if op == "not_contains"@ {
        !contains_text(cell, value)
    } else if op == "empty"@ {
        is_blank(cell)
    } else if op == "not_empty"@ {
        !is_blank(cell)
    } else {
        true
    }
}

/// The conditions whose columns a table must have.
pub open spec fn condition_columns(conds: Seq<FilterCondition>) -> Seq<Seq<char>> {
    conds.map_values(|c: FilterCondition| c.column@)
}

/// All texts of `names` are headers.
pub open spec fn all_present(headers: Seq<Seq<char>>, names: Seq<Seq<char>>) -> bool {
    forall|k: int| 0 <= k < names.len() ==> has_text(headers, #[trigger] names[k])
}

/// `k` is the first name that `headers` lacks.
pub open spec fn first_missing_at(headers: Seq<Seq<char>>, names: Seq<Seq<char>>, k: int) -> bool {
    &&& 0 <= k < names.len()
    &&& !has_text(headers, names[k])
    &&& forall|j: int| 0 <= j < k ==> has_text(headers, #[trigger] names[j])
}

/// The error for the first name that `headers` lacks.
pub open spec fn first_missing_message(headers: Seq<Seq<char>>, names: Seq<Seq<char>>) -> Seq<char> {
    missing_column_message(headers, names[choose|k: int| first_missing_at(headers, names, k)])
}

pub proof fn lemma_first_missing_unique(headers: Seq<Seq<char>>, names: Seq<Seq<char>>, k: int)
    requires
        first_missing_at(headers, names, k),
    ensures
        first_missing_message(headers, names) == missing_column_message(headers, names[k]),
{
    let c = choose|c: int| first_missing_at(headers, names, c);
    assert(first_missing_at(headers, names, c));
    if c < k {
        assert(has_text(headers, names[c]));
    } else if c > k {
        assert(has_text(headers, names[k]));
    }
}

/// A row passes when every condition holds on its column's cell.
pub open spec fn row_passes(headers: Seq<Seq<char>>, conds: Seq<FilterCondition>, row: Seq<Seq<char>>) -> bool {
    forall|k: int|
        0 <= k < conds.len() ==> condition_holds(
            conds[k].op@,
            conds[k].value@,
            cell_at(row, position(headers, #[trigger] conds[k].column@)),
        )
}

/// The predicate `row_passes` for a fixed table and condition list.
pub open spec fn passes(headers: Seq<Seq<char>>, conds: Seq<FilterCondition>) -> spec_fn(Seq<Seq<char>>) -> bool {
    |row: Seq<Seq<char>>| row_passes(headers, conds, row)
}

pub fn cell_text<'a>(row: &'a Vec<String>, i: usize) -> (c: &'a str)
    ensures
        c@ == cell_at(row.deep_view(), i as int),
{
    if i < row.len() {
        row[i].as_str()
    } else {
        proof {
            reveal_strlit("");
        }
        ""
    }
}

pub fn condition_check(op: &str, value: &str, cell: &str) -> (b: bool)
    ensures
        b == condition_holds(op@, value@, cell@),
{
    if same_text(op, "eq") {
        same_text(cell, value)
    } else if same_text(op, "neq") {
        !same_text(cell, value)
    } else if same_text(op, "contains") {
        contains_str(cell, value)
    } else if same_text(op, "not_contains") {
        !contains_str(cell, value)
    } else if same_text(op, "empty") {
        blank(cell)
    } else if same_text(op, "not_empty") {
        !blank(cell)
    } else {
        true
    }
}

/// What filtering `t` by `conds` gives.
pub open spec fn filter_outcome(t: TableView, conds: Seq<FilterCondition>, res: Result<TableView, Seq<char>>) -> bool {
    match res {
        Ok(out) => {
            &&& all_present(t.headers, condition_columns(conds))
            &&& out.headers == t.headers
            &&& out.groups == t.groups
            &&& out.rows == t.rows.filter(passes(t.headers, conds))
        },
        Err(e) => {
            &&& !all_present(t.headers, condition_columns(conds))
            &&& e == first_missing_message(t.headers, condition_columns(conds))
        },
    }
}

/// A name that `headers` lacks has a first such name at or before it.
proof fn lemma_first_missing_exists(headers: Seq<Seq<char>>, names: Seq<Seq<char>>, j: int)
    requires
        0 <= j < names.len(),
        !has_text(headers, names[j]),
    ensures
        exists|k: int| first_missing_at(headers, names, k),
    decreases j,
{
    if forall|i: int| 0 <= i < j ==> has_text(headers, #[trigger] names[i]) {
        assert(first_missing_at(headers, names, j));
    } else {
        let i = choose|i: int| 0 <= i < j && !has_text(headers, #[trigger] names[i]);
        lemma_first_missing_exists(headers, names, i);
    }
}

/// Filtering by `p` and then by `q` keeps the rows that pass both.
proof fn lemma_filter_twice<A>(s: Seq<A>, p: spec_fn(A) -> bool, q: spec_fn(A) -> bool, pq: spec_fn(A) -> bool)
    requires
        forall|x: A| #[trigger] pq(x) == (p(x) && q(x)),
    ensures
        s.filter(pq) == s.filter(p).filter(q),
    decreases s.len(),
{
    if s.len() > 0 {
        let d = s.drop_last();
        let x = s.last();
        lemma_filter_twice(d, p, q, pq);
        assert(d.push(x) =~= s);
        d.lemma_filter_push(x, p);
        d.lemma_filter_push(x, pq);
        if p(x) {
            d.filter(p).lemma_filter_push(x, q);
        }
    }
}

/// Filter law for one condition, op by op: `contains` keeps the rows whose cell holds
/// the value somewhere, `not_contains` those whose cell holds it nowhere, `eq` and `neq`
/// those whose cell is or is not the value, `empty` and `not_empty` those whose cell is
/// or is not blank; the cell is the row's cell in the condition's column.
pub proof fn lemma_filter_one_condition(t: TableView, c: FilterCondition, out: TableView)
    requires
        filter_outcome(t, seq![c], Ok(out)),
    ensures
        ({
            let col = position(t.headers, c.column@);
            let v = c.value@;
            &&& c.op@ == "contains"@ ==> out.rows == t.rows.filter(|r: Seq<Seq<char>>|
                exists|j: int| 0 <= j && j + v.len() <= cell_at(r, col).len() && #[trigger] cell_at(r, col).subrange(j, j + v.len()) == v)
            &&& c.op@ == "not_contains"@ ==> out.rows == t.rows.filter(|r: Seq<Seq<char>>|
                !exists|j: int| 0 <= j && j + v.len() <= cell_at(r, col).len() && #[trigger] cell_at(r, col).subrange(j, j + v.len()) == v)
            &&& c.op@ == "eq"@ ==> out.rows == t.rows.filter(|r: Seq<Seq<char>>| cell_at(r, col) == v)
            &&& c.op@ == "neq"@ ==> out.rows == t.rows.filter(|r: Seq<Seq<char>>| cell_at(r, col) != v)
            &&& c.op@ == "empty"@ ==> out.rows == t.rows.filter(|r: Seq<Seq<char>>| is_blank(cell_at(r, col)))
            &&& c.op@ == "not_empty"@ ==> out.rows == t.rows.filter(|r: Seq<Seq<char>>| !is_blank(cell_at(r, col)))
        }),
{
    let col = position(t.headers, c.column@);
    let v = c.value@;
    let conds = seq![c];
    reveal_strlit("contains");
    reveal_strlit("not_contains");
    reveal_strlit("eq");
    reveal_strlit("neq");
    reveal_strlit("empty");
    reveal_strlit("not_empty");
    assert("eq"@.len() == 2 && "neq"@.len() == 3 && "contains"@.len() == 8 && "not_contains"@.len() == 12
        && "empty"@.len() == 5 && "not_empty"@.len() == 9);
    let occurs = |r: Seq<Seq<char>>| exists|j: int| 0 <= j && j + v.len() <= cell_at(r, col).len() && #[trigger] cell_at(r, col).subrange(j, j + v.len()) == v;
    assert forall|r: Seq<Seq<char>>| #[trigger] passes(t.headers, conds)(r) == condition_holds(c.op@, v, cell_at(r, col)) by {
        assert(conds[0] == c);
    }
    assert forall|r: Seq<Seq<char>>| #[trigger] contains_text(cell_at(r, col), v) == occurs(r) by {
        if contains_text(cell_at(r, col), v) {
            let j = choose|j: int| occurs_at(cell_at(r, col), v, j);
            assert(cell_at(r, col).subrange(j, j + v.len()) == v);
        }
        if occurs(r) {
            let j = choose|j: int| 0 <= j && j + v.len() <= cell_at(r, col).len() && #[trigger] cell_at(r, col).subrange(j, j + v.len()) == v;
            assert(occurs_at(cell_at(r, col), v, j));
        }
    }
    if c.op@ == "contains"@ {
        assert(passes(t.headers, conds) =~= occurs);
    } else if c.op@ == "not_contains"@ {
        assert(passes(t.headers, conds) =~= |r: Seq<Seq<char>>| !occurs(r));
        assert((|r: Seq<Seq<char>>| !occurs(r)) =~= (|r: Seq<Seq<char>>|
            !exists|j: int| 0 <= j && j + v.len() <= cell_at(r, col).len() && #[trigger] cell_at(r, col).subrange(j, j + v.len()) == v));
    } else if c.op@ == "eq"@ {
        assert(passes(t.headers, conds) =~= |r: Seq<Seq<char>>| cell_at(r, col) == v);
    } else if c.op@ == "neq"@ {
        assert(passes(t.headers, conds) =~= |r: Seq<Seq<char>>| cell_at(r, col) != v);
    } else if c.op@ == "empty"@ {
        assert(passes(t.headers, conds) =~= |r: Seq<Seq<char>>| is_blank(cell_at(r, col)));
    } else if c.op@ == "not_empty"@ {
        assert(passes(t.headers, conds) =~= |r: Seq<Seq<char>>| !is_blank(cell_at(r, col)));
    }
}

/// Filter law: conditions are joined by "and": filtering by `c1` and then the result by
/// `c2` keeps the same rows as filtering by `c1` followed by `c2` at once, and one of the
/// two ways fails exactly when the other does.
pub proof fn lemma_filter_conjunction(
    t: TableView,
    c1: Seq<FilterCondition>,
    c2: Seq<FilterCondition>,
    r1: Result<TableView, Seq<char>>,
    r2: Result<TableView, Seq<char>>,
    r: Result<TableView, Seq<char>>,
)
    requires
        filter_outcome(t, c1, r1),
        r1 matches Ok(o1) ==> filter_outcome(o1, c2, r2),
        filter_outcome(t, c1 + c2, r),
    ensures
        r is Ok <==> (r1 is Ok && r2 is Ok),
        r matches Ok(o) ==> r1 matches Ok(o1) && r2 matches Ok(o2) && o.rows == o2.rows && o.headers == o2.headers,
{
    let cs = c1 + c2;
    assert(condition_columns(cs) =~= condition_columns(c1) + condition_columns(c2));
    if all_present(t.headers, condition_columns(c1)) && all_present(t.headers, condition_columns(c2)) {
        assert forall|k: int| 0 <= k < condition_columns(cs).len() implies has_text(t.headers, #[trigger] condition_columns(cs)[k]) by {
            if k < c1.len() {
                assert(condition_columns(cs)[k] == condition_columns(c1)[k]);
            } else {
                assert(condition_columns(cs)[k] == condition_columns(c2)[k - c1.len()]);
            }
        }
    }
    if all_present(t.headers, condition_columns(cs)) {
        assert forall|k: int| 0 <= k < condition_columns(c1).len() implies has_text(t.headers, #[trigger] condition_columns(c1)[k]) by {
            assert(condition_columns(cs)[k] == condition_columns(c1)[k]);
        }
        assert forall|k: int| 0 <= k < condition_columns(c2).len() implies has_text(t.headers, #[trigger] condition_columns(c2)[k]) by {
            assert(condition_columns(cs)[k + c1.len()] == condition_columns(c2)[k]);
        }
    }
    if r is Ok && r1 is Ok {
        let o1 = r1->Ok_0;
        assert forall|row: Seq<Seq<char>>| #[trigger] passes(t.headers, cs)(row) == (passes(t.headers, c1)(row) && passes(o1.headers, c2)(row)) by {
            if passes(t.headers, c1)(row) && passes(o1.headers, c2)(row) {
                assert forall|k: int| 0 <= k < cs.len() implies condition_holds(cs[k].op@, cs[k].value@,
                    cell_at(row, position(t.headers, #[trigger] cs[k].column@))) by {
                    if k < c1.len() {
                        assert(cs[k] == c1[k]);
                    } else {
                        assert(cs[k] == c2[k - c1.len()]);
                    }
                }
            }
            if passes(t.headers, cs)(row) {
                assert forall|k: int| 0 <= k < c1.len() implies condition_holds(c1[k].op@, c1[k].value@,
                    cell_at(row, position(t.headers, #[trigger] c1[k].column@))) by {
                    assert(cs[k] == c1[k]);
                }
                assert forall|k: int| 0 <= k < c2.len() implies condition_holds(c2[k].op@, c2[k].value@,
                    cell_at(row, position(o1.headers, #[trigger] c2[k].column@))) by {
                    assert(cs[k + c1.len()] == c2[k]);
                }
            }
        }
        lemma_filter_twice(t.rows, passes(t.headers, c1), passes(o1.headers, c2), passes(t.headers, cs));
    }
}

/// Filter law: a filter fails exactly when a condition names a column that the table
/// lacks, and its error names the first such column and asks to map it again
/// (`重新映射`).
pub proof fn lemma_filter_refuses(t: TableView, conds: Seq<FilterCondition>, res: Result<TableView, Seq<char>>)
    requires
        filter_outcome(t, conds, res),
    ensures
        res is Err <==> exists|c: int| 0 <= c < conds.len() && !has_text(t.headers, #[trigger] conds[c].column@),
        res matches Err(e) ==> exists|k: int| first_missing_at(t.headers, condition_columns(conds), k)
            && contains_text(e, conds[k].column@) && contains_text(e, "重新映射"@),
{
    let names = condition_columns(conds);
    if exists|c: int| 0 <= c < conds.len() && !has_text(t.headers, #[trigger] conds[c].column@) {
        let c = choose|c: int| 0 <= c < conds.len() && !has_text(t.headers, #[trigger] conds[c].column@);
        assert(names[c] == conds[c].column@);
        assert(!all_present(t.headers, names));
    }
    if !all_present(t.headers, names) {
        let j = choose|j: int| 0 <= j < names.len() && !has_text(t.headers, #[trigger] names[j]);
        assert(conds[j].column@ == names[j]);
    }
    if res is Err {
        let e = res->Err_0;
        let j = choose|j: int| 0 <= j < names.len() && !has_text(t.headers, #[trigger] names[j]);
        lemma_first_missing_exists(t.headers, names, j);
        let k = choose|k: int| first_missing_at(t.headers, names, k);
        lemma_first_missing_unique(t.headers, names, k);
        let name = names[k];
        assert(name == conds[k].column@);
        reveal_strlit("列「");
        reveal_strlit("重新映射");
        reveal_strlit("」不存在。当前表头: [");
        reveal_strlit("]。请在该步骤重新映射/选择列。");
        let pre = "列「"@;
        let mid = "」不存在。当前表头: ["@ + join(t.headers, ", "@);
        let suf = "]。请在该步骤重新映射/选择列。"@;
        assert(e =~= pre + name + mid + suf);
        assert(e.subrange(2, 2 + name.len() as int) =~= name);
        assert(occurs_at(e, name, 2));
        let at = e.len() - 9;
        assert(e.subrange(at, at + 4) =~= "重新映射"@);
        assert(occurs_at(e, "重新映射"@, at));
    }
}

/// Rows of `table` that satisfy every condition.
pub fn apply_filter(table: &DataTable, conditions: &[FilterCondition]) -> (r: Result<DataTable, String>)
    ensures
        filter_outcome(table@, conditions@, crate::models::table_result(r)),
{
    let ghost names = condition_columns(conditions@);
    let mut idxs: Vec<usize> = Vec::new();
    let mut k: usize = 0;
    while k < conditions.len()
        invariant
            k <= conditions@.len(),
            names == condition_columns(conditions@),
            idxs@.len() == k,
            forall|j: int| 0 <= j < k ==> has_text(table@.headers, #[trigger] names[j]),
            forall|j: int| 0 <= j < k ==> #[trigger] idxs@[j] == position(table@.headers, names[j]),
        decreases conditions@.len() - k,
    {
        match table.col_index(conditions[k].column.as_str()) {
            Ok(i) => {
                proof {
                    crate::models::lemma_first_at_unique(table@.headers, names[k as int], i as int);
                }
                idxs.push(i);
            },
            Err(e) => {
                proof {
                    assert(first_missing_at(table@.headers, names, k as int));
                    lemma_first_missing_unique(table@.headers, names, k as int);
                }
                return Err(e);
            },
        }
        k += 1;
    }
    let ghost pred = passes(table@.headers, conditions@);
    let mut rows: Vec<Vec<String>> = Vec::new();
    let mut r: usize = 0;
    while r < table.rows.len()
        invariant
            r <= table@.rows.len(),
            idxs@.len() == conditions@.len(),
            names == condition_columns(conditions@),
            forall|j: int| 0 <= j < conditions@.len() ==> #[trigger] idxs@[j] == position(table@.headers, names[j]),
            pred == passes(table@.headers, conditions@),
            rows.deep_view() == table@.rows.take(r as int).filter(pred),
        decreases table@.rows.len() - r,
    {
        let row = &table.rows[r];
        let mut pass = true;
        let mut k: usize = 0;
        while k < conditions.len()
            invariant
                k <= conditions@.len(),
                idxs@.len() == conditions@.len(),
                r < table@.rows.len(),
                row.deep_view() == table@.rows[r as int],
                names == condition_columns(conditions@),
                forall|j: int| 0 <= j < conditions@.len() ==> #[trigger] idxs@[j] == position(table@.headers, names[j]),
                pass == forall|j: int| 0 <= j < k ==> condition_holds(
                    conditions@[j].op@,
                    conditions@[j].value@,
                    cell_at(row.deep_view(), position(table@.headers, #[trigger] conditions@[j].column@)),
                ),
            decreases conditions@.len() - k,
        {
            let c = &conditions[k];
            let cell = cell_text(row, idxs[k]);
            assert(names[k as int] == conditions@[k as int].column@);
            if !condition_check(c.op.as_str(), c.value.as_str(), cell) {
                pass = false;
            }
            k += 1;
        }
        proof {
            reveal(Seq::filter);
            assert(table@.rows.take(r + 1).drop_last() =~= table@.rows.take(r as int));
            assert(pred(table@.rows[r as int]) == row_passes(table@.headers, conditions@, table@.rows[r as int]));
            assert(pass == row_passes(table@.headers, conditions@, row.deep_view()));
            assert(pass == pred(table@.rows[r as int]));
        }
        if pass {
            let ghost r0 = rows;
            let copy = copy_texts(row);
            rows.push(copy);
            proof {
                lemma_dv_push(r0, rows, copy);
            }
        }
        r += 1;
    }
    assert(table@.rows.take(table@.rows.len() as int) =~= table@.rows);
    Ok(DataTable { headers: copy_texts(&table.headers), rows, header_groups: copy_groups(&table.header_groups) })
}

/// `t` without its `,` and `，` characters.
pub open spec fn without_commas(t: Seq<char>) -> Seq<char>
    decreases t.len(),
{
    if t.len() == 0 {
        t
    } else {
        let rest = without_commas(t.drop_last());
        if t.last() == ',' || t.last() == '，' { rest } else { rest.push(t.last()) }
    }
}

/// `t.trim_start_matches('-')`.
pub open spec fn without_leading_minus(t: Seq<char>) -> Seq<char>
    decreases t.len(),
{
    if t.len() > 0 && t[0] == '-' { without_leading_minus(t.drop_first()) } else { t }
}

/// `t.split('.').next()`: the part before the first `.`.
pub open spec fn before_dot(t: Seq<char>) -> Seq<char> {
    let k = find_char(t, '.');
    if k < 0 { t } else { t.subrange(0, k) }
}

/// Bytes of `c` in UTF-8.
pub open spec fn utf8_width(c: char) -> nat {
    if (c as u32) < 0x80 { 1 } else if (c as u32) < 0x800 { 2 } else if (c as u32) < 0x10000 { 3 } else { 4 }
}

/// Byte length of the UTF-8 encoding (`str::len`).
pub open spec fn utf8_len(t: Seq<char>) -> nat
    decreases t.len(),
{
    if t.len() == 0 { 0 } else { utf8_len(t.drop_last()) + utf8_width(t.last()) }
}

/// Whether `v[lo..hi]` takes more than `limit` bytes in UTF-8.
pub(crate) fn utf8_longer_than(v: &Vec<char>, lo: usize, hi: usize, limit: usize) -> (r: bool)
    requires
        lo <= hi <= v@.len(),
        limit < 1000,
    ensures
        r == (utf8_len(v@.subrange(lo as int, hi as int)) > limit),
{
    let mut n: usize = 0;
    let mut i = lo;
    while i < hi
        invariant
            lo <= i <= hi <= v@.len(),
            limit < 1000,
            n == utf8_len(v@.subrange(lo as int, i as int)),
            n <= limit,
        decreases hi - i,
    {
        let c = v[i];
        let w: usize = if (c as u32) < 0x80 { 1 } else if (c as u32) < 0x800 { 2 } else if (c as u32) < 0x10000 { 3 } else { 4 };
        assert(v@.subrange(lo as int, i + 1).drop_last() =~= v@.subrange(lo as int, i as int));
        n = n + w;
        if n > limit {
            proof {
                lemma_utf8_len_mono(v@.subrange(lo as int, hi as int), (i + 1 - lo) as int);
                assert(v@.subrange(lo as int, hi as int).subrange(0, (i + 1 - lo) as int) =~= v@.subrange(lo as int, i + 1));
            }
            return true;
        }
        i += 1;
    }
    false
}

proof fn lemma_utf8_len_mono(t: Seq<char>, k: int)
    requires
        0 <= k <= t.len(),
    ensures
        utf8_len(t.subrange(0, k)) <= utf8_len(t),
    decreases t.len() - k,
{
    if k < t.len() {
        lemma_utf8_len_mono(t.drop_last(), k);
        assert(t.drop_last().subrange(0, k) =~= t.subrange(0, k));
    } else {
        assert(t.subrange(0, k) =~= t);
    }
}

/// Canonical numeric key: only short, precise numbers are read as numbers, so that
/// `1`, `1.0` and `001` agree while long digit IDs stay text.
pub open spec fn numeric_key_spec<K, C, T, E>(nums: Numbers<K, C, T, E>, s: Seq<char>) -> Option<Seq<char>> where
    K: Fn(&str) -> Option<String>,
    C: Fn(&str, &str) -> Option<CellOrder>,
    T: Fn(&Vec<String>, Aggregate) -> String,
    E: Fn(&FormulaExpr, &Vec<(String, String)>) -> String,
 {
    let t = trim(s);
    if t.len() == 0 || t.contains('E') || t.contains('e') {
        None
    } else {
        let cleaned = without_commas(t);
        if utf8_len(before_dot(without_leading_minus(cleaned))) > 15 {
            None
        } else {
            nums.key_of(cleaned)
        }
    }
}

/// Key used to match and overwrite rows: trimmed text, or its numeric key.
pub open spec fn match_key_spec<K, C, T, E>(nums: Numbers<K, C, T, E>, s: Seq<char>) -> Seq<char> where
    K: Fn(&str) -> Option<String>,
    C: Fn(&str, &str) -> Option<CellOrder>,
    T: Fn(&Vec<String>, Aggregate) -> String,
    E: Fn(&FormulaExpr, &Vec<(String, String)>) -> String,
 {
    let t = trim(s);
    if t.len() == 0 {
        Seq::empty()
    } else {
        match numeric_key_spec(nums, t) {
            Some(n) => n,
            None => t,
        }
    }
}

/// Removes `,` and `，` from `v`.
pub(crate) fn drop_commas(v: &Vec<char>) -> (r: Vec<char>)
    ensures
        r@ == without_commas(v@),
{
    let mut r: Vec<char> = Vec::new();
    let mut i: usize = 0;
    while i < v.len()
        invariant
            i <= v@.len(),
            r@ == without_commas(v@.take(i as int)),
        decreases v@.len() - i,
    {
        assert(v@.take(i + 1).drop_last() =~= v@.take(i as int));
        if v[i] != ',' && v[i] != '，' {
            r.push(v[i]);
        }
        i += 1;
    }
    assert(v@.take(v@.len() as int) =~= v@);
    r
}

pub(crate) proof fn lemma_without_leading_minus_skip(t: Seq<char>, k: int)
    requires
        0 <= k <= t.len(),
        forall|i: int| 0 <= i < k ==> t[i] == '-',
        k == t.len() || t[k] != '-',
    ensures
        without_leading_minus(t) == t.subrange(k, t.len() as int),
    decreases k,
{
    if k > 0 {
        lemma_without_leading_minus_skip(t.drop_first(), k - 1);
        assert(t.drop_first().subrange(k - 1, t.drop_first().len() as int) =~= t.subrange(k, t.len() as int));
    } else {
        assert(t.subrange(0, t.len() as int) =~= t);
    }
}

/// Numeric key of a short, precise number (`1`, `1.0`, `001` → `1`); `None` for other
/// text, including numbers with more than 15 integer digits or an exponent.
pub fn safe_numeric_key<K, C, T, E>(nums: &Numbers<K, C, T, E>, s: &str) -> (r: Option<String>) where
    K: Fn(&str) -> Option<String>,
    C: Fn(&str, &str) -> Option<CellOrder>,
    T: Fn(&Vec<String>, Aggregate) -> String,
    E: Fn(&FormulaExpr, &Vec<(String, String)>) -> String,
    requires
        nums.wf(),
    ensures
        crate::numbers::opt_view(r) == numeric_key_spec(*nums, s@),
{
    let t = trimmed(s);
    let tv = chars_of(t.as_str());
    if tv.len() == 0 {
        return None;
    }
    let e_upper = find_char_from(&tv, 'E', 0);
    let e_lower = find_char_from(&tv, 'e', 0);
    proof {
        assert(tv@.subrange(0, tv@.len() as int) =~= tv@);
        crate::text::lemma_find_char_range(tv@, 'E');
        crate::text::lemma_find_char_range(tv@, 'e');
    }
    if e_upper.is_some() || e_lower.is_some() {
        proof {
            if e_upper.is_some() {
                assert(tv@.contains('E'));
            } else {
                assert(tv@.contains('e'));
            }
        }
        return None;
    }
    assert(!tv@.contains('E') && !tv@.contains('e'));
    let cleaned = drop_commas(&tv);
    let mut k: usize = 0;
    while k < cleaned.len() && cleaned[k] == '-'
        invariant
            k <= cleaned@.len(),
            forall|i: int| 0 <= i < k ==> cleaned@[i] == '-',
        decreases cleaned@.len() - k,
    {
        k += 1;
    }
    proof {
        lemma_without_leading_minus_skip(cleaned@, k as int);
    }
    let end = match find_char_from(&cleaned, '.', k) {
        Some(d) => d,
        None => cleaned.len(),
    };
    let ghost digits = cleaned@.subrange(k as int, end as int);
    proof {
        let body = cleaned@.subrange(k as int, cleaned@.len() as int);
        if end < cleaned.len() {
            assert(before_dot(body) =~= digits);
        } else {
            assert(before_dot(body) == body);
            assert(digits =~= body);
        }
    }
    if utf8_longer_than(&cleaned, k, end, 15) {
        return None;
    }
    let text = string_of(cleaned.as_slice());
    proof {
        let tt = trim(s@);
        assert(tv@ == tt);
        assert(cleaned@ == without_commas(tt));
        assert(utf8_len(digits) <= 15);
        assert(before_dot(without_leading_minus(without_commas(tt))) == digits);
        assert(!(tt.len() == 0 || tt.contains('E') || tt.contains('e')));
        assert(text@ == without_commas(tt));
    }
    nums.key(text.as_str())
}

/// Key used for row match/overwrite: trimmed text, or its numeric key when it is a
/// short precise number. Long digit IDs stay text.
pub fn match_key<K, C, T, E>(nums: &Numbers<K, C, T, E>, s: &str) -> (r: String) where
    K: Fn(&str) -> Option<String>,
    C: Fn(&str, &str) -> Option<CellOrder>,
    T: Fn(&Vec<String>, Aggregate) -> String,
    E: Fn(&FormulaExpr, &Vec<(String, String)>) -> String,
    requires
        nums.wf(),
    ensures
        r@ == match_key_spec(*nums, s@),
{
    let t = trimmed(s);
    if t.as_str().is_empty() {
        return t;
    }
    match safe_numeric_key(nums, t.as_str()) {
        Some(n) => n,
        None => t,
    }
}

} // verus!
