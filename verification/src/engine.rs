//! The runtime that chains steps: source tables by id, step outputs by id, and the
//! execution of one step on the tables it names.
use vstd::prelude::*;
use crate::formula::FormulaExpr;
use crate::folder_run::scan_gives;
use crate::models::{
    copy_rows, copy_texts, copy_groups, find_named, find_text, has_text, ids_of, lemma_dv_push, lemma_first_at_unique, first_at,
    position, table_result, CalcJoin, DataTable, FolderMerge, Operation, Pipeline, PreviewData,
    SideColumn, SourceTable, Step, TableView,
};
use crate::numbers::{Aggregate, CellOrder, Numbers};
use crate::ops::{
    apply_side_by_side, apply_side_by_side_columns, apply_vlookup, bracket_insides, formula_table_ids,
    guess_join_keys, guessed_key, side_columns_outcome, side_outcome, table_ids_of, views, vlookup_outcome,
};
use crate::excel_io::{apply_filter, filter_outcome};
use crate::pivot::{apply_pivot, pivot_outcome};
use crate::sort::{apply_sort, sort_outcome};
use crate::dedupe::{apply_dedupe, dedupe_outcome};
use crate::calculate::{apply_calculate, apply_lookup_subtract, calc_result, subtract_outcome};
use crate::text::{blank, is_blank, join, join_strings, same_text};

verus! {

/// Table ids that an operation reads, in order (a calculation: its base table, its
/// joined tables, then the tables its formula names).
pub open spec fn op_ids(op: Operation) -> Seq<Seq<char>> {
    match op {
        Operation::Filter { input_table_id, .. } => seq![input_table_id@],
        Operation::Pivot { input_table_id, .. } => seq![input_table_id@],
        Operation::Sort { input_table_id, .. } => seq![input_table_id@],
        Operation::Dedupe { input_table_id, .. } => seq![input_table_id@],
        Operation::Calculate { base_table_id, formula, joins, .. } => seq![base_table_id@]
            + plan_ids(named_joins(joins@)) + table_ids_of(bracket_insides(formula@)),
        Operation::LookupSubtract { left_table_id, right_table_id, .. } => seq![left_table_id@, right_table_id@],
        Operation::Vlookup { left_table_id, right_table_id, .. } => seq![left_table_id@, right_table_id@],
        Operation::SideBySide { columns, table_ids } => column_table_ids(columns@) + table_ids.deep_view(),
    }
}

/// Tables named by side-by-side columns, in order.
pub open spec fn column_table_ids(cols: Seq<SideColumn>) -> Seq<Seq<char>>
    decreases cols.len(),
{
    if cols.len() == 0 {
        Seq::empty()
    } else {
        let p = column_table_ids(cols.drop_last());
        if is_blank(cols.last().table_id@) { p } else { p.push(cols.last().table_id@) }
    }
}

/// Named tables as the contracts see them.
pub open spec fn entries_view(xs: Seq<(String, DataTable)>) -> Seq<(Seq<char>, TableView)> {
    xs.map_values(|p: (String, DataTable)| (p.0@, p.1@))
}

/// Ids of named tables.
pub open spec fn entry_ids(xs: Seq<(Seq<char>, TableView)>) -> Seq<Seq<char>> {
    xs.map_values(|p: (Seq<char>, TableView)| p.0)
}

/// The first table named `id`.
pub open spec fn entry_of(xs: Seq<(Seq<char>, TableView)>, id: Seq<char>) -> Option<TableView> {
    if has_text(entry_ids(xs), id) {
        Some(xs[position(entry_ids(xs), id)].1)
    } else {
        None
    }
}

/// A table by id: a loaded source first, else a step output.
pub open spec fn lookup_table(sv: Seq<(Seq<char>, TableView)>, tv: Seq<(Seq<char>, TableView)>, id: Seq<char>) -> Option<TableView> {
    match entry_of(sv, id) {
        Some(t) => Some(t),
        None => entry_of(tv, id),
    }
}

/// Texts listed as `["a", "b"]`.
pub open spec fn debug_list(xs: Seq<Seq<char>>) -> Seq<char> {
    "["@ + join(xs.map_values(|x: Seq<char>| "\""@ + x + "\""@), ", "@) + "]"@
}

/// Message for a table id that names no table.
pub open spec fn missing_table_message(sv: Seq<(Seq<char>, TableView)>, tv: Seq<(Seq<char>, TableView)>, id: Seq<char>) -> Seq<char> {
    "找不到表「"@ + id + "」。可用源表: "@ + debug_list(entry_ids(sv)) + "；临时表: "@ + debug_list(entry_ids(tv))
}

/// A step's error, naming the step.
pub open spec fn step_message(name: Seq<char>, e: Seq<char>) -> Seq<char> {
    "步骤「"@ + name + "」: "@ + e
}

/// A result whose error names the step.
pub open spec fn prefixed(name: Seq<char>, r: Result<TableView, Seq<char>>) -> Result<TableView, Seq<char>> {
    match r {
        Ok(t) => Ok(t),
        Err(e) => Err(step_message(name, e)),
    }
}

/// The first id of `ids` that names no table.
pub open spec fn first_unknown(sv: Seq<(Seq<char>, TableView)>, tv: Seq<(Seq<char>, TableView)>, ids: Seq<Seq<char>>) -> Option<Seq<char>>
    decreases ids.len(),
{
    if ids.len() == 0 {
        None
    } else if lookup_table(sv, tv, ids[0]) is None {
        Some(ids[0])
    } else {
        first_unknown(sv, tv, ids.drop_first())
    }
}

/// The joins that name a table, as `(table, base key, foreign key)`.
pub open spec fn named_joins(joins: Seq<CalcJoin>) -> Seq<(Seq<char>, Seq<char>, Seq<char>)>
    decreases joins.len(),
{
    if joins.len() == 0 {
        Seq::empty()
    } else {
        let p = named_joins(joins.drop_last());
        let j = joins.last();
        if is_blank(j.table_id@) { p } else { p.push((j.table_id@, j.base_key@, j.foreign_key@)) }
    }
}

/// Tables of planned joins.
pub open spec fn plan_ids(plan: Seq<(Seq<char>, Seq<char>, Seq<char>)>) -> Seq<Seq<char>> {
    plan.map_values(|x: (Seq<char>, Seq<char>, Seq<char>)| x.0)
}

/// Joins of a calculation step: the joins that name a table, then a join with blank
/// keys for each table that the formula names, other than the base, that no join names.
pub open spec fn join_plan(joins: Seq<CalcJoin>, fids: Seq<Seq<char>>, base: Seq<char>) -> Seq<(Seq<char>, Seq<char>, Seq<char>)>
    decreases fids.len(),
{
    if fids.len() == 0 {
        named_joins(joins)
    } else {
        let p = join_plan(joins, fids.drop_last(), base);
        let t = fids.last();
        if t == base || has_text(plan_ids(p), t) {
            p
        } else {
            p.push((t, Seq::empty(), Seq::empty()))
        }
    }
}

/// The first id of `ids`, other than `skip`, that names no table.
pub open spec fn first_unknown_except(sv: Seq<(Seq<char>, TableView)>, tv: Seq<(Seq<char>, TableView)>, ids: Seq<Seq<char>>, skip: Seq<char>) -> Option<Seq<char>>
    decreases ids.len(),
{
    if ids.len() == 0 {
        None
    } else if ids[0] != skip && lookup_table(sv, tv, ids[0]) is None {
        Some(ids[0])
    } else {
        first_unknown_except(sv, tv, ids.drop_first(), skip)
    }
}

/// The first placed column whose table is unknown.
pub open spec fn first_unknown_placed(sv: Seq<(Seq<char>, TableView)>, tv: Seq<(Seq<char>, TableView)>, cols: Seq<SideColumn>) -> Option<Seq<char>>
    decreases cols.len(),
{
    if cols.len() == 0 {
        None
    } else if placed(cols[0]) && lookup_table(sv, tv, cols[0].table_id@) is None {
        Some(cols[0].table_id@)
    } else {
        first_unknown_placed(sv, tv, cols.drop_first())
    }
}

/// Keys of a planned join, with blank ones filled by the guessed common column.
pub open spec fn filled_keys(base: TableView, foreign: TableView, j: (Seq<char>, Seq<char>, Seq<char>)) -> (Seq<char>, Seq<char>) {
    if is_blank(j.1) || is_blank(j.2) {
        let g = guessed_key(base.headers, foreign.headers)->0;
        (if is_blank(j.1) { g } else { j.1 }, if is_blank(j.2) { g } else { j.2 })
    } else {
        (j.1, j.2)
    }
}

/// Why the planned joins cannot run: the first whose table is unknown, or whose blank
/// keys cannot be guessed.
pub open spec fn plan_fault(
    sv: Seq<(Seq<char>, TableView)>,
    tv: Seq<(Seq<char>, TableView)>,
    name: Seq<char>,
    base: TableView,
    plan: Seq<(Seq<char>, Seq<char>, Seq<char>)>,
) -> Option<Seq<char>>
    decreases plan.len(),
{
    if plan.len() == 0 {
        None
    } else {
        let j = plan[0];
        match lookup_table(sv, tv, j.0) {
            None => Some(missing_table_message(sv, tv, j.0)),
            Some(ft) => if (is_blank(j.1) || is_blank(j.2)) && guessed_key(base.headers, ft.headers) is None {
                Some(step_message(name, "无法自动猜测与表「"@ + j.0 + "」的关联键，请手动选择对应列"@))
            } else {
                plan_fault(sv, tv, name, base, plan.drop_first())
            },
        }
    }
}

/// `ts` holds exactly the tables a calculation step resolves, each as looked up.
pub open spec fn calc_tables(
    sv: Seq<(Seq<char>, TableView)>,
    tv: Seq<(Seq<char>, TableView)>,
    base: Seq<char>,
    fids: Seq<Seq<char>>,
    plan: Seq<(Seq<char>, Seq<char>, Seq<char>)>,
    ts: Seq<(String, &DataTable)>,
) -> bool {
    &&& forall|id: Seq<char>| #[trigger] has_text(ids_of(ts), id) <==> (id == base || has_text(fids, id) || has_text(plan_ids(plan), id))
    &&& forall|k: int| 0 <= k < ts.len() ==> lookup_table(sv, tv, (#[trigger] ts[k]).0@) == Some(ts[k].1@)
}

/// `js` is the plan with its keys filled.
pub open spec fn calc_joins(
    sv: Seq<(Seq<char>, TableView)>,
    tv: Seq<(Seq<char>, TableView)>,
    base: TableView,
    plan: Seq<(Seq<char>, Seq<char>, Seq<char>)>,
    js: Seq<CalcJoin>,
) -> bool {
    &&& js.len() == plan.len()
    &&& forall|k: int| 0 <= k < js.len() ==> {
        let ft = lookup_table(sv, tv, plan[k].0)->0;
        &&& (#[trigger] js[k]).table_id@ == plan[k].0
        &&& (js[k].base_key@, js[k].foreign_key@) == filled_keys(base, ft, plan[k])
    }
}

/// The result of a calculation step.
pub open spec fn calc_step<K, C, T, E>(
    nums: Numbers<K, C, T, E>,
    sv: Seq<(Seq<char>, TableView)>,
    tv: Seq<(Seq<char>, TableView)>,
    name: Seq<char>,
    base_id: Seq<char>,
    output_field: Seq<char>,
    formula: Seq<char>,
    joins: Seq<CalcJoin>,
    res: Result<TableView, Seq<char>>,
) -> bool where
    K: Fn(&str) -> Option<String>,
    C: Fn(&str, &str) -> Option<CellOrder>,
    T: Fn(&Vec<String>, Aggregate) -> String,
    E: Fn(&FormulaExpr, &Vec<(String, String)>) -> String,
 {
    let fids = table_ids_of(bracket_insides(formula));
    let plan = join_plan(joins, fids, base_id);
    if is_blank(base_id) {
        res == Err::<TableView, Seq<char>>(step_message(name, "请选择基准表"@))
    } else {
        match lookup_table(sv, tv, base_id) {
            None => res == Err::<TableView, Seq<char>>(missing_table_message(sv, tv, base_id)),
            Some(base) => match first_unknown_except(sv, tv, fids, base_id) {
                Some(m) => res == Err::<TableView, Seq<char>>(missing_table_message(sv, tv, m)),
                None => match plan_fault(sv, tv, name, base, plan) {
                    Some(e) => res == Err::<TableView, Seq<char>>(e),
                    None => exists|ts: Seq<(String, &DataTable)>, js: Seq<CalcJoin>|
                        #[trigger] calc_tables(sv, tv, base_id, fids, plan, ts) && #[trigger] calc_joins(sv, tv, base, plan, js)
                            && res == prefixed(name, calc_result(nums, ts, base_id, output_field, formula, js)),
                },
            },
        }
    }
}

/// The tables named by `ids`.
pub open spec fn looked_up(sv: Seq<(Seq<char>, TableView)>, tv: Seq<(Seq<char>, TableView)>, ids: Seq<Seq<char>>) -> Seq<TableView> {
    ids.map_values(|id: Seq<char>| lookup_table(sv, tv, id)->0)
}

/// Columns of a side-by-side step that name both a column and a table.
pub open spec fn placed(c: SideColumn) -> bool {
    !is_blank(c.column@) && !is_blank(c.table_id@)
}

/// The result of a side-by-side step.
pub open spec fn side_step(
    sv: Seq<(Seq<char>, TableView)>,
    tv: Seq<(Seq<char>, TableView)>,
    name: Seq<char>,
    columns: Seq<SideColumn>,
    table_ids: Seq<Seq<char>>,
    res: Result<TableView, Seq<char>>,
) -> bool {
    if columns.len() > 0 {
        match first_unknown_placed(sv, tv, columns) {
            Some(m) => res == Err::<TableView, Seq<char>>(missing_table_message(sv, tv, m)),
            None => exists|ts: Seq<(String, &DataTable)>, r: Result<TableView, Seq<char>>|
                #[trigger] side_columns_outcome(ts, columns, r)
                    && (forall|id: Seq<char>| #[trigger] has_text(ids_of(ts), id) <==> exists|k: int|
                        0 <= k < columns.len() && placed(#[trigger] columns[k]) && columns[k].table_id@ == id)
                    && (forall|k: int| 0 <= k < ts.len() ==> lookup_table(sv, tv, (#[trigger] ts[k]).0@) == Some(ts[k].1@))
                    && res == prefixed(name, r),
        }
    } else if table_ids.len() > 0 {
        match first_unknown(sv, tv, table_ids) {
            Some(m) => res == Err::<TableView, Seq<char>>(step_message(name, missing_table_message(sv, tv, m))),
            None => {
                let found = looked_up(sv, tv, table_ids);
                exists|r: Result<TableView, Seq<char>>| #[trigger] side_outcome(found, r) && res == prefixed(name, r)
            },
        }
    } else {
        res == Err::<TableView, Seq<char>>(step_message(name, "请选择要拼版的列"@))
    }
}

/// The result of a filter step.
pub open spec fn filter_step(sv: Seq<(Seq<char>, TableView)>, tv: Seq<(Seq<char>, TableView)>, name: Seq<char>, id: Seq<char>, conds: Seq<crate::models::FilterCondition>, res: Result<TableView, Seq<char>>) -> bool {
    match lookup_table(sv, tv, id) {
        None => res == Err::<TableView, Seq<char>>(missing_table_message(sv, tv, id)),
        Some(t) => exists|r: Result<TableView, Seq<char>>| #[trigger] filter_outcome(t, conds, r) && res == prefixed(name, r),
    }
}

/// The result of a pivot step.
pub open spec fn pivot_step<K, C, T, E>(nums: Numbers<K, C, T, E>, sv: Seq<(Seq<char>, TableView)>, tv: Seq<(Seq<char>, TableView)>, name: Seq<char>, id: Seq<char>, rf: Seq<Seq<char>>,
    vf: Seq<crate::models::PivotValue>, lf: Seq<char>, la: Seq<char>, res: Result<TableView, Seq<char>>) -> bool where
    K: Fn(&str) -> Option<String>,
    C: Fn(&str, &str) -> Option<CellOrder>,
    T: Fn(&Vec<String>, Aggregate) -> String,
    E: Fn(&FormulaExpr, &Vec<(String, String)>) -> String,
 {
    match lookup_table(sv, tv, id) {
        None => res == Err::<TableView, Seq<char>>(missing_table_message(sv, tv, id)),
        Some(t) => exists|r: Result<TableView, Seq<char>>| #[trigger] pivot_outcome(nums, t, rf, vf, lf, la, r) && res == prefixed(name, r),
    }
}

/// The result of a sort step.
pub open spec fn sort_step<K, C, T, E>(nums: Numbers<K, C, T, E>, sv: Seq<(Seq<char>, TableView)>, tv: Seq<(Seq<char>, TableView)>, name: Seq<char>, id: Seq<char>, keys: Seq<crate::models::SortKey>,
    res: Result<TableView, Seq<char>>) -> bool where
    K: Fn(&str) -> Option<String>,
    C: Fn(&str, &str) -> Option<CellOrder>,
    T: Fn(&Vec<String>, Aggregate) -> String,
    E: Fn(&FormulaExpr, &Vec<(String, String)>) -> String,
 {
    match lookup_table(sv, tv, id) {
        None => res == Err::<TableView, Seq<char>>(missing_table_message(sv, tv, id)),
        Some(t) => exists|r: Result<TableView, Seq<char>>| #[trigger] sort_outcome(nums, t, keys, r) && res == prefixed(name, r),
    }
}

/// The result of a dedupe step.
pub open spec fn dedupe_step<K, C, T, E>(nums: Numbers<K, C, T, E>, sv: Seq<(Seq<char>, TableView)>, tv: Seq<(Seq<char>, TableView)>, name: Seq<char>, id: Seq<char>, cols: Seq<Seq<char>>,
    res: Result<TableView, Seq<char>>) -> bool where
    K: Fn(&str) -> Option<String>,
    C: Fn(&str, &str) -> Option<CellOrder>,
    T: Fn(&Vec<String>, Aggregate) -> String,
    E: Fn(&FormulaExpr, &Vec<(String, String)>) -> String,
 {
    match lookup_table(sv, tv, id) {
        None => res == Err::<TableView, Seq<char>>(missing_table_message(sv, tv, id)),
        Some(t) => exists|r: Result<TableView, Seq<char>>| #[trigger] dedupe_outcome(nums, t, cols, r) && res == prefixed(name, r),
    }
}

/// The result of a lookup-subtract step.
pub open spec fn subtract_step<K, C, T, E>(nums: Numbers<K, C, T, E>, sv: Seq<(Seq<char>, TableView)>, tv: Seq<(Seq<char>, TableView)>, name: Seq<char>, a: Seq<char>, b: Seq<char>,
    lk: Seq<char>, rk: Seq<char>, lv: Seq<char>, rv: Seq<char>, of: Seq<char>, res: Result<TableView, Seq<char>>) -> bool where
    K: Fn(&str) -> Option<String>,
    C: Fn(&str, &str) -> Option<CellOrder>,
    T: Fn(&Vec<String>, Aggregate) -> String,
    E: Fn(&FormulaExpr, &Vec<(String, String)>) -> String,
 {
    match lookup_table(sv, tv, a) {
        None => res == Err::<TableView, Seq<char>>(missing_table_message(sv, tv, a)),
        Some(x) => match lookup_table(sv, tv, b) {
            None => res == Err::<TableView, Seq<char>>(missing_table_message(sv, tv, b)),
            Some(y) => exists|r: Result<TableView, Seq<char>>|
                #[trigger] subtract_outcome(nums, x, y, lk, rk, lv, rv, of, r) && res == prefixed(name, r),
        },
    }
}

/// The result of a lookup step.
pub open spec fn vlookup_step<K, C, T, E>(nums: Numbers<K, C, T, E>, sv: Seq<(Seq<char>, TableView)>, tv: Seq<(Seq<char>, TableView)>, name: Seq<char>, a: Seq<char>, b: Seq<char>,
    lk: Seq<char>, rk: Seq<char>, lc: Seq<Seq<char>>, rc: Seq<Seq<char>>, res: Result<TableView, Seq<char>>) -> bool where
    K: Fn(&str) -> Option<String>,
    C: Fn(&str, &str) -> Option<CellOrder>,
    T: Fn(&Vec<String>, Aggregate) -> String,
    E: Fn(&FormulaExpr, &Vec<(String, String)>) -> String,
 {
    if is_blank(a) || is_blank(b) {
        res == Err::<TableView, Seq<char>>(step_message(name, "请选择表A与表B"@))
    } else {
        match lookup_table(sv, tv, a) {
            None => res == Err::<TableView, Seq<char>>(missing_table_message(sv, tv, a)),
            Some(x) => match lookup_table(sv, tv, b) {
                None => res == Err::<TableView, Seq<char>>(missing_table_message(sv, tv, b)),
                Some(y) => exists|r: Result<TableView, Seq<char>>|
                    #[trigger] vlookup_outcome(nums, x, y, lk, rk, lc, rc, r) && res == prefixed(name, r),
            },
        }
    }
}

/// A filter step's result from the filter's.
proof fn lemma_filter_step(sv: Seq<(Seq<char>, TableView)>, tv: Seq<(Seq<char>, TableView)>, name: Seq<char>, id: Seq<char>, conds: Seq<crate::models::FilterCondition>, t: TableView,
    r: Result<TableView, Seq<char>>, res: Result<TableView, Seq<char>>)
    requires
        lookup_table(sv, tv, id) == Some(t),
        filter_outcome(t, conds, r),
        res == prefixed(name, r),
    ensures
        filter_step(sv, tv, name, id, conds, res),
{
    assert(lookup_table(sv, tv, id)->0 == t);
}

/// A pivot step's result from the pivot's.
proof fn lemma_pivot_step<K, C, T, E>(nums: Numbers<K, C, T, E>, sv: Seq<(Seq<char>, TableView)>, tv: Seq<(Seq<char>, TableView)>, name: Seq<char>, id: Seq<char>, rf: Seq<Seq<char>>,
    vf: Seq<crate::models::PivotValue>, lf: Seq<char>, la: Seq<char>, t: TableView, r: Result<TableView, Seq<char>>, res: Result<TableView, Seq<char>>) where
    K: Fn(&str) -> Option<String>,
    C: Fn(&str, &str) -> Option<CellOrder>,
    T: Fn(&Vec<String>, Aggregate) -> String,
    E: Fn(&FormulaExpr, &Vec<(String, String)>) -> String,
    requires
        lookup_table(sv, tv, id) == Some(t),
        pivot_outcome(nums, t, rf, vf, lf, la, r),
        res == prefixed(name, r),
    ensures
        pivot_step(nums, sv, tv, name, id, rf, vf, lf, la, res),
{
    assert(lookup_table(sv, tv, id)->0 == t);
}

/// A sort step's result from the sort's.
proof fn lemma_sort_step<K, C, T, E>(nums: Numbers<K, C, T, E>, sv: Seq<(Seq<char>, TableView)>, tv: Seq<(Seq<char>, TableView)>, name: Seq<char>, id: Seq<char>, keys: Seq<crate::models::SortKey>,
    t: TableView, r: Result<TableView, Seq<char>>, res: Result<TableView, Seq<char>>) where
    K: Fn(&str) -> Option<String>,
    C: Fn(&str, &str) -> Option<CellOrder>,
    T: Fn(&Vec<String>, Aggregate) -> String,
    E: Fn(&FormulaExpr, &Vec<(String, String)>) -> String,
    requires
        lookup_table(sv, tv, id) == Some(t),
        sort_outcome(nums, t, keys, r),
        res == prefixed(name, r),
    ensures
        sort_step(nums, sv, tv, name, id, keys, res),
{
    assert(lookup_table(sv, tv, id)->0 == t);
}

/// The result of running `step` on the tables `sv` (loaded sources) and `tv` (step
/// outputs).
pub open spec fn step_outcome<K, C, T, E>(
    nums: Numbers<K, C, T, E>,
    sv: Seq<(Seq<char>, TableView)>,
    tv: Seq<(Seq<char>, TableView)>,
    step: Step,
    res: Result<TableView, Seq<char>>,
) -> bool where
    K: Fn(&str) -> Option<String>,
    C: Fn(&str, &str) -> Option<CellOrder>,
    T: Fn(&Vec<String>, Aggregate) -> String,
    E: Fn(&FormulaExpr, &Vec<(String, String)>) -> String,
 {
    let name = step.name@;
    match step.operation {
        Operation::Filter { input_table_id, conditions } => filter_step(sv, tv, name, input_table_id@, conditions@, res),
        Operation::Pivot { input_table_id, row_fields, value_fields, value_field, aggregation } =>
            pivot_step(nums, sv, tv, name, input_table_id@, row_fields.deep_view(), value_fields@, value_field@, aggregation@, res),
        Operation::Sort { input_table_id, keys } => sort_step(nums, sv, tv, name, input_table_id@, keys@, res),
        Operation::Dedupe { input_table_id, columns } => dedupe_step(nums, sv, tv, name, input_table_id@, columns.deep_view(), res),
        Operation::Calculate { base_table_id, output_field, formula, joins } =>
            calc_step(nums, sv, tv, name, base_table_id@, output_field@, formula@, joins@, res),
        Operation::LookupSubtract { left_table_id, right_table_id, left_key, right_key, left_value_field, right_value_field, output_field } =>
            subtract_step(nums, sv, tv, name, left_table_id@, right_table_id@, left_key@, right_key@, left_value_field@, right_value_field@, output_field@, res),
        Operation::SideBySide { columns, table_ids } => side_step(sv, tv, name, columns@, table_ids.deep_view(), res),
        Operation::Vlookup { left_table_id, right_table_id, left_key, right_key, left_columns, right_columns } =>
            vlookup_step(nums, sv, tv, name, left_table_id@, right_table_id@, left_key@, right_key@, left_columns.deep_view(), right_columns.deep_view(), res),
    }
}

/// Planned joins as the contracts see them.
pub open spec fn plan_view(p: Seq<(String, String, String)>) -> Seq<(Seq<char>, Seq<char>, Seq<char>)> {
    p.map_values(|x: (String, String, String)| (x.0@, x.1@, x.2@))
}

/// Whether a planned join names table `id`.
fn plan_holds(plan: &Vec<(String, String, String)>, id: &str) -> (r: bool)
    ensures
        r == has_text(plan_ids(plan_view(plan@)), id@),
{
    let ghost ids = plan_ids(plan_view(plan@));
    let mut i: usize = 0;
    while i < plan.len()
        invariant
            i <= plan@.len(),
            ids == plan_ids(plan_view(plan@)),
            forall|j: int| 0 <= j < i ==> ids[j] != id@,
        decreases plan@.len() - i,
    {
        if same_text(plan[i].0.as_str(), id) {
            assert(ids[i as int] == id@);
            return true;
        }
        i += 1;
    }
    false
}

/// Membership after a push.
pub proof fn lemma_has_text_push<A>(xs: Seq<A>, x: A, y: A)
    ensures
        has_text(xs.push(x), y) <==> (has_text(xs, y) || y == x),
{
    if has_text(xs.push(x), y) {
        let a = choose|a: int| 0 <= a < xs.push(x).len() && xs.push(x)[a] == y;
        if a < xs.len() {
            assert(xs[a] == y);
        }
    }
    if has_text(xs, y) {
        let a = choose|a: int| 0 <= a < xs.len() && xs[a] == y;
        assert(xs.push(x)[a] == y);
    }
    if y == x {
        assert(xs.push(x)[xs.len() as int] == y);
    }
}

/// Table ids that an operation reads (see `op_ids`).
pub fn op_table_ids(op: &Operation) -> (ids: Vec<String>)
    ensures
        ids.deep_view() == op_ids(*op),
{
    let mut ids: Vec<String> = Vec::new();
    match op {
        Operation::Filter { input_table_id, .. } | Operation::Pivot { input_table_id, .. } | Operation::Sort { input_table_id, .. }
        | Operation::Dedupe { input_table_id, .. } => {
            ids.push(input_table_id.clone());
            assert(ids.deep_view() =~= seq![input_table_id@]);
        },
        Operation::Calculate { base_table_id, formula, joins, .. } => {
            ids.push(base_table_id.clone());
            assert(ids.deep_view() =~= seq![base_table_id@] + plan_ids(named_joins(joins@.take(0))));
            let mut q: usize = 0;
            while q < joins.len()
                invariant
                    q <= joins@.len(),
                    ids.deep_view() == seq![base_table_id@] + plan_ids(named_joins(joins@.take(q as int))),
                decreases joins@.len() - q,
            {
                assert(joins@.take(q + 1).drop_last() =~= joins@.take(q as int));
                if !blank(joins[q].table_id.as_str()) {
                    let ghost i0 = ids;
                    let x = joins[q].table_id.clone();
                    ids.push(x);
                    proof {
                        lemma_dv_push(i0, ids, x);
                        assert(ids.deep_view() =~= seq![base_table_id@] + plan_ids(named_joins(joins@.take(q + 1))));
                    }
                } else {
                    assert(plan_ids(named_joins(joins@.take(q + 1))) =~= plan_ids(named_joins(joins@.take(q as int))));
                }
                q += 1;
            }
            assert(joins@.take(q as int) =~= joins@);
            let f = formula_table_ids(formula.as_str());
            crate::models::extend_texts(&mut ids, &f);
        },
        Operation::LookupSubtract { left_table_id, right_table_id, .. } | Operation::Vlookup { left_table_id, right_table_id, .. } => {
            ids.push(left_table_id.clone());
            ids.push(right_table_id.clone());
            assert(ids.deep_view() =~= seq![left_table_id@, right_table_id@]);
        },
        Operation::SideBySide { columns, table_ids } => {
            assert(ids.deep_view() =~= column_table_ids(columns@.take(0)));
            let mut q: usize = 0;
            while q < columns.len()
                invariant
                    q <= columns@.len(),
                    ids.deep_view() == column_table_ids(columns@.take(q as int)),
                decreases columns@.len() - q,
            {
                assert(columns@.take(q + 1).drop_last() =~= columns@.take(q as int));
                if !blank(columns[q].table_id.as_str()) {
                    let ghost i0 = ids;
                    let x = columns[q].table_id.clone();
                    ids.push(x);
                    proof {
                        lemma_dv_push(i0, ids, x);
                    }
                }
                q += 1;
            }
            assert(columns@.take(q as int) =~= columns@);
            crate::models::extend_texts(&mut ids, table_ids);
        },
    }
    ids
}

/// How a source table is read from disk.
pub enum SourceLoad {
    /// A folder of dated files, merged so that the latest row of each key wins.
    Folder { path: String, key: String },
    /// One spreadsheet file with its 1-based header row.
    File { path: String, header_row: usize },
}

/// `ids` with each id of `add` that is a known source and not yet listed appended.
pub open spec fn add_sources(ids: Seq<Seq<char>>, known: Seq<Seq<char>>, add: Seq<Seq<char>>) -> Seq<Seq<char>>
    decreases add.len(),
{
    if add.len() == 0 {
        ids
    } else {
        let p = add_sources(ids, known, add.drop_last());
        let x = add.last();
        if has_text(known, x) && !has_text(p, x) { p.push(x) } else { p }
    }
}

/// An id is in `add_sources` exactly when it was listed, or is a known source that `add`
/// names; ids listed once stay listed once.
proof fn lemma_add_sources_has(ids: Seq<Seq<char>>, known: Seq<Seq<char>>, add: Seq<Seq<char>>, x: Seq<char>)
    ensures
        has_text(add_sources(ids, known, add), x) == (has_text(ids, x) || (has_text(known, x) && has_text(add, x))),
        (forall|i: int, j: int| 0 <= i < j < ids.len() ==> ids[i] != ids[j])
            ==> forall|i: int, j: int| 0 <= i < j < add_sources(ids, known, add).len() ==> add_sources(ids, known, add)[i] != add_sources(ids, known, add)[j],
    decreases add.len(),
{
    if add.len() > 0 {
        let p = add_sources(ids, known, add.drop_last());
        let y = add.last();
        lemma_add_sources_has(ids, known, add.drop_last(), x);
        lemma_add_sources_has(ids, known, add.drop_last(), y);
        if has_text(add, x) && !has_text(add.drop_last(), x) {
            let i = choose|i: int| 0 <= i < add.len() && add[i] == x;
            if i < add.len() - 1 {
                assert(add.drop_last()[i] == x);
            }
        }
        if has_text(add.drop_last(), x) {
            let i = choose|i: int| 0 <= i < add.drop_last().len() && add.drop_last()[i] == x;
            assert(add[i] == x);
        }
        if x == y {
            assert(add[add.len() - 1] == x);
        }
        if has_text(known, y) && !has_text(p, y) {
            assert(p.push(y)[p.len() as int] == y);
            if has_text(p, x) {
                let i = choose|i: int| 0 <= i < p.len() && p[i] == x;
                assert(p.push(y)[i] == x);
            }
            if has_text(p.push(y), x) {
                let i = choose|i: int| 0 <= i < p.push(y).len() && p.push(y)[i] == x;
                if i < p.len() {
                    assert(p[i] == x);
                }
            }
            if forall|i: int, j: int| 0 <= i < j < ids.len() ==> ids[i] != ids[j] {
                assert forall|i: int, j: int| 0 <= i < j < p.push(y).len() implies p.push(y)[i] != p.push(y)[j] by {
                    if j == p.len() {
                        assert(p.push(y)[i] == p[i]);
                        if p[i] == y {
                            assert(has_text(p, y));
                        }
                    } else {
                        assert(p.push(y)[i] == p[i] && p.push(y)[j] == p[j]);
                    }
                }
            }
        }
    }
}

/// Sources-read law: the sources that the first `n` steps read are exactly the known
/// sources that one of those steps names, each listed once.
pub proof fn lemma_sources_read_exact(known: Seq<Seq<char>>, steps: Seq<Step>, n: int, x: Seq<char>)
    requires
        0 <= n <= steps.len(),
    ensures
        has_text(sources_read(known, steps, n), x) == (has_text(known, x)
            && exists|k: int| 0 <= k < n && #[trigger] has_text(op_ids(steps[k].operation), x)),
        forall|i: int, j: int| 0 <= i < j < sources_read(known, steps, n).len() ==> sources_read(known, steps, n)[i] != sources_read(known, steps, n)[j],
    decreases n,
{
    if n > 0 {
        lemma_sources_read_exact(known, steps, n - 1, x);
        lemma_add_sources_has(sources_read(known, steps, n - 1), known, op_ids(steps[n - 1].operation), x);
        if has_text(known, x) && exists|k: int| 0 <= k < n && #[trigger] has_text(op_ids(steps[k].operation), x) {
            let k = choose|k: int| 0 <= k < n && #[trigger] has_text(op_ids(steps[k].operation), x);
            if k < n - 1 {
                assert(has_text(op_ids(steps[k].operation), x));
            }
        }
    }
}

/// Ids of the sources that the first `n` steps read, each once, in order.
pub open spec fn sources_read(known: Seq<Seq<char>>, steps: Seq<Step>, n: int) -> Seq<Seq<char>>
    decreases n,
{
    if n <= 0 {
        Seq::empty()
    } else {
        add_sources(sources_read(known, steps, n - 1), known, op_ids(steps[n - 1].operation))
    }
}

/// Number of steps a run executes: through the first step with id `until`, else all.
pub open spec fn run_len(steps: Seq<Step>, until: Option<Seq<char>>) -> int {
    let ids = steps.map_values(|s: Step| s.id@);
    match until {
        Some(u) => if has_text(ids, u) { position(ids, u) + 1 } else { steps.len() as int },
        None => steps.len() as int,
    }
}

/// An optional text as the contracts see it.
pub open spec fn opt_text(o: Option<&str>) -> Option<Seq<char>> {
    match o {
        Some(s) => Some(s@),
        None => None,
    }
}

/// `xs` with the table named `id` set to `t` (added when absent).
pub open spec fn insert_entry(xs: Seq<(Seq<char>, TableView)>, id: Seq<char>, t: TableView) -> Seq<(Seq<char>, TableView)> {
    if has_text(entry_ids(xs), id) {
        xs.update(position(entry_ids(xs), id), (id, t))
    } else {
        xs.push((id, t))
    }
}

/// `trace` and `outs` record a run of `steps` from no step outputs: step `k` ran on
/// `trace[k]` and gave `outs[k]`, stored under its output id.
pub open spec fn run_trace<K, C, T, E>(
    nums: Numbers<K, C, T, E>,
    sv: Seq<(Seq<char>, TableView)>,
    steps: Seq<Step>,
    trace: Seq<Seq<(Seq<char>, TableView)>>,
    outs: Seq<TableView>,
    n: int,
) -> bool where
    K: Fn(&str) -> Option<String>,
    C: Fn(&str, &str) -> Option<CellOrder>,
    T: Fn(&Vec<String>, Aggregate) -> String,
    E: Fn(&FormulaExpr, &Vec<(String, String)>) -> String,
 {
    &&& 0 <= n <= steps.len()
    &&& trace.len() == n + 1
    &&& outs.len() == n
    &&& trace[0] == Seq::<(Seq<char>, TableView)>::empty()
    &&& forall|k: int| 0 <= k < n ==> #[trigger] step_outcome(nums, sv, trace[k], steps[k], Ok(outs[k]))
        && trace[k + 1] == insert_entry(trace[k], steps[k].output_table_id@, outs[k])
}

/// Every id that `add_sources` adds is known.
proof fn lemma_add_sources_known(ids: Seq<Seq<char>>, known: Seq<Seq<char>>, add: Seq<Seq<char>>)
    requires
        forall|j: int| 0 <= j < ids.len() ==> has_text(known, #[trigger] ids[j]),
    ensures
        forall|j: int| 0 <= j < add_sources(ids, known, add).len() ==> has_text(known, #[trigger] add_sources(ids, known, add)[j]),
    decreases add.len(),
{
    if add.len() > 0 {
        lemma_add_sources_known(ids, known, add.drop_last());
        let p = add_sources(ids, known, add.drop_last());
        assert forall|j: int| 0 <= j < add_sources(ids, known, add).len() implies has_text(known, #[trigger] add_sources(ids, known, add)[j]) by {
            if j < p.len() {
                assert(add_sources(ids, known, add)[j] == p[j]);
            }
        }
    }
}

/// Every id of `sources_read` is known.
proof fn lemma_sources_read_known(known: Seq<Seq<char>>, steps: Seq<Step>, n: int)
    ensures
        forall|j: int| 0 <= j < sources_read(known, steps, n).len() ==> has_text(known, #[trigger] sources_read(known, steps, n)[j]),
    decreases n,
{
    if n > 0 {
        lemma_sources_read_known(known, steps, n - 1);
        lemma_add_sources_known(sources_read(known, steps, n - 1), known, op_ids(steps[n - 1].operation));
    }
}

/// An id named before an insertion is named after it.
proof fn lemma_insert_keeps(before: Seq<(Seq<char>, TableView)>, after: Seq<(Seq<char>, TableView)>, x: Seq<char>)
    requires
        has_text(entry_ids(before), x),
        after == before || exists|id: Seq<char>, t: TableView| after == insert_entry(before, id, t),
    ensures
        has_text(entry_ids(after), x),
{
    if after != before {
        let (id, t) = choose|id: Seq<char>, t: TableView| after == insert_entry(before, id, t);
        let a = choose|a: int| 0 <= a < entry_ids(before).len() && entry_ids(before)[a] == x;
        if has_text(entry_ids(before), id) {
            let p = position(entry_ids(before), id);
            crate::models::lemma_position(entry_ids(before), id);
            if a == p {
                assert(entry_ids(after)[a] == id);
            } else {
                assert(entry_ids(after)[a] == x);
            }
        } else {
            assert(entry_ids(after)[a] == x);
        }
    }
}

/// A step of the run of `steps` through `n` from sources `sv` fails with `e`, the steps
/// before it having run.
pub open spec fn run_fails<K, C, T, E>(nums: Numbers<K, C, T, E>, sv: Seq<(Seq<char>, TableView)>, steps: Seq<Step>, n: int, e: Seq<char>) -> bool where
    K: Fn(&str) -> Option<String>,
    C: Fn(&str, &str) -> Option<CellOrder>,
    T: Fn(&Vec<String>, Aggregate) -> String,
    E: Fn(&FormulaExpr, &Vec<(String, String)>) -> String,
 {
    exists|trace: Seq<Seq<(Seq<char>, TableView)>>, outs: Seq<TableView>, m: int|
        #[trigger] run_trace(nums, sv, steps, trace, outs, m) && m < n && step_outcome(nums, sv, trace[m], steps[m], Err(e))
}

/// Step `k` of a recorded run stored its output under its output id.
proof fn lemma_trace_step<K, C, T, E>(
    nums: Numbers<K, C, T, E>,
    sv: Seq<(Seq<char>, TableView)>,
    steps: Seq<Step>,
    trace: Seq<Seq<(Seq<char>, TableView)>>,
    outs: Seq<TableView>,
    n: int,
    k: int,
) where
    K: Fn(&str) -> Option<String>,
    C: Fn(&str, &str) -> Option<CellOrder>,
    T: Fn(&Vec<String>, Aggregate) -> String,
    E: Fn(&FormulaExpr, &Vec<(String, String)>) -> String,
    requires
        run_trace(nums, sv, steps, trace, outs, n),
        0 <= k < n,
    ensures
        trace[k + 1] == insert_entry(trace[k], steps[k].output_table_id@, outs[k]),
{
    assert(step_outcome(nums, sv, trace[k], steps[k], Ok(outs[k])));
}

/// Run law: after the first `m` steps of a recorded run, the step outputs are named
/// exactly by the output ids of those steps.
pub proof fn lemma_run_outputs<K, C, T, E>(
    nums: Numbers<K, C, T, E>,
    sv: Seq<(Seq<char>, TableView)>,
    steps: Seq<Step>,
    trace: Seq<Seq<(Seq<char>, TableView)>>,
    outs: Seq<TableView>,
    n: int,
    m: int,
    x: Seq<char>,
) where
    K: Fn(&str) -> Option<String>,
    C: Fn(&str, &str) -> Option<CellOrder>,
    T: Fn(&Vec<String>, Aggregate) -> String,
    E: Fn(&FormulaExpr, &Vec<(String, String)>) -> String,
    requires
        run_trace(nums, sv, steps, trace, outs, n),
        0 <= m <= n,
    ensures
        has_text(entry_ids(trace[m]), x) == exists|k: int| 0 <= k < m && #[trigger] steps[k].output_table_id@ == x,
    decreases m,
{
    if m > 0 {
        lemma_run_outputs(nums, sv, steps, trace, outs, n, m - 1, x);
        lemma_trace_step(nums, sv, steps, trace, outs, n, m - 1);
        let id = steps[m - 1].output_table_id@;
        lemma_insert_has(trace[m - 1], id, outs[m - 1]);
        if has_text(entry_ids(trace[m - 1]), x) {
            lemma_insert_keeps(trace[m - 1], trace[m], x);
        }
        if has_text(entry_ids(trace[m]), x) {
            lemma_insert_only(trace[m - 1], id, outs[m - 1], x);
        }
        if exists|k: int| 0 <= k < m && #[trigger] steps[k].output_table_id@ == x {
            let k = choose|k: int| 0 <= k < m && #[trigger] steps[k].output_table_id@ == x;
            if k == m - 1 {
                assert(x == id);
            }
        }
    } else {
        assert(trace[0] == Seq::<(Seq<char>, TableView)>::empty());
    }
}

/// Ids of the sources whose header is ready, in order.
pub open spec fn ready_ids(meta: Seq<SourceTable>) -> Seq<Seq<char>>
    decreases meta.len(),
{
    if meta.len() == 0 {
        Seq::empty()
    } else {
        let p = ready_ids(meta.drop_last());
        if meta.last().header_ok { p.push(meta.last().id@) } else { p }
    }
}

/// An id named after an insertion was named before it, or is the inserted id.
proof fn lemma_insert_only(xs: Seq<(Seq<char>, TableView)>, id: Seq<char>, t: TableView, x: Seq<char>)
    requires
        has_text(entry_ids(insert_entry(xs, id, t)), x),
    ensures
        has_text(entry_ids(xs), x) || x == id,
{
    let after = insert_entry(xs, id, t);
    let a = choose|a: int| 0 <= a < entry_ids(after).len() && entry_ids(after)[a] == x;
    if x != id {
        if has_text(entry_ids(xs), id) {
            crate::models::lemma_position(entry_ids(xs), id);
            let p = position(entry_ids(xs), id);
            assert(after == xs.update(p, (id, t)));
            assert(a != p);
            assert(after[a] == xs[a]);
            assert(entry_ids(xs)[a] == x);
        } else {
            assert(a < xs.len());
            assert(entry_ids(xs)[a] == x);
        }
    }
}

/// The inserted id is named after an insertion.
proof fn lemma_insert_has(xs: Seq<(Seq<char>, TableView)>, id: Seq<char>, t: TableView)
    ensures
        has_text(entry_ids(insert_entry(xs, id, t)), id),
{
    let ids0 = entry_ids(xs);
    if has_text(ids0, id) {
        crate::models::lemma_position(ids0, id);
        assert(entry_ids(insert_entry(xs, id, t))[position(ids0, id)] == id);
    } else {
        assert(entry_ids(insert_entry(xs, id, t))[ids0.len() as int] == id);
    }
}

/// The merge key that `folder_merges` gives source `id` (empty when it gives none).
pub open spec fn merge_key_of(fm: Seq<(String, FolderMerge)>, id: Seq<char>) -> Seq<char> {
    let ids = fm.map_values(|p: (String, FolderMerge)| p.0@);
    if has_text(ids, id) { fm[position(ids, id)].1.key_column@ } else { Seq::empty() }
}

/// Why known source `id` cannot be read, among sources `meta` with merge keys `fm`: its
/// header is not ready, or it is a folder with no merge key; nothing for an id that no
/// source has.
pub open spec fn source_fault(meta: Seq<SourceTable>, fm: Seq<(String, FolderMerge)>, id: Seq<char>) -> Option<Seq<char>> {
    let ids = meta.map_values(|m: SourceTable| m.id@);
    if !has_text(ids, id) {
        None
    } else {
        let m = meta[position(ids, id)];
        if !m.header_ok {
            Some("源表「"@ + m.name@ + "」表头未就绪，请先指定表头行"@)
        } else if m.kind@ == "folder"@ && is_blank(merge_key_of(fm, id)) {
            Some("累计表「"@ + m.name@ + "」尚未选择覆盖键列。请在源表中指定按哪一列用最新数据覆盖"@)
        } else {
            None
        }
    }
}

/// Why a run cannot read table `id` before it asks for it: nothing when the table is
/// loaded or is a step output, else its source fault (see `source_fault`).
pub open spec fn read_fault(rt: Runtime, id: Seq<char>) -> Option<Seq<char>> {
    if has_text(entry_ids(rt.sv()), id) || has_text(entry_ids(rt.tv()), id) {
        None
    } else {
        source_fault(rt.source_meta@, rt.folder_merges@, id)
    }
}

/// `a` is how to read source `m` (see `load_request`): a folder with its merge key, or a
/// file with its header row.
pub open spec fn is_request(a: SourceLoad, m: SourceTable, fm: Seq<(String, FolderMerge)>) -> bool {
    match a {
        SourceLoad::Folder { path, key } => m.kind@ == "folder"@ && path@ == m.path@ && key@ == merge_key_of(fm, m.id@),
        SourceLoad::File { path, header_row } => m.kind@ != "folder"@ && path@ == m.path@ && header_row == m.header_row,
    }
}

/// `sv2` is the loaded sources of `rt` with source `id` set to a table that `load` gave
/// for the source's request and the runtime's header rows.
pub open spec fn loaded_from<L: Fn(&SourceLoad, &Vec<(String, usize)>) -> Result<DataTable, String>>(
    rt: Runtime,
    id: Seq<char>,
    load: L,
    sv2: Seq<(Seq<char>, TableView)>,
) -> bool {
    exists|a: &SourceLoad, b: &Vec<(String, usize)>, t: DataTable| #![trigger load.ensures((a, b), Ok::<DataTable, String>(t))]
        is_request(*a, rt.source_meta@[position(rt.meta_ids(), id)], rt.folder_merges@) && b@ == rt.header_rows@
        && load.ensures((a, b), Ok::<DataTable, String>(t)) && sv2 == insert_entry(rt.sv(), id, t@)
}

/// `t` is a table that `load` gave for the request of source `id` among `meta` (with
/// merge keys `fm`) and header rows `rows`.
pub open spec fn load_gave<L: Fn(&SourceLoad, &Vec<(String, usize)>) -> Result<DataTable, String>>(
    load: L,
    meta: Seq<SourceTable>,
    fm: Seq<(String, FolderMerge)>,
    rows: Seq<(String, usize)>,
    id: Seq<char>,
    t: TableView,
) -> bool {
    exists|a: &SourceLoad, b: &Vec<(String, usize)>, d: DataTable| #![trigger load.ensures((a, b), Ok::<DataTable, String>(d))]
        is_request(*a, meta[position(meta.map_values(|m: SourceTable| m.id@), id)], fm) && b@ == rows
        && load.ensures((a, b), Ok::<DataTable, String>(d)) && d@ == t
}

/// Each loaded source of `after` past those of `before` holds a table that `load` gave
/// for its request (see `load_gave`).
pub open spec fn loads_from<L: Fn(&SourceLoad, &Vec<(String, usize)>) -> Result<DataTable, String>>(
    before: Seq<(Seq<char>, TableView)>,
    after: Seq<(Seq<char>, TableView)>,
    meta: Seq<SourceTable>,
    fm: Seq<(String, FolderMerge)>,
    rows: Seq<(String, usize)>,
    load: L,
) -> bool {
    forall|i: int| before.len() <= i < after.len() ==> #[trigger] load_gave(load, meta, fm, rows, after[i].0, after[i].1)
}

/// A source newly loaded from `rt` was appended with a table that `load` gave.
proof fn lemma_loaded_from_gave<L: Fn(&SourceLoad, &Vec<(String, usize)>) -> Result<DataTable, String>>(rt: Runtime, id: Seq<char>, load: L, sv2: Seq<(Seq<char>, TableView)>)
    requires
        loaded_from(rt, id, load, sv2),
        !has_text(entry_ids(rt.sv()), id),
    ensures
        loads_from(rt.sv(), sv2, rt.source_meta@, rt.folder_merges@, rt.header_rows@, load),
        sv2.len() == rt.sv().len() + 1,
        sv2.subrange(0, rt.sv().len() as int) == rt.sv(),
{
    let (a, b, t) = choose|a: &SourceLoad, b: &Vec<(String, usize)>, t: DataTable| #![trigger load.ensures((a, b), Ok::<DataTable, String>(t))]
        is_request(*a, rt.source_meta@[position(rt.meta_ids(), id)], rt.folder_merges@) && b@ == rt.header_rows@
        && load.ensures((a, b), Ok::<DataTable, String>(t)) && sv2 == insert_entry(rt.sv(), id, t@);
    assert(sv2 == rt.sv().push((id, t@)));
    assert(sv2.subrange(0, rt.sv().len() as int) =~= rt.sv());
    assert(load_gave(load, rt.source_meta@, rt.folder_merges@, rt.header_rows@, sv2[rt.sv().len() as int].0, sv2[rt.sv().len() as int].1));
}

/// Loads that follow loads are loads too.
proof fn lemma_loads_from_trans<L: Fn(&SourceLoad, &Vec<(String, usize)>) -> Result<DataTable, String>>(
    a: Seq<(Seq<char>, TableView)>,
    b: Seq<(Seq<char>, TableView)>,
    c: Seq<(Seq<char>, TableView)>,
    meta: Seq<SourceTable>,
    fm: Seq<(String, FolderMerge)>,
    rows: Seq<(String, usize)>,
    load: L,
)
    requires
        loads_from(a, b, meta, fm, rows, load),
        loads_from(b, c, meta, fm, rows, load),
        b.len() <= c.len(),
        c.subrange(0, b.len() as int) == b,
    ensures
        loads_from(a, c, meta, fm, rows, load),
{
    assert forall|i: int| a.len() <= i < c.len() implies #[trigger] load_gave(load, meta, fm, rows, c[i].0, c[i].1) by {
        if i < b.len() {
            assert(c[i] == c.subrange(0, b.len() as int)[i]);
            assert(load_gave(load, meta, fm, rows, b[i].0, b[i].1));
        }
    }
}

/// `load` never fails.
pub open spec fn load_never_fails<L: Fn(&SourceLoad, &Vec<(String, usize)>) -> Result<DataTable, String>>(load: L) -> bool {
    forall|a: &SourceLoad, b: &Vec<(String, usize)>, res: Result<DataTable, String>| #[trigger] load.ensures((a, b), res) ==> res is Ok
}

/// `load`, handed header rows `rows`, failed with `e`.
pub open spec fn load_failed<L: Fn(&SourceLoad, &Vec<(String, usize)>) -> Result<DataTable, String>>(load: L, rows: Seq<(String, usize)>, e: String) -> bool {
    exists|a: &SourceLoad, b: &Vec<(String, usize)>| #![trigger load.ensures((a, b), Err::<DataTable, String>(e))]
        b@ == rows && load.ensures((a, b), Err::<DataTable, String>(e))
}

/// No id of `ids` has a read fault in `rt`.
pub open spec fn all_ready(rt: Runtime, ids: Seq<Seq<char>>) -> bool {
    forall|k: int| 0 <= k < ids.len() ==> (#[trigger] read_fault(rt, ids[k])) is None
}

/// `e` is why reading the tables `ids` from `rt` failed: the read fault of one of them,
/// or an error of `load` (handed the runtime's header rows).
pub open spec fn read_error<L: Fn(&SourceLoad, &Vec<(String, usize)>) -> Result<DataTable, String>>(rt: Runtime, ids: Seq<Seq<char>>, load: L, e: String) -> bool {
    ||| exists|k: int| 0 <= k < ids.len() && #[trigger] read_fault(rt, ids[k]) == Some(e@)
    ||| load_failed(load, rt.header_rows@, e)
}

/// `e` is why reading the sources `ids` failed, from sources `meta` with merge keys `fm`
/// and header rows `rows` and nothing loaded yet: a source fault of one of them, or an
/// error of `load`.
pub open spec fn source_read_error<L: Fn(&SourceLoad, &Vec<(String, usize)>) -> Result<DataTable, String>>(
    meta: Seq<SourceTable>,
    fm: Seq<(String, FolderMerge)>,
    rows: Seq<(String, usize)>,
    ids: Seq<Seq<char>>,
    load: L,
    e: String,
) -> bool {
    ||| exists|k: int| 0 <= k < ids.len() && #[trigger] source_fault(meta, fm, ids[k]) == Some(e@)
    ||| load_failed(load, rows, e)
}

/// With nothing loaded, a read error is a source read error.
pub proof fn lemma_fresh_read_error<L: Fn(&SourceLoad, &Vec<(String, usize)>) -> Result<DataTable, String>>(rt: Runtime, ids: Seq<Seq<char>>, load: L, e: String)
    requires
        rt.sv().len() == 0,
        rt.tv().len() == 0,
        read_error(rt, ids, load, e),
    ensures
        source_read_error(rt.source_meta@, rt.folder_merges@, rt.header_rows@, ids, load, e),
{
    if exists|k: int| 0 <= k < ids.len() && #[trigger] read_fault(rt, ids[k]) == Some(e@) {
        let k = choose|k: int| 0 <= k < ids.len() && #[trigger] read_fault(rt, ids[k]) == Some(e@);
        assert(!has_text(entry_ids(rt.sv()), ids[k]));
        assert(!has_text(entry_ids(rt.tv()), ids[k]));
        assert(source_fault(rt.source_meta@, rt.folder_merges@, ids[k]) == Some(e@));
    }
}

/// The loaded sources of `after` are those of `before` and ids that had no read fault
/// in `rt0`.
pub open spec fn grown(before: Seq<(Seq<char>, TableView)>, after: Seq<(Seq<char>, TableView)>, rt0: Runtime) -> bool {
    forall|y: Seq<char>| #![trigger has_text(entry_ids(after), y)] #![trigger has_text(entry_ids(before), y)]
        (has_text(entry_ids(before), y) ==> has_text(entry_ids(after), y))
        && (has_text(entry_ids(after), y) ==> has_text(entry_ids(before), y) || read_fault(rt0, y) is None)
}

/// Every source loaded in `after` was loaded in `before` or is one of `ids`.
pub open spec fn loaded_only(before: Seq<(Seq<char>, TableView)>, after: Seq<(Seq<char>, TableView)>, ids: Seq<Seq<char>>) -> bool {
    forall|y: Seq<char>| #[trigger] has_text(entry_ids(after), y) ==> has_text(entry_ids(before), y) || has_text(ids, y)
}

/// A run with the sources of `rt0` and more, loaded without fault, sees the read faults of
/// `rt0`.
proof fn lemma_fault_kept(rt0: Runtime, rt: Runtime, x: Seq<char>)
    requires
        grown(rt0.sv(), rt.sv(), rt0),
        rt.tv() == rt0.tv(),
        rt.source_meta@ == rt0.source_meta@,
        rt.folder_merges@ == rt0.folder_merges@,
    ensures
        read_fault(rt0, x) is None ==> read_fault(rt, x) is None,
        read_fault(rt0, x) is Some ==> read_fault(rt, x) == read_fault(rt0, x),
{
    assert(rt.meta_ids() == rt0.meta_ids());
    if has_text(entry_ids(rt0.sv()), x) {
        assert(has_text(entry_ids(rt.sv()), x));
    }
    if has_text(entry_ids(rt.sv()), x) {
        assert(has_text(entry_ids(rt0.sv()), x) || read_fault(rt0, x) is None);
    }
}

/// One more source loaded without fault keeps the loaded sources grown.
proof fn lemma_grown_step(rt0: Runtime, rt: Runtime, sv2: Seq<(Seq<char>, TableView)>, id: Seq<char>)
    requires
        grown(rt0.sv(), rt.sv(), rt0),
        rt.tv() == rt0.tv(),
        rt.source_meta@ == rt0.source_meta@,
        rt.folder_merges@ == rt0.folder_merges@,
        sv2 == rt.sv() || (read_fault(rt, id) is None && exists|t: TableView| sv2 == insert_entry(rt.sv(), id, t)),
    ensures
        grown(rt0.sv(), sv2, rt0),
{
    assert forall|y: Seq<char>| #![trigger has_text(entry_ids(sv2), y)] #![trigger has_text(entry_ids(rt0.sv()), y)]
        (has_text(entry_ids(rt0.sv()), y) ==> has_text(entry_ids(sv2), y))
        && (has_text(entry_ids(sv2), y) ==> has_text(entry_ids(rt0.sv()), y) || read_fault(rt0, y) is None) by {
        if has_text(entry_ids(rt0.sv()), y) {
            assert(has_text(entry_ids(rt.sv()), y));
            lemma_insert_keeps(rt.sv(), sv2, y);
        }
        if has_text(entry_ids(sv2), y) && sv2 != rt.sv() {
            let t = choose|t: TableView| sv2 == insert_entry(rt.sv(), id, t);
            lemma_insert_only(rt.sv(), id, t, y);
            if y == id && !has_text(entry_ids(rt.sv()), y) {
                lemma_fault_kept(rt0, rt, id);
            }
        }
    }
}

/// Tables of a pipeline run: loaded source tables and step outputs, each by id (the
/// first entry of an id is the one that counts), with what is known of the sources.
pub struct Runtime {
    pub sources: Vec<(String, DataTable)>,
    pub source_meta: Vec<SourceTable>,
    pub temps: Vec<(String, DataTable)>,
    pub header_rows: Vec<(String, usize)>,
    pub folder_merges: Vec<(String, FolderMerge)>,
}

/// Position of the first entry named `id`.
pub(crate) fn entry_index(xs: &Vec<(String, DataTable)>, id: &str) -> (r: Option<usize>)
    ensures
        match r {
            Some(i) => first_at(entry_ids(entries_view(xs@)), id@, i as int) && i < xs@.len(),
            None => !has_text(entry_ids(entries_view(xs@)), id@),
        },
{
    let ghost ids = entry_ids(entries_view(xs@));
    let mut i: usize = 0;
    while i < xs.len()
        invariant
            i <= xs@.len(),
            ids == entry_ids(entries_view(xs@)),
            forall|j: int| 0 <= j < i ==> ids[j] != id@,
        decreases xs@.len() - i,
    {
        if same_text(xs[i].0.as_str(), id) {
            assert(ids[i as int] == id@);
            return Some(i);
        }
        i += 1;
    }
    None
}

/// `debug_list` of the ids of named tables.
fn debug_ids(xs: &Vec<(String, DataTable)>) -> (r: String)
    ensures
        r@ == debug_list(entry_ids(entries_view(xs@))),
{
    let ghost ids = entry_ids(entries_view(xs@));
    let mut quoted: Vec<String> = Vec::new();
    let mut i: usize = 0;
    while i < xs.len()
        invariant
            i <= xs@.len(),
            ids == entry_ids(entries_view(xs@)),
            quoted.deep_view() == ids.take(i as int).map_values(|x: Seq<char>| "\""@ + x + "\""@),
        decreases xs@.len() - i,
    {
        let mut q = "\"".to_owned();
        q.append(xs[i].0.as_str());
        q.append("\"");
        let ghost q0 = quoted;
        quoted.push(q);
        proof {
            lemma_dv_push(q0, quoted, q);
            assert(ids.take(i + 1) =~= ids.take(i as int).push(ids[i as int]));
            assert(quoted.deep_view() =~= ids.take(i + 1).map_values(|x: Seq<char>| "\""@ + x + "\""@));
        }
        i += 1;
    }
    assert(ids.take(i as int) =~= ids);
    let mut r = "[".to_owned();
    let inner = join_strings(&quoted, ", ");
    r.append(inner.as_str());
    r.append("]");
    r
}

/// `step_message` of a step's name and an error.
fn step_error(name: &String, e: &str) -> (r: String)
    ensures
        r@ == step_message(name@, e@),
{
    let mut r = "步骤「".to_owned();
    r.append(name.as_str());
    r.append("」: ");
    r.append(e);
    r
}

/// A result whose error names the step.
fn with_step(name: &String, r: Result<DataTable, String>) -> (out: Result<DataTable, String>)
    ensures
        table_result(out) == prefixed(name@, table_result(r)),
{
    match r {
        Ok(t) => Ok(t),
        Err(e) => Err(step_error(name, e.as_str())),
    }
}

impl Runtime {
    /// Loaded sources as the contracts see them.
    pub open spec fn sv(&self) -> Seq<(Seq<char>, TableView)> {
        entries_view(self.sources@)
    }

    /// Step outputs as the contracts see them.
    pub open spec fn tv(&self) -> Seq<(Seq<char>, TableView)> {
        entries_view(self.temps@)
    }

    /// Ids of the known sources.
    pub open spec fn meta_ids(&self) -> Seq<Seq<char>> {
        self.source_meta@.map_values(|m: SourceTable| m.id@)
    }

    /// A runtime with no table loaded.
    pub fn new(source_meta: Vec<SourceTable>, header_rows: Vec<(String, usize)>, folder_merges: Vec<(String, FolderMerge)>) -> (r: Self)
        ensures
            r.sources@.len() == 0,
            r.temps@.len() == 0,
            r.source_meta@ == source_meta@,
            r.header_rows@ == header_rows@,
            r.folder_merges@ == folder_merges@,
    {
        Runtime { sources: Vec::new(), source_meta, temps: Vec::new(), header_rows, folder_merges }
    }

    /// Whether `id` is a known source.
    pub fn is_source_id(&self, id: &str) -> (r: bool)
        ensures
            r == has_text(self.meta_ids(), id@),
    {
        let ghost ids = self.meta_ids();
        let mut i: usize = 0;
        while i < self.source_meta.len()
            invariant
                i <= self.source_meta@.len(),
                ids == self.meta_ids(),
                forall|j: int| 0 <= j < i ==> ids[j] != id@,
            decreases self.source_meta@.len() - i,
        {
            if same_text(self.source_meta[i].id.as_str(), id) {
                assert(ids[i as int] == id@);
                return true;
            }
            i += 1;
        }
        false
    }

    /// The table `id`: a loaded source first, else a step output.
    pub fn get_table(&self, id: &str) -> (r: Result<&DataTable, String>)
        ensures
            match r {
                Ok(t) => lookup_table(self.sv(), self.tv(), id@) == Some(t@),
                Err(e) => lookup_table(self.sv(), self.tv(), id@) is None && e@ == missing_table_message(self.sv(), self.tv(), id@),
            },
    {
        match entry_index(&self.sources, id) {
            Some(i) => {
                proof {
                    lemma_first_at_unique(entry_ids(self.sv()), id@, i as int);
                }
                return Ok(&self.sources[i].1);
            },
            None => {},
        }
        match entry_index(&self.temps, id) {
            Some(i) => {
                proof {
                    lemma_first_at_unique(entry_ids(self.tv()), id@, i as int);
                }
                Ok(&self.temps[i].1)
            },
            None => {
                let mut e = "找不到表「".to_owned();
                e.append(id);
                e.append("」。可用源表: ");
                let a = debug_ids(&self.sources);
                e.append(a.as_str());
                e.append("；临时表: ");
                let b = debug_ids(&self.temps);
                e.append(b.as_str());
                Err(e)
            },
        }
    }

    /// Runs one step on the tables it names (see `step_outcome`).
    pub fn execute_step<K, C, T, E>(&self, nums: &Numbers<K, C, T, E>, step: &Step) -> (r: Result<DataTable, String>) where
        K: Fn(&str) -> Option<String>,
        C: Fn(&str, &str) -> Option<CellOrder>,
        T: Fn(&Vec<String>, Aggregate) -> String,
        E: Fn(&FormulaExpr, &Vec<(String, String)>) -> String,
        requires
            nums.wf(),
        ensures
            step_outcome(*nums, self.sv(), self.tv(), *step, table_result(r)),
    {
        match &step.operation {
            Operation::Filter { input_table_id, conditions } => {
                let input = match self.get_table(input_table_id.as_str()) {
                    Ok(t) => t,
                    Err(e) => return Err(e),
                };
                let cs = conditions.as_slice();
                let r = apply_filter(input, cs);
                assert(cs@ == conditions@);
                assert(filter_outcome(input@, conditions@, table_result(r)));
                let out = with_step(&step.name, r);
                assert(lookup_table(self.sv(), self.tv(), input_table_id@) == Some(input@));
                assert(table_result(out) == prefixed(step.name@, table_result(r)));
                assert(filter_outcome(input@, conditions@, table_result(r)));
                proof {
                    lemma_filter_step(self.sv(), self.tv(), step.name@, input_table_id@, conditions@, input@, table_result(r), table_result(out));
                }
                assert(step_outcome(*nums, self.sv(), self.tv(), *step, table_result(out)));
                out
            },
            Operation::Pivot { input_table_id, row_fields, value_fields, value_field, aggregation } => {
                let input = match self.get_table(input_table_id.as_str()) {
                    Ok(t) => t,
                    Err(e) => return Err(e),
                };
                let r = apply_pivot(nums, input, row_fields.as_slice(), value_fields.as_slice(), value_field.as_str(), aggregation.as_str());
                assert(pivot_outcome(*nums, input@, row_fields.deep_view(), value_fields@, value_field@, aggregation@, table_result(r)));
                let out = with_step(&step.name, r);
                proof {
                    lemma_pivot_step(*nums, self.sv(), self.tv(), step.name@, input_table_id@, row_fields.deep_view(), value_fields@, value_field@,
                        aggregation@, input@, table_result(r), table_result(out));
                }
                assert(step_outcome(*nums, self.sv(), self.tv(), *step, table_result(out)));
                out
            },
            Operation::Sort { input_table_id, keys } => {
                let input = match self.get_table(input_table_id.as_str()) {
                    Ok(t) => t,
                    Err(e) => return Err(e),
                };
                let r = apply_sort(nums, input, keys.as_slice());
                assert(sort_outcome(*nums, input@, keys@, table_result(r)));
                let out = with_step(&step.name, r);
                proof {
                    lemma_sort_step(*nums, self.sv(), self.tv(), step.name@, input_table_id@, keys@, input@, table_result(r), table_result(out));
                }
                assert(step_outcome(*nums, self.sv(), self.tv(), *step, table_result(out)));
                out
            },
            Operation::Dedupe { input_table_id, columns } => {
                let input = match self.get_table(input_table_id.as_str()) {
                    Ok(t) => t,
                    Err(e) => return Err(e),
                };
                let r = apply_dedupe(nums, input, columns.as_slice());
                assert(dedupe_outcome(*nums, input@, columns.deep_view(), table_result(r)));
                let out = with_step(&step.name, r);
                assert(lookup_table(self.sv(), self.tv(), input_table_id@)->0 == input@);
                assert(dedupe_step(*nums, self.sv(), self.tv(), step.name@, input_table_id@, columns.deep_view(), table_result(out)));
                assert(step_outcome(*nums, self.sv(), self.tv(), *step, table_result(out)));
                out
            },
            Operation::Calculate { base_table_id, output_field, formula, joins } => {
                self.calculate_step(nums, &step.name, base_table_id, output_field, formula, joins)
            },
            Operation::LookupSubtract { left_table_id, right_table_id, left_key, right_key, left_value_field, right_value_field, output_field } => {
                let left = match self.get_table(left_table_id.as_str()) {
                    Ok(t) => t,
                    Err(e) => return Err(e),
                };
                let right = match self.get_table(right_table_id.as_str()) {
                    Ok(t) => t,
                    Err(e) => return Err(e),
                };
                let r = apply_lookup_subtract(nums, left, right, left_key.as_str(), right_key.as_str(), left_value_field.as_str(),
                    right_value_field.as_str(), output_field.as_str());
                assert(subtract_outcome(*nums, left@, right@, left_key@, right_key@, left_value_field@, right_value_field@, output_field@, table_result(r)));
                let out = with_step(&step.name, r);
                assert(lookup_table(self.sv(), self.tv(), left_table_id@)->0 == left@);
                assert(lookup_table(self.sv(), self.tv(), right_table_id@)->0 == right@);
                assert(subtract_step(*nums, self.sv(), self.tv(), step.name@, left_table_id@, right_table_id@, left_key@, right_key@, left_value_field@, right_value_field@, output_field@, table_result(out)));
                assert(step_outcome(*nums, self.sv(), self.tv(), *step, table_result(out)));
                out
            },
            Operation::SideBySide { columns, table_ids } => {
                self.side_by_side_step(&step.name, columns, table_ids)
            },
            Operation::Vlookup { left_table_id, right_table_id, left_key, right_key, left_columns, right_columns } => {
                if blank(left_table_id.as_str()) || blank(right_table_id.as_str()) {
                    return Err(step_error(&step.name, "请选择表A与表B"));
                }
                let left = match self.get_table(left_table_id.as_str()) {
                    Ok(t) => t,
                    Err(e) => return Err(e),
                };
                let right = match self.get_table(right_table_id.as_str()) {
                    Ok(t) => t,
                    Err(e) => return Err(e),
                };
                let r = apply_vlookup(nums, left, right, left_key.as_str(), right_key.as_str(), left_columns.as_slice(), right_columns.as_slice());
                assert(vlookup_outcome(*nums, left@, right@, left_key@, right_key@, left_columns.deep_view(), right_columns.deep_view(), table_result(r)));
                let out = with_step(&step.name, r);
                assert(lookup_table(self.sv(), self.tv(), left_table_id@)->0 == left@);
                assert(lookup_table(self.sv(), self.tv(), right_table_id@)->0 == right@);
                assert(vlookup_step(*nums, self.sv(), self.tv(), step.name@, left_table_id@, right_table_id@, left_key@, right_key@, left_columns.deep_view(), right_columns.deep_view(), table_result(out)));
                assert(step_outcome(*nums, self.sv(), self.tv(), *step, table_result(out)));
                out
            },
        }
    }

    /// A calculation step (see `calc_step`).
    fn calculate_step<K, C, T, E>(
        &self,
        nums: &Numbers<K, C, T, E>,
        name: &String,
        base_table_id: &String,
        output_field: &String,
        formula: &String,
        joins: &Vec<CalcJoin>,
    ) -> (r: Result<DataTable, String>) where
        K: Fn(&str) -> Option<String>,
        C: Fn(&str, &str) -> Option<CellOrder>,
        T: Fn(&Vec<String>, Aggregate) -> String,
        E: Fn(&FormulaExpr, &Vec<(String, String)>) -> String,
        requires
            nums.wf(),
        ensures
            calc_step(*nums, self.sv(), self.tv(), name@, base_table_id@, output_field@, formula@, joins@, table_result(r)),
    {
        let ghost sv = self.sv();
        let ghost tv = self.tv();
        let ghost bid = base_table_id@;
        if blank(base_table_id.as_str()) {
            return Err(step_error(name, "请选择基准表"));
        }
        let base = match self.get_table(base_table_id.as_str()) {
            Ok(t) => t,
            Err(e) => return Err(e),
        };
        let fids = formula_table_ids(formula.as_str());
        let ghost fv = fids.deep_view();
        let mut tables: Vec<(String, &DataTable)> = Vec::new();
        tables.push((base_table_id.clone(), base));
        proof {
            assert(ids_of(tables@) =~= seq![bid]);
            assert(fv.take(0) =~= Seq::<Seq<char>>::empty());
            assert forall|id: Seq<char>| #[trigger] has_text(ids_of(tables@), id) <==> (id == bid || has_text(fv.take(0), id)) by {
                if id == bid {
                    assert(ids_of(tables@)[0] == id);
                }
            }
        }
        // Tables named by the formula.
        assert(fv.subrange(0, fv.len() as int) =~= fv);
        let mut k: usize = 0;
        while k < fids.len()
            invariant
                k <= fv.len(),
                fv == fids.deep_view(),
                fv == table_ids_of(bracket_insides(formula@)),
                sv == self.sv(),
                tv == self.tv(),
                !is_blank(bid),
                bid == base_table_id@,
                lookup_table(sv, tv, bid) == Some(base@),
                first_unknown_except(sv, tv, fv, bid) == first_unknown_except(sv, tv, fv.subrange(k as int, fv.len() as int), bid),
                forall|q: int| 0 <= q < tables@.len() ==> lookup_table(sv, tv, (#[trigger] tables@[q]).0@) == Some(tables@[q].1@),
                forall|id: Seq<char>| #[trigger] has_text(ids_of(tables@), id) <==> (id == bid || has_text(fv.take(k as int), id)),
            decreases fv.len() - k,
        {
            let ghost rest = fv.subrange(k as int, fv.len() as int);
            assert(rest[0] == fv[k as int]);
            assert(rest.drop_first() =~= fv.subrange(k + 1, fv.len() as int));
            let ghost t0 = tables@;
            assert(fv.take(k + 1) =~= fv.take(k as int).push(fv[k as int]));
            assert(fids@[k as int]@ == fv[k as int]);
            if !same_text(fids[k].as_str(), base_table_id.as_str()) {
                let f = match self.get_table(fids[k].as_str()) {
                    Ok(t) => t,
                    Err(e) => {
                        proof {
                            assert(first_unknown_except(sv, tv, rest, bid) == Some(fv[k as int]));
                        }
                        return Err(e);
                    },
                };
                if find_named(&tables, fids[k].as_str()).is_none() {
                    tables.push((fids[k].clone(), f));
                }
            }
            proof {
                assert forall|q: int| 0 <= q < tables@.len() implies lookup_table(sv, tv, (#[trigger] tables@[q]).0@) == Some(tables@[q].1@) by {
                    if q < t0.len() {
                        assert(tables@[q] == t0[q]);
                    }
                }
                assert forall|id: Seq<char>| #[trigger] has_text(ids_of(tables@), id) <==> (id == bid || has_text(fv.take(k + 1), id)) by {
                    lemma_has_text_push(fv.take(k as int), fv[k as int], id);
                    if has_text(ids_of(tables@), id) {
                        let a = choose|a: int| 0 <= a < ids_of(tables@).len() && ids_of(tables@)[a] == id;
                        if a < t0.len() {
                            assert(ids_of(t0)[a] == id);
                        }
                    }
                    if has_text(ids_of(t0), id) {
                        let a = choose|a: int| 0 <= a < ids_of(t0).len() && ids_of(t0)[a] == id;
                        assert(ids_of(tables@)[a] == id);
                    }
                    if id == fv[k as int] && id != bid && tables@.len() > t0.len() {
                        assert(ids_of(tables@)[t0.len() as int] == id);
                    }
                }
            }
            k += 1;
        }
        assert(fv.subrange(fv.len() as int, fv.len() as int).len() == 0);
        assert(fv.take(fv.len() as int) =~= fv);
        // The join plan.
        let mut plan: Vec<(String, String, String)> = Vec::new();
        let mut q: usize = 0;
        while q < joins.len()
            invariant
                q <= joins@.len(),
                plan_view(plan@) == named_joins(joins@.take(q as int)),
            decreases joins@.len() - q,
        {
            assert(joins@.take(q + 1).drop_last() =~= joins@.take(q as int));
            let j = &joins[q];
            if !blank(j.table_id.as_str()) {
                let ghost p0 = plan@;
                let x = (j.table_id.clone(), j.base_key.clone(), j.foreign_key.clone());
                plan.push(x);
                assert(plan_view(plan@) =~= plan_view(p0).push((x.0@, x.1@, x.2@)));
            }
            q += 1;
        }
        assert(joins@.take(q as int) =~= joins@);
        let mut k: usize = 0;
        while k < fids.len()
            invariant
                k <= fv.len(),
                fv == fids.deep_view(),
                fv == table_ids_of(bracket_insides(formula@)),
                bid == base_table_id@,
                plan_view(plan@) == join_plan(joins@, fv.take(k as int), bid),
            decreases fv.len() - k,
        {
            assert(fv.take(k + 1).drop_last() =~= fv.take(k as int));
            assert(fv.take(k + 1).last() == fv[k as int]);
            let known = plan_holds(&plan, fids[k].as_str());
            if !same_text(fids[k].as_str(), base_table_id.as_str()) && !known {
                let ghost p0 = plan@;
                let x = (fids[k].clone(), String::new(), String::new());
                plan.push(x);
                assert(plan_view(plan@) =~= plan_view(p0).push((x.0@, x.1@, x.2@)));
            }
            k += 1;
        }
        assert(fv.take(k as int) =~= fv);
        let ghost pv = plan_view(plan@);
        // Resolve and fill each planned join.
        let mut js: Vec<CalcJoin> = Vec::new();
        assert(pv.subrange(0, pv.len() as int) =~= pv);
        let mut k: usize = 0;
        while k < plan.len()
            invariant
                k <= pv.len(),
                pv == plan_view(plan@),
                pv == join_plan(joins@, fv, bid),
                fv == table_ids_of(bracket_insides(formula@)),
                !is_blank(bid),
                sv == self.sv(),
                tv == self.tv(),
                bid == base_table_id@,
                lookup_table(sv, tv, bid) == Some(base@),
                first_unknown_except(sv, tv, fv, bid) is None,
                plan_fault(sv, tv, name@, base@, pv) == plan_fault(sv, tv, name@, base@, pv.subrange(k as int, pv.len() as int)),
                forall|q: int| 0 <= q < tables@.len() ==> lookup_table(sv, tv, (#[trigger] tables@[q]).0@) == Some(tables@[q].1@),
                forall|id: Seq<char>| #[trigger] has_text(ids_of(tables@), id) <==> (id == bid || has_text(fv, id) || has_text(plan_ids(pv.take(k as int)), id)),
                js@.len() == k,
                forall|q: int| 0 <= q < k ==> {
                    let ft = lookup_table(sv, tv, pv[q].0)->0;
                    &&& (#[trigger] js@[q]).table_id@ == pv[q].0
                    &&& (js@[q].base_key@, js@[q].foreign_key@) == filled_keys(base@, ft, pv[q])
                },
            decreases pv.len() - k,
        {
            let ghost rest = pv.subrange(k as int, pv.len() as int);
            assert(rest[0] == pv[k as int]);
            assert(rest.drop_first() =~= pv.subrange(k + 1, pv.len() as int));
            assert(plan_ids(pv.take(k + 1)) =~= plan_ids(pv.take(k as int)).push(pv[k as int].0));
            let tid = &plan[k].0;
            assert(tid@ == pv[k as int].0 && plan@[k as int].1@ == pv[k as int].1 && plan@[k as int].2@ == pv[k as int].2);
            let ghost t0 = tables@;
            let foreign: &DataTable = match find_named(&tables, tid.as_str()) {
                Some(i) => tables[i].1,
                None => {
                    let t = match self.get_table(tid.as_str()) {
                        Ok(t) => t,
                        Err(e) => {
                            proof {
                                assert(plan_fault(sv, tv, name@, base@, rest) == Some(e@));
                            }
                            return Err(e);
                        },
                    };
                    tables.push((tid.clone(), t));
                    t
                },
            };
            proof {
                assert(lookup_table(sv, tv, pv[k as int].0) == Some(foreign@));
                assert forall|q: int| 0 <= q < tables@.len() implies lookup_table(sv, tv, (#[trigger] tables@[q]).0@) == Some(tables@[q].1@) by {
                    if q < t0.len() {
                        assert(tables@[q] == t0[q]);
                    }
                }
                assert forall|id: Seq<char>| #[trigger] has_text(ids_of(tables@), id) <==> (id == bid || has_text(fv, id) || has_text(plan_ids(pv.take(k + 1)), id)) by {
                    lemma_has_text_push(plan_ids(pv.take(k as int)), pv[k as int].0, id);
                    if has_text(ids_of(tables@), id) {
                        let a = choose|a: int| 0 <= a < ids_of(tables@).len() && ids_of(tables@)[a] == id;
                        if a < t0.len() {
                            assert(ids_of(t0)[a] == id);
                        }
                    }
                    if has_text(ids_of(t0), id) {
                        let a = choose|a: int| 0 <= a < ids_of(t0).len() && ids_of(t0)[a] == id;
                        assert(ids_of(tables@)[a] == id);
                    }
                    if id == pv[k as int].0 && !has_text(ids_of(t0), id) {
                        assert(ids_of(tables@)[t0.len() as int] == id);
                    }
                }
            }
            let bk = &plan[k].1;
            let fk = &plan[k].2;
            let ghost js0 = js@;
            if blank(bk.as_str()) || blank(fk.as_str()) {
                match guess_join_keys(base.headers.as_slice(), foreign.headers.as_slice()) {
                    None => {
                        let mut m = "无法自动猜测与表「".to_owned();
                        m.append(tid.as_str());
                        m.append("」的关联键，请手动选择对应列");
                        let out = step_error(name, m.as_str());
                        proof {
                            assert(plan_fault(sv, tv, name@, base@, rest) == Some(out@));
                        }
                        return Err(out);
                    },
                    Some((a, b)) => {
                        let nb = if blank(bk.as_str()) { a } else { bk.clone() };
                        let nf = if blank(fk.as_str()) { b } else { fk.clone() };
                        js.push(CalcJoin { table_id: tid.clone(), base_key: nb, foreign_key: nf });
                    },
                }
            } else {
                js.push(CalcJoin { table_id: tid.clone(), base_key: bk.clone(), foreign_key: fk.clone() });
            }
            proof {
                assert forall|q: int| 0 <= q < k + 1 implies {
                    let ft = lookup_table(sv, tv, pv[q].0)->0;
                    &&& (#[trigger] js@[q]).table_id@ == pv[q].0
                    &&& (js@[q].base_key@, js@[q].foreign_key@) == filled_keys(base@, ft, pv[q])
                } by {
                    if q < k {
                        assert(js@[q] == js0[q]);
                    }
                }
            }
            k += 1;
        }
        assert(pv.subrange(pv.len() as int, pv.len() as int).len() == 0);
        assert(pv.take(pv.len() as int) =~= pv);
        let r = apply_calculate(nums, &tables, base_table_id.as_str(), output_field.as_str(), formula.as_str(), js.as_slice());
        proof {
            assert(calc_tables(sv, tv, bid, fv, pv, tables@));
            assert(calc_joins(sv, tv, base@, pv, js@));
        }
        with_step(name, r)
    }

    /// A side-by-side step (see `side_step`).
    fn side_by_side_step(&self, name: &String, columns: &Vec<SideColumn>, table_ids: &Vec<String>) -> (r: Result<DataTable, String>)
        ensures
            side_step(self.sv(), self.tv(), name@, columns@, table_ids.deep_view(), table_result(r)),
    {
        let ghost sv = self.sv();
        let ghost tv = self.tv();
        if columns.len() > 0 {
            let ghost cs = columns@;
            let mut map: Vec<(String, &DataTable)> = Vec::new();
            assert(cs.subrange(0, cs.len() as int) =~= cs);
            let mut k: usize = 0;
            while k < columns.len()
                invariant
                    k <= cs.len(),
                    cs == columns@,
                    sv == self.sv(),
                    tv == self.tv(),
                    first_unknown_placed(sv, tv, cs) == first_unknown_placed(sv, tv, cs.subrange(k as int, cs.len() as int)),
                    forall|q: int| 0 <= q < map@.len() ==> lookup_table(sv, tv, (#[trigger] map@[q]).0@) == Some(map@[q].1@),
                    forall|id: Seq<char>| #[trigger] has_text(ids_of(map@), id) <==> exists|j: int|
                        0 <= j < k && placed(#[trigger] cs[j]) && cs[j].table_id@ == id,
                decreases cs.len() - k,
            {
                let ghost rest = cs.subrange(k as int, cs.len() as int);
                assert(rest[0] == cs[k as int]);
                assert(rest.drop_first() =~= cs.subrange(k + 1, cs.len() as int));
                let c = &columns[k];
                let ghost m0 = map@;
                if !blank(c.column.as_str()) && !blank(c.table_id.as_str()) {
                    if find_named(&map, c.table_id.as_str()).is_none() {
                        let t = match self.get_table(c.table_id.as_str()) {
                            Ok(t) => t,
                            Err(e) => return Err(e),
                        };
                        map.push((c.table_id.clone(), t));
                    }
                }
                proof {
                    assert forall|q: int| 0 <= q < map@.len() implies lookup_table(sv, tv, (#[trigger] map@[q]).0@) == Some(map@[q].1@) by {
                        if q < m0.len() {
                            assert(map@[q] == m0[q]);
                        }
                    }
                    assert forall|id: Seq<char>| #[trigger] has_text(ids_of(map@), id) <==> exists|j: int|
                        0 <= j < k + 1 && placed(#[trigger] cs[j]) && cs[j].table_id@ == id by {
                        if has_text(ids_of(map@), id) {
                            let a = choose|a: int| 0 <= a < ids_of(map@).len() && ids_of(map@)[a] == id;
                            if a < m0.len() {
                                assert(ids_of(m0)[a] == id);
                                assert(has_text(ids_of(m0), id));
                            } else {
                                assert(placed(cs[k as int]) && cs[k as int].table_id@ == id);
                            }
                        }
                        if exists|j: int| 0 <= j < k + 1 && placed(#[trigger] cs[j]) && cs[j].table_id@ == id {
                            let j = choose|j: int| 0 <= j < k + 1 && placed(#[trigger] cs[j]) && cs[j].table_id@ == id;
                            if j < k {
                                assert(has_text(ids_of(m0), id));
                                let a = choose|a: int| 0 <= a < ids_of(m0).len() && ids_of(m0)[a] == id;
                                assert(ids_of(map@)[a] == id);
                            } else if !has_text(ids_of(m0), id) {
                                assert(ids_of(map@)[m0.len() as int] == id);
                            } else {
                                let a = choose|a: int| 0 <= a < ids_of(m0).len() && ids_of(m0)[a] == id;
                                assert(ids_of(map@)[a] == id);
                            }
                        }
                    }
                }
                k += 1;
            }
            assert(cs.subrange(cs.len() as int, cs.len() as int).len() == 0);
            let r = apply_side_by_side_columns(&map, columns.as_slice());
            assert(side_columns_outcome(map@, columns@, table_result(r)));
            with_step(name, r)
        } else if table_ids.len() > 0 {
            let ghost ids = table_ids.deep_view();
            let mut ts: Vec<&DataTable> = Vec::new();
            assert(ids.subrange(0, ids.len() as int) =~= ids);
            let mut k: usize = 0;
            while k < table_ids.len()
                invariant
                    k <= ids.len(),
                    ids == table_ids.deep_view(),
                    sv == self.sv(),
                    tv == self.tv(),
                    first_unknown(sv, tv, ids) == first_unknown(sv, tv, ids.subrange(k as int, ids.len() as int)),
                    columns@.len() == 0,
                    views(ts@) == looked_up(sv, tv, ids.take(k as int)),
                decreases ids.len() - k,
            {
                let ghost rest = ids.subrange(k as int, ids.len() as int);
                assert(rest[0] == ids[k as int]);
                assert(rest.drop_first() =~= ids.subrange(k + 1, ids.len() as int));
                assert(table_ids@[k as int]@ == ids[k as int]);
                let t = match self.get_table(table_ids[k].as_str()) {
                    Ok(t) => t,
                    Err(e) => {
                        proof {
                            assert(first_unknown(sv, tv, rest) == Some(ids[k as int]));
                        }
                        return Err(step_error(name, e.as_str()));
                    },
                };
                let ghost t0 = ts@;
                ts.push(t);
                proof {
                    assert(ids.take(k + 1) =~= ids.take(k as int).push(ids[k as int]));
                    assert(views(ts@) =~= views(t0).push(t@));
                    assert(looked_up(sv, tv, ids.take(k + 1)) =~= looked_up(sv, tv, ids.take(k as int)).push(lookup_table(sv, tv, ids[k as int])->0));
                    assert(views(ts@) =~= looked_up(sv, tv, ids.take(k + 1)));
                }
                k += 1;
            }
            assert(ids.take(k as int) =~= ids);
            assert(ids.subrange(ids.len() as int, ids.len() as int).len() == 0);
            let r = apply_side_by_side(ts.as_slice());
            assert(side_outcome(views(ts@), table_result(r)));
            with_step(name, r)
        } else {
            Err(step_error(name, "请选择要拼版的列"))
        }
    }

    /// Ids of the sources that the steps read, each once, in order.
    pub fn used_source_ids(&self, pipeline: &Pipeline) -> (ids: Vec<String>)
        ensures
            ids.deep_view() == sources_read(self.meta_ids(), pipeline.steps@, pipeline.steps@.len() as int),
    {
        self.needed_source_ids(pipeline, None)
    }

    /// Ids of the sources that the steps of a run through `until` read, each once, in order.
    pub fn needed_source_ids(&self, pipeline: &Pipeline, until: Option<&str>) -> (ids: Vec<String>)
        ensures
            ids.deep_view() == sources_read(self.meta_ids(), pipeline.steps@, run_len(pipeline.steps@, opt_text(until))),
    {
        let ghost steps = pipeline.steps@;
        let ghost known = self.meta_ids();
        let ghost sids = steps.map_values(|s: Step| s.id@);
        let mut ids: Vec<String> = Vec::new();
        let mut k: usize = 0;
        while k < pipeline.steps.len()
            invariant
                k <= steps.len(),
                steps == pipeline.steps@,
                known == self.meta_ids(),
                sids == steps.map_values(|s: Step| s.id@),
                ids.deep_view() == sources_read(known, steps, k as int),
                forall|j: int| 0 <= j < k ==> opt_text(until) != Some(#[trigger] sids[j]),
            decreases steps.len() - k,
        {
            let step_ids = op_table_ids(&pipeline.steps[k].operation);
            let ghost add = step_ids.deep_view();
            let ghost base = ids.deep_view();
            let mut q: usize = 0;
            while q < step_ids.len()
                invariant
                    q <= add.len(),
                    add == step_ids.deep_view(),
                    known == self.meta_ids(),
                    ids.deep_view() == add_sources(base, known, add.take(q as int)),
                decreases add.len() - q,
            {
                assert(add.take(q + 1).drop_last() =~= add.take(q as int));
                assert(add.take(q + 1).last() == add[q as int]);
                let x = step_ids[q].as_str();
                if self.is_source_id(x) && find_text(&ids, x).is_none() {
                    let ghost i0 = ids;
                    let y = x.to_owned();
                    ids.push(y);
                    proof {
                        lemma_dv_push(i0, ids, y);
                    }
                }
                q += 1;
            }
            assert(add.take(q as int) =~= add);
            let hit = match until {
                Some(u) => same_text(pipeline.steps[k].id.as_str(), u),
                None => false,
            };
            if hit {
                proof {
                    assert(sids[k as int] == steps[k as int].id@);
                    assert(first_at(sids, opt_text(until)->0, k as int));
                    lemma_first_at_unique(sids, opt_text(until)->0, k as int);
                }
                return ids;
            }
            k += 1;
        }
        proof {
            if until is Some {
                if has_text(sids, opt_text(until)->0) {
                    let j = choose|j: int| 0 <= j < sids.len() && sids[j] == opt_text(until)->0;
                    assert(opt_text(until) != Some(sids[j]));
                }
            }
        }
        ids
    }

    /// What a run must load for source `id` before a step reads it: nothing when it is
    /// loaded, is a step output or is no source; the source's position in
    /// `source_meta` otherwise, or an error when its header is not ready.
    pub fn source_to_load(&self, id: &str) -> (r: Result<Option<usize>, String>)
        ensures
            match r {
                Ok(None) => has_text(entry_ids(self.sv()), id@) || has_text(entry_ids(self.tv()), id@) || !has_text(self.meta_ids(), id@),
                Ok(Some(i)) => {
                    &&& !has_text(entry_ids(self.sv()), id@) && !has_text(entry_ids(self.tv()), id@)
                    &&& first_at(self.meta_ids(), id@, i as int)
                    &&& self.source_meta@[i as int].header_ok
                },
                Err(e) => {
                    &&& !has_text(entry_ids(self.sv()), id@) && !has_text(entry_ids(self.tv()), id@)
                    &&& has_text(self.meta_ids(), id@)
                    &&& !self.source_meta@[position(self.meta_ids(), id@)].header_ok
                    &&& e@ == "源表「"@ + self.source_meta@[position(self.meta_ids(), id@)].name@ + "」表头未就绪，请先指定表头行"@
                },
            },
    {
        if entry_index(&self.sources, id).is_some() || entry_index(&self.temps, id).is_some() {
            return Ok(None);
        }
        let ghost ids = self.meta_ids();
        let mut i: usize = 0;
        while i < self.source_meta.len()
            invariant
                i <= self.source_meta@.len(),
                ids == self.meta_ids(),
                forall|j: int| 0 <= j < i ==> ids[j] != id@,
                !has_text(entry_ids(self.sv()), id@),
                !has_text(entry_ids(self.tv()), id@),
            decreases self.source_meta@.len() - i,
        {
            if same_text(self.source_meta[i].id.as_str(), id) {
                proof {
                    assert(first_at(ids, id@, i as int));
                    lemma_first_at_unique(ids, id@, i as int);
                }
                if !self.source_meta[i].header_ok {
                    let mut e = "源表「".to_owned();
                    e.append(self.source_meta[i].name.as_str());
                    e.append("」表头未就绪，请先指定表头行");
                    return Err(e);
                }
                return Ok(Some(i));
            }
            i += 1;
        }
        Ok(None)
    }

    /// How to read the source at `meta_index` of `source_meta`: a folder source needs
    /// the merge key that `folder_merges` gives its id.
    pub fn load_request(&self, meta_index: usize) -> (r: Result<SourceLoad, String>)
        requires
            meta_index < self.source_meta@.len(),
        ensures
            ({
                let m = self.source_meta@[meta_index as int];
                let fm = self.folder_merges@.map_values(|p: (String, FolderMerge)| p.0@);
                let key = if has_text(fm, m.id@) { self.folder_merges@[position(fm, m.id@)].1.key_column@ } else { Seq::empty() };
                if m.kind@ == "folder"@ {
                    if is_blank(key) {
                        r == Err::<SourceLoad, String>(r->Err_0) && r->Err_0@ == "累计表「"@ + m.name@ + "」尚未选择覆盖键列。请在源表中指定按哪一列用最新数据覆盖"@
                    } else {
                        r matches Ok(SourceLoad::Folder { path, key: k }) && path@ == m.path@ && k@ == key
                    }
                } else {
                    r matches Ok(SourceLoad::File { path, header_row }) && path@ == m.path@ && header_row == m.header_row
                }
            }),
    {
        let m = &self.source_meta[meta_index];
        if same_text(m.kind.as_str(), "folder") {
            let ghost fm = self.folder_merges@.map_values(|p: (String, FolderMerge)| p.0@);
            let mut key = String::new();
            let mut i: usize = 0;
            let mut hit = false;
            while i < self.folder_merges.len() && !hit
                invariant
                    i <= self.folder_merges@.len(),
                    fm == self.folder_merges@.map_values(|p: (String, FolderMerge)| p.0@),
                    forall|j: int| 0 <= j < i ==> fm[j] != m.id@,
                    hit ==> i < fm.len() && fm[i as int] == m.id@ && key@ == self.folder_merges@[i as int].1.key_column@,
                    !hit ==> key@ == Seq::<char>::empty(),
                decreases self.folder_merges@.len() - i + (if hit { 0int } else { 1int }),
            {
                if same_text(self.folder_merges[i].0.as_str(), m.id.as_str()) {
                    key = self.folder_merges[i].1.key_column.clone();
                    hit = true;
                } else {
                    i += 1;
                }
            }
            proof {
                if hit {
                    assert(first_at(fm, m.id@, i as int));
                    lemma_first_at_unique(fm, m.id@, i as int);
                } else {
                    assert(key@ == Seq::<char>::empty());
                    assert(!has_text(fm, m.id@));
                }
            }
            if blank(key.as_str()) {
                let mut e = "累计表「".to_owned();
                e.append(m.name.as_str());
                e.append("」尚未选择覆盖键列。请在源表中指定按哪一列用最新数据覆盖");
                return Err(e);
            }
            Ok(SourceLoad::Folder { path: m.path.clone(), key })
        } else {
            Ok(SourceLoad::File { path: m.path.clone(), header_row: m.header_row })
        }
    }

    /// Stores a loaded source table under `id`.
    pub fn add_source(&mut self, id: String, table: DataTable)
        ensures
            final(self).sv() == insert_entry(old(self).sv(), id@, table@),
            final(self).tv() == old(self).tv(),
            final(self).source_meta@ == old(self).source_meta@,
            final(self).header_rows@ == old(self).header_rows@,
            final(self).folder_merges@ == old(self).folder_merges@,
    {
        match entry_index(&self.sources, id.as_str()) {
            Some(i) => {
                proof {
                    lemma_first_at_unique(entry_ids(self.sv()), id@, i as int);
                }
                let ghost v0 = self.sources@;
                self.sources.set(i, (id, table));
                assert(entries_view(self.sources@) =~= insert_entry(entries_view(v0), id@, table@));
            },
            None => {
                let ghost v0 = self.sources@;
                self.sources.push((id, table));
                assert(entries_view(self.sources@) =~= insert_entry(entries_view(v0), id@, table@));
            },
        }
    }

    /// Runs the steps from no step outputs, through the first step with id `until`
    /// (all steps when none has it), storing each output under its output id; stops at
    /// the first step that fails.
    pub fn run_steps<K, C, T, E>(&mut self, nums: &Numbers<K, C, T, E>, pipeline: &Pipeline, until: Option<&str>) -> (r: Result<(), String>) where
        K: Fn(&str) -> Option<String>,
        C: Fn(&str, &str) -> Option<CellOrder>,
        T: Fn(&Vec<String>, Aggregate) -> String,
        E: Fn(&FormulaExpr, &Vec<(String, String)>) -> String,
        requires
            nums.wf(),
        ensures
            final(self).sources@ == old(self).sources@,
            final(self).source_meta@ == old(self).source_meta@,
            final(self).header_rows@ == old(self).header_rows@,
            final(self).folder_merges@ == old(self).folder_merges@,
            exists|trace: Seq<Seq<(Seq<char>, TableView)>>, outs: Seq<TableView>, n: int|
                #[trigger] run_trace(*nums, old(self).sv(), pipeline.steps@, trace, outs, n) && match r {
                    Ok(()) => n == run_len(pipeline.steps@, opt_text(until)) && final(self).tv() == trace[n],
                    Err(e) => n < run_len(pipeline.steps@, opt_text(until)) && step_outcome(*nums, old(self).sv(), trace[n], pipeline.steps@[n], Err(e@)),
                },
    {
        let ghost steps = pipeline.steps@;
        let ghost sids = steps.map_values(|s: Step| s.id@);
        self.temps = Vec::new();
        let ghost mut trace: Seq<Seq<(Seq<char>, TableView)>> = seq![Seq::empty()];
        let ghost mut outs: Seq<TableView> = Seq::empty();
        assert(self.tv() =~= Seq::<(Seq<char>, TableView)>::empty());
        let mut k: usize = 0;
        while k < pipeline.steps.len()
            invariant
                k <= steps.len(),
                nums.wf(),
                steps == pipeline.steps@,
                sids == steps.map_values(|s: Step| s.id@),
                self.sources@ == old(self).sources@,
                self.source_meta@ == old(self).source_meta@,
                self.header_rows@ == old(self).header_rows@,
                self.folder_merges@ == old(self).folder_merges@,
                run_trace(*nums, old(self).sv(), steps, trace, outs, k as int),
                self.tv() == trace[k as int],
                forall|j: int| 0 <= j < k ==> opt_text(until) != Some(#[trigger] sids[j]),
            decreases steps.len() - k,
        {
            let step = &pipeline.steps[k];
            let out = match self.execute_step(nums, step) {
                Ok(t) => t,
                Err(e) => {
                    proof {
                        if until is Some && has_text(sids, opt_text(until)->0) {
                            let p = position(sids, opt_text(until)->0);
                            crate::models::lemma_position(sids, opt_text(until)->0);
                            if p < k {
                                assert(opt_text(until) != Some(sids[p]));
                            }
                        }
                        assert(run_trace(*nums, old(self).sv(), steps, trace, outs, k as int));
                    }
                    return Err(e);
                },
            };
            let ghost ov = out@;
            let ghost t0 = self.tv();
            match entry_index(&self.temps, step.output_table_id.as_str()) {
                Some(i) => {
                    proof {
                        lemma_first_at_unique(entry_ids(t0), step.output_table_id@, i as int);
                    }
                    let ghost v0 = self.temps@;
                    self.temps.set(i, (step.output_table_id.clone(), out));
                    assert(entries_view(self.temps@) =~= insert_entry(entries_view(v0), step.output_table_id@, ov));
                },
                None => {
                    let ghost v0 = self.temps@;
                    self.temps.push((step.output_table_id.clone(), out));
                    assert(entries_view(self.temps@) =~= insert_entry(entries_view(v0), step.output_table_id@, ov));
                },
            }
            proof {
                assert(step_outcome(*nums, old(self).sv(), trace[k as int], steps[k as int], Ok(ov)));
                let t1 = trace.push(self.tv());
                let o1 = outs.push(ov);
                assert(t1[0] == trace[0]);
                assert(t1[k + 1] == self.tv());
                assert(t1[k as int] == trace[k as int]);
                assert forall|j: int| 0 <= j < k + 1 implies #[trigger] step_outcome(*nums, old(self).sv(), t1[j], steps[j], Ok(o1[j]))
                    && t1[j + 1] == insert_entry(t1[j], steps[j].output_table_id@, o1[j]) by {
                    if j < k {
                        assert(t1[j] == trace[j] && t1[j + 1] == trace[j + 1] && o1[j] == outs[j]);
                    }
                }
                trace = t1;
                outs = o1;
            }
            let hit = match until {
                Some(u) => same_text(step.id.as_str(), u),
                None => false,
            };
            if hit {
                proof {
                    assert(sids[k as int] == steps[k as int].id@);
                    assert(first_at(sids, opt_text(until)->0, k as int));
                    lemma_first_at_unique(sids, opt_text(until)->0, k as int);
                    assert(run_trace(*nums, old(self).sv(), steps, trace, outs, k + 1));
                }
                return Ok(());
            }
            k += 1;
        }
        proof {
            if until is Some {
                if has_text(sids, opt_text(until)->0) {
                    let j = choose|j: int| 0 <= j < sids.len() && sids[j] == opt_text(until)->0;
                    assert(opt_text(until) != Some(sids[j]));
                }
            }
            assert(run_trace(*nums, old(self).sv(), steps, trace, outs, k as int));
        }
        Ok(())
    }

    /// A preview of the output of the step with id `step_id` after a run.
    pub fn step_preview(&self, pipeline: &Pipeline, step_id: &str, limit: usize) -> (r: Result<PreviewData, String>)
        ensures
            ({
                let sids = pipeline.steps@.map_values(|s: Step| s.id@);
                if !has_text(sids, step_id@) {
                    r matches Err(e) && e@ == "步骤不存在: "@ + step_id@
                } else {
                    let out_id = pipeline.steps@[position(sids, step_id@)].output_table_id@;
                    match entry_of(self.tv(), out_id) {
                        None => r matches Err(e) && e@ == "步骤无输出"@,
                        Some(t) => r matches Ok(p) && p.headers.deep_view() == t.headers
                            && p.rows.deep_view() == t.rows.take(if limit < t.rows.len() { limit as int } else { t.rows.len() as int })
                            && p.total_rows == t.rows.len() && p.header_groups@ == t.groups,
                    }
                }
            }),
    {
        let ghost sids = pipeline.steps@.map_values(|s: Step| s.id@);
        let mut k: usize = 0;
        while k < pipeline.steps.len()
            invariant
                k <= pipeline.steps@.len(),
                sids == pipeline.steps@.map_values(|s: Step| s.id@),
                forall|j: int| 0 <= j < k ==> sids[j] != step_id@,
            decreases pipeline.steps@.len() - k,
        {
            if same_text(pipeline.steps[k].id.as_str(), step_id) {
                proof {
                    assert(first_at(sids, step_id@, k as int));
                    lemma_first_at_unique(sids, step_id@, k as int);
                }
                let out_id = pipeline.steps[k].output_table_id.as_str();
                return match entry_index(&self.temps, out_id) {
                    Some(i) => {
                        proof {
                            lemma_first_at_unique(entry_ids(self.tv()), out_id@, i as int);
                        }
                        Ok(self.temps[i].1.preview(limit))
                    },
                    None => Err("步骤无输出".to_owned()),
                };
            }
            k += 1;
        }
        let mut e = "步骤不存在: ".to_owned();
        e.append(step_id);
        Err(e)
    }

    /// A runtime for `pipeline` over the sources found in its source directory: `scan`,
    /// handed the source directory and the header rows, gives them, or the error.
    pub fn from_pipeline<S>(pipeline: &Pipeline, scan: &S) -> (r: Result<Self, String>) where
        S: Fn(&str, &Vec<(String, usize)>) -> Result<Vec<SourceTable>, String>,
        requires
            forall|a: &str, b: &Vec<(String, usize)>| #[trigger] scan.requires((a, b)),
        ensures
            match r {
                Ok(rt) => exists|meta: Vec<SourceTable>| #[trigger] scan_gives(*scan, pipeline.source_dir@, pipeline.header_rows@, Ok(meta))
                    && rt.sources@.len() == 0 && rt.temps@.len() == 0 && rt.source_meta@ == meta@
                    && rt.header_rows@ == pipeline.header_rows@ && rt.folder_merges@ == pipeline.folder_merges@,
                Err(e) => scan_gives(*scan, pipeline.source_dir@, pipeline.header_rows@, Err(e)),
            },
    {
        let res = scan(pipeline.source_dir.as_str(), &pipeline.header_rows);
        proof {
            assert(scan_gives(*scan, pipeline.source_dir@, pipeline.header_rows@, res));
        }
        match res {
            Ok(meta) => {
                proof {
                    assert(scan_gives(*scan, pipeline.source_dir@, pipeline.header_rows@, Ok(meta)));
                }
                Ok(Runtime::with_sources(pipeline, meta))
            },
            Err(e) => {
                let rr: Result<Self, String> = Err(e);
                proof {
                    assert(scan_gives(*scan, pipeline.source_dir@, pipeline.header_rows@, Err(rr->Err_0)));
                }
                rr
            },
        }
    }

    /// A runtime for `pipeline` over the sources `source_meta`, with nothing loaded.
    pub fn with_sources(pipeline: &Pipeline, source_meta: Vec<SourceTable>) -> (r: Self)
        ensures
            r.sources@.len() == 0,
            r.temps@.len() == 0,
            r.source_meta@ == source_meta@,
            r.header_rows@ == pipeline.header_rows@,
            r.folder_merges@ == pipeline.folder_merges@,
    {
        let mut hr: Vec<(String, usize)> = Vec::new();
        let mut i: usize = 0;
        while i < pipeline.header_rows.len()
            invariant
                i <= pipeline.header_rows@.len(),
                hr@ == pipeline.header_rows@.take(i as int),
            decreases pipeline.header_rows@.len() - i,
        {
            let (a, b) = &pipeline.header_rows[i];
            hr.push((a.clone(), *b));
            assert(hr@ =~= pipeline.header_rows@.take(i + 1));
            i += 1;
        }
        assert(pipeline.header_rows@.take(i as int) =~= pipeline.header_rows@);
        let mut fm: Vec<(String, FolderMerge)> = Vec::new();
        let mut i: usize = 0;
        while i < pipeline.folder_merges.len()
            invariant
                i <= pipeline.folder_merges@.len(),
                fm@ == pipeline.folder_merges@.take(i as int),
            decreases pipeline.folder_merges@.len() - i,
        {
            let (a, b) = &pipeline.folder_merges[i];
            let m = FolderMerge { key_column: b.key_column.clone() };
            assert(m == *b);
            fm.push((a.clone(), m));
            assert(fm@ =~= pipeline.folder_merges@.take(i + 1));
            i += 1;
        }
        assert(pipeline.folder_merges@.take(i as int) =~= pipeline.folder_merges@);
        Runtime::new(source_meta, hr, fm)
    }

    /// A runtime over scanned sources, with no folder merge keys.
    pub fn from_scan(source_meta: Vec<SourceTable>, header_rows: Vec<(String, usize)>) -> (r: Self)
        ensures
            r.sources@.len() == 0,
            r.temps@.len() == 0,
            r.source_meta@ == source_meta@,
            r.header_rows@ == header_rows@,
            r.folder_merges@.len() == 0,
    {
        Runtime::new(source_meta, header_rows, Vec::new())
    }

    /// Loads source `id` with `load` unless it is loaded, a step output or no source.
    pub fn ensure_source<L>(&mut self, id: &str, load: &L) -> (r: Result<(), String>) where
        L: Fn(&SourceLoad, &Vec<(String, usize)>) -> Result<DataTable, String>,
        requires
            forall|a: &SourceLoad, b: &Vec<(String, usize)>| #[trigger] load.requires((a, b)),
        ensures
            final(self).tv() == old(self).tv(),
            final(self).source_meta@ == old(self).source_meta@,
            final(self).header_rows@ == old(self).header_rows@,
            final(self).folder_merges@ == old(self).folder_merges@,
            has_text(entry_ids(old(self).sv()), id@) || has_text(entry_ids(old(self).tv()), id@) || !has_text(old(self).meta_ids(), id@)
                ==> r is Ok && final(self).sv() == old(self).sv(),
            r is Ok ==> final(self).sv() == old(self).sv()
                || (read_fault(*old(self), id@) is None && !has_text(entry_ids(old(self).sv()), id@)
                    && loaded_from(*old(self), id@, *load, final(self).sv())),
            r is Ok && has_text(old(self).meta_ids(), id@) ==> has_text(entry_ids(final(self).sv()), id@) || has_text(entry_ids(final(self).tv()), id@),
            r is Err ==> final(self).sv() == old(self).sv(),
            loads_from(old(self).sv(), final(self).sv(), old(self).source_meta@, old(self).folder_merges@, old(self).header_rows@, *load),
            read_fault(*old(self), id@) matches Some(f) ==> r matches Err(e) && e@ == f,
            read_fault(*old(self), id@) is None && load_never_fails(*load) ==> r is Ok,
            r matches Err(e) ==> read_fault(*old(self), id@) == Some(e@) || load_failed(*load, old(self).header_rows@, e),
    {
        let ghost ids = self.meta_ids();
        let i = match self.source_to_load(id) {
            Ok(Some(i)) => i,
            Ok(None) => return Ok(()),
            Err(e) => {
                proof {
                    assert(read_fault(*self, id@) == Some(e@));
                }
                return Err(e);
            },
        };
        proof {
            lemma_first_at_unique(ids, id@, i as int);
            assert(position(ids, id@) == i);
        }
        let req = match self.load_request(i) {
            Ok(q) => q,
            Err(e) => {
                proof {
                    assert(read_fault(*self, id@) == Some(e@));
                }
                return Err(e);
            },
        };
        assert(read_fault(*self, id@) is None);
        let res = load(&req, &self.header_rows);
        proof {
            assert(load.ensures((&req, &self.header_rows), res));
        }
        let table = match res {
            Ok(t) => t,
            Err(e) => {
                let rr: Result<(), String> = Err(e);
                proof {
                    assert(load.ensures((&req, &self.header_rows), Err::<DataTable, String>(rr->Err_0)));
                    assert(load_failed(*load, self.header_rows@, rr->Err_0));
                }
                return rr;
            },
        };
        let ghost tv0 = table@;
        proof {
            assert(load.ensures((&req, &self.header_rows), Ok::<DataTable, String>(table)));
            assert(is_request(req, self.source_meta@[i as int], self.folder_merges@));
        }
        self.add_source(id.to_owned(), table);
        proof {
            lemma_insert_has(old(self).sv(), id@, tv0);
            assert(loaded_from(*old(self), id@, *load, self.sv()));
            lemma_loaded_from_gave(*old(self), id@, *load, self.sv());
        }
        Ok(())
    }

    /// Loads the sources `ids` in turn (see `ensure_source`), stopping at the first failure.
    fn ensure_listed<L>(&mut self, ids: &Vec<String>, load: &L) -> (r: Result<(), String>) where
        L: Fn(&SourceLoad, &Vec<(String, usize)>) -> Result<DataTable, String>,
        requires
            forall|a: &SourceLoad, b: &Vec<(String, usize)>| #[trigger] load.requires((a, b)),
            forall|j: int| 0 <= j < ids.deep_view().len() ==> has_text(old(self).meta_ids(), #[trigger] ids.deep_view()[j]),
        ensures
            final(self).tv() == old(self).tv(),
            final(self).source_meta@ == old(self).source_meta@,
            final(self).header_rows@ == old(self).header_rows@,
            final(self).folder_merges@ == old(self).folder_merges@,
            old(self).sv().len() <= final(self).sv().len() && final(self).sv().subrange(0, old(self).sv().len() as int) == old(self).sv(),
            grown(old(self).sv(), final(self).sv(), *old(self)),
            loaded_only(old(self).sv(), final(self).sv(), ids.deep_view()),
            loads_from(old(self).sv(), final(self).sv(), old(self).source_meta@, old(self).folder_merges@, old(self).header_rows@, *load),
            r is Ok ==> forall|j: int| 0 <= j < ids.deep_view().len() ==> #[trigger] has_text(entry_ids(final(self).sv()), ids.deep_view()[j])
                || has_text(entry_ids(final(self).tv()), ids.deep_view()[j]),
            all_ready(*old(self), ids.deep_view()) && load_never_fails(*load) ==> r is Ok,
            r is Ok ==> all_ready(*old(self), ids.deep_view()),
            r matches Err(e) ==> read_error(*old(self), ids.deep_view(), *load, e),
    {
        let ghost iv = ids.deep_view();
        let ghost rt0 = *self;
        let mut k: usize = 0;
        while k < ids.len()
            invariant
                k <= iv.len(),
                iv == ids.deep_view(),
                rt0 == *old(self),
                forall|a: &SourceLoad, b: &Vec<(String, usize)>| #[trigger] load.requires((a, b)),
                self.tv() == rt0.tv(),
                self.source_meta@ == rt0.source_meta@,
                self.header_rows@ == rt0.header_rows@,
                self.folder_merges@ == rt0.folder_merges@,
                forall|j: int| 0 <= j < iv.len() ==> has_text(rt0.meta_ids(), #[trigger] iv[j]),
                forall|j: int| 0 <= j < k ==> #[trigger] has_text(entry_ids(self.sv()), iv[j]) || has_text(entry_ids(self.tv()), iv[j]),
                forall|j: int| 0 <= j < k ==> (#[trigger] read_fault(rt0, iv[j])) is None,
                grown(rt0.sv(), self.sv(), rt0),
                loaded_only(rt0.sv(), self.sv(), iv),
                loads_from(rt0.sv(), self.sv(), rt0.source_meta@, rt0.folder_merges@, rt0.header_rows@, *load),
                rt0.sv().len() <= self.sv().len() && self.sv().subrange(0, rt0.sv().len() as int) == rt0.sv(),
            decreases iv.len() - k,
        {
            let ghost rt = *self;
            proof {
                lemma_fault_kept(rt0, rt, iv[k as int]);
                assert(self.meta_ids() == rt0.meta_ids());
            }
            let res = self.ensure_source(ids[k].as_str(), load);
            match res {
                Ok(()) => {},
                Err(e) => {
                    let rr: Result<(), String> = Err(e);
                    proof {
                        if read_fault(rt, iv[k as int]) == Some(rr->Err_0@) {
                            assert(read_fault(rt0, iv[k as int]) == Some(rr->Err_0@));
                        } else {
                            assert(load_failed(*load, rt0.header_rows@, rr->Err_0));
                        }
                        assert(read_error(rt0, iv, *load, rr->Err_0));
                        if all_ready(rt0, iv) && load_never_fails(*load) {
                            assert(read_fault(rt0, iv[k as int]) is None);
                        }
                    }
                    return rr;
                },
            }
            proof {
                if self.sv() != rt.sv() {
                    let (a, b, t) = choose|a: &SourceLoad, b: &Vec<(String, usize)>, t: DataTable| #![trigger load.ensures((a, b), Ok::<DataTable, String>(t))]
                        is_request(*a, rt.source_meta@[position(rt.meta_ids(), iv[k as int])], rt.folder_merges@) && b@ == rt.header_rows@
                        && load.ensures((a, b), Ok::<DataTable, String>(t)) && self.sv() == insert_entry(rt.sv(), iv[k as int], t@);
                    assert(self.sv() == insert_entry(rt.sv(), iv[k as int], t@));
                    assert(self.sv() == rt.sv().push((iv[k as int], t@)));
                    assert(self.sv().subrange(0, rt0.sv().len() as int) =~= rt.sv().subrange(0, rt0.sv().len() as int));
                }
                lemma_grown_step(rt0, rt, self.sv(), iv[k as int]);
                if self.sv() != rt.sv() {
                    assert(self.sv().subrange(0, rt.sv().len() as int) =~= rt.sv());
                    lemma_loads_from_trans(rt0.sv(), rt.sv(), self.sv(), rt0.source_meta@, rt0.folder_merges@, rt0.header_rows@, *load);
                }
                assert forall|y: Seq<char>| #[trigger] has_text(entry_ids(self.sv()), y) implies has_text(entry_ids(rt0.sv()), y) || has_text(iv, y) by {
                    if self.sv() != rt.sv() {
                        let t = choose|t: TableView| self.sv() == insert_entry(rt.sv(), iv[k as int], t);
                        lemma_insert_only(rt.sv(), iv[k as int], t, y);
                        if y == iv[k as int] {
                            assert(iv[k as int] == y);
                        }
                    }
                }
                assert(read_fault(rt0, iv[k as int]) is None);
                assert forall|j: int| 0 <= j < k + 1 implies #[trigger] has_text(entry_ids(self.sv()), iv[j]) || has_text(entry_ids(self.tv()), iv[j]) by {
                    if j < k && has_text(entry_ids(rt.sv()), iv[j]) {
                        lemma_insert_keeps(rt.sv(), self.sv(), iv[j]);
                    }
                }
            }
            k += 1;
        }
        Ok(())
    }

    /// Loads the sources that a run through `until` reads, stopping at the first failure:
    /// it succeeds when none of them has a read fault and `load` does not fail, and fails
    /// with the first fault or error met.
    pub fn ensure_sources_for_pipeline<L>(&mut self, pipeline: &Pipeline, until: Option<&str>, load: &L) -> (r: Result<(), String>) where
        L: Fn(&SourceLoad, &Vec<(String, usize)>) -> Result<DataTable, String>,
        requires
            forall|a: &SourceLoad, b: &Vec<(String, usize)>| #[trigger] load.requires((a, b)),
        ensures
            final(self).tv() == old(self).tv(),
            final(self).source_meta@ == old(self).source_meta@,
            final(self).header_rows@ == old(self).header_rows@,
            final(self).folder_merges@ == old(self).folder_merges@,
            old(self).sv().len() <= final(self).sv().len() && final(self).sv().subrange(0, old(self).sv().len() as int) == old(self).sv(),
            grown(old(self).sv(), final(self).sv(), *old(self)),
            loaded_only(old(self).sv(), final(self).sv(), sources_read(old(self).meta_ids(), pipeline.steps@, run_len(pipeline.steps@, opt_text(until)))),
            loads_from(old(self).sv(), final(self).sv(), old(self).source_meta@, old(self).folder_merges@, old(self).header_rows@, *load),
            r is Ok ==> forall|k: int| 0 <= k < sources_read(old(self).meta_ids(), pipeline.steps@, run_len(pipeline.steps@, opt_text(until))).len()
                ==> #[trigger] has_text(entry_ids(final(self).sv()),
                    sources_read(old(self).meta_ids(), pipeline.steps@, run_len(pipeline.steps@, opt_text(until)))[k])
                    || has_text(entry_ids(final(self).tv()), sources_read(old(self).meta_ids(), pipeline.steps@, run_len(pipeline.steps@, opt_text(until)))[k]),
            all_ready(*old(self), sources_read(old(self).meta_ids(), pipeline.steps@, run_len(pipeline.steps@, opt_text(until))))
                && load_never_fails(*load) ==> r is Ok,
            r is Ok ==> all_ready(*old(self), sources_read(old(self).meta_ids(), pipeline.steps@, run_len(pipeline.steps@, opt_text(until)))),
            r matches Err(e) ==> read_error(*old(self), sources_read(old(self).meta_ids(), pipeline.steps@, run_len(pipeline.steps@, opt_text(until))), *load, e),
    {
        let ids = self.needed_source_ids(pipeline, until);
        proof {
            lemma_sources_read_known(self.meta_ids(), pipeline.steps@, run_len(pipeline.steps@, opt_text(until)));
        }
        self.ensure_listed(&ids, load)
    }

    /// Loads every source whose header is ready, in order, stopping at the first failure:
    /// it succeeds when none of them has a read fault and `load` does not fail, and fails
    /// with the first fault or error met.
    pub fn load_all_sources<L>(&mut self, load: &L) -> (r: Result<(), String>) where
        L: Fn(&SourceLoad, &Vec<(String, usize)>) -> Result<DataTable, String>,
        requires
            forall|a: &SourceLoad, b: &Vec<(String, usize)>| #[trigger] load.requires((a, b)),
        ensures
            final(self).tv() == old(self).tv(),
            final(self).source_meta@ == old(self).source_meta@,
            final(self).header_rows@ == old(self).header_rows@,
            final(self).folder_merges@ == old(self).folder_merges@,
            old(self).sv().len() <= final(self).sv().len() && final(self).sv().subrange(0, old(self).sv().len() as int) == old(self).sv(),
            grown(old(self).sv(), final(self).sv(), *old(self)),
            r is Ok ==> forall|k: int| 0 <= k < old(self).source_meta@.len() && (#[trigger] old(self).source_meta@[k]).header_ok
                ==> has_text(entry_ids(final(self).sv()), old(self).source_meta@[k].id@) || has_text(entry_ids(final(self).tv()), old(self).source_meta@[k].id@),
            loaded_only(old(self).sv(), final(self).sv(), ready_ids(old(self).source_meta@)),
            loads_from(old(self).sv(), final(self).sv(), old(self).source_meta@, old(self).folder_merges@, old(self).header_rows@, *load),
            all_ready(*old(self), ready_ids(old(self).source_meta@)) && load_never_fails(*load) ==> r is Ok,
            r is Ok ==> all_ready(*old(self), ready_ids(old(self).source_meta@)),
            r matches Err(e) ==> read_error(*old(self), ready_ids(old(self).source_meta@), *load, e),
    {
        let ghost meta = self.source_meta@;
        let mut ids: Vec<String> = Vec::new();
        let mut i: usize = 0;
        while i < self.source_meta.len()
            invariant
                i <= self.source_meta@.len(),
                meta == self.source_meta@,
                ids.deep_view() == ready_ids(meta.take(i as int)),
                forall|j: int| 0 <= j < ids@.len() ==> has_text(self.meta_ids(), #[trigger] ids@[j]@),
                forall|k: int| 0 <= k < i && (#[trigger] self.source_meta@[k]).header_ok ==> has_text(ids.deep_view(), self.source_meta@[k].id@),
            decreases self.source_meta@.len() - i,
        {
            assert(meta.take(i + 1).drop_last() =~= meta.take(i as int));
            assert(meta.take(i + 1).last() == meta[i as int]);
            if self.source_meta[i].header_ok {
                let ghost i0 = ids;
                let x = self.source_meta[i].id.clone();
                ids.push(x);
                proof {
                    lemma_dv_push(i0, ids, x);
                    assert(self.meta_ids()[i as int] == x@);
                    assert forall|k: int| 0 <= k < i + 1 && (#[trigger] self.source_meta@[k]).header_ok implies has_text(ids.deep_view(), self.source_meta@[k].id@) by {
                        if k < i {
                            let a = choose|a: int| 0 <= a < i0.deep_view().len() && i0.deep_view()[a] == self.source_meta@[k].id@;
                            assert(ids.deep_view()[a] == self.source_meta@[k].id@);
                        } else {
                            assert(ids.deep_view()[i0@.len() as int] == self.source_meta@[k].id@);
                        }
                    }
                }
            }
            i += 1;
        }
        assert(meta.take(i as int) =~= meta);
        let ghost iv = ids.deep_view();
        proof {
            assert forall|j: int| 0 <= j < iv.len() implies has_text(self.meta_ids(), #[trigger] iv[j]) by {
                assert(iv[j] == ids@[j]@);
            }
        }
        let r = self.ensure_listed(&ids, load);
        proof {
            if r is Ok {
                assert forall|q: int| 0 <= q < old(self).source_meta@.len() && (#[trigger] old(self).source_meta@[q]).header_ok
                    implies has_text(entry_ids(self.sv()), old(self).source_meta@[q].id@) || has_text(entry_ids(self.tv()), old(self).source_meta@[q].id@) by {
                    let a = choose|a: int| 0 <= a < iv.len() && iv[a] == old(self).source_meta@[q].id@;
                    assert(has_text(entry_ids(self.sv()), iv[a]) || has_text(entry_ids(self.tv()), iv[a]));
                }
            }
        }
        r
    }

    /// Loads the sources that a run through `until` reads, then runs the steps (see
    /// `run_steps`) on the loaded sources.
    pub fn run_until<K, C, T, E, L>(&mut self, nums: &Numbers<K, C, T, E>, pipeline: &Pipeline, until: Option<&str>, load: &L) -> (r: Result<(), String>) where
        K: Fn(&str) -> Option<String>,
        C: Fn(&str, &str) -> Option<CellOrder>,
        T: Fn(&Vec<String>, Aggregate) -> String,
        E: Fn(&FormulaExpr, &Vec<(String, String)>) -> String,
        L: Fn(&SourceLoad, &Vec<(String, usize)>) -> Result<DataTable, String>,
        requires
            nums.wf(),
            forall|a: &SourceLoad, b: &Vec<(String, usize)>| #[trigger] load.requires((a, b)),
        ensures
            final(self).source_meta@ == old(self).source_meta@,
            final(self).header_rows@ == old(self).header_rows@,
            final(self).folder_merges@ == old(self).folder_merges@,
            old(self).sv().len() <= final(self).sv().len() && final(self).sv().subrange(0, old(self).sv().len() as int) == old(self).sv(),
            grown(old(self).sv(), final(self).sv(), *old(self)),
            loaded_only(old(self).sv(), final(self).sv(), sources_read(old(self).meta_ids(), pipeline.steps@, run_len(pipeline.steps@, opt_text(until)))),
            loads_from(old(self).sv(), final(self).sv(), old(self).source_meta@, old(self).folder_merges@, old(self).header_rows@, *load),
            r is Ok ==> exists|trace: Seq<Seq<(Seq<char>, TableView)>>, outs: Seq<TableView>|
                #[trigger] run_trace(*nums, final(self).sv(), pipeline.steps@, trace, outs, run_len(pipeline.steps@, opt_text(until)))
                    && final(self).tv() == trace[run_len(pipeline.steps@, opt_text(until))],
            r matches Err(e) ==> read_error(*old(self), sources_read(old(self).meta_ids(), pipeline.steps@, run_len(pipeline.steps@, opt_text(until))), *load, e)
                || run_fails(*nums, final(self).sv(), pipeline.steps@, run_len(pipeline.steps@, opt_text(until)), e@),
            all_ready(*old(self), sources_read(old(self).meta_ids(), pipeline.steps@, run_len(pipeline.steps@, opt_text(until))))
                && load_never_fails(*load) ==> (r matches Err(e) ==> run_fails(*nums, final(self).sv(), pipeline.steps@, run_len(pipeline.steps@, opt_text(until)), e@)),
    {
        match self.ensure_sources_for_pipeline(pipeline, until, load) {
            Ok(()) => {},
            Err(e) => return Err(e),
        }
        let ghost sv0 = self.sv();
        let r = self.run_steps(nums, pipeline, until);
        proof {
            assert(self.sv() == sv0);
            if r is Err {
                let (trace, outs, n) = choose|trace: Seq<Seq<(Seq<char>, TableView)>>, outs: Seq<TableView>, n: int|
                    #[trigger] run_trace(*nums, sv0, pipeline.steps@, trace, outs, n) && n < run_len(pipeline.steps@, opt_text(until))
                        && step_outcome(*nums, sv0, trace[n], pipeline.steps@[n], Err(r->Err_0@));
                assert(run_fails(*nums, self.sv(), pipeline.steps@, run_len(pipeline.steps@, opt_text(until)), r->Err_0@));
            }
            if r is Ok {
                let (trace, outs, n) = choose|trace: Seq<Seq<(Seq<char>, TableView)>>, outs: Seq<TableView>, n: int|
                    #[trigger] run_trace(*nums, sv0, pipeline.steps@, trace, outs, n) && match r {
                        Ok(()) => n == run_len(pipeline.steps@, opt_text(until)) && self.tv() == trace[n],
                        Err(e) => n < run_len(pipeline.steps@, opt_text(until)) && step_outcome(*nums, sv0, trace[n], pipeline.steps@[n], Err(e@)),
                    };
                assert(self.sv() == sv0);
                assert(run_trace(*nums, self.sv(), pipeline.steps@, trace, outs, run_len(pipeline.steps@, opt_text(until))));
            }
        }
        r
    }

    /// Runs the steps through `step_id` and previews its output (see `step_preview`).
    pub fn preview_step<K, C, T, E, L>(
        &mut self,
        nums: &Numbers<K, C, T, E>,
        pipeline: &Pipeline,
        step_id: &str,
        limit: usize,
        load: &L,
    ) -> (r: Result<PreviewData, String>) where
        K: Fn(&str) -> Option<String>,
        C: Fn(&str, &str) -> Option<CellOrder>,
        T: Fn(&Vec<String>, Aggregate) -> String,
        E: Fn(&FormulaExpr, &Vec<(String, String)>) -> String,
        L: Fn(&SourceLoad, &Vec<(String, usize)>) -> Result<DataTable, String>,
        requires
            nums.wf(),
            forall|a: &SourceLoad, b: &Vec<(String, usize)>| #[trigger] load.requires((a, b)),
        ensures
            final(self).source_meta@ == old(self).source_meta@,
            final(self).header_rows@ == old(self).header_rows@,
            final(self).folder_merges@ == old(self).folder_merges@,
            old(self).sv().len() <= final(self).sv().len() && final(self).sv().subrange(0, old(self).sv().len() as int) == old(self).sv(),
            grown(old(self).sv(), final(self).sv(), *old(self)),
            loads_from(old(self).sv(), final(self).sv(), old(self).source_meta@, old(self).folder_merges@, old(self).header_rows@, *load),
            r is Ok ==> has_text(pipeline.steps@.map_values(|s: Step| s.id@), step_id@),
            r matches Ok(p) ==> exists|trace: Seq<Seq<(Seq<char>, TableView)>>, outs: Seq<TableView>|
                #[trigger] run_trace(*nums, final(self).sv(), pipeline.steps@, trace, outs, run_len(pipeline.steps@, Some(step_id@)))
                && final(self).tv() == trace[run_len(pipeline.steps@, Some(step_id@))]
                && (entry_of(final(self).tv(), pipeline.steps@[position(pipeline.steps@.map_values(|s: Step| s.id@), step_id@)].output_table_id@) matches Some(t)
                    && p.headers.deep_view() == t.headers
                    && p.rows.deep_view() == t.rows.take(if limit < t.rows.len() { limit as int } else { t.rows.len() as int })
                    && p.total_rows == t.rows.len() && p.header_groups@ == t.groups),
            r matches Err(e) ==> read_error(*old(self), sources_read(old(self).meta_ids(), pipeline.steps@, run_len(pipeline.steps@, Some(step_id@))), *load, e)
                || run_fails(*nums, final(self).sv(), pipeline.steps@, run_len(pipeline.steps@, Some(step_id@)), e@)
                || (!has_text(pipeline.steps@.map_values(|s: Step| s.id@), step_id@) && e@ == "步骤不存在: "@ + step_id@
                    && exists|trace: Seq<Seq<(Seq<char>, TableView)>>, outs: Seq<TableView>|
                        #[trigger] run_trace(*nums, final(self).sv(), pipeline.steps@, trace, outs, run_len(pipeline.steps@, Some(step_id@)))
                        && final(self).tv() == trace[run_len(pipeline.steps@, Some(step_id@))]),
            all_ready(*old(self), sources_read(old(self).meta_ids(), pipeline.steps@, run_len(pipeline.steps@, Some(step_id@))))
                && load_never_fails(*load) && has_text(pipeline.steps@.map_values(|s: Step| s.id@), step_id@)
                ==> (r matches Err(e) ==> run_fails(*nums, final(self).sv(), pipeline.steps@, run_len(pipeline.steps@, Some(step_id@)), e@)),
    {
        match self.run_until(nums, pipeline, Some(step_id), load) {
            Ok(()) => {},
            Err(e) => return Err(e),
        }
        let ghost sids = pipeline.steps@.map_values(|s: Step| s.id@);
        let ghost n = run_len(pipeline.steps@, Some(step_id@));
        proof {
            assert(opt_text(Some(step_id)) == Some(step_id@));
            let (trace, outs) = choose|trace: Seq<Seq<(Seq<char>, TableView)>>, outs: Seq<TableView>|
                #[trigger] run_trace(*nums, self.sv(), pipeline.steps@, trace, outs, n) && self.tv() == trace[n];
            if has_text(sids, step_id@) {
                let pos = position(sids, step_id@);
                crate::models::lemma_position(sids, step_id@);
                assert(n == pos + 1);
                assert(run_trace(*nums, self.sv(), pipeline.steps@, trace, outs, n));
                assert(0 <= pos < n);
                lemma_trace_step(*nums, self.sv(), pipeline.steps@, trace, outs, n, pos);
                lemma_insert_has(trace[pos], pipeline.steps@[pos].output_table_id@, outs[pos]);
                assert(entry_of(self.tv(), pipeline.steps@[pos].output_table_id@) is Some);
            }
        }
        self.step_preview(pipeline, step_id, limit)
    }
}

} // verus!
