//! Running a whole pipeline to result sheets: the checks before a run and the choice
//! and naming of the sheets written.
use vstd::prelude::*;
use crate::formula::FormulaExpr;
use crate::models::{
    copy_texts, has_text, lemma_dv_push, lemma_first_at_unique, first_at, position, DataTable,
    ExecuteResult, OutputSheet, Pipeline, PreviewData, SourceTable, Step, TableView,
};
use crate::template::{holds_plan, last_first, loaded_sources, pending_sheets, plan_formula_template, plan_step, plan_trace, template_sheet_v, template_sheets, PlanView, TemplatePlan, TemplateSheet};
use crate::engine::{entries_view, grown, loads_from, ready_ids};
use crate::engine::{entry_of, entry_ids, run_len, run_trace, run_fails, opt_text, sources_read, source_read_error, lemma_fresh_read_error, Runtime, SourceLoad};
use crate::folder_run::scan_gives;
use crate::numbers::{Aggregate, CellOrder, Numbers};
use crate::text::{blank, is_blank, join, join_strings, same_text, trim, trimmed};

verus! {

/// A result sheet: its name, the id of the step that produced it, and the table.
pub type SheetView = (Seq<char>, Seq<char>, TableView);

/// Names of result sheets.
pub open spec fn sheet_names(sheets: Seq<SheetView>) -> Seq<Seq<char>> {
    sheets.map_values(|x: SheetView| x.0)
}

/// The sheet name of a step: `name` trimmed, or the step's name when it is blank.
pub open spec fn chosen_name(name: Seq<char>, step: Step) -> Seq<char> {
    if is_blank(name) { step.name@ } else { trim(name) }
}

/// Message for a sheet name used twice.
pub open spec fn duplicate_message(name: Seq<char>) -> Seq<char> {
    "结果 Sheet 名称重复：「"@ + name + "」。请修改后再执行"@
}

/// `step` is marked as a result.
pub open spec fn enabled(step: Step) -> bool {
    step.result is Some && step.result->0.enabled
}

/// Result sheets from the configured output sheets `os`, after `acc`.
pub open spec fn configured_sheets(steps: Seq<Step>, tv: Seq<(Seq<char>, TableView)>, os: Seq<OutputSheet>, acc: Seq<SheetView>) -> Result<Seq<SheetView>, Seq<char>>
    decreases os.len(),
{
    if os.len() == 0 {
        Ok(acc)
    } else {
        let o = os[0];
        let ids = steps.map_values(|s: Step| s.id@);
        if !has_text(ids, o.step_id@) {
            Err("输出配置引用了不存在的步骤: "@ + o.step_id@)
        } else {
            let step = steps[position(ids, o.step_id@)];
            if !enabled(step) {
                configured_sheets(steps, tv, os.drop_first(), acc)
            } else {
                match entry_of(tv, step.output_table_id@) {
                    None => Err("步骤「"@ + step.name@ + "」无输出表"@),
                    Some(t) => {
                        let name = chosen_name(o.sheet_name@, step);
                        if name.len() == 0 {
                            Err("步骤「"@ + step.name@ + "」的 Sheet 名称为空"@)
                        } else if has_text(sheet_names(acc), name) {
                            Err(duplicate_message(name))
                        } else {
                            configured_sheets(steps, tv, os.drop_first(), acc.push((name, step.id@, t)))
                        }
                    },
                }
            }
        }
    }
}

/// Result sheets of the steps marked as results, from the last step back, after `acc`.
pub open spec fn marked_sheets(steps: Seq<Step>, tv: Seq<(Seq<char>, TableView)>, acc: Seq<SheetView>) -> Result<Seq<SheetView>, Seq<char>>
    decreases steps.len(),
{
    if steps.len() == 0 {
        Ok(acc)
    } else {
        let step = steps.last();
        if !enabled(step) {
            marked_sheets(steps.drop_last(), tv, acc)
        } else {
            match entry_of(tv, step.output_table_id@) {
                None => Err("步骤「"@ + step.name@ + "」无输出表"@),
                Some(t) => {
                    let name = chosen_name(step.result->0.sheet_name@, step);
                    if name.len() == 0 {
                        Err("步骤「"@ + step.name@ + "」已作为结果，但 Sheet 名称为空"@)
                    } else if has_text(sheet_names(acc), name) {
                        Err(duplicate_message(name))
                    } else {
                        marked_sheets(steps.drop_last(), tv, acc.push((name, step.id@, t)))
                    }
                },
            }
        }
    }
}

/// The result sheets of a finished run: the configured output sheets in order when
/// there are any, else the steps marked as results from the last back.
pub open spec fn result_sheets(p: Pipeline, tv: Seq<(Seq<char>, TableView)>) -> Result<Seq<SheetView>, Seq<char>> {
    let r = if p.output_sheets@.len() > 0 {
        configured_sheets(p.steps@, tv, p.output_sheets@, Seq::empty())
    } else {
        marked_sheets(p.steps@, tv, Seq::empty())
    };
    match r {
        Ok(s) => if s.len() == 0 { Err("没有标记为结果的步骤，请至少勾选一个步骤的「作为结果」"@) } else { Ok(s) },
        Err(e) => Err(e),
    }
}

/// Result sheets as the contracts see them.
pub open spec fn sheets_view(xs: Seq<(String, String, DataTable)>) -> Seq<SheetView> {
    xs.map_values(|x: (String, String, DataTable)| (x.0@, x.1@, x.2@))
}

/// Position of the first step with id `id`.
fn step_index(steps: &Vec<Step>, id: &str) -> (r: Option<usize>)
    ensures
        match r {
            Some(i) => first_at(steps@.map_values(|s: Step| s.id@), id@, i as int),
            None => !has_text(steps@.map_values(|s: Step| s.id@), id@),
        },
{
    let ghost ids = steps@.map_values(|s: Step| s.id@);
    let mut i: usize = 0;
    while i < steps.len()
        invariant
            i <= steps@.len(),
            ids == steps@.map_values(|s: Step| s.id@),
            forall|j: int| 0 <= j < i ==> ids[j] != id@,
        decreases steps@.len() - i,
    {
        if same_text(steps[i].id.as_str(), id) {
            assert(ids[i as int] == id@);
            return Some(i);
        }
        i += 1;
    }
    None
}

/// Whether a sheet of `acc` is named `name`.
fn named_in(acc: &Vec<(String, String, DataTable)>, name: &String) -> (r: bool)
    ensures
        r == has_text(sheet_names(sheets_view(acc@)), name@),
{
    let ghost ns = sheet_names(sheets_view(acc@));
    let mut i: usize = 0;
    while i < acc.len()
        invariant
            i <= acc@.len(),
            ns == sheet_names(sheets_view(acc@)),
            forall|j: int| 0 <= j < i ==> ns[j] != name@,
        decreases acc@.len() - i,
    {
        if same_text(acc[i].0.as_str(), name.as_str()) {
            assert(ns[i as int] == name@);
            return true;
        }
        i += 1;
    }
    false
}

/// `chosen_name` of a sheet name.
fn choose_name(name: &String, step: &Step) -> (r: String)
    ensures
        r@ == chosen_name(name@, *step),
{
    if blank(name.as_str()) { step.name.clone() } else { trimmed(name.as_str()) }
}

/// The table `id` among step outputs.
fn temp_table<'a>(rt: &'a Runtime, id: &str) -> (r: Option<&'a DataTable>)
    ensures
        match r {
            Some(t) => entry_of(rt.tv(), id@) == Some(t@),
            None => entry_of(rt.tv(), id@) is None,
        },
{
    let ghost ids = entry_ids(rt.tv());
    let mut i: usize = 0;
    while i < rt.temps.len()
        invariant
            i <= rt.temps@.len(),
            ids == entry_ids(rt.tv()),
            forall|j: int| 0 <= j < i ==> ids[j] != id@,
        decreases rt.temps@.len() - i,
    {
        if same_text(rt.temps[i].0.as_str(), id) {
            proof {
                assert(first_at(ids, id@, i as int));
                lemma_first_at_unique(ids, id@, i as int);
            }
            return Some(&rt.temps[i].1);
        }
        i += 1;
    }
    None
}

/// A copy of a table.
pub(crate) fn copy_table(t: &DataTable) -> (c: DataTable)
    ensures
        c@ == t@,
{
    DataTable { headers: copy_texts(&t.headers), rows: crate::models::copy_rows(&t.rows), header_groups: crate::models::copy_groups(&t.header_groups) }
}

/// The result sheets of a finished run (see `result_sheets`), with copies of their tables.
pub fn resolve_result_sheets(pipeline: &Pipeline, rt: &Runtime) -> (r: Result<Vec<(String, String, DataTable)>, String>)
    ensures
        match r {
            Ok(xs) => result_sheets(*pipeline, rt.tv()) == Ok::<Seq<SheetView>, Seq<char>>(sheets_view(xs@)),
            Err(e) => result_sheets(*pipeline, rt.tv()) == Err::<Seq<SheetView>, Seq<char>>(e@),
        },
{
    let ghost tv = rt.tv();
    let ghost steps = pipeline.steps@;
    let ghost ids = steps.map_values(|s: Step| s.id@);
    let mut acc: Vec<(String, String, DataTable)> = Vec::new();
    assert(sheets_view(acc@) =~= Seq::<SheetView>::empty());
    if pipeline.output_sheets.len() > 0 {
        let ghost os = pipeline.output_sheets@;
        assert(os.subrange(0, os.len() as int) =~= os);
        let mut k: usize = 0;
        while k < pipeline.output_sheets.len()
            invariant
                k <= os.len(),
                os == pipeline.output_sheets@,
                os.len() > 0,
                tv == rt.tv(),
                steps == pipeline.steps@,
                ids == steps.map_values(|s: Step| s.id@),
                configured_sheets(steps, tv, os, Seq::empty())
                    == configured_sheets(steps, tv, os.subrange(k as int, os.len() as int), sheets_view(acc@)),
            decreases os.len() - k,
        {
            let ghost rest = os.subrange(k as int, os.len() as int);
            assert(rest[0] == os[k as int]);
            assert(rest.drop_first() =~= os.subrange(k + 1, os.len() as int));
            let o = &pipeline.output_sheets[k];
            let si = match step_index(&pipeline.steps, o.step_id.as_str()) {
                Some(i) => i,
                None => {
                    let mut e = "输出配置引用了不存在的步骤: ".to_owned();
                    e.append(o.step_id.as_str());
                    return Err(e);
                },
            };
            proof {
                lemma_first_at_unique(ids, o.step_id@, si as int);
            }
            let step = &pipeline.steps[si];
            let on = match &step.result {
                Some(spec) => spec.enabled,
                None => false,
            };
            if on {
                let t = match temp_table(rt, step.output_table_id.as_str()) {
                    Some(t) => t,
                    None => {
                        let mut e = "步骤「".to_owned();
                        e.append(step.name.as_str());
                        e.append("」无输出表");
                        return Err(e);
                    },
                };
                let name = choose_name(&o.sheet_name, step);
                if name.as_str().is_empty() {
                    let mut e = "步骤「".to_owned();
                    e.append(step.name.as_str());
                    e.append("」的 Sheet 名称为空");
                    return Err(e);
                }
                if named_in(&acc, &name) {
                    let mut e = "结果 Sheet 名称重复：「".to_owned();
                    e.append(name.as_str());
                    e.append("」。请修改后再执行");
                    return Err(e);
                }
                let ghost a0 = acc@;
                let entry = (name, step.id.clone(), copy_table(t));
                acc.push(entry);
                assert(sheets_view(acc@) =~= sheets_view(a0).push((entry.0@, entry.1@, entry.2@)));
            }
            k += 1;
        }
        assert(os.subrange(os.len() as int, os.len() as int).len() == 0);
    } else {
        assert(steps.take(steps.len() as int) =~= steps);
        let mut k: usize = pipeline.steps.len();
        while k > 0
            invariant
                k <= steps.len(),
                tv == rt.tv(),
                steps == pipeline.steps@,
                pipeline.output_sheets@.len() == 0,
                marked_sheets(steps, tv, Seq::empty()) == marked_sheets(steps.take(k as int), tv, sheets_view(acc@)),
            decreases k,
        {
            let ghost pre = steps.take(k as int);
            assert(pre.last() == steps[k - 1]);
            assert(pre.drop_last() =~= steps.take(k - 1));
            let step = &pipeline.steps[k - 1];
            match &step.result {
                Some(spec) => {
                    if spec.enabled {
                        let t = match temp_table(rt, step.output_table_id.as_str()) {
                            Some(t) => t,
                            None => {
                                let mut e = "步骤「".to_owned();
                                e.append(step.name.as_str());
                                e.append("」无输出表");
                                return Err(e);
                            },
                        };
                        let name = choose_name(&spec.sheet_name, step);
                        if name.as_str().is_empty() {
                            let mut e = "步骤「".to_owned();
                            e.append(step.name.as_str());
                            e.append("」已作为结果，但 Sheet 名称为空");
                            return Err(e);
                        }
                        if named_in(&acc, &name) {
                            let mut e = "结果 Sheet 名称重复：「".to_owned();
                            e.append(name.as_str());
                            e.append("」。请修改后再执行");
                            return Err(e);
                        }
                        let ghost a0 = acc@;
                        let entry = (name, step.id.clone(), copy_table(t));
                        acc.push(entry);
                        assert(sheets_view(acc@) =~= sheets_view(a0).push((entry.0@, entry.1@, entry.2@)));
                    }
                },
                None => {},
            }
            k -= 1;
        }
        assert(steps.take(0) =~= Seq::<Step>::empty());
    }
    if acc.len() == 0 {
        return Err("没有标记为结果的步骤，请至少勾选一个步骤的「作为结果」".to_owned());
    }
    Ok(acc)
}

/// Names of the known sources that `used` lists and whose header is not ready, in order.
pub open spec fn unready_names(meta: Seq<SourceTable>, used: Seq<Seq<char>>) -> Seq<Seq<char>>
    decreases meta.len(),
{
    if meta.len() == 0 {
        Seq::empty()
    } else {
        let p = unready_names(meta.drop_last(), used);
        let m = meta.last();
        if has_text(used, m.id@) && !m.header_ok { p.push(m.name@) } else { p }
    }
}

/// The error for sources that steps read but whose header is not ready, if any.
pub fn unready_sources(meta: &Vec<SourceTable>, used: &Vec<String>) -> (r: Option<String>)
    ensures
        match r {
            Some(e) => unready_names(meta@, used.deep_view()).len() > 0
                && e@ == "以下步骤用到的源表未识别表头，请先手动指定表头行："@ + join(unready_names(meta@, used.deep_view()), "、"@),
            None => unready_names(meta@, used.deep_view()).len() == 0,
        },
{
    let mut bad: Vec<String> = Vec::new();
    let mut i: usize = 0;
    while i < meta.len()
        invariant
            i <= meta@.len(),
            bad.deep_view() == unready_names(meta@.take(i as int), used.deep_view()),
        decreases meta@.len() - i,
    {
        assert(meta@.take(i + 1).drop_last() =~= meta@.take(i as int));
        let m = &meta[i];
        if crate::models::find_text(used, m.id.as_str()).is_some() && !m.header_ok {
            let ghost b0 = bad;
            let x = m.name.clone();
            bad.push(x);
            proof {
                lemma_dv_push(b0, bad, x);
            }
        }
        i += 1;
    }
    assert(meta@.take(i as int) =~= meta@);
    if bad.len() == 0 {
        return None;
    }
    let mut e = "以下步骤用到的源表未识别表头，请先手动指定表头行：".to_owned();
    let j = join_strings(&bad, "、");
    e.append(j.as_str());
    Some(e)
}

/// Base name of result files: the pipeline's name, or `结果` when it is blank.
pub fn result_base_name(pipeline: &Pipeline) -> (r: String)
    ensures
        r@ == if is_blank(pipeline.name@) { "结果"@ } else { pipeline.name@ },
{
    if blank(pipeline.name.as_str()) { "结果".to_owned() } else { pipeline.name.clone() }
}

/// Base name of result files, as the contracts see it.
pub open spec fn base_name(p: Pipeline) -> Seq<char> {
    if is_blank(p.name@) { "结果"@ } else { p.name@ }
}

/// `write`, handed the output directory and base name of `p` and the result sheets `sh`
/// (each name with its table), gave `res`.
pub open spec fn written<W: Fn(&str, &str, &Vec<(String, DataTable)>) -> Result<String, String>>(
    write: W,
    p: Pipeline,
    sh: Seq<SheetView>,
    res: Result<String, String>,
) -> bool {
    exists|a: &str, b: &str, c: &Vec<(String, DataTable)>| #![trigger write.ensures((a, b, c), res)]
        a@ == p.output_dir@ && b@ == base_name(p)
        && c@.map_values(|x: (String, DataTable)| (x.0@, x.1@)) == sh.map_values(|x: SheetView| (x.0, x.2))
        && write.ensures((a, b, c), res)
}

/// The run of all steps of `p` from loaded sources `sv` ends with step outputs whose
/// result sheets (see `result_sheets`) are `out`.
pub open spec fn run_sheets<K, C, T, E>(nums: Numbers<K, C, T, E>, p: Pipeline, sv: Seq<(Seq<char>, TableView)>, out: Result<Seq<SheetView>, Seq<char>>) -> bool where
    K: Fn(&str) -> Option<String>,
    C: Fn(&str, &str) -> Option<CellOrder>,
    T: Fn(&Vec<String>, Aggregate) -> String,
    E: Fn(&FormulaExpr, &Vec<(String, String)>) -> String,
 {
    exists|trace: Seq<Seq<(Seq<char>, TableView)>>, outs: Seq<TableView>|
        #[trigger] run_trace(nums, sv, p.steps@, trace, outs, p.steps@.len() as int)
        && result_sheets(p, trace[p.steps@.len() as int]) == out
}

/// Every source of `sv` holds a table that `load` gave for its request among `meta`,
/// with the merge keys and header rows of `p` (see `load_gave`).
pub open spec fn loaded_by<L: Fn(&SourceLoad, &Vec<(String, usize)>) -> Result<DataTable, String>>(
    sv: Seq<(Seq<char>, TableView)>,
    meta: Seq<SourceTable>,
    p: Pipeline,
    load: L,
) -> bool {
    loads_from(Seq::empty(), sv, meta, p.folder_merges@, p.header_rows@, load)
}

/// What running pipeline `p` on the scanned sources `meta` gives (see `run_scanned`):
/// the error for used sources whose header is not ready; else, loading the used sources
/// with `load` and running every step, the result sheets handed to `write`, with
/// `执行完成`, their names and the files `write` gave; or the error of loading, of a
/// step, of choosing the result sheets, or of `write`.
pub open spec fn scanned_run<K, C, T, E, L, W>(
    nums: Numbers<K, C, T, E>,
    p: Pipeline,
    meta: Seq<SourceTable>,
    load: L,
    write: W,
    r: Result<ExecuteResult, String>,
) -> bool where
    K: Fn(&str) -> Option<String>,
    C: Fn(&str, &str) -> Option<CellOrder>,
    T: Fn(&Vec<String>, Aggregate) -> String,
    E: Fn(&FormulaExpr, &Vec<(String, String)>) -> String,
    L: Fn(&SourceLoad, &Vec<(String, usize)>) -> Result<DataTable, String>,
    W: Fn(&str, &str, &Vec<(String, DataTable)>) -> Result<String, String>,
 {
    let used = sources_read(meta.map_values(|m: SourceTable| m.id@), p.steps@, p.steps@.len() as int);
    let bad = unready_names(meta, used);
    if bad.len() > 0 {
        r matches Err(e) && e@ == "以下步骤用到的源表未识别表头，请先手动指定表头行："@ + join(bad, "、"@)
    } else {
        match r {
            Ok(res) => {
                &&& res.message@ == "执行完成"@
                &&& exists|sv: Seq<(Seq<char>, TableView)>, sh: Seq<SheetView>| #[trigger] run_sheets(nums, p, sv, Ok(sh))
                    && loaded_by(sv, meta, p, load)
                    && res.sheet_names.deep_view() == sheet_names(sh)
                    && exists|f: String| res.output_files@ == seq![f] && #[trigger] written(write, p, sh, Ok(f))
            },
            Err(e) => {
                ||| source_read_error(meta, p.folder_merges@, p.header_rows@, used, load, e)
                ||| exists|sv: Seq<(Seq<char>, TableView)>| #[trigger] run_fails(nums, sv, p.steps@, p.steps@.len() as int, e@) && loaded_by(sv, meta, p, load)
                ||| exists|sv: Seq<(Seq<char>, TableView)>| #[trigger] run_sheets(nums, p, sv, Err(e@)) && loaded_by(sv, meta, p, load)
                ||| exists|sv: Seq<(Seq<char>, TableView)>, sh: Seq<SheetView>| #[trigger] run_sheets(nums, p, sv, Ok(sh)) && loaded_by(sv, meta, p, load)
                    && written(write, p, sh, Err(e))
            },
        }
    }
}

/// A run whose steps read a source with no ready header is refused before anything is
/// loaded or written: it fails with the message naming those sources, and neither what
/// `load` nor what `write` does has any part in its result.
pub proof fn lemma_unready_refused<K, C, T, E, L, W, L2, W2>(
    nums: Numbers<K, C, T, E>,
    p: Pipeline,
    meta: Seq<SourceTable>,
    load: L,
    write: W,
    r: Result<ExecuteResult, String>,
    load2: L2,
    write2: W2,
    r2: Result<ExecuteResult, String>,
) where
    K: Fn(&str) -> Option<String>,
    C: Fn(&str, &str) -> Option<CellOrder>,
    T: Fn(&Vec<String>, Aggregate) -> String,
    E: Fn(&FormulaExpr, &Vec<(String, String)>) -> String,
    L: Fn(&SourceLoad, &Vec<(String, usize)>) -> Result<DataTable, String>,
    W: Fn(&str, &str, &Vec<(String, DataTable)>) -> Result<String, String>,
    L2: Fn(&SourceLoad, &Vec<(String, usize)>) -> Result<DataTable, String>,
    W2: Fn(&str, &str, &Vec<(String, DataTable)>) -> Result<String, String>,
    requires
        scanned_run(nums, p, meta, load, write, r),
        scanned_run(nums, p, meta, load2, write2, r2),
        unready_names(meta, sources_read(meta.map_values(|m: SourceTable| m.id@), p.steps@, p.steps@.len() as int)).len() > 0,
    ensures
        r matches Err(e) && e@ == "以下步骤用到的源表未识别表头，请先手动指定表头行："@ + join(
            unready_names(meta, sources_read(meta.map_values(|m: SourceTable| m.id@), p.steps@, p.steps@.len() as int)), "、"@),
        r2 matches Err(e2) && r matches Err(e) && e2@ == e@,
{
}

/// Runs pipeline `p` on the scanned sources `meta` and writes its result sheets (see
/// `scanned_run`): refuses used sources whose header is not ready, runs every step
/// (loading sources with `load`), picks and names the result sheets (see
/// `result_sheets`) and hands them to `write` with the output directory and the base
/// file name.
pub fn run_scanned<K, C, T, E, L, W>(nums: &Numbers<K, C, T, E>, pipeline: &Pipeline, meta: Vec<SourceTable>, load: &L, write: &W) -> (r: Result<ExecuteResult, String>) where
    K: Fn(&str) -> Option<String>,
    C: Fn(&str, &str) -> Option<CellOrder>,
    T: Fn(&Vec<String>, Aggregate) -> String,
    E: Fn(&FormulaExpr, &Vec<(String, String)>) -> String,
    L: Fn(&SourceLoad, &Vec<(String, usize)>) -> Result<DataTable, String>,
    W: Fn(&str, &str, &Vec<(String, DataTable)>) -> Result<String, String>,
    requires
        nums.wf(),
        forall|a: &SourceLoad, b: &Vec<(String, usize)>| #[trigger] load.requires((a, b)),
        forall|a: &str, b: &str, c: &Vec<(String, DataTable)>| #[trigger] write.requires((a, b, c)),
    ensures
        scanned_run(*nums, *pipeline, meta@, *load, *write, r),
{
    let ghost mv = meta@;
    let mut rt = Runtime::with_sources(pipeline, meta);
    let ghost rt0 = rt;
    let used = rt.used_source_ids(pipeline);
    match unready_sources(&rt.source_meta, &used) {
        Some(e) => return Err(e),
        None => {},
    }
    proof {
        assert(run_len(pipeline.steps@, opt_text(None)) == pipeline.steps@.len());
        assert(rt0.sv().len() == 0 && rt0.tv().len() == 0);
    }
    match rt.run_until(nums, pipeline, None, load) {
        Ok(()) => {},
        Err(e) => {
            let rr: Result<ExecuteResult, String> = Err(e);
            proof {
                let used_v = sources_read(rt0.meta_ids(), pipeline.steps@, pipeline.steps@.len() as int);
                if crate::engine::read_error(rt0, used_v, *load, rr->Err_0) {
                    lemma_fresh_read_error(rt0, used_v, *load, rr->Err_0);
                } else {
                    assert(run_fails(*nums, rt.sv(), pipeline.steps@, pipeline.steps@.len() as int, rr->Err_0@));
                }
            }
            return rr;
        },
    }
    let sheets = match resolve_result_sheets(pipeline, &rt) {
        Ok(s) => s,
        Err(e) => {
            let rr: Result<ExecuteResult, String> = Err(e);
            proof {
                assert(run_sheets(*nums, *pipeline, rt.sv(), Err(rr->Err_0@)));
            }
            return rr;
        },
    };
    let ghost sv = sheets_view(sheets@);
    proof {
        assert(run_sheets(*nums, *pipeline, rt.sv(), Ok(sv)));
    }
    let mut names: Vec<String> = Vec::new();
    let mut files: Vec<(String, DataTable)> = Vec::new();
    let mut i: usize = 0;
    while i < sheets.len()
        invariant
            i <= sheets@.len(),
            sv == sheets_view(sheets@),
            names.deep_view() == sheet_names(sv).take(i as int),
            files@.map_values(|x: (String, DataTable)| (x.0@, x.1@)) == sv.take(i as int).map_values(|x: SheetView| (x.0, x.2)),
        decreases sheets@.len() - i,
    {
        let ghost n0 = names;
        let ghost f0 = files@;
        let x = sheets[i].0.clone();
        names.push(x);
        let f = (sheets[i].0.clone(), copy_table(&sheets[i].2));
        files.push(f);
        proof {
            lemma_dv_push(n0, names, x);
            assert(names.deep_view() =~= sheet_names(sv).take(i + 1));
            assert(sv.take(i + 1).map_values(|x: SheetView| (x.0, x.2)) =~= sv.take(i as int).map_values(|x: SheetView| (x.0, x.2)).push((sv[i as int].0, sv[i as int].2)));
            assert(files@.map_values(|x: (String, DataTable)| (x.0@, x.1@)) =~= f0.map_values(|x: (String, DataTable)| (x.0@, x.1@)).push((f.0@, f.1@)));
        }
        i += 1;
    }
    assert(sheet_names(sv).take(i as int) =~= sheet_names(sv));
    assert(sv.take(i as int) =~= sv);
    let name = result_base_name(pipeline);
    let od = pipeline.output_dir.as_str();
    let nm = name.as_str();
    let res = write(od, nm, &files);
    proof {
        assert(write.ensures((od, nm, &files), res));
        assert(written(*write, *pipeline, sv, res));
    }
    let outputs = match res {
        Ok(o) => o,
        Err(e) => {
            let rr: Result<ExecuteResult, String> = Err(e);
            proof {
                assert(written(*write, *pipeline, sv, Err(rr->Err_0)));
            }
            return rr;
        },
    };
    proof {
        assert(written(*write, *pipeline, sv, Ok(outputs)));
    }
    let ghost f0 = outputs;
    let mut files_out: Vec<String> = Vec::new();
    files_out.push(outputs);
    proof {
        assert(files_out@ == seq![f0]);
    }
    Ok(ExecuteResult { output_files: files_out, sheet_names: names, message: "执行完成".to_owned() })
}

/// Runs a pipeline and writes its result sheets: checks the directories, reads the
/// sources with `scan` (handed the source directory and the header rows), and runs the
/// pipeline on them (see `run_scanned`).
pub fn run_pipeline_inner<K, C, T, E, S, L, W>(nums: &Numbers<K, C, T, E>, pipeline: &Pipeline, scan: &S, load: &L, write: &W) -> (r: Result<ExecuteResult, String>) where
    K: Fn(&str) -> Option<String>,
    C: Fn(&str, &str) -> Option<CellOrder>,
    T: Fn(&Vec<String>, Aggregate) -> String,
    E: Fn(&FormulaExpr, &Vec<(String, String)>) -> String,
    S: Fn(&str, &Vec<(String, usize)>) -> Result<Vec<SourceTable>, String>,
    L: Fn(&SourceLoad, &Vec<(String, usize)>) -> Result<DataTable, String>,
    W: Fn(&str, &str, &Vec<(String, DataTable)>) -> Result<String, String>,
    requires
        nums.wf(),
        forall|a: &str, b: &Vec<(String, usize)>| #[trigger] scan.requires((a, b)),
        forall|a: &SourceLoad, b: &Vec<(String, usize)>| #[trigger] load.requires((a, b)),
        forall|a: &str, b: &str, c: &Vec<(String, DataTable)>| #[trigger] write.requires((a, b, c)),
    ensures
        is_blank(pipeline.output_dir@) ==> (r matches Err(e) && e@ == "请先配置输出目录"@),
        !is_blank(pipeline.output_dir@) && is_blank(pipeline.source_dir@) ==> (r matches Err(e) && e@ == "请先配置源数据目录"@),
        !is_blank(pipeline.output_dir@) && !is_blank(pipeline.source_dir@) ==> pipeline_ran(*nums, *pipeline, *scan, *load, *write, r),
{
    if blank(pipeline.output_dir.as_str()) {
        return Err("请先配置输出目录".to_owned());
    }
    if blank(pipeline.source_dir.as_str()) {
        return Err("请先配置源数据目录".to_owned());
    }
    let res = scan(pipeline.source_dir.as_str(), &pipeline.header_rows);
    proof {
        assert(scan_gives(*scan, pipeline.source_dir@, pipeline.header_rows@, res));
    }
    let meta = match res {
        Ok(m) => m,
        Err(e) => {
            let rr: Result<ExecuteResult, String> = Err(e);
            proof {
                assert(scan_gives(*scan, pipeline.source_dir@, pipeline.header_rows@, Err(rr->Err_0)));
            }
            return rr;
        },
    };
    proof {
        assert(scan_gives(*scan, pipeline.source_dir@, pipeline.header_rows@, Ok(meta)));
    }
    let ghost m0 = meta;
    let r = run_scanned(nums, pipeline, meta, load, write);
    proof {
        assert(scanned_run(*nums, *pipeline, m0@, *load, *write, r));
    }
    r
}

/// What running pipeline `p` with directories set gives (see `run_pipeline_inner`): the
/// error of `scan` on its source directory and header rows, or the run on the sources it
/// gave (see `scanned_run`).
pub open spec fn pipeline_ran<K, C, T, E, S, L, W>(
    nums: Numbers<K, C, T, E>,
    p: Pipeline,
    scan: S,
    load: L,
    write: W,
    r: Result<ExecuteResult, String>,
) -> bool where
    K: Fn(&str) -> Option<String>,
    C: Fn(&str, &str) -> Option<CellOrder>,
    T: Fn(&Vec<String>, Aggregate) -> String,
    E: Fn(&FormulaExpr, &Vec<(String, String)>) -> String,
    S: Fn(&str, &Vec<(String, usize)>) -> Result<Vec<SourceTable>, String>,
    L: Fn(&SourceLoad, &Vec<(String, usize)>) -> Result<DataTable, String>,
    W: Fn(&str, &str, &Vec<(String, DataTable)>) -> Result<String, String>,
 {
    ||| (r matches Err(e) && scan_gives(scan, p.source_dir@, p.header_rows@, Err(e)))
    ||| exists|meta: Vec<SourceTable>| #[trigger] scan_gives(scan, p.source_dir@, p.header_rows@, Ok(meta))
        && scanned_run(nums, p, meta@, load, write, r)
}

/// What previewing step `step_id` of `p` on the scanned sources `meta` gives (see
/// `Runtime::preview_step`): after the steps through it ran, the first `limit` rows of
/// its output with their headers and the number of rows; or the error of loading the
/// sources the run reads, of a step, or for an unknown step.
pub open spec fn step_previewed<K, C, T, E, L>(
    nums: Numbers<K, C, T, E>,
    p: Pipeline,
    meta: Seq<SourceTable>,
    step_id: Seq<char>,
    limit: usize,
    load: L,
    r: Result<PreviewData, String>,
) -> bool where
    K: Fn(&str) -> Option<String>,
    C: Fn(&str, &str) -> Option<CellOrder>,
    T: Fn(&Vec<String>, Aggregate) -> String,
    E: Fn(&FormulaExpr, &Vec<(String, String)>) -> String,
    L: Fn(&SourceLoad, &Vec<(String, usize)>) -> Result<DataTable, String>,
 {
    let sids = p.steps@.map_values(|s: Step| s.id@);
    let n = run_len(p.steps@, Some(step_id));
    match r {
        Ok(pv) => has_text(sids, step_id) && exists|sv: Seq<(Seq<char>, TableView)>, trace: Seq<Seq<(Seq<char>, TableView)>>, outs: Seq<TableView>|
            #[trigger] run_trace(nums, sv, p.steps@, trace, outs, n) && loaded_by(sv, meta, p, load)
            && (entry_of(trace[n], p.steps@[position(sids, step_id)].output_table_id@) matches Some(t)
                && pv.headers.deep_view() == t.headers
                && pv.rows.deep_view() == t.rows.take(if limit < t.rows.len() { limit as int } else { t.rows.len() as int })
                && pv.total_rows == t.rows.len()),
        Err(e) => {
            ||| source_read_error(meta, p.folder_merges@, p.header_rows@, sources_read(meta.map_values(|m: SourceTable| m.id@), p.steps@, n), load, e)
            ||| exists|sv: Seq<(Seq<char>, TableView)>| #[trigger] run_fails(nums, sv, p.steps@, n, e@) && loaded_by(sv, meta, p, load)
            ||| (!has_text(sids, step_id) && e@ == "步骤不存在: "@ + step_id)
        },
    }
}

/// A preview succeeds only for a step of the pipeline; for an unknown step it fails with
/// `步骤不存在: ` and the step id, unless loading the sources or running the steps failed
/// first.
pub proof fn lemma_preview_unknown_step<K, C, T, E, L>(
    nums: Numbers<K, C, T, E>,
    p: Pipeline,
    meta: Seq<SourceTable>,
    step_id: Seq<char>,
    limit: usize,
    load: L,
    r: Result<PreviewData, String>,
) where
    K: Fn(&str) -> Option<String>,
    C: Fn(&str, &str) -> Option<CellOrder>,
    T: Fn(&Vec<String>, Aggregate) -> String,
    E: Fn(&FormulaExpr, &Vec<(String, String)>) -> String,
    L: Fn(&SourceLoad, &Vec<(String, usize)>) -> Result<DataTable, String>,
    requires
        step_previewed(nums, p, meta, step_id, limit, load, r),
        !has_text(p.steps@.map_values(|s: Step| s.id@), step_id),
    ensures
        r matches Err(e) && {
            ||| e@ == "步骤不存在: "@ + step_id
            ||| source_read_error(meta, p.folder_merges@, p.header_rows@,
                    sources_read(meta.map_values(|m: SourceTable| m.id@), p.steps@, run_len(p.steps@, Some(step_id))), load, e)
            ||| exists|sv: Seq<(Seq<char>, TableView)>| #[trigger] run_fails(nums, sv, p.steps@, run_len(p.steps@, Some(step_id)), e@)
                && loaded_by(sv, meta, p, load)
        },
{
}

/// Previews step `step_id` of a pipeline: checks the source directory, reads the sources
/// with `scan` (handed the source directory and the header rows), and previews the step
/// on them with at least one row (see `step_previewed`).
pub fn preview_step<K, C, T, E, S, L>(
    nums: &Numbers<K, C, T, E>,
    pipeline: &Pipeline,
    step_id: &str,
    limit: usize,
    scan: &S,
    load: &L,
) -> (r: Result<PreviewData, String>) where
    K: Fn(&str) -> Option<String>,
    C: Fn(&str, &str) -> Option<CellOrder>,
    T: Fn(&Vec<String>, Aggregate) -> String,
    E: Fn(&FormulaExpr, &Vec<(String, String)>) -> String,
    S: Fn(&str, &Vec<(String, usize)>) -> Result<Vec<SourceTable>, String>,
    L: Fn(&SourceLoad, &Vec<(String, usize)>) -> Result<DataTable, String>,
    requires
        nums.wf(),
        forall|a: &str, b: &Vec<(String, usize)>| #[trigger] scan.requires((a, b)),
        forall|a: &SourceLoad, b: &Vec<(String, usize)>| #[trigger] load.requires((a, b)),
    ensures
        is_blank(pipeline.source_dir@) ==> (r matches Err(e) && e@ == "请先配置源数据目录"@),
        !is_blank(pipeline.source_dir@) ==> {
            ||| (r matches Err(e) && scan_gives(*scan, pipeline.source_dir@, pipeline.header_rows@, Err(e)))
            ||| exists|meta: Vec<SourceTable>| #[trigger] scan_gives(*scan, pipeline.source_dir@, pipeline.header_rows@, Ok(meta))
                && step_previewed(*nums, *pipeline, meta@, step_id@, if limit < 1 { 1 } else { limit }, *load, r)
        },
{
    if blank(pipeline.source_dir.as_str()) {
        return Err("请先配置源数据目录".to_owned());
    }
    let res = scan(pipeline.source_dir.as_str(), &pipeline.header_rows);
    proof {
        assert(scan_gives(*scan, pipeline.source_dir@, pipeline.header_rows@, res));
    }
    let meta = match res {
        Ok(m) => m,
        Err(e) => {
            let rr: Result<PreviewData, String> = Err(e);
            proof {
                assert(scan_gives(*scan, pipeline.source_dir@, pipeline.header_rows@, Err(rr->Err_0)));
            }
            return rr;
        },
    };
    proof {
        assert(scan_gives(*scan, pipeline.source_dir@, pipeline.header_rows@, Ok(meta)));
    }
    let ghost m0 = meta;
    let mut rt = Runtime::with_sources(pipeline, meta);
    let ghost rt0 = rt;
    proof {
        assert(rt0.sv().len() == 0 && rt0.tv().len() == 0);
    }
    let lim = if limit < 1 { 1 } else { limit };
    let r = rt.preview_step(nums, pipeline, step_id, lim, load);
    proof {
        let n = run_len(pipeline.steps@, Some(step_id@));
        let used_v = sources_read(rt0.meta_ids(), pipeline.steps@, n);
        if r is Err {
            if crate::engine::read_error(rt0, used_v, *load, r->Err_0) {
                lemma_fresh_read_error(rt0, used_v, *load, r->Err_0);
            }
        }
        assert(step_previewed(*nums, *pipeline, m0@, step_id@, lim, *load, r));
    }
    r
}

/// `plan` is the formula template of `p` planned on the runtime `rt` (see
/// `plan_formula_template`).
pub open spec fn planned(rt: Runtime, p: Pipeline, plan: TemplatePlan) -> bool {
    &&& entries_view(plan.sources@) == loaded_sources(rt.sv(), rt.source_meta@)
    &&& exists|states: Seq<PlanView>| #[trigger] plan_trace(rt.sv(), rt.tv(), rt.source_meta@, p.steps@, states, p.steps@.len() as int)
        && holds_plan(plan, states[p.steps@.len() as int])
}

/// Planning the formula template of `p` on `rt` fails with `e` at a step.
pub open spec fn plan_fails(rt: Runtime, p: Pipeline, e: Seq<char>) -> bool {
    exists|states: Seq<PlanView>, n: int| #[trigger] plan_trace(rt.sv(), rt.tv(), rt.source_meta@, p.steps@, states, n)
        && n < p.steps@.len() && plan_step(rt.sv(), rt.tv(), rt.source_meta@, p.steps@[n], states[n], Err(e))
}

/// What exporting the formula template of `p` to `path` from the loaded runtime `rt`
/// gives (see `export_loaded`): `path`, once `write` took the sheets of the plan (see
/// `template_sheets`); or the planning error, the error for a filter too large, the error
/// of building the sheets, or the error of `write`.
pub open spec fn exported<W: Fn(&str, &Vec<TemplateSheet>) -> Result<(), String>>(rt: Runtime, p: Pipeline, path: Seq<char>, write: W, r: Result<String, String>) -> bool {
    match r {
        Ok(x) => x@ == path && exists|plan: TemplatePlan, a: &str, sheets: &Vec<TemplateSheet>| #![trigger planned(rt, p, plan), write.ensures((a, sheets), Ok::<(), String>(()))]
            planned(rt, p, plan) && a@ == path
            && last_first(pending_sheets(plan)) == Ok::<Seq<crate::template::TemplateSheetV>, Seq<char>>(sheets@.map_values(|s: TemplateSheet| template_sheet_v(s)))
            && write.ensures((a, sheets), Ok::<(), String>(())),
        Err(e) => {
            ||| plan_fails(rt, p, e@)
            ||| exists|plan: TemplatePlan| #[trigger] planned(rt, p, plan) && (plan.filter matches Some(f) && f.data_rows == usize::MAX)
                && e@ == "筛选数据行数超出范围"@
            ||| exists|plan: TemplatePlan| #[trigger] planned(rt, p, plan) && last_first(pending_sheets(plan)) == Err::<Seq<crate::template::TemplateSheetV>, Seq<char>>(e@)
            ||| exists|plan: TemplatePlan, a: &str, sheets: &Vec<TemplateSheet>| #![trigger planned(rt, p, plan), write.ensures((a, sheets), Err::<(), String>(e))]
                planned(rt, p, plan) && a@ == path
                && last_first(pending_sheets(plan)) == Ok::<Seq<crate::template::TemplateSheetV>, Seq<char>>(sheets@.map_values(|s: TemplateSheet| template_sheet_v(s)))
                && write.ensures((a, sheets), Err::<(), String>(e))
        },
    }
}

/// Exports the formula template of a pipeline to `output_path` from the runtime `rt`
/// whose sources are loaded (see `exported`): plans the template (see
/// `plan_formula_template`), builds its sheets (see `template_sheets`) and hands them to
/// `write`.
pub fn export_loaded<W>(rt: &Runtime, pipeline: &Pipeline, output_path: &str, write: &W) -> (r: Result<String, String>) where
    W: Fn(&str, &Vec<TemplateSheet>) -> Result<(), String>,
    requires
        forall|a: &str, b: &Vec<TemplateSheet>| #[trigger] write.requires((a, b)),
    ensures
        exported(*rt, *pipeline, output_path@, *write, r),
{
    let plan = match plan_formula_template(rt, pipeline) {
        Ok(p) => p,
        Err(e) => return Err(e),
    };
    proof {
        assert(planned(*rt, *pipeline, plan));
    }
    match &plan.filter {
        Some(f) => {
            if f.data_rows == usize::MAX {
                return Err("筛选数据行数超出范围".to_owned());
            }
        },
        None => {},
    }
    let sheets = match template_sheets(&plan) {
        Ok(s) => s,
        Err(e) => return Err(e),
    };
    let res = write(output_path, &sheets);
    proof {
        assert(write.ensures((output_path, &sheets), res));
    }
    match res {
        Ok(()) => {
            proof {
                assert(res->Ok_0 == ());
                assert(write.ensures((output_path, &sheets), Ok::<(), String>(())));
            }
        },
        Err(e) => {
            let rr: Result<String, String> = Err(e);
            proof {
                assert(write.ensures((output_path, &sheets), Err::<(), String>(rr->Err_0)));
            }
            return rr;
        },
    }
    Ok(output_path.to_owned())
}

/// Exports the formula template of a pipeline to `output_path`: checks the source
/// directory, reads the sources with `scan` (handed the source directory and the header
/// rows), loads every source whose header is ready with `load`, and exports from the
/// loaded runtime (see `export_loaded`).
pub fn export_formula_template<S, L, W>(pipeline: &Pipeline, output_path: &str, scan: &S, load: &L, write: &W) -> (r: Result<String, String>) where
    S: Fn(&str, &Vec<(String, usize)>) -> Result<Vec<SourceTable>, String>,
    L: Fn(&SourceLoad, &Vec<(String, usize)>) -> Result<DataTable, String>,
    W: Fn(&str, &Vec<TemplateSheet>) -> Result<(), String>,
    requires
        forall|a: &str, b: &Vec<(String, usize)>| #[trigger] scan.requires((a, b)),
        forall|a: &SourceLoad, b: &Vec<(String, usize)>| #[trigger] load.requires((a, b)),
        forall|a: &str, b: &Vec<TemplateSheet>| #[trigger] write.requires((a, b)),
    ensures
        is_blank(pipeline.source_dir@) ==> (r matches Err(e) && e@ == "请先配置源数据目录"@),
        r matches Ok(p) ==> p@ == output_path@ && !is_blank(pipeline.source_dir@),
        !is_blank(pipeline.source_dir@) ==> {
            ||| (r matches Err(e) && scan_gives(*scan, pipeline.source_dir@, pipeline.header_rows@, Err(e)))
            ||| exists|meta: Vec<SourceTable>| #[trigger] scan_gives(*scan, pipeline.source_dir@, pipeline.header_rows@, Ok(meta)) && {
                ||| (r matches Err(e) && source_read_error(meta@, pipeline.folder_merges@, pipeline.header_rows@, ready_ids(meta@), *load, e))
                ||| exists|rt: Runtime| #[trigger] loaded_for(rt, *pipeline, meta@, *load) && exported(rt, *pipeline, output_path@, *write, r)
            }
        },
{
    if blank(pipeline.source_dir.as_str()) {
        return Err("请先配置源数据目录".to_owned());
    }
    let res = scan(pipeline.source_dir.as_str(), &pipeline.header_rows);
    proof {
        assert(scan_gives(*scan, pipeline.source_dir@, pipeline.header_rows@, res));
    }
    let meta = match res {
        Ok(m) => m,
        Err(e) => {
            let rr: Result<String, String> = Err(e);
            proof {
                assert(scan_gives(*scan, pipeline.source_dir@, pipeline.header_rows@, Err(rr->Err_0)));
            }
            return rr;
        },
    };
    proof {
        assert(scan_gives(*scan, pipeline.source_dir@, pipeline.header_rows@, Ok(meta)));
    }
    let ghost m0 = meta;
    let mut rt = Runtime::with_sources(pipeline, meta);
    let ghost rt0 = rt;
    proof {
        assert(rt0.sv().len() == 0 && rt0.tv().len() == 0);
    }
    match rt.load_all_sources(load) {
        Ok(()) => {},
        Err(e) => {
            let rr: Result<String, String> = Err(e);
            proof {
                lemma_fresh_read_error(rt0, ready_ids(m0@), *load, rr->Err_0);
            }
            return rr;
        },
    }
    proof {
        assert forall|y: Seq<char>| #[trigger] has_text(entry_ids(rt.sv()), y) implies crate::engine::source_fault(m0@, pipeline.folder_merges@, y) is None by {
            assert(!has_text(entry_ids(rt0.sv()), y));
            assert(!has_text(entry_ids(rt0.tv()), y));
            assert(crate::engine::read_fault(rt0, y) is None);
        }
        assert forall|k: int| 0 <= k < m0@.len() && (#[trigger] m0@[k]).header_ok implies has_text(entry_ids(rt.sv()), m0@[k].id@) by {
            assert(has_text(entry_ids(rt.sv()), m0@[k].id@) || has_text(entry_ids(rt.tv()), m0@[k].id@));
            assert(!has_text(entry_ids(rt.tv()), m0@[k].id@));
        }
        assert(loaded_for(rt, *pipeline, m0@, *load));
    }
    export_loaded(&rt, pipeline, output_path, write)
}

/// `rt` is the runtime of `p` on the scanned sources `meta` with every source whose
/// header is ready loaded by `load` (see `Runtime::load_all_sources`): no step output, the
/// header rows and merge keys of `p`, only sources with no fault loaded, and each loaded
/// table one that `load` gave for its source (see `loaded_by`).
pub open spec fn loaded_for<L: Fn(&SourceLoad, &Vec<(String, usize)>) -> Result<DataTable, String>>(rt: Runtime, p: Pipeline, meta: Seq<SourceTable>, load: L) -> bool {
    &&& rt.source_meta@ == meta
    &&& loaded_by(rt.sv(), meta, p, load)
    &&& rt.tv().len() == 0
    &&& rt.header_rows@ == p.header_rows@
    &&& rt.folder_merges@ == p.folder_merges@
    &&& forall|k: int| 0 <= k < meta.len() && (#[trigger] meta[k]).header_ok ==> has_text(entry_ids(rt.sv()), meta[k].id@)
    &&& forall|y: Seq<char>| #[trigger] has_text(entry_ids(rt.sv()), y) ==> crate::engine::source_fault(meta, p.folder_merges@, y) is None
}

} // verus!
