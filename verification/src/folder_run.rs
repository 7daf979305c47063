//! Running a saved scheme on another folder: the sources it needs, pointing it at the
//! folder, and the command-line request that starts such a run.
use vstd::prelude::*;
use crate::formula::FormulaExpr;
use crate::models::{find_text, has_text, lemma_dv_push, DataTable, ExecuteResult, Pipeline, SourceTable, Step};
use crate::engine::{op_ids, op_table_ids, SourceLoad};
use crate::commands::{pipeline_ran, run_pipeline_inner, unready_names};
use crate::numbers::{Aggregate, CellOrder, Numbers};
use crate::sort::{sort_texts, sorted_texts};
use crate::text::{is_blank, join, join_strings, starts_with, starts_with_str, trim, trimmed};

verus! {

/// `acc` followed by the ids of `ids` that start with `src:` and are new to it.
pub open spec fn add_source_ids(acc: Seq<Seq<char>>, ids: Seq<Seq<char>>) -> Seq<Seq<char>>
    decreases ids.len(),
{
    if ids.len() == 0 {
        acc
    } else {
        let a = add_source_ids(acc, ids.drop_last());
        let x = ids.last();
        if starts_with(x, "src:"@) && !has_text(a, x) { a.push(x) } else { a }
    }
}

/// Source ids (`src:…`) that the steps read, each once, in first-seen order.
pub open spec fn required_list(steps: Seq<Step>) -> Seq<Seq<char>>
    decreases steps.len(),
{
    if steps.len() == 0 {
        Seq::empty()
    } else {
        add_source_ids(required_list(steps.drop_last()), op_ids(steps.last().operation))
    }
}

/// `x` is a source id that some step reads.
pub open spec fn step_reads_source(steps: Seq<Step>, x: Seq<char>) -> bool {
    starts_with(x, "src:"@) && exists|k: int| 0 <= k < steps.len() && has_text(op_ids(#[trigger] steps[k].operation), x)
}

/// Adding ids keeps the list free of repeats and adds exactly the new source ids.
proof fn lemma_add_source_ids(acc: Seq<Seq<char>>, ids: Seq<Seq<char>>)
    requires
        forall|i: int, j: int| 0 <= i < j < acc.len() ==> acc[i] != acc[j],
    ensures
        forall|i: int, j: int| 0 <= i < j < add_source_ids(acc, ids).len() ==> add_source_ids(acc, ids)[i] != add_source_ids(acc, ids)[j],
        forall|x: Seq<char>| #[trigger] has_text(add_source_ids(acc, ids), x) <==> (has_text(acc, x) || (starts_with(x, "src:"@) && has_text(ids, x))),
    decreases ids.len(),
{
    if ids.len() > 0 {
        let rest = ids.drop_last();
        lemma_add_source_ids(acc, rest);
        let a = add_source_ids(acc, rest);
        let y = ids.last();
        assert forall|x: Seq<char>| #[trigger] has_text(add_source_ids(acc, ids), x) <==> (has_text(acc, x) || (starts_with(x, "src:"@) && has_text(ids, x))) by {
            if has_text(rest, x) {
                let j = choose|j: int| 0 <= j < rest.len() && rest[j] == x;
                assert(ids[j] == x);
            }
            if has_text(ids, x) {
                let j = choose|j: int| 0 <= j < ids.len() && ids[j] == x;
                if j < rest.len() {
                    assert(rest[j] == x);
                }
            }
            if starts_with(y, "src:"@) && !has_text(a, y) {
                let b = a.push(y);
                if has_text(b, x) {
                    let j = choose|j: int| 0 <= j < b.len() && b[j] == x;
                    if j < a.len() {
                        assert(a[j] == x);
                    }
                }
                if has_text(a, x) {
                    let j = choose|j: int| 0 <= j < a.len() && a[j] == x;
                    assert(b[j] == x);
                }
                if x == y {
                    assert(b[a.len() as int] == x);
                }
            }
        }
    }
}

/// The source ids that the steps read: each exactly once.
pub proof fn lemma_required_list(steps: Seq<Step>)
    ensures
        forall|i: int, j: int| 0 <= i < j < required_list(steps).len() ==> required_list(steps)[i] != required_list(steps)[j],
        forall|x: Seq<char>| #[trigger] has_text(required_list(steps), x) <==> step_reads_source(steps, x),
    decreases steps.len(),
{
    if steps.len() > 0 {
        let rest = steps.drop_last();
        lemma_required_list(rest);
        lemma_add_source_ids(required_list(rest), op_ids(steps.last().operation));
        assert forall|x: Seq<char>| #[trigger] has_text(required_list(steps), x) <==> step_reads_source(steps, x) by {
            if step_reads_source(steps, x) {
                let k = choose|k: int| 0 <= k < steps.len() && has_text(op_ids(#[trigger] steps[k].operation), x);
                if k < rest.len() {
                    assert(rest[k] == steps[k]);
                    assert(step_reads_source(rest, x));
                }
            }
            if step_reads_source(rest, x) {
                let k = choose|k: int| 0 <= k < rest.len() && has_text(op_ids(#[trigger] rest[k].operation), x);
                assert(steps[k] == rest[k]);
            }
        }
    }
}

/// Source ids (`src:…`) that the steps read, each once (see `required_list`).
pub fn required_source_ids(pipeline: &Pipeline) -> (r: Vec<String>)
    ensures
        r.deep_view() == required_list(pipeline.steps@),
{
    let ghost steps = pipeline.steps@;
    let mut out: Vec<String> = Vec::new();
    let mut k: usize = 0;
    while k < pipeline.steps.len()
        invariant
            k <= steps.len(),
            steps == pipeline.steps@,
            out.deep_view() == required_list(steps.take(k as int)),
        decreases steps.len() - k,
    {
        assert(steps.take(k + 1).drop_last() =~= steps.take(k as int));
        assert(steps.take(k + 1).last() == steps[k as int]);
        let ids = op_table_ids(&pipeline.steps[k].operation);
        let ghost iv = ids.deep_view();
        let ghost o0 = out.deep_view();
        let mut j: usize = 0;
        while j < ids.len()
            invariant
                j <= iv.len(),
                iv == ids.deep_view(),
                out.deep_view() == add_source_ids(o0, iv.take(j as int)),
            decreases iv.len() - j,
        {
            assert(iv.take(j + 1).drop_last() =~= iv.take(j as int));
            assert(iv.take(j + 1).last() == iv[j as int]);
            let x = &ids[j];
            if starts_with_str(x.as_str(), "src:") && find_text(&out, x.as_str()).is_none() {
                let ghost b0 = out;
                let c = x.clone();
                out.push(c);
                proof {
                    lemma_dv_push(b0, out, c);
                }
            }
            proof {
                reveal_strlit("src:");
            }
            j += 1;
        }
        assert(iv.take(j as int) =~= iv);
        k += 1;
    }
    assert(steps.take(k as int) =~= steps);
    out
}

/// A scheme pointed at a folder, with the tables it needs that the folder lacks and the
/// needed tables whose header cannot be read there.
pub struct FolderRunPrep {
    pub pipeline: Pipeline,
    pub missing_tables: Vec<String>,
    pub header_unready: Vec<String>,
}

/// Names (without `src:`) of the required ids that no source has.
pub open spec fn missing_names(required: Seq<Seq<char>>, present: Seq<Seq<char>>) -> Seq<Seq<char>>
    decreases required.len(),
{
    if required.len() == 0 {
        Seq::empty()
    } else {
        let p = missing_names(required.drop_last(), present);
        let x = required.last();
        if has_text(present, x) { p } else { p.push(x.subrange(4, x.len() as int)) }
    }
}

/// What pointing a scheme at a folder reports: the missing tables and the tables whose
/// header is not ready, each sorted.
pub open spec fn prep_lists(steps: Seq<Step>, meta: Seq<SourceTable>) -> (Seq<Seq<char>>, Seq<Seq<char>>) {
    let required = required_list(steps);
    let present = meta.map_values(|m: SourceTable| m.id@);
    (sorted_texts(missing_names(required, present)), sorted_texts(unready_names(meta, required)))
}

/// The report of a scheme pointed at a folder whose sources are `meta` (see `prep_lists`).
pub fn folder_run_prep(pipeline: Pipeline, meta: &Vec<SourceTable>) -> (r: FolderRunPrep)
    ensures
        r.pipeline == pipeline,
        (r.missing_tables.deep_view(), r.header_unready.deep_view()) == prep_lists(pipeline.steps@, meta@),
{
    let required = required_source_ids(&pipeline);
    let ghost rq = required.deep_view();
    let ghost present = meta@.map_values(|m: SourceTable| m.id@);
    let mut ids: Vec<String> = Vec::new();
    let mut i: usize = 0;
    while i < meta.len()
        invariant
            i <= meta@.len(),
            present == meta@.map_values(|m: SourceTable| m.id@),
            ids.deep_view() == present.take(i as int),
        decreases meta@.len() - i,
    {
        let ghost i0 = ids;
        let x = meta[i].id.clone();
        ids.push(x);
        proof {
            lemma_dv_push(i0, ids, x);
            assert(ids.deep_view() =~= present.take(i + 1));
        }
        i += 1;
    }
    assert(present.take(i as int) =~= present);
    proof {
        lemma_required_list(pipeline.steps@);
        assert forall|j: int| 0 <= j < rq.len() implies starts_with(#[trigger] rq[j], "src:"@) by {
            assert(has_text(rq, rq[j]));
        }
    }
    let mut missing: Vec<String> = Vec::new();
    let mut k: usize = 0;
    while k < required.len()
        invariant
            k <= rq.len(),
            rq == required.deep_view(),
            rq == required_list(pipeline.steps@),
            ids.deep_view() == present,
            missing.deep_view() == missing_names(rq.take(k as int), present),
            forall|j: int| 0 <= j < rq.len() ==> starts_with(#[trigger] rq[j], "src:"@),
        decreases rq.len() - k,
    {
        assert(rq.take(k + 1).drop_last() =~= rq.take(k as int));
        assert(rq.take(k + 1).last() == rq[k as int]);
        let x = &required[k];
        if find_text(&ids, x.as_str()).is_none() {
            let ghost m0 = missing;
            let name = strip_src(x.as_str());
            missing.push(name);
            proof {
                lemma_dv_push(m0, missing, name);
            }
        }
        k += 1;
    }
    assert(rq.take(k as int) =~= rq);
    let mut unready: Vec<String> = Vec::new();
    let mut i: usize = 0;
    while i < meta.len()
        invariant
            i <= meta@.len(),
            rq == required.deep_view(),
            unready.deep_view() == unready_names(meta@.take(i as int), rq),
        decreases meta@.len() - i,
    {
        assert(meta@.take(i + 1).drop_last() =~= meta@.take(i as int));
        let m = &meta[i];
        if find_text(&required, m.id.as_str()).is_some() && !m.header_ok {
            let ghost u0 = unready;
            let x = m.name.clone();
            unready.push(x);
            proof {
                lemma_dv_push(u0, unready, x);
            }
        }
        i += 1;
    }
    assert(meta@.take(i as int) =~= meta@);
    let missing_tables = sort_texts(&missing);
    let header_unready = sort_texts(&unready);
    FolderRunPrep { pipeline, missing_tables, header_unready }
}

/// `id` without its `src:` prefix.
fn strip_src(id: &str) -> (r: String)
    requires
        starts_with(id@, "src:"@),
    ensures
        r@ == id@.subrange(4, id@.len() as int),
{
    proof {
        reveal_strlit("src:");
    }
    let v = crate::text::chars_of(id);
    crate::text::string_of_range(&v, 4, v.len())
}

/// `scan` gave `res` for the directory `dir` with header rows `rows`.
pub open spec fn scan_gives<S: Fn(&str, &Vec<(String, usize)>) -> Result<Vec<SourceTable>, String>>(
    scan: S,
    dir: Seq<char>,
    rows: Seq<(String, usize)>,
    res: Result<Vec<SourceTable>, String>,
) -> bool {
    exists|a: &str, b: &Vec<(String, usize)>| #![trigger scan.ensures((a, b), res)] a@ == dir && b@ == rows && scan.ensures((a, b), res)
}

/// `remap` gave `res` for the folder `folder`.
pub open spec fn remap_gives<R: Fn(&str) -> Result<Vec<(String, usize)>, String>>(remap: R, folder: Seq<char>, res: Result<Vec<(String, usize)>, String>) -> bool {
    exists|a: &str| #![trigger remap.ensures((a,), res)] a@ == folder && remap.ensures((a,), res)
}

/// Points a scheme at `folder`: refuses it when `is_dir` says it is no folder; else takes
/// its canonical path from `canonical`, takes the scheme's header rows mapped onto the
/// folder's files from `remap` (or its error), reads from and writes into the folder,
/// reads its sources with `scan`, and reports the tables it lacks (see
/// `folder_run_prep`).
pub fn prepare_scheme_for_folder<D, N, R, S>(pipeline: Pipeline, folder: &str, is_dir: &D, canonical: &N, remap: &R, scan: &S) -> (r: Result<FolderRunPrep, String>) where
    D: Fn(&str) -> bool,
    N: Fn(&str) -> String,
    R: Fn(&str) -> Result<Vec<(String, usize)>, String>,
    S: Fn(&str, &Vec<(String, usize)>) -> Result<Vec<SourceTable>, String>,
    requires
        forall|a: &str| #[trigger] is_dir.requires((a,)),
        forall|a: &str| #[trigger] canonical.requires((a,)),
        forall|a: &str| #[trigger] remap.requires((a,)),
        forall|a: &str, b: &Vec<(String, usize)>| #[trigger] scan.requires((a, b)),
    ensures
        dir_gives(*is_dir, folder@, false) && !dir_gives(*is_dir, folder@, true)
            ==> (r matches Err(e) && e@ == "不是有效文件夹: "@ + folder@),
        r matches Ok(p) ==> {
            &&& dir_gives(*is_dir, folder@, true)
            &&& canonical_gives(*canonical, folder@, p.pipeline.source_dir@)
            &&& p.pipeline.output_dir@ == p.pipeline.source_dir@
            &&& remap_gives(*remap, folder@, Ok(p.pipeline.header_rows))
            &&& p.pipeline.steps == pipeline.steps
            &&& p.pipeline.id == pipeline.id
            &&& p.pipeline.name == pipeline.name
            &&& p.pipeline.output_sheets == pipeline.output_sheets
            &&& p.pipeline.folder_merges == pipeline.folder_merges
            &&& exists|meta: Vec<SourceTable>| #[trigger] scan_gives(*scan, p.pipeline.source_dir@, p.pipeline.header_rows@, Ok(meta))
                && (p.missing_tables.deep_view(), p.header_unready.deep_view()) == prep_lists(pipeline.steps@, meta@)
        },
        r matches Err(e) ==> {
            ||| (dir_gives(*is_dir, folder@, false) && e@ == "不是有效文件夹: "@ + folder@)
            ||| (dir_gives(*is_dir, folder@, true) && remap_gives(*remap, folder@, Err(e)))
            ||| exists|c: String, rows: Vec<(String, usize)>| #![trigger canonical_gives(*canonical, folder@, c@), remap_gives(*remap, folder@, Ok(rows))]
                dir_gives(*is_dir, folder@, true) && canonical_gives(*canonical, folder@, c@) && remap_gives(*remap, folder@, Ok(rows))
                && scan_gives(*scan, c@, rows@, Err(e))
        },
{
    let d = is_dir(folder);
    proof {
        assert(dir_gives(*is_dir, folder@, d));
    }
    if !d {
        let mut e = "不是有效文件夹: ".to_owned();
        e.append(folder);
        return Err(e);
    }
    let c = canonical(folder);
    proof {
        assert(canonical_gives(*canonical, folder@, c@));
    }
    let rm = remap(folder);
    proof {
        assert(remap_gives(*remap, folder@, rm));
    }
    let header_rows = match rm {
        Ok(h) => h,
        Err(e) => {
            let rr: Result<FolderRunPrep, String> = Err(e);
            proof {
                assert(remap_gives(*remap, folder@, Err(rr->Err_0)));
            }
            return rr;
        },
    };
    proof {
        assert(remap_gives(*remap, folder@, Ok(header_rows)));
    }
    let ghost hr = header_rows;
    let mut pipeline = pipeline;
    pipeline.header_rows = header_rows;
    pipeline.source_dir = c.clone();
    pipeline.output_dir = c;
    let res = scan(pipeline.source_dir.as_str(), &pipeline.header_rows);
    proof {
        assert(scan_gives(*scan, pipeline.source_dir@, pipeline.header_rows@, res));
    }
    let meta = match res {
        Ok(m) => m,
        Err(e) => {
            let rr: Result<FolderRunPrep, String> = Err(e);
            proof {
                assert(scan_gives(*scan, pipeline.source_dir@, hr@, Err(rr->Err_0)));
            }
            return rr;
        },
    };
    proof {
        assert(scan_gives(*scan, pipeline.source_dir@, pipeline.header_rows@, Ok(meta)));
    }
    let p = folder_run_prep(pipeline, &meta);
    Ok(p)
}

/// Runs a scheme pointed at a folder: refuses when tables are missing or their header
/// cannot be read, else runs it (see `run_pipeline_inner`).
pub fn execute_scheme_in_folder<K, C, T, E, S, L, W>(nums: &Numbers<K, C, T, E>, prep: &FolderRunPrep, scan: &S, load: &L, write: &W) -> (r: Result<ExecuteResult, String>) where
    K: Fn(&str) -> Option<String>,
    C: Fn(&str, &str) -> Option<CellOrder>,
    T: Fn(&Vec<String>, Aggregate) -> String,
    E: Fn(&FormulaExpr, &Vec<(String, String)>) -> String,
    S: Fn(&str, &Vec<(String, usize)>) -> Result<Vec<SourceTable>, String>,
    L: Fn(&SourceLoad, &Vec<(String, usize)>) -> Result<DataTable, String>,
    W: Fn(&str, &str, &Vec<(String, DataTable)>) -> Result<String, String>,
    requires
        nums.wf(),
        forall|a: &str, b: &Vec<(String, usize)>| #[trigger] scan.requires((a, b)),
        forall|a: &SourceLoad, b: &Vec<(String, usize)>| #[trigger] load.requires((a, b)),
        forall|a: &str, b: &str, c: &Vec<(String, DataTable)>| #[trigger] write.requires((a, b, c)),
    ensures
        prep.missing_tables@.len() > 0 ==> (r matches Err(e) && e@ == "当前文件夹中未找到方案所需的表（需与方案内文件同名）："@ + join(prep.missing_tables.deep_view(), "、"@)),
        prep.missing_tables@.len() == 0 && prep.header_unready@.len() > 0 ==> (r matches Err(e) && e@ == "以下同名表无法按方案表头行读取（请确认文件内容一致）："@ + join(prep.header_unready.deep_view(), "、"@)),
        r is Ok ==> prep.missing_tables@.len() == 0 && prep.header_unready@.len() == 0,
        prep.missing_tables@.len() == 0 && prep.header_unready@.len() == 0 ==> {
            &&& is_blank(prep.pipeline.output_dir@) ==> (r matches Err(e) && e@ == "请先配置输出目录"@)
            &&& !is_blank(prep.pipeline.output_dir@) && is_blank(prep.pipeline.source_dir@) ==> (r matches Err(e) && e@ == "请先配置源数据目录"@)
            &&& !is_blank(prep.pipeline.output_dir@) && !is_blank(prep.pipeline.source_dir@) ==> pipeline_ran(*nums, prep.pipeline, *scan, *load, *write, r)
        },
{
    if prep.missing_tables.len() > 0 {
        let mut e = "当前文件夹中未找到方案所需的表（需与方案内文件同名）：".to_owned();
        let j = join_strings(&prep.missing_tables, "、");
        e.append(j.as_str());
        return Err(e);
    }
    if prep.header_unready.len() > 0 {
        let mut e = "以下同名表无法按方案表头行读取（请确认文件内容一致）：".to_owned();
        let j = join_strings(&prep.header_unready, "、");
        e.append(j.as_str());
        return Err(e);
    }
    run_pipeline_inner(nums, &prep.pipeline, scan, load, write)
}

/// `is_dir` answers `b` for the path `s`.
pub open spec fn dir_gives<D: Fn(&str) -> bool>(is_dir: D, s: Seq<char>, b: bool) -> bool {
    exists|a: &str| #![trigger is_dir.ensures((a,), b)] a@ == s && is_dir.ensures((a,), b)
}

/// `canonical` gives `p` for the path `s`.
pub open spec fn canonical_gives<N: Fn(&str) -> String>(canonical: N, s: Seq<char>, p: Seq<char>) -> bool {
    exists|a: &str, o: String| #![trigger canonical.ensures((a,), o)] a@ == s && canonical.ensures((a,), o) && o@ == p
}

/// Resolves a folder argument: trims it, refuses it when empty or when `is_dir` says it
/// is no folder, and gives `canonical` of it.
pub fn resolve_folder_arg<D, N>(raw: &str, is_dir: &D, canonical: &N) -> (r: Result<String, String>) where
    D: Fn(&str) -> bool,
    N: Fn(&str) -> String,
    requires
        forall|a: &str| #[trigger] is_dir.requires((a,)),
        forall|a: &str| #[trigger] canonical.requires((a,)),
    ensures
        is_blank(raw@) ==> (r matches Err(e) && e@ == "文件夹路径为空"@),
        !is_blank(raw@) ==> match r {
            Ok(p) => dir_gives(*is_dir, trim(raw@), true) && canonical_gives(*canonical, trim(raw@), p@),
            Err(e) => e@ == "不是有效文件夹: "@ + trim(raw@) && dir_gives(*is_dir, trim(raw@), false),
        },
{
    let t = trimmed(raw);
    if t.as_str().is_empty() {
        proof {
            crate::text::lemma_blank_iff_trim_empty(raw@);
        }
        return Err("文件夹路径为空".to_owned());
    }
    proof {
        crate::text::lemma_blank_iff_trim_empty(raw@);
    }
    let ts = t.as_str();
    assert(ts@ == trim(raw@));
    let d = is_dir(ts);
    assert(dir_gives(*is_dir, trim(raw@), d));
    if d {
        let p = canonical(ts);
        assert(canonical_gives(*canonical, trim(raw@), p@));
        return Ok(p);
    }
    let mut e = "不是有效文件夹: ".to_owned();
    e.append(ts);
    Err(e)
}

/// A request to run a scheme on a folder, from the command line.
pub struct FolderRunRequest {
    pub folder: String,
    pub scheme_id: Option<String>,
}

/// The value that argument `a` (followed by `next`) gives flag `name`, if it names it:
/// `name value` or `name=value` (a non-empty value).
pub open spec fn flag_in(a: Seq<char>, next: Option<Seq<char>>, name: Seq<char>) -> Option<Option<Seq<char>>> {
    if a == name {
        Some(next)
    } else if starts_with(a, name + "="@) && a.len() > name.len() + 1 {
        Some(Some(a.subrange(name.len() + 1int, a.len() as int)))
    } else {
        None
    }
}

/// The value that argument `a` gives the first of `names` that it names.
pub open spec fn flag_in_names(a: Seq<char>, next: Option<Seq<char>>, names: Seq<Seq<char>>) -> Option<Option<Seq<char>>>
    decreases names.len(),
{
    if names.len() == 0 {
        None
    } else {
        match flag_in(a, next, names[0]) {
            Some(r) => Some(r),
            None => flag_in_names(a, next, names.drop_first()),
        }
    }
}

/// The value of the first argument from `i` on that names one of `names`.
pub open spec fn flag_value(args: Seq<Seq<char>>, names: Seq<Seq<char>>, i: int) -> Option<Seq<char>>
    decreases args.len() - i,
{
    if i < 0 || i >= args.len() {
        None
    } else {
        let next = if i + 1 < args.len() { Some(args[i + 1]) } else { None };
        match flag_in_names(args[i], next, names) {
            Some(r) => r,
            None => flag_value(args, names, i + 1),
        }
    }
}

/// The value that argument `a` gives flag `name`, if it names it.
fn flag_in_arg(a: &str, next: Option<&String>, name: &str) -> (r: Option<Option<String>>)
    ensures
        match r {
            Some(Some(v)) => flag_in(a@, match next { Some(n) => Some(n@), None => None }, name@) == Some(Some(v@)),
            Some(None) => flag_in(a@, match next { Some(n) => Some(n@), None => None }, name@) == Some(None::<Seq<char>>),
            None => flag_in(a@, match next { Some(n) => Some(n@), None => None }, name@) is None,
        },
{
    if crate::text::same_text(a, name) {
        return Some(match next {
            Some(n) => Some(n.clone()),
            None => None,
        });
    }
    let mut prefix = name.to_owned();
    prefix.append("=");
    if starts_with_str(a, prefix.as_str()) {
        let v = crate::text::chars_of(a);
        let nl = crate::text::chars_of(name).len();
        if nl < v.len() && v.len() - nl > 1 {
            let rest = crate::text::string_of_range(&v, nl + 1, v.len());
            return Some(Some(rest));
        }
    }
    None
}

/// Views of flag names.
pub open spec fn names_v(names: Seq<&str>) -> Seq<Seq<char>> {
    names.map_values(|n: &str| n@)
}

/// The value of the first argument that names one of `names` (see `flag_value`): the
/// next argument after the bare flag (none when it is the last), or the non-empty value
/// after `=`.
pub fn parse_flag_value(args: &[String], names: &[&str]) -> (r: Option<String>)
    ensures
        match r {
            Some(v) => flag_value(args@.map_values(|a: String| a@), names_v(names@), 0) == Some(v@),
            None => flag_value(args@.map_values(|a: String| a@), names_v(names@), 0) is None,
        },
{
    let ghost av = args@.map_values(|a: String| a@);
    let ghost nv = names_v(names@);
    let mut i: usize = 0;
    while i < args.len()
        invariant
            i <= av.len(),
            av == args@.map_values(|a: String| a@),
            nv == names_v(names@),
            flag_value(av, nv, 0) == flag_value(av, nv, i as int),
        decreases av.len() - i,
    {
        let next = if i + 1 < args.len() { Some(&args[i + 1]) } else { None };
        let ghost nx = if i + 1 < av.len() { Some(av[i + 1]) } else { None };
        assert(match next { Some(n) => Some(n@), None => None::<Seq<char>> } == nx);
        let mut j: usize = 0;
        assert(nv.subrange(0, nv.len() as int) =~= nv);
        while j < names.len()
            invariant
                j <= nv.len(),
                i < av.len(),
                nv == names_v(names@),
                av == args@.map_values(|a: String| a@),
                nx == (if i + 1 < av.len() { Some(av[i + 1]) } else { None }),
                match next { Some(n) => Some(n@), None => None::<Seq<char>> } == nx,
                flag_in_names(av[i as int], nx, nv) == flag_in_names(av[i as int], nx, nv.subrange(j as int, nv.len() as int)),
                flag_value(av, nv, 0) == flag_value(av, nv, i as int),
            decreases nv.len() - j,
        {
            let ghost rest = nv.subrange(j as int, nv.len() as int);
            assert(rest[0] == nv[j as int]);
            assert(rest.drop_first() =~= nv.subrange(j + 1, nv.len() as int));
            assert(av[i as int] == args@[i as int]@);
            assert(nv[j as int] == names@[j as int]@);
            match flag_in_arg(args[i].as_str(), next, names[j]) {
                Some(r) => {
                    assert(flag_in_names(av[i as int], nx, nv) == Some(match r { Some(v) => Some(v@), None => None::<Seq<char>> }));
                    assert(flag_value(av, nv, i as int) == match r { Some(v) => Some(v@), None => None::<Seq<char>> });
                    return r;
                },
                None => {},
            }
            j += 1;
        }
        assert(nv.subrange(j as int, nv.len() as int).len() == 0);
        i += 1;
    }
    None
}

/// The folder run that the arguments ask for: `--folder` (required) and `--scheme`.
pub fn parse_folder_run(args: &[String]) -> (r: Option<FolderRunRequest>)
    ensures
        ({
            let av = args@.map_values(|a: String| a@);
            match r {
                Some(q) => flag_value(av, seq!["--folder"@], 0) == Some(q.folder@)
                    && match q.scheme_id {
                        Some(s) => flag_value(av, seq!["--scheme"@], 0) == Some(s@),
                        None => flag_value(av, seq!["--scheme"@], 0) is None,
                    },
                None => flag_value(av, seq!["--folder"@], 0) is None,
            }
        }),
{
    let fnames: [&str; 1] = ["--folder"];
    let snames: [&str; 1] = ["--scheme"];
    assert(names_v(fnames@) =~= seq!["--folder"@]);
    assert(names_v(snames@) =~= seq!["--scheme"@]);
    let folder = match parse_flag_value(args, &fnames) {
        Some(f) => f,
        None => return None,
    };
    let scheme_id = parse_flag_value(args, &snames);
    Some(FolderRunRequest { folder, scheme_id })
}

/// `std::sync::Mutex`, carried through as an opaque value.
#[verifier::external_type_specification]
#[verifier::external_body]
#[verifier::reject_recursive_types(T)]
pub struct ExMutex<T: ?Sized>(std::sync::Mutex<T>);

/// The folder run asked for when the program started, until the window takes it.
pub struct PendingFolderRun(pub std::sync::Mutex<Option<FolderRunRequest>>);

/// Header rows by file name: each old path's names (file name, then stem) with its row,
/// in order.
pub open spec fn name_rows(old: Seq<(Seq<Seq<char>>, usize)>) -> Seq<(Seq<char>, usize)>
    decreases old.len(),
{
    if old.len() == 0 {
        Seq::empty()
    } else {
        name_rows(old.drop_last()) + old.last().0.map_values(|k: Seq<char>| (k, old.last().1))
    }
}

/// The row of the first pair named `k`.
pub open spec fn row_named(pairs: Seq<(Seq<char>, usize)>, k: Seq<char>) -> Option<usize> {
    let ks = pairs.map_values(|p: (Seq<char>, usize)| p.0);
    if has_text(ks, k) { Some(pairs[crate::models::position(ks, k)].1) } else { None }
}

/// Header rows mapped onto the entries of a folder: each entry (not hidden) takes the row
/// of an old path with its file name, else with its stem.
pub open spec fn remapped(pairs: Seq<(Seq<char>, usize)>, es: Seq<crate::scan::EntryV>) -> Seq<(Seq<char>, usize)>
    decreases es.len(),
{
    if es.len() == 0 {
        Seq::empty()
    } else {
        let p = remapped(pairs, es.drop_last());
        let e = es.last();
        let hidden = e.1.len() > 0 && e.1[0] == '.';
        let row = match row_named(pairs, e.1) {
            Some(r) => Some(r),
            None => row_named(pairs, crate::scan::file_stem(e.1)),
        };
        if hidden { p } else {
            match row {
                Some(r) => p.push((e.0, r)),
                None => p,
            }
        }
    }
}

/// The row of the first pair named `k` (see `row_named`).
fn find_row(pairs: &Vec<(String, usize)>, k: &str) -> (r: Option<usize>)
    ensures
        r == row_named(pairs@.map_values(|p: (String, usize)| (p.0@, p.1)), k@),
{
    let ghost pv = pairs@.map_values(|p: (String, usize)| (p.0@, p.1));
    let ghost ks = pv.map_values(|p: (Seq<char>, usize)| p.0);
    let mut i: usize = 0;
    while i < pairs.len()
        invariant
            i <= pairs@.len(),
            pv == pairs@.map_values(|p: (String, usize)| (p.0@, p.1)),
            ks == pv.map_values(|p: (Seq<char>, usize)| p.0),
            forall|j: int| 0 <= j < i ==> ks[j] != k@,
        decreases pairs@.len() - i,
    {
        if crate::text::same_text(pairs[i].0.as_str(), k) {
            proof {
                assert(crate::models::first_at(ks, k@, i as int));
                crate::models::lemma_first_at_unique(ks, k@, i as int);
            }
            return Some(pairs[i].1);
        }
        i += 1;
    }
    None
}

/// Maps a scheme's header rows onto the files of a folder by name: `old` lists, for each
/// old path, its names (file name and stem) and its row; each entry of the folder that
/// is not hidden takes the row of the first old path with its file name, else with its
/// stem (see `remapped`).
pub fn remap_header_rows(old: &Vec<(Vec<String>, usize)>, entries: &Vec<crate::scan::FileEntry>) -> (r: Vec<(String, usize)>)
    ensures
        r@.map_values(|p: (String, usize)| (p.0@, p.1)) == remapped(
            name_rows(old@.map_values(|o: (Vec<String>, usize)| (o.0.deep_view(), o.1))),
            entries@.map_values(|e: crate::scan::FileEntry| crate::scan::entry_v(e)),
        ),
{
    let ghost ov = old@.map_values(|o: (Vec<String>, usize)| (o.0.deep_view(), o.1));
    let mut pairs: Vec<(String, usize)> = Vec::new();
    let mut i: usize = 0;
    while i < old.len()
        invariant
            i <= ov.len(),
            ov == old@.map_values(|o: (Vec<String>, usize)| (o.0.deep_view(), o.1)),
            pairs@.map_values(|p: (String, usize)| (p.0@, p.1)) == name_rows(ov.take(i as int)),
        decreases ov.len() - i,
    {
        assert(ov.take(i + 1).drop_last() =~= ov.take(i as int));
        assert(ov.take(i + 1).last() == ov[i as int]);
        let (keys, row) = &old[i];
        let ghost p0 = pairs@.map_values(|p: (String, usize)| (p.0@, p.1));
        let ghost kv = keys.deep_view();
        let mut j: usize = 0;
        while j < keys.len()
            invariant
                j <= kv.len(),
                kv == keys.deep_view(),
                pairs@.map_values(|p: (String, usize)| (p.0@, p.1)) == p0 + kv.take(j as int).map_values(|k: Seq<char>| (k, *row)),
            decreases kv.len() - j,
        {
            let ghost q0 = pairs@;
            pairs.push((keys[j].clone(), *row));
            assert(pairs@.map_values(|p: (String, usize)| (p.0@, p.1)) =~= p0 + kv.take(j + 1).map_values(|k: Seq<char>| (k, *row))) by {
                assert(kv.take(j + 1).map_values(|k: Seq<char>| (k, *row)) =~= kv.take(j as int).map_values(|k: Seq<char>| (k, *row)).push((kv[j as int], *row)));
                assert(pairs@.map_values(|p: (String, usize)| (p.0@, p.1)) =~= q0.map_values(|p: (String, usize)| (p.0@, p.1)).push((kv[j as int], *row)));
            }
            j += 1;
        }
        assert(kv.take(j as int) =~= kv);
        i += 1;
    }
    assert(ov.take(i as int) =~= ov);
    let ghost pv = pairs@.map_values(|p: (String, usize)| (p.0@, p.1));
    let ghost ev = entries@.map_values(|e: crate::scan::FileEntry| crate::scan::entry_v(e));
    let mut out: Vec<(String, usize)> = Vec::new();
    let mut k: usize = 0;
    while k < entries.len()
        invariant
            k <= ev.len(),
            ev == entries@.map_values(|e: crate::scan::FileEntry| crate::scan::entry_v(e)),
            pv == pairs@.map_values(|p: (String, usize)| (p.0@, p.1)),
            out@.map_values(|p: (String, usize)| (p.0@, p.1)) == remapped(pv, ev.take(k as int)),
        decreases ev.len() - k,
    {
        assert(ev.take(k + 1).drop_last() =~= ev.take(k as int));
        assert(ev.take(k + 1).last() == ev[k as int]);
        let e = &entries[k];
        let v = crate::text::chars_of(e.name.as_str());
        let hidden = v.len() > 0 && v[0] == '.';
        if !hidden {
            let row = match find_row(&pairs, e.name.as_str()) {
                Some(r) => Some(r),
                None => {
                    let stem = crate::scan::stem_of(e.name.as_str());
                    find_row(&pairs, stem.as_str())
                },
            };
            match row {
                Some(r) => {
                    let ghost o0 = out@;
                    out.push((e.path.clone(), r));
                    assert(out@.map_values(|p: (String, usize)| (p.0@, p.1)) =~= o0.map_values(|p: (String, usize)| (p.0@, p.1)).push((e.path@, r)));
                },
                None => {},
            }
        }
        k += 1;
    }
    assert(ev.take(k as int) =~= ev);
    out
}

} // verus!
