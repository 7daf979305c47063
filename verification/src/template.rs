//! Planning a formula template: which data sheets and which result sheets (with the
//! inputs of their formulas) a pipeline gives.
use vstd::prelude::*;
use crate::models::{
    copy_texts, has_text, lemma_dv_push, lemma_first_at_unique, first_at, position, CalcJoin, DataTable,
    Operation, Pipeline, PivotValue, SortKey, SourceTable, Step, TableView,
};
use crate::engine::{entries_view, entry_ids, entry_index, entry_of, lookup_table, missing_table_message, Runtime, SourceLoad};
use crate::commands::copy_table;
use crate::writer::{sheet_name_error, sheet_name_refusal, 
    calculate_formula, calculate_sheet, data_sheet_name, filter_formula, filter_sheet, formula_refs, formulas_view, key_positions,
    new_premium_formulas, new_premium_sheet, pivot_formulas, pivot_sheet, position_or, sanitized, sanitize_sheet_name, sort_args,
    sort_formula, sort_sheet, CalcJoinTemplate, FormulaSheet, CalculateTemplate, FilterTemplate, NewPremiumTemplate,
    PivotTemplate, SortTemplate,
};
use crate::pivot::agg_kind;
use crate::sort::is_desc;
use crate::numbers::Aggregate;
use crate::text::{blank, is_blank, same_text};

verus! {

/// The value stored under `id` (the first entry of an id counts).
pub open spec fn get_named<V>(xs: Seq<(Seq<char>, V)>, id: Seq<char>) -> Option<V> {
    let ids = xs.map_values(|p: (Seq<char>, V)| p.0);
    if has_text(ids, id) { Some(xs[position(ids, id)].1) } else { None }
}

/// `xs` with the value of `id` set to `v` (added when absent).
pub open spec fn put_named<V>(xs: Seq<(Seq<char>, V)>, id: Seq<char>, v: V) -> Seq<(Seq<char>, V)> {
    let ids = xs.map_values(|p: (Seq<char>, V)| p.0);
    if has_text(ids, id) { xs.update(position(ids, id), (id, v)) } else { xs.push((id, v)) }
}

/// A sheet that later template sheets can read: its name and headers.
pub type SheetRefV = (Seq<char>, Seq<Seq<char>>);

/// A filter template as the contracts see it.
pub open spec fn filter_v(t: FilterTemplate) -> (Seq<char>, Seq<char>, Seq<Seq<char>>, Seq<(Seq<char>, Seq<char>, Seq<char>)>, nat) {
    (t.sheet_name@, t.data_sheet@, t.headers.deep_view(), t.conditions@.map_values(|c: (String, String, String)| (c.0@, c.1@, c.2@)), t.data_rows as nat)
}

/// A pivot template as the contracts see it.
pub open spec fn pivot_v(t: PivotTemplate) -> (Seq<char>, Seq<char>, Seq<Seq<char>>, Seq<char>, Seq<Seq<char>>) {
    (t.sheet_name@, t.filtered_sheet@, t.row_fields.deep_view(), t.value_field@, t.filtered_headers.deep_view())
}

/// A sort template as the contracts see it.
pub open spec fn sort_v(t: SortTemplate) -> (Seq<char>, Seq<char>, Seq<Seq<char>>, Seq<(Seq<char>, bool)>) {
    (t.sheet_name@, t.source_sheet@, t.headers.deep_view(), t.keys@.map_values(|k: (String, bool)| (k.0@, k.1)))
}

/// A template join as the contracts see it.
pub open spec fn join_v(j: CalcJoinTemplate) -> (Seq<char>, Seq<char>, Seq<char>, Seq<char>, Seq<Seq<char>>) {
    (j.table_id@, j.sheet_name@, j.base_key@, j.foreign_key@, j.headers.deep_view())
}

/// A calculation template as the contracts see it.
pub open spec fn calc_v(t: CalculateTemplate) -> (Seq<char>, Seq<char>, Seq<char>, Seq<Seq<char>>, Seq<char>, Seq<char>, Seq<(Seq<char>, Seq<char>, Seq<char>, Seq<char>, Seq<Seq<char>>)>) {
    (t.sheet_name@, t.base_sheet@, t.base_table_id@, t.base_headers.deep_view(), t.output_field@, t.formula@, t.joins@.map_values(|j: CalcJoinTemplate| join_v(j)))
}

/// A lookup-subtract template as the contracts see it.
pub open spec fn premium_v(t: NewPremiumTemplate) -> (Seq<Seq<char>>, Seq<Seq<char>>, Seq<Seq<char>>) {
    (
        seq![t.sheet_name@, t.pivot_sheet@, t.right_data_sheet@, t.left_key@, t.right_key@, t.left_value_field@, t.right_value_field@, t.output_field@],
        t.pivot_headers.deep_view(),
        t.right_headers.deep_view(),
    )
}

/// The templates planned so far, and the sheets that later steps can read.
pub struct PlanView {
    pub by_id: Seq<(Seq<char>, SheetRefV)>,
    pub filter: Option<FilterTemplate>,
    pub pivot: Option<PivotTemplate>,
    pub calculate: Option<CalculateTemplate>,
    pub sorts: Seq<SortTemplate>,
    pub premium: Option<NewPremiumTemplate>,
}

/// The sheet name of a step's template sheet.
pub open spec fn step_sheet(step: Step) -> Seq<char> {
    sanitized(
        if step.result is Some && step.result->0.sheet_name@.len() > 0 { step.result->0.sheet_name@ } else { step.name@ },
    )
}

/// The name of source `id`, or `id` when no source has it.
pub open spec fn source_name(meta: Seq<SourceTable>, id: Seq<char>) -> Seq<char> {
    let ids = meta.map_values(|m: SourceTable| m.id@);
    if has_text(ids, id) { meta[position(ids, id)].name@ } else { id }
}

/// Header of a pivot's first value column.
pub open spec fn first_value_header(value_fields: Seq<PivotValue>, value_field: Seq<char>) -> Seq<char> {
    if value_fields.len() > 0 {
        let v = value_fields[0];
        if !is_blank(v.alias@) {
            v.alias@
        } else {
            v.field@ + "_"@ + match agg_kind(v.aggregation@) {
                Aggregate::Count => "计数"@,
                Aggregate::Avg => "平均"@,
                Aggregate::Sum => "求和"@,
            }
        }
    } else {
        value_field + "_求和"@
    }
}

/// The field a pivot template sums: the first value column's, or the legacy field.
pub open spec fn first_value_field(value_fields: Seq<PivotValue>, value_field: Seq<char>) -> Seq<char> {
    if value_fields.len() > 0 && value_fields[0].field@.len() > 0 { value_fields[0].field@ } else { value_field }
}

/// Sort keys of a template: the keys naming a column, with their direction.
pub open spec fn template_keys(keys: Seq<SortKey>) -> Seq<(Seq<char>, bool)>
    decreases keys.len(),
{
    if keys.len() == 0 {
        Seq::empty()
    } else {
        let p = template_keys(keys.drop_last());
        let k = keys.last();
        if is_blank(k.column@) { p } else { p.push((k.column@, is_desc(k.direction@))) }
    }
}

/// The first join of `joins` whose table no readable sheet has.
pub open spec fn missing_join(by_id: Seq<(Seq<char>, SheetRefV)>, joins: Seq<CalcJoin>) -> Option<Seq<char>>
    decreases joins.len(),
{
    if joins.len() == 0 {
        None
    } else if get_named(by_id, joins[0].table_id@) is None {
        Some(joins[0].table_id@)
    } else {
        missing_join(by_id, joins.drop_first())
    }
}

/// What planning one step does: the new plan, or the error.
pub open spec fn plan_step(
    sv: Seq<(Seq<char>, TableView)>,
    tv: Seq<(Seq<char>, TableView)>,
    meta: Seq<SourceTable>,
    step: Step,
    st: PlanView,
    next: Result<PlanView, Seq<char>>,
) -> bool {
    let sn = step_sheet(step);
    let out = step.output_table_id@;
    match step.operation {
        Operation::Filter { input_table_id, conditions } => match lookup_table(sv, tv, input_table_id@) {
            None => next == Err::<PlanView, Seq<char>>(missing_table_message(sv, tv, input_table_id@)),
            Some(t) => next matches Ok(n) && n.filter matches Some(f) && filter_v(f) == (
                sn,
                source_name(meta, input_table_id@),
                t.headers,
                conditions@.map_values(|c: crate::models::FilterCondition| (c.column@, c.op@, c.value@)),
                t.rows.len(),
            ) && n == (PlanView { filter: n.filter, by_id: put_named(st.by_id, out, (sn, t.headers)), ..st }),
        },
        Operation::Pivot { input_table_id, row_fields, value_fields, value_field, .. } => {
            let input = get_named(st.by_id, input_table_id@);
            let fsheet = match input {
                Some(r) => r.0,
                None => match st.filter { Some(f) => f.sheet_name@, None => "筛选结果"@ },
            };
            let fheaders = match input {
                Some(r) => r.1,
                None => match st.filter { Some(f) => f.headers.deep_view(), None => Seq::empty() },
            };
            let headers = row_fields.deep_view().push(first_value_header(value_fields@, value_field@));
            next matches Ok(n) && n.pivot matches Some(p)
                && pivot_v(p) == (sn, fsheet, row_fields.deep_view(), first_value_field(value_fields@, value_field@), fheaders)
                && n == (PlanView { pivot: n.pivot, by_id: put_named(st.by_id, out, (sn, headers)), ..st })
        },
        Operation::Sort { input_table_id, keys } => match get_named(st.by_id, input_table_id@) {
            None => next == Err::<PlanView, Seq<char>>("排序步骤「"@ + step.name@ + "」的输入表未找到（公式模板需能追溯到筛选/透视等上游）"@),
            Some(r) => if template_keys(keys@).len() == 0 {
                next == Err::<PlanView, Seq<char>>("排序步骤「"@ + step.name@ + "」未配置排序字段"@)
            } else {
                next matches Ok(n) && n.sorts.len() == st.sorts.len() + 1 && n.sorts.drop_last() == st.sorts
                    && sort_v(n.sorts.last()) == (sn, r.0, r.1, template_keys(keys@))
                    && n == (PlanView { sorts: n.sorts, by_id: put_named(st.by_id, out, (sn, r.1)), ..st })
            },
        },
        Operation::Calculate { base_table_id, output_field, formula, joins } => match get_named(st.by_id, base_table_id@) {
            None => next == Err::<PlanView, Seq<char>>("计算步骤「"@ + step.name@ + "」的基准表未找到（公式模板需能追溯到筛选/透视等上游）"@),
            Some(b) => match missing_join(st.by_id, joins@) {
                Some(tid) => next == Err::<PlanView, Seq<char>>("计算步骤「"@ + step.name@ + "」的关联表「"@ + tid + "」未找到"@),
                None => next matches Ok(n) && n.calculate matches Some(c) && calc_v(c) == (
                    sn,
                    b.0,
                    base_table_id@,
                    b.1,
                    output_field@,
                    formula@,
                    joins@.map_values(|j: CalcJoin| {
                        let r = get_named(st.by_id, j.table_id@)->0;
                        (j.table_id@, r.0, j.base_key@, j.foreign_key@, r.1)
                    }),
                ) && n == (PlanView { calculate: n.calculate, by_id: put_named(st.by_id, out, (sn, b.1.push(output_field@))), ..st }),
            },
        },
        Operation::LookupSubtract { left_table_id, right_table_id, left_key, right_key, left_value_field, right_value_field, output_field } =>
            match lookup_table(sv, tv, right_table_id@) {
                None => next == Err::<PlanView, Seq<char>>(missing_table_message(sv, tv, right_table_id@)),
                Some(rt) => {
                    let left = get_named(st.by_id, left_table_id@);
                    let psheet = match left {
                        Some(r) => r.0,
                        None => match st.pivot { Some(p) => p.sheet_name@, None => "透视"@ },
                    };
                    let pheaders = match left {
                        Some(r) => r.1,
                        None => match st.pivot { Some(p) => p.row_fields.deep_view().push(p.value_field@ + "_求和"@), None => Seq::empty() },
                    };
                    next matches Ok(n) && n.premium matches Some(np) && premium_v(np) == (
                        seq![sn, psheet, source_name(meta, right_table_id@), left_key@, right_key@, left_value_field@, right_value_field@, output_field@],
                        pheaders,
                        rt.headers,
                    ) && n == (PlanView { premium: n.premium, by_id: put_named(st.by_id, out, (sn, pheaders.push(output_field@))), ..st })
                },
            },
        _ => next == Ok::<PlanView, Seq<char>>(st),
    }
}

/// A plan step's result as the contracts see it.
pub open spec fn plan_result(r: Result<(), String>, v: PlanView) -> Result<PlanView, Seq<char>> {
    match r {
        Ok(_) => Ok(v),
        Err(e) => Err(e@),
    }
}

/// Plan state while walking the steps.
pub struct PlanState {
    pub by_id: Vec<(String, String, Vec<String>)>,
    pub filter: Option<FilterTemplate>,
    pub pivot: Option<PivotTemplate>,
    pub calculate: Option<CalculateTemplate>,
    pub sorts: Vec<SortTemplate>,
    pub premium: Option<NewPremiumTemplate>,
}

/// Readable sheets as the contracts see them.
pub open spec fn refs_view(xs: Seq<(String, String, Vec<String>)>) -> Seq<(Seq<char>, SheetRefV)> {
    xs.map_values(|x: (String, String, Vec<String>)| (x.0@, (x.1@, x.2.deep_view())))
}

impl PlanState {
    pub open spec fn view(&self) -> PlanView {
        PlanView {
            by_id: refs_view(self.by_id@),
            filter: self.filter,
            pivot: self.pivot,
            calculate: self.calculate,
            sorts: self.sorts@,
            premium: self.premium,
        }
    }

    /// The readable sheet `id`.
    fn sheet_ref(&self, id: &str) -> (r: Option<usize>)
        ensures
            match r {
                Some(i) => i < self.by_id@.len() && get_named(self.view().by_id, id@) == Some(self.view().by_id[i as int].1)
                    && first_at(self.view().by_id.map_values(|p: (Seq<char>, SheetRefV)| p.0), id@, i as int),
                None => get_named(self.view().by_id, id@) is None,
            },
    {
        let ghost ids = self.view().by_id.map_values(|p: (Seq<char>, SheetRefV)| p.0);
        let mut i: usize = 0;
        while i < self.by_id.len()
            invariant
                i <= self.by_id@.len(),
                ids == self.view().by_id.map_values(|p: (Seq<char>, SheetRefV)| p.0),
                forall|j: int| 0 <= j < i ==> ids[j] != id@,
            decreases self.by_id@.len() - i,
        {
            if same_text(self.by_id[i].0.as_str(), id) {
                proof {
                    assert(first_at(ids, id@, i as int));
                    lemma_first_at_unique(ids, id@, i as int);
                }
                return Some(i);
            }
            i += 1;
        }
        None
    }

    /// Sets the readable sheet `id`.
    fn put_ref(&mut self, id: &String, sheet: String, headers: Vec<String>)
        ensures
            final(self).view() == (PlanView { by_id: put_named(old(self).view().by_id, id@, (sheet@, headers.deep_view())), ..old(self).view() }),
    {
        let ghost ids = self.view().by_id.map_values(|p: (Seq<char>, SheetRefV)| p.0);
        let ghost v0 = self.by_id@;
        let ghost hv = headers.deep_view();
        match self.sheet_ref(id.as_str()) {
            Some(i) => {
                proof {
                    lemma_first_at_unique(ids, id@, i as int);
                }
                self.by_id.set(i, (id.clone(), sheet, headers));
                assert(refs_view(self.by_id@) =~= put_named(refs_view(v0), id@, (sheet@, hv)));
            },
            None => {
                self.by_id.push((id.clone(), sheet, headers));
                assert(refs_view(self.by_id@) =~= put_named(refs_view(v0), id@, (sheet@, hv)));
            },
        }
    }
}

/// `step_sheet` of a step.
fn step_sheet_name(step: &Step) -> (r: String)
    ensures
        r@ == step_sheet(*step),
{
    match &step.result {
        Some(spec) => {
            if !spec.sheet_name.as_str().is_empty() {
                return sanitize_sheet_name(spec.sheet_name.as_str());
            }
        },
        None => {},
    }
    sanitize_sheet_name(step.name.as_str())
}

/// `source_name` of an id.
fn source_name_of(meta: &Vec<SourceTable>, id: &String) -> (r: String)
    ensures
        r@ == source_name(meta@, id@),
{
    let ghost ids = meta@.map_values(|m: SourceTable| m.id@);
    let mut i: usize = 0;
    while i < meta.len()
        invariant
            i <= meta@.len(),
            ids == meta@.map_values(|m: SourceTable| m.id@),
            forall|j: int| 0 <= j < i ==> ids[j] != id@,
        decreases meta@.len() - i,
    {
        if same_text(meta[i].id.as_str(), id.as_str()) {
            proof {
                assert(first_at(ids, id@, i as int));
                lemma_first_at_unique(ids, id@, i as int);
            }
            return meta[i].name.clone();
        }
        i += 1;
    }
    id.clone()
}

/// `template_keys` of sort keys.
fn keys_of(keys: &Vec<SortKey>) -> (r: Vec<(String, bool)>)
    ensures
        r@.map_values(|k: (String, bool)| (k.0@, k.1)) == template_keys(keys@),
{
    let mut r: Vec<(String, bool)> = Vec::new();
    let mut i: usize = 0;
    while i < keys.len()
        invariant
            i <= keys@.len(),
            r@.map_values(|k: (String, bool)| (k.0@, k.1)) == template_keys(keys@.take(i as int)),
        decreases keys@.len() - i,
    {
        assert(keys@.take(i + 1).drop_last() =~= keys@.take(i as int));
        let k = &keys[i];
        if !blank(k.column.as_str()) {
            let ghost r0 = r@;
            let d = crate::sort::desc_direction(k.direction.as_str());
            let x = (k.column.clone(), d);
            r.push(x);
            assert(r@.map_values(|k: (String, bool)| (k.0@, k.1)) =~= r0.map_values(|k: (String, bool)| (k.0@, k.1)).push((x.0@, x.1)));
        }
        i += 1;
    }
    assert(keys@.take(i as int) =~= keys@);
    r
}

/// `first_value_header` of a pivot.
fn value_header_of(value_fields: &Vec<PivotValue>, value_field: &String) -> (r: String)
    ensures
        r@ == first_value_header(value_fields@, value_field@),
{
    if value_fields.len() > 0 {
        let v = &value_fields[0];
        if !blank(v.alias.as_str()) {
            return v.alias.clone();
        }
        let mut t = v.field.clone();
        t.append("_");
        if same_text(v.aggregation.as_str(), "count") {
            t.append("计数");
        } else if same_text(v.aggregation.as_str(), "avg") {
            t.append("平均");
        } else {
            t.append("求和");
        }
        t
    } else {
        let mut t = value_field.clone();
        t.append("_求和");
        t
    }
}

/// A copy of `xs` with `x` appended.
fn pushed(xs: &Vec<String>, x: &String) -> (r: Vec<String>)
    ensures
        r.deep_view() == xs.deep_view().push(x@),
{
    let mut r = copy_texts(xs);
    let ghost r0 = r;
    let c = x.clone();
    r.push(c);
    proof {
        lemma_dv_push(r0, r, c);
    }
    r
}

impl PlanState {
    /// Plans one step (see `plan_step`).
    fn plan_one(&mut self, rt: &Runtime, step: &Step) -> (r: Result<(), String>)
        ensures
            plan_step(rt.sv(), rt.tv(), rt.source_meta@, *step, old(self).view(), plan_result(r, final(self).view())),
    {
        let ghost st = self.view();
        let sn = step_sheet_name(step);
        match &step.operation {
            Operation::Filter { input_table_id, conditions } => {
                let t = match rt.get_table(input_table_id.as_str()) {
                    Ok(t) => t,
                    Err(e) => {
                        assert(plan_result(Err(e), self.view()) == Err::<PlanView, Seq<char>>(e@));
                        assert(lookup_table(rt.sv(), rt.tv(), input_table_id@) is None);
                        assert(plan_step(rt.sv(), rt.tv(), rt.source_meta@, *step, st, Err::<PlanView, Seq<char>>(e@)));
                        return Err(e);
                    },
                };
                let mut conds: Vec<(String, String, String)> = Vec::new();
                let mut i: usize = 0;
                while i < conditions.len()
                    invariant
                        i <= conditions@.len(),
                        conds@.len() == i,
                        forall|j: int| 0 <= j < i ==> (#[trigger] conds@[j]).0@ == conditions@[j].column@
                            && conds@[j].1@ == conditions@[j].op@ && conds@[j].2@ == conditions@[j].value@,
                    decreases conditions@.len() - i,
                {
                    let c = &conditions[i];
                    let ghost c0 = conds@;
                    let x = (c.column.clone(), c.op.clone(), c.value.clone());
                    conds.push(x);
                    assert(conds@ == c0.push(x));
                    i += 1;
                }
                let ghost cv = conds@.map_values(|c: (String, String, String)| (c.0@, c.1@, c.2@));
                let ghost want = conditions@.map_values(|c: crate::models::FilterCondition| (c.column@, c.op@, c.value@));
                assert forall|j: int| 0 <= j < cv.len() implies cv[j] == want[j] by {
                    assert(conds@[j].0@ == conditions@[j].column@);
                }
                assert(cv =~= want);
                let ds = source_name_of(&rt.source_meta, input_table_id);
                self.filter = Some(FilterTemplate {
                    sheet_name: sn.clone(),
                    data_sheet: ds,
                    headers: copy_texts(&t.headers),
                    conditions: conds,
                    data_rows: t.rows.len(),
                });
                self.put_ref(&step.output_table_id, sn, copy_texts(&t.headers));
                assert(plan_step(rt.sv(), rt.tv(), rt.source_meta@, *step, st, Ok::<PlanView, Seq<char>>(self.view())));
                Ok(())
            },
            Operation::Pivot { input_table_id, row_fields, value_fields, value_field, .. } => {
                let ghost input = get_named(st.by_id, input_table_id@);
                let (fsheet, fheaders) = match self.sheet_ref(input_table_id.as_str()) {
                    Some(i) => {
                        let a = self.by_id[i].1.clone();
                        let h = copy_texts(&self.by_id[i].2);
                        assert(input == Some((a@, h.deep_view())));
                        (a, h)
                    },
                    None => match &self.filter {
                        Some(f) => {
                            let a = f.sheet_name.clone();
                            let h = copy_texts(&f.headers);
                            assert(a@ == f.sheet_name@ && h.deep_view() == f.headers.deep_view());
                            (a, h)
                        },
                        None => {
                            let h: Vec<String> = Vec::new();
                            assert(h.deep_view() =~= Seq::<Seq<char>>::empty());
                            ("筛选结果".to_owned(), h)
                        },
                    },
                };
                assert(fsheet@ == match input {
                    Some(r) => r.0,
                    None => match st.filter { Some(f) => f.sheet_name@, None => "筛选结果"@ },
                });
                assert(fheaders.deep_view() == match input {
                    Some(r) => r.1,
                    None => match st.filter { Some(f) => f.headers.deep_view(), None => Seq::<Seq<char>>::empty() },
                });
                let vh = value_header_of(value_fields, value_field);
                let headers = pushed(row_fields, &vh);
                let fv = if value_fields.len() > 0 && !value_fields[0].field.as_str().is_empty() {
                    value_fields[0].field.clone()
                } else {
                    value_field.clone()
                };
                self.pivot = Some(PivotTemplate {
                    sheet_name: sn.clone(),
                    filtered_sheet: fsheet,
                    row_fields: copy_texts(row_fields),
                    value_field: fv,
                    filtered_headers: fheaders,
                });
                let ghost mid = self.view();
                assert(mid.pivot matches Some(p) && pivot_v(p) == (step_sheet(*step), fsheet@, row_fields.deep_view(), first_value_field(value_fields@, value_field@), fheaders.deep_view()));
                self.put_ref(&step.output_table_id, sn, headers);
                assert(self.view() == (PlanView { pivot: mid.pivot, by_id: put_named(st.by_id, step.output_table_id@, (step_sheet(*step), headers.deep_view())), ..st }));
                assert(plan_step(rt.sv(), rt.tv(), rt.source_meta@, *step, st, Ok::<PlanView, Seq<char>>(self.view())));
                Ok(())
            },
            Operation::Sort { input_table_id, keys } => {
                let i = match self.sheet_ref(input_table_id.as_str()) {
                    Some(i) => i,
                    None => {
                        let mut e = "排序步骤「".to_owned();
                        e.append(step.name.as_str());
                        e.append("」的输入表未找到（公式模板需能追溯到筛选/透视等上游）");
                        return Err(e);
                    },
                };
                let ks = keys_of(keys);
                if ks.len() == 0 {
                    let mut e = "排序步骤「".to_owned();
                    e.append(step.name.as_str());
                    e.append("」未配置排序字段");
                    return Err(e);
                }
                let src = self.by_id[i].1.clone();
                let hs = copy_texts(&self.by_id[i].2);
                let hs2 = copy_texts(&self.by_id[i].2);
                let ghost s0 = self.sorts@;
                self.sorts.push(SortTemplate { sheet_name: sn.clone(), source_sheet: src, headers: hs, keys: ks });
                assert(self.sorts@.drop_last() =~= s0);
                self.put_ref(&step.output_table_id, sn, hs2);
                assert(plan_step(rt.sv(), rt.tv(), rt.source_meta@, *step, st, Ok::<PlanView, Seq<char>>(self.view())));
                Ok(())
            },
            Operation::Calculate { base_table_id, output_field, formula, joins } => {
                let b = match self.sheet_ref(base_table_id.as_str()) {
                    Some(i) => i,
                    None => {
                        let mut e = "计算步骤「".to_owned();
                        e.append(step.name.as_str());
                        e.append("」的基准表未找到（公式模板需能追溯到筛选/透视等上游）");
                        return Err(e);
                    },
                };
                let ghost js = joins@;
                let mut jt: Vec<CalcJoinTemplate> = Vec::new();
                assert(js.subrange(0, js.len() as int) =~= js);
                let mut k: usize = 0;
                #[verifier::loop_isolation(false)]
                while k < joins.len()
                    invariant
                        k <= js.len(),
                        js == joins@,
                        st == self.view(),
                        missing_join(st.by_id, js) == missing_join(st.by_id, js.subrange(k as int, js.len() as int)),
                        get_named(st.by_id, base_table_id@) is Some,
                        forall|q: int| 0 <= q < k ==> get_named(st.by_id, #[trigger] js[q].table_id@) is Some,
                        jt@.map_values(|j: CalcJoinTemplate| join_v(j)) == js.take(k as int).map_values(|j: CalcJoin| {
                            let r = get_named(st.by_id, j.table_id@)->0;
                            (j.table_id@, r.0, j.base_key@, j.foreign_key@, r.1)
                        }),
                    decreases js.len() - k,
                {
                    let ghost rest = js.subrange(k as int, js.len() as int);
                    assert(rest[0] == js[k as int]);
                    assert(rest.drop_first() =~= js.subrange(k + 1, js.len() as int));
                    let j = &joins[k];
                    let ri = match self.sheet_ref(j.table_id.as_str()) {
                        Some(ri) => ri,
                        None => {
                            let mut e = "计算步骤「".to_owned();
                            e.append(step.name.as_str());
                            e.append("」的关联表「");
                            e.append(j.table_id.as_str());
                            e.append("」未找到");
                            proof {
                                assert(missing_join(st.by_id, rest) == Some(js[k as int].table_id@));
                                assert(plan_step(rt.sv(), rt.tv(), rt.source_meta@, *step, st, Err::<PlanView, Seq<char>>(e@)));
                            }
                            return Err(e);
                        },
                    };
                    let x = CalcJoinTemplate {
                        table_id: j.table_id.clone(),
                        sheet_name: self.by_id[ri].1.clone(),
                        base_key: j.base_key.clone(),
                        foreign_key: j.foreign_key.clone(),
                        headers: copy_texts(&self.by_id[ri].2),
                    };
                    let ghost j0 = jt@;
                    jt.push(x);
                    assert(js.take(k + 1) =~= js.take(k as int).push(js[k as int]));
                    assert(jt@.map_values(|j: CalcJoinTemplate| join_v(j)) =~= j0.map_values(|j: CalcJoinTemplate| join_v(j)).push(join_v(x)));
                    k += 1;
                }
                assert(js.take(k as int) =~= js);
                assert(js.subrange(js.len() as int, js.len() as int).len() == 0);
                let bs = self.by_id[b].1.clone();
                let bh = copy_texts(&self.by_id[b].2);
                let headers = pushed(&self.by_id[b].2, output_field);
                self.calculate = Some(CalculateTemplate {
                    sheet_name: sn.clone(),
                    base_sheet: bs,
                    base_table_id: base_table_id.clone(),
                    base_headers: bh,
                    output_field: output_field.clone(),
                    formula: formula.clone(),
                    joins: jt,
                });
                self.put_ref(&step.output_table_id, sn, headers);
                assert(plan_step(rt.sv(), rt.tv(), rt.source_meta@, *step, st, Ok::<PlanView, Seq<char>>(self.view())));
                Ok(())
            },
            Operation::LookupSubtract { left_table_id, right_table_id, left_key, right_key, left_value_field, right_value_field, output_field } => {
                let rname = source_name_of(&rt.source_meta, right_table_id);
                let t = match rt.get_table(right_table_id.as_str()) {
                    Ok(t) => t,
                    Err(e) => {
                        assert(plan_step(rt.sv(), rt.tv(), rt.source_meta@, *step, st, Err::<PlanView, Seq<char>>(e@)));
                        return Err(e);
                    },
                };
                let ghost left = get_named(st.by_id, left_table_id@);
                let (psheet, pheaders) = match self.sheet_ref(left_table_id.as_str()) {
                    Some(i) => {
                        let a = self.by_id[i].1.clone();
                        let h = copy_texts(&self.by_id[i].2);
                        assert(left == Some((a@, h.deep_view())));
                        (a, h)
                    },
                    None => match &self.pivot {
                        Some(p) => {
                            let mut vh = p.value_field.clone();
                            vh.append("_求和");
                            let a = p.sheet_name.clone();
                            let h = pushed(&p.row_fields, &vh);
                            assert(a@ == p.sheet_name@ && h.deep_view() == p.row_fields.deep_view().push(p.value_field@ + "_求和"@));
                            (a, h)
                        },
                        None => {
                            let h: Vec<String> = Vec::new();
                            assert(h.deep_view() =~= Seq::<Seq<char>>::empty());
                            ("透视".to_owned(), h)
                        },
                    },
                };
                assert(psheet@ == match left {
                    Some(r) => r.0,
                    None => match st.pivot { Some(p) => p.sheet_name@, None => "透视"@ },
                });
                assert(pheaders.deep_view() == match left {
                    Some(r) => r.1,
                    None => match st.pivot { Some(p) => p.row_fields.deep_view().push(p.value_field@ + "_求和"@), None => Seq::<Seq<char>>::empty() },
                });
                let headers = pushed(&pheaders, output_field);
                self.premium = Some(NewPremiumTemplate {
                    sheet_name: sn.clone(),
                    pivot_sheet: psheet,
                    right_data_sheet: rname,
                    left_key: left_key.clone(),
                    right_key: right_key.clone(),
                    left_value_field: left_value_field.clone(),
                    right_value_field: right_value_field.clone(),
                    output_field: output_field.clone(),
                    pivot_headers: pheaders,
                    right_headers: copy_texts(&t.headers),
                });
                self.put_ref(&step.output_table_id, sn, headers);
                assert(plan_step(rt.sv(), rt.tv(), rt.source_meta@, *step, st, Ok::<PlanView, Seq<char>>(self.view())));
                Ok(())
            },
            _ => {
                assert(plan_step(rt.sv(), rt.tv(), rt.source_meta@, *step, st, Ok::<PlanView, Seq<char>>(self.view())));
                Ok(())
            },
        }
    }
}

/// Loaded sources in the order of `meta`: each one's name and table.
pub open spec fn loaded_sources(sv: Seq<(Seq<char>, TableView)>, meta: Seq<SourceTable>) -> Seq<(Seq<char>, TableView)>
    decreases meta.len(),
{
    if meta.len() == 0 {
        Seq::empty()
    } else {
        let p = loaded_sources(sv, meta.drop_last());
        match entry_of(sv, meta.last().id@) {
            Some(t) => p.push((meta.last().name@, t)),
            None => p,
        }
    }
}

/// Readable sheets before any step: each loaded source under its id, on its data sheet.
pub open spec fn source_refs(sv: Seq<(Seq<char>, TableView)>, meta: Seq<SourceTable>) -> Seq<(Seq<char>, SheetRefV)>
    decreases meta.len(),
{
    if meta.len() == 0 {
        Seq::empty()
    } else {
        let p = source_refs(sv, meta.drop_last());
        let m = meta.last();
        match entry_of(sv, m.id@) {
            Some(t) => put_named(p, m.id@, (data_sheet_name(m.name@), t.headers)),
            None => p,
        }
    }
}

/// The plan before any step.
pub open spec fn plan_start(sv: Seq<(Seq<char>, TableView)>, meta: Seq<SourceTable>) -> PlanView {
    PlanView { by_id: source_refs(sv, meta), filter: None, pivot: None, calculate: None, sorts: Seq::empty(), premium: None }
}

/// `states` records planning the first `n` steps: each step took `states[k]` to `states[k + 1]`.
pub open spec fn plan_trace(
    sv: Seq<(Seq<char>, TableView)>,
    tv: Seq<(Seq<char>, TableView)>,
    meta: Seq<SourceTable>,
    steps: Seq<Step>,
    states: Seq<PlanView>,
    n: int,
) -> bool {
    &&& 0 <= n <= steps.len()
    &&& states.len() == n + 1
    &&& states[0] == plan_start(sv, meta)
    &&& forall|k: int| 0 <= k < n ==> #[trigger] plan_step(sv, tv, meta, steps[k], states[k], Ok(states[k + 1]))
}

/// The templates of a pipeline: the loaded sources (name and table) and the result sheets.
pub struct TemplatePlan {
    pub sources: Vec<(String, DataTable)>,
    pub filter: Option<FilterTemplate>,
    pub pivot: Option<PivotTemplate>,
    pub calculate: Option<CalculateTemplate>,
    pub sorts: Vec<SortTemplate>,
    pub premium: Option<NewPremiumTemplate>,
}

/// `plan` holds the templates of `v`.
pub open spec fn holds_plan(plan: TemplatePlan, v: PlanView) -> bool {
    &&& plan.filter == v.filter
    &&& plan.pivot == v.pivot
    &&& plan.calculate == v.calculate
    &&& plan.sorts@ == v.sorts
    &&& plan.premium == v.premium
}

/// Plans the formula template of `pipeline` on the loaded tables of `rt`: one data sheet
/// per loaded source, then each step in turn (see `plan_step`).
pub fn plan_formula_template(rt: &Runtime, pipeline: &Pipeline) -> (r: Result<TemplatePlan, String>)
    ensures
        ({
            let sv = rt.sv();
            let tv = rt.tv();
            let meta = rt.source_meta@;
            let steps = pipeline.steps@;
            match r {
                Ok(plan) => entries_view(plan.sources@) == loaded_sources(sv, meta)
                    && exists|states: Seq<PlanView>| #[trigger] plan_trace(sv, tv, meta, steps, states, steps.len() as int)
                        && holds_plan(plan, states[steps.len() as int]),
                Err(e) => exists|states: Seq<PlanView>, n: int| #[trigger] plan_trace(sv, tv, meta, steps, states, n)
                    && n < steps.len() && plan_step(sv, tv, meta, steps[n], states[n], Err(e@)),
            }
        }),
{
    let ghost sv = rt.sv();
    let ghost tv = rt.tv();
    let ghost meta = rt.source_meta@;
    let ghost steps = pipeline.steps@;
    let mut st = PlanState { by_id: Vec::new(), filter: None, pivot: None, calculate: None, sorts: Vec::new(), premium: None };
    let mut sources: Vec<(String, DataTable)> = Vec::new();
    assert(st.view().by_id =~= source_refs(sv, meta.take(0)));
    assert(st.view().sorts =~= Seq::<SortTemplate>::empty());
    let mut i: usize = 0;
    while i < rt.source_meta.len()
        invariant
            i <= meta.len(),
            sv == rt.sv(),
            meta == rt.source_meta@,
            st.view() == (PlanView { by_id: source_refs(sv, meta.take(i as int)), ..plan_start(sv, meta) }),
            entries_view(sources@) == loaded_sources(sv, meta.take(i as int)),
        decreases meta.len() - i,
    {
        assert(meta.take(i + 1).drop_last() =~= meta.take(i as int));
        assert(meta.take(i + 1).last() == meta[i as int]);
        let m = &rt.source_meta[i];
        match entry_index(&rt.sources, m.id.as_str()) {
            Some(j) => {
                proof {
                    lemma_first_at_unique(entry_ids(sv), m.id@, j as int);
                }
                let t = &rt.sources[j].1;
                let mut name = "数据_".to_owned();
                name.append(m.name.as_str());
                let dn = sanitize_sheet_name(name.as_str());
                st.put_ref(&m.id, dn, copy_texts(&t.headers));
                let ghost s0 = sources@;
                let x = (m.name.clone(), copy_table(t));
                sources.push(x);
                assert(entries_view(sources@) =~= entries_view(s0).push((x.0@, x.1@)));
            },
            None => {},
        }
        i += 1;
    }
    assert(meta.take(i as int) =~= meta);
    let ghost mut states: Seq<PlanView> = seq![st.view()];
    let mut k: usize = 0;
    while k < pipeline.steps.len()
        invariant
            k <= steps.len(),
            steps == pipeline.steps@,
            sv == rt.sv(),
            tv == rt.tv(),
            meta == rt.source_meta@,
            plan_trace(sv, tv, meta, steps, states, k as int),
            states[k as int] == st.view(),
            entries_view(sources@) == loaded_sources(sv, meta),
        decreases steps.len() - k,
    {
        let ghost s0 = states;
        match st.plan_one(rt, &pipeline.steps[k]) {
            Ok(()) => {
                proof {
                    states = s0.push(st.view());
                    assert forall|q: int| 0 <= q < k + 1 implies #[trigger] plan_step(sv, tv, meta, steps[q], states[q], Ok(states[q + 1])) by {
                        if q < k {
                            assert(states[q] == s0[q] && states[q + 1] == s0[q + 1]);
                            assert(plan_step(sv, tv, meta, steps[q], s0[q], Ok(s0[q + 1])));
                        }
                    }
                }
            },
            Err(e) => {
                proof {
                    assert(plan_trace(sv, tv, meta, steps, states, k as int));
                }
                return Err(e);
            },
        }
        k += 1;
    }
    let plan = TemplatePlan {
        sources,
        filter: st.filter,
        pivot: st.pivot,
        calculate: st.calculate,
        sorts: st.sorts,
        premium: st.premium,
    };
    proof {
        assert(plan_trace(sv, tv, meta, steps, states, steps.len() as int));
    }
    Ok(plan)
}

/// Headers and formulas of a template sheet as the contracts see them.
pub type FormulasV = (Seq<Seq<char>>, Seq<(nat, Seq<char>)>);

/// A formula sheet as the contracts see it.
pub open spec fn formula_sheet_v(sh: FormulaSheet) -> FormulasV {
    (sh.headers.deep_view(), formulas_view(sh.formulas@))
}

/// What `filter_sheet` gives.
pub open spec fn filter_sheet_v(ft: FilterTemplate) -> FormulasV {
    let hs = ft.headers.deep_view();
    let cs = ft.conditions@.map_values(|c: (String, String, String)| (c.0@, c.1@, c.2@));
    (hs, seq![(0nat, filter_formula(hs, cs, ft.data_sheet@, ft.data_rows as nat))])
}

/// What `pivot_sheet` gives.
pub open spec fn pivot_sheet_v(pt: PivotTemplate) -> Result<FormulasV, Seq<char>> {
    let rf = pt.row_fields.deep_view();
    let fh = pt.filtered_headers.deep_view();
    let keys = key_positions(rf, fh);
    let value = if has_text(fh, pt.value_field@) { Some(position(fh, pt.value_field@)) } else { None };
    let hs = rf.push(pt.value_field@ + "_求和"@);
    if rf.len() == 0 {
        Ok((hs, Seq::empty()))
    } else if keys.len() == 0 {
        Err("透视行字段在筛选结果表头中未找到"@)
    } else {
        Ok((hs, pivot_formulas(sanitized(pt.filtered_sheet@), keys, value, rf.len())))
    }
}

/// What `sort_sheet` gives.
pub open spec fn sort_sheet_v(st: SortTemplate) -> Result<FormulasV, Seq<char>> {
    let hs = st.headers.deep_view();
    let ks = st.keys@.map_values(|k: (String, bool)| (k.0@, k.1));
    if hs.len() == 0 {
        Ok((hs, Seq::empty()))
    } else if ks.len() == 0 {
        Err("排序步骤缺少排序字段"@)
    } else {
        match sort_args(hs, ks) {
            Ok(a) => Ok((hs, seq![(0nat, sort_formula(sanitized(st.source_sheet@), hs, a))])),
            Err(e) => Err(e),
        }
    }
}

/// What `calculate_sheet` gives.
pub open spec fn calculate_sheet_v(ct: CalculateTemplate) -> Result<FormulasV, Seq<char>> {
    let hs = ct.base_headers.deep_view();
    if hs.len() == 0 {
        Ok((hs.push(ct.output_field@), Seq::empty()))
    } else {
        match formula_refs(ct.formula@, ct.base_table_id@, hs, ct.joins@) {
            Ok(row) => Ok((hs.push(ct.output_field@), seq![(0nat, calculate_formula(sanitized(ct.base_sheet@), hs, row))])),
            Err(e) => Err(e),
        }
    }
}

/// What `new_premium_sheet` gives.
pub open spec fn premium_sheet_v(np: NewPremiumTemplate) -> FormulasV {
    let ph = np.pivot_headers.deep_view();
    let rh = np.right_headers.deep_view();
    let n = ph.len();
    (ph.push(np.output_field@), new_premium_formulas(
        sanitized(np.pivot_sheet@),
        data_sheet_name(np.right_data_sheet@),
        n,
        position_or(ph, np.left_key@, 0),
        position_or(ph, np.left_value_field@, if n > 0 { (n - 1) as nat } else { 0 }),
        position_or(rh, np.right_key@, 0),
        position_or(rh, np.right_value_field@, 1),
    ))
}

/// A sheet of a formula template: a source's data, or a result sheet of formulas.
pub enum TemplateSheet {
    Data(String, DataTable),
    Formulas(String, FormulaSheet),
}

/// A template sheet as the contracts see it.
pub enum TemplateSheetV {
    Data(Seq<char>, TableView),
    Formulas(Seq<char>, FormulasV),
}

/// The view of a template sheet.
pub open spec fn template_sheet_v(s: TemplateSheet) -> TemplateSheetV {
    match s {
        TemplateSheet::Data(n, t) => TemplateSheetV::Data(n@, t@),
        TemplateSheet::Formulas(n, f) => TemplateSheetV::Formulas(n@, formula_sheet_v(f)),
    }
}

/// A result sheet named `name` (made valid): the error that rust_xlsxwriter gives for
/// its name, else the error that building it gives.
pub open spec fn named_sheet(name: Seq<char>, r: Result<FormulasV, Seq<char>>) -> Result<TemplateSheetV, Seq<char>> {
    match sheet_name_refusal(sanitized(name)) {
        Some(e) => Err(e),
        None => match r {
            Ok(v) => Ok(TemplateSheetV::Formulas(sanitized(name), v)),
            Err(e) => Err(e),
        },
    }
}

/// The data sheet of source `name` with table `t`, or why its name is refused.
pub open spec fn data_sheet(name: Seq<char>, t: TableView) -> Result<TemplateSheetV, Seq<char>> {
    match sheet_name_refusal(data_sheet_name(name)) {
        Some(e) => Err(e),
        None => Ok(TemplateSheetV::Data(data_sheet_name(name), t)),
    }
}

/// The sheets of `plan` in planning order: the data sheets, then the filter, pivot,
/// calculation, sort and lookup-subtract sheets.
pub open spec fn pending_sheets(plan: TemplatePlan) -> Seq<Result<TemplateSheetV, Seq<char>>> {
    entries_view(plan.sources@).map_values(|s: (Seq<char>, TableView)| data_sheet(s.0, s.1))
        + match plan.filter { Some(f) => seq![named_sheet(f.sheet_name@, Ok(filter_sheet_v(f)))], None => Seq::empty() }
        + match plan.pivot { Some(t) => seq![named_sheet(t.sheet_name@, pivot_sheet_v(t))], None => Seq::empty() }
        + match plan.calculate { Some(c) => seq![named_sheet(c.sheet_name@, calculate_sheet_v(c))], None => Seq::empty() }
        + plan.sorts@.map_values(|t: SortTemplate| named_sheet(t.sheet_name@, sort_sheet_v(t)))
        + match plan.premium { Some(p) => seq![named_sheet(p.sheet_name@, Ok(premium_sheet_v(p)))], None => Seq::empty() }
}

/// `items` from the last to the first, or the error of the last item that failed.
pub open spec fn last_first<V, E>(items: Seq<Result<V, E>>) -> Result<Seq<V>, E>
    decreases items.len(),
{
    if items.len() == 0 {
        Ok(Seq::empty())
    } else {
        match items.last() {
            Err(e) => Err(e),
            Ok(v) => match last_first(items.drop_last()) {
                Ok(rest) => Ok(seq![v] + rest),
                Err(e) => Err(e),
            },
        }
    }
}

/// `out` in front of the sheets of `r`.
pub open spec fn in_front<V, E>(out: Seq<V>, r: Result<Seq<V>, E>) -> Result<Seq<V>, E> {
    match r {
        Ok(rest) => Ok(out + rest),
        Err(e) => Err(e),
    }
}

/// A built sheet as the contracts see it.
pub open spec fn built_v(r: Result<TemplateSheet, String>) -> Result<TemplateSheetV, Seq<char>> {
    match r {
        Ok(s) => Ok(template_sheet_v(s)),
        Err(e) => Err(e@),
    }
}

/// The filter sheet of a template.
fn filter_item(f: &FilterTemplate) -> (x: Result<TemplateSheet, String>)
    requires
        f.data_rows < usize::MAX,
    ensures
        built_v(x) == named_sheet(f.sheet_name@, Ok(filter_sheet_v(*f))),
{
    let nm = sanitize_sheet_name(f.sheet_name.as_str());
    match sheet_name_error(nm.as_str()) {
        Some(e) => return Err(e),
        None => {},
    }
    let sh = filter_sheet(f);
    assert(formulas_view(sh.formulas@) =~= filter_sheet_v(*f).1);
    Ok(TemplateSheet::Formulas(sanitize_sheet_name(f.sheet_name.as_str()), sh))
}

/// The pivot sheet of a template.
fn pivot_item(t: &PivotTemplate) -> (x: Result<TemplateSheet, String>)
    ensures
        built_v(x) == named_sheet(t.sheet_name@, pivot_sheet_v(*t)),
{
    let nm = sanitize_sheet_name(t.sheet_name.as_str());
    match sheet_name_error(nm.as_str()) {
        Some(e) => return Err(e),
        None => {},
    }
    match pivot_sheet(t) {
        Ok(sh) => {
            assert(formula_sheet_v(sh) == pivot_sheet_v(*t)->Ok_0);
            Ok(TemplateSheet::Formulas(sanitize_sheet_name(t.sheet_name.as_str()), sh))
        },
        Err(e) => Err(e),
    }
}

/// The calculation sheet of a template.
fn calculate_item(c: &CalculateTemplate) -> (x: Result<TemplateSheet, String>)
    ensures
        built_v(x) == named_sheet(c.sheet_name@, calculate_sheet_v(*c)),
{
    let nm = sanitize_sheet_name(c.sheet_name.as_str());
    match sheet_name_error(nm.as_str()) {
        Some(e) => return Err(e),
        None => {},
    }
    match calculate_sheet(c) {
        Ok(sh) => {
            assert(formula_sheet_v(sh) == calculate_sheet_v(*c)->Ok_0);
            Ok(TemplateSheet::Formulas(sanitize_sheet_name(c.sheet_name.as_str()), sh))
        },
        Err(e) => Err(e),
    }
}

/// A sort sheet of a template.
fn sort_item(t: &SortTemplate) -> (x: Result<TemplateSheet, String>)
    ensures
        built_v(x) == named_sheet(t.sheet_name@, sort_sheet_v(*t)),
{
    let nm = sanitize_sheet_name(t.sheet_name.as_str());
    match sheet_name_error(nm.as_str()) {
        Some(e) => return Err(e),
        None => {},
    }
    match sort_sheet(t) {
        Ok(sh) => {
            assert(formula_sheet_v(sh) == sort_sheet_v(*t)->Ok_0);
            Ok(TemplateSheet::Formulas(sanitize_sheet_name(t.sheet_name.as_str()), sh))
        },
        Err(e) => Err(e),
    }
}

/// The lookup-subtract sheet of a template.
fn premium_item(p: &NewPremiumTemplate) -> (x: Result<TemplateSheet, String>)
    ensures
        built_v(x) == named_sheet(p.sheet_name@, Ok(premium_sheet_v(*p))),
{
    let nm = sanitize_sheet_name(p.sheet_name.as_str());
    match sheet_name_error(nm.as_str()) {
        Some(e) => return Err(e),
        None => {},
    }
    let sh = new_premium_sheet(p);
    Ok(TemplateSheet::Formulas(sanitize_sheet_name(p.sheet_name.as_str()), sh))
}

/// Built sheets as the contracts see them.
pub open spec fn items_v(xs: Seq<Result<TemplateSheet, String>>) -> Seq<Result<TemplateSheetV, Seq<char>>> {
    xs.map_values(|x: Result<TemplateSheet, String>| built_v(x))
}

/// Appends `x` to the built sheets.
fn push_item(items: &mut Vec<Result<TemplateSheet, String>>, x: Result<TemplateSheet, String>)
    ensures
        items_v(final(items)@) == items_v(old(items)@).push(built_v(x)),
{
    items.push(x);
    assert(items_v(items@) =~= items_v(old(items)@).push(built_v(x)));
}

/// The data sheets of the loaded sources.
fn data_items(sources: &Vec<(String, DataTable)>) -> (items: Vec<Result<TemplateSheet, String>>)
    ensures
        items_v(items@) == entries_view(sources@).map_values(|s: (Seq<char>, TableView)| data_sheet(s.0, s.1)),
{
    let ghost sv = entries_view(sources@);
    let mut items: Vec<Result<TemplateSheet, String>> = Vec::new();
    let mut i: usize = 0;
    while i < sources.len()
        invariant
            i <= sources@.len(),
            sv == entries_view(sources@),
            items_v(items@) == sv.take(i as int).map_values(|s: (Seq<char>, TableView)| data_sheet(s.0, s.1)),
        decreases sources@.len() - i,
    {
        let mut n = "数据_".to_owned();
        n.append(sources[i].0.as_str());
        let nm = sanitize_sheet_name(n.as_str());
        let x = match sheet_name_error(nm.as_str()) {
            Some(e) => Err(e),
            None => Ok(TemplateSheet::Data(nm, copy_table(&sources[i].1))),
        };
        push_item(&mut items, x);
        assert(sv.take(i + 1) =~= sv.take(i as int).push(sv[i as int]));
        i += 1;
    }
    assert(sv.take(i as int) =~= sv);
    items
}

/// The sort sheets of a template, appended to `items`.
fn push_sort_items(items: &mut Vec<Result<TemplateSheet, String>>, sorts: &Vec<SortTemplate>)
    ensures
        items_v(final(items)@) == items_v(old(items)@) + sorts@.map_values(|t: SortTemplate| named_sheet(t.sheet_name@, sort_sheet_v(t))),
{
    let ghost so = sorts@.map_values(|t: SortTemplate| named_sheet(t.sheet_name@, sort_sheet_v(t)));
    let ghost i0 = items_v(items@);
    let mut k: usize = 0;
    assert(i0 + so.take(0) =~= i0);
    while k < sorts.len()
        invariant
            k <= sorts@.len(),
            so == sorts@.map_values(|t: SortTemplate| named_sheet(t.sheet_name@, sort_sheet_v(t))),
            items_v(items@) == i0 + so.take(k as int),
        decreases sorts@.len() - k,
    {
        let x = sort_item(&sorts[k]);
        push_item(items, x);
        assert(so.take(k + 1) =~= so.take(k as int).push(so[k as int]));
        assert(i0 + so.take(k + 1) =~= (i0 + so.take(k as int)).push(so[k as int]));
        k += 1;
    }
    assert(so.take(k as int) =~= so);
}

/// The sheets of `plan` in planning order (see `pending_sheets`).
fn pending_items(plan: &TemplatePlan) -> (items: Vec<Result<TemplateSheet, String>>)
    requires
        plan.filter matches Some(f) ==> f.data_rows < usize::MAX,
    ensures
        items_v(items@) == pending_sheets(*plan),
{
    let mut items = data_items(&plan.sources);
    let ghost p0 = items_v(items@);
    match &plan.filter {
        Some(f) => push_item(&mut items, filter_item(f)),
        None => {},
    }
    let ghost p1 = items_v(items@);
    assert(p1 =~= p0 + match plan.filter { Some(f) => seq![named_sheet(f.sheet_name@, Ok(filter_sheet_v(f)))], None => Seq::empty() });
    match &plan.pivot {
        Some(t) => push_item(&mut items, pivot_item(t)),
        None => {},
    }
    let ghost p2 = items_v(items@);
    assert(p2 =~= p1 + match plan.pivot { Some(t) => seq![named_sheet(t.sheet_name@, pivot_sheet_v(t))], None => Seq::empty() });
    match &plan.calculate {
        Some(c) => push_item(&mut items, calculate_item(c)),
        None => {},
    }
    let ghost p3 = items_v(items@);
    assert(p3 =~= p2 + match plan.calculate { Some(c) => seq![named_sheet(c.sheet_name@, calculate_sheet_v(c))], None => Seq::empty() });
    push_sort_items(&mut items, &plan.sorts);
    let ghost p4 = items_v(items@);
    match &plan.premium {
        Some(p) => push_item(&mut items, premium_item(p)),
        None => {},
    }
    assert(items_v(items@) =~= p4 + match plan.premium { Some(p) => seq![named_sheet(p.sheet_name@, Ok(premium_sheet_v(p)))], None => Seq::empty() });
    items
}

/// The sheets of a formula template, in the order they are written (the planning order
/// reversed), each result sheet with its formulas; or the error of the last sheet in
/// planning order whose formulas cannot be built.
pub fn template_sheets(plan: &TemplatePlan) -> (r: Result<Vec<TemplateSheet>, String>)
    requires
        plan.filter matches Some(f) ==> f.data_rows < usize::MAX,
    ensures
        match r {
            Ok(v) => last_first(pending_sheets(*plan)) == Ok::<Seq<TemplateSheetV>, Seq<char>>(v@.map_values(|s: TemplateSheet| template_sheet_v(s))),
            Err(e) => last_first(pending_sheets(*plan)) == Err::<Seq<TemplateSheetV>, Seq<char>>(e@),
        },
{
    let ghost want = pending_sheets(*plan);
    let mut items = pending_items(plan);
    let mut out: Vec<TemplateSheet> = Vec::new();
    assert(want.take(want.len() as int) =~= want);
    assert(out@.map_values(|s: TemplateSheet| template_sheet_v(s)) + Seq::<TemplateSheetV>::empty() =~= Seq::<TemplateSheetV>::empty());
    while items.len() > 0
        invariant
            want == pending_sheets(*plan),
            items@.len() <= want.len(),
            items_v(items@) == want.take(items@.len() as int),
            last_first(want) == in_front(out@.map_values(|s: TemplateSheet| template_sheet_v(s)), last_first(want.take(items@.len() as int))),
        decreases items@.len(),
    {
        let ghost n = items@.len() as int;
        let ghost ov = out@.map_values(|s: TemplateSheet| template_sheet_v(s));
        let ghost iv = items_v(items@);
        let x = items.pop().unwrap();
        assert(iv[n - 1] == built_v(x));
        assert(want.take(n).last() == built_v(x));
        assert(want.take(n).drop_last() =~= want.take(n - 1));
        assert(items_v(items@) =~= iv.take(n - 1));
        match x {
            Ok(s) => {
                out.push(s);
                proof {
                    let nv = out@.map_values(|s: TemplateSheet| template_sheet_v(s));
                    assert(nv =~= ov.push(template_sheet_v(s)));
                    match last_first(want.take(n - 1)) {
                        Ok(rest) => {
                            assert(ov + (seq![template_sheet_v(s)] + rest) =~= nv + rest);
                        },
                        Err(_) => {},
                    }
                }
            },
            Err(e) => {
                assert(last_first(want.take(n)) == Err::<Seq<TemplateSheetV>, Seq<char>>(e@));
                return Err(e);
            },
        }
    }
    proof {
        assert(want.take(0) =~= Seq::<Result<TemplateSheetV, Seq<char>>>::empty());
        assert(out@.map_values(|s: TemplateSheet| template_sheet_v(s)) + Seq::<TemplateSheetV>::empty() =~= out@.map_values(|s: TemplateSheet| template_sheet_v(s)));
    }
    Ok(out)
}

} // verus!
