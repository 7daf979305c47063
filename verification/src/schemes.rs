//! Saved schemes: their ids and names when saved, loaded, renamed or copied, and their
//! listing order.
use vstd::prelude::*;
use crate::models::{has_text, lemma_dv_push, Pipeline, SchemeSummary};
use crate::sort::{lemma_text_order_flip, text_order, texts_order};
use crate::numbers::CellOrder;
use crate::text::{blank, decimal, is_blank, lemma_decimal_injective, lemma_pigeonhole, push_decimal, same_text, trim, trimmed};

verus! {

/// A lower-case hexadecimal digit.
pub open spec fn lower_hex(c: char) -> bool {
    ('0' <= c && c <= '9') || ('a' <= c && c <= 'f')
}

/// Calls `uuid::Uuid::new_v4` and formats the UUID with `to_string`: a random UUID,
/// written as 36 characters, `-` at positions 8, 13, 18 and 23 and lower-case
/// hexadecimal digits elsewhere. `new_v4` panics when the system's random source fails,
/// which no input can cause.
#[verifier::external_body]
fn new_scheme_id() -> (r: String)
    ensures
        r@.len() == 36,
        forall|i: int| 0 <= i < 36 ==> if i == 8 || i == 13 || i == 18 || i == 23 { r@[i] == '-' } else { lower_hex(#[trigger] r@[i]) },
{
    uuid::Uuid::new_v4().to_string()
}

/// A scheme as saved: a fresh id when it has none (blank), `未命名方案` when its name is
/// blank; the rest as given.
pub fn prepare_for_save(pipeline: Pipeline) -> (r: Pipeline)
    ensures
        is_blank(pipeline.id@) ==> r.id@.len() == 36 && !is_blank(r.id@),
        !is_blank(pipeline.id@) ==> r.id == pipeline.id,
        r.name@ == if is_blank(pipeline.name@) { "未命名方案"@ } else { pipeline.name@ },
        r.steps == pipeline.steps,
        r.source_dir == pipeline.source_dir,
        r.output_dir == pipeline.output_dir,
        r.header_rows == pipeline.header_rows,
        r.output_sheets == pipeline.output_sheets,
        r.folder_merges == pipeline.folder_merges,
{
    let mut p = pipeline;
    if blank(p.id.as_str()) {
        let id = new_scheme_id();
        proof {
            assert(id@[8] == '-');
            assert(!crate::text::is_ws(id@[0]));
            crate::text::lemma_blank_iff_trim_empty(id@);
        }
        p.id = id;
    }
    if blank(p.name.as_str()) {
        p.name = "未命名方案".to_owned();
    }
    p
}

/// A loaded scheme: given the id it was loaded by when it has none.
pub fn loaded_scheme(pipeline: Pipeline, id: &str) -> (r: Pipeline)
    ensures
        r.id@ == if pipeline.id@.len() == 0 { id@ } else { pipeline.id@ },
        r.name == pipeline.name,
        r.steps == pipeline.steps,
{
    let mut p = pipeline;
    if p.id.as_str().is_empty() {
        p.id = id.to_owned();
    }
    p
}

/// A scheme renamed to `name` (trimmed); a blank name is refused.
pub fn rename_pipeline(pipeline: Pipeline, name: &str) -> (r: Result<Pipeline, String>)
    ensures
        match r {
            Ok(p) => !is_blank(name@) && p.name@ == trim(name@) && p.id == pipeline.id && p.steps == pipeline.steps,
            Err(e) => is_blank(name@) && e@ == "方案名称不能为空"@,
        },
{
    let mut p = pipeline;
    p.name = trimmed(name);
    proof {
        crate::text::lemma_blank_iff_trim_empty(name@);
    }
    if p.name.as_str().is_empty() {
        return Err("方案名称不能为空".to_owned());
    }
    Ok(p)
}

/// The name of a copy: `<name> 副本`, or the first `<name> 副本 <n>` (from 2 on) that no
/// scheme has.
pub open spec fn copy_candidate(base: Seq<char>, n: nat) -> Seq<char> {
    base + " "@ + decimal(n)
}

/// `r` is the name of a copy of a scheme named `source` among schemes named `existing`.
pub open spec fn copy_name(source: Seq<char>, existing: Seq<Seq<char>>, r: Seq<char>) -> bool {
    let base = source + " 副本"@;
    if !has_text(existing, base) {
        r == base
    } else {
        exists|n: nat| #![trigger copy_candidate(base, n)]
            n >= 2 && r == copy_candidate(base, n) && !has_text(existing, r)
            && forall|m: nat| 2 <= m < n ==> has_text(existing, #[trigger] copy_candidate(base, m))
    }
}

/// Different numbers give different candidates.
proof fn lemma_candidates_differ(base: Seq<char>, a: nat, b: nat)
    requires
        a != b,
    ensures
        copy_candidate(base, a) != copy_candidate(base, b),
{
    if copy_candidate(base, a) == copy_candidate(base, b) {
        let p = (base + " "@).len();
        assert(copy_candidate(base, a).subrange(p as int, copy_candidate(base, a).len() as int) =~= decimal(a));
        assert(copy_candidate(base, b).subrange(p as int, copy_candidate(base, b).len() as int) =~= decimal(b));
        lemma_decimal_injective(a, b);
    }
}

/// The name of a copy of scheme `source` among schemes named `existing` (see `copy_name`).
pub fn unique_copy_name(source: &str, existing: &Vec<String>) -> (r: String)
    requires
        existing@.len() + 3 <= usize::MAX,
    ensures
        copy_name(source@, existing.deep_view(), r@),
{
    let ghost ev = existing.deep_view();
    let mut base = source.to_owned();
    base.append(" 副本");
    assert(base@ == source@ + " 副本"@);
    if crate::models::find_text(existing, base.as_str()).is_none() {
        return base;
    }
    let mut n: usize = 2;
    while n <= existing.len() + 2
        invariant
            2 <= n <= existing@.len() + 3,
            existing@.len() + 3 <= usize::MAX,
            ev == existing.deep_view(),
            base@ == source@ + " 副本"@,
            has_text(ev, base@),
            forall|m: nat| 2 <= m < n ==> has_text(ev, #[trigger] copy_candidate(base@, m)),
        decreases existing@.len() + 3 - n,
    {
        let mut c = base.clone();
        c.append(" ");
        push_decimal(&mut c, n);
        assert(c@ == copy_candidate(base@, n as nat));
        if crate::models::find_text(existing, c.as_str()).is_none() {
            assert(n as nat >= 2 && c@ == copy_candidate(base@, n as nat) && !has_text(ev, c@)
                && forall|m: nat| 2 <= m < n as nat ==> has_text(ev, #[trigger] copy_candidate(base@, m)));
            assert(copy_name(source@, ev, c@));
            return c;
        }
        n += 1;
    }
    proof {
        let f = |k: int| copy_candidate(base@, (k + 2) as nat);
        assert forall|a: int, b: int| 0 <= a < b < ev.len() + 1 implies #[trigger] f(a) != #[trigger] f(b) by {
            lemma_candidates_differ(base@, (a + 2) as nat, (b + 2) as nat);
        }
        lemma_pigeonhole(ev, f, ev.len() + 1int);
        let k = choose|k: int| 0 <= k < ev.len() + 1 && !ev.contains(#[trigger] f(k));
        assert(has_text(ev, copy_candidate(base@, (k + 2) as nat)));
        assert(false);
    }
    base
}

/// A copy of a scheme: a fresh id and the name of a copy (see `unique_copy_name`).
pub fn copied_scheme(pipeline: Pipeline, existing: &Vec<String>) -> (r: Pipeline)
    requires
        existing@.len() + 3 <= usize::MAX,
    ensures
        r.id@.len() == 36,
        copy_name(pipeline.name@, existing.deep_view(), r.name@),
        r.steps == pipeline.steps,
        r.source_dir == pipeline.source_dir,
        r.output_dir == pipeline.output_dir,
{
    let mut p = pipeline;
    p.id = new_scheme_id();
    p.name = unique_copy_name(p.name.as_str(), existing);
    p
}

/// The summary of a saved scheme: its id (or `file_stem` when it has none), name, source
/// directory and when it was saved.
pub fn scheme_summary(pipeline: &Pipeline, file_stem: &str, updated_at: String) -> (r: SchemeSummary)
    ensures
        r.id@ == if pipeline.id@.len() == 0 { file_stem@ } else { pipeline.id@ },
        r.name@ == pipeline.name@,
        r.source_dir@ == pipeline.source_dir@,
        r.updated_at == updated_at,
{
    let id = if pipeline.id.as_str().is_empty() { file_stem.to_owned() } else { pipeline.id.clone() };
    SchemeSummary { id, name: pipeline.name.clone(), source_dir: pipeline.source_dir.clone(), updated_at }
}

/// A summary as the contracts see it.
pub open spec fn summary_v(s: SchemeSummary) -> (Seq<char>, Seq<char>, Seq<char>, Seq<char>) {
    (s.id@, s.name@, s.source_dir@, s.updated_at@)
}

/// `x` inserted into `sorted` (newest first) after the last summary saved no earlier.
pub open spec fn insert_newest(sorted: Seq<(Seq<char>, Seq<char>, Seq<char>, Seq<char>)>, x: (Seq<char>, Seq<char>, Seq<char>, Seq<char>)) -> Seq<(Seq<char>, Seq<char>, Seq<char>, Seq<char>)>
    decreases sorted.len(),
{
    if sorted.len() == 0 || text_order(x.3, sorted.last().3) != CellOrder::Greater {
        sorted.push(x)
    } else {
        insert_newest(sorted.drop_last(), x).push(sorted.last())
    }
}

/// Summaries newest first by save time; summaries saved at the same time keep their order.
pub open spec fn newest_first(xs: Seq<(Seq<char>, Seq<char>, Seq<char>, Seq<char>)>) -> Seq<(Seq<char>, Seq<char>, Seq<char>, Seq<char>)>
    decreases xs.len(),
{
    if xs.len() == 0 { Seq::empty() } else { insert_newest(newest_first(xs.drop_last()), xs.last()) }
}

/// Summaries newest first (see `newest_first`).
pub fn sort_schemes(items: Vec<SchemeSummary>) -> (r: Vec<SchemeSummary>)
    ensures
        r@.map_values(|s: SchemeSummary| summary_v(s)) == newest_first(items@.map_values(|s: SchemeSummary| summary_v(s))),
{
    let ghost xv = items@.map_values(|s: SchemeSummary| summary_v(s));
    let mut out: Vec<SchemeSummary> = Vec::new();
    let mut i: usize = 0;
    while i < items.len()
        invariant
            i <= xv.len(),
            xv == items@.map_values(|s: SchemeSummary| summary_v(s)),
            out@.map_values(|s: SchemeSummary| summary_v(s)) == newest_first(xv.take(i as int)),
        decreases xv.len() - i,
    {
        assert(xv.take(i + 1).drop_last() =~= xv.take(i as int));
        assert(xv.take(i + 1).last() == xv[i as int]);
        let x = &items[i];
        let ghost sorted = out@.map_values(|s: SchemeSummary| summary_v(s));
        let ghost xs = summary_v(*x);
        let mut p: usize = out.len();
        assert(sorted.take(p as int) =~= sorted);
        assert(sorted.skip(p as int) =~= Seq::<(Seq<char>, Seq<char>, Seq<char>, Seq<char>)>::empty());
        while p > 0 && texts_order(x.updated_at.as_str(), out[p - 1].updated_at.as_str()) == CellOrder::Greater
            invariant
                p <= out@.len(),
                sorted == out@.map_values(|s: SchemeSummary| summary_v(s)),
                xs == summary_v(*x),
                insert_newest(sorted, xs) == insert_newest(sorted.take(p as int), xs) + sorted.skip(p as int),
            decreases p,
        {
            let ghost t = sorted.take(p as int);
            assert(t.last() == sorted[p - 1]);
            assert(t.drop_last() =~= sorted.take(p - 1));
            assert(sorted.skip(p - 1) =~= seq![sorted[p - 1]] + sorted.skip(p as int));
            assert(insert_newest(t, xs) == insert_newest(sorted.take(p - 1), xs).push(sorted[p - 1]));
            assert(insert_newest(sorted.take(p - 1), xs).push(sorted[p - 1]) + sorted.skip(p as int)
                =~= insert_newest(sorted.take(p - 1), xs) + sorted.skip(p - 1));
            p -= 1;
        }
        proof {
            let t = sorted.take(p as int);
            if p > 0 {
                assert(t.last() == sorted[p - 1]);
            }
            assert(insert_newest(t, xs) == t.push(xs));
            assert(t.push(xs) + sorted.skip(p as int) =~= sorted.insert(p as int, xs));
        }
        let c = SchemeSummary { id: x.id.clone(), name: x.name.clone(), source_dir: x.source_dir.clone(), updated_at: x.updated_at.clone() };
        out.insert(p, c);
        assert(out@.map_values(|s: SchemeSummary| summary_v(s)) =~= sorted.insert(p as int, xs));
        i += 1;
    }
    assert(xv.take(i as int) =~= xv);
    out
}

} // verus!
