//! Cumulative folders: merging dated tables so that a key keeps its newest row.
use vstd::prelude::*;
use crate::formula::FormulaExpr;
use crate::models::{copy_texts, first_at, has_text, lemma_dv_push, lemma_first_at_unique, position, table_result, DataTable, TableView};
use crate::sheet::{data_rows, header_result, preview_read, read_excel_first_sheet, read_excel_preview, RawSheet};
use crate::scan::open_gives;
use crate::excel_io::{cell_at, cell_text, match_key, match_key_spec};
use crate::numbers::{Aggregate, CellOrder, Numbers};
use crate::text::{blank, decimal, is_blank, join, join_strings, same_text};
use crate::sort::{lemma_text_order_flip, text_order, texts_order};
use crate::numbers::flip;

verus! {

/// Header of the column that records the date of each merged row.
pub open spec fn date_header() -> Seq<char> {
    "来源日期"@
}

/// The date header as text.
pub fn source_date_header() -> (r: String)
    ensures
        r@ == date_header(),
{
    "来源日期".to_owned()
}

/// `acc` followed by the headers of `hs` that are new to it, the date header left out.
pub open spec fn add_new_headers(acc: Seq<Seq<char>>, hs: Seq<Seq<char>>) -> Seq<Seq<char>>
    decreases hs.len(),
{
    if hs.len() == 0 {
        acc
    } else {
        let a = add_new_headers(acc, hs.drop_last());
        let h = hs.last();
        if h == date_header() || has_text(a, h) { a } else { a.push(h) }
    }
}

/// Headers of the parts in first-seen order, each once, the date header left out.
pub open spec fn part_headers(parts: Seq<(Seq<char>, TableView)>) -> Seq<Seq<char>>
    decreases parts.len(),
{
    if parts.len() == 0 {
        Seq::empty()
    } else {
        add_new_headers(part_headers(parts.drop_last()), parts.last().1.headers)
    }
}

/// A row of a part laid out on the merged columns `hs`: each column's cell (empty where
/// the part lacks the column or the row is short), then the part's date.
pub open spec fn project_row(hs: Seq<Seq<char>>, th: Seq<Seq<char>>, row: Seq<Seq<char>>, date: Seq<char>) -> Seq<Seq<char>> {
    Seq::new(hs.len(), |i: int| if has_text(th, hs[i]) { cell_at(row, position(th, hs[i])) } else { Seq::empty() }).push(date)
}

/// The rows of all parts, in order, laid out on the merged columns.
pub open spec fn part_rows(hs: Seq<Seq<char>>, parts: Seq<(Seq<char>, TableView)>) -> Seq<Seq<Seq<char>>>
    decreases parts.len(),
{
    if parts.len() == 0 {
        Seq::empty()
    } else {
        let p = parts.last();
        part_rows(hs, parts.drop_last()) + p.1.rows.map_values(|r: Seq<Seq<char>>| project_row(hs, p.1.headers, r, p.0))
    }
}

/// Keys of `rows` at column `k`.
pub open spec fn row_keys<K, C, T, E>(nums: Numbers<K, C, T, E>, rows: Seq<Seq<Seq<char>>>, k: int) -> Seq<Seq<char>> where
    K: Fn(&str) -> Option<String>,
    C: Fn(&str, &str) -> Option<CellOrder>,
    T: Fn(&Vec<String>, Aggregate) -> String,
    E: Fn(&FormulaExpr, &Vec<(String, String)>) -> String,
 {
    rows.map_values(|r: Seq<Seq<char>>| match_key_spec(nums, cell_at(r, k)))
}

/// Rows merged in order: without a key column every row is kept; with one, a row whose
/// key is empty is appended, and a row whose key an earlier row has replaces that row in
/// place (else it is appended).
pub open spec fn merged_rows<K, C, T, E>(nums: Numbers<K, C, T, E>, rows: Seq<Seq<Seq<char>>>, key: Option<int>) -> Seq<Seq<Seq<char>>> where
    K: Fn(&str) -> Option<String>,
    C: Fn(&str, &str) -> Option<CellOrder>,
    T: Fn(&Vec<String>, Aggregate) -> String,
    E: Fn(&FormulaExpr, &Vec<(String, String)>) -> String,
    decreases rows.len(),
{
    if rows.len() == 0 {
        Seq::empty()
    } else {
        let m = merged_rows(nums, rows.drop_last(), key);
        let r = rows.last();
        match key {
            None => m.push(r),
            Some(k) => {
                let kv = match_key_spec(nums, cell_at(r, k));
                let keys = row_keys(nums, m, k);
                if kv.len() == 0 || !has_text(keys, kv) { m.push(r) } else { m.update(position(keys, kv), r) }
            },
        }
    }
}

/// What merging `parts` on `key_column` gives.
pub open spec fn merge_result<K, C, T, E>(nums: Numbers<K, C, T, E>, parts: Seq<(Seq<char>, TableView)>, key_column: Seq<char>) -> Result<TableView, Seq<char>> where
    K: Fn(&str) -> Option<String>,
    C: Fn(&str, &str) -> Option<CellOrder>,
    T: Fn(&Vec<String>, Aggregate) -> String,
    E: Fn(&FormulaExpr, &Vec<(String, String)>) -> String,
 {
    let hs = part_headers(parts);
    let headers = hs.push(date_header());
    if parts.len() == 0 {
        Err("子文件夹中没有可合并的表"@)
    } else if !is_blank(key_column) && !has_text(headers, key_column) {
        Err("覆盖键列「"@ + key_column + "」不在累计表中。当前列: ["@ + join(headers, ", "@) + "]"@)
    } else {
        let key = if is_blank(key_column) { None } else { Some(position(headers, key_column)) };
        Ok(TableView { headers, rows: merged_rows(nums, part_rows(hs, parts), key), groups: Seq::empty() })
    }
}

/// Dated parts as the contracts see them.
pub open spec fn parts_view(parts: Seq<(String, DataTable)>) -> Seq<(Seq<char>, TableView)> {
    parts.map_values(|p: (String, DataTable)| (p.0@, p.1@))
}

/// Appends to `acc` the headers of `hs` new to it, the date header left out.
fn add_headers(acc: &mut Vec<String>, hs: &Vec<String>)
    ensures
        final(acc).deep_view() == add_new_headers(old(acc).deep_view(), hs.deep_view()),
{
    let ghost a0 = acc.deep_view();
    let ghost hv = hs.deep_view();
    let mut i: usize = 0;
    while i < hs.len()
        invariant
            i <= hv.len(),
            hv == hs.deep_view(),
            acc.deep_view() == add_new_headers(a0, hv.take(i as int)),
        decreases hv.len() - i,
    {
        assert(hv.take(i + 1).drop_last() =~= hv.take(i as int));
        assert(hv.take(i + 1).last() == hv[i as int]);
        let h = &hs[i];
        let is_date = same_text(h.as_str(), "来源日期");
        proof {
            reveal_strlit("来源日期");
        }
        if !is_date && find_text_in(acc, h.as_str()).is_none() {
            let ghost v0 = *acc;
            let c = h.clone();
            acc.push(c);
            proof {
                lemma_dv_push(v0, *acc, c);
            }
        }
        i += 1;
    }
    assert(hv.take(i as int) =~= hv);
}

/// Position of the first `x` in `xs`.
fn find_text_in(xs: &Vec<String>, x: &str) -> (r: Option<usize>)
    ensures
        match r {
            Some(i) => first_at(xs.deep_view(), x@, i as int),
            None => !has_text(xs.deep_view(), x@),
        },
{
    let ghost v = xs.deep_view();
    let mut i: usize = 0;
    while i < xs.len()
        invariant
            i <= v.len(),
            v == xs.deep_view(),
            forall|j: int| 0 <= j < i ==> v[j] != x@,
        decreases v.len() - i,
    {
        if same_text(xs[i].as_str(), x) {
            return Some(i);
        }
        i += 1;
    }
    None
}

/// `project_row` of a row.
fn project(hs: &Vec<String>, cols: &Vec<Option<usize>>, th: &Vec<String>, row: &Vec<String>, date: &String) -> (r: Vec<String>)
    requires
        cols@.len() == hs@.len(),
        forall|i: int| 0 <= i < cols@.len() ==> match #[trigger] cols@[i] {
            Some(j) => first_at(th.deep_view(), hs.deep_view()[i], j as int),
            None => !has_text(th.deep_view(), hs.deep_view()[i]),
        },
    ensures
        r.deep_view() == project_row(hs.deep_view(), th.deep_view(), row.deep_view(), date@),
{
    let ghost want = project_row(hs.deep_view(), th.deep_view(), row.deep_view(), date@);
    let mut r: Vec<String> = Vec::new();
    let mut i: usize = 0;
    while i < cols.len()
        invariant
            i <= cols@.len(),
            cols@.len() == hs@.len(),
            want == project_row(hs.deep_view(), th.deep_view(), row.deep_view(), date@),
            forall|q: int| 0 <= q < cols@.len() ==> match #[trigger] cols@[q] {
                Some(j) => first_at(th.deep_view(), hs.deep_view()[q], j as int),
                None => !has_text(th.deep_view(), hs.deep_view()[q]),
            },
            r.deep_view() == want.take(i as int),
        decreases cols@.len() - i,
    {
        let ghost r0 = r;
        let c = match cols[i] {
            Some(j) => {
                proof {
                    lemma_first_at_unique(th.deep_view(), hs.deep_view()[i as int], j as int);
                }
                cell_text(row, j).to_owned()
            },
            None => String::new(),
        };
        r.push(c);
        proof {
            lemma_dv_push(r0, r, c);
            assert(r.deep_view() =~= want.take(i + 1));
        }
        i += 1;
    }
    let ghost r0 = r;
    let d = date.clone();
    r.push(d);
    proof {
        lemma_dv_push(r0, r, d);
        assert(r.deep_view() =~= want);
    }
    r
}

/// The rows of all parts laid out on the merged columns `hs` (see `part_rows`).
fn all_part_rows(parts: &[(String, DataTable)], hs: &Vec<String>) -> (r: Vec<Vec<String>>)
    ensures
        r.deep_view() == part_rows(hs.deep_view(), parts_view(parts@)),
{
    let ghost pv = parts_view(parts@);
    let ghost hv = hs.deep_view();
    let mut out: Vec<Vec<String>> = Vec::new();
    let mut p: usize = 0;
    while p < parts.len()
        invariant
            p <= pv.len(),
            pv == parts_view(parts@),
            hv == hs.deep_view(),
            out.deep_view() == part_rows(hv, pv.take(p as int)),
        decreases pv.len() - p,
    {
        let date = &parts[p].0;
        let t = &parts[p].1;
        let ghost tv = t@;
        let mut cols: Vec<Option<usize>> = Vec::new();
        let mut c: usize = 0;
        while c < hs.len()
            invariant
                c <= hv.len(),
                hv == hs.deep_view(),
                tv == t@,
                cols@.len() == c,
                forall|q: int| 0 <= q < c ==> match #[trigger] cols@[q] {
                    Some(j) => first_at(tv.headers, hv[q], j as int),
                    None => !has_text(tv.headers, hv[q]),
                },
            decreases hv.len() - c,
        {
            let x = find_text_in(&t.headers, hs[c].as_str());
            cols.push(x);
            c += 1;
        }
        let ghost o0 = out.deep_view();
        let ghost mapped = tv.rows.map_values(|r: Seq<Seq<char>>| project_row(hv, tv.headers, r, date@));
        let mut j: usize = 0;
        while j < t.rows.len()
            invariant
                j <= tv.rows.len(),
                tv == t@,
                hv == hs.deep_view(),
                cols@.len() == hv.len(),
                forall|q: int| 0 <= q < cols@.len() ==> match #[trigger] cols@[q] {
                    Some(i) => first_at(tv.headers, hv[q], i as int),
                    None => !has_text(tv.headers, hv[q]),
                },
                mapped == tv.rows.map_values(|r: Seq<Seq<char>>| project_row(hv, tv.headers, r, date@)),
                out.deep_view() == o0 + mapped.take(j as int),
            decreases tv.rows.len() - j,
        {
            let x = project(hs, &cols, &t.headers, &t.rows[j], date);
            let ghost before = out.deep_view();
            out.push(x);
            assert(out.deep_view() =~= before.push(x.deep_view()));
            assert(mapped.take(j + 1) =~= mapped.take(j as int).push(mapped[j as int]));
            j += 1;
        }
        assert(mapped.take(j as int) =~= mapped);
        assert(pv.take(p + 1).drop_last() =~= pv.take(p as int));
        assert(pv.take(p + 1).last() == pv[p as int]);
        p += 1;
    }
    assert(pv.take(p as int) =~= pv);
    out
}

/// Merges dated tables, oldest first, into one: the union of their columns in
/// first-seen order, then a date column holding each row's date. With a key column, a
/// row whose key (see `match_key`) an earlier row has replaces it in place, so each key
/// keeps its newest row; rows with an empty key are all kept.
pub fn merge_dated_tables<K, C, T, E>(nums: &Numbers<K, C, T, E>, parts: &[(String, DataTable)], key_column: &str) -> (r: Result<DataTable, String>) where
    K: Fn(&str) -> Option<String>,
    C: Fn(&str, &str) -> Option<CellOrder>,
    T: Fn(&Vec<String>, Aggregate) -> String,
    E: Fn(&FormulaExpr, &Vec<(String, String)>) -> String,
    requires
        nums.wf(),
    ensures
        match r {
            Ok(t) => merge_result(*nums, parts_view(parts@), key_column@) == Ok::<TableView, Seq<char>>(t@),
            Err(e) => merge_result(*nums, parts_view(parts@), key_column@) == Err::<TableView, Seq<char>>(e@),
        },
{
    let ghost pv = parts_view(parts@);
    if parts.len() == 0 {
        return Err("子文件夹中没有可合并的表".to_owned());
    }
    let mut hs: Vec<String> = Vec::new();
    let mut p: usize = 0;
    while p < parts.len()
        invariant
            p <= pv.len(),
            pv == parts_view(parts@),
            hs.deep_view() == part_headers(pv.take(p as int)),
        decreases pv.len() - p,
    {
        assert(pv.take(p + 1).drop_last() =~= pv.take(p as int));
        assert(pv.take(p + 1).last() == pv[p as int]);
        add_headers(&mut hs, &parts[p].1.headers);
        p += 1;
    }
    assert(pv.take(p as int) =~= pv);
    let ghost hv = hs.deep_view();
    let mut headers = copy_texts(&hs);
    let dh = source_date_header();
    let ghost h0 = headers;
    headers.push(dh);
    proof {
        lemma_dv_push(h0, headers, dh);
    }
    let key = if blank(key_column) {
        None
    } else {
        match find_text_in(&headers, key_column) {
            Some(i) => {
                proof {
                    lemma_first_at_unique(headers.deep_view(), key_column@, i as int);
                }
                Some(i)
            },
            None => {
                let mut e = "覆盖键列「".to_owned();
                e.append(key_column);
                e.append("」不在累计表中。当前列: [");
                let j = join_strings(&headers, ", ");
                e.append(j.as_str());
                e.append("]");
                return Err(e);
            },
        }
    };
    let all = all_part_rows(parts, &hs);
    let rows = merge_rows(nums, &all, key);
    Ok(DataTable { headers, rows, header_groups: Vec::new() })
}

/// `merged_rows` of `all`.
fn merge_rows<K, C, T, E>(nums: &Numbers<K, C, T, E>, all: &Vec<Vec<String>>, key: Option<usize>) -> (rows: Vec<Vec<String>>) where
    K: Fn(&str) -> Option<String>,
    C: Fn(&str, &str) -> Option<CellOrder>,
    T: Fn(&Vec<String>, Aggregate) -> String,
    E: Fn(&FormulaExpr, &Vec<(String, String)>) -> String,
    requires
        nums.wf(),
    ensures
        rows.deep_view() == merged_rows(*nums, all.deep_view(), match key { Some(k) => Some(k as int), None => None }),
{
    let ghost av = all.deep_view();
    let ghost kk = match key { Some(k) => Some(k as int), None => None::<int> };
    let mut rows: Vec<Vec<String>> = Vec::new();
    let mut keys: Vec<String> = Vec::new();
    let mut i: usize = 0;
    while i < all.len()
        invariant
            i <= av.len(),
            nums.wf(),
            av == all.deep_view(),
            kk == match key { Some(k) => Some(k as int), None => None::<int> },
            rows.deep_view() == merged_rows(*nums, av.take(i as int), kk),
            key matches Some(k) ==> keys.deep_view() == row_keys(*nums, rows.deep_view(), k as int),
        decreases av.len() - i,
    {
        assert(av.take(i + 1).drop_last() =~= av.take(i as int));
        assert(av.take(i + 1).last() == av[i as int]);
        let row = &all[i];
        let ghost m = rows.deep_view();
        match key {
            None => {
                let x = crate::models::copy_texts(row);
                rows.push(x);
                assert(rows.deep_view() =~= m.push(av[i as int]));
            },
            Some(k) => {
                let kv = match_key(nums, cell_text(row, k));
                let ghost kv0 = keys.deep_view();
                let found = if kv.as_str().is_empty() { None } else { find_text_in(&keys, kv.as_str()) };
                match found {
                    Some(j) => {
                        proof {
                            lemma_first_at_unique(kv0, kv@, j as int);
                        }
                        let x = crate::models::copy_texts(row);
                        rows.set(j, x);
                        assert(rows.deep_view() =~= m.update(j as int, av[i as int]));
                        assert(keys.deep_view() =~= row_keys(*nums, rows.deep_view(), k as int));
                    },
                    None => {
                        let x = crate::models::copy_texts(row);
                        rows.push(x);
                        assert(rows.deep_view() =~= m.push(av[i as int]));
                        let ghost k0 = keys;
                        keys.push(kv);
                        proof {
                            lemma_dv_push(k0, keys, kv);
                        }
                        assert(keys.deep_view() =~= row_keys(*nums, rows.deep_view(), k as int));
                    },
                }
            },
        }
        i += 1;
    }
    assert(av.take(i as int) =~= av);
    rows
}

/// Holds of an empty key.
pub open spec fn empty_key() -> spec_fn(Seq<char>) -> bool {
    |x: Seq<char>| x.len() == 0
}

/// `p` is the last row of `rows` whose key at column `k` is `kv`.
pub open spec fn last_with_key<K, C, T, E>(nums: Numbers<K, C, T, E>, rows: Seq<Seq<Seq<char>>>, k: int, kv: Seq<char>, p: int) -> bool where
    K: Fn(&str) -> Option<String>,
    C: Fn(&str, &str) -> Option<CellOrder>,
    T: Fn(&Vec<String>, Aggregate) -> String,
    E: Fn(&FormulaExpr, &Vec<(String, String)>) -> String,
 {
    &&& 0 <= p < rows.len()
    &&& match_key_spec(nums, cell_at(rows[p], k)) == kv
    &&& forall|q: int| p < q < rows.len() ==> match_key_spec(nums, cell_at(#[trigger] rows[q], k)) != kv
}

/// The non-empty keys of `ks`, in order.
pub open spec fn nonempty_keys(ks: Seq<Seq<char>>) -> Seq<Seq<char>>
    decreases ks.len(),
{
    if ks.len() == 0 {
        Seq::empty()
    } else if ks.last().len() == 0 {
        nonempty_keys(ks.drop_last())
    } else {
        nonempty_keys(ks.drop_last()).push(ks.last())
    }
}

/// The non-empty keys of `ks` in the order they first appear, each once.
pub open spec fn first_seen(ks: Seq<Seq<char>>) -> Seq<Seq<char>>
    decreases ks.len(),
{
    if ks.len() == 0 {
        Seq::empty()
    } else {
        let p = first_seen(ks.drop_last());
        let x = ks.last();
        if x.len() == 0 || has_text(p, x) { p } else { p.push(x) }
    }
}

proof fn lemma_nonempty_keys_has(ks: Seq<Seq<char>>, x: Seq<char>)
    ensures
        has_text(nonempty_keys(ks), x) == (x.len() > 0 && has_text(ks, x)),
    decreases ks.len(),
{
    if ks.len() > 0 {
        lemma_nonempty_keys_has(ks.drop_last(), x);
        let p = nonempty_keys(ks.drop_last());
        if has_text(ks, x) && x.len() > 0 {
            let i = choose|i: int| 0 <= i < ks.len() && ks[i] == x;
            if i < ks.len() - 1 {
                assert(ks.drop_last()[i] == x);
            } else if ks.last().len() > 0 {
                assert(p.push(ks.last())[p.len() as int] == x);
            }
        }
        if has_text(ks.drop_last(), x) {
            let i = choose|i: int| 0 <= i < ks.drop_last().len() && ks.drop_last()[i] == x;
            assert(ks[i] == x);
        }
        if ks.last().len() > 0 {
            if has_text(p, x) {
                let i = choose|i: int| 0 <= i < p.len() && p[i] == x;
                assert(p.push(ks.last())[i] == x);
            }
            if has_text(p.push(ks.last()), x) {
                let i = choose|i: int| 0 <= i < p.push(ks.last()).len() && p.push(ks.last())[i] == x;
                if i < p.len() {
                    assert(p[i] == x);
                } else {
                    assert(ks[ks.len() - 1] == x);
                }
            }
        }
    }
}

/// Merge law: the rows of a merge with a non-empty key stand in the order in which their
/// keys first appear in the input (a later row of a key replaces the earlier one in
/// place).
pub proof fn lemma_merge_keeps_first_places<K, C, T, E>(nums: Numbers<K, C, T, E>, rows: Seq<Seq<Seq<char>>>, k: int) where
    K: Fn(&str) -> Option<String>,
    C: Fn(&str, &str) -> Option<CellOrder>,
    T: Fn(&Vec<String>, Aggregate) -> String,
    E: Fn(&FormulaExpr, &Vec<(String, String)>) -> String,
    ensures
        nonempty_keys(row_keys(nums, merged_rows(nums, rows, Some(k)), k)) == first_seen(row_keys(nums, rows, k)),
    decreases rows.len(),
{
    if rows.len() > 0 {
        let rest = rows.drop_last();
        lemma_merge_keeps_first_places(nums, rest, k);
        let m = merged_rows(nums, rest, Some(k));
        let r = rows.last();
        let kv = match_key_spec(nums, cell_at(r, k));
        let keys = row_keys(nums, m, k);
        assert(row_keys(nums, rows, k).drop_last() =~= row_keys(nums, rest, k));
        assert(row_keys(nums, rows, k).last() == kv);
        lemma_nonempty_keys_has(keys, kv);
        if kv.len() == 0 || !has_text(keys, kv) {
            assert(row_keys(nums, m.push(r), k) =~= keys.push(kv));
            assert(row_keys(nums, m.push(r), k).drop_last() =~= keys);
        } else {
            let p = position(keys, kv);
            crate::models::lemma_position(keys, kv);
            assert(row_keys(nums, m.update(p, r), k) =~= keys);
        }
    }
}

/// The rows of `rows` whose key at column `k` is empty, in order.
pub open spec fn empty_key_rows<K, C, T, E>(nums: Numbers<K, C, T, E>, rows: Seq<Seq<Seq<char>>>, k: int) -> Seq<Seq<Seq<char>>> where
    K: Fn(&str) -> Option<String>,
    C: Fn(&str, &str) -> Option<CellOrder>,
    T: Fn(&Vec<String>, Aggregate) -> String,
    E: Fn(&FormulaExpr, &Vec<(String, String)>) -> String,
    decreases rows.len(),
{
    if rows.len() == 0 {
        Seq::empty()
    } else {
        let p = empty_key_rows(nums, rows.drop_last(), k);
        if match_key_spec(nums, cell_at(rows.last(), k)).len() == 0 { p.push(rows.last()) } else { p }
    }
}

proof fn lemma_empty_key_rows_update<K, C, T, E>(nums: Numbers<K, C, T, E>, m: Seq<Seq<Seq<char>>>, k: int, p: int, r: Seq<Seq<char>>) where
    K: Fn(&str) -> Option<String>,
    C: Fn(&str, &str) -> Option<CellOrder>,
    T: Fn(&Vec<String>, Aggregate) -> String,
    E: Fn(&FormulaExpr, &Vec<(String, String)>) -> String,
    requires
        0 <= p < m.len(),
        match_key_spec(nums, cell_at(m[p], k)).len() > 0,
        match_key_spec(nums, cell_at(r, k)).len() > 0,
    ensures
        empty_key_rows(nums, m.update(p, r), k) == empty_key_rows(nums, m, k),
    decreases m.len(),
{
    let u = m.update(p, r);
    if p == m.len() - 1 {
        assert(u.drop_last() =~= m.drop_last());
    } else {
        assert(u.drop_last() =~= m.drop_last().update(p, r));
        lemma_empty_key_rows_update(nums, m.drop_last(), k, p, r);
    }
}

/// Merge law: merging keeps every row whose key is empty, in the order of the input.
pub proof fn lemma_merge_keeps_empty_keys<K, C, T, E>(nums: Numbers<K, C, T, E>, rows: Seq<Seq<Seq<char>>>, k: int) where
    K: Fn(&str) -> Option<String>,
    C: Fn(&str, &str) -> Option<CellOrder>,
    T: Fn(&Vec<String>, Aggregate) -> String,
    E: Fn(&FormulaExpr, &Vec<(String, String)>) -> String,
    ensures
        empty_key_rows(nums, merged_rows(nums, rows, Some(k)), k) == empty_key_rows(nums, rows, k),
    decreases rows.len(),
{
    if rows.len() > 0 {
        let rest = rows.drop_last();
        lemma_merge_keeps_empty_keys(nums, rest, k);
        let m = merged_rows(nums, rest, Some(k));
        let r = rows.last();
        let kv = match_key_spec(nums, cell_at(r, k));
        let keys = row_keys(nums, m, k);
        if kv.len() == 0 || !has_text(keys, kv) {
            assert(m.push(r).drop_last() =~= m);
        } else {
            let p = position(keys, kv);
            crate::models::lemma_position(keys, kv);
            assert(keys[p] == match_key_spec(nums, cell_at(m[p], k)));
            lemma_empty_key_rows_update(nums, m, k, p, r);
        }
    }
}

/// A header is among the new headers exactly when it was there already, or it is one of
/// `hs` and not the date header.
proof fn lemma_add_new_headers_has(acc: Seq<Seq<char>>, hs: Seq<Seq<char>>, x: Seq<char>)
    ensures
        has_text(add_new_headers(acc, hs), x) == (has_text(acc, x) || (x != date_header() && has_text(hs, x))),
    decreases hs.len(),
{
    if hs.len() > 0 {
        let a = add_new_headers(acc, hs.drop_last());
        lemma_add_new_headers_has(acc, hs.drop_last(), x);
        let h = hs.last();
        if has_text(hs, x) && x != date_header() && !has_text(hs.drop_last(), x) {
            let i = choose|i: int| 0 <= i < hs.len() && hs[i] == x;
            if i < hs.len() - 1 {
                assert(hs.drop_last()[i] == x);
            }
            assert(x == h);
        }
        if has_text(hs.drop_last(), x) {
            let i = choose|i: int| 0 <= i < hs.drop_last().len() && hs.drop_last()[i] == x;
            assert(hs[i] == x);
        }
        if !(h == date_header() || has_text(a, h)) {
            assert(a.push(h)[a.len() as int] == h);
            if has_text(a, x) {
                let i = choose|i: int| 0 <= i < a.len() && a[i] == x;
                assert(a.push(h)[i] == x);
            }
            if has_text(a.push(h), x) && x != h {
                let i = choose|i: int| 0 <= i < a.push(h).len() && a.push(h)[i] == x;
                assert(a[i] == x);
            }
        }
        if x == h && x != date_header() {
            assert(hs[hs.len() - 1] == x);
        }
    }
}

/// A header is among the headers of the parts exactly when it is not the date header and
/// some part has it.
pub proof fn lemma_part_headers_has(parts: Seq<(Seq<char>, TableView)>, x: Seq<char>)
    ensures
        has_text(part_headers(parts), x) == (x != date_header() && exists|i: int| 0 <= i < parts.len() && #[trigger] has_text(parts[i].1.headers, x)),
    decreases parts.len(),
{
    if parts.len() > 0 {
        lemma_part_headers_has(parts.drop_last(), x);
        lemma_add_new_headers_has(part_headers(parts.drop_last()), parts.last().1.headers, x);
        if x != date_header() && exists|i: int| 0 <= i < parts.len() && #[trigger] has_text(parts[i].1.headers, x) {
            let i = choose|i: int| 0 <= i < parts.len() && #[trigger] has_text(parts[i].1.headers, x);
            if i < parts.len() - 1 {
                assert(parts.drop_last()[i] == parts[i]);
                assert(has_text(parts.drop_last()[i].1.headers, x));
            }
        }
        if exists|i: int| 0 <= i < parts.drop_last().len() && #[trigger] has_text(parts.drop_last()[i].1.headers, x) {
            let i = choose|i: int| 0 <= i < parts.drop_last().len() && #[trigger] has_text(parts.drop_last()[i].1.headers, x);
            assert(parts[i] == parts.drop_last()[i]);
            assert(has_text(parts[i].1.headers, x));
        }
    }
}

/// Number of rows of all parts.
pub open spec fn total_part_rows(parts: Seq<(Seq<char>, TableView)>) -> nat
    decreases parts.len(),
{
    if parts.len() == 0 { 0 } else { total_part_rows(parts.drop_last()) + parts.last().1.rows.len() }
}

proof fn lemma_part_rows_len(hs: Seq<Seq<char>>, parts: Seq<(Seq<char>, TableView)>)
    ensures
        part_rows(hs, parts).len() == total_part_rows(parts),
    decreases parts.len(),
{
    if parts.len() > 0 {
        lemma_part_rows_len(hs, parts.drop_last());
    }
}

/// Merge law: merging fails exactly when there are no parts, or when the key column is
/// not blank, not the date column, and no part has it; without a key column every row of
/// every part is kept.
pub proof fn lemma_merge_fails<K, C, T, E>(nums: Numbers<K, C, T, E>, parts: Seq<(Seq<char>, TableView)>, key_column: Seq<char>) where
    K: Fn(&str) -> Option<String>,
    C: Fn(&str, &str) -> Option<CellOrder>,
    T: Fn(&Vec<String>, Aggregate) -> String,
    E: Fn(&FormulaExpr, &Vec<(String, String)>) -> String,
    ensures
        merge_result(nums, parts, key_column) is Err <==> (parts.len() == 0 || (!is_blank(key_column) && key_column != date_header()
            && !exists|i: int| 0 <= i < parts.len() && #[trigger] has_text(parts[i].1.headers, key_column))),
        parts.len() == 0 ==> merge_result(nums, parts, key_column) == Err::<TableView, Seq<char>>("子文件夹中没有可合并的表"@),
        parts.len() > 0 && is_blank(key_column) ==> (merge_result(nums, parts, key_column) matches Ok(t) && t.rows.len() == total_part_rows(parts)),
{
    let hs = part_headers(parts);
    let headers = hs.push(date_header());
    lemma_part_headers_has(parts, key_column);
    assert(headers[hs.len() as int] == date_header());
    if has_text(hs, key_column) {
        let i = choose|i: int| 0 <= i < hs.len() && hs[i] == key_column;
        assert(headers[i] == key_column);
    }
    if has_text(headers, key_column) && key_column != date_header() {
        let i = choose|i: int| 0 <= i < headers.len() && headers[i] == key_column;
        assert(hs[i] == key_column);
    }
    lemma_part_rows_len(hs, parts);
    lemma_merge_keeps_newest(nums, part_rows(hs, parts), 0);
}

/// Merging on a key column: no two merged rows share a non-empty key; each merged row
/// with a non-empty key is the newest row with that key; every non-empty key of the
/// input has a merged row; rows with an empty key are all kept. Without a key column
/// the rows are kept as they are.
pub proof fn lemma_merge_keeps_newest<K, C, T, E>(nums: Numbers<K, C, T, E>, rows: Seq<Seq<Seq<char>>>, k: int) where
    K: Fn(&str) -> Option<String>,
    C: Fn(&str, &str) -> Option<CellOrder>,
    T: Fn(&Vec<String>, Aggregate) -> String,
    E: Fn(&FormulaExpr, &Vec<(String, String)>) -> String,
    ensures
        merged_rows(nums, rows, None) == rows,
        ({
            let m = merged_rows(nums, rows, Some(k));
            let mk = row_keys(nums, m, k);
            &&& forall|i: int, j: int| 0 <= i < j < m.len() && mk[i].len() > 0 ==> mk[i] != mk[j]
            &&& forall|i: int| 0 <= i < m.len() && #[trigger] mk[i].len() > 0 ==> exists|p: int| last_with_key(nums, rows, k, mk[i], p) && m[i] == rows[p]
            &&& forall|p: int| 0 <= p < rows.len() && (#[trigger] row_keys(nums, rows, k)[p]).len() > 0 ==> has_text(mk, row_keys(nums, rows, k)[p])
            &&& row_keys(nums, rows, k).filter(empty_key()).len() <= m.len()
        }),
    decreases rows.len(),
{
    if rows.len() == 0 {
        assert(row_keys(nums, rows, k).filter(empty_key()) =~= Seq::<Seq<char>>::empty());
    } else {
        let rest = rows.drop_last();
        lemma_merge_keeps_newest(nums, rest, k);
        let m0 = merged_rows(nums, rest, Some(k));
        let k0 = row_keys(nums, m0, k);
        let r = rows.last();
        let n = (rows.len() - 1) as int;
        let kv = match_key_spec(nums, cell_at(r, k));
        let m = merged_rows(nums, rows, Some(k));
        let mk = row_keys(nums, m, k);
        let rk = row_keys(nums, rows, k);
        assert(rk =~= row_keys(nums, rest, k).push(kv));
        assert(rk.drop_last() =~= row_keys(nums, rest, k));
        assert(rk.filter(empty_key()) == if kv.len() == 0 {
            row_keys(nums, rest, k).filter(empty_key()).push(kv)
        } else {
            row_keys(nums, rest, k).filter(empty_key())
        }) by {
            assert(rk.drop_last() =~= row_keys(nums, rest, k));
            row_keys(nums, rest, k).lemma_filter_push(kv, empty_key());
        }
        let fresh = kv.len() == 0 || !has_text(k0, kv);
        let q = if fresh { m0.len() as int } else { position(k0, kv) };
        if !fresh {
            crate::models::lemma_position(k0, kv);
            assert(m == m0.update(q, r));
        } else {
            assert(m == m0.push(r));
        }
        assert forall|i: int| 0 <= i < m.len() && #[trigger] mk[i].len() > 0 implies exists|p: int| last_with_key(nums, rows, k, mk[i], p) && m[i] == rows[p] by {
            if i == q {
                assert(m[i] == r);
                assert(mk[i] == kv);
                assert(last_with_key(nums, rows, k, kv, n));
            } else {
                assert(i < m0.len());
                assert(m[i] == m0[i]);
                assert(mk[i] == k0[i]);
                let p = choose|p: int| last_with_key(nums, rest, k, k0[i], p) && m0[i] == rest[p];
                if kv == mk[i] {
                    assert(has_text(k0, kv));
                    assert(first_at(k0, kv, q));
                    if q < i {
                        assert(k0[q] == k0[i]);
                    }
                    assert(false);
                }
                assert(rows[p] == rest[p]);
                assert forall|x: int| p < x < rows.len() implies match_key_spec(nums, cell_at(#[trigger] rows[x], k)) != mk[i] by {
                    if x < n {
                        assert(rows[x] == rest[x]);
                    }
                }
                assert(last_with_key(nums, rows, k, mk[i], p));
            }
        }
        if kv.len() > 0 && has_text(k0, kv) {
            crate::models::lemma_position(k0, kv);
            assert(mk =~= k0.update(position(k0, kv), kv));
        } else {
            assert(mk =~= k0.push(kv));
        }
        assert forall|p: int| 0 <= p < rows.len() && (#[trigger] rk[p]).len() > 0 implies has_text(mk, rk[p]) by {
            if p < n {
                assert(rk[p] == row_keys(nums, rest, k)[p]);
                let j = choose|j: int| 0 <= j < k0.len() && k0[j] == rk[p];
                if kv.len() > 0 && has_text(k0, kv) && j == position(k0, kv) {
                    assert(mk[j] == kv);
                } else {
                    assert(mk[j] == k0[j]);
                }
            } else {
                if kv.len() > 0 && has_text(k0, kv) {
                    assert(mk[position(k0, kv)] == kv);
                } else {
                    assert(mk[m.len() - 1] == kv);
                }
            }
        }
    }
    lemma_merge_no_key(nums, rows);
}

/// Without a key column merging keeps the rows.
proof fn lemma_merge_no_key<K, C, T, E>(nums: Numbers<K, C, T, E>, rows: Seq<Seq<Seq<char>>>) where
    K: Fn(&str) -> Option<String>,
    C: Fn(&str, &str) -> Option<CellOrder>,
    T: Fn(&Vec<String>, Aggregate) -> String,
    E: Fn(&FormulaExpr, &Vec<(String, String)>) -> String,
    ensures
        merged_rows(nums, rows, None) == rows,
    decreases rows.len(),
{
    if rows.len() > 0 {
        lemma_merge_no_key(nums, rows.drop_last());
        assert(rows.drop_last().push(rows.last()) =~= rows);
    }
}

/// A file of a cumulative folder: its path, its file name, its date (see
/// `parse_source_date`) and when it was last modified (seconds since the epoch, 0 when
/// unknown).
pub struct RankedFile {
    pub path: String,
    pub name: String,
    pub date: String,
    pub mtime: u64,
}

/// A file as the contracts see it: path, name, date, modification time.
pub type FileV = (Seq<char>, Seq<char>, Seq<char>, u64);

/// The view of a file.
pub open spec fn file_v(f: RankedFile) -> FileV {
    (f.path@, f.name@, f.date@, f.mtime)
}

/// Views of files.
pub open spec fn files_v(fs: Seq<RankedFile>) -> Seq<FileV> {
    fs.map_values(|f: RankedFile| file_v(f))
}

/// Order of two files: by date, then modification time, then path.
pub open spec fn file_order(a: FileV, b: FileV) -> CellOrder {
    let d = text_order(a.2, b.2);
    if d != CellOrder::Equal {
        d
    } else if a.3 < b.3 {
        CellOrder::Less
    } else if a.3 > b.3 {
        CellOrder::Greater
    } else {
        text_order(a.0, b.0)
    }
}

/// `x` inserted into `sorted` after the last file not greater than it.
pub open spec fn insert_file(sorted: Seq<FileV>, x: FileV) -> Seq<FileV>
    decreases sorted.len(),
{
    if sorted.len() == 0 || file_order(sorted.last(), x) != CellOrder::Greater {
        sorted.push(x)
    } else {
        insert_file(sorted.drop_last(), x).push(sorted.last())
    }
}

/// Files oldest first: by date, then modification time, then path (files that compare
/// equal keep their order).
pub open spec fn ranked_files(fs: Seq<FileV>) -> Seq<FileV>
    decreases fs.len(),
{
    if fs.len() == 0 { Seq::empty() } else { insert_file(ranked_files(fs.drop_last()), fs.last()) }
}

/// Swapping two files reverses their order.
pub proof fn lemma_file_order_flip(a: FileV, b: FileV)
    ensures
        file_order(b, a) == flip(file_order(a, b)),
{
    lemma_text_order_flip(a.2, b.2);
    lemma_text_order_flip(a.0, b.0);
}

/// Inserting keeps every file.
proof fn lemma_insert_file_keeps(sorted: Seq<FileV>, x: FileV)
    ensures
        insert_file(sorted, x).to_multiset() == sorted.to_multiset().insert(x),
        insert_file(sorted, x).len() == sorted.len() + 1,
    decreases sorted.len(),
{
    if sorted.len() == 0 || file_order(sorted.last(), x) != CellOrder::Greater {
        vstd::seq_lib::to_multiset_build(sorted, x);
    } else {
        let rest = sorted.drop_last();
        lemma_insert_file_keeps(rest, x);
        let ins = insert_file(rest, x);
        vstd::seq_lib::to_multiset_build(ins, sorted.last());
        vstd::seq_lib::to_multiset_build(rest, sorted.last());
        assert(sorted =~= rest.push(sorted.last()));
        assert(rest.to_multiset().insert(x).insert(sorted.last()) =~= rest.to_multiset().insert(sorted.last()).insert(x));
    }
}

/// Inserting into an ordered list keeps it in order.
#[verifier::rlimit(40)]
proof fn lemma_insert_file(sorted: Seq<FileV>, x: FileV)
    requires
        forall|k: int| 0 <= k < sorted.len() - 1 ==> file_order(#[trigger] sorted[k], sorted[k + 1]) != CellOrder::Greater,
    ensures
        forall|k: int| 0 <= k < sorted.len() ==> file_order(#[trigger] insert_file(sorted, x)[k], insert_file(sorted, x)[k + 1]) != CellOrder::Greater,
    decreases sorted.len(),
{
    lemma_insert_file_keeps(sorted, x);
    if sorted.len() == 0 || file_order(sorted.last(), x) != CellOrder::Greater {
    } else {
        let rest = sorted.drop_last();
        lemma_insert_file(rest, x);
        lemma_insert_file_keeps(rest, x);
        let ins = insert_file(rest, x);
        lemma_file_order_flip(sorted.last(), x);
        assert forall|k: int| 0 <= k < sorted.len() implies file_order(#[trigger] insert_file(sorted, x)[k], insert_file(sorted, x)[k + 1]) != CellOrder::Greater by {
            if k < rest.len() {
                assert(insert_file(sorted, x)[k] == ins[k]);
                assert(insert_file(sorted, x)[k + 1] == ins[k + 1]);
            } else {
                assert(insert_file(sorted, x)[k + 1] == sorted.last());
                assert(insert_file(sorted, x)[k] == ins.last());
                if rest.len() > 0 {
                    assert(rest.last() == sorted[rest.len() - 1]);
                    assert(file_order(sorted[rest.len() - 1], sorted[rest.len() as int]) != CellOrder::Greater);
                }
            }
        }
    }
}

/// Ranking keeps every file.
pub(crate) proof fn lemma_ranked_keeps(fs: Seq<FileV>)
    ensures
        ranked_files(fs).to_multiset() == fs.to_multiset(),
        ranked_files(fs).len() == fs.len(),
    decreases fs.len(),
{
    if fs.len() > 0 {
        lemma_ranked_keeps(fs.drop_last());
        lemma_insert_file_keeps(ranked_files(fs.drop_last()), fs.last());
        vstd::seq_lib::to_multiset_build(fs.drop_last(), fs.last());
        assert(fs =~= fs.drop_last().push(fs.last()));
    } else {
        assert(fs =~= Seq::<FileV>::empty());
    }
}

/// Ranking files keeps every file and puts them in order: each file is not greater
/// than the next.
pub proof fn lemma_ranked_files(fs: Seq<FileV>)
    ensures
        ranked_files(fs).to_multiset() == fs.to_multiset(),
        ranked_files(fs).len() == fs.len(),
        forall|k: int| 0 <= k < fs.len() - 1 ==> file_order(#[trigger] ranked_files(fs)[k], ranked_files(fs)[k + 1]) != CellOrder::Greater,
    decreases fs.len(),
{
    lemma_ranked_keeps(fs);
    if fs.len() > 0 {
        lemma_ranked_files(fs.drop_last());
        lemma_insert_file(ranked_files(fs.drop_last()), fs.last());
    }
}

/// `file_order` of two files.
fn files_order(a: &RankedFile, b: &RankedFile) -> (r: CellOrder)
    ensures
        r == file_order(file_v(*a), file_v(*b)),
{
    let d = texts_order(a.date.as_str(), b.date.as_str());
    if d != CellOrder::Equal {
        d
    } else if a.mtime < b.mtime {
        CellOrder::Less
    } else if a.mtime > b.mtime {
        CellOrder::Greater
    } else {
        texts_order(a.path.as_str(), b.path.as_str())
    }
}

/// A copy of a file entry.
fn copy_file(f: &RankedFile) -> (r: RankedFile)
    ensures
        file_v(r) == file_v(*f),
{
    RankedFile { path: f.path.clone(), name: f.name.clone(), date: f.date.clone(), mtime: f.mtime }
}

/// Files oldest first (see `ranked_files`): by date, then modification time, then path.
pub fn rank_excel_files(files: &Vec<RankedFile>) -> (r: Vec<RankedFile>)
    ensures
        files_v(r@) == ranked_files(files_v(files@)),
{
    let ghost fv = files_v(files@);
    let mut out: Vec<RankedFile> = Vec::new();
    let mut i: usize = 0;
    while i < files.len()
        invariant
            i <= fv.len(),
            fv == files_v(files@),
            files_v(out@) == ranked_files(fv.take(i as int)),
            out@.len() == i,
        decreases fv.len() - i,
    {
        assert(fv.take(i + 1).drop_last() =~= fv.take(i as int));
        assert(fv.take(i + 1).last() == fv[i as int]);
        let x = &files[i];
        let ghost sorted = files_v(out@);
        let ghost xv = file_v(*x);
        let mut p: usize = out.len();
        assert(sorted.take(p as int) =~= sorted);
        assert(sorted.skip(p as int) =~= Seq::<FileV>::empty());
        while p > 0 && files_order(&out[p - 1], x) == CellOrder::Greater
            invariant
                p <= out@.len(),
                sorted == files_v(out@),
                xv == file_v(*x),
                insert_file(sorted, xv) == insert_file(sorted.take(p as int), xv) + sorted.skip(p as int),
            decreases p,
        {
            let ghost t = sorted.take(p as int);
            assert(t.last() == sorted[p - 1]);
            assert(t.drop_last() =~= sorted.take(p - 1));
            assert(sorted.skip(p - 1) =~= seq![sorted[p - 1]] + sorted.skip(p as int));
            assert(insert_file(t, xv) == insert_file(sorted.take(p - 1), xv).push(sorted[p - 1]));
            assert(insert_file(sorted.take(p - 1), xv).push(sorted[p - 1]) + sorted.skip(p as int)
                =~= insert_file(sorted.take(p - 1), xv) + sorted.skip(p - 1));
            p -= 1;
        }
        proof {
            let t = sorted.take(p as int);
            if p > 0 {
                assert(t.last() == sorted[p - 1]);
            }
            assert(insert_file(t, xv) == t.push(xv));
            assert(t.push(xv) + sorted.skip(p as int) =~= sorted.insert(p as int, xv));
        }
        let c = copy_file(x);
        out.insert(p, c);
        assert(files_v(out@) =~= sorted.insert(p as int, xv));
        i += 1;
    }
    assert(fv.take(i as int) =~= fv);
    out
}

/// The header row set for a file: the one set for its path, else the one set for its folder.
pub open spec fn header_override(overrides: Seq<(String, usize)>, file_path: Seq<char>, folder_path: Option<Seq<char>>) -> Option<usize> {
    let ids = overrides.map_values(|o: (String, usize)| o.0@);
    if has_text(ids, file_path) {
        Some(overrides[position(ids, file_path)].1)
    } else {
        match folder_path {
            Some(f) => if has_text(ids, f) { Some(overrides[position(ids, f)].1) } else { None },
            None => None,
        }
    }
}

/// The header row set for `path` in `overrides` (the first entry counts).
fn override_of(overrides: &Vec<(String, usize)>, path: &str) -> (r: Option<usize>)
    ensures
        ({
            let ids = overrides@.map_values(|o: (String, usize)| o.0@);
            r == if has_text(ids, path@) { Some(overrides@[position(ids, path@)].1) } else { None::<usize> }
        }),
{
    let ghost ids = overrides@.map_values(|o: (String, usize)| o.0@);
    let mut i: usize = 0;
    while i < overrides.len()
        invariant
            i <= overrides@.len(),
            ids == overrides@.map_values(|o: (String, usize)| o.0@),
            forall|j: int| 0 <= j < i ==> ids[j] != path@,
        decreases overrides@.len() - i,
    {
        if same_text(overrides[i].0.as_str(), path) {
            proof {
                assert(first_at(ids, path@, i as int));
                lemma_first_at_unique(ids, path@, i as int);
            }
            return Some(overrides[i].1);
        }
        i += 1;
    }
    None
}

/// The header row set for a file: the one set for its path, else for its folder.
pub fn header_override_for(overrides: &Vec<(String, usize)>, file_path: &str, folder_path: Option<&str>) -> (r: Option<usize>)
    ensures
        r == header_override(overrides@, file_path@, match folder_path { Some(f) => Some(f@), None => None }),
{
    match override_of(overrides, file_path) {
        Some(r) => Some(r),
        None => match folder_path {
            Some(f) => override_of(overrides, f),
            None => None,
        },
    }
}

/// A file read while merging a folder: its name, its date, and its table or the error.
pub type ReadV = (Seq<char>, Seq<char>, Result<TableView, Seq<char>>);

/// Reads as the contracts see them.
pub open spec fn reads_v(reads: Seq<(String, String, Result<DataTable, String>)>) -> Seq<ReadV> {
    reads.map_values(|r: (String, String, Result<DataTable, String>)| (r.0@, r.1@, table_result(r.2)))
}

/// What is wrong with a read file, if anything: it could not be read, or it lacks the key column.
pub open spec fn read_problem(r: ReadV, key: Seq<char>) -> Option<Seq<char>> {
    match r.2 {
        Ok(t) => if !is_blank(key) && !has_text(t.headers, key) {
            Some("「"@ + r.0 + "」缺少覆盖键列「"@ + key + "」。当前表头: ["@ + join(t.headers, ", "@) + "]"@)
        } else {
            None
        },
        Err(e) => Some("「"@ + r.0 + "」: "@ + e),
    }
}

/// The problems of the read files, in order.
pub open spec fn read_problems(reads: Seq<ReadV>, key: Seq<char>) -> Seq<Seq<char>>
    decreases reads.len(),
{
    if reads.len() == 0 {
        Seq::empty()
    } else {
        let p = read_problems(reads.drop_last(), key);
        match read_problem(reads.last(), key) {
            Some(e) => p.push(e),
            None => p,
        }
    }
}

/// The dated tables of the read files without problems, in order.
pub open spec fn read_parts(reads: Seq<ReadV>, key: Seq<char>) -> Seq<(Seq<char>, TableView)>
    decreases reads.len(),
{
    if reads.len() == 0 {
        Seq::empty()
    } else {
        let p = read_parts(reads.drop_last(), key);
        let r = reads.last();
        match r.2 {
            Ok(t) => if read_problem(r, key) is None { p.push((r.1, t)) } else { p },
            Err(_) => p,
        }
    }
}

/// The problems list one entry per read file with a problem, in order; when no file has
/// a problem, every file was read and every table takes part, dated and in order.
pub proof fn lemma_read_problems_all_or_nothing(reads: Seq<ReadV>, key: Seq<char>)
    ensures
        read_problems(reads, key).len() == reads.filter(|r: ReadV| read_problem(r, key) is Some).len(),
        read_problems(reads, key).len() == 0 ==> {
            &&& forall|k: int| 0 <= k < reads.len() ==> (#[trigger] reads[k]).2 is Ok && read_problem(reads[k], key) is None
            &&& read_parts(reads, key) == reads.map_values(|r: ReadV| (r.1, r.2->Ok_0))
        },
    decreases reads.len(),
{
    let f = |r: ReadV| read_problem(r, key) is Some;
    if reads.len() > 0 {
        lemma_read_problems_all_or_nothing(reads.drop_last(), key);
        reads.drop_last().lemma_filter_push(reads.last(), f);
        assert(reads.drop_last().push(reads.last()) =~= reads);
        if read_problems(reads, key).len() == 0 {
            assert(read_problems(reads.drop_last(), key).len() == 0);
            assert forall|k: int| 0 <= k < reads.len() implies (#[trigger] reads[k]).2 is Ok && read_problem(reads[k], key) is None by {
                if k < reads.len() - 1 {
                    assert(reads.drop_last()[k] == reads[k]);
                }
            }
            assert(read_parts(reads, key) =~= reads.map_values(|r: ReadV| (r.1, r.2->Ok_0)));
        }
    } else {
        assert(reads.filter(f) =~= Seq::<ReadV>::empty());
        assert(read_parts(reads, key) =~= reads.map_values(|r: ReadV| (r.1, r.2->Ok_0)));
    }
}

/// Problems numbered from 1.
pub open spec fn numbered(es: Seq<Seq<char>>) -> Seq<Seq<char>> {
    Seq::new(es.len(), |i: int| decimal((i + 1) as nat) + ". "@ + es[i])
}

/// What merging the read files of a folder gives: the problems if any file has one,
/// else the merge of their tables.
pub open spec fn folder_merge_result<K, C, T, E>(nums: Numbers<K, C, T, E>, folder: Seq<char>, folder_name: Seq<char>, reads: Seq<ReadV>, key: Seq<char>) -> Result<TableView, Seq<char>> where
    K: Fn(&str) -> Option<String>,
    C: Fn(&str, &str) -> Option<CellOrder>,
    T: Fn(&Vec<String>, Aggregate) -> String,
    E: Fn(&FormulaExpr, &Vec<(String, String)>) -> String,
 {
    let es = read_problems(reads, key);
    let ps = read_parts(reads, key);
    if es.len() > 0 {
        Err("累计文件夹「"@ + folder_name + "」有 "@ + decimal(es.len()) + " 个文件不符合规范，已中止合并：\n"@ + join(numbered(es), "\n"@))
    } else if ps.len() == 0 {
        Err("子文件夹「"@ + folder + "」没有可读的 Excel"@)
    } else {
        merge_result(nums, ps, key)
    }
}

/// Merges the files read from cumulative folder `folder` (named `folder_name`), oldest
/// first: refuses the merge, listing every problem, when a file could not be read or
/// lacks the key column; else merges their tables (see `merge_dated_tables`).
pub fn merge_folder_parts<K, C, T, E>(
    nums: &Numbers<K, C, T, E>,
    folder: &str,
    folder_name: &str,
    reads: &Vec<(String, String, Result<DataTable, String>)>,
    key_column: &str,
) -> (r: Result<DataTable, String>) where
    K: Fn(&str) -> Option<String>,
    C: Fn(&str, &str) -> Option<CellOrder>,
    T: Fn(&Vec<String>, Aggregate) -> String,
    E: Fn(&FormulaExpr, &Vec<(String, String)>) -> String,
    requires
        nums.wf(),
    ensures
        table_result(r) == folder_merge_result(*nums, folder@, folder_name@, reads_v(reads@), key_column@),
{
    let ghost rv = reads_v(reads@);
    let mut parts: Vec<(String, DataTable)> = Vec::new();
    let mut errors: Vec<String> = Vec::new();
    let mut i: usize = 0;
    while i < reads.len()
        invariant
            i <= rv.len(),
            rv == reads_v(reads@),
            errors.deep_view() == read_problems(rv.take(i as int), key_column@),
            parts_view(parts@) == read_parts(rv.take(i as int), key_column@),
        decreases rv.len() - i,
    {
        assert(rv.take(i + 1).drop_last() =~= rv.take(i as int));
        assert(rv.take(i + 1).last() == rv[i as int]);
        let (name, date, read) = &reads[i];
        match read {
            Ok(t) => {
                if !blank(key_column) && find_text_in(&t.headers, key_column).is_none() {
                    let mut e = "「".to_owned();
                    e.append(name.as_str());
                    e.append("」缺少覆盖键列「");
                    e.append(key_column);
                    e.append("」。当前表头: [");
                    let j = join_strings(&t.headers, ", ");
                    e.append(j.as_str());
                    e.append("]");
                    let ghost e0 = errors;
                    errors.push(e);
                    proof {
                        lemma_dv_push(e0, errors, e);
                    }
                } else {
                    let ghost p0 = parts@;
                    let x = (date.clone(), crate::commands::copy_table(t));
                    parts.push(x);
                    assert(parts_view(parts@) =~= parts_view(p0).push((x.0@, x.1@)));
                }
            },
            Err(msg) => {
                let mut e = "「".to_owned();
                e.append(name.as_str());
                e.append("」: ");
                e.append(msg.as_str());
                let ghost e0 = errors;
                errors.push(e);
                proof {
                    lemma_dv_push(e0, errors, e);
                }
            },
        }
        i += 1;
    }
    assert(rv.take(i as int) =~= rv);
    if errors.len() > 0 {
        let ghost es = errors.deep_view();
        let mut lines: Vec<String> = Vec::new();
        let mut k: usize = 0;
        while k < errors.len()
            invariant
                k <= es.len(),
                es == errors.deep_view(),
                lines.deep_view() == numbered(es).take(k as int),
            decreases es.len() - k,
        {
            let mut l = crate::text::decimal_string(k + 1);
            l.append(". ");
            l.append(errors[k].as_str());
            let ghost l0 = lines;
            lines.push(l);
            proof {
                lemma_dv_push(l0, lines, l);
                assert(lines.deep_view() =~= numbered(es).take(k + 1));
            }
            k += 1;
        }
        assert(numbered(es).take(k as int) =~= numbered(es));
        let mut e = "累计文件夹「".to_owned();
        e.append(folder_name);
        e.append("」有 ");
        crate::text::push_decimal(&mut e, errors.len());
        e.append(" 个文件不符合规范，已中止合并：\n");
        let j = join_strings(&lines, "\n");
        e.append(j.as_str());
        return Err(e);
    }
    if parts.len() == 0 {
        let mut e = "子文件夹「".to_owned();
        e.append(folder);
        e.append("」没有可读的 Excel");
        return Err(e);
    }
    merge_dated_tables(nums, parts.as_slice(), key_column)
}

/// What reading `sheet` with header row `ov` gives (see `read_excel_first_sheet`): its
/// headers and data rows, or why its header cannot be read.
pub open spec fn sheet_read(sheet: RawSheet, ov: Option<usize>, r: Result<DataTable, String>) -> bool {
    match r {
        Ok(t) => header_result(sheet, ov) matches Ok(h) && t@ == (TableView {
            headers: h.0,
            rows: data_rows(sheet, h.2, h.0.len()),
            groups: Seq::empty(),
        }),
        Err(e) => header_result(sheet, ov) == Err::<(Seq<Seq<char>>, nat, nat), Seq<char>>(e@),
    }
}

/// What reading `sheet` with header row `ov` gives, as the contracts see it.
pub open spec fn sheet_table(sheet: RawSheet, ov: Option<usize>) -> Result<TableView, Seq<char>> {
    match header_result(sheet, ov) {
        Ok(h) => Ok(TableView { headers: h.0, rows: data_rows(sheet, h.2, h.0.len()), groups: Seq::empty() }),
        Err(e) => Err(e),
    }
}

/// `read` is what reading the file at `path` with header row `ov` gave: the error of
/// `open`, or the table of the sheet it gave.
pub open spec fn file_read<F: Fn(&str) -> Result<RawSheet, String>>(open: F, path: Seq<char>, ov: Option<usize>, read: Result<TableView, Seq<char>>) -> bool {
    exists|res: Result<RawSheet, String>| #[trigger] open_gives(open, path, res) && match res {
        Ok(sheet) => read == sheet_table(sheet, ov),
        Err(e) => read == Err::<TableView, Seq<char>>(e@),
    }
}

/// The table of the first sheet of a file, read with header row `ov`: the error of
/// `open`, or what reading the sheet it gave gives.
fn read_file_table<F>(open: &F, path: &str, ov: Option<usize>) -> (r: Result<DataTable, String>) where
    F: Fn(&str) -> Result<RawSheet, String>,
    requires
        forall|a: &str| #[trigger] open.requires((a,)),
    ensures
        exists|res: Result<RawSheet, String>| #[trigger] open_gives(*open, path@, res) && match res {
            Ok(sheet) => sheet_read(sheet, ov, r),
            Err(e) => r == Err::<DataTable, String>(e),
        },
        file_read(*open, path@, ov, table_result(r)),
{
    let res = open(path);
    proof {
        assert(open_gives(*open, path@, res));
    }
    match res {
        Ok(sheet) => match read_excel_first_sheet(&sheet, ov) {
            Ok((t, _)) => Ok(t),
            Err(e) => Err(e),
        },
        Err(e) => Err(e),
    }
}

/// Merges the Excel files of cumulative folder `folder` (named `folder_name`): ranks them
/// oldest first (see `rank_excel_files`), reads the first sheet of each with `open` (with
/// the header row set for the file or the folder) and merges what was read (see
/// `merge_folder_parts`).
pub fn read_folder_merged<K, C, T, E, F>(
    nums: &Numbers<K, C, T, E>,
    folder: &str,
    folder_name: &str,
    files: &Vec<RankedFile>,
    overrides: &Vec<(String, usize)>,
    key_column: &str,
    open: &F,
) -> (r: Result<DataTable, String>) where
    K: Fn(&str) -> Option<String>,
    C: Fn(&str, &str) -> Option<CellOrder>,
    T: Fn(&Vec<String>, Aggregate) -> String,
    E: Fn(&FormulaExpr, &Vec<(String, String)>) -> String,
    F: Fn(&str) -> Result<RawSheet, String>,
    requires
        nums.wf(),
        forall|a: &str| #[trigger] open.requires((a,)),
    ensures
        files@.len() == 0 ==> (r matches Err(e) && e@ == "子文件夹中没有 Excel: "@ + folder@),
        files@.len() > 0 ==> exists|reads: Seq<ReadV>| {
            &&& reads.len() == files@.len()
            &&& forall|k: int| 0 <= k < reads.len() ==> (#[trigger] reads[k]).0 == ranked_files(files_v(files@))[k].1
                && reads[k].1 == ranked_files(files_v(files@))[k].2
            &&& forall|k: int| 0 <= k < reads.len() ==> file_read(*open, ranked_files(files_v(files@))[k].0,
                header_override(overrides@, ranked_files(files_v(files@))[k].0, Some(folder@)), (#[trigger] reads[k]).2)
            &&& table_result(r) == folder_merge_result(*nums, folder@, folder_name@, reads, key_column@)
        },
{
    if files.len() == 0 {
        let mut e = "子文件夹中没有 Excel: ".to_owned();
        e.append(folder);
        return Err(e);
    }
    let ranked = rank_excel_files(files);
    proof {
        lemma_ranked_keeps(files_v(files@));
    }
    let ghost rk = files_v(ranked@);
    let mut reads: Vec<(String, String, Result<DataTable, String>)> = Vec::new();
    let mut i: usize = 0;
    while i < ranked.len()
        invariant
            i <= ranked@.len(),
            rk == files_v(ranked@),
            forall|a: &str| #[trigger] open.requires((a,)),
            reads@.len() == i,
            forall|k: int| 0 <= k < i ==> (#[trigger] reads_v(reads@)[k]).0 == rk[k].1 && reads_v(reads@)[k].1 == rk[k].2,
            forall|k: int| 0 <= k < i ==> file_read(*open, rk[k].0, header_override(overrides@, rk[k].0, Some(folder@)), (#[trigger] reads_v(reads@)[k]).2),
        decreases ranked@.len() - i,
    {
        let f = &ranked[i];
        let ov = header_override_for(overrides, f.path.as_str(), Some(folder));
        let t = read_file_table(open, f.path.as_str(), ov);
        let ghost r0 = reads@;
        let n = f.name.clone();
        let d = f.date.clone();
        reads.push((n, d, t));
        proof {
            assert(rk[i as int] == file_v(ranked@[i as int]));
            assert forall|k: int| 0 <= k < i + 1 implies (#[trigger] reads_v(reads@)[k]).0 == rk[k].1 && reads_v(reads@)[k].1 == rk[k].2 by {
                if k < i {
                    assert(reads@[k] == r0[k]);
                    assert(reads_v(r0)[k].0 == rk[k].1);
                }
            }
            assert forall|k: int| 0 <= k < i + 1 implies file_read(*open, rk[k].0, header_override(overrides@, rk[k].0, Some(folder@)), (#[trigger] reads_v(reads@)[k]).2) by {
                if k < i {
                    assert(reads@[k] == r0[k]);
                    assert(reads_v(reads@)[k] == reads_v(r0)[k]);
                }
            }
        }
        i += 1;
    }
    let r = merge_folder_parts(nums, folder, folder_name, &reads, key_column);
    assert(reads_v(reads@).len() == files@.len());
    r
}

/// A preview of a cumulative folder: the rows read, like the merged table, with the date
/// column at the end (filled with the file's date when the file has none).
pub struct PreviewDataLike {
    pub headers: Vec<String>,
    pub rows: Vec<Vec<String>>,
    pub total_rows: usize,
}

/// `t` with a date column filled with `date` added, unless it has one.
pub open spec fn with_date_column(t: TableView, date: Seq<char>) -> (Seq<Seq<char>>, Seq<Seq<Seq<char>>>) {
    if has_text(t.headers, date_header()) {
        (t.headers, t.rows)
    } else {
        (t.headers.push(date_header()), t.rows.map_values(|r: Seq<Seq<char>>| r.push(date)))
    }
}

/// The preview of a folder from the preview of its newest file, dated `date`, with
/// `total` data rows.
pub fn folder_preview(table: DataTable, total: usize, date: &str) -> (r: PreviewDataLike)
    ensures
        (r.headers.deep_view(), r.rows.deep_view()) == with_date_column(table@, date@),
        r.total_rows == total,
{
    let DataTable { headers, rows, header_groups: _ } = table;
    let ghost hv = headers.deep_view();
    let ghost rv = rows.deep_view();
    if find_text_in(&headers, "来源日期").is_some() {
        proof {
            reveal_strlit("来源日期");
        }
        return PreviewDataLike { headers, rows, total_rows: total };
    }
    proof {
        reveal_strlit("来源日期");
    }
    let mut headers = headers;
    let dh = source_date_header();
    let ghost h0 = headers;
    headers.push(dh);
    proof {
        lemma_dv_push(h0, headers, dh);
    }
    let ghost want = rv.map_values(|r: Seq<Seq<char>>| r.push(date@));
    let mut out: Vec<Vec<String>> = Vec::new();
    let mut i: usize = 0;
    while i < rows.len()
        invariant
            i <= rv.len(),
            rv == rows.deep_view(),
            want == rv.map_values(|r: Seq<Seq<char>>| r.push(date@)),
            out.deep_view() == want.take(i as int),
        decreases rv.len() - i,
    {
        let mut x = copy_texts(&rows[i]);
        let ghost x0 = x;
        let d = date.to_owned();
        x.push(d);
        proof {
            lemma_dv_push(x0, x, d);
        }
        let ghost o0 = out.deep_view();
        out.push(x);
        assert(out.deep_view() =~= o0.push(x.deep_view()));
        assert(want.take(i + 1) =~= want.take(i as int).push(want[i as int]));
        i += 1;
    }
    assert(want.take(i as int) =~= want);
    PreviewDataLike { headers, rows: out, total_rows: total }
}

/// `r` is the preview of a folder from the first sheet `sheet` of its newest file, dated
/// `date`, read with header row `ov`: the header error, or the first `limit` data rows
/// (at least one) with the date column added (see `with_date_column`) and the number of
/// data rows.
pub open spec fn sheet_preview(sheet: RawSheet, ov: Option<usize>, limit: usize, date: Seq<char>, r: Result<PreviewDataLike, String>) -> bool {
    match header_result(sheet, ov) {
        Err(e) => r matches Err(x) && x@ == e,
        Ok(h) => r matches Ok(p) && {
            let all = data_rows(sheet, h.2, h.0.len());
            let lim = if limit < 1 { 1 } else { limit as int };
            let shown = TableView { headers: h.0, rows: all.take(if lim < all.len() { lim } else { all.len() as int }), groups: Seq::empty() };
            &&& (p.headers.deep_view(), p.rows.deep_view()) == with_date_column(shown, date)
            &&& p.total_rows == all.len()
        },
    }
}

/// A folder preview is the plain preview of its newest file with the date column: both
/// fail alike; otherwise the preview keeps the file's headers, adding `来源日期` at the
/// end when the file has none, and each shown row of the file, with `date` added at
/// its end in that case, and the file's number of data rows.
pub proof fn lemma_folder_preview_dated(
    sheet: RawSheet,
    ov: Option<usize>,
    limit: usize,
    date: Seq<char>,
    plain: Result<(DataTable, usize, usize), String>,
    dated: Result<PreviewDataLike, String>,
)
    requires
        preview_read(sheet, ov, limit, plain),
        sheet_preview(sheet, ov, limit, date, dated),
    ensures
        plain is Ok <==> dated is Ok,
        plain matches Err(e) ==> dated matches Err(f) && e@ == f@,
        plain matches Ok((t, _c, n)) ==> dated matches Ok(p) && {
            &&& p.total_rows == n
            &&& has_text(p.headers.deep_view(), date_header())
            &&& p.rows@.len() == t@.rows.len()
            &&& has_text(t@.headers, date_header()) ==> p.headers.deep_view() == t@.headers && p.rows.deep_view() == t@.rows
            &&& !has_text(t@.headers, date_header()) ==> {
                &&& p.headers.deep_view() == t@.headers.push(date_header())
                &&& forall|i: int| 0 <= i < t@.rows.len() ==> #[trigger] p.rows.deep_view()[i] == t@.rows[i].push(date)
            }
        },
{
    if plain is Ok {
        let t = plain->Ok_0.0;
        let p = dated->Ok_0;
        assert(p.rows.deep_view().len() == p.rows@.len());
        if !has_text(t@.headers, date_header()) {
            assert(has_text(t@.headers.push(date_header()), date_header())) by {
                assert(t@.headers.push(date_header())[t@.headers.len() as int] == date_header());
            }
        }
    }
}

/// The preview of a folder from the first sheet `sheet` of its newest file, dated `date`
/// (see `sheet_preview`).
pub fn preview_from_sheet(sheet: &RawSheet, ov: Option<usize>, limit: usize, date: &str) -> (r: Result<PreviewDataLike, String>)
    ensures
        sheet_preview(*sheet, ov, limit, date@, r),
{
    let (t, _, total) = match read_excel_preview(sheet, ov, limit) {
        Ok(x) => x,
        Err(e) => return Err(e),
    };
    Ok(folder_preview(t, total, date))
}

/// Previews cumulative folder `folder` from its newest file only (see
/// `rank_excel_files`): opens it with `open`, with the header row set for the file or the
/// folder, and previews its first sheet (see `preview_from_sheet`).
pub fn read_folder_preview<F>(folder: &str, files: &Vec<RankedFile>, overrides: &Vec<(String, usize)>, limit: usize, open: &F) -> (r: Result<PreviewDataLike, String>) where
    F: Fn(&str) -> Result<RawSheet, String>,
    requires
        forall|a: &str| #[trigger] open.requires((a,)),
    ensures
        files@.len() == 0 ==> (r matches Err(e) && e@ == "子文件夹中没有 Excel: "@ + folder@),
        files@.len() > 0 ==> {
            let sample = ranked_files(files_v(files@)).last();
            exists|res: Result<RawSheet, String>| #[trigger] open_gives(*open, sample.0, res) && match res {
                Err(e) => r == Err::<PreviewDataLike, String>(e),
                Ok(sheet) => sheet_preview(sheet, header_override(overrides@, sample.0, Some(folder@)), limit, sample.2, r),
            }
        },
        r matches Ok(p) ==> has_text(p.headers.deep_view(), date_header()),
{
    if files.len() == 0 {
        let mut e = "子文件夹中没有 Excel: ".to_owned();
        e.append(folder);
        return Err(e);
    }
    let ranked = rank_excel_files(files);
    proof {
        lemma_ranked_keeps(files_v(files@));
    }
    let sample = &ranked[ranked.len() - 1];
    proof {
        assert(files_v(ranked@)[ranked@.len() - 1] == file_v(*sample));
        assert(ranked_files(files_v(files@)).last() == file_v(*sample));
    }
    let ov = header_override_for(overrides, sample.path.as_str(), Some(folder));
    let res = open(sample.path.as_str());
    proof {
        assert(open_gives(*open, sample.path@, res));
    }
    let sheet = match res {
        Ok(s) => s,
        Err(e) => {
            let rr: Result<PreviewDataLike, String> = Err(e);
            proof {
                assert(open_gives(*open, sample.path@, Err::<RawSheet, String>(rr->Err_0)));
            }
            return rr;
        },
    };
    proof {
        assert(open_gives(*open, sample.path@, Ok::<RawSheet, String>(sheet)));
    }
    let p = preview_from_sheet(&sheet, ov, limit, sample.date.as_str());
    proof {
        if p is Ok {
            let tv = p->Ok_0.headers.deep_view();
            if !has_text(tv, date_header()) {
                assert(tv[tv.len() - 1] == date_header());
            }
        }
    }
    p
}

} // verus!
