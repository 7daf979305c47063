//! Removing rows whose key an earlier row already had.
use vstd::prelude::*;
use crate::formula::FormulaExpr;
use crate::models::{
    copy_groups, copy_texts, has_text, lemma_dv_push, lemma_first_at_unique, missing_column_message,
    position, DataTable,
};
use crate::excel_io::{cell_at, cell_text, match_key, match_key_spec};
use crate::numbers::{Aggregate, CellOrder, Numbers};
use crate::text::{blank, is_blank, same_text};

verus! {

/// Some row before `i` has the key of row `i`.
pub open spec fn seen_before<R, K>(rows: Seq<R>, key: spec_fn(R) -> K, i: int) -> bool {
    exists|j: int| 0 <= j < i && key(rows[j]) == key(rows[i])
}

/// The rows of `rows` whose key no earlier row has, in their order.
pub open spec fn keep_first<R, K>(rows: Seq<R>, key: spec_fn(R) -> K) -> Seq<R>
    decreases rows.len(),
{
    if rows.len() == 0 {
        rows
    } else {
        let before = keep_first(rows.drop_last(), key);
        if seen_before(rows, key, rows.len() - 1) {
            before
        } else {
            before.push(rows.last())
        }
    }
}

/// Why a dedupe on `cols` cannot run: the first blank or missing column.
pub open spec fn dedupe_fault(headers: Seq<Seq<char>>, cols: Seq<Seq<char>>) -> Option<Seq<char>>
    decreases cols.len(),
{
    if cols.len() == 0 {
        None
    } else if is_blank(cols[0]) {
        Some("去重列不能为空"@)
    } else if !has_text(headers, cols[0]) {
        Some(missing_column_message(headers, cols[0]))
    } else {
        dedupe_fault(headers, cols.drop_first())
    }
}

/// Columns a dedupe compares: the named ones, or every column when none is named.
pub open spec fn dedupe_columns(headers: Seq<Seq<char>>, cols: Seq<Seq<char>>) -> Seq<int> {
    if cols.len() == 0 {
        Seq::new(headers.len(), |k: int| k)
    } else {
        Seq::new(cols.len(), |k: int| position(headers, cols[k]))
    }
}

/// The dedupe key of a row: the match key of each compared cell.
pub open spec fn dedupe_key<K, C, T, E>(nums: Numbers<K, C, T, E>, headers: Seq<Seq<char>>, cols: Seq<Seq<char>>) -> spec_fn(Seq<Seq<char>>) -> Seq<Seq<char>> where
    K: Fn(&str) -> Option<String>,
    C: Fn(&str, &str) -> Option<CellOrder>,
    T: Fn(&Vec<String>, Aggregate) -> String,
    E: Fn(&FormulaExpr, &Vec<(String, String)>) -> String,
 {
    |row: Seq<Seq<char>>| dedupe_columns(headers, cols).map_values(|c: int| match_key_spec(nums, cell_at(row, c)))
}

/// The rows that `keep_first` keeps from a prefix, extended by one row.
proof fn lemma_keep_first_step<R, K>(rows: Seq<R>, key: spec_fn(R) -> K, i: int)
    requires
        0 <= i < rows.len(),
    ensures
        keep_first(rows.take(i + 1), key) == if seen_before(rows, key, i) {
            keep_first(rows.take(i), key)
        } else {
            keep_first(rows.take(i), key).push(rows[i])
        },
{
    let t = rows.take(i + 1);
    assert(t.drop_last() =~= rows.take(i));
    assert(seen_before(t, key, i) == seen_before(rows, key, i)) by {
        if seen_before(t, key, i) {
            let j = choose|j: int| 0 <= j < i && key(t[j]) == key(t[i]);
            assert(key(rows[j]) == key(rows[i]));
        }
        if seen_before(rows, key, i) {
            let j = choose|j: int| 0 <= j < i && key(rows[j]) == key(rows[i]);
            assert(key(t[j]) == key(t[i]));
        }
    }
}

/// No two rows of `rows` share a key.
pub open spec fn distinct_keys<R, K>(rows: Seq<R>, key: spec_fn(R) -> K) -> bool {
    forall|i: int, j: int| 0 <= i < j < rows.len() ==> key(#[trigger] rows[i]) != key(#[trigger] rows[j])
}

/// Every row that a dedupe keeps is a row of its input.
pub proof fn lemma_keep_first_members<R, K>(rows: Seq<R>, key: spec_fn(R) -> K)
    ensures
        forall|i: int| 0 <= i < keep_first(rows, key).len() ==> exists|j: int| 0 <= j < rows.len() && #[trigger] keep_first(rows, key)[i] == rows[j],
    decreases rows.len(),
{
    if rows.len() > 0 {
        let p = rows.drop_last();
        lemma_keep_first_members(p, key);
        let out = keep_first(rows, key);
        assert forall|i: int| 0 <= i < out.len() implies exists|j: int| 0 <= j < rows.len() && #[trigger] out[i] == rows[j] by {
            if i < keep_first(p, key).len() {
                let j = choose|j: int| 0 <= j < p.len() && keep_first(p, key)[i] == p[j];
                assert(out[i] == rows[j]);
            } else {
                assert(out[i] == rows[rows.len() - 1]);
            }
        }
    }
}

/// Dedupe law: every kept row is the first row of the input with its key.
pub proof fn lemma_keep_first_firsts<R, K>(rows: Seq<R>, key: spec_fn(R) -> K)
    ensures
        forall|i: int| 0 <= i < keep_first(rows, key).len() ==> exists|j: int| 0 <= j < rows.len()
            && #[trigger] keep_first(rows, key)[i] == rows[j] && !seen_before(rows, key, j),
    decreases rows.len(),
{
    if rows.len() > 0 {
        let p = rows.drop_last();
        lemma_keep_first_firsts(p, key);
        let out = keep_first(rows, key);
        assert forall|i: int| 0 <= i < out.len() implies exists|j: int| 0 <= j < rows.len()
            && #[trigger] out[i] == rows[j] && !seen_before(rows, key, j) by {
            if i < keep_first(p, key).len() {
                let j = choose|j: int| 0 <= j < p.len() && keep_first(p, key)[i] == p[j] && !seen_before(p, key, j);
                assert(out[i] == rows[j]);
                if seen_before(rows, key, j) {
                    let m = choose|m: int| 0 <= m < j && key(rows[m]) == key(rows[j]);
                    assert(key(p[m]) == key(p[j]));
                }
            } else {
                assert(out[i] == rows[rows.len() - 1]);
            }
        }
    }
}

/// Dedupe law: the rows that a dedupe keeps have pairwise different keys.
pub proof fn lemma_keep_first_distinct<R, K>(rows: Seq<R>, key: spec_fn(R) -> K)
    ensures
        distinct_keys(keep_first(rows, key), key),
    decreases rows.len(),
{
    if rows.len() > 0 {
        let p = rows.drop_last();
        let n = rows.len() - 1;
        lemma_keep_first_distinct(p, key);
        lemma_keep_first_members(p, key);
        let before = keep_first(p, key);
        let out = keep_first(rows, key);
        if !seen_before(rows, key, n) {
            assert forall|i: int, j: int| 0 <= i < j < out.len() implies key(#[trigger] out[i]) != key(#[trigger] out[j]) by {
                if j == before.len() {
                    let q = choose|q: int| 0 <= q < p.len() && before[i] == p[q];
                    assert(rows[q] == out[i]);
                    assert(out[j] == rows[n]);
                } else {
                    assert(out[i] == before[i] && out[j] == before[j]);
                }
            }
        }
    }
}

/// Dedupe law: the key of every input row is the key of some row that a dedupe keeps.
pub proof fn lemma_keep_first_covers<R, K>(rows: Seq<R>, key: spec_fn(R) -> K)
    ensures
        forall|j: int| 0 <= j < rows.len() ==> exists|i: int| 0 <= i < keep_first(rows, key).len() && key(keep_first(rows, key)[i]) == #[trigger] key(rows[j]),
    decreases rows.len(),
{
    if rows.len() > 0 {
        let p = rows.drop_last();
        let n = rows.len() - 1;
        lemma_keep_first_covers(p, key);
        let before = keep_first(p, key);
        let out = keep_first(rows, key);
        assert forall|j: int| 0 <= j < rows.len() implies exists|i: int| 0 <= i < out.len() && key(out[i]) == #[trigger] key(rows[j]) by {
            if j < n {
                assert(key(p[j]) == key(rows[j]));
                let i = choose|i: int| 0 <= i < before.len() && key(before[i]) == key(p[j]);
                assert(out[i] == before[i]);
            } else if seen_before(rows, key, n) {
                let q = choose|q: int| 0 <= q < n && key(rows[q]) == key(rows[n]);
                assert(key(p[q]) == key(rows[q]));
                let i = choose|i: int| 0 <= i < before.len() && key(before[i]) == key(p[q]);
                assert(out[i] == before[i]);
            } else {
                assert(out[before.len() as int] == rows[n]);
            }
        }
    }
}

/// Rows with pairwise different keys are all kept, in their order.
pub proof fn lemma_keep_first_of_distinct<R, K>(rows: Seq<R>, key: spec_fn(R) -> K)
    requires
        distinct_keys(rows, key),
    ensures
        keep_first(rows, key) == rows,
    decreases rows.len(),
{
    if rows.len() > 0 {
        let p = rows.drop_last();
        let n = rows.len() - 1;
        assert(distinct_keys(p, key)) by {
            assert forall|i: int, j: int| 0 <= i < j < p.len() implies key(#[trigger] p[i]) != key(#[trigger] p[j]) by {
                assert(p[i] == rows[i] && p[j] == rows[j]);
            }
        }
        lemma_keep_first_of_distinct(p, key);
        if seen_before(rows, key, n) {
            let q = choose|q: int| 0 <= q < n && key(rows[q]) == key(rows[n]);
            assert(key(rows[q]) != key(rows[n]));
        }
        assert(p.push(rows[n]) =~= rows);
    }
}

/// Dedupe law: a second dedupe by the same key keeps every row of the first.
pub proof fn lemma_keep_first_idempotent<R, K>(rows: Seq<R>, key: spec_fn(R) -> K)
    ensures
        keep_first(keep_first(rows, key), key) == keep_first(rows, key),
{
    lemma_keep_first_distinct(rows, key);
    lemma_keep_first_of_distinct(keep_first(rows, key), key);
}

/// Cell-wise equality of two rows.
pub(crate) fn same_cells(a: &Vec<String>, b: &Vec<String>) -> (r: bool)
    ensures
        r == (a.deep_view() == b.deep_view()),
{
    if a.len() != b.len() {
        proof {
            if a.deep_view() == b.deep_view() {
                assert(a.deep_view().len() == b.deep_view().len());
            }
        }
        return false;
    }
    let mut i: usize = 0;
    while i < a.len()
        invariant
            i <= a@.len(),
            a@.len() == b@.len(),
            forall|j: int| 0 <= j < i ==> a@[j]@ == b@[j]@,
        decreases a@.len() - i,
    {
        if !same_text(a[i].as_str(), b[i].as_str()) {
            proof {
                if a.deep_view() == b.deep_view() {
                    assert(a.deep_view()[i as int] == b.deep_view()[i as int]);
                }
            }
            return false;
        }
        i += 1;
    }
    assert(a.deep_view() =~= b.deep_view());
    true
}

/// Whether `seen` holds `x`.
pub(crate) fn holds_row(seen: &Vec<Vec<String>>, x: &Vec<String>) -> (r: bool)
    ensures
        r == has_text(seen.deep_view(), x.deep_view()),
{
    let mut i: usize = 0;
    while i < seen.len()
        invariant
            i <= seen@.len(),
            forall|j: int| 0 <= j < i ==> seen.deep_view()[j] != x.deep_view(),
        decreases seen@.len() - i,
    {
        if same_cells(&seen[i], x) {
            assert(seen.deep_view()[i as int] == x.deep_view());
            return true;
        }
        i += 1;
    }
    false
}

/// The match keys of the cells of `row` at `idxs`.
fn key_of_row<K, C, T, E>(nums: &Numbers<K, C, T, E>, row: &Vec<String>, idxs: &Vec<usize>) -> (r: Vec<String>) where
    K: Fn(&str) -> Option<String>,
    C: Fn(&str, &str) -> Option<CellOrder>,
    T: Fn(&Vec<String>, Aggregate) -> String,
    E: Fn(&FormulaExpr, &Vec<(String, String)>) -> String,
    requires
        nums.wf(),
    ensures
        r.deep_view() == idxs@.map_values(|c: usize| match_key_spec(*nums, cell_at(row.deep_view(), c as int))),
{
    let mut r: Vec<String> = Vec::new();
    let mut k: usize = 0;
    while k < idxs.len()
        invariant
            k <= idxs@.len(),
            nums.wf(),
            r.deep_view() == idxs@.take(k as int).map_values(|c: usize| match_key_spec(*nums, cell_at(row.deep_view(), c as int))),
        decreases idxs@.len() - k,
    {
        let ghost r0 = r;
        let m = match_key(nums, cell_text(row, idxs[k]));
        r.push(m);
        proof {
            lemma_dv_push(r0, r, m);
            assert(idxs@.take(k + 1) =~= idxs@.take(k as int).push(idxs@[k as int]));
            assert(r.deep_view() =~= idxs@.take(k + 1).map_values(|c: usize| match_key_spec(*nums, cell_at(row.deep_view(), c as int))));
        }
        k += 1;
    }
    assert(idxs@.take(k as int) =~= idxs@);
    r
}

/// What a dedupe of `t` on `cols` gives.
pub open spec fn dedupe_outcome<K, C, T, E>(nums: Numbers<K, C, T, E>, t: crate::models::TableView, cols: Seq<Seq<char>>, res: Result<crate::models::TableView, Seq<char>>) -> bool where
    K: Fn(&str) -> Option<String>,
    C: Fn(&str, &str) -> Option<CellOrder>,
    T: Fn(&Vec<String>, Aggregate) -> String,
    E: Fn(&FormulaExpr, &Vec<(String, String)>) -> String,
 {
    match res {
        Ok(out) => {
            &&& dedupe_fault(t.headers, cols) is None
            &&& dedupe_columns(t.headers, cols).len() > 0
            &&& out.headers == t.headers
            &&& out.groups == t.groups
            &&& out.rows == keep_first(t.rows, dedupe_key(nums, t.headers, cols))
        },
        Err(e) => match dedupe_fault(t.headers, cols) {
            Some(m) => e == m,
            None => dedupe_columns(t.headers, cols).len() == 0 && e == "表没有列，无法去重"@,
        },
    }
}

/// Rows `a` and `b` agree on every named column (every column when none is named):
/// their cells there have the same match key.
#[verifier::opaque]
pub open spec fn agree_on<K, C, T, E>(nums: Numbers<K, C, T, E>, headers: Seq<Seq<char>>, cols: Seq<Seq<char>>, a: Seq<Seq<char>>, b: Seq<Seq<char>>) -> bool where
    K: Fn(&str) -> Option<String>,
    C: Fn(&str, &str) -> Option<CellOrder>,
    T: Fn(&Vec<String>, Aggregate) -> String,
    E: Fn(&FormulaExpr, &Vec<(String, String)>) -> String,
 {
    if cols.len() == 0 {
        forall|c: int| 0 <= c < headers.len() ==> #[trigger] match_key_spec(nums, cell_at(a, c)) == match_key_spec(nums, cell_at(b, c))
    } else {
        forall|k: int| 0 <= k < cols.len() ==> match_key_spec(nums, cell_at(a, position(headers, #[trigger] cols[k])))
            == match_key_spec(nums, cell_at(b, position(headers, cols[k])))
    }
}

/// No row before row `j` agrees with it on the named columns (see `agree_on`).
pub open spec fn first_agreeing<K, C, T, E>(nums: Numbers<K, C, T, E>, headers: Seq<Seq<char>>, cols: Seq<Seq<char>>, rows: Seq<Seq<Seq<char>>>, j: int) -> bool where
    K: Fn(&str) -> Option<String>,
    C: Fn(&str, &str) -> Option<CellOrder>,
    T: Fn(&Vec<String>, Aggregate) -> String,
    E: Fn(&FormulaExpr, &Vec<(String, String)>) -> String,
 {
    forall|q: int| 0 <= q < j ==> !agree_on(nums, headers, cols, #[trigger] rows[q], rows[j])
}

/// Some row of `rows` agrees with `row` on the named columns (see `agree_on`).
pub open spec fn agrees_with_some<K, C, T, E>(nums: Numbers<K, C, T, E>, headers: Seq<Seq<char>>, cols: Seq<Seq<char>>, rows: Seq<Seq<Seq<char>>>, row: Seq<Seq<char>>) -> bool where
    K: Fn(&str) -> Option<String>,
    C: Fn(&str, &str) -> Option<CellOrder>,
    T: Fn(&Vec<String>, Aggregate) -> String,
    E: Fn(&FormulaExpr, &Vec<(String, String)>) -> String,
 {
    exists|i: int| 0 <= i < rows.len() && #[trigger] agree_on(nums, headers, cols, rows[i], row)
}

/// Two rows have the same dedupe key exactly when they agree on the named columns.
proof fn lemma_dedupe_key_agree<K, C, T, E>(nums: Numbers<K, C, T, E>, headers: Seq<Seq<char>>, cols: Seq<Seq<char>>, a: Seq<Seq<char>>, b: Seq<Seq<char>>) where
    K: Fn(&str) -> Option<String>,
    C: Fn(&str, &str) -> Option<CellOrder>,
    T: Fn(&Vec<String>, Aggregate) -> String,
    E: Fn(&FormulaExpr, &Vec<(String, String)>) -> String,
    ensures
        (dedupe_key(nums, headers, cols)(a) == dedupe_key(nums, headers, cols)(b)) == agree_on(nums, headers, cols, a, b),
{
    reveal(agree_on);
    let ka = dedupe_key(nums, headers, cols)(a);
    let kb = dedupe_key(nums, headers, cols)(b);
    let idx = dedupe_columns(headers, cols);
    if ka == kb {
        if cols.len() == 0 {
            assert forall|c: int| 0 <= c < headers.len() implies #[trigger] match_key_spec(nums, cell_at(a, c)) == match_key_spec(nums, cell_at(b, c)) by {
                assert(idx[c] == c);
                assert(ka[c] == kb[c]);
            }
        } else {
            assert forall|k: int| 0 <= k < cols.len() implies match_key_spec(nums, cell_at(a, position(headers, #[trigger] cols[k])))
                == match_key_spec(nums, cell_at(b, position(headers, cols[k]))) by {
                assert(idx[k] == position(headers, cols[k]));
                assert(ka[k] == kb[k]);
            }
        }
    }
    if agree_on(nums, headers, cols, a, b) {
        assert forall|k: int| 0 <= k < idx.len() implies ka[k] == kb[k] by {
            if cols.len() == 0 {
                assert(idx[k] == k);
                assert(match_key_spec(nums, cell_at(a, k)) == match_key_spec(nums, cell_at(b, k)));
            } else {
                assert(idx[k] == position(headers, cols[k]));
            }
        }
        assert(ka =~= kb);
    }
}

proof fn lemma_dedupe_kept_are_first<K, C, T, E>(nums: Numbers<K, C, T, E>, t: crate::models::TableView, cols: Seq<Seq<char>>) where
    K: Fn(&str) -> Option<String>,
    C: Fn(&str, &str) -> Option<CellOrder>,
    T: Fn(&Vec<String>, Aggregate) -> String,
    E: Fn(&FormulaExpr, &Vec<(String, String)>) -> String,
    ensures
        forall|i: int| 0 <= i < keep_first(t.rows, dedupe_key(nums, t.headers, cols)).len() ==> exists|j: int| 0 <= j < t.rows.len()
            && #[trigger] keep_first(t.rows, dedupe_key(nums, t.headers, cols))[i] == t.rows[j] && first_agreeing(nums, t.headers, cols, t.rows, j),
{
    let key = dedupe_key(nums, t.headers, cols);
    let rows = t.rows;
    let out = keep_first(rows, key);
    lemma_keep_first_firsts(rows, key);
    assert forall|i: int| 0 <= i < out.len() implies exists|j: int| 0 <= j < rows.len() && #[trigger] out[i] == rows[j]
        && first_agreeing(nums, t.headers, cols, rows, j) by {
        let j = choose|j: int| 0 <= j < rows.len() && out[i] == rows[j] && !seen_before(rows, key, j);
        assert forall|q: int| 0 <= q < j implies !agree_on(nums, t.headers, cols, #[trigger] rows[q], rows[j]) by {
            lemma_dedupe_key_agree(nums, t.headers, cols, rows[q], rows[j]);
        }
    }
}

proof fn lemma_dedupe_first_kept<K, C, T, E>(nums: Numbers<K, C, T, E>, t: crate::models::TableView, cols: Seq<Seq<char>>, j: int) where
    K: Fn(&str) -> Option<String>,
    C: Fn(&str, &str) -> Option<CellOrder>,
    T: Fn(&Vec<String>, Aggregate) -> String,
    E: Fn(&FormulaExpr, &Vec<(String, String)>) -> String,
    requires
        0 <= j < t.rows.len(),
        first_agreeing(nums, t.headers, cols, t.rows, j),
    ensures
        exists|i: int| 0 <= i < keep_first(t.rows, dedupe_key(nums, t.headers, cols)).len()
            && #[trigger] keep_first(t.rows, dedupe_key(nums, t.headers, cols))[i] == t.rows[j],
{
    let key = dedupe_key(nums, t.headers, cols);
    let rows = t.rows;
    let out = keep_first(rows, key);
    lemma_keep_first_firsts(rows, key);
    lemma_keep_first_covers(rows, key);
    assert(!seen_before(rows, key, j)) by {
        if seen_before(rows, key, j) {
            let q = choose|q: int| 0 <= q < j && key(rows[q]) == key(rows[j]);
            lemma_dedupe_key_agree(nums, t.headers, cols, rows[q], rows[j]);
            assert(!agree_on(nums, t.headers, cols, rows[q], rows[j]));
        }
    }
    let i = choose|i: int| 0 <= i < out.len() && key(out[i]) == #[trigger] key(rows[j]);
    let j2 = choose|j2: int| 0 <= j2 < rows.len() && out[i] == rows[j2] && !seen_before(rows, key, j2);
    if j2 < j {
        assert(seen_before(rows, key, j));
    } else if j < j2 {
        assert(seen_before(rows, key, j2));
    }
    assert(out[i] == rows[j]);
}

/// Dedupe law: a dedupe keeps, in input order, exactly the rows that agree on the named
/// columns (every column when none is named) with no earlier row: each kept row is such
/// a row of the input, every such row is kept, no two kept rows agree, and every input
/// row agrees with a kept one.
pub proof fn lemma_dedupe_keeps_first_of_each_key<K, C, T, E>(nums: Numbers<K, C, T, E>, t: crate::models::TableView, cols: Seq<Seq<char>>, out: crate::models::TableView) where
    K: Fn(&str) -> Option<String>,
    C: Fn(&str, &str) -> Option<CellOrder>,
    T: Fn(&Vec<String>, Aggregate) -> String,
    E: Fn(&FormulaExpr, &Vec<(String, String)>) -> String,
    requires
        dedupe_outcome(nums, t, cols, Ok(out)),
    ensures
        out.headers == t.headers,
        forall|i: int| 0 <= i < out.rows.len() ==> exists|j: int| 0 <= j < t.rows.len() && #[trigger] out.rows[i] == t.rows[j]
            && first_agreeing(nums, t.headers, cols, t.rows, j),
        forall|j: int| 0 <= j < t.rows.len() && #[trigger] first_agreeing(nums, t.headers, cols, t.rows, j)
            ==> exists|i: int| 0 <= i < out.rows.len() && #[trigger] out.rows[i] == t.rows[j],
        forall|i: int, k: int| 0 <= i < k < out.rows.len() ==> !agree_on(nums, t.headers, cols, #[trigger] out.rows[i], #[trigger] out.rows[k]),
        forall|j: int| 0 <= j < t.rows.len() ==> #[trigger] agrees_with_some(nums, t.headers, cols, out.rows, t.rows[j]),
{
    let key = dedupe_key(nums, t.headers, cols);
    let rows = t.rows;
    lemma_dedupe_kept_are_first(nums, t, cols);
    assert forall|j: int| 0 <= j < t.rows.len() && #[trigger] first_agreeing(nums, t.headers, cols, t.rows, j)
        implies exists|i: int| 0 <= i < out.rows.len() && #[trigger] out.rows[i] == t.rows[j] by {
        lemma_dedupe_first_kept(nums, t, cols, j);
    }
    lemma_keep_first_distinct(rows, key);
    assert forall|i: int, k: int| 0 <= i < k < out.rows.len() implies !agree_on(nums, t.headers, cols, #[trigger] out.rows[i], #[trigger] out.rows[k]) by {
        assert(key(out.rows[i]) != key(out.rows[k]));
        lemma_dedupe_key_agree(nums, t.headers, cols, out.rows[i], out.rows[k]);
    }
    lemma_keep_first_covers(rows, key);
    assert forall|j: int| 0 <= j < t.rows.len() implies #[trigger] agrees_with_some(nums, t.headers, cols, out.rows, t.rows[j]) by {
        let i = choose|i: int| 0 <= i < keep_first(rows, key).len() && key(keep_first(rows, key)[i]) == #[trigger] key(rows[j]);
        lemma_dedupe_key_agree(nums, t.headers, cols, out.rows[i], t.rows[j]);
        assert(0 <= i < out.rows.len() && agree_on(nums, t.headers, cols, out.rows[i], t.rows[j]));
    }
}

/// Drops every row whose key an earlier row already had, keeping the first. The key of
/// a row is the match key (see `match_key`) of each cell in `columns`, or of every
/// cell when `columns` is empty.
pub fn apply_dedupe<K, C, T, E>(nums: &Numbers<K, C, T, E>, table: &DataTable, columns: &[String]) -> (r: Result<DataTable, String>) where
    K: Fn(&str) -> Option<String>,
    C: Fn(&str, &str) -> Option<CellOrder>,
    T: Fn(&Vec<String>, Aggregate) -> String,
    E: Fn(&FormulaExpr, &Vec<(String, String)>) -> String,
    requires
        nums.wf(),
    ensures
        dedupe_outcome(*nums, table@, columns.deep_view(), crate::models::table_result(r)),
{
    let ghost h = table@.headers;
    let ghost names = columns.deep_view();
    let ghost cols = dedupe_columns(h, names);
    let mut idxs: Vec<usize> = Vec::new();
    if columns.len() == 0 {
        let mut k: usize = 0;
        while k < table.headers.len()
            invariant
                k <= h.len(),
                h == table@.headers,
                names.len() == 0,
                cols == dedupe_columns(h, names),
                idxs@.len() == k,
                forall|j: int| 0 <= j < k ==> idxs@[j] as int == #[trigger] cols[j],
            decreases h.len() - k,
        {
            idxs.push(k);
            k += 1;
        }
    } else {
        assert(names.subrange(0, names.len() as int) =~= names);
        let mut k: usize = 0;
        while k < columns.len()
            invariant
                k <= names.len(),
                names == columns.deep_view(),
                names.len() > 0,
                h == table@.headers,
                cols == dedupe_columns(h, names),
                idxs@.len() == k,
                forall|j: int| 0 <= j < k ==> idxs@[j] as int == #[trigger] cols[j],
                dedupe_fault(h, names) == dedupe_fault(h, names.subrange(k as int, names.len() as int)),
            decreases names.len() - k,
        {
            assert(names.subrange(k as int, names.len() as int).drop_first() =~= names.subrange(k + 1, names.len() as int));
            assert(names.subrange(k as int, names.len() as int)[0] == names[k as int]);
            if blank(columns[k].as_str()) {
                return Err("去重列不能为空".to_owned());
            }
            match table.col_index(columns[k].as_str()) {
                Ok(i) => {
                    proof {
                        lemma_first_at_unique(h, names[k as int], i as int);
                    }
                    idxs.push(i);
                },
                Err(e) => {
                    return Err(e);
                },
            }
            k += 1;
        }
        assert(names.subrange(names.len() as int, names.len() as int).len() == 0);
    }
    assert(idxs@.len() == cols.len());
    if idxs.len() == 0 {
        return Err("表没有列，无法去重".to_owned());
    }
    let ghost key = dedupe_key(*nums, h, names);
    let ghost rows_in = table@.rows;
    let mut seen: Vec<Vec<String>> = Vec::new();
    let mut rows: Vec<Vec<String>> = Vec::new();
    let mut i: usize = 0;
    while i < table.rows.len()
        invariant
            i <= rows_in.len(),
            nums.wf(),
            rows_in == table@.rows,
            key == dedupe_key(*nums, h, names),
            cols == dedupe_columns(h, names),
            idxs@.len() == cols.len(),
            forall|j: int| 0 <= j < idxs@.len() ==> idxs@[j] as int == #[trigger] cols[j],
            rows.deep_view() == keep_first(rows_in.take(i as int), key),
            forall|j: int| 0 <= j < i ==> has_text(seen.deep_view(), #[trigger] key(rows_in[j])),
            forall|s: int| #![trigger seen.deep_view()[s]] 0 <= s < seen@.len() ==> exists|j: int| 0 <= j < i && #[trigger] key(rows_in[j]) == seen.deep_view()[s],
        decreases rows_in.len() - i,
    {
        let row = &table.rows[i];
        let rk = key_of_row(nums, row, &idxs);
        proof {
            assert(row.deep_view() == rows_in[i as int]);
            assert(rk.deep_view() =~= key(rows_in[i as int]));
        }
        let dup = holds_row(&seen, &rk);
        proof {
            lemma_keep_first_step(rows_in, key, i as int);
            if dup {
                let s = choose|s: int| 0 <= s < seen.deep_view().len() && seen.deep_view()[s] == rk.deep_view();
                let j = choose|j: int| 0 <= j < i && #[trigger] key(rows_in[j]) == seen.deep_view()[s];
                assert(seen_before(rows_in, key, i as int));
            } else {
                if seen_before(rows_in, key, i as int) {
                    let j = choose|j: int| 0 <= j < i && key(rows_in[j]) == key(rows_in[i as int]);
                    assert(has_text(seen.deep_view(), key(rows_in[j])));
                }
                assert(!seen_before(rows_in, key, i as int));
            }
        }
        if !dup {
            let ghost r0 = rows;
            let ghost s0 = seen;
            let c = copy_texts(row);
            rows.push(c);
            seen.push(rk);
            proof {
                lemma_dv_push(r0, rows, c);
                lemma_dv_push(s0, seen, rk);
                assert forall|j: int| 0 <= j < i + 1 implies has_text(seen.deep_view(), #[trigger] key(rows_in[j])) by {
                    if j < i {
                        let s = choose|s: int| 0 <= s < s0.deep_view().len() && s0.deep_view()[s] == key(rows_in[j]);
                        assert(seen.deep_view()[s] == key(rows_in[j]));
                    } else {
                        assert(seen.deep_view()[s0@.len() as int] == key(rows_in[j]));
                    }
                }
                assert forall|s: int| #![trigger seen.deep_view()[s]] 0 <= s < seen@.len() implies exists|j: int| 0 <= j < i + 1 && #[trigger] key(rows_in[j]) == seen.deep_view()[s] by {
                    if s < s0@.len() {
                        assert(seen.deep_view()[s] == s0.deep_view()[s]);
                        let j = choose|j: int| 0 <= j < i && #[trigger] key(rows_in[j]) == s0.deep_view()[s];
                        assert(0 <= j < i + 1 && key(rows_in[j]) == seen.deep_view()[s]);
                    } else {
                        assert(key(rows_in[i as int]) == seen.deep_view()[s]);
                    }
                }
            }
        } else {
            proof {
                assert forall|j: int| 0 <= j < i + 1 implies has_text(seen.deep_view(), #[trigger] key(rows_in[j])) by {
                    if j == i {
                        assert(key(rows_in[j]) == rk.deep_view());
                    }
                }
                assert forall|s: int| #![trigger seen.deep_view()[s]] 0 <= s < seen@.len() implies exists|j: int| 0 <= j < i + 1 && #[trigger] key(rows_in[j]) == seen.deep_view()[s] by {
                    let j = choose|j: int| 0 <= j < i && #[trigger] key(rows_in[j]) == seen.deep_view()[s];
                    assert(0 <= j < i + 1);
                }
            }
        }
        i += 1;
    }
    assert(rows_in.take(i as int) =~= rows_in);
    Ok(DataTable { headers: copy_texts(&table.headers), rows, header_groups: copy_groups(&table.header_groups) })
}

} // verus!
