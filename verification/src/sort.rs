//! Stable multi-key sorting of table rows.
use vstd::prelude::*;
use crate::formula::FormulaExpr;
use crate::models::{copy_groups, copy_texts, lemma_dv_push, lemma_first_at_unique, position, DataTable, SortKey};
use crate::excel_io::{all_present, cell_at, cell_text, first_missing_at, first_missing_message, lemma_first_missing_unique};
use crate::numbers::{flip, Aggregate, CellOrder, Numbers};
use crate::text::chars_of;

verus! {

/// Order of two texts by code point, a proper prefix first.
pub open spec fn text_order(a: Seq<char>, b: Seq<char>) -> CellOrder
    decreases a.len(),
{
    if a.len() == 0 {
        if b.len() == 0 { CellOrder::Equal } else { CellOrder::Less }
    } else if b.len() == 0 {
        CellOrder::Greater
    } else if a[0] < b[0] {
        CellOrder::Less
    } else if a[0] > b[0] {
        CellOrder::Greater
    } else {
        text_order(a.drop_first(), b.drop_first())
    }
}

/// Order of two cells: numeric when both read as numbers, else by text.
pub open spec fn cell_order<K, C, T, E>(nums: Numbers<K, C, T, E>, a: Seq<char>, b: Seq<char>) -> CellOrder where
    K: Fn(&str) -> Option<String>,
    C: Fn(&str, &str) -> Option<CellOrder>,
    T: Fn(&Vec<String>, Aggregate) -> String,
    E: Fn(&FormulaExpr, &Vec<(String, String)>) -> String,
 {
    match nums.order_of(a, b) {
        Some(o) => o,
        None => text_order(a, b),
    }
}

/// Order of two rows under sort keys `(column, descending)`: the first key on which
/// the cells differ decides, reversed for a descending key.
pub open spec fn row_order<K, C, T, E>(nums: Numbers<K, C, T, E>, specs: Seq<(int, bool)>, a: Seq<Seq<char>>, b: Seq<Seq<char>>) -> CellOrder where
    K: Fn(&str) -> Option<String>,
    C: Fn(&str, &str) -> Option<CellOrder>,
    T: Fn(&Vec<String>, Aggregate) -> String,
    E: Fn(&FormulaExpr, &Vec<(String, String)>) -> String,
    decreases specs.len(),
{
    if specs.len() == 0 {
        CellOrder::Equal
    } else {
        let o = cell_order(nums, cell_at(a, specs[0].0), cell_at(b, specs[0].0));
        if o != CellOrder::Equal {
            if specs[0].1 { flip(o) } else { o }
        } else {
            row_order(nums, specs.drop_first(), a, b)
        }
    }
}

/// A direction that reads `desc`, ignoring ASCII case.
pub open spec fn is_desc(d: Seq<char>) -> bool {
    &&& d.len() == 4
    &&& (d[0] == 'd' || d[0] == 'D')
    &&& (d[1] == 'e' || d[1] == 'E')
    &&& (d[2] == 's' || d[2] == 'S')
    &&& (d[3] == 'c' || d[3] == 'C')
}

/// Column names of sort keys.
pub open spec fn key_columns(keys: Seq<SortKey>) -> Seq<Seq<char>> {
    keys.map_values(|k: SortKey| k.column@)
}

/// Sort keys as `(column index, descending)`.
pub open spec fn sort_specs(headers: Seq<Seq<char>>, keys: Seq<SortKey>) -> Seq<(int, bool)> {
    keys.map_values(|k: SortKey| (position(headers, k.column@), is_desc(k.direction@)))
}

/// `p` lists each of `0..n` once.
pub open spec fn is_permutation(p: Seq<int>, n: nat) -> bool {
    &&& p.len() == n
    &&& forall|k: int| 0 <= k < p.len() ==> 0 <= #[trigger] p[k] < n
    &&& forall|a: int, b: int| 0 <= a < b < p.len() ==> #[trigger] p[a] != #[trigger] p[b]
}

/// `out` is `rows` reordered by `p`, with each neighbour pair in order and equal
/// neighbours in their input order.
pub open spec fn sorted_by<K, C, T, E>(nums: Numbers<K, C, T, E>, specs: Seq<(int, bool)>, rows: Seq<Seq<Seq<char>>>, p: Seq<int>, out: Seq<Seq<Seq<char>>>) -> bool where
    K: Fn(&str) -> Option<String>,
    C: Fn(&str, &str) -> Option<CellOrder>,
    T: Fn(&Vec<String>, Aggregate) -> String,
    E: Fn(&FormulaExpr, &Vec<(String, String)>) -> String,
 {
    &&& is_permutation(p, rows.len())
    &&& out.len() == p.len()
    &&& forall|k: int| 0 <= k < out.len() ==> #[trigger] out[k] == rows[p[k]]
    &&& forall|k: int| 0 <= k < out.len() - 1 ==> #[trigger] in_order_at(nums, specs, out, p, k)
}

/// Rows `k` and `k + 1` of `out` are in order, and tied rows in input order.
pub open spec fn in_order_at<K, C, T, E>(nums: Numbers<K, C, T, E>, specs: Seq<(int, bool)>, out: Seq<Seq<Seq<char>>>, p: Seq<int>, k: int) -> bool where
    K: Fn(&str) -> Option<String>,
    C: Fn(&str, &str) -> Option<CellOrder>,
    T: Fn(&Vec<String>, Aggregate) -> String,
    E: Fn(&FormulaExpr, &Vec<(String, String)>) -> String,
 {
    &&& row_order(nums, specs, out[k], out[k + 1]) != CellOrder::Greater
    &&& row_order(nums, specs, out[k], out[k + 1]) == CellOrder::Equal ==> p[k] < p[k + 1]
}

/// Text order is reversed by swapping its arguments.
pub proof fn lemma_text_order_flip(a: Seq<char>, b: Seq<char>)
    ensures
        text_order(b, a) == flip(text_order(a, b)),
    decreases a.len(),
{
    if a.len() > 0 && b.len() > 0 && a[0] == b[0] {
        lemma_text_order_flip(a.drop_first(), b.drop_first());
    }
}

/// Row order is reversed by swapping its arguments.
pub proof fn lemma_row_order_flip<K, C, T, E>(nums: Numbers<K, C, T, E>, specs: Seq<(int, bool)>, a: Seq<Seq<char>>, b: Seq<Seq<char>>) where
    K: Fn(&str) -> Option<String>,
    C: Fn(&str, &str) -> Option<CellOrder>,
    T: Fn(&Vec<String>, Aggregate) -> String,
    E: Fn(&FormulaExpr, &Vec<(String, String)>) -> String,
    requires
        nums.wf(),
    ensures
        row_order(nums, specs, b, a) == flip(row_order(nums, specs, a, b)),
    decreases specs.len(),
{
    if specs.len() > 0 {
        let x = cell_at(a, specs[0].0);
        let y = cell_at(b, specs[0].0);
        assert(nums.order_of(x, y) == crate::numbers::flip_opt(nums.order_of(y, x)));
        lemma_text_order_flip(x, y);
        lemma_row_order_flip(nums, specs.drop_first(), a, b);
    }
}

/// The first `i` rows, reordered by `perm`, are in order under `ord` with ties in
/// input order.
#[verifier::opaque]
pub(crate) open spec fn sorted_prefix<A>(ord: spec_fn(A, A) -> CellOrder, rows: Seq<A>, perm: Seq<usize>, i: int) -> bool {
    &&& perm.len() == i
    &&& forall|a: int| 0 <= a < i ==> #[trigger] perm[a] < i
    &&& forall|a: int, b: int| 0 <= a < b < i ==> #[trigger] perm[a] != #[trigger] perm[b]
    &&& forall|a: int| 0 <= a < i - 1 ==> #[trigger] neighbours_ok(ord, rows, perm, a)
}

/// Rows `perm[a]` and `perm[a + 1]` are in order, and in input order when tied.
pub(crate) open spec fn neighbours_ok<A>(ord: spec_fn(A, A) -> CellOrder, rows: Seq<A>, perm: Seq<usize>, a: int) -> bool {
    &&& ord(rows[perm[a] as int], rows[perm[a + 1] as int]) != CellOrder::Greater
    &&& ord(rows[perm[a] as int], rows[perm[a + 1] as int]) == CellOrder::Equal ==> perm[a] < perm[a + 1]
}

/// Inserting row `i` after the last row that is not greater than it keeps the order.
pub(crate) proof fn lemma_insert_keeps_sorted<A>(ord: spec_fn(A, A) -> CellOrder, rows: Seq<A>, before: Seq<usize>, p: int, i: int)
    requires
        sorted_prefix(ord, rows, before, i),
        0 <= p <= i,
        i < rows.len(),
        i < usize::MAX,
        p > 0 ==> ord(rows[before[p - 1] as int], rows[i]) != CellOrder::Greater,
        forall|q: int| p <= q < i ==> ord(rows[#[trigger] before[q] as int], rows[i]) == CellOrder::Greater,
        p < i ==> ord(rows[i], rows[before[p] as int]) == flip(ord(rows[before[p] as int], rows[i])),
    ensures
        sorted_prefix(ord, rows, before.insert(p, i as usize), i + 1),
{
    reveal(sorted_prefix);
    let perm = before.insert(p, i as usize);
    assert forall|a: int| 0 <= a < i + 1 implies #[trigger] perm[a] < i + 1 by {
        if a < p {
            assert(perm[a] == before[a]);
        } else if a > p {
            assert(perm[a] == before[a - 1]);
        }
    }
    assert forall|a: int, b: int| 0 <= a < b < i + 1 implies #[trigger] perm[a] != #[trigger] perm[b] by {
        if a < p && b < p {
            assert(perm[a] == before[a] && perm[b] == before[b]);
        } else if a < p && b == p {
            assert(perm[a] == before[a]);
        } else if a < p && b > p {
            assert(perm[a] == before[a] && perm[b] == before[b - 1]);
        } else if a == p {
            assert(perm[b] == before[b - 1]);
        } else {
            assert(perm[a] == before[a - 1] && perm[b] == before[b - 1]);
        }
    }
    assert forall|a: int| 0 <= a < i implies #[trigger] neighbours_ok(ord, rows, perm, a) by {
        if a + 1 < p {
            assert(perm[a] == before[a] && perm[a + 1] == before[a + 1]);
            assert(neighbours_ok(ord, rows, before, a));
        } else if a + 1 == p {
            assert(perm[a] == before[a] && perm[a + 1] == i);
        } else if a == p {
            assert(perm[a] == i && perm[a + 1] == before[a]);
        } else {
            assert(perm[a] == before[a - 1] && perm[a + 1] == before[a]);
            assert(neighbours_ok(ord, rows, before, a - 1));
        }
    }
}

/// Indices of `rows` in stable sorted order.
fn sorted_indices<K, C, T, E>(nums: &Numbers<K, C, T, E>, specs: &Vec<(usize, bool)>, rows: &Vec<Vec<String>>) -> (perm: Vec<usize>) where
    K: Fn(&str) -> Option<String>,
    C: Fn(&str, &str) -> Option<CellOrder>,
    T: Fn(&Vec<String>, Aggregate) -> String,
    E: Fn(&FormulaExpr, &Vec<(String, String)>) -> String,
    requires
        nums.wf(),
    ensures
        sorted_prefix(
            |x: Seq<Seq<char>>, y: Seq<Seq<char>>| row_order(*nums, specs_view(specs@), x, y),
            rows.deep_view(),
            perm@,
            rows@.len() as int,
        ),
{
    let ghost ord = |x: Seq<Seq<char>>, y: Seq<Seq<char>>| row_order(*nums, specs_view(specs@), x, y);
    let ghost rv = rows.deep_view();
    let n = rows.len();
    let mut perm: Vec<usize> = Vec::new();
    proof {
        reveal(sorted_prefix);
    }
    let mut i: usize = 0;
    while i < n
        invariant
            i <= n,
            n == rv.len(),
            rv == rows.deep_view(),
            nums.wf(),
            ord == (|x: Seq<Seq<char>>, y: Seq<Seq<char>>| row_order(*nums, specs_view(specs@), x, y)),
            sorted_prefix(ord, rv, perm@, i as int),
        decreases n - i,
    {
        proof {
            reveal(sorted_prefix);
        }
        let mut p: usize = i;
        while p > 0 && rows_order(nums, specs, &rows[perm[p - 1]], &rows[i]) == CellOrder::Greater
            invariant
                p <= i,
                i < n,
                n == rv.len(),
                rv == rows.deep_view(),
                nums.wf(),
                ord == (|x: Seq<Seq<char>>, y: Seq<Seq<char>>| row_order(*nums, specs_view(specs@), x, y)),
                perm@.len() == i,
                forall|a: int| 0 <= a < i ==> #[trigger] perm@[a] < i,
                forall|q: int| p <= q < i ==> ord(rv[#[trigger] perm@[q] as int], rv[i as int]) == CellOrder::Greater,
            decreases p,
        {
            assert(rows@[perm@[p - 1] as int].deep_view() == rv[perm@[p - 1] as int]);
            assert(rows@[i as int].deep_view() == rv[i as int]);
            p -= 1;
        }
        let ghost before = perm@;
        proof {
            if p > 0 {
                assert(rows@[perm@[p - 1] as int].deep_view() == rv[perm@[p - 1] as int]);
                assert(rows@[i as int].deep_view() == rv[i as int]);
            }
            if p < i {
                lemma_row_order_flip(*nums, specs_view(specs@), rv[before[p as int] as int], rv[i as int]);
            }
            lemma_insert_keeps_sorted(ord, rv, before, p as int, i as int);
        }
        perm.insert(p, i);
        i += 1;
    }
    perm
}

/// `text_order` of two texts.
pub(crate) fn texts_order(a: &str, b: &str) -> (r: CellOrder)
    ensures
        r == text_order(a@, b@),
{
    let x = chars_of(a);
    let y = chars_of(b);
    assert(x@.subrange(0, x@.len() as int) =~= a@);
    assert(y@.subrange(0, y@.len() as int) =~= b@);
    let mut i: usize = 0;
    while i < x.len() && i < y.len()
        invariant
            i <= x@.len(),
            i <= y@.len(),
            text_order(a@, b@) == text_order(x@.subrange(i as int, x@.len() as int), y@.subrange(i as int, y@.len() as int)),
        decreases x@.len() - i,
    {
        let ghost xs = x@.subrange(i as int, x@.len() as int);
        let ghost ys = y@.subrange(i as int, y@.len() as int);
        assert(xs[0] == x@[i as int] && ys[0] == y@[i as int]);
        assert(xs.drop_first() =~= x@.subrange(i + 1, x@.len() as int));
        assert(ys.drop_first() =~= y@.subrange(i + 1, y@.len() as int));
        if x[i] < y[i] {
            return CellOrder::Less;
        }
        if x[i] > y[i] {
            return CellOrder::Greater;
        }
        i += 1;
    }
    if i < x.len() {
        CellOrder::Greater
    } else if i < y.len() {
        CellOrder::Less
    } else {
        CellOrder::Equal
    }
}

/// `cell_order` of two cells.
fn cells_order<K, C, T, E>(nums: &Numbers<K, C, T, E>, a: &str, b: &str) -> (r: CellOrder) where
    K: Fn(&str) -> Option<String>,
    C: Fn(&str, &str) -> Option<CellOrder>,
    T: Fn(&Vec<String>, Aggregate) -> String,
    E: Fn(&FormulaExpr, &Vec<(String, String)>) -> String,
    requires
        nums.wf(),
    ensures
        r == cell_order(*nums, a@, b@),
{
    match nums.order(a, b) {
        Some(o) => o,
        None => texts_order(a, b),
    }
}

/// `row_order` of two rows.
fn rows_order<K, C, T, E>(nums: &Numbers<K, C, T, E>, specs: &Vec<(usize, bool)>, a: &Vec<String>, b: &Vec<String>) -> (r: CellOrder) where
    K: Fn(&str) -> Option<String>,
    C: Fn(&str, &str) -> Option<CellOrder>,
    T: Fn(&Vec<String>, Aggregate) -> String,
    E: Fn(&FormulaExpr, &Vec<(String, String)>) -> String,
    requires
        nums.wf(),
    ensures
        r == row_order(*nums, specs_view(specs@), a.deep_view(), b.deep_view()),
{
    let ghost sv = specs_view(specs@);
    assert(sv.subrange(0, sv.len() as int) =~= sv);
    let mut k: usize = 0;
    while k < specs.len()
        invariant
            k <= specs@.len(),
            nums.wf(),
            sv == specs_view(specs@),
            row_order(*nums, sv, a.deep_view(), b.deep_view())
                == row_order(*nums, sv.subrange(k as int, sv.len() as int), a.deep_view(), b.deep_view()),
        decreases specs@.len() - k,
    {
        let ghost rest = sv.subrange(k as int, sv.len() as int);
        assert(rest[0] == sv[k as int]);
        assert(rest.drop_first() =~= sv.subrange(k + 1, sv.len() as int));
        let (c, desc) = specs[k];
        let o = cells_order(nums, cell_text(a, c), cell_text(b, c));
        if o != CellOrder::Equal {
            return if desc {
                match o {
                    CellOrder::Less => CellOrder::Greater,
                    CellOrder::Equal => CellOrder::Equal,
                    CellOrder::Greater => CellOrder::Less,
                }
            } else {
                o
            };
        }
        k += 1;
    }
    assert(sv.subrange(k as int, sv.len() as int).len() == 0);
    CellOrder::Equal
}

/// Sort keys as the spec sees them.
pub open spec fn specs_view(s: Seq<(usize, bool)>) -> Seq<(int, bool)> {
    s.map_values(|p: (usize, bool)| (p.0 as int, p.1))
}

/// A direction of `desc`, ignoring ASCII case.
pub(crate) fn desc_direction(d: &str) -> (r: bool)
    ensures
        r == is_desc(d@),
{
    let v = chars_of(d);
    v.len() == 4 && (v[0] == 'd' || v[0] == 'D') && (v[1] == 'e' || v[1] == 'E') && (v[2] == 's' || v[2] == 'S')
        && (v[3] == 'c' || v[3] == 'C')
}

/// What sorting `t` by `keys` gives.
pub open spec fn sort_outcome<K, C, T, E>(nums: Numbers<K, C, T, E>, t: crate::models::TableView, keys: Seq<SortKey>, res: Result<crate::models::TableView, Seq<char>>) -> bool where
    K: Fn(&str) -> Option<String>,
    C: Fn(&str, &str) -> Option<CellOrder>,
    T: Fn(&Vec<String>, Aggregate) -> String,
    E: Fn(&FormulaExpr, &Vec<(String, String)>) -> String,
 {
    match res {
        Ok(out) => {
            &&& keys.len() > 0
            &&& all_present(t.headers, key_columns(keys))
            &&& out.headers == t.headers
            &&& out.groups == t.groups
            &&& exists|p: Seq<int>| #[trigger] sorted_by(nums, sort_specs(t.headers, keys), t.rows, p, out.rows)
        },
        Err(e) => if keys.len() == 0 {
            e == "请至少选择一个排序字段"@
        } else {
            &&& !all_present(t.headers, key_columns(keys))
            &&& e == first_missing_message(t.headers, key_columns(keys))
        },
    }
}

/// Sort law: a sort with keys on present columns reorders the rows (each input row once)
/// so that each row is before or level with the next by the keys, level rows keeping
/// their input order; with no key, or a key on a missing column, it fails.
pub proof fn lemma_sort_orders<K, C, T, E>(nums: Numbers<K, C, T, E>, t: crate::models::TableView, keys: Seq<SortKey>, res: Result<crate::models::TableView, Seq<char>>) where
    K: Fn(&str) -> Option<String>,
    C: Fn(&str, &str) -> Option<CellOrder>,
    T: Fn(&Vec<String>, Aggregate) -> String,
    E: Fn(&FormulaExpr, &Vec<(String, String)>) -> String,
    requires
        sort_outcome(nums, t, keys, res),
    ensures
        res is Err <==> (keys.len() == 0 || !all_present(t.headers, key_columns(keys))),
        res matches Ok(out) ==> out.headers == t.headers && exists|p: Seq<int>| {
            &&& #[trigger] is_permutation(p, t.rows.len())
            &&& out.rows.len() == t.rows.len()
            &&& forall|k: int| 0 <= k < out.rows.len() ==> #[trigger] out.rows[k] == t.rows[p[k]]
            &&& forall|k: int| 0 <= k < out.rows.len() - 1 ==> #[trigger] row_order(nums, sort_specs(t.headers, keys), out.rows[k], out.rows[k + 1]) != CellOrder::Greater
        },
{
    if res is Ok {
        let out = res->Ok_0;
        let p = choose|p: Seq<int>| #[trigger] sorted_by(nums, sort_specs(t.headers, keys), t.rows, p, out.rows);
        assert forall|k: int| 0 <= k < out.rows.len() - 1 implies #[trigger] row_order(nums, sort_specs(t.headers, keys), out.rows[k], out.rows[k + 1]) != CellOrder::Greater by {
            assert(in_order_at(nums, sort_specs(t.headers, keys), out.rows, p, k));
        }
        assert(is_permutation(p, t.rows.len()));
    }
}

/// Cells of rows `a` and `b` under sort specs: when they compare equal on the first `k`
/// keys, the `k`-th key (reversed when descending) does not put `a` after `b`.
proof fn lemma_row_order_key<K, C, T, E>(nums: Numbers<K, C, T, E>, specs: Seq<(int, bool)>, a: Seq<Seq<char>>, b: Seq<Seq<char>>, k: int) where
    K: Fn(&str) -> Option<String>,
    C: Fn(&str, &str) -> Option<CellOrder>,
    T: Fn(&Vec<String>, Aggregate) -> String,
    E: Fn(&FormulaExpr, &Vec<(String, String)>) -> String,
    requires
        0 <= k < specs.len(),
        row_order(nums, specs, a, b) != CellOrder::Greater,
        forall|j: int| 0 <= j < k ==> cell_order(nums, cell_at(a, #[trigger] specs[j].0), cell_at(b, specs[j].0)) == CellOrder::Equal,
    ensures
        ({
            let o = cell_order(nums, cell_at(a, specs[k].0), cell_at(b, specs[k].0));
            (if specs[k].1 { flip(o) } else { o }) != CellOrder::Greater
        }),
    decreases k,
{
    if k > 0 {
        assert(cell_order(nums, cell_at(a, specs[0].0), cell_at(b, specs[0].0)) == CellOrder::Equal);
        let rest = specs.drop_first();
        assert forall|j: int| 0 <= j < k - 1 implies cell_order(nums, cell_at(a, #[trigger] rest[j].0), cell_at(b, rest[j].0)) == CellOrder::Equal by {
            assert(rest[j] == specs[j + 1]);
        }
        lemma_row_order_key(nums, rest, a, b, k - 1);
        assert(rest[k - 1] == specs[k]);
    }
}

/// Neighbouring rows `a`, `b` equal on the first `k` keys are in order on key `k`.
pub open spec fn key_in_order<K, C, T, E>(nums: Numbers<K, C, T, E>, headers: Seq<Seq<char>>, keys: Seq<SortKey>, a: Seq<Seq<char>>, b: Seq<Seq<char>>, k: int) -> bool where
    K: Fn(&str) -> Option<String>,
    C: Fn(&str, &str) -> Option<CellOrder>,
    T: Fn(&Vec<String>, Aggregate) -> String,
    E: Fn(&FormulaExpr, &Vec<(String, String)>) -> String,
 {
    (forall|j: int| 0 <= j < k ==> cell_order(nums, cell_at(a, position(headers, #[trigger] keys[j].column@)),
        cell_at(b, position(headers, keys[j].column@))) == CellOrder::Equal)
    ==> {
        let o = cell_order(nums, cell_at(a, position(headers, keys[k].column@)), cell_at(b, position(headers, keys[k].column@)));
        if is_desc(keys[k].direction@) { o != CellOrder::Less } else { o != CellOrder::Greater }
    }
}

proof fn lemma_sort_pair<K, C, T, E>(nums: Numbers<K, C, T, E>, headers: Seq<Seq<char>>, keys: Seq<SortKey>, a: Seq<Seq<char>>, b: Seq<Seq<char>>, k: int) where
    K: Fn(&str) -> Option<String>,
    C: Fn(&str, &str) -> Option<CellOrder>,
    T: Fn(&Vec<String>, Aggregate) -> String,
    E: Fn(&FormulaExpr, &Vec<(String, String)>) -> String,
    requires
        0 <= k < keys.len(),
        row_order(nums, sort_specs(headers, keys), a, b) != CellOrder::Greater,
    ensures
        key_in_order(nums, headers, keys, a, b, k),
{
    let specs = sort_specs(headers, keys);
    if forall|j: int| 0 <= j < k ==> cell_order(nums, cell_at(a, position(headers, #[trigger] keys[j].column@)),
        cell_at(b, position(headers, keys[j].column@))) == CellOrder::Equal {
        assert forall|j: int| 0 <= j < k implies cell_order(nums, cell_at(a, #[trigger] specs[j].0), cell_at(b, specs[j].0)) == CellOrder::Equal by {
            assert(specs[j] == (position(headers, keys[j].column@), is_desc(keys[j].direction@)));
            assert(cell_order(nums, cell_at(a, position(headers, keys[j].column@)), cell_at(b, position(headers, keys[j].column@))) == CellOrder::Equal);
        }
        lemma_row_order_key(nums, specs, a, b, k);
        assert(specs[k] == (position(headers, keys[k].column@), is_desc(keys[k].direction@)));
    }
}

/// Rows whose cells compare equal on every key are level under the row order.
proof fn lemma_row_order_all_equal<K, C, T, E>(nums: Numbers<K, C, T, E>, specs: Seq<(int, bool)>, a: Seq<Seq<char>>, b: Seq<Seq<char>>) where
    K: Fn(&str) -> Option<String>,
    C: Fn(&str, &str) -> Option<CellOrder>,
    T: Fn(&Vec<String>, Aggregate) -> String,
    E: Fn(&FormulaExpr, &Vec<(String, String)>) -> String,
    requires
        forall|j: int| 0 <= j < specs.len() ==> cell_order(nums, cell_at(a, #[trigger] specs[j].0), cell_at(b, specs[j].0)) == CellOrder::Equal,
    ensures
        row_order(nums, specs, a, b) == CellOrder::Equal,
    decreases specs.len(),
{
    if specs.len() > 0 {
        assert(cell_order(nums, cell_at(a, specs[0].0), cell_at(b, specs[0].0)) == CellOrder::Equal);
        let rest = specs.drop_first();
        assert forall|j: int| 0 <= j < rest.len() implies cell_order(nums, cell_at(a, #[trigger] rest[j].0), cell_at(b, rest[j].0)) == CellOrder::Equal by {
            assert(rest[j] == specs[j + 1]);
        }
        lemma_row_order_all_equal(nums, rest, a, b);
    }
}

/// Neighbours `a`, `b` of the sorted rows tie on every key (by `cell_order`).
pub open spec fn tied_on_all<K, C, T, E>(nums: Numbers<K, C, T, E>, headers: Seq<Seq<char>>, keys: Seq<SortKey>, a: Seq<Seq<char>>, b: Seq<Seq<char>>) -> bool where
    K: Fn(&str) -> Option<String>,
    C: Fn(&str, &str) -> Option<CellOrder>,
    T: Fn(&Vec<String>, Aggregate) -> String,
    E: Fn(&FormulaExpr, &Vec<(String, String)>) -> String,
 {
    forall|j: int| 0 <= j < keys.len() ==> cell_order(nums, cell_at(a, position(headers, #[trigger] keys[j].column@)),
        cell_at(b, position(headers, keys[j].column@))) == CellOrder::Equal
}

/// Sort law, stability: the sorted rows are the input rows, each once, and neighbours
/// that tie on every key keep their input order.
pub proof fn lemma_sort_stable<K, C, T, E>(nums: Numbers<K, C, T, E>, t: crate::models::TableView, keys: Seq<SortKey>, out: crate::models::TableView) where
    K: Fn(&str) -> Option<String>,
    C: Fn(&str, &str) -> Option<CellOrder>,
    T: Fn(&Vec<String>, Aggregate) -> String,
    E: Fn(&FormulaExpr, &Vec<(String, String)>) -> String,
    requires
        sort_outcome(nums, t, keys, Ok(out)),
    ensures
        exists|p: Seq<int>| {
            &&& #[trigger] is_permutation(p, t.rows.len())
            &&& out.rows.len() == t.rows.len()
            &&& forall|k: int| 0 <= k < out.rows.len() ==> #[trigger] out.rows[k] == t.rows[p[k]]
            &&& forall|k: int| 0 <= k < out.rows.len() - 1 && #[trigger] tied_on_all(nums, t.headers, keys, out.rows[k], out.rows[k + 1]) ==> p[k] < p[k + 1]
        },
{
    let specs = sort_specs(t.headers, keys);
    let p = choose|p: Seq<int>| #[trigger] sorted_by(nums, specs, t.rows, p, out.rows);
    assert forall|k: int| 0 <= k < out.rows.len() - 1 && #[trigger] tied_on_all(nums, t.headers, keys, out.rows[k], out.rows[k + 1]) implies p[k] < p[k + 1] by {
        assert(in_order_at(nums, specs, out.rows, p, k));
        assert forall|j: int| 0 <= j < specs.len() implies cell_order(nums, cell_at(out.rows[k], #[trigger] specs[j].0), cell_at(out.rows[k + 1], specs[j].0)) == CellOrder::Equal by {
            assert(specs[j] == (position(t.headers, keys[j].column@), is_desc(keys[j].direction@)));
            assert(cell_order(nums, cell_at(out.rows[k], position(t.headers, keys[j].column@)), cell_at(out.rows[k + 1], position(t.headers, keys[j].column@))) == CellOrder::Equal);
        }
        lemma_row_order_all_equal(nums, specs, out.rows[k], out.rows[k + 1]);
    }
    assert(is_permutation(p, t.rows.len()));
}

/// Sort law, key by key: in the sorted rows, when two neighbouring rows compare equal
/// (by `cell_order`) on the cells of the first `k` keys, their cells of key `k` are in
/// ascending order, or descending when that key's direction reads `desc` (see
/// `key_in_order`).
pub proof fn lemma_sort_each_key<K, C, T, E>(nums: Numbers<K, C, T, E>, t: crate::models::TableView, keys: Seq<SortKey>, out: crate::models::TableView) where
    K: Fn(&str) -> Option<String>,
    C: Fn(&str, &str) -> Option<CellOrder>,
    T: Fn(&Vec<String>, Aggregate) -> String,
    E: Fn(&FormulaExpr, &Vec<(String, String)>) -> String,
    requires
        sort_outcome(nums, t, keys, Ok(out)),
    ensures
        forall|i: int, k: int| 0 <= i < out.rows.len() - 1 && 0 <= k < keys.len()
            ==> #[trigger] key_in_order(nums, t.headers, keys, out.rows[i], out.rows[i + 1], k),
{
    let specs = sort_specs(t.headers, keys);
    let p = choose|p: Seq<int>| #[trigger] sorted_by(nums, specs, t.rows, p, out.rows);
    assert forall|i: int, k: int| 0 <= i < out.rows.len() - 1 && 0 <= k < keys.len()
        implies #[trigger] key_in_order(nums, t.headers, keys, out.rows[i], out.rows[i + 1], k) by {
        assert(in_order_at(nums, specs, out.rows, p, i));
        lemma_sort_pair(nums, t.headers, keys, out.rows[i], out.rows[i + 1], k);
    }
}

/// Sorts the rows by the keys in order (a later key breaks ties of the earlier ones),
/// each ascending unless its direction is `desc` in any ASCII case. Two cells that
/// both read as numbers compare as numbers, others by text. Rows that compare equal
/// keep their order.
pub fn apply_sort<K, C, T, E>(nums: &Numbers<K, C, T, E>, table: &DataTable, keys: &[SortKey]) -> (r: Result<DataTable, String>) where
    K: Fn(&str) -> Option<String>,
    C: Fn(&str, &str) -> Option<CellOrder>,
    T: Fn(&Vec<String>, Aggregate) -> String,
    E: Fn(&FormulaExpr, &Vec<(String, String)>) -> String,
    requires
        nums.wf(),
    ensures
        sort_outcome(*nums, table@, keys@, crate::models::table_result(r)),
{
    if keys.len() == 0 {
        return Err("请至少选择一个排序字段".to_owned());
    }
    let ghost h = table@.headers;
    let ghost names = key_columns(keys@);
    let ghost want = sort_specs(h, keys@);
    let mut specs: Vec<(usize, bool)> = Vec::new();
    let mut k: usize = 0;
    while k < keys.len()
        invariant
            k <= keys@.len(),
            h == table@.headers,
            names == key_columns(keys@),
            want == sort_specs(h, keys@),
            specs@.len() == k,
            forall|j: int| 0 <= j < k ==> crate::models::has_text(h, #[trigger] names[j]),
            forall|j: int| 0 <= j < k ==> #[trigger] specs_view(specs@)[j] == want[j],
        decreases keys@.len() - k,
    {
        match table.col_index(keys[k].column.as_str()) {
            Ok(i) => {
                proof {
                    lemma_first_at_unique(h, names[k as int], i as int);
                }
                let desc = desc_direction(keys[k].direction.as_str());
                let ghost s0 = specs@;
                specs.push((i, desc));
                proof {
                    assert(specs_view(specs@)[k as int] == want[k as int]);
                    assert forall|j: int| 0 <= j < k implies #[trigger] specs_view(specs@)[j] == want[j] by {
                        assert(specs@[j] == s0[j]);
                        assert(specs_view(s0)[j] == want[j]);
                    }
                }
            },
            Err(e) => {
                proof {
                    assert(first_missing_at(h, names, k as int));
                    lemma_first_missing_unique(h, names, k as int);
                }
                return Err(e);
            },
        }
        k += 1;
    }
    assert(specs_view(specs@) =~= want);
    let ghost rows = table@.rows;
    let n = table.rows.len();
    let perm = sorted_indices(nums, &specs, &table.rows);
    proof {
        reveal(sorted_prefix);
    }
    let mut out: Vec<Vec<String>> = Vec::new();
    let mut k: usize = 0;
    while k < n
        invariant
            k <= n,
            n == rows.len(),
            rows == table@.rows,
            perm@.len() == n,
            forall|a: int| 0 <= a < n ==> #[trigger] perm@[a] < n,
            out@.len() == k,
            forall|a: int| 0 <= a < k ==> #[trigger] out.deep_view()[a] == rows[perm@[a] as int],
        decreases n - k,
    {
        let ghost o0 = out;
        let c = copy_texts(&table.rows[perm[k]]);
        out.push(c);
        proof {
            lemma_dv_push(o0, out, c);
            assert forall|a: int| 0 <= a < k + 1 implies #[trigger] out.deep_view()[a] == rows[perm@[a] as int] by {
                if a < k {
                    assert(out.deep_view()[a] == o0.deep_view()[a]);
                }
            }
        }
        k += 1;
    }
    let ghost p = perm@.map_values(|x: usize| x as int);
    proof {
        assert(sorted_by(*nums, want, rows, p, out.deep_view())) by {
            assert forall|a: int| 0 <= a < out.deep_view().len() - 1 implies #[trigger] in_order_at(*nums, want, out.deep_view(), p, a) by {
                assert(out.deep_view()[a] == rows[perm@[a] as int]);
                assert(out.deep_view()[a + 1] == rows[perm@[a + 1] as int]);
                assert(neighbours_ok(|x: Seq<Seq<char>>, y: Seq<Seq<char>>| row_order(*nums, specs_view(specs@), x, y), rows, perm@, a));
            }
            assert forall|a: int, b: int| 0 <= a < b < p.len() implies #[trigger] p[a] != #[trigger] p[b] by {
                assert(perm@[a] != perm@[b]);
            }
        }
    }
    assert(all_present(table@.headers, key_columns(keys@)));
    assert(is_permutation(p, rows.len()));
    assert(sorted_by(*nums, sort_specs(table@.headers, keys@), table@.rows, p, out.deep_view()));
    let res = DataTable { headers: copy_texts(&table.headers), rows: out, header_groups: copy_groups(&table.header_groups) };
    assert(sorted_by(*nums, sort_specs(table@.headers, keys@), table@.rows, p, res@.rows));
    assert(exists|q: Seq<int>| #[trigger] sorted_by(*nums, sort_specs(table@.headers, keys@), table@.rows, q, res@.rows));
    assert(res@.headers == table@.headers);
    assert(res@.groups == table@.groups);
    Ok(res)
}

/// `x` inserted into `sorted` after the last text not greater than it.
pub open spec fn insert_text(sorted: Seq<Seq<char>>, x: Seq<char>) -> Seq<Seq<char>>
    decreases sorted.len(),
{
    if sorted.len() == 0 || text_order(sorted.last(), x) != CellOrder::Greater {
        sorted.push(x)
    } else {
        insert_text(sorted.drop_last(), x).push(sorted.last())
    }
}

/// Texts in code-point order (`Vec::sort` of strings).
pub open spec fn sorted_texts(xs: Seq<Seq<char>>) -> Seq<Seq<char>>
    decreases xs.len(),
{
    if xs.len() == 0 { Seq::empty() } else { insert_text(sorted_texts(xs.drop_last()), xs.last()) }
}

proof fn lemma_insert_text_keeps(sorted: Seq<Seq<char>>, x: Seq<char>)
    ensures
        insert_text(sorted, x).to_multiset() == sorted.to_multiset().insert(x),
        insert_text(sorted, x).len() == sorted.len() + 1,
    decreases sorted.len(),
{
    if sorted.len() == 0 || text_order(sorted.last(), x) != CellOrder::Greater {
        vstd::seq_lib::to_multiset_build(sorted, x);
    } else {
        let rest = sorted.drop_last();
        lemma_insert_text_keeps(rest, x);
        vstd::seq_lib::to_multiset_build(insert_text(rest, x), sorted.last());
        vstd::seq_lib::to_multiset_build(rest, sorted.last());
        assert(sorted =~= rest.push(sorted.last()));
        assert(rest.to_multiset().insert(x).insert(sorted.last()) =~= rest.to_multiset().insert(sorted.last()).insert(x));
    }
}

#[verifier::rlimit(40)]
proof fn lemma_insert_text_sorted(sorted: Seq<Seq<char>>, x: Seq<char>)
    requires
        forall|k: int| 0 <= k < sorted.len() - 1 ==> text_order(#[trigger] sorted[k], sorted[k + 1]) != CellOrder::Greater,
    ensures
        forall|k: int| 0 <= k < sorted.len() ==> text_order(#[trigger] insert_text(sorted, x)[k], insert_text(sorted, x)[k + 1]) != CellOrder::Greater,
    decreases sorted.len(),
{
    lemma_insert_text_keeps(sorted, x);
    if sorted.len() == 0 || text_order(sorted.last(), x) != CellOrder::Greater {
    } else {
        let rest = sorted.drop_last();
        lemma_insert_text_sorted(rest, x);
        lemma_insert_text_keeps(rest, x);
        let ins = insert_text(rest, x);
        lemma_text_order_flip(sorted.last(), x);
        assert forall|k: int| 0 <= k < sorted.len() implies text_order(#[trigger] insert_text(sorted, x)[k], insert_text(sorted, x)[k + 1]) != CellOrder::Greater by {
            if k < rest.len() {
                assert(insert_text(sorted, x)[k] == ins[k]);
                assert(insert_text(sorted, x)[k + 1] == ins[k + 1]);
            } else {
                assert(insert_text(sorted, x)[k + 1] == sorted.last());
                assert(insert_text(sorted, x)[k] == ins.last());
                if rest.len() > 0 {
                    assert(rest.last() == sorted[rest.len() - 1]);
                    assert(text_order(sorted[rest.len() - 1], sorted[rest.len() as int]) != CellOrder::Greater);
                }
            }
        }
    }
}

proof fn lemma_sorted_texts_keeps(xs: Seq<Seq<char>>)
    ensures
        sorted_texts(xs).to_multiset() == xs.to_multiset(),
        sorted_texts(xs).len() == xs.len(),
    decreases xs.len(),
{
    if xs.len() > 0 {
        lemma_sorted_texts_keeps(xs.drop_last());
        lemma_insert_text_keeps(sorted_texts(xs.drop_last()), xs.last());
        vstd::seq_lib::to_multiset_build(xs.drop_last(), xs.last());
        assert(xs =~= xs.drop_last().push(xs.last()));
    } else {
        assert(xs =~= Seq::<Seq<char>>::empty());
    }
}

/// Sorting texts keeps every text and puts each text before or level with the next.
pub proof fn lemma_sorted_texts(xs: Seq<Seq<char>>)
    ensures
        sorted_texts(xs).to_multiset() == xs.to_multiset(),
        sorted_texts(xs).len() == xs.len(),
        forall|k: int| 0 <= k < xs.len() - 1 ==> text_order(#[trigger] sorted_texts(xs)[k], sorted_texts(xs)[k + 1]) != CellOrder::Greater,
    decreases xs.len(),
{
    lemma_sorted_texts_keeps(xs);
    if xs.len() > 0 {
        lemma_sorted_texts(xs.drop_last());
        lemma_insert_text_sorted(sorted_texts(xs.drop_last()), xs.last());
    }
}

/// The texts in code-point order (see `sorted_texts`).
pub fn sort_texts(v: &Vec<String>) -> (r: Vec<String>)
    ensures
        r.deep_view() == sorted_texts(v.deep_view()),
{
    let ghost xv = v.deep_view();
    let mut out: Vec<String> = Vec::new();
    let mut i: usize = 0;
    while i < v.len()
        invariant
            i <= xv.len(),
            xv == v.deep_view(),
            out.deep_view() == sorted_texts(xv.take(i as int)),
        decreases xv.len() - i,
    {
        assert(xv.take(i + 1).drop_last() =~= xv.take(i as int));
        assert(xv.take(i + 1).last() == xv[i as int]);
        let x = &v[i];
        let ghost sorted = out.deep_view();
        let mut p: usize = out.len();
        assert(sorted.take(p as int) =~= sorted);
        assert(sorted.skip(p as int) =~= Seq::<Seq<char>>::empty());
        while p > 0 && texts_order(out[p - 1].as_str(), x.as_str()) == CellOrder::Greater
            invariant
                p <= out@.len(),
                sorted == out.deep_view(),
                insert_text(sorted, x@) == insert_text(sorted.take(p as int), x@) + sorted.skip(p as int),
            decreases p,
        {
            let ghost t = sorted.take(p as int);
            assert(t.last() == sorted[p - 1]);
            assert(t.drop_last() =~= sorted.take(p - 1));
            assert(sorted.skip(p - 1) =~= seq![sorted[p - 1]] + sorted.skip(p as int));
            assert(insert_text(t, x@) == insert_text(sorted.take(p - 1), x@).push(sorted[p - 1]));
            assert(insert_text(sorted.take(p - 1), x@).push(sorted[p - 1]) + sorted.skip(p as int)
                =~= insert_text(sorted.take(p - 1), x@) + sorted.skip(p - 1));
            p -= 1;
        }
        proof {
            let t = sorted.take(p as int);
            if p > 0 {
                assert(t.last() == sorted[p - 1]);
            }
            assert(insert_text(t, x@) == t.push(x@));
            assert(t.push(x@) + sorted.skip(p as int) =~= sorted.insert(p as int, x@));
        }
        let c = x.clone();
        let ghost o0 = out@;
        out.insert(p, c);
        assert(out.deep_view() =~= sorted.insert(p as int, x@)) by {
            assert forall|k: int| 0 <= k < out@.len() implies #[trigger] out.deep_view()[k] == sorted.insert(p as int, x@)[k] by {
                if k < p {
                    assert(out@[k] == o0[k]);
                } else if k > p {
                    assert(out@[k] == o0[k - 1]);
                }
            }
        }
        i += 1;
    }
    assert(xv.take(i as int) =~= xv);
    out
}

} // verus!
