//! Data model: source tables, pipelines, steps and the in-memory table.
use vstd::prelude::*;
use crate::text::{join, join_strings};

verus! {

/// One spreadsheet found in the source directory (a file, or a folder of dated files).
#[derive(Debug, Clone)]
pub struct SourceTable {
    pub id: String,
    pub name: String,
    pub path: String,
    pub headers: Vec<String>,
    pub row_count: usize,
    /// 1-based header row.
    pub header_row: usize,
    pub header_ok: bool,
    pub header_message: String,
    /// "file" | "folder"
    pub kind: String,
    pub file_count: usize,
    /// For folder sources, a sample file used for header-row mapping.
    pub sample_path: String,
}

/// Default header row of a source table.
pub fn default_header_row() -> (r: usize)
    ensures
        r == 1,
{
    1
}

pub fn default_true() -> (r: bool)
    ensures
        r,
{
    true
}

pub fn default_file_kind() -> (r: String)
    ensures
        r@ == "file"@,
{
    "file".to_owned()
}

pub fn default_asc() -> (r: String)
    ensures
        r@ == "asc"@,
{
    "asc".to_owned()
}

pub fn default_sum() -> (r: String)
    ensures
        r@ == "sum"@,
{
    "sum".to_owned()
}

/// Which column of a folder table overwrites older rows.
#[derive(Debug, Clone)]
pub struct FolderMerge {
    pub key_column: String,
}

/// A processing scheme: source/output directories and the ordered steps.
/// `header_rows` maps a file or folder path to its 1-based header row and
/// `folder_merges` maps a folder table id to its merge key; in both, the
/// first entry of a key is the one that counts.
#[derive(Debug, Clone)]
pub struct Pipeline {
    pub id: String,
    pub name: String,
    pub source_dir: String,
    pub output_dir: String,
    pub header_rows: Vec<(String, usize)>,
    pub steps: Vec<Step>,
    /// Final export sheet order & names (step_id references). Empty = derive from steps.
    pub output_sheets: Vec<OutputSheet>,
    pub folder_merges: Vec<(String, FolderMerge)>,
}

#[derive(Debug, Clone)]
pub struct OutputSheet {
    pub step_id: String,
    pub sheet_name: String,
}

#[derive(Debug, Clone)]
pub struct SchemeSummary {
    pub id: String,
    pub name: String,
    pub source_dir: String,
    pub updated_at: String,
}

#[derive(Debug, Clone)]
pub struct Step {
    pub id: String,
    pub name: String,
    pub output_table_id: String,
    pub operation: Operation,
    pub result: Option<ResultSpec>,
}

#[derive(Debug, Clone)]
pub struct ResultSpec {
    pub enabled: bool,
    pub file_key: String,
    pub sheet_name: String,
}

#[derive(Debug, Clone)]
pub struct PivotValue {
    pub field: String,
    /// "sum" | "count" | "avg"
    pub aggregation: String,
    pub alias: String,
}

#[derive(Debug, Clone)]
pub struct CalcJoin {
    pub table_id: String,
    pub base_key: String,
    pub foreign_key: String,
}

#[derive(Debug, Clone)]
pub struct SortKey {
    pub column: String,
    /// asc | desc
    pub direction: String,
}

#[derive(Debug, Clone)]
pub enum Operation {
    Filter { input_table_id: String, conditions: Vec<FilterCondition> },
    Pivot {
        input_table_id: String,
        row_fields: Vec<String>,
        value_fields: Vec<PivotValue>,
        value_field: String,
        aggregation: String,
    },
    Calculate { base_table_id: String, output_field: String, formula: String, joins: Vec<CalcJoin> },
    Sort { input_table_id: String, keys: Vec<SortKey> },
    /// Keep first row for each unique key formed by `columns` (empty = all columns).
    Dedupe { input_table_id: String, columns: Vec<String> },
    LookupSubtract {
        left_table_id: String,
        right_table_id: String,
        left_key: String,
        right_key: String,
        left_value_field: String,
        right_value_field: String,
        output_field: String,
    },
    /// Ordered columns placed left-to-right (empty `column` = spacer); legacy whole tables.
    SideBySide { columns: Vec<SideColumn>, table_ids: Vec<String> },
    /// VLOOKUP-style: match a key column between table A and B, then append columns.
    Vlookup {
        left_table_id: String,
        right_table_id: String,
        left_key: String,
        right_key: String,
        left_columns: Vec<String>,
        right_columns: Vec<String>,
    },
}

#[derive(Debug, Clone)]
pub struct SideColumn {
    pub table_id: String,
    /// Empty string = spacer / empty column
    pub column: String,
}

#[derive(Debug, Clone)]
pub struct FilterCondition {
    pub column: String,
    pub op: String,
    pub value: String,
}

#[derive(Debug, Clone)]
pub struct PreviewData {
    pub headers: Vec<String>,
    pub rows: Vec<Vec<String>>,
    pub total_rows: usize,
    /// Same meaning as DataTable.header_groups (per-column group for header color).
    pub header_groups: Vec<u32>,
}

#[derive(Debug, Clone)]
pub struct RawSheetPreview {
    pub rows: Vec<Vec<String>>,
    pub total_rows: usize,
}

#[derive(Debug, Clone)]
pub struct ExecuteResult {
    pub output_files: Vec<String>,
    pub sheet_names: Vec<String>,
    pub message: String,
}

/// A table of text cells.
#[derive(Debug, Clone)]
pub struct DataTable {
    pub headers: Vec<String>,
    pub rows: Vec<Vec<String>>,
    /// Per-column group id for header coloring (e.g. vlookup: 0=表A, 1=表B).
    /// Empty = single default header style.
    pub header_groups: Vec<u32>,
}

/// The content of a table: headers, rows of cells, header groups.
pub struct TableView {
    pub headers: Seq<Seq<char>>,
    pub rows: Seq<Seq<Seq<char>>>,
    pub groups: Seq<u32>,
}

impl View for DataTable {
    type V = TableView;

    open spec fn view(&self) -> TableView {
        TableView {
            headers: self.headers.deep_view(),
            rows: self.rows.deep_view(),
            groups: self.header_groups@,
        }
    }
}

impl Default for DataTable {
    fn default() -> (t: DataTable)
        ensures
            t@.headers.len() == 0,
            t@.rows.len() == 0,
            t@.groups.len() == 0,
    {
        DataTable { headers: Vec::new(), rows: Vec::new(), header_groups: Vec::new() }
    }
}

/// A table result as the contracts see it.
pub open spec fn table_result(r: Result<DataTable, String>) -> Result<TableView, Seq<char>> {
    match r {
        Ok(t) => Ok(t@),
        Err(e) => Err(e@),
    }
}

/// `xs` holds `x`.
pub open spec fn has_text<A>(xs: Seq<A>, x: A) -> bool {
    exists|i: int| 0 <= i < xs.len() && xs[i] == x
}

/// `i` is the first position of `x` in `xs`.
pub open spec fn first_at<A>(xs: Seq<A>, x: A, i: int) -> bool {
    &&& 0 <= i < xs.len()
    &&& xs[i] == x
    &&& forall|j: int| 0 <= j < i ==> xs[j] != x
}

/// Position of the first `x` in `xs` (meaningful when `has_text(xs, x)`).
pub open spec fn position<A>(xs: Seq<A>, x: A) -> int {
    choose|i: int| first_at(xs, x, i)
}

pub proof fn lemma_position<A>(xs: Seq<A>, x: A)
    requires
        has_text(xs, x),
    ensures
        first_at(xs, x, position(xs, x)),
{
    let k = choose|k: int| 0 <= k < xs.len() && xs[k] == x;
    lemma_first_exists(xs, x, k);
}

proof fn lemma_first_exists<A>(xs: Seq<A>, x: A, k: int)
    requires
        0 <= k < xs.len(),
        xs[k] == x,
    ensures
        exists|i: int| first_at(xs, x, i),
    decreases k,
{
    if exists|j: int| 0 <= j < k && xs[j] == x {
        let j = choose|j: int| 0 <= j < k && xs[j] == x;
        lemma_first_exists(xs, x, j);
    } else {
        assert(first_at(xs, x, k));
    }
}

pub proof fn lemma_first_at_unique<A>(xs: Seq<A>, x: A, i: int)
    requires
        first_at(xs, x, i),
    ensures
        position(xs, x) == i,
{
    lemma_position(xs, x);
    let p = position(xs, x);
    if p < i {
        assert(xs[p] == x);
    } else if p > i {
        assert(xs[i] == x);
    }
}

/// Position of the first `x` in `xs`, if any.
pub open spec fn first_of<A>(xs: Seq<A>, x: A) -> Option<int> {
    if has_text(xs, x) { Some(position(xs, x)) } else { None }
}

/// Message for a column that a table lacks.
pub open spec fn missing_column_message(headers: Seq<Seq<char>>, name: Seq<char>) -> Seq<char> {
    "列「"@ + name + "」不存在。当前表头: ["@ + join(headers, ", "@) + "]。请在该步骤重新映射/选择列。"@
}

/// First position of `name` in `xs`.
pub fn find_text(xs: &[String], name: &str) -> (r: Option<usize>)
    ensures
        match r {
            Some(i) => first_at(xs.deep_view(), name@, i as int),
            None => !has_text(xs.deep_view(), name@),
        },
{
    let target = name.to_owned();
    let mut i: usize = 0;
    while i < xs.len()
        invariant
            i <= xs@.len(),
            target@ == name@,
            forall|j: int| 0 <= j < i ==> xs.deep_view()[j] != name@,
        decreases xs@.len() - i,
    {
        if xs[i] == target {
            return Some(i);
        }
        i += 1;
    }
    None
}

/// Deep view of a vector after a push.
pub proof fn lemma_dv_push<T: DeepView>(v1: Vec<T>, v2: Vec<T>, x: T)
    requires
        v2@ == v1@.push(x),
    ensures
        v2.deep_view() == v1.deep_view().push(x.deep_view()),
{
    assert(v2.deep_view() =~= v1.deep_view().push(x.deep_view()));
}

/// A copy of a list of texts.
pub fn copy_texts(xs: &Vec<String>) -> (c: Vec<String>)
    ensures
        c@ == xs@,
        c.deep_view() == xs.deep_view(),
{
    let mut c: Vec<String> = Vec::new();
    let mut i: usize = 0;
    while i < xs.len()
        invariant
            i <= xs@.len(),
            c@ == xs@.take(i as int),
        decreases xs@.len() - i,
    {
        c.push(xs[i].clone());
        assert(c@ =~= xs@.take(i + 1));
        i += 1;
    }
    assert(c@ =~= xs@);
    assert(c.deep_view() =~= xs.deep_view());
    c
}

/// A copy of a list of rows.
pub fn copy_rows(xs: &Vec<Vec<String>>) -> (c: Vec<Vec<String>>)
    ensures
        c.deep_view() == xs.deep_view(),
{
    let mut c: Vec<Vec<String>> = Vec::new();
    let mut i: usize = 0;
    while i < xs.len()
        invariant
            i <= xs@.len(),
            c.deep_view() == xs.deep_view().take(i as int),
        decreases xs@.len() - i,
    {
        let ghost c0 = c;
        let r = copy_texts(&xs[i]);
        c.push(r);
        proof {
            lemma_dv_push(c0, c, r);
            assert(c.deep_view() =~= xs.deep_view().take(i + 1));
        }
        i += 1;
    }
    assert(c.deep_view() =~= xs.deep_view());
    c
}

/// A copy of a list of group ids.
pub fn copy_groups(xs: &Vec<u32>) -> (c: Vec<u32>)
    ensures
        c@ == xs@,
{
    let mut c: Vec<u32> = Vec::new();
    let mut i: usize = 0;
    while i < xs.len()
        invariant
            i <= xs@.len(),
            c@ == xs@.take(i as int),
        decreases xs@.len() - i,
    {
        c.push(xs[i]);
        assert(c@ =~= xs@.take(i + 1));
        i += 1;
    }
    assert(c@ =~= xs@);
    c
}

/// Appends copies of `src` to `dst`.
pub fn extend_texts(dst: &mut Vec<String>, src: &Vec<String>)
    ensures
        final(dst).deep_view() == old(dst).deep_view() + src.deep_view(),
{
    let ghost d0 = dst.deep_view();
    let mut i: usize = 0;
    while i < src.len()
        invariant
            i <= src@.len(),
            dst.deep_view() == d0 + src.deep_view().take(i as int),
        decreases src@.len() - i,
    {
        let ghost before = *dst;
        let c = src[i].clone();
        dst.push(c);
        proof {
            lemma_dv_push(before, *dst, c);
            assert(d0 + src.deep_view().take(i + 1) =~= (d0 + src.deep_view().take(i as int)).push(src.deep_view()[i as int]));
        }
        i += 1;
    }
    assert(src.deep_view().take(src@.len() as int) =~= src.deep_view());
}

/// `n` empty texts.
pub open spec fn blanks(n: nat) -> Seq<Seq<char>> {
    Seq::new(n, |i: int| Seq::<char>::empty())
}

/// Appends `n` empty texts to `dst`.
pub fn push_blanks(dst: &mut Vec<String>, n: usize)
    ensures
        final(dst).deep_view() == old(dst).deep_view() + blanks(n as nat),
{
    let ghost d0 = dst.deep_view();
    let mut i: usize = 0;
    while i < n
        invariant
            i <= n,
            dst.deep_view() == d0 + blanks(i as nat),
        decreases n - i,
    {
        let ghost before = *dst;
        let c = String::new();
        dst.push(c);
        proof {
            lemma_dv_push(before, *dst, c);
            assert(d0 + blanks((i + 1) as nat) =~= (d0 + blanks(i as nat)).push(Seq::<char>::empty()));
        }
        i += 1;
    }
}

/// Ids of a list of named tables.
pub open spec fn ids_of(ts: Seq<(String, &DataTable)>) -> Seq<Seq<char>> {
    ts.map_values(|p: (String, &DataTable)| p.0@)
}

/// The first table named `id`.
pub open spec fn table_named(ts: Seq<(String, &DataTable)>, id: Seq<char>) -> TableView {
    ts[position(ids_of(ts), id)].1@
}

/// Position of the first table named `id`.
pub fn find_named(ts: &Vec<(String, &DataTable)>, id: &str) -> (r: Option<usize>)
    ensures
        match r {
            Some(i) => first_at(ids_of(ts@), id@, i as int) && i < ts@.len(),
            None => !has_text(ids_of(ts@), id@),
        },
{
    let target = id.to_owned();
    let mut i: usize = 0;
    while i < ts.len()
        invariant
            i <= ts@.len(),
            target@ == id@,
            forall|j: int| 0 <= j < i ==> ids_of(ts@)[j] != id@,
        decreases ts@.len() - i,
    {
        if ts[i].0 == target {
            return Some(i);
        }
        i += 1;
    }
    None
}

impl DataTable {
    /// Index of the column headed `name`.
    pub fn col_index(&self, name: &str) -> (r: Result<usize, String>)
        ensures
            match r {
                Ok(i) => first_at(self@.headers, name@, i as int),
                Err(e) => !has_text(self@.headers, name@)
                    && e@ == missing_column_message(self@.headers, name@),
            },
    {
        match find_text(&self.headers, name) {
            Some(i) => Ok(i),
            None => {
                let mut e = "列「".to_owned();
                e.append(name);
                e.append("」不存在。当前表头: [");
                let joined = join_strings(&self.headers, ", ");
                e.append(joined.as_str());
                e.append("]。请在该步骤重新映射/选择列。");
                Err(e)
            },
        }
    }

    /// The first `limit` rows, with the total row count.
    pub fn preview(&self, limit: usize) -> (p: PreviewData)
        ensures
            p.headers.deep_view() == self@.headers,
            p.rows.deep_view() == self@.rows.take(
                if limit < self@.rows.len() { limit as int } else { self@.rows.len() as int },
            ),
            p.total_rows == self@.rows.len(),
            p.header_groups@ == self@.groups,
    {
        let n = if limit < self.rows.len() { limit } else { self.rows.len() };
        let mut rows: Vec<Vec<String>> = Vec::new();
        let mut i: usize = 0;
        while i < n
            invariant
                n <= self.rows@.len(),
                i <= n,
                rows.deep_view() == self@.rows.take(i as int),
            decreases n - i,
        {
            let ghost r0 = rows;
            let r = copy_texts(&self.rows[i]);
            rows.push(r);
            proof {
                lemma_dv_push(r0, rows, r);
                assert(rows.deep_view() =~= self@.rows.take(i + 1));
            }
            i += 1;
        }
        PreviewData {
            headers: copy_texts(&self.headers),
            rows,
            total_rows: self.rows.len(),
            header_groups: copy_groups(&self.header_groups),
        }
    }
}

} // verus!
