//! Scanning a source directory: its Excel files and its folders of dated files, each
//! described as a source table.
use vstd::prelude::*;
use crate::models::{has_text, lemma_dv_push, SourceTable};
use crate::folder::{date_header, files_v, FileV, header_override, header_override_for, lemma_ranked_keeps, rank_excel_files, ranked_files, RankedFile};
use crate::sheet::{meta_read, scan_sheet_meta, RawSheet};
use crate::dates::{name_date, parse_source_date};
use crate::sort::{text_order, texts_order};
use crate::numbers::CellOrder;
use crate::text::{chars_of, decimal, push_decimal, string_of_range};

verus! {

/// An entry of a directory: its path, its file name, whether it is a folder, the day it
/// was last modified (`YYYY-MM-DD` in local time, when known) and when (seconds since
/// the epoch, 0 when unknown).
pub struct FileEntry {
    pub path: String,
    pub name: String,
    pub is_dir: bool,
    pub modified: Option<String>,
    pub mtime: u64,
}

/// Position of the last `.` in `name`, or -1.
pub open spec fn last_dot(name: Seq<char>) -> int
    decreases name.len(),
{
    if name.len() == 0 {
        -1
    } else if name.last() == '.' {
        name.len() - 1
    } else {
        last_dot(name.drop_last())
    }
}

/// The extension of a file name: after its last `.`, unless that dot starts the name.
pub open spec fn extension(name: Seq<char>) -> Option<Seq<char>> {
    let d = last_dot(name);
    if d > 0 { Some(name.subrange(d + 1, name.len() as int)) } else { None }
}

/// A file name without its extension.
pub open spec fn file_stem(name: Seq<char>) -> Seq<char> {
    let d = last_dot(name);
    if d > 0 { name.subrange(0, d) } else { name }
}

/// `c` in lower case when it is an ASCII letter.
pub open spec fn ascii_lower(c: char) -> char {
    if 'A' <= c && c <= 'Z' { ((c as u32) + 32) as char } else { c }
}

/// An Excel file name: extension `xlsx`, `xlsm` or `xls` in any case.
pub open spec fn excel_name(name: Seq<char>) -> bool {
    match extension(name) {
        Some(e) => {
            let l = e.map_values(|c: char| ascii_lower(c));
            l == "xlsx"@ || l == "xlsm"@ || l == "xls"@
        },
        None => false,
    }
}

/// `last_dot` of a file name.
fn last_dot_of(v: &Vec<char>) -> (r: Option<usize>)
    ensures
        match r {
            Some(d) => last_dot(v@) == d as int && d < v@.len(),
            None => last_dot(v@) == -1,
        },
{
    let mut n: usize = v.len();
    assert(v@.take(n as int) =~= v@);
    while n > 0
        invariant
            n <= v@.len(),
            last_dot(v@) == last_dot(v@.take(n as int)),
        decreases n,
    {
        assert(v@.take(n as int).last() == v@[n - 1]);
        assert(v@.take(n as int).drop_last() =~= v@.take(n - 1));
        if v[n - 1] == '.' {
            return Some(n - 1);
        }
        n -= 1;
    }
    assert(v@.take(0) =~= Seq::<char>::empty());
    None
}

/// The stem of a file name (see `file_stem`).
pub fn stem_of(name: &str) -> (r: String)
    ensures
        r@ == file_stem(name@),
{
    let v = chars_of(name);
    match last_dot_of(&v) {
        Some(d) => if d > 0 { string_of_range(&v, 0, d) } else { name.to_owned() },
        None => name.to_owned(),
    }
}

/// Whether a file name is that of an Excel file (see `excel_name`).
pub fn is_excel(name: &str) -> (b: bool)
    ensures
        b == excel_name(name@),
{
    let v = chars_of(name);
    let d = match last_dot_of(&v) {
        Some(d) => d,
        None => return false,
    };
    if d == 0 {
        return false;
    }
    let mut l: Vec<char> = Vec::new();
    let len = v.len();
    assert(d < len);
    let mut i: usize = d + 1;
    let ghost e = v@.subrange(d + 1, v@.len() as int);
    while i < v.len()
        invariant
            d + 1 <= i <= v@.len(),
            e == v@.subrange(d + 1, v@.len() as int),
            l@ == e.map_values(|c: char| ascii_lower(c)).take(i - d - 1),
        decreases v@.len() - i,
    {
        let c = v[i];
        let x = if 'A' <= c && c <= 'Z' { (((c as u32) + 32) as u8) as char } else { c };
        l.push(x);
        assert(l@ =~= e.map_values(|c: char| ascii_lower(c)).take(i - d));
        i += 1;
    }
    assert(l@ =~= e.map_values(|c: char| ascii_lower(c)));
    let s = crate::text::string_of(l.as_slice());
    proof {
        reveal_strlit("xlsx");
        reveal_strlit("xlsm");
        reveal_strlit("xls");
    }
    crate::text::same_text(s.as_str(), "xlsx") || crate::text::same_text(s.as_str(), "xlsm") || crate::text::same_text(s.as_str(), "xls")
}

/// The date of a file of a cumulative folder: the date in its stem, else the day it was
/// last modified, else empty.
pub open spec fn entry_date(name: Seq<char>, modified: Option<Seq<char>>) -> Seq<char> {
    match name_date(file_stem(name)) {
        Some(d) => d,
        None => match modified {
            Some(t) => t,
            None => Seq::empty(),
        },
    }
}

/// An entry as the contracts see it: path, name, folder or not, modified day, time.
pub type EntryV = (Seq<char>, Seq<char>, bool, Option<Seq<char>>, u64);

/// The view of an entry.
pub open spec fn entry_v(e: FileEntry) -> EntryV {
    (e.path@, e.name@, e.is_dir, match e.modified { Some(t) => Some(t@), None => None }, e.mtime)
}

/// The Excel files among the entries of a folder, in order, with their dates.
pub open spec fn folder_files_v(es: Seq<EntryV>) -> Seq<(Seq<char>, Seq<char>, Seq<char>, u64)>
    decreases es.len(),
{
    if es.len() == 0 {
        Seq::empty()
    } else {
        let p = folder_files_v(es.drop_last());
        let e = es.last();
        if !e.2 && excel_name(e.1) { p.push((e.0, e.1, entry_date(e.1, e.3), e.4)) } else { p }
    }
}

/// The Excel files among the entries of a folder, with their dates (see `folder_files_v`).
pub fn folder_files(entries: &Vec<FileEntry>) -> (r: Vec<RankedFile>)
    ensures
        files_v(r@) == folder_files_v(entries@.map_values(|e: FileEntry| entry_v(e))),
{
    let ghost ev = entries@.map_values(|e: FileEntry| entry_v(e));
    let mut r: Vec<RankedFile> = Vec::new();
    let mut i: usize = 0;
    while i < entries.len()
        invariant
            i <= ev.len(),
            ev == entries@.map_values(|e: FileEntry| entry_v(e)),
            files_v(r@) == folder_files_v(ev.take(i as int)),
        decreases ev.len() - i,
    {
        assert(ev.take(i + 1).drop_last() =~= ev.take(i as int));
        assert(ev.take(i + 1).last() == ev[i as int]);
        let e = &entries[i];
        if !e.is_dir && is_excel(e.name.as_str()) {
            let stem = stem_of(e.name.as_str());
            let modified = match &e.modified {
                Some(t) => Some(t.clone()),
                None => None,
            };
            let date = parse_source_date(stem.as_str(), modified);
            let f = RankedFile { path: e.path.clone(), name: e.name.clone(), date, mtime: e.mtime };
            let ghost r0 = r@;
            r.push(f);
            assert(files_v(r@) =~= files_v(r0).push((f.path@, f.name@, f.date@, f.mtime)));
        }
        i += 1;
    }
    assert(ev.take(i as int) =~= ev);
    r
}

/// `r` is the source table of an Excel file named `name` at `path`, from the scan
/// `scanned` of its first sheet with header row `ov` (see `file_table`).
pub open spec fn file_table_of(path: Seq<char>, name: Seq<char>, ov: Option<usize>, scanned: Result<(Vec<String>, usize, usize), String>, r: SourceTable) -> bool {
    &&& r.id@ == "src:"@ + file_stem(name)
    &&& r.name@ == file_stem(name)
    &&& r.path@ == path
    &&& r.sample_path@ == path
    &&& r.kind@ == "file"@
    &&& r.file_count == 1
    &&& match scanned {
        Ok((hs, hr, rc)) => r.header_ok && r.headers@ == hs@ && r.header_row == hr && r.row_count == rc && r.header_message@.len() == 0,
        Err(e) => !r.header_ok && r.headers@.len() == 0 && r.row_count == 0 && r.header_message == e
            && r.header_row == match ov { Some(h) => h, None => 1 },
    }
}

/// The source table of an Excel file named `name` at `path`, from the scan of its first
/// sheet with header row `ov`: ready with the scanned headers, or not ready with the
/// scan's error.
pub fn file_table(path: &str, name: &str, ov: Option<usize>, scanned: Result<(Vec<String>, usize, usize), String>) -> (r: SourceTable)
    ensures
        file_table_of(path@, name@, ov, scanned, r),
{
    let stem = stem_of(name);
    let mut id = "src:".to_owned();
    id.append(stem.as_str());
    match scanned {
        Ok((headers, header_row, row_count)) => SourceTable {
            id,
            name: stem,
            path: path.to_owned(),
            headers,
            row_count,
            header_row,
            header_ok: true,
            header_message: String::new(),
            kind: "file".to_owned(),
            file_count: 1,
            sample_path: path.to_owned(),
        },
        Err(msg) => SourceTable {
            id,
            name: stem,
            path: path.to_owned(),
            headers: Vec::new(),
            row_count: 0,
            header_row: match ov {
                Some(h) => h,
                None => 1,
            },
            header_ok: false,
            header_message: msg,
            kind: "file".to_owned(),
            file_count: 1,
            sample_path: path.to_owned(),
        },
    }
}

/// What the scan of `sheet` with header row `ov` gives (see `scan_sheet_meta`): its
/// headers, header row and number of data rows, or why its header cannot be read.
pub open spec fn sheet_scan(sheet: RawSheet, ov: Option<usize>, r: Result<(Vec<String>, usize, usize), String>) -> bool {
    meta_read(sheet, ov, r)
}

/// `open` gave `res` for the path `path`.
pub open spec fn open_gives<F: Fn(&str) -> Result<RawSheet, String>>(open: F, path: Seq<char>, res: Result<RawSheet, String>) -> bool {
    exists|a: &str| #![trigger open.ensures((a,), res)] a@ == path && open.ensures((a,), res)
}

/// `r` is the scan of the first sheet of `path` opened with `open`: the error of
/// `open`, or the scan of the sheet it gave (see `sheet_scan`).
pub open spec fn path_scan<F: Fn(&str) -> Result<RawSheet, String>>(open: F, path: Seq<char>, ov: Option<usize>, r: Result<(Vec<String>, usize, usize), String>) -> bool {
    exists|res: Result<RawSheet, String>| #[trigger] open_gives(open, path, res) && match res {
        Ok(sheet) => sheet_scan(sheet, ov, r),
        Err(e) => r == Err::<(Vec<String>, usize, usize), String>(e),
    }
}

/// Scans the first sheet of `path` opened with `open` (see `scan_sheet_meta`): the
/// error of `open`, or the scan of the sheet it gave.
fn scan_path<F>(open: &F, path: &str, ov: Option<usize>) -> (r: Result<(Vec<String>, usize, usize), String>) where
    F: Fn(&str) -> Result<RawSheet, String>,
    requires
        forall|a: &str| #[trigger] open.requires((a,)),
    ensures
        path_scan(*open, path@, ov, r),
{
    let res = open(path);
    proof {
        assert(open_gives(*open, path@, res));
    }
    match res {
        Ok(sheet) => scan_sheet_meta(&sheet, ov),
        Err(e) => Err(e),
    }
}

/// The source table of the Excel file `entry`, scanned with the header row set for its
/// path (see `file_table`).
pub fn scan_file_table<F>(entry: &FileEntry, overrides: &Vec<(String, usize)>, open: &F) -> (r: SourceTable) where
    F: Fn(&str) -> Result<RawSheet, String>,
    requires
        forall|a: &str| #[trigger] open.requires((a,)),
    ensures
        r.id@ == "src:"@ + file_stem(entry.name@),
        r.kind@ == "file"@,
        !r.header_ok ==> r.header_row == match header_override(overrides@, entry.path@, None) { Some(h) => h, None => 1 },
        exists|sc: Result<(Vec<String>, usize, usize), String>| #[trigger] path_scan(*open, entry.path@, header_override(overrides@, entry.path@, None), sc)
            && file_table_of(entry.path@, entry.name@, header_override(overrides@, entry.path@, None), sc, r),
{
    let ov = header_override_for(overrides, entry.path.as_str(), None);
    let scanned = scan_path(open, entry.path.as_str(), ov);
    file_table(entry.path.as_str(), entry.name.as_str(), ov, scanned)
}

/// The message of a folder source whose newest file `sample` was scanned, of `count` files.
pub open spec fn folder_message(sample: Seq<char>, count: nat) -> Seq<char> {
    if count > 1 {
        "列表仅扫描最新文件「"@ + sample + "」；预览也只读该文件。执行生成时会合并全部 "@ + decimal(count) + " 个文件"@
    } else {
        Seq::empty()
    }
}

/// `r` is the source table of folder `name` at `path`, from the scan `scanned` of its
/// newest file (at `sample_path`, named `sample_name`), one of `count` files, with header
/// row `ov` (see `folder_table`).
pub open spec fn folder_table_of(
    name: Seq<char>,
    path: Seq<char>,
    sample_path: Seq<char>,
    sample_name: Seq<char>,
    count: nat,
    ov: Option<usize>,
    scanned: Result<(Vec<String>, usize, usize), String>,
    r: SourceTable,
) -> bool {
    &&& r.name@ == name
    &&& r.path@ == path
    &&& r.sample_path@ == sample_path
    &&& r.kind@ == "folder"@
    &&& r.file_count == count
    &&& match scanned {
        Ok((hs, hr, rc)) => r.header_ok && r.header_row == hr
            && r.headers.deep_view() == (if has_text(hs.deep_view(), date_header()) { hs.deep_view() } else { hs.deep_view().push(date_header()) })
            && r.row_count == (if rc * count > usize::MAX { usize::MAX as int } else { rc * count })
            && r.header_message@ == folder_message(sample_name, count),
        Err(e) => !r.header_ok && r.headers@.len() == 0 && r.row_count == 0 && r.header_message == e
            && r.header_row == match ov { Some(h) => h, None => 1 },
    }
}

/// The source table of folder `name` at `path` with id `id`, from the scan of its newest
/// file `sample` (one of `count` files) with header row `ov`: ready with the scanned
/// headers and the date column, the rows estimated as the sample's times the number of
/// files; or not ready with the scan's error.
pub fn folder_table(
    id: String,
    name: &str,
    path: &str,
    sample: &RankedFile,
    count: usize,
    ov: Option<usize>,
    scanned: Result<(Vec<String>, usize, usize), String>,
) -> (r: SourceTable)
    ensures
        r.id == id,
        folder_table_of(name@, path@, sample.path@, sample.name@, count as nat, ov, scanned, r),
{
    match scanned {
        Ok((headers, header_row, rows)) => {
            let mut headers = headers;
            let ghost h0 = headers;
            if crate::models::find_text(&headers, "来源日期").is_none() {
                let d = crate::folder::source_date_header();
                headers.push(d);
                proof {
                    lemma_dv_push(h0, headers, d);
                }
            }
            proof {
                reveal_strlit("来源日期");
            }
            let msg = if count > 1 {
                let mut m = "列表仅扫描最新文件「".to_owned();
                m.append(sample.name.as_str());
                m.append("」；预览也只读该文件。执行生成时会合并全部 ");
                push_decimal(&mut m, count);
                m.append(" 个文件");
                m
            } else {
                String::new()
            };
            let row_count = match rows.checked_mul(count) {
                Some(v) => v,
                None => usize::MAX,
            };
            SourceTable {
                id,
                name: name.to_owned(),
                path: path.to_owned(),
                headers,
                row_count,
                header_row,
                header_ok: true,
                header_message: msg,
                kind: "folder".to_owned(),
                file_count: count,
                sample_path: sample.path.clone(),
            }
        },
        Err(msg) => SourceTable {
            id,
            name: name.to_owned(),
            path: path.to_owned(),
            headers: Vec::new(),
            row_count: 0,
            header_row: match ov {
                Some(h) => h,
                None => 1,
            },
            header_ok: false,
            header_message: msg,
            kind: "folder".to_owned(),
            file_count: count,
            sample_path: sample.path.clone(),
        },
    }
}

/// `list` gave `res` for the folder `path`.
pub open spec fn list_gives<G: Fn(&str) -> Result<Vec<FileEntry>, String>>(list: G, path: Seq<char>, res: Result<Vec<FileEntry>, String>) -> bool {
    exists|a: &str| #![trigger list.ensures((a,), res)] a@ == path && list.ensures((a,), res)
}

/// `t` is described from the newest of the ranked files `ranked` of folder `entry`: its
/// first sheet opened with `open`, scanned with the header row set for it or the folder.
pub open spec fn newest_scanned<F: Fn(&str) -> Result<RawSheet, String>>(
    open: F,
    overrides: Seq<(String, usize)>,
    dir: EntryV,
    ranked: Seq<FileV>,
    t: SourceTable,
) -> bool {
    let sample = ranked.last();
    let ov = header_override(overrides, sample.0, Some(dir.0));
    exists|sc: Result<(Vec<String>, usize, usize), String>| #[trigger] path_scan(open, sample.0, ov, sc)
        && folder_table_of(dir.1, dir.0, sample.0, sample.1, ranked.len(), ov, sc, t)
}

/// The id of the source of folder `name`: `src:` and its name, with `_累计` added when
/// `used` has that id already.
pub open spec fn folder_id(used: Seq<Seq<char>>, name: Seq<char>) -> Seq<char> {
    if has_text(used, "src:"@ + name) { "src:"@ + name + "_累计"@ } else { "src:"@ + name }
}

/// `t` is the source table of folder `dir`: `list` gave its entries, with Excel files,
/// and `t` is described from the newest of them, its id made new to `used`.
pub open spec fn dir_table<G: Fn(&str) -> Result<Vec<FileEntry>, String>, F: Fn(&str) -> Result<RawSheet, String>>(
    list: G,
    open: F,
    overrides: Seq<(String, usize)>,
    dir: EntryV,
    used: Seq<Seq<char>>,
    t: SourceTable,
) -> bool {
    &&& t.id@ == folder_id(used, dir.1)
    &&& t.file_count > 0
    &&& exists|es: Vec<FileEntry>| #[trigger] list_gives(list, dir.0, Ok(es))
        && folder_files_v(es@.map_values(|e: FileEntry| entry_v(e))).len() == t.file_count
        && newest_scanned(open, overrides, dir, ranked_files(folder_files_v(es@.map_values(|e: FileEntry| entry_v(e)))), t)
}

/// `list` gave folder `dir` entries with no Excel file.
pub open spec fn dir_empty<G: Fn(&str) -> Result<Vec<FileEntry>, String>>(list: G, dir: EntryV) -> bool {
    exists|es: Vec<FileEntry>| #[trigger] list_gives(list, dir.0, Ok(es))
        && folder_files_v(es@.map_values(|e: FileEntry| entry_v(e))).len() == 0
}

/// `t` is the source table of Excel file `f`: its first sheet opened with `open`,
/// scanned with the header row set for its path.
pub open spec fn file_source<F: Fn(&str) -> Result<RawSheet, String>>(open: F, overrides: Seq<(String, usize)>, f: EntryV, t: SourceTable) -> bool {
    exists|sc: Result<(Vec<String>, usize, usize), String>| #[trigger] path_scan(open, f.0, header_override(overrides, f.0, None), sc)
        && file_table_of(f.0, f.1, header_override(overrides, f.0, None), sc, t)
}

/// Ids of source tables.
pub open spec fn table_ids(ts: Seq<SourceTable>) -> Seq<Seq<char>> {
    ts.map_values(|t: SourceTable| t.id@)
}

/// `ts`, from position `n` on, are the tables of the folders `dirs` picked (in order) at
/// `pick`, each with an id new to the tables before it; the folders before `upto` not
/// picked have no Excel file.
pub open spec fn folder_tables<G: Fn(&str) -> Result<Vec<FileEntry>, String>, F: Fn(&str) -> Result<RawSheet, String>>(
    list: G,
    open: F,
    overrides: Seq<(String, usize)>,
    dirs: Seq<EntryV>,
    ts: Seq<SourceTable>,
    n: int,
    pick: Seq<int>,
    upto: int,
) -> bool {
    &&& 0 <= n <= ts.len()
    &&& pick.len() == ts.len() - n
    &&& forall|q: int| 0 <= q < pick.len() ==> 0 <= #[trigger] pick[q] < dirs.len()
    &&& forall|q1: int, q2: int| 0 <= q1 < q2 < pick.len() ==> #[trigger] pick[q1] < #[trigger] pick[q2]
    &&& forall|q: int| 0 <= q < pick.len() ==> dir_table(list, open, overrides, dirs[pick[q]], table_ids(ts.take(n + q)), #[trigger] ts[n + q])
    &&& forall|j: int| 0 <= j < upto && j < dirs.len() && !pick.contains(j) ==> dir_empty(list, #[trigger] dirs[j])
}

/// The source table of folder `entry` whose entries `list` gives, or `None` when it has
/// no Excel file: its id is `src:` and its name, with `_累计` added when `used` has that
/// id already; it is described from its newest file (see `rank_excel_files`,
/// `folder_table`), scanned with the header row set for that file or the folder.
pub fn scan_folder_table<G, F>(entry: &FileEntry, overrides: &Vec<(String, usize)>, used: &Vec<String>, list: &G, open: &F) -> (r: Result<Option<SourceTable>, String>) where
    G: Fn(&str) -> Result<Vec<FileEntry>, String>,
    F: Fn(&str) -> Result<RawSheet, String>,
    requires
        forall|a: &str| #[trigger] list.requires((a,)),
        forall|a: &str| #[trigger] open.requires((a,)),
    ensures
        r matches Ok(Some(t)) ==> t.kind@ == "folder"@ && t.name@ == entry.name@ && t.path@ == entry.path@,
        match r {
            Err(e) => list_gives(*list, entry.path@, Err(e)),
            Ok(None) => dir_empty(*list, entry_v(*entry)),
            Ok(Some(t)) => dir_table(*list, *open, overrides@, entry_v(*entry), used.deep_view(), t),
        },
{
    let res = list(entry.path.as_str());
    proof {
        assert(list_gives(*list, entry.path@, res));
    }
    let entries = match res {
        Ok(es) => es,
        Err(e) => return Err(e),
    };
    proof {
        assert(entry_v(*entry).0 == entry.path@);
        assert(list_gives(*list, entry_v(*entry).0, Ok(entries)));
    }
    let files = folder_files(&entries);
    if files.len() == 0 {
        return Ok(None);
    }
    let mut id = "src:".to_owned();
    id.append(entry.name.as_str());
    if crate::models::find_text(used, id.as_str()).is_some() {
        id.append("_累计");
    }
    let ranked = rank_excel_files(&files);
    proof {
        lemma_ranked_keeps(files_v(files@));
    }
    let count = ranked.len();
    let sample = &ranked[count - 1];
    let ov = header_override_for(overrides, sample.path.as_str(), Some(entry.path.as_str()));
    let scanned = scan_path(open, sample.path.as_str(), ov);
    Ok(Some(folder_table(id, entry.name.as_str(), entry.path.as_str(), sample, count, ov, scanned)))
}

/// `x` inserted into `sorted` after the last entry whose path is not greater.
pub open spec fn insert_entry_by_path(sorted: Seq<EntryV>, x: EntryV) -> Seq<EntryV>
    decreases sorted.len(),
{
    if sorted.len() == 0 || text_order(sorted.last().0, x.0) != CellOrder::Greater {
        sorted.push(x)
    } else {
        insert_entry_by_path(sorted.drop_last(), x).push(sorted.last())
    }
}

/// Entries ordered by path.
pub open spec fn by_path(es: Seq<EntryV>) -> Seq<EntryV>
    decreases es.len(),
{
    if es.len() == 0 { Seq::empty() } else { insert_entry_by_path(by_path(es.drop_last()), es.last()) }
}

/// Entries of the source directory that are scanned: not hidden (a name starting with
/// `.`), and folders or Excel files.
pub open spec fn visible(es: Seq<EntryV>, dirs: bool) -> Seq<EntryV>
    decreases es.len(),
{
    if es.len() == 0 {
        Seq::empty()
    } else {
        let p = visible(es.drop_last(), dirs);
        let e = es.last();
        let hidden = e.1.len() > 0 && e.1[0] == '.';
        if !hidden && (if dirs { e.2 } else { !e.2 && excel_name(e.1) }) { p.push(e) } else { p }
    }
}

/// A copy of an entry.
fn copy_entry(e: &FileEntry) -> (r: FileEntry)
    ensures
        entry_v(r) == entry_v(*e),
{
    FileEntry {
        path: e.path.clone(),
        name: e.name.clone(),
        is_dir: e.is_dir,
        modified: match &e.modified {
            Some(t) => Some(t.clone()),
            None => None,
        },
        mtime: e.mtime,
    }
}

/// The entries to scan, folders or Excel files, ordered by path.
fn sorted_entries(entries: &Vec<FileEntry>, dirs: bool) -> (r: Vec<FileEntry>)
    ensures
        r@.map_values(|e: FileEntry| entry_v(e)) == by_path(visible(entries@.map_values(|e: FileEntry| entry_v(e)), dirs)),
{
    let ghost ev = entries@.map_values(|e: FileEntry| entry_v(e));
    let mut picked: Vec<FileEntry> = Vec::new();
    let mut i: usize = 0;
    while i < entries.len()
        invariant
            i <= ev.len(),
            ev == entries@.map_values(|e: FileEntry| entry_v(e)),
            picked@.map_values(|e: FileEntry| entry_v(e)) == visible(ev.take(i as int), dirs),
        decreases ev.len() - i,
    {
        assert(ev.take(i + 1).drop_last() =~= ev.take(i as int));
        assert(ev.take(i + 1).last() == ev[i as int]);
        let e = &entries[i];
        let v = chars_of(e.name.as_str());
        let hidden = v.len() > 0 && v[0] == '.';
        let keep = if dirs { e.is_dir } else { !e.is_dir && is_excel(e.name.as_str()) };
        if !hidden && keep {
            let c = copy_entry(e);
            let ghost p0 = picked@;
            picked.push(c);
            assert(picked@.map_values(|e: FileEntry| entry_v(e)) =~= p0.map_values(|e: FileEntry| entry_v(e)).push(entry_v(c)));
        }
        i += 1;
    }
    assert(ev.take(i as int) =~= ev);
    let ghost pv = picked@.map_values(|e: FileEntry| entry_v(e));
    let mut out: Vec<FileEntry> = Vec::new();
    let mut i: usize = 0;
    while i < picked.len()
        invariant
            i <= pv.len(),
            pv == picked@.map_values(|e: FileEntry| entry_v(e)),
            out@.map_values(|e: FileEntry| entry_v(e)) == by_path(pv.take(i as int)),
        decreases pv.len() - i,
    {
        assert(pv.take(i + 1).drop_last() =~= pv.take(i as int));
        assert(pv.take(i + 1).last() == pv[i as int]);
        let x = &picked[i];
        let ghost sorted = out@.map_values(|e: FileEntry| entry_v(e));
        let ghost xv = entry_v(*x);
        let mut p: usize = out.len();
        assert(sorted.take(p as int) =~= sorted);
        assert(sorted.skip(p as int) =~= Seq::<EntryV>::empty());
        while p > 0 && texts_order(out[p - 1].path.as_str(), x.path.as_str()) == CellOrder::Greater
            invariant
                p <= out@.len(),
                sorted == out@.map_values(|e: FileEntry| entry_v(e)),
                xv == entry_v(*x),
                insert_entry_by_path(sorted, xv) == insert_entry_by_path(sorted.take(p as int), xv) + sorted.skip(p as int),
            decreases p,
        {
            let ghost t = sorted.take(p as int);
            assert(t.last() == sorted[p - 1]);
            assert(t.drop_last() =~= sorted.take(p - 1));
            assert(sorted.skip(p - 1) =~= seq![sorted[p - 1]] + sorted.skip(p as int));
            assert(insert_entry_by_path(t, xv) == insert_entry_by_path(sorted.take(p - 1), xv).push(sorted[p - 1]));
            assert(insert_entry_by_path(sorted.take(p - 1), xv).push(sorted[p - 1]) + sorted.skip(p as int)
                =~= insert_entry_by_path(sorted.take(p - 1), xv) + sorted.skip(p - 1));
            p -= 1;
        }
        proof {
            let t = sorted.take(p as int);
            if p > 0 {
                assert(t.last() == sorted[p - 1]);
            }
            assert(insert_entry_by_path(t, xv) == t.push(xv));
            assert(t.push(xv) + sorted.skip(p as int) =~= sorted.insert(p as int, xv));
        }
        let c = copy_entry(x);
        out.insert(p, c);
        assert(out@.map_values(|e: FileEntry| entry_v(e)) =~= sorted.insert(p as int, xv));
        i += 1;
    }
    assert(pv.take(i as int) =~= pv);
    out
}

/// Scans a source directory with entries `entries`: one source table per Excel file, in
/// path order (see `scan_file_table`), then one per folder with Excel files, in path
/// order (see `scan_folder_table`); hidden entries (a name starting with `.`) are left
/// out. `list` gives the entries of a folder and `open` the first sheet of a file.
pub fn scan_directory<G, F>(entries: &Vec<FileEntry>, overrides: &Vec<(String, usize)>, list: &G, open: &F) -> (r: Result<Vec<SourceTable>, String>) where
    G: Fn(&str) -> Result<Vec<FileEntry>, String>,
    F: Fn(&str) -> Result<RawSheet, String>,
    requires
        forall|a: &str| #[trigger] list.requires((a,)),
        forall|a: &str| #[trigger] open.requires((a,)),
    ensures
        r matches Ok(ts) ==> {
            let files = by_path(visible(entries@.map_values(|e: FileEntry| entry_v(e)), false));
            let dirs = by_path(visible(entries@.map_values(|e: FileEntry| entry_v(e)), true));
            &&& files.len() <= ts@.len()
            &&& forall|k: int| 0 <= k < files.len() ==> (#[trigger] ts@[k]).id@ == "src:"@ + file_stem(files[k].1) && ts@[k].kind@ == "file"@
            &&& forall|k: int| 0 <= k < files.len() ==> file_source(*open, overrides@, files[k], #[trigger] ts@[k])
            &&& forall|k: int| files.len() <= k < ts@.len() ==> (#[trigger] ts@[k]).kind@ == "folder"@
            &&& exists|pick: Seq<int>| #[trigger] folder_tables(*list, *open, overrides@, dirs, ts@, files.len() as int, pick, dirs.len() as int)
        },
        r matches Err(msg) ==> {
            let dirs = by_path(visible(entries@.map_values(|e: FileEntry| entry_v(e)), true));
            exists|k: int| 0 <= k < dirs.len() && #[trigger] list_gives(*list, dirs[k].0, Err(msg))
        },
{
    let files = sorted_entries(entries, false);
    let dirs = sorted_entries(entries, true);
    let ghost fv = files@.map_values(|e: FileEntry| entry_v(e));
    let mut tables: Vec<SourceTable> = Vec::new();
    let mut used: Vec<String> = Vec::new();
    let mut i: usize = 0;
    while i < files.len()
        invariant
            i <= fv.len(),
            fv == files@.map_values(|e: FileEntry| entry_v(e)),
            forall|a: &str| #[trigger] open.requires((a,)),
            tables@.len() == i,
            used.deep_view() == table_ids(tables@),
            forall|k: int| 0 <= k < i ==> (#[trigger] tables@[k]).id@ == "src:"@ + file_stem(fv[k].1) && tables@[k].kind@ == "file"@,
            forall|k: int| 0 <= k < i ==> file_source(*open, overrides@, fv[k], #[trigger] tables@[k]),
        decreases fv.len() - i,
    {
        let t = scan_file_table(&files[i], overrides, open);
        proof {
            assert(fv[i as int] == entry_v(files@[i as int]));
        }
        let ghost u0 = used;
        let x = t.id.clone();
        used.push(x);
        let ghost t0 = tables@;
        tables.push(t);
        proof {
            lemma_dv_push(u0, used, x);
            assert(table_ids(tables@) =~= table_ids(t0).push(t.id@));
        }
        assert(forall|k: int| 0 <= k < i ==> tables@[k] == t0[k]);
        i += 1;
    }
    let ghost n = tables@.len();
    let ghost dv = dirs@.map_values(|e: FileEntry| entry_v(e));
    let ghost mut pick: Seq<int> = Seq::empty();
    assert(tables@.len() - n == 0);
    let mut j: usize = 0;
    while j < dirs.len()
        invariant
            j <= dirs@.len(),
            dirs@.map_values(|e: FileEntry| entry_v(e)) == by_path(visible(entries@.map_values(|e: FileEntry| entry_v(e)), true)),
            fv == files@.map_values(|e: FileEntry| entry_v(e)),
            n == fv.len(),
            n <= tables@.len(),
            forall|a: &str| #[trigger] list.requires((a,)),
            forall|a: &str| #[trigger] open.requires((a,)),
            forall|k: int| 0 <= k < n ==> (#[trigger] tables@[k]).id@ == "src:"@ + file_stem(fv[k].1) && tables@[k].kind@ == "file"@,
            forall|k: int| n <= k < tables@.len() ==> (#[trigger] tables@[k]).kind@ == "folder"@,
            forall|k: int| 0 <= k < n ==> file_source(*open, overrides@, fv[k], #[trigger] tables@[k]),
            used.deep_view() == table_ids(tables@),
            dv == by_path(visible(entries@.map_values(|e: FileEntry| entry_v(e)), true)),
            folder_tables(*list, *open, overrides@, dv, tables@, n as int, pick, j as int),
            forall|q: int| 0 <= q < pick.len() ==> #[trigger] pick[q] < j,
            forall|j2: int| j <= j2 < dv.len() ==> !pick.contains(j2),
        decreases dirs@.len() - j,
    {
        let sr = scan_folder_table(&dirs[j], overrides, &used, list, open);
        proof {
            assert(dv[j as int] == entry_v(dirs@[j as int]));
        }
        match sr {
            Ok(Some(t)) => {
                let x = t.id.clone();
                let ghost u0 = used;
                used.push(x);
                let ghost t0 = tables@;
                tables.push(t);
                proof {
                    lemma_dv_push(u0, used, x);
                    assert(table_ids(tables@) =~= table_ids(t0).push(t.id@));
                    assert(tables@.take(t0.len() as int) =~= t0);
                    let p0 = pick;
                    pick = pick.push(j as int);
                    assert forall|q: int| 0 <= q < pick.len() implies dir_table(*list, *open, overrides@, dv[pick[q]], table_ids(tables@.take(n + q)), #[trigger] tables@[n + q]) by {
                        if q < p0.len() {
                            assert(tables@.take(n + q) =~= t0.take(n + q));
                            assert(tables@[n + q] == t0[n + q]);
                        }
                    }
                    assert forall|j2: int| 0 <= j2 < j + 1 && j2 < dv.len() && !pick.contains(j2) implies dir_empty(*list, #[trigger] dv[j2]) by {
                        if j2 == j {
                            assert(pick[p0.len() as int] == j);
                        }
                        assert(!p0.contains(j2)) by {
                            if p0.contains(j2) {
                                let q = choose|q: int| 0 <= q < p0.len() && p0[q] == j2;
                                assert(pick[q] == j2);
                            }
                        }
                    }
                    assert forall|j2: int| j + 1 <= j2 < dv.len() implies !pick.contains(j2) by {
                        if pick.contains(j2) {
                            let q = choose|q: int| 0 <= q < pick.len() && pick[q] == j2;
                            if q < p0.len() {
                                assert(p0[q] == j2);
                            }
                        }
                    }
                }
                assert(forall|k: int| 0 <= k < t0.len() ==> tables@[k] == t0[k]);
            },
            Ok(None) => {
                proof {
                    assert forall|j2: int| 0 <= j2 < j + 1 && j2 < dv.len() && !pick.contains(j2) implies dir_empty(*list, #[trigger] dv[j2]) by {
                    }
                }
            },
            Err(e) => {
                let rr: Result<Vec<SourceTable>, String> = Err(e);
                proof {
                    let dv = by_path(visible(entries@.map_values(|e: FileEntry| entry_v(e)), true));
                    assert(dirs@.map_values(|e: FileEntry| entry_v(e))[j as int].0 == dirs@[j as int].path@);
                    assert(list_gives(*list, dv[j as int].0, Err(rr->Err_0)));
                }
                return rr;
            },
        }
        j += 1;
    }
    proof {
        assert(folder_tables(*list, *open, overrides@, dv, tables@, n as int, pick, dv.len() as int));
    }
    Ok(tables)
}

} // verus!
