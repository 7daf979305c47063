//! Reading the first sheet of a workbook: finding its header row and its data rows.
use vstd::prelude::*;
use crate::models::{DataTable, TableView};
use crate::excel_io::cell_at;
use crate::text::{blank, decimal, is_blank, push_decimal};

verus! {

/// A cell of a sheet: its text, and whether its trimmed text reads as a number.
pub struct RawCell {
    pub text: String,
    pub number: bool,
}

/// The first sheet of a workbook: the path of the file (for messages) and its rows.
pub struct RawSheet {
    pub path: String,
    pub rows: Vec<Vec<RawCell>>,
}

/// A row of cells as the contracts see it.
pub open spec fn cells_v(cells: Seq<RawCell>) -> Seq<(Seq<char>, bool)> {
    cells.map_values(|c: RawCell| (c.text@, c.number))
}

/// Texts of a row of cells.
pub open spec fn texts_v(cells: Seq<RawCell>) -> Seq<Seq<char>> {
    cells.map_values(|c: RawCell| c.text@)
}

/// Rows of a sheet as the contracts see them.
pub open spec fn sheet_cells(sheet: RawSheet) -> Seq<Seq<(Seq<char>, bool)>> {
    sheet.rows@.map_values(|r: Vec<RawCell>| cells_v(r@))
}

/// Texts of the rows of a sheet.
pub open spec fn sheet_texts(sheet: RawSheet) -> Seq<Seq<Seq<char>>> {
    sheet.rows@.map_values(|r: Vec<RawCell>| texts_v(r@))
}

/// Number of non-blank cells.
pub open spec fn nonblank_count(cells: Seq<(Seq<char>, bool)>) -> nat
    decreases cells.len(),
{
    if cells.len() == 0 {
        0
    } else {
        nonblank_count(cells.drop_last()) + if is_blank(cells.last().0) { 0nat } else { 1nat }
    }
}

/// Number of non-blank cells that do not read as numbers.
pub open spec fn textish_count(cells: Seq<(Seq<char>, bool)>) -> nat
    decreases cells.len(),
{
    if cells.len() == 0 {
        0
    } else {
        textish_count(cells.drop_last()) + if is_blank(cells.last().0) || cells.last().1 { 0nat } else { 1nat }
    }
}

/// A row looks like a header: it has a non-blank cell, and at least half of its
/// non-blank cells are not numbers.
pub open spec fn header_like(cells: Seq<(Seq<char>, bool)>) -> bool {
    nonblank_count(cells) > 0 && 2 * textish_count(cells) >= nonblank_count(cells)
}

/// The first of rows `i..` with a non-blank cell.
pub open spec fn first_nonblank_row(rows: Seq<Seq<(Seq<char>, bool)>>, i: int) -> Option<int>
    decreases rows.len() - i,
{
    if i < 0 || i >= rows.len() {
        None
    } else if nonblank_count(rows[i]) > 0 {
        Some(i)
    } else {
        first_nonblank_row(rows, i + 1)
    }
}

/// The 1-based header row found among `rows`: the first row with a non-blank cell.
pub open spec fn detected_header(rows: Seq<Seq<(Seq<char>, bool)>>) -> Option<int> {
    match first_nonblank_row(rows, 0) {
        Some(i) => Some(i + 1),
        None => None,
    }
}

/// One past the last non-blank cell of `cells`, or 0.
pub open spec fn used_width(cells: Seq<(Seq<char>, bool)>) -> nat
    decreases cells.len(),
{
    if cells.len() == 0 {
        0
    } else if !is_blank(cells.last().0) {
        cells.len()
    } else {
        used_width(cells.drop_last())
    }
}

/// What finding the header gives: the headers, the 1-based header row and the index of
/// the first data row; or the error.
pub open spec fn header_result(sheet: RawSheet, header_row: Option<usize>) -> Result<(Seq<Seq<char>>, nat, nat), Seq<char>> {
    let rows = sheet_cells(sheet);
    let h = rows.len();
    let path = sheet.path@;
    if h == 0 {
        Err("空表: "@ + path)
    } else {
        let chosen: Result<nat, Seq<char>> = match header_row {
            Some(r) => if 1 <= r <= h {
                Ok(r as nat)
            } else {
                Err("表头行 "@ + decimal(r as nat) + " 超出范围（共 "@ + decimal(h) + " 行）: "@ + path)
            },
            None => Ok(match detected_header(rows) {
                Some(i) => i as nat,
                None => 1nat,
            }),
        };
        match chosen {
            Err(e) => Err(e),
            Ok(c) => {
                let cells = rows[c - 1];
                let hs = cells.take(used_width(cells) as int);
                if hs.len() == 0 || (header_row is None && !header_like(hs)) {
                    Err("未识别到有效表头（当前尝试第 "@ + decimal(c) + " 行）。请手动指定表头行: "@ + path)
                } else {
                    Ok((hs.map_values(|x: (Seq<char>, bool)| x.0), c, c))
                }
            },
        }
    }
}

/// A row cut or padded to `w` cells.
pub open spec fn fit_row(row: Seq<Seq<char>>, w: nat) -> Seq<Seq<char>> {
    Seq::new(w, |i: int| cell_at(row, i))
}

/// Every cell of `row` is blank.
pub open spec fn all_blank(row: Seq<Seq<char>>) -> bool {
    forall|i: int| 0 <= i < row.len() ==> is_blank(#[trigger] row[i])
}

/// The rows fitted to `w` cells, the all-blank ones left out.
pub open spec fn kept_rows(rows: Seq<Seq<Seq<char>>>, w: nat) -> Seq<Seq<Seq<char>>>
    decreases rows.len(),
{
    if rows.len() == 0 {
        Seq::empty()
    } else {
        let p = kept_rows(rows.drop_last(), w);
        let f = fit_row(rows.last(), w);
        if all_blank(f) { p } else { p.push(f) }
    }
}

/// The data rows of a sheet whose header is `hs` and whose data start at row `start`.
pub open spec fn data_rows(sheet: RawSheet, start: nat, w: nat) -> Seq<Seq<Seq<char>>> {
    let t = sheet_texts(sheet);
    kept_rows(t.subrange(start as int, t.len() as int), w)
}

/// Counts the non-blank cells of `cells` (see `nonblank_count`, `textish_count`).
fn counts(cells: &Vec<RawCell>) -> (r: (usize, usize))
    ensures
        r.0 == nonblank_count(cells_v(cells@)),
        r.1 == textish_count(cells_v(cells@)),
        r.1 <= r.0,
{
    let ghost cv = cells_v(cells@);
    let mut n: usize = 0;
    let mut t: usize = 0;
    let mut i: usize = 0;
    while i < cells.len()
        invariant
            i <= cv.len(),
            cv == cells_v(cells@),
            n == nonblank_count(cv.take(i as int)),
            t == textish_count(cv.take(i as int)),
            t <= n <= i,
        decreases cv.len() - i,
    {
        assert(cv.take(i + 1).drop_last() =~= cv.take(i as int));
        assert(cv.take(i + 1).last() == cv[i as int]);
        if !blank(cells[i].text.as_str()) {
            n += 1;
            if !cells[i].number {
                t += 1;
            }
        }
        i += 1;
    }
    assert(cv.take(i as int) =~= cv);
    (n, t)
}

/// Whether a row looks like a header (see `header_like`).
pub fn looks_like_header(cells: &Vec<RawCell>) -> (b: bool)
    ensures
        b == header_like(cells_v(cells@)),
{
    let (n, t) = counts(cells);
    n > 0 && t >= n - t
}

/// Whether a cell is blank.
pub fn cell_is_blank(cell: &RawCell) -> (b: bool)
    ensures
        b == is_blank(cell.text@),
{
    blank(cell.text.as_str())
}

/// The 1-based header row found among `rows` (see `detected_header`).
pub fn detect_header_row(rows: &Vec<Vec<RawCell>>) -> (r: Option<usize>)
    ensures
        match r {
            Some(i) => detected_header(rows@.map_values(|x: Vec<RawCell>| cells_v(x@))) == Some(i as int),
            None => detected_header(rows@.map_values(|x: Vec<RawCell>| cells_v(x@))) is None,
        },
{
    let ghost rv = rows@.map_values(|x: Vec<RawCell>| cells_v(x@));
    let mut j: usize = 0;
    while j < rows.len()
        invariant
            j <= rv.len(),
            rv == rows@.map_values(|x: Vec<RawCell>| cells_v(x@)),
            first_nonblank_row(rv, 0) == first_nonblank_row(rv, j as int),
        decreases rv.len() - j,
    {
        let (n, _t) = counts(&rows[j]);
        if n > 0 {
            return Some(j + 1);
        }
        j += 1;
    }
    None
}

/// Texts of a row of cells.
fn texts_of(cells: &Vec<RawCell>, w: usize) -> (r: Vec<String>)
    requires
        w <= cells@.len(),
    ensures
        r.deep_view() == texts_v(cells@).take(w as int),
{
    let mut r: Vec<String> = Vec::new();
    let mut i: usize = 0;
    while i < w
        invariant
            i <= w <= cells@.len(),
            r.deep_view() == texts_v(cells@).take(i as int),
        decreases w - i,
    {
        let ghost r0 = r;
        let c = cells[i].text.clone();
        r.push(c);
        proof {
            crate::models::lemma_dv_push(r0, r, c);
            assert(r.deep_view() =~= texts_v(cells@).take(i + 1));
        }
        i += 1;
    }
    r
}

/// One past the last non-blank cell (see `used_width`).
fn used_width_of(cells: &Vec<RawCell>) -> (r: usize)
    ensures
        r == used_width(cells_v(cells@)),
        r <= cells@.len(),
{
    let ghost cv = cells_v(cells@);
    let mut n: usize = cells.len();
    assert(cv.take(n as int) =~= cv);
    while n > 0
        invariant
            n <= cv.len(),
            cv == cells_v(cells@),
            used_width(cv) == used_width(cv.take(n as int)),
        decreases n,
    {
        assert(cv.take(n as int).last() == cv[n - 1]);
        assert(cv.take(n as int).drop_last() =~= cv.take(n - 1));
        if !blank(cells[n - 1].text.as_str()) {
            return n;
        }
        n -= 1;
    }
    assert(cv.take(0) =~= Seq::<(Seq<char>, bool)>::empty());
    0
}

/// The headers, the 1-based header row and the index of the first data row of a sheet
/// (see `header_result`): the given header row, or else the first non-empty row.
pub fn resolve_headers_from_range(sheet: &RawSheet, header_row: Option<usize>) -> (r: Result<(Vec<String>, usize, usize), String>)
    ensures
        match r {
            Ok((hs, c, s)) => header_result(*sheet, header_row) == Ok::<(Seq<Seq<char>>, nat, nat), Seq<char>>((hs.deep_view(), c as nat, s as nat)),
            Err(e) => header_result(*sheet, header_row) == Err::<(Seq<Seq<char>>, nat, nat), Seq<char>>(e@),
        },
{
    let ghost rows = sheet_cells(*sheet);
    let h = sheet.rows.len();
    if h == 0 {
        let mut e = "空表: ".to_owned();
        e.append(sheet.path.as_str());
        return Err(e);
    }
    let chosen = match header_row {
        Some(r) => {
            if 1 <= r && r <= h {
                r
            } else {
                let mut e = "表头行 ".to_owned();
                push_decimal(&mut e, r);
                e.append(" 超出范围（共 ");
                push_decimal(&mut e, h);
                e.append(" 行）: ");
                e.append(sheet.path.as_str());
                return Err(e);
            }
        },
        None => {
            match detect_header_row(&sheet.rows) {
                Some(c) => {
                    proof {
                        lemma_detected_in_range(rows);
                    }
                    c
                },
                None => 1,
            }
        },
    };
    let cells = &sheet.rows[chosen - 1];
    let w = used_width_of(cells);
    let hs = texts_of(cells, w);
    let forced = header_row.is_some();
    let ghost cv = cells_v(cells@);
    assert(cv.take(w as int).map_values(|x: (Seq<char>, bool)| x.0) =~= texts_v(cells@).take(w as int));
    let like = if w == 0 { false } else { looks_like_header_upto(cells, w) };
    if w == 0 || (!forced && !like) {
        let mut e = "未识别到有效表头（当前尝试第 ".to_owned();
        push_decimal(&mut e, chosen);
        e.append(" 行）。请手动指定表头行: ");
        e.append(sheet.path.as_str());
        return Err(e);
    }
    Ok((hs, chosen, chosen))
}

/// `header_like` of the first `w` cells.
fn looks_like_header_upto(cells: &Vec<RawCell>, w: usize) -> (b: bool)
    requires
        w <= cells@.len(),
    ensures
        b == header_like(cells_v(cells@).take(w as int)),
{
    let mut c: Vec<RawCell> = Vec::new();
    let mut i: usize = 0;
    while i < w
        invariant
            i <= w <= cells@.len(),
            cells_v(c@) == cells_v(cells@).take(i as int),
        decreases w - i,
    {
        let x = RawCell { text: cells[i].text.clone(), number: cells[i].number };
        let ghost c0 = c@;
        c.push(x);
        assert(cells_v(c@) =~= cells_v(c0).push((x.text@, x.number)));
        assert(cells_v(cells@).take(i + 1) =~= cells_v(cells@).take(i as int).push(cells_v(cells@)[i as int]));
        i += 1;
    }
    looks_like_header(&c)
}

/// A copy of a row of cells.
fn copy_cells(cells: &Vec<RawCell>) -> (r: Vec<RawCell>)
    ensures
        cells_v(r@) == cells_v(cells@),
{
    let mut r: Vec<RawCell> = Vec::new();
    let mut i: usize = 0;
    while i < cells.len()
        invariant
            i <= cells@.len(),
            cells_v(r@) == cells_v(cells@).take(i as int),
        decreases cells@.len() - i,
    {
        let x = RawCell { text: cells[i].text.clone(), number: cells[i].number };
        let ghost r0 = r@;
        r.push(x);
        assert(cells_v(r@) =~= cells_v(r0).push((x.text@, x.number)));
        assert(cells_v(cells@).take(i + 1) =~= cells_v(cells@).take(i as int).push(cells_v(cells@)[i as int]));
        i += 1;
    }
    assert(cells_v(cells@).take(i as int) =~= cells_v(cells@));
    r
}

/// A header row found among `rows` is one of them.
proof fn lemma_detected_in_range(rows: Seq<Seq<(Seq<char>, bool)>>)
    ensures
        detected_header(rows) matches Some(i) ==> 1 <= i <= rows.len(),
{
    lemma_first_nonblank_in_range(rows, 0);
}

proof fn lemma_first_nonblank_in_range(rows: Seq<Seq<(Seq<char>, bool)>>, i: int)
    ensures
        first_nonblank_row(rows, i) matches Some(j) ==> i <= j < rows.len(),
    decreases rows.len() - i,
{
    if 0 <= i < rows.len() {
        lemma_first_nonblank_in_range(rows, i + 1);
    }
}

/// A row fitted to `w` cells (see `fit_row`), and whether all its cells are blank.
fn fitted(cells: &Vec<RawCell>, w: usize) -> (r: (Vec<String>, bool))
    ensures
        r.0.deep_view() == fit_row(texts_v(cells@), w as nat),
        r.1 == all_blank(fit_row(texts_v(cells@), w as nat)),
{
    let ghost want = fit_row(texts_v(cells@), w as nat);
    let mut out: Vec<String> = Vec::new();
    let mut all = true;
    let mut i: usize = 0;
    while i < w
        invariant
            i <= w,
            want == fit_row(texts_v(cells@), w as nat),
            out.deep_view() == want.take(i as int),
            all == (forall|j: int| 0 <= j < i ==> is_blank(#[trigger] want[j])),
        decreases w - i,
    {
        let c = if i < cells.len() { cells[i].text.clone() } else { String::new() };
        assert(c@ == want[i as int]);
        if !blank(c.as_str()) {
            all = false;
        }
        let ghost o0 = out;
        out.push(c);
        proof {
            crate::models::lemma_dv_push(o0, out, c);
            assert(out.deep_view() =~= want.take(i + 1));
        }
        i += 1;
    }
    assert(want.take(i as int) =~= want);
    (out, all)
}

/// The first `limit` data rows from row `start` on, fitted to `w` cells with the
/// all-blank ones left out, and how many such rows there are.
fn scan_rows(sheet: &RawSheet, start: usize, w: usize, limit: usize) -> (r: (Vec<Vec<String>>, usize))
    requires
        start <= sheet.rows@.len(),
    ensures
        r.1 == data_rows(*sheet, start as nat, w as nat).len(),
        r.0.deep_view() == data_rows(*sheet, start as nat, w as nat).take(
            if limit < data_rows(*sheet, start as nat, w as nat).len() { limit as int } else { data_rows(*sheet, start as nat, w as nat).len() as int }),
{
    let ghost t = sheet_texts(*sheet);
    let mut rows: Vec<Vec<String>> = Vec::new();
    let mut total: usize = 0;
    let mut ri: usize = start;
    assert(t.subrange(start as int, start as int) =~= Seq::<Seq<Seq<char>>>::empty());
    while ri < sheet.rows.len()
        invariant
            start <= ri <= t.len(),
            t == sheet_texts(*sheet),
            total == kept_rows(t.subrange(start as int, ri as int), w as nat).len(),
            total <= ri - start,
            rows.deep_view() == kept_rows(t.subrange(start as int, ri as int), w as nat).take(if limit < total { limit as int } else { total as int }),
        decreases t.len() - ri,
    {
        let ghost k0 = kept_rows(t.subrange(start as int, ri as int), w as nat);
        assert(t.subrange(start as int, ri + 1).drop_last() =~= t.subrange(start as int, ri as int));
        assert(t.subrange(start as int, ri + 1).last() == t[ri as int]);
        let (x, empty) = fitted(&sheet.rows[ri], w);
        if !empty {
            total += 1;
            if rows.len() < limit {
                let ghost r0 = rows.deep_view();
                rows.push(x);
                assert(rows.deep_view() =~= r0.push(x.deep_view()));
                assert(k0.push(x.deep_view()).take(rows.len() as int) =~= k0.take((rows.len() - 1) as int).push(x.deep_view()));
            } else {
                assert(rows.deep_view().len() == rows@.len());
                assert(limit <= k0.len());
                assert(k0.push(x.deep_view()).take(limit as int) =~= k0.take(limit as int));
            }
        }
        ri += 1;
    }
    let ghost d = t.subrange(start as int, t.len() as int);
    (rows, total)
}

/// `r` is the read of the first sheet with header row `header_row`: its headers and
/// data rows and the 1-based header row, or why its header cannot be read.
pub open spec fn first_sheet_read(sheet: RawSheet, header_row: Option<usize>, r: Result<(DataTable, usize), String>) -> bool {
    match r {
        Ok((t, c)) => header_result(sheet, header_row) matches Ok(h) && t@ == (TableView {
            headers: h.0,
            rows: data_rows(sheet, h.2, h.0.len()),
            groups: Seq::empty(),
        }) && c == h.1,
        Err(e) => header_result(sheet, header_row) == Err::<(Seq<Seq<char>>, nat, nat), Seq<char>>(e@),
    }
}

/// The number of rows a preview of `limit` keeps out of `n`: `limit`, at least one,
/// at most `n`.
pub open spec fn preview_count(limit: usize, n: nat) -> int {
    let lim = if limit < 1 { 1 } else { limit as int };
    if lim < n { lim } else { n as int }
}

/// `r` is the preview of the first sheet: as `first_sheet_read`, keeping the first
/// `preview_count(limit, ..)` data rows, with the number of data rows.
pub open spec fn preview_read(sheet: RawSheet, header_row: Option<usize>, limit: usize, r: Result<(DataTable, usize, usize), String>) -> bool {
    match r {
        Ok((t, c, total)) => header_result(sheet, header_row) matches Ok(h) && {
            let all = data_rows(sheet, h.2, h.0.len());
            &&& t@ == (TableView { headers: h.0, rows: all.take(preview_count(limit, all.len())), groups: Seq::empty() })
            &&& c == h.1
            &&& total == all.len()
        },
        Err(e) => header_result(sheet, header_row) == Err::<(Seq<Seq<char>>, nat, nat), Seq<char>>(e@),
    }
}

/// `r` is the scan of the first sheet: its headers, the 1-based header row and the
/// number of data rows, or why its header cannot be read.
pub open spec fn meta_read(sheet: RawSheet, header_row: Option<usize>, r: Result<(Vec<String>, usize, usize), String>) -> bool {
    match r {
        Ok((hs, c, n)) => header_result(sheet, header_row) matches Ok(h) && hs.deep_view() == h.0 && c == h.1
            && n == data_rows(sheet, h.2, h.0.len()).len(),
        Err(e) => header_result(sheet, header_row) == Err::<(Seq<Seq<char>>, nat, nat), Seq<char>>(e@),
    }
}

/// `r` holds the texts of the first `preview_count(limit, ..)` rows of the sheet and
/// its number of rows.
pub open spec fn peeked(sheet: RawSheet, limit: usize, r: (Vec<Vec<String>>, usize)) -> bool {
    let t = sheet_texts(sheet);
    &&& r.1 == sheet.rows@.len()
    &&& r.0.deep_view() == t.take(preview_count(limit, t.len()))
}

/// A preview is the full read cut short: both fail alike, or the preview has the
/// headers and header row of the full read, its first `max(limit, 1)` rows (all when
/// there are fewer), and the full read's number of rows.
pub proof fn lemma_preview_is_prefix(
    sheet: RawSheet,
    header_row: Option<usize>,
    limit: usize,
    full: Result<(DataTable, usize), String>,
    preview: Result<(DataTable, usize, usize), String>,
)
    requires
        first_sheet_read(sheet, header_row, full),
        preview_read(sheet, header_row, limit, preview),
    ensures
        full is Ok <==> preview is Ok,
        full matches Err(e) ==> preview matches Err(f) && e@ == f@,
        full matches Ok((t, c)) ==> preview matches Ok((p, pc, n)) && {
            &&& p@.headers == t@.headers
            &&& pc == c
            &&& n == t@.rows.len()
            &&& p@.rows.len() == preview_count(limit, t@.rows.len())
            &&& p@.rows.len() >= 1 || t@.rows.len() == 0
            &&& p@.rows.len() <= limit || limit == 0
            &&& forall|i: int| 0 <= i < p@.rows.len() ==> #[trigger] p@.rows[i] == t@.rows[i]
        },
{
}

/// A scan agrees with the full read: both fail alike, or the scan has the headers and
/// header row of the full read and its number of data rows.
pub proof fn lemma_meta_agrees(
    sheet: RawSheet,
    header_row: Option<usize>,
    full: Result<(DataTable, usize), String>,
    meta: Result<(Vec<String>, usize, usize), String>,
)
    requires
        first_sheet_read(sheet, header_row, full),
        meta_read(sheet, header_row, meta),
    ensures
        full is Ok <==> meta is Ok,
        full matches Err(e) ==> meta matches Err(f) && e@ == f@,
        full matches Ok((t, c)) ==> meta matches Ok((hs, mc, n)) && hs.deep_view() == t@.headers && mc == c && n == t@.rows.len(),
{
}

/// A peek is a bounded prefix of the sheet: at most `max(limit, 1)` rows, each the
/// texts of the sheet's row at the same place, and no more rows than the sheet has.
pub proof fn lemma_peek_bounded(sheet: RawSheet, limit: usize, r: (Vec<Vec<String>>, usize))
    requires
        peeked(sheet, limit, r),
    ensures
        r.0@.len() <= r.1,
        r.0@.len() <= limit || (limit == 0 && r.0@.len() <= 1),
        r.0@.len() == r.1 || r.0@.len() == limit || (limit == 0 && r.0@.len() == 1),
        forall|i: int| 0 <= i < r.0@.len() ==> #[trigger] r.0.deep_view()[i] == sheet_texts(sheet)[i],
{
    assert(r.0.deep_view().len() == r.0@.len());
}

/// The headers and data rows of the first sheet, and the 1-based header row: the
/// header row as given, or found (see `header_result`); each data row below it fitted
/// to the headers, the all-blank ones left out.
pub fn read_excel_first_sheet(sheet: &RawSheet, header_row: Option<usize>) -> (r: Result<(DataTable, usize), String>)
    ensures
        first_sheet_read(*sheet, header_row, r),
{
    let (headers, chosen, start) = match resolve_headers_from_range(sheet, header_row) {
        Ok(x) => x,
        Err(e) => return Err(e),
    };
    proof {
        lemma_header_start(*sheet, header_row);
    }
    let w = headers.len();
    let (rows, total) = scan_rows(sheet, start, w, usize::MAX);
    proof {
        let d = data_rows(*sheet, start as nat, w as nat);
        assert(d.take(d.len() as int) =~= d);
    }
    Ok((DataTable { headers, rows, header_groups: Vec::new() }, chosen))
}

/// A preview of the first sheet: as `read_excel_first_sheet`, keeping the first `limit`
/// data rows (at least one), with the 1-based header row and the number of data rows.
pub fn read_excel_preview(sheet: &RawSheet, header_row: Option<usize>, limit: usize) -> (r: Result<(DataTable, usize, usize), String>)
    ensures
        preview_read(*sheet, header_row, limit, r),
{
    let (headers, chosen, start) = match resolve_headers_from_range(sheet, header_row) {
        Ok(x) => x,
        Err(e) => return Err(e),
    };
    proof {
        lemma_header_start(*sheet, header_row);
    }
    let w = headers.len();
    let lim = if limit < 1 { 1 } else { limit };
    let (rows, total) = scan_rows(sheet, start, w, lim);
    Ok((DataTable { headers, rows, header_groups: Vec::new() }, chosen, total))
}

/// The headers, the 1-based header row and the number of data rows of the first sheet,
/// without keeping the rows.
pub fn scan_sheet_meta(sheet: &RawSheet, header_row: Option<usize>) -> (r: Result<(Vec<String>, usize, usize), String>)
    ensures
        meta_read(*sheet, header_row, r),
{
    let (headers, chosen, start) = match resolve_headers_from_range(sheet, header_row) {
        Ok(x) => x,
        Err(e) => return Err(e),
    };
    proof {
        lemma_header_start(*sheet, header_row);
    }
    let w = headers.len();
    let (_rows, total) = scan_rows(sheet, start, w, 0);
    Ok((headers, chosen, total))
}

/// The first `limit` rows of the first sheet (at least one) as text, and its row count.
pub fn peek_raw_rows(sheet: &RawSheet, limit: usize) -> (r: (Vec<Vec<String>>, usize))
    ensures
        peeked(*sheet, limit, r),
{
    let ghost t = sheet_texts(*sheet);
    let lim = if limit < 1 { 1 } else { limit };
    let n = if lim < sheet.rows.len() { lim } else { sheet.rows.len() };
    let mut rows: Vec<Vec<String>> = Vec::new();
    let mut i: usize = 0;
    while i < n
        invariant
            i <= n <= sheet.rows@.len(),
            t == sheet_texts(*sheet),
            rows.deep_view() == t.take(i as int),
        decreases n - i,
    {
        let cells = &sheet.rows[i];
        let x = texts_of(cells, cells.len());
        let ghost r0 = rows.deep_view();
        rows.push(x);
        assert(texts_v(cells@).take(cells@.len() as int) =~= texts_v(cells@));
        assert(rows.deep_view() =~= r0.push(x.deep_view()));
        assert(t.take(i + 1) =~= t.take(i as int).push(t[i as int]));
        i += 1;
    }
    (rows, sheet.rows.len())
}

/// The data of a found header start within the sheet.
proof fn lemma_header_start(sheet: RawSheet, header_row: Option<usize>)
    ensures
        header_result(sheet, header_row) matches Ok(h) ==> h.2 <= sheet.rows@.len(),
{
    let rows = sheet_cells(sheet);
    let h = rows.len();
    if h > 0 && header_row is None {
        lemma_detected_in_range(rows);
    }
}

} // verus!
