//! What result and template workbooks hold: sheet names, column letters, the
//! formulas of template sheets, header colors and file names.
use vstd::prelude::*;
use crate::models::{has_text, lemma_dv_push, lemma_first_at_unique, first_at, find_text, position};
use crate::excel_io::{before_dot, drop_commas, lemma_without_leading_minus_skip, utf8_len, utf8_longer_than, without_commas, without_leading_minus};
use crate::text::{chars_of, chars_range, decimal, find_char, find_char_from, join, join_strings, push_char, push_decimal, same_text, string_of, string_of_range, trim, trimmed, trimmed_chars};
use crate::calculate::{formula_body, formula_expr};

verus! {

/// A character allowed in a sheet name, or `_` for one that is not.
pub open spec fn sheet_char(c: char) -> char {
    if c == '\\' || c == '/' || c == '?' || c == '*' || c == '[' || c == ']' || c == ':' { '_' } else { c }
}

/// A sheet name made valid: forbidden characters become `_`, an empty name becomes
/// `Sheet1`, and a name over 31 bytes keeps its first 31 characters.
pub open spec fn sanitized(name: Seq<char>) -> Seq<char> {
    let s = name.map_values(|c: char| sheet_char(c));
    let s2 = if s.len() == 0 { "Sheet1"@ } else { s };
    if utf8_len(s2) > 31 && s2.len() > 31 { s2.take(31) } else { s2 }
}

/// Number of UTF-16 code units of `s`.
pub open spec fn utf16_len(s: Seq<char>) -> nat
    decreases s.len(),
{
    if s.len() == 0 { 0 } else { utf16_len(s.drop_last()) + if (s.last() as u32) > 0xFFFF { 2nat } else { 1nat } }
}

/// A character that a worksheet name cannot hold.
pub open spec fn bad_sheet_char(c: char) -> bool {
    c == '*' || c == '?' || c == ':' || c == '[' || c == ']' || c == '\\' || c == '/'
}

/// Why rust_xlsxwriter refuses the worksheet name `name` (the text of its error), if it
/// does: a blank name, over 31 UTF-16 units, a character of `[ ] : * ? / \`, or a
/// leading or trailing apostrophe.
pub open spec fn sheet_name_refusal(name: Seq<char>) -> Option<Seq<char>> {
    let m = "Worksheet name 'worksheet.set_name(\""@ + name + "\")'"@;
    if name.len() == 0 {
        Some(m + " cannot be blank."@)
    } else if utf16_len(name) > 31 {
        Some(m + " exceeds Excel's limit of 31 characters."@)
    } else if exists|i: int| 0 <= i < name.len() && bad_sheet_char(#[trigger] name[i]) {
        Some(m + " cannot contain invalid characters: '[ ] : * ? / \\'."@)
    } else if name[0] == '\'' || name.last() == '\'' {
        Some(m + " cannot start or end with an apostrophe."@)
    } else {
        None
    }
}

/// Calls rust_xlsxwriter's `Worksheet::set_name` on a new worksheet and gives the text
/// of its error: the name is refused exactly as `sheet_name_refusal` says.
#[verifier::external_body]
pub(crate) fn sheet_name_error(name: &str) -> (r: Option<String>)
    ensures
        match r {
            Some(e) => sheet_name_refusal(name@) == Some(e@),
            None => sheet_name_refusal(name@) is None,
        },
{
    match rust_xlsxwriter::Worksheet::new().set_name(name) {
        Ok(_) => None,
        Err(e) => Some(e.to_string()),
    }
}

/// A valid sheet name for `name` (see `sanitized`).
pub fn sanitize_sheet_name(name: &str) -> (r: String)
    ensures
        r@ == sanitized(name@),
{
    let v = chars_of(name);
    let mut out: Vec<char> = Vec::new();
    let mut i: usize = 0;
    while i < v.len()
        invariant
            i <= v@.len(),
            v@ == name@,
            out@ == v@.take(i as int).map_values(|c: char| sheet_char(c)),
        decreases v@.len() - i,
    {
        let c = v[i];
        let d = if c == '\\' || c == '/' || c == '?' || c == '*' || c == '[' || c == ']' || c == ':' { '_' } else { c };
        out.push(d);
        assert(out@ =~= v@.take(i + 1).map_values(|c: char| sheet_char(c)));
        i += 1;
    }
    assert(v@.take(i as int) =~= v@);
    if out.len() == 0 {
        proof {
            reveal_strlit("Sheet1");
        }
        out = chars_of("Sheet1");
    }
    let long = crate::excel_io::utf8_longer_than(&out, 0, out.len(), 31);
    assert(out@.subrange(0, out@.len() as int) =~= out@);
    if long && out.len() > 31 {
        let s = string_of(&crate::text::chars_range(&out, 0, 31));
        assert(out@.subrange(0, 31) =~= out@.take(31));
        s
    } else {
        string_of(&out)
    }
}

proof fn lemma_utf8_len_at_least_len(t: Seq<char>)
    ensures
        utf8_len(t) >= t.len(),
    decreases t.len(),
{
    if t.len() > 0 {
        lemma_utf8_len_at_least_len(t.drop_last());
    }
}

/// A sanitized sheet name is never empty, holds at most 31 characters and none of
/// `\ / ? * [ ] :`, and sanitizing it again leaves it as it is.
pub proof fn lemma_sanitized_stable(name: Seq<char>)
    ensures
        0 < sanitized(name).len() <= 31,
        forall|i: int| 0 <= i < sanitized(name).len() ==> sheet_char(#[trigger] sanitized(name)[i]) == sanitized(name)[i],
        sanitized(sanitized(name)) == sanitized(name),
{
    let s = name.map_values(|c: char| sheet_char(c));
    let s2 = if s.len() == 0 { "Sheet1"@ } else { s };
    reveal_strlit("Sheet1");
    lemma_utf8_len_at_least_len(s2);
    let r = sanitized(name);
    assert(forall|i: int| 0 <= i < s2.len() ==> sheet_char(#[trigger] s2[i]) == s2[i]);
    assert(forall|i: int| 0 <= i < r.len() ==> sheet_char(#[trigger] r[i]) == r[i]);
    let t = r.map_values(|c: char| sheet_char(c));
    assert(t =~= r);
    lemma_utf8_len_at_least_len(r);
}

/// The letter for `d` (0 = `A`).
pub open spec fn letter(d: nat) -> char {
    "ABCDEFGHIJKLMNOPQRSTUVWXYZ"@[d as int]
}

/// Spreadsheet column name of 0-based column `n` (`A`, …, `Z`, `AA`, …).
pub open spec fn col_name(n: nat) -> Seq<char>
    decreases n,
{
    if n < 26 {
        seq![letter(n)]
    } else {
        col_name((n / 26 - 1) as nat).push(letter(n % 26))
    }
}

fn letter_of(d: usize) -> (c: char)
    requires
        d < 26,
    ensures
        c == letter(d as nat),
{
    let v = chars_of("ABCDEFGHIJKLMNOPQRSTUVWXYZ");
    proof {
        reveal_strlit("ABCDEFGHIJKLMNOPQRSTUVWXYZ");
    }
    v[d]
}

/// Spreadsheet column name of 0-based column `idx`.
pub fn col_letter(idx: usize) -> (s: String)
    ensures
        s@ == col_name(idx as nat),
    decreases idx,
{
    if idx < 26 {
        let mut s = String::new();
        push_char(&mut s, letter_of(idx));
        assert(s@ =~= seq![letter(idx as nat)]);
        s
    } else {
        let mut s = col_letter(idx / 26 - 1);
        push_char(&mut s, letter_of(idx % 26));
        s
    }
}

/// Header texts and formulas of a template sheet: the headers fill row 1, and each
/// formula `(column, text)` goes in row 2 and spills down.
pub struct FormulaSheet {
    pub headers: Vec<String>,
    pub formulas: Vec<(usize, String)>,
}

/// A filter result sheet of a formula template.
pub struct FilterTemplate {
    pub sheet_name: String,
    pub data_sheet: String,
    pub headers: Vec<String>,
    /// (column, op, value)
    pub conditions: Vec<(String, String, String)>,
    pub data_rows: usize,
}

/// A pivot result sheet of a formula template.
pub struct PivotTemplate {
    pub sheet_name: String,
    pub filtered_sheet: String,
    pub row_fields: Vec<String>,
    pub value_field: String,
    pub filtered_headers: Vec<String>,
}

/// A sort result sheet of a formula template.
pub struct SortTemplate {
    pub sheet_name: String,
    /// Sheet name of the table being sorted.
    pub source_sheet: String,
    pub headers: Vec<String>,
    /// (column name, descending)
    pub keys: Vec<(String, bool)>,
}

/// A joined table of a calculation sheet.
pub struct CalcJoinTemplate {
    pub table_id: String,
    pub sheet_name: String,
    pub base_key: String,
    pub foreign_key: String,
    pub headers: Vec<String>,
}

/// A calculation result sheet of a formula template.
pub struct CalculateTemplate {
    pub sheet_name: String,
    pub base_sheet: String,
    pub base_table_id: String,
    pub base_headers: Vec<String>,
    pub output_field: String,
    pub formula: String,
    pub joins: Vec<CalcJoinTemplate>,
}

/// A lookup-subtract result sheet of a formula template.
pub struct NewPremiumTemplate {
    pub sheet_name: String,
    pub pivot_sheet: String,
    pub right_data_sheet: String,
    pub left_key: String,
    pub right_key: String,
    pub left_value_field: String,
    pub right_value_field: String,
    pub output_field: String,
    pub pivot_headers: Vec<String>,
    pub right_headers: Vec<String>,
}

/// `'sheet'!`.
pub open spec fn sheet_ref(sheet: Seq<char>) -> Seq<char> {
    "'"@ + sheet + "'!"@
}

/// The range of column `c` from row 2 to row `end` of `sheet`.
pub open spec fn column_range(sheet: Seq<char>, c: nat, end: nat) -> Seq<char> {
    sheet_ref(sheet) + col_name(c) + "2:"@ + col_name(c) + decimal(end)
}

/// The condition expression of a filter condition on column `c`, if its operation has one.
pub open spec fn condition_expr(op: Seq<char>, value: Seq<char>, range: Seq<char>) -> Option<Seq<char>> {
    if op == "contains"@ {
        Some("ISNUMBER(SEARCH(\""@ + value + "\","@ + range + "))"@)
    } else if op == "not_contains"@ {
        Some("NOT(ISNUMBER(SEARCH(\""@ + value + "\",IF("@ + range + "=\"\",\"\","@ + range + "))))"@)
    } else if op == "eq"@ {
        Some(range + "=\""@ + value + "\""@)
    } else if op == "neq"@ {
        Some(range + "<>\""@ + value + "\""@)
    } else {
        None
    }
}

/// Condition expressions of a filter template, in order.
pub open spec fn filter_parts(headers: Seq<Seq<char>>, conds: Seq<(Seq<char>, Seq<char>, Seq<char>)>, sheet: Seq<char>, end: nat) -> Seq<Seq<char>>
    decreases conds.len(),
{
    if conds.len() == 0 {
        Seq::empty()
    } else {
        let p = filter_parts(headers, conds.drop_last(), sheet, end);
        let (col, op, value) = conds.last();
        if !has_text(headers, col) {
            p
        } else {
            match condition_expr(op, value, column_range(sheet, position(headers, col) as nat, end)) {
                Some(x) => p.push(x),
                None => p,
            }
        }
    }
}

/// The data sheet name of source `name`.
pub open spec fn data_sheet_name(name: Seq<char>) -> Seq<char> {
    sanitized("数据_"@ + name)
}

/// The formula of a filter sheet.
pub open spec fn filter_formula(headers: Seq<Seq<char>>, conds: Seq<(Seq<char>, Seq<char>, Seq<char>)>, data_sheet: Seq<char>, data_rows: nat) -> Seq<char> {
    let ds = data_sheet_name(data_sheet);
    let end = if data_rows + 1 > 2 { (data_rows + 1) as nat } else { 2 };
    let end_col = col_name(if headers.len() > 0 { (headers.len() - 1) as nat } else { 0 });
    let parts = filter_parts(headers, conds, ds, end);
    if parts.len() == 0 {
        "=FILTER("@ + sheet_ref(ds) + "A2:"@ + end_col + decimal(end) + ",TRUE,\"\")"@
    } else {
        "=FILTER("@ + sheet_ref(ds) + "A2:"@ + end_col + decimal(end) + ",("@ + join(parts, "*"@) + "),\"\")"@
    }
}

/// Appends `'sheet'!`.
fn push_sheet_ref(s: &mut String, sheet: &str)
    ensures
        final(s)@ == old(s)@ + sheet_ref(sheet@),
{
    s.append("'");
    s.append(sheet);
    s.append("'!");
    assert(final(s)@ =~= old(s)@ + sheet_ref(sheet@));
}

/// `column_range` of a column.
fn range_text(sheet: &str, c: usize, end: usize) -> (r: String)
    ensures
        r@ == column_range(sheet@, c as nat, end as nat),
{
    let mut r = String::new();
    push_sheet_ref(&mut r, sheet);
    let cl = col_letter(c);
    r.append(cl.as_str());
    r.append("2:");
    r.append(cl.as_str());
    push_decimal(&mut r, end);
    assert(r@ =~= column_range(sheet@, c as nat, end as nat));
    r
}

/// `condition_expr` of a condition.
fn condition_text(op: &str, value: &str, range: &str) -> (r: Option<String>)
    ensures
        match r {
            Some(x) => condition_expr(op@, value@, range@) == Some(x@),
            None => condition_expr(op@, value@, range@) is None,
        },
{
    if same_text(op, "contains") {
        let mut x = "ISNUMBER(SEARCH(\"".to_owned();
        x.append(value);
        x.append("\",");
        x.append(range);
        x.append("))");
        Some(x)
    } else if same_text(op, "not_contains") {
        let mut x = "NOT(ISNUMBER(SEARCH(\"".to_owned();
        x.append(value);
        x.append("\",IF(");
        x.append(range);
        x.append("=\"\",\"\",");
        x.append(range);
        x.append("))))");
        Some(x)
    } else if same_text(op, "eq") {
        let mut x = range.to_owned();
        x.append("=\"");
        x.append(value);
        x.append("\"");
        Some(x)
    } else if same_text(op, "neq") {
        let mut x = range.to_owned();
        x.append("<>\"");
        x.append(value);
        x.append("\"");
        Some(x)
    } else {
        None
    }
}

/// The headers and formula of a filter sheet (see `filter_formula`).
pub fn filter_sheet(ft: &FilterTemplate) -> (r: FormulaSheet)
    requires
        ft.data_rows < usize::MAX,
    ensures
        r.headers.deep_view() == ft.headers.deep_view(),
        r.formulas@.len() == 1,
        r.formulas@[0].0 == 0,
        r.formulas@[0].1@ == filter_formula(
            ft.headers.deep_view(),
            ft.conditions@.map_values(|c: (String, String, String)| (c.0@, c.1@, c.2@)),
            ft.data_sheet@,
            ft.data_rows as nat,
        ),
{
    let ghost hs = ft.headers.deep_view();
    let ghost cs = ft.conditions@.map_values(|c: (String, String, String)| (c.0@, c.1@, c.2@));
    let mut pre = "数据_".to_owned();
    pre.append(ft.data_sheet.as_str());
    let ds = sanitize_sheet_name(pre.as_str());
    let end: usize = if ft.data_rows + 1 > 2 { ft.data_rows + 1 } else { 2 };
    let end_col = col_letter(if ft.headers.len() > 0 { ft.headers.len() - 1 } else { 0 });
    let mut parts: Vec<String> = Vec::new();
    let mut k: usize = 0;
    while k < ft.conditions.len()
        invariant
            k <= ft.conditions@.len(),
            hs == ft.headers.deep_view(),
            cs == ft.conditions@.map_values(|c: (String, String, String)| (c.0@, c.1@, c.2@)),
            parts.deep_view() == filter_parts(hs, cs.take(k as int), ds@, end as nat),
        decreases ft.conditions@.len() - k,
    {
        assert(cs.take(k + 1).drop_last() =~= cs.take(k as int));
        assert(cs.take(k + 1).last() == cs[k as int]);
        let (col, op, value) = &ft.conditions[k];
        match find_text(&ft.headers, col.as_str()) {
            None => {},
            Some(idx) => {
                proof {
                    lemma_first_at_unique(hs, col@, idx as int);
                }
                let range = range_text(ds.as_str(), idx, end);
                match condition_text(op.as_str(), value.as_str(), range.as_str()) {
                    Some(x) => {
                        let ghost p0 = parts;
                        parts.push(x);
                        proof {
                            lemma_dv_push(p0, parts, x);
                        }
                    },
                    None => {},
                }
            },
        }
        k += 1;
    }
    assert(cs.take(k as int) =~= cs);
    let mut f = "=FILTER(".to_owned();
    push_sheet_ref(&mut f, ds.as_str());
    f.append("A2:");
    f.append(end_col.as_str());
    push_decimal(&mut f, end);
    if parts.len() == 0 {
        f.append(",TRUE,\"\")");
    } else {
        f.append(",(");
        let joined = join_strings(&parts, "*");
        f.append(joined.as_str());
        f.append("),\"\")");
    }
    let mut formulas: Vec<(usize, String)> = Vec::new();
    formulas.push((0, f));
    FormulaSheet { headers: crate::models::copy_texts(&ft.headers), formulas }
}

/// Positions in `headers` of the fields that it has, in order.
pub open spec fn key_positions(fields: Seq<Seq<char>>, headers: Seq<Seq<char>>) -> Seq<int>
    decreases fields.len(),
{
    if fields.len() == 0 {
        Seq::empty()
    } else {
        let p = key_positions(fields.drop_last(), headers);
        if has_text(headers, fields.last()) { p.push(position(headers, fields.last())) } else { p }
    }
}

/// Formulas of a pivot sheet over sheet `f` whose key columns are `keys` and whose
/// value column is `value`, the value formula going in column `vcol`.
pub open spec fn pivot_formulas(f: Seq<char>, keys: Seq<int>, value: Option<int>, vcol: nat) -> Seq<(nat, Seq<char>)> {
    let r0 = column_range(f, keys[0] as nat, 100000);
    let first = (0nat, "=UNIQUE(FILTER("@ + r0 + ","@ + r0 + "<>\"\"))"@);
    let others = Seq::new((keys.len() - 1) as nat, |i: int|
        ((i + 1) as nat, "=MAP(A2#,LAMBDA(k,XLOOKUP(k,"@ + r0 + ","@ + column_range(f, keys[i + 1] as nat, 100000) + ",\"\")))"@));
    let vals = match value {
        Some(v) => seq![(vcol, "=MAP(A2#,LAMBDA(k,SUMIF("@ + r0 + ",k,"@ + column_range(f, v as nat, 100000) + ")))"@)],
        None => Seq::empty(),
    };
    seq![first] + others + vals
}

/// Formulas as the contracts see them.
pub open spec fn formulas_view(fs: Seq<(usize, String)>) -> Seq<(nat, Seq<char>)> {
    fs.map_values(|x: (usize, String)| (x.0 as nat, x.1@))
}

/// The headers and formulas of a pivot sheet: unique keys of the first row field,
/// lookups of the other row fields, and the sum of the value field per key.
pub fn pivot_sheet(pt: &PivotTemplate) -> (r: Result<FormulaSheet, String>)
    ensures
        ({
            let rf = pt.row_fields.deep_view();
            let keys = key_positions(rf, pt.filtered_headers.deep_view());
            let fh = pt.filtered_headers.deep_view();
            let value = if has_text(fh, pt.value_field@) { Some(position(fh, pt.value_field@)) } else { None };
            match r {
                Ok(sh) => {
                    &&& sh.headers.deep_view() == rf.push(pt.value_field@ + "_求和"@)
                    &&& if rf.len() == 0 {
                        sh.formulas@.len() == 0
                    } else {
                        keys.len() > 0 && formulas_view(sh.formulas@) == pivot_formulas(sanitized(pt.filtered_sheet@), keys, value, rf.len())
                    }
                },
                Err(e) => rf.len() > 0 && keys.len() == 0 && e@ == "透视行字段在筛选结果表头中未找到"@,
            }
        }),
{
    let ghost rf = pt.row_fields.deep_view();
    let ghost fh = pt.filtered_headers.deep_view();
    let f = sanitize_sheet_name(pt.filtered_sheet.as_str());
    let mut headers = crate::models::copy_texts(&pt.row_fields);
    let mut vh = pt.value_field.clone();
    vh.append("_求和");
    let ghost h0 = headers;
    headers.push(vh);
    proof {
        lemma_dv_push(h0, headers, vh);
    }
    if pt.row_fields.len() == 0 {
        return Ok(FormulaSheet { headers, formulas: Vec::new() });
    }
    let mut keys: Vec<usize> = Vec::new();
    let mut k: usize = 0;
    while k < pt.row_fields.len()
        invariant
            k <= rf.len(),
            rf == pt.row_fields.deep_view(),
            fh == pt.filtered_headers.deep_view(),
            keys@.map_values(|x: usize| x as int) == key_positions(rf.take(k as int), fh),
            forall|j: int| 0 <= j < keys@.len() ==> #[trigger] keys@[j] < fh.len(),
        decreases rf.len() - k,
    {
        assert(rf.take(k + 1).drop_last() =~= rf.take(k as int));
        assert(rf.take(k + 1).last() == rf[k as int]);
        match find_text(&pt.filtered_headers, pt.row_fields[k].as_str()) {
            Some(i) => {
                proof {
                    lemma_first_at_unique(fh, rf[k as int], i as int);
                }
                let ghost k0 = keys@;
                keys.push(i);
                assert(keys@.map_values(|x: usize| x as int) =~= k0.map_values(|x: usize| x as int).push(i as int));
            },
            None => {},
        }
        k += 1;
    }
    assert(rf.take(k as int) =~= rf);
    let ghost kv = keys@.map_values(|x: usize| x as int);
    if keys.len() == 0 {
        return Err("透视行字段在筛选结果表头中未找到".to_owned());
    }
    let value = match find_text(&pt.filtered_headers, pt.value_field.as_str()) {
        Some(i) => {
            proof {
                lemma_first_at_unique(fh, pt.value_field@, i as int);
            }
            Some(i)
        },
        None => None,
    };
    let r0 = range_text(f.as_str(), keys[0], 100000);
    let mut formulas: Vec<(usize, String)> = Vec::new();
    let mut first = "=UNIQUE(FILTER(".to_owned();
    first.append(r0.as_str());
    first.append(",");
    first.append(r0.as_str());
    first.append("<>\"\"))");
    formulas.push((0, first));
    let ghost want = pivot_formulas(f@, kv, match value { Some(v) => Some(v as int), None => None }, rf.len());
    let mut i: usize = 1;
    while i < keys.len()
        invariant
            1 <= i <= keys@.len(),
            kv == keys@.map_values(|x: usize| x as int),
            r0@ == column_range(f@, keys@[0] as nat, 100000),
            formulas_view(formulas@) == seq![(0nat, "=UNIQUE(FILTER("@ + r0@ + ","@ + r0@ + "<>\"\"))"@)] + Seq::new((i - 1) as nat, |j: int|
                ((j + 1) as nat, "=MAP(A2#,LAMBDA(k,XLOOKUP(k,"@ + r0@ + ","@ + column_range(f@, kv[j + 1] as nat, 100000) + ",\"\")))"@)),
        decreases keys@.len() - i,
    {
        let rr = range_text(f.as_str(), keys[i], 100000);
        let mut x = "=MAP(A2#,LAMBDA(k,XLOOKUP(k,".to_owned();
        x.append(r0.as_str());
        x.append(",");
        x.append(rr.as_str());
        x.append(",\"\")))");
        let ghost f0 = formulas@;
        formulas.push((i, x));
        assert(kv[i as int] == keys@[i as int] as int);
        assert(formulas_view(formulas@) =~= formulas_view(f0).push((i as nat, x@)));
        assert(formulas_view(formulas@) =~= seq![(0nat, "=UNIQUE(FILTER("@ + r0@ + ","@ + r0@ + "<>\"\"))"@)] + Seq::new(i as nat, |j: int|
            ((j + 1) as nat, "=MAP(A2#,LAMBDA(k,XLOOKUP(k,"@ + r0@ + ","@ + column_range(f@, kv[j + 1] as nat, 100000) + ",\"\")))"@)));
        i += 1;
    }
    let ghost before = formulas@;
    match value {
        Some(vi) => {
            let vr = range_text(f.as_str(), vi, 100000);
            let mut x = "=MAP(A2#,LAMBDA(k,SUMIF(".to_owned();
            x.append(r0.as_str());
            x.append(",k,");
            x.append(vr.as_str());
            x.append(")))");
            formulas.push((pt.row_fields.len(), x));
        },
        None => {},
    }
    assert(formulas_view(formulas@) =~= want);
    Ok(FormulaSheet { headers, formulas })
}

/// The argument of a sort key on column `idx`.
pub open spec fn sort_arg(idx: int, desc: bool) -> Seq<char> {
    "INDEX(data,,"@ + decimal((idx + 1) as nat) + "),"@ + if desc { "-1"@ } else { "1"@ }
}

/// Sort arguments for `keys`, or the first key column missing from `headers`.
pub open spec fn sort_args(headers: Seq<Seq<char>>, keys: Seq<(Seq<char>, bool)>) -> Result<Seq<Seq<char>>, Seq<char>>
    decreases keys.len(),
{
    if keys.len() == 0 {
        Ok(Seq::empty())
    } else {
        match sort_args(headers, keys.drop_last()) {
            Err(e) => Err(e),
            Ok(p) => if has_text(headers, keys.last().0) {
                Ok(p.push(sort_arg(position(headers, keys.last().0), keys.last().1)))
            } else {
                Err("排序字段「"@ + keys.last().0 + "」不在表头中"@)
            },
        }
    }
}

/// The formula of a sort sheet over sheet `src` with `args`.
pub open spec fn sort_formula(src: Seq<char>, headers: Seq<Seq<char>>, args: Seq<Seq<char>>) -> Seq<char> {
    let end_col = col_name((headers.len() - 1) as nat);
    "=LET(data,FILTER("@ + sheet_ref(src) + "A2:"@ + end_col + "100000,"@ + sheet_ref(src) + "A2:A100000<>\"\"),SORTBY(data,"@
        + join(args, ","@) + "))"@
}

/// The headers and formula of a sort sheet.
pub fn sort_sheet(st: &SortTemplate) -> (r: Result<FormulaSheet, String>)
    ensures
        ({
            let hs = st.headers.deep_view();
            let ks = st.keys@.map_values(|k: (String, bool)| (k.0@, k.1));
            match r {
                Ok(sh) => {
                    &&& sh.headers.deep_view() == hs
                    &&& if hs.len() == 0 {
                        sh.formulas@.len() == 0
                    } else {
                        &&& ks.len() > 0
                        &&& sort_args(hs, ks) is Ok
                        &&& formulas_view(sh.formulas@) == seq![(0nat, sort_formula(sanitized(st.source_sheet@), hs, sort_args(hs, ks)->Ok_0))]
                    }
                },
                Err(e) => hs.len() > 0 && if ks.len() == 0 {
                    e@ == "排序步骤缺少排序字段"@
                } else {
                    sort_args(hs, ks) == Err::<Seq<Seq<char>>, Seq<char>>(e@)
                },
            }
        }),
{
    let ghost hs = st.headers.deep_view();
    let ghost ks = st.keys@.map_values(|k: (String, bool)| (k.0@, k.1));
    let src = sanitize_sheet_name(st.source_sheet.as_str());
    let headers = crate::models::copy_texts(&st.headers);
    if st.headers.len() == 0 {
        return Ok(FormulaSheet { headers, formulas: Vec::new() });
    }
    if st.keys.len() == 0 {
        return Err("排序步骤缺少排序字段".to_owned());
    }
    let mut args: Vec<String> = Vec::new();
    assert(ks.take(0) =~= Seq::<(Seq<char>, bool)>::empty());
    assert(args.deep_view() =~= Seq::<Seq<char>>::empty());
    let mut k: usize = 0;
    while k < st.keys.len()
        invariant
            hs.len() > 0,
            ks.len() > 0,
            k <= ks.len(),
            hs == st.headers.deep_view(),
            ks == st.keys@.map_values(|k: (String, bool)| (k.0@, k.1)),
            sort_args(hs, ks.take(k as int)) == Ok::<Seq<Seq<char>>, Seq<char>>(args.deep_view()),
        decreases ks.len() - k,
    {
        assert(ks.take(k + 1).drop_last() =~= ks.take(k as int));
        assert(ks.take(k + 1).last() == ks[k as int]);
        let (col, desc) = &st.keys[k];
        match find_text(&st.headers, col.as_str()) {
            Some(i) => {
                proof {
                    lemma_first_at_unique(hs, col@, i as int);
                }
                assert(i < st.headers.len());
                let mut x = "INDEX(data,,".to_owned();
                push_decimal(&mut x, i + 1);
                x.append("),");
                if *desc {
                    x.append("-1");
                } else {
                    x.append("1");
                }
                let ghost a0 = args;
                args.push(x);
                proof {
                    lemma_dv_push(a0, args, x);
                }
            },
            None => {
                let mut e = "排序字段「".to_owned();
                e.append(col.as_str());
                e.append("」不在表头中");
                proof {
                    lemma_sort_args_err(hs, ks, k as int, e@);
                }
                return Err(e);
            },
        }
        k += 1;
    }
    assert(ks.take(k as int) =~= ks);
    let end_col = col_letter(st.headers.len() - 1);
    let mut f = "=LET(data,FILTER(".to_owned();
    push_sheet_ref(&mut f, src.as_str());
    f.append("A2:");
    f.append(end_col.as_str());
    f.append("100000,");
    push_sheet_ref(&mut f, src.as_str());
    f.append("A2:A100000<>\"\"),SORTBY(data,");
    let joined = join_strings(&args, ",");
    f.append(joined.as_str());
    f.append("))");
    let mut formulas: Vec<(usize, String)> = Vec::new();
    formulas.push((0, f));
    assert(formulas_view(formulas@) =~= seq![(0nat, sort_formula(src@, hs, args.deep_view()))]);
    Ok(FormulaSheet { headers, formulas })
}

/// A missing key in a prefix is the error of all keys.
proof fn lemma_sort_args_err(hs: Seq<Seq<char>>, ks: Seq<(Seq<char>, bool)>, k: int, e: Seq<char>)
    requires
        0 <= k < ks.len(),
        sort_args(hs, ks.take(k)) is Ok,
        !has_text(hs, ks[k].0),
        e == "排序字段「"@ + ks[k].0 + "」不在表头中"@,
    ensures
        sort_args(hs, ks) == Err::<Seq<Seq<char>>, Seq<char>>(e),
    decreases ks.len(),
{
    if ks.len() == k + 1 {
        assert(ks.drop_last() =~= ks.take(k));
    } else {
        assert(ks.drop_last().take(k) =~= ks.take(k));
        lemma_sort_args_err(hs, ks.drop_last(), k, e);
    }
}

/// `inside` split at its first `!` into a trimmed table id and column.
pub open spec fn split_ref(inside: Seq<char>) -> Option<(Seq<char>, Seq<char>)> {
    let k = find_char(inside, '!');
    if k < 0 {
        None
    } else {
        Some((trim(inside.subrange(0, k)), trim(inside.subrange(k + 1, inside.len() as int))))
    }
}

/// The row-`i` cell of base column `col`.
pub open spec fn base_cell(col: Seq<char>, headers: Seq<Seq<char>>) -> Result<Seq<char>, Seq<char>> {
    if has_text(headers, col) {
        Ok("INDEX(base,i,"@ + decimal((position(headers, col) + 1) as nat) + ")"@)
    } else {
        Err("基准表缺少列「"@ + col + "」"@)
    }
}

/// Table ids of template joins.
pub open spec fn join_ids(joins: Seq<CalcJoinTemplate>) -> Seq<Seq<char>> {
    joins.map_values(|j: CalcJoinTemplate| j.table_id@)
}

/// The expression for a reference `[inside]` of a calculation formula.
pub open spec fn ref_piece(inside: Seq<char>, base_id: Seq<char>, headers: Seq<Seq<char>>, joins: Seq<CalcJoinTemplate>) -> Result<Seq<char>, Seq<char>> {
    match split_ref(inside) {
        None => base_cell(inside, headers),
        Some((tid, col)) => if tid == base_id {
            base_cell(col, headers)
        } else if !has_text(join_ids(joins), tid) {
            Err("公式引用了未关联的表「"@ + tid + "」"@)
        } else {
            let j = joins[position(join_ids(joins), tid)];
            let jh = j.headers.deep_view();
            let sheet = sanitized(j.sheet_name@);
            if !has_text(headers, j.base_key@) {
                Err("关联键「"@ + j.base_key@ + "」不在基准表"@)
            } else if !has_text(jh, j.foreign_key@) {
                Err("关联键「"@ + j.foreign_key@ + "」不在表「"@ + tid + "」"@)
            } else if !has_text(jh, col) {
                Err("表「"@ + tid + "」缺少列「"@ + col + "」"@)
            } else {
                Ok("IFERROR(SUMIF("@ + column_range(sheet, position(jh, j.foreign_key@) as nat, 100000) + ",INDEX(base,i,"@
                    + decimal((position(headers, j.base_key@) + 1) as nat) + "),"@ + column_range(sheet, position(jh, col) as nat, 100000)
                    + "),0)"@)
            }
        },
    }
}

/// `r` with `x` in front of its text.
pub open spec fn after_text(x: Seq<char>, r: Result<Seq<char>, Seq<char>>) -> Result<Seq<char>, Seq<char>> {
    match r {
        Ok(t) => Ok(x + t),
        Err(e) => Err(e),
    }
}

/// `s` with each `[reference]` replaced by its expression; an unclosed `[` is an
/// error naming `formula`.
#[verifier::opaque]
pub open spec fn refs_to_excel(s: Seq<char>, formula: Seq<char>, base_id: Seq<char>, headers: Seq<Seq<char>>, joins: Seq<CalcJoinTemplate>) -> Result<Seq<char>, Seq<char>>
    decreases s.len(),
{
    let i = find_char(s, '[');
    if i < 0 {
        Ok(s)
    } else {
        let after = s.subrange(i + 1, s.len() as int);
        let j = find_char(after, ']');
        if j < 0 {
            Err("公式括号未闭合: "@ + formula)
        } else {
            proof {
                crate::text::lemma_find_char_range(s, '[');
                crate::text::lemma_find_char_range(after, ']');
            }
            match ref_piece(trim(after.subrange(0, j)), base_id, headers, joins) {
                Err(e) => Err(e),
                Ok(p) => after_text(s.subrange(0, i) + p, refs_to_excel(after.subrange(j + 1, after.len() as int), formula, base_id, headers, joins)),
            }
        }
    }
}

/// The row expression of a calculation formula.
pub open spec fn formula_refs(formula: Seq<char>, base_id: Seq<char>, headers: Seq<Seq<char>>, joins: Seq<CalcJoinTemplate>) -> Result<Seq<char>, Seq<char>> {
    let expr = formula_body(formula);
    if expr.len() == 0 {
        Err("计算公式不能为空"@)
    } else {
        refs_to_excel(expr, formula, base_id, headers, joins)
    }
}

/// One step of `refs_to_excel` over `s[p..]` at brackets `i` and `j`.
proof fn lemma_refs_step(s: Seq<char>, p: int, i: int, j: int, formula: Seq<char>, base_id: Seq<char>, headers: Seq<Seq<char>>, joins: Seq<CalcJoinTemplate>)
    requires
        0 <= p <= i < j < s.len(),
        find_char(s.subrange(p, s.len() as int), '[') == i - p,
        find_char(s.subrange(i + 1, s.len() as int), ']') == j - (i + 1),
    ensures
        refs_to_excel(s.subrange(p, s.len() as int), formula, base_id, headers, joins) == match ref_piece(trim(s.subrange(i + 1, j)), base_id, headers, joins) {
            Err(e) => Err(e),
            Ok(pc) => after_text(s.subrange(p, i) + pc, refs_to_excel(s.subrange(j + 1, s.len() as int), formula, base_id, headers, joins)),
        },
{
    reveal(refs_to_excel);
    let t = s.subrange(p, s.len() as int);
    let after = t.subrange(i - p + 1, t.len() as int);
    assert(after =~= s.subrange(i + 1, s.len() as int));
    assert(after.subrange(0, j - (i + 1)) =~= s.subrange(i + 1, j));
    assert(after.subrange(j - (i + 1) + 1, after.len() as int) =~= s.subrange(j + 1, s.len() as int));
    assert(t.subrange(0, i - p) =~= s.subrange(p, i));
}

/// `base_cell` of a column.
fn base_cell_text(col: &str, headers: &Vec<String>) -> (r: Result<String, String>)
    ensures
        match r {
            Ok(x) => base_cell(col@, headers.deep_view()) == Ok::<Seq<char>, Seq<char>>(x@),
            Err(e) => base_cell(col@, headers.deep_view()) == Err::<Seq<char>, Seq<char>>(e@),
        },
{
    match find_text(headers, col) {
        Some(i) => {
            proof {
                lemma_first_at_unique(headers.deep_view(), col@, i as int);
            }
            assert(i < headers.len());
            let mut x = "INDEX(base,i,".to_owned();
            push_decimal(&mut x, i + 1);
            x.append(")");
            Ok(x)
        },
        None => {
            let mut e = "基准表缺少列「".to_owned();
            e.append(col);
            e.append("」");
            Err(e)
        },
    }
}

/// `ref_piece` of a reference.
fn ref_piece_text(inside: &Vec<char>, base_id: &str, headers: &Vec<String>, joins: &Vec<CalcJoinTemplate>) -> (r: Result<String, String>)
    ensures
        match r {
            Ok(x) => ref_piece(inside@, base_id@, headers.deep_view(), joins@) == Ok::<Seq<char>, Seq<char>>(x@),
            Err(e) => ref_piece(inside@, base_id@, headers.deep_view(), joins@) == Err::<Seq<char>, Seq<char>>(e@),
        },
{
    let bang = find_char_from(inside, '!', 0);
    assert(inside@.subrange(0, inside@.len() as int) =~= inside@);
    match bang {
        None => {
            let col = string_of(inside);
            base_cell_text(col.as_str(), headers)
        },
        Some(k) => {
            assert(k < inside.len());
            let tid = trimmed_chars(&chars_range(inside, 0, k));
            let col = trimmed_chars(&chars_range(inside, k + 1, inside.len()));
            if same_text(tid.as_str(), base_id) {
                return base_cell_text(col.as_str(), headers);
            }
            let ghost ids = join_ids(joins@);
            let mut q: usize = 0;
            let mut hit = false;
            while q < joins.len() && !hit
                invariant
                    q <= joins@.len(),
                    ids == join_ids(joins@),
                    forall|a: int| 0 <= a < q ==> ids[a] != tid@,
                    hit ==> q < joins@.len() && ids[q as int] == tid@,
                decreases joins@.len() - q + (if hit { 0int } else { 1int }),
            {
                if same_text(joins[q].table_id.as_str(), tid.as_str()) {
                    hit = true;
                } else {
                    q += 1;
                }
            }
            if !hit {
                let mut e = "公式引用了未关联的表「".to_owned();
                e.append(tid.as_str());
                e.append("」");
                return Err(e);
            }
            proof {
                assert(first_at(ids, tid@, q as int));
                lemma_first_at_unique(ids, tid@, q as int);
            }
            let j = &joins[q];
            let sheet = sanitize_sheet_name(j.sheet_name.as_str());
            let bk = match find_text(headers, j.base_key.as_str()) {
                Some(i) => i,
                None => {
                    let mut e = "关联键「".to_owned();
                    e.append(j.base_key.as_str());
                    e.append("」不在基准表");
                    return Err(e);
                },
            };
            let fk = match find_text(&j.headers, j.foreign_key.as_str()) {
                Some(i) => i,
                None => {
                    let mut e = "关联键「".to_owned();
                    e.append(j.foreign_key.as_str());
                    e.append("」不在表「");
                    e.append(tid.as_str());
                    e.append("」");
                    return Err(e);
                },
            };
            let vk = match find_text(&j.headers, col.as_str()) {
                Some(i) => i,
                None => {
                    let mut e = "表「".to_owned();
                    e.append(tid.as_str());
                    e.append("」缺少列「");
                    e.append(col.as_str());
                    e.append("」");
                    return Err(e);
                },
            };
            proof {
                lemma_first_at_unique(headers.deep_view(), j.base_key@, bk as int);
                lemma_first_at_unique(j.headers.deep_view(), j.foreign_key@, fk as int);
                lemma_first_at_unique(j.headers.deep_view(), col@, vk as int);
            }
            assert(bk < headers.len());
            let mut x = "IFERROR(SUMIF(".to_owned();
            let fr = range_text(sheet.as_str(), fk, 100000);
            x.append(fr.as_str());
            x.append(",INDEX(base,i,");
            push_decimal(&mut x, bk + 1);
            x.append("),");
            let vr = range_text(sheet.as_str(), vk, 100000);
            x.append(vr.as_str());
            x.append("),0)");
            Ok(x)
        },
    }
}

/// The row expression of a calculation formula (see `formula_refs`).
pub fn formula_refs_to_excel(formula: &str, base_table_id: &str, base_headers: &Vec<String>, joins: &Vec<CalcJoinTemplate>) -> (r: Result<String, String>)
    ensures
        match r {
            Ok(x) => formula_refs(formula@, base_table_id@, base_headers.deep_view(), joins@) == Ok::<Seq<char>, Seq<char>>(x@),
            Err(e) => formula_refs(formula@, base_table_id@, base_headers.deep_view(), joins@) == Err::<Seq<char>, Seq<char>>(e@),
        },
{
    let expr = formula_expr(formula);
    if expr.as_str().is_empty() {
        return Err("计算公式不能为空".to_owned());
    }
    let v = chars_of(expr.as_str());
    let ghost sv = v@;
    let ghost hs = base_headers.deep_view();
    let mut out = String::new();
    let mut p: usize = 0;
    assert(sv.subrange(0, sv.len() as int) =~= sv);
    assert(out@ + Seq::<char>::empty() =~= out@);
    loop
        invariant
            p <= sv.len(),
            sv == v@,
            sv == formula_body(formula@),
            sv.len() > 0,
            hs == base_headers.deep_view(),
            refs_to_excel(sv, formula@, base_table_id@, hs, joins@)
                == after_text(out@, refs_to_excel(sv.subrange(p as int, sv.len() as int), formula@, base_table_id@, hs, joins@)),
        decreases sv.len() - p,
    {
        let i = match find_char_from(&v, '[', p) {
            None => {
                proof {
                    reveal(refs_to_excel);
                }
                let tail = string_of_range(&v, p, v.len());
                out.append(tail.as_str());
                return Ok(out);
            },
            Some(i) => i,
        };
        assert(i < v.len());
        let j = match find_char_from(&v, ']', i + 1) {
            None => {
                proof {
                    reveal(refs_to_excel);
                    let t = sv.subrange(p as int, sv.len() as int);
                    assert(t.subrange(i - p + 1, t.len() as int) =~= sv.subrange(i + 1, sv.len() as int));
                }
                let mut e = "公式括号未闭合: ".to_owned();
                e.append(formula);
                return Err(e);
            },
            Some(j) => j,
        };
        proof {
            lemma_refs_step(sv, p as int, i as int, j as int, formula@, base_table_id@, hs, joins@);
        }
        let inside_raw = chars_range(&v, i + 1, j);
        let inside_s = trimmed_chars(&inside_raw);
        let inside = chars_of(inside_s.as_str());
        let piece = match ref_piece_text(&inside, base_table_id, base_headers, joins) {
            Ok(x) => x,
            Err(e) => return Err(e),
        };
        let ghost o0 = out@;
        let before = string_of_range(&v, p, i);
        out.append(before.as_str());
        out.append(piece.as_str());
        proof {
            let rest = refs_to_excel(sv.subrange(j + 1, sv.len() as int), formula@, base_table_id@, hs, joins@);
            match rest {
                Ok(t) => {
                    assert(o0 + (sv.subrange(p as int, i as int) + piece@ + t) =~= out@ + t);
                },
                Err(e) => {},
            }
        }
        assert(j < v.len());
        p = j + 1;
    }
}

/// The formula of a calculation sheet over base sheet `b` with row expression `row`.
pub open spec fn calculate_formula(b: Seq<char>, headers: Seq<Seq<char>>, row: Seq<char>) -> Seq<char> {
    let end_col = col_name((headers.len() - 1) as nat);
    "=LET(base,FILTER("@ + sheet_ref(b) + "A2:"@ + end_col + "100000,"@ + sheet_ref(b) + "A2:A100000<>\"\"),HSTACK(base,MAP(SEQUENCE(ROWS(base)),LAMBDA(i,"@
        + row + "))))"@
}

/// The headers and formula of a calculation sheet.
pub fn calculate_sheet(ct: &CalculateTemplate) -> (r: Result<FormulaSheet, String>)
    ensures
        ({
            let hs = ct.base_headers.deep_view();
            match r {
                Ok(sh) => {
                    &&& sh.headers.deep_view() == hs.push(ct.output_field@)
                    &&& if hs.len() == 0 {
                        sh.formulas@.len() == 0
                    } else {
                        &&& formula_refs(ct.formula@, ct.base_table_id@, hs, ct.joins@) is Ok
                        &&& formulas_view(sh.formulas@) == seq![(0nat, calculate_formula(sanitized(ct.base_sheet@), hs,
                            formula_refs(ct.formula@, ct.base_table_id@, hs, ct.joins@)->Ok_0))]
                    }
                },
                Err(e) => hs.len() > 0 && formula_refs(ct.formula@, ct.base_table_id@, hs, ct.joins@) == Err::<Seq<char>, Seq<char>>(e@),
            }
        }),
{
    let b = sanitize_sheet_name(ct.base_sheet.as_str());
    let mut headers = crate::models::copy_texts(&ct.base_headers);
    let ghost h0 = headers;
    let of = ct.output_field.clone();
    headers.push(of);
    proof {
        lemma_dv_push(h0, headers, of);
    }
    if ct.base_headers.len() == 0 {
        return Ok(FormulaSheet { headers, formulas: Vec::new() });
    }
    let row = match formula_refs_to_excel(ct.formula.as_str(), ct.base_table_id.as_str(), &ct.base_headers, &ct.joins) {
        Ok(x) => x,
        Err(e) => return Err(e),
    };
    let end_col = col_letter(ct.base_headers.len() - 1);
    let mut f = "=LET(base,FILTER(".to_owned();
    push_sheet_ref(&mut f, b.as_str());
    f.append("A2:");
    f.append(end_col.as_str());
    f.append("100000,");
    push_sheet_ref(&mut f, b.as_str());
    f.append("A2:A100000<>\"\"),HSTACK(base,MAP(SEQUENCE(ROWS(base)),LAMBDA(i,");
    f.append(row.as_str());
    f.append("))))");
    let mut formulas: Vec<(usize, String)> = Vec::new();
    formulas.push((0, f));
    assert(formulas_view(formulas@) =~= seq![(0nat, calculate_formula(b@, ct.base_headers.deep_view(), row@))]);
    Ok(FormulaSheet { headers, formulas })
}

/// The formulas of a lookup-subtract sheet over pivot sheet `p` and data sheet `r`
/// with key and value columns `lk`, `lv` (pivot) and `rk`, `rv` (data).
pub open spec fn new_premium_formulas(p: Seq<char>, r: Seq<char>, n: nat, lk: nat, lv: nat, rk: nat, rv: nat) -> Seq<(nat, Seq<char>)> {
    let end_col = col_name(if n > 0 { (n - 1) as nat } else { 0 });
    let lkr = column_range(p, lk, 100000);
    seq![
        (0nat, "=FILTER("@ + sheet_ref(p) + "A2:"@ + end_col + "100000,"@ + sheet_ref(p) + "A2:A100000<>\"\")"@),
        (n, "=MAP(FILTER("@ + lkr + ","@ + lkr + "<>\"\"),LAMBDA(k,IFERROR(XLOOKUP(k,"@ + sheet_ref(p) + col_name(lk) + ":"@ + col_name(lk) + ","@
            + sheet_ref(p) + col_name(lv) + ":"@ + col_name(lv) + ",0),0)-SUMIF("@ + sheet_ref(r) + col_name(rk) + ":"@ + col_name(rk) + ",k,"@
            + sheet_ref(r) + col_name(rv) + ":"@ + col_name(rv) + ")))"@),
    ]
}

/// Position of `x` in `xs`, or `d` when absent.
pub open spec fn position_or(xs: Seq<Seq<char>>, x: Seq<char>, d: nat) -> nat {
    if has_text(xs, x) { position(xs, x) as nat } else { d }
}

/// `position_or` of a text.
fn position_or_exec(xs: &Vec<String>, x: &str, d: usize) -> (r: usize)
    ensures
        r as nat == position_or(xs.deep_view(), x@, d as nat),
{
    match find_text(xs, x) {
        Some(i) => {
            proof {
                lemma_first_at_unique(xs.deep_view(), x@, i as int);
            }
            i
        },
        None => d,
    }
}

/// Appends `'sheet'!C:C` for column `c`.
fn push_whole_column(s: &mut String, sheet: &str, c: usize)
    ensures
        final(s)@ == old(s)@ + sheet_ref(sheet@) + col_name(c as nat) + ":"@ + col_name(c as nat),
{
    push_sheet_ref(s, sheet);
    let cl = col_letter(c);
    s.append(cl.as_str());
    s.append(":");
    s.append(cl.as_str());
}

/// The headers and formulas of a lookup-subtract sheet: the pivot rows, then per key
/// the pivot value minus the sum of the data values with that key.
pub fn new_premium_sheet(np: &NewPremiumTemplate) -> (r: FormulaSheet)
    ensures
        ({
            let ph = np.pivot_headers.deep_view();
            let rh = np.right_headers.deep_view();
            let n = ph.len();
            &&& r.headers.deep_view() == ph.push(np.output_field@)
            &&& formulas_view(r.formulas@) == new_premium_formulas(
                sanitized(np.pivot_sheet@),
                data_sheet_name(np.right_data_sheet@),
                n,
                position_or(ph, np.left_key@, 0),
                position_or(ph, np.left_value_field@, if n > 0 { (n - 1) as nat } else { 0 }),
                position_or(rh, np.right_key@, 0),
                position_or(rh, np.right_value_field@, 1),
            )
        }),
{
    let p = sanitize_sheet_name(np.pivot_sheet.as_str());
    let mut pre = "数据_".to_owned();
    pre.append(np.right_data_sheet.as_str());
    let r = sanitize_sheet_name(pre.as_str());
    let mut headers = crate::models::copy_texts(&np.pivot_headers);
    let ghost h0 = headers;
    let of = np.output_field.clone();
    headers.push(of);
    proof {
        lemma_dv_push(h0, headers, of);
    }
    let n = np.pivot_headers.len();
    let last = if n > 0 { n - 1 } else { 0 };
    let end_col = col_letter(last);
    let mut spill = "=FILTER(".to_owned();
    push_sheet_ref(&mut spill, p.as_str());
    spill.append("A2:");
    spill.append(end_col.as_str());
    spill.append("100000,");
    push_sheet_ref(&mut spill, p.as_str());
    spill.append("A2:A100000<>\"\")");
    let lk = position_or_exec(&np.pivot_headers, np.left_key.as_str(), 0);
    let lv = position_or_exec(&np.pivot_headers, np.left_value_field.as_str(), last);
    let rk = position_or_exec(&np.right_headers, np.right_key.as_str(), 0);
    let rv = position_or_exec(&np.right_headers, np.right_value_field.as_str(), 1);
    let lkr = range_text(p.as_str(), lk, 100000);
    let mut f = "=MAP(FILTER(".to_owned();
    f.append(lkr.as_str());
    f.append(",");
    f.append(lkr.as_str());
    f.append("<>\"\"),LAMBDA(k,IFERROR(XLOOKUP(k,");
    push_whole_column(&mut f, p.as_str(), lk);
    f.append(",");
    push_whole_column(&mut f, p.as_str(), lv);
    f.append(",0),0)-SUMIF(");
    push_whole_column(&mut f, r.as_str(), rk);
    f.append(",k,");
    push_whole_column(&mut f, r.as_str(), rv);
    f.append(")))");
    let mut formulas: Vec<(usize, String)> = Vec::new();
    formulas.push((0, spill));
    formulas.push((n, f));
    assert(formulas_view(formulas@) =~= new_premium_formulas(p@, r@, n as nat, lk as nat, lv as nat, rk as nat, rv as nat));
    FormulaSheet { headers, formulas }
}

/// The default header color, orange with white text.
pub open spec fn default_header() -> (u32, bool) {
    (0xED7D31, true)
}

/// The header colors to pick from.
pub open spec fn base_palette() -> Seq<(u32, bool)> {
    seq![
        (0xED7D31u32, true),
        (0x5B9BD5u32, true),
        (0x70AD47u32, true),
        (0x7030A0u32, true),
        (0xC45911u32, true),
        (0x00B0F0u32, true),
        (0xFFC000u32, false),
        (0xA9D08Eu32, false),
        (0xF4B183u32, false),
        (0x9DC3E6u32, false),
    ]
}

/// The shuffle generator's first state for the clock reading `nanos`.
pub open spec fn palette_seed(nanos: u64) -> u64 {
    vstd::wrapping::u64_specs::wrapping_mul(nanos, 0x9E37_79B9_7F4A_7C15) | 1
}

/// The shuffle generator's next state.
pub open spec fn palette_step(state: u64) -> u64 {
    vstd::wrapping::u64_specs::wrapping_add(vstd::wrapping::u64_specs::wrapping_mul(state, 6364136223846793005), 1)
}

/// `p` after the Fisher-Yates steps for positions `i` down to 1, drawing from the
/// generator after `state`: position `i` swaps with `(next >> 33) % (i + 1)`.
pub open spec fn palette_shuffle(p: Seq<(u32, bool)>, state: u64, i: int) -> Seq<(u32, bool)>
    decreases i,
{
    if i < 1 || i >= p.len() {
        p
    } else {
        let next = palette_step(state);
        let j = ((next >> 33u64) % ((i + 1) as u64)) as int;
        palette_shuffle(p.update(i, p[j]).update(j, p[i]), next, i - 1)
    }
}

/// The header colors, shuffled by a generator seeded with `nanos` (a clock reading),
/// so that different results get different colors.
pub fn header_color_palette(nanos: u64) -> (p: Vec<(u32, bool)>)
    ensures
        p@ == palette_shuffle(base_palette(), palette_seed(nanos), base_palette().len() - 1),
        p@.to_multiset() == base_palette().to_multiset(),
{
    let mut p: Vec<(u32, bool)> = Vec::new();
    p.push((0xED7D31, true));
    p.push((0x5B9BD5, true));
    p.push((0x70AD47, true));
    p.push((0x7030A0, true));
    p.push((0xC45911, true));
    p.push((0x00B0F0, true));
    p.push((0xFFC000, false));
    p.push((0xA9D08E, false));
    p.push((0xF4B183, false));
    p.push((0x9DC3E6, false));
    assert(p@ =~= base_palette());
    let mut state: u64 = nanos.wrapping_mul(0x9E37_79B9_7F4A_7C15) | 1;
    let mut i: usize = p.len() - 1;
    while i >= 1
        invariant
            i < p@.len(),
            p@.len() == base_palette().len(),
            p@.to_multiset() == base_palette().to_multiset(),
            palette_shuffle(p@, state, i as int) == palette_shuffle(base_palette(), palette_seed(nanos), base_palette().len() - 1),
        decreases i,
    {
        state = state.wrapping_mul(6364136223846793005).wrapping_add(1);
        let j = ((state >> 33u64) % ((i + 1) as u64)) as usize;
        let ghost before = p@;
        let a = p[i];
        let b = p[j];
        p.set(i, b);
        p.set(j, a);
        proof {
            assert(p@ =~= before.update(i as int, b).update(j as int, a));
            lemma_swap_multiset(before, i as int, j as int);
        }
        i -= 1;
    }
    p
}

proof fn lemma_swap_multiset<A>(s: Seq<A>, i: int, j: int)
    requires
        0 <= i < s.len(),
        0 <= j < s.len(),
    ensures
        s.update(i, s[j]).update(j, s[i]).to_multiset() == s.to_multiset(),
{
    broadcast use vstd::multiset::group_multiset_axioms;
    let t = s.update(i, s[j]);
    vstd::seq_lib::to_multiset_update(s, i, s[j]);
    vstd::seq_lib::to_multiset_update(t, j, s[i]);
    if i == j {
        assert(t.update(j, s[i]) =~= s);
    } else {
        assert(t[j] == s[j]);
        assert(s.to_multiset().insert(s[j]).remove(s[i]).insert(s[i]).remove(s[j]) =~= s.to_multiset()) by {
            vstd::seq_lib::to_multiset_contains(s, s[i]);
            vstd::seq_lib::to_multiset_contains(s, s[j]);
            assert(s.contains(s[i]));
            assert(s.contains(s[j]));
        }
    }
}

/// The groups of `groups`, each once, in order of first appearance.
pub open spec fn distinct_groups(groups: Seq<u32>) -> Seq<u32>
    decreases groups.len(),
{
    if groups.len() == 0 {
        Seq::empty()
    } else {
        let p = distinct_groups(groups.drop_last());
        if p.contains(groups.last()) { p } else { p.push(groups.last()) }
    }
}

/// Header color of each of `n` columns: one default color when the columns share one
/// group (or have none), else the `k`-th distinct group gets palette entry `k`
/// (cycling) and a column past the groups takes group 0's color, or the default.
pub open spec fn header_colors_spec(groups: Seq<u32>, n: nat, palette: Seq<(u32, bool)>) -> Seq<(u32, bool)> {
    if groups.len() == 0 || (forall|i: int| 0 <= i < groups.len() ==> #[trigger] groups[i] == groups[0]) {
        Seq::new(n, |i: int| default_header())
    } else {
        let u = distinct_groups(groups);
        Seq::new(n, |i: int| {
            let g = if i < groups.len() { groups[i] } else { 0u32 };
            if has_text(u, g) { palette[position(u, g) % palette.len() as int] } else { default_header() }
        })
    }
}

/// Header colors of `col_count` columns with groups `groups` (see `header_colors_spec`).
pub fn header_colors(groups: &Vec<u32>, col_count: usize, palette: &Vec<(u32, bool)>) -> (r: Vec<(u32, bool)>)
    requires
        palette@.len() > 0,
    ensures
        r@ == header_colors_spec(groups@, col_count as nat, palette@),
{
    let mut same = true;
    let mut i: usize = 0;
    while i < groups.len()
        invariant
            i <= groups@.len(),
            same == (forall|j: int| 0 <= j < i ==> #[trigger] groups@[j] == groups@[0]),
        decreases groups@.len() - i,
    {
        if groups[i] != groups[0] {
            same = false;
        }
        i += 1;
    }
    let mut r: Vec<(u32, bool)> = Vec::new();
    if groups.len() == 0 || same {
        let mut c: usize = 0;
        while c < col_count
            invariant
                c <= col_count,
                r@ == Seq::new(c as nat, |i: int| default_header()),
            decreases col_count - c,
        {
            r.push((0xED7D31, true));
            assert(r@ =~= Seq::new((c + 1) as nat, |i: int| default_header()));
            c += 1;
        }
        return r;
    }
    // Distinct groups in order of first appearance.
    let mut u: Vec<u32> = Vec::new();
    let mut i: usize = 0;
    while i < groups.len()
        invariant
            i <= groups@.len(),
            u@ == distinct_groups(groups@.take(i as int)),
        decreases groups@.len() - i,
    {
        assert(groups@.take(i + 1).drop_last() =~= groups@.take(i as int));
        let g = groups[i];
        let mut k: usize = 0;
        let mut found = false;
        while k < u.len()
            invariant
                k <= u@.len(),
                found == (exists|j: int| 0 <= j < k && #[trigger] u@[j] == g),
            decreases u@.len() - k,
        {
            if u[k] == g {
                found = true;
            }
            k += 1;
        }
        if !found {
            u.push(g);
        }
        i += 1;
    }
    assert(groups@.take(i as int) =~= groups@);
    let ghost uv = u@;
    let mut c: usize = 0;
    while c < col_count
        invariant
            c <= col_count,
            uv == u@,
            uv == distinct_groups(groups@),
            palette@.len() > 0,
            !(groups@.len() == 0 || (forall|j: int| 0 <= j < groups@.len() ==> #[trigger] groups@[j] == groups@[0])),
            r@ == header_colors_spec(groups@, col_count as nat, palette@).take(c as int),
        decreases col_count - c,
    {
        let g = if c < groups.len() { groups[c] } else { 0 };
        let mut k: usize = 0;
        let mut hit = false;
        while k < u.len() && !hit
            invariant
                k <= uv.len(),
                uv == u@,
                forall|j: int| 0 <= j < k ==> uv[j] != g,
                hit ==> k < uv.len() && uv[k as int] == g,
            decreases uv.len() - k + (if hit { 0int } else { 1int }),
        {
            if u[k] == g {
                hit = true;
            } else {
                k += 1;
            }
        }
        let color = if hit {
            proof {
                assert(has_text(uv, g));
                assert(first_at(uv, g, k as int));
                lemma_first_at_unique(uv, g, k as int);
            }
            palette[k % palette.len()]
        } else {
            proof {
                assert(!has_text(uv, g));
            }
            (0xED7D31, true)
        };
        let ghost r0 = r@;
        r.push(color);
        proof {
            let want = header_colors_spec(groups@, col_count as nat, palette@);
            assert(want[c as int] == color);
            assert(r@ =~= want.take(c + 1));
        }
        c += 1;
    }
    assert(header_colors_spec(groups@, col_count as nat, palette@).take(c as int) =~= header_colors_spec(groups@, col_count as nat, palette@));
    r
}

/// File name of a result workbook: the pipeline name, the file key unless it is
/// `main` or empty, and the time stamp.
pub open spec fn result_file_name_spec(name: Seq<char>, key: Seq<char>, stamp: Seq<char>) -> Seq<char> {
    if key == "main"@ || key.len() == 0 {
        name + "_"@ + stamp + ".xlsx"@
    } else {
        name + "_"@ + key + "_"@ + stamp + ".xlsx"@
    }
}

/// File name of a result workbook (see `result_file_name_spec`).
pub fn result_file_name(pipeline_name: &str, file_key: &str, stamp: &str) -> (r: String)
    ensures
        r@ == result_file_name_spec(pipeline_name@, file_key@, stamp@),
{
    let mut r = pipeline_name.to_owned();
    r.append("_");
    if !(same_text(file_key, "main") || file_key.is_empty()) {
        r.append(file_key);
        r.append("_");
    }
    r.append(stamp);
    r.append(".xlsx");
    r
}

/// The text of a cell to read as a number when the cell is written, when it may be one:
/// not blank, no exponent, no leading zero (but for `0.`), at most 11 integer digits; it
/// is the trimmed text without `,` and `，`. Other cells (long ids, codes with leading
/// zeros, scientific text) are written as text.
pub open spec fn number_text(s: Seq<char>) -> Option<Seq<char>> {
    let t = trim(s);
    if t.len() == 0 || t.contains('E') || t.contains('e') {
        None
    } else {
        let cleaned = without_commas(t);
        let body = without_leading_minus(cleaned);
        if body.len() > 1 && body[0] == '0' && body[1] != '.' {
            None
        } else if utf8_len(before_dot(body)) > 11 {
            None
        } else {
            Some(cleaned)
        }
    }
}

/// The text of a cell to read as a number when written (see `number_text`).
pub fn number_candidate(s: &str) -> (r: Option<String>)
    ensures
        crate::numbers::opt_view(r) == number_text(s@),
{
    let t = trimmed(s);
    let tv = chars_of(t.as_str());
    if tv.len() == 0 {
        return None;
    }
    let e_upper = find_char_from(&tv, 'E', 0);
    let e_lower = find_char_from(&tv, 'e', 0);
    proof {
        assert(tv@.subrange(0, tv@.len() as int) =~= tv@);
        crate::text::lemma_find_char_range(tv@, 'E');
        crate::text::lemma_find_char_range(tv@, 'e');
    }
    if e_upper.is_some() || e_lower.is_some() {
        proof {
            if e_upper.is_some() {
                assert(tv@.contains('E'));
            } else {
                assert(tv@.contains('e'));
            }
        }
        return None;
    }
    assert(!tv@.contains('E') && !tv@.contains('e'));
    let cleaned = drop_commas(&tv);
    let mut k: usize = 0;
    while k < cleaned.len() && cleaned[k] == '-'
        invariant
            k <= cleaned@.len(),
            forall|i: int| 0 <= i < k ==> cleaned@[i] == '-',
        decreases cleaned@.len() - k,
    {
        k += 1;
    }
    proof {
        lemma_without_leading_minus_skip(cleaned@, k as int);
    }
    let ghost body = cleaned@.subrange(k as int, cleaned@.len() as int);
    if cleaned.len() - k > 1 && cleaned[k] == '0' && cleaned[k + 1] != '.' {
        assert(body[0] == cleaned@[k as int] && body[1] == cleaned@[k + 1]);
        return None;
    }
    proof {
        if body.len() > 1 {
            assert(body[0] == cleaned@[k as int] && body[1] == cleaned@[k + 1]);
        }
    }
    let end = match find_char_from(&cleaned, '.', k) {
        Some(d) => d,
        None => cleaned.len(),
    };
    let ghost digits = cleaned@.subrange(k as int, end as int);
    proof {
        if end < cleaned.len() {
            assert(before_dot(body) =~= digits);
        } else {
            assert(before_dot(body) == body);
            assert(digits =~= body);
        }
    }
    if utf8_longer_than(&cleaned, k, end, 11) {
        return None;
    }
    let text = string_of(cleaned.as_slice());
    proof {
        let tt = trim(s@);
        assert(tv@ == tt);
        assert(cleaned@ == without_commas(tt));
        assert(before_dot(without_leading_minus(without_commas(tt))) == digits);
        assert(text@ == without_commas(tt));
    }
    Some(text)
}

} // verus!
