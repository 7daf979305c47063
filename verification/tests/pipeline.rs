use std::collections::HashMap;

use auto_excel::commands::{export_formula_template, preview_step, run_pipeline_inner, run_scanned};
use auto_excel::dates::{extract_date_from_name, parse_source_date};
use auto_excel::engine::{Runtime, SourceLoad};
use auto_excel::excel_io::{apply_filter, match_key, merge_dated_tables, safe_numeric_key};
use auto_excel::folder::{folder_preview, merge_folder_parts, rank_excel_files, read_folder_merged, RankedFile};
use auto_excel::folder_run::{
    folder_run_prep, parse_flag_value, parse_folder_run, prepare_scheme_for_folder, required_source_ids,
    resolve_folder_arg,
};
use auto_excel::models::{
    CalcJoin, DataTable, FilterCondition, Operation, Pipeline, PivotValue, ResultSpec, SchemeSummary, SortKey,
    SourceTable, Step,
};
use auto_excel::formula::{parse_formula, tokenize, FormulaExpr, FormulaToken};
use auto_excel::numbers::{Aggregate, CellOrder, Numbers};
use auto_excel::ops::{apply_calculate, apply_dedupe, apply_pivot, apply_side_by_side, apply_sort, apply_vlookup};
use auto_excel::schemes::{rename_pipeline, sort_schemes, unique_copy_name};
use auto_excel::sheet::{
    detect_header_row, peek_raw_rows, read_excel_first_sheet, read_excel_preview, scan_sheet_meta, RawCell, RawSheet,
};
use auto_excel::shell_menu::{menu_items, menu_plan, sanitize_key, unregister};
use auto_excel::scan::{folder_files, is_excel, scan_directory, stem_of, FileEntry};
use auto_excel::folder::read_folder_preview;
use auto_excel::folder_run::remap_header_rows;
use auto_excel::writer::number_candidate;
use auto_excel::template::{plan_formula_template, template_sheets, TemplateSheet};
use auto_excel::writer::{col_letter, header_color_palette, sanitize_sheet_name};

// ---------- numeric reading of cells (binary floating point) ----------

fn format_plain_number(f: f64) -> String {
    if !f.is_finite() {
        return String::new();
    }
    if f.fract() == 0.0 || (f.round() - f).abs() < 1e-9 {
        format!("{:.0}", f)
    } else {
        let s = format!("{f:.15}");
        s.trim_end_matches('0').trim_end_matches('.').to_string()
    }
}

fn parse_number(s: &str) -> f64 {
    let cleaned = s.replace(',', "").replace('，', "").trim().to_string();
    cleaned.parse::<f64>().unwrap_or(0.0)
}

fn parse_number_opt(s: &str) -> Option<f64> {
    let cleaned = s.replace(',', "").replace('，', "").trim().to_string();
    if cleaned.is_empty() {
        return None;
    }
    cleaned.parse::<f64>().ok()
}

fn numeric_key(cleaned: &str) -> Option<String> {
    let n: f64 = cleaned.parse().ok()?;
    if !n.is_finite() || n.abs() >= 1e15 {
        return None;
    }
    if n.fract() == 0.0 {
        Some(format!("{}", n as i64))
    } else {
        Some(format_plain_number(n))
    }
}

fn numeric_order(a: &str, b: &str) -> Option<CellOrder> {
    match (parse_number_opt(a), parse_number_opt(b)) {
        (Some(x), Some(y)) => Some(match x.partial_cmp(&y) {
            Some(std::cmp::Ordering::Less) => CellOrder::Less,
            Some(std::cmp::Ordering::Greater) => CellOrder::Greater,
            _ => CellOrder::Equal,
        }),
        _ => None,
    }
}

fn total(cells: &Vec<String>, agg: Aggregate) -> String {
    let sum: f64 = cells.iter().map(|c| parse_number(c)).sum();
    let count = cells.len();
    let v = match agg {
        Aggregate::Count => count as f64,
        Aggregate::Avg => {
            if count == 0 {
                0.0
            } else {
                sum / count as f64
            }
        }
        Aggregate::Sum => sum,
    };
    format_plain_number(v)
}

fn eval_tree(e: &FormulaExpr, ctx: &HashMap<String, f64>) -> f64 {
    match e {
        FormulaExpr::Num(text) => text.parse::<f64>().unwrap_or(0.0),
        FormulaExpr::Ref(name) => ctx.get(name).copied().unwrap_or(0.0),
        FormulaExpr::Neg(x) => -eval_tree(x, ctx),
        FormulaExpr::Bin(op, l, r) => {
            let a = eval_tree(l, ctx);
            let b = eval_tree(r, ctx);
            match op {
                '+' => a + b,
                '-' => a - b,
                '*' => a * b,
                _ => {
                    if b == 0.0 {
                        0.0
                    } else {
                        a / b
                    }
                }
            }
        }
    }
}

fn evaluate(expr: &FormulaExpr, ctx: &Vec<(String, String)>) -> String {
    let mut values: HashMap<String, f64> = HashMap::new();
    for (name, cell) in ctx {
        values.insert(name.clone(), parse_number(cell));
    }
    format_plain_number(eval_tree(expr, &values))
}

type Nums = Numbers<
    fn(&str) -> Option<String>,
    fn(&str, &str) -> Option<CellOrder>,
    fn(&Vec<String>, Aggregate) -> String,
    fn(&FormulaExpr, &Vec<(String, String)>) -> String,
>;

fn nums() -> Nums {
    Numbers {
        numeric_key: numeric_key as fn(&str) -> Option<String>,
        numeric_order: numeric_order as fn(&str, &str) -> Option<CellOrder>,
        total: total as fn(&Vec<String>, Aggregate) -> String,
        evaluate: evaluate as fn(&FormulaExpr, &Vec<(String, String)>) -> String,
    }
}

// ---------- table helpers ----------

fn strs(xs: &[&str]) -> Vec<String> {
    xs.iter().map(|x| x.to_string()).collect()
}

fn table(headers: &[&str], rows: &[&[&str]]) -> DataTable {
    DataTable { headers: strs(headers), rows: rows.iter().map(|r| strs(r)).collect(), header_groups: vec![] }
}

fn sample_niche() -> DataTable {
    table(
        &["二级机构", "渠道", "业务员代码", "业务员名称", "保费变化量不含税"],
        &[
            &["江苏南京支公司", "个险", "A001", "张三", "1000"],
            &["江苏苏州支公司", "个险", "A002", "李四", "5000"],
            &["江苏无锡支公司", "DIY", "A003", "王五", "2000"],
            &["江苏南京支公司", "银保", "A001", "张三", "500"],
        ],
    )
}

fn sample_hist() -> DataTable {
    table(&["业务员代码", "保费"], &[&["A001", "800"], &["A004", "100"]])
}

fn cond(column: &str, op: &str, value: &str) -> FilterCondition {
    FilterCondition { column: column.into(), op: op.into(), value: value.into() }
}

fn empty_pipeline() -> Pipeline {
    Pipeline {
        id: "demo".into(),
        name: "demo".into(),
        source_dir: "".into(),
        output_dir: "".into(),
        header_rows: vec![],
        steps: vec![],
        output_sheets: vec![],
        folder_merges: vec![],
    }
}

fn demo_steps() -> Vec<Step> {
    vec![
        Step {
            id: "1".into(),
            name: "筛选".into(),
            output_table_id: "tmp:f".into(),
            operation: Operation::Filter {
                input_table_id: "src:利基清单".into(),
                conditions: vec![
                    cond("二级机构", "not_contains", "江苏苏州支公司"),
                    cond("渠道", "not_contains", "DIY"),
                ],
            },
            result: Some(ResultSpec { enabled: true, file_key: "main".into(), sheet_name: "筛选".into() }),
        },
        Step {
            id: "2".into(),
            name: "透视".into(),
            output_table_id: "tmp:p".into(),
            operation: Operation::Pivot {
                input_table_id: "tmp:f".into(),
                row_fields: strs(&["业务员代码", "业务员名称"]),
                value_fields: vec![PivotValue {
                    field: "保费变化量不含税".into(),
                    aggregation: "sum".into(),
                    alias: String::new(),
                }],
                value_field: String::new(),
                aggregation: "sum".into(),
            },
            result: None,
        },
    ]
}

fn temp<'a>(rt: &'a Runtime, id: &str) -> Option<&'a DataTable> {
    rt.temps.iter().find(|(k, _)| k == id).map(|(_, t)| t)
}

fn source_meta(id: &str, name: &str, header_ok: bool) -> SourceTable {
    SourceTable {
        id: id.into(),
        name: name.into(),
        path: format!("/data/{name}.xlsx"),
        headers: vec![],
        row_count: 0,
        header_row: 1,
        header_ok,
        header_message: String::new(),
        kind: "file".into(),
        file_count: 1,
        sample_path: format!("/data/{name}.xlsx"),
    }
}

fn cell(text: &str) -> RawCell {
    RawCell { text: text.into(), number: text.trim().parse::<f64>().is_ok() }
}

fn sheet(rows: &[&[&str]]) -> RawSheet {
    RawSheet { path: "/data/book.xlsx".into(), rows: rows.iter().map(|r| r.iter().map(|c| cell(c)).collect()).collect() }
}

fn ranked(path: &str, date: &str, mtime: u64) -> RankedFile {
    let name = path.rsplit('/').next().unwrap_or(path).to_string();
    RankedFile { path: path.into(), name, date: date.into(), mtime }
}

// ---------- pipelines on the sample tables ----------

#[test]
fn mvp_niche_pipeline() {
    let n = nums();
    let niche = sample_niche();
    let hist = sample_hist();

    let filtered = apply_filter(
        &niche,
        &[cond("二级机构", "not_contains", "江苏苏州支公司"), cond("渠道", "not_contains", "DIY")],
    )
    .unwrap();
    assert_eq!(filtered.rows.len(), 2);

    let pivot = apply_pivot(
        &n,
        &filtered,
        &strs(&["业务员代码", "业务员名称"]),
        &[PivotValue { field: "保费变化量不含税".into(), aggregation: "sum".into(), alias: String::new() }],
        "",
        "sum",
    )
    .unwrap();
    assert_eq!(pivot.rows.len(), 1);
    assert_eq!(pivot.rows[0][0], "A001");
    assert_eq!(pivot.rows[0][2], "1500");

    let tables: Vec<(String, &DataTable)> = vec![("tmp:p".into(), &pivot), ("src:2025同月保费".into(), &hist)];
    let added = apply_calculate(
        &n,
        &tables,
        "tmp:p",
        "新增保费",
        "=[tmp:p!保费变化量不含税_求和]-[src:2025同月保费!保费]",
        &[CalcJoin {
            table_id: "src:2025同月保费".into(),
            base_key: "业务员代码".into(),
            foreign_key: "业务员代码".into(),
        }],
    )
    .unwrap();
    assert_eq!(added.rows[0].last().unwrap(), "700");

    let side = apply_side_by_side(&[&hist, &pivot, &added]).unwrap();
    assert!(side.headers.iter().any(|h| h.is_empty()));
}

#[test]
fn missing_column_errors() {
    let t = sample_niche();
    let err = apply_filter(&t, &[cond("不存在的列", "eq", "x")]).unwrap_err();
    assert!(err.contains("重新映射"));
}

#[test]
fn runtime_executes_steps() {
    let n = nums();
    let mut runtime = Runtime {
        sources: vec![("src:利基清单".into(), sample_niche()), ("src:2025同月保费".into(), sample_hist())],
        source_meta: vec![],
        temps: vec![],
        header_rows: vec![],
        folder_merges: vec![],
    };
    let mut pipeline = empty_pipeline();
    pipeline.steps = demo_steps();
    let load = |_: &SourceLoad, _: &Vec<(String, usize)>| -> Result<DataTable, String> { Err("no files".into()) };
    runtime.run_until(&n, &pipeline, None, &load).unwrap();
    assert_eq!(temp(&runtime, "tmp:f").unwrap().rows.len(), 2);
    assert_eq!(temp(&runtime, "tmp:p").unwrap().rows.len(), 1);
}

#[test]
fn parse_dates_from_filenames() {
    assert_eq!(parse_source_date("出单_20260818", None), "2026-08-18");
    assert_eq!(parse_source_date("日报-2026-08-19", None), "2026-08-19");
    assert_eq!(parse_source_date("2026_08_01_出单", None), "2026-08-01");
}

#[test]
fn merge_overwrites_by_key_keeps_latest_date() {
    let n = nums();
    let old = table(&["代码", "保费"], &[&["A001", "100"], &["A002", "200"]]);
    let new = table(&["代码", "保费", "机构"], &[&["A001", "150", "南京"], &["A003", "90", "苏州"]]);
    let out = merge_dated_tables(&n, &[("2026-08-17".into(), old), ("2026-08-18".into(), new)], "代码").unwrap();
    assert_eq!(out.headers, vec!["代码", "保费", "机构", "来源日期"]);
    assert_eq!(out.rows.len(), 3);
    assert_eq!(out.rows[0], vec!["A001", "150", "南京", "2026-08-18"]);
    assert_eq!(out.rows[1], vec!["A002", "200", "", "2026-08-17"]);
    assert_eq!(out.rows[2], vec!["A003", "90", "苏州", "2026-08-18"]);
}

#[test]
fn long_ids_are_not_scientific_and_match_as_text() {
    let n = nums();
    let formatted = format_plain_number(1.0356050720250143e18);
    assert!(!formatted.contains('E') && !formatted.contains('e'));
    let id = "1035605072025014251";
    assert_eq!(match_key(&n, id), id);
    assert_eq!(safe_numeric_key(&n, id), None);
    assert_eq!(match_key(&n, "1.0"), "1");
    assert_eq!(match_key(&n, "001"), "1");
}

#[test]
fn formula_subtract() {
    let mut ctx = HashMap::new();
    ctx.insert("a".to_string(), 1500.0);
    ctx.insert("b".to_string(), 800.0);
    let tree = parse_formula("[a]-[b]", &strs(&["a", "b"])).unwrap();
    assert_eq!(eval_tree(&tree, &ctx), 700.0);
}

#[test]
fn formula_grammar() {
    let known = strs(&["a", "b", "表!x"]);
    let t = parse_formula(" [a] + [b]*2 - -( [ 表!x ] / 4)", &known).unwrap();
    match t {
        FormulaExpr::Bin('-', l, r) => {
            match *l {
                FormulaExpr::Bin('+', a, m) => {
                    assert!(matches!(*a, FormulaExpr::Ref(ref n) if n == "a"));
                    assert!(matches!(*m, FormulaExpr::Bin('*', _, _)));
                }
                _ => panic!("sum expected"),
            }
            assert!(matches!(*r, FormulaExpr::Neg(_)));
        }
        _ => panic!("difference expected"),
    }
    let n = nums();
    let ctx = vec![("a".to_string(), "10".to_string()), ("b".to_string(), "3".to_string()), ("表!x".to_string(), "8".to_string())];
    assert_eq!(n.eval("[a] + [b]*2 - -( [ 表!x ] / 4)", &ctx).unwrap(), "18");
    assert_eq!(n.eval("[a]/0", &ctx).unwrap(), "0");
    match tokenize("1.5+[x]") {
        Ok(ts) => {
            assert_eq!(ts.len(), 3);
            assert!(matches!(&ts[0], FormulaToken::Num(s) if s == "1.5"));
            assert!(matches!(&ts[1], FormulaToken::Op('+')));
        }
        Err(_) => panic!("tokens expected"),
    }
    let err = |s: &str| match parse_formula(s, &known) {
        Ok(_) => String::new(),
        Err(e) => e,
    };
    assert_eq!(err("[a"), "缺少 ]");
    assert_eq!(err("[a] % 2"), "无法识别的字符: %");
    assert_eq!(err("1.2.3"), "无效数字: 1.2.3");
    assert_eq!(err("([a]+1"), "缺少 )");
    assert_eq!(err("[a]*"), "意外的标记: None");
    assert_eq!(err("*[a]"), "意外的标记: Some(Op('*'))");
    assert_eq!(err("[a] )"), "公式解析未完成，停在: Some(RParen)");
    assert_eq!(err("[zz]+"), "未知引用: [zz]，请检查表/列或关联键");
}

#[test]
fn vlookup_appends_matched_columns() {
    let n = nums();
    let left = table(&["代码", "姓名"], &[&["001", "张三"], &["2", "李四"], &["9", "无匹配"]]);
    let right = table(&["工号", "保费", "机构"], &[&["1", "100", "南京"], &["2", "200", "苏州"]]);
    let out = apply_vlookup(&n, &left, &right, "代码", "工号", &[], &[]).unwrap();
    assert_eq!(out.headers, vec!["代码", "姓名", "工号", "保费", "机构"]);
    assert_eq!(out.rows[0], vec!["001", "张三", "1", "100", "南京"]);
    assert_eq!(out.rows[1], vec!["2", "李四", "2", "200", "苏州"]);
    assert_eq!(out.rows[2], vec!["9", "无匹配", "", "", ""]);
}

#[test]
fn vlookup_picks_columns_and_renames_clash() {
    let n = nums();
    let left = table(&["代码", "名称"], &[&["A1", "甲"]]);
    let right = table(&["代码", "名称", "保费"], &[&["A1", "乙", "10"]]);
    let out = apply_vlookup(&n, &left, &right, "代码", "代码", &strs(&["代码", "名称"]), &strs(&["名称", "保费"])).unwrap();
    assert_eq!(out.headers, vec!["代码", "名称", "名称_B", "保费"]);
    assert_eq!(out.rows[0], vec!["A1", "甲", "乙", "10"]);
}

#[test]
fn sort_numeric_desc() {
    let n = nums();
    let t = table(&["名", "值"], &[&["a", "10"], &["b", "30"], &["c", "20"]]);
    let sorted = apply_sort(&n, &t, &[SortKey { column: "值".into(), direction: "desc".into() }]).unwrap();
    assert_eq!(sorted.rows[0][1], "30");
    assert_eq!(sorted.rows[2][1], "10");
}

#[test]
fn dedupe_keeps_first_by_columns() {
    let n = nums();
    let t = table(
        &["代码", "姓名", "保费"],
        &[
            &["A001", "张三", "100"],
            &["A001", "张三改", "200"],
            &["A002", "李四", "50"],
            &["1", "王五", "10"],
            &["1.0", "王五重复", "20"],
        ],
    );
    let by_code = apply_dedupe(&n, &t, &strs(&["代码"])).unwrap();
    assert_eq!(by_code.rows.len(), 3);
    assert_eq!(by_code.rows[0], vec!["A001", "张三", "100"]);
    assert_eq!(by_code.rows[1][0], "A002");
    assert_eq!(by_code.rows[2][1], "王五");

    let all = apply_dedupe(&n, &t, &[]).unwrap();
    assert_eq!(all.rows.len(), 5);
}

// ---------- merging cumulative folders ----------

#[test]
fn merge_keeps_one_row_per_key_the_newest() {
    let n = nums();
    let d1 = table(&["代码", "值"], &[&["1", "a"], &["2", "b"], &["", "x"]]);
    let d2 = table(&["值", "代码"], &[&["c", "1.0"], &["d", "3"], &["e", "2"], &["", ""]]);
    let d3 = table(&["代码", "值"], &[&["3", "f"]]);
    let out = merge_dated_tables(&n, &[("d1".into(), d1), ("d2".into(), d2), ("d3".into(), d3)], "代码").unwrap();
    assert_eq!(out.headers, vec!["代码", "值", "来源日期"]);
    assert_eq!(
        out.rows,
        vec![
            vec!["1.0", "c", "d2"],
            vec!["2", "e", "d2"],
            vec!["", "x", "d1"],
            vec!["3", "f", "d3"],
            vec!["", "", "d2"],
        ]
    );
}

#[test]
fn merge_without_key_keeps_all_rows() {
    let n = nums();
    let d1 = table(&["a", "来源日期"], &[&["1", "old"]]);
    let d2 = table(&["b"], &[&["2"]]);
    let out = merge_dated_tables(&n, &[("x".into(), d1), ("y".into(), d2)], "  ").unwrap();
    assert_eq!(out.headers, vec!["a", "b", "来源日期"]);
    assert_eq!(out.rows, vec![vec!["1", "", "x"], vec!["", "2", "y"]]);
}

#[test]
fn merge_errors() {
    let n = nums();
    assert_eq!(merge_dated_tables(&n, &[], "代码").unwrap_err(), "子文件夹中没有可合并的表");
    let d1 = table(&["a", "b"], &[]);
    assert_eq!(
        merge_dated_tables(&n, &[("x".into(), d1)], "c").unwrap_err(),
        "覆盖键列「c」不在累计表中。当前列: [a, b, 来源日期]"
    );
}

#[test]
fn folder_parts_report_every_problem() {
    let n = nums();
    let reads = vec![
        ("a.xlsx".to_string(), "2026-01-01".to_string(), Ok(table(&["x"], &[&["1"]]))),
        ("b.xlsx".to_string(), "2026-01-02".to_string(), Err("打开失败".to_string())),
        ("c.xlsx".to_string(), "2026-01-03".to_string(), Ok(table(&["代码"], &[&["1"]]))),
    ];
    let e = merge_folder_parts(&n, "/d/日报", "日报", &reads, "代码").unwrap_err();
    assert_eq!(
        e,
        "累计文件夹「日报」有 2 个文件不符合规范，已中止合并：\n1. 「a.xlsx」缺少覆盖键列「代码」。当前表头: [x]\n2. 「b.xlsx」: 打开失败"
    );
    let ok = merge_folder_parts(&n, "/d/日报", "日报", &reads[2..].to_vec(), "代码").unwrap();
    assert_eq!(ok.rows, vec![vec!["1", "2026-01-03"]]);
    assert_eq!(merge_folder_parts(&n, "/d/日报", "日报", &vec![], "").unwrap_err(), "子文件夹「/d/日报」没有可读的 Excel");
}

#[test]
fn rank_orders_by_date_then_mtime_then_path() {
    let files = vec![
        ranked("/d/c.xlsx", "2026-01-02", 5),
        ranked("/d/b.xlsx", "2026-01-01", 9),
        ranked("/d/a.xlsx", "2026-01-02", 5),
        ranked("/d/z.xlsx", "2026-01-02", 1),
    ];
    let r = rank_excel_files(&files);
    let paths: Vec<&str> = r.iter().map(|f| f.path.as_str()).collect();
    assert_eq!(paths, vec!["/d/b.xlsx", "/d/z.xlsx", "/d/a.xlsx", "/d/c.xlsx"]);
}

#[test]
fn read_folder_merged_reads_oldest_first() {
    let n = nums();
    let files = vec![ranked("/d/new.xlsx", "2026-02-01", 0), ranked("/d/old.xlsx", "2026-01-01", 0)];
    let open = |p: &str| -> Result<RawSheet, String> {
        if p == "/d/new.xlsx" {
            Ok(sheet(&[&["代码", "值"], &["A", "new"]]))
        } else {
            Ok(sheet(&[&["代码", "值"], &["A", "old"], &["B", "b"]]))
        }
    };
    let t = read_folder_merged(&n, "/d", "d", &files, &vec![], "代码", &open).unwrap();
    assert_eq!(t.rows, vec![vec!["A", "new", "2026-02-01"], vec!["B", "b", "2026-01-01"]]);
    let none: Vec<RankedFile> = vec![];
    assert_eq!(read_folder_merged(&n, "/d", "d", &none, &vec![], "", &open).unwrap_err(), "子文件夹中没有 Excel: /d");
}

#[test]
fn folder_preview_adds_date_column() {
    let p = folder_preview(table(&["a"], &[&["1"], &["2"]]), 7, "2026-03-03");
    assert_eq!(p.headers, vec!["a", "来源日期"]);
    assert_eq!(p.rows, vec![vec!["1", "2026-03-03"], vec!["2", "2026-03-03"]]);
    assert_eq!(p.total_rows, 7);
    let q = folder_preview(table(&["来源日期"], &[&["x"]]), 1, "2026-03-03");
    assert_eq!(q.headers, vec!["来源日期"]);
    assert_eq!(q.rows, vec![vec!["x"]]);
}

// ---------- dates in file names ----------

#[test]
fn dates_in_names() {
    assert_eq!(extract_date_from_name("2026年8月9日报表").as_deref(), Some("2026-08-09"));
    assert_eq!(extract_date_from_name("x2024.2.29").as_deref(), Some("2024-02-29"));
    assert_eq!(extract_date_from_name("x2023.2.29"), None);
    assert_eq!(extract_date_from_name("18990101"), None);
    assert_eq!(extract_date_from_name("报表"), None);
    assert_eq!(parse_source_date("报表", Some("2025-12-31".into())), "2025-12-31");
    assert_eq!(parse_source_date("报表", None), "");
}

// ---------- reading sheets ----------

#[test]
fn header_row_found_and_blank_rows_skipped() {
    let s = sheet(&[&["报表", "", ""], &["代码", "名称", ""], &["1", "甲", ""], &["", " ", ""], &["2", "乙", "x"]]);
    // With no header row given, the first non-empty row is the header.
    assert_eq!(detect_header_row(&s.rows), Some(1));
    let (t, row) = read_excel_first_sheet(&s, None).unwrap();
    assert_eq!(row, 1);
    assert_eq!(t.headers, vec!["报表"]);
    assert_eq!(t.rows, vec![vec!["代码"], vec!["1"], vec!["2"]]);
    let (t2, row2) = read_excel_first_sheet(&s, Some(2)).unwrap();
    assert_eq!(row2, 2);
    assert_eq!(t2.headers, vec!["代码", "名称"]);
    assert_eq!(t2.rows, vec![vec!["1", "甲"], vec!["2", "乙"]]);
    let (p, _, total) = read_excel_preview(&s, None, 0).unwrap();
    assert_eq!(p.rows.len(), 1);
    assert_eq!(total, 3);
    let late = sheet(&[&["", ""], &[" ", ""], &["代码", "名称"], &["1", "甲"]]);
    assert_eq!(detect_header_row(&late.rows), Some(3));
    let (hs, hr, count) = scan_sheet_meta(&s, Some(1)).unwrap();
    assert_eq!(hs, vec!["报表"]);
    assert_eq!(hr, 1);
    assert_eq!(count, 3);
    let (raw, height) = peek_raw_rows(&s, 2);
    assert_eq!(height, 5);
    assert_eq!(raw, vec![vec!["报表", "", ""], vec!["代码", "名称", ""]]);
}

#[test]
fn previews_and_scans_agree_with_full_reads() {
    let s = sheet(&[&["代码", "名称"], &["1", "甲"], &["", ""], &["2", "乙"], &["3", "丙"]]);
    let (full, row) = read_excel_first_sheet(&s, Some(1)).unwrap();
    for limit in [0usize, 1, 2, 3, 9] {
        let (p, prow, total) = read_excel_preview(&s, Some(1), limit).unwrap();
        let keep = limit.max(1).min(full.rows.len());
        assert_eq!(p.headers, full.headers);
        assert_eq!(prow, row);
        assert_eq!(total, full.rows.len());
        assert_eq!(p.rows, full.rows[..keep].to_vec());
        let (raw, height) = peek_raw_rows(&s, limit);
        assert_eq!(height, 5);
        assert_eq!(raw.len(), limit.max(1).min(5));
    }
    let (hs, hr, count) = scan_sheet_meta(&s, Some(1)).unwrap();
    assert_eq!((hs, hr, count), (full.headers.clone(), row, full.rows.len()));
    let empty = sheet(&[]);
    assert_eq!(read_excel_preview(&empty, None, 3).unwrap_err(), read_excel_first_sheet(&empty, None).unwrap_err());
    assert_eq!(scan_sheet_meta(&empty, None).unwrap_err(), read_excel_first_sheet(&empty, None).unwrap_err());
}

#[test]
fn header_errors() {
    let empty = sheet(&[]);
    assert_eq!(read_excel_first_sheet(&empty, None).unwrap_err(), "空表: /data/book.xlsx");
    let s = sheet(&[&["1", "2"], &["3", "4"]]);
    assert_eq!(
        read_excel_first_sheet(&s, Some(3)).unwrap_err(),
        "表头行 3 超出范围（共 2 行）: /data/book.xlsx"
    );
    assert_eq!(
        read_excel_first_sheet(&s, None).unwrap_err(),
        "未识别到有效表头（当前尝试第 1 行）。请手动指定表头行: /data/book.xlsx"
    );
    assert!(read_excel_first_sheet(&s, Some(1)).is_ok());
}

// ---------- running pipelines ----------

#[test]
fn run_pipeline_writes_marked_results() {
    let n = nums();
    let mut pipeline = empty_pipeline();
    pipeline.source_dir = "/data".into();
    pipeline.output_dir = "/out".into();
    pipeline.steps = demo_steps();
    let scan = |_: &str, _: &Vec<(String, usize)>| -> Result<Vec<SourceTable>, String> {
        Ok(vec![source_meta("src:利基清单", "利基清单", true)])
    };
    let load = |_: &SourceLoad, _: &Vec<(String, usize)>| -> Result<DataTable, String> { Ok(sample_niche()) };
    let write = |dir: &str, name: &str, sheets: &Vec<(String, DataTable)>| -> Result<String, String> {
        assert_eq!(dir, "/out");
        assert_eq!(name, "demo");
        assert_eq!(sheets.len(), 1);
        assert_eq!(sheets[0].1.rows.len(), 2);
        Ok(format!("{dir}/{name}.xlsx"))
    };
    let r = run_pipeline_inner(&n, &pipeline, &scan, &load, &write).unwrap();
    assert_eq!(r.output_files, vec!["/out/demo.xlsx"]);
    assert_eq!(r.sheet_names, vec!["筛选"]);
    assert_eq!(r.message, "执行完成");

    let mut no_out = pipeline.clone();
    no_out.output_dir = " ".into();
    assert_eq!(run_pipeline_inner(&n, &no_out, &scan, &load, &write).unwrap_err(), "请先配置输出目录");
}

#[test]
fn formula_template_sheets_in_reverse_order() {
    let mut pipeline = empty_pipeline();
    pipeline.source_dir = "/data".into();
    pipeline.steps = demo_steps();
    let scan = |_: &str, _: &Vec<(String, usize)>| -> Result<Vec<SourceTable>, String> {
        Ok(vec![source_meta("src:利基清单", "利基清单", true)])
    };
    let load = |_: &SourceLoad, _: &Vec<(String, usize)>| -> Result<DataTable, String> { Ok(sample_niche()) };
    let mut rt = Runtime::from_pipeline(&pipeline, &scan).unwrap();
    rt.load_all_sources(&load).unwrap();
    let plan = plan_formula_template(&rt, &pipeline).unwrap();
    assert_eq!(plan.sources.len(), 1);
    let f = plan.filter.as_ref().unwrap();
    assert_eq!(f.data_sheet, "利基清单");
    assert_eq!(f.data_rows, 4);
    let p = plan.pivot.as_ref().unwrap();
    assert_eq!(p.filtered_sheet, "筛选");
    assert_eq!(p.value_field, "保费变化量不含税");
    let sheets = template_sheets(&plan).unwrap();
    let names: Vec<String> = sheets
        .iter()
        .map(|s| match s {
            TemplateSheet::Data(n, _) => n.clone(),
            TemplateSheet::Formulas(n, _) => n.clone(),
        })
        .collect();
    assert_eq!(names, vec!["透视", "筛选", "数据_利基清单"]);
    let mut quoted = plan_formula_template(&rt, &pipeline).unwrap();
    quoted.filter.as_mut().unwrap().sheet_name = "'筛选'".into();
    assert_eq!(
        template_sheets(&quoted).err().unwrap(),
        "Worksheet name 'worksheet.set_name(\"'筛选'\")' cannot start or end with an apostrophe."
    );
    match &sheets[1] {
        TemplateSheet::Formulas(_, f) => assert!(f.formulas[0].1.starts_with("=FILTER('数据_利基清单'!A2:E5,")),
        _ => panic!("filter sheet expected"),
    }

    let write = |path: &str, s: &Vec<TemplateSheet>| -> Result<(), String> {
        assert_eq!(path, "/out/模板.xlsx");
        assert_eq!(s.len(), 3);
        Ok(())
    };
    assert_eq!(export_formula_template(&pipeline, "/out/模板.xlsx", &scan, &load, &write).unwrap(), "/out/模板.xlsx");
    let mut no_dir = pipeline.clone();
    no_dir.source_dir = "".into();
    assert_eq!(export_formula_template(&no_dir, "/x", &scan, &load, &write).unwrap_err(), "请先配置源数据目录");
}

// ---------- running a scheme on a folder ----------

#[test]
fn folder_run_requests_from_arguments() {
    let args = strs(&["app.exe", "--folder", "D:\\数据", "--scheme=abc"]);
    let req = parse_folder_run(&args).unwrap();
    assert_eq!(req.folder, "D:\\数据");
    assert_eq!(req.scheme_id.as_deref(), Some("abc"));
    assert_eq!(parse_flag_value(&strs(&["--folder"]), &["--folder"]), None);
    assert_eq!(parse_flag_value(&strs(&["--folder=", "x"]), &["--folder"]), None);
    assert!(parse_folder_run(&strs(&["app.exe"])).is_none());
}

#[test]
fn folder_run_reports_missing_and_unready() {
    let mut pipeline = empty_pipeline();
    pipeline.steps = demo_steps();
    pipeline.steps.push(Step {
        id: "3".into(),
        name: "合并".into(),
        output_table_id: "tmp:v".into(),
        operation: Operation::Vlookup {
            left_table_id: "src:利基清单".into(),
            right_table_id: "src:2025同月保费".into(),
            left_key: "a".into(),
            right_key: "a".into(),
            left_columns: vec![],
            right_columns: vec![],
        },
        result: None,
    });
    assert_eq!(required_source_ids(&pipeline), vec!["src:利基清单", "src:2025同月保费"]);
    let prep = folder_run_prep(pipeline, &vec![source_meta("src:利基清单", "利基清单", false)]);
    assert_eq!(prep.missing_tables, vec!["2025同月保费"]);
    assert_eq!(prep.header_unready, vec!["利基清单"]);
}

#[test]
fn folder_arguments_are_trimmed() {
    let is_dir = |p: &str| p == "/data";
    let canonical = |p: &str| format!("{p}/");
    assert_eq!(resolve_folder_arg("  /data ", &is_dir, &canonical).unwrap(), "/data/");
    assert_eq!(resolve_folder_arg("   ", &is_dir, &canonical).unwrap_err(), "文件夹路径为空");
    assert_eq!(resolve_folder_arg(" /nope", &is_dir, &canonical).unwrap_err(), "不是有效文件夹: /nope");
}

#[test]
fn scheme_is_pointed_at_a_folder() {
    let mut pipeline = empty_pipeline();
    pipeline.steps = demo_steps();
    pipeline.source_dir = "/old".into();
    pipeline.output_dir = "/old-out".into();
    let is_dir = |p: &str| p == "/data";
    let canonical = |p: &str| format!("{p}/");
    let remap = |_: &str| -> Result<Vec<(String, usize)>, String> { Ok(vec![("/data/利基清单.xlsx".to_string(), 2)]) };
    let scan = |dir: &str, rows: &Vec<(String, usize)>| -> Result<Vec<SourceTable>, String> {
        assert_eq!(dir, "/data/");
        assert_eq!(rows.len(), 1);
        Ok(vec![source_meta("src:利基清单", "利基清单", false)])
    };
    let err = prepare_scheme_for_folder(pipeline.clone(), "/nope", &is_dir, &canonical, &remap, &scan).err().unwrap();
    assert_eq!(err, "不是有效文件夹: /nope");
    let prep = match prepare_scheme_for_folder(pipeline.clone(), "/data", &is_dir, &canonical, &remap, &scan) {
        Ok(p) => p,
        Err(e) => panic!("{e}"),
    };
    assert_eq!(prep.pipeline.source_dir, "/data/");
    assert_eq!(prep.pipeline.output_dir, "/data/");
    assert_eq!(prep.pipeline.header_rows, vec![("/data/利基清单.xlsx".to_string(), 2)]);
    assert_eq!(prep.header_unready, vec!["利基清单"]);
    let bad_remap = |_: &str| -> Result<Vec<(String, usize)>, String> { Err("读不了".to_string()) };
    assert_eq!(prepare_scheme_for_folder(pipeline, "/data", &is_dir, &canonical, &bad_remap, &scan).err().unwrap(), "读不了");
}

// ---------- schemes and the folder menu ----------

#[test]
fn copy_names_are_unique() {
    assert_eq!(unique_copy_name("方案", &strs(&["方案"])), "方案 副本");
    assert_eq!(unique_copy_name("方案", &strs(&["方案 副本", "方案 副本 2"])), "方案 副本 3");
}

#[test]
fn schemes_listed_newest_first() {
    let s = |id: &str, at: &str| SchemeSummary { id: id.into(), name: id.into(), source_dir: String::new(), updated_at: at.into() };
    let sorted = sort_schemes(vec![s("a", "2026-01-01 10:00"), s("b", "2026-02-01 10:00"), s("c", "2026-01-01 10:00")]);
    let ids: Vec<&str> = sorted.iter().map(|x| x.id.as_str()).collect();
    assert_eq!(ids, vec!["b", "a", "c"]);
}

#[test]
fn rename_refuses_blank_names() {
    let p = rename_pipeline(empty_pipeline(), "  新名 ").unwrap();
    assert_eq!(p.name, "新名");
    assert_eq!(rename_pipeline(empty_pipeline(), " ").unwrap_err(), "方案名称不能为空");
}

#[test]
fn menu_entries_per_scheme() {
    assert_eq!(sanitize_key("a b/c-_1"), "a_b_c-_1");
    let schemes = vec![SchemeSummary { id: "x y".into(), name: " ".into(), source_dir: String::new(), updated_at: String::new() }];
    let items = menu_items(&schemes, "C:\\app.exe", "%1");
    assert_eq!(items.len(), 1);
    assert_eq!(items[0].key, "000_x_y");
    assert_eq!(items[0].label, "未命名方案");
    assert_eq!(items[0].command.as_deref(), Some("\"C:\\app.exe\" --folder \"%1\" --scheme \"x y\""));
    let empty = menu_items(&[], "C:\\app.exe", "%V");
    assert_eq!(empty[0].label, "(暂无方案)");
    assert!(empty[0].command.is_none());
    assert_eq!(unregister(&|| false).unwrap(), "当前系统无需取消注册");
}

// ---------- sheet names ----------

#[test]
fn sheet_names_and_columns() {
    assert_eq!(sanitize_sheet_name("a/b:c"), "a_b_c");
    assert_eq!(sanitize_sheet_name(""), "Sheet1");
    let long = "表".repeat(40) + "?";
    let once = sanitize_sheet_name(&long);
    assert_eq!(once.chars().count(), 31);
    assert_eq!(once, "表".repeat(31));
    assert_eq!(sanitize_sheet_name(&once), once);
    assert_eq!(sanitize_sheet_name(&sanitize_sheet_name("a/b:c")), "a_b_c");
    assert_eq!(col_letter(0), "A");
    assert_eq!(col_letter(27), "AB");
}

// ---------- scanning directories ----------

fn entry(path: &str, is_dir: bool, modified: Option<&str>, mtime: u64) -> FileEntry {
    let name = path.rsplit('/').next().unwrap_or(path).to_string();
    FileEntry { path: path.into(), name, is_dir, modified: modified.map(|m| m.to_string()), mtime }
}

#[test]
fn excel_names_and_stems() {
    assert!(is_excel("a.XLSX"));
    assert!(is_excel("b.xls"));
    assert!(!is_excel(".xlsx"));
    assert!(!is_excel("c.csv"));
    assert_eq!(stem_of("报表.2026.xlsx"), "报表.2026");
    assert_eq!(stem_of(".hidden"), ".hidden");
}

#[test]
fn folder_files_dated_by_name_then_modified_day() {
    let es = vec![
        entry("/d/出单_20260818.xlsx", false, Some("2026-09-01"), 5),
        entry("/d/无日期.xlsx", false, Some("2026-09-02"), 6),
        entry("/d/note.txt", false, None, 7),
        entry("/d/sub", true, None, 8),
    ];
    let fs = folder_files(&es);
    assert_eq!(fs.len(), 2);
    assert_eq!(fs[0].date, "2026-08-18");
    assert_eq!(fs[1].date, "2026-09-02");
    assert_eq!(fs[1].name, "无日期.xlsx");
}

#[test]
fn directory_scan_files_then_folders() {
    let entries = vec![
        entry("/s/b.xlsx", false, None, 0),
        entry("/s/日报", true, None, 0),
        entry("/s/.~a.xlsx", false, None, 0),
        entry("/s/a.xlsx", false, None, 0),
        entry("/s/empty", true, None, 0),
    ];
    let list = |p: &str| -> Result<Vec<FileEntry>, String> {
        if p == "/s/日报" {
            Ok(vec![entry("/s/日报/2026-01-02.xlsx", false, None, 0), entry("/s/日报/2026-01-01.xlsx", false, None, 0)])
        } else {
            Ok(vec![])
        }
    };
    let open = |p: &str| -> Result<RawSheet, String> {
        if p == "/s/b.xlsx" {
            Err(format!("打开失败 {p}"))
        } else {
            Ok(sheet(&[&["代码", "值"], &["1", "2"], &["3", "4"]]))
        }
    };
    let ts = scan_directory(&entries, &vec![("/s/b.xlsx".to_string(), 3)], &list, &open).unwrap();
    let ids: Vec<&str> = ts.iter().map(|t| t.id.as_str()).collect();
    assert_eq!(ids, vec!["src:a", "src:b", "src:日报"]);
    assert!(ts[0].header_ok);
    assert_eq!(ts[0].row_count, 2);
    assert!(!ts[1].header_ok);
    assert_eq!(ts[1].header_row, 3);
    assert_eq!(ts[1].header_message, "打开失败 /s/b.xlsx");
    assert_eq!(ts[2].kind, "folder");
    assert_eq!(ts[2].file_count, 2);
    assert_eq!(ts[2].row_count, 4);
    assert_eq!(ts[2].sample_path, "/s/日报/2026-01-02.xlsx");
    assert_eq!(ts[2].headers, vec!["代码", "值", "来源日期"]);
    assert_eq!(
        ts[2].header_message,
        "列表仅扫描最新文件「2026-01-02.xlsx」；预览也只读该文件。执行生成时会合并全部 2 个文件"
    );
}

#[test]
fn folder_preview_from_newest_file() {
    let files = vec![ranked("/d/2026-01-01.xlsx", "2026-01-01", 0), ranked("/d/2026-01-05.xlsx", "2026-01-05", 0)];
    let open = |p: &str| -> Result<RawSheet, String> {
        assert_eq!(p, "/d/2026-01-05.xlsx");
        Ok(sheet(&[&["代码"], &["1"], &["2"], &["3"]]))
    };
    let p = read_folder_preview("/d", &files, &vec![], 2, &open).unwrap();
    assert_eq!(p.headers, vec!["代码", "来源日期"]);
    assert_eq!(p.rows, vec![vec!["1", "2026-01-05"], vec!["2", "2026-01-05"]]);
    assert_eq!(p.total_rows, 3);
}

#[test]
fn header_rows_follow_file_names() {
    let old = vec![(strs(&["demo.xlsx", "demo"]), 7usize), (strs(&["日报", "日报"]), 2usize)];
    let entries = vec![
        entry("/new/demo.xlsx", false, None, 0),
        entry("/new/日报", true, None, 0),
        entry("/new/demo.xls", false, None, 0),
        entry("/new/other.xlsx", false, None, 0),
        entry("/new/.demo.xlsx", false, None, 0),
    ];
    let mapped = remap_header_rows(&old, &entries);
    assert_eq!(
        mapped,
        vec![("/new/demo.xlsx".to_string(), 7), ("/new/日报".to_string(), 2), ("/new/demo.xls".to_string(), 7)]
    );
}

#[test]
fn cells_written_as_numbers() {
    assert_eq!(number_candidate(" 1,234.5 ").as_deref(), Some("1234.5"));
    assert_eq!(number_candidate("0.5").as_deref(), Some("0.5"));
    assert_eq!(number_candidate("-0012"), None);
    assert_eq!(number_candidate("1E5"), None);
    assert_eq!(number_candidate("123456789012"), None);
    assert_eq!(number_candidate("   "), None);
}

#[test]
fn folder_menus_for_both_places() {
    let schemes = vec![SchemeSummary { id: "s1".into(), name: "方案".into(), source_dir: String::new(), updated_at: String::new() }];
    let plan = menu_plan(&schemes, "C:/Tools/app.exe");
    assert_eq!(plan.len(), 2);
    assert_eq!(plan[0].0, "Software\\Classes\\Directory\\shell\\AutoExcelExec");
    assert_eq!(plan[1].0, "Software\\Classes\\Directory\\Background\\shell\\AutoExcelExec");
    assert_eq!(plan[1].1[0].command.as_deref(), Some("\"C:\\Tools\\app.exe\" --folder \"%V\" --scheme \"s1\""));
}

#[test]
fn header_palette_shuffle_is_seeded() {
    let p = header_color_palette(0);
    let expected: Vec<(u32, bool)> = vec![
        (0x5B9BD5, true),
        (0x70AD47, true),
        (0xA9D08E, false),
        (0xF4B183, false),
        (0xC45911, true),
        (0x9DC3E6, false),
        (0xED7D31, true),
        (0x7030A0, true),
        (0x00B0F0, true),
        (0xFFC000, false),
    ];
    assert_eq!(p, expected);
    let q = header_color_palette(12345);
    assert_eq!(q[2], (0xF4B183, false));
    assert_eq!(q[9], (0xC45911, true));
    let mut a = p.clone();
    let mut b = q.clone();
    a.sort();
    b.sort();
    assert_eq!(a, b);
}

#[test]
fn remap_matches_by_filename() {
    // "/old/path/demo.xlsx" is known by its file name and stem.
    let old = vec![(strs(&["demo.xlsx", "demo"]), 7usize)];
    let f = "/tmp/ae_folder_run_remap/demo.xlsx";
    let entries = vec![entry(f, false, None, 0)];
    let mapped = remap_header_rows(&old, &entries);
    let row = mapped.iter().find(|(p, _)| p == f).map(|(_, r)| *r);
    assert_eq!(row, Some(7));
}

#[test]
fn unready_sources_stop_the_run_before_writing() {
    let n = nums();
    let mut pipeline = empty_pipeline();
    pipeline.source_dir = "/data".into();
    pipeline.output_dir = "/out".into();
    pipeline.steps = demo_steps();
    let load = |_: &SourceLoad, _: &Vec<(String, usize)>| -> Result<DataTable, String> { Ok(sample_niche()) };
    let write = |_: &str, _: &str, _: &Vec<(String, DataTable)>| -> Result<String, String> {
        panic!("nothing is written")
    };
    let meta = vec![source_meta("src:利基清单", "利基清单", false)];
    assert_eq!(
        run_scanned(&n, &pipeline, meta, &load, &write).unwrap_err(),
        "以下步骤用到的源表未识别表头，请先手动指定表头行：利基清单"
    );
    let failing = |_: &str, _: &str, _: &Vec<(String, DataTable)>| -> Result<String, String> { Err("磁盘已满".into()) };
    let ready = vec![source_meta("src:利基清单", "利基清单", true)];
    assert_eq!(run_scanned(&n, &pipeline, ready, &load, &failing).unwrap_err(), "磁盘已满");
}

#[test]
fn preview_command_checks_and_runs() {
    let n = nums();
    let mut pipeline = empty_pipeline();
    pipeline.steps = demo_steps();
    let scan = |dir: &str, _: &Vec<(String, usize)>| -> Result<Vec<SourceTable>, String> {
        if dir == "/data" { Ok(vec![source_meta("src:利基清单", "利基清单", true)]) } else { Err(format!("不是有效目录: {dir}")) }
    };
    let load = |_: &SourceLoad, _: &Vec<(String, usize)>| -> Result<DataTable, String> { Ok(sample_niche()) };
    assert_eq!(preview_step(&n, &pipeline, "1", 5, &scan, &load).unwrap_err(), "请先配置源数据目录");
    pipeline.source_dir = "/nope".into();
    assert_eq!(preview_step(&n, &pipeline, "1", 5, &scan, &load).unwrap_err(), "不是有效目录: /nope");
    pipeline.source_dir = "/data".into();
    let p = preview_step(&n, &pipeline, "1", 0, &scan, &load).unwrap();
    assert_eq!(p.rows.len(), 1);
    assert_eq!(p.total_rows, 2);
    assert_eq!(preview_step(&n, &pipeline, "9", 5, &scan, &load).unwrap_err(), "步骤不存在: 9");
    let rt = Runtime::from_pipeline(&pipeline, &scan).unwrap();
    assert_eq!(rt.source_meta.len(), 1);
    assert!(rt.sources.is_empty());
}
