//! The folder context menu 「执行生成」: one entry per scheme that runs it on the folder.
use vstd::prelude::*;
use crate::models::{lemma_dv_push, SchemeSummary};
use crate::dates::padded;
use crate::text::{blank, decimal, digit, is_blank, push_char, push_decimal};

verus! {

/// A character of a registry key name: ASCII letters, digits, `-` and `_` are kept,
/// others become `_`.
pub open spec fn key_char(c: char) -> char {
    if ('a' <= c && c <= 'z') || ('A' <= c && c <= 'Z') || ('0' <= c && c <= '9') || c == '-' || c == '_' { c } else { '_' }
}

/// A scheme id as a registry key name.
pub open spec fn key_name(id: Seq<char>) -> Seq<char> {
    id.map_values(|c: char| key_char(c))
}

/// A scheme id as a registry key name (see `key_name`).
pub fn sanitize_key(id: &str) -> (r: String)
    ensures
        r@ == key_name(id@),
{
    let v = crate::text::chars_of(id);
    let mut r = String::new();
    let mut i: usize = 0;
    while i < v.len()
        invariant
            i <= v@.len(),
            v@ == id@,
            r@ == key_name(id@).take(i as int),
        decreases v@.len() - i,
    {
        let c = v[i];
        let k = if ('a' <= c && c <= 'z') || ('A' <= c && c <= 'Z') || ('0' <= c && c <= '9') || c == '-' || c == '_' { c } else { '_' };
        push_char(&mut r, k);
        assert(r@ =~= key_name(id@).take(i + 1));
        i += 1;
    }
    assert(key_name(id@).take(i as int) =~= key_name(id@));
    r
}

/// An entry of the folder menu: its key, its label, and the command it runs (none for
/// the placeholder shown when there is no scheme).
pub struct MenuItem {
    pub key: String,
    pub label: String,
    pub command: Option<String>,
}

/// `i` in at least three digits, zero-padded (`{:03}`).
pub open spec fn three_digits(i: nat) -> Seq<char> {
    if i < 1000 { padded(i, 3) } else { decimal(i) }
}

/// The menu entry of scheme `s` at position `i`, running `exe` on `folder_token`.
pub open spec fn menu_entry(i: nat, s: SchemeSummary, exe: Seq<char>, folder_token: Seq<char>) -> (Seq<char>, Seq<char>, Option<Seq<char>>) {
    (
        three_digits(i) + "_"@ + key_name(s.id@),
        if is_blank(s.name@) { "未命名方案"@ } else { s.name@ },
        Some("\""@ + exe + "\" --folder \""@ + folder_token + "\" --scheme \""@ + s.id@ + "\""@),
    )
}

/// The menu entries for `schemes`: one per scheme, or a placeholder when there is none.
pub open spec fn menu_entries(schemes: Seq<SchemeSummary>, exe: Seq<char>, folder_token: Seq<char>) -> Seq<(Seq<char>, Seq<char>, Option<Seq<char>>)> {
    if schemes.len() == 0 {
        seq![("empty"@, "(暂无方案)"@, None)]
    } else {
        Seq::new(schemes.len(), |i: int| menu_entry(i as nat, schemes[i], exe, folder_token))
    }
}

/// A menu entry as the contracts see it.
pub open spec fn item_v(m: MenuItem) -> (Seq<char>, Seq<char>, Option<Seq<char>>) {
    (m.key@, m.label@, match m.command { Some(c) => Some(c@), None => None })
}

/// `{:03}` of `i`.
fn three_digit_text(i: usize) -> (r: String)
    ensures
        r@ == three_digits(i as nat),
{
    let mut r = String::new();
    if i < 1000 {
        push_char(&mut r, digit(i / 100));
        push_char(&mut r, digit((i / 10) % 10));
        push_char(&mut r, digit(i % 10));
        proof {
            reveal_with_fuel(padded, 4);
            assert(((i as nat) / 10) / 10 == (i as nat) / 100);
            assert(((i as nat) / 100) % 10 == (i as nat) / 100);
        }
        assert(r@ =~= three_digits(i as nat));
    } else {
        push_decimal(&mut r, i);
        assert(r@ =~= three_digits(i as nat));
    }
    r
}

/// The menu entries for `schemes` (see `menu_entries`).
pub fn menu_items(schemes: &[SchemeSummary], exe: &str, folder_token: &str) -> (r: Vec<MenuItem>)
    ensures
        r@.map_values(|m: MenuItem| item_v(m)) == menu_entries(schemes@, exe@, folder_token@),
{
    let mut r: Vec<MenuItem> = Vec::new();
    if schemes.len() == 0 {
        r.push(MenuItem { key: "empty".to_owned(), label: "(暂无方案)".to_owned(), command: None });
        assert(r@.map_values(|m: MenuItem| item_v(m)) =~= menu_entries(schemes@, exe@, folder_token@));
        return r;
    }
    let ghost want = menu_entries(schemes@, exe@, folder_token@);
    let mut i: usize = 0;
    while i < schemes.len()
        invariant
            i <= schemes@.len(),
            schemes@.len() > 0,
            want == menu_entries(schemes@, exe@, folder_token@),
            r@.map_values(|m: MenuItem| item_v(m)) == want.take(i as int),
        decreases schemes@.len() - i,
    {
        let s = &schemes[i];
        let mut key = three_digit_text(i);
        key.append("_");
        let k = sanitize_key(s.id.as_str());
        key.append(k.as_str());
        let label = if blank(s.name.as_str()) { "未命名方案".to_owned() } else { s.name.clone() };
        let mut cmd = "\"".to_owned();
        cmd.append(exe);
        cmd.append("\" --folder \"");
        cmd.append(folder_token);
        cmd.append("\" --scheme \"");
        cmd.append(s.id.as_str());
        cmd.append("\"");
        let m = MenuItem { key, label, command: Some(cmd) };
        let ghost r0 = r@;
        r.push(m);
        assert(item_v(m) == want[i as int]);
        assert(r@.map_values(|m: MenuItem| item_v(m)) =~= r0.map_values(|m: MenuItem| item_v(m)).push(item_v(m)));
        assert(want.take(i + 1) =~= want.take(i as int).push(want[i as int]));
        i += 1;
    }
    assert(want.take(i as int) =~= want);
    r
}

/// `exe` with `/` written as `\`.
pub open spec fn windows_path(exe: Seq<char>) -> Seq<char> {
    exe.map_values(|c: char| if c == '/' { '\\' } else { c })
}

/// Registry key of the menu on folders.
pub open spec fn menu_on_folder() -> Seq<char> {
    "Software\\Classes\\Directory\\shell\\AutoExcelExec"@
}

/// Registry key of the menu on a folder's background.
pub open spec fn menu_on_background() -> Seq<char> {
    "Software\\Classes\\Directory\\Background\\shell\\AutoExcelExec"@
}

/// The folder menu: the menu on folders (its entries run on `%1`) and the menu on a
/// folder's background (on `%V`), each with its registry key and its entries (see
/// `menu_items`), `exe` written with `\`.
pub fn menu_plan(schemes: &[SchemeSummary], exe: &str) -> (r: Vec<(String, Vec<MenuItem>)>)
    ensures
        r@.len() == 2,
        r@[0].0@ == menu_on_folder(),
        r@[1].0@ == menu_on_background(),
        r@[0].1@.map_values(|m: MenuItem| item_v(m)) == menu_entries(schemes@, windows_path(exe@), "%1"@),
        r@[1].1@.map_values(|m: MenuItem| item_v(m)) == menu_entries(schemes@, windows_path(exe@), "%V"@),
{
    let v = crate::text::chars_of(exe);
    let mut w = String::new();
    let mut i: usize = 0;
    while i < v.len()
        invariant
            i <= v@.len(),
            v@ == exe@,
            w@ == windows_path(exe@).take(i as int),
        decreases v@.len() - i,
    {
        let c = if v[i] == '/' { '\\' } else { v[i] };
        push_char(&mut w, c);
        assert(w@ =~= windows_path(exe@).take(i + 1));
        i += 1;
    }
    assert(windows_path(exe@).take(i as int) =~= windows_path(exe@));
    let folder_items = menu_items(schemes, w.as_str(), "%1");
    let bg_items = menu_items(schemes, w.as_str(), "%V");
    let mut r: Vec<(String, Vec<MenuItem>)> = Vec::new();
    r.push(("Software\\Classes\\Directory\\shell\\AutoExcelExec".to_owned(), folder_items));
    r.push(("Software\\Classes\\Directory\\Background\\shell\\AutoExcelExec".to_owned(), bg_items));
    r
}

/// The menus of `menu_plan`, each as its registry key and its entries.
pub open spec fn menus_of(schemes: Seq<SchemeSummary>, exe: Seq<char>) -> Seq<(Seq<char>, Seq<(Seq<char>, Seq<char>, Option<Seq<char>>)>)> {
    seq![
        (menu_on_folder(), menu_entries(schemes, windows_path(exe), "%1"@)),
        (menu_on_background(), menu_entries(schemes, windows_path(exe), "%V"@)),
    ]
}

/// `apply`, handed the menu `menu` (its key and its entries), gave `res`.
pub open spec fn menu_applied<A: Fn(&str, &Vec<MenuItem>) -> Result<(), String>>(
    apply: A,
    menu: (Seq<char>, Seq<(Seq<char>, Seq<char>, Option<Seq<char>>)>),
    res: Result<(), String>,
) -> bool {
    exists|k: &str, m: &Vec<MenuItem>| #![trigger apply.ensures((k, m), res)]
        k@ == menu.0 && m@.map_values(|x: MenuItem| item_v(x)) == menu.1 && apply.ensures((k, m), res)
}

/// Rebuilds the folder menu from the schemes: hands `apply` each menu of `menu_plan` in
/// turn, stopping at the first error, which it gives back.
pub fn sync_schemes<A>(schemes: &[SchemeSummary], exe: &str, apply: &A) -> (r: Result<(), String>) where
    A: Fn(&str, &Vec<MenuItem>) -> Result<(), String>,
    requires
        forall|k: &str, m: &Vec<MenuItem>| #[trigger] apply.requires((k, m)),
    ensures
        r is Ok ==> forall|i: int| 0 <= i < 2 ==> #[trigger] menu_applied(*apply, menus_of(schemes@, exe@)[i], Ok(())),
        r matches Err(e) ==> exists|i: int| 0 <= i < 2 && #[trigger] menu_applied(*apply, menus_of(schemes@, exe@)[i], Err(e))
            && forall|j: int| 0 <= j < i ==> #[trigger] menu_applied(*apply, menus_of(schemes@, exe@)[j], Ok(())),
{
    let plan = menu_plan(schemes, exe);
    let ghost menus = menus_of(schemes@, exe@);
    let mut i: usize = 0;
    while i < plan.len()
        invariant
            i <= plan@.len(),
            plan@.len() == 2,
            menus == menus_of(schemes@, exe@),
            forall|q: int| 0 <= q < 2 ==> plan@[q].0@ == (#[trigger] menus[q]).0 && plan@[q].1@.map_values(|x: MenuItem| item_v(x)) == menus[q].1,
            forall|k: &str, m: &Vec<MenuItem>| #[trigger] apply.requires((k, m)),
            forall|j: int| 0 <= j < i ==> #[trigger] menu_applied(*apply, menus[j], Ok(())),
        decreases plan@.len() - i,
    {
        let res = apply(plan[i].0.as_str(), &plan[i].1);
        proof {
            assert(plan@[i as int].0@ == menus[i as int].0);
            assert(menu_applied(*apply, menus[i as int], res));
            if res is Ok {
                assert(res->Ok_0 == ());
                assert(res == Ok::<(), String>(()));
                assert(menu_applied(*apply, menus[i as int], Ok(())));
            }
        }
        match res {
            Ok(()) => {},
            Err(e) => {
                let rr: Result<(), String> = Err(e);
                proof {
                    assert(menu_applied(*apply, menus[i as int], Err(rr->Err_0)));
                }
                return rr;
            },
        }
        i += 1;
    }
    Ok(())
}

/// Removes the folder menu with `remove_menu`, which tells whether this system has one,
/// and says what was done.
pub fn unregister<R>(remove_menu: &R) -> (r: Result<String, String>) where
    R: Fn() -> bool,
    requires
        remove_menu.requires(()),
    ensures
        r matches Ok(m) && exists|b: bool| #[trigger] remove_menu.ensures((), b)
            && m@ == (if b { "已取消系统右键「执行生成」菜单"@ } else { "当前系统无需取消注册"@ }),
{
    let removed = remove_menu();
    if removed {
        Ok("已取消系统右键「执行生成」菜单".to_owned())
    } else {
        Ok("当前系统无需取消注册".to_owned())
    }
}

} // verus!
