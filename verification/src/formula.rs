//! The grammar of calculation formulas: numbers, bracketed column references, `+ - * /`,
//! unary signs and parentheses, parsed into a tree that the caller evaluates.
use vstd::prelude::*;
use crate::models::{find_text, has_text};
use crate::text::{chars_of, find_char, find_char_from, is_ascii_digit, is_ws, is_ws_char, push_char, string_of_range, trim, trimmed_chars};

verus! {

/// A token of a formula.
pub enum FormulaToken {
    Num(String),
    Ref(String),
    Op(char),
    LParen,
    RParen,
}

/// A parsed formula: a number (as written), a column reference, a negation, or an
/// operation `+ - * /` on two formulas.
pub enum FormulaExpr {
    Num(String),
    Ref(String),
    Neg(Box<FormulaExpr>),
    Bin(char, Box<FormulaExpr>, Box<FormulaExpr>),
}

/// A token as the contracts see it.
pub enum TokV {
    Num(Seq<char>),
    Ref(Seq<char>),
    Op(char),
    LParen,
    RParen,
}

/// A parsed formula as the contracts see it.
pub enum ExprV {
    Num(Seq<char>),
    Ref(Seq<char>),
    Neg(Box<ExprV>),
    Bin(char, Box<ExprV>, Box<ExprV>),
}

/// The view of a token.
pub open spec fn tok_v(t: FormulaToken) -> TokV {
    match t {
        FormulaToken::Num(s) => TokV::Num(s@),
        FormulaToken::Ref(s) => TokV::Ref(s@),
        FormulaToken::Op(c) => TokV::Op(c),
        FormulaToken::LParen => TokV::LParen,
        FormulaToken::RParen => TokV::RParen,
    }
}

/// The view of a parsed formula.
pub open spec fn expr_v(e: FormulaExpr) -> ExprV
    decreases e,
{
    match e {
        FormulaExpr::Num(s) => ExprV::Num(s@),
        FormulaExpr::Ref(s) => ExprV::Ref(s@),
        FormulaExpr::Neg(b) => ExprV::Neg(Box::new(expr_v(*b))),
        FormulaExpr::Bin(op, l, r) => ExprV::Bin(op, Box::new(expr_v(*l)), Box::new(expr_v(*r))),
    }
}

/// Views of tokens.
pub open spec fn toks_v(ts: Seq<FormulaToken>) -> Seq<TokV> {
    ts.map_values(|t: FormulaToken| tok_v(t))
}

/// A result as the contracts see it.
pub open spec fn parsed_v(r: Result<FormulaExpr, String>) -> Result<ExprV, Seq<char>> {
    match r {
        Ok(e) => Ok(expr_v(e)),
        Err(m) => Err(m@),
    }
}

/// A character of a number: an ASCII digit or `.`.
pub open spec fn num_char(c: char) -> bool {
    is_ascii_digit(c) || c == '.'
}

/// The end of the run of number characters of `s` from `j`.
pub open spec fn number_end(s: Seq<char>, j: int) -> int
    decreases s.len() - j,
{
    if j < 0 || j >= s.len() || !num_char(s[j]) { j } else { number_end(s, j + 1) }
}

/// The run of number characters from `j` ends within `s`, not before `j`, and holds only
/// number characters.
pub proof fn lemma_number_end(s: Seq<char>, j: int)
    requires
        0 <= j <= s.len(),
    ensures
        j <= number_end(s, j) <= s.len(),
        forall|k: int| j <= k < number_end(s, j) ==> num_char(#[trigger] s[k]),
        number_end(s, j) < s.len() ==> !num_char(s[number_end(s, j)]),
    decreases s.len() - j,
{
    if j < s.len() && num_char(s[j]) {
        lemma_number_end(s, j + 1);
    }
}

/// Number of times `c` occurs in `s`.
pub open spec fn count_char(s: Seq<char>, c: char) -> nat
    decreases s.len(),
{
    if s.len() == 0 { 0 } else { count_char(s.drop_last(), c) + if s.last() == c { 1nat } else { 0nat } }
}

/// Number of ASCII digits in `s`.
pub open spec fn count_digits(s: Seq<char>) -> nat
    decreases s.len(),
{
    if s.len() == 0 { 0 } else { count_digits(s.drop_last()) + if is_ascii_digit(s.last()) { 1nat } else { 0nat } }
}

/// A run of digits and dots is a decimal number (`f64`'s grammar without sign or
/// exponent): one dot at most and a digit.
pub open spec fn valid_number(s: Seq<char>) -> bool {
    count_char(s, '.') <= 1 && count_digits(s) >= 1
}

/// `r` with `t` put in front of its tokens.
pub open spec fn cons_tok(t: TokV, r: Result<Seq<TokV>, Seq<char>>) -> Result<Seq<TokV>, Seq<char>> {
    match r {
        Ok(ts) => Ok(seq![t] + ts),
        Err(e) => Err(e),
    }
}

/// The tokens of `s` from position `i`, or the first error: whitespace is skipped; `[`
/// starts a reference up to the next `]` (trimmed); a run of digits and dots is a
/// number; `+ - * / ( )` are themselves; anything else is refused.
pub open spec fn tokens_from(s: Seq<char>, i: int) -> Result<Seq<TokV>, Seq<char>>
    decreases s.len() - i,
{
    if i < 0 || i >= s.len() {
        Ok(Seq::empty())
    } else {
        let c = s[i];
        if is_ws(c) {
            tokens_from(s, i + 1)
        } else if c == '[' {
            let end = find_char(s.subrange(i, s.len() as int), ']');
            proof {
                crate::text::lemma_find_char_range(s.subrange(i, s.len() as int), ']');
            }
            if end < 0 {
                Err("缺少 ]"@)
            } else {
                cons_tok(TokV::Ref(trim(s.subrange(i + 1, i + end))), tokens_from(s, i + end + 1))
            }
        } else if num_char(c) {
            let j = number_end(s, i + 1);
            proof {
                lemma_number_end(s, i + 1);
            }
            let num = s.subrange(i, j);
            if !valid_number(num) {
                Err("无效数字: "@ + num)
            } else {
                cons_tok(TokV::Num(num), tokens_from(s, j))
            }
        } else if c == '+' || c == '-' || c == '*' || c == '/' {
            cons_tok(TokV::Op(c), tokens_from(s, i + 1))
        } else if c == '(' {
            cons_tok(TokV::LParen, tokens_from(s, i + 1))
        } else if c == ')' {
            cons_tok(TokV::RParen, tokens_from(s, i + 1))
        } else {
            Err("无法识别的字符: "@ + seq![c])
        }
    }
}

/// How an error names a token: its kind and what it holds.
pub open spec fn tok_text(t: TokV) -> Seq<char> {
    match t {
        TokV::Num(s) => "Num("@ + s + ")"@,
        TokV::Ref(s) => "Ref(\""@ + s + "\")"@,
        TokV::Op(c) => "Op('"@ + seq![c] + "')"@,
        TokV::LParen => "LParen"@,
        TokV::RParen => "RParen"@,
    }
}

/// How an error names the token at `p`, or its absence.
pub open spec fn tok_at_text(ts: Seq<TokV>, p: int) -> Seq<char> {
    if 0 <= p < ts.len() { "Some("@ + tok_text(ts[p]) + ")"@ } else { "None"@ }
}

/// A parse result and the position after it.
pub type Parse = (Result<ExprV, Seq<char>>, int);

/// A sum: terms joined by `+` and `-`, from the left.
pub open spec fn p_expr(ts: Seq<TokV>, known: Seq<Seq<char>>, pos: int) -> Parse
    decreases ts.len() - pos, 4int,
{
    if pos < 0 || pos > ts.len() {
        (Err(Seq::empty()), pos)
    } else {
        let (l, p) = p_term(ts, known, pos);
        match l {
            Err(e) => (Err(e), p),
            Ok(lv) => if pos < p <= ts.len() { expr_tail(ts, known, lv, p) } else { (Ok(lv), p) },
        }
    }
}

/// The rest of a sum after `left`, from `pos`.
pub open spec fn expr_tail(ts: Seq<TokV>, known: Seq<Seq<char>>, left: ExprV, pos: int) -> Parse
    decreases ts.len() - pos, 3int,
{
    if 0 <= pos < ts.len() && (ts[pos] == TokV::Op('+') || ts[pos] == TokV::Op('-')) {
        let op = ts[pos]->Op_0;
        let (r, p) = p_term(ts, known, pos + 1);
        match r {
            Err(e) => (Err(e), p),
            Ok(rv) => {
                let b = ExprV::Bin(op, Box::new(left), Box::new(rv));
                if pos < p <= ts.len() { expr_tail(ts, known, b, p) } else { (Ok(b), p) }
            },
        }
    } else {
        (Ok(left), pos)
    }
}

/// A product: factors joined by `*` and `/`, from the left.
pub open spec fn p_term(ts: Seq<TokV>, known: Seq<Seq<char>>, pos: int) -> Parse
    decreases ts.len() - pos, 2int,
{
    if pos < 0 || pos > ts.len() {
        (Err(Seq::empty()), pos)
    } else {
        let (l, p) = p_factor(ts, known, pos);
        match l {
            Err(e) => (Err(e), p),
            Ok(lv) => if pos < p <= ts.len() { term_tail(ts, known, lv, p) } else { (Ok(lv), p) },
        }
    }
}

/// The rest of a product after `left`, from `pos`.
pub open spec fn term_tail(ts: Seq<TokV>, known: Seq<Seq<char>>, left: ExprV, pos: int) -> Parse
    decreases ts.len() - pos, 1int,
{
    if 0 <= pos < ts.len() && (ts[pos] == TokV::Op('*') || ts[pos] == TokV::Op('/')) {
        let op = ts[pos]->Op_0;
        let (r, p) = p_factor(ts, known, pos + 1);
        match r {
            Err(e) => (Err(e), p),
            Ok(rv) => {
                let b = ExprV::Bin(op, Box::new(left), Box::new(rv));
                if pos < p <= ts.len() { term_tail(ts, known, b, p) } else { (Ok(b), p) }
            },
        }
    } else {
        (Ok(left), pos)
    }
}

/// A factor: a signed factor, a number, a known reference, or a sum in parentheses.
pub open spec fn p_factor(ts: Seq<TokV>, known: Seq<Seq<char>>, pos: int) -> Parse
    decreases ts.len() - pos, 0int,
{
    if pos < 0 || pos >= ts.len() {
        (Err("意外的标记: "@ + tok_at_text(ts, pos)), pos)
    } else {
        match ts[pos] {
            TokV::Op(c) => if c == '-' {
                let (r, p) = p_factor(ts, known, pos + 1);
                match r {
                    Ok(v) => (Ok(ExprV::Neg(Box::new(v))), p),
                    Err(e) => (Err(e), p),
                }
            } else if c == '+' {
                p_factor(ts, known, pos + 1)
            } else {
                (Err("意外的标记: "@ + tok_at_text(ts, pos)), pos)
            },
            TokV::Num(s) => (Ok(ExprV::Num(s)), pos + 1),
            TokV::Ref(name) => if has_text(known, name) {
                (Ok(ExprV::Ref(name)), pos + 1)
            } else {
                (Err("未知引用: ["@ + name + "]，请检查表/列或关联键"@), pos + 1)
            },
            TokV::LParen => {
                let (r, p) = p_expr(ts, known, pos + 1);
                match r {
                    Err(e) => (Err(e), p),
                    Ok(v) => if 0 <= p < ts.len() && ts[p] == TokV::RParen {
                        (Ok(v), p + 1)
                    } else {
                        (Err("缺少 )"@), p)
                    },
                }
            },
            TokV::RParen => (Err("意外的标记: "@ + tok_at_text(ts, pos)), pos),
        }
    }
}

/// What parsing formula `s` gives when the references `known` have values: the tree,
/// or the first error met reading it from the left (a bad character, number or
/// bracket, an unknown reference, a missing `)`, an unexpected token, or tokens left
/// over).
pub open spec fn formula_parse(s: Seq<char>, known: Seq<Seq<char>>) -> Result<ExprV, Seq<char>> {
    match tokens_from(s, 0) {
        Err(e) => Err(e),
        Ok(ts) => {
            let (r, p) = p_expr(ts, known, 0);
            match r {
                Err(e) => Err(e),
                Ok(v) => if p != ts.len() { Err("公式解析未完成，停在: "@ + tok_at_text(ts, p)) } else { Ok(v) },
            }
        },
    }
}

/// `r` after the tokens `prefix`.
pub open spec fn after_toks(prefix: Seq<TokV>, r: Result<Seq<TokV>, Seq<char>>) -> Result<Seq<TokV>, Seq<char>> {
    match r {
        Ok(ts) => Ok(prefix + ts),
        Err(e) => Err(e),
    }
}

/// Tokens after a product that do not continue it: none, or not `*` or `/`.
pub open spec fn ends_product(post: Seq<TokV>) -> bool {
    post.len() == 0 || (post[0] != TokV::Op('*') && post[0] != TokV::Op('/'))
}

/// Tokens after a sum that do not continue it: none, or no operator.
pub open spec fn ends_sum(post: Seq<TokV>) -> bool {
    ends_product(post) && (post.len() == 0 || (post[0] != TokV::Op('+') && post[0] != TokV::Op('-')))
}

proof fn lemma_embed_index(pre: Seq<TokV>, xs: Seq<TokV>, post: Seq<TokV>, i: int)
    requires
        0 <= i < xs.len(),
    ensures
        (pre + xs + post)[pre.len() + i] == xs[i],
        (pre + xs + post).len() == pre.len() + xs.len() + post.len(),
{
}

proof fn lemma_embed_after(pre: Seq<TokV>, xs: Seq<TokV>, post: Seq<TokV>)
    requires
        post.len() > 0,
    ensures
        (pre + xs + post)[(pre.len() + xs.len()) as int] == post[0],
{
}

/// A factor read from `xs` reads the same inside `pre + xs + post`.
proof fn lemma_factor_local(pre: Seq<TokV>, xs: Seq<TokV>, post: Seq<TokV>, known: Seq<Seq<char>>, pos: int)
    requires
        p_factor(xs, known, pos).0 is Ok,
    ensures
        pos < p_factor(xs, known, pos).1 <= xs.len(),
        p_factor(pre + xs + post, known, pos + pre.len()) == (p_factor(xs, known, pos).0, p_factor(xs, known, pos).1 + pre.len()),
    decreases xs.len() - pos, 0int,
{
    let ts = pre + xs + post;
    let n = pre.len();
    lemma_embed_index(pre, xs, post, pos);
    match xs[pos] {
        TokV::Op(c) => {
            if c == '-' || c == '+' {
                lemma_factor_local(pre, xs, post, known, pos + 1);
            }
        },
        TokV::LParen => {
            let (r, p) = p_expr(xs, known, pos + 1);
            lemma_expr_local(pre, xs, post, known, pos + 1);
            lemma_embed_index(pre, xs, post, p);
        },
        _ => {},
    }
}

/// The rest of a product read from `xs` reads the same inside `pre + xs + post` when
/// it stops inside `xs` or `post` does not continue it.
proof fn lemma_term_tail_local(pre: Seq<TokV>, xs: Seq<TokV>, post: Seq<TokV>, known: Seq<Seq<char>>, left: ExprV, pos: int)
    requires
        0 <= pos <= xs.len(),
        term_tail(xs, known, left, pos).0 is Ok,
        term_tail(xs, known, left, pos).1 < xs.len() || ends_product(post),
    ensures
        pos <= term_tail(xs, known, left, pos).1 <= xs.len(),
        term_tail(pre + xs + post, known, left, pos + pre.len()) == (term_tail(xs, known, left, pos).0, term_tail(xs, known, left, pos).1 + pre.len()),
    decreases xs.len() - pos, 1int,
{
    let ts = pre + xs + post;
    let n = pre.len();
    assert(ts.len() == n + xs.len() + post.len());
    if pos < xs.len() {
        lemma_embed_index(pre, xs, post, pos);
        if xs[pos] == TokV::Op('*') || xs[pos] == TokV::Op('/') {
            let op = xs[pos]->Op_0;
            let (r, p) = p_factor(xs, known, pos + 1);
            lemma_factor_local(pre, xs, post, known, pos + 1);
            let b = ExprV::Bin(op, Box::new(left), Box::new(r->Ok_0));
            lemma_term_tail_local(pre, xs, post, known, b, p);
        }
    } else if post.len() > 0 {
        lemma_embed_after(pre, xs, post);
    }
}

/// A product read from `xs` reads the same inside `pre + xs + post` when it stops
/// inside `xs` or `post` does not continue it.
proof fn lemma_term_local(pre: Seq<TokV>, xs: Seq<TokV>, post: Seq<TokV>, known: Seq<Seq<char>>, pos: int)
    requires
        p_term(xs, known, pos).0 is Ok,
        p_term(xs, known, pos).1 < xs.len() || ends_product(post),
    ensures
        pos < p_term(xs, known, pos).1 <= xs.len(),
        p_term(pre + xs + post, known, pos + pre.len()) == (p_term(xs, known, pos).0, p_term(xs, known, pos).1 + pre.len()),
    decreases xs.len() - pos, 2int,
{
    let (l, p) = p_factor(xs, known, pos);
    lemma_factor_local(pre, xs, post, known, pos);
    lemma_term_tail_local(pre, xs, post, known, l->Ok_0, p);
}

/// The rest of a sum read from `xs` reads the same inside `pre + xs + post` when it
/// stops inside `xs` or `post` does not continue it.
proof fn lemma_expr_tail_local(pre: Seq<TokV>, xs: Seq<TokV>, post: Seq<TokV>, known: Seq<Seq<char>>, left: ExprV, pos: int)
    requires
        0 <= pos <= xs.len(),
        expr_tail(xs, known, left, pos).0 is Ok,
        expr_tail(xs, known, left, pos).1 < xs.len() || ends_sum(post),
    ensures
        pos <= expr_tail(xs, known, left, pos).1 <= xs.len(),
        expr_tail(pre + xs + post, known, left, pos + pre.len()) == (expr_tail(xs, known, left, pos).0, expr_tail(xs, known, left, pos).1 + pre.len()),
    decreases xs.len() - pos, 3int,
{
    let ts = pre + xs + post;
    let n = pre.len();
    assert(ts.len() == n + xs.len() + post.len());
    if pos < xs.len() {
        lemma_embed_index(pre, xs, post, pos);
        if xs[pos] == TokV::Op('+') || xs[pos] == TokV::Op('-') {
            let op = xs[pos]->Op_0;
            let (r, p) = p_term(xs, known, pos + 1);
            if p == xs.len() {
                let b = ExprV::Bin(op, Box::new(left), Box::new(r->Ok_0));
                assert(expr_tail(xs, known, b, p) == (Ok::<ExprV, Seq<char>>(b), p));
            }
            lemma_term_local(pre, xs, post, known, pos + 1);
            let b = ExprV::Bin(op, Box::new(left), Box::new(r->Ok_0));
            lemma_expr_tail_local(pre, xs, post, known, b, p);
        }
    } else if post.len() > 0 {
        lemma_embed_after(pre, xs, post);
    }
}

/// A sum read from `xs` reads the same inside `pre + xs + post` when it stops inside
/// `xs` or `post` does not continue it.
proof fn lemma_expr_local(pre: Seq<TokV>, xs: Seq<TokV>, post: Seq<TokV>, known: Seq<Seq<char>>, pos: int)
    requires
        p_expr(xs, known, pos).0 is Ok,
        p_expr(xs, known, pos).1 < xs.len() || ends_sum(post),
    ensures
        pos < p_expr(xs, known, pos).1 <= xs.len(),
        p_expr(pre + xs + post, known, pos + pre.len()) == (p_expr(xs, known, pos).0, p_expr(xs, known, pos).1 + pre.len()),
    decreases xs.len() - pos, 4int,
{
    let (l, p) = p_term(xs, known, pos);
    if p == xs.len() {
        assert(expr_tail(xs, known, l->Ok_0, p) == (l, p));
    }
    lemma_term_local(pre, xs, post, known, pos);
    lemma_expr_tail_local(pre, xs, post, known, l->Ok_0, p);
}

/// A sum of `xs` that reaches its end, followed by tokens that do not continue a
/// product, goes on as the rest of a sum after its value.
proof fn lemma_expr_tail_prefix(xs: Seq<TokV>, post: Seq<TokV>, known: Seq<Seq<char>>, left: ExprV, pos: int, v: ExprV)
    requires
        0 <= pos <= xs.len(),
        expr_tail(xs, known, left, pos) == (Ok::<ExprV, Seq<char>>(v), xs.len() as int),
        ends_product(post),
    ensures
        expr_tail(xs + post, known, left, pos) == expr_tail(xs + post, known, v, xs.len() as int),
    decreases xs.len() - pos,
{
    let e = Seq::<TokV>::empty();
    assert(e + xs + post =~= xs + post);
    if pos < xs.len() {
        lemma_embed_index(e, xs, post, pos);
        let op = xs[pos]->Op_0;
        let (r, p) = p_term(xs, known, pos + 1);
        lemma_term_local(e, xs, post, known, pos + 1);
        assert(xs[pos] == TokV::Op('+') || xs[pos] == TokV::Op('-'));
        let b = ExprV::Bin(op, Box::new(left), Box::new(r->Ok_0));
        let ts = xs + post;
        assert(ts[pos] == xs[pos]);
        assert(p_term(ts, known, pos + 1) == (r, p));
        assert(expr_tail(ts, known, left, pos) == expr_tail(ts, known, b, p));
        if p < xs.len() {
            lemma_expr_tail_prefix(xs, post, known, b, p, v);
        } else {
            assert(expr_tail(xs, known, b, p) == (Ok::<ExprV, Seq<char>>(b), p));
        }
    }
}

/// Parsing law: a formula that reads as a whole sum reads the same in parentheses.
pub proof fn lemma_parenthesised(xs: Seq<TokV>, known: Seq<Seq<char>>, v: ExprV)
    requires
        p_expr(xs, known, 0) == (Ok::<ExprV, Seq<char>>(v), xs.len() as int),
    ensures
        p_expr(seq![TokV::LParen] + xs + seq![TokV::RParen], known, 0) == (Ok::<ExprV, Seq<char>>(v), (xs.len() + 2) as int),
{
    let pre = seq![TokV::LParen];
    let post = seq![TokV::RParen];
    let ts = pre + xs + post;
    lemma_expr_local(pre, xs, post, known, 0);
    lemma_embed_after(pre, xs, post);
    assert(ts[0] == TokV::LParen);
    assert(ts.len() == (xs.len() + 2) as int);
    assert(p_factor(ts, known, 0) == (Ok::<ExprV, Seq<char>>(v), (xs.len() + 2) as int));
    assert(term_tail(ts, known, v, (xs.len() + 2) as int) == (Ok::<ExprV, Seq<char>>(v), (xs.len() + 2) as int));
    assert(p_term(ts, known, 0) == (Ok::<ExprV, Seq<char>>(v), (xs.len() + 2) as int));
    assert(expr_tail(ts, known, v, (xs.len() + 2) as int) == (Ok::<ExprV, Seq<char>>(v), (xs.len() + 2) as int));
}

/// Parsing law: a whole sum `xs`, then `+`, then a whole product `ys`, reads as the sum
/// of the two.
pub proof fn lemma_sum_of(xs: Seq<TokV>, ys: Seq<TokV>, known: Seq<Seq<char>>, v: ExprV, w: ExprV)
    requires
        p_expr(xs, known, 0) == (Ok::<ExprV, Seq<char>>(v), xs.len() as int),
        p_term(ys, known, 0) == (Ok::<ExprV, Seq<char>>(w), ys.len() as int),
    ensures
        p_expr(xs + seq![TokV::Op('+')] + ys, known, 0)
            == (Ok::<ExprV, Seq<char>>(ExprV::Bin('+', Box::new(v), Box::new(w))), (xs.len() + 1 + ys.len()) as int),
{
    let plus = seq![TokV::Op('+')];
    let post = plus + ys;
    let ts = xs + post;
    assert(xs + plus + ys =~= ts);
    let e = Seq::<TokV>::empty();
    assert(e + xs + post =~= ts);
    let (l, p) = p_term(xs, known, 0);
    if p == xs.len() {
        assert(expr_tail(xs, known, l->Ok_0, p) == (l, p));
    }
    lemma_term_local(e, xs, post, known, 0);
    lemma_expr_tail_prefix(xs, post, known, l->Ok_0, p, v);
    assert(ts[xs.len() as int] == TokV::Op('+'));
    let pre2 = xs + plus;
    assert(pre2 + ys + e =~= ts);
    lemma_term_local(pre2, ys, e, known, 0);
    let b = ExprV::Bin('+', Box::new(v), Box::new(w));
    assert(expr_tail(ts, known, b, ts.len() as int) == (Ok::<ExprV, Seq<char>>(b), ts.len() as int));
}

/// Parsing law: a whole sum, `+` and a whole product in parentheses read as their sum.
pub proof fn lemma_parenthesised_sum(xs: Seq<TokV>, ys: Seq<TokV>, known: Seq<Seq<char>>, v: ExprV, w: ExprV)
    requires
        p_expr(xs, known, 0) == (Ok::<ExprV, Seq<char>>(v), xs.len() as int),
        p_term(ys, known, 0) == (Ok::<ExprV, Seq<char>>(w), ys.len() as int),
    ensures
        p_expr(seq![TokV::LParen] + xs + seq![TokV::Op('+')] + ys + seq![TokV::RParen], known, 0)
            == (Ok::<ExprV, Seq<char>>(ExprV::Bin('+', Box::new(v), Box::new(w))), (xs.len() + ys.len() + 3) as int),
{
    let zs = xs + seq![TokV::Op('+')] + ys;
    lemma_sum_of(xs, ys, known, v, w);
    lemma_parenthesised(zs, known, ExprV::Bin('+', Box::new(v), Box::new(w)));
    assert(seq![TokV::LParen] + zs + seq![TokV::RParen] =~= seq![TokV::LParen] + xs + seq![TokV::Op('+')] + ys + seq![TokV::RParen]);
}

/// `s` in parentheses.
pub open spec fn wrapped(s: Seq<char>) -> Seq<char> {
    seq!['('] + s + seq![')']
}

/// `r` with `)` after its tokens.
pub open spec fn then_rparen(r: Result<Seq<TokV>, Seq<char>>) -> Result<Seq<TokV>, Seq<char>> {
    match r {
        Ok(ts) => Ok(ts + seq![TokV::RParen]),
        Err(e) => Err(e),
    }
}

proof fn lemma_find_char_push(a: Seq<char>, c: char, d: char)
    requires
        d != c,
    ensures
        find_char(a.push(d), c) == find_char(a, c),
{
    crate::text::lemma_find_char_range(a, c);
    let k = find_char(a, c);
    if k >= 0 {
        crate::text::lemma_find_char_at(a.push(d), c, k);
    } else {
        crate::text::lemma_find_char_none(a.push(d), c);
    }
}

proof fn lemma_number_end_wrapped(s: Seq<char>, j: int)
    requires
        0 <= j <= s.len(),
    ensures
        number_end(wrapped(s), j + 1) == number_end(s, j) + 1,
    decreases s.len() - j,
{
    let w = wrapped(s);
    assert(w.len() == s.len() + 2);
    if j < s.len() {
        assert(w[j + 1] == s[j]);
        if num_char(s[j]) {
            lemma_number_end_wrapped(s, j + 1);
        }
    } else {
        assert(w[j + 1] == ')');
    }
}

/// The tokens of `s` in parentheses, from just after `(`, are those of `s` and then `)`.
proof fn lemma_tokens_wrapped(s: Seq<char>, i: int)
    requires
        0 <= i <= s.len(),
    ensures
        tokens_from(wrapped(s), i + 1) == then_rparen(tokens_from(s, i)),
    decreases s.len() - i,
{
    let w = wrapped(s);
    assert(w.len() == s.len() + 2);
    if i == s.len() {
        assert(w[i + 1] == ')');
        assert(tokens_from(w, i + 2) == Ok::<Seq<TokV>, Seq<char>>(Seq::empty()));
        assert(seq![TokV::RParen] + Seq::<TokV>::empty() =~= Seq::<TokV>::empty() + seq![TokV::RParen]);
    } else {
        let c = s[i];
        assert(w[i + 1] == c);
        if is_ws(c) {
            lemma_tokens_wrapped(s, i + 1);
        } else if c == '[' {
            let a = s.subrange(i, s.len() as int);
            assert(w.subrange(i + 1, w.len() as int) =~= a.push(')'));
            lemma_find_char_push(a, ']', ')');
            let end = find_char(a, ']');
            crate::text::lemma_find_char_range(a, ']');
            if end >= 0 {
                assert(w.subrange(i + 2, i + 1 + end) =~= s.subrange(i + 1, i + end));
                lemma_tokens_wrapped(s, i + end + 1);
                let r = tokens_from(s, i + end + 1);
                if r is Ok {
                    let t = TokV::Ref(trim(s.subrange(i + 1, i + end)));
                    assert(seq![t] + (r->Ok_0 + seq![TokV::RParen]) =~= (seq![t] + r->Ok_0) + seq![TokV::RParen]);
                }
            }
        } else if num_char(c) {
            lemma_number_end_wrapped(s, i + 1);
            lemma_number_end(s, i + 1);
            let j = number_end(s, i + 1);
            assert(w.subrange(i + 1, j + 1) =~= s.subrange(i, j));
            lemma_tokens_wrapped(s, j);
            let r = tokens_from(s, j);
            if r is Ok {
                let t = TokV::Num(s.subrange(i, j));
                assert(seq![t] + (r->Ok_0 + seq![TokV::RParen]) =~= (seq![t] + r->Ok_0) + seq![TokV::RParen]);
            }
        } else if c == '+' || c == '-' || c == '*' || c == '/' || c == '(' || c == ')' {
            lemma_tokens_wrapped(s, i + 1);
            let r = tokens_from(s, i + 1);
            if r is Ok {
                let t = if c == '(' { TokV::LParen } else if c == ')' { TokV::RParen } else { TokV::Op(c) };
                assert(seq![t] + (r->Ok_0 + seq![TokV::RParen]) =~= (seq![t] + r->Ok_0) + seq![TokV::RParen]);
            }
        }
    }
}

/// Parsing law: a formula that parses reads the same in parentheses.
pub proof fn lemma_formula_parenthesised(s: Seq<char>, known: Seq<Seq<char>>)
    requires
        formula_parse(s, known) is Ok,
    ensures
        formula_parse(wrapped(s), known) == formula_parse(s, known),
{
    let w = wrapped(s);
    assert(w[0] == '(');
    lemma_tokens_wrapped(s, 0);
    let ts = tokens_from(s, 0)->Ok_0;
    assert(tokens_from(w, 0) == Ok::<Seq<TokV>, Seq<char>>(seq![TokV::LParen] + (ts + seq![TokV::RParen])));
    assert(seq![TokV::LParen] + (ts + seq![TokV::RParen]) =~= seq![TokV::LParen] + ts + seq![TokV::RParen]);
    let v = formula_parse(s, known)->Ok_0;
    lemma_parenthesised(ts, known, v);
}

/// Whether `v[lo..hi]` is a decimal number (see `valid_number`).
fn is_valid_number(v: &Vec<char>, lo: usize, hi: usize) -> (b: bool)
    requires
        lo <= hi <= v@.len(),
    ensures
        b == valid_number(v@.subrange(lo as int, hi as int)),
{
    let mut dots: usize = 0;
    let mut digits: usize = 0;
    let mut k = lo;
    while k < hi
        invariant
            lo <= k <= hi <= v@.len(),
            dots == count_char(v@.subrange(lo as int, k as int), '.'),
            digits == count_digits(v@.subrange(lo as int, k as int)),
            dots <= k - lo,
            digits <= k - lo,
        decreases hi - k,
    {
        assert(v@.subrange(lo as int, k + 1).drop_last() =~= v@.subrange(lo as int, k as int));
        if v[k] == '.' {
            dots += 1;
        }
        if '0' <= v[k] && v[k] <= '9' {
            digits += 1;
        }
        k += 1;
    }
    dots <= 1 && digits >= 1
}

/// The tokens of formula `expr` (see `tokens_from`).
pub fn tokenize(expr: &str) -> (r: Result<Vec<FormulaToken>, String>)
    ensures
        match r {
            Ok(ts) => tokens_from(expr@, 0) == Ok::<Seq<TokV>, Seq<char>>(toks_v(ts@)),
            Err(e) => tokens_from(expr@, 0) == Err::<Seq<TokV>, Seq<char>>(e@),
        },
{
    let v = chars_of(expr);
    let ghost s = v@;
    let mut out: Vec<FormulaToken> = Vec::new();
    let mut i: usize = 0;
    while i < v.len()
        invariant
            i <= v@.len(),
            s == v@,
            s == expr@,
            tokens_from(s, 0) == after_toks(toks_v(out@), tokens_from(s, i as int)),
        decreases v@.len() - i,
    {
        let c = v[i];
        let ghost o0 = toks_v(out@);
        if is_ws_char(c) {
            i += 1;
            continue;
        }
        if c == '[' {
            proof {
                crate::text::lemma_find_char_range(s.subrange(i as int, s.len() as int), ']');
            }
            let k = match find_char_from(&v, ']', i) {
                Some(k) => k,
                None => return Err("缺少 ]".to_owned()),
            };
            let inner = crate::text::chars_range(&v, i + 1, k);
            let raw = trimmed_chars(&inner);
            let t = FormulaToken::Ref(raw);
            out.push(t);
            proof {
                assert(toks_v(out@) =~= o0.push(tok_v(t)));
                let rest = tokens_from(s, k + 1);
                match rest {
                    Ok(ts) => assert(o0.push(tok_v(t)) + ts =~= o0 + (seq![tok_v(t)] + ts)),
                    Err(_) => {},
                }
            }
            i = k + 1;
            continue;
        }
        if ('0' <= c && c <= '9') || c == '.' {
            let mut j = i + 1;
            proof {
                lemma_number_end(s, i + 1);
            }
            while j < v.len() && (('0' <= v[j] && v[j] <= '9') || v[j] == '.')
                invariant
                    i + 1 <= j <= v@.len(),
                    s == v@,
                    number_end(s, i + 1) == number_end(s, j as int),
                decreases v@.len() - j,
            {
                j += 1;
            }
            assert(number_end(s, j as int) == j);
            if !is_valid_number(&v, i, j) {
                let mut e = "无效数字: ".to_owned();
                let num = string_of_range(&v, i, j);
                e.append(num.as_str());
                return Err(e);
            }
            let num = string_of_range(&v, i, j);
            let t = FormulaToken::Num(num);
            out.push(t);
            proof {
                assert(toks_v(out@) =~= o0.push(tok_v(t)));
                let rest = tokens_from(s, j as int);
                match rest {
                    Ok(ts) => assert(o0.push(tok_v(t)) + ts =~= o0 + (seq![tok_v(t)] + ts)),
                    Err(_) => {},
                }
            }
            i = j;
            continue;
        }
        let t = if c == '+' || c == '-' || c == '*' || c == '/' {
            FormulaToken::Op(c)
        } else if c == '(' {
            FormulaToken::LParen
        } else if c == ')' {
            FormulaToken::RParen
        } else {
            let mut e = "无法识别的字符: ".to_owned();
            push_char(&mut e, c);
            proof {
                assert(e@ =~= "无法识别的字符: "@ + seq![c]);
                assert(!num_char(c));
                assert(tokens_from(s, i as int) == Err::<Seq<TokV>, Seq<char>>(e@));
            }
            return Err(e);
        };
        out.push(t);
        proof {
            assert(toks_v(out@) =~= o0.push(tok_v(t)));
            let rest = tokens_from(s, i + 1);
            match rest {
                Ok(ts) => assert(o0.push(tok_v(t)) + ts =~= o0 + (seq![tok_v(t)] + ts)),
                Err(_) => {},
            }
        }
        i += 1;
    }
    proof {
        assert(toks_v(out@) + Seq::<TokV>::empty() =~= toks_v(out@));
    }
    Ok(out)
}

/// How an error names a token (see `tok_text`).
fn token_text(t: &FormulaToken) -> (r: String)
    ensures
        r@ == tok_text(tok_v(*t)),
{
    match t {
        FormulaToken::Num(x) => {
            let mut r = "Num(".to_owned();
            r.append(x.as_str());
            r.append(")");
            r
        },
        FormulaToken::Ref(x) => {
            let mut r = "Ref(\"".to_owned();
            r.append(x.as_str());
            r.append("\")");
            r
        },
        FormulaToken::Op(c) => {
            let mut r = "Op('".to_owned();
            push_char(&mut r, *c);
            r.append("')");
            proof {
                assert(r@ =~= "Op('"@ + seq![*c] + "')"@);
            }
            r
        },
        FormulaToken::LParen => "LParen".to_owned(),
        FormulaToken::RParen => "RParen".to_owned(),
    }
}

/// How an error names the token at `p` (see `tok_at_text`).
fn token_at_text(ts: &Vec<FormulaToken>, p: usize) -> (r: String)
    ensures
        r@ == tok_at_text(toks_v(ts@), p as int),
{
    if p < ts.len() {
        let mut r = "Some(".to_owned();
        let t = token_text(&ts[p]);
        r.append(t.as_str());
        r.append(")");
        r
    } else {
        "None".to_owned()
    }
}

/// The error for an unexpected token at `p`.
fn unexpected(ts: &Vec<FormulaToken>, p: usize) -> (r: String)
    ensures
        r@ == "意外的标记: "@ + tok_at_text(toks_v(ts@), p as int),
{
    let mut r = "意外的标记: ".to_owned();
    let t = token_at_text(ts, p);
    r.append(t.as_str());
    r
}

/// A sum from `pos` (see `p_expr`).
fn parse_expr(ts: &Vec<FormulaToken>, known: &Vec<String>, pos: usize) -> (r: (Result<FormulaExpr, String>, usize))
    requires
        pos <= ts@.len(),
    ensures
        (parsed_v(r.0), r.1 as int) == p_expr(toks_v(ts@), known.deep_view(), pos as int),
    decreases ts@.len() - pos, 4int,
{
    let (l, p) = parse_term(ts, known, pos);
    match l {
        Err(e) => (Err(e), p),
        Ok(lv) => if pos < p && p <= ts.len() { parse_sum_rest(ts, known, lv, p) } else { (Ok(lv), p) },
    }
}

/// The rest of a sum after `left` (see `expr_tail`).
fn parse_sum_rest(ts: &Vec<FormulaToken>, known: &Vec<String>, left: FormulaExpr, pos: usize) -> (r: (Result<FormulaExpr, String>, usize))
    requires
        pos <= ts@.len(),
    ensures
        (parsed_v(r.0), r.1 as int) == expr_tail(toks_v(ts@), known.deep_view(), expr_v(left), pos as int),
    decreases ts@.len() - pos, 3int,
{
    if pos < ts.len() {
        let op = match &ts[pos] {
            FormulaToken::Op(c) => *c,
            _ => ' ',
        };
        if op == '+' || op == '-' {
            let (r, p) = parse_term(ts, known, pos + 1);
            return match r {
                Err(e) => (Err(e), p),
                Ok(rv) => {
                    let b = FormulaExpr::Bin(op, Box::new(left), Box::new(rv));
                    if pos < p && p <= ts.len() { parse_sum_rest(ts, known, b, p) } else { (Ok(b), p) }
                },
            };
        }
    }
    (Ok(left), pos)
}

/// A product from `pos` (see `p_term`).
fn parse_term(ts: &Vec<FormulaToken>, known: &Vec<String>, pos: usize) -> (r: (Result<FormulaExpr, String>, usize))
    requires
        pos <= ts@.len(),
    ensures
        (parsed_v(r.0), r.1 as int) == p_term(toks_v(ts@), known.deep_view(), pos as int),
    decreases ts@.len() - pos, 2int,
{
    let (l, p) = parse_factor(ts, known, pos);
    match l {
        Err(e) => (Err(e), p),
        Ok(lv) => if pos < p && p <= ts.len() { parse_product_rest(ts, known, lv, p) } else { (Ok(lv), p) },
    }
}

/// The rest of a product after `left` (see `term_tail`).
fn parse_product_rest(ts: &Vec<FormulaToken>, known: &Vec<String>, left: FormulaExpr, pos: usize) -> (r: (Result<FormulaExpr, String>, usize))
    requires
        pos <= ts@.len(),
    ensures
        (parsed_v(r.0), r.1 as int) == term_tail(toks_v(ts@), known.deep_view(), expr_v(left), pos as int),
    decreases ts@.len() - pos, 1int,
{
    if pos < ts.len() {
        let op = match &ts[pos] {
            FormulaToken::Op(c) => *c,
            _ => ' ',
        };
        if op == '*' || op == '/' {
            let (r, p) = parse_factor(ts, known, pos + 1);
            return match r {
                Err(e) => (Err(e), p),
                Ok(rv) => {
                    let b = FormulaExpr::Bin(op, Box::new(left), Box::new(rv));
                    if pos < p && p <= ts.len() { parse_product_rest(ts, known, b, p) } else { (Ok(b), p) }
                },
            };
        }
    }
    (Ok(left), pos)
}

/// A factor from `pos` (see `p_factor`).
fn parse_factor(ts: &Vec<FormulaToken>, known: &Vec<String>, pos: usize) -> (r: (Result<FormulaExpr, String>, usize))
    requires
        pos <= ts@.len(),
    ensures
        (parsed_v(r.0), r.1 as int) == p_factor(toks_v(ts@), known.deep_view(), pos as int),
    decreases ts@.len() - pos, 0int,
{
    if pos >= ts.len() {
        return (Err(unexpected(ts, pos)), pos);
    }
    match &ts[pos] {
        FormulaToken::Op(c) => {
            if *c == '-' {
                let (r, p) = parse_factor(ts, known, pos + 1);
                match r {
                    Ok(v) => (Ok(FormulaExpr::Neg(Box::new(v))), p),
                    Err(e) => (Err(e), p),
                }
            } else if *c == '+' {
                parse_factor(ts, known, pos + 1)
            } else {
                (Err(unexpected(ts, pos)), pos)
            }
        },
        FormulaToken::Num(x) => (Ok(FormulaExpr::Num(x.clone())), pos + 1),
        FormulaToken::Ref(name) => {
            if find_text(known, name.as_str()).is_some() {
                (Ok(FormulaExpr::Ref(name.clone())), pos + 1)
            } else {
                let mut e = "未知引用: [".to_owned();
                e.append(name.as_str());
                e.append("]，请检查表/列或关联键");
                (Err(e), pos + 1)
            }
        },
        FormulaToken::LParen => {
            let (r, p) = parse_expr(ts, known, pos + 1);
            match r {
                Err(e) => (Err(e), p),
                Ok(v) => {
                    let close = p < ts.len() && match &ts[p] {
                        FormulaToken::RParen => true,
                        _ => false,
                    };
                    if close { (Ok(v), p + 1) } else { (Err("缺少 )".to_owned()), p) }
                },
            }
        },
        FormulaToken::RParen => (Err(unexpected(ts, pos)), pos),
    }
}

/// Parses formula `expr` whose references `known` have values (see `formula_parse`).
pub fn parse_formula(expr: &str, known: &Vec<String>) -> (r: Result<FormulaExpr, String>)
    ensures
        parsed_v(r) == formula_parse(expr@, known.deep_view()),
{
    let ts = match tokenize(expr) {
        Ok(ts) => ts,
        Err(e) => return Err(e),
    };
    let (r, p) = parse_expr(&ts, known, 0);
    match r {
        Err(e) => Err(e),
        Ok(v) => {
            if p != ts.len() {
                let mut e = "公式解析未完成，停在: ".to_owned();
                let t = token_at_text(&ts, p);
                e.append(t.as_str());
                Err(e)
            } else {
                Ok(v)
            }
        },
    }
}

} // verus!
