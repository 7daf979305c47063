//! Numeric reading of cells.
//!
//! Cells are text; where the engine treats a cell as a number (match keys,
//! numeric ordering, aggregates, formulas) it asks the caller-supplied
//! [`Numbers`], which reads numbers as binary floating point. The library
//! only relies on these readings being functions of their inputs.
use vstd::prelude::*;
use crate::formula::{expr_v, formula_parse, parse_formula, ExprV, FormulaExpr};
use crate::models::lemma_dv_push;

verus! {

/// Order of two cells.
#[derive(Debug, Clone, Copy, PartialEq, Eq, Structural)]
pub enum CellOrder {
    Less,
    Equal,
    Greater,
}

/// Aggregation of a pivot value column.
#[derive(Debug, Clone, Copy, PartialEq, Eq, Structural)]
pub enum Aggregate {
    Sum,
    Count,
    Avg,
}

/// The numeric reading of cells, supplied by the caller.
pub struct Numbers<K, C, T, E> {
    /// Canonical text of a short, precise number (`1`, `1.0` and `001` all give `1`),
    /// or `None` for text that is not one.
    pub numeric_key: K,
    /// Order of two cells when both read as numbers, `None` when either does not.
    pub numeric_order: C,
    /// Sum, count or average of cells read as numbers, as text.
    pub total: T,
    /// Value of a parsed formula over named values (each a cell read as a number), as
    /// text.
    pub evaluate: E,
}

/// The order of `b` and `a`, given the order of `a` and `b`.
pub open spec fn flip(o: CellOrder) -> CellOrder {
    match o {
        CellOrder::Less => CellOrder::Greater,
        CellOrder::Equal => CellOrder::Equal,
        CellOrder::Greater => CellOrder::Less,
    }
}

pub open spec fn flip_opt(o: Option<CellOrder>) -> Option<CellOrder> {
    match o {
        Some(x) => Some(flip(x)),
        None => None,
    }
}

pub open spec fn key_gives<K: Fn(&str) -> Option<String>>(k: K, s: Seq<char>, r: Option<Seq<char>>) -> bool {
    exists|a: &str, o: Option<String>|
        #![trigger k.ensures((a,), o)]
        a@ == s && k.ensures((a,), o) && opt_view(o) == r
}

pub open spec fn opt_view(o: Option<String>) -> Option<Seq<char>> {
    match o {
        Some(t) => Some(t@),
        None => None,
    }
}

pub open spec fn order_gives<C: Fn(&str, &str) -> Option<CellOrder>>(c: C, a: Seq<char>, b: Seq<char>, r: Option<CellOrder>) -> bool {
    exists|x: &str, y: &str| #![trigger c.ensures((x, y), r)] x@ == a && y@ == b && c.ensures((x, y), r)
}

pub open spec fn total_gives<T: Fn(&Vec<String>, Aggregate) -> String>(t: T, cells: Seq<Seq<char>>, agg: Aggregate, r: Seq<char>) -> bool {
    exists|v: &Vec<String>, o: String|
        #![trigger t.ensures((v, agg), o)]
        v.deep_view() == cells && t.ensures((v, agg), o) && o@ == r
}

pub open spec fn ctx_view(ctx: Seq<(String, String)>) -> Seq<(Seq<char>, Seq<char>)> {
    ctx.map_values(|p: (String, String)| (p.0@, p.1@))
}

pub open spec fn result_view(r: Result<String, String>) -> Result<Seq<char>, Seq<char>> {
    match r {
        Ok(t) => Ok(t@),
        Err(e) => Err(e@),
    }
}

pub open spec fn eval_gives<E: Fn(&FormulaExpr, &Vec<(String, String)>) -> String>(
    e: E,
    expr: ExprV,
    ctx: Seq<(Seq<char>, Seq<char>)>,
    r: Seq<char>,
) -> bool {
    exists|x: &FormulaExpr, v: &Vec<(String, String)>, o: String|
        #![trigger e.ensures((x, v), o)]
        expr_v(*x) == expr && ctx_view(v@) == ctx && e.ensures((x, v), o) && o@ == r
}

/// Names of the values of `ctx`.
pub open spec fn ctx_names(ctx: Seq<(Seq<char>, Seq<char>)>) -> Seq<Seq<char>> {
    ctx.map_values(|p: (Seq<char>, Seq<char>)| p.0)
}

impl<K, C, T, E> Numbers<K, C, T, E> where
    K: Fn(&str) -> Option<String>,
    C: Fn(&str, &str) -> Option<CellOrder>,
    T: Fn(&Vec<String>, Aggregate) -> String,
    E: Fn(&FormulaExpr, &Vec<(String, String)>) -> String,
 {
    /// Every reading may be asked for, each gives one answer per input, and the
    /// numeric order of `b` and `a` is the reverse of that of `a` and `b`.
    pub open spec fn wf(&self) -> bool {
        &&& forall|a: Seq<char>, b: Seq<char>| #[trigger] self.order_of(a, b) == flip_opt(self.order_of(b, a))
        &&& forall|a: &str| #[trigger] self.numeric_key.requires((a,))
        &&& forall|a: &str, b: &str| #[trigger] self.numeric_order.requires((a, b))
        &&& forall|v: &Vec<String>, g: Aggregate| #[trigger] self.total.requires((v, g))
        &&& forall|x: &FormulaExpr, v: &Vec<(String, String)>| #[trigger] self.evaluate.requires((x, v))
        &&& forall|s: Seq<char>, r1: Option<Seq<char>>, r2: Option<Seq<char>>|
            #[trigger] key_gives(self.numeric_key, s, r1) && #[trigger] key_gives(self.numeric_key, s, r2) ==> r1 == r2
        &&& forall|a: Seq<char>, b: Seq<char>, r1: Option<CellOrder>, r2: Option<CellOrder>|
            #[trigger] order_gives(self.numeric_order, a, b, r1) && #[trigger] order_gives(self.numeric_order, a, b, r2) ==> r1 == r2
        &&& forall|c: Seq<Seq<char>>, g: Aggregate, r1: Seq<char>, r2: Seq<char>|
            #[trigger] total_gives(self.total, c, g, r1) && #[trigger] total_gives(self.total, c, g, r2) ==> r1 == r2
        &&& forall|x: ExprV, v: Seq<(Seq<char>, Seq<char>)>, r1: Seq<char>, r2: Seq<char>|
            #[trigger] eval_gives(self.evaluate, x, v, r1) && #[trigger] eval_gives(self.evaluate, x, v, r2) ==> r1 == r2
    }

    /// The numeric key of `s`.
    pub open spec fn key_of(&self, s: Seq<char>) -> Option<Seq<char>> {
        choose|r: Option<Seq<char>>| key_gives(self.numeric_key, s, r)
    }

    /// The numeric order of `a` and `b`.
    pub open spec fn order_of(&self, a: Seq<char>, b: Seq<char>) -> Option<CellOrder> {
        choose|r: Option<CellOrder>| order_gives(self.numeric_order, a, b, r)
    }

    /// The aggregate of `cells`.
    pub open spec fn total_of(&self, cells: Seq<Seq<char>>, agg: Aggregate) -> Seq<char> {
        choose|r: Seq<char>| total_gives(self.total, cells, agg, r)
    }

    /// The value of the parsed formula `expr` over `ctx`.
    pub open spec fn value_of(&self, expr: ExprV, ctx: Seq<(Seq<char>, Seq<char>)>) -> Seq<char> {
        choose|r: Seq<char>| eval_gives(self.evaluate, expr, ctx, r)
    }

    /// The value of formula `expr` over `ctx`: the parse error (see `formula_parse`, the
    /// names of `ctx` being the known references), or the value of the parsed formula.
    pub open spec fn eval_of(&self, expr: Seq<char>, ctx: Seq<(Seq<char>, Seq<char>)>) -> Result<Seq<char>, Seq<char>> {
        match formula_parse(expr, ctx_names(ctx)) {
            Err(e) => Err(e),
            Ok(t) => Ok(self.value_of(t, ctx)),
        }
    }

    pub fn key(&self, s: &str) -> (r: Option<String>)
        requires
            self.wf(),
        ensures
            opt_view(r) == self.key_of(s@),
    {
        let r = (self.numeric_key)(s);
        assert(key_gives(self.numeric_key, s@, opt_view(r)));
        r
    }

    pub fn order(&self, a: &str, b: &str) -> (r: Option<CellOrder>)
        requires
            self.wf(),
        ensures
            r == self.order_of(a@, b@),
    {
        let r = (self.numeric_order)(a, b);
        assert(order_gives(self.numeric_order, a@, b@, r));
        r
    }

    pub fn aggregate(&self, cells: &Vec<String>, agg: Aggregate) -> (r: String)
        requires
            self.wf(),
        ensures
            r@ == self.total_of(cells.deep_view(), agg),
    {
        let r = (self.total)(cells, agg);
        assert(total_gives(self.total, cells.deep_view(), agg, r@));
        r
    }

    pub fn eval(&self, expr: &str, ctx: &Vec<(String, String)>) -> (r: Result<String, String>)
        requires
            self.wf(),
        ensures
            result_view(r) == self.eval_of(expr@, ctx_view(ctx@)),
    {
        let mut names: Vec<String> = Vec::new();
        let mut i: usize = 0;
        while i < ctx.len()
            invariant
                i <= ctx@.len(),
                names.deep_view() == ctx_names(ctx_view(ctx@)).take(i as int),
            decreases ctx@.len() - i,
        {
            let ghost n0 = names;
            let x = ctx[i].0.clone();
            names.push(x);
            proof {
                lemma_dv_push(n0, names, x);
                assert(names.deep_view() =~= ctx_names(ctx_view(ctx@)).take(i + 1));
            }
            i += 1;
        }
        assert(ctx_names(ctx_view(ctx@)).take(i as int) =~= ctx_names(ctx_view(ctx@)));
        match parse_formula(expr, &names) {
            Err(e) => Err(e),
            Ok(t) => {
                let v = (self.evaluate)(&t, ctx);
                assert(eval_gives(self.evaluate, expr_v(t), ctx_view(ctx@), v@));
                Ok(v)
            },
        }
    }
}

} // verus!
