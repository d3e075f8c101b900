//! The shape of an expression.

use vstd::prelude::*;
use crate::assoc::Name;
use crate::value::{Value, ValueView};

verus! {

/// An arithmetic operator, or `~`.
#[derive(Debug, Clone, Copy, PartialEq, Eq, Structural)]
pub enum BinOp {
    Add,
    Sub,
    Mul,
    Div,
    FloorDiv,
    Mod,
    Pow,
    Concat,
}

/// A comparison.
#[derive(Debug, Clone, Copy, PartialEq, Eq, Structural)]
pub enum CompareOp {
    Eq,
    Ne,
    Lt,
    Le,
    Gt,
    Ge,
}

/// An expression.
#[derive(Debug)]
pub enum Ast {
    Var(String),
    Lit(Value),
    Attr(Box<Ast>, String),
    Index(Box<Ast>, Box<Ast>),
    Slice(Box<Ast>, Option<Box<Ast>>, Option<Box<Ast>>, Option<Box<Ast>>),
    Filter(Box<Ast>, String, Vec<Ast>),
    Neg(Box<Ast>),
    Bin(BinOp, Box<Ast>, Box<Ast>),
    Not(Box<Ast>),
    And(Box<Ast>, Box<Ast>),
    Or(Box<Ast>, Box<Ast>),
    Compare(Box<Ast>, CompareOp, Box<Ast>),
    /// `left in right`, or `left not in right`.
    In(Box<Ast>, Box<Ast>, bool),
    /// `e is defined`, or `e is undefined`.
    Defined(Box<Ast>, bool),
    /// `body if condition [else other]`: the condition, the body, the other branch.
    Cond(Box<Ast>, Box<Ast>, Option<Box<Ast>>),
}

/// What an expression is.
pub enum AstView {
    Var(Name),
    Lit(ValueView),
    Attr(Box<AstView>, Name),
    Index(Box<AstView>, Box<AstView>),
    Slice(Box<AstView>, Option<Box<AstView>>, Option<Box<AstView>>, Option<Box<AstView>>),
    Filter(Box<AstView>, Name, Seq<AstView>),
    Neg(Box<AstView>),
    Bin(BinOp, Box<AstView>, Box<AstView>),
    Not(Box<AstView>),
    And(Box<AstView>, Box<AstView>),
    Or(Box<AstView>, Box<AstView>),
    Compare(Box<AstView>, CompareOp, Box<AstView>),
    In(Box<AstView>, Box<AstView>, bool),
    Defined(Box<AstView>, bool),
    Cond(Box<AstView>, Box<AstView>, Option<Box<AstView>>),
}

impl View for Ast {
    type V = AstView;

    closed spec fn view(&self) -> AstView
        decreases self,
    {
        match self {
            Ast::Var(n) => AstView::Var(n@),
            Ast::Lit(v) => AstView::Lit(v@),
            Ast::Attr(e, n) => AstView::Attr(Box::new((**e)@), n@),
            Ast::Index(e, i) => AstView::Index(Box::new((**e)@), Box::new((**i)@)),
            Ast::Slice(e, a, b, c) => AstView::Slice(
                Box::new((**e)@),
                match a {
                    Some(x) => Some(Box::new((**x)@)),
                    None => None,
                },
                match b {
                    Some(x) => Some(Box::new((**x)@)),
                    None => None,
                },
                match c {
                    Some(x) => Some(Box::new((**x)@)),
                    None => None,
                },
            ),
            Ast::Filter(e, n, args) => AstView::Filter(
                Box::new((**e)@),
                n@,
                ast_views(args@, args@.len()),
            ),
            Ast::Neg(e) => AstView::Neg(Box::new((**e)@)),
            Ast::Bin(op, a, b) => AstView::Bin(*op, Box::new((**a)@), Box::new((**b)@)),
            Ast::Not(e) => AstView::Not(Box::new((**e)@)),
            Ast::And(a, b) => AstView::And(Box::new((**a)@), Box::new((**b)@)),
            Ast::Or(a, b) => AstView::Or(Box::new((**a)@), Box::new((**b)@)),
            Ast::Compare(a, op, b) => AstView::Compare(
                Box::new((**a)@),
                *op,
                Box::new((**b)@),
            ),
            Ast::In(a, b, n) => AstView::In(Box::new((**a)@), Box::new((**b)@), *n),
            Ast::Defined(e, n) => AstView::Defined(Box::new((**e)@), *n),
            Ast::Cond(c, b, o) => AstView::Cond(
                Box::new((**c)@),
                Box::new((**b)@),
                match o {
                    Some(x) => Some(Box::new((**x)@)),
                    None => None,
                },
            ),
        }
    }
}

/// What an expression is, by what its parts are.
pub open spec fn shape(a: Ast) -> AstView {
    match &a {
        Ast::Var(n) => AstView::Var(n@),
        Ast::Lit(v) => AstView::Lit(v@),
        Ast::Attr(e, n) => AstView::Attr(Box::new((**e)@), n@),
        Ast::Index(e, i) => AstView::Index(Box::new((**e)@), Box::new((**i)@)),
        Ast::Slice(e, a, b, c) => AstView::Slice(
            Box::new((**e)@),
            match a {
                Some(x) => Some(Box::new((**x)@)),
                None => None,
            },
            match b {
                Some(x) => Some(Box::new((**x)@)),
                None => None,
            },
            match c {
                Some(x) => Some(Box::new((**x)@)),
                None => None,
            },
        ),
        Ast::Filter(e, n, args) => AstView::Filter(
            Box::new((**e)@),
            n@,
            asts(args@),
        ),
        Ast::Neg(e) => AstView::Neg(Box::new((**e)@)),
        Ast::Bin(op, a, b) => AstView::Bin(*op, Box::new((**a)@), Box::new((**b)@)),
        Ast::Not(e) => AstView::Not(Box::new((**e)@)),
        Ast::And(a, b) => AstView::And(Box::new((**a)@), Box::new((**b)@)),
        Ast::Or(a, b) => AstView::Or(Box::new((**a)@), Box::new((**b)@)),
        Ast::Compare(a, op, b) => AstView::Compare(
            Box::new((**a)@),
            *op,
            Box::new((**b)@),
        ),
        Ast::In(a, b, n) => AstView::In(Box::new((**a)@), Box::new((**b)@), *n),
        Ast::Defined(e, n) => AstView::Defined(Box::new((**e)@), *n),
        Ast::Cond(c, b, o) => AstView::Cond(
            Box::new((**c)@),
            Box::new((**b)@),
            match o {
                Some(x) => Some(Box::new((**x)@)),
                None => None,
            },
        ),
    }
}

/// The view of an expression follows its shape.
pub proof fn lemma_shape(a: Ast)
    ensures
        a@ == shape(a),
{
    match &a {
        Ast::Filter(e, n, args) => {
            lemma_ast_views(args@, args@.len());
            assert(asts(args@).take(args@.len() as int) =~= asts(args@));
        },
        _ => {},
    }
}

impl Ast {
    /// A variable.
    pub fn var(n: String) -> (r: Ast)
        ensures
            r@ == AstView::Var(n@),
    {
        let r = Ast::Var(n);
        proof {
            lemma_shape(r);
        }
        r
    }

    /// A literal.
    pub fn lit(v: Value) -> (r: Ast)
        ensures
            r@ == AstView::Lit(v@),
    {
        let r = Ast::Lit(v);
        proof {
            lemma_shape(r);
        }
        r
    }

    /// An attribute.
    pub fn attr(e: Ast, n: String) -> (r: Ast)
        ensures
            r@ == AstView::Attr(Box::new(e@), n@),
    {
        let r = Ast::Attr(Box::new(e), n);
        proof {
            lemma_shape(r);
        }
        r
    }

    /// A subscript.
    pub fn index(e: Ast, i: Ast) -> (r: Ast)
        ensures
            r@ == AstView::Index(Box::new(e@), Box::new(i@)),
    {
        let r = Ast::Index(Box::new(e), Box::new(i));
        proof {
            lemma_shape(r);
        }
        r
    }

    /// A slice.
    pub fn slice(e: Ast, a: Option<Ast>, b: Option<Ast>, c: Option<Ast>) -> (r: Ast)
        ensures
            r@ == AstView::Slice(Box::new(e@), opt_ast(a), opt_ast(b), opt_ast(c)),
    {
        let x = boxed(a);
        let y = boxed(b);
        let z = boxed(c);
        let r = Ast::Slice(Box::new(e), x, y, z);
        proof {
            lemma_shape(r);
        }
        r
    }

    /// A filter.
    pub fn filter(e: Ast, n: String, args: Vec<Ast>) -> (r: Ast)
        ensures
            r@ == AstView::Filter(Box::new(e@), n@, asts(args@)),
    {
        let r = Ast::Filter(Box::new(e), n, args);
        proof {
            lemma_shape(r);
        }
        r
    }

    /// A negative.
    pub fn neg(e: Ast) -> (r: Ast)
        ensures
            r@ == AstView::Neg(Box::new(e@)),
    {
        let r = Ast::Neg(Box::new(e));
        proof {
            lemma_shape(r);
        }
        r
    }

    /// An operation.
    pub fn bin(op: BinOp, a: Ast, b: Ast) -> (r: Ast)
        ensures
            r@ == AstView::Bin(op, Box::new(a@), Box::new(b@)),
    {
        let r = Ast::Bin(op, Box::new(a), Box::new(b));
        proof {
            lemma_shape(r);
        }
        r
    }

    /// A negation.
    pub fn negation(e: Ast) -> (r: Ast)
        ensures
            r@ == AstView::Not(Box::new(e@)),
    {
        let r = Ast::Not(Box::new(e));
        proof {
            lemma_shape(r);
        }
        r
    }

    /// A conjunction.
    pub fn and(a: Ast, b: Ast) -> (r: Ast)
        ensures
            r@ == AstView::And(Box::new(a@), Box::new(b@)),
    {
        let r = Ast::And(Box::new(a), Box::new(b));
        proof {
            lemma_shape(r);
        }
        r
    }

    /// A disjunction.
    pub fn or(a: Ast, b: Ast) -> (r: Ast)
        ensures
            r@ == AstView::Or(Box::new(a@), Box::new(b@)),
    {
        let r = Ast::Or(Box::new(a), Box::new(b));
        proof {
            lemma_shape(r);
        }
        r
    }

    /// A comparison.
    pub fn compare(a: Ast, op: CompareOp, b: Ast) -> (r: Ast)
        ensures
            r@ == AstView::Compare(Box::new(a@), op, Box::new(b@)),
    {
        let r = Ast::Compare(Box::new(a), op, Box::new(b));
        proof {
            lemma_shape(r);
        }
        r
    }

    /// A membership.
    pub fn within(a: Ast, b: Ast, negated: bool) -> (r: Ast)
        ensures
            r@ == AstView::In(Box::new(a@), Box::new(b@), negated),
    {
        let r = Ast::In(Box::new(a), Box::new(b), negated);
        proof {
            lemma_shape(r);
        }
        r
    }

    /// A test for being defined.
    pub fn defined(e: Ast, negated: bool) -> (r: Ast)
        ensures
            r@ == AstView::Defined(Box::new(e@), negated),
    {
        let r = Ast::Defined(Box::new(e), negated);
        proof {
            lemma_shape(r);
        }
        r
    }

    /// A conditional.
    pub fn cond(c: Ast, b: Ast, o: Option<Ast>) -> (r: Ast)
        ensures
            r@ == AstView::Cond(Box::new(c@), Box::new(b@), opt_ast(o)),
    {
        let x = boxed(o);
        let r = Ast::Cond(Box::new(c), Box::new(b), x);
        proof {
            lemma_shape(r);
        }
        r
    }
}

/// Puts an optional expression into a box.
fn boxed(o: Option<Ast>) -> (r: Option<Box<Ast>>)
    ensures
        (match r {
            Some(x) => Some(Box::new((*x)@)),
            None => None,
        }) == opt_ast(o),
{
    match o {
        Some(a) => Some(Box::new(a)),
        None => None,
    }
}

/// What the first `n` of a sequence of expressions are.
spec fn ast_views(s: Seq<Ast>, n: nat) -> Seq<AstView>
    decreases s, n,
{
    if n == 0 || n > s.len() {
        Seq::empty()
    } else {
        ast_views(s, (n - 1) as nat).push(s[n - 1]@)
    }
}

/// What a sequence of expressions is.
pub open spec fn asts(s: Seq<Ast>) -> Seq<AstView> {
    Seq::new(s.len(), |i: int| s[i]@)
}

/// One expression more.
pub proof fn lemma_asts_push(s: Seq<Ast>, a: Ast)
    ensures
        asts(s.push(a)) == asts(s).push(a@),
{
    assert(asts(s.push(a)) =~= asts(s).push(a@));
}

/// What an optional expression is.
pub open spec fn opt_ast(o: Option<Ast>) -> Option<Box<AstView>> {
    match o {
        Some(x) => Some(Box::new(x@)),
        None => None,
    }
}

proof fn lemma_ast_views(s: Seq<Ast>, n: nat)
    requires
        n <= s.len(),
    ensures
        ast_views(s, n) == asts(s).take(n as int),
    decreases n,
{
    if n == 0 {
        assert(asts(s).take(0) =~= Seq::empty());
    } else {
        lemma_ast_views(s, (n - 1) as nat);
        assert(ast_views(s, n) == ast_views(s, (n - 1) as nat).push(s[n - 1]@));
        assert(asts(s).take(n as int) =~= asts(s).take(n - 1).push(s[n - 1]@));
    }
}

} // verus!
