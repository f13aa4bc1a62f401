//! The syntax trees that the parser builds.

use crate::operator::Operator;
use crate::util::is_word;
use vstd::prelude::*;

verus! {

/// An expression. Each node owns its children.
#[derive(Debug, PartialEq, Eq)]
pub enum Expr {
    /// An unsigned number.
    NumberLiteral(usize),
    /// The name of a variable.
    VariableRef(Vec<u8>),
    /// Two expressions joined by an operator.
    BinaryOp { op: Operator, lhs: Box<Expr>, rhs: Box<Expr> },
    /// A call of the function `name` with the arguments `args`, in order.
    Call { name: Vec<u8>, args: Vec<Expr> },
    /// `if predicate then then_branch else else_branch`.
    Conditional { predicate: Box<Expr>, then_branch: Box<Expr>, else_branch: Box<Expr> },
}

/// An expression as a mathematical value.
pub ghost enum ExprView {
    NumberLiteral(usize),
    VariableRef(Seq<u8>),
    BinaryOp { op: Operator, lhs: Box<ExprView>, rhs: Box<ExprView> },
    Call { name: Seq<u8>, args: Seq<ExprView> },
    Conditional {
        predicate: Box<ExprView>,
        then_branch: Box<ExprView>,
        else_branch: Box<ExprView>,
    },
}

impl ExprView {
    /// Every name in the tree is a word: a letter followed by letters and
    /// digits.
    pub open spec fn well_named(self) -> bool
        decreases self,
    {
        match self {
            ExprView::NumberLiteral(_) => true,
            ExprView::VariableRef(name) => is_word(name),
            ExprView::BinaryOp { op, lhs, rhs } => lhs.well_named() && rhs.well_named(),
            ExprView::Call { name, args } => is_word(name) && forall|i: int|
                0 <= i < args.len() ==> (#[trigger] args[i]).well_named(),
            ExprView::Conditional { predicate, then_branch, else_branch } => {
                predicate.well_named() && then_branch.well_named() && else_branch.well_named()
            },
        }
    }
}

impl Expr {
    /// The mathematical value of an expression tree.
    pub open spec fn model(&self) -> ExprView
        decreases self,
    {
        match self {
            Expr::NumberLiteral(value) => ExprView::NumberLiteral(*value),
            Expr::VariableRef(name) => ExprView::VariableRef(name@),
            Expr::BinaryOp { op, lhs, rhs } => ExprView::BinaryOp {
                op: *op,
                lhs: Box::new(lhs.model()),
                rhs: Box::new(rhs.model()),
            },
            Expr::Call { name, args } => ExprView::Call {
                name: name@,
                args: Seq::new(
                    args.len() as nat,
                    |i: int|
                        if 0 <= i < args.len() {
                            args[i].model()
                        } else {
                            arbitrary()
                        },
                ),
            },
            Expr::Conditional { predicate, then_branch, else_branch } => ExprView::Conditional {
                predicate: Box::new(predicate.model()),
                then_branch: Box::new(then_branch.model()),
                else_branch: Box::new(else_branch.model()),
            },
        }
    }
}

impl View for Expr {
    type V = ExprView;

    open spec fn view(&self) -> ExprView {
        self.model()
    }
}

/// The mathematical values of a row of expression trees.
pub open spec fn models(exprs: Seq<Expr>) -> Seq<ExprView> {
    Seq::new(exprs.len(), |i: int| exprs[i].model())
}

/// The arguments of a call are modelled one by one.
pub proof fn lemma_call_model(name: Vec<u8>, args: Vec<Expr>)
    ensures
        (Expr::Call { name, args }).model() == (ExprView::Call {
            name: name@,
            args: models(args@),
        }),
{
    let call = Expr::Call { name, args };
    assert(call.model()->Call_args =~= models(args@));
}

/// Adding a tree to a row adds its model to the row's models.
pub proof fn lemma_models_push(exprs: Seq<Expr>, expr: Expr)
    ensures
        models(exprs.push(expr)) == models(exprs).push(expr.model()),
{
    assert(models(exprs.push(expr)) =~= models(exprs).push(expr.model()));
}

/// The byte strings of a row of names.
pub open spec fn names(row: Seq<Vec<u8>>) -> Seq<Seq<u8>> {
    Seq::new(row.len(), |i: int| row[i]@)
}

/// Adding a name to a row adds its bytes to the row's byte strings.
pub proof fn lemma_names_push(row: Seq<Vec<u8>>, name: Vec<u8>)
    ensures
        names(row.push(name)) == names(row).push(name@),
{
    assert(names(row.push(name)) =~= names(row).push(name@));
}

/// The name and the parameter names of a function. A parameter name may
/// occur more than once: that is not looked into here.
#[derive(Debug, PartialEq, Eq)]
pub struct Prototype {
    pub name: Vec<u8>,
    pub args: Vec<Vec<u8>>,
}

/// A prototype as a mathematical value.
pub ghost struct PrototypeView {
    pub name: Seq<u8>,
    pub args: Seq<Seq<u8>>,
}

impl View for Prototype {
    type V = PrototypeView;

    open spec fn view(&self) -> PrototypeView {
        PrototypeView { name: self.name@, args: names(self.args@) }
    }
}

/// The name given to a function that has none: `__anon_fn`.
pub open spec fn anonymous_name() -> Seq<u8> {
    seq![95u8, 95u8, 97u8, 110u8, 111u8, 110u8, 95u8, 102u8, 110u8]
}

impl Default for Prototype {
    /// The prototype under which a bare expression is run: the name
    /// `__anon_fn` and no parameters.
    fn default() -> (prototype: Prototype)
        ensures
            prototype@ == (PrototypeView { name: anonymous_name(), args: Seq::empty() }),
    {
        let mut name: Vec<u8> = Vec::new();
        name.push(95);
        name.push(95);
        name.push(97);
        name.push(110);
        name.push(111);
        name.push(110);
        name.push(95);
        name.push(102);
        name.push(110);
        let args: Vec<Vec<u8>> = Vec::new();
        assert(name@ =~= anonymous_name());
        assert(names(args@) =~= Seq::<Seq<u8>>::empty());
        Prototype { name, args }
    }
}

/// One top-level statement: a definition, a declaration of an outside
/// function, or a bare expression.
#[derive(Debug, PartialEq, Eq)]
pub struct Function {
    pub prototype: Option<Prototype>,
    pub body: Option<Expr>,
}

/// A statement as a mathematical value.
pub ghost struct FunctionView {
    pub prototype: Option<PrototypeView>,
    pub body: Option<ExprView>,
}

impl PrototypeView {
    /// The name and the parameter names are words.
    pub open spec fn well_named(self) -> bool {
        is_word(self.name) && forall|i: int|
            0 <= i < self.args.len() ==> is_word(#[trigger] self.args[i])
    }
}

impl FunctionView {
    /// Every name in the statement is a word.
    pub open spec fn well_named(self) -> bool {
        &&& self.prototype matches Some(prototype) ==> prototype.well_named()
        &&& self.body matches Some(body) ==> body.well_named()
    }

    /// A prototype with a body.
    pub open spec fn is_definition(self) -> bool {
        self.prototype is Some && self.body is Some
    }

    /// A prototype without a body.
    pub open spec fn is_declaration(self) -> bool {
        self.prototype is Some && self.body is None
    }

    /// A body without a prototype.
    pub open spec fn is_expression(self) -> bool {
        self.prototype is None && self.body is Some
    }

    /// The statement has one of the three shapes that the grammar can
    /// produce: it is not without both prototype and body.
    pub open spec fn well_shaped(self) -> bool {
        self.prototype is Some || self.body is Some
    }
}

impl View for Function {
    type V = FunctionView;

    open spec fn view(&self) -> FunctionView {
        FunctionView {
            prototype: match self.prototype {
                Some(p) => Some(p@),
                None => None,
            },
            body: match self.body {
                Some(b) => Some(b@),
                None => None,
            },
        }
    }
}

/// A statement that is not empty has exactly one of the three shapes.
pub proof fn lemma_exactly_one_shape(f: FunctionView)
    requires
        f.well_shaped(),
    ensures
        f.is_definition() || f.is_declaration() || f.is_expression(),
        !(f.is_definition() && f.is_declaration()),
        !(f.is_definition() && f.is_expression()),
        !(f.is_declaration() && f.is_expression()),
{
}

} // verus!
