//! The abstract syntax of KannakaHDL programs, and its mathematical view.
//!
//! Every executable node has a view of the same shape in which strings
//! are character sequences and vectors are sequences; the parser's
//! contract is stated over these views.

use vstd::prelude::*;
use crate::number::Decimal;

verus! {

/// A parse failure: the source line it was found on and a message.
#[derive(Debug, Clone)]
pub struct ParseError {
    pub line: usize,
    pub message: String,
}

/// The view of a `ParseError`.
pub struct SpecParseError {
    pub line: nat,
    pub message: Seq<char>,
}

impl View for ParseError {
    type V = SpecParseError;

    open spec fn view(&self) -> SpecParseError {
        SpecParseError { line: self.line as nat, message: self.message@ }
    }
}

impl ParseError {
    /// The text of the error: `line {line}: {message}`.
    pub open spec fn spec_text(self) -> Seq<char> {
        "line "@ + crate::text::nat_text(self.line as nat) + ": "@ + self.message@
    }

    /// The text of the error: `line {line}: {message}`.
    pub fn to_string(&self) -> (r: String)
        ensures
            r@ == self.spec_text(),
    {
        let mut s = String::from_str("line ");
        let n = crate::text::usize_text(self.line);
        s.append(n.as_str());
        s.append(": ");
        s.append(self.message.as_str());
        s
    }
}

/// An integer expression over cell parameters.
#[derive(Debug)]
pub enum Expr {
    Int(i64),
    Param(String),
    Add(Box<Expr>, Box<Expr>),
    Sub(Box<Expr>, Box<Expr>),
    Mul(Box<Expr>, Box<Expr>),
    Div(Box<Expr>, Box<Expr>),
}

/// The view of an `Expr`.
pub enum SpecExpr {
    Int(i64),
    Param(Seq<char>),
    Add(Box<SpecExpr>, Box<SpecExpr>),
    Sub(Box<SpecExpr>, Box<SpecExpr>),
    Mul(Box<SpecExpr>, Box<SpecExpr>),
    Div(Box<SpecExpr>, Box<SpecExpr>),
}

/// The view of an expression.
pub open spec fn expr_view(e: Expr) -> SpecExpr
    decreases e,
{
    match e {
        Expr::Int(v) => SpecExpr::Int(v),
        Expr::Param(n) => SpecExpr::Param(n@),
        Expr::Add(a, b) => SpecExpr::Add(Box::new(expr_view(*a)), Box::new(expr_view(*b))),
        Expr::Sub(a, b) => SpecExpr::Sub(Box::new(expr_view(*a)), Box::new(expr_view(*b))),
        Expr::Mul(a, b) => SpecExpr::Mul(Box::new(expr_view(*a)), Box::new(expr_view(*b))),
        Expr::Div(a, b) => SpecExpr::Div(Box::new(expr_view(*a)), Box::new(expr_view(*b))),
    }
}

impl View for Expr {
    type V = SpecExpr;

    open spec fn view(&self) -> SpecExpr {
        expr_view(*self)
    }
}

/// A comparison operator.
#[derive(Debug, Clone, Copy, PartialEq, Eq, Structural)]
pub enum Cmp {
    Lt,
    Le,
    Gt,
    Ge,
    Eq,
    Ne,
}

/// A rule's guard: `always`, or a comparison of two expressions.
#[derive(Debug)]
pub enum Guard {
    Always,
    Compare(Expr, Cmp, Expr),
}

/// The view of a `Guard`.
pub enum SpecGuard {
    Always,
    Compare(SpecExpr, Cmp, SpecExpr),
}

impl View for Guard {
    type V = SpecGuard;

    open spec fn view(&self) -> SpecGuard {
        match self {
            Guard::Always => SpecGuard::Always,
            Guard::Compare(a, c, b) => SpecGuard::Compare(a@, *c, b@),
        }
    }
}

/// The views of a sequence of expressions.
pub open spec fn exprs_view(v: Seq<Expr>) -> Seq<SpecExpr> {
    v.map_values(|e: Expr| e@)
}

/// An instantiation of a cell with argument expressions.
#[derive(Debug)]
pub struct Call {
    pub cell: String,
    pub args: Vec<Expr>,
}

/// The view of a `Call`.
pub struct SpecCall {
    pub cell: Seq<char>,
    pub args: Seq<SpecExpr>,
}

impl View for Call {
    type V = SpecCall;

    open spec fn view(&self) -> SpecCall {
        SpecCall { cell: self.cell@, args: exprs_view(self.args@) }
    }
}

/// The views of a sequence of calls.
pub open spec fn calls_view(v: Seq<Call>) -> Seq<SpecCall> {
    v.map_values(|c: Call| c@)
}

/// How a query picks among matching candidates.
#[derive(Debug, Clone, Copy, PartialEq, Eq, Structural)]
pub enum Strategy {
    /// Highest persistence (the historical behavior).
    Best,
    /// Highest noise tolerance.
    Robust,
    /// Each resolution claims a component no other `unique` query got.
    Unique,
    /// Round-robin across candidates, spreading resolutions out.
    Diverse,
}

/// The view of an optional string.
pub open spec fn opt_view(o: Option<String>) -> Option<Seq<char>> {
    match o {
        Some(s) => Some(s@),
        None => None,
    }
}

/// A typed component query: domain, optional component type, class,
/// floors and strategy. `base "Class"` defaults the domain to `crystal`.
#[derive(Debug, Clone)]
pub struct Query {
    pub domain: String,
    pub component_type: Option<String>,
    pub class: String,
    pub min_persistence: Decimal,
    pub min_noise_tolerance: Decimal,
    /// Evidence-ladder floor, 0 to 8; 0 is no floor.
    pub min_evidence: u8,
    /// A behavioral contract the component must hold a passed record of.
    pub capability: Option<String>,
    pub material: Option<String>,
    pub strategy: Strategy,
}

/// The view of a `Query`.
pub struct SpecQuery {
    pub domain: Seq<char>,
    pub component_type: Option<Seq<char>>,
    pub class: Seq<char>,
    pub min_persistence: Decimal,
    pub min_noise_tolerance: Decimal,
    pub min_evidence: u8,
    pub capability: Option<Seq<char>>,
    pub material: Option<Seq<char>>,
    pub strategy: Strategy,
}

impl View for Query {
    type V = SpecQuery;

    open spec fn view(&self) -> SpecQuery {
        SpecQuery {
            domain: self.domain@,
            component_type: opt_view(self.component_type),
            class: self.class@,
            min_persistence: self.min_persistence,
            min_noise_tolerance: self.min_noise_tolerance,
            min_evidence: self.min_evidence,
            capability: opt_view(self.capability),
            material: opt_view(self.material),
            strategy: self.strategy,
        }
    }
}

/// A copy of an optional string, with the same view.
pub fn copy_opt(o: &Option<String>) -> (r: Option<String>)
    ensures
        opt_view(r) == opt_view(*o),
{
    match o {
        Some(s) => Some(s.clone()),
        None => None,
    }
}

impl Query {
    /// A copy with the same view.
    pub fn duplicate(&self) -> (r: Query)
        ensures
            r@ == self@,
    {
        Query {
            domain: self.domain.clone(),
            component_type: copy_opt(&self.component_type),
            class: self.class.clone(),
            min_persistence: self.min_persistence,
            min_noise_tolerance: self.min_noise_tolerance,
            min_evidence: self.min_evidence,
            capability: copy_opt(&self.capability),
            material: copy_opt(&self.material),
            strategy: self.strategy,
        }
    }
}

/// The view of an optional query.
pub open spec fn opt_query_view(o: Option<Query>) -> Option<SpecQuery> {
    match o {
        Some(q) => Some(q@),
        None => None,
    }
}

/// What a rule does when its guard holds.
#[derive(Debug)]
pub enum Action {
    /// Divide the region among the children; `bridge` couples
    /// consecutive siblings.
    Split { children: Vec<Call>, bridge: Option<Query> },
    /// Claim the region as a leaf carrying the query.
    Base(Query),
}

/// The view of an `Action`.
pub enum SpecAction {
    Split { children: Seq<SpecCall>, bridge: Option<SpecQuery> },
    Base(SpecQuery),
}

impl View for Action {
    type V = SpecAction;

    open spec fn view(&self) -> SpecAction {
        match self {
            Action::Split { children, bridge } => SpecAction::Split {
                children: calls_view(children@),
                bridge: opt_query_view(*bridge),
            },
            Action::Base(q) => SpecAction::Base(q@),
        }
    }
}

/// `when guard => action`, with the line it starts on.
#[derive(Debug)]
pub struct Rule {
    pub guard: Guard,
    pub action: Action,
    pub line: usize,
}

/// The view of a `Rule`.
pub struct SpecRule {
    pub guard: SpecGuard,
    pub action: SpecAction,
    pub line: nat,
}

impl View for Rule {
    type V = SpecRule;

    open spec fn view(&self) -> SpecRule {
        SpecRule { guard: self.guard@, action: self.action@, line: self.line as nat }
    }
}

/// A parameterized cell with its ordered rules.
#[derive(Debug)]
pub struct CellDef {
    pub name: String,
    pub params: Vec<String>,
    pub rules: Vec<Rule>,
}

/// The views of a sequence of strings.
pub open spec fn strings_view(v: Seq<String>) -> Seq<Seq<char>> {
    v.map_values(|s: String| s@)
}

/// The views of a sequence of rules.
pub open spec fn rules_view(v: Seq<Rule>) -> Seq<SpecRule> {
    v.map_values(|r: Rule| r@)
}

/// The view of a `CellDef`.
pub struct SpecCellDef {
    pub name: Seq<char>,
    pub params: Seq<Seq<char>>,
    pub rules: Seq<SpecRule>,
}

impl View for CellDef {
    type V = SpecCellDef;

    open spec fn view(&self) -> SpecCellDef {
        SpecCellDef {
            name: self.name@,
            params: strings_view(self.params@),
            rules: rules_view(self.rules@),
        }
    }
}

/// A declared evidence requirement: `expect <metric> <cmp> <number>`.
#[derive(Debug, Clone)]
pub struct Expect {
    pub metric: String,
    pub cmp: Cmp,
    pub value: Decimal,
    pub line: usize,
}

/// `u` as a natural number.
pub open spec fn nat_of(u: usize) -> nat {
    u as nat
}

/// `u` as an integer.
pub open spec fn int_of(u: usize) -> int {
    u as int
}

/// The view of an `Expect`.
pub struct SpecExpect {
    pub metric: Seq<char>,
    pub cmp: Cmp,
    pub value: Decimal,
    pub line: nat,
}

impl View for Expect {
    type V = SpecExpect;

    open spec fn view(&self) -> SpecExpect {
        SpecExpect { metric: self.metric@, cmp: self.cmp, value: self.value, line: nat_of(self.line) }
    }
}

/// A whole program: cell definitions, grow statements, expectations.
#[derive(Debug)]
pub struct Program {
    pub cells: Vec<CellDef>,
    pub grows: Vec<Call>,
    pub expects: Vec<Expect>,
}

/// The view of a `Program`.
pub struct SpecProgram {
    pub cells: Seq<SpecCellDef>,
    pub grows: Seq<SpecCall>,
    pub expects: Seq<SpecExpect>,
}

/// The views of a sequence of cell definitions.
pub open spec fn cells_view(v: Seq<CellDef>) -> Seq<SpecCellDef> {
    v.map_values(|c: CellDef| c@)
}

/// The views of a sequence of expectations.
pub open spec fn expects_view(v: Seq<Expect>) -> Seq<SpecExpect> {
    v.map_values(|e: Expect| e@)
}

impl View for Program {
    type V = SpecProgram;

    open spec fn view(&self) -> SpecProgram {
        SpecProgram {
            cells: cells_view(self.cells@),
            grows: calls_view(self.grows@),
            expects: expects_view(self.expects@),
        }
    }
}

} // verus!
