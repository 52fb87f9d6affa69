//! The grower: expands a program's `grow` statements into a plan.
//!
//! Each cell instance owns a rectangular region of the unit square. A
//! `split` divides the region into equal slices along the current axis
//! (horizontal at even depths, vertical at odd ones), recursing into the
//! children; a `base` claims the region as a leaf carrying its query.
//! Bridges couple consecutive siblings.
//!
//! A region is recorded exactly, as the path of slices that leads to it
//! from the unit square: the `i`-th of `k` equal slices at each depth.

use vstd::prelude::*;
use crate::syntax::{
    Action, Call, CellDef, Cmp, Expr, Guard, Program, Query, SpecAction, SpecCall, SpecCellDef,
    SpecExpr, SpecGuard, SpecQuery, calls_view, cells_view, exprs_view, rules_view, strings_view,
};
use crate::registry::{
    Resolved, SpecResolved, RegistrySnapshot, SpecSnapshot, ResolutionReport, opt_resolved_view,
};
use crate::text::{cat, i64_text, int_text, nat_text, usize_text};
pub use crate::hash::fnv1a64;
use crate::hash::fnv_text;
use vstd::utf8::encode_utf8;

verus! {

/// The deepest a cell instance may sit.
pub const MAX_DEPTH: usize = 32;

/// The most leaves a plan may have.
pub const MAX_LEAVES: usize = 4096;

/// The component domain the compiler resolves today.
pub const DOMAIN_CRYSTAL: &'static str = "crystal";

/// The domain of Kannaka Memory (HRM) components.
pub const DOMAIN_MEMORY: &'static str = "memory";

/// Version of the plan schema: queries are typed and bridges carry a
/// full query.
pub const PLAN_SCHEMA_VERSION: &'static str = "2";

/// The version of this compiler, recorded in every plan.
pub const COMPILER_VERSION: &'static str = "0.9.0";

/// The one coupling type the `bridge` keyword produces.
pub const COUPLING_RESONANCE_BRIDGE: &'static str = "resonance_bridge";

/// How a plan treats unresolved components.
#[derive(Debug, Clone, Copy, PartialEq, Eq, Structural)]
pub enum UnresolvedMode {
    /// Compilation fails when a required component cannot be resolved.
    Strict,
    /// The plan carries placeholders that must not execute until resolved.
    Stub,
    /// Backends may approximate unresolved components (proxy pulses).
    Speculative,
}

/// The `index`-th of `count` equal slices of a region.
#[derive(Debug, Clone, Copy, PartialEq, Eq, Structural)]
pub struct Slice {
    pub index: usize,
    pub count: usize,
}

/// Why growth failed.
#[derive(Debug)]
pub enum GrowError {
    UnknownCell(String),
    Arity { cell: String, expected: usize, got: usize },
    NoRule { cell: String, args: Vec<i64> },
    DivZero(String),
    Runaway,
}

/// The view of a `GrowError`.
pub enum SpecGrowError {
    UnknownCell(Seq<char>),
    Arity { cell: Seq<char>, expected: nat, got: nat },
    NoRule { cell: Seq<char>, args: Seq<i64> },
    DivZero(Seq<char>),
    Runaway,
}

impl View for GrowError {
    type V = SpecGrowError;

    open spec fn view(&self) -> SpecGrowError {
        match self {
            GrowError::UnknownCell(s) => SpecGrowError::UnknownCell(s@),
            GrowError::Arity { cell, expected, got } => SpecGrowError::Arity {
                cell: cell@,
                expected: *expected as nat,
                got: *got as nat,
            },
            GrowError::NoRule { cell, args } => SpecGrowError::NoRule { cell: cell@, args: args@ },
            GrowError::DivZero(s) => SpecGrowError::DivZero(s@),
            GrowError::Runaway => SpecGrowError::Runaway,
        }
    }
}

/// Why growth stopped: an error of the program, or an intermediate value
/// of an expression outside `i64`.
pub enum Halt {
    Error(SpecGrowError),
    Overflow,
}

/// The values of a parameter list as a list literal: `[a, b, ...]`.
pub open spec fn list_text(vs: Seq<i64>) -> Seq<char>
    decreases vs.len(),
{
    "["@ + list_items(vs) + "]"@
}

/// The values separated by `, `.
pub open spec fn list_items(vs: Seq<i64>) -> Seq<char>
    decreases vs.len(),
{
    if vs.len() == 0 {
        seq![]
    } else if vs.len() == 1 {
        int_text(vs[0] as int)
    } else {
        list_items(vs.drop_last()) + ", "@ + int_text(vs.last() as int)
    }
}

/// The message of a growth error.
pub open spec fn grow_error_text(e: SpecGrowError) -> Seq<char> {
    match e {
        SpecGrowError::UnknownCell(c) => "unknown cell: "@ + c,
        SpecGrowError::Arity { cell, expected, got } => "cell "@ + cell + " expects "@ + nat_text(expected)
            + " arg(s), got "@ + nat_text(got),
        SpecGrowError::NoRule { cell, args } => "no rule matched "@ + cell + "("@ + list_text(args) + ")"@,
        SpecGrowError::DivZero(c) => "division by zero in cell "@ + c,
        SpecGrowError::Runaway => "growth exceeded limits (max depth 32, max leaves 4096) \u{2014} missing base case?"@,
    }
}

impl GrowError {
    /// The message of the error (`grow_error_text`).
    pub fn to_string(&self) -> (r: String)
        ensures
            r@ == grow_error_text(self@),
    {
        match self {
            GrowError::UnknownCell(c) => cat("unknown cell: ", c.as_str()),
            GrowError::Arity { cell, expected, got } => {
                let mut s = String::from_str("cell ");
                s.append(cell.as_str());
                s.append(" expects ");
                let e = usize_text(*expected);
                s.append(e.as_str());
                s.append(" arg(s), got ");
                let g = usize_text(*got);
                s.append(g.as_str());
                s
            },
            GrowError::NoRule { cell, args } => {
                let mut s = String::from_str("no rule matched ");
                s.append(cell.as_str());
                s.append("(");
                s.append("[");
                let mut i: usize = 0;
                let ghost head = s@;
                while i < args.len()
                    invariant
                        i <= args@.len(),
                        s@ == head + list_items(args@.take(i as int)),
                    decreases args@.len() - i,
                {
                    let ghost pre = args@.take(i as int);
                    assert(args@.take(i + 1).drop_last() == pre);
                    if i > 0 {
                        s.append(", ");
                    }
                    let t = i64_text(args[i]);
                    s.append(t.as_str());
                    proof {
                        if i == 0 {
                            assert(args@.take(1) == seq![args@[0]]);
                        }
                    }
                    i = i + 1;
                }
                assert(args@.take(args@.len() as int) == args@);
                s.append("]");
                s.append(")");
                s
            },
            GrowError::DivZero(c) => cat("division by zero in cell ", c.as_str()),
            GrowError::Runaway => String::from_str("growth exceeded limits (max depth 32, max leaves 4096) \u{2014} missing base case?"),
        }
    }
}

/// A leaf: a region claimed by a `base` case.
#[derive(Debug)]
pub struct Leaf {
    pub cell: String,
    pub domain: String,
    /// The slices that lead from the unit square to this leaf's region.
    pub slices: Vec<Slice>,
    pub depth: usize,
    pub query: Query,
    /// Filled by the resolver; `None` = no match.
    pub resolved: Option<Resolved>,
}

/// The view of a `Leaf`.
pub struct SpecLeaf {
    pub cell: Seq<char>,
    pub domain: Seq<char>,
    pub slices: Seq<Slice>,
    pub depth: nat,
    pub query: SpecQuery,
    pub resolved: Option<SpecResolved>,
}

impl View for Leaf {
    type V = SpecLeaf;

    open spec fn view(&self) -> SpecLeaf {
        SpecLeaf {
            cell: self.cell@,
            domain: self.domain@,
            slices: self.slices@,
            depth: self.depth as nat,
            query: self.query@,
            resolved: opt_resolved_view(self.resolved),
        }
    }
}

/// A typed coupling between two consecutive sibling regions: slices
/// `pair` and `pair + 1` of the `siblings` slices of the region at
/// `parent`.
#[derive(Debug)]
pub struct Bridge {
    pub domain: String,
    pub coupling_type: &'static str,
    pub parent: Vec<Slice>,
    pub pair: usize,
    pub siblings: usize,
    pub depth: usize,
    pub query: Query,
    pub resolved: Option<Resolved>,
}

/// The view of a `Bridge`.
pub struct SpecBridge {
    pub domain: Seq<char>,
    pub coupling_type: Seq<char>,
    pub parent: Seq<Slice>,
    pub pair: nat,
    pub siblings: nat,
    pub depth: nat,
    pub query: SpecQuery,
    pub resolved: Option<SpecResolved>,
}

impl View for Bridge {
    type V = SpecBridge;

    open spec fn view(&self) -> SpecBridge {
        SpecBridge {
            domain: self.domain@,
            coupling_type: self.coupling_type@,
            parent: self.parent@,
            pair: self.pair as nat,
            siblings: self.siblings as nat,
            depth: self.depth as nat,
            query: self.query@,
            resolved: opt_resolved_view(self.resolved),
        }
    }
}

/// The Abstract Holographic Plan: versioned, hashed, and honest about
/// what resolved and what did not.
#[derive(Debug)]
pub struct Plan {
    pub schema_version: &'static str,
    pub compiler_version: &'static str,
    /// Hash of the source program; filled by `seal`.
    pub program_hash: String,
    /// Hash of this plan's content; filled by `seal`.
    pub plan_hash: String,
    pub unresolved_mode: UnresolvedMode,
    pub grown_from: String,
    pub leaves: Vec<Leaf>,
    pub bridges: Vec<Bridge>,
    /// Which registries resolution consulted.
    pub registry_snapshots: Vec<RegistrySnapshot>,
    pub resolution_report: Option<ResolutionReport>,
    pub warnings: Vec<String>,
}

/// The view of a `Plan`.
pub struct SpecPlan {
    pub schema_version: Seq<char>,
    pub compiler_version: Seq<char>,
    pub program_hash: Seq<char>,
    pub plan_hash: Seq<char>,
    pub unresolved_mode: UnresolvedMode,
    pub grown_from: Seq<char>,
    pub leaves: Seq<SpecLeaf>,
    pub bridges: Seq<SpecBridge>,
    pub registry_snapshots: Seq<SpecSnapshot>,
    pub resolution_report: Option<ResolutionReport>,
    pub warnings: Seq<Seq<char>>,
}

/// The views of a sequence of leaves.
pub open spec fn leaves_view(v: Seq<Leaf>) -> Seq<SpecLeaf> {
    v.map_values(|l: Leaf| l@)
}

/// The views of a sequence of bridges.
pub open spec fn bridges_view(v: Seq<Bridge>) -> Seq<SpecBridge> {
    v.map_values(|b: Bridge| b@)
}

/// The views of a sequence of snapshots.
pub open spec fn snapshots_view(v: Seq<RegistrySnapshot>) -> Seq<SpecSnapshot> {
    v.map_values(|s: RegistrySnapshot| s@)
}

impl View for Plan {
    type V = SpecPlan;

    open spec fn view(&self) -> SpecPlan {
        SpecPlan {
            schema_version: self.schema_version@,
            compiler_version: self.compiler_version@,
            program_hash: self.program_hash@,
            plan_hash: self.plan_hash@,
            unresolved_mode: self.unresolved_mode,
            grown_from: self.grown_from@,
            leaves: leaves_view(self.leaves@),
            bridges: bridges_view(self.bridges@),
            registry_snapshots: snapshots_view(self.registry_snapshots@),
            resolution_report: self.resolution_report,
            warnings: strings_view(self.warnings@),
        }
    }
}

/// A parameter environment: bindings in order; a later binding of a name
/// shadows an earlier one.
pub type Env = Seq<(Seq<char>, i64)>;

/// The value bound to `name` (its last binding).
pub open spec fn lookup(env: Env, name: Seq<char>) -> Option<i64>
    decreases env.len(),
{
    if env.len() == 0 {
        None
    } else if env.last().0 == name {
        Some(env.last().1)
    } else {
        lookup(env.drop_last(), name)
    }
}

/// Applies a checked arithmetic result: `None` means the value left `i64`.
pub open spec fn checked(v: Option<i64>) -> Result<i64, Halt> {
    match v {
        Some(x) => Ok(x),
        None => Err(Halt::Overflow),
    }
}

/// The value of an expression in `env`, inside cell `cell`: left operand
/// first, except that a division evaluates its divisor first and fails on
/// zero; division truncates toward zero.
pub open spec fn value_of(e: SpecExpr, env: Env, cell: Seq<char>) -> Result<i64, Halt>
    decreases e,
{
    match e {
        SpecExpr::Int(v) => Ok(v),
        SpecExpr::Param(name) => match lookup(env, name) {
            Some(v) => Ok(v),
            None => Err(Halt::Error(SpecGrowError::UnknownCell(cell + ": unbound parameter "@ + name))),
        },
        SpecExpr::Add(a, b) => match value_of(*a, env, cell) {
            Ok(x) => match value_of(*b, env, cell) {
                Ok(y) => checked(x.checked_add(y)),
                Err(h) => Err(h),
            },
            Err(h) => Err(h),
        },
        SpecExpr::Sub(a, b) => match value_of(*a, env, cell) {
            Ok(x) => match value_of(*b, env, cell) {
                Ok(y) => checked(x.checked_sub(y)),
                Err(h) => Err(h),
            },
            Err(h) => Err(h),
        },
        SpecExpr::Mul(a, b) => match value_of(*a, env, cell) {
            Ok(x) => match value_of(*b, env, cell) {
                Ok(y) => checked(x.checked_mul(y)),
                Err(h) => Err(h),
            },
            Err(h) => Err(h),
        },
        SpecExpr::Div(a, b) => match value_of(*b, env, cell) {
            Ok(d) => if d == 0 {
                Err(Halt::Error(SpecGrowError::DivZero(cell)))
            } else {
                match value_of(*a, env, cell) {
                    Ok(x) => checked(x.checked_div(d)),
                    Err(h) => Err(h),
                }
            },
            Err(h) => Err(h),
        },
    }
}

/// Whether a comparison holds.
pub open spec fn compares(a: i64, op: Cmp, b: i64) -> bool {
    match op {
        Cmp::Lt => a < b,
        Cmp::Le => a <= b,
        Cmp::Gt => a > b,
        Cmp::Ge => a >= b,
        Cmp::Eq => a == b,
        Cmp::Ne => a != b,
    }
}

/// Whether a guard holds in `env` (left side evaluated first).
pub open spec fn guard_value(g: SpecGuard, env: Env, cell: Seq<char>) -> Result<bool, Halt> {
    match g {
        SpecGuard::Always => Ok(true),
        SpecGuard::Compare(a, op, b) => match value_of(a, env, cell) {
            Ok(x) => match value_of(b, env, cell) {
                Ok(y) => Ok(compares(x, op, y)),
                Err(h) => Err(h),
            },
            Err(h) => Err(h),
        },
    }
}

/// Guards follow integer comparison: `always` holds; a comparison
/// evaluates its left side, then its right side, passes on the first
/// failure, and otherwise holds exactly when the integers compare so.
pub proof fn lemma_guard_semantics(g: SpecGuard, env: Env, cell: Seq<char>)
    ensures
        g is Always ==> guard_value(g, env, cell) == Ok::<bool, Halt>(true),
        g matches SpecGuard::Compare(a, op, b) ==> guard_value(g, env, cell) == match value_of(a, env, cell) {
            Err(h) => Err(h),
            Ok(x) => match value_of(b, env, cell) {
                Err(h) => Err(h),
                Ok(y) => Ok(compares(x, op, y)),
            },
        },
{
}

/// A comparison guard whose sides evaluate to `x` and `y` holds exactly
/// when the integers are so related: `<` strictly less, `<=` less or
/// equal, `>` strictly greater, `>=` greater or equal, `==` equal, `!=`
/// different.
pub proof fn lemma_comparisons_are_integer_relations(a: SpecExpr, op: Cmp, b: SpecExpr, env: Env, cell: Seq<char>, x: i64, y: i64)
    requires
        value_of(a, env, cell) == Ok::<i64, Halt>(x),
        value_of(b, env, cell) == Ok::<i64, Halt>(y),
    ensures
        op == Cmp::Lt ==> guard_value(SpecGuard::Compare(a, op, b), env, cell) == Ok::<bool, Halt>(x < y),
        op == Cmp::Le ==> guard_value(SpecGuard::Compare(a, op, b), env, cell) == Ok::<bool, Halt>(x <= y),
        op == Cmp::Gt ==> guard_value(SpecGuard::Compare(a, op, b), env, cell) == Ok::<bool, Halt>(x > y),
        op == Cmp::Ge ==> guard_value(SpecGuard::Compare(a, op, b), env, cell) == Ok::<bool, Halt>(x >= y),
        op == Cmp::Eq ==> guard_value(SpecGuard::Compare(a, op, b), env, cell) == Ok::<bool, Halt>(x == y),
        op == Cmp::Ne ==> guard_value(SpecGuard::Compare(a, op, b), env, cell) == Ok::<bool, Halt>(x != y),
        guard_value(SpecGuard::Compare(a, op, b), env, cell) == Ok::<bool, Halt>(true)
            ==> (op == Cmp::Lt ==> x < y) && (op == Cmp::Gt ==> x > y) && (op == Cmp::Ne ==> x != y),
{
}

/// The cell named `name` (the last definition of it).
pub open spec fn find_cell(cells: Seq<SpecCellDef>, name: Seq<char>) -> Option<SpecCellDef>
    decreases cells.len(),
{
    if cells.len() == 0 {
        None
    } else if cells.last().name == name {
        Some(cells.last())
    } else {
        find_cell(cells.drop_last(), name)
    }
}

/// The environment of a cell instance: its parameters from the `k`-th on
/// bound, in order, to the values of the arguments in the caller's
/// environment `outer`, after the bindings `acc`.
pub open spec fn bind(
    params: Seq<Seq<char>>,
    args: Seq<SpecExpr>,
    outer: Env,
    cell: Seq<char>,
    k: int,
    acc: Env,
) -> Result<Env, Halt>
    decreases params.len() - k,
{
    if k < 0 || k >= params.len() || k >= args.len() {
        Ok(acc)
    } else {
        match value_of(args[k], outer, cell) {
            Ok(v) => bind(params, args, outer, cell, k + 1, acc.push((params[k], v))),
            Err(h) => Err(h),
        }
    }
}

/// The first rule from the `k`-th on whose guard holds.
pub open spec fn first_rule(rules: Seq<crate::syntax::SpecRule>, env: Env, cell: Seq<char>, k: int) -> Result<Option<int>, Halt>
    decreases rules.len() - k,
{
    if k < 0 || k >= rules.len() {
        Ok(None)
    } else {
        match guard_value(rules[k].guard, env, cell) {
            Ok(true) => Ok(Some(k)),
            Ok(false) => first_rule(rules, env, cell, k + 1),
            Err(h) => Err(h),
        }
    }
}

/// The leaves and bridges grown so far.
pub struct Grown {
    pub leaves: Seq<SpecLeaf>,
    pub bridges: Seq<SpecBridge>,
}

/// The bridges coupling consecutive children of a split into `k` slices.
pub open spec fn bridges_for(q: SpecQuery, parent: Seq<Slice>, depth: nat, k: nat) -> Seq<SpecBridge> {
    let n: nat = if k >= 2 { (k - 1) as nat } else { 0 };
    Seq::new(n, |i: int| SpecBridge {
        domain: q.domain,
        coupling_type: COUPLING_RESONANCE_BRIDGE@,
        parent,
        pair: i as nat,
        siblings: k,
        depth,
        query: q,
        resolved: None,
    })
}

/// Grows one cell instance of `call` into the region at `slices` and
/// `depth`, the caller's parameters being `outer`: too deep is a runaway;
/// the cell must exist and take as many arguments as given; the first
/// rule whose guard holds fires, and a cell with no such rule is an
/// error; a `base` when `MAX_LEAVES` leaves are grown already is a
/// runaway.
pub open spec fn instantiate(
    cells: Seq<SpecCellDef>,
    call: SpecCall,
    outer: Env,
    slices: Seq<Slice>,
    depth: nat,
    st: Grown,
) -> Result<Grown, Halt>
    decreases MAX_DEPTH + 1 - depth, 1int, 0int,
{
    if depth > MAX_DEPTH {
        Err(Halt::Error(SpecGrowError::Runaway))
    } else {
        match find_cell(cells, call.cell) {
            None => Err(Halt::Error(SpecGrowError::UnknownCell(call.cell))),
            Some(def) => if def.params.len() != call.args.len() {
                Err(Halt::Error(SpecGrowError::Arity {
                    cell: def.name,
                    expected: def.params.len(),
                    got: call.args.len(),
                }))
            } else {
                match bind(def.params, call.args, outer, def.name, 0, seq![]) {
                    Err(h) => Err(h),
                    Ok(env) => match first_rule(def.rules, env, def.name, 0) {
                        Err(h) => Err(h),
                        Ok(None) => Err(Halt::Error(SpecGrowError::NoRule {
                            cell: def.name,
                            args: def.params.map_values(|p: Seq<char>| match lookup(env, p) {
                                Some(v) => v,
                                None => 0,
                            }),
                        })),
                        Ok(Some(k)) => match def.rules[k].action {
                            SpecAction::Base(q) => if st.leaves.len() >= MAX_LEAVES {
                                Err(Halt::Error(SpecGrowError::Runaway))
                            } else {
                                Ok(Grown {
                                    leaves: st.leaves.push(SpecLeaf {
                                        cell: def.name,
                                        domain: q.domain,
                                        slices,
                                        depth,
                                        query: q,
                                        resolved: None,
                                    }),
                                    bridges: st.bridges,
                                })
                            },
                            SpecAction::Split { children, bridge } => {
                                match grow_children(cells, children, env, slices, depth, st, 0) {
                                    Err(h) => Err(h),
                                    Ok(st2) => match bridge {
                                        Some(q) => Ok(Grown {
                                            leaves: st2.leaves,
                                            bridges: st2.bridges + bridges_for(q, slices, depth, children.len()),
                                        }),
                                        None => Ok(st2),
                                    },
                                }
                            },
                        },
                    },
                }
            },
        }
    }
}

/// Grows the children of a split from the `i`-th on, each into its own
/// slice of the region at `slices`, one level deeper.
pub open spec fn grow_children(
    cells: Seq<SpecCellDef>,
    children: Seq<SpecCall>,
    env: Env,
    slices: Seq<Slice>,
    depth: nat,
    st: Grown,
    i: int,
) -> Result<Grown, Halt>
    decreases MAX_DEPTH + 1 - depth, 0int, children.len() - i,
{
    if i < 0 || i >= children.len() {
        Ok(st)
    } else if depth > MAX_DEPTH {
        Err(Halt::Error(SpecGrowError::Runaway))
    } else {
        let sub = slices.push(Slice { index: i as usize, count: children.len() as usize });
        match instantiate(cells, children[i], env, sub, depth + 1, st) {
            Ok(st2) => grow_children(cells, children, env, slices, depth, st2, i + 1),
            Err(h) => Err(h),
        }
    }
}

/// Grows the `grow` statements from the `i`-th on, each from the whole
/// unit square at depth 0 with no parameters.
pub open spec fn grow_all(cells: Seq<SpecCellDef>, grows: Seq<SpecCall>, i: int, st: Grown) -> Result<Grown, Halt>
    decreases grows.len() - i,
{
    if i < 0 || i >= grows.len() {
        Ok(st)
    } else {
        match instantiate(cells, grows[i], seq![], seq![], 0, st) {
            Ok(st2) => grow_all(cells, grows, i + 1, st2),
            Err(h) => Err(h),
        }
    }
}

/// `names` joined with `, `.
pub open spec fn join_names(names: Seq<Seq<char>>) -> Seq<char>
    decreases names.len(),
{
    if names.len() == 0 {
        seq![]
    } else if names.len() == 1 {
        names[0]
    } else {
        join_names(names.drop_last()) + ", "@ + names.last()
    }
}

/// The plan a program grows: every `grow` statement's leaves and bridges
/// in growth order, speculative about unresolved components, with no
/// hashes, resolution or warnings yet.
pub open spec fn spec_grow(program: crate::syntax::SpecProgram) -> Result<SpecPlan, Halt> {
    match grow_all(program.cells, program.grows, 0, Grown { leaves: seq![], bridges: seq![] }) {
        Ok(st) => Ok(SpecPlan {
            schema_version: PLAN_SCHEMA_VERSION@,
            compiler_version: COMPILER_VERSION@,
            program_hash: seq![],
            plan_hash: seq![],
            unresolved_mode: UnresolvedMode::Speculative,
            grown_from: join_names(program.grows.map_values(|c: SpecCall| c.cell)),
            leaves: st.leaves,
            bridges: st.bridges,
            registry_snapshots: seq![],
            resolution_report: None,
            warnings: seq![],
        }),
        Err(h) => Err(h),
    }
}


/* ------------------------------ executable ------------------------------ */

/// Why growth stopped (executable form of `Halt`).
pub enum Stop {
    Error(GrowError),
    Overflow,
}

impl View for Stop {
    type V = Halt;

    open spec fn view(&self) -> Halt {
        match self {
            Stop::Error(e) => Halt::Error(e@),
            Stop::Overflow => Halt::Overflow,
        }
    }
}

/// The view of an evaluation result.
pub open spec fn value_view<T>(r: Result<T, Stop>) -> Result<T, Halt> {
    match r {
        Ok(v) => Ok(v),
        Err(s) => Err(s@),
    }
}

/// The view of a parameter environment.
pub open spec fn env_view(v: Seq<(String, i64)>) -> Env {
    v.map_values(|p: (String, i64)| (p.0@, p.1))
}

/// The leaves and bridges grown so far (executable).
pub struct GrowState {
    pub leaves: Vec<Leaf>,
    pub bridges: Vec<Bridge>,
}

impl View for GrowState {
    type V = Grown;

    open spec fn view(&self) -> Grown {
        Grown { leaves: leaves_view(self.leaves@), bridges: bridges_view(self.bridges@) }
    }
}

fn lookup_exec(env: &Vec<(String, i64)>, name: &str) -> (r: Option<i64>)
    ensures
        r == lookup(env_view(env@), name@),
{
    let ghost full = env_view(env@);
    let mut j = env.len();
    assert(full.take(j as int) == full);
    while j > 0
        invariant
            j <= env@.len(),
            full == env_view(env@),
            lookup(full, name@) == lookup(full.take(j as int), name@),
        decreases j,
    {
        assert(full.take(j as int).drop_last() == full.take(j - 1));
        if crate::text::text_eq(env[j - 1].0.as_str(), name) {
            return Some(env[j - 1].1);
        }
        j = j - 1;
    }
    None
}

fn eval(e: &Expr, env: &Vec<(String, i64)>, cell: &str) -> (r: Result<i64, Stop>)
    ensures
        value_view(r) == value_of(e@, env_view(env@), cell@),
    decreases e,
{
    match e {
        Expr::Int(v) => Ok(*v),
        Expr::Param(name) => match lookup_exec(env, name.as_str()) {
            Some(v) => Ok(v),
            None => {
                let mut m = String::from_str(cell);
                m.append(": unbound parameter ");
                m.append(name.as_str());
                Err(Stop::Error(GrowError::UnknownCell(m)))
            },
        },
        Expr::Add(a, b) => {
            let x = match eval(a, env, cell) {
                Ok(x) => x,
                Err(s) => return Err(s),
            };
            let y = match eval(b, env, cell) {
                Ok(y) => y,
                Err(s) => return Err(s),
            };
            match x.checked_add(y) {
                Some(z) => Ok(z),
                None => Err(Stop::Overflow),
            }
        },
        Expr::Sub(a, b) => {
            let x = match eval(a, env, cell) {
                Ok(x) => x,
                Err(s) => return Err(s),
            };
            let y = match eval(b, env, cell) {
                Ok(y) => y,
                Err(s) => return Err(s),
            };
            match x.checked_sub(y) {
                Some(z) => Ok(z),
                None => Err(Stop::Overflow),
            }
        },
        Expr::Mul(a, b) => {
            let x = match eval(a, env, cell) {
                Ok(x) => x,
                Err(s) => return Err(s),
            };
            let y = match eval(b, env, cell) {
                Ok(y) => y,
                Err(s) => return Err(s),
            };
            match x.checked_mul(y) {
                Some(z) => Ok(z),
                None => Err(Stop::Overflow),
            }
        },
        Expr::Div(a, b) => {
            let d = match eval(b, env, cell) {
                Ok(d) => d,
                Err(s) => return Err(s),
            };
            if d == 0 {
                return Err(Stop::Error(GrowError::DivZero(String::from_str(cell))));
            }
            let x = match eval(a, env, cell) {
                Ok(x) => x,
                Err(s) => return Err(s),
            };
            match x.checked_div(d) {
                Some(z) => Ok(z),
                None => Err(Stop::Overflow),
            }
        },
    }
}

fn guard_holds(g: &Guard, env: &Vec<(String, i64)>, cell: &str) -> (r: Result<bool, Stop>)
    ensures
        value_view(r) == guard_value(g@, env_view(env@), cell@),
{
    match g {
        Guard::Always => Ok(true),
        Guard::Compare(a, op, b) => {
            let x = match eval(a, env, cell) {
                Ok(x) => x,
                Err(s) => return Err(s),
            };
            let y = match eval(b, env, cell) {
                Ok(y) => y,
                Err(s) => return Err(s),
            };
            Ok(match op {
                Cmp::Lt => x < y,
                Cmp::Le => x <= y,
                Cmp::Gt => x > y,
                Cmp::Ge => x >= y,
                Cmp::Eq => x == y,
                Cmp::Ne => x != y,
            })
        },
    }
}

fn find_cell_exec(cells: &Vec<CellDef>, name: &str) -> (r: Option<usize>)
    ensures
        match find_cell(cells_view(cells@), name@) {
            Some(d) => r matches Some(i) && i < cells@.len() && cells@[i as int]@ == d,
            None => r is None,
        },
{
    let ghost full = cells_view(cells@);
    let mut j = cells.len();
    assert(full.take(j as int) == full);
    while j > 0
        invariant
            j <= cells@.len(),
            full == cells_view(cells@),
            find_cell(full, name@) == find_cell(full.take(j as int), name@),
        decreases j,
    {
        assert(full.take(j as int).drop_last() == full.take(j - 1));
        if crate::text::text_eq(cells[j - 1].name.as_str(), name) {
            return Some(j - 1);
        }
        j = j - 1;
    }
    None
}

fn copy_slices(v: &Vec<Slice>) -> (r: Vec<Slice>)
    ensures
        r@ == v@,
{
    let mut r: Vec<Slice> = Vec::new();
    let mut i: usize = 0;
    while i < v.len()
        invariant
            i <= v@.len(),
            r@ == v@.take(i as int),
        decreases v@.len() - i,
    {
        r.push(v[i]);
        assert(v@.take(i + 1) == v@.take(i as int).push(v@[i as int]));
        i = i + 1;
    }
    assert(v@.take(v@.len() as int) == v@);
    r
}

/// Whether a growth step did what `spec` says: reached the same state,
/// or stopped the same way.
pub open spec fn grew_as(r: Result<(), Stop>, st: Grown, spec: Result<Grown, Halt>) -> bool {
    match spec {
        Ok(g) => r is Ok && st == g,
        Err(h) => r matches Err(s) && s@ == h,
    }
}

fn bind_exec(def: &CellDef, call: &Call, outer: &Vec<(String, i64)>) -> (r: Result<Vec<(String, i64)>, Stop>)
    requires
        def.params@.len() == call.args@.len(),
    ensures
        match bind(strings_view(def.params@), exprs_view(call.args@), env_view(outer@), def.name@, 0, seq![]) {
            Ok(env) => r matches Ok(v) && env_view(v@) == env,
            Err(h) => r matches Err(s) && s@ == h,
        },
{
    let ghost pv = strings_view(def.params@);
    let ghost av = exprs_view(call.args@);
    let mut env: Vec<(String, i64)> = Vec::new();
    let mut k: usize = 0;
    assert(env_view(env@) =~= seq![]);
    while k < def.params.len()
        invariant
            k <= def.params@.len() == call.args@.len(),
            pv == strings_view(def.params@),
            av == exprs_view(call.args@),
            bind(pv, av, env_view(outer@), def.name@, 0, seq![])
                == bind(pv, av, env_view(outer@), def.name@, k as int, env_view(env@)),
        decreases def.params@.len() - k,
    {
        let v = match eval(&call.args[k], outer, def.name.as_str()) {
            Ok(v) => v,
            Err(s) => return Err(s),
        };
        let ghost before = env@;
        let name = def.params[k].clone();
        env.push((name, v));
        assert(env_view(env@) == env_view(before).push((pv[k as int], v)));
        k = k + 1;
    }
    Ok(env)
}

fn first_rule_exec(def: &CellDef, env: &Vec<(String, i64)>) -> (r: Result<Option<usize>, Stop>)
    ensures
        match first_rule(rules_view(def.rules@), env_view(env@), def.name@, 0) {
            Ok(Some(k)) => r matches Ok(Some(i)) && i == k && k < def.rules@.len(),
            Ok(None) => r matches Ok(None),
            Err(h) => r matches Err(s) && s@ == h,
        },
{
    let ghost rv = rules_view(def.rules@);
    let mut k: usize = 0;
    while k < def.rules.len()
        invariant
            k <= def.rules@.len(),
            rv == rules_view(def.rules@),
            first_rule(rv, env_view(env@), def.name@, 0) == first_rule(rv, env_view(env@), def.name@, k as int),
        decreases def.rules@.len() - k,
    {
        match guard_holds(&def.rules[k].guard, env, def.name.as_str()) {
            Ok(true) => return Ok(Some(k)),
            Ok(false) => {},
            Err(s) => return Err(s),
        }
        k = k + 1;
    }
    Ok(None)
}

fn no_rule_args(def: &CellDef, env: &Vec<(String, i64)>) -> (r: Vec<i64>)
    ensures
        r@ == strings_view(def.params@).map_values(|p: Seq<char>| match lookup(env_view(env@), p) {
            Some(v) => v,
            None => 0,
        }),
{
    let ghost want = strings_view(def.params@).map_values(|p: Seq<char>| match lookup(env_view(env@), p) {
        Some(v) => v,
        None => 0,
    });
    let mut args: Vec<i64> = Vec::new();
    let mut i: usize = 0;
    while i < def.params.len()
        invariant
            i <= def.params@.len(),
            want.len() == def.params@.len(),
            want == strings_view(def.params@).map_values(|p: Seq<char>| match lookup(env_view(env@), p) {
                Some(v) => v,
                None => 0,
            }),
            args@ == want.take(i as int),
        decreases def.params@.len() - i,
    {
        let v = match lookup_exec(env, def.params[i].as_str()) {
            Some(v) => v,
            None => 0,
        };
        args.push(v);
        assert(want.take(i + 1) == want.take(i as int).push(want[i as int]));
        i = i + 1;
    }
    assert(want.take(want.len() as int) == want);
    args
}

#[verifier::loop_isolation(false)]
fn instantiate_exec(
    cells: &Vec<CellDef>,
    call: &Call,
    outer: &Vec<(String, i64)>,
    slices: &Vec<Slice>,
    depth: usize,
    st: &mut GrowState,
) -> (r: Result<(), Stop>)
    requires
        depth <= MAX_DEPTH + 1,
    ensures
        grew_as(r, final(st)@, instantiate(cells_view(cells@), call@, env_view(outer@), slices@, depth as nat, old(st)@)),
    decreases MAX_DEPTH + 1 - depth,
{
    let ghost cv = cells_view(cells@);
    if depth > MAX_DEPTH {
        return Err(Stop::Error(GrowError::Runaway));
    }
    let ci = match find_cell_exec(cells, call.cell.as_str()) {
        Some(i) => i,
        None => return Err(Stop::Error(GrowError::UnknownCell(call.cell.clone()))),
    };
    let def = &cells[ci];
    if def.params.len() != call.args.len() {
        return Err(Stop::Error(GrowError::Arity {
            cell: def.name.clone(),
            expected: def.params.len(),
            got: call.args.len(),
        }));
    }
    let env = match bind_exec(def, call, outer) {
        Ok(e) => e,
        Err(s) => return Err(s),
    };
    let k = match first_rule_exec(def, &env) {
        Ok(Some(k)) => k,
        Ok(None) => {
            let args = no_rule_args(def, &env);
            return Err(Stop::Error(GrowError::NoRule { cell: def.name.clone(), args }));
        },
        Err(s) => return Err(s),
    };
    let ghost rules = rules_view(def.rules@);
    assert(rules[k as int] == def.rules@[k as int]@);
    match &def.rules[k].action {
        Action::Base(q) => {
            if st.leaves.len() >= MAX_LEAVES {
                return Err(Stop::Error(GrowError::Runaway));
            }
            let leaf = Leaf {
                cell: def.name.clone(),
                domain: q.domain.clone(),
                slices: copy_slices(slices),
                depth,
                query: q.duplicate(),
                resolved: None,
            };
            let ghost before = st@;
            let ghost lv = leaf@;
            st.leaves.push(leaf);
            assert(st@.leaves =~= before.leaves.push(lv));
            assert(st@ == Grown { leaves: before.leaves.push(lv), bridges: before.bridges });
            Ok(())
        },
        Action::Split { children, bridge } => {
            let ghost chv = calls_view(children@);
            let ghost envv = env_view(env@);
            let ghost st0 = st@;
            let n = children.len();
            let mut i: usize = 0;
            while i < n
                invariant
                    i <= n == children@.len(),
                    depth <= MAX_DEPTH,
                    chv == calls_view(children@),
                    cv == cells_view(cells@),
                    envv == env_view(env@),
                    grow_children(cv, chv, envv, slices@, depth as nat, st0, 0)
                        == grow_children(cv, chv, envv, slices@, depth as nat, st@, i as int),
                decreases n - i,
            {
                let mut sub = copy_slices(slices);
                sub.push(Slice { index: i, count: n });
                let ghost before = st@;
                match instantiate_exec(cells, &children[i], &env, &sub, depth + 1, st) {
                    Ok(()) => {},
                    Err(s) => {
                        assert(grow_children(cv, chv, envv, slices@, depth as nat, before, i as int) == Err::<Grown, Halt>(s@));
                        return Err(s);
                    },
                }
                i = i + 1;
            }
            match bridge {
                Some(q) => {
                    let ghost added = bridges_for(q@, slices@, depth as nat, n as nat);
                    let ghost b0 = bridges_view(st.bridges@);
                    let ghost l0 = st.leaves@;
                    let mut j: usize = 0;
                    let count = if n >= 2 { n - 1 } else { 0 };
                    while j < count
                        invariant
                            j <= count,
                            count == added.len(),
                            added == bridges_for(q@, slices@, depth as nat, n as nat),
                            bridges_view(st.bridges@) == b0 + added.take(j as int),
                            st.leaves@ == l0,
                        decreases count - j,
                    {
                        let b = Bridge {
                            domain: q.domain.clone(),
                            coupling_type: COUPLING_RESONANCE_BRIDGE,
                            parent: copy_slices(slices),
                            pair: j,
                            siblings: n,
                            depth,
                            query: q.duplicate(),
                            resolved: None,
                        };
                        let ghost before = st.bridges@;
                        let ghost bv = b@;
                        st.bridges.push(b);
                        assert(bridges_view(st.bridges@) == bridges_view(before).push(bv));
                        assert(bv == added[j as int]);
                        assert(added.take(j + 1) == added.take(j as int).push(added[j as int]));
                        j = j + 1;
                    }
                    assert(added.take(count as int) == added);
                    assert(st@ == Grown { leaves: leaves_view(l0), bridges: b0 + added });
                    Ok(())
                },
                None => Ok(()),
            }
        },
    }
}

fn join_exec(calls: &Vec<Call>) -> (r: String)
    ensures
        r@ == join_names(calls_view(calls@).map_values(|c: SpecCall| c.cell)),
{
    let ghost names = calls_view(calls@).map_values(|c: SpecCall| c.cell);
    let mut s = String::new();
    let mut i: usize = 0;
    while i < calls.len()
        invariant
            i <= calls@.len(),
            names.len() == calls@.len(),
            names == calls_view(calls@).map_values(|c: SpecCall| c.cell),
            s@ == join_names(names.take(i as int)),
        decreases calls@.len() - i,
    {
        assert(names.take(i + 1).drop_last() == names.take(i as int));
        if i > 0 {
            s.append(", ");
        }
        s.append(calls[i].cell.as_str());
        i = i + 1;
    }
    assert(names.take(names.len() as int) == names);
    s
}

/// The view of a growth result, with `None` for an overflow.
pub open spec fn grow_view(r: Option<Result<Plan, GrowError>>) -> Result<SpecPlan, Halt> {
    match r {
        Some(Ok(p)) => Ok(p@),
        Some(Err(e)) => Err(Halt::Error(e@)),
        None => Err(Halt::Overflow),
    }
}

/// Grows a program, reporting an expression whose value leaves `i64`
/// as `None`; otherwise exactly the plan or the error `spec_grow` gives.
pub fn grow_checked(program: &Program) -> (r: Option<Result<Plan, GrowError>>)
    ensures
        grow_view(r) == spec_grow(program@),
{
    let ghost cv = cells_view(program.cells@);
    let ghost gv = calls_view(program.grows@);
    let mut st = GrowState { leaves: Vec::new(), bridges: Vec::new() };
    assert(leaves_view(st.leaves@) =~= seq![]);
    assert(bridges_view(st.bridges@) =~= seq![]);
    let empty_env: Vec<(String, i64)> = Vec::new();
    let empty_slices: Vec<Slice> = Vec::new();
    assert(env_view(empty_env@) =~= seq![]);
    let mut i: usize = 0;
    while i < program.grows.len()
        invariant
            i <= program.grows@.len(),
            cv == cells_view(program.cells@),
            gv == calls_view(program.grows@),
            env_view(empty_env@) == Seq::<(Seq<char>, i64)>::empty(),
            empty_slices@ == Seq::<Slice>::empty(),
            grow_all(cv, gv, 0, Grown { leaves: seq![], bridges: seq![] }) == grow_all(cv, gv, i as int, st@),
        decreases program.grows@.len() - i,
    {
        let ghost before = st@;
        match instantiate_exec(&program.cells, &program.grows[i], &empty_env, &empty_slices, 0, &mut st) {
            Ok(()) => {},
            Err(Stop::Error(e)) => {
                assert(grow_all(cv, gv, i as int, before) == Err::<Grown, Halt>(Halt::Error(e@)));
                return Some(Err(e));
            },
            Err(Stop::Overflow) => {
                assert(grow_all(cv, gv, i as int, before) == Err::<Grown, Halt>(Halt::Overflow));
                return None;
            },
        }
        i = i + 1;
    }
    let grown_from = join_exec(&program.grows);
    let plan = Plan {
        schema_version: PLAN_SCHEMA_VERSION,
        compiler_version: COMPILER_VERSION,
        program_hash: String::new(),
        plan_hash: String::new(),
        unresolved_mode: UnresolvedMode::Speculative,
        grown_from,
        leaves: st.leaves,
        bridges: st.bridges,
        registry_snapshots: Vec::new(),
        resolution_report: None,
        warnings: Vec::new(),
    };
    assert(snapshots_view(plan.registry_snapshots@) =~= seq![]);
    assert(strings_view(plan.warnings@) =~= seq![]);
    Some(Ok(plan))
}

/// Whether growing `program` keeps every intermediate value of its
/// expressions inside `i64`.
pub open spec fn grows_in_range(program: crate::syntax::SpecProgram) -> bool {
    !(spec_grow(program) matches Err(Halt::Overflow))
}

/// The view of a growth result.
pub open spec fn plan_result_view(r: Result<Plan, GrowError>) -> Result<SpecPlan, Halt> {
    match r {
        Ok(p) => Ok(p@),
        Err(e) => Err(Halt::Error(e@)),
    }
}

/// Grows a program into a plan: exactly the plan or the error
/// `spec_grow` gives. Growth is bounded: more than `MAX_DEPTH` levels,
/// or more than `MAX_LEAVES` leaves, is `Runaway`.
pub fn grow(program: &Program) -> (r: Result<Plan, GrowError>)
    requires
        grows_in_range(program@),
    ensures
        plan_result_view(r) == spec_grow(program@),
{
    match grow_checked(program) {
        Some(r) => r,
        None => Err(GrowError::Runaway),
    }
}


impl Leaf {
    /// This leaf with its resolution replaced by `resolved`.
    pub fn with_resolved(&self, resolved: Option<Resolved>) -> (r: Leaf)
        ensures
            r@ == (SpecLeaf { resolved: opt_resolved_view(resolved), ..self@ }),
    {
        Leaf {
            cell: self.cell.clone(),
            domain: self.domain.clone(),
            slices: copy_slices(&self.slices),
            depth: self.depth,
            query: self.query.duplicate(),
            resolved,
        }
    }
}

impl Bridge {
    /// This bridge with its resolution replaced by `resolved`.
    pub fn with_resolved(&self, resolved: Option<Resolved>) -> (r: Bridge)
        ensures
            r@ == (SpecBridge { resolved: opt_resolved_view(resolved), ..self@ }),
    {
        Bridge {
            domain: self.domain.clone(),
            coupling_type: self.coupling_type,
            parent: copy_slices(&self.parent),
            pair: self.pair,
            siblings: self.siblings,
            depth: self.depth,
            query: self.query.duplicate(),
            resolved,
        }
    }
}

/// A plan with its program hash stamped for `source` and its plan hash
/// cleared: the state whose rendering the plan hash covers.
pub open spec fn stamped(plan: SpecPlan, source: Seq<char>) -> SpecPlan {
    SpecPlan { program_hash: fnv_text(encode_utf8(source)), plan_hash: seq![], ..plan }
}

impl Plan {
    /// Stamps the deterministic program and plan hashes. Call after
    /// resolution, before emission: the plan hash covers resolution
    /// results, so re-resolving against a changed registry yields a
    /// different plan hash for the same program hash.
    ///
    /// The program hash is the hash of the source's bytes; the plan hash
    /// is the hash of the bytes of `render` applied to the plan as
    /// stamped with the program hash and an empty plan hash (the
    /// command-line tool renders the plan as JSON).
    pub fn seal<F: Fn(&Plan) -> String>(&mut self, source: &str, render: F)
        requires
            forall|p: &Plan| call_requires(render, (p,)),
        ensures
            exists|mid: Plan, text: String|
                mid@ == stamped(old(self)@, source@)
                && call_ensures(render, (&mid,), text)
                && final(self)@ == (SpecPlan {
                    plan_hash: fnv_text(encode_utf8(text@)),
                    ..stamped(old(self)@, source@)
                }),
    {
        self.program_hash = fnv1a64(source.as_bytes());
        self.plan_hash = String::new();
        let ghost mid = *self;
        assert(mid@ == stamped(old(self)@, source@));
        let text = render(&*self);
        self.plan_hash = fnv1a64(text.as_str().as_bytes());
        assert(call_ensures(render, (&mid,), text));
    }
}

} // verus!
