//! The compile pipeline's decisions: which registries a plan needs, what
//! a missing registry means under each unresolved-component policy, when
//! strict mode refuses to ship, and the summary of a check.

use vstd::prelude::*;
use crate::grow::{Plan, SpecLeaf, SpecPlan, UnresolvedMode};
use crate::hash::{fnv1a64, fnv_text};
use crate::registry::{spec_unresolved_count, unresolved_count};
use crate::syntax::Program;
use crate::text::{nat_text, text_eq, usize_text};
use vstd::utf8::encode_utf8;

verus! {

/// Whether some leaf or bridge of a plan queries `domain`.
pub open spec fn spec_queries_domain(p: SpecPlan, domain: Seq<char>) -> bool {
    (exists|i: int| 0 <= i < p.leaves.len() && #[trigger] p.leaves[i].domain == domain)
        || (exists|j: int| 0 <= j < p.bridges.len() && #[trigger] p.bridges[j].domain == domain)
}

/// Whether some leaf or bridge of the plan queries `domain`: a program
/// that never asks for a domain does not need its registry.
pub fn queries_domain(plan: &Plan, domain: &str) -> (r: bool)
    ensures
        r == spec_queries_domain(plan@, domain@),
{
    let mut i: usize = 0;
    while i < plan.leaves.len()
        invariant
            i <= plan.leaves@.len(),
            forall|k: int| 0 <= k < i ==> (#[trigger] plan@.leaves[k]).domain != domain@,
        decreases plan.leaves@.len() - i,
    {
        if text_eq(plan.leaves[i].domain.as_str(), domain) {
            assert(plan@.leaves[i as int].domain == domain@);
            return true;
        }
        i = i + 1;
    }
    let mut j: usize = 0;
    while j < plan.bridges.len()
        invariant
            j <= plan.bridges@.len(),
            forall|k: int| 0 <= k < plan@.leaves.len() ==> (#[trigger] plan@.leaves[k]).domain != domain@,
            forall|k: int| 0 <= k < j ==> (#[trigger] plan@.bridges[k]).domain != domain@,
        decreases plan.bridges@.len() - j,
    {
        if text_eq(plan.bridges[j].domain.as_str(), domain) {
            assert(plan@.bridges[j as int].domain == domain@);
            return true;
        }
        j = j + 1;
    }
    false
}

/// What to do when a registry cannot be loaded.
#[derive(Debug, Clone, Copy, PartialEq, Eq, Structural)]
pub enum RegistryMissing {
    /// Fail compilation: strict mode needs every registry the plan queries.
    Refuse,
    /// Record a warning; the registry's queries stay unresolved.
    Warn,
    /// Nothing to do: the plan does not query the registry's domain.
    Skip,
}

/// What a registry that cannot be loaded means, for a plan that does or
/// does not query its domain: strict mode refuses, other modes warn, and
/// a registry the plan never queries does not matter.
pub fn on_registry_missing(mode: UnresolvedMode, wanted: bool) -> (r: RegistryMissing)
    ensures
        r == (if !wanted {
            RegistryMissing::Skip
        } else if mode == UnresolvedMode::Strict {
            RegistryMissing::Refuse
        } else {
            RegistryMissing::Warn
        }),
{
    if !wanted {
        RegistryMissing::Skip
    } else {
        match mode {
            UnresolvedMode::Strict => RegistryMissing::Refuse,
            _ => RegistryMissing::Warn,
        }
    }
}

/// Skipping resolution is refused in strict mode, which cannot tell a
/// resolved plan from an unresolved one without it.
pub fn skip_resolution(mode: UnresolvedMode) -> (r: Result<(), String>)
    ensures
        r is Err <==> mode == UnresolvedMode::Strict,
        r matches Err(m) ==> m@ == "--unresolved strict requires registry resolution (drop --no-resolve)"@,
{
    match mode {
        UnresolvedMode::Strict => Err(String::from_str("--unresolved strict requires registry resolution (drop --no-resolve)")),
        _ => Ok(()),
    }
}

/// The message of strict mode's refusal of a plan that lacks `missing`
/// components.
pub open spec fn strict_refusal(missing: nat) -> Seq<char> {
    "strict mode: "@ + nat_text(missing)
        + " component(s) unresolved \u{2014} the swarm has not grown them yet (see warnings above)"@
}

/// After resolution, strict mode refuses a plan that still lacks
/// components; the other modes ship it.
pub fn resolution_gate(plan: &Plan) -> (r: Result<(), String>)
    requires
        plan.leaves@.len() + plan.bridges@.len() <= usize::MAX,
    ensures
        r is Err <==> plan@.unresolved_mode == UnresolvedMode::Strict && spec_unresolved_count(plan@) > 0,
        r matches Err(m) ==> m@ == strict_refusal(spec_unresolved_count(plan@)),
{
    let missing = unresolved_count(plan);
    match plan.unresolved_mode {
        UnresolvedMode::Strict => {
            if missing > 0 {
                let mut m = String::from_str("strict mode: ");
                let n = usize_text(missing);
                m.append(n.as_str());
                m.append(" component(s) unresolved \u{2014} the swarm has not grown them yet (see warnings above)");
                Err(m)
            } else {
                Ok(())
            }
        },
        _ => Ok(()),
    }
}

/// The greatest depth among the leaves (zero for none).
pub open spec fn max_depth(ls: Seq<SpecLeaf>) -> nat
    decreases ls.len(),
{
    if ls.len() == 0 {
        0
    } else {
        let d = max_depth(ls.drop_last());
        if ls.last().depth > d {
            ls.last().depth
        } else {
            d
        }
    }
}

/// The reported depth is the deepest leaf's: no leaf is deeper, some
/// leaf is that deep, and it is zero with no leaves.
pub proof fn lemma_max_depth_is_deepest(ls: Seq<SpecLeaf>)
    ensures
        forall|k: int| 0 <= k < ls.len() ==> (#[trigger] ls[k]).depth <= max_depth(ls),
        ls.len() > 0 ==> exists|k: int| 0 <= k < ls.len() && (#[trigger] ls[k]).depth == max_depth(ls),
        ls.len() == 0 ==> max_depth(ls) == 0,
    decreases ls.len(),
{
    if ls.len() > 0 {
        let p = ls.drop_last();
        lemma_max_depth_is_deepest(p);
        assert forall|k: int| 0 <= k < ls.len() implies (#[trigger] ls[k]).depth <= max_depth(ls) by {
            if k < p.len() {
                assert(p[k] == ls[k]);
            }
        }
        if ls.last().depth > max_depth(p) || p.len() == 0 {
            assert(ls[ls.len() - 1].depth == max_depth(ls));
        } else {
            let k = choose|k: int| 0 <= k < p.len() && (#[trigger] p[k]).depth == max_depth(p);
            assert(ls[k] == p[k]);
        }
    }
}

/// The summary line of a successful check.
pub open spec fn check_text(cells: nat, p: SpecPlan, source: Seq<char>) -> Seq<char> {
    "ok: "@ + nat_text(cells) + " cell(s), grown "@ + p.grown_from + " -> "@ + nat_text(p.leaves.len())
        + " leaves, "@ + nat_text(p.bridges.len()) + " bridges, max depth "@ + nat_text(max_depth(p.leaves))
        + ", program "@ + fnv_text(encode_utf8(source))
}

/// The summary of checking `source`, which parsed to `program` and grew
/// into `plan`: counts, the deepest leaf and the program hash.
pub fn check_summary(program: &Program, plan: &Plan, source: &str) -> (r: String)
    ensures
        r@ == check_text(program.cells@.len() as nat, plan@, source@),
{
    let ghost ls = plan@.leaves;
    let mut deepest: usize = 0;
    let mut i: usize = 0;
    while i < plan.leaves.len()
        invariant
            i <= plan.leaves@.len(),
            ls == plan@.leaves,
            deepest == max_depth(ls.take(i as int)),
        decreases plan.leaves@.len() - i,
    {
        assert(ls.take(i + 1).drop_last() == ls.take(i as int));
        if plan.leaves[i].depth > deepest {
            deepest = plan.leaves[i].depth;
        }
        i = i + 1;
    }
    assert(ls.take(ls.len() as int) == ls);
    let mut s = String::from_str("ok: ");
    let c = usize_text(program.cells.len());
    s.append(c.as_str());
    s.append(" cell(s), grown ");
    s.append(plan.grown_from.as_str());
    s.append(" -> ");
    let nl = usize_text(plan.leaves.len());
    s.append(nl.as_str());
    s.append(" leaves, ");
    let nb = usize_text(plan.bridges.len());
    s.append(nb.as_str());
    s.append(" bridges, max depth ");
    let d = usize_text(deepest);
    s.append(d.as_str());
    s.append(", program ");
    let h = fnv1a64(source.as_bytes());
    s.append(h.as_str());
    s
}

} // verus!
