//! Emitters: how a grown, resolved plan leaves the compiler.
//!
//! - the crystal program, a kannaka-crystal `.crystal` text that
//!   approximates the architecture with placed pulses;
//! - the growth visualization, a standalone HTML page that embeds the
//!   plan's JSON.
//!
//! Every emitter declares its lowering model, so a consumer can tell a
//! faithful serialization from an approximation. The pulse geometry of
//! the crystal program (centres, radii and amplitudes, rendered from the
//! regions' coordinates) is rendered by the caller and handed in as text.

use vstd::prelude::*;
use crate::grow::{Bridge, Leaf, Plan, SpecBridge, SpecLeaf, SpecPlan, UnresolvedMode};
use crate::text::{chars_of, nat_text, push_char, text_eq, usize_text};
use vstd::utf8::encode_utf8;

verus! {

/// Lowering model of the JSON emitter.
pub const LOWERING_JSON: &'static str = "plan-json-v1";

/// Lowering model of the crystal emitter.
pub const LOWERING_CRYSTAL: &'static str = "crystal-pulse-placement-v1";

/// Lowering model of the HTML emitter.
pub const LOWERING_HTML: &'static str = "html-growth-viz-v1";

/// The field material when no leaf is resolved.
pub const FALLBACK_MATERIAL: &'static str = "ideal_resonator";

/* ------------------------------ field material ----------------------------- */

/// The materials of the resolved leaves, in leaf order.
pub open spec fn resolved_materials(ls: Seq<SpecLeaf>) -> Seq<Seq<char>>
    decreases ls.len(),
{
    if ls.len() == 0 {
        seq![]
    } else {
        let before = resolved_materials(ls.drop_last());
        match ls.last().resolved {
            Some(r) => before.push(r.material),
            None => before,
        }
    }
}

/// How many times `m` occurs in `ms`.
pub open spec fn occurrences(ms: Seq<Seq<char>>, m: Seq<char>) -> nat
    decreases ms.len(),
{
    if ms.len() == 0 {
        0
    } else {
        occurrences(ms.drop_last(), m) + if ms.last() == m { 1nat } else { 0nat }
    }
}

/// The distinct elements of `ms`, in order of first occurrence.
pub open spec fn distinct(ms: Seq<Seq<char>>) -> Seq<Seq<char>>
    decreases ms.len(),
{
    if ms.len() == 0 {
        seq![]
    } else {
        let d = distinct(ms.drop_last());
        if d.contains(ms.last()) {
            d
        } else {
            d.push(ms.last())
        }
    }
}

/// The element of `ds` that occurs most often in `ms`; the first such
/// element on a tie.
pub open spec fn most_frequent(ds: Seq<Seq<char>>, ms: Seq<Seq<char>>) -> Seq<char>
    decreases ds.len(),
{
    if ds.len() <= 1 {
        ds[0]
    } else {
        let best = most_frequent(ds.drop_last(), ms);
        if occurrences(ms, ds.last()) > occurrences(ms, best) {
            ds.last()
        } else {
            best
        }
    }
}

/// The material a plan's field is flattened to: the most common among
/// the resolved leaves (the first to appear on a tie), or the fallback
/// when none is resolved.
pub open spec fn field_material(ls: Seq<SpecLeaf>) -> Seq<char> {
    let ms = resolved_materials(ls);
    if ms.len() == 0 {
        FALLBACK_MATERIAL@
    } else {
        most_frequent(distinct(ms), ms)
    }
}

/// How many distinct materials the resolved leaves carry.
pub open spec fn material_count(ls: Seq<SpecLeaf>) -> nat {
    distinct(resolved_materials(ls)).len()
}

proof fn lemma_occurrences_le(ms: Seq<Seq<char>>, m: Seq<char>)
    ensures
        occurrences(ms, m) <= ms.len(),
    decreases ms.len(),
{
    if ms.len() > 0 {
        lemma_occurrences_le(ms.drop_last(), m);
    }
}

proof fn lemma_resolved_materials_len(ls: Seq<SpecLeaf>)
    ensures
        resolved_materials(ls).len() <= ls.len(),
    decreases ls.len(),
{
    if ls.len() > 0 {
        lemma_resolved_materials_len(ls.drop_last());
    }
}

/// An element occurs in `ms` exactly when it is one of its distinct
/// elements.
pub proof fn lemma_distinct_members(ms: Seq<Seq<char>>, m: Seq<char>)
    ensures
        distinct(ms).contains(m) <==> occurrences(ms, m) > 0,
    decreases ms.len(),
{
    if ms.len() > 0 {
        let p = ms.drop_last();
        lemma_distinct_members(p, m);
        let d = distinct(p);
        let x = ms.last();
        if !d.contains(x) {
            let e = d.push(x);
            if e.contains(m) {
                let k = choose|k: int| 0 <= k < e.len() && e[k] == m;
                if k < d.len() {
                    assert(d[k] == m);
                }
            }
            if d.contains(m) {
                let k = choose|k: int| 0 <= k < d.len() && d[k] == m;
                assert(e[k] == m);
            }
            if x == m {
                assert(e[d.len() as int] == m);
            }
        }
    }
}

/// The majority rule: the material the field is flattened to occurs
/// among the resolved leaves at least as often as any other material.
pub proof fn lemma_field_material_is_majority(ls: Seq<SpecLeaf>, m: Seq<char>)
    requires
        resolved_materials(ls).len() > 0,
    ensures
        occurrences(resolved_materials(ls), field_material(ls))
            >= occurrences(resolved_materials(ls), m),
        occurrences(resolved_materials(ls), field_material(ls)) > 0,
{
    let ms = resolved_materials(ls);
    let ds = distinct(ms);
    lemma_distinct_members(ms, ms.last());
    assert(ds.len() > 0);
    lemma_most_frequent_max(ds, ms, ds.len() as int);
    if occurrences(ms, m) > 0 {
        lemma_distinct_members(ms, m);
        let k = choose|k: int| 0 <= k < ds.len() && ds[k] == m;
        assert(ds.take(ds.len() as int) == ds);
    }
    lemma_most_frequent_member(ds, ms);
    lemma_distinct_members(ms, most_frequent(ds, ms));
}

proof fn lemma_most_frequent_max(ds: Seq<Seq<char>>, ms: Seq<Seq<char>>, n: int)
    requires
        0 < n <= ds.len(),
    ensures
        forall|k: int| 0 <= k < n ==> occurrences(ms, #[trigger] ds[k]) <= occurrences(ms, most_frequent(ds.take(n), ms)),
    decreases n,
{
    let t = ds.take(n);
    if n > 1 {
        lemma_most_frequent_max(ds, ms, n - 1);
        assert(t.drop_last() == ds.take(n - 1));
    }
}

proof fn lemma_most_frequent_member(ds: Seq<Seq<char>>, ms: Seq<Seq<char>>)
    requires
        ds.len() > 0,
    ensures
        ds.contains(most_frequent(ds, ms)),
    decreases ds.len(),
{
    if ds.len() > 1 {
        lemma_most_frequent_member(ds.drop_last(), ms);
        let b = most_frequent(ds.drop_last(), ms);
        let k = choose|k: int| 0 <= k < ds.drop_last().len() && ds.drop_last()[k] == b;
        assert(ds[k] == b);
        assert(ds[ds.len() - 1] == ds.last());
    } else {
        assert(ds[0] == most_frequent(ds, ms));
    }
}

/// The per-material tally of the resolved leaves, in order of first
/// occurrence.
fn tally_materials(leaves: &Vec<Leaf>) -> (r: Vec<(String, usize)>)
    ensures
        r@.len() == distinct(resolved_materials(crate::grow::leaves_view(leaves@))).len(),
        forall|k: int| 0 <= k < r@.len() ==> {
            let ms = resolved_materials(crate::grow::leaves_view(leaves@));
            &&& (#[trigger] r@[k]).0@ == distinct(ms)[k]
            &&& r@[k].1 == occurrences(ms, distinct(ms)[k])
        },
{
    let ghost ls = crate::grow::leaves_view(leaves@);
    let mut tally: Vec<(String, usize)> = Vec::new();
    let mut i: usize = 0;
    while i < leaves.len()
        invariant
            i <= leaves@.len(),
            ls == crate::grow::leaves_view(leaves@),
            tally@.len() == distinct(resolved_materials(ls.take(i as int))).len(),
            forall|k: int| 0 <= k < tally@.len() ==> {
                let ms = resolved_materials(ls.take(i as int));
                &&& (#[trigger] tally@[k]).0@ == distinct(ms)[k]
                &&& tally@[k].1 == occurrences(ms, distinct(ms)[k])
            },
        decreases leaves@.len() - i,
    {
        let ghost before = ls.take(i as int);
        let ghost ms0 = resolved_materials(before);
        assert(ls.take(i + 1).drop_last() == before);
        proof {
            lemma_resolved_materials_len(before);
        }
        match &leaves[i].resolved {
            Some(r) => {
                let ghost m = r.material@;
                let ghost ms1 = ms0.push(m);
                assert(resolved_materials(ls.take(i + 1)) == ms1);
                assert(ms1.drop_last() == ms0);
                let mut k: usize = 0;
                while k < tally.len() && !text_eq(tally[k].0.as_str(), r.material.as_str())
                    invariant
                        k <= tally@.len(),
                        r.material@ == m,
                        forall|j: int| 0 <= j < k ==> (#[trigger] tally@[j]).0@ != m,
                    decreases tally@.len() - k,
                {
                    k = k + 1;
                }
                let found = k < tally.len();
                let ghost d0 = distinct(ms0);
                if found {
                    assert(d0.contains(m)) by {
                        assert(d0[k as int] == m);
                    }
                    assert(distinct(ms1) == d0);
                    proof {
                        lemma_occurrences_le(ms0, m);
                    }
                    let c = tally[k].1;
                    let name = tally[k].0.clone();
                    tally.set(k, (name, c + 1));
                    assert forall|j: int| 0 <= j < tally@.len() implies {
                        &&& (#[trigger] tally@[j]).0@ == distinct(ms1)[j]
                        &&& tally@[j].1 == occurrences(ms1, distinct(ms1)[j])
                    } by {
                        if j != k {
                            assert(d0[j] != m) by {
                                assert(d0[k as int] == m);
                                lemma_distinct_no_dup(ms0, j, k as int);
                            }
                        }
                    }
                } else {
                    assert(!d0.contains(m)) by {
                        if d0.contains(m) {
                            let j = choose|j: int| 0 <= j < d0.len() && d0[j] == m;
                            assert(tally@[j].0@ == m);
                        }
                    }
                    assert(distinct(ms1) == d0.push(m));
                    proof {
                        lemma_distinct_members(ms0, m);
                    }
                    tally.push((r.material.clone(), 1));
                    assert forall|j: int| 0 <= j < tally@.len() implies {
                        &&& (#[trigger] tally@[j]).0@ == distinct(ms1)[j]
                        &&& tally@[j].1 == occurrences(ms1, distinct(ms1)[j])
                    } by {
                        if j < d0.len() {
                            assert(d0[j] != m);
                        }
                    }
                }
            },
            None => {
                assert(resolved_materials(ls.take(i + 1)) == ms0);
            },
        }
        i = i + 1;
    }
    assert(ls.take(leaves@.len() as int) == ls);
    tally
}

proof fn lemma_distinct_no_dup(ms: Seq<Seq<char>>, a: int, b: int)
    requires
        0 <= a < distinct(ms).len(),
        0 <= b < distinct(ms).len(),
        a != b,
    ensures
        distinct(ms)[a] != distinct(ms)[b],
    decreases ms.len(),
{
    if ms.len() > 0 {
        let d = distinct(ms.drop_last());
        if a < d.len() && b < d.len() {
            lemma_distinct_no_dup(ms.drop_last(), a, b);
        }
    }
}

/// The material the field is flattened to (`field_material`) and how
/// many distinct materials the resolved leaves carry.
pub fn flatten_materials(leaves: &Vec<Leaf>) -> (r: (String, usize))
    ensures
        r.0@ == field_material(crate::grow::leaves_view(leaves@)),
        r.1 == material_count(crate::grow::leaves_view(leaves@)),
{
    let tally = tally_materials(leaves);
    let ghost ms = resolved_materials(crate::grow::leaves_view(leaves@));
    let ghost ds = distinct(ms);
    if tally.len() == 0 {
        proof {
            if ms.len() > 0 {
                lemma_distinct_members(ms, ms.last());
                lemma_occurrences_le(ms, ms.last());
                assert(occurrences(ms, ms.last()) > 0) by {
                    assert(ms.drop_last().push(ms.last()) == ms);
                }
            }
        }
        return (String::from_str(FALLBACK_MATERIAL), 0);
    }
    proof {
        if ms.len() == 0 {
            assert(ds.len() == 0);
        }
    }
    let mut best: usize = 0;
    let mut k: usize = 1;
    assert(ds.take(1).drop_last().len() == 0);
    while k < tally.len()
        invariant
            1 <= k <= tally@.len() == ds.len(),
            best < k,
            tally@[best as int].0@ == most_frequent(ds.take(k as int), ms),
            tally@[best as int].1 == occurrences(ms, most_frequent(ds.take(k as int), ms)),
            forall|j: int| 0 <= j < tally@.len() ==> {
                &&& (#[trigger] tally@[j]).0@ == ds[j]
                &&& tally@[j].1 == occurrences(ms, ds[j])
            },
        decreases tally@.len() - k,
    {
        assert(ds.take(k + 1).drop_last() == ds.take(k as int));
        if tally[k].1 > tally[best].1 {
            best = k;
        }
        k = k + 1;
    }
    assert(ds.take(ds.len() as int) == ds);
    (tally[best].0.clone(), tally.len())
}

/* ------------------------------ carrier tones ------------------------------ */

/// The class hash over the bytes of a class name: from zero, each byte
/// `b` takes the state `h` to `h * 31 + b`, modulo 2^32.
pub open spec fn class_hash(bytes: Seq<u8>) -> u32
    decreases bytes.len(),
{
    if bytes.len() == 0 {
        0
    } else {
        class_hash(bytes.drop_last()).wrapping_mul(31).wrapping_add(bytes.last() as u32)
    }
}

/// Which of the five carrier frequencies a class rings at.
pub open spec fn carrier_index(class: Seq<char>) -> nat {
    (class_hash(encode_utf8(class)) % 5) as nat
}

/// The text of the `k`-th carrier frequency, `0.5 + 0.45 k`, to three
/// decimals.
pub open spec fn carrier_text(k: nat) -> Seq<char> {
    if k == 0 {
        "0.500"@
    } else if k == 1 {
        "0.950"@
    } else if k == 2 {
        "1.400"@
    } else if k == 3 {
        "1.850"@
    } else {
        "2.300"@
    }
}

/// Deterministic per-class carrier, so different primitive classes ring
/// distinguishably in the approximated field: the index into the five
/// carrier frequencies (`carrier_index`).
pub fn class_carrier(class: &str) -> (r: u32)
    ensures
        r == carrier_index(class@),
        r < 5,
{
    let bytes = class.as_bytes();
    let mut h: u32 = 0;
    let mut i: usize = 0;
    while i < bytes.len()
        invariant
            i <= bytes@.len(),
            h == class_hash(bytes@.take(i as int)),
        decreases bytes@.len() - i,
    {
        assert(bytes@.take(i + 1).drop_last() == bytes@.take(i as int));
        h = h.wrapping_mul(31).wrapping_add(bytes[i] as u32);
        i = i + 1;
    }
    assert(bytes@.take(bytes@.len() as int) == bytes@);
    h % 5
}

/// The text of a class's carrier frequency (`carrier_text`).
pub fn carrier_of(class: &str) -> (r: &'static str)
    ensures
        r@ == carrier_text(carrier_index(class@)),
{
    let k = class_carrier(class);
    if k == 0 {
        "0.500"
    } else if k == 1 {
        "0.950"
    } else if k == 2 {
        "1.400"
    } else if k == 3 {
        "1.850"
    } else {
        "2.300"
    }
}

/* ------------------------------ crystal program ---------------------------- */

/// The closing lines of every crystal program.
pub const CRYSTAL_FOOTER: &'static str = "RESONATE 400\nDREAM deep\nSTABILIZE\n";

/// Whether unresolved components get proxy pulses: only in speculative
/// mode; in stub mode they stay declared but inert.
pub open spec fn speculates(mode: UnresolvedMode) -> bool {
    mode == UnresolvedMode::Speculative
}

/// The line of a leaf. An unresolved leaf outside speculative mode is a
/// stub comment; any other leaf is a pulse at `geometry` (its centre,
/// radius and amplitude), ringing at its class's carrier.
pub open spec fn leaf_text(l: SpecLeaf, speculate: bool, geometry: Seq<char>) -> Seq<char> {
    if l.resolved is None && !speculate {
        "# STUB unresolved "@ + l.cell + " \""@ + l.query.class
            + "\" \u{2014} no pulse emitted (re-resolve, or lower with --unresolved speculative)\n"@
    } else {
        "PULSE "@ + geometry + " "@ + carrier_text(carrier_index(l.query.class)) + " 0.0   # "@
            + l.query.class + " "@ + match l.resolved {
                Some(r) => r.id,
                None => "(unresolved proxy)"@,
            } + "\n"@
    }
}

/// A resolved leaf always lowers to a pulse, whatever the unresolved
/// mode: its line starts with `PULSE ` and ends with the resolved id.
/// Only an unresolved leaf outside speculative mode becomes a stub
/// comment; in speculative mode it gets a proxy pulse.
pub proof fn lemma_resolved_leaves_pulse(l: SpecLeaf, speculate: bool, geometry: Seq<char>)
    ensures
        l.resolved is Some ==> leaf_text(l, speculate, geometry) == leaf_text(l, !speculate, geometry),
        l.resolved is Some || speculate ==> leaf_text(l, speculate, geometry).take(6) == "PULSE "@,
        l.resolved matches Some(r) ==> exists|mid: Seq<char>| #[trigger] (mid + r.id) + "\n"@ == leaf_text(l, speculate, geometry),
        l.resolved is None && !speculate ==> leaf_text(l, speculate, geometry).take(18) == "# STUB unresolved "@,
{
    reveal_strlit("PULSE ");
    reveal_strlit("# STUB unresolved ");
    let t = leaf_text(l, speculate, geometry);
    if l.resolved is Some || speculate {
        let rest = geometry + " "@ + carrier_text(carrier_index(l.query.class)) + " 0.0   # "@
            + l.query.class + " "@ + match l.resolved {
                Some(r) => r.id,
                None => "(unresolved proxy)"@,
            } + "\n"@;
        assert(t =~= "PULSE "@ + rest);
        assert(("PULSE "@ + rest).take(6) =~= "PULSE "@);
        if let Some(r) = l.resolved {
            let mid = "PULSE "@ + geometry + " "@ + carrier_text(carrier_index(l.query.class)) + " 0.0   # "@
                + l.query.class + " "@;
            assert((mid + r.id) + "\n"@ == t);
        }
    } else {
        let rest = l.cell + " \""@ + l.query.class
            + "\" \u{2014} no pulse emitted (re-resolve, or lower with --unresolved speculative)\n"@;
        assert(t =~= "# STUB unresolved "@ + rest);
        assert(("# STUB unresolved "@ + rest).take(18) =~= "# STUB unresolved "@);
    }
}

/// The line of a bridge, as for a leaf; a bridge pulse is small and of
/// fixed amplitude, at `geometry` (the midpoint of the coupled pair).
pub open spec fn bridge_text(b: SpecBridge, speculate: bool, geometry: Seq<char>) -> Seq<char> {
    if b.resolved is None && !speculate {
        "# STUB unresolved bridge \""@ + b.query.class + "\" \u{2014} no pulse emitted\n"@
    } else {
        "PULSE "@ + geometry + " 0.05 0.600 "@ + carrier_text(carrier_index(b.query.class))
            + " 0.0   # bridge "@ + b.query.class + "\n"@
    }
}

/// The lines of the leaves, in order, the `i`-th at `gs[i]`.
pub open spec fn leaves_text(ls: Seq<SpecLeaf>, speculate: bool, gs: Seq<Seq<char>>) -> Seq<char>
    decreases ls.len(),
{
    if ls.len() == 0 {
        seq![]
    } else {
        leaves_text(ls.drop_last(), speculate, gs) + leaf_text(ls.last(), speculate, gs[ls.len() - 1])
    }
}

/// The lines of the bridges, in order, the `i`-th at `gs[i]`.
pub open spec fn bridges_text(bs: Seq<SpecBridge>, speculate: bool, gs: Seq<Seq<char>>) -> Seq<char>
    decreases bs.len(),
{
    if bs.len() == 0 {
        seq![]
    } else {
        bridges_text(bs.drop_last(), speculate, gs) + bridge_text(bs.last(), speculate, gs[bs.len() - 1])
    }
}

/// The header of a crystal program: provenance, counts and lowering
/// model; a warning when leaves of several materials are flattened to
/// one; the field material and seed.
pub open spec fn crystal_header(p: SpecPlan) -> Seq<char> {
    let material = field_material(p.leaves);
    let d = material_count(p.leaves);
    "# grown by kannaka-hdl from: "@ + p.grown_from + "\n# "@ + nat_text(p.leaves.len())
        + " leaves, "@ + nat_text(p.bridges.len())
        + " bridges \u{2014} pulse-placement approximation\n# lowering model: "@
        + LOWERING_CRYSTAL@ + "\n"@
        + (if d > 1 {
            "# WARNING: "@ + nat_text(d) + " materials among resolved leaves; field flattened to majority \""@
                + material + "\" \u{2014} abstract approximation, not a material-region map\n"@
        } else {
            seq![]
        })
        + "MATERIAL "@ + material + "\nSEED 21\n"@
}

/// The crystal program of a plan, with the leaves' pulse geometry `lg`
/// and the bridges' `bg`.
pub open spec fn crystal_text(p: SpecPlan, lg: Seq<Seq<char>>, bg: Seq<Seq<char>>) -> Seq<char> {
    crystal_header(p) + leaves_text(p.leaves, speculates(p.unresolved_mode), lg)
        + bridges_text(p.bridges, speculates(p.unresolved_mode), bg) + CRYSTAL_FOOTER@
}

fn leaf_line(l: &Leaf, speculate: bool, geometry: &str) -> (r: String)
    ensures
        r@ == leaf_text(l@, speculate, geometry@),
{
    if l.resolved.is_none() && !speculate {
        let mut s = String::from_str("# STUB unresolved ");
        s.append(l.cell.as_str());
        s.append(" \"");
        s.append(l.query.class.as_str());
        s.append("\" \u{2014} no pulse emitted (re-resolve, or lower with --unresolved speculative)\n");
        s
    } else {
        let mut s = String::from_str("PULSE ");
        s.append(geometry);
        s.append(" ");
        s.append(carrier_of(l.query.class.as_str()));
        s.append(" 0.0   # ");
        s.append(l.query.class.as_str());
        s.append(" ");
        match &l.resolved {
            Some(r) => s.append(r.id.as_str()),
            None => s.append("(unresolved proxy)"),
        }
        s.append("\n");
        s
    }
}

fn bridge_line(b: &Bridge, speculate: bool, geometry: &str) -> (r: String)
    ensures
        r@ == bridge_text(b@, speculate, geometry@),
{
    if b.resolved.is_none() && !speculate {
        let mut s = String::from_str("# STUB unresolved bridge \"");
        s.append(b.query.class.as_str());
        s.append("\" \u{2014} no pulse emitted\n");
        s
    } else {
        let mut s = String::from_str("PULSE ");
        s.append(geometry);
        s.append(" 0.05 0.600 ");
        s.append(carrier_of(b.query.class.as_str()));
        s.append(" 0.0   # bridge ");
        s.append(b.query.class.as_str());
        s.append("\n");
        s
    }
}

/// The crystal program of a plan (`crystal_text`): a pulse-placement
/// approximation of the architecture. `leaf_geometry[i]` is the rendered
/// centre, radius and amplitude of the `i`-th leaf's pulse;
/// `bridge_geometry[j]` the rendered midpoint of the `j`-th bridge's.
pub fn emit_crystal(plan: &Plan, leaf_geometry: &Vec<String>, bridge_geometry: &Vec<String>) -> (r: String)
    requires
        leaf_geometry@.len() == plan.leaves@.len(),
        bridge_geometry@.len() == plan.bridges@.len(),
    ensures
        r@ == crystal_text(plan@, crate::syntax::strings_view(leaf_geometry@), crate::syntax::strings_view(bridge_geometry@)),
{
    let ghost p = plan@;
    let ghost lg = crate::syntax::strings_view(leaf_geometry@);
    let ghost bg = crate::syntax::strings_view(bridge_geometry@);
    let (material, distinct_materials) = flatten_materials(&plan.leaves);
    let speculate = match plan.unresolved_mode {
        UnresolvedMode::Speculative => true,
        _ => false,
    };
    let mut out = String::from_str("# grown by kannaka-hdl from: ");
    out.append(plan.grown_from.as_str());
    out.append("\n# ");
    let nl = usize_text(plan.leaves.len());
    out.append(nl.as_str());
    out.append(" leaves, ");
    let nb = usize_text(plan.bridges.len());
    out.append(nb.as_str());
    out.append(" bridges \u{2014} pulse-placement approximation\n# lowering model: ");
    out.append(LOWERING_CRYSTAL);
    out.append("\n");
    if distinct_materials > 1 {
        out.append("# WARNING: ");
        let d = usize_text(distinct_materials);
        out.append(d.as_str());
        out.append(" materials among resolved leaves; field flattened to majority \"");
        out.append(material.as_str());
        out.append("\" \u{2014} abstract approximation, not a material-region map\n");
    }
    out.append("MATERIAL ");
    out.append(material.as_str());
    out.append("\nSEED 21\n");
    assert(out@ == crystal_header(p));
    let ghost head = out@;
    let mut i: usize = 0;
    while i < plan.leaves.len()
        invariant
            i <= plan.leaves@.len() == lg.len(),
            p == plan@,
            lg == crate::syntax::strings_view(leaf_geometry@),
            speculate == speculates(p.unresolved_mode),
            out@ == head + leaves_text(p.leaves.take(i as int), speculate, lg),
        decreases plan.leaves@.len() - i,
    {
        let line = leaf_line(&plan.leaves[i], speculate, leaf_geometry[i].as_str());
        out.append(line.as_str());
        assert(p.leaves.take(i + 1).drop_last() == p.leaves.take(i as int));
        i = i + 1;
    }
    assert(p.leaves.take(p.leaves.len() as int) == p.leaves);
    let ghost mid = out@;
    let mut j: usize = 0;
    while j < plan.bridges.len()
        invariant
            j <= plan.bridges@.len() == bg.len(),
            p == plan@,
            bg == crate::syntax::strings_view(bridge_geometry@),
            speculate == speculates(p.unresolved_mode),
            out@ == mid + bridges_text(p.bridges.take(j as int), speculate, bg),
        decreases plan.bridges@.len() - j,
    {
        let line = bridge_line(&plan.bridges[j], speculate, bridge_geometry[j].as_str());
        out.append(line.as_str());
        assert(p.bridges.take(j + 1).drop_last() == p.bridges.take(j as int));
        j = j + 1;
    }
    assert(p.bridges.take(p.bridges.len() as int) == p.bridges);
    out.append(CRYSTAL_FOOTER);
    out
}

/* ---------------------------- growth visualization -------------------------- */

/// The visualization page up to the embedded plan.
pub const HTML_HEAD: &'static str = r#"<!doctype html>
<html lang="en">
<head>
<meta charset="utf-8">
<title>KannakaHDL — grown architecture</title>
<style>
  body { background:#0a0a14; color:#c8c8e8; font-family:'Segoe UI',system-ui,sans-serif; padding:1rem; }
  h1 { font-size:1rem; letter-spacing:.3em; color:#b49aff; font-weight:400; }
  canvas { background:#0d0d1a; border:1px solid #2a2a4a; border-radius:8px; display:block; margin-top:.8rem; max-width:100%; }
  p { font-size:.75rem; color:#9f9fc8; margin-top:.5rem; }
  button { background:#1c1c34; color:#c8c8e8; border:1px solid #2a2a4a; border-radius:5px; padding:.35rem .7rem; font-size:.75rem; margin-top:.6rem; }
</style>
</head>
<body>
<h1>KANNAKA HDL — GROWN ARCHITECTURE</h1>
<canvas id="cv" width="900" height="900"></canvas>
<button onclick="t0=performance.now()">RE-GROW</button>
<p id="info"></p>
<script>
const plan = "#;

/// The visualization page after the embedded plan.
pub const HTML_TAIL: &'static str = r#";
const cv = document.getElementById('cv'), ctx = cv.getContext('2d');
const maxDepth = Math.max(1, ...plan.leaves.map(l => l.depth));
function hue(s){let h=0;for(const c of s)h=(h*31+c.charCodeAt(0))>>>0;return h%360;}
let t0 = performance.now();
function draw(){
  const level = Math.min(maxDepth + 1, (performance.now() - t0) / 700);
  ctx.clearRect(0,0,cv.width,cv.height);
  const S = cv.width;
  ctx.strokeStyle = 'rgba(143,111,255,0.35)'; ctx.lineWidth = 1;
  for (const b of plan.bridges) if (b.depth < level) {
    ctx.beginPath(); ctx.moveTo(b.x1*S, b.y1*S); ctx.lineTo(b.x2*S, b.y2*S); ctx.stroke();
  }
  for (const l of plan.leaves) if (l.depth <= level) {
    ctx.strokeStyle = 'rgba(80,80,140,0.5)';
    ctx.strokeRect(l.x*S, l.y*S, l.w*S, l.h*S);
    const cx = (l.x + l.w/2)*S, cy = (l.y + l.h/2)*S;
    const pers = l.resolved ? l.resolved.persistence : 0.15;
    ctx.beginPath(); ctx.arc(cx, cy, 4 + pers*10, 0, Math.PI*2);
    ctx.fillStyle = l.resolved ? `hsl(${hue(l.query.class)} 70% 60%)` : '#444';
    ctx.fill();
  }
  requestAnimationFrame(draw);
}
document.getElementById('info').textContent =
  `${plan.grown_from} — ${plan.leaves.length} leaves, ${plan.bridges.length} bridges` +
  (plan.warnings.length ? ` — ${plan.warnings.length} unresolved (grey)` : '') +
  ' — lowering model: html-growth-viz-v1';
draw();
</script>
</body>
</html>
"#;

/// `s` made safe inside a `<script>` block: each `</`, scanning from the
/// left, becomes `<\/`.
pub open spec fn script_safe(s: Seq<char>) -> Seq<char>
    decreases s.len(),
{
    if s.len() < 2 {
        s
    } else if s[0] == '<' && s[1] == '/' {
        seq!['<', '\\', '/'] + script_safe(s.subrange(2, s.len() as int))
    } else {
        seq![s[0]] + script_safe(s.subrange(1, s.len() as int))
    }
}

/// No closing tag can end the script early: the script-safe form of any
/// text holds no `<` directly followed by `/`.
pub proof fn lemma_script_safe_has_no_close(s: Seq<char>)
    ensures
        forall|i: int| 0 <= i < script_safe(s).len() - 1 ==> !(#[trigger] script_safe(s)[i] == '<' && script_safe(s)[i + 1] == '/'),
        script_safe(s).len() > 0 ==> script_safe(s)[0] == s[0],
    decreases s.len(),
{
    if s.len() >= 2 {
        if s[0] == '<' && s[1] == '/' {
            let rest = s.subrange(2, s.len() as int);
            lemma_script_safe_has_no_close(rest);
            let t = seq!['<', '\\', '/'] + script_safe(rest);
            assert forall|i: int| 0 <= i < t.len() - 1 implies !(#[trigger] t[i] == '<' && t[i + 1] == '/') by {
                if i >= 3 {
                    assert(t[i] == script_safe(rest)[i - 3]);
                    assert(t[i + 1] == script_safe(rest)[i - 2]);
                }
            }
        } else {
            let rest = s.subrange(1, s.len() as int);
            lemma_script_safe_has_no_close(rest);
            let t = seq![s[0]] + script_safe(rest);
            assert forall|i: int| 0 <= i < t.len() - 1 implies !(#[trigger] t[i] == '<' && t[i + 1] == '/') by {
                if i >= 1 {
                    assert(t[i] == script_safe(rest)[i - 1]);
                    assert(t[i + 1] == script_safe(rest)[i]);
                } else {
                    assert(t[1] == script_safe(rest)[0]);
                    assert(rest[0] == s[1]);
                }
            }
        }
    }
}

/// The standalone growth visualization of a plan whose JSON text is
/// `plan_json`: the page with the JSON, made script-safe, embedded.
pub fn emit_html(plan_json: &str) -> (r: String)
    ensures
        r@ == HTML_HEAD@ + script_safe(plan_json@) + HTML_TAIL@,
{
    let cs = chars_of(plan_json);
    let n = cs.len();
    let mut out = String::from_str(HTML_HEAD);
    let ghost head = out@;
    let mut i: usize = 0;
    assert(cs@.subrange(0, n as int) == cs@);
    while i < n
        invariant
            i <= n == cs@.len(),
            cs@ == plan_json@,
            out@ + script_safe(cs@.subrange(i as int, n as int)) == head + script_safe(cs@),
        decreases n - i,
    {
        let ghost rest = cs@.subrange(i as int, n as int);
        if i + 1 < n && cs[i] == '<' && cs[i + 1] == '/' {
            push_char(&mut out, '<');
            push_char(&mut out, '\\');
            push_char(&mut out, '/');
            assert(rest.subrange(2, rest.len() as int) == cs@.subrange(i + 2, n as int));
            i = i + 2;
        } else {
            push_char(&mut out, cs[i]);
            if i + 1 < n {
                assert(rest.subrange(1, rest.len() as int) == cs@.subrange(i + 1, n as int));
            } else {
                assert(rest == seq![cs@[i as int]]);
                assert(cs@.subrange(i + 1, n as int).len() == 0);
            }
            i = i + 1;
        }
    }
    assert(cs@.subrange(0, n as int) == cs@);
    out.append(HTML_TAIL);
    out
}

} // verus!
