//! Properties that span the compiler's stages: what growth guarantees of
//! every plan, and what resolution keeps, records and chooses.

use vstd::prelude::*;
use crate::grow::{
    Env, Grown, Halt, MAX_DEPTH, MAX_LEAVES, SpecBridge, SpecLeaf, SpecPlan, Slice, bind, bridges_for,
    find_cell, first_rule, grow_all, grow_children, instantiate, spec_grow,
};
use crate::number::{lemma_ge_total, lemma_ge_trans};
use crate::syntax::{Action, Program, SpecAction, SpecCall, SpecCellDef, SpecProgram, SpecQuery, Strategy};
use crate::registry::{
    Provider, SpecState, lemma_bridges_resolved_le, lemma_leaves_resolved_le, resolve_bridges,
    resolve_leaves, resolve_one, spec_resolve_plan, spec_unresolved_count, SpecResolved,
    first_unclaimed, find_provider, sort_desc, dedup, satisfies, row_candidates,
    fixture_candidates, resolved_view, FixtureProvider, Registry, SpecPrimitive, cursor_index,
    cursor_set, has_evidence_floors, first_max, last_max, key, cursor_get, diverse_key,
};

verus! {

/* ------------------------- resolution keeps the plan ------------------------ */

proof fn lemma_resolve_leaves_keeps(
    ps: Seq<&dyn Provider>,
    ls: Seq<SpecLeaf>,
    i: int,
    st: SpecState,
    ws: Seq<Seq<char>>,
)
    requires
        0 <= i <= ls.len(),
    ensures
        resolve_leaves(ps, ls, i, st, ws).0.len() == ls.len(),
        forall|k: int| 0 <= k < ls.len() ==>
            (SpecLeaf { resolved: ls[k].resolved, ..#[trigger] resolve_leaves(ps, ls, i, st, ws).0[k] }) == ls[k],
    decreases ls.len() - i,
{
    if i < ls.len() {
        let o = resolve_one(ps, ls[i].query, st);
        let ws2 = match o.reason {
            Some(r) => ws.push(ls[i].cell + ": "@ + r),
            None => ws,
        };
        let ls2 = ls.update(i, SpecLeaf { resolved: o.resolved, ..ls[i] });
        lemma_resolve_leaves_keeps(ps, ls2, i + 1, o.state, ws2);
        assert forall|k: int| 0 <= k < ls.len() implies
            (SpecLeaf { resolved: ls[k].resolved, ..#[trigger] resolve_leaves(ps, ls, i, st, ws).0[k] }) == ls[k] by {
            assert((SpecLeaf { resolved: ls2[k].resolved, ..resolve_leaves(ps, ls2, i + 1, o.state, ws2).0[k] }) == ls2[k]);
        }
    }
}

proof fn lemma_resolve_bridges_keeps(
    ps: Seq<&dyn Provider>,
    bs: Seq<SpecBridge>,
    i: int,
    st: SpecState,
    ws: Seq<Seq<char>>,
)
    requires
        0 <= i <= bs.len(),
    ensures
        resolve_bridges(ps, bs, i, st, ws).0.len() == bs.len(),
        forall|k: int| 0 <= k < bs.len() ==>
            (SpecBridge { resolved: bs[k].resolved, ..#[trigger] resolve_bridges(ps, bs, i, st, ws).0[k] }) == bs[k],
    decreases bs.len() - i,
{
    if i < bs.len() {
        let o = resolve_one(ps, bs[i].query, st);
        let ws2 = match o.reason {
            Some(r) => ws.push("coupling \""@ + bs[i].query.class + "\": "@ + r),
            None => ws,
        };
        let bs2 = bs.update(i, SpecBridge { resolved: o.resolved, ..bs[i] });
        lemma_resolve_bridges_keeps(ps, bs2, i + 1, o.state, ws2);
        assert forall|k: int| 0 <= k < bs.len() implies
            (SpecBridge { resolved: bs[k].resolved, ..#[trigger] resolve_bridges(ps, bs, i, st, ws).0[k] }) == bs[k] by {
            assert((SpecBridge { resolved: bs2[k].resolved, ..resolve_bridges(ps, bs2, i + 1, o.state, ws2).0[k] }) == bs2[k]);
        }
    }
}

/// Resolution keeps the grown architecture: the resolved plan has the
/// same leaves and bridges, in the same order, each differing at most in
/// the component it resolved to; the plan's provenance, hashes and
/// unresolved-component policy are untouched.
pub proof fn lemma_resolution_keeps_architecture(plan: SpecPlan, ps: Seq<&dyn Provider>)
    ensures
        spec_resolve_plan(plan, ps).leaves.len() == plan.leaves.len(),
        spec_resolve_plan(plan, ps).bridges.len() == plan.bridges.len(),
        forall|k: int| 0 <= k < plan.leaves.len() ==>
            (SpecLeaf { resolved: plan.leaves[k].resolved, ..#[trigger] spec_resolve_plan(plan, ps).leaves[k] }) == plan.leaves[k],
        forall|k: int| 0 <= k < plan.bridges.len() ==>
            (SpecBridge { resolved: plan.bridges[k].resolved, ..#[trigger] spec_resolve_plan(plan, ps).bridges[k] }) == plan.bridges[k],
        spec_resolve_plan(plan, ps).grown_from == plan.grown_from,
        spec_resolve_plan(plan, ps).schema_version == plan.schema_version,
        spec_resolve_plan(plan, ps).compiler_version == plan.compiler_version,
        spec_resolve_plan(plan, ps).program_hash == plan.program_hash,
        spec_resolve_plan(plan, ps).plan_hash == plan.plan_hash,
        spec_resolve_plan(plan, ps).unresolved_mode == plan.unresolved_mode,
{
    let empty = SpecState { claimed: seq![], cursors: seq![] };
    lemma_resolve_leaves_keeps(ps, plan.leaves, 0, empty, plan.warnings);
    let (ls, st1, ws1) = resolve_leaves(ps, plan.leaves, 0, empty, plan.warnings);
    lemma_resolve_bridges_keeps(ps, plan.bridges, 0, st1, ws1);
}

/// The resolution report accounts for exactly what is still missing:
/// after resolution, the components the report counts as unresolved are
/// the components `unresolved_count` reports (and strict mode refuses).
pub proof fn lemma_report_matches_unresolved_count(plan: SpecPlan, ps: Seq<&dyn Provider>)
    requires
        plan.leaves.len() <= usize::MAX,
        plan.bridges.len() <= usize::MAX,
    ensures
        spec_resolve_plan(plan, ps).resolution_report is Some,
        ({
            let r = spec_resolve_plan(plan, ps);
            let rep = r.resolution_report->0;
            &&& rep.leaves_total == plan.leaves.len()
            &&& rep.bridges_total == plan.bridges.len()
            &&& (rep.leaves_total - rep.leaves_resolved) + (rep.bridges_total - rep.bridges_resolved)
                == spec_unresolved_count(r)
        }),
{
    lemma_resolution_keeps_architecture(plan, ps);
    let r = spec_resolve_plan(plan, ps);
    lemma_leaves_resolved_le(r.leaves);
    lemma_bridges_resolved_le(r.bridges);
}

/* ------------------------- unique claims are distinct ----------------------- */

/// The ids of the leaves resolved under the `unique` strategy, in order.
pub open spec fn unique_leaf_picks(ls: Seq<SpecLeaf>) -> Seq<Seq<char>>
    decreases ls.len(),
{
    if ls.len() == 0 {
        seq![]
    } else {
        let before = unique_leaf_picks(ls.drop_last());
        let l = ls.last();
        if l.query.strategy is Unique && l.resolved is Some {
            before.push(l.resolved->0.id)
        } else {
            before
        }
    }
}

/// The ids of the bridges resolved under the `unique` strategy, in order.
pub open spec fn unique_bridge_picks(bs: Seq<SpecBridge>) -> Seq<Seq<char>>
    decreases bs.len(),
{
    if bs.len() == 0 {
        seq![]
    } else {
        let before = unique_bridge_picks(bs.drop_last());
        let b = bs.last();
        if b.query.strategy is Unique && b.resolved is Some {
            before.push(b.resolved->0.id)
        } else {
            before
        }
    }
}

proof fn lemma_first_unclaimed_is_unclaimed(s: Seq<SpecResolved>, claimed: Seq<Seq<char>>)
    ensures
        first_unclaimed(s, claimed) matches Some(i) ==> 0 <= i < s.len() && !claimed.contains(s[i].id),
    decreases s.len(),
{
    if s.len() > 0 {
        lemma_first_unclaimed_is_unclaimed(s.drop_last(), claimed);
    }
}

/// What one resolution does to the claimed ids: a `unique` pick claims
/// its (unclaimed) id; nothing else claims anything; `best` and `robust`
/// leave the whole strategy state as it was.
pub proof fn lemma_resolve_one_claims(ps: Seq<&dyn Provider>, q: SpecQuery, st: SpecState)
    ensures
        ({
            let o = resolve_one(ps, q, st);
            if q.strategy is Unique && o.resolved is Some {
                o.state.claimed == st.claimed.push(o.resolved->0.id) && !st.claimed.contains(o.resolved->0.id)
            } else {
                o.state.claimed == st.claimed
            }
        }),
        (q.strategy is Best || q.strategy is Robust) ==> resolve_one(ps, q, st).state == st,
{
    match find_provider(ps, q.domain) {
        None => {},
        Some(pi) => {
            let c = sort_desc(ps[pi].spec_candidates(q));
            lemma_first_unclaimed_is_unclaimed(c, st.claimed);
        },
    }
}

proof fn lemma_push_no_duplicates(s: Seq<Seq<char>>, x: Seq<char>)
    requires
        s.no_duplicates(),
        !s.contains(x),
    ensures
        s.push(x).no_duplicates(),
{
    let t = s.push(x);
    assert forall|i: int, j: int| 0 <= i < t.len() && 0 <= j < t.len() && i != j implies t[i] != t[j] by {
        if i < s.len() && j < s.len() {
            assert(t[i] == s[i] && t[j] == s[j]);
        } else if i < s.len() {
            assert(t[i] == s[i]);
        } else if j < s.len() {
            assert(t[j] == s[j]);
        }
    }
}

proof fn lemma_leaves_claims(
    ps: Seq<&dyn Provider>,
    ls: Seq<SpecLeaf>,
    i: int,
    st: SpecState,
    ws: Seq<Seq<char>>,
    base: Seq<Seq<char>>,
)
    requires
        0 <= i <= ls.len(),
        st.claimed == base + unique_leaf_picks(ls.take(i)),
        st.claimed.no_duplicates(),
    ensures
        resolve_leaves(ps, ls, i, st, ws).1.claimed == base + unique_leaf_picks(resolve_leaves(ps, ls, i, st, ws).0),
        resolve_leaves(ps, ls, i, st, ws).1.claimed.no_duplicates(),
    decreases ls.len() - i,
{
    if i < ls.len() {
        let o = resolve_one(ps, ls[i].query, st);
        lemma_resolve_one_claims(ps, ls[i].query, st);
        let ws2 = match o.reason {
            Some(r) => ws.push(ls[i].cell + ": "@ + r),
            None => ws,
        };
        let ls2 = ls.update(i, SpecLeaf { resolved: o.resolved, ..ls[i] });
        assert(ls2.take(i + 1).drop_last() == ls.take(i));
        assert(ls2.take(i + 1).last() == ls2[i]);
        if ls[i].query.strategy is Unique && o.resolved is Some {
            lemma_push_no_duplicates(st.claimed, o.resolved->0.id);
        }
        lemma_leaves_claims(ps, ls2, i + 1, o.state, ws2, base);
    } else {
        assert(ls.take(i) == ls);
    }
}

proof fn lemma_bridges_claims(
    ps: Seq<&dyn Provider>,
    bs: Seq<SpecBridge>,
    i: int,
    st: SpecState,
    ws: Seq<Seq<char>>,
    base: Seq<Seq<char>>,
)
    requires
        0 <= i <= bs.len(),
        st.claimed == base + unique_bridge_picks(bs.take(i)),
        st.claimed.no_duplicates(),
    ensures
        resolve_bridges(ps, bs, i, st, ws).1.claimed == base + unique_bridge_picks(resolve_bridges(ps, bs, i, st, ws).0),
        resolve_bridges(ps, bs, i, st, ws).1.claimed.no_duplicates(),
    decreases bs.len() - i,
{
    if i < bs.len() {
        let o = resolve_one(ps, bs[i].query, st);
        lemma_resolve_one_claims(ps, bs[i].query, st);
        let ws2 = match o.reason {
            Some(r) => ws.push("coupling \""@ + bs[i].query.class + "\": "@ + r),
            None => ws,
        };
        let bs2 = bs.update(i, SpecBridge { resolved: o.resolved, ..bs[i] });
        assert(bs2.take(i + 1).drop_last() == bs.take(i));
        assert(bs2.take(i + 1).last() == bs2[i]);
        if bs[i].query.strategy is Unique && o.resolved is Some {
            lemma_push_no_duplicates(st.claimed, o.resolved->0.id);
        }
        lemma_bridges_claims(ps, bs2, i + 1, o.state, ws2, base);
    } else {
        assert(bs.take(i) == bs);
    }
}

/// The `unique` strategy never hands out a component twice: across the
/// whole resolved plan, leaves first and then bridges, the components
/// resolved under `unique` have pairwise distinct ids.
pub proof fn lemma_unique_picks_are_distinct(plan: SpecPlan, ps: Seq<&dyn Provider>)
    ensures
        (unique_leaf_picks(spec_resolve_plan(plan, ps).leaves)
            + unique_bridge_picks(spec_resolve_plan(plan, ps).bridges)).no_duplicates(),
{
    let empty = SpecState { claimed: seq![], cursors: seq![] };
    assert(plan.leaves.take(0).len() == 0);
    assert(empty.claimed =~= seq![] + unique_leaf_picks(plan.leaves.take(0)));
    lemma_leaves_claims(ps, plan.leaves, 0, empty, plan.warnings, seq![]);
    let (ls, st1, ws1) = resolve_leaves(ps, plan.leaves, 0, empty, plan.warnings);
    assert(st1.claimed =~= unique_leaf_picks(ls));
    assert(plan.bridges.take(0).len() == 0);
    assert(st1.claimed =~= unique_leaf_picks(ls) + unique_bridge_picks(plan.bridges.take(0)));
    lemma_bridges_claims(ps, plan.bridges, 0, st1, ws1, unique_leaf_picks(ls));
}

/* ------------------------------ sound choices ------------------------------- */

/// The candidates of the provider answering a query's domain; none when
/// no provider answers it.
pub open spec fn answering_candidates(ps: Seq<&dyn Provider>, q: SpecQuery) -> Seq<SpecResolved> {
    match find_provider(ps, q.domain) {
        Some(pi) => ps[pi].spec_candidates(q),
        None => seq![],
    }
}

/// Whether `res` is a sound resolution of `q`: nothing, or one of the
/// answering provider's candidates, which under `best` has the greatest
/// persistence among them and under `robust` the greatest noise
/// tolerance.
pub open spec fn sound_pick(ps: Seq<&dyn Provider>, q: SpecQuery, res: Option<SpecResolved>) -> bool {
    match res {
        None => true,
        Some(r) => {
            let cs = answering_candidates(ps, q);
            &&& cs.contains(r)
            &&& q.strategy is Best ==> forall|k: int| 0 <= k < cs.len() ==> r.persistence.spec_ge(#[trigger] cs[k].persistence)
            &&& q.strategy is Robust ==> forall|k: int| 0 <= k < cs.len() ==> r.noise_tolerance.spec_ge(#[trigger] cs[k].noise_tolerance)
        },
    }
}

proof fn lemma_first_max_ge(s: Seq<SpecResolved>)
    requires
        s.len() > 0,
    ensures
        0 <= first_max(s) < s.len(),
        forall|k: int| 0 <= k < s.len() ==> s[first_max(s)].persistence.spec_ge(#[trigger] s[k].persistence),
    decreases s.len(),
{
    if s.len() > 1 {
        let p = s.drop_last();
        lemma_first_max_ge(p);
        let j = first_max(p);
        let m = first_max(s);
        assert forall|k: int| 0 <= k < s.len() implies s[m].persistence.spec_ge(#[trigger] s[k].persistence) by {
            if k < s.len() - 1 {
                assert(p[k] == s[k]);
                if m != j {
                    lemma_ge_total(s[j].persistence, s.last().persistence);
                    lemma_ge_trans(s.last().persistence, s[j].persistence, s[k].persistence);
                }
            } else {
                lemma_ge_total(s[j].persistence, s.last().persistence);
            }
        }
    }
}

proof fn lemma_last_max_ge(s: Seq<SpecResolved>, noise: bool)
    requires
        s.len() > 0,
    ensures
        0 <= last_max(s, noise) < s.len(),
        forall|k: int| 0 <= k < s.len() ==> key(s[last_max(s, noise)], noise).spec_ge(#[trigger] key(s[k], noise)),
    decreases s.len(),
{
    if s.len() > 1 {
        let p = s.drop_last();
        lemma_last_max_ge(p, noise);
        let j = last_max(p, noise);
        let m = last_max(s, noise);
        assert forall|k: int| 0 <= k < s.len() implies key(s[m], noise).spec_ge(#[trigger] key(s[k], noise)) by {
            lemma_ge_total(key(s[j], noise), key(s.last(), noise));
            if k < s.len() - 1 {
                assert(p[k] == s[k]);
                if m != j {
                    lemma_ge_trans(key(s.last(), noise), key(s[j], noise), key(s[k], noise));
                }
            }
        }
    }
}

proof fn lemma_sort_desc_members(s: Seq<SpecResolved>)
    ensures
        sort_desc(s).len() == s.len(),
        forall|k: int| 0 <= k < s.len() ==> s.contains(#[trigger] sort_desc(s)[k]),
        forall|k: int| 0 <= k < s.len() ==> sort_desc(s).contains(#[trigger] s[k]),
    decreases s.len(),
{
    if s.len() > 0 {
        lemma_first_max_ge(s);
        let i = first_max(s);
        let rest = s.remove(i);
        lemma_sort_desc_members(rest);
        let t = sort_desc(s);
        assert(t == seq![s[i]] + sort_desc(rest));
        assert forall|k: int| 0 <= k < s.len() implies s.contains(#[trigger] t[k]) by {
            if k == 0 {
                assert(t[0] == s[i]);
            } else {
                assert(t[k] == sort_desc(rest)[k - 1]);
                let m = choose|m: int| 0 <= m < rest.len() && rest[m] == sort_desc(rest)[k - 1];
                if m < i {
                    assert(s[m] == rest[m]);
                } else {
                    assert(s[m + 1] == rest[m]);
                }
            }
        }
        assert forall|k: int| 0 <= k < s.len() implies t.contains(#[trigger] s[k]) by {
            if k == i {
                assert(t[0] == s[k]);
            } else {
                let k2 = if k < i { k } else { k - 1 };
                assert(rest[k2] == s[k]);
                let m = choose|m: int| 0 <= m < sort_desc(rest).len() && sort_desc(rest)[m] == rest[k2];
                assert(t[m + 1] == s[k]);
            }
        }
    }
}

/// Candidates are ranked by decreasing persistence before a strategy
/// picks among them: the ranking holds the same candidates, and no
/// candidate is more persistent than one ranked before it.
pub proof fn lemma_ranking_is_by_persistence(s: Seq<SpecResolved>)
    ensures
        sort_desc(s).len() == s.len(),
        forall|k: int| 0 <= k < s.len() ==> s.contains(#[trigger] sort_desc(s)[k]),
        forall|k: int| 0 <= k < s.len() ==> sort_desc(s).contains(#[trigger] s[k]),
        forall|i: int, j: int| 0 <= i < j < s.len() ==>
            (#[trigger] sort_desc(s)[i]).persistence.spec_ge((#[trigger] sort_desc(s)[j]).persistence),
    decreases s.len(),
{
    lemma_sort_desc_members(s);
    if s.len() > 0 {
        lemma_first_max_ge(s);
        let m = first_max(s);
        let rest = s.remove(m);
        lemma_ranking_is_by_persistence(rest);
        let t = sort_desc(s);
        assert(t == seq![s[m]] + sort_desc(rest));
        assert forall|i: int, j: int| 0 <= i < j < s.len() implies
            (#[trigger] t[i]).persistence.spec_ge((#[trigger] t[j]).persistence) by {
            assert(t[j] == sort_desc(rest)[j - 1]);
            if i == 0 {
                let x = sort_desc(rest)[j - 1];
                assert(rest.contains(x));
                let n = choose|n: int| 0 <= n < rest.len() && rest[n] == x;
                if n < m {
                    assert(s[n] == x);
                } else {
                    assert(s[n + 1] == x);
                }
            } else {
                assert(t[i] == sort_desc(rest)[i - 1]);
            }
        }
    }
}

/// Every outcome of resolving one query is a sound pick: one of the
/// answering provider's candidates, of greatest persistence under
/// `best`, of greatest noise tolerance under `robust`.
pub proof fn lemma_resolve_one_sound(ps: Seq<&dyn Provider>, q: SpecQuery, st: SpecState)
    ensures
        sound_pick(ps, q, resolve_one(ps, q, st).resolved),
{
    match find_provider(ps, q.domain) {
        None => {},
        Some(pi) => {
            let s = ps[pi].spec_candidates(q);
            let c = sort_desc(s);
            lemma_sort_desc_members(s);
            let o = resolve_one(ps, q, st);
            if o.resolved is Some && c.len() > 0 {
                let r = o.resolved->0;
                match q.strategy {
                    Strategy::Best => {
                        lemma_first_max_ge(s);
                        assert(c[0] == s[first_max(s)]);
                    },
                    Strategy::Robust => {
                        lemma_last_max_ge(c, true);
                        let m = last_max(c, true);
                        assert(r == c[m]);
                        assert(s.contains(c[m]));
                        assert forall|k: int| 0 <= k < s.len() implies r.noise_tolerance.spec_ge(#[trigger] s[k].noise_tolerance) by {
                            assert(c.contains(s[k]));
                            let n = choose|n: int| 0 <= n < c.len() && c[n] == s[k];
                            assert(key(c[n], true) == s[k].noise_tolerance);
                        }
                    },
                    Strategy::Unique => {
                        lemma_first_unclaimed_is_unclaimed(c, st.claimed);
                        let i = first_unclaimed(c, st.claimed)->0;
                        assert(s.contains(c[i]));
                    },
                    Strategy::Diverse => {
                        let i = (cursor_get(st.cursors, diverse_key(q)) % c.len()) as int;
                        assert(s.contains(c[i]));
                    },
                }
            }
        },
    }
}

proof fn lemma_resolve_leaves_sound(
    ps: Seq<&dyn Provider>,
    ls: Seq<SpecLeaf>,
    i: int,
    st: SpecState,
    ws: Seq<Seq<char>>,
)
    requires
        0 <= i <= ls.len(),
        forall|k: int| 0 <= k < i ==> sound_pick(ps, (#[trigger] ls[k]).query, ls[k].resolved),
    ensures
        forall|k: int| 0 <= k < resolve_leaves(ps, ls, i, st, ws).0.len() ==> sound_pick(
            ps,
            (#[trigger] resolve_leaves(ps, ls, i, st, ws).0[k]).query,
            resolve_leaves(ps, ls, i, st, ws).0[k].resolved,
        ),
    decreases ls.len() - i,
{
    if i < ls.len() {
        let o = resolve_one(ps, ls[i].query, st);
        lemma_resolve_one_sound(ps, ls[i].query, st);
        let ws2 = match o.reason {
            Some(r) => ws.push(ls[i].cell + ": "@ + r),
            None => ws,
        };
        let ls2 = ls.update(i, SpecLeaf { resolved: o.resolved, ..ls[i] });
        assert forall|k: int| 0 <= k < i + 1 implies sound_pick(ps, (#[trigger] ls2[k]).query, ls2[k].resolved) by {
            if k < i {
                assert(ls2[k] == ls[k]);
            }
        }
        lemma_resolve_leaves_sound(ps, ls2, i + 1, o.state, ws2);
    }
}

proof fn lemma_resolve_bridges_sound(
    ps: Seq<&dyn Provider>,
    bs: Seq<SpecBridge>,
    i: int,
    st: SpecState,
    ws: Seq<Seq<char>>,
)
    requires
        0 <= i <= bs.len(),
        forall|k: int| 0 <= k < i ==> sound_pick(ps, (#[trigger] bs[k]).query, bs[k].resolved),
    ensures
        forall|k: int| 0 <= k < resolve_bridges(ps, bs, i, st, ws).0.len() ==> sound_pick(
            ps,
            (#[trigger] resolve_bridges(ps, bs, i, st, ws).0[k]).query,
            resolve_bridges(ps, bs, i, st, ws).0[k].resolved,
        ),
    decreases bs.len() - i,
{
    if i < bs.len() {
        let o = resolve_one(ps, bs[i].query, st);
        lemma_resolve_one_sound(ps, bs[i].query, st);
        let ws2 = match o.reason {
            Some(r) => ws.push("coupling \""@ + bs[i].query.class + "\": "@ + r),
            None => ws,
        };
        let bs2 = bs.update(i, SpecBridge { resolved: o.resolved, ..bs[i] });
        assert forall|k: int| 0 <= k < i + 1 implies sound_pick(ps, (#[trigger] bs2[k]).query, bs2[k].resolved) by {
            if k < i {
                assert(bs2[k] == bs[k]);
            }
        }
        lemma_resolve_bridges_sound(ps, bs2, i + 1, o.state, ws2);
    }
}

/// Resolution only ever chooses what the answering provider offered:
/// every resolved leaf and bridge holds one of the candidates of the
/// provider answering its query's domain; under `best` one of greatest
/// persistence among them, under `robust` one of greatest noise
/// tolerance.
pub proof fn lemma_resolution_picks_soundly(plan: SpecPlan, ps: Seq<&dyn Provider>)
    ensures
        forall|k: int| 0 <= k < spec_resolve_plan(plan, ps).leaves.len() ==> sound_pick(
            ps,
            (#[trigger] spec_resolve_plan(plan, ps).leaves[k]).query,
            spec_resolve_plan(plan, ps).leaves[k].resolved,
        ),
        forall|k: int| 0 <= k < spec_resolve_plan(plan, ps).bridges.len() ==> sound_pick(
            ps,
            (#[trigger] spec_resolve_plan(plan, ps).bridges[k]).query,
            spec_resolve_plan(plan, ps).bridges[k].resolved,
        ),
{
    let empty = SpecState { claimed: seq![], cursors: seq![] };
    lemma_resolve_leaves_sound(ps, plan.leaves, 0, empty, plan.warnings);
    let (ls, st1, ws1) = resolve_leaves(ps, plan.leaves, 0, empty, plan.warnings);
    lemma_resolve_bridges_sound(ps, plan.bridges, 0, st1, ws1);
}

/* ------------------------------ bounded growth ------------------------------ */

/// A freshly grown leaf: its region is reached through one slice per
/// level, it sits no deeper than `MAX_DEPTH`, and nothing is resolved.
pub open spec fn leaf_shape(l: SpecLeaf) -> bool {
    &&& l.slices.len() == l.depth
    &&& l.depth <= MAX_DEPTH
    &&& l.resolved is None
}

/// A freshly grown bridge: it couples slices `pair` and `pair + 1` of a
/// split region reached through one slice per level, above `MAX_DEPTH`,
/// and nothing is resolved.
pub open spec fn bridge_shape(b: SpecBridge) -> bool {
    &&& b.parent.len() == b.depth
    &&& b.depth < MAX_DEPTH
    &&& b.pair + 1 < b.siblings
    &&& b.resolved is None
}

/// Leaves and bridges grown so far, every one of them fresh, and at most
/// `MAX_LEAVES` leaves.
pub open spec fn grown_shape(st: Grown) -> bool {
    &&& st.leaves.len() <= MAX_LEAVES
    &&& forall|k: int| 0 <= k < st.leaves.len() ==> leaf_shape(#[trigger] st.leaves[k])
    &&& forall|k: int| 0 <= k < st.bridges.len() ==> bridge_shape(#[trigger] st.bridges[k])
}

proof fn lemma_instantiate_shape(
    cells: Seq<SpecCellDef>,
    call: SpecCall,
    outer: Env,
    slices: Seq<Slice>,
    depth: nat,
    st: Grown,
)
    requires
        grown_shape(st),
        slices.len() == depth,
    ensures
        instantiate(cells, call, outer, slices, depth, st) matches Ok(st2) ==> grown_shape(st2) && depth <= MAX_DEPTH,
    decreases MAX_DEPTH + 1 - depth, 1int, 0int,
{
    if depth > MAX_DEPTH {
    } else {
        match find_cell(cells, call.cell) {
            None => {},
            Some(def) => {
                if def.params.len() == call.args.len() {
                    match bind(def.params, call.args, outer, def.name, 0, seq![]) {
                        Err(h) => {},
                        Ok(env) => match first_rule(def.rules, env, def.name, 0) {
                            Ok(Some(k)) => match def.rules[k].action {
                                SpecAction::Base(q) => if st.leaves.len() < MAX_LEAVES {
                                    let r = instantiate(cells, call, outer, slices, depth, st);
                                    let l = SpecLeaf {
                                        cell: def.name,
                                        domain: q.domain,
                                        slices,
                                        depth,
                                        query: q,
                                        resolved: None,
                                    };
                                    assert(r == Ok::<Grown, Halt>(Grown { leaves: st.leaves.push(l), bridges: st.bridges }));
                                    let ls = st.leaves.push(l);
                                    assert forall|j: int| 0 <= j < ls.len() implies leaf_shape(#[trigger] ls[j]) by {
                                        if j < st.leaves.len() {
                                            assert(ls[j] == st.leaves[j]);
                                        }
                                    }
                                },
                                SpecAction::Split { children, bridge } => {
                                    lemma_grow_children_shape(cells, children, env, slices, depth, st, 0);
                                    match grow_children(cells, children, env, slices, depth, st, 0) {
                                        Err(h) => {},
                                        Ok(st2) => match bridge {
                                            Some(q) => {
                                                let nb = bridges_for(q, slices, depth, children.len());
                                                let bs = st2.bridges + nb;
                                                assert forall|j: int| 0 <= j < bs.len() implies bridge_shape(#[trigger] bs[j]) by {
                                                    if j < st2.bridges.len() {
                                                        assert(bs[j] == st2.bridges[j]);
                                                    } else {
                                                        assert(bs[j] == nb[j - st2.bridges.len()]);
                                                    }
                                                }
                                            },
                                            None => {},
                                        },
                                    }
                                },
                            },
                            _ => {},
                        },
                    }
                }
            },
        }
    }
}

proof fn lemma_grow_children_shape(
    cells: Seq<SpecCellDef>,
    children: Seq<SpecCall>,
    env: Env,
    slices: Seq<Slice>,
    depth: nat,
    st: Grown,
    i: int,
)
    requires
        grown_shape(st),
        slices.len() == depth,
    ensures
        grow_children(cells, children, env, slices, depth, st, i) matches Ok(st2) ==> {
            &&& grown_shape(st2)
            &&& (0 <= i < children.len() ==> depth + 1 <= MAX_DEPTH)
        },
    decreases MAX_DEPTH + 1 - depth, 0int, children.len() - i,
{
    if i < 0 || i >= children.len() {
    } else if depth > MAX_DEPTH {
    } else {
        let sub = slices.push(Slice { index: i as usize, count: children.len() as usize });
        lemma_instantiate_shape(cells, children[i], env, sub, depth + 1, st);
        match instantiate(cells, children[i], env, sub, depth + 1, st) {
            Ok(st2) => {
                lemma_grow_children_shape(cells, children, env, slices, depth, st2, i + 1);
            },
            Err(h) => {},
        }
    }
}

proof fn lemma_grow_all_shape(cells: Seq<SpecCellDef>, grows: Seq<SpecCall>, i: int, st: Grown)
    requires
        grown_shape(st),
    ensures
        grow_all(cells, grows, i, st) matches Ok(st2) ==> grown_shape(st2),
    decreases grows.len() - i,
{
    if 0 <= i < grows.len() {
        lemma_instantiate_shape(cells, grows[i], seq![], seq![], 0, st);
        match instantiate(cells, grows[i], seq![], seq![], 0, st) {
            Ok(st2) => lemma_grow_all_shape(cells, grows, i + 1, st2),
            Err(h) => {},
        }
    }
}

/// Growth is bounded: in every grown plan, each leaf sits at most
/// `MAX_DEPTH` levels deep, its region reached through one slice per
/// level; each bridge couples consecutive slices of a split above that
/// depth; at most `MAX_LEAVES` leaves are grown; and nothing is resolved
/// yet.
pub proof fn lemma_growth_is_bounded(program: SpecProgram)
    ensures
        spec_grow(program) matches Ok(p) ==> {
            &&& p.leaves.len() <= MAX_LEAVES
            &&& forall|k: int| 0 <= k < p.leaves.len() ==> leaf_shape(#[trigger] p.leaves[k])
            &&& forall|k: int| 0 <= k < p.bridges.len() ==> bridge_shape(#[trigger] p.bridges[k])
        },
{
    let st0 = Grown { leaves: seq![], bridges: seq![] };
    lemma_grow_all_shape(program.cells, program.grows, 0, st0);
}

/* --------------------------- misses become warnings -------------------------- */

/// One resolution gives a component or the reason there is none, never
/// both; a query whose domain no provider answers is never resolved.
pub proof fn lemma_resolve_one_reason(ps: Seq<&dyn Provider>, q: SpecQuery, st: SpecState)
    ensures
        (resolve_one(ps, q, st).resolved is None) == (resolve_one(ps, q, st).reason is Some),
        find_provider(ps, q.domain) is None ==> resolve_one(ps, q, st).resolved is None,
{
}

proof fn lemma_push_keeps(ws: Seq<Seq<char>>, x: Seq<char>, y: Seq<char>)
    requires
        ws.contains(y),
    ensures
        ws.push(x).contains(y),
{
    let k = choose|k: int| 0 <= k < ws.len() && ws[k] == y;
    assert(ws.push(x)[k] == y);
}

proof fn lemma_dedup_keeps(s: Seq<Seq<char>>, x: Seq<char>)
    requires
        s.contains(x),
    ensures
        dedup(s).contains(x),
    decreases s.len(),
{
    if s.len() > 1 {
        let p = s.drop_last();
        if p.contains(x) {
            lemma_dedup_keeps(p, x);
            if s.last() != s[s.len() - 2] {
                lemma_push_keeps(dedup(p), s.last(), x);
            }
        } else {
            assert(s.last() == x) by {
                let k = choose|k: int| 0 <= k < s.len() && s[k] == x;
                if k < s.len() - 1 {
                    assert(p[k] == x);
                }
            }
            if s.last() == s[s.len() - 2] {
                assert(p[p.len() - 1] == x);
            } else {
                let d = dedup(p).push(s.last());
                assert(d[d.len() - 1] == x);
            }
        }
    }
}

/// The warning of a leaf that stayed unresolved: its cell, then why.
pub open spec fn leaf_warned(ws: Seq<Seq<char>>, l: SpecLeaf) -> bool {
    exists|reason: Seq<char>| #[trigger] ws.contains(l.cell + ": "@ + reason)
}

/// The warning of a bridge that stayed unresolved: its coupling class,
/// then why.
pub open spec fn bridge_warned(ws: Seq<Seq<char>>, b: SpecBridge) -> bool {
    exists|reason: Seq<char>| #[trigger] ws.contains("coupling \""@ + b.query.class + "\": "@ + reason)
}

proof fn lemma_warned_kept(ws: Seq<Seq<char>>, x: Seq<char>, l: SpecLeaf, b: SpecBridge)
    ensures
        leaf_warned(ws, l) ==> leaf_warned(ws.push(x), l),
        bridge_warned(ws, b) ==> bridge_warned(ws.push(x), b),
        leaf_warned(ws, l) ==> leaf_warned(dedup(ws), l),
        bridge_warned(ws, b) ==> bridge_warned(dedup(ws), b),
{
    if leaf_warned(ws, l) {
        let r = choose|reason: Seq<char>| #[trigger] ws.contains(l.cell + ": "@ + reason);
        lemma_push_keeps(ws, x, l.cell + ": "@ + r);
        lemma_dedup_keeps(ws, l.cell + ": "@ + r);
    }
    if bridge_warned(ws, b) {
        let r = choose|reason: Seq<char>| #[trigger] ws.contains("coupling \""@ + b.query.class + "\": "@ + reason);
        lemma_push_keeps(ws, x, "coupling \""@ + b.query.class + "\": "@ + r);
        lemma_dedup_keeps(ws, "coupling \""@ + b.query.class + "\": "@ + r);
    }
}

proof fn lemma_resolve_leaves_warns(
    ps: Seq<&dyn Provider>,
    ls: Seq<SpecLeaf>,
    i: int,
    st: SpecState,
    ws: Seq<Seq<char>>,
)
    requires
        0 <= i <= ls.len(),
        forall|k: int| 0 <= k < i ==> (#[trigger] ls[k]).resolved is None ==> leaf_warned(ws, ls[k]),
    ensures
        forall|k: int| 0 <= k < resolve_leaves(ps, ls, i, st, ws).0.len() ==>
            (#[trigger] resolve_leaves(ps, ls, i, st, ws).0[k]).resolved is None
                ==> leaf_warned(resolve_leaves(ps, ls, i, st, ws).2, resolve_leaves(ps, ls, i, st, ws).0[k]),
        forall|w: Seq<char>| ws.contains(w) ==> #[trigger] resolve_leaves(ps, ls, i, st, ws).2.contains(w),
    decreases ls.len() - i,
{
    if i < ls.len() {
        let o = resolve_one(ps, ls[i].query, st);
        lemma_resolve_one_reason(ps, ls[i].query, st);
        let ws2 = match o.reason {
            Some(r) => ws.push(ls[i].cell + ": "@ + r),
            None => ws,
        };
        let ls2 = ls.update(i, SpecLeaf { resolved: o.resolved, ..ls[i] });
        assert forall|k: int| 0 <= k < i + 1 implies (#[trigger] ls2[k]).resolved is None ==> leaf_warned(ws2, ls2[k]) by {
            if k < i {
                assert(ls2[k] == ls[k]);
                if ls[k].resolved is None {
                    if o.reason is Some {
                        lemma_warned_kept(ws, ls[i].cell + ": "@ + o.reason->0, ls[k], arbitrary());
                    }
                }
            } else if o.resolved is None {
                let w = ls[i].cell + ": "@ + o.reason->0;
                assert(ws2[ws.len() as int] == w);
                assert(ws2.contains(ls2[k].cell + ": "@ + o.reason->0));
            }
        }
        lemma_resolve_leaves_warns(ps, ls2, i + 1, o.state, ws2);
        assert forall|w: Seq<char>| ws.contains(w) implies #[trigger] resolve_leaves(ps, ls, i, st, ws).2.contains(w) by {
            if o.reason is Some {
                lemma_push_keeps(ws, ls[i].cell + ": "@ + o.reason->0, w);
            }
        }
    }
}

proof fn lemma_resolve_bridges_warns(
    ps: Seq<&dyn Provider>,
    bs: Seq<SpecBridge>,
    i: int,
    st: SpecState,
    ws: Seq<Seq<char>>,
)
    requires
        0 <= i <= bs.len(),
        forall|k: int| 0 <= k < i ==> (#[trigger] bs[k]).resolved is None ==> bridge_warned(ws, bs[k]),
    ensures
        forall|k: int| 0 <= k < resolve_bridges(ps, bs, i, st, ws).0.len() ==>
            (#[trigger] resolve_bridges(ps, bs, i, st, ws).0[k]).resolved is None
                ==> bridge_warned(resolve_bridges(ps, bs, i, st, ws).2, resolve_bridges(ps, bs, i, st, ws).0[k]),
        forall|w: Seq<char>| ws.contains(w) ==> #[trigger] resolve_bridges(ps, bs, i, st, ws).2.contains(w),
    decreases bs.len() - i,
{
    if i < bs.len() {
        let o = resolve_one(ps, bs[i].query, st);
        lemma_resolve_one_reason(ps, bs[i].query, st);
        let msg = "coupling \""@ + bs[i].query.class + "\": "@ + o.reason->0;
        let ws2 = match o.reason {
            Some(r) => ws.push("coupling \""@ + bs[i].query.class + "\": "@ + r),
            None => ws,
        };
        let bs2 = bs.update(i, SpecBridge { resolved: o.resolved, ..bs[i] });
        assert forall|k: int| 0 <= k < i + 1 implies (#[trigger] bs2[k]).resolved is None ==> bridge_warned(ws2, bs2[k]) by {
            if k < i {
                assert(bs2[k] == bs[k]);
                if bs[k].resolved is None {
                    if o.reason is Some {
                        lemma_warned_kept(ws, msg, arbitrary(), bs[k]);
                    }
                }
            } else if o.resolved is None {
                assert(ws2[ws.len() as int] == msg);
                assert(ws2.contains("coupling \""@ + bs2[k].query.class + "\": "@ + o.reason->0));
            }
        }
        lemma_resolve_bridges_warns(ps, bs2, i + 1, o.state, ws2);
        assert forall|w: Seq<char>| ws.contains(w) implies #[trigger] resolve_bridges(ps, bs, i, st, ws).2.contains(w) by {
            if o.reason is Some {
                lemma_push_keeps(ws, msg, w);
            }
        }
    }
}

/// Misses become warnings, not errors: after resolution, every leaf that
/// stayed unresolved has a warning naming its cell and the reason, and
/// every unresolved bridge one naming its coupling class and the reason.
pub proof fn lemma_misses_are_warned(plan: SpecPlan, ps: Seq<&dyn Provider>)
    ensures
        forall|k: int| 0 <= k < spec_resolve_plan(plan, ps).leaves.len() ==>
            (#[trigger] spec_resolve_plan(plan, ps).leaves[k]).resolved is None
                ==> leaf_warned(spec_resolve_plan(plan, ps).warnings, spec_resolve_plan(plan, ps).leaves[k]),
        forall|k: int| 0 <= k < spec_resolve_plan(plan, ps).bridges.len() ==>
            (#[trigger] spec_resolve_plan(plan, ps).bridges[k]).resolved is None
                ==> bridge_warned(spec_resolve_plan(plan, ps).warnings, spec_resolve_plan(plan, ps).bridges[k]),
{
    let empty = SpecState { claimed: seq![], cursors: seq![] };
    lemma_resolve_leaves_warns(ps, plan.leaves, 0, empty, plan.warnings);
    let (ls, st1, ws1) = resolve_leaves(ps, plan.leaves, 0, empty, plan.warnings);
    lemma_resolve_bridges_warns(ps, plan.bridges, 0, st1, ws1);
    let (bs, st2, ws2) = resolve_bridges(ps, plan.bridges, 0, st1, ws1);
    let r = spec_resolve_plan(plan, ps);
    assert forall|k: int| 0 <= k < r.leaves.len() implies
        (#[trigger] r.leaves[k]).resolved is None ==> leaf_warned(r.warnings, r.leaves[k]) by {
        if r.leaves[k].resolved is None {
            let rs = choose|reason: Seq<char>| #[trigger] ws1.contains(ls[k].cell + ": "@ + reason);
            assert(ws2.contains(ls[k].cell + ": "@ + rs));
            lemma_warned_kept(ws2, seq![], ls[k], arbitrary());
        }
    }
    assert forall|k: int| 0 <= k < r.bridges.len() implies
        (#[trigger] r.bridges[k]).resolved is None ==> bridge_warned(r.warnings, r.bridges[k]) by {
        if r.bridges[k].resolved is None {
            lemma_warned_kept(ws2, seq![], arbitrary(), bs[k]);
        }
    }
}

/// Repeated warnings are collapsed: after resolution no warning directly
/// follows an identical one.
pub proof fn lemma_no_repeated_warnings(plan: SpecPlan, ps: Seq<&dyn Provider>)
    ensures
        forall|i: int| 0 <= i < spec_resolve_plan(plan, ps).warnings.len() - 1 ==>
            #[trigger] spec_resolve_plan(plan, ps).warnings[i] != spec_resolve_plan(plan, ps).warnings[i + 1],
{
    let empty = SpecState { claimed: seq![], cursors: seq![] };
    let (ls, st1, ws1) = resolve_leaves(ps, plan.leaves, 0, empty, plan.warnings);
    let (bs, st2, ws2) = resolve_bridges(ps, plan.bridges, 0, st1, ws1);
    lemma_dedup_no_repeats(ws2);
}

proof fn lemma_dedup_no_repeats(s: Seq<Seq<char>>)
    ensures
        forall|i: int| 0 <= i < dedup(s).len() - 1 ==> #[trigger] dedup(s)[i] != dedup(s)[i + 1],
        s.len() > 0 ==> dedup(s).len() > 0 && dedup(s).last() == s.last(),
    decreases s.len(),
{
    if s.len() > 1 {
        let p = s.drop_last();
        lemma_dedup_no_repeats(p);
        let d = dedup(p);
        if s.last() != s[s.len() - 2] {
            let e = d.push(s.last());
            assert(d.last() == p.last());
            assert forall|i: int| 0 <= i < e.len() - 1 implies #[trigger] e[i] != e[i + 1] by {
                if i < d.len() - 1 {
                    assert(e[i] == d[i] && e[i + 1] == d[i + 1]);
                } else {
                    assert(e[i] == d.last());
                }
            }
        }
    }
}

/// Floors are never weakened: a query that sets an evidence or
/// capability floor is not resolved by a provider that cannot evaluate
/// them; it stays unresolved with the reason.
pub proof fn lemma_floors_are_never_weakened(ps: Seq<&dyn Provider>, q: SpecQuery, st: SpecState)
    ensures
        ({
            let o = resolve_one(ps, q, st);
            find_provider(ps, q.domain) matches Some(pi) && has_evidence_floors(q)
                && !ps[pi].spec_supports_evidence_floors() ==> o.resolved is None && o.reason is Some
        }),
{
}

/* ------------------------------ offers meet queries ------------------------- */

/// Whether a resolution meets a query: the same normalized class, both
/// numeric floors, the evidence floor, a passed record of the required
/// capability, and the material when the query names one.
pub open spec fn meets(r: SpecResolved, q: SpecQuery) -> bool {
    satisfies(r.class, r.persistence, r.noise_tolerance, r.material, r.evidence_level, r.capabilities, q)
}

proof fn lemma_row_candidates_meet(rows: Seq<SpecPrimitive>, q: SpecQuery)
    ensures
        forall|k: int| 0 <= k < row_candidates(rows, q).len() ==> meets(#[trigger] row_candidates(rows, q)[k], q),
    decreases rows.len(),
{
    if rows.len() > 0 {
        lemma_row_candidates_meet(rows.drop_last(), q);
        let rest = row_candidates(rows.drop_last(), q);
        let all = row_candidates(rows, q);
        assert forall|k: int| 0 <= k < all.len() implies meets(#[trigger] all[k], q) by {
            if k < rest.len() {
                assert(all[k] == rest[k]);
            }
        }
    }
}

proof fn lemma_fixture_candidates_meet(cs: Seq<SpecResolved>, q: SpecQuery)
    ensures
        forall|k: int| 0 <= k < fixture_candidates(cs, q).len() ==> meets(#[trigger] fixture_candidates(cs, q)[k], q),
    decreases cs.len(),
{
    if cs.len() > 0 {
        lemma_fixture_candidates_meet(cs.drop_last(), q);
        let rest = fixture_candidates(cs.drop_last(), q);
        let all = fixture_candidates(cs, q);
        assert forall|k: int| 0 <= k < all.len() implies meets(#[trigger] all[k], q) by {
            if k < rest.len() {
                assert(all[k] == rest[k]);
            }
        }
    }
}

/// The floors are honored: whatever the Crystal registry or a fixture
/// offers for a query meets it (same normalized class, persistence and
/// noise tolerance at least the floors, an evidence level at least the
/// evidence floor, with a row that records none counting as Observed, a
/// passed record of the required capability, the named material), so
/// every component resolved from them does.
pub proof fn lemma_offers_meet_the_query(registry: Registry, fixture: FixtureProvider, q: SpecQuery)
    ensures
        forall|k: int| 0 <= k < registry.spec_candidates(q).len() ==> meets(#[trigger] registry.spec_candidates(q)[k], q),
        forall|k: int| 0 <= k < fixture.spec_candidates(q).len() ==> meets(#[trigger] fixture.spec_candidates(q)[k], q),
{
    lemma_row_candidates_meet(registry.rows(), q);
    lemma_fixture_candidates_meet(resolved_view(fixture.components@), q);
}

/* ------------------------------ disjoint regions ----------------------------- */

/// Whether every split of every rule of the cells has at most
/// `usize::MAX` children (true of every parsed program).
pub open spec fn splits_fit(cells: Seq<SpecCellDef>) -> bool {
    forall|c: int, r: int| 0 <= c < cells.len() && 0 <= r < cells[c].rules.len() ==>
        ((#[trigger] cells[c].rules[r]).action matches SpecAction::Split { children, .. } ==> children.len() <= usize::MAX)
}

/// Whether the path `b` passes through `a`.
pub open spec fn extends(b: Seq<Slice>, a: Seq<Slice>) -> bool {
    a.len() <= b.len() && b.take(a.len() as int) == a
}

/// Whether two slice paths part: below a common stretch, they take
/// different slices of the same split, so the regions they reach are
/// disjoint.
pub open spec fn part(a: Seq<Slice>, b: Seq<Slice>) -> bool {
    exists|d: int| 0 <= d < a.len() && d < b.len() && #[trigger] a.take(d) == b.take(d)
        && a[d].count == b[d].count && a[d].index != b[d].index
}

proof fn lemma_program_splits_fit(program: Program)
    ensures
        splits_fit(program@.cells),
{
    let cells = program@.cells;
    assert forall|c: int, r: int| 0 <= c < cells.len() && 0 <= r < cells[c].rules.len() implies
        ((#[trigger] cells[c].rules[r]).action matches SpecAction::Split { children, .. } ==> children.len() <= usize::MAX) by {
        let cell = program.cells@[c];
        let rule = cell.rules@[r];
        assert(cells[c].rules[r] == rule@);
        match rule.action {
            Action::Split { children, bridge } => {
                vstd::std_specs::vec::axiom_spec_len(&children);
            },
            Action::Base(q) => {},
        }
    }
}

proof fn lemma_find_cell_member(cells: Seq<SpecCellDef>, name: Seq<char>)
    ensures
        find_cell(cells, name) matches Some(def) ==> exists|c: int| 0 <= c < cells.len() && #[trigger] cells[c] == def,
    decreases cells.len(),
{
    if cells.len() > 0 {
        lemma_find_cell_member(cells.drop_last(), name);
        if cells.last().name == name {
            assert(cells[cells.len() - 1] == cells.last());
        } else if find_cell(cells.drop_last(), name) is Some {
            let def = find_cell(cells.drop_last(), name)->0;
            let c = choose|c: int| 0 <= c < cells.drop_last().len() && #[trigger] cells.drop_last()[c] == def;
            assert(cells[c] == def);
        }
    }
}

/// What one growth step adds: the leaves grown so far stay as they
/// were, and the new ones all pass through `slices` and pairwise part.
pub open spec fn grew_within(st: Grown, st2: Grown, slices: Seq<Slice>) -> bool {
    &&& st.leaves.len() <= st2.leaves.len()
    &&& st2.leaves.take(st.leaves.len() as int) == st.leaves
    &&& forall|k: int| st.leaves.len() <= k < st2.leaves.len() ==> extends((#[trigger] st2.leaves[k]).slices, slices)
    &&& forall|a: int, b: int| st.leaves.len() <= a < b < st2.leaves.len() ==>
        part((#[trigger] st2.leaves[a]).slices, (#[trigger] st2.leaves[b]).slices)
}

proof fn lemma_part_through_slices(a: Seq<Slice>, b: Seq<Slice>, p: Seq<Slice>, sa: Slice, sb: Slice)
    requires
        extends(a, p.push(sa)),
        extends(b, p.push(sb)),
        sa.count == sb.count,
        sa.index != sb.index,
    ensures
        part(a, b),
{
    let d = p.len() as int;
    assert(a.take(d) == p) by {
        assert(a.take(d) == a.take(d + 1).take(d));
        assert(p.push(sa).take(d) == p);
    }
    assert(b.take(d) == p) by {
        assert(b.take(d) == b.take(d + 1).take(d));
        assert(p.push(sb).take(d) == p);
    }
    assert(a[d] == a.take(d + 1)[d]);
    assert(b[d] == b.take(d + 1)[d]);
    assert(a.take(d) == b.take(d));
}

proof fn lemma_instantiate_disjoint(
    cells: Seq<SpecCellDef>,
    call: SpecCall,
    outer: Env,
    slices: Seq<Slice>,
    depth: nat,
    st: Grown,
)
    requires
        splits_fit(cells),
    ensures
        instantiate(cells, call, outer, slices, depth, st) matches Ok(st2) ==> grew_within(st, st2, slices),
    decreases MAX_DEPTH + 1 - depth, 1int, 0int,
{
    if depth > MAX_DEPTH {
    } else {
        lemma_find_cell_member(cells, call.cell);
        match find_cell(cells, call.cell) {
            None => {},
            Some(def) => {
                if def.params.len() == call.args.len() {
                    match bind(def.params, call.args, outer, def.name, 0, seq![]) {
                        Err(h) => {},
                        Ok(env) => match first_rule(def.rules, env, def.name, 0) {
                            Ok(Some(k)) => {
                                lemma_first_rule_range(def.rules, env, def.name, 0);
                                match def.rules[k].action {
                                    SpecAction::Base(q) => {
                                        let l = SpecLeaf {
                                            cell: def.name,
                                            domain: q.domain,
                                            slices,
                                            depth,
                                            query: q,
                                            resolved: None,
                                        };
                                        let ls = st.leaves.push(l);
                                        assert(ls.take(st.leaves.len() as int) == st.leaves);
                                        assert(ls[st.leaves.len() as int].slices.take(slices.len() as int) == slices);
                                    },
                                    SpecAction::Split { children, bridge } => {
                                        let c = choose|c: int| 0 <= c < cells.len() && #[trigger] cells[c] == def;
                                        assert(cells[c].rules[k] == def.rules[k]);
                                        lemma_grow_children_disjoint(cells, children, env, slices, depth, st, 0);
                                    },
                                }
                            },
                            _ => {},
                        },
                    }
                }
            },
        }
    }
}

proof fn lemma_first_rule_range(rules: Seq<crate::syntax::SpecRule>, env: Env, cell: Seq<char>, k: int)
    ensures
        first_rule(rules, env, cell, k) matches Ok(Some(j)) ==> 0 <= k <= j < rules.len(),
    decreases rules.len() - k,
{
    if 0 <= k < rules.len() {
        lemma_first_rule_range(rules, env, cell, k + 1);
    }
}

proof fn lemma_grow_children_disjoint(
    cells: Seq<SpecCellDef>,
    children: Seq<SpecCall>,
    env: Env,
    slices: Seq<Slice>,
    depth: nat,
    st: Grown,
    i: int,
)
    requires
        splits_fit(cells),
        children.len() <= usize::MAX,
        0 <= i,
    ensures
        grow_children(cells, children, env, slices, depth, st, i) matches Ok(st2) ==> {
            &&& grew_within(st, st2, slices)
            &&& forall|k: int| st.leaves.len() <= k < st2.leaves.len() ==> {
                let s = (#[trigger] st2.leaves[k]).slices;
                &&& slices.len() < s.len()
                &&& s[slices.len() as int].count == children.len() as usize
                &&& i <= s[slices.len() as int].index < children.len()
            }
        },
    decreases MAX_DEPTH + 1 - depth, 0int, children.len() - i,
{
    if i >= children.len() {
        assert(st.leaves.take(st.leaves.len() as int) == st.leaves);
    } else if depth > MAX_DEPTH {
    } else {
        let sub = slices.push(Slice { index: i as usize, count: children.len() as usize });
        lemma_instantiate_disjoint(cells, children[i], env, sub, depth + 1, st);
        match instantiate(cells, children[i], env, sub, depth + 1, st) {
            Ok(st1) => {
                lemma_grow_children_disjoint(cells, children, env, slices, depth, st1, i + 1);
                match grow_children(cells, children, env, slices, depth, st1, i + 1) {
                    Ok(st2) => {
                        let n0 = st.leaves.len() as int;
                        let n1 = st1.leaves.len() as int;
                        let p = slices.len() as int;
                        assert(st2.leaves.take(n0) == st.leaves) by {
                            assert(st2.leaves.take(n0) == st2.leaves.take(n1).take(n0));
                        }
                        assert forall|k: int| n0 <= k < n1 implies st2.leaves[k] == st1.leaves[k] by {
                            assert(st2.leaves.take(n1)[k] == st2.leaves[k]);
                        }
                        assert forall|k: int| n0 <= k < n1 implies {
                            let s = (#[trigger] st2.leaves[k]).slices;
                            &&& extends(s, slices)
                            &&& p < s.len()
                            &&& s[p].count == children.len() as usize
                            &&& s[p].index == i as usize
                        } by {
                            let s = st1.leaves[k].slices;
                            assert(s.take(p + 1) == sub);
                            assert(s[p] == s.take(p + 1)[p]);
                            assert(s.take(p) == s.take(p + 1).take(p));
                            assert(sub.take(p) == slices);
                        }
                        assert forall|a: int, b: int| n0 <= a < b < st2.leaves.len() implies
                            part((#[trigger] st2.leaves[a]).slices, (#[trigger] st2.leaves[b]).slices) by {
                            if b < n1 {
                                assert(st2.leaves[a] == st1.leaves[a]);
                                assert(st2.leaves[b] == st1.leaves[b]);
                            } else if a >= n1 {
                            } else {
                                let sa = st2.leaves[a].slices;
                                let sb = st2.leaves[b].slices;
                                let xa = sa[p];
                                let xb = sb[p];
                                assert(xa.index == i as usize);
                                assert(i + 1 <= xb.index);
                                assert(sa.take(p + 1) == slices.push(xa)) by {
                                    assert(sa.take(p + 1) =~= sa.take(p).push(sa[p]));
                                }
                                assert(sb.take(p + 1) == slices.push(xb)) by {
                                    assert(sb.take(p + 1) =~= sb.take(p).push(sb[p]));
                                }
                                lemma_part_through_slices(sa, sb, slices, xa, xb);
                            }
                        }
                    },
                    Err(h) => {},
                }
            },
            Err(h) => {},
        }
    }
}

/// The leaves of one growth claim disjoint regions: in the plan grown
/// from a program with a single `grow` statement, any two leaves' slice
/// paths part (below a common stretch they take different slices of the
/// same split).
pub proof fn lemma_leaves_do_not_overlap(program: Program)
    requires
        program@.grows.len() == 1,
    ensures
        spec_grow(program@) matches Ok(p) ==> forall|a: int, b: int| 0 <= a < b < p.leaves.len() ==>
            part((#[trigger] p.leaves[a]).slices, (#[trigger] p.leaves[b]).slices),
{
    let prog = program@;
    lemma_program_splits_fit(program);
    let st0 = Grown { leaves: seq![], bridges: seq![] };
    lemma_instantiate_disjoint(prog.cells, prog.grows[0], seq![], seq![], 0, st0);
    match instantiate(prog.cells, prog.grows[0], seq![], seq![], 0, st0) {
        Ok(st1) => {
            assert(grow_all(prog.cells, prog.grows, 1, st1) == Ok::<Grown, Halt>(st1));
        },
        Err(h) => {},
    }
}

/* ------------------------------ round-robin cursors -------------------------- */

proof fn lemma_cursor_index_first(cs: Seq<(Seq<char>, nat)>, key: Seq<char>)
    ensures
        cursor_index(cs, key) matches Some(i) ==> 0 <= i < cs.len() && cs[i].0 == key
            && forall|j: int| 0 <= j < i ==> (#[trigger] cs[j]).0 != key,
        cursor_index(cs, key) is None ==> forall|j: int| 0 <= j < cs.len() ==> (#[trigger] cs[j]).0 != key,
    decreases cs.len(),
{
    if cs.len() > 0 {
        let p = cs.drop_last();
        lemma_cursor_index_first(p, key);
        match cursor_index(p, key) {
            Some(i) => {
                assert(p[i] == cs[i]);
                assert forall|j: int| 0 <= j < i implies (#[trigger] cs[j]).0 != key by {
                    assert(p[j] == cs[j]);
                }
            },
            None => {
                assert forall|j: int| 0 <= j < cs.len() - 1 implies (#[trigger] cs[j]).0 != key by {
                    assert(p[j] == cs[j]);
                }
                if cs.last().0 == key {
                    assert(cs[cs.len() - 1] == cs.last());
                } else {
                    assert forall|j: int| 0 <= j < cs.len() implies (#[trigger] cs[j]).0 != key by {
                        if j < cs.len() - 1 {
                            assert(p[j] == cs[j]);
                        } else {
                            assert(cs[j] == cs.last());
                        }
                    }
                }
            },
        }
    }
}

proof fn lemma_cursor_index_same_keys(a: Seq<(Seq<char>, nat)>, b: Seq<(Seq<char>, nat)>, key: Seq<char>)
    requires
        a.len() == b.len(),
        forall|j: int| 0 <= j < a.len() ==> (#[trigger] a[j]).0 == b[j].0,
    ensures
        cursor_index(a, key) == cursor_index(b, key),
    decreases a.len(),
{
    if a.len() > 0 {
        lemma_cursor_index_same_keys(a.drop_last(), b.drop_last(), key);
        assert(a.last().0 == b.last().0) by {
            assert(a[a.len() - 1].0 == b[a.len() - 1].0);
        }
    }
}

/// The cursors behave as a map from keys: setting one key's cursor
/// changes what that key reads and nothing else.
pub proof fn lemma_cursor_set_get(cs: Seq<(Seq<char>, nat)>, key: Seq<char>, v: nat, other: Seq<char>)
    ensures
        cursor_get(cursor_set(cs, key, v), key) == v,
        other != key ==> cursor_get(cursor_set(cs, key, v), other) == cursor_get(cs, other),
{
    lemma_cursor_index_first(cs, key);
    lemma_cursor_index_first(cs, other);
    match cursor_index(cs, key) {
        Some(i) => {
            let u = cs.update(i, (key, v));
            lemma_cursor_index_same_keys(cs, u, key);
            lemma_cursor_index_same_keys(cs, u, other);
            if other != key {
                match cursor_index(cs, other) {
                    Some(j) => {
                        assert(j != i);
                        assert(u[j] == cs[j]);
                    },
                    None => {},
                }
            }
        },
        None => {
            let u = cs.push((key, v));
            assert(u.drop_last() == cs);
            assert(u[cs.len() as int] == (key, v));
            if other != key {
                match cursor_index(cs, other) {
                    Some(j) => {
                        assert(u[j] == cs[j]);
                    },
                    None => {},
                }
            }
        },
    }
}

/// The ranked candidates a query's strategy picks among.
pub open spec fn ranking(ps: Seq<&dyn Provider>, q: SpecQuery) -> Seq<SpecResolved> {
    sort_desc(answering_candidates(ps, q))
}

/// The diverse strategy walks the ranking round-robin: a diverse
/// resolution that finds candidates takes the one at its key's cursor
/// (modulo their number) and advances that cursor by one, leaving every
/// other key's cursor and the claims as they were; no other strategy
/// moves a cursor.
pub proof fn lemma_diverse_round_robin(ps: Seq<&dyn Provider>, q: SpecQuery, st: SpecState, other: Seq<char>)
    ensures
        ({
            let o = resolve_one(ps, q, st);
            let key = diverse_key(q);
            let cur = cursor_get(st.cursors, key);
            &&& q.strategy is Diverse && o.resolved is Some ==> {
                &&& o.resolved == Some(ranking(ps, q)[(cur % ranking(ps, q).len()) as int])
                &&& cursor_get(o.state.cursors, key) == cur + 1
                &&& (other != key ==> cursor_get(o.state.cursors, other) == cursor_get(st.cursors, other))
                &&& o.state.claimed == st.claimed
            }
            &&& !(q.strategy is Diverse) ==> o.state.cursors == st.cursors
        }),
{
    let key = diverse_key(q);
    let cur = cursor_get(st.cursors, key);
    lemma_cursor_set_get(st.cursors, key, cur + 1, other);
}

} // verus!
