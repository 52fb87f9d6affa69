//! Resolution of component queries against providers.
//!
//! KannakaHDL never invents structures: every `base` query resolves to a
//! component that a provider actually holds, or stays unresolved with an
//! honest warning.

use vstd::prelude::*;
use crate::number::Decimal;
use crate::syntax::{Query, SpecQuery, Strategy, opt_view};
use crate::grow::{Plan, SpecPlan, SpecLeaf, SpecBridge, Leaf, Bridge, DOMAIN_CRYSTAL, leaves_view, bridges_view, snapshots_view};
use crate::syntax::strings_view;
use crate::text::{is_alnum, lower_of};

verus! {

/// The provider identifier the Crystal registry answers as.
pub const PROVIDER_CRYSTAL: &'static str = "crystal-registry";

/// The provider identifier fixtures answer as.
pub const PROVIDER_FIXTURE: &'static str = "fixture";

/// What a resolved query carries into the plan.
#[derive(Debug, Clone)]
pub struct Resolved {
    pub provider: &'static str,
    pub id: String,
    pub class: String,
    pub persistence: Decimal,
    pub noise_tolerance: Decimal,
    pub material: String,
    /// The component's level on the evidence ladder, 0 to 8.
    pub evidence_level: u8,
    /// The behavioral contracts the component holds a passed record of.
    pub capabilities: Vec<String>,
}

/// The view of a `Resolved`.
pub struct SpecResolved {
    pub provider: Seq<char>,
    pub id: Seq<char>,
    pub class: Seq<char>,
    pub persistence: Decimal,
    pub noise_tolerance: Decimal,
    pub material: Seq<char>,
    pub evidence_level: u8,
    pub capabilities: Seq<Seq<char>>,
}

impl View for Resolved {
    type V = SpecResolved;

    open spec fn view(&self) -> SpecResolved {
        SpecResolved {
            provider: self.provider@,
            id: self.id@,
            class: self.class@,
            persistence: self.persistence,
            noise_tolerance: self.noise_tolerance,
            material: self.material@,
            evidence_level: self.evidence_level,
            capabilities: strings_view(self.capabilities@),
        }
    }
}

/// The names of the behavioral-capability records, given as
/// `(name, status)`, whose status is a pass (`passed`, in any ASCII
/// case), in order; recorded-but-failed records never count.
pub open spec fn passed_names(records: Seq<(Seq<char>, Seq<char>)>) -> Seq<Seq<char>>
    decreases records.len(),
{
    if records.len() == 0 {
        seq![]
    } else {
        let before = passed_names(records.drop_last());
        if crate::text::eq_ignore_ascii_case(records.last().1, "passed"@) {
            before.push(records.last().0)
        } else {
            before
        }
    }
}

/// The contracts a row holds a passed record of (`passed_names`), from
/// its `(name, status)` capability records.
pub fn passed_capabilities(records: &Vec<(String, String)>) -> (r: Vec<String>)
    ensures
        strings_view(r@) == passed_names(records@.map_values(|e: (String, String)| (e.0@, e.1@))),
{
    let ghost rs = records@.map_values(|e: (String, String)| (e.0@, e.1@));
    let mut out: Vec<String> = Vec::new();
    let mut i: usize = 0;
    while i < records.len()
        invariant
            i <= records@.len(),
            rs == records@.map_values(|e: (String, String)| (e.0@, e.1@)),
            strings_view(out@) == passed_names(rs.take(i as int)),
        decreases records@.len() - i,
    {
        assert(rs.take(i + 1).drop_last() == rs.take(i as int));
        assert(rs.take(i + 1).last() == (records@[i as int].0@, records@[i as int].1@));
        if crate::text::same_ignoring_ascii_case(records[i].1.as_str(), "passed") {
            let ghost before = out@;
            out.push(records[i].0.clone());
            assert(strings_view(out@) == strings_view(before).push(records@[i as int].0@));
        }
        i = i + 1;
    }
    assert(rs.take(rs.len() as int) == rs);
    out
}

/// A copy of a list of strings.
pub fn copy_strings(v: &Vec<String>) -> (r: Vec<String>)
    ensures
        strings_view(r@) == strings_view(v@),
{
    let mut out: Vec<String> = Vec::new();
    let mut i: usize = 0;
    while i < v.len()
        invariant
            i <= v@.len(),
            strings_view(out@) == strings_view(v@).take(i as int),
        decreases v@.len() - i,
    {
        let ghost before = out@;
        out.push(v[i].clone());
        assert(strings_view(out@) == strings_view(before).push(v@[i as int]@));
        assert(strings_view(v@).take(i + 1) == strings_view(v@).take(i as int).push(v@[i as int]@));
        i = i + 1;
    }
    assert(strings_view(v@).take(v@.len() as int) == strings_view(v@));
    out
}

impl Resolved {
    /// A copy with the same view.
    pub fn duplicate(&self) -> (r: Resolved)
        ensures
            r@ == self@,
    {
        Resolved {
            provider: self.provider,
            id: self.id.clone(),
            class: self.class.clone(),
            persistence: self.persistence,
            noise_tolerance: self.noise_tolerance,
            material: self.material.clone(),
            evidence_level: self.evidence_level,
            capabilities: copy_strings(&self.capabilities),
        }
    }
}

/// The view of an optional resolution.
pub open spec fn opt_resolved_view(o: Option<Resolved>) -> Option<SpecResolved> {
    match o {
        Some(r) => Some(r@),
        None => None,
    }
}

/// A record of which registry resolution consulted.
#[derive(Debug, Clone)]
pub struct RegistrySnapshot {
    pub provider: &'static str,
    pub domain: &'static str,
    pub source: String,
    pub primitives: usize,
}

/// The view of a `RegistrySnapshot`.
pub struct SpecSnapshot {
    pub provider: Seq<char>,
    pub domain: Seq<char>,
    pub source: Seq<char>,
    pub primitives: nat,
}

impl View for RegistrySnapshot {
    type V = SpecSnapshot;

    open spec fn view(&self) -> SpecSnapshot {
        SpecSnapshot {
            provider: self.provider@,
            domain: self.domain@,
            source: self.source@,
            primitives: self.primitives as nat,
        }
    }
}

/// Resolution outcome counts, recorded in the plan.
#[derive(Debug, Clone, Copy, PartialEq, Eq, Structural)]
pub struct ResolutionReport {
    pub leaves_total: usize,
    pub leaves_resolved: usize,
    pub bridges_total: usize,
    pub bridges_resolved: usize,
}


/// A registry row: a primitive a swarm discovered.
#[derive(Debug, Clone)]
pub struct Primitive {
    pub id: String,
    /// Serialized class name, e.g. `StandingEcho`; compared with query
    /// classes like "Standing Echo" after normalization.
    pub class: String,
    pub persistence: Decimal,
    pub noise_tolerance: Decimal,
    pub material_id: String,
    /// The row's level on the evidence ladder; rows that record none are
    /// Observed (level 1).
    pub evidence_level: Option<u8>,
    /// The behavioral contracts the row holds a passed record of.
    pub capabilities: Vec<String>,
}

/// The view of a `Primitive`.
pub struct SpecPrimitive {
    pub id: Seq<char>,
    pub class: Seq<char>,
    pub persistence: Decimal,
    pub noise_tolerance: Decimal,
    pub material_id: Seq<char>,
    pub evidence_level: Option<u8>,
    pub capabilities: Seq<Seq<char>>,
}

impl View for Primitive {
    type V = SpecPrimitive;

    open spec fn view(&self) -> SpecPrimitive {
        SpecPrimitive {
            id: self.id@,
            class: self.class@,
            persistence: self.persistence,
            noise_tolerance: self.noise_tolerance,
            material_id: self.material_id@,
            evidence_level: self.evidence_level,
            capabilities: strings_view(self.capabilities@),
        }
    }
}

/// The evidence level a row stands at: its recorded level, or Observed
/// (1) when it records none.
pub open spec fn row_evidence(level: Option<u8>) -> u8 {
    match level {
        Some(l) => l,
        None => 1,
    }
}

/// The views of a sequence of primitives.
pub open spec fn primitives_view(v: Seq<Primitive>) -> Seq<SpecPrimitive> {
    v.map_values(|p: Primitive| p@)
}

/// The views of a sequence of resolutions.
pub open spec fn resolved_view(v: Seq<Resolved>) -> Seq<SpecResolved> {
    v.map_values(|r: Resolved| r@)
}

/// A class name reduced to what identifies it: its alphanumeric
/// characters, lowercased ("Memory Seed", `memory_seed` and `MemorySeed`
/// all become `memoryseed`).
pub open spec fn normalized(s: Seq<char>) -> Seq<char>
    decreases s.len(),
{
    if s.len() == 0 {
        seq![]
    } else {
        normalized(s.drop_last()) + if is_alnum(s.last()) {
            lower_of(s.last())
        } else {
            seq![]
        }
    }
}

/// Whether a component of `material` satisfies the material requirement.
pub open spec fn material_ok(want: Option<Seq<char>>, material: Seq<char>) -> bool {
    match want {
        Some(m) => material == m,
        None => true,
    }
}

/// Whether a component holding passed records of `capabilities` meets
/// the capability requirement.
pub open spec fn capability_ok(want: Option<Seq<char>>, capabilities: Seq<Seq<char>>) -> bool {
    match want {
        Some(k) => capabilities.contains(k),
        None => true,
    }
}

/// Whether a component satisfies a query: same normalized class, both
/// numeric floors met, at or above the evidence floor, a passed record
/// of the required capability, and the material when one is named.
pub open spec fn satisfies(
    class: Seq<char>,
    persistence: Decimal,
    noise_tolerance: Decimal,
    material: Seq<char>,
    evidence_level: u8,
    capabilities: Seq<Seq<char>>,
    q: SpecQuery,
) -> bool {
    &&& normalized(class) == normalized(q.class)
    &&& persistence.spec_ge(q.min_persistence)
    &&& noise_tolerance.spec_ge(q.min_noise_tolerance)
    &&& evidence_level >= q.min_evidence
    &&& capability_ok(q.capability, capabilities)
    &&& material_ok(q.material, material)
}

/// Whether a query sets an evidence or capability floor.
pub open spec fn has_evidence_floors(q: SpecQuery) -> bool {
    q.min_evidence > 0 || q.capability is Some
}

/// A registry row as the resolution it answers with.
pub open spec fn row_resolved(p: SpecPrimitive) -> SpecResolved {
    SpecResolved {
        provider: PROVIDER_CRYSTAL@,
        id: p.id,
        class: p.class,
        persistence: p.persistence,
        noise_tolerance: p.noise_tolerance,
        material: p.material_id,
        evidence_level: row_evidence(p.evidence_level),
        capabilities: p.capabilities,
    }
}

/// The rows that satisfy `q`, in registry order, as resolutions.
pub open spec fn row_candidates(rows: Seq<SpecPrimitive>, q: SpecQuery) -> Seq<SpecResolved>
    decreases rows.len(),
{
    if rows.len() == 0 {
        seq![]
    } else {
        let rest = row_candidates(rows.drop_last(), q);
        let p = rows.last();
        if satisfies(p.class, p.persistence, p.noise_tolerance, p.material_id, row_evidence(p.evidence_level), p.capabilities, q) {
            rest.push(row_resolved(p))
        } else {
            rest
        }
    }
}

/// The fixture components that satisfy `q`, in order, answering as the
/// fixture provider.
pub open spec fn fixture_candidates(cs: Seq<SpecResolved>, q: SpecQuery) -> Seq<SpecResolved>
    decreases cs.len(),
{
    if cs.len() == 0 {
        seq![]
    } else {
        let rest = fixture_candidates(cs.drop_last(), q);
        let c = cs.last();
        if satisfies(c.class, c.persistence, c.noise_tolerance, c.material, c.evidence_level, c.capabilities, q) {
            rest.push(SpecResolved { provider: PROVIDER_FIXTURE@, ..c })
        } else {
            rest
        }
    }
}

/// The persistence of a resolution, or its noise tolerance when `noise`.
pub open spec fn key(r: SpecResolved, noise: bool) -> Decimal {
    if noise {
        r.noise_tolerance
    } else {
        r.persistence
    }
}

/// The index of the last element with the greatest key (what
/// `Iterator::max_by` picks); 0 for an empty sequence.
pub open spec fn last_max(s: Seq<SpecResolved>, noise: bool) -> int
    decreases s.len(),
{
    if s.len() <= 1 {
        0
    } else {
        let j = last_max(s.drop_last(), noise);
        if key(s.last(), noise).spec_ge(key(s[j], noise)) {
            s.len() - 1
        } else {
            j
        }
    }
}

/// The index of the first element with the greatest persistence; 0 for
/// an empty sequence.
pub open spec fn first_max(s: Seq<SpecResolved>) -> int
    decreases s.len(),
{
    if s.len() <= 1 {
        0
    } else {
        let j = first_max(s.drop_last());
        if s[j].persistence.spec_ge(s.last().persistence) {
            j
        } else {
            s.len() - 1
        }
    }
}

pub proof fn lemma_first_max_range(s: Seq<SpecResolved>)
    ensures
        s.len() > 0 ==> 0 <= first_max(s) < s.len(),
    decreases s.len(),
{
    if s.len() > 1 {
        lemma_first_max_range(s.drop_last());
    }
}

pub proof fn lemma_last_max_range(s: Seq<SpecResolved>, noise: bool)
    ensures
        s.len() > 0 ==> 0 <= last_max(s, noise) < s.len(),
    decreases s.len(),
{
    if s.len() > 1 {
        lemma_last_max_range(s.drop_last(), noise);
    }
}

/// The sequence in order of decreasing persistence, equal persistence
/// keeping its order: the first of the greatest, then the rest sorted.
pub open spec fn sort_desc(s: Seq<SpecResolved>) -> Seq<SpecResolved>
    decreases s.len(),
{
    if s.len() == 0 {
        seq![]
    } else {
        proof {
            lemma_first_max_range(s);
        }
        let i = first_max(s);
        seq![s[i]] + sort_desc(s.remove(i))
    }
}

/// The best single answer among candidates: the last one of greatest
/// persistence.
pub open spec fn best_of(cands: Seq<SpecResolved>) -> Option<SpecResolved> {
    if cands.len() == 0 {
        None
    } else {
        Some(cands[last_max(cands, false)])
    }
}

/// A component provider: something that answers component queries for
/// one domain. The Crystal registry is the first implementation; other
/// domains take the same contract.
pub trait Provider {
    /// The identifier recorded on every component this provider resolves.
    spec fn spec_id(&self) -> Seq<char>;

    /// The domain this provider answers for.
    spec fn spec_domain(&self) -> Seq<char>;

    /// The snapshot of this provider's evidence source.
    spec fn spec_snapshot(&self) -> SpecSnapshot;

    /// Whether this provider resolves a component type.
    spec fn spec_supports_type(&self, component_type: Seq<char>) -> bool;

    /// Every component satisfying the query, in the provider's order.
    spec fn spec_candidates(&self, q: SpecQuery) -> Seq<SpecResolved>;

    /// Whether this provider evaluates evidence and capability floors.
    spec fn spec_supports_evidence_floors(&self) -> bool;

    /// Stable identifier recorded on every component this provider
    /// resolves (e.g. `crystal-registry`, `fixture`).
    fn id(&self) -> (r: &'static str)
        ensures
            r@ == self.spec_id(),
    ;

    /// The component domain this provider answers for.
    fn domain(&self) -> (r: &'static str)
        ensures
            r@ == self.spec_domain(),
    ;

    /// A snapshot of this provider's current evidence source, recorded
    /// in the plan so resolution is reproducible.
    fn snapshot(&self) -> (r: RegistrySnapshot)
        ensures
            r@ == self.spec_snapshot(),
    ;

    /// Whether this provider can resolve the given component type
    /// (`base crystal.primitive ...`).
    fn supports_type(&self, component_type: &str) -> (r: bool)
        ensures
            r == self.spec_supports_type(component_type@),
    ;

    /// Whether this provider can evaluate `min_evidence` and
    /// `capability` floors. One that cannot is not asked a query that
    /// sets them: the query stays unresolved with an explicit warning
    /// rather than resolving against weaker evidence.
    fn supports_evidence_floors(&self) -> (r: bool)
        ensures
            r == self.spec_supports_evidence_floors(),
    ;

    /// Every component satisfying the query's filters; strategy
    /// selection over the candidates happens in `resolve_plan`.
    fn candidates(&self, query: &Query) -> (r: Vec<Resolved>)
        ensures
            resolved_view(r@) == self.spec_candidates(query@),
    ;

    /// Best single answer (the last candidate of greatest persistence);
    /// `None` means this provider has no component satisfying the query.
    fn resolve_query(&self, query: &Query) -> (r: Option<Resolved>)
        ensures
            opt_resolved_view(r) == best_of(self.spec_candidates(query@)),
    {
        let c = self.candidates(query);
        match pick_last_max(&c, false) {
            Some(i) => Some(c[i].duplicate()),
            None => None,
        }
    }
}

/// The index of the last element of greatest key, `None` when empty.
pub fn pick_last_max(c: &Vec<Resolved>, noise: bool) -> (r: Option<usize>)
    ensures
        match r {
            Some(i) => c@.len() > 0 && i == last_max(resolved_view(c@), noise) && i < c@.len(),
            None => c@.len() == 0,
        },
{
    if c.len() == 0 {
        return None;
    }
    let ghost s = resolved_view(c@);
    let mut j: usize = 0;
    let mut i: usize = 1;
    assert(s.take(1).len() == 1);
    while i < c.len()
        invariant
            1 <= i <= c@.len(),
            s == resolved_view(c@),
            j < i,
            j == last_max(s.take(i as int), noise),
        decreases c@.len() - i,
    {
        assert(s.take(i + 1).drop_last() == s.take(i as int));
        assert(s.take(i + 1)[j as int] == s[j as int]);
        let better = if noise {
            c[i].noise_tolerance.ge(&c[j].noise_tolerance)
        } else {
            c[i].persistence.ge(&c[j].persistence)
        };
        if better {
            j = i;
        }
        i = i + 1;
    }
    assert(s.take(c@.len() as int) == s);
    Some(j)
}


/// A class name's normalized form (`normalized`).
pub fn normalize(class: &str) -> (r: String)
    ensures
        r@ == normalized(class@),
{
    let cs = crate::text::chars_of(class);
    let mut out = String::new();
    let mut i: usize = 0;
    assert(cs@.take(0) =~= seq![]);
    while i < cs.len()
        invariant
            i <= cs@.len(),
            cs@ == class@,
            out@ == normalized(cs@.take(i as int)),
        decreases cs@.len() - i,
    {
        let c = cs[i];
        assert(cs@.take(i + 1).drop_last() == cs@.take(i as int));
        if crate::text::char_is_alphanumeric(c) {
            let low = crate::text::char_to_lowercase(c);
            let mut k: usize = 0;
            let ghost base = out@;
            while k < low.len()
                invariant
                    k <= low@.len(),
                    out@ == base + low@.take(k as int),
                decreases low@.len() - k,
            {
                crate::text::push_char(&mut out, low[k]);
                assert(low@.take(k + 1) == low@.take(k as int).push(low@[k as int]));
                k = k + 1;
            }
            assert(low@.take(low@.len() as int) == low@);
        } else {
            assert(out@ == normalized(cs@.take(i as int)) + Seq::<char>::empty());
        }
        i = i + 1;
    }
    assert(cs@.take(cs@.len() as int) == cs@);
    out
}

fn satisfies_exec(
    class: &str,
    persistence: &Decimal,
    noise_tolerance: &Decimal,
    material: &str,
    evidence_level: u8,
    capabilities: &Vec<String>,
    q: &Query,
    want: &String,
) -> (r: bool)
    requires
        want@ == normalized(q.class@),
    ensures
        r == satisfies(class@, *persistence, *noise_tolerance, material@, evidence_level, strings_view(capabilities@), q@),
{
    let n = normalize(class);
    if n != *want {
        return false;
    }
    if !persistence.ge(&q.min_persistence) || !noise_tolerance.ge(&q.min_noise_tolerance) {
        return false;
    }
    if evidence_level < q.min_evidence {
        return false;
    }
    match &q.capability {
        Some(k) => {
            if !holds_capability(capabilities, k.as_str()) {
                return false;
            }
        },
        None => {},
    }
    match &q.material {
        Some(m) => crate::text::text_eq(material, m.as_str()),
        None => true,
    }
}

/// The evidence level a row stands at (`row_evidence`).
fn evidence_of(level: Option<u8>) -> (r: u8)
    ensures
        r == row_evidence(level),
{
    match level {
        Some(l) => l,
        None => 1,
    }
}

/// Whether `capabilities` names the contract `k`.
fn holds_capability(capabilities: &Vec<String>, k: &str) -> (r: bool)
    ensures
        r == strings_view(capabilities@).contains(k@),
{
    let ghost cs = strings_view(capabilities@);
    let mut i: usize = 0;
    while i < capabilities.len()
        invariant
            i <= capabilities@.len(),
            cs == strings_view(capabilities@),
            forall|j: int| 0 <= j < i ==> cs[j] != k@,
        decreases capabilities@.len() - i,
    {
        if crate::text::text_eq(capabilities[i].as_str(), k) {
            assert(cs[i as int] == k@);
            return true;
        }
        i = i + 1;
    }
    false
}

/// A kannaka-crystal registry: its rows and the source they were read
/// from.
pub struct Registry {
    primitives: Vec<Primitive>,
    pub source: String,
}

impl Registry {
    /// The rows, in registry order.
    pub closed spec fn rows(&self) -> Seq<SpecPrimitive> {
        primitives_view(self.primitives@)
    }

    /// The text naming where the rows were read from.
    pub closed spec fn source_text(&self) -> Seq<char> {
        self.source@
    }

    /// A registry holding `primitives`, read from `source`.
    pub fn new(primitives: Vec<Primitive>, source: String) -> (r: Registry)
        ensures
            r.rows() == primitives_view(primitives@),
            r.source_text() == source@,
    {
        Registry { primitives, source }
    }

    /// The number of rows.
    pub fn len(&self) -> (r: usize)
        ensures
            r == self.rows().len(),
    {
        self.primitives.len()
    }

    /// Whether there are no rows.
    pub fn is_empty(&self) -> (r: bool)
        ensures
            r == (self.rows().len() == 0),
    {
        self.primitives.len() == 0
    }

    /// The rows of class `class` (normalized), persistence at least
    /// `min_persistence` and, when given, material `material`, as
    /// resolutions, in registry order.
    pub open spec fn class_matches(
        rows: Seq<SpecPrimitive>,
        class: Seq<char>,
        min_persistence: Decimal,
        material: Option<Seq<char>>,
    ) -> Seq<SpecResolved>
        decreases rows.len(),
    {
        if rows.len() == 0 {
            seq![]
        } else {
            let rest = Registry::class_matches(rows.drop_last(), class, min_persistence, material);
            let p = rows.last();
            if normalized(p.class) == normalized(class) && p.persistence.spec_ge(min_persistence)
                && material_ok(material, p.material_id) {
                rest.push(row_resolved(p))
            } else {
                rest
            }
        }
    }

    /// Best match: the last row of greatest persistence among rows of the
    /// queried class meeting the floor (and material, when specified).
    pub fn resolve(&self, class: &str, min_persistence: Decimal, material: Option<&str>) -> (r: Option<Resolved>)
        ensures
            opt_resolved_view(r) == best_of(Registry::class_matches(
                self.rows(),
                class@,
                min_persistence,
                match material { Some(m) => Some(m@), None => None },
            )),
    {
        let ghost rows = self.rows();
        let ghost mat = match material { Some(m) => Some(m@), None => None::<Seq<char>> };
        let want = normalize(class);
        let mut found: Vec<Resolved> = Vec::new();
        let mut i: usize = 0;
        assert(rows.take(0) =~= seq![]);
        assert(resolved_view(found@) =~= seq![]);
        while i < self.primitives.len()
            invariant
                i <= self.primitives@.len(),
                rows == primitives_view(self.primitives@),
                want@ == normalized(class@),
                mat == match material { Some(m) => Some(m@), None => None::<Seq<char>> },
                resolved_view(found@) == Registry::class_matches(rows.take(i as int), class@, min_persistence, mat),
            decreases self.primitives@.len() - i,
        {
            let p = &self.primitives[i];
            assert(rows.take(i + 1).drop_last() == rows.take(i as int));
            let n = normalize(p.class.as_str());
            let mat_ok = match material {
                Some(m) => crate::text::text_eq(p.material_id.as_str(), m),
                None => true,
            };
            if n == want && p.persistence.ge(&min_persistence) && mat_ok {
                let ghost before = found@;
                let r = Resolved {
                    provider: PROVIDER_CRYSTAL,
                    id: p.id.clone(),
                    class: p.class.clone(),
                    persistence: p.persistence,
                    noise_tolerance: p.noise_tolerance,
                    material: p.material_id.clone(),
                    evidence_level: evidence_of(p.evidence_level),
                    capabilities: copy_strings(&p.capabilities),
                };
                found.push(r);
                assert(resolved_view(found@) == resolved_view(before).push(row_resolved(rows[i as int])));
            }
            i = i + 1;
        }
        assert(rows.take(rows.len() as int) == rows);
        match pick_last_max(&found, false) {
            Some(j) => Some(found[j].duplicate()),
            None => None,
        }
    }
}

impl Provider for Registry {
    open spec fn spec_id(&self) -> Seq<char> {
        PROVIDER_CRYSTAL@
    }

    open spec fn spec_domain(&self) -> Seq<char> {
        DOMAIN_CRYSTAL@
    }

    open spec fn spec_snapshot(&self) -> SpecSnapshot {
        SpecSnapshot {
            provider: PROVIDER_CRYSTAL@,
            domain: DOMAIN_CRYSTAL@,
            source: self.source_text(),
            primitives: self.rows().len(),
        }
    }

    open spec fn spec_supports_type(&self, component_type: Seq<char>) -> bool {
        component_type == "primitive"@
    }

    open spec fn spec_candidates(&self, q: SpecQuery) -> Seq<SpecResolved> {
        row_candidates(self.rows(), q)
    }

    open spec fn spec_supports_evidence_floors(&self) -> bool {
        true
    }

    fn supports_evidence_floors(&self) -> (r: bool) {
        true
    }

    fn id(&self) -> (r: &'static str) {
        PROVIDER_CRYSTAL
    }

    fn domain(&self) -> (r: &'static str) {
        DOMAIN_CRYSTAL
    }

    fn snapshot(&self) -> (r: RegistrySnapshot) {
        RegistrySnapshot {
            provider: PROVIDER_CRYSTAL,
            domain: DOMAIN_CRYSTAL,
            source: self.source.clone(),
            primitives: self.len(),
        }
    }

    fn supports_type(&self, component_type: &str) -> (r: bool) {
        crate::text::text_eq(component_type, "primitive")
    }

    fn candidates(&self, query: &Query) -> (r: Vec<Resolved>) {
        let ghost rows = self.rows();
        let want = normalize(query.class.as_str());
        let mut found: Vec<Resolved> = Vec::new();
        let mut i: usize = 0;
        assert(rows.take(0) =~= seq![]);
        assert(resolved_view(found@) =~= seq![]);
        while i < self.primitives.len()
            invariant
                i <= self.primitives@.len(),
                rows == primitives_view(self.primitives@),
                want@ == normalized(query.class@),
                resolved_view(found@) == row_candidates(rows.take(i as int), query@),
            decreases self.primitives@.len() - i,
        {
            let p = &self.primitives[i];
            assert(rows.take(i + 1).drop_last() == rows.take(i as int));
            if satisfies_exec(p.class.as_str(), &p.persistence, &p.noise_tolerance, p.material_id.as_str(), evidence_of(p.evidence_level), &p.capabilities, query, &want) {
                let ghost before = found@;
                let r = Resolved {
                    provider: PROVIDER_CRYSTAL,
                    id: p.id.clone(),
                    class: p.class.clone(),
                    persistence: p.persistence,
                    noise_tolerance: p.noise_tolerance,
                    material: p.material_id.clone(),
                    evidence_level: evidence_of(p.evidence_level),
                    capabilities: copy_strings(&p.capabilities),
                };
                found.push(r);
                assert(resolved_view(found@) == resolved_view(before).push(row_resolved(rows[i as int])));
            }
            i = i + 1;
        }
        assert(rows.take(rows.len() as int) == rows);
        found
    }
}

/// A static, in-memory provider for tests and offline development: no
/// registry file required. Resolution semantics match the Crystal
/// registry; `with_domain` makes it stand in for other domains.
pub struct FixtureProvider {
    pub domain: &'static str,
    pub components: Vec<Resolved>,
}

impl FixtureProvider {
    /// A fixture answering for the crystal domain.
    pub fn new(components: Vec<Resolved>) -> (r: FixtureProvider)
        ensures
            r.domain@ == DOMAIN_CRYSTAL@,
            r.components@ == components@,
    {
        FixtureProvider::with_domain(DOMAIN_CRYSTAL, components)
    }

    /// A fixture answering for `domain`.
    pub fn with_domain(domain: &'static str, components: Vec<Resolved>) -> (r: FixtureProvider)
        ensures
            r.domain == domain,
            r.components@ == components@,
    {
        FixtureProvider { domain, components }
    }
}

impl Provider for FixtureProvider {
    open spec fn spec_id(&self) -> Seq<char> {
        PROVIDER_FIXTURE@
    }

    open spec fn spec_domain(&self) -> Seq<char> {
        self.domain@
    }

    open spec fn spec_snapshot(&self) -> SpecSnapshot {
        SpecSnapshot {
            provider: PROVIDER_FIXTURE@,
            domain: self.domain@,
            source: "(static fixture)"@,
            primitives: self.components@.len(),
        }
    }

    open spec fn spec_supports_type(&self, component_type: Seq<char>) -> bool {
        true
    }

    open spec fn spec_candidates(&self, q: SpecQuery) -> Seq<SpecResolved> {
        fixture_candidates(resolved_view(self.components@), q)
    }

    open spec fn spec_supports_evidence_floors(&self) -> bool {
        true
    }

    fn supports_evidence_floors(&self) -> (r: bool) {
        true
    }

    fn id(&self) -> (r: &'static str) {
        PROVIDER_FIXTURE
    }

    fn domain(&self) -> (r: &'static str) {
        self.domain
    }

    fn snapshot(&self) -> (r: RegistrySnapshot) {
        RegistrySnapshot {
            provider: PROVIDER_FIXTURE,
            domain: self.domain,
            source: String::from_str("(static fixture)"),
            primitives: self.components.len(),
        }
    }

    fn supports_type(&self, component_type: &str) -> (r: bool) {
        true
    }

    fn candidates(&self, query: &Query) -> (r: Vec<Resolved>) {
        let ghost cs = resolved_view(self.components@);
        let want = normalize(query.class.as_str());
        let mut found: Vec<Resolved> = Vec::new();
        let mut i: usize = 0;
        assert(cs.take(0) =~= seq![]);
        assert(resolved_view(found@) =~= seq![]);
        while i < self.components.len()
            invariant
                i <= self.components@.len(),
                cs == resolved_view(self.components@),
                want@ == normalized(query.class@),
                resolved_view(found@) == fixture_candidates(cs.take(i as int), query@),
            decreases self.components@.len() - i,
        {
            let c = &self.components[i];
            assert(cs.take(i + 1).drop_last() == cs.take(i as int));
            if satisfies_exec(c.class.as_str(), &c.persistence, &c.noise_tolerance, c.material.as_str(), c.evidence_level, &c.capabilities, query, &want) {
                let ghost before = found@;
                let r = Resolved {
                    provider: PROVIDER_FIXTURE,
                    id: c.id.clone(),
                    class: c.class.clone(),
                    persistence: c.persistence,
                    noise_tolerance: c.noise_tolerance,
                    material: c.material.clone(),
                    evidence_level: c.evidence_level,
                    capabilities: copy_strings(&c.capabilities),
                };
                found.push(r);
                assert(resolved_view(found@) == resolved_view(before).push(SpecResolved { provider: PROVIDER_FIXTURE@, ..cs[i as int] }));
            }
            i = i + 1;
        }
        assert(cs.take(cs.len() as int) == cs);
        found
    }
}


/// Per-plan resolution state for the stateful strategies: `unique`
/// claims component ids plan-wide; `diverse` keeps a round-robin cursor
/// per domain and normalized class.
pub struct SpecState {
    pub claimed: Seq<Seq<char>>,
    pub cursors: Seq<(Seq<char>, nat)>,
}

/// The index of the entry for `key`.
pub open spec fn cursor_index(cs: Seq<(Seq<char>, nat)>, key: Seq<char>) -> Option<int>
    decreases cs.len(),
{
    if cs.len() == 0 {
        None
    } else {
        match cursor_index(cs.drop_last(), key) {
            Some(i) => Some(i),
            None => if cs.last().0 == key {
                Some(cs.len() - 1)
            } else {
                None
            },
        }
    }
}

/// The cursor for `key`; 0 before its first use.
pub open spec fn cursor_get(cs: Seq<(Seq<char>, nat)>, key: Seq<char>) -> nat {
    match cursor_index(cs, key) {
        Some(i) => cs[i].1,
        None => 0,
    }
}

/// The cursors with the one for `key` set to `v`.
pub open spec fn cursor_set(cs: Seq<(Seq<char>, nat)>, key: Seq<char>, v: nat) -> Seq<(Seq<char>, nat)> {
    match cursor_index(cs, key) {
        Some(i) => cs.update(i, (key, v)),
        None => cs.push((key, v)),
    }
}

/// The index of the first candidate whose id is not claimed.
pub open spec fn first_unclaimed(s: Seq<SpecResolved>, claimed: Seq<Seq<char>>) -> Option<int>
    decreases s.len(),
{
    if s.len() == 0 {
        None
    } else {
        match first_unclaimed(s.drop_last(), claimed) {
            Some(i) => Some(i),
            None => if !claimed.contains(s.last().id) {
                Some(s.len() - 1)
            } else {
                None
            },
        }
    }
}

/// The index of the first provider answering for `domain`.
pub open spec fn find_provider(ps: Seq<&dyn Provider>, domain: Seq<char>) -> Option<int>
    decreases ps.len(),
{
    if ps.len() == 0 {
        None
    } else {
        match find_provider(ps.drop_last(), domain) {
            Some(i) => Some(i),
            None => if ps.last().spec_domain() == domain {
                Some(ps.len() - 1)
            } else {
                None
            },
        }
    }
}

/// What resolving one query gives: the pick, or the reason there is
/// none, and the strategy state after it.
pub struct Outcome {
    pub resolved: Option<SpecResolved>,
    pub reason: Option<Seq<char>>,
    pub state: SpecState,
}

/// The reason no candidate satisfied a query.
pub open spec fn no_component_reason(q: SpecQuery) -> Seq<char> {
    let noise = if q.min_noise_tolerance.is_positive() {
        ", min_noise_tolerance "@ + q.min_noise_tolerance.display()
    } else {
        seq![]
    };
    let material = match q.material {
        Some(m) => ", material "@ + m,
        None => seq![],
    };
    "no component (class \""@ + q.class + "\", min_persistence "@ + q.min_persistence.display() + noise
        + material + ") \u{2014} swarm has not grown one yet"@
}

/// The round-robin key of a query: its domain and normalized class.
pub open spec fn diverse_key(q: SpecQuery) -> Seq<char> {
    q.domain + "/"@ + normalized(q.class)
}

/// Resolves one query against the provider answering its domain: the
/// first provider for the domain is asked (none is an honest reason);
/// a typed query needs a provider that resolves its type, and a query
/// with evidence or capability floors one that evaluates them; the candidates
/// are ordered by decreasing persistence (stably), and the strategy
/// picks: `best` the first, `robust` the last of greatest noise
/// tolerance, `unique` the first not yet claimed (and claims it),
/// `diverse` the one at the query's round-robin cursor (and advances it).
pub open spec fn resolve_one(ps: Seq<&dyn Provider>, q: SpecQuery, st: SpecState) -> Outcome {
    match find_provider(ps, q.domain) {
        None => Outcome {
            resolved: None,
            reason: Some("no provider for domain \""@ + q.domain
                + "\" \u{2014} Memory and Swarm providers arrive with later ADR-0002 phases"@),
            state: st,
        },
        Some(pi) => {
            let p = ps[pi];
            if q.component_type is Some && !p.spec_supports_type(q.component_type->0) {
                Outcome {
                    resolved: None,
                    reason: Some("provider "@ + p.spec_id() + " does not resolve component type \""@
                        + q.component_type->0 + "\""@),
                    state: st,
                }
            } else if has_evidence_floors(q) && !p.spec_supports_evidence_floors() {
                Outcome {
                    resolved: None,
                    reason: Some("provider "@ + p.spec_id()
                        + " cannot evaluate min_evidence / capability floors \u{2014} refusing rather than resolving against weaker evidence"@),
                    state: st,
                }
            } else {
                let c = sort_desc(p.spec_candidates(q));
                if c.len() == 0 {
                    Outcome { resolved: None, reason: Some(no_component_reason(q)), state: st }
                } else {
                    match q.strategy {
                        Strategy::Best => Outcome { resolved: Some(c[0]), reason: None, state: st },
                        Strategy::Robust => Outcome { resolved: Some(c[last_max(c, true)]), reason: None, state: st },
                        Strategy::Unique => match first_unclaimed(c, st.claimed) {
                            Some(i) => Outcome {
                                resolved: Some(c[i]),
                                reason: None,
                                state: SpecState { claimed: st.claimed.push(c[i].id), cursors: st.cursors },
                            },
                            None => Outcome {
                                resolved: None,
                                reason: Some("unique strategy exhausted for class \""@ + q.class
                                    + "\" \u{2014} every matching component is already claimed"@),
                                state: st,
                            },
                        },
                        Strategy::Diverse => {
                            let k = diverse_key(q);
                            let cur = cursor_get(st.cursors, k);
                            Outcome {
                                resolved: Some(c[(cur % c.len()) as int]),
                                reason: None,
                                state: SpecState { claimed: st.claimed, cursors: cursor_set(st.cursors, k, cur + 1) },
                            }
                        },
                    }
                }
            }
        },
    }
}

/// Resolves the leaves from the `i`-th on, in order, recording a
/// warning `<cell>: <reason>` for each one that stays unresolved.
pub open spec fn resolve_leaves(
    ps: Seq<&dyn Provider>,
    ls: Seq<SpecLeaf>,
    i: int,
    st: SpecState,
    ws: Seq<Seq<char>>,
) -> (Seq<SpecLeaf>, SpecState, Seq<Seq<char>>)
    decreases ls.len() - i,
{
    if i < 0 || i >= ls.len() {
        (ls, st, ws)
    } else {
        let o = resolve_one(ps, ls[i].query, st);
        let ws2 = match o.reason {
            Some(r) => ws.push(ls[i].cell + ": "@ + r),
            None => ws,
        };
        resolve_leaves(ps, ls.update(i, SpecLeaf { resolved: o.resolved, ..ls[i] }), i + 1, o.state, ws2)
    }
}

/// Resolves the bridges from the `i`-th on, in order, recording a
/// warning `coupling "<class>": <reason>` for each one that stays
/// unresolved.
pub open spec fn resolve_bridges(
    ps: Seq<&dyn Provider>,
    bs: Seq<SpecBridge>,
    i: int,
    st: SpecState,
    ws: Seq<Seq<char>>,
) -> (Seq<SpecBridge>, SpecState, Seq<Seq<char>>)
    decreases bs.len() - i,
{
    if i < 0 || i >= bs.len() {
        (bs, st, ws)
    } else {
        let o = resolve_one(ps, bs[i].query, st);
        let ws2 = match o.reason {
            Some(r) => ws.push("coupling \""@ + bs[i].query.class + "\": "@ + r),
            None => ws,
        };
        resolve_bridges(ps, bs.update(i, SpecBridge { resolved: o.resolved, ..bs[i] }), i + 1, o.state, ws2)
    }
}

/// `s` with each run of equal consecutive elements reduced to one.
pub open spec fn dedup(s: Seq<Seq<char>>) -> Seq<Seq<char>>
    decreases s.len(),
{
    if s.len() <= 1 {
        s
    } else if s.last() == s[s.len() - 2] {
        dedup(s.drop_last())
    } else {
        dedup(s.drop_last()).push(s.last())
    }
}

/// How many leaves are resolved.
pub open spec fn leaves_resolved(ls: Seq<SpecLeaf>) -> nat
    decreases ls.len(),
{
    if ls.len() == 0 {
        0
    } else {
        leaves_resolved(ls.drop_last()) + if ls.last().resolved is Some { 1nat } else { 0nat }
    }
}

/// How many bridges are resolved.
pub open spec fn bridges_resolved(bs: Seq<SpecBridge>) -> nat
    decreases bs.len(),
{
    if bs.len() == 0 {
        0
    } else {
        bridges_resolved(bs.drop_last()) + if bs.last().resolved is Some { 1nat } else { 0nat }
    }
}

/// The snapshots of the providers, in order.
pub open spec fn snapshots_of(ps: Seq<&dyn Provider>) -> Seq<SpecSnapshot> {
    ps.map_values(|p: &dyn Provider| p.spec_snapshot())
}

/// The plan after resolution: every leaf, then every bridge, resolved in
/// order against the providers with one strategy state for the whole
/// plan; the warnings of unresolved components appended and consecutive
/// duplicates dropped; the providers' snapshots appended; the counts of
/// resolved components recorded.
pub open spec fn spec_resolve_plan(plan: SpecPlan, ps: Seq<&dyn Provider>) -> SpecPlan {
    let empty = SpecState { claimed: seq![], cursors: seq![] };
    let (ls, st1, ws1) = resolve_leaves(ps, plan.leaves, 0, empty, plan.warnings);
    let (bs, st2, ws2) = resolve_bridges(ps, plan.bridges, 0, st1, ws1);
    SpecPlan {
        leaves: ls,
        bridges: bs,
        warnings: dedup(ws2),
        registry_snapshots: plan.registry_snapshots + snapshots_of(ps),
        resolution_report: Some(ResolutionReport {
            leaves_total: ls.len() as usize,
            leaves_resolved: leaves_resolved(ls) as usize,
            bridges_total: bs.len() as usize,
            bridges_resolved: bridges_resolved(bs) as usize,
        }),
        ..plan
    }
}

/// How many required components a plan still lacks.
pub open spec fn spec_unresolved_count(plan: SpecPlan) -> nat {
    (plan.leaves.len() - leaves_resolved(plan.leaves)) as nat + (plan.bridges.len() - bridges_resolved(plan.bridges)) as nat
}


/* ------------------------- executable resolution ------------------------- */

/// Per-plan resolution state (executable form of `SpecState`).
pub struct StrategyState {
    claimed: Vec<String>,
    cursors: Vec<(String, u128)>,
}

impl Default for StrategyState {
    /// The state before any resolution (`StrategyState::new`).
    fn default() -> (r: StrategyState)
        ensures
            r@.claimed == Seq::<Seq<char>>::empty(),
            r@.cursors == Seq::<(Seq<char>, nat)>::empty(),
    {
        StrategyState::new()
    }
}

impl StrategyState {
    /// The state before any resolution: nothing claimed, every cursor at
    /// its start.
    pub fn new() -> (r: StrategyState)
        ensures
            r@.claimed == Seq::<Seq<char>>::empty(),
            r@.cursors == Seq::<(Seq<char>, nat)>::empty(),
    {
        let r = StrategyState { claimed: Vec::new(), cursors: Vec::new() };
        assert(r@.claimed =~= Seq::<Seq<char>>::empty());
        assert(r@.cursors =~= Seq::<(Seq<char>, nat)>::empty());
        r
    }
}

impl View for StrategyState {
    type V = SpecState;

    closed spec fn view(&self) -> SpecState {
        SpecState {
            claimed: crate::syntax::strings_view(self.claimed@),
            cursors: self.cursors@.map_values(|e: (String, u128)| (e.0@, e.1 as nat)),
        }
    }
}

/// Whether every cursor is at most `b`.
pub open spec fn cursors_le(cs: Seq<(Seq<char>, nat)>, b: nat) -> bool {
    forall|i: int| 0 <= i < cs.len() ==> #[trigger] cs[i].1 <= b
}

fn pick_first_max(c: &Vec<Resolved>) -> (r: usize)
    requires
        c@.len() > 0,
    ensures
        r == first_max(resolved_view(c@)),
        r < c@.len(),
{
    let ghost s = resolved_view(c@);
    let mut j: usize = 0;
    let mut i: usize = 1;
    while i < c.len()
        invariant
            1 <= i <= c@.len(),
            s == resolved_view(c@),
            j < i,
            j == first_max(s.take(i as int)),
        decreases c@.len() - i,
    {
        assert(s.take(i + 1).drop_last() == s.take(i as int));
        assert(s.take(i + 1)[j as int] == s[j as int]);
        if !c[j].persistence.ge(&c[i].persistence) {
            j = i;
        }
        i = i + 1;
    }
    assert(s.take(c@.len() as int) == s);
    j
}

/// The candidates in order of decreasing persistence, equal persistence
/// keeping its order (`sort_desc`).
fn sort_by_persistence(v: Vec<Resolved>) -> (r: Vec<Resolved>)
    ensures
        resolved_view(r@) == sort_desc(resolved_view(v@)),
{
    let ghost orig = resolved_view(v@);
    let mut rest = v;
    let mut out: Vec<Resolved> = Vec::new();
    assert(resolved_view(out@) =~= seq![]);
    while rest.len() > 0
        invariant
            sort_desc(orig) == resolved_view(out@) + sort_desc(resolved_view(rest@)),
        decreases rest@.len(),
    {
        let ghost s = resolved_view(rest@);
        let i = pick_first_max(&rest);
        let x = rest.remove(i);
        assert(resolved_view(rest@) =~= s.remove(i as int));
        let ghost before = out@;
        out.push(x);
        assert(resolved_view(out@) == resolved_view(before).push(s[i as int]));
        assert(sort_desc(s) == seq![s[i as int]] + sort_desc(s.remove(i as int)));
        assert(resolved_view(out@) + sort_desc(resolved_view(rest@))
            =~= resolved_view(before) + (seq![s[i as int]] + sort_desc(s.remove(i as int))));
    }
    assert(resolved_view(rest@) =~= seq![]);
    assert(resolved_view(out@) + sort_desc(resolved_view(rest@)) =~= resolved_view(out@));
    out
}

fn find_provider_exec(providers: &[&dyn Provider], domain: &str) -> (r: Option<usize>)
    ensures
        r matches Some(i) ==> find_provider(providers@, domain@) == Some(i as int) && i < providers@.len(),
        r is None ==> find_provider(providers@, domain@) is None,
{
    let ghost ps = providers@;
    let mut i: usize = 0;
    assert(ps.take(0) =~= Seq::<&dyn Provider>::empty());
    while i < providers.len()
        invariant
            i <= ps.len(),
            ps == providers@,
            find_provider(ps.take(i as int), domain@) is None,
        decreases ps.len() - i,
    {
        assert(ps.take(i + 1).drop_last() == ps.take(i as int));
        let d = providers[i].domain();
        if crate::text::text_eq(d, domain) {
            proof {
                lemma_find_provider_prefix(ps, i as int + 1, domain@);
            }
            return Some(i);
        }
        i = i + 1;
    }
    assert(ps.take(ps.len() as int) == ps);
    None
}

proof fn lemma_find_provider_prefix(ps: Seq<&dyn Provider>, n: int, domain: Seq<char>)
    requires
        0 < n <= ps.len(),
        find_provider(ps.take(n), domain) == Some(n - 1),
    ensures
        find_provider(ps, domain) == Some(n - 1),
    decreases ps.len(),
{
    if n < ps.len() {
        assert(ps.drop_last().take(n) == ps.take(n));
        lemma_find_provider_prefix(ps.drop_last(), n, domain);
    } else {
        assert(ps.take(n) == ps);
    }
}

fn first_unclaimed_exec(c: &Vec<Resolved>, claimed: &Vec<String>) -> (r: Option<usize>)
    ensures
        r matches Some(i) ==> first_unclaimed(resolved_view(c@), crate::syntax::strings_view(claimed@)) == Some(i as int) && i < c@.len(),
        r is None ==> first_unclaimed(resolved_view(c@), crate::syntax::strings_view(claimed@)) is None,
{
    let ghost s = resolved_view(c@);
    let ghost cl = crate::syntax::strings_view(claimed@);
    let mut i: usize = 0;
    while i < c.len()
        invariant
            i <= s.len(),
            s == resolved_view(c@),
            cl == crate::syntax::strings_view(claimed@),
            first_unclaimed(s.take(i as int), cl) is None,
        decreases s.len() - i,
    {
        assert(s.take(i + 1).drop_last() == s.take(i as int));
        let mut seen = false;
        let mut k: usize = 0;
        while k < claimed.len()
            invariant
                i < c@.len(),
                s == resolved_view(c@),
                k <= claimed@.len(),
                cl == crate::syntax::strings_view(claimed@),
                seen <==> exists|m: int| 0 <= m < k && cl[m] == c@[i as int].id@,
            decreases claimed@.len() - k,
        {
            if claimed[k] == c[i].id {
                seen = true;
                assert(cl[k as int] == c@[i as int].id@);
            } else {
                assert(cl[k as int] != c@[i as int].id@);
            }
            k = k + 1;
        }
        if !seen {
            proof {
                lemma_first_unclaimed_prefix(s, i as int + 1, cl);
            }
            return Some(i);
        } else {
            assert(cl.contains(s[i as int].id));
        }
        i = i + 1;
    }
    assert(s.take(s.len() as int) == s);
    None
}

proof fn lemma_first_unclaimed_prefix(s: Seq<SpecResolved>, n: int, cl: Seq<Seq<char>>)
    requires
        0 < n <= s.len(),
        first_unclaimed(s.take(n), cl) == Some(n - 1),
    ensures
        first_unclaimed(s, cl) == Some(n - 1),
    decreases s.len(),
{
    if n < s.len() {
        assert(s.drop_last().take(n) == s.take(n));
        lemma_first_unclaimed_prefix(s.drop_last(), n, cl);
    } else {
        assert(s.take(n) == s);
    }
}

proof fn lemma_cursor_index_prefix(cs: Seq<(Seq<char>, nat)>, n: int, key: Seq<char>)
    requires
        0 < n <= cs.len(),
        cursor_index(cs.take(n), key) == Some(n - 1),
    ensures
        cursor_index(cs, key) == Some(n - 1),
    decreases cs.len(),
{
    if n < cs.len() {
        assert(cs.drop_last().take(n) == cs.take(n));
        lemma_cursor_index_prefix(cs.drop_last(), n, key);
    } else {
        assert(cs.take(n) == cs);
    }
}

fn cursor_index_exec(cursors: &Vec<(String, u128)>, key: &String) -> (r: Option<usize>)
    ensures
        r matches Some(i) ==> cursor_index(cursors@.map_values(|e: (String, u128)| (e.0@, e.1 as nat)), key@) == Some(i as int) && i < cursors@.len(),
        r is None ==> cursor_index(cursors@.map_values(|e: (String, u128)| (e.0@, e.1 as nat)), key@) is None,
{
    let ghost cs = cursors@.map_values(|e: (String, u128)| (e.0@, e.1 as nat));
    let mut i: usize = 0;
    while i < cursors.len()
        invariant
            i <= cursors@.len(),
            cs == cursors@.map_values(|e: (String, u128)| (e.0@, e.1 as nat)),
            cursor_index(cs.take(i as int), key@) is None,
        decreases cursors@.len() - i,
    {
        assert(cs.take(i + 1).drop_last() == cs.take(i as int));
        if cursors[i].0 == *key {
            proof {
                lemma_cursor_index_prefix(cs, i as int + 1, key@);
            }
            return Some(i);
        }
        i = i + 1;
    }
    assert(cs.take(cs.len() as int) == cs);
    None
}

/// The view of a component resolution.
pub open spec fn outcome_of(r: (Option<Resolved>, Option<String>), st: SpecState) -> Outcome {
    Outcome { resolved: opt_resolved_view(r.0), reason: opt_view(r.1), state: st }
}

fn resolve_component_within(providers: &[&dyn Provider], query: &Query, state: &mut StrategyState, Ghost(b): Ghost<nat>) -> (r: (Option<Resolved>, Option<String>))
    requires
        cursors_le(old(state)@.cursors, b),
        b < u128::MAX,
    ensures
        outcome_of(r, final(state)@) == resolve_one(providers@, query@, old(state)@),
        cursors_le(final(state)@.cursors, b + 1),
{
    let pi = match find_provider_exec(providers, query.domain.as_str()) {
        Some(i) => i,
        None => {
            let mut m = String::from_str("no provider for domain \"");
            m.append(query.domain.as_str());
            m.append("\" \u{2014} Memory and Swarm providers arrive with later ADR-0002 phases");
            return (None, Some(m));
        },
    };
    let provider = providers[pi];
    match &query.component_type {
        Some(t) => {
            if !provider.supports_type(t.as_str()) {
                let mut m = String::from_str("provider ");
                m.append(provider.id());
                m.append(" does not resolve component type \"");
                m.append(t.as_str());
                m.append("\"");
                return (None, Some(m));
            }
        },
        None => {},
    }
    if (query.min_evidence > 0 || query.capability.is_some()) && !provider.supports_evidence_floors() {
        let mut m = String::from_str("provider ");
        m.append(provider.id());
        m.append(" cannot evaluate min_evidence / capability floors \u{2014} refusing rather than resolving against weaker evidence");
        return (None, Some(m));
    }
    let c = sort_by_persistence(provider.candidates(query));
    let ghost cv = resolved_view(c@);
    assert(provider == providers@[pi as int]);
    assert(cv == sort_desc(providers@[pi as int].spec_candidates(query@)));
    assert(find_provider(providers@, query@.domain) == Some(pi as int));
    if c.len() == 0 {
        let mut m = String::from_str("no component (class \"");
        m.append(query.class.as_str());
        m.append("\", min_persistence ");
        let mp = query.min_persistence.to_text();
        m.append(mp.as_str());
        let noise = if query.min_noise_tolerance.positive() {
            let nt = query.min_noise_tolerance.to_text();
            crate::text::cat(", min_noise_tolerance ", nt.as_str())
        } else {
            String::new()
        };
        m.append(noise.as_str());
        let material = match &query.material {
            Some(mat) => crate::text::cat(", material ", mat.as_str()),
            None => String::new(),
        };
        m.append(material.as_str());
        m.append(") \u{2014} swarm has not grown one yet");
        return (None, Some(m));
    }
    match query.strategy {
        Strategy::Best => {
            let pick = c[0].duplicate();
            return (Some(pick), None);
        },
        Strategy::Robust => {
            let i = match pick_last_max(&c, true) {
                Some(i) => i,
                None => 0,
            };
            return (Some(c[i].duplicate()), None);
        },
        Strategy::Unique => match first_unclaimed_exec(&c, &state.claimed) {
            Some(i) => {
                let pick = c[i].duplicate();
                let ghost before = state.claimed@;
                state.claimed.push(c[i].id.clone());
                assert(crate::syntax::strings_view(state.claimed@)
                    == crate::syntax::strings_view(before).push(cv[i as int].id));
                return (Some(pick), None);
            },
            None => {
                let mut m = String::from_str("unique strategy exhausted for class \"");
                m.append(query.class.as_str());
                m.append("\" \u{2014} every matching component is already claimed");
                return (None, Some(m));
            },
        },
        Strategy::Diverse => {
            let mut key = String::from_str(query.domain.as_str());
            key.append("/");
            let nc = normalize(query.class.as_str());
            key.append(nc.as_str());
            let ghost cs = state@.cursors;
            let ghost old_cursors = state.cursors@;
            match cursor_index_exec(&state.cursors, &key) {
                Some(k) => {
                    let cur = state.cursors[k].1;
                    assert(cs[k as int].1 <= b);
                    let idx = (cur % (c.len() as u128)) as usize;
                    let pick = c[idx].duplicate();
                    state.cursors.set(k, (key, cur + 1));
                    assert(state@.cursors =~= cs.update(k as int, (diverse_key(query@), (cur + 1) as nat)));
                    return (Some(pick), None);
                },
                None => {
                    let pick = c[0].duplicate();
                    state.cursors.push((key, 1));
                    assert(state@.cursors =~= cs.push((diverse_key(query@), 1nat)));
                    assert(cursor_get(cs, diverse_key(query@)) == 0);
                    assert(0nat % cv.len() == 0) by (nonlinear_arith)
                        requires cv.len() > 0;
                    assert(state@.claimed == old(state)@.claimed);
                    return (Some(pick), None);
                },
            }
        },
    }
}


fn dedup_exec(ws: &Vec<String>) -> (r: Vec<String>)
    ensures
        strings_view(r@) == dedup(strings_view(ws@)),
{
    let ghost s = strings_view(ws@);
    let mut out: Vec<String> = Vec::new();
    let mut i: usize = 0;
    assert(s.take(0) =~= seq![]);
    assert(strings_view(out@) =~= seq![]);
    while i < ws.len()
        invariant
            i <= ws@.len(),
            s == strings_view(ws@),
            strings_view(out@) == dedup(s.take(i as int)),
            i > 0 ==> out@.len() > 0 && strings_view(out@).last() == s[i - 1],
        decreases ws@.len() - i,
    {
        let ghost t = s.take(i + 1);
        assert(t.drop_last() == s.take(i as int));
        let dup = i > 0 && ws[i] == ws[i - 1];
        if !dup {
            let ghost before = out@;
            out.push(ws[i].clone());
            assert(strings_view(out@) == strings_view(before).push(s[i as int]));
        }
        proof {
            if i > 0 {
                assert(t[t.len() - 2] == s[i - 1]);
                lemma_dedup_last(t.drop_last());
            }
        }
        i = i + 1;
    }
    assert(s.take(s.len() as int) == s);
    out
}

proof fn lemma_dedup_last(s: Seq<Seq<char>>)
    requires
        s.len() > 0,
    ensures
        dedup(s).len() > 0 && dedup(s).last() == s.last(),
    decreases s.len(),
{
    if s.len() > 1 {
        lemma_dedup_last(s.drop_last());
    }
}

fn count_resolved_leaves(ls: &Vec<Leaf>) -> (r: usize)
    ensures
        r == leaves_resolved(leaves_view(ls@)),
{
    let ghost s = leaves_view(ls@);
    let mut n: usize = 0;
    let mut i: usize = 0;
    while i < ls.len()
        invariant
            i <= ls@.len(),
            s == leaves_view(ls@),
            n == leaves_resolved(s.take(i as int)),
            n <= i,
        decreases ls@.len() - i,
    {
        assert(s.take(i + 1).drop_last() == s.take(i as int));
        if ls[i].resolved.is_some() {
            n = n + 1;
        }
        i = i + 1;
    }
    assert(s.take(s.len() as int) == s);
    n
}

fn count_resolved_bridges(bs: &Vec<Bridge>) -> (r: usize)
    ensures
        r == bridges_resolved(bridges_view(bs@)),
{
    let ghost s = bridges_view(bs@);
    let mut n: usize = 0;
    let mut i: usize = 0;
    while i < bs.len()
        invariant
            i <= bs@.len(),
            s == bridges_view(bs@),
            n == bridges_resolved(s.take(i as int)),
            n <= i,
        decreases bs@.len() - i,
    {
        assert(s.take(i + 1).drop_last() == s.take(i as int));
        if bs[i].resolved.is_some() {
            n = n + 1;
        }
        i = i + 1;
    }
    assert(s.take(s.len() as int) == s);
    n
}

/// Resolves one query against the providers with the strategy state of
/// its plan (`resolve_one`): the pick and the reason there is none, the
/// state advanced as the query's strategy says.
pub fn resolve_component(providers: &[&dyn Provider], query: &Query, state: &mut StrategyState) -> (r: (Option<Resolved>, Option<String>))
    requires
        cursors_le(old(state)@.cursors, (u128::MAX - 1) as nat),
    ensures
        outcome_of(r, final(state)@) == resolve_one(providers@, query@, old(state)@),
{
    resolve_component_within(providers, query, state, Ghost((u128::MAX - 1) as nat))
}

/// Resolves every leaf and bridge of a plan (`spec_resolve_plan`); each
/// query goes to the provider answering its domain. Unresolvable queries
/// become warnings, not errors: an architecture can name structure the
/// swarm has not discovered yet.
pub fn resolve_plan(plan: &mut Plan, providers: &[&dyn Provider])
    ensures
        final(plan)@ == spec_resolve_plan(old(plan)@, providers@),
{
    let ghost ps = providers@;
    let ghost p0 = plan@;
    let mut leaves: Vec<Leaf> = Vec::new();
    std::mem::swap(&mut leaves, &mut plan.leaves);
    let mut bridges: Vec<Bridge> = Vec::new();
    std::mem::swap(&mut bridges, &mut plan.bridges);
    let mut warnings: Vec<String> = Vec::new();
    std::mem::swap(&mut warnings, &mut plan.warnings);
    let mut state = StrategyState { claimed: Vec::new(), cursors: Vec::new() };
    let ghost empty = SpecState { claimed: seq![], cursors: seq![] };
    assert(state@.claimed =~= empty.claimed);
    assert(state@.cursors =~= empty.cursors);
    let n = leaves.len();
    let mut i: usize = 0;
    while i < n
        invariant
            i <= n == leaves@.len(),
            ps == providers@,
            resolve_leaves(ps, p0.leaves, 0, empty, p0.warnings)
                == resolve_leaves(ps, leaves_view(leaves@), i as int, state@, strings_view(warnings@)),
            cursors_le(state@.cursors, i as nat),
        decreases n - i,
    {
        let (res, reason) = resolve_component_within(providers, &leaves[i].query, &mut state, Ghost(i as nat));
        match reason {
            Some(r) => {
                let mut w = leaves[i].cell.clone();
                w.append(": ");
                w.append(r.as_str());
                let ghost before = warnings@;
                warnings.push(w);
                assert(strings_view(warnings@) == strings_view(before).push(w@));
            },
            None => {},
        }
        let ghost lv = leaves_view(leaves@);
        let updated = leaves[i].with_resolved(res);
        leaves.set(i, updated);
        assert(leaves_view(leaves@) =~= lv.update(i as int, SpecLeaf { resolved: opt_resolved_view(res), ..lv[i as int] }));
        i = i + 1;
    }
    let m = bridges.len();
    let mut j: usize = 0;
    let ghost st1 = state@;
    while j < m
        invariant
            j <= m == bridges@.len(),
            n <= usize::MAX,
            ps == providers@,
            resolve_bridges(ps, p0.bridges, 0, st1, resolve_leaves(ps, p0.leaves, 0, empty, p0.warnings).2)
                == resolve_bridges(ps, bridges_view(bridges@), j as int, state@, strings_view(warnings@)),
            cursors_le(state@.cursors, (n + j) as nat),
        decreases m - j,
    {
        let (res, reason) = resolve_component_within(providers, &bridges[j].query, &mut state, Ghost((n + j) as nat));
        match reason {
            Some(r) => {
                let mut w = String::from_str("coupling \"");
                w.append(bridges[j].query.class.as_str());
                w.append("\": ");
                w.append(r.as_str());
                let ghost before = warnings@;
                warnings.push(w);
                assert(strings_view(warnings@) == strings_view(before).push(w@));
            },
            None => {},
        }
        let ghost bv = bridges_view(bridges@);
        let updated = bridges[j].with_resolved(res);
        bridges.set(j, updated);
        assert(bridges_view(bridges@) =~= bv.update(j as int, SpecBridge { resolved: opt_resolved_view(res), ..bv[j as int] }));
        j = j + 1;
    }
    let deduped = dedup_exec(&warnings);
    let leaves_resolved = count_resolved_leaves(&leaves);
    let bridges_resolved = count_resolved_bridges(&bridges);
    let report = ResolutionReport {
        leaves_total: leaves.len(),
        leaves_resolved,
        bridges_total: bridges.len(),
        bridges_resolved,
    };
    let mut snaps: Vec<RegistrySnapshot> = Vec::new();
    std::mem::swap(&mut snaps, &mut plan.registry_snapshots);
    let ghost snaps0 = snapshots_view(snaps@);
    let mut k: usize = 0;
    while k < providers.len()
        invariant
            k <= providers@.len(),
            ps == providers@,
            snapshots_view(snaps@) == snaps0 + snapshots_of(ps).take(k as int),
        decreases providers@.len() - k,
    {
        let s = providers[k].snapshot();
        let ghost before = snaps@;
        snaps.push(s);
        assert(snapshots_view(snaps@) == snapshots_view(before).push(s@));
        assert(snapshots_of(ps).take(k + 1) == snapshots_of(ps).take(k as int).push(ps[k as int].spec_snapshot()));
        k = k + 1;
    }
    assert(snapshots_of(ps).take(ps.len() as int) == snapshots_of(ps));
    plan.leaves = leaves;
    plan.bridges = bridges;
    plan.warnings = deduped;
    plan.registry_snapshots = snaps;
    plan.resolution_report = Some(report);
}

/// How many required components a resolved plan still lacks: what
/// `strict` mode refuses to ship.
pub fn unresolved_count(plan: &Plan) -> (r: usize)
    requires
        plan.leaves@.len() + plan.bridges@.len() <= usize::MAX,
    ensures
        r == spec_unresolved_count(plan@),
{
    let a = count_resolved_leaves(&plan.leaves);
    let b = count_resolved_bridges(&plan.bridges);
    proof {
        lemma_leaves_resolved_le(leaves_view(plan.leaves@));
        lemma_bridges_resolved_le(bridges_view(plan.bridges@));
    }
    let x = plan.leaves.len() - a;
    let y = plan.bridges.len() - b;
    x + y
}

pub(crate) proof fn lemma_leaves_resolved_le(s: Seq<SpecLeaf>)
    ensures
        leaves_resolved(s) <= s.len(),
    decreases s.len(),
{
    if s.len() > 0 {
        lemma_leaves_resolved_le(s.drop_last());
    }
}

pub(crate) proof fn lemma_bridges_resolved_le(s: Seq<SpecBridge>)
    ensures
        bridges_resolved(s) <= s.len(),
    decreases s.len(),
{
    if s.len() > 0 {
        lemma_bridges_resolved_le(s.drop_last());
    }
}

} // verus!
