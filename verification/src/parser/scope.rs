//! Scope computation: which individuals and families a chart shows.
//!
//! Descendants and ancestors are found by a breadth-first walk from the root,
//! bounded by the number of generations; "forest" (or an unknown direction)
//! puts everything in scope.

use vstd::prelude::*;
use crate::genrep::{
    FamilyV, Genrep, GenrepV, IndividualV, find_family, find_individual, fams_view, inds_view,
    lookup_fam, lookup_ind, opt_str, strs, str_eq,
};
use crate::parser::contains_string;
use crate::text::{ascii_lower_seq, ascii_lowercase_of, chars_of, string_of, trim, trim_of};
use crate::util::{matches_direction, spec_matches_direction};
use std::collections::VecDeque;

verus! {



/// A diagnostic produced while computing the scope.
pub enum ScopeWarning {
    /// The requested root individual does not exist.
    RootNotFound(String),
    /// No root was requested and the representation holds no individual.
    NoIndividuals,
    /// The direction matched none of descendants/ancestors/pedigree/forest.
    UnknownDirection(String),
}

pub enum ScopeWarningV {
    RootNotFound(Seq<char>),
    NoIndividuals,
    UnknownDirection(Seq<char>),
}

impl View for ScopeWarning {
    type V = ScopeWarningV;

    open spec fn view(&self) -> ScopeWarningV {
        match self {
            ScopeWarning::RootNotFound(s) => ScopeWarningV::RootNotFound(s@),
            ScopeWarning::NoIndividuals => ScopeWarningV::NoIndividuals,
            ScopeWarning::UnknownDirection(s) => ScopeWarningV::UnknownDirection(s@),
        }
    }
}

pub open spec fn opt_warning(o: Option<ScopeWarning>) -> Option<ScopeWarningV> {
    match o {
        Some(w) => Some(w@),
        None => None,
    }
}

// ── the walk, as mathematics ─────────────────────────────────────────────────

/// State of a breadth-first walk: the queue of (ID, depth), and the individual
/// and family IDs found so far (each list without repetition).
pub struct WalkV {
    pub queue: Seq<(Seq<char>, int)>,
    pub iscope: Seq<Seq<char>>,
    pub fscope: Seq<Seq<char>>,
}

/// Set insertion on a list without repetition.
pub open spec fn set_add(s: Seq<Seq<char>>, x: Seq<char>) -> Seq<Seq<char>> {
    if s.contains(x) {
        s
    } else {
        s.push(x)
    }
}

pub open spec fn walk_init(root: Seq<char>) -> WalkV {
    WalkV { queue: seq![(root, 0)], iscope: seq![], fscope: seq![] }
}

/// `g.saturating_sub(1)`.
pub open spec fn gen_limit(g: u32) -> int {
    if g == 0 {
        0
    } else {
        g - 1
    }
}

/// Queue each child not yet found, at depth `d`.
pub open spec fn push_children(
    q: Seq<(Seq<char>, int)>,
    children: Seq<Seq<char>>,
    found: Seq<Seq<char>>,
    d: int,
) -> Seq<(Seq<char>, int)>
    decreases children.len(),
{
    if children.len() == 0 {
        q
    } else {
        let q1 = push_children(q, children.drop_last(), found, d);
        if found.contains(children.last()) {
            q1
        } else {
            q1.push((children.last(), d))
        }
    }
}

/// The other partner of a family, seen from `id`.
pub open spec fn partner_of(f: FamilyV<()>, id: Seq<char>) -> Option<Seq<char>> {
    if f.husband_id == Some(id) {
        f.wife_id
    } else {
        f.husband_id
    }
}

/// Descendant walk: one family of the individual just found.
pub open spec fn desc_family(
    g: GenrepV<()>,
    id: Seq<char>,
    depth: int,
    add_children: bool,
    add_spouses: bool,
    fam_id: Seq<char>,
    st: WalkV,
) -> WalkV {
    match lookup_fam(g.families, fam_id) {
        None => st,
        Some(f) => {
            let sp = partner_of(f, id);
            let i1 = if add_spouses && sp is Some {
                set_add(st.iscope, sp->0)
            } else {
                st.iscope
            };
            let q1 = if add_children {
                push_children(st.queue, f.children_ids, i1, depth + 1)
            } else {
                st.queue
            };
            WalkV { queue: q1, iscope: i1, fscope: set_add(st.fscope, fam_id) }
        },
    }
}

pub open spec fn desc_families(
    g: GenrepV<()>,
    id: Seq<char>,
    depth: int,
    add_children: bool,
    add_spouses: bool,
    fams: Seq<Seq<char>>,
    st: WalkV,
) -> WalkV
    decreases fams.len(),
{
    if fams.len() == 0 {
        st
    } else {
        desc_family(
            g,
            id,
            depth,
            add_children,
            add_spouses,
            fams.last(),
            desc_families(g, id, depth, add_children, add_spouses, fams.drop_last(), st),
        )
    }
}

pub open spec fn fams_of(g: GenrepV<()>, id: Seq<char>) -> Seq<Seq<char>> {
    match lookup_ind(g.individuals, id) {
        Some(i) => i.fams,
        None => seq![],
    }
}

pub open spec fn famc_of(g: GenrepV<()>, id: Seq<char>) -> Seq<Seq<char>> {
    match lookup_ind(g.individuals, id) {
        Some(i) => i.famc,
        None => seq![],
    }
}

/// Whether depth `d` is in the last visible generation.
pub open spec fn at_last_gen(gens: Option<u32>, d: int) -> bool {
    match gens {
        Some(gg) => d >= gen_limit(gg),
        None => false,
    }
}

/// One step of the descendant walk: take the first queued individual.
#[verifier::opaque]
pub open spec fn desc_pop(g: GenrepV<()>, gens: Option<u32>, lgs: bool, st: WalkV) -> WalkV {
    if st.queue.len() == 0 {
        st
    } else {
        let id = st.queue[0].0;
        let depth = st.queue[0].1;
        let q = st.queue.drop_first();
        if st.iscope.contains(id) {
            WalkV { queue: q, ..st }
        } else {
            let s1 = WalkV { queue: q, iscope: st.iscope.push(id), fscope: st.fscope };
            let ac = !at_last_gen(gens, depth);
            let asp = ac || lgs;
            if ac || asp {
                desc_families(g, id, depth, ac, asp, fams_of(g, id), s1)
            } else {
                s1
            }
        }
    }
}

pub open spec fn desc_run(g: GenrepV<()>, gens: Option<u32>, lgs: bool, root: Seq<char>, k: nat) -> WalkV
    decreases k,
{
    if k == 0 {
        walk_init(root)
    } else {
        desc_pop(g, gens, lgs, desc_run(g, gens, lgs, root, (k - 1) as nat))
    }
}

/// The finished descendant walk (the state once the queue is empty).
pub open spec fn desc_final(g: GenrepV<()>, gens: Option<u32>, lgs: bool, root: Seq<char>) -> WalkV {
    desc_run(g, gens, lgs, root, choose|k: nat| desc_run(g, gens, lgs, root, k).queue.len() == 0)
}

/// Ancestor walk: one family in which the individual just found is a child.
pub open spec fn anc_family(g: GenrepV<()>, depth: int, fam_id: Seq<char>, st: WalkV) -> WalkV {
    match lookup_fam(g.families, fam_id) {
        None => st,
        Some(f) => {
            let parents = opt_seq(f.husband_id) + opt_seq(f.wife_id);
            WalkV {
                queue: push_children(st.queue, parents, st.iscope, depth + 1),
                iscope: st.iscope,
                fscope: set_add(st.fscope, fam_id),
            }
        },
    }
}

pub open spec fn opt_seq(o: Option<Seq<char>>) -> Seq<Seq<char>> {
    match o {
        Some(x) => seq![x],
        None => seq![],
    }
}

pub open spec fn anc_families(g: GenrepV<()>, depth: int, fams: Seq<Seq<char>>, st: WalkV) -> WalkV
    decreases fams.len(),
{
    if fams.len() == 0 {
        st
    } else {
        anc_family(g, depth, fams.last(), anc_families(g, depth, fams.drop_last(), st))
    }
}

#[verifier::opaque]
pub open spec fn anc_pop(g: GenrepV<()>, gens: Option<u32>, st: WalkV) -> WalkV {
    if st.queue.len() == 0 {
        st
    } else {
        let id = st.queue[0].0;
        let depth = st.queue[0].1;
        let q = st.queue.drop_first();
        if st.iscope.contains(id) {
            WalkV { queue: q, ..st }
        } else {
            let s1 = WalkV { queue: q, iscope: st.iscope.push(id), fscope: st.fscope };
            let go_on = match gens {
                Some(gg) => depth < gen_limit(gg),
                None => true,
            };
            if go_on {
                anc_families(g, depth, famc_of(g, id), s1)
            } else {
                s1
            }
        }
    }
}

pub open spec fn anc_run(g: GenrepV<()>, gens: Option<u32>, root: Seq<char>, k: nat) -> WalkV
    decreases k,
{
    if k == 0 {
        walk_init(root)
    } else {
        anc_pop(g, gens, anc_run(g, gens, root, (k - 1) as nat))
    }
}

pub open spec fn anc_final(g: GenrepV<()>, gens: Option<u32>, root: Seq<char>) -> WalkV {
    anc_run(g, gens, root, choose|k: nat| anc_run(g, gens, root, k).queue.len() == 0)
}

/// Mark the listed individuals and families as in scope.
pub open spec fn apply_v(g: GenrepV<()>, is: Seq<Seq<char>>, fs: Seq<Seq<char>>) -> GenrepV<()> {
    GenrepV {
        individuals: g.individuals.map_values(
            |x: IndividualV<()>| if is.contains(x.id) { IndividualV { in_scope: true, ..x } } else { x },
        ),
        families: g.families.map_values(
            |x: FamilyV<()>| if fs.contains(x.id) { FamilyV { in_scope: true, ..x } } else { x },
        ),
        ..g
    }
}

/// Everything in scope.
pub open spec fn all_v(g: GenrepV<()>) -> GenrepV<()> {
    GenrepV {
        individuals: g.individuals.map_values(|x: IndividualV<()>| IndividualV { in_scope: true, ..x }),
        families: g.families.map_values(|x: FamilyV<()>| FamilyV { in_scope: true, ..x }),
        ..g
    }
}

/// The root: the requested individual if it exists, else the first individual
/// (when none was requested).
pub open spec fn root_v(g: GenrepV<()>, root_id: Option<Seq<char>>) -> Result<Seq<char>, ScopeWarningV> {
    match root_id {
        Some(id) => if lookup_ind(g.individuals, id) is Some {
            Ok(id)
        } else {
            Err(ScopeWarningV::RootNotFound(id))
        },
        None => match g.first_individual_id {
            Some(id) => Ok(id),
            None => Err(ScopeWarningV::NoIndividuals),
        },
    }
}

pub open spec fn lit_forest() -> Seq<char> {
    seq!['f', 'o', 'r', 'e', 's', 't']
}

pub open spec fn lit_descendants() -> Seq<char> {
    seq!['d', 'e', 's', 'c', 'e', 'n', 'd', 'a', 'n', 't', 's']
}

pub open spec fn lit_ancestors() -> Seq<char> {
    seq!['a', 'n', 'c', 'e', 's', 't', 'o', 'r', 's']
}

pub open spec fn lit_pedigree() -> Seq<char> {
    seq!['p', 'e', 'd', 'i', 'g', 'r', 'e', 'e']
}

/// The scope computation: the marked representation and the diagnostic, if any.
pub open spec fn spec_scope(
    g: GenrepV<()>,
    root_id: Option<Seq<char>>,
    direction: Seq<char>,
    generations: Option<u32>,
    lgs: bool,
) -> (GenrepV<()>, Option<ScopeWarningV>) {
    let dir = ascii_lower_seq(trim(direction));
    if spec_matches_direction(dir, lit_forest()) {
        (all_v(g), None)
    } else {
        match root_v(g, root_id) {
            Err(w) => (g, Some(w)),
            Ok(root) => if spec_matches_direction(dir, lit_descendants()) {
                let w = desc_final(g, generations, lgs, root);
                (apply_v(g, w.iscope, w.fscope), None)
            } else if spec_matches_direction(dir, lit_ancestors()) || spec_matches_direction(
                dir,
                lit_pedigree(),
            ) {
                let w = anc_final(g, generations, root);
                (apply_v(g, w.iscope, w.fscope), None)
            } else {
                (all_v(g), Some(ScopeWarningV::UnknownDirection(direction)))
            },
        }
    }
}

} // verus!

verus! {

// ── termination and bounds of the walks ──────────────────────────────────────

/// Every ID that a family mentions (husband, wife, children), family by family.
pub open spec fn fam_people(fams: Seq<FamilyV<()>>) -> Seq<Seq<char>>
    decreases fams.len(),
{
    if fams.len() == 0 {
        seq![]
    } else {
        let f = fams.last();
        fam_people(fams.drop_last()) + opt_seq(f.husband_id) + opt_seq(f.wife_id) + f.children_ids
    }
}

/// `univ` holds every ID mentioned by a family.
pub open spec fn univ_ok(g: GenrepV<()>, univ: Seq<Seq<char>>) -> bool {
    forall|i: int| 0 <= i < g.families.len() ==> fam_in(#[trigger] g.families[i], univ)
}

pub open spec fn fam_in(f: FamilyV<()>, univ: Seq<Seq<char>>) -> bool {
    &&& (forall|x: Seq<char>| #[trigger] f.children_ids.contains(x) ==> univ.contains(x))
    &&& (f.husband_id matches Some(h) ==> univ.contains(h))
    &&& (f.wife_id matches Some(w) ==> univ.contains(w))
}

proof fn lemma_fam_people(fams: Seq<FamilyV<()>>, i: int)
    requires
        0 <= i < fams.len(),
    ensures
        forall|x: Seq<char>| #[trigger] fams[i].children_ids.contains(x) ==> fam_people(fams).contains(x),
        fams[i].husband_id matches Some(h) ==> fam_people(fams).contains(h),
        fams[i].wife_id matches Some(w) ==> fam_people(fams).contains(w),
    decreases fams.len(),
{
    let f = fams.last();
    let p = fam_people(fams.drop_last());
    let a = p + opt_seq(f.husband_id);
    let b = a + opt_seq(f.wife_id);
    assert(fam_people(fams) == b + f.children_ids);
    if i < fams.len() - 1 {
        lemma_fam_people(fams.drop_last(), i);
        assert(fams.drop_last()[i] == fams[i]);
        assert forall|x: Seq<char>| p.contains(x) implies fam_people(fams).contains(x) by {
            let k = choose|k: int| 0 <= k < p.len() && p[k] == x;
            assert(fam_people(fams)[k] == x);
        }
    } else {
        assert forall|x: Seq<char>| #[trigger] fams[i].children_ids.contains(x) implies fam_people(
            fams,
        ).contains(x) by {
            let k = choose|k: int| 0 <= k < f.children_ids.len() && f.children_ids[k] == x;
            assert(fam_people(fams)[b.len() + k] == x);
        }
        if let Some(h) = f.husband_id {
            assert(fam_people(fams)[p.len() as int] == h);
        }
        if let Some(w) = f.wife_id {
            assert(fam_people(fams)[a.len() as int] == w);
        }
    }
}

pub open spec fn universe(g: GenrepV<()>, root: Seq<char>) -> Seq<Seq<char>> {
    seq![root] + fam_people(g.families)
}

proof fn lemma_universe(g: GenrepV<()>, root: Seq<char>)
    ensures
        univ_ok(g, universe(g, root)),
        universe(g, root).contains(root),
{
    let u = universe(g, root);
    let p = fam_people(g.families);
    assert(u[0] == root);
    assert forall|i: int| 0 <= i < g.families.len() implies fam_in(#[trigger] g.families[i], u) by {
        lemma_fam_people(g.families, i);
        assert forall|x: Seq<char>| p.contains(x) implies u.contains(x) by {
            let k = choose|k: int| 0 <= k < p.len() && p[k] == x;
            assert(u[k + 1] == x);
        }
    }
}

pub open spec fn entry_ok(e: (Seq<char>, int), univ: Seq<Seq<char>>, n: int) -> bool {
    univ.contains(e.0) && 0 <= e.1 <= n
}

pub open spec fn queue_ok(q: Seq<(Seq<char>, int)>, univ: Seq<Seq<char>>, n: int) -> bool {
    forall|j: int| 0 <= j < q.len() ==> entry_ok(#[trigger] q[j], univ, n)
}

/// The walk's bookkeeping: found IDs are distinct and within `univ`; queued IDs
/// are within `univ` with depths at most the number of IDs found.
pub open spec fn walk_inv(w: WalkV, univ: Seq<Seq<char>>) -> bool {
    &&& w.iscope.no_duplicates()
    &&& (forall|x: Seq<char>| #[trigger] w.iscope.contains(x) ==> univ.contains(x))
    &&& queue_ok(w.queue, univ, w.iscope.len() as int)
}

proof fn lemma_queue_mono(q: Seq<(Seq<char>, int)>, univ: Seq<Seq<char>>, n: int, m: int)
    requires
        queue_ok(q, univ, n),
        n <= m,
    ensures
        queue_ok(q, univ, m),
{
    assert forall|j: int| 0 <= j < q.len() implies entry_ok(#[trigger] q[j], univ, m) by {
        assert(entry_ok(q[j], univ, n));
    }
}

proof fn lemma_card(is: Seq<Seq<char>>, univ: Seq<Seq<char>>)
    requires
        is.no_duplicates(),
        forall|x: Seq<char>| #[trigger] is.contains(x) ==> univ.contains(x),
    ensures
        is.len() <= univ.len(),
{
    is.unique_seq_to_set();
    univ.lemma_cardinality_of_set();
    assert forall|x: Seq<char>| #[trigger] is.to_set().contains(x) implies univ.to_set().contains(x) by {
        assert(is.contains(x));
    }
    assert(is.to_set().subset_of(univ.to_set()));
    vstd::set_lib::lemma_len_subset(is.to_set(), univ.to_set());
}

proof fn lemma_set_add(s: Seq<Seq<char>>, x: Seq<char>)
    requires
        s.no_duplicates(),
    ensures
        set_add(s, x).no_duplicates(),
        set_add(s, x).contains(x),
        forall|y: Seq<char>| #[trigger] set_add(s, x).contains(y) <==> (s.contains(y) || y == x),
        set_add(s, x).len() >= s.len(),
{
    if !s.contains(x) {
        let t = s.push(x);
        assert(t[s.len() as int] == x);
        assert forall|y: Seq<char>| #[trigger] t.contains(y) <==> (s.contains(y) || y == x) by {
            if t.contains(y) {
                let k = choose|k: int| 0 <= k < t.len() && t[k] == y;
                if k < s.len() {
                    assert(s[k] == y);
                }
            }
            if s.contains(y) {
                let k = choose|k: int| 0 <= k < s.len() && s[k] == y;
                assert(t[k] == y);
            }
        }
    }
}

proof fn lemma_push_children(
    q: Seq<(Seq<char>, int)>,
    children: Seq<Seq<char>>,
    found: Seq<Seq<char>>,
    d: int,
    univ: Seq<Seq<char>>,
    n: int,
)
    requires
        queue_ok(q, univ, n),
        forall|x: Seq<char>| #[trigger] children.contains(x) ==> univ.contains(x),
        0 <= d <= n,
    ensures
        queue_ok(push_children(q, children, found, d), univ, n),
        push_children(q, children, found, d).len() >= q.len(),
    decreases children.len(),
{
    if children.len() > 0 {
        let c = children.drop_last();
        assert forall|x: Seq<char>| #[trigger] c.contains(x) implies univ.contains(x) by {
            let k = choose|k: int| 0 <= k < c.len() && c[k] == x;
            assert(children[k] == x);
            assert(children.contains(x));
        }
        lemma_push_children(q, c, found, d, univ, n);
        let q1 = push_children(q, c, found, d);
        assert(children[children.len() - 1] == children.last());
        assert(children.contains(children.last()));
        if !found.contains(children.last()) {
            let q2 = q1.push((children.last(), d));
            assert forall|j: int| 0 <= j < q2.len() implies entry_ok(#[trigger] q2[j], univ, n) by {
                if j < q1.len() {
                    assert(q2[j] == q1[j]);
                }
            }
        }
    }
}

proof fn lemma_family_members(g: GenrepV<()>, fam_id: Seq<char>, univ: Seq<Seq<char>>)
    requires
        univ_ok(g, univ),
        lookup_fam(g.families, fam_id) is Some,
    ensures
        fam_in(lookup_fam(g.families, fam_id)->0, univ),
{
    let i = crate::genrep::fam_index(g.families, fam_id);
    assert(0 <= i < g.families.len());
    assert(fam_in(g.families[i], univ));
}

proof fn lemma_desc_family(
    g: GenrepV<()>,
    id: Seq<char>,
    depth: int,
    ac: bool,
    asp: bool,
    fam_id: Seq<char>,
    st: WalkV,
    univ: Seq<Seq<char>>,
)
    requires
        walk_inv(st, univ),
        univ_ok(g, univ),
        0 <= depth < st.iscope.len(),
    ensures
        walk_inv(desc_family(g, id, depth, ac, asp, fam_id, st), univ),
        desc_family(g, id, depth, ac, asp, fam_id, st).iscope.len() >= st.iscope.len(),
{
    match lookup_fam(g.families, fam_id) {
        None => {},
        Some(f) => {
            lemma_family_members(g, fam_id, univ);
            let sp = partner_of(f, id);
            let i1 = if asp && sp is Some {
                set_add(st.iscope, sp->0)
            } else {
                st.iscope
            };
            if asp && sp is Some {
                lemma_set_add(st.iscope, sp->0);
                assert(univ.contains(sp->0));
            }
            assert forall|x: Seq<char>| #[trigger] i1.contains(x) implies univ.contains(x) by {
                if asp && sp is Some {
                    lemma_set_add(st.iscope, sp->0);
                }
            }
            lemma_queue_mono(st.queue, univ, st.iscope.len() as int, i1.len() as int);
            if ac {
                lemma_push_children(st.queue, f.children_ids, i1, depth + 1, univ, i1.len() as int);
            }
        },
    }
}

proof fn lemma_desc_families(
    g: GenrepV<()>,
    id: Seq<char>,
    depth: int,
    ac: bool,
    asp: bool,
    fams: Seq<Seq<char>>,
    st: WalkV,
    univ: Seq<Seq<char>>,
)
    requires
        walk_inv(st, univ),
        univ_ok(g, univ),
        0 <= depth < st.iscope.len(),
    ensures
        walk_inv(desc_families(g, id, depth, ac, asp, fams, st), univ),
        desc_families(g, id, depth, ac, asp, fams, st).iscope.len() >= st.iscope.len(),
    decreases fams.len(),
{
    if fams.len() > 0 {
        lemma_desc_families(g, id, depth, ac, asp, fams.drop_last(), st, univ);
        lemma_desc_family(
            g,
            id,
            depth,
            ac,
            asp,
            fams.last(),
            desc_families(g, id, depth, ac, asp, fams.drop_last(), st),
            univ,
        );
    }
}

proof fn lemma_anc_family(g: GenrepV<()>, depth: int, fam_id: Seq<char>, st: WalkV, univ: Seq<Seq<char>>)
    requires
        walk_inv(st, univ),
        univ_ok(g, univ),
        0 <= depth < st.iscope.len(),
    ensures
        walk_inv(anc_family(g, depth, fam_id, st), univ),
        anc_family(g, depth, fam_id, st).iscope == st.iscope,
{
    match lookup_fam(g.families, fam_id) {
        None => {},
        Some(f) => {
            lemma_family_members(g, fam_id, univ);
            let parents = opt_seq(f.husband_id) + opt_seq(f.wife_id);
            assert forall|x: Seq<char>| #[trigger] parents.contains(x) implies univ.contains(x) by {
                let k = choose|k: int| 0 <= k < parents.len() && parents[k] == x;
                if k < opt_seq(f.husband_id).len() {
                    assert(f.husband_id == Some(x));
                } else {
                    assert(f.wife_id == Some(x));
                }
            }
            lemma_push_children(st.queue, parents, st.iscope, depth + 1, univ, st.iscope.len() as int);
        },
    }
}

proof fn lemma_anc_families(
    g: GenrepV<()>,
    depth: int,
    fams: Seq<Seq<char>>,
    st: WalkV,
    univ: Seq<Seq<char>>,
)
    requires
        walk_inv(st, univ),
        univ_ok(g, univ),
        0 <= depth < st.iscope.len(),
    ensures
        walk_inv(anc_families(g, depth, fams, st), univ),
        anc_families(g, depth, fams, st).iscope == st.iscope,
    decreases fams.len(),
{
    if fams.len() > 0 {
        lemma_anc_families(g, depth, fams.drop_last(), st, univ);
        lemma_anc_family(g, depth, fams.last(), anc_families(g, depth, fams.drop_last(), st), univ);
    }
}

/// After the popped ID is found: the walk's bookkeeping still holds.
proof fn lemma_found(st: WalkV, id: Seq<char>, univ: Seq<Seq<char>>)
    requires
        walk_inv(st, univ),
        st.queue.len() > 0,
        st.queue[0].0 == id,
        !st.iscope.contains(id),
    ensures
        walk_inv(
            WalkV { queue: st.queue.drop_first(), iscope: st.iscope.push(id), fscope: st.fscope },
            univ,
        ),
        0 <= st.queue[0].1 < st.iscope.push(id).len(),
{
    assert(entry_ok(st.queue[0], univ, st.iscope.len() as int));
    lemma_set_add(st.iscope, id);
    assert(set_add(st.iscope, id) == st.iscope.push(id));
    let q = st.queue.drop_first();
    assert forall|j: int| 0 <= j < q.len() implies entry_ok(#[trigger] q[j], univ, (st.iscope.len() + 1) as int) by {
        assert(q[j] == st.queue[j + 1]);
        assert(entry_ok(st.queue[j + 1], univ, st.iscope.len() as int));
    }
}

proof fn lemma_skip(st: WalkV, univ: Seq<Seq<char>>)
    requires
        walk_inv(st, univ),
        st.queue.len() > 0,
    ensures
        walk_inv(WalkV { queue: st.queue.drop_first(), ..st }, univ),
{
    let q = st.queue.drop_first();
    assert forall|j: int| 0 <= j < q.len() implies entry_ok(#[trigger] q[j], univ, st.iscope.len() as int) by {
        assert(q[j] == st.queue[j + 1]);
    }
}

proof fn lemma_desc_stable(g: GenrepV<()>, gens: Option<u32>, lgs: bool, root: Seq<char>, k0: nat, k: nat)
    requires
        desc_run(g, gens, lgs, root, k0).queue.len() == 0,
        k0 <= k,
    ensures
        desc_run(g, gens, lgs, root, k) == desc_run(g, gens, lgs, root, k0),
    decreases k - k0,
{
    reveal(desc_pop);
    if k > k0 {
        lemma_desc_stable(g, gens, lgs, root, k0, (k - 1) as nat);
    }
}

proof fn lemma_desc_final(g: GenrepV<()>, gens: Option<u32>, lgs: bool, root: Seq<char>, k0: nat)
    requires
        desc_run(g, gens, lgs, root, k0).queue.len() == 0,
    ensures
        desc_final(g, gens, lgs, root) == desc_run(g, gens, lgs, root, k0),
{
    let k1 = choose|k: nat| desc_run(g, gens, lgs, root, k).queue.len() == 0;
    assert(desc_run(g, gens, lgs, root, k1).queue.len() == 0);
    if k1 <= k0 {
        lemma_desc_stable(g, gens, lgs, root, k1, k0);
    } else {
        lemma_desc_stable(g, gens, lgs, root, k0, k1);
    }
}

proof fn lemma_anc_stable(g: GenrepV<()>, gens: Option<u32>, root: Seq<char>, k0: nat, k: nat)
    requires
        anc_run(g, gens, root, k0).queue.len() == 0,
        k0 <= k,
    ensures
        anc_run(g, gens, root, k) == anc_run(g, gens, root, k0),
    decreases k - k0,
{
    reveal(anc_pop);
    if k > k0 {
        lemma_anc_stable(g, gens, root, k0, (k - 1) as nat);
    }
}

proof fn lemma_anc_final(g: GenrepV<()>, gens: Option<u32>, root: Seq<char>, k0: nat)
    requires
        anc_run(g, gens, root, k0).queue.len() == 0,
    ensures
        anc_final(g, gens, root) == anc_run(g, gens, root, k0),
{
    let k1 = choose|k: nat| anc_run(g, gens, root, k).queue.len() == 0;
    assert(anc_run(g, gens, root, k1).queue.len() == 0);
    if k1 <= k0 {
        lemma_anc_stable(g, gens, root, k1, k0);
    } else {
        lemma_anc_stable(g, gens, root, k0, k1);
    }
}

// ── the walks, as code ───────────────────────────────────────────────────────

pub open spec fn q_view(q: Seq<(String, usize)>) -> Seq<(Seq<char>, int)> {
    q.map_values(|p: (String, usize)| (p.0@, p.1 as int))
}

spec fn walk_of(q: &VecDeque<(String, usize)>, is: &Vec<String>, fs: &Vec<String>) -> WalkV {
    WalkV { queue: q_view(q@), iscope: strs(is@), fscope: strs(fs@) }
}

fn add_unique(v: &mut Vec<String>, x: &String)
    ensures
        strs(final(v)@) == set_add(strs(old(v)@), x@),
{
    if !contains_string(v, x) {
        v.push(x.clone());
        assert(strs(v@) =~= strs(old(v)@).push(x@));
    }
}

fn push_new(q: &mut VecDeque<(String, usize)>, children: &Vec<String>, found: &Vec<String>, d: usize)
    ensures
        q_view(final(q)@) == push_children(q_view(old(q)@), strs(children@), strs(found@), d as int),
{
    let mut j: usize = 0;
    while j < children.len()
        invariant
            j <= children.len(),
            q_view(q@) == push_children(
                q_view(old(q)@),
                strs(children@).take(j as int),
                strs(found@),
                d as int,
            ),
        decreases children.len() - j,
    {
        let ghost before = q_view(q@);
        assert(strs(children@).take(j + 1).drop_last() =~= strs(children@).take(j as int));
        if !contains_string(found, &children[j]) {
            q.push_back((children[j].clone(), d));
            assert(q_view(q@) =~= before.push((children@[j as int]@, d as int)));
        }
        j = j + 1;
    }
    assert(strs(children@).take(children.len() as int) =~= strs(children@));
}

fn opt_is(o: &Option<String>, id: &String) -> (r: bool)
    ensures
        r == (opt_str(*o) == Some(id@)),
{
    match o {
        Some(h) => str_eq(h.as_str(), id.as_str()),
        None => false,
    }
}

fn desc_family_ex(
    g: &Genrep,
    id: &String,
    depth: usize,
    ac: bool,
    asp: bool,
    fam_id: &String,
    q: &mut VecDeque<(String, usize)>,
    is: &mut Vec<String>,
    fs: &mut Vec<String>,
)
    requires
        depth < old(is).len(),
    ensures
        walk_of(final(q), final(is), final(fs)) == desc_family(
            g@,
            id@,
            depth as int,
            ac,
            asp,
            fam_id@,
            walk_of(old(q), old(is), old(fs)),
        ),
{
    match find_family(&g.families, fam_id.as_str()) {
        None => {},
        Some(fi) => {
            let f = &g.families[fi];
            let sp: Option<&String> = if opt_is(&f.husband_id, id) {
                f.wife_id.as_ref()
            } else {
                f.husband_id.as_ref()
            };
            if asp {
                match sp {
                    Some(s) => {
                        add_unique(is, s);
                    },
                    None => {},
                }
            }
            if ac {
                assert(strs(is@).len() >= strs(old(is)@).len()) by {
                    if asp && sp is Some {
                        lemma_set_add_len(strs(old(is)@), sp.unwrap()@);
                    }
                }
                push_new(q, &f.children_ids, is, depth + 1);
            }
            add_unique(fs, fam_id);
        },
    }
}

proof fn lemma_set_add_len(s: Seq<Seq<char>>, x: Seq<char>)
    ensures
        set_add(s, x).len() >= s.len(),
{
}

#[verifier::spinoff_prover]
#[verifier::rlimit(30)]
fn desc_families_ex(
    g: &Genrep,
    id: &String,
    depth: usize,
    ac: bool,
    asp: bool,
    fams: &Vec<String>,
    q: &mut VecDeque<(String, usize)>,
    is: &mut Vec<String>,
    fs: &mut Vec<String>,
    Ghost(univ): Ghost<Seq<Seq<char>>>,
)
    requires
        univ_ok(g@, univ),
        depth < old(is).len(),
        walk_inv(walk_of(old(q), old(is), old(fs)), univ),
    ensures
        walk_of(final(q), final(is), final(fs)) == desc_families(
            g@,
            id@,
            depth as int,
            ac,
            asp,
            strs(fams@),
            walk_of(old(q), old(is), old(fs)),
        ),
        walk_inv(walk_of(final(q), final(is), final(fs)), univ),
        final(is).len() >= old(is).len(),
{
    let ghost gv = g@;
    let ghost fv = strs(fams@);
    let ghost s1 = walk_of(q, is, fs);
    let mut j: usize = 0;
    assert(fv.take(0) =~= seq![]);
    while j < fams.len()
        invariant
            gv == g@,
            univ_ok(gv, univ),
            fv == strs(fams@),
            j <= fams.len(),
            depth < is.len(),
            s1.iscope.len() <= is.len(),
            walk_of(q, is, fs) == desc_families(gv, id@, depth as int, ac, asp, fv.take(j as int), s1),
            walk_inv(walk_of(q, is, fs), univ),
        decreases fams.len() - j,
    {
        assert(fv.take(j + 1).drop_last() =~= fv.take(j as int));
        let ghost before = walk_of(q, is, fs);
        desc_family_ex(g, id, depth, ac, asp, &fams[j], q, is, fs);
        proof {
            lemma_desc_family(gv, id@, depth as int, ac, asp, fv[j as int], before, univ);
        }
        j = j + 1;
    }
    assert(fv.take(fams.len() as int) =~= fv);
}

#[verifier::rlimit(40)]
fn anc_families_ex(
    g: &Genrep,
    depth: usize,
    fams: &Vec<String>,
    q: &mut VecDeque<(String, usize)>,
    is: &Vec<String>,
    fs: &mut Vec<String>,
    Ghost(univ): Ghost<Seq<Seq<char>>>,
)
    requires
        univ_ok(g@, univ),
        depth < is.len(),
        walk_inv(walk_of(old(q), is, old(fs)), univ),
    ensures
        walk_of(final(q), is, final(fs)) == anc_families(
            g@,
            depth as int,
            strs(fams@),
            walk_of(old(q), is, old(fs)),
        ),
        walk_inv(walk_of(final(q), is, final(fs)), univ),
{
    let ghost gv = g@;
    let ghost fv = strs(fams@);
    let ghost s1 = walk_of(q, is, fs);
    let mut j: usize = 0;
    assert(fv.take(0) =~= seq![]);
    while j < fams.len()
        invariant
            gv == g@,
            univ_ok(gv, univ),
            fv == strs(fams@),
            j <= fams.len(),
            depth < is.len(),
            s1 == walk_of(old(q), is, old(fs)),
            walk_of(q, is, fs) == anc_families(gv, depth as int, fv.take(j as int), s1),
            walk_inv(walk_of(q, is, fs), univ),
        decreases fams.len() - j,
    {
        assert(fv.take(j + 1).drop_last() =~= fv.take(j as int));
        let ghost before = walk_of(q, is, fs);
        anc_family_ex(g, depth, &fams[j], q, is, fs);
        proof {
            lemma_anc_family(gv, depth as int, fv[j as int], before, univ);
            assert(fv.take(j + 1).last() == fv[j as int]);
            assert(anc_families(gv, depth as int, fv.take(j + 1), s1) == anc_family(
                gv,
                depth as int,
                fv[j as int],
                anc_families(gv, depth as int, fv.take(j as int), s1),
            ));
        }
        j = j + 1;
    }
    assert(fv.take(fams.len() as int) =~= fv);
}

fn desc_step(
    g: &Genrep,
    gens: Option<u32>,
    lgs: bool,
    q: &mut VecDeque<(String, usize)>,
    is: &mut Vec<String>,
    fs: &mut Vec<String>,
    Ghost(univ): Ghost<Seq<Seq<char>>>,
)
    requires
        old(q).len() > 0,
        univ_ok(g@, univ),
        walk_inv(walk_of(old(q), old(is), old(fs)), univ),
    ensures
        walk_of(final(q), final(is), final(fs)) == desc_pop(g@, gens, lgs, walk_of(old(q), old(is), old(fs))),
        walk_inv(walk_of(final(q), final(is), final(fs)), univ),
        final(is).len() > old(is).len() || (final(is).len() == old(is).len() && final(q).len() < old(q).len()),
{
    reveal(desc_pop);
    let ghost gv = g@;
    let ghost st = walk_of(q, is, fs);
    let (id, depth) = q.pop_front().unwrap();
    assert(q_view(q@) =~= st.queue.drop_first());
    if contains_string(is, &id) {
        proof {
            lemma_skip(st, univ);
        }
        return;
    }
    proof {
        lemma_found(st, id@, univ);
    }
    is.push(id.clone());
    assert(strs(is@) =~= st.iscope.push(id@));
    let ghost s1 = walk_of(q, is, fs);
    let at_last = match gens {
        Some(gg) => depth >= (if gg == 0 { 0 } else { gg - 1 }) as usize,
        None => false,
    };
    let ac = !at_last;
    let asp = ac || lgs;
    if ac || asp {
        match find_individual(&g.individuals, id.as_str()) {
            Some(ii) => {
                let fams = &g.individuals[ii].fams;
                assert(strs(fams@) == fams_of(gv, id@));
                desc_families_ex(g, &id, depth, ac, asp, fams, q, is, fs, Ghost(univ));
            },
            None => {
                assert(fams_of(gv, id@) =~= seq![]);
            },
        }
    }
}

fn scope_descendants(g: &Genrep, root: &String, gens: Option<u32>, lgs: bool) -> (r: (
    Vec<String>,
    Vec<String>,
))
    ensures
        strs(r.0@) == desc_final(g@, gens, lgs, root@).iscope,
        strs(r.1@) == desc_final(g@, gens, lgs, root@).fscope,
        desc_final(g@, gens, lgs, root@).iscope.contains(root@),
{
    let ghost gv = g@;
    let ghost univ = universe(gv, root@);
    proof {
        lemma_universe(gv, root@);
    }
    let mut q: VecDeque<(String, usize)> = VecDeque::new();
    q.push_back((root.clone(), 0));
    let mut is: Vec<String> = Vec::new();
    let mut fs: Vec<String> = Vec::new();
    let ghost mut k: nat = 0;
    assert(q_view(q@) =~= seq![(root@, 0int)]);
    assert(strs(is@) =~= seq![]);
    assert(strs(fs@) =~= seq![]);
    assert(entry_ok(q_view(q@)[0], univ, 0));
    while q.len() > 0
        invariant
            gv == g@,
            univ_ok(gv, univ),
            walk_of(&q, &is, &fs) == desc_run(gv, gens, lgs, root@, k),
            walk_inv(walk_of(&q, &is, &fs), univ),
            is.len() <= univ.len(),
        decreases univ.len() - is.len(), q.len(),
    {
        desc_step(g, gens, lgs, &mut q, &mut is, &mut fs, Ghost(univ));
        proof {
            k = k + 1;
            lemma_card(strs(is@), univ);
        }
    }
    proof {
        lemma_desc_final(gv, gens, lgs, root@, k);
        if k == 0 {
            assert(desc_run(gv, gens, lgs, root@, 0).queue.len() == 1);
        }
        lemma_desc_run_root(gv, gens, lgs, root@, k);
    }
    (is, fs)
}

fn anc_family_ex(
    g: &Genrep,
    depth: usize,
    fam_id: &String,
    q: &mut VecDeque<(String, usize)>,
    is: &Vec<String>,
    fs: &mut Vec<String>,
)
    requires
        depth < is.len(),
    ensures
        walk_of(final(q), is, final(fs)) == anc_family(g@, depth as int, fam_id@, walk_of(old(q), is, old(fs))),
{
    match find_family(&g.families, fam_id.as_str()) {
        None => {},
        Some(fi) => {
            let f = &g.families[fi];
            let mut parents: Vec<String> = Vec::new();
            match &f.husband_id {
                Some(h) => {
                    parents.push(h.clone());
                },
                None => {},
            }
            match &f.wife_id {
                Some(w) => {
                    parents.push(w.clone());
                },
                None => {},
            }
            assert(strs(parents@) =~= opt_seq(opt_str(f.husband_id)) + opt_seq(opt_str(f.wife_id)));
            push_new(q, &parents, is, depth + 1);
            add_unique(fs, fam_id);
        },
    }
}

fn anc_step(
    g: &Genrep,
    gens: Option<u32>,
    q: &mut VecDeque<(String, usize)>,
    is: &mut Vec<String>,
    fs: &mut Vec<String>,
    Ghost(univ): Ghost<Seq<Seq<char>>>,
)
    requires
        old(q).len() > 0,
        univ_ok(g@, univ),
        walk_inv(walk_of(old(q), old(is), old(fs)), univ),
    ensures
        walk_of(final(q), final(is), final(fs)) == anc_pop(g@, gens, walk_of(old(q), old(is), old(fs))),
        walk_inv(walk_of(final(q), final(is), final(fs)), univ),
        final(is).len() > old(is).len() || (final(is).len() == old(is).len() && final(q).len() < old(q).len()),
{
    reveal(anc_pop);
    let ghost gv = g@;
    let ghost st = walk_of(q, is, fs);
    let (id, depth) = q.pop_front().unwrap();
    assert(q_view(q@) =~= st.queue.drop_first());
    if contains_string(is, &id) {
        proof {
            lemma_skip(st, univ);
        }
        return;
    }
    proof {
        lemma_found(st, id@, univ);
    }
    is.push(id.clone());
    assert(strs(is@) =~= st.iscope.push(id@));
    let ghost s1 = walk_of(q, is, fs);
    let go_on = match gens {
        Some(gg) => depth < (if gg == 0 { 0 } else { gg - 1 }) as usize,
        None => true,
    };
    if go_on {
        match find_individual(&g.individuals, id.as_str()) {
            Some(ii) => {
                let fams = &g.individuals[ii].famc;
                assert(strs(fams@) == famc_of(gv, id@));
                anc_families_ex(g, depth, fams, q, is, fs, Ghost(univ));
            },
            None => {
                assert(famc_of(gv, id@) =~= seq![]);
            },
        }
    }
}

fn scope_ancestors(g: &Genrep, root: &String, gens: Option<u32>) -> (r: (Vec<String>, Vec<String>))
    ensures
        strs(r.0@) == anc_final(g@, gens, root@).iscope,
        strs(r.1@) == anc_final(g@, gens, root@).fscope,
        anc_final(g@, gens, root@).iscope.contains(root@),
{
    let ghost gv = g@;
    let ghost univ = universe(gv, root@);
    proof {
        lemma_universe(gv, root@);
    }
    let mut q: VecDeque<(String, usize)> = VecDeque::new();
    q.push_back((root.clone(), 0));
    let mut is: Vec<String> = Vec::new();
    let mut fs: Vec<String> = Vec::new();
    let ghost mut k: nat = 0;
    assert(q_view(q@) =~= seq![(root@, 0int)]);
    assert(strs(is@) =~= seq![]);
    assert(strs(fs@) =~= seq![]);
    assert(entry_ok(q_view(q@)[0], univ, 0));
    while q.len() > 0
        invariant
            gv == g@,
            univ_ok(gv, univ),
            walk_of(&q, &is, &fs) == anc_run(gv, gens, root@, k),
            walk_inv(walk_of(&q, &is, &fs), univ),
            is.len() <= univ.len(),
        decreases univ.len() - is.len(), q.len(),
    {
        anc_step(g, gens, &mut q, &mut is, &mut fs, Ghost(univ));
        proof {
            k = k + 1;
            lemma_card(strs(is@), univ);
        }
    }
    proof {
        lemma_anc_final(gv, gens, root@, k);
        if k == 0 {
            assert(anc_run(gv, gens, root@, 0).queue.len() == 1);
        }
        lemma_anc_run_root(gv, gens, root@, k);
    }
    (is, fs)
}

} // verus!

verus! {

// ── marking the scope ────────────────────────────────────────────────────────

fn apply_scope(g: &mut Genrep, is: &Vec<String>, fs: &Vec<String>)
    ensures
        final(g)@ == apply_v(old(g)@, strs(is@), strs(fs@)),
{
    let ghost g0 = g@;
    let mut i: usize = 0;
    while i < g.individuals.len()
        invariant
            i <= g.individuals.len(),
            g.individuals.len() == g0.individuals.len(),
            g.families@ == old(g).families@,
            g.first_individual_id == old(g).first_individual_id,
            forall|k: int|
                0 <= k < g.individuals.len() ==> #[trigger] inds_view(g.individuals@)[k] == (if k < i
                    && strs(is@).contains(g0.individuals[k].id) {
                    IndividualV { in_scope: true, ..g0.individuals[k] }
                } else {
                    g0.individuals[k]
                }),
        decreases g.individuals.len() - i,
    {
        let ghost before = inds_view(g.individuals@);
        if contains_string(is, &g.individuals[i].id) {
            g.individuals[i].in_scope = true;
        }
        assert forall|k: int| 0 <= k < g.individuals.len() && k != i implies #[trigger] inds_view(g.individuals@)[k] == before[k] by {}
        i = i + 1;
    }
    let mut i: usize = 0;
    while i < g.families.len()
        invariant
            i <= g.families.len(),
            g.families.len() == g0.families.len(),
            inds_view(g.individuals@) == apply_v(g0, strs(is@), strs(fs@)).individuals,
            g.first_individual_id == old(g).first_individual_id,
            forall|k: int|
                0 <= k < g.families.len() ==> #[trigger] fams_view(g.families@)[k] == (if k < i
                    && strs(fs@).contains(g0.families[k].id) {
                    FamilyV { in_scope: true, ..g0.families[k] }
                } else {
                    g0.families[k]
                }),
        decreases g.families.len() - i,
    {
        let ghost before = fams_view(g.families@);
        assert(before[i as int] == g0.families[i as int]);
        if contains_string(fs, &g.families[i].id) {
            g.families[i].in_scope = true;
            assert(fams_view(g.families@)[i as int] == FamilyV { in_scope: true, ..g0.families[i as int] });
        }
        assert forall|k: int| 0 <= k < g.families.len() && k != i implies #[trigger] fams_view(g.families@)[k] == before[k] by {}
        i = i + 1;
    }
    assert(inds_view(g.individuals@) =~= apply_v(g0, strs(is@), strs(fs@)).individuals);
    assert(fams_view(g.families@) =~= apply_v(g0, strs(is@), strs(fs@)).families);
}

fn scope_all(g: &mut Genrep)
    ensures
        final(g)@ == all_v(old(g)@),
{
    let ghost g0 = g@;
    let mut i: usize = 0;
    while i < g.individuals.len()
        invariant
            i <= g.individuals.len(),
            g.individuals.len() == g0.individuals.len(),
            g.families@ == old(g).families@,
            g.first_individual_id == old(g).first_individual_id,
            forall|k: int|
                0 <= k < g.individuals.len() ==> #[trigger] inds_view(g.individuals@)[k] == (if k
                    < i {
                    IndividualV { in_scope: true, ..g0.individuals[k] }
                } else {
                    g0.individuals[k]
                }),
        decreases g.individuals.len() - i,
    {
        let ghost before = inds_view(g.individuals@);
        g.individuals[i].in_scope = true;
        assert(before[i as int] == g0.individuals[i as int]);
        assert(inds_view(g.individuals@)[i as int] == IndividualV { in_scope: true, ..g0.individuals[i as int] });
        assert forall|k: int| 0 <= k < g.individuals.len() && k != i implies #[trigger] inds_view(g.individuals@)[k] == before[k] by {}
        i = i + 1;
    }
    let mut i: usize = 0;
    while i < g.families.len()
        invariant
            i <= g.families.len(),
            g.families.len() == g0.families.len(),
            inds_view(g.individuals@) == all_v(g0).individuals,
            g.first_individual_id == old(g).first_individual_id,
            forall|k: int|
                0 <= k < g.families.len() ==> #[trigger] fams_view(g.families@)[k] == (if k < i {
                    FamilyV { in_scope: true, ..g0.families[k] }
                } else {
                    g0.families[k]
                }),
        decreases g.families.len() - i,
    {
        let ghost before = fams_view(g.families@);
        g.families[i].in_scope = true;
        assert(before[i as int] == g0.families[i as int]);
        assert(fams_view(g.families@)[i as int] == FamilyV { in_scope: true, ..g0.families[i as int] });
        assert forall|k: int| 0 <= k < g.families.len() && k != i implies #[trigger] fams_view(g.families@)[k] == before[k] by {}
        i = i + 1;
    }
    assert(inds_view(g.individuals@) =~= all_v(g0).individuals);
    assert(fams_view(g.families@) =~= all_v(g0).families);
}

pub open spec fn opt_view(o: Option<&str>) -> Option<Seq<char>> {
    match o {
        Some(s) => Some(s@),
        None => None,
    }
}

/// The root individual: the requested one if it exists, else the first one parsed.
pub fn resolve_root(genrep: &Genrep, root_id: Option<&str>) -> (r: Result<String, ScopeWarning>)
    ensures
        match r {
            Ok(s) => root_v(genrep@, opt_view(root_id)) == Ok::<Seq<char>, ScopeWarningV>(s@),
            Err(w) => root_v(genrep@, opt_view(root_id)) == Err::<Seq<char>, ScopeWarningV>(w@),
        },
{
    match root_id {
        Some(id) => {
            if genrep.get_individual(id).is_some() {
                Ok(id.to_owned())
            } else {
                Err(ScopeWarning::RootNotFound(id.to_owned()))
            }
        },
        None => match &genrep.first_individual_id {
            Some(id) => Ok(id.clone()),
            None => Err(ScopeWarning::NoIndividuals),
        },
    }
}

/// Set `in_scope` on individuals and families based on direction and depth.
///
/// When `last_gen_spouses` is `true` and a generation limit is set, spouses of
/// individuals in the deepest visible generation are included in scope even
/// though their children are not. Returns the diagnostic met, if any.
#[verifier::spinoff_prover]
#[verifier::rlimit(40)]
pub fn compute_scope_opts(
    genrep: &mut Genrep,
    root_id: Option<&str>,
    direction: &str,
    generations: Option<u32>,
    last_gen_spouses: bool,
) -> (w: Option<ScopeWarning>)
    ensures
        final(genrep)@ == spec_scope(old(genrep)@, opt_view(root_id), direction@, generations, last_gen_spouses).0,
        opt_warning(w) == spec_scope(old(genrep)@, opt_view(root_id), direction@, generations, last_gen_spouses).1,
        ({
            let dir = ascii_lower_seq(trim(direction@));
            let root = root_v(old(genrep)@, opt_view(root_id));
            (spec_matches_direction(dir, lit_descendants()) || spec_matches_direction(dir, lit_ancestors())
                || spec_matches_direction(dir, lit_pedigree())) && root is Ok && lookup_ind(
                old(genrep)@.individuals,
                root->Ok_0,
            ) is Some ==> (lookup_ind(final(genrep)@.individuals, root->Ok_0) matches Some(x) && x.in_scope)
        }),
{
    let ghost g0 = genrep@;
    let raw = chars_of(direction);
    let t = trim_of(&raw);
    let dir = ascii_lowercase_of(&t);
    let forest = ['f', 'o', 'r', 'e', 's', 't'];
    let desc = ['d', 'e', 's', 'c', 'e', 'n', 'd', 'a', 'n', 't', 's'];
    let anc = ['a', 'n', 'c', 'e', 's', 't', 'o', 'r', 's'];
    let ped = ['p', 'e', 'd', 'i', 'g', 'r', 'e', 'e'];
    assert(forest@ =~= lit_forest());
    assert(desc@ =~= lit_descendants());
    assert(anc@ =~= lit_ancestors());
    assert(ped@ =~= lit_pedigree());
    if crate::util::matches_prefix(&dir, &forest) {
        scope_all(genrep);
        proof {
            if let Ok(r) = root_v(g0, opt_view(root_id)) {
                if lookup_ind(g0.individuals, r) is Some {
                    lemma_all_root(g0, r);
                }
            }
        }
        return None;
    }
    let root = match resolve_root(genrep, root_id) {
        Ok(r) => r,
        Err(w) => {
            return Some(w);
        },
    };
    proof {
        assert(crate::genrep::ind_ids(apply_v(g0, seq![], seq![]).individuals) =~= crate::genrep::ind_ids(
            g0.individuals,
        ));
        crate::genrep::lemma_first_index_bounds(crate::genrep::ind_ids(g0.individuals), root@);
    }
    if crate::util::matches_prefix(&dir, &desc) {
        let (is, fs) = scope_descendants(genrep, &root, generations, last_gen_spouses);
        apply_scope(genrep, &is, &fs);
        proof {
            if lookup_ind(g0.individuals, root@) is Some {
                lemma_apply_root(g0, strs(is@), strs(fs@), root@);
            }
        }
        None
    } else if crate::util::matches_prefix(&dir, &anc) || crate::util::matches_prefix(&dir, &ped) {
        let (is, fs) = scope_ancestors(genrep, &root, generations);
        apply_scope(genrep, &is, &fs);
        proof {
            if lookup_ind(g0.individuals, root@) is Some {
                lemma_apply_root(g0, strs(is@), strs(fs@), root@);
            }
        }
        None
    } else {
        scope_all(genrep);
        Some(ScopeWarning::UnknownDirection(direction.to_owned()))
    }
}

/// Equivalent to `compute_scope_opts(genrep, root_id, direction, generations, false)`.
pub fn compute_scope(
    genrep: &mut Genrep,
    root_id: Option<&str>,
    direction: &str,
    generations: Option<u32>,
) -> (w: Option<ScopeWarning>)
    ensures
        final(genrep)@ == spec_scope(old(genrep)@, opt_view(root_id), direction@, generations, false).0,
        opt_warning(w) == spec_scope(old(genrep)@, opt_view(root_id), direction@, generations, false).1,
{
    compute_scope_opts(genrep, root_id, direction, generations, false)
}

// ── laws of scoping ──────────────────────────────────────────────────────────

/// `b` is `a` with perhaps another scope flag.
pub open spec fn same_but_scope(a: IndividualV<()>, b: IndividualV<()>) -> bool {
    IndividualV { in_scope: a.in_scope, ..b } == a
}

pub open spec fn fam_same_but_scope(a: FamilyV<()>, b: FamilyV<()>) -> bool {
    FamilyV { in_scope: a.in_scope, ..b } == a
}

/// Scoping changes nothing but the scope flags: the same records, in the same order.
pub proof fn lemma_scope_only_flags(
    g: GenrepV<()>,
    root_id: Option<Seq<char>>,
    direction: Seq<char>,
    generations: Option<u32>,
    lgs: bool,
)
    ensures
        ({
            let r = spec_scope(g, root_id, direction, generations, lgs).0;
            &&& r.individuals.len() == g.individuals.len()
            &&& r.families.len() == g.families.len()
            &&& r.first_individual_id == g.first_individual_id
            &&& forall|i: int|
                0 <= i < g.individuals.len() ==> same_but_scope(g.individuals[i], #[trigger] r.individuals[i])
            &&& forall|i: int|
                0 <= i < g.families.len() ==> fam_same_but_scope(g.families[i], #[trigger] r.families[i])
        }),
{
}

/// The forest direction puts every individual and every family in scope.
pub proof fn lemma_scope_forest_all(
    g: GenrepV<()>,
    root_id: Option<Seq<char>>,
    direction: Seq<char>,
    generations: Option<u32>,
    lgs: bool,
)
    requires
        spec_matches_direction(ascii_lower_seq(trim(direction)), lit_forest()),
    ensures
        ({
            let r = spec_scope(g, root_id, direction, generations, lgs).0;
            &&& forall|i: int| 0 <= i < r.individuals.len() ==> (#[trigger] r.individuals[i]).in_scope
            &&& forall|i: int| 0 <= i < r.families.len() ==> (#[trigger] r.families[i]).in_scope
        }),
{
}

pub open spec fn keeps_ids(a: Seq<Seq<char>>, b: Seq<Seq<char>>) -> bool {
    forall|x: Seq<char>| #[trigger] a.contains(x) ==> b.contains(x)
}

proof fn lemma_set_add_keeps(s: Seq<Seq<char>>, y: Seq<char>)
    ensures
        keeps_ids(s, set_add(s, y)),
        set_add(s, y).contains(y),
{
    if !s.contains(y) {
        assert forall|x: Seq<char>| #[trigger] s.contains(x) implies s.push(y).contains(x) by {
            let k = choose|k: int| 0 <= k < s.len() && s[k] == x;
            assert(s.push(y)[k] == x);
        }
        assert(s.push(y)[s.len() as int] == y);
    }
}

proof fn lemma_desc_families_keeps(
    g: GenrepV<()>,
    id: Seq<char>,
    depth: int,
    ac: bool,
    asp: bool,
    fams: Seq<Seq<char>>,
    st: WalkV,
)
    ensures
        keeps_ids(st.iscope, desc_families(g, id, depth, ac, asp, fams, st).iscope),
    decreases fams.len(),
{
    if fams.len() > 0 {
        let pre = desc_families(g, id, depth, ac, asp, fams.drop_last(), st);
        lemma_desc_families_keeps(g, id, depth, ac, asp, fams.drop_last(), st);
        if let Some(f) = lookup_fam(g.families, fams.last()) {
            let sp = partner_of(f, id);
            if asp && sp is Some {
                lemma_set_add_keeps(pre.iscope, sp->0);
                assert forall|x: Seq<char>| #[trigger] st.iscope.contains(x) implies desc_families(
                    g,
                    id,
                    depth,
                    ac,
                    asp,
                    fams,
                    st,
                ).iscope.contains(x) by {
                    assert(pre.iscope.contains(x));
                }
            }
        }
    }
}

proof fn lemma_desc_pop_keeps(g: GenrepV<()>, gens: Option<u32>, lgs: bool, st: WalkV)
    ensures
        keeps_ids(st.iscope, desc_pop(g, gens, lgs, st).iscope),
        st.queue.len() > 0 ==> desc_pop(g, gens, lgs, st).iscope.contains(st.queue[0].0),
{
    reveal(desc_pop);
    if st.queue.len() > 0 {
        let id = st.queue[0].0;
        if !st.iscope.contains(id) {
            let s1 = WalkV { queue: st.queue.drop_first(), iscope: st.iscope.push(id), fscope: st.fscope };
            assert(s1.iscope[st.iscope.len() as int] == id);
            assert(s1.iscope.contains(id));
            assert forall|x: Seq<char>| #[trigger] st.iscope.contains(x) implies s1.iscope.contains(x) by {
                let q = choose|q: int| 0 <= q < st.iscope.len() && st.iscope[q] == x;
                assert(s1.iscope[q] == x);
            }
            let depth = st.queue[0].1;
            let ac = !at_last_gen(gens, depth);
            lemma_desc_families_keeps(g, id, depth, ac, ac || lgs, fams_of(g, id), s1);
        }
    }
}

proof fn lemma_desc_run_root(g: GenrepV<()>, gens: Option<u32>, lgs: bool, root: Seq<char>, k: nat)
    requires
        k >= 1,
    ensures
        desc_run(g, gens, lgs, root, k).iscope.contains(root),
    decreases k,
{
    let pre = desc_run(g, gens, lgs, root, (k - 1) as nat);
    lemma_desc_pop_keeps(g, gens, lgs, pre);
    if k > 1 {
        lemma_desc_run_root(g, gens, lgs, root, (k - 1) as nat);
    } else {
        assert(pre.queue[0].0 == root);
    }
}

proof fn lemma_anc_families_keeps(g: GenrepV<()>, depth: int, fams: Seq<Seq<char>>, st: WalkV)
    ensures
        anc_families(g, depth, fams, st).iscope == st.iscope,
    decreases fams.len(),
{
    if fams.len() > 0 {
        lemma_anc_families_keeps(g, depth, fams.drop_last(), st);
    }
}

proof fn lemma_anc_run_root(g: GenrepV<()>, gens: Option<u32>, root: Seq<char>, k: nat)
    requires
        k >= 1,
    ensures
        anc_run(g, gens, root, k).iscope.contains(root),
    decreases k,
{
    reveal(anc_pop);
    let pre = anc_run(g, gens, root, (k - 1) as nat);
    if k == 1 {
        let s1 = WalkV { queue: pre.queue.drop_first(), iscope: pre.iscope.push(root), fscope: pre.fscope };
        assert(s1.iscope[0] == root);
        lemma_anc_families_keeps(g, pre.queue[0].1, famc_of(g, root), s1);
    } else {
        lemma_anc_run_root(g, gens, root, (k - 1) as nat);
        if pre.queue.len() > 0 && !pre.iscope.contains(pre.queue[0].0) {
            let id = pre.queue[0].0;
            let s1 = WalkV { queue: pre.queue.drop_first(), iscope: pre.iscope.push(id), fscope: pre.fscope };
            let k0 = choose|q: int| 0 <= q < pre.iscope.len() && pre.iscope[q] == root;
            assert(s1.iscope[k0] == root);
            lemma_anc_families_keeps(g, pre.queue[0].1, famc_of(g, id), s1);
        }
    }
}

/// With everything in scope, each individual is found in scope.
proof fn lemma_all_root(g: GenrepV<()>, root: Seq<char>)
    requires
        lookup_ind(g.individuals, root) is Some,
    ensures
        lookup_ind(all_v(g).individuals, root) matches Some(x) && x.in_scope,
{
    let r = all_v(g);
    assert(crate::genrep::ind_ids(r.individuals) =~= crate::genrep::ind_ids(g.individuals));
    crate::genrep::lemma_first_index_bounds(crate::genrep::ind_ids(g.individuals), root);
}

/// Setting the scope of the individuals in `is` finds them in scope afterwards.
proof fn lemma_apply_root(g: GenrepV<()>, is: Seq<Seq<char>>, fs: Seq<Seq<char>>, root: Seq<char>)
    requires
        is.contains(root),
        lookup_ind(g.individuals, root) is Some,
    ensures
        lookup_ind(apply_v(g, is, fs).individuals, root) matches Some(x) && x.in_scope,
{
    let r = apply_v(g, is, fs);
    assert(crate::genrep::ind_ids(r.individuals) =~= crate::genrep::ind_ids(g.individuals));
    let i = crate::genrep::ind_index(g.individuals, root);
    crate::genrep::lemma_first_index_bounds(crate::genrep::ind_ids(g.individuals), root);
    assert(crate::genrep::ind_ids(g.individuals)[i] == root);
}

} // verus!

verus! {

// ── the generation limit of the descendants ─────────────────────────────────

/// The family `fid` has the child `c`.
pub open spec fn fam_has_child(g: GenrepV<()>, fid: Seq<char>, c: Seq<char>) -> bool {
    match lookup_fam(g.families, fid) {
        Some(f) => f.children_ids.contains(c),
        None => false,
    }
}

/// The family `fid`, seen from `p`, has the partner `s`.
pub open spec fn fam_has_partner(g: GenrepV<()>, fid: Seq<char>, p: Seq<char>, s: Seq<char>) -> bool {
    match lookup_fam(g.families, fid) {
        Some(f) => partner_of(f, p) == Some(s),
        None => false,
    }
}

/// `c` is a child in one of the families of `p`.
pub open spec fn child_of(g: GenrepV<()>, p: Seq<char>, c: Seq<char>) -> bool {
    exists|fid: Seq<char>| fams_of(g, p).contains(fid) && #[trigger] fam_has_child(g, fid, c)
}

/// `s` is the partner of `p` in one of the families of `p`.
pub open spec fn spouse_of(g: GenrepV<()>, p: Seq<char>, s: Seq<char>) -> bool {
    exists|fid: Seq<char>| fams_of(g, p).contains(fid) && #[trigger] fam_has_partner(g, fid, p, s)
}

/// `c` descends from `root` through `d` generations of children.
pub open spec fn descends(g: GenrepV<()>, root: Seq<char>, c: Seq<char>, d: nat) -> bool
    decreases d,
{
    if d == 0 {
        c == root
    } else {
        exists|p: Seq<char>| descends(g, root, p, (d - 1) as nat) && #[trigger] child_of(g, p, c)
    }
}

/// `x` is `d` generations below `root`, or the partner of someone who is.
pub open spec fn reached(g: GenrepV<()>, root: Seq<char>, x: Seq<char>, d: nat) -> bool {
    descends(g, root, x, d) || exists|p: Seq<char>| #[trigger] descends(g, root, p, d) && spouse_of(g, p, x)
}

/// `x` is at most `lim` generations below `root` (or the partner of someone who is).
pub open spec fn within(g: GenrepV<()>, root: Seq<char>, x: Seq<char>, lim: int) -> bool {
    exists|d: nat| d <= lim && #[trigger] reached(g, root, x, d)
}

/// A descendant walk state that keeps to `lim` generations.
pub open spec fn walk_within(g: GenrepV<()>, root: Seq<char>, lim: int, st: WalkV) -> bool {
    &&& forall|j: int|
        0 <= j < st.queue.len() ==> 0 <= (#[trigger] st.queue[j]).1 <= lim && descends(
            g,
            root,
            st.queue[j].0,
            st.queue[j].1 as nat,
        )
    &&& forall|x: Seq<char>| #[trigger] st.iscope.contains(x) ==> within(g, root, x, lim)
}

proof fn lemma_push_children_within(
    g: GenrepV<()>,
    root: Seq<char>,
    lim: int,
    q: Seq<(Seq<char>, int)>,
    ch: Seq<Seq<char>>,
    found: Seq<Seq<char>>,
    d: int,
)
    requires
        0 <= d <= lim,
        forall|j: int| 0 <= j < q.len() ==> 0 <= (#[trigger] q[j]).1 <= lim && descends(g, root, q[j].0, q[j].1 as nat),
        forall|i: int| 0 <= i < ch.len() ==> descends(g, root, #[trigger] ch[i], d as nat),
    ensures
        ({
            let r = push_children(q, ch, found, d);
            forall|j: int| 0 <= j < r.len() ==> 0 <= (#[trigger] r[j]).1 <= lim && descends(g, root, r[j].0, r[j].1 as nat)
        }),
    decreases ch.len(),
{
    if ch.len() > 0 {
        let pre = ch.drop_last();
        assert forall|i: int| 0 <= i < pre.len() implies descends(g, root, #[trigger] pre[i], d as nat) by {
            assert(pre[i] == ch[i]);
        }
        lemma_push_children_within(g, root, lim, q, pre, found, d);
        assert(descends(g, root, ch[ch.len() - 1], d as nat));
        let q1 = push_children(q, pre, found, d);
        let r = push_children(q, ch, found, d);
        assert forall|j: int| 0 <= j < r.len() implies 0 <= (#[trigger] r[j]).1 <= lim && descends(
            g,
            root,
            r[j].0,
            r[j].1 as nat,
        ) by {
            if j < q1.len() {
                assert(r[j] == q1[j]);
            } else {
                assert(r[j] == (ch.last(), d));
            }
        }
    }
}

proof fn lemma_within_at(g: GenrepV<()>, root: Seq<char>, x: Seq<char>, d: nat, lim: int)
    requires
        d <= lim,
        reached(g, root, x, d),
    ensures
        within(g, root, x, lim),
{
}

proof fn lemma_desc_family_within(
    g: GenrepV<()>,
    root: Seq<char>,
    lim: int,
    id: Seq<char>,
    depth: int,
    ac: bool,
    asp: bool,
    fid: Seq<char>,
    st: WalkV,
)
    requires
        walk_within(g, root, lim, st),
        fams_of(g, id).contains(fid),
        0 <= depth <= lim,
        descends(g, root, id, depth as nat),
        ac ==> depth < lim,
    ensures
        walk_within(g, root, lim, desc_family(g, id, depth, ac, asp, fid, st)),
{
    if let Some(f) = lookup_fam(g.families, fid) {
        let sp = partner_of(f, id);
        let i1 = if asp && sp is Some {
            set_add(st.iscope, sp->0)
        } else {
            st.iscope
        };
        if asp && sp is Some {
            let s = sp->0;
            assert(fam_has_partner(g, fid, id, s));
            assert(spouse_of(g, id, s));
            assert(reached(g, root, s, depth as nat));
            lemma_within_at(g, root, s, depth as nat, lim);
            assert forall|x: Seq<char>| #[trigger] i1.contains(x) implies within(g, root, x, lim) by {
                if x != s {
                    if !st.iscope.contains(s) {
                        let k = choose|k: int| 0 <= k < i1.len() && i1[k] == x;
                        assert(k < st.iscope.len());
                        assert(st.iscope[k] == x);
                    }
                    assert(st.iscope.contains(x));
                }
            }
        }
        if ac {
            assert forall|i: int| 0 <= i < f.children_ids.len() implies descends(
                g,
                root,
                #[trigger] f.children_ids[i],
                (depth + 1) as nat,
            ) by {
                let c = f.children_ids[i];
                assert(fam_has_child(g, fid, c));
                assert(child_of(g, id, c));
                assert(((depth + 1) as nat - 1) as nat == depth as nat);
            }
            lemma_push_children_within(g, root, lim, st.queue, f.children_ids, i1, depth + 1);
        }
    }
}

proof fn lemma_desc_families_within(
    g: GenrepV<()>,
    root: Seq<char>,
    lim: int,
    id: Seq<char>,
    depth: int,
    ac: bool,
    asp: bool,
    fams: Seq<Seq<char>>,
    st: WalkV,
)
    requires
        walk_within(g, root, lim, st),
        forall|j: int| 0 <= j < fams.len() ==> fams_of(g, id).contains(#[trigger] fams[j]),
        0 <= depth <= lim,
        descends(g, root, id, depth as nat),
        ac ==> depth < lim,
    ensures
        walk_within(g, root, lim, desc_families(g, id, depth, ac, asp, fams, st)),
    decreases fams.len(),
{
    if fams.len() > 0 {
        let pre = fams.drop_last();
        assert forall|j: int| 0 <= j < pre.len() implies fams_of(g, id).contains(#[trigger] pre[j]) by {
            assert(pre[j] == fams[j]);
        }
        lemma_desc_families_within(g, root, lim, id, depth, ac, asp, pre, st);
        assert(fams_of(g, id).contains(fams[fams.len() - 1]));
        lemma_desc_family_within(
            g,
            root,
            lim,
            id,
            depth,
            ac,
            asp,
            fams.last(),
            desc_families(g, id, depth, ac, asp, pre, st),
        );
    }
}

proof fn lemma_desc_pop_within(g: GenrepV<()>, n: u32, lgs: bool, root: Seq<char>, st: WalkV)
    requires
        walk_within(g, root, gen_limit(n), st),
    ensures
        walk_within(g, root, gen_limit(n), desc_pop(g, Some(n), lgs, st)),
{
    reveal(desc_pop);
    let lim = gen_limit(n);
    if st.queue.len() > 0 {
        let id = st.queue[0].0;
        let depth = st.queue[0].1;
        let q = st.queue.drop_first();
        assert(0 <= depth <= lim && descends(g, root, id, depth as nat));
        assert forall|j: int| 0 <= j < q.len() implies 0 <= (#[trigger] q[j]).1 <= lim && descends(
            g,
            root,
            q[j].0,
            q[j].1 as nat,
        ) by {
            assert(q[j] == st.queue[j + 1]);
        }
        if !st.iscope.contains(id) {
            let s1 = WalkV { queue: q, iscope: st.iscope.push(id), fscope: st.fscope };
            assert(reached(g, root, id, depth as nat));
            lemma_within_at(g, root, id, depth as nat, lim);
            assert forall|x: Seq<char>| #[trigger] s1.iscope.contains(x) implies within(g, root, x, lim) by {
                if x != id {
                    let k = choose|k: int| 0 <= k < s1.iscope.len() && s1.iscope[k] == x;
                    assert(k < st.iscope.len());
                    assert(st.iscope[k] == x);
                    assert(st.iscope.contains(x));
                }
            }
            let ac = !at_last_gen(Some(n), depth);
            assert forall|j: int| 0 <= j < fams_of(g, id).len() implies fams_of(g, id).contains(
                #[trigger] fams_of(g, id)[j],
            ) by {}
            lemma_desc_families_within(g, root, lim, id, depth, ac, ac || lgs, fams_of(g, id), s1);
        }
    }
}

proof fn lemma_desc_run_within(g: GenrepV<()>, n: u32, lgs: bool, root: Seq<char>, k: nat)
    ensures
        walk_within(g, root, gen_limit(n), desc_run(g, Some(n), lgs, root, k)),
    decreases k,
{
    if k == 0 {
        let st = walk_init(root);
        assert(st.queue[0] == (root, 0int));
        assert(descends(g, root, root, 0));
    } else {
        lemma_desc_run_within(g, n, lgs, root, (k - 1) as nat);
        lemma_desc_pop_within(g, n, lgs, root, desc_run(g, Some(n), lgs, root, (k - 1) as nat));
    }
}

/// With `generations = n`, the descendants chart keeps to `n` generations: every
/// individual it puts in scope (that was not in scope already) descends from the root
/// through at most `n - 1` generations of children, or is the partner of one who does.
pub proof fn lemma_descendants_within_generations(
    g: GenrepV<()>,
    root_id: Option<Seq<char>>,
    direction: Seq<char>,
    n: u32,
    lgs: bool,
)
    ensures
        ({
            let dir = ascii_lower_seq(trim(direction));
            let r = spec_scope(g, root_id, direction, Some(n), lgs).0;
            !spec_matches_direction(dir, lit_forest()) && spec_matches_direction(dir, lit_descendants())
                && root_v(g, root_id) is Ok ==> forall|i: int|
                0 <= i < g.individuals.len() && (#[trigger] r.individuals[i]).in_scope && !g.individuals[i].in_scope
                    ==> within(g, root_v(g, root_id)->Ok_0, g.individuals[i].id, gen_limit(n))
        }),
{
    let dir = ascii_lower_seq(trim(direction));
    if !spec_matches_direction(dir, lit_forest()) && spec_matches_direction(dir, lit_descendants()) {
        if let Ok(root) = root_v(g, root_id) {
            let w = desc_final(g, Some(n), lgs, root);
            let k = choose|k: nat| desc_run(g, Some(n), lgs, root, k).queue.len() == 0;
            lemma_desc_run_within(g, n, lgs, root, k);
            let r = spec_scope(g, root_id, direction, Some(n), lgs).0;
            assert(r == apply_v(g, w.iscope, w.fscope));
            assert forall|i: int|
                0 <= i < g.individuals.len() && (#[trigger] r.individuals[i]).in_scope && !g.individuals[i].in_scope
                    implies within(g, root, g.individuals[i].id, gen_limit(n)) by {
                assert(w.iscope.contains(g.individuals[i].id));
            }
        }
    }
}

// ── the generation limit of the ancestors ───────────────────────────────────

/// The family `fid` has `p` as husband or wife.
pub open spec fn fam_has_parent(g: GenrepV<()>, fid: Seq<char>, p: Seq<char>) -> bool {
    match lookup_fam(g.families, fid) {
        Some(f) => f.husband_id == Some(p) || f.wife_id == Some(p),
        None => false,
    }
}

/// `p` is a parent in one of the families in which `c` is a child.
pub open spec fn parent_of(g: GenrepV<()>, c: Seq<char>, p: Seq<char>) -> bool {
    exists|fid: Seq<char>| famc_of(g, c).contains(fid) && #[trigger] fam_has_parent(g, fid, p)
}

/// `a` is an ancestor of `root` through `d` generations of parents.
pub open spec fn ascends(g: GenrepV<()>, root: Seq<char>, a: Seq<char>, d: nat) -> bool
    decreases d,
{
    if d == 0 {
        a == root
    } else {
        exists|c: Seq<char>| ascends(g, root, c, (d - 1) as nat) && #[trigger] parent_of(g, c, a)
    }
}

/// An ancestor walk state that keeps to `lim` generations.
pub open spec fn anc_walk_within(g: GenrepV<()>, root: Seq<char>, lim: int, st: WalkV) -> bool {
    &&& forall|j: int|
        0 <= j < st.queue.len() ==> 0 <= (#[trigger] st.queue[j]).1 <= lim && ascends(
            g,
            root,
            st.queue[j].0,
            st.queue[j].1 as nat,
        )
    &&& forall|x: Seq<char>|
        #[trigger] st.iscope.contains(x) ==> exists|d: nat| d <= lim && #[trigger] ascends(g, root, x, d)
}

proof fn lemma_push_parents_within(
    g: GenrepV<()>,
    root: Seq<char>,
    lim: int,
    q: Seq<(Seq<char>, int)>,
    ch: Seq<Seq<char>>,
    found: Seq<Seq<char>>,
    d: int,
)
    requires
        0 <= d <= lim,
        forall|j: int| 0 <= j < q.len() ==> 0 <= (#[trigger] q[j]).1 <= lim && ascends(g, root, q[j].0, q[j].1 as nat),
        forall|i: int| 0 <= i < ch.len() ==> ascends(g, root, #[trigger] ch[i], d as nat),
    ensures
        ({
            let r = push_children(q, ch, found, d);
            forall|j: int| 0 <= j < r.len() ==> 0 <= (#[trigger] r[j]).1 <= lim && ascends(g, root, r[j].0, r[j].1 as nat)
        }),
    decreases ch.len(),
{
    if ch.len() > 0 {
        let pre = ch.drop_last();
        assert forall|i: int| 0 <= i < pre.len() implies ascends(g, root, #[trigger] pre[i], d as nat) by {
            assert(pre[i] == ch[i]);
        }
        lemma_push_parents_within(g, root, lim, q, pre, found, d);
        assert(ascends(g, root, ch[ch.len() - 1], d as nat));
        let q1 = push_children(q, pre, found, d);
        let r = push_children(q, ch, found, d);
        assert forall|j: int| 0 <= j < r.len() implies 0 <= (#[trigger] r[j]).1 <= lim && ascends(
            g,
            root,
            r[j].0,
            r[j].1 as nat,
        ) by {
            if j < q1.len() {
                assert(r[j] == q1[j]);
            } else {
                assert(r[j] == (ch.last(), d));
            }
        }
    }
}

proof fn lemma_anc_families_within(
    g: GenrepV<()>,
    root: Seq<char>,
    lim: int,
    id: Seq<char>,
    depth: int,
    fams: Seq<Seq<char>>,
    st: WalkV,
)
    requires
        anc_walk_within(g, root, lim, st),
        forall|j: int| 0 <= j < fams.len() ==> famc_of(g, id).contains(#[trigger] fams[j]),
        0 <= depth < lim,
        ascends(g, root, id, depth as nat),
    ensures
        anc_walk_within(g, root, lim, anc_families(g, depth, fams, st)),
    decreases fams.len(),
{
    if fams.len() > 0 {
        let pre = fams.drop_last();
        assert forall|j: int| 0 <= j < pre.len() implies famc_of(g, id).contains(#[trigger] pre[j]) by {
            assert(pre[j] == fams[j]);
        }
        lemma_anc_families_within(g, root, lim, id, depth, pre, st);
        let mid = anc_families(g, depth, pre, st);
        let fid = fams.last();
        assert(famc_of(g, id).contains(fams[fams.len() - 1]));
        if let Some(f) = lookup_fam(g.families, fid) {
            let parents = opt_seq(f.husband_id) + opt_seq(f.wife_id);
            assert forall|i: int| 0 <= i < parents.len() implies ascends(
                g,
                root,
                #[trigger] parents[i],
                (depth + 1) as nat,
            ) by {
                let p = parents[i];
                assert(fam_has_parent(g, fid, p));
                assert(parent_of(g, id, p));
                assert(((depth + 1) as nat - 1) as nat == depth as nat);
            }
            lemma_push_parents_within(g, root, lim, mid.queue, parents, mid.iscope, depth + 1);
        }
    }
}

proof fn lemma_anc_pop_within(g: GenrepV<()>, n: u32, root: Seq<char>, st: WalkV)
    requires
        anc_walk_within(g, root, gen_limit(n), st),
    ensures
        anc_walk_within(g, root, gen_limit(n), anc_pop(g, Some(n), st)),
{
    reveal(anc_pop);
    let lim = gen_limit(n);
    if st.queue.len() > 0 {
        let id = st.queue[0].0;
        let depth = st.queue[0].1;
        let q = st.queue.drop_first();
        assert(0 <= depth <= lim && ascends(g, root, id, depth as nat));
        assert forall|j: int| 0 <= j < q.len() implies 0 <= (#[trigger] q[j]).1 <= lim && ascends(
            g,
            root,
            q[j].0,
            q[j].1 as nat,
        ) by {
            assert(q[j] == st.queue[j + 1]);
        }
        if !st.iscope.contains(id) {
            let s1 = WalkV { queue: q, iscope: st.iscope.push(id), fscope: st.fscope };
            assert forall|x: Seq<char>| #[trigger] s1.iscope.contains(x) implies exists|d: nat|
                d <= lim && #[trigger] ascends(g, root, x, d) by {
                if x != id {
                    let k = choose|k: int| 0 <= k < s1.iscope.len() && s1.iscope[k] == x;
                    assert(k < st.iscope.len());
                    assert(st.iscope[k] == x);
                    assert(st.iscope.contains(x));
                } else {
                    assert(ascends(g, root, id, depth as nat));
                }
            }
            if depth < lim {
                assert forall|j: int| 0 <= j < famc_of(g, id).len() implies famc_of(g, id).contains(
                    #[trigger] famc_of(g, id)[j],
                ) by {}
                lemma_anc_families_within(g, root, lim, id, depth, famc_of(g, id), s1);
            }
        }
    }
}

proof fn lemma_anc_run_within(g: GenrepV<()>, n: u32, root: Seq<char>, k: nat)
    ensures
        anc_walk_within(g, root, gen_limit(n), anc_run(g, Some(n), root, k)),
    decreases k,
{
    if k == 0 {
        let st = walk_init(root);
        assert(st.queue[0] == (root, 0int));
        assert(ascends(g, root, root, 0));
    } else {
        lemma_anc_run_within(g, n, root, (k - 1) as nat);
        lemma_anc_pop_within(g, n, root, anc_run(g, Some(n), root, (k - 1) as nat));
    }
}

/// With `generations = n`, the ancestors (or pedigree) chart keeps to `n` generations:
/// every individual it puts in scope (that was not in scope already) is an ancestor of
/// the root through at most `n - 1` generations of parents.
pub proof fn lemma_ancestors_within_generations(
    g: GenrepV<()>,
    root_id: Option<Seq<char>>,
    direction: Seq<char>,
    n: u32,
    lgs: bool,
)
    ensures
        ({
            let dir = ascii_lower_seq(trim(direction));
            let r = spec_scope(g, root_id, direction, Some(n), lgs).0;
            !spec_matches_direction(dir, lit_forest()) && !spec_matches_direction(dir, lit_descendants())
                && (spec_matches_direction(dir, lit_ancestors()) || spec_matches_direction(dir, lit_pedigree()))
                && root_v(g, root_id) is Ok ==> forall|i: int|
                0 <= i < g.individuals.len() && (#[trigger] r.individuals[i]).in_scope && !g.individuals[i].in_scope
                    ==> exists|d: nat| d <= gen_limit(n) && #[trigger] ascends(g, root_v(g, root_id)->Ok_0, g.individuals[i].id, d)
        }),
{
    let dir = ascii_lower_seq(trim(direction));
    if !spec_matches_direction(dir, lit_forest()) && !spec_matches_direction(dir, lit_descendants()) && (
    spec_matches_direction(dir, lit_ancestors()) || spec_matches_direction(dir, lit_pedigree())) {
        if let Ok(root) = root_v(g, root_id) {
            let w = anc_final(g, Some(n), root);
            let k = choose|k: nat| anc_run(g, Some(n), root, k).queue.len() == 0;
            lemma_anc_run_within(g, n, root, k);
            let r = spec_scope(g, root_id, direction, Some(n), lgs).0;
            assert(r == apply_v(g, w.iscope, w.fscope));
            assert forall|i: int|
                0 <= i < g.individuals.len() && (#[trigger] r.individuals[i]).in_scope && !g.individuals[i].in_scope
                    implies exists|d: nat| d <= gen_limit(n) && #[trigger] ascends(g, root, g.individuals[i].id, d) by {
                assert(w.iscope.contains(g.individuals[i].id));
            }
        }
    }
}


// ── laws of the ancestors' families ──────────────────────────────────────────

/// A family with ID `f` exists.
pub open spec fn has_family(g: GenrepV<()>, f: Seq<char>) -> bool {
    exists|j: int| 0 <= j < g.families.len() && (#[trigger] g.families[j]).id == f
}

/// Each individual found so far has each of its existing parents' families found too.
pub open spec fn parents_found(g: GenrepV<()>, st: WalkV) -> bool {
    forall|id: Seq<char>, f: Seq<char>|
        st.iscope.contains(id) && #[trigger] famc_of(g, id).contains(f) && #[trigger] has_family(g, f)
            ==> st.fscope.contains(f)
}

proof fn lemma_anc_family_adds(g: GenrepV<()>, depth: int, f: Seq<char>, st: WalkV)
    ensures
        anc_family(g, depth, f, st).iscope == st.iscope,
        forall|x: Seq<char>| st.fscope.contains(x) ==> #[trigger] anc_family(g, depth, f, st).fscope.contains(x),
        has_family(g, f) ==> anc_family(g, depth, f, st).fscope.contains(f),
{
    if has_family(g, f) {
        let j = choose|j: int| 0 <= j < g.families.len() && (#[trigger] g.families[j]).id == f;
        crate::genrep::lemma_first_index_bounds(crate::genrep::fam_ids(g.families), f);
        assert(crate::genrep::fam_ids(g.families)[j] == f);
    }
    let r = anc_family(g, depth, f, st);
    assert forall|x: Seq<char>| st.fscope.contains(x) implies #[trigger] r.fscope.contains(x) by {
        if r.fscope != st.fscope {
            let k = choose|k: int| 0 <= k < st.fscope.len() && st.fscope[k] == x;
            assert(set_add(st.fscope, f)[k] == x);
        }
    }
    if has_family(g, f) {
        if !st.fscope.contains(f) {
            assert(r.fscope[st.fscope.len() as int] == f);
        }
    }
}

proof fn lemma_anc_families_adds(g: GenrepV<()>, depth: int, fams: Seq<Seq<char>>, st: WalkV)
    ensures
        anc_families(g, depth, fams, st).iscope == st.iscope,
        forall|x: Seq<char>| st.fscope.contains(x) ==> #[trigger] anc_families(g, depth, fams, st).fscope.contains(x),
        forall|f: Seq<char>| fams.contains(f) && has_family(g, f) ==> #[trigger] anc_families(g, depth, fams, st).fscope.contains(f),
    decreases fams.len(),
{
    if fams.len() > 0 {
        let pre = fams.drop_last();
        lemma_anc_families_adds(g, depth, pre, st);
        let mid = anc_families(g, depth, pre, st);
        lemma_anc_family_adds(g, depth, fams.last(), mid);
        assert forall|f: Seq<char>| fams.contains(f) && has_family(g, f) implies #[trigger] anc_families(
            g,
            depth,
            fams,
            st,
        ).fscope.contains(f) by {
            let k = choose|k: int| 0 <= k < fams.len() && fams[k] == f;
            if k < fams.len() - 1 {
                assert(pre[k] == f);
                assert(mid.fscope.contains(f));
            }
        }
    }
}

proof fn lemma_anc_run_parents(g: GenrepV<()>, root: Seq<char>, k: nat)
    ensures
        parents_found(g, anc_run(g, None, root, k)),
    decreases k,
{
    reveal(anc_pop);
    if k > 0 {
        let pre = anc_run(g, None, root, (k - 1) as nat);
        lemma_anc_run_parents(g, root, (k - 1) as nat);
        if pre.queue.len() > 0 && !pre.iscope.contains(pre.queue[0].0) {
            let id = pre.queue[0].0;
            let s1 = WalkV { queue: pre.queue.drop_first(), iscope: pre.iscope.push(id), fscope: pre.fscope };
            lemma_anc_families_adds(g, pre.queue[0].1, famc_of(g, id), s1);
            let r = anc_run(g, None, root, k);
            assert(r == anc_families(g, pre.queue[0].1, famc_of(g, id), s1));
            assert forall|x: Seq<char>, f: Seq<char>|
                r.iscope.contains(x) && #[trigger] famc_of(g, x).contains(f) && #[trigger] has_family(g, f)
                    implies r.fscope.contains(f) by {
                if x != id {
                    let q = choose|q: int| 0 <= q < s1.iscope.len() && s1.iscope[q] == x;
                    assert(pre.iscope[q] == x);
                    assert(pre.fscope.contains(f));
                }
            }
        }
    }
}

/// Without a generation limit, the ancestors (or pedigree) chart puts in scope the
/// parents' families of everyone it puts in scope: each existing family that such an
/// individual's FAMC list names.
pub proof fn lemma_ancestors_include_parent_families(
    g: GenrepV<()>,
    root_id: Option<Seq<char>>,
    direction: Seq<char>,
    lgs: bool,
)
    ensures
        ({
            let dir = ascii_lower_seq(trim(direction));
            let r = spec_scope(g, root_id, direction, None, lgs).0;
            !spec_matches_direction(dir, lit_forest()) && !spec_matches_direction(dir, lit_descendants())
                && (spec_matches_direction(dir, lit_ancestors()) || spec_matches_direction(dir, lit_pedigree()))
                && root_v(g, root_id) is Ok ==> forall|i: int, j: int|
                0 <= i < g.individuals.len() && 0 <= j < g.families.len() && (#[trigger] r.individuals[i]).in_scope
                    && !g.individuals[i].in_scope && famc_of(g, g.individuals[i].id).contains(
                    (#[trigger] g.families[j]).id,
                ) ==> r.families[j].in_scope
        }),
{
    let dir = ascii_lower_seq(trim(direction));
    if !spec_matches_direction(dir, lit_forest()) && !spec_matches_direction(dir, lit_descendants()) && (
    spec_matches_direction(dir, lit_ancestors()) || spec_matches_direction(dir, lit_pedigree())) {
        if let Ok(root) = root_v(g, root_id) {
            let w = anc_final(g, None, root);
            let k = choose|k: nat| anc_run(g, None, root, k).queue.len() == 0;
            lemma_anc_run_parents(g, root, k);
            let r = spec_scope(g, root_id, direction, None, lgs).0;
            assert(r == apply_v(g, w.iscope, w.fscope));
            assert forall|i: int, j: int|
                0 <= i < g.individuals.len() && 0 <= j < g.families.len() && (#[trigger] r.individuals[i]).in_scope
                    && !g.individuals[i].in_scope && famc_of(g, g.individuals[i].id).contains(
                    (#[trigger] g.families[j]).id,
                ) implies r.families[j].in_scope by {
                assert(w.iscope.contains(g.individuals[i].id));
                assert(has_family(g, g.families[j].id));
                assert(w.fscope.contains(g.families[j].id));
            }
        }
    }
}

} // verus!
