//! Text-like layout: descendants, ancestors, forest.
//!
//! Each placed individual gets a line, an indentation and a generation number. Placements
//! are kept in a keyed map (key → geometry): the key is the individual's ID, `...N` for the
//! N-th ellipsis placeholder, or `ID##N` for the N-th repeated placement of an individual in
//! a forest.

use vstd::prelude::*;
use crate::genrep::{
    FamilyV, Genrep, GenrepV, Individual, IndividualV, first_index, lemma_first_index,
    lemma_first_index_none, lemma_first_index_spec, lookup_fam, lookup_ind, opt_str, str_eq, strs,
};
use crate::layout::common::{sort_families_by_date, sorted_fams};
use crate::parser::contains_chars;
use crate::preferences::{ScopePrefs, ShowPrefs, SimpleLayoutPrefs};
use crate::text::{chars_of, decimal, decimal_of, string_of};

verus! {

// ── geometry ─────────────────────────────────────────────────────────────────

pub struct SimpleGeo {
    pub line: usize,
    pub indent: usize,
    pub generation: usize,
    pub is_spouse: bool,
    pub is_ellipsis: bool,
    pub connectors_above: Vec<usize>,
    pub connectors_below: Vec<usize>,
}

pub struct SimpleGeoV {
    pub line: int,
    pub indent: int,
    pub generation: int,
    pub is_spouse: bool,
    pub is_ellipsis: bool,
    pub connectors_above: Seq<int>,
    pub connectors_below: Seq<int>,
}

pub open spec fn ints(v: Seq<usize>) -> Seq<int> {
    v.map_values(|x: usize| x as int)
}

impl View for SimpleGeo {
    type V = SimpleGeoV;

    open spec fn view(&self) -> SimpleGeoV {
        SimpleGeoV {
            line: self.line as int,
            indent: self.indent as int,
            generation: self.generation as int,
            is_spouse: self.is_spouse,
            is_ellipsis: self.is_ellipsis,
            connectors_above: ints(self.connectors_above@),
            connectors_below: ints(self.connectors_below@),
        }
    }
}

/// A placement without connectors.
pub open spec fn placed(line: int, indent: int, generation: int, spouse: bool, ellipsis: bool) -> SimpleGeoV {
    SimpleGeoV {
        line,
        indent,
        generation,
        is_spouse: spouse,
        is_ellipsis: ellipsis,
        connectors_above: seq![],
        connectors_below: seq![],
    }
}

fn new_geo(line: usize, indent: usize, generation: usize, spouse: bool, ellipsis: bool) -> (r: SimpleGeo)
    ensures
        r@ == placed(line as int, indent as int, generation as int, spouse, ellipsis),
{
    let r = SimpleGeo {
        line,
        indent,
        generation,
        is_spouse: spouse,
        is_ellipsis: ellipsis,
        connectors_above: Vec::new(),
        connectors_below: Vec::new(),
    };
    assert(ints(r.connectors_above@) =~= seq![]);
    assert(ints(r.connectors_below@) =~= seq![]);
    r
}

// ── keyed maps ───────────────────────────────────────────────────────────────

pub open spec fn kv_keys<V>(m: Seq<(Seq<char>, V)>) -> Seq<Seq<char>> {
    m.map_values(|p: (Seq<char>, V)| p.0)
}

#[verifier::opaque]
pub open spec fn kv_index<V>(m: Seq<(Seq<char>, V)>, k: Seq<char>) -> int {
    first_index(kv_keys(m), k)
}

/// The value under `k`.
pub open spec fn kv_get<V>(m: Seq<(Seq<char>, V)>, k: Seq<char>) -> Option<V> {
    let i = kv_index(m, k);
    if 0 <= i < m.len() {
        Some(m[i].1)
    } else {
        None
    }
}

/// Map insertion: replace the value under `k`, or add the pair at the end.
pub open spec fn kv_put<V>(m: Seq<(Seq<char>, V)>, k: Seq<char>, v: V) -> Seq<(Seq<char>, V)> {
    let i = kv_index(m, k);
    if 0 <= i < m.len() {
        m.update(i, (k, v))
    } else {
        m.push((k, v))
    }
}

pub open spec fn geo_view(m: Seq<(String, SimpleGeo)>) -> Seq<(Seq<char>, SimpleGeoV)> {
    m.map_values(|p: (String, SimpleGeo)| (p.0@, p.1@))
}

fn geo_position(m: &Vec<(String, SimpleGeo)>, k: &str) -> (r: Option<usize>)
    ensures
        match r {
            Some(i) => i < m.len() && i == kv_index(geo_view(m@), k@),
            None => kv_index(geo_view(m@), k@) == -1,
        },
{
    reveal(kv_index);
    let ghost ks = kv_keys(geo_view(m@));
    let mut i: usize = 0;
    while i < m.len()
        invariant
            i <= m.len(),
            ks == kv_keys(geo_view(m@)),
            ks.len() == m.len(),
            forall|j: int| 0 <= j < i ==> ks[j] != k@,
        decreases m.len() - i,
    {
        if str_eq(m[i].0.as_str(), k) {
            proof {
                reveal(kv_index);
                lemma_first_index(ks, k@, i as int);
            }
            return Some(i);
        }
        i = i + 1;
    }
    proof {
        lemma_first_index_none(ks, k@);
    }
    None
}

/// Insert or replace the geometry under `k`.
fn geo_put(m: &mut Vec<(String, SimpleGeo)>, k: String, v: SimpleGeo)
    ensures
        geo_view(final(m)@) == kv_put(geo_view(old(m)@), k@, v@),
{
    let ghost kv = k@;
    let ghost vv = v@;
    match geo_position(m, k.as_str()) {
        Some(i) => {
            m.set(i, (k, v));
            assert(geo_view(m@) =~= kv_put(geo_view(old(m)@), kv, vv));
        },
        None => {
            m.push((k, v));
            assert(geo_view(m@) =~= kv_put(geo_view(old(m)@), kv, vv));
        },
    }
}

// ── generation prefix ────────────────────────────────────────────────────────

/// `format!("{:>2}. ", n)`: the number right-aligned in two columns, then `". "`.
pub open spec fn spec_gen_prefix(n: nat) -> Seq<char> {
    let d = decimal(n);
    (if d.len() < 2 {
        seq![' '] + d
    } else {
        d
    }) + seq!['.', ' ']
}

/// Right-align the generation number in a 2-char field: " 1. ", " 9. ", "10. ".
/// Fixed width prevents column shift at the single-digit / double-digit boundary.
pub fn gen_prefix_str(generation: usize) -> (r: String)
    ensures
        r@ == spec_gen_prefix(generation as nat),
        generation < 100 ==> r@.len() == 4,
{
    let d = decimal_of(generation);
    proof {
        if generation < 100 {
            reveal_with_fuel(decimal, 2);
            assert(decimal(generation as nat).len() <= 2);
        }
    }
    let mut v: Vec<char> = Vec::new();
    if d.len() < 2 {
        v.push(' ');
    }
    let mut i: usize = 0;
    while i < d.len()
        invariant
            i <= d.len(),
            v@ == (if d@.len() < 2 {
                seq![' ']
            } else {
                seq![]
            }) + d@.take(i as int),
        decreases d.len() - i,
    {
        v.push(d[i]);
        i = i + 1;
        assert(v@ =~= (if d@.len() < 2 {
            seq![' ']
        } else {
            seq![]
        }) + d@.take(i as int));
    }
    v.push('.');
    v.push(' ');
    assert(d@.take(d.len() as int) =~= d@);
    assert(v@ =~= spec_gen_prefix(generation as nat));
    string_of(&v)
}

// ── descendants: the depth-first walk ───────────────────────────────────────

/// What a walk reads: the genealogy, the line step (`1 + vert_spacing`), and the
/// individuals already shown as non-spouses in earlier trees.
pub struct SimpleCtx {
    pub g: GenrepV<()>,
    pub step: int,
    pub shown: Seq<Seq<char>>,
}

/// The state of a walk: next line, placements, visited IDs, ellipses emitted so far.
pub struct VisitV {
    pub line: int,
    pub geo: Seq<(Seq<char>, SimpleGeoV)>,
    pub visited: Seq<Seq<char>>,
    pub ell: int,
}

/// The other partner of a family, seen from `id` (none when `id` is neither partner).
pub open spec fn spouse_in(f: FamilyV<()>, id: Seq<char>) -> Option<Seq<char>> {
    if f.husband_id == Some(id) {
        f.wife_id
    } else if f.wife_id == Some(id) {
        f.husband_id
    } else {
        None
    }
}

/// Every child is already shown in an earlier tree (and there is at least one child).
pub open spec fn all_shown(ch: Seq<Seq<char>>, shown: Seq<Seq<char>>) -> bool {
    ch.len() > 0 && forall|i: int| 0 <= i < ch.len() ==> shown.contains(#[trigger] ch[i])
}

/// The key of the `n`-th ellipsis placeholder: `...n`.
pub open spec fn ellipsis_key(n: int) -> Seq<char> {
    seq!['.', '.', '.'] + decimal(n as nat)
}

/// Place an individual and walk down through its families, sorted by marriage date.
/// `fuel` bounds the nesting; walks started with more fuel than there are unvisited
/// individuals never run out of it.
pub open spec fn visit_v(fuel: nat, c: SimpleCtx, st: VisitV, id: Seq<char>, depth: int) -> VisitV
    decreases fuel, 2int, 0int,
{
    if st.visited.contains(id) {
        st
    } else {
        let st1 = VisitV { visited: st.visited.push(id), ..st };
        match lookup_ind(c.g.individuals, id) {
            Some(indi) => if indi.in_scope {
                let st2 = VisitV {
                    geo: kv_put(st1.geo, id, placed(st1.line, depth, depth + 1, false, false)),
                    line: st1.line + c.step,
                    ..st1
                };
                fams_v(fuel, c, st2, sorted_fams(indi.fams, c.g.families), id, depth)
            } else {
                st1
            },
            None => st1,
        }
    }
}

pub open spec fn fams_v(
    fuel: nat,
    c: SimpleCtx,
    st: VisitV,
    fams: Seq<Seq<char>>,
    id: Seq<char>,
    depth: int,
) -> VisitV
    decreases fuel, 1int, fams.len(),
{
    if fams.len() == 0 {
        st
    } else {
        fam_v(fuel, c, fams_v(fuel, c, st, fams.drop_last(), id, depth), fams.last(), id, depth)
    }
}

/// The spouse of a family placed right after the individual, when not yet visited.
pub open spec fn with_spouse(c: SimpleCtx, st: VisitV, sp: Option<Seq<char>>, depth: int) -> VisitV {
    match sp {
        Some(sid) => if !st.visited.contains(sid) {
            match lookup_ind(c.g.individuals, sid) {
                Some(s) => if s.in_scope {
                    VisitV {
                        visited: st.visited.push(sid),
                        geo: kv_put(st.geo, sid, placed(st.line, depth, depth + 1, true, false)),
                        line: st.line + c.step,
                        ..st
                    }
                } else {
                    st
                },
                None => st,
            }
        } else {
            st
        },
        None => st,
    }
}

/// An ellipsis placeholder one level down, in place of children already shown.
pub open spec fn with_ellipsis(c: SimpleCtx, st: VisitV, depth: int) -> VisitV {
    VisitV {
        geo: kv_put(st.geo, ellipsis_key(st.ell), placed(st.line, depth + 1, depth + 2, false, true)),
        ell: st.ell + 1,
        line: st.line + c.step,
        ..st
    }
}

pub open spec fn fam_v(
    fuel: nat,
    c: SimpleCtx,
    st: VisitV,
    fam_id: Seq<char>,
    id: Seq<char>,
    depth: int,
) -> VisitV
    decreases fuel, 1int, 0int,
{
    match lookup_fam(c.g.families, fam_id) {
        Some(f) => if f.in_scope {
            let st1 = with_spouse(c, st, spouse_in(f, id), depth);
            if all_shown(f.children_ids, c.shown) {
                with_ellipsis(c, st1, depth)
            } else {
                kids_v(fuel, c, st1, f.children_ids, depth)
            }
        } else {
            st
        },
        None => st,
    }
}

pub open spec fn kids_v(fuel: nat, c: SimpleCtx, st: VisitV, kids: Seq<Seq<char>>, depth: int) -> VisitV
    decreases fuel, 0int, kids.len(),
{
    if fuel == 0 || kids.len() == 0 {
        st
    } else {
        visit_v(
            (fuel - 1) as nat,
            c,
            kids_v(fuel, c, st, kids.drop_last(), depth),
            kids.last(),
            depth + 1,
        )
    }
}

/// `b` is a later state of a walk than `a`.
pub open spec fn grows(a: VisitV, b: VisitV) -> bool {
    &&& a.line <= b.line
    &&& a.ell <= b.ell
    &&& forall|x: Seq<char>| #[trigger] a.visited.contains(x) ==> b.visited.contains(x)
}

pub open spec fn fits(st: VisitV) -> bool {
    st.line <= usize::MAX && st.ell <= usize::MAX
}

proof fn lemma_grows_trans(a: VisitV, b: VisitV, c: VisitV)
    requires
        grows(a, b),
        grows(b, c),
    ensures
        grows(a, c),
{
    assert forall|x: Seq<char>| #[trigger] a.visited.contains(x) implies c.visited.contains(x) by {
        assert(b.visited.contains(x));
    }
}

proof fn lemma_push_grows(s: Seq<Seq<char>>, y: Seq<char>)
    ensures
        forall|x: Seq<char>| #[trigger] s.contains(x) ==> s.push(y).contains(x),
        s.push(y).contains(y),
{
    assert forall|x: Seq<char>| #[trigger] s.contains(x) implies s.push(y).contains(x) by {
        let k = choose|k: int| 0 <= k < s.len() && s[k] == x;
        assert(s.push(y)[k] == x);
    }
    assert(s.push(y)[s.len() as int] == y);
}

proof fn lemma_visit_grows(fuel: nat, c: SimpleCtx, st: VisitV, id: Seq<char>, depth: int)
    requires
        c.step >= 0,
    ensures
        grows(st, visit_v(fuel, c, st, id, depth)),
    decreases fuel, 2int, 0int,
{
    if !st.visited.contains(id) {
        lemma_push_grows(st.visited, id);
        let st1 = VisitV { visited: st.visited.push(id), ..st };
        match lookup_ind(c.g.individuals, id) {
            Some(indi) => if indi.in_scope {
                let st2 = VisitV {
                    geo: kv_put(st1.geo, id, placed(st1.line, depth, depth + 1, false, false)),
                    line: st1.line + c.step,
                    ..st1
                };
                lemma_fams_grows(fuel, c, st2, sorted_fams(indi.fams, c.g.families), id, depth);
                lemma_grows_trans(
                    st,
                    st2,
                    fams_v(fuel, c, st2, sorted_fams(indi.fams, c.g.families), id, depth),
                );
            } else {
            },
            None => {},
        }
    }
}

proof fn lemma_fams_grows(
    fuel: nat,
    c: SimpleCtx,
    st: VisitV,
    fams: Seq<Seq<char>>,
    id: Seq<char>,
    depth: int,
)
    requires
        c.step >= 0,
    ensures
        grows(st, fams_v(fuel, c, st, fams, id, depth)),
    decreases fuel, 1int, fams.len(),
{
    if fams.len() > 0 {
        lemma_fams_grows(fuel, c, st, fams.drop_last(), id, depth);
        let mid = fams_v(fuel, c, st, fams.drop_last(), id, depth);
        lemma_fam_grows(fuel, c, mid, fams.last(), id, depth);
        lemma_grows_trans(st, mid, fam_v(fuel, c, mid, fams.last(), id, depth));
    }
}

proof fn lemma_spouse_grows(c: SimpleCtx, st: VisitV, sp: Option<Seq<char>>, depth: int)
    requires
        c.step >= 0,
    ensures
        grows(st, with_spouse(c, st, sp, depth)),
{
    if let Some(sid) = sp {
        lemma_push_grows(st.visited, sid);
    }
}

proof fn lemma_fam_grows(
    fuel: nat,
    c: SimpleCtx,
    st: VisitV,
    fam_id: Seq<char>,
    id: Seq<char>,
    depth: int,
)
    requires
        c.step >= 0,
    ensures
        grows(st, fam_v(fuel, c, st, fam_id, id, depth)),
    decreases fuel, 1int, 0int,
{
    match lookup_fam(c.g.families, fam_id) {
        Some(f) => if f.in_scope {
            lemma_spouse_grows(c, st, spouse_in(f, id), depth);
            let st1 = with_spouse(c, st, spouse_in(f, id), depth);
            if !all_shown(f.children_ids, c.shown) {
                lemma_kids_grows(fuel, c, st1, f.children_ids, depth);
                lemma_grows_trans(st, st1, kids_v(fuel, c, st1, f.children_ids, depth));
            } else {
                lemma_grows_trans(st, st1, with_ellipsis(c, st1, depth));
            }
        } else {
        },
        None => {},
    }
}

proof fn lemma_kids_grows(fuel: nat, c: SimpleCtx, st: VisitV, kids: Seq<Seq<char>>, depth: int)
    requires
        c.step >= 0,
    ensures
        grows(st, kids_v(fuel, c, st, kids, depth)),
    decreases fuel, 0int, kids.len(),
{
    if fuel > 0 && kids.len() > 0 {
        lemma_kids_grows(fuel, c, st, kids.drop_last(), depth);
        let mid = kids_v(fuel, c, st, kids.drop_last(), depth);
        lemma_visit_grows((fuel - 1) as nat, c, mid, kids.last(), depth + 1);
        lemma_grows_trans(st, mid, visit_v((fuel - 1) as nat, c, mid, kids.last(), depth + 1));
    }
}

/// Families `a` then `b` walked in turn.
proof fn lemma_fams_concat(
    fuel: nat,
    c: SimpleCtx,
    st: VisitV,
    a: Seq<Seq<char>>,
    b: Seq<Seq<char>>,
    id: Seq<char>,
    depth: int,
)
    ensures
        fams_v(fuel, c, st, a + b, id, depth) == fams_v(fuel, c, fams_v(fuel, c, st, a, id, depth), b, id, depth),
    decreases b.len(),
{
    if b.len() == 0 {
        assert(a + b =~= a);
    } else {
        lemma_fams_concat(fuel, c, st, a, b.drop_last(), id, depth);
        assert((a + b).drop_last() =~= a + b.drop_last());
        assert((a + b).last() == b.last());
    }
}

proof fn lemma_kids_concat(
    fuel: nat,
    c: SimpleCtx,
    st: VisitV,
    a: Seq<Seq<char>>,
    b: Seq<Seq<char>>,
    depth: int,
)
    requires
        fuel > 0,
    ensures
        kids_v(fuel, c, st, a + b, depth) == kids_v(fuel, c, kids_v(fuel, c, st, a, depth), b, depth),
    decreases b.len(),
{
    if b.len() == 0 {
        assert(a + b =~= a);
    } else {
        lemma_kids_concat(fuel, c, st, a, b.drop_last(), depth);
        assert((a + b).drop_last() =~= a + b.drop_last());
        assert((a + b).last() == b.last());
    }
}

/// Individuals whose ID is not yet visited (counted with repetitions).
pub open spec fn unvisited(inds: Seq<IndividualV<()>>, vis: Seq<Seq<char>>) -> nat
    decreases inds.len(),
{
    if inds.len() == 0 {
        0
    } else {
        unvisited(inds.drop_last(), vis) + (if vis.contains(inds.last().id) {
            0nat
        } else {
            1nat
        })
    }
}

proof fn lemma_unvisited_le(inds: Seq<IndividualV<()>>, vis: Seq<Seq<char>>)
    ensures
        unvisited(inds, vis) <= inds.len(),
    decreases inds.len(),
{
    if inds.len() > 0 {
        lemma_unvisited_le(inds.drop_last(), vis);
    }
}

proof fn lemma_unvisited_mono(inds: Seq<IndividualV<()>>, a: Seq<Seq<char>>, b: Seq<Seq<char>>)
    requires
        forall|x: Seq<char>| #[trigger] a.contains(x) ==> b.contains(x),
    ensures
        unvisited(inds, b) <= unvisited(inds, a),
    decreases inds.len(),
{
    if inds.len() > 0 {
        lemma_unvisited_mono(inds.drop_last(), a, b);
    }
}

proof fn lemma_unvisited_strict(
    inds: Seq<IndividualV<()>>,
    a: Seq<Seq<char>>,
    b: Seq<Seq<char>>,
    id: Seq<char>,
    i: int,
)
    requires
        forall|x: Seq<char>| #[trigger] a.contains(x) ==> b.contains(x),
        !a.contains(id),
        b.contains(id),
        0 <= i < inds.len(),
        inds[i].id == id,
    ensures
        unvisited(inds, b) < unvisited(inds, a),
    decreases inds.len(),
{
    if i == inds.len() - 1 {
        lemma_unvisited_mono(inds.drop_last(), a, b);
    } else {
        assert(inds.drop_last()[i] == inds[i]);
        lemma_unvisited_strict(inds.drop_last(), a, b, id, i);
    }
}

/// The record found by ID has that ID, at some position.
proof fn lemma_lookup_ind_pos(inds: Seq<IndividualV<()>>, id: Seq<char>)
    requires
        lookup_ind(inds, id) is Some,
    ensures
        exists|i: int| 0 <= i < inds.len() && inds[i].id == id,
{
    let i = crate::genrep::ind_index(inds, id);
    crate::genrep::lemma_first_index_bounds(crate::genrep::ind_ids(inds), id);
    assert(crate::genrep::ind_ids(inds)[i] == inds[i].id);
}

struct VisitState {
    line: usize,
    geo: Vec<(String, SimpleGeo)>,
    visited: Vec<String>,
    ell: usize,
}

impl View for VisitState {
    type V = VisitV;

    closed spec fn view(&self) -> VisitV {
        VisitV {
            line: self.line as int,
            geo: geo_view(self.geo@),
            visited: strs(self.visited@),
            ell: self.ell as int,
        }
    }
}

pub open spec fn ctx_of(g: GenrepV<()>, step: usize, shown: Seq<String>) -> SimpleCtx {
    SimpleCtx { g, step: step as int, shown: strs(shown) }
}

fn opt_is(o: &Option<String>, s: &str) -> (r: bool)
    ensures
        r == (opt_str(*o) == Some(s@)),
{
    match o {
        Some(x) => str_eq(x.as_str(), s),
        None => false,
    }
}

fn all_shown_ex(ch: &Vec<String>, shown: &Vec<String>) -> (r: bool)
    ensures
        r == all_shown(strs(ch@), strs(shown@)),
{
    if ch.len() == 0 {
        return false;
    }
    let mut i: usize = 0;
    while i < ch.len()
        invariant
            i <= ch.len(),
            forall|k: int| 0 <= k < i ==> strs(shown@).contains(#[trigger] strs(ch@)[k]),
        decreases ch.len() - i,
    {
        let c = chars_of(ch[i].as_str());
        if !contains_chars(shown, &c) {
            assert(!strs(shown@).contains(strs(ch@)[i as int]));
            return false;
        }
        i = i + 1;
    }
    true
}

fn push_visited(st: &mut VisitState, id: &Vec<char>)
    ensures
        final(st)@ == (VisitV { visited: old(st)@.visited.push(id@), ..old(st)@ }),
{
    let ghost before = strs(st.visited@);
    st.visited.push(string_of(id));
    assert(strs(st.visited@) =~= before.push(id@));
}

fn visit(
    st: &mut VisitState,
    id: &str,
    depth: usize,
    step: usize,
    shown: &Vec<String>,
    genrep: &Genrep,
    Ghost(fuel): Ghost<nat>,
) -> (ok: bool)
    requires
        step >= 1,
        fuel > unvisited(genrep@.individuals, old(st)@.visited),
        depth + fuel + 2 <= usize::MAX,
    ensures
        ok ==> final(st)@ == visit_v(fuel, ctx_of(genrep@, step, shown@), old(st)@, id@, depth as int),
        !ok ==> !fits(visit_v(fuel, ctx_of(genrep@, step, shown@), old(st)@, id@, depth as int)),
    decreases fuel, 3int,
{
    let ghost c = ctx_of(genrep@, step, shown@);
    let ghost st0 = st@;
    let idc = chars_of(id);
    if contains_chars(&st.visited, &idc) {
        return true;
    }
    push_visited(st, &idc);
    let indi = match genrep.get_individual(id) {
        Some(i) => i,
        None => {
            return true;
        },
    };
    if !indi.in_scope {
        return true;
    }
    proof {
        lemma_push_grows(st0.visited, id@);
        lemma_lookup_ind_pos(genrep@.individuals, id@);
        let i = choose|i: int| 0 <= i < genrep@.individuals.len() && genrep@.individuals[i].id == id@;
        lemma_unvisited_strict(genrep@.individuals, st0.visited, st@.visited, id@, i);
    }
    let ghost st1 = st@;
    let ghost fs = sorted_fams(indi@.fams, genrep@.families);
    let ghost st2 = VisitV {
        geo: kv_put(st1.geo, id@, placed(st1.line, depth as int, depth + 1, false, false)),
        line: st1.line + c.step,
        ..st1
    };
    proof {
        lemma_fams_grows(fuel, c, st2, fs, id@, depth as int);
    }
    if st.line > usize::MAX - step {
        return false;
    }
    geo_put(&mut st.geo, string_of(&idc), new_geo(st.line, depth, depth + 1, false, false));
    st.line = st.line + step;
    assert(st@ == st2);
    let fams = sort_families_by_date(indi, genrep);
    fams_ex(st, &fams, id, depth, step, shown, genrep, Ghost(fuel))
}

#[verifier::spinoff_prover]
#[verifier::rlimit(40)]
fn fams_ex(
    st: &mut VisitState,
    fams: &Vec<String>,
    id: &str,
    depth: usize,
    step: usize,
    shown: &Vec<String>,
    genrep: &Genrep,
    Ghost(fuel): Ghost<nat>,
) -> (ok: bool)
    requires
        step >= 1,
        unvisited(genrep@.individuals, old(st)@.visited) + 1 < fuel,
        depth + fuel + 2 <= usize::MAX,
    ensures
        ok ==> final(st)@ == fams_v(fuel, ctx_of(genrep@, step, shown@), old(st)@, strs(fams@), id@, depth as int),
        !ok ==> !fits(fams_v(fuel, ctx_of(genrep@, step, shown@), old(st)@, strs(fams@), id@, depth as int)),
    decreases fuel, 2int,
{
    let ghost c = ctx_of(genrep@, step, shown@);
    let ghost st2 = st@;
    let ghost fs = strs(fams@);
    let ghost fin = fams_v(fuel, c, st2, fs, id@, depth as int);
    let mut k: usize = 0;
    assert(fs.take(0) =~= seq![]);
    while k < fams.len()
        invariant
            k <= fams.len(),
            strs(fams@) == fs,
            c == ctx_of(genrep@, step, shown@),
            fin == fams_v(fuel, c, st2, fs, id@, depth as int),
            st2 == old(st)@,
            st@ == fams_v(fuel, c, st2, fs.take(k as int), id@, depth as int),
            unvisited(genrep@.individuals, st@.visited) + 1 < fuel,
            step >= 1,
            depth + fuel + 2 <= usize::MAX,
        decreases fams.len() - k,
    {
        let ghost cur = st@;
        proof {
            assert(fs.take(k + 1).drop_last() =~= fs.take(k as int));
            assert(fs.take(k + 1).last() == fams@[k as int]@);
            lemma_fams_concat(fuel, c, st2, fs.take(k + 1), fs.skip(k + 1), id@, depth as int);
            assert(fs.take(k + 1) + fs.skip(k + 1) =~= fs);
            lemma_fams_grows(
                fuel,
                c,
                fams_v(fuel, c, st2, fs.take(k + 1), id@, depth as int),
                fs.skip(k + 1),
                id@,
                depth as int,
            );
        }
        if !fam_ex(st, fams[k].as_str(), id, depth, step, shown, genrep, Ghost(fuel)) {
            proof {
                let nxt = fams_v(fuel, c, st2, fs.take(k + 1), id@, depth as int);
                assert(nxt == fam_v(fuel, c, cur, fams@[k as int]@, id@, depth as int));
                assert(fams_v(fuel, c, nxt, fs.skip(k + 1), id@, depth as int) == fin);
                assert(grows(nxt, fin));
                assert(!fits(nxt));
                assert(!fits(fin));
            }
            return false;
        }
        proof {
            lemma_fam_grows(fuel, c, cur, fams@[k as int]@, id@, depth as int);
            lemma_unvisited_mono(genrep@.individuals, cur.visited, st@.visited);
        }
        k = k + 1;
    }
    assert(fs.take(fams.len() as int) =~= fs);
    true
}

fn spouse_ex(st: &mut VisitState, sp: Option<&String>, depth: usize, step: usize, genrep: &Genrep, Ghost(c): Ghost<SimpleCtx>) -> (ok: bool)
    requires
        c.g == genrep@,
        c.step == step,
        depth + 2 <= usize::MAX,
    ensures
        ok ==> final(st)@ == with_spouse(c, old(st)@, opt_str_ref(sp), depth as int),
        !ok ==> !fits(with_spouse(c, old(st)@, opt_str_ref(sp), depth as int)),
{
    match sp {
        Some(sid) => {
            let sc = chars_of(sid.as_str());
            if !contains_chars(&st.visited, &sc) {
                match genrep.get_individual(sid.as_str()) {
                    Some(s) => {
                        if s.in_scope {
                            if st.line > usize::MAX - step {
                                return false;
                            }
                            push_visited(st, &sc);
                            geo_put(
                                &mut st.geo,
                                string_of(&sc),
                                new_geo(st.line, depth, depth + 1, true, false),
                            );
                            st.line = st.line + step;
                        }
                    },
                    None => {},
                }
            }
        },
        None => {},
    }
    true
}

pub open spec fn opt_str_ref(o: Option<&String>) -> Option<Seq<char>> {
    match o {
        Some(s) => Some(s@),
        None => None,
    }
}

fn ellipsis_ex(st: &mut VisitState, depth: usize, step: usize, Ghost(c): Ghost<SimpleCtx>) -> (ok: bool)
    requires
        c.step == step,
        depth + 2 <= usize::MAX,
    ensures
        ok ==> final(st)@ == with_ellipsis(c, old(st)@, depth as int),
        !ok ==> !fits(with_ellipsis(c, old(st)@, depth as int)),
{
    if st.ell == usize::MAX || st.line > usize::MAX - step {
        return false;
    }
    let mut key: Vec<char> = Vec::new();
    key.push('.');
    key.push('.');
    key.push('.');
    let d = decimal_of(st.ell);
    let mut i: usize = 0;
    while i < d.len()
        invariant
            i <= d.len(),
            key@ == seq!['.', '.', '.'] + d@.take(i as int),
        decreases d.len() - i,
    {
        key.push(d[i]);
        i = i + 1;
        assert(key@ =~= seq!['.', '.', '.'] + d@.take(i as int));
    }
    assert(d@.take(d.len() as int) =~= d@);
    assert(key@ == ellipsis_key(st.ell as int));
    geo_put(&mut st.geo, string_of(&key), new_geo(st.line, depth + 1, depth + 2, false, true));
    st.ell = st.ell + 1;
    st.line = st.line + step;
    true
}

fn fam_ex(
    st: &mut VisitState,
    fam_id: &str,
    id: &str,
    depth: usize,
    step: usize,
    shown: &Vec<String>,
    genrep: &Genrep,
    Ghost(fuel): Ghost<nat>,
) -> (ok: bool)
    requires
        step >= 1,
        unvisited(genrep@.individuals, old(st)@.visited) + 1 < fuel,
        depth + fuel + 2 <= usize::MAX,
    ensures
        ok ==> final(st)@ == fam_v(fuel, ctx_of(genrep@, step, shown@), old(st)@, fam_id@, id@, depth as int),
        !ok ==> !fits(fam_v(fuel, ctx_of(genrep@, step, shown@), old(st)@, fam_id@, id@, depth as int)),
    decreases fuel, 1int,
{
    let ghost c = ctx_of(genrep@, step, shown@);
    let ghost st0 = st@;
    let fam = match genrep.get_family(fam_id) {
        Some(f) => f,
        None => {
            return true;
        },
    };
    if !fam.in_scope {
        return true;
    }
    let ghost f = fam@;
    let ghost sp = spouse_in(f, id@);
    let ghost st1 = with_spouse(c, st0, sp, depth as int);
    proof {
        lemma_spouse_grows(c, st0, sp, depth as int);
        if !all_shown(f.children_ids, c.shown) {
            lemma_kids_grows(fuel, c, st1, f.children_ids, depth as int);
            lemma_grows_trans(st1, kids_v(fuel, c, st1, f.children_ids, depth as int), fam_v(fuel, c, st0, fam_id@, id@, depth as int));
        }
        assert(grows(st1, fam_v(fuel, c, st0, fam_id@, id@, depth as int)));
    }
    let sp_ex: Option<&String> = if opt_is(&fam.husband_id, id) {
        fam.wife_id.as_ref()
    } else if opt_is(&fam.wife_id, id) {
        fam.husband_id.as_ref()
    } else {
        None
    };
    assert(opt_str_ref(sp_ex) == sp);
    if !spouse_ex(st, sp_ex, depth, step, genrep, Ghost(c)) {
        return false;
    }
    proof {
        lemma_unvisited_mono(genrep@.individuals, st0.visited, st@.visited);
    }
    let children = &fam.children_ids;
    assert(strs(children@) == f.children_ids);
    if all_shown_ex(children, shown) {
        ellipsis_ex(st, depth, step, Ghost(c))
    } else {
        kids_ex(st, children, depth, step, shown, genrep, Ghost(fuel))
    }
}

#[verifier::spinoff_prover]
#[verifier::rlimit(40)]
fn kids_ex(
    st: &mut VisitState,
    children: &Vec<String>,
    depth: usize,
    step: usize,
    shown: &Vec<String>,
    genrep: &Genrep,
    Ghost(fuel): Ghost<nat>,
) -> (ok: bool)
    requires
        step >= 1,
        unvisited(genrep@.individuals, old(st)@.visited) + 1 < fuel,
        depth + fuel + 2 <= usize::MAX,
    ensures
        ok ==> final(st)@ == kids_v(fuel, ctx_of(genrep@, step, shown@), old(st)@, strs(children@), depth as int),
        !ok ==> !fits(kids_v(fuel, ctx_of(genrep@, step, shown@), old(st)@, strs(children@), depth as int)),
    decreases fuel, 0int,
{
    let ghost c = ctx_of(genrep@, step, shown@);
    let ghost st1 = st@;
    let ghost ks = strs(children@);
    let ghost fin = kids_v(fuel, c, st1, ks, depth as int);
    let mut j: usize = 0;
    assert(ks.take(0) =~= seq![]);
    while j < children.len()
        invariant
            j <= children.len(),
            strs(children@) == ks,
            c == ctx_of(genrep@, step, shown@),
            fin == kids_v(fuel, c, st1, ks, depth as int),
            st1 == old(st)@,
            fuel > 0,
            st@ == kids_v(fuel, c, st1, ks.take(j as int), depth as int),
            unvisited(genrep@.individuals, st@.visited) + 1 < fuel,
            step >= 1,
            depth + fuel + 2 <= usize::MAX,
        decreases children.len() - j,
    {
        let ghost cur = st@;
        proof {
            assert(ks.take(j + 1).drop_last() =~= ks.take(j as int));
            assert(ks.take(j + 1).last() == children@[j as int]@);
            lemma_kids_concat(fuel, c, st1, ks.take(j + 1), ks.skip(j + 1), depth as int);
            assert(ks.take(j + 1) + ks.skip(j + 1) =~= ks);
            lemma_kids_grows(
                fuel,
                c,
                kids_v(fuel, c, st1, ks.take(j + 1), depth as int),
                ks.skip(j + 1),
                depth as int,
            );
        }
        if !visit(st, children[j].as_str(), depth + 1, step, shown, genrep, Ghost((fuel - 1) as nat)) {
            proof {
                let nxt = kids_v(fuel, c, st1, ks.take(j + 1), depth as int);
                assert(nxt == visit_v((fuel - 1) as nat, c, cur, children@[j as int]@, depth + 1));
                assert(kids_v(fuel, c, nxt, ks.skip(j + 1), depth as int) == fin);
                assert(grows(nxt, fin));
                assert(!fits(nxt));
                assert(!fits(fin));
            }
            return false;
        }
        proof {
            lemma_visit_grows((fuel - 1) as nat, c, cur, children@[j as int]@, depth + 1);
            lemma_unvisited_mono(genrep@.individuals, cur.visited, st@.visited);
        }
        j = j + 1;
    }
    assert(ks.take(children.len() as int) =~= ks);
    true
}

pub open spec fn walk_start(ell: int) -> VisitV {
    VisitV { line: 0, geo: seq![], visited: seq![], ell }
}

/// The walk that places the descendants of `root` in one tree.
pub open spec fn desc_walk(c: SimpleCtx, root: Seq<char>, ell: int) -> VisitV {
    visit_v((c.g.individuals.len() + 1) as nat, c, walk_start(ell), root, 0)
}

fn walk_tree(
    root: &str,
    step: usize,
    shown: &Vec<String>,
    ell: usize,
    genrep: &Genrep,
) -> (r: Option<VisitState>)
    requires
        step >= 1,
        genrep.individuals.len() + 3 <= usize::MAX,
    ensures
        r is Some <==> fits(desc_walk(ctx_of(genrep@, step, shown@), root@, ell as int)),
        r matches Some(w) ==> w@ == desc_walk(ctx_of(genrep@, step, shown@), root@, ell as int),
{
    let mut st = VisitState { line: 0, geo: Vec::new(), visited: Vec::new(), ell };
    assert(geo_view(st.geo@) =~= seq![]);
    assert(strs(st.visited@) =~= seq![]);
    proof {
        lemma_unvisited_le(genrep@.individuals, st@.visited);
    }
    if visit(&mut st, root, 0, step, shown, genrep, Ghost((genrep@.individuals.len() + 1) as nat)) {
        Some(st)
    } else {
        None
    }
}

/// The descendants placements of a whole chart rooted at `root`.
pub open spec fn desc_geo(g: GenrepV<()>, root: Seq<char>, step: int) -> Seq<(Seq<char>, SimpleGeoV)> {
    desc_walk(SimpleCtx { g, step, shown: seq![] }, root, 0).geo
}

fn layout_descendants(genrep: &Genrep, root: &str, spacing: usize) -> (r: Option<Vec<(String, SimpleGeo)>>)
    requires
        spacing < usize::MAX,
        genrep.individuals.len() + 3 <= usize::MAX,
    ensures
        r is Some <==> fits(desc_walk(SimpleCtx { g: genrep@, step: spacing + 1, shown: seq![] }, root@, 0)),
        r matches Some(v) ==> geo_view(v@) == desc_geo(genrep@, root@, spacing + 1),
{
    let shown: Vec<String> = Vec::new();
    let step = spacing + 1;
    assert(ctx_of(genrep@, step, shown@) == SimpleCtx { g: genrep@, step: spacing + 1, shown: seq![] }) by {
        assert(strs(shown@) =~= seq![]);
    }
    match walk_tree(root, step, &shown, 0, genrep) {
        Some(st) => Some(st.geo),
        None => None,
    }
}

// ── ancestors ────────────────────────────────────────────────────────────────

/// The state of the in-order walk: visited IDs, and (ID, depth) in display order.
pub struct AncV {
    pub visited: Seq<Seq<char>>,
    pub ordered: Seq<(Seq<char>, int)>,
}

/// The family an individual is a child of: the first of its `famc`.
pub open spec fn parents_fam(g: GenrepV<()>, indi: IndividualV<()>) -> Option<FamilyV<()>> {
    if indi.famc.len() > 0 {
        lookup_fam(g.families, indi.famc[0])
    } else {
        None
    }
}

pub open spec fn father_of(p: Option<FamilyV<()>>) -> Option<Seq<char>> {
    match p {
        Some(f) => f.husband_id,
        None => None,
    }
}

pub open spec fn mother_of(p: Option<FamilyV<()>>) -> Option<Seq<char>> {
    match p {
        Some(f) => f.wife_id,
        None => None,
    }
}

/// In-order walk of the ancestors: father's line first, then the individual, then
/// mother's line.
pub open spec fn in_order_v(fuel: nat, g: GenrepV<()>, st: AncV, id: Seq<char>, depth: int) -> AncV
    decreases fuel,
{
    if fuel == 0 || st.visited.contains(id) {
        st
    } else {
        let st1 = AncV { visited: st.visited.push(id), ..st };
        match lookup_ind(g.individuals, id) {
            Some(indi) => if indi.in_scope {
                let p = parents_fam(g, indi);
                let st2 = match father_of(p) {
                    Some(fid) => in_order_v((fuel - 1) as nat, g, st1, fid, depth + 1),
                    None => st1,
                };
                let st3 = AncV { ordered: st2.ordered.push((id, depth)), ..st2 };
                match mother_of(p) {
                    Some(mid) => in_order_v((fuel - 1) as nat, g, st3, mid, depth + 1),
                    None => st3,
                }
            } else {
                st1
            },
            None => st1,
        }
    }
}

struct AncState {
    visited: Vec<String>,
    ordered: Vec<(String, usize)>,
}

pub open spec fn ordered_view(v: Seq<(String, usize)>) -> Seq<(Seq<char>, int)> {
    v.map_values(|p: (String, usize)| (p.0@, p.1 as int))
}

impl View for AncState {
    type V = AncV;

    closed spec fn view(&self) -> AncV {
        AncV { visited: strs(self.visited@), ordered: ordered_view(self.ordered@) }
    }
}

fn in_order(st: &mut AncState, id: &str, depth: usize, genrep: &Genrep, Ghost(fuel): Ghost<nat>)
    requires
        fuel > unvisited(genrep@.individuals, old(st)@.visited),
        depth + fuel + 1 <= usize::MAX,
        forall|q: int| 0 <= q < old(st).ordered.len() ==> old(st).ordered@[q].1 < usize::MAX,
    ensures
        final(st)@ == in_order_v(fuel, genrep@, old(st)@, id@, depth as int),
        forall|x: Seq<char>| #[trigger] old(st)@.visited.contains(x) ==> final(st)@.visited.contains(x),
        forall|q: int| 0 <= q < final(st).ordered.len() ==> final(st).ordered@[q].1 < usize::MAX,
    decreases fuel,
{
    let ghost st0 = st@;
    let idc = chars_of(id);
    if contains_chars(&st.visited, &idc) {
        return;
    }
    let ghost before = strs(st.visited@);
    st.visited.push(string_of(&idc));
    assert(strs(st.visited@) =~= before.push(id@));
    proof {
        lemma_push_grows(st0.visited, id@);
    }
    let indi = match genrep.get_individual(id) {
        Some(i) => i,
        None => {
            return;
        },
    };
    if !indi.in_scope {
        return;
    }
    proof {
        lemma_lookup_ind_pos(genrep@.individuals, id@);
        let i = choose|i: int| 0 <= i < genrep@.individuals.len() && genrep@.individuals[i].id == id@;
        lemma_unvisited_strict(genrep@.individuals, st0.visited, st@.visited, id@, i);
    }
    let ghost st1 = st@;
    let parents = if indi.famc.len() > 0 {
        genrep.get_family(indi.famc[0].as_str())
    } else {
        None
    };
    assert(match parents {
        Some(f) => parents_fam(genrep@, indi@) == Some(f@),
        None => parents_fam(genrep@, indi@) is None,
    });
    match parents {
        Some(f) => match &f.husband_id {
            Some(fid) => {
                in_order(st, fid.as_str(), depth + 1, genrep, Ghost((fuel - 1) as nat));
            },
            None => {},
        },
        None => {},
    }
    let ghost st2 = st@;
    proof {
        lemma_unvisited_mono(genrep@.individuals, st1.visited, st2.visited);
    }
    let ghost before = ordered_view(st.ordered@);
    st.ordered.push((string_of(&idc), depth));
    assert(ordered_view(st.ordered@) =~= before.push((id@, depth as int)));
    match parents {
        Some(f) => match &f.wife_id {
            Some(mid) => {
                in_order(st, mid.as_str(), depth + 1, genrep, Ghost((fuel - 1) as nat));
            },
            None => {},
        },
        None => {},
    }
}

/// The in-order list of the ancestors of `root`, with their depths.
pub open spec fn anc_order(g: GenrepV<()>, root: Seq<char>) -> Seq<(Seq<char>, int)> {
    in_order_v((g.individuals.len() + 1) as nat, g, AncV { visited: seq![], ordered: seq![] }, root, 0).ordered
}

// ── keyed map laws ───────────────────────────────────────────────────────────

/// Reading back a keyed map after an insertion.
pub proof fn lemma_kv_get_put<V>(m: Seq<(Seq<char>, V)>, k: Seq<char>, v: V, x: Seq<char>)
    ensures
        kv_get(kv_put(m, k, v), x) == (if x == k {
            Some(v)
        } else {
            kv_get(m, x)
        }),
{
    reveal(kv_index);
    let ks = kv_keys(m);
    let i = kv_index(m, k);
    lemma_first_index_spec(ks, k);
    lemma_first_index_spec(ks, x);
    if 0 <= i < m.len() {
        let m2 = m.update(i, (k, v));
        assert(kv_keys(m2) =~= ks);
        assert(ks[i] == k);
        assert(kv_index(m2, x) == kv_index(m, x));
        if x != k {
            let j = kv_index(m, x);
            if 0 <= j < m.len() {
                assert(ks[j] == x);
                assert(m2[j] == m[j]);
            }
        }
    } else {
        let m2 = m.push((k, v));
        assert(kv_keys(m2) =~= ks.push(k));
        crate::genrep::lemma_first_index_push(ks, k, x);
        assert(kv_index(m2, x) == first_index(ks.push(k), x));
        if x != k {
            let j = kv_index(m, x);
            if 0 <= j < m.len() {
                assert(m2[j] == m[j]);
            }
        } else {
            assert(m2[m.len() as int] == (k, v));
        }
    }
}

// ── ancestors: lines and connectors ──────────────────────────────────────────

/// Line of each ancestor: its position in the in-order list times the step.
pub open spec fn anc_lines(ord: Seq<(Seq<char>, int)>, step: int) -> Seq<(Seq<char>, int)>
    decreases ord.len(),
{
    if ord.len() == 0 {
        seq![]
    } else {
        kv_put(anc_lines(ord.drop_last(), step), ord.last().0, (ord.len() - 1) * step)
    }
}

/// Placements of the ancestors, before connectors.
pub open spec fn anc_base(ord: Seq<(Seq<char>, int)>, step: int) -> Seq<(Seq<char>, SimpleGeoV)>
    decreases ord.len(),
{
    if ord.len() == 0 {
        seq![]
    } else {
        kv_put(
            anc_base(ord.drop_last(), step),
            ord.last().0,
            placed((ord.len() - 1) * step, ord.last().1, ord.last().1 + 1, false, false),
        )
    }
}

/// The lines `a..b` (empty when `a >= b`).
pub open spec fn span(a: int, b: int) -> Seq<int> {
    if a < b {
        Seq::new((b - a) as nat, |i: int| a + i)
    } else {
        seq![]
    }
}

pub open spec fn set_above(m: Seq<(Seq<char>, SimpleGeoV)>, k: Seq<char>, v: Seq<int>) -> Seq<(Seq<char>, SimpleGeoV)> {
    let i = kv_index(m, k);
    if 0 <= i < m.len() {
        m.update(i, (m[i].0, SimpleGeoV { connectors_above: v, ..m[i].1 }))
    } else {
        m
    }
}

pub open spec fn set_below(m: Seq<(Seq<char>, SimpleGeoV)>, k: Seq<char>, v: Seq<int>) -> Seq<(Seq<char>, SimpleGeoV)> {
    let i = kv_index(m, k);
    if 0 <= i < m.len() {
        m.update(i, (m[i].0, SimpleGeoV { connectors_below: v, ..m[i].1 }))
    } else {
        m
    }
}

/// Connectors of one ancestor: the gap lines up to its father, and down to its mother.
#[verifier::opaque]
pub open spec fn conn_step(
    g: GenrepV<()>,
    lines: Seq<(Seq<char>, int)>,
    m: Seq<(Seq<char>, SimpleGeoV)>,
    id: Seq<char>,
) -> Seq<(Seq<char>, SimpleGeoV)> {
    match lookup_ind(g.individuals, id) {
        None => m,
        Some(indi) => {
            let self_line = kv_get(lines, id)->0;
            let p = parents_fam(g, indi);
            let m1 = match father_of(p) {
                Some(fid) => match kv_get(lines, fid) {
                    Some(fl) => set_above(m, id, span(fl + 1, self_line)),
                    None => m,
                },
                None => m,
            };
            match mother_of(p) {
                Some(mid) => match kv_get(lines, mid) {
                    Some(ml) => set_below(m1, id, span(self_line + 1, ml)),
                    None => m1,
                },
                None => m1,
            }
        },
    }
}

pub open spec fn conn_pass(
    g: GenrepV<()>,
    lines: Seq<(Seq<char>, int)>,
    m: Seq<(Seq<char>, SimpleGeoV)>,
    ord: Seq<(Seq<char>, int)>,
) -> Seq<(Seq<char>, SimpleGeoV)>
    decreases ord.len(),
{
    if ord.len() == 0 {
        m
    } else {
        conn_step(g, lines, conn_pass(g, lines, m, ord.drop_last()), ord.last().0)
    }
}

/// The ancestors placements of a whole chart rooted at `root`.
pub open spec fn anc_geo(g: GenrepV<()>, root: Seq<char>, step: int) -> Seq<(Seq<char>, SimpleGeoV)> {
    let ord = anc_order(g, root);
    conn_pass(g, anc_lines(ord, step), anc_base(ord, step), ord)
}

proof fn lemma_anc_lines_has(ord: Seq<(Seq<char>, int)>, step: int, k: int)
    requires
        0 <= k < ord.len(),
    ensures
        kv_get(anc_lines(ord, step), ord[k].0) is Some,
    decreases ord.len(),
{
    let pre = ord.drop_last();
    lemma_kv_get_put(anc_lines(pre, step), ord.last().0, (ord.len() - 1) * step, ord[k].0);
    if k < ord.len() - 1 && ord[k].0 != ord.last().0 {
        assert(pre[k] == ord[k]);
        lemma_anc_lines_has(pre, step, k);
    }
}

proof fn lemma_anc_lines_bound(ord: Seq<(Seq<char>, int)>, step: int, x: Seq<char>)
    requires
        step >= 1,
    ensures
        kv_get(anc_lines(ord, step), x) matches Some(v) ==> 0 <= v <= (ord.len() - 1) * step,
    decreases ord.len(),
{
    if ord.len() > 0 {
        let pre = ord.drop_last();
        lemma_anc_lines_bound(pre, step, x);
        lemma_kv_get_put(anc_lines(pre, step), ord.last().0, (ord.len() - 1) * step, x);
        assert((pre.len() - 1) * step <= (ord.len() - 1) * step) by (nonlinear_arith)
            requires
                step >= 1,
                pre.len() + 1 == ord.len(),
        ;
        assert(0 <= (ord.len() - 1) * step) by (nonlinear_arith)
            requires
                step >= 1,
                ord.len() >= 1,
        ;
    }
}

pub open spec fn lines_view(v: Seq<(String, usize)>) -> Seq<(Seq<char>, int)> {
    v.map_values(|p: (String, usize)| (p.0@, p.1 as int))
}

fn line_position(m: &Vec<(String, usize)>, k: &str) -> (r: Option<usize>)
    ensures
        match r {
            Some(i) => i < m.len() && i == kv_index(lines_view(m@), k@),
            None => kv_index(lines_view(m@), k@) == -1,
        },
{
    reveal(kv_index);
    let ghost ks = kv_keys(lines_view(m@));
    let mut i: usize = 0;
    while i < m.len()
        invariant
            i <= m.len(),
            ks == kv_keys(lines_view(m@)),
            ks.len() == m.len(),
            forall|j: int| 0 <= j < i ==> ks[j] != k@,
        decreases m.len() - i,
    {
        if str_eq(m[i].0.as_str(), k) {
            proof {
                reveal(kv_index);
                lemma_first_index(ks, k@, i as int);
            }
            return Some(i);
        }
        i = i + 1;
    }
    proof {
        lemma_first_index_none(ks, k@);
    }
    None
}

fn line_get(m: &Vec<(String, usize)>, k: &str) -> (r: Option<usize>)
    ensures
        match r {
            Some(v) => kv_get(lines_view(m@), k@) == Some(v as int),
            None => kv_get(lines_view(m@), k@) is None,
        },
{
    match line_position(m, k) {
        Some(i) => Some(m[i].1),
        None => None,
    }
}

fn line_put(m: &mut Vec<(String, usize)>, k: String, v: usize)
    ensures
        lines_view(final(m)@) == kv_put(lines_view(old(m)@), k@, v as int),
{
    let ghost kv = k@;
    match line_position(m, k.as_str()) {
        Some(i) => {
            m.set(i, (k, v));
            assert(lines_view(m@) =~= kv_put(lines_view(old(m)@), kv, v as int));
        },
        None => {
            m.push((k, v));
            assert(lines_view(m@) =~= kv_put(lines_view(old(m)@), kv, v as int));
        },
    }
}

/// The lines `a..b` as a vector.
fn span_of(a: usize, b: usize) -> (r: Vec<usize>)
    ensures
        ints(r@) == span(a as int, b as int),
{
    let mut r: Vec<usize> = Vec::new();
    if a >= b {
        assert(ints(r@) =~= span(a as int, b as int));
        return r;
    }
    let mut x = a;
    while x < b
        invariant
            a <= x <= b,
            r.len() == x - a,
            forall|i: int| 0 <= i < r.len() ==> r@[i] == a + i,
        decreases b - x,
    {
        r.push(x);
        x = x + 1;
    }
    assert(ints(r@) =~= span(a as int, b as int));
    r
}

proof fn lemma_geo_replace(s0: Seq<(String, SimpleGeo)>, s1: Seq<(String, SimpleGeo)>, i: int)
    requires
        0 <= i < s0.len(),
        s1 == s0.remove(i).insert(i, s1[i]),
    ensures
        geo_view(s1) == geo_view(s0).update(i, geo_view(s1)[i]),
        s1.len() == s0.len(),
{
    assert(s0.remove(i).insert(i, s1[i]) =~= s0.update(i, s1[i]));
    assert(geo_view(s1) =~= geo_view(s0).update(i, geo_view(s1)[i]));
}

/// Replace the connectors of the placement under `k`, if there is one.
fn set_connectors(m: &mut Vec<(String, SimpleGeo)>, k: &str, v: Vec<usize>, above: bool)
    ensures
        geo_view(final(m)@) == if above {
            set_above(geo_view(old(m)@), k@, ints(v@))
        } else {
            set_below(geo_view(old(m)@), k@, ints(v@))
        },
{
    match geo_position(m, k) {
        Some(i) => {
            let ghost s0 = m@;
            let ghost vv = ints(v@);
            let (key, mut geo) = m.remove(i);
            if above {
                geo.connectors_above = v;
            } else {
                geo.connectors_below = v;
            }
            m.insert(i, (key, geo));
            proof {
                lemma_geo_replace(s0, m@, i as int);
                reveal(kv_index);
            }
            if above {
                assert(geo_view(m@) =~= set_above(geo_view(s0), k@, vv));
            } else {
                assert(geo_view(m@) =~= set_below(geo_view(s0), k@, vv));
            }
        },
        None => {},
    }
}

fn anc_first_pass(ordered: &Vec<(String, usize)>, step: usize) -> (r: (Vec<(String, usize)>, Vec<(String, SimpleGeo)>))
    requires
        step >= 1,
        (ordered_view(ordered@).len() - 1) * step < usize::MAX,
        forall|q: int| 0 <= q < ordered.len() ==> ordered@[q].1 < usize::MAX,
    ensures
        lines_view(r.0@) == anc_lines(ordered_view(ordered@), step as int),
        geo_view(r.1@) == anc_base(ordered_view(ordered@), step as int),
{
    let ghost ord = ordered_view(ordered@);
    let mut lines: Vec<(String, usize)> = Vec::new();
    let mut geo: Vec<(String, SimpleGeo)> = Vec::new();
    let mut k: usize = 0;
    assert(ord.take(0) =~= seq![]);
    assert(lines_view(lines@) =~= seq![]);
    assert(geo_view(geo@) =~= seq![]);
    while k < ordered.len()
        invariant
            k <= ordered.len(),
            ord == ordered_view(ordered@),
            ord.len() == ordered.len(),
            step >= 1,
            (ord.len() - 1) * step < usize::MAX,
            lines_view(lines@) == anc_lines(ord.take(k as int), step as int),
            geo_view(geo@) == anc_base(ord.take(k as int), step as int),
            forall|q: int| 0 <= q < ordered.len() ==> ordered@[q].1 < usize::MAX,
        decreases ordered.len() - k,
    {
        assert(k * step <= (ord.len() - 1) * step) by (nonlinear_arith)
            requires
                k < ord.len(),
                step >= 1,
        ;
        let line_num = k * step;
        let id = &ordered[k].0;
        let depth = ordered[k].1;
        proof {
            assert(ord.take(k + 1).drop_last() =~= ord.take(k as int));
            assert(ord.take(k + 1).last() == (id@, depth as int));
        }
        line_put(&mut lines, id.clone(), line_num);
        geo_put(&mut geo, id.clone(), new_geo(line_num, depth, depth + 1, false, false));
        k = k + 1;
    }
    assert(ord.take(ordered.len() as int) =~= ord);
    (lines, geo)
}

fn conn_ex(geo: &mut Vec<(String, SimpleGeo)>, lines: &Vec<(String, usize)>, id: &String, genrep: &Genrep)
    requires
        kv_get(lines_view(lines@), id@) is Some,
        forall|x: Seq<char>| #[trigger] kv_get(lines_view(lines@), x) matches Some(v) ==> v < usize::MAX,
    ensures
        geo_view(final(geo)@) == conn_step(genrep@, lines_view(lines@), geo_view(old(geo)@), id@),
{
    reveal(conn_step);
    let indi = match genrep.get_individual(id.as_str()) {
        Some(i) => i,
        None => {
            return;
        },
    };
    let self_line = match line_get(lines, id.as_str()) {
        Some(l) => l,
        None => {
            return;
        },
    };
    let parents = if indi.famc.len() > 0 {
        genrep.get_family(indi.famc[0].as_str())
    } else {
        None
    };
    assert(match parents {
        Some(f) => parents_fam(genrep@, indi@) == Some(f@),
        None => parents_fam(genrep@, indi@) is None,
    });
    match parents {
        Some(fam) => {
            match &fam.husband_id {
                Some(fid) => {
                    match line_get(lines, fid.as_str()) {
                        Some(fl) => {
                            let above = span_of(fl + 1, self_line);
                            set_connectors(geo, id.as_str(), above, true);
                        },
                        None => {},
                    }
                },
                None => {},
            }
            match &fam.wife_id {
                Some(mid) => {
                    match line_get(lines, mid.as_str()) {
                        Some(ml) => {
                            let below = span_of(self_line + 1, ml);
                            set_connectors(geo, id.as_str(), below, false);
                        },
                        None => {},
                    }
                },
                None => {},
            }
        },
        None => {},
    }
}

fn layout_ancestors(genrep: &Genrep, root: &str, spacing: usize) -> (r: Option<Vec<(String, SimpleGeo)>>)
    requires
        spacing < usize::MAX,
        genrep.individuals.len() + 2 <= usize::MAX,
    ensures
        r is Some <==> (anc_order(genrep@, root@).len() - 1) * (spacing + 1) < usize::MAX,
        r matches Some(v) ==> geo_view(v@) == anc_geo(genrep@, root@, spacing + 1),
{
    let step = spacing + 1;
    let mut st = AncState { visited: Vec::new(), ordered: Vec::new() };
    assert(strs(st.visited@) =~= seq![]);
    assert(ordered_view(st.ordered@) =~= seq![]);
    proof {
        lemma_unvisited_le(genrep@.individuals, st@.visited);
    }
    in_order(&mut st, root, 0, genrep, Ghost((genrep@.individuals.len() + 1) as nat));
    let ordered = st.ordered;
    let ghost ord = ordered_view(ordered@);
    assert(ord == anc_order(genrep@, root@));
    assert(ord.len() == ordered.len());
    if ordered.len() > 0 {
        let m = ordered.len() - 1;
        match m.checked_mul(step) {
            Some(last) => {
                assert(last as int == m as int * step as int);
                if last == usize::MAX {
                    return None;
                }
            },
            None => {
                assert(m as int * step as int > usize::MAX);
                return None;
            },
        }
        assert((ord.len() - 1) * step < usize::MAX);
    } else {
        assert((ord.len() - 1) * step == -(step as int));
    }
    let (lines, geo) = anc_first_pass(&ordered, step);
    Some(anc_conn_pass(&ordered, &lines, geo, step, genrep))
}

fn anc_conn_pass(
    ordered: &Vec<(String, usize)>,
    lines: &Vec<(String, usize)>,
    geo: Vec<(String, SimpleGeo)>,
    step: usize,
    genrep: &Genrep,
) -> (r: Vec<(String, SimpleGeo)>)
    requires
        step >= 1,
        (ordered_view(ordered@).len() - 1) * step < usize::MAX,
        lines_view(lines@) == anc_lines(ordered_view(ordered@), step as int),
    ensures
        geo_view(r@) == conn_pass(genrep@, lines_view(lines@), geo_view(geo@), ordered_view(ordered@)),
{
    let ghost ord = ordered_view(ordered@);
    let ghost lv = lines_view(lines@);
    let ghost base = geo_view(geo@);
    let mut geo = geo;
    let mut k: usize = 0;
    assert(ord.take(0) =~= seq![]);
    while k < ordered.len()
        invariant
            k <= ordered.len(),
            ord == ordered_view(ordered@),
            ord.len() == ordered.len(),
            step >= 1,
            (ord.len() - 1) * step < usize::MAX,
            lv == lines_view(lines@),
            lv == anc_lines(ord, step as int),
            geo_view(geo@) == conn_pass(genrep@, lv, base, ord.take(k as int)),
        decreases ordered.len() - k,
    {
        let id = &ordered[k].0;
        proof {
            assert(ord.take(k + 1).drop_last() =~= ord.take(k as int));
            assert(ord.take(k + 1).last().0 == id@);
            assert(ord[k as int].0 == id@);
            lemma_anc_lines_has(ord, step as int, k as int);
            assert forall|x: Seq<char>| (#[trigger] kv_get(lv, x) matches Some(v) ==> v < usize::MAX) by {
                lemma_anc_lines_bound(ord, step as int, x);
            }
        }
        conn_ex(&mut geo, lines, id, genrep);
        k = k + 1;
    }
    assert(ord.take(ordered.len() as int) =~= ord);
    geo
}

// ── forest: tree sizes ───────────────────────────────────────────────────────

/// The state of the depth-first count of a tree: visited IDs and the stack.
pub struct TsV {
    pub vis: Seq<Seq<char>>,
    pub stack: Seq<Seq<char>>,
}

pub open spec fn push_new(stack: Seq<Seq<char>>, vis: Seq<Seq<char>>, x: Seq<char>) -> Seq<Seq<char>> {
    if vis.contains(x) {
        stack
    } else {
        stack.push(x)
    }
}

pub open spec fn push_all_new(stack: Seq<Seq<char>>, vis: Seq<Seq<char>>, xs: Seq<Seq<char>>) -> Seq<Seq<char>>
    decreases xs.len(),
{
    if xs.len() == 0 {
        stack
    } else {
        push_new(push_all_new(stack, vis, xs.drop_last()), vis, xs.last())
    }
}

/// The partner counted with `id` in a tree: the wife when `id` is the husband, otherwise
/// the husband.
pub open spec fn tree_partner(f: FamilyV<()>, id: Seq<char>) -> Option<Seq<char>> {
    if f.husband_id == Some(id) {
        f.wife_id
    } else {
        f.husband_id
    }
}

#[verifier::opaque]
pub open spec fn ts_fam(g: GenrepV<()>, vis: Seq<Seq<char>>, id: Seq<char>, stack: Seq<Seq<char>>, fam_id: Seq<char>) -> Seq<Seq<char>> {
    match lookup_fam(g.families, fam_id) {
        Some(f) => if f.in_scope {
            let s1 = match tree_partner(f, id) {
                Some(sp) => push_new(stack, vis, sp),
                None => stack,
            };
            push_all_new(s1, vis, f.children_ids)
        } else {
            stack
        },
        None => stack,
    }
}

pub open spec fn ts_fams(g: GenrepV<()>, vis: Seq<Seq<char>>, id: Seq<char>, stack: Seq<Seq<char>>, fams: Seq<Seq<char>>) -> Seq<Seq<char>>
    decreases fams.len(),
{
    if fams.len() == 0 {
        stack
    } else {
        ts_fam(g, vis, id, ts_fams(g, vis, id, stack, fams.drop_last()), fams.last())
    }
}

/// One pop of the stack: an unvisited in-scope individual is counted, and its partners
/// and children not yet counted are pushed.
#[verifier::opaque]
pub open spec fn ts_step(g: GenrepV<()>, st: TsV) -> TsV {
    if st.stack.len() == 0 {
        st
    } else {
        let id = st.stack.last();
        let rest = st.stack.drop_last();
        if st.vis.contains(id) {
            TsV { vis: st.vis, stack: rest }
        } else {
            match lookup_ind(g.individuals, id) {
                Some(indi) => if indi.in_scope {
                    let vis = st.vis.push(id);
                    TsV { vis, stack: ts_fams(g, vis, id, rest, indi.fams) }
                } else {
                    TsV { vis: st.vis, stack: rest }
                },
                None => TsV { vis: st.vis, stack: rest },
            }
        }
    }
}

pub open spec fn ts_run(g: GenrepV<()>, root: Seq<char>, k: nat) -> TsV
    decreases k,
{
    if k == 0 {
        TsV { vis: seq![], stack: seq![root] }
    } else {
        ts_step(g, ts_run(g, root, (k - 1) as nat))
    }
}

/// The number of individuals reachable from `root` through families in scope (partners
/// and children), counting in-scope individuals only.
pub open spec fn tree_size_v(g: GenrepV<()>, root: Seq<char>) -> int {
    ts_run(g, root, choose|k: nat| ts_run(g, root, k).stack.len() == 0).vis.len() as int
}

proof fn lemma_ts_stable(g: GenrepV<()>, root: Seq<char>, k0: nat, k: nat)
    requires
        ts_run(g, root, k0).stack.len() == 0,
        k0 <= k,
    ensures
        ts_run(g, root, k) == ts_run(g, root, k0),
    decreases k - k0,
{
    reveal(ts_step);
    if k > k0 {
        lemma_ts_stable(g, root, k0, (k - 1) as nat);
    }
}

proof fn lemma_ts_final(g: GenrepV<()>, root: Seq<char>, k0: nat)
    requires
        ts_run(g, root, k0).stack.len() == 0,
    ensures
        tree_size_v(g, root) == ts_run(g, root, k0).vis.len(),
{
    let k1 = choose|k: nat| ts_run(g, root, k).stack.len() == 0;
    assert(ts_run(g, root, k1).stack.len() == 0);
    if k1 <= k0 {
        lemma_ts_stable(g, root, k1, k0);
    } else {
        lemma_ts_stable(g, root, k0, k1);
    }
}

fn push_if_new(stack: &mut Vec<String>, vis: &Vec<String>, x: &String)
    ensures
        strs(final(stack)@) == push_new(strs(old(stack)@), strs(vis@), x@),
{
    let xc = chars_of(x.as_str());
    if !contains_chars(vis, &xc) {
        let ghost before = strs(stack@);
        stack.push(x.clone());
        assert(strs(stack@) =~= before.push(x@));
    }
}

fn ts_fam_ex(stack: &mut Vec<String>, vis: &Vec<String>, id: &str, fam_id: &str, genrep: &Genrep)
    ensures
        strs(final(stack)@) == ts_fam(genrep@, strs(vis@), id@, strs(old(stack)@), fam_id@),
{
    reveal(ts_fam);
    let fam = match genrep.get_family(fam_id) {
        Some(f) => f,
        None => {
            return;
        },
    };
    if !fam.in_scope {
        return;
    }
    let sp: Option<&String> = if opt_is(&fam.husband_id, id) {
        fam.wife_id.as_ref()
    } else {
        fam.husband_id.as_ref()
    };
    assert(opt_str_ref(sp) == tree_partner(fam@, id@));
    match sp {
        Some(x) => {
            push_if_new(stack, vis, x);
        },
        None => {},
    }
    let ghost s1 = strs(stack@);
    let ch = &fam.children_ids;
    let ghost cs = strs(ch@);
    let mut j: usize = 0;
    assert(cs.take(0) =~= seq![]);
    while j < ch.len()
        invariant
            j <= ch.len(),
            cs == strs(ch@),
            strs(stack@) == push_all_new(s1, strs(vis@), cs.take(j as int)),
        decreases ch.len() - j,
    {
        assert(cs.take(j + 1).drop_last() =~= cs.take(j as int));
        push_if_new(stack, vis, &ch[j]);
        j = j + 1;
    }
    assert(cs.take(ch.len() as int) =~= cs);
}

proof fn lemma_ts_step_measure(g: GenrepV<()>, st: TsV)
    requires
        st.stack.len() > 0,
    ensures
        (ts_step(g, st).vis == st.vis && ts_step(g, st).stack.len() < st.stack.len())
            || unvisited(g.individuals, ts_step(g, st).vis) < unvisited(g.individuals, st.vis),
        forall|x: Seq<char>| #[trigger] st.vis.contains(x) ==> ts_step(g, st).vis.contains(x),
{
    reveal(ts_step);
    let id = st.stack.last();
    if !st.vis.contains(id) {
        if let Some(indi) = lookup_ind(g.individuals, id) {
            if indi.in_scope {
                lemma_push_grows(st.vis, id);
                lemma_lookup_ind_pos(g.individuals, id);
                let i = choose|i: int| 0 <= i < g.individuals.len() && g.individuals[i].id == id;
                lemma_unvisited_strict(g.individuals, st.vis, st.vis.push(id), id, i);
            }
        }
    }
}

proof fn lemma_ts_step_cases(g: GenrepV<()>, st: TsV)
    requires
        st.stack.len() > 0,
    ensures
        ({
            let id = st.stack.last();
            let rest = st.stack.drop_last();
            if st.vis.contains(id) {
                ts_step(g, st) == TsV { vis: st.vis, stack: rest }
            } else if lookup_ind(g.individuals, id) matches Some(indi) && indi.in_scope {
                ts_step(g, st) == TsV {
                    vis: st.vis.push(id),
                    stack: ts_fams(g, st.vis.push(id), id, rest, lookup_ind(g.individuals, id)->0.fams),
                }
            } else {
                ts_step(g, st) == TsV { vis: st.vis, stack: rest }
            }
        }),
{
    reveal(ts_step);
}

fn ts_step_ex(vis: &mut Vec<String>, stack: &mut Vec<String>, genrep: &Genrep)
    requires
        old(stack).len() > 0,
    ensures
        (TsV { vis: strs(final(vis)@), stack: strs(final(stack)@) }) == ts_step(
            genrep@,
            TsV { vis: strs(old(vis)@), stack: strs(old(stack)@) },
        ),
{
    let ghost g = genrep@;
    let ghost cur = TsV { vis: strs(vis@), stack: strs(stack@) };
    proof {
        lemma_ts_step_cases(g, cur);
    }
    let id = stack.pop().unwrap();
    assert(strs(stack@) =~= cur.stack.drop_last());
    assert(id@ == cur.stack.last());
    let idc = chars_of(id.as_str());
    if contains_chars(vis, &idc) {
        return;
    }
    let indi = match genrep.get_individual(id.as_str()) {
        Some(i) => i,
        None => {
            return;
        },
    };
    if !indi.in_scope {
        return;
    }
    let ghost before = strs(vis@);
    vis.push(id.clone());
    assert(strs(vis@) =~= before.push(id@));
    ts_fams_ex(stack, vis, id.as_str(), &indi.fams, genrep);
}

fn ts_fams_ex(stack: &mut Vec<String>, vis: &Vec<String>, id: &str, fams: &Vec<String>, genrep: &Genrep)
    ensures
        strs(final(stack)@) == ts_fams(genrep@, strs(vis@), id@, strs(old(stack)@), strs(fams@)),
{
    let ghost g = genrep@;
    let ghost rest = strs(stack@);
    let ghost fs = strs(fams@);
    let mut j: usize = 0;
    assert(fs.take(0) =~= seq![]);
    while j < fams.len()
        invariant
            j <= fams.len(),
            fs == strs(fams@),
            strs(stack@) == ts_fams(g, strs(vis@), id@, rest, fs.take(j as int)),
            g == genrep@,
        decreases fams.len() - j,
    {
        assert(fs.take(j + 1).drop_last() =~= fs.take(j as int));
        ts_fam_ex(stack, vis, id, fams[j].as_str(), genrep);
        j = j + 1;
    }
    assert(fs.take(fams.len() as int) =~= fs);
}

/// The number of individuals in the tree of `root` (see `tree_size_v`).
fn tree_size(genrep: &Genrep, root: &str) -> (r: usize)
    ensures
        r == tree_size_v(genrep@, root@),
{
    let ghost g = genrep@;
    let mut vis: Vec<String> = Vec::new();
    let mut stack: Vec<String> = Vec::new();
    stack.push(string_of(&chars_of(root)));
    let ghost mut k: nat = 0;
    assert(TsV { vis: strs(vis@), stack: strs(stack@) } == ts_run(g, root@, 0)) by {
        assert(strs(vis@) =~= seq![]);
        assert(strs(stack@) =~= seq![root@]);
    }
    while stack.len() > 0
        invariant
            g == genrep@,
            (TsV { vis: strs(vis@), stack: strs(stack@) }) == ts_run(g, root@, k),
        decreases unvisited(g.individuals, strs(vis@)), stack.len(),
    {
        proof {
            lemma_ts_step_measure(g, TsV { vis: strs(vis@), stack: strs(stack@) });
        }
        ts_step_ex(&mut vis, &mut stack, genrep);
        proof {
            k = k + 1;
        }
    }
    proof {
        lemma_ts_final(g, root@, k);
    }
    vis.len()
}

// ── forest: roots ────────────────────────────────────────────────────────────

/// `a` sorts before `b` as strings do (character by character, a prefix first).
pub open spec fn seq_lt(a: Seq<char>, b: Seq<char>) -> bool
    decreases a.len(),
{
    if a.len() == 0 {
        b.len() > 0
    } else if b.len() == 0 {
        false
    } else if a[0] != b[0] {
        a[0] < b[0]
    } else {
        seq_lt(a.drop_first(), b.drop_first())
    }
}

proof fn lemma_seq_lt_trans(a: Seq<char>, b: Seq<char>, c: Seq<char>)
    requires
        seq_lt(a, b),
        seq_lt(b, c),
    ensures
        seq_lt(a, c),
    decreases a.len(),
{
    if a.len() > 0 && b.len() > 0 && c.len() > 0 && a[0] == b[0] && b[0] == c[0] {
        lemma_seq_lt_trans(a.drop_first(), b.drop_first(), c.drop_first());
    }
}

proof fn lemma_seq_lt_irrefl(a: Seq<char>)
    ensures
        !seq_lt(a, a),
    decreases a.len(),
{
    if a.len() > 0 {
        lemma_seq_lt_irrefl(a.drop_first());
    }
}

proof fn lemma_seq_lt_total(a: Seq<char>, b: Seq<char>)
    ensures
        a == b || seq_lt(a, b) || seq_lt(b, a),
        !(seq_lt(a, b) && seq_lt(b, a)),
    decreases a.len(),
{
    if a.len() > 0 && b.len() > 0 {
        lemma_seq_lt_total(a.drop_first(), b.drop_first());
        if a[0] == b[0] && a.drop_first() == b.drop_first() {
            assert(a =~= b) by {
                assert forall|i: int| 0 <= i < a.len() implies a[i] == b[i] by {
                    if i > 0 {
                        assert(a[i] == a.drop_first()[i - 1]);
                        assert(b[i] == b.drop_first()[i - 1]);
                    }
                }
            }
        }
    } else if a.len() == 0 && b.len() == 0 {
        assert(a =~= b);
    }
}

/// String `<`, character by character.
fn str_lt(a: &str, b: &str) -> (r: bool)
    ensures
        r == seq_lt(a@, b@),
{
    let x = chars_of(a);
    let y = chars_of(b);
    let mut i: usize = 0;
    assert(x@.skip(0) =~= x@);
    assert(y@.skip(0) =~= y@);
    while i < x.len() && i < y.len()
        invariant
            i <= x.len(),
            i <= y.len(),
            x@ == a@,
            y@ == b@,
            seq_lt(x@, y@) == seq_lt(x@.skip(i as int), y@.skip(i as int)),
        decreases x.len() - i,
    {
        let ghost xs = x@.skip(i as int);
        let ghost ys = y@.skip(i as int);
        assert(xs[0] == x@[i as int] && ys[0] == y@[i as int]);
        if x[i] != y[i] {
            assert(xs.len() > 0 && ys.len() > 0);
            assert(seq_lt(xs, ys) == (xs[0] < ys[0]));
            return x[i] < y[i];
        }
        assert(xs.drop_first() =~= x@.skip(i + 1));
        assert(ys.drop_first() =~= y@.skip(i + 1));
        i = i + 1;
    }
    if i == x.len() {
        assert(x@.skip(i as int).len() == 0);
        i < y.len()
    } else {
        assert(y@.skip(i as int).len() == 0);
        false
    }
}

/// Some family the individual is a child of is in scope.
pub open spec fn fam_in_scope(g: GenrepV<()>, fam_id: Seq<char>) -> bool {
    lookup_fam(g.families, fam_id) matches Some(f) && f.in_scope
}

pub open spec fn has_scoped_parents(g: GenrepV<()>, indi: IndividualV<()>) -> bool {
    exists|j: int| 0 <= j < indi.famc.len() && fam_in_scope(g, #[trigger] indi.famc[j])
}

/// Individual `i` starts a tree: it is the record of its ID, in scope, with no parents in scope.
pub open spec fn is_forest_root(g: GenrepV<()>, i: int) -> bool {
    &&& crate::genrep::ind_index(g.individuals, g.individuals[i].id) == i
    &&& g.individuals[i].in_scope
    &&& !has_scoped_parents(g, g.individuals[i])
}

pub open spec fn forest_roots(g: GenrepV<()>, n: int) -> Seq<Seq<char>>
    decreases n,
{
    if n <= 0 {
        seq![]
    } else {
        let r = forest_roots(g, n - 1);
        if is_forest_root(g, n - 1) {
            r.push(g.individuals[n - 1].id)
        } else {
            r
        }
    }
}

#[verifier::spinoff_prover]
#[verifier::rlimit(30)]
fn scoped_parents_ex(genrep: &Genrep, indi: &Individual) -> (r: bool)
    ensures
        r == has_scoped_parents(genrep@, indi@),
{
    let mut j: usize = 0;
    while j < indi.famc.len()
        invariant
            j <= indi.famc.len(),
            forall|q: int| 0 <= q < j ==> !fam_in_scope(genrep@, #[trigger] indi@.famc[q]),
        decreases indi.famc.len() - j,
    {
        assert(indi@.famc[j as int] == indi.famc@[j as int]@);
        let hit = match genrep.get_family(indi.famc[j].as_str()) {
            Some(f) => f.in_scope,
            None => false,
        };
        assert(hit == fam_in_scope(genrep@, indi@.famc[j as int]));
        if hit {
            return true;
        }
        j = j + 1;
    }
    false
}

fn roots_of(genrep: &Genrep) -> (r: Vec<String>)
    ensures
        strs(r@) == forest_roots(genrep@, genrep@.individuals.len() as int),
{
    let mut r: Vec<String> = Vec::new();
    let mut i: usize = 0;
    assert(strs(r@) =~= seq![]);
    while i < genrep.individuals.len()
        invariant
            i <= genrep.individuals.len(),
            strs(r@) == forest_roots(genrep@, i as int),
        decreases genrep.individuals.len() - i,
    {
        let indi = &genrep.individuals[i];
        assert(genrep@.individuals[i as int] == indi@);
        let first = match crate::genrep::find_individual(&genrep.individuals, indi.id.as_str()) {
            Some(p) => p == i,
            None => false,
        };
        if first && indi.in_scope && !scoped_parents_ex(genrep, indi) {
            let ghost before = strs(r@);
            r.push(indi.id.clone());
            assert(strs(r@) =~= before.push(indi@.id));
        }
        i = i + 1;
    }
    r
}

/// Tree order of roots: larger trees first, then by ID, then by position.
pub open spec fn root_before(sizes: Seq<int>, ids: Seq<Seq<char>>, a: usize, b: usize) -> bool {
    sizes[a as int] > sizes[b as int] || (sizes[a as int] == sizes[b as int] && (seq_lt(ids[a as int], ids[b as int]) || (ids[a as int] == ids[b as int] && a < b)))
}

pub open spec fn is_root_order(sizes: Seq<int>, ids: Seq<Seq<char>>, p: Seq<usize>) -> bool {
    &&& p.len() == ids.len()
    &&& forall|j: int| 0 <= j < p.len() ==> p[j] < ids.len()
    &&& forall|a: int, b: int| 0 <= a < b < p.len() ==> root_before(sizes, ids, p[a], p[b])
    &&& forall|i: usize| i < ids.len() ==> p.contains(i)
}

proof fn lemma_root_before_trans(sizes: Seq<int>, ids: Seq<Seq<char>>, a: usize, b: usize, c: usize)
    requires
        root_before(sizes, ids, a, b),
        root_before(sizes, ids, b, c),
    ensures
        root_before(sizes, ids, a, c),
{
    if sizes[a as int] == sizes[b as int] && sizes[b as int] == sizes[c as int] {
        if seq_lt(ids[a as int], ids[b as int]) && seq_lt(ids[b as int], ids[c as int]) {
            lemma_seq_lt_trans(ids[a as int], ids[b as int], ids[c as int]);
        }
    }
}

proof fn lemma_root_before_total(sizes: Seq<int>, ids: Seq<Seq<char>>, a: usize, b: usize)
    requires
        a != b,
    ensures
        root_before(sizes, ids, a, b) || root_before(sizes, ids, b, a),
        !(root_before(sizes, ids, a, b) && root_before(sizes, ids, b, a)),
{
    lemma_seq_lt_total(ids[a as int], ids[b as int]);
}

/// Sort the roots: insertion of each position after those that come before it.
fn root_order(sizes: &Vec<usize>, ids: &Vec<String>) -> (p: Vec<usize>)
    requires
        sizes.len() == ids.len(),
    ensures
        is_root_order(ints(sizes@), strs(ids@), p@),
{
    let ghost sz = ints(sizes@);
    let ghost is = strs(ids@);
    let mut out: Vec<usize> = Vec::new();
    let mut i: usize = 0;
    while i < ids.len()
        invariant
            i <= ids.len(),
            sizes.len() == ids.len(),
            sz == ints(sizes@),
            is == strs(ids@),
            out.len() == i,
            forall|j: int| 0 <= j < out.len() ==> out@[j] < i,
            forall|a: int, b: int| 0 <= a < b < out.len() ==> root_before(sz, is, out@[a], out@[b]),
            forall|x: usize| x < i ==> out@.contains(x),
        decreases ids.len() - i,
    {
        let mut pos: usize = 0;
        let mut found = false;
        while !found && pos < out.len()
            invariant
                i < ids.len(),
                sizes.len() == ids.len(),
                sz == ints(sizes@),
                is == strs(ids@),
                pos <= out.len(),
                forall|j: int| 0 <= j < out.len() ==> out@[j] < i,
                forall|t: int| 0 <= t < pos ==> !root_before(sz, is, i, #[trigger] out@[t]),
                found ==> pos < out.len() && root_before(sz, is, i, out@[pos as int]),
            decreases out.len() - pos, (if found { 0int } else { 1int }),
        {
            let o = out[pos];
            let si = sizes[i];
            let so = sizes[o];
            let lt = si > so || (si == so && (str_lt(ids[i].as_str(), ids[o].as_str()) || (str_eq(
                ids[i].as_str(),
                ids[o].as_str(),
            ) && i < o)));
            assert(lt == root_before(sz, is, i, o));
            if lt {
                found = true;
            } else {
                pos = pos + 1;
            }
        }
        let ghost old_out = out@;
        out.insert(pos, i);
        proof {
            assert forall|a: int, b: int| 0 <= a < b < out.len() implies root_before(
                sz,
                is,
                out@[a],
                out@[b],
            ) by {
                if b < pos {
                    assert(out@[a] == old_out[a] && out@[b] == old_out[b]);
                } else if b == pos {
                    assert(out@[a] == old_out[a]);
                    assert(!root_before(sz, is, i, old_out[a]));
                    lemma_root_before_total(sz, is, i, old_out[a]);
                } else if a == pos {
                    assert(out@[b] == old_out[b - 1]);
                    if b - 1 > pos {
                        assert(root_before(sz, is, old_out[pos as int], old_out[b - 1]));
                        lemma_root_before_trans(sz, is, i, old_out[pos as int], old_out[b - 1]);
                    }
                } else if a < pos {
                    assert(out@[a] == old_out[a] && out@[b] == old_out[b - 1]);
                } else {
                    assert(out@[a] == old_out[a - 1] && out@[b] == old_out[b - 1]);
                }
            }
            assert forall|x: usize| x < i + 1 implies out@.contains(x) by {
                if x == i {
                    assert(out@[pos as int] == i);
                } else {
                    assert(old_out.contains(x));
                    let k = choose|k: int| 0 <= k < old_out.len() && old_out[k] == x;
                    if k < pos {
                        assert(out@[k] == x);
                    } else {
                        assert(out@[k + 1] == x);
                    }
                }
            }
        }
        i = i + 1;
    }
    out
}

proof fn lemma_root_prefix(sizes: Seq<int>, ids: Seq<Seq<char>>, p: Seq<usize>, q: Seq<usize>, n: int)
    requires
        is_root_order(sizes, ids, p),
        is_root_order(sizes, ids, q),
        0 <= n <= p.len(),
    ensures
        forall|j: int| 0 <= j < n ==> p[j] == q[j],
    decreases n,
{
    if n > 0 {
        lemma_root_prefix(sizes, ids, p, q, n - 1);
        let m = n - 1;
        let a = p[m];
        let b = q[m];
        if a != b {
            lemma_root_before_total(sizes, ids, a, b);
            assert(q.contains(a));
            let k = choose|k: int| 0 <= k < q.len() && q[k] == a;
            lemma_seq_lt_irrefl(ids[a as int]);
            lemma_seq_lt_irrefl(ids[b as int]);
            if k < m {
                assert(p[k] == a);
                assert(root_before(sizes, ids, p[k], p[m]));
            }
            assert(k > m);
            assert(root_before(sizes, ids, b, a));
            assert(p.contains(b));
            let l = choose|l: int| 0 <= l < p.len() && p[l] == b;
            if l < m {
                assert(q[l] == b);
                assert(root_before(sizes, ids, q[l], q[m]));
            }
            assert(l > m);
            assert(root_before(sizes, ids, a, b));
        }
    }
}

/// The tree order of the roots is unique.
pub proof fn lemma_root_order_unique(sizes: Seq<int>, ids: Seq<Seq<char>>, p: Seq<usize>, q: Seq<usize>)
    requires
        is_root_order(sizes, ids, p),
        is_root_order(sizes, ids, q),
    ensures
        p == q,
{
    lemma_root_prefix(sizes, ids, p, q, p.len() as int);
    assert(p =~= q);
}

pub open spec fn root_sizes(g: GenrepV<()>, roots: Seq<Seq<char>>) -> Seq<int> {
    Seq::new(roots.len(), |i: int| tree_size_v(g, roots[i]))
}

/// The roots of the forest, larger trees first, ties by ID.
pub open spec fn sorted_roots(g: GenrepV<()>) -> Seq<Seq<char>> {
    let r0 = forest_roots(g, g.individuals.len() as int);
    crate::layout::common::reorder(r0, choose|p: Seq<usize>| is_root_order(root_sizes(g, r0), r0, p))
}

/// Root `r` gives way to a partner that is also a root, with a larger tree (or an equal
/// tree and a smaller ID): the partner's tree will hold it.
pub open spec fn yields_to(g: GenrepV<()>, roots: Seq<Seq<char>>, r: Seq<char>, fam_id: Seq<char>) -> bool {
    match lookup_fam(g.families, fam_id) {
        Some(f) => f.in_scope && match tree_partner(f, r) {
            Some(sp) => roots.contains(sp) && (tree_size_v(g, sp) > tree_size_v(g, r) || (
            tree_size_v(g, sp) == tree_size_v(g, r) && seq_lt(sp, r))),
            None => false,
        },
        None => false,
    }
}

pub open spec fn keeps_root(g: GenrepV<()>, roots: Seq<Seq<char>>, r: Seq<char>) -> bool {
    match lookup_ind(g.individuals, r) {
        Some(indi) => forall|j: int|
            0 <= j < indi.fams.len() ==> !yields_to(g, roots, r, #[trigger] indi.fams[j]),
        None => false,
    }
}

pub open spec fn keep_roots(g: GenrepV<()>, roots: Seq<Seq<char>>, n: int) -> Seq<Seq<char>>
    decreases n,
{
    if n <= 0 {
        seq![]
    } else {
        let r = keep_roots(g, roots, n - 1);
        if keeps_root(g, roots, roots[n - 1]) {
            r.push(roots[n - 1])
        } else {
            r
        }
    }
}

/// The roots the forest draws a tree for, in order.
pub open spec fn forest_tree_roots(g: GenrepV<()>) -> Seq<Seq<char>> {
    let roots = sorted_roots(g);
    keep_roots(g, roots, roots.len() as int)
}

fn sorted_roots_ex(genrep: &Genrep) -> (r: (Vec<String>, Vec<usize>))
    ensures
        strs(r.0@) == sorted_roots(genrep@),
        ints(r.1@) == root_sizes(genrep@, sorted_roots(genrep@)),
{
    let ghost g = genrep@;
    let roots = roots_of(genrep);
    let ghost r0 = strs(roots@);
    let mut sizes: Vec<usize> = Vec::new();
    let mut i: usize = 0;
    while i < roots.len()
        invariant
            i <= roots.len(),
            g == genrep@,
            r0 == strs(roots@),
            sizes.len() == i,
            forall|q: int| 0 <= q < i ==> sizes@[q] == tree_size_v(g, r0[q]),
        decreases roots.len() - i,
    {
        sizes.push(tree_size(genrep, roots[i].as_str()));
        i = i + 1;
    }
    assert(ints(sizes@) =~= root_sizes(g, r0));
    let p = root_order(&sizes, &roots);
    proof {
        let q = choose|q: Seq<usize>| is_root_order(root_sizes(g, r0), r0, q);
        lemma_root_order_unique(root_sizes(g, r0), r0, p@, q);
    }
    let mut out: Vec<String> = Vec::new();
    let mut out_sizes: Vec<usize> = Vec::new();
    let mut j: usize = 0;
    while j < p.len()
        invariant
            j <= p.len(),
            p.len() == roots.len(),
            sizes.len() == roots.len(),
            forall|t: int| 0 <= t < p.len() ==> p@[t] < roots.len(),
            r0 == strs(roots@),
            ints(sizes@) == root_sizes(g, r0),
            out.len() == j,
            out_sizes.len() == j,
            forall|t: int| 0 <= t < j ==> (#[trigger] out@[t])@ == r0[p@[t] as int],
            forall|t: int| 0 <= t < j ==> out_sizes@[t] == sizes@[p@[t] as int],
        decreases p.len() - j,
    {
        out.push(roots[p[j]].clone());
        out_sizes.push(sizes[p[j]]);
        j = j + 1;
    }
    let ghost sr = crate::layout::common::reorder(r0, p@);
    assert(strs(out@) =~= sr);
    assert(ints(out_sizes@) =~= root_sizes(g, sr));
    (out, out_sizes)
}

/// Position of `x` among `v`.
fn position_of(v: &Vec<String>, x: &str) -> (r: Option<usize>)
    ensures
        match r {
            Some(i) => i < v.len() && v@[i as int]@ == x@,
            None => !strs(v@).contains(x@),
        },
{
    let mut i: usize = 0;
    while i < v.len()
        invariant
            i <= v.len(),
            forall|k: int| 0 <= k < i ==> v@[k]@ != x@,
        decreases v.len() - i,
    {
        if str_eq(v[i].as_str(), x) {
            return Some(i);
        }
        i = i + 1;
    }
    assert(!strs(v@).contains(x@)) by {
        if strs(v@).contains(x@) {
            let k = choose|k: int| 0 <= k < strs(v@).len() && strs(v@)[k] == x@;
            assert(v@[k]@ == x@);
        }
    }
    None
}

fn yields_ex(genrep: &Genrep, roots: &Vec<String>, sizes: &Vec<usize>, r: &str, my_size: usize, fam_id: &str) -> (b: bool)
    requires
        sizes.len() == roots.len(),
        ints(sizes@) == root_sizes(genrep@, strs(roots@)),
        my_size == tree_size_v(genrep@, r@),
    ensures
        b == yields_to(genrep@, strs(roots@), r@, fam_id@),
{
    let fam = match genrep.get_family(fam_id) {
        Some(f) => f,
        None => {
            return false;
        },
    };
    if !fam.in_scope {
        return false;
    }
    let sp: Option<&String> = if opt_is(&fam.husband_id, r) {
        fam.wife_id.as_ref()
    } else {
        fam.husband_id.as_ref()
    };
    assert(opt_str_ref(sp) == tree_partner(fam@, r@));
    match sp {
        Some(x) => {
            match position_of(roots, x.as_str()) {
                Some(k) => {
                    assert(strs(roots@)[k as int] == x@);
                    assert(strs(roots@).contains(x@));
                    assert(ints(sizes@)[k as int] == sizes@[k as int] as int);
                    assert(root_sizes(genrep@, strs(roots@))[k as int] == tree_size_v(genrep@, x@));
                    let sp_size = sizes[k];
                    assert(sp_size == tree_size_v(genrep@, x@));
                    sp_size > my_size || (sp_size == my_size && str_lt(x.as_str(), r))
                },
                None => false,
            }
        },
        None => false,
    }
}

#[verifier::spinoff_prover]
#[verifier::rlimit(30)]
fn keeps_root_ex(genrep: &Genrep, roots: &Vec<String>, sizes: &Vec<usize>, k: usize) -> (b: bool)
    requires
        k < roots.len(),
        sizes.len() == roots.len(),
        ints(sizes@) == root_sizes(genrep@, strs(roots@)),
    ensures
        b == keeps_root(genrep@, strs(roots@), roots@[k as int]@),
{
    let r = &roots[k];
    let my_size = sizes[k];
    assert(ints(sizes@)[k as int] == sizes@[k as int] as int);
    assert(strs(roots@)[k as int] == r@);
    assert(root_sizes(genrep@, strs(roots@))[k as int] == tree_size_v(genrep@, r@));
    assert(my_size == tree_size_v(genrep@, r@));
    let indi = match genrep.get_individual(r.as_str()) {
        Some(i) => i,
        None => {
            return false;
        },
    };
    let mut j: usize = 0;
    while j < indi.fams.len()
        invariant
            j <= indi.fams.len(),
            sizes.len() == roots.len(),
            ints(sizes@) == root_sizes(genrep@, strs(roots@)),
            my_size == tree_size_v(genrep@, r@),
            r@ == roots@[k as int]@,
            lookup_ind(genrep@.individuals, r@) == Some(indi@),
            forall|q: int| 0 <= q < j ==> !yields_to(genrep@, strs(roots@), r@, #[trigger] indi@.fams[q]),
        decreases indi.fams.len() - j,
    {
        assert(indi@.fams[j as int] == indi.fams@[j as int]@);
        if yields_ex(genrep, roots, sizes, r.as_str(), my_size, indi.fams[j].as_str()) {
            return false;
        }
        j = j + 1;
    }
    true
}

#[verifier::spinoff_prover]
#[verifier::rlimit(40)]
fn tree_roots_ex(genrep: &Genrep) -> (r: Vec<String>)
    ensures
        strs(r@) == forest_tree_roots(genrep@),
{
    let (roots, sizes) = sorted_roots_ex(genrep);
    let ghost rs = strs(roots@);
    assert(ints(sizes@).len() == sizes.len());
    let mut out: Vec<String> = Vec::new();
    let mut k: usize = 0;
    assert(strs(out@) =~= seq![]);
    while k < roots.len()
        invariant
            k <= roots.len(),
            rs == strs(roots@),
            rs == sorted_roots(genrep@),
            sizes.len() == roots.len(),
            ints(sizes@) == root_sizes(genrep@, rs),
            strs(out@) == keep_roots(genrep@, rs, k as int),
        decreases roots.len() - k,
    {
        if keeps_root_ex(genrep, &roots, &sizes, k) {
            let ghost before = strs(out@);
            out.push(roots[k].clone());
            assert(strs(out@) =~= before.push(rs[k as int]));
        }
        k = k + 1;
    }
    out
}

// ── forest: trees in turn ────────────────────────────────────────────────────

pub open spec fn set_insert(s: Seq<Seq<char>>, x: Seq<char>) -> Seq<Seq<char>> {
    if s.contains(x) {
        s
    } else {
        s.push(x)
    }
}

/// Position of the first `##` at or after `i`, or -1.
pub open spec fn first_hash(k: Seq<char>, i: int) -> int
    decreases k.len() - i,
{
    if i < 0 || i + 1 >= k.len() {
        -1
    } else if k[i] == '#' && k[i + 1] == '#' {
        i
    } else {
        first_hash(k, i + 1)
    }
}

/// The individual's ID behind a placement key: the part before the first `##`.
pub open spec fn canonical(k: Seq<char>) -> Seq<char> {
    let i = first_hash(k, 0);
    if i < 0 {
        k
    } else {
        k.take(i)
    }
}

proof fn lemma_first_hash_range(k: Seq<char>, i: int)
    ensures
        first_hash(k, i) == -1 || (i <= first_hash(k, i) && first_hash(k, i) + 1 < k.len()),
    decreases k.len() - i,
{
    if !(i < 0 || i + 1 >= k.len()) && !(k[i] == '#' && k[i + 1] == '#') {
        lemma_first_hash_range(k, i + 1);
    }
}

/// The ID behind a placement key.
pub fn canonical_of(k: &str) -> (r: String)
    ensures
        r@ == canonical(k@),
{
    let c = chars_of(k);
    let mut i: usize = 0;
    while i < c.len() && i + 1 < c.len()
        invariant
            c@ == k@,
            first_hash(k@, 0) == first_hash(k@, i as int),
        decreases c.len() - i,
    {
        if c[i] == '#' && c[i + 1] == '#' {
            assert(first_hash(k@, i as int) == i);
            let v = crate::text::slice_of(&c, 0, i);
            assert(v@ =~= k@.take(i as int));
            return string_of(&v);
        }
        i = i + 1;
    }
    assert(first_hash(k@, i as int) == -1);
    string_of(&c)
}

/// The trees shown so far record who appeared: as a non-spouse, or as a spouse.
pub open spec fn mark_entry(acc: (Seq<Seq<char>>, Seq<Seq<char>>), e: (Seq<char>, SimpleGeoV)) -> (
    Seq<Seq<char>>,
    Seq<Seq<char>>,
) {
    if e.1.is_ellipsis {
        acc
    } else if e.1.is_spouse {
        (acc.0, set_insert(acc.1, canonical(e.0)))
    } else {
        (set_insert(acc.0, canonical(e.0)), acc.1)
    }
}

pub open spec fn mark_all(acc: (Seq<Seq<char>>, Seq<Seq<char>>), es: Seq<(Seq<char>, SimpleGeoV)>) -> (
    Seq<Seq<char>>,
    Seq<Seq<char>>,
)
    decreases es.len(),
{
    if es.len() == 0 {
        acc
    } else {
        mark_entry(mark_all(acc, es.drop_last()), es.last())
    }
}

/// The last line used by a set of placements (0 when there is none).
pub open spec fn max_line(es: Seq<(Seq<char>, SimpleGeoV)>) -> int
    decreases es.len(),
{
    if es.len() == 0 {
        0
    } else {
        let m = max_line(es.drop_last());
        if es.last().1.line > m {
            es.last().1.line
        } else {
            m
        }
    }
}

/// The key of the `n`-th placement of `id` in the forest: `id`, then `id##1`, `id##2`, …
pub open spec fn inst_key(id: Seq<char>, n: int) -> Seq<char> {
    if n == 0 {
        id
    } else {
        id + seq!['#', '#'] + decimal(n as nat)
    }
}

/// One placement of a tree moved down by `next` lines into the forest, under its instance key.
pub open spec fn place_entry(
    acc: (Seq<(Seq<char>, SimpleGeoV)>, Seq<(Seq<char>, int)>, bool),
    e: (Seq<char>, SimpleGeoV),
    next: int,
) -> (Seq<(Seq<char>, SimpleGeoV)>, Seq<(Seq<char>, int)>, bool) {
    let n = match kv_get(acc.1, e.0) {
        Some(c) => c,
        None => 0,
    };
    (
        kv_put(acc.0, inst_key(e.0, n), SimpleGeoV { line: e.1.line + next, ..e.1 }),
        kv_put(acc.1, e.0, n + 1),
        acc.2 && n + 1 <= usize::MAX,
    )
}

pub open spec fn place_all(
    acc: (Seq<(Seq<char>, SimpleGeoV)>, Seq<(Seq<char>, int)>, bool),
    es: Seq<(Seq<char>, SimpleGeoV)>,
    next: int,
) -> (Seq<(Seq<char>, SimpleGeoV)>, Seq<(Seq<char>, int)>, bool)
    decreases es.len(),
{
    if es.len() == 0 {
        acc
    } else {
        place_entry(place_all(acc, es.drop_last(), next), es.last(), next)
    }
}

/// Every family of the individual in scope has no children or only children already shown.
pub open spec fn fam_children_shown(g: GenrepV<()>, shown: Seq<Seq<char>>, fam_id: Seq<char>) -> bool {
    match lookup_fam(g.families, fam_id) {
        Some(f) => f.in_scope ==> (f.children_ids.len() == 0 || forall|k: int|
            0 <= k < f.children_ids.len() ==> shown.contains(#[trigger] f.children_ids[k])),
        None => true,
    }
}

/// A root whose tree would repeat what is shown: it has families in scope, and all their
/// children are already shown.
pub open spec fn redundant_tree(g: GenrepV<()>, shown: Seq<Seq<char>>, r: Seq<char>) -> bool {
    match lookup_ind(g.individuals, r) {
        Some(indi) => (exists|j: int| 0 <= j < indi.fams.len() && fam_in_scope(g, #[trigger] indi.fams[j]))
            && forall|j: int| 0 <= j < indi.fams.len() ==> fam_children_shown(g, shown, #[trigger] indi.fams[j]),
        None => false,
    }
}

/// The state between trees: next free line, placements per ID, who was shown (as
/// non-spouse and as spouse), ellipses so far, forest placements, and whether every
/// count so far fits in `usize`.
pub struct ForestV {
    pub next_line: int,
    pub counts: Seq<(Seq<char>, int)>,
    pub shown: Seq<Seq<char>>,
    pub spouses: Seq<Seq<char>>,
    pub ell: int,
    pub geo: Seq<(Seq<char>, SimpleGeoV)>,
    pub ok: bool,
}

pub open spec fn forest_start() -> ForestV {
    ForestV { next_line: 0, counts: seq![], shown: seq![], spouses: seq![], ell: 0, geo: seq![], ok: true }
}

/// The gap between trees, in lines.
pub open spec fn tree_gap() -> int {
    3
}

#[verifier::opaque]
pub open spec fn forest_step(g: GenrepV<()>, step: int, lgs: bool, st: ForestV, r: Seq<char>) -> ForestV {
    if lgs && st.spouses.contains(r) && redundant_tree(g, st.shown, r) {
        st
    } else {
        let w = desc_walk(SimpleCtx { g, step, shown: st.shown }, r, st.ell);
        let ok1 = st.ok && fits(w);
        if w.geo.len() == 0 {
            ForestV { ell: w.ell, ok: ok1, ..st }
        } else {
            let marks = mark_all((st.shown, st.spouses), w.geo);
            let pl = place_all((st.geo, st.counts, ok1), w.geo, st.next_line);
            let next = st.next_line + max_line(w.geo) + 1 + tree_gap();
            ForestV {
                next_line: next,
                counts: pl.1,
                shown: marks.0,
                spouses: marks.1,
                ell: w.ell,
                geo: pl.0,
                ok: pl.2 && next <= usize::MAX,
            }
        }
    }
}

pub open spec fn forest_fold(g: GenrepV<()>, step: int, lgs: bool, roots: Seq<Seq<char>>) -> ForestV
    decreases roots.len(),
{
    if roots.len() == 0 {
        forest_start()
    } else {
        forest_step(g, step, lgs, forest_fold(g, step, lgs, roots.drop_last()), roots.last())
    }
}

/// The forest: one tree per root that starts one, in order.
pub open spec fn forest_v(g: GenrepV<()>, step: int, lgs: bool) -> ForestV {
    forest_fold(g, step, lgs, forest_tree_roots(g))
}

proof fn lemma_place_ok(
    acc: (Seq<(Seq<char>, SimpleGeoV)>, Seq<(Seq<char>, int)>, bool),
    es: Seq<(Seq<char>, SimpleGeoV)>,
    next: int,
)
    ensures
        place_all(acc, es, next).2 ==> acc.2,
    decreases es.len(),
{
    if es.len() > 0 {
        lemma_place_ok(acc, es.drop_last(), next);
    }
}

#[verifier::spinoff_prover]
#[verifier::rlimit(30)]
proof fn lemma_forest_ok(g: GenrepV<()>, step: int, lgs: bool, roots: Seq<Seq<char>>, k: int)
    requires
        0 <= k <= roots.len(),
        forest_fold(g, step, lgs, roots).ok,
    ensures
        forest_fold(g, step, lgs, roots.take(k)).ok,
    decreases roots.len() - k,
{
    reveal(forest_step);
    if k < roots.len() {
        let pre = roots.take(k + 1);
        lemma_forest_ok(g, step, lgs, roots, k + 1);
        assert(pre.drop_last() =~= roots.take(k));
        if k + 1 == roots.len() {
            assert(pre =~= roots);
        }
        let st = forest_fold(g, step, lgs, roots.take(k));
        if !(lgs && st.spouses.contains(pre.last()) && redundant_tree(g, st.shown, pre.last())) {
            let w = desc_walk(SimpleCtx { g, step, shown: st.shown }, pre.last(), st.ell);
            if w.geo.len() > 0 {
                lemma_place_ok((st.geo, st.counts, st.ok && fits(w)), w.geo, st.next_line);
            }
        }
    } else {
        assert(roots.take(k) =~= roots);
    }
}

proof fn lemma_max_line(es: Seq<(Seq<char>, SimpleGeoV)>, i: int)
    requires
        0 <= i < es.len(),
    ensures
        es[i].1.line <= max_line(es),
    decreases es.len(),
{
    if i < es.len() - 1 {
        lemma_max_line(es.drop_last(), i);
    }
}

proof fn lemma_max_line_nonneg(es: Seq<(Seq<char>, SimpleGeoV)>)
    ensures
        max_line(es) >= 0,
    decreases es.len(),
{
    if es.len() > 0 {
        lemma_max_line_nonneg(es.drop_last());
    }
}

proof fn lemma_place_prefix_ok(
    acc: (Seq<(Seq<char>, SimpleGeoV)>, Seq<(Seq<char>, int)>, bool),
    es: Seq<(Seq<char>, SimpleGeoV)>,
    next: int,
    k: int,
)
    requires
        0 <= k <= es.len(),
        place_all(acc, es, next).2,
    ensures
        place_all(acc, es.take(k), next).2,
    decreases es.len() - k,
{
    if k < es.len() {
        lemma_place_prefix_ok(acc, es, next, k + 1);
        assert(es.take(k + 1).drop_last() =~= es.take(k));
        if k + 1 == es.len() {
            assert(es.take(k + 1) =~= es);
        }
    } else {
        assert(es.take(k) =~= es);
    }
}

struct ForestState {
    next_line: usize,
    counts: Vec<(String, usize)>,
    shown: Vec<String>,
    spouses: Vec<String>,
    ell: usize,
    geo: Vec<(String, SimpleGeo)>,
}

impl View for ForestState {
    type V = ForestV;

    closed spec fn view(&self) -> ForestV {
        ForestV {
            next_line: self.next_line as int,
            counts: lines_view(self.counts@),
            shown: strs(self.shown@),
            spouses: strs(self.spouses@),
            ell: self.ell as int,
            geo: geo_view(self.geo@),
            ok: true,
        }
    }
}

fn set_insert_ex(v: &mut Vec<String>, x: String)
    ensures
        strs(final(v)@) == set_insert(strs(old(v)@), x@),
{
    let xc = chars_of(x.as_str());
    if !contains_chars(v, &xc) {
        let ghost before = strs(v@);
        let ghost xv = x@;
        v.push(x);
        assert(strs(v@) =~= before.push(xv));
    }
}

fn mark_ex(shown: &mut Vec<String>, spouses: &mut Vec<String>, es: &Vec<(String, SimpleGeo)>)
    ensures
        (strs(final(shown)@), strs(final(spouses)@)) == mark_all(
            (strs(old(shown)@), strs(old(spouses)@)),
            geo_view(es@),
        ),
{
    let ghost acc0 = (strs(shown@), strs(spouses@));
    let ghost ev = geo_view(es@);
    let mut i: usize = 0;
    assert(ev.take(0) =~= seq![]);
    while i < es.len()
        invariant
            i <= es.len(),
            ev == geo_view(es@),
            (strs(shown@), strs(spouses@)) == mark_all(acc0, ev.take(i as int)),
        decreases es.len() - i,
    {
        assert(ev.take(i + 1).drop_last() =~= ev.take(i as int));
        assert(ev.take(i + 1).last() == (es@[i as int].0@, es@[i as int].1@));
        let e = &es[i];
        if !e.1.is_ellipsis {
            let c = canonical_of(e.0.as_str());
            if e.1.is_spouse {
                set_insert_ex(spouses, c);
            } else {
                set_insert_ex(shown, c);
            }
        }
        i = i + 1;
    }
    assert(ev.take(es.len() as int) =~= ev);
}

fn max_line_ex(es: &Vec<(String, SimpleGeo)>) -> (r: usize)
    ensures
        r == max_line(geo_view(es@)),
{
    let ghost ev = geo_view(es@);
    let mut m: usize = 0;
    let mut i: usize = 0;
    assert(ev.take(0) =~= seq![]);
    while i < es.len()
        invariant
            i <= es.len(),
            ev == geo_view(es@),
            m == max_line(ev.take(i as int)),
        decreases es.len() - i,
    {
        assert(ev.take(i + 1).drop_last() =~= ev.take(i as int));
        assert(ev.take(i + 1).last().1.line == es@[i as int].1.line);
        if es[i].1.line > m {
            m = es[i].1.line;
        }
        i = i + 1;
    }
    assert(ev.take(es.len() as int) =~= ev);
    m
}

pub(crate) fn inst_key_ex(id: &String, n: usize) -> (r: String)
    ensures
        r@ == inst_key(id@, n as int),
{
    if n == 0 {
        return id.clone();
    }
    let mut v = chars_of(id.as_str());
    let ghost base = v@;
    v.push('#');
    v.push('#');
    let d = decimal_of(n);
    let ghost pre = v@;
    let mut i: usize = 0;
    while i < d.len()
        invariant
            i <= d.len(),
            v@ == pre + d@.take(i as int),
        decreases d.len() - i,
    {
        v.push(d[i]);
        i = i + 1;
        assert(v@ =~= pre + d@.take(i as int));
    }
    assert(d@.take(d.len() as int) =~= d@);
    assert(v@ =~= base + seq!['#', '#'] + decimal(n as nat));
    string_of(&v)
}

fn place_ex(
    geo: &mut Vec<(String, SimpleGeo)>,
    counts: &mut Vec<(String, usize)>,
    es: Vec<(String, SimpleGeo)>,
    next: usize,
) -> (ok: bool)
    requires
        forall|i: int| 0 <= i < es.len() ==> es@[i].1.line + next <= usize::MAX,
    ensures
        ok == place_all((geo_view(old(geo)@), lines_view(old(counts)@), true), geo_view(es@), next as int).2,
        ok ==> (geo_view(final(geo)@), lines_view(final(counts)@), true) == place_all(
            (geo_view(old(geo)@), lines_view(old(counts)@), true),
            geo_view(es@),
            next as int,
        ),
{
    let ghost acc0 = (geo_view(geo@), lines_view(counts@), true);
    let ghost all = geo_view(es@);
    let ghost n0 = es.len();
    let mut rest = es;
    let ghost mut k: int = 0;
    assert(all.take(0) =~= seq![]);
    assert(all.skip(0) =~= all);
    while rest.len() > 0
        invariant
            0 <= k <= all.len(),
            all.len() == n0,
            geo_view(rest@) == all.skip(k),
            acc0 == (geo_view(old(geo)@), lines_view(old(counts)@), true),
            all == geo_view(es@),
            (geo_view(geo@), lines_view(counts@), true) == place_all(acc0, all.take(k), next as int),
            forall|i: int| 0 <= i < rest.len() ==> rest@[i].1.line + next <= usize::MAX,
        decreases rest.len(),
    {
        let ghost before = rest@;
        assert(geo_view(rest@).len() == rest.len());
        let (id, mut g) = rest.remove(0);
        proof {
            assert(geo_view(rest@) =~= geo_view(before).drop_first());
            assert(geo_view(before)[0] == (id@, g@));
            assert(all.skip(k).drop_first() =~= all.skip(k + 1));
            assert(all.take(k + 1).drop_last() =~= all.take(k));
            assert(all.take(k + 1).last() == all.skip(k)[0]);
            assert forall|i: int| 0 <= i < rest.len() implies rest@[i].1.line + next <= usize::MAX by {
                assert(rest@[i] == before[i + 1]);
            }
        }
        let n = match line_get(counts, id.as_str()) {
            Some(c) => c,
            None => 0,
        };
        if n == usize::MAX {
            proof {
                assert(all.take(k + 1).last() == (id@, g@));
                assert(kv_get(place_all(acc0, all.take(k), next as int).1, id@) == Some(n as int));
                assert(!place_all(acc0, all.take(k + 1), next as int).2);
                if place_all(acc0, all, next as int).2 {
                    lemma_place_prefix_ok(acc0, all, next as int, k + 1);
                }
            }
            return false;
        }
        let key = inst_key_ex(&id, n);
        line_put(counts, id, n + 1);
        g.line = g.line + next;
        geo_put(geo, key, g);
        proof {
            k = k + 1;
        }
    }
    assert(all.take(k) =~= all);
    true
}

fn forest_step_ex(st: &mut ForestState, r: &String, genrep: &Genrep, step: usize, lgs: bool) -> (ok: bool)
    requires
        step >= 1,
        genrep.individuals.len() + 3 <= usize::MAX,
    ensures
        ok == forest_step(genrep@, step as int, lgs, old(st)@, r@).ok,
        ok ==> final(st)@ == forest_step(genrep@, step as int, lgs, old(st)@, r@),
{
    reveal(forest_step);
    let ghost g = genrep@;
    let ghost st0 = st@;
    if lgs && contains_chars(&st.spouses, &chars_of(r.as_str())) && redundant_ex(genrep, &st.shown, r.as_str()) {
        return true;
    }
    let ghost w = desc_walk(SimpleCtx { g, step: step as int, shown: st0.shown }, r@, st0.ell);
    assert(ctx_of(g, step, st.shown@) == SimpleCtx { g, step: step as int, shown: st0.shown });
    proof {
        if w.geo.len() > 0 {
            lemma_place_ok((st0.geo, st0.counts, st0.ok && fits(w)), w.geo, st0.next_line);
        }
    }
    let tree = match walk_tree(r.as_str(), step, &st.shown, st.ell, genrep) {
        Some(t) => t,
        None => {
            return false;
        },
    };
    st.ell = tree.ell;
    if tree.geo.len() == 0 {
        assert(geo_view(tree.geo@).len() == 0);
        return true;
    }
    let VisitState { geo: tree_geo, .. } = tree;
    assert(geo_view(tree_geo@) == w.geo);
    mark_ex(&mut st.shown, &mut st.spouses, &tree_geo);
    let tmax = max_line_ex(&tree_geo);
    if st.next_line > usize::MAX - tmax || st.next_line + tmax > usize::MAX - 4 {
        return false;
    }
    proof {
        lemma_max_line_nonneg(w.geo);
        assert forall|i: int| 0 <= i < tree_geo.len() implies tree_geo@[i].1.line + st0.next_line <= usize::MAX by {
            assert(geo_view(tree_geo@)[i].1.line == tree_geo@[i].1.line);
            lemma_max_line(w.geo, i);
        }
    }
    if !place_ex(&mut st.geo, &mut st.counts, tree_geo, st.next_line) {
        return false;
    }
    st.next_line = st.next_line + tmax + 1 + 3;
    true
}

fn fam_children_shown_ex(genrep: &Genrep, shown: &Vec<String>, fam_id: &str) -> (r: bool)
    ensures
        r == fam_children_shown(genrep@, strs(shown@), fam_id@),
{
    match genrep.get_family(fam_id) {
        Some(f) => {
            if !f.in_scope {
                return true;
            }
            if f.children_ids.len() == 0 {
                return true;
            }
            let mut k: usize = 0;
            while k < f.children_ids.len()
                invariant
                    k <= f.children_ids.len(),
                    lookup_fam(genrep@.families, fam_id@) == Some(f@),
                    f.in_scope,
                    f.children_ids.len() > 0,
                    forall|q: int| 0 <= q < k ==> strs(shown@).contains(#[trigger] f@.children_ids[q]),
                decreases f.children_ids.len() - k,
            {
                assert(f@.children_ids[k as int] == f.children_ids@[k as int]@);
                if !contains_chars(shown, &chars_of(f.children_ids[k].as_str())) {
                    return false;
                }
                k = k + 1;
            }
            true
        },
        None => true,
    }
}

#[verifier::spinoff_prover]
#[verifier::rlimit(30)]
fn any_fam_in_scope(genrep: &Genrep, fams: &Vec<String>) -> (r: bool)
    ensures
        r == (exists|q: int| 0 <= q < fams.len() && fam_in_scope(genrep@, #[trigger] strs(fams@)[q])),
{
    let mut j: usize = 0;
    while j < fams.len()
        invariant
            j <= fams.len(),
            forall|q: int| 0 <= q < j ==> !fam_in_scope(genrep@, #[trigger] strs(fams@)[q]),
        decreases fams.len() - j,
    {
        assert(strs(fams@)[j as int] == fams@[j as int]@);
        let in_scope = match genrep.get_family(fams[j].as_str()) {
            Some(f) => f.in_scope,
            None => false,
        };
        if in_scope {
            return true;
        }
        j = j + 1;
    }
    false
}

#[verifier::spinoff_prover]
fn all_children_shown_ex(genrep: &Genrep, shown: &Vec<String>, fams: &Vec<String>) -> (r: bool)
    ensures
        r == (forall|q: int| 0 <= q < fams.len() ==> fam_children_shown(genrep@, strs(shown@), #[trigger] strs(fams@)[q])),
{
    let mut j: usize = 0;
    while j < fams.len()
        invariant
            j <= fams.len(),
            forall|q: int| 0 <= q < j ==> fam_children_shown(genrep@, strs(shown@), #[trigger] strs(fams@)[q]),
        decreases fams.len() - j,
    {
        assert(strs(fams@)[j as int] == fams@[j as int]@);
        if !fam_children_shown_ex(genrep, shown, fams[j].as_str()) {
            return false;
        }
        j = j + 1;
    }
    true
}

fn redundant_ex(genrep: &Genrep, shown: &Vec<String>, r: &str) -> (b: bool)
    ensures
        b == redundant_tree(genrep@, strs(shown@), r@),
{
    let indi = match genrep.get_individual(r) {
        Some(i) => i,
        None => {
            return false;
        },
    };
    let a = any_fam_in_scope(genrep, &indi.fams);
    let c = all_children_shown_ex(genrep, shown, &indi.fams);
    a && c
}

fn forest_ex(genrep: &Genrep, step: usize, lgs: bool) -> (r: Option<Vec<(String, SimpleGeo)>>)
    requires
        step >= 1,
        genrep.individuals.len() + 3 <= usize::MAX,
    ensures
        r is Some <==> forest_v(genrep@, step as int, lgs).ok,
        r matches Some(v) ==> geo_view(v@) == forest_v(genrep@, step as int, lgs).geo,
{
    let ghost g = genrep@;
    let roots = tree_roots_ex(genrep);
    let ghost rs = strs(roots@);
    let mut st = ForestState {
        next_line: 0,
        counts: Vec::new(),
        shown: Vec::new(),
        spouses: Vec::new(),
        ell: 0,
        geo: Vec::new(),
    };
    assert(st@ == forest_fold(g, step as int, lgs, rs.take(0))) by {
        assert(rs.take(0) =~= seq![]);
        assert(lines_view(st.counts@) =~= seq![]);
        assert(strs(st.shown@) =~= seq![]);
        assert(strs(st.spouses@) =~= seq![]);
        assert(geo_view(st.geo@) =~= seq![]);
    }
    let mut k: usize = 0;
    while k < roots.len()
        invariant
            k <= roots.len(),
            g == genrep@,
            rs == strs(roots@),
            rs == forest_tree_roots(g),
            step >= 1,
            genrep.individuals.len() + 3 <= usize::MAX,
            st@ == forest_fold(g, step as int, lgs, rs.take(k as int)),
        decreases roots.len() - k,
    {
        proof {
            assert(rs.take(k + 1).drop_last() =~= rs.take(k as int));
            assert(rs.take(k + 1).last() == roots@[k as int]@);
        }
        if !forest_step_ex(&mut st, &roots[k], genrep, step, lgs) {
            proof {
                if forest_fold(g, step as int, lgs, rs).ok {
                    lemma_forest_ok(g, step as int, lgs, rs, k + 1);
                }
            }
            return None;
        }
        k = k + 1;
    }
    assert(rs.take(roots.len() as int) =~= rs);
    Some(st.geo)
}

// ── last-generation spouses ──────────────────────────────────────────────────

/// The deepest generation placed as a non-spouse, non-ellipsis (0 when none).
pub open spec fn max_gen(es: Seq<(Seq<char>, SimpleGeoV)>) -> int
    decreases es.len(),
{
    if es.len() == 0 {
        0
    } else {
        let m = max_gen(es.drop_last());
        let e = es.last().1;
        if !e.is_spouse && !e.is_ellipsis && e.generation > m {
            e.generation
        } else {
            m
        }
    }
}

/// The placements without the spouses of generation `gen`.
pub open spec fn drop_spouses(es: Seq<(Seq<char>, SimpleGeoV)>, gen: int) -> Seq<(Seq<char>, SimpleGeoV)>
    decreases es.len(),
{
    if es.len() == 0 {
        seq![]
    } else {
        let r = drop_spouses(es.drop_last(), gen);
        if es.last().1.is_spouse && es.last().1.generation == gen {
            r
        } else {
            r.push(es.last())
        }
    }
}

fn max_gen_ex(es: &Vec<(String, SimpleGeo)>) -> (r: usize)
    ensures
        r == max_gen(geo_view(es@)),
{
    let ghost ev = geo_view(es@);
    let mut m: usize = 0;
    let mut i: usize = 0;
    assert(ev.take(0) =~= seq![]);
    while i < es.len()
        invariant
            i <= es.len(),
            ev == geo_view(es@),
            m == max_gen(ev.take(i as int)),
        decreases es.len() - i,
    {
        assert(ev.take(i + 1).drop_last() =~= ev.take(i as int));
        assert(ev.take(i + 1).last().1 == es@[i as int].1@);
        let e = &es[i].1;
        if !e.is_spouse && !e.is_ellipsis && e.generation > m {
            m = e.generation;
        }
        i = i + 1;
    }
    assert(ev.take(es.len() as int) =~= ev);
    m
}

fn drop_spouses_ex(es: Vec<(String, SimpleGeo)>, gen: usize) -> (r: Vec<(String, SimpleGeo)>)
    ensures
        geo_view(r@) == drop_spouses(geo_view(es@), gen as int),
{
    let ghost all = geo_view(es@);
    let mut rest = es;
    let mut out: Vec<(String, SimpleGeo)> = Vec::new();
    let ghost mut k: int = 0;
    assert(all.take(0) =~= seq![]);
    assert(all.skip(0) =~= all);
    assert(geo_view(out@) =~= seq![]);
    while rest.len() > 0
        invariant
            0 <= k <= all.len(),
            geo_view(rest@) == all.skip(k),
            geo_view(out@) == drop_spouses(all.take(k), gen as int),
        decreases rest.len(),
    {
        let ghost before = rest@;
        assert(geo_view(rest@).len() == rest.len());
        let e = rest.remove(0);
        proof {
            assert(geo_view(rest@) =~= geo_view(before).drop_first());
            assert(geo_view(before)[0] == (e.0@, e.1@));
            assert(all.skip(k).drop_first() =~= all.skip(k + 1));
            assert(all.take(k + 1).drop_last() =~= all.take(k));
            assert(all.take(k + 1).last() == all.skip(k)[0]);
        }
        if !(e.1.is_spouse && e.1.generation == gen) {
            let ghost ov = geo_view(out@);
            let ghost ev = (e.0@, e.1@);
            out.push(e);
            assert(geo_view(out@) =~= ov.push(ev));
        }
        proof {
            k = k + 1;
        }
    }
    assert(all.take(k) =~= all);
    out
}

// ── the layout ───────────────────────────────────────────────────────────────

/// A diagnostic of the simple layout.
pub enum LayoutWarning {
    /// The requested root is not in the genealogy; the first individual is used instead.
    RootNotFound(String),
    /// The direction matches none of descendants, ancestors, pedigree and forest;
    /// descendants are laid out instead.
    UnknownDirection(String),
}

pub enum LayoutWarningV {
    RootNotFound(Seq<char>),
    UnknownDirection(Seq<char>),
}

impl View for LayoutWarning {
    type V = LayoutWarningV;

    open spec fn view(&self) -> LayoutWarningV {
        match self {
            LayoutWarning::RootNotFound(s) => LayoutWarningV::RootNotFound(s@),
            LayoutWarning::UnknownDirection(s) => LayoutWarningV::UnknownDirection(s@),
        }
    }
}

pub open spec fn layout_warnings_view(v: Seq<LayoutWarning>) -> Seq<LayoutWarningV> {
    v.map_values(|w: LayoutWarning| w@)
}

/// The chart's root: the trimmed preference when it names an individual, otherwise the
/// first individual parsed.
pub open spec fn resolved_root(g: GenrepV<()>, pref: Seq<char>) -> Option<Seq<char>> {
    let r = crate::text::trim(pref);
    if r.len() > 0 && lookup_ind(g.individuals, r) is Some {
        Some(r)
    } else {
        g.first_individual_id
    }
}

pub open spec fn root_missing(g: GenrepV<()>, pref: Seq<char>) -> bool {
    let r = crate::text::trim(pref);
    r.len() > 0 && lookup_ind(g.individuals, r) is None
}

/// Resolve the root individual ID from preferences, with fallback.
///
/// Validates the root ID against the genrep and reports when it is not found,
/// falling back to the first individual encountered during parsing.
pub fn resolve_root_id(genrep: &Genrep, root_pref: &str) -> (r: (Option<String>, Option<LayoutWarning>))
    ensures
        opt_str(r.0) == resolved_root(genrep@, root_pref@),
        match r.1 {
            Some(w) => root_missing(genrep@, root_pref@) && w@ == LayoutWarningV::RootNotFound(
                crate::text::trim(root_pref@),
            ),
            None => !root_missing(genrep@, root_pref@),
        },
{
    let t = crate::text::trim_of(&chars_of(root_pref));
    let first = match &genrep.first_individual_id {
        Some(f) => Some(f.clone()),
        None => None,
    };
    if t.len() > 0 {
        let r = string_of(&t);
        if genrep.get_individual(r.as_str()).is_some() {
            (Some(r), None)
        } else {
            (first, Some(LayoutWarning::RootNotFound(r)))
        }
    } else {
        (first, None)
    }
}

/// Which layout a direction asks for.
pub enum SimpleMode {
    Descendants,
    Ancestors,
    Forest,
    Unknown,
}

pub open spec fn simple_mode(d: Seq<char>) -> SimpleMode {
    if crate::util::spec_matches_direction(d, seq!['d', 'e', 's', 'c', 'e', 'n', 'd', 'a', 'n', 't', 's']) {
        SimpleMode::Descendants
    } else if crate::util::spec_matches_direction(d, seq!['a', 'n', 'c', 'e', 's', 't', 'o', 'r', 's'])
        || crate::util::spec_matches_direction(d, seq!['p', 'e', 'd', 'i', 'g', 'r', 'e', 'e']) {
        SimpleMode::Ancestors
    } else if crate::util::spec_matches_direction(d, seq!['f', 'o', 'r', 'e', 's', 't']) {
        SimpleMode::Forest
    } else {
        SimpleMode::Unknown
    }
}

fn simple_mode_ex(d: &str) -> (m: SimpleMode)
    ensures
        m == simple_mode(d@),
{
    let v = chars_of(d);
    if crate::util::matches_prefix(&v, &['d', 'e', 's', 'c', 'e', 'n', 'd', 'a', 'n', 't', 's']) {
        SimpleMode::Descendants
    } else if crate::util::matches_prefix(&v, &['a', 'n', 'c', 'e', 's', 't', 'o', 'r', 's'])
        || crate::util::matches_prefix(&v, &['p', 'e', 'd', 'i', 'g', 'r', 'e', 'e']) {
        SimpleMode::Ancestors
    } else if crate::util::matches_prefix(&v, &['f', 'o', 'r', 'e', 's', 't']) {
        SimpleMode::Forest
    } else {
        SimpleMode::Unknown
    }
}

/// The placements of the simple layout, before the last generation's spouses are dropped.
pub open spec fn raw_geo(g: GenrepV<()>, dir: Seq<char>, root_pref: Seq<char>, step: int, lgs: bool) -> Seq<
    (Seq<char>, SimpleGeoV),
> {
    match simple_mode(dir) {
        SimpleMode::Ancestors => match resolved_root(g, root_pref) {
            Some(r) => anc_geo(g, r, step),
            None => seq![],
        },
        SimpleMode::Forest => forest_v(g, step, lgs).geo,
        _ => match resolved_root(g, root_pref) {
            Some(r) => desc_geo(g, r, step),
            None => seq![],
        },
    }
}

/// The placements of the simple layout: without `last_gen_spouses`, the spouses in the
/// deepest non-spouse generation are dropped.
pub open spec fn simple_geo(g: GenrepV<()>, dir: Seq<char>, root_pref: Seq<char>, step: int, lgs: bool) -> Seq<
    (Seq<char>, SimpleGeoV),
> {
    let raw = raw_geo(g, dir, root_pref, step, lgs);
    if lgs {
        raw
    } else {
        drop_spouses(raw, max_gen(raw))
    }
}

/// The simple layout's counters fit in `usize` on this genealogy (otherwise the line
/// arithmetic would overflow).
pub open spec fn simple_fits(g: GenrepV<()>, dir: Seq<char>, root_pref: Seq<char>, step: int, lgs: bool) -> bool {
    &&& g.individuals.len() + 3 <= usize::MAX
    &&& match simple_mode(dir) {
        SimpleMode::Ancestors => match resolved_root(g, root_pref) {
            Some(r) => (anc_order(g, r).len() - 1) * step < usize::MAX,
            None => true,
        },
        SimpleMode::Forest => forest_v(g, step, lgs).ok,
        _ => match resolved_root(g, root_pref) {
            Some(r) => fits(desc_walk(SimpleCtx { g, step, shown: seq![] }, r, 0)),
            None => true,
        },
    }
}

pub open spec fn simple_warnings(g: GenrepV<()>, dir: Seq<char>, root_pref: Seq<char>) -> Seq<LayoutWarningV> {
    let unknown: Seq<LayoutWarningV> = if simple_mode(dir) is Unknown {
        seq![LayoutWarningV::UnknownDirection(dir)]
    } else {
        seq![]
    };
    if !(simple_mode(dir) is Forest) && root_missing(g, root_pref) {
        unknown.push(LayoutWarningV::RootNotFound(crate::text::trim(root_pref)))
    } else {
        unknown
    }
}

pub open spec fn geo_opt(o: Option<SimpleGeo>) -> Option<SimpleGeoV> {
    match o {
        Some(g) => Some(g@),
        None => None,
    }
}

/// Individuals of a layout, with their geometry seen through its view.
pub open spec fn placed_inds(v: Seq<Individual<SimpleGeo>>) -> Seq<IndividualV<SimpleGeoV>> {
    v.map_values(|x: Individual<SimpleGeo>| crate::layout::common::with_geo_ind(x@, geo_opt(x.geo)))
}

pub open spec fn placed_fams(v: Seq<crate::genrep::Family<SimpleGeo>>) -> Seq<FamilyV<SimpleGeoV>> {
    v.map_values(|x: crate::genrep::Family<SimpleGeo>| crate::layout::common::with_geo_fam(x@, geo_opt(x.geo)))
}

/// The placeholder record drawn as `...`.
pub open spec fn ellipsis_ind(key: Seq<char>, geo: SimpleGeoV) -> IndividualV<SimpleGeoV> {
    IndividualV {
        id: key,
        given: None,
        surname: None,
        sex: None,
        birth: None,
        death: None,
        fams: seq![],
        famc: seq![],
        alt_name: None,
        name_heb: None,
        living: None,
        notes: seq![],
        in_scope: true,
        geo: Some(geo),
    }
}

/// One placement turned into an output record, stored under the placement key.
#[verifier::opaque]
pub open spec fn out_entry(g: GenrepV<()>, acc: Seq<IndividualV<SimpleGeoV>>, e: (Seq<char>, SimpleGeoV)) -> Seq<
    IndividualV<SimpleGeoV>,
> {
    if e.1.is_ellipsis {
        crate::genrep::put_ind(acc, ellipsis_ind(e.0, e.1))
    } else {
        match lookup_ind(g.individuals, canonical(e.0)) {
            Some(x) => crate::genrep::put_ind(
                acc,
                IndividualV { id: e.0, ..crate::layout::common::with_geo_ind(x, Some(e.1)) },
            ),
            None => acc,
        }
    }
}

pub open spec fn out_placed(g: GenrepV<()>, es: Seq<(Seq<char>, SimpleGeoV)>) -> Seq<IndividualV<SimpleGeoV>>
    decreases es.len(),
{
    if es.len() == 0 {
        seq![]
    } else {
        out_entry(g, out_placed(g, es.drop_last()), es.last())
    }
}

#[verifier::opaque]
pub open spec fn out_rest_step(
    g: GenrepV<()>,
    placed: Seq<Seq<char>>,
    r: Seq<IndividualV<SimpleGeoV>>,
    i: int,
) -> Seq<IndividualV<SimpleGeoV>> {
    let x = g.individuals[i];
    if crate::genrep::ind_index(g.individuals, x.id) == i && !placed.contains(x.id) {
        crate::genrep::put_ind(r, crate::layout::common::with_geo_ind(x, None))
    } else {
        r
    }
}

/// Individuals that are not placed are kept, without geometry.
pub open spec fn out_rest(
    g: GenrepV<()>,
    placed: Seq<Seq<char>>,
    acc: Seq<IndividualV<SimpleGeoV>>,
    n: int,
) -> Seq<IndividualV<SimpleGeoV>>
    decreases n,
{
    if n <= 0 {
        acc
    } else {
        out_rest_step(g, placed, out_rest(g, placed, acc, n - 1), n - 1)
    }
}

pub open spec fn canonicals(es: Seq<(Seq<char>, SimpleGeoV)>) -> Seq<Seq<char>> {
    es.map_values(|e: (Seq<char>, SimpleGeoV)| canonical(e.0))
}

/// The individuals of the laid-out genealogy.
pub open spec fn out_inds(g: GenrepV<()>, es: Seq<(Seq<char>, SimpleGeoV)>) -> Seq<IndividualV<SimpleGeoV>> {
    out_rest(g, canonicals(es), out_placed(g, es), g.individuals.len() as int)
}

proof fn lemma_placed_ids(v: Seq<Individual<SimpleGeo>>)
    ensures
        crate::genrep::ind_ids(placed_inds(v)) == crate::genrep::ind_ids(crate::genrep::inds_view(v)),
{
    assert(crate::genrep::ind_ids(placed_inds(v)) =~= crate::genrep::ind_ids(crate::genrep::inds_view(v)));
}

fn insert_placed(v: &mut Vec<Individual<SimpleGeo>>, x: Individual<SimpleGeo>)
    ensures
        placed_inds(final(v)@) == crate::genrep::put_ind(
            placed_inds(old(v)@),
            crate::layout::common::with_geo_ind(x@, geo_opt(x.geo)),
        ),
{
    let ghost xv = crate::layout::common::with_geo_ind(x@, geo_opt(x.geo));
    proof {
        lemma_placed_ids(v@);
    }
    match crate::genrep::find_individual(v, x.id.as_str()) {
        Some(i) => {
            v.set(i, x);
            assert(placed_inds(v@) =~= crate::genrep::put_ind(placed_inds(old(v)@), xv));
        },
        None => {
            v.push(x);
            assert(placed_inds(v@) =~= crate::genrep::put_ind(placed_inds(old(v)@), xv));
        },
    }
}

fn ellipsis_record(key: String, geo: SimpleGeo) -> (r: Individual<SimpleGeo>)
    ensures
        crate::layout::common::with_geo_ind(r@, geo_opt(r.geo)) == ellipsis_ind(key@, geo@),
{
    let r = Individual {
        id: key,
        given: None,
        surname: None,
        sex: None,
        birth: None,
        death: None,
        fams: Vec::new(),
        famc: Vec::new(),
        alt_name: None,
        name_heb: None,
        living: None,
        notes: Vec::new(),
        in_scope: true,
        geo: Some(geo),
    };
    assert(strs(r.fams@) =~= seq![]);
    assert(strs(r.famc@) =~= seq![]);
    assert(strs(r.notes@) =~= seq![]);
    r
}

#[verifier::spinoff_prover]
#[verifier::rlimit(40)]
fn out_entry_ex(
    genrep: &Genrep,
    out: &mut Vec<Individual<SimpleGeo>>,
    canon: &mut Vec<String>,
    key: String,
    geo: SimpleGeo,
)
    ensures
        placed_inds(final(out)@) == out_entry(genrep@, placed_inds(old(out)@), (key@, geo@)),
        strs(final(canon)@) == strs(old(canon)@).push(canonical(key@)),
{
    reveal(out_entry);
    let c = canonical_of(key.as_str());
    let ghost cv = strs(canon@);
    let ghost cc = c@;
    if geo.is_ellipsis {
        canon.push(c);
        insert_placed(out, ellipsis_record(key, geo));
    } else {
        match genrep.get_individual(c.as_str()) {
            Some(indi) => {
                let mut rec = crate::layout::common::copy_individual(indi, Some(geo));
                rec.id = key;
                canon.push(c);
                insert_placed(out, rec);
            },
            None => {
                canon.push(c);
            },
        }
    }
    assert(strs(canon@) =~= cv.push(cc));
}

fn out_placed_ex(genrep: &Genrep, es: Vec<(String, SimpleGeo)>) -> (r: (Vec<Individual<SimpleGeo>>, Vec<String>))
    ensures
        placed_inds(r.0@) == out_placed(genrep@, geo_view(es@)),
        strs(r.1@) == canonicals(geo_view(es@)),
{
    let ghost all = geo_view(es@);
    let mut rest = es;
    let mut out: Vec<Individual<SimpleGeo>> = Vec::new();
    let mut canon: Vec<String> = Vec::new();
    let ghost mut k: int = 0;
    assert(all.take(0) =~= seq![]);
    assert(all.skip(0) =~= all);
    assert(placed_inds(out@) =~= seq![]);
    assert(strs(canon@) =~= seq![]);
    while rest.len() > 0
        invariant
            0 <= k <= all.len(),
            geo_view(rest@) == all.skip(k),
            placed_inds(out@) == out_placed(genrep@, all.take(k)),
            strs(canon@) == canonicals(all.take(k)),
        decreases rest.len(),
    {
        let ghost before = rest@;
        assert(geo_view(rest@).len() == rest.len());
        let (key, geo) = rest.remove(0);
        proof {
            assert(geo_view(rest@) =~= geo_view(before).drop_first());
            assert(geo_view(before)[0] == (key@, geo@));
            assert(all.skip(k).drop_first() =~= all.skip(k + 1));
            assert(all.take(k + 1).drop_last() =~= all.take(k));
            assert(all.take(k + 1).last() == all.skip(k)[0]);
        }
        let ghost cv = strs(canon@);
        out_entry_ex(genrep, &mut out, &mut canon, key, geo);
        assert(strs(canon@) =~= cv.push(canonical(all.take(k + 1).last().0)));
        assert(strs(canon@) =~= canonicals(all.take(k + 1)));
        proof {
            k = k + 1;
        }
    }
    assert(all.take(k) =~= all);
    (out, canon)
}

fn out_rest_one(genrep: &Genrep, canon: &Vec<String>, out: &mut Vec<Individual<SimpleGeo>>, i: usize)
    requires
        i < genrep.individuals.len(),
    ensures
        placed_inds(final(out)@) == out_rest_step(genrep@, strs(canon@), placed_inds(old(out)@), i as int),
{
    reveal(out_rest_step);
    let indi = &genrep.individuals[i];
    assert(genrep@.individuals[i as int] == indi@);
    let first = match crate::genrep::find_individual(&genrep.individuals, indi.id.as_str()) {
        Some(p) => p == i,
        None => false,
    };
    if first && !contains_chars(canon, &chars_of(indi.id.as_str())) {
        insert_placed(out, crate::layout::common::copy_individual(indi, None));
    }
}

fn out_rest_ex(genrep: &Genrep, canon: &Vec<String>, out: &mut Vec<Individual<SimpleGeo>>)
    ensures
        placed_inds(final(out)@) == out_rest(
            genrep@,
            strs(canon@),
            placed_inds(old(out)@),
            genrep@.individuals.len() as int,
        ),
{
    let ghost acc0 = placed_inds(out@);
    let mut i: usize = 0;
    while i < genrep.individuals.len()
        invariant
            i <= genrep.individuals.len(),
            placed_inds(out@) == out_rest(genrep@, strs(canon@), acc0, i as int),
        decreases genrep.individuals.len() - i,
    {
        out_rest_one(genrep, canon, out, i);
        i = i + 1;
    }
}

fn empty_geo() -> (r: Vec<(String, SimpleGeo)>)
    ensures
        geo_view(r@) == Seq::<(Seq<char>, SimpleGeoV)>::empty(),
{
    let r: Vec<(String, SimpleGeo)> = Vec::new();
    assert(geo_view(r@) =~= Seq::<(Seq<char>, SimpleGeoV)>::empty());
    r
}

pub struct SimpleLayout;

impl SimpleLayout {
    /// Lay out the genealogy as indented text lines: descendants, ancestors or a forest of
    /// trees, as the direction asks.
    pub fn compute(
        &self,
        genrep: &Genrep,
        scope: &ScopePrefs,
        show: &ShowPrefs,
        simple: &SimpleLayoutPrefs,
    ) -> (r: (Genrep<SimpleGeo>, Vec<LayoutWarning>))
        requires
            simple.vert_spacing < usize::MAX,
            simple_fits(
                genrep@,
                scope.direction@,
                scope.root@,
                simple.vert_spacing + 1,
                show.last_gen_spouses,
            ),
        ensures
            placed_inds(r.0.individuals@) == out_inds(
                genrep@,
                simple_geo(
                    genrep@,
                    scope.direction@,
                    scope.root@,
                    simple.vert_spacing + 1,
                    show.last_gen_spouses,
                ),
            ),
            placed_fams(r.0.families@) == genrep@.families.map_values(
                |f: FamilyV<()>| crate::layout::common::with_geo_fam(f, None::<SimpleGeoV>),
            ),
            opt_str(r.0.first_individual_id) == genrep@.first_individual_id,
            layout_warnings_view(r.1@) == simple_warnings(genrep@, scope.direction@, scope.root@),
    {
        match self.try_compute(genrep, scope, show, simple) {
            Some(r) => r,
            None => {
                proof {
                    assert(false);
                }
                (Genrep { individuals: Vec::new(), families: Vec::new(), first_individual_id: None }, Vec::new())
            },
        }
    }

    /// The layout of `compute`, or `None` where the spacing or a line or ellipsis number of
    /// the layout would not fit in `usize`.
    pub fn try_compute(
        &self,
        genrep: &Genrep,
        scope: &ScopePrefs,
        show: &ShowPrefs,
        simple: &SimpleLayoutPrefs,
    ) -> (r: Option<(Genrep<SimpleGeo>, Vec<LayoutWarning>)>)
        ensures
            r is Some <==> simple.vert_spacing < usize::MAX && simple_fits(
                genrep@,
                scope.direction@,
                scope.root@,
                simple.vert_spacing + 1,
                show.last_gen_spouses,
            ),
            r matches Some(x) ==> placed_inds(x.0.individuals@) == out_inds(
                genrep@,
                simple_geo(
                    genrep@,
                    scope.direction@,
                    scope.root@,
                    simple.vert_spacing + 1,
                    show.last_gen_spouses,
                ),
            ),
            r matches Some(x) ==> placed_fams(x.0.families@) == genrep@.families.map_values(
                |f: FamilyV<()>| crate::layout::common::with_geo_fam(f, None::<SimpleGeoV>),
            ),
            r matches Some(x) ==> opt_str(x.0.first_individual_id) == genrep@.first_individual_id,
            r matches Some(x) ==> layout_warnings_view(x.1@) == simple_warnings(
                genrep@,
                scope.direction@,
                scope.root@,
            ),
    {
        if simple.vert_spacing as u64 >= usize::MAX as u64 || genrep.individuals.len() > usize::MAX - 3 {
            return None;
        }
        let spacing = simple.vert_spacing as usize;
        let step = spacing + 1;
        let lgs = show.last_gen_spouses;
        let mut warnings: Vec<LayoutWarning> = Vec::new();
        let mode = simple_mode_ex(scope.direction.as_str());
        let geo = match mode {
            SimpleMode::Forest => forest_ex(genrep, step, lgs),
            SimpleMode::Ancestors => {
                let (root, w) = resolve_root_id(genrep, scope.root.as_str());
                match w {
                    Some(x) => warnings.push(x),
                    None => {},
                }
                match root {
                    Some(r) => layout_ancestors(genrep, r.as_str(), spacing),
                    None => Some(empty_geo()),
                }
            },
            _ => {
                match mode {
                    SimpleMode::Unknown => {
                        warnings.push(LayoutWarning::UnknownDirection(scope.direction.clone()));
                    },
                    _ => {},
                }
                let (root, w) = resolve_root_id(genrep, scope.root.as_str());
                match w {
                    Some(x) => warnings.push(x),
                    None => {},
                }
                match root {
                    Some(r) => layout_descendants(genrep, r.as_str(), spacing),
                    None => Some(empty_geo()),
                }
            },
        };
        let geo = match geo {
            Some(g) => g,
            None => {
                return None;
            },
        };
        assert(layout_warnings_view(warnings@) =~= simple_warnings(genrep@, scope.direction@, scope.root@));
        assert(geo_view(geo@) == raw_geo(genrep@, scope.direction@, scope.root@, step as int, lgs));
        let geo = if lgs {
            geo
        } else {
            let m = max_gen_ex(&geo);
            drop_spouses_ex(geo, m)
        };
        let (mut out, canon) = out_placed_ex(genrep, geo);
        out_rest_ex(genrep, &canon, &mut out);
        let fams = crate::layout::common::copy_families(genrep, |_f: &crate::genrep::Family| -> (r: Option<SimpleGeo>)
            ensures
                r is None,
            { None });
        assert(placed_fams(fams@) =~= genrep@.families.map_values(
            |f: FamilyV<()>| crate::layout::common::with_geo_fam(f, None::<SimpleGeoV>),
        ));
        let first = match &genrep.first_individual_id {
            Some(f) => Some(f.clone()),
            None => None,
        };
        Some((Genrep { individuals: out, families: fams, first_individual_id: first }, warnings))
    }
}

// ── marriage of a placed spouse ──────────────────────────────────────────────

/// The marriage of the first family (from position `k` of `fams`) that is in scope.
pub open spec fn marriage_from<G>(g: GenrepV<G>, fams: Seq<Seq<char>>, k: int) -> Option<crate::genrep::EventV>
    decreases fams.len() - k,
{
    if k < 0 || k >= fams.len() {
        None
    } else {
        match lookup_fam(g.families, fams[k]) {
            Some(f) => if f.in_scope {
                f.marriage
            } else {
                marriage_from(g, fams, k + 1)
            },
            None => marriage_from(g, fams, k + 1),
        }
    }
}

pub open spec fn spec_find_marriage<G>(g: GenrepV<G>, id: Seq<char>) -> Option<crate::genrep::EventV> {
    match lookup_ind(g.individuals, id) {
        Some(i) => marriage_from(g, i.fams, 0),
        None => None,
    }
}

/// Find the first in-scope family marriage event for an individual in the genrep.
pub fn find_marriage_in_genrep<'a, G>(id: &str, genrep: &'a Genrep<G>) -> (r: Option<&'a crate::genrep::Event>)
    ensures
        match r {
            Some(e) => spec_find_marriage(genrep@, id@) == Some(e@),
            None => spec_find_marriage(genrep@, id@) is None,
        },
{
    let indi = match genrep.get_individual(id) {
        Some(i) => i,
        None => {
            return None;
        },
    };
    let mut k: usize = 0;
    while k < indi.fams.len()
        invariant
            k <= indi.fams.len(),
            spec_find_marriage(genrep@, id@) == marriage_from(genrep@, indi@.fams, k as int),
        decreases indi.fams.len() - k,
    {
        assert(indi@.fams[k as int] == indi.fams@[k as int]@);
        match genrep.get_family(indi.fams[k].as_str()) {
            Some(fam) => {
                if fam.in_scope {
                    return match &fam.marriage {
                        Some(e) => Some(e),
                        None => None,
                    };
                }
            },
            None => {},
        }
        k = k + 1;
    }
    None
}

} // verus!

verus! {

// ── the trees of a forest lie apart ─────────────────────────────────────────

/// Every placement lies on a line in `lo .. hi`.
pub open spec fn lines_within(geo: Seq<(Seq<char>, SimpleGeoV)>, lo: int, hi: int) -> bool {
    forall|i: int| 0 <= i < geo.len() ==> lo <= (#[trigger] geo[i]).1.line < hi
}

proof fn lemma_kv_put_within(m: Seq<(Seq<char>, SimpleGeoV)>, k: Seq<char>, v: SimpleGeoV, lo: int, hi: int)
    requires
        lines_within(m, lo, hi),
        lo <= v.line < hi,
    ensures
        lines_within(kv_put(m, k, v), lo, hi),
{
    let r = kv_put(m, k, v);
    assert forall|i: int| 0 <= i < r.len() implies lo <= (#[trigger] r[i]).1.line < hi by {
        if i < m.len() && r[i] != (k, v) {
            assert(r[i] == m[i]);
        }
    }
}

/// A walk state whose placements all lie above its current line.
pub open spec fn walk_within(st: VisitV) -> bool {
    st.line >= 0 && lines_within(st.geo, 0, st.line)
}

proof fn lemma_walk_within_step(st: VisitV, k: Seq<char>, v: SimpleGeoV, step: int)
    requires
        walk_within(st),
        v.line == st.line,
        step >= 1,
    ensures
        walk_within(VisitV { geo: kv_put(st.geo, k, v), line: st.line + step, ..st }),
{
    lemma_kv_put_within(st.geo, k, v, 0, st.line + step);
}

proof fn lemma_visit_within(fuel: nat, c: SimpleCtx, st: VisitV, id: Seq<char>, depth: int)
    requires
        c.step >= 1,
        walk_within(st),
    ensures
        walk_within(visit_v(fuel, c, st, id, depth)),
    decreases fuel, 2int, 0int,
{
    if !st.visited.contains(id) {
        let st1 = VisitV { visited: st.visited.push(id), ..st };
        match lookup_ind(c.g.individuals, id) {
            Some(indi) => if indi.in_scope {
                let v = placed(st1.line, depth, depth + 1, false, false);
                lemma_walk_within_step(st1, id, v, c.step);
                let st2 = VisitV { geo: kv_put(st1.geo, id, v), line: st1.line + c.step, ..st1 };
                lemma_fams_within(fuel, c, st2, sorted_fams(indi.fams, c.g.families), id, depth);
            } else {
            },
            None => {},
        }
    }
}

proof fn lemma_fams_within(
    fuel: nat,
    c: SimpleCtx,
    st: VisitV,
    fams: Seq<Seq<char>>,
    id: Seq<char>,
    depth: int,
)
    requires
        c.step >= 1,
        walk_within(st),
    ensures
        walk_within(fams_v(fuel, c, st, fams, id, depth)),
    decreases fuel, 1int, fams.len(),
{
    if fams.len() > 0 {
        lemma_fams_within(fuel, c, st, fams.drop_last(), id, depth);
        lemma_fam_within(fuel, c, fams_v(fuel, c, st, fams.drop_last(), id, depth), fams.last(), id, depth);
    }
}

proof fn lemma_fam_within(
    fuel: nat,
    c: SimpleCtx,
    st: VisitV,
    fam_id: Seq<char>,
    id: Seq<char>,
    depth: int,
)
    requires
        c.step >= 1,
        walk_within(st),
    ensures
        walk_within(fam_v(fuel, c, st, fam_id, id, depth)),
    decreases fuel, 1int, 0int,
{
    match lookup_fam(c.g.families, fam_id) {
        Some(f) => if f.in_scope {
            let sp = spouse_in(f, id);
            if let Some(sid) = sp {
                if !st.visited.contains(sid) {
                    if let Some(s) = lookup_ind(c.g.individuals, sid) {
                        if s.in_scope {
                            lemma_walk_within_step(
                                VisitV { visited: st.visited.push(sid), ..st },
                                sid,
                                placed(st.line, depth, depth + 1, true, false),
                                c.step,
                            );
                        }
                    }
                }
            }
            let st1 = with_spouse(c, st, sp, depth);
            if all_shown(f.children_ids, c.shown) {
                lemma_walk_within_step(st1, ellipsis_key(st1.ell), placed(st1.line, depth + 1, depth + 2, false, true), c.step);
            } else {
                lemma_kids_within(fuel, c, st1, f.children_ids, depth);
            }
        } else {
        },
        None => {},
    }
}

proof fn lemma_kids_within(fuel: nat, c: SimpleCtx, st: VisitV, kids: Seq<Seq<char>>, depth: int)
    requires
        c.step >= 1,
        walk_within(st),
    ensures
        walk_within(kids_v(fuel, c, st, kids, depth)),
    decreases fuel, 0int, kids.len(),
{
    if fuel > 0 && kids.len() > 0 {
        lemma_kids_within(fuel, c, st, kids.drop_last(), depth);
        lemma_visit_within((fuel - 1) as nat, c, kids_v(fuel, c, st, kids.drop_last(), depth), kids.last(), depth + 1);
    }
}

/// Placing a tree's entries at `next` leaves every placement above `next` as it was,
/// and puts the new ones between `next` and `hi`.
proof fn lemma_place_apart(
    acc: (Seq<(Seq<char>, SimpleGeoV)>, Seq<(Seq<char>, int)>, bool),
    es: Seq<(Seq<char>, SimpleGeoV)>,
    next: int,
    hi: int,
)
    requires
        0 <= next <= hi,
        lines_within(acc.0, 0, next),
        lines_within(es, 0, hi - next),
    ensures
        lines_within(place_all(acc, es, next).0, 0, hi),
        acc.0.len() <= place_all(acc, es, next).0.len(),
        forall|i: int|
            0 <= i < place_all(acc, es, next).0.len() && (#[trigger] place_all(acc, es, next).0[i]).1.line < next
                ==> i < acc.0.len() && place_all(acc, es, next).0[i] == acc.0[i],
    decreases es.len(),
{
    if es.len() == 0 {
        assert forall|i: int| 0 <= i < acc.0.len() implies 0 <= (#[trigger] acc.0[i]).1.line < hi by {
            assert(0 <= acc.0[i].1.line < next);
        }
    } else {
        let pre_es = es.drop_last();
        assert forall|i: int| 0 <= i < pre_es.len() implies 0 <= (#[trigger] pre_es[i]).1.line < hi - next by {
            assert(pre_es[i] == es[i]);
        }
        lemma_place_apart(acc, pre_es, next, hi);
        let pre = place_all(acc, pre_es, next);
        let e = es.last();
        assert(0 <= es[es.len() - 1].1.line < hi - next);
        let n = match kv_get(pre.1, e.0) {
            Some(c) => c,
            None => 0,
        };
        let v = SimpleGeoV { line: e.1.line + next, ..e.1 };
        let key = inst_key(e.0, n);
        lemma_kv_put_within(pre.0, key, v, 0, hi);
        let r = kv_put(pre.0, key, v);
        assert(r == place_all(acc, es, next).0);
        assert forall|i: int| 0 <= i < r.len() && (#[trigger] r[i]).1.line < next implies i < acc.0.len() && r[i]
            == acc.0[i] by {
            if r[i] != (key, v) {
                assert(i < pre.0.len() && r[i] == pre.0[i]);
                assert(pre.0[i].1.line < next);
            }
        }
    }
}

/// A forest state whose placements all lie above the line where the next tree starts.
pub open spec fn forest_within(st: ForestV) -> bool {
    st.next_line >= 0 && lines_within(st.geo, 0, st.next_line)
}

proof fn lemma_forest_step_apart(g: GenrepV<()>, step: int, lgs: bool, st: ForestV, r: Seq<char>)
    requires
        step >= 1,
        forest_within(st),
    ensures
        forest_within(forest_step(g, step, lgs, st, r)),
        st.next_line <= forest_step(g, step, lgs, st, r).next_line,
        forall|i: int|
            0 <= i < forest_step(g, step, lgs, st, r).geo.len() && (#[trigger] forest_step(
                g,
                step,
                lgs,
                st,
                r,
            ).geo[i]).1.line < st.next_line ==> i < st.geo.len() && forest_step(g, step, lgs, st, r).geo[i]
                == st.geo[i],
{
    reveal(forest_step);
    if !(lgs && st.spouses.contains(r) && redundant_tree(g, st.shown, r)) {
        let c = SimpleCtx { g, step, shown: st.shown };
        let w = desc_walk(c, r, st.ell);
        lemma_visit_within((g.individuals.len() + 1) as nat, c, walk_start(st.ell), r, 0);
        if w.geo.len() > 0 {
            let hi = st.next_line + max_line(w.geo) + 1;
            lemma_max_line_nonneg(w.geo);
            assert forall|i: int| 0 <= i < w.geo.len() implies 0 <= (#[trigger] w.geo[i]).1.line < hi
                - st.next_line by {
                lemma_max_line(w.geo, i);
            }
            lemma_place_apart((st.geo, st.counts, st.ok && fits(w)), w.geo, st.next_line, hi);
            let res = forest_step(g, step, lgs, st, r);
            let pl = place_all((st.geo, st.counts, st.ok && fits(w)), w.geo, st.next_line);
            assert(res.geo == pl.0);
            assert forall|i: int| 0 <= i < res.geo.len() implies 0 <= (#[trigger] res.geo[i]).1.line
                < res.next_line by {
                assert(0 <= pl.0[i].1.line < hi);
            }
        }
    }
}

proof fn lemma_forest_within(g: GenrepV<()>, step: int, lgs: bool, roots: Seq<Seq<char>>)
    requires
        step >= 1,
    ensures
        forest_within(forest_fold(g, step, lgs, roots)),
    decreases roots.len(),
{
    if roots.len() > 0 {
        lemma_forest_within(g, step, lgs, roots.drop_last());
        lemma_forest_step_apart(g, step, lgs, forest_fold(g, step, lgs, roots.drop_last()), roots.last());
    }
}

/// The trees of a forest lie apart: after any run of trees, every placement lies above
/// the line where the next tree starts, and the next tree starts no higher and leaves
/// every placement above that line as it was.
pub proof fn lemma_forest_trees_apart(
    g: GenrepV<()>,
    step: int,
    lgs: bool,
    roots: Seq<Seq<char>>,
    r: Seq<char>,
)
    requires
        step >= 1,
    ensures
        ({
            let st = forest_fold(g, step, lgs, roots);
            let st2 = forest_fold(g, step, lgs, roots.push(r));
            &&& lines_within(st.geo, 0, st.next_line)
            &&& lines_within(st2.geo, 0, st2.next_line)
            &&& st.next_line <= st2.next_line
            &&& forall|i: int|
                0 <= i < st2.geo.len() && (#[trigger] st2.geo[i]).1.line < st.next_line ==> i < st.geo.len()
                    && st2.geo[i] == st.geo[i]
        }),
{
    lemma_forest_within(g, step, lgs, roots);
    assert(roots.push(r).drop_last() =~= roots);
    lemma_forest_step_apart(g, step, lgs, forest_fold(g, step, lgs, roots), r);
}

} // verus!

verus! {

// ── the forest draws larger trees first ─────────────────────────────────────

/// The positions `0 .. n` in tree order so far: sorted, each once.
pub open spec fn root_order_upto(sizes: Seq<int>, ids: Seq<Seq<char>>, p: Seq<usize>, n: int) -> bool {
    &&& p.len() == n
    &&& forall|j: int| 0 <= j < p.len() ==> p[j] < n
    &&& forall|a: int, b: int| 0 <= a < b < p.len() ==> root_before(sizes, ids, p[a], p[b])
    &&& forall|x: usize| x < n ==> p.contains(x)
}

/// The first place in `p`, from `t` on, before which `i` goes.
proof fn lemma_insert_pos(sizes: Seq<int>, ids: Seq<Seq<char>>, p: Seq<usize>, i: usize, t: int) -> (pos: int)
    requires
        0 <= t <= p.len(),
        forall|u: int| 0 <= u < t ==> !root_before(sizes, ids, i, #[trigger] p[u]),
    ensures
        t <= pos <= p.len(),
        forall|u: int| 0 <= u < pos ==> !root_before(sizes, ids, i, #[trigger] p[u]),
        pos < p.len() ==> root_before(sizes, ids, i, p[pos]),
    decreases p.len() - t,
{
    if t == p.len() || root_before(sizes, ids, i, p[t]) {
        t
    } else {
        lemma_insert_pos(sizes, ids, p, i, t + 1)
    }
}

proof fn lemma_root_order_upto(sizes: Seq<int>, ids: Seq<Seq<char>>, n: int) -> (p: Seq<usize>)
    requires
        0 <= n <= ids.len(),
        ids.len() <= usize::MAX,
    ensures
        root_order_upto(sizes, ids, p, n),
    decreases n,
{
    if n == 0 {
        seq![]
    } else {
        let old_out = lemma_root_order_upto(sizes, ids, n - 1);
        let i = (n - 1) as usize;
        let pos = lemma_insert_pos(sizes, ids, old_out, i, 0);
        let out = old_out.insert(pos, i);
        assert forall|a: int, b: int| 0 <= a < b < out.len() implies root_before(sizes, ids, out[a], out[b]) by {
            if b < pos {
                assert(out[a] == old_out[a] && out[b] == old_out[b]);
            } else if b == pos {
                assert(out[a] == old_out[a]);
                assert(!root_before(sizes, ids, i, old_out[a]));
                lemma_root_before_total(sizes, ids, i, old_out[a]);
            } else if a == pos {
                assert(out[b] == old_out[b - 1]);
                if b - 1 > pos {
                    assert(root_before(sizes, ids, old_out[pos], old_out[b - 1]));
                    lemma_root_before_trans(sizes, ids, i, old_out[pos], old_out[b - 1]);
                }
            } else if a < pos {
                assert(out[a] == old_out[a] && out[b] == old_out[b - 1]);
            } else {
                assert(out[a] == old_out[a - 1] && out[b] == old_out[b - 1]);
            }
        }
        assert forall|x: usize| x < n implies out.contains(x) by {
            if x == i {
                assert(out[pos] == i);
            } else {
                assert(old_out.contains(x));
                let k = choose|k: int| 0 <= k < old_out.len() && old_out[k] == x;
                if k < pos {
                    assert(out[k] == x);
                } else {
                    assert(out[k + 1] == x);
                }
            }
        }
        assert forall|j: int| 0 <= j < out.len() implies out[j] < n by {
            if j < pos {
                assert(out[j] == old_out[j]);
            } else if j > pos {
                assert(out[j] == old_out[j - 1]);
            }
        }
        out
    }
}

proof fn lemma_forest_roots_len(g: GenrepV<()>, n: int)
    requires
        n >= 0,
    ensures
        forest_roots(g, n).len() <= n,
    decreases n,
{
    if n > 0 {
        lemma_forest_roots_len(g, n - 1);
    }
}

/// The roots come in decreasing order of tree size.
pub open spec fn larger_first(g: GenrepV<()>, rs: Seq<Seq<char>>) -> bool {
    forall|a: int, b: int| 0 <= a < b < rs.len() ==> tree_size_v(g, #[trigger] rs[a]) >= tree_size_v(g, #[trigger] rs[b])
}

proof fn lemma_keep_roots_order(g: GenrepV<()>, roots: Seq<Seq<char>>, n: int)
    requires
        0 <= n <= roots.len(),
        larger_first(g, roots),
    ensures
        larger_first(g, keep_roots(g, roots, n)),
        forall|j: int|
            0 <= j < keep_roots(g, roots, n).len() ==> exists|m: int|
                0 <= m < n && roots[m] == #[trigger] keep_roots(g, roots, n)[j],
    decreases n,
{
    if n > 0 {
        lemma_keep_roots_order(g, roots, n - 1);
        let pre = keep_roots(g, roots, n - 1);
        if keeps_root(g, roots, roots[n - 1]) {
            let r = pre.push(roots[n - 1]);
            assert forall|a: int, b: int| 0 <= a < b < r.len() implies tree_size_v(g, #[trigger] r[a]) >= tree_size_v(
                g,
                #[trigger] r[b],
            ) by {
                if b == r.len() - 1 {
                    assert(r[a] == pre[a]);
                    let m = choose|m: int| 0 <= m < n - 1 && roots[m] == pre[a];
                    assert(tree_size_v(g, roots[m]) >= tree_size_v(g, roots[n - 1]));
                } else {
                    assert(r[a] == pre[a] && r[b] == pre[b]);
                }
            }
            assert forall|j: int| 0 <= j < r.len() implies exists|m: int| 0 <= m < n && roots[m] == #[trigger] r[j] by {
                if j == r.len() - 1 {
                    assert(roots[n - 1] == r[j]);
                } else {
                    assert(r[j] == pre[j]);
                    let m = choose|m: int| 0 <= m < n - 1 && roots[m] == pre[j];
                    assert(roots[m] == r[j]);
                }
            }
        }
    }
}

/// The forest draws its trees larger first: the roots it draws a tree for come in
/// decreasing order of tree size.
pub proof fn lemma_forest_larger_trees_first(g: GenrepV<()>)
    requires
        g.individuals.len() <= usize::MAX,
    ensures
        larger_first(g, forest_tree_roots(g)),
{
    let r0 = forest_roots(g, g.individuals.len() as int);
    lemma_forest_roots_len(g, g.individuals.len() as int);
    let sizes = root_sizes(g, r0);
    let w = lemma_root_order_upto(sizes, r0, r0.len() as int);
    assert(is_root_order(sizes, r0, w));
    let p = choose|p: Seq<usize>| is_root_order(sizes, r0, p);
    let sorted = sorted_roots(g);
    assert(sorted == crate::layout::common::reorder(r0, p));
    assert forall|a: int, b: int| 0 <= a < b < sorted.len() implies tree_size_v(g, #[trigger] sorted[a]) >= tree_size_v(
        g,
        #[trigger] sorted[b],
    ) by {
        assert(root_before(sizes, r0, p[a], p[b]));
        assert(sorted[a] == r0[p[a] as int]);
        assert(sorted[b] == r0[p[b] as int]);
    }
    lemma_keep_roots_order(g, sorted, sorted.len() as int);
}


// ── laws of last-generation spouses ──────────────────────────────────────────

/// A placement of an individual who is neither a spouse nor an ellipsis.
pub open spec fn is_main(e: (Seq<char>, SimpleGeoV)) -> bool {
    !e.1.is_spouse && !e.1.is_ellipsis
}

proof fn lemma_max_gen_props(es: Seq<(Seq<char>, SimpleGeoV)>)
    ensures
        max_gen(es) >= 0,
        forall|i: int| 0 <= i < es.len() && is_main(#[trigger] es[i]) ==> es[i].1.generation <= max_gen(es),
        max_gen(es) == 0 || exists|k: int| 0 <= k < es.len() && is_main(#[trigger] es[k]) && es[k].1.generation
            == max_gen(es),
    decreases es.len(),
{
    if es.len() > 0 {
        let pre = es.drop_last();
        lemma_max_gen_props(pre);
        assert forall|i: int| 0 <= i < es.len() && is_main(#[trigger] es[i]) implies es[i].1.generation
            <= max_gen(es) by {
            if i < es.len() - 1 {
                assert(pre[i] == es[i]);
            }
        }
        if max_gen(es) != 0 && max_gen(es) == max_gen(pre) {
            let k = choose|k: int| 0 <= k < pre.len() && is_main(#[trigger] pre[k]) && pre[k].1.generation
                == max_gen(pre);
            assert(es[k] == pre[k]);
        } else if max_gen(es) != 0 {
            assert(is_main(es[es.len() - 1]));
        }
    }
}

proof fn lemma_drop_spouses_members(es: Seq<(Seq<char>, SimpleGeoV)>, gen: int)
    ensures
        forall|i: int| 0 <= i < drop_spouses(es, gen).len() ==> es.contains(#[trigger] drop_spouses(es, gen)[i])
            && !(drop_spouses(es, gen)[i].1.is_spouse && drop_spouses(es, gen)[i].1.generation == gen),
        forall|j: int| 0 <= j < es.len() && !(#[trigger] es[j]).1.is_spouse ==> drop_spouses(es, gen).contains(es[j]),
    decreases es.len(),
{
    if es.len() > 0 {
        let pre = es.drop_last();
        lemma_drop_spouses_members(pre, gen);
        let r = drop_spouses(pre, gen);
        assert forall|i: int| 0 <= i < drop_spouses(es, gen).len() implies es.contains(
            #[trigger] drop_spouses(es, gen)[i],
        ) && !(drop_spouses(es, gen)[i].1.is_spouse && drop_spouses(es, gen)[i].1.generation == gen) by {
            if i < r.len() {
                assert(drop_spouses(es, gen)[i] == r[i]);
                let x = choose|x: int| 0 <= x < pre.len() && pre[x] == r[i];
                assert(es[x] == pre[x]);
            } else {
                assert(drop_spouses(es, gen)[i] == es.last());
                assert(es[es.len() - 1] == es.last());
            }
        }
        assert forall|j: int| 0 <= j < es.len() && !(#[trigger] es[j]).1.is_spouse implies drop_spouses(
            es,
            gen,
        ).contains(es[j]) by {
            if j < es.len() - 1 {
                assert(pre[j] == es[j]);
                let x = choose|x: int| 0 <= x < r.len() && r[x] == es[j];
                assert(drop_spouses(es, gen)[x] == r[x]);
            } else {
                assert(drop_spouses(es, gen)[r.len() as int] == es[j]);
            }
        }
    }
}

/// Without `last_gen_spouses`, the simple layout places no spouse in the deepest
/// generation of its other individuals: whenever a spouse shares the generation of a
/// placed individual who is neither a spouse nor an ellipsis, some such individual lies
/// in a deeper generation. And no one but spouses is left out.
pub proof fn lemma_no_last_generation_spouses(
    g: GenrepV<()>,
    dir: Seq<char>,
    root_pref: Seq<char>,
    step: int,
)
    ensures
        ({
            let es = simple_geo(g, dir, root_pref, step, false);
            forall|i: int, j: int|
                0 <= i < es.len() && 0 <= j < es.len() && (#[trigger] es[i]).1.is_spouse && is_main(#[trigger] es[j])
                    && es[i].1.generation == es[j].1.generation && es[j].1.generation >= 0 ==> exists|k: int|
                    0 <= k < es.len() && is_main(#[trigger] es[k]) && es[k].1.generation > es[j].1.generation
        }),
        ({
            let raw = raw_geo(g, dir, root_pref, step, false);
            forall|j: int| 0 <= j < raw.len() && !(#[trigger] raw[j]).1.is_spouse ==> simple_geo(
                g,
                dir,
                root_pref,
                step,
                false,
            ).contains(raw[j])
        }),
{
    let raw = raw_geo(g, dir, root_pref, step, false);
    let m = max_gen(raw);
    let es = simple_geo(g, dir, root_pref, step, false);
    assert(es == drop_spouses(raw, m));
    lemma_max_gen_props(raw);
    lemma_drop_spouses_members(raw, m);
    assert forall|i: int, j: int|
        0 <= i < es.len() && 0 <= j < es.len() && (#[trigger] es[i]).1.is_spouse && is_main(#[trigger] es[j])
            && es[i].1.generation == es[j].1.generation && es[j].1.generation >= 0 implies exists|k: int|
            0 <= k < es.len() && is_main(#[trigger] es[k]) && es[k].1.generation > es[j].1.generation by {
        let xj = choose|x: int| 0 <= x < raw.len() && raw[x] == es[j];
        assert(raw[xj] == es[j]);
        assert(es[j].1.generation <= m);
        assert(es[i].1.generation != m);
        let w = choose|k: int| 0 <= k < raw.len() && is_main(#[trigger] raw[k]) && raw[k].1.generation == m;
        assert(es.contains(raw[w]));
        let kk = choose|x: int| 0 <= x < es.len() && es[x] == raw[w];
        assert(is_main(es[kk]));
    }
}


// ── laws of ancestor connectors ─────────────────────────────────────────────

/// Setting one field of the placement under `k` is a keyed-map insertion.
proof fn lemma_set_conn_get(m: Seq<(Seq<char>, SimpleGeoV)>, k: Seq<char>, v: Seq<int>, below: bool, x: Seq<char>)
    ensures
        kv_get(if below { set_below(m, k, v) } else { set_above(m, k, v) }, x) == match kv_get(m, k) {
            Some(e) => if x == k {
                Some(
                    if below {
                        SimpleGeoV { connectors_below: v, ..e }
                    } else {
                        SimpleGeoV { connectors_above: v, ..e }
                    },
                )
            } else {
                kv_get(m, x)
            },
            None => kv_get(m, x),
        },
{
    let i = kv_index(m, k);
    if 0 <= i < m.len() {
        reveal(kv_index);
        crate::genrep::lemma_first_index_bounds(kv_keys(m), k);
        assert(kv_keys(m)[i] == m[i].0);
        let e = m[i].1;
        let ne = if below {
            SimpleGeoV { connectors_below: v, ..e }
        } else {
            SimpleGeoV { connectors_above: v, ..e }
        };
        assert(kv_put(m, k, ne) == (if below { set_below(m, k, v) } else { set_above(m, k, v) }));
        lemma_kv_get_put(m, k, ne, x);
    }
}

/// Connectors of one ancestor change only that ancestor's connectors; below it, the
/// lines down to its mother's line.
proof fn lemma_conn_step_get(g: GenrepV<()>, lines: Seq<(Seq<char>, int)>, m: Seq<(Seq<char>, SimpleGeoV)>, id: Seq<char>, x: Seq<char>)
    ensures
        ({
            let r = kv_get(conn_step(g, lines, m, id), x);
            &&& (r is Some) == (kv_get(m, x) is Some)
            &&& r is Some ==> r->0.line == kv_get(m, x)->0.line
            &&& r is Some && x != id ==> r->0.connectors_below == kv_get(m, x)->0.connectors_below
            &&& r is Some && x == id ==> (lookup_ind(g.individuals, id) matches Some(indi) ==> (mother_of(
                parents_fam(g, indi),
            ) matches Some(mid) ==> (kv_get(lines, mid) matches Some(ml) ==> r->0.connectors_below == span(
                kv_get(lines, id)->0 + 1,
                ml,
            ))))
        }),
{
    reveal(conn_step);
    match lookup_ind(g.individuals, id) {
        None => {},
        Some(indi) => {
            let self_line = kv_get(lines, id)->0;
            let p = parents_fam(g, indi);
            let m1 = match father_of(p) {
                Some(fid) => match kv_get(lines, fid) {
                    Some(fl) => set_above(m, id, span(fl + 1, self_line)),
                    None => m,
                },
                None => m,
            };
            if m1 != m {
                let fl = kv_get(lines, father_of(p)->0)->0;
                lemma_set_conn_get(m, id, span(fl + 1, self_line), false, x);
                lemma_set_conn_get(m, id, span(fl + 1, self_line), false, id);
            }
            match mother_of(p) {
                Some(mid) => match kv_get(lines, mid) {
                    Some(ml) => {
                        lemma_set_conn_get(m1, id, span(self_line + 1, ml), true, x);
                    },
                    None => {},
                },
                None => {},
            }
        },
    }
}

proof fn lemma_conn_pass_get(
    g: GenrepV<()>,
    lines: Seq<(Seq<char>, int)>,
    m: Seq<(Seq<char>, SimpleGeoV)>,
    ord: Seq<(Seq<char>, int)>,
    x: Seq<char>,
)
    ensures
        ({
            let r = kv_get(conn_pass(g, lines, m, ord), x);
            &&& (r is Some) == (kv_get(m, x) is Some)
            &&& r is Some ==> r->0.line == kv_get(m, x)->0.line
            &&& r is Some && (exists|k: int| 0 <= k < ord.len() && (#[trigger] ord[k]).0 == x) ==> (lookup_ind(
                g.individuals,
                x,
            ) matches Some(indi) ==> (mother_of(parents_fam(g, indi)) matches Some(mid) ==> (kv_get(lines, mid) matches Some(
                ml,
            ) ==> r->0.connectors_below == span(kv_get(lines, x)->0 + 1, ml))))
        }),
    decreases ord.len(),
{
    if ord.len() > 0 {
        let pre = ord.drop_last();
        lemma_conn_pass_get(g, lines, m, pre, x);
        lemma_conn_step_get(g, lines, conn_pass(g, lines, m, pre), ord.last().0, x);
        if x != ord.last().0 && exists|k: int| 0 <= k < ord.len() && (#[trigger] ord[k]).0 == x {
            let k = choose|k: int| 0 <= k < ord.len() && (#[trigger] ord[k]).0 == x;
            assert(k < ord.len() - 1);
            assert(pre[k] == ord[k]);
        }
    }
}

/// Where the first-pass placements and the line table agree.
proof fn lemma_anc_base_lines(ord: Seq<(Seq<char>, int)>, step: int, x: Seq<char>)
    ensures
        (kv_get(anc_base(ord, step), x) is Some) == (kv_get(anc_lines(ord, step), x) is Some),
        kv_get(anc_base(ord, step), x) is Some ==> kv_get(anc_base(ord, step), x)->0.line == kv_get(
            anc_lines(ord, step),
            x,
        )->0,
        kv_get(anc_base(ord, step), x) is Some ==> exists|k: int| 0 <= k < ord.len() && (#[trigger] ord[k]).0 == x,
    decreases ord.len(),
{
    if ord.len() > 0 {
        let pre = ord.drop_last();
        lemma_anc_base_lines(pre, step, x);
        let l = (ord.len() - 1) * step;
        lemma_kv_get_put(anc_lines(pre, step), ord.last().0, l, x);
        lemma_kv_get_put(
            anc_base(pre, step),
            ord.last().0,
            placed(l, ord.last().1, ord.last().1 + 1, false, false),
            x,
        );
        if x == ord.last().0 {
            assert(ord[ord.len() - 1].0 == x);
        } else if kv_get(anc_base(pre, step), x) is Some {
            let k = choose|k: int| 0 <= k < pre.len() && (#[trigger] pre[k]).0 == x;
            assert(ord[k] == pre[k]);
        }
    }
}

/// In an ancestors chart, an individual on line `s` whose first parents' family has a
/// mother placed on line `m` has the connector lines `s + 1, ..., m - 1` below it (none
/// when the mother is not below it).
pub proof fn lemma_ancestor_connectors_below(g: GenrepV<()>, root: Seq<char>, step: int, id: Seq<char>)
    ensures
        ({
            let geo = anc_geo(g, root, step);
            kv_get(geo, id) matches Some(a) ==> (lookup_ind(g.individuals, id) matches Some(indi) ==> (mother_of(
                parents_fam(g, indi),
            ) matches Some(mid) ==> (kv_get(geo, mid) matches Some(b) ==> a.connectors_below == span(
                a.line + 1,
                b.line,
            ))))
        }),
{
    let ord = anc_order(g, root);
    let lines = anc_lines(ord, step);
    let base = anc_base(ord, step);
    let geo = anc_geo(g, root, step);
    assert(geo == conn_pass(g, lines, base, ord));
    if kv_get(geo, id) is Some {
        if let Some(indi) = lookup_ind(g.individuals, id) {
            if let Some(mid) = mother_of(parents_fam(g, indi)) {
                if kv_get(geo, mid) is Some {
                    lemma_conn_pass_get(g, lines, base, ord, id);
                    lemma_conn_pass_get(g, lines, base, ord, mid);
                    lemma_anc_base_lines(ord, step, id);
                    lemma_anc_base_lines(ord, step, mid);
                }
            }
        }
    }
}

} // verus!
