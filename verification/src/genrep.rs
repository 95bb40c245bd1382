//! The genealogical representation: individuals, families and their links.
//!
//! Records are kept in insertion order in vectors; a record is found by its ID,
//! and the first record with a given ID is the one that counts. Inserting a record
//! whose ID is already present replaces that record in place, so IDs stay unique.

use vstd::prelude::*;
use crate::text::chars_of;

verus! {

/// A raw GEDCOM date string (e.g. `"1 JAN 1812"`, `"ABT 1850"`).
pub struct GedDate {
    pub raw: String,
}

/// A dated, located event (birth, death, marriage).
pub struct Event {
    pub date: Option<GedDate>,
    pub place: Option<String>,
}

pub struct Individual<G = ()> {
    pub id: String,
    pub given: Option<String>,
    pub surname: Option<String>,
    pub sex: Option<char>,
    pub birth: Option<Event>,
    pub death: Option<Event>,
    pub fams: Vec<String>,
    pub famc: Vec<String>,
    /// NAM2: alternate name.
    pub alt_name: Option<String>,
    /// NAMH: Hebrew/transliterated name.
    pub name_heb: Option<String>,
    /// _LIVING: living flag.
    pub living: Option<bool>,
    pub notes: Vec<String>,
    pub in_scope: bool,
    pub geo: Option<G>,
}

pub struct Family<G = ()> {
    pub id: String,
    pub husband_id: Option<String>,
    pub wife_id: Option<String>,
    pub children_ids: Vec<String>,
    pub marriage: Option<Event>,
    /// JMAR: Jewish marriage record reference.
    pub jmar: Option<String>,
    pub notes: Vec<String>,
    pub in_scope: bool,
    pub geo: Option<G>,
}

pub struct Genrep<G = ()> {
    pub individuals: Vec<Individual<G>>,
    pub families: Vec<Family<G>>,
    /// ID of the first individual encountered during parsing.
    pub first_individual_id: Option<String>,
}

// ── mathematical model ───────────────────────────────────────────────────────

pub struct EventV {
    pub date: Option<Seq<char>>,
    pub place: Option<Seq<char>>,
}

pub struct IndividualV<G> {
    pub id: Seq<char>,
    pub given: Option<Seq<char>>,
    pub surname: Option<Seq<char>>,
    pub sex: Option<char>,
    pub birth: Option<EventV>,
    pub death: Option<EventV>,
    pub fams: Seq<Seq<char>>,
    pub famc: Seq<Seq<char>>,
    pub alt_name: Option<Seq<char>>,
    pub name_heb: Option<Seq<char>>,
    pub living: Option<bool>,
    pub notes: Seq<Seq<char>>,
    pub in_scope: bool,
    pub geo: Option<G>,
}

pub struct FamilyV<G> {
    pub id: Seq<char>,
    pub husband_id: Option<Seq<char>>,
    pub wife_id: Option<Seq<char>>,
    pub children_ids: Seq<Seq<char>>,
    pub marriage: Option<EventV>,
    pub jmar: Option<Seq<char>>,
    pub notes: Seq<Seq<char>>,
    pub in_scope: bool,
    pub geo: Option<G>,
}

pub struct GenrepV<G> {
    pub individuals: Seq<IndividualV<G>>,
    pub families: Seq<FamilyV<G>>,
    pub first_individual_id: Option<Seq<char>>,
}

pub open spec fn opt_str(o: Option<String>) -> Option<Seq<char>> {
    match o {
        Some(s) => Some(s@),
        None => None,
    }
}

pub open spec fn strs(v: Seq<String>) -> Seq<Seq<char>> {
    v.map_values(|s: String| s@)
}

pub open spec fn date_view(d: Option<GedDate>) -> Option<Seq<char>> {
    match d {
        Some(g) => Some(g.raw@),
        None => None,
    }
}

impl View for Event {
    type V = EventV;

    open spec fn view(&self) -> EventV {
        EventV { date: date_view(self.date), place: opt_str(self.place) }
    }
}

pub open spec fn opt_event(o: Option<Event>) -> Option<EventV> {
    match o {
        Some(e) => Some(e@),
        None => None,
    }
}

impl<G> View for Individual<G> {
    type V = IndividualV<G>;

    open spec fn view(&self) -> IndividualV<G> {
        IndividualV {
            id: self.id@,
            given: opt_str(self.given),
            surname: opt_str(self.surname),
            sex: self.sex,
            birth: opt_event(self.birth),
            death: opt_event(self.death),
            fams: strs(self.fams@),
            famc: strs(self.famc@),
            alt_name: opt_str(self.alt_name),
            name_heb: opt_str(self.name_heb),
            living: self.living,
            notes: strs(self.notes@),
            in_scope: self.in_scope,
            geo: self.geo,
        }
    }
}

impl<G> View for Family<G> {
    type V = FamilyV<G>;

    open spec fn view(&self) -> FamilyV<G> {
        FamilyV {
            id: self.id@,
            husband_id: opt_str(self.husband_id),
            wife_id: opt_str(self.wife_id),
            children_ids: strs(self.children_ids@),
            marriage: opt_event(self.marriage),
            jmar: opt_str(self.jmar),
            notes: strs(self.notes@),
            in_scope: self.in_scope,
            geo: self.geo,
        }
    }
}

pub open spec fn inds_view<G>(v: Seq<Individual<G>>) -> Seq<IndividualV<G>> {
    v.map_values(|x: Individual<G>| x@)
}

pub open spec fn fams_view<G>(v: Seq<Family<G>>) -> Seq<FamilyV<G>> {
    v.map_values(|x: Family<G>| x@)
}

impl<G> View for Genrep<G> {
    type V = GenrepV<G>;

    open spec fn view(&self) -> GenrepV<G> {
        GenrepV {
            individuals: inds_view(self.individuals@),
            families: fams_view(self.families@),
            first_individual_id: opt_str(self.first_individual_id),
        }
    }
}

// ── lookup by ID ─────────────────────────────────────────────────────────────

/// Index of the first element equal to `x`, or -1.
pub open spec fn first_index<T>(s: Seq<T>, x: T) -> int {
    if s.contains(x) {
        choose|i: int| 0 <= i < s.len() && s[i] == x && forall|k: int| 0 <= k < i ==> s[k] != x
    } else {
        -1
    }
}

pub proof fn lemma_first_index<T>(s: Seq<T>, x: T, i: int)
    requires
        0 <= i < s.len(),
        s[i] == x,
        forall|k: int| 0 <= k < i ==> s[k] != x,
    ensures
        first_index(s, x) == i,
{
    assert(s.contains(x));
    let j = first_index(s, x);
    assert(0 <= j < s.len() && s[j] == x && forall|k: int| 0 <= k < j ==> s[k] != x);
    if j < i {
        assert(s[j] != x);
    }
    if i < j {
        assert(s[i] != x);
    }
}

pub proof fn lemma_first_index_none<T>(s: Seq<T>, x: T)
    requires
        forall|k: int| 0 <= k < s.len() ==> s[k] != x,
    ensures
        first_index(s, x) == -1,
{
}

/// The first index is an occurrence with no occurrence before it, or -1 when there is none.
pub proof fn lemma_first_index_spec<T>(s: Seq<T>, x: T)
    ensures
        s.contains(x) ==> 0 <= first_index(s, x) < s.len() && s[first_index(s, x)] == x
            && forall|q: int| 0 <= q < first_index(s, x) ==> s[q] != x,
        !s.contains(x) ==> first_index(s, x) == -1,
{
    if s.contains(x) {
        let w = choose|w: int| 0 <= w < s.len() && s[w] == x;
        lemma_has_first(s, x, w);
    }
}

/// Pushing a key changes the first position of no other key, and a new key is found at
/// the end.
pub proof fn lemma_first_index_push<T>(s: Seq<T>, k: T, x: T)
    ensures
        x != k ==> first_index(s.push(k), x) == first_index(s, x),
        !s.contains(k) ==> first_index(s.push(k), k) == s.len(),
{
    let t = s.push(k);
    lemma_first_index_spec(s, x);
    if x != k {
        if s.contains(x) {
            let i = first_index(s, x);
            assert(t[i] == x);
            assert forall|q: int| 0 <= q < i implies t[q] != x by {
                assert(t[q] == s[q]);
            }
            lemma_first_index(t, x, i);
        } else {
            assert forall|q: int| 0 <= q < t.len() implies t[q] != x by {
                if q < s.len() {
                    assert(t[q] == s[q]);
                    assert(!(s[q] == x)) by {
                        if s[q] == x {
                            assert(s.contains(x));
                        }
                    }
                }
            }
            lemma_first_index_none(t, x);
        }
    }
    if !s.contains(k) {
        assert forall|q: int| 0 <= q < s.len() implies t[q] != k by {
            assert(t[q] == s[q]);
            if s[q] == k {
                assert(s.contains(k));
            }
        }
        assert(t[s.len() as int] == k);
        lemma_first_index(t, k, s.len() as int);
    }
}

pub proof fn lemma_first_index_bounds<T>(s: Seq<T>, x: T)
    ensures
        -1 <= first_index(s, x) < s.len(),
        first_index(s, x) >= 0 ==> s[first_index(s, x)] == x,
        first_index(s, x) == -1 <==> !s.contains(x),
{
    if s.contains(x) {
        let w = choose|w: int| 0 <= w < s.len() && s[w] == x;
        assert(exists|i: int| 0 <= i < s.len() && s[i] == x && forall|k: int| 0 <= k < i ==> s[k] != x) by {
            lemma_has_first(s, x, w);
        }
    }
}

proof fn lemma_has_first<T>(s: Seq<T>, x: T, w: int)
    requires
        0 <= w < s.len(),
        s[w] == x,
    ensures
        exists|i: int| 0 <= i < s.len() && s[i] == x && forall|k: int| 0 <= k < i ==> s[k] != x,
    decreases w,
{
    if forall|k: int| 0 <= k < w ==> s[k] != x {
    } else {
        let k = choose|k: int| 0 <= k < w && s[k] == x;
        lemma_has_first(s, x, k);
    }
}

pub open spec fn ind_ids<G>(s: Seq<IndividualV<G>>) -> Seq<Seq<char>> {
    s.map_values(|x: IndividualV<G>| x.id)
}

pub open spec fn fam_ids<G>(s: Seq<FamilyV<G>>) -> Seq<Seq<char>> {
    s.map_values(|x: FamilyV<G>| x.id)
}

/// Index of the individual with ID `id`, or -1.
pub open spec fn ind_index<G>(s: Seq<IndividualV<G>>, id: Seq<char>) -> int {
    first_index(ind_ids(s), id)
}

/// Index of the family with ID `id`, or -1.
pub open spec fn fam_index<G>(s: Seq<FamilyV<G>>, id: Seq<char>) -> int {
    first_index(fam_ids(s), id)
}

pub open spec fn lookup_ind<G>(s: Seq<IndividualV<G>>, id: Seq<char>) -> Option<IndividualV<G>> {
    let i = ind_index(s, id);
    if 0 <= i < s.len() {
        Some(s[i])
    } else {
        None
    }
}

pub open spec fn lookup_fam<G>(s: Seq<FamilyV<G>>, id: Seq<char>) -> Option<FamilyV<G>> {
    let i = fam_index(s, id);
    if 0 <= i < s.len() {
        Some(s[i])
    } else {
        None
    }
}

/// Insert-or-replace by ID (the semantics of a map insert).
pub open spec fn put_ind<G>(s: Seq<IndividualV<G>>, x: IndividualV<G>) -> Seq<IndividualV<G>> {
    let i = ind_index(s, x.id);
    if 0 <= i < s.len() {
        s.update(i, x)
    } else {
        s.push(x)
    }
}

pub open spec fn put_fam<G>(s: Seq<FamilyV<G>>, x: FamilyV<G>) -> Seq<FamilyV<G>> {
    let i = fam_index(s, x.id);
    if 0 <= i < s.len() {
        s.update(i, x)
    } else {
        s.push(x)
    }
}

/// Equality of two string slices by their characters.
pub fn str_eq(a: &str, b: &str) -> (r: bool)
    ensures
        r == (a@ == b@),
{
    let x = chars_of(a);
    let y = chars_of(b);
    crate::text::vec_eq(&x, &y)
}

/// Position of the individual with ID `id` in `v`.
pub fn find_individual<G>(v: &Vec<Individual<G>>, id: &str) -> (r: Option<usize>)
    ensures
        match r {
            Some(i) => i < v.len() && i == ind_index(inds_view(v@), id@),
            None => ind_index(inds_view(v@), id@) == -1,
        },
{
    let ghost ids = ind_ids(inds_view(v@));
    let mut i: usize = 0;
    while i < v.len()
        invariant
            i <= v.len(),
            ids == ind_ids(inds_view(v@)),
            ids.len() == v.len(),
            forall|k: int| 0 <= k < i ==> ids[k] != id@,
        decreases v.len() - i,
    {
        if str_eq(v[i].id.as_str(), id) {
            proof {
                lemma_first_index(ids, id@, i as int);
            }
            return Some(i);
        }
        i = i + 1;
    }
    proof {
        lemma_first_index_none(ids, id@);
    }
    None
}

/// Position of the family with ID `id` in `v`.
pub fn find_family<G>(v: &Vec<Family<G>>, id: &str) -> (r: Option<usize>)
    ensures
        match r {
            Some(i) => i < v.len() && i == fam_index(fams_view(v@), id@),
            None => fam_index(fams_view(v@), id@) == -1,
        },
{
    let ghost ids = fam_ids(fams_view(v@));
    let mut i: usize = 0;
    while i < v.len()
        invariant
            i <= v.len(),
            ids == fam_ids(fams_view(v@)),
            ids.len() == v.len(),
            forall|k: int| 0 <= k < i ==> ids[k] != id@,
        decreases v.len() - i,
    {
        if str_eq(v[i].id.as_str(), id) {
            proof {
                lemma_first_index(ids, id@, i as int);
            }
            return Some(i);
        }
        i = i + 1;
    }
    proof {
        lemma_first_index_none(ids, id@);
    }
    None
}

impl<G> Genrep<G> {
    pub fn get_individual(&self, id: &str) -> (r: Option<&Individual<G>>)
        ensures
            match r {
                Some(x) => lookup_ind(self@.individuals, id@) == Some(x@),
                None => lookup_ind(self@.individuals, id@) is None,
            },
    {
        match find_individual(&self.individuals, id) {
            Some(i) => Some(&self.individuals[i]),
            None => None,
        }
    }

    pub fn get_family(&self, id: &str) -> (r: Option<&Family<G>>)
        ensures
            match r {
                Some(x) => lookup_fam(self@.families, id@) == Some(x@),
                None => lookup_fam(self@.families, id@) is None,
            },
    {
        match find_family(&self.families, id) {
            Some(i) => Some(&self.families[i]),
            None => None,
        }
    }
}

/// Insert-or-replace an individual by ID.
pub fn insert_individual<G>(v: &mut Vec<Individual<G>>, x: Individual<G>)
    ensures
        inds_view(final(v)@) == put_ind(inds_view(old(v)@), x@),
{
    let ghost xv = x@;
    match find_individual(v, x.id.as_str()) {
        Some(i) => {
            v.set(i, x);
            assert(inds_view(v@) =~= put_ind(inds_view(old(v)@), xv));
        },
        None => {
            v.push(x);
            assert(inds_view(v@) =~= put_ind(inds_view(old(v)@), xv));
        },
    }
}

/// Insert-or-replace a family by ID.
pub fn insert_family<G>(v: &mut Vec<Family<G>>, x: Family<G>)
    ensures
        fams_view(final(v)@) == put_fam(fams_view(old(v)@), x@),
{
    let ghost xv = x@;
    match find_family(v, x.id.as_str()) {
        Some(i) => {
            v.set(i, x);
            assert(fams_view(v@) =~= put_fam(fams_view(old(v)@), xv));
        },
        None => {
            v.push(x);
            assert(fams_view(v@) =~= put_fam(fams_view(old(v)@), xv));
        },
    }
}

// ── lookup laws ──────────────────────────────────────────────────────────────

/// Replacing a record by one with the same ID changes only what that ID finds.
pub proof fn lemma_lookup_update<G>(s: Seq<IndividualV<G>>, i: int, v: IndividualV<G>, id: Seq<char>)
    requires
        0 <= i < s.len(),
        v.id == s[i].id,
    ensures
        lookup_ind(s.update(i, v), id) == (if ind_index(s, id) == i {
            Some(v)
        } else {
            lookup_ind(s, id)
        }),
{
    assert(ind_ids(s.update(i, v)) =~= ind_ids(s));
    lemma_first_index_bounds(ind_ids(s), id);
}

/// Appending a record with a new ID makes that ID find it and changes nothing else.
pub proof fn lemma_lookup_push<G>(s: Seq<IndividualV<G>>, v: IndividualV<G>, id: Seq<char>)
    requires
        ind_index(s, v.id) == -1,
    ensures
        lookup_ind(s.push(v), id) == (if id == v.id {
            Some(v)
        } else {
            lookup_ind(s, id)
        }),
{
    assert(ind_ids(s.push(v)) =~= ind_ids(s).push(v.id));
    lemma_first_index_bounds(ind_ids(s), v.id);
    lemma_first_index_push(ind_ids(s), v.id, id);
    lemma_first_index_bounds(ind_ids(s), id);
    if id == v.id {
        assert(ind_ids(s.push(v))[s.len() as int] == v.id);
    }
}

/// What a family ID finds after a record with that ID is replaced or added.
pub proof fn lemma_lookup_fam_update<G>(s: Seq<FamilyV<G>>, i: int, v: FamilyV<G>, id: Seq<char>)
    requires
        0 <= i < s.len(),
        v.id == s[i].id,
    ensures
        lookup_fam(s.update(i, v), id) == (if fam_index(s, id) == i {
            Some(v)
        } else {
            lookup_fam(s, id)
        }),
{
    assert(fam_ids(s.update(i, v)) =~= fam_ids(s));
    lemma_first_index_bounds(fam_ids(s), id);
}

pub proof fn lemma_lookup_fam_push<G>(s: Seq<FamilyV<G>>, v: FamilyV<G>, id: Seq<char>)
    requires
        fam_index(s, v.id) == -1,
    ensures
        lookup_fam(s.push(v), id) == (if id == v.id {
            Some(v)
        } else {
            lookup_fam(s, id)
        }),
{
    assert(fam_ids(s.push(v)) =~= fam_ids(s).push(v.id));
    lemma_first_index_bounds(fam_ids(s), v.id);
    lemma_first_index_push(fam_ids(s), v.id, id);
    lemma_first_index_bounds(fam_ids(s), id);
    if id == v.id {
        assert(fam_ids(s.push(v))[s.len() as int] == v.id);
    }
}

} // verus!

verus! {

// ── the invariant of a genealogy ────────────────────────────────────────────

/// No two individuals share an ID.
pub open spec fn ids_unique<G>(s: Seq<IndividualV<G>>) -> bool {
    forall|i: int, j: int| 0 <= i < j < s.len() ==> (#[trigger] s[i]).id != (#[trigger] s[j]).id
}

/// No two families share an ID.
pub open spec fn fam_ids_unique<G>(s: Seq<FamilyV<G>>) -> bool {
    forall|i: int, j: int| 0 <= i < j < s.len() ==> (#[trigger] s[i]).id != (#[trigger] s[j]).id
}

/// A genealogy keyed by ID: no individual ID and no family ID occurs twice.
pub open spec fn genrep_wf<G>(g: GenrepV<G>) -> bool {
    ids_unique(g.individuals) && fam_ids_unique(g.families)
}

/// Replacing the record with an ID, or adding it when absent, keeps IDs distinct.
pub proof fn lemma_put_ind_unique<G>(s: Seq<IndividualV<G>>, x: IndividualV<G>)
    requires
        ids_unique(s),
    ensures
        ids_unique(put_ind(s, x)),
{
    lemma_first_index_bounds(ind_ids(s), x.id);
    let i = ind_index(s, x.id);
    if 0 <= i < s.len() {
        assert(ind_ids(s)[i] == x.id);
    } else {
        assert forall|k: int| 0 <= k < s.len() implies s[k].id != x.id by {
            assert(ind_ids(s)[k] == s[k].id);
        }
    }
}

/// The same for families.
pub proof fn lemma_put_fam_unique<G>(s: Seq<FamilyV<G>>, x: FamilyV<G>)
    requires
        fam_ids_unique(s),
    ensures
        fam_ids_unique(put_fam(s, x)),
{
    lemma_first_index_bounds(fam_ids(s), x.id);
    let i = fam_index(s, x.id);
    if 0 <= i < s.len() {
        assert(fam_ids(s)[i] == x.id);
    } else {
        assert forall|k: int| 0 <= k < s.len() implies s[k].id != x.id by {
            assert(fam_ids(s)[k] == s[k].id);
        }
    }
}

/// Individuals with the same IDs in the same order keep IDs distinct.
pub proof fn lemma_same_ids_unique<G>(a: Seq<IndividualV<G>>, b: Seq<IndividualV<G>>)
    requires
        ids_unique(a),
        ind_ids(a) == ind_ids(b),
    ensures
        ids_unique(b),
{
    assert(a.len() == ind_ids(a).len() && b.len() == ind_ids(b).len());
    assert forall|i: int, j: int| 0 <= i < j < b.len() implies (#[trigger] b[i]).id != (#[trigger] b[j]).id by {
        assert(ind_ids(a)[i] == ind_ids(b)[i] && ind_ids(a)[j] == ind_ids(b)[j]);
    }
}

} // verus!
