//! Merging a further GEDCOM into the main one, through an alias file.
//!
//! Each further ID is renamed: to its alias in the main GEDCOM when the alias
//! file names one, otherwise by inserting a prefix letter after its first
//! character (`I45` → `IB45`). Records present in both are then combined: the
//! main record's fields win, gaps are filled from the further record, and family
//! links and notes are unioned.

use vstd::prelude::*;
use crate::genrep::{
    Family, FamilyV, Genrep, GenrepV, Individual, IndividualV, fam_index, fams_view, find_family,
    lookup_fam,
    ind_index, lookup_ind,
    find_individual, first_index, inds_view, insert_family, insert_individual,
    lemma_first_index, lemma_first_index_none, opt_str, put_fam, put_ind, str_eq, strs,
    fam_ids, ind_ids, lemma_first_index_bounds, ids_unique, fam_ids_unique, genrep_wf, lemma_put_ind_unique, lemma_put_fam_unique,
};
use crate::parser::contains_string;
use crate::parser::line::or_empty;
use crate::text::{
    chars_of, split_on, split_on_of, string_of, tokens, tokens_of, trim, trim_of, vec_eq, vview,
};

verus! {

// ── alias maps ───────────────────────────────────────────────────────────────

/// A map from IDs to IDs, kept as (key, value) pairs with distinct keys in insertion order.
pub struct AliasMap {
    pub entries: Vec<(String, String)>,
}

pub open spec fn pairs_view(v: Seq<(String, String)>) -> Seq<(Seq<char>, Seq<char>)> {
    v.map_values(|p: (String, String)| (p.0@, p.1@))
}

pub open spec fn keys_of(s: Seq<(Seq<char>, Seq<char>)>) -> Seq<Seq<char>> {
    s.map_values(|p: (Seq<char>, Seq<char>)| p.0)
}

impl View for AliasMap {
    type V = Seq<(Seq<char>, Seq<char>)>;

    open spec fn view(&self) -> Seq<(Seq<char>, Seq<char>)> {
        pairs_view(self.entries@)
    }
}

/// The value stored under `k`, if any.
pub open spec fn map_get(m: Seq<(Seq<char>, Seq<char>)>, k: Seq<char>) -> Option<Seq<char>> {
    let i = first_index(keys_of(m), k);
    if 0 <= i < m.len() {
        Some(m[i].1)
    } else {
        None
    }
}

/// Map insertion: replace the value under `k`, or add the pair at the end.
pub open spec fn map_put(m: Seq<(Seq<char>, Seq<char>)>, k: Seq<char>, v: Seq<char>) -> Seq<
    (Seq<char>, Seq<char>),
> {
    let i = first_index(keys_of(m), k);
    if 0 <= i < m.len() {
        m.update(i, (k, v))
    } else {
        m.push((k, v))
    }
}

impl AliasMap {
    pub fn new() -> (r: AliasMap)
        ensures
            r@ == Seq::<(Seq<char>, Seq<char>)>::empty(),
    {
        let r = AliasMap { entries: Vec::new() };
        assert(r@ =~= Seq::<(Seq<char>, Seq<char>)>::empty());
        r
    }

    fn position(&self, k: &str) -> (r: Option<usize>)
        ensures
            match r {
                Some(i) => i < self@.len() && i == first_index(keys_of(self@), k@),
                None => first_index(keys_of(self@), k@) == -1,
            },
    {
        let ghost ks = keys_of(self@);
        let mut i: usize = 0;
        while i < self.entries.len()
            invariant
                i <= self.entries.len(),
                ks == keys_of(self@),
                ks.len() == self.entries.len(),
                forall|j: int| 0 <= j < i ==> ks[j] != k@,
            decreases self.entries.len() - i,
        {
            if str_eq(self.entries[i].0.as_str(), k) {
                proof {
                    lemma_first_index(ks, k@, i as int);
                }
                return Some(i);
            }
            i = i + 1;
        }
        proof {
            lemma_first_index_none(ks, k@);
        }
        None
    }

    /// The value stored under `k`.
    pub fn get(&self, k: &str) -> (r: Option<&String>)
        ensures
            match r {
                Some(v) => map_get(self@, k@) == Some(v@),
                None => map_get(self@, k@) is None,
            },
    {
        match self.position(k) {
            Some(i) => Some(&self.entries[i].1),
            None => None,
        }
    }

    /// Insert or replace the value under `k`.
    pub fn insert(&mut self, k: String, v: String)
        ensures
            final(self)@ == map_put(old(self)@, k@, v@),
    {
        let ghost kv = k@;
        let ghost vv = v@;
        match self.position(k.as_str()) {
            Some(i) => {
                self.entries.set(i, (k, v));
                assert(self@ =~= map_put(old(self)@, kv, vv));
            },
            None => {
                self.entries.push((k, v));
                assert(self@ =~= map_put(old(self)@, kv, vv));
            },
        }
    }

    pub fn len(&self) -> (r: usize)
        ensures
            r == self@.len(),
    {
        self.entries.len()
    }
}

// ── alias files ──────────────────────────────────────────────────────────────

/// A line of an alias file that was ignored because it holds a single field.
pub struct AliasLineIgnored {
    pub line: String,
}

pub open spec fn ignored_view(v: Seq<AliasLineIgnored>) -> Seq<Seq<char>> {
    v.map_values(|x: AliasLineIgnored| x.line@)
}

/// One line of an alias file: trimmed; blank lines and `#` comments are skipped;
/// the first two whitespace-separated fields are (main ID, further ID).
#[verifier::opaque]
pub open spec fn alias_line(m: Seq<(Seq<char>, Seq<char>)>, w: Seq<Seq<char>>, raw: Seq<char>) -> (
    Seq<(Seq<char>, Seq<char>)>,
    Seq<Seq<char>>,
) {
    let line = trim(raw);
    let fields = tokens(line, true);
    if line.len() == 0 || line[0] == '#' || fields.len() == 0 {
        (m, w)
    } else if fields.len() == 1 {
        (m, w.push(line))
    } else {
        (map_put(m, fields[1], fields[0]), w)
    }
}

pub open spec fn alias_lines(lines: Seq<Seq<char>>) -> (Seq<(Seq<char>, Seq<char>)>, Seq<Seq<char>>)
    decreases lines.len(),
{
    if lines.len() == 0 {
        (seq![], seq![])
    } else {
        let r = alias_lines(lines.drop_last());
        alias_line(r.0, r.1, lines.last())
    }
}

/// Alias file text → map further ID → main ID, and the lines ignored for having one field.
pub open spec fn spec_alias(content: Seq<char>) -> (Seq<(Seq<char>, Seq<char>)>, Seq<Seq<char>>) {
    alias_lines(split_on(content, '\n'))
}

fn alias_line_ex(map: &mut AliasMap, ignored: &mut Vec<AliasLineIgnored>, raw: &Vec<char>)
    ensures
        (final(map)@, ignored_view(final(ignored)@)) == alias_line(
            old(map)@,
            ignored_view(old(ignored)@),
            raw@,
        ),
{
    reveal(alias_line);
    let line = trim_of(raw);
    let fields = tokens_of(&line, true);
    assert(vview(fields@).len() == fields.len());
    if line.len() == 0 || line[0] == '#' || fields.len() == 0 {
    } else if fields.len() == 1 {
        let ghost before = ignored_view(ignored@);
        ignored.push(AliasLineIgnored { line: string_of(&line) });
        assert(ignored_view(ignored@) =~= before.push(line@));
    } else {
        map.insert(string_of(&fields[1]), string_of(&fields[0]));
    }
}

pub fn parse_alias_content_diag(content: &str) -> (r: (AliasMap, Vec<AliasLineIgnored>))
    ensures
        r.0@ == spec_alias(content@).0,
        ignored_view(r.1@) == spec_alias(content@).1,
{
    let chars = chars_of(content);
    let lines = split_on_of(&chars, '\n');
    let mut map = AliasMap::new();
    let mut ignored: Vec<AliasLineIgnored> = Vec::new();
    let mut i: usize = 0;
    assert(vview(lines@).take(0) =~= seq![]);
    assert(ignored_view(ignored@) =~= seq![]);
    while i < lines.len()
        invariant
            i <= lines.len(),
            (map@, ignored_view(ignored@)) == alias_lines(
                vview(lines@).take(i as int),
            ),
        decreases lines.len() - i,
    {
        assert(vview(lines@).take(i + 1).drop_last() =~= vview(lines@).take(i as int));
        alias_line_ex(&mut map, &mut ignored, &lines[i]);
        i = i + 1;
    }
    assert(vview(lines@).take(lines.len() as int) =~= vview(lines@));
    (map, ignored)
}

/// Parse alias file text into a map: further_gedcom_id → main_gedcom_id.
///
/// Format: two whitespace-separated ID fields per line; lines starting with
/// `#` or blank lines are ignored; anything beyond the second field is ignored.
pub fn parse_alias_content(content: &str) -> (r: AliasMap)
    ensures
        r@ == spec_alias(content@).0,
{
    parse_alias_content_diag(content).0
}

// ── renaming ─────────────────────────────────────────────────────────────────

/// The prefix letter inserted after the first character.
pub open spec fn spec_prefix_id(id: Seq<char>, prefix: char) -> Seq<char> {
    if id.len() == 0 {
        seq![prefix]
    } else {
        seq![id[0], prefix] + id.drop_first()
    }
}

/// The prefix letter of the further file at `index` (counting from 0): `B` for the
/// first further file, `C` for the second, … `Z` for the 25th; none after that.
pub fn further_prefix(index: usize) -> (r: Option<char>)
    ensures
        r == (if index < 25 {
            Some((66 + index) as char)
        } else {
            None::<char>
        }),
{
    if index < 25 {
        let b: u8 = 66 + index as u8;
        Some(b as char)
    } else {
        None
    }
}

/// Insert a prefix letter after the first character of an ID.
/// `"I123"` with prefix `'B'` → `"IB123"`. Works for any non-empty string.
pub fn prefix_id(id: &str, prefix: char) -> (r: String)
    ensures
        r@ == spec_prefix_id(id@, prefix),
{
    let c = chars_of(id);
    let mut out: Vec<char> = Vec::new();
    if c.len() == 0 {
        out.push(prefix);
        assert(out@ =~= seq![prefix]);
    } else {
        out.push(c[0]);
        out.push(prefix);
        let mut i: usize = 1;
        while i < c.len()
            invariant
                1 <= i <= c.len(),
                out@ == seq![c@[0], prefix] + c@.subrange(1, i as int),
            decreases c.len() - i,
        {
            out.push(c[i]);
            i = i + 1;
            assert(out@ =~= seq![c@[0], prefix] + c@.subrange(1, i as int));
        }
        assert(c@.subrange(1, c.len() as int) =~= c@.drop_first());
    }
    string_of(&out)
}

pub open spec fn spec_remap_id(id: Seq<char>, alias: Seq<(Seq<char>, Seq<char>)>, prefix: char) -> Seq<
    char,
> {
    match map_get(alias, id) {
        Some(a) => a,
        None => spec_prefix_id(id, prefix),
    }
}

/// Remap a single ID: look up in the alias map first; otherwise insert the prefix letter.
pub fn remap_id(id: &str, alias: &AliasMap, prefix: char) -> (r: String)
    ensures
        r@ == spec_remap_id(id@, alias@, prefix),
{
    match alias.get(id) {
        Some(a) => a.clone(),
        None => prefix_id(id, prefix),
    }
}

pub open spec fn remap_all(v: Seq<Seq<char>>, alias: Seq<(Seq<char>, Seq<char>)>, prefix: char) -> Seq<
    Seq<char>,
> {
    v.map_values(|x: Seq<char>| spec_remap_id(x, alias, prefix))
}

pub open spec fn remap_opt(o: Option<Seq<char>>, alias: Seq<(Seq<char>, Seq<char>)>, prefix: char) -> Option<
    Seq<char>,
> {
    match o {
        Some(x) => Some(spec_remap_id(x, alias, prefix)),
        None => None,
    }
}

pub open spec fn remap_ind(x: IndividualV<()>, alias: Seq<(Seq<char>, Seq<char>)>, prefix: char) -> IndividualV<()> {
    IndividualV {
        id: spec_remap_id(x.id, alias, prefix),
        fams: remap_all(x.fams, alias, prefix),
        famc: remap_all(x.famc, alias, prefix),
        ..x
    }
}

pub open spec fn remap_fam(x: FamilyV<()>, alias: Seq<(Seq<char>, Seq<char>)>, prefix: char) -> FamilyV<()> {
    FamilyV {
        id: spec_remap_id(x.id, alias, prefix),
        husband_id: remap_opt(x.husband_id, alias, prefix),
        wife_id: remap_opt(x.wife_id, alias, prefix),
        children_ids: remap_all(x.children_ids, alias, prefix),
        ..x
    }
}

/// Remapped individuals, stored by their new IDs (a later record with the same new ID replaces an earlier one).
pub open spec fn remap_inds(v: Seq<IndividualV<()>>, alias: Seq<(Seq<char>, Seq<char>)>, prefix: char) -> Seq<
    IndividualV<()>,
>
    decreases v.len(),
{
    if v.len() == 0 {
        seq![]
    } else {
        put_ind(remap_inds(v.drop_last(), alias, prefix), remap_ind(v.last(), alias, prefix))
    }
}

pub open spec fn remap_fams(v: Seq<FamilyV<()>>, alias: Seq<(Seq<char>, Seq<char>)>, prefix: char) -> Seq<
    FamilyV<()>,
>
    decreases v.len(),
{
    if v.len() == 0 {
        seq![]
    } else {
        put_fam(remap_fams(v.drop_last(), alias, prefix), remap_fam(v.last(), alias, prefix))
    }
}

/// remapped ID → original further ID, for individuals.
pub open spec fn orig_ids(v: Seq<IndividualV<()>>, alias: Seq<(Seq<char>, Seq<char>)>, prefix: char) -> Seq<
    (Seq<char>, Seq<char>),
>
    decreases v.len(),
{
    if v.len() == 0 {
        seq![]
    } else {
        map_put(
            orig_ids(v.drop_last(), alias, prefix),
            spec_remap_id(v.last().id, alias, prefix),
            v.last().id,
        )
    }
}

fn remap_strings(v: &Vec<String>, alias: &AliasMap, prefix: char) -> (r: Vec<String>)
    ensures
        strs(r@) == remap_all(strs(v@), alias@, prefix),
{
    let mut r: Vec<String> = Vec::new();
    let mut i: usize = 0;
    while i < v.len()
        invariant
            i <= v.len(),
            strs(r@) == remap_all(strs(v@).take(i as int), alias@, prefix),
        decreases v.len() - i,
    {
        let ghost before = strs(r@);
        r.push(remap_id(v[i].as_str(), alias, prefix));
        assert(strs(r@) =~= before.push(spec_remap_id(v@[i as int]@, alias@, prefix)));
        assert(remap_all(strs(v@).take(i + 1), alias@, prefix) =~= remap_all(
            strs(v@).take(i as int),
            alias@,
            prefix,
        ).push(spec_remap_id(v@[i as int]@, alias@, prefix)));
        i = i + 1;
    }
    assert(strs(v@).take(v.len() as int) =~= strs(v@));
    r
}

fn remap_option(o: &Option<String>, alias: &AliasMap, prefix: char) -> (r: Option<String>)
    ensures
        opt_str(r) == remap_opt(opt_str(*o), alias@, prefix),
{
    match o {
        Some(x) => Some(remap_id(x.as_str(), alias, prefix)),
        None => None,
    }
}

fn remap_individual(ind: Individual, alias: &AliasMap, prefix: char) -> (r: Individual)
    ensures
        r@ == remap_ind(ind@, alias@, prefix),
{
    let mut ind = ind;
    ind.id = remap_id(ind.id.as_str(), alias, prefix);
    ind.fams = remap_strings(&ind.fams, alias, prefix);
    ind.famc = remap_strings(&ind.famc, alias, prefix);
    ind
}

fn remap_family(fam: Family, alias: &AliasMap, prefix: char) -> (r: Family)
    ensures
        r@ == remap_fam(fam@, alias@, prefix),
{
    let mut fam = fam;
    fam.id = remap_id(fam.id.as_str(), alias, prefix);
    fam.husband_id = remap_option(&fam.husband_id, alias, prefix);
    fam.wife_id = remap_option(&fam.wife_id, alias, prefix);
    fam.children_ids = remap_strings(&fam.children_ids, alias, prefix);
    fam
}

proof fn lemma_inds_drop_first(a: Seq<Individual>, b: Seq<Individual>)
    requires
        a.len() > 0,
        b == a.remove(0),
    ensures
        inds_view(b) == inds_view(a).drop_first(),
        inds_view(a)[0] == a[0]@,
{
    assert(inds_view(b) =~= inds_view(a).drop_first());
}

proof fn lemma_fams_drop_first(a: Seq<Family>, b: Seq<Family>)
    requires
        a.len() > 0,
        b == a.remove(0),
    ensures
        fams_view(b) == fams_view(a).drop_first(),
        fams_view(a)[0] == a[0]@,
{
    assert(fams_view(b) =~= fams_view(a).drop_first());
}

fn remap_individuals(inds: Vec<Individual>, alias: &AliasMap, prefix: char) -> (r: (
    Vec<Individual>,
    AliasMap,
))
    ensures
        inds_view(r.0@) == remap_inds(inds_view(inds@), alias@, prefix),
        r.1@ == orig_ids(inds_view(inds@), alias@, prefix),
{
    let ghost all = inds_view(inds@);
    let mut rest = inds;
    let mut out: Vec<Individual> = Vec::new();
    let mut origs = AliasMap::new();
    let ghost mut k: int = 0;
    assert(inds_view(out@) =~= seq![]);
    assert(all.take(0) =~= seq![]);
    assert(all.skip(0) =~= all);
    while rest.len() > 0
        invariant
            0 <= k <= all.len(),
            inds_view(rest@) == all.skip(k),
            inds_view(out@) == remap_inds(all.take(k), alias@, prefix),
            origs@ == orig_ids(all.take(k), alias@, prefix),
        decreases rest.len(),
    {
        assert(inds_view(rest@).len() == rest.len());
        let ghost before = rest@;
        let ind = rest.remove(0);
        proof {
            lemma_inds_drop_first(before, rest@);
            assert(all.skip(k).drop_first() =~= all.skip(k + 1));
            assert(all.take(k + 1).drop_last() =~= all.take(k));
            assert(all.take(k + 1).last() == ind@);
        }
        let new_id = remap_id(ind.id.as_str(), alias, prefix);
        let orig = ind.id.clone();
        origs.insert(new_id, orig);
        let ind = remap_individual(ind, alias, prefix);
        insert_individual(&mut out, ind);
        proof {
            k = k + 1;
        }
    }
    assert(all.take(k) =~= all);
    (out, origs)
}

fn remap_families(fams: Vec<Family>, alias: &AliasMap, prefix: char) -> (r: Vec<Family>)
    ensures
        fams_view(r@) == remap_fams(fams_view(fams@), alias@, prefix),
{
    let ghost all = fams_view(fams@);
    let mut rest = fams;
    let mut out: Vec<Family> = Vec::new();
    let ghost mut k: int = 0;
    assert(fams_view(out@) =~= seq![]);
    assert(all.take(0) =~= seq![]);
    assert(all.skip(0) =~= all);
    while rest.len() > 0
        invariant
            0 <= k <= all.len(),
            fams_view(rest@) == all.skip(k),
            fams_view(out@) == remap_fams(all.take(k), alias@, prefix),
        decreases rest.len(),
    {
        assert(fams_view(rest@).len() == rest.len());
        let ghost before = rest@;
        let fam = rest.remove(0);
        proof {
            lemma_fams_drop_first(before, rest@);
            assert(all.skip(k).drop_first() =~= all.skip(k + 1));
            assert(all.take(k + 1).drop_last() =~= all.take(k));
            assert(all.take(k + 1).last() == fam@);
        }
        let fam = remap_family(fam, alias, prefix);
        insert_family(&mut out, fam);
        proof {
            k = k + 1;
        }
    }
    assert(all.take(k) =~= all);
    out
}

/// Remap all IDs in a further `Genrep` — both the record's own ID and all cross-references.
///
/// Returns the remapped `Genrep` and a map of `remapped_id → original_further_id` for
/// individuals (used to reconstruct the original ID in warning messages).
pub fn remap_genrep(genrep: Genrep, alias: &AliasMap, prefix: char) -> (r: (Genrep, AliasMap))
    ensures
        r.0@.individuals == remap_inds(genrep@.individuals, alias@, prefix),
        r.0@.families == remap_fams(genrep@.families, alias@, prefix),
        r.0@.first_individual_id == genrep@.first_individual_id,
        r.1@ == orig_ids(genrep@.individuals, alias@, prefix),
        genrep_wf(r.0@),
{
    let Genrep { individuals, families, first_individual_id } = genrep;
    let (inds, origs) = remap_individuals(individuals, alias, prefix);
    let fams = remap_families(families, alias, prefix);
    proof {
        lemma_remap_inds_unique(genrep@.individuals, alias@, prefix);
        lemma_remap_fams_unique(genrep@.families, alias@, prefix);
    }
    (Genrep { individuals: inds, families: fams, first_individual_id }, origs)
}

// ── merging ──────────────────────────────────────────────────────────────────

/// A condition noticed while merging.
pub enum MergeWarning {
    /// Both records of an aliased individual have a given name, and the trimmed given
    /// names or the trimmed surnames (a missing surname counting as empty) differ.
    NameMismatch {
        main_file: String,
        id: String,
        main_given: String,
        main_surname: String,
        further_file: String,
        further_id: String,
        further_given: String,
        further_surname: String,
    },
}

pub struct MergeWarningV {
    pub main_file: Seq<char>,
    pub id: Seq<char>,
    pub main_given: Seq<char>,
    pub main_surname: Seq<char>,
    pub further_file: Seq<char>,
    pub further_id: Seq<char>,
    pub further_given: Seq<char>,
    pub further_surname: Seq<char>,
}

impl View for MergeWarning {
    type V = MergeWarningV;

    open spec fn view(&self) -> MergeWarningV {
        match self {
            MergeWarning::NameMismatch {
                main_file,
                id,
                main_given,
                main_surname,
                further_file,
                further_id,
                further_given,
                further_surname,
            } => MergeWarningV {
                main_file: main_file@,
                id: id@,
                main_given: main_given@,
                main_surname: main_surname@,
                further_file: further_file@,
                further_id: further_id@,
                further_given: further_given@,
                further_surname: further_surname@,
            },
        }
    }
}

pub open spec fn merge_warnings_view(v: Seq<MergeWarning>) -> Seq<MergeWarningV> {
    v.map_values(|w: MergeWarning| w@)
}

/// The main value when it is present, otherwise the further one.
pub open spec fn fill<T>(main: Option<T>, further: Option<T>) -> Option<T> {
    if main is Some {
        main
    } else {
        further
    }
}

/// `a` followed by the items of `b` that are not yet present, each taken once, in order.
pub open spec fn union_links(a: Seq<Seq<char>>, b: Seq<Seq<char>>) -> Seq<Seq<char>>
    decreases b.len(),
{
    if b.len() == 0 {
        a
    } else {
        let r = union_links(a, b.drop_last());
        if r.contains(b.last()) {
            r
        } else {
            r.push(b.last())
        }
    }
}

/// An aliased individual: gaps of the main record filled, links and notes unioned.
pub open spec fn merge_ind(m: IndividualV<()>, f: IndividualV<()>) -> IndividualV<()> {
    IndividualV {
        given: fill(m.given, f.given),
        surname: fill(m.surname, f.surname),
        sex: fill(m.sex, f.sex),
        birth: fill(m.birth, f.birth),
        death: fill(m.death, f.death),
        alt_name: fill(m.alt_name, f.alt_name),
        name_heb: fill(m.name_heb, f.name_heb),
        living: fill(m.living, f.living),
        fams: union_links(m.fams, f.fams),
        famc: union_links(m.famc, f.famc),
        notes: m.notes + f.notes,
        ..m
    }
}

/// An aliased family: gaps of the main record filled, children and notes unioned.
pub open spec fn merge_fam(m: FamilyV<()>, f: FamilyV<()>) -> FamilyV<()> {
    FamilyV {
        husband_id: fill(m.husband_id, f.husband_id),
        wife_id: fill(m.wife_id, f.wife_id),
        marriage: fill(m.marriage, f.marriage),
        jmar: fill(m.jmar, f.jmar),
        children_ids: union_links(m.children_ids, f.children_ids),
        notes: m.notes + f.notes,
        ..m
    }
}

/// Whether two records of one individual disagree on the name.
pub open spec fn name_mismatch(m: IndividualV<()>, f: IndividualV<()>) -> bool {
    &&& m.given is Some
    &&& f.given is Some
    &&& (trim(m.given.unwrap()) != trim(f.given.unwrap()) || trim(or_empty(m.surname)) != trim(
        or_empty(f.surname),
    ))
}

pub open spec fn mismatch_warning(
    m: IndividualV<()>,
    f: IndividualV<()>,
    main_file: Seq<char>,
    further_file: Seq<char>,
    origs: Seq<(Seq<char>, Seq<char>)>,
) -> MergeWarningV {
    MergeWarningV {
        main_file,
        id: f.id,
        main_given: m.given.unwrap(),
        main_surname: or_empty(m.surname),
        further_file,
        further_id: match map_get(origs, f.id) {
            Some(o) => o,
            None => f.id,
        },
        further_given: f.given.unwrap(),
        further_surname: or_empty(f.surname),
    }
}

/// One further individual merged into the main individuals, with the warnings so far.
pub open spec fn merge_ind_step(
    acc: (Seq<IndividualV<()>>, Seq<MergeWarningV>),
    f: IndividualV<()>,
    main_file: Seq<char>,
    further_file: Seq<char>,
    origs: Seq<(Seq<char>, Seq<char>)>,
) -> (Seq<IndividualV<()>>, Seq<MergeWarningV>) {
    let (m, w) = acc;
    let i = ind_index(m, f.id);
    if 0 <= i < m.len() {
        (
            m.update(i, merge_ind(m[i], f)),
            if name_mismatch(m[i], f) {
                w.push(mismatch_warning(m[i], f, main_file, further_file, origs))
            } else {
                w
            },
        )
    } else {
        (m.push(f), w)
    }
}

pub open spec fn merge_inds(
    main: Seq<IndividualV<()>>,
    further: Seq<IndividualV<()>>,
    main_file: Seq<char>,
    further_file: Seq<char>,
    origs: Seq<(Seq<char>, Seq<char>)>,
) -> (Seq<IndividualV<()>>, Seq<MergeWarningV>)
    decreases further.len(),
{
    if further.len() == 0 {
        (main, seq![])
    } else {
        merge_ind_step(
            merge_inds(main, further.drop_last(), main_file, further_file, origs),
            further.last(),
            main_file,
            further_file,
            origs,
        )
    }
}

pub open spec fn merge_fam_step(m: Seq<FamilyV<()>>, f: FamilyV<()>) -> Seq<FamilyV<()>> {
    let i = fam_index(m, f.id);
    if 0 <= i < m.len() {
        m.update(i, merge_fam(m[i], f))
    } else {
        m.push(f)
    }
}

pub open spec fn merge_fams(main: Seq<FamilyV<()>>, further: Seq<FamilyV<()>>) -> Seq<FamilyV<()>>
    decreases further.len(),
{
    if further.len() == 0 {
        main
    } else {
        merge_fam_step(merge_fams(main, further.drop_last()), further.last())
    }
}

fn union_into(a: &mut Vec<String>, b: Vec<String>)
    ensures
        strs(final(a)@) == union_links(strs(old(a)@), strs(b@)),
{
    let mut i: usize = 0;
    assert(strs(b@).take(0) =~= seq![]);
    while i < b.len()
        invariant
            i <= b.len(),
            strs(a@) == union_links(strs(old(a)@), strs(b@).take(i as int)),
        decreases b.len() - i,
    {
        assert(strs(b@).take(i + 1).drop_last() =~= strs(b@).take(i as int));
        assert(strs(b@).take(i + 1).last() == b@[i as int]@);
        if !contains_string(a, &b[i]) {
            let ghost before = strs(a@);
            a.push(b[i].clone());
            assert(strs(a@) =~= before.push(b@[i as int]@));
        }
        i = i + 1;
    }
    assert(strs(b@).take(b.len() as int) =~= strs(b@));
}

fn append_notes(a: &mut Vec<String>, b: Vec<String>)
    ensures
        strs(final(a)@) == strs(old(a)@) + strs(b@),
{
    let ghost bv = b@;
    let mut b = b;
    a.append(&mut b);
    assert(strs(a@) =~= strs(old(a)@) + strs(bv));
}

fn trimmed_differ(a: &str, b: &str) -> (r: bool)
    ensures
        r == (trim(a@) != trim(b@)),
{
    let x = trim_of(&chars_of(a));
    let y = trim_of(&chars_of(b));
    !vec_eq(&x, &y)
}

fn str_or_empty(o: &Option<String>) -> (r: String)
    ensures
        r@ == or_empty(opt_str(*o)),
{
    match o {
        Some(s) => s.clone(),
        None => string_of(&Vec::new()),
    }
}

fn check_names(
    mi: &Individual,
    fi: &Individual,
    main_file: &str,
    further_file: &str,
    origs: &AliasMap,
) -> (r: Option<MergeWarning>)
    ensures
        match r {
            Some(w) => name_mismatch(mi@, fi@) && w@ == mismatch_warning(
                mi@,
                fi@,
                main_file@,
                further_file@,
                origs@,
            ),
            None => !name_mismatch(mi@, fi@),
        },
{
    match (&mi.given, &fi.given) {
        (Some(mg), Some(fg)) => {
            let ms = str_or_empty(&mi.surname);
            let fs = str_or_empty(&fi.surname);
            if trimmed_differ(mg.as_str(), fg.as_str()) || trimmed_differ(ms.as_str(), fs.as_str()) {
                let further_id = match origs.get(fi.id.as_str()) {
                    Some(o) => o.clone(),
                    None => fi.id.clone(),
                };
                Some(
                    MergeWarning::NameMismatch {
                        main_file: string_of(&chars_of(main_file)),
                        id: fi.id.clone(),
                        main_given: mg.clone(),
                        main_surname: ms,
                        further_file: string_of(&chars_of(further_file)),
                        further_id,
                        further_given: fg.clone(),
                        further_surname: fs,
                    },
                )
            } else {
                None
            }
        },
        _ => None,
    }
}

fn merge_individual(mi: Individual, fi: Individual) -> (r: Individual)
    ensures
        r@ == merge_ind(mi@, fi@),
{
    let mut mi = mi;
    let Individual {
        given, surname, sex, birth, death, fams, famc, alt_name, name_heb, living, notes, ..
    } = fi;
    if mi.given.is_none() {
        mi.given = given;
    }
    if mi.surname.is_none() {
        mi.surname = surname;
    }
    if mi.sex.is_none() {
        mi.sex = sex;
    }
    if mi.birth.is_none() {
        mi.birth = birth;
    }
    if mi.death.is_none() {
        mi.death = death;
    }
    if mi.alt_name.is_none() {
        mi.alt_name = alt_name;
    }
    if mi.name_heb.is_none() {
        mi.name_heb = name_heb;
    }
    if mi.living.is_none() {
        mi.living = living;
    }
    union_into(&mut mi.fams, fams);
    union_into(&mut mi.famc, famc);
    append_notes(&mut mi.notes, notes);
    mi
}

fn merge_family(mf: Family, ff: Family) -> (r: Family)
    ensures
        r@ == merge_fam(mf@, ff@),
{
    let mut mf = mf;
    let Family { husband_id, wife_id, children_ids, marriage, jmar, notes, .. } = ff;
    if mf.husband_id.is_none() {
        mf.husband_id = husband_id;
    }
    if mf.wife_id.is_none() {
        mf.wife_id = wife_id;
    }
    if mf.marriage.is_none() {
        mf.marriage = marriage;
    }
    if mf.jmar.is_none() {
        mf.jmar = jmar;
    }
    union_into(&mut mf.children_ids, children_ids);
    append_notes(&mut mf.notes, notes);
    mf
}

proof fn lemma_remove_insert<T>(a: Seq<T>, i: int, x: T)
    requires
        0 <= i < a.len(),
    ensures
        a.remove(i).insert(i, x) == a.update(i, x),
{
    assert(a.remove(i).insert(i, x) =~= a.update(i, x));
}

proof fn lemma_inds_update(a: Seq<Individual>, i: int, x: Individual)
    requires
        0 <= i < a.len(),
    ensures
        inds_view(a.update(i, x)) == inds_view(a).update(i, x@),
{
    assert(inds_view(a.update(i, x)) =~= inds_view(a).update(i, x@));
}

proof fn lemma_fams_update(a: Seq<Family>, i: int, x: Family)
    requires
        0 <= i < a.len(),
    ensures
        fams_view(a.update(i, x)) == fams_view(a).update(i, x@),
{
    assert(fams_view(a.update(i, x)) =~= fams_view(a).update(i, x@));
}

fn merge_one_individual(
    inds: &mut Vec<Individual>,
    warnings: &mut Vec<MergeWarning>,
    fi: Individual,
    main_file: &str,
    further_file: &str,
    origs: &AliasMap,
)
    ensures
        (inds_view(final(inds)@), merge_warnings_view(final(warnings)@)) == merge_ind_step(
            (inds_view(old(inds)@), merge_warnings_view(old(warnings)@)),
            fi@,
            main_file@,
            further_file@,
            origs@,
        ),
{
    let ghost m = inds_view(inds@);
    let ghost w = merge_warnings_view(warnings@);
    let ghost f = fi@;
    match find_individual(inds, fi.id.as_str()) {
        Some(i) => {
            assert(m[i as int] == inds@[i as int]@);
            match check_names(&inds[i], &fi, main_file, further_file, origs) {
                Some(x) => {
                    warnings.push(x);
                },
                None => {},
            }
            assert(merge_warnings_view(warnings@) =~= merge_ind_step((m, w), f, main_file@, further_file@, origs@).1);
            let ghost s0 = inds@;
            let mi = inds.remove(i);
            let merged = merge_individual(mi, fi);
            let ghost mv = merged@;
            inds.insert(i, merged);
            proof {
                lemma_remove_insert(s0, i as int, inds@[i as int]);
                lemma_inds_update(s0, i as int, inds@[i as int]);
            }
        },
        None => {
            inds.push(fi);
            assert(inds_view(inds@) =~= m.push(f));
        },
    }
}

fn merge_one_family(fams: &mut Vec<Family>, ff: Family)
    ensures
        fams_view(final(fams)@) == merge_fam_step(fams_view(old(fams)@), ff@),
{
    let ghost m = fams_view(fams@);
    let ghost f = ff@;
    match find_family(fams, ff.id.as_str()) {
        Some(i) => {
            let ghost s0 = fams@;
            let mf = fams.remove(i);
            assert(m[i as int] == mf@);
            let merged = merge_family(mf, ff);
            fams.insert(i, merged);
            proof {
                lemma_remove_insert(s0, i as int, fams@[i as int]);
                lemma_fams_update(s0, i as int, fams@[i as int]);
            }
        },
        None => {
            fams.push(ff);
            assert(fams_view(fams@) =~= m.push(f));
        },
    }
}

/// Merge a remapped further `Genrep` into the main `Genrep`.
///
/// - **Aliased** individuals/families (ID already present in `main`): gaps in basic
///   fields are filled from `further`; `fams`/`famc`/`children_ids` and `notes` are
///   unioned. The main GEDCOM's non-`None` fields are never overwritten. A warning is
///   returned when both records have a name but the names differ.
/// - **New** individuals/families: inserted directly into `main`.
pub fn merge_into(
    main: &mut Genrep,
    further: Genrep,
    main_filename: &str,
    further_filename: &str,
    orig_ids: &AliasMap,
) -> (r: Vec<MergeWarning>)
    ensures
        (final(main)@.individuals, merge_warnings_view(r@)) == merge_inds(
            old(main)@.individuals,
            further@.individuals,
            main_filename@,
            further_filename@,
            orig_ids@,
        ),
        final(main)@.families == merge_fams(old(main)@.families, further@.families),
        final(main)@.first_individual_id == old(main)@.first_individual_id,
        genrep_wf(old(main)@) ==> genrep_wf(final(main)@),
{
    let ghost m0 = main@;
    let ghost all = further@.individuals;
    let Genrep { individuals, families, .. } = further;
    let mut warnings: Vec<MergeWarning> = Vec::new();
    let mut rest = individuals;
    let ghost mut k: int = 0;
    assert(merge_warnings_view(warnings@) =~= seq![]);
    assert(all.take(0) =~= seq![]);
    assert(all.skip(0) =~= all);
    while rest.len() > 0
        invariant
            0 <= k <= all.len(),
            inds_view(rest@) == all.skip(k),
            (inds_view(main.individuals@), merge_warnings_view(warnings@)) == merge_inds(
                m0.individuals,
                all.take(k),
                main_filename@,
                further_filename@,
                orig_ids@,
            ),
            fams_view(main.families@) == m0.families,
            opt_str(main.first_individual_id) == m0.first_individual_id,
        decreases rest.len(),
    {
        assert(inds_view(rest@).len() == rest.len());
        let ghost before = rest@;
        let fi = rest.remove(0);
        proof {
            lemma_inds_drop_first(before, rest@);
            assert(all.skip(k).drop_first() =~= all.skip(k + 1));
            assert(all.take(k + 1).drop_last() =~= all.take(k));
            assert(all.take(k + 1).last() == fi@);
        }
        merge_one_individual(
            &mut main.individuals,
            &mut warnings,
            fi,
            main_filename,
            further_filename,
            orig_ids,
        );
        proof {
            k = k + 1;
        }
    }
    assert(all.take(k) =~= all);
    let ghost fall = fams_view(families@);
    let mut rest = families;
    let ghost mut k: int = 0;
    assert(fall.take(0) =~= seq![]);
    assert(fall.skip(0) =~= fall);
    while rest.len() > 0
        invariant
            0 <= k <= fall.len(),
            fams_view(rest@) == fall.skip(k),
            fams_view(main.families@) == merge_fams(m0.families, fall.take(k)),
            opt_str(main.first_individual_id) == m0.first_individual_id,
            (inds_view(main.individuals@), merge_warnings_view(warnings@)) == merge_inds(
                m0.individuals,
                all,
                main_filename@,
                further_filename@,
                orig_ids@,
            ),
        decreases rest.len(),
    {
        assert(fams_view(rest@).len() == rest.len());
        let ghost before = rest@;
        let ff = rest.remove(0);
        proof {
            lemma_fams_drop_first(before, rest@);
            assert(fall.skip(k).drop_first() =~= fall.skip(k + 1));
            assert(fall.take(k + 1).drop_last() =~= fall.take(k));
            assert(fall.take(k + 1).last() == ff@);
        }
        merge_one_family(&mut main.families, ff);
        proof {
            k = k + 1;
        }
    }
    assert(fall.take(k) =~= fall);
    proof {
        if genrep_wf(m0) {
            lemma_merge_inds_unique(m0.individuals, all, main_filename@, further_filename@, orig_ids@);
            lemma_merge_fams_unique(m0.families, fall);
        }
    }
    warnings
}

// ── laws of merging ──────────────────────────────────────────────────────────

/// `b` keeps everything `a` has: present fields unchanged, links and notes kept.
pub open spec fn extends(a: IndividualV<()>, b: IndividualV<()>) -> bool {
    &&& b.id == a.id
    &&& (a.given is Some ==> b.given == a.given)
    &&& (a.surname is Some ==> b.surname == a.surname)
    &&& (a.sex is Some ==> b.sex == a.sex)
    &&& (a.birth is Some ==> b.birth == a.birth)
    &&& (a.death is Some ==> b.death == a.death)
    &&& (a.alt_name is Some ==> b.alt_name == a.alt_name)
    &&& (a.name_heb is Some ==> b.name_heb == a.name_heb)
    &&& (a.living is Some ==> b.living == a.living)
    &&& (forall|x: Seq<char>| #[trigger] a.fams.contains(x) ==> b.fams.contains(x))
    &&& (forall|x: Seq<char>| #[trigger] a.famc.contains(x) ==> b.famc.contains(x))
    &&& (forall|x: Seq<char>| #[trigger] a.notes.contains(x) ==> b.notes.contains(x))
}

/// `b` has every field, link and note that `f` has.
pub open spec fn covers(f: IndividualV<()>, b: IndividualV<()>) -> bool {
    &&& (f.given is Some ==> b.given is Some)
    &&& (f.surname is Some ==> b.surname is Some)
    &&& (f.sex is Some ==> b.sex is Some)
    &&& (f.birth is Some ==> b.birth is Some)
    &&& (f.death is Some ==> b.death is Some)
    &&& (f.alt_name is Some ==> b.alt_name is Some)
    &&& (f.name_heb is Some ==> b.name_heb is Some)
    &&& (f.living is Some ==> b.living is Some)
    &&& (forall|x: Seq<char>| #[trigger] f.fams.contains(x) ==> b.fams.contains(x))
    &&& (forall|x: Seq<char>| #[trigger] f.famc.contains(x) ==> b.famc.contains(x))
    &&& (forall|x: Seq<char>| #[trigger] f.notes.contains(x) ==> b.notes.contains(x))
}

proof fn lemma_extends_trans(a: IndividualV<()>, b: IndividualV<()>, c: IndividualV<()>)
    requires
        extends(a, b),
        extends(b, c),
    ensures
        extends(a, c),
{
    assert forall|x: Seq<char>| #[trigger] a.fams.contains(x) implies c.fams.contains(x) by {
        assert(b.fams.contains(x));
    }
    assert forall|x: Seq<char>| #[trigger] a.famc.contains(x) implies c.famc.contains(x) by {
        assert(b.famc.contains(x));
    }
    assert forall|x: Seq<char>| #[trigger] a.notes.contains(x) implies c.notes.contains(x) by {
        assert(b.notes.contains(x));
    }
}

proof fn lemma_covers_extends(f: IndividualV<()>, b: IndividualV<()>, c: IndividualV<()>)
    requires
        covers(f, b),
        extends(b, c),
    ensures
        covers(f, c),
{
    assert forall|x: Seq<char>| #[trigger] f.fams.contains(x) implies c.fams.contains(x) by {
        assert(b.fams.contains(x));
    }
    assert forall|x: Seq<char>| #[trigger] f.famc.contains(x) implies c.famc.contains(x) by {
        assert(b.famc.contains(x));
    }
    assert forall|x: Seq<char>| #[trigger] f.notes.contains(x) implies c.notes.contains(x) by {
        assert(b.notes.contains(x));
    }
}

proof fn lemma_extends_refl(a: IndividualV<()>)
    ensures
        extends(a, a),
        covers(a, a),
{
}

/// The union keeps the first list and adds every item of the second.
pub proof fn lemma_union_links(a: Seq<Seq<char>>, b: Seq<Seq<char>>)
    ensures
        forall|x: Seq<char>| #[trigger] a.contains(x) ==> union_links(a, b).contains(x),
        forall|x: Seq<char>| #[trigger] b.contains(x) ==> union_links(a, b).contains(x),
        forall|x: Seq<char>|
            #[trigger] union_links(a, b).contains(x) ==> a.contains(x) || b.contains(x),
        a.no_duplicates() ==> union_links(a, b).no_duplicates(),
    decreases b.len(),
{
    if b.len() > 0 {
        let r = union_links(a, b.drop_last());
        lemma_union_links(a, b.drop_last());
        let y = b.last();
        assert forall|x: Seq<char>| #[trigger] b.contains(x) implies union_links(a, b).contains(x) by {
            let k = choose|k: int| 0 <= k < b.len() && b[k] == x;
            if k < b.len() - 1 {
                assert(b.drop_last()[k] == x);
                assert(b.drop_last().contains(x));
                if !r.contains(y) {
                    let j = choose|j: int| 0 <= j < r.len() && r[j] == x;
                    assert(r.push(y)[j] == x);
                }
            } else {
                if !r.contains(y) {
                    assert(r.push(y)[r.len() as int] == y);
                }
            }
        }
        assert forall|x: Seq<char>| #[trigger] a.contains(x) implies union_links(a, b).contains(x) by {
            assert(r.contains(x));
            if !r.contains(y) {
                let j = choose|j: int| 0 <= j < r.len() && r[j] == x;
                assert(r.push(y)[j] == x);
            }
        }
        assert forall|x: Seq<char>| #[trigger] union_links(a, b).contains(x) implies a.contains(x)
            || b.contains(x) by {
            if !r.contains(y) {
                let j = choose|j: int| 0 <= j < r.len() + 1 && r.push(y)[j] == x;
                if j < r.len() {
                    assert(r[j] == x);
                    assert(r.contains(x));
                    if b.drop_last().contains(x) {
                        let k = choose|k: int| 0 <= k < b.drop_last().len() && b.drop_last()[k] == x;
                        assert(b[k] == x);
                    }
                } else {
                    assert(b[b.len() - 1] == x);
                }
            } else {
                if b.drop_last().contains(x) {
                    let k = choose|k: int| 0 <= k < b.drop_last().len() && b.drop_last()[k] == x;
                    assert(b[k] == x);
                }
            }
        }
        if a.no_duplicates() && !r.contains(y) {
            assert forall|i: int, j: int| 0 <= i < j < r.len() + 1 implies r.push(y)[i] != r.push(y)[j] by {
                if j == r.len() {
                    assert(r.push(y)[i] == r[i]);
                    if r[i] == y {
                        assert(r.contains(y));
                    }
                }
            }
        }
    }
}

proof fn lemma_merge_ind(x: IndividualV<()>, f: IndividualV<()>)
    ensures
        extends(x, merge_ind(x, f)),
        covers(f, merge_ind(x, f)),
{
    lemma_union_links(x.fams, f.fams);
    lemma_union_links(x.famc, f.famc);
    let n = x.notes + f.notes;
    assert forall|s: Seq<char>| #[trigger] x.notes.contains(s) implies n.contains(s) by {
        let k = choose|k: int| 0 <= k < x.notes.len() && x.notes[k] == s;
        assert(n[k] == s);
    }
    assert forall|s: Seq<char>| #[trigger] f.notes.contains(s) implies n.contains(s) by {
        let k = choose|k: int| 0 <= k < f.notes.len() && f.notes[k] == s;
        assert(n[x.notes.len() + k] == s);
    }
}

/// What an ID finds after one further individual is merged.
proof fn lemma_step_lookup(
    acc: (Seq<IndividualV<()>>, Seq<MergeWarningV>),
    f: IndividualV<()>,
    mf: Seq<char>,
    ff: Seq<char>,
    origs: Seq<(Seq<char>, Seq<char>)>,
    id: Seq<char>,
)
    ensures
        lookup_ind(merge_ind_step(acc, f, mf, ff, origs).0, id) == (if id == f.id {
            match lookup_ind(acc.0, id) {
                Some(x) => Some(merge_ind(x, f)),
                None => Some(f),
            }
        } else {
            lookup_ind(acc.0, id)
        }),
{
    let m = acc.0;
    let i = ind_index(m, f.id);
    crate::genrep::lemma_first_index_bounds(crate::genrep::ind_ids(m), f.id);
    crate::genrep::lemma_first_index_bounds(crate::genrep::ind_ids(m), id);
    if 0 <= i < m.len() {
        assert(crate::genrep::ind_ids(m)[i] == m[i].id);
        crate::genrep::lemma_lookup_update(m, i, merge_ind(m[i], f), id);
    } else {
        crate::genrep::lemma_lookup_push(m, f, id);
    }
}

/// Merging never loses what the main genealogy has: each of its individuals is still
/// found by its ID, with every field it had unchanged (the main record wins) and all
/// its family links and notes kept.
pub proof fn lemma_merge_keeps_main(
    main: Seq<IndividualV<()>>,
    further: Seq<IndividualV<()>>,
    mf: Seq<char>,
    ff: Seq<char>,
    origs: Seq<(Seq<char>, Seq<char>)>,
    id: Seq<char>,
)
    requires
        lookup_ind(main, id) is Some,
    ensures
        lookup_ind(merge_inds(main, further, mf, ff, origs).0, id) matches Some(y) && extends(
            lookup_ind(main, id)->0,
            y,
        ),
    decreases further.len(),
{
    if further.len() == 0 {
        lemma_extends_refl(lookup_ind(main, id)->0);
    } else {
        let pre = merge_inds(main, further.drop_last(), mf, ff, origs);
        lemma_merge_keeps_main(main, further.drop_last(), mf, ff, origs, id);
        lemma_step_lookup(pre, further.last(), mf, ff, origs, id);
        let y0 = lookup_ind(pre.0, id)->0;
        if id == further.last().id {
            lemma_merge_ind(y0, further.last());
            lemma_extends_trans(lookup_ind(main, id)->0, y0, merge_ind(y0, further.last()));
        }
    }
}

/// Every individual of the further genealogy is found in the merge, with each of its
/// fields, family links and notes present: gaps of a main record are filled, and a new
/// individual is added.
pub proof fn lemma_merge_covers_further(
    main: Seq<IndividualV<()>>,
    further: Seq<IndividualV<()>>,
    mf: Seq<char>,
    ff: Seq<char>,
    origs: Seq<(Seq<char>, Seq<char>)>,
    k: int,
)
    requires
        0 <= k < further.len(),
    ensures
        lookup_ind(merge_inds(main, further, mf, ff, origs).0, further[k].id) matches Some(y) && covers(
            further[k],
            y,
        ),
    decreases further.len(),
{
    let pre = merge_inds(main, further.drop_last(), mf, ff, origs);
    let f = further.last();
    let id = further[k].id;
    lemma_step_lookup(pre, f, mf, ff, origs, id);
    if k == further.len() - 1 {
        match lookup_ind(pre.0, id) {
            Some(x) => {
                lemma_merge_ind(x, f);
            },
            None => {
                lemma_extends_refl(f);
            },
        }
    } else {
        assert(further.drop_last()[k] == further[k]);
        lemma_merge_covers_further(main, further.drop_last(), mf, ff, origs, k);
        let y0 = lookup_ind(pre.0, id)->0;
        if id == f.id {
            lemma_merge_ind(y0, f);
            lemma_covers_extends(further[k], y0, merge_ind(y0, f));
        }
    }
}

/// Family links of an individual of the main genealogy stay free of repetitions when
/// they were.
pub proof fn lemma_merge_no_duplicate_links(
    main: Seq<IndividualV<()>>,
    further: Seq<IndividualV<()>>,
    mf: Seq<char>,
    ff: Seq<char>,
    origs: Seq<(Seq<char>, Seq<char>)>,
    id: Seq<char>,
)
    requires
        lookup_ind(main, id) matches Some(x) && x.fams.no_duplicates() && x.famc.no_duplicates(),
    ensures
        lookup_ind(merge_inds(main, further, mf, ff, origs).0, id) matches Some(y) && y.fams.no_duplicates()
            && y.famc.no_duplicates(),
    decreases further.len(),
{
    lemma_merge_keeps_main(main, further, mf, ff, origs, id);
    if further.len() > 0 {
        let pre = merge_inds(main, further.drop_last(), mf, ff, origs);
        lemma_merge_no_duplicate_links(main, further.drop_last(), mf, ff, origs, id);
        lemma_merge_keeps_main(main, further.drop_last(), mf, ff, origs, id);
        lemma_step_lookup(pre, further.last(), mf, ff, origs, id);
        let y0 = lookup_ind(pre.0, id)->0;
        lemma_union_links(y0.fams, further.last().fams);
        lemma_union_links(y0.famc, further.last().famc);
    }
}

/// Family `b` keeps everything family `a` has.
pub open spec fn fam_extends(a: FamilyV<()>, b: FamilyV<()>) -> bool {
    &&& b.id == a.id
    &&& (a.husband_id is Some ==> b.husband_id == a.husband_id)
    &&& (a.wife_id is Some ==> b.wife_id == a.wife_id)
    &&& (a.marriage is Some ==> b.marriage == a.marriage)
    &&& (a.jmar is Some ==> b.jmar == a.jmar)
    &&& (forall|x: Seq<char>| #[trigger] a.children_ids.contains(x) ==> b.children_ids.contains(x))
    &&& (forall|x: Seq<char>| #[trigger] a.notes.contains(x) ==> b.notes.contains(x))
}

/// Family `b` has every field, child and note that family `f` has.
pub open spec fn fam_covers(f: FamilyV<()>, b: FamilyV<()>) -> bool {
    &&& (f.husband_id is Some ==> b.husband_id is Some)
    &&& (f.wife_id is Some ==> b.wife_id is Some)
    &&& (f.marriage is Some ==> b.marriage is Some)
    &&& (f.jmar is Some ==> b.jmar is Some)
    &&& (forall|x: Seq<char>| #[trigger] f.children_ids.contains(x) ==> b.children_ids.contains(x))
    &&& (forall|x: Seq<char>| #[trigger] f.notes.contains(x) ==> b.notes.contains(x))
}

proof fn lemma_merge_fam(x: FamilyV<()>, f: FamilyV<()>)
    ensures
        fam_extends(x, merge_fam(x, f)),
        fam_covers(f, merge_fam(x, f)),
{
    lemma_union_links(x.children_ids, f.children_ids);
    let n = x.notes + f.notes;
    assert forall|s: Seq<char>| #[trigger] x.notes.contains(s) implies n.contains(s) by {
        let k = choose|k: int| 0 <= k < x.notes.len() && x.notes[k] == s;
        assert(n[k] == s);
    }
    assert forall|s: Seq<char>| #[trigger] f.notes.contains(s) implies n.contains(s) by {
        let k = choose|k: int| 0 <= k < f.notes.len() && f.notes[k] == s;
        assert(n[x.notes.len() + k] == s);
    }
}

proof fn lemma_fam_extends_trans(a: FamilyV<()>, b: FamilyV<()>, c: FamilyV<()>)
    requires
        fam_extends(a, b),
        fam_extends(b, c),
    ensures
        fam_extends(a, c),
{
    assert forall|x: Seq<char>| #[trigger] a.children_ids.contains(x) implies c.children_ids.contains(x) by {
        assert(b.children_ids.contains(x));
    }
    assert forall|x: Seq<char>| #[trigger] a.notes.contains(x) implies c.notes.contains(x) by {
        assert(b.notes.contains(x));
    }
}

proof fn lemma_fam_covers_extends(f: FamilyV<()>, b: FamilyV<()>, c: FamilyV<()>)
    requires
        fam_covers(f, b),
        fam_extends(b, c),
    ensures
        fam_covers(f, c),
{
    assert forall|x: Seq<char>| #[trigger] f.children_ids.contains(x) implies c.children_ids.contains(x) by {
        assert(b.children_ids.contains(x));
    }
    assert forall|x: Seq<char>| #[trigger] f.notes.contains(x) implies c.notes.contains(x) by {
        assert(b.notes.contains(x));
    }
}

proof fn lemma_fam_step_lookup(m: Seq<FamilyV<()>>, f: FamilyV<()>, id: Seq<char>)
    ensures
        lookup_fam(merge_fam_step(m, f), id) == (if id == f.id {
            match lookup_fam(m, id) {
                Some(x) => Some(merge_fam(x, f)),
                None => Some(f),
            }
        } else {
            lookup_fam(m, id)
        }),
{
    let i = fam_index(m, f.id);
    crate::genrep::lemma_first_index_bounds(crate::genrep::fam_ids(m), f.id);
    crate::genrep::lemma_first_index_bounds(crate::genrep::fam_ids(m), id);
    if 0 <= i < m.len() {
        assert(crate::genrep::fam_ids(m)[i] == m[i].id);
        crate::genrep::lemma_lookup_fam_update(m, i, merge_fam(m[i], f), id);
    } else {
        crate::genrep::lemma_lookup_fam_push(m, f, id);
    }
}

/// Each family of the main genealogy is still found by its ID after merging, with every
/// field it had unchanged and all its children and notes kept.
pub proof fn lemma_merge_fams_keeps_main(main: Seq<FamilyV<()>>, further: Seq<FamilyV<()>>, id: Seq<char>)
    requires
        lookup_fam(main, id) is Some,
    ensures
        lookup_fam(merge_fams(main, further), id) matches Some(y) && fam_extends(lookup_fam(main, id)->0, y),
    decreases further.len(),
{
    if further.len() > 0 {
        let pre = merge_fams(main, further.drop_last());
        lemma_merge_fams_keeps_main(main, further.drop_last(), id);
        lemma_fam_step_lookup(pre, further.last(), id);
        let y0 = lookup_fam(pre, id)->0;
        if id == further.last().id {
            lemma_merge_fam(y0, further.last());
            lemma_fam_extends_trans(lookup_fam(main, id)->0, y0, merge_fam(y0, further.last()));
        }
    }
}

/// Every family of the further genealogy is found in the merge with each of its fields,
/// children and notes present.
pub proof fn lemma_merge_fams_covers_further(main: Seq<FamilyV<()>>, further: Seq<FamilyV<()>>, k: int)
    requires
        0 <= k < further.len(),
    ensures
        lookup_fam(merge_fams(main, further), further[k].id) matches Some(y) && fam_covers(further[k], y),
    decreases further.len(),
{
    let pre = merge_fams(main, further.drop_last());
    let f = further.last();
    let id = further[k].id;
    lemma_fam_step_lookup(pre, f, id);
    if k == further.len() - 1 {
        match lookup_fam(pre, id) {
            Some(x) => {
                lemma_merge_fam(x, f);
            },
            None => {},
        }
    } else {
        assert(further.drop_last()[k] == further[k]);
        lemma_merge_fams_covers_further(main, further.drop_last(), k);
        let y0 = lookup_fam(pre, id)->0;
        if id == f.id {
            lemma_merge_fam(y0, f);
            lemma_fam_covers_extends(further[k], y0, merge_fam(y0, f));
        }
    }
}

/// Inserting the prefix letter keeps distinct IDs distinct.
pub proof fn lemma_prefix_id_injective(a: Seq<char>, b: Seq<char>, p: char)
    requires
        spec_prefix_id(a, p) == spec_prefix_id(b, p),
    ensures
        a == b,
{
    let x = spec_prefix_id(a, p);
    if a.len() == 0 || b.len() == 0 {
        if a.len() != b.len() {
            assert(x.len() != spec_prefix_id(b, p).len());
        }
        assert(a =~= b);
    } else {
        let y = spec_prefix_id(b, p);
        assert(x.len() == a.len() + 1);
        assert(y.len() == b.len() + 1);
        assert(a.len() == b.len());
        assert(a[0] == x[0] && b[0] == y[0]);
        assert forall|i: int| 1 <= i < a.len() implies a[i] == b[i] by {
            assert(x[i + 1] == a.drop_first()[i - 1]);
            assert(y[i + 1] == b.drop_first()[i - 1]);
        }
        assert(a =~= b);
    }
}


// ── IDs stay unique ──────────────────────────────────────────────────────────

/// Remapped individuals never share an ID.
pub proof fn lemma_remap_inds_unique(v: Seq<IndividualV<()>>, alias: Seq<(Seq<char>, Seq<char>)>, prefix: char)
    ensures
        ids_unique(remap_inds(v, alias, prefix)),
    decreases v.len(),
{
    if v.len() > 0 {
        lemma_remap_inds_unique(v.drop_last(), alias, prefix);
        lemma_put_ind_unique(remap_inds(v.drop_last(), alias, prefix), remap_ind(v.last(), alias, prefix));
    }
}

/// Remapped families never share an ID.
pub proof fn lemma_remap_fams_unique(v: Seq<FamilyV<()>>, alias: Seq<(Seq<char>, Seq<char>)>, prefix: char)
    ensures
        fam_ids_unique(remap_fams(v, alias, prefix)),
    decreases v.len(),
{
    if v.len() > 0 {
        lemma_remap_fams_unique(v.drop_last(), alias, prefix);
        lemma_put_fam_unique(remap_fams(v.drop_last(), alias, prefix), remap_fam(v.last(), alias, prefix));
    }
}

/// Merging further individuals into main individuals with distinct IDs keeps them distinct.
pub proof fn lemma_merge_inds_unique(
    main: Seq<IndividualV<()>>,
    further: Seq<IndividualV<()>>,
    main_file: Seq<char>,
    further_file: Seq<char>,
    origs: Seq<(Seq<char>, Seq<char>)>,
)
    requires
        ids_unique(main),
    ensures
        ids_unique(merge_inds(main, further, main_file, further_file, origs).0),
    decreases further.len(),
{
    if further.len() > 0 {
        let m = merge_inds(main, further.drop_last(), main_file, further_file, origs).0;
        let f = further.last();
        lemma_merge_inds_unique(main, further.drop_last(), main_file, further_file, origs);
        let i = ind_index(m, f.id);
        if 0 <= i < m.len() {
            lemma_first_index_bounds(ind_ids(m), f.id);
            assert(ind_ids(m)[i] == m[i].id);
            assert(merge_ind(m[i], f).id == m[i].id);
            lemma_put_ind_unique(m, merge_ind(m[i], f));
            assert(ind_index(m, merge_ind(m[i], f).id) == i);
        } else {
            lemma_put_ind_unique(m, f);
        }
    }
}

/// Merging further families into main families with distinct IDs keeps them distinct.
pub proof fn lemma_merge_fams_unique(main: Seq<FamilyV<()>>, further: Seq<FamilyV<()>>)
    requires
        fam_ids_unique(main),
    ensures
        fam_ids_unique(merge_fams(main, further)),
    decreases further.len(),
{
    if further.len() > 0 {
        let m = merge_fams(main, further.drop_last());
        let f = further.last();
        lemma_merge_fams_unique(main, further.drop_last());
        let i = fam_index(m, f.id);
        if 0 <= i < m.len() {
            lemma_first_index_bounds(fam_ids(m), f.id);
            assert(fam_ids(m)[i] == m[i].id);
            assert(merge_fam(m[i], f).id == m[i].id);
            lemma_put_fam_unique(m, merge_fam(m[i], f));
            assert(fam_index(m, merge_fam(m[i], f).id) == i);
        } else {
            lemma_put_fam_unique(m, f);
        }
    }
}

} // verus!
