//! Shared utilities for layout algorithms: date keys, family ordering, record copies.

use vstd::prelude::*;
use crate::genrep::{
    Event, EventV, Family, FamilyV, GedDate, Genrep, Individual, IndividualV, date_view,
    lookup_fam, opt_event, opt_str, strs,
};
use crate::text::{chars_eq, parse_u32, spec_parse_u32, string_of, tokens, tokens_of, vview};

verus! {

// ── date keys ────────────────────────────────────────────────────────────────

/// The Unicode upper-case mapping of a string, as `str::to_uppercase` computes it.
pub uninterp spec fn upper_of(s: Seq<char>) -> Seq<char>;

/// Calls `str::to_uppercase`. The contract only names the result: it is the upper-case
/// mapping of the argument, a function of the argument alone; the Unicode tables
/// behind it are not stated.
#[verifier::external_body]
fn to_uppercase(s: &str) -> (r: String)
    ensures
        r@ == upper_of(s@),
{
    s.to_uppercase()
}

/// Date prefix qualifiers, which carry no date information.
pub open spec fn is_qualifier(up: Seq<char>) -> bool {
    ||| up == seq!['B', 'E', 'F']
    ||| up == seq!['A', 'F', 'T']
    ||| up == seq!['A', 'B', 'T']
    ||| up == seq!['C', 'A', 'L']
    ||| up == seq!['E', 'S', 'T']
    ||| up == seq!['F', 'R', 'O', 'M']
    ||| up == seq!['T', 'O']
    ||| up == seq!['A', 'N', 'D']
    ||| up == seq!['I', 'N', 'T']
    ||| up == seq!['A', 'B', 'O', 'U', 'T']
    ||| up == seq!['B', 'E', 'F', 'O', 'R', 'E']
    ||| up == seq!['A', 'F', 'T', 'E', 'R']
    ||| up == seq!['B', 'E', 'T', 'W', 'E', 'E', 'N']
    ||| up == seq!['C', 'A', 'L', 'C', 'U', 'L', 'A', 'T', 'E', 'D']
    ||| up == seq!['E', 'S', 'T', 'I', 'M', 'A', 'T', 'E', 'D']
}

/// The month number (1 to 12) of a three-letter upper-case month name, or 0.
pub open spec fn month_of(up: Seq<char>) -> u32 {
    if up == seq!['J', 'A', 'N'] {
        1
    } else if up == seq!['F', 'E', 'B'] {
        2
    } else if up == seq!['M', 'A', 'R'] {
        3
    } else if up == seq!['A', 'P', 'R'] {
        4
    } else if up == seq!['M', 'A', 'Y'] {
        5
    } else if up == seq!['J', 'U', 'N'] {
        6
    } else if up == seq!['J', 'U', 'L'] {
        7
    } else if up == seq!['A', 'U', 'G'] {
        8
    } else if up == seq!['S', 'E', 'P'] {
        9
    } else if up == seq!['O', 'C', 'T'] {
        10
    } else if up == seq!['N', 'O', 'V'] {
        11
    } else if up == seq!['D', 'E', 'C'] {
        12
    } else {
        0
    }
}

/// The twelve GEDCOM month abbreviations, in calendar order.
pub open spec fn gedcom_months() -> Seq<Seq<char>> {
    seq![
        seq!['J', 'A', 'N'],
        seq!['F', 'E', 'B'],
        seq!['M', 'A', 'R'],
        seq!['A', 'P', 'R'],
        seq!['M', 'A', 'Y'],
        seq!['J', 'U', 'N'],
        seq!['J', 'U', 'L'],
        seq!['A', 'U', 'G'],
        seq!['S', 'E', 'P'],
        seq!['O', 'C', 'T'],
        seq!['N', 'O', 'V'],
        seq!['D', 'E', 'C'],
    ]
}

/// What one whitespace-separated token of a date contributes.
#[derive(PartialEq, Eq, Structural, Clone, Copy)]
pub enum DateToken {
    /// A qualifier, or a word that is neither a month nor a number.
    Other,
    Month(u32),
    Number(u32),
}

/// The kind of a token, given the token and its upper-case form.
pub open spec fn date_token(tok: Seq<char>, up: Seq<char>) -> DateToken {
    if is_qualifier(up) {
        DateToken::Other
    } else if month_of(up) > 0 {
        DateToken::Month(month_of(up))
    } else {
        match spec_parse_u32(tok) {
            Some(n) => DateToken::Number(n),
            None => DateToken::Other,
        }
    }
}

/// Year seen so far (the first number above 31), month, and day (a number of at most 31
/// seen before any year).
pub open spec fn date_step(st: (Option<u32>, u32, u32), t: DateToken) -> (Option<u32>, u32, u32) {
    match t {
        DateToken::Month(m) => (st.0, m, st.2),
        DateToken::Number(n) => if n > 31 {
            if st.0 is None {
                (Some(n), st.1, st.2)
            } else {
                st
            }
        } else if st.0 is None {
            (st.0, st.1, n)
        } else {
            st
        },
        DateToken::Other => st,
    }
}

pub open spec fn date_fold(toks: Seq<Seq<char>>) -> (Option<u32>, u32, u32)
    decreases toks.len(),
{
    if toks.len() == 0 {
        (None, 0, 0)
    } else {
        date_step(date_fold(toks.drop_last()), date_token(toks.last(), upper_of(toks.last())))
    }
}

/// The sort key of a raw date: `(year, month, day)`, or `(u32::MAX, 0, 0)` without a year.
pub open spec fn date_key(raw: Seq<char>) -> (u32, u32, u32) {
    let st = date_fold(tokens(raw, false));
    match st.0 {
        Some(y) => (y, st.1, st.2),
        None => (u32::MAX, 0, 0),
    }
}

fn is_qualifier_ex(up: &Vec<char>) -> (r: bool)
    ensures
        r == is_qualifier(up@),
{
    chars_eq(up, &['B', 'E', 'F']) || chars_eq(up, &['A', 'F', 'T']) || chars_eq(up, &['A', 'B', 'T'])
        || chars_eq(up, &['C', 'A', 'L']) || chars_eq(up, &['E', 'S', 'T']) || chars_eq(
        up,
        &['F', 'R', 'O', 'M'],
    ) || chars_eq(up, &['T', 'O']) || chars_eq(up, &['A', 'N', 'D']) || chars_eq(up, &['I', 'N', 'T'])
        || chars_eq(up, &['A', 'B', 'O', 'U', 'T']) || chars_eq(up, &['B', 'E', 'F', 'O', 'R', 'E'])
        || chars_eq(up, &['A', 'F', 'T', 'E', 'R']) || chars_eq(
        up,
        &['B', 'E', 'T', 'W', 'E', 'E', 'N'],
    ) || chars_eq(up, &['C', 'A', 'L', 'C', 'U', 'L', 'A', 'T', 'E', 'D']) || chars_eq(
        up,
        &['E', 'S', 'T', 'I', 'M', 'A', 'T', 'E', 'D'],
    )
}

fn month_of_ex(up: &Vec<char>) -> (r: u32)
    ensures
        r == month_of(up@),
{
    if chars_eq(up, &['J', 'A', 'N']) {
        1
    } else if chars_eq(up, &['F', 'E', 'B']) {
        2
    } else if chars_eq(up, &['M', 'A', 'R']) {
        3
    } else if chars_eq(up, &['A', 'P', 'R']) {
        4
    } else if chars_eq(up, &['M', 'A', 'Y']) {
        5
    } else if chars_eq(up, &['J', 'U', 'N']) {
        6
    } else if chars_eq(up, &['J', 'U', 'L']) {
        7
    } else if chars_eq(up, &['A', 'U', 'G']) {
        8
    } else if chars_eq(up, &['S', 'E', 'P']) {
        9
    } else if chars_eq(up, &['O', 'C', 'T']) {
        10
    } else if chars_eq(up, &['N', 'O', 'V']) {
        11
    } else if chars_eq(up, &['D', 'E', 'C']) {
        12
    } else {
        0
    }
}

/// Classify one date token, given the token and its upper-case form.
pub fn classify_date_token(token: &Vec<char>, upper: &Vec<char>) -> (r: DateToken)
    ensures
        r == date_token(token@, upper@),
{
    if is_qualifier_ex(upper) {
        return DateToken::Other;
    }
    let m = month_of_ex(upper);
    if m > 0 {
        return DateToken::Month(m);
    }
    match parse_u32(token) {
        Some(n) => DateToken::Number(n),
        None => DateToken::Other,
    }
}

/// Parse a GEDCOM raw date string into a sortable `(year, month, day)` key.
///
/// Supported formats: `"1 JAN 1812"`, `"JAN 1812"`, `"1812"`, `"BEF 1900"`,
/// `"ABT 1850"`, `"FROM 1800 TO 1850"`, etc.
/// Prefix qualifiers (BEF, AFT, ABT, CAL, EST, FROM, TO, AND, INT, …) are ignored.
/// Dates with no year return `(u32::MAX, 0, 0)` so they sort last.
pub fn date_sort_key(raw: &str) -> (r: (u32, u32, u32))
    ensures
        r == date_key(raw@),
{
    let chars = crate::text::chars_of(raw);
    let toks = tokens_of(&chars, false);
    let ghost tv = vview(toks@);
    let mut year: Option<u32> = None;
    let mut month: u32 = 0;
    let mut day: u32 = 0;
    let mut i: usize = 0;
    assert(tv.take(0) =~= seq![]);
    while i < toks.len()
        invariant
            i <= toks.len(),
            tv == vview(toks@),
            tv.len() == toks.len(),
            (year, month, day) == date_fold(tv.take(i as int)),
        decreases toks.len() - i,
    {
        assert(tv.take(i + 1).drop_last() =~= tv.take(i as int));
        assert(tv.take(i + 1).last() == toks@[i as int]@);
        let s = string_of(&toks[i]);
        let up = to_uppercase(s.as_str());
        let upc = crate::text::chars_of(up.as_str());
        match classify_date_token(&toks[i], &upc) {
            DateToken::Month(m) => {
                month = m;
            },
            DateToken::Number(n) => {
                if n > 31 {
                    if year.is_none() {
                        year = Some(n);
                    }
                } else if year.is_none() {
                    day = n;
                }
            },
            DateToken::Other => {},
        }
        i = i + 1;
    }
    assert(tv.take(toks.len() as int) =~= tv);
    match year {
        Some(y) => (y, month, day),
        None => (u32::MAX, 0, 0),
    }
}

// ── family order ─────────────────────────────────────────────────────────────

/// Lexicographic `<` on `(year, month, day)` keys.
pub open spec fn key_lt(a: (u32, u32, u32), b: (u32, u32, u32)) -> bool {
    a.0 < b.0 || (a.0 == b.0 && (a.1 < b.1 || (a.1 == b.1 && a.2 < b.2)))
}

/// Position `i` comes before position `j` in a stable sort by `keys`.
pub open spec fn before(keys: Seq<(u32, u32, u32)>, i: usize, j: usize) -> bool {
    key_lt(keys[i as int], keys[j as int]) || (keys[i as int] == keys[j as int] && i < j)
}

/// `p` lists every position of `keys` once, ordered by key, equal keys in their
/// original order: the order a stable sort produces.
pub open spec fn is_stable_order(keys: Seq<(u32, u32, u32)>, p: Seq<usize>) -> bool {
    &&& p.len() == keys.len()
    &&& forall|j: int| 0 <= j < p.len() ==> p[j] < keys.len()
    &&& forall|a: int, b: int| 0 <= a < b < p.len() ==> before(keys, p[a], p[b])
    &&& forall|i: usize| i < keys.len() ==> p.contains(i)
}

/// `s` rearranged by the positions `p`.
pub open spec fn reorder<T>(s: Seq<T>, p: Seq<usize>) -> Seq<T> {
    Seq::new(p.len(), |j: int| s[p[j] as int])
}

/// The marriage date of the family with ID `id`, if it has one.
#[verifier::opaque]
pub open spec fn marriage_date<G>(families: Seq<FamilyV<G>>, id: Seq<char>) -> Option<Seq<char>> {
    match lookup_fam(families, id) {
        Some(f) => match f.marriage {
            Some(e) => e.date,
            None => None,
        },
        None => None,
    }
}

pub open spec fn all_dated<G>(fams: Seq<Seq<char>>, families: Seq<FamilyV<G>>) -> bool {
    forall|i: int| 0 <= i < fams.len() ==> marriage_date(families, #[trigger] fams[i]) is Some
}

/// The date keys of the families `fams`.
pub open spec fn fam_keys<G>(fams: Seq<Seq<char>>, families: Seq<FamilyV<G>>) -> Seq<(u32, u32, u32)> {
    Seq::new(fams.len(), |i: int| date_key(marriage_date(families, fams[i])->0))
}

/// The families `fams` in the order `sort_families_by_date` gives them: by marriage date
/// (stable) when every one of them has a marriage date, otherwise as they are.
pub open spec fn sorted_fams<G>(fams: Seq<Seq<char>>, families: Seq<FamilyV<G>>) -> Seq<Seq<char>> {
    if all_dated(fams, families) {
        reorder(fams, choose|p: Seq<usize>| is_stable_order(fam_keys(fams, families), p))
    } else {
        fams
    }
}

proof fn lemma_stable_prefix(keys: Seq<(u32, u32, u32)>, p: Seq<usize>, q: Seq<usize>, n: int)
    requires
        is_stable_order(keys, p),
        is_stable_order(keys, q),
        0 <= n <= p.len(),
    ensures
        forall|j: int| 0 <= j < n ==> p[j] == q[j],
    decreases n,
{
    if n > 0 {
        lemma_stable_prefix(keys, p, q, n - 1);
        let m = n - 1;
        let a = p[m];
        let b = q[m];
        if a != b {
            assert(q.contains(a));
            let k = choose|k: int| 0 <= k < q.len() && q[k] == a;
            if k < m {
                assert(p[k] == a);
                assert(before(keys, p[k], p[m]));
            }
            assert(before(keys, b, a));
            assert(p.contains(b));
            let l = choose|l: int| 0 <= l < p.len() && p[l] == b;
            if l < m {
                assert(q[l] == b);
                assert(before(keys, q[l], q[m]));
            }
            assert(before(keys, a, b));
        }
    }
}

/// Two positions lists that both order `keys` stably are the same: the stable order is unique.
pub proof fn lemma_stable_order_unique(keys: Seq<(u32, u32, u32)>, p: Seq<usize>, q: Seq<usize>)
    requires
        is_stable_order(keys, p),
        is_stable_order(keys, q),
    ensures
        p == q,
{
    lemma_stable_prefix(keys, p, q, p.len() as int);
    assert(p =~= q);
}

/// A stable sort of positions `0..keys.len()` by key (insertion sort).
pub fn stable_order(keys: &Vec<(u32, u32, u32)>) -> (p: Vec<usize>)
    ensures
        is_stable_order(keys@, p@),
{
    let mut out: Vec<usize> = Vec::new();
    let mut i: usize = 0;
    while i < keys.len()
        invariant
            i <= keys.len(),
            out.len() == i,
            forall|j: int| 0 <= j < out.len() ==> out@[j] < i,
            forall|a: int, b: int| 0 <= a < b < out.len() ==> before(keys@, out@[a], out@[b]),
            forall|x: usize| x < i ==> out@.contains(x),
        decreases keys.len() - i,
    {
        let ki = keys[i];
        let mut pos: usize = 0;
        let mut found = false;
        while !found && pos < out.len()
            invariant
                i < keys.len(),
                ki == keys@[i as int],
                pos <= out.len(),
                forall|j: int| 0 <= j < out.len() ==> out@[j] < i,
                forall|t: int| 0 <= t < pos ==> !key_lt(ki, #[trigger] keys@[out@[t] as int]),
                found ==> pos < out.len() && key_lt(ki, keys@[out@[pos as int] as int]),
            decreases out.len() - pos, (if found { 0int } else { 1int }),
        {
            let kj = keys[out[pos]];
            if ki.0 < kj.0 || (ki.0 == kj.0 && (ki.1 < kj.1 || (ki.1 == kj.1 && ki.2 < kj.2))) {
                found = true;
            } else {
                pos = pos + 1;
            }
        }
        let ghost old_out = out@;
        proof {
            assert(pos < old_out.len() ==> key_lt(ki, keys@[old_out[pos as int] as int]));
        }
        out.insert(pos, i);
        proof {
            assert(out@ == old_out.insert(pos as int, i));
            assert forall|a: int, b: int| 0 <= a < b < out.len() implies before(
                keys@,
                out@[a],
                out@[b],
            ) by {
                if b < pos {
                    assert(out@[a] == old_out[a] && out@[b] == old_out[b]);
                } else if b == pos {
                    assert(out@[a] == old_out[a]);
                    assert(!key_lt(ki, keys@[old_out[a] as int]));
                } else if a == pos {
                    assert(out@[b] == old_out[b - 1]);
                    if b - 1 > pos {
                        assert(before(keys@, old_out[pos as int], old_out[b - 1]));
                    }
                } else if a < pos {
                    assert(out@[a] == old_out[a] && out@[b] == old_out[b - 1]);
                } else {
                    assert(out@[a] == old_out[a - 1] && out@[b] == old_out[b - 1]);
                }
            }
            assert forall|x: usize| x < i + 1 implies out@.contains(x) by {
                if x == i {
                    assert(out@[pos as int] == i);
                } else {
                    assert(old_out.contains(x));
                    let k = choose|k: int| 0 <= k < old_out.len() && old_out[k] == x;
                    if k < pos {
                        assert(out@[k] == x);
                    } else {
                        assert(out@[k + 1] == x);
                    }
                }
            }
        }
        i = i + 1;
    }
    out
}

fn clone_strings(v: &Vec<String>) -> (r: Vec<String>)
    ensures
        strs(r@) == strs(v@),
{
    let mut r: Vec<String> = Vec::new();
    let mut i: usize = 0;
    while i < v.len()
        invariant
            i <= v.len(),
            strs(r@) == strs(v@).take(i as int),
        decreases v.len() - i,
    {
        let ghost before = strs(r@);
        r.push(v[i].clone());
        assert(strs(r@) =~= before.push(v@[i as int]@));
        assert(strs(v@).take(i + 1) =~= strs(v@).take(i as int).push(v@[i as int]@));
        i = i + 1;
    }
    assert(strs(v@).take(v.len() as int) =~= strs(v@));
    r
}

/// The marriage date of the family with ID `id` in `genrep`.
fn marriage_date_ex<'a, G>(genrep: &'a Genrep<G>, id: &str) -> (r: Option<&'a GedDate>)
    ensures
        match r {
            Some(d) => marriage_date(genrep@.families, id@) == Some(d.raw@),
            None => marriage_date(genrep@.families, id@) is None,
        },
{
    reveal(marriage_date);
    match genrep.get_family(id) {
        Some(f) => match &f.marriage {
            Some(e) => match &e.date {
                Some(d) => Some(d),
                None => None,
            },
            None => None,
        },
        None => None,
    }
}

/// Sort an individual's families by marriage date.
///
/// If ALL families have a marriage date, returns them sorted chronologically
/// (a stable sort: families with the same date key keep their order).
/// Otherwise preserves the original FAMS tag order (which may reflect
/// the GEDCOM author's intended sequencing).
pub fn sort_families_by_date<G>(ind: &Individual<G>, genrep: &Genrep<G>) -> (r: Vec<String>)
    ensures
        strs(r@) == sorted_fams(ind@.fams, genrep@.families),
        all_dated(ind@.fams, genrep@.families) ==> exists|p: Seq<usize>|
            #[trigger] is_stable_order(fam_keys(ind@.fams, genrep@.families), p) && strs(r@) == reorder(
                ind@.fams,
                p,
            ),
        !all_dated(ind@.fams, genrep@.families) ==> strs(r@) == ind@.fams,
{
    let fams = &ind.fams;
    let ghost fv = strs(fams@);
    let ghost kv = fam_keys(fv, genrep@.families);
    let mut keys: Vec<(u32, u32, u32)> = Vec::new();
    let mut i: usize = 0;
    while i < fams.len()
        invariant
            i <= fams.len(),
            fv == strs(fams@),
            kv == fam_keys(fv, genrep@.families),
            keys@ == kv.take(i as int),
            fv == ind@.fams,
            kv.len() == fv.len(),
            fv.len() == fams.len(),
            forall|k: int| 0 <= k < i ==> marriage_date(genrep@.families, #[trigger] fv[k]) is Some,
        decreases fams.len() - i,
    {
        assert(fv[i as int] == fams@[i as int]@);
        match marriage_date_ex(genrep, fams[i].as_str()) {
            Some(d) => {
                let k = date_sort_key(d.raw.as_str());
                assert(kv[i as int] == k);
                keys.push(k);
                assert(keys@ =~= kv.take(i + 1));
            },
            None => {
                assert(marriage_date(genrep@.families, fv[i as int]) is None);
                assert(!all_dated(fv, genrep@.families));
                let r = clone_strings(fams);
                return r;
            },
        }
        i = i + 1;
    }
    assert(keys@ =~= kv);
    assert(all_dated(fv, genrep@.families));
    let p = stable_order(&keys);
    let mut r: Vec<String> = Vec::new();
    let mut j: usize = 0;
    while j < p.len()
        invariant
            j <= p.len(),
            p.len() == fams.len(),
            forall|t: int| 0 <= t < p.len() ==> p@[t] < fams.len(),
            fv == strs(fams@),
            strs(r@) == reorder(fv, p@).take(j as int),
        decreases p.len() - j,
    {
        let ghost before = strs(r@);
        r.push(fams[p[j]].clone());
        assert(strs(r@) =~= before.push(fv[p@[j as int] as int]));
        assert(reorder(fv, p@).take(j + 1) =~= reorder(fv, p@).take(j as int).push(
            fv[p@[j as int] as int],
        ));
        j = j + 1;
    }
    assert(reorder(fv, p@).take(p.len() as int) =~= reorder(fv, p@));
    proof {
        let q = choose|q: Seq<usize>| is_stable_order(kv, q);
        lemma_stable_order_unique(kv, p@, q);
        assert(is_stable_order(kv, p@));
    }
    r
}

// ── record copies ────────────────────────────────────────────────────────────

/// An individual's record with another geometry.
pub open spec fn with_geo_ind<G, GH>(x: IndividualV<G>, geo: Option<GH>) -> IndividualV<GH> {
    IndividualV {
        id: x.id,
        given: x.given,
        surname: x.surname,
        sex: x.sex,
        birth: x.birth,
        death: x.death,
        fams: x.fams,
        famc: x.famc,
        alt_name: x.alt_name,
        name_heb: x.name_heb,
        living: x.living,
        notes: x.notes,
        in_scope: x.in_scope,
        geo,
    }
}

/// A family's record with another geometry.
pub open spec fn with_geo_fam<G, GH>(x: FamilyV<G>, geo: Option<GH>) -> FamilyV<GH> {
    FamilyV {
        id: x.id,
        husband_id: x.husband_id,
        wife_id: x.wife_id,
        children_ids: x.children_ids,
        marriage: x.marriage,
        jmar: x.jmar,
        notes: x.notes,
        in_scope: x.in_scope,
        geo,
    }
}

fn clone_opt_string(o: &Option<String>) -> (r: Option<String>)
    ensures
        opt_str(r) == opt_str(*o),
{
    match o {
        Some(s) => Some(s.clone()),
        None => None,
    }
}

fn clone_event(o: &Option<Event>) -> (r: Option<Event>)
    ensures
        opt_event(r) == opt_event(*o),
{
    match o {
        Some(e) => {
            let date = match &e.date {
                Some(d) => Some(GedDate { raw: d.raw.clone() }),
                None => None,
            };
            assert(date_view(date) == date_view(e.date));
            Some(Event { date, place: clone_opt_string(&e.place) })
        },
        None => None,
    }
}

/// Copy an [`Individual`] with a different geo type.
///
/// Used by layout algorithms to convert `Individual<()>` to `Individual<LayoutGeo>`.
pub fn copy_individual<G, GH>(src: &Individual<G>, geo: Option<GH>) -> (r: Individual<GH>)
    ensures
        r@ == with_geo_ind(src@, geo),
{
    Individual {
        id: src.id.clone(),
        given: clone_opt_string(&src.given),
        surname: clone_opt_string(&src.surname),
        sex: src.sex,
        birth: clone_event(&src.birth),
        death: clone_event(&src.death),
        fams: clone_strings(&src.fams),
        famc: clone_strings(&src.famc),
        alt_name: clone_opt_string(&src.alt_name),
        name_heb: clone_opt_string(&src.name_heb),
        living: src.living,
        notes: clone_strings(&src.notes),
        in_scope: src.in_scope,
        geo,
    }
}

/// Copy one family with a different geo type.
pub fn copy_family<G, GH>(src: &Family<G>, geo: Option<GH>) -> (r: Family<GH>)
    ensures
        r@ == with_geo_fam(src@, geo),
{
    Family {
        id: src.id.clone(),
        husband_id: clone_opt_string(&src.husband_id),
        wife_id: clone_opt_string(&src.wife_id),
        children_ids: clone_strings(&src.children_ids),
        marriage: clone_event(&src.marriage),
        jmar: clone_opt_string(&src.jmar),
        notes: clone_strings(&src.notes),
        in_scope: src.in_scope,
        geo,
    }
}

/// Copy all families with a new geo type, computing geo via a closure.
///
/// The closure can return `None` (e.g. fan layout) or compute geo from
/// placed individuals (e.g. boxed_couples layout).
pub fn copy_families<G, GH, F: Fn(&Family<G>) -> Option<GH>>(genrep: &Genrep<G>, compute_geo: F) -> (r:
    Vec<Family<GH>>)
    requires
        forall|i: int|
            0 <= i < genrep.families.len() ==> compute_geo.requires((&genrep.families@[i],)),
    ensures
        r.len() == genrep.families.len(),
        forall|i: int|
            0 <= i < r.len() ==> (#[trigger] r@[i])@ == with_geo_fam(genrep.families@[i]@, r@[i].geo)
                && compute_geo.ensures((&genrep.families@[i],), r@[i].geo),
{
    let mut r: Vec<Family<GH>> = Vec::new();
    let mut i: usize = 0;
    while i < genrep.families.len()
        invariant
            i <= genrep.families.len(),
            r.len() == i,
            forall|k: int|
                0 <= k < genrep.families.len() ==> compute_geo.requires((&genrep.families@[k],)),
            forall|k: int|
                0 <= k < i ==> (#[trigger] r@[k])@ == with_geo_fam(genrep.families@[k]@, r@[k].geo)
                    && compute_geo.ensures((&genrep.families@[k],), r@[k].geo),
        decreases genrep.families.len() - i,
    {
        let fam = &genrep.families[i];
        let geo = compute_geo(fam);
        r.push(copy_family(fam, geo));
        i = i + 1;
    }
    r
}


// ── laws of date keys ────────────────────────────────────────────────────────

/// A number token (a number is its own upper case) is neither a qualifier nor a month.
proof fn lemma_number_token(t: Seq<char>, n: u32)
    requires
        spec_parse_u32(t) == Some(n),
        upper_of(t) == t,
    ensures
        date_token(t, upper_of(t)) == DateToken::Number(n),
{
    assert(t.len() > 0);
    if t[0] != '+' {
        assert(crate::text::is_digit(t[0]));
    }
}

/// A date written `D MON YYYY` sorts by `(YYYY, k, D)`: `MON` is the `k`-th GEDCOM month
/// abbreviation, in any case (its upper-case form is the abbreviation), `D` is a day of
/// at most 31 and `YYYY` a year above 31, each a number (written in digits, its own upper
/// case).
pub proof fn lemma_date_key_day_month_year(
    raw: Seq<char>,
    day: Seq<char>,
    mon: Seq<char>,
    year: Seq<char>,
    d: u32,
    k: int,
    y: u32,
)
    requires
        tokens(raw, false) == seq![day, mon, year],
        spec_parse_u32(day) == Some(d),
        upper_of(day) == day,
        d <= 31,
        1 <= k <= 12,
        upper_of(mon) == gedcom_months()[k - 1],
        spec_parse_u32(year) == Some(y),
        upper_of(year) == year,
        y > 31,
    ensures
        date_key(raw) == (y, k as u32, d),
{
    lemma_number_token(day, d);
    lemma_number_token(year, y);
    let up = gedcom_months()[k - 1];
    assert(!is_qualifier(up));
    assert(month_of(up) == k);
    let toks = seq![day, mon, year];
    assert(toks.drop_last() =~= seq![day, mon]);
    assert(seq![day, mon].drop_last() =~= seq![day]);
    assert(seq![day].drop_last() =~= Seq::<Seq<char>>::empty());
    assert(date_token(mon, upper_of(mon)) == DateToken::Month(k as u32));
    assert(date_fold(Seq::<Seq<char>>::empty()) == (None::<u32>, 0u32, 0u32));
    assert(date_fold(seq![day]) == (None::<u32>, 0u32, d));
    assert(date_fold(seq![day, mon]) == (None::<u32>, k as u32, d));
    assert(date_fold(toks) == (Some(y), k as u32, d));
}

} // verus!
