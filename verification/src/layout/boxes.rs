//! Helpers of the boxes layout: instance keys, parents, element IDs.

use vstd::prelude::*;
use crate::genrep::{Genrep, GenrepV, IndividualV, lookup_fam, lookup_ind, opt_str};
use crate::layout::simple::{inst_key, inst_key_ex};
use crate::text::{chars_of, string_of};

verus! {

/// The key of the `count`-th placement of `id`: `id`, then `id##1`, `id##2`, …
pub fn instance_key(id: &str, count: usize) -> (r: String)
    ensures
        r@ == inst_key(id@, count as int),
{
    let s = string_of(&chars_of(id));
    inst_key_ex(&s, count)
}

/// A parent that counts: present and in scope.
pub open spec fn scoped_parent<G>(g: GenrepV<G>, id: Option<Seq<char>>) -> Option<Seq<char>> {
    match id {
        Some(x) => match lookup_ind(g.individuals, x) {
            Some(i) => if i.in_scope {
                Some(x)
            } else {
                None
            },
            None => None,
        },
        None => None,
    }
}

/// The parents found in the first family of `famc` (from position `k` on) that is in
/// scope and has a parent in scope.
pub open spec fn parents_from<G>(g: GenrepV<G>, famc: Seq<Seq<char>>, k: int) -> (Option<Seq<char>>, Option<Seq<char>>)
    decreases famc.len() - k,
{
    if k < 0 || k >= famc.len() {
        (None, None)
    } else {
        match lookup_fam(g.families, famc[k]) {
            Some(f) => if f.in_scope {
                let fa = scoped_parent(g, f.husband_id);
                let mo = scoped_parent(g, f.wife_id);
                if fa is Some || mo is Some {
                    (fa, mo)
                } else {
                    parents_from(g, famc, k + 1)
                }
            } else {
                parents_from(g, famc, k + 1)
            },
            None => parents_from(g, famc, k + 1),
        }
    }
}

pub open spec fn spec_parents_of<G>(g: GenrepV<G>, id: Seq<char>) -> (Option<Seq<char>>, Option<Seq<char>>) {
    match lookup_ind(g.individuals, id) {
        Some(i) => parents_from(g, i.famc, 0),
        None => (None, None),
    }
}

fn scoped_parent_ex<G>(genrep: &Genrep<G>, id: &Option<String>) -> (r: Option<String>)
    ensures
        opt_str(r) == scoped_parent(genrep@, opt_str(*id)),
{
    match id {
        Some(x) => match genrep.get_individual(x.as_str()) {
            Some(i) => if i.in_scope {
                Some(x.clone())
            } else {
                None
            },
            None => None,
        },
        None => None,
    }
}

/// Returns (father_id, mother_id) from the first in-scope FAMC family of `ind_id`.
pub fn parents_of<G>(ind_id: &str, genrep: &Genrep<G>) -> (r: (Option<String>, Option<String>))
    ensures
        (opt_str(r.0), opt_str(r.1)) == spec_parents_of(genrep@, ind_id@),
{
    let ind = match genrep.get_individual(ind_id) {
        Some(i) => i,
        None => {
            return (None, None);
        },
    };
    let ghost famc = ind@.famc;
    let mut k: usize = 0;
    while k < ind.famc.len()
        invariant
            k <= ind.famc.len(),
            famc == ind@.famc,
            famc.len() == ind.famc.len(),
            spec_parents_of(genrep@, ind_id@) == parents_from(genrep@, famc, k as int),
        decreases ind.famc.len() - k,
    {
        assert(famc[k as int] == ind.famc@[k as int]@);
        match genrep.get_family(ind.famc[k].as_str()) {
            Some(f) => {
                if f.in_scope {
                    let father = scoped_parent_ex(genrep, &f.husband_id);
                    let mother = scoped_parent_ex(genrep, &f.wife_id);
                    if father.is_some() || mother.is_some() {
                        return (father, mother);
                    }
                }
            },
            None => {},
        }
        k = k + 1;
    }
    (None, None)
}

/// `id` without `@`, with each `##` written `-dup-`.
pub open spec fn dup_marked(s: Seq<char>) -> Seq<char>
    decreases s.len(),
{
    if s.len() == 0 {
        seq![]
    } else if s.len() >= 2 && s[0] == '#' && s[1] == '#' {
        seq!['-', 'd', 'u', 'p', '-'] + dup_marked(s.skip(2))
    } else {
        seq![s[0]] + dup_marked(s.skip(1))
    }
}

pub open spec fn without_at(s: Seq<char>) -> Seq<char>
    decreases s.len(),
{
    if s.len() == 0 {
        seq![]
    } else if s.last() == '@' {
        without_at(s.drop_last())
    } else {
        without_at(s.drop_last()).push(s.last())
    }
}

pub open spec fn spec_trim_id(id: Seq<char>) -> Seq<char> {
    dup_marked(without_at(id))
}

/// The characters of `s` other than `@`.
fn remove_at(s: &Vec<char>) -> (r: Vec<char>)
    ensures
        r@ == without_at(s@),
{
    let mut r: Vec<char> = Vec::new();
    let mut i: usize = 0;
    while i < s.len()
        invariant
            i <= s.len(),
            r@ == without_at(s@.take(i as int)),
        decreases s.len() - i,
    {
        assert(s@.take(i + 1).drop_last() =~= s@.take(i as int));
        if s[i] != '@' {
            r.push(s[i]);
        }
        i = i + 1;
    }
    assert(s@.take(s.len() as int) =~= s@);
    r
}

/// Element ID for an individual: `@` removed, and `##` (a repeated instance) as `-dup-`.
pub fn trim_id(id: &str) -> (r: String)
    ensures
        r@ == spec_trim_id(id@),
{
    let s = remove_at(&chars_of(id));
    let ghost t = s@;
    let mut out: Vec<char> = Vec::new();
    let mut i: usize = 0;
    assert(t.skip(0) =~= t);
    while i < s.len()
        invariant
            i <= s.len(),
            t == s@,
            out@ + dup_marked(t.skip(i as int)) == dup_marked(t),
        decreases s.len() - i,
    {
        if i + 1 < s.len() && s[i] == '#' && s[i + 1] == '#' {
            assert(t.skip(i as int).skip(2) =~= t.skip(i + 2));
            out.push('-');
            out.push('d');
            out.push('u');
            out.push('p');
            out.push('-');
            assert(out@ + dup_marked(t.skip(i + 2)) =~= dup_marked(t));
            i = i + 2;
        } else {
            assert(t.skip(i as int).skip(1) =~= t.skip(i + 1));
            out.push(s[i]);
            assert(out@ + dup_marked(t.skip(i + 1)) =~= dup_marked(t));
            i = i + 1;
        }
    }
    assert(t.skip(i as int).len() == 0);
    assert(out@ =~= dup_marked(t));
    string_of(&out)
}

} // verus!
