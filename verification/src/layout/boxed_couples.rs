//! Helpers of the boxed-couples layout.

use vstd::prelude::*;
use crate::genrep::{Family, FamilyV, opt_str};

verus! {

/// The partner of `ind_id` in a family: the wife when `ind_id` is the husband, otherwise
/// the husband.
pub open spec fn other_partner<G>(f: FamilyV<G>, ind_id: Seq<char>) -> Option<Seq<char>> {
    if f.husband_id == Some(ind_id) {
        f.wife_id
    } else {
        f.husband_id
    }
}

/// The spouse of `ind_id` in `fam`.
pub fn spouse_id_from_family_bc<G>(ind_id: &str, fam: &Family<G>) -> (r: Option<String>)
    ensures
        opt_str(r) == other_partner(fam@, ind_id@),
{
    let is_husband = match &fam.husband_id {
        Some(h) => crate::genrep::str_eq(h.as_str(), ind_id),
        None => false,
    };
    if is_husband {
        match &fam.wife_id {
            Some(w) => Some(w.clone()),
            None => None,
        }
    } else {
        match &fam.husband_id {
            Some(h) => Some(h.clone()),
            None => None,
        }
    }
}

} // verus!
