//! Tracing switches: which components write trace lines.

use vstd::prelude::*;
use crate::genrep::strs;
use crate::text::chars_eq;

verus! {

/// The Unicode lower-case mapping of a string, as `str::to_lowercase` computes it.
pub uninterp spec fn lower_of(s: Seq<char>) -> Seq<char>;

/// Calls `str::to_lowercase`. The contract only names the result: it is the lower-case
/// mapping of the argument, a function of the argument alone; the Unicode tables behind
/// it are not stated.
#[verifier::external_body]
pub(crate) fn to_lowercase(s: &str) -> (r: String)
    ensures
        r@ == lower_of(s@),
{
    s.to_lowercase()
}

/// The set of traced components, held as a list without meaning in its order.
pub struct Tracer {
    components: Vec<String>,
}

impl View for Tracer {
    type V = Seq<Seq<char>>;

    closed spec fn view(&self) -> Seq<Seq<char>> {
        strs(self.components@)
    }
}

/// Each name in lower case.
pub open spec fn lowered(v: Seq<String>) -> Seq<Seq<char>> {
    v.map_values(|s: String| lower_of(s@))
}

pub open spec fn traces(comps: Seq<Seq<char>>, component: Seq<char>) -> bool {
    comps.len() > 0 && (comps.contains(seq!['a', 'l', 'l']) || comps.contains(component))
}

impl Tracer {
    /// Build a Tracer from the list of component names supplied via `--trace`.
    /// The special value `"all"` enables every component. Names are compared in
    /// lower case.
    pub fn new(components: &[String]) -> (r: Self)
        ensures
            r@ == lowered(components@),
    {
        let mut v: Vec<String> = Vec::new();
        let mut i: usize = 0;
        while i < components.len()
            invariant
                i <= components.len(),
                strs(v@) == lowered(components@.take(i as int)),
            decreases components.len() - i,
        {
            let ghost before = strs(v@);
            let l = to_lowercase(components[i].as_str());
            let ghost lv = l@;
            v.push(l);
            assert(strs(v@) =~= before.push(lv));
            assert(lowered(components@.take(i + 1)) =~= lowered(components@.take(i as int)).push(
                lower_of(components@[i as int]@),
            ));
            i = i + 1;
        }
        assert(components@.take(components.len() as int) =~= components@);
        Tracer { components: v }
    }

    /// A no-op tracer (used in tests and when `--trace` is absent).
    pub fn disabled() -> (r: Self)
        ensures
            r@ == Seq::<Seq<char>>::empty(),
    {
        let r = Tracer { components: Vec::new() };
        assert(r@ =~= Seq::<Seq<char>>::empty());
        r
    }

    /// Returns true if the named component is being traced.
    pub fn enabled(&self, component: &str) -> (r: bool)
        ensures
            r == traces(self@, component@),
    {
        if self.components.len() == 0 {
            return false;
        }
        let c = crate::text::chars_of(component);
        let mut i: usize = 0;
        while i < self.components.len()
            invariant
                i <= self.components.len(),
                self.components.len() > 0,
                c@ == component@,
                forall|k: int| 0 <= k < i ==> self@[k] != seq!['a', 'l', 'l'] && self@[k] != component@,
            decreases self.components.len() - i,
        {
            let s = crate::text::chars_of(self.components[i].as_str());
            assert(self@[i as int] == s@);
            if chars_eq(&s, &['a', 'l', 'l']) || crate::text::vec_eq(&s, &c) {
                assert(self@.contains(s@));
                return true;
            }
            i = i + 1;
        }
        assert(!self@.contains(seq!['a', 'l', 'l']) && !self@.contains(component@)) by {
            if self@.contains(seq!['a', 'l', 'l']) {
                let k = choose|k: int| 0 <= k < self@.len() && self@[k] == seq!['a', 'l', 'l'];
                assert(self@[k] != seq!['a', 'l', 'l']);
            }
            if self@.contains(component@) {
                let k = choose|k: int| 0 <= k < self@.len() && self@[k] == component@;
                assert(self@[k] != component@);
            }
        }
        false
    }
}

} // verus!
