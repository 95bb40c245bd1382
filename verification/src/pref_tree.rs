//! The preference tree: TOML documents as nested tables, merged key by key.
//!
//! A table maps keys to values in document order; a leaf carries the text under which
//! its value is reported, and a slot by which the application finds the value again.

use vstd::prelude::*;
use crate::genrep::{
    first_index, lemma_first_index, lemma_first_index_bounds, lemma_first_index_none, lemma_first_index_push, str_eq,
    strs,
};
use crate::text::{append_chars, chars_of, string_of};

verus! {

pub enum PrefValue {
    Table(Vec<(String, PrefValue)>),
    Leaf { text: String, slot: usize },
}

pub enum PrefV {
    Table(Seq<(Seq<char>, PrefV)>),
    Leaf(Seq<char>, usize),
}

/// The value of a preference tree.
pub open spec fn pref_view(v: PrefValue) -> PrefV
    decreases v,
{
    match v {
        PrefValue::Table(es) => PrefV::Table(
            Seq::new(
                es.len() as nat,
                |i: int|
                    if 0 <= i < es.len() {
                        (es@[i].0@, pref_view(es@[i].1))
                    } else {
                        (Seq::empty(), PrefV::Table(Seq::empty()))
                    },
            ),
        ),
        PrefValue::Leaf { text, slot } => PrefV::Leaf(text@, slot),
    }
}

impl View for PrefValue {
    type V = PrefV;

    open spec fn view(&self) -> PrefV {
        pref_view(*self)
    }
}

/// The entries of a table, by their views.
pub open spec fn entries_view(v: Seq<(String, PrefValue)>) -> Seq<(Seq<char>, PrefV)> {
    v.map_values(|e: (String, PrefValue)| (e.0@, e.1@))
}

pub(crate) proof fn lemma_table_view(es: Vec<(String, PrefValue)>)
    ensures
        PrefValue::Table(es)@ == PrefV::Table(entries_view(es@)),
{
    let v = PrefValue::Table(es);
    let t = v@->Table_0;
    assert(t.len() == es@.len());
    assert forall|i: int| 0 <= i < t.len() implies t[i] == entries_view(es@)[i] by {}
    assert(t =~= entries_view(es@));
}

/// The keys of a table, in order.
pub open spec fn keys_of(es: Seq<(Seq<char>, PrefV)>) -> Seq<Seq<char>> {
    es.map_values(|e: (Seq<char>, PrefV)| e.0)
}

/// The position of the first entry under `k`, or -1.
pub open spec fn entry_index(es: Seq<(Seq<char>, PrefV)>, k: Seq<char>) -> int {
    first_index(keys_of(es), k)
}

/// `prefix.key`, or `key` at the top level.
pub open spec fn full_key(prefix: Seq<char>, key: Seq<char>) -> Seq<char> {
    if prefix.len() == 0 {
        key
    } else {
        prefix + seq!['.'] + key
    }
}

/// The text under which a leaf is reported.
pub open spec fn leaf_text(v: PrefV) -> Seq<char> {
    match v {
        PrefV::Leaf(t, _) => t,
        PrefV::Table(_) => seq![],
    }
}

/// The trace line for a leaf that replaces an existing value.
pub open spec fn override_line(k: Seq<char>, text: Seq<char>) -> Seq<char> {
    "PREF OVERRIDE KEY-VALUE "@ + k + " = "@ + text
}

/// The trace line for a leaf under a key that was absent.
pub open spec fn new_line(k: Seq<char>, text: Seq<char>) -> Seq<char> {
    "PREF          KEY-VALUE "@ + k + " = "@ + text
}

/// `overlay` merged into `base`, with the trace lines of the leaves set: tables merge
/// key by key (recursively where both sides hold a table); anything else replaces.
pub open spec fn merge_v(base: PrefV, overlay: PrefV, prefix: Seq<char>) -> (PrefV, Seq<Seq<char>>)
    decreases overlay, 0int,
{
    match overlay {
        PrefV::Table(oes) => match base {
            PrefV::Table(bes) => {
                let r = merge_entries(bes, oes, prefix);
                (PrefV::Table(r.0), r.1)
            },
            PrefV::Leaf(..) => (overlay, seq![]),
        },
        PrefV::Leaf(..) => (overlay, seq![]),
    }
}

/// One entry `(key, val)` of an overlay merged into the entries and trace lines `acc`.
pub open spec fn merge_step(
    acc: (Seq<(Seq<char>, PrefV)>, Seq<Seq<char>>),
    key: Seq<char>,
    val: PrefV,
    prefix: Seq<char>,
) -> (Seq<(Seq<char>, PrefV)>, Seq<Seq<char>>)
    decreases val, 1int,
{
    let fk = full_key(prefix, key);
    let i = entry_index(acc.0, key);
    if 0 <= i < acc.0.len() {
        if acc.0[i].1 is Table && val is Table {
            let m = merge_v(acc.0[i].1, val, fk);
            (acc.0.update(i, (key, m.0)), acc.1 + m.1)
        } else {
            (acc.0.update(i, (key, val)), if val is Table {
                acc.1
            } else {
                acc.1.push(override_line(fk, leaf_text(val)))
            })
        }
    } else {
        if val is Table {
            let m = merge_v(PrefV::Table(seq![]), val, fk);
            (acc.0.push((key, m.0)), acc.1 + m.1)
        } else {
            (acc.0.push((key, val)), acc.1.push(new_line(fk, leaf_text(val))))
        }
    }
}

/// The entries `oes` merged one by one, in order, into the entries `bes`.
pub open spec fn merge_entries(bes: Seq<(Seq<char>, PrefV)>, oes: Seq<(Seq<char>, PrefV)>, prefix: Seq<char>) -> (
    Seq<(Seq<char>, PrefV)>,
    Seq<Seq<char>>,
)
    decreases oes, 1int,
{
    if oes.len() == 0 {
        (bes, seq![])
    } else {
        merge_step(merge_entries(bes, oes.drop_last(), prefix), oes.last().0, oes.last().1, prefix)
    }
}

/// The dotted keys of `overlay` that `base` lacks, in order (where both hold a table
/// under a key, the search goes on inside).
pub open spec fn unknown_v(base: PrefV, overlay: PrefV, prefix: Seq<char>) -> Seq<Seq<char>>
    decreases overlay, 0int,
{
    match overlay {
        PrefV::Table(oes) => unknown_entries(base, oes, prefix),
        PrefV::Leaf(..) => seq![],
    }
}

/// The value under `k` in a table, if any.
pub open spec fn table_get(v: PrefV, k: Seq<char>) -> Option<PrefV> {
    match v {
        PrefV::Table(es) => {
            let i = entry_index(es, k);
            if 0 <= i < es.len() {
                Some(es[i].1)
            } else {
                None
            }
        },
        PrefV::Leaf(..) => None,
    }
}

/// The unknown keys that one overlay entry `(key, val)` brings.
pub open spec fn unknown_step(base: PrefV, key: Seq<char>, val: PrefV, prefix: Seq<char>) -> Seq<Seq<char>>
    decreases val, 1int,
{
    let fk = full_key(prefix, key);
    match table_get(base, key) {
        Some(bv) => if val is Table && bv is Table {
            unknown_v(bv, val, fk)
        } else {
            seq![]
        },
        None => seq![fk],
    }
}

pub open spec fn unknown_entries(base: PrefV, oes: Seq<(Seq<char>, PrefV)>, prefix: Seq<char>) -> Seq<Seq<char>>
    decreases oes, 1int,
{
    if oes.len() == 0 {
        seq![]
    } else {
        unknown_entries(base, oes.drop_last(), prefix) + unknown_step(base, oes.last().0, oes.last().1, prefix)
    }
}


// ── the merge, as code ───────────────────────────────────────────────────────

proof fn lemma_entries_len(es: Vec<(String, PrefValue)>)
    ensures
        entries_view(es@).len() == es@.len(),
        forall|i: int| 0 <= i < es@.len() ==> #[trigger] entries_view(es@)[i] == (es@[i].0@, es@[i].1@),
{
}

pub(crate) proof fn lemma_entries_push(s: Seq<(String, PrefValue)>, e: (String, PrefValue))
    ensures
        entries_view(s.push(e)) == entries_view(s).push((e.0@, e.1@)),
{
    assert(entries_view(s.push(e)) =~= entries_view(s).push((e.0@, e.1@)));
}

proof fn lemma_entries_update(s: Seq<(String, PrefValue)>, i: int, e: (String, PrefValue))
    requires
        0 <= i < s.len(),
    ensures
        entries_view(s.update(i, e)) == entries_view(s).update(i, (e.0@, e.1@)),
{
    assert(entries_view(s.update(i, e)) =~= entries_view(s).update(i, (e.0@, e.1@)));
}

/// A copy of a preference tree.
pub fn clone_pref(v: &PrefValue) -> (r: PrefValue)
    ensures
        r@ == v@,
    decreases v,
{
    match v {
        PrefValue::Table(es) => {
            let mut out: Vec<(String, PrefValue)> = Vec::new();
            let mut i: usize = 0;
            while i < es.len()
                invariant
                    i <= es.len(),
                    *v == PrefValue::Table(*es),
                    entries_view(out@) == entries_view(es@).take(i as int),
                decreases es.len() - i,
            {
                let k = es[i].0.clone();
                proof {
                    assert(decreases_to!(*v => v->Table_0));
                    assert(v->Table_0 == *es);
                    assert(decreases_to!(*es => es@));
                    assert(decreases_to!(es@ => es@[i as int]));
                    assert(decreases_to!(es@[i as int] => es@[i as int].1));
                }
                let c = clone_pref(&es[i].1);
                let ghost before = out@;
                out.push((k, c));
                proof {
                    lemma_entries_push(before, (k, c));
                    lemma_entries_len(*es);
                }
                assert(entries_view(es@).take(i + 1) =~= entries_view(es@).take(i as int).push(
                    entries_view(es@)[i as int],
                ));
                i = i + 1;
            }
            proof {
                lemma_table_view(out);
                lemma_table_view(*es);
                assert(entries_view(es@).take(es.len() as int) =~= entries_view(es@));
            }
            PrefValue::Table(out)
        },
        PrefValue::Leaf { text, slot } => PrefValue::Leaf { text: text.clone(), slot: *slot },
    }
}

fn is_table(v: &PrefValue) -> (r: bool)
    ensures
        r == v@ is Table,
{
    match v {
        PrefValue::Table(_) => true,
        PrefValue::Leaf { .. } => false,
    }
}

/// The position of the first entry under `k`.
fn find_entry(es: &Vec<(String, PrefValue)>, k: &String) -> (r: Option<usize>)
    ensures
        match r {
            Some(i) => i == entry_index(entries_view(es@), k@) && i < es.len(),
            None => entry_index(entries_view(es@), k@) == -1,
        },
{
    let ghost ks = keys_of(entries_view(es@));
    proof {
        lemma_entries_len(*es);
    }
    let mut i: usize = 0;
    while i < es.len()
        invariant
            i <= es.len(),
            ks == keys_of(entries_view(es@)),
            ks.len() == es.len(),
            forall|q: int| 0 <= q < i ==> ks[q] != k@,
        decreases es.len() - i,
    {
        proof {
            lemma_entries_len(*es);
        }
        if str_eq(es[i].0.as_str(), k.as_str()) {
            proof {
                lemma_first_index(ks, k@, i as int);
            }
            return Some(i);
        }
        i = i + 1;
    }
    proof {
        lemma_first_index_none(ks, k@);
    }
    None
}

fn full_key_ex(prefix: &Vec<char>, key: &String) -> (r: Vec<char>)
    ensures
        r@ == full_key(prefix@, key@),
{
    let k = chars_of(key.as_str());
    if prefix.len() == 0 {
        k
    } else {
        let mut s = prefix.clone();
        s.push('.');
        let ghost mid = s@;
        let mut i: usize = 0;
        while i < k.len()
            invariant
                i <= k.len(),
                s@ == mid + k@.take(i as int),
            decreases k.len() - i,
        {
            s.push(k[i]);
            i = i + 1;
            assert(s@ =~= mid + k@.take(i as int));
        }
        assert(k@.take(k.len() as int) =~= k@);
        assert(s@ =~= prefix@ + seq!['.'] + key@);
        s
    }
}

/// `head`, the dotted key, `" = "` and the leaf's text.
fn trace_line(head: &str, k: &Vec<char>, v: &PrefValue) -> (r: String)
    ensures
        r@ == head@ + k@ + " = "@ + leaf_text(v@),
{
    let mut s = string_of(&chars_of(head));
    append_chars(&mut s, k);
    append_chars(&mut s, &chars_of(" = "));
    match v {
        PrefValue::Leaf { text, .. } => append_chars(&mut s, &chars_of(text.as_str())),
        PrefValue::Table(_) => {},
    }
    assert(s@ =~= head@ + k@ + " = "@ + leaf_text(v@));
    s
}

fn append_lines(lines: &mut Vec<String>, more: Vec<String>)
    ensures
        strs(final(lines)@) == strs(old(lines)@) + strs(more@),
{
    let mut i: usize = 0;
    let ghost start = strs(lines@);
    while i < more.len()
        invariant
            i <= more.len(),
            strs(lines@) == start + strs(more@).take(i as int),
        decreases more.len() - i,
    {
        let ghost before = strs(lines@);
        lines.push(more[i].clone());
        assert(strs(lines@) =~= before.push(more@[i as int]@));
        assert(strs(more@).take(i + 1) =~= strs(more@).take(i as int).push(more@[i as int]@));
        i = i + 1;
    }
    assert(strs(more@).take(more.len() as int) =~= strs(more@));
}

fn merge_step_ex(
    cur: &mut Vec<(String, PrefValue)>,
    lines: &mut Vec<String>,
    key: &String,
    val: &PrefValue,
    prefix: &Vec<char>,
)
    ensures
        (entries_view(final(cur)@), strs(final(lines)@)) == merge_step(
            (entries_view(old(cur)@), strs(old(lines)@)),
            key@,
            val@,
            prefix@,
        ),
    decreases val, 1int,
{
    let fk = full_key_ex(prefix, key);
    proof {
        lemma_entries_len(*cur);
    }
    match find_entry(cur, key) {
        Some(i) => {
            if is_table(&cur[i].1) && is_table(val) {
                let (m, ls) = merge_ref(&cur[i].1, val, &fk);
                let ghost before = cur@;
                let e = (key.clone(), m);
                let ghost ge = e;
                cur.set(i, e);
                proof {
                    lemma_entries_update(before, i as int, ge);
                }
                append_lines(lines, ls);
            } else {
                let c = clone_pref(val);
                let ghost before = cur@;
                let e = (key.clone(), c);
                let ghost ge = e;
                cur.set(i, e);
                proof {
                    lemma_entries_update(before, i as int, ge);
                }
                if !is_table(val) {
                    let ghost lb = strs(lines@);
                    let t = trace_line("PREF OVERRIDE KEY-VALUE ", &fk, val);
                    lines.push(t);
                    assert(strs(lines@) =~= lb.push(t@));
                }
            }
        },
        None => {
            if is_table(val) {
                let empty: Vec<(String, PrefValue)> = Vec::new();
                proof {
                    lemma_table_view(empty);
                    assert(entries_view(empty@) =~= seq![]);
                }
                let (m, ls) = merge_ref(&PrefValue::Table(empty), val, &fk);
                let ghost before = cur@;
                let e = (key.clone(), m);
                let ghost ge = e;
                cur.push(e);
                proof {
                    lemma_entries_push(before, ge);
                }
                append_lines(lines, ls);
            } else {
                let c = clone_pref(val);
                let ghost before = cur@;
                let e = (key.clone(), c);
                let ghost ge = e;
                cur.push(e);
                proof {
                    lemma_entries_push(before, ge);
                }
                let ghost lb = strs(lines@);
                let t = trace_line("PREF          KEY-VALUE ", &fk, val);
                lines.push(t);
                assert(strs(lines@) =~= lb.push(t@));
            }
        },
    }
}

fn merge_ref(base: &PrefValue, overlay: &PrefValue, prefix: &Vec<char>) -> (r: (PrefValue, Vec<String>))
    ensures
        (r.0@, strs(r.1@)) == merge_v(base@, overlay@, prefix@),
    decreases overlay, 0int,
{
    match overlay {
        PrefValue::Table(oes) => match base {
            PrefValue::Table(bes) => {
                let ghost ov = entries_view(oes@);
                let ghost bv = entries_view(bes@);
                proof {
                    lemma_table_view(*oes);
                    lemma_table_view(*bes);
                    lemma_entries_len(*oes);
                }
                let cur0 = clone_pref(base);
                let mut cur: Vec<(String, PrefValue)> = match cur0 {
                    PrefValue::Table(es) => es,
                    PrefValue::Leaf { .. } => Vec::new(),
                };
                proof {
                    lemma_table_view(cur);
                }
                let mut lines: Vec<String> = Vec::new();
                let mut j: usize = 0;
                assert(ov.take(0) =~= seq![]);
                assert(strs(lines@) =~= seq![]);
                while j < oes.len()
                    invariant
                        j <= oes.len(),
                        *overlay == PrefValue::Table(*oes),
                        ov == entries_view(oes@),
                        ov.len() == oes.len(),
                        forall|q: int| 0 <= q < oes@.len() ==> #[trigger] ov[q] == (oes@[q].0@, oes@[q].1@),
                        (entries_view(cur@), strs(lines@)) == merge_entries(bv, ov.take(j as int), prefix@),
                    decreases oes.len() - j,
                {
                    assert(ov.take(j + 1).drop_last() =~= ov.take(j as int));
                    assert(ov.take(j + 1).last() == ov[j as int]);
                    proof {
                        assert(decreases_to!(*overlay => overlay->Table_0));
                        assert(decreases_to!(*oes => oes@));
                        assert(decreases_to!(oes@ => oes@[j as int]));
                        assert(decreases_to!(oes@[j as int] => oes@[j as int].1));
                    }
                    merge_step_ex(&mut cur, &mut lines, &oes[j].0, &oes[j].1, prefix);
                    j = j + 1;
                }
                assert(ov.take(oes.len() as int) =~= ov);
                proof {
                    lemma_table_view(cur);
                }
                (PrefValue::Table(cur), lines)
            },
            PrefValue::Leaf { .. } => (clone_pref(overlay), Vec::new()),
        },
        PrefValue::Leaf { .. } => (clone_pref(overlay), Vec::new()),
    }
}

/// Merge `overlay` into `base`: tables merge key by key, recursing where both sides
/// hold a table; any other value replaces what was there. Returns, in order, the trace
/// line of each leaf set: `PREF OVERRIDE KEY-VALUE <key> = <text>` where a value was
/// replaced, `PREF          KEY-VALUE <key> = <text>` where the key was new. `prefix`
/// is the dotted-key path leading to `base` (empty at the top level).
pub fn merge_toml_tracked(base: &mut PrefValue, overlay: PrefValue, prefix: &str) -> (r: Vec<String>)
    ensures
        final(base)@ == merge_v(old(base)@, overlay@, prefix@).0,
        strs(r@) == merge_v(old(base)@, overlay@, prefix@).1,
{
    let (m, lines) = merge_ref(base, &overlay, &chars_of(prefix));
    *base = m;
    lines
}

// ── unknown keys, as code ───────────────────────────────────────────────────

fn table_get_ex<'a>(v: &'a PrefValue, k: &String) -> (r: Option<&'a PrefValue>)
    ensures
        match r {
            Some(x) => table_get(v@, k@) == Some(x@),
            None => table_get(v@, k@) is None,
        },
{
    match v {
        PrefValue::Table(es) => {
            proof {
                lemma_table_view(*es);
                lemma_entries_len(*es);
            }
            match find_entry(es, k) {
                Some(i) => Some(&es[i].1),
                None => None,
            }
        },
        PrefValue::Leaf { .. } => None,
    }
}

fn unknown_step_ex(base: &PrefValue, key: &String, val: &PrefValue, prefix: &Vec<char>, unknown: &mut Vec<String>)
    ensures
        strs(final(unknown)@) == strs(old(unknown)@) + unknown_step(base@, key@, val@, prefix@),
    decreases val, 1int,
{
    let fk = full_key_ex(prefix, key);
    match table_get_ex(base, key) {
        Some(bv) => {
            if is_table(val) && is_table(bv) {
                collect_unknown_ex(bv, val, &fk, unknown);
            } else {
                assert(strs(unknown@) =~= strs(unknown@) + seq![]);
            }
        },
        None => {
            let ghost before = strs(unknown@);
            let s = string_of(&fk);
            unknown.push(s);
            assert(strs(unknown@) =~= before + seq![fk@]);
        },
    }
}

fn collect_unknown_ex(base: &PrefValue, overlay: &PrefValue, prefix: &Vec<char>, unknown: &mut Vec<String>)
    ensures
        strs(final(unknown)@) == strs(old(unknown)@) + unknown_v(base@, overlay@, prefix@),
    decreases overlay, 0int,
{
    let ghost start = strs(unknown@);
    match overlay {
        PrefValue::Table(oes) => {
            let ghost ov = entries_view(oes@);
            proof {
                lemma_table_view(*oes);
                lemma_entries_len(*oes);
            }
            let mut j: usize = 0;
            assert(ov.take(0) =~= seq![]);
            assert(start + seq![] =~= start);
            while j < oes.len()
                invariant
                    j <= oes.len(),
                    *overlay == PrefValue::Table(*oes),
                    ov == entries_view(oes@),
                    ov.len() == oes.len(),
                    forall|q: int| 0 <= q < oes@.len() ==> #[trigger] ov[q] == (oes@[q].0@, oes@[q].1@),
                    strs(unknown@) == start + unknown_entries(base@, ov.take(j as int), prefix@),
                decreases oes.len() - j,
            {
                assert(ov.take(j + 1).drop_last() =~= ov.take(j as int));
                assert(ov.take(j + 1).last() == ov[j as int]);
                proof {
                    assert(decreases_to!(*overlay => overlay->Table_0));
                    assert(decreases_to!(*oes => oes@));
                    assert(decreases_to!(oes@ => oes@[j as int]));
                    assert(decreases_to!(oes@[j as int] => oes@[j as int].1));
                }
                unknown_step_ex(base, &oes[j].0, &oes[j].1, prefix, unknown);
                assert(strs(unknown@) =~= start + unknown_entries(base@, ov.take(j + 1), prefix@));
                j = j + 1;
            }
            assert(ov.take(oes.len() as int) =~= ov);
        },
        PrefValue::Leaf { .. } => {
            assert(strs(unknown@) =~= start + seq![]);
        },
    }
}

/// Append to `unknown` the dotted keys present in `overlay` but absent from `base`,
/// in the order of `overlay` (where both hold a table under a key, the search goes on
/// inside). `prefix` is the dotted-key path leading to both.
pub fn collect_unknown_keys(base: &PrefValue, overlay: &PrefValue, prefix: &str, unknown: &mut Vec<String>)
    ensures
        strs(final(unknown)@) == strs(old(unknown)@) + unknown_v(base@, overlay@, prefix@),
{
    collect_unknown_ex(base, overlay, &chars_of(prefix), unknown);
}

/// The dotted keys present in `overlay` but absent from `base`, in order.
pub fn find_unknown_keys(base: &PrefValue, overlay: &PrefValue, prefix: &str) -> (r: Vec<String>)
    ensures
        strs(r@) == unknown_v(base@, overlay@, prefix@),
{
    let mut unknown: Vec<String> = Vec::new();
    collect_unknown_keys(base, overlay, prefix, &mut unknown);
    assert(strs(unknown@) =~= seq![] + unknown_v(base@, overlay@, prefix@));
    unknown
}

} // verus!

verus! {

// ── laws of the merge ───────────────────────────────────────────────────────

/// The value reached from `v` by the keys `p`, table by table.
pub open spec fn get_path(v: PrefV, p: Seq<Seq<char>>) -> Option<PrefV>
    decreases p.len(),
{
    if p.len() == 0 {
        Some(v)
    } else {
        match table_get(v, p[0]) {
            Some(c) => get_path(c, p.drop_first()),
            None => None,
        }
    }
}

/// No key occurs twice in a table.
pub open spec fn keys_unique(es: Seq<(Seq<char>, PrefV)>) -> bool {
    forall|i: int, j: int| 0 <= i < j < es.len() ==> es[i].0 != es[j].0
}

/// Every table of the tree has distinct keys (as the tables of a TOML document do).
pub open spec fn pref_wf(v: PrefV) -> bool {
    forall|p: Seq<Seq<char>>| table_ok(#[trigger] get_path(v, p))
}

/// A table found, if any, has distinct keys.
pub open spec fn table_ok(o: Option<PrefV>) -> bool {
    match o {
        Some(PrefV::Table(es)) => keys_unique(es),
        _ => true,
    }
}

/// What merging `val` under a key leaves there, given what the key held before.
pub open spec fn merge_val(old: Option<PrefV>, val: PrefV, fk: Seq<char>) -> PrefV {
    match old {
        Some(bv) => if bv is Table && val is Table {
            merge_v(bv, val, fk).0
        } else {
            val
        },
        None => if val is Table {
            merge_v(PrefV::Table(seq![]), val, fk).0
        } else {
            val
        },
    }
}

#[verifier::spinoff_prover]
#[verifier::rlimit(40)]
proof fn lemma_step_lookup(
    acc: (Seq<(Seq<char>, PrefV)>, Seq<Seq<char>>),
    key: Seq<char>,
    val: PrefV,
    prefix: Seq<char>,
    k: Seq<char>,
)
    ensures
        table_get(PrefV::Table(merge_step(acc, key, val, prefix).0), k) == (if k == key {
            Some(merge_val(table_get(PrefV::Table(acc.0), k), val, full_key(prefix, key)))
        } else {
            table_get(PrefV::Table(acc.0), k)
        }),
{
    let es = acc.0;
    let r = merge_step(acc, key, val, prefix).0;
    let i = entry_index(es, key);
    lemma_first_index_bounds(keys_of(es), key);
    lemma_first_index_bounds(keys_of(es), k);
    if 0 <= i < es.len() {
        assert(keys_of(es)[i] == key);
        assert(keys_of(r) =~= keys_of(es));
        assert(entry_index(r, k) == entry_index(es, k));
    } else {
        assert(keys_of(r) =~= keys_of(es).push(key));
        lemma_first_index_push(keys_of(es), key, k);
        if k == key {
            assert(entry_index(r, k) == es.len());
        }
    }
}

proof fn lemma_entries_lookup(bes: Seq<(Seq<char>, PrefV)>, oes: Seq<(Seq<char>, PrefV)>, prefix: Seq<char>, k: Seq<char>)
    requires
        keys_unique(oes),
    ensures
        ({
            let j = entry_index(oes, k);
            table_get(PrefV::Table(merge_entries(bes, oes, prefix).0), k) == (if 0 <= j < oes.len() {
                Some(merge_val(table_get(PrefV::Table(bes), k), oes[j].1, full_key(prefix, k)))
            } else {
                table_get(PrefV::Table(bes), k)
            })
        }),
    decreases oes.len(),
{
    lemma_first_index_bounds(keys_of(oes), k);
    if oes.len() > 0 {
        let pre = oes.drop_last();
        assert(keys_unique(pre));
        lemma_entries_lookup(bes, pre, prefix, k);
        let acc = merge_entries(bes, pre, prefix);
        lemma_step_lookup(acc, oes.last().0, oes.last().1, prefix, k);
        assert(keys_of(oes) =~= keys_of(pre).push(oes.last().0));
        lemma_first_index_push(keys_of(pre), oes.last().0, k);
        lemma_first_index_bounds(keys_of(pre), k);
        if k == oes.last().0 {
            if keys_of(pre).contains(k) {
                let q = choose|q: int| 0 <= q < keys_of(pre).len() && keys_of(pre)[q] == k;
                assert(oes[q].0 == oes[oes.len() - 1].0);
            }
            assert(entry_index(oes, k) == oes.len() - 1);
        } else {
            assert(entry_index(oes, k) == entry_index(pre, k));
            if 0 <= entry_index(pre, k) {
                assert(pre[entry_index(pre, k)] == oes[entry_index(oes, k)]);
            }
        }
    }
}

proof fn lemma_wf_child(v: PrefV, k: Seq<char>)
    requires
        pref_wf(v),
        table_get(v, k) is Some,
    ensures
        pref_wf(table_get(v, k)->Some_0),
{
    let c = table_get(v, k)->Some_0;
    assert forall|q: Seq<Seq<char>>| table_ok(#[trigger] get_path(c, q)) by {
        let p = seq![k] + q;
        assert(p.drop_first() =~= q);
        assert(get_path(v, p) == get_path(c, q));
    }
}

proof fn lemma_wf_top(v: PrefV)
    requires
        pref_wf(v),
        v is Table,
    ensures
        keys_unique(v->Table_0),
{
    assert(get_path(v, seq![]) == Some(v));
}

/// A later document overrides an earlier one: after merging `overlay` into `base`,
/// every leaf of `overlay` is found under its keys.
pub proof fn lemma_merge_overrides_leaves(base: PrefV, overlay: PrefV, prefix: Seq<char>, p: Seq<Seq<char>>)
    requires
        pref_wf(overlay),
        get_path(overlay, p) matches Some(PrefV::Leaf(..)),
    ensures
        get_path(merge_v(base, overlay, prefix).0, p) == get_path(overlay, p),
    decreases p.len(),
{
    if p.len() > 0 {
        let k = p[0];
        let rest = p.drop_first();
        if let PrefV::Table(oes) = overlay {
            if let PrefV::Table(bes) = base {
                let j = entry_index(oes, k);
                lemma_wf_top(overlay);
                lemma_first_index_bounds(keys_of(oes), k);
                lemma_entries_lookup(bes, oes, prefix, k);
                let val = oes[j].1;
                lemma_wf_child(overlay, k);
                if val is Table {
                    match table_get(base, k) {
                        Some(bv) => if bv is Table {
                            lemma_merge_overrides_leaves(bv, val, full_key(prefix, k), rest);
                        },
                        None => {
                            lemma_merge_overrides_leaves(PrefV::Table(seq![]), val, full_key(prefix, k), rest);
                        },
                    }
                }
            }
        }
    }
}

/// The keys `p` lead, in `overlay`, only through tables, and end outside it: merging
/// `overlay` leaves the value under `p` alone.
pub open spec fn untouched(overlay: PrefV, p: Seq<Seq<char>>) -> bool
    decreases p.len(),
{
    p.len() > 0 && overlay is Table && match table_get(overlay, p[0]) {
        None => true,
        Some(val) => val is Table && untouched(val, p.drop_first()),
    }
}

/// What a later document does not mention keeps its earlier value: after merging
/// `overlay` into `base`, a value of `base` under keys that `overlay` leaves untouched
/// is found there still.
pub proof fn lemma_merge_keeps_untouched(
    base: PrefV,
    overlay: PrefV,
    prefix: Seq<char>,
    p: Seq<Seq<char>>,
    x: PrefV,
)
    requires
        pref_wf(overlay),
        untouched(overlay, p),
        get_path(base, p) == Some(x),
    ensures
        get_path(merge_v(base, overlay, prefix).0, p) == Some(x),
    decreases p.len(),
{
    let k = p[0];
    let rest = p.drop_first();
    if let PrefV::Table(oes) = overlay {
        if let PrefV::Table(bes) = base {
            let j = entry_index(oes, k);
            lemma_wf_top(overlay);
            lemma_first_index_bounds(keys_of(oes), k);
            lemma_entries_lookup(bes, oes, prefix, k);
            if 0 <= j < oes.len() {
                let val = oes[j].1;
                lemma_wf_child(overlay, k);
                let bv = table_get(base, k)->Some_0;
                lemma_merge_keeps_untouched(bv, val, full_key(prefix, k), rest, x);
            }
        }
    }
}

} // verus!

verus! {

// ── the preference sources ──────────────────────────────────────────────────

/// A parsed preference document and the name it is reported under.
pub struct PrefSource {
    pub name: String,
    pub tree: PrefValue,
}

/// What loading the preferences reports, in order.
pub enum PrefNote {
    /// A preference file holds a key that the preferences so far lack (a warning; the
    /// key is merged all the same).
    Unknown { source: String, key: String },
    /// A trace line.
    Trace(String),
    /// A preference file that does not parse, with the parser's message (a warning; the
    /// file is skipped).
    Unreadable { source: String, message: String },
}

pub enum PrefNoteV {
    Unknown { source: Seq<char>, key: Seq<char> },
    Trace(Seq<char>),
    Unreadable { source: Seq<char>, message: Seq<char> },
}

impl View for PrefNote {
    type V = PrefNoteV;

    open spec fn view(&self) -> PrefNoteV {
        match self {
            PrefNote::Unknown { source, key } => PrefNoteV::Unknown { source: source@, key: key@ },
            PrefNote::Trace(t) => PrefNoteV::Trace(t@),
            PrefNote::Unreadable { source, message } => PrefNoteV::Unreadable { source: source@, message: message@ },
        }
    }
}

pub open spec fn notes_view(v: Seq<PrefNote>) -> Seq<PrefNoteV> {
    v.map_values(|n: PrefNote| n@)
}

pub open spec fn sources_view(v: Seq<PrefSource>) -> Seq<(Seq<char>, PrefV)> {
    v.map_values(|s: PrefSource| (s.name@, s.tree@))
}

/// The trace line that opens a source.
pub open spec fn source_line(name: Seq<char>) -> Seq<char> {
    "PREF SOURCE "@ + name
}

pub open spec fn traces(lines: Seq<Seq<char>>) -> Seq<PrefNoteV> {
    lines.map_values(|l: Seq<char>| PrefNoteV::Trace(l))
}

pub open spec fn unknowns(source: Seq<char>, keys: Seq<Seq<char>>) -> Seq<PrefNoteV> {
    keys.map_values(|k: Seq<char>| PrefNoteV::Unknown { source, key: k })
}

/// A preference file merged: its unknown keys reported, then its source line and the
/// trace of the merge.
pub open spec fn file_step(acc: (PrefV, Seq<PrefNoteV>), name: Seq<char>, t: PrefV) -> (PrefV, Seq<PrefNoteV>) {
    let m = merge_v(acc.0, t, seq![]);
    (m.0, acc.1 + unknowns(name, unknown_v(acc.0, t, seq![])) + seq![PrefNoteV::Trace(source_line(name))] + traces(m.1))
}

pub open spec fn files_v(acc: (PrefV, Seq<PrefNoteV>), files: Seq<(Seq<char>, PrefV)>) -> (PrefV, Seq<PrefNoteV>)
    decreases files.len(),
{
    if files.len() == 0 {
        acc
    } else {
        let a = files_v(acc, files.drop_last());
        file_step(a, files.last().0, files.last().1)
    }
}

/// A `--pref` override merged, unless it holds a key that the preferences lack: then
/// the keys are the answer and nothing of it is merged.
pub open spec fn override_step(
    acc: Result<(PrefV, Seq<PrefNoteV>), Seq<Seq<char>>>,
    name: Seq<char>,
    t: PrefV,
) -> Result<(PrefV, Seq<PrefNoteV>), Seq<Seq<char>>> {
    match acc {
        Err(e) => Err(e),
        Ok(a) => {
            let unk = unknown_v(a.0, t, seq![]);
            if unk.len() > 0 {
                Err(unk)
            } else {
                let m = merge_v(a.0, t, seq![]);
                Ok((m.0, a.1 + seq![PrefNoteV::Trace(source_line(name))] + traces(m.1)))
            }
        },
    }
}

pub open spec fn overrides_v(
    acc: Result<(PrefV, Seq<PrefNoteV>), Seq<Seq<char>>>,
    ovs: Seq<(Seq<char>, PrefV)>,
) -> Result<(PrefV, Seq<PrefNoteV>), Seq<Seq<char>>>
    decreases ovs.len(),
{
    if ovs.len() == 0 {
        acc
    } else {
        override_step(overrides_v(acc, ovs.drop_last()), ovs.last().0, ovs.last().1)
    }
}

/// The defaults merged into an empty table, with their source line and trace.
pub open spec fn defaults_v(d: (Seq<char>, PrefV)) -> (PrefV, Seq<PrefNoteV>) {
    let m = merge_v(PrefV::Table(seq![]), d.1, seq![]);
    (m.0, seq![PrefNoteV::Trace(source_line(d.0))] + traces(m.1))
}

/// The preferences from all sources, lowest priority first: the defaults, then the
/// files in order, then the overrides in order; or the unknown keys of the first
/// override that holds any.
pub open spec fn load_v(
    d: (Seq<char>, PrefV),
    files: Seq<(Seq<char>, PrefV)>,
    ovs: Seq<(Seq<char>, PrefV)>,
) -> Result<(PrefV, Seq<PrefNoteV>), Seq<Seq<char>>> {
    overrides_v(Ok(files_v(defaults_v(d), files)), ovs)
}

pub(crate) fn trace_notes(notes: &mut Vec<PrefNote>, lines: Vec<String>)
    ensures
        notes_view(final(notes)@) == notes_view(old(notes)@) + traces(strs(lines@)),
{
    let ghost start = notes_view(notes@);
    let mut i: usize = 0;
    while i < lines.len()
        invariant
            i <= lines.len(),
            notes_view(notes@) == start + traces(strs(lines@)).take(i as int),
        decreases lines.len() - i,
    {
        let ghost before = notes_view(notes@);
        notes.push(PrefNote::Trace(lines[i].clone()));
        assert(notes_view(notes@) =~= before.push(PrefNoteV::Trace(lines@[i as int]@)));
        assert(traces(strs(lines@)).take(i + 1) =~= traces(strs(lines@)).take(i as int).push(
            PrefNoteV::Trace(lines@[i as int]@),
        ));
        i = i + 1;
    }
    assert(traces(strs(lines@)).take(lines.len() as int) =~= traces(strs(lines@)));
}

pub(crate) fn source_note(notes: &mut Vec<PrefNote>, name: &str)
    ensures
        notes_view(final(notes)@) == notes_view(old(notes)@) + seq![PrefNoteV::Trace(source_line(name@))],
{
    let mut s = string_of(&chars_of("PREF SOURCE "));
    append_chars(&mut s, &chars_of(name));
    let ghost before = notes_view(notes@);
    notes.push(PrefNote::Trace(s));
    assert(notes_view(notes@) =~= before + seq![PrefNoteV::Trace(source_line(name@))]);
}

/// Merge a preference file into `base`: report each key that `base` lacks, then the
/// file's source line and the trace of the merge; the unknown keys are merged too.
pub fn merge_file(base: &mut PrefValue, name: &str, overlay: PrefValue, notes: &mut Vec<PrefNote>)
    ensures
        (final(base)@, notes_view(final(notes)@)) == file_step(
            (old(base)@, notes_view(old(notes)@)),
            name@,
            overlay@,
        ),
{
    proof {
        reveal_strlit("");
    }
    assert(""@ =~= Seq::<char>::empty());
    let unknown = find_unknown_keys(base, &overlay, "");
    let ghost start = notes_view(notes@);
    let ghost uk = strs(unknown@);
    let mut i: usize = 0;
    while i < unknown.len()
        invariant
            i <= unknown.len(),
            uk == strs(unknown@),
            notes_view(notes@) == start + unknowns(name@, uk).take(i as int),
        decreases unknown.len() - i,
    {
        let ghost before = notes_view(notes@);
        notes.push(PrefNote::Unknown { source: string_of(&chars_of(name)), key: unknown[i].clone() });
        assert(notes_view(notes@) =~= before.push(PrefNoteV::Unknown { source: name@, key: uk[i as int] }));
        assert(unknowns(name@, uk).take(i + 1) =~= unknowns(name@, uk).take(i as int).push(
            PrefNoteV::Unknown { source: name@, key: uk[i as int] },
        ));
        i = i + 1;
    }
    assert(unknowns(name@, uk).take(unknown.len() as int) =~= unknowns(name@, uk));
    source_note(notes, name);
    let lines = merge_toml_tracked(base, overlay, "");
    trace_notes(notes, lines);
}

/// Merge a `--pref` override into `base`, unless it holds a key that `base` lacks:
/// then `base` stays as it was and the unknown keys are the error. On success, the
/// trace of the merge.
pub fn merge_pref_str(base: &mut PrefValue, overlay: PrefValue) -> (r: Result<Vec<String>, Vec<String>>)
    ensures
        match r {
            Err(u) => unknown_v(old(base)@, overlay@, seq![]).len() > 0 && strs(u@) == unknown_v(
                old(base)@,
                overlay@,
                seq![],
            ) && final(base)@ == old(base)@,
            Ok(lines) => unknown_v(old(base)@, overlay@, seq![]).len() == 0 && (final(base)@, strs(lines@))
                == merge_v(old(base)@, overlay@, seq![]),
        },
{
    proof {
        reveal_strlit("");
    }
    assert(""@ =~= Seq::<char>::empty());
    let unknown = find_unknown_keys(base, &overlay, "");
    assert(strs(unknown@).len() == unknown.len());
    if unknown.len() > 0 {
        Err(unknown)
    } else {
        Ok(merge_toml_tracked(base, overlay, ""))
    }
}

#[verifier::spinoff_prover]
#[verifier::rlimit(30)]
/// Load the preferences from all sources, lowest priority first: the defaults (merged
/// into an empty table), each preference file in order (unknown keys reported and
/// merged), then each `--pref` override in order. An override with an unknown key
/// stops the loading: its unknown keys are the error.
pub fn load(defaults: PrefSource, files: Vec<PrefSource>, overrides: Vec<PrefSource>) -> (r: Result<
    (PrefValue, Vec<PrefNote>),
    Vec<String>,
>)
    ensures
        r is Ok ==> load_v((defaults.name@, defaults.tree@), sources_view(files@), sources_view(overrides@))
            == Ok::<(PrefV, Seq<PrefNoteV>), Seq<Seq<char>>>((r->Ok_0.0@, notes_view(r->Ok_0.1@))),
        r is Err ==> load_v((defaults.name@, defaults.tree@), sources_view(files@), sources_view(overrides@))
            == Err::<(PrefV, Seq<PrefNoteV>), Seq<Seq<char>>>(strs(r->Err_0@)),
{
    let ghost dv = (defaults.name@, defaults.tree@);
    let ghost fv = sources_view(files@);
    let ghost ov = sources_view(overrides@);
    let empty: Vec<(String, PrefValue)> = Vec::new();
    proof {
        lemma_table_view(empty);
        assert(entries_view(empty@) =~= seq![]);
    }
    let mut base = PrefValue::Table(empty);
    let mut notes: Vec<PrefNote> = Vec::new();
    assert(notes_view(notes@) =~= seq![]);
    source_note(&mut notes, defaults.name.as_str());
    proof {
        reveal_strlit("");
    }
    assert(""@ =~= Seq::<char>::empty());
    let lines = merge_toml_tracked(&mut base, clone_pref(&defaults.tree), "");
    trace_notes(&mut notes, lines);
    assert(notes_view(notes@) =~= defaults_v(dv).1);
    let mut k: usize = 0;
    while k < files.len()
        invariant
            k <= files.len(),
            fv == sources_view(files@),
            fv.len() == files.len(),
            (base@, notes_view(notes@)) == files_v(defaults_v(dv), fv.take(k as int)),
        decreases files.len() - k,
    {
        assert(fv[k as int] == (files@[k as int].name@, files@[k as int].tree@));
        assert(fv.take(k + 1).drop_last() =~= fv.take(k as int));
        let t = clone_pref(&files[k].tree);
        merge_file(&mut base, files[k].name.as_str(), t, &mut notes);
        k = k + 1;
    }
    assert(fv.take(fv.len() as int) =~= fv);
    let ghost acc0 = Ok::<(PrefV, Seq<PrefNoteV>), Seq<Seq<char>>>(files_v(defaults_v(dv), fv));
    let mut j: usize = 0;
    while j < overrides.len()
        invariant
            j <= overrides.len(),
            dv == (defaults.name@, defaults.tree@),
            fv == sources_view(files@),
            ov == sources_view(overrides@),
            ov.len() == overrides.len(),
            acc0 == Ok::<(PrefV, Seq<PrefNoteV>), Seq<Seq<char>>>(files_v(defaults_v(dv), fv)),
            overrides_v(acc0, ov.take(j as int)) == Ok::<(PrefV, Seq<PrefNoteV>), Seq<Seq<char>>>(
                (base@, notes_view(notes@)),
            ),
        decreases overrides.len() - j,
    {
        let ghost sv = (overrides@[j as int].name@, overrides@[j as int].tree@);
        assert(ov[j as int] == sv);
        assert(ov.take(j + 1).drop_last() =~= ov.take(j as int));
        assert(overrides_v(acc0, ov.take(j + 1)) == override_step(overrides_v(acc0, ov.take(j as int)), sv.0, sv.1));
        let src = PrefSource { name: overrides[j].name.clone(), tree: clone_pref(&overrides[j].tree) };
        match override_one(&mut base, &mut notes, src) {
            Some(u) => {
                proof {
                    lemma_overrides_err(acc0, ov, j + 1);
                }
                return Err(u);
            },
            None => {},
        }
        j = j + 1;
    }
    assert(ov.take(ov.len() as int) =~= ov);
    Ok((base, notes))
}

/// One override merged (`None`), or refused with its unknown keys.
pub(crate) fn override_one(base: &mut PrefValue, notes: &mut Vec<PrefNote>, s: PrefSource) -> (r: Option<Vec<String>>)
    ensures
        match r {
            None => override_step(
                Ok((old(base)@, notes_view(old(notes)@))),
                s.name@,
                s.tree@,
            ) == Ok::<(PrefV, Seq<PrefNoteV>), Seq<Seq<char>>>((final(base)@, notes_view(final(notes)@))),
            Some(u) => override_step(Ok((old(base)@, notes_view(old(notes)@))), s.name@, s.tree@) == Err::<
                (PrefV, Seq<PrefNoteV>),
                Seq<Seq<char>>,
            >(strs(u@)),
        },
{
    let PrefSource { name, tree } = s;
    match merge_pref_str(base, tree) {
        Err(u) => Some(u),
        Ok(lines) => {
            source_note(notes, name.as_str());
            trace_notes(notes, lines);
            None
        },
    }
}

/// Once an override is refused, the loading stays refused.
proof fn lemma_overrides_err(
    acc: Result<(PrefV, Seq<PrefNoteV>), Seq<Seq<char>>>,
    ovs: Seq<(Seq<char>, PrefV)>,
    n: int,
)
    requires
        0 <= n <= ovs.len(),
        overrides_v(acc, ovs.take(n)) is Err,
    ensures
        overrides_v(acc, ovs) == overrides_v(acc, ovs.take(n)),
    decreases ovs.len() - n,
{
    if n < ovs.len() {
        assert(ovs.take(n + 1).drop_last() =~= ovs.take(n));
        lemma_overrides_err(acc, ovs, n + 1);
    } else {
        assert(ovs.take(n) =~= ovs);
    }
}

/// Preference files only warn about unknown keys: without overrides, loading always
/// succeeds; and the last file wins: each of its leaves is found under its keys.
pub proof fn lemma_load_later_file_wins(
    d: (Seq<char>, PrefV),
    files: Seq<(Seq<char>, PrefV)>,
    p: Seq<Seq<char>>,
)
    requires
        files.len() > 0,
        pref_wf(files.last().1),
        get_path(files.last().1, p) matches Some(PrefV::Leaf(..)),
    ensures
        load_v(d, files, seq![]) is Ok,
        get_path(load_v(d, files, seq![])->Ok_0.0, p) == get_path(files.last().1, p),
{
    let prev = files_v(defaults_v(d), files.drop_last());
    lemma_merge_overrides_leaves(prev.0, files.last().1, seq![], p);
}

/// An override wins over every file and earlier override: when the loading succeeds,
/// each leaf of the last override is found under its keys.
pub proof fn lemma_load_override_wins(
    d: (Seq<char>, PrefV),
    files: Seq<(Seq<char>, PrefV)>,
    ovs: Seq<(Seq<char>, PrefV)>,
    p: Seq<Seq<char>>,
)
    requires
        ovs.len() > 0,
        pref_wf(ovs.last().1),
        get_path(ovs.last().1, p) matches Some(PrefV::Leaf(..)),
    ensures
        load_v(d, files, ovs) is Ok ==> get_path(load_v(d, files, ovs)->Ok_0.0, p) == get_path(
            ovs.last().1,
            p,
        ),
{
    let prev = overrides_v(Ok(files_v(defaults_v(d), files)), ovs.drop_last());
    if let Ok(a) = prev {
        lemma_merge_overrides_leaves(a.0, ovs.last().1, seq![], p);
    }
}

} // verus!
