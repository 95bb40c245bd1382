//! Preferences that the layouts read.
//!
//! Only the settings used by the library's own logic live here, with the choices the
//! command line makes from them; the full preference tree is loaded by `pref_text`.

use vstd::prelude::*;
use crate::genrep::strs;
use crate::text::{chars_of, lines, lines_of, string_of, tokens, tokens_of, trim, trim_of, trim_start, trim_start_of, vview};

verus! {

pub struct ScopePrefs {
    pub root: String,
    pub generations: u32,
    pub direction: String,
}

pub struct ShowPrefs {
    pub generation_num: bool,
    pub nickname: bool,
    pub sex: bool,
    pub birth: bool,
    pub death: bool,
    pub marriage: bool,
    pub notes: bool,
    pub notes_html: bool,
    pub last_gen_spouses: bool,
    pub id: bool,
    pub duplicated_individual: bool,
    pub photo: bool,
}

pub struct SimpleLayoutPrefs {
    pub indent: u32,
    pub vert_spacing: u32,
}

impl Default for ScopePrefs {
    fn default() -> (r: Self)
        ensures
            r.root@ == Seq::<char>::empty(),
            r.generations == 0,
            r.direction@ == Seq::<char>::empty(),
    {
        ScopePrefs { root: String::new(), generations: 0, direction: String::new() }
    }
}

impl Default for ShowPrefs {
    fn default() -> (r: Self)
        ensures
            !r.generation_num && !r.nickname && !r.sex && !r.birth && !r.death && !r.marriage,
            !r.notes && !r.notes_html && !r.last_gen_spouses && !r.id,
            !r.duplicated_individual && !r.photo,
    {
        ShowPrefs {
            generation_num: false,
            nickname: false,
            sex: false,
            birth: false,
            death: false,
            marriage: false,
            notes: false,
            notes_html: false,
            last_gen_spouses: false,
            id: false,
            duplicated_individual: false,
            photo: false,
        }
    }
}

impl Default for SimpleLayoutPrefs {
    fn default() -> (r: Self)
        ensures
            r.indent == 0,
            r.vert_spacing == 0,
    {
        SimpleLayoutPrefs { indent: 0, vert_spacing: 0 }
    }
}

/// The default of a switch that is on unless configured off.
pub fn default_true() -> (r: bool)
    ensures
        r,
{
    true
}

// ── `--pref` assignments ─────────────────────────────────────────────────────

/// Splitting state: segments done, the current segment, inside `"…"`, inside `'…'`.
pub struct SplitV {
    pub done: Seq<Seq<char>>,
    pub cur: Seq<char>,
    pub dq: bool,
    pub sq: bool,
}

/// A trimmed segment is kept when it is not empty.
pub open spec fn keep_seg(done: Seq<Seq<char>>, cur: Seq<char>) -> Seq<Seq<char>> {
    if trim(cur).len() > 0 {
        done.push(trim(cur))
    } else {
        done
    }
}

pub open spec fn split_step(st: SplitV, c: char) -> SplitV {
    if c == '"' && !st.sq {
        SplitV { dq: !st.dq, cur: st.cur.push(c), ..st }
    } else if c == '\'' && !st.dq {
        SplitV { sq: !st.sq, cur: st.cur.push(c), ..st }
    } else if c == ',' && !st.dq && !st.sq {
        SplitV { done: keep_seg(st.done, st.cur), cur: seq![], ..st }
    } else {
        SplitV { cur: st.cur.push(c), ..st }
    }
}

pub open spec fn split_fold(s: Seq<char>) -> SplitV
    decreases s.len(),
{
    if s.len() == 0 {
        SplitV { done: seq![], cur: seq![], dq: false, sq: false }
    } else {
        split_step(split_fold(s.drop_last()), s.last())
    }
}

/// The assignments of a `--pref` string: split on commas outside quotes, trimmed, empty
/// ones dropped.
pub open spec fn spec_split_prefs(s: Seq<char>) -> Seq<Seq<char>> {
    let st = split_fold(s);
    keep_seg(st.done, st.cur)
}

fn push_seg(done: &mut Vec<String>, cur: &Vec<char>)
    ensures
        strs(final(done)@) == keep_seg(strs(old(done)@), cur@),
{
    let t = trim_of(cur);
    if t.len() > 0 {
        let ghost before = strs(done@);
        done.push(string_of(&t));
        assert(strs(done@) =~= before.push(t@));
    }
}

/// Split `s` on commas that are not inside a quoted TOML string.
/// This allows values like `format.marriage = "a, b"` in a single --pref argument.
pub fn split_pref_assignments(s: &str) -> (r: Vec<String>)
    ensures
        strs(r@) == spec_split_prefs(s@),
{
    let c = chars_of(s);
    let mut done: Vec<String> = Vec::new();
    let mut cur: Vec<char> = Vec::new();
    let mut dq = false;
    let mut sq = false;
    let mut i: usize = 0;
    assert(strs(done@) =~= seq![]);
    while i < c.len()
        invariant
            i <= c.len(),
            c@ == s@,
            (SplitV { done: strs(done@), cur: cur@, dq, sq }) == split_fold(c@.take(i as int)),
        decreases c.len() - i,
    {
        assert(c@.take(i + 1).drop_last() =~= c@.take(i as int));
        let ch = c[i];
        if ch == '"' && !sq {
            dq = !dq;
            cur.push(ch);
        } else if ch == '\'' && !dq {
            sq = !sq;
            cur.push(ch);
        } else if ch == ',' && !dq && !sq {
            push_seg(&mut done, &cur);
            cur = Vec::new();
        } else {
            cur.push(ch);
        }
        i = i + 1;
        assert(cur@ =~= split_fold(c@.take(i as int)).cur);
    }
    assert(c@.take(c.len() as int) =~= c@);
    push_seg(&mut done, &cur);
    done
}

// ── highlights ───────────────────────────────────────────────────────────────

pub open spec fn set_with(s: Seq<Seq<char>>, x: Seq<char>) -> Seq<Seq<char>> {
    if s.contains(x) {
        s
    } else {
        s.push(x)
    }
}

/// A highlights line names an ID unless it is blank or a `#` comment.
pub open spec fn highlight_line(l: Seq<char>) -> bool {
    !(trim_start(l).len() > 0 && trim_start(l)[0] == '#') && trim(l).len() > 0
}

pub open spec fn highlights_from(ls: Seq<Seq<char>>) -> Seq<Seq<char>>
    decreases ls.len(),
{
    if ls.len() == 0 {
        seq![]
    } else {
        let r = highlights_from(ls.drop_last());
        let l = ls.last();
        if highlight_line(l) {
            set_with(r, tokens(l, false)[0])
        } else {
            r
        }
    }
}

/// The IDs of a highlights file: the first word of each line that is neither blank nor
/// a `#` comment, each ID once.
pub open spec fn spec_highlights(content: Seq<char>) -> Seq<Seq<char>> {
    highlights_from(lines(content))
}

/// Read the IDs of a highlights file from its text.
pub fn parse_highlights(content: &str) -> (r: Vec<String>)
    ensures
        strs(r@) == spec_highlights(content@),
{
    let ls = lines_of(&chars_of(content));
    let ghost lv = vview(ls@);
    let mut out: Vec<String> = Vec::new();
    let mut i: usize = 0;
    assert(lv.take(0) =~= seq![]);
    assert(strs(out@) =~= seq![]);
    while i < ls.len()
        invariant
            i <= ls.len(),
            lv == vview(ls@),
            strs(out@) == highlights_from(lv.take(i as int)),
        decreases ls.len() - i,
    {
        assert(lv.take(i + 1).drop_last() =~= lv.take(i as int));
        assert(lv.take(i + 1).last() == ls@[i as int]@);
        let l = &ls[i];
        let ts = trim_start_of(l);
        let t = trim_of(l);
        let comment = ts.len() > 0 && ts[0] == '#';
        if !comment && t.len() > 0 {
            let toks = tokens_of(l, false);
            proof {
                crate::text::lemma_tokens_nonempty(l@);
            }
            assert(vview(toks@).len() == toks.len());
            let id = string_of(&toks[0]);
            if !crate::parser::contains_chars(&out, &toks[0]) {
                let ghost before = strs(out@);
                out.push(id);
                assert(strs(out@) =~= before.push(toks@[0]@));
            }
        }
        i = i + 1;
    }
    assert(lv.take(ls.len() as int) =~= lv);
    out
}


// ── choices of the command line ─────────────────────────────────────────────

/// The output type that a lower-case file extension names: `txt`, `svg` or `pdf`.
pub open spec fn ext_output_type(lower_ext: Seq<char>) -> Option<Seq<char>> {
    if lower_ext == seq!['t', 'x', 't'] {
        Some(seq!['t', 'e', 'x', 't'])
    } else if lower_ext == seq!['s', 'v', 'g'] {
        Some(seq!['s', 'v', 'g'])
    } else if lower_ext == seq!['p', 'd', 'f'] {
        Some(seq!['p', 'd', 'f'])
    } else {
        None
    }
}

/// The output type that the command line asks for: `--text`, `--svg`, `--pdf`, in that
/// order; otherwise the one that the output file's extension names, in any case.
pub open spec fn spec_output_type(text: bool, svg: bool, pdf: bool, ext: Option<Seq<char>>) -> Option<Seq<char>> {
    if text {
        Some(seq!['t', 'e', 'x', 't'])
    } else if svg {
        Some(seq!['s', 'v', 'g'])
    } else if pdf {
        Some(seq!['p', 'd', 'f'])
    } else {
        match ext {
            Some(e) => ext_output_type(crate::trace::lower_of(e)),
            None => None,
        }
    }
}

fn chars_string(c: &[char]) -> (r: String)
    ensures
        r@ == c@,
{
    let mut v: Vec<char> = Vec::new();
    let mut i: usize = 0;
    while i < c.len()
        invariant
            i <= c.len(),
            v@ == c@.take(i as int),
        decreases c.len() - i,
    {
        v.push(c[i]);
        i = i + 1;
        assert(v@ =~= c@.take(i as int));
    }
    assert(c@.take(c.len() as int) =~= c@);
    string_of(&v)
}

/// The output type from the command-line flags and the extension of the output file.
pub fn output_type_for(text: bool, svg: bool, pdf: bool, ext: Option<&str>) -> (r: Option<String>)
    ensures
        crate::genrep::opt_str(r) == spec_output_type(
            text,
            svg,
            pdf,
            match ext {
                Some(e) => Some(e@),
                None => None,
            },
        ),
{
    if text {
        return Some(chars_string(&['t', 'e', 'x', 't']));
    }
    if svg {
        return Some(chars_string(&['s', 'v', 'g']));
    }
    if pdf {
        return Some(chars_string(&['p', 'd', 'f']));
    }
    match ext {
        None => None,
        Some(e) => {
            let l = chars_of(crate::trace::to_lowercase(e).as_str());
            if crate::text::chars_eq(&l, &['t', 'x', 't']) {
                Some(chars_string(&['t', 'e', 'x', 't']))
            } else if crate::text::chars_eq(&l, &['s', 'v', 'g']) {
                Some(chars_string(&['s', 'v', 'g']))
            } else if crate::text::chars_eq(&l, &['p', 'd', 'f']) {
                Some(chars_string(&['p', 'd', 'f']))
            } else {
                None
            }
        },
    }
}

/// The output type that the command line asks for, the extension taken from the output
/// path (where the path has only `/` as a separator, see `crate::photos::slash_path`).
pub fn output_type(text: bool, svg: bool, pdf: bool, output: Option<&str>) -> (r: Option<String>)
    ensures
        output is None ==> crate::genrep::opt_str(r) == spec_output_type(text, svg, pdf, None),
        (output matches Some(p) && crate::photos::slash_path(p@)) ==> crate::genrep::opt_str(r)
            == spec_output_type(text, svg, pdf, crate::photos::path_extension(output->Some_0@)),
        text || svg || pdf ==> crate::genrep::opt_str(r) == spec_output_type(text, svg, pdf, None),
{
    match output {
        None => output_type_for(text, svg, pdf, None),
        Some(p) => {
            let e = crate::photos::extension_of(p);
            match e {
                Some(x) => output_type_for(text, svg, pdf, Some(x.as_str())),
                None => output_type_for(text, svg, pdf, None),
            }
        },
    }
}

/// The further GEDCOM files and their alias files, paired in order; or, when there are
/// more GEDCOM files than alias files, both counts.
pub open spec fn spec_merge_pairs(merge: Seq<Seq<char>>, aliases: Seq<Seq<char>>) -> Result<
    Seq<(Seq<char>, Seq<char>)>,
    (int, int),
> {
    if merge.len() > aliases.len() {
        Err((merge.len() as int, aliases.len() as int))
    } else {
        Ok(Seq::new(merge.len(), |i: int| (merge[i], aliases[i])))
    }
}

pub open spec fn pairs_view(v: Seq<(String, String)>) -> Seq<(Seq<char>, Seq<char>)> {
    v.map_values(|p: (String, String)| (p.0@, p.1@))
}

/// Pair the further GEDCOM files of the preferences with their alias files (extra alias
/// files are ignored); there must be an alias file for each GEDCOM file.
pub fn merge_pairs(merge: &Vec<String>, aliases: &Vec<String>) -> (r: Result<Vec<(String, String)>, (usize, usize)>)
    ensures
        match r {
            Ok(v) => spec_merge_pairs(strs(merge@), strs(aliases@)) == Ok::<
                Seq<(Seq<char>, Seq<char>)>,
                (int, int),
            >(pairs_view(v@)),
            Err(c) => spec_merge_pairs(strs(merge@), strs(aliases@)) == Err::<
                Seq<(Seq<char>, Seq<char>)>,
                (int, int),
            >((c.0 as int, c.1 as int)),
        },
{
    if merge.len() > aliases.len() {
        return Err((merge.len(), aliases.len()));
    }
    let ghost want = Seq::new(merge@.len(), |i: int| (strs(merge@)[i], strs(aliases@)[i]));
    let mut out: Vec<(String, String)> = Vec::new();
    let mut i: usize = 0;
    while i < merge.len()
        invariant
            i <= merge.len(),
            merge.len() <= aliases.len(),
            want == Seq::new(merge@.len(), |i: int| (strs(merge@)[i], strs(aliases@)[i])),
            pairs_view(out@) == want.take(i as int),
        decreases merge.len() - i,
    {
        let a = merge[i].clone();
        let b = aliases[i].clone();
        let ghost prev = out@;
        out.push((a, b));
        assert(strs(merge@)[i as int] == merge@[i as int]@);
        assert(strs(aliases@)[i as int] == aliases@[i as int]@);
        assert(pairs_view(out@) =~= pairs_view(prev).push((a@, b@)));
        i = i + 1;
        assert(pairs_view(out@) =~= want.take(i as int));
    }
    assert(want.take(merge.len() as int) =~= want);
    assert(spec_merge_pairs(strs(merge@), strs(aliases@)) == Ok::<Seq<(Seq<char>, Seq<char>)>, (int, int)>(want));
    Ok(out)
}

/// The `--merge GEDCOM ALIAS` arguments, two by two (a last one without a partner is
/// dropped).
pub open spec fn spec_arg_pairs(args: Seq<Seq<char>>) -> Seq<(Seq<char>, Seq<char>)> {
    Seq::new(args.len() / 2, |i: int| (args[2 * i], args[2 * i + 1]))
}

pub fn merge_arg_pairs(args: &Vec<String>) -> (r: Vec<(String, String)>)
    ensures
        pairs_view(r@) == spec_arg_pairs(strs(args@)),
{
    let ghost want = spec_arg_pairs(strs(args@));
    let mut out: Vec<(String, String)> = Vec::new();
    let mut i: usize = 0;
    while i < args.len() / 2
        invariant
            i <= args.len() / 2,
            want == spec_arg_pairs(strs(args@)),
            pairs_view(out@) == want.take(i as int),
        decreases args.len() / 2 - i,
    {
        let a = args[2 * i].clone();
        let b = args[2 * i + 1].clone();
        let ghost prev = out@;
        out.push((a, b));
        assert(strs(args@)[2 * i] == args@[2 * i]@);
        assert(strs(args@)[2 * i + 1] == args@[2 * i + 1]@);
        assert(pairs_view(out@) =~= pairs_view(prev).push((a@, b@)));
        i = i + 1;
        assert(pairs_view(out@) =~= want.take(i as int));
    }
    assert(want.take((args.len() / 2) as int) =~= want);
    out
}

} // verus!
