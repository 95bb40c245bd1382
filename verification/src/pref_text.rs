//! Preference documents from their text: TOML text parsed into a preference tree, and
//! all preference sources loaded from their texts, lowest priority first.

use vstd::prelude::*;
use crate::genrep::strs;
use crate::pref_tree::{
    defaults_v, entries_view, file_step, lemma_entries_push, lemma_table_view, merge_file,
    merge_toml_tracked, notes_view, override_one, override_step, source_note, trace_notes, PrefNote, PrefNoteV,
    PrefSource, PrefV, PrefValue,
};
use crate::preferences::{spec_split_prefs, split_pref_assignments};
use crate::text::{append_chars, chars_of, decimal, decimal_of_u64, string_of};

verus! {

// ── TOML documents ──────────────────────────────────────────────────────────

#[verifier::external_type_specification]
#[verifier::external_body]
pub struct ExTomlValue(toml::Value);

/// A leaf of a TOML document, as it is shown: a string raw, an integer, a float as
/// Rust prints it, a boolean, or anything else (an array, a date).
pub enum TomlLeaf {
    Str(String),
    Int(i64),
    Float(String),
    Bool(bool),
    Complex,
}

pub enum TomlLeafV {
    Str(Seq<char>),
    Int(int),
    Float(Seq<char>),
    Bool(bool),
    Complex,
}

impl View for TomlLeaf {
    type V = TomlLeafV;

    open spec fn view(&self) -> TomlLeafV {
        match self {
            TomlLeaf::Str(s) => TomlLeafV::Str(s@),
            TomlLeaf::Int(n) => TomlLeafV::Int(*n as int),
            TomlLeaf::Float(t) => TomlLeafV::Float(t@),
            TomlLeaf::Bool(b) => TomlLeafV::Bool(*b),
            TomlLeaf::Complex => TomlLeafV::Complex,
        }
    }
}

/// A TOML document: tables of entries in the parser's order, and leaves that keep the
/// parsed value for the application beside the form in which they are shown.
pub enum TomlDoc {
    Table(Vec<(String, TomlDoc)>),
    Leaf(TomlLeaf, toml::Value),
}

/// A TOML document seen as tables and shown leaves (the parsed value of a leaf is opaque).
pub enum TomlDocV {
    Table(Seq<(Seq<char>, TomlDocV)>),
    Leaf(TomlLeafV),
}

pub open spec fn doc_view(d: TomlDoc) -> TomlDocV
    decreases d,
{
    match d {
        TomlDoc::Table(es) => TomlDocV::Table(
            Seq::new(
                es.len() as nat,
                |i: int|
                    if 0 <= i < es.len() {
                        (es@[i].0@, doc_view(es@[i].1))
                    } else {
                        (Seq::empty(), TomlDocV::Table(Seq::empty()))
                    },
            ),
        ),
        TomlDoc::Leaf(l, _) => TomlDocV::Leaf(l@),
    }
}

impl View for TomlDoc {
    type V = TomlDocV;

    open spec fn view(&self) -> TomlDocV {
        doc_view(*self)
    }
}

pub open spec fn doc_entries_view(v: Seq<(String, TomlDoc)>) -> Seq<(Seq<char>, TomlDocV)> {
    v.map_values(|e: (String, TomlDoc)| (e.0@, e.1@))
}

proof fn lemma_doc_table_view(es: Vec<(String, TomlDoc)>)
    ensures
        TomlDoc::Table(es)@ == TomlDocV::Table(doc_entries_view(es@)),
{
    let v = TomlDoc::Table(es);
    let t = v@->Table_0;
    assert(t.len() == es@.len());
    assert forall|i: int| 0 <= i < t.len() implies t[i] == doc_entries_view(es@)[i] by {}
    assert(t =~= doc_entries_view(es@));
}

pub open spec fn doc_result(r: Result<TomlDoc, String>) -> Result<TomlDocV, Seq<char>> {
    match r {
        Ok(d) => Ok(d@),
        Err(m) => Err(m@),
    }
}

/// The document that the TOML text `text` holds, as `toml` parses it; or the parser's
/// message where the text is not TOML.
pub uninterp spec fn toml_tree(text: Seq<char>) -> Result<TomlDocV, Seq<char>>;

/// `text.parse::<toml::Value>()` of the `toml` crate, its error shown as text. What the
/// document is, and the parser's message, are only named: the result is `toml_tree` of
/// the text.
#[verifier::external_body]
fn parse_toml(text: &str) -> (r: Result<TomlDoc, String>)
    ensures
        doc_result(r) == toml_tree(text@),
{
    match text.parse::<toml::Value>() {
        Ok(v) => Ok(toml_doc(v)),
        Err(e) => Err(e.to_string()),
    }
}

/// The `toml::Value` that `parse_toml` obtained, as a `TomlDoc`, one for one: a table
/// entry by entry, in the crate's order; any other value as a leaf that keeps it, with
/// its shown form (a float printed by Rust). It has no contract of its own: only
/// `parse_toml` uses it, and states its result.
#[verifier::external_body]
fn toml_doc(v: toml::Value) -> TomlDoc {
    match v {
        toml::Value::Table(t) => TomlDoc::Table(t.into_iter().map(|(k, c)| (k, toml_doc(c))).collect()),
        v => {
            let shown = match &v {
                toml::Value::String(s) => TomlLeaf::Str(s.clone()),
                toml::Value::Integer(n) => TomlLeaf::Int(*n),
                toml::Value::Float(f) => TomlLeaf::Float(f.to_string()),
                toml::Value::Boolean(b) => TomlLeaf::Bool(*b),
                _ => TomlLeaf::Complex,
            };
            TomlDoc::Leaf(shown, v)
        },
    }
}

// ── shown leaves ────────────────────────────────────────────────────────────

/// A character of a shown string: `\` and `"` get a `\` before them.
pub open spec fn escape_char(c: char) -> Seq<char> {
    if c == '\\' || c == '"' {
        seq!['\\', c]
    } else {
        seq![c]
    }
}

pub open spec fn escaped(s: Seq<char>) -> Seq<char>
    decreases s.len(),
{
    if s.len() == 0 {
        seq![]
    } else {
        escaped(s.drop_last()) + escape_char(s.last())
    }
}

/// An integer in decimal, with a `-` when negative.
pub open spec fn int_text(n: int) -> Seq<char> {
    if n < 0 {
        seq!['-'] + decimal((-n) as nat)
    } else {
        decimal(n as nat)
    }
}

/// The text under which a leaf is reported: a string in quotes with `\` and `"`
/// escaped, a number or boolean as written, anything else as `[complex]`.
pub open spec fn shown_text(l: TomlLeafV) -> Seq<char> {
    match l {
        TomlLeafV::Str(s) => seq!['"'] + escaped(s) + seq!['"'],
        TomlLeafV::Int(n) => int_text(n),
        TomlLeafV::Float(t) => t,
        TomlLeafV::Bool(b) => if b {
            seq!['t', 'r', 'u', 'e']
        } else {
            seq!['f', 'a', 'l', 's', 'e']
        },
        TomlLeafV::Complex => seq!['[', 'c', 'o', 'm', 'p', 'l', 'e', 'x', ']'],
    }
}

fn shown_of(l: &TomlLeaf) -> (r: String)
    ensures
        r@ == shown_text(l@),
{
    let mut v: Vec<char> = Vec::new();
    match l {
        TomlLeaf::Str(s) => {
            let c = chars_of(s.as_str());
            v.push('"');
            let mut i: usize = 0;
            while i < c.len()
                invariant
                    i <= c.len(),
                    c@ == s@,
                    v@ == seq!['"'] + escaped(c@.take(i as int)),
                decreases c.len() - i,
            {
                assert(c@.take(i + 1).drop_last() =~= c@.take(i as int));
                if c[i] == '\\' || c[i] == '"' {
                    v.push('\\');
                }
                v.push(c[i]);
                i = i + 1;
                assert(v@ =~= seq!['"'] + escaped(c@.take(i as int)));
            }
            assert(c@.take(c.len() as int) =~= c@);
            v.push('"');
            assert(v@ =~= shown_text(l@));
        },
        TomlLeaf::Int(n) => {
            if *n < 0 {
                v.push('-');
                let m: u64 = if *n == i64::MIN {
                    9223372036854775808u64
                } else {
                    (-*n) as u64
                };
                let d = decimal_of_u64(m);
                let mut i: usize = 0;
                while i < d.len()
                    invariant
                        i <= d.len(),
                        v@ == seq!['-'] + d@.take(i as int),
                    decreases d.len() - i,
                {
                    v.push(d[i]);
                    i = i + 1;
                    assert(v@ =~= seq!['-'] + d@.take(i as int));
                }
                assert(d@.take(d.len() as int) =~= d@);
            } else {
                v = decimal_of_u64(*n as u64);
            }
            assert(v@ =~= shown_text(l@));
        },
        TomlLeaf::Float(t) => {
            return t.clone();
        },
        TomlLeaf::Bool(b) => {
            if *b {
                v.push('t');
                v.push('r');
                v.push('u');
                v.push('e');
            } else {
                v.push('f');
                v.push('a');
                v.push('l');
                v.push('s');
                v.push('e');
            }
            assert(v@ =~= shown_text(l@));
        },
        TomlLeaf::Complex => {
            v.push('[');
            v.push('c');
            v.push('o');
            v.push('m');
            v.push('p');
            v.push('l');
            v.push('e');
            v.push('x');
            v.push(']');
            assert(v@ =~= shown_text(l@));
        },
    }
    string_of(&v)
}

// ── documents as preference trees ───────────────────────────────────────────

/// A document as a preference tree whose leaves take the slots `next`, `next + 1`, …
/// in document order; with the next free slot.
pub open spec fn doc_pref(d: TomlDocV, next: int) -> (PrefV, int)
    decreases d, 0int,
{
    match d {
        TomlDocV::Leaf(l) => (PrefV::Leaf(shown_text(l), next as usize), next + 1),
        TomlDocV::Table(es) => {
            let r = doc_entries(es, next);
            (PrefV::Table(r.0), r.1)
        },
    }
}

pub open spec fn doc_entries(es: Seq<(Seq<char>, TomlDocV)>, next: int) -> (Seq<(Seq<char>, PrefV)>, int)
    decreases es, 1int,
{
    if es.len() == 0 {
        (seq![], next)
    } else {
        let a = doc_entries(es.drop_last(), next);
        let b = doc_pref(es.last().1, a.1);
        (a.0.push((es.last().0, b.0)), b.1)
    }
}

/// A document as a preference tree: each leaf's parsed value moves to the end of
/// `leaves`, and the leaf keeps its position there as its slot.
pub fn doc_tree(d: TomlDoc, leaves: &mut Vec<toml::Value>) -> (r: PrefValue)
    ensures
        (r@, final(leaves)@.len() as int) == doc_pref(d@, old(leaves)@.len() as int),
    decreases d,
{
    let ghost d0 = d;
    match d {
        TomlDoc::Leaf(l, v) => {
            let slot = leaves.len();
            let text = shown_of(&l);
            leaves.push(v);
            PrefValue::Leaf { text, slot }
        },
        TomlDoc::Table(es) => {
            let ghost orig = es@;
            let ghost ov = doc_entries_view(orig);
            let ghost n0 = leaves@.len() as int;
            proof {
                lemma_doc_table_view(es);
            }
            let mut rest = es;
            let mut out: Vec<(String, PrefValue)> = Vec::new();
            let ghost mut k: int = 0;
            assert(orig.skip(0) =~= orig);
            assert(ov.take(0) =~= seq![]);
            assert(entries_view(out@) =~= seq![]);
            while rest.len() > 0
                invariant
                    0 <= k <= orig.len(),
                    rest@ == orig.skip(k),
                    ov == doc_entries_view(orig),
                    d0 == d,
                    d0 == TomlDoc::Table(d0->Table_0),
                    d0->Table_0@ == orig,
                    (entries_view(out@), leaves@.len() as int) == doc_entries(ov.take(k), n0),
                decreases rest.len(),
            {
                let ghost before = rest@;
                let (key, child) = rest.remove(0);
                proof {
                    assert(before[0] == orig[k]);
                    assert(child == d0->Table_0@[k].1);
                    assert(rest@ =~= orig.skip(k + 1));
                    assert(decreases_to!(d0 => d0->Table_0));
                    assert(decreases_to!(d0->Table_0 => d0->Table_0@));
                    assert(decreases_to!(d0->Table_0@ => d0->Table_0@[k]));
                    assert(decreases_to!(d0->Table_0@[k] => d0->Table_0@[k].1));
                    assert(ov.take(k + 1).drop_last() =~= ov.take(k));
                    assert(ov.take(k + 1).last() == (key@, child@));
                }
                let t = doc_tree(child, leaves);
                let ghost prev = out@;
                out.push((key, t));
                proof {
                    lemma_entries_push(prev, (key, t));
                    k = k + 1;
                }
            }
            assert(ov.take(k) =~= ov);
            proof {
                lemma_table_view(out);
            }
            PrefValue::Table(out)
        },
    }
}


// ── loading every source from its text ──────────────────────────────────────

/// The text of a preference file, the name it is reported under, and whether it was
/// named on the command line (`--preff`): such a file must parse; any other file that
/// does not parse is skipped with a warning.
pub struct PrefText {
    pub name: String,
    pub text: String,
    pub required: bool,
}

pub struct PrefTextV {
    pub name: Seq<char>,
    pub text: Seq<char>,
    pub required: bool,
}

impl View for PrefText {
    type V = PrefTextV;

    open spec fn view(&self) -> PrefTextV {
        PrefTextV { name: self.name@, text: self.text@, required: self.required }
    }
}

pub open spec fn texts_view(v: Seq<PrefText>) -> Seq<PrefTextV> {
    v.map_values(|t: PrefText| t@)
}

/// Why the preferences cannot be loaded.
pub enum LoadError {
    /// The embedded defaults do not parse; the parser's message.
    Defaults(String),
    /// A file named on the command line does not parse.
    File { name: String, message: String },
    /// A `--pref` string does not parse.
    Pref { pref: String, message: String },
    /// A `--pref` string holds keys that the preferences lack.
    UnknownKeys(Vec<String>),
}

pub enum LoadErrorV {
    Defaults(Seq<char>),
    File { name: Seq<char>, message: Seq<char> },
    Pref { pref: Seq<char>, message: Seq<char> },
    UnknownKeys(Seq<Seq<char>>),
}

impl View for LoadError {
    type V = LoadErrorV;

    open spec fn view(&self) -> LoadErrorV {
        match self {
            LoadError::Defaults(m) => LoadErrorV::Defaults(m@),
            LoadError::File { name, message } => LoadErrorV::File { name: name@, message: message@ },
            LoadError::Pref { pref, message } => LoadErrorV::Pref { pref: pref@, message: message@ },
            LoadError::UnknownKeys(k) => LoadErrorV::UnknownKeys(strs(k@)),
        }
    }
}

/// The name the embedded defaults are reported under.
pub open spec fn defaults_name() -> Seq<char> {
    "<embedded defaults>"@
}

/// The name a `--pref` string is reported under.
pub open spec fn pref_name(p: Seq<char>) -> Seq<char> {
    "--pref '"@ + p + "'"@
}

/// Lines joined by a line feed between each two.
pub open spec fn join_lines(parts: Seq<Seq<char>>) -> Seq<char>
    decreases parts.len(),
{
    if parts.len() == 0 {
        seq![]
    } else if parts.len() == 1 {
        parts[0]
    } else {
        join_lines(parts.drop_last()) + seq!['\n'] + parts.last()
    }
}

/// The TOML text of a `--pref` string: its assignments, one per line.
pub open spec fn pref_doc_text(p: Seq<char>) -> Seq<char> {
    join_lines(spec_split_prefs(p))
}

/// The merged tree, the notes so far and the next free leaf slot; or why loading stopped.
pub open spec fn text_file_step(
    acc: Result<(PrefV, Seq<PrefNoteV>, int), LoadErrorV>,
    f: PrefTextV,
) -> Result<(PrefV, Seq<PrefNoteV>, int), LoadErrorV> {
    match acc {
        Err(e) => Err(e),
        Ok(a) => match toml_tree(f.text) {
            Ok(d) => {
                let t = doc_pref(d, a.2);
                let m = file_step((a.0, a.1), f.name, t.0);
                Ok((m.0, m.1, t.1))
            },
            Err(msg) => if f.required {
                Err(LoadErrorV::File { name: f.name, message: msg })
            } else {
                Ok((a.0, a.1.push(PrefNoteV::Unreadable { source: f.name, message: msg }), a.2))
            },
        },
    }
}

pub open spec fn text_files_v(
    acc: Result<(PrefV, Seq<PrefNoteV>, int), LoadErrorV>,
    fs: Seq<PrefTextV>,
) -> Result<(PrefV, Seq<PrefNoteV>, int), LoadErrorV>
    decreases fs.len(),
{
    if fs.len() == 0 {
        acc
    } else {
        text_file_step(text_files_v(acc, fs.drop_last()), fs.last())
    }
}

pub open spec fn text_pref_step(
    acc: Result<(PrefV, Seq<PrefNoteV>, int), LoadErrorV>,
    p: Seq<char>,
) -> Result<(PrefV, Seq<PrefNoteV>, int), LoadErrorV> {
    match acc {
        Err(e) => Err(e),
        Ok(a) => match toml_tree(pref_doc_text(p)) {
            Err(msg) => Err(LoadErrorV::Pref { pref: p, message: msg }),
            Ok(d) => {
                let t = doc_pref(d, a.2);
                match override_step(Ok((a.0, a.1)), pref_name(p), t.0) {
                    Ok(m) => Ok((m.0, m.1, t.1)),
                    Err(keys) => Err(LoadErrorV::UnknownKeys(keys)),
                }
            },
        },
    }
}

pub open spec fn text_prefs_v(
    acc: Result<(PrefV, Seq<PrefNoteV>, int), LoadErrorV>,
    ps: Seq<Seq<char>>,
) -> Result<(PrefV, Seq<PrefNoteV>, int), LoadErrorV>
    decreases ps.len(),
{
    if ps.len() == 0 {
        acc
    } else {
        text_pref_step(text_prefs_v(acc, ps.drop_last()), ps.last())
    }
}

/// The preferences from the texts of all sources, lowest priority first: the defaults,
/// then the files in order, then the `--pref` strings in order. A file that does not
/// parse is skipped with a warning, unless it was named on the command line; any other
/// text that does not parse, or a `--pref` string with unknown keys, stops the loading.
/// On success: the tree, the notes, and how many leaf values were parsed.
pub open spec fn load_texts_v(
    defaults: Seq<char>,
    files: Seq<PrefTextV>,
    prefs: Seq<Seq<char>>,
) -> Result<(PrefV, Seq<PrefNoteV>, int), LoadErrorV> {
    match toml_tree(defaults) {
        Err(msg) => Err(LoadErrorV::Defaults(msg)),
        Ok(d) => {
            let t = doc_pref(d, 0);
            let s = defaults_v((defaults_name(), t.0));
            text_prefs_v(text_files_v(Ok((s.0, s.1, t.1)), files), prefs)
        },
    }
}

proof fn lemma_text_files_err(acc: Result<(PrefV, Seq<PrefNoteV>, int), LoadErrorV>, fs: Seq<PrefTextV>, n: int)
    requires
        0 <= n <= fs.len(),
        text_files_v(acc, fs.take(n)) is Err,
    ensures
        text_files_v(acc, fs) == text_files_v(acc, fs.take(n)),
    decreases fs.len() - n,
{
    if n < fs.len() {
        assert(fs.take(n + 1).drop_last() =~= fs.take(n));
        lemma_text_files_err(acc, fs, n + 1);
    } else {
        assert(fs.take(n) =~= fs);
    }
}

proof fn lemma_text_prefs_err(acc: Result<(PrefV, Seq<PrefNoteV>, int), LoadErrorV>, ps: Seq<Seq<char>>, n: int)
    requires
        0 <= n <= ps.len(),
        text_prefs_v(acc, ps.take(n)) is Err,
    ensures
        text_prefs_v(acc, ps) == text_prefs_v(acc, ps.take(n)),
    decreases ps.len() - n,
{
    if n < ps.len() {
        assert(ps.take(n + 1).drop_last() =~= ps.take(n));
        lemma_text_prefs_err(acc, ps, n + 1);
    } else {
        assert(ps.take(n) =~= ps);
    }
}

proof fn lemma_err_stays(acc: Result<(PrefV, Seq<PrefNoteV>, int), LoadErrorV>, ps: Seq<Seq<char>>)
    requires
        acc is Err,
    ensures
        text_prefs_v(acc, ps) == acc,
    decreases ps.len(),
{
    if ps.len() > 0 {
        lemma_err_stays(acc, ps.drop_last());
    }
}

/// Lines joined by a line feed.
fn join_lines_of(parts: &Vec<String>) -> (r: String)
    ensures
        r@ == join_lines(strs(parts@)),
{
    let ghost ps = strs(parts@);
    let mut out = String::new();
    let mut i: usize = 0;
    assert(ps.take(0) =~= seq![]);
    while i < parts.len()
        invariant
            i <= parts.len(),
            ps == strs(parts@),
            out@ == join_lines(ps.take(i as int)),
        decreases parts.len() - i,
    {
        assert(ps.take(i + 1).drop_last() =~= ps.take(i as int));
        assert(ps[i as int] == parts@[i as int]@);
        if i > 0 {
            let nl = vec!['\n'];
            append_chars(&mut out, &nl);
        }
        append_chars(&mut out, &chars_of(parts[i].as_str()));
        i = i + 1;
        assert(out@ =~= join_lines(ps.take(i as int)));
    }
    assert(ps.take(parts.len() as int) =~= ps);
    out
}

fn pref_name_of(p: &str) -> (r: String)
    ensures
        r@ == pref_name(p@),
{
    let mut s = string_of(&chars_of("--pref '"));
    append_chars(&mut s, &chars_of(p));
    append_chars(&mut s, &chars_of("'"));
    s
}

/// Load the preferences from the texts of all their sources, lowest priority first: the
/// embedded defaults, then the files in order (a file that does not parse is skipped
/// with a warning, unless it was named on the command line), then each `--pref` string
/// (its comma-separated assignments, one per line). Each text is parsed as TOML; the
/// parsed leaf values are returned in slot order, for the application to rebuild the
/// merged document.
pub fn load_texts(defaults: &str, files: Vec<PrefText>, prefs: Vec<String>) -> (r: Result<
    (PrefValue, Vec<PrefNote>, Vec<toml::Value>),
    LoadError,
>)
    ensures
        match r {
            Ok(x) => load_texts_v(defaults@, texts_view(files@), strs(prefs@)) == Ok::<
                (PrefV, Seq<PrefNoteV>, int),
                LoadErrorV,
            >((x.0@, notes_view(x.1@), x.2@.len() as int)),
            Err(e) => load_texts_v(defaults@, texts_view(files@), strs(prefs@)) == Err::<
                (PrefV, Seq<PrefNoteV>, int),
                LoadErrorV,
            >(e@),
        },
{
    let ghost fv = texts_view(files@);
    let ghost pv = strs(prefs@);
    let mut leaves: Vec<toml::Value> = Vec::new();
    let d = match parse_toml(defaults) {
        Ok(d) => d,
        Err(m) => {
            return Err(LoadError::Defaults(m));
        },
    };
    let dtree = doc_tree(d, &mut leaves);
    let empty: Vec<(String, PrefValue)> = Vec::new();
    proof {
        lemma_table_view(empty);
        assert(entries_view(empty@) =~= seq![]);
        reveal_strlit("");
    }
    let mut base = PrefValue::Table(empty);
    let mut notes: Vec<PrefNote> = Vec::new();
    assert(notes_view(notes@) =~= seq![]);
    source_note(&mut notes, "<embedded defaults>");
    assert(""@ =~= Seq::<char>::empty());
    let lines = merge_toml_tracked(&mut base, dtree, "");
    trace_notes(&mut notes, lines);
    let ghost s0 = defaults_v((defaults_name(), dtree@));
    assert(notes_view(notes@) =~= s0.1);
    let ghost acc0 = Ok::<(PrefV, Seq<PrefNoteV>, int), LoadErrorV>((s0.0, s0.1, leaves@.len() as int));
    assert(load_texts_v(defaults@, fv, pv) == text_prefs_v(text_files_v(acc0, fv), pv));
    let mut k: usize = 0;
    while k < files.len()
        invariant
            k <= files.len(),
            fv == texts_view(files@),
            fv.len() == files.len(),
            pv == strs(prefs@),
            load_texts_v(defaults@, fv, pv) == text_prefs_v(text_files_v(acc0, fv), pv),
            text_files_v(acc0, fv.take(k as int)) == Ok::<(PrefV, Seq<PrefNoteV>, int), LoadErrorV>(
                (base@, notes_view(notes@), leaves@.len() as int),
            ),
        decreases files.len() - k,
    {
        assert(fv[k as int] == files@[k as int]@);
        assert(fv.take(k + 1).drop_last() =~= fv.take(k as int));
        match parse_toml(files[k].text.as_str()) {
            Ok(doc) => {
                let t = doc_tree(doc, &mut leaves);
                merge_file(&mut base, files[k].name.as_str(), t, &mut notes);
            },
            Err(m) => {
                if files[k].required {
                    proof {
                        lemma_text_files_err(acc0, fv, k + 1);
                        lemma_err_stays(text_files_v(acc0, fv), pv);
                    }
                    return Err(LoadError::File { name: files[k].name.clone(), message: m });
                }
                let ghost before = notes_view(notes@);
                notes.push(PrefNote::Unreadable { source: files[k].name.clone(), message: m });
                assert(notes_view(notes@) =~= before.push(
                    PrefNoteV::Unreadable { source: fv[k as int].name, message: m@ },
                ));
            },
        }
        k = k + 1;
    }
    assert(fv.take(fv.len() as int) =~= fv);
    let ghost acc1 = text_files_v(acc0, fv);
    let mut j: usize = 0;
    while j < prefs.len()
        invariant
            j <= prefs.len(),
            pv == strs(prefs@),
            pv.len() == prefs.len(),
            fv == texts_view(files@),
            load_texts_v(defaults@, fv, pv) == text_prefs_v(acc1, pv),
            text_prefs_v(acc1, pv.take(j as int)) == Ok::<(PrefV, Seq<PrefNoteV>, int), LoadErrorV>(
                (base@, notes_view(notes@), leaves@.len() as int),
            ),
        decreases prefs.len() - j,
    {
        assert(pv[j as int] == prefs@[j as int]@);
        assert(pv.take(j + 1).drop_last() =~= pv.take(j as int));
        let parts = split_pref_assignments(prefs[j].as_str());
        let text = join_lines_of(&parts);
        match parse_toml(text.as_str()) {
            Err(m) => {
                proof {
                    lemma_text_prefs_err(acc1, pv, j + 1);
                }
                return Err(LoadError::Pref { pref: prefs[j].clone(), message: m });
            },
            Ok(doc) => {
                let t = doc_tree(doc, &mut leaves);
                let src = PrefSource { name: pref_name_of(prefs[j].as_str()), tree: t };
                match override_one(&mut base, &mut notes, src) {
                    Some(u) => {
                        proof {
                            lemma_text_prefs_err(acc1, pv, j + 1);
                        }
                        return Err(LoadError::UnknownKeys(u));
                    },
                    None => {},
                }
            },
        }
        j = j + 1;
    }
    assert(pv.take(pv.len() as int) =~= pv);
    Ok((base, notes, leaves))
}

} // verus!
