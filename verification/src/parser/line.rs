//! Line-level GEDCOM syntax: `level [@xref@] TAG [value]`, names and cross-references.

use vstd::prelude::*;
use crate::genrep::opt_str;
use crate::text::{
    chars_eq, find_char, find_first, slice_of, split_on, split_on_of, split_once, split_once_of,
    spec_parse_u32, parse_u32, string_of, trim, trim_of, trim_start, trim_start_of, vview,
};

verus! {

// ── strip_at ─────────────────────────────────────────────────────────────────

pub open spec fn strip_start(s: Seq<char>, c: char) -> Seq<char>
    decreases s.len(),
{
    if s.len() > 0 && s[0] == c {
        strip_start(s.drop_first(), c)
    } else {
        s
    }
}

pub open spec fn strip_end(s: Seq<char>, c: char) -> Seq<char>
    decreases s.len(),
{
    if s.len() > 0 && s.last() == c {
        strip_end(s.drop_last(), c)
    } else {
        s
    }
}

/// `trim_matches('@')`: every leading and trailing `@` removed.
pub open spec fn spec_strip_at(s: Seq<char>) -> Seq<char> {
    strip_end(strip_start(s, '@'), '@')
}

pub fn strip_at(s: &Vec<char>) -> (r: Vec<char>)
    ensures
        r@ == spec_strip_at(s@),
{
    let mut lo: usize = 0;
    assert(s@.subrange(0, s.len() as int) =~= s@);
    while lo < s.len() && s[lo] == '@'
        invariant
            lo <= s.len(),
            strip_start(s@.subrange(lo as int, s.len() as int), '@') == strip_start(s@, '@'),
        decreases s.len() - lo,
    {
        assert(s@.subrange(lo as int, s.len() as int).drop_first() =~= s@.subrange(
            lo + 1,
            s.len() as int,
        ));
        lo = lo + 1;
    }
    let t = slice_of(s, lo, s.len());
    let mut hi = t.len();
    assert(t@.subrange(0, hi as int) =~= t@);
    while hi > 0 && t[hi - 1] == '@'
        invariant
            hi <= t.len(),
            strip_end(t@.subrange(0, hi as int), '@') == strip_end(t@, '@'),
        decreases hi,
    {
        assert(t@.subrange(0, hi as int).drop_last() =~= t@.subrange(0, hi - 1));
        hi = hi - 1;
    }
    slice_of(&t, 0, hi)
}

// ── names ────────────────────────────────────────────────────────────────────

pub open spec fn non_empty(s: Seq<char>) -> Option<Seq<char>> {
    if s.len() > 0 {
        Some(s)
    } else {
        None
    }
}

/// Given name: the text before the first `/`, trimmed, if not empty.
pub open spec fn name_given(raw: Seq<char>) -> Option<Seq<char>> {
    non_empty(trim(split_on(raw, '/')[0]))
}

/// Surname: the text between the first and second `/`, trimmed, if not empty.
pub open spec fn name_surname(raw: Seq<char>) -> Option<Seq<char>> {
    let parts = split_on(raw, '/');
    if parts.len() > 1 {
        non_empty(trim(parts[1]))
    } else {
        None
    }
}

fn non_empty_string(v: Vec<char>) -> (r: Option<String>)
    ensures
        opt_str(r) == non_empty(v@),
{
    if v.len() > 0 {
        Some(string_of(&v))
    } else {
        None
    }
}

/// Parse `"Given /Surname/"` into (given, surname).
pub fn parse_name(raw: &Vec<char>) -> (r: (Option<String>, Option<String>))
    ensures
        opt_str(r.0) == name_given(raw@),
        opt_str(r.1) == name_surname(raw@),
{
    let parts = split_on_of(raw, '/');
    assert(vview(parts@).len() == parts.len());
    let g = trim_of(&parts[0]);
    assert(g@ == trim(split_on(raw@, '/')[0]));
    let given = non_empty_string(g);
    let surname = if parts.len() > 1 {
        let s = trim_of(&parts[1]);
        assert(s@ == trim(split_on(raw@, '/')[1]));
        non_empty_string(s)
    } else {
        None
    };
    (given, surname)
}

// ── one line ─────────────────────────────────────────────────────────────────

pub open spec fn or_empty(o: Option<Seq<char>>) -> Seq<char> {
    match o {
        Some(s) => s,
        None => seq![],
    }
}

/// The cross-reference prefix of `rest` (which starts after the level):
/// `@...@` followed by the remainder, trimmed at the start.
pub open spec fn split_xref(rest: Seq<char>) -> (Option<Seq<char>>, Seq<char>) {
    if rest.len() > 0 && rest[0] == '@' {
        let p = find_first(rest.drop_first(), '@');
        if p >= 0 {
            (Some(rest.subrange(0, p + 2)), trim_start(rest.subrange(p + 2, rest.len() as int)))
        } else {
            (None, rest)
        }
    } else {
        (None, rest)
    }
}

/// Split one GEDCOM line into (level, xref_id, tag, value).
pub open spec fn spec_parse_line(line: Seq<char>) -> Option<
    (u32, Option<Seq<char>>, Seq<char>, Seq<char>),
> {
    let first = split_once(line, ' ');
    match spec_parse_u32(trim(first.0)) {
        None => None,
        Some(level) => {
            let rest = trim_start(or_empty(first.1));
            let x = split_xref(rest);
            let tv = split_once(x.1, ' ');
            Some((level, x.0, tv.0, or_empty(tv.1)))
        },
    }
}

pub struct ParsedLine {
    pub level: u32,
    pub xref: Option<Vec<char>>,
    pub tag: Vec<char>,
    pub value: Vec<char>,
}

pub open spec fn opt_chars(o: Option<Vec<char>>) -> Option<Seq<char>> {
    match o {
        Some(v) => Some(v@),
        None => None,
    }
}

impl View for ParsedLine {
    type V = (u32, Option<Seq<char>>, Seq<char>, Seq<char>);

    open spec fn view(&self) -> Self::V {
        (self.level, opt_chars(self.xref), self.tag@, self.value@)
    }
}

pub fn unwrap_or_empty(o: Option<Vec<char>>) -> (r: Vec<char>)
    ensures
        r@ == or_empty(opt_chars(o)),
{
    match o {
        Some(v) => v,
        None => {
            let e: Vec<char> = Vec::new();
            assert(e@ =~= seq![]);
            e
        },
    }
}

pub fn parse_line(line: &Vec<char>) -> (r: Option<ParsedLine>)
    ensures
        match r {
            Some(p) => spec_parse_line(line@) == Some(p@),
            None => spec_parse_line(line@) is None,
        },
{
    let (first, rest0) = split_once_of(line, ' ');
    let lt = trim_of(&first);
    let level = match parse_u32(&lt) {
        Some(l) => l,
        None => {
            return None;
        },
    };
    let ghost r0 = opt_chars(rest0);
    let rest_raw = unwrap_or_empty(rest0);
    let rest = trim_start_of(&rest_raw);
    assert(rest@ == trim_start(or_empty(split_once(line@, ' ').1)));
    let mut xref: Option<Vec<char>> = None;
    let mut after = rest;
    if after.len() > 0 && after[0] == '@' {
        let ghost tail = after@.drop_first();
        assert(after@.subrange(1, after.len() as int) =~= tail);
        match find_char(&after, '@', 1) {
            Some(i) => {
                let p = i - 1;
                let x = slice_of(&after, 0, p + 2);
                let r = slice_of(&after, p + 2, after.len());
                let r2 = trim_start_of(&r);
                xref = Some(x);
                after = r2;
            },
            None => {},
        }
    }
    assert((opt_chars(xref), after@) == split_xref(rest@));
    let (tag, value) = split_once_of(&after, ' ');
    let v = unwrap_or_empty(value);
    Some(ParsedLine { level, xref, tag, value: v })
}

// ── tags ─────────────────────────────────────────────────────────────────────

#[derive(PartialEq, Eq, Structural, Clone, Copy)]
pub enum Tag {
    Indi,
    Fam,
    Name,
    Sex,
    Birt,
    Deat,
    Fams,
    Famc,
    Husb,
    Wife,
    Chil,
    Marr,
    Note,
    Chan,
    Text,
    Nam2,
    Namh,
    Jmar,
    Living,
    Date,
    Plac,
    Conc,
    Cont,
    Unknown,
}

pub open spec fn tag_of(t: Seq<char>) -> Tag {
    if t == seq!['I', 'N', 'D', 'I'] {
        Tag::Indi
    } else if t == seq!['F', 'A', 'M'] {
        Tag::Fam
    } else if t == seq!['N', 'A', 'M', 'E'] {
        Tag::Name
    } else if t == seq!['S', 'E', 'X'] {
        Tag::Sex
    } else if t == seq!['B', 'I', 'R', 'T'] {
        Tag::Birt
    } else if t == seq!['D', 'E', 'A', 'T'] {
        Tag::Deat
    } else if t == seq!['F', 'A', 'M', 'S'] {
        Tag::Fams
    } else if t == seq!['F', 'A', 'M', 'C'] {
        Tag::Famc
    } else if t == seq!['H', 'U', 'S', 'B'] {
        Tag::Husb
    } else if t == seq!['W', 'I', 'F', 'E'] {
        Tag::Wife
    } else if t == seq!['C', 'H', 'I', 'L'] {
        Tag::Chil
    } else if t == seq!['M', 'A', 'R', 'R'] {
        Tag::Marr
    } else if t == seq!['N', 'O', 'T', 'E'] {
        Tag::Note
    } else if t == seq!['C', 'H', 'A', 'N'] {
        Tag::Chan
    } else if t == seq!['T', 'E', 'X', 'T'] {
        Tag::Text
    } else if t == seq!['N', 'A', 'M', '2'] {
        Tag::Nam2
    } else if t == seq!['N', 'A', 'M', 'H'] {
        Tag::Namh
    } else if t == seq!['J', 'M', 'A', 'R'] {
        Tag::Jmar
    } else if t == seq!['_', 'L', 'I', 'V', 'I', 'N', 'G'] {
        Tag::Living
    } else if t == seq!['D', 'A', 'T', 'E'] {
        Tag::Date
    } else if t == seq!['P', 'L', 'A', 'C'] {
        Tag::Plac
    } else if t == seq!['C', 'O', 'N', 'C'] {
        Tag::Conc
    } else if t == seq!['C', 'O', 'N', 'T'] {
        Tag::Cont
    } else {
        Tag::Unknown
    }
}

pub fn classify_tag(t: &Vec<char>) -> (r: Tag)
    ensures
        r == tag_of(t@),
{
    if chars_eq(t, &['I', 'N', 'D', 'I']) {
        Tag::Indi
    } else if chars_eq(t, &['F', 'A', 'M']) {
        Tag::Fam
    } else if chars_eq(t, &['N', 'A', 'M', 'E']) {
        Tag::Name
    } else if chars_eq(t, &['S', 'E', 'X']) {
        Tag::Sex
    } else if chars_eq(t, &['B', 'I', 'R', 'T']) {
        Tag::Birt
    } else if chars_eq(t, &['D', 'E', 'A', 'T']) {
        Tag::Deat
    } else if chars_eq(t, &['F', 'A', 'M', 'S']) {
        Tag::Fams
    } else if chars_eq(t, &['F', 'A', 'M', 'C']) {
        Tag::Famc
    } else if chars_eq(t, &['H', 'U', 'S', 'B']) {
        Tag::Husb
    } else if chars_eq(t, &['W', 'I', 'F', 'E']) {
        Tag::Wife
    } else if chars_eq(t, &['C', 'H', 'I', 'L']) {
        Tag::Chil
    } else if chars_eq(t, &['M', 'A', 'R', 'R']) {
        Tag::Marr
    } else if chars_eq(t, &['N', 'O', 'T', 'E']) {
        Tag::Note
    } else if chars_eq(t, &['C', 'H', 'A', 'N']) {
        Tag::Chan
    } else if chars_eq(t, &['T', 'E', 'X', 'T']) {
        Tag::Text
    } else if chars_eq(t, &['N', 'A', 'M', '2']) {
        Tag::Nam2
    } else if chars_eq(t, &['N', 'A', 'M', 'H']) {
        Tag::Namh
    } else if chars_eq(t, &['J', 'M', 'A', 'R']) {
        Tag::Jmar
    } else if chars_eq(t, &['_', 'L', 'I', 'V', 'I', 'N', 'G']) {
        Tag::Living
    } else if chars_eq(t, &['D', 'A', 'T', 'E']) {
        Tag::Date
    } else if chars_eq(t, &['P', 'L', 'A', 'C']) {
        Tag::Plac
    } else if chars_eq(t, &['C', 'O', 'N', 'C']) {
        Tag::Conc
    } else if chars_eq(t, &['C', 'O', 'N', 'T']) {
        Tag::Cont
    } else {
        Tag::Unknown
    }
}

/// `_LIVING` value: `Y` → true, `N` → false (surrounding whitespace ignored).
pub open spec fn spec_living(value: Seq<char>) -> Option<bool> {
    let t = trim(value);
    if t == seq!['Y'] {
        Some(true)
    } else if t == seq!['N'] {
        Some(false)
    } else {
        None
    }
}

pub fn living_of(value: &Vec<char>) -> (r: Option<bool>)
    ensures
        r == spec_living(value@),
{
    let t = trim_of(value);
    let y = ['Y'];
    let n = ['N'];
    assert(y@ =~= seq!['Y']);
    assert(n@ =~= seq!['N']);
    if chars_eq(&t, &y) {
        Some(true)
    } else if chars_eq(&t, &n) {
        Some(false)
    } else {
        None
    }
}

} // verus!
