//! GEDCOM 5.5.1 parsing.
//!
//! The parser is a state machine over the lines of the input: a level-0 line
//! opens a record (individual, family, or anything else), level-1 and level-2
//! lines fill fields of the open record, and `CONC`/`CONT` lines extend the
//! last text field that was set. `spec_parse` states the whole process.

pub mod line;
pub mod merge;
pub mod scope;


use vstd::prelude::*;
use crate::genrep::{
    Event, EventV, Family, FamilyV, GedDate, Genrep, GenrepV, Individual, IndividualV,
    find_individual, inds_view, fams_view, ind_ids, ind_index, insert_family, lookup_ind, genrep_wf, ids_unique,
    fam_ids_unique, lemma_put_ind_unique, lemma_put_fam_unique, lemma_same_ids_unique, insert_individual, opt_str,
    put_fam, put_ind, strs,
};
use crate::text::{append_char, append_chars, chars_of, split_on, split_on_of, string_of, trim_end, trim_end_of, vview};
use line::{
    Tag, classify_tag, living_of, name_given, name_surname, or_empty, parse_line, parse_name,
    opt_chars, spec_living, spec_parse_line, spec_strip_at, strip_at, tag_of,
};

verus! {

// ── parser state ─────────────────────────────────────────────────────────────

#[derive(PartialEq, Eq, Structural, Clone, Copy)]
pub enum EventCtx {
    Idle,
    Birth,
    Death,
    Marriage,
}

/// The text field that a `CONC`/`CONT` line would extend.
#[derive(PartialEq, Eq, Structural, Clone, Copy)]
pub enum TextSlot {
    Idle,
    RawName,
    BirthDate,
    BirthPlace,
    DeathDate,
    DeathPlace,
    MarrDate,
    MarrPlace,
    /// The last note of the open record.
    Note,
}

/// A diagnostic produced while parsing (reported only when warnings are enabled).
pub enum ParseWarning {
    /// A non-empty line without a numeric level.
    UnparsableLine { line: usize, text: String },
    /// A level-1 tag that the parser does not know (reported once per tag).
    UnknownTag { tag: String, line: usize },
}

pub enum WarningV {
    UnparsableLine { line: int, text: Seq<char> },
    UnknownTag { tag: Seq<char>, line: int },
}

impl View for ParseWarning {
    type V = WarningV;

    open spec fn view(&self) -> WarningV {
        match self {
            ParseWarning::UnparsableLine { line, text } => WarningV::UnparsableLine {
                line: *line as int,
                text: text@,
            },
            ParseWarning::UnknownTag { tag, line } => WarningV::UnknownTag {
                tag: tag@,
                line: *line as int,
            },
        }
    }
}

pub open spec fn warnings_view(v: Seq<ParseWarning>) -> Seq<WarningV> {
    v.map_values(|w: ParseWarning| w@)
}

enum RecordCtx {
    Closed,
    Indi { indi: Individual, raw_name: Option<String> },
    Fam(Family),
    Other,
}

/// The record currently being read.
pub enum CtxV {
    Closed,
    Indi { indi: IndividualV<()>, raw_name: Option<Seq<char>> },
    Fam(FamilyV<()>),
    Other,
}

spec fn ctx_view(c: RecordCtx) -> CtxV {
    match c {
        RecordCtx::Closed => CtxV::Closed,
        RecordCtx::Indi { indi, raw_name } => CtxV::Indi { indi: indi@, raw_name: opt_str(raw_name) },
        RecordCtx::Fam(f) => CtxV::Fam(f@),
        RecordCtx::Other => CtxV::Other,
    }
}

pub struct StateV {
    pub ctx: CtxV,
    pub event: EventCtx,
    pub slot: TextSlot,
    pub indis: Seq<IndividualV<()>>,
    pub fams: Seq<FamilyV<()>>,
    pub first: Option<Seq<char>>,
    pub warned: Seq<Seq<char>>,
    pub warnings: Seq<WarningV>,
}

struct ParseState {
    ctx: RecordCtx,
    event: EventCtx,
    slot: TextSlot,
    individuals: Vec<Individual>,
    families: Vec<Family>,
    first: Option<String>,
    warned: Vec<String>,
    warnings: Vec<ParseWarning>,
}

impl View for ParseState {
    type V = StateV;

    closed spec fn view(&self) -> StateV {
        StateV {
            ctx: ctx_view(self.ctx),
            event: self.event,
            slot: self.slot,
            indis: inds_view(self.individuals@),
            fams: fams_view(self.families@),
            first: opt_str(self.first),
            warned: strs(self.warned@),
            warnings: warnings_view(self.warnings@),
        }
    }
}

// ── the state machine, as mathematics ────────────────────────────────────────

pub open spec fn init_v() -> StateV {
    StateV {
        ctx: CtxV::Closed,
        event: EventCtx::Idle,
        slot: TextSlot::Idle,
        indis: seq![],
        fams: seq![],
        first: None,
        warned: seq![],
        warnings: seq![],
    }
}

pub open spec fn blank_event() -> EventV {
    EventV { date: None, place: None }
}

pub open spec fn blank_indi(id: Seq<char>) -> IndividualV<()> {
    IndividualV {
        id,
        given: None,
        surname: None,
        sex: None,
        birth: None,
        death: None,
        fams: seq![],
        famc: seq![],
        alt_name: None,
        name_heb: None,
        living: None,
        notes: seq![],
        in_scope: false,
        geo: None,
    }
}

pub open spec fn blank_fam(id: Seq<char>) -> FamilyV<()> {
    FamilyV {
        id,
        husband_id: None,
        wife_id: None,
        children_ids: seq![],
        marriage: None,
        jmar: None,
        notes: seq![],
        in_scope: false,
        geo: None,
    }
}

/// The individual with its name split into given name and surname (when a NAME was read).
pub open spec fn named(indi: IndividualV<()>, raw_name: Option<Seq<char>>) -> IndividualV<()> {
    match raw_name {
        Some(n) => IndividualV { given: name_given(n), surname: name_surname(n), ..indi },
        None => indi,
    }
}

/// Store the open record (if any) and close it.
pub open spec fn commit_v(st: StateV) -> StateV {
    match st.ctx {
        CtxV::Indi { indi, raw_name } => StateV {
            ctx: CtxV::Closed,
            indis: put_ind(st.indis, named(indi, raw_name)),
            ..st
        },
        CtxV::Fam(f) => StateV { ctx: CtxV::Closed, fams: put_fam(st.fams, f), ..st },
        _ => StateV { ctx: CtxV::Closed, ..st },
    }
}

/// A level-0 line: close the open record and open a new one.
pub open spec fn level0_v(st: StateV, xref: Option<Seq<char>>, tag: Seq<char>) -> StateV {
    let s = StateV { event: EventCtx::Idle, slot: TextSlot::Idle, ..commit_v(st) };
    let id = spec_strip_at(or_empty(xref));
    match tag_of(tag) {
        Tag::Indi => StateV {
            first: if s.first is None { Some(id) } else { s.first },
            ctx: CtxV::Indi { indi: blank_indi(id), raw_name: None },
            ..s
        },
        Tag::Fam => StateV { ctx: CtxV::Fam(blank_fam(id)), ..s },
        _ => StateV { ctx: CtxV::Other, ..s },
    }
}

/// `s` extended by a CONC (`value` appended) or CONT (newline, then `value`).
pub open spec fn appended(s: Seq<char>, cont: bool, value: Seq<char>) -> Seq<char> {
    if cont {
        s.push('\n') + value
    } else {
        s + value
    }
}

pub open spec fn app_date(e: Option<EventV>, cont: bool, v: Seq<char>) -> Option<EventV> {
    match e {
        Some(ev) => Some(
            EventV {
                date: match ev.date {
                    Some(d) => Some(appended(d, cont, v)),
                    None => None,
                },
                ..ev
            },
        ),
        None => None,
    }
}

pub open spec fn app_place(e: Option<EventV>, cont: bool, v: Seq<char>) -> Option<EventV> {
    match e {
        Some(ev) => Some(
            EventV {
                place: match ev.place {
                    Some(p) => Some(appended(p, cont, v)),
                    None => None,
                },
                ..ev
            },
        ),
        None => None,
    }
}

/// The notes with the last one extended.
pub open spec fn app_last_note(notes: Seq<Seq<char>>, cont: bool, v: Seq<char>) -> Seq<Seq<char>> {
    if notes.len() > 0 {
        notes.update(notes.len() - 1, appended(notes.last(), cont, v))
    } else {
        notes
    }
}

/// Apply a CONC/CONT continuation to the last string field that was set.
pub open spec fn cont_v(ctx: CtxV, slot: TextSlot, cont: bool, v: Seq<char>) -> CtxV {
    match slot {
        TextSlot::Idle => ctx,
        TextSlot::RawName => match ctx {
            CtxV::Indi { indi, raw_name: Some(n) } => CtxV::Indi {
                indi,
                raw_name: Some(appended(n, cont, v)),
            },
            _ => ctx,
        },
        TextSlot::BirthDate => match ctx {
            CtxV::Indi { indi, raw_name } => CtxV::Indi {
                indi: IndividualV { birth: app_date(indi.birth, cont, v), ..indi },
                raw_name,
            },
            _ => ctx,
        },
        TextSlot::BirthPlace => match ctx {
            CtxV::Indi { indi, raw_name } => CtxV::Indi {
                indi: IndividualV { birth: app_place(indi.birth, cont, v), ..indi },
                raw_name,
            },
            _ => ctx,
        },
        TextSlot::DeathDate => match ctx {
            CtxV::Indi { indi, raw_name } => CtxV::Indi {
                indi: IndividualV { death: app_date(indi.death, cont, v), ..indi },
                raw_name,
            },
            _ => ctx,
        },
        TextSlot::DeathPlace => match ctx {
            CtxV::Indi { indi, raw_name } => CtxV::Indi {
                indi: IndividualV { death: app_place(indi.death, cont, v), ..indi },
                raw_name,
            },
            _ => ctx,
        },
        TextSlot::MarrDate => match ctx {
            CtxV::Fam(f) => CtxV::Fam(FamilyV { marriage: app_date(f.marriage, cont, v), ..f }),
            _ => ctx,
        },
        TextSlot::MarrPlace => match ctx {
            CtxV::Fam(f) => CtxV::Fam(FamilyV { marriage: app_place(f.marriage, cont, v), ..f }),
            _ => ctx,
        },
        TextSlot::Note => match ctx {
            CtxV::Indi { indi, raw_name } => CtxV::Indi {
                indi: IndividualV { notes: app_last_note(indi.notes, cont, v), ..indi },
                raw_name,
            },
            CtxV::Fam(f) => CtxV::Fam(FamilyV { notes: app_last_note(f.notes, cont, v), ..f }),
            _ => ctx,
        },
    }
}

pub open spec fn first_char(s: Seq<char>) -> Option<char> {
    if s.len() > 0 {
        Some(s[0])
    } else {
        None
    }
}

/// Individual-record fields set by a level-1 tag (None when the tag is not an individual field).
pub open spec fn indi_field_v(indi: IndividualV<()>, t: Tag, value: Seq<char>) -> IndividualV<()> {
    match t {
        Tag::Sex => IndividualV { sex: first_char(value), ..indi },
        Tag::Birt => IndividualV { birth: Some(blank_event()), ..indi },
        Tag::Deat => IndividualV { death: Some(blank_event()), ..indi },
        Tag::Fams => IndividualV { fams: indi.fams.push(spec_strip_at(value)), ..indi },
        Tag::Famc => IndividualV { famc: indi.famc.push(spec_strip_at(value)), ..indi },
        Tag::Nam2 => IndividualV { alt_name: Some(value), ..indi },
        Tag::Namh => IndividualV { name_heb: Some(value), ..indi },
        Tag::Living => IndividualV { living: spec_living(value), ..indi },
        _ => indi,
    }
}

pub open spec fn fam_field_v(f: FamilyV<()>, t: Tag, value: Seq<char>) -> FamilyV<()> {
    match t {
        Tag::Husb => FamilyV { husband_id: Some(spec_strip_at(value)), ..f },
        Tag::Wife => FamilyV { wife_id: Some(spec_strip_at(value)), ..f },
        Tag::Chil => FamilyV { children_ids: f.children_ids.push(spec_strip_at(value)), ..f },
        Tag::Marr => FamilyV { marriage: Some(blank_event()), ..f },
        Tag::Jmar => FamilyV { jmar: Some(value), ..f },
        _ => f,
    }
}

pub open spec fn is_indi_tag(t: Tag) -> bool {
    t == Tag::Sex || t == Tag::Birt || t == Tag::Deat || t == Tag::Fams || t == Tag::Famc || t
        == Tag::Nam2 || t == Tag::Namh || t == Tag::Living
}

pub open spec fn is_fam_tag(t: Tag) -> bool {
    t == Tag::Husb || t == Tag::Wife || t == Tag::Chil || t == Tag::Marr || t == Tag::Jmar
}

/// A level-1 line (its event and text contexts are reset first).
pub open spec fn level1_v(st: StateV, n: int, tag: Seq<char>, value: Seq<char>) -> StateV {
    let s = StateV { event: EventCtx::Idle, slot: TextSlot::Idle, ..st };
    let t = tag_of(tag);
    if s.ctx is Other || s.ctx is Closed {
        s
    } else if t == Tag::Name {
        match s.ctx {
            CtxV::Indi { indi, raw_name } => StateV {
                ctx: CtxV::Indi { indi, raw_name: Some(value) },
                slot: TextSlot::RawName,
                ..s
            },
            _ => s,
        }
    } else if is_indi_tag(t) {
        match s.ctx {
            CtxV::Indi { indi, raw_name } => StateV {
                ctx: CtxV::Indi { indi: indi_field_v(indi, t, value), raw_name },
                event: if t == Tag::Birt {
                    EventCtx::Birth
                } else if t == Tag::Deat {
                    EventCtx::Death
                } else {
                    EventCtx::Idle
                },
                ..s
            },
            _ => s,
        }
    } else if is_fam_tag(t) {
        match s.ctx {
            CtxV::Fam(f) => StateV {
                ctx: CtxV::Fam(fam_field_v(f, t, value)),
                event: if t == Tag::Marr {
                    EventCtx::Marriage
                } else {
                    EventCtx::Idle
                },
                ..s
            },
            _ => s,
        }
    } else if t == Tag::Note {
        match s.ctx {
            CtxV::Indi { indi, raw_name } => StateV {
                ctx: CtxV::Indi { indi: IndividualV { notes: indi.notes.push(value), ..indi }, raw_name },
                slot: TextSlot::Note,
                ..s
            },
            CtxV::Fam(f) => StateV {
                ctx: CtxV::Fam(FamilyV { notes: f.notes.push(value), ..f }),
                slot: TextSlot::Note,
                ..s
            },
            _ => s,
        }
    } else if t == Tag::Chan || t == Tag::Text {
        s
    } else if s.warned.contains(tag) {
        s
    } else {
        StateV {
            warned: s.warned.push(tag),
            warnings: s.warnings.push(WarningV::UnknownTag { tag, line: n }),
            ..s
        }
    }
}

pub open spec fn set_date(e: EventV, v: Seq<char>) -> EventV {
    EventV { date: Some(v), ..e }
}

pub open spec fn set_place(e: EventV, v: Seq<char>) -> EventV {
    EventV { place: Some(v), ..e }
}

/// A DATE or PLAC line under the open event.
pub open spec fn event_field_v(st: StateV, is_date: bool, v: Seq<char>) -> StateV {
    let upd = |e: EventV| if is_date { set_date(e, v) } else { set_place(e, v) };
    match st.event {
        EventCtx::Birth => match st.ctx {
            CtxV::Indi { indi, raw_name } => match indi.birth {
                Some(e) => StateV {
                    ctx: CtxV::Indi { indi: IndividualV { birth: Some(upd(e)), ..indi }, raw_name },
                    slot: if is_date { TextSlot::BirthDate } else { TextSlot::BirthPlace },
                    ..st
                },
                None => st,
            },
            _ => st,
        },
        EventCtx::Death => match st.ctx {
            CtxV::Indi { indi, raw_name } => match indi.death {
                Some(e) => StateV {
                    ctx: CtxV::Indi { indi: IndividualV { death: Some(upd(e)), ..indi }, raw_name },
                    slot: if is_date { TextSlot::DeathDate } else { TextSlot::DeathPlace },
                    ..st
                },
                None => st,
            },
            _ => st,
        },
        EventCtx::Marriage => match st.ctx {
            CtxV::Fam(f) => match f.marriage {
                Some(e) => StateV {
                    ctx: CtxV::Fam(FamilyV { marriage: Some(upd(e)), ..f }),
                    slot: if is_date { TextSlot::MarrDate } else { TextSlot::MarrPlace },
                    ..st
                },
                None => st,
            },
            _ => st,
        },
        EventCtx::Idle => st,
    }
}

/// A level-2 line.
pub open spec fn level2_v(st: StateV, tag: Seq<char>, value: Seq<char>) -> StateV {
    if st.ctx is Other || st.ctx is Closed {
        st
    } else if tag_of(tag) == Tag::Date {
        event_field_v(st, true, value)
    } else if tag_of(tag) == Tag::Plac {
        event_field_v(st, false, value)
    } else {
        StateV { slot: TextSlot::Idle, ..st }
    }
}

/// One input line (number `n`, counting from 1).
#[verifier::opaque]
pub open spec fn step_v(st: StateV, n: int, raw: Seq<char>) -> StateV {
    let line = trim_end(raw);
    if line.len() == 0 {
        st
    } else {
        match spec_parse_line(line) {
            None => StateV {
                warnings: st.warnings.push(WarningV::UnparsableLine { line: n, text: line }),
                ..st
            },
            Some((level, xref, tag, value)) => {
                if level == 0 {
                    level0_v(st, xref, tag)
                } else if tag_of(tag) == Tag::Conc || tag_of(tag) == Tag::Cont {
                    StateV { ctx: cont_v(st.ctx, st.slot, tag_of(tag) == Tag::Cont, value), ..st }
                } else if level == 1 {
                    level1_v(st, n, tag, value)
                } else if level == 2 {
                    level2_v(st, tag, value)
                } else {
                    st
                }
            },
        }
    }
}

pub open spec fn run_v(lines: Seq<Seq<char>>) -> StateV
    decreases lines.len(),
{
    if lines.len() == 0 {
        init_v()
    } else {
        step_v(run_v(lines.drop_last()), lines.len() as int, lines.last())
    }
}

/// Add `fam_id` to the FAMS links of individual `pid` (if present and not yet linked).
#[verifier::opaque]
pub open spec fn link_v(
    inds: Seq<IndividualV<()>>,
    fam_id: Seq<char>,
    pid: Option<Seq<char>>,
) -> Seq<IndividualV<()>> {
    match pid {
        Some(p) => {
            let i = ind_index(inds, p);
            if 0 <= i < inds.len() && !inds[i].fams.contains(fam_id) {
                inds.update(i, IndividualV { fams: inds[i].fams.push(fam_id), ..inds[i] })
            } else {
                inds
            }
        },
        None => inds,
    }
}

/// Repair of FAMS back-links from each family's HUSB and WIFE, family by family.
pub open spec fn repair_v(inds: Seq<IndividualV<()>>, fams: Seq<FamilyV<()>>) -> Seq<IndividualV<()>>
    decreases fams.len(),
{
    if fams.len() == 0 {
        inds
    } else {
        let r = repair_v(inds, fams.drop_last());
        let f = fams.last();
        link_v(link_v(r, f.id, f.husband_id), f.id, f.wife_id)
    }
}

/// The result of parsing `content`: the genealogical representation and the warnings.
pub open spec fn spec_parse(content: Seq<char>) -> (GenrepV<()>, Seq<WarningV>) {
    let st = commit_v(run_v(split_on(content, '\n')));
    (
        GenrepV {
            individuals: repair_v(st.indis, st.fams),
            families: st.fams,
            first_individual_id: st.first,
        },
        st.warnings,
    )
}

} // verus!

verus! {

// ── the state machine, as code ───────────────────────────────────────────────

fn blank_individual(id: &Vec<char>) -> (r: Individual)
    ensures
        r@ == blank_indi(id@),
{
    let r = Individual {
        id: string_of(id),
        given: None,
        surname: None,
        sex: None,
        birth: None,
        death: None,
        fams: Vec::new(),
        famc: Vec::new(),
        alt_name: None,
        name_heb: None,
        living: None,
        notes: Vec::new(),
        in_scope: false,
        geo: None,
    };
    assert(strs(r.fams@) =~= seq![]);
    assert(strs(r.famc@) =~= seq![]);
    assert(strs(r.notes@) =~= seq![]);
    r
}

fn blank_family(id: &Vec<char>) -> (r: Family)
    ensures
        r@ == blank_fam(id@),
{
    let r = Family {
        id: string_of(id),
        husband_id: None,
        wife_id: None,
        children_ids: Vec::new(),
        marriage: None,
        jmar: None,
        notes: Vec::new(),
        in_scope: false,
        geo: None,
    };
    assert(strs(r.children_ids@) =~= seq![]);
    assert(strs(r.notes@) =~= seq![]);
    r
}

fn blank_ev() -> (e: Event)
    ensures
        e@ == blank_event(),
{
    Event { date: None, place: None }
}

fn new_state() -> (st: ParseState)
    ensures
        st@ == init_v(),
{
    let st = ParseState {
        ctx: RecordCtx::Closed,
        event: EventCtx::Idle,
        slot: TextSlot::Idle,
        individuals: Vec::new(),
        families: Vec::new(),
        first: None,
        warned: Vec::new(),
        warnings: Vec::new(),
    };
    assert(inds_view(st.individuals@) =~= seq![]);
    assert(fams_view(st.families@) =~= seq![]);
    assert(strs(st.warned@) =~= seq![]);
    assert(warnings_view(st.warnings@) =~= seq![]);
    st
}

fn commit_record(st: &mut ParseState)
    ensures
        final(st)@ == commit_v(old(st)@),
{
    let mut ctx = RecordCtx::Closed;
    std::mem::swap(&mut ctx, &mut st.ctx);
    match ctx {
        RecordCtx::Indi { mut indi, raw_name } => {
            match raw_name {
                Some(name) => {
                    let nv = chars_of(name.as_str());
                    let (g, s) = parse_name(&nv);
                    indi.given = g;
                    indi.surname = s;
                },
                None => {},
            }
            insert_individual(&mut st.individuals, indi);
        },
        RecordCtx::Fam(f) => {
            insert_family(&mut st.families, f);
        },
        _ => {},
    }
}

fn level0(st: &mut ParseState, xref: Option<Vec<char>>, tag: &Vec<char>)
    ensures
        final(st)@ == level0_v(old(st)@, opt_chars(xref), tag@),
{
    commit_record(st);
    st.event = EventCtx::Idle;
    st.slot = TextSlot::Idle;
    let xr = line::unwrap_or_empty(xref);
    let id = strip_at(&xr);
    match classify_tag(tag) {
        Tag::Indi => {
            if st.first.is_none() {
                st.first = Some(string_of(&id));
            }
            st.ctx = RecordCtx::Indi { indi: blank_individual(&id), raw_name: None };
        },
        Tag::Fam => {
            st.ctx = RecordCtx::Fam(blank_family(&id));
        },
        _ => {
            st.ctx = RecordCtx::Other;
        },
    }
}

fn appended_string(s: String, cont: bool, v: &Vec<char>) -> (r: String)
    ensures
        r@ == appended(s@, cont, v@),
{
    let mut s = s;
    if cont {
        append_char(&mut s, '\n');
    }
    append_chars(&mut s, v);
    s
}

fn app_date_ex(e: Option<Event>, cont: bool, v: &Vec<char>) -> (r: Option<Event>)
    ensures
        crate::genrep::opt_event(r) == app_date(crate::genrep::opt_event(e), cont, v@),
{
    match e {
        Some(ev) => {
            let Event { date, place } = ev;
            let d2 = match date {
                Some(d) => Some(GedDate { raw: appended_string(d.raw, cont, v) }),
                None => None,
            };
            Some(Event { date: d2, place })
        },
        None => None,
    }
}

fn app_place_ex(e: Option<Event>, cont: bool, v: &Vec<char>) -> (r: Option<Event>)
    ensures
        crate::genrep::opt_event(r) == app_place(crate::genrep::opt_event(e), cont, v@),
{
    match e {
        Some(ev) => {
            let Event { date, place } = ev;
            let p2 = match place {
                Some(p) => Some(appended_string(p, cont, v)),
                None => None,
            };
            Some(Event { date, place: p2 })
        },
        None => None,
    }
}

fn apply_continuation(ctx: RecordCtx, slot: TextSlot, cont: bool, v: &Vec<char>) -> (r: RecordCtx)
    ensures
        ctx_view(r) == cont_v(ctx_view(ctx), slot, cont, v@),
{
    match slot {
        TextSlot::Idle => ctx,
        TextSlot::RawName => match ctx {
            RecordCtx::Indi { indi, raw_name: Some(n) } => RecordCtx::Indi {
                indi,
                raw_name: Some(appended_string(n, cont, v)),
            },
            other => other,
        },
        TextSlot::BirthDate => match ctx {
            RecordCtx::Indi { mut indi, raw_name } => {
                let b = indi.birth.take();
                indi.birth = app_date_ex(b, cont, v);
                RecordCtx::Indi { indi, raw_name }
            },
            other => other,
        },
        TextSlot::BirthPlace => match ctx {
            RecordCtx::Indi { mut indi, raw_name } => {
                let b = indi.birth.take();
                indi.birth = app_place_ex(b, cont, v);
                RecordCtx::Indi { indi, raw_name }
            },
            other => other,
        },
        TextSlot::DeathDate => match ctx {
            RecordCtx::Indi { mut indi, raw_name } => {
                let b = indi.death.take();
                indi.death = app_date_ex(b, cont, v);
                RecordCtx::Indi { indi, raw_name }
            },
            other => other,
        },
        TextSlot::DeathPlace => match ctx {
            RecordCtx::Indi { mut indi, raw_name } => {
                let b = indi.death.take();
                indi.death = app_place_ex(b, cont, v);
                RecordCtx::Indi { indi, raw_name }
            },
            other => other,
        },
        TextSlot::MarrDate => match ctx {
            RecordCtx::Fam(mut f) => {
                let m = f.marriage.take();
                f.marriage = app_date_ex(m, cont, v);
                RecordCtx::Fam(f)
            },
            other => other,
        },
        TextSlot::MarrPlace => match ctx {
            RecordCtx::Fam(mut f) => {
                let m = f.marriage.take();
                f.marriage = app_place_ex(m, cont, v);
                RecordCtx::Fam(f)
            },
            other => other,
        },
        TextSlot::Note => match ctx {
            RecordCtx::Indi { mut indi, raw_name } => {
                app_last_note_ex(&mut indi.notes, cont, v);
                RecordCtx::Indi { indi, raw_name }
            },
            RecordCtx::Fam(mut f) => {
                app_last_note_ex(&mut f.notes, cont, v);
                RecordCtx::Fam(f)
            },
            other => other,
        },
    }
}

fn app_last_note_ex(notes: &mut Vec<String>, cont: bool, v: &Vec<char>)
    ensures
        strs(final(notes)@) == app_last_note(strs(old(notes)@), cont, v@),
{
    let n = notes.len();
    if n > 0 {
        let last = notes.pop().unwrap();
        let ghost before = strs(notes@);
        let ext = appended_string(last, cont, v);
        notes.push(ext);
        assert(strs(notes@) =~= strs(old(notes)@).update(n - 1, appended(strs(old(notes)@).last(), cont, v@)));
    }
}

fn push_id(v: &mut Vec<String>, value: &Vec<char>)
    ensures
        strs(final(v)@) == strs(old(v)@).push(crate::parser::line::spec_strip_at(value@)),
{
    let id = strip_at(value);
    v.push(string_of(&id));
    assert(strs(v@) =~= strs(old(v)@).push(crate::parser::line::spec_strip_at(value@)));
}

fn indi_field(indi: Individual, t: Tag, value: &Vec<char>) -> (r: Individual)
    requires
        is_indi_tag(t),
    ensures
        r@ == indi_field_v(indi@, t, value@),
{
    let mut indi = indi;
    match t {
        Tag::Sex => {
            indi.sex = if value.len() > 0 {
                Some(value[0])
            } else {
                None
            };
        },
        Tag::Birt => {
            indi.birth = Some(blank_ev());
        },
        Tag::Deat => {
            indi.death = Some(blank_ev());
        },
        Tag::Fams => {
            push_id(&mut indi.fams, value);
        },
        Tag::Famc => {
            push_id(&mut indi.famc, value);
        },
        Tag::Nam2 => {
            indi.alt_name = Some(string_of(value));
        },
        Tag::Namh => {
            indi.name_heb = Some(string_of(value));
        },
        _ => {
            indi.living = living_of(value);
        },
    }
    indi
}

fn fam_field(f: Family, t: Tag, value: &Vec<char>) -> (r: Family)
    requires
        is_fam_tag(t),
    ensures
        r@ == fam_field_v(f@, t, value@),
{
    let mut f = f;
    match t {
        Tag::Husb => {
            let id = strip_at(value);
            f.husband_id = Some(string_of(&id));
        },
        Tag::Wife => {
            let id = strip_at(value);
            f.wife_id = Some(string_of(&id));
        },
        Tag::Chil => {
            push_id(&mut f.children_ids, value);
        },
        Tag::Marr => {
            f.marriage = Some(blank_ev());
        },
        _ => {
            f.jmar = Some(string_of(value));
        },
    }
    f
}

fn is_indi_tag_ex(t: Tag) -> (r: bool)
    ensures
        r == is_indi_tag(t),
{
    t == Tag::Sex || t == Tag::Birt || t == Tag::Deat || t == Tag::Fams || t == Tag::Famc || t
        == Tag::Nam2 || t == Tag::Namh || t == Tag::Living
}

fn is_fam_tag_ex(t: Tag) -> (r: bool)
    ensures
        r == is_fam_tag(t),
{
    t == Tag::Husb || t == Tag::Wife || t == Tag::Chil || t == Tag::Marr || t == Tag::Jmar
}

/// Whether `x` occurs among the strings of `v`.
pub fn contains_chars(v: &Vec<String>, x: &Vec<char>) -> (r: bool)
    ensures
        r == strs(v@).contains(x@),
{
    let mut i: usize = 0;
    while i < v.len()
        invariant
            i <= v.len(),
            forall|k: int| 0 <= k < i ==> v@[k]@ != x@,
        decreases v.len() - i,
    {
        let c = chars_of(v[i].as_str());
        if crate::text::vec_eq(&c, x) {
            assert(strs(v@)[i as int] == x@);
            return true;
        }
        i = i + 1;
    }
    assert(!strs(v@).contains(x@)) by {
        if strs(v@).contains(x@) {
            let k = choose|k: int| 0 <= k < strs(v@).len() && strs(v@)[k] == x@;
            assert(v@[k]@ == x@);
        }
    }
    false
}

/// Whether the string `x` occurs in `v`.
pub fn contains_string(v: &Vec<String>, x: &String) -> (r: bool)
    ensures
        r == strs(v@).contains(x@),
{
    let c = chars_of(x.as_str());
    contains_chars(v, &c)
}

fn level1(st: &mut ParseState, n: usize, tag: &Vec<char>, value: &Vec<char>)
    ensures
        final(st)@ == level1_v(old(st)@, n as int, tag@, value@),
{
    st.event = EventCtx::Idle;
    st.slot = TextSlot::Idle;
    let open = match &st.ctx {
        RecordCtx::Other => false,
        RecordCtx::Closed => false,
        _ => true,
    };
    if !open {
        return;
    }
    let t = classify_tag(tag);
    if t == Tag::Name {
        let mut ctx = RecordCtx::Closed;
        std::mem::swap(&mut ctx, &mut st.ctx);
        match ctx {
            RecordCtx::Indi { indi, raw_name: _ } => {
                st.slot = TextSlot::RawName;
                st.ctx = RecordCtx::Indi { indi, raw_name: Some(string_of(value)) };
            },
            other => {
                st.ctx = other;
            },
        }
    } else if is_indi_tag_ex(t) {
        let mut ctx = RecordCtx::Closed;
        std::mem::swap(&mut ctx, &mut st.ctx);
        match ctx {
            RecordCtx::Indi { indi, raw_name } => {
                let indi2 = indi_field(indi, t, value);
                st.event = if t == Tag::Birt {
                    EventCtx::Birth
                } else if t == Tag::Deat {
                    EventCtx::Death
                } else {
                    EventCtx::Idle
                };
                st.ctx = RecordCtx::Indi { indi: indi2, raw_name };
            },
            other => {
                st.ctx = other;
            },
        }
    } else if is_fam_tag_ex(t) {
        let mut ctx = RecordCtx::Closed;
        std::mem::swap(&mut ctx, &mut st.ctx);
        match ctx {
            RecordCtx::Fam(f) => {
                let f2 = fam_field(f, t, value);
                st.event = if t == Tag::Marr {
                    EventCtx::Marriage
                } else {
                    EventCtx::Idle
                };
                st.ctx = RecordCtx::Fam(f2);
            },
            other => {
                st.ctx = other;
            },
        }
    } else if t == Tag::Note {
        let mut ctx = RecordCtx::Closed;
        std::mem::swap(&mut ctx, &mut st.ctx);
        match ctx {
            RecordCtx::Indi { mut indi, raw_name } => {
                let ghost before = strs(indi.notes@);
                indi.notes.push(string_of(value));
                assert(strs(indi.notes@) =~= before.push(value@));
                st.slot = TextSlot::Note;
                st.ctx = RecordCtx::Indi { indi, raw_name };
            },
            RecordCtx::Fam(mut f) => {
                let ghost before = strs(f.notes@);
                f.notes.push(string_of(value));
                assert(strs(f.notes@) =~= before.push(value@));
                st.slot = TextSlot::Note;
                st.ctx = RecordCtx::Fam(f);
            },
            other => {
                st.ctx = other;
            },
        }
    } else if t == Tag::Chan || t == Tag::Text {
    } else if !contains_chars(&st.warned, tag) {
        st.warned.push(string_of(tag));
        st.warnings.push(ParseWarning::UnknownTag { tag: string_of(tag), line: n });
        assert(strs(st.warned@) =~= strs(old(st).warned@).push(tag@));
        assert(warnings_view(st.warnings@) =~= warnings_view(old(st).warnings@).push(
            WarningV::UnknownTag { tag: tag@, line: n as int },
        ));
    }
}

fn set_ev(e: Event, is_date: bool, v: &Vec<char>) -> (r: Event)
    ensures
        r@ == (if is_date { set_date(e@, v@) } else { set_place(e@, v@) }),
{
    let Event { date, place } = e;
    if is_date {
        Event { date: Some(GedDate { raw: string_of(v) }), place }
    } else {
        Event { date, place: Some(string_of(v)) }
    }
}

fn event_field(st: &mut ParseState, is_date: bool, v: &Vec<char>)
    ensures
        final(st)@ == event_field_v(old(st)@, is_date, v@),
{
    match st.event {
        EventCtx::Birth => {
            let mut ctx = RecordCtx::Closed;
            std::mem::swap(&mut ctx, &mut st.ctx);
            match ctx {
                RecordCtx::Indi { mut indi, raw_name } => {
                    match indi.birth.take() {
                        Some(e) => {
                            indi.birth = Some(set_ev(e, is_date, v));
                            st.slot = if is_date {
                                TextSlot::BirthDate
                            } else {
                                TextSlot::BirthPlace
                            };
                        },
                        None => {},
                    }
                    st.ctx = RecordCtx::Indi { indi, raw_name };
                },
                other => {
                    st.ctx = other;
                },
            }
        },
        EventCtx::Death => {
            let mut ctx = RecordCtx::Closed;
            std::mem::swap(&mut ctx, &mut st.ctx);
            match ctx {
                RecordCtx::Indi { mut indi, raw_name } => {
                    match indi.death.take() {
                        Some(e) => {
                            indi.death = Some(set_ev(e, is_date, v));
                            st.slot = if is_date {
                                TextSlot::DeathDate
                            } else {
                                TextSlot::DeathPlace
                            };
                        },
                        None => {},
                    }
                    st.ctx = RecordCtx::Indi { indi, raw_name };
                },
                other => {
                    st.ctx = other;
                },
            }
        },
        EventCtx::Marriage => {
            let mut ctx = RecordCtx::Closed;
            std::mem::swap(&mut ctx, &mut st.ctx);
            match ctx {
                RecordCtx::Fam(mut f) => {
                    match f.marriage.take() {
                        Some(e) => {
                            f.marriage = Some(set_ev(e, is_date, v));
                            st.slot = if is_date {
                                TextSlot::MarrDate
                            } else {
                                TextSlot::MarrPlace
                            };
                        },
                        None => {},
                    }
                    st.ctx = RecordCtx::Fam(f);
                },
                other => {
                    st.ctx = other;
                },
            }
        },
        EventCtx::Idle => {},
    }
}

fn level2(st: &mut ParseState, tag: &Vec<char>, value: &Vec<char>)
    ensures
        final(st)@ == level2_v(old(st)@, tag@, value@),
{
    let open = match &st.ctx {
        RecordCtx::Other => false,
        RecordCtx::Closed => false,
        _ => true,
    };
    if !open {
        return;
    }
    let t = classify_tag(tag);
    if t == Tag::Date {
        event_field(st, true, value);
    } else if t == Tag::Plac {
        event_field(st, false, value);
    } else {
        st.slot = TextSlot::Idle;
    }
}

fn step(st: &mut ParseState, n: usize, raw: &Vec<char>)
    ensures
        final(st)@ == step_v(old(st)@, n as int, raw@),
{
    reveal(step_v);
    let line = trim_end_of(raw);
    if line.len() == 0 {
        return;
    }
    match parse_line(&line) {
        None => {
            st.warnings.push(ParseWarning::UnparsableLine { line: n, text: string_of(&line) });
            assert(warnings_view(st.warnings@) =~= warnings_view(old(st).warnings@).push(
                WarningV::UnparsableLine { line: n as int, text: line@ },
            ));
        },
        Some(p) => {
            let line::ParsedLine { level, xref, tag, value } = p;
            if level == 0 {
                level0(st, xref, &tag);
            } else {
                let t = classify_tag(&tag);
                if t == Tag::Conc || t == Tag::Cont {
                    let mut ctx = RecordCtx::Closed;
                    std::mem::swap(&mut ctx, &mut st.ctx);
                    st.ctx = apply_continuation(ctx, st.slot, t == Tag::Cont, &value);
                } else if level == 1 {
                    level1(st, n, &tag, &value);
                } else if level == 2 {
                    level2(st, &tag, &value);
                }
            }
        },
    }
}

fn link(inds: &mut Vec<Individual>, fam_id: &String, pid: &Option<String>)
    ensures
        inds_view(final(inds)@) == link_v(inds_view(old(inds)@), fam_id@, opt_str(*pid)),
{
    reveal(link_v);
    match pid {
        Some(p) => {
            match find_individual(inds, p.as_str()) {
                Some(k) => {
                    if !contains_string(&inds[k].fams, fam_id) {
                        let ghost before = inds_view(inds@);
                        let mut ind = inds.remove(k);
                        ind.fams.push(fam_id.clone());
                        assert(strs(ind.fams@) =~= before[k as int].fams.push(fam_id@));
                        inds.insert(k, ind);
                        assert(inds_view(inds@) =~= before.update(
                            k as int,
                            IndividualV { fams: before[k as int].fams.push(fam_id@), ..before[k as int] },
                        ));
                    }
                },
                None => {},
            }
        },
        None => {},
    }
}

fn repair(inds: &mut Vec<Individual>, fams: &Vec<Family>)
    ensures
        inds_view(final(inds)@) == repair_v(inds_view(old(inds)@), fams_view(fams@)),
{
    let ghost start = inds_view(inds@);
    let mut i: usize = 0;
    while i < fams.len()
        invariant
            i <= fams.len(),
            inds_view(inds@) == repair_v(start, fams_view(fams@).take(i as int)),
        decreases fams.len() - i,
    {
        let ghost fv = fams_view(fams@).take(i + 1);
        assert(fv.drop_last() =~= fams_view(fams@).take(i as int));
        link(inds, &fams[i].id, &fams[i].husband_id);
        link(inds, &fams[i].id, &fams[i].wife_id);
        i = i + 1;
    }
    assert(fams_view(fams@).take(fams.len() as int) =~= fams_view(fams@));
}

/// Parse GEDCOM text; also returns the diagnostics met on the way.
pub fn parse_gedcom(content: &str) -> (r: (Genrep, Vec<ParseWarning>))
    ensures
        r.0@ == spec_parse(content@).0,
        warnings_view(r.1@) == spec_parse(content@).1,
        genrep_wf(r.0@),
{
    let chars = chars_of(content);
    let lines = split_on_of(&chars, '\n');
    let mut st = new_state();
    let mut i: usize = 0;
    while i < lines.len()
        invariant
            i <= lines.len(),
            st@ == run_v(vview(lines@).take(i as int)),
        decreases lines.len() - i,
    {
        let ghost lv = vview(lines@).take(i + 1);
        assert(lv.drop_last() =~= vview(lines@).take(i as int));
        step(&mut st, i + 1, &lines[i]);
        i = i + 1;
    }
    assert(vview(lines@).take(lines.len() as int) =~= vview(lines@));
    commit_record(&mut st);
    repair(&mut st.individuals, &st.families);
    let ParseState { ctx: _, event: _, slot: _, individuals, families, first, warned: _, warnings } = st;
    proof {
        lemma_parse_ids_unique(content@);
    }
    (Genrep { individuals, families, first_individual_id: first }, warnings)
}

/// Parse GEDCOM text into the genealogical representation.
///
/// Parsing never fails: lines that cannot be read are skipped.
pub fn parse_str(content: &str) -> (r: Result<Genrep, String>)
    ensures
        r matches Ok(g) && g@ == spec_parse(content@).0 && genrep_wf(g@),
{
    Ok(parse_gedcom(content).0)
}

} // verus!

verus! {

// ── links between families and their spouses ─────────────────────────────────

/// `pid`, when it names an individual present in `inds`, lists `fid` among its FAMS links.
pub open spec fn spouse_linked(inds: Seq<IndividualV<()>>, fid: Seq<char>, pid: Option<Seq<char>>) -> bool {
    match pid {
        Some(p) => (lookup_ind(inds, p) matches Some(x) ==> x.fams.contains(fid)),
        None => true,
    }
}

/// `b` holds the individuals of `a`, in the same order, each with at least its links.
pub open spec fn links_grow(a: Seq<IndividualV<()>>, b: Seq<IndividualV<()>>) -> bool {
    &&& a.len() == b.len()
    &&& ind_ids(a) == ind_ids(b)
    &&& forall|i: int, x: Seq<char>|
        #![trigger a[i].fams.contains(x)]
        0 <= i < a.len() && a[i].fams.contains(x) ==> b[i].fams.contains(x)
}

proof fn lemma_links_grow_trans(a: Seq<IndividualV<()>>, b: Seq<IndividualV<()>>, c: Seq<IndividualV<()>>)
    requires
        links_grow(a, b),
        links_grow(b, c),
    ensures
        links_grow(a, c),
{
    assert forall|i: int, x: Seq<char>| 0 <= i < a.len() && a[i].fams.contains(x) implies c[i].fams.contains(
        x,
    ) by {
        assert(b[i].fams.contains(x));
    }
}

proof fn lemma_linked_grow(a: Seq<IndividualV<()>>, b: Seq<IndividualV<()>>, fid: Seq<char>, pid: Option<Seq<char>>)
    requires
        links_grow(a, b),
        spouse_linked(a, fid, pid),
    ensures
        spouse_linked(b, fid, pid),
{
    if let Some(p) = pid {
        let i = ind_index(a, p);
        assert(ind_index(b, p) == i);
        if 0 <= i < a.len() {
            assert(a[i].fams.contains(fid));
        }
    }
}

proof fn lemma_link_v(inds: Seq<IndividualV<()>>, fid: Seq<char>, pid: Option<Seq<char>>)
    ensures
        links_grow(inds, link_v(inds, fid, pid)),
        spouse_linked(link_v(inds, fid, pid), fid, pid),
{
    reveal(link_v);
    let r = link_v(inds, fid, pid);
    if let Some(p) = pid {
        let i = ind_index(inds, p);
        if 0 <= i < inds.len() && !inds[i].fams.contains(fid) {
            let nf = inds[i].fams.push(fid);
            assert(ind_ids(r) =~= ind_ids(inds));
            assert(nf[inds[i].fams.len() as int] == fid);
            assert forall|j: int, x: Seq<char>| 0 <= j < inds.len() && inds[j].fams.contains(x) implies r[j].fams.contains(
                x,
            ) by {
                if j == i {
                    let q = choose|q: int| 0 <= q < inds[i].fams.len() && inds[i].fams[q] == x;
                    assert(nf[q] == x);
                }
            }
        }
    }
}

proof fn lemma_repair(inds: Seq<IndividualV<()>>, fams: Seq<FamilyV<()>>)
    ensures
        links_grow(inds, repair_v(inds, fams)),
        forall|k: int|
            0 <= k < fams.len() ==> spouse_linked(repair_v(inds, fams), (#[trigger] fams[k]).id, fams[k].husband_id)
                && spouse_linked(repair_v(inds, fams), fams[k].id, fams[k].wife_id),
    decreases fams.len(),
{
    if fams.len() > 0 {
        let pre = fams.drop_last();
        let r = repair_v(inds, pre);
        let f = fams.last();
        let r1 = link_v(r, f.id, f.husband_id);
        let r2 = link_v(r1, f.id, f.wife_id);
        lemma_repair(inds, pre);
        lemma_link_v(r, f.id, f.husband_id);
        lemma_link_v(r1, f.id, f.wife_id);
        lemma_links_grow_trans(r, r1, r2);
        lemma_links_grow_trans(inds, r, r2);
        lemma_linked_grow(r1, r2, f.id, f.husband_id);
        assert forall|k: int| 0 <= k < fams.len() implies spouse_linked(r2, (#[trigger] fams[k]).id, fams[k].husband_id)
            && spouse_linked(r2, fams[k].id, fams[k].wife_id) by {
            if k < fams.len() - 1 {
                assert(pre[k] == fams[k]);
                lemma_linked_grow(r, r2, fams[k].id, fams[k].husband_id);
                lemma_linked_grow(r, r2, fams[k].id, fams[k].wife_id);
            }
        }
    } else {
        assert(links_grow(inds, inds));
    }
}

/// After parsing, every individual named as husband or wife of a family lists that
/// family among its FAMS links, whether or not its own record did.
pub proof fn lemma_parse_links_spouses(content: Seq<char>)
    ensures
        ({
            let g = spec_parse(content).0;
            forall|k: int|
                0 <= k < g.families.len() ==> spouse_linked(g.individuals, (#[trigger] g.families[k]).id, g.families[k].husband_id)
                    && spouse_linked(g.individuals, g.families[k].id, g.families[k].wife_id)
        }),
{
    let st = commit_v(run_v(split_on(content, '\n')));
    lemma_repair(st.indis, st.fams);
}

/// `b` is `a` followed by IDs that each occur once and not in `a`.
pub open spec fn extends_fresh(a: Seq<Seq<char>>, b: Seq<Seq<char>>) -> bool {
    &&& a.len() <= b.len()
    &&& b.take(a.len() as int) == a
    &&& forall|j: int| a.len() <= j < b.len() ==> !b.take(j).contains(#[trigger] b[j])
}

proof fn lemma_extends_fresh_trans(a: Seq<Seq<char>>, b: Seq<Seq<char>>, c: Seq<Seq<char>>)
    requires
        extends_fresh(a, b),
        extends_fresh(b, c),
    ensures
        extends_fresh(a, c),
{
    assert(c.take(a.len() as int) =~= c.take(b.len() as int).take(a.len() as int));
    assert forall|j: int| a.len() <= j < c.len() implies !c.take(j).contains(#[trigger] c[j]) by {
        if j < b.len() {
            assert(c[j] == b[j]);
            assert(c.take(j) =~= b.take(j));
        }
    }
}

proof fn lemma_link_fresh(inds: Seq<IndividualV<()>>, fid: Seq<char>, pid: Option<Seq<char>>, i: int)
    requires
        0 <= i < inds.len(),
    ensures
        link_v(inds, fid, pid).len() == inds.len(),
        extends_fresh(inds[i].fams, link_v(inds, fid, pid)[i].fams),
{
    reveal(link_v);
    let a = inds[i].fams;
    let b = link_v(inds, fid, pid)[i].fams;
    assert(a.take(a.len() as int) =~= a);
    if b != a {
        assert(b =~= a.push(fid));
        assert(b.take(a.len() as int) =~= a);
        assert(b.take(a.len() as int) == a);
    }
}

proof fn lemma_repair_fresh(inds: Seq<IndividualV<()>>, fams: Seq<FamilyV<()>>, i: int)
    requires
        0 <= i < inds.len(),
    ensures
        repair_v(inds, fams).len() == inds.len(),
        extends_fresh(inds[i].fams, repair_v(inds, fams)[i].fams),
    decreases fams.len(),
{
    if fams.len() == 0 {
        let a = inds[i].fams;
        assert(a.take(a.len() as int) =~= a);
    } else {
        let r = repair_v(inds, fams.drop_last());
        let f = fams.last();
        lemma_repair_fresh(inds, fams.drop_last(), i);
        let r1 = link_v(r, f.id, f.husband_id);
        lemma_link_fresh(r, f.id, f.husband_id, i);
        lemma_link_fresh(r1, f.id, f.wife_id, i);
        lemma_extends_fresh_trans(inds[i].fams, r[i].fams, r1[i].fams);
        lemma_extends_fresh_trans(inds[i].fams, r1[i].fams, link_v(r1, f.id, f.wife_id)[i].fams);
    }
}

/// The repair of FAMS links adds to each individual only family IDs that it does not
/// list yet, each once, after the links of its own record.
pub proof fn lemma_repair_adds_no_duplicate(inds: Seq<IndividualV<()>>, fams: Seq<FamilyV<()>>)
    ensures
        repair_v(inds, fams).len() == inds.len(),
        forall|i: int| 0 <= i < inds.len() ==> extends_fresh(inds[i].fams, #[trigger] repair_v(inds, fams)[i].fams),
{
    assert forall|i: int| 0 <= i < inds.len() implies extends_fresh(inds[i].fams, #[trigger] repair_v(inds, fams)[i].fams) by {
        lemma_repair_fresh(inds, fams, i);
    }
    if inds.len() > 0 {
        lemma_repair_fresh(inds, fams, 0);
    } else {
        lemma_repair(inds, fams);
    }
}

proof fn lemma_commit_unique(st: StateV)
    requires
        ids_unique(st.indis),
        fam_ids_unique(st.fams),
    ensures
        ids_unique(commit_v(st).indis),
        fam_ids_unique(commit_v(st).fams),
{
    match st.ctx {
        CtxV::Indi { indi, raw_name } => lemma_put_ind_unique(st.indis, named(indi, raw_name)),
        CtxV::Fam(f) => lemma_put_fam_unique(st.fams, f),
        _ => {},
    }
}

proof fn lemma_step_unique(st: StateV, n: int, raw: Seq<char>)
    requires
        ids_unique(st.indis),
        fam_ids_unique(st.fams),
    ensures
        ids_unique(step_v(st, n, raw).indis),
        fam_ids_unique(step_v(st, n, raw).fams),
{
    reveal(step_v);
    lemma_commit_unique(st);
    let r = step_v(st, n, raw);
    assert((r.indis == st.indis && r.fams == st.fams) || (r.indis == commit_v(st).indis && r.fams
        == commit_v(st).fams));
}

proof fn lemma_run_unique(lines: Seq<Seq<char>>)
    ensures
        ids_unique(run_v(lines).indis),
        fam_ids_unique(run_v(lines).fams),
    decreases lines.len(),
{
    if lines.len() > 0 {
        lemma_run_unique(lines.drop_last());
        lemma_step_unique(run_v(lines.drop_last()), lines.len() as int, lines.last());
    }
}

/// Parsing yields a genealogy keyed by ID: a later record with an ID replaces an
/// earlier one, so no individual ID and no family ID occurs twice.
pub proof fn lemma_parse_ids_unique(content: Seq<char>)
    ensures
        genrep_wf(spec_parse(content).0),
{
    let run = run_v(split_on(content, '\n'));
    lemma_run_unique(split_on(content, '\n'));
    lemma_commit_unique(run);
    let st = commit_v(run);
    lemma_repair(st.indis, st.fams);
    lemma_same_ids_unique(st.indis, repair_v(st.indis, st.fams));
}

} // verus!

verus! {

// ── laws of events ───────────────────────────────────────────────────────────

/// A raw line that parses as a line of level `level` with tag `tag` and value `value`.
pub open spec fn parses_as(raw: Seq<char>, level: u32, tag: Seq<char>, value: Seq<char>) -> bool {
    trim_end(raw).len() > 0 && (spec_parse_line(trim_end(raw)) matches Some(p) && p.0 == level && p.2 == tag
        && p.3 == value)
}

proof fn lemma_step_level(st: StateV, n: int, l: Seq<char>, level: u32, tag: Seq<char>, v: Seq<char>)
    requires
        parses_as(l, level, tag, v),
        level == 1 || level == 2,
        tag_of(tag) != Tag::Conc,
        tag_of(tag) != Tag::Cont,
    ensures
        step_v(st, n, l) == if level == 1 {
            level1_v(st, n, tag, v)
        } else {
            level2_v(st, tag, v)
        },
{
    reveal(step_v);
}

proof fn lemma_event_tags()
    ensures
        tag_of(seq!['D', 'E', 'A', 'T']) == Tag::Deat,
        tag_of(seq!['B', 'I', 'R', 'T']) == Tag::Birt,
        tag_of(seq!['D', 'A', 'T', 'E']) == Tag::Date,
        tag_of(seq!['P', 'L', 'A', 'C']) == Tag::Plac,
{
}

/// Inside an individual record, `1 DEAT` followed by `2 DATE d` gives the individual a
/// death event dated `d`; followed by `2 PLAC p` instead, a death event at place `p`.
/// (The same holds of `1 BIRT` and the birth event.)
#[verifier::spinoff_prover]
#[verifier::rlimit(40)]
pub proof fn lemma_death_date_and_place(
    st: StateV,
    n: int,
    l1: Seq<char>,
    l2: Seq<char>,
    v: Seq<char>,
    w: Seq<char>,
    is_date: bool,
)
    requires
        st.ctx is Indi,
        parses_as(l1, 1, seq!['D', 'E', 'A', 'T'], v),
        parses_as(l2, 2, if is_date { seq!['D', 'A', 'T', 'E'] } else { seq!['P', 'L', 'A', 'C'] }, w),
    ensures
        ({
            let s = step_v(step_v(st, n, l1), n + 1, l2);
            &&& s.ctx is Indi
            &&& s.ctx->indi.id == st.ctx->indi.id
            &&& s.ctx->indi.death matches Some(e) && (if is_date {
                e.date == Some(w)
            } else {
                e.place == Some(w)
            })
        }),
{
    lemma_event_tags();
    let t1 = seq!['D', 'E', 'A', 'T'];
    let t2 = if is_date { seq!['D', 'A', 'T', 'E'] } else { seq!['P', 'L', 'A', 'C'] };
    lemma_step_level(st, n, l1, 1, t1, v);
    let s1 = step_v(st, n, l1);
    assert(s1.ctx is Indi && s1.event == EventCtx::Death);
    assert(s1.ctx->indi.death == Some(blank_event()));
    lemma_step_level(s1, n + 1, l2, 2, t2, w);
    let s2 = step_v(s1, n + 1, l2);
    assert(s2 == event_field_v(s1, is_date, w));
}

/// The same for births: `1 BIRT` then `2 DATE d` (or `2 PLAC p`).
#[verifier::spinoff_prover]
#[verifier::rlimit(40)]
pub proof fn lemma_birth_date_and_place(
    st: StateV,
    n: int,
    l1: Seq<char>,
    l2: Seq<char>,
    v: Seq<char>,
    w: Seq<char>,
    is_date: bool,
)
    requires
        st.ctx is Indi,
        parses_as(l1, 1, seq!['B', 'I', 'R', 'T'], v),
        parses_as(l2, 2, if is_date { seq!['D', 'A', 'T', 'E'] } else { seq!['P', 'L', 'A', 'C'] }, w),
    ensures
        ({
            let s = step_v(step_v(st, n, l1), n + 1, l2);
            &&& s.ctx is Indi
            &&& s.ctx->indi.id == st.ctx->indi.id
            &&& s.ctx->indi.birth matches Some(e) && (if is_date {
                e.date == Some(w)
            } else {
                e.place == Some(w)
            })
        }),
{
    lemma_event_tags();
    let t1 = seq!['B', 'I', 'R', 'T'];
    let t2 = if is_date { seq!['D', 'A', 'T', 'E'] } else { seq!['P', 'L', 'A', 'C'] };
    lemma_step_level(st, n, l1, 1, t1, v);
    let s1 = step_v(st, n, l1);
    assert(s1.ctx is Indi && s1.event == EventCtx::Birth);
    assert(s1.ctx->indi.birth == Some(blank_event()));
    lemma_step_level(s1, n + 1, l2, 2, t2, w);
    let s2 = step_v(s1, n + 1, l2);
    assert(s2 == event_field_v(s1, is_date, w));
}

} // verus!
