//! The simple layout as plain text: one line of text per layout line.

use vstd::prelude::*;
use crate::genrep::{Genrep, IndividualV, opt_str};
use crate::layout::simple::{SimpleGeo, SimpleGeoV, gen_prefix_str, placed_inds, spec_gen_prefix};
use crate::parser::line::or_empty;
use crate::preferences::ShowPrefs;
use crate::text::{append_char, append_chars, chars_of, string_of};

verus! {

/// The name of an individual: given name, then surname, a space between when both are
/// there.
pub open spec fn name_label(given: Option<Seq<char>>, surname: Option<Seq<char>>) -> Seq<char> {
    let g = or_empty(given);
    match surname {
        Some(s) => if g.len() > 0 {
            g + seq![' '] + s
        } else {
            s
        },
        None => g,
    }
}

/// The date of an event, if any.
pub open spec fn event_date(e: Option<crate::genrep::EventV>) -> Option<Seq<char>> {
    match e {
        Some(ev) => ev.date,
        None => None,
    }
}

/// The label of an individual: the name, then what `show` asks for among the sex
/// ` (M)`, the ID ` [I1]`, the birth date ` * date` and the death date ` × date`.
pub open spec fn row_label(x: IndividualV<SimpleGeoV>, show: ShowPrefs) -> Seq<char> {
    let a = name_label(x.given, x.surname);
    let b = if show.sex && x.sex is Some {
        a + seq![' ', '(', x.sex->0, ')']
    } else {
        a
    };
    let c = if show.id {
        b + seq![' ', '['] + x.id + seq![']']
    } else {
        b
    };
    let d = if show.birth && event_date(x.birth) is Some {
        c + seq![' ', '*', ' '] + event_date(x.birth)->0
    } else {
        c
    };
    if show.death && event_date(x.death) is Some {
        d + seq![' ', '×', ' '] + event_date(x.death)->0
    } else {
        d
    }
}

/// One line of the chart for a placed individual: the indentation (`cols` spaces per
/// level), then `...` for an elided subtree, `+ ` and the label for a spouse, or the
/// generation number (when shown) and the label.
pub open spec fn row_text(x: IndividualV<SimpleGeoV>, g: SimpleGeoV, show: ShowPrefs, cols: int) -> Seq<char> {
    Seq::new((g.indent * cols) as nat, |i: int| ' ') + if g.is_ellipsis {
        seq!['.', '.', '.']
    } else if g.is_spouse {
        seq!['+', ' '] + row_label(x, show)
    } else if show.generation_num {
        spec_gen_prefix(g.generation as nat) + row_label(x, show)
    } else {
        row_label(x, show)
    }
}

/// The position of the first individual placed on line `l`, or -1.
pub open spec fn first_on_line(s: Seq<IndividualV<SimpleGeoV>>, l: int, from: int) -> int
    decreases s.len() - from,
{
    if from >= s.len() || from < 0 {
        -1
    } else if s[from].geo matches Some(g) && g.line == l {
        from
    } else {
        first_on_line(s, l, from + 1)
    }
}

/// The text of line `l`: the row of the first individual placed there, or nothing.
pub open spec fn line_text(s: Seq<IndividualV<SimpleGeoV>>, l: int, show: ShowPrefs, cols: int) -> Seq<char> {
    let i = first_on_line(s, l, 0);
    if 0 <= i < s.len() {
        row_text(s[i], s[i].geo->0, show, cols)
    } else {
        seq![]
    }
}

/// One past the last line used (0 when nothing is placed).
pub open spec fn lines_used(s: Seq<IndividualV<SimpleGeoV>>) -> int
    decreases s.len(),
{
    if s.len() == 0 {
        0
    } else {
        let m = lines_used(s.drop_last());
        match s.last().geo {
            Some(g) => if g.line + 1 > m {
                g.line + 1
            } else {
                m
            },
            None => m,
        }
    }
}

/// Lines `0 .. n`, each followed by a line break.
pub open spec fn chart_lines(s: Seq<IndividualV<SimpleGeoV>>, n: int, show: ShowPrefs, cols: int) -> Seq<char>
    decreases n,
{
    if n <= 0 {
        seq![]
    } else {
        chart_lines(s, n - 1, show, cols) + line_text(s, n - 1, show, cols) + seq!['\n']
    }
}

/// The whole chart: every line from the first to the last one used.
pub open spec fn chart_text(s: Seq<IndividualV<SimpleGeoV>>, show: ShowPrefs, cols: int) -> Seq<char> {
    chart_lines(s, lines_used(s), show, cols)
}

fn push_str(s: &mut String, t: &str)
    ensures
        final(s)@ == old(s)@ + t@,
{
    append_chars(s, &chars_of(t));
}

fn name_ex(given: &Option<String>, surname: &Option<String>) -> (r: String)
    ensures
        r@ == name_label(opt_str(*given), opt_str(*surname)),
{
    let g: Vec<char> = match given {
        Some(g) => chars_of(g.as_str()),
        None => Vec::new(),
    };
    assert(g@ =~= or_empty(opt_str(*given)));
    let mut s = string_of(&g);
    match surname {
        Some(sn) => {
            if g.len() > 0 {
                append_char(&mut s, ' ');
            }
            push_str(&mut s, sn.as_str());
            assert(s@ =~= name_label(opt_str(*given), opt_str(*surname)));
        },
        None => {},
    }
    s
}

fn sex_ex(s: &mut String, show: bool, sex: Option<char>)
    ensures
        final(s)@ == (if show && sex is Some {
            old(s)@ + seq![' ', '(', sex->0, ')']
        } else {
            old(s)@
        }),
{
    if show {
        if let Some(c) = sex {
            append_char(s, ' ');
            append_char(s, '(');
            append_char(s, c);
            append_char(s, ')');
            assert(s@ =~= old(s)@ + seq![' ', '(', c, ')']);
        }
    }
}

fn id_ex(s: &mut String, show: bool, id: &String)
    ensures
        final(s)@ == (if show {
            old(s)@ + seq![' ', '['] + id@ + seq![']']
        } else {
            old(s)@
        }),
{
    if show {
        append_char(s, ' ');
        append_char(s, '[');
        push_str(s, id.as_str());
        append_char(s, ']');
        assert(s@ =~= old(s)@ + seq![' ', '['] + id@ + seq![']']);
    }
}

fn date_ex(s: &mut String, show: bool, mark: char, e: &Option<crate::genrep::Event>)
    ensures
        final(s)@ == (if show && event_date(crate::genrep::opt_event(*e)) is Some {
            old(s)@ + seq![' ', mark, ' '] + event_date(crate::genrep::opt_event(*e))->0
        } else {
            old(s)@
        }),
{
    if show {
        if let Some(ev) = e {
            if let Some(d) = &ev.date {
                append_char(s, ' ');
                append_char(s, mark);
                append_char(s, ' ');
                push_str(s, d.raw.as_str());
                assert(s@ =~= old(s)@ + seq![' ', mark, ' '] + d.raw@);
            }
        }
    }
}

fn label_ex(x: &crate::genrep::Individual<SimpleGeo>, show: &ShowPrefs) -> (r: String)
    ensures
        r@ == row_label(placed_ind(*x), *show),
{
    let mut s = name_ex(&x.given, &x.surname);
    sex_ex(&mut s, show.sex, x.sex);
    id_ex(&mut s, show.id, &x.id);
    date_ex(&mut s, show.birth, '*', &x.birth);
    date_ex(&mut s, show.death, '×', &x.death);
    s
}

/// An individual of the chart, with its placement by its view.
pub open spec fn placed_ind(x: crate::genrep::Individual<SimpleGeo>) -> IndividualV<SimpleGeoV> {
    crate::layout::common::with_geo_ind(x@, crate::layout::simple::geo_opt(x.geo))
}

fn row_ex(x: &crate::genrep::Individual<SimpleGeo>, g: &SimpleGeo, show: &ShowPrefs, cols: usize) -> (r: String)
    requires
        x.geo == Some(*g),
    ensures
        r@ == row_text(placed_ind(*x), g@, *show, cols as int),
{
    let mut s = String::new();
    let mut i: usize = 0;
    assert(s@ =~= Seq::new(0, |k: int| ' '));
    proof {
        assert(0 * cols == 0) by (nonlinear_arith);
    }
    while i < g.indent
        invariant
            i <= g.indent,
            s@ == Seq::new((i * cols) as nat, |k: int| ' '),
        decreases g.indent - i,
    {
        let mut j: usize = 0;
        let ghost base = s@;
        while j < cols
            invariant
                j <= cols,
                s@ == base + Seq::new(j as nat, |k: int| ' '),
            decreases cols - j,
        {
            append_char(&mut s, ' ');
            j = j + 1;
            assert(s@ =~= base + Seq::new(j as nat, |k: int| ' '));
        }
        proof {
            assert((i + 1) * cols == i * cols + cols) by (nonlinear_arith);
        }
        i = i + 1;
        assert(s@ =~= Seq::new((i * cols) as nat, |k: int| ' '));
    }
    let ghost pad = s@;
    if g.is_ellipsis {
        push_str(&mut s, "...");
        proof {
            reveal_strlit("...");
        }
        assert(s@ =~= pad + seq!['.', '.', '.']);
    } else if g.is_spouse {
        append_char(&mut s, '+');
        append_char(&mut s, ' ');
        let l = label_ex(x, show);
        push_str(&mut s, l.as_str());
        assert(s@ =~= pad + (seq!['+', ' '] + row_label(placed_ind(*x), *show)));
    } else if show.generation_num {
        let p = gen_prefix_str(g.generation);
        push_str(&mut s, p.as_str());
        let l = label_ex(x, show);
        push_str(&mut s, l.as_str());
        assert(s@ =~= pad + (spec_gen_prefix(g.generation as nat) + row_label(placed_ind(*x), *show)));
    } else {
        let l = label_ex(x, show);
        push_str(&mut s, l.as_str());
    }
    s
}

/// A placement, if any, is not on the last line number a `usize` can hold.
pub open spec fn line_fits(g: Option<SimpleGeo>) -> bool {
    match g {
        Some(x) => x.line < usize::MAX,
        None => true,
    }
}

/// The first individual placed on line `l` (or `inds.len()` when there is none).
fn first_placed_on(inds: &Vec<crate::genrep::Individual<SimpleGeo>>, l: usize) -> (k: usize)
    ensures
        k <= inds.len(),
        k < inds.len() ==> k == first_on_line(placed_inds(inds@), l as int, 0) && inds@[k as int].geo is Some,
        k == inds.len() ==> first_on_line(placed_inds(inds@), l as int, 0) == -1,
{
    let ghost s = placed_inds(inds@);
    let mut k: usize = 0;
    while k < inds.len()
        invariant
            k <= inds.len(),
            s == placed_inds(inds@),
            s.len() == inds.len(),
            first_on_line(s, l as int, 0) == first_on_line(s, l as int, k as int),
        decreases inds.len() - k,
    {
        assert(s[k as int] == placed_ind(inds@[k as int]));
        let hit = match &inds[k].geo {
            Some(g) => g.line == l,
            None => false,
        };
        if hit {
            return k;
        }
        k = k + 1;
    }
    k
}

/// The simple layout's chart as text: for each line from the first to the last one used,
/// the row of the first individual placed on it (or nothing), then a line break.
pub fn render_text(chart: &Genrep<SimpleGeo>, show: &ShowPrefs, indent_cols: usize) -> (r: String)
    requires
        forall|i: int|
            0 <= i < chart.individuals@.len() ==> line_fits((#[trigger] chart.individuals@[i]).geo),
    ensures
        r@ == chart_text(placed_inds(chart.individuals@), *show, indent_cols as int),
{
    let inds = &chart.individuals;
    let ghost s = placed_inds(inds@);
    let mut used: usize = 0;
    let mut i: usize = 0;
    while i < inds.len()
        invariant
            i <= inds.len(),
            inds == &chart.individuals,
            s == placed_inds(inds@),
            s.len() == inds.len(),
            forall|q: int|
                0 <= q < chart.individuals@.len() ==> line_fits((#[trigger] chart.individuals@[q]).geo),
            used as int == lines_used(s.take(i as int)),
        decreases inds.len() - i,
    {
        assert(s.take(i + 1).drop_last() =~= s.take(i as int));
        assert(s.take(i + 1).last() == s[i as int]);
        assert(s[i as int] == placed_ind(inds@[i as int]));
        if let Some(g) = &inds[i].geo {
            if g.line + 1 > used {
                used = g.line + 1;
            }
        }
        i = i + 1;
    }
    assert(s.take(inds.len() as int) =~= s);
    let mut out = String::new();
    assert(out@ =~= chart_lines(s, 0, *show, indent_cols as int));
    let mut l: usize = 0;
    while l < used
        invariant
            l <= used,
            used as int == lines_used(s),
            s == placed_inds(inds@),
            s.len() == inds.len(),
            out@ == chart_lines(s, l as int, *show, indent_cols as int),
        decreases used - l,
    {
        let ghost before = out@;
        let k = first_placed_on(inds, l);
        if k < inds.len() {
            let g = inds[k].geo.as_ref().unwrap();
            assert(s[k as int] == placed_ind(inds@[k as int]));
            let row = row_ex(&inds[k], g, show, indent_cols);
            push_str(&mut out, row.as_str());
        } else {
            assert(out@ =~= before + line_text(s, l as int, *show, indent_cols as int));
        }
        append_char(&mut out, '\n');
        l = l + 1;
        assert(out@ =~= chart_lines(s, l as int, *show, indent_cols as int));
    }
    out
}

} // verus!
