//! Readable dumps of the resolved preferences: color fields written in hexadecimal.

use vstd::prelude::*;
use crate::text::{
    chars_of, hex_i64, hex_i64_of, lines, lines_of, parse_i64, slice_of, spec_parse_i64, string_of,
    trim_start, trim_start_of, vview,
};

verus! {

/// The number of preference keys that hold colors.
pub open spec fn n_color_fields() -> int {
    8
}

/// The preference keys that hold colors, in the order they are tried.
pub open spec fn color_field(k: int) -> Seq<char> {
    if k == 0 {
        seq!['a', 'l', 'i', 'g', 'n', 'm', 'e', 'n', 't', '_', 'l', 'i', 'n', 'e', 's', '_', 'c', 'o', 'l', 'o', 'r']
    } else if k == 1 {
        seq!['b', 'a', 'c', 'k', 'g', 'r', 'o', 'u', 'n', 'd', '_', 'c', 'o', 'l', 'o', 'r']
    } else if k == 2 {
        seq!['b', 'a', 'c', 'k', 'g', 'r', 'o', 'u', 'n', 'd']
    } else if k == 3 {
        seq!['b', 'o', 'r', 'd', 'e', 'r']
    } else if k == 4 {
        seq!['c', 'o', 'l', 'o', 'r']
    } else if k == 5 {
        seq!['d', 'a', 't', 'e', 's']
    } else if k == 6 {
        seq!['i', 'd']
    } else {
        seq!['n', 'a', 'm', 'e', 's']
    }
}

/// `key = `, the start of a TOML assignment to `key`.
pub open spec fn assign_prefix(k: int) -> Seq<char> {
    color_field(k) + seq![' ', '=', ' ']
}

/// The first color field (from position `k` on) whose assignment starts `t` with an
/// integer value, with that value.
pub open spec fn color_match(t: Seq<char>, k: int) -> Option<(int, i64)>
    decreases n_color_fields() - k,
{
    if k < 0 || k >= n_color_fields() {
        None
    } else {
        let p = assign_prefix(k);
        if p.len() <= t.len() && t.take(p.len() as int) == p && spec_parse_i64(t.skip(p.len() as int)) is Some {
            Some((k, spec_parse_i64(t.skip(p.len() as int))->0))
        } else {
            color_match(t, k + 1)
        }
    }
}

/// One dumped line: a color assignment rewritten with a `0x` value, keeping its indent.
pub open spec fn hexify_line(line: Seq<char>) -> Seq<char> {
    let t = trim_start(line);
    match color_match(t, 0) {
        Some((k, n)) => line.take(line.len() - t.len()) + color_field(k) + seq![' ', '=', ' ', '0', 'x']
            + hex_i64(n) + seq!['\n'],
        None => line + seq!['\n'],
    }
}

pub open spec fn hexify_lines(ls: Seq<Seq<char>>) -> Seq<char>
    decreases ls.len(),
{
    if ls.len() == 0 {
        seq![]
    } else {
        hexify_lines(ls.drop_last()) + hexify_line(ls.last())
    }
}

pub open spec fn spec_hexify(toml: Seq<char>) -> Seq<char> {
    hexify_lines(lines(toml))
}

fn color_field_of(k: usize) -> (r: Vec<char>)
    requires
        k < 8,
    ensures
        r@ == color_field(k as int),
{
    let f: &[char] = if k == 0 {
        &['a', 'l', 'i', 'g', 'n', 'm', 'e', 'n', 't', '_', 'l', 'i', 'n', 'e', 's', '_', 'c', 'o', 'l', 'o', 'r']
    } else if k == 1 {
        &['b', 'a', 'c', 'k', 'g', 'r', 'o', 'u', 'n', 'd', '_', 'c', 'o', 'l', 'o', 'r']
    } else if k == 2 {
        &['b', 'a', 'c', 'k', 'g', 'r', 'o', 'u', 'n', 'd']
    } else if k == 3 {
        &['b', 'o', 'r', 'd', 'e', 'r']
    } else if k == 4 {
        &['c', 'o', 'l', 'o', 'r']
    } else if k == 5 {
        &['d', 'a', 't', 'e', 's']
    } else if k == 6 {
        &['i', 'd']
    } else {
        &['n', 'a', 'm', 'e', 's']
    };
    let mut v: Vec<char> = Vec::new();
    let mut i: usize = 0;
    while i < f.len()
        invariant
            i <= f.len(),
            v@ == f@.take(i as int),
        decreases f.len() - i,
    {
        v.push(f[i]);
        i = i + 1;
        assert(v@ =~= f@.take(i as int));
    }
    assert(f@.take(f.len() as int) =~= f@);
    assert(v@ =~= color_field(k as int));
    v
}

fn starts_with(t: &Vec<char>, p: &Vec<char>) -> (r: bool)
    ensures
        r == (p@.len() <= t@.len() && t@.take(p@.len() as int) == p@),
{
    if p.len() > t.len() {
        return false;
    }
    let mut i: usize = 0;
    while i < p.len()
        invariant
            p.len() <= t.len(),
            i <= p.len(),
            forall|k: int| 0 <= k < i ==> t@[k] == p@[k],
        decreases p.len() - i,
    {
        if t[i] != p[i] {
            assert(t@.take(p@.len() as int)[i as int] != p@[i as int]);
            return false;
        }
        i = i + 1;
    }
    assert(t@.take(p@.len() as int) =~= p@);
    true
}

fn append(v: &mut Vec<char>, w: &Vec<char>)
    ensures
        final(v)@ == old(v)@ + w@,
{
    let mut i: usize = 0;
    while i < w.len()
        invariant
            i <= w.len(),
            v@ == old(v)@ + w@.take(i as int),
        decreases w.len() - i,
    {
        v.push(w[i]);
        i = i + 1;
        assert(v@ =~= old(v)@ + w@.take(i as int));
    }
    assert(w@.take(w.len() as int) =~= w@);
}

fn hexify_line_ex(out: &mut Vec<char>, line: &Vec<char>)
    ensures
        final(out)@ == old(out)@ + hexify_line(line@),
{
    let t = trim_start_of(line);
    let mut k: usize = 0;
    while k < 8
        invariant
            k <= 8,
            t@ == trim_start(line@),
            color_match(t@, 0) == color_match(t@, k as int),
            out@ == old(out)@,
        decreases 8 - k,
    {
        let field = color_field_of(k);
        let mut prefix = field.clone();
        assert(prefix@ == field@);
        prefix.push(' ');
        prefix.push('=');
        prefix.push(' ');
        assert(prefix@ =~= assign_prefix(k as int));
        if starts_with(&t, &prefix) {
            let rest = slice_of(&t, prefix.len(), t.len());
            assert(rest@ =~= t@.skip(prefix@.len() as int));
            match parse_i64(&rest) {
                Some(n) => {
                    proof {
                        crate::text::lemma_trim_start_suffix(line@);
                    }
                    let indent = slice_of(line, 0, line.len() - t.len());
                    append(out, &indent);
                    append(out, &field);
                    let mut mid: Vec<char> = Vec::new();
                    mid.push(' ');
                    mid.push('=');
                    mid.push(' ');
                    mid.push('0');
                    mid.push('x');
                    append(out, &mid);
                    let h = hex_i64_of(n);
                    append(out, &h);
                    out.push('\n');
                    assert(out@ =~= old(out)@ + hexify_line(line@));
                    return;
                },
                None => {},
            }
        }
        k = k + 1;
    }
    append(out, line);
    out.push('\n');
    assert(out@ =~= old(out)@ + hexify_line(line@));
}

/// Re-format known color fields in a serialized TOML string from decimal to hex literals.
pub fn hexify_color_fields(toml: &str) -> (r: String)
    ensures
        r@ == spec_hexify(toml@),
{
    let ls = lines_of(&chars_of(toml));
    let ghost lv = vview(ls@);
    let mut out: Vec<char> = Vec::new();
    let mut i: usize = 0;
    assert(lv.take(0) =~= seq![]);
    while i < ls.len()
        invariant
            i <= ls.len(),
            lv == vview(ls@),
            out@ == hexify_lines(lv.take(i as int)),
        decreases ls.len() - i,
    {
        assert(lv.take(i + 1).drop_last() =~= lv.take(i as int));
        assert(lv.take(i + 1).last() == ls@[i as int]@);
        hexify_line_ex(&mut out, &ls[i]);
        i = i + 1;
    }
    assert(lv.take(ls.len() as int) =~= lv);
    string_of(&out)
}

} // verus!
