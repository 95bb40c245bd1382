//! The photo index: which picture file shows which individual.

use vstd::prelude::*;
use crate::parser::merge::{AliasMap, map_put};
use crate::genrep::{opt_str, str_eq, strs};
use crate::text::{
    ascii_lower_seq, ascii_lowercase_of, chars_eq, chars_of, lines, lines_of, split_once, split_once_of, string_of, tokens,
    tokens_of, trim, trim_of, vview,
};

verus! {

/// One line of an index file: `ID filename [anything...]`, `#` starting a comment.
pub open spec fn index_line(m: Seq<(Seq<char>, Seq<char>)>, l: Seq<char>) -> Seq<(Seq<char>, Seq<char>)> {
    let t = trim(split_once(l, '#').0);
    let toks = tokens(t, false);
    if t.len() == 0 || toks.len() < 2 {
        m
    } else {
        map_put(m, toks[0], toks[1])
    }
}

pub open spec fn index_lines(ls: Seq<Seq<char>>) -> Seq<(Seq<char>, Seq<char>)>
    decreases ls.len(),
{
    if ls.len() == 0 {
        seq![]
    } else {
        index_line(index_lines(ls.drop_last()), ls.last())
    }
}

/// The index file's map from ID to file name (a later line for an ID wins).
pub open spec fn spec_photo_index(content: Seq<char>) -> Seq<(Seq<char>, Seq<char>)> {
    index_lines(lines(content))
}

fn index_line_ex(map: &mut AliasMap, l: &Vec<char>)
    ensures
        final(map)@ == index_line(old(map)@, l@),
{
    let (body, _) = split_once_of(l, '#');
    let t = trim_of(&body);
    if t.len() == 0 {
        return;
    }
    let toks = tokens_of(&t, false);
    assert(vview(toks@).len() == toks.len());
    if toks.len() < 2 {
        return;
    }
    map.insert(string_of(&toks[0]), string_of(&toks[1]));
}

/// Parse the text of an index file: `ID filename [anything...]` per line; `#` starts a
/// comment; lines without two fields are skipped.
pub fn parse_index_content(content: &str) -> (r: AliasMap)
    ensures
        r@ == spec_photo_index(content@),
{
    let ls = lines_of(&chars_of(content));
    let ghost lv = vview(ls@);
    let mut map = AliasMap::new();
    let mut i: usize = 0;
    assert(lv.take(0) =~= seq![]);
    while i < ls.len()
        invariant
            i <= ls.len(),
            lv == vview(ls@),
            map@ == index_lines(lv.take(i as int)),
        decreases ls.len() - i,
    {
        assert(lv.take(i + 1).drop_last() =~= lv.take(i as int));
        assert(lv.take(i + 1).last() == ls@[i as int]@);
        index_line_ex(&mut map, &ls[i]);
        i = i + 1;
    }
    assert(lv.take(ls.len() as int) =~= lv);
    map
}

// ── photo files ─────────────────────────────────────────────────────────────

/// The position of the last `c` in `s`, or -1.
pub open spec fn last_index_of(s: Seq<char>, c: char) -> int
    decreases s.len(),
{
    if s.len() == 0 {
        -1
    } else if s.last() == c {
        s.len() - 1
    } else {
        last_index_of(s.drop_last(), c)
    }
}

/// The last piece that names something: empty and `.` pieces are skipped from the end.
pub open spec fn last_piece(parts: Seq<Seq<char>>) -> Option<Seq<char>>
    decreases parts.len(),
{
    if parts.len() == 0 {
        None
    } else if parts.last().len() == 0 || parts.last() == seq!['.'] {
        last_piece(parts.drop_last())
    } else {
        Some(parts.last())
    }
}

/// A path whose only separator, on every platform, is `/`: no `\`, no `:`, and not
/// starting with `//`.
pub open spec fn slash_path(p: Seq<char>) -> bool {
    &&& !p.contains('\\')
    &&& !p.contains(':')
    &&& !(p.len() >= 2 && p[0] == '/' && p[1] == '/')
}

/// The file name of such a path: its last component other than `.`; none for `..`,
/// nor when there is no component.
pub open spec fn slash_file_name(p: Seq<char>) -> Option<Seq<char>> {
    match last_piece(crate::text::split_on(p, '/')) {
        Some(n) => if n == seq!['.', '.'] {
            None
        } else {
            Some(n)
        },
        None => None,
    }
}

/// The extension of such a path: that of its file name.
pub open spec fn path_extension(p: Seq<char>) -> Option<Seq<char>> {
    match slash_file_name(p) {
        Some(n) => name_extension(n),
        None => None,
    }
}

/// The extension of a file name: the part after its last `.`, unless there is no `.`
/// or the only one starts the name.
pub open spec fn name_extension(n: Seq<char>) -> Option<Seq<char>> {
    let i = last_index_of(n, '.');
    if i > 0 {
        Some(n.skip(i + 1))
    } else {
        None
    }
}

/// `Path::new(path).extension()`, as text: the part of the file name after its last
/// `.`, so a piece of `path` that follows a `.`. Where `/` is the only separator the
/// path can hold on any platform, it is the extension of the last component other
/// than `.` (none for `..`).
///
/// A path with `\` or `:` splits into components differently on different platforms,
/// so which piece it is there (and whether there is one) is not stated.
#[verifier::external_body]
pub(crate) fn extension_of(path: &str) -> (r: Option<String>)
    ensures
        r matches Some(e) ==> exists|i: int|
            0 <= i && i + 1 + e@.len() <= path@.len() && #[trigger] path@[i] == '.' && path@.subrange(
                i + 1,
                i + 1 + e@.len(),
            ) == e@,
        slash_path(path@) ==> opt_str(r) == path_extension(path@),
{
    std::path::Path::new(path).extension().map(|e| e.to_string_lossy().into_owned())
}

/// An extension names a PNG file: it is `png` in any ASCII case.
pub fn is_png_extension(ext: Option<&str>) -> (r: bool)
    ensures
        r == (ext matches Some(e) && ascii_lower_seq(e@) == seq!['p', 'n', 'g']),
{
    match ext {
        Some(e) => {
            let l = ascii_lowercase_of(&chars_of(e));
            chars_eq(&l, &['p', 'n', 'g'])
        },
        None => false,
    }
}

/// The file at `path` is a PNG file by its extension (`png` in any ASCII case).
pub fn is_png_path(path: &str) -> (r: bool)
    ensures
        slash_path(path@) ==> r == (path_extension(path@) matches Some(e) && ascii_lower_seq(e)
            == seq!['p', 'n', 'g']),
        r ==> exists|i: int|
            0 <= i && i + 4 <= path@.len() && #[trigger] path@[i] == '.' && ascii_lower_seq(
                path@.subrange(i + 1, i + 4),
            ) == seq!['p', 'n', 'g'],
{
    match extension_of(path) {
        Some(e) => {
            let r = is_png_extension(Some(e.as_str()));
            proof {
                if r {
                    assert(ascii_lower_seq(e@).len() == e@.len());
                    let i = choose|i: int|
                        0 <= i && i + 1 + e@.len() <= path@.len() && #[trigger] path@[i] == '.'
                            && path@.subrange(i + 1, i + 1 + e@.len()) == e@;
                    assert(path@[i] == '.');
                }
            }
            r
        },
        None => is_png_extension(None),
    }
}

/// The number of leading components that `t` and `b` share.
pub open spec fn common_prefix(t: Seq<Seq<char>>, b: Seq<Seq<char>>) -> nat
    decreases t.len(),
{
    if t.len() == 0 || b.len() == 0 || t[0] != b[0] {
        0
    } else {
        1 + common_prefix(t.drop_first(), b.drop_first())
    }
}

/// The relative path from the directory `base` to `target`, both given by their
/// components: one `..` per component of `base` past the common part, then the rest of
/// `target`.
pub open spec fn relative_path(t: Seq<Seq<char>>, b: Seq<Seq<char>>) -> Seq<Seq<char>> {
    let c = common_prefix(t, b) as int;
    Seq::new((b.len() - c) as nat, |i: int| seq!['.', '.']) + t.skip(c)
}

proof fn lemma_common_prefix(t: Seq<Seq<char>>, b: Seq<Seq<char>>, i: int)
    requires
        0 <= i <= t.len(),
        i <= b.len(),
        forall|j: int| 0 <= j < i ==> t[j] == b[j],
    ensures
        common_prefix(t, b) == i + common_prefix(t.skip(i), b.skip(i)),
    decreases i,
{
    if i > 0 {
        assert(t[0] == b[0]);
        let t1 = t.drop_first();
        let b1 = b.drop_first();
        assert forall|j: int| 0 <= j < i - 1 implies t1[j] == b1[j] by {
            assert(t[j + 1] == b[j + 1]);
        }
        lemma_common_prefix(t1, b1, i - 1);
        assert(t1.skip(i - 1) =~= t.skip(i));
        assert(b1.skip(i - 1) =~= b.skip(i));
    } else {
        assert(t.skip(0) =~= t);
        assert(b.skip(0) =~= b);
    }
}

/// The components of the relative path from the directory with components `base` to
/// the file with components `target` (both absolute and canonical).
pub fn relative_components(target: &Vec<String>, base: &Vec<String>) -> (r: Vec<String>)
    ensures
        strs(r@) == relative_path(strs(target@), strs(base@)),
{
    let ghost t = strs(target@);
    let ghost b = strs(base@);
    let mut c: usize = 0;
    while c < target.len() && c < base.len() && str_eq(target[c].as_str(), base[c].as_str())
        invariant
            c <= target.len(),
            c <= base.len(),
            t == strs(target@),
            b == strs(base@),
            forall|j: int| 0 <= j < c ==> t[j] == b[j],
        decreases target.len() - c,
    {
        c = c + 1;
    }
    proof {
        lemma_common_prefix(t, b, c as int);
        if c < target.len() && c < base.len() {
            assert(t.skip(c as int)[0] == t[c as int]);
            assert(b.skip(c as int)[0] == b[c as int]);
        }
        assert(common_prefix(t.skip(c as int), b.skip(c as int)) == 0);
    }
    let mut r: Vec<String> = Vec::new();
    let mut i: usize = c;
    while i < base.len()
        invariant
            c <= i <= base.len(),
            strs(r@) == Seq::new((i - c) as nat, |k: int| seq!['.', '.']),
        decreases base.len() - i,
    {
        let ghost before = strs(r@);
        let dd = string_of(&vec!['.', '.']);
        assert(dd@ =~= seq!['.', '.']);
        r.push(dd);
        assert(strs(r@) =~= before.push(seq!['.', '.']));
        i = i + 1;
        assert(strs(r@) =~= Seq::new((i - c) as nat, |k: int| seq!['.', '.']));
    }
    let ghost dots = strs(r@);
    let mut j: usize = c;
    while j < target.len()
        invariant
            c <= j <= target.len(),
            t == strs(target@),
            strs(r@) == dots + t.subrange(c as int, j as int),
        decreases target.len() - j,
    {
        let ghost before = strs(r@);
        r.push(target[j].clone());
        assert(strs(r@) =~= before.push(t[j as int]));
        j = j + 1;
        assert(strs(r@) =~= dots + t.subrange(c as int, j as int));
    }
    assert(t.subrange(c as int, target.len() as int) =~= t.skip(c as int));
    r
}

} // verus!
