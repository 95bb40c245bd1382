//! Character-level text utilities: whitespace, trimming, splitting, number parsing.
//!
//! All text is handled as sequences of Unicode scalar values (`char`).

use vstd::prelude::*;

verus! {

// ── whitespace ───────────────────────────────────────────────────────────────

/// Unicode `White_Space` property (the definition used by `char::is_whitespace`).
pub open spec fn is_ws(c: char) -> bool {
    let u = c as u32;
    u == 9 || u == 10 || u == 11 || u == 12 || u == 13 || u == 32 || u == 0x85 || u == 0xA0
        || u == 0x1680 || (0x2000 <= u && u <= 0x200A) || u == 0x2028 || u == 0x2029
        || u == 0x202F || u == 0x205F || u == 0x3000
}

/// ASCII whitespace as used by `split_ascii_whitespace`: space, tab, LF, FF, CR.
pub open spec fn is_ascii_ws(c: char) -> bool {
    c == ' ' || c == '\t' || c == '\n' || c == '\x0C' || c == '\r'
}

/// Separator predicate: Unicode whitespace, or ASCII whitespace when `ascii` holds.
pub open spec fn is_sep(c: char, ascii: bool) -> bool {
    if ascii { is_ascii_ws(c) } else { is_ws(c) }
}

pub fn is_whitespace(c: char) -> (r: bool)
    ensures
        r == is_ws(c),
{
    let u = c as u32;
    u == 9 || u == 10 || u == 11 || u == 12 || u == 13 || u == 32 || u == 0x85 || u == 0xA0
        || u == 0x1680 || (0x2000 <= u && u <= 0x200A) || u == 0x2028 || u == 0x2029
        || u == 0x202F || u == 0x205F || u == 0x3000
}

fn is_separator(c: char, ascii: bool) -> (r: bool)
    ensures
        r == is_sep(c, ascii),
{
    if ascii {
        c == ' ' || c == '\t' || c == '\n' || c == '\x0C' || c == '\r'
    } else {
        is_whitespace(c)
    }
}

// ── conversions between &str, Vec<char> and String ───────────────────────────

/// The characters of a string slice.
pub fn chars_of(s: &str) -> (v: Vec<char>)
    ensures
        v@ == s@,
{
    let mut v: Vec<char> = Vec::new();
    for c in it: s.chars()
        invariant
            v@ == it.seq().take(it.index() as int),
            it.seq() == s@,
    {
        v.push(c);
    }
    v
}

/// `String::push`: appends one character.
#[verifier::external_body]
fn push_char(s: &mut String, c: char)
    ensures
        final(s)@ == old(s)@.push(c),
{
    s.push(c);
}

/// Append the characters of `v` to `s`.
pub fn append_chars(s: &mut String, v: &Vec<char>)
    ensures
        final(s)@ == old(s)@ + v@,
{
    let mut i: usize = 0;
    while i < v.len()
        invariant
            i <= v.len(),
            s@ == old(s)@ + v@.take(i as int),
        decreases v.len() - i,
    {
        push_char(s, v[i]);
        i = i + 1;
        assert(s@ =~= old(s)@ + v@.take(i as int));
    }
    assert(v@.take(v.len() as int) =~= v@);
}

/// Append one character to `s`.
pub fn append_char(s: &mut String, c: char)
    ensures
        final(s)@ == old(s)@.push(c),
{
    push_char(s, c);
}

/// Build a `String` holding exactly the characters of `v`.
pub fn string_of(v: &Vec<char>) -> (s: String)
    ensures
        s@ == v@,
{
    let mut s = String::new();
    let mut i: usize = 0;
    while i < v.len()
        invariant
            i <= v.len(),
            s@ == v@.take(i as int),
        decreases v.len() - i,
    {
        push_char(&mut s, v[i]);
        i = i + 1;
        assert(s@ =~= v@.take(i as int));
    }
    assert(v@.take(v.len() as int) =~= v@);
    s
}

/// Copy of `s[lo..hi]`.
pub fn slice_of(s: &Vec<char>, lo: usize, hi: usize) -> (r: Vec<char>)
    requires
        lo <= hi <= s.len(),
    ensures
        r@ == s@.subrange(lo as int, hi as int),
{
    let mut r: Vec<char> = Vec::new();
    let mut i = lo;
    while i < hi
        invariant
            lo <= i <= hi <= s.len(),
            r@ == s@.subrange(lo as int, i as int),
        decreases hi - i,
    {
        r.push(s[i]);
        i = i + 1;
        assert(r@ =~= s@.subrange(lo as int, i as int));
    }
    r
}

/// Equality of a character sequence with a literal word.
pub fn chars_eq(a: &Vec<char>, b: &[char]) -> (r: bool)
    ensures
        r == (a@ == b@),
{
    if a.len() != b.len() {
        return false;
    }
    let mut i: usize = 0;
    while i < a.len()
        invariant
            a.len() == b@.len(),
            i <= a.len(),
            forall|k: int| 0 <= k < i ==> a@[k] == b@[k],
        decreases a.len() - i,
    {
        if a[i] != b[i] {
            return false;
        }
        i = i + 1;
    }
    assert(a@ =~= b@);
    true
}

/// Equality of two character vectors.
pub fn vec_eq(a: &Vec<char>, b: &Vec<char>) -> (r: bool)
    ensures
        r == (a@ == b@),
{
    chars_eq(a, b.as_slice())
}


// ── trimming ─────────────────────────────────────────────────────────────────

pub open spec fn trim_end(s: Seq<char>) -> Seq<char>
    decreases s.len(),
{
    if s.len() > 0 && is_ws(s.last()) {
        trim_end(s.drop_last())
    } else {
        s
    }
}

pub open spec fn trim_start(s: Seq<char>) -> Seq<char>
    decreases s.len(),
{
    if s.len() > 0 && is_ws(s[0]) {
        trim_start(s.drop_first())
    } else {
        s
    }
}

/// Whitespace removed from both ends (`str::trim`).
pub open spec fn trim(s: Seq<char>) -> Seq<char> {
    trim_start(trim_end(s))
}

pub fn trim_end_of(s: &Vec<char>) -> (r: Vec<char>)
    ensures
        r@ == trim_end(s@),
{
    let mut hi = s.len();
    assert(s@.subrange(0, hi as int) =~= s@);
    while hi > 0 && is_whitespace(s[hi - 1])
        invariant
            hi <= s.len(),
            trim_end(s@.subrange(0, hi as int)) == trim_end(s@),
        decreases hi,
    {
        assert(s@.subrange(0, hi as int).drop_last() =~= s@.subrange(0, hi - 1));
        hi = hi - 1;
    }
    slice_of(s, 0, hi)
}

pub fn trim_start_of(s: &Vec<char>) -> (r: Vec<char>)
    ensures
        r@ == trim_start(s@),
{
    let mut lo: usize = 0;
    assert(s@.subrange(0, s.len() as int) =~= s@);
    while lo < s.len() && is_whitespace(s[lo])
        invariant
            lo <= s.len(),
            trim_start(s@.subrange(lo as int, s.len() as int)) == trim_start(s@),
        decreases s.len() - lo,
    {
        assert(s@.subrange(lo as int, s.len() as int).drop_first() =~= s@.subrange(
            lo + 1,
            s.len() as int,
        ));
        lo = lo + 1;
    }
    slice_of(s, lo, s.len())
}

pub fn trim_of(s: &Vec<char>) -> (r: Vec<char>)
    ensures
        r@ == trim(s@),
{
    let e = trim_end_of(s);
    trim_start_of(&e)
}

// ── searching ────────────────────────────────────────────────────────────────

pub open spec fn has_char(s: Seq<char>, c: char) -> bool {
    exists|i: int| 0 <= i < s.len() && s[i] == c
}

/// Index of the first occurrence of `c` in `s`, or -1.
pub open spec fn find_first(s: Seq<char>, c: char) -> int {
    if has_char(s, c) {
        choose|i: int| 0 <= i < s.len() && s[i] == c && forall|k: int| 0 <= k < i ==> s[k] != c
    } else {
        -1
    }
}

pub proof fn lemma_find_first(s: Seq<char>, c: char, i: int)
    requires
        0 <= i < s.len(),
        s[i] == c,
        forall|k: int| 0 <= k < i ==> s[k] != c,
    ensures
        find_first(s, c) == i,
{
    assert(has_char(s, c));
    let j = find_first(s, c);
    assert(0 <= j < s.len() && s[j] == c && forall|k: int| 0 <= k < j ==> s[k] != c);
    if j < i {
        assert(s[j] != c);
    }
    if i < j {
        assert(s[i] != c);
    }
}

pub proof fn lemma_find_first_none(s: Seq<char>, c: char)
    requires
        forall|k: int| 0 <= k < s.len() ==> s[k] != c,
    ensures
        find_first(s, c) == -1,
{
}

/// Position of the first `c` at or after `from` (`str::find` on a suffix).
pub fn find_char(s: &Vec<char>, c: char, from: usize) -> (r: Option<usize>)
    requires
        from <= s.len(),
    ensures
        match r {
            Some(i) => from <= i < s.len() && find_first(s@.subrange(from as int, s.len() as int), c)
                == i - from,
            None => find_first(s@.subrange(from as int, s.len() as int), c) == -1,
        },
{
    let ghost t = s@.subrange(from as int, s.len() as int);
    let mut i = from;
    while i < s.len()
        invariant
            from <= i <= s.len(),
            t == s@.subrange(from as int, s.len() as int),
            forall|k: int| 0 <= k < i - from ==> t[k] != c,
        decreases s.len() - i,
    {
        if s[i] == c {
            proof {
                lemma_find_first(t, c, i - from);
            }
            return Some(i);
        }
        i = i + 1;
    }
    proof {
        lemma_find_first_none(t, c);
    }
    None
}

/// `splitn(2, c)`: the part before the first `c`, and the part after it (if any).
pub open spec fn split_once(s: Seq<char>, c: char) -> (Seq<char>, Option<Seq<char>>) {
    let i = find_first(s, c);
    if i < 0 {
        (s, None)
    } else {
        (s.subrange(0, i), Some(s.subrange(i + 1, s.len() as int)))
    }
}

#[verifier::spinoff_prover]
pub fn split_once_of(s: &Vec<char>, c: char) -> (r: (Vec<char>, Option<Vec<char>>))
    ensures
        r.0@ == split_once(s@, c).0,
        match r.1 {
            Some(v) => split_once(s@, c).1 == Some(v@),
            None => split_once(s@, c).1 is None,
        },
{
    assert(s@.subrange(0, s.len() as int) =~= s@);
    let f = find_char(s, c, 0);
    match f {
        Some(i) => {
            assert(find_first(s@, c) == i);
            let a = slice_of(s, 0, i);
            let b = slice_of(s, i + 1, s.len());
            (a, Some(b))
        },
        None => {
            assert(find_first(s@, c) == -1);
            let a = slice_of(s, 0, s.len());
            (a, None)
        },
    }
}

// ── splitting into pieces ────────────────────────────────────────────────────

/// The character sequences held by a vector of character vectors.
pub open spec fn vview(v: Seq<Vec<char>>) -> Seq<Seq<char>> {
    v.map_values(|x: Vec<char>| x@)
}

/// Pieces of `s` separated by `sep` (empty pieces kept): `str::split`.
pub open spec fn split_state(s: Seq<char>, sep: char) -> (Seq<Seq<char>>, Seq<char>)
    decreases s.len(),
{
    if s.len() == 0 {
        (seq![], seq![])
    } else {
        let st = split_state(s.drop_last(), sep);
        if s.last() == sep {
            (st.0.push(st.1), seq![])
        } else {
            (st.0, st.1.push(s.last()))
        }
    }
}

pub open spec fn split_on(s: Seq<char>, sep: char) -> Seq<Seq<char>> {
    let st = split_state(s, sep);
    st.0.push(st.1)
}

pub fn split_on_of(s: &Vec<char>, sep: char) -> (r: Vec<Vec<char>>)
    ensures
        vview(r@) == split_on(s@, sep),
{
    let mut acc: Vec<Vec<char>> = Vec::new();
    let mut cur: Vec<char> = Vec::new();
    let mut i: usize = 0;
    while i < s.len()
        invariant
            i <= s.len(),
            (vview(acc@), cur@) == split_state(s@.take(i as int), sep),
        decreases s.len() - i,
    {
        let c = s[i];
        assert(s@.take(i + 1).drop_last() =~= s@.take(i as int));
        if c == sep {
            let done = cur;
            acc.push(done);
            cur = Vec::new();
            assert(vview(acc@) =~= split_state(s@.take(i + 1), sep).0);
        } else {
            cur.push(c);
        }
        i = i + 1;
        assert(cur@ =~= split_state(s@.take(i as int), sep).1);
    }
    assert(s@.take(s.len() as int) =~= s@);
    let ghost before = vview(acc@);
    acc.push(cur);
    assert(vview(acc@) =~= split_on(s@, sep));
    acc
}

/// Whitespace-separated tokens (`split_whitespace`, or `split_ascii_whitespace` when `ascii`).
pub open spec fn tok_state(s: Seq<char>, ascii: bool) -> (Seq<Seq<char>>, Seq<char>)
    decreases s.len(),
{
    if s.len() == 0 {
        (seq![], seq![])
    } else {
        let st = tok_state(s.drop_last(), ascii);
        if is_sep(s.last(), ascii) {
            if st.1.len() > 0 {
                (st.0.push(st.1), seq![])
            } else {
                st
            }
        } else {
            (st.0, st.1.push(s.last()))
        }
    }
}

pub open spec fn tokens(s: Seq<char>, ascii: bool) -> Seq<Seq<char>> {
    let st = tok_state(s, ascii);
    if st.1.len() > 0 {
        st.0.push(st.1)
    } else {
        st.0
    }
}

pub fn tokens_of(s: &Vec<char>, ascii: bool) -> (r: Vec<Vec<char>>)
    ensures
        vview(r@) == tokens(s@, ascii),
{
    let mut acc: Vec<Vec<char>> = Vec::new();
    let mut cur: Vec<char> = Vec::new();
    let mut i: usize = 0;
    while i < s.len()
        invariant
            i <= s.len(),
            (vview(acc@), cur@) == tok_state(s@.take(i as int), ascii),
        decreases s.len() - i,
    {
        let c = s[i];
        assert(s@.take(i + 1).drop_last() =~= s@.take(i as int));
        if is_separator(c, ascii) {
            if cur.len() > 0 {
                let done = cur;
                acc.push(done);
                cur = Vec::new();
                assert(vview(acc@) =~= tok_state(s@.take(i + 1), ascii).0);
            }
        } else {
            cur.push(c);
        }
        i = i + 1;
        assert(cur@ =~= tok_state(s@.take(i as int), ascii).1);
        assert(vview(acc@) =~= tok_state(s@.take(i as int), ascii).0);
    }
    assert(s@.take(s.len() as int) =~= s@);
    if cur.len() > 0 {
        acc.push(cur);
    }
    assert(vview(acc@) =~= tokens(s@, ascii));
    acc
}

// ── unsigned integer parsing (`u32::from_str`) ───────────────────────────────

pub open spec fn is_digit(c: char) -> bool {
    '0' <= c && c <= '9'
}

pub open spec fn all_digits(d: Seq<char>) -> bool {
    forall|i: int| 0 <= i < d.len() ==> is_digit(#[trigger] d[i])
}

pub open spec fn digits_value(s: Seq<char>) -> int
    decreases s.len(),
{
    if s.len() == 0 {
        0
    } else {
        digits_value(s.drop_last()) * 10 + (s.last() as int - '0' as int)
    }
}

/// `u32::from_str`: an optional `+`, then one or more ASCII digits, with a value that fits.
pub open spec fn spec_parse_u32(s: Seq<char>) -> Option<u32> {
    let d = if s.len() > 0 && s[0] == '+' { s.drop_first() } else { s };
    if d.len() > 0 && all_digits(d) && digits_value(d) <= u32::MAX {
        Some(digits_value(d) as u32)
    } else {
        None
    }
}

proof fn lemma_digits_value_nonneg(s: Seq<char>)
    requires
        forall|i: int| 0 <= i < s.len() ==> is_digit(s[i]),
    ensures
        digits_value(s) >= 0,
    decreases s.len(),
{
    if s.len() > 0 {
        lemma_digits_value_nonneg(s.drop_last());
    }
}

proof fn lemma_digits_value_mono(s: Seq<char>, k: int)
    requires
        0 <= k <= s.len(),
        forall|i: int| 0 <= i < s.len() ==> is_digit(s[i]),
    ensures
        digits_value(s.take(k)) <= digits_value(s),
    decreases s.len() - k,
{
    if k < s.len() {
        lemma_digits_value_mono(s, k + 1);
        assert(s.take(k + 1).drop_last() =~= s.take(k));
        assert(s.take(k + 1).last() == s[k]);
        assert(is_digit(s[k]));
        lemma_digits_value_nonneg(s.take(k));
    } else {
        assert(s.take(k) =~= s);
    }
}

pub fn parse_u32(s: &Vec<char>) -> (r: Option<u32>)
    ensures
        r == spec_parse_u32(s@),
{
    let start: usize = if s.len() > 0 && s[0] == '+' { 1 } else { 0 };
    let ghost d = if s@.len() > 0 && s@[0] == '+' { s@.drop_first() } else { s@ };
    assert(d =~= s@.subrange(start as int, s.len() as int));
    if start >= s.len() {
        return None;
    }
    let mut acc: u64 = 0;
    let mut i = start;
    while i < s.len()
        invariant
            start <= i <= s.len(),
            d == s@.subrange(start as int, s.len() as int),
            d == (if s@.len() > 0 && s@[0] == '+' { s@.drop_first() } else { s@ }),
            forall|k: int| 0 <= k < i - start ==> is_digit(d[k]),
            acc == digits_value(d.take(i - start)),
            acc <= u32::MAX,
        decreases s.len() - i,
    {
        let c = s[i];
        assert(d[i - start] == c);
        if !('0' <= c && c <= '9') {
            assert(!is_digit(d[i - start]));
            assert(!(forall|k: int| 0 <= k < d.len() ==> is_digit(d[k])));
            assert(!all_digits(d));
            return None;
        }
        let dv = (c as u32 - '0' as u32) as u64;
        assert(d.take(i - start + 1).drop_last() =~= d.take(i - start));
        let next = acc * 10 + dv;
        assert(d.take(i - start + 1).last() == c);
        assert(digits_value(d.take(i - start + 1)) == next);
        if next > u32::MAX as u64 {
            proof {
                if all_digits(d) {
                    lemma_digits_value_mono(d, i - start + 1);
                    assert(digits_value(d) > u32::MAX);
                }
            }
            return None;
        }
        acc = next;
        i = i + 1;
    }
    assert(d.take(i - start) =~= d);
    Some(acc as u32)
}

/// ASCII lower-casing of a single character (`char::to_ascii_lowercase`).
pub open spec fn ascii_lower(c: char) -> char {
    if 'A' <= c && c <= 'Z' {
        ((c as u32) + 32) as char
    } else {
        c
    }
}

pub open spec fn ascii_lower_seq(s: Seq<char>) -> Seq<char> {
    s.map_values(|c: char| ascii_lower(c))
}

/// `str::to_ascii_lowercase`.
pub fn ascii_lowercase_of(s: &Vec<char>) -> (r: Vec<char>)
    ensures
        r@ == ascii_lower_seq(s@),
{
    let mut r: Vec<char> = Vec::new();
    let mut i: usize = 0;
    while i < s.len()
        invariant
            i <= s.len(),
            r@ == ascii_lower_seq(s@.take(i as int)),
        decreases s.len() - i,
    {
        let c = s[i];
        let l = if 'A' <= c && c <= 'Z' {
            let u = c as u32 + 32;
            assert(u == (c as u32) + 32);
            char_from_ascii(u)
        } else {
            c
        };
        r.push(l);
        i = i + 1;
        assert(r@ =~= ascii_lower_seq(s@.take(i as int)));
    }
    assert(s@.take(s.len() as int) =~= s@);
    r
}

/// A lower-case ASCII letter from its code (97..=122).
fn char_from_ascii(u: u32) -> (c: char)
    requires
        97 <= u <= 122,
    ensures
        c == u as char,
        c as u32 == u,
{
    let b = u as u8;
    b as char
}

// ── decimal formatting ───────────────────────────────────────────────────────

/// The ASCII digit for `d` (0 to 9).
pub open spec fn digit_char(d: nat) -> char {
    ((d + 48) as u32) as char
}

/// The decimal representation of `n`, without leading zeros (`0` is `"0"`).
pub open spec fn decimal(n: nat) -> Seq<char>
    decreases n,
{
    if n < 10 {
        seq![digit_char(n)]
    } else {
        decimal(n / 10).push(digit_char(n % 10))
    }
}

fn digit_of(d: usize) -> (c: char)
    requires
        d < 10,
    ensures
        c == digit_char(d as nat),
{
    let b: u8 = (48 + d) as u8;
    let c = b as char;
    assert(c as u32 == (d + 48) as u32);
    c
}

/// The decimal representation of `n`.
pub fn decimal_of(n: usize) -> (r: Vec<char>)
    ensures
        r@ == decimal(n as nat),
    decreases n,
{
    if n < 10 {
        let mut v: Vec<char> = Vec::new();
        v.push(digit_of(n));
        assert(v@ =~= decimal(n as nat));
        v
    } else {
        let mut v = decimal_of(n / 10);
        v.push(digit_of(n % 10));
        v
    }
}

/// The decimal representation of a 64-bit `n`.
pub fn decimal_of_u64(n: u64) -> (r: Vec<char>)
    ensures
        r@ == decimal(n as nat),
    decreases n,
{
    if n < 10 {
        let mut v: Vec<char> = Vec::new();
        v.push(digit_of(n as usize));
        assert(v@ =~= decimal(n as nat));
        v
    } else {
        let mut v = decimal_of_u64(n / 10);
        v.push(digit_of((n % 10) as usize));
        v
    }
}

// ── lines (`str::lines`) ─────────────────────────────────────────────────────

/// A line without its final carriage return, if any.
pub open spec fn strip_cr(x: Seq<char>) -> Seq<char> {
    if x.len() > 0 && x.last() == '\r' {
        x.drop_last()
    } else {
        x
    }
}

pub open spec fn line_state(s: Seq<char>) -> (Seq<Seq<char>>, Seq<char>)
    decreases s.len(),
{
    if s.len() == 0 {
        (seq![], seq![])
    } else {
        let st = line_state(s.drop_last());
        if s.last() == '\n' {
            (st.0.push(strip_cr(st.1)), seq![])
        } else {
            (st.0, st.1.push(s.last()))
        }
    }
}

/// `str::lines`: pieces ended by `\n` or `\r\n`; a last piece without a line end counts
/// when it is not empty.
pub open spec fn lines(s: Seq<char>) -> Seq<Seq<char>> {
    let st = line_state(s);
    if st.1.len() > 0 {
        st.0.push(st.1)
    } else {
        st.0
    }
}

pub fn lines_of(s: &Vec<char>) -> (r: Vec<Vec<char>>)
    ensures
        vview(r@) == lines(s@),
{
    let mut acc: Vec<Vec<char>> = Vec::new();
    let mut cur: Vec<char> = Vec::new();
    let mut i: usize = 0;
    while i < s.len()
        invariant
            i <= s.len(),
            (vview(acc@), cur@) == line_state(s@.take(i as int)),
        decreases s.len() - i,
    {
        let c = s[i];
        assert(s@.take(i + 1).drop_last() =~= s@.take(i as int));
        if c == '\n' {
            let mut done = cur;
            if done.len() > 0 && done[done.len() - 1] == '\r' {
                done.pop();
            }
            let ghost before = vview(acc@);
            let ghost dv = done@;
            acc.push(done);
            assert(vview(acc@) =~= before.push(dv));
            cur = Vec::new();
        } else {
            cur.push(c);
        }
        i = i + 1;
        assert(cur@ =~= line_state(s@.take(i as int)).1);
        assert(vview(acc@) =~= line_state(s@.take(i as int)).0);
    }
    assert(s@.take(s.len() as int) =~= s@);
    if cur.len() > 0 {
        let ghost before = vview(acc@);
        let ghost cv = cur@;
        acc.push(cur);
        assert(vview(acc@) =~= before.push(cv));
    }
    acc
}

// ── facts on trimming and tokens ─────────────────────────────────────────────

proof fn lemma_trim_end_ws(s: Seq<char>)
    requires
        forall|i: int| 0 <= i < s.len() ==> is_ws(#[trigger] s[i]),
    ensures
        trim_end(s).len() == 0,
    decreases s.len(),
{
    if s.len() > 0 {
        assert(is_ws(s[s.len() - 1]));
        lemma_trim_end_ws(s.drop_last());
    }
}

/// Text that is not blank holds a character that is not whitespace.
pub proof fn lemma_trim_nonblank(s: Seq<char>)
    requires
        trim(s).len() > 0,
    ensures
        exists|i: int| 0 <= i < s.len() && !is_ws(#[trigger] s[i]),
{
    if forall|i: int| 0 <= i < s.len() ==> !!is_ws(#[trigger] s[i]) {
        lemma_trim_end_ws(s);
    }
}

proof fn lemma_tok_seen(s: Seq<char>, ascii: bool)
    ensures
        (exists|i: int| 0 <= i < s.len() && !is_sep(#[trigger] s[i], ascii)) ==> (tok_state(s, ascii).0.len()
            > 0 || tok_state(s, ascii).1.len() > 0),
    decreases s.len(),
{
    if s.len() > 0 {
        lemma_tok_seen(s.drop_last(), ascii);
        if exists|i: int| 0 <= i < s.len() && !is_sep(#[trigger] s[i], ascii) {
            let i = choose|i: int| 0 <= i < s.len() && !is_sep(#[trigger] s[i], ascii);
            if i < s.len() - 1 {
                assert(s.drop_last()[i] == s[i]);
            }
        }
    }
}

/// Text that is not blank has a first word.
pub proof fn lemma_tokens_nonempty(s: Seq<char>)
    requires
        trim(s).len() > 0,
    ensures
        tokens(s, false).len() > 0,
{
    lemma_trim_nonblank(s);
    lemma_tok_seen(s, false);
}

// ── signed integer parsing (`i64::from_str`) ────────────────────────────────

/// `i64::from_str`: an optional `+` or `-`, then one or more ASCII digits, with a value
/// in range.
pub open spec fn spec_parse_i64(s: Seq<char>) -> Option<i64> {
    let neg = s.len() > 0 && s[0] == '-';
    let d = if s.len() > 0 && (s[0] == '+' || s[0] == '-') {
        s.drop_first()
    } else {
        s
    };
    let v = if neg {
        -digits_value(d)
    } else {
        digits_value(d)
    };
    if d.len() > 0 && all_digits(d) && i64::MIN <= v <= i64::MAX {
        Some(v as i64)
    } else {
        None
    }
}

pub fn parse_i64(s: &Vec<char>) -> (r: Option<i64>)
    ensures
        r == spec_parse_i64(s@),
{
    let neg = s.len() > 0 && s[0] == '-';
    let start: usize = if s.len() > 0 && (s[0] == '+' || s[0] == '-') {
        1
    } else {
        0
    };
    let ghost d = if s@.len() > 0 && (s@[0] == '+' || s@[0] == '-') {
        s@.drop_first()
    } else {
        s@
    };
    assert(d =~= s@.subrange(start as int, s.len() as int));
    if start >= s.len() {
        return None;
    }
    let limit: u128 = if neg {
        9223372036854775808
    } else {
        9223372036854775807
    };
    let mut acc: u128 = 0;
    let mut i = start;
    while i < s.len()
        invariant
            start <= i <= s.len(),
            d == s@.subrange(start as int, s.len() as int),
            forall|k: int| 0 <= k < i - start ==> is_digit(d[k]),
            acc == digits_value(d.take(i - start)),
            acc <= limit,
            limit <= 9223372036854775808,
            neg == (s@.len() > 0 && s@[0] == '-'),
            limit == (if neg {
                9223372036854775808int
            } else {
                9223372036854775807int
            }),
            d == (if s@.len() > 0 && (s@[0] == '+' || s@[0] == '-') {
                s@.drop_first()
            } else {
                s@
            }),
            d.len() > 0,
        decreases s.len() - i,
    {
        let c = s[i];
        assert(d[i - start] == c);
        if !('0' <= c && c <= '9') {
            assert(!is_digit(d[i - start]));
            assert(!all_digits(d));
            return None;
        }
        let dv = (c as u32 - '0' as u32) as u128;
        assert(d.take(i - start + 1).drop_last() =~= d.take(i - start));
        let next = acc * 10 + dv;
        assert(d.take(i - start + 1).last() == c);
        assert(digits_value(d.take(i - start + 1)) == next);
        if next > limit {
            proof {
                if all_digits(d) {
                    lemma_digits_value_mono(d, i - start + 1);
                    assert(digits_value(d) > limit);
                }
            }
            return None;
        }
        acc = next;
        i = i + 1;
    }
    assert(d.take(i - start) =~= d);
    if neg {
        if acc == 9223372036854775808 {
            Some(i64::MIN)
        } else {
            Some(-(acc as i64))
        }
    } else {
        Some(acc as i64)
    }
}

// ── hexadecimal formatting (`{:X}`) ──────────────────────────────────────────

pub open spec fn hex_char(d: nat) -> char {
    if d < 10 {
        ((d + 48) as u32) as char
    } else {
        ((d + 55) as u32) as char
    }
}

/// Upper-case hexadecimal digits of `n`, without leading zeros.
pub open spec fn hex(n: nat) -> Seq<char>
    decreases n,
{
    if n < 16 {
        seq![hex_char(n)]
    } else {
        hex(n / 16).push(hex_char(n % 16))
    }
}

/// `format!("{:X}", n)` for an `i64`: negative values in two's complement.
pub open spec fn hex_i64(n: i64) -> Seq<char> {
    if n >= 0 {
        hex(n as nat)
    } else {
        hex((n + 0x1_0000_0000_0000_0000int) as nat)
    }
}

fn hex_char_of(d: u64) -> (c: char)
    requires
        d < 16,
    ensures
        c == hex_char(d as nat),
{
    let b: u8 = if d < 10 {
        (d + 48) as u8
    } else {
        (d + 55) as u8
    };
    let c = b as char;
    assert(c as u32 == b as u32);
    c
}

fn hex_of(n: u64) -> (r: Vec<char>)
    ensures
        r@ == hex(n as nat),
    decreases n,
{
    if n < 16 {
        let mut v: Vec<char> = Vec::new();
        v.push(hex_char_of(n));
        assert(v@ =~= hex(n as nat));
        v
    } else {
        let mut v = hex_of(n / 16);
        v.push(hex_char_of(n % 16));
        v
    }
}

pub fn hex_i64_of(n: i64) -> (r: Vec<char>)
    ensures
        r@ == hex_i64(n),
{
    if n >= 0 {
        hex_of(n as u64)
    } else {
        let m = (-(n + 1)) as u64;
        let u = u64::MAX - m;
        assert(u as int == n + 0x1_0000_0000_0000_0000int);
        hex_of(u)
    }
}

/// `trim_start` keeps a suffix: the text is its leading whitespace, then the rest.
pub proof fn lemma_trim_start_suffix(s: Seq<char>)
    ensures
        trim_start(s).len() <= s.len(),
        s.take(s.len() - trim_start(s).len()) + trim_start(s) == s,
    decreases s.len(),
{
    if s.len() > 0 && is_ws(s[0]) {
        lemma_trim_start_suffix(s.drop_first());
        let t = trim_start(s);
        assert(s.take(s.len() - t.len()) =~= seq![s[0]] + s.drop_first().take(s.drop_first().len() - t.len()));
        assert(s =~= seq![s[0]] + s.drop_first());
    } else {
        assert(s.take(0) + s =~= s);
    }
}

} // verus!
