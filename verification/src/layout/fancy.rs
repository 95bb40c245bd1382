//! Helpers of the fancy layout: instance keys and colors.

use vstd::prelude::*;
use crate::layout::simple::{inst_key, inst_key_ex};
use crate::text::{chars_of, string_of};

verus! {

/// The key of the `count`-th placement of an ancestor: `id`, then `id##1`, `id##2`, …
pub fn anc_instance_key(id: &str, count: usize) -> (r: String)
    ensures
        r@ == inst_key(id@, count as int),
{
    let s = string_of(&chars_of(id));
    inst_key_ex(&s, count)
}

/// The upper-case hexadecimal digit of `n` (0 to 15).
pub open spec fn hex_digit(n: int) -> char {
    if n < 10 {
        ((n + 48) as u32) as char
    } else {
        ((n + 55) as u32) as char
    }
}

/// `#RRGGBB` from a `0xRGB` color: each 4-bit channel doubled.
pub open spec fn spec_hex_color(val: i64) -> Seq<char> {
    let r = ((val >> 8u64) & 0xF) as int;
    let g = ((val >> 4u64) & 0xF) as int;
    let b = (val & 0xF) as int;
    seq!['#', hex_digit(r), hex_digit(r), hex_digit(g), hex_digit(g), hex_digit(b), hex_digit(b)]
}

fn hex_digit_ex(n: i64) -> (c: char)
    requires
        0 <= n < 16,
    ensures
        c == hex_digit(n as int),
{
    let b: u8 = if n < 10 {
        (n + 48) as u8
    } else {
        (n + 55) as u8
    };
    let c = b as char;
    assert(c as u32 == b as u32);
    c
}

/// Expand a 12-bit `0xRGB` color to the `#RRGGBB` form.
pub fn hex_color_fancy(val: i64) -> (r: String)
    ensures
        r@ == spec_hex_color(val),
{
    let r = (val >> 8u64) & 0xF;
    let g = (val >> 4u64) & 0xF;
    let b = val & 0xF;
    assert(0 <= r < 16) by (bit_vector)
        requires
            r == (val >> 8u64) & 0xF,
    ;
    assert(0 <= g < 16) by (bit_vector)
        requires
            g == (val >> 4u64) & 0xF,
    ;
    assert(0 <= b < 16) by (bit_vector)
        requires
            b == val & 0xF,
    ;
    let mut v: Vec<char> = Vec::new();
    v.push('#');
    let cr = hex_digit_ex(r);
    let cg = hex_digit_ex(g);
    let cb = hex_digit_ex(b);
    v.push(cr);
    v.push(cr);
    v.push(cg);
    v.push(cg);
    v.push(cb);
    v.push(cb);
    assert(v@ =~= spec_hex_color(val));
    string_of(&v)
}

} // verus!
