//! Deterministic colours for call-tree nodes, derived from a node's name.
use vstd::prelude::*;
use vstd::std_specs::hash::DefaultHasherAdditionalSpecFns;
use vstd::std_specs::iter::IteratorSpec;
use vstd::utf8::encode_utf8;
use std::collections::hash_map::DefaultHasher;
use std::hash::Hasher;

verus! {

/// The four ways of deriving a colour from a name.
#[derive(Debug, Clone, Copy, PartialEq, Eq, Structural)]
pub enum ColorScheme {
    Rainbow,
    Greyscale,
    Flame,
    Ice,
}

/// An RGBA colour kept exactly: each channel is the fraction
/// `channel / scale` of full intensity.
#[derive(Debug, Clone, Copy, PartialEq, Eq, Structural)]
pub struct Color {
    pub r: u32,
    pub g: u32,
    pub b: u32,
    pub a: u32,
    pub scale: u32,
}

/// Index one past the last backtick of `s`, 0 when there is none.
pub open spec fn after_last_tick(s: Seq<char>) -> int
    decreases s.len(),
{
    if s.len() == 0 {
        0
    } else if s.last() == '`' {
        s.len() as int
    } else {
        after_last_tick(s.drop_last())
    }
}

/// Index of the first opening parenthesis of `s`, its length when there is none.
pub open spec fn first_paren(s: Seq<char>) -> int
    decreases s.len(),
{
    if s.len() == 0 {
        0
    } else {
        let p = first_paren(s.drop_last());
        if p < s.len() - 1 {
            p
        } else if s.last() == '(' {
            s.len() - 1
        } else {
            s.len() as int
        }
    }
}

/// The leaf of a qualified name: the text after the last backtick, cut
/// before its first parenthesis.
pub open spec fn leaf_name(s: Seq<char>) -> Seq<char> {
    let t = s.subrange(after_last_tick(s), s.len() as int);
    t.subrange(0, first_paren(t))
}

/// Weight of character `i` of the leaf: `0.7^i`, scaled by `10^6`.
pub open spec fn char_weight(i: nat) -> int
    decreases i,
{
    if i == 0 { 1000000 } else { char_weight((i - 1) as nat) * 7 / 10 }
}

/// What character `c` adds to the hash under `salt`, before weighting.
pub open spec fn char_digit(c: char, salt: u32) -> int {
    (((c as u32) as int) + (salt as int)) % 11
}

/// Weighted digit sum of the first `k` characters of `s`.
pub open spec fn weighted_sum(s: Seq<char>, salt: u32, k: nat) -> int
    decreases k,
{
    if k == 0 { 0 } else { weighted_sum(s, salt, (k - 1) as nat) + char_weight((k - 1) as nat) * char_digit(s[k - 1], salt) }
}

/// The largest weighted digit sum of `k` characters.
pub open spec fn weight_bound(k: nat) -> int
    decreases k,
{
    if k == 0 { 0 } else { weight_bound((k - 1) as nat) + char_weight((k - 1) as nat) * 10 }
}

/// Number of leaf characters that enter the hash: at most seven.
pub open spec fn hashed_len(s: Seq<char>) -> nat {
    if s.len() < 7 { s.len() } else { 7 }
}

/// The scalar of a name, in `[0, 1]`, as the fraction `(num, den)`; `0/1`
/// when the leaf is empty.
pub open spec fn color_vector(name: Seq<char>, salt: u32) -> (int, int) {
    let leaf = leaf_name(name);
    let k = hashed_len(leaf);
    if k == 0 { (0, 1) } else { (weighted_sum(leaf, salt, k), weight_bound(k)) }
}

/// `k * p / q` rounded to the nearest integer, halves away from zero.
pub open spec fn round_scaled(k: int, p: int, q: int) -> int {
    (2 * k * p + q) / (2 * q)
}

/// The little-endian bytes of `x`.
pub open spec fn le_bytes(x: u32) -> Seq<u8> {
    seq![(x % 256) as u8, ((x / 256) % 256) as u8, ((x / 65536) % 256) as u8, (x / 16777216) as u8]
}

/// The default hasher's digest of the name's UTF-8 bytes, a `0xff`
/// terminator and the salt's bytes.
pub open spec fn rainbow_digest(name: Seq<char>, salt: u32) -> u64 {
    DefaultHasher::spec_finish(seq![encode_utf8(name), seq![0xffu8], le_bytes(salt)])
}

/// Byte `i` (0 = most significant) of `x`.
pub open spec fn be_byte(x: u64, i: int) -> int {
    ((x as int) / pow256(7 - i)) % 256
}

pub open spec fn pow256(e: int) -> int
    decreases e,
{
    if e <= 0 { 1 } else { 256 * pow256(e - 1) }
}

pub open spec fn rainbow_color(name: Seq<char>, salt: u32) -> Color {
    let u = rainbow_digest(name, salt);
    Color {
        r: (150 + be_byte(u, 0)) as u32,
        g: (150 + be_byte(u, 1)) as u32,
        b: (150 + be_byte(u, 2)) as u32,
        a: 500,
        scale: 500,
    }
}

pub open spec fn greyscale_color(name: Seq<char>, salt: u32) -> Color {
    let (h, m) = color_vector(name, salt);
    let c = round_scaled(255, m - h, m) as u32;
    Color { r: c, g: c, b: c, a: 255, scale: 255 }
}

pub open spec fn flame_color(name: Seq<char>, salt: u32) -> Color {
    let (h, m) = color_vector(name, salt);
    Color {
        r: (200 + round_scaled(55, h, m)) as u32,
        g: round_scaled(230, m - h, m) as u32,
        b: round_scaled(55, m - h, m) as u32,
        a: 255,
        scale: 255,
    }
}

pub open spec fn ice_color(name: Seq<char>, salt: u32) -> Color {
    let (h, m) = color_vector(name, salt);
    Color {
        r: round_scaled(55, m - h, m) as u32,
        g: round_scaled(230, m - h, m) as u32,
        b: (200 + round_scaled(55, h, m)) as u32,
        a: 255,
        scale: 255,
    }
}

/// The colour that `scheme` gives a node called `name` under `salt`.
pub open spec fn scheme_color(name: Seq<char>, scheme: ColorScheme, salt: u32) -> Color {
    match scheme {
        ColorScheme::Flame => flame_color(name, salt),
        ColorScheme::Ice => ice_color(name, salt),
        ColorScheme::Greyscale => greyscale_color(name, salt),
        ColorScheme::Rainbow => rainbow_color(name, salt),
    }
}

proof fn lemma_weights(k: nat)
    requires
        k <= 7,
    ensures
        0 < char_weight(k) <= 1000000 || k == 7,
        k > 0 ==> 10000000 <= weight_bound(k) <= 70000000,
        k == 0 ==> weight_bound(k) == 0,
    decreases k,
{
    reveal_with_fuel(char_weight, 8);
    reveal_with_fuel(weight_bound, 8);
    if k > 0 {
        lemma_weights((k - 1) as nat);
    }
}

proof fn lemma_weighted_sum_bounded(s: Seq<char>, salt: u32, k: nat)
    requires
        k <= 7,
    ensures
        0 <= weighted_sum(s, salt, k) <= weight_bound(k),
    decreases k,
{
    if k > 0 {
        lemma_weighted_sum_bounded(s, salt, (k - 1) as nat);
        lemma_weights((k - 1) as nat);
        reveal_with_fuel(char_weight, 8);
        let w = char_weight((k - 1) as nat);
        let d = char_digit(s[k - 1], salt);
        assert(0 <= d <= 10);
        assert(0 <= w * d <= w * 10) by (nonlinear_arith) requires 0 <= d <= 10, w >= 0;
    }
}

/// The characters of `s`, in order.
fn chars_of(s: &str) -> (r: Vec<char>)
    ensures
        r@ == s@,
{
    broadcast use vstd::string::group_string_axioms;
    let mut it = s.chars();
    let mut out: Vec<char> = Vec::new();
    loop
        invariant
            it.obeys_prophetic_iter_laws(),
            out@ + it.remaining() == s@,
            it.decrease() is Some,
        decreases it.decrease()->0,
    {
        let ghost before = it.remaining();
        match it.next() {
            Some(c) => {
                proof {
                    assert(out@.push(c) + it.remaining() =~= out@ + before);
                }
                out.push(c);
            },
            None => {
                proof {
                    assert(out@ + before =~= out@);
                }
                return out;
            },
        }
    }
}

/// Where the leaf of `cs` starts and how long it is.
fn leaf_bounds(cs: &Vec<char>) -> (r: (usize, usize))
    ensures
        r.0 == after_last_tick(cs@),
        r.1 == first_paren(cs@.subrange(r.0 as int, cs@.len() as int)),
        r.0 + r.1 <= cs@.len(),
{
    let mut a: usize = 0;
    let mut i: usize = 0;
    while i < cs.len()
        invariant
            i <= cs@.len(),
            a <= i,
            a == after_last_tick(cs@.subrange(0, i as int)),
        decreases cs@.len() - i,
    {
        proof {
            assert(cs@.subrange(0, i + 1).drop_last() =~= cs@.subrange(0, i as int));
        }
        if cs[i] == '`' {
            a = i + 1;
        }
        i = i + 1;
    }
    proof {
        assert(cs@.subrange(0, i as int) =~= cs@);
    }
    let ghost t = cs@.subrange(a as int, cs@.len() as int);
    let mut p: usize = 0;
    let mut q: usize = 0;
    while q < cs.len() - a
        invariant
            a <= cs@.len(),
            t == cs@.subrange(a as int, cs@.len() as int),
            a + q <= cs@.len(),
            p <= q,
            p == first_paren(t.subrange(0, q as int)),
        decreases cs@.len() - (a + q),
    {
        proof {
            assert(t.subrange(0, q + 1).drop_last() =~= t.subrange(0, q as int));
            assert(t.subrange(0, q + 1).last() == cs@[a + q]);
        }
        if p == q && cs[a + q] != '(' {
            p = q + 1;
        }
        q = q + 1;
    }
    proof {
        assert(t.subrange(0, q as int) =~= t);
    }
    (a, p)
}

/// The scalar of `name` under `color_mod`, as a fraction `(num, den)` of
/// the largest possible hash; `(0, 1)` when the leaf of the name is empty.
pub fn generate_color_vector(name: &str, color_mod: u32) -> (r: (u64, u64))
    ensures
        (r.0 as int, r.1 as int) == color_vector(name@, color_mod),
        r.1 > 0,
        r.0 <= r.1,
{
    let cs = chars_of(name);
    let (a, len) = leaf_bounds(&cs);
    let ghost leaf = leaf_name(name@);
    proof {
        assert(leaf =~= cs@.subrange(a as int, a + len));
    }
    let k: usize = if len < 7 { len } else { 7 };
    if k == 0 {
        return (0, 1);
    }
    let mut hash: u64 = 0;
    let mut max_hash: u64 = 0;
    let mut weight: u64 = 1000000;
    let mut i: usize = 0;
    let n = cs.len();
    while i < k
        invariant
            n == cs@.len(),
            k <= 7,
            k <= len,
            a + len <= cs@.len(),
            leaf == cs@.subrange(a as int, a + len),
            i <= k,
            weight == char_weight(i as nat),
            hash == weighted_sum(leaf, color_mod, i as nat),
            max_hash == weight_bound(i as nat),
        decreases k - i,
    {
        proof {
            lemma_weights(i as nat);
            lemma_weights((i + 1) as nat);
            lemma_weighted_sum_bounded(leaf, color_mod, (i + 1) as nat);
            assert(leaf[i as int] == cs@[a + i]);
        }
        let c = cs[a + i];
        let code: u32 = c as u32;
        let digit: u64 = (code as u64 + color_mod as u64) % 11;
        proof {
            assert(digit == char_digit(c, color_mod));
        }
        hash = hash + weight * digit;
        max_hash = max_hash + weight * 10;
        weight = weight * 7 / 10;
        i = i + 1;
    }
    proof {
        lemma_weights(k as nat);
        lemma_weighted_sum_bounded(leaf, color_mod, k as nat);
    }
    (hash, max_hash)
}

/// `k * p / q`, rounded half away from zero.
fn round_frac(k: u64, p: u64, q: u64) -> (r: u32)
    requires
        0 < q <= 100000000,
        p <= q,
        k <= 255,
    ensures
        r == round_scaled(k as int, p as int, q as int),
        r <= k,
{
    proof {
        assert(2 * k * p + q <= 2 * k * q + q) by (nonlinear_arith) requires p <= q, k >= 0;
        assert(2 * k * q + q <= 60000000000) by (nonlinear_arith) requires 0 < q <= 100000000, k <= 255;
        let x = 2 * k * p + q;
        assert(x / (2 * q) <= k) by (nonlinear_arith) requires x <= 2 * k * q + q, q > 0, k >= 0, x >= 0;
    }
    ((2 * k * p + q) / (2 * q)) as u32
}

/// The Rainbow colour: three bytes of a hash of the name and salt, each
/// mapped to `0.3 + byte / 500`, fully opaque.
pub fn color_scheme_rainbow(name: &String, color_mod: u32) -> (r: Color)
    ensures
        r == rainbow_color(name@, color_mod),
{
    let mut s = DefaultHasher::new();
    s.write(name.as_str().as_bytes());
    let sep: Vec<u8> = vec![0xffu8];
    s.write(sep.as_slice());
    let salt: Vec<u8> = vec![
        (color_mod % 256) as u8,
        ((color_mod / 256) % 256) as u8,
        ((color_mod / 65536) % 256) as u8,
        (color_mod / 16777216) as u8,
    ];
    s.write(salt.as_slice());
    let u: u64 = s.finish();
    proof {
        assert(sep@ =~= seq![0xffu8]);
        assert(salt@ =~= le_bytes(color_mod));
        assert(s@ =~~= seq![encode_utf8(name@), seq![0xffu8], le_bytes(color_mod)]);
        reveal_with_fuel(pow256, 8);
    }
    let b0 = ((u / 0x100000000000000) % 256) as u32;
    let b1 = ((u / 0x1000000000000) % 256) as u32;
    let b2 = ((u / 0x10000000000) % 256) as u32;
    Color { r: 150 + b0, g: 150 + b1, b: 150 + b2, a: 500, scale: 500 }
}

/// The Greyscale colour: the name's scalar `v` inverted, `1 - v`, on all
/// three channels.
pub fn color_scheme_greyscale(name: &String, color_mod: u32) -> (r: Color)
    ensures
        r == greyscale_color(name@, color_mod),
{
    let (h, m) = generate_color_vector(name.as_str(), color_mod);
    proof { lemma_vector_den(name@, color_mod); }
    let c = round_frac(255, m - h, m);
    Color { r: c, g: c, b: c, a: 255, scale: 255 }
}

/// The Flame colour: red rising with the name's scalar, green and blue
/// falling.
pub fn color_scheme_flame(name: &String, color_mod: u32) -> (r: Color)
    ensures
        r == flame_color(name@, color_mod),
{
    let (h, m) = generate_color_vector(name.as_str(), color_mod);
    proof { lemma_vector_den(name@, color_mod); }
    let r = 200 + round_frac(55, h, m);
    let g = round_frac(230, m - h, m);
    let b = round_frac(55, m - h, m);
    Color { r, g, b, a: 255, scale: 255 }
}

/// The Ice colour: blue rising with the name's scalar, green falling, red
/// low.
pub fn color_scheme_ice(name: &String, color_mod: u32) -> (r: Color)
    ensures
        r == ice_color(name@, color_mod),
{
    let (h, m) = generate_color_vector(name.as_str(), color_mod);
    proof { lemma_vector_den(name@, color_mod); }
    let r = round_frac(55, m - h, m);
    let g = round_frac(230, m - h, m);
    let b = 200 + round_frac(55, h, m);
    Color { r, g, b, a: 255, scale: 255 }
}

proof fn lemma_vector_den(name: Seq<char>, salt: u32)
    ensures
        0 < color_vector(name, salt).1 <= 100000000,
{
    let k = hashed_len(leaf_name(name));
    lemma_weights(k);
}

/// The colour `scheme` gives `name` under the salt `color_mod`.
pub fn color_from_scheme(name: &String, scheme: ColorScheme, color_mod: u32) -> (r: Color)
    ensures
        r == scheme_color(name@, scheme, color_mod),
{
    match scheme {
        ColorScheme::Flame => color_scheme_flame(name, color_mod),
        ColorScheme::Ice => color_scheme_ice(name, color_mod),
        ColorScheme::Greyscale => color_scheme_greyscale(name, color_mod),
        ColorScheme::Rainbow => color_scheme_rainbow(name, color_mod),
    }
}

/// A colour depends on the name's characters, the scheme and the salt
/// alone: equal inputs always give the same colour.
pub proof fn lemma_color_deterministic(a: Seq<char>, b: Seq<char>, scheme: ColorScheme, salt: u32)
    requires
        a == b,
    ensures
        scheme_color(a, scheme, salt) == scheme_color(b, scheme, salt),
        color_vector(a, salt) == color_vector(b, salt),
{
}

} // verus!
