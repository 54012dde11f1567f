//! Small formatting helpers, the fuzzy matcher, and the deterministic noise hash.
use vstd::prelude::*;
use crate::text::{chars_of, lower_char, push_char, to_lower_char};

verus! {

// ---------------------------------------------------------------- decimal

/// The decimal digit character for `d < 10`.
pub open spec fn digit_char(d: nat) -> char {
    ((d + 48) as u32) as char
}

/// Decimal representation of `n`, without leading zeros.
pub open spec fn dec_of(n: nat) -> Seq<char>
    decreases n,
{
    if n < 10 {
        seq![digit_char(n)]
    } else {
        dec_of(n / 10).push(digit_char(n % 10))
    }
}

/// `dec_of(n)` left-padded with zeros to at least `w` characters.
pub open spec fn dec_pad(n: nat, w: nat) -> Seq<char> {
    let d = dec_of(n);
    if d.len() >= w {
        d
    } else {
        Seq::new((w - d.len()) as nat, |i: int| '0') + d
    }
}

fn digit(d: u128) -> (c: char)
    requires
        d < 10,
    ensures
        c == digit_char(d as nat),
{
    let b: u8 = (d as u8) + 48;
    b as char
}

/// Appends the decimal representation of `n`.
pub fn push_dec(out: &mut String, n: u128)
    ensures
        final(out)@ == old(out)@ + dec_of(n as nat),
    decreases n,
{
    if n < 10 {
        push_char(out, digit(n));
    } else {
        push_dec(out, n / 10);
        push_char(out, digit(n % 10));
    }
}

proof fn lemma_dec_len(n: nat)
    ensures
        dec_of(n).len() >= 1,
        n < 10 ==> dec_of(n).len() == 1,
        10 <= n < 100 ==> dec_of(n).len() == 2,
        100 <= n < 1000 ==> dec_of(n).len() == 3,
        n >= 10 ==> dec_of(n).len() >= 2,
        n >= 100 ==> dec_of(n).len() >= 3,
        n >= 1000 ==> dec_of(n).len() >= 4,
    decreases n,
{
    if n >= 10 {
        lemma_dec_len(n / 10);
    }
}

/// Appends `n` zero-padded to `w` digits (`w <= 3`).
fn push_dec_pad(out: &mut String, n: u128, w: u128)
    requires
        w <= 3,
    ensures
        final(out)@ == old(out)@ + dec_pad(n as nat, w as nat),
{
    proof { lemma_dec_len(n as nat); }
    let len: u128 = if n < 10 { 1 } else if n < 100 { 2 } else if n < 1000 { 3 } else { 4 };
    let mut k = len;
    let ghost pre = out@;
    while k < w
        invariant
            len <= k <= w || (k == len && len >= w),
            out@ == pre + Seq::new((k - len) as nat, |i: int| '0'),
        decreases w - k,
    {
        push_char(out, '0');
        k += 1;
        assert(out@ =~= pre + Seq::new((k - len) as nat, |i: int| '0'));
    }
    let ghost mid = out@;
    push_dec(out, n);
    proof {
        if dec_of(n as nat).len() >= w {
            assert(k == len);
            assert(out@ =~= pre + dec_pad(n as nat, w as nat));
        } else {
            assert(dec_of(n as nat).len() == len);
            assert(out@ =~= pre + dec_pad(n as nat, w as nat));
        }
    }
}

// ---------------------------------------------------------------- time

/// `M:SS` for a whole number of seconds.
pub open spec fn fmt_time_of(total: nat) -> Seq<char> {
    dec_of(total / 60) + seq![':'] + dec_pad(total % 60, 2)
}

/// `M:SS` for a whole number of seconds (negative and non-finite inputs are
/// mapped to 0 by the caller, which gives `0:00`).
pub fn fmt_time(total_secs: u64) -> (r: String)
    ensures
        r@ == fmt_time_of(total_secs as nat),
{
    let mut out = String::new();
    push_dec(&mut out, (total_secs / 60) as u128);
    push_char(&mut out, ':');
    push_dec_pad(&mut out, (total_secs % 60) as u128, 2);
    out
}

/// `M:SS.mmm` with the milliseconds capped at 999.
pub open spec fn fmt_time_precise_of(total: nat, ms: nat) -> Seq<char> {
    fmt_time_of(total) + seq!['.'] + dec_pad(if ms > 999 { 999 } else { ms }, 3)
}

/// `M:SS.mmm` — seconds with millisecond precision, for the live now-playing
/// readout. `ms` is the rounded fractional part in milliseconds.
pub fn fmt_time_precise(total_secs: u64, ms: u64) -> (r: String)
    ensures
        r@ == fmt_time_precise_of(total_secs as nat, ms as nat),
{
    let mut out = fmt_time(total_secs);
    push_char(&mut out, '.');
    let m = if ms > 999 { 999 } else { ms };
    push_dec_pad(&mut out, m as u128, 3);
    out
}

// ---------------------------------------------------------------- fuzzy

/// Case-insensitive (ASCII) character equality.
pub open spec fn eq_ci(a: char, b: char) -> bool {
    lower_char(a) == lower_char(b)
}

/// The first index `>= from` of `h` holding `c` (case-insensitively), or -1.
pub open spec fn first_match(h: Seq<char>, from: int, c: char) -> int
    decreases h.len() - from,
{
    if from < 0 || from >= h.len() {
        -1
    } else if eq_ci(h[from], c) {
        from
    } else {
        first_match(h, from + 1, c)
    }
}

/// Greedy left-most matching of `n[k..]` in `h[hi..]`: the index of the last
/// matched character (`last` when nothing is left to match), or `None`.
pub open spec fn greedy_last(n: Seq<char>, h: Seq<char>, k: int, hi: int, last: int) -> Option<int>
    decreases n.len() - k,
{
    if k < 0 || k >= n.len() {
        Some(last)
    } else {
        let idx = first_match(h, hi, n[k]);
        if idx < 0 {
            None
        } else {
            greedy_last(n, h, k + 1, idx + 1, idx)
        }
    }
}

/// The fuzzy score: 0 for an empty needle; otherwise the summed gaps of the
/// greedy left-most match (distance from the front, then 1 per contiguous
/// step), which add up to the index of the last matched character.
pub open spec fn fuzzy_of(n: Seq<char>, h: Seq<char>) -> Option<int> {
    if n.len() == 0 {
        Some(0)
    } else {
        greedy_last(n, h, 0, 0, -1)
    }
}

proof fn lemma_first_match(h: Seq<char>, from: int, c: char, i: int)
    requires
        0 <= from <= h.len(),
        i == -1 || (from <= i < h.len() && eq_ci(h[i], c)),
        forall|j: int| from <= j < h.len() && (i == -1 || j < i) ==> !eq_ci(#[trigger] h[j], c),
    ensures
        first_match(h, from, c) == i,
    decreases h.len() - from,
{
    if from < h.len() && !eq_ci(h[from], c) {
        lemma_first_match(h, from + 1, c, i);
    } else if from < h.len() {
        assert(i == from);
    }
}

proof fn lemma_greedy_bounds(n: Seq<char>, h: Seq<char>, k: int, hi: int, last: int)
    requires
        -1 <= last < hi,
        hi <= h.len(),
    ensures
        match greedy_last(n, h, k, hi, last) {
            Some(r) => last <= r < h.len() || r == last,
            None => true,
        },
    decreases n.len() - k,
{
    if 0 <= k < n.len() {
        let idx = first_match(h, hi, n[k]);
        if idx >= 0 {
            lemma_first_match_bounds(h, hi, n[k]);
            lemma_greedy_bounds(n, h, k + 1, idx + 1, idx);
        }
    }
}

proof fn lemma_first_match_bounds(h: Seq<char>, from: int, c: char)
    ensures
        first_match(h, from, c) == -1 || (from <= first_match(h, from, c) < h.len()),
    decreases h.len() - from,
{
    if 0 <= from < h.len() && !eq_ci(h[from], c) {
        lemma_first_match_bounds(h, from + 1, c);
    }
}

/// Case-insensitive subsequence fuzzy match. `Some(score)` if every char of
/// `needle` appears in order within `haystack`; lower score = earlier match.
/// `None` if it doesn't match.
pub fn fuzzy_score(needle: &str, haystack: &str) -> (r: Option<i32>)
    requires
        haystack@.len() <= i32::MAX,
    ensures
        match r {
            Some(s) => fuzzy_of(needle@, haystack@) == Some(s as int),
            None => fuzzy_of(needle@, haystack@) is None,
        },
{
    let nd = chars_of(needle);
    if nd.len() == 0 {
        return Some(0);
    }
    let hay = chars_of(haystack);
    let mut hi: usize = 0;
    let mut score: i32 = 0;
    let mut last: Option<usize> = None;
    let mut k: usize = 0;
    while k < nd.len()
        invariant
            nd@ == needle@,
            hay@ == haystack@,
            hay@.len() <= i32::MAX,
            nd@.len() > 0,
            k <= nd@.len(),
            hi <= hay@.len(),
            k == 0 ==> last is None && hi == 0 && score == 0,
            k > 0 ==> last is Some && last->0 < hay@.len() && hi == last->0 + 1 && score == last->0 as int,
            fuzzy_of(needle@, haystack@) == greedy_last(nd@, hay@, k as int, hi as int, match last {
                Some(l) => l as int,
                None => -1,
            }),
        decreases nd@.len() - k,
    {
        let nc = nd[k];
        let lnc = to_lower_char(nc);
        let ghost from = hi;
        let mut found: Option<usize> = None;
        while hi < hay.len()
            invariant_except_break
                found is None,
            invariant
                from <= hi <= hay@.len(),
                lnc == lower_char(nc),
                forall|j: int| from <= j < hi ==> !eq_ci(#[trigger] hay@[j], nc),
            ensures
                match found {
                    Some(f) => from <= f < hay@.len() && eq_ci(hay@[f as int], nc) && forall|j: int| from <= j < f ==> !eq_ci(#[trigger] hay@[j], nc),
                    None => hi == hay@.len() && forall|j: int| from <= j < hay@.len() ==> !eq_ci(#[trigger] hay@[j], nc),
                },
            decreases hay@.len() - hi,
        {
            if to_lower_char(hay[hi]) == lnc {
                found = Some(hi);
                break;
            }
            hi += 1;
        }
        let idx = match found {
            Some(f) => {
                proof { lemma_first_match(hay@, from as int, nc, f as int); }
                f
            },
            None => {
                proof { lemma_first_match(hay@, from as int, nc, -1); }
                return None;
            },
        };
        // The gaps telescope: the running score is the last matched index.
        score = match last {
            Some(lm) => score + ((idx - lm) as i32),
            None => idx as i32,
        };
        last = Some(idx);
        hi = idx + 1;
        k += 1;
    }
    Some(score)
}

proof fn lemma_greedy_push(n: Seq<char>, c: char, h: Seq<char>, k: int, hi: int, last: int, r: int)
    requires
        0 <= k < n.len(),
        greedy_last(n, h, k, hi, last) == Some(r),
    ensures
        greedy_last(n.push(c), h, k, hi, last) == greedy_last(n.push(c), h, n.len() as int, r + 1, r),
    decreases n.len() - k,
{
    let np = n.push(c);
    assert(np[k] == n[k]);
    let idx = first_match(h, hi, n[k]);
    if k + 1 < n.len() {
        lemma_greedy_push(n, c, h, k + 1, idx + 1, idx, r);
    }
}

proof fn lemma_first_match_append(h: Seq<char>, t: Seq<char>, from: int, c: char)
    requires
        first_match(h, from, c) >= 0,
    ensures
        first_match(h + t, from, c) == first_match(h, from, c),
    decreases h.len() - from,
{
    assert((h + t)[from] == h[from]);
    if !eq_ci(h[from], c) {
        lemma_first_match_append(h, t, from + 1, c);
    }
}

proof fn lemma_greedy_append(n: Seq<char>, h: Seq<char>, t: Seq<char>, k: int, hi: int, last: int)
    requires
        greedy_last(n, h, k, hi, last) is Some,
    ensures
        greedy_last(n, h + t, k, hi, last) == greedy_last(n, h, k, hi, last),
    decreases n.len() - k,
{
    if 0 <= k < n.len() {
        let idx = first_match(h, hi, n[k]);
        lemma_first_match_append(h, t, hi, n[k]);
        lemma_greedy_append(n, h, t, k + 1, idx + 1, idx);
    }
}

proof fn lemma_first_match_hit(h: Seq<char>, from: int, c: char)
    requires
        first_match(h, from, c) >= 0,
    ensures
        eq_ci(h[first_match(h, from, c)], c),
    decreases h.len() - from,
{
    if !eq_ci(h[from], c) {
        lemma_first_match_hit(h, from + 1, c);
    }
}

proof fn lemma_greedy_last_char(n: Seq<char>, h: Seq<char>, k: int, hi: int, last: int)
    requires
        0 <= k < n.len(),
        greedy_last(n, h, k, hi, last) is Some,
    ensures
        eq_ci(h[greedy_last(n, h, k, hi, last)->0], n.last()),
    decreases n.len() - k,
{
    let idx = first_match(h, hi, n[k]);
    lemma_first_match_hit(h, hi, n[k]);
    if k + 1 < n.len() {
        lemma_greedy_last_char(n, h, k + 1, idx + 1, idx);
    }
}

/// A match of a non-empty needle scores the index of the haystack character
/// matched to the needle's last character; one more needle character either
/// fails to match or scores strictly higher.
pub proof fn law_fuzzy_longer_needle(n: Seq<char>, c: char, h: Seq<char>)
    requires
        n.len() > 0,
        fuzzy_of(n, h) is Some,
    ensures
        0 <= fuzzy_of(n, h)->0 < h.len(),
        eq_ci(h[fuzzy_of(n, h)->0], n.last()),
        match fuzzy_of(n.push(c), h) {
            Some(s2) => s2 > fuzzy_of(n, h)->0,
            None => true,
        },
{
    let r = fuzzy_of(n, h)->0;
    lemma_greedy_last_char(n, h, 0, 0, -1);
    let idx = first_match(h, 0, n[0]);
    lemma_first_match_bounds(h, 0, n[0]);
    lemma_greedy_bounds(n, h, 1, idx + 1, idx);
    lemma_greedy_push(n, c, h, 0, 0, -1, r);
    let np = n.push(c);
    assert(np[n.len() as int] == c);
    lemma_first_match_bounds(h, r + 1, c);
    let i2 = first_match(h, r + 1, c);
    assert(fuzzy_of(np, h) == greedy_last(np, h, 0, 0, -1));
    if i2 >= 0 {
        assert(greedy_last(np, h, np.len() as int, i2 + 1, i2) == Some(i2));
        assert(greedy_last(np, h, n.len() as int, r + 1, r) == Some(i2));
    } else {
        assert(greedy_last(np, h, n.len() as int, r + 1, r) is None);
    }
}

/// Text appended to the haystack never changes the score of a match.
pub proof fn law_fuzzy_append_haystack(n: Seq<char>, h: Seq<char>, t: Seq<char>)
    requires
        fuzzy_of(n, h) is Some,
    ensures
        fuzzy_of(n, h + t) == fuzzy_of(n, h),
{
    if n.len() > 0 {
        lemma_greedy_append(n, h, t, 0, 0, -1);
    }
}

// ---------------------------------------------------------------- noise

/// The noise hash of `(a, b)`, in 32-bit wrapping arithmetic.
pub open spec fn noise_of(a: u32, b: u32) -> u32 {
    let x0 = ((a as nat * 374_761_393 + b as nat * 668_265_263) % 0x1_0000_0000) as u32;
    let x1 = x0 ^ (x0 >> 13u32);
    let x2 = ((x1 as nat * 1_274_126_177) % 0x1_0000_0000) as u32;
    x2 ^ (x2 >> 16u32)
}

/// Cheap deterministic hash (two seeds -> pseudo-random u32). Used for flicker
/// and particle jitter without an RNG dependency.
pub fn noise(a: u32, b: u32) -> (r: u32)
    ensures
        r == noise_of(a, b),
{
    let mut x = a.wrapping_mul(374_761_393).wrapping_add(b.wrapping_mul(668_265_263));
    proof {
        vstd::arithmetic::div_mod::lemma_add_mod_noop((a as nat * 374_761_393) as int, (b as nat * 668_265_263) as int, 0x1_0000_0000);
    }
    x ^= x >> 13;
    x = x.wrapping_mul(1_274_126_177);
    x ^ (x >> 16)
}


proof fn lemma_xs13_inj(x: u32, y: u32)
    by (bit_vector)
    requires
        x ^ (x >> 13u32) == y ^ (y >> 13u32),
    ensures
        x == y,
{
}

proof fn lemma_xs16_inj(x: u32, y: u32)
    by (bit_vector)
    requires
        x ^ (x >> 16u32) == y ^ (y >> 16u32),
    ensures
        x == y,
{
}

/// Multiplying by `mul` modulo 2^32 is undone by multiplying by `inv`.
proof fn lemma_mul_undo(x: nat, mul: nat, inv: nat, q: nat)
    requires
        x < 0x1_0000_0000,
        mul * inv == q * 0x1_0000_0000 + 1,
    ensures
        ((x * mul) % 0x1_0000_0000) * inv % 0x1_0000_0000 == x,
{
    let m: int = 0x1_0000_0000;
    vstd::arithmetic::div_mod::lemma_mul_mod_noop_left((x * mul) as int, inv as int, m);
    assert((x * mul) * inv == m * (x * q) + x) by (nonlinear_arith)
        requires
            mul * inv == q * 0x1_0000_0000 + 1,
            m == 0x1_0000_0000,
    ;
    vstd::arithmetic::div_mod::lemma_mod_multiples_vanish((x * q) as int, x as int, m);
    vstd::arithmetic::div_mod::lemma_small_mod(x, m as nat);
}

proof fn lemma_mul_inj(x: nat, y: nat, mul: nat, inv: nat, q: nat)
    requires
        x < 0x1_0000_0000,
        y < 0x1_0000_0000,
        mul * inv == q * 0x1_0000_0000 + 1,
        (x * mul) % 0x1_0000_0000 == (y * mul) % 0x1_0000_0000,
    ensures
        x == y,
{
    lemma_mul_undo(x, mul, inv, q);
    lemma_mul_undo(y, mul, inv, q);
}

/// Adding `v` modulo 2^32 is injective on residues.
proof fn lemma_add_inj(u1: nat, u2: nat, v: nat)
    requires
        u1 < 0x1_0000_0000,
        u2 < 0x1_0000_0000,
        v < 0x1_0000_0000,
        (u1 + v) % 0x1_0000_0000 == (u2 + v) % 0x1_0000_0000,
    ensures
        u1 == u2,
{
    lemma_wrap_once(u1 + v);
    lemma_wrap_once(u2 + v);
}

proof fn lemma_wrap_once(z: nat)
    requires
        z < 2 * 0x1_0000_0000,
    ensures
        z % 0x1_0000_0000 == if z < 0x1_0000_0000 { z } else { (z - 0x1_0000_0000) as nat },
{
    let m: int = 0x1_0000_0000;
    if z < m {
        vstd::arithmetic::div_mod::lemma_small_mod(z, m as nat);
    } else {
        vstd::arithmetic::div_mod::lemma_mod_add_multiples_vanish(z - m, m);
        vstd::arithmetic::div_mod::lemma_small_mod((z - m) as nat, m as nat);
    }
}

/// The hash after its first step, `x0`, determines the rest.
proof fn lemma_noise_tail(x: u32, y: u32)
    requires
        ({
            let x1 = x ^ (x >> 13u32);
            let y1 = y ^ (y >> 13u32);
            let x2 = ((x1 as nat * 1_274_126_177) % 0x1_0000_0000) as u32;
            let y2 = ((y1 as nat * 1_274_126_177) % 0x1_0000_0000) as u32;
            x2 ^ (x2 >> 16u32) == y2 ^ (y2 >> 16u32)
        }),
    ensures
        x == y,
{
    let x1 = x ^ (x >> 13u32);
    let y1 = y ^ (y >> 13u32);
    let x2 = ((x1 as nat * 1_274_126_177) % 0x1_0000_0000) as u32;
    let y2 = ((y1 as nat * 1_274_126_177) % 0x1_0000_0000) as u32;
    lemma_xs16_inj(x2, y2);
    lemma_mul_inj(x1 as nat, y1 as nat, 1_274_126_177, 1_406_485_665, 417_241_874);
    lemma_xs13_inj(x, y);
}

/// For a fixed second seed, different first seeds give different noise; and
/// for a fixed first seed, different second seeds do (each step of the hash
/// is a bijection of `u32`).
pub proof fn law_noise_injective(a1: u32, a2: u32, b1: u32, b2: u32)
    ensures
        a1 != a2 ==> noise_of(a1, b1) != noise_of(a2, b1),
        b1 != b2 ==> noise_of(a1, b1) != noise_of(a1, b2),
{
    let m: int = 0x1_0000_0000;
    let ua1 = (a1 as nat * 374_761_393) % 0x1_0000_0000;
    let ua2 = (a2 as nat * 374_761_393) % 0x1_0000_0000;
    let vb1 = (b1 as nat * 668_265_263) % 0x1_0000_0000;
    let vb2 = (b2 as nat * 668_265_263) % 0x1_0000_0000;
    vstd::arithmetic::div_mod::lemma_add_mod_noop((a1 as nat * 374_761_393) as int, (b1 as nat * 668_265_263) as int, m);
    vstd::arithmetic::div_mod::lemma_add_mod_noop((a2 as nat * 374_761_393) as int, (b1 as nat * 668_265_263) as int, m);
    vstd::arithmetic::div_mod::lemma_add_mod_noop((a1 as nat * 374_761_393) as int, (b2 as nat * 668_265_263) as int, m);
    if a1 != a2 && noise_of(a1, b1) == noise_of(a2, b1) {
        let x = ((a1 as nat * 374_761_393 + b1 as nat * 668_265_263) % 0x1_0000_0000) as u32;
        let y = ((a2 as nat * 374_761_393 + b1 as nat * 668_265_263) % 0x1_0000_0000) as u32;
        lemma_noise_tail(x, y);
        lemma_add_inj(ua1, ua2, vb1);
        lemma_mul_inj(a1 as nat, a2 as nat, 374_761_393, 2_923_004_241, 255_049_472);
    }
    if b1 != b2 && noise_of(a1, b1) == noise_of(a1, b2) {
        let x = ((a1 as nat * 374_761_393 + b1 as nat * 668_265_263) % 0x1_0000_0000) as u32;
        let y = ((a1 as nat * 374_761_393 + b2 as nat * 668_265_263) % 0x1_0000_0000) as u32;
        lemma_noise_tail(x, y);
        assert((vb1 + ua1) % 0x1_0000_0000 == (vb2 + ua1) % 0x1_0000_0000);
        lemma_add_inj(vb1, vb2, ua1);
        lemma_mul_inj(b1 as nat, b2 as nat, 668_265_263, 2_701_016_015, 420_258_189);
    }
}

// ---------------------------------------------------------------- sizes

/// The spacing of the nearest-even rounding of `b` to a 53-bit significand:
/// 1 below 2^53, doubling with every further bit.
pub open spec fn ulp_of(b: nat) -> nat
    decreases b,
{
    if b < 0x20_0000_0000_0000 {
        1
    } else {
        2 * ulp_of(b / 2)
    }
}

/// `b` rounded to the nearest value with a 53-bit significand, ties to even:
/// the value a `u64` byte count takes as an `f64`.
pub open spec fn as_f64_value(b: nat) -> nat {
    let u = ulp_of(b);
    let r = b % u;
    let base = (b - r) as nat;
    if 2 * r > u || (2 * r == u && (base / u) % 2 == 1) {
        base + u
    } else {
        base
    }
}

/// `1024^k`.
pub open spec fn pow1024(k: nat) -> nat
    decreases k,
{
    if k == 0 {
        1
    } else {
        1024 * pow1024((k - 1) as nat)
    }
}

/// The unit index for value `v`: divide by 1024 while the value is at least
/// 1024, at most up to TB.
pub open spec fn unit_of(v: nat, u: nat) -> nat
    decreases 4 - u,
{
    if u < 4 && v >= pow1024(u + 1) {
        unit_of(v, u + 1)
    } else {
        u
    }
}

/// `n / d` rounded to the nearest integer, ties to even.
pub open spec fn round_half_even(n: nat, d: nat) -> nat {
    let q = n / d;
    let r = n % d;
    if 2 * r > d || (2 * r == d && q % 2 == 1) {
        q + 1
    } else {
        q
    }
}

/// Unit names.
pub open spec fn unit_name(u: nat) -> Seq<char> {
    if u == 0 {
        seq!['B']
    } else if u == 1 {
        seq!['K', 'B']
    } else if u == 2 {
        seq!['M', 'B']
    } else if u == 3 {
        seq!['G', 'B']
    } else {
        seq!['T', 'B']
    }
}

/// Human-readable byte size, e.g. `4.2 MB`, `512 KB`, `900 B`: below 1 KiB the
/// plain count; otherwise the size (as a double) divided by 1024 per unit step,
/// rounded to one decimal (ties to even), the decimal left out when it is 0.
pub open spec fn fmt_size_of(bytes: nat) -> Seq<char> {
    if bytes < 1024 {
        dec_of(bytes) + seq![' ', 'B']
    } else {
        let v = as_f64_value(bytes);
        let u = unit_of(v, 0);
        let q = round_half_even(v * 10, pow1024(u));
        if q % 10 == 0 {
            dec_of(q / 10) + seq![' '] + unit_name(u)
        } else {
            dec_of(q / 10) + seq!['.', digit_char(q % 10), ' '] + unit_name(u)
        }
    }
}

/// `2^k`.
pub open spec fn p2(k: nat) -> nat
    decreases k,
{
    if k == 0 {
        1
    } else {
        2 * p2((k - 1) as nat)
    }
}

proof fn lemma_ulp_bound(b: nat, k: nat)
    requires
        b < 0x20_0000_0000_0000 * p2(k),
    ensures
        1 <= ulp_of(b) <= p2(k),
    decreases k,
{
    lemma_p2_pos(k);
    if b >= 0x20_0000_0000_0000 {
        if k == 0 {
            assert(false);
        }
        assert(p2(k) == 2 * p2((k - 1) as nat));
        lemma_ulp_bound(b / 2, (k - 1) as nat);
    }
}

proof fn lemma_p2_pos(k: nat)
    ensures
        p2(k) >= 1,
    decreases k,
{
    if k > 0 {
        lemma_p2_pos((k - 1) as nat);
    }
}

fn ulp(b: u64) -> (r: u64)
    ensures
        r as nat == ulp_of(b as nat),
        1 <= r <= 2048,
    decreases b,
{
    proof {
        assert(p2(11) == 2048) by {
            reveal_with_fuel(p2, 12);
        }
        lemma_ulp_bound(b as nat, 11);
    }
    if b < 0x20_0000_0000_0000 {
        1
    } else {
        let h = ulp(b / 2);
        proof {
            lemma_ulp_bound((b / 2) as nat, 10);
            assert(p2(10) == 1024) by {
                reveal_with_fuel(p2, 11);
            }
        }
        2 * h
    }
}

/// Human-readable byte size, e.g. 4.2 MB, 512 KB, 900 B (see `fmt_size_of`).
pub fn fmt_size(bytes: u64) -> (r: String)
    ensures
        r@ == fmt_size_of(bytes as nat),
{
    let mut out = String::new();
    if bytes < 1024 {
        push_dec(&mut out, bytes as u128);
        push_char(&mut out, ' ');
        push_char(&mut out, 'B');
        return out;
    }
    let u = ulp(bytes) as u128;
    let b = bytes as u128;
    let r = b % u;
    let base = b - r;
    let v: u128 = if 2 * r > u || (2 * r == u && (base / u) % 2 == 1) { base + u } else { base };
    assert(v == as_f64_value(bytes as nat));
    let mut unit: u128 = 0;
    let mut p: u128 = 1;
    while unit < 4 && v >= p * 1024
        invariant
            unit <= 4,
            p == pow1024(unit as nat),
            1 <= p <= 0x100_0000_0000,
            v <= 0x1_0000_0000_0000_0800,
            unit_of(v as nat, 0) == unit_of(v as nat, unit as nat),
        decreases 4 - unit,
    {
        assert(pow1024((unit + 1) as nat) == 1024 * pow1024(unit as nat));
        p = p * 1024;
        unit += 1;
        proof {
            if unit < 4 {
                assert(pow1024(4) == 0x100_0000_0000) by {
                    reveal_with_fuel(pow1024, 5);
                }
                lemma_pow1024_mono(unit as nat, 4);
            }
        }
    }
    assert(unit_of(v as nat, unit as nat) == unit as nat);
    let n = v * 10;
    let q0 = n / p;
    let rem = n % p;
    let q = if 2 * rem > p || (2 * rem == p && q0 % 2 == 1) { q0 + 1 } else { q0 };
    assert(q == round_half_even(v as nat * 10, pow1024(unit as nat)));
    push_dec(&mut out, q / 10);
    if q % 10 != 0 {
        push_char(&mut out, '.');
        push_char(&mut out, digit(q % 10));
    }
    push_char(&mut out, ' ');
    let ghost pre = out@;
    if unit == 0 {
        push_char(&mut out, 'B');
    } else {
        let c = if unit == 1 { 'K' } else if unit == 2 { 'M' } else if unit == 3 { 'G' } else { 'T' };
        push_char(&mut out, c);
        push_char(&mut out, 'B');
    }
    assert(out@ =~= fmt_size_of(bytes as nat));
    out
}

proof fn lemma_pow1024_mono(a: nat, b: nat)
    requires
        a <= b,
    ensures
        pow1024(a) <= pow1024(b),
    decreases b - a,
{
    if a < b {
        lemma_pow1024_mono(a, (b - 1) as nat);
    }
}

} // verus!
