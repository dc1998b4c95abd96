//! The generator engine: a lagged additive generator over 32-bit words with a
//! fixed seeding and warm-up procedure.
//!
//! The mathematical model of a generator is its *window*: the 34 most recent
//! terms of the sequence, oldest first. Every later term, and therefore every
//! later draw, is a function of the window alone.

use crate::binary64::{scale, scale_into_range, DRAW_MAX};
use vstd::prelude::*;

verus! {

/// Number of terms the generator remembers.
pub const WINDOW: usize = 34;

/// Number of draws that seeding performs and discards.
pub const WARM_UP: usize = 310;

/// Modulus of the recurrence that fills the first terms from the seed.
pub const LEHMER_MODULUS: u64 = 2147483647;

/// Multiplier of the recurrence that fills the first terms from the seed.
pub const LEHMER_MULTIPLIER: u64 = 16807;

/// The term that follows a window: the sum, modulo 2^32, of the terms 31 and
/// 3 places back.
pub open spec fn next_term(w: Seq<u32>) -> u32 {
    ((w[3] + w[31]) % 0x1_0000_0000) as u32
}

/// The window after one more term has been produced.
pub open spec fn step(w: Seq<u32>) -> Seq<u32> {
    w.drop_first().push(next_term(w))
}

/// The window after `n` more terms have been produced.
pub open spec fn advance(w: Seq<u32>, n: nat) -> Seq<u32>
    decreases n,
{
    if n == 0 {
        w
    } else {
        step(advance(w, (n - 1) as nat))
    }
}

/// The value of the draw made after `i` earlier draws, starting from window
/// `w`: the new term without its lowest bit.
pub open spec fn draw_at(w: Seq<u32>, i: nat) -> u32 {
    (next_term(advance(w, i)) / 2) as u32
}

/// The first `n` draws made from window `w`.
pub open spec fn draws(w: Seq<u32>, n: nat) -> Seq<u32> {
    Seq::new(n, |i: int| draw_at(w, i as nat))
}

/// Term `i` of the sequence as the seed alone determines it, before warm-up.
pub open spec fn initial_term(seed: u32, i: nat) -> u32
    decreases i,
{
    if i == 0 {
        seed
    } else if i <= 30 {
        ((16807 * initial_term(seed, (i - 1) as nat)) % 2147483647) as u32
    } else if i <= 33 {
        initial_term(seed, (i - 31) as nat)
    } else {
        0
    }
}

/// The window that the seed alone determines, before warm-up.
pub open spec fn initial_window(seed: u32) -> Seq<u32> {
    Seq::new(34, |i: int| initial_term(seed, i as nat))
}

/// The window of a freshly seeded generator: the initial window after the
/// warm-up draws.
pub open spec fn seeded_window(seed: u32) -> Seq<u32> {
    advance(initial_window(seed), 310)
}

/// Producing `i` terms and then `j` more is producing `i + j` terms.
pub proof fn lemma_advance_adds(w: Seq<u32>, i: nat, j: nat)
    ensures
        advance(advance(w, i), j) == advance(w, i + j),
    decreases j,
{
    if j > 0 {
        lemma_advance_adds(w, i, (j - 1) as nat);
    }
}

/// The draw made after `i` and then `j` earlier draws is draw `i + j`.
pub proof fn lemma_draw_after(w: Seq<u32>, i: nat, j: nat)
    ensures
        draw_at(advance(w, i), j) == draw_at(w, i + j),
{
    lemma_advance_adds(w, i, j);
}

/// The window of a well-formed generator has 34 terms.
pub proof fn lemma_window_length(e: Php5Random)
    requires
        e.wf(),
    ensures
        e.window().len() == 34,
{
}

/// A window keeps its 34 terms however far it advances.
pub proof fn lemma_advance_keeps_length(w: Seq<u32>, n: nat)
    requires
        w.len() == 34,
    ensures
        advance(w, n).len() == 34,
    decreases n,
{
    if n > 0 {
        lemma_advance_keeps_length(w, (n - 1) as nat);
    }
}

/// Each term after the first 34 is the sum, modulo 2^32, of the terms 31 and
/// 3 places before it: the newest term of a window that has advanced is the
/// sum of two terms of the window before.
pub proof fn lemma_lagged_sum(w: Seq<u32>, n: nat)
    requires
        w.len() == 34,
    ensures
        advance(w, n + 1)[33] == ((advance(w, n)[3] + advance(w, n)[31]) % 0x1_0000_0000) as u32,
        forall|i: int| 0 <= i < 33 ==> #[trigger] advance(w, n + 1)[i] == advance(w, n)[i + 1],
{
    lemma_advance_keeps_length(w, n);
}

/// Seeding determines every draw: two generators seeded with the same value,
/// whatever they held before, make the same first `n` draws.
pub proof fn lemma_reseeding_reproduces(a: Php5Random, b: Php5Random, seed: u32, n: nat)
    requires
        a.window() == seeded_window(seed),
        b.window() == seeded_window(seed),
    ensures
        draws(a.window(), n) == draws(b.window(), n),
        draws(a.window(), n) == draws(seeded_window(seed), n),
{
}

/// Two generators with the same window make the same draws from then on,
/// wherever in their buffers the window lies.
pub proof fn lemma_window_determines_draws(a: Php5Random, b: Php5Random, n: nat)
    requires
        a.window() == b.window(),
    ensures
        draws(a.window(), n) == draws(b.window(), n),
{
}

/// A window of zeros stays a window of zeros.
proof fn lemma_zeros_stay(w: Seq<u32>, n: nat)
    requires
        w.len() == 34,
        forall|i: int| 0 <= i < 34 ==> w[i] == 0,
    ensures
        advance(w, n).len() == 34,
        forall|i: int| 0 <= i < 34 ==> advance(w, n)[i] == 0,
    decreases n,
{
    if n > 0 {
        lemma_zeros_stay(w, (n - 1) as nat);
    }
}

/// The seed zero determines zero for every initial term.
proof fn lemma_zero_seed_starts_at_zero(i: nat)
    ensures
        initial_term(0, i) == 0,
    decreases i,
{
    if 0 < i <= 30 {
        lemma_zero_seed_starts_at_zero((i - 1) as nat);
    } else if 30 < i <= 33 {
        lemma_zero_seed_starts_at_zero((i - 31) as nat);
    }
}

/// Seeded with zero, the generator draws zero for ever.
pub proof fn lemma_zero_seed_draws_zero(i: nat)
    ensures
        draw_at(seeded_window(0), i) == 0,
{
    let w = initial_window(0);
    assert forall|j: int| 0 <= j < 34 implies w[j] == 0 by {
        lemma_zero_seed_starts_at_zero(j as nat);
    }
    lemma_zeros_stay(w, 310);
    lemma_zeros_stay(seeded_window(0), i);
}

/// Generator state: a circular buffer of the 34 most recent terms and the
/// position of the oldest one.
pub struct Php5Random {
    r: Vec<u32>,
    k: usize,
}

impl Php5Random {
    /// The buffer holds 34 terms and the position lies inside it. Every
    /// generator that this module hands out is well formed.
    pub closed spec fn wf(&self) -> bool {
        self.r.len() == 34 && self.k < 34
    }

    /// The 34 most recent terms, oldest first.
    pub closed spec fn window(&self) -> Seq<u32> {
        Seq::new(34, |i: int| self.r@[(self.k + i) % 34])
    }

    /// A generator seeded with `seed`, warmed up and ready to draw.
    pub fn new(seed: u32) -> (rng: Php5Random)
        ensures
            rng.wf(),
            rng.window() == seeded_window(seed),
    {
        let mut rng = Php5Random { r: Vec::new(), k: 0 };
        rng.srand(seed);
        rng
    }

    /// Seeds the generator anew, whatever it held before: fills the window
    /// from the seed, then performs and discards the warm-up draws.
    pub fn srand(&mut self, seed: u32)
        ensures
            final(self).wf(),
            final(self).window() == seeded_window(seed),
    {
        let mut r: Vec<u32> = vec![0u32; 34];
        r.set(0, seed);
        let mut i: usize = 1;
        while i < 31
            invariant
                1 <= i <= 31,
                r.len() == 34,
                forall|j: int| 0 <= j < i ==> r[j] == initial_term(seed, j as nat),
            decreases 31 - i,
        {
            let t = ((LEHMER_MULTIPLIER * (r[i - 1] as u64)) % LEHMER_MODULUS) as u32;
            r.set(i, t);
            i += 1;
        }
        while i < 34
            invariant
                31 <= i <= 34,
                r.len() == 34,
                forall|j: int| 0 <= j < i ==> r[j] == initial_term(seed, j as nat),
            decreases 34 - i,
        {
            let t = r[i - 31];
            r.set(i, t);
            i += 1;
        }
        self.r = r;
        self.k = 0;
        assert(self.window() =~= initial_window(seed));
        let mut n: usize = 0;
        while n < WARM_UP
            invariant
                n <= WARM_UP,
                self.wf(),
                self.window() == advance(initial_window(seed), n as nat),
            decreases WARM_UP - n,
        {
            self.rand();
            n += 1;
        }
    }

    /// Draws the next value: produces the next term, remembers it in place of
    /// the oldest one, and returns it without its lowest bit.
    pub fn rand(&mut self) -> (out: u32)
        requires
            old(self).wf(),
        ensures
            final(self).wf(),
            out == draw_at(old(self).window(), 0),
            out < 0x8000_0000,
            final(self).window() == step(old(self).window()),
    {
        let a = self.r[(self.k + 3) % 34];
        let b = self.r[(self.k + 31) % 34];
        let x = a.wrapping_add(b);
        assert(x >> 1 == x / 2) by (bit_vector);
        self.r.set(self.k, x);
        self.k = (self.k + 1) % 34;
        assert(self.window() =~= step(old(self).window()));
        x >> 1
    }

    /// Draws the next value and maps it into the range from `min` to `max`
    /// as double-precision arithmetic does, fraction dropped. The largest
    /// draw yields `max + 1`. With `max` below `min` the same arithmetic
    /// runs on the inverted range.
    pub fn rand_range(&mut self, min: u32, max: u32) -> (out: u32)
        requires
            old(self).wf(),
        ensures
            final(self).wf(),
            out == scale_into_range(min, max, draw_at(old(self).window(), 0)),
            min <= max ==> min <= out <= max + 1,
            min > max ==> max < out <= min,
            draw_at(old(self).window(), 0) == 0 ==> out == min,
            draw_at(old(self).window(), 0) == DRAW_MAX && max < u32::MAX ==> out == max + 1,
            final(self).window() == step(old(self).window()),
    {
        let r = self.rand();
        scale(min, max, r)
    }
}

} // verus!
