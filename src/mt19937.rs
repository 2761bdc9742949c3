use vstd::prelude::*;

use vstd::wrapping::u32_specs::{wrapping_add, wrapping_mul};

verus! {

/// Degree of recurrence: the number of state words.
pub const N: usize = 624;
/// Middle word offset of the twist.
pub const M: usize = 397;
/// Coefficients of the twist matrix.
pub const A: u32 = 0x9908B0DF;
/// Tempering shifts and masks.
pub const U: u32 = 11;
pub const D: u32 = 0xFFFFFFFF;
pub const S: u32 = 7;
pub const B: u32 = 0x9D2C5680;
pub const T: u32 = 15;
pub const C: u32 = 0xEFC60000;
pub const L: u32 = 18;
/// Multiplier of the seeding recurrence.
pub const F: u32 = 1812433253;
/// The low 31 bits and the top bit of a word.
pub const LOWER_MASK: u32 = 0x7FFFFFFF;
pub const UPPER_MASK: u32 = 0x80000000;

/// Word `i` of the state seeded with `seed`.
pub open spec fn init_word(seed: u32, i: nat) -> u32
    decreases i,
{
    if i == 0 {
        seed
    } else {
        let prev = init_word(seed, (i - 1) as nat);
        wrapping_add(wrapping_mul(F, prev ^ (prev >> 30u32)), i as u32)
    }
}

/// The new value of word `i` in the middle of a twist of `s`.
pub open spec fn twist_word(s: Seq<u32>, i: int) -> u32 {
    let x = (s[i] & UPPER_MASK) | (s[(i + 1) % (N as int)] & LOWER_MASK);
    let x_a = if x % 2 != 0 {
        (x >> 1u32) ^ A
    } else {
        x >> 1u32
    };
    s[(i + M as int) % (N as int)] ^ x_a
}

/// The state after the first `n` words of a twist, done in place in order.
pub open spec fn twist_upto(s: Seq<u32>, n: nat) -> Seq<u32>
    decreases n,
{
    if n == 0 {
        s
    } else {
        let t = twist_upto(s, (n - 1) as nat);
        t.update(n - 1, twist_word(t, n - 1))
    }
}

/// The tempering of a state word into an output.
pub open spec fn temper(y: u32) -> u32 {
    let y1 = y ^ ((y >> U) & D);
    let y2 = y1 ^ ((y1 << S) & B);
    let y3 = y2 ^ ((y2 << T) & C);
    y3 ^ (y3 >> L)
}

/// The 32-bit Mersenne Twister.
pub struct MT19937 {
    state: Vec<u32>,
    index: usize,
}

impl MT19937 {
    /// The state words.
    pub closed spec fn words(&self) -> Seq<u32> {
        self.state@
    }

    /// The position of the next word to temper; `N` when a twist is due.
    pub closed spec fn position(&self) -> nat {
        self.index as nat
    }

    /// The generator's invariant: `N` words, and a position of at most `N`.
    pub open spec fn wf(&self) -> bool {
        self.words().len() == N && self.position() <= N
    }

    /// A generator seeded with `seed`: word 0 is the seed, each next word
    /// `F * (w ^ (w >> 30)) + i` (wrapping), and a twist due first.
    pub fn new(seed: u32) -> (r: MT19937)
        ensures
            r.wf(),
            r.words() == Seq::new(N as nat, |i: int| init_word(seed, i as nat)),
            r.position() == N,
    {
        let mut state: Vec<u32> = Vec::with_capacity(N);
        state.push(seed);
        let mut i: usize = 1;
        while i < N
            invariant
                1 <= i <= N,
                state@ == Seq::new(i as nat, |j: int| init_word(seed, j as nat)),
            decreases N - i,
        {
            let prev = state[i - 1];
            state.push(F.wrapping_mul(prev ^ (prev >> 30)).wrapping_add(i as u32));
            i += 1;
            assert(state@ =~= Seq::new(i as nat, |j: int| init_word(seed, j as nat)));
        }
        MT19937 { state, index: N }
    }

    /// Regenerates all `N` words in place and resets the position.
    fn twist(&mut self)
        requires
            old(self).wf(),
        ensures
            final(self).wf(),
            final(self).words() == twist_upto(old(self).words(), N as nat),
            final(self).position() == 0,
    {
        let mut i: usize = 0;
        while i < N
            invariant
                self.state@.len() == N,
                i <= N,
                self.state@ == twist_upto(old(self).state@, i as nat),
            decreases N - i,
        {
            let x = (self.state[i] & UPPER_MASK) | (self.state[(i + 1) % N] & LOWER_MASK);
            let mut x_a = x >> 1;
            if x % 2 != 0 {
                x_a = x_a ^ A;
            }
            let v = self.state[(i + M) % N] ^ x_a;
            self.state.set(i, v);
            i += 1;
        }
        self.index = 0;
    }

    /// The next output: the tempered word at the position (after a twist
    /// when one is due), moving the position on by one.
    fn extract_number(&mut self) -> (r: u32)
        requires
            old(self).wf(),
        ensures
            final(self).wf(),
            final(self).words() == if old(self).position() >= N {
                twist_upto(old(self).words(), N as nat)
            } else {
                old(self).words()
            },
            final(self).position() == (if old(self).position() >= N {
                0
            } else {
                old(self).position()
            }) + 1,
            r == temper(final(self).words()[final(self).position() - 1]),
    {
        if self.index >= N {
            self.twist();
        }
        let y0 = self.state[self.index];
        let y1 = y0 ^ ((y0 >> U) & D);
        let y2 = y1 ^ ((y1 << S) & B);
        let y3 = y2 ^ ((y2 << T) & C);
        let y = y3 ^ (y3 >> L);
        self.index += 1;
        y
    }

    /// The next output, always present: the generator never runs dry.
    pub fn next(&mut self) -> (r: Option<u32>)
        requires
            old(self).wf(),
        ensures
            final(self).wf(),
            final(self).words() == if old(self).position() >= N {
                twist_upto(old(self).words(), N as nat)
            } else {
                old(self).words()
            },
            final(self).position() == (if old(self).position() >= N {
                0
            } else {
                old(self).position()
            }) + 1,
            r == Some(temper(final(self).words()[final(self).position() - 1])),
    {
        Some(self.extract_number())
    }
}

} // verus!
