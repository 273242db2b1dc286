//! The ISAAC random number generator (32-bit words).
//!
//! Bob Jenkins, "ISAAC: A fast cryptographic random number generator",
//! http://www.burtleburtle.net/bob/rand/isaacafa.html
//!
//! The whole generator is specified over `IsaacState`: the key schedule
//! (`mix32`, `schedule32`, `scheduled_mem32`), the refill of the output
//! buffer (`step32`, `steps32`, `refill32`) and the read of one word
//! (`next_state32`, `next_output32`). Every executable operation is proved
//! to compute exactly these functions.

use vstd::prelude::*;

verus! {

/// The eight working words `a..h` of the ISAAC key schedule.
#[derive(Clone, Copy)]
pub struct Mix32 {
    pub a: u32,
    pub b: u32,
    pub c: u32,
    pub d: u32,
    pub e: u32,
    pub f: u32,
    pub g: u32,
    pub h: u32,
}

/// The abstract state of an `IsaacRng`: the number of unread words `cnt`,
/// the output buffer `rsl`, the internal memory `mem` and the three
/// accumulators `a`, `b`, `c`.
pub struct IsaacState {
    pub cnt: u32,
    pub rsl: Seq<u32>,
    pub mem: Seq<u32>,
    pub a: u32,
    pub b: u32,
    pub c: u32,
}

/// The accumulators and buffers while the output buffer is being refilled.
pub struct Core32 {
    pub a: u32,
    pub b: u32,
    pub mem: Seq<u32>,
    pub rsl: Seq<u32>,
}

/// One round of the ISAAC mixing function.
pub open spec fn mix32(m: Mix32) -> Mix32 {
    let (a, b, c, d, e, f, g, h) = (m.a, m.b, m.c, m.d, m.e, m.f, m.g, m.h);
    let a = a ^ (b << 11u32);
    let d = d.wrapping_add(a);
    let b = b.wrapping_add(c);
    let b = b ^ (c >> 2u32);
    let e = e.wrapping_add(b);
    let c = c.wrapping_add(d);
    let c = c ^ (d << 8u32);
    let f = f.wrapping_add(c);
    let d = d.wrapping_add(e);
    let d = d ^ (e >> 16u32);
    let g = g.wrapping_add(d);
    let e = e.wrapping_add(f);
    let e = e ^ (f << 10u32);
    let h = h.wrapping_add(e);
    let f = f.wrapping_add(g);
    let f = f ^ (g >> 4u32);
    let a = a.wrapping_add(f);
    let g = g.wrapping_add(h);
    let g = g ^ (h << 8u32);
    let b = b.wrapping_add(g);
    let h = h.wrapping_add(a);
    let h = h ^ (a >> 9u32);
    let c = c.wrapping_add(h);
    let a = a.wrapping_add(b);
    Mix32 { a, b, c, d, e, f, g, h }
}

/// All eight words set to the golden ratio.
pub open spec fn golden32() -> Mix32 {
    Mix32 {
        a: 0x9e3779b9,
        b: 0x9e3779b9,
        c: 0x9e3779b9,
        d: 0x9e3779b9,
        e: 0x9e3779b9,
        f: 0x9e3779b9,
        g: 0x9e3779b9,
        h: 0x9e3779b9,
    }
}

/// The golden ratio scrambled by four rounds of mixing.
pub open spec fn scrambled32() -> Mix32 {
    mix32(mix32(mix32(mix32(golden32()))))
}

/// Adds the `i`-th chunk of eight words of `src` to `m`, word by word.
pub open spec fn add_chunk32(m: Mix32, src: Seq<u32>, i: int) -> Mix32 {
    Mix32 {
        a: m.a.wrapping_add(src[8 * i]),
        b: m.b.wrapping_add(src[8 * i + 1]),
        c: m.c.wrapping_add(src[8 * i + 2]),
        d: m.d.wrapping_add(src[8 * i + 3]),
        e: m.e.wrapping_add(src[8 * i + 4]),
        f: m.f.wrapping_add(src[8 * i + 5]),
        g: m.g.wrapping_add(src[8 * i + 6]),
        h: m.h.wrapping_add(src[8 * i + 7]),
    }
}

/// The eight words of `m` in order.
pub open spec fn mix_words32(m: Mix32) -> Seq<u32> {
    seq![m.a, m.b, m.c, m.d, m.e, m.f, m.g, m.h]
}

/// The working words after `k` chunks of one pass of the key schedule
/// that starts from `m0` (adding the chunks of `src` when `use_src`).
pub open spec fn schedule32(m0: Mix32, src: Seq<u32>, use_src: bool, k: nat) -> Mix32
    decreases k,
{
    if k == 0 {
        m0
    } else {
        let prev = schedule32(m0, src, use_src, (k - 1) as nat);
        mix32(if use_src { add_chunk32(prev, src, k - 1) } else { prev })
    }
}

/// The memory words written by the first `k` chunks of such a pass.
pub open spec fn scheduled_mem32(m0: Mix32, src: Seq<u32>, use_src: bool, k: nat) -> Seq<u32>
    decreases k,
{
    if k == 0 {
        Seq::empty()
    } else {
        scheduled_mem32(m0, src, use_src, (k - 1) as nat) + mix_words32(
            schedule32(m0, src, use_src, k),
        )
    }
}

/// One step `j` (`0 <= j < 256`) of the refill of the output buffer.
pub open spec fn step32(k: Core32, j: int) -> Core32 {
    let x = k.mem[j];
    let m2 = if j < 128 { j + 128 } else { j - 128 };
    let r = j % 4;
    let mx = if r == 0 {
        k.a << 13u32
    } else if r == 1 {
        k.a >> 6u32
    } else if r == 2 {
        k.a << 2u32
    } else {
        k.a >> 16u32
    };
    let a = (k.a ^ mx).wrapping_add(k.mem[m2]);
    let y = k.mem[((x >> 2u32) & 255u32) as int].wrapping_add(a).wrapping_add(k.b);
    let mem = k.mem.update(j, y);
    let b = mem[(((y >> 8u32) >> 2u32) & 255u32) as int].wrapping_add(x);
    let rsl = k.rsl.update(j, b);
    Core32 { a, b, mem, rsl }
}

/// The first `n` steps of a refill.
pub open spec fn steps32(k: Core32, n: nat) -> Core32
    decreases n,
{
    if n == 0 {
        k
    } else {
        step32(steps32(k, (n - 1) as nat), n - 1)
    }
}

/// The state after the output buffer has been refilled.
pub open spec fn refill32(s: IsaacState) -> IsaacState {
    let c = s.c.wrapping_add(1);
    let k = steps32(Core32 { a: s.a, b: s.b.wrapping_add(c), mem: s.mem, rsl: s.rsl }, 256);
    IsaacState { cnt: 256, rsl: k.rsl, mem: k.mem, a: k.a, b: k.b, c }
}

/// The state after initialisation: the key schedule fills `mem` (seeded
/// from `rsl` when `use_rsl`, in two passes), then the output buffer is
/// refilled.
pub open spec fn init_spec32(s: IsaacState, use_rsl: bool) -> IsaacState {
    let m0 = scrambled32();
    let mem = if use_rsl {
        let mem1 = scheduled_mem32(m0, s.rsl, true, 32);
        let m1 = schedule32(m0, s.rsl, true, 32);
        scheduled_mem32(m1, mem1, true, 32)
    } else {
        scheduled_mem32(m0, s.rsl, false, 32)
    };
    refill32(IsaacState { cnt: s.cnt, rsl: s.rsl, mem, a: s.a, b: s.b, c: s.c })
}

/// The all-zero state.
pub open spec fn empty32() -> IsaacState {
    IsaacState {
        cnt: 0,
        rsl: Seq::new(256, |i: int| 0u32),
        mem: Seq::new(256, |i: int| 0u32),
        a: 0,
        b: 0,
        c: 0,
    }
}

/// A seed padded with zeros, or cut, to exactly 256 words.
pub open spec fn seed_words32(seed: Seq<u32>) -> Seq<u32> {
    Seq::new(256, |i: int| if i < seed.len() { seed[i] } else { 0u32 })
}

/// The state of a generator built from `seed`.
pub open spec fn seeded32(seed: Seq<u32>) -> IsaacState {
    init_spec32(
        IsaacState { cnt: 0, rsl: seed_words32(seed), mem: empty32().mem, a: 0, b: 0, c: 0 },
        true,
    )
}

/// The state of a generator built from the default fixed seed.
pub open spec fn unseeded32() -> IsaacState {
    init_spec32(empty32(), false)
}

/// The state from which the next word is read: refilled when empty.
pub open spec fn ready32(s: IsaacState) -> IsaacState {
    if s.cnt == 0 {
        refill32(s)
    } else {
        s
    }
}

/// The state after one word has been read.
pub open spec fn next_state32(s: IsaacState) -> IsaacState {
    let r = ready32(s);
    IsaacState { cnt: (r.cnt - 1) as u32, rsl: r.rsl, mem: r.mem, a: r.a, b: r.b, c: r.c }
}

/// The word read from state `s`.
pub open spec fn next_output32(s: IsaacState) -> u32 {
    let r = ready32(s);
    r.rsl[((r.cnt - 1) as u32 % 256) as int]
}

/// The first `n` words read from state `s`.
pub open spec fn stream32(s: IsaacState, n: nat) -> Seq<u32>
    decreases n,
{
    if n == 0 {
        Seq::empty()
    } else {
        seq![next_output32(s)] + stream32(next_state32(s), (n - 1) as nat)
    }
}

/// Well-formed states: buffers of 256 words and at most 256 unread words.
pub open spec fn wf32(s: IsaacState) -> bool {
    s.rsl.len() == 256 && s.mem.len() == 256 && s.cnt <= 256
}


proof fn lemma_steps32_len(k: Core32, n: nat)
    requires
        k.mem.len() == 256,
        k.rsl.len() == 256,
        n <= 256,
    ensures
        steps32(k, n).mem.len() == 256,
        steps32(k, n).rsl.len() == 256,
    decreases n,
{
    if n > 0 {
        lemma_steps32_len(k, (n - 1) as nat);
    }
}

/// Law: refilling the buffer of a well-formed state gives a well-formed
/// state with 256 unread words; the counter `c` goes up by one, wrapping,
/// and `b` starts from `b + c`, wrapping.
pub proof fn law_refill_keeps_wf32(s: IsaacState)
    requires
        wf32(s),
    ensures
        wf32(refill32(s)),
        refill32(s).cnt == 256,
        refill32(s).c == s.c.wrapping_add(1),
        refill32(s) == ({
            let k = steps32(Core32 { a: s.a, b: s.b.wrapping_add(s.c.wrapping_add(1)), mem: s.mem, rsl: s.rsl }, 256);
            IsaacState { cnt: 256, rsl: k.rsl, mem: k.mem, a: k.a, b: k.b, c: s.c.wrapping_add(1) }
        }),
{
    let c = s.c.wrapping_add(1);
    lemma_steps32_len(Core32 { a: s.a, b: s.b.wrapping_add(c), mem: s.mem, rsl: s.rsl }, 256);
}

/// Law: reading a word from a well-formed state leaves a well-formed
/// state; the buffer is refilled exactly when no unread word is left.
pub proof fn law_next_keeps_wf32(s: IsaacState)
    requires
        wf32(s),
    ensures
        wf32(next_state32(s)),
        s.cnt == 0 ==> next_state32(s).cnt == 255,
        s.cnt > 0 ==> next_state32(s).cnt == s.cnt - 1 && next_state32(s).rsl == s.rsl,
{
    let c = s.c.wrapping_add(1);
    lemma_steps32_len(Core32 { a: s.a, b: s.b.wrapping_add(c), mem: s.mem, rsl: s.rsl }, 256);
}

/// Law: a fresh or reseeded generator is well-formed and holds 256 unread
/// words.
pub proof fn law_seeded_wf32(seed: Seq<u32>)
    ensures
        wf32(seeded32(seed)),
        seeded32(seed).cnt == 256,
        wf32(unseeded32()),
        unseeded32().cnt == 256,
{
    let m0 = scrambled32();
    let w = seed_words32(seed);
    lemma_scheduled_mem32_len(m0, w, true, 32);
    let mem1 = scheduled_mem32(m0, w, true, 32);
    let m1 = schedule32(m0, w, true, 32);
    lemma_scheduled_mem32_len(m1, mem1, true, 32);
    let mem = scheduled_mem32(m1, mem1, true, 32);
    lemma_steps32_len(Core32 { a: 0, b: (0 as u32).wrapping_add(1), mem, rsl: w }, 256);
    let e = empty32();
    lemma_scheduled_mem32_len(m0, e.rsl, false, 32);
    let mem0 = scheduled_mem32(m0, e.rsl, false, 32);
    lemma_steps32_len(Core32 { a: 0, b: (0 as u32).wrapping_add(1), mem: mem0, rsl: e.rsl }, 256);
}

/// Law: only the first 256 words of a seed matter; a shorter seed acts as
/// if padded with zeros to 256 words.
pub proof fn law_seed_padding32(seed: Seq<u32>)
    ensures
        seed.len() > 256 ==> seeded32(seed) == seeded32(seed.subrange(0, 256)),
        seed.len() <= 256 ==> seeded32(seed) == seeded32(
            seed + Seq::new((256 - seed.len()) as nat, |i: int| 0u32),
        ),
{
    if seed.len() > 256 {
        assert(seed_words32(seed) =~= seed_words32(seed.subrange(0, 256)));
    } else {
        let padded = seed + Seq::new((256 - seed.len()) as nat, |i: int| 0u32);
        assert(seed_words32(seed) =~= seed_words32(padded));
    }
}

/// A random number generator that uses the ISAAC algorithm.
///
/// The ISAAC algorithm is generally accepted as suitable for
/// cryptographic purposes, but this implementation has not been
/// vetted as such.
#[derive(Clone, Copy)]
pub struct IsaacRng {
    cnt: u32,
    rsl: [u32; 256],
    mem: [u32; 256],
    a: u32,
    b: u32,
    c: u32,
}

impl View for IsaacRng {
    type V = IsaacState;

    closed spec fn view(&self) -> IsaacState {
        IsaacState { cnt: self.cnt, rsl: self.rsl@, mem: self.mem@, a: self.a, b: self.b, c: self.c }
    }
}

fn mix(m: Mix32) -> (r: Mix32)
    ensures
        r == mix32(m),
{
    let (mut a, mut b, mut c, mut d, mut e, mut f, mut g, mut h) = (
        m.a,
        m.b,
        m.c,
        m.d,
        m.e,
        m.f,
        m.g,
        m.h,
    );
    a = a ^ (b << 11u32);
    d = d.wrapping_add(a);
    b = b.wrapping_add(c);
    b = b ^ (c >> 2u32);
    e = e.wrapping_add(b);
    c = c.wrapping_add(d);
    c = c ^ (d << 8u32);
    f = f.wrapping_add(c);
    d = d.wrapping_add(e);
    d = d ^ (e >> 16u32);
    g = g.wrapping_add(d);
    e = e.wrapping_add(f);
    e = e ^ (f << 10u32);
    h = h.wrapping_add(e);
    f = f.wrapping_add(g);
    f = f ^ (g >> 4u32);
    a = a.wrapping_add(f);
    g = g.wrapping_add(h);
    g = g ^ (h << 8u32);
    b = b.wrapping_add(g);
    h = h.wrapping_add(a);
    h = h ^ (a >> 9u32);
    c = c.wrapping_add(h);
    a = a.wrapping_add(b);
    Mix32 { a, b, c, d, e, f, g, h }
}

proof fn lemma_scheduled_mem32_len(m0: Mix32, src: Seq<u32>, use_src: bool, k: nat)
    ensures
        scheduled_mem32(m0, src, use_src, k).len() == 8 * k,
    decreases k,
{
    if k > 0 {
        lemma_scheduled_mem32_len(m0, src, use_src, (k - 1) as nat);
    }
}

/// One pass of the key schedule over all of `mem`.
#[verifier::spinoff_prover]
#[verifier::rlimit(40)]
fn fill_pass32(mem: &mut [u32; 256], src: &[u32; 256], m0: Mix32, use_src: bool) -> (m: Mix32)
    ensures
        final(mem)@ == scheduled_mem32(m0, src@, use_src, 32),
        m == schedule32(m0, src@, use_src, 32),
{
    let mut m = m0;
    let mut i: usize = 0;
    while i < 32
        invariant
            0 <= i <= 32,
            mem@.len() == 256,
            m == schedule32(m0, src@, use_src, i as nat),
            scheduled_mem32(m0, src@, use_src, i as nat).len() == 8 * i,
            forall|k: int|
                0 <= k < 8 * i ==> mem@[k] == scheduled_mem32(m0, src@, use_src, i as nat)[k],
        decreases 32 - i,
    {
        let base = 8 * i;
        if use_src {
            m =
            Mix32 {
                a: m.a.wrapping_add(src[base]),
                b: m.b.wrapping_add(src[base + 1]),
                c: m.c.wrapping_add(src[base + 2]),
                d: m.d.wrapping_add(src[base + 3]),
                e: m.e.wrapping_add(src[base + 4]),
                f: m.f.wrapping_add(src[base + 5]),
                g: m.g.wrapping_add(src[base + 6]),
                h: m.h.wrapping_add(src[base + 7]),
            };
        }
        m = mix(m);
        mem[base] = m.a;
        mem[base + 1] = m.b;
        mem[base + 2] = m.c;
        mem[base + 3] = m.d;
        mem[base + 4] = m.e;
        mem[base + 5] = m.f;
        mem[base + 6] = m.g;
        mem[base + 7] = m.h;
        proof {
            lemma_scheduled_mem32_len(m0, src@, use_src, (i + 1) as nat);
        }
        i = i + 1;
    }
    proof {
        lemma_scheduled_mem32_len(m0, src@, use_src, 32);
        assert(mem@ =~= scheduled_mem32(m0, src@, use_src, 32));
    }
    m
}

impl IsaacRng {
    /// The all-zero generator, to be initialised.
    fn empty() -> (r: IsaacRng)
        ensures
            r@ == empty32(),
    {
        let r = IsaacRng { cnt: 0, rsl: [0u32; 256], mem: [0u32; 256], a: 0, b: 0, c: 0 };
        assert(r@.rsl =~= empty32().rsl);
        assert(r@.mem =~= empty32().mem);
        r
    }

    /// Creates an ISAAC random number generator using the default
    /// fixed seed.
    pub fn new_unseeded() -> (r: IsaacRng)
        ensures
            r@ == unseeded32(),
    {
        let mut rng = IsaacRng::empty();
        rng.init(false);
        rng
    }

    /// Initialises `self`. If `use_rsl` is true, the current value of
    /// `rsl` is the seed, otherwise one is constructed algorithmically
    /// (not randomly).
    fn init(&mut self, use_rsl: bool)
        ensures
            final(self)@ == init_spec32(old(self)@, use_rsl),
    {
        let m0 = mix(mix(mix(mix(Mix32 {
            a: 0x9e3779b9,
            b: 0x9e3779b9,
            c: 0x9e3779b9,
            d: 0x9e3779b9,
            e: 0x9e3779b9,
            f: 0x9e3779b9,
            g: 0x9e3779b9,
            h: 0x9e3779b9,
        }))));
        let src = self.rsl;
        if use_rsl {
            let m1 = fill_pass32(&mut self.mem, &src, m0, true);
            let src2 = self.mem;
            fill_pass32(&mut self.mem, &src2, m1, true);
        } else {
            fill_pass32(&mut self.mem, &src, m0, false);
        }
        self.isaac();
    }

    /// Refills the output buffer `rsl`.
    fn isaac(&mut self)
        ensures
            final(self)@ == refill32(old(self)@),
    {
        self.c = self.c.wrapping_add(1);
        let mut a = self.a;
        let mut b = self.b.wrapping_add(self.c);
        let ghost k0 = Core32 { a, b, mem: self.mem@, rsl: self.rsl@ };
        let mut j: usize = 0;
        while j < 256
            invariant
                0 <= j <= 256,
                self.mem@.len() == 256,
                self.rsl@.len() == 256,
                self.c == old(self).c.wrapping_add(1),
                k0 == (Core32 {
                    a: old(self).a,
                    b: old(self).b.wrapping_add(self.c),
                    mem: old(self).mem@,
                    rsl: old(self).rsl@,
                }),
                steps32(k0, j as nat) == (Core32 { a, b, mem: self.mem@, rsl: self.rsl@ }),
            decreases 256 - j,
        {
            let x = self.mem[j];
            let m2 = if j < 128 {
                j + 128
            } else {
                j - 128
            };
            let r = j % 4;
            let mx = if r == 0 {
                a << 13u32
            } else if r == 1 {
                a >> 6u32
            } else if r == 2 {
                a << 2u32
            } else {
                a >> 16u32
            };
            a = (a ^ mx).wrapping_add(self.mem[m2]);
            assert((x >> 2u32) & 255u32 < 256) by (bit_vector);
            let y = self.mem[((x >> 2u32) & 255u32) as usize].wrapping_add(a).wrapping_add(b);
            self.mem[j] = y;
            assert(((y >> 8u32) >> 2u32) & 255u32 < 256) by (bit_vector);
            b = self.mem[(((y >> 8u32) >> 2u32) & 255u32) as usize].wrapping_add(x);
            self.rsl[j] = b;
            j = j + 1;
        }
        self.a = a;
        self.b = b;
        self.cnt = 256;
    }

    /// Returns the next random word.
    pub fn next_u32(&mut self) -> (r: u32)
        ensures
            final(self)@ == next_state32(old(self)@),
            r == next_output32(old(self)@),
    {
        if self.cnt == 0 {
            self.isaac();
        }
        self.cnt = self.cnt - 1;
        self.rsl[(self.cnt % 256) as usize]
    }

    /// Reseeds the generator: the seed, padded with zeros or cut to 256
    /// words, replaces the whole state.
    pub fn reseed(&mut self, seed: &[u32])
        ensures
            final(self)@ == seeded32(seed@),
    {
        let mut i: usize = 0;
        while i < 256
            invariant
                0 <= i <= 256,
                self.rsl@.len() == 256,
                forall|k: int| 0 <= k < i ==> self.rsl@[k] == seed_words32(seed@)[k],
            decreases 256 - i,
        {
            self.rsl[i] = if i < seed.len() {
                seed[i]
            } else {
                0
            };
            i = i + 1;
        }
        assert(self.rsl@ =~= seed_words32(seed@));
        self.cnt = 0;
        self.a = 0;
        self.b = 0;
        self.c = 0;
        self.init(true);
    }

    /// Creates an ISAAC random number generator with a seed. The seed can
    /// be any length, although the maximum number of words used is 256
    /// and any more are silently ignored.
    pub fn from_seed(seed: &[u32]) -> (r: IsaacRng)
        ensures
            r@ == seeded32(seed@),
    {
        let mut rng = IsaacRng::empty();
        rng.reseed(seed);
        rng
    }
}

} // verus!
