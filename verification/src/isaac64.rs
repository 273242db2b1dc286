//! The ISAAC-64 random number generator (64-bit words).
//!
//! Bob Jenkins, "ISAAC: A fast cryptographic random number generator",
//! http://www.burtleburtle.net/bob/rand/isaacafa.html
//!
//! The whole generator is specified over `Isaac64State`: the key schedule
//! (`mix64`, `schedule64`, `scheduled_mem64`), the refill of the output
//! buffer (`step64`, `steps64`, `refill64`) and the read of one word
//! (`next_state64`, `next_output64`). Every executable operation is proved
//! to compute exactly these functions.

use vstd::prelude::*;

verus! {

/// The eight working words `a..h` of the ISAAC key schedule.
#[derive(Clone, Copy)]
pub struct Mix64 {
    pub a: u64,
    pub b: u64,
    pub c: u64,
    pub d: u64,
    pub e: u64,
    pub f: u64,
    pub g: u64,
    pub h: u64,
}

/// The abstract state of an `Isaac64Rng`: the number of unread words `cnt`,
/// the output buffer `rsl`, the internal memory `mem` and the three
/// accumulators `a`, `b`, `c`.
pub struct Isaac64State {
    pub cnt: usize,
    pub rsl: Seq<u64>,
    pub mem: Seq<u64>,
    pub a: u64,
    pub b: u64,
    pub c: u64,
}

/// The accumulators and buffers while the output buffer is being refilled.
pub struct Core64 {
    pub a: u64,
    pub b: u64,
    pub mem: Seq<u64>,
    pub rsl: Seq<u64>,
}

/// One round of the ISAAC mixing function.
pub open spec fn mix64(m: Mix64) -> Mix64 {
    let (a, b, c, d, e, f, g, h) = (m.a, m.b, m.c, m.d, m.e, m.f, m.g, m.h);
    let a = a.wrapping_sub(e);
    let f = f ^ (h >> 9u64);
    let h = h.wrapping_add(a);
    let b = b.wrapping_sub(f);
    let g = g ^ (a << 9u64);
    let a = a.wrapping_add(b);
    let c = c.wrapping_sub(g);
    let h = h ^ (b >> 23u64);
    let b = b.wrapping_add(c);
    let d = d.wrapping_sub(h);
    let a = a ^ (c << 15u64);
    let c = c.wrapping_add(d);
    let e = e.wrapping_sub(a);
    let b = b ^ (d >> 14u64);
    let d = d.wrapping_add(e);
    let f = f.wrapping_sub(b);
    let c = c ^ (e << 20u64);
    let e = e.wrapping_add(f);
    let g = g.wrapping_sub(c);
    let d = d ^ (f >> 17u64);
    let f = f.wrapping_add(g);
    let h = h.wrapping_sub(d);
    let e = e ^ (g << 14u64);
    let g = g.wrapping_add(h);
    Mix64 { a, b, c, d, e, f, g, h }
}

/// All eight words set to the golden ratio.
pub open spec fn golden64() -> Mix64 {
    Mix64 {
        a: 0x9e3779b97f4a7c13,
        b: 0x9e3779b97f4a7c13,
        c: 0x9e3779b97f4a7c13,
        d: 0x9e3779b97f4a7c13,
        e: 0x9e3779b97f4a7c13,
        f: 0x9e3779b97f4a7c13,
        g: 0x9e3779b97f4a7c13,
        h: 0x9e3779b97f4a7c13,
    }
}

/// The golden ratio scrambled by four rounds of mixing.
pub open spec fn scrambled64() -> Mix64 {
    mix64(mix64(mix64(mix64(golden64()))))
}

/// Adds the `i`-th chunk of eight words of `src` to `m`, word by word.
pub open spec fn add_chunk64(m: Mix64, src: Seq<u64>, i: int) -> Mix64 {
    Mix64 {
        a: m.a.wrapping_add(src[8 * i]),
        b: m.b.wrapping_add(src[8 * i + 1]),
        c: m.c.wrapping_add(src[8 * i + 2]),
        d: m.d.wrapping_add(src[8 * i + 3]),
        e: m.e.wrapping_add(src[8 * i + 4]),
        f: m.f.wrapping_add(src[8 * i + 5]),
        g: m.g.wrapping_add(src[8 * i + 6]),
        h: m.h.wrapping_add(src[8 * i + 7]),
    }
}

/// The eight words of `m` in order.
pub open spec fn mix_words64(m: Mix64) -> Seq<u64> {
    seq![m.a, m.b, m.c, m.d, m.e, m.f, m.g, m.h]
}

/// The working words after `k` chunks of one pass of the key schedule
/// that starts from `m0` (adding the chunks of `src` when `use_src`).
pub open spec fn schedule64(m0: Mix64, src: Seq<u64>, use_src: bool, k: nat) -> Mix64
    decreases k,
{
    if k == 0 {
        m0
    } else {
        let prev = schedule64(m0, src, use_src, (k - 1) as nat);
        mix64(if use_src { add_chunk64(prev, src, k - 1) } else { prev })
    }
}

/// The memory words written by the first `k` chunks of such a pass.
pub open spec fn scheduled_mem64(m0: Mix64, src: Seq<u64>, use_src: bool, k: nat) -> Seq<u64>
    decreases k,
{
    if k == 0 {
        Seq::empty()
    } else {
        scheduled_mem64(m0, src, use_src, (k - 1) as nat) + mix_words64(
            schedule64(m0, src, use_src, k),
        )
    }
}

/// One step `j` (`0 <= j < 256`) of the refill of the output buffer.
pub open spec fn step64(k: Core64, j: int) -> Core64 {
    let x = k.mem[j];
    let m2 = if j < 128 { j + 128 } else { j - 128 };
    let r = j % 4;
    let mx = if r == 0 {
        !(k.a ^ (k.a << 21u64))
    } else if r == 1 {
        k.a ^ (k.a >> 5u64)
    } else if r == 2 {
        k.a ^ (k.a << 12u64)
    } else {
        k.a ^ (k.a >> 33u64)
    };
    let a = mx.wrapping_add(k.mem[m2]);
    let y = k.mem[((x >> 3u64) & 255u64) as int].wrapping_add(a).wrapping_add(k.b);
    let mem = k.mem.update(j, y);
    let b = mem[(((y >> 8u64) >> 3u64) & 255u64) as int].wrapping_add(x);
    let rsl = k.rsl.update(j, b);
    Core64 { a, b, mem, rsl }
}

/// The first `n` steps of a refill.
pub open spec fn steps64(k: Core64, n: nat) -> Core64
    decreases n,
{
    if n == 0 {
        k
    } else {
        step64(steps64(k, (n - 1) as nat), n - 1)
    }
}

/// The state after the output buffer has been refilled.
pub open spec fn refill64(s: Isaac64State) -> Isaac64State {
    let c = s.c.wrapping_add(1);
    let k = steps64(Core64 { a: s.a, b: s.b.wrapping_add(c), mem: s.mem, rsl: s.rsl }, 256);
    Isaac64State { cnt: 256, rsl: k.rsl, mem: k.mem, a: k.a, b: k.b, c }
}

/// The state after initialisation: the key schedule fills `mem` (seeded
/// from `rsl` when `use_rsl`, in two passes), then the output buffer is
/// refilled.
pub open spec fn init_spec64(s: Isaac64State, use_rsl: bool) -> Isaac64State {
    let m0 = scrambled64();
    let mem = if use_rsl {
        let mem1 = scheduled_mem64(m0, s.rsl, true, 32);
        let m1 = schedule64(m0, s.rsl, true, 32);
        scheduled_mem64(m1, mem1, true, 32)
    } else {
        scheduled_mem64(m0, s.rsl, false, 32)
    };
    refill64(Isaac64State { cnt: s.cnt, rsl: s.rsl, mem, a: s.a, b: s.b, c: s.c })
}

/// The all-zero state.
pub open spec fn empty64() -> Isaac64State {
    Isaac64State {
        cnt: 0,
        rsl: Seq::new(256, |i: int| 0u64),
        mem: Seq::new(256, |i: int| 0u64),
        a: 0,
        b: 0,
        c: 0,
    }
}

/// A seed padded with zeros, or cut, to exactly 256 words.
pub open spec fn seed_words64(seed: Seq<u64>) -> Seq<u64> {
    Seq::new(256, |i: int| if i < seed.len() { seed[i] } else { 0u64 })
}

/// The state of a generator built from `seed`.
pub open spec fn seeded64(seed: Seq<u64>) -> Isaac64State {
    init_spec64(
        Isaac64State { cnt: 0, rsl: seed_words64(seed), mem: empty64().mem, a: 0, b: 0, c: 0 },
        true,
    )
}

/// The state of a generator built from the default fixed seed.
pub open spec fn unseeded64() -> Isaac64State {
    init_spec64(empty64(), false)
}

/// The state from which the next word is read: refilled when empty.
pub open spec fn ready64(s: Isaac64State) -> Isaac64State {
    if s.cnt == 0 {
        refill64(s)
    } else {
        s
    }
}

/// The state after one word has been read.
pub open spec fn next_state64(s: Isaac64State) -> Isaac64State {
    let r = ready64(s);
    Isaac64State { cnt: (r.cnt - 1) as usize, rsl: r.rsl, mem: r.mem, a: r.a, b: r.b, c: r.c }
}

/// The word read from state `s`.
pub open spec fn next_output64(s: Isaac64State) -> u64 {
    let r = ready64(s);
    r.rsl[((r.cnt - 1) as usize % 256) as int]
}

/// The first `n` words read from state `s`.
pub open spec fn stream64(s: Isaac64State, n: nat) -> Seq<u64>
    decreases n,
{
    if n == 0 {
        Seq::empty()
    } else {
        seq![next_output64(s)] + stream64(next_state64(s), (n - 1) as nat)
    }
}

/// Well-formed states: buffers of 256 words and at most 256 unread words.
pub open spec fn wf64(s: Isaac64State) -> bool {
    s.rsl.len() == 256 && s.mem.len() == 256 && s.cnt <= 256
}


proof fn lemma_steps64_len(k: Core64, n: nat)
    requires
        k.mem.len() == 256,
        k.rsl.len() == 256,
        n <= 256,
    ensures
        steps64(k, n).mem.len() == 256,
        steps64(k, n).rsl.len() == 256,
    decreases n,
{
    if n > 0 {
        lemma_steps64_len(k, (n - 1) as nat);
    }
}

/// Law: refilling the buffer of a well-formed state gives a well-formed
/// state with 256 unread words; the counter `c` goes up by one, wrapping,
/// and `b` starts from `b + c`, wrapping.
pub proof fn law_refill_keeps_wf64(s: Isaac64State)
    requires
        wf64(s),
    ensures
        wf64(refill64(s)),
        refill64(s).cnt == 256,
        refill64(s).c == s.c.wrapping_add(1),
        refill64(s) == ({
            let k = steps64(Core64 { a: s.a, b: s.b.wrapping_add(s.c.wrapping_add(1)), mem: s.mem, rsl: s.rsl }, 256);
            Isaac64State { cnt: 256, rsl: k.rsl, mem: k.mem, a: k.a, b: k.b, c: s.c.wrapping_add(1) }
        }),
{
    let c = s.c.wrapping_add(1);
    lemma_steps64_len(Core64 { a: s.a, b: s.b.wrapping_add(c), mem: s.mem, rsl: s.rsl }, 256);
}

/// Law: reading a word from a well-formed state leaves a well-formed
/// state; the buffer is refilled exactly when no unread word is left.
pub proof fn law_next_keeps_wf64(s: Isaac64State)
    requires
        wf64(s),
    ensures
        wf64(next_state64(s)),
        s.cnt == 0 ==> next_state64(s).cnt == 255,
        s.cnt > 0 ==> next_state64(s).cnt == s.cnt - 1 && next_state64(s).rsl == s.rsl,
{
    let c = s.c.wrapping_add(1);
    lemma_steps64_len(Core64 { a: s.a, b: s.b.wrapping_add(c), mem: s.mem, rsl: s.rsl }, 256);
}

/// Law: a fresh or reseeded generator is well-formed and holds 256 unread
/// words.
pub proof fn law_seeded_wf64(seed: Seq<u64>)
    ensures
        wf64(seeded64(seed)),
        seeded64(seed).cnt == 256,
        wf64(unseeded64()),
        unseeded64().cnt == 256,
{
    let m0 = scrambled64();
    let w = seed_words64(seed);
    lemma_scheduled_mem64_len(m0, w, true, 32);
    let mem1 = scheduled_mem64(m0, w, true, 32);
    let m1 = schedule64(m0, w, true, 32);
    lemma_scheduled_mem64_len(m1, mem1, true, 32);
    let mem = scheduled_mem64(m1, mem1, true, 32);
    lemma_steps64_len(Core64 { a: 0, b: (0 as u64).wrapping_add(1), mem, rsl: w }, 256);
    let e = empty64();
    lemma_scheduled_mem64_len(m0, e.rsl, false, 32);
    let mem0 = scheduled_mem64(m0, e.rsl, false, 32);
    lemma_steps64_len(Core64 { a: 0, b: (0 as u64).wrapping_add(1), mem: mem0, rsl: e.rsl }, 256);
}

/// Law: only the first 256 words of a seed matter; a shorter seed acts as
/// if padded with zeros to 256 words.
pub proof fn law_seed_padding64(seed: Seq<u64>)
    ensures
        seed.len() > 256 ==> seeded64(seed) == seeded64(seed.subrange(0, 256)),
        seed.len() <= 256 ==> seeded64(seed) == seeded64(
            seed + Seq::new((256 - seed.len()) as nat, |i: int| 0u64),
        ),
{
    if seed.len() > 256 {
        assert(seed_words64(seed) =~= seed_words64(seed.subrange(0, 256)));
    } else {
        let padded = seed + Seq::new((256 - seed.len()) as nat, |i: int| 0u64);
        assert(seed_words64(seed) =~= seed_words64(padded));
    }
}

/// A random number generator that uses ISAAC-64, the 64-bit variant
/// of the ISAAC algorithm.
///
/// The ISAAC algorithm is generally accepted as suitable for
/// cryptographic purposes, but this implementation has not been
/// vetted as such.
#[derive(Clone, Copy)]
pub struct Isaac64Rng {
    cnt: usize,
    rsl: [u64; 256],
    mem: [u64; 256],
    a: u64,
    b: u64,
    c: u64,
}

impl View for Isaac64Rng {
    type V = Isaac64State;

    closed spec fn view(&self) -> Isaac64State {
        Isaac64State { cnt: self.cnt, rsl: self.rsl@, mem: self.mem@, a: self.a, b: self.b, c: self.c }
    }
}

fn mix(m: Mix64) -> (r: Mix64)
    ensures
        r == mix64(m),
{
    let (mut a, mut b, mut c, mut d, mut e, mut f, mut g, mut h) = (
        m.a,
        m.b,
        m.c,
        m.d,
        m.e,
        m.f,
        m.g,
        m.h,
    );
    a = a.wrapping_sub(e);
    f = f ^ (h >> 9u64);
    h = h.wrapping_add(a);
    b = b.wrapping_sub(f);
    g = g ^ (a << 9u64);
    a = a.wrapping_add(b);
    c = c.wrapping_sub(g);
    h = h ^ (b >> 23u64);
    b = b.wrapping_add(c);
    d = d.wrapping_sub(h);
    a = a ^ (c << 15u64);
    c = c.wrapping_add(d);
    e = e.wrapping_sub(a);
    b = b ^ (d >> 14u64);
    d = d.wrapping_add(e);
    f = f.wrapping_sub(b);
    c = c ^ (e << 20u64);
    e = e.wrapping_add(f);
    g = g.wrapping_sub(c);
    d = d ^ (f >> 17u64);
    f = f.wrapping_add(g);
    h = h.wrapping_sub(d);
    e = e ^ (g << 14u64);
    g = g.wrapping_add(h);
    Mix64 { a, b, c, d, e, f, g, h }
}

proof fn lemma_scheduled_mem64_len(m0: Mix64, src: Seq<u64>, use_src: bool, k: nat)
    ensures
        scheduled_mem64(m0, src, use_src, k).len() == 8 * k,
    decreases k,
{
    if k > 0 {
        lemma_scheduled_mem64_len(m0, src, use_src, (k - 1) as nat);
    }
}

/// One pass of the key schedule over all of `mem`.
#[verifier::spinoff_prover]
#[verifier::rlimit(40)]
fn fill_pass64(mem: &mut [u64; 256], src: &[u64; 256], m0: Mix64, use_src: bool) -> (m: Mix64)
    ensures
        final(mem)@ == scheduled_mem64(m0, src@, use_src, 32),
        m == schedule64(m0, src@, use_src, 32),
{
    let mut m = m0;
    let mut i: usize = 0;
    while i < 32
        invariant
            0 <= i <= 32,
            mem@.len() == 256,
            m == schedule64(m0, src@, use_src, i as nat),
            scheduled_mem64(m0, src@, use_src, i as nat).len() == 8 * i,
            forall|k: int|
                0 <= k < 8 * i ==> mem@[k] == scheduled_mem64(m0, src@, use_src, i as nat)[k],
        decreases 32 - i,
    {
        let base = 8 * i;
        if use_src {
            m =
            Mix64 {
                a: m.a.wrapping_add(src[base]),
                b: m.b.wrapping_add(src[base + 1]),
                c: m.c.wrapping_add(src[base + 2]),
                d: m.d.wrapping_add(src[base + 3]),
                e: m.e.wrapping_add(src[base + 4]),
                f: m.f.wrapping_add(src[base + 5]),
                g: m.g.wrapping_add(src[base + 6]),
                h: m.h.wrapping_add(src[base + 7]),
            };
        }
        m = mix(m);
        mem[base] = m.a;
        mem[base + 1] = m.b;
        mem[base + 2] = m.c;
        mem[base + 3] = m.d;
        mem[base + 4] = m.e;
        mem[base + 5] = m.f;
        mem[base + 6] = m.g;
        mem[base + 7] = m.h;
        proof {
            lemma_scheduled_mem64_len(m0, src@, use_src, (i + 1) as nat);
        }
        i = i + 1;
    }
    proof {
        lemma_scheduled_mem64_len(m0, src@, use_src, 32);
        assert(mem@ =~= scheduled_mem64(m0, src@, use_src, 32));
    }
    m
}

impl Isaac64Rng {
    /// The all-zero generator, to be initialised.
    fn empty() -> (r: Isaac64Rng)
        ensures
            r@ == empty64(),
    {
        let r = Isaac64Rng { cnt: 0, rsl: [0u64; 256], mem: [0u64; 256], a: 0, b: 0, c: 0 };
        assert(r@.rsl =~= empty64().rsl);
        assert(r@.mem =~= empty64().mem);
        r
    }

    /// Creates an ISAAC random number generator using the default
    /// fixed seed.
    pub fn new_unseeded() -> (r: Isaac64Rng)
        ensures
            r@ == unseeded64(),
    {
        let mut rng = Isaac64Rng::empty();
        rng.init(false);
        rng
    }

    /// Initialises `self`. If `use_rsl` is true, the current value of
    /// `rsl` is the seed, otherwise one is constructed algorithmically
    /// (not randomly).
    fn init(&mut self, use_rsl: bool)
        ensures
            final(self)@ == init_spec64(old(self)@, use_rsl),
    {
        let m0 = mix(mix(mix(mix(Mix64 {
            a: 0x9e3779b97f4a7c13,
            b: 0x9e3779b97f4a7c13,
            c: 0x9e3779b97f4a7c13,
            d: 0x9e3779b97f4a7c13,
            e: 0x9e3779b97f4a7c13,
            f: 0x9e3779b97f4a7c13,
            g: 0x9e3779b97f4a7c13,
            h: 0x9e3779b97f4a7c13,
        }))));
        let src = self.rsl;
        if use_rsl {
            let m1 = fill_pass64(&mut self.mem, &src, m0, true);
            let src2 = self.mem;
            fill_pass64(&mut self.mem, &src2, m1, true);
        } else {
            fill_pass64(&mut self.mem, &src, m0, false);
        }
        self.isaac64();
    }

    /// Refills the output buffer `rsl`.
    fn isaac64(&mut self)
        ensures
            final(self)@ == refill64(old(self)@),
    {
        self.c = self.c.wrapping_add(1);
        let mut a = self.a;
        let mut b = self.b.wrapping_add(self.c);
        let ghost k0 = Core64 { a, b, mem: self.mem@, rsl: self.rsl@ };
        let mut j: usize = 0;
        while j < 256
            invariant
                0 <= j <= 256,
                self.mem@.len() == 256,
                self.rsl@.len() == 256,
                self.c == old(self).c.wrapping_add(1),
                k0 == (Core64 {
                    a: old(self).a,
                    b: old(self).b.wrapping_add(self.c),
                    mem: old(self).mem@,
                    rsl: old(self).rsl@,
                }),
                steps64(k0, j as nat) == (Core64 { a, b, mem: self.mem@, rsl: self.rsl@ }),
            decreases 256 - j,
        {
            let x = self.mem[j];
            let m2 = if j < 128 {
                j + 128
            } else {
                j - 128
            };
            let r = j % 4;
            let mx = if r == 0 {
                !(a ^ (a << 21u64))
            } else if r == 1 {
                a ^ (a >> 5u64)
            } else if r == 2 {
                a ^ (a << 12u64)
            } else {
                a ^ (a >> 33u64)
            };
            a = mx.wrapping_add(self.mem[m2]);
            assert((x >> 3u64) & 255u64 < 256) by (bit_vector);
            let y = self.mem[((x >> 3u64) & 255u64) as usize].wrapping_add(a).wrapping_add(b);
            self.mem[j] = y;
            assert(((y >> 8u64) >> 3u64) & 255u64 < 256) by (bit_vector);
            b = self.mem[(((y >> 8u64) >> 3u64) & 255u64) as usize].wrapping_add(x);
            self.rsl[j] = b;
            j = j + 1;
        }
        self.a = a;
        self.b = b;
        self.cnt = 256;
    }

    /// Returns the next random word.
    pub fn next_u64(&mut self) -> (r: u64)
        ensures
            final(self)@ == next_state64(old(self)@),
            r == next_output64(old(self)@),
    {
        if self.cnt == 0 {
            self.isaac64();
        }
        self.cnt = self.cnt - 1;
        self.rsl[(self.cnt % 256) as usize]
    }

    /// Returns the low 32 bits of the next random word.
    pub fn next_u32(&mut self) -> (r: u32)
        ensures
            final(self)@ == next_state64(old(self)@),
            r == next_output64(old(self)@) as u32,
    {
        self.next_u64() as u32
    }

    /// Reseeds the generator: the seed, padded with zeros or cut to 256
    /// words, replaces the whole state.
    pub fn reseed(&mut self, seed: &[u64])
        ensures
            final(self)@ == seeded64(seed@),
    {
        let mut i: usize = 0;
        while i < 256
            invariant
                0 <= i <= 256,
                self.rsl@.len() == 256,
                forall|k: int| 0 <= k < i ==> self.rsl@[k] == seed_words64(seed@)[k],
            decreases 256 - i,
        {
            self.rsl[i] = if i < seed.len() {
                seed[i]
            } else {
                0
            };
            i = i + 1;
        }
        assert(self.rsl@ =~= seed_words64(seed@));
        self.cnt = 0;
        self.a = 0;
        self.b = 0;
        self.c = 0;
        self.init(true);
    }

    /// Creates an ISAAC random number generator with a seed. The seed can
    /// be any length, although the maximum number of words used is 256
    /// and any more are silently ignored.
    pub fn from_seed(seed: &[u64]) -> (r: Isaac64Rng)
        ensures
            r@ == seeded64(seed@),
    {
        let mut rng = Isaac64Rng::empty();
        rng.reseed(seed);
        rng
    }
}

} // verus!
