use rand::{Rng, SeedableRng};
use rustc_utils::isaac::IsaacRng;
use rustc_utils::isaac64::Isaac64Rng;

/// The 32-bit generator seen through the `rand` traits.
struct Isaac(IsaacRng);

impl Rng for Isaac {
    fn next_u32(&mut self) -> u32 {
        self.0.next_u32()
    }
}

impl<'a> SeedableRng<&'a [u32]> for Isaac {
    fn reseed(&mut self, seed: &'a [u32]) {
        self.0.reseed(seed)
    }

    fn from_seed(seed: &'a [u32]) -> Isaac {
        Isaac(IsaacRng::from_seed(seed))
    }
}

/// The 64-bit generator seen through the `rand` traits.
struct Isaac64(Isaac64Rng);

impl Rng for Isaac64 {
    fn next_u32(&mut self) -> u32 {
        self.0.next_u32()
    }

    fn next_u64(&mut self) -> u64 {
        self.0.next_u64()
    }
}

impl<'a> SeedableRng<&'a [u64]> for Isaac64 {
    fn reseed(&mut self, seed: &'a [u64]) {
        self.0.reseed(seed)
    }

    fn from_seed(seed: &'a [u64]) -> Isaac64 {
        Isaac64(Isaac64Rng::from_seed(seed))
    }
}

#[test]
fn test_rng_32_rand_seeded() {
    let s = rand::thread_rng().gen_iter::<u32>().take(256).collect::<Vec<u32>>();
    let mut ra: Isaac = SeedableRng::from_seed(&*s);
    let mut rb: Isaac = SeedableRng::from_seed(&*s);
    assert!(ra.gen_ascii_chars().take(100).eq(rb.gen_ascii_chars().take(100)));
}

#[test]
fn test_rng_64_rand_seeded() {
    let s = rand::thread_rng().gen_iter::<u64>().take(256).collect::<Vec<u64>>();
    let mut ra: Isaac64 = SeedableRng::from_seed(&*s);
    let mut rb: Isaac64 = SeedableRng::from_seed(&*s);
    assert!(ra.gen_ascii_chars().take(100).eq(rb.gen_ascii_chars().take(100)));
}

#[test]
fn test_rng_32_seeded() {
    let seed: &[_] = &[1, 23, 456, 7890, 12345];
    let mut ra: Isaac = SeedableRng::from_seed(seed);
    let mut rb: Isaac = SeedableRng::from_seed(seed);
    assert!(ra.gen_ascii_chars().take(100).eq(rb.gen_ascii_chars().take(100)));
}

#[test]
fn test_rng_64_seeded() {
    let seed: &[_] = &[1, 23, 456, 7890, 12345];
    let mut ra: Isaac64 = SeedableRng::from_seed(seed);
    let mut rb: Isaac64 = SeedableRng::from_seed(seed);
    assert!(ra.gen_ascii_chars().take(100).eq(rb.gen_ascii_chars().take(100)));
}

#[test]
fn test_rng_32_reseed() {
    let s = rand::thread_rng().gen_iter::<u32>().take(256).collect::<Vec<u32>>();
    let mut r: Isaac = SeedableRng::from_seed(&*s);
    let string1: String = r.gen_ascii_chars().take(100).collect();

    r.reseed(&s);

    let string2: String = r.gen_ascii_chars().take(100).collect();
    assert_eq!(string1, string2);
}

#[test]
fn test_rng_64_reseed() {
    let s = rand::thread_rng().gen_iter::<u64>().take(256).collect::<Vec<u64>>();
    let mut r: Isaac64 = SeedableRng::from_seed(&*s);
    let string1: String = r.gen_ascii_chars().take(100).collect();

    r.reseed(&s);

    let string2: String = r.gen_ascii_chars().take(100).collect();
    assert_eq!(string1, string2);
}

#[test]
fn test_rng_32_true_values() {
    let seed: &[_] = &[1, 23, 456, 7890, 12345];
    let mut ra: Isaac = SeedableRng::from_seed(seed);
    // Regression test that isaac is actually using the above vector
    let v = (0..10).map(|_| ra.next_u32()).collect::<Vec<_>>();
    assert_eq!(
        v,
        vec!(
            2558573138, 873787463, 263499565, 2103644246, 3595684709, 4203127393, 264982119,
            2765226902, 2737944514, 3900253796
        )
    );

    let seed: &[_] = &[12345, 67890, 54321, 9876];
    let mut rb: Isaac = SeedableRng::from_seed(seed);
    // skip forward to the 10000th number
    for _ in 0..10000 {
        rb.next_u32();
    }

    let v = (0..10).map(|_| rb.next_u32()).collect::<Vec<_>>();
    assert_eq!(
        v,
        vec!(
            3676831399, 3183332890, 2834741178, 3854698763, 2717568474, 1576568959, 3507990155,
            179069555, 141456972, 2478885421
        )
    );
}

#[test]
fn test_rng_64_true_values() {
    let seed: &[_] = &[1, 23, 456, 7890, 12345];
    let mut ra: Isaac64 = SeedableRng::from_seed(seed);
    // Regression test that isaac is actually using the above vector
    let v = (0..10).map(|_| ra.next_u64()).collect::<Vec<_>>();
    assert_eq!(
        v,
        vec!(
            547121783600835980,
            14377643087320773276,
            17351601304698403469,
            1238879483818134882,
            11952566807690396487,
            13970131091560099343,
            4469761996653280935,
            15552757044682284409,
            6860251611068737823,
            13722198873481261842
        )
    );

    let seed: &[_] = &[12345, 67890, 54321, 9876];
    let mut rb: Isaac64 = SeedableRng::from_seed(seed);
    // skip forward to the 10000th number
    for _ in 0..10000 {
        rb.next_u64();
    }

    let v = (0..10).map(|_| rb.next_u64()).collect::<Vec<_>>();
    assert_eq!(
        v,
        vec!(
            18143823860592706164,
            8491801882678285927,
            2699425367717515619,
            17196852593171130876,
            2606123525235546165,
            15790932315217671084,
            596345674630742204,
            9947027391921273664,
            11788097613744130851,
            10391409374914919106
        )
    );
}

#[test]
fn test_rng_clone() {
    let seed: &[_] = &[1, 23, 456, 7890, 12345];
    let mut rng: Isaac64 = SeedableRng::from_seed(seed);
    let mut clone = Isaac64(rng.0.clone());
    for _ in 0..16 {
        assert_eq!(rng.next_u64(), clone.next_u64());
    }
}

#[test]
fn unseeded_generators_agree_and_differ_from_seeded() {
    let mut a = IsaacRng::new_unseeded();
    let mut b = IsaacRng::new_unseeded();
    let mut s = IsaacRng::from_seed(&[]);
    let xs: Vec<u32> = (0..300).map(|_| a.next_u32()).collect();
    let ys: Vec<u32> = (0..300).map(|_| b.next_u32()).collect();
    let zs: Vec<u32> = (0..300).map(|_| s.next_u32()).collect();
    assert_eq!(xs, ys);
    assert_ne!(xs, zs);

    let mut a = Isaac64Rng::new_unseeded();
    let mut b = Isaac64Rng::new_unseeded();
    let xs: Vec<u64> = (0..300).map(|_| a.next_u64()).collect();
    let ys: Vec<u64> = (0..300).map(|_| b.next_u64()).collect();
    assert_eq!(xs, ys);
}

#[test]
fn seed_words_beyond_256_are_ignored() {
    let long: Vec<u32> = (0..300).collect();
    let mut a = IsaacRng::from_seed(&long);
    let mut b = IsaacRng::from_seed(&long[..256]);
    for _ in 0..600 {
        assert_eq!(a.next_u32(), b.next_u32());
    }
    let short: Vec<u64> = vec![5, 6, 7];
    let mut padded = short.clone();
    padded.resize(256, 0);
    let mut c = Isaac64Rng::from_seed(&short);
    let mut d = Isaac64Rng::from_seed(&padded);
    for _ in 0..600 {
        assert_eq!(c.next_u64(), d.next_u64());
    }
}

#[test]
fn next_u32_of_isaac64_is_the_low_half() {
    let seed: &[_] = &[1, 23, 456, 7890, 12345];
    let mut a = Isaac64Rng::from_seed(seed);
    let mut b = Isaac64Rng::from_seed(seed);
    for _ in 0..20 {
        assert_eq!(a.next_u32(), b.next_u64() as u32);
    }
    assert_eq!(Isaac64Rng::from_seed(seed).next_u32(), 547121783600835980u64 as u32);
}
