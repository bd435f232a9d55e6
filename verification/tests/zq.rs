use crrust_math::nfl;
use crrust_math::zq::Modulus;
use rand::{thread_rng, Rng, RngCore, SeedableRng};
use rand_chacha::ChaCha8Rng;

const PRIMES: [u64; 5] = [2, 3, 17, 1987, 4611686018326724609];

/// A handful of random valid moduli of every size, plus the fixed primes.
fn valid_moduli() -> Vec<Modulus> {
    let mut rng = thread_rng();
    let mut out = Vec::new();
    for p in PRIMES {
        out.push(Modulus::new(p).unwrap());
    }
    while out.len() < 60 {
        let shift = rng.gen_range(2..63);
        if let Some(m) = Modulus::new(rng.next_u64() >> shift) {
            out.push(m);
        }
    }
    out
}

fn random_vec(len: usize) -> Vec<u64> {
    let mut rng = thread_rng();
    (0..len).map(|_| rng.next_u64()).collect()
}

#[test]
fn test_constructor() {
    let mut rng = thread_rng();
    for _ in 0..1000 {
        let p = rng.next_u64();
        // 63 and 64-bit integers do not work.
        assert!(Modulus::new(p | (1u64 << 62)).is_none());
        assert!(Modulus::new(p | (1u64 << 63)).is_none());

        // p = 0 & 1 do not work.
        assert!(Modulus::new(0u64).is_none());
        assert!(Modulus::new(1u64).is_none());

        // Otherwise, all moduli should work.
        if p >> 2 >= 2 {
            assert!(Modulus::new(p >> 2).is_some_and(|q| q.modulus() == p >> 2));
        }
    }
    assert_eq!(Modulus::new(2).unwrap().modulus(), 2);
    assert_eq!(Modulus::new((1u64 << 62) - 1).unwrap().modulus(), (1u64 << 62) - 1);
    assert!(Modulus::new(1u64 << 62).is_none());
}

#[test]
fn test_neg() {
    let mut rng = thread_rng();
    for p in valid_moduli() {
        for _ in 0..50 {
            let a = p.reduce(rng.next_u64());
            assert_eq!(p.neg(a), (p.modulus() - a) % p.modulus());
        }
        assert_eq!(p.neg(0), 0);
        assert_eq!(p.neg(1), p.modulus() - 1);
    }
}

#[test]
fn test_add() {
    let mut rng = thread_rng();
    for p in valid_moduli() {
        for _ in 0..50 {
            let a = p.reduce(rng.next_u64());
            let b = p.reduce(rng.next_u64());
            assert_eq!(p.add(a, b), (a + b) % p.modulus());
        }
        let m = p.modulus();
        assert_eq!(p.add(m - 1, m - 1), m - 2);
    }
}

#[test]
fn test_sub() {
    let mut rng = thread_rng();
    for p in valid_moduli() {
        for _ in 0..50 {
            let a = p.reduce(rng.next_u64());
            let b = p.reduce(rng.next_u64());
            assert_eq!(p.sub(a, b), (a + p.modulus() - b) % p.modulus());
            // Subtraction undoes addition.
            assert_eq!(p.sub(p.add(a, b), b), a);
            // The negation is the additive inverse.
            assert_eq!(p.add(a, p.neg(a)), 0);
        }
        assert_eq!(p.sub(0, 1), p.modulus() - 1);
    }
}

#[test]
fn test_mul() {
    let mut rng = thread_rng();
    for p in valid_moduli() {
        for _ in 0..50 {
            let a = p.reduce(rng.next_u64());
            let b = p.reduce(rng.next_u64());
            assert_eq!(p.mul(a, b) as u128, ((a as u128) * (b as u128)) % (p.modulus() as u128));
        }
    }
    let q = Modulus::new(1987).unwrap();
    assert_eq!(q.mul(1986, 1986), 1);
    assert_eq!(q.mul(1000, 3), 1013);
}

#[test]
fn test_mul_shoup() {
    let mut rng = thread_rng();
    for p in valid_moduli() {
        for _ in 0..50 {
            let a = p.reduce(rng.next_u64());
            let b = p.reduce(rng.next_u64());
            let b_shoup = p.shoup(b);
            assert_eq!(
                p.mul_shoup(a, b, b_shoup) as u128,
                ((a as u128) * (b as u128)) % (p.modulus() as u128)
            );
            // Any 64-bit left operand works.
            let c = rng.next_u64();
            assert_eq!(
                p.mul_shoup(c, b, b_shoup) as u128,
                ((c as u128) * (b as u128)) % (p.modulus() as u128)
            );
            let lazy = p.lazy_mul_shoup(c, b, b_shoup);
            assert!(lazy < 2 * p.modulus());
            assert_eq!(lazy % p.modulus(), p.mul_shoup(c, b, b_shoup));
        }
    }
}

#[test]
fn test_shoup_values() {
    let q = Modulus::new(17).unwrap();
    // floor(3 * 2^64 / 17)
    assert_eq!(q.shoup(3), (((3u128) << 64) / 17) as u64);
    assert_eq!(q.shoup(0), 0);
    assert_eq!(q.shoup(16), ((16u128 << 64) / 17) as u64);
}

#[test]
fn test_reduce() {
    let mut rng = thread_rng();
    for p in valid_moduli() {
        for _ in 0..50 {
            let a = rng.next_u64();
            assert_eq!(p.reduce(a), a % p.modulus());
            let lazy = p.lazy_reduce(a);
            assert!(lazy < 2 * p.modulus());
            assert_eq!(lazy % p.modulus(), a % p.modulus());
        }
        assert_eq!(p.reduce(u64::MAX), u64::MAX % p.modulus());
        assert_eq!(p.reduce(0), 0);
    }
}

#[test]
fn test_reduce_128() {
    let mut rng = thread_rng();
    for p in valid_moduli() {
        for _ in 0..50 {
            let a = ((rng.next_u64() as u128) << 64) | (rng.next_u64() as u128);
            assert_eq!(p.reduce_u128(a) as u128, a % (p.modulus() as u128));
            let lazy = p.lazy_reduce_u128(a);
            assert!(lazy < 2 * p.modulus());
            assert_eq!(lazy as u128 % (p.modulus() as u128), a % (p.modulus() as u128));
        }
        assert_eq!(p.reduce_u128(u128::MAX) as u128, u128::MAX % (p.modulus() as u128));
    }
}

#[test]
fn test_lazy_reduce_exact() {
    // For p = 2 the Barrett constant is 2^127 and the estimate is exact.
    let q = Modulus::new(2).unwrap();
    assert_eq!(q.lazy_reduce_u128(u128::MAX), 1);
    assert_eq!(q.lazy_reduce(7), 1);
    // For p = 3 the estimate floor(a * floor(2^128 / 3) / 2^128) of 3 is 0.
    let q = Modulus::new(3).unwrap();
    assert_eq!(q.lazy_reduce(3), 3);
    assert_eq!(q.lazy_reduce(4), 1);
    assert_eq!(q.lazy_reduce(2), 2);
}

#[test]
fn test_add_vec() {
    for p in valid_moduli() {
        let len = thread_rng().gen_range(1..100);
        let mut a = random_vec(len);
        let mut b = random_vec(len);
        p.reduce_vec(&mut a);
        p.reduce_vec(&mut b);
        let c = a.clone();
        p.add_vec(&mut a, &b);
        let expected: Vec<u64> = b.iter().zip(c.iter()).map(|(bi, ci)| p.add(*bi, *ci)).collect();
        assert_eq!(a, expected);
    }
}

#[test]
fn test_sub_vec() {
    for p in valid_moduli() {
        let len = thread_rng().gen_range(1..100);
        let mut a = random_vec(len);
        let mut b = random_vec(len);
        p.reduce_vec(&mut a);
        p.reduce_vec(&mut b);
        let c = a.clone();
        p.sub_vec(&mut a, &b);
        let expected: Vec<u64> = b.iter().zip(c.iter()).map(|(bi, ci)| p.sub(*ci, *bi)).collect();
        assert_eq!(a, expected);
    }
}

#[test]
fn test_mul_vec() {
    let mut moduli = valid_moduli();
    moduli.push(Modulus::new(4611686018326724609).unwrap());
    for p in moduli {
        let len = thread_rng().gen_range(1..100);
        let mut a = random_vec(len);
        let mut b = random_vec(len);
        p.reduce_vec(&mut a);
        p.reduce_vec(&mut b);
        let c = a.clone();
        p.mul_vec(&mut a, &b);
        let expected: Vec<u64> = b.iter().zip(c.iter()).map(|(bi, ci)| p.mul(*ci, *bi)).collect();
        assert_eq!(a, expected);
    }
}

#[test]
fn test_mul_shoup_vec() {
    for p in valid_moduli() {
        let len = thread_rng().gen_range(1..100);
        let mut a = random_vec(len);
        let mut b = random_vec(len);
        p.reduce_vec(&mut a);
        p.reduce_vec(&mut b);
        let b_shoup = p.shoup_vec(&b);
        assert_eq!(b_shoup.len(), b.len());
        for (bi, si) in b.iter().zip(b_shoup.iter()) {
            assert_eq!(*si, p.shoup(*bi));
        }
        let c = a.clone();
        p.mul_shoup_vec(&mut a, &b, &b_shoup);
        let expected: Vec<u64> = b.iter().zip(c.iter()).map(|(bi, ci)| p.mul(*ci, *bi)).collect();
        assert_eq!(a, expected);
    }
}

#[test]
fn test_reduce_vec() {
    for p in valid_moduli() {
        let len = thread_rng().gen_range(0..100);
        let a = random_vec(len);
        let mut b = a.clone();
        p.reduce_vec(&mut b);
        let expected: Vec<u64> = a.iter().map(|ai| p.reduce(*ai)).collect();
        assert_eq!(b, expected);
        assert_eq!(p.reduce_vec_new(&a), expected);
    }
}

#[test]
fn test_neg_vec() {
    for p in valid_moduli() {
        let len = thread_rng().gen_range(0..100);
        let mut a = random_vec(len);
        p.reduce_vec(&mut a);
        let mut b = a.clone();
        p.neg_vec(&mut b);
        let expected: Vec<u64> = a.iter().map(|ai| p.neg(*ai)).collect();
        assert_eq!(b, expected);
    }
}

#[test]
fn test_random_vec() {
    for p in valid_moduli() {
        let size = thread_rng().gen_range(1..1000usize);
        let v = p.random_vec(size);
        assert_eq!(v.len(), size);
        assert!(v.iter().all(|vi| *vi < p.modulus()));

        let mut seed = <ChaCha8Rng as SeedableRng>::Seed::default();
        thread_rng().fill(&mut seed);
        let x = p.random_vec_from_seed(size, seed.clone());
        let y = p.random_vec_from_seed(size, seed.clone());
        assert_eq!(x.len(), size);
        assert_eq!(&x, &y);
        assert!(x.iter().all(|xi| *xi < p.modulus()));

        thread_rng().fill(&mut seed);
        let y = p.random_vec_from_seed(size, seed.clone());
        assert_eq!(y.len(), size);
        if p.modulus().leading_zeros() <= 30 {
            assert_ne!(x, y); // This will hold with probability at least 2^(-30)
        }
    }
}

#[test]
fn test_random_vec_from_seed_uses_seed_and_modulus() {
    let p = Modulus::new(4611686018326724609).unwrap();
    let x = p.random_vec_from_seed(64, [7u8; 32]);
    // The samples are not the seed bytes handed back, nor all equal.
    assert!(x.iter().any(|xi| *xi != 7));
    assert!(x.iter().any(|xi| *xi != x[0]));
    let q = Modulus::new(17).unwrap();
    let y = q.random_vec_from_seed(64, [7u8; 32]);
    assert!(y.iter().all(|yi| *yi < 17));
    assert_ne!(x, y);
}

#[test]
fn test_supports_opt() {
    assert!(nfl::supports_opt(4611686018326724609));
    assert!(!nfl::supports_opt(2));
    assert!(!nfl::supports_opt(17));
    assert!(!nfl::supports_opt(0));
    assert!(!nfl::supports_opt(u64::MAX));
    // 2^61 + 1 is far from 2^62 and does not satisfy the condition.
    assert!(!nfl::supports_opt((1u64 << 61) + 1));
    // 2^62 - 1 is the closest to 2^62.
    assert!(nfl::supports_opt((1u64 << 62) - 1));
}

#[test]
fn test_reduce_opt() {
    let mut rng = thread_rng();
    for p in [4611686018326724609u64, (1u64 << 62) - 1, (1u64 << 62) - 57] {
        let q = Modulus::new(p).unwrap();
        assert!(nfl::supports_opt(p));
        for _ in 0..100 {
            let a = rng.next_u64();
            assert_eq!(q.reduce_opt(a), a % p);
        }
        assert_eq!(q.reduce_opt(u64::MAX), u64::MAX % p);
    }
}

#[test]
fn test_mul_opt() {
    let ntests = 100;
    let mut rng = rand::thread_rng();

    for p in [4611686018326724609] {
        let q = Modulus::new(p).unwrap();
        assert!(nfl::supports_opt(p));

        assert_eq!(q.mul_opt(0, 1), 0);
        assert_eq!(q.mul_opt(1, 1), 1);
        assert_eq!(q.mul_opt(2 % p, 3 % p), 6 % p);
        assert_eq!(q.mul_opt(p - 1, 1), p - 1);
        assert_eq!(q.mul_opt(p - 1, 2 % p), p - 2);

        for _ in 0..ntests {
            let a = rng.next_u64() % p;
            let b = rng.next_u64() % p;
            assert_eq!(q.mul_opt(a, b), (((a as u128) * (b as u128)) % (p as u128)) as u64);
        }
    }
}

#[test]
fn test_pow() {
    let ntests = 10;
    let mut rng = rand::thread_rng();

    for p in [2u64, 3, 17, 1987, 4611686018326724609] {
        let q = Modulus::new(p).unwrap();

        assert_eq!(q.pow(p - 1, 0), 1);
        assert_eq!(q.pow(p - 1, 1), p - 1);
        assert_eq!(q.pow(p - 1, 2 % p), 1);
        assert_eq!(q.pow(1, p - 2), 1);
        assert_eq!(q.pow(1, p - 1), 1);

        for _ in 0..ntests {
            let a = rng.next_u64() % p;
            let b = (rng.next_u64() % p) % 1000;
            let mut c = b;
            let mut r = 1;
            while c > 0 {
                r = q.mul(r, a);
                c -= 1;
            }
            assert_eq!(q.pow(a, b), r);
        }
    }
}

#[test]
fn test_pow_values() {
    let q = Modulus::new(1987).unwrap();
    assert_eq!(q.pow(2, 10), 1024);
    assert_eq!(q.pow(2, 11), 2048 % 1987);
    assert_eq!(q.pow(3, 1986), 1);
    let q = Modulus::new(1000).unwrap();
    assert_eq!(q.pow(7, 3), 343);
    assert_eq!(q.pow(7, 4), 2401 % 1000);
}

#[test]
fn test_inv() {
    let ntests = 100;
    let mut rng = rand::thread_rng();

    for p in [2u64, 3, 17, 1987, 4611686018326724609] {
        let q = Modulus::new(p).unwrap();

        assert!(q.inv(0).is_none());
        assert_eq!(q.inv(1).unwrap(), 1);
        assert_eq!(q.inv(p - 1).unwrap(), p - 1);

        for _ in 0..ntests {
            let a = rng.next_u64() % p;
            let b = q.inv(a);

            if a == 0 {
                assert!(b.is_none())
            } else {
                assert!(b.is_some());
                assert_eq!(q.mul(a, b.unwrap()), 1)
            }
        }
    }
}

#[test]
fn test_inv_composite() {
    // Not prime: no inverse, even for units.
    let q = Modulus::new(15).unwrap();
    assert!(q.inv(2).is_none());
    assert!(q.inv(1).is_none());
    let q = Modulus::new(1 << 40).unwrap();
    assert!(q.inv(3).is_none());
    let q = Modulus::new(17).unwrap();
    assert_eq!(q.inv(3), Some(6));
}
