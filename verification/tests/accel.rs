use russcan::simd::accel;
use russcan::simd::accel::{generic, masks, reference};
use russcan::simd::scalar::V128Scalar;

/// xorshift64*: a repeatable generator.
struct Rng(u64);

impl Rng {
    fn new(seed: u64) -> Self {
        Rng(seed.max(1))
    }
    fn next(&mut self) -> u64 {
        let mut x = self.0;
        x ^= x >> 12;
        x ^= x << 25;
        x ^= x >> 27;
        self.0 = x;
        x.wrapping_mul(0x2545F4914F6CDD1D)
    }
    fn byte(&mut self) -> u8 {
        (self.next() >> 32) as u8
    }
    fn below(&mut self, n: usize) -> usize {
        (self.next() % n as u64) as usize
    }
}

/// Random bytes with the interesting ones planted among them.
fn make_buf(rng: &mut Rng, len: usize, plant: &[u8]) -> Vec<u8> {
    let mut v: Vec<u8> = (0..len).map(|_| rng.byte()).collect();
    if !v.is_empty() {
        for &p in plant {
            let at = rng.below(v.len());
            v[at] = p;
        }
    }
    v
}

/// One buffer at every alignment from 0 to 15.
fn for_alignments(buf: &[u8], mut check: impl FnMut(&[u8])) {
    let mut padded = vec![0u8; buf.len() + 32];
    for off in 0..16 {
        padded[off..off + buf.len()].copy_from_slice(buf);
        check(&padded[off..off + buf.len()]);
    }
}

const LENS: &[usize] = &[0, 1, 2, 5, 15, 16, 17, 31, 32, 33, 47, 64, 100, 257];

#[test]
fn vermicelli_family_vs_reference() {
    let mut rng = Rng::new(0xdead_beef);
    for &len in LENS {
        for _ in 0..40 {
            let c = rng.byte();
            let nocase = rng.next() & 1 == 0;
            let buf = make_buf(&mut rng, len, &[c, c ^ 0x20, !c]);
            for_alignments(&buf, |b| {
                assert_eq!(
                    accel::vermicelli_exec(c, nocase, b),
                    reference::verm_fwd(c, nocase, b),
                    "verm c={c:#x} nocase={nocase} len={len}"
                );
                assert_eq!(
                    accel::nvermicelli_exec(c, nocase, b),
                    reference::nverm_fwd(c, nocase, b),
                    "nverm c={c:#x} nocase={nocase} len={len}"
                );
                assert_eq!(
                    accel::rvermicelli_exec(c, nocase, b),
                    reference::verm_rev(c, nocase, b),
                    "rverm c={c:#x} nocase={nocase} len={len}"
                );
                assert_eq!(
                    accel::rnvermicelli_exec(c, nocase, b),
                    reference::nverm_rev(c, nocase, b),
                    "rnverm c={c:#x} nocase={nocase} len={len}"
                );
            });
        }
    }
}

/// A class with at most 8 different high nibbles.
fn gen_shufti_class(rng: &mut Rng) -> Vec<u8> {
    loop {
        let n = 1 + rng.below(12);
        let class: Vec<u8> = (0..n).map(|_| rng.byte()).collect();
        let mut nibs: Vec<u8> = class.iter().map(|&c| c >> 4).collect();
        nibs.sort_unstable();
        nibs.dedup();
        if nibs.len() <= 8 {
            return class;
        }
    }
}

#[test]
fn shufti_vs_reference() {
    let mut rng = Rng::new(0x5817_f00d);
    for &len in LENS {
        for _ in 0..40 {
            let class = gen_shufti_class(&mut rng);
            let (lo, hi) = masks::shufti_masks_exact(&class).unwrap();
            let buf = make_buf(&mut rng, len, &class);
            for_alignments(&buf, |b| {
                assert_eq!(
                    accel::shufti_exec(&lo, &hi, b),
                    reference::shufti_fwd(&lo, &hi, b),
                    "shufti class={class:02x?} len={len}"
                );
                assert_eq!(
                    accel::rshufti_exec(&lo, &hi, b),
                    reference::shufti_rev(&lo, &hi, b),
                    "rshufti class={class:02x?} len={len}"
                );
            });
        }
    }
}

#[test]
fn shufti_exact_masks_match_class_semantics() {
    let mut rng = Rng::new(0xc1a5_5e5);
    for _ in 0..200 {
        let class = gen_shufti_class(&mut rng);
        let (lo, hi) = masks::shufti_masks_exact(&class).unwrap();
        for b in 0..=255u8 {
            assert_eq!(
                reference::shufti_in_class(&lo, &hi, b),
                class.contains(&b),
                "class={class:02x?} b={b:#x}"
            );
        }
    }
}

#[test]
fn truffle_vs_reference() {
    let mut rng = Rng::new(0x0072_ff1e_5000);
    for &len in LENS {
        for _ in 0..40 {
            let n = 1 + rng.below(40);
            let class: Vec<u8> = (0..n).map(|_| rng.byte()).collect();
            let (clear, set) = masks::truffle_masks(&class);
            let buf = make_buf(&mut rng, len, &class);
            for_alignments(&buf, |b| {
                assert_eq!(
                    accel::truffle_exec(&clear, &set, b),
                    reference::truffle_fwd(&clear, &set, b),
                    "truffle class={class:02x?} len={len}"
                );
                assert_eq!(
                    accel::rtruffle_exec(&clear, &set, b),
                    reference::truffle_rev(&clear, &set, b),
                    "rtruffle class={class:02x?} len={len}"
                );
            });
        }
    }
}

#[test]
fn truffle_exact_masks_match_class_semantics() {
    let mut rng = Rng::new(0xacce1);
    for _ in 0..200 {
        let n = 1 + rng.below(40);
        let class: Vec<u8> = (0..n).map(|_| rng.byte()).collect();
        let (clear, set) = masks::truffle_masks(&class);
        for b in 0..=255u8 {
            assert_eq!(
                reference::truffle_in_class(&clear, &set, b),
                class.contains(&b),
                "class={class:02x?} b={b:#x}"
            );
        }
    }
}

#[test]
fn shufti_double_vs_naive() {
    let mut rng = Rng::new(0xd0b1_e5);
    for &len in LENS {
        for _ in 0..60 {
            let n = 1 + rng.below(8);
            let pairs: Vec<(u8, u8)> = (0..n).map(|_| (rng.byte(), rng.byte())).collect();
            let (m1l, m1h, m2l, m2h) = masks::shufti_double_masks_exact(&pairs).unwrap();
            let mut plant = Vec::new();
            for &(a, b) in &pairs {
                plant.push(a);
                plant.push(b);
            }
            let mut buf = make_buf(&mut rng, len, &plant);
            if len >= 2 {
                let (a, b) = pairs[rng.below(pairs.len())];
                let at = rng.below(buf.len() - 1);
                buf[at] = a;
                buf[at + 1] = b;
            }
            for_alignments(&buf, |bb| {
                assert_eq!(
                    accel::shufti_double_exec(&m1l, &m1h, &m2l, &m2h, bb),
                    masks::shufti_double_naive(&pairs, bb),
                    "dshufti pairs={pairs:02x?} len={len} buf={bb:02x?}"
                );
            });
        }
    }
}

#[test]
fn simd_backend_equals_scalar_backend() {
    let mut rng = Rng::new(0xbac_c0de);
    for &len in LENS {
        for _ in 0..20 {
            let class = gen_shufti_class(&mut rng);
            let (lo, hi) = masks::shufti_masks_exact(&class).unwrap();
            let (clear, set) = masks::truffle_masks(&class);
            let c = rng.byte();
            let buf = make_buf(&mut rng, len, &class);
            for_alignments(&buf, |b| {
                assert_eq!(
                    accel::shufti_exec(&lo, &hi, b),
                    generic::shufti_exec::<V128Scalar>(&lo, &hi, b),
                );
                assert_eq!(
                    accel::rshufti_exec(&lo, &hi, b),
                    generic::rshufti_exec::<V128Scalar>(&lo, &hi, b),
                );
                assert_eq!(
                    accel::truffle_exec(&clear, &set, b),
                    generic::truffle_exec::<V128Scalar>(&clear, &set, b),
                );
                assert_eq!(
                    accel::rtruffle_exec(&clear, &set, b),
                    generic::rtruffle_exec::<V128Scalar>(&clear, &set, b),
                );
                assert_eq!(
                    accel::vermicelli_exec(c, true, b),
                    generic::vermicelli_exec::<V128Scalar>(c, true, b),
                );
                assert_eq!(
                    accel::rnvermicelli_exec(c, false, b),
                    generic::rnvermicelli_exec::<V128Scalar>(c, false, b),
                );
            });
        }
    }
}
