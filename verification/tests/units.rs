use russcan::bytes::{load_u64_le_partial, u16_le, u32_le, u64_le};
use russcan::corpus::{record_line, sort_hits, unhex};
use russcan::crc32c::crc32c_raw;
use russcan::fuzz::{mutate, Rng};
use russcan::hwlm::confirm::validate_confirm;
use russcan::hwlm::noodle::NoodTable;
use russcan::hwlm::{ExecResult, HwlmError, ScanCtl};
use russcan::literal::checks::{
    check_byte, check_lookaround, check_mask, check_mask32, check_med_lit, check_shufti_16x16,
    check_shufti_16x8, check_shufti_32x16, check_shufti_32x8, check_single_lookaround,
    reach_has_bit,
};
use russcan::literal::dedupe::Dedupe;
use russcan::literal::InterpError;
use russcan::nfa::{Nfa, NfaError};
use russcan::rose::RoseError;
use russcan::scan::ScanError;
use russcan::serialized::{DbError, Platform};
use russcan::simd::accel;
use russcan::simd::accel::masks::{shufti_double_masks_exact, shufti_masks_exact};
use russcan::simd::lanes::{LaneMask, MaskOps};
use russcan::simd::scalar::V128Scalar;
use russcan::simd::V128;

#[test]
fn words_are_little_endian() {
    let b = [1u8, 2, 3, 4, 5, 6, 7, 8, 9];
    assert_eq!(u16_le(&b, 7), Some(0x0908));
    assert_eq!(u16_le(&b, 8), None);
    assert_eq!(u32_le(&b, 5), Some(0x0908_0706));
    assert_eq!(u32_le(&b, 6), None);
    assert_eq!(u32_le(&b, u64::MAX), None);
    assert_eq!(u64_le(&b, 1), Some(0x0908_0706_0504_0302));
    assert_eq!(u64_le(&b, 2), None);
    assert_eq!(load_u64_le_partial(&b, 2, 3), 0x05_0403);
    assert_eq!(load_u64_le_partial(&b, 0, 0), 0);
}

#[test]
fn crc_of_a_concatenation_is_continued() {
    let all = b"the quick brown fox";
    for k in 0..=all.len() {
        assert_eq!(
            crc32c_raw(crc32c_raw(7, &all[..k]), &all[k..]),
            crc32c_raw(7, all)
        );
    }
}

#[test]
fn crc_sees_every_changed_byte() {
    let all = *b"0123456789abcdef";
    for k in 0..all.len() {
        let mut other = all;
        other[k] ^= 0x80;
        assert_ne!(crc32c_raw(0, &all), crc32c_raw(0, &other));
    }
}

#[test]
fn platforms_are_told_apart() {
    // The two low bits name the processor; two more switch vector code off.
    assert!(Platform { raw: 2 }.cpu_is_arm());
    assert!(!Platform { raw: 2 }.cpu_is_intel());
    assert!(Platform { raw: 1 }.cpu_is_intel());
    assert!(Platform { raw: 1 }.wants_avx2());
    assert!(!Platform { raw: 2 }.wants_avx2());
    assert!(Platform { raw: 1 }.wants_avx512());
    assert!(!Platform { raw: 2 }.wants_avx512());
}

#[test]
fn errors_say_what_is_wrong() {
    assert_eq!(DbError::TooShort.message(), "буфер короче 32-байтового заголовка");
    assert_eq!(DbError::BadMagic(0xab).message(), "не hs-база: magic 0x000000ab");
    assert_eq!(
        DbError::BadVersion(1).message(),
        "версия байткода 0x00000001 != пин 0x05040c00 (5.4.12)"
    );
    assert_eq!(
        DbError::LengthMismatch { declared: 10, actual: 7 }.message(),
        "длина не сходится: заявлено length=10 (итого 114), фактически 7"
    );
    assert_eq!(
        DbError::CrcMismatch { stored: 0xdead_beef, computed: 0 }.message(),
        "CRC32C не сходится: в заголовке 0xdeadbeef, по байткоду 0x00000000"
    );
    assert_eq!(HwlmError::Truncated.message(), "таблица движка обрезана");
    assert_eq!(HwlmError::BadTable("x").message(), "битая таблица движка: x");
    assert_eq!(NfaError::Truncated.message(), "байткод NFA обрезан");
    assert_eq!(NfaError::BadTable("x").message(), "битая таблица NFA: x");
    assert_eq!(NfaError::Unsupported("x").message(), "вне russcan-lite: x");
    assert_eq!(RoseError::Truncated.message(), "байткод усечён");
    assert_eq!(RoseError::NotBlockMode(4).message(), "mode=4 != BLOCK(1)");
    assert_eq!(
        RoseError::UnsupportedRuntime(200).message(),
        "runtimeImpl=200 вне {PURE_LITERAL,FULL_ROSE}"
    );
    assert_eq!(
        RoseError::NeedsFullRose("eod").message(),
        "БД требует полный Rose (eod) — вне floating-скоупа"
    );
    assert_eq!(RoseError::NoFloatingMatcher.message(), "fmatcherOffset=0");
    assert_eq!(RoseError::NotFdr(16).message(), "HWLM type=16 != FDR(12)");
    assert_eq!(
        RoseError::OffsetOutOfRange { off: 1000, len: 99 }.message(),
        "оффсет 1000 вне байткода длины 99"
    );
    assert_eq!(
        InterpError::UnsupportedOpcode(25).message(),
        "опкод 25 вне FDR-only скоупа"
    );
    assert_eq!(InterpError::ProgramOverrun.message(), "pc за пределами программы");
    assert_eq!(
        InterpError::from(NfaError::Truncated).message(),
        "leftfix: байткод NFA обрезан"
    );
    assert_eq!(InterpError::from(RoseError::Truncated).message(), "байткод усечён");
    assert_eq!(
        ScanError::from(DbError::TooShort).message(),
        "БД: буфер короче 32-байтового заголовка"
    );
    assert_eq!(
        ScanError::from(RoseError::Truncated).message(),
        "RoseEngine: байткод усечён"
    );
    assert_eq!(
        ScanError::from(HwlmError::Truncated).message(),
        "FDR: таблица движка обрезана"
    );
    assert_eq!(
        ScanError::from(InterpError::ProgramOverrun).message(),
        "интерпретатор: pc за пределами программы"
    );
}

#[test]
fn automata_are_out_of_scope() {
    assert!(matches!(Nfa::from_bytes(&[1, 2, 3]), Err(NfaError::Unsupported(_))));
}

#[test]
fn hex_lines_are_read() {
    assert_eq!(unhex(""), Some(vec![]));
    assert_eq!(unhex("00fFa9"), Some(vec![0, 255, 0xa9]));
    assert_eq!(unhex("+f"), Some(vec![15]));
    assert_eq!(unhex("f+"), None);
    assert_eq!(unhex("0"), None);
    assert_eq!(unhex("0g"), None);
    assert_eq!(unhex("a b "), None);
    // Space around the digits is ignored, whatever space it is.
    assert_eq!(unhex(" \t00fFa9\r\n"), Some(vec![0, 255, 0xa9]));
    assert_eq!(unhex("\u{3000}0a\u{a0}\u{85}"), Some(vec![10]));
    assert_eq!(unhex(" \n"), Some(vec![]));
    assert_eq!(unhex(" +f "), Some(vec![15]));
    assert_eq!(unhex(" 0 "), None);
    assert_eq!(unhex("\u{200b}0a"), None);
    assert_eq!(unhex("\u{e9}\u{e9}"), None);
}

#[test]
fn record_lines_are_sorted() {
    let hits = [(9, 2), (4, 7), (9, 1), (4, 7)];
    let sorted = sort_hits(&hits);
    assert_eq!(sorted, vec![(4, 7), (4, 7), (9, 1), (9, 2)]);
    assert_eq!(record_line(12, &sorted), "12: 7@4 7@4 1@9 2@9");
    assert_eq!(record_line(0, &[]), "0:");
    assert_eq!(
        record_line(1, &[(u64::MAX, u32::MAX)]),
        "1: 4294967295@18446744073709551615"
    );
}

#[test]
fn generator_is_splitmix64() {
    let mut rng = Rng(0);
    assert_eq!(rng.next(), 0xE220_A839_7B1D_CDAF);
    assert_eq!(rng.next(), 0x6E78_9E6A_A1B9_65F4);
    let before = rng.0;
    assert_eq!(rng.below(0), 0);
    assert_eq!(rng.0, before);
    assert!(rng.below(10) < 10);
}

#[test]
fn mutations_are_repeatable() {
    let seed: Vec<u8> = (0..200).collect();
    let mut changed = 0;
    for k in 0..500u64 {
        let (mut one, mut two) = (Rng(k), Rng(k));
        let m = mutate(&seed, &mut one);
        assert_eq!(m, mutate(&seed, &mut two));
        assert_eq!(one.0, two.0);
        changed += (m != seed) as u32;
    }
    assert!(changed > 400);
    assert!(mutate(&[], &mut Rng(3)).len() <= 6 * 64 + 6 * 1024);
}

fn noodle(text: &[u8], nocase: bool) -> Vec<u8> {
    let n = text.len().min(8);
    let mut t = vec![0u8; 32];
    t[0] = 42;
    for k in 0..n {
        let c = text[text.len() - n + k];
        let letter = c.is_ascii_alphabetic() && nocase;
        t[8 + k] = if letter { 0xdf } else { 0xff };
        t[16 + k] = if letter { c & 0xdf } else { c };
    }
    t[24] = n as u8;
    t[26] = nocase as u8;
    if n == 1 {
        t[25] = 1;
        t[27] = 1;
        t[28] = text[0];
    } else {
        t[25] = 2;
        t[28] = text[text.len() - 2];
        t[29] = text[text.len() - 1];
    }
    t
}

#[test]
fn noodle_finds_its_literal_everywhere() {
    let data = b"abcabABabcdeAb_ab!abcd";
    for text in [&b"a"[..], b"ab", b"abc", b"!a", b"_", b"abcdeAb_", b"zz"] {
        for nocase in [false, true] {
            let t = NoodTable::parse(&noodle(text, nocase)).unwrap();
            let same = |a: &[u8], b: &[u8]| {
                if nocase {
                    a.eq_ignore_ascii_case(b)
                } else {
                    a == b
                }
            };
            let expected: Vec<(u64, u32)> = (0..data.len())
                .filter(|&p| p + 1 >= text.len() && same(&data[p + 1 - text.len()..=p], text))
                .map(|p| (p as u64, 42))
                .collect();
            let mut hits = Vec::new();
            let r = t.exec(data, 0, &mut |end, id| {
                hits.push((end, id));
                ScanCtl::Continue
            });
            assert_eq!(r, ExecResult::Completed);
            assert_eq!(hits, expected, "text={text:?} nocase={nocase}");
            if !expected.is_empty() {
                let r = t.exec(data, 0, &mut |_, _| ScanCtl::Terminate);
                assert_eq!(r, ExecResult::Terminated);
            }
        }
    }
}

#[test]
fn noodle_tables_are_checked() {
    let good = noodle(b"ab", false);
    assert!(NoodTable::parse(&good).is_ok());
    assert_eq!(NoodTable::parse(&good[..31]), Err(HwlmError::Truncated));
    for (at, value, what) in [
        (24, 0u8, "msk_len вне 1..=8"),
        (24, 9, "msk_len вне 1..=8"),
        (27, 1, "single с key_offset != 1"),
        (25, 1, "double с key_offset < 2"),
        (25, 4, "key_offset за пределами маски"),
    ] {
        let mut bad = good.clone();
        bad[at] = value;
        assert_eq!(NoodTable::parse(&bad), Err(HwlmError::BadTable(what)));
    }
}

#[test]
fn lanes_of_masks() {
    let m = LaneMask::<1>::from_bits(0b1000_0000_0010_0100);
    assert_eq!((m.first(), m.last()), (Some(2), Some(15)));
    let mut it = m.into_iter();
    assert_eq!([it.next(), it.next(), it.next(), it.next()], [Some(2), Some(5), Some(15), None]);
    assert_eq!(m.keep_lanes_below(5).last(), Some(2));
    assert_eq!(m.keep_lanes_from(3).first(), Some(5));
    assert_eq!(m.invert_within(LaneMask::<1>::all16()).first(), Some(0));
    assert!(!LaneMask::<4>::none().any());
    let m = LaneMask::<4>::from_bits(0x0f00_f000);
    assert_eq!((m.first(), m.last()), (Some(3), Some(6)));
}

#[test]
fn masks_of_any_bits() {
    // One bit sets its lane.
    let m = LaneMask::<4>::from_bits(0x0200_4000);
    assert!(m.any());
    assert_eq!((m.first(), m.last()), (Some(3), Some(6)));
    let mut it = m.into_iter();
    assert_eq!([it.next(), it.next(), it.next()], [Some(3), Some(6), None]);
    assert_eq!(m.keep_lanes_below(6).bits, 0x4000);
    assert_eq!(m.keep_lanes_from(4).bits, 0x0200_0000);
    assert_eq!(m.invert_within(LaneMask::from_bits(0x0f00_4000)).bits, 0x0d00_0000);
    // Bits behind the sixteenth lane are lanes as well.
    let m = LaneMask::<1>::from_bits(1 << 40 | 2);
    assert_eq!((m.first(), m.last()), (Some(1), Some(40)));
    assert_eq!(m.keep_lanes_below(17).bits, 2);
    assert_eq!(m.keep_lanes_from(17).bits, 1 << 40);
    // So many lanes that there are no bits for them.
    assert_eq!(m.keep_lanes_below(u32::MAX), m);
    assert!(!m.keep_lanes_from(100).any());
    assert_eq!(LaneMask::<8>::all16().bits, u64::MAX);
    assert_eq!(LaneMask::<2>::all16().bits, 0xffff_ffff);
}

#[test]
fn confirm_structures_anywhere() {
    // Eight empty buckets, and places that they do not fit at.
    let b = [0u8; 40];
    assert!(validate_confirm(&b, 8, "x").is_ok());
    for conf in [9, 40, 41, u32::MAX as usize, usize::MAX] {
        assert_eq!(validate_confirm(&b, conf, "x"), Err(HwlmError::BadTable("x")));
    }
    // A bucket far behind the end, and one whose header just does not fit.
    for start in [u32::MAX, 9] {
        let mut b = [0u8; 40];
        b[4..8].copy_from_slice(&start.to_le_bytes());
        assert_eq!(validate_confirm(&b, 0, "x"), Err(HwlmError::BadTable("x")));
    }
}

#[test]
fn scalar_vectors() {
    let a: Vec<u8> = (0..16).map(|k| k * 17).collect();
    let v = V128Scalar::loadu(&a, 0);
    assert_eq!(v.shl_bytes(3).to_array()[3], 0);
    assert_eq!(v.shl_bytes(3).to_array()[4], 17);
    assert_eq!(v.shr_bytes(15).to_array()[0], 255);
    assert_eq!(v.shl_bytes(16).to_array(), [0; 16]);
    assert_eq!(v.to_u64_low(), 0x7766_5544_3322_1100);
    let idx = V128Scalar::splat(0x80).or(V128Scalar::splat(3));
    assert_eq!(v.pshufb(idx).to_array(), [0; 16]);
    assert_eq!(v.pshufb(V128Scalar::splat(0x73)).to_array(), [51; 16]);
    assert_eq!(v.eq_mask(V128Scalar::splat(34)).first(), Some(2));
    assert_eq!(v.neq_mask(V128Scalar::splat(0)).first(), Some(1));
    assert_eq!(v.alignr_15(V128Scalar::splat(9)).to_array()[0], 9);
    assert_eq!(V128Scalar::load_partial(&[1, 2]).to_array()[..3], [1, 2, 0]);
    assert_eq!(V128Scalar::splat(0xf1).shr64_by4().to_array()[7], 0x0f);
    assert_eq!(V128Scalar::splat(0xf1).shr64_by4().to_array()[0], 0x1f);
}

#[test]
fn searches_of_empty_blocks_find_nothing() {
    let z = [0u8; 16];
    assert_eq!(accel::shufti_exec(&z, &z, &[]), None);
    assert_eq!(accel::rtruffle_exec(&z, &z, &[]), None);
    assert_eq!(accel::shufti_double_exec(&z, &z, &z, &z, &[]), None);
    assert_eq!(accel::nvermicelli_exec(b'a', false, &[]), None);
}

#[test]
fn classes_that_do_not_fit_are_refused() {
    let nine: Vec<u8> = (0..9).map(|k| k * 16).collect();
    assert_eq!(shufti_masks_exact(&nine), None);
    assert!(shufti_masks_exact(&nine[..8]).is_some());
    let pairs: Vec<(u8, u8)> = (0..9).map(|k| (k * 16, k)).collect();
    assert_eq!(shufti_double_masks_exact(&pairs), None);
}

#[test]
fn memory_of_a_scan() {
    let mut d = Dedupe::default();
    assert!(d.fresh(1, 10));
    assert!(!d.fresh(1, 10));
    assert!(d.fresh(1, 11));
    assert!(d.fresh(2, 10));
    assert!(d.not_handled(7));
    assert!(!d.not_handled(7));
    assert!(!d.role_state_set(4));
    d.set_role_state(4);
    assert!(d.role_state_set(4));
    d.push_suffix(1, 2, 3);
    assert_eq!(d.take_suffix(), vec![(1, 2, 3)]);
    assert_eq!(d.take_suffix(), vec![]);
    d.push_infix(1, 5, false);
    d.push_infix(2, 6, false);
    d.push_infix(1, 7, false);
    assert_eq!(d.infix_locs(1), vec![5, 7]);
    d.push_infix(1, 8, true);
    assert_eq!(d.infix_locs(1), vec![8]);
    assert_eq!(d.infix_locs(2), vec![6]);
    d.clear();
    assert!(d.fresh(1, 10) && d.not_handled(7) && !d.role_state_set(4));
    assert_eq!(d.infix_locs(2), vec![]);
}

#[test]
fn byte_checks() {
    // The byte three in front of the end.
    assert!(check_byte(b"xab", 0xff, b'x', 0, -3, 3));
    assert!(!check_byte(b"yab", 0xff, b'x', 0, -3, 3));
    assert!(check_byte(b"yab", 0xff, b'x', 1, -3, 3));
    // In front of the block the check fails; behind it, it passes.
    assert!(!check_byte(b"xab", 0xff, b'x', 0, -4, 3));
    assert!(check_byte(b"xab", 0xff, b'x', 0, 0, 3));
}

#[test]
fn mask_checks() {
    let ones = u64::from_le_bytes(*b"\xff\xff\xff\0\0\0\0\0");
    let want = u64::from_le_bytes(*b"cde\0\0\0\0\0");
    assert!(check_mask(b"abcdefghij", ones, want, 0, -3, 5));
    assert!(!check_mask(b"abcdefghij", ones, want, 0, -4, 5));
    let mut and = [0u8; 32];
    let mut cmp = [0u8; 32];
    and[0] = 0xff;
    cmp[0] = b'c';
    assert!(check_mask32(b"abcdef", &and, &cmp, 0, -3, 5));
    assert!(!check_mask32(b"abxdef", &and, &cmp, 0, -3, 5));
    // Negated at position 0.
    assert!(check_mask32(b"abxdef", &and, &cmp, 1, -3, 5));
}

#[test]
fn shufti_checks() {
    // One bucket: bytes with low nibble 1 and high nibble 6.
    let mut lo16 = [0u8; 16];
    let mut hi16 = [0u8; 16];
    lo16[1] = 1;
    hi16[6] = 1;
    let nib: Vec<u8> = lo16.iter().chain(hi16.iter()).copied().collect();
    let mut sel16 = [0u8; 16];
    sel16[0] = 1;
    // All positions but the first are negated: nothing selects them.
    assert!(check_shufti_16x8(b"abcdefghijklmnop", &nib, &sel16, 0xfffe, 0, 0));
    assert!(!check_shufti_16x8(b"bbcdefghijklmnop", &nib, &sel16, 0xfffe, 0, 0));
    let mut sel32 = [0u8; 32];
    sel32[0] = 1;
    let block = b"abcdefghijklmnopqrstuvwxyz012345";
    assert!(check_shufti_32x8(block, &hi16, &lo16, &sel32, 0xffff_fffe, 0, 0));
    let mut other = *block;
    other[0] = b'z';
    assert!(!check_shufti_32x8(&other, &hi16, &lo16, &sel32, 0xffff_fffe, 0, 0));
    let mut lo32 = [0u8; 32];
    let mut hi32 = [0u8; 32];
    lo32[1] = 1;
    hi32[6] = 1;
    assert!(check_shufti_16x16(&block[..16], &hi32, &lo32, &sel32, 0xfffe, 0, 0));
    assert!(!check_shufti_16x16(&other[..16], &hi32, &lo32, &sel32, 0xfffe, 0, 0));
    let none = [0u8; 32];
    assert!(check_shufti_32x16(block, &hi32, &lo32, &none, &sel32, 0xffff_fffe, 0, 0));
    assert!(!check_shufti_32x16(&other, &hi32, &lo32, &none, &sel32, 0xffff_fffe, 0, 0));
}

#[test]
fn lookaround_checks() {
    let mut reach = vec![0u8; 64];
    reach[b'x' as usize / 8] |= 1 << (b'x' % 8);
    reach[32 + b'y' as usize / 8] |= 1 << (b'y' % 8);
    assert!(reach_has_bit(&reach, b'x'));
    assert!(!reach_has_bit(&reach, b'y'));
    assert!(check_single_lookaround(b"xab", &reach, -3, 3));
    assert!(!check_single_lookaround(b"yab", &reach, -3, 3));
    // Outside the block, in front of it or behind it, the test passes.
    assert!(check_single_lookaround(b"abc", &[0u8; 32], -4, 3));
    assert!(check_single_lookaround(b"yab", &reach, -4, 3));
    assert!(check_single_lookaround(b"yab", &reach, 0, 3));
    let look = [-3i8 as u8, -2i8 as u8];
    assert_eq!(check_lookaround(b"xyz", &look, &reach, 2, 3), Ok(true));
    assert_eq!(check_lookaround(b"xzz", &look, &reach, 2, 3), Ok(false));
    assert!(check_lookaround(b"xyz", &look, &reach, 3, 3).is_err());
}

#[test]
fn medium_literals() {
    assert!(check_med_lit(b"..longer", b"longerxx", 6, 8, false));
    assert!(!check_med_lit(b"..Longer", b"longerxx", 6, 8, false));
    assert!(check_med_lit(b"..Longer", b"LONGERxx", 6, 8, true));
    assert!(!check_med_lit(b"nger", b"longer", 6, 4, false));
    assert!(!check_med_lit(b"longer", b"long", 6, 6, false));
}
