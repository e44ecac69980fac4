use russcan::crc32c::crc32c_raw;
use russcan::hwlm::fdr::FdrTable;
use russcan::hwlm::teddy::TeddyTable;
use russcan::hwlm::{ExecResult, HwlmError, ScanCtl};
use russcan::literal::dedupe::Dedupe;
use russcan::literal::program::run_program;
use russcan::literal::report::ReportSink;
use russcan::literal::InterpError;
use russcan::nfa::NfaError;
use russcan::rose::{RoseEngine, RoseError};
use russcan::scan::{Database, ScanError};
use russcan::serialized::DbError;
use russcan::simd::scalar::V128Scalar;

fn put32(v: &mut [u8], at: usize, x: u32) {
    v[at..at + 4].copy_from_slice(&x.to_le_bytes());
}

fn put64(v: &mut [u8], at: usize, x: u64) {
    v[at..at + 8].copy_from_slice(&x.to_le_bytes());
}

/// Where program `k` is in the bytecode.
fn program_at(k: usize) -> u32 {
    (512 + 256 * k) as u32
}

/// An instruction of `size` bytes, rounded up to a multiple of 8.
fn instr(code: u8, size: usize) -> Vec<u8> {
    let mut v = vec![0u8; (size + 7) / 8 * 8];
    v[0] = code;
    v
}

fn report(id: u32, adjust: i32) -> Vec<u8> {
    let mut v = instr(33, 12);
    put32(&mut v, 4, id);
    put32(&mut v, 8, adjust as u32);
    v
}

fn final_report(id: u32) -> Vec<u8> {
    let mut v = instr(38, 12);
    put32(&mut v, 4, id);
    v
}

fn dedupe_and_report(key: u32, id: u32, fail: u32) -> Vec<u8> {
    let mut v = instr(37, 20);
    put32(&mut v, 4, key);
    put32(&mut v, 8, id);
    put32(&mut v, 16, fail);
    v
}

fn push_delayed(delay: u8, index: u32) -> Vec<u8> {
    let mut v = instr(18, 8);
    v[1] = delay;
    put32(&mut v, 4, index);
    v
}

fn included_jump(squash: u8, child: u32) -> Vec<u8> {
    let mut v = instr(61, 8);
    v[1] = squash;
    put32(&mut v, 4, child);
    v
}

fn groups(code: u8, mask: u64) -> Vec<u8> {
    let mut v = instr(code, 16);
    put64(&mut v, 8, mask);
    v
}

/// An instruction with up to four 32-bit operands from byte 4 on.
fn words(code: u8, size: usize, operands: &[u32]) -> Vec<u8> {
    let mut v = instr(code, size);
    for (k, &x) in operands.iter().enumerate() {
        put32(&mut v, 4 + 4 * k, x);
    }
    v
}

fn program(parts: &[Vec<u8>]) -> Vec<u8> {
    let mut v: Vec<u8> = parts.concat();
    v.resize(256, 0);
    v
}

/// A literal: its text, its id, its bucket, and whether it may not repeat.
struct Lit(&'static [u8], u32, usize, bool);

fn lit_info(lit: &Lit, next: bool) -> Vec<u8> {
    let mut r = vec![0u8; 32];
    for (k, &c) in lit.0.iter().rev().take(8).enumerate() {
        r[7 - k] = c;
        r[15 - k] = 0xff;
    }
    put64(&mut r, 16, u64::MAX);
    put32(&mut r, 24, lit.1);
    r[28] = lit.0.len() as u8;
    r[29] = lit.3 as u8;
    r[30] = next as u8;
    r
}

/// The confirm structures of the literals, one chain a bucket.
fn confirm(lits: &[Lit]) -> Vec<u8> {
    let mut v = vec![0u8; 32];
    for bucket in 0..8 {
        let own: Vec<&Lit> = lits.iter().filter(|l| l.2 == bucket).collect();
        if own.is_empty() {
            continue;
        }
        let at = v.len();
        put32(&mut v, 4 * bucket, at as u32);
        v.resize(at + 40, 0);
        put32(&mut v, at + 16, 1);
        put64(&mut v, at + 24, u64::MAX);
        put32(&mut v, at + 32, 40);
        for (k, lit) in own.iter().enumerate() {
            v.extend_from_slice(&lit_info(lit, k + 1 < own.len()));
        }
    }
    v
}

/// An FDR table in which every position is a candidate. A flood of `flood.0`
/// reports the id `flood.2` where its byte stood `flood.1` times before.
fn fdr_table(lits: &[Lit], flood: Option<(u8, u32, u32)>) -> Vec<u8> {
    let conf = 64 + 512 * 8;
    let mut t = vec![0u8; conf];
    t.extend_from_slice(&confirm(lits));
    let flood_at = t.len();
    t.resize(flood_at + 4 * 256 + 2 * 208, 0);
    let size = t.len() as u32;
    put32(&mut t, 4, size);
    put32(&mut t, 16, conf as u32);
    put32(&mut t, 20, flood_at as u32);
    t[24] = 1;
    t[25] = 9;
    t[26..28].copy_from_slice(&511u16.to_le_bytes());
    let records = flood_at + 4 * 256;
    t[records + 12] = 16;
    if let Some((byte, suffix, id)) = flood {
        put32(&mut t, flood_at + 4 * byte as usize, 1);
        let r = records + 208;
        put64(&mut t, r, u64::MAX);
        put32(&mut t, r + 8, suffix);
        t[r + 12] = 1;
        put32(&mut t, r + 16, id);
        put64(&mut t, r + 80, u64::MAX);
    }
    t
}

/// A Teddy table with one mask in which every position is a candidate.
fn teddy_table(lits: &[Lit]) -> Vec<u8> {
    let mut t = vec![0u8; 96];
    t.extend_from_slice(&confirm(lits));
    let size = t.len() as u32;
    put32(&mut t, 0, 11);
    put32(&mut t, 4, size);
    put32(&mut t, 16, 96);
    t
}

/// The bytecode of a database: programs, delayed literals, and a table.
fn bytecode(programs: &[Vec<u8>], delays: &[u32], table: &[u8]) -> Vec<u8> {
    let mut bc = vec![0u8; 512];
    bc[0] = 1;
    bc[4] = 1;
    put32(&mut bc, 12, 1);
    put64(&mut bc, 240, 1);
    for p in programs {
        bc.extend_from_slice(p);
    }
    let at = bc.len() as u32;
    put32(&mut bc, 140, at);
    put32(&mut bc, 260, delays.len() as u32);
    for d in delays {
        bc.extend_from_slice(&d.to_le_bytes());
    }
    let at = bc.len();
    put32(&mut bc, 96, at as u32);
    bc.resize(at + 256, 0);
    bc[at] = 12;
    bc.extend_from_slice(table);
    bc
}

fn serialize(bc: &[u8]) -> Vec<u8> {
    let mut v = vec![0u8; 104 + bc.len()];
    put32(&mut v, 0, 0xdbdb_dbdb);
    put32(&mut v, 4, 0x0504_0c00);
    put32(&mut v, 8, bc.len() as u32);
    put32(&mut v, 20, crc32c_raw(0, bc));
    v[32..32 + bc.len()].copy_from_slice(bc);
    v
}

/// All reports of a scan that is never stopped, and how it ended.
fn reports(blob: &[u8], data: &[u8]) -> (Vec<(u32, u64)>, Result<(), ScanError>) {
    let db = match Database::load(blob) {
        Ok(db) => db,
        Err(e) => panic!("load: {}", e.message()),
    };
    let mut hits = Vec::new();
    let r = db.scan_block(data, &mut |id, to| {
        hits.push((id, to));
        ScanCtl::Continue
    });
    (hits, r)
}

/// The reports of a scan with one literal "ab" and the given program.
fn run_on(parts: &[Vec<u8>], data: &[u8]) -> (Vec<(u32, u64)>, Result<(), ScanError>) {
    let table = fdr_table(&[Lit(b"ab", program_at(0), 0, false)], None);
    let blob = serialize(&bytecode(&[program(parts)], &[], &table));
    reports(&blob, data)
}

fn naive(text: &[u8], data: &[u8]) -> Vec<u64> {
    (0..data.len())
        .filter(|&p| data[..p + 1].ends_with(text))
        .map(|p| p as u64)
        .collect()
}

/// A repeatable text over a few letters.
fn sample(len: usize, seed: u64) -> Vec<u8> {
    let mut x = seed | 1;
    (0..len)
        .map(|_| {
            x ^= x << 13;
            x ^= x >> 7;
            x ^= x << 17;
            b"abcx"[(x >> 33) as usize % 4]
        })
        .collect()
}

const LENS: &[usize] = &[0, 1, 2, 3, 15, 16, 17, 18, 19, 20, 31, 32, 33, 34, 35, 36, 47, 48, 51, 64, 100, 300];

#[test]
fn fdr_hits_equal_naive_search() {
    let table = fdr_table(
        &[
            Lit(b"ab", 1, 0, false),
            Lit(b"cab", 2, 3, false),
            Lit(b"x", 3, 7, false),
        ],
        None,
    );
    let t = FdrTable::parse(&table).unwrap();
    for &len in LENS {
        for seed in 0..20 {
            let data = sample(len, seed * 77 + len as u64);
            for start in [0usize, 1, 5, 16, 17, 40] {
                let mut hits: Vec<(u64, u32)> = Vec::new();
                let r = t.exec(&data, start, &mut |end, id| {
                    hits.push((end, id));
                    ScanCtl::Continue
                });
                assert_eq!(r, ExecResult::Completed);
                assert!(hits.windows(2).all(|w| w[0].0 <= w[1].0), "in order");
                let mut expected: Vec<(u64, u32)> = Vec::new();
                for (text, id) in [(&b"ab"[..], 1u32), (&b"cab"[..], 2), (&b"x"[..], 3)] {
                    expected.extend(
                        naive(text, &data)
                            .into_iter()
                            .filter(|&p| p >= start as u64)
                            .map(|p| (p, id)),
                    );
                }
                expected.sort_unstable();
                hits.sort_unstable();
                assert_eq!(hits, expected, "len={len} start={start}");
            }
        }
    }
}

#[test]
fn teddy_hits_equal_naive_search() {
    let table = teddy_table(&[
        Lit(b"ab", 1, 0, false),
        Lit(b"abc", 2, 1, false),
        Lit(b"xx", 3, 6, false),
    ]);
    let t = TeddyTable::parse(&table).unwrap();
    for &len in LENS {
        for seed in 0..20 {
            let data = sample(len, seed * 31 + len as u64);
            let mut hits: Vec<(u64, u32)> = Vec::new();
            let r = t.exec(&data, 0, &mut |end, id| {
                hits.push((end, id));
                ScanCtl::Continue
            });
            assert_eq!(r, ExecResult::Completed);
            assert!(hits.windows(2).all(|w| w[0].0 <= w[1].0), "in order");
            let mut expected: Vec<(u64, u32)> = Vec::new();
            for (text, id) in [(&b"ab"[..], 1u32), (&b"abc"[..], 2), (&b"xx"[..], 3)] {
                expected.extend(naive(text, &data).into_iter().map(|p| (p, id)));
            }
            expected.sort_unstable();
            hits.sort_unstable();
            assert_eq!(hits, expected, "len={len}");
        }
    }
}

#[test]
fn teddy_masks_exclude_positions() {
    let mut table = teddy_table(&[Lit(b"ab", 1, 0, false)]);
    // Bucket 0 is excluded at every byte whose low nibble is not 2.
    for n in 0..16 {
        table[64 + n] = if n == 2 { 0 } else { 1 };
    }
    let t = TeddyTable::parse(&table).unwrap();
    let mut hits = Vec::new();
    t.exec(b"xxabxxab", 0, &mut |end, id| {
        hits.push((end, id));
        ScanCtl::Continue
    });
    assert_eq!(hits, vec![(3, 1), (7, 1)]);
    table[64 + 2] = 1;
    let t = TeddyTable::parse(&table).unwrap();
    t.exec(b"xxabxxab", 0, &mut |_, _| panic!("excluded"));
}

#[test]
fn fdr_table_excludes_positions() {
    let mut table = fdr_table(&[Lit(b"ab", 1, 0, false)], None);
    // The entry of a pair of bytes excludes bucket 0 at its first position.
    let pair = u16::from_le_bytes(*b"bx") as usize & 511;
    table[64 + 8 * pair] = 1;
    let t = FdrTable::parse(&table).unwrap();
    let mut hits = Vec::new();
    t.exec(b"__abx_____abc___ab______", 0, &mut |end, _| {
        hits.push(end);
        ScanCtl::Continue
    });
    assert_eq!(hits, vec![11, 17]);
}

#[test]
fn engines_stop_when_told() {
    let data = b"ab ab ab ab ab ab ab ab ab ab ab ab ab";
    let fdr = fdr_table(&[Lit(b"ab", 1, 0, false)], None);
    let teddy = teddy_table(&[Lit(b"ab", 1, 0, false)]);
    for stop_after in 1..=13u32 {
        let mut seen = 0u32;
        let r = FdrTable::parse(&fdr).unwrap().exec(data, 0, &mut |_, _| {
            seen += 1;
            if seen == stop_after {
                ScanCtl::Terminate
            } else {
                ScanCtl::Continue
            }
        });
        assert_eq!((seen, r), (stop_after, ExecResult::Terminated));
        let mut seen = 0u32;
        let r = TeddyTable::parse(&teddy).unwrap().exec(data, 0, &mut |_, _| {
            seen += 1;
            if seen == stop_after {
                ScanCtl::Terminate
            } else {
                ScanCtl::Continue
            }
        });
        assert_eq!((seen, r), (stop_after, ExecResult::Terminated));
    }
}

#[test]
fn squashed_bucket_is_not_confirmed() {
    let lits = [Lit(b"cab", 2, 0, false), Lit(b"ab", 1, 4, false)];
    for table in [fdr_table(&lits, None)] {
        let t = FdrTable::parse(&table).unwrap();
        let mut hits = Vec::new();
        t.exec_squash(b"cab..ab", 0, &mut |end, id| {
            hits.push((end, id));
            (ScanCtl::Continue, if id == 2 { 1 << 4 } else { 0 })
        });
        assert_eq!(hits, vec![(2, 2), (6, 1)]);
    }
    let table = teddy_table(&lits);
    let t = TeddyTable::parse(&table).unwrap();
    let mut hits = Vec::new();
    t.exec_squash(b"cab..ab", 0, &mut |end, id| {
        hits.push((end, id));
        (ScanCtl::Continue, if id == 2 { 1 << 4 } else { 0 })
    });
    assert_eq!(hits, vec![(2, 2), (6, 1)]);
}

#[test]
fn literal_without_repeats_is_reported_once_in_a_row() {
    let table = fdr_table(&[Lit(b"a", 1, 0, true), Lit(b"b", 2, 1, false)], None);
    let t = FdrTable::parse(&table).unwrap();
    let mut hits = Vec::new();
    t.exec(b"aaabaa", 0, &mut |end, id| {
        hits.push((end, id));
        ScanCtl::Continue
    });
    assert_eq!(hits, vec![(0, 1), (3, 2), (4, 1)]);
}

#[test]
fn floods_report_what_the_confirmation_would() {
    for len in [256usize, 257, 300, 511, 1000] {
        let mut data = vec![b'a'; len];
        data[len / 3] = b'z';
        let lits = [Lit(b"aaaa", 9, 0, false)];
        let plain = fdr_table(&lits, None);
        let flooded = fdr_table(&lits, Some((b'a', 4, 9)));
        let mut results = Vec::new();
        for table in [plain, flooded] {
            let t = FdrTable::parse(&table).unwrap();
            let mut hits = Vec::new();
            t.exec(&data, 0, &mut |end, id| {
                hits.push((end, id));
                ScanCtl::Continue
            });
            results.push(hits);
        }
        let expected: Vec<(u64, u32)> =
            naive(b"aaaa", &data).into_iter().map(|p| (p, 9)).collect();
        assert_eq!(results[0], expected, "len={len}");
        assert_eq!(results[1], expected, "len={len}");
    }
}

#[test]
fn floods_go_by_their_record() {
    // Only the record of the flood reports anything.
    let table = fdr_table(&[Lit(b"zzzz", 1, 0, false)], Some((b'a', 4, 77)));
    let t = FdrTable::parse(&table).unwrap();
    let data = vec![b'a'; 600];
    let mut seen = 0u32;
    let r = t.exec(&data, 0, &mut |end, id| {
        assert_eq!(id, 77);
        assert!(end < 600);
        seen += 1;
        if seen == 5 {
            ScanCtl::Terminate
        } else {
            ScanCtl::Continue
        }
    });
    assert_eq!((seen, r), (5, ExecResult::Terminated));
}

#[test]
fn short_blocks_scan_alike_at_every_address() {
    let blob = serialize(&bytecode(
        &[program(&[report(5, 0)])],
        &[],
        &fdr_table(&[Lit(b"ab", program_at(0), 0, false)], Some((b'a', 2, program_at(0)))),
    ));
    let db = Database::load(&blob).map_err(|e| e.message()).unwrap();
    let data = vec![b'a'; 255];
    for phase in 0..8 {
        let mut hits = 0;
        db.scan_block_at::<V128Scalar, _>(&data, phase, &mut |_, _| {
            hits += 1;
            ScanCtl::Continue
        })
        .map_err(|e| e.message())
        .unwrap();
        assert_eq!(hits, 0);
    }
}

#[test]
fn replay_confirms_what_was_noted() {
    let table = fdr_table(&[Lit(b"ab", 1, 0, false)], None);
    let t = FdrTable::parse(&table).unwrap();
    let mut data = vec![b'_'; 64];
    data[20..22].copy_from_slice(b"ab");
    let notes = t.dump_main_candidates(&data);
    assert_eq!(notes.iter().map(|n| n.0).collect::<Vec<_>>(), vec![16, 32]);
    assert!(notes.iter().all(|n| n.1 == u64::MAX && n.2 == u64::MAX));
    let one = 0u64
        .wrapping_add(21u64.rotate_left(7) ^ 1)
        .wrapping_mul(0x9E37_79B9_7F4A_7C15);
    let two = one
        .wrapping_add(21u64.rotate_left(7) ^ 1)
        .wrapping_mul(0x9E37_79B9_7F4A_7C15);
    assert_eq!(t.confirm_replay(&data, &notes, 0), 0);
    assert_eq!(t.confirm_replay(&data, &notes, 1), one);
    assert_eq!(t.confirm_replay(&data, &notes, 2), two);
    assert_eq!(t.dump_main_candidates(&[]), Vec::new());
}

#[test]
fn reports_carry_the_end_and_the_adjustment() {
    let (hits, r) = run_on(&[report(7, 0), report(8, -2), report(9, 5)], b"..ab..");
    assert!(r.is_ok());
    assert_eq!(hits, vec![(7, 4), (8, 2), (9, 9)]);
    // An adjustment below zero wraps around.
    let (hits, _) = run_on(&[report(7, -3)], b"ab");
    assert_eq!(hits, vec![(7, u64::MAX)]);
}

#[test]
fn final_report_ends_the_program() {
    let (hits, r) = run_on(&[final_report(7), report(8, 0)], b"ab ab");
    assert!(r.is_ok());
    assert_eq!(hits, vec![(7, 2), (7, 5)]);
}

#[test]
fn deduplicated_pair_is_reported_once() {
    // The second instruction has the same key; the third another one.
    let (hits, r) = run_on(
        &[
            dedupe_and_report(1, 10, 24),
            dedupe_and_report(1, 11, 24),
            dedupe_and_report(2, 12, 24),
        ],
        b"ab..ab",
    );
    assert!(r.is_ok());
    assert_eq!(hits, vec![(10, 2), (12, 2), (10, 6), (12, 6)]);
}

#[test]
fn terminate_stops_the_scan_for_good() {
    let programs = [
        program(&[report(1, 0), push_delayed(2, 0), report(2, 0)]),
        program(&[report(3, 0)]),
    ];
    let table = fdr_table(&[Lit(b"ab", program_at(0), 0, false)], None);
    let blob = serialize(&bytecode(&programs, &[program_at(1)], &table));
    let db = Database::load(&blob).map_err(|e| e.message()).unwrap();
    let all = reports(&blob, b"ab...ab...ab").0;
    assert_eq!(
        all,
        vec![(1, 2), (2, 2), (3, 4), (1, 7), (2, 7), (3, 9), (1, 12), (2, 12)]
    );
    for n in 1..=all.len() {
        let mut hits = Vec::new();
        let r = db.scan_block(b"ab...ab...ab", &mut |id, to| {
            hits.push((id, to));
            if hits.len() == n {
                ScanCtl::Terminate
            } else {
                ScanCtl::Continue
            }
        });
        assert!(r.is_ok());
        assert_eq!(hits, all[..n], "stopped after {n}");
    }
}

#[test]
fn replays_come_in_order_and_first() {
    // "ab" at 2 asks for a replay at 5, where "cd" ends as well, and for one
    // at 4. The replay at 5 comes before the match at 5.
    let programs = [
        program(&[push_delayed(3, 0), push_delayed(2, 1), report(1, 0)]),
        program(&[report(2, 0)]),
        program(&[report(3, 0)]),
        program(&[report(4, 0)]),
    ];
    let table = fdr_table(
        &[
            Lit(b"ab", program_at(0), 0, false),
            Lit(b"cd", program_at(3), 1, false),
        ],
        None,
    );
    let blob = serialize(&bytecode(&programs, &[program_at(1), program_at(2)], &table));
    let (hits, r) = reports(&blob, b"ab_cd___");
    assert!(r.is_ok());
    assert_eq!(hits, vec![(1, 2), (3, 4), (2, 5), (4, 5)]);
}

#[test]
fn replay_behind_the_block_does_not_happen() {
    let programs = [program(&[push_delayed(3, 0)]), program(&[report(2, 0)])];
    let table = fdr_table(&[Lit(b"ab", program_at(0), 0, false)], None);
    let blob = serialize(&bytecode(&programs, &[program_at(1)], &table));
    assert_eq!(reports(&blob, b"ab__").0, vec![]);
    assert_eq!(reports(&blob, b"ab___").0, vec![(2, 5)]);
}

#[test]
fn replay_of_itself_without_delay_ends() {
    let programs = [
        program(&[push_delayed(1, 0)]),
        program(&[report(2, 0), push_delayed(0, 0), push_delayed(1, 0)]),
    ];
    let table = fdr_table(&[Lit(b"ab", program_at(0), 0, false)], None);
    let blob = serialize(&bytecode(&programs, &[program_at(1)], &table));
    let (hits, r) = reports(&blob, b"ab____");
    assert!(r.is_ok());
    assert_eq!(hits, vec![(2, 3), (2, 4), (2, 5), (2, 6)]);
}

#[test]
fn included_literal_is_squashed_and_run() {
    // "cab" squashes the bucket of "ab" and runs its program in place.
    let programs = [
        program(&[report(1, 0)]),
        program(&[report(2, 0), included_jump(1 << 4, program_at(0))]),
    ];
    for table in [
        fdr_table(
            &[
                Lit(b"cab", program_at(1), 0, false),
                Lit(b"ab", program_at(0), 4, false),
            ],
            None,
        ),
        teddy_table(&[
            Lit(b"cab", program_at(1), 0, false),
            Lit(b"ab", program_at(0), 4, false),
        ]),
    ] {
        let blob = serialize(&bytecode(&programs, &[], &table));
        let (hits, r) = reports(&blob, b"cab_ab");
        assert!(r.is_ok());
        assert_eq!(hits, vec![(2, 3), (1, 3), (1, 6)]);
    }
}

#[test]
fn groups_switch_programs_off_and_on() {
    // The initial groups are 1. After the first report they are squashed.
    let parts = [groups(3, 1), report(1, 0), groups(43, !1)];
    assert_eq!(run_on(&parts, b"ab ab ab").0, vec![(1, 2)]);
    // Without a report, groups are not squashed.
    let parts = [groups(3, 1), groups(43, !1), report(1, 0)];
    assert_eq!(run_on(&parts, b"ab ab").0, vec![(1, 2), (1, 5)]);
    // A group that is not on; and one that is switched on.
    assert_eq!(run_on(&[groups(3, 2), report(1, 0)], b"ab ab").0, vec![]);
    let parts = [groups(42, 2), groups(3, 2), report(1, 0)];
    assert_eq!(run_on(&parts, b"ab ab").0, vec![(1, 2), (1, 5)]);
}

#[test]
fn roles_are_handled_once_and_switched_on() {
    // Key 5 is handled by the first match; the jump leads to the end.
    let parts = [words(6, 12, &[5, 32]), report(1, 0)];
    assert_eq!(run_on(&parts, b"ab ab").0, vec![(1, 2)]);
    // State 3 is set behind its test.
    let parts = [words(44, 12, &[3, 32]), report(1, 0), words(41, 8, &[3])];
    assert_eq!(run_on(&parts, b"ab ab ab").0, vec![(1, 5), (1, 8)]);
}

#[test]
fn tests_of_a_program_choose_its_branch() {
    // Not earlier than offset 4.
    let parts = [words(2, 12, &[4, 32]), report(1, 0)];
    assert_eq!(run_on(&parts, b"ab ab").0, vec![(1, 5)]);
    // Between offsets 3 and 6.
    let mut bounds = instr(5, 32);
    put64(&mut bounds, 8, 3);
    put64(&mut bounds, 16, 6);
    put32(&mut bounds, 24, 48);
    assert_eq!(run_on(&[bounds, report(1, 0)], b"ab ab ab").0, vec![(1, 5)]);
    // The byte in front of the literal is an x.
    let mut byte = instr(11, 12);
    byte[1] = 0xff;
    byte[2] = b'x';
    put32(&mut byte, 4, -3i32 as u32);
    put32(&mut byte, 8, 32);
    assert_eq!(run_on(&[byte, report(1, 0)], b"xab yab xab").0, vec![(1, 3), (1, 11)]);
    // The byte four in front of the end is in a class; in front of the block
    // there is none, and the test passes.
    let mut look = instr(7, 12);
    look[1] = -4i8 as u8;
    put32(&mut look, 4, program_at(0) + 128);
    put32(&mut look, 8, 32);
    let mut p = program(&[look, report(1, 0)]);
    p[128 + b'x' as usize / 8] |= 1 << (b'x' % 8);
    let table = fdr_table(&[Lit(b"ab", program_at(0), 0, false)], None);
    let blob = serialize(&bytecode(&[p], &[], &table));
    assert_eq!(reports(&blob, b"aab_ab_xyab_xzzab").0, vec![(1, 3), (1, 11)]);
    // Eight bytes under a mask: "_ab" with anything in front.
    let mut mask = instr(9, 40);
    mask[8..11].copy_from_slice(&[0xff; 3]);
    mask[16..19].copy_from_slice(b"_ab");
    put32(&mut mask, 32, -3i32 as u32);
    put32(&mut mask, 36, 56);
    assert_eq!(
        run_on(&[mask, report(1, 0)], b"..yab._ab.......").0,
        vec![(1, 9)]
    );
}

#[test]
fn longer_literals_are_compared_in_full() {
    // The text of a longer literal stands in the bytecode behind the program.
    let at = program_at(0) + 128;
    for (code, expected) in [(53u8, vec![(1, 8)]), (54, vec![(1, 8), (1, 17)])] {
        let mut p = program(&[words(code, 16, &[at, 8, 32]), report(1, 0)]);
        let text: &[u8; 8] = if code == 53 { b"longerab" } else { b"LONGERAB" };
        p[128..136].copy_from_slice(text);
        let table = fdr_table(
            &[
                Lit(b"ab", program_at(0), 0, false),
                Lit(b"AB", program_at(0), 1, false),
            ],
            None,
        );
        let blob = serialize(&bytecode(&[p], &[], &table));
        let (hits, r) = reports(&blob, b"longerab_LoNgErab_ab");
        assert!(r.is_ok());
        assert_eq!(hits, expected, "code {code}");
    }
}

#[test]
fn unknown_instruction_is_an_error() {
    let (hits, r) = run_on(&[report(1, 0), instr(25, 8)], b"ab ab");
    assert_eq!(hits, vec![(1, 2)]);
    assert!(matches!(
        r,
        Err(ScanError::Interp(InterpError::UnsupportedOpcode(25)))
    ));
}

#[test]
fn endless_program_is_an_error() {
    // A jump over nothing comes back to itself.
    let (_, r) = run_on(&[words(44, 12, &[3, 0])], b"ab");
    assert!(matches!(
        r,
        Err(ScanError::Interp(InterpError::ProgramOverrun))
    ));
    // So does an included program that includes itself.
    let (_, r) = run_on(&[included_jump(0, program_at(0))], b"ab");
    assert!(matches!(
        r,
        Err(ScanError::Interp(InterpError::ProgramOverrun))
    ));
}

#[test]
fn program_outside_the_bytecode_is_an_error() {
    let table = fdr_table(&[Lit(b"ab", 0x00ff_ffff, 0, false)], None);
    let bc = bytecode(&[], &[], &table);
    let (hits, r) = reports(&serialize(&bc), b"ab");
    assert!(hits.is_empty());
    match r {
        Err(ScanError::Interp(InterpError::Rose(RoseError::OffsetOutOfRange { off, len }))) => {
            assert_eq!((off, len), (0x00ff_ffff, bc.len()));
        }
        _ => panic!("expected an offset error"),
    }
    let (_, r) = run_on(&[included_jump(0, 0x00ff_ffff)], b"ab");
    assert!(matches!(
        r,
        Err(ScanError::Interp(InterpError::Rose(
            RoseError::OffsetOutOfRange { .. }
        )))
    ));
}

#[test]
fn prefix_automaton_is_refused() {
    // The automaton of queue 0 is the bytecode itself: its record is at 0.
    let (_, r) = run_on(&[words(17, 20, &[0, 2, 0, 24])], b"ab");
    assert!(matches!(
        r,
        Err(ScanError::Interp(InterpError::Nfa(NfaError::Unsupported(_))))
    ));
    // An infix that was never triggered fails its test.
    let (hits, r) = run_on(&[words(16, 20, &[0, 0, 0, 24]), report(1, 0)], b"ab");
    assert!(r.is_ok());
    assert_eq!(hits, vec![(1, 2)]);
    // One that was is refused.
    let (_, r) = run_on(
        &[words(26, 16, &[0, 0, 0]), words(16, 20, &[0, 0, 0, 24])],
        b"ab",
    );
    assert!(matches!(
        r,
        Err(ScanError::Interp(InterpError::Nfa(NfaError::Unsupported(_))))
    ));
}

#[test]
fn programs_run_on_their_own() {
    let p = program(&[
        report(7, 1),
        push_delayed(4, 3),
        included_jump(2, program_at(1)),
        report(8, 0),
    ]);
    let child = program(&[groups(42, 6), final_report(9)]);
    let bc = bytecode(&[p, child], &[], &[]);
    let rose = RoseEngine::parse(&bc).unwrap();
    for in_confirm in [true, false] {
        let mut on: u64 = 1;
        let mut dedupe = Dedupe::default();
        let mut delayed = vec![(1u8, 1u32)];
        let mut squash = 1u8;
        let mut hits = Vec::new();
        let r = run_program(
            &rose,
            program_at(0),
            9,
            b"0123456789",
            &mut on,
            &mut dedupe,
            &mut |id, to| {
                hits.push((id, to));
                ScanCtl::Continue
            },
            &mut delayed,
            in_confirm,
            &mut squash,
        );
        assert_eq!(r, Ok(ScanCtl::Continue));
        assert_eq!(delayed, vec![(1, 1), (4, 3)]);
        if in_confirm {
            assert_eq!(hits, vec![(7, 11), (9, 10)]);
            assert_eq!((on, squash), (7, 3));
        } else {
            assert_eq!(hits, vec![(7, 11), (8, 10)]);
            assert_eq!((on, squash), (1, 1));
        }
    }
    let r = run_program(
        &rose,
        program_at(0),
        9,
        b"0123456789",
        &mut 1,
        &mut Dedupe::default(),
        &mut |_, _| ScanCtl::Terminate,
        &mut Vec::new(),
        true,
        &mut 0,
    );
    assert_eq!(r, Ok(ScanCtl::Terminate));
}

/// Runs the program at `off` for a literal whose last byte is at `last`, and
/// gives back its reports.
fn play(rose: &RoseEngine, off: u32, last: u64, memory: &mut Dedupe) -> Vec<(u32, u64)> {
    let mut hits = Vec::new();
    let r = run_program(
        rose,
        off,
        last,
        b"0123456789",
        &mut 1,
        memory,
        &mut |id, to| {
            hits.push((id, to));
            ScanCtl::Continue
        },
        &mut Vec::new(),
        false,
        &mut 0,
    );
    assert_eq!(r, Ok(ScanCtl::Continue));
    hits
}

fn trigger_suffix(queue: u32, event: u32) -> Vec<u8> {
    let mut v = instr(27, 12);
    put32(&mut v, 4, queue);
    put32(&mut v, 8, event);
    v
}

#[test]
fn suffix_triggers_stay_until_taken() {
    let programs = [
        program(&[trigger_suffix(1, 2), dedupe_and_report(5, 50, 24), trigger_suffix(3, 4)]),
        program(&[report(7, 0), trigger_suffix(5, 6)]),
        program(&[report(8, 0)]),
    ];
    let bc = bytecode(&programs, &[], &[]);
    let rose = RoseEngine::parse(&bc).unwrap();
    let mut d = Dedupe::default();
    assert_eq!(play(&rose, program_at(0), 4, &mut d), vec![(50, 5)]);
    assert_eq!(play(&rose, program_at(2), 4, &mut d), vec![(8, 5)]);
    assert_eq!(play(&rose, program_at(1), 6, &mut d), vec![(7, 7)]);
    assert_eq!(d.take_suffix(), vec![(1, 2, 5), (3, 4, 5), (5, 6, 7)]);
    assert_eq!(d.take_suffix(), vec![]);
    // The pair that was reported is still remembered.
    assert_eq!(play(&rose, program_at(0), 4, &mut d), vec![]);
    assert_eq!(d.take_suffix(), vec![(1, 2, 5), (3, 4, 5)]);
}

#[test]
fn pairs_are_reported_once_over_programs() {
    // Past the report, or at the jump, which leads behind the second report.
    let twice = program(&[dedupe_and_report(5, 50, 40), report(6, 0), report(7, 0)]);
    let once = program(&[dedupe_and_report(5, 51, 24), report(8, 0)]);
    let bc = bytecode(&[twice, once], &[], &[]);
    let rose = RoseEngine::parse(&bc).unwrap();
    let mut d = Dedupe::default();
    assert_eq!(play(&rose, program_at(0), 4, &mut d), vec![(50, 5), (6, 5), (7, 5)]);
    assert_eq!(play(&rose, program_at(0), 4, &mut d), vec![(7, 5)]);
    assert_eq!(play(&rose, program_at(1), 4, &mut d), vec![(8, 5)]);
    // Another offset is another pair.
    assert_eq!(play(&rose, program_at(1), 6, &mut d), vec![(51, 7), (8, 7)]);
    assert_eq!(play(&rose, program_at(0), 6, &mut d), vec![(7, 7)]);
    d.clear();
    assert_eq!(play(&rose, program_at(1), 4, &mut d), vec![(51, 5), (8, 5)]);
}

/// Collects reports, and stops the scan at one of them.
struct Collect {
    hits: Vec<(u32, u64)>,
    stop_at: usize,
}

impl ReportSink for Collect {
    type Fixed = ();

    fn report(&mut self, id: u32, to: u64) -> ScanCtl {
        self.hits.push((id, to));
        if self.hits.len() == self.stop_at {
            ScanCtl::Terminate
        } else {
            ScanCtl::Continue
        }
    }
}

#[test]
fn reports_go_into_a_sink() {
    let programs = [
        program(&[dedupe_and_report(1, 10, 24), push_delayed(3, 0)]),
        program(&[report(20, 0)]),
    ];
    let table = fdr_table(&[Lit(b"ab", program_at(0), 0, false)], None);
    let blob = serialize(&bytecode(&programs, &[program_at(1)], &table));
    let db = match Database::load(&blob) {
        Ok(db) => db,
        Err(e) => panic!("load: {}", e.message()),
    };
    let data = b"ab_ab___ab";
    let all = vec![(10, 2), (20, 5), (10, 5), (20, 8), (10, 10)];
    assert_eq!(reports(&blob, data).0, all);
    for stop_at in 0..all.len() + 2 {
        let sink = Collect { hits: Vec::new(), stop_at };
        let (r, sink) = db.scan_into::<V128Scalar, Collect>(data, 3, sink);
        assert!(r.is_ok());
        let n = if stop_at == 0 { all.len() } else { stop_at.min(all.len()) };
        assert_eq!(sink.hits, all[..n]);
    }
}

#[test]
fn cleared_memory_is_as_new() {
    let programs = [
        program(&[trigger_suffix(1, 2), dedupe_and_report(5, 50, 24), trigger_suffix(3, 4)]),
        program(&[report(7, 0), trigger_suffix(5, 6)]),
    ];
    let bc = bytecode(&programs, &[], &[]);
    let rose = RoseEngine::parse(&bc).unwrap();
    let mut used = Dedupe::default();
    for k in [0, 1, 0] {
        play(&rose, program_at(k), 4, &mut used);
    }
    used.clear();
    let mut new = Dedupe::default();
    for k in [0, 0, 1] {
        assert_eq!(
            play(&rose, program_at(k), 4, &mut used),
            play(&rose, program_at(k), 4, &mut new)
        );
    }
    assert_eq!(used.take_suffix(), new.take_suffix());
    assert!(!used.fresh(5, 5) && !new.fresh(5, 5));
}

#[test]
fn scans_are_repeatable() {
    let programs = [
        program(&[dedupe_and_report(1, 10, 24), push_delayed(3, 0)]),
        program(&[report(20, 0)]),
    ];
    let table = fdr_table(
        &[Lit(b"ab", program_at(0), 0, false)],
        Some((b'a', 2, program_at(0))),
    );
    let blob = serialize(&bytecode(&programs, &[program_at(1)], &table));
    for len in [50usize, 255, 700] {
        let data = sample(len, 5);
        let one = reports(&blob, &data).0;
        let two = reports(&blob, &data).0;
        assert!(!one.is_empty());
        assert_eq!(one, two);
    }
}

#[test]
fn empty_block_has_no_reports() {
    let (hits, r) = run_on(&[report(1, 0)], b"");
    assert!(hits.is_empty() && r.is_ok());
}

#[test]
fn changed_database_is_not_loaded() {
    let table = fdr_table(&[Lit(b"ab", program_at(0), 0, false)], None);
    let blob = serialize(&bytecode(&[program(&[report(1, 0)])], &[], &table));
    assert!(Database::load(&blob).is_ok());
    for at in (32..blob.len() - 72).step_by(97) {
        let mut bad = blob.clone();
        bad[at] ^= 0x40;
        assert!(
            matches!(
                Database::load(&bad),
                Err(ScanError::Db(DbError::CrcMismatch { .. }))
            ),
            "byte {at}"
        );
    }
    assert!(matches!(
        Database::load(&blob[..blob.len() - 1]),
        Err(ScanError::Db(DbError::LengthMismatch { .. }))
    ));
}

#[test]
fn database_out_of_scope_is_refused() {
    let table = fdr_table(&[Lit(b"ab", program_at(0), 0, false)], None);
    let bc = bytecode(&[program(&[report(1, 0)])], &[], &table);
    for (at, what) in [
        (88, "anchored-matcher"),
        (92, "eod-matcher"),
        (108, "long-literal-table"),
        (148, "nfa-active-array"),
        (156, "nfa-queues"),
        (184, "eod-program"),
        (268, "anchored-literals"),
    ] {
        let mut bad = bc.clone();
        put32(&mut bad, at, 1);
        match Database::load(&serialize(&bad)) {
            Err(ScanError::Rose(e)) => assert_eq!(e, RoseError::NeedsFullRose(what)),
            _ => panic!("{what} was not refused"),
        }
    }
    let mut bad = bc.clone();
    put32(&mut bad, 12, 2);
    assert!(matches!(
        Database::load(&serialize(&bad)),
        Err(ScanError::Rose(RoseError::NotBlockMode(2)))
    ));
    let mut bad = bc.clone();
    bad[4] = 7;
    assert!(matches!(
        Database::load(&serialize(&bad)),
        Err(ScanError::Rose(RoseError::UnsupportedRuntime(7)))
    ));
    let mut bad = bc.clone();
    put32(&mut bad, 96, 0);
    assert!(matches!(
        Database::load(&serialize(&bad)),
        Err(ScanError::Rose(RoseError::NoFloatingMatcher))
    ));
    assert!(matches!(
        Database::load(&serialize(&bc[..200])),
        Err(ScanError::Rose(RoseError::Truncated))
    ));
    // A floating matcher outside the FDR family, with a sound table behind it.
    for ty in [16u8, 0, 13] {
        let mut bad = bc.clone();
        let at = bc.len() - table.len() - 256;
        bad[at] = ty;
        match Database::load(&serialize(&bad)) {
            Err(ScanError::Rose(e)) => assert_eq!(e, RoseError::NotFdr(ty)),
            _ => panic!("type {ty} was not refused"),
        }
    }
    let mut bad = bc.clone();
    let at = bc.len() - table.len();
    put32(&mut bad, at, 99);
    assert!(matches!(
        Database::load(&serialize(&bad)),
        Err(ScanError::Fdr(HwlmError::BadTable(_)))
    ));
}

#[test]
fn header_fields_are_read() {
    let table = fdr_table(&[Lit(b"ab", program_at(0), 0, false)], None);
    let mut bc = bytecode(&[program(&[report(1, 0)])], &[program_at(0), 9], &table);
    put32(&mut bc, 388, 17);
    let rose = RoseEngine::parse(&bc).unwrap();
    assert_eq!(rose.mode, 1);
    assert_eq!(rose.initial_groups, 1);
    assert_eq!(rose.total_num_literals, 17);
    assert_eq!(rose.delay_count, 2);
    assert_eq!(rose.floating_hwlm_type(), Ok(12));
    assert_eq!(rose.floating_fdr_table().unwrap(), &table[..]);
    assert_eq!(rose.delay_program(0), Ok(program_at(0)));
    assert_eq!(rose.delay_program(1), Ok(9));
    assert_eq!(rose.by_offset(bc.len()).unwrap().len(), 0);
    assert!(rose.by_offset(bc.len() + 1).is_err());
    assert_eq!(rose.bytecode(), &bc[..]);
    let at = bc.len() - table.len() - 256;
    bc[at] = 16;
    let rose = RoseEngine::parse(&bc).unwrap();
    assert_eq!(rose.floating_fdr_table(), Err(RoseError::NotFdr(16)));
    assert!(rose.floating_matcher_table().is_ok());
}

#[test]
fn outfix_automata_are_located() {
    let mut bc = vec![0u8; 600];
    put32(&mut bc, 12, 1);
    put32(&mut bc, 156, 2);
    put32(&mut bc, 236, 500);
    put32(&mut bc, 396, 0);
    put32(&mut bc, 400, 2);
    put32(&mut bc, 500, 560);
    put32(&mut bc, 520, 590);
    let rose = RoseEngine::parse_allow_nfa(&bc).unwrap();
    let all = rose.outfix_nfas().unwrap();
    assert_eq!(all.iter().map(|b| b.len()).collect::<Vec<_>>(), vec![40, 10]);
    assert_eq!(rose.nfa_by_queue(1).unwrap().len(), 10);
    assert!(RoseEngine::parse(&bc).is_err());
    put32(&mut bc, 520, 601);
    let rose = RoseEngine::parse_allow_nfa(&bc).unwrap();
    assert_eq!(
        rose.nfa_by_queue(1),
        Err(RoseError::OffsetOutOfRange { off: 601, len: 600 })
    );
    put32(&mut bc, 400, 3);
    assert_eq!(
        RoseEngine::parse_allow_nfa(&bc).unwrap_err(),
        RoseError::NeedsFullRose("nfa-queue вне outfix-диапазона")
    );
}
