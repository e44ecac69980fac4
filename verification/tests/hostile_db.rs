use russcan::crc32c::crc32c_raw;
use russcan::hwlm::fdr::FdrTable;
use russcan::hwlm::ScanCtl;
use russcan::rose::RoseEngine;
use russcan::scan::Database;
use russcan::serialized::SerializedDb;

fn put32(v: &mut [u8], at: usize, x: u32) {
    v[at..at + 4].copy_from_slice(&x.to_le_bytes());
}

fn put64(v: &mut [u8], at: usize, x: u64) {
    v[at..at + 8].copy_from_slice(&x.to_le_bytes());
}

/// A literal record: the last bytes of the text, its id, and whether another
/// record follows.
fn lit_info(text: &[u8], id: u32, next: bool) -> Vec<u8> {
    let mut r = vec![0u8; 32];
    for (k, &c) in text.iter().rev().take(8).enumerate() {
        r[7 - k] = c;
        r[15 - k] = 0xff;
    }
    put64(&mut r, 16, u64::MAX);
    put32(&mut r, 24, id);
    r[28] = text.len() as u8;
    r[30] = next as u8;
    r
}

/// An FDR table in which every position is a candidate, so that the
/// confirmation alone decides.
fn fdr_table(lits: &[(&[u8], u32)]) -> Vec<u8> {
    let conf = 64 + 512 * 8;
    let fdrc = conf + 32;
    let chain = fdrc + 40;
    let flood = chain + 32 * lits.len();
    let mut t = vec![0u8; flood + 4 * 256 + 208];
    let size = t.len() as u32;
    put32(&mut t, 4, size);
    put32(&mut t, 16, conf as u32);
    put32(&mut t, 20, flood as u32);
    t[24] = 1;
    t[25] = 9;
    t[26..28].copy_from_slice(&511u16.to_le_bytes());
    put32(&mut t, conf, 32);
    put32(&mut t, fdrc + 16, 1);
    put64(&mut t, fdrc + 24, u64::MAX);
    put32(&mut t, fdrc + 32, 40);
    for (k, &(text, id)) in lits.iter().enumerate() {
        let r = lit_info(text, id, k + 1 < lits.len());
        t[chain + 32 * k..chain + 32 * k + 32].copy_from_slice(&r);
    }
    t[flood + 4 * 256 + 12] = 16;
    t
}

/// A serialized database of three literals, each with its own report.
fn real_db() -> Vec<u8> {
    let mut bc = vec![0u8; 512];
    bc[0] = 1;
    bc[4] = 1;
    put32(&mut bc, 12, 1);
    put64(&mut bc, 240, u64::MAX);
    let mut programs = Vec::new();
    for id in 0..3u32 {
        programs.push(bc.len() as u32);
        let mut p = vec![0u8; 24];
        p[0] = 33;
        put32(&mut p, 4, 100 + id);
        bc.extend_from_slice(&p);
    }
    let at = bc.len();
    put32(&mut bc, 96, at as u32);
    bc.resize(at + 256, 0);
    bc[at] = 12;
    bc.extend_from_slice(&fdr_table(&[
        (b"needle", programs[0]),
        (b"aaa", programs[1]),
        (b"\xff\xff", programs[2]),
    ]));
    let mut v = vec![0u8; 104 + bc.len()];
    put32(&mut v, 0, 0xdbdb_dbdb);
    put32(&mut v, 4, 0x0504_0c00);
    put32(&mut v, 8, bc.len() as u32);
    put32(&mut v, 20, crc32c_raw(0, &bc));
    v[32..32 + bc.len()].copy_from_slice(&bc);
    v
}

/// The bytes of the floating table, the way a load reaches them.
fn fdr_table_bytes(db: &[u8]) -> Vec<u8> {
    let sdb = SerializedDb::parse(db).expect("parse serialized db");
    let rose = RoseEngine::parse(sdb.bytecode()).expect("parse rose");
    rose.floating_matcher_table()
        .expect("floating matcher table")
        .to_vec()
}

#[test]
fn valid_fdr_table_parses() {
    let table = fdr_table_bytes(&real_db());
    assert!(
        FdrTable::parse(&table).is_ok(),
        "запиненная валидная FDR-таблица должна разбираться"
    );
}

#[test]
fn hostile_confirm_offset_rejected_at_parse() {
    let mut table = fdr_table_bytes(&real_db());
    assert!(FdrTable::parse(&table).is_ok(), "baseline: валидна до порчи");

    // The offset of the confirm structures is the word at 16. The first
    // bucket is sent far behind the end of the table.
    let conf_offset = u32::from_le_bytes(table[16..20].try_into().unwrap()) as usize;
    table[conf_offset..conf_offset + 4].copy_from_slice(&0x7FFF_FFF0u32.to_le_bytes());

    assert!(
        FdrTable::parse(&table).is_err(),
        "враждебный confirm-оффсет должен отклоняться на разборе, а не давать OOB"
    );
}

#[test]
fn hostile_table_size_rejected() {
    let mut table = fdr_table_bytes(&real_db());
    let huge = (table.len() as u32).saturating_add(4096);
    table[4..8].copy_from_slice(&huge.to_le_bytes());
    assert!(
        FdrTable::parse(&table).is_err(),
        "size > buffer должен отклоняться (Truncated)"
    );
}

#[test]
fn tiny_buffers_scan_without_panic() {
    let blob = real_db();
    let db = Database::load(&blob).map_err(|e| e.message()).expect("load realpack db");
    for len in 0usize..=40 {
        for &b in &[0x00u8, b'a', 0xff] {
            let data = vec![b; len];
            db.scan_block(&data, &mut |_, _| ScanCtl::Continue)
                .unwrap_or_else(|e| panic!("len={len} byte={b:#x}: scan_block Err {}", e.message()));
        }
    }
}

/// Short blocks give exactly the hits that a naive search gives.
#[test]
fn tiny_buffers_give_the_naive_hits() {
    let blob = real_db();
    let db = Database::load(&blob).map_err(|e| e.message()).unwrap();
    for len in 0usize..=60 {
        for &b in &[0x00u8, b'a', 0xff] {
            let data = vec![b; len];
            let mut hits: Vec<(u64, u32)> = Vec::new();
            db.scan_block(&data, &mut |id, to| {
                hits.push((to, id));
                ScanCtl::Continue
            })
            .map_err(|e| e.message())
            .unwrap();
            let expected: Vec<(u64, u32)> = match b {
                b'a' => (3..=len as u64).map(|to| (to, 101)).collect(),
                0xff => (2..=len as u64).map(|to| (to, 102)).collect(),
                _ => Vec::new(),
            };
            assert_eq!(hits, expected, "len={len} byte={b:#x}");
        }
    }
}

#[test]
fn truncated_tables_are_refused() {
    let table = fdr_table_bytes(&real_db());
    for n in 0..table.len() {
        assert!(FdrTable::parse(&table[..n]).is_err(), "prefix {n}");
    }
}
