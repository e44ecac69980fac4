use russcan::crc32c::crc32c_raw;
use russcan::serialized::{
    DbError, SerializedDb, BYTECODE_OFFSET, DB_STRUCT_SIZE, HS_DB_MAGIC, HS_DB_VERSION,
};

/// Wraps bytecode the way a compiler serializes it.
fn fake_db(bytecode: &[u8]) -> Vec<u8> {
    let mut v = vec![0u8; DB_STRUCT_SIZE + bytecode.len()];
    v[0..4].copy_from_slice(&HS_DB_MAGIC.to_le_bytes());
    v[4..8].copy_from_slice(&HS_DB_VERSION.to_le_bytes());
    v[8..12].copy_from_slice(&(bytecode.len() as u32).to_le_bytes());
    v[12..20].copy_from_slice(&2u64.to_le_bytes());
    let crc = crc32c_raw(0, bytecode);
    v[20..24].copy_from_slice(&crc.to_le_bytes());
    v[BYTECODE_OFFSET..BYTECODE_OFFSET + bytecode.len()].copy_from_slice(bytecode);
    v
}

#[test]
fn table_matches_iscsi_vector() {
    let raw = crc32c_raw(0xffff_ffff, b"123456789");
    assert_eq!(raw ^ 0xffff_ffff, 0xE306_9283);
}

#[test]
fn empty_is_identity() {
    assert_eq!(crc32c_raw(0, b""), 0);
    assert_eq!(crc32c_raw(0x1234_5678, b""), 0x1234_5678);
}

#[test]
fn parse_roundtrip() {
    let bc: Vec<u8> = (0..1000u32).map(|i| (i * 7) as u8).collect();
    let blob = fake_db(&bc);
    let db = SerializedDb::parse(&blob).unwrap();
    assert_eq!(db.bytecode(), &bc[..]);
    assert!(db.platform().cpu_is_arm());
}

#[test]
fn rejects_garbage() {
    assert_eq!(SerializedDb::parse(&[]), Err(DbError::TooShort));
    assert_eq!(
        SerializedDb::parse(&[0u8; 200]).unwrap_err(),
        DbError::BadMagic(0)
    );

    let mut blob = fake_db(b"bytecode");
    blob[5] = 0x99;
    assert!(matches!(
        SerializedDb::parse(&blob).unwrap_err(),
        DbError::BadVersion(_)
    ));

    let mut blob = fake_db(b"bytecode");
    blob.push(0);
    assert!(matches!(
        SerializedDb::parse(&blob).unwrap_err(),
        DbError::LengthMismatch { .. }
    ));

    let mut blob = fake_db(b"bytecode");
    blob[35] ^= 1;
    assert!(matches!(
        SerializedDb::parse(&blob).unwrap_err(),
        DbError::CrcMismatch { .. }
    ));
}
