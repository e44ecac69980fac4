//! The serialized form of a database.
//!
//! A packed little-endian header of 32 bytes is followed by the bytecode:
//!
//! | offset | field                                   |
//! |--------|-----------------------------------------|
//! | 0      | magic, u32                              |
//! | 4      | version, u32                            |
//! | 8      | length of the bytecode, u32             |
//! | 12     | platform, u64                           |
//! | 20     | CRC-32C of the bytecode, u32            |
//! | 24     | reserved, two u32                       |
//! | 32     | bytecode                                |
//!
//! The whole is 104 bytes longer than the bytecode: the rest is padding.

use vstd::prelude::*;
use vstd::slice::slice_subrange;

use crate::bytes::{le32, le64, number, read_u32, read_u64, words_are_numbers};
use crate::crc32c::{crc, crc32c_raw, crc_detects_changed_byte};

verus! {

pub const HS_DB_MAGIC: u32 = 0xdbdb_dbdb;

/// Version 5.4.12.
pub const HS_DB_VERSION: u32 = 0x0504_0c00;

/// Where the bytecode starts.
pub const BYTECODE_OFFSET: usize = 32;

/// How much longer than the bytecode the serialized form is.
pub const DB_STRUCT_SIZE: usize = 104;

pub const HS_PLATFORM_INTEL: u64 = 1;

pub const HS_PLATFORM_ARM: u64 = 2;

pub const HS_PLATFORM_CPU_MASK: u64 = 0x3f;

pub const HS_PLATFORM_NOAVX2: u64 = 0x8000;

pub const HS_PLATFORM_NOAVX512: u64 = 0x1_0000;

pub const HS_PLATFORM_NOAVX512VBMI: u64 = 0x2_0000;

/// Why a serialized database is not accepted.
#[derive(Debug, Clone, PartialEq, Eq)]
pub enum DbError {
    /// Shorter than the header.
    TooShort,
    BadMagic(u32),
    /// Made by another version of the compiler.
    BadVersion(u32),
    /// The whole is not 104 bytes longer than the bytecode is said to be.
    LengthMismatch { declared: u32, actual: usize },
    CrcMismatch { stored: u32, computed: u32 },
}

/// The platform that a database was compiled for.
#[derive(Debug, Clone, Copy, PartialEq, Eq, Structural)]
pub struct Platform {
    pub raw: u64,
}

impl Platform {
    pub open spec fn is_intel(self) -> bool {
        self.raw & HS_PLATFORM_CPU_MASK == HS_PLATFORM_INTEL
    }

    pub open spec fn is_arm(self) -> bool {
        self.raw & HS_PLATFORM_CPU_MASK == HS_PLATFORM_ARM
    }

    pub open spec fn has_avx2(self) -> bool {
        self.is_intel() && self.raw & HS_PLATFORM_NOAVX2 == 0
    }

    pub open spec fn has_avx512(self) -> bool {
        self.is_intel() && self.raw & HS_PLATFORM_NOAVX512 == 0
    }

    pub fn cpu_is_intel(self) -> (r: bool)
        ensures
            r == self.is_intel(),
    {
        self.raw & HS_PLATFORM_CPU_MASK == HS_PLATFORM_INTEL
    }

    pub fn cpu_is_arm(self) -> (r: bool)
        ensures
            r == self.is_arm(),
    {
        self.raw & HS_PLATFORM_CPU_MASK == HS_PLATFORM_ARM
    }

    /// The database expects AVX2.
    pub fn wants_avx2(self) -> (r: bool)
        ensures
            r == self.has_avx2(),
    {
        self.raw & HS_PLATFORM_NOAVX2 == 0 && self.cpu_is_intel()
    }

    /// The database expects AVX-512.
    pub fn wants_avx512(self) -> (r: bool)
        ensures
            r == self.has_avx512(),
    {
        self.raw & HS_PLATFORM_NOAVX512 == 0 && self.cpu_is_intel()
    }
}

/// The bytecode inside the serialized form.
pub open spec fn bytecode_of(bytes: Seq<u8>) -> Seq<u8> {
    bytes.subrange(BYTECODE_OFFSET as int, BYTECODE_OFFSET + le32(bytes, 8))
}

/// What is wrong with a serialized database, if anything.
pub open spec fn db_fault(bytes: Seq<u8>) -> Option<DbError> {
    if bytes.len() < BYTECODE_OFFSET {
        Some(DbError::TooShort)
    } else if le32(bytes, 0) != HS_DB_MAGIC {
        Some(DbError::BadMagic(le32(bytes, 0)))
    } else if le32(bytes, 4) != HS_DB_VERSION {
        Some(DbError::BadVersion(le32(bytes, 4)))
    } else if bytes.len() != DB_STRUCT_SIZE + le32(bytes, 8) {
        Some(DbError::LengthMismatch { declared: le32(bytes, 8), actual: bytes.len() as usize })
    } else if crc(0, bytecode_of(bytes)) != le32(bytes, 20) {
        Some(
            DbError::CrcMismatch {
                stored: le32(bytes, 20),
                computed: crc(0, bytecode_of(bytes)),
            },
        )
    } else {
        None
    }
}

/// A serialized database that was found in order.
#[derive(Debug)]
pub struct SerializedDb<'a> {
    pub platform: Platform,
    pub crc32: u32,
    pub bytecode: &'a [u8],
}

impl<'a> SerializedDb<'a> {
    /// Takes the serialized form apart: magic, version, length and checksum
    /// have to be right.
    pub fn parse(bytes: &'a [u8]) -> (r: Result<Self, DbError>)
        ensures
            match r {
                Ok(db) => {
                    &&& db_fault(bytes@) is None
                    &&& db.bytecode@ == bytecode_of(bytes@)
                    &&& db.platform.raw == le64(bytes@, 12)
                    &&& db.crc32 == le32(bytes@, 20)
                },
                Err(e) => db_fault(bytes@) == Some(e),
            },
    {
        if bytes.len() < BYTECODE_OFFSET {
            return Err(DbError::TooShort);
        }
        let magic: u32 = read_u32(bytes, 0);
        if magic != HS_DB_MAGIC {
            return Err(DbError::BadMagic(magic));
        }
        let version: u32 = read_u32(bytes, 4);
        if version != HS_DB_VERSION {
            return Err(DbError::BadVersion(version));
        }
        let length: u32 = read_u32(bytes, 8);
        if bytes.len() as u64 != DB_STRUCT_SIZE as u64 + length as u64 {
            return Err(DbError::LengthMismatch { declared: length, actual: bytes.len() });
        }
        let platform: u64 = read_u64(bytes, 12);
        let crc32: u32 = read_u32(bytes, 20);
        let bytecode = slice_subrange(bytes, BYTECODE_OFFSET, BYTECODE_OFFSET + length as usize);
        let computed: u32 = crc32c_raw(0, bytecode);
        if computed != crc32 {
            return Err(DbError::CrcMismatch { stored: crc32, computed });
        }
        Ok(SerializedDb { platform: Platform { raw: platform }, crc32, bytecode })
    }

    pub fn bytecode(&self) -> (r: &'a [u8])
        ensures
            r@ == self.bytecode@,
    {
        self.bytecode
    }

    pub fn platform(&self) -> (r: Platform)
        ensures
            r == self.platform,
    {
        self.platform
    }

    pub fn crc32(&self) -> (r: u32)
        ensures
            r == self.crc32,
    {
        self.crc32
    }
}

fn same_bytes(a: &[u8], b: &[u8]) -> (r: bool)
    ensures
        r == (a@ == b@),
{
    if a.len() != b.len() {
        return false;
    }
    let mut k: usize = 0;
    while k < a.len()
        invariant
            k <= a@.len(),
            a@.len() == b@.len(),
            forall|i: int| 0 <= i < k ==> #[trigger] a@[i] == b@[i],
        decreases a@.len() - k,
    {
        if a[k] != b[k] {
            return false;
        }
        k = k + 1;
    }
    assert(a@ =~= b@);
    true
}

impl<'a> PartialEq for SerializedDb<'a> {
    fn eq(&self, other: &Self) -> (r: bool) {
        self.platform.raw == other.platform.raw && self.crc32 == other.crc32 && same_bytes(
            self.bytecode,
            other.bytecode,
        )
    }
}

impl<'a> vstd::std_specs::cmp::PartialEqSpecImpl for SerializedDb<'a> {
    open spec fn obeys_eq_spec() -> bool {
        true
    }

    open spec fn eq_spec(&self, other: &Self) -> bool {
        self.platform.raw == other.platform.raw && self.crc32 == other.crc32 && self.bytecode@
            == other.bytecode@
    }
}

/// `bytes` is the serialized form of a bytecode for a platform.
pub open spec fn serializes(bytes: Seq<u8>, bytecode: Seq<u8>, platform: u64) -> bool {
    &&& bytecode.len() <= u32::MAX
    &&& bytes.len() == DB_STRUCT_SIZE + bytecode.len()
    &&& le32(bytes, 0) == HS_DB_MAGIC
    &&& le32(bytes, 4) == HS_DB_VERSION
    &&& le32(bytes, 8) == bytecode.len()
    &&& le64(bytes, 12) == platform
    &&& le32(bytes, 20) == crc(0, bytecode)
    &&& bytes.subrange(BYTECODE_OFFSET as int, BYTECODE_OFFSET + bytecode.len()) == bytecode
}

/// What was serialized is accepted, and the same bytecode comes back.
pub proof fn serialized_is_accepted(bytes: Seq<u8>, bytecode: Seq<u8>, platform: u64)
    requires
        serializes(bytes, bytecode, platform),
    ensures
        db_fault(bytes) is None,
        bytecode_of(bytes) == bytecode,
        le64(bytes, 12) == platform,
{
}

/// A database that is accepted is refused after a change of any single byte of
/// its bytecode, for its checksum.
pub proof fn changed_bytecode_is_refused(bytes: Seq<u8>, k: int, b: u8)
    requires
        db_fault(bytes) is None,
        0 <= k < bytecode_of(bytes).len(),
        bytecode_of(bytes)[k] != b,
    ensures
        ({
            let changed = bytes.update(BYTECODE_OFFSET + k, b);
            db_fault(changed) == Some(
                DbError::CrcMismatch {
                    stored: le32(bytes, 20),
                    computed: crc(0, bytecode_of(changed)),
                },
            )
        }),
{
    let changed = bytes.update(BYTECODE_OFFSET + k, b);
    assert(bytecode_of(changed) =~= bytecode_of(bytes).update(k, b));
    crc_detects_changed_byte(0, bytecode_of(bytes), k, b);
}

/// A database that is accepted is refused once bytes are cut off its end.
pub proof fn cut_database_is_refused(bytes: Seq<u8>, n: int)
    requires
        db_fault(bytes) is None,
        0 <= n < bytes.len(),
    ensures
        n < BYTECODE_OFFSET ==> db_fault(bytes.take(n)) == Some(DbError::TooShort),
        BYTECODE_OFFSET <= n <= usize::MAX ==> db_fault(bytes.take(n)) == Some(
            DbError::LengthMismatch { declared: le32(bytes, 8), actual: n as usize },
        ),
{
}

/// A database that is accepted is refused once bytes are put behind its end.
pub proof fn longer_database_is_refused(bytes: Seq<u8>, more: Seq<u8>)
    requires
        db_fault(bytes) is None,
        more.len() > 0,
        bytes.len() + more.len() <= usize::MAX,
    ensures
        db_fault(bytes + more) == Some(
            DbError::LengthMismatch {
                declared: le32(bytes, 8),
                actual: (bytes.len() + more.len()) as usize,
            },
        ),
{
}

/// The lowest six bits of a platform name the processor: 1 for Intel, 2 for
/// ARM. Bit 15 says that there is no AVX2, and bit 16 that there is no AVX-512;
/// both count on Intel only.
pub proof fn platform_is_made_of_bits(p: Platform)
    ensures
        p.is_intel() <==> p.raw % 64 == 1,
        p.is_arm() <==> p.raw % 64 == 2,
        p.has_avx2() <==> p.raw % 64 == 1 && (p.raw / 0x8000) % 2 == 0,
        p.has_avx512() <==> p.raw % 64 == 1 && (p.raw / 0x1_0000) % 2 == 0,
{
    let x = p.raw;
    assert(x & 0x3f == x % 64 && (x & 0x8000 == 0 <==> (x / 0x8000) % 2 == 0) && (x & 0x1_0000 == 0
        <==> (x / 0x1_0000) % 2 == 0)) by (bit_vector);
}

/// A database is accepted exactly if it begins with the magic number and the
/// version, is 104 bytes longer than the bytecode whose length comes next, and
/// holds the checksum of the bytecode. The bytecode stands from byte 32 on.
pub proof fn databases_are_accepted(bytes: Seq<u8>)
    ensures
        db_fault(bytes) is None <==> {
            &&& bytes.len() == 104 + number(bytes, 8, 4)
            &&& number(bytes, 0, 4) == 0xdbdb_dbdb
            &&& number(bytes, 4, 4) == 0x0504_0c00
            &&& number(bytes, 20, 4) == crc(
                0,
                bytes.subrange(32, 32 + number(bytes, 8, 4) as int),
            )
        },
        db_fault(bytes) is None ==> bytecode_of(bytes).len() == number(bytes, 8, 4),
        db_fault(bytes) is None ==> forall|i: int|
            0 <= i < number(bytes, 8, 4) ==> #[trigger] bytecode_of(bytes)[i] == bytes[32 + i],
{
    words_are_numbers(bytes, 0);
    words_are_numbers(bytes, 4);
    words_are_numbers(bytes, 8);
    words_are_numbers(bytes, 20);
}

} // verus!
