//! What the errors say.

use vstd::prelude::*;
use vstd::string::StringExecFns;

use crate::hwlm::HwlmError;
use crate::literal::InterpError;
use crate::nfa::NfaError;
use crate::rose::RoseError;
use crate::scan::ScanError;
use crate::serialized::{DbError, DB_STRUCT_SIZE, HS_DB_VERSION};
use crate::text::{decimal, hex, push_decimal, push_hex};

verus! {

pub open spec fn hwlm_message(e: HwlmError) -> Seq<char> {
    match e {
        HwlmError::Truncated => "таблица движка обрезана"@,
        HwlmError::BadTable(what) => "битая таблица движка: "@ + what@,
    }
}

pub open spec fn nfa_message(e: NfaError) -> Seq<char> {
    match e {
        NfaError::Truncated => "байткод NFA обрезан"@,
        NfaError::BadTable(what) => "битая таблица NFA: "@ + what@,
        NfaError::Unsupported(what) => "вне russcan-lite: "@ + what@,
    }
}

pub open spec fn rose_message(e: RoseError) -> Seq<char> {
    match e {
        RoseError::Truncated => "байткод усечён"@,
        RoseError::NotBlockMode(mode) => "mode="@ + decimal(mode as nat) + " != BLOCK(1)"@,
        RoseError::UnsupportedRuntime(i) => "runtimeImpl="@ + decimal(i as nat)
            + " вне {PURE_LITERAL,FULL_ROSE}"@,
        RoseError::NeedsFullRose(what) => "БД требует полный Rose ("@ + what@
            + ") — вне floating-скоупа"@,
        RoseError::NoFloatingMatcher => "fmatcherOffset=0"@,
        RoseError::NotFdr(t) => "HWLM type="@ + decimal(t as nat) + " != FDR(12)"@,
        RoseError::OffsetOutOfRange { off, len } => "оффсет "@ + decimal(off as nat)
            + " вне байткода длины "@ + decimal(len as nat),
    }
}

pub open spec fn interp_message(e: InterpError) -> Seq<char> {
    match e {
        InterpError::Rose(e) => rose_message(e),
        InterpError::UnsupportedOpcode(code) => "опкод "@ + decimal(code as nat)
            + " вне FDR-only скоупа"@,
        InterpError::ProgramOverrun => "pc за пределами программы"@,
        InterpError::Nfa(e) => "leftfix: "@ + nfa_message(e),
    }
}

pub open spec fn db_message(e: DbError) -> Seq<char> {
    match e {
        DbError::TooShort => "буфер короче 32-байтового заголовка"@,
        DbError::BadMagic(magic) => "не hs-база: magic "@ + hex(magic),
        DbError::BadVersion(version) => "версия байткода "@ + hex(version) + " != пин "@ + hex(
            HS_DB_VERSION,
        ) + " (5.4.12)"@,
        DbError::LengthMismatch { declared, actual } => "длина не сходится: заявлено length="@
            + decimal(declared as nat) + " (итого "@ + decimal((declared + DB_STRUCT_SIZE) as nat)
            + "), фактически "@ + decimal(actual as nat),
        DbError::CrcMismatch { stored, computed } => "CRC32C не сходится: в заголовке "@ + hex(
            stored,
        ) + ", по байткоду "@ + hex(computed),
    }
}

pub open spec fn scan_message(e: ScanError) -> Seq<char> {
    match e {
        ScanError::Db(e) => "БД: "@ + db_message(e),
        ScanError::Rose(e) => "RoseEngine: "@ + rose_message(e),
        ScanError::Fdr(e) => "FDR: "@ + hwlm_message(e),
        ScanError::Interp(e) => "интерпретатор: "@ + interp_message(e),
    }
}

impl HwlmError {
    /// What the error says.
    pub fn message(&self) -> (r: String)
        ensures
            r@ == hwlm_message(*self),
    {
        match self {
            HwlmError::Truncated => String::from_str("таблица движка обрезана"),
            HwlmError::BadTable(what) => {
                let mut out = String::from_str("битая таблица движка: ");
                out.append(what);
                out
            },
        }
    }
}

impl NfaError {
    /// What the error says.
    pub fn message(&self) -> (r: String)
        ensures
            r@ == nfa_message(*self),
    {
        match self {
            NfaError::Truncated => String::from_str("байткод NFA обрезан"),
            NfaError::BadTable(what) => {
                let mut out = String::from_str("битая таблица NFA: ");
                out.append(what);
                out
            },
            NfaError::Unsupported(what) => {
                let mut out = String::from_str("вне russcan-lite: ");
                out.append(what);
                out
            },
        }
    }
}

impl RoseError {
    /// What the error says.
    pub fn message(&self) -> (r: String)
        ensures
            r@ == rose_message(*self),
    {
        match self {
            RoseError::Truncated => String::from_str("байткод усечён"),
            RoseError::NotBlockMode(mode) => {
                let mut out = String::from_str("mode=");
                push_decimal(&mut out, *mode as u64);
                out.append(" != BLOCK(1)");
                out
            },
            RoseError::UnsupportedRuntime(i) => {
                let mut out = String::from_str("runtimeImpl=");
                push_decimal(&mut out, *i as u64);
                out.append(" вне {PURE_LITERAL,FULL_ROSE}");
                out
            },
            RoseError::NeedsFullRose(what) => {
                let mut out = String::from_str("БД требует полный Rose (");
                out.append(what);
                out.append(") — вне floating-скоупа");
                out
            },
            RoseError::NoFloatingMatcher => String::from_str("fmatcherOffset=0"),
            RoseError::NotFdr(t) => {
                let mut out = String::from_str("HWLM type=");
                push_decimal(&mut out, *t as u64);
                out.append(" != FDR(12)");
                out
            },
            RoseError::OffsetOutOfRange { off, len } => {
                let mut out = String::from_str("оффсет ");
                push_decimal(&mut out, *off as u64);
                out.append(" вне байткода длины ");
                push_decimal(&mut out, *len as u64);
                out
            },
        }
    }
}

impl InterpError {
    /// What the error says.
    pub fn message(&self) -> (r: String)
        ensures
            r@ == interp_message(*self),
    {
        match self {
            InterpError::Rose(e) => e.message(),
            InterpError::UnsupportedOpcode(code) => {
                let mut out = String::from_str("опкод ");
                push_decimal(&mut out, *code as u64);
                out.append(" вне FDR-only скоупа");
                out
            },
            InterpError::ProgramOverrun => String::from_str("pc за пределами программы"),
            InterpError::Nfa(e) => {
                let mut out = String::from_str("leftfix: ");
                out.append(e.message().as_str());
                out
            },
        }
    }
}

impl DbError {
    /// What the error says.
    pub fn message(&self) -> (r: String)
        ensures
            r@ == db_message(*self),
    {
        match self {
            DbError::TooShort => String::from_str("буфер короче 32-байтового заголовка"),
            DbError::BadMagic(magic) => {
                let mut out = String::from_str("не hs-база: magic ");
                push_hex(&mut out, *magic);
                out
            },
            DbError::BadVersion(version) => {
                let mut out = String::from_str("версия байткода ");
                push_hex(&mut out, *version);
                out.append(" != пин ");
                push_hex(&mut out, HS_DB_VERSION);
                out.append(" (5.4.12)");
                out
            },
            DbError::LengthMismatch { declared, actual } => {
                let mut out = String::from_str("длина не сходится: заявлено length=");
                push_decimal(&mut out, *declared as u64);
                out.append(" (итого ");
                push_decimal(&mut out, *declared as u64 + DB_STRUCT_SIZE as u64);
                out.append("), фактически ");
                push_decimal(&mut out, *actual as u64);
                out
            },
            DbError::CrcMismatch { stored, computed } => {
                let mut out = String::from_str("CRC32C не сходится: в заголовке ");
                push_hex(&mut out, *stored);
                out.append(", по байткоду ");
                push_hex(&mut out, *computed);
                out
            },
        }
    }
}

impl ScanError {
    /// What the error says.
    pub fn message(&self) -> (r: String)
        ensures
            r@ == scan_message(*self),
    {
        let (head, tail): (&str, String) = match self {
            ScanError::Db(e) => ("БД: ", e.message()),
            ScanError::Rose(e) => ("RoseEngine: ", e.message()),
            ScanError::Fdr(e) => ("FDR: ", e.message()),
            ScanError::Interp(e) => ("интерпретатор: ", e.message()),
        };
        let mut out = String::from_str(head);
        out.append(tail.as_str());
        out
    }
}

} // verus!
