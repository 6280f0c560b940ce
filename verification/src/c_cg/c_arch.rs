//! The architecture predicate table: each recognized OS/ISA pairing maps to
//! a fixed C preprocessor boolean expression.  Consumed only by
//! inline-assembly emission; not considering embedded systems for now.

use crate::c_cg::c_stmt::Context;
use crate::c_cg::{CDialect, CError, ToC};
use vstd::prelude::*;

verus! {

/// A recognized target: Windows/Posix crossed with the supported ISAs, plus
/// a WebAssembly target.
pub enum Arch {
    WindowsX86,
    WindowsX86_64,
    WindowsAArch64,
    PosixX86_64,
    PosixAArch64,
    PosixRiscv64GC,
    Posixloongarch64,
    EmscriptenWasm32,
}

/// The preprocessor predicate of each target.
pub open spec fn arch_pred_text(a: Arch) -> Seq<char> {
    match a {
        Arch::WindowsX86 => "defined(_WIN32) && defined(_M_IX86) || defined(__i386__)"@,
        Arch::WindowsX86_64 => "defined(_WIN32) && defined(_M_X64) || defined(__x86_64__)"@,
        Arch::WindowsAArch64 => "defined(_WIN32) && defined(_M_ARM64) || defined(__aarch64__)"@,
        Arch::PosixX86_64 => "defined(__unix__) && defined(__x86_64__)"@,
        Arch::PosixAArch64 => "defined(__unix__) && defined(__aarch64__)"@,
        Arch::PosixRiscv64GC => "defined(__unix__) && defined(__riscv)"@,
        Arch::Posixloongarch64 => "defined(__unix__) && defined(__loongarch64)"@,
        Arch::EmscriptenWasm32 => "defined(__EMSCRIPTEN__) && defined(__wasm32__)"@,
    }
}

impl Arch {
    /// The preprocessor predicate of this target.  Architecture predicates
    /// belong to the standard dialect alone.
    pub fn to_c(&self, dialect: CDialect, _context: &Context) -> (r: String)
        requires
            dialect == CDialect::Standard,
        ensures
            r@ == arch_pred_text(*self),
    {
        let text: &str = match self {
            Arch::WindowsX86 => "defined(_WIN32) && defined(_M_IX86) || defined(__i386__)",
            Arch::WindowsX86_64 => "defined(_WIN32) && defined(_M_X64) || defined(__x86_64__)",
            Arch::WindowsAArch64 => "defined(_WIN32) && defined(_M_ARM64) || defined(__aarch64__)",
            Arch::PosixX86_64 => "defined(__unix__) && defined(__x86_64__)",
            Arch::PosixAArch64 => "defined(__unix__) && defined(__aarch64__)",
            Arch::PosixRiscv64GC => "defined(__unix__) && defined(__riscv)",
            Arch::Posixloongarch64 => "defined(__unix__) && defined(__loongarch64)",
            Arch::EmscriptenWasm32 => "defined(__EMSCRIPTEN__) && defined(__wasm32__)",
        };
        let mut out = String::new();
        out.append(text);
        out
    }
}

impl ToC for Arch {
    /// Forwards to the inherent method; outside the standard dialect the
    /// predicate is refused.
    fn to_c(&self, dialect: CDialect, context: &mut Context) -> Result<String, CError> {
        if dialect == CDialect::Standard {
            Ok(Arch::to_c(self, dialect, context))
        } else {
            Err(CError::UnsupportedDialectFeature)
        }
    }
}

} // verus!
