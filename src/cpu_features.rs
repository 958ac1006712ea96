//! The CPU capability value handed to kernel dispatch.
use vstd::prelude::*;
use vstd::string::StringExecFns;

verus! {

/// SIMD capabilities relevant to the kernels.
#[derive(Debug, Clone, Copy, PartialEq, Eq, Structural)]
pub struct CpuFeatures {
    /// ARM Advanced SIMD.
    pub neon: bool,
    /// ARMv8.2 dot-product instructions.
    pub dotprod: bool,
}

/// The text `describe` returns.
pub open spec fn describe_text(neon: bool, dotprod: bool) -> Seq<char> {
    if neon && dotprod {
        "NEON, DOTPROD"@
    } else if neon {
        "NEON"@
    } else if dotprod {
        "DOTPROD"@
    } else {
        "None (scalar fallback)"@
    }
}

impl CpuFeatures {
    /// The capabilities the library relies on when nothing was probed: none,
    /// so every kernel takes the scalar path, which is always correct. A
    /// program that probes the processor sets the fields itself.
    pub fn detect() -> (r: CpuFeatures)
        ensures
            !r.neon,
            !r.dotprod,
    {
        CpuFeatures { neon: false, dotprod: false }
    }

    /// Whether SIMD kernels may be used: NEON is present.
    pub fn has_simd(&self) -> (r: bool)
        ensures
            r == self.neon,
    {
        self.neon
    }

    /// The present features, comma-separated, or a note that none is.
    pub fn describe(&self) -> (r: String)
        ensures
            r@ == describe_text(self.neon, self.dotprod),
    {
        if self.neon && self.dotprod {
            String::from_str("NEON, DOTPROD")
        } else if self.neon {
            String::from_str("NEON")
        } else if self.dotprod {
            String::from_str("DOTPROD")
        } else {
            String::from_str("None (scalar fallback)")
        }
    }
}

} // verus!
