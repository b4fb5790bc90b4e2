//! Choosing the engine from what the host's vector unit offers. The probe
//! result is handed in; the choice is a plain function of it.
use crate::tiling::TileShape;
use vstd::prelude::*;

verus! {

/// What the host CPU supports, as probed once at call entry.
#[derive(Clone, Copy, Debug, PartialEq, Eq, Structural)]
pub struct CpuFeatures {
    /// The 512-bit vector instruction set (8 doubles per register).
    pub avx512f: bool,
    /// The 256-bit vector instruction set (4 doubles per register).
    pub avx2: bool,
    /// Fused multiply-add.
    pub fma: bool,
}

/// The engines of the library.
#[derive(Clone, Copy, Debug, PartialEq, Eq, Structural)]
pub enum Engine {
    /// The unit-stride i-k-j scalar loop: the fallback and the reference.
    Scalar,
    /// The cache-blocked engine with register tiles of the given shape.
    Blocked(TileShape),
}

/// The engine for a host: the 8 x 8 tiles where 512-bit vectors and fused
/// multiply-add are there, else the 12 x 4 tiles where 256-bit vectors and
/// fused multiply-add are there, else the scalar loop.
pub open spec fn spec_select_engine(f: CpuFeatures) -> Engine {
    if f.avx512f && f.fma {
        Engine::Blocked(TileShape::Fat)
    } else if f.avx2 && f.fma {
        Engine::Blocked(TileShape::Wide)
    } else {
        Engine::Scalar
    }
}

/// Picks the engine for a host, widest vector support first.
pub fn select_engine(f: CpuFeatures) -> (e: Engine)
    ensures
        e == spec_select_engine(f),
{
    if f.avx512f && f.fma {
        Engine::Blocked(TileShape::Fat)
    } else if f.avx2 && f.fma {
        Engine::Blocked(TileShape::Wide)
    } else {
        Engine::Scalar
    }
}

} // verus!
