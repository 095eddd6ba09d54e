//! The micro-kernel contract: what every hardware-specific matmul routine
//! promises, described by immutable descriptors.
//!
//! A kernel consumes a fixed `mr x nr` accumulator tile of a given element
//! datatype, executes a sequence of fused operations (accumulate packed-A by
//! packed-B over `k`, then store the tile through an output addressing), and
//! returns a non-zero status on failure. The native routine bodies are
//! outside this library; their tile shapes, alignment and packing formats
//! are what the rest of the library computes with.

use vstd::prelude::*;
use crate::packing::PackingFormat;

verus! {

/// Element datatype a kernel computes on.
#[derive(Clone, Copy, PartialEq, Eq, Structural, Debug)]
pub enum DType {
    F32,
    I32,
    I8,
}

/// One fused operation of a kernel's instruction stream: accumulate a
/// packed-A by packed-B product over `k` reduction steps, or store the
/// accumulator tile through the bound output addressing.
#[derive(Clone, Copy, PartialEq, Eq, Structural, Debug)]
pub enum FusedSpec {
    AddMatMul { k: usize },
    Store,
}

/// What a kernel's entry point returns: zero for success, any other value
/// for a failed run. A non-zero status is fatal for that call — the
/// destination tile's contents are then undefined and must not be used.
#[derive(Clone, Copy, PartialEq, Eq, Structural, Debug)]
pub struct KernelStatus(pub isize);

impl KernelStatus {
    /// The run succeeded and the destination tile may be consumed.
    pub fn ok(&self) -> (r: bool)
        ensures
            r == (self.0 == 0),
    {
        self.0 == 0
    }
}

/// An immutable, globally registered micro-kernel descriptor: its unique
/// name, result tile shape `(mr, nr)`, required buffer alignment in bytes,
/// and element datatype.
#[derive(Clone, PartialEq, Eq, Debug)]
pub struct MicroKernel {
    pub name: Vec<u8>,
    pub mr: usize,
    pub nr: usize,
    pub alignment: usize,
    pub dtype: DType,
}

impl MicroKernel {
    /// A kernel's tile has at least one row and one column.
    pub open spec fn wf(self) -> bool {
        self.mr >= 1 && self.nr >= 1
    }

    /// Packing format of the A operand: panels of `mr` rows.
    pub fn a_pack(&self) -> (f: PackingFormat)
        ensures
            f.panel_rows == self.mr,
            f.alignment == self.alignment,
    {
        PackingFormat { panel_rows: self.mr, alignment: self.alignment }
    }

    /// Packing format of the B operand: panels of `nr` rows.
    pub fn b_pack(&self) -> (f: PackingFormat)
        ensures
            f.panel_rows == self.nr,
            f.alignment == self.alignment,
    {
        PackingFormat { panel_rows: self.nr, alignment: self.alignment }
    }
}

} // verus!
