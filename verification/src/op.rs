//! Operators, edge weights and the fused kernels that the passes insert.

use vstd::prelude::*;
use vstd::std_specs::cmp::PartialEqSpecImpl;

verus! {

/// Handle of a shape descriptor. The shape collaborator owns the descriptors;
/// the graph only carries the handle from one edge to another.
#[derive(Clone, Copy, Debug, PartialEq, Eq, Structural)]
pub struct ShapeTracker(pub u64);

/// What an edge of the graph stands for.
#[derive(Clone, Copy, Debug, PartialEq, Eq, Structural)]
pub enum Dependency {
    /// Output `output_order` of the source feeds input slot `input_order` of the target.
    Data { input_order: u8, output_order: u8, shape: ShapeTracker },
    /// The source only has to run before the target.
    Schedule,
}

impl Dependency {
    /// The slot numbers and shape of a data edge, `None` for a scheduling edge.
    pub fn as_data(self) -> (r: Option<(u8, u8, ShapeTracker)>)
        ensures
            r == self.data(),
    {
        match self {
            Dependency::Data { input_order, output_order, shape } => Some(
                (input_order, output_order, shape),
            ),
            Dependency::Schedule => None,
        }
    }

    /// The slot numbers and shape of a data edge, `None` for a scheduling edge.
    pub open spec fn data(self) -> Option<(u8, u8, ShapeTracker)> {
        match self {
            Dependency::Data { input_order, output_order, shape } => Some(
                (input_order, output_order, shape),
            ),
            Dependency::Schedule => None,
        }
    }

    /// Whether the edge only orders its endpoints.
    pub fn is_schedule(self) -> (r: bool)
        ensures
            r == (self is Schedule),
    {
        match self {
            Dependency::Data { .. } => false,
            Dependency::Schedule => true,
        }
    }
}

/// Elementwise cosine on half-precision buffers, as one kernel.
///
/// Holds the handles under which the kernel backend keeps the compiled
/// pipeline and the device it was compiled for.
#[derive(Debug, Clone, Copy)]
pub struct MetalCos {
    pub pipeline: u64,
    pub device: u64,
}

impl MetalCos {
    /// The kernel that the backend keeps under these two handles.
    pub fn new(pipeline: u64, device: u64) -> (k: MetalCos)
        ensures
            k.pipeline == pipeline,
            k.device == device,
    {
        MetalCos { pipeline, device }
    }

    /// The kernel itself where `key` is `"metal"`, the name under which a
    /// kernel-level executor asks for it; `None` for any other key.
    pub fn custom(&self, key: &str) -> (k: Option<MetalCos>)
        ensures
            k == (if key@ == "metal"@ {
                Some(*self)
            } else {
                None
            }),
    {
        let asked = key.to_owned();
        let metal = "metal".to_owned();
        if asked == metal {
            Some(*self)
        } else {
            None
        }
    }
}

/// Two kernels never compare equal, so that no pass merges them.
impl PartialEq for MetalCos {
    fn eq(&self, other: &Self) -> (r: bool) {
        false
    }
}

impl PartialEqSpecImpl for MetalCos {
    open spec fn obeys_eq_spec() -> bool {
        true
    }

    open spec fn eq_spec(&self, other: &Self) -> bool {
        false
    }
}

/// Elementwise natural exponential on half-precision buffers, as one kernel.
///
/// Holds the handles under which the kernel backend keeps the compiled
/// pipeline and the device it was compiled for.
#[derive(Debug, Clone, Copy)]
pub struct MetalExp {
    pub pipeline: u64,
    pub device: u64,
}

impl MetalExp {
    /// The kernel that the backend keeps under these two handles.
    pub fn new(pipeline: u64, device: u64) -> (k: MetalExp)
        ensures
            k.pipeline == pipeline,
            k.device == device,
    {
        MetalExp { pipeline, device }
    }

    /// The kernel itself where `key` is `"metal"`, the name under which a
    /// kernel-level executor asks for it; `None` for any other key.
    pub fn custom(&self, key: &str) -> (k: Option<MetalExp>)
        ensures
            k == (if key@ == "metal"@ {
                Some(*self)
            } else {
                None
            }),
    {
        let asked = key.to_owned();
        let metal = "metal".to_owned();
        if asked == metal {
            Some(*self)
        } else {
            None
        }
    }
}

/// Two kernels never compare equal, so that no pass merges them.
impl PartialEq for MetalExp {
    fn eq(&self, other: &Self) -> (r: bool) {
        false
    }
}

impl PartialEqSpecImpl for MetalExp {
    open spec fn obeys_eq_spec() -> bool {
        true
    }

    open spec fn eq_spec(&self, other: &Self) -> bool {
        false
    }
}

/// The kind of an operator, without its payload.
#[derive(Clone, Copy, Debug, PartialEq, Eq, Structural)]
pub enum OpKind {
    Constant,
    Mul,
    Add,
    Sin,
    Exp2,
    Cos,
    Exp,
    Other,
}

/// An operator: what a node of the graph computes.
#[derive(Clone, Copy, Debug)]
pub enum Op {
    /// A half-precision constant, by its bit pattern.
    Constant(u16),
    Mul,
    Add,
    Sin,
    Exp2,
    Cos(MetalCos),
    Exp(MetalExp),
    /// Any operator that the passes of this crate neither match nor build,
    /// by the tag its owner gave it.
    Other(u32),
}

impl Op {
    /// The operator's kind.
    pub open spec fn spec_kind(self) -> OpKind {
        match self {
            Op::Constant(_) => OpKind::Constant,
            Op::Mul => OpKind::Mul,
            Op::Add => OpKind::Add,
            Op::Sin => OpKind::Sin,
            Op::Exp2 => OpKind::Exp2,
            Op::Cos(_) => OpKind::Cos,
            Op::Exp(_) => OpKind::Exp,
            Op::Other(_) => OpKind::Other,
        }
    }

    /// The operator's kind.
    #[verifier::when_used_as_spec(spec_kind)]
    pub fn kind(self) -> (k: OpKind)
        ensures
            k == self.spec_kind(),
    {
        match self {
            Op::Constant(_) => OpKind::Constant,
            Op::Mul => OpKind::Mul,
            Op::Add => OpKind::Add,
            Op::Sin => OpKind::Sin,
            Op::Exp2 => OpKind::Exp2,
            Op::Cos(_) => OpKind::Cos,
            Op::Exp(_) => OpKind::Exp,
            Op::Other(_) => OpKind::Other,
        }
    }

    /// The bit pattern of a constant, `None` for any other operator.
    pub open spec fn spec_as_constant(self) -> Option<u16> {
        match self {
            Op::Constant(bits) => Some(bits),
            _ => None,
        }
    }

    /// The bit pattern of a constant, `None` for any other operator.
    #[verifier::when_used_as_spec(spec_as_constant)]
    pub fn as_constant(self) -> (r: Option<u16>)
        ensures
            r == self.spec_as_constant(),
    {
        match self {
            Op::Constant(bits) => Some(bits),
            _ => None,
        }
    }
}

/// Whether a bit pattern is a half-precision NaN: all exponent bits set and
/// a mantissa that is not zero.
pub open spec fn half_is_nan(bits: u16) -> bool {
    bits & 0x7FFF > 0x7C00
}

/// Equality of two half-precision numbers given by their bit patterns: a NaN
/// equals nothing, the two zeros equal each other, and any other number
/// equals only itself.
pub open spec fn half_eq(a: u16, b: u16) -> bool {
    &&& !half_is_nan(a)
    &&& !half_is_nan(b)
    &&& (a == b || (a | b) & 0x7FFF == 0)
}

/// Compares two half-precision numbers, given by their bit patterns, as the
/// numbers compare: exactly, with no tolerance.
pub fn half_bits_eq(a: u16, b: u16) -> (r: bool)
    ensures
        r == half_eq(a, b),
{
    if a & 0x7FFF > 0x7C00 || b & 0x7FFF > 0x7C00 {
        false
    } else {
        a == b || (a | b) & 0x7FFF == 0
    }
}

} // verus!
