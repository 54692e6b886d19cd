use vstd::prelude::*;

use crate::number::{Number, MAX_SCALE};

verus! {

/// Sense of spindle rotation.
#[derive(Clone, Copy, Debug, PartialEq, Eq)]
pub enum Direction {
    Clockwise,
    AntiClockwise,
}

/// Tool state.
#[derive(Clone, Copy, Debug, PartialEq, Eq)]
pub enum Tool {
    Off,
    On,
}

/// How later coordinates are read.
#[derive(Clone, Copy, Debug, PartialEq, Eq)]
pub enum Distance {
    Absolute,
    Incremental,
}

/// One machine instruction.
#[derive(Clone, Debug, PartialEq)]
pub enum GCode {
    RapidPositioning { x: Option<Number>, y: Option<Number> },
    LinearInterpolation {
        x: Option<Number>,
        y: Option<Number>,
        z: Option<Number>,
        f: Option<Number>,
    },
    Dwell { p: Number },
    UnitsInches,
    UnitsMillimeters,
    ProgramEnd,
    StartSpindle { d: Direction, s: Number },
    StopSpindle,
    DistanceMode(Distance),
    Comment(Box<String>),
    Raw(Box<String>),
}

pub open spec fn opt_wf(v: Option<Number>) -> bool {
    match v {
        Some(n) => n.wf(),
        None => true,
    }
}

impl GCode {
    /// Every number the instruction carries has a supported scale.
    pub open spec fn wf(self) -> bool {
        match self {
            GCode::RapidPositioning { x, y } => opt_wf(x) && opt_wf(y),
            GCode::LinearInterpolation { x, y, z, f } => opt_wf(x) && opt_wf(y) && opt_wf(z)
                && opt_wf(f),
            GCode::Dwell { p } => p.wf(),
            GCode::StartSpindle { d, s } => s.wf(),
            _ => true,
        }
    }

    /// Whether every number the instruction carries has a supported scale.
    pub fn supported(&self) -> (r: bool)
        ensures
            r == self.wf(),
    {
        match self {
            GCode::RapidPositioning { x, y } => opt_supported(x) && opt_supported(y),
            GCode::LinearInterpolation { x, y, z, f } => opt_supported(x) && opt_supported(y)
                && opt_supported(z) && opt_supported(f),
            GCode::Dwell { p } => p.scale <= MAX_SCALE,
            GCode::StartSpindle { d, s } => s.scale <= MAX_SCALE,
            _ => true,
        }
    }
}

fn opt_supported(v: &Option<Number>) -> (r: bool)
    ensures
        r == opt_wf(*v),
{
    match v {
        Some(n) => n.scale <= MAX_SCALE,
        None => true,
    }
}

/// An ordered sequence of instructions.
pub struct Program(Vec<GCode>);

impl View for Program {
    type V = Seq<GCode>;

    closed spec fn view(&self) -> Seq<GCode> {
        self.0@
    }
}

impl Program {
    pub open spec fn wf(self) -> bool {
        forall|i: int| 0 <= i < self@.len() ==> #[trigger] self@[i].wf()
    }

    /// An empty program.
    pub fn new() -> (r: Program)
        ensures
            r@ == Seq::<GCode>::empty(),
    {
        Program(Vec::new())
    }

    /// The program holding `v`, in its order.
    pub fn from_vec(v: Vec<GCode>) -> (r: Program)
        ensures
            r@ == v@,
    {
        Program(v)
    }

    /// Appends `g` at the end.
    pub fn push(&mut self, g: GCode)
        ensures
            final(self)@ == old(self)@.push(g),
    {
        self.0.push(g)
    }

    /// Moves every instruction of `other`, in order, to the end of `self`,
    /// leaving `other` empty.
    pub fn merge(&mut self, other: &mut Program)
        ensures
            final(self)@ == old(self)@ + old(other)@,
            final(other)@ == Seq::<GCode>::empty(),
    {
        self.0.append(&mut other.0);
    }

    /// The instructions, read-only.
    pub fn as_slice(&self) -> (r: &[GCode])
        ensures
            r@ == self@,
    {
        self.0.as_slice()
    }

    pub fn len(&self) -> (r: usize)
        ensures
            r == self@.len(),
    {
        self.0.len()
    }
}

impl Default for Program {
    fn default() -> (r: Program)
        ensures
            r@ == Seq::<GCode>::empty(),
    {
        Program::new()
    }
}

impl From<Vec<GCode>> for Program {
    fn from(v: Vec<GCode>) -> (r: Program)
        ensures
            r@ == v@,
    {
        Program(v)
    }
}

impl vstd::std_specs::convert::FromSpecImpl<Vec<GCode>> for Program {
    open spec fn obeys_from_spec() -> bool {
        true
    }

    closed spec fn from_spec(v: Vec<GCode>) -> Program {
        Program(v)
    }
}

impl std::ops::Deref for Program {
    type Target = [GCode];

    fn deref(&self) -> (r: &[GCode])
        ensures
            r@ == self@,
    {
        self.0.as_slice()
    }
}

impl std::ops::AddAssign for Program {
    fn add_assign(&mut self, other: Program)
        ensures
            final(self)@ == old(self)@ + other@,
    {
        let mut other = other;
        self.merge(&mut other);
    }
}

} // verus!
