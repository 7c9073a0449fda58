//! What a template is lowered to.
use crate::chars;
use crate::dsl::template;
use vstd::prelude::*;

verus! {

/// Where a hole stands.
#[derive(Clone, Copy, Debug, PartialEq, Eq, Structural)]
pub enum HolePosition {
    /// Where a JSON value stands.
    Value,
    /// Inside a JSON string.
    InString,
    /// In plain text.
    Text,
}

/// How the value of a hole is written.
#[derive(Debug, PartialEq)]
pub struct HoleEncoding {
    pub encoding: String,
    pub position: HolePosition,
    pub ty: Option<String>,
    pub format: Option<String>,
    /// Whether the text goes in as it is.
    pub raw: bool,
    /// Whether the hole is the condition of a branch.
    pub cond: bool,
}

/// The content of how the value of a hole is written.
#[verifier::ext_equal]
pub struct EncodingV {
    pub encoding: Seq<char>,
    pub position: HolePosition,
    pub ty: Option<Seq<char>>,
    pub format: Option<Seq<char>>,
    pub raw: bool,
    pub cond: bool,
}

impl View for HoleEncoding {
    type V = EncodingV;

    open spec fn view(&self) -> EncodingV {
        EncodingV {
            encoding: self.encoding@,
            position: self.position,
            ty: template::maybe(self.ty),
            format: template::maybe(self.format),
            raw: self.raw,
            cond: self.cond,
        }
    }
}

/// Where the text of a hole comes from.
#[derive(Debug, PartialEq)]
pub enum HoleSource {
    /// The input at this place.
    Wire(usize),
    /// A name of the body.
    Child(String),
}

/// The content of where the text of a hole comes from.
#[verifier::ext_equal]
pub enum HoleSourceV {
    Wire(nat),
    Child(Seq<char>),
}

impl View for HoleSource {
    type V = HoleSourceV;

    open spec fn view(&self) -> HoleSourceV {
        match *self {
            HoleSource::Wire(i) => HoleSourceV::Wire(i as nat),
            HoleSource::Child(s) => HoleSourceV::Child(s@),
        }
    }
}

/// The contents of names with a place and a type.
pub open spec fn placed_views(s: Seq<(String, usize, String)>) -> Seq<
    (Seq<char>, nat, Seq<char>),
> {
    Seq::new(s.len(), |i: int| (s[i].0@, s[i].1 as nat, s[i].2@))
}

/// The program of a body.
#[derive(Debug, PartialEq)]
pub struct ChildSpec {
    pub source: String,
    /// The outer names it reads, each with its input and its type.
    pub cascade: Vec<(String, usize, String)>,
}

/// The content of the program of a body.
#[verifier::ext_equal]
pub struct ChildV {
    pub source: Seq<char>,
    pub cascade: Seq<(Seq<char>, nat, Seq<char>)>,
}

impl View for ChildSpec {
    type V = ChildV;

    open spec fn view(&self) -> ChildV {
        ChildV { source: self.source@, cascade: placed_views(self.cascade@) }
    }
}

/// The contents of a run of bodies.
pub open spec fn child_views(s: Seq<ChildSpec>) -> Seq<ChildV> {
    Seq::new(s.len(), |i: int| s[i]@)
}

/// One step of writing a template.
#[derive(Debug, PartialEq)]
pub enum TileOp {
    /// Text as it is.
    Static(String),
    /// The text of a hole.
    Hole(HoleSource),
    /// One run or the other.
    Branch { cond: HoleSource, then: Vec<TileOp>, otherwise: Vec<TileOp> },
    /// A run for each tuple of a stream.
    Repeat {
        stream: String,
        child: usize,
        sep: String,
        body: Vec<TileOp>,
        generators: Vec<(String, usize, String)>,
    },
}

/// The content of one step.
#[verifier::ext_equal]
pub enum OpV {
    Static(Seq<char>),
    Hole(HoleSourceV),
    Branch(HoleSourceV, Seq<OpV>, Seq<OpV>),
    Repeat(RepeatV, Seq<OpV>),
}

/// The content of a step for each tuple, but for its run.
#[verifier::ext_equal]
pub struct RepeatV {
    pub stream: Seq<char>,
    pub child: nat,
    pub sep: Seq<char>,
    pub generators: Seq<(Seq<char>, nat, Seq<char>)>,
}

/// The content of one step.
pub open spec fn op_view(op: TileOp) -> OpV
    decreases op, 0nat,
{
    match op {
        TileOp::Static(s) => OpV::Static(s@),
        TileOp::Hole(h) => OpV::Hole(h@),
        TileOp::Branch { cond, then: yes, otherwise } => OpV::Branch(
            cond@,
            op_views(yes@),
            op_views(otherwise@),
        ),
        TileOp::Repeat { stream, child, sep, body, generators } => OpV::Repeat(
            RepeatV {
                stream: stream@,
                child: child as nat,
                sep: sep@,
                generators: placed_views(generators@),
            },
            op_views(body@),
        ),
    }
}

/// The contents of a run of steps.
pub open spec fn op_views(s: Seq<TileOp>) -> Seq<OpV>
    decreases s, s.len(),
{
    if s.len() == 0 {
        Seq::empty()
    } else {
        op_views(s.drop_last()).push(op_view(s.last()))
    }
}

/// A run of steps has as many contents, each that of its own.
pub proof fn lemma_op_views(s: Seq<TileOp>)
    ensures
        op_views(s).len() == s.len(),
        forall|i: int| 0 <= i < s.len() ==> #[trigger] op_views(s)[i] == op_view(s[i]),
    decreases s.len(),
{
    if s.len() > 0 {
        lemma_op_views(s.drop_last());
    }
}

impl View for TileOp {
    type V = OpV;

    open spec fn view(&self) -> OpV {
        op_view(*self)
    }
}

/// Adds a step.
pub fn push_op(ops: &mut Vec<TileOp>, op: TileOp)
    ensures
        op_views(final(ops)@) == op_views(old(ops)@).push(op@),
{
    let ghost before = ops@;
    let ghost shown = op@;
    ops.push(op);
    proof {
        lemma_op_views(ops@);
        lemma_op_views(before);
        assert(op_views(ops@) =~= op_views(before).push(shown));
    }
}

/// A template as it was lowered.
#[derive(Debug, PartialEq)]
pub struct TileSpec {
    pub name: String,
    pub encoding: String,
    pub ops: Vec<TileOp>,
    pub children: Vec<ChildSpec>,
}

/// The content of a template as it was lowered.
#[verifier::ext_equal]
pub struct TileSpecV {
    pub name: Seq<char>,
    pub encoding: Seq<char>,
    pub ops: Seq<OpV>,
    pub children: Seq<ChildV>,
}

impl View for TileSpec {
    type V = TileSpecV;

    open spec fn view(&self) -> TileSpecV {
        TileSpecV {
            name: self.name@,
            encoding: self.encoding@,
            ops: op_views(self.ops@),
            children: child_views(self.children@),
        }
    }
}

// ---------------------------------------------------------------------
// Counting
// ---------------------------------------------------------------------

/// The bytes that a character takes.
pub open spec fn char_bytes(c: char) -> nat {
    let n = c as int;
    if n < 0x80 {
        1
    } else if n < 0x800 {
        2
    } else if n < 0x10000 {
        3
    } else {
        4
    }
}

/// The bytes that a text takes.
pub open spec fn text_bytes(s: Seq<char>) -> nat
    decreases s.len(),
{
    if s.len() == 0 {
        0
    } else {
        text_bytes(s.drop_last()) + char_bytes(s.last())
    }
}

/// How much a run of steps holds.
#[verifier::ext_equal]
pub struct ShapeV {
    pub statics: nat,
    pub static_bytes: nat,
    pub holes: nat,
    pub branches: nat,
    pub projections: nat,
}

impl ShapeV {
    /// Nothing.
    pub open spec fn zero() -> ShapeV {
        ShapeV { statics: 0, static_bytes: 0, holes: 0, branches: 0, projections: 0 }
    }

    /// Both together.
    pub open spec fn plus(self, o: ShapeV) -> ShapeV {
        ShapeV {
            statics: self.statics + o.statics,
            static_bytes: self.static_bytes + o.static_bytes,
            holes: self.holes + o.holes,
            branches: self.branches + o.branches,
            projections: self.projections + o.projections,
        }
    }
}

/// How much a step holds.
pub open spec fn op_shape(op: OpV) -> ShapeV
    decreases op, 0nat,
{
    match op {
        OpV::Static(s) => ShapeV { statics: 1, static_bytes: text_bytes(s), ..ShapeV::zero() },
        OpV::Hole(_) => ShapeV { holes: 1, ..ShapeV::zero() },
        OpV::Branch(_, yes, no) => (ShapeV { branches: 1, ..ShapeV::zero() }).plus(
            shape_of(yes),
        ).plus(shape_of(no)),
        OpV::Repeat(_, body) => (ShapeV { projections: 1, ..ShapeV::zero() }).plus(
            shape_of(body),
        ),
    }
}

/// How much a run of steps holds.
pub open spec fn shape_of(s: Seq<OpV>) -> ShapeV
    decreases s, s.len(),
{
    if s.len() == 0 {
        ShapeV::zero()
    } else {
        shape_of(s.drop_last()).plus(op_shape(s.last()))
    }
}

/// A number, as large as the machine can count.
pub open spec fn capped(n: nat) -> nat {
    if n <= usize::MAX {
        n
    } else {
        usize::MAX as nat
    }
}

/// Counts over a run of steps.
#[derive(Debug, Default)]
pub struct SkeletonShape {
    pub statics: usize,
    pub static_bytes: usize,
    pub holes: usize,
    pub branches: usize,
    pub projections: usize,
}

impl SkeletonShape {
    /// Whether `r` is these counts with those of `s` added.
    pub open spec fn raised(self, s: ShapeV, r: SkeletonShape) -> bool {
        &&& r.statics == capped(self.statics as nat + s.statics)
        &&& r.static_bytes == capped(self.static_bytes as nat + s.static_bytes)
        &&& r.holes == capped(self.holes as nat + s.holes)
        &&& r.branches == capped(self.branches as nat + s.branches)
        &&& r.projections == capped(self.projections as nat + s.projections)
    }
}

/// The sum, as large as the machine can count.
fn plus(a: usize, b: usize) -> (r: usize)
    ensures
        r == capped((a + b) as nat),
{
    if a <= usize::MAX - b {
        a + b
    } else {
        usize::MAX
    }
}

/// The bytes that `s` takes.
fn byte_count(s: &str) -> (r: usize)
    ensures
        r == capped(text_bytes(s@)),
{
    let text: Vec<char> = chars::chars_of(s);
    let mut n: usize = 0;
    let mut i: usize = 0;
    assert(text@.take(0) =~= Seq::<char>::empty());
    while i < text.len()
        invariant
            i <= text@.len(),
            n == capped(text_bytes(text@.take(i as int))),
        decreases text.len() - i,
    {
        assert(text@.take(i + 1).drop_last() =~= text@.take(i as int));
        assert(text@.take(i + 1).last() == text@[i as int]);
        let c: char = text[i];
        let k: usize = if '\u{80}' > c {
            1
        } else if '\u{800}' > c {
            2
        } else if '\u{10000}' > c {
            3
        } else {
            4
        };
        n = plus(n, k);
        i = i + 1;
    }
    assert(text@.take(i as int) =~= text@);
    n
}

impl SkeletonShape {
    /// Adds what a run of steps holds. A count stays at the largest that
    /// the machine has.
    pub fn count(&mut self, ops: &Vec<TileOp>)
        ensures
            old(self).raised(shape_of(op_views(ops@)), *final(self)),
        decreases ops, 1nat,
    {
        let ghost all = op_views(ops@);
        let ghost start = *self;
        let mut i: usize = 0;
        proof {
            lemma_op_views(ops@);
            assert(all.take(0) =~= Seq::<OpV>::empty());
        }
        while i < ops.len()
            invariant
                i <= ops@.len(),
                all == op_views(ops@),
                all.len() == ops@.len(),
                forall|k: int| 0 <= k < ops@.len() ==> #[trigger] all[k] == op_view(ops@[k]),
                start.raised(shape_of(all.take(i as int)), *self),
            decreases ops.len() - i,
        {
            assert(decreases_to!(ops@ => ops@[i as int]));
            assert(decreases_to!(*ops => ops@));
            assert(all.take(i + 1).drop_last() =~= all.take(i as int));
            assert(all.take(i + 1).last() == op_view(ops@[i as int]));
            assert(shape_of(all.take(i + 1)) == shape_of(all.take(i as int)).plus(
                op_shape(op_view(ops@[i as int])),
            ));
            match &ops[i] {
                TileOp::Static(s) => {
                    assert(op_view(ops@[i as int]) == OpV::Static(s@));
                    self.statics = plus(self.statics, 1);
                    self.static_bytes = plus(self.static_bytes, byte_count(s.as_str()));
                },
                TileOp::Hole(h) => {
                    assert(op_view(ops@[i as int]) == OpV::Hole(h@));
                    self.holes = plus(self.holes, 1);
                },
                TileOp::Branch { cond, then: yes, otherwise } => {
                    assert(op_view(ops@[i as int]) == OpV::Branch(
                        cond@,
                        op_views(yes@),
                        op_views(otherwise@),
                    ));
                    self.branches = plus(self.branches, 1);
                    self.count(yes);
                    self.count(otherwise);
                },
                TileOp::Repeat { body, .. } => {
                    self.projections = plus(self.projections, 1);
                    self.count(body);
                },
            }
            i = i + 1;
        }
        assert(all.take(i as int) =~= all);
    }
}

} // verus!
