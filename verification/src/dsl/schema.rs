//! What is known of a cursor beforehand.
use crate::value::PortType;
use vstd::prelude::*;

verus! {

/// How far a cursor runs.
#[derive(Debug, PartialEq)]
pub enum CursorKind {
    /// Over a fixed range.
    Range,
    /// Until a time has passed.
    ExtendingTimed { min_ms_output: String, delta_output: Option<String> },
    /// Until a number of passes is done.
    ExtendingPasses { min_passes_output: String, delta_output: Option<String> },
    /// Until a count is reached.
    ExtendingCount { min_count_output: String, delta_output: Option<String> },
    /// Until a time has passed and a number of passes is done.
    ExtendingElapsedAndPasses {
        min_ms_output: String,
        min_passes_output: String,
        delta_output: Option<String>,
    },
    /// Until a time has passed or a number of passes is done.
    ExtendingElapsedOrPasses {
        min_ms_output: String,
        min_passes_output: String,
        delta_output: Option<String>,
    },
}

/// The content of how far a cursor runs.
#[verifier::ext_equal]
pub enum CursorKindV {
    Range,
    Timed(Seq<char>, Option<Seq<char>>),
    Passes(Seq<char>, Option<Seq<char>>),
    Count(Seq<char>, Option<Seq<char>>),
    TimedAndPasses(Seq<char>, Seq<char>, Option<Seq<char>>),
    TimedOrPasses(Seq<char>, Seq<char>, Option<Seq<char>>),
}

/// The content of a text that may be missing.
pub open spec fn maybe(t: Option<String>) -> Option<Seq<char>> {
    match t {
        Some(s) => Some(s@),
        None => None,
    }
}

impl View for CursorKind {
    type V = CursorKindV;

    open spec fn view(&self) -> CursorKindV {
        match *self {
            CursorKind::Range => CursorKindV::Range,
            CursorKind::ExtendingTimed { min_ms_output, delta_output } => CursorKindV::Timed(
                min_ms_output@,
                maybe(delta_output),
            ),
            CursorKind::ExtendingPasses { min_passes_output, delta_output } =>
                CursorKindV::Passes(min_passes_output@, maybe(delta_output)),
            CursorKind::ExtendingCount { min_count_output, delta_output } => CursorKindV::Count(
                min_count_output@,
                maybe(delta_output),
            ),
            CursorKind::ExtendingElapsedAndPasses {
                min_ms_output,
                min_passes_output,
                delta_output,
            } => CursorKindV::TimedAndPasses(
                min_ms_output@,
                min_passes_output@,
                maybe(delta_output),
            ),
            CursorKind::ExtendingElapsedOrPasses {
                min_ms_output,
                min_passes_output,
                delta_output,
            } => CursorKindV::TimedOrPasses(
                min_ms_output@,
                min_passes_output@,
                maybe(delta_output),
            ),
        }
    }
}

/// What is known of a cursor.
#[derive(Debug, PartialEq)]
pub struct SourceSchema {
    pub name: String,
    /// The values that each step gives, and their types.
    pub projections: Vec<(String, PortType)>,
    /// How many steps there are.
    pub extent: Option<u64>,
    /// The outputs that give the first and the last step.
    pub extent_outputs: Option<(String, String)>,
    pub extent_limit: Option<u64>,
    pub cursor_kind: CursorKind,
    /// The output that gives the part to run over.
    pub partition_output: Option<String>,
}

/// The content of what is known of a cursor.
#[verifier::ext_equal]
pub struct SchemaV {
    pub name: Seq<char>,
    pub projections: Seq<(Seq<char>, PortType)>,
    pub extent: Option<u64>,
    pub extent_outputs: Option<(Seq<char>, Seq<char>)>,
    pub extent_limit: Option<u64>,
    pub kind: CursorKindV,
    pub partition: Option<Seq<char>>,
}

/// The contents of a run of projections.
pub open spec fn projection_views(s: Seq<(String, PortType)>) -> Seq<(Seq<char>, PortType)> {
    Seq::new(s.len(), |i: int| (s[i].0@, s[i].1))
}

/// The content of a pair of texts that may be missing.
pub open spec fn maybe_pair(t: Option<(String, String)>) -> Option<(Seq<char>, Seq<char>)> {
    match t {
        Some(p) => Some((p.0@, p.1@)),
        None => None,
    }
}

impl View for SourceSchema {
    type V = SchemaV;

    open spec fn view(&self) -> SchemaV {
        SchemaV {
            name: self.name@,
            projections: projection_views(self.projections@),
            extent: self.extent,
            extent_outputs: maybe_pair(self.extent_outputs),
            extent_limit: self.extent_limit,
            kind: self.cursor_kind@,
            partition: maybe(self.partition_output),
        }
    }
}

/// The contents of what is known of a run of cursors.
pub open spec fn schema_views(s: Seq<SourceSchema>) -> Seq<SchemaV> {
    Seq::new(s.len(), |i: int| s[i]@)
}

/// A cursor whose extent is known once two outputs are.
#[derive(Debug, PartialEq)]
pub struct DeferredExtent {
    /// The place of the cursor.
    pub schema_idx: usize,
    /// The output that gives the first step.
    pub start_output: String,
    /// The output that gives the end.
    pub end_output: String,
}

/// The content of a deferred extent.
#[verifier::ext_equal]
pub struct DeferredV {
    pub place: nat,
    pub start: Seq<char>,
    pub end: Seq<char>,
}

impl View for DeferredExtent {
    type V = DeferredV;

    open spec fn view(&self) -> DeferredV {
        DeferredV {
            place: self.schema_idx as nat,
            start: self.start_output@,
            end: self.end_output@,
        }
    }
}

/// The contents of a run of deferred extents.
pub open spec fn deferred_views(s: Seq<DeferredExtent>) -> Seq<DeferredV> {
    Seq::new(s.len(), |i: int| s[i]@)
}

} // verus!
