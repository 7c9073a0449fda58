//! What lowering reports on the way.
use crate::chars;
use crate::dsl::pragmas;
use crate::dsl::pragmas::{PragmaSet, PragmaV};
use crate::dsl::template;
use vstd::prelude::*;

verus! {

/// Something to report.
#[derive(Debug, PartialEq)]
pub enum CompileEvent {
    /// A pragma that is recognised.
    PragmaAcknowledged { name: String, line: usize },
    /// A pragma that is not, and is passed over.
    UnknownPragma { name: String, line: usize },
    /// How a hole of a template was typed.
    TileHoleTyped {
        tile: String,
        hole: String,
        wire_type: String,
        declared: Option<String>,
        expectation: String,
        encoder: String,
        adapter: Option<String>,
    },
    /// A template that was lowered, and what it is made of.
    TileCompiled {
        tile: String,
        encoding: String,
        statics: usize,
        static_bytes: usize,
        holes: usize,
        branches: usize,
        projections: usize,
        bodies: Vec<String>,
    },
}

/// The content of something to report.
#[verifier::ext_equal]
pub enum EventV {
    PragmaAcknowledged(Seq<char>, usize),
    UnknownPragma(Seq<char>, usize),
    TileHoleTyped(TypedV),
    TileCompiled(CompiledV),
}

/// The content of a report on the typing of a hole.
#[verifier::ext_equal]
pub struct TypedV {
    pub tile: Seq<char>,
    pub hole: Seq<char>,
    pub wire_type: Seq<char>,
    pub declared: Option<Seq<char>>,
    pub expectation: Seq<char>,
    pub encoder: Seq<char>,
    pub adapter: Option<Seq<char>>,
}

/// The content of a report on a template.
#[verifier::ext_equal]
pub struct CompiledV {
    pub tile: Seq<char>,
    pub encoding: Seq<char>,
    pub statics: nat,
    pub static_bytes: nat,
    pub holes: nat,
    pub branches: nat,
    pub projections: nat,
    pub bodies: Seq<Seq<char>>,
}

impl View for CompileEvent {
    type V = EventV;

    open spec fn view(&self) -> EventV {
        match *self {
            CompileEvent::PragmaAcknowledged { name, line } => EventV::PragmaAcknowledged(
                name@,
                line,
            ),
            CompileEvent::UnknownPragma { name, line } => EventV::UnknownPragma(name@, line),
            CompileEvent::TileHoleTyped {
                tile,
                hole,
                wire_type,
                declared,
                expectation,
                encoder,
                adapter,
            } => EventV::TileHoleTyped(
                TypedV {
                    tile: tile@,
                    hole: hole@,
                    wire_type: wire_type@,
                    declared: template::maybe(declared),
                    expectation: expectation@,
                    encoder: encoder@,
                    adapter: template::maybe(adapter),
                },
            ),
            CompileEvent::TileCompiled {
                tile,
                encoding,
                statics,
                static_bytes,
                holes,
                branches,
                projections,
                bodies,
            } => EventV::TileCompiled(
                CompiledV {
                    tile: tile@,
                    encoding: encoding@,
                    statics: statics as nat,
                    static_bytes: static_bytes as nat,
                    holes: holes as nat,
                    branches: branches as nat,
                    projections: projections as nat,
                    bodies: chars::texts(bodies@),
                },
            ),
        }
    }
}

/// The contents of a run of reports.
pub open spec fn event_views(s: Seq<CompileEvent>) -> Seq<EventV> {
    Seq::new(s.len(), |i: int| s[i]@)
}

/// The report on a pragma.
pub open spec fn pragma_event(p: PragmaV) -> EventV {
    if pragmas::recognised(p.name) {
        EventV::PragmaAcknowledged(p.name, p.line)
    } else {
        EventV::UnknownPragma(p.name, p.line)
    }
}

/// Adds one report for each pragma of the innermost scope, in order.
pub fn record_pragma_events(set: &PragmaSet, log: &mut Vec<CompileEvent>)
    ensures
        event_views(final(log)@) == event_views(old(log)@) + Seq::new(
            set@[0].len(),
            |i: int| pragma_event(set@[0][i]),
        ),
{
    let ghost all = pragmas::pragma_views(set.entries@);
    let ghost start = event_views(log@);
    let ghost told = Seq::new(all.len(), |i: int| pragma_event(all[i]));
    assert(set@[0] == all);
    let mut i: usize = 0;
    assert(start + told.take(0) =~= start);
    while i < set.entries.len()
        invariant
            i <= set.entries@.len(),
            all == pragmas::pragma_views(set.entries@),
            told == Seq::new(all.len(), |k: int| pragma_event(all[k])),
            event_views(log@) == start + told.take(i as int),
        decreases set.entries.len() - i,
    {
        let ghost before = log@;
        let name: String = set.entries[i].name.clone();
        let line: usize = set.entries[i].line;
        let e: CompileEvent = if pragmas::is_known(name.as_str()) {
            CompileEvent::PragmaAcknowledged { name, line }
        } else {
            CompileEvent::UnknownPragma { name, line }
        };
        let ghost shown = e@;
        log.push(e);
        i = i + 1;
        assert(shown == told[i - 1]);
        assert(event_views(log@) =~= event_views(before).push(shown));
        assert((start + told.take(i - 1)).push(told[i - 1]) =~= start + told.take(i as int));
    }
    assert(told.take(i as int) =~= told);
}

} // verus!
