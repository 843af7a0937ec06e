use vstd::prelude::*;
use vstd::string::*;
use crate::extract::{ends_with, ends_with_start};
use crate::text::{ascii_bytes, literal_bytes};

verus! {

/// The stage of the scan: which marker is looked for next.
#[derive(Clone, Copy, Debug, PartialEq, Eq, Structural)]
pub enum MatchStep {
    FindPreamble,
    FindHeaderStart,
    FindHeaderEnd,
    FindBodyStart,
    FindBodyEnd,
    ResultAvailable,
}

/// All that the scan keeps from one fragment to the next.
#[derive(Clone, Debug)]
pub struct ChunkMatchState {
    /// How many bytes of the marker looked for have been matched so far.
    pub needle_offset: usize,
    pub current_step: MatchStep,
    /// The header text gathered so far, as bytes.
    pub header: Vec<u8>,
    /// The body text gathered so far, as bytes.
    pub body: Vec<u8>,
}

/// The scan state as plain values.
pub struct ScanState {
    pub step: MatchStep,
    pub offset: int,
    pub header: Seq<u8>,
    pub body: Seq<u8>,
}

/// The marker that ends a stage. Nothing is looked for while a result waits.
pub open spec fn marker(step: MatchStep) -> Seq<u8> {
    match step {
        MatchStep::FindPreamble => ascii_bytes("Scroll to the right to read!"@),
        MatchStep::FindHeaderStart => ascii_bytes("<strong>"@),
        MatchStep::FindHeaderEnd => ascii_bytes("</strong>"@),
        MatchStep::FindBodyStart => ascii_bytes("<span>"@),
        MatchStep::FindBodyEnd => ascii_bytes("</span>"@),
        MatchStep::ResultAvailable => ascii_bytes(""@),
    }
}

/// The stage that follows when the marker of `step` has been found; a waiting
/// result is followed by the search for the next header.
pub open spec fn next_step(step: MatchStep) -> MatchStep {
    match step {
        MatchStep::FindPreamble => MatchStep::FindHeaderStart,
        MatchStep::FindHeaderStart => MatchStep::FindHeaderEnd,
        MatchStep::FindHeaderEnd => MatchStep::FindBodyStart,
        MatchStep::FindBodyStart => MatchStep::FindBodyEnd,
        MatchStep::FindBodyEnd => MatchStep::ResultAvailable,
        MatchStep::ResultAvailable => MatchStep::FindHeaderStart,
    }
}

/// A header that holds this token marks a cycle that is not reported.
pub open spec fn exclusion_token() -> Seq<u8> {
    ascii_bytes("#update-board-archive"@)
}

/// The lengths of the markers.
pub proof fn lemma_marker_lengths()
    ensures
        marker(MatchStep::FindPreamble).len() == 28,
        marker(MatchStep::FindHeaderStart).len() == 8,
        marker(MatchStep::FindHeaderEnd).len() == 9,
        marker(MatchStep::FindBodyStart).len() == 6,
        marker(MatchStep::FindBodyEnd).len() == 7,
        marker(MatchStep::ResultAvailable).len() == 0,
        exclusion_token().len() == 21,
{
    reveal_strlit("Scroll to the right to read!");
    reveal_strlit("<strong>");
    reveal_strlit("</strong>");
    reveal_strlit("<span>");
    reveal_strlit("</span>");
    reveal_strlit("");
    reveal_strlit("#update-board-archive");
}

impl ScanState {
    /// The partial match lies inside the marker looked for, and the bytes of
    /// it that a gathering stage has already taken in stand at the end of its
    /// accumulator.
    pub open spec fn wf(self) -> bool {
        &&& match self.step {
            MatchStep::ResultAvailable => self.offset == 0,
            _ => 0 <= self.offset < marker(self.step).len(),
        }
        &&& self.step == MatchStep::FindHeaderEnd ==> ends_with(
            self.header,
            marker(self.step).take(self.offset),
        )
        &&& self.step == MatchStep::FindBodyEnd ==> ends_with(
            self.body,
            marker(self.step).take(self.offset),
        )
    }
}

impl View for ChunkMatchState {
    type V = ScanState;

    open spec fn view(&self) -> ScanState {
        ScanState {
            step: self.current_step,
            offset: self.needle_offset as int,
            header: self.header@,
            body: self.body@,
        }
    }
}

/// The marker of a stage, as bytes.
pub fn marker_bytes(step: MatchStep) -> (needle: &'static [u8])
    ensures
        needle@ == marker(step),
{
    proof {
        reveal_strlit("Scroll to the right to read!");
        reveal_strlit("<strong>");
        reveal_strlit("</strong>");
        reveal_strlit("<span>");
        reveal_strlit("</span>");
        reveal_strlit("");
    }
    match step {
        MatchStep::FindPreamble => literal_bytes("Scroll to the right to read!"),
        MatchStep::FindHeaderStart => literal_bytes("<strong>"),
        MatchStep::FindHeaderEnd => literal_bytes("</strong>"),
        MatchStep::FindBodyStart => literal_bytes("<span>"),
        MatchStep::FindBodyEnd => literal_bytes("</span>"),
        MatchStep::ResultAvailable => literal_bytes(""),
    }
}

/// The exclusion token, as bytes.
pub fn exclusion_token_bytes() -> (token: &'static [u8])
    ensures
        token@ == exclusion_token(),
{
    proof {
        reveal_strlit("#update-board-archive");
    }
    literal_bytes("#update-board-archive")
}

impl ChunkMatchState {
    /// Whether the state is one that a scan can go on from. States made by
    /// `new` and by the scan are; one put together by hand may not be.
    pub fn is_consistent(&self) -> (ok: bool)
        ensures
            ok == self@.wf(),
    {
        let needle = marker_bytes(self.current_step);
        match self.current_step {
            MatchStep::ResultAvailable => self.needle_offset == 0,
            MatchStep::FindHeaderEnd => self.needle_offset < needle.len() && ends_with_start(
                self.header.as_slice(),
                needle,
                self.needle_offset,
            ),
            MatchStep::FindBodyEnd => self.needle_offset < needle.len() && ends_with_start(
                self.body.as_slice(),
                needle,
                self.needle_offset,
            ),
            _ => self.needle_offset < needle.len(),
        }
    }

    /// The state before the first fragment: nothing matched, nothing
    /// gathered, the preamble still to be found.
    pub fn new() -> (state: Self)
        ensures
            state@ == (ScanState {
                step: MatchStep::FindPreamble,
                offset: 0,
                header: Seq::empty(),
                body: Seq::empty(),
            }),
            state@.wf(),
    {
        proof {
            lemma_marker_lengths();
        }
        Self {
            needle_offset: 0,
            current_step: MatchStep::FindPreamble,
            header: Vec::with_capacity(10),
            body: Vec::with_capacity(50),
        }
    }
}

} // verus!
