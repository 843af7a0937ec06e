use vstd::prelude::*;
use vstd::utf8::{decode_utf8, valid_utf8};
use crate::extract::{
    excise, handle_tag_end, handle_tag_start, lemma_empty_tail, lemma_hit_cuts_marker,
    lemma_miss_keeps_tail, remainder,
};
use crate::needle::{
    find_needle_chunked, lemma_residue_bounds, lemma_search_bounds, lemma_search_split, residue,
    search,
};
use crate::state::{
    exclusion_token, exclusion_token_bytes, lemma_marker_lengths, marker, marker_bytes, next_step,
    ChunkMatchState, MatchStep, ScanState,
};
use crate::text::{contains, occurs};
use crate::unescape::{text_from_utf8, unescape_bytes, unescaped, InvalidUtf8};

verus! {

/// One reported cycle: the header and the body found between the markers,
/// both decoded.
#[derive(Clone, Debug)]
pub struct Entry {
    pub header: Vec<u8>,
    pub body: Vec<u8>,
}

/// A reported cycle as plain values.
pub struct EntryText {
    pub header: Seq<u8>,
    pub body: Seq<u8>,
}

impl View for Entry {
    type V = EntryText;

    open spec fn view(&self) -> EntryText {
        EntryText { header: self.header@, body: self.body@ }
    }
}

impl Entry {
    /// The header and the body as text. The scan takes any bytes, and a
    /// numeric reference can stand for a byte that is no UTF-8 by itself, so
    /// an entry need not be text: it is exactly when both its parts are valid
    /// UTF-8.
    pub fn into_text(self) -> (text: Result<(String, String), InvalidUtf8>)
        ensures
            text is Ok == (valid_utf8(self.header@) && valid_utf8(self.body@)),
            text matches Ok(pair) ==> pair.0@ == decode_utf8(self.header@) && pair.1@
                == decode_utf8(self.body@),
    {
        match text_from_utf8(self.header) {
            Some(header) => match text_from_utf8(self.body) {
                Some(body) => Ok((header, body)),
                None => Err(InvalidUtf8),
            },
            None => Err(InvalidUtf8),
        }
    }
}

/// The reported cycles as plain values.
pub open spec fn texts(entries: Seq<Entry>) -> Seq<EntryText> {
    entries.map_values(|entry: Entry| entry@)
}

/// The state after a fragment in which the marker of the stage was not
/// completed: a gathering stage has taken the whole fragment in.
pub open spec fn after_miss(s: ScanState, chunk: Seq<u8>) -> ScanState {
    ScanState {
        step: s.step,
        offset: residue(marker(s.step), s.offset, chunk),
        header: if s.step == MatchStep::FindHeaderEnd {
            s.header + chunk
        } else {
            s.header
        },
        body: if s.step == MatchStep::FindBodyEnd {
            s.body + chunk
        } else {
            s.body
        },
    }
}

/// The state after the marker of the stage was completed at `end` in the
/// fragment: a gathering stage holds what came before the marker, and the
/// next stage begins.
pub open spec fn after_hit(s: ScanState, chunk: Seq<u8>, end: int) -> ScanState {
    ScanState {
        step: next_step(s.step),
        offset: 0,
        header: if s.step == MatchStep::FindHeaderEnd {
            excise(s.header + chunk.take(end), marker(s.step).len() as int)
        } else {
            s.header
        },
        body: if s.step == MatchStep::FindBodyEnd {
            excise(s.body + chunk.take(end), marker(s.step).len() as int)
        } else {
            s.body
        },
    }
}

/// One transition: the state it leads to, and what is left of the fragment
/// where the transition did not use all of it up.
pub open spec fn element(s: ScanState, chunk: Seq<u8>) -> (ScanState, Option<Seq<u8>>) {
    if s.step == MatchStep::ResultAvailable {
        (ScanState { step: MatchStep::FindHeaderStart, ..s }, Some(chunk))
    } else {
        match search(marker(s.step), s.offset, chunk) {
            Some(end) => (after_hit(s, chunk, end), Some(chunk.skip(end))),
            None => (after_miss(s, chunk), None),
        }
    }
}

/// What a finished cycle reports: nothing where its header holds the
/// exclusion token, else its header and body, decoded.
pub open spec fn report(s: ScanState) -> Seq<EntryText> {
    if occurs(exclusion_token(), s.header) {
        Seq::empty()
    } else {
        seq![EntryText { header: unescaped(s.header), body: unescaped(s.body) }]
    }
}

/// The state in which the search for the next cycle begins.
pub open spec fn cleared() -> ScanState {
    ScanState {
        step: MatchStep::FindHeaderStart,
        offset: 0,
        header: Seq::empty(),
        body: Seq::empty(),
    }
}

/// The scan of one fragment: the state it leaves and the cycles it reports,
/// in the order in which they ended.
pub open spec fn drive(s: ScanState, chunk: Seq<u8>) -> (ScanState, Seq<EntryText>)
    decreases chunk.len(), (if s.step == MatchStep::ResultAvailable {
        1nat
    } else {
        0nat
    }),
{
    if s.step == MatchStep::ResultAvailable {
        drive(ScanState { step: MatchStep::FindHeaderStart, ..s }, chunk)
    } else {
        match search(marker(s.step), s.offset, chunk) {
            None => (after_miss(s, chunk), Seq::empty()),
            Some(end) => if 1 <= end <= chunk.len() {
                let found = after_hit(s, chunk, end);
                if found.step == MatchStep::ResultAvailable {
                    let (last, later) = drive(cleared(), chunk.skip(end));
                    (last, report(found) + later)
                } else {
                    drive(found, chunk.skip(end))
                }
            } else {
                (s, Seq::empty())
            },
        }
    }
}

/// Makes one transition on `chunk`: looks for the marker of the current stage,
/// gathers or drops what comes before it, and goes on to the next stage where
/// the marker was found. The result is what is left of the fragment behind the
/// marker, or `None` when the fragment is used up. A waiting result only gives
/// way to the search for the next header, with the fragment untouched.
pub fn handle_chunk_element<'a>(chunk: &'a [u8], state: &mut ChunkMatchState) -> (rest: Option<
    &'a [u8],
>)
    requires
        old(state)@.wf(),
    ensures
        final(state)@.wf(),
        final(state)@ == element(old(state)@, chunk@).0,
        remainder(rest) == element(old(state)@, chunk@).1,
{
    proof {
        lemma_marker_lengths();
        lemma_search_bounds(marker(state@.step), state@.offset, chunk@);
        lemma_empty_tail(state@.header, marker(MatchStep::FindHeaderEnd));
        lemma_empty_tail(state@.body, marker(MatchStep::FindBodyEnd));
        if state@.step != MatchStep::ResultAvailable && search(
            marker(state@.step),
            state@.offset,
            chunk@,
        ) is None {
            lemma_residue_bounds(marker(state@.step), state@.offset, chunk@);
            if state@.step == MatchStep::FindHeaderEnd {
                lemma_miss_keeps_tail(marker(state@.step), state@.offset, state@.header, chunk@);
            }
            if state@.step == MatchStep::FindBodyEnd {
                lemma_miss_keeps_tail(marker(state@.step), state@.offset, state@.body, chunk@);
            }
        }
    }
    match state.current_step {
        MatchStep::FindPreamble => {
            let needle = marker_bytes(MatchStep::FindPreamble);
            let offset = find_needle_chunked(needle, chunk, state);
            let (found, rest) = handle_tag_start(offset, chunk);
            if found {
                state.current_step = MatchStep::FindHeaderStart;
            }
            rest
        },
        MatchStep::FindHeaderStart => {
            let needle = marker_bytes(MatchStep::FindHeaderStart);
            let offset = find_needle_chunked(needle, chunk, state);
            let (found, rest) = handle_tag_start(offset, chunk);
            if found {
                state.current_step = MatchStep::FindHeaderEnd;
            }
            rest
        },
        MatchStep::FindHeaderEnd => {
            let needle = marker_bytes(MatchStep::FindHeaderEnd);
            let offset = find_needle_chunked(needle, chunk, state);
            let (found, rest) = handle_tag_end(offset, needle, chunk, &mut state.header);
            if found {
                state.current_step = MatchStep::FindBodyStart;
            }
            rest
        },
        MatchStep::FindBodyStart => {
            let needle = marker_bytes(MatchStep::FindBodyStart);
            let offset = find_needle_chunked(needle, chunk, state);
            let (found, rest) = handle_tag_start(offset, chunk);
            if found {
                state.current_step = MatchStep::FindBodyEnd;
            }
            rest
        },
        MatchStep::FindBodyEnd => {
            let needle = marker_bytes(MatchStep::FindBodyEnd);
            let offset = find_needle_chunked(needle, chunk, state);
            let (found, rest) = handle_tag_end(offset, needle, chunk, &mut state.body);
            if found {
                state.current_step = MatchStep::ResultAvailable;
            }
            rest
        },
        MatchStep::ResultAvailable => {
            state.current_step = MatchStep::FindHeaderStart;
            Some(chunk)
        },
    }
}

/// Scans one fragment to its end. Every cycle that ends in it is decoded and
/// reported, unless its header holds the exclusion token; either way the
/// accumulators are emptied and the scan goes on with the next cycle. What is
/// left unfinished stays in `state` for the next fragment.
pub fn handle_chunk(chunk: &[u8], state: &mut ChunkMatchState) -> (entries: Vec<Entry>)
    requires
        old(state)@.wf(),
    ensures
        final(state)@.wf(),
        final(state)@.step != MatchStep::ResultAvailable,
        final(state)@ == drive(old(state)@, chunk@).0,
        texts(entries@) == drive(old(state)@, chunk@).1,
{
    let mut entries: Vec<Entry> = Vec::new();
    let mut current = chunk;
    assert(texts(entries@) =~= Seq::<EntryText>::empty());
    loop
        invariant_except_break
            drive(old(state)@, chunk@).1 == texts(entries@) + drive(state@, current@).1,
            drive(old(state)@, chunk@).0 == drive(state@, current@).0,
        invariant
            state@.wf(),
        ensures
            state@.wf(),
            state@.step != MatchStep::ResultAvailable,
            state@ == drive(old(state)@, chunk@).0,
            texts(entries@) == drive(old(state)@, chunk@).1,
        decreases
            current@.len(),
            (if state.current_step == MatchStep::ResultAvailable {
                1nat
            } else {
                0nat
            }),
    {
        let ghost before = state@;
        let ghost fragment = current@;
        proof {
            lemma_search_bounds(marker(before.step), before.offset, fragment);
        }
        match handle_chunk_element(current, state) {
            None => {
                assert(texts(entries@) + Seq::<EntryText>::empty() =~= texts(entries@));
                break ;
            },
            Some(rest) => {
                current = rest;
                if state.current_step == MatchStep::ResultAvailable {
                    let ghost found = state@;
                    let ghost reported = texts(entries@);
                    let token = exclusion_token_bytes();
                    if !contains(state.header.as_slice(), token) {
                        let mut header: Vec<u8> = Vec::new();
                        let mut body: Vec<u8> = Vec::new();
                        std::mem::swap(&mut header, &mut state.header);
                        std::mem::swap(&mut body, &mut state.body);
                        unescape_bytes(&mut header);
                        unescape_bytes(&mut body);
                        entries.push(Entry { header, body });
                    }
                    state.header.clear();
                    state.body.clear();
                    proof {
                        assert(texts(entries@) =~= reported + report(found));
                        assert(state@ == (ScanState { step: MatchStep::ResultAvailable, ..cleared() }));
                        let later = drive(cleared(), current@).1;
                        assert(reported + (report(found) + later) =~= (reported + report(found))
                            + later);
                    }
                }
            },
        }
    }
    entries
}

/// A stream may be cut into fragments anywhere: scanning two fragments one
/// after the other leaves the state, and reports the cycles, that scanning
/// them as one fragment does. By induction the same holds of any number of
/// fragments.
pub proof fn lemma_fragments_compose(s: ScanState, first: Seq<u8>, second: Seq<u8>)
    ensures
        drive(s, first + second).0 == drive(drive(s, first).0, second).0,
        drive(s, first + second).1 == drive(s, first).1 + drive(drive(s, first).0, second).1,
    decreases first.len(), (if s.step == MatchStep::ResultAvailable {
        1nat
    } else {
        0nat
    }),
{
    let whole = first + second;
    if s.step == MatchStep::ResultAvailable {
        lemma_fragments_compose(ScanState { step: MatchStep::FindHeaderStart, ..s }, first, second);
    } else {
        let needle = marker(s.step);
        lemma_search_split(needle, s.offset, first, second);
        lemma_search_bounds(needle, s.offset, first);
        match search(needle, s.offset, first) {
            Some(end) => {
                assert(whole.take(end) =~= first.take(end));
                assert(whole.skip(end) =~= first.skip(end) + second);
                let found = after_hit(s, first, end);
                assert(found == after_hit(s, whole, end));
                if found.step == MatchStep::ResultAvailable {
                    lemma_fragments_compose(cleared(), first.skip(end), second);
                    let early = drive(cleared(), first.skip(end));
                    let late = drive(early.0, second);
                    assert(report(found) + (early.1 + late.1) =~= (report(found) + early.1)
                        + late.1);
                } else {
                    lemma_fragments_compose(found, first.skip(end), second);
                }
            },
            None => {
                let mid = after_miss(s, first);
                lemma_search_bounds(needle, mid.offset, second);
                assert(drive(s, first).1 + drive(mid, second).1 =~= drive(mid, second).1);
                match search(needle, mid.offset, second) {
                    Some(end) => {
                        assert(whole.take(first.len() + end) =~= first + second.take(end));
                        assert(whole.skip(first.len() + end) =~= second.skip(end));
                        assert(s.header + (first + second.take(end)) =~= (s.header + first)
                            + second.take(end));
                        assert(s.body + (first + second.take(end)) =~= (s.body + first)
                            + second.take(end));
                        assert(after_hit(s, whole, first.len() + end) == after_hit(
                            mid,
                            second,
                            end,
                        ));
                    },
                    None => {
                        assert(s.header + whole =~= (s.header + first) + second);
                        assert(s.body + whole =~= (s.body + first) + second);
                        assert(after_miss(s, whole) == after_miss(mid, second));
                    },
                }
            },
        }
    }
}

/// The fragments of a stream put together again.
pub open spec fn joined(fragments: Seq<Seq<u8>>) -> Seq<u8>
    decreases fragments.len(),
{
    if fragments.len() == 0 {
        Seq::empty()
    } else {
        joined(fragments.drop_last()) + fragments.last()
    }
}

/// The scan of fragments one after the other: the state that the last one
/// leaves, and all the cycles reported on the way.
pub open spec fn feed(s: ScanState, fragments: Seq<Seq<u8>>) -> (ScanState, Seq<EntryText>)
    decreases fragments.len(),
{
    if fragments.len() == 0 {
        (s, Seq::empty())
    } else {
        let (before, early) = feed(s, fragments.drop_last());
        let (last, late) = drive(before, fragments.last());
        (last, early + late)
    }
}

/// However a stream is cut into one or more fragments, scanning them one by
/// one leaves the state, and reports the cycles, that scanning the stream as
/// one fragment does.
pub proof fn lemma_any_split_scans_alike(s: ScanState, fragments: Seq<Seq<u8>>)
    requires
        fragments.len() >= 1,
    ensures
        feed(s, fragments) == drive(s, joined(fragments)),
    decreases fragments.len(),
{
    let front = fragments.drop_last();
    let nothing = Seq::<EntryText>::empty();
    if fragments.len() == 1 {
        assert(front.len() == 0);
        assert(joined(front) =~= Seq::<u8>::empty());
        assert(joined(fragments) =~= fragments.last());
        assert(feed(s, front) == (s, nothing));
        assert(nothing + drive(s, fragments.last()).1 =~= drive(s, fragments.last()).1);
    } else {
        lemma_any_split_scans_alike(s, front);
        lemma_fragments_compose(s, joined(front), fragments.last());
    }
}

/// What a gathering stage hands on is the text in front of the marker, all of
/// it and no byte of the marker: with the marker behind it, it is what the
/// stage had gathered before and the fragment up to the end of the marker.
pub proof fn lemma_gathered_text_is_exact(s: ScanState, chunk: Seq<u8>, end: int)
    requires
        s.wf(),
        s.step == MatchStep::FindHeaderEnd || s.step == MatchStep::FindBodyEnd,
        search(marker(s.step), s.offset, chunk) == Some(end),
    ensures
        s.step == MatchStep::FindHeaderEnd ==> s.header + chunk.take(end) == after_hit(
            s,
            chunk,
            end,
        ).header + marker(s.step),
        s.step == MatchStep::FindBodyEnd ==> s.body + chunk.take(end) == after_hit(
            s,
            chunk,
            end,
        ).body + marker(s.step),
{
    if s.step == MatchStep::FindHeaderEnd {
        lemma_hit_cuts_marker(marker(s.step), s.offset, s.header, chunk);
    } else {
        lemma_hit_cuts_marker(marker(s.step), s.offset, s.body, chunk);
    }
}

/// A cycle whose header holds the exclusion token is passed over in silence:
/// where its body ends in a fragment, the scan reports what the rest of the
/// fragment holds, as if it began there with nothing gathered.
pub proof fn lemma_excluded_cycle_is_silent(s: ScanState, chunk: Seq<u8>, end: int)
    requires
        s.step == MatchStep::FindBodyEnd,
        search(marker(s.step), s.offset, chunk) == Some(end),
        occurs(exclusion_token(), s.header),
    ensures
        drive(s, chunk) == drive(cleared(), chunk.skip(end)),
{
    lemma_search_bounds(marker(s.step), s.offset, chunk);
    let later = drive(cleared(), chunk.skip(end)).1;
    assert(Seq::<EntryText>::empty() + later =~= later);
}

} // verus!
