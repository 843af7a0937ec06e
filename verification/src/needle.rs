use vstd::prelude::*;
use crate::state::ChunkMatchState;

verus! {

/// The partial-match offset after one more byte: one longer when the byte
/// continues the needle, zero otherwise. A mismatch never falls back to a
/// shorter partial match, so this is a plain prefix counter and no general
/// substring automaton.
pub open spec fn advance(needle: Seq<u8>, offset: int, byte: u8) -> int {
    if byte == needle[offset] {
        offset + 1
    } else {
        0
    }
}

/// Where the needle is first completed in `bytes` when the search starts with
/// `offset` needle bytes already matched: the index one past the completing
/// byte, or `None` when `bytes` ends first.
pub open spec fn search(needle: Seq<u8>, offset: int, bytes: Seq<u8>) -> Option<int>
    decreases bytes.len(),
{
    if bytes.len() == 0 {
        None
    } else if advance(needle, offset, bytes[0]) == needle.len() {
        Some(1)
    } else {
        match search(needle, advance(needle, offset, bytes[0]), bytes.drop_first()) {
            Some(end) => Some(end + 1),
            None => None,
        }
    }
}

/// The partial-match offset left after all of `bytes`, meant for `bytes` in
/// which the needle is not completed.
pub open spec fn residue(needle: Seq<u8>, offset: int, bytes: Seq<u8>) -> int
    decreases bytes.len(),
{
    if bytes.len() == 0 {
        offset
    } else {
        residue(needle, advance(needle, offset, bytes[0]), bytes.drop_first())
    }
}

/// A match ends inside the bytes searched, after at least one of them, and
/// the bytes matched before this fragment and in it make up a whole needle.
pub proof fn lemma_search_bounds(needle: Seq<u8>, offset: int, bytes: Seq<u8>)
    ensures
        search(needle, offset, bytes) matches Some(end) ==> 1 <= end <= bytes.len() && (0 <= offset
            ==> offset + end >= needle.len()),
    decreases bytes.len(),
{
    if bytes.len() > 0 && advance(needle, offset, bytes[0]) != needle.len() {
        lemma_search_bounds(needle, advance(needle, offset, bytes[0]), bytes.drop_first());
    }
}

/// Without a match the offset stays inside the needle and counts no more
/// bytes than were fed.
pub proof fn lemma_residue_bounds(needle: Seq<u8>, offset: int, bytes: Seq<u8>)
    requires
        0 <= offset < needle.len(),
        search(needle, offset, bytes) is None,
    ensures
        0 <= residue(needle, offset, bytes) < needle.len(),
        residue(needle, offset, bytes) <= offset + bytes.len(),
    decreases bytes.len(),
{
    if bytes.len() > 0 {
        lemma_residue_bounds(needle, advance(needle, offset, bytes[0]), bytes.drop_first());
    }
}

/// Searching a sequence cut in two: a match in the first part is the match of
/// the whole; otherwise the search goes on in the second part from the offset
/// that the first part left.
pub proof fn lemma_search_split(needle: Seq<u8>, offset: int, first: Seq<u8>, second: Seq<u8>)
    ensures
        search(needle, offset, first + second) == match search(needle, offset, first) {
            Some(end) => Some(end),
            None => match search(needle, residue(needle, offset, first), second) {
                Some(end) => Some(first.len() + end),
                None => None,
            },
        },
        search(needle, offset, first) is None ==> residue(needle, offset, first + second)
            == residue(needle, residue(needle, offset, first), second),
    decreases first.len(),
{
    if first.len() == 0 {
        assert(first + second =~= second);
    } else {
        let whole = first + second;
        assert(whole[0] == first[0]);
        assert(whole.drop_first() =~= first.drop_first() + second);
        lemma_search_split(needle, advance(needle, offset, first[0]), first.drop_first(), second);
    }
}

/// Feeds one fragment to the search for `needle`, whose progress is kept in
/// `state.needle_offset` from one fragment to the next. On a match the offset
/// goes back to zero and the result is the index one past the match.
pub fn find_needle_chunked(needle: &[u8], chunk: &[u8], state: &mut ChunkMatchState) -> (found:
    Option<usize>)
    requires
        old(state).needle_offset < needle@.len(),
    ensures
        found matches Some(end) ==> search(needle@, old(state).needle_offset as int, chunk@)
            == Some(end as int) && final(state).needle_offset == 0,
        found is None ==> search(needle@, old(state).needle_offset as int, chunk@) is None
            && final(state).needle_offset == residue(
            needle@,
            old(state).needle_offset as int,
            chunk@,
        ),
        final(state).current_step == old(state).current_step,
        final(state).header == old(state).header,
        final(state).body == old(state).body,
{
    let mut i: usize = 0;
    assert(chunk@.skip(0) =~= chunk@);
    while i < chunk.len()
        invariant
            i <= chunk@.len(),
            state.needle_offset < needle@.len(),
            state.current_step == old(state).current_step,
            state.header == old(state).header,
            state.body == old(state).body,
            search(needle@, old(state).needle_offset as int, chunk@) == match search(
                needle@,
                state.needle_offset as int,
                chunk@.skip(i as int),
            ) {
                Some(end) => Some(i + end),
                None => None,
            },
            residue(needle@, old(state).needle_offset as int, chunk@) == residue(
                needle@,
                state.needle_offset as int,
                chunk@.skip(i as int),
            ),
        decreases chunk@.len() - i,
    {
        proof {
            let rest = chunk@.skip(i as int);
            assert(rest[0] == chunk@[i as int]);
            assert(rest.drop_first() =~= chunk@.skip(i + 1));
        }
        if chunk[i] == needle[state.needle_offset] {
            state.needle_offset = state.needle_offset + 1;
        } else {
            state.needle_offset = 0;
        }
        if state.needle_offset == needle.len() {
            state.needle_offset = 0;
            return Some(i + 1);
        }
        i = i + 1;
    }
    assert(chunk@.skip(i as int).len() == 0);
    None
}

} // verus!
