use vstd::prelude::*;
use crate::needle::{advance, lemma_search_bounds, lemma_search_split, residue, search};
use crate::text::occurs_at;

verus! {

/// The accumulator without its last `width` bytes.
pub open spec fn excise(gathered: Seq<u8>, width: int) -> Seq<u8> {
    gathered.take(gathered.len() - width)
}

/// The view of what is left of a fragment, if anything is.
pub open spec fn remainder(rest: Option<&[u8]>) -> Option<Seq<u8>> {
    match rest {
        Some(bytes) => Some(bytes@),
        None => None,
    }
}

/// Ends a stage that gathers nothing. `offset` is what the search for the
/// start marker found in `chunk`. With a match the fragment goes on behind the
/// marker; without one the whole fragment is dropped.
pub fn handle_tag_start<'a>(offset: Option<usize>, chunk: &'a [u8]) -> (res: (
    bool,
    Option<&'a [u8]>,
))
    requires
        offset matches Some(end) ==> end <= chunk@.len(),
    ensures
        res.0 == offset.is_some(),
        remainder(res.1) == match offset {
            Some(end) => Some(chunk@.skip(end as int)),
            None => None,
        },
{
    match offset {
        Some(end) => {
            let rest = vstd::slice::slice_subrange(chunk, end, chunk.len());
            (true, Some(rest))
        },
        None => (false, None),
    }
}

/// Ends or continues a stage that gathers text into `buffer`. `offset` is
/// what the search for the end marker `preamble` found in `chunk`.
///
/// Without a match the whole fragment is gathered. With a match that ends at
/// `end`, the text before the marker is gathered and the fragment goes on
/// behind the marker. Where the marker began in an earlier fragment, its first
/// bytes were gathered as text then; they are now cut off the end of `buffer`.
/// Either way `buffer` ends up as what was gathered up to `end`, less the
/// marker.
pub fn handle_tag_end<'a>(
    offset: Option<usize>,
    preamble: &[u8],
    chunk: &'a [u8],
    buffer: &mut Vec<u8>,
) -> (res: (bool, Option<&'a [u8]>))
    requires
        offset matches Some(end) ==> end <= chunk@.len() && preamble@.len() <= old(buffer)@.len()
            + end,
    ensures
        res.0 == offset.is_some(),
        remainder(res.1) == match offset {
            Some(end) => Some(chunk@.skip(end as int)),
            None => None,
        },
        final(buffer)@ == match offset {
            Some(end) => excise(old(buffer)@ + chunk@.take(end as int), preamble@.len() as int),
            None => old(buffer)@ + chunk@,
        },
        offset matches Some(end) ==> final(buffer)@ == if preamble@.len() <= end {
            old(buffer)@ + chunk@.take(end - preamble@.len())
        } else {
            old(buffer)@.take(old(buffer)@.len() - (preamble@.len() - end))
        },
{
    match offset {
        Some(end) => {
            let rest = vstd::slice::slice_subrange(chunk, end, chunk.len());
            if preamble.len() <= end {
                let text = vstd::slice::slice_subrange(chunk, 0, end - preamble.len());
                buffer.extend_from_slice(text);
            } else {
                let cut = preamble.len() - end;
                buffer.truncate(buffer.len() - cut);
            }
            assert(buffer@ =~= excise(old(buffer)@ + chunk@.take(end as int), preamble@.len() as int));
            (true, Some(rest))
        },
        None => {
            buffer.extend_from_slice(chunk);
            assert(buffer@ =~= old(buffer)@ + chunk@);
            (false, None)
        },
    }
}

/// What a gathering stage holds after one fragment, for any end marker
/// `needle`: the fragment is added to `buffer`, up to the end of the marker
/// where it is completed, and the marker is then cut off.
pub open spec fn gathered(needle: Seq<u8>, offset: int, buffer: Seq<u8>, chunk: Seq<u8>) -> Seq<
    u8,
> {
    match search(needle, offset, chunk) {
        Some(end) => excise(buffer + chunk.take(end), needle.len() as int),
        None => buffer + chunk,
    }
}

/// Gathering does not depend on where a stream is cut: for any marker, two
/// fragments fed one after the other leave in the accumulator what the two
/// leave as one fragment. Once the marker is completed in the first fragment,
/// the second no longer belongs to the stage.
pub proof fn lemma_gathering_composes(
    needle: Seq<u8>,
    offset: int,
    buffer: Seq<u8>,
    first: Seq<u8>,
    second: Seq<u8>,
)
    ensures
        gathered(needle, offset, buffer, first + second) == match search(needle, offset, first) {
            Some(end) => gathered(needle, offset, buffer, first),
            None => gathered(
                needle,
                residue(needle, offset, first),
                gathered(needle, offset, buffer, first),
                second,
            ),
        },
{
    let whole = first + second;
    lemma_search_split(needle, offset, first, second);
    lemma_search_bounds(needle, offset, first);
    match search(needle, offset, first) {
        Some(end) => {
            assert(whole.take(end) =~= first.take(end));
        },
        None => {
            let left = residue(needle, offset, first);
            lemma_search_bounds(needle, left, second);
            match search(needle, left, second) {
                Some(end) => {
                    assert(buffer + whole.take(first.len() + end) =~= (buffer + first)
                        + second.take(end));
                },
                None => {
                    assert(buffer + whole =~= (buffer + first) + second);
                },
            }
        },
    }
}

/// Whether `buffer` ends with the bytes of `tail`.
pub open spec fn ends_with(buffer: Seq<u8>, tail: Seq<u8>) -> bool {
    tail.len() <= buffer.len() && buffer.skip(buffer.len() - tail.len()) == tail
}

/// Whether `buffer` ends with the first `count` bytes of `needle`.
pub fn ends_with_start(buffer: &[u8], needle: &[u8], count: usize) -> (ok: bool)
    requires
        count <= needle@.len(),
    ensures
        ok == ends_with(buffer@, needle@.take(count as int)),
{
    if count > buffer.len() {
        return false;
    }
    let from = buffer.len() - count;
    let ghost tail = buffer@.skip(from as int);
    let mut j: usize = 0;
    while j < count
        invariant
            j <= count <= needle@.len(),
            buffer@.len() <= usize::MAX,
            from + count == buffer@.len(),
            tail == buffer@.skip(from as int),
            forall|k: int| 0 <= k < j ==> buffer@[from + k] == needle@[k],
        decreases count - j,
    {
        if buffer[from + j] != needle[j] {
            assert(tail[j as int] != needle@.take(count as int)[j as int]);
            return false;
        }
        j = j + 1;
    }
    assert(tail =~= needle@.take(count as int));
    true
}

/// Every accumulator ends with the empty beginning of a marker.
pub proof fn lemma_empty_tail(buffer: Seq<u8>, needle: Seq<u8>)
    ensures
        ends_with(buffer, needle.take(0)),
{
    assert(buffer.skip(buffer.len() - 0) =~= needle.take(0));
}

proof fn lemma_tail_step(needle: Seq<u8>, offset: int, buffer: Seq<u8>, byte: u8)
    requires
        0 <= offset < needle.len(),
        ends_with(buffer, needle.take(offset)),
    ensures
        ends_with(buffer.push(byte), needle.take(advance(needle, offset, byte))),
{
    let next = advance(needle, offset, byte);
    let longer = buffer.push(byte);
    let old_tail = buffer.skip(buffer.len() - offset);
    assert forall|j: int| 0 <= j < next implies longer.skip(longer.len() - next)[j]
        == needle.take(next)[j] by {
        if j < offset {
            assert(old_tail[j] == needle.take(offset)[j]);
        }
    }
    assert(longer.skip(longer.len() - next) =~= needle.take(next));
}

/// While the marker is not completed, the accumulator of a gathering stage
/// ends with the bytes of the marker that are matched so far: they are text
/// until the marker is whole.
pub proof fn lemma_miss_keeps_tail(needle: Seq<u8>, offset: int, buffer: Seq<u8>, chunk: Seq<u8>)
    requires
        0 <= offset < needle.len(),
        ends_with(buffer, needle.take(offset)),
        search(needle, offset, chunk) is None,
    ensures
        ends_with(buffer + chunk, needle.take(residue(needle, offset, chunk))),
    decreases chunk.len(),
{
    if chunk.len() == 0 {
        assert(buffer + chunk =~= buffer);
    } else {
        lemma_tail_step(needle, offset, buffer, chunk[0]);
        lemma_miss_keeps_tail(
            needle,
            advance(needle, offset, chunk[0]),
            buffer.push(chunk[0]),
            chunk.drop_first(),
        );
        assert(buffer.push(chunk[0]) + chunk.drop_first() =~= buffer + chunk);
    }
}

/// When the marker is completed, what is cut off the accumulator is the
/// marker, whole and nothing else: no byte of it stays in the text, and no
/// byte of the text is lost.
pub proof fn lemma_hit_cuts_marker(needle: Seq<u8>, offset: int, buffer: Seq<u8>, chunk: Seq<u8>)
    requires
        0 <= offset < needle.len(),
        ends_with(buffer, needle.take(offset)),
        search(needle, offset, chunk) is Some,
    ensures
        buffer + chunk.take(search(needle, offset, chunk).unwrap()) == gathered(
            needle,
            offset,
            buffer,
            chunk,
        ) + needle,
    decreases chunk.len(),
{
    let end = search(needle, offset, chunk).unwrap();
    let next = advance(needle, offset, chunk[0]);
    let longer = buffer.push(chunk[0]);
    lemma_tail_step(needle, offset, buffer, chunk[0]);
    if next == needle.len() {
        assert(buffer + chunk.take(1) =~= longer);
        assert(needle.take(next) =~= needle);
        assert(longer =~= longer.take(longer.len() - needle.len()) + longer.skip(
            longer.len() - needle.len(),
        ));
    } else {
        let rest = chunk.drop_first();
        lemma_search_bounds(needle, next, rest);
        lemma_hit_cuts_marker(needle, next, longer, rest);
        assert(longer + rest.take(end - 1) =~= buffer + chunk.take(end));
    }
}

/// A match that a search from the start reports is a true one: the marker
/// stands in the bytes searched and ends where the match is said to end. (The
/// search may pass over an occurrence that follows a failed partial match.)
pub proof fn lemma_match_is_occurrence(needle: Seq<u8>, chunk: Seq<u8>)
    requires
        0 < needle.len(),
        search(needle, 0, chunk) is Some,
    ensures
        occurs_at(needle, chunk, search(needle, 0, chunk).unwrap() - needle.len()),
{
    let end = search(needle, 0, chunk).unwrap();
    let nothing = Seq::<u8>::empty();
    lemma_search_bounds(needle, 0, chunk);
    lemma_empty_tail(nothing, needle);
    lemma_hit_cuts_marker(needle, 0, nothing, chunk);
    let read = nothing + chunk.take(end);
    assert(read =~= chunk.take(end));
    assert(read == excise(read, needle.len() as int) + needle);
    assert(chunk.subrange(end - needle.len(), end) =~= needle) by {
        assert forall|j: int| 0 <= j < needle.len() implies chunk.subrange(
            end - needle.len(),
            end,
        )[j] == needle[j] by {
            assert(read[end - needle.len() + j] == needle[j]);
        }
    }
}

} // verus!
