use vstd::prelude::*;
use crate::needle::advance;
use crate::text::{occurs, occurs_at};
use crate::unescape::{
    apply_rules, decode, decode_byte, fires, lemma_completed_rule, lemma_pattern_lengths,
    reference_start, rule_pattern, start, unescaped, Decoder, RULE_COUNT, SPACE,
};

verus! {

/// How many spaces `bytes` begins with.
pub open spec fn leading_spaces(bytes: Seq<u8>) -> int
    decreases bytes.len(),
{
    if bytes.len() == 0 || bytes[0] != SPACE {
        0
    } else {
        1 + leading_spaces(bytes.drop_first())
    }
}

/// `bytes` without the spaces it begins with.
pub open spec fn trimmed(bytes: Seq<u8>) -> Seq<u8> {
    bytes.skip(leading_spaces(bytes))
}

/// Whether `bytes` holds nothing that the decoding pass acts on: none of the
/// seven escape sequences, and no opener of a numeric reference.
pub open spec fn plain(bytes: Seq<u8>) -> bool {
    &&& forall|rule: int| 0 <= rule < RULE_COUNT ==> !occurs(#[trigger] rule_pattern(rule), bytes)
    &&& !occurs(reference_start(), bytes)
}

proof fn lemma_leading_spaces_bounds(bytes: Seq<u8>)
    ensures
        0 <= leading_spaces(bytes) <= bytes.len(),
    decreases bytes.len(),
{
    if bytes.len() > 0 && bytes[0] == SPACE {
        lemma_leading_spaces_bounds(bytes.drop_first());
    }
}

/// Trimming after one more byte: the byte is added, unless it is a space and
/// all before it were spaces.
proof fn lemma_trimmed_push(bytes: Seq<u8>, byte: u8)
    ensures
        trimmed(bytes.push(byte)) == if trimmed(bytes).len() == 0 && byte == SPACE {
            trimmed(bytes)
        } else {
            trimmed(bytes).push(byte)
        },
    decreases bytes.len(),
{
    let longer = bytes.push(byte);
    if bytes.len() == 0 {
        assert(longer.drop_first() =~= Seq::<u8>::empty());
        assert(leading_spaces(longer.drop_first()) == 0);
        assert(trimmed(longer) =~= if byte == SPACE {
            Seq::<u8>::empty()
        } else {
            seq![byte]
        });
        assert(trimmed(bytes) =~= Seq::<u8>::empty());
        assert(trimmed(bytes).push(byte) =~= seq![byte]);
    } else if bytes[0] != SPACE {
        assert(longer[0] == bytes[0]);
        assert(trimmed(longer) =~= trimmed(bytes).push(byte));
    } else {
        let tail = bytes.drop_first();
        assert(longer[0] == bytes[0]);
        assert(longer.drop_first() =~= tail.push(byte));
        lemma_leading_spaces_bounds(tail);
        lemma_leading_spaces_bounds(tail.push(byte));
        lemma_trimmed_push(tail, byte);
        assert(trimmed(bytes) =~= trimmed(tail));
        assert(trimmed(longer) =~= trimmed(tail.push(byte)));
    }
}

/// Whether the last `matched` bytes of `done` are the first `matched` bytes of
/// `pattern`, and fewer than all of it.
spec fn matched_tail(done: Seq<u8>, pattern: Seq<u8>, matched: int) -> bool {
    &&& 0 <= matched < pattern.len()
    &&& matched <= done.len()
    &&& forall|j: int| 0 <= j < matched ==> done[done.len() - matched + j] == #[trigger] pattern[j]
}

/// The state of a pass that has read `done` and acted on nothing in it.
spec fn quiet(d: Decoder, done: Seq<u8>) -> bool {
    &&& !d.numeric
    &&& d.out == trimmed(done)
    &&& d.progress.len() == RULE_COUNT
    &&& forall|rule: int|
        0 <= rule < RULE_COUNT ==> matched_tail(done, rule_pattern(rule), #[trigger] d.progress[rule])
    &&& matched_tail(done, reference_start(), d.opener)
}

/// One more byte of a partial match: the pattern is not completed where it
/// does not occur, and the longer input ends with what is then matched.
proof fn lemma_tail_grows(whole: Seq<u8>, i: int, pattern: Seq<u8>, matched: int)
    requires
        0 <= i < whole.len(),
        matched_tail(whole.take(i), pattern, matched),
        !occurs(pattern, whole),
    ensures
        matched_tail(whole.take(i + 1), pattern, advance(pattern, matched, whole[i])),
{
    let done = whole.take(i);
    let next = advance(pattern, matched, whole[i]);
    if next != 0 {
        assert forall|j: int| 0 <= j < next implies whole.take(i + 1)[i + 1 - next + j]
            == #[trigger] pattern[j] by {
            if j < matched {
                assert(done[done.len() - matched + j] == pattern[j]);
            }
        }
        if next == pattern.len() {
            let at = i + 1 - next;
            assert(whole.subrange(at, at + pattern.len()) =~= pattern) by {
                assert forall|j: int| 0 <= j < pattern.len() implies whole.subrange(
                    at,
                    at + pattern.len(),
                )[j] == pattern[j] by {
                    assert(whole.take(i + 1)[at + j] == pattern[j]);
                }
            }
            assert(occurs_at(pattern, whole, at));
        }
    }
}

/// A quiet pass stays quiet over one more byte of plain input.
proof fn lemma_quiet_step(d: Decoder, whole: Seq<u8>, i: int)
    requires
        0 <= i < whole.len(),
        plain(whole),
        quiet(d, whole.take(i)),
    ensures
        quiet(decode_byte(d, whole[i]), whole.take(i + 1)),
{
    let byte = whole[i];
    let done = whole.take(i);
    assert forall|r: int| 0 <= r < RULE_COUNT implies matched_tail(
        whole.take(i + 1),
        rule_pattern(r),
        advance(rule_pattern(r), #[trigger] d.progress[r], byte),
    ) by {
        assert(!occurs(rule_pattern(r), whole));
        lemma_tail_grows(whole, i, rule_pattern(r), d.progress[r]);
    }
    lemma_completed_rule(d.progress, byte, 0);
    assert(!fires(d, byte));
    lemma_tail_grows(whole, i, reference_start(), d.opener);
    assert(whole.take(i + 1) =~= done.push(byte));
    lemma_trimmed_push(done, byte);
    let ruled = apply_rules(d, byte);
    let after = decode_byte(d, byte);
    assert forall|r: int| 0 <= r < RULE_COUNT implies matched_tail(
        whole.take(i + 1),
        rule_pattern(r),
        #[trigger] after.progress[r],
    ) by {
        assert(after.progress[r] == ruled.progress[r]);
        assert(ruled.progress[r] == advance(rule_pattern(r), d.progress[r], byte));
    }
}

proof fn lemma_quiet_run(d: Decoder, whole: Seq<u8>, i: int)
    requires
        0 <= i <= whole.len(),
        plain(whole),
        quiet(d, whole.take(i)),
    ensures
        decode(d, whole.skip(i)).out == trimmed(whole),
    decreases whole.len() - i,
{
    let rest = whole.skip(i);
    if i == whole.len() {
        assert(whole.take(i) =~= whole);
    } else {
        assert(rest[0] == whole[i]);
        assert(rest.drop_first() =~= whole.skip(i + 1));
        lemma_quiet_step(d, whole, i);
        lemma_quiet_run(decode_byte(d, whole[i]), whole, i + 1);
    }
}

/// Text that holds none of the seven escape sequences and no opener of a
/// numeric reference is decoded to itself, less the spaces it begins with.
/// Where it begins with one space at most, that is the text less that space.
pub proof fn lemma_plain_text_is_kept(bytes: Seq<u8>)
    requires
        plain(bytes),
    ensures
        unescaped(bytes) == trimmed(bytes),
        bytes.len() == 0 || bytes[0] != SPACE ==> unescaped(bytes) == bytes,
        bytes.len() > 0 && bytes[0] == SPACE && (bytes.len() == 1 || bytes[1] != SPACE)
            ==> unescaped(bytes) == bytes.drop_first(),
{
    lemma_pattern_lengths();
    let d = start();
    assert(bytes.take(0) =~= Seq::<u8>::empty());
    assert(trimmed(bytes.take(0)) =~= Seq::<u8>::empty());
    assert(quiet(d, bytes.take(0)));
    assert(bytes.skip(0) =~= bytes);
    lemma_quiet_run(d, bytes, 0);
    if bytes.len() == 0 || bytes[0] != SPACE {
        assert(trimmed(bytes) =~= bytes);
    } else if bytes.len() == 1 || bytes[1] != SPACE {
        let tail = bytes.drop_first();
        assert(leading_spaces(tail) == 0) by {
            if tail.len() > 0 {
                assert(tail[0] == bytes[1]);
            }
        }
        assert(trimmed(bytes) =~= tail);
    }
}

} // verus!
