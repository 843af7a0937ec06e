use vstd::prelude::*;
use vstd::string::*;
use vstd::utf8::{decode_utf8, encode_utf8, valid_utf8};
use crate::needle::advance;
use crate::text::{ascii_bytes, literal_bytes};

verus! {

/// How many replacement rules there are.
pub const RULE_COUNT: usize = 7;

/// The byte that ends a numeric character reference, `;`.
pub const REFERENCE_END: u8 = 59;

/// The space that is never written at the start of the output.
pub const SPACE: u8 = 32;

/// The escape sequence that rule `rule` replaces.
pub open spec fn rule_pattern(rule: int) -> Seq<u8> {
    if rule == 0 {
        ascii_bytes("<br>"@)
    } else if rule == 1 {
        ascii_bytes("&nbsp;"@)
    } else if rule == 2 {
        ascii_bytes("&lt;"@)
    } else if rule == 3 {
        ascii_bytes("&gt;"@)
    } else if rule == 4 {
        ascii_bytes("&amp;"@)
    } else if rule == 5 {
        ascii_bytes("&quot;"@)
    } else {
        ascii_bytes("&apos;"@)
    }
}

/// The single byte that rule `rule` writes in place of its escape sequence:
/// a newline, a space, `<`, `>`, `&`, `"` and `'`.
pub open spec fn rule_output(rule: int) -> u8 {
    if rule == 0 {
        10
    } else if rule == 1 {
        32
    } else if rule == 2 {
        60
    } else if rule == 3 {
        62
    } else if rule == 4 {
        38
    } else if rule == 5 {
        34
    } else {
        39
    }
}

/// The two bytes that open a numeric character reference, `&#`.
pub open spec fn reference_start() -> Seq<u8> {
    ascii_bytes("&#"@)
}

/// The lengths of the escape sequences and of the reference opener.
pub proof fn lemma_pattern_lengths()
    ensures
        rule_pattern(0).len() == 4,
        rule_pattern(1).len() == 6,
        rule_pattern(2).len() == 4,
        rule_pattern(3).len() == 4,
        rule_pattern(4).len() == 5,
        rule_pattern(5).len() == 6,
        rule_pattern(6).len() == 6,
        reference_start().len() == 2,
{
    reveal_strlit("<br>");
    reveal_strlit("&nbsp;");
    reveal_strlit("&lt;");
    reveal_strlit("&gt;");
    reveal_strlit("&amp;");
    reveal_strlit("&quot;");
    reveal_strlit("&apos;");
    reveal_strlit("&#");
}

/// The escape sequence of a rule, as bytes.
pub fn pattern_of(rule: usize) -> (pattern: &'static [u8])
    requires
        rule < RULE_COUNT,
    ensures
        pattern@ == rule_pattern(rule as int),
        4 <= pattern@.len() <= 6,
{
    proof {
        lemma_pattern_lengths();
        reveal_strlit("<br>");
        reveal_strlit("&nbsp;");
        reveal_strlit("&lt;");
        reveal_strlit("&gt;");
        reveal_strlit("&amp;");
        reveal_strlit("&quot;");
        reveal_strlit("&apos;");
    }
    if rule == 0 {
        literal_bytes("<br>")
    } else if rule == 1 {
        literal_bytes("&nbsp;")
    } else if rule == 2 {
        literal_bytes("&lt;")
    } else if rule == 3 {
        literal_bytes("&gt;")
    } else if rule == 4 {
        literal_bytes("&amp;")
    } else if rule == 5 {
        literal_bytes("&quot;")
    } else {
        literal_bytes("&apos;")
    }
}

/// The reference opener, as bytes.
pub fn opener_bytes() -> (opening: &'static [u8])
    ensures
        opening@ == reference_start(),
        opening@.len() == 2,
{
    proof {
        reveal_strlit("&#");
    }
    literal_bytes("&#")
}

/// The byte that a rule writes.
pub fn output_of(rule: usize) -> (byte: u8)
    requires
        rule < RULE_COUNT,
    ensures
        byte == rule_output(rule as int),
{
    if rule == 0 {
        10
    } else if rule == 1 {
        32
    } else if rule == 2 {
        60
    } else if rule == 3 {
        62
    } else if rule == 4 {
        38
    } else if rule == 5 {
        34
    } else {
        39
    }
}

/// The state of the decoding pass between two bytes of the input.
pub struct Decoder {
    /// The output written so far.
    pub out: Seq<u8>,
    /// For each rule, how many bytes of its escape sequence are matched.
    pub progress: Seq<int>,
    /// How many bytes of the reference opener are matched.
    pub opener: int,
    /// Whether the pass is inside a numeric character reference.
    pub numeric: bool,
    /// The value of the reference gathered so far.
    pub value: u8,
    /// How many bytes have been folded into `value`.
    pub digits: int,
}

/// The state in which a pass begins.
pub open spec fn start() -> Decoder {
    Decoder {
        out: Seq::empty(),
        progress: Seq::new(RULE_COUNT as nat, |rule: int| 0int),
        opener: 0,
        numeric: false,
        value: 0,
        digits: 0,
    }
}

/// The output without its last `by` bytes, or empty where it has fewer.
pub open spec fn retreat(out: Seq<u8>, by: int) -> Seq<u8> {
    if by <= out.len() {
        out.take(out.len() - by)
    } else {
        Seq::empty()
    }
}

/// The value of a reference after one more byte, which is taken for a decimal
/// digit whatever it is; the value is kept modulo 256.
pub open spec fn fold_digit(value: u8, byte: u8) -> u8 {
    ((value * 10 + byte + 208) % 256) as u8
}

/// The first rule, from `from` on, whose escape sequence is completed by the
/// byte read, or `RULE_COUNT` where the byte completes none.
pub open spec fn completed_rule(progress: Seq<int>, byte: u8, from: int) -> int
    decreases RULE_COUNT - from,
{
    if from >= RULE_COUNT {
        RULE_COUNT as int
    } else if advance(rule_pattern(from), progress[from], byte) == rule_pattern(from).len() {
        from
    } else {
        completed_rule(progress, byte, from + 1)
    }
}

/// Whether the byte read completes the escape sequence of a rule.
pub open spec fn fires(d: Decoder, byte: u8) -> bool {
    completed_rule(d.progress, byte, 0) < RULE_COUNT
}

/// Whether the byte read ends an open numeric reference: a `;` that completes
/// no escape sequence.
pub open spec fn closes(d: Decoder, byte: u8) -> bool {
    !fires(d, byte) && d.numeric && byte == REFERENCE_END
}

/// The byte that the step writes: the byte of the rule that fires, else the
/// value of the reference that ends, else the byte read.
pub open spec fn emitted(d: Decoder, byte: u8) -> u8 {
    if fires(d, byte) {
        rule_output(completed_rule(d.progress, byte, 0))
    } else if closes(d, byte) {
        d.value
    } else {
        byte
    }
}

/// Every rule looks at the byte read, each with its own counter. Where the
/// byte completes an escape sequence, the bytes of the sequence already
/// written are taken back and every counter starts over at zero.
pub open spec fn apply_rules(d: Decoder, byte: u8) -> Decoder {
    let rule = completed_rule(d.progress, byte, 0);
    if rule < RULE_COUNT {
        Decoder {
            out: retreat(d.out, rule_pattern(rule).len() - 1),
            progress: Seq::new(RULE_COUNT as nat, |other: int| 0int),
            ..d
        }
    } else {
        Decoder {
            progress: Seq::new(
                RULE_COUNT as nat,
                |other: int| advance(rule_pattern(other), d.progress[other], byte),
            ),
            ..d
        }
    }
}

/// The numeric reference looks at the byte read. Where the byte ends the
/// reference, the opener and the bytes folded so far are taken back from the
/// output, as far as there is output. Otherwise an open reference folds the
/// byte into its value, a `;` that completes an escape sequence too.
pub open spec fn track_reference(d: Decoder, byte: u8, closing: bool) -> Decoder {
    if closing {
        Decoder { out: retreat(d.out, d.digits + 2), numeric: false, value: 0, digits: 0, ..d }
    } else if d.numeric {
        Decoder { value: fold_digit(d.value, byte), digits: d.digits + 1, ..d }
    } else {
        d
    }
}

/// The byte read is matched against the reference opener; a complete opener
/// begins a numeric reference.
pub open spec fn track_opener(d: Decoder, byte: u8) -> Decoder {
    let next = advance(reference_start(), d.opener, byte);
    if next == reference_start().len() {
        Decoder { opener: 0, numeric: true, ..d }
    } else {
        Decoder { opener: next, ..d }
    }
}

/// A byte is written, unless it is a space at the start of the output.
pub open spec fn put(d: Decoder, byte: u8) -> Decoder {
    if d.out.len() == 0 && byte == SPACE {
        d
    } else {
        Decoder { out: d.out.push(byte), ..d }
    }
}

/// The whole step for one byte of the input. The rules, the reference and
/// the opener all look at the byte read and at nothing else: a byte that the
/// step writes in its place is never matched again.
pub open spec fn decode_byte(d: Decoder, byte: u8) -> Decoder {
    let ruled = apply_rules(d, byte);
    let counted = track_reference(ruled, byte, closes(d, byte));
    put(track_opener(counted, byte), emitted(d, byte))
}

/// The state after all of `bytes`.
pub open spec fn decode(d: Decoder, bytes: Seq<u8>) -> Decoder
    decreases bytes.len(),
{
    if bytes.len() == 0 {
        d
    } else {
        decode(decode_byte(d, bytes[0]), bytes.drop_first())
    }
}

/// The decoded form of `bytes`: what one pass from the start writes.
pub open spec fn unescaped(bytes: Seq<u8>) -> Seq<u8> {
    decode(start(), bytes).out
}

fn retreat_cursor(cursor: usize, by: usize) -> (moved: usize)
    ensures
        moved == if by <= cursor {
            cursor - by
        } else {
            0
        },
{
    if by <= cursor {
        cursor - by
    } else {
        0
    }
}

fn fold_digit_byte(value: u8, byte: u8) -> (folded: u8)
    ensures
        folded == fold_digit(value, byte),
{
    let wide: u32 = (value as u32) * 10 + (byte as u32) + 208;
    (wide % 256) as u8
}

/// Whether the working variables of the pass stand for the state `d`.
spec fn tracks(
    d: Decoder,
    buffer: Seq<u8>,
    cursor: usize,
    progress: [usize; 7],
    opener: usize,
    numeric: bool,
    value: u8,
    digits: usize,
) -> bool {
    &&& cursor <= buffer.len()
    &&& d.out == buffer.take(cursor as int)
    &&& d.progress.len() == RULE_COUNT
    &&& forall|rule: int|
        0 <= rule < RULE_COUNT ==> d.progress[rule] == #[trigger] progress@[rule] && progress@[rule]
            < rule_pattern(rule).len()
    &&& d.opener == opener
    &&& opener < 2
    &&& d.numeric == numeric
    &&& d.value == value
    &&& d.digits == digits
}

/// Decodes the seven escape sequences and the decimal character references of
/// `buffer` in place, in one pass from left to right, and drops the spaces
/// that would stand at the start of the output. Only the bytes read are
/// matched: what the pass writes for an escape is not decoded a second time,
/// so an escaped ampersand in front of `quot;` gives `&quot;`.
pub fn unescape_bytes(buffer: &mut Vec<u8>)
    ensures
        final(buffer)@ == unescaped(old(buffer)@),
{
    let ghost input = buffer@;
    let ghost mut d = start();
    let len = buffer.len();
    let mut cursor: usize = 0;
    let mut progress: [usize; 7] = [0; 7];
    let mut opener: usize = 0;
    let mut numeric = false;
    let mut value: u8 = 0;
    let mut digits: usize = 0;
    let mut i: usize = 0;
    proof {
        lemma_pattern_lengths();
        assert(input.skip(0) =~= input);
        assert(buffer@.take(0) =~= Seq::<u8>::empty());
    }
    while i < len
        invariant
            len == input.len(),
            buffer@.len() == len,
            i <= len,
            cursor <= i,
            digits <= i,
            forall|at: int| i <= at < len ==> buffer@[at] == input[at],
            tracks(d, buffer@, cursor, progress, opener, numeric, value, digits),
            unescaped(input) == decode(d, input.skip(i as int)).out,
        decreases len - i,
    {
        let first = buffer[i];
        let ghost before = d;
        proof {
            lemma_pattern_lengths();
            let rest = input.skip(i as int);
            assert(rest[0] == first);
            assert(rest.drop_first() =~= input.skip(i + 1));
        }
        let mut fired: usize = RULE_COUNT;
        let mut rule: usize = 0;
        while rule < RULE_COUNT
            invariant
                rule <= RULE_COUNT,
                fired <= RULE_COUNT,
                before.progress.len() == RULE_COUNT,
                completed_rule(before.progress, first, 0) == if fired < RULE_COUNT {
                    fired as int
                } else {
                    completed_rule(before.progress, first, rule as int)
                },
                forall|r: int|
                    0 <= r < RULE_COUNT ==> #[trigger] progress@[r] < rule_pattern(r).len(),
                forall|r: int| rule <= r < RULE_COUNT ==> #[trigger] progress@[r] == before.progress[r],
                fired == RULE_COUNT ==> forall|r: int|
                    0 <= r < rule ==> #[trigger] progress@[r] == advance(
                        rule_pattern(r),
                        before.progress[r],
                        first,
                    ),
            decreases RULE_COUNT - rule,
        {
            let pattern = pattern_of(rule);
            let next = if first == pattern[progress[rule]] {
                progress[rule] + 1
            } else {
                0
            };
            if next == pattern.len() {
                if fired == RULE_COUNT {
                    fired = rule;
                }
                progress[rule] = 0;
            } else {
                progress[rule] = next;
            }
            rule = rule + 1;
        }
        let mut byte = first;
        if fired < RULE_COUNT {
            progress = [0; 7];
            cursor = retreat_cursor(cursor, pattern_of(fired).len() - 1);
            byte = output_of(fired);
        }
        let closing = fired == RULE_COUNT && numeric && first == REFERENCE_END;
        if closing {
            byte = value;
            cursor = retreat_cursor(retreat_cursor(cursor, digits), 2);
            numeric = false;
            value = 0;
            digits = 0;
        } else if numeric {
            value = fold_digit_byte(value, first);
            digits = digits + 1;
        }
        let opening = opener_bytes();
        if first == opening[opener] {
            opener = opener + 1;
        } else {
            opener = 0;
        }
        if opener == opening.len() {
            opener = 0;
            numeric = true;
        }
        proof {
            let ruled = apply_rules(before, first);
            let counted = track_reference(ruled, first, closes(before, first));
            d = track_opener(counted, first);
            assert(byte == emitted(before, first));
            assert(d.progress =~= Seq::new(RULE_COUNT as nat, |r: int| progress@[r] as int));
            assert(d.out =~= buffer@.take(cursor as int));
        }
        let ghost written = buffer@;
        buffer.set(cursor, byte);
        if !(cursor == 0 && byte == SPACE) {
            cursor = cursor + 1;
            assert(buffer@.take(cursor as int) =~= written.take(cursor - 1).push(byte));
        } else {
            assert(buffer@.take(0) =~= written.take(0));
        }
        proof {
            d = decode_byte(before, first);
        }
        i = i + 1;
    }
    assert(input.skip(len as int).len() == 0);
    buffer.truncate(cursor);
}

/// The bytes are not UTF-8, so they are no text.
#[derive(Clone, Copy, Debug, PartialEq, Eq, Structural)]
pub struct InvalidUtf8;

/// `String::from_utf8` of std, with the error reduced to `None`. Assumed of
/// it, as its documentation says: the bytes become a `String` exactly when
/// they are valid UTF-8, and the `String` then holds the text that they encode.
#[verifier::external_body]
pub(crate) fn text_from_utf8(bytes: Vec<u8>) -> (text: Option<String>)
    ensures
        text is Some == valid_utf8(bytes@),
        text matches Some(decoded) ==> decoded@ == decode_utf8(bytes@),
{
    match String::from_utf8(bytes) {
        Ok(decoded) => Some(decoded),
        Err(_) => None,
    }
}

/// Decodes `text` as `unescape_bytes` does its bytes. A numeric reference can
/// stand for a byte that is no UTF-8 by itself: where the decoded bytes are no
/// valid UTF-8, the text is left as it was and the error says so.
pub fn unescape(text: &mut String) -> (done: Result<(), InvalidUtf8>)
    ensures
        done is Ok == valid_utf8(unescaped(encode_utf8(old(text)@))),
        done is Ok ==> final(text)@ == decode_utf8(unescaped(encode_utf8(old(text)@))),
        done is Err ==> final(text)@ == old(text)@,
{
    let mut buffer = text.as_str().as_bytes_vec();
    unescape_bytes(&mut buffer);
    match text_from_utf8(buffer) {
        Some(decoded) => {
            *text = decoded;
            Ok(())
        },
        None => Err(InvalidUtf8),
    }
}

/// The rule that the search for a completed rule names is one that the byte
/// completes, and no rule before it from `from` on is.
pub proof fn lemma_completed_rule(progress: Seq<int>, byte: u8, from: int)
    requires
        0 <= from <= RULE_COUNT,
    ensures
        from <= completed_rule(progress, byte, from) <= RULE_COUNT,
        completed_rule(progress, byte, from) < RULE_COUNT ==> advance(
            rule_pattern(completed_rule(progress, byte, from)),
            progress[completed_rule(progress, byte, from)],
            byte,
        ) == rule_pattern(completed_rule(progress, byte, from)).len(),
        forall|rule: int|
            from <= rule < completed_rule(progress, byte, from) ==> advance(
                rule_pattern(rule),
                #[trigger] progress[rule],
                byte,
            ) != rule_pattern(rule).len(),
    decreases RULE_COUNT - from,
{
    if from < RULE_COUNT && advance(rule_pattern(from), progress[from], byte) != rule_pattern(
        from,
    ).len() {
        lemma_completed_rule(progress, byte, from + 1);
    }
}

/// No counter of the pass is negative.
spec fn counted(d: Decoder) -> bool {
    &&& d.progress.len() == RULE_COUNT
    &&& forall|rule: int| 0 <= rule < RULE_COUNT ==> 0 <= #[trigger] d.progress[rule]
    &&& 0 <= d.digits
}

proof fn lemma_step_length(d: Decoder, byte: u8)
    requires
        counted(d),
    ensures
        decode_byte(d, byte).out.len() <= d.out.len() + 1,
        counted(decode_byte(d, byte)),
{
    lemma_pattern_lengths();
    let rule = completed_rule(d.progress, byte, 0);
    lemma_completed_rule(d.progress, byte, 0);
    let ruled = apply_rules(d, byte);
    assert(ruled.out.len() <= d.out.len());
    assert forall|r: int| 0 <= r < RULE_COUNT implies 0 <= #[trigger] ruled.progress[r] by {
        assert(0 <= d.progress[r]);
    }
}

proof fn lemma_decode_length(d: Decoder, bytes: Seq<u8>)
    requires
        counted(d),
    ensures
        decode(d, bytes).out.len() <= d.out.len() + bytes.len(),
    decreases bytes.len(),
{
    if bytes.len() > 0 {
        lemma_step_length(d, bytes[0]);
        lemma_decode_length(decode_byte(d, bytes[0]), bytes.drop_first());
    }
}

/// Decoding never makes a text longer: the pass writes one byte at most for
/// each byte that it reads, so it can write where it has read.
pub proof fn lemma_output_is_no_longer(bytes: Seq<u8>)
    ensures
        unescaped(bytes).len() <= bytes.len(),
{
    lemma_decode_length(start(), bytes);
}

} // verus!
