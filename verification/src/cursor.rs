use vstd::prelude::*;
use crate::needle::advance;
use crate::unescape::{
    apply_rules, closes, completed_rule, decode, decode_byte, emitted, fires,
    lemma_completed_rule,
    lemma_pattern_lengths, put, reference_start, retreat, rule_output, rule_pattern, start,
    Decoder, REFERENCE_END, RULE_COUNT, SPACE,
};

verus! {

/// Whether every partial match of a rule lies inside its escape sequence and
/// has all its bytes in the output.
pub open spec fn backed(d: Decoder) -> bool {
    &&& d.progress.len() == RULE_COUNT
    &&& forall|rule: int|
        0 <= rule < RULE_COUNT ==> 0 <= #[trigger] d.progress[rule] < rule_pattern(rule).len()
            && d.progress[rule] <= d.out.len()
}

/// No escape sequence holds a space, none holds a `;` but at its end, and no
/// rule writes a `;`.
proof fn lemma_pattern_bytes()
    ensures
        forall|rule: int, at: int|
            0 <= rule < RULE_COUNT && 0 <= at < rule_pattern(rule).len() ==> (#[trigger] rule_pattern(
                rule,
            )[at]) != SPACE && (rule_pattern(rule)[at] == REFERENCE_END ==> at + 1
                == rule_pattern(rule).len()),
        forall|rule: int| 0 <= rule < RULE_COUNT ==> #[trigger] rule_output(rule) != REFERENCE_END,
{
    reveal_strlit("<br>");
    reveal_strlit("&nbsp;");
    reveal_strlit("&lt;");
    reveal_strlit("&gt;");
    reveal_strlit("&amp;");
    reveal_strlit("&quot;");
    reveal_strlit("&apos;");
}

proof fn lemma_step_keeps_backing(d: Decoder, byte: u8)
    requires
        backed(d),
    ensures
        backed(decode_byte(d, byte)),
{
    lemma_pattern_lengths();
    lemma_pattern_bytes();
    lemma_completed_rule(d.progress, byte, 0);
    let ruled = apply_rules(d, byte);
    let after = decode_byte(d, byte);
    assert(after.progress == ruled.progress);
    if completed_rule(d.progress, byte, 0) >= RULE_COUNT {
        assert forall|r: int| 0 <= r < RULE_COUNT implies 0 <= #[trigger] after.progress[r]
            < rule_pattern(r).len() && after.progress[r] <= after.out.len() by {
            let next = advance(rule_pattern(r), d.progress[r], byte);
            assert(after.progress[r] == next);
            assert(0 <= d.progress[r] < rule_pattern(r).len());
            if byte == REFERENCE_END || byte == SPACE {
                assert(rule_pattern(r)[d.progress[r]] != byte);
                assert(next == 0);
            }
            if !closes(d, byte) {
                assert(emitted(d, byte) == byte);
            }
        }
    }
}

/// The byte that a rule writes is matched by nothing. When a byte completes
/// an escape sequence, the sequence is taken back from the output and the
/// byte of the rule is written in its place; after the step every counter is
/// zero, that of the opener too, and an open reference is still open. So the
/// next byte read begins every match anew, whatever was written.
pub proof fn lemma_written_byte_is_not_matched(d: Decoder, byte: u8)
    requires
        d.progress.len() == RULE_COUNT,
        0 <= d.opener < reference_start().len(),
        fires(d, byte),
    ensures
        decode_byte(d, byte).progress == Seq::new(RULE_COUNT as nat, |rule: int| 0int),
        decode_byte(d, byte).opener == 0,
        decode_byte(d, byte).numeric == d.numeric,
        decode_byte(d, byte).out == put(
            Decoder {
                out: retreat(
                    d.out,
                    rule_pattern(completed_rule(d.progress, byte, 0)).len() - 1,
                ),
                ..d
            },
            rule_output(completed_rule(d.progress, byte, 0)),
        ).out,
{
    lemma_pattern_lengths();
    lemma_completed_rule(d.progress, byte, 0);
    reveal_strlit("<br>");
    reveal_strlit("&nbsp;");
    reveal_strlit("&lt;");
    reveal_strlit("&gt;");
    reveal_strlit("&amp;");
    reveal_strlit("&quot;");
    reveal_strlit("&apos;");
    reveal_strlit("&#");
    let rule = completed_rule(d.progress, byte, 0);
    assert(byte == rule_pattern(rule)[rule_pattern(rule).len() - 1]);
    assert(byte == 62 || byte == REFERENCE_END);
    assert(decode_byte(d, byte).progress =~= Seq::new(RULE_COUNT as nat, |rule: int| 0int));
}

/// The value that a numeric reference writes is matched by nothing either.
/// After the `;` that ends the reference every counter is zero and no
/// reference is open, whatever the value is.
pub proof fn lemma_written_value_is_not_matched(d: Decoder, byte: u8)
    requires
        backed(d),
        0 <= d.opener < reference_start().len(),
        closes(d, byte),
    ensures
        decode_byte(d, byte).progress == Seq::new(RULE_COUNT as nat, |rule: int| 0int),
        decode_byte(d, byte).opener == 0,
        !decode_byte(d, byte).numeric,
        decode_byte(d, byte).out == put(
            Decoder { out: retreat(d.out, d.digits + 2), ..d },
            d.value,
        ).out,
{
    lemma_pattern_lengths();
    lemma_pattern_bytes();
    lemma_completed_rule(d.progress, byte, 0);
    reveal_strlit("&#");
    let after = decode_byte(d, byte);
    assert forall|r: int| 0 <= r < RULE_COUNT implies #[trigger] after.progress[r] == 0 by {
        assert(0 <= d.progress[r] < rule_pattern(r).len());
        assert(rule_pattern(r)[d.progress[r]] != byte);
    }
    assert(after.progress =~= Seq::new(RULE_COUNT as nat, |rule: int| 0int));
}

/// Throughout a pass from the start, the bytes that a rule has matched so far
/// are the last bytes written. So a rule that fires takes back exactly the
/// bytes of its own escape sequence, and only the end of a numeric reference
/// can ask for more than was written.
pub proof fn lemma_matched_bytes_are_written(bytes: Seq<u8>)
    ensures
        backed(decode(start(), bytes)),
{
    lemma_pattern_lengths();
    lemma_run_keeps_backing(start(), bytes);
}

proof fn lemma_run_keeps_backing(d: Decoder, bytes: Seq<u8>)
    requires
        backed(d),
    ensures
        backed(decode(d, bytes)),
    decreases bytes.len(),
{
    if bytes.len() > 0 {
        lemma_step_keeps_backing(d, bytes[0]);
        lemma_run_keeps_backing(decode_byte(d, bytes[0]), bytes.drop_first());
    }
}

} // verus!
