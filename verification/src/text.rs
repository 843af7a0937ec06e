use vstd::prelude::*;
use vstd::string::*;

verus! {

/// The bytes of a text made of ASCII characters only, one byte per character.
pub open spec fn ascii_bytes(text: Seq<char>) -> Seq<u8> {
    Seq::new(text.len(), |i: int| text[i] as u8)
}

/// The bytes of an ASCII literal.
pub fn literal_bytes(text: &'static str) -> (bytes: &'static [u8])
    requires
        is_ascii(text),
    ensures
        bytes@ == ascii_bytes(text@),
{
    proof {
        is_ascii_spec_bytes(text);
    }
    text.as_bytes()
}

/// Whether `pattern` stands in `bytes` at index `at`.
pub open spec fn occurs_at(pattern: Seq<u8>, bytes: Seq<u8>, at: int) -> bool {
    0 <= at && at + pattern.len() <= bytes.len() && bytes.subrange(at, at + pattern.len())
        == pattern
}

/// Whether `pattern` stands somewhere in `bytes`.
pub open spec fn occurs(pattern: Seq<u8>, bytes: Seq<u8>) -> bool {
    exists|at: int| occurs_at(pattern, bytes, at)
}

/// Whether `needle` stands somewhere in `haystack`.
pub fn contains(haystack: &[u8], needle: &[u8]) -> (found: bool)
    ensures
        found == occurs(needle@, haystack@),
{
    if needle.len() > haystack.len() {
        return false;
    }
    let last = haystack.len() - needle.len();
    let mut at: usize = 0;
    loop
        invariant
            haystack@.len() <= usize::MAX,
            last == haystack@.len() - needle@.len(),
            at <= last,
            forall|earlier: int| 0 <= earlier < at ==> !occurs_at(needle@, haystack@, earlier),
        decreases last - at,
    {
        let mut matched: usize = 0;
        let mut same = true;
        while same && matched < needle.len()
            invariant
                haystack@.len() <= usize::MAX,
                at + needle@.len() <= haystack@.len(),
                matched <= needle@.len(),
                forall|j: int| 0 <= j < matched ==> haystack@[at + j] == needle@[j],
                !same ==> matched < needle@.len() && haystack@[at + matched] != needle@[
                    matched as int
                ],
            decreases needle@.len() - matched + if same { 1nat } else { 0nat },
        {
            if haystack[at + matched] == needle[matched] {
                matched = matched + 1;
            } else {
                same = false;
            }
        }
        if same {
            assert(haystack@.subrange(at as int, at + needle@.len()) =~= needle@);
            assert(occurs_at(needle@, haystack@, at as int));
            return true;
        }
        assert(!occurs_at(needle@, haystack@, at as int)) by {
            if occurs_at(needle@, haystack@, at as int) {
                let window = haystack@.subrange(at as int, at + needle@.len());
                assert(window[matched as int] == haystack@[at + matched]);
            }
        }
        if at == last {
            return false;
        }
        at = at + 1;
    }
}

} // verus!
