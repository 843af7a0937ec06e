use chunk_scan::extract::{handle_tag_end, handle_tag_start};
use chunk_scan::needle::find_needle_chunked;
use chunk_scan::scanner::{handle_chunk, handle_chunk_element, Entry};
use chunk_scan::state::{exclusion_token_bytes, marker_bytes, ChunkMatchState, MatchStep};
use chunk_scan::text::contains;
use chunk_scan::unescape::InvalidUtf8;

fn pairs(entries: &[Entry]) -> Vec<(String, String)> {
    entries.iter().map(|entry| entry.clone().into_text().unwrap()).collect()
}

fn scan_fragments(fragments: &[&str]) -> (ChunkMatchState, Vec<(String, String)>) {
    let mut state = ChunkMatchState::new();
    let mut all = Vec::new();
    for fragment in fragments {
        let entries = handle_chunk(fragment.as_bytes(), &mut state);
        all.extend(pairs(&entries));
    }
    (state, all)
}

const STREAM: &str =
    "noise Scroll to the right to read!junk<strong>Title</strong><span>text</span>ignored</td>next";

#[test]
fn new_state_waits_for_the_preamble() {
    let state = ChunkMatchState::new();
    assert_eq!(state.needle_offset, 0);
    assert_eq!(state.current_step, MatchStep::FindPreamble);
    assert!(state.header.is_empty());
    assert!(state.body.is_empty());
}

#[test]
fn end_to_end_single_fragment() {
    let (state, all) = scan_fragments(&[STREAM]);
    assert_eq!(all, vec![("Title".to_string(), "text".to_string())]);
    assert_eq!(state.current_step, MatchStep::FindHeaderStart);
    assert!(state.header.is_empty());
    assert!(state.body.is_empty());
}

#[test]
fn end_to_end_byte_by_byte() {
    let mut state = ChunkMatchState::new();
    let mut all = Vec::new();
    for byte in STREAM.as_bytes() {
        let entries = handle_chunk(&[*byte], &mut state);
        all.extend(pairs(&entries));
    }
    assert_eq!(all, vec![("Title".to_string(), "text".to_string())]);
    assert_eq!(state.current_step, MatchStep::FindHeaderStart);
}

#[test]
fn every_split_in_two_gives_the_same_result() {
    let (whole_state, whole) = scan_fragments(&[STREAM]);
    for cut in 1..STREAM.len() {
        let (state, all) = scan_fragments(&[&STREAM[..cut], &STREAM[cut..]]);
        assert_eq!(all, whole);
        assert_eq!(state.current_step, whole_state.current_step);
        assert_eq!(state.needle_offset, whole_state.needle_offset);
        assert_eq!(state.header, whole_state.header);
        assert_eq!(state.body, whole_state.body);
    }
}

#[test]
fn fragments_of_eleven_bytes() {
    let mut state = ChunkMatchState::new();
    let mut all = Vec::new();
    for fragment in STREAM.as_bytes().chunks(11) {
        all.extend(pairs(&handle_chunk(fragment, &mut state)));
    }
    assert_eq!(all, vec![("Title".to_string(), "text".to_string())]);
}

#[test]
fn several_cycles_in_one_fragment() {
    let (_, all) = scan_fragments(&[
        "Scroll to the right to read!<strong>a</strong><span>1</span><strong>b</strong><span>2</span>",
    ]);
    assert_eq!(
        all,
        vec![("a".to_string(), "1".to_string()), ("b".to_string(), "2".to_string())]
    );
}

#[test]
fn nothing_is_reported_before_the_preamble() {
    let (state, all) = scan_fragments(&["<strong>a</strong><span>1</span>"]);
    assert!(all.is_empty());
    assert_eq!(state.current_step, MatchStep::FindPreamble);
}

#[test]
fn entries_are_decoded() {
    let (_, all) = scan_fragments(&[
        "Scroll to the right to read!<strong> 22/11 4:00</strong><span> a &amp; b<br>c</span>",
    ]);
    assert_eq!(all, vec![("22/11 4:00".to_string(), "a & b\nc".to_string())]);
}

#[test]
fn excluded_cycle_is_not_reported_and_the_scan_goes_on() {
    let (state, all) = scan_fragments(&[
        "Scroll to the right to read!<strong>x #update-board-archive</strong><span>old</span>",
        "<strong>Next</strong><span>new</span>",
    ]);
    assert_eq!(all, vec![("Next".to_string(), "new".to_string())]);
    assert_eq!(state.current_step, MatchStep::FindHeaderStart);
    assert!(state.header.is_empty());
    assert!(state.body.is_empty());
}

#[test]
fn excluded_cycle_in_the_middle_of_a_fragment() {
    let (_, all) = scan_fragments(&[
        "Scroll to the right to read!<strong>a</strong><span>1</span><strong>#update-board-archive</strong><span>2</span><strong>c</strong><span>3</span>",
    ]);
    assert_eq!(
        all,
        vec![("a".to_string(), "1".to_string()), ("c".to_string(), "3".to_string())]
    );
}

#[test]
fn sentinel_split_over_two_fragments_is_cut_off_the_accumulator() {
    let needle = b"XYZ";
    let mut state = ChunkMatchState::new();
    let mut header: Vec<u8> = Vec::new();

    let first = b"ab cX";
    let offset = find_needle_chunked(needle, first, &mut state);
    assert_eq!(offset, None);
    assert_eq!(state.needle_offset, 1);
    let (found, rest) = handle_tag_end(offset, needle, first, &mut header);
    assert!(!found);
    assert!(rest.is_none());
    assert_eq!(header, b"ab cX".to_vec());

    let second = b"YZ more";
    let offset = find_needle_chunked(needle, second, &mut state);
    assert_eq!(offset, Some(2));
    assert_eq!(state.needle_offset, 0);
    let (found, rest) = handle_tag_end(offset, needle, second, &mut header);
    assert!(found);
    assert_eq!(rest, Some(&b" more"[..]));
    assert_eq!(header, b"ab c".to_vec());
}

#[test]
fn sentinel_split_keeps_what_was_gathered_before() {
    let needle = b"XYZ";
    let mut state = ChunkMatchState::new();
    let mut header: Vec<u8> = b"abc".to_vec();
    for fragment in [&b"ab cX"[..], &b"YZ more"[..]] {
        let offset = find_needle_chunked(needle, fragment, &mut state);
        handle_tag_end(offset, needle, fragment, &mut header);
    }
    assert_eq!(header, b"abcab c".to_vec());
}

#[test]
fn sentinel_inside_one_fragment() {
    let needle = b"XYZ";
    let mut state = ChunkMatchState::new();
    let mut header: Vec<u8> = Vec::new();
    let fragment = b"ab cXYZ more";
    let offset = find_needle_chunked(needle, fragment, &mut state);
    assert_eq!(offset, Some(7));
    let (found, rest) = handle_tag_end(offset, needle, fragment, &mut header);
    assert!(found);
    assert_eq!(rest, Some(&b" more"[..]));
    assert_eq!(header, b"ab c".to_vec());
}

#[test]
fn partial_match_that_fails_stays_in_the_text() {
    let needle = b"XYZ";
    let mut state = ChunkMatchState::new();
    let mut header: Vec<u8> = Vec::new();
    for fragment in [&b"abX"[..], &b"aXYZ"[..]] {
        let offset = find_needle_chunked(needle, fragment, &mut state);
        handle_tag_end(offset, needle, fragment, &mut header);
    }
    assert_eq!(header, b"abXa".to_vec());
}

#[test]
fn search_does_not_fall_back_after_a_mismatch() {
    let mut state = ChunkMatchState::new();
    assert_eq!(find_needle_chunked(b"XYZ", b"XXYZ", &mut state), None);
    assert_eq!(state.needle_offset, 0);
    assert_eq!(find_needle_chunked(b"XYZ", b"XYXYZ", &mut state), None);
    assert_eq!(state.needle_offset, 0);
    assert_eq!(find_needle_chunked(b"XYZ", b"XYaXYZ", &mut state), Some(6));
}

#[test]
fn search_reports_the_first_match_only() {
    let mut state = ChunkMatchState::new();
    assert_eq!(find_needle_chunked(b"ab", b"xxabab", &mut state), Some(4));
    assert_eq!(state.needle_offset, 0);
}

#[test]
fn search_in_an_empty_fragment_keeps_the_offset() {
    let mut state = ChunkMatchState::new();
    assert_eq!(find_needle_chunked(b"XYZ", b"aX", &mut state), None);
    assert_eq!(state.needle_offset, 1);
    assert_eq!(find_needle_chunked(b"XYZ", b"", &mut state), None);
    assert_eq!(state.needle_offset, 1);
}

#[test]
fn tag_start_passes_on_what_follows_the_marker() {
    assert_eq!(handle_tag_start(Some(3), b"abcdef"), (true, Some(&b"def"[..])));
    assert_eq!(handle_tag_start(Some(6), b"abcdef"), (true, Some(&b""[..])));
    assert_eq!(handle_tag_start(None, b"abcdef"), (false, None));
}

#[test]
fn element_makes_one_transition() {
    let mut state = ChunkMatchState::new();
    let rest = handle_chunk_element(b"xx Scroll to the right to read!<strong>T", &mut state);
    assert_eq!(rest, Some(&b"<strong>T"[..]));
    assert_eq!(state.current_step, MatchStep::FindHeaderStart);
    let rest = handle_chunk_element(rest.unwrap(), &mut state);
    assert_eq!(rest, Some(&b"T"[..]));
    assert_eq!(state.current_step, MatchStep::FindHeaderEnd);
    let rest = handle_chunk_element(rest.unwrap(), &mut state);
    assert_eq!(rest, None);
    assert_eq!(state.header, b"T".to_vec());
}

#[test]
fn waiting_result_gives_way_to_the_next_header() {
    let mut state = ChunkMatchState::new();
    state.current_step = MatchStep::ResultAvailable;
    let rest = handle_chunk_element(b"abc", &mut state);
    assert_eq!(rest, Some(&b"abc"[..]));
    assert_eq!(state.current_step, MatchStep::FindHeaderStart);
}

#[test]
fn markers() {
    assert_eq!(marker_bytes(MatchStep::FindPreamble), b"Scroll to the right to read!");
    assert_eq!(marker_bytes(MatchStep::FindHeaderStart), b"<strong>");
    assert_eq!(marker_bytes(MatchStep::FindHeaderEnd), b"</strong>");
    assert_eq!(marker_bytes(MatchStep::FindBodyStart), b"<span>");
    assert_eq!(marker_bytes(MatchStep::FindBodyEnd), b"</span>");
    assert_eq!(marker_bytes(MatchStep::ResultAvailable), b"");
    assert_eq!(exclusion_token_bytes(), b"#update-board-archive");
}

#[test]
fn contains_finds_a_sequence_anywhere() {
    assert!(contains(b"abcabd", b"abd"));
    assert!(contains(b"abcabd", b"abc"));
    assert!(contains(b"abcabd", b""));
    assert!(contains(b"", b""));
    assert!(!contains(b"abcabd", b"abe"));
    assert!(!contains(b"ab", b"abc"));
    assert!(!contains(b"", b"a"));
}

#[test]
fn states_of_a_scan_are_consistent() {
    let mut state = ChunkMatchState::new();
    assert!(state.is_consistent());
    for fragment in STREAM.as_bytes().chunks(3) {
        handle_chunk(fragment, &mut state);
        assert!(state.is_consistent());
    }
}

#[test]
fn state_put_together_by_hand_may_be_inconsistent() {
    let mut state = ChunkMatchState::new();
    state.needle_offset = 28;
    assert!(!state.is_consistent());
    state.needle_offset = 2;
    state.current_step = MatchStep::FindHeaderEnd;
    assert!(!state.is_consistent());
    state.header = b"text</".to_vec();
    assert!(state.is_consistent());
    state.header = b"text<x".to_vec();
    assert!(!state.is_consistent());
    state.current_step = MatchStep::ResultAvailable;
    assert!(!state.is_consistent());
    state.needle_offset = 0;
    assert!(state.is_consistent());
}

#[test]
fn marker_cut_in_every_place_leaves_the_same_header() {
    let stream = "Scroll to the right to read!<strong>head</strong><span>body</span>";
    let start = stream.find("</strong>").unwrap();
    for cut in start..start + "</strong>".len() + 1 {
        let (_, all) = scan_fragments(&[&stream[..cut], &stream[cut..]]);
        assert_eq!(all, vec![("head".to_string(), "body".to_string())]);
    }
}

#[test]
fn unfinished_cycle_waits_in_the_state() {
    let (state, all) = scan_fragments(&["Scroll to the right to read!<strong>He", "ad</str"]);
    assert!(all.is_empty());
    assert_eq!(state.current_step, MatchStep::FindHeaderEnd);
    assert_eq!(state.needle_offset, 5);
    assert_eq!(state.header, b"Head</str".to_vec());
}

#[test]
fn entry_becomes_text() {
    let (header, body) = Entry { header: b"caf\xc3\xa9".to_vec(), body: b"x".to_vec() }
        .into_text()
        .unwrap();
    assert_eq!(header, "caf\u{e9}");
    assert_eq!(body, "x");
}

#[test]
fn entry_that_is_no_utf8_is_no_text() {
    let broken = vec![b'x', 200];
    assert_eq!(
        Entry { header: broken.clone(), body: b"x".to_vec() }.into_text(),
        Err(InvalidUtf8)
    );
    assert_eq!(
        Entry { header: b"x".to_vec(), body: broken }.into_text(),
        Err(InvalidUtf8)
    );
}

#[test]
fn reported_entry_with_a_byte_that_is_no_utf8() {
    let mut state = ChunkMatchState::new();
    let entries = handle_chunk(
        b"Scroll to the right to read!<strong>h</strong><span>x&#200;</span>",
        &mut state,
    );
    assert_eq!(entries.len(), 1);
    assert_eq!(entries[0].body, vec![b'x', 200]);
    assert_eq!(entries[0].clone().into_text(), Err(InvalidUtf8));
}

#[test]
fn reported_entry_keeps_an_escaped_entity_escaped_once() {
    let (_, all) = scan_fragments(&[
        "Scroll to the right to read!<strong>a &amp;quot; b</strong><span>&amp;#65;</span>",
    ]);
    assert_eq!(all, vec![("a &quot; b".to_string(), "&#65;".to_string())]);
}
