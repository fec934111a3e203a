use bookfinder::chunk::chunk_text;
use bookfinder::clean::clean_transcript;
use bookfinder::dispatch::segment_transcript;

fn concat(segs: &[String]) -> String {
    let mut s = String::new();
    for seg in segs {
        s.push_str(seg);
    }
    s
}

#[test]
fn chunk_round_trip_simple() {
    let input = "aaa bbb ccc";
    let segs = chunk_text(input, 4);
    assert_eq!(segs, vec!["aaa ", "bbb ", "ccc"]);
    assert_eq!(concat(&segs), input);
}

#[test]
fn chunk_round_trip_various_inputs() {
    let inputs = [
        "",
        "a",
        "one two three four five six seven eight nine ten",
        "word",
        "  leading and trailing  ",
        "line one\nline two\nline three",
        "aword bword cword dword",
        "приключения капитана врунгеля и другие истории",
    ];
    for input in inputs {
        for win in [1usize, 2, 3, 5, 8, 100] {
            let segs = chunk_text(input, win);
            assert_eq!(concat(&segs), input, "win={win} input={input:?}");
            for seg in &segs {
                assert!(seg.chars().count() <= win, "win={win} seg={seg:?}");
                assert!(!seg.is_empty());
            }
        }
    }
}

#[test]
fn chunk_empty_input_yields_no_segments() {
    let segs = chunk_text("", 16);
    assert!(segs.is_empty());
}

#[test]
fn chunk_pulls_boundary_back_to_space() {
    // window 6 falls inside "bb"; the cut is pulled back to the space
    let segs = chunk_text("aaaa bb", 6);
    assert_eq!(segs, vec!["aaaa", " bb"]);
}

#[test]
fn chunk_hard_cut_on_long_word() {
    let segs = chunk_text("abcdefgh", 3);
    assert_eq!(segs, vec!["abc", "def", "gh"]);
}

#[test]
fn chunk_keeps_boundary_on_whitespace() {
    // the character right after the proposed boundary is a space
    let segs = chunk_text("abc def", 3);
    assert_eq!(segs, vec!["abc", " de", "f"]);
}

#[test]
fn clean_removes_timestamps_blanks_and_repeats() {
    let raw = "00:00:01,000 --> 00:00:04,000\r\nhello\r\nhello\r\n\r\nworld\r\n";
    assert_eq!(clean_transcript(raw), "hello\nworld");
}

#[test]
fn clean_trims_lines_and_keeps_order() {
    let raw = "  first  \n\t second\nsecond\n12:34\nthird";
    assert_eq!(clean_transcript(raw), "first\nsecond\nthird");
}

#[test]
fn clean_keeps_nonconsecutive_repeats() {
    let raw = "alpha\nbeta\nalpha";
    assert_eq!(clean_transcript(raw), "alpha\nbeta\nalpha");
}

#[test]
fn clean_empty_input() {
    assert_eq!(clean_transcript(""), "");
    assert_eq!(clean_transcript("\r\n\r\n"), "");
    assert_eq!(clean_transcript("00:01:02,003 --> 00:01:05,006"), "");
}

#[test]
fn segment_transcript_cleans_then_chunks() {
    let raw = "00:00:01,000 --> 00:00:02,000\r\nab cd\r\nab cd\r\nef\r\n";
    // cleaned to "ab cd\nef", then chunked under window 3
    let segs = segment_transcript(raw, 3);
    assert_eq!(concat(&segs), "ab cd\nef");
    for seg in &segs {
        assert!(seg.chars().count() <= 3);
    }
}
