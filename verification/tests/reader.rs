use jiwa::reader::{ends_session, reader_prompt, segment, Unit};


#[test]
fn sentence_japanese_basic() {
    assert_eq!(
        segment("一文目。二文目！三文目？", Unit::Sentence),
        vec!["一文目。", "二文目！", "三文目？"]
    );
}

#[test]
fn sentence_japanese_absorbs_closing_bracket() {
    // The 」 after 。 belongs to the same sentence.
    assert_eq!(
        segment("「こんにちは。」次へ。", Unit::Sentence),
        vec!["「こんにちは。」", "次へ。"]
    );
}

#[test]
fn sentence_english_splits_on_space_after_period() {
    assert_eq!(
        segment("Hello there. How are you?", Unit::Sentence),
        vec!["Hello there.", " How are you?"]
    );
}

#[test]
fn sentence_does_not_split_decimal() {
    // `3.14` keeps its dot; the trailing `.` (end of input) still ends.
    assert_eq!(
        segment("Pi is 3.14 today.", Unit::Sentence),
        vec!["Pi is 3.14 today."]
    );
}

#[test]
fn sentence_trailing_fragment_without_terminator() {
    assert_eq!(
        segment("First. Loose end", Unit::Sentence),
        vec!["First.", " Loose end"]
    );
}

#[test]
fn sentence_empty_and_whitespace_only() {
    assert!(segment("", Unit::Sentence).is_empty());
    assert!(segment("   \n  ", Unit::Sentence).is_empty());
}

#[test]
fn sentence_absorbs_ascii_quote() {
    // Closing `"` after `.` is pulled into the sentence.
    assert_eq!(
        segment("He said \"hi.\" Then left.", Unit::Sentence),
        vec!["He said \"hi.\"", " Then left."]
    );
}

#[test]
fn paragraph_splits_on_blank_line() {
    assert_eq!(
        segment("Para one.\nStill one.\n\nPara two.", Unit::Paragraph),
        vec!["Para one.\nStill one.", "Para two."]
    );
}

#[test]
fn paragraph_collapses_multiple_blank_lines() {
    assert_eq!(segment("A\n\n\n\nB", Unit::Paragraph), vec!["A", "B"]);
}

#[test]
fn line_splits_on_newline_drops_trailing_blanks() {
    assert_eq!(segment("one\ntwo\n\n", Unit::Line), vec!["one", "two"]);
}

#[test]
fn line_drops_empty_interior_lines() {
    // Blank interior lines are trimmed-empty and dropped.
    assert_eq!(segment("a\n\nb", Unit::Line), vec!["a", "b"]);
}

#[test]
fn reader_prompt_is_dim_and_has_counts() {
    let p = reader_prompt(2, 5);
    assert!(p.starts_with("\x1b[2m"), "starts dim");
    assert!(p.ends_with("\x1b[0m"), "ends with reset");
    assert!(p.contains("2/5"), "shows index/total");
}

#[test]
fn reader_prompt_exact_text() {
    assert_eq!(reader_prompt(2, 5), "\x1b[2m[ 2/5 ] Enter \u{25b8}\x1b[0m");
    assert_eq!(reader_prompt(10, 120), "\x1b[2m[ 10/120 ] Enter \u{25b8}\x1b[0m");
}

#[test]
fn ends_session_on_q_only() {
    assert!(ends_session("q\n"));
    assert!(ends_session("  q  "));
    assert!(!ends_session("\n"));
    assert!(!ends_session("quit\n"));
    assert!(!ends_session("Q\n"));
}

#[test]
fn crlf_and_cr_become_newlines() {
    assert_eq!(segment("one\r\ntwo\rthree", Unit::Line), vec!["one", "two", "three"]);
}

#[test]
fn sentence_keeps_closers_after_ascii_end() {
    assert_eq!(segment("Yes!) Next.", Unit::Sentence), vec!["Yes!)", " Next."]);
}

#[test]
fn law_examples_reader() {
    let text = "a. b\r\n\n c? d";
    for unit in [Unit::Sentence, Unit::Paragraph, Unit::Line] {
        for s in segment(text, unit) {
            assert!(!s.trim().is_empty());
            assert!(!s.contains('\r'));
        }
    }
}

#[test]
fn segments_keep_every_visible_char_and_no_cr() {
    let text = "One.\r\nTwo!  Three?\r\r\nFour\rfive.\n\n\n 3.5 items\r\n";
    let ink = |s: &str| s.chars().filter(|c| !c.is_whitespace()).collect::<String>();
    for unit in [Unit::Sentence, Unit::Paragraph, Unit::Line] {
        let segs = segment(text, unit);
        assert!(segs.iter().all(|s| !s.contains('\r')), "{unit:?}");
        assert_eq!(ink(&segs.concat()), ink(text), "{unit:?}");
    }
}
