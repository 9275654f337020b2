use jiwa::color::Rgb;
use jiwa::render::{plain_text, render_frame, tokenize, visible_newline_rows, Token};


#[test]
fn tokenize_plain_text_has_no_color() {
    let t = tokenize("ab\nc");
    assert!(!t.has_input_color);
    assert_eq!(
        t.tokens,
        vec![
            Token::Grapheme("a".into()),
            Token::Grapheme("b".into()),
            Token::Grapheme("\n".into()),
            Token::Grapheme("c".into()),
        ]
    );
    assert_eq!(plain_text(&t), "ab\nc");
}

#[test]
fn tokenize_grapheme_clusters() {
    let t = tokenize("e\u{0301}世");
    assert_eq!(
        t.tokens,
        vec![
            Token::Grapheme("e\u{0301}".into()),
            Token::Grapheme("世".into()),
        ]
    );
}

#[test]
fn tokenize_splits_escapes_and_sets_flag() {
    let t = tokenize("\x1b[31mA\x1b[0m");
    assert!(t.has_input_color);
    assert_eq!(
        t.tokens,
        vec![
            Token::Escape("\x1b[31m".into()),
            Token::Grapheme("A".into()),
            Token::Escape("\x1b[0m".into()),
        ]
    );
    // Escapes do not count toward plain text used for timing.
    assert_eq!(plain_text(&t), "A");
}

#[test]
fn render_frame_colors_each_grapheme_when_no_input_color() {
    let t = tokenize("ab");
    let colors = [Rgb(10, 20, 30), Rgb(40, 50, 60)];
    let frame = render_frame(&t.tokens, 1, &colors, false);
    assert_eq!(frame, "\x1b[38;2;10;20;30ma\x1b[0m");

    let frame = render_frame(&t.tokens, 2, &colors, false);
    assert_eq!(frame, "\x1b[38;2;10;20;30ma\x1b[38;2;40;50;60mb\x1b[0m");
}

#[test]
fn render_frame_passthrough_preserves_input_escapes() {
    let t = tokenize("\x1b[31mA\x1b[0m");
    // has_input_color = true -> no jiwa foreground; trailing escape
    // after the last visible grapheme is dropped, only reset remains.
    let frame = render_frame(&t.tokens, 1, &[], true);
    assert_eq!(frame, "\x1b[31mA\x1b[0m");
}

#[test]
fn render_frame_hides_beyond_visible_count() {
    let t = tokenize("abc");
    let colors = [Rgb(0, 0, 0); 3];
    let frame = render_frame(&t.tokens, 0, &colors, false);
    assert_eq!(frame, "\x1b[0m");
}

#[test]
fn visible_newline_rows_counts_only_visible() {
    let t = tokenize("a\nb\nc");
    // graphemes: a \n b \n c  -> first 3 contain one newline
    assert_eq!(visible_newline_rows(&t.tokens, 3), 1);
    assert_eq!(visible_newline_rows(&t.tokens, 5), 2);
    assert_eq!(visible_newline_rows(&t.tokens, 1), 0);
}

#[test]
fn tokenize_incomplete_escape_not_dropped() {
    // `\x1b[31` ends without a CSI final byte. It must be kept as text
    // (not silently dropped) and must not panic.
    let t = tokenize("\x1b[31");
    // No well-formed escape -> input was not treated as colored.
    assert!(!t.has_input_color);
    // Every input byte survives into the plain text.
    assert_eq!(plain_text(&t), "\x1b[31");
}

#[test]
fn tokenize_lone_esc_byte() {
    // A bare ESC, and an ESC sandwiched between letters, are kept verbatim.
    assert_eq!(plain_text(&tokenize("\x1b")), "\x1b");
    assert_eq!(plain_text(&tokenize("a\x1bb")), "a\x1bb");
}

#[test]
fn tokenize_consecutive_escapes() {
    // Two back-to-back CSI sequences then one grapheme.
    let t = tokenize("\x1b[1m\x1b[31mA");
    assert_eq!(
        t.tokens,
        vec![
            Token::Escape("\x1b[1m".into()),
            Token::Escape("\x1b[31m".into()),
            Token::Grapheme("A".into()),
        ]
    );
}

#[test]
fn tokenize_zwj_emoji_single_grapheme() {
    // A ZWJ family emoji is one grapheme cluster, not its components.
    let family = "\u{1F468}\u{200D}\u{1F469}\u{200D}\u{1F467}";
    let t = tokenize(family);
    assert_eq!(t.tokens, vec![Token::Grapheme(family.into())]);
}

#[test]
fn tokenize_empty_input() {
    let t = tokenize("");
    assert!(t.tokens.is_empty());
    assert!(!t.has_input_color);
    assert_eq!(plain_text(&t), "");
}

#[test]
fn render_frame_drops_trailing_escape_after_last_visible() {
    // `A <esc> B` with only A visible: the escape after the last visible
    // grapheme is suppressed (no following visible grapheme).
    let t = tokenize("A\x1b[0mB");
    let frame = render_frame(&t.tokens, 1, &[Rgb(1, 2, 3)], false);
    assert_eq!(frame, "\x1b[38;2;1;2;3mA\x1b[0m");
}

#[test]
fn render_frame_emits_escape_before_following_visible() {
    // A leading escape is emitted because a visible grapheme follows it.
    let t = tokenize("\x1b[31mAB");
    let frame = render_frame(&t.tokens, 2, &[], true);
    assert_eq!(frame, "\x1b[31mAB\x1b[0m");
}

#[test]
fn render_frame_colors_shorter_than_visible_no_panic() {
    // Fewer colors than visible graphemes: missing entries simply emit
    // no foreground (no out-of-bounds panic).
    let t = tokenize("ab");
    let frame = render_frame(&t.tokens, 2, &[], false);
    assert_eq!(frame, "ab\x1b[0m");
}

#[test]
fn render_frame_has_input_color_suppresses_jiwa_fg() {
    // With input color present, jiwa never injects its own `38;2` fg,
    // even given a colors slice and multiple visible graphemes.
    let t = tokenize("\x1b[31mABC");
    let colors = [Rgb(10, 20, 30); 3];
    let frame = render_frame(&t.tokens, 3, &colors, true);
    assert!(!frame.contains("38;2"));
    assert_eq!(frame, "\x1b[31mABC\x1b[0m");
}

#[test]
fn visible_newline_rows_zero_and_all() {
    // Zero visible -> zero rows; consecutive and trailing newlines count.
    let t = tokenize("\n\na");
    assert_eq!(visible_newline_rows(&t.tokens, 0), 0);
    assert_eq!(visible_newline_rows(&t.tokens, 2), 2);
    assert_eq!(visible_newline_rows(&t.tokens, 3), 2);
}

#[test]
fn plain_text_excludes_all_escapes_multi() {
    // Escapes interleaved with multibyte graphemes vanish from plain text.
    let t = tokenize("\x1b[31m世\x1b[0m界");
    assert_eq!(plain_text(&t), "世界");
}

#[test]
fn law_examples_render() {
    // Tokens joined give back the input.
    for s in ["", "ab", "\x1b[31mA\x1b[0mB", "\x1b[31", "a\x1bb", "e\u{301}\n"] {
        let t = tokenize(s);
        let joined: String = t
            .tokens
            .iter()
            .map(|tok| match tok {
                Token::Escape(x) | Token::Grapheme(x) => x.as_str(),
            })
            .collect();
        assert_eq!(joined, s);
        // Every frame ends with a reset.
        let f = render_frame(&t.tokens, 1, &[Rgb(1, 1, 1)], t.has_input_color);
        assert!(f.ends_with("\x1b[0m"));
    }
    // Colored input is reproduced verbatim up to the last visible grapheme.
    let t = tokenize("\x1b[1mAB\x1b[0mC");
    assert_eq!(render_frame(&t.tokens, 2, &[Rgb(5, 5, 5)], true), "\x1b[1mAB\x1b[0m");
    assert_eq!(render_frame(&t.tokens, 3, &[], true), "\x1b[1mAB\x1b[0mC\x1b[0m");
    // No rows beyond the visible graphemes.
    let t = tokenize("\n\n\n");
    assert!(visible_newline_rows(&t.tokens, 2) <= 2);
}

#[test]
fn frames_grow_by_appending_and_stop_at_the_count() {
    let t = tokenize("\x1b[1ma\x1b[31mb c\x1b[0m");
    let colors = [Rgb(1, 1, 1), Rgb(2, 2, 2), Rgb(3, 3, 3), Rgb(4, 4, 4)];
    for hic in [false, true] {
        let body = |k: usize| {
            let f = render_frame(&t.tokens, k, &colors, hic);
            assert!(f.ends_with("\x1b[0m"));
            f[..f.len() - 4].to_string()
        };
        for k1 in 0..6 {
            for k2 in k1..6 {
                assert!(body(k2).starts_with(&body(k1)), "{k1} {k2} {hic}");
            }
        }
        // Four graphemes: a, b, space, c.
        assert_eq!(body(4), body(5));
        assert_eq!(body(4), body(100));
        assert_ne!(body(3), body(4));
    }
}
