use jiwa::color::Rgb;
use jiwa::render::tokenize;
use jiwa::screen::{
    animation_frame, brings_new_ink, final_screen, frame_delay_millis, output_mode,
    passthrough_text, should_animate, OutputMode,
};
use jiwa::time::Duration;

#[test]
fn passthrough_adds_missing_newline_only() {
    assert_eq!(passthrough_text("hello world"), "hello world\n");
    assert_eq!(passthrough_text("line\n"), "line\n");
    assert_eq!(passthrough_text(""), "\n");
    assert_eq!(passthrough_text("\x1b[31m世界\x1b[0m"), "\x1b[31m世界\x1b[0m\n");
}

#[test]
fn animates_only_on_a_terminal_with_a_fade_or_stagger() {
    let z = Duration::zero();
    let d = Duration::from_millis(200);
    assert!(!should_animate(z, z, true));
    assert!(!should_animate(d, z, false));
    assert!(should_animate(d, z, true));
    assert!(should_animate(z, d, true));
}

#[test]
fn animation_frame_erases_then_draws() {
    let t = tokenize("a\nb");
    let (out, rows) = animation_frame(&t.tokens, 0, 2, &[Rgb(1, 2, 3), Rgb(4, 5, 6)], false);
    assert_eq!(out, "\r\x1b[J\x1b[38;2;1;2;3ma\x1b[38;2;4;5;6m\n\x1b[0m");
    assert_eq!(rows, 1);
    let (out, rows) = animation_frame(&t.tokens, 12, 3, &[], false);
    assert_eq!(out, "\x1b[12A\r\x1b[Ja\nb\x1b[0m");
    assert_eq!(rows, 1);
}

#[test]
fn final_screen_reenables_wrap_and_uses_end_color() {
    let t = tokenize("ab");
    let out = final_screen(&t.tokens, 3, 2, Rgb(9, 9, 9), false);
    assert_eq!(out, "\x1b[3A\r\x1b[J\x1b[?7h\x1b[38;2;9;9;9ma\x1b[38;2;9;9;9mb\x1b[0m\n");
    let t = tokenize("\x1b[31mab");
    let out = final_screen(&t.tokens, 0, 2, Rgb(9, 9, 9), true);
    assert_eq!(out, "\r\x1b[J\x1b[?7h\x1b[31mab\x1b[0m\n");
}

#[test]
fn frame_delay_is_whole_milliseconds_per_frame() {
    assert_eq!(frame_delay_millis(60), 16);
    assert_eq!(frame_delay_millis(1), 1000);
    assert_eq!(frame_delay_millis(240), 4);
}

#[test]
fn new_ink_ignores_white_space_and_escapes() {
    let t = tokenize("a \x1b[31m\nb");
    // graphemes: a, space, newline, b
    assert!(brings_new_ink(&t.tokens, 0, 1));
    assert!(!brings_new_ink(&t.tokens, 1, 3));
    assert!(brings_new_ink(&t.tokens, 1, 4));
    assert!(!brings_new_ink(&t.tokens, 2, 2));
    assert!(!brings_new_ink(&t.tokens, 4, 10));
}

#[test]
fn output_mode_falls_back_to_passthrough() {
    let z = Duration::zero();
    let d = Duration::from_millis(40);
    assert_eq!(output_mode(false, z, z, true, true, "hi"), OutputMode::Passthrough);
    assert_eq!(output_mode(false, d, z, true, false, "hi"), OutputMode::Animate);
    assert_eq!(output_mode(false, d, d, false, false, "hi"), OutputMode::Passthrough);
    assert_eq!(output_mode(true, z, z, true, true, "hi"), OutputMode::Reader);
    assert_eq!(output_mode(true, d, z, false, true, "hi"), OutputMode::Passthrough);
    assert_eq!(output_mode(true, d, z, true, false, "hi"), OutputMode::Passthrough);
}

#[test]
fn escape_only_input_with_animation_passes_through() {
    // Input with no printable grapheme is passed through verbatim even when
    // a fade is asked for, on a terminal or not, and in reader mode too.
    let input = "\x1b[31m\x1b[0m";
    let d = Duration::from_millis(200);
    let z = Duration::zero();
    assert_eq!(output_mode(false, d, z, false, false, input), OutputMode::Passthrough);
    assert_eq!(output_mode(false, d, z, true, false, input), OutputMode::Passthrough);
    assert_eq!(output_mode(true, d, z, true, true, input), OutputMode::Passthrough);
    assert_eq!(output_mode(false, d, z, true, false, ""), OutputMode::Passthrough);
    assert_eq!(passthrough_text(input), "\x1b[31m\x1b[0m\n");
    // One visible grapheme is enough to animate.
    assert_eq!(output_mode(false, d, z, true, false, "\x1b[31mx"), OutputMode::Animate);
}
