use jiwa::sound::{
    candidates, detect_player, guess_extension, hash_hex, is_url, temp_file_name, to_hex16, Feed,
    Player, Sound,
};

#[test]
fn is_url_detects_http_and_https() {
    assert!(is_url("http://example.com/a.wav"));
    assert!(is_url("https://example.com/a.wav"));
    assert!(!is_url("/tmp/a.wav"));
    assert!(!is_url("a.wav"));
    assert!(!is_url("ftp://example.com/a.wav"));
    // A local path that merely contains "http" is not a URL.
    assert!(!is_url("./my-http-sound.wav"));
}

#[test]
fn hash_hex_is_stable_and_16_hex_digits() {
    let a = hash_hex("https://example.com/clack.wav");
    let b = hash_hex("https://example.com/clack.wav");
    assert_eq!(a, b, "same input -> same hash");
    assert_eq!(a.len(), 16, "u64 as zero-padded hex is 16 chars");
    assert!(a.chars().all(|c| c.is_ascii_hexdigit()));
    // Different inputs almost certainly differ.
    assert_ne!(a, hash_hex("https://example.com/blip.wav"));
}

#[test]
fn guess_extension_from_path_and_url() {
    assert_eq!(guess_extension("clack.wav").as_deref(), Some("wav"));
    assert_eq!(guess_extension("/a/b/blip.OGG").as_deref(), Some("ogg"));
    assert_eq!(guess_extension("https://x.test/s.mp3?token=1").as_deref(), Some("mp3"));
    assert_eq!(guess_extension("https://x.test/s.wav#frag").as_deref(), Some("wav"));
    // No extension, trailing slash, or implausible extension -> None.
    assert_eq!(guess_extension("https://x.test/sound"), None);
    assert_eq!(guess_extension("https://x.test/dir/"), None);
    assert_eq!(guess_extension("noext"), None);
    // Over-long or non-alphanumeric "extensions" are rejected.
    assert_eq!(guess_extension("a.verylongext"), None);
    assert_eq!(guess_extension("a.b_c"), None);
}

#[test]
fn candidates_are_in_documented_priority_order() {
    let cands = candidates();
    let names: Vec<&str> = cands.iter().map(|p| p.cmd.as_str()).collect();
    assert_eq!(names, ["ffplay", "mpv", "aplay", "pw-cat", "afplay"]);
    // Stdin players precede the path-only fallback.
    assert_eq!(cands.last().unwrap().feed, Feed::Path);
    assert!(cands[..cands.len() - 1].iter().all(|p| p.feed == Feed::Stdin));
}

#[test]
fn ffplay_args_read_from_stdin_pipe() {
    let cands = candidates();
    let ffplay = &cands[0];
    assert_eq!(ffplay.cmd, "ffplay");
    assert_eq!(ffplay.feed, Feed::Stdin);
    // The argument vector must end at the stdin pipe source.
    assert!(ffplay.args.contains(&"pipe:0".to_string()));
    assert!(ffplay.args.contains(&"-nodisp".to_string()));
}

#[test]
fn guess_extension_edge_cases() {
    // Trailing dot -> empty extension -> None.
    assert_eq!(guess_extension("a."), None);
    // Dotfile whose only "extension" is the whole tail (`bashrc`, len 6)
    // exceeds the 5-char cap -> None.
    assert_eq!(guess_extension(".bashrc"), None);
    // A leading-dot name with a short tail is still extracted.
    assert_eq!(guess_extension(".wav").as_deref(), Some("wav"));
    // Multi-dot: only the final segment is the extension.
    assert_eq!(guess_extension("a.tar.gz").as_deref(), Some("gz"));
    // Windows-style backslash path, case-folded.
    assert_eq!(guess_extension("C:\\x\\y.WAV").as_deref(), Some("wav"));
    // Empty / bare-dot sources have no extension.
    assert_eq!(guess_extension(""), None);
    assert_eq!(guess_extension("."), None);
    // Digits are alphanumeric, so a numeric extension is accepted.
    assert_eq!(guess_extension("a.123").as_deref(), Some("123"));
    // Length boundary: 5 chars OK, 6 chars rejected.
    assert_eq!(guess_extension("a.fffff").as_deref(), Some("fffff"));
    assert_eq!(guess_extension("a.ffffff"), None);
}

#[test]
fn hash_hex_handles_empty_string() {
    // The empty string hashes to a deterministic 16-digit lowercase hex.
    let a = hash_hex("");
    assert_eq!(a, hash_hex(""), "deterministic for the empty string");
    assert_eq!(a.len(), 16);
    assert!(a.chars().all(|c| c.is_ascii_hexdigit()));
}

#[test]
fn is_url_is_case_sensitive() {
    // The scheme match is byte-exact lowercase: uppercase schemes are not
    // recognized as URLs (current fixed behavior).
    assert!(!is_url("HTTP://x"));
    assert!(!is_url("HTTPS://x"));
}

// ---- further cases ----

#[test]
fn temp_file_name_appends_guessed_extension() {
    assert_eq!(temp_file_name("jiwa-sound-deadbeef", "https://x.test/clack.wav"), "jiwa-sound-deadbeef.wav");
    assert_eq!(temp_file_name("jiwa-sound-cafe", "https://x.test/clack"), "jiwa-sound-cafe");
}

#[test]
fn to_hex16_is_zero_padded_lowercase() {
    assert_eq!(to_hex16(0), "0000000000000000");
    assert_eq!(to_hex16(0xdead_beef), "00000000deadbeef");
    assert_eq!(to_hex16(u64::MAX), "ffffffffffffffff");
    assert_eq!(to_hex16(0x0123_4567_89ab_cdef), "0123456789abcdef");
}

#[test]
fn hash_hex_is_lowercase() {
    let a = hash_hex("abc");
    assert!(a.chars().all(|c| c.is_ascii_digit() || ('a'..='f').contains(&c)));
}

#[test]
fn detect_player_takes_first_available() {
    let p = detect_player(&[false, false, true, true, true]).unwrap();
    assert_eq!(p.cmd, "aplay");
    assert_eq!(p.args, vec!["-q".to_string(), "-".to_string()]);
    assert_eq!(detect_player(&[false, false, false, false, true]).unwrap().feed, Feed::Path);
    assert!(detect_player(&[false; 5]).is_none());
    assert!(detect_player(&[]).is_none());
    assert_eq!(detect_player(&[true]).unwrap().cmd, "ffplay");
}

#[test]
fn sound_argv_by_feed() {
    let cands = candidates();
    let mpv: Player = cands[1].clone();
    let s = Sound::new(vec![1, 2, 3], mpv, Some("/tmp/x.wav".to_string()));
    assert_eq!(s.argv().unwrap(), vec!["mpv", "--no-video", "--really-quiet", "-"]);
    assert_eq!(s.bytes(), &[1, 2, 3]);
    assert_eq!(s.feed(), Feed::Stdin);
    let afplay: Player = cands[4].clone();
    let s = Sound::new(vec![9], afplay.clone(), Some("/tmp/x.wav".to_string()));
    assert_eq!(s.argv().unwrap(), vec!["afplay", "/tmp/x.wav"]);
    let s = Sound::new(vec![9], afplay, None);
    assert_eq!(s.argv(), None);
}

#[test]
fn law_examples_sound() {
    for src in ["a.WAV", "x/y.Mp3?q", "z.a1B2c", "k.toolong"] {
        if let Some(e) = guess_extension(src) {
            assert!(!e.is_empty() && e.len() <= 5);
            assert!(e.chars().all(|c| c.is_ascii_alphanumeric() && !c.is_ascii_uppercase()));
        }
    }
}
