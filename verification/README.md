# jiwa

Terminal text reveal animations — a typewriter with a per-grapheme fade,
and a "breathing" pulse — plus the `jiwa` command that reveals piped text
on a terminal. The library is written in Verus: its functions carry
contracts that the verifier proves. The few calls it makes into other code
(grapheme segmentation, the clock, `String::push`, std's string hasher) go
through small trusted wrappers whose contracts say what those calls do and
are taken on trust; each names the call in its doc comment.

## Layout

- `src/time.rs` — durations counted in nanoseconds, and the monotonic clock.
- `src/text.rs` — grapheme clusters, white space, trimming, building strings.
- `src/typewriter.rs` — which graphemes are visible when, and how long each
  has been visible; the timing laws of the reveal.
- `src/pulse.rs` — where a pulse is within its cycle.
- `src/render.rs` — ANSI-aware tokenizing and frame building.
- `src/screen.rs` — what the command writes: pass-through, in-place frames,
  the final frame, the frame delay, when to play the typing sound.
- `src/reader.rs` — reader mode: sentences, paragraphs and lines.
- `src/numeral.rs`, `src/decimal.rs` — decimal numerals and the number
  literals `f64::from_str` accepts, with their exact values and the bounds
  past which std reads them as infinite, as zero, or as too long a span.
- `src/cli.rs` — the argument grammar: flags, duration literals, colors,
  units.
- `src/sound.rs` — player candidates and choice, URL detection, temp file names.
- `app/` — the program: terminal and file I/O, the animation loop, sound
  playback, and the floating-point steps: a checked duration literal turned
  into a span (`f64` parse, `Duration::from_secs_f64`), and the fade and
  pulse colors.
