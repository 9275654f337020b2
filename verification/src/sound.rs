//! Choosing how to play a sound: the player candidates and their order,
//! URL detection, and the names of the temp files that hold downloaded or
//! staged audio.
//!
//! Playback itself shells out to an OS player, and URLs are fetched with
//! `curl` or `wget`; what is decided before that is here.

use std::hash::{DefaultHasher, Hash, Hasher};
use vstd::std_specs::hash::DefaultHasherAdditionalSpecFns;
use vstd::prelude::*;

use crate::decimal::{find_either, first_of};
use crate::text::{chars_of, digit, digit_char, push_char, range_eq_lit, string_views};

verus! {

/// How a [`Player`] is fed the audio.
#[derive(Debug, Clone, Copy, PartialEq, Eq, Structural)]
pub enum Feed {
    /// Bytes are written to the child's stdin (e.g. `ffplay -i pipe:0`).
    Stdin,
    /// The player only accepts a file path (macOS `afplay`); the bytes are
    /// written to a temp file once and its path is passed.
    Path,
}

/// A player: the command to run, the fixed arguments that precede the
/// audio source, and how it takes the audio.
#[derive(Debug, Clone, PartialEq)]
pub struct Player {
    /// The executable to spawn (e.g. `ffplay`).
    pub cmd: String,
    /// Fixed arguments that precede the audio source.
    pub args: Vec<String>,
    /// How this player receives the audio bytes.
    pub feed: Feed,
}

/// A player as plain text.
pub struct PlayerView {
    pub cmd: Seq<char>,
    pub args: Seq<Seq<char>>,
    pub feed: Feed,
}

impl View for Player {
    type V = PlayerView;

    open spec fn view(&self) -> PlayerView {
        PlayerView { cmd: self.cmd@, args: string_views(self.args@), feed: self.feed }
    }
}

/// The player candidates in priority order: the players that read stdin
/// first (`ffplay`, `mpv`, `aplay`, `pw-cat`), the path-only macOS
/// `afplay` last.
pub open spec fn candidate_views() -> Seq<PlayerView> {
    seq![
        PlayerView {
            cmd: "ffplay"@,
            args: seq!["-nodisp"@, "-autoexit"@, "-loglevel"@, "quiet"@, "-i"@, "pipe:0"@],
            feed: Feed::Stdin,
        },
        PlayerView {
            cmd: "mpv"@,
            args: seq!["--no-video"@, "--really-quiet"@, "-"@],
            feed: Feed::Stdin,
        },
        PlayerView { cmd: "aplay"@, args: seq!["-q"@, "-"@], feed: Feed::Stdin },
        PlayerView { cmd: "pw-cat"@, args: seq!["-p"@, "-"@], feed: Feed::Stdin },
        PlayerView { cmd: "afplay"@, args: seq![], feed: Feed::Path },
    ]
}

/// The views of a list of players.
pub open spec fn player_views(ps: Seq<Player>) -> Seq<PlayerView> {
    ps.map_values(|p: Player| p@)
}

/// A player built from its command, arguments and feed.
fn player(cmd: &str, args: &[&str], feed: Feed) -> (p: Player)
    ensures
        p.cmd@ == cmd@,
        string_views(p.args@) == args@.map_values(|a: &str| a@),
        p.feed == feed,
{
    let mut v: Vec<String> = Vec::new();
    let mut i: usize = 0;
    while i < args.len()
        invariant
            i <= args@.len(),
            v@.len() == i,
            string_views(v@) == args@.subrange(0, i as int).map_values(|a: &str| a@),
        decreases args@.len() - i,
    {
        let ghost before = v@;
        let a = String::from_str(args[i]);
        v.push(a);
        assert forall|j: int| 0 <= j < i + 1 implies #[trigger] string_views(v@)[j] == args@.subrange(
            0,
            i + 1,
        ).map_values(|a: &str| a@)[j] by {
            if j < i {
                assert(v@[j] == before[j]);
                assert(string_views(before)[j] == args@.subrange(0, i as int).map_values(
                    |a: &str| a@,
                )[j]);
            }
        }
        assert(string_views(v@) =~= args@.subrange(0, i + 1).map_values(|a: &str| a@));
        i = i + 1;
    }
    assert(args@.subrange(0, args@.len() as int) == args@);
    Player { cmd: String::from_str(cmd), args: v, feed }
}

/// Player candidates, in priority order. Players that read stdin come
/// first (no temp file needed); the macOS path-only fallback (`afplay`)
/// is last.
pub fn candidates() -> (r: Vec<Player>)
    ensures
        player_views(r@) == candidate_views(),
{
    let ffplay = player(
        "ffplay",
        &["-nodisp", "-autoexit", "-loglevel", "quiet", "-i", "pipe:0"],
        Feed::Stdin,
    );
    assert(ffplay@ == candidate_views()[0]) by {
        assert(string_views(ffplay.args@) =~= candidate_views()[0].args);
    }
    let mpv = player("mpv", &["--no-video", "--really-quiet", "-"], Feed::Stdin);
    assert(mpv@ == candidate_views()[1]) by {
        assert(string_views(mpv.args@) =~= candidate_views()[1].args);
    }
    let aplay = player("aplay", &["-q", "-"], Feed::Stdin);
    assert(aplay@ == candidate_views()[2]) by {
        assert(string_views(aplay.args@) =~= candidate_views()[2].args);
    }
    let pw = player("pw-cat", &["-p", "-"], Feed::Stdin);
    assert(pw@ == candidate_views()[3]) by {
        assert(string_views(pw.args@) =~= candidate_views()[3].args);
    }
    let afplay = player("afplay", &[], Feed::Path);
    assert(afplay@ == candidate_views()[4]) by {
        assert(string_views(afplay.args@) =~= candidate_views()[4].args);
    }
    let mut r: Vec<Player> = Vec::new();
    r.push(ffplay);
    r.push(mpv);
    r.push(aplay);
    r.push(pw);
    r.push(afplay);
    assert(player_views(r@) =~= candidate_views());
    r
}

/// The index of the first available candidate: `available[i]` tells
/// whether candidate `i` can be run; candidates past the end of
/// `available` count as unavailable.
pub open spec fn first_available(available: Seq<bool>, i: nat) -> Option<nat>
    decreases 5 - i,
{
    if i >= 5 || i >= available.len() {
        None
    } else if available[i as int] {
        Some(i)
    } else {
        first_available(available, i + 1)
    }
}

/// The first candidate, in priority order, that can be run;
/// `available[i]` tells whether candidate `i` of [`candidates`] exists on
/// this machine.
pub fn detect_player(available: &[bool]) -> (r: Option<Player>)
    ensures
        match first_available(available@, 0) {
            Some(j) => r matches Some(p) && p@ == candidate_views()[j as int],
            None => r is None,
        },
{
    let mut cands = candidates();
    assert(cands@.len() == 5) by {
        assert(player_views(cands@).len() == cands@.len());
    }
    let mut i: usize = 0;
    while i < 5 && i < available.len()
        invariant
            i <= 5,
            cands@.len() == 5,
            player_views(cands@) == candidate_views(),
            first_available(available@, 0) == first_available(available@, i as nat),
        decreases 5 - i,
    {
        if available[i] {
            assert(cands@[i as int]@ == candidate_views()[i as int]) by {
                assert(player_views(cands@)[i as int] == cands@[i as int]@);
            }
            let p = cands.remove(i);
            return Some(p);
        }
        i = i + 1;
    }
    None
}

/// `s` begins with `p`.
pub open spec fn starts_with(s: Seq<char>, p: Seq<char>) -> bool {
    s.len() >= p.len() && s.subrange(0, p.len() as int) == p
}

/// The source names an HTTP(S) URL: it begins with `http://` or
/// `https://`, in lower case.
pub open spec fn is_url_text(s: Seq<char>) -> bool {
    starts_with(s, "http://"@) || starts_with(s, "https://"@)
}

/// True if `spec` looks like an HTTP(S) URL that should be fetched.
pub fn is_url(spec: &str) -> (b: bool)
    ensures
        b == is_url_text(spec@),
{
    proof {
        reveal_strlit("http://");
        reveal_strlit("https://");
    }
    let v = chars_of(spec);
    (v.len() >= 7 && range_eq_lit(&v, 0, 7, "http://")) || (v.len() >= 8 && range_eq_lit(
        &v,
        0,
        8,
        "https://",
    ))
}

/// Index of the last `c1` or `c2` in `s`; `-1` if none.
pub open spec fn last_of(s: Seq<char>, c1: char, c2: char) -> int
    decreases s.len(),
{
    if s.len() == 0 {
        -1
    } else if s.last() == c1 || s.last() == c2 {
        s.len() - 1
    } else {
        last_of(s.drop_last(), c1, c2)
    }
}

/// `s` without its trailing `/`s.
pub open spec fn strip_trailing_slashes(s: Seq<char>) -> Seq<char>
    decreases s.len(),
{
    if s.len() > 0 && s.last() == '/' {
        strip_trailing_slashes(s.drop_last())
    } else {
        s
    }
}

/// The last path segment of a path or URL: the query (`?...`) and fragment
/// (`#...`) dropped, trailing `/`s dropped, then what follows the last `/`
/// or `\`.
pub open spec fn source_tail(source: Seq<char>) -> Seq<char> {
    let t = strip_trailing_slashes(source.subrange(0, first_of(source, '?', '#') as int));
    t.subrange(last_of(t, '/', '\\') + 1, t.len() as int)
}

/// An ASCII letter or digit.
pub open spec fn is_ascii_alnum(c: char) -> bool {
    ('0' <= c <= '9') || ('a' <= c <= 'z') || ('A' <= c <= 'Z')
}

/// The ASCII lower case of `c`.
pub open spec fn ascii_lower(c: char) -> char {
    if 'A' <= c <= 'Z' {
        ((c as u32) + 32) as char
    } else {
        c
    }
}

/// The extension guessed from a path or URL: what follows the last `.` of
/// its last segment, when that is one to five ASCII letters or digits,
/// lower-cased.
pub open spec fn extension_of(source: Seq<char>) -> Option<Seq<char>> {
    let tail = source_tail(source);
    let d = last_of(tail, '.', '.');
    let ext = tail.subrange(d + 1, tail.len() as int);
    if d < 0 || ext.len() == 0 || ext.len() > 5 || !(forall|i: int|
        0 <= i < ext.len() ==> is_ascii_alnum(#[trigger] ext[i])) {
        None
    } else {
        Some(ext.map_values(|c: char| ascii_lower(c)))
    }
}

/// Finds the last `c1` or `c2` in `v[a..b]`.
fn find_last(v: &Vec<char>, a: usize, b: usize, c1: char, c2: char) -> (r: Option<usize>)
    requires
        a <= b <= v@.len(),
    ensures
        match r {
            Some(i) => a <= i < b && i - a == last_of(v@.subrange(a as int, b as int), c1, c2),
            None => last_of(v@.subrange(a as int, b as int), c1, c2) == -1,
        },
{
    let mut j = b;
    while j > a
        invariant
            a <= j <= b <= v@.len(),
            last_of(v@.subrange(a as int, b as int), c1, c2) == last_of(
                v@.subrange(a as int, j as int),
                c1,
                c2,
            ),
        decreases j - a,
    {
        let ghost t = v@.subrange(a as int, j as int);
        assert(t.last() == v@[j - 1]);
        if v[j - 1] == c1 || v[j - 1] == c2 {
            return Some(j - 1);
        }
        assert(t.drop_last() == v@.subrange(a as int, j - 1));
        j = j - 1;
    }
    None
}

/// The ASCII lower case of `c`.
fn lower_char(c: char) -> (r: char)
    ensures
        r == ascii_lower(c),
{
    if 'A' <= c && c <= 'Z' {
        let b = (c as u8) + 32;
        b as char
    } else {
        c
    }
}

/// Guess a short file extension from a path or URL tail (`clack.wav`
/// gives `wav`). `None` when there is no plausible alphanumeric
/// extension. Query strings and fragments of URLs are dropped first.
pub fn guess_extension(source: &str) -> (r: Option<String>)
    ensures
        match extension_of(source@) {
            Some(e) => r matches Some(x) && x@ == e,
            None => r is None,
        },
{
    let v = chars_of(source);
    let n = v.len();
    assert(v@.subrange(0, n as int) == v@);
    let q = find_either(&v, 0, n, '?', '#');
    let mut e = q;
    while e > 0 && v[e - 1] == '/'
        invariant
            e <= q <= n == v@.len(),
            strip_trailing_slashes(v@.subrange(0, q as int)) == strip_trailing_slashes(
                v@.subrange(0, e as int),
            ),
        decreases e,
    {
        assert(v@.subrange(0, e as int).drop_last() == v@.subrange(0, e - 1));
        e = e - 1;
    }
    assert(strip_trailing_slashes(v@.subrange(0, e as int)) == v@.subrange(0, e as int));
    let ghost t = v@.subrange(0, e as int);
    let s0 = match find_last(&v, 0, e, '/', '\\') {
        Some(i) => i + 1,
        None => 0,
    };
    assert(v@.subrange(s0 as int, e as int) == source_tail(source@));
    let d = match find_last(&v, s0, e, '.', '.') {
        Some(i) => i,
        None => {
            return None;
        },
    };
    let ghost tail = v@.subrange(s0 as int, e as int);
    assert(tail.subrange(d - s0 + 1, tail.len() as int) == v@.subrange(d + 1, e as int));
    let len = e - (d + 1);
    if len == 0 || len > 5 {
        return None;
    }
    let mut out = String::new();
    let mut i = d + 1;
    while i < e
        invariant
            d + 1 <= i <= e <= v@.len(),
            s0 <= d,
            v@ == source@,
            source_tail(source@) == v@.subrange(s0 as int, e as int),
            d - s0 == last_of(v@.subrange(s0 as int, e as int), '.', '.'),
            1 <= e - (d + 1) <= 5,
            forall|j: int| d + 1 <= j < i ==> is_ascii_alnum(#[trigger] v@[j]),
            out@ == v@.subrange(d + 1, i as int).map_values(|c: char| ascii_lower(c)),
        decreases e - i,
    {
        let c = v[i];
        if !(('0' <= c && c <= '9') || ('a' <= c && c <= 'z') || ('A' <= c && c <= 'Z')) {
            proof {
                let tail = v@.subrange(s0 as int, e as int);
                assert(tail.subrange(d - s0 + 1, tail.len() as int) == v@.subrange(d + 1, e as int));
                assert(v@.subrange(d + 1, e as int)[i - d - 1] == c);
            }
            return None;
        }
        let l = lower_char(c);
        push_char(&mut out, l);
        assert(out@ =~= v@.subrange(d + 1, i + 1).map_values(|c: char| ascii_lower(c)));
        i = i + 1;
    }
    assert(forall|j: int| 0 <= j < len ==> is_ascii_alnum(
        #[trigger] v@.subrange(d + 1, e as int)[j],
    )) by {
        assert forall|j: int| 0 <= j < len implies is_ascii_alnum(
            #[trigger] v@.subrange(d + 1, e as int)[j],
        ) by {
            assert(v@.subrange(d + 1, e as int)[j] == v@[d + 1 + j]);
        }
    }
    Some(out)
}

/// `k` lowercase hexadecimal digits of `n mod 16^k`, most significant
/// first (`format!("{:0k$x}")` for `n < 16^k`).
pub open spec fn hex_digits(n: nat, k: nat) -> Seq<char>
    decreases k,
{
    if k == 0 {
        seq![]
    } else {
        hex_digits(n / 16, (k - 1) as nat).push(digit_char(n % 16))
    }
}

/// Appends `hex_digits(n, k)`.
fn push_hex(s: &mut String, n: u64, k: u32)
    ensures
        final(s)@ == old(s)@ + hex_digits(n as nat, k as nat),
    decreases k,
{
    if k > 0 {
        push_hex(s, n / 16, k - 1);
        push_char(s, digit((n % 16) as u8));
    }
}

/// `n` as 16 lowercase hexadecimal digits, zero-padded (`{:016x}`).
pub fn to_hex16(n: u64) -> (r: String)
    ensures
        r@ == hex_digits(n as nat, 16),
{
    let mut s = String::new();
    push_hex(&mut s, n, 16);
    s
}

/// The state of a `DefaultHasher`, as vstd models it (the byte strings
/// written to it), after `<str as Hash>::hash` has fed it the string `s`,
/// starting from `state`.
pub uninterp spec fn after_str_hash(state: Seq<Seq<u8>>, s: Seq<char>) -> Seq<Seq<u8>>;

/// `<str as Hash>::hash`: feeds `s` into the hasher. Claimed: the new
/// state is a function of the old state and of `s` alone (hashing writes
/// the same bytes for the same string). Which bytes are written is left
/// unsaid.
#[verifier::external_body]
fn hash_str(s: &str, h: &mut std::hash::DefaultHasher)
    ensures
        final(h)@ == after_str_hash(old(h)@, s@),
{
    s.hash(h)
}

/// The `u64` that std's `DefaultHasher` gives for `s`: a fresh hasher,
/// fed `s`, then finished.
pub open spec fn str_hash(s: Seq<char>) -> u64 {
    DefaultHasher::spec_finish(after_str_hash(Seq::empty(), s))
}

/// Hash `s` with std's `DefaultHasher` (SipHash) to 16 lowercase hex
/// digits: a name for the temp cache file that stays the same for the
/// same string.
pub fn hash_hex(s: &str) -> (r: String)
    ensures
        r@ == hex_digits(str_hash(s@) as nat, 16),
{
    let mut h = DefaultHasher::new();
    hash_str(s, &mut h);
    let x = h.finish();
    to_hex16(x)
}

/// The same string always gets the same name.
pub proof fn law_hash_hex_is_stable(s1: Seq<char>, s2: Seq<char>)
    requires
        s1 == s2,
    ensures
        hex_digits(str_hash(s1) as nat, 16) == hex_digits(str_hash(s2) as nat, 16),
        hex_digits(str_hash(s1) as nat, 16).len() == 16,
{
    lemma_hex_digits_len(str_hash(s1) as nat, 16);
}

/// `hex_digits(n, k)` has `k` digits.
proof fn lemma_hex_digits_len(n: nat, k: nat)
    ensures
        hex_digits(n, k).len() == k,
    decreases k,
{
    if k > 0 {
        lemma_hex_digits_len(n / 16, (k - 1) as nat);
    }
}

/// The file name of a temp file: `stem`, then `.` and the extension
/// guessed from `source` when there is one.
pub open spec fn temp_name(stem: Seq<char>, source: Seq<char>) -> Seq<char> {
    match extension_of(source) {
        Some(e) => stem + seq!['.'] + e,
        None => stem,
    }
}

/// The file name `<stem>[.<ext>]` of a temp file, the extension guessed
/// from `source` (the path or URL the sound came from); purely cosmetic.
pub fn temp_file_name(stem: &str, source: &str) -> (r: String)
    ensures
        r@ == temp_name(stem@, source@),
{
    let mut name = String::from_str(stem);
    match guess_extension(source) {
        Some(ext) => {
            push_char(&mut name, '.');
            name.append(ext.as_str());
        },
        None => {},
    }
    name
}

/// A guessed extension is one to five ASCII letters or digits, with no
/// upper-case letter.
pub proof fn law_extension_is_short_lowercase(source: Seq<char>)
    ensures
        extension_of(source) matches Some(e) ==> {
            &&& 1 <= e.len() <= 5
            &&& forall|i: int|
                0 <= i < e.len() ==> is_ascii_alnum(#[trigger] e[i]) && !('A' <= e[i] <= 'Z')
        },
{
    if let Some(e) = extension_of(source) {
        let tail = source_tail(source);
        let d = last_of(tail, '.', '.');
        let ext = tail.subrange(d + 1, tail.len() as int);
        assert forall|i: int| 0 <= i < e.len() implies is_ascii_alnum(#[trigger] e[i]) && !('A'
            <= e[i] <= 'Z') by {
            assert(e[i] == ascii_lower(ext[i]));
            assert(is_ascii_alnum(ext[i]));
        }
    }
}

/// A loaded sound: the audio bytes (read once), the player that plays
/// it, and, for a path-only player, the temp file that holds the bytes.
#[derive(Debug, Clone)]
pub struct Sound {
    bytes: Vec<u8>,
    player: Player,
    path_for_player: Option<String>,
}

/// The command line that plays a sound: the player's command and fixed
/// arguments, then the staged file for a path-only player; `None` when a
/// path-only player has no staged file.
pub open spec fn play_argv(p: PlayerView, path: Option<Seq<char>>) -> Option<Seq<Seq<char>>> {
    match p.feed {
        Feed::Stdin => Some(seq![p.cmd] + p.args),
        Feed::Path => match path {
            Some(x) => Some(seq![p.cmd] + p.args + seq![x]),
            None => None,
        },
    }
}

impl Sound {
    /// The player of this sound.
    pub closed spec fn player_view(&self) -> PlayerView {
        self.player@
    }

    /// The staged file of this sound, if any.
    pub closed spec fn path_view(&self) -> Option<Seq<char>> {
        match self.path_for_player {
            Some(p) => Some(p@),
            None => None,
        }
    }

    /// The audio bytes.
    pub closed spec fn bytes_view(&self) -> Seq<u8> {
        self.bytes@
    }

    /// A sound from its bytes, its player and the staged file for a
    /// path-only player.
    pub fn new(bytes: Vec<u8>, player: Player, path_for_player: Option<String>) -> (s: Sound)
        ensures
            s.bytes_view() == bytes@,
            s.player_view() == player@,
            s.path_view() == (match path_for_player {
                Some(p) => Some(p@),
                None => None::<Seq<char>>,
            }),
    {
        Sound { bytes, player, path_for_player }
    }

    /// The audio bytes, written to the player's stdin for a stdin player.
    pub fn bytes(&self) -> (b: &[u8])
        ensures
            b@ == self.bytes_view(),
    {
        self.bytes.as_slice()
    }

    /// How the player takes the audio.
    pub fn feed(&self) -> (f: Feed)
        ensures
            f == self.player_view().feed,
    {
        self.player.feed
    }

    /// The command line to spawn for one playback (see [`play_argv`]).
    pub fn argv(&self) -> (r: Option<Vec<String>>)
        ensures
            match play_argv(self.player_view(), self.path_view()) {
                Some(a) => r matches Some(v) && string_views(v@) == a,
                None => r is None,
            },
    {
        if self.player.feed == Feed::Path && self.path_for_player.is_none() {
            return None;
        }
        let mut v: Vec<String> = Vec::new();
        v.push(self.player.cmd.clone());
        let mut i: usize = 0;
        while i < self.player.args.len()
            invariant
                i <= self.player.args@.len(),
                v@.len() == i + 1,
                v@[0]@ == self.player.cmd@,
                forall|j: int| 0 <= j < i ==> (#[trigger] v@[j + 1])@ == self.player.args@[j]@,
            decreases self.player.args@.len() - i,
        {
            v.push(self.player.args[i].clone());
            i = i + 1;
        }
        let ghost head = seq![self.player.cmd@] + string_views(self.player.args@);
        assert(string_views(v@) =~= head) by {
            assert forall|j: int| 0 <= j < v@.len() implies #[trigger] string_views(v@)[j] == head[j] by {
                if j > 0 {
                    assert(v@[(j - 1) + 1]@ == self.player.args@[j - 1]@);
                }
            }
        }
        if self.player.feed == Feed::Stdin {
            return Some(v);
        }
        if let Some(p) = &self.path_for_player {
            let ghost before = v@;
            v.push(p.clone());
            assert(string_views(v@) =~= string_views(before).push(p@)) by {
                assert forall|j: int| 0 <= j < before.len() implies #[trigger] string_views(v@)[j]
                    == string_views(before)[j] by {
                    assert(v@[j] == before[j]);
                }
            }
        }
        Some(v)
    }
}

} // verus!
