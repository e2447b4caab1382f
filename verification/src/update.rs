//! The update notice: which version is newer, what the cache says, what is
//! shown, and the script that refreshes the cache.

use vstd::prelude::*;
use vstd::slice::slice_subrange;
use crate::messages;
use crate::messages::to_ascii_lower;
use crate::number;
use crate::number::{push_decimal_int, read_u32, read_u64};
use crate::text;
use crate::text::{
    chars_of, position_of, spells, split_at_char, split_lines, string_of, text_of, trimmed,
    without_leading,
};

verus! {

// ---------------------------------------------------------------------------
// Versions
// ---------------------------------------------------------------------------

/// A part of a version as a number; anything else counts as zero.
pub open spec fn part_value(s: Seq<char>) -> u32 {
    match number::parse_u32(s) {
        Some(n) => n,
        None => 0,
    }
}

/// The part of `s` before its first dash.
pub open spec fn before_dash(s: Seq<char>) -> Seq<char> {
    match text::find_char(s, '-') {
        Some(i) => s.take(i),
        None => s,
    }
}

/// The numbers of a version: without a leading `v` and without a pre-release
/// suffix, split at its dots.
pub open spec fn version_parts(v: Seq<char>) -> Seq<u32> {
    text::split(before_dash(text::trim_start_char(text::trim(v), 'v')), '.').map_values(
        |s: Seq<char>| part_value(s),
    )
}

/// Whether the numbers `a` come after the numbers `b`: the first that differs
/// decides, and of two that agree as far as one goes the longer comes after.
pub open spec fn numbers_after(a: Seq<u32>, b: Seq<u32>) -> bool
    decreases a.len(),
{
    if a.len() == 0 {
        false
    } else if b.len() == 0 {
        true
    } else if a[0] != b[0] {
        a[0] > b[0]
    } else {
        numbers_after(a.skip(1), b.skip(1))
    }
}

/// Whether version `a` is newer than version `b`.
pub open spec fn is_newer(a: Seq<char>, b: Seq<char>) -> bool {
    numbers_after(version_parts(a), version_parts(b))
}

proof fn lemma_numbers_order(a: Seq<u32>, b: Seq<u32>)
    ensures
        !(numbers_after(a, b) && numbers_after(b, a)),
        !numbers_after(a, b) && !numbers_after(b, a) <==> a == b,
    decreases a.len(),
{
    if a.len() > 0 && b.len() > 0 && a[0] == b[0] {
        lemma_numbers_order(a.skip(1), b.skip(1));
        if a.skip(1) == b.skip(1) {
            assert(a =~= seq![a[0]] + a.skip(1));
            assert(b =~= seq![b[0]] + b.skip(1));
        }
    } else if a.len() == 0 && b.len() == 0 {
        assert(a =~= b);
    }
}

proof fn lemma_numbers_transitive(a: Seq<u32>, b: Seq<u32>, c: Seq<u32>)
    requires
        numbers_after(a, b),
        numbers_after(b, c),
    ensures
        numbers_after(a, c),
    decreases a.len(),
{
    if b.len() > 0 && c.len() > 0 && a[0] == b[0] && b[0] == c[0] {
        lemma_numbers_transitive(a.skip(1), b.skip(1), c.skip(1));
    }
}

/// Of two versions at most one is newer, and neither is only if their numbers
/// are the same.
pub proof fn law_versions_are_ordered(a: Seq<char>, b: Seq<char>)
    ensures
        !(is_newer(a, b) && is_newer(b, a)),
        !is_newer(a, b) && !is_newer(b, a) <==> version_parts(a) == version_parts(b),
{
    lemma_numbers_order(version_parts(a), version_parts(b));
}

/// Newer is transitive.
pub proof fn law_newer_is_transitive(a: Seq<char>, b: Seq<char>, c: Seq<char>)
    requires
        is_newer(a, b),
        is_newer(b, c),
    ensures
        is_newer(a, c),
{
    lemma_numbers_transitive(version_parts(a), version_parts(b), version_parts(c));
}

proof fn lemma_trim_end_dash(a: Seq<char>, x: Seq<char>)
    ensures
        text::trim_end(a + seq!['-'] + x) == a + seq!['-'] + text::trim_end(x),
    decreases x.len(),
{
    let w = a + seq!['-'] + x;
    if x.len() == 0 {
        assert(w.last() == '-');
        assert(text::trim_end(x) =~= x);
    } else if text::is_space(x.last()) {
        assert(w.last() == x.last());
        assert(w.drop_last() =~= a + seq!['-'] + x.drop_last());
        lemma_trim_end_dash(a, x.drop_last());
    } else {
        assert(w.last() == x.last());
    }
}

proof fn lemma_trim_v_dash(a: Seq<char>, y: Seq<char>)
    ensures
        text::trim_start_char(a + seq!['-'] + y, 'v') == text::trim_start_char(a, 'v') + seq!['-']
            + y,
    decreases a.len(),
{
    let w = a + seq!['-'] + y;
    if a.len() > 0 && a[0] == 'v' {
        assert(w.skip(1) =~= a.skip(1) + seq!['-'] + y);
        lemma_trim_v_dash(a.skip(1), y);
    } else if a.len() == 0 {
        assert(w[0] == '-');
    }
}

proof fn lemma_before_dash(b: Seq<char>, y: Seq<char>)
    ensures
        before_dash(b + seq!['-'] + y) == before_dash(b),
{
    let w = b + seq!['-'] + y;
    text::lemma_find_char(w, '-');
    text::lemma_find_char(b, '-');
    assert(w[b.len() as int] == '-');
    let i = text::find_char(w, '-').unwrap();
    match text::find_char(b, '-') {
        Some(j) => {
            assert(w[j] == '-');
            if i < j {
                assert(b[i] == w[i]);
            }
            assert(i == j);
            assert(w.take(i) =~= b.take(i));
        },
        None => {
            if i < b.len() {
                assert(b[i] == w[i]);
            }
            assert(i == b.len());
            assert(w.take(i) =~= b);
        },
    }
}

proof fn lemma_trim_start_dash(a: Seq<char>, x: Seq<char>)
    ensures
        text::trim_start(a + seq!['-'] + x) == text::trim_start(a) + seq!['-'] + x,
    decreases a.len(),
{
    let w = a + seq!['-'] + x;
    if a.len() == 0 {
        assert(w[0] == '-');
    } else if text::is_space(a[0]) {
        assert(w[0] == a[0]);
        assert(w.skip(1) =~= a.skip(1) + seq!['-'] + x);
        lemma_trim_start_dash(a.skip(1), x);
    } else {
        assert(w[0] == a[0]);
    }
}

/// A text that does not end in white space still does not once its start is
/// trimmed.
proof fn lemma_trim_start_end(a: Seq<char>)
    requires
        a.len() > 0,
        !text::is_space(a.last()),
    ensures
        text::trim_start(a).len() > 0,
        !text::is_space(text::trim_start(a).last()),
    decreases a.len(),
{
    if text::is_space(a[0]) {
        assert(a.len() > 1);
        assert(a.skip(1).last() == a.last());
        lemma_trim_start_end(a.skip(1));
    }
}

/// A pre-release suffix makes no difference to a version that does not end
/// in white space.
pub proof fn law_prerelease_is_ignored(a: Seq<char>, x: Seq<char>)
    requires
        a.len() == 0 || !text::is_space(a.last()),
    ensures
        version_parts(a + seq!['-'] + x) == version_parts(a),
{
    let start = text::trim_start(a);
    let y = text::trim_end(x);
    lemma_trim_start_dash(a, x);
    lemma_trim_end_dash(start, x);
    if a.len() > 0 {
        lemma_trim_start_end(a);
    }
    assert(text::trim(a) == start);
    lemma_trim_v_dash(start, y);
    lemma_before_dash(text::trim_start_char(start, 'v'), y);
}

fn read_parts(v: &[char]) -> (r: Vec<u32>)
    ensures
        r@ == version_parts(v@),
{
    let core = without_leading(trimmed(v), 'v');
    let plain: &[char] = match position_of(core, '-') {
        Some(i) => {
            let p = slice_subrange(core, 0, i);
            assert(p@ =~= core@.take(i as int));
            p
        },
        None => core,
    };
    let parts = split_at_char(plain, '.');
    let ghost ps = text::split(plain@, '.');
    let mut r: Vec<u32> = Vec::new();
    let mut i: usize = 0;
    while i < parts.len()
        invariant
            i <= parts@.len(),
            ps == text::pieces(parts@),
            r@.len() == i,
            forall|k: int| 0 <= k < i ==> (#[trigger] r@[k]) == part_value(ps[k]),
        decreases parts@.len() - i,
    {
        assert(ps[i as int] == parts@[i as int]@);
        let n: u32 = match read_u32(parts[i]) {
            Some(n) => n,
            None => 0,
        };
        r.push(n);
        i += 1;
    }
    assert(r@ =~= version_parts(v@));
    r
}

fn is_after(a: &Vec<u32>, b: &Vec<u32>) -> (r: bool)
    ensures
        r == numbers_after(a@, b@),
{
    let mut i: usize = 0;
    assert(a@.skip(0) =~= a@);
    assert(b@.skip(0) =~= b@);
    while i < a.len() && i < b.len() && a[i] == b[i]
        invariant
            i <= a@.len(),
            i <= b@.len(),
            numbers_after(a@, b@) == numbers_after(a@.skip(i as int), b@.skip(i as int)),
        decreases a@.len() - i,
    {
        assert(a@.skip(i as int).skip(1) =~= a@.skip(i + 1));
        assert(b@.skip(i as int).skip(1) =~= b@.skip(i + 1));
        i += 1;
    }
    if i >= a.len() {
        false
    } else if i >= b.len() {
        true
    } else {
        a[i] > b[i]
    }
}

/// Whether version `a` is newer than version `b`.
pub fn version_gt(a: &str, b: &str) -> (r: bool)
    ensures
        r == is_newer(a@, b@),
{
    let x = chars_of(a);
    let y = chars_of(b);
    let p = read_parts(x.as_slice());
    let q = read_parts(y.as_slice());
    is_after(&p, &q)
}

// ---------------------------------------------------------------------------
// The cache
// ---------------------------------------------------------------------------

/// How long a cached version counts as fresh.
pub const UPDATE_CACHE_TTL_SECS: u64 = 86400;

/// Line `i` of a cache file, trimmed; empty if there is none.
pub open spec fn cache_line(cache: Seq<char>, i: int) -> Seq<char> {
    let ls = text::lines(cache);
    if i < ls.len() {
        text::trim(ls[i])
    } else {
        Seq::empty()
    }
}

/// Whether the cache was written less than a day before `now`.
pub open spec fn is_fresh(cache: Option<Seq<char>>, now: Option<u64>) -> bool {
    match (cache, now) {
        (Some(c), Some(now)) => match number::parse_u64(cache_line(c, 0)) {
            Some(ts) => ts <= now && now - ts < UPDATE_CACHE_TTL_SECS,
            None => false,
        },
        _ => false,
    }
}

/// The version that the cache records, if it is newer than `current`.
pub open spec fn newer_version(cache: Option<Seq<char>>, current: Seq<char>) -> Option<Seq<char>> {
    match cache {
        Some(c) => if cache_line(c, 1).len() > 0 && is_newer(cache_line(c, 1), current) {
            Some(cache_line(c, 1))
        } else {
            None
        },
        None => None,
    }
}

/// What the cache says.
#[derive(Debug, PartialEq, Eq)]
pub struct CacheState {
    /// Whether it need not be refreshed.
    pub fresh: bool,
    /// The newer version that it records.
    pub latest: Option<String>,
}

/// The contents of an optional file.
pub open spec fn file_view(f: Option<&str>) -> Option<Seq<char>> {
    match f {
        Some(s) => Some(s@),
        None => None,
    }
}

fn read_cache_line(cache: &[char], i: usize) -> (r: &[char])
    ensures
        r@ == cache_line(cache@, i as int),
{
    let lines = split_lines(cache);
    assert(text::pieces(lines@).len() == lines@.len());
    if i < lines.len() {
        assert(text::lines(cache@)[i as int] == lines@[i as int]@);
        trimmed(lines[i])
    } else {
        let none = slice_subrange(cache, 0, 0);
        assert(none@ =~= Seq::<char>::empty());
        none
    }
}

/// Reads the cache file. `now` is the time in seconds, if the clock tells it,
/// and `current` the version of this program.
pub fn read_cache(cache: Option<&str>, now: Option<u64>, current: &str) -> (r: CacheState)
    ensures
        r.fresh == is_fresh(file_view(cache), now),
        crate::model::opt_view(r.latest) == newer_version(file_view(cache), current@),
{
    match cache {
        None => CacheState { fresh: false, latest: None },
        Some(c) => {
            let cs = chars_of(c);
            let stamp = read_cache_line(cs.as_slice(), 0);
            let version = read_cache_line(cs.as_slice(), 1);
            let fresh: bool = match (read_u64(stamp), now) {
                (Some(ts), Some(t)) => ts <= t && t - ts < UPDATE_CACHE_TTL_SECS,
                _ => false,
            };
            let latest = string_of(version);
            if version.len() > 0 && version_gt(latest.as_str(), current) {
                CacheState { fresh, latest: Some(latest) }
            } else {
                CacheState { fresh, latest: None }
            }
        },
    }
}

/// What is written to the cache file as a time stamp and a version, each on
/// its line, is read back from it.
pub proof fn law_cache_reads_back(ts: u64, version: Seq<char>, now: Option<u64>, current: Seq<char>)
    requires
        version.len() > 0 ==> !text::is_space(version[0]) && !text::is_space(version.last()),
        !version.contains('\n'),
    ensures
        ({
            let cache = Some(number::decimal(ts as nat) + "\n"@ + version + "\n"@);
            &&& is_fresh(cache, now) == (match now {
                Some(now) => ts <= now && now - ts < UPDATE_CACHE_TTL_SECS,
                None => false,
            })
            &&& newer_version(cache, current) == if is_newer(version, current) {
                Some(version)
            } else {
                None
            }
        }),
{
    reveal_strlit("\n");
    let stamp = number::decimal(ts as nat);
    number::law_decimal_reads_back(ts as nat);
    number::lemma_decimal_digits(ts as nat);
    let cache = stamp + "\n"@ + version + "\n"@;
    let rest = version + "\n"@;
    assert(cache =~= stamp + seq!['\n'] + rest);
    assert(number::is_digit(stamp[0]));
    assert(number::is_digit(stamp[stamp.len() - 1]));
    assert(!stamp.contains('\n')) by {
        if stamp.contains('\n') {
            let i = choose|i: int| 0 <= i < stamp.len() && stamp[i] == '\n';
            assert(number::is_digit(stamp[i]));
        }
    }
    lemma_line_head(stamp, rest);
    assert(rest =~= version + seq!['\n'] + Seq::<char>::empty());
    lemma_line_head(version, Seq::empty());
    assert(text::lines(cache) =~= seq![stamp] + text::lines(rest));
    assert(text::lines(rest)[0] == version);
    assert(text::lines(cache)[0] == stamp);
    assert(text::lines(cache)[1] == version);
    assert(text::trim(stamp) == stamp);
    if version.len() == 0 {
        lemma_nothing_is_no_version(version, current);
        assert(text::trim(version).len() == 0);
    } else {
        assert(text::trim(version) == version);
    }
}

/// No version is newer than any other.
proof fn lemma_nothing_is_no_version(none: Seq<char>, current: Seq<char>)
    requires
        none.len() == 0,
    ensures
        !is_newer(none, current),
{
    let a = version_parts(none);
    let b = version_parts(current);
    assert(text::find_char(none, '-') is None);
    assert(text::find_char(none, '.') is None);
    assert(part_value(none) == 0);
    assert(a =~= seq![0u32]);
    assert(b.len() > 0);
    assert(!numbers_after(a.skip(1), b.skip(1)));
}

/// A text up to a line feed is the first line.
proof fn lemma_line_head(head: Seq<char>, rest: Seq<char>)
    requires
        head.len() > 0 ==> !text::is_space(head.last()),
        !head.contains('\n'),
    ensures
        text::lines(head + seq!['\n'] + rest) == seq![head] + text::lines(rest),
{
    let s = head + seq!['\n'] + rest;
    text::lemma_find_char(s, '\n');
    assert(s[head.len() as int] == '\n');
    let i = text::find_char(s, '\n').unwrap();
    if i < head.len() {
        assert(s[i] == head[i]);
    }
    assert(i == head.len());
    assert(s.take(i) =~= head);
    assert(s.skip(i + 1) =~= rest);
    assert(text::strip_cr(head) == head);
}

// ---------------------------------------------------------------------------
// The notice
// ---------------------------------------------------------------------------

/// Where new versions come from.
pub open spec fn repository() -> Seq<char> {
    "https://github.com/Bae-ChangHyun/lport"@
}

/// Where new versions come from.
pub fn update_repo() -> (r: &'static str)
    ensures
        r@ == repository(),
{
    "https://github.com/Bae-ChangHyun/lport"
}

/// What is shown when there is a newer version.
#[derive(Debug, PartialEq, Eq)]
pub struct Notice {
    /// The text, line feeds included.
    pub text: String,
    /// Whether the text is a question, so that an answer is read.
    pub asks: bool,
}

/// The mark before the notice, in colour on a terminal.
pub open spec fn mark(colour: bool) -> Seq<char> {
    if colour {
        "\x1b[33m●\x1b[0m"@
    } else {
        "*"@
    }
}

/// The line that tells of a newer version.
pub open spec fn available_text(current: Seq<char>, latest: Seq<char>, colour: bool) -> Seq<char> {
    mark(colour) + "  update available: lport "@ + current + " → "@ + latest
}

/// The notice. It is a question only where both ends of the conversation and
/// the output are terminals.
pub open spec fn notice_text(
    current: Seq<char>,
    latest: Seq<char>,
    colour: bool,
    asks: bool,
) -> Seq<char> {
    if asks {
        "\n"@ + available_text(current, latest, colour) + "   install now? "@ + "\x1b[1m[y/N]\x1b[0m"@
            + " "@
    } else {
        "\n"@ + available_text(current, latest, colour) + "\n   install: cargo install --git "@
            + repository() + " --force\n"@
    }
}

/// Writes the notice of a newer version, given which of the three standard
/// streams are terminals.
pub fn update_notice(
    current: &str,
    latest: &str,
    stdin_tty: bool,
    stdout_tty: bool,
    stderr_tty: bool,
) -> (r: Notice)
    ensures
        r.asks == (stdin_tty && stdout_tty && stderr_tty),
        r.text@ == notice_text(current@, latest@, stderr_tty, r.asks),
{
    let asks: bool = stdin_tty && stdout_tty && stderr_tty;
    let mut line = if stderr_tty {
        "\x1b[33m●\x1b[0m".to_owned()
    } else {
        "*".to_owned()
    };
    line.append("  update available: lport ");
    line.append(current);
    line.append(" → ");
    line.append(latest);
    let mut s = "\n".to_owned();
    s.append(line.as_str());
    if asks {
        s.append("   install now? ");
        s.append("\x1b[1m[y/N]\x1b[0m");
        s.append(" ");
    } else {
        s.append("\n   install: cargo install --git ");
        s.append(update_repo());
        s.append(" --force\n");
    }
    Notice { text: s, asks }
}

/// Whether the answer to the notice asks for the update.
pub open spec fn is_update_wanted(answer: Seq<char>) -> bool {
    let a = messages::ascii_lower(text::trim(answer));
    a == "y"@ || a == "yes"@
}

/// Whether the answer to the notice asks for the update, in capitals or not.
pub fn wants_update(answer: &str) -> (r: bool)
    ensures
        r == is_update_wanted(answer@),
{
    let cs = chars_of(answer);
    let low = to_ascii_lower(trimmed(cs.as_slice()));
    spells(low.as_slice(), "y") || spells(low.as_slice(), "yes")
}

/// How the installation ended.
#[derive(Debug, PartialEq, Eq)]
pub enum InstallOutcome {
    Updated,
    Failed { code: Option<i32> },
    NotSpawned { message: String },
}

/// The line above the output of the installation.
pub open spec fn install_start_text() -> Seq<char> {
    "\n==> cargo install --git "@ + repository() + " --force\n"@
}

/// What is printed when the installation has ended.
pub open spec fn install_end_text(outcome: InstallOutcome) -> Seq<char> {
    match outcome {
        InstallOutcome::Updated => "==> lport updated. Re-run to use the new version.\n"@,
        InstallOutcome::Failed { code } => "==> cargo install exited with status "@ + (match code {
            Some(c) => number::decimal_int(c as int),
            None => "?"@,
        }) + ".\n"@,
        InstallOutcome::NotSpawned { message } => "==> failed to spawn cargo: "@ + message@
            + ".\n    is the Rust toolchain installed and on PATH?\n"@,
    }
}

/// Writes the line above the output of the installation.
pub fn install_start() -> (r: String)
    ensures
        r@ == install_start_text(),
{
    let mut s = "\n==> cargo install --git ".to_owned();
    s.append(update_repo());
    s.append(" --force\n");
    s
}

/// Writes what is printed when the installation has ended.
pub fn install_end(outcome: &InstallOutcome) -> (r: String)
    ensures
        r@ == install_end_text(*outcome),
{
    match outcome {
        InstallOutcome::Updated => "==> lport updated. Re-run to use the new version.\n".to_owned(),
        InstallOutcome::Failed { code } => {
            let mut s = "==> cargo install exited with status ".to_owned();
            match code {
                Some(c) => push_decimal_int(&mut s, *c),
                None => s.append("?"),
            }
            s.append(".\n");
            s
        },
        InstallOutcome::NotSpawned { message } => {
            let mut s = "==> failed to spawn cargo: ".to_owned();
            s.append(message.as_str());
            s.append(".\n    is the Rust toolchain installed and on PATH?\n");
            s
        },
    }
}

// ---------------------------------------------------------------------------
// Where the cache is, and how it is refreshed
// ---------------------------------------------------------------------------

/// The bytes of a path component.
pub open spec fn component(name: Seq<char>) -> Seq<u8> {
    vstd::utf8::encode_utf8(name)
}

/// The path of `name` in the directory `base`.
pub open spec fn path_in(base: Seq<u8>, name: Seq<char>) -> Seq<u8> {
    if base.len() == 0 || base.last() == 0x2f {
        base + component(name)
    } else {
        base.push(0x2f) + component(name)
    }
}

/// The directory of the cache: below `XDG_CACHE_HOME`, or else below `.cache`
/// in the home directory.
pub open spec fn cache_dir_of(xdg: Option<Seq<u8>>, home: Option<Seq<u8>>) -> Option<Seq<u8>> {
    match (xdg, home) {
        (Some(x), _) => Some(path_in(x, "lport"@)),
        (None, Some(h)) => Some(path_in(path_in(h, ".cache"@), "lport"@)),
        (None, None) => None,
    }
}

/// The place of the cache file.
#[derive(Debug, PartialEq, Eq)]
pub struct CachePath {
    pub dir: Vec<u8>,
    pub file: Vec<u8>,
}

/// The contents of an optional path.
pub open spec fn bytes_view(b: Option<&[u8]>) -> Option<Seq<u8>> {
    match b {
        Some(s) => Some(s@),
        None => None,
    }
}

fn push_bytes(path: &mut Vec<u8>, bytes: &[u8])
    ensures
        final(path)@ == old(path)@ + bytes@,
{
    let ghost start = path@;
    let mut i: usize = 0;
    while i < bytes.len()
        invariant
            i <= bytes@.len(),
            path@ =~= start + bytes@.take(i as int),
        decreases bytes@.len() - i,
    {
        path.push(bytes[i]);
        i += 1;
    }
    assert(bytes@.take(i as int) =~= bytes@);
}

fn push_component(path: &mut Vec<u8>, name: &str)
    ensures
        final(path)@ == path_in(old(path)@, name@),
{
    let n: usize = path.len();
    if n > 0 && path[n - 1] != 0x2f {
        path.push(0x2f);
    }
    push_bytes(path, name.as_bytes());
}

/// Finds the place of the cache from the values of `XDG_CACHE_HOME` and
/// `HOME`.
pub fn update_cache_path(xdg: Option<&[u8]>, home: Option<&[u8]>) -> (r: Option<CachePath>)
    ensures
        match r {
            Some(p) => cache_dir_of(bytes_view(xdg), bytes_view(home)) == Some(p.dir@) && p.file@
                == path_in(p.dir@, "update-check"@),
            None => cache_dir_of(bytes_view(xdg), bytes_view(home)) is None,
        },
{
    let mut dir: Vec<u8> = Vec::new();
    match (xdg, home) {
        (Some(x), _) => {
            push_bytes(&mut dir, x);
            assert(dir@ =~= x@);
        },
        (None, Some(h)) => {
            push_bytes(&mut dir, h);
            assert(dir@ =~= h@);
            push_component(&mut dir, ".cache");
        },
        (None, None) => {
            return None;
        },
    }
    push_component(&mut dir, "lport");
    let mut file: Vec<u8> = Vec::new();
    push_bytes(&mut file, dir.as_slice());
    assert(file@ =~= dir@);
    push_component(&mut file, "update-check");
    Some(CachePath { dir, file })
}

/// What stands for `c` between single quotes of a shell.
pub open spec fn quoted_char(c: char) -> Seq<char> {
    if c == '\'' {
        "'\\''"@
    } else {
        seq![c]
    }
}

/// What stands for `s` between single quotes of a shell.
pub open spec fn quoted(s: Seq<char>) -> Seq<char>
    decreases s.len(),
{
    if s.len() == 0 {
        Seq::empty()
    } else {
        quoted(s.drop_last()) + quoted_char(s.last())
    }
}

/// What a shell makes of a word of single-quoted parts and escaped
/// characters; `open` says whether a quote is open where `s` starts.
pub open spec fn shell_word(s: Seq<char>, open: bool) -> Option<Seq<char>>
    decreases s.len(),
{
    if s.len() == 0 {
        if open {
            None
        } else {
            Some(Seq::empty())
        }
    } else if s[0] == '\'' {
        shell_word(s.skip(1), !open)
    } else if open {
        match shell_word(s.skip(1), true) {
            Some(rest) => Some(seq![s[0]] + rest),
            None => None,
        }
    } else if s[0] == '\\' && s.len() > 1 {
        match shell_word(s.skip(2), false) {
            Some(rest) => Some(seq![s[1]] + rest),
            None => None,
        }
    } else {
        None
    }
}

proof fn lemma_quoted_front(c: char, s: Seq<char>)
    ensures
        quoted(seq![c] + s) == quoted_char(c) + quoted(s),
    decreases s.len(),
{
    let w = seq![c] + s;
    if s.len() == 0 {
        assert(w.drop_last() =~= Seq::<char>::empty());
        assert(quoted(w.drop_last()) =~= Seq::<char>::empty());
        assert(w.last() == c);
        assert(quoted(w) =~= quoted_char(c) + quoted(s));
    } else {
        lemma_quoted_front(c, s.drop_last());
        assert(w.drop_last() =~= seq![c] + s.drop_last());
        assert(quoted(w) =~= quoted_char(c) + quoted(s));
    }
}

proof fn lemma_quoted_reads_back(s: Seq<char>)
    ensures
        shell_word(quoted(s) + seq!['\''], true) == Some(s),
    decreases s.len(),
{
    if s.len() == 0 {
        let w = quoted(s) + seq!['\''];
        assert(w =~= seq!['\'']);
        assert(w.skip(1) =~= Seq::<char>::empty());
        assert(shell_word(w.skip(1), false) == Some(Seq::<char>::empty()));
        assert(s =~= Seq::<char>::empty());
    } else {
        let c = s[0];
        let rest = s.skip(1);
        lemma_quoted_reads_back(rest);
        lemma_quoted_front(c, rest);
        assert(s =~= seq![c] + rest);
        let tail = quoted(rest) + seq!['\''];
        let w = quoted(s) + seq!['\''];
        assert(w =~= quoted_char(c) + tail);
        if c == '\'' {
            reveal_strlit("'\\''");
            assert(w[0] == '\'' && w[1] == '\\' && w[2] == '\'' && w[3] == '\'');
            let v = w.skip(1);
            assert(v[0] == '\\' && v[1] == '\'');
            let u = v.skip(2);
            assert(u[0] == '\'');
            assert(u.skip(1) =~= tail);
            assert(shell_word(u, false) == Some(rest));
            assert(shell_word(v, false) == Some(seq![c] + rest));
        } else {
            assert(w[0] == c);
            assert(w.skip(1) =~= tail);
        }
    }
}

/// A path between single quotes reaches the shell as it is, whatever it
/// holds.
pub proof fn law_shell_receives_the_path(s: Seq<char>)
    ensures
        shell_word(seq!['\''] + quoted(s) + seq!['\''], false) == Some(s),
{
    lemma_quoted_reads_back(s);
    let w = seq!['\''] + quoted(s) + seq!['\''];
    assert(w.skip(1) =~= quoted(s) + seq!['\'']);
}

fn push_quoted(out: &mut String, s: &str)
    ensures
        final(out)@ == old(out)@ + quoted(s@),
{
    let ghost start = out@;
    let cs = chars_of(s);
    let mut i: usize = 0;
    assert(s@.take(0) =~= Seq::<char>::empty());
    assert(start + quoted(s@.take(0)) =~= start);
    while i < cs.len()
        invariant
            cs@ == s@,
            i <= cs@.len(),
            out@ == start + quoted(s@.take(i as int)),
        decreases cs@.len() - i,
    {
        let c = cs[i];
        assert(s@.take(i + 1).drop_last() =~= s@.take(i as int));
        assert(s@.take(i + 1).last() == c);
        if c == '\'' {
            out.append("'\\''");
        } else {
            out.push(c);
        }
        assert(out@ =~= start + quoted(s@.take(i + 1)));
        i += 1;
    }
    assert(s@.take(i as int) =~= s@);
}

/// The shell script that fetches the latest version and writes it to the
/// cache file, with the time.
pub open spec fn script_text(dir: Seq<char>, file: Seq<char>) -> Seq<char> {
    "v=$(curl -fsSL --max-time 5 https://raw.githubusercontent.com/Bae-ChangHyun/lport/main/Cargo.toml 2>/dev/null | awk -F'\"' '/^version[[:space:]]*=/ {print $2; exit}'); if [ -n \"$v\" ]; then mkdir -p '"@
        + quoted(dir) + "' && printf '%s\\n%s\\n' \"$(date +%s)\" \"$v\" > '"@ + quoted(file)
        + "'; fi"@
}

/// Writes the refresh script for paths given as text.
pub fn script_for(dir: &str, file: &str) -> (r: String)
    ensures
        r@ == script_text(dir@, file@),
{
    let mut s =
        "v=$(curl -fsSL --max-time 5 https://raw.githubusercontent.com/Bae-ChangHyun/lport/main/Cargo.toml 2>/dev/null | awk -F'\"' '/^version[[:space:]]*=/ {print $2; exit}'); if [ -n \"$v\" ]; then mkdir -p '".to_owned();
    push_quoted(&mut s, dir);
    s.append("' && printf '%s\\n%s\\n' \"$(date +%s)\" \"$v\" > '");
    push_quoted(&mut s, file);
    s.append("'; fi");
    s
}

/// Writes the script that refreshes the cache at `path`.
pub fn refresh_script(path: &CachePath) -> (r: String)
    ensures
        r@ == script_text(text::utf8_lossy(path.dir@), text::utf8_lossy(path.file@)),
{
    let dir = text_of(path.dir.as_slice());
    let file = text_of(path.file.as_slice());
    script_for(dir.as_str(), file.as_str())
}

} // verus!
