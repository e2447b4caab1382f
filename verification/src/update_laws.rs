//! What holds of versions and of the update notice.

use vstd::prelude::*;
use crate::messages;
use crate::number;
use crate::socket_laws;
use crate::text;
use crate::text_laws;
use crate::update;

verus! {

/// The version with the numbers `ns` as it is written.
pub open spec fn version_text(ns: Seq<u32>) -> Seq<char> {
    text_laws::joined_by(ns.map_values(|n: u32| number::decimal(n as nat)), '.')
}

proof fn lemma_version_text(ns: Seq<u32>)
    requires
        ns.len() > 0,
    ensures
        version_text(ns).len() > 0,
        '0' <= version_text(ns)[0] <= '9',
        '0' <= version_text(ns).last() <= '9',
        forall|i: int|
            0 <= i < version_text(ns).len() ==> '0' <= #[trigger] version_text(ns)[i] <= '9'
                || version_text(ns)[i] == '.',
    decreases ns.len(),
{
    let f = |n: u32| number::decimal(n as nat);
    let ds = ns.map_values(f);
    let d = ds[0];
    text_laws::law_numbers_read_back(ns[0] as nat);
    assert('0' <= d[0] <= '9');
    assert('0' <= d[d.len() - 1] <= '9');
    if ns.len() > 1 {
        let rest = ns.skip(1);
        lemma_version_text(rest);
        assert(ds.skip(1) =~= rest.map_values(f));
        let t = version_text(ns);
        let r = version_text(rest);
        assert(t == d + seq!['.'] + r);
        assert(t[t.len() - 1] == r[r.len() - 1]);
        assert forall|i: int| 0 <= i < t.len() implies '0' <= #[trigger] t[i] <= '9' || t[i]
            == '.' by {
            if i < d.len() {
                assert(t[i] == d[i]);
            } else if i > d.len() {
                assert(t[i] == r[i - d.len() - 1]);
            }
        }
    }
}

/// The numbers of a version are read back from it, with or without a leading
/// `v`, a pre-release suffix and white space around it.
pub proof fn law_version_reads_back(
    ns: Seq<u32>,
    before: Seq<char>,
    behind: Seq<char>,
    suffix: Seq<char>,
)
    requires
        ns.len() > 0,
        text_laws::blank(before),
        text_laws::blank(behind),
    ensures
        update::version_parts(before + version_text(ns) + behind) == ns,
        update::version_parts(before + (seq!['v'] + version_text(ns)) + behind) == ns,
        update::version_parts(version_text(ns) + seq!['-'] + suffix) == ns,
{
    let f = |n: u32| number::decimal(n as nat);
    let ds = ns.map_values(f);
    let t = version_text(ns);
    lemma_version_text(ns);
    let v = seq!['v'] + t;
    assert(v[0] == 'v' && v.last() == t.last());
    text_laws::law_trim(before, t, behind);
    text_laws::law_trim(before, v, behind);
    assert(v.skip(1) =~= t);
    assert(text::trim_start_char(t, 'v') == t);
    assert(text::trim_start_char(v, 'v') == t);
    assert(!t.contains('-')) by {
        if t.contains('-') {
            let i = choose|i: int| 0 <= i < t.len() && t[i] == '-';
            assert('0' <= t[i] <= '9' || t[i] == '.');
        }
    }
    text_laws::lemma_none(t, '-');
    assert forall|i: int| 0 <= i < ds.len() implies !(#[trigger] ds[i]).contains('.') by {
        socket_laws::lemma_decimal_lacks(ns[i] as nat, '.');
    }
    text_laws::law_split_reads_back(ds, '.');
    let r = update::version_parts(before + t + behind);
    assert(r =~= ns) by {
        assert(r.len() == ds.len());
        assert forall|i: int| 0 <= i < ns.len() implies r[i] == ns[i] by {
            text_laws::law_numbers_read_back(ns[i] as nat);
            assert(r[i] == update::part_value(ds[i]));
        }
    }
    let none = Seq::<char>::empty();
    text_laws::law_trim(none, t, none);
    assert(none + t + none =~= t);
    update::law_prerelease_is_ignored(t, suffix);
}

proof fn lemma_first_number_decides(p: Seq<u32>, x: u32, a: Seq<u32>, y: u32, b: Seq<u32>)
    ensures
        x != y ==> update::numbers_after(p + seq![x] + a, p + seq![y] + b) == (x > y),
        update::numbers_after(p + seq![x] + a, p),
        !update::numbers_after(p, p + a),
    decreases p.len(),
{
    let (s, t) = (p + seq![x] + a, p + seq![y] + b);
    if p.len() > 0 {
        let q = p.skip(1);
        lemma_first_number_decides(q, x, a, y, b);
        assert(s.skip(1) =~= q + seq![x] + a);
        assert(t.skip(1) =~= q + seq![y] + b);
        assert((p + a).skip(1) =~= q + a);
        assert(s[0] == p[0] && t[0] == p[0] && (p + a)[0] == p[0]);
    } else {
        assert(s[0] == x && t[0] == y);
    }
}

/// The first number in which two versions differ decides which is newer, a
/// version with more numbers is newer than its beginning, and no version is
/// newer than itself.
pub proof fn law_first_number_decides(p: Seq<u32>, x: u32, a: Seq<u32>, y: u32, b: Seq<u32>)
    ensures
        x != y ==> update::is_newer(
            version_text(p + seq![x] + a),
            version_text(p + seq![y] + b),
        ) == (x > y),
        p.len() > 0 ==> update::is_newer(version_text(p + seq![x] + a), version_text(p)),
        p.len() > 0 ==> !update::is_newer(version_text(p), version_text(p + a)),
{
    lemma_first_number_decides(p, x, a, y, b);
    lemma_plain_version(p + seq![x] + a);
    lemma_plain_version(p + seq![y] + b);
    if p.len() > 0 {
        lemma_plain_version(p);
        lemma_plain_version(p + a);
    }
}

proof fn lemma_plain_version(ns: Seq<u32>)
    requires
        ns.len() > 0,
    ensures
        update::version_parts(version_text(ns)) == ns,
{
    let none = Seq::<char>::empty();
    law_version_reads_back(ns, none, none, none);
    assert(none + version_text(ns) + none =~= version_text(ns));
}

/// What the cache records counts for a day, and not before it was recorded.
pub proof fn law_cache_counts_for_a_day(ts: u64, now: u64, ns: Seq<u32>)
    requires
        ns.len() > 0,
    ensures
        ({
            let cache = Some(number::decimal(ts as nat) + "\n"@ + version_text(ns) + "\n"@);
            update::is_fresh(cache, Some(now)) == (ts <= now < ts + 24 * 60 * 60)
        }),
        !update::is_fresh(None, Some(now)),
{
    let v = version_text(ns);
    lemma_version_text(ns);
    assert(!text::is_space(v[0]) && !text::is_space(v.last()));
    assert(!v.contains('\n')) by {
        if v.contains('\n') {
            let i = choose|i: int| 0 <= i < v.len() && v[i] == '\n';
            assert('0' <= v[i] <= '9' || v[i] == '.');
        }
    }
    update::law_cache_reads_back(ts, v, Some(now), v);
}

/// An update is installed for a yes in small or capital letters, spelled out
/// or not, and for nothing else.
pub proof fn law_update_answer(before: Seq<char>, a: Seq<char>, behind: Seq<char>)
    requires
        text_laws::blank(before),
        text_laws::blank(behind),
        a.len() > 0 ==> !text::is_space(a[0]) && !text::is_space(a.last()),
    ensures
        update::is_update_wanted(before + a + behind) == {
            ||| a.len() == 1 && (a[0] == 'y' || a[0] == 'Y')
            ||| a.len() == 3 && (a[0] == 'y' || a[0] == 'Y') && (a[1] == 'e' || a[1] == 'E') && (
            a[2] == 's' || a[2] == 'S')
        },
{
    reveal_strlit("y");
    reveal_strlit("yes");
    text_laws::law_trim(before, a, behind);
    let low = messages::ascii_lower(a);
    assert(low.len() == a.len());
    if a.len() == 1 {
        lemma_lower(a, 0, 'y', 'Y');
        if low[0] == 'y' {
            assert(low =~= "y"@);
        }
    } else if a.len() == 3 {
        lemma_lower(a, 0, 'y', 'Y');
        lemma_lower(a, 1, 'e', 'E');
        lemma_lower(a, 2, 's', 'S');
        if low[0] == 'y' && low[1] == 'e' && low[2] == 's' {
            assert(low =~= "yes"@);
        }
    }
}

/// A letter is small after a text was made small exactly if it was that
/// letter, small or capital.
proof fn lemma_lower(a: Seq<char>, i: int, small: char, capital: char)
    requires
        0 <= i < a.len(),
        'a' <= small <= 'z',
        capital as u32 + 32 == small as u32,
    ensures
        messages::ascii_lower(a)[i] == small <==> a[i] == small || a[i] == capital,
{
    let c = a[i];
    if 'A' <= c <= 'Z' {
        assert((c as u32 + 32) as char as u32 == c as u32 + 32);
    }
}

/// The bytes of `/lport`.
pub open spec fn lport_bytes() -> Seq<u8> {
    seq![0x2fu8, 0x6cu8, 0x70u8, 0x6fu8, 0x72u8, 0x74u8]
}

/// The bytes of `/.cache`.
pub open spec fn cache_bytes() -> Seq<u8> {
    seq![0x2fu8, 0x2eu8, 0x63u8, 0x61u8, 0x63u8, 0x68u8, 0x65u8]
}

/// The cache is in `lport` below `XDG_CACHE_HOME`, else in `lport` below
/// `.cache` in the home directory, else nowhere; a slash is put between the
/// names unless there is one.
pub proof fn law_cache_place(x: Seq<u8>, h: Seq<u8>, home: Option<Seq<u8>>)
    requires
        x.len() > 0 && x.last() != 0x2f,
        h.len() > 0 && h.last() != 0x2f,
    ensures
        update::cache_dir_of(Some(x), home) == Some(x + lport_bytes()),
        update::cache_dir_of(Some(x.push(0x2f)), home) == Some(x + lport_bytes()),
        update::cache_dir_of(None, Some(h)) == Some(h + cache_bytes() + lport_bytes()),
        update::cache_dir_of(None, Some(h.push(0x2f))) == Some(h + cache_bytes() + lport_bytes()),
        update::cache_dir_of(None, None) is None,
{
    reveal_strlit("lport");
    reveal_strlit(".cache");
    let c = update::component(".cache"@);
    let l = update::component("lport"@);
    assert(vstd::utf8::is_ascii_chars("lport"@));
    assert(vstd::utf8::is_ascii_chars(".cache"@));
    vstd::utf8::is_ascii_chars_encode_utf8("lport"@);
    vstd::utf8::is_ascii_chars_encode_utf8(".cache"@);
    assert(l =~= lport_bytes().skip(1));
    assert(c =~= cache_bytes().skip(1));
    assert(x.push(0x2f) + l =~= x + lport_bytes());
    let d = h.push(0x2f) + c;
    assert(d.last() == c.last());
    assert(d.push(0x2f) + l =~= h + cache_bytes() + lport_bytes());
}

/// A part of a version that is no number counts as zero.
pub proof fn law_unreadable_part_is_zero(s: Seq<char>, i: int)
    ensures
        0 < i < s.len() && !('0' <= s[i] <= '9') ==> update::part_value(s) == 0,
        s.len() == 0 ==> update::part_value(s) == 0,
{
    if number::parse_u32(s) is Some {
        text_laws::law_only_digits_are_numbers(s);
    }
}

/// Whether `s` is made of spaces and tabs.
pub open spec fn is_padding(s: Seq<char>) -> bool {
    forall|i: int| 0 <= i < s.len() ==> (#[trigger] s[i] == ' ' || s[i] == '\t')
}

/// Spaces around the lines of the cache make no difference, and a stamp that
/// is no number is never fresh.
pub proof fn law_cache_lines_are_trimmed(
    a: Seq<char>,
    stamp: Seq<char>,
    b: Seq<char>,
    ns: Seq<u32>,
    current: Seq<char>,
    now: u64,
)
    requires
        is_padding(a),
        is_padding(b),
        stamp.len() > 0,
        !text::is_space(stamp[0]) && !text::is_space(stamp.last()),
        !stamp.contains('\n'),
        ns.len() > 0,
    ensures
        ({
            let first = a + stamp + b;
            let second = a + version_text(ns) + b;
            let cache = first + seq!['\n'] + second + seq!['\n'];
            &&& number::parse_u64(stamp) is None ==> !update::is_fresh(Some(cache), Some(now))
            &&& number::parse_u64(stamp) is Some ==> update::is_fresh(Some(cache), Some(now)) == (
            number::parse_u64(stamp).unwrap() <= now < number::parse_u64(stamp).unwrap() + 24 * 60
                * 60)
            &&& update::newer_version(Some(cache), current) == if update::is_newer(
                version_text(ns),
                current,
            ) {
                Some(version_text(ns))
            } else {
                None
            }
        }),
{
    let v = version_text(ns);
    let first = a + stamp + b;
    let second = a + v + b;
    let cache = first + seq!['\n'] + second + seq!['\n'];
    lemma_version_text(ns);
    lemma_padding(a);
    lemma_padding(b);
    assert(!v.contains('\n')) by {
        if v.contains('\n') {
            let i = choose|i: int| 0 <= i < v.len() && v[i] == '\n';
            assert('0' <= v[i] <= '9' || v[i] == '.');
        }
    }
    lemma_padded_line(a, stamp, b);
    lemma_padded_line(a, v, b);
    let ls = seq![first, second];
    let crlf = seq![false, false];
    let none = Seq::<char>::empty();
    assert(ls.skip(1) =~= seq![second]);
    assert(ls.skip(1).skip(1) =~= Seq::<Seq<char>>::empty());
    assert(text_laws::written_lines(ls.skip(1).skip(1), crlf.skip(1).skip(1)) =~= none);
    assert(text_laws::written_lines(ls.skip(1), crlf.skip(1)) =~= second + seq!['\n']);
    assert(text_laws::written_lines(ls, crlf) =~= cache);
    assert(cache + none =~= cache);
    text_laws::law_lines_read_back(ls, crlf, none);
    assert(text::lines(cache) == ls);
    text_laws::law_trim(a, stamp, b);
    text_laws::law_trim(a, v, b);
}

proof fn lemma_padding(s: Seq<char>)
    requires
        is_padding(s),
    ensures
        text_laws::blank(s),
        !s.contains('\n'),
{
    if s.contains('\n') {
        let i = choose|i: int| 0 <= i < s.len() && s[i] == '\n';
        assert(s[i] == ' ' || s[i] == '\t');
    }
}

proof fn lemma_padded_line(a: Seq<char>, s: Seq<char>, b: Seq<char>)
    requires
        is_padding(a),
        is_padding(b),
        s.len() > 0,
        !text::is_space(s.last()),
        !s.contains('\n'),
    ensures
        !(a + s + b).contains('\n'),
        (a + s + b).last() != '\r',
{
    let t = a + s + b;
    lemma_padding(a);
    lemma_padding(b);
    if t.contains('\n') {
        let i = choose|i: int| 0 <= i < t.len() && t[i] == '\n';
        if i < a.len() {
            assert(a[i] == '\n');
        } else if i < a.len() + s.len() {
            assert(s[i - a.len()] == '\n');
        } else {
            assert(b[i - a.len() - s.len()] == '\n');
        }
    }
    if b.len() > 0 {
        assert(t.last() == b[b.len() - 1]);
    } else {
        assert(t.last() == s.last());
    }
}

} // verus!
