//! How many columns text takes on a terminal.

use vstd::prelude::*;
use crate::text::chars_of;

verus! {

/// Whether `n` is in the range from `lo` to `hi`.
pub open spec fn within(n: u32, lo: u32, hi: u32) -> bool {
    lo <= n <= hi
}

/// Characters that take no column of their own: combining marks, the vowels
/// and finals of decomposed Hangul, joiners and variation selectors.
pub open spec fn is_zero_width(n: u32) -> bool {
    ||| within(n, 0x0300, 0x036f)
    ||| within(n, 0x0e31, 0x0e31)
    ||| within(n, 0x0e34, 0x0e3a)
    ||| within(n, 0x0e47, 0x0e4e)
    ||| within(n, 0x1160, 0x11ff)
    ||| within(n, 0x1ab0, 0x1aff)
    ||| within(n, 0x1dc0, 0x1dff)
    ||| within(n, 0x200b, 0x200f)
    ||| within(n, 0x2060, 0x2064)
    ||| within(n, 0x20d0, 0x20f0)
    ||| within(n, 0x302a, 0x302d)
    ||| within(n, 0x3099, 0x309a)
    ||| within(n, 0xd7b0, 0xd7c6)
    ||| within(n, 0xd7cb, 0xd7fb)
    ||| within(n, 0xfe00, 0xfe0f)
    ||| within(n, 0xfe20, 0xfe2f)
    ||| within(n, 0xfeff, 0xfeff)
    ||| within(n, 0xe0100, 0xe01ef)
}

/// Characters of East Asian scripts that take two columns.
pub open spec fn is_cjk(n: u32) -> bool {
    ||| within(n, 0x1100, 0x115f)
    ||| within(n, 0x2329, 0x232a)
    ||| within(n, 0x2e80, 0x303e)
    ||| within(n, 0x3041, 0x3247)
    ||| within(n, 0x3250, 0x4dbf)
    ||| within(n, 0x4e00, 0xa4c6)
    ||| within(n, 0xa960, 0xa97c)
    ||| within(n, 0xac00, 0xd7a3)
    ||| within(n, 0xf900, 0xfaff)
    ||| within(n, 0xfe10, 0xfe19)
    ||| within(n, 0xfe30, 0xfe6b)
    ||| within(n, 0xff01, 0xff60)
    ||| within(n, 0xffe0, 0xffe6)
    ||| within(n, 0x16fe0, 0x18d08)
    ||| within(n, 0x1aff0, 0x1b2fb)
    ||| within(n, 0x1f200, 0x1f265)
    ||| within(n, 0x20000, 0x2fffd)
    ||| within(n, 0x30000, 0x3fffd)
}

/// Emoji that are shown as pictures by themselves; they take two columns.
pub open spec fn is_emoji(n: u32) -> bool {
    ||| within(n, 0x231a, 0x231b)
    ||| within(n, 0x23e9, 0x23ec)
    ||| within(n, 0x23f0, 0x23f0)
    ||| within(n, 0x23f3, 0x23f3)
    ||| within(n, 0x25fd, 0x25fe)
    ||| within(n, 0x2614, 0x2615)
    ||| within(n, 0x2648, 0x2653)
    ||| within(n, 0x267f, 0x267f)
    ||| within(n, 0x2693, 0x2693)
    ||| within(n, 0x26a1, 0x26a1)
    ||| within(n, 0x26aa, 0x26ab)
    ||| within(n, 0x26bd, 0x26be)
    ||| within(n, 0x26c4, 0x26c5)
    ||| within(n, 0x26ce, 0x26ce)
    ||| within(n, 0x26d4, 0x26d4)
    ||| within(n, 0x26ea, 0x26ea)
    ||| within(n, 0x26f2, 0x26f3)
    ||| within(n, 0x26f5, 0x26f5)
    ||| within(n, 0x26fa, 0x26fa)
    ||| within(n, 0x26fd, 0x26fd)
    ||| within(n, 0x2705, 0x2705)
    ||| within(n, 0x270a, 0x270b)
    ||| within(n, 0x2728, 0x2728)
    ||| within(n, 0x274c, 0x274c)
    ||| within(n, 0x274e, 0x274e)
    ||| within(n, 0x2753, 0x2755)
    ||| within(n, 0x2757, 0x2757)
    ||| within(n, 0x2795, 0x2797)
    ||| within(n, 0x27b0, 0x27b0)
    ||| within(n, 0x27bf, 0x27bf)
    ||| within(n, 0x2b1b, 0x2b1c)
    ||| within(n, 0x2b50, 0x2b50)
    ||| within(n, 0x2b55, 0x2b55)
    ||| within(n, 0x1f004, 0x1f004)
    ||| within(n, 0x1f0cf, 0x1f0cf)
    ||| within(n, 0x1f18e, 0x1f18e)
    ||| within(n, 0x1f191, 0x1f19a)
    ||| within(n, 0x1f300, 0x1f320)
    ||| within(n, 0x1f32d, 0x1f335)
    ||| within(n, 0x1f337, 0x1f37c)
    ||| within(n, 0x1f37e, 0x1f393)
    ||| within(n, 0x1f3a0, 0x1f3ca)
    ||| within(n, 0x1f3cf, 0x1f3d3)
    ||| within(n, 0x1f3e0, 0x1f3f0)
    ||| within(n, 0x1f3f4, 0x1f3f4)
    ||| within(n, 0x1f3f8, 0x1f43e)
    ||| within(n, 0x1f440, 0x1f440)
    ||| within(n, 0x1f442, 0x1f4fc)
    ||| within(n, 0x1f4ff, 0x1f53d)
    ||| within(n, 0x1f54b, 0x1f54e)
    ||| within(n, 0x1f550, 0x1f567)
    ||| within(n, 0x1f57a, 0x1f57a)
    ||| within(n, 0x1f595, 0x1f596)
    ||| within(n, 0x1f5a4, 0x1f5a4)
    ||| within(n, 0x1f5fb, 0x1f64f)
    ||| within(n, 0x1f680, 0x1f6c5)
    ||| within(n, 0x1f6cc, 0x1f6cc)
    ||| within(n, 0x1f6d0, 0x1f6d2)
    ||| within(n, 0x1f6d5, 0x1f6d7)
    ||| within(n, 0x1f6dc, 0x1f6df)
    ||| within(n, 0x1f6eb, 0x1f6ec)
    ||| within(n, 0x1f6f4, 0x1f6fc)
    ||| within(n, 0x1f7e0, 0x1f7eb)
    ||| within(n, 0x1f7f0, 0x1f7f0)
    ||| within(n, 0x1f90c, 0x1f93a)
    ||| within(n, 0x1f93c, 0x1f945)
    ||| within(n, 0x1f947, 0x1f9ff)
    ||| within(n, 0x1fa70, 0x1faff)
}

/// The columns that a character takes.
pub open spec fn char_width(c: char) -> nat {
    let n = c as u32;
    if is_zero_width(n) {
        0
    } else if is_cjk(n) || is_emoji(n) {
        2
    } else {
        1
    }
}

/// The columns that a text takes.
pub open spec fn text_width(s: Seq<char>) -> nat
    decreases s.len(),
{
    if s.len() == 0 {
        0
    } else {
        text_width(s.drop_last()) + char_width(s.last())
    }
}

/// `n` times the character `c`.
pub open spec fn repeated(c: char, n: nat) -> Seq<char> {
    Seq::new(n, |i: int| c)
}

/// The text `s` with spaces behind it, up to `width` columns.
pub open spec fn padded(s: Seq<char>, width: nat) -> Seq<char> {
    if text_width(s) < width {
        s + repeated(' ', (width - text_width(s)) as nat)
    } else {
        s
    }
}

/// The width of two texts behind each other is the sum of theirs.
pub proof fn lemma_width_add(a: Seq<char>, b: Seq<char>)
    ensures
        text_width(a + b) == text_width(a) + text_width(b),
    decreases b.len(),
{
    if b.len() == 0 {
        assert(a + b =~= a);
    } else {
        lemma_width_add(a, b.drop_last());
        assert((a + b).drop_last() =~= a + b.drop_last());
    }
}

/// A run of a character that takes one column is as wide as it is long.
pub proof fn lemma_width_repeated(c: char, n: nat)
    requires
        char_width(c) == 1,
    ensures
        text_width(repeated(c, n)) == n,
    decreases n,
{
    if n > 0 {
        let m = (n - 1) as nat;
        lemma_width_repeated(c, m);
        assert(repeated(c, n).drop_last() =~= repeated(c, m));
    }
}

/// Padded text is as wide as asked, unless it is wider already; the text
/// itself stays whole.
pub proof fn law_padding(s: Seq<char>, width: nat)
    ensures
        text_width(padded(s, width)) == if text_width(s) < width {
            width
        } else {
            text_width(s)
        },
        s.is_prefix_of(padded(s, width)),
{
    if text_width(s) < width {
        let n = (width - text_width(s)) as nat;
        assert(char_width(' ') == 1);
        lemma_width_repeated(' ', n);
        lemma_width_add(s, repeated(' ', n));
    }
}

/// Printable ASCII, accented Latin, Greek, Cyrillic, arrows and lines take one
/// column; Hangul syllables, ideographs, kana, full-width forms and faces take
/// two; combining accents, the vowels of decomposed Hangul, joiners and
/// variation selectors take none.
pub proof fn law_columns_of_scripts(c: char)
    ensures
        ({
            let n = c as u32;
            let one = 0x20 <= n < 0x0300 || 0x0370 <= n < 0x0e00 || 0x2190 <= n <= 0x21ff || 0x2500
                <= n <= 0x257f;
            let two = 0xac00 <= n <= 0xd7a3 || 0x4e00 <= n <= 0x9fff || 0x3400 <= n <= 0x4dbf
                || 0x3041 <= n <= 0x3096 || 0x30a0 <= n <= 0x30ff || 0xff01 <= n <= 0xff60 || 0x1f600
                <= n <= 0x1f64f || 0x1100 <= n <= 0x115f || 0x20000 <= n <= 0x2fffd;
            let none = 0x0300 <= n <= 0x036f || 0x1160 <= n <= 0x11ff || n == 0x200d || 0xfe00 <= n
                <= 0xfe0f;
            &&& one ==> char_width(c) == 1
            &&& two ==> char_width(c) == 2
            &&& none ==> char_width(c) == 0
            &&& char_width(c) <= 2
        }),
{
}

/// Radicals, East Asian punctuation, Bopomofo and compatibility jamo, enclosed
/// and square letters, Yi, compatibility ideographs and forms and full-width
/// signs take two columns; Thai vowels above and below the line and marks that
/// combine with symbols take none; half-width forms, Thai letters, accented
/// letters of Vietnamese and Greek, and hexagrams take one.
pub proof fn law_columns_of_blocks(c: char)
    ensures
        ({
            let n = c as u32;
            let two = 0x2e80 <= n <= 0x3029 || 0x302e <= n <= 0x303e || 0x3100 <= n <= 0x3247
                || 0x3250 <= n <= 0x33ff || 0xa000 <= n <= 0xa4c6 || 0xa960 <= n <= 0xa97c || 0xf900
                <= n <= 0xfaff || 0xfe10 <= n <= 0xfe19 || 0xfe30 <= n <= 0xfe6b || 0xffe0 <= n
                <= 0xffe6 || 0x30000 <= n <= 0x3fffd || 0x1f200 <= n <= 0x1f265 || n == 0x2329 || n
                == 0x232a || 0x17000 <= n <= 0x18cff || 0x1b000 <= n <= 0x1b2fb;
            let none = n == 0x0e31 || 0x0e34 <= n <= 0x0e3a || 0x0e47 <= n <= 0x0e4e || 0x1ab0 <= n
                <= 0x1aff || 0x1dc0 <= n <= 0x1dff || 0x200b <= n <= 0x200f || 0x2060 <= n <= 0x2064
                || 0x20d0 <= n <= 0x20f0 || 0x302a <= n <= 0x302d || n == 0x3099 || n == 0x309a
                || 0xd7b0 <= n <= 0xd7c6 || 0xd7cb <= n <= 0xd7fb || 0xfe20 <= n <= 0xfe2f || n
                == 0xfeff || 0xe0100 <= n <= 0xe01ef;
            let one = 0xff61 <= n <= 0xffdc || 0x0e01 <= n <= 0x0e30 || 0x1e00 <= n <= 0x1fff || 0x4dc0
                <= n <= 0x4dff || n == 0x303f || 0x2010 <= n <= 0x205f || 0x2070 <= n <= 0x20cf
                || 0x2100 <= n <= 0x2319;
            &&& two ==> char_width(c) == 2
            &&& none ==> char_width(c) == 0
            &&& one ==> char_width(c) == 1
        }),
{
}

/// Pictures of weather, plants, food, animals, people, things and vehicles
/// take two columns, and so do the marks for yes and no that are shown as
/// pictures; those that are shown as text take one.
pub proof fn law_columns_of_pictures(c: char)
    ensures
        ({
            let n = c as u32;
            let two = 0x1f300 <= n <= 0x1f320 || 0x1f337 <= n <= 0x1f37c || 0x1f3f8 <= n <= 0x1f43e
                || 0x1f442 <= n <= 0x1f4fc || 0x1f4ff <= n <= 0x1f53d || 0x1f680 <= n <= 0x1f6c5
                || 0x1f90c <= n <= 0x1f93a || 0x1f947 <= n <= 0x1f9ff || 0x1fa70 <= n <= 0x1faff
                || n == 0x2705 || n == 0x274c || n == 0x2728 || n == 0x26a1 || n == 0x2b50;
            let one = n == 0x2713 || n == 0x2717 || n == 0x2022 || n == 0x25cf || n == 0x2014
                || 0x2580 <= n <= 0x25fc || n == 0x1f321 || n == 0x1f54f;
            &&& two ==> char_width(c) == 2
            &&& one ==> char_width(c) == 1
        }),
{
}

/// A character adds its own columns to the text that it stands in, wherever
/// it stands.
pub proof fn law_width_is_a_sum(a: Seq<char>, c: char, b: Seq<char>)
    ensures
        text_width(a + seq![c] + b) == text_width(a) + char_width(c) + text_width(b),
        text_width(Seq::<char>::empty()) == 0,
{
    lemma_width_add(a + seq![c], b);
    assert((a + seq![c]).drop_last() =~= a);
}

fn between(n: u32, lo: u32, hi: u32) -> (r: bool)
    ensures
        r == within(n, lo, hi),
{
    lo <= n && n <= hi
}

fn zero_width(n: u32) -> (r: bool)
    ensures
        r == is_zero_width(n),
{
    between(n, 0x0300, 0x036f)
        || between(n, 0x0e31, 0x0e31)
        || between(n, 0x0e34, 0x0e3a)
        || between(n, 0x0e47, 0x0e4e)
        || between(n, 0x1160, 0x11ff)
        || between(n, 0x1ab0, 0x1aff)
        || between(n, 0x1dc0, 0x1dff)
        || between(n, 0x200b, 0x200f)
        || between(n, 0x2060, 0x2064)
        || between(n, 0x20d0, 0x20f0)
        || between(n, 0x302a, 0x302d)
        || between(n, 0x3099, 0x309a)
        || between(n, 0xd7b0, 0xd7c6)
        || between(n, 0xd7cb, 0xd7fb)
        || between(n, 0xfe00, 0xfe0f)
        || between(n, 0xfe20, 0xfe2f)
        || between(n, 0xfeff, 0xfeff)
        || between(n, 0xe0100, 0xe01ef)
}

fn cjk(n: u32) -> (r: bool)
    ensures
        r == is_cjk(n),
{
    between(n, 0x1100, 0x115f)
        || between(n, 0x2329, 0x232a)
        || between(n, 0x2e80, 0x303e)
        || between(n, 0x3041, 0x3247)
        || between(n, 0x3250, 0x4dbf)
        || between(n, 0x4e00, 0xa4c6)
        || between(n, 0xa960, 0xa97c)
        || between(n, 0xac00, 0xd7a3)
        || between(n, 0xf900, 0xfaff)
        || between(n, 0xfe10, 0xfe19)
        || between(n, 0xfe30, 0xfe6b)
        || between(n, 0xff01, 0xff60)
        || between(n, 0xffe0, 0xffe6)
        || between(n, 0x16fe0, 0x18d08)
        || between(n, 0x1aff0, 0x1b2fb)
        || between(n, 0x1f200, 0x1f265)
        || between(n, 0x20000, 0x2fffd)
        || between(n, 0x30000, 0x3fffd)
}

fn emoji(n: u32) -> (r: bool)
    ensures
        r == is_emoji(n),
{
    between(n, 0x231a, 0x231b)
        || between(n, 0x23e9, 0x23ec)
        || between(n, 0x23f0, 0x23f0)
        || between(n, 0x23f3, 0x23f3)
        || between(n, 0x25fd, 0x25fe)
        || between(n, 0x2614, 0x2615)
        || between(n, 0x2648, 0x2653)
        || between(n, 0x267f, 0x267f)
        || between(n, 0x2693, 0x2693)
        || between(n, 0x26a1, 0x26a1)
        || between(n, 0x26aa, 0x26ab)
        || between(n, 0x26bd, 0x26be)
        || between(n, 0x26c4, 0x26c5)
        || between(n, 0x26ce, 0x26ce)
        || between(n, 0x26d4, 0x26d4)
        || between(n, 0x26ea, 0x26ea)
        || between(n, 0x26f2, 0x26f3)
        || between(n, 0x26f5, 0x26f5)
        || between(n, 0x26fa, 0x26fa)
        || between(n, 0x26fd, 0x26fd)
        || between(n, 0x2705, 0x2705)
        || between(n, 0x270a, 0x270b)
        || between(n, 0x2728, 0x2728)
        || between(n, 0x274c, 0x274c)
        || between(n, 0x274e, 0x274e)
        || between(n, 0x2753, 0x2755)
        || between(n, 0x2757, 0x2757)
        || between(n, 0x2795, 0x2797)
        || between(n, 0x27b0, 0x27b0)
        || between(n, 0x27bf, 0x27bf)
        || between(n, 0x2b1b, 0x2b1c)
        || between(n, 0x2b50, 0x2b50)
        || between(n, 0x2b55, 0x2b55)
        || between(n, 0x1f004, 0x1f004)
        || between(n, 0x1f0cf, 0x1f0cf)
        || between(n, 0x1f18e, 0x1f18e)
        || between(n, 0x1f191, 0x1f19a)
        || between(n, 0x1f300, 0x1f320)
        || between(n, 0x1f32d, 0x1f335)
        || between(n, 0x1f337, 0x1f37c)
        || between(n, 0x1f37e, 0x1f393)
        || between(n, 0x1f3a0, 0x1f3ca)
        || between(n, 0x1f3cf, 0x1f3d3)
        || between(n, 0x1f3e0, 0x1f3f0)
        || between(n, 0x1f3f4, 0x1f3f4)
        || between(n, 0x1f3f8, 0x1f43e)
        || between(n, 0x1f440, 0x1f440)
        || between(n, 0x1f442, 0x1f4fc)
        || between(n, 0x1f4ff, 0x1f53d)
        || between(n, 0x1f54b, 0x1f54e)
        || between(n, 0x1f550, 0x1f567)
        || between(n, 0x1f57a, 0x1f57a)
        || between(n, 0x1f595, 0x1f596)
        || between(n, 0x1f5a4, 0x1f5a4)
        || between(n, 0x1f5fb, 0x1f64f)
        || between(n, 0x1f680, 0x1f6c5)
        || between(n, 0x1f6cc, 0x1f6cc)
        || between(n, 0x1f6d0, 0x1f6d2)
        || between(n, 0x1f6d5, 0x1f6d7)
        || between(n, 0x1f6dc, 0x1f6df)
        || between(n, 0x1f6eb, 0x1f6ec)
        || between(n, 0x1f6f4, 0x1f6fc)
        || between(n, 0x1f7e0, 0x1f7eb)
        || between(n, 0x1f7f0, 0x1f7f0)
        || between(n, 0x1f90c, 0x1f93a)
        || between(n, 0x1f93c, 0x1f945)
        || between(n, 0x1f947, 0x1f9ff)
        || between(n, 0x1fa70, 0x1faff)
}

/// The columns that a text takes.
pub fn display_width(s: &str) -> (r: u128)
    ensures
        r == text_width(s@),
{
    let cs = chars_of(s);
    let mut w: u128 = 0;
    let mut i: usize = 0;
    assert(s@.take(0) =~= Seq::<char>::empty());
    while i < cs.len()
        invariant
            cs@ == s@,
            i <= cs@.len(),
            w == text_width(s@.take(i as int)),
            w <= 2 * i,
        decreases cs@.len() - i,
    {
        let c = cs[i];
        let n: u32 = c as u32;
        assert(s@.take(i + 1).drop_last() =~= s@.take(i as int));
        assert(s@.take(i + 1).last() == c);
        if zero_width(n) {
        } else if cjk(n) || emoji(n) {
            w += 2;
        } else {
            w += 1;
        }
        i += 1;
    }
    assert(s@.take(i as int) =~= s@);
    w
}

/// Appends `n` times the character `c`.
pub fn push_repeated(s: &mut String, c: char, n: u128)
    ensures
        final(s)@ == old(s)@ + repeated(c, n as nat),
{
    let ghost start = s@;
    let mut i: u128 = 0;
    assert(start + repeated(c, 0) =~= start);
    while i < n
        invariant
            i <= n,
            s@ == start + repeated(c, i as nat),
        decreases n - i,
    {
        s.push(c);
        i += 1;
        assert(start + repeated(c, i as nat) =~= (start + repeated(c, (i - 1) as nat)).push(c));
    }
}

/// Appends the text `cell` with spaces behind it, up to `width` columns.
pub fn push_padded(s: &mut String, cell: &str, width: u128)
    ensures
        final(s)@ == old(s)@ + padded(cell@, width as nat),
{
    let ghost start = s@;
    let w: u128 = display_width(cell);
    s.append(cell);
    if w < width {
        push_repeated(s, ' ', width - w);
        assert(s@ =~= start + padded(cell@, width as nat));
    }
}

} // verus!
