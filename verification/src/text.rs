//! Text as sequences of characters: scanning, splitting and trimming.
//!
//! Every function that takes text apart works on `&[char]`; `chars_of` and
//! `string_of` go between that form and `str` / `String`.

use vstd::prelude::*;
use vstd::slice::slice_subrange;

verus! {

/// `String::push` appends one character at the end of the string.
pub assume_specification[ String::push ](s: &mut String, c: char)
    ensures
        final(s)@ == old(s)@.push(c),
;

/// The characters of `s`, in order.
pub fn chars_of(s: &str) -> (out: Vec<char>)
    ensures
        out@ == s@,
{
    let mut out: Vec<char> = Vec::new();
    for c in it: s.chars()
        invariant
            it.seq() == s@,
            out@ == s@.take(it.index() as int),
    {
        out.push(c);
        assert(s@.take(it.index() + 1) =~= s@.take(it.index() as int).push(c));
    }
    assert(s@.take(s@.len() as int) =~= s@);
    out
}

/// The string made of the characters of `cs`.
pub fn string_of(cs: &[char]) -> (out: String)
    ensures
        out@ == cs@,
{
    let mut out = String::new();
    let mut i: usize = 0;
    while i < cs.len()
        invariant
            i <= cs@.len(),
            out@ == cs@.take(i as int),
        decreases cs@.len() - i,
    {
        assert(cs@.take(i + 1) =~= cs@.take(i as int).push(cs@[i as int]));
        out.push(cs[i]);
        i += 1;
    }
    assert(cs@.take(i as int) =~= cs@);
    out
}

/// Whether two runs of characters are the same.
pub fn same_chars(a: &[char], b: &[char]) -> (r: bool)
    ensures
        r == (a@ == b@),
{
    if a.len() != b.len() {
        return false;
    }
    let mut i: usize = 0;
    while i < a.len()
        invariant
            i <= a@.len(),
            a@.len() == b@.len(),
            a@.take(i as int) =~= b@.take(i as int),
        decreases a@.len() - i,
    {
        if a[i] != b[i] {
            assert(a@[i as int] != b@[i as int]);
            return false;
        }
        assert(a@.take(i + 1) =~= a@.take(i as int).push(a@[i as int]));
        assert(b@.take(i + 1) =~= b@.take(i as int).push(b@[i as int]));
        i += 1;
    }
    assert(a@.take(i as int) =~= a@);
    assert(b@.take(i as int) =~= b@);
    true
}

/// Whether the characters `a` spell `word`.
pub fn spells(a: &[char], word: &str) -> (r: bool)
    ensures
        r == (a@ == word@),
{
    let w = chars_of(word);
    same_chars(a, w.as_slice())
}

/// Whether two strings are the same.
pub fn same_str(a: &str, b: &str) -> (r: bool)
    ensures
        r == (a@ == b@),
{
    let x = chars_of(a);
    spells(x.as_slice(), b)
}

/// What `String::from_utf8_lossy` makes of `bytes`.
pub uninterp spec fn utf8_lossy(bytes: Seq<u8>) -> Seq<char>;

/// Calls `String::from_utf8_lossy`. The result depends on the bytes alone;
/// on valid UTF-8 it is the text that the bytes encode. Of other bytes only
/// its name is stated: where and how often U+FFFD stands in for them is left
/// to that function.
#[verifier::external_body]
pub(crate) fn decode_lossy(bytes: &[u8]) -> (r: String)
    ensures
        r@ == utf8_lossy(bytes@),
        vstd::utf8::valid_utf8(bytes@) ==> r@ == vstd::utf8::decode_utf8(bytes@),
{
    String::from_utf8_lossy(bytes).into_owned()
}

/// The text of the output of a command: the bytes decoded, with anything
/// that is no UTF-8 replaced.
pub fn text_of(bytes: &[u8]) -> (r: String)
    ensures
        r@ == utf8_lossy(bytes@),
        vstd::utf8::valid_utf8(bytes@) ==> r@ == vstd::utf8::decode_utf8(bytes@),
{
    decode_lossy(bytes)
}

// ---------------------------------------------------------------------------
// Searching
// ---------------------------------------------------------------------------

/// The index of the first `c` in `s`.
pub open spec fn find_char(s: Seq<char>, c: char) -> Option<int>
    decreases s.len(),
{
    if s.len() == 0 {
        None
    } else if s[0] == c {
        Some(0int)
    } else {
        match find_char(s.skip(1), c) {
            Some(i) => Some(i + 1),
            None => None,
        }
    }
}

/// The index of the last `c` in `s`.
pub open spec fn rfind_char(s: Seq<char>, c: char) -> Option<int>
    decreases s.len(),
{
    if s.len() == 0 {
        None
    } else if s.last() == c {
        Some(s.len() - 1)
    } else {
        rfind_char(s.drop_last(), c)
    }
}

/// Whether `pat` stands in `s` at index `i`.
pub open spec fn stands_at(s: Seq<char>, pat: Seq<char>, i: int) -> bool {
    0 <= i && i + pat.len() <= s.len() && s.subrange(i, i + pat.len()) == pat
}

/// The index of the first occurrence of `pat` at or after index `from`.
pub open spec fn find_from(s: Seq<char>, pat: Seq<char>, from: int) -> Option<int>
    decreases s.len() + 1 - from,
{
    if from < 0 || from + pat.len() > s.len() {
        None
    } else if stands_at(s, pat, from) {
        Some(from)
    } else {
        find_from(s, pat, from + 1)
    }
}

/// The index of the first occurrence of `pat` in `s`.
pub open spec fn find_text(s: Seq<char>, pat: Seq<char>) -> Option<int> {
    find_from(s, pat, 0)
}

/// A first occurrence holds the character and has none before it.
pub proof fn lemma_find_char(s: Seq<char>, c: char)
    ensures
        match find_char(s, c) {
            Some(i) => 0 <= i < s.len() && s[i] == c && forall|j: int| 0 <= j < i ==> s[j] != c,
            None => forall|j: int| 0 <= j < s.len() ==> s[j] != c,
        },
    decreases s.len(),
{
    if s.len() > 0 && s[0] != c {
        lemma_find_char(s.skip(1), c);
        assert forall|j: int| 0 < j < s.len() implies s[j] == s.skip(1)[j - 1] by {}
    }
}

/// A last occurrence holds the character and has none behind it.
pub proof fn lemma_rfind_char(s: Seq<char>, c: char)
    ensures
        match rfind_char(s, c) {
            Some(i) => 0 <= i < s.len() && s[i] == c && forall|j: int| i < j < s.len() ==> s[j] != c,
            None => forall|j: int| 0 <= j < s.len() ==> s[j] != c,
        },
    decreases s.len(),
{
    if s.len() > 0 && s.last() != c {
        lemma_rfind_char(s.drop_last(), c);
        assert forall|j: int| 0 <= j < s.len() - 1 implies s[j] == s.drop_last()[j] by {}
    }
}

/// Where a pattern is found, it stands there and nowhere before.
pub proof fn lemma_find_from(s: Seq<char>, pat: Seq<char>, from: int)
    requires
        0 <= from,
    ensures
        match find_from(s, pat, from) {
            Some(i) => from <= i && stands_at(s, pat, i) && forall|j: int|
                from <= j < i ==> !stands_at(s, pat, j),
            None => forall|j: int| from <= j ==> !stands_at(s, pat, j),
        },
    decreases s.len() + 1 - from,
{
    if from + pat.len() <= s.len() && !stands_at(s, pat, from) {
        lemma_find_from(s, pat, from + 1);
    }
}

/// Finds the first `c` in `s`.
pub fn position_of(s: &[char], c: char) -> (r: Option<usize>)
    ensures
        match r {
            Some(i) => i < s.len() && find_char(s@, c) == Some(i as int),
            None => find_char(s@, c) is None,
        },
{
    proof {
        lemma_find_char(s@, c);
    }
    let mut i: usize = 0;
    while i < s.len()
        invariant
            i <= s@.len(),
            forall|j: int| 0 <= j < i ==> s@[j] != c,
            match find_char(s@, c) {
                Some(k) => 0 <= k < s@.len() && s@[k] == c && forall|j: int|
                    0 <= j < k ==> s@[j] != c,
                None => forall|j: int| 0 <= j < s@.len() ==> s@[j] != c,
            },
        decreases s@.len() - i,
    {
        if s[i] == c {
            assert(s@[i as int] == c);
            return Some(i);
        }
        i += 1;
    }
    None
}

/// Finds the last `c` in `s`.
pub fn last_position_of(s: &[char], c: char) -> (r: Option<usize>)
    ensures
        match r {
            Some(i) => i < s.len() && rfind_char(s@, c) == Some(i as int),
            None => rfind_char(s@, c) is None,
        },
{
    proof {
        lemma_rfind_char(s@, c);
    }
    let mut i: usize = s.len();
    while i > 0
        invariant
            i <= s@.len(),
            forall|j: int| i <= j < s@.len() ==> s@[j] != c,
            match rfind_char(s@, c) {
                Some(k) => 0 <= k < s@.len() && s@[k] == c && forall|j: int|
                    k < j < s@.len() ==> s@[j] != c,
                None => forall|j: int| 0 <= j < s@.len() ==> s@[j] != c,
            },
        decreases i,
    {
        i -= 1;
        if s[i] == c {
            assert(s@[i as int] == c);
            return Some(i);
        }
    }
    None
}

/// Whether `pat` stands in `s` at index `i`.
pub fn matches_at(s: &[char], pat: &[char], i: usize) -> (r: bool)
    ensures
        r == stands_at(s@, pat@, i as int),
{
    if i > s.len() || s.len() - i < pat.len() {
        return false;
    }
    same_chars(slice_subrange(s, i, i + pat.len()), pat)
}

/// Finds the first occurrence of `pat` in `s`.
pub fn position_of_text(s: &[char], pat: &str) -> (r: Option<usize>)
    ensures
        match r {
            Some(i) => i + pat@.len() <= s.len() && find_text(s@, pat@) == Some(i as int),
            None => find_text(s@, pat@) is None,
        },
{
    let p = chars_of(pat);
    let mut i: usize = 0;
    while i <= s.len() && p.len() <= s.len() - i
        invariant
            p@ == pat@,
            i <= s@.len() + 1,
            find_text(s@, pat@) == find_from(s@, pat@, i as int),
        decreases s@.len() + 1 - i,
    {
        if matches_at(s, p.as_slice(), i) {
            return Some(i);
        }
        if i == s.len() {
            assert(find_from(s@, pat@, i + 1) is None);
            return None;
        }
        i += 1;
    }
    None
}

// ---------------------------------------------------------------------------
// White space
// ---------------------------------------------------------------------------

/// The characters of Unicode's White_Space property.
pub open spec fn is_space(c: char) -> bool {
    let u = c as u32;
    ||| 0x09 <= u <= 0x0d
    ||| u == 0x20
    ||| u == 0x85
    ||| u == 0xa0
    ||| u == 0x1680
    ||| 0x2000 <= u <= 0x200a
    ||| u == 0x2028
    ||| u == 0x2029
    ||| u == 0x202f
    ||| u == 0x205f
    ||| u == 0x3000
}

/// Whether `c` is white space.
pub fn space(c: char) -> (r: bool)
    ensures
        r == is_space(c),
{
    let u: u32 = c as u32;
    (0x09 <= u && u <= 0x0d) || u == 0x20 || u == 0x85 || u == 0xa0 || u == 0x1680 || (0x2000 <= u
        && u <= 0x200a) || u == 0x2028 || u == 0x2029 || u == 0x202f || u == 0x205f || u == 0x3000
}

/// `s` without its leading white space.
pub open spec fn trim_start(s: Seq<char>) -> Seq<char>
    decreases s.len(),
{
    if s.len() > 0 && is_space(s[0]) {
        trim_start(s.skip(1))
    } else {
        s
    }
}

/// `s` without its trailing white space.
pub open spec fn trim_end(s: Seq<char>) -> Seq<char>
    decreases s.len(),
{
    if s.len() > 0 && is_space(s.last()) {
        trim_end(s.drop_last())
    } else {
        s
    }
}

/// `s` without white space at either end.
pub open spec fn trim(s: Seq<char>) -> Seq<char> {
    trim_end(trim_start(s))
}

/// `s` without the `c`s that it ends in.
pub open spec fn trim_end_char(s: Seq<char>, c: char) -> Seq<char>
    decreases s.len(),
{
    if s.len() > 0 && s.last() == c {
        trim_end_char(s.drop_last(), c)
    } else {
        s
    }
}

/// `s` without the `c`s that it begins with.
pub open spec fn trim_start_char(s: Seq<char>, c: char) -> Seq<char>
    decreases s.len(),
{
    if s.len() > 0 && s[0] == c {
        trim_start_char(s.skip(1), c)
    } else {
        s
    }
}

/// Cuts leading white space off.
pub fn trimmed_start(s: &[char]) -> (r: &[char])
    ensures
        r@ == trim_start(s@),
{
    let mut i: usize = 0;
    assert(s@.skip(0) =~= s@);
    while i < s.len() && space(s[i])
        invariant
            i <= s@.len(),
            trim_start(s@) == trim_start(s@.skip(i as int)),
        decreases s@.len() - i,
    {
        assert(s@.skip(i as int).skip(1) =~= s@.skip(i + 1));
        i += 1;
    }
    let r = slice_subrange(s, i, s.len());
    assert(r@ =~= s@.skip(i as int));
    r
}

/// Cuts trailing white space off.
pub fn trimmed_end(s: &[char]) -> (r: &[char])
    ensures
        r@ == trim_end(s@),
{
    let mut i: usize = s.len();
    assert(s@.take(i as int) =~= s@);
    while i > 0 && space(s[i - 1])
        invariant
            i <= s@.len(),
            trim_end(s@) == trim_end(s@.take(i as int)),
        decreases i,
    {
        assert(s@.take(i as int).drop_last() =~= s@.take(i - 1));
        i -= 1;
    }
    slice_subrange(s, 0, i)
}

/// Cuts white space off both ends.
pub fn trimmed(s: &[char]) -> (r: &[char])
    ensures
        r@ == trim(s@),
{
    trimmed_end(trimmed_start(s))
}

/// Cuts trailing `c`s off.
pub fn without_trailing(s: &[char], c: char) -> (r: &[char])
    ensures
        r@ == trim_end_char(s@, c),
{
    let mut i: usize = s.len();
    assert(s@.take(i as int) =~= s@);
    while i > 0 && s[i - 1] == c
        invariant
            i <= s@.len(),
            trim_end_char(s@, c) == trim_end_char(s@.take(i as int), c),
        decreases i,
    {
        assert(s@.take(i as int).drop_last() =~= s@.take(i - 1));
        i -= 1;
    }
    slice_subrange(s, 0, i)
}

/// Cuts leading `c`s off.
pub fn without_leading(s: &[char], c: char) -> (r: &[char])
    ensures
        r@ == trim_start_char(s@, c),
{
    let mut i: usize = 0;
    assert(s@.skip(0) =~= s@);
    while i < s.len() && s[i] == c
        invariant
            i <= s@.len(),
            trim_start_char(s@, c) == trim_start_char(s@.skip(i as int), c),
        decreases s@.len() - i,
    {
        assert(s@.skip(i as int).skip(1) =~= s@.skip(i + 1));
        i += 1;
    }
    let r = slice_subrange(s, i, s.len());
    assert(r@ =~= s@.skip(i as int));
    r
}

// ---------------------------------------------------------------------------
// Taking text apart
// ---------------------------------------------------------------------------

/// The contents of a list of pieces of text.
pub open spec fn pieces(v: Seq<&[char]>) -> Seq<Seq<char>> {
    v.map_values(|p: &[char]| p@)
}

/// The parts of `s` between the `sep`s; always at least one.
pub open spec fn split(s: Seq<char>, sep: char) -> Seq<Seq<char>>
    decreases s.len(),
    when true
    via split_decreases
{
    match find_char(s, sep) {
        None => seq![s],
        Some(i) => seq![s.take(i)] + split(s.skip(i + 1), sep),
    }
}

#[via_fn]
proof fn split_decreases(s: Seq<char>, sep: char) {
    lemma_find_char(s, sep);
}

/// The parts of `s` between the first `n - 1` `sep`s; the last part holds
/// whatever is left, further `sep`s included.
pub open spec fn splitn(s: Seq<char>, sep: char, n: nat) -> Seq<Seq<char>>
    decreases n,
{
    if n == 0 {
        Seq::<Seq<char>>::empty()
    } else if n == 1 {
        seq![s]
    } else {
        match find_char(s, sep) {
            None => seq![s],
            Some(i) => seq![s.take(i)] + splitn(s.skip(i + 1), sep, (n - 1) as nat),
        }
    }
}

/// How many characters stand in `s` before its first white space.
pub open spec fn word_len(s: Seq<char>) -> nat
    decreases s.len(),
{
    if s.len() == 0 || is_space(s[0]) {
        0
    } else {
        1 + word_len(s.skip(1))
    }
}

/// The runs of characters of `s` that are not white space.
pub open spec fn words(s: Seq<char>) -> Seq<Seq<char>>
    decreases s.len(),
    when true
    via words_decreases
{
    let t = trim_start(s);
    if t.len() == 0 {
        Seq::<Seq<char>>::empty()
    } else {
        seq![t.take(word_len(t) as int)] + words(t.skip(word_len(t) as int))
    }
}

#[via_fn]
proof fn words_decreases(s: Seq<char>) {
    lemma_trim_start_shrinks(s);
    let t = trim_start(s);
    lemma_word_len_bound(t);
    if t.len() > 0 {
        assert(word_len(t) > 0);
    }
}

/// Trimming leaves no white space in front and adds nothing.
pub proof fn lemma_trim_start_shrinks(s: Seq<char>)
    ensures
        trim_start(s).len() <= s.len(),
        trim_start(s).len() > 0 ==> !is_space(trim_start(s)[0]),
    decreases s.len(),
{
    if s.len() > 0 && is_space(s[0]) {
        lemma_trim_start_shrinks(s.skip(1));
    }
}

/// A word is no longer than the text it begins.
pub proof fn lemma_word_len_bound(s: Seq<char>)
    ensures
        word_len(s) <= s.len(),
    decreases s.len(),
{
    if s.len() > 0 && !is_space(s[0]) {
        lemma_word_len_bound(s.skip(1));
    }
}

/// A line without the carriage return that ends it.
pub open spec fn strip_cr(s: Seq<char>) -> Seq<char> {
    if s.len() > 0 && s.last() == '\r' {
        s.drop_last()
    } else {
        s
    }
}

/// The lines of `s`: each ends in a line feed, or a carriage return and a
/// line feed, which are no part of it; the last one may lack its ending.
pub open spec fn lines(s: Seq<char>) -> Seq<Seq<char>>
    decreases s.len(),
    when true
    via lines_decreases
{
    if s.len() == 0 {
        Seq::<Seq<char>>::empty()
    } else {
        match find_char(s, '\n') {
            None => seq![s],
            Some(i) => seq![strip_cr(s.take(i))] + lines(s.skip(i + 1)),
        }
    }
}

#[via_fn]
proof fn lines_decreases(s: Seq<char>) {
    lemma_find_char(s, '\n');
}

proof fn lemma_pieces_push(v: Seq<&[char]>, p: &[char])
    ensures
        pieces(v.push(p)) == pieces(v).push(p@),
{
    assert(pieces(v.push(p)) =~= pieces(v).push(p@));
}

/// Splits `s` at every `sep`.
pub fn split_at_char(s: &[char], sep: char) -> (out: Vec<&[char]>)
    ensures
        pieces(out@) == split(s@, sep),
{
    let mut out: Vec<&[char]> = Vec::new();
    let mut rest: &[char] = s;
    loop
        invariant
            pieces(out@) + split(rest@, sep) =~= split(s@, sep),
        decreases rest@.len(),
    {
        proof {
            lemma_find_char(rest@, sep);
        }
        match position_of(rest, sep) {
            None => {
                proof {
                    lemma_pieces_push(out@, rest);
                }
                out.push(rest);
                return out;
            },
            Some(i) => {
                let head = slice_subrange(rest, 0, i);
                let tail = slice_subrange(rest, i + 1, rest.len());
                proof {
                    lemma_pieces_push(out@, head);
                    assert(tail@ =~= rest@.skip(i + 1));
                    assert(head@ =~= rest@.take(i as int));
                    assert(pieces(out@) + (seq![head@] + split(tail@, sep)) =~= pieces(out@).push(
                        head@,
                    ) + split(tail@, sep));
                }
                out.push(head);
                rest = tail;
            },
        }
    }
}

/// Splits `s` at the first `n - 1` `sep`s.
pub fn split_at_char_n(s: &[char], sep: char, n: usize) -> (out: Vec<&[char]>)
    ensures
        pieces(out@) == splitn(s@, sep, n as nat),
{
    let mut out: Vec<&[char]> = Vec::new();
    let mut rest: &[char] = s;
    let mut left: usize = n;
    while left > 1
        invariant
            left <= n,
            n > 0 ==> left > 0,
            pieces(out@) + splitn(rest@, sep, left as nat) =~= splitn(s@, sep, n as nat),
        decreases left,
    {
        proof {
            lemma_find_char(rest@, sep);
        }
        match position_of(rest, sep) {
            None => {
                proof {
                    lemma_pieces_push(out@, rest);
                }
                out.push(rest);
                return out;
            },
            Some(i) => {
                let head = slice_subrange(rest, 0, i);
                let tail = slice_subrange(rest, i + 1, rest.len());
                proof {
                    lemma_pieces_push(out@, head);
                    assert(tail@ =~= rest@.skip(i + 1));
                    assert(head@ =~= rest@.take(i as int));
                    assert(pieces(out@) + (seq![head@] + splitn(tail@, sep, (left - 1) as nat))
                        =~= pieces(out@).push(head@) + splitn(tail@, sep, (left - 1) as nat));
                }
                out.push(head);
                rest = tail;
                left -= 1;
            },
        }
    }
    if left == 1 {
        proof {
            lemma_pieces_push(out@, rest);
        }
        out.push(rest);
    }
    out
}

/// Measures the word that `s` begins with.
pub fn leading_word_len(s: &[char]) -> (r: usize)
    ensures
        r == word_len(s@),
{
    let mut i: usize = 0;
    assert(s@.skip(0) =~= s@);
    while i < s.len() && !space(s[i])
        invariant
            i <= s@.len(),
            word_len(s@) == i + word_len(s@.skip(i as int)),
        decreases s@.len() - i,
    {
        assert(s@.skip(i as int).skip(1) =~= s@.skip(i + 1));
        i += 1;
    }
    i
}

/// Splits `s` at its white space.
pub fn split_words(s: &[char]) -> (out: Vec<&[char]>)
    ensures
        pieces(out@) == words(s@),
{
    let mut out: Vec<&[char]> = Vec::new();
    let mut rest: &[char] = s;
    loop
        invariant
            pieces(out@) + words(rest@) =~= words(s@),
        decreases rest@.len(),
    {
        let t = trimmed_start(rest);
        proof {
            lemma_trim_start_shrinks(rest@);
        }
        if t.len() == 0 {
            return out;
        }
        let n: usize = leading_word_len(t);
        proof {
            lemma_word_len_bound(t@);
        }
        let head = slice_subrange(t, 0, n);
        let tail = slice_subrange(t, n, t.len());
        proof {
            lemma_pieces_push(out@, head);
            assert(tail@ =~= t@.skip(n as int));
            assert(head@ =~= t@.take(n as int));
            assert(pieces(out@) + (seq![head@] + words(tail@)) =~= pieces(out@).push(head@)
                + words(tail@));
        }
        out.push(head);
        rest = tail;
    }
}

/// Splits `s` into lines.
pub fn split_lines(s: &[char]) -> (out: Vec<&[char]>)
    ensures
        pieces(out@) == lines(s@),
{
    let mut out: Vec<&[char]> = Vec::new();
    let mut rest: &[char] = s;
    while rest.len() > 0
        invariant
            pieces(out@) + lines(rest@) =~= lines(s@),
        decreases rest@.len(),
    {
        proof {
            lemma_find_char(rest@, '\n');
        }
        match position_of(rest, '\n') {
            None => {
                proof {
                    lemma_pieces_push(out@, rest);
                }
                out.push(rest);
                return out;
            },
            Some(i) => {
                let whole = slice_subrange(rest, 0, i);
                let head = if i > 0 && rest[i - 1] == '\r' {
                    slice_subrange(rest, 0, i - 1)
                } else {
                    whole
                };
                let tail = slice_subrange(rest, i + 1, rest.len());
                proof {
                    lemma_pieces_push(out@, head);
                    assert(tail@ =~= rest@.skip(i + 1));
                    assert(whole@ =~= rest@.take(i as int));
                    assert(head@ =~= strip_cr(rest@.take(i as int)));
                    assert(pieces(out@) + (seq![head@] + lines(tail@)) =~= pieces(out@).push(head@)
                        + lines(tail@));
                }
                out.push(head);
                rest = tail;
            },
        }
    }
    out
}

} // verus!
