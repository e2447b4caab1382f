//! What holds of reading text: whatever is written in parts is read back in
//! the same parts.

use vstd::prelude::*;
use crate::number;
use crate::text;

verus! {

// ---------------------------------------------------------------------------
// Parts between separators
// ---------------------------------------------------------------------------

/// `parts` with `sep` between each two.
pub open spec fn joined_by(parts: Seq<Seq<char>>, sep: char) -> Seq<char>
    decreases parts.len(),
{
    if parts.len() == 0 {
        Seq::empty()
    } else if parts.len() == 1 {
        parts[0]
    } else {
        parts[0] + seq![sep] + joined_by(parts.skip(1), sep)
    }
}

/// The first `c` in a text is where one is put behind a text without any.
pub proof fn lemma_first(a: Seq<char>, c: char, b: Seq<char>)
    requires
        !a.contains(c),
    ensures
        text::find_char(a + seq![c] + b, c) == Some(a.len() as int),
        (a + seq![c] + b).take(a.len() as int) == a,
        (a + seq![c] + b).skip(a.len() as int + 1) == b,
{
    let w = a + seq![c] + b;
    text::lemma_find_char(w, c);
    assert(w[a.len() as int] == c);
    let i = text::find_char(w, c).unwrap();
    if i < a.len() {
        assert(w[i] == a[i]);
    }
    assert(w.take(a.len() as int) =~= a);
    assert(w.skip(a.len() as int + 1) =~= b);
}

/// The last `c` in a text is where one is put before a text without any.
pub proof fn lemma_last(a: Seq<char>, c: char, b: Seq<char>)
    requires
        !b.contains(c),
    ensures
        text::rfind_char(a + seq![c] + b, c) == Some(a.len() as int),
        (a + seq![c] + b).take(a.len() as int) == a,
        (a + seq![c] + b).skip(a.len() as int + 1) == b,
{
    let w = a + seq![c] + b;
    text::lemma_rfind_char(w, c);
    assert(w[a.len() as int] == c);
    let i = text::rfind_char(w, c).unwrap();
    if i > a.len() {
        assert(w[i] == b[i - a.len() - 1]);
    }
    assert(w.take(a.len() as int) =~= a);
    assert(w.skip(a.len() as int + 1) =~= b);
}

/// A text without `c` has no first one.
pub proof fn lemma_none(a: Seq<char>, c: char)
    requires
        !a.contains(c),
    ensures
        text::find_char(a, c) is None,
        text::rfind_char(a, c) is None,
{
    text::lemma_find_char(a, c);
    text::lemma_rfind_char(a, c);
}

/// Parts that do not hold the separator are read back from the text that
/// joins them.
pub proof fn law_split_reads_back(parts: Seq<Seq<char>>, sep: char)
    requires
        parts.len() > 0,
        forall|i: int| 0 <= i < parts.len() ==> !(#[trigger] parts[i]).contains(sep),
    ensures
        text::split(joined_by(parts, sep), sep) == parts,
    decreases parts.len(),
{
    assert(!parts[0].contains(sep));
    if parts.len() == 1 {
        lemma_none(parts[0], sep);
        assert(parts =~= seq![parts[0]]);
    } else {
        let rest = parts.skip(1);
        assert forall|i: int| 0 <= i < rest.len() implies !(#[trigger] rest[i]).contains(sep) by {
            assert(rest[i] == parts[i + 1]);
        }
        law_split_reads_back(rest, sep);
        lemma_first(parts[0], sep, joined_by(rest, sep));
        assert(parts =~= seq![parts[0]] + rest);
    }
}

/// Of a text split into at most `n` parts all but the last are without the
/// separator, and the last holds whatever is left.
pub proof fn law_splitn_reads_back(parts: Seq<Seq<char>>, sep: char, n: nat)
    requires
        0 < parts.len() <= n,
        forall|i: int| 0 <= i < parts.len() - 1 ==> !(#[trigger] parts[i]).contains(sep),
        parts.len() == n || !parts.last().contains(sep),
    ensures
        text::splitn(joined_by(parts, sep), sep, n) == parts,
    decreases parts.len(),
{
    if parts.len() == 1 {
        if n > 1 {
            lemma_none(parts[0], sep);
        }
        assert(parts =~= seq![parts[0]]);
    } else {
        let rest = parts.skip(1);
        assert forall|i: int| 0 <= i < rest.len() - 1 implies !(#[trigger] rest[i]).contains(
            sep,
        ) by {
            assert(rest[i] == parts[i + 1]);
        }
        assert(rest.last() == parts.last());
        law_splitn_reads_back(rest, sep, (n - 1) as nat);
        assert(!parts[0].contains(sep));
        lemma_first(parts[0], sep, joined_by(rest, sep));
        assert(parts =~= seq![parts[0]] + rest);
    }
}

// ---------------------------------------------------------------------------
// Words
// ---------------------------------------------------------------------------

/// Whether `s` is white space, or nothing.
pub open spec fn blank(s: Seq<char>) -> bool {
    forall|i: int| 0 <= i < s.len() ==> text::is_space(#[trigger] s[i])
}

/// Whether `s` is a word: something, without white space.
pub open spec fn solid(s: Seq<char>) -> bool {
    s.len() > 0 && forall|i: int| 0 <= i < s.len() ==> !text::is_space(#[trigger] s[i])
}

/// The words `ws` with the gaps `gs` in front of them, and `end` behind the
/// last.
pub open spec fn laid_out(ws: Seq<Seq<char>>, gs: Seq<Seq<char>>, end: Seq<char>) -> Seq<char>
    decreases ws.len(),
{
    if ws.len() == 0 {
        end
    } else {
        gs[0] + ws[0] + laid_out(ws.skip(1), gs.skip(1), end)
    }
}

/// Whether `ws` are words, and `gs` gaps that keep them apart.
pub open spec fn apart(ws: Seq<Seq<char>>, gs: Seq<Seq<char>>, end: Seq<char>) -> bool {
    &&& gs.len() == ws.len()
    &&& forall|i: int| 0 <= i < ws.len() ==> solid(#[trigger] ws[i])
    &&& forall|i: int| 0 <= i < gs.len() ==> blank(#[trigger] gs[i])
    &&& forall|i: int| 0 < i < gs.len() ==> (#[trigger] gs[i]).len() > 0
    &&& end.len() == 0 || text::is_space(end[0])
}

/// White space in front is trimmed off.
pub proof fn lemma_trim_gap(gap: Seq<char>, s: Seq<char>)
    requires
        blank(gap),
    ensures
        text::trim_start(gap + s) == text::trim_start(s),
    decreases gap.len(),
{
    let w = gap + s;
    if gap.len() == 0 {
        assert(w =~= s);
    } else {
        assert(w[0] == gap[0]);
        assert(text::is_space(gap[0]));
        assert(w.skip(1) =~= gap.skip(1) + s);
        assert forall|i: int| 0 <= i < gap.skip(1).len() implies text::is_space(
            #[trigger] gap.skip(1)[i],
        ) by {
            assert(gap.skip(1)[i] == gap[i + 1]);
        }
        lemma_trim_gap(gap.skip(1), s);
    }
}

/// The first word of a text ends where white space follows.
pub proof fn lemma_word_len(w: Seq<char>, s: Seq<char>)
    requires
        forall|i: int| 0 <= i < w.len() ==> !text::is_space(#[trigger] w[i]),
        s.len() == 0 || text::is_space(s[0]),
    ensures
        text::word_len(w + s) == w.len(),
    decreases w.len(),
{
    let t = w + s;
    if w.len() == 0 {
        assert(t =~= s);
    } else {
        assert(t[0] == w[0]);
        assert(!text::is_space(w[0]));
        assert(t.skip(1) =~= w.skip(1) + s);
        assert forall|i: int| 0 <= i < w.skip(1).len() implies !text::is_space(
            #[trigger] w.skip(1)[i],
        ) by {
            assert(w.skip(1)[i] == w[i + 1]);
        }
        lemma_word_len(w.skip(1), s);
    }
}

/// A text that begins with white space, or is empty, has as many words as
/// without it.
proof fn lemma_words_gap(gap: Seq<char>, s: Seq<char>)
    requires
        blank(gap),
    ensures
        text::words(gap + s) == text::words(s),
{
    lemma_trim_gap(gap, s);
}

/// Words are read back from any text that lays them out with white space
/// between them; what follows is read on its own.
pub proof fn law_words_read_back(ws: Seq<Seq<char>>, gs: Seq<Seq<char>>, end: Seq<char>)
    requires
        apart(ws, gs, end),
    ensures
        text::words(laid_out(ws, gs, end)) == ws + text::words(end),
    decreases ws.len(),
{
    if ws.len() == 0 {
        assert(ws + text::words(end) =~= text::words(end));
    } else {
        let (w, g) = (ws[0], gs[0]);
        let (ws1, gs1) = (ws.skip(1), gs.skip(1));
        let rest = laid_out(ws1, gs1, end);
        assert forall|i: int| 0 <= i < ws1.len() implies solid(#[trigger] ws1[i]) by {
            assert(ws1[i] == ws[i + 1]);
        }
        assert forall|i: int| 0 <= i < gs1.len() implies blank(#[trigger] gs1[i]) by {
            assert(gs1[i] == gs[i + 1]);
        }
        assert forall|i: int| 0 <= i < gs1.len() implies (#[trigger] gs1[i]).len() > 0 by {
            assert(gs1[i] == gs[i + 1]);
        }
        law_words_read_back(ws1, gs1, end);
        assert(solid(w));
        assert(blank(g));
        assert(rest.len() == 0 || text::is_space(rest[0])) by {
            if ws1.len() > 0 {
                assert(blank(gs1[0]) && gs1[0].len() > 0);
                assert(text::is_space(gs1[0][0]));
                assert(rest[0] == gs1[0][0]);
            }
        }
        assert(laid_out(ws, gs, end) =~= g + (w + rest));
        lemma_words_gap(g, w + rest);
        lemma_word_len(w, rest);
        let t = w + rest;
        assert(t[0] == w[0]);
        assert(!text::is_space(w[0]));
        assert(text::trim_start(t) == t);
        assert(t.take(w.len() as int) =~= w);
        assert(t.skip(w.len() as int) =~= rest);
        assert(text::words(t) == seq![w] + text::words(rest));
        assert(ws + text::words(end) =~= seq![w] + (ws1 + text::words(end)));
    }
}

/// White space alone has no words.
pub proof fn lemma_no_words(s: Seq<char>)
    requires
        blank(s),
    ensures
        text::words(s) == Seq::<Seq<char>>::empty(),
{
    assert(s =~= s + Seq::<char>::empty());
    lemma_trim_gap(s, Seq::empty());
}

// ---------------------------------------------------------------------------
// Trimming
// ---------------------------------------------------------------------------

proof fn lemma_trim_end_gap(s: Seq<char>, gap: Seq<char>)
    requires
        blank(gap),
    ensures
        text::trim_end(s + gap) == text::trim_end(s),
    decreases gap.len(),
{
    let w = s + gap;
    if gap.len() == 0 {
        assert(w =~= s);
    } else {
        assert(w.last() == gap.last());
        assert(text::is_space(gap[gap.len() - 1]));
        assert(w.drop_last() =~= s + gap.drop_last());
        assert forall|i: int| 0 <= i < gap.drop_last().len() implies text::is_space(
            #[trigger] gap.drop_last()[i],
        ) by {
            assert(gap.drop_last()[i] == gap[i]);
        }
        lemma_trim_end_gap(s, gap.drop_last());
    }
}

/// Trimming takes the white space off both ends and nothing else.
pub proof fn law_trim(before: Seq<char>, s: Seq<char>, behind: Seq<char>)
    requires
        blank(before),
        blank(behind),
        s.len() > 0 ==> !text::is_space(s[0]) && !text::is_space(s.last()),
    ensures
        text::trim(before + s + behind) == s,
{
    assert(before + s + behind =~= before + (s + behind));
    lemma_trim_gap(before, s + behind);
    if s.len() == 0 {
        assert(s + behind =~= behind + Seq::<char>::empty());
        lemma_trim_gap(behind, Seq::empty());
        assert(s =~= Seq::<char>::empty());
    } else {
        assert((s + behind)[0] == s[0]);
        assert(text::trim_start(s + behind) == s + behind);
        lemma_trim_end_gap(s, behind);
    }
}

// ---------------------------------------------------------------------------
// Lines
// ---------------------------------------------------------------------------

/// The lines `ls`, each with a line feed behind it, and a carriage return
/// before that where `crlf` says so.
pub open spec fn written_lines(ls: Seq<Seq<char>>, crlf: Seq<bool>) -> Seq<char>
    decreases ls.len(),
{
    if ls.len() == 0 {
        Seq::empty()
    } else {
        ls[0] + (if crlf[0] {
            seq!['\r', '\n']
        } else {
            seq!['\n']
        }) + written_lines(ls.skip(1), crlf.skip(1))
    }
}

/// Lines are read back from the text that they were written to; what follows
/// the last line feed is one more line.
pub proof fn law_lines_read_back(ls: Seq<Seq<char>>, crlf: Seq<bool>, tail: Seq<char>)
    requires
        crlf.len() == ls.len(),
        forall|i: int| 0 <= i < ls.len() ==> !(#[trigger] ls[i]).contains('\n'),
        forall|i: int|
            0 <= i < ls.len() && !crlf[i] && (#[trigger] ls[i]).len() > 0 ==> ls[i].last() != '\r',
        !tail.contains('\n'),
    ensures
        text::lines(written_lines(ls, crlf) + tail) == if tail.len() == 0 {
            ls
        } else {
            ls.push(tail)
        },
    decreases ls.len(),
{
    let s = written_lines(ls, crlf) + tail;
    if ls.len() == 0 {
        assert(s =~= tail);
        lemma_none(tail, '\n');
        assert(ls =~= Seq::<Seq<char>>::empty());
        assert(ls.push(tail) =~= seq![tail]);
    } else {
        let (ls1, crlf1) = (ls.skip(1), crlf.skip(1));
        assert forall|i: int| 0 <= i < ls1.len() implies !(#[trigger] ls1[i]).contains('\n') by {
            assert(ls1[i] == ls[i + 1]);
        }
        assert forall|i: int|
            0 <= i < ls1.len() && !crlf1[i] && (#[trigger] ls1[i]).len() > 0 implies ls1[i].last()
            != '\r' by {
            assert(ls1[i] == ls[i + 1]);
        }
        law_lines_read_back(ls1, crlf1, tail);
        let head = if crlf[0] {
            ls[0].push('\r')
        } else {
            ls[0]
        };
        let rest = written_lines(ls1, crlf1) + tail;
        assert(s =~= head + seq!['\n'] + rest);
        assert(!ls[0].contains('\n'));
        assert(!head.contains('\n')) by {
            if head.contains('\n') {
                let i = choose|i: int| 0 <= i < head.len() && head[i] == '\n';
                assert(ls[0][i] == '\n');
            }
        }
        lemma_first(head, '\n', rest);
        assert(text::strip_cr(head) =~= ls[0]);
        assert(ls =~= seq![ls[0]] + ls1);
        assert(ls.push(tail) =~= seq![ls[0]] + ls1.push(tail));
    }
}

// ---------------------------------------------------------------------------
// Numbers
// ---------------------------------------------------------------------------

/// A written number is made of digits, has no leading zero, and is read back
/// by every reader that has room for it.
pub proof fn law_numbers_read_back(n: nat)
    ensures
        number::decimal(n).len() > 0,
        forall|i: int|
            0 <= i < number::decimal(n).len() ==> '0' <= #[trigger] number::decimal(n)[i] <= '9',
        n > 0 ==> number::decimal(n)[0] != '0',
        number::parse_u32(number::decimal(n)) == if n <= u32::MAX {
            Some(n as u32)
        } else {
            None
        },
        number::parse_u64(number::decimal(n)) == if n <= u64::MAX {
            Some(n as u64)
        } else {
            None
        },
        number::parse_i32(number::decimal(n)) == if n <= i32::MAX {
            Some(n as int)
        } else {
            None
        },
        number::parse_i32(seq!['-'] + number::decimal(n)) == if n <= 0x8000_0000 {
            Some(-(n as int))
        } else {
            None
        },
{
    let d = number::decimal(n);
    number::lemma_decimal_digits(n);
    number::law_decimal_reads_back(n);
    lemma_no_leading_zero(n);
    assert forall|i: int| 0 <= i < d.len() implies '0' <= #[trigger] d[i] <= '9' by {
        assert(number::is_digit(d[i]));
    }
    assert(number::is_digit(d[0]));
    assert((seq!['-'] + d).skip(1) =~= d);
}

proof fn lemma_no_leading_zero(n: nat)
    ensures
        number::decimal(n).len() > 0,
        n > 0 ==> number::decimal(n)[0] != '0',
    decreases n,
{
    if n >= 10 {
        lemma_no_leading_zero(n / 10);
    } else if n > 0 {
        assert(number::decimal(n)[0] == number::digit_char(n));
    }
}

/// Whatever is read as a number is made of digits, with one `+` allowed in
/// front.
pub proof fn law_only_digits_are_numbers(s: Seq<char>)
    requires
        number::parse_u32(s) is Some || number::parse_u64(s) is Some,
    ensures
        s.len() > 0,
        s[0] == '+' ==> s.len() > 1,
        forall|i: int| 0 <= i < s.len() ==> ('0' <= #[trigger] s[i] <= '9' || i == 0 && s[i] == '+'),
{
    let d = if s.len() > 0 && s[0] == '+' {
        s.skip(1)
    } else {
        s
    };
    assert(number::is_digits(d));
    assert forall|i: int| 0 <= i < s.len() implies ('0' <= #[trigger] s[i] <= '9' || i == 0 && s[i]
        == '+') by {
        if s[0] == '+' {
            if i > 0 {
                assert(number::is_digit(d[i - 1]));
            }
        } else {
            assert(number::is_digit(d[i]));
        }
    }
}

/// A digit put behind a number multiplies its value by ten and adds the
/// digit; leading zeros count for nothing.
pub proof fn law_digits_count_by_place(s: Seq<char>, d: nat)
    requires
        d < 10,
        number::parse_nat(s) is Some,
    ensures
        number::parse_nat(s + number::decimal(d)) == Some(
            number::parse_nat(s).unwrap() * 10 + d,
        ),
        s[0] != '+' ==> number::parse_nat(seq!['0'] + s) == number::parse_nat(s),
{
    let c = number::digit_char(d);
    let t = s + number::decimal(d);
    assert(t =~= s.push(c));
    let n = if s.len() > 0 && s[0] == '+' {
        s.skip(1)
    } else {
        s
    };
    assert(t[0] == s[0]);
    if s[0] == '+' {
        assert(t.skip(1) =~= n.push(c));
    }
    assert(n.push(c).drop_last() =~= n);
    assert(number::is_digits(n.push(c))) by {
        assert forall|i: int| 0 <= i < n.push(c).len() implies number::is_digit(
            #[trigger] n.push(c)[i],
        ) by {
            if i < n.len() {
                assert(number::is_digit(n[i]));
            }
        }
    }
    if s[0] != '+' {
        let z = seq!['0'] + s;
        assert forall|i: int| 0 <= i < z.len() implies number::is_digit(#[trigger] z[i]) by {
            if i > 0 {
                assert(number::is_digit(s[i - 1]));
            }
        }
        lemma_leading_zero(s);
    }
}

proof fn lemma_leading_zero(s: Seq<char>)
    ensures
        number::digits_value(seq!['0'] + s) == number::digits_value(s),
    decreases s.len(),
{
    let z = seq!['0'] + s;
    if s.len() == 0 {
        assert(z.drop_last() =~= Seq::<char>::empty());
        assert(number::digits_value(z.drop_last()) == 0);
        assert(z.last() == '0');
    } else {
        assert(z.drop_last() =~= seq!['0'] + s.drop_last());
        lemma_leading_zero(s.drop_last());
    }
}

// ---------------------------------------------------------------------------
// White space
// ---------------------------------------------------------------------------

/// Spaces, tabs and line ends are white space, the no-break and ideographic
/// spaces among them; what can be seen is not, nor is the zero-width space.
pub proof fn law_white_space(c: char)
    ensures
        c == ' ' || c == '\t' || c == '\n' || c == '\r' || c == '\u{a0}' || c == '\u{3000}'
            ==> text::is_space(c),
        '!' <= c <= '~' ==> !text::is_space(c),
        '\u{a1}' <= c <= '\u{167f}' ==> !text::is_space(c),
        '\u{3001}' <= c ==> !text::is_space(c),
        c == '\u{200b}' ==> !text::is_space(c),
        c < '\t' ==> !text::is_space(c),
{
}

/// Every whole number of a command's status is read back, a negative one too.
pub proof fn law_signed_numbers_read_back(n: i32)
    ensures
        number::parse_i32(number::decimal_int(n as int)) == Some(n as int),
{
    if n < 0 {
        law_numbers_read_back((-n) as nat);
    } else {
        law_numbers_read_back(n as nat);
    }
}

/// Every copy of a character is cut off the end that it stands at, and nothing
/// else is.
pub proof fn law_trimmed_characters(s: Seq<char>, c: char)
    ensures
        text::trim_start_char(seq![c] + s, c) == text::trim_start_char(s, c),
        text::trim_end_char(s + seq![c], c) == text::trim_end_char(s, c),
        s.len() > 0 && s[0] != c ==> text::trim_start_char(s, c) == s,
        s.len() > 0 && s.last() != c ==> text::trim_end_char(s, c) == s,
        text::trim_start_char(Seq::empty(), c).len() == 0,
        text::trim_end_char(Seq::empty(), c).len() == 0,
{
    let a = seq![c] + s;
    let b = s + seq![c];
    assert(a[0] == c && b.last() == c);
    assert(a.skip(1) =~= s);
    assert(b.drop_last() =~= s);
}

/// A plus sign in front of a number makes no difference.
pub proof fn law_plus_sign(n: nat)
    ensures
        number::parse_u32(seq!['+'] + number::decimal(n)) == number::parse_u32(number::decimal(n)),
        number::parse_u64(seq!['+'] + number::decimal(n)) == number::parse_u64(number::decimal(n)),
{
    let d = number::decimal(n);
    law_numbers_read_back(n);
    let p = seq!['+'] + d;
    assert(p.skip(1) =~= d);
    assert('0' <= d[0] <= '9');
}

} // verus!
