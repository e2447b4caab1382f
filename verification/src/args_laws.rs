//! What holds of reading the command line: whatever is asked for is read
//! back, and whatever is wrong is named.

use vstd::prelude::*;
use crate::args;
use crate::args::{ArgErrorView, ModeView};
use crate::number;
use crate::text_laws;

verus! {

/// An argument is a port exactly if it is a number from 1 to 65535.
pub proof fn law_port_argument(n: nat)
    ensures
        args::port_arg(number::decimal(n)) == if 1 <= n <= 65535 {
            Some(n as u32)
        } else {
            None
        },
{
    text_laws::law_numbers_read_back(n);
}

/// Ports as arguments.
pub open spec fn written_ports(ports: Seq<u32>) -> Seq<Seq<char>> {
    ports.map_values(|p: u32| number::decimal(p as nat))
}

/// Whether every number is one that a port can have.
pub open spec fn all_ports(ports: Seq<u32>) -> bool {
    forall|i: int| 0 <= i < ports.len() ==> 1 <= #[trigger] ports[i] <= 65535
}

proof fn lemma_written_ports(ports: Seq<u32>)
    requires
        all_ports(ports),
    ensures
        args::first_invalid(written_ports(ports)) is None,
        args::port_values(written_ports(ports)) == ports,
    decreases ports.len(),
{
    let ws = written_ports(ports);
    assert forall|i: int| 0 <= i < ports.len() implies args::port_arg(#[trigger] ws[i]) == Some(
        ports[i],
    ) by {
        assert(1 <= ports[i] <= 65535);
        law_port_argument(ports[i] as nat);
    }
    assert(args::port_values(ws) =~= ports);
    if ports.len() > 0 {
        let rest = ports.skip(1);
        assert forall|i: int| 0 <= i < rest.len() implies 1 <= #[trigger] rest[i] <= 65535 by {
            assert(rest[i] == ports[i + 1]);
        }
        lemma_written_ports(rest);
        assert(ws.skip(1) =~= written_ports(rest));
        assert(args::port_arg(ws[0]) is Some);
    }
}

/// A query for some ports is read back, with `info` in front and without.
pub proof fn law_query_reads_back(ports: Seq<u32>)
    requires
        ports.len() > 0,
        all_ports(ports),
    ensures
        args::mode_of(seq!["info"@] + written_ports(ports)) == Ok::<ModeView, ArgErrorView>(
            (ModeView::Info { ports }),
        ),
        args::mode_of(written_ports(ports)) == Ok::<ModeView, ArgErrorView>(
            (ModeView::Info { ports }),
        ),
{
    lemma_written_ports(ports);
    args::law_bare_ports_mean_info(written_ports(ports));
}

/// A request to kill is read back: its ports in order, and whether SIGKILL or
/// no questions were asked for, wherever the flags stand.
pub proof fn law_kill_reads_back(rest: Seq<Seq<char>>, ports: Seq<u32>)
    requires
        ports.len() > 0,
        all_ports(ports),
        !rest.contains("info"@),
        rest.filter(
            |a: Seq<char>| a != "-9"@ && a != "--force"@ && a != "-y"@ && a != "--yes"@,
        ) == written_ports(ports),
    ensures
        args::mode_of(seq!["kill"@] + rest) == Ok::<ModeView, ArgErrorView>(
            (ModeView::Kill {
                ports,
                force: rest.contains("-9"@) || rest.contains("--force"@),
                yes: rest.contains("-y"@) || rest.contains("--yes"@),
            }),
        ),
{
    let all = seq!["kill"@] + rest;
    lemma_written_ports(ports);
    let f = |a: Seq<char>| a != "-9"@ && a != "--force"@ && a != "-y"@ && a != "--yes"@;
    let g = |a: Seq<char>| !args::is_force(a) && !args::is_yes_flag(a);
    assert(f =~= g);
    assert(args::operands(rest) == written_ports(ports));
    assert(written_ports(ports).len() == ports.len());
    assert(all[0] == "kill"@);
    assert(all.skip(1) =~= rest);
    lemma_no_arg(rest, "info"@);
    assert("info"@ != "kill"@) by {
        reveal_strlit("info");
        reveal_strlit("kill");
        assert("info"@[0] == 'i');
        assert("kill"@[0] == 'k');
    }
    assert(args::find_arg(all, "info"@) is None);
    assert(args::find_arg(all, "kill"@) == Some(0int));
    let force = exists|i: int| 0 <= i < rest.len() && args::is_force(#[trigger] rest[i]);
    let yes = exists|i: int| 0 <= i < rest.len() && args::is_yes_flag(#[trigger] rest[i]);
    if rest.contains("-9"@) || rest.contains("--force"@) {
        let i = choose|i: int|
            0 <= i < rest.len() && (rest[i] == "-9"@ || rest[i] == "--force"@);
        assert(args::is_force(rest[i]));
    }
    if rest.contains("-y"@) || rest.contains("--yes"@) {
        let i = choose|i: int| 0 <= i < rest.len() && (rest[i] == "-y"@ || rest[i] == "--yes"@);
        assert(args::is_yes_flag(rest[i]));
    }
}

proof fn lemma_no_arg(all: Seq<Seq<char>>, word: Seq<char>)
    ensures
        args::find_arg(all, word) is None <==> !all.contains(word),
        match args::find_arg(all, word) {
            Some(i) => 0 <= i < all.len() && all[i] == word && forall|k: int|
                0 <= k < i ==> #[trigger] all[k] != word,
            None => true,
        },
    decreases all.len(),
{
    if all.len() > 0 {
        let rest = all.skip(1);
        lemma_no_arg(rest, word);
        if all[0] != word {
            if rest.contains(word) {
                let i = choose|i: int| 0 <= i < rest.len() && rest[i] == word;
                assert(all[i + 1] == word);
            }
            if all.contains(word) {
                let i = choose|i: int| 0 <= i < all.len() && all[i] == word;
                assert(rest[i - 1] == word);
            }
            match args::find_arg(rest, word) {
                Some(i) => {
                    assert forall|k: int| 0 <= k < i + 1 implies #[trigger] all[k] != word by {
                        if k > 0 {
                            assert(rest[k - 1] == all[k]);
                        }
                    }
                },
                None => {},
            }
        }
    }
}

/// The first argument of `info` that is no port is named; so is the first of
/// `kill` that is neither port nor flag.
pub proof fn law_wrong_port_is_named(good: Seq<u32>, bad: Seq<char>, behind: Seq<Seq<char>>)
    requires
        all_ports(good),
        args::port_arg(bad) is None,
    ensures
        args::mode_of(seq!["info"@] + (written_ports(good).push(bad) + behind)) == Err::<
            ModeView,
            ArgErrorView,
        >((ArgErrorView::InvalidPort { arg: bad })),
{
    let rest = written_ports(good).push(bad) + behind;
    let all = seq!["info"@] + rest;
    assert(all[0] == "info"@);
    assert(all.skip(1) =~= rest);
    lemma_first_bad(good, bad, behind);
}

proof fn lemma_first_bad(good: Seq<u32>, bad: Seq<char>, behind: Seq<Seq<char>>)
    requires
        all_ports(good),
        args::port_arg(bad) is None,
    ensures
        args::first_invalid(written_ports(good).push(bad) + behind) == Some(bad),
    decreases good.len(),
{
    let rest = written_ports(good).push(bad) + behind;
    if good.len() == 0 {
        assert(rest[0] == bad);
    } else {
        let g = good.skip(1);
        assert forall|i: int| 0 <= i < g.len() implies 1 <= #[trigger] g[i] <= 65535 by {
            assert(g[i] == good[i + 1]);
        }
        assert(1 <= good[0] <= 65535);
        law_port_argument(good[0] as nat);
        assert(rest[0] == number::decimal(good[0] as nat));
        assert(rest.skip(1) =~= written_ports(g).push(bad) + behind);
        lemma_first_bad(g, bad, behind);
    }
}

/// A command without ports is told apart from the others.
pub proof fn law_missing_ports_are_named(flags: Seq<Seq<char>>)
    requires
        forall|i: int|
            0 <= i < flags.len() ==> (#[trigger] flags[i] == "-9"@ || flags[i] == "--force"@
                || flags[i] == "-y"@ || flags[i] == "--yes"@),
    ensures
        args::mode_of(seq!["info"@]) == Err::<ModeView, ArgErrorView>(
            ArgErrorView::InfoWithoutPort,
        ),
        args::mode_of(seq!["kill"@] + flags) == Err::<ModeView, ArgErrorView>(
            ArgErrorView::KillWithoutPort,
        ),
{
    let one = seq!["info"@];
    assert(one[0] == "info"@);
    assert(one.skip(1) =~= Seq::<Seq<char>>::empty());
    let all = seq!["kill"@] + flags;
    assert(all[0] == "kill"@);
    assert(all.skip(1) =~= flags);
    reveal_strlit("info");
    reveal_strlit("kill");
    reveal_strlit("-9");
    reveal_strlit("--force");
    reveal_strlit("-y");
    reveal_strlit("--yes");
    assert("info"@[0] == 'i' && "kill"@[0] == 'k');
    assert(!all.contains("info"@)) by {
        if all.contains("info"@) {
            let i = choose|i: int| 0 <= i < all.len() && all[i] == "info"@;
            if i > 0 {
                assert(flags[i - 1] == "info"@);
                assert(flags[i - 1][0] == '-');
            }
        }
    }
    lemma_no_arg(all, "info"@);
    let g = |a: Seq<char>| !args::is_force(a) && !args::is_yes_flag(a);
    lemma_filter_none(flags, g);
}

proof fn lemma_filter_none(s: Seq<Seq<char>>, p: spec_fn(Seq<char>) -> bool)
    requires
        forall|i: int| 0 <= i < s.len() ==> !p(#[trigger] s[i]),
    ensures
        s.filter(p).len() == 0,
    decreases s.len(),
{
    reveal(Seq::filter);
    if s.len() > 0 {
        assert forall|i: int| 0 <= i < s.drop_last().len() implies !p(
            #[trigger] s.drop_last()[i],
        ) by {
            assert(s.drop_last()[i] == s[i]);
        }
        lemma_filter_none(s.drop_last(), p);
        assert(!p(s[s.len() - 1]));
    }
}

/// The dashboard is asked for by nothing, or by `--dev` for everything; the
/// first other word is named, and nothing may stand before a command.
pub proof fn law_dashboard_and_unknown_words(n: nat, word: Seq<char>, behind: Seq<Seq<char>>)
    requires
        word != "--dev"@,
        args::port_arg(word) is None || n > 0,
    ensures
        args::mode_of(Seq::new(n, |i: int| "--dev"@)) == Ok::<ModeView, ArgErrorView>(
            (ModeView::Dashboard { dev: n > 0 }),
        ),
        ({
            let line = Seq::new(n, |i: int| "--dev"@).push(word) + behind;
            word != "info"@ && word != "kill"@ && (behind.contains("info"@) || behind.contains(
                "kill"@,
            )) ==> args::mode_of(line) == Err::<ModeView, ArgErrorView>(
                (ArgErrorView::UnknownArgument { arg: line[0] }),
            )
        }),
        ({
            let line = Seq::new(n, |i: int| "--dev"@).push(word) + behind;
            !line.contains("info"@) && !line.contains("kill"@) ==> args::mode_of(line) == Err::<
                ModeView,
                ArgErrorView,
            >((ArgErrorView::UnknownArgument { arg: word }))
        }),
{
    reveal_strlit("info");
    reveal_strlit("kill");
    reveal_strlit("--dev");
    assert("info"@[0] == 'i' && "kill"@[0] == 'k' && "--dev"@[0] == '-');
    let devs = Seq::new(n, |i: int| "--dev"@);
    let line = devs.push(word) + behind;
    assert(!devs.contains("info"@));
    assert(!devs.contains("kill"@));
    lemma_no_arg(devs, "info"@);
    lemma_no_arg(devs, "kill"@);
    lemma_devs(n);
    if n > 0 {
        assert(devs[0] == "--dev"@);
        assert(args::port_arg("--dev"@) is None);
    }
    lemma_no_arg(line, "info"@);
    lemma_no_arg(line, "kill"@);
    lemma_first_word(n, word, behind);
    assert(line[0] == if n > 0 {
        "--dev"@
    } else {
        word
    });
    assert(args::first_invalid(line) is Some);
    if behind.contains("info"@) {
        let i = choose|i: int| 0 <= i < behind.len() && behind[i] == "info"@;
        assert(line[n + 1 + i] == "info"@);
    }
    if behind.contains("kill"@) {
        let i = choose|i: int| 0 <= i < behind.len() && behind[i] == "kill"@;
        assert(line[n + 1 + i] == "kill"@);
    }
    if word != "info"@ && word != "kill"@ {
        assert(line[0] != "info"@ && line[0] != "kill"@);
    }
}

proof fn lemma_devs(n: nat)
    ensures
        args::first_unknown(Seq::new(n, |i: int| "--dev"@)) is None,
    decreases n,
{
    if n > 0 {
        let m = (n - 1) as nat;
        lemma_devs(m);
        assert(Seq::new(n, |i: int| "--dev"@).skip(1) =~= Seq::new(m, |i: int| "--dev"@));
    }
}

proof fn lemma_first_word(n: nat, word: Seq<char>, behind: Seq<Seq<char>>)
    requires
        word != "--dev"@,
    ensures
        args::first_unknown(Seq::new(n, |i: int| "--dev"@).push(word) + behind) == Some(word),
    decreases n,
{
    let line = Seq::new(n, |i: int| "--dev"@).push(word) + behind;
    if n == 0 {
        assert(line[0] == word);
    } else {
        let m = (n - 1) as nat;
        lemma_first_word(m, word, behind);
        assert(line[0] == "--dev"@);
        assert(line.skip(1) =~= Seq::new(m, |i: int| "--dev"@).push(word) + behind);
    }
}

/// A flag counts in either spelling and wherever it stands, and nothing else
/// counts as it.
pub proof fn law_flags_stand_anywhere(
    before: Seq<Seq<char>>,
    flag: Seq<char>,
    behind: Seq<Seq<char>>,
    short: Seq<char>,
    long: Seq<char>,
)
    ensures
        flag == short || flag == long ==> args::has_flag(before.push(flag) + behind, short, long),
        flag != short && flag != long ==> args::has_flag(before.push(flag) + behind, short, long)
            == (args::has_flag(before, short, long) || args::has_flag(behind, short, long)),
        !args::has_flag(Seq::empty(), short, long),
{
    let all = before.push(flag) + behind;
    let n = before.len() as int;
    assert(all[n] == flag);
    if args::has_flag(before, short, long) {
        let i = choose|i: int|
            0 <= i < before.len() && ((#[trigger] before[i]) == short || before[i] == long);
        assert(all[i] == before[i]);
    }
    if args::has_flag(behind, short, long) {
        let i = choose|i: int|
            0 <= i < behind.len() && ((#[trigger] behind[i]) == short || behind[i] == long);
        assert(all[n + 1 + i] == behind[i]);
    }
    if args::has_flag(all, short, long) {
        let i = choose|i: int|
            0 <= i < all.len() && ((#[trigger] all[i]) == short || all[i] == long);
        if i < n {
            assert(before[i] == all[i]);
        } else if i > n {
            assert(behind[i - n - 1] == all[i]);
        }
    }
}

} // verus!
