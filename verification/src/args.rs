//! The command line.

use vstd::prelude::*;
use crate::model;
use crate::number;
use crate::number::read_u32;
use crate::text::{chars_of, same_str};

verus! {

/// What to do.
#[derive(Debug, PartialEq, Eq)]
pub enum Mode {
    /// Show the table: user servers and containers, or with `dev` everything.
    Dashboard { dev: bool },
    /// Show the details of some ports.
    Info { ports: Vec<u32> },
    /// Terminate what listens on some ports.
    Kill { ports: Vec<u32>, force: bool, yes: bool },
}

/// The view of `Mode`.
#[verifier::ext_equal]
pub enum ModeView {
    Dashboard { dev: bool },
    Info { ports: Seq<u32> },
    Kill { ports: Seq<u32>, force: bool, yes: bool },
}

impl View for Mode {
    type V = ModeView;

    open spec fn view(&self) -> ModeView {
        match *self {
            Mode::Dashboard { dev } => ModeView::Dashboard { dev },
            Mode::Info { ports } => ModeView::Info { ports: ports@ },
            Mode::Kill { ports, force, yes } => ModeView::Kill { ports: ports@, force, yes },
        }
    }
}

/// What is wrong with a command line.
#[derive(Debug, PartialEq, Eq)]
pub enum ArgError {
    UnknownArgument { arg: String },
    InvalidPort { arg: String },
    InfoWithoutPort,
    KillWithoutPort,
}

/// The view of `ArgError`.
#[verifier::ext_equal]
pub enum ArgErrorView {
    UnknownArgument { arg: Seq<char> },
    InvalidPort { arg: Seq<char> },
    InfoWithoutPort,
    KillWithoutPort,
}

impl View for ArgError {
    type V = ArgErrorView;

    open spec fn view(&self) -> ArgErrorView {
        match *self {
            ArgError::UnknownArgument { arg } => ArgErrorView::UnknownArgument { arg: arg@ },
            ArgError::InvalidPort { arg } => ArgErrorView::InvalidPort { arg: arg@ },
            ArgError::InfoWithoutPort => ArgErrorView::InfoWithoutPort,
            ArgError::KillWithoutPort => ArgErrorView::KillWithoutPort,
        }
    }
}

/// The exit code on a command line that is wrong.
pub const USAGE_EXIT_CODE: i32 = 2;

/// What is printed on a command line that is wrong.
pub open spec fn error_text(e: ArgErrorView) -> Seq<char> {
    match e {
        ArgErrorView::UnknownArgument { arg } => "error: unknown argument '"@ + arg + "'"@,
        ArgErrorView::InvalidPort { arg } => "error: invalid port '"@ + arg + "'"@,
        ArgErrorView::InfoWithoutPort => "error: 'lport info' requires at least one port number."@,
        ArgErrorView::KillWithoutPort => "error: 'lport kill' requires at least one port number."@,
    }
}

impl ArgError {
    /// What is printed on a command line that is wrong.
    pub fn message(&self) -> (r: String)
        ensures
            r@ == error_text(self@),
    {
        match self {
            ArgError::UnknownArgument { arg } => {
                let mut s = "error: unknown argument '".to_owned();
                s.append(arg.as_str());
                s.append("'");
                s
            },
            ArgError::InvalidPort { arg } => {
                let mut s = "error: invalid port '".to_owned();
                s.append(arg.as_str());
                s.append("'");
                s
            },
            ArgError::InfoWithoutPort => {
                "error: 'lport info' requires at least one port number.".to_owned()
            },
            ArgError::KillWithoutPort => {
                "error: 'lport kill' requires at least one port number.".to_owned()
            },
        }
    }
}

/// The port that an argument names.
pub open spec fn port_arg(arg: Seq<char>) -> Option<u32> {
    match number::parse_u32(arg) {
        Some(p) => if 1 <= p <= 65535 {
            Some(p)
        } else {
            None
        },
        None => None,
    }
}

/// The first of `args` that names no port.
pub open spec fn first_invalid(args: Seq<Seq<char>>) -> Option<Seq<char>>
    decreases args.len(),
{
    if args.len() == 0 {
        None
    } else if port_arg(args[0]) is None {
        Some(args[0])
    } else {
        first_invalid(args.skip(1))
    }
}

/// The ports that `args` name.
pub open spec fn port_values(args: Seq<Seq<char>>) -> Seq<u32> {
    args.map_values(|a: Seq<char>| port_arg(a).unwrap())
}

/// The index of the first `word` in `args`.
pub open spec fn find_arg(args: Seq<Seq<char>>, word: Seq<char>) -> Option<int>
    decreases args.len(),
{
    if args.len() == 0 {
        None
    } else if args[0] == word {
        Some(0int)
    } else {
        match find_arg(args.skip(1), word) {
            Some(i) => Some(i + 1),
            None => None,
        }
    }
}

/// Whether `arg` asks for SIGKILL.
pub open spec fn is_force(arg: Seq<char>) -> bool {
    arg == "-9"@ || arg == "--force"@
}

/// Whether `arg` leaves the questions out.
pub open spec fn is_yes_flag(arg: Seq<char>) -> bool {
    arg == "-y"@ || arg == "--yes"@
}

/// The arguments of `lport kill` that are no flags.
pub open spec fn operands(args: Seq<Seq<char>>) -> Seq<Seq<char>> {
    args.filter(|a: Seq<char>| !is_force(a) && !is_yes_flag(a))
}

/// What `lport info` is asked for with `args`.
pub open spec fn info_mode(args: Seq<Seq<char>>) -> Result<ModeView, ArgErrorView> {
    match first_invalid(args) {
        Some(arg) => Err(ArgErrorView::InvalidPort { arg }),
        None => if args.len() == 0 {
            Err(ArgErrorView::InfoWithoutPort)
        } else {
            Ok(ModeView::Info { ports: port_values(args) })
        },
    }
}

/// What `lport kill` is asked for with `args`; flags may stand anywhere.
pub open spec fn kill_mode(args: Seq<Seq<char>>) -> Result<ModeView, ArgErrorView> {
    match first_invalid(operands(args)) {
        Some(arg) => Err(ArgErrorView::InvalidPort { arg }),
        None => if operands(args).len() == 0 {
            Err(ArgErrorView::KillWithoutPort)
        } else {
            Ok(
                ModeView::Kill {
                    ports: port_values(operands(args)),
                    force: exists|i: int| 0 <= i < args.len() && is_force(#[trigger] args[i]),
                    yes: exists|i: int| 0 <= i < args.len() && is_yes_flag(#[trigger] args[i]),
                },
            )
        },
    }
}

/// The first of `args` that is not `--dev`.
pub open spec fn first_unknown(args: Seq<Seq<char>>) -> Option<Seq<char>>
    decreases args.len(),
{
    if args.len() == 0 {
        None
    } else if args[0] != "--dev"@ {
        Some(args[0])
    } else {
        first_unknown(args.skip(1))
    }
}

/// What the command line `args` asks for. `info` and `kill` are commands of
/// their own, and nothing belongs in front of them; ports alone are short for
/// `info` with these ports.
pub open spec fn mode_of(args: Seq<Seq<char>>) -> Result<ModeView, ArgErrorView> {
    match (find_arg(args, "info"@), find_arg(args, "kill"@)) {
        (Some(i), _) => if i > 0 {
            Err(ArgErrorView::UnknownArgument { arg: args[0] })
        } else {
            info_mode(args.skip(1))
        },
        (None, Some(i)) => if i > 0 {
            Err(ArgErrorView::UnknownArgument { arg: args[0] })
        } else {
            kill_mode(args.skip(1))
        },
        (None, None) => if args.len() > 0 && first_invalid(args) is None {
            Ok(ModeView::Info { ports: port_values(args) })
        } else {
            match first_unknown(args) {
                Some(arg) => Err(ArgErrorView::UnknownArgument { arg }),
                None => Ok(ModeView::Dashboard { dev: args.len() > 0 }),
            }
        },
    }
}

/// The view of what was made of a command line.
pub open spec fn result_view(r: Result<Mode, ArgError>) -> Result<ModeView, ArgErrorView> {
    match r {
        Ok(m) => Ok(m@),
        Err(e) => Err(e@),
    }
}

/// Finds the first `word` in `args`.
fn position_of_arg(args: &Vec<String>, word: &str) -> (r: Option<usize>)
    ensures
        match r {
            Some(i) => i < args@.len() && find_arg(model::texts(args@), word@) == Some(i as int),
            None => find_arg(model::texts(args@), word@) is None,
        },
{
    let ghost all = model::texts(args@);
    let mut i: usize = 0;
    assert(all.skip(0) =~= all);
    while i < args.len()
        invariant
            i <= args@.len(),
            all == model::texts(args@),
            match find_arg(all.skip(i as int), word@) {
                Some(k) => find_arg(all, word@) == Some(i + k),
                None => find_arg(all, word@) is None,
            },
        decreases args@.len() - i,
    {
        assert(all.skip(i as int)[0] == args@[i as int]@);
        assert(all.skip(i as int).skip(1) =~= all.skip(i + 1));
        if same_str(args[i].as_str(), word) {
            return Some(i);
        }
        i += 1;
    }
    None
}

/// Reads the port that an argument names.
pub fn read_port(arg: &str) -> (r: Option<u32>)
    ensures
        r == port_arg(arg@),
{
    let cs = chars_of(arg);
    match read_u32(cs.as_slice()) {
        Some(p) => if 1 <= p && p <= 65535 {
            Some(p)
        } else {
            None
        },
        None => None,
    }
}

/// Reads the ports that `args` name.
fn read_ports(args: &Vec<&String>) -> (r: Result<Vec<u32>, String>)
    ensures
        match r {
            Ok(ports) => first_invalid(refs(args@)) is None && ports@ == port_values(refs(args@)),
            Err(arg) => first_invalid(refs(args@)) == Some(arg@),
        },
{
    let ghost all = refs(args@);
    let mut ports: Vec<u32> = Vec::new();
    let mut i: usize = 0;
    assert(all.skip(0) =~= all);
    while i < args.len()
        invariant
            i <= args@.len(),
            all == refs(args@),
            first_invalid(all) == first_invalid(all.skip(i as int)),
            ports@ =~= port_values(all).take(i as int),
        decreases args@.len() - i,
    {
        assert(all.skip(i as int)[0] == args@[i as int]@);
        assert(all.skip(i as int).skip(1) =~= all.skip(i + 1));
        match read_port(args[i].as_str()) {
            Some(p) => {
                ports.push(p);
            },
            None => {
                return Err(args[i].clone());
            },
        }
        i += 1;
    }
    assert(port_values(all).take(i as int) =~= port_values(all));
    Ok(ports)
}

/// The contents of a list of borrowed strings.
spec fn refs(v: Seq<&String>) -> Seq<Seq<char>> {
    v.map_values(|s: &String| s@)
}

/// Reads the ports that `args` name from index `from` on.
fn read_ports_from(args: &Vec<String>, from: usize) -> (r: Result<Vec<u32>, String>)
    requires
        from <= args.len(),
    ensures
        match r {
            Ok(ports) => first_invalid(model::texts(args@).skip(from as int)) is None && ports@
                == port_values(model::texts(args@).skip(from as int)),
            Err(arg) => first_invalid(model::texts(args@).skip(from as int)) == Some(arg@),
        },
{
    let mut rest: Vec<&String> = Vec::new();
    let mut i: usize = from;
    while i < args.len()
        invariant
            from <= i <= args@.len(),
            refs(rest@) =~= model::texts(args@).subrange(from as int, i as int),
        decreases args@.len() - i,
    {
        let ghost before = refs(rest@);
        rest.push(&args[i]);
        assert(refs(rest@) =~= before.push(args@[i as int]@));
        i += 1;
    }
    assert(refs(rest@) =~= model::texts(args@).skip(from as int));
    read_ports(&rest)
}

/// Reads the arguments of `lport info`.
fn read_info(args: &Vec<String>) -> (r: Result<Mode, ArgError>)
    requires
        args@.len() > 0,
    ensures
        result_view(r) == info_mode(model::texts(args@).skip(1)),
{
    match read_ports_from(args, 1) {
        Ok(ports) => if args.len() == 1 {
            Err(ArgError::InfoWithoutPort)
        } else {
            Ok(Mode::Info { ports })
        },
        Err(arg) => Err(ArgError::InvalidPort { arg }),
    }
}

/// Reads the arguments of `lport kill`.
fn read_kill(args: &Vec<String>) -> (r: Result<Mode, ArgError>)
    requires
        args@.len() > 0,
    ensures
        result_view(r) == kill_mode(model::texts(args@).skip(1)),
{
    let ghost all = model::texts(args@).skip(1);
    let ghost keep = |a: Seq<char>| !is_force(a) && !is_yes_flag(a);
    let mut rest: Vec<&String> = Vec::new();
    let mut force: bool = false;
    let mut yes: bool = false;
    let mut i: usize = 1;
    assert(all.take(0) =~= Seq::<Seq<char>>::empty());
    assert(refs(rest@) =~= Seq::<Seq<char>>::empty());
    reveal(Seq::filter);
    while i < args.len()
        invariant
            1 <= i <= args@.len(),
            all == model::texts(args@).skip(1),
            keep == (|a: Seq<char>| !is_force(a) && !is_yes_flag(a)),
            refs(rest@) =~= all.take(i - 1).filter(keep),
            force == exists|k: int| 0 <= k < i - 1 && is_force(#[trigger] all[k]),
            yes == exists|k: int| 0 <= k < i - 1 && is_yes_flag(#[trigger] all[k]),
        decreases args@.len() - i,
    {
        reveal(Seq::filter);
        let a = &args[i];
        assert(all[i - 1] == a@);
        assert(all.take(i as int).drop_last() =~= all.take(i - 1));
        assert(all.take(i as int).last() == a@);
        let s = a.as_str();
        if same_str(s, "-9") || same_str(s, "--force") {
            force = true;
        } else if same_str(s, "-y") || same_str(s, "--yes") {
            yes = true;
        } else {
            rest.push(a);
        }
        proof {
            assert(is_force(a@) ==> !is_yes_flag(a@)) by {
                reveal_strlit("-9");
                reveal_strlit("--force");
                reveal_strlit("-y");
                reveal_strlit("--yes");
                if is_force(a@) && is_yes_flag(a@) {
                    assert(a@[1] == '9' || a@.len() == 7);
                    assert(a@[1] == 'y' || a@.len() == 5);
                }
            }
        }
        i += 1;
    }
    assert(all.take(all.len() as int) =~= all);
    match read_ports(&rest) {
        Ok(ports) => if rest.len() == 0 {
            Err(ArgError::KillWithoutPort)
        } else {
            Ok(Mode::Kill { ports, force, yes })
        },
        Err(arg) => Err(ArgError::InvalidPort { arg }),
    }
}

/// Reads the command line.
pub fn parse_mode(args: &Vec<String>) -> (r: Result<Mode, ArgError>)
    ensures
        result_view(r) == mode_of(model::texts(args@)),
{
    let ghost all = model::texts(args@);
    if let Some(i) = position_of_arg(args, "info") {
        if i > 0 {
            return Err(ArgError::UnknownArgument { arg: args[0].clone() });
        }
        return read_info(args);
    }
    if let Some(i) = position_of_arg(args, "kill") {
        if i > 0 {
            return Err(ArgError::UnknownArgument { arg: args[0].clone() });
        }
        return read_kill(args);
    }
    assert(all.skip(0) =~= all);
    if args.len() > 0 {
        if let Ok(ports) = read_ports_from(args, 0) {
            return Ok(Mode::Info { ports });
        }
    }
    let mut i: usize = 0;
    while i < args.len()
        invariant
            i <= args@.len(),
            all == model::texts(args@),
            all.len() > 0 ==> first_invalid(all) is Some,
            find_arg(all, "info"@) is None,
            find_arg(all, "kill"@) is None,
            first_unknown(all) == first_unknown(all.skip(i as int)),
        decreases args@.len() - i,
    {
        assert(all.skip(i as int)[0] == args@[i as int]@);
        assert(all.skip(i as int).skip(1) =~= all.skip(i + 1));
        if !same_str(args[i].as_str(), "--dev") {
            return Err(ArgError::UnknownArgument { arg: args[i].clone() });
        }
        i += 1;
    }
    Ok(Mode::Dashboard { dev: args.len() > 0 })
}

/// What the program was called for.
#[derive(Debug, PartialEq, Eq)]
pub enum Invocation {
    Help,
    Version,
    Run { mode: Mode },
}

/// Whether any of `args` is one of two spellings of a flag.
pub open spec fn has_flag(args: Seq<Seq<char>>, short: Seq<char>, long: Seq<char>) -> bool {
    exists|i: int| 0 <= i < args.len() && ((#[trigger] args[i]) == short || args[i] == long)
}

/// Whether any of `args` is one of two spellings of a flag.
fn contains_flag(args: &Vec<String>, short: &str, long: &str) -> (r: bool)
    ensures
        r == has_flag(model::texts(args@), short@, long@),
{
    let ghost all = model::texts(args@);
    let mut i: usize = 0;
    while i < args.len()
        invariant
            i <= args@.len(),
            all == model::texts(args@),
            forall|k: int| 0 <= k < i ==> (#[trigger] all[k]) != short@ && all[k] != long@,
        decreases args@.len() - i,
    {
        assert(all[i as int] == args@[i as int]@);
        if same_str(args[i].as_str(), short) || same_str(args[i].as_str(), long) {
            return true;
        }
        i += 1;
    }
    false
}

/// Reads what the program was called for: a request for help anywhere on the
/// command line comes before one for the version, and both before the rest.
pub fn parse_invocation(args: &Vec<String>) -> (r: Result<Invocation, ArgError>)
    ensures
        ({
            let all = model::texts(args@);
            match r {
                Ok(Invocation::Help) => has_flag(all, "-h"@, "--help"@),
                Ok(Invocation::Version) => !has_flag(all, "-h"@, "--help"@) && has_flag(
                    all,
                    "-V"@,
                    "--version"@,
                ),
                Ok(Invocation::Run { mode }) => !has_flag(all, "-h"@, "--help"@) && !has_flag(
                    all,
                    "-V"@,
                    "--version"@,
                ) && mode_of(all) == Ok::<ModeView, ArgErrorView>(mode@),
                Err(e) => !has_flag(all, "-h"@, "--help"@) && !has_flag(
                    all,
                    "-V"@,
                    "--version"@,
                ) && mode_of(all) == Err::<ModeView, ArgErrorView>(e@),
            }
        }),
{
    if contains_flag(args, "-h", "--help") {
        return Ok(Invocation::Help);
    }
    if contains_flag(args, "-V", "--version") {
        return Ok(Invocation::Version);
    }
    match parse_mode(args) {
        Ok(mode) => Ok(Invocation::Run { mode }),
        Err(e) => Err(e),
    }
}

proof fn lemma_all_ports(args: Seq<Seq<char>>, i: int)
    requires
        first_invalid(args) is None,
        0 <= i < args.len(),
    ensures
        port_arg(args[i]) is Some,
    decreases args.len(),
{
    if i > 0 {
        lemma_all_ports(args.skip(1), i - 1);
        assert(args.skip(1)[i - 1] == args[i]);
    }
}

/// Whatever command line is accepted, details and `kill` get at least one
/// port, and every port they get is one there can be.
pub proof fn law_requested_ports_are_ports(args: Seq<Seq<char>>)
    ensures
        match mode_of(args) {
            Ok(ModeView::Info { ports }) => ports.len() > 0 && forall|i: int|
                0 <= i < ports.len() ==> 1 <= #[trigger] ports[i] <= 65535,
            Ok(ModeView::Kill { ports, .. }) => ports.len() > 0 && forall|i: int|
                0 <= i < ports.len() ==> 1 <= #[trigger] ports[i] <= 65535,
            _ => true,
        },
{
    match mode_of(args) {
        Ok(ModeView::Info { ports }) => {
            let a = if find_arg(args, "info"@) is Some {
                args.skip(1)
            } else {
                args
            };
            assert forall|i: int| 0 <= i < ports.len() implies 1 <= #[trigger] ports[i] <= 65535 by {
                lemma_all_ports(a, i);
            }
        },
        Ok(ModeView::Kill { ports, force, yes }) => {
            let a = operands(args.skip(1));
            assert forall|i: int| 0 <= i < ports.len() implies 1 <= #[trigger] ports[i] <= 65535 by {
                lemma_all_ports(a, i);
            }
        },
        _ => {},
    }
}

/// `word` stands nowhere among ports, if it is none.
proof fn lemma_no_word_among_ports(args: Seq<Seq<char>>, word: Seq<char>)
    requires
        first_invalid(args) is None,
        port_arg(word) is None,
    ensures
        find_arg(args, word) is None,
    decreases args.len(),
{
    if args.len() > 0 {
        lemma_no_word_among_ports(args.skip(1), word);
    }
}

/// Ports alone mean the same as `info` in front of them.
pub proof fn law_bare_ports_mean_info(args: Seq<Seq<char>>)
    requires
        args.len() > 0,
        first_invalid(args) is None,
    ensures
        mode_of(args) == mode_of(seq!["info"@] + args),
        mode_of(args) == Ok::<ModeView, ArgErrorView>(ModeView::Info { ports: port_values(args) }),
{
    reveal_strlit("info");
    reveal_strlit("kill");
    assert(!number::is_digit("info"@[0]) && !number::is_digit("kill"@[0]));
    lemma_no_word_among_ports(args, "info"@);
    lemma_no_word_among_ports(args, "kill"@);
    let long = seq!["info"@] + args;
    assert(long[0] == "info"@);
    assert(long.skip(1) =~= args);
}

/// A flag of `lport kill` means the same wherever it stands.
pub proof fn law_kill_flags_stand_anywhere(
    before: Seq<Seq<char>>,
    flag: Seq<char>,
    behind: Seq<Seq<char>>,
)
    requires
        is_force(flag) || is_yes_flag(flag),
    ensures
        kill_mode(before + seq![flag] + behind) == kill_mode(seq![flag] + before + behind),
{
    let keep = |a: Seq<char>| !is_force(a) && !is_yes_flag(a);
    let one = seq![flag];
    let mid = before + one + behind;
    let front = one + before + behind;
    let n = before.len() as int;
    reveal_with_fuel(Seq::filter, 2);
    assert(one.drop_last() =~= Seq::<Seq<char>>::empty());
    assert(one.filter(keep) =~= Seq::<Seq<char>>::empty());
    Seq::filter_distributes_over_add(before, one, keep);
    Seq::filter_distributes_over_add(before + one, behind, keep);
    Seq::filter_distributes_over_add(one, before, keep);
    Seq::filter_distributes_over_add(one + before, behind, keep);
    assert(before.filter(keep) + one.filter(keep) =~= one.filter(keep) + before.filter(keep));
    assert(operands(mid) =~= operands(front));
    assert(mid[n] == flag && front[0] == flag);
    assert forall|i: int| 0 <= i < n implies mid[i] == before[i] && front[i + 1] == before[i] by {}
    assert forall|i: int| n < i < mid.len() implies mid[i] == front[i] by {}
    let f = |s: Seq<Seq<char>>| exists|i: int| 0 <= i < s.len() && is_force(#[trigger] s[i]);
    let y = |s: Seq<Seq<char>>| exists|i: int| 0 <= i < s.len() && is_yes_flag(#[trigger] s[i]);
    assert(f(mid) == f(front)) by {
        if f(mid) {
            let i = choose|i: int| 0 <= i < mid.len() && is_force(#[trigger] mid[i]);
            let k = if i < n {
                i + 1
            } else if i == n {
                0
            } else {
                i
            };
            assert(is_force(front[k]));
        }
        if f(front) {
            let i = choose|i: int| 0 <= i < front.len() && is_force(#[trigger] front[i]);
            let k = if i == 0 {
                n
            } else if i <= n {
                i - 1
            } else {
                i
            };
            assert(is_force(mid[k]));
        }
    }
    assert(y(mid) == y(front)) by {
        if y(mid) {
            let i = choose|i: int| 0 <= i < mid.len() && is_yes_flag(#[trigger] mid[i]);
            let k = if i < n {
                i + 1
            } else if i == n {
                0
            } else {
                i
            };
            assert(is_yes_flag(front[k]));
        }
        if y(front) {
            let i = choose|i: int| 0 <= i < front.len() && is_yes_flag(#[trigger] front[i]);
            let k = if i == 0 {
                n
            } else if i <= n {
                i - 1
            } else {
                i
            };
            assert(is_yes_flag(mid[k]));
        }
    }
}

} // verus!
