//! Waiting for a signalled process to disappear, and reading whether it has.

use vstd::prelude::*;
use vstd::slice::slice_subrange;
use crate::kill::POLL_MS;
use crate::text;
use crate::text::{chars_of, last_position_of, spells, split_words, trimmed};

verus! {

/// What to do after a look at the process.
#[derive(Clone, Copy, Debug, PartialEq, Eq, Structural)]
pub enum WaitStep {
    /// The process is gone.
    Gone,
    /// Sleep for `POLL_MS` and look again; `waited_ms` will have passed then.
    Sleep { waited_ms: u64 },
    /// The time is up and the process is still there.
    StillAlive,
}

/// What a look calls for, `waited_ms` into a wait of `timeout_ms`.
pub open spec fn next_look(waited_ms: nat, timeout_ms: nat, alive: bool) -> WaitStep {
    if !alive {
        WaitStep::Gone
    } else if waited_ms < timeout_ms {
        WaitStep::Sleep { waited_ms: (waited_ms + POLL_MS) as u64 }
    } else {
        WaitStep::StillAlive
    }
}

/// Decides what a look at the process calls for.
pub fn wait_for_exit(waited_ms: u64, timeout_ms: u64, alive: bool) -> (r: WaitStep)
    requires
        timeout_ms <= u64::MAX - POLL_MS,
    ensures
        r == next_look(waited_ms as nat, timeout_ms as nat, alive),
{
    if !alive {
        WaitStep::Gone
    } else if waited_ms < timeout_ms {
        WaitStep::Sleep { waited_ms: waited_ms + POLL_MS }
    } else {
        WaitStep::StillAlive
    }
}

/// How a wait ends in which the looks find `alive`, one after the other:
/// whether the process was seen gone, and after how many looks. `None` while
/// the wait still goes on.
pub open spec fn wait_result(alive: Seq<bool>, waited_ms: nat, timeout_ms: nat) -> Option<
    (bool, nat),
>
    decreases alive.len(),
{
    if alive.len() == 0 {
        None
    } else {
        match next_look(waited_ms, timeout_ms, alive[0]) {
            WaitStep::Gone => Some((true, 1nat)),
            WaitStep::StillAlive => Some((false, 1nat)),
            WaitStep::Sleep { .. } => match wait_result(
                alive.skip(1),
                waited_ms + POLL_MS as nat,
                timeout_ms,
            ) {
                Some((gone, looks)) => Some((gone, looks + 1)),
                None => None,
            },
        }
    }
}

/// How many sleeps a wait of `timeout_ms` has room for.
pub open spec fn sleeps(timeout_ms: nat) -> nat {
    (timeout_ms + POLL_MS as nat - 1) as nat / POLL_MS as nat
}

/// A wait ends with the process seen gone at the first look that misses it,
/// and otherwise after the last sleep that the time has room for: it never
/// reports a process gone that every look found alive.
pub proof fn law_wait_ends(alive: Seq<bool>, waited_ms: nat, timeout_ms: nat)
    requires
        timeout_ms <= u64::MAX - POLL_MS,
        waited_ms <= timeout_ms,
        alive.len() > sleeps((timeout_ms - waited_ms) as nat),
    ensures
        match wait_result(alive, waited_ms, timeout_ms) {
            Some((gone, looks)) => {
                &&& 1 <= looks <= sleeps((timeout_ms - waited_ms) as nat) + 1
                &&& gone == !alive[looks - 1]
                &&& forall|i: int| 0 <= i < looks - 1 ==> alive[i]
                &&& !gone ==> looks == sleeps((timeout_ms - waited_ms) as nat) + 1
            },
            None => false,
        },
    decreases alive.len(),
{
    let left = (timeout_ms - waited_ms) as nat;
    if alive[0] && waited_ms < timeout_ms {
        let w = waited_ms + POLL_MS as nat;
        let rest = alive.skip(1);
        assert forall|i: int| 0 <= i < rest.len() implies rest[i] == alive[i + 1] by {}
        if w <= timeout_ms {
            assert(sleeps((timeout_ms - w) as nat) + 1 == sleeps(left));
            law_wait_ends(rest, w, timeout_ms);
        } else {
            assert(sleeps(left) == 1);
            assert(wait_result(rest, w, timeout_ms) == Some((!rest[0], 1nat)));
        }
        let looks = wait_result(rest, w, timeout_ms).unwrap().1;
        assert(alive[looks as int] == rest[looks - 1]);
        assert forall|i: int| 0 <= i < looks implies alive[i] by {
            if i > 0 {
                assert(alive[i] == rest[i - 1]);
            }
        }
    }
}

/// What a `/proc/<pid>/stat` line says of a process: the state follows the
/// last closing parenthesis, and a zombie or a dying process counts as gone.
pub open spec fn stat_alive(stat: Seq<char>) -> bool {
    match text::rfind_char(stat, ')') {
        None => false,
        Some(i) => {
            let fields = text::words(stat.skip(i + 1));
            fields.len() == 0 || (fields[0] != "Z"@ && fields[0] != "X"@)
        },
    }
}

/// Reads from a `/proc/<pid>/stat` line whether the process is alive; no
/// line means that there is no process.
pub fn pid_alive(stat: Option<&str>) -> (r: bool)
    ensures
        r == match stat {
            Some(s) => stat_alive(s@),
            None => false,
        },
{
    let line = match stat {
        Some(s) => chars_of(s),
        None => {
            return false;
        },
    };
    let s = line.as_slice();
    match last_position_of(s, ')') {
        None => false,
        Some(i) => {
            let rest = slice_subrange(s, i + 1, s.len());
            assert(rest@ =~= s@.skip(i + 1));
            let fields = split_words(rest);
            if fields.len() == 0 {
                assert(text::words(rest@).len() == 0);
                return true;
            }
            assert(text::pieces(fields@)[0] == fields@[0]@);
            !spells(fields[0], "Z") && !spells(fields[0], "X")
        },
    }
}

/// What `ps -o stat=` says of a process: no output means that there is none,
/// and a state that begins with `Z` is a zombie's.
pub open spec fn ps_stat_alive(out: Seq<char>) -> bool {
    text::trim(out).len() > 0 && text::trim(out)[0] != 'Z'
}

/// Reads from the output of `ps -o stat=` whether the process is alive.
pub fn pid_alive_ps(out: &str) -> (r: bool)
    ensures
        r == ps_stat_alive(out@),
{
    let line = chars_of(out);
    let t = trimmed(line.as_slice());
    t.len() > 0 && t[0] != 'Z'
}

} // verus!
