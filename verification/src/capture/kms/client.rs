//! The connection to the KMS helper: the socket it is asked to come to, and how long it is
//! waited for.

use vstd::prelude::*;
use vstd::string::*;

use crate::config::paths;
use crate::config::paths::push_component;
use crate::text;
use crate::text::decimal_text;

use super::protocol::REQUEST_SIZE;

verus! {

/// How long the helper is waited for, in nanoseconds.
pub const ACCEPT_TIMEOUT_NS: u64 = 5_000_000_000;

/// The pause between two looks, in milliseconds.
pub const ACCEPT_PAUSE_MS: u64 = 10;

/// What follows when the helper has not connected yet.
#[derive(Clone, Copy, Debug, PartialEq, Eq, Structural)]
pub enum AcceptStep {
    /// The helper is gone.
    HelperExited,
    /// The helper took too long.
    TimedOut,
    /// Look again after the pause.
    LookAgain,
}

/// Decides what follows when the helper has not connected after so many nanoseconds.
pub fn accept_step(exited: bool, elapsed_ns: u64) -> (s: AcceptStep)
    ensures
        s == if exited {
            AcceptStep::HelperExited
        } else if elapsed_ns > ACCEPT_TIMEOUT_NS {
            AcceptStep::TimedOut
        } else {
            AcceptStep::LookAgain
        },
{
    if exited {
        AcceptStep::HelperExited
    } else if elapsed_ns > ACCEPT_TIMEOUT_NS {
        AcceptStep::TimedOut
    } else {
        AcceptStep::LookAgain
    }
}

/// Whether a request went out whole.
pub fn is_whole_request(sent: usize) -> (r: bool)
    ensures
        r == (sent == REQUEST_SIZE),
{
    sent == REQUEST_SIZE
}

/// The name of the socket of a process's `n`-th connection.
pub open spec fn socket_name(pid: u32, n: u32) -> Seq<char> {
    ".gsr-kms-socket-rustiferin-"@ + text::decimal(pid as int) + "-"@ + text::decimal(n as int)
}

/// The socket of a process's `n`-th connection, below the home directory.
pub fn socket_path(home: Vec<u8>, pid: u32, n: u32) -> (path: Vec<u8>)
    ensures
        path@ == paths::below(home@, socket_name(pid, n)),
{
    let mut name: String = ".gsr-kms-socket-rustiferin-".to_owned();
    name.append(decimal_text(pid).as_str());
    name.append("-");
    name.append(decimal_text(n).as_str());
    assert(name@ =~= socket_name(pid, n));
    let mut path: Vec<u8> = home;
    push_component(&mut path, name.as_str());
    path
}

/// Where the first dash of digits, a dash and more lies.
proof fn lemma_dash(a: Seq<char>, b: Seq<char>, i: int)
    requires
        forall|j: int| 0 <= j < a.len() ==> text::is_digit(#[trigger] a[j]),
        0 <= i <= a.len(),
    ensures
        (a + "-"@ + b).len() == a.len() + 1 + b.len(),
        (a + "-"@ + b)[i] == '-' <==> i == a.len(),
{
    reveal_strlit("-");
    if i < a.len() {
        assert(text::is_digit(a[i]));
    }
}

/// Connections of different processes, and different connections of one process, have different
/// sockets.
pub proof fn socket_names_differ(p: u32, m: u32, q: u32, n: u32)
    requires
        socket_name(p, m) == socket_name(q, n),
    ensures
        p == q,
        m == n,
{
    let head = ".gsr-kms-socket-rustiferin-"@;
    let a = text::decimal(p as int);
    let b = text::decimal(m as int);
    let c = text::decimal(q as int);
    let d = text::decimal(n as int);
    text::decimal_is_digits(p as int);
    text::decimal_is_digits(q as int);
    let x = a + "-"@ + b;
    let y = c + "-"@ + d;
    assert(socket_name(p, m) =~= head + x);
    assert(socket_name(q, n) =~= head + y);
    assert(x =~= y) by {
        let s = socket_name(p, m);
        assert(s.skip(head.len() as int) =~= x);
        assert(s.skip(head.len() as int) =~= y);
    }
    if a.len() < c.len() {
        lemma_dash(a, b, a.len() as int);
        lemma_dash(c, d, a.len() as int);
    } else if c.len() < a.len() {
        lemma_dash(a, b, c.len() as int);
        lemma_dash(c, d, c.len() as int);
    }
    reveal_strlit("-");
    assert(a =~= x.take(a.len() as int));
    assert(c =~= y.take(a.len() as int));
    assert(b =~= x.skip(a.len() as int + 1));
    assert(d =~= y.skip(a.len() as int + 1));
    text::decimal_is_injective(p as int, q as int);
    text::decimal_is_injective(m as int, n as int);
}

} // verus!
