//! How the embedding server is started and when it counts as ready.

use vstd::prelude::*;

use crate::text::{concat3, decimal, decimal_string};

verus! {

/// The context size the server is started with (tokens), suitable for
/// Nomic Embed Text v1.5.
pub const CONTEXT_SIZE: u32 = 8192;

/// How long to wait between two health probes, in milliseconds.
pub const POLL_INTERVAL_MS: u64 = 500;

/// The command-line arguments of `llama-server.exe`: the model, the port,
/// bound to 127.0.0.1, embedding mode, and a context of 8192 tokens.
pub open spec fn server_args_for(model_path: Seq<char>, port: u16) -> Seq<Seq<char>> {
    seq![
        "--model"@,
        model_path,
        "--port"@,
        decimal(port as nat),
        "--host"@,
        "127.0.0.1"@,
        "--embedding"@,
        "--ctx-size"@,
        decimal(CONTEXT_SIZE as nat),
    ]
}

/// The texts held by a vector of strings.
pub open spec fn args_of(v: Seq<String>) -> Seq<Seq<char>> {
    v.map_values(|s: String| s@)
}

/// The arguments to start the embedding server with the given model on the
/// given port.
pub fn server_args(model_path: &str, port: u16) -> (res: Vec<String>)
    ensures
        args_of(res@) == server_args_for(model_path@, port),
{
    let mut res: Vec<String> = Vec::new();
    res.push("--model".to_owned());
    res.push(model_path.to_owned());
    res.push("--port".to_owned());
    res.push(decimal_string(port as u64));
    res.push("--host".to_owned());
    res.push("127.0.0.1".to_owned());
    res.push("--embedding".to_owned());
    res.push("--ctx-size".to_owned());
    res.push(decimal_string(CONTEXT_SIZE as u64));
    assert(args_of(res@) =~= server_args_for(model_path@, port));
    res
}

/// The health endpoint of the server on `port` of the local machine.
pub open spec fn health_url_for(port: u16) -> Seq<char> {
    "http://127.0.0.1:"@ + decimal(port as nat) + "/health"@
}

/// The health endpoint of the server on the given port on localhost.
pub fn health_url(port: u16) -> (res: String)
    ensures
        res@ == health_url_for(port),
{
    let p = decimal_string(port as u64);
    concat3("http://127.0.0.1:", p.as_str(), "/health")
}

/// What to do next while waiting for the server to become ready.
#[derive(Debug, Clone, Copy, PartialEq, Eq, Structural)]
pub enum WaitAction {
    /// Send a health request.
    Probe,
    /// Sleep this many milliseconds, then ask again.
    Sleep(u64),
    /// The server answered with HTTP 200.
    Ready,
    /// The timeout has passed without a successful answer.
    TimedOut,
}

/// The HTTP status of a ready server's health endpoint.
pub const HTTP_OK: u16 = 200;

/// The next step of waiting for readiness, `elapsed_ms` after the start
/// with a timeout of `timeout_ms`: before a probe (`probe` is `None`) the
/// wait gives up once the timeout is exceeded and probes otherwise; after a
/// probe (`Some` of the answer's HTTP status, or of `None` when no answer
/// came), status 200 means ready and anything else means sleep and try
/// again.
pub open spec fn wait_decision(elapsed_ms: u64, timeout_ms: u64, probe: Option<Option<u16>>) -> WaitAction {
    match probe {
        None => if elapsed_ms > timeout_ms {
            WaitAction::TimedOut
        } else {
            WaitAction::Probe
        },
        Some(Some(status)) => if status == HTTP_OK {
            WaitAction::Ready
        } else {
            WaitAction::Sleep(POLL_INTERVAL_MS)
        },
        Some(None) => WaitAction::Sleep(POLL_INTERVAL_MS),
    }
}

/// Decides the next step of waiting until the server is ready.
pub fn wait_step(elapsed_ms: u64, timeout_ms: u64, probe: Option<Option<u16>>) -> (a: WaitAction)
    ensures
        a == wait_decision(elapsed_ms, timeout_ms, probe),
{
    match probe {
        None => if elapsed_ms > timeout_ms {
            WaitAction::TimedOut
        } else {
            WaitAction::Probe
        },
        Some(Some(status)) => if status == HTTP_OK {
            WaitAction::Ready
        } else {
            WaitAction::Sleep(POLL_INTERVAL_MS)
        },
        Some(None) => WaitAction::Sleep(POLL_INTERVAL_MS),
    }
}

/// Before a probe the wait gives up exactly when more milliseconds than
/// the timeout have elapsed, and probes otherwise; once it would give up it
/// gives up at every later time. After a probe it never gives up: it is
/// ready exactly on status 200, and otherwise sleeps the poll interval.
pub proof fn lemma_wait_decision(elapsed_ms: u64, later_ms: u64, timeout_ms: u64, status: Option<u16>)
    ensures
        (wait_decision(elapsed_ms, timeout_ms, None) == WaitAction::TimedOut) <==> elapsed_ms
            > timeout_ms,
        elapsed_ms <= timeout_ms ==> wait_decision(elapsed_ms, timeout_ms, None) == WaitAction::Probe,
        elapsed_ms <= later_ms && wait_decision(elapsed_ms, timeout_ms, None) == WaitAction::TimedOut
            ==> wait_decision(later_ms, timeout_ms, None) == WaitAction::TimedOut,
        (wait_decision(elapsed_ms, timeout_ms, Some(status)) == WaitAction::Ready) <==> status
            == Some(200u16),
        wait_decision(elapsed_ms, timeout_ms, Some(status)) != WaitAction::Ready ==> wait_decision(
            elapsed_ms,
            timeout_ms,
            Some(status),
        ) == WaitAction::Sleep(500),
{
}

} // verus!
