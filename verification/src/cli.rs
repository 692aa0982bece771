//! What the command line decides: which request goes to a running server, how one is stopped, and
//! what an uninstall removes.

use crate::text::{
    contains_text, has_text, lower, lowered, parse_number, parse_u32, same_text, texts, trim, trim_end_char, trimmed,
    trimmed_end_char,
};
use vstd::prelude::*;
use vstd::string::*;

verus! {

/// How a request is made.
#[derive(Clone, Copy, Debug, PartialEq, Eq, Structural)]
pub enum HttpMethod {
    Get,
    Post,
}

/// A request to a running server.
#[derive(Debug)]
pub enum ApiCall {
    BlockingStatus,
    /// With the duration of the pause.
    BlockingDisable(String),
    BlockingEnable,
    BlockingRefresh,
    CacheStats,
    CacheClear,
    Metrics,
    QuerylogSummary,
    QuerylogFlush,
    Shutdown,
}

/// How a request is made.
pub open spec fn call_method(call: ApiCall) -> HttpMethod {
    match call {
        ApiCall::BlockingRefresh | ApiCall::CacheClear | ApiCall::QuerylogFlush | ApiCall::Shutdown =>
            HttpMethod::Post,
        _ => HttpMethod::Get,
    }
}

/// What follows the address of the server in a request.
pub open spec fn call_path(call: ApiCall) -> Seq<char> {
    match call {
        ApiCall::BlockingStatus => "/api/blocking/status"@,
        ApiCall::BlockingDisable(duration) => "/api/blocking/disable?duration="@ + duration@,
        ApiCall::BlockingEnable => "/api/blocking/enable"@,
        ApiCall::BlockingRefresh => "/api/blocking/refresh"@,
        ApiCall::CacheStats => "/api/cache/stats"@,
        ApiCall::CacheClear => "/api/cache/clear"@,
        ApiCall::Metrics => "/metrics"@,
        ApiCall::QuerylogSummary => "/api/querylog/summary"@,
        ApiCall::QuerylogFlush => "/api/querylog/flush"@,
        ApiCall::Shutdown => "/api/shutdown"@,
    }
}

/// How a request to the server at an address is made, and its address.
pub fn api_request(base: &str, call: &ApiCall) -> (r: (HttpMethod, String))
    ensures
        r.0 == call_method(*call),
        r.1@ == trim_end_char(base@, '/') + call_path(*call),
{
    let mut url = trimmed_end_char(base, '/');
    let (method, path): (HttpMethod, &str) = match call {
        ApiCall::BlockingStatus => (HttpMethod::Get, "/api/blocking/status"),
        ApiCall::BlockingDisable(_) => (HttpMethod::Get, "/api/blocking/disable?duration="),
        ApiCall::BlockingEnable => (HttpMethod::Get, "/api/blocking/enable"),
        ApiCall::BlockingRefresh => (HttpMethod::Post, "/api/blocking/refresh"),
        ApiCall::CacheStats => (HttpMethod::Get, "/api/cache/stats"),
        ApiCall::CacheClear => (HttpMethod::Post, "/api/cache/clear"),
        ApiCall::Metrics => (HttpMethod::Get, "/metrics"),
        ApiCall::QuerylogSummary => (HttpMethod::Get, "/api/querylog/summary"),
        ApiCall::QuerylogFlush => (HttpMethod::Post, "/api/querylog/flush"),
        ApiCall::Shutdown => (HttpMethod::Post, "/api/shutdown"),
    };
    url.append(path);
    match call {
        ApiCall::BlockingDisable(duration) => url.append(duration.as_str()),
        _ => {},
    }
    assert(url@ =~= trim_end_char(base@, '/') + call_path(*call));
    (method, url)
}

/// What is to be done to stop a server.
#[derive(Debug)]
pub enum StopStep {
    /// Nothing: it stops on request.
    Stopped,
    /// Nothing: no server seems to run.
    NotRunning,
    /// See whether the process is alive, and end it.
    EndProcess {
        pid: u32,
        /// The number as the file has it.
        text: String,
    },
}

/// What is to be done to stop a server, where `requested` says whether it took the request to
/// stop, and `pid_file` is the text of the file with the number of its process.
pub fn stop_step(requested: bool, pid_file: Option<&str>) -> (r: StopStep)
    ensures
        requested ==> r is Stopped,
        !requested && pid_file is None ==> r is NotRunning,
        !requested && pid_file is Some ==> {
            let t = trim(pid_file->0@);
            match parse_number(t, u32::MAX as int) {
                Some(n) => {
                    &&& r matches StopStep::EndProcess { pid, text }
                    &&& pid == n
                    &&& text@ == t
                },
                None => r is NotRunning,
            }
        },
{
    if requested {
        return StopStep::Stopped;
    }
    match pid_file {
        Some(content) => {
            let text = trimmed(content);
            match parse_u32(text.as_str()) {
                Some(pid) => StopStep::EndProcess { pid, text },
                None => StopStep::NotRunning,
            }
        },
        None => StopStep::NotRunning,
    }
}

/// How often a process that was told to end is looked at.
pub const STOP_POLLS: u32 = 30;

/// Whether to go on waiting for a process to end, after it was looked at `polls` times.
pub fn keep_waiting(polls: u32, alive: bool) -> (r: bool)
    ensures
        r == (alive && polls < STOP_POLLS),
        r == (alive && polls < 30),
{
    alive && polls < STOP_POLLS
}

/// Whether an answer to the question whether to uninstall is a yes.
pub fn confirms(input: &str) -> (r: bool)
    ensures
        r == (lower(trim(input@)) == "y"@ || lower(trim(input@)) == "yes"@),
{
    let answer = lowered(trimmed(input).as_str());
    same_text(answer.as_str(), "y") || same_text(answer.as_str(), "yes")
}

/// A path below a directory.
pub open spec fn joined(dir: Seq<char>, rest: Seq<char>) -> Seq<char> {
    if dir.len() == 0 || dir.last() == '/' {
        dir + rest
    } else {
        dir + "/"@ + rest
    }
}

/// Where the program may be installed, with the home directory of the user.
pub open spec fn install_paths(home: Option<Seq<char>>) -> Seq<Seq<char>> {
    match home {
        Some(home) => seq![
            joined(home, ".cargo/bin/rdns"@),
            joined(home, ".local/bin/rdns"@),
            "/usr/local/bin/rdns"@,
        ],
        None => seq!["/usr/local/bin/rdns"@],
    }
}

fn join(dir: &str, rest: &str) -> (r: String)
    ensures
        r@ == joined(dir@, rest@),
{
    let n: usize = dir.unicode_len();
    let mut s = dir.to_string();
    if n > 0 && dir.get_char(n - 1) != '/' {
        s.append("/");
    }
    s.append(rest);
    s
}

/// Where the program may be installed, with the home directory of the user.
pub fn candidate_paths(home: Option<&str>) -> (r: Vec<String>)
    ensures
        texts(r@) == install_paths(
            match home {
                Some(h) => Some(h@),
                None => None,
            },
        ),
{
    let mut out: Vec<String> = Vec::new();
    match home {
        Some(h) => {
            out.push(join(h, ".cargo/bin/rdns"));
            out.push(join(h, ".local/bin/rdns"));
        },
        None => {},
    }
    out.push("/usr/local/bin/rdns".to_string());
    assert(texts(out@) =~= install_paths(
        match home {
            Some(h) => Some(h@),
            None => None,
        },
    ));
    out
}

/// Whether a file at a path is one that an uninstall removes: not the output of a build.
pub fn is_removable(path: &str) -> (r: bool)
    ensures
        r == !(has_text(path@, "/target/debug/"@) || has_text(path@, "/target/release/"@)),
{
    !(contains_text(path, "/target/debug/") || contains_text(path, "/target/release/"))
}

/// Requests that make the server do something are posted; the others, and those that switch blocking,
/// are fetched.
pub proof fn law_actions_are_posted(call: ApiCall)
    ensures
        call_method(call) == HttpMethod::Post <==> call is BlockingRefresh || call is CacheClear
            || call is QuerylogFlush || call is Shutdown,
        call_path(call).len() > 0 && call_path(call)[0] == '/',
        call matches ApiCall::BlockingDisable(d) ==> d@.is_suffix_of(call_path(call)),
{
    reveal_strlit("/api/blocking/status");
    reveal_strlit("/api/blocking/disable?duration=");
    reveal_strlit("/api/blocking/enable");
    reveal_strlit("/api/blocking/refresh");
    reveal_strlit("/api/cache/stats");
    reveal_strlit("/api/cache/clear");
    reveal_strlit("/metrics");
    reveal_strlit("/api/querylog/summary");
    reveal_strlit("/api/querylog/flush");
    reveal_strlit("/api/shutdown");
    if let ApiCall::BlockingDisable(d) = call {
        let p = call_path(call);
        assert(p.subrange(p.len() - d@.len(), p.len() as int) =~= d@);
    }
}

/// A path below a directory has one slash between them, whether the directory ends with one or not.
pub proof fn law_one_slash_between(dir: Seq<char>, rest: Seq<char>)
    ensures
        dir.len() > 0 && dir.last() != '/' ==> joined(dir, rest) == dir + seq!['/'] + rest
            && joined(dir + seq!['/'], rest) == joined(dir, rest),
        joined(seq![], rest) == rest,
{
    reveal_strlit("/");
    assert(joined(seq![], rest) =~= rest);
    if dir.len() > 0 && dir.last() != '/' {
        assert(joined(dir, rest) =~= dir + seq!['/'] + rest);
        assert((dir + seq!['/']).last() == '/');
    }
}

/// The program is looked for below the home directory, where there is one, and always in the place for
/// all users, last.
pub proof fn law_places_of_the_program(home: Seq<char>)
    ensures
        install_paths(Some(home)).drop_last() == seq![
            joined(home, ".cargo/bin/rdns"@),
            joined(home, ".local/bin/rdns"@),
        ],
        install_paths(Some(home)).last() == "/usr/local/bin/rdns"@,
        install_paths(None) == seq!["/usr/local/bin/rdns"@],
{
    assert(install_paths(Some(home)).drop_last() =~= seq![
        joined(home, ".cargo/bin/rdns"@),
        joined(home, ".local/bin/rdns"@),
    ]);
}

} // verus!
