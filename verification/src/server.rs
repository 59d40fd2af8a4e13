//! The request decisions the game servers make before touching a session:
//! splitting a URL into path and query, reading query parameters, bounding
//! the event window, and which route a method and path name.

use vstd::prelude::*;

use crate::text::{parse_u64_limited, parse_u64_spec, split_chars, split_once_chars, split_once_spec, split_spec, char_views, string_from_chars, to_chars};

verus! {

/// `url.split_once('?')`, or the whole URL and an empty query.
pub fn split_url(url: &str) -> (r: (String, String))
    ensures
        match split_once_spec(url@, '?') {
            Some((path, query)) => r.0@ == path && r.1@ == query,
            None => r.0@ == url@ && r.1@ == Seq::<char>::empty(),
        },
{
    let cs = to_chars(url);
    match split_once_chars(cs.as_slice(), '?') {
        Some((path, query)) => (string_from_chars(path.as_slice()), string_from_chars(query.as_slice())),
        None => (String::from_str(url), String::new()),
    }
}

/// The `key=value` pairs among the first `k` `&`-separated items, split at
/// their first `=`; items without one are passed over.
pub open spec fn query_pairs(items: Seq<Seq<char>>, k: int) -> Seq<(Seq<char>, Seq<char>)>
    decreases k,
{
    if k <= 0 {
        Seq::empty()
    } else {
        let before = query_pairs(items, k - 1);
        match split_once_spec(items[k - 1], '=') {
            Some(pair) => before.push(pair),
            None => before,
        }
    }
}

/// Pairs of strings as plain values.
pub open spec fn pair_views(v: Seq<(String, String)>) -> Seq<(Seq<char>, Seq<char>)> {
    v.map_values(|p: (String, String)| (p.0@, p.1@))
}

/// The query's parameters; see [`query_pairs`].
pub fn query_parameters(query: &str) -> (r: Vec<(String, String)>)
    ensures
        pair_views(r@) == query_pairs(split_spec(query@, '&'), split_spec(query@, '&').len() as int),
{
    let cs = to_chars(query);
    let items = split_chars(cs.as_slice(), '&');
    let ghost views = split_spec(query@, '&');
    let mut out: Vec<(String, String)> = Vec::new();
    let mut k: usize = 0;
    while k < items.len()
        invariant
            char_views(items@) == views,
            k <= items@.len(),
            pair_views(out@) == query_pairs(views, k as int),
        decreases items@.len() - k,
    {
        assert(items@[k as int]@ == views[k as int]);
        match split_once_chars(items[k].as_slice(), '=') {
            Some((key, value)) => {
                let ghost before = out@;
                out.push((string_from_chars(key.as_slice()), string_from_chars(value.as_slice())));
                assert(pair_views(out@) =~= pair_views(before).push((key@, value@)));
            },
            None => {},
        }
        k += 1;
    }
    out
}

/// The value of the first pair from the `k`-th on whose key is `name`.
pub open spec fn first_value(pairs: Seq<(Seq<char>, Seq<char>)>, name: Seq<char>, k: int) -> Option<Seq<char>>
    decreases pairs.len() - k,
{
    if k < 0 || k >= pairs.len() {
        None
    } else if pairs[k].0 == name {
        Some(pairs[k].1)
    } else {
        first_value(pairs, name, k + 1)
    }
}

/// The parameter `name` as a number: the default when it is absent, an
/// error when its first value is not a non-negative integer.
pub fn parameter_u64(parameters: &[(String, String)], name: &str, default: u64) -> (r: Result<u64, String>)
    ensures
        match first_value(pair_views(parameters@), name@, 0) {
            None => r == Ok::<u64, String>(default),
            Some(v) => match parse_u64_spec(v) {
                Some(n) => r == Ok::<u64, String>(n),
                None => r is Err && r->Err_0@ == "query parameter "@ + name@ + " must be a non-negative integer"@,
            },
        },
{
    let ghost pairs = pair_views(parameters@);
    let mut k: usize = 0;
    while k < parameters.len()
        invariant
            pairs == pair_views(parameters@),
            k <= parameters@.len(),
            first_value(pairs, name@, 0) == first_value(pairs, name@, k as int),
        decreases parameters@.len() - k,
    {
        assert(pairs[k as int] == (parameters@[k as int].0@, parameters@[k as int].1@));
        if crate::text::str_eq(parameters[k].0.as_str(), name) {
            let value = to_chars(parameters[k].1.as_str());
            return match parse_u64_limited(value.as_slice(), u64::MAX) {
                Some(n) => Ok(n),
                None => {
                    let mut message = String::from_str("query parameter ");
                    message.append(name);
                    message.append(" must be a non-negative integer");
                    Err(message)
                },
            };
        }
        k += 1;
    }
    Ok(default)
}

/// The event window a request may ask for: between 1 and 1000 events,
/// waiting at most 30 seconds.
pub fn events_window(limit: u64, wait_ms: u64) -> (r: (u64, u64))
    ensures
        r.0 == (if limit < 1 { 1 } else if limit > 1000 { 1000 } else { limit }),
        r.1 == (if wait_ms > 30_000 { 30_000 } else { wait_ms }),
{
    let limit = if limit < 1 {
        1
    } else if limit > 1000 {
        1000
    } else {
        limit
    };
    let wait = if wait_ms > 30_000 {
        30_000
    } else {
        wait_ms
    };
    (limit, wait)
}

/// The request methods the servers tell apart.
#[derive(Clone, Copy, Debug, PartialEq, Eq, Structural)]
pub enum HttpMethod {
    Get,
    Post,
    Options,
    Other,
}

/// What a request asks of a game server.
#[derive(Clone, Copy, Debug, PartialEq, Eq, Structural)]
pub enum Route {
    Preflight,
    Health,
    Snapshot,
    Events,
    Show,
    Levels,
    Select,
    Move,
    Undo,
    Restart,
    Reset,
    Submit,
    NotFound,
}

/// The sausage-roll server's routes.
pub open spec fn sausage_route_spec(method: HttpMethod, path: Seq<char>) -> Route {
    if method == HttpMethod::Options {
        Route::Preflight
    } else if method == HttpMethod::Get && path == "/v1/observe/snapshot"@ {
        Route::Snapshot
    } else if method == HttpMethod::Get && path == "/v1/observe/events"@ {
        Route::Events
    } else if method == HttpMethod::Get && (path == "/v1/show"@ || path == "/v1/status"@) {
        Route::Show
    } else if method == HttpMethod::Get && path == "/v1/levels"@ {
        Route::Levels
    } else if method == HttpMethod::Get && path == "/v1/submit"@ {
        Route::Submit
    } else if method == HttpMethod::Post && path == "/v1/move"@ {
        Route::Move
    } else if method == HttpMethod::Post && path == "/v1/undo"@ {
        Route::Undo
    } else if method == HttpMethod::Post && path == "/v1/restart"@ {
        Route::Restart
    } else {
        Route::NotFound
    }
}

/// See [`sausage_route_spec`].
pub fn sausage_route(method: HttpMethod, path: &str) -> (r: Route)
    ensures
        r == sausage_route_spec(method, path@),
{
    let get = method == HttpMethod::Get;
    let post = method == HttpMethod::Post;
    if method == HttpMethod::Options {
        Route::Preflight
    } else if get && crate::text::str_eq(path, "/v1/observe/snapshot") {
        Route::Snapshot
    } else if get && crate::text::str_eq(path, "/v1/observe/events") {
        Route::Events
    } else if get && (crate::text::str_eq(path, "/v1/show") || crate::text::str_eq(path, "/v1/status")) {
        Route::Show
    } else if get && crate::text::str_eq(path, "/v1/levels") {
        Route::Levels
    } else if get && crate::text::str_eq(path, "/v1/submit") {
        Route::Submit
    } else if post && crate::text::str_eq(path, "/v1/move") {
        Route::Move
    } else if post && crate::text::str_eq(path, "/v1/undo") {
        Route::Undo
    } else if post && crate::text::str_eq(path, "/v1/restart") {
        Route::Restart
    } else {
        Route::NotFound
    }
}

/// The sokoban server's routes.
pub open spec fn sokoban_route_spec(method: HttpMethod, path: Seq<char>) -> Route {
    if method == HttpMethod::Options {
        Route::Preflight
    } else if method == HttpMethod::Get && path == "/health"@ {
        Route::Health
    } else if method == HttpMethod::Get && path == "/v1/observe/snapshot"@ {
        Route::Snapshot
    } else if method == HttpMethod::Get && path == "/v1/observe/events"@ {
        Route::Events
    } else if method == HttpMethod::Get && (path == "/v1/show"@ || path == "/v1/status"@) {
        Route::Show
    } else if method == HttpMethod::Get && path == "/v1/levels"@ {
        Route::Levels
    } else if method == HttpMethod::Post && path == "/v1/select"@ {
        Route::Select
    } else if method == HttpMethod::Post && path == "/v1/move"@ {
        Route::Move
    } else if method == HttpMethod::Post && path == "/v1/undo"@ {
        Route::Undo
    } else if method == HttpMethod::Post && path == "/v1/reset"@ {
        Route::Reset
    } else if method == HttpMethod::Get && path == "/v1/submit"@ {
        Route::Submit
    } else {
        Route::NotFound
    }
}

/// See [`sokoban_route_spec`].
pub fn sokoban_route(method: HttpMethod, path: &str) -> (r: Route)
    ensures
        r == sokoban_route_spec(method, path@),
{
    let get = method == HttpMethod::Get;
    let post = method == HttpMethod::Post;
    if method == HttpMethod::Options {
        Route::Preflight
    } else if get && crate::text::str_eq(path, "/health") {
        Route::Health
    } else if get && crate::text::str_eq(path, "/v1/observe/snapshot") {
        Route::Snapshot
    } else if get && crate::text::str_eq(path, "/v1/observe/events") {
        Route::Events
    } else if get && (crate::text::str_eq(path, "/v1/show") || crate::text::str_eq(path, "/v1/status")) {
        Route::Show
    } else if get && crate::text::str_eq(path, "/v1/levels") {
        Route::Levels
    } else if post && crate::text::str_eq(path, "/v1/select") {
        Route::Select
    } else if post && crate::text::str_eq(path, "/v1/move") {
        Route::Move
    } else if post && crate::text::str_eq(path, "/v1/undo") {
        Route::Undo
    } else if post && crate::text::str_eq(path, "/v1/reset") {
        Route::Reset
    } else if get && crate::text::str_eq(path, "/v1/submit") {
        Route::Submit
    } else {
        Route::NotFound
    }
}

/// The sausage-roll server saves its session after a command exactly when
/// the command succeeded and changed the game: a move, an undo or a
/// restart.
pub open spec fn saves_after_spec(route: Route, ok: bool) -> bool {
    ok && (route == Route::Move || route == Route::Undo || route == Route::Restart)
}

/// See [`saves_after_spec`].
pub fn saves_after(route: Route, ok: bool) -> (r: bool)
    ensures
        r == saves_after_spec(route, ok),
{
    ok && (route == Route::Move || route == Route::Undo || route == Route::Restart)
}

proof fn lemma_command_paths_differ()
    ensures
        "/v1/move"@ != "/v1/undo"@,
        "/v1/move"@ != "/v1/restart"@,
        "/v1/undo"@ != "/v1/restart"@,
        "/v1/select"@ != "/v1/move"@,
        "/v1/select"@ != "/v1/undo"@,
        "/v1/reset"@ != "/v1/move"@,
        "/v1/reset"@ != "/v1/undo"@,
        "/v1/reset"@ != "/v1/select"@,
{
    reveal_strlit("/v1/move");
    reveal_strlit("/v1/undo");
    reveal_strlit("/v1/restart");
    reveal_strlit("/v1/select");
    reveal_strlit("/v1/reset");
    assert("/v1/move"@[4] != "/v1/undo"@[4]);
    assert("/v1/move"@[4] != "/v1/restart"@[4]);
    assert("/v1/undo"@[4] != "/v1/restart"@[4]);
    assert("/v1/select"@[4] != "/v1/move"@[4]);
    assert("/v1/select"@[4] != "/v1/undo"@[4]);
    assert("/v1/reset"@[4] != "/v1/move"@[4]);
    assert("/v1/reset"@[4] != "/v1/undo"@[4]);
    assert("/v1/reset"@[6] != "/v1/select"@[6]);
}

/// The sausage-roll server's command endpoints each lead to their own
/// command, and no other request leads to one: a move is asked by POST to
/// `/v1/move`, an undo by POST to `/v1/undo`, a restart by POST to
/// `/v1/restart`.
pub proof fn law_sausage_commands_have_their_own_paths(method: HttpMethod, path: Seq<char>)
    ensures
        (sausage_route_spec(method, path) == Route::Move) == (method == HttpMethod::Post && path == "/v1/move"@),
        (sausage_route_spec(method, path) == Route::Undo) == (method == HttpMethod::Post && path == "/v1/undo"@),
        (sausage_route_spec(method, path) == Route::Restart) == (method == HttpMethod::Post && path == "/v1/restart"@),
{
    lemma_command_paths_differ();
}

/// The sokoban server's command endpoints each lead to their own command,
/// and no other request leads to one: POST to `/v1/select`, `/v1/move`,
/// `/v1/undo` and `/v1/reset`.
pub proof fn law_sokoban_commands_have_their_own_paths(method: HttpMethod, path: Seq<char>)
    ensures
        (sokoban_route_spec(method, path) == Route::Select) == (method == HttpMethod::Post && path == "/v1/select"@),
        (sokoban_route_spec(method, path) == Route::Move) == (method == HttpMethod::Post && path == "/v1/move"@),
        (sokoban_route_spec(method, path) == Route::Undo) == (method == HttpMethod::Post && path == "/v1/undo"@),
        (sokoban_route_spec(method, path) == Route::Reset) == (method == HttpMethod::Post && path == "/v1/reset"@),
{
    lemma_command_paths_differ();
}

proof fn lemma_reading_paths_differ()
    ensures
        "/v1/observe/snapshot"@ != "/v1/observe/events"@,
        "/v1/status"@ != "/v1/levels"@,
        "/v1/status"@ != "/v1/submit"@,
        "/v1/levels"@ != "/v1/submit"@,
        "/v1/show"@.len() == 8,
        "/v1/status"@.len() == 10,
        "/v1/levels"@.len() == 10,
        "/v1/submit"@.len() == 10,
        "/v1/observe/snapshot"@.len() == 20,
        "/v1/observe/events"@.len() == 18,
{
    reveal_strlit("/v1/observe/snapshot");
    reveal_strlit("/v1/observe/events");
    reveal_strlit("/v1/show");
    reveal_strlit("/v1/status");
    reveal_strlit("/v1/levels");
    reveal_strlit("/v1/submit");
    assert("/v1/observe/snapshot"@.len() != "/v1/observe/events"@.len());
    assert("/v1/status"@[4] != "/v1/levels"@[4]);
    assert("/v1/status"@[5] != "/v1/submit"@[5]);
    assert("/v1/levels"@[4] != "/v1/submit"@[4]);
}

/// The sausage-roll server's reading endpoints: preflight for every
/// OPTIONS request, and for GET the snapshot, the events, the view (at
/// `/v1/show` or `/v1/status`), the levels and the submission each at its
/// own path, and no other request leads to them.
pub proof fn law_sausage_readings_have_their_own_paths(method: HttpMethod, path: Seq<char>)
    ensures
        (sausage_route_spec(method, path) == Route::Preflight) == (method == HttpMethod::Options),
        (sausage_route_spec(method, path) == Route::Snapshot) == (method == HttpMethod::Get && path == "/v1/observe/snapshot"@),
        (sausage_route_spec(method, path) == Route::Events) == (method == HttpMethod::Get && path == "/v1/observe/events"@),
        (sausage_route_spec(method, path) == Route::Show) == (method == HttpMethod::Get && (path == "/v1/show"@ || path
            == "/v1/status"@)),
        (sausage_route_spec(method, path) == Route::Levels) == (method == HttpMethod::Get && path == "/v1/levels"@),
        (sausage_route_spec(method, path) == Route::Submit) == (method == HttpMethod::Get && path == "/v1/submit"@),
{
    lemma_reading_paths_differ();
}

} // verus!
