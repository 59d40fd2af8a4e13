use benchmark_games::server::{
    events_window, parameter_u64, query_parameters, saves_after, sausage_route, sokoban_route, split_url, HttpMethod, Route,
};

#[test]
fn urls_split_at_the_first_question_mark() {
    assert_eq!(split_url("/v1/observe/events?after=3&limit=9"), ("/v1/observe/events".to_string(), "after=3&limit=9".to_string()));
    assert_eq!(split_url("/v1/show"), ("/v1/show".to_string(), String::new()));
    assert_eq!(split_url("/a?b?c"), ("/a".to_string(), "b?c".to_string()));
}

#[test]
fn query_parameters_keep_pairs_and_read_numbers() {
    let parameters = query_parameters("after=3&junk&limit=x&after=7&wait_ms=");
    assert_eq!(
        parameters,
        vec![
            ("after".to_string(), "3".to_string()),
            ("limit".to_string(), "x".to_string()),
            ("after".to_string(), "7".to_string()),
            ("wait_ms".to_string(), String::new()),
        ]
    );
    assert_eq!(parameter_u64(&parameters, "after", 0), Ok(3));
    assert_eq!(parameter_u64(&parameters, "include_map", 1), Ok(1));
    assert_eq!(
        parameter_u64(&parameters, "limit", 256),
        Err("query parameter limit must be a non-negative integer".to_string())
    );
    assert_eq!(
        parameter_u64(&parameters, "wait_ms", 0),
        Err("query parameter wait_ms must be a non-negative integer".to_string())
    );
    assert_eq!(query_parameters(""), vec![]);
}

#[test]
fn event_windows_are_bounded() {
    assert_eq!(events_window(0, 0), (1, 0));
    assert_eq!(events_window(256, 45_000), (256, 30_000));
    assert_eq!(events_window(5000, 30_000), (1000, 30_000));
}

#[test]
fn routes_name_the_commands() {
    assert_eq!(sausage_route(HttpMethod::Options, "/anything"), Route::Preflight);
    assert_eq!(sausage_route(HttpMethod::Get, "/v1/status"), Route::Show);
    assert_eq!(sausage_route(HttpMethod::Post, "/v1/restart"), Route::Restart);
    assert_eq!(sausage_route(HttpMethod::Get, "/v1/move"), Route::NotFound);
    assert_eq!(sausage_route(HttpMethod::Get, "/health"), Route::NotFound);
    assert_eq!(sokoban_route(HttpMethod::Get, "/health"), Route::Health);
    assert_eq!(sokoban_route(HttpMethod::Post, "/v1/select"), Route::Select);
    assert_eq!(sokoban_route(HttpMethod::Post, "/v1/reset"), Route::Reset);
    assert_eq!(sokoban_route(HttpMethod::Post, "/v1/restart"), Route::NotFound);
    assert!(saves_after(Route::Move, true));
    assert!(!saves_after(Route::Move, false));
    assert!(!saves_after(Route::Show, true));
}
