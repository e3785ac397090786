use xks::backend::BackendError;
use xks::server::{
    authorized, body_refusal, failed, invalid_request, next_step, path_of, refusal, route,
    route_reply, span, counts_for_kill_date, past_kill_date, Next, Route,
};
use tiny_http::Method;

#[test]
fn routes_by_method_and_path() {
    assert_eq!(route(Method::Post.as_str(), "/v1/systemone"), Route::SystemOne);
    assert_eq!(route(Method::Post.as_str(), "/v1/systemone/"), Route::SystemOne);
    assert_eq!(route(Method::Get.as_str(), "/health"), Route::Health);
    assert_eq!(route(Method::Get.as_str(), "/v1/models"), Route::Models);
    assert_eq!(route(Method::Get.as_str(), "/"), Route::Index);
    assert_eq!(route(Method::Get.as_str(), ""), Route::Index);
    // The path is right, the method is not: say which one it takes.
    assert_eq!(route(Method::Get.as_str(), "/v1/systemone"), Route::Method("POST"));
    assert_eq!(route(Method::Post.as_str(), "/health"), Route::Method("GET"));
    assert_eq!(route(Method::Post.as_str(), "/v1/systemon"), Route::NotFound);
    assert_eq!(route(Method::Get.as_str(), "/v2/systemone"), Route::NotFound);
}

#[test]
fn a_span_reads_as_minutes_when_whole() {
    assert_eq!(span(1800), "30 min");
    assert_eq!(span(90), "90 s");
    assert_eq!(span(5), "5 s");
}

#[test]
fn trailing_slashes_never_change_the_route() {
    for p in ["/health", "/v1/models", "/v1/systemone", "/nowhere", ""] {
        let with = format!("{p}//");
        assert_eq!(route("GET", p), route("GET", &with));
        assert_eq!(route("POST", p), route("POST", &with));
    }
}

#[test]
fn a_query_string_is_not_part_of_the_path() {
    assert_eq!(path_of("/health?x=1?y"), "/health");
    assert_eq!(path_of("/v1/systemone"), "/v1/systemone");
}

#[test]
fn a_wrong_method_names_the_right_one_and_an_unknown_path_the_routes() {
    let r = route_reply(route("GET", "/v1/systemone"), "GET", "/v1/systemone").unwrap();
    assert_eq!(r.status, 405);
    assert_eq!(r.allow, Some("POST"));
    assert_eq!(r.message, "/v1/systemone takes POST, not GET");
    let r = route_reply(Route::NotFound, "PUT", "/x").unwrap();
    assert_eq!(r.status, 404);
    assert_eq!(r.message, "no route PUT /x (POST /v1/systemone; GET / lists the routes)");
    assert!(route_reply(Route::Health, "GET", "/health").is_none());
}

#[test]
fn only_a_listed_bearer_key_may_ask() {
    let keys = vec!["k1".to_string(), "k2".to_string()];
    let h = |v: &str| vec![("Host".to_string(), "x".to_string()), ("authorization".to_string(), v.to_string())];
    assert!(authorized(&h("Bearer k2"), &keys));
    assert!(authorized(&h("Bearer Bearer  k1 "), &keys));
    assert!(!authorized(&h("Bearer k3"), &keys));
    assert!(!authorized(&vec![], &keys));
    let r = refusal(&keys, &h("Bearer nope")).unwrap();
    assert_eq!(r.status, 401);
    assert_eq!(r.message, "invalid or missing API key (Authorization: Bearer KEY)");
    assert!(refusal(&keys, &h("Bearer k1")).is_none());
    assert!(refusal(&vec![], &vec![]).is_none());
}

#[test]
fn an_empty_or_unreadable_body_is_said_plainly() {
    assert_eq!(body_refusal(None).unwrap().status, 400);
    let r = body_refusal(Some(" \n ")).unwrap();
    assert_eq!(r.status, 422);
    assert!(r.message.starts_with("empty body: POST a JSON request"));
    assert!(body_refusal(Some("{}")).is_none());
    let r = invalid_request("missing field `state`");
    assert_eq!((r.status, r.message.as_str()), (422, "invalid request: missing field `state`"));
}

#[test]
fn a_refused_judgment_is_the_callers_and_a_failed_one_the_backends() {
    let r = failed(&BackendError::Rejected("too long".into()));
    assert_eq!((r.status, r.message.as_str()), (422, "too long"));
    let r = failed(&BackendError::Http("down".into()));
    assert_eq!((r.status, r.message.as_str()), (502, "backend http: down"));
    let r = failed(&BackendError::Malformed("x".into()));
    assert_eq!(r.message, "backend returned malformed output: x");
}

#[test]
fn a_request_is_routed_checked_and_refused_before_its_body() {
    let keys: Vec<String> = vec!["k1".into()];
    let good: Vec<(String, String)> = vec![("Authorization".into(), "Bearer k1".into())];
    let none: Vec<(String, String)> = vec![];
    assert!(matches!(next_step("GET", "/?x=1", &keys, &none), Next::Index));
    assert!(matches!(next_step("GET", "/health", &keys, &none), Next::Health));
    assert!(matches!(next_step("GET", "/v1/models/", &keys, &none), Next::Models));
    assert!(matches!(next_step("POST", "/v1/systemone?debug", &keys, &good), Next::ReadBody));
    assert!(matches!(next_step("POST", "/v1/systemone", &vec![], &none), Next::ReadBody));
    match next_step("POST", "/v1/systemone", &keys, &none) {
        Next::Answer(r) => assert_eq!((r.status, r.allow), (401, None)),
        _ => panic!("a question without its key is refused"),
    }
    match next_step("GET", "/v1/systemone?a=b", &keys, &good) {
        Next::Answer(r) => {
            assert_eq!((r.status, r.allow), (405, Some("POST")));
            assert_eq!(r.message, "/v1/systemone takes POST, not GET");
        }
        _ => panic!("a wrong method is refused"),
    }
    match next_step("DELETE", "/nope", &keys, &good) {
        Next::Answer(r) => {
            assert_eq!(r.status, 404);
            assert_eq!(r.message, "no route DELETE /nope (POST /v1/systemone; GET / lists the routes)");
        }
        _ => panic!("an unknown path is refused"),
    }
}

#[test]
fn only_a_question_counts_and_an_idle_server_stops() {
    assert!(counts_for_kill_date(Route::SystemOne));
    assert!(!counts_for_kill_date(Route::Health));
    assert!(!counts_for_kill_date(Route::Index));
    assert!(!counts_for_kill_date(Route::Method("POST")));
    assert!(past_kill_date(1800, 0, Some(1800)));
    assert!(!past_kill_date(1799, 0, Some(1800)));
    assert!(!past_kill_date(5000, 1, Some(1800)));
    assert!(!past_kill_date(5000, 0, None));
}
