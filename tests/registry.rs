use axum::body::Body;
use axum::http::{Request, StatusCode};
use axum::routing::get;
use axum::Router;
use miwa_axum::service::{RouterKind, WebService, WebServiceConfig, WebServiceRouter, WebServiceState, DEFAULT_PORT};
use miwa_axum::router::{new_fragment, with_route};
use miwa_axum::serving::{build_router, ListenerPlan};
use tower::ServiceExt;

fn answering(path: &str, text: &'static str) -> Router<WebServiceState> {
    Router::new().route(path, get(move || async move { text }))
}

fn request(router: &Router, path: &str) -> (StatusCode, String) {
    let runtime = tokio::runtime::Builder::new_current_thread().enable_all().build().unwrap();
    runtime.block_on(async {
        let req = Request::builder().uri(path).body(Body::empty()).unwrap();
        let resp = router.clone().oneshot(req).await.unwrap();
        let status = resp.status();
        let bytes = axum::body::to_bytes(resp.into_body(), 1 << 20).await.unwrap();
        (status, String::from_utf8(bytes.to_vec()).unwrap())
    })
}

fn plan_for<'a>(plans: &'a [ListenerPlan], ctx: &str) -> &'a ListenerPlan {
    plans.iter().find(|p| p.ctx == ctx).unwrap()
}

#[test]
fn nested_then_merged_resolve_through_their_fragments() {
    let mut service = WebService::new();
    service.nesting("api", "/a", answering("/x", "nested"));
    service.merging("api", answering("/y", "merged"));
    let plans = service.serving_plan();
    assert_eq!(plans.len(), 1);
    let plan = &plans[0];
    assert_eq!(plan.ctx, "api");
    assert_eq!(request(&plan.router, "/a/x"), (StatusCode::OK, "nested".to_string()));
    assert_eq!(request(&plan.router, "/y"), (StatusCode::OK, "merged".to_string()));
    assert_eq!(request(&plan.router, "/x").0, StatusCode::NOT_FOUND);
    assert_eq!(request(&plan.router, "/a/y").0, StatusCode::NOT_FOUND);
}

#[test]
fn swapping_nest_and_merge_keeps_resolution() {
    let mut service = WebService::new();
    service.merging("api", answering("/y", "merged"));
    service.nesting("api", "/a", answering("/x", "nested"));
    let plans = service.serving_plan();
    let plan = &plans[0];
    assert_eq!(request(&plan.router, "/a/x"), (StatusCode::OK, "nested".to_string()));
    assert_eq!(request(&plan.router, "/y"), (StatusCode::OK, "merged".to_string()));
}

#[test]
fn every_registration_is_served() {
    let mut service = WebService::new();
    service.nesting("api", "/one", answering("/", "first"));
    service.nesting("api", "/two", answering("/", "second"));
    service.merging("api", answering("/three", "third"));
    service.nesting("api", "/four/", answering("/five", "fourth"));
    let plans = service.serving_plan();
    let plan = &plans[0];
    assert_eq!(request(&plan.router, "/one"), (StatusCode::OK, "first".to_string()));
    assert_eq!(request(&plan.router, "/two"), (StatusCode::OK, "second".to_string()));
    assert_eq!(request(&plan.router, "/three"), (StatusCode::OK, "third".to_string()));
    assert_eq!(request(&plan.router, "/four/five"), (StatusCode::OK, "fourth".to_string()));
}

#[test]
fn nesting_at_the_empty_prefix_mounts_at_the_root() {
    let mut service = WebService::new();
    service.nesting("root", "", answering("/x", "rooted"));
    let plans = service.serving_plan();
    assert_eq!(request(&plans[0].router, "/x"), (StatusCode::OK, "rooted".to_string()));
}

#[test]
fn build_router_folds_entries() {
    let entries = vec![
        WebServiceRouter::new(answering("/x", "nested"), RouterKind::Nest("/n".to_string())),
        WebServiceRouter::new(answering("/m", "merged"), RouterKind::Merge),
    ];
    let router = build_router(&entries).with_state(WebServiceState);
    assert_eq!(request(&router, "/n/x"), (StatusCode::OK, "nested".to_string()));
    assert_eq!(request(&router, "/m"), (StatusCode::OK, "merged".to_string()));
}

#[test]
fn build_router_of_nothing_answers_not_found() {
    let router = build_router(&Vec::new());
    assert!(!router.has_routes());
    let router = router.with_state(WebServiceState);
    assert_eq!(request(&router, "/").0, StatusCode::NOT_FOUND);
}

#[test]
fn second_configuration_replaces_the_first() {
    let mut service = WebService::new();
    service.add_server(WebServiceConfig { ctx: "api".to_string(), port: 4000 });
    service.add_server(WebServiceConfig { ctx: "api".to_string(), port: 5000 });
    let config = service.server_config("api");
    assert_eq!(config.ctx, "api");
    assert_eq!(config.port, 5000);
    let plans = service.serving_plan();
    assert_eq!(plans.len(), 1);
    assert_eq!(plans[0].port, 5000);
}

#[test]
fn unconfigured_context_uses_port_3000() {
    let mut service = WebService::new();
    service.merging("api", answering("/health", "ok"));
    let config = service.server_config("api");
    assert_eq!(config.port, 3000);
    assert_eq!(config.ctx, "default");
    assert_eq!(DEFAULT_PORT, 3000);
    assert_eq!(service.serving_plan()[0].port, 3000);
}

#[test]
fn default_configuration() {
    let config = WebServiceConfig::default();
    assert_eq!(config.ctx, "default");
    assert_eq!(config.port, 3000);
}

#[test]
fn configuration_of_other_context_is_untouched() {
    let mut service = WebService::new();
    service.add_server(WebServiceConfig { ctx: "a".to_string(), port: 4001 });
    service.add_server(WebServiceConfig { ctx: "b".to_string(), port: 4002 });
    service.add_server(WebServiceConfig { ctx: "a".to_string(), port: 4003 });
    assert_eq!(service.server_config("a").port, 4003);
    assert_eq!(service.server_config("b").port, 4002);
}

#[test]
fn distinct_contexts_get_distinct_listeners() {
    let mut service = WebService::new();
    service.merging("a", answering("/x", "from a"));
    service.merging("b", answering("/x", "from b"));
    service.add_server(WebServiceConfig { ctx: "b".to_string(), port: 4000 });
    let plans = service.serving_plan();
    assert_eq!(plans.len(), 2);
    let a = plan_for(&plans, "a");
    let b = plan_for(&plans, "b");
    assert_eq!(a.port, 3000);
    assert_eq!(b.port, 4000);
    assert_eq!(request(&a.router, "/x").1, "from a");
    assert_eq!(request(&b.router, "/x").1, "from b");
}

#[test]
fn health_and_admin_scenario() {
    let mut service = WebService::new();
    service.merging("api", answering("/health", "healthy"));
    service.add_server(WebServiceConfig { ctx: "admin".to_string(), port: 4000 });
    let plans = service.serving_plan();
    assert_eq!(plans.len(), 2);
    let api = plan_for(&plans, "api");
    assert_eq!(api.host, [127, 0, 0, 1]);
    assert_eq!(api.port, 3000);
    assert_eq!(request(&api.router, "/health"), (StatusCode::OK, "healthy".to_string()));
    let admin = plan_for(&plans, "admin");
    assert_eq!(admin.host, [127, 0, 0, 1]);
    assert_eq!(admin.port, 4000);
    assert_eq!(request(&admin.router, "/health").0, StatusCode::NOT_FOUND);
}

#[test]
fn empty_context_name_is_accepted() {
    let mut service = WebService::new();
    service.merging("", answering("/x", "anonymous"));
    let plans = service.serving_plan();
    assert_eq!(plans.len(), 1);
    assert_eq!(plans[0].ctx, "");
}

#[test]
fn registrations_of_one_context_share_a_listener() {
    let mut service = WebService::new();
    service.merging("api", answering("/x", "x"));
    service.merging("api", answering("/y", "y"));
    service.merging("other", answering("/z", "z"));
    let plans = service.serving_plan();
    assert_eq!(plans.len(), 2);
    assert_eq!(plans[0].ctx, "api");
    assert_eq!(plans[1].ctx, "other");
    assert_eq!(request(&plans[0].router, "/y").1, "y");
}

#[test]
fn fragments_with_captures_are_served() {
    let users = with_route(
        new_fragment(),
        "/users/:id",
        get(|axum::extract::Path(id): axum::extract::Path<String>| async move { format!("user {id}") }),
    );
    let users = with_route(users, "/users/new", get(|| async { "form" }));
    let mut service = WebService::new();
    service.nesting("api", "/v1", users);
    let plans = service.serving_plan();
    assert_eq!(request(&plans[0].router, "/v1/users/7"), (StatusCode::OK, "user 7".to_string()));
    assert_eq!(request(&plans[0].router, "/v1/users/new"), (StatusCode::OK, "form".to_string()));
}

#[test]
fn nesting_under_a_capture_prefix() {
    let mut service = WebService::new();
    service.nesting(
        "api",
        "/:tenant",
        with_route(
            new_fragment(),
            "/items",
            get(|axum::extract::Path(tenant): axum::extract::Path<String>| async move { tenant }),
        ),
    );
    let plans = service.serving_plan();
    assert_eq!(request(&plans[0].router, "/acme/items"), (StatusCode::OK, "acme".to_string()));
}

#[test]
fn with_route_adds_a_route() {
    let fragment = with_route(new_fragment(), "/ping", get(|| async { "pong" }));
    assert!(fragment.has_routes());
    let router = fragment.with_state(WebServiceState);
    assert_eq!(request(&router, "/ping"), (StatusCode::OK, "pong".to_string()));
}

#[test]
fn listener_plan_of_one_context() {
    let mut service = WebService::new();
    service.merging("api", answering("/health", "healthy"));
    service.add_server(WebServiceConfig { ctx: "api".to_string(), port: 8080 });
    let plan = service.listener_plan("api");
    assert_eq!(plan.ctx, "api");
    assert_eq!(plan.host, [127, 0, 0, 1]);
    assert_eq!(plan.port, 8080);
    assert_eq!(request(&plan.router, "/health"), (StatusCode::OK, "healthy".to_string()));
    let other = service.listener_plan("other");
    assert_eq!(other.port, 3000);
    assert_eq!(request(&other.router, "/health").0, StatusCode::NOT_FOUND);
}

#[test]
fn served_context_names_list_routes_then_configurations() {
    let mut service = WebService::new();
    service.add_server(WebServiceConfig { ctx: "admin".to_string(), port: 4000 });
    service.merging("api", answering("/x", "x"));
    service.add_server(WebServiceConfig { ctx: "api".to_string(), port: 4001 });
    service.nesting("web", "/w", answering("/y", "y"));
    assert_eq!(service.served_context_names(), vec!["api".to_string(), "web".to_string(), "admin".to_string()]);
}

#[test]
fn catch_all_routes_are_served() {
    let assets = with_route(
        new_fragment(),
        "/assets/*path",
        get(|axum::extract::Path(path): axum::extract::Path<String>| async move { path }),
    );
    let assets = with_route(assets, "/assets/index", get(|| async { "index" }));
    let mut service = WebService::new();
    service.merging("web", assets);
    service.nesting("web", "/v1", answering("/files/*rest", "nested catch-all"));
    let plans = service.serving_plan();
    let plan = &plans[0];
    assert_eq!(request(&plan.router, "/assets/css/site.css"), (StatusCode::OK, "css/site.css".to_string()));
    assert_eq!(request(&plan.router, "/assets/index"), (StatusCode::OK, "index".to_string()));
    assert_eq!(request(&plan.router, "/v1/files/a/b"), (StatusCode::OK, "nested catch-all".to_string()));
}

#[test]
fn merging_fragments_with_fallbacks_nested_apart() {
    let left = Router::new().nest("/l", Router::new().route("/x", get(|| async { "l" })).fallback(|| async { "left fallback" }));
    let right = Router::new().nest("/r", Router::new().route("/x", get(|| async { "r" })).fallback(|| async { "right fallback" }));
    let mut service = WebService::new();
    service.merging("api", left);
    service.merging("api", right);
    let plans = service.serving_plan();
    let plan = &plans[0];
    assert_eq!(request(&plan.router, "/l/missing").1, "left fallback");
    assert_eq!(request(&plan.router, "/r/missing").1, "right fallback");
    assert_eq!(request(&plan.router, "/r/x").1, "r");
}

#[test]
fn nested_fragment_keeps_its_own_fallback() {
    let inner = answering("/x", "inner").fallback(|| async { "inner fallback" });
    let mut service = WebService::new();
    service.nesting("api", "/n", inner);
    service.merging("api", answering("/top", "top"));
    let plans = service.serving_plan();
    let plan = &plans[0];
    assert_eq!(request(&plan.router, "/n/x").1, "inner");
    assert_eq!(request(&plan.router, "/n/missing").1, "inner fallback");
    assert_eq!(request(&plan.router, "/top").1, "top");
    assert_eq!(request(&plan.router, "/elsewhere").0, StatusCode::NOT_FOUND);
}
