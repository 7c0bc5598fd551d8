use http_server::router::{Endpoint, RoutedInfo, Router, RouterPath};
use std::sync::{Arc, Mutex};

/// Answers with its own name and the overload it was handed.
struct Named {
    name: &'static str,
    strict: bool,
}

impl Endpoint<u32, (&'static str, u32, Vec<String>)> for Named {
    fn strict(&self) -> bool {
        self.strict
    }

    fn use_strict_path_matching(&self) -> bool {
        self.strict
    }

    fn process(&self, info: RoutedInfo<u32>) -> (&'static str, u32, Vec<String>) {
        (self.name, info.data, info.path_overload)
    }
}

fn strict(name: &'static str) -> Named {
    Named { name, strict: true }
}

fn loose(name: &'static str) -> Named {
    Named { name, strict: false }
}

#[test]
fn route_round_trip_any_order() {
    let paths = ["/", "/a", "/a/b", "/abc", "/ab", "x", "", "/a/b/c/"];
    let names = ["root", "a", "ab", "abc", "ab2", "x", "empty", "abc_slash"];
    for rotation in 0..paths.len() {
        let mut router = Router::new();
        for k in 0..paths.len() {
            let i = (k + rotation) % paths.len();
            router.add_path(paths[i], strict(names[i]));
        }
        for i in 0..paths.len() {
            let r = router.route(paths[i], 7);
            assert_eq!(r, Some((names[i], 7, Vec::new())), "path {:?}", paths[i]);
        }
    }
}

#[test]
fn key_that_starts_another_key_is_found() {
    let mut router = Router::new();
    router.add_path("/abc", strict("long"));
    router.add_path("/ab", strict("short"));
    assert_eq!(router.route("/ab", 1), Some(("short", 1, Vec::new())));
    assert_eq!(router.route("/abc", 1), Some(("long", 1, Vec::new())));
    assert_eq!(router.route("/a", 1), None);
}

#[test]
fn last_write_wins() {
    let mut router = Router::new();
    router.add_path("/page", strict("first"));
    router.add_path("/page", strict("second"));
    assert_eq!(router.route("/page", 0), Some(("second", 0, Vec::new())));
}

#[test]
fn non_strict_gets_tail_from_last_match() {
    let mut router = Router::new();
    router.add_path("A/B", loose("ab"));
    let r = router.route("A/B/C/D", 3);
    assert_eq!(
        r,
        Some(("ab", 3, vec!["B".to_string(), "C".to_string(), "D".to_string()]))
    );
}

#[test]
fn strict_is_not_invoked_on_longer_path() {
    let mut router = Router::new();
    router.add_path("A/B", strict("ab"));
    assert_eq!(router.route("A/B/C/D", 3), None);
    assert_eq!(router.route("A/B", 3), Some(("ab", 3, Vec::new())));
}

#[test]
fn router_prefix_match_api() {
    let mut router = Router::new();
    router.add_path("/api/v1", loose("api"));
    let r = router.route("/api/v1/users/42", 0);
    assert_eq!(
        r,
        Some(("api", 0, vec!["v1".to_string(), "users".to_string(), "42".to_string()]))
    );
}

#[test]
fn non_strict_exact_match_gets_last_segment() {
    let mut router = Router::new();
    router.add_path("/api/v1", loose("api"));
    assert_eq!(router.route("/api/v1", 0), Some(("api", 0, vec!["v1".to_string()])));
}

#[test]
fn unknown_route_is_absent_without_fallback() {
    let mut router: Router<Named> = Router::new();
    assert_eq!(router.route("/missing", 0), None);
    router.add_path("/present", strict("p"));
    assert_eq!(router.route("/missing", 0), None);
    assert_eq!(router.route("/present/more", 0), None);
}

#[test]
fn fallback_answers_where_no_route_does() {
    let mut router = Router::new();
    router.add_path("/present", strict("p"));
    router.set_endpoint_404(loose("404"));
    assert_eq!(router.route("/missing/x", 5), Some(("404", 5, Vec::new())));
    assert_eq!(router.route("/present/more", 5), Some(("404", 5, Vec::new())));
    assert_eq!(router.route("/present", 5), Some(("p", 5, Vec::new())));
}

#[test]
fn empty_path_is_one_empty_segment() {
    let p = RouterPath::from_str("");
    let mut router = Router::new();
    router.add_path("", strict("empty"));
    assert_eq!(router.route("", 0), Some(("empty", 0, Vec::new())));
    assert_eq!(router.route("/", 0), None);
    let (found, depth) = router.locate(&p);
    assert!(found.is_some());
    assert_eq!(depth, 1);
}

#[test]
fn locate_reports_matched_depth() {
    let mut router = Router::new();
    router.add_path("/a/b", strict("ab"));
    let p = RouterPath::from_str("/a/x/y");
    let (found, depth) = router.locate(&p);
    assert!(found.is_none());
    assert_eq!(depth, 2);
    let p = RouterPath::from_str("/a/b");
    let (found, depth) = router.locate(&p);
    assert_eq!(found.map(|e| e.name), Some("ab"));
    assert_eq!(depth, 3);
}

#[test]
fn overload_by_strictness() {
    let p = RouterPath::from_str("/api/v1/users");
    assert_eq!(p.overload(4, true), Some(Vec::new()));
    assert_eq!(p.overload(3, true), None);
    assert_eq!(
        p.overload(3, false),
        Some(vec!["v1".to_string(), "users".to_string()])
    );
    assert_eq!(p.overload(0, false), Some(Vec::new()));
}

#[test]
fn unicode_segments_round_trip() {
    let mut router = Router::new();
    router.add_path("/caf\u{e9}/\u{1f600}", loose("u"));
    assert_eq!(router.route("/caf\u{e9}/\u{1f600}", 0), Some(("u", 0, vec!["\u{1f600}".to_string()])));
    assert_eq!(router.route("/cafe/\u{1f600}", 0), None);
    assert_eq!(
        router.route("/caf\u{e9}/\u{1f600}/\u{fc}ber", 0),
        Some(("u", 0, vec!["\u{1f600}".to_string(), "\u{fc}ber".to_string()]))
    );
}

/// Writes a greeting into a shared buffer.
struct Hello;

impl Endpoint<Arc<Mutex<Vec<u8>>>, ()> for Hello {
    fn strict(&self) -> bool {
        true
    }

    fn use_strict_path_matching(&self) -> bool {
        true
    }

    fn process(&self, info: RoutedInfo<Arc<Mutex<Vec<u8>>>>) {
        info.data.lock().unwrap().extend_from_slice(b"HELLO");
    }
}

#[test]
fn endpoint_writes_to_its_data() {
    let sink = Arc::new(Mutex::new(Vec::new()));
    let mut router = Router::new();
    router.add_path("/", Hello);
    assert_eq!(router.route("/", sink.clone()), Some(()));
    assert_eq!(sink.lock().unwrap().as_slice(), b"HELLO");
}

#[test]
fn shorter_key_added_after_longer() {
    let mut router = Router::new();
    router.add_path("/ab", strict("one"));
    router.add_path("/a", strict("two"));
    assert_eq!(router.route("/a", 0), Some(("two", 0, Vec::new())));
    assert_eq!(router.route("/ab", 0), Some(("one", 0, Vec::new())));
}

#[test]
fn insertion_order_unobservable() {
    let pairs = [("/a/b", "ab", false), ("/a", "a", true), ("/c", "c", false), ("/a/bc", "abc", true)];
    let mut forward = Router::new();
    for (p, n, s) in pairs.iter() {
        forward.add_path(p, Named { name: n, strict: *s });
    }
    let mut backward = Router::new();
    for (p, n, s) in pairs.iter().rev() {
        backward.add_path(p, Named { name: n, strict: *s });
    }
    for q in ["/a/b", "/a", "/c", "/a/bc", "/a/b/x/y", "/a/x", "/c/d", "/", "", "/a/bcd"] {
        assert_eq!(forward.route(q, 1), backward.route(q, 1), "query {:?}", q);
    }
    assert_eq!(forward.route("/a/b/x/y", 1), Some(("ab", 1, vec!["b".to_string(), "x".to_string(), "y".to_string()])));
    assert_eq!(forward.route("/a/x", 1), None);
}
