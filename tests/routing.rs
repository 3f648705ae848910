use http_server::middleware::{Identity, PostHook, PreHook};
use http_server::request::RequestParser;
use http_server::response::{decimal_bytes, StatusCode};
use http_server::route::{methods_text, Handle, HandlerError, ResponseResult};
use http_server::router::{pattern_of_path, BuildError, RouterBuilder};
use http_server::{Header, HeaderSet, HttpMethod, HttpVersion, Request, Response, Router};

struct Reply(&'static str);

impl Handle for Reply {
    // The library states its contracts over this; it is what `call` answers.
    fn spec_call(&self, req: Request) -> ResponseResult {
        self.call(req)
    }

    fn call(&self, _req: Request) -> ResponseResult {
        Ok(page(self.0))
    }
}

/// Answers with the request's path, so that a test sees what reached it.
struct Echo;

impl Handle for Echo {
    fn spec_call(&self, req: Request) -> ResponseResult {
        self.call(req)
    }

    fn call(&self, req: Request) -> ResponseResult {
        Ok(page_owned(req.get_path()))
    }
}

fn page(body: &str) -> Response {
    page_owned(body.to_string())
}

fn page_owned(body: String) -> Response {
    Response {
        version: HttpVersion::OnePointOne,
        code: StatusCode::Success,
        headers: HeaderSet::new(),
        body,
    }
}

fn request(method: HttpMethod, path: &str) -> Request {
    Request::new(method, path.to_string(), HttpVersion::OnePointOne, HeaderSet::new(), String::new())
}

fn is_not_found(r: &Response) -> bool {
    r.code == StatusCode::ServerError && r.body.is_empty() && r.headers.len() == 0
}

#[test]
fn get_users_reaches_its_handler_and_post_does_not() {
    let router = Router::<Reply, Identity, Identity>::builder()
        .get("/users", Reply("users"))
        .build()
        .unwrap();
    let r = router.route(request(HttpMethod::Get, "/users"));
    assert_eq!(r.code, StatusCode::Success);
    assert_eq!(r.body, "users");
    let r = router.route(request(HttpMethod::Post, "/users"));
    assert!(is_not_found(&r));
}

#[test]
fn wildcard_matches_any_segment() {
    let router = Router::<Echo, Identity, Identity>::builder()
        .get("/items/_", Echo)
        .build()
        .unwrap();
    let a = router.route(request(HttpMethod::Get, "/items/42"));
    let b = router.route(request(HttpMethod::Get, "/items/abc"));
    assert_eq!(a.code, StatusCode::Success);
    assert_eq!(b.code, StatusCode::Success);
    assert_eq!(a.body, "/items/42");
    assert_eq!(b.body, "/items/abc");
    assert!(is_not_found(&router.route(request(HttpMethod::Get, "/items"))));
    assert!(is_not_found(&router.route(request(HttpMethod::Get, "/items/1/2"))));
}

#[test]
fn named_child_is_preferred_to_wildcard() {
    let router = Router::<Reply, Identity, Identity>::builder()
        .get("/items/_", Reply("any"))
        .get("/items/new", Reply("new"))
        .build()
        .unwrap();
    assert_eq!(router.route(request(HttpMethod::Get, "/items/new")).body, "new");
    assert_eq!(router.route(request(HttpMethod::Get, "/items/old")).body, "any");
}

#[test]
fn same_method_twice_on_one_path_fails_at_build() {
    let r = Router::<Reply, Identity, Identity>::builder()
        .get("/users", Reply("a"))
        .get("/users", Reply("b"))
        .build();
    assert_eq!(r.err(), Some(BuildError::MethodCollision));
}

#[test]
fn overlapping_masks_fail_and_disjoint_masks_do_not() {
    let both = HttpMethod::Get.bit() | HttpMethod::Post.bit();
    let r = RouterBuilder::<Reply, Identity, Identity>::new()
        .on(both, "/a", Reply("a"))
        .on(HttpMethod::Post.bit(), "/a", Reply("b"))
        .build();
    assert_eq!(r.err(), Some(BuildError::MethodCollision));
    let router = RouterBuilder::<Reply, Identity, Identity>::new()
        .on(HttpMethod::Get.bit(), "/a", Reply("get"))
        .on(HttpMethod::Post.bit(), "/a", Reply("post"))
        .build()
        .unwrap();
    assert_eq!(router.route(request(HttpMethod::Get, "/a")).body, "get");
    assert_eq!(router.route(request(HttpMethod::Post, "/a")).body, "post");
    assert!(is_not_found(&router.route(request(HttpMethod::Put, "/a"))));
}

#[test]
fn trailing_slash_names_the_same_node() {
    let router = Router::<Reply, Identity, Identity>::builder()
        .get("/", Reply("index"))
        .get("/users", Reply("users"))
        .get("/users/", Reply("again"));
    assert_eq!(router.build().err(), Some(BuildError::MethodCollision));
}

#[test]
fn same_method_on_different_paths_is_fine() {
    let router = Router::<Reply, Identity, Identity>::builder()
        .get("/", Reply("index"))
        .get("/users", Reply("users"))
        .build()
        .unwrap();
    assert_eq!(router.route(request(HttpMethod::Get, "/")).body, "index");
    assert_eq!(router.route(request(HttpMethod::Get, "/users/")).body, "users");
    assert!(is_not_found(&router.route(request(HttpMethod::Get, "/other"))));
}

#[test]
fn pattern_without_leading_slash_fails_at_build() {
    let r = Router::<Reply, Identity, Identity>::builder().get("users", Reply("a")).build();
    assert_eq!(r.err(), Some(BuildError::BadPattern));
}

#[test]
fn pattern_reading() {
    assert!(pattern_of_path("x").is_none());
    assert_eq!(pattern_of_path("/").unwrap().len(), 0);
    assert_eq!(pattern_of_path("/a/_/b").unwrap().len(), 3);
    assert_eq!(pattern_of_path("/a//b").unwrap().len(), 1);
}

/// Rewrites every request to the path `/moved`.
struct Move;

impl PreHook for Move {
    fn spec_apply(&self, req: Request) -> Request {
        self.apply(req)
    }

    fn apply(&self, req: Request) -> Request {
        Request::new(
            req.method(),
            "/moved".to_string(),
            req.version(),
            req.headers().clone(),
            req.body().clone(),
        )
    }
}

/// Turns a failure into a page.
struct Rescue;

impl PostHook for Rescue {
    fn spec_apply(&self, res: ResponseResult) -> ResponseResult {
        self.apply(res)
    }

    fn apply(&self, res: ResponseResult) -> ResponseResult {
        match res {
            Err(HandlerError::NotFound) => Ok(page("rescued")),
            ok => ok,
        }
    }
}

#[test]
fn pre_middleware_sees_requests_before_handlers() {
    let router = RouterBuilder::<Echo, Move, Identity>::new()
        .get("/x", Echo)
        .premiddleware(Move)
        .build()
        .unwrap();
    assert_eq!(router.route(request(HttpMethod::Get, "/x")).body, "/moved");
}

#[test]
fn post_middleware_sees_results() {
    let router = RouterBuilder::<Reply, Identity, Rescue>::new()
        .get("/x", Reply("x"))
        .postmiddleware(Rescue)
        .build()
        .unwrap();
    assert_eq!(router.route(request(HttpMethod::Get, "/x")).body, "x");
    assert_eq!(router.route(request(HttpMethod::Get, "/nowhere")).body, "rescued");
}

#[test]
fn parsed_request_is_routed() {
    let router = Router::<Reply, Identity, Identity>::builder()
        .get("/users", Reply("users"))
        .build()
        .unwrap();
    let req = RequestParser::parse_chunks(&vec![b"GET /users HTTP/1.1\r\nhost: x\r\n\r\n".to_vec()]).unwrap();
    let res = router.route(req);
    assert_eq!(
        res.as_bytes(),
        b"HTTP/1.1 200 SUCCESS\r\ncontent-length: 5\r\n\r\nusers".to_vec()
    );
}

#[test]
fn content_length_is_added() {
    let bytes = page("hi").as_bytes();
    assert_eq!(bytes, b"HTTP/1.1 200 SUCCESS\r\ncontent-length: 2\r\n\r\nhi".to_vec());
}

#[test]
fn content_length_counts_bytes() {
    let bytes = page("\u{e9}").as_bytes();
    assert_eq!(bytes, "HTTP/1.1 200 SUCCESS\r\ncontent-length: 2\r\n\r\n\u{e9}".as_bytes().to_vec());
}

#[test]
fn given_content_length_is_kept() {
    let mut r = page("hi");
    r.headers.insert(Header::new("content-length".to_string(), "7".to_string()));
    r.headers.insert(Header::new("a".to_string(), "b".to_string()));
    assert_eq!(
        r.as_bytes(),
        b"HTTP/1.1 200 SUCCESS\r\na: b\r\ncontent-length: 7\r\n\r\nhi".to_vec()
    );
}

#[test]
fn not_found_response_bytes() {
    assert_eq!(
        Response::not_found().as_bytes(),
        b"HTTP/1.1 400 INTERNAL SERVER ERROR\r\ncontent-length: 0\r\n\r\n".to_vec()
    );
}

#[test]
fn status_texts() {
    assert_eq!(StatusCode::Success.as_bytes(), b"200 SUCCESS");
    assert_eq!(StatusCode::ServerError.as_bytes(), b"400 INTERNAL SERVER ERROR");
}

#[test]
fn decimal_digits() {
    assert_eq!(decimal_bytes(0), b"0".to_vec());
    assert_eq!(decimal_bytes(7), b"7".to_vec());
    assert_eq!(decimal_bytes(2048), b"2048".to_vec());
}

#[test]
fn method_tokens_and_bits() {
    let all = http_server::all_methods();
    let names = ["HEAD", "GET", "POST", "PUT", "DELETE", "CONNECT", "OPTIONS", "TRACE", "PATCH"];
    for (i, m) in all.iter().enumerate() {
        assert_eq!(m.display(), names[i]);
        assert_eq!(m.as_bytes(), names[i].as_bytes());
        assert_eq!(m.bit(), 1u16 << i);
        assert_eq!(HttpMethod::from_bytes(names[i].as_bytes()), Some(*m));
        let chars: Vec<char> = names[i].chars().collect();
        assert_eq!(HttpMethod::from_chars(&chars), Some(*m));
    }
    assert_eq!(HttpMethod::from_bytes(b"get"), None);
    assert_eq!(HttpMethod::from_bytes(b""), None);
}

#[test]
fn version_token() {
    assert_eq!(HttpVersion::OnePointOne.display(), "HTTP/1.1");
    assert_eq!(HttpVersion::OnePointOne.as_bytes(), b"HTTP/1.1");
}

#[test]
fn mask_as_text() {
    assert_eq!(methods_text(HttpMethod::Get.bit() | HttpMethod::Patch.bit()), "GET, PATCH, ");
    assert_eq!(methods_text(0), "");
    let mut tree = http_server::Route::<Reply, Identity, Identity>::new();
    let pat = pattern_of_path("/a").unwrap();
    assert!(tree.insert(HttpMethod::Head.bit() | HttpMethod::Post.bit(), &pat, Reply("a")).is_ok());
    assert_eq!(tree.handler_count(), 1);
    assert_eq!(tree.handler_methods(0), "HEAD, POST, ");
}
