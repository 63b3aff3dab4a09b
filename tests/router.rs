use httpcore::{
    HttpRequest, Route, Router, Server, StaticFileHandler, StaticPageHandler, WebServiceHandler,
};

#[test]
fn api_path_goes_to_service_for_any_method() {
    for m in ["GET", "POST", "PUT", "DELETE", "FETCH"] {
        let text = format!("{} /api/courses HTTP/1.1\r\n\r\n", m);
        let req = HttpRequest::from_bytes(text.as_bytes());
        assert_eq!(Router::route(&req), Route::Service);
    }
}

#[test]
fn bare_api_path_is_a_static_file() {
    let req = HttpRequest::from_bytes(b"GET /api HTTP/1.1\r\n\r\n");
    assert_eq!(Router::route(&req), Route::StaticFile(b"api".to_vec()));
}

#[test]
fn root_goes_to_static_page() {
    let req = HttpRequest::from_bytes(b"GET / HTTP/1.1\r\n\r\n");
    assert_eq!(Router::route(&req), Route::StaticPage);
}

#[test]
fn other_paths_go_to_static_file() {
    let req = HttpRequest::from_bytes(b"GET /nonexistent.html HTTP/1.1\r\n\r\n");
    assert_eq!(Router::route(&req), Route::StaticFile(b"nonexistent.html".to_vec()));
    let req = HttpRequest::from_bytes(b"GET /apiary.html HTTP/1.1\r\n\r\n");
    assert_eq!(Router::route(&req), Route::StaticFile(b"apiary.html".to_vec()));
}

#[test]
fn missing_file_gives_not_found_page() {
    let req = HttpRequest::from_bytes(b"GET /nonexistent.html HTTP/1.1\r\n\r\n");
    let route = Router::route(&req);
    let resp = Router::respond(&route, None, Some("<h1>Not Found</h1>".into()));
    assert_eq!(resp.status_code(), b"404");
    assert_eq!(resp.status_text(), b"Not Found");
    assert_eq!(resp.body(), b"<h1>Not Found</h1>");
}

#[test]
fn found_file_is_served() {
    let resp = StaticFileHandler::handle(Some("body{}".into()), Some("nf".into()));
    assert_eq!(resp.status_code(), b"200");
    assert_eq!(resp.body(), b"body{}");
}

#[test]
fn static_page_handler_answers() {
    let resp = StaticPageHandler::handle(Some("<h1>Hi</h1>".into()), None);
    assert_eq!(
        resp.to_bytes(),
        b"HTTP/1.1 200 OK\r\nContent-Type:text/html\r\nContent-Length: 11\r\n\r\n<h1>Hi</h1>".to_vec()
    );
    let missing = StaticPageHandler::handle(None, None);
    assert_eq!(missing.status_code(), b"404");
    assert_eq!(missing.body(), b"");
}

#[test]
fn service_answers_json() {
    let resp = WebServiceHandler::handle(Some("[1]".into()), None);
    assert_eq!(
        resp.to_bytes(),
        b"HTTP/1.1 200 OK\r\nContent-Type:application/json\r\nContent-Length: 3\r\n\r\n[1]".to_vec()
    );
    let resp = Router::respond(&Route::Service, None, Some("nf".into()));
    assert_eq!(resp.status_code(), b"404");
    assert_eq!(resp.body(), b"nf");
}

#[test]
fn server_keeps_its_address() {
    let server = Server::new("127.0.0.1:3000");
    assert_eq!(server.socket_addr(), "127.0.0.1:3000");
}

#[test]
fn routes_name_the_file_to_load() {
    assert_eq!(Route::StaticPage.file_to_load(), Some(b"index.html".to_vec()));
    assert_eq!(Route::Service.file_to_load(), None);
    let req = HttpRequest::from_bytes(b"GET /style.css HTTP/1.1\r\n\r\n");
    assert_eq!(Router::route(&req).file_to_load(), Some(b"style.css".to_vec()));
}
