use vstd::prelude::*;
use vstd::utf8::encode_utf8;
use crate::bytes::{bytes_eq, starts_with};
use crate::request::HttpRequest;
use crate::response::{
    code_not_found, code_ok, content_type, default_headers, http11, merged, status_text_of,
    string_bytes, HttpResponse, ResponseView,
};

verus! {

/// `/api/`, the prefix of the paths that the service answers.
pub open spec fn api_prefix() -> Seq<u8> {
    seq![47u8, 97u8, 112u8, 105u8, 47u8]
}

/// `index.html`, the landing page.
pub open spec fn index_page() -> Seq<u8> {
    seq![105u8, 110u8, 100u8, 101u8, 120u8, 46u8, 104u8, 116u8, 109u8, 108u8]
}

/// `application/json`
pub open spec fn application_json() -> Seq<u8> {
    seq![
        97u8, 112u8, 112u8, 108u8, 105u8, 99u8, 97u8, 116u8, 105u8, 111u8, 110u8, 47u8, 106u8,
        115u8, 111u8, 110u8,
    ]
}

/// The handler variant chosen for a request.
#[derive(Debug, Clone, PartialEq, Eq)]
pub enum Route {
    /// The service handler, for every path that starts with `/api/`.
    Service,
    /// The static-page handler, for the root path.
    StaticPage,
    /// The static-file handler, with the file name taken from the path.
    StaticFile(Vec<u8>),
}

/// What a route is, with the file name as bytes.
pub ghost enum RouteView {
    Service,
    StaticPage,
    StaticFile(Seq<u8>),
}

impl View for Route {
    type V = RouteView;

    open spec fn view(&self) -> RouteView {
        match self {
            Route::Service => RouteView::Service,
            Route::StaticPage => RouteView::StaticPage,
            Route::StaticFile(name) => RouteView::StaticFile(name@),
        }
    }
}

/// The file that serves a route: the landing page for the root, the named
/// file for a static file, none for the service.
pub open spec fn file_for(route: RouteView) -> Option<Seq<u8>> {
    match route {
        RouteView::Service => None,
        RouteView::StaticPage => Some(index_page()),
        RouteView::StaticFile(name) => Some(name),
    }
}

impl Route {
    /// The name of the file to load for this route, relative to the public
    /// directory; `None` for the service, which computes its content.
    pub fn file_to_load(&self) -> (r: Option<Vec<u8>>)
        ensures
            match r {
                None => file_for(self@) is None,
                Some(name) => file_for(self@) == Some(name@),
            },
    {
        match self {
            Route::Service => None,
            Route::StaticPage => Some(
                vec![105u8, 110u8, 100u8, 101u8, 120u8, 46u8, 104u8, 116u8, 109u8, 108u8],
            ),
            Route::StaticFile(name) => {
                let mut copy: Vec<u8> = Vec::new();
                crate::bytes::append_bytes(&mut copy, name.as_slice());
                assert(copy@ =~= name@);
                Some(copy)
            },
        }
    }
}

/// Whether a path starts with the API prefix `/api/`.
pub open spec fn is_api_path(path: Seq<u8>) -> bool {
    path.len() >= api_prefix().len() && path.subrange(0, api_prefix().len() as int)
        == api_prefix()
}

/// The file name in a path: the path without its leading `/`.
pub open spec fn file_name_of(path: Seq<u8>) -> Seq<u8> {
    if path.len() > 0 && path[0] == 47u8 {
        path.drop_first()
    } else {
        path
    }
}

/// The routing rule: the service under `/api/`, the static page at `/`, and a
/// static file for every other path. Only the path decides.
pub open spec fn route_of(path: Seq<u8>) -> RouteView {
    if is_api_path(path) {
        RouteView::Service
    } else if path == seq![47u8] {
        RouteView::StaticPage
    } else {
        RouteView::StaticFile(file_name_of(path))
    }
}

/// What a handler answers: `200` with the loaded content, or `404` with the
/// not-found page where the content could not be had.
pub open spec fn answer(
    found: Option<Seq<u8>>,
    not_found: Option<Seq<u8>>,
    headers: Seq<(Seq<u8>, Seq<u8>)>,
) -> ResponseView {
    match found {
        Some(c) => ResponseView {
            version: http11(),
            status_code: code_ok(),
            status_text: status_text_of(code_ok()),
            headers: headers,
            body: Some(c),
        },
        None => ResponseView {
            version: http11(),
            status_code: code_not_found(),
            status_text: status_text_of(code_not_found()),
            headers: default_headers(),
            body: not_found,
        },
    }
}

/// The bytes of an optional text.
pub open spec fn encoded(s: Option<String>) -> Option<Seq<u8>> {
    match s {
        None => None,
        Some(t) => Some(encode_utf8(t@)),
    }
}

fn encode_text(s: Option<String>) -> (r: Option<Vec<u8>>)
    ensures
        match r {
            None => encoded(s) is None,
            Some(b) => encoded(s) == Some(b@),
        },
{
    match &s {
        None => None,
        Some(t) => Some(string_bytes(t)),
    }
}

fn respond_with(
    found: Option<String>,
    not_found: Option<String>,
    headers: Option<Vec<(Vec<u8>, Vec<u8>)>>,
) -> (r: HttpResponse)
    ensures
        r@ == answer(
            encoded(found),
            encoded(not_found),
            match headers {
                None => default_headers(),
                Some(h) => merged(crate::response::pair_views(h@)),
            },
        ),
{
    match encode_text(found) {
        Some(content) => HttpResponse::with_code(vec![50u8, 48u8, 48u8], headers, Some(content)),
        None => HttpResponse::with_code(vec![52u8, 48u8, 52u8], None, encode_text(not_found)),
    }
}

/// Serves the landing page.
pub struct StaticPageHandler;

/// Serves the service's computed content.
pub struct WebServiceHandler;

/// Serves a named file.
pub struct StaticFileHandler;

impl StaticPageHandler {
    /// The landing page with `200` where it could be loaded, else `404` with
    /// the not-found page.
    pub fn handle(page: Option<String>, not_found: Option<String>) -> (r: HttpResponse)
        ensures
            r@ == answer(encoded(page), encoded(not_found), default_headers()),
    {
        respond_with(page, not_found, None)
    }
}

impl StaticFileHandler {
    /// The file with `200` where it could be loaded, else `404` with the
    /// not-found page.
    pub fn handle(contents: Option<String>, not_found: Option<String>) -> (r: HttpResponse)
        ensures
            r@ == answer(encoded(contents), encoded(not_found), default_headers()),
    {
        respond_with(contents, not_found, None)
    }
}

impl WebServiceHandler {
    /// The service's content as JSON with `200`, else `404` with the
    /// not-found page.
    pub fn handle(data: Option<String>, not_found: Option<String>) -> (r: HttpResponse)
        ensures
            r@ == answer(
                encoded(data),
                encoded(not_found),
                seq![(content_type(), application_json())],
            ),
    {
        let name: Vec<u8> = vec![
            67u8, 111u8, 110u8, 116u8, 101u8, 110u8, 116u8, 45u8, 84u8, 121u8, 112u8, 101u8,
        ];
        let value: Vec<u8> = vec![
            97u8, 112u8, 112u8, 108u8, 105u8, 99u8, 97u8, 116u8, 105u8, 111u8, 110u8, 47u8,
            106u8, 115u8, 111u8, 110u8,
        ];
        let mut h: Vec<(Vec<u8>, Vec<u8>)> = Vec::new();
        h.push((name, value));
        proof {
            let single = seq![(content_type(), application_json())];
            assert(crate::response::pair_views(h@) =~= single);
            assert(single.drop_last() =~= Seq::<(Seq<u8>, Seq<u8>)>::empty());
            let none = Seq::<(Seq<u8>, Seq<u8>)>::empty();
            assert(merged(none) == none);
            assert(crate::response::find_name(none, content_type()) == 0);
            assert(crate::response::merge_pair(none, single[0]) =~= single);
            assert(merged(single) =~= single);
        }
        respond_with(data, not_found, Some(h))
    }
}

/// Chooses the handler for each request.
pub struct Router;

impl Router {
    /// The handler for a request, decided by its path alone.
    pub fn route(req: &HttpRequest) -> (r: Route)
        ensures
            r@ == route_of(req@.resource),
    {
        let path = req.resource.as_slice();
        let api_prefix: Vec<u8> = vec![47u8, 97u8, 112u8, 105u8, 47u8];
        let root: Vec<u8> = vec![47u8];
        assert(root@ == seq![47u8]);
        let under_api = starts_with(path, api_prefix.as_slice());
        assert(path@ == req@.resource);
        let is_root = bytes_eq(path, root.as_slice());
        if under_api {
            Route::Service
        } else if is_root {
            Route::StaticPage
        } else if path.len() > 0 && path[0] == 47u8 {
            let mut name: Vec<u8> = Vec::new();
            let mut i: usize = 1;
            while i < path.len()
                invariant
                    1 <= i <= path@.len(),
                    name@ == path@.subrange(1, i as int),
                decreases path@.len() - i,
            {
                name.push(path[i]);
                i = i + 1;
                assert(name@ =~= path@.subrange(1, i as int));
            }
            assert(path@.drop_first() =~= path@.subrange(1, path@.len() as int));
            Route::StaticFile(name)
        } else {
            let mut name: Vec<u8> = Vec::new();
            crate::bytes::append_bytes(&mut name, path);
            assert(name@ =~= path@);
            Route::StaticFile(name)
        }
    }

    /// The response for a route, given what was loaded for it: the page, the
    /// file or the service's data, and the not-found page.
    pub fn respond(route: &Route, loaded: Option<String>, not_found: Option<String>) -> (r:
        HttpResponse)
        ensures
            r@ == (match route@ {
                RouteView::Service => answer(
                    encoded(loaded),
                    encoded(not_found),
                    seq![(content_type(), application_json())],
                ),
                _ => answer(encoded(loaded), encoded(not_found), default_headers()),
            }),
    {
        match route {
            Route::Service => WebServiceHandler::handle(loaded, not_found),
            Route::StaticPage => StaticPageHandler::handle(loaded, not_found),
            Route::StaticFile(_) => StaticFileHandler::handle(loaded, not_found),
        }
    }
}

} // verus!
