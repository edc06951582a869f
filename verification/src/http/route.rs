//! Which answer a request gets.

use super::{HttpMethod, HttpStatus};
use crate::text::str_eq;
use vstd::prelude::*;

verus! {

/// What the server does with a request.
#[derive(Debug, PartialEq, Eq)]
pub enum Route {
    /// It sends a page from a file, after a pause of so many seconds.
    Page { status: HttpStatus, file: &'static str, pause: u64 },
    /// It sends the request back as plain text.
    Echo,
}

/// Whether `route` is the answer to a request with the given method and
/// path: the greeting for `GET /`, the slow page for `GET /sleep`, an echo
/// for `/echo` under any method, and the page for what is not found else.
pub open spec fn route_is(route: Route, method: HttpMethod, path: Seq<char>) -> bool {
    if method is GET && path == "/"@ {
        route matches Route::Page { status, file, pause } && status is OK && file@
            == "hello.html"@ && pause == 0
    } else if method is GET && path == "/sleep"@ {
        route matches Route::Page { status, file, pause } && status is OK && file@
            == "sleepy.html"@ && pause == 5
    } else if path == "/echo"@ {
        route is Echo
    } else {
        route matches Route::Page { status, file, pause } && status is NotFound && file@
            == "404.html"@ && pause == 0
    }
}

pub fn route(method: &HttpMethod, path: &str) -> (r: Route)
    ensures
        route_is(r, *method, path@),
{
    let get = match method {
        HttpMethod::GET => true,
        _ => false,
    };
    if get && str_eq(path, "/") {
        Route::Page { status: HttpStatus::OK, file: "hello.html", pause: 0 }
    } else if get && str_eq(path, "/sleep") {
        Route::Page { status: HttpStatus::OK, file: "sleepy.html", pause: 5 }
    } else if str_eq(path, "/echo") {
        Route::Echo
    } else {
        Route::Page { status: HttpStatus::NotFound, file: "404.html", pause: 0 }
    }
}

} // verus!
