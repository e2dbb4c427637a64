//! What the search server answers to which request.

use vstd::prelude::*;
use crate::chars::str_eq;

verus! {

/// The method of a request, as far as the server tells methods apart.
#[derive(Clone, Copy, Debug, PartialEq, Eq, Structural)]
pub enum Method {
    Get,
    Post,
    Other,
}

/// A file that the server hands out as it is.
#[derive(Clone, Copy, Debug, PartialEq, Eq, Structural)]
pub enum Asset {
    /// The search page.
    Page,
    /// The script of the search page.
    Script,
}

/// What a request is answered with.
#[derive(Clone, Copy, Debug, PartialEq, Eq, Structural)]
pub enum Route {
    /// A file.
    Asset(Asset),
    /// The results of the search for the body of the request.
    Search,
    /// Nothing: the request is for something that the server does not have.
    NotFound,
}

/// Number of results that the server sends for one search.
pub const SERVED_RESULTS: usize = 15;

/// Number of results that a search from the command line prints.
pub const PRINTED_RESULTS: usize = 10;

/// The answer to a request with the method `method` for `url`.
pub open spec fn route_of(method: Method, url: Seq<char>) -> Route {
    if method == Method::Get && url == "/"@ {
        Route::Asset(Asset::Page)
    } else if method == Method::Get && url == "/index.js"@ {
        Route::Asset(Asset::Script)
    } else if method == Method::Post && url == "/api/search"@ {
        Route::Search
    } else {
        Route::NotFound
    }
}

/// The answer to a request: `GET /` is the search page, `GET /index.js` its
/// script, `POST /api/search` a search; there is nothing else.
pub fn route(method: Method, url: &str) -> (found: Route)
    ensures
        found == route_of(method, url@),
{
    match method {
        Method::Get => {
            if str_eq(url, "/") {
                Route::Asset(Asset::Page)
            } else if str_eq(url, "/index.js") {
                Route::Asset(Asset::Script)
            } else {
                Route::NotFound
            }
        },
        Method::Post => {
            if str_eq(url, "/api/search") {
                Route::Search
            } else {
                Route::NotFound
            }
        },
        Method::Other => Route::NotFound,
    }
}

impl Asset {
    /// The name of the file that holds the asset.
    pub fn file_name(self) -> (name: &'static str)
        ensures
            name@ == (match self {
                Asset::Page => "index.html"@,
                Asset::Script => "index.js"@,
            }),
    {
        match self {
            Asset::Page => "index.html",
            Asset::Script => "index.js",
        }
    }

    /// The content type that the asset is sent with.
    pub fn content_type(self) -> (value: &'static str)
        ensures
            value@ == (match self {
                Asset::Page => "text/html; charset=utf-8"@,
                Asset::Script => "text/javascript; charset=utf-8"@,
            }),
    {
        match self {
            Asset::Page => "text/html; charset=utf-8",
            Asset::Script => "text/javascript; charset=utf-8",
        }
    }
}

/// The status that a request for a file is answered with where the file
/// could not be opened: 404 where it does not exist, 500 for any other reason.
pub fn failure_status(not_found: bool) -> (status: u16)
    ensures
        status == if not_found {
            404u16
        } else {
            500u16
        },
{
    if not_found {
        404
    } else {
        500
    }
}

} // verus!
