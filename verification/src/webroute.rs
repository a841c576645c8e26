//! Which page answers a request.

use vstd::prelude::*;

verus! {

/// The answer to a request: the status line, the file that holds the page,
/// and how long to wait before answering.
pub struct Route {
    pub status_line: &'static str,
    pub file_path: &'static str,
    pub delay_secs: u64,
}

/// The request line is exactly this text.
fn is_request(line: &str, text: &str) -> (same: bool)
    ensures
        same == (line@ == text@),
{
    let a = line.to_owned();
    let b = text.to_owned();
    a == b
}

/// The answer to a request line: the home page for `GET /`, the home page
/// after five seconds for `GET /sleep`, and the error page for anything
/// else.
pub fn route(request_line: &str) -> (answer: Route)
    ensures
        answer.status_line@ == if request_line@ == "GET / HTTP/1.1"@ || request_line@
            == "GET /sleep HTTP/1.1"@ {
            "HTTP/1.1 200 OK"@
        } else {
            "HTTP/1.1 404 NOT FOUND"@
        },
        answer.file_path@ == if request_line@ == "GET / HTTP/1.1"@ || request_line@
            == "GET /sleep HTTP/1.1"@ {
            "hello.html"@
        } else {
            "404.html"@
        },
        answer.delay_secs == if request_line@ == "GET / HTTP/1.1"@ {
            0u64
        } else if request_line@ == "GET /sleep HTTP/1.1"@ {
            5u64
        } else {
            0u64
        },
{
    if is_request(request_line, "GET / HTTP/1.1") {
        Route { status_line: "HTTP/1.1 200 OK", file_path: "hello.html", delay_secs: 0 }
    } else if is_request(request_line, "GET /sleep HTTP/1.1") {
        Route { status_line: "HTTP/1.1 200 OK", file_path: "hello.html", delay_secs: 5 }
    } else {
        Route { status_line: "HTTP/1.1 404 NOT FOUND", file_path: "404.html", delay_secs: 0 }
    }
}

} // verus!
