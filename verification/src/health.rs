//! The HTTP answers for health probes.

use crate::bytes::{has_prefix, starts_with};
use crate::text::{decimal, join2, join3, push_decimal};
use vstd::prelude::*;
use vstd::utf8::encode_utf8;

verus! {

/// Whether a request starts with a text.
pub open spec fn asks(request: Seq<u8>, line: Seq<char>) -> bool {
    has_prefix(request, encode_utf8(line))
}

/// An answer: the status line, the type of the body, and the body.
pub type Answer = (Seq<char>, Seq<char>, Seq<char>);

/// What `/health` and `/ready` say.
pub open spec fn health_body(uptime: u64) -> Seq<char> {
    r#"{"status":"ok","uptime_sec":"#@ + decimal(uptime as nat) + "}"@
}

/// What `/metrics` says.
pub open spec fn metrics_body(uptime: u64) -> Seq<char> {
    "# HELP rhydadb_up Whether the server is up\n# TYPE rhydadb_up gauge\nrhydadb_up 1\n# HELP rhydadb_uptime_seconds Uptime\n# TYPE rhydadb_uptime_seconds counter\nrhydadb_uptime_seconds "@
        + decimal(uptime as nat) + "\n"@
}

/// The answer to a request.
pub open spec fn probe_answer(request: Seq<u8>, uptime: u64) -> Answer {
    if asks(request, "GET /health"@) || asks(request, "GET /ready"@) {
        ("200 OK"@, "application/json"@, health_body(uptime))
    } else if asks(request, "GET /metrics"@) {
        ("200 OK"@, "text/plain; version=0.0.4"@, metrics_body(uptime))
    } else if asks(request, "GET /"@) {
        ("404 Not Found"@, "application/json"@, r#"{"status":"not_found"}"#@)
    } else {
        ("400 Bad Request"@, "application/json"@, r#"{"status":"bad_request"}"#@)
    }
}

/// An answer as it is sent.
pub open spec fn http_text(a: Answer) -> Seq<char> {
    "HTTP/1.1 "@ + a.0 + "\r\nContent-Type: "@ + a.1 + "\r\nContent-Length: "@ + decimal(
        encode_utf8(a.2).len(),
    ) + "\r\nConnection: close\r\n\r\n"@ + a.2
}

fn with_decimal(before: &str, n: u64, after: &str) -> (r: String)
    ensures
        r@ == before@ + decimal(n as nat) + after@,
{
    let mut r: String = before.to_owned();
    push_decimal(&mut r, n);
    join2(&r, after)
}

fn http(status: &str, content_type: &str, body: &str) -> (r: String)
    ensures
        r@ == http_text((status@, content_type@, body@)),
{
    let head: String = join3("HTTP/1.1 ", status, "\r\nContent-Type: ");
    let typed: String = join3(&head, content_type, "\r\nContent-Length: ");
    let sized: String = with_decimal(
        &typed,
        body.as_bytes().len() as u64,
        "\r\nConnection: close\r\n\r\n",
    );
    join2(&sized, body)
}

/// The answer to a request for health, given how many seconds the server has
/// been up.
pub fn health_response(request: &[u8], uptime: u64) -> (r: String)
    ensures
        r@ == http_text(probe_answer(request@, uptime)),
{
    if starts_with(request, "GET /health".as_bytes()) || starts_with(
        request,
        "GET /ready".as_bytes(),
    ) {
        let body: String = with_decimal(r#"{"status":"ok","uptime_sec":"#, uptime, "}");
        return http("200 OK", "application/json", &body);
    }
    if starts_with(request, "GET /metrics".as_bytes()) {
        let body: String = with_decimal(
            "# HELP rhydadb_up Whether the server is up\n# TYPE rhydadb_up gauge\nrhydadb_up 1\n# HELP rhydadb_uptime_seconds Uptime\n# TYPE rhydadb_uptime_seconds counter\nrhydadb_uptime_seconds ",
            uptime,
            "\n",
        );
        return http("200 OK", "text/plain; version=0.0.4", &body);
    }
    if starts_with(request, "GET /".as_bytes()) {
        return http("404 Not Found", "application/json", r#"{"status":"not_found"}"#);
    }
    http("400 Bad Request", "application/json", r#"{"status":"bad_request"}"#)
}

} // verus!
