//! Self-contained response plans for the statuses the proxy emits itself:
//! the status code, its headers, and an HTML body with the canonical
//! reason phrase and the product footer.
use vstd::prelude::*;
use crate::text::{get_project_version, spec_dec, u64_to_dec};

verus! {

/// A response the caller writes out verbatim.
pub struct HttpResponsePlan {
    pub status: u16,
    pub headers: Vec<(String, String)>,
    pub body: String,
}

/// The canonical reason phrase of the statuses this crate emits.
pub open spec fn spec_reason(status: u16) -> Seq<char> {
    if status == 400 {
        "Bad Request"@
    } else if status == 403 {
        "Forbidden"@
    } else if status == 404 {
        "Not Found"@
    } else if status == 500 {
        "Internal Server Error"@
    } else if status == 502 {
        "Bad Gateway"@
    } else if status == 503 {
        "Service Unavailable"@
    } else if status == 504 {
        "Gateway Timeout"@
    } else {
        Seq::<char>::empty()
    }
}

fn reason_phrase(status: u16) -> (r: &'static str)
    ensures
        r@ == spec_reason(status),
{
    if status == 400 {
        "Bad Request"
    } else if status == 403 {
        "Forbidden"
    } else if status == 404 {
        "Not Found"
    } else if status == 500 {
        "Internal Server Error"
    } else if status == 502 {
        "Bad Gateway"
    } else if status == 503 {
        "Service Unavailable"
    } else if status == 504 {
        "Gateway Timeout"
    } else {
        proof {
            reveal_strlit("");
        }
        let r = "";
        assert(r@ =~= spec_reason(status));
        r
    }
}

/// The error page: code and reason in the title and heading, the product
/// version in the footer.
pub open spec fn spec_error_html(status: u16) -> Seq<char> {
    "<html><head><title>"@ + spec_dec(status as nat) + " "@ + spec_reason(status)
        + "</title></head><body style='text-align: center; margin-top: 50px; font-family: sans-serif;'><h1> Error "@
        + spec_dec(status as nat) + "</h1><h4>"@ + spec_reason(status) + "</h4><hr/><p>"@
        + "quark v.1.0.0"@ + "</p></body></html>"@
}

fn error_builder(status: u16) -> (r: HttpResponsePlan)
    ensures
        r.status == status,
        r.headers@.len() == 0,
        r.body@ == spec_error_html(status),
{
    let code = u64_to_dec(status as u64);
    let msg = reason_phrase(status);
    let version = get_project_version();
    let mut text = String::from_str("<html><head><title>");
    text.append(code.as_str());
    text.append(" ");
    text.append(msg);
    text.append(
        "</title></head><body style='text-align: center; margin-top: 50px; font-family: sans-serif;'><h1> Error ",
    );
    text.append(code.as_str());
    text.append("</h1><h4>");
    text.append(msg);
    text.append("</h4><hr/><p>");
    text.append(version.as_str());
    text.append("</p></body></html>");
    HttpResponsePlan { status, headers: Vec::new(), body: text }
}

pub fn not_found() -> (r: HttpResponsePlan)
    ensures
        r.status == 404,
        r.headers@.len() == 0,
        r.body@ == spec_error_html(404),
{
    error_builder(404)
}

pub fn forbidden() -> (r: HttpResponsePlan)
    ensures
        r.status == 403,
        r.headers@.len() == 0,
        r.body@ == spec_error_html(403),
{
    error_builder(403)
}

pub fn service_unavailable() -> (r: HttpResponsePlan)
    ensures
        r.status == 503,
        r.headers@.len() == 0,
        r.body@ == spec_error_html(503),
{
    error_builder(503)
}

pub fn internal_server_error() -> (r: HttpResponsePlan)
    ensures
        r.status == 500,
        r.headers@.len() == 0,
        r.body@ == spec_error_html(500),
{
    error_builder(500)
}

pub fn bad_gateway() -> (r: HttpResponsePlan)
    ensures
        r.status == 502,
        r.headers@.len() == 0,
        r.body@ == spec_error_html(502),
{
    error_builder(502)
}

pub fn gateway_timeout() -> (r: HttpResponsePlan)
    ensures
        r.status == 504,
        r.headers@.len() == 0,
        r.body@ == spec_error_html(504),
{
    error_builder(504)
}

pub fn bad_request() -> (r: HttpResponsePlan)
    ensures
        r.status == 400,
        r.headers@.len() == 0,
        r.body@ == spec_error_html(400),
{
    error_builder(400)
}

/// A redirect: the given status with a single `Location` header and an
/// empty body.
pub fn redirect_response(status: u16, location: String) -> (r: HttpResponsePlan)
    ensures
        r.status == status,
        r.headers@.len() == 1,
        r.headers@[0].0@ == "Location"@,
        r.headers@[0].1 == location,
        r.body@ == Seq::<char>::empty(),
{
    let mut headers: Vec<(String, String)> = Vec::new();
    headers.push((String::from_str("Location"), location));
    HttpResponsePlan { status, headers, body: String::new() }
}


/// The page served when no services are configured.
pub open spec fn spec_welcome_html() -> Seq<char> {
    "<html><head><title>Quark is ready!</title></head><body style='text-align:center; margin-top: 50px; font-family: sans-serif;'><hr/><h1>Quark is ready!</h1><p>The server has been successfully installed and started.</p><p>A configuration file is already in place, but it's currently empty.</p><p>Edit the configuration to define how the server should behave.</p><p>Once configured, Quark will be ready to serve your content.</p><br/><hr/><p>"@
        + "quark v.1.0.0"@ + "</p></body></html>"@
}

pub fn welcome_server_msg() -> (r: HttpResponsePlan)
    ensures
        r.status == 200,
        r.headers@.len() == 0,
        r.body@ == spec_welcome_html(),
{
    let mut msg = String::from_str(
        "<html><head><title>Quark is ready!</title></head><body style='text-align:center; margin-top: 50px; font-family: sans-serif;'><hr/><h1>Quark is ready!</h1><p>The server has been successfully installed and started.</p><p>A configuration file is already in place, but it's currently empty.</p><p>Edit the configuration to define how the server should behave.</p><p>Once configured, Quark will be ready to serve your content.</p><br/><hr/><p>",
    );
    let version = get_project_version();
    msg.append(version.as_str());
    msg.append("</p></body></html>");
    HttpResponsePlan { status: 200, headers: Vec::new(), body: msg }
}


} // verus!
