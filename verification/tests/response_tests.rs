use quark::http_response::{
    bad_gateway, bad_request, forbidden, gateway_timeout, internal_server_error, not_found,
    service_unavailable, welcome_server_msg,
};

#[test]
fn error_pages_carry_code_and_reason() {
    let cases = [
        (bad_request(), 400, "Bad Request"),
        (forbidden(), 403, "Forbidden"),
        (not_found(), 404, "Not Found"),
        (internal_server_error(), 500, "Internal Server Error"),
        (bad_gateway(), 502, "Bad Gateway"),
        (service_unavailable(), 503, "Service Unavailable"),
        (gateway_timeout(), 504, "Gateway Timeout"),
    ];
    for (plan, code, reason) in cases {
        assert_eq!(plan.status, code);
        assert!(plan.body.contains(&format!("{code} {reason}")));
        assert!(plan.body.contains("quark v.1.0.0"));
    }
}

#[test]
fn welcome_page_names_the_product() {
    let plan = welcome_server_msg();
    assert_eq!(plan.status, 200);
    assert!(plan.body.contains("Quark is ready!"));
    assert!(plan.body.contains("quark v.1.0.0"));
}
