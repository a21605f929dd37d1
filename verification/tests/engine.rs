use api_gateway::api_services::{namespace_member_role, DbApiRole, WebApiRole, WebRequestApiService};
use api_gateway::authz::check_aud_authorized;
use api_gateway::errors::GatewayError;
use api_gateway::forwarder::{build_forward_headers, compose_target_url, parse_forward_path};
use api_gateway::text::{format_u64, qualified_name, str_eq, str_starts_with};

fn role(id: u64, ns: &str, name: &str) -> DbApiRole {
    DbApiRole {
        id,
        namespace: ns.to_string(),
        name: name.to_string(),
    }
}

#[test]
fn qualified_name_renders_namespace_and_name() {
    assert_eq!(qualified_name("billing", "writer"), "billing::writer");
    assert_eq!(qualified_name("", "x"), "::x");
}

#[test]
fn str_helpers_compare_by_characters() {
    assert!(str_eq("abc", "abc"));
    assert!(!str_eq("abc", "abd"));
    assert!(!str_eq("abc", "ab"));
    assert!(str_starts_with("billing::writer", "billing::"));
    assert!(!str_starts_with("bill", "billing::"));
}

#[test]
fn format_u64_renders_decimal() {
    assert_eq!(format_u64(0), "0");
    assert_eq!(format_u64(7), "7");
    assert_eq!(format_u64(1234567890), "1234567890");
    assert_eq!(format_u64(u64::MAX), "18446744073709551615");
}

#[test]
fn authorize_exact_match() {
    let roles = vec![role(1, "billing", "writer")];
    let aud = vec!["billing::writer".to_string()];
    assert!(check_aud_authorized(&roles, &aud));
}

#[test]
fn authorize_denies_without_match() {
    let roles = vec![role(1, "billing", "writer")];
    let aud = vec!["billing::reader".to_string(), "orders::writer".to_string()];
    assert!(!check_aud_authorized(&roles, &aud));
    assert!(!check_aud_authorized(&roles, &vec![]));
    assert!(!check_aud_authorized(&vec![], &aud));
}

#[test]
fn authorize_namespace_wildcard() {
    // The service carries a namespace-member role; any audience entry
    // within that namespace authorizes the call.
    let roles = vec![role(2, "billing", namespace_member_role())];
    let aud = vec!["billing::whatever".to_string()];
    assert!(check_aud_authorized(&roles, &aud));
    // An entry in another namespace does not.
    let other = vec!["orders::whatever".to_string()];
    assert!(!check_aud_authorized(&roles, &other));
    // A plain role never acts as a wildcard.
    let plain = vec![role(1, "billing", "writer")];
    assert!(!check_aud_authorized(&plain, &vec!["billing::reader".to_string()]));
}

#[test]
fn parse_forward_path_accepts_three_segments() {
    let (name, version, rest) = parse_forward_path("/orders/v1/items").unwrap();
    assert_eq!(name, "orders");
    assert_eq!(version, "v1");
    assert_eq!(rest, "items");
}

#[test]
fn parse_forward_path_passes_deep_rest_through() {
    let (name, version, rest) = parse_forward_path("/orders/v1/items/42?q=a/b").unwrap();
    assert_eq!(name, "orders");
    assert_eq!(version, "v1");
    assert_eq!(rest, "items/42?q=a/b");
}

#[test]
fn parse_forward_path_rejects_short_paths() {
    assert!(matches!(
        parse_forward_path("/orders/v1"),
        Err(GatewayError::BadRequest(_))
    ));
    assert!(matches!(parse_forward_path("/orders"), Err(GatewayError::BadRequest(_))));
    assert!(matches!(parse_forward_path("/"), Err(GatewayError::BadRequest(_))));
    assert!(matches!(parse_forward_path(""), Err(GatewayError::BadRequest(_))));
    assert!(matches!(
        parse_forward_path("orders/v1/items"),
        Err(GatewayError::BadRequest(_))
    ));
}

#[test]
fn compose_target_url_appends_verbatim() {
    assert_eq!(
        compose_target_url("http://backend:9000", "items"),
        "http://backend:9000/items"
    );
}

#[test]
fn forward_headers_drop_host_and_append_proxy_metadata() {
    let inbound = vec![
        ("accept".to_string(), "*/*".to_string()),
        ("host".to_string(), "gw.local".to_string()),
        ("x-forwarded-for".to_string(), "10.0.0.1".to_string()),
    ];
    let out = build_forward_headers(&inbound, "10.0.0.9", "10.0.0.1", "https", "gw.local");
    assert_eq!(
        out,
        vec![
            ("accept".to_string(), "*/*".to_string()),
            ("x-forwarded-for".to_string(), "10.0.0.1".to_string()),
            ("X-Real-IP".to_string(), "10.0.0.9".to_string()),
            ("X-Forwarded-For".to_string(), "10.0.0.1".to_string()),
            ("X-Forwarded-Proto".to_string(), "https".to_string()),
            ("X-Forwarded-Host".to_string(), "gw.local".to_string()),
        ]
    );
}

#[test]
fn error_envelope_is_the_json_error_shape() {
    let e = GatewayError::NotFound("API Service".to_string(), "gone".to_string());
    assert_eq!(e.status_code(), 404);
    assert_eq!(e.message(), "API Service Record not found: gone");
    assert_eq!(
        e.error_body(),
        "{\"success\":false,\"error\":\"API Service Record not found: gone\"}"
    );
}

#[test]
fn error_envelope_escapes_quotes_and_backslashes() {
    let e = GatewayError::BadRequest("a \"b\" \\ c\nd".to_string());
    assert_eq!(
        e.error_body(),
        "{\"success\":false,\"error\":\"Bad Request: a \\\"b\\\" \\\\ c\\nd\"}"
    );
}

#[test]
fn error_status_codes_follow_the_taxonomy() {
    assert_eq!(GatewayError::Unauthorized(String::new()).status_code(), 401);
    assert_eq!(GatewayError::MissingData(String::new()).status_code(), 400);
    assert_eq!(GatewayError::BadRequest(String::new()).status_code(), 400);
    assert_eq!(GatewayError::InvalidUsernameOrPassword(String::new()).status_code(), 403);
    assert_eq!(GatewayError::Forbidden(String::new()).status_code(), 403);
    assert_eq!(GatewayError::DatabaseError(String::new()).status_code(), 500);
    assert_eq!(GatewayError::TokenDecodeError(String::new()).status_code(), 401);
    assert_eq!(GatewayError::TokenEncodeError(String::new()).status_code(), 500);
    assert_eq!(GatewayError::SystemError(String::new()).status_code(), 500);
}

#[test]
fn web_request_collects_roles_and_namespace_members() {
    let req = WebRequestApiService {
        api_name: "orders".to_string(),
        version: "v1".to_string(),
        forward_url: "http://backend:9000".to_string(),
        active: true,
        role_namespaces: vec!["billing".to_string()],
        roles: vec![WebApiRole {
            id: None,
            namespace: "orders".to_string(),
            name: "admin".to_string(),
        }],
        environment: "dev".to_string(),
    };
    let all = req.all_roles();
    assert_eq!(all.len(), 2);
    assert_eq!(all[0].namespace, "orders");
    assert_eq!(all[0].name, "admin");
    assert_eq!(all[1].namespace, "billing");
    assert_eq!(all[1].name, namespace_member_role());
    let db = req.to_db_request();
    assert_eq!(db.api_name, "orders");
    assert!(db.active);
}
