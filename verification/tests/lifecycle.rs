use api_gateway::auth::{
    build_claims, gateway_jwt_issuer, parse_bearer, roles_to_audience, validate_claims,
    validate_claims_prefix, AuthError, TOKEN_LIFETIME_SECS,
};
use api_gateway::api_services::{ApiServiceError, WebApiRole};
use api_gateway::errors::GatewayError;
use api_gateway::store::GatewayStore;
use api_gateway::users::{DbGatewayUserRequest, UserError};

fn web_role(ns: &str, name: &str) -> WebApiRole {
    WebApiRole {
        id: None,
        namespace: ns.to_string(),
        name: name.to_string(),
    }
}

#[test]
fn bearer_parsing_accepts_the_scheme_case_insensitively() {
    assert_eq!(parse_bearer("Bearer abc.def").unwrap(), "abc.def");
    assert_eq!(parse_bearer("bearer t").unwrap(), "t");
    assert_eq!(parse_bearer("BEARER t").unwrap(), "t");
    assert!(matches!(parse_bearer("Token t"), Err(GatewayError::Unauthorized(_))));
    assert!(matches!(parse_bearer("Bearer"), Err(GatewayError::Unauthorized(_))));
    assert!(matches!(parse_bearer(""), Err(GatewayError::Unauthorized(_))));
}

#[test]
fn issued_token_validates_before_expiry_and_fails_after() {
    // A token issued now expires one lifetime later: it still
    // validates one minute before that, and no longer validates one
    // minute after.
    let now: u64 = 1_700_000_000;
    let claims = build_claims(
        &"alice".to_string(),
        &"7".to_string(),
        vec!["billing::writer".to_string()],
        now,
    );
    assert_eq!(claims.exp, now + TOKEN_LIFETIME_SECS);
    assert_eq!(claims.iat, now);
    assert_eq!(claims.nbf, now);
    assert_eq!(claims.iss, gateway_jwt_issuer());
    assert_eq!(claims.sub, "alice");
    let issuer = gateway_jwt_issuer();
    assert!(validate_claims(&claims, now + TOKEN_LIFETIME_SECS - 60, issuer, None).is_ok());
    assert!(matches!(
        validate_claims(&claims, now + TOKEN_LIFETIME_SECS + 60, issuer, None),
        Err(GatewayError::TokenDecodeError(_))
    ));
}

#[test]
fn token_validation_checks_issuer_nbf_and_scopes() {
    let now: u64 = 1_700_000_000;
    let claims = build_claims(
        &"alice".to_string(),
        &"7".to_string(),
        vec!["billing::writer".to_string()],
        now,
    );
    let issuer = gateway_jwt_issuer();
    assert!(matches!(
        validate_claims(&claims, now, "someone.else", None),
        Err(GatewayError::TokenDecodeError(_))
    ));
    assert!(matches!(
        validate_claims(&claims, now - 1, issuer, None),
        Err(GatewayError::TokenDecodeError(_))
    ));
    let scopes = vec!["Gateway::Admin".to_string(), "billing::writer".to_string()];
    assert!(validate_claims(&claims, now, issuer, Some(&scopes)).is_ok());
    let wrong = vec!["Gateway::Admin".to_string()];
    assert!(matches!(
        validate_claims(&claims, now, issuer, Some(&wrong)),
        Err(GatewayError::TokenDecodeError(_))
    ));
}

#[test]
fn prefix_validation_protects_namespace_scoped_endpoints() {
    let now: u64 = 1_700_000_000;
    let claims = build_claims(
        &"alice".to_string(),
        &"7".to_string(),
        vec!["Gateway::BasicMember".to_string()],
        now,
    );
    let issuer = gateway_jwt_issuer();
    let prefixes = vec!["Gateway".to_string()];
    assert!(validate_claims_prefix(&claims, now, issuer, &prefixes).is_ok());
    let other = vec!["billing".to_string()];
    assert!(matches!(
        validate_claims_prefix(&claims, now, issuer, &other),
        Err(GatewayError::TokenDecodeError(_))
    ));
}

#[test]
fn roles_become_qualified_audience_strings() {
    let mut store = GatewayStore::new();
    let r1 = store.add_role(&web_role("billing", "writer")).unwrap();
    let r2 = store.add_role(&web_role("orders", "admin")).unwrap();
    let aud = roles_to_audience(&vec![r1, r2]);
    assert_eq!(aud, vec!["billing::writer".to_string(), "orders::admin".to_string()]);
}

#[test]
fn role_creation_is_unique_per_namespace_and_name() {
    let mut store = GatewayStore::new();
    let r = store.add_role(&web_role("billing", "writer")).unwrap();
    assert_eq!(r.namespace, "billing");
    assert_eq!(r.name, "writer");
    assert!(matches!(
        store.add_role(&web_role("billing", "writer")),
        Err(GatewayError::DatabaseError(_))
    ));
    let found = store.find_role(&"billing".to_string(), &"writer".to_string()).unwrap();
    assert_eq!(found.id, r.id);
    assert!(matches!(
        store.find_role(&"billing".to_string(), &"reader".to_string()),
        Err(GatewayError::NotFound(_, _))
    ));
    assert_eq!(store.list_roles().len(), 1);
}

#[test]
fn namespace_query_returns_roles_of_listed_namespaces() {
    let mut store = GatewayStore::new();
    store.add_role(&web_role("billing", "writer")).unwrap();
    store.add_role(&web_role("orders", "admin")).unwrap();
    let found = store.get_namespaces(&vec!["billing".to_string()]).unwrap();
    assert_eq!(found.len(), 1);
    assert_eq!(found[0].namespace, "billing");
    assert!(matches!(
        store.get_namespaces(&vec!["none".to_string()]),
        Err(GatewayError::NotFound(_, _))
    ));
}

#[test]
fn rename_role_keeps_identity_and_respects_uniqueness() {
    let mut store = GatewayStore::new();
    let r = store.add_role(&web_role("billing", "writer")).unwrap();
    let other = store.add_role(&web_role("billing", "reader")).unwrap();
    let web_id = api_gateway::text::format_u64(r.id);
    let renamed = store.rename_role(&web_id, &web_role("billing", "auditor")).unwrap();
    assert_eq!(renamed.id, r.id);
    assert_eq!(renamed.name, "auditor");
    // Renaming onto another role's name fails the uniqueness index.
    assert!(matches!(
        store.rename_role(&web_id, &web_role("billing", "reader")),
        Err(GatewayError::DatabaseError(_))
    ));
    let _ = other;
}

#[test]
fn registered_user_gets_roles_and_a_reset_request() {
    let now: u64 = 1_700_000_000;
    let mut store = GatewayStore::new();
    let r1 = store.add_role(&web_role("billing", "writer")).unwrap();
    let user = store
        .register_user(
            &DbGatewayUserRequest { username: "alice".to_string() },
            &vec![r1.clone()],
            now,
        )
        .unwrap();
    assert_eq!(user.username, "alice");
    assert_eq!(user.roles.len(), 1);
    let granted = store.user_roles(user.id);
    assert_eq!(granted.len(), 1);
    assert_eq!(granted[0].id, r1.id);
    // Duplicate usernames fail the uniqueness index.
    assert!(matches!(
        store.register_user(
            &DbGatewayUserRequest { username: "alice".to_string() },
            &vec![],
            now
        ),
        Err(GatewayError::DatabaseError(_))
    ));
}

#[test]
fn authentication_is_one_undifferentiated_error() {
    let now: u64 = 1_700_000_000;
    let mut store = GatewayStore::new();
    let user = store
        .register_user(&DbGatewayUserRequest { username: "alice".to_string() }, &vec![], now)
        .unwrap();
    // No password hash stored yet: even a positive compare fails.
    assert!(matches!(
        store.authenticate_user(&"alice".to_string(), true),
        Err(GatewayError::InvalidUsernameOrPassword(_))
    ));
    store.set_user_password(user.id, &"$hash$".to_string(), now).unwrap();
    assert!(store.authenticate_user(&"alice".to_string(), true).is_ok());
    assert!(matches!(
        store.authenticate_user(&"alice".to_string(), false),
        Err(GatewayError::InvalidUsernameOrPassword(_))
    ));
    assert!(matches!(
        store.authenticate_user(&"nobody".to_string(), true),
        Err(GatewayError::InvalidUsernameOrPassword(_))
    ));
    store.set_last_login(user.id, now + 5).unwrap();
    let rec = store.user_by_username(&"alice".to_string()).unwrap();
    assert_eq!(rec.last_login, Some(now + 5));
}

#[test]
fn reset_redemption_rejects_spent_and_mismatched_requests() {
    let now: u64 = 1_700_000_000;
    let mut store = GatewayStore::new();
    store
        .register_user(&DbGatewayUserRequest { username: "alice".to_string() }, &vec![], now)
        .unwrap();
    store
        .register_user(&DbGatewayUserRequest { username: "mallory".to_string() }, &vec![], now)
        .unwrap();
    let req = store.request_password_reset(&"alice".to_string(), now).unwrap();
    let token = api_gateway::text::format_u64(req.id);
    // The claimed username must match the user the request names,
    // even while the token itself is otherwise valid.
    assert!(matches!(
        store.set_user_password_with_reset_token(
            &token,
            &"mallory".to_string(),
            &"$h$".to_string(),
            now + 10
        ),
        Err(GatewayError::BadRequest(_))
    ));
    // A proper redemption applies all three effects.
    store
        .set_user_password_with_reset_token(&token, &"alice".to_string(), &"$h$".to_string(), now + 10)
        .unwrap();
    let rec = store.user_by_username(&"alice".to_string()).unwrap();
    assert_eq!(rec.password_hash, Some("$h$".to_string()));
    assert_eq!(rec.password_reset_at, Some(now + 10));
    // A request with used=true always fails, though it expires far in
    // the future.
    assert!(matches!(
        store.set_user_password_with_reset_token(
            &token,
            &"alice".to_string(),
            &"$h2$".to_string(),
            now + 20
        ),
        Err(GatewayError::BadRequest(_))
    ));
}

#[test]
fn reset_redemption_rejects_expired_and_unknown_requests() {
    let now: u64 = 1_700_000_000;
    let mut store = GatewayStore::new();
    store
        .register_user(&DbGatewayUserRequest { username: "alice".to_string() }, &vec![], now)
        .unwrap();
    let req = store.request_password_reset(&"alice".to_string(), now).unwrap();
    let token = api_gateway::text::format_u64(req.id);
    let too_late = req.expires_at + 1;
    assert!(matches!(
        store.set_user_password_with_reset_token(
            &token,
            &"alice".to_string(),
            &"$h$".to_string(),
            too_late
        ),
        Err(GatewayError::BadRequest(_))
    ));
    assert!(matches!(
        store.set_user_password_with_reset_token(
            &"9999".to_string(),
            &"alice".to_string(),
            &"$h$".to_string(),
            now
        ),
        Err(GatewayError::BadRequest(_))
    ));
    // Requesting a reset for an unknown user is a storage-level
    // not-found; the web layer hides it.
    assert!(matches!(
        store.request_password_reset(&"nobody".to_string(), now),
        Err(GatewayError::NotFound(_, _))
    ));
}

#[test]
fn surface_error_enums_carry_their_status_codes() {
    assert_eq!(AuthError::InvalidUsernameOrPassword(String::new()).status_code(), 403);
    assert_eq!(AuthError::TokenDecodeError(String::new()).status_code(), 500);
    assert_eq!(ApiServiceError::ServiceNotFound(String::new()).status_code(), 404);
    assert_eq!(ApiServiceError::MissingData(String::new()).status_code(), 400);
    assert_eq!(UserError::UserNotFound(String::new()).status_code(), 404);
    assert_eq!(UserError::DatabaseError(String::new()).status_code(), 500);
}
