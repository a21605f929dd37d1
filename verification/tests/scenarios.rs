use api_gateway::api_services::{DbApiServiceRequest, WebApiRole, WebRequestPartialApiService};
use api_gateway::auth::{build_claims, roles_to_audience};
use api_gateway::authz::check_aud_authorized;
use api_gateway::errors::GatewayError;
use api_gateway::forwarder::{forward_decision, ForwardOutcome};
use api_gateway::store::GatewayStore;
use api_gateway::text::format_u64;
use api_gateway::users::DbGatewayUserRequest;

fn web_role(ns: &str, name: &str) -> WebApiRole {
    WebApiRole {
        id: None,
        namespace: ns.to_string(),
        name: name.to_string(),
    }
}

fn service_request(name: &str, version: &str, url: &str) -> DbApiServiceRequest {
    DbApiServiceRequest {
        api_name: name.to_string(),
        forward_url: url.to_string(),
        active: true,
        version: version.to_string(),
        environment: "dev".to_string(),
    }
}

fn empty_partial() -> WebRequestPartialApiService {
    WebRequestPartialApiService {
        api_name: None,
        forward_url: None,
        active: None,
        version: None,
        role_namespaces: None,
        roles: None,
        environment: None,
    }
}

#[test]
fn service_lookup_finds_only_active_services() {
    let mut store = GatewayStore::new();
    let r = store.add_role(&web_role("billing", "writer")).unwrap();
    let svc = store
        .add_service(&service_request("orders", "v1", "http://backend:9000"), &vec![r.clone()])
        .unwrap();
    let found = store
        .get_service_with_roles(&"orders".to_string(), &"v1".to_string())
        .unwrap();
    assert_eq!(found.id, svc.id);
    assert_eq!(found.roles.len(), 1);
    assert_eq!(found.roles[0].id, r.id);
    assert!(matches!(
        store.get_service_with_roles(&"orders".to_string(), &"v2".to_string()),
        Err(GatewayError::NotFound(_, _))
    ));
    // An inactive service is the same not-found condition.
    let mut partial = empty_partial();
    partial.active = Some(false);
    store.update_service(&format_u64(svc.id), &partial).unwrap();
    assert!(matches!(
        store.get_service_with_roles(&"orders".to_string(), &"v1".to_string()),
        Err(GatewayError::NotFound(_, _))
    ));
}

#[test]
fn duplicate_service_registration_fails_the_uniqueness_index() {
    let mut store = GatewayStore::new();
    store
        .add_service(&service_request("orders", "v1", "http://a"), &vec![])
        .unwrap();
    assert!(matches!(
        store.add_service(&service_request("orders", "v1", "http://b"), &vec![]),
        Err(GatewayError::DatabaseError(_))
    ));
    // Same name, other version is fine.
    assert!(store
        .add_service(&service_request("orders", "v2", "http://b"), &vec![])
        .is_ok());
}

#[test]
fn reconcile_round_trip_yields_exactly_the_desired_set() {
    let mut store = GatewayStore::new();
    let r1 = store.add_role(&web_role("billing", "writer")).unwrap();
    let r2 = store.add_role(&web_role("billing", "reader")).unwrap();
    let r3 = store.add_role(&web_role("orders", "admin")).unwrap();
    let svc = store
        .add_service(&service_request("orders", "v1", "http://a"), &vec![r1.clone()])
        .unwrap();
    store.reconcile_service_roles(svc.id, &vec![r2.id, r3.id]).unwrap();
    let mut read: Vec<u64> = store.roles_for_service(svc.id).iter().map(|r| r.id).collect();
    read.sort();
    let mut want = vec![r2.id, r3.id];
    want.sort();
    assert_eq!(read, want);
    // The order the desired roles are listed in does not matter.
    store.reconcile_service_roles(svc.id, &vec![r3.id, r2.id]).unwrap();
    let mut read2: Vec<u64> = store.roles_for_service(svc.id).iter().map(|r| r.id).collect();
    read2.sort();
    assert_eq!(read2, want);
}

#[test]
fn reconcile_twice_causes_no_edge_churn() {
    let mut store = GatewayStore::new();
    let r1 = store.add_role(&web_role("billing", "writer")).unwrap();
    let r2 = store.add_role(&web_role("billing", "reader")).unwrap();
    let svc = store
        .add_service(&service_request("orders", "v1", "http://a"), &vec![r1.clone()])
        .unwrap();
    store.reconcile_service_roles(svc.id, &vec![r1.id, r2.id]).unwrap();
    let edges_after_first = store.authorizations.clone();
    store.reconcile_service_roles(svc.id, &vec![r2.id, r1.id]).unwrap();
    // The second run found the edge set already in the desired state
    // and left the list untouched, element for element.
    assert_eq!(store.authorizations, edges_after_first);
}

#[test]
fn forwarding_scenario_exact_role() {
    // Register service ("orders","v1","http://backend:9000") with the
    // role {billing, writer}; a caller whose membership resolved to
    // audience ["billing::writer"] reaches the backend at /items.
    let now: u64 = 1_700_000_000;
    let mut store = GatewayStore::new();
    let r = store.add_role(&web_role("billing", "writer")).unwrap();
    store
        .add_service(&service_request("orders", "v1", "http://backend:9000"), &vec![r.clone()])
        .unwrap();
    let user = store
        .register_user(
            &DbGatewayUserRequest { username: "alice".to_string() },
            &vec![r.clone()],
            now,
        )
        .unwrap();
    let aud = roles_to_audience(&store.user_roles(user.id));
    assert_eq!(aud, vec!["billing::writer".to_string()]);
    let claims = build_claims(&user.username, &format_u64(user.id), aud, now);
    match forward_decision(&store, "/orders/v1/items", &claims.aud) {
        ForwardOutcome::Proxy(url) => assert_eq!(url, "http://backend:9000/items"),
        _ => panic!("expected the request to be proxied"),
    }
    // Resolution failures and denials short-circuit.
    assert!(matches!(
        forward_decision(&store, "/orders/v1", &claims.aud),
        ForwardOutcome::BadRequest
    ));
    assert!(matches!(
        forward_decision(&store, "/nothing/v1/items", &claims.aud),
        ForwardOutcome::NotFound
    ));
    assert!(matches!(
        forward_decision(&store, "/orders/v1/items", &vec!["orders::reader".to_string()]),
        ForwardOutcome::Forbidden
    ));
}

#[test]
fn forwarding_scenario_namespace_membership() {
    // The service carries a namespace-member role for "billing"; a
    // caller holding blanket membership of that namespace in its
    // audience is authorized without the concrete role.
    let mut store = GatewayStore::new();
    let mut partial = empty_partial();
    partial.role_namespaces = Some(vec!["billing".to_string()]);
    let svc = store
        .add_service(&service_request("orders", "v1", "http://backend:9000"), &vec![])
        .unwrap();
    store.update_service(&format_u64(svc.id), &partial).unwrap();
    let aud = vec![format!("billing::{}", api_gateway::api_services::namespace_member_role())];
    match forward_decision(&store, "/orders/v1/items", &aud) {
        ForwardOutcome::Proxy(url) => assert_eq!(url, "http://backend:9000/items"),
        _ => panic!("expected the request to be proxied"),
    }
    // Any audience entry inside the namespace works too.
    let roles = store.roles_for_service(svc.id);
    assert!(check_aud_authorized(&roles, &vec!["billing::writer".to_string()]));
    // Entries outside the namespace do not.
    assert!(!check_aud_authorized(&roles, &vec!["orders::writer".to_string()]));
}

#[test]
fn patching_roles_swaps_authorization() {
    // PATCH a service's roles from {billing, writer} to
    // {billing, reader}: the old audience now fails, the new one
    // succeeds.
    let mut store = GatewayStore::new();
    let writer = store.add_role(&web_role("billing", "writer")).unwrap();
    let svc = store
        .add_service(&service_request("orders", "v1", "http://backend:9000"), &vec![writer])
        .unwrap();
    let mut partial = empty_partial();
    partial.roles = Some(vec![web_role("billing", "reader")]);
    store.update_service(&format_u64(svc.id), &partial).unwrap();
    let roles = store.roles_for_service(svc.id);
    assert!(!check_aud_authorized(&roles, &vec!["billing::writer".to_string()]));
    assert!(check_aud_authorized(&roles, &vec!["billing::reader".to_string()]));
}

#[test]
fn update_service_patches_scalar_fields() {
    let mut store = GatewayStore::new();
    let svc = store
        .add_service(&service_request("orders", "v1", "http://a"), &vec![])
        .unwrap();
    let mut partial = empty_partial();
    partial.forward_url = Some("http://b".to_string());
    partial.environment = Some("prod".to_string());
    let updated = store.update_service(&format_u64(svc.id), &partial).unwrap();
    assert_eq!(updated.forward_url, "http://b");
    assert_eq!(updated.environment, "prod");
    assert_eq!(updated.api_name, "orders");
    let web = updated.to_web_response();
    assert_eq!(web.id, format_u64(svc.id));
    assert_eq!(web.forward_url, "http://b");
}

#[test]
fn deleting_a_service_removes_its_edges() {
    let mut store = GatewayStore::new();
    let r = store.add_role(&web_role("billing", "writer")).unwrap();
    let svc = store
        .add_service(&service_request("orders", "v1", "http://a"), &vec![r])
        .unwrap();
    store.delete_service(&format_u64(svc.id)).unwrap();
    assert!(store.roles_for_service(svc.id).is_empty());
    assert!(matches!(
        store.get_service_with_roles(&"orders".to_string(), &"v1".to_string()),
        Err(GatewayError::NotFound(_, _))
    ));
    assert!(matches!(
        store.delete_service(&format_u64(svc.id)),
        Err(GatewayError::DatabaseError(_))
    ));
}

#[test]
fn deleting_a_role_removes_its_authorizations() {
    let mut store = GatewayStore::new();
    let r = store.add_role(&web_role("billing", "writer")).unwrap();
    let svc = store
        .add_service(&service_request("orders", "v1", "http://a"), &vec![r.clone()])
        .unwrap();
    store.delete_role(&format_u64(r.id)).unwrap();
    assert!(store.roles_for_service(svc.id).is_empty());
    assert!(store.list_roles().is_empty());
}

#[test]
fn update_user_reconciles_memberships_and_username() {
    let now: u64 = 1_700_000_000;
    let mut store = GatewayStore::new();
    let r1 = store.add_role(&web_role("billing", "writer")).unwrap();
    let r2 = store.add_role(&web_role("billing", "reader")).unwrap();
    let user = store
        .register_user(
            &DbGatewayUserRequest { username: "alice".to_string() },
            &vec![r1.clone()],
            now,
        )
        .unwrap();
    let update = api_gateway::users::DbPartialGatewayUserUpdate {
        username: Some("alicia".to_string()),
    };
    let resp = store
        .update_user(
            &format_u64(user.id),
            &update,
            Some(&vec![web_role("billing", "reader")]),
            now + 5,
        )
        .unwrap();
    assert_eq!(resp.username, "alicia");
    assert_eq!(resp.last_modified_date, now + 5);
    let roles = store.user_roles(user.id);
    assert_eq!(roles.len(), 1);
    assert_eq!(roles[0].id, r2.id);
    // A partial update without a role list leaves the memberships as
    // they are.
    let none_update = api_gateway::users::DbPartialGatewayUserUpdate { username: None };
    let resp2 = store.update_user(&format_u64(user.id), &none_update, None, now + 6).unwrap();
    assert_eq!(resp2.roles.len(), 1);
    assert_eq!(resp2.roles[0].id, r2.id);
    assert_eq!(store.user_roles(user.id).len(), 1);
    let _ = r1;
}

#[test]
fn update_user_creates_named_roles_when_absent() {
    // A role reference by (namespace, name) that no stored role
    // carries is created first, as on the service side.
    let now: u64 = 1_700_000_000;
    let mut store = GatewayStore::new();
    let user = store
        .register_user(&DbGatewayUserRequest { username: "alice".to_string() }, &vec![], now)
        .unwrap();
    let none_update = api_gateway::users::DbPartialGatewayUserUpdate { username: None };
    let resp = store
        .update_user(
            &format_u64(user.id),
            &none_update,
            Some(&vec![web_role("billing", "auditor")]),
            now + 1,
        )
        .unwrap();
    assert_eq!(resp.roles.len(), 1);
    assert_eq!(resp.roles[0].namespace, "billing");
    assert_eq!(resp.roles[0].name, "auditor");
    assert!(store.find_role(&"billing".to_string(), &"auditor".to_string()).is_ok());
    assert_eq!(store.user_roles(user.id).len(), 1);
}

#[test]
fn scalar_patch_leaves_authorization_edges_alone() {
    // A service patch carrying neither a role list nor a namespace
    // list reconciles nothing: the edges stay as they are.
    let mut store = GatewayStore::new();
    let r = store.add_role(&web_role("billing", "writer")).unwrap();
    let svc = store
        .add_service(&service_request("orders", "v1", "http://a"), &vec![r.clone()])
        .unwrap();
    let mut partial = empty_partial();
    partial.environment = Some("prod".to_string());
    let updated = store.update_service(&format_u64(svc.id), &partial).unwrap();
    assert_eq!(updated.environment, "prod");
    assert_eq!(updated.roles.len(), 1);
    assert_eq!(updated.roles[0].id, r.id);
    let roles = store.roles_for_service(svc.id);
    assert_eq!(roles.len(), 1);
    assert_eq!(roles[0].id, r.id);
}

#[test]
fn unknown_identities_are_rejected() {
    let mut store = GatewayStore::new();
    assert!(matches!(
        store.update_service(&"42".to_string(), &empty_partial()),
        Err(GatewayError::NotFound(_, _))
    ));
    assert!(matches!(
        store.user_detail(&"42".to_string()),
        Err(GatewayError::NotFound(_, _))
    ));
    let r = store.add_role(&web_role("billing", "writer")).unwrap();
    // A service registration naming a role id the store does not hold
    // is rejected before anything is written.
    let ghost_role = api_gateway::api_services::DbApiRole {
        id: r.id + 100,
        namespace: "billing".to_string(),
        name: "reader".to_string(),
    };
    assert!(matches!(
        store.add_service(&service_request("orders", "v1", "http://a"), &vec![ghost_role]),
        Err(GatewayError::NotFound(_, _))
    ));
    assert!(store.list_services().is_empty());
}

#[test]
fn renaming_a_role_renames_its_grants() {
    // Renaming keeps the record identity, so no edges change; the
    // qualified string callers must present changes with it.
    let mut store = GatewayStore::new();
    let r = store.add_role(&web_role("billing", "writer")).unwrap();
    let svc = store
        .add_service(&service_request("orders", "v1", "http://a"), &vec![r.clone()])
        .unwrap();
    store
        .rename_role(&format_u64(r.id), &web_role("billing", "auditor"))
        .unwrap();
    let roles = store.roles_for_service(svc.id);
    assert!(!check_aud_authorized(&roles, &vec!["billing::writer".to_string()]));
    assert!(check_aud_authorized(&roles, &vec!["billing::auditor".to_string()]));
}

#[test]
fn listings_cover_every_record() {
    let now: u64 = 1_700_000_000;
    let mut store = GatewayStore::new();
    store
        .add_service(&service_request("orders", "v1", "http://a"), &vec![])
        .unwrap();
    store
        .add_service(&service_request("billing", "v2", "http://b"), &vec![])
        .unwrap();
    store
        .register_user(&DbGatewayUserRequest { username: "alice".to_string() }, &vec![], now)
        .unwrap();
    assert_eq!(store.list_services().len(), 2);
    assert_eq!(store.list_users().len(), 1);
    let detail = store.user_detail(&format_u64(store.list_users()[0].id)).unwrap();
    assert_eq!(detail.username, "alice");
}
