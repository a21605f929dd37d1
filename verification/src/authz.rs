//! The role-based authorization engine.
//!
//! A caller is authorized for a service exactly when its claim
//! audience contains some authorized role's qualified string, or when
//! the service carries a namespace-member role whose `namespace::`
//! prefix starts some audience entry.

use vstd::prelude::*;

verus! {

use crate::api_services::{member_role_name, role_qualified, role_views, string_views, DbApiRole,
    RoleView};
use crate::text::{is_prefix_of, ns_prefix, qualified_ns_prefix, str_eq, str_starts_with};

/// Some audience entry is exactly a qualified role of the service.
pub open spec fn exact_match(roles: Seq<RoleView>, aud: Seq<Seq<char>>) -> bool {
    exists|i: int, j: int|
        0 <= i < roles.len() && 0 <= j < aud.len() && aud[j] == role_qualified(roles[i])
}

/// Some audience entry lies in the namespace of a namespace-member
/// role of the service.
pub open spec fn wildcard_match(roles: Seq<RoleView>, aud: Seq<Seq<char>>) -> bool {
    exists|i: int, j: int|
        0 <= i < roles.len() && 0 <= j < aud.len() && roles[i].name == member_role_name()
            && is_prefix_of(ns_prefix(roles[i].namespace), aud[j])
}

/// The authorization relation: an exact role match, or a namespace
/// wildcard match.  Nothing else authorizes a call.
pub open spec fn authorized(roles: Seq<RoleView>, aud: Seq<Seq<char>>) -> bool {
    exact_match(roles, aud) || wildcard_match(roles, aud)
}

/// Decides whether a claim audience authorizes access to a service
/// with the given authorized-role set.
pub fn check_aud_authorized(service_roles: &Vec<DbApiRole>, claims_aud: &Vec<String>) -> (r: bool)
    ensures
        r == authorized(role_views(service_roles@), string_views(claims_aud@)),
{
    let ghost roles = role_views(service_roles@);
    let ghost aud = string_views(claims_aud@);
    let mut i: usize = 0;
    while i < service_roles.len()
        invariant
            i <= roles.len(),
            roles == role_views(service_roles@),
            aud == string_views(claims_aud@),
            forall|i2: int, j2: int|
                0 <= i2 < i && 0 <= j2 < aud.len() ==> aud[j2] != role_qualified(roles[i2]),
        decreases roles.len() - i,
    {
        let role = &service_roles[i];
        let q = role.qualified_string();
        let mut j: usize = 0;
        while j < claims_aud.len()
            invariant
                j <= aud.len(),
                aud == string_views(claims_aud@),
                q@ == role_qualified(roles[i as int]),
                i < roles.len(),
                roles == role_views(service_roles@),
                forall|j2: int| 0 <= j2 < j ==> aud[j2] != role_qualified(roles[i as int]),
            decreases aud.len() - j,
        {
            if str_eq(claims_aud[j].as_str(), q.as_str()) {
                proof {
                    assert(aud[j as int] == role_qualified(roles[i as int]));
                    assert(exact_match(roles, aud));
                }
                return true;
            }
            j = j + 1;
        }
        i = i + 1;
    }
    proof {
        assert(!exact_match(roles, aud));
    }
    let sentinel = crate::api_services::namespace_member_role();
    let mut i: usize = 0;
    while i < service_roles.len()
        invariant
            i <= roles.len(),
            roles == role_views(service_roles@),
            aud == string_views(claims_aud@),
            sentinel@ == member_role_name(),
            !exact_match(roles, aud),
            forall|i2: int, j2: int|
                0 <= i2 < i && 0 <= j2 < aud.len() ==> !(roles[i2].name == member_role_name()
                    && is_prefix_of(ns_prefix(roles[i2].namespace), aud[j2])),
        decreases roles.len() - i,
    {
        let role = &service_roles[i];
        if str_eq(role.name.as_str(), sentinel) {
            let prefix = qualified_ns_prefix(role.namespace.as_str());
            let mut j: usize = 0;
            while j < claims_aud.len()
                invariant
                    j <= aud.len(),
                    aud == string_views(claims_aud@),
                    i < roles.len(),
                    roles == role_views(service_roles@),
                    roles[i as int].name == member_role_name(),
                    prefix@ == ns_prefix(roles[i as int].namespace),
                    forall|j2: int|
                        0 <= j2 < j ==> !is_prefix_of(ns_prefix(roles[i as int].namespace), aud[j2]),
                decreases aud.len() - j,
            {
                if str_starts_with(claims_aud[j].as_str(), prefix.as_str()) {
                    proof {
                        assert(roles[i as int].name == member_role_name() && is_prefix_of(
                            ns_prefix(roles[i as int].namespace),
                            aud[j as int],
                        ));
                        assert(wildcard_match(roles, aud));
                    }
                    return true;
                }
                j = j + 1;
            }
        }
        i = i + 1;
    }
    proof {
        assert(!wildcard_match(roles, aud));
    }
    false
}

} // verus!
