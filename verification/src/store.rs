//! The gateway's storage model: services, roles, users, the
//! authorization and membership edges between them, and password
//! reset requests.
//!
//! The store is the library's image of what the storage engine holds.
//! Its invariant carries exactly what the engine's unique indexes
//! enforced: distinct record identities, one role per
//! `(namespace, name)`, one service per `(api_name, version)`, one
//! user per username, and no duplicated edges; every edge points at
//! existing records.

use vstd::prelude::*;

verus! {

use crate::api_services::{partial_requested, role_views, string_views, web_role_views, DbApiRole,
    DbApiServiceRecord, DbApiServiceRequest, DbFullApiService, RoleView, ServiceView, WebApiRole,
    WebRequestPartialApiService, WebRoleView};
use crate::auth::{PasswordResetRequest, ResetView};
use crate::errors::GatewayError;
use crate::text::{digits_of, format_u64, str_eq};
use crate::users::{DbGatewayUserRecord, DbGatewayUserRequest, DbGatewayUserResponse,
    DbPartialGatewayUserUpdate, UserView};

/// A graph edge from a role to a target record (a service for
/// authorization edges, a user for membership edges).
#[derive(PartialEq, Eq, Structural, Clone, Copy, Debug)]
pub struct Edge {
    pub role_id: u64,
    pub target_id: u64,
}

/// The views of a sequence of stored services.
pub open spec fn service_views(s: Seq<DbApiServiceRecord>) -> Seq<ServiceView> {
    s.map_values(|x: DbApiServiceRecord| x@)
}

/// The views of a sequence of stored users.
pub open spec fn user_views(s: Seq<DbGatewayUserRecord>) -> Seq<UserView> {
    s.map_values(|x: DbGatewayUserRecord| x@)
}

/// The views of a sequence of reset requests.
pub open spec fn reset_views(s: Seq<PasswordResetRequest>) -> Seq<ResetView> {
    s.map_values(|x: PasswordResetRequest| x@)
}

/// Mathematical image of the whole store.
pub struct StoreView {
    pub services: Seq<ServiceView>,
    pub roles: Seq<RoleView>,
    pub authorizations: Seq<Edge>,
    pub memberships: Seq<Edge>,
    pub users: Seq<UserView>,
    pub reset_requests: Seq<ResetView>,
    pub next_id: u64,
}

/// The in-memory store backing the gateway core.
pub struct GatewayStore {
    pub services: Vec<DbApiServiceRecord>,
    pub roles: Vec<DbApiRole>,
    pub authorizations: Vec<Edge>,
    pub memberships: Vec<Edge>,
    pub users: Vec<DbGatewayUserRecord>,
    pub reset_requests: Vec<PasswordResetRequest>,
    pub next_id: u64,
}

impl View for GatewayStore {
    type V = StoreView;

    open spec fn view(&self) -> StoreView {
        StoreView {
            services: service_views(self.services@),
            roles: role_views(self.roles@),
            authorizations: self.authorizations@,
            memberships: self.memberships@,
            users: user_views(self.users@),
            reset_requests: reset_views(self.reset_requests@),
            next_id: self.next_id,
        }
    }
}

/// Some service carries this record id.
pub open spec fn has_service_id(s: Seq<ServiceView>, id: u64) -> bool {
    exists|i: int| 0 <= i < s.len() && s[i].id == id
}

/// Some role carries this record id.
pub open spec fn has_role_id(s: Seq<RoleView>, id: u64) -> bool {
    exists|i: int| 0 <= i < s.len() && s[i].id == id
}

/// Some user carries this record id.
pub open spec fn has_user_id(s: Seq<UserView>, id: u64) -> bool {
    exists|i: int| 0 <= i < s.len() && s[i].id == id
}

/// Some role carries this qualified name.
pub open spec fn has_role_named(s: Seq<RoleView>, ns: Seq<char>, name: Seq<char>) -> bool {
    exists|i: int| 0 <= i < s.len() && s[i].namespace == ns && s[i].name == name
}

/// Some service carries this name and version.
pub open spec fn has_service_named(s: Seq<ServiceView>, api_name: Seq<char>, version: Seq<char>) -> bool {
    exists|i: int| 0 <= i < s.len() && s[i].api_name == api_name && s[i].version == version
}

/// Some active service carries this name and version.
pub open spec fn has_active_service(s: Seq<ServiceView>, api_name: Seq<char>, version: Seq<char>) -> bool {
    exists|i: int|
        0 <= i < s.len() && s[i].api_name == api_name && s[i].version == version && s[i].active
}

/// Some user carries this username.
pub open spec fn has_username(s: Seq<UserView>, username: Seq<char>) -> bool {
    exists|i: int| 0 <= i < s.len() && s[i].username == username
}

/// The role ids of the edges pointing at `target`, in edge order.
pub open spec fn edge_role_ids(edges: Seq<Edge>, target: u64) -> Seq<u64> {
    edges.filter(|e: Edge| e.target_id == target).map_values(|e: Edge| e.role_id)
}

/// The record ids of a role sequence.
pub open spec fn role_ids(s: Seq<RoleView>) -> Seq<u64> {
    s.map_values(|v: RoleView| v.id)
}

/// A web role reference resolves to the stored role `rv` of `s`: a
/// reference carrying a rendered id names the stored role with that
/// id; a bare pair names the stored role with that namespace and
/// name.
pub open spec fn ref_resolves_to(s: StoreView, wr: WebRoleView, rv: RoleView) -> bool {
    s.roles.contains(rv) && match wr.id {
        Some(w) => w == digits_of(rv.id as nat),
        None => rv.namespace == wr.namespace && rv.name == wr.name,
    }
}

/// Every reference in `reqs` that carries a rendered id names a
/// stored role of `s`.  References by `(namespace, name)` need
/// nothing: an absent pair is created.
pub open spec fn id_refs_resolve(s: StoreView, reqs: Seq<WebRoleView>) -> bool {
    forall|k: int|
        0 <= k < reqs.len() ==> match (#[trigger] reqs[k]).id {
            Some(w) => exists|j: int|
                0 <= j < s.roles.len() && w == digits_of(#[trigger] s.roles[j].id as nat),
            None => true,
        }
}

/// No two edges are equal.
pub open spec fn edges_distinct(s: Seq<Edge>) -> bool {
    forall|i: int, j: int| 0 <= i < j < s.len() ==> s[i] != s[j]
}

impl StoreView {
    /// What the storage engine's schema enforced: distinct record
    /// ids below the allocation counter, the unique indexes, and
    /// edges whose endpoints exist.  (A membership edge may outlive
    /// its role, as role deletion does not touch memberships.)
    pub open spec fn wf(self) -> bool {
        &&& forall|i: int, j: int|
            0 <= i < j < self.services.len() ==> self.services[i].id != self.services[j].id
        &&& forall|i: int| 0 <= i < self.services.len() ==> self.services[i].id < self.next_id
        &&& forall|i: int, j: int|
            0 <= i < j < self.services.len() ==> !(self.services[i].api_name
                == self.services[j].api_name && self.services[i].version
                == self.services[j].version)
        &&& forall|i: int, j: int|
            0 <= i < j < self.roles.len() ==> self.roles[i].id != self.roles[j].id
        &&& forall|i: int| 0 <= i < self.roles.len() ==> self.roles[i].id < self.next_id
        &&& forall|i: int, j: int|
            0 <= i < j < self.roles.len() ==> !(self.roles[i].namespace
                == self.roles[j].namespace && self.roles[i].name == self.roles[j].name)
        &&& forall|i: int, j: int|
            0 <= i < j < self.users.len() ==> self.users[i].id != self.users[j].id
        &&& forall|i: int| 0 <= i < self.users.len() ==> self.users[i].id < self.next_id
        &&& forall|i: int, j: int|
            0 <= i < j < self.users.len() ==> self.users[i].username != self.users[j].username
        &&& forall|i: int, j: int|
            0 <= i < j < self.reset_requests.len() ==> self.reset_requests[i].id
                != self.reset_requests[j].id
        &&& forall|i: int|
            0 <= i < self.reset_requests.len() ==> self.reset_requests[i].id < self.next_id
        &&& edges_distinct(self.authorizations)
        &&& forall|i: int|
            0 <= i < self.authorizations.len() ==> has_role_id(
                self.roles,
                #[trigger] self.authorizations[i].role_id,
            ) && has_service_id(self.services, self.authorizations[i].target_id)
        &&& edges_distinct(self.memberships)
        &&& forall|i: int|
            0 <= i < self.memberships.len() ==> has_user_id(
                self.users,
                #[trigger] self.memberships[i].target_id,
            )
    }
}

/// The edges that survive reconciliation towards `desired`: every
/// edge at another target, and the edges at `target` whose role is
/// still desired.
pub open spec fn kept_edges(s: Seq<Edge>, target: u64, desired: Seq<u64>) -> Seq<Edge> {
    s.filter(|e: Edge| e.target_id != target || desired.contains(e.role_id))
}

/// How one more edge extends the role ids seen at a target.
proof fn lemma_edge_roles_push(s: Seq<Edge>, e: Edge, t: u64)
    ensures
        edge_role_ids(s.push(e), t) == if e.target_id == t {
            edge_role_ids(s, t).push(e.role_id)
        } else {
            edge_role_ids(s, t)
        },
{
    reveal(Seq::filter);
    assert(s.push(e).drop_last() =~= s);
    assert(s.push(e).last() == e);
    if e.target_id == t {
        assert(s.push(e).filter(|x: Edge| x.target_id == t) =~= s.filter(
            |x: Edge| x.target_id == t,
        ).push(e));
        assert(edge_role_ids(s.push(e), t) =~= edge_role_ids(s, t).push(e.role_id));
    } else {
        assert(s.push(e).filter(|x: Edge| x.target_id == t) =~= s.filter(
            |x: Edge| x.target_id == t,
        ));
        assert(edge_role_ids(s.push(e), t) =~= edge_role_ids(s, t));
    }
}

/// How one more edge extends the kept list.
proof fn lemma_kept_push(s: Seq<Edge>, e: Edge, target: u64, desired: Seq<u64>)
    ensures
        kept_edges(s.push(e), target, desired) == if e.target_id != target || desired.contains(
            e.role_id,
        ) {
            kept_edges(s, target, desired).push(e)
        } else {
            kept_edges(s, target, desired)
        },
{
    reveal(Seq::filter);
    assert(s.push(e).drop_last() =~= s);
    assert(s.push(e).last() == e);
    if e.target_id != target || desired.contains(e.role_id) {
        assert(kept_edges(s.push(e), target, desired) =~= kept_edges(s, target, desired).push(e));
    } else {
        assert(kept_edges(s.push(e), target, desired) =~= kept_edges(s, target, desired));
    }
}

/// A kept list holds exactly the edges that survive the filter.
proof fn lemma_kept_membership(s: Seq<Edge>, target: u64, desired: Seq<u64>)
    ensures
        forall|x: Edge| #[trigger]
            kept_edges(s, target, desired).contains(x) <==> s.contains(x) && (x.target_id != target
                || desired.contains(x.role_id)),
    decreases s.len(),
{
    if s.len() == 0 {
        reveal(Seq::filter);
        assert(kept_edges(s, target, desired) =~= Seq::<Edge>::empty());
        assert(forall|x: Edge| !s.contains(x));
        assert(forall|x: Edge| !kept_edges(s, target, desired).contains(x));
    } else {
        let s0 = s.drop_last();
        let e = s.last();
        lemma_kept_membership(s0, target, desired);
        assert(s =~= s0.push(e));
        lemma_kept_push(s0, e, target, desired);
        let f0 = kept_edges(s0, target, desired);
        assert forall|x: Edge| #[trigger]
            kept_edges(s, target, desired).contains(x) <==> s.contains(x) && (x.target_id != target
                || desired.contains(x.role_id)) by {
            assert(s.contains(x) <==> s0.contains(x) || x == e) by {
                if s.contains(x) {
                    let k = choose|k: int| 0 <= k < s.len() && s[k] == x;
                    if k < s0.len() {
                        assert(s0[k] == x);
                        assert(s0.contains(x));
                    }
                }
                if s0.contains(x) {
                    let k = choose|k: int| 0 <= k < s0.len() && s0[k] == x;
                    assert(s[k] == x);
                }
                if x == e {
                    assert(s[s.len() - 1] == x);
                }
            }
            if e.target_id != target || desired.contains(e.role_id) {
                assert(kept_edges(s, target, desired) == f0.push(e));
                assert(f0.push(e).contains(x) <==> f0.contains(x) || x == e) by {
                    if f0.push(e).contains(x) {
                        let k = choose|k: int| 0 <= k < f0.push(e).len() && f0.push(e)[k] == x;
                        if k < f0.len() {
                            assert(f0[k] == x);
                            assert(f0.contains(x));
                        }
                    }
                    if f0.contains(x) {
                        let k = choose|k: int| 0 <= k < f0.len() && f0[k] == x;
                        assert(f0.push(e)[k] == x);
                    }
                    if x == e {
                        assert(f0.push(e)[f0.len() as int] == x);
                    }
                }
            } else {
                assert(kept_edges(s, target, desired) == f0);
            }
        }
    }
}

/// Reconciliation keeps a duplicate-free edge list duplicate-free.
proof fn lemma_kept_distinct(s: Seq<Edge>, target: u64, desired: Seq<u64>)
    requires
        edges_distinct(s),
    ensures
        edges_distinct(kept_edges(s, target, desired)),
    decreases s.len(),
{
    if s.len() == 0 {
        reveal(Seq::filter);
        assert(kept_edges(s, target, desired) =~= Seq::<Edge>::empty());
    } else {
        let s0 = s.drop_last();
        let e = s.last();
        assert(edges_distinct(s0)) by {
            assert(forall|i: int| 0 <= i < s0.len() ==> s0[i] == s[i]);
        }
        lemma_kept_distinct(s0, target, desired);
        lemma_kept_membership(s0, target, desired);
        assert(s =~= s0.push(e));
        lemma_kept_push(s0, e, target, desired);
        let f0 = kept_edges(s0, target, desired);
        if e.target_id != target || desired.contains(e.role_id) {
            assert(kept_edges(s, target, desired) == f0.push(e));
            assert(!s0.contains(e)) by {
                if s0.contains(e) {
                    let k = choose|k: int| 0 <= k < s0.len() && s0[k] == e;
                    assert(s[k] == s[s.len() - 1]);
                }
            }
            assert(!f0.contains(e));
            assert forall|i: int, j: int| 0 <= i < j < f0.push(e).len() implies f0.push(e)[i]
                != f0.push(e)[j] by {
                if j < f0.len() {
                    assert(f0[i] != f0[j]);
                } else {
                    assert(f0.push(e)[j] == e);
                    assert(f0[i] == f0.push(e)[i]);
                    assert(f0.contains(f0[i]));
                }
            }
        }
    }
}

/// Reconciliation leaves every other target's role ids untouched.
proof fn lemma_kept_other(s: Seq<Edge>, target: u64, desired: Seq<u64>, t: u64)
    requires
        t != target,
    ensures
        edge_role_ids(kept_edges(s, target, desired), t) == edge_role_ids(s, t),
    decreases s.len(),
{
    reveal(Seq::filter);
    if s.len() == 0 {
        assert(kept_edges(s, target, desired) =~= s);
    } else {
        let s0 = s.drop_last();
        let e = s.last();
        lemma_kept_other(s0, target, desired, t);
        assert(s =~= s0.push(e));
        lemma_kept_push(s0, e, target, desired);
        lemma_edge_roles_push(s0, e, t);
        if e.target_id != target || desired.contains(e.role_id) {
            lemma_edge_roles_push(kept_edges(s0, target, desired), e, t);
        } else {
            assert(e.target_id == target);
        }
    }
}

/// A role id occurs at a target exactly when the corresponding edge
/// is in the list.
proof fn lemma_edge_roles_contains(s: Seq<Edge>, t: u64, rid: u64)
    ensures
        edge_role_ids(s, t).contains(rid) <==> s.contains(Edge { role_id: rid, target_id: t }),
    decreases s.len(),
{
    reveal(Seq::filter);
    if s.len() == 0 {
        assert(s.filter(|e: Edge| e.target_id == t) =~= Seq::<Edge>::empty());
        assert(edge_role_ids(s, t) =~= Seq::<u64>::empty());
    } else {
        let s0 = s.drop_last();
        let e = s.last();
        lemma_edge_roles_contains(s0, t, rid);
        assert(s =~= s0.push(e));
        lemma_edge_roles_push(s0, e, t);
        let ids0 = edge_role_ids(s0, t);
        assert(s.contains(Edge { role_id: rid, target_id: t }) <==> s0.contains(
            Edge { role_id: rid, target_id: t },
        ) || e == Edge { role_id: rid, target_id: t }) by {
            if s.contains(Edge { role_id: rid, target_id: t }) {
                let k = choose|k: int|
                    0 <= k < s.len() && s[k] == Edge { role_id: rid, target_id: t };
                if k < s0.len() {
                    assert(s0[k] == Edge { role_id: rid, target_id: t });
                    assert(s0.contains(Edge { role_id: rid, target_id: t }));
                }
            }
            if s0.contains(Edge { role_id: rid, target_id: t }) {
                let k = choose|k: int|
                    0 <= k < s0.len() && s0[k] == Edge { role_id: rid, target_id: t };
                assert(s[k] == Edge { role_id: rid, target_id: t });
            }
            if e == (Edge { role_id: rid, target_id: t }) {
                assert(s[s.len() - 1] == e);
            }
        }
        if e.target_id == t {
            assert(edge_role_ids(s, t) == ids0.push(e.role_id));
            assert(ids0.push(e.role_id).contains(rid) <==> ids0.contains(rid) || rid
                == e.role_id) by {
                if ids0.push(e.role_id).contains(rid) {
                    let k = choose|k: int|
                        0 <= k < ids0.push(e.role_id).len() && ids0.push(e.role_id)[k] == rid;
                    if k < ids0.len() {
                        assert(ids0[k] == rid);
                        assert(ids0.contains(rid));
                    }
                }
                if ids0.contains(rid) {
                    let k = choose|k: int| 0 <= k < ids0.len() && ids0[k] == rid;
                    assert(ids0.push(e.role_id)[k] == rid);
                }
                if rid == e.role_id {
                    assert(ids0.push(e.role_id)[ids0.len() as int] == rid);
                }
            }
            assert((e == Edge { role_id: rid, target_id: t }) <==> rid == e.role_id);
        } else {
            assert(edge_role_ids(s, t) == ids0);
            assert(e != (Edge { role_id: rid, target_id: t }));
        }
    }
}

/// Whether a string list holds a value.
fn contains_string(v: &Vec<String>, s: &str) -> (r: bool)
    ensures
        r == string_views(v@).contains(s@),
{
    let ghost views = string_views(v@);
    let mut i: usize = 0;
    while i < v.len()
        invariant
            i <= v@.len(),
            views == string_views(v@),
            forall|k: int| 0 <= k < i ==> views[k] != s@,
        decreases v@.len() - i,
    {
        if str_eq(v[i].as_str(), s) {
            proof {
                assert(views[i as int] == s@);
                assert(views.contains(s@));
            }
            return true;
        }
        i = i + 1;
    }
    proof {
        assert forall|k: int| 0 <= k < views.len() implies views[k] != s@ by {}
    }
    false
}

/// Whether a vector holds a value.
fn contains_u64(v: &Vec<u64>, x: u64) -> (r: bool)
    ensures
        r == v@.contains(x),
{
    let mut i: usize = 0;
    while i < v.len()
        invariant
            i <= v@.len(),
            forall|k: int| 0 <= k < i ==> v@[k] != x,
        decreases v@.len() - i,
    {
        if v[i] == x {
            proof {
                assert(v@.contains(x));
            }
            return true;
        }
        i = i + 1;
    }
    false
}

/// Whether an edge list holds the given edge.
fn has_edge(v: &Vec<Edge>, role_id: u64, target_id: u64) -> (r: bool)
    ensures
        r == v@.contains(Edge { role_id, target_id }),
{
    let mut i: usize = 0;
    while i < v.len()
        invariant
            i <= v@.len(),
            forall|k: int| 0 <= k < i ==> v@[k] != (Edge { role_id, target_id }),
        decreases v@.len() - i,
    {
        if v[i].role_id == role_id && v[i].target_id == target_id {
            proof {
                assert(v@[i as int] == Edge { role_id, target_id });
                assert(v@.contains(Edge { role_id, target_id }));
            }
            return true;
        }
        i = i + 1;
    }
    false
}

/// Computes the edge list after moving `target`'s role set to exactly
/// `desired`: edges at `target` whose role is no longer desired are
/// dropped, missing desired edges are appended, and everything else
/// is left untouched.  A list already in the desired state comes back
/// unchanged, so re-running a reconciliation causes no churn.
fn reconcile_edge_list(edges: &Vec<Edge>, target: u64, desired: &Vec<u64>) -> (r: Vec<Edge>)
    ensures
        edges_distinct(edges@) ==> edges_distinct(r@),
        forall|k: int|
            0 <= k < r@.len() ==> edges@.contains(#[trigger] r@[k]) || (r@[k].target_id == target
                && desired@.contains(r@[k].role_id)),
        edge_role_ids(r@, target).to_set() == desired@.to_set(),
        forall|t: u64| t != target ==> edge_role_ids(r@, t) == edge_role_ids(edges@, t),
        edge_role_ids(edges@, target).to_set() == desired@.to_set() ==> r@ == edges@,
{
    let ghost converged = edge_role_ids(edges@, target).to_set() == desired@.to_set();
    let mut out: Vec<Edge> = Vec::new();
    let mut i: usize = 0;
    while i < edges.len()
        invariant
            i <= edges@.len(),
            out@ == kept_edges(edges@.subrange(0, i as int), target, desired@),
            converged == (edge_role_ids(edges@, target).to_set() == desired@.to_set()),
            converged ==> out@ == edges@.subrange(0, i as int),
        decreases edges@.len() - i,
    {
        let ghost prefix = edges@.subrange(0, i as int);
        let e = edges[i];
        let keep = if e.target_id != target {
            true
        } else {
            contains_u64(desired, e.role_id)
        };
        if keep {
            out.push(e);
        }
        proof {
            assert(edges@.subrange(0, i as int + 1) =~= prefix.push(edges@[i as int]));
            lemma_kept_push(prefix, edges@[i as int], target, desired@);
            if converged && !keep {
                assert(e.target_id == target && !desired@.contains(e.role_id));
                assert(edges@.contains(Edge { role_id: e.role_id, target_id: target })) by {
                    assert(edges@[i as int] == Edge { role_id: e.role_id, target_id: target });
                }
                lemma_edge_roles_contains(edges@, target, e.role_id);
                assert(edge_role_ids(edges@, target).to_set().contains(e.role_id));
                assert(desired@.to_set().contains(e.role_id));
                assert(false);
            }
        }
        i = i + 1;
    }
    proof {
        assert(edges@.subrange(0, edges@.len() as int) =~= edges@);
    }
    let ghost kept = out@;
    proof {
        assert(kept == kept_edges(edges@, target, desired@));
        if converged {
            assert(kept == edges@);
        }
        lemma_kept_membership(edges@, target, desired@);
        if edges_distinct(edges@) {
            lemma_kept_distinct(edges@, target, desired@);
        }
    }
    let mut j: usize = 0;
    while j < desired.len()
        invariant
            j <= desired@.len(),
            kept == kept_edges(edges@, target, desired@),
            converged == (edge_role_ids(edges@, target).to_set() == desired@.to_set()),
            converged ==> kept == edges@ && out@ == edges@,
            forall|x: Edge| kept.contains(x) <==> edges@.contains(x) && (x.target_id != target
                || desired@.contains(x.role_id)),
            forall|k: int|
                0 <= k < out@.len() ==> kept.contains(#[trigger] out@[k]) || (out@[k].target_id
                    == target && desired@.contains(out@[k].role_id)),
            forall|rid: u64|
                #[trigger] out@.contains(Edge { role_id: rid, target_id: target }) <==> kept
                    .contains(Edge { role_id: rid, target_id: target }) || desired@.subrange(
                    0,
                    j as int,
                ).contains(rid),
            forall|t: u64|
                t != target ==> #[trigger] edge_role_ids(out@, t) == edge_role_ids(kept, t),
            edges_distinct(edges@) ==> edges_distinct(out@),
        decreases desired@.len() - j,
    {
        let d = desired[j];
        let ghost pre = out@;
        let present = has_edge(&out, d, target);
        if !present {
            out.push(Edge { role_id: d, target_id: target });
            proof {
                if converged {
                    assert(desired@.to_set().contains(d)) by {
                        assert(desired@[j as int] == d);
                    }
                    lemma_edge_roles_contains(edges@, target, d);
                    assert(edges@.contains(Edge { role_id: d, target_id: target }));
                    assert(false);
                }
                assert forall|i2: int, j2: int|
                    edges_distinct(edges@) && 0 <= i2 < j2 < out@.len() implies out@[i2]
                    != out@[j2] by {
                    if j2 < out@.len() - 1 {
                        assert(pre[i2] != pre[j2]);
                    } else {
                        assert(out@[j2] == Edge { role_id: d, target_id: target });
                        assert(pre[i2] == out@[i2]);
                        assert(pre.contains(out@[i2]));
                    }
                }
            }
        }
        proof {
            assert(desired@.subrange(0, j as int + 1) =~= desired@.subrange(0, j as int).push(d));
            assert(desired@.contains(d)) by {
                assert(desired@[j as int] == d);
            }
            if !present {
                assert forall|rid: u64|
                    #[trigger] out@.contains(Edge { role_id: rid, target_id: target }) <==> kept
                        .contains(Edge { role_id: rid, target_id: target }) || desired@.subrange(
                        0,
                        j as int + 1,
                    ).contains(rid) by {
                    assert(out@ == pre.push(Edge { role_id: d, target_id: target }));
                    if out@.contains(Edge { role_id: rid, target_id: target }) {
                        let k = choose|k: int|
                            0 <= k < out@.len() && out@[k] == Edge {
                                role_id: rid,
                                target_id: target,
                            };
                        if k < pre.len() {
                            assert(pre.contains(Edge { role_id: rid, target_id: target }));
                        } else {
                            assert(rid == d);
                            assert(desired@.subrange(0, j as int + 1)[j as int] == d);
                        }
                    }
                    if pre.contains(Edge { role_id: rid, target_id: target }) {
                        let k = choose|k: int|
                            0 <= k < pre.len() && pre[k] == Edge {
                                role_id: rid,
                                target_id: target,
                            };
                        assert(out@[k] == Edge { role_id: rid, target_id: target });
                    }
                    if desired@.subrange(0, j as int + 1).contains(rid) {
                        let k = choose|k: int|
                            0 <= k < j + 1 && #[trigger] desired@.subrange(0, j as int + 1)[k] == rid;
                        if k < j {
                            assert(desired@.subrange(0, j as int)[k] == rid);
                            assert(desired@.subrange(0, j as int).contains(rid));
                        } else {
                            assert(rid == d);
                            assert(out@[pre.len() as int] == Edge {
                                role_id: rid,
                                target_id: target,
                            });
                        }
                    }
                    if kept.contains(Edge { role_id: rid, target_id: target }) {
                        let k = choose|k: int|
                            0 <= k < kept.len() && kept[k] == Edge {
                                role_id: rid,
                                target_id: target,
                            };
                        assert(pre.contains(Edge { role_id: rid, target_id: target }));
                    }
                }
                assert forall|t: u64| t != target implies #[trigger] edge_role_ids(out@, t)
                    == edge_role_ids(kept, t) by {
                    lemma_edge_roles_push(pre, Edge { role_id: d, target_id: target }, t);
                }
            } else {
                assert forall|rid: u64|
                    #[trigger] out@.contains(Edge { role_id: rid, target_id: target }) <==> kept
                        .contains(Edge { role_id: rid, target_id: target }) || desired@.subrange(
                        0,
                        j as int + 1,
                    ).contains(rid) by {
                    if desired@.subrange(0, j as int + 1).contains(rid) {
                        let k = choose|k: int|
                            0 <= k < j + 1 && #[trigger] desired@.subrange(0, j as int + 1)[k] == rid;
                        if k < j {
                            assert(desired@.subrange(0, j as int)[k] == rid);
                            assert(desired@.subrange(0, j as int).contains(rid));
                        }
                    }
                    if desired@.subrange(0, j as int).contains(rid) {
                        let k = choose|k: int|
                            0 <= k < j && #[trigger] desired@.subrange(0, j as int)[k] == rid;
                        assert(desired@.subrange(0, j as int + 1)[k] == rid);
                    }
                }
            }
        }
        j = j + 1;
    }
    proof {
        assert(desired@.subrange(0, desired@.len() as int) =~= desired@);
        assert forall|rid: u64| edge_role_ids(out@, target).to_set().contains(rid) <==> desired@
            .to_set().contains(rid) by {
            lemma_edge_roles_contains(out@, target, rid);
            if kept.contains(Edge { role_id: rid, target_id: target }) {
                assert(desired@.contains(rid));
            }
            if desired@.contains(rid) {
                assert(out@.contains(Edge { role_id: rid, target_id: target }));
            }
        }
        assert(edge_role_ids(out@, target).to_set() =~= desired@.to_set());
        assert forall|t: u64| t != target implies #[trigger] edge_role_ids(out@, t)
            == edge_role_ids(edges@, t) by {
            lemma_kept_other(edges@, target, desired@, t);
        }
    }
    out
}

impl GatewayStore {
    /// An empty store.
    pub fn new() -> (r: GatewayStore)
        ensures
            r@.wf(),
            r@.services.len() == 0,
            r@.roles.len() == 0,
            r@.authorizations.len() == 0,
            r@.memberships.len() == 0,
            r@.users.len() == 0,
            r@.reset_requests.len() == 0,
    {
        let store = GatewayStore {
            services: Vec::new(),
            roles: Vec::new(),
            authorizations: Vec::new(),
            memberships: Vec::new(),
            users: Vec::new(),
            reset_requests: Vec::new(),
            next_id: 0,
        };
        proof {
            assert(store@.services =~= Seq::<ServiceView>::empty());
            assert(store@.roles =~= Seq::<RoleView>::empty());
            assert(store@.users =~= Seq::<UserView>::empty());
            assert(store@.reset_requests =~= Seq::<ResetView>::empty());
        }
        store
    }

    /// The index of the role with this record id.
    fn role_index_by_id(&self, id: u64) -> (r: Option<usize>)
        ensures
            match r {
                Some(k) => k < self@.roles.len() && self@.roles[k as int].id == id,
                None => !has_role_id(self@.roles, id),
            },
    {
        let mut i: usize = 0;
        while i < self.roles.len()
            invariant
                i <= self@.roles.len(),
                self@.roles.len() == self.roles@.len(),
                forall|k: int| 0 <= k < i ==> self@.roles[k].id != id,
            decreases self@.roles.len() - i,
        {
            if self.roles[i].id == id {
                return Some(i);
            }
            i = i + 1;
        }
        None
    }

    /// The index of the role with this qualified name.
    fn role_index_by_name(&self, namespace: &str, name: &str) -> (r: Option<usize>)
        ensures
            match r {
                Some(k) => k < self@.roles.len() && self@.roles[k as int].namespace == namespace@
                    && self@.roles[k as int].name == name@,
                None => !has_role_named(self@.roles, namespace@, name@),
            },
    {
        let mut i: usize = 0;
        while i < self.roles.len()
            invariant
                i <= self@.roles.len(),
                self@.roles.len() == self.roles@.len(),
                forall|k: int|
                    0 <= k < i ==> !(self@.roles[k].namespace == namespace@ && self@.roles[k].name
                        == name@),
            decreases self@.roles.len() - i,
        {
            let role = &self.roles[i];
            if str_eq(role.namespace.as_str(), namespace) && str_eq(role.name.as_str(), name) {
                return Some(i);
            }
            i = i + 1;
        }
        None
    }

    /// The index of the role whose rendered record id is `web_id`.
    fn role_index_by_web_id(&self, web_id: &str) -> (r: Option<usize>)
        ensures
            match r {
                Some(k) => k < self@.roles.len() && web_id@ == digits_of(
                    self@.roles[k as int].id as nat,
                ),
                None => forall|k: int|
                    0 <= k < self@.roles.len() ==> web_id@ != digits_of(
                        #[trigger] self@.roles[k].id as nat,
                    ),
            },
    {
        let mut i: usize = 0;
        while i < self.roles.len()
            invariant
                i <= self@.roles.len(),
                self@.roles.len() == self.roles@.len(),
                forall|k: int|
                    0 <= k < i ==> web_id@ != digits_of(#[trigger] self@.roles[k].id as nat),
            decreases self@.roles.len() - i,
        {
            let rendered = format_u64(self.roles[i].id);
            if str_eq(web_id, rendered.as_str()) {
                return Some(i);
            }
            i = i + 1;
        }
        None
    }

    /// Looks a role up by `(namespace, name)`.  Exactly the stored
    /// roles are found; an absent pair is a not-found condition.
    pub fn find_role(&self, namespace: &String, name: &String) -> (r: Result<
        DbApiRole,
        GatewayError,
    >)
        ensures
            r matches Ok(role) ==> self@.roles.contains(role@) && role@.namespace == namespace@
                && role@.name == name@,
            r is Err <==> !has_role_named(self@.roles, namespace@, name@),
            r matches Err(e) ==> e is NotFound,
    {
        match self.role_index_by_name(namespace.as_str(), name.as_str()) {
            Some(k) => {
                let role = self.roles[k].clone();
                proof {
                    assert(self@.roles[k as int] == role@);
                    assert(self@.roles.contains(role@));
                    assert(has_role_named(self@.roles, namespace@, name@));
                }
                Ok(role)
            },
            None => Err(
                GatewayError::NotFound("API Service".to_owned(), "No such role".to_owned()),
            ),
        }
    }

    /// All stored roles, in insertion order.
    pub fn list_roles(&self) -> (r: Vec<DbApiRole>)
        ensures
            role_views(r@) == self@.roles,
    {
        let mut out: Vec<DbApiRole> = Vec::new();
        let mut i: usize = 0;
        while i < self.roles.len()
            invariant
                i <= self@.roles.len(),
                self@.roles.len() == self.roles@.len(),
                role_views(out@) =~= self@.roles.subrange(0, i as int),
            decreases self@.roles.len() - i,
        {
            let ghost pre = out@;
            out.push(self.roles[i].clone());
            proof {
                assert(role_views(out@) =~= role_views(pre).push(self@.roles[i as int]));
                assert(self@.roles.subrange(0, i as int + 1) =~= self@.roles.subrange(
                    0,
                    i as int,
                ).push(self@.roles[i as int]));
            }
            i = i + 1;
        }
        proof {
            assert(self@.roles.subrange(0, self@.roles.len() as int) =~= self@.roles);
        }
        out
    }

    /// The stored roles lying in any of the given namespaces.  An
    /// empty result is a not-found condition.
    pub fn get_namespaces(&self, namespaces: &Vec<String>) -> (r: Result<
        Vec<DbApiRole>,
        GatewayError,
    >)
        ensures
            r matches Ok(out) ==> out@.len() > 0 && forall|k: int|
                0 <= k < out@.len() ==> self@.roles.contains(#[trigger] role_views(out@)[k])
                    && string_views(namespaces@).contains(role_views(out@)[k].namespace),
            r matches Ok(out) ==> forall|k: int|
                0 <= k < self@.roles.len() && string_views(namespaces@).contains(
                    (#[trigger] self@.roles[k]).namespace,
                ) ==> role_views(out@).contains(self@.roles[k]),
            r is Err <==> forall|k: int|
                0 <= k < self@.roles.len() ==> !string_views(namespaces@).contains(
                    (#[trigger] self@.roles[k]).namespace,
                ),
            r matches Err(e) ==> e is NotFound,
    {
        let mut out: Vec<DbApiRole> = Vec::new();
        let mut i: usize = 0;
        while i < self.roles.len()
            invariant
                i <= self@.roles.len(),
                self@.roles.len() == self.roles@.len(),
                forall|k: int|
                    0 <= k < out@.len() ==> self@.roles.contains(#[trigger] role_views(out@)[k])
                        && string_views(namespaces@).contains(role_views(out@)[k].namespace),
                forall|k: int|
                    0 <= k < i && string_views(namespaces@).contains(
                        (#[trigger] self@.roles[k]).namespace,
                    ) ==> role_views(out@).contains(self@.roles[k]),
                out@.len() == 0 ==> forall|k: int|
                    0 <= k < i ==> !string_views(namespaces@).contains(
                        (#[trigger] self@.roles[k]).namespace,
                    ),
            decreases self@.roles.len() - i,
        {
            let role = &self.roles[i];
            let ghost pre = out@;
            if contains_string(namespaces, role.namespace.as_str()) {
                out.push(role.clone());
                proof {
                    assert forall|k: int|
                        0 <= k < out@.len() implies self@.roles.contains(
                        #[trigger] role_views(out@)[k],
                    ) && string_views(namespaces@).contains(role_views(out@)[k].namespace) by {
                        if k < pre.len() {
                            assert(role_views(out@)[k] == role_views(pre)[k]);
                        } else {
                            assert(role_views(out@)[k] == self@.roles[i as int]);
                            assert(self@.roles.contains(self@.roles[i as int]));
                        }
                    }
                    assert forall|k: int|
                        0 <= k < i + 1 && string_views(namespaces@).contains(
                            (#[trigger] self@.roles[k]).namespace,
                        ) implies role_views(out@).contains(self@.roles[k]) by {
                        if k < i {
                            assert(role_views(pre).contains(self@.roles[k]));
                            let w = choose|w: int|
                                0 <= w < role_views(pre).len() && role_views(pre)[w]
                                    == self@.roles[k];
                            assert(role_views(out@)[w] == self@.roles[k]);
                        } else {
                            assert(role_views(out@)[pre.len() as int] == self@.roles[i as int]);
                        }
                    }
                }
            } else {
                proof {
                    assert forall|k: int|
                        0 <= k < i + 1 && string_views(namespaces@).contains(
                            (#[trigger] self@.roles[k]).namespace,
                        ) implies role_views(out@).contains(self@.roles[k]) by {
                        if k < i {
                            assert(role_views(out@).contains(self@.roles[k]));
                        }
                    }
                }
            }
            i = i + 1;
        }
        if out.len() == 0 {
            Err(
                GatewayError::NotFound(
                    "API Roles".to_owned(),
                    "No roles found in the specified namespaces.".to_owned(),
                ),
            )
        } else {
            proof {
                assert(!(forall|k: int|
                    0 <= k < self@.roles.len() ==> !string_views(namespaces@).contains(
                        (#[trigger] self@.roles[k]).namespace,
                    ))) by {
                    assert(self@.roles.contains(role_views(out@)[0]));
                    let w = choose|w: int|
                        0 <= w < self@.roles.len() && self@.roles[w] == role_views(out@)[0];
                    assert(string_views(namespaces@).contains(self@.roles[w].namespace));
                }
            }
            Ok(out)
        }
    }

    /// Creates a role.  A duplicate `(namespace, name)` fails the
    /// uniqueness index rather than silently duplicating.
    pub fn add_role(&mut self, new_role: &WebApiRole) -> (r: Result<DbApiRole, GatewayError>)
        requires
            old(self)@.wf(),
        ensures
            final(self)@.wf(),
            r is Ok <==> !has_role_named(
                old(self)@.roles,
                new_role@.namespace,
                new_role@.name,
            ) && old(self)@.next_id < u64::MAX,
            r matches Ok(role) ==> role@.id == old(self)@.next_id && role@.namespace
                == new_role@.namespace && role@.name == new_role@.name,
            r matches Ok(role) ==> final(self)@.roles == old(self)@.roles.push(role@),
            r is Ok ==> final(self)@.next_id == old(self)@.next_id + 1,
            final(self)@.services == old(self)@.services,
            final(self)@.authorizations == old(self)@.authorizations,
            final(self)@.memberships == old(self)@.memberships,
            final(self)@.users == old(self)@.users,
            final(self)@.reset_requests == old(self)@.reset_requests,
            r is Err ==> final(self)@ == old(self)@,
            r matches Err(e) ==> e is DatabaseError,
    {
        if self.role_index_by_name(new_role.namespace.as_str(), new_role.name.as_str()).is_some() {
            return Err(GatewayError::DatabaseError("Duplicate role".to_owned()));
        }
        if self.next_id == u64::MAX {
            return Err(GatewayError::DatabaseError("Record id space exhausted".to_owned()));
        }
        let role = DbApiRole {
            id: self.next_id,
            namespace: new_role.namespace.clone(),
            name: new_role.name.clone(),
        };
        let result = role.clone();
        let ghost pre = self@;
        self.roles.push(role);
        self.next_id = self.next_id + 1;
        proof {
            assert(self@.roles =~= pre.roles.push(result@));
            let n = pre.roles.len() as int;
            assert forall|i: int, j: int|
                0 <= i < j < self@.roles.len() implies self@.roles[i].id != self@.roles[j].id by {
                if j < n {
                    assert(pre.roles[i].id != pre.roles[j].id);
                } else {
                    assert(self@.roles[j].id == pre.next_id);
                    assert(pre.roles[i].id < pre.next_id);
                }
            }
            assert forall|i: int, j: int|
                0 <= i < j < self@.roles.len() implies !(self@.roles[i].namespace
                == self@.roles[j].namespace && self@.roles[i].name == self@.roles[j].name) by {
                if j < n {
                    assert(!(pre.roles[i].namespace == pre.roles[j].namespace
                        && pre.roles[i].name == pre.roles[j].name));
                } else {
                    assert(!has_role_named(pre.roles, new_role@.namespace, new_role@.name));
                    assert(!(pre.roles[i].namespace == new_role@.namespace && pre.roles[i].name
                        == new_role@.name));
                }
            }
            assert forall|i: int| 0 <= i < self@.roles.len() implies self@.roles[i].id
                < self@.next_id by {
                if i < n {
                    assert(pre.roles[i].id < pre.next_id);
                }
            }
            assert forall|i: int| 0 <= i < self@.services.len() implies self@.services[i].id
                < self@.next_id by {
                assert(pre.services[i].id < pre.next_id);
            }
            assert forall|i: int| 0 <= i < self@.users.len() implies self@.users[i].id
                < self@.next_id by {
                assert(pre.users[i].id < pre.next_id);
            }
            assert forall|i: int|
                0 <= i < self@.reset_requests.len() implies self@.reset_requests[i].id
                < self@.next_id by {
                assert(pre.reset_requests[i].id < pre.next_id);
            }
            assert forall|i: int|
                0 <= i < self@.authorizations.len() implies has_role_id(
                self@.roles,
                #[trigger] self@.authorizations[i].role_id,
            ) && has_service_id(self@.services, self@.authorizations[i].target_id) by {
                assert(has_role_id(pre.roles, self@.authorizations[i].role_id));
                let w = choose|k: int|
                    0 <= k < pre.roles.len() && pre.roles[k].id == self@.authorizations[i].role_id;
                assert(self@.roles[w].id == self@.authorizations[i].role_id);
            }
        }
        Ok(result)
    }

    /// Resolves each role reference to a stored role: a reference
    /// with a rendered id must name a stored role; a bare
    /// `(namespace, name)` pair is looked up and created when absent.
    /// Success is owed whenever every id reference names a stored
    /// role and the id space leaves room for the creations.
    pub fn resolve_or_create_roles(&mut self, requested: &Vec<WebApiRole>) -> (r: Result<
        Vec<DbApiRole>,
        GatewayError,
    >)
        requires
            old(self)@.wf(),
        ensures
            final(self)@.wf(),
            final(self)@.services == old(self)@.services,
            final(self)@.authorizations == old(self)@.authorizations,
            final(self)@.memberships == old(self)@.memberships,
            final(self)@.users == old(self)@.users,
            final(self)@.reset_requests == old(self)@.reset_requests,
            old(self)@.roles.is_prefix_of(final(self)@.roles),
            r matches Ok(out) ==> out@.len() == requested@.len() && forall|k: int|
                0 <= k < out@.len() ==> ref_resolves_to(
                    final(self)@,
                    #[trigger] web_role_views(requested@)[k],
                    role_views(out@)[k],
                ),
            id_refs_resolve(old(self)@, web_role_views(requested@)) && old(self)@.next_id as int
                + requested@.len() <= u64::MAX as int ==> r is Ok,
            r matches Err(e) && e is NotFound ==> !id_refs_resolve(
                old(self)@,
                web_role_views(requested@),
            ),
            r matches Err(e) ==> e is NotFound || e is DatabaseError,
    {
        let mut resolved: Vec<DbApiRole> = Vec::new();
        let mut i: usize = 0;
        while i < requested.len()
            invariant
                old(self)@.wf(),
                self@.wf(),
                i <= requested@.len(),
                requested@.len() == requested.len(),
                self@.services == old(self)@.services,
                self@.authorizations == old(self)@.authorizations,
                self@.memberships == old(self)@.memberships,
                self@.users == old(self)@.users,
                self@.reset_requests == old(self)@.reset_requests,
                old(self)@.roles.is_prefix_of(self@.roles),
                self@.next_id as int <= old(self)@.next_id + i,
                resolved@.len() == i,
                forall|k: int|
                    0 <= k < i ==> ref_resolves_to(
                        self@,
                        #[trigger] web_role_views(requested@)[k],
                        role_views(resolved@)[k],
                    ),
            decreases requested@.len() - i,
        {
            let ghost head = self@;
            let ghost pre_roles = self@.roles;
            let ghost pre_next = self@.next_id;
            let wr = &requested[i];
            let got: DbApiRole = if wr.id.is_some() {
                let w = match &wr.id {
                    Some(w) => w,
                    None => {
                        proof {
                            assert(false);
                        }
                        &wr.namespace
                    },
                };
                proof {
                    assert(web_role_views(requested@)[i as int].id == Some(w@));
                }
                match self.role_index_by_web_id(w.as_str()) {
                    Some(k) => {
                        let found = self.roles[k].clone();
                        proof {
                            assert(found@ == self@.roles[k as int]);
                            assert(w@ == digits_of(found@.id as nat));
                        }
                        found
                    },
                    None => {
                        proof {
                            assert(!id_refs_resolve(old(self)@, web_role_views(requested@))) by {
                                if id_refs_resolve(old(self)@, web_role_views(requested@)) {
                                    let j = choose|j: int|
                                        0 <= j < old(self)@.roles.len() && w@ == digits_of(
                                            #[trigger] old(self)@.roles[j].id as nat,
                                        );
                                    assert(old(self)@.roles =~= self@.roles.subrange(
                                        0,
                                        old(self)@.roles.len() as int,
                                    ));
                                    assert(self@.roles[j] == old(self)@.roles[j]);
                                    assert(w@ == digits_of(self@.roles[j].id as nat));
                                }
                            }
                        }
                        return Err(
                            GatewayError::NotFound(
                                "Role".to_owned(),
                                "Unknown role id".to_owned(),
                            ),
                        );
                    },
                }
            } else {
                proof {
                    assert(web_role_views(requested@)[i as int].id is None);
                    assert(web_role_views(requested@)[i as int].namespace == wr.namespace@);
                    assert(web_role_views(requested@)[i as int].name == wr.name@);
                }
                match self.role_index_by_name(wr.namespace.as_str(), wr.name.as_str()) {
                    Some(k) => self.roles[k].clone(),
                    None => {
                        match self.add_role(wr) {
                            Ok(role) => role,
                            Err(e) => {
                                proof {
                                    if id_refs_resolve(old(self)@, web_role_views(requested@))
                                        && old(self)@.next_id as int + requested@.len()
                                        <= u64::MAX as int {
                                        assert(pre_next < u64::MAX);
                                        assert(false);
                                    }
                                }
                                return Err(e);
                            },
                        }
                    },
                }
            };
            let ghost gv = got@;
            let ghost pre_resolved = resolved@;
            resolved.push(got);
            proof {
                assert(self@.roles.contains(gv)) by {
                    if pre_roles == self@.roles {
                        assert(self@.roles.contains(gv));
                    } else {
                        assert(self@.roles == pre_roles.push(gv));
                        assert(self@.roles[pre_roles.len() as int] == gv);
                    }
                }
                assert(ref_resolves_to(self@, web_role_views(requested@)[i as int], gv));
                assert(old(self)@.roles.is_prefix_of(self@.roles)) by {
                    if pre_roles != self@.roles {
                        assert(forall|t: int|
                            0 <= t < pre_roles.len() ==> self@.roles[t] == pre_roles[t]);
                    }
                }
                assert forall|k: int|
                    0 <= k < i + 1 implies ref_resolves_to(
                    self@,
                    #[trigger] web_role_views(requested@)[k],
                    role_views(resolved@)[k],
                ) by {
                    if k < i {
                        assert(role_views(resolved@)[k] == role_views(pre_resolved)[k]);
                        assert(ref_resolves_to(
                            head,
                            web_role_views(requested@)[k],
                            role_views(pre_resolved)[k],
                        ));
                        assert(pre_roles.contains(role_views(pre_resolved)[k]));
                        let w = choose|w: int|
                            0 <= w < pre_roles.len() && pre_roles[w] == role_views(pre_resolved)[k];
                        assert(self@.roles[w] == role_views(resolved@)[k]);
                        assert(self@.roles.contains(role_views(resolved@)[k]));
                    } else {
                        assert(role_views(resolved@)[k] == gv);
                    }
                }
            }
            i = i + 1;
        }
        proof {
            assert forall|k: int|
                0 <= k < resolved@.len() implies final(self)@.roles.contains(
                #[trigger] role_views(resolved@)[k],
            ) by {
                assert(ref_resolves_to(self@, web_role_views(requested@)[k], role_views(resolved@)[k]));
            }
        }
        Ok(resolved)
    }

    /// The index of the service with this record id.
    fn service_index_by_id(&self, id: u64) -> (r: Option<usize>)
        ensures
            match r {
                Some(k) => k < self@.services.len() && self@.services[k as int].id == id,
                None => !has_service_id(self@.services, id),
            },
    {
        let mut i: usize = 0;
        while i < self.services.len()
            invariant
                i <= self@.services.len(),
                self@.services.len() == self.services@.len(),
                forall|k: int| 0 <= k < i ==> self@.services[k].id != id,
            decreases self@.services.len() - i,
        {
            if self.services[i].id == id {
                return Some(i);
            }
            i = i + 1;
        }
        None
    }

    /// The index of the service with this name and version, active or
    /// not.
    fn service_index_by_name_version(&self, api_name: &str, version: &str) -> (r: Option<usize>)
        ensures
            match r {
                Some(k) => k < self@.services.len() && self@.services[k as int].api_name
                    == api_name@ && self@.services[k as int].version == version@,
                None => !has_service_named(self@.services, api_name@, version@),
            },
    {
        let mut i: usize = 0;
        while i < self.services.len()
            invariant
                i <= self@.services.len(),
                self@.services.len() == self.services@.len(),
                forall|k: int|
                    0 <= k < i ==> !(self@.services[k].api_name == api_name@
                        && self@.services[k].version == version@),
            decreases self@.services.len() - i,
        {
            let svc = &self.services[i];
            if str_eq(svc.api_name.as_str(), api_name) && str_eq(svc.version.as_str(), version) {
                return Some(i);
            }
            i = i + 1;
        }
        None
    }

    /// The index of the active service with this name and version.
    fn active_service_index(&self, api_name: &str, version: &str) -> (r: Option<usize>)
        ensures
            match r {
                Some(k) => k < self@.services.len() && self@.services[k as int].api_name
                    == api_name@ && self@.services[k as int].version == version@
                    && self@.services[k as int].active,
                None => !has_active_service(self@.services, api_name@, version@),
            },
    {
        let mut i: usize = 0;
        while i < self.services.len()
            invariant
                i <= self@.services.len(),
                self@.services.len() == self.services@.len(),
                forall|k: int|
                    0 <= k < i ==> !(self@.services[k].api_name == api_name@
                        && self@.services[k].version == version@ && self@.services[k].active),
            decreases self@.services.len() - i,
        {
            let svc = &self.services[i];
            if svc.active && str_eq(svc.api_name.as_str(), api_name) && str_eq(
                svc.version.as_str(),
                version,
            ) {
                return Some(i);
            }
            i = i + 1;
        }
        None
    }

    /// The index of the service whose rendered record id is `web_id`.
    fn service_index_by_web_id(&self, web_id: &str) -> (r: Option<usize>)
        ensures
            match r {
                Some(k) => k < self@.services.len() && web_id@ == digits_of(
                    self@.services[k as int].id as nat,
                ),
                None => forall|k: int|
                    0 <= k < self@.services.len() ==> web_id@ != digits_of(
                        #[trigger] self@.services[k].id as nat,
                    ),
            },
    {
        let mut i: usize = 0;
        while i < self.services.len()
            invariant
                i <= self@.services.len(),
                self@.services.len() == self.services@.len(),
                forall|k: int|
                    0 <= k < i ==> web_id@ != digits_of(#[trigger] self@.services[k].id as nat),
            decreases self@.services.len() - i,
        {
            let rendered = format_u64(self.services[i].id);
            if str_eq(web_id, rendered.as_str()) {
                return Some(i);
            }
            i = i + 1;
        }
        None
    }

    /// The full authorized-role set of a service, resolved from its
    /// authorization edges in one pass.
    pub fn roles_for_service(&self, service_id: u64) -> (r: Vec<DbApiRole>)
        requires
            self@.wf(),
        ensures
            role_ids(role_views(r@)) == edge_role_ids(self@.authorizations, service_id),
            forall|k: int| 0 <= k < r@.len() ==> self@.roles.contains(#[trigger] role_views(r@)[k]),
    {
        let mut out: Vec<DbApiRole> = Vec::new();
        let mut i: usize = 0;
        while i < self.authorizations.len()
            invariant
                self@.wf(),
                i <= self@.authorizations.len(),
                self@.authorizations.len() == self.authorizations@.len(),
                role_ids(role_views(out@)) == edge_role_ids(
                    self@.authorizations.subrange(0, i as int),
                    service_id,
                ),
                forall|k: int|
                    0 <= k < out@.len() ==> self@.roles.contains(#[trigger] role_views(out@)[k]),
            decreases self@.authorizations.len() - i,
        {
            let ghost prefix = self@.authorizations.subrange(0, i as int);
            let e = self.authorizations[i];
            let ghost pre = out@;
            if e.target_id == service_id {
                proof {
                    assert(has_role_id(self@.roles, self@.authorizations[i as int].role_id));
                }
                let k = match self.role_index_by_id(e.role_id) {
                    Some(k) => k,
                    None => {
                        proof {
                            assert(false);
                        }
                        0
                    },
                };
                out.push(self.roles[k].clone());
                proof {
                    assert(role_views(out@) =~= role_views(pre).push(self@.roles[k as int]));
                    assert(role_ids(role_views(out@)) =~= role_ids(role_views(pre)).push(
                        e.role_id,
                    ));
                }
            }
            proof {
                assert(self@.authorizations.subrange(0, i as int + 1) =~= prefix.push(
                    self@.authorizations[i as int],
                ));
                lemma_edge_roles_push(prefix, self@.authorizations[i as int], service_id);
            }
            i = i + 1;
        }
        proof {
            assert(self@.authorizations.subrange(0, self@.authorizations.len() as int)
                =~= self@.authorizations);
        }
        out
    }

    /// Looks up the unique active service for `(api_name, version)`
    /// together with its full authorized-role set.  Absence — whether
    /// the pair never existed or the record is inactive — is one and
    /// the same not-found condition.
    pub fn get_service_with_roles(&self, api_name: &String, version: &String) -> (r: Result<
        DbFullApiService,
        GatewayError,
    >)
        requires
            self@.wf(),
        ensures
            r is Err <==> !has_active_service(self@.services, api_name@, version@),
            r matches Err(e) ==> e is NotFound,
            r matches Ok(s) ==> self@.services.contains(s@.svc) && s@.svc.active && s@.svc.api_name
                == api_name@ && s@.svc.version == version@,
            r matches Ok(s) ==> role_ids(s@.roles) == edge_role_ids(
                self@.authorizations,
                s@.svc.id,
            ) && forall|k: int| 0 <= k < s@.roles.len() ==> self@.roles.contains(#[trigger] s@.roles[k]),
    {
        match self.active_service_index(api_name.as_str(), version.as_str()) {
            Some(k) => {
                let record = self.services[k].clone();
                let roles = self.roles_for_service(record.id);
                let full = record.with_roles(roles);
                proof {
                    assert(full@.svc == self@.services[k as int]);
                    assert(self@.services.contains(full@.svc));
                    assert(full@.roles == role_views(full.roles@));
                    assert(has_active_service(self@.services, api_name@, version@));
                }
                Ok(full)
            },
            None => Err(
                GatewayError::NotFound("API Service".to_owned(), "No such service".to_owned()),
            ),
        }
    }

    /// All services, each with its full authorized-role set.
    pub fn list_services(&self) -> (r: Vec<DbFullApiService>)
        requires
            self@.wf(),
        ensures
            r@.len() == self@.services.len(),
            forall|k: int| 0 <= k < r@.len() ==> (#[trigger] r@[k]@).svc == self@.services[k],
            forall|k: int|
                0 <= k < r@.len() ==> role_ids((#[trigger] r@[k]@).roles) == edge_role_ids(
                    self@.authorizations,
                    self@.services[k].id,
                ),
    {
        let mut out: Vec<DbFullApiService> = Vec::new();
        let mut i: usize = 0;
        while i < self.services.len()
            invariant
                self@.wf(),
                i <= self@.services.len(),
                self@.services.len() == self.services@.len(),
                out@.len() == i,
                forall|k: int| 0 <= k < i ==> (#[trigger] out@[k]@).svc == self@.services[k],
                forall|k: int|
                    0 <= k < i ==> role_ids((#[trigger] out@[k]@).roles) == edge_role_ids(
                        self@.authorizations,
                        self@.services[k].id,
                    ),
            decreases self@.services.len() - i,
        {
            let record = self.services[i].clone();
            let roles = self.roles_for_service(record.id);
            out.push(record.with_roles(roles));
            i = i + 1;
        }
        out
    }

    /// Whether every id in `ids` names a stored role.
    fn all_roles_exist(&self, ids: &Vec<u64>) -> (r: bool)
        ensures
            r == forall|k: int| 0 <= k < ids@.len() ==> has_role_id(self@.roles, #[trigger] ids@[k]),
    {
        let mut i: usize = 0;
        while i < ids.len()
            invariant
                i <= ids@.len(),
                forall|k: int| 0 <= k < i ==> has_role_id(self@.roles, #[trigger] ids@[k]),
            decreases ids@.len() - i,
        {
            if self.role_index_by_id(ids[i]).is_none() {
                return false;
            }
            i = i + 1;
        }
        true
    }

    /// Registers a service and grants the given (already resolved)
    /// roles access to it.  A duplicate `(api_name, version)` fails
    /// the uniqueness index; the role list must name stored roles,
    /// each at most once.
    pub fn add_service(
        &mut self,
        new_service: &DbApiServiceRequest,
        roles: &Vec<DbApiRole>,
    ) -> (r: Result<DbFullApiService, GatewayError>)
        requires
            old(self)@.wf(),
        ensures
            final(self)@.wf(),
            final(self)@.roles == old(self)@.roles,
            final(self)@.memberships == old(self)@.memberships,
            final(self)@.users == old(self)@.users,
            final(self)@.reset_requests == old(self)@.reset_requests,
            r is Ok <==> !has_service_named(
                old(self)@.services,
                new_service.api_name@,
                new_service.version@,
            ) && old(self)@.next_id < u64::MAX && (forall|k: int|
                0 <= k < roles@.len() ==> has_role_id(
                    old(self)@.roles,
                    #[trigger] role_views(roles@)[k].id,
                )) && u64s_distinct(role_ids(role_views(roles@))),
            r matches Ok(s) ==> s@.svc.id == old(self)@.next_id && s@.svc.api_name
                == new_service.api_name@ && s@.svc.forward_url == new_service.forward_url@
                && s@.svc.active == new_service.active && s@.svc.version == new_service.version@
                && s@.svc.environment == new_service.environment@ && s@.roles == role_views(roles@),
            r matches Ok(s) ==> final(self)@.services == old(self)@.services.push(s@.svc),
            r is Ok ==> final(self)@.next_id == old(self)@.next_id + 1,
            r is Ok ==> edge_role_ids(final(self)@.authorizations, old(self)@.next_id).to_set()
                == role_ids(role_views(roles@)).to_set(),
            r is Ok ==> forall|t: u64|
                t != old(self)@.next_id ==> #[trigger] edge_role_ids(
                    final(self)@.authorizations,
                    t,
                ) == edge_role_ids(old(self)@.authorizations, t),
            r is Err ==> final(self)@ == old(self)@,
            r matches Err(e) ==> e is DatabaseError || e is NotFound,
    {
        if self.service_index_by_name_version(
            new_service.api_name.as_str(),
            new_service.version.as_str(),
        ).is_some() {
            return Err(GatewayError::DatabaseError("Duplicate service".to_owned()));
        }
        if self.next_id == u64::MAX {
            return Err(GatewayError::DatabaseError("Record id space exhausted".to_owned()));
        }
        let mut ids: Vec<u64> = Vec::new();
        let mut i: usize = 0;
        while i < roles.len()
            invariant
                i <= roles@.len(),
                ids@ =~= role_ids(role_views(roles@.subrange(0, i as int))),
            decreases roles@.len() - i,
        {
            ids.push(roles[i].id);
            proof {
                assert(roles@.subrange(0, i as int + 1) =~= roles@.subrange(0, i as int).push(
                    roles@[i as int],
                ));
                assert(role_views(roles@.subrange(0, i as int + 1)) =~= role_views(
                    roles@.subrange(0, i as int),
                ).push(roles@[i as int]@));
                assert(role_ids(role_views(roles@.subrange(0, i as int + 1))) =~= role_ids(
                    role_views(roles@.subrange(0, i as int)),
                ).push(roles@[i as int]@.id));
            }
            i = i + 1;
        }
        proof {
            assert(roles@.subrange(0, roles@.len() as int) =~= roles@);
            assert(ids@ == role_ids(role_views(roles@)));
        }
        let roles_ok = self.all_roles_exist(&ids);
        proof {
            if roles_ok {
                assert forall|k: int|
                    0 <= k < roles@.len() implies has_role_id(
                    self@.roles,
                    #[trigger] role_views(roles@)[k].id,
                ) by {
                    assert(ids@[k] == role_views(roles@)[k].id);
                    assert(has_role_id(self@.roles, ids@[k]));
                }
            } else {
                assert(!(forall|k: int|
                    0 <= k < roles@.len() ==> has_role_id(
                        self@.roles,
                        #[trigger] role_views(roles@)[k].id,
                    ))) by {
                    if forall|k: int|
                        0 <= k < roles@.len() ==> has_role_id(
                            self@.roles,
                            #[trigger] role_views(roles@)[k].id,
                        ) {
                        assert forall|k: int|
                            0 <= k < ids@.len() implies has_role_id(
                            self@.roles,
                            #[trigger] ids@[k],
                        ) by {
                            assert(ids@[k] == role_views(roles@)[k].id);
                            assert(has_role_id(self@.roles, role_views(roles@)[k].id));
                        }
                    }
                }
            }
        }
        if !roles_ok {
            return Err(
                GatewayError::NotFound("Role".to_owned(), "Unknown role in request".to_owned()),
            );
        }
        let mut i: usize = 0;
        let mut dup = false;
        while i < ids.len()
            invariant
                i <= ids@.len(),
                dup == !(forall|a: int, b: int| 0 <= a < b < i ==> ids@[a] != ids@[b]),
            decreases ids@.len() - i,
        {
            let mut j: usize = 0;
            while j < i
                invariant
                    j <= i < ids@.len(),
                    dup == !((forall|a: int, b: int| 0 <= a < b < i ==> ids@[a] != ids@[b]) && (
                    forall|a: int| 0 <= a < j ==> ids@[a] != ids@[i as int])),
                decreases i - j,
            {
                if ids[j] == ids[i] {
                    dup = true;
                }
                j = j + 1;
            }
            proof {
                if !dup {
                    assert forall|a: int, b: int| 0 <= a < b < i + 1 implies ids@[a] != ids@[b] by {
                        if b < i {
                        } else {
                            assert(ids@[a] != ids@[i as int]);
                        }
                    }
                } else {
                    assert(!(forall|a: int, b: int| 0 <= a < b < i + 1 ==> ids@[a] != ids@[b]))
                        by {
                        if forall|a: int, b: int| 0 <= a < b < i + 1 ==> ids@[a] != ids@[b] {
                            assert(forall|a: int, b: int|
                                0 <= a < b < i ==> ids@[a] != ids@[b]);
                            assert(forall|a: int| 0 <= a < i ==> ids@[a] != ids@[i as int]);
                        }
                    }
                }
            }
            i = i + 1;
        }
        if dup {
            return Err(GatewayError::DatabaseError("Duplicate authorization edge".to_owned()));
        }
        let record = DbApiServiceRecord {
            id: self.next_id,
            api_name: new_service.api_name.clone(),
            forward_url: new_service.forward_url.clone(),
            active: new_service.active,
            version: new_service.version.clone(),
            environment: new_service.environment.clone(),
        };
        let sid = self.next_id;
        let ghost pre = self@;
        let returned = record.clone();
        self.services.push(record);
        self.next_id = self.next_id + 1;
        proof {
            assert(self@.services =~= pre.services.push(returned@));
        }
        let mut i: usize = 0;
        while i < ids.len()
            invariant
                i <= ids@.len(),
                self@.services == pre.services.push(returned@),
                self@.roles == pre.roles,
                self@.memberships == pre.memberships,
                self@.users == pre.users,
                self@.reset_requests == pre.reset_requests,
                self@.next_id == pre.next_id + 1,
                returned@.id == pre.next_id,
                sid == pre.next_id,
                ids@ == role_ids(role_views(roles@)),
                forall|k: int| 0 <= k < ids@.len() ==> has_role_id(pre.roles, #[trigger] ids@[k]),
                u64s_distinct(ids@),
                pre.wf(),
                self@.authorizations == pre.authorizations + auth_edges_for(
                    ids@.subrange(0, i as int),
                    sid,
                ),
            decreases ids@.len() - i,
        {
            let ghost pre_auth = self@.authorizations;
            self.authorizations.push(Edge { role_id: ids[i], target_id: sid });
            proof {
                assert(self@.authorizations =~= pre_auth.push(
                    Edge { role_id: ids@[i as int], target_id: sid },
                ));
                assert(auth_edges_for(ids@.subrange(0, i as int + 1), sid) =~= auth_edges_for(
                    ids@.subrange(0, i as int),
                    sid,
                ).push(Edge { role_id: ids@[i as int], target_id: sid }));
                assert(self@.authorizations =~= pre.authorizations + auth_edges_for(
                    ids@.subrange(0, i as int + 1),
                    sid,
                ));
            }
            i = i + 1;
        }
        proof {
            assert(ids@.subrange(0, ids@.len() as int) =~= ids@);
            let new_edges = auth_edges_for(ids@, sid);
            let all = pre.authorizations + new_edges;
            assert(self@.authorizations == all);
            assert forall|t: u64| true implies #[trigger] edge_role_ids(all, t) == edge_role_ids(
                pre.authorizations,
                t,
            ) + edge_role_ids(new_edges, t) by {
                lemma_edge_roles_concat(pre.authorizations, new_edges, t);
            }
            assert(edge_role_ids(new_edges, sid) =~= ids@) by {
                lemma_auth_edges_for_roles(ids@, sid);
            }
            assert forall|t: u64| t != sid implies #[trigger] edge_role_ids(all, t)
                == edge_role_ids(pre.authorizations, t) by {
                lemma_auth_edges_for_other(ids@, sid, t);
                assert(edge_role_ids(all, t) =~= edge_role_ids(pre.authorizations, t)
                    + edge_role_ids(new_edges, t));
                assert(edge_role_ids(new_edges, t) =~= Seq::<u64>::empty());
                assert(edge_role_ids(pre.authorizations, t) + Seq::<u64>::empty()
                    =~= edge_role_ids(pre.authorizations, t));
            }
            assert forall|e: Edge| pre.authorizations.contains(e) implies e.target_id != sid by {
                let k = choose|k: int|
                    0 <= k < pre.authorizations.len() && pre.authorizations[k] == e;
                assert(has_role_id(pre.roles, pre.authorizations[k].role_id));
                assert(has_service_id(pre.services, pre.authorizations[k].target_id));
                let w = choose|w: int|
                    0 <= w < pre.services.len() && pre.services[w].id == e.target_id;
                assert(pre.services[w].id < pre.next_id);
            }
            assert(edge_role_ids(pre.authorizations, sid) =~= Seq::<u64>::empty()) by {
                assert forall|k2: int|
                    0 <= k2 < pre.authorizations.len() implies (#[trigger] pre.authorizations[k2]).target_id
                    != sid by {
                    assert(has_role_id(pre.roles, pre.authorizations[k2].role_id));
                    let w = choose|w: int|
                        0 <= w < pre.services.len() && pre.services[w].id
                            == pre.authorizations[k2].target_id;
                    assert(pre.services[w].id < pre.next_id);
                }
                lemma_edge_roles_no_target(pre.authorizations, sid);
            }
            assert(edge_role_ids(all, sid) =~= ids@);
            assert(edge_role_ids(all, sid).to_set() =~= ids@.to_set());
            // well-formedness of the new state
            assert forall|a: int, b: int| 0 <= a < b < all.len() implies all[a] != all[b] by {
                if b < pre.authorizations.len() {
                    assert(pre.authorizations[a] != pre.authorizations[b]);
                } else if a >= pre.authorizations.len() {
                    let a2 = a - pre.authorizations.len();
                    let b2 = b - pre.authorizations.len();
                    assert(new_edges[a2].role_id == ids@[a2]);
                    assert(new_edges[b2].role_id == ids@[b2]);
                    assert(ids@[a2] != ids@[b2]);
                } else {
                    let b2 = b - pre.authorizations.len();
                    assert(all[b] == new_edges[b2]);
                    assert(new_edges[b2].target_id == sid);
                    assert(pre.authorizations.contains(all[a])) by {
                        assert(all[a] == pre.authorizations[a]);
                    }
                }
            }
            assert forall|k: int|
                0 <= k < all.len() implies has_role_id(self@.roles, #[trigger] all[k].role_id)
                && has_service_id(self@.services, all[k].target_id) by {
                if k < pre.authorizations.len() {
                    assert(has_role_id(pre.roles, pre.authorizations[k].role_id));
                    assert(has_service_id(pre.services, pre.authorizations[k].target_id));
                    let w = choose|w: int|
                        0 <= w < pre.services.len() && pre.services[w].id == all[k].target_id;
                    assert(self@.services[w].id == all[k].target_id);
                } else {
                    let k2 = k - pre.authorizations.len();
                    assert(all[k] == new_edges[k2]);
                    assert(new_edges[k2].role_id == ids@[k2]);
                    assert(has_role_id(pre.roles, ids@[k2]));
                    assert(new_edges[k2].target_id == sid);
                    assert(self@.services[pre.services.len() as int].id == sid);
                }
            }
            assert forall|a: int, b: int|
                0 <= a < b < self@.services.len() implies self@.services[a].id
                != self@.services[b].id && !(self@.services[a].api_name
                == self@.services[b].api_name && self@.services[a].version
                == self@.services[b].version) by {
                if b < pre.services.len() {
                } else {
                    assert(self@.services[b] == returned@);
                    assert(pre.services[a].id < pre.next_id);
                    assert(!has_service_named(
                        pre.services,
                        new_service.api_name@,
                        new_service.version@,
                    ));
                }
            }
            assert forall|k: int| 0 <= k < self@.services.len() implies self@.services[k].id
                < self@.next_id by {
                if k < pre.services.len() {
                    assert(pre.services[k].id < pre.next_id);
                }
            }
            assert forall|k: int| 0 <= k < self@.roles.len() implies self@.roles[k].id
                < self@.next_id by {
                assert(pre.roles[k].id < pre.next_id);
            }
            assert forall|k: int| 0 <= k < self@.users.len() implies self@.users[k].id
                < self@.next_id by {
                assert(pre.users[k].id < pre.next_id);
            }
            assert forall|k: int| 0 <= k < self@.reset_requests.len() implies self@.reset_requests[k].id
                < self@.next_id by {
                assert(pre.reset_requests[k].id < pre.next_id);
            }
        }
        let full = returned.with_roles(clone_roles(roles));
        proof {
            assert(full@.roles =~= role_views(roles@));
        }
        Ok(full)
    }

    /// Moves a service's authorized-role edge set to exactly the
    /// given role ids: stale edges are deleted, missing ones created,
    /// unchanged ones left untouched.  Re-running with the same
    /// desired set changes nothing.
    pub fn reconcile_service_roles(&mut self, service_id: u64, desired: &Vec<u64>) -> (r: Result<
        (),
        GatewayError,
    >)
        requires
            old(self)@.wf(),
        ensures
            final(self)@.wf(),
            final(self)@.services == old(self)@.services,
            final(self)@.roles == old(self)@.roles,
            final(self)@.memberships == old(self)@.memberships,
            final(self)@.users == old(self)@.users,
            final(self)@.reset_requests == old(self)@.reset_requests,
            final(self)@.next_id == old(self)@.next_id,
            r is Ok <==> has_service_id(old(self)@.services, service_id) && (forall|k: int|
                0 <= k < desired@.len() ==> has_role_id(old(self)@.roles, #[trigger] desired@[k])),
            r is Ok ==> edge_role_ids(final(self)@.authorizations, service_id).to_set()
                == desired@.to_set(),
            r is Ok ==> forall|t: u64|
                t != service_id ==> #[trigger] edge_role_ids(final(self)@.authorizations, t)
                    == edge_role_ids(old(self)@.authorizations, t),
            r is Ok && edge_role_ids(old(self)@.authorizations, service_id).to_set()
                == desired@.to_set() ==> final(self)@.authorizations == old(self)@.authorizations,
            r is Err ==> final(self)@ == old(self)@,
            r matches Err(e) ==> e is NotFound,
    {
        if self.service_index_by_id(service_id).is_none() {
            return Err(
                GatewayError::NotFound("API Service".to_owned(), "Unknown service".to_owned()),
            );
        }
        if !self.all_roles_exist(desired) {
            return Err(
                GatewayError::NotFound("Role".to_owned(), "Unknown role in request".to_owned()),
            );
        }
        let ghost pre = self@;
        proof {
            assert(pre == old(self)@);
            assert(pre.wf());
        }
        let new_edges = reconcile_edge_list(&self.authorizations, service_id, desired);
        self.authorizations = new_edges;
        proof {
            assert(self@.roles == pre.roles);
            assert(self@.services == pre.services);
            assert(self@.reset_requests == pre.reset_requests);
            assert(self@.users == pre.users);
            assert(self@.memberships == pre.memberships);
            assert(self@.next_id == pre.next_id);
            assert forall|k: int|
                0 <= k < self@.authorizations.len() implies has_role_id(
                self@.roles,
                #[trigger] self@.authorizations[k].role_id,
            ) && has_service_id(self@.services, self@.authorizations[k].target_id) by {
                let e = self@.authorizations[k];
                if pre.authorizations.contains(e) {
                    let w = choose|w: int|
                        0 <= w < pre.authorizations.len() && pre.authorizations[w] == e;
                    assert(has_role_id(pre.roles, pre.authorizations[w].role_id));
                    assert(has_service_id(pre.services, pre.authorizations[w].target_id));
                } else {
                    assert(e.target_id == service_id && desired@.contains(e.role_id));
                    let w = choose|w: int| 0 <= w < desired@.len() && desired@[w] == e.role_id;
                    assert(has_role_id(pre.roles, desired@[w]));
                }
            }
        }
        Ok(())
    }
}

/// Law: reconciling an entity's role edges and then re-reading them
/// yields exactly the desired identity set, regardless of the order
/// in which the desired or existing roles were listed.  The first
/// premise is what reconciliation guarantees of the edge list it
/// leaves; the second is what re-reading that list returns.
pub proof fn lemma_reconcile_round_trip(
    edges: Seq<Edge>,
    target: u64,
    desired: Seq<u64>,
    read_back: Seq<u64>,
)
    requires
        edge_role_ids(edges, target).to_set() == desired.to_set(),
        read_back == edge_role_ids(edges, target),
    ensures
        read_back.to_set() == desired.to_set(),
{
}

/// Law: two desired role lists holding the same identities drive a
/// reconciliation to the same edge set; listing order never matters.
pub proof fn lemma_reconcile_order_irrelevant(
    edges: Seq<Edge>,
    target: u64,
    d1: Seq<u64>,
    d2: Seq<u64>,
)
    requires
        d1.to_set() == d2.to_set(),
        edge_role_ids(edges, target).to_set() == d1.to_set(),
    ensures
        edge_role_ids(edges, target).to_set() == d2.to_set(),
{
}

/// The record after a partial update: present fields replace the old
/// ones, absent fields are kept; the identity never changes.
pub open spec fn patched_service(v: ServiceView, p: WebRequestPartialApiService) -> ServiceView {
    ServiceView {
        id: v.id,
        api_name: match p.api_name {
            Some(s) => s@,
            None => v.api_name,
        },
        forward_url: match p.forward_url {
            Some(s) => s@,
            None => v.forward_url,
        },
        active: match p.active {
            Some(b) => b,
            None => v.active,
        },
        version: match p.version {
            Some(s) => s@,
            None => v.version,
        },
        environment: match p.environment {
            Some(s) => s@,
            None => v.environment,
        },
    }
}

impl GatewayStore {
    /// Applies a partial update to a service: when the update carries
    /// a role set (a `roles` or `role_namespaces` field), the
    /// requested references are resolved (creating named roles that
    /// do not exist yet) and the authorization edges are reconciled
    /// to exactly that set; an update carrying neither field leaves
    /// the edges untouched.  The present scalar fields are patched.
    /// Reconciliation converges: re-running the same update causes no
    /// further edge changes.
    #[verifier::rlimit(100)]
    #[verifier::spinoff_prover]
    pub fn update_service(
        &mut self,
        service_id: &String,
        partial: &WebRequestPartialApiService,
    ) -> (r: Result<DbFullApiService, GatewayError>)
        requires
            old(self)@.wf(),
        ensures
            final(self)@.wf(),
            final(self)@.memberships == old(self)@.memberships,
            final(self)@.users == old(self)@.users,
            final(self)@.reset_requests == old(self)@.reset_requests,
            old(self)@.roles.is_prefix_of(final(self)@.roles),
            (forall|k: int|
                0 <= k < old(self)@.services.len() ==> service_id@ != digits_of(
                    #[trigger] old(self)@.services[k].id as nat,
                )) ==> r is Err,
            (exists|k: int|
                0 <= k < old(self)@.services.len() && service_id@ == digits_of(
                    #[trigger] old(self)@.services[k].id as nat,
                ) && (forall|j: int|
                    0 <= j < old(self)@.services.len() && j != k ==> !((
                    #[trigger] old(self)@.services[j]).api_name == patched_service(
                        old(self)@.services[k],
                        *partial,
                    ).api_name && old(self)@.services[j].version == patched_service(
                        old(self)@.services[k],
                        *partial,
                    ).version))) && id_refs_resolve(old(self)@, partial_requested(*partial)) && old(self)@.next_id as int + partial_requested(*partial).len() <= u64::MAX as int ==> r is Ok,
            r matches Ok(s) ==> exists|k: int|
                0 <= k < old(self)@.services.len() && service_id@ == digits_of(
                    #[trigger] old(self)@.services[k].id as nat,
                ) && s@.svc == patched_service(old(self)@.services[k], *partial)
                    && final(self)@.services == old(self)@.services.update(k, s@.svc),
            r matches Ok(s) ==> edge_role_ids(final(self)@.authorizations, s@.svc.id).to_set()
                == role_ids(s@.roles).to_set(),
            r matches Ok(s) ==> ((partial.roles is Some || partial.role_namespaces is Some)
                ==> s@.roles.len() == partial_requested(*partial).len() && (forall|k: int|
                0 <= k < s@.roles.len() ==> ref_resolves_to(
                    final(self)@,
                    #[trigger] partial_requested(*partial)[k],
                    s@.roles[k],
                ))),
            r matches Ok(s) ==> (partial.roles is None && partial.role_namespaces is None
                ==> final(self)@.authorizations == old(self)@.authorizations && role_ids(s@.roles)
                    == edge_role_ids(old(self)@.authorizations, s@.svc.id)),
            r matches Ok(s) ==> (edge_role_ids(old(self)@.authorizations, s@.svc.id).to_set()
                == role_ids(s@.roles).to_set() ==> final(self)@.authorizations == old(self)@.authorizations),
            r matches Ok(s) ==> forall|t: u64|
                t != s@.svc.id ==> #[trigger] edge_role_ids(final(self)@.authorizations, t)
                    == edge_role_ids(old(self)@.authorizations, t),
            r matches Ok(s) ==> forall|k: int|
                0 <= k < s@.roles.len() ==> final(self)@.roles.contains(#[trigger] s@.roles[k]),
            r is Err ==> final(self)@.services == old(self)@.services
                && final(self)@.authorizations == old(self)@.authorizations,
            r matches Err(e) ==> e is NotFound || e is DatabaseError,
    {
        let ghost owed = (exists|k: int|
            0 <= k < old(self)@.services.len() && service_id@ == digits_of(
                #[trigger] old(self)@.services[k].id as nat,
            ) && (forall|j: int|
                0 <= j < old(self)@.services.len() && j != k ==> !((
                #[trigger] old(self)@.services[j]).api_name == patched_service(
                    old(self)@.services[k],
                    *partial,
                ).api_name && old(self)@.services[j].version == patched_service(
                    old(self)@.services[k],
                    *partial,
                ).version))) && id_refs_resolve(old(self)@, partial_requested(*partial)) && old(self)@.next_id as int + partial_requested(*partial).len() <= u64::MAX as int;
        let idx = match self.service_index_by_web_id(service_id.as_str()) {
            Some(k) => k,
            None => {
                proof {
                    assert(self@.services == old(self)@.services);
                    if owed {
                        let k = choose|k: int|
                            0 <= k < old(self)@.services.len() && service_id@ == digits_of(
                                #[trigger] old(self)@.services[k].id as nat,
                            ) && (forall|j: int|
                                0 <= j < old(self)@.services.len() && j != k ==> !((
                                #[trigger] old(self)@.services[j]).api_name == patched_service(
                                    old(self)@.services[k],
                                    *partial,
                                ).api_name && old(self)@.services[j].version == patched_service(
                                    old(self)@.services[k],
                                    *partial,
                                ).version));
                        assert(service_id@ != digits_of(self@.services[k].id as nat));
                        assert(false);
                    }
                }
                return Err(
                    GatewayError::NotFound(
                        "API Service".to_owned(),
                        "Unknown service".to_owned(),
                    ),
                );
            },
        };
        let sid = self.services[idx].id;
        let include_roles = partial.roles.is_some() || partial.role_namespaces.is_some();
        let ghost reqv = partial_requested(*partial);
        let resolved: Vec<DbApiRole> = if include_roles {
            let requested = partial.all_roles();
            proof {
                assert(web_role_views(requested@) == reqv);
            }
            match self.resolve_or_create_roles(&requested) {
                Ok(out) => out,
                Err(e) => {
                    proof {
                        if owed {
                            assert(id_refs_resolve(old(self)@, reqv));
                            assert(id_refs_resolve(old(self)@, web_role_views(requested@)));
                            assert(reqv.len() == requested@.len());
                            assert(old(self)@.next_id as int + requested@.len()
                                <= u64::MAX as int);
                            assert(false);
                        }
                    }
                    return Err(e);
                },
            }
        } else {
            self.roles_for_service(sid)
        };
        let mut ids: Vec<u64> = Vec::new();
        let mut i: usize = 0;
        while i < resolved.len()
            invariant
                i <= resolved@.len(),
                ids@ =~= role_ids(role_views(resolved@.subrange(0, i as int))),
            decreases resolved@.len() - i,
        {
            ids.push(resolved[i].id);
            proof {
                assert(resolved@.subrange(0, i as int + 1) =~= resolved@.subrange(0, i as int).push(
                    resolved@[i as int],
                ));
                assert(role_views(resolved@.subrange(0, i as int + 1)) =~= role_views(
                    resolved@.subrange(0, i as int),
                ).push(resolved@[i as int]@));
                assert(role_ids(role_views(resolved@.subrange(0, i as int + 1))) =~= role_ids(
                    role_views(resolved@.subrange(0, i as int)),
                ).push(resolved@[i as int]@.id));
            }
            i = i + 1;
        }
        proof {
            assert(resolved@.subrange(0, resolved@.len() as int) =~= resolved@);
            assert(ids@ == role_ids(role_views(resolved@)));
        }
        let new_name = match &partial.api_name {
            Some(n) => n.clone(),
            None => self.services[idx].api_name.clone(),
        };
        let new_version = match &partial.version {
            Some(v) => v.clone(),
            None => self.services[idx].version.clone(),
        };
        proof {
            assert(self@.services == old(self)@.services);
            assert(new_name@ == patched_service(old(self)@.services[idx as int], *partial).api_name);
            assert(new_version@ == patched_service(
                old(self)@.services[idx as int],
                *partial,
            ).version);
        }
        match self.service_index_by_name_version(new_name.as_str(), new_version.as_str()) {
            Some(j) => {
                if j != idx {
                    proof {
                        if owed {
                            let k = choose|k: int|
                                0 <= k < old(self)@.services.len() && service_id@ == digits_of(
                                    #[trigger] old(self)@.services[k].id as nat,
                                ) && (forall|j2: int|
                                    0 <= j2 < old(self)@.services.len() && j2 != k ==> !((
                                    #[trigger] old(self)@.services[j2]).api_name == patched_service(
                                        old(self)@.services[k],
                                        *partial,
                                    ).api_name && old(self)@.services[j2].version
                                        == patched_service(
                                        old(self)@.services[k],
                                        *partial,
                                    ).version));
                            assert(k == idx) by {
                                if k != idx {
                                    crate::text::lemma_digits_of_val(
                                        old(self)@.services[k].id as nat,
                                    );
                                    crate::text::lemma_digits_of_val(
                                        old(self)@.services[idx as int].id as nat,
                                    );
                                    assert(old(self)@.services[k].id
                                        == old(self)@.services[idx as int].id);
                                }
                            }
                            assert(old(self)@.services[j as int].api_name == patched_service(
                                old(self)@.services[idx as int],
                                *partial,
                            ).api_name);
                            assert(false);
                        }
                    }
                    return Err(GatewayError::DatabaseError("Duplicate service".to_owned()));
                }
            },
            None => {},
        }
        proof {
            assert forall|k: int| 0 <= k < ids@.len() implies has_role_id(
                self@.roles,
                #[trigger] ids@[k],
            ) by {
                assert(ids@[k] == role_views(resolved@)[k].id);
                if include_roles {
                    assert(ref_resolves_to(self@, reqv[k], role_views(resolved@)[k]));
                }
                assert(self@.roles.contains(role_views(resolved@)[k]));
                let w = choose|w: int|
                    0 <= w < self@.roles.len() && self@.roles[w] == role_views(resolved@)[k];
                assert(self@.roles[w].id == ids@[k]);
            }
            assert(has_service_id(self@.services, sid)) by {
                assert(self@.services[idx as int].id == sid);
            }
        }
        let ghost pre_rec = self@;
        if include_roles {
            match self.reconcile_service_roles(sid, &ids) {
                Ok(u) => u,
                Err(e) => {
                    proof {
                        assert(false);
                    }
                    return Err(e);
                },
            };
        }
        let old_rec = &self.services[idx];
        let new_rec = DbApiServiceRecord {
            id: old_rec.id,
            api_name: new_name,
            forward_url: match &partial.forward_url {
                Some(u) => u.clone(),
                None => old_rec.forward_url.clone(),
            },
            active: match &partial.active {
                Some(b) => *b,
                None => old_rec.active,
            },
            version: new_version,
            environment: match &partial.environment {
                Some(e) => e.clone(),
                None => old_rec.environment.clone(),
            },
        };
        let returned = new_rec.clone();
        let ghost pre_set = self@;
        self.services.set(idx, new_rec);
        proof {
            assert(self@.services =~= pre_set.services.update(idx as int, returned@));
            assert(returned@ == patched_service(old(self)@.services[idx as int], *partial));
            assert forall|a: int, b: int|
                0 <= a < b < self@.services.len() implies self@.services[a].id
                != self@.services[b].id && !(self@.services[a].api_name
                == self@.services[b].api_name && self@.services[a].version
                == self@.services[b].version) by {
                if a != idx && b != idx {
                    assert(self@.services[a] == pre_set.services[a]);
                    assert(self@.services[b] == pre_set.services[b]);
                } else if a == idx {
                    assert(self@.services[a].id == pre_set.services[a].id);
                    assert(self@.services[b] == pre_set.services[b]);
                    assert(!(pre_set.services[b].api_name == returned@.api_name
                        && pre_set.services[b].version == returned@.version));
                } else {
                    assert(self@.services[b].id == pre_set.services[b].id);
                    assert(self@.services[a] == pre_set.services[a]);
                    assert(!(pre_set.services[a].api_name == returned@.api_name
                        && pre_set.services[a].version == returned@.version));
                }
            }
            assert forall|k: int| 0 <= k < self@.services.len() implies self@.services[k].id
                < self@.next_id by {
                assert(pre_set.services[k].id < pre_set.next_id);
            }
            assert forall|k: int|
                0 <= k < self@.authorizations.len() implies has_role_id(
                self@.roles,
                #[trigger] self@.authorizations[k].role_id,
            ) && has_service_id(self@.services, self@.authorizations[k].target_id) by {
                assert(has_role_id(pre_set.roles, pre_set.authorizations[k].role_id));
                assert(has_service_id(pre_set.services, pre_set.authorizations[k].target_id));
                let w = choose|w: int|
                    0 <= w < pre_set.services.len() && pre_set.services[w].id
                        == self@.authorizations[k].target_id;
                assert(self@.services[w].id == self@.authorizations[k].target_id);
            }
        }
        let ghost resolved_snap = resolved@;
        let full = returned.with_roles(resolved);
        proof {
            assert(full@.roles =~= role_views(full.roles@));
            assert(full@.svc.id == sid);
            assert(role_ids(full@.roles).to_set() =~= ids@.to_set());
            assert(self@.roles == pre_rec.roles);
            assert forall|k: int|
                0 <= k < full@.roles.len() implies self@.roles.contains(
                #[trigger] full@.roles[k],
            ) by {
                assert(full@.roles[k] == role_views(resolved_snap)[k]);
                assert(pre_rec.roles.contains(role_views(resolved_snap)[k])) by {
                    if include_roles {
                        assert(ref_resolves_to(
                            pre_rec,
                            reqv[k],
                            role_views(resolved_snap)[k],
                        ));
                    }
                }
                let w = choose|w: int|
                    0 <= w < pre_rec.roles.len() && pre_rec.roles[w] == role_views(resolved_snap)[k];
                assert(self@.roles[w] == full@.roles[k]);
            }
            if include_roles {
                assert forall|k: int|
                    0 <= k < full@.roles.len() implies ref_resolves_to(
                    self@,
                    #[trigger] reqv[k],
                    full@.roles[k],
                ) by {
                    assert(full@.roles[k] == role_views(resolved_snap)[k]);
                    assert(ref_resolves_to(pre_rec, reqv[k], role_views(resolved_snap)[k]));
                    assert(self@.roles.contains(full@.roles[k]));
                }
            } else {
                assert(self@.authorizations == old(self)@.authorizations);
                assert(role_ids(full@.roles) == edge_role_ids(old(self)@.authorizations, sid));
                assert(edge_role_ids(self@.authorizations, sid).to_set() =~= role_ids(
                    full@.roles,
                ).to_set());
            }
            if edge_role_ids(old(self)@.authorizations, sid).to_set() == role_ids(
                full@.roles,
            ).to_set() {
                if include_roles {
                    assert(edge_role_ids(pre_rec.authorizations, sid).to_set() == ids@.to_set());
                    assert(self@.authorizations == pre_rec.authorizations);
                }
            }
        }
        Ok(full)
    }
}

/// The edges whose role is not `role_id`.
pub open spec fn edges_without_role(s: Seq<Edge>, role_id: u64) -> Seq<Edge> {
    s.filter(|e: Edge| e.role_id != role_id)
}

/// How one more edge extends the purged list.
proof fn lemma_without_role_push(s: Seq<Edge>, e: Edge, role_id: u64)
    ensures
        edges_without_role(s.push(e), role_id) == if e.role_id != role_id {
            edges_without_role(s, role_id).push(e)
        } else {
            edges_without_role(s, role_id)
        },
{
    reveal(Seq::filter);
    assert(s.push(e).drop_last() =~= s);
    assert(s.push(e).last() == e);
    if e.role_id != role_id {
        assert(edges_without_role(s.push(e), role_id) =~= edges_without_role(s, role_id).push(e));
    } else {
        assert(edges_without_role(s.push(e), role_id) =~= edges_without_role(s, role_id));
    }
}

/// A purged list holds exactly the edges of other roles.
proof fn lemma_without_role_membership(s: Seq<Edge>, role_id: u64)
    ensures
        forall|x: Edge| #[trigger]
            edges_without_role(s, role_id).contains(x) <==> s.contains(x) && x.role_id != role_id,
    decreases s.len(),
{
    if s.len() == 0 {
        reveal(Seq::filter);
        assert(edges_without_role(s, role_id) =~= Seq::<Edge>::empty());
        assert(forall|x: Edge| !s.contains(x));
        assert(forall|x: Edge| !edges_without_role(s, role_id).contains(x));
    } else {
        let s0 = s.drop_last();
        let e = s.last();
        lemma_without_role_membership(s0, role_id);
        assert(s =~= s0.push(e));
        lemma_without_role_push(s0, e, role_id);
        let f0 = edges_without_role(s0, role_id);
        assert forall|x: Edge| #[trigger]
            edges_without_role(s, role_id).contains(x) <==> s.contains(x) && x.role_id
                != role_id by {
            assert(s.contains(x) <==> s0.contains(x) || x == e) by {
                if s.contains(x) {
                    let k = choose|k: int| 0 <= k < s.len() && s[k] == x;
                    if k < s0.len() {
                        assert(s0[k] == x);
                        assert(s0.contains(x));
                    }
                }
                if s0.contains(x) {
                    let k = choose|k: int| 0 <= k < s0.len() && s0[k] == x;
                    assert(s[k] == x);
                }
                if x == e {
                    assert(s[s.len() - 1] == x);
                }
            }
            if e.role_id != role_id {
                assert(edges_without_role(s, role_id) == f0.push(e));
                assert(f0.push(e).contains(x) <==> f0.contains(x) || x == e) by {
                    if f0.push(e).contains(x) {
                        let k = choose|k: int| 0 <= k < f0.push(e).len() && f0.push(e)[k] == x;
                        if k < f0.len() {
                            assert(f0[k] == x);
                            assert(f0.contains(x));
                        }
                    }
                    if f0.contains(x) {
                        let k = choose|k: int| 0 <= k < f0.len() && f0[k] == x;
                        assert(f0.push(e)[k] == x);
                    }
                    if x == e {
                        assert(f0.push(e)[f0.len() as int] == x);
                    }
                }
            } else {
                assert(edges_without_role(s, role_id) == f0);
            }
        }
    }
}

/// Purging keeps a duplicate-free edge list duplicate-free.
proof fn lemma_without_role_distinct(s: Seq<Edge>, role_id: u64)
    requires
        edges_distinct(s),
    ensures
        edges_distinct(edges_without_role(s, role_id)),
    decreases s.len(),
{
    if s.len() == 0 {
        reveal(Seq::filter);
        assert(edges_without_role(s, role_id) =~= Seq::<Edge>::empty());
    } else {
        let s0 = s.drop_last();
        let e = s.last();
        assert(edges_distinct(s0)) by {
            assert(forall|i: int| 0 <= i < s0.len() ==> s0[i] == s[i]);
        }
        lemma_without_role_distinct(s0, role_id);
        lemma_without_role_membership(s0, role_id);
        assert(s =~= s0.push(e));
        lemma_without_role_push(s0, e, role_id);
        let f0 = edges_without_role(s0, role_id);
        if e.role_id != role_id {
            assert(edges_without_role(s, role_id) == f0.push(e));
            assert(!s0.contains(e)) by {
                if s0.contains(e) {
                    let k = choose|k: int| 0 <= k < s0.len() && s0[k] == e;
                    assert(s[k] == s[s.len() - 1]);
                }
            }
            assert(!f0.contains(e));
            assert forall|i: int, j: int| 0 <= i < j < f0.push(e).len() implies f0.push(e)[i]
                != f0.push(e)[j] by {
                if j < f0.len() {
                    assert(f0[i] != f0[j]);
                } else {
                    assert(f0.push(e)[j] == e);
                    assert(f0[i] == f0.push(e)[i]);
                    assert(f0.contains(f0[i]));
                }
            }
        }
    }
}

impl GatewayStore {
    /// Renames a role in place: the record identity is kept, so the
    /// role's edges need no change.  A rename that collides with
    /// another role's `(namespace, name)` fails the uniqueness index.
    pub fn rename_role(&mut self, role_id: &String, role_update: &WebApiRole) -> (r: Result<
        DbApiRole,
        GatewayError,
    >)
        requires
            old(self)@.wf(),
        ensures
            final(self)@.wf(),
            final(self)@.services == old(self)@.services,
            final(self)@.authorizations == old(self)@.authorizations,
            final(self)@.memberships == old(self)@.memberships,
            final(self)@.users == old(self)@.users,
            final(self)@.reset_requests == old(self)@.reset_requests,
            final(self)@.next_id == old(self)@.next_id,
            r matches Ok(role) ==> role@.namespace == role_update@.namespace && role@.name
                == role_update@.name && exists|k: int|
                0 <= k < old(self)@.roles.len() && role_id@ == digits_of(
                    #[trigger] old(self)@.roles[k].id as nat,
                ) && role@.id == old(self)@.roles[k].id && final(self)@.roles == old(
                    self,
                )@.roles.update(k, role@),
            r is Err <==> (forall|k: int|
                0 <= k < old(self)@.roles.len() ==> role_id@ != digits_of(
                    #[trigger] old(self)@.roles[k].id as nat,
                )) || (exists|j: int|
                0 <= j < old(self)@.roles.len() && (#[trigger] old(self)@.roles[j]).namespace
                    == role_update@.namespace && old(self)@.roles[j].name == role_update@.name
                    && role_id@ != digits_of(old(self)@.roles[j].id as nat)),
            r is Err ==> final(self)@ == old(self)@,
            r matches Err(e) ==> e is DatabaseError,
    {
        let idx = match self.role_index_by_web_id(role_id.as_str()) {
            Some(k) => k,
            None => {
                return Err(GatewayError::DatabaseError("Unable to update role".to_owned()));
            },
        };
        match self.role_index_by_name(role_update.namespace.as_str(), role_update.name.as_str()) {
            Some(j) => {
                if j != idx {
                    proof {
                        assert(role_id@ != digits_of(self@.roles[j as int].id as nat)) by {
                            if role_id@ == digits_of(self@.roles[j as int].id as nat) {
                                crate::text::lemma_digits_of_val(self@.roles[j as int].id as nat);
                                crate::text::lemma_digits_of_val(
                                    self@.roles[idx as int].id as nat,
                                );
                                assert(self@.roles[j as int].id == self@.roles[idx as int].id);
                            }
                        }
                    }
                    return Err(GatewayError::DatabaseError("Duplicate role".to_owned()));
                }
            },
            None => {},
        }
        let updated = DbApiRole {
            id: self.roles[idx].id,
            namespace: role_update.namespace.clone(),
            name: role_update.name.clone(),
        };
        let returned = updated.clone();
        let ghost pre = self@;
        self.roles.set(idx, updated);
        proof {
            assert(pre == old(self)@);
            assert(self@.services == pre.services);
            assert(self@.authorizations == pre.authorizations);
            assert(self@.memberships == pre.memberships);
            assert(self@.users == pre.users);
            assert(self@.reset_requests == pre.reset_requests);
            assert(self@.next_id == pre.next_id);
            assert(self@.roles =~= pre.roles.update(idx as int, returned@));
            assert forall|a: int, b: int|
                0 <= a < b < self@.roles.len() implies self@.roles[a].id != self@.roles[b].id && !(
            self@.roles[a].namespace == self@.roles[b].namespace && self@.roles[a].name
                == self@.roles[b].name) by {
                if a != idx && b != idx {
                    assert(self@.roles[a] == pre.roles[a]);
                    assert(self@.roles[b] == pre.roles[b]);
                } else if a == idx {
                    assert(self@.roles[a].id == pre.roles[a].id);
                    assert(self@.roles[b] == pre.roles[b]);
                    assert(!(pre.roles[b].namespace == returned@.namespace && pre.roles[b].name
                        == returned@.name));
                } else {
                    assert(self@.roles[b].id == pre.roles[b].id);
                    assert(self@.roles[a] == pre.roles[a]);
                    assert(!(pre.roles[a].namespace == returned@.namespace && pre.roles[a].name
                        == returned@.name));
                }
            }
            assert forall|k: int| 0 <= k < self@.roles.len() implies self@.roles[k].id
                < self@.next_id by {
                assert(pre.roles[k].id < pre.next_id);
            }
            assert forall|k: int|
                0 <= k < self@.authorizations.len() implies has_role_id(
                self@.roles,
                #[trigger] self@.authorizations[k].role_id,
            ) && has_service_id(self@.services, self@.authorizations[k].target_id) by {
                assert(has_role_id(pre.roles, pre.authorizations[k].role_id));
                let w = choose|w: int|
                    0 <= w < pre.roles.len() && pre.roles[w].id
                        == self@.authorizations[k].role_id;
                assert(self@.roles[w].id == self@.authorizations[k].role_id);
            }
        }
        Ok(returned)
    }

    /// Deletes a role together with its authorization edges.
    /// Membership edges are left as they are.
    pub fn delete_role(&mut self, role_id: &String) -> (r: Result<(), GatewayError>)
        requires
            old(self)@.wf(),
        ensures
            final(self)@.wf(),
            final(self)@.services == old(self)@.services,
            final(self)@.memberships == old(self)@.memberships,
            final(self)@.users == old(self)@.users,
            final(self)@.reset_requests == old(self)@.reset_requests,
            final(self)@.next_id == old(self)@.next_id,
            r is Err <==> forall|k: int|
                0 <= k < old(self)@.roles.len() ==> role_id@ != digits_of(
                    #[trigger] old(self)@.roles[k].id as nat,
                ),
            r is Err ==> final(self)@ == old(self)@,
            r matches Err(e) ==> e is DatabaseError,
            r is Ok ==> exists|k: int|
                0 <= k < old(self)@.roles.len() && role_id@ == digits_of(
                    #[trigger] old(self)@.roles[k].id as nat,
                ) && final(self)@.roles == old(self)@.roles.remove(k) && (forall|x: Edge| #[trigger]
                    final(self)@.authorizations.contains(x) <==> old(
                        self,
                    )@.authorizations.contains(x) && x.role_id != old(self)@.roles[k].id),
    {
        let idx = match self.role_index_by_web_id(role_id.as_str()) {
            Some(k) => k,
            None => {
                return Err(
                    GatewayError::DatabaseError("Unable to delete api service entry".to_owned()),
                );
            },
        };
        let rid = self.roles[idx].id;
        let ghost pre = self@;
        let mut out: Vec<Edge> = Vec::new();
        let mut i: usize = 0;
        while i < self.authorizations.len()
            invariant
                i <= self.authorizations@.len(),
                out@ == edges_without_role(self.authorizations@.subrange(0, i as int), rid),
            decreases self.authorizations@.len() - i,
        {
            let ghost prefix = self.authorizations@.subrange(0, i as int);
            let e = self.authorizations[i];
            if e.role_id != rid {
                out.push(e);
            }
            proof {
                assert(self.authorizations@.subrange(0, i as int + 1) =~= prefix.push(
                    self.authorizations@[i as int],
                ));
                lemma_without_role_push(prefix, self.authorizations@[i as int], rid);
            }
            i = i + 1;
        }
        proof {
            assert(self.authorizations@.subrange(0, self.authorizations@.len() as int)
                =~= self.authorizations@);
            assert(out@ == edges_without_role(pre.authorizations, rid));
            lemma_without_role_membership(pre.authorizations, rid);
            lemma_without_role_distinct(pre.authorizations, rid);
        }
        self.authorizations = out;
        self.roles.remove(idx);
        proof {
            assert(pre == old(self)@);
            assert(self@.services == pre.services);
            assert(self@.memberships == pre.memberships);
            assert(self@.users == pre.users);
            assert(self@.reset_requests == pre.reset_requests);
            assert(self@.next_id == pre.next_id);
            assert(self@.roles =~= pre.roles.remove(idx as int));
            assert forall|a: int, b: int|
                0 <= a < b < self@.roles.len() implies self@.roles[a].id != self@.roles[b].id && !(
            self@.roles[a].namespace == self@.roles[b].namespace && self@.roles[a].name
                == self@.roles[b].name) by {
                let a0 = if a < idx {
                    a
                } else {
                    a + 1
                };
                let b0 = if b < idx {
                    b
                } else {
                    b + 1
                };
                assert(self@.roles[a] == pre.roles[a0]);
                assert(self@.roles[b] == pre.roles[b0]);
            }
            assert forall|k: int| 0 <= k < self@.roles.len() implies self@.roles[k].id
                < self@.next_id by {
                let k0 = if k < idx {
                    k
                } else {
                    k + 1
                };
                assert(self@.roles[k] == pre.roles[k0]);
                assert(pre.roles[k0].id < pre.next_id);
            }
            assert forall|k: int|
                0 <= k < self@.authorizations.len() implies has_role_id(
                self@.roles,
                #[trigger] self@.authorizations[k].role_id,
            ) && has_service_id(self@.services, self@.authorizations[k].target_id) by {
                let e = self@.authorizations[k];
                assert(self@.authorizations.contains(e));
                assert(pre.authorizations.contains(e) && e.role_id != rid);
                let w = choose|w: int|
                    0 <= w < pre.authorizations.len() && pre.authorizations[w] == e;
                assert(has_role_id(pre.roles, pre.authorizations[w].role_id));
                assert(has_service_id(pre.services, pre.authorizations[w].target_id));
                let v = choose|v: int| 0 <= v < pre.roles.len() && pre.roles[v].id == e.role_id;
                assert(pre.roles[v].id != rid);
                assert(pre.roles[idx as int].id == rid);
                assert(v != idx);
                let v2 = if v < idx {
                    v
                } else {
                    v - 1
                };
                assert(self@.roles[v2] == pre.roles[v]);
            }
        }
        Ok(())
    }

    /// Deletes a service together with its authorization edges, so
    /// the authorization graph never holds edges to a missing
    /// service.
    pub fn delete_service(&mut self, service_id: &String) -> (r: Result<(), GatewayError>)
        requires
            old(self)@.wf(),
        ensures
            final(self)@.wf(),
            final(self)@.roles == old(self)@.roles,
            final(self)@.memberships == old(self)@.memberships,
            final(self)@.users == old(self)@.users,
            final(self)@.reset_requests == old(self)@.reset_requests,
            final(self)@.next_id == old(self)@.next_id,
            r is Err <==> forall|k: int|
                0 <= k < old(self)@.services.len() ==> service_id@ != digits_of(
                    #[trigger] old(self)@.services[k].id as nat,
                ),
            r is Err ==> final(self)@ == old(self)@,
            r matches Err(e) ==> e is DatabaseError,
            r is Ok ==> exists|k: int|
                0 <= k < old(self)@.services.len() && service_id@ == digits_of(
                    #[trigger] old(self)@.services[k].id as nat,
                ) && final(self)@.services == old(self)@.services.remove(k) && edge_role_ids(
                    final(self)@.authorizations,
                    old(self)@.services[k].id,
                ).to_set() == Seq::<u64>::empty().to_set() && (forall|t: u64|
                    t != old(self)@.services[k].id ==> #[trigger] edge_role_ids(
                        final(self)@.authorizations,
                        t,
                    ) == edge_role_ids(old(self)@.authorizations, t)),
    {
        let idx = match self.service_index_by_web_id(service_id.as_str()) {
            Some(k) => k,
            None => {
                return Err(
                    GatewayError::DatabaseError("Unable to delete api service entry".to_owned()),
                );
            },
        };
        let sid = self.services[idx].id;
        let ghost pre = self@;
        let no_roles: Vec<u64> = Vec::new();
        let new_auth = reconcile_edge_list(&self.authorizations, sid, &no_roles);
        self.authorizations = new_auth;
        self.services.remove(idx);
        proof {
            assert(pre == old(self)@);
            assert(self@.roles == pre.roles);
            assert(self@.memberships == pre.memberships);
            assert(self@.users == pre.users);
            assert(self@.reset_requests == pre.reset_requests);
            assert(self@.next_id == pre.next_id);
            assert(self@.services =~= pre.services.remove(idx as int));
            assert forall|a: int, b: int|
                0 <= a < b < self@.services.len() implies self@.services[a].id
                != self@.services[b].id && !(self@.services[a].api_name
                == self@.services[b].api_name && self@.services[a].version
                == self@.services[b].version) by {
                let a0 = if a < idx {
                    a
                } else {
                    a + 1
                };
                let b0 = if b < idx {
                    b
                } else {
                    b + 1
                };
                assert(self@.services[a] == pre.services[a0]);
                assert(self@.services[b] == pre.services[b0]);
            }
            assert forall|k: int| 0 <= k < self@.services.len() implies self@.services[k].id
                < self@.next_id by {
                let k0 = if k < idx {
                    k
                } else {
                    k + 1
                };
                assert(self@.services[k] == pre.services[k0]);
                assert(pre.services[k0].id < pre.next_id);
            }
            assert forall|k: int|
                0 <= k < self@.authorizations.len() implies has_role_id(
                self@.roles,
                #[trigger] self@.authorizations[k].role_id,
            ) && has_service_id(self@.services, self@.authorizations[k].target_id) by {
                let e = self@.authorizations[k];
                assert(self@.authorizations.contains(e));
                assert(e.target_id != sid) by {
                    if e.target_id == sid {
                        lemma_edge_roles_contains(self@.authorizations, sid, e.role_id);
                        assert(self@.authorizations.contains(
                            Edge { role_id: e.role_id, target_id: sid },
                        )) by {
                            assert(e == Edge { role_id: e.role_id, target_id: sid });
                        }
                        assert(edge_role_ids(self@.authorizations, sid).contains(e.role_id));
                        assert(edge_role_ids(self@.authorizations, sid).to_set().contains(
                            e.role_id,
                        ));
                        assert(Seq::<u64>::empty().to_set().contains(e.role_id));
                        assert(Seq::<u64>::empty().contains(e.role_id));
                    }
                }
                assert(pre.authorizations.contains(e) || (e.target_id == sid
                    && no_roles@.contains(e.role_id)));
                let w = choose|w: int|
                    0 <= w < pre.authorizations.len() && pre.authorizations[w] == e;
                assert(has_role_id(pre.roles, pre.authorizations[w].role_id));
                assert(has_service_id(pre.services, pre.authorizations[w].target_id));
                let v = choose|v: int|
                    0 <= v < pre.services.len() && pre.services[v].id == e.target_id;
                assert(pre.services[idx as int].id == sid);
                assert(v != idx);
                let v2 = if v < idx {
                    v
                } else {
                    v - 1
                };
                assert(self@.services[v2] == pre.services[v]);
            }
        }
        Ok(())
    }
}

/// Clones a role list.
fn clone_roles(roles: &Vec<DbApiRole>) -> (r: Vec<DbApiRole>)
    ensures
        role_views(r@) == role_views(roles@),
        r@.len() == roles@.len(),
{
    let mut out: Vec<DbApiRole> = Vec::new();
    let mut i: usize = 0;
    while i < roles.len()
        invariant
            i <= roles@.len(),
            out@.len() == i,
            role_views(out@) =~= role_views(roles@.subrange(0, i as int)),
        decreases roles@.len() - i,
    {
        let ghost pre = out@;
        out.push(roles[i].clone());
        proof {
            assert(role_views(out@) =~= role_views(pre).push(roles@[i as int]@));
            assert(roles@.subrange(0, i as int + 1) =~= roles@.subrange(0, i as int).push(
                roles@[i as int],
            ));
            assert(role_views(roles@.subrange(0, i as int + 1)) =~= role_views(
                roles@.subrange(0, i as int),
            ).push(roles@[i as int]@));
        }
        i = i + 1;
    }
    proof {
        assert(roles@.subrange(0, roles@.len() as int) =~= roles@);
    }
    out
}

/// No value occurs twice.
pub open spec fn u64s_distinct(s: Seq<u64>) -> bool {
    forall|i: int, j: int| 0 <= i < j < s.len() ==> s[i] != s[j]
}

/// The authorization edges granting each of `ids` access to `sid`.
pub open spec fn auth_edges_for(ids: Seq<u64>, sid: u64) -> Seq<Edge> {
    ids.map_values(|rid: u64| Edge { role_id: rid, target_id: sid })
}

/// Splitting an edge list splits each target's role ids.
proof fn lemma_edge_roles_concat(a: Seq<Edge>, b: Seq<Edge>, t: u64)
    ensures
        edge_role_ids(a + b, t) == edge_role_ids(a, t) + edge_role_ids(b, t),
    decreases b.len(),
{
    reveal(Seq::filter);
    if b.len() == 0 {
        assert(a + b =~= a);
        assert(edge_role_ids(b, t) =~= Seq::<u64>::empty());
        assert(edge_role_ids(a, t) + Seq::<u64>::empty() =~= edge_role_ids(a, t));
    } else {
        let b0 = b.drop_last();
        let e = b.last();
        lemma_edge_roles_concat(a, b0, t);
        assert(a + b =~= (a + b0).push(e));
        assert(b =~= b0.push(e));
        lemma_edge_roles_push(a + b0, e, t);
        lemma_edge_roles_push(b0, e, t);
        if e.target_id == t {
            assert(edge_role_ids(a + b, t) =~= (edge_role_ids(a, t) + edge_role_ids(b0, t)).push(
                e.role_id,
            ));
            assert((edge_role_ids(a, t) + edge_role_ids(b0, t)).push(e.role_id) =~= edge_role_ids(
                a,
                t,
            ) + edge_role_ids(b0, t).push(e.role_id));
        }
    }
}

/// A freshly built edge list for `sid` carries exactly `ids` there.
proof fn lemma_auth_edges_for_roles(ids: Seq<u64>, sid: u64)
    ensures
        edge_role_ids(auth_edges_for(ids, sid), sid) == ids,
    decreases ids.len(),
{
    reveal(Seq::filter);
    if ids.len() == 0 {
        assert(auth_edges_for(ids, sid) =~= Seq::<Edge>::empty());
        assert(edge_role_ids(auth_edges_for(ids, sid), sid) =~= Seq::<u64>::empty());
        assert(ids =~= Seq::<u64>::empty());
    } else {
        let ids0 = ids.drop_last();
        lemma_auth_edges_for_roles(ids0, sid);
        assert(auth_edges_for(ids, sid) =~= auth_edges_for(ids0, sid).push(
            Edge { role_id: ids.last(), target_id: sid },
        ));
        lemma_edge_roles_push(
            auth_edges_for(ids0, sid),
            Edge { role_id: ids.last(), target_id: sid },
            sid,
        );
        assert(edge_role_ids(auth_edges_for(ids, sid), sid) =~= ids0.push(ids.last()));
        assert(ids0.push(ids.last()) =~= ids);
    }
}

/// A freshly built edge list for `sid` carries nothing anywhere else.
proof fn lemma_auth_edges_for_other(ids: Seq<u64>, sid: u64, t: u64)
    requires
        t != sid,
    ensures
        edge_role_ids(auth_edges_for(ids, sid), t) == Seq::<u64>::empty(),
    decreases ids.len(),
{
    reveal(Seq::filter);
    if ids.len() == 0 {
        assert(auth_edges_for(ids, sid) =~= Seq::<Edge>::empty());
        assert(edge_role_ids(auth_edges_for(ids, sid), t) =~= Seq::<u64>::empty());
    } else {
        let ids0 = ids.drop_last();
        lemma_auth_edges_for_other(ids0, sid, t);
        assert(auth_edges_for(ids, sid) =~= auth_edges_for(ids0, sid).push(
            Edge { role_id: ids.last(), target_id: sid },
        ));
        lemma_edge_roles_push(
            auth_edges_for(ids0, sid),
            Edge { role_id: ids.last(), target_id: sid },
            t,
        );
    }
}

/// An edge list with no edge at `t` yields no role ids there.
proof fn lemma_edge_roles_no_target(s: Seq<Edge>, t: u64)
    requires
        forall|k: int| 0 <= k < s.len() ==> (#[trigger] s[k]).target_id != t,
    ensures
        edge_role_ids(s, t) == Seq::<u64>::empty(),
    decreases s.len(),
{
    reveal(Seq::filter);
    if s.len() == 0 {
        assert(edge_role_ids(s, t) =~= Seq::<u64>::empty());
    } else {
        let s0 = s.drop_last();
        assert(forall|k: int| 0 <= k < s0.len() ==> (#[trigger] s0[k]).target_id != t) by {
            assert(forall|k: int| 0 <= k < s0.len() ==> s0[k] == s[k]);
        }
        lemma_edge_roles_no_target(s0, t);
        assert(s =~= s0.push(s.last()));
        lemma_edge_roles_push(s0, s.last(), t);
    }
}

impl GatewayStore {
    /// The index of the user with this record id.
    fn user_index_by_id(&self, id: u64) -> (r: Option<usize>)
        ensures
            match r {
                Some(k) => k < self@.users.len() && self@.users[k as int].id == id,
                None => !has_user_id(self@.users, id),
            },
    {
        let mut i: usize = 0;
        while i < self.users.len()
            invariant
                i <= self@.users.len(),
                self@.users.len() == self.users@.len(),
                forall|k: int| 0 <= k < i ==> self@.users[k].id != id,
            decreases self@.users.len() - i,
        {
            if self.users[i].id == id {
                return Some(i);
            }
            i = i + 1;
        }
        None
    }

    /// The index of the user with this username.
    fn user_index_by_username(&self, username: &str) -> (r: Option<usize>)
        ensures
            match r {
                Some(k) => k < self@.users.len() && self@.users[k as int].username == username@,
                None => !has_username(self@.users, username@),
            },
    {
        let mut i: usize = 0;
        while i < self.users.len()
            invariant
                i <= self@.users.len(),
                self@.users.len() == self.users@.len(),
                forall|k: int| 0 <= k < i ==> self@.users[k].username != username@,
            decreases self@.users.len() - i,
        {
            if str_eq(self.users[i].username.as_str(), username) {
                return Some(i);
            }
            i = i + 1;
        }
        None
    }

    /// The index of the user whose rendered record id is `web_id`.
    fn user_index_by_web_id(&self, web_id: &str) -> (r: Option<usize>)
        ensures
            match r {
                Some(k) => k < self@.users.len() && web_id@ == digits_of(
                    self@.users[k as int].id as nat,
                ),
                None => forall|k: int|
                    0 <= k < self@.users.len() ==> web_id@ != digits_of(
                        #[trigger] self@.users[k].id as nat,
                    ),
            },
    {
        let mut i: usize = 0;
        while i < self.users.len()
            invariant
                i <= self@.users.len(),
                self@.users.len() == self.users@.len(),
                forall|k: int|
                    0 <= k < i ==> web_id@ != digits_of(#[trigger] self@.users[k].id as nat),
            decreases self@.users.len() - i,
        {
            let rendered = format_u64(self.users[i].id);
            if str_eq(web_id, rendered.as_str()) {
                return Some(i);
            }
            i = i + 1;
        }
        None
    }

    /// The index of the reset request whose rendered record id is
    /// `web_id`.
    fn reset_index_by_web_id(&self, web_id: &str) -> (r: Option<usize>)
        ensures
            match r {
                Some(k) => k < self@.reset_requests.len() && web_id@ == digits_of(
                    self@.reset_requests[k as int].id as nat,
                ),
                None => forall|k: int|
                    0 <= k < self@.reset_requests.len() ==> web_id@ != digits_of(
                        #[trigger] self@.reset_requests[k].id as nat,
                    ),
            },
    {
        let mut i: usize = 0;
        while i < self.reset_requests.len()
            invariant
                i <= self@.reset_requests.len(),
                self@.reset_requests.len() == self.reset_requests@.len(),
                forall|k: int|
                    0 <= k < i ==> web_id@ != digits_of(
                        #[trigger] self@.reset_requests[k].id as nat,
                    ),
            decreases self@.reset_requests.len() - i,
        {
            let rendered = format_u64(self.reset_requests[i].id);
            if str_eq(web_id, rendered.as_str()) {
                return Some(i);
            }
            i = i + 1;
        }
        None
    }

    /// The user with this username, if any.
    pub fn user_by_username(&self, username: &String) -> (r: Option<DbGatewayUserRecord>)
        ensures
            r is Some <==> has_username(self@.users, username@),
            r matches Some(u) ==> self@.users.contains(u@) && u@.username == username@,
    {
        match self.user_index_by_username(username.as_str()) {
            Some(k) => {
                let u = self.users[k].clone();
                proof {
                    assert(self@.users[k as int] == u@);
                    assert(self@.users.contains(u@));
                    assert(has_username(self@.users, username@));
                }
                Some(u)
            },
            None => None,
        }
    }

    /// The full role set a user's membership edges grant, resolved in
    /// one pass.  A membership edge whose role has been deleted
    /// grants nothing.
    pub fn user_roles(&self, user_id: u64) -> (r: Vec<DbApiRole>)
        requires
            self@.wf(),
        ensures
            forall|k: int| 0 <= k < r@.len() ==> self@.roles.contains(#[trigger] role_views(r@)[k]),
            forall|k: int|
                0 <= k < r@.len() ==> edge_role_ids(self@.memberships, user_id).contains(
                    #[trigger] role_views(r@)[k].id,
                ),
            forall|rid: u64|
                #[trigger] edge_role_ids(self@.memberships, user_id).contains(rid) && has_role_id(
                    self@.roles,
                    rid,
                ) ==> role_ids(role_views(r@)).contains(rid),
    {
        let mut out: Vec<DbApiRole> = Vec::new();
        let mut i: usize = 0;
        while i < self.memberships.len()
            invariant
                self@.wf(),
                i <= self@.memberships.len(),
                self@.memberships.len() == self.memberships@.len(),
                forall|k: int|
                    0 <= k < out@.len() ==> self@.roles.contains(#[trigger] role_views(out@)[k]),
                forall|k: int|
                    0 <= k < out@.len() ==> edge_role_ids(self@.memberships, user_id).contains(
                        #[trigger] role_views(out@)[k].id,
                    ),
                forall|rid: u64|
                    #[trigger] edge_role_ids(
                        self@.memberships.subrange(0, i as int),
                        user_id,
                    ).contains(rid) && has_role_id(self@.roles, rid) ==> role_ids(
                        role_views(out@),
                    ).contains(rid),
            decreases self@.memberships.len() - i,
        {
            let ghost prefix = self@.memberships.subrange(0, i as int);
            let ghost pre = out@;
            let e = self.memberships[i];
            if e.target_id == user_id {
                match self.role_index_by_id(e.role_id) {
                    Some(k) => {
                        out.push(self.roles[k].clone());
                        proof {
                            assert(role_views(out@) =~= role_views(pre).push(
                                self@.roles[k as int],
                            ));
                            assert(role_ids(role_views(out@)) =~= role_ids(role_views(pre)).push(
                                e.role_id,
                            ));
                            assert(self@.memberships.contains(
                                Edge { role_id: e.role_id, target_id: user_id },
                            )) by {
                                assert(self@.memberships[i as int] == Edge {
                                    role_id: e.role_id,
                                    target_id: user_id,
                                });
                            }
                            lemma_edge_roles_contains(self@.memberships, user_id, e.role_id);
                        }
                    },
                    None => {
                    },
                }
            }
            proof {
                assert(self@.memberships.subrange(0, i as int + 1) =~= prefix.push(
                    self@.memberships[i as int],
                ));
                lemma_edge_roles_push(prefix, self@.memberships[i as int], user_id);
                assert forall|rid: u64|
                    #[trigger] edge_role_ids(
                        self@.memberships.subrange(0, i as int + 1),
                        user_id,
                    ).contains(rid) && has_role_id(self@.roles, rid) implies role_ids(
                    role_views(out@),
                ).contains(rid) by {
                    let now_ids = edge_role_ids(
                        self@.memberships.subrange(0, i as int + 1),
                        user_id,
                    );
                    let old_ids = edge_role_ids(prefix, user_id);
                    if self@.memberships[i as int].target_id == user_id {
                        assert(now_ids == old_ids.push(self@.memberships[i as int].role_id));
                        if rid == self@.memberships[i as int].role_id {
                            assert(role_ids(role_views(out@)).contains(rid)) by {
                                let w = choose|w: int|
                                    0 <= w < self@.roles.len() && self@.roles[w].id == rid;
                                assert(role_ids(role_views(out@)).last() == rid);
                            }
                        } else {
                            assert(old_ids.contains(rid)) by {
                                let w = choose|w: int| 0 <= w < now_ids.len() && now_ids[w] == rid;
                                assert(w < old_ids.len());
                                assert(old_ids[w] == rid);
                            }
                            assert(role_ids(role_views(pre)).contains(rid));
                            let w2 = choose|w2: int|
                                0 <= w2 < role_ids(role_views(pre)).len() && role_ids(
                                    role_views(pre),
                                )[w2] == rid;
                            assert(role_ids(role_views(out@))[w2] == rid);
                        }
                    } else {
                        assert(now_ids == old_ids);
                        assert(role_ids(role_views(pre)).contains(rid));
                        let w2 = choose|w2: int|
                            0 <= w2 < role_ids(role_views(pre)).len() && role_ids(role_views(pre))[w2]
                                == rid;
                        assert(role_ids(role_views(out@))[w2] == rid);
                    }
                }
            }
            i = i + 1;
        }
        proof {
            assert(self@.memberships.subrange(0, self@.memberships.len() as int)
                =~= self@.memberships);
        }
        out
    }

    /// Decides an authentication attempt.  The platform compare
    /// primitive's verdict on the stored hash and the supplied
    /// password arrives as `compare_ok`; a missing user, a missing
    /// hash and a failed compare are one undifferentiated error.
    pub fn authenticate_user(&self, username: &String, compare_ok: bool) -> (r: Result<
        DbGatewayUserRecord,
        GatewayError,
    >)
        requires
            self@.wf(),
        ensures
            r is Ok <==> exists|k: int|
                0 <= k < self@.users.len() && (#[trigger] self@.users[k]).username == username@
                    && self@.users[k].password_hash is Some && compare_ok,
            r matches Ok(u) ==> self@.users.contains(u@) && u@.username == username@
                && u@.password_hash is Some,
            r matches Err(e) ==> e is InvalidUsernameOrPassword,
    {
        match self.user_index_by_username(username.as_str()) {
            Some(k) => {
                let user = &self.users[k];
                if user.password_hash.is_some() && compare_ok {
                    let u = user.clone();
                    proof {
                        assert(self@.users[k as int] == u@);
                        assert(self@.users.contains(u@));
                    }
                    Ok(u)
                } else {
                    proof {
                        assert forall|j: int|
                            0 <= j < self@.users.len() && (#[trigger] self@.users[j]).username
                                == username@ implies !(self@.users[j].password_hash is Some
                            && compare_ok) by {
                            if j != k {
                                assert(self@.users[j].username != self@.users[k as int].username);
                            }
                        }
                    }
                    Err(
                        GatewayError::InvalidUsernameOrPassword(
                            "Could not authenticate with the provided username and password".to_owned(),
                        ),
                    )
                }
            },
            None => Err(
                GatewayError::InvalidUsernameOrPassword(
                    "Could not authenticate with the provided username and password".to_owned(),
                ),
            ),
        }
    }

    /// Stamps a user's last login time.
    pub fn set_last_login(&mut self, user_id: u64, now: u64) -> (r: Result<(), GatewayError>)
        requires
            old(self)@.wf(),
        ensures
            final(self)@.wf(),
            final(self)@.services == old(self)@.services,
            final(self)@.roles == old(self)@.roles,
            final(self)@.authorizations == old(self)@.authorizations,
            final(self)@.memberships == old(self)@.memberships,
            final(self)@.reset_requests == old(self)@.reset_requests,
            final(self)@.next_id == old(self)@.next_id,
            r is Ok <==> has_user_id(old(self)@.users, user_id),
            r is Ok ==> exists|k: int|
                0 <= k < old(self)@.users.len() && (#[trigger] old(self)@.users[k]).id == user_id
                    && final(self)@.users == old(self)@.users.update(
                    k,
                    UserView { last_login: Some(now), ..old(self)@.users[k] },
                ),
            r is Err ==> final(self)@ == old(self)@,
            r matches Err(e) ==> e is DatabaseError,
    {
        let idx = match self.user_index_by_id(user_id) {
            Some(k) => k,
            None => {
                return Err(GatewayError::DatabaseError("Unknown user".to_owned()));
            },
        };
        let old_rec = &self.users[idx];
        let new_rec = DbGatewayUserRecord { last_login: Some(now), ..old_rec.clone() };
        let ghost nv = new_rec@;
        let ghost pre = self@;
        self.users.set(idx, new_rec);
        proof {
            assert(pre == old(self)@);
            assert(self@.services == pre.services);
            assert(self@.roles == pre.roles);
            assert(self@.authorizations == pre.authorizations);
            assert(self@.memberships == pre.memberships);
            assert(self@.reset_requests == pre.reset_requests);
            assert(self@.next_id == pre.next_id);
            assert(self@.users =~= pre.users.update(idx as int, nv));
            assert(nv == UserView { last_login: Some(now), ..pre.users[idx as int] });
            self.lemma_users_update_wf(pre, idx as int, nv);
        }
        Ok(())
    }

    /// Updating one user in place, keeping its id and username
    /// unique, preserves the store invariant.
    proof fn lemma_users_update_wf(&self, pre: StoreView, idx: int, nv: UserView)
        requires
            pre.wf(),
            0 <= idx < pre.users.len(),
            self@.users == pre.users.update(idx, nv),
            self@.services == pre.services,
            self@.roles == pre.roles,
            self@.authorizations == pre.authorizations,
            self@.memberships == pre.memberships,
            self@.reset_requests == pre.reset_requests,
            self@.next_id == pre.next_id,
            nv.id == pre.users[idx].id,
            nv.username == pre.users[idx].username,
        ensures
            self@.wf(),
    {
        assert forall|a: int, b: int| 0 <= a < b < self@.users.len() implies self@.users[a].id
            != self@.users[b].id && self@.users[a].username != self@.users[b].username by {
            assert(self@.users[a].id == pre.users[a].id);
            assert(self@.users[b].id == pre.users[b].id);
            assert(self@.users[a].username == pre.users[a].username);
            assert(self@.users[b].username == pre.users[b].username);
        }
        assert forall|k: int| 0 <= k < self@.users.len() implies self@.users[k].id
            < self@.next_id by {
            assert(self@.users[k].id == pre.users[k].id);
            assert(pre.users[k].id < pre.next_id);
        }
        assert forall|i: int|
            0 <= i < self@.memberships.len() implies has_user_id(
            self@.users,
            #[trigger] self@.memberships[i].target_id,
        ) by {
            assert(has_user_id(pre.users, pre.memberships[i].target_id));
            let w = choose|w: int|
                0 <= w < pre.users.len() && pre.users[w].id == self@.memberships[i].target_id;
            assert(self@.users[w].id == self@.memberships[i].target_id);
        }
    }

    /// Stores a new password hash for a user and stamps the
    /// password-reset and last-modified times.
    pub fn set_user_password(&mut self, user_id: u64, new_hash: &String, now: u64) -> (r: Result<
        (),
        GatewayError,
    >)
        requires
            old(self)@.wf(),
        ensures
            final(self)@.wf(),
            final(self)@.services == old(self)@.services,
            final(self)@.roles == old(self)@.roles,
            final(self)@.authorizations == old(self)@.authorizations,
            final(self)@.memberships == old(self)@.memberships,
            final(self)@.reset_requests == old(self)@.reset_requests,
            final(self)@.next_id == old(self)@.next_id,
            r is Ok <==> has_user_id(old(self)@.users, user_id),
            r is Ok ==> exists|k: int|
                0 <= k < old(self)@.users.len() && (#[trigger] old(self)@.users[k]).id == user_id
                    && final(self)@.users == old(self)@.users.update(
                    k,
                    UserView {
                        password_hash: Some(new_hash@),
                        password_reset_at: Some(now),
                        last_modified_date: now,
                        ..old(self)@.users[k]
                    },
                ),
            r is Err ==> final(self)@ == old(self)@,
            r matches Err(e) ==> e is NotFound,
    {
        let idx = match self.user_index_by_id(user_id) {
            Some(k) => k,
            None => {
                return Err(GatewayError::NotFound("User".to_owned(), "Unknown User".to_owned()));
            },
        };
        let old_rec = &self.users[idx];
        let new_rec = DbGatewayUserRecord {
            password_hash: Some(new_hash.clone()),
            password_reset_at: Some(now),
            last_modified_date: now,
            ..old_rec.clone()
        };
        let ghost nv = new_rec@;
        let ghost pre = self@;
        self.users.set(idx, new_rec);
        proof {
            assert(pre == old(self)@);
            assert(self@.services == pre.services);
            assert(self@.roles == pre.roles);
            assert(self@.authorizations == pre.authorizations);
            assert(self@.memberships == pre.memberships);
            assert(self@.reset_requests == pre.reset_requests);
            assert(self@.next_id == pre.next_id);
            assert(self@.users =~= pre.users.update(idx as int, nv));
            assert(nv == UserView {
                password_hash: Some(new_hash@),
                password_reset_at: Some(now),
                last_modified_date: now,
                ..pre.users[idx as int]
            });
            self.lemma_users_update_wf(pre, idx as int, nv);
        }
        Ok(())
    }
}

/// The index pair that makes a redeem attempt valid: an unexpired,
/// unused reset request with the given rendered id, naming a user
/// with the claimed username.
pub open spec fn redeem_witness(
    s: StoreView,
    token: Seq<char>,
    username: Seq<char>,
    now: u64,
    k: int,
    j: int,
) -> bool {
    0 <= k < s.reset_requests.len() && 0 <= j < s.users.len() && token == digits_of(
        s.reset_requests[k].id as nat,
    ) && !s.reset_requests[k].used && s.reset_requests[k].expires_at >= now && s.users[j].id
        == s.reset_requests[k].user_id && s.users[j].username == username
}

/// A redeem attempt that must succeed.
pub open spec fn redeemable(s: StoreView, token: Seq<char>, username: Seq<char>, now: u64) -> bool {
    exists|k: int, j: int| redeem_witness(s, token, username, now, k, j)
}

/// Law: a password-reset request already marked used can never be
/// redeemed again, however far in the future it expires.
pub proof fn lemma_spent_request_never_redeems(
    s: StoreView,
    token: Seq<char>,
    username: Seq<char>,
    now: u64,
    k: int,
)
    requires
        s.wf(),
        0 <= k < s.reset_requests.len(),
        token == digits_of(s.reset_requests[k].id as nat),
        s.reset_requests[k].used,
    ensures
        !redeemable(s, token, username, now),
{
    if redeemable(s, token, username, now) {
        let (k2, j2) = choose|k2: int, j2: int| redeem_witness(s, token, username, now, k2, j2);
        if k2 != k {
            crate::text::lemma_digits_of_val(s.reset_requests[k2].id as nat);
            crate::text::lemma_digits_of_val(s.reset_requests[k].id as nat);
            assert(s.reset_requests[k2].id == s.reset_requests[k].id);
        }
        assert(false);
    }
}

/// Law: redeeming under a username other than the one carried by the
/// user the request names always fails, even while the request
/// itself is unused and unexpired.
pub proof fn lemma_mismatched_username_never_redeems(
    s: StoreView,
    token: Seq<char>,
    username: Seq<char>,
    now: u64,
    k: int,
    j: int,
)
    requires
        s.wf(),
        0 <= k < s.reset_requests.len(),
        token == digits_of(s.reset_requests[k].id as nat),
        0 <= j < s.users.len(),
        s.users[j].id == s.reset_requests[k].user_id,
        s.users[j].username != username,
    ensures
        !redeemable(s, token, username, now),
{
    if redeemable(s, token, username, now) {
        let (k2, j2) = choose|k2: int, j2: int| redeem_witness(s, token, username, now, k2, j2);
        if k2 != k {
            crate::text::lemma_digits_of_val(s.reset_requests[k2].id as nat);
            crate::text::lemma_digits_of_val(s.reset_requests[k].id as nat);
            assert(s.reset_requests[k2].id == s.reset_requests[k].id);
        }
        if j2 != j {
            assert(s.users[j2].id != s.users[j].id);
        }
        assert(false);
    }
}

impl GatewayStore {
    /// Moves a user's membership edge set to exactly the given role
    /// ids: stale edges are deleted, missing ones created, unchanged
    /// ones left untouched.  Re-running with the same desired set
    /// changes nothing.
    pub fn reconcile_user_roles(&mut self, user_id: u64, desired: &Vec<u64>) -> (r: Result<
        (),
        GatewayError,
    >)
        requires
            old(self)@.wf(),
        ensures
            final(self)@.wf(),
            final(self)@.services == old(self)@.services,
            final(self)@.roles == old(self)@.roles,
            final(self)@.authorizations == old(self)@.authorizations,
            final(self)@.users == old(self)@.users,
            final(self)@.reset_requests == old(self)@.reset_requests,
            final(self)@.next_id == old(self)@.next_id,
            r is Ok <==> has_user_id(old(self)@.users, user_id),
            r is Ok ==> edge_role_ids(final(self)@.memberships, user_id).to_set()
                == desired@.to_set(),
            r is Ok ==> forall|t: u64|
                t != user_id ==> #[trigger] edge_role_ids(final(self)@.memberships, t)
                    == edge_role_ids(old(self)@.memberships, t),
            r is Ok && edge_role_ids(old(self)@.memberships, user_id).to_set() == desired@.to_set()
                ==> final(self)@.memberships == old(self)@.memberships,
            r is Err ==> final(self)@ == old(self)@,
            r matches Err(e) ==> e is NotFound,
    {
        if self.user_index_by_id(user_id).is_none() {
            return Err(GatewayError::NotFound("User".to_owned(), "Unknown user".to_owned()));
        }
        let ghost pre = self@;
        proof {
            assert(pre == old(self)@);
            assert(pre.wf());
        }
        let new_edges = reconcile_edge_list(&self.memberships, user_id, desired);
        self.memberships = new_edges;
        proof {
            assert(self@.services == pre.services);
            assert(self@.roles == pre.roles);
            assert(self@.authorizations == pre.authorizations);
            assert(self@.users == pre.users);
            assert(self@.reset_requests == pre.reset_requests);
            assert(self@.next_id == pre.next_id);
            assert forall|k: int|
                0 <= k < self@.memberships.len() implies has_user_id(
                self@.users,
                #[trigger] self@.memberships[k].target_id,
            ) by {
                let e = self@.memberships[k];
                if pre.memberships.contains(e) {
                    let w = choose|w: int|
                        0 <= w < pre.memberships.len() && pre.memberships[w] == e;
                    assert(has_user_id(pre.users, pre.memberships[w].target_id));
                } else {
                    assert(e.target_id == user_id);
                    assert(has_user_id(pre.users, user_id));
                }
            }
        }
        Ok(())
    }

    /// Registers a user: stores the record, grants the given
    /// (already resolved) memberships, and opens a password-reset
    /// request so the user can set a first password.
    pub fn register_user(
        &mut self,
        new_user: &DbGatewayUserRequest,
        roles: &Vec<DbApiRole>,
        now: u64,
    ) -> (r: Result<DbGatewayUserResponse, GatewayError>)
        requires
            old(self)@.wf(),
            now <= u64::MAX - crate::auth::RESET_REQUEST_LIFETIME_SECS,
        ensures
            final(self)@.wf(),
            final(self)@.services == old(self)@.services,
            final(self)@.roles == old(self)@.roles,
            final(self)@.authorizations == old(self)@.authorizations,
            r is Ok <==> !has_username(old(self)@.users, new_user.username@) && old(self)@.next_id
                < u64::MAX - 1 && (forall|k: int|
                0 <= k < roles@.len() ==> has_role_id(
                    old(self)@.roles,
                    #[trigger] role_views(roles@)[k].id,
                )) && u64s_distinct(role_ids(role_views(roles@))),
            r matches Ok(resp) ==> resp.id == old(self)@.next_id && resp.username@
                == new_user.username@ && role_views(resp.roles@) == role_views(roles@),
            r is Ok ==> final(self)@.users == old(self)@.users.push(
                UserView {
                    id: old(self)@.next_id,
                    username: new_user.username@,
                    password_hash: None,
                    created_date: now,
                    last_modified_date: now,
                    last_login: None,
                    password_reset_at: None,
                },
            ),
            r is Ok ==> final(self)@.memberships == old(self)@.memberships + auth_edges_for(
                role_ids(role_views(roles@)),
                old(self)@.next_id,
            ),
            r is Ok ==> final(self)@.reset_requests == old(self)@.reset_requests.push(
                ResetView {
                    id: (old(self)@.next_id + 1) as u64,
                    user_id: old(self)@.next_id,
                    used: false,
                    expires_at: (now + crate::auth::RESET_REQUEST_LIFETIME_SECS) as u64,
                    last_modified: now,
                },
            ),
            r is Ok ==> final(self)@.next_id == old(self)@.next_id + 2,
            r is Err ==> final(self)@ == old(self)@,
            r matches Err(e) ==> e is DatabaseError || e is NotFound,
    {
        if self.user_index_by_username(new_user.username.as_str()).is_some() {
            return Err(GatewayError::DatabaseError("Duplicate username".to_owned()));
        }
        if self.next_id >= u64::MAX - 1 {
            return Err(GatewayError::DatabaseError("Record id space exhausted".to_owned()));
        }
        let mut ids: Vec<u64> = Vec::new();
        let mut i: usize = 0;
        while i < roles.len()
            invariant
                i <= roles@.len(),
                ids@ =~= role_ids(role_views(roles@.subrange(0, i as int))),
            decreases roles@.len() - i,
        {
            ids.push(roles[i].id);
            proof {
                assert(roles@.subrange(0, i as int + 1) =~= roles@.subrange(0, i as int).push(
                    roles@[i as int],
                ));
                assert(role_views(roles@.subrange(0, i as int + 1)) =~= role_views(
                    roles@.subrange(0, i as int),
                ).push(roles@[i as int]@));
                assert(role_ids(role_views(roles@.subrange(0, i as int + 1))) =~= role_ids(
                    role_views(roles@.subrange(0, i as int)),
                ).push(roles@[i as int]@.id));
            }
            i = i + 1;
        }
        proof {
            assert(roles@.subrange(0, roles@.len() as int) =~= roles@);
            assert(ids@ == role_ids(role_views(roles@)));
        }
        let roles_ok = self.all_roles_exist(&ids);
        proof {
            if roles_ok {
                assert forall|k: int|
                    0 <= k < roles@.len() implies has_role_id(
                    self@.roles,
                    #[trigger] role_views(roles@)[k].id,
                ) by {
                    assert(ids@[k] == role_views(roles@)[k].id);
                    assert(has_role_id(self@.roles, ids@[k]));
                }
            } else {
                assert(!(forall|k: int|
                    0 <= k < roles@.len() ==> has_role_id(
                        self@.roles,
                        #[trigger] role_views(roles@)[k].id,
                    ))) by {
                    if forall|k: int|
                        0 <= k < roles@.len() ==> has_role_id(
                            self@.roles,
                            #[trigger] role_views(roles@)[k].id,
                        ) {
                        assert forall|k: int|
                            0 <= k < ids@.len() implies has_role_id(
                            self@.roles,
                            #[trigger] ids@[k],
                        ) by {
                            assert(ids@[k] == role_views(roles@)[k].id);
                            assert(has_role_id(self@.roles, role_views(roles@)[k].id));
                        }
                    }
                }
            }
        }
        if !roles_ok {
            return Err(GatewayError::NotFound("Role".to_owned(), "Unknown role".to_owned()));
        }
        let mut i: usize = 0;
        let mut dup = false;
        while i < ids.len()
            invariant
                i <= ids@.len(),
                dup == !(forall|a: int, b: int| 0 <= a < b < i ==> ids@[a] != ids@[b]),
            decreases ids@.len() - i,
        {
            let mut j: usize = 0;
            while j < i
                invariant
                    j <= i < ids@.len(),
                    dup == !((forall|a: int, b: int| 0 <= a < b < i ==> ids@[a] != ids@[b]) && (
                    forall|a: int| 0 <= a < j ==> ids@[a] != ids@[i as int])),
                decreases i - j,
            {
                if ids[j] == ids[i] {
                    dup = true;
                }
                j = j + 1;
            }
            proof {
                if !dup {
                    assert forall|a: int, b: int| 0 <= a < b < i + 1 implies ids@[a] != ids@[b] by {
                        if b < i {
                        } else {
                            assert(ids@[a] != ids@[i as int]);
                        }
                    }
                } else {
                    assert(!(forall|a: int, b: int| 0 <= a < b < i + 1 ==> ids@[a] != ids@[b]))
                        by {
                        if forall|a: int, b: int| 0 <= a < b < i + 1 ==> ids@[a] != ids@[b] {
                            assert(forall|a: int, b: int|
                                0 <= a < b < i ==> ids@[a] != ids@[b]);
                            assert(forall|a: int| 0 <= a < i ==> ids@[a] != ids@[i as int]);
                        }
                    }
                }
            }
            i = i + 1;
        }
        if dup {
            return Err(GatewayError::DatabaseError("Duplicate membership edge".to_owned()));
        }
        let uid = self.next_id;
        let record = DbGatewayUserRecord {
            id: uid,
            username: new_user.username.clone(),
            password_hash: None,
            created_date: now,
            last_modified_date: now,
            last_login: None,
            password_reset_at: None,
        };
        let returned = record.clone();
        let reset = PasswordResetRequest {
            id: uid + 1,
            user_id: uid,
            used: false,
            expires_at: now + crate::auth::RESET_REQUEST_LIFETIME_SECS,
            last_modified: now,
        };
        let ghost pre = self@;
        proof {
            assert(pre == old(self)@);
        }
        self.users.push(record);
        self.reset_requests.push(reset);
        self.next_id = self.next_id + 2;
        proof {
            assert(self@.users =~= pre.users.push(returned@));
            assert(self@.reset_requests =~= pre.reset_requests.push(
                ResetView {
                    id: (pre.next_id + 1) as u64,
                    user_id: pre.next_id,
                    used: false,
                    expires_at: (now + crate::auth::RESET_REQUEST_LIFETIME_SECS) as u64,
                    last_modified: now,
                },
            ));
        }
        let mut i: usize = 0;
        while i < ids.len()
            invariant
                i <= ids@.len(),
                self@.services == pre.services,
                self@.roles == pre.roles,
                self@.authorizations == pre.authorizations,
                self@.users == pre.users.push(returned@),
                self@.reset_requests == pre.reset_requests.push(
                    ResetView {
                        id: (pre.next_id + 1) as u64,
                        user_id: pre.next_id,
                        used: false,
                        expires_at: (now + crate::auth::RESET_REQUEST_LIFETIME_SECS) as u64,
                        last_modified: now,
                    },
                ),
                self@.next_id == pre.next_id + 2,
                returned@.id == pre.next_id,
                uid == pre.next_id,
                ids@ == role_ids(role_views(roles@)),
                forall|k: int| 0 <= k < ids@.len() ==> has_role_id(pre.roles, #[trigger] ids@[k]),
                u64s_distinct(ids@),
                pre.wf(),
                self@.memberships == pre.memberships + auth_edges_for(
                    ids@.subrange(0, i as int),
                    uid,
                ),
            decreases ids@.len() - i,
        {
            let ghost pre_mem = self@.memberships;
            self.memberships.push(Edge { role_id: ids[i], target_id: uid });
            proof {
                assert(self@.memberships =~= pre_mem.push(
                    Edge { role_id: ids@[i as int], target_id: uid },
                ));
                assert(auth_edges_for(ids@.subrange(0, i as int + 1), uid) =~= auth_edges_for(
                    ids@.subrange(0, i as int),
                    uid,
                ).push(Edge { role_id: ids@[i as int], target_id: uid }));
                assert(self@.memberships =~= pre.memberships + auth_edges_for(
                    ids@.subrange(0, i as int + 1),
                    uid,
                ));
            }
            i = i + 1;
        }
        proof {
            assert(ids@.subrange(0, ids@.len() as int) =~= ids@);
            let new_edges = auth_edges_for(ids@, uid);
            let all = pre.memberships + new_edges;
            assert(self@.memberships == all);
            assert forall|e: Edge| pre.memberships.contains(e) implies e.target_id != uid by {
                let k = choose|k: int| 0 <= k < pre.memberships.len() && pre.memberships[k] == e;
                assert(has_user_id(pre.users, pre.memberships[k].target_id));
                let w = choose|w: int| 0 <= w < pre.users.len() && pre.users[w].id == e.target_id;
                assert(pre.users[w].id < pre.next_id);
            }
            assert forall|a: int, b: int| 0 <= a < b < all.len() implies all[a] != all[b] by {
                if b < pre.memberships.len() {
                    assert(pre.memberships[a] != pre.memberships[b]);
                } else if a >= pre.memberships.len() {
                    let a2 = a - pre.memberships.len();
                    let b2 = b - pre.memberships.len();
                    assert(new_edges[a2].role_id == ids@[a2]);
                    assert(new_edges[b2].role_id == ids@[b2]);
                    assert(ids@[a2] != ids@[b2]);
                } else {
                    let b2 = b - pre.memberships.len();
                    assert(all[b] == new_edges[b2]);
                    assert(new_edges[b2].target_id == uid);
                    assert(pre.memberships.contains(all[a])) by {
                        assert(all[a] == pre.memberships[a]);
                    }
                }
            }
            assert forall|k: int|
                0 <= k < all.len() implies has_user_id(
                self@.users,
                #[trigger] all[k].target_id,
            ) by {
                if k < pre.memberships.len() {
                    assert(has_user_id(pre.users, pre.memberships[k].target_id));
                    let w = choose|w: int|
                        0 <= w < pre.users.len() && pre.users[w].id == all[k].target_id;
                    assert(self@.users[w].id == all[k].target_id);
                } else {
                    let k2 = k - pre.memberships.len();
                    assert(all[k] == new_edges[k2]);
                    assert(new_edges[k2].target_id == uid);
                    assert(self@.users[pre.users.len() as int].id == uid);
                }
            }
            assert forall|a: int, b: int| 0 <= a < b < self@.users.len() implies self@.users[a].id
                != self@.users[b].id && self@.users[a].username != self@.users[b].username by {
                if b < pre.users.len() {
                } else {
                    assert(self@.users[b] == returned@);
                    assert(pre.users[a].id < pre.next_id);
                    assert(!has_username(pre.users, new_user.username@));
                }
            }
            assert forall|k: int| 0 <= k < self@.users.len() implies self@.users[k].id
                < self@.next_id by {
                if k < pre.users.len() {
                    assert(pre.users[k].id < pre.next_id);
                }
            }
            assert forall|a: int, b: int|
                0 <= a < b < self@.reset_requests.len() implies self@.reset_requests[a].id
                != self@.reset_requests[b].id by {
                if b < pre.reset_requests.len() {
                } else {
                    assert(pre.reset_requests[a].id < pre.next_id);
                }
            }
            assert forall|k: int|
                0 <= k < self@.reset_requests.len() implies self@.reset_requests[k].id
                < self@.next_id by {
                if k < pre.reset_requests.len() {
                    assert(pre.reset_requests[k].id < pre.next_id);
                }
            }
            assert forall|k: int| 0 <= k < self@.services.len() implies self@.services[k].id
                < self@.next_id by {
                assert(pre.services[k].id < pre.next_id);
            }
            assert forall|k: int| 0 <= k < self@.roles.len() implies self@.roles[k].id
                < self@.next_id by {
                assert(pre.roles[k].id < pre.next_id);
            }
        }
        let resp = returned.with_roles(clone_roles(roles));
        proof {
            assert(role_views(resp.roles@) =~= role_views(roles@));
        }
        Ok(resp)
    }

    /// A user together with its resolved role set.
    pub fn user_detail(&self, user_id: &String) -> (r: Result<DbGatewayUserResponse, GatewayError>)
        requires
            self@.wf(),
        ensures
            r is Err <==> forall|k: int|
                0 <= k < self@.users.len() ==> user_id@ != digits_of(
                    #[trigger] self@.users[k].id as nat,
                ),
            r matches Err(e) ==> e is NotFound,
            r matches Ok(resp) ==> exists|k: int|
                0 <= k < self@.users.len() && user_id@ == digits_of(
                    #[trigger] self@.users[k].id as nat,
                ) && resp.id == self@.users[k].id && resp.username@ == self@.users[k].username,
            r matches Ok(resp) ==> forall|k: int|
                0 <= k < resp.roles@.len() ==> self@.roles.contains(
                    #[trigger] role_views(resp.roles@)[k],
                ),
    {
        let idx = match self.user_index_by_web_id(user_id.as_str()) {
            Some(k) => k,
            None => {
                return Err(
                    GatewayError::NotFound(
                        "User".to_owned(),
                        "Could not find a user with the specified ID".to_owned(),
                    ),
                );
            },
        };
        let record = self.users[idx].clone();
        let roles = self.user_roles(record.id);
        Ok(record.with_roles(roles))
    }

    /// Applies a partial update to a user: when a role list is given,
    /// its references are resolved (creating named roles that do not
    /// exist yet) and the membership edges are reconciled to exactly
    /// that set; an absent list leaves the memberships untouched.  A
    /// given username is patched, kept unique, and the last-modified
    /// time stamped.  Reconciliation converges: re-running the same
    /// update causes no further edge changes.
    #[verifier::rlimit(100)]
    #[verifier::spinoff_prover]
    pub fn update_user(
        &mut self,
        user_id: &String,
        user: &DbPartialGatewayUserUpdate,
        roles: Option<&Vec<WebApiRole>>,
        now: u64,
    ) -> (r: Result<DbGatewayUserResponse, GatewayError>)
        requires
            old(self)@.wf(),
        ensures
            final(self)@.wf(),
            final(self)@.services == old(self)@.services,
            final(self)@.authorizations == old(self)@.authorizations,
            final(self)@.reset_requests == old(self)@.reset_requests,
            final(self)@.next_id == old(self)@.next_id || roles is Some,
            old(self)@.roles.is_prefix_of(final(self)@.roles),
            (forall|k: int|
                0 <= k < old(self)@.users.len() ==> user_id@ != digits_of(
                    #[trigger] old(self)@.users[k].id as nat,
                )) ==> r is Err,
            (exists|k: int|
                0 <= k < old(self)@.users.len() && user_id@ == digits_of(
                    #[trigger] old(self)@.users[k].id as nat,
                ) && (user.username matches Some(u) ==> forall|j: int|
                    0 <= j < old(self)@.users.len() && j != k ==> (
                    #[trigger] old(self)@.users[j]).username != u@)) && (roles matches Some(rs)
                ==> id_refs_resolve(old(self)@, web_role_views(rs@)) && old(self)@.next_id as int
                    + rs@.len() <= u64::MAX as int) ==> r is Ok,
            r matches Ok(resp) ==> exists|k: int|
                0 <= k < old(self)@.users.len() && user_id@ == digits_of(
                    #[trigger] old(self)@.users[k].id as nat,
                ) && resp.id == old(self)@.users[k].id && final(self)@.users == old(
                    self,
                )@.users.update(
                    k,
                    UserView {
                        username: match user.username {
                            Some(u) => u@,
                            None => old(self)@.users[k].username,
                        },
                        last_modified_date: now,
                        ..old(self)@.users[k]
                    },
                ),
            r matches Ok(resp) ==> (roles is Some ==> edge_role_ids(
                final(self)@.memberships,
                resp.id,
            ).to_set() == role_ids(role_views(resp.roles@)).to_set()),
            r matches Ok(resp) ==> (roles matches Some(rs) ==> resp.roles@.len() == rs@.len() && (
            forall|k: int|
                0 <= k < resp.roles@.len() ==> ref_resolves_to(
                    final(self)@,
                    #[trigger] web_role_views(rs@)[k],
                    role_views(resp.roles@)[k],
                ))),
            r matches Ok(resp) ==> (roles is None ==> final(self)@.memberships == old(
                self,
            )@.memberships && (forall|k: int|
                0 <= k < resp.roles@.len() ==> final(self)@.roles.contains(
                    #[trigger] role_views(resp.roles@)[k],
                ) && edge_role_ids(old(self)@.memberships, resp.id).contains(
                    role_views(resp.roles@)[k].id,
                )) && (forall|rid: u64|
                #[trigger] edge_role_ids(old(self)@.memberships, resp.id).contains(rid)
                    && has_role_id(old(self)@.roles, rid) ==> role_ids(
                    role_views(resp.roles@),
                ).contains(rid))),
            r matches Ok(resp) ==> (edge_role_ids(old(self)@.memberships, resp.id).to_set()
                == role_ids(role_views(resp.roles@)).to_set() ==> final(self)@.memberships == old(
                self,
            )@.memberships),
            r matches Ok(resp) ==> forall|t: u64|
                t != resp.id ==> #[trigger] edge_role_ids(final(self)@.memberships, t)
                    == edge_role_ids(old(self)@.memberships, t),
            r is Err ==> final(self)@.users == old(self)@.users && final(self)@.memberships == old(
                self,
            )@.memberships,
            r matches Err(e) ==> e is NotFound || e is DatabaseError,
    {
        let ghost owed = (exists|k: int|
            0 <= k < old(self)@.users.len() && user_id@ == digits_of(
                #[trigger] old(self)@.users[k].id as nat,
            ) && (user.username matches Some(u) ==> forall|j: int|
                0 <= j < old(self)@.users.len() && j != k ==> (
                #[trigger] old(self)@.users[j]).username != u@)) && (roles matches Some(rs)
            ==> id_refs_resolve(old(self)@, web_role_views(rs@)) && old(self)@.next_id as int
                + rs@.len() <= u64::MAX as int);
        let idx = match self.user_index_by_web_id(user_id.as_str()) {
            Some(k) => k,
            None => {
                proof {
                    assert(self@.users == old(self)@.users);
                    if owed {
                        let k = choose|k: int|
                            0 <= k < old(self)@.users.len() && user_id@ == digits_of(
                                #[trigger] old(self)@.users[k].id as nat,
                            ) && (user.username matches Some(u) ==> forall|j: int|
                                0 <= j < old(self)@.users.len() && j != k ==> (
                                #[trigger] old(self)@.users[j]).username != u@);
                        assert(user_id@ != digits_of(self@.users[k].id as nat));
                        assert(false);
                    }
                }
                return Err(
                    GatewayError::NotFound(
                        "User".to_owned(),
                        "Could not find a user with the specified ID".to_owned(),
                    ),
                );
            },
        };
        let uid = self.users[idx].id;
        let resolved: Vec<DbApiRole> = match roles {
            Some(role_list) => {
                match self.resolve_or_create_roles(role_list) {
                    Ok(out) => out,
                    Err(e) => {
                        proof {
                            if owed {
                                assert(id_refs_resolve(old(self)@, web_role_views(role_list@)));
                                assert(old(self)@.next_id as int + role_list@.len()
                                    <= u64::MAX as int);
                                assert(false);
                            }
                        }
                        return Err(e);
                    },
                }
            },
            None => self.user_roles(uid),
        };
        let mut ids: Vec<u64> = Vec::new();
        let mut i: usize = 0;
        while i < resolved.len()
            invariant
                i <= resolved@.len(),
                ids@ =~= role_ids(role_views(resolved@.subrange(0, i as int))),
            decreases resolved@.len() - i,
        {
            ids.push(resolved[i].id);
            proof {
                assert(resolved@.subrange(0, i as int + 1) =~= resolved@.subrange(0, i as int).push(
                    resolved@[i as int],
                ));
                assert(role_views(resolved@.subrange(0, i as int + 1)) =~= role_views(
                    resolved@.subrange(0, i as int),
                ).push(resolved@[i as int]@));
                assert(role_ids(role_views(resolved@.subrange(0, i as int + 1))) =~= role_ids(
                    role_views(resolved@.subrange(0, i as int)),
                ).push(resolved@[i as int]@.id));
            }
            i = i + 1;
        }
        proof {
            assert(resolved@.subrange(0, resolved@.len() as int) =~= resolved@);
            assert(ids@ == role_ids(role_views(resolved@)));
        }
        if let Some(new_username) = &user.username {
            match self.user_index_by_username(new_username.as_str()) {
                Some(j) => {
                    if j != idx {
                        proof {
                            assert(self@.users == old(self)@.users);
                            if owed {
                                let k = choose|k: int|
                                    0 <= k < old(self)@.users.len() && user_id@ == digits_of(
                                        #[trigger] old(self)@.users[k].id as nat,
                                    ) && (user.username matches Some(u) ==> forall|j2: int|
                                        0 <= j2 < old(self)@.users.len() && j2 != k ==> (
                                        #[trigger] old(self)@.users[j2]).username != u@);
                                assert(k == idx) by {
                                    if k != idx {
                                        crate::text::lemma_digits_of_val(
                                            old(self)@.users[k].id as nat,
                                        );
                                        crate::text::lemma_digits_of_val(
                                            old(self)@.users[idx as int].id as nat,
                                        );
                                        assert(old(self)@.users[k].id
                                            == old(self)@.users[idx as int].id);
                                    }
                                }
                                assert(old(self)@.users[j as int].username == new_username@);
                                assert(false);
                            }
                        }
                        return Err(GatewayError::DatabaseError("Duplicate username".to_owned()));
                    }
                },
                None => {},
            }
        }
        proof {
            assert(has_user_id(self@.users, uid)) by {
                assert(self@.users[idx as int].id == uid);
            }
        }
        let ghost pre_rec = self@;
        if roles.is_some() {
            match self.reconcile_user_roles(uid, &ids) {
                Ok(u) => u,
                Err(e) => {
                    proof {
                        assert(false);
                    }
                    return Err(e);
                },
            };
        }
        let old_rec = &self.users[idx];
        let new_rec = DbGatewayUserRecord {
            username: match &user.username {
                Some(u) => u.clone(),
                None => old_rec.username.clone(),
            },
            last_modified_date: now,
            ..old_rec.clone()
        };
        let returned = new_rec.clone();
        let ghost nv = new_rec@;
        let ghost pre_set = self@;
        self.users.set(idx, new_rec);
        proof {
            assert(self@.services == pre_set.services);
            assert(self@.roles == pre_set.roles);
            assert(self@.authorizations == pre_set.authorizations);
            assert(self@.memberships == pre_set.memberships);
            assert(self@.reset_requests == pre_set.reset_requests);
            assert(self@.next_id == pre_set.next_id);
            assert(self@.users =~= pre_set.users.update(idx as int, nv));
            assert forall|a: int, b: int| 0 <= a < b < self@.users.len() implies self@.users[a].id
                != self@.users[b].id && self@.users[a].username != self@.users[b].username by {
                if a != idx && b != idx {
                    assert(self@.users[a] == pre_set.users[a]);
                    assert(self@.users[b] == pre_set.users[b]);
                } else if a == idx {
                    assert(self@.users[a].id == pre_set.users[a].id);
                    assert(self@.users[b] == pre_set.users[b]);
                    assert(self@.users[a].username != self@.users[b].username);
                } else {
                    assert(self@.users[b].id == pre_set.users[b].id);
                    assert(self@.users[a] == pre_set.users[a]);
                    assert(self@.users[a].username != self@.users[b].username);
                }
            }
            assert forall|k: int| 0 <= k < self@.users.len() implies self@.users[k].id
                < self@.next_id by {
                assert(pre_set.users[k].id < pre_set.next_id);
            }
            assert forall|i2: int|
                0 <= i2 < self@.memberships.len() implies has_user_id(
                self@.users,
                #[trigger] self@.memberships[i2].target_id,
            ) by {
                assert(has_user_id(pre_set.users, pre_set.memberships[i2].target_id));
                let w = choose|w: int|
                    0 <= w < pre_set.users.len() && pre_set.users[w].id
                        == self@.memberships[i2].target_id;
                assert(self@.users[w].id == self@.memberships[i2].target_id);
            }
        }
        let ghost resolved_snap = resolved@;
        let resp = returned.with_roles(resolved);
        proof {
            assert(role_ids(role_views(resp.roles@)).to_set() =~= ids@.to_set());
            assert(self@.roles == pre_rec.roles);
            if roles is Some {
                let rs = roles->0;
                assert forall|k: int|
                    0 <= k < resp.roles@.len() implies ref_resolves_to(
                    self@,
                    #[trigger] web_role_views(rs@)[k],
                    role_views(resp.roles@)[k],
                ) by {
                    assert(role_views(resp.roles@)[k] == role_views(resolved_snap)[k]);
                    assert(ref_resolves_to(
                        pre_rec,
                        web_role_views(rs@)[k],
                        role_views(resolved_snap)[k],
                    ));
                    assert(pre_rec.roles.contains(role_views(resolved_snap)[k]));
                    let w = choose|w: int|
                        0 <= w < pre_rec.roles.len() && pre_rec.roles[w] == role_views(
                            resolved_snap,
                        )[k];
                    assert(self@.roles[w] == role_views(resp.roles@)[k]);
                    assert(self@.roles.contains(role_views(resp.roles@)[k]));
                }
            } else {
                assert(self@.memberships == old(self)@.memberships);
                assert(self@.roles == old(self)@.roles);
                assert forall|k: int|
                    0 <= k < resp.roles@.len() implies self@.roles.contains(
                    #[trigger] role_views(resp.roles@)[k],
                ) && edge_role_ids(old(self)@.memberships, uid).contains(
                    role_views(resp.roles@)[k].id,
                ) by {
                    assert(role_views(resp.roles@)[k] == role_views(resolved_snap)[k]);
                }
            }
            if edge_role_ids(old(self)@.memberships, uid).to_set() == role_ids(
                role_views(resp.roles@),
            ).to_set() {
                if roles is Some {
                    assert(edge_role_ids(pre_rec.memberships, uid).to_set() == ids@.to_set());
                    assert(self@.memberships == pre_rec.memberships);
                }
            }
        }
        Ok(resp)
    }

    /// All users, each with its resolved role set.
    pub fn list_users(&self) -> (r: Vec<DbGatewayUserResponse>)
        requires
            self@.wf(),
        ensures
            r@.len() == self@.users.len(),
            forall|k: int|
                0 <= k < r@.len() ==> (#[trigger] r@[k]).id == self@.users[k].id && r@[k].username@
                    == self@.users[k].username,
    {
        let mut out: Vec<DbGatewayUserResponse> = Vec::new();
        let mut i: usize = 0;
        while i < self.users.len()
            invariant
                self@.wf(),
                i <= self@.users.len(),
                self@.users.len() == self.users@.len(),
                out@.len() == i,
                forall|k: int|
                    0 <= k < i ==> (#[trigger] out@[k]).id == self@.users[k].id && out@[k].username@
                        == self@.users[k].username,
            decreases self@.users.len() - i,
        {
            let record = self.users[i].clone();
            let roles = self.user_roles(record.id);
            out.push(record.with_roles(roles));
            i = i + 1;
        }
        out
    }

    /// Opens a password-reset request for the named user, expiring
    /// one lifetime from now.  Whether the username exists is not
    /// revealed to web callers; this storage-level operation does
    /// distinguish, and the web layer hides it.
    pub fn request_password_reset(&mut self, username: &String, now: u64) -> (r: Result<
        PasswordResetRequest,
        GatewayError,
    >)
        requires
            old(self)@.wf(),
            now <= u64::MAX - crate::auth::RESET_REQUEST_LIFETIME_SECS,
        ensures
            final(self)@.wf(),
            final(self)@.services == old(self)@.services,
            final(self)@.roles == old(self)@.roles,
            final(self)@.authorizations == old(self)@.authorizations,
            final(self)@.memberships == old(self)@.memberships,
            final(self)@.users == old(self)@.users,
            r is Ok <==> has_username(old(self)@.users, username@) && old(self)@.next_id
                < u64::MAX,
            r matches Ok(req) ==> req@.id == old(self)@.next_id && req@.used == false
                && req@.expires_at == now + crate::auth::RESET_REQUEST_LIFETIME_SECS
                && has_user_id(old(self)@.users, req@.user_id) && exists|k: int|
                0 <= k < old(self)@.users.len() && (#[trigger] old(self)@.users[k]).id
                    == req@.user_id && old(self)@.users[k].username == username@,
            r matches Ok(req) ==> final(self)@.reset_requests == old(self)@.reset_requests.push(
                req@,
            ) && final(self)@.next_id == old(self)@.next_id + 1,
            r is Err ==> final(self)@ == old(self)@,
            r matches Err(e) ==> e is NotFound || e is DatabaseError,
            r matches Err(e) ==> (e is NotFound <==> !has_username(old(self)@.users, username@)),
    {
        let idx = match self.user_index_by_username(username.as_str()) {
            Some(k) => k,
            None => {
                return Err(
                    GatewayError::NotFound(
                        "User".to_owned(),
                        "Could not find user to request password reset".to_owned(),
                    ),
                );
            },
        };
        if self.next_id == u64::MAX {
            return Err(GatewayError::DatabaseError("Record id space exhausted".to_owned()));
        }
        let uid = self.users[idx].id;
        let reset = PasswordResetRequest {
            id: self.next_id,
            user_id: uid,
            used: false,
            expires_at: now + crate::auth::RESET_REQUEST_LIFETIME_SECS,
            last_modified: now,
        };
        let returned = reset.clone();
        let ghost pre = self@;
        self.reset_requests.push(reset);
        self.next_id = self.next_id + 1;
        proof {
            assert(pre == old(self)@);
            assert(self@.services == pre.services);
            assert(self@.roles == pre.roles);
            assert(self@.authorizations == pre.authorizations);
            assert(self@.memberships == pre.memberships);
            assert(self@.users == pre.users);
            assert(self@.reset_requests =~= pre.reset_requests.push(returned@));
            assert(has_user_id(pre.users, uid)) by {
                assert(pre.users[idx as int].id == uid);
            }
            assert forall|a: int, b: int|
                0 <= a < b < self@.reset_requests.len() implies self@.reset_requests[a].id
                != self@.reset_requests[b].id by {
                if b < pre.reset_requests.len() {
                } else {
                    assert(pre.reset_requests[a].id < pre.next_id);
                }
            }
            assert forall|k: int|
                0 <= k < self@.reset_requests.len() implies self@.reset_requests[k].id
                < self@.next_id by {
                if k < pre.reset_requests.len() {
                    assert(pre.reset_requests[k].id < pre.next_id);
                }
            }
            assert forall|k: int| 0 <= k < self@.services.len() implies self@.services[k].id
                < self@.next_id by {
                assert(pre.services[k].id < pre.next_id);
            }
            assert forall|k: int| 0 <= k < self@.roles.len() implies self@.roles[k].id
                < self@.next_id by {
                assert(pre.roles[k].id < pre.next_id);
            }
            assert forall|k: int| 0 <= k < self@.users.len() implies self@.users[k].id
                < self@.next_id by {
                assert(pre.users[k].id < pre.next_id);
            }
        }
        Ok(returned)
    }

    /// Redeems a password-reset request: the request must exist, be
    /// unused and unexpired, and name the claimed user.  On success
    /// the new hash is stored, the reset time stamped, and the
    /// request marked used — all three together, or nothing.
    pub fn set_user_password_with_reset_token(
        &mut self,
        reset_token: &String,
        username: &String,
        new_hash: &String,
        now: u64,
    ) -> (r: Result<(), GatewayError>)
        requires
            old(self)@.wf(),
        ensures
            final(self)@.wf(),
            final(self)@.services == old(self)@.services,
            final(self)@.roles == old(self)@.roles,
            final(self)@.authorizations == old(self)@.authorizations,
            final(self)@.memberships == old(self)@.memberships,
            final(self)@.next_id == old(self)@.next_id,
            r is Ok <==> redeemable(old(self)@, reset_token@, username@, now),
            r is Ok ==> exists|k: int, j: int|
                #[trigger] redeem_witness(old(self)@, reset_token@, username@, now, k, j)
                    && final(self)@.users == old(self)@.users.update(
                    j,
                    UserView {
                        password_hash: Some(new_hash@),
                        password_reset_at: Some(now),
                        last_modified_date: now,
                        ..old(self)@.users[j]
                    },
                ) && final(self)@.reset_requests == old(self)@.reset_requests.update(
                    k,
                    ResetView { used: true, last_modified: now, ..old(self)@.reset_requests[k] },
                ),
            r is Err ==> final(self)@ == old(self)@,
            r matches Err(e) ==> e is BadRequest,
    {
        let k = match self.reset_index_by_web_id(reset_token.as_str()) {
            Some(k) => k,
            None => {
                proof {
                    assert(!redeemable(self@, reset_token@, username@, now)) by {
                        if redeemable(self@, reset_token@, username@, now) {
                            let (k2, j2) = choose|k2: int, j2: int|
                                redeem_witness(self@, reset_token@, username@, now, k2, j2);
                            assert(reset_token@ != digits_of(self@.reset_requests[k2].id as nat));
                        }
                    }
                }
                return Err(
                    GatewayError::BadRequest("Invalid Password Reset Request".to_owned()),
                );
            },
        };
        proof {
            assert forall|k2: int|
                0 <= k2 < self@.reset_requests.len() && reset_token@ == digits_of(
                    (#[trigger] self@.reset_requests[k2]).id as nat,
                ) implies k2 == k by {
                if k2 != k {
                    crate::text::lemma_digits_of_val(self@.reset_requests[k2].id as nat);
                    crate::text::lemma_digits_of_val(self@.reset_requests[k as int].id as nat);
                    assert(self@.reset_requests[k2].id == self@.reset_requests[k as int].id);
                }
            }
        }
        let request = &self.reset_requests[k];
        if request.used {
            proof {
                assert(!redeemable(self@, reset_token@, username@, now)) by {
                    if redeemable(self@, reset_token@, username@, now) {
                        let (k2, j2) = choose|k2: int, j2: int|
                            redeem_witness(self@, reset_token@, username@, now, k2, j2);
                        assert(k2 == k);
                    }
                }
            }
            return Err(
                GatewayError::BadRequest(
                    "Password Reset Request has already been fulfilled.".to_owned(),
                ),
            );
        }
        if request.expires_at < now {
            proof {
                assert(!redeemable(self@, reset_token@, username@, now)) by {
                    if redeemable(self@, reset_token@, username@, now) {
                        let (k2, j2) = choose|k2: int, j2: int|
                            redeem_witness(self@, reset_token@, username@, now, k2, j2);
                        assert(k2 == k);
                    }
                }
            }
            return Err(GatewayError::BadRequest("Password Reset Request has expired.".to_owned()));
        }
        let target_uid = request.user_id;
        let j = match self.user_index_by_id(target_uid) {
            Some(j) => j,
            None => {
                proof {
                    assert(!redeemable(self@, reset_token@, username@, now)) by {
                        if redeemable(self@, reset_token@, username@, now) {
                            let (k2, j2) = choose|k2: int, j2: int|
                                redeem_witness(self@, reset_token@, username@, now, k2, j2);
                            assert(k2 == k);
                            assert(self@.users[j2].id == target_uid);
                            assert(has_user_id(self@.users, target_uid));
                        }
                    }
                }
                return Err(
                    GatewayError::BadRequest("Invalid Password Reset Request".to_owned()),
                );
            },
        };
        if !str_eq(self.users[j].username.as_str(), username.as_str()) {
            proof {
                assert(!redeemable(self@, reset_token@, username@, now)) by {
                    if redeemable(self@, reset_token@, username@, now) {
                        let (k2, j2) = choose|k2: int, j2: int|
                            redeem_witness(self@, reset_token@, username@, now, k2, j2);
                        assert(k2 == k);
                        assert(j2 == j) by {
                            if j2 != j {
                                assert(self@.users[j2].id != self@.users[j as int].id);
                            }
                        }
                    }
                }
            }
            return Err(GatewayError::BadRequest("Invalid Password Reset Request".to_owned()));
        }
        let ghost pre = self@;
        proof {
            assert(pre == old(self)@);
            assert(redeem_witness(pre, reset_token@, username@, now, k as int, j as int));
            assert(redeemable(pre, reset_token@, username@, now));
        }
        let old_user = &self.users[j];
        let new_user = DbGatewayUserRecord {
            password_hash: Some(new_hash.clone()),
            password_reset_at: Some(now),
            last_modified_date: now,
            ..old_user.clone()
        };
        let ghost nuv = new_user@;
        self.users.set(j, new_user);
        proof {
            assert(self@.users =~= pre.users.update(j as int, nuv));
            self.lemma_users_update_wf(pre, j as int, nuv);
        }
        let ghost mid = self@;
        let old_req = &self.reset_requests[k];
        let new_req = PasswordResetRequest { used: true, last_modified: now, ..old_req.clone() };
        let ghost nrv = new_req@;
        self.reset_requests.set(k, new_req);
        proof {
            assert(self@.services == mid.services);
            assert(self@.roles == mid.roles);
            assert(self@.authorizations == mid.authorizations);
            assert(self@.memberships == mid.memberships);
            assert(self@.users == mid.users);
            assert(self@.next_id == mid.next_id);
            assert(self@.reset_requests =~= mid.reset_requests.update(k as int, nrv));
            assert forall|a: int, b: int|
                0 <= a < b < self@.reset_requests.len() implies self@.reset_requests[a].id
                != self@.reset_requests[b].id by {
                assert(self@.reset_requests[a].id == pre.reset_requests[a].id);
                assert(self@.reset_requests[b].id == pre.reset_requests[b].id);
            }
            assert forall|t: int|
                0 <= t < self@.reset_requests.len() implies self@.reset_requests[t].id
                < self@.next_id by {
                assert(self@.reset_requests[t].id == pre.reset_requests[t].id);
                assert(pre.reset_requests[t].id < pre.next_id);
            }
            assert(mid.wf());
            assert(self@.reset_requests == pre.reset_requests.update(
                k as int,
                ResetView { used: true, last_modified: now, ..pre.reset_requests[k as int] },
            ));
            assert(self@.users == pre.users.update(
                j as int,
                UserView {
                    password_hash: Some(new_hash@),
                    password_reset_at: Some(now),
                    last_modified_date: now,
                    ..pre.users[j as int]
                },
            ));
            assert(redeem_witness(pre, reset_token@, username@, now, k as int, j as int)
                && self@.users == pre.users.update(
                j as int,
                UserView {
                    password_hash: Some(new_hash@),
                    password_reset_at: Some(now),
                    last_modified_date: now,
                    ..pre.users[j as int]
                },
            ) && self@.reset_requests == pre.reset_requests.update(
                k as int,
                ResetView { used: true, last_modified: now, ..pre.reset_requests[k as int] },
            ));
        }
        Ok(())
    }
}

} // verus!
