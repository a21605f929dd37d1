//! Data model for API services and roles.
//!
//! A role is displayed and compared as the qualified string
//! `namespace::name`.  A role whose name equals the namespace-member
//! sentinel is not a real permission: it denotes "member of the
//! namespace" and is used only for wildcard authorization.

use vstd::prelude::*;

verus! {

use crate::text::{digits_val, format_u64, is_canonical_digits, qualified};

/// The reserved role name that denotes blanket namespace membership.
pub fn namespace_member_role() -> (r: &'static str)
    ensures
        r@ == member_role_name(),
{
    "__ROLE_NAMESPACE_MEMBER__"
}

/// The view of the namespace-member sentinel.
pub open spec fn member_role_name() -> Seq<char> {
    "__ROLE_NAMESPACE_MEMBER__"@
}

/// Mathematical image of a stored role.
pub struct RoleView {
    pub id: u64,
    pub namespace: Seq<char>,
    pub name: Seq<char>,
}

/// Mathematical image of a web-facing role reference.
pub struct WebRoleView {
    pub id: Option<Seq<char>>,
    pub namespace: Seq<char>,
    pub name: Seq<char>,
}

/// A stored role, with its record identity.
pub struct DbApiRole {
    pub id: u64,
    pub namespace: String,
    pub name: String,
}

impl View for DbApiRole {
    type V = RoleView;

    open spec fn view(&self) -> RoleView {
        RoleView { id: self.id, namespace: self.namespace@, name: self.name@ }
    }
}

impl Clone for DbApiRole {
    fn clone(&self) -> (r: Self)
        ensures
            r@ == self@,
    {
        DbApiRole { id: self.id, namespace: self.namespace.clone(), name: self.name.clone() }
    }
}

/// A role as it crosses the web boundary: the identity, when present,
/// is the decimal rendering of a record id.
pub struct WebApiRole {
    pub id: Option<String>,
    pub namespace: String,
    pub name: String,
}

impl View for WebApiRole {
    type V = WebRoleView;

    open spec fn view(&self) -> WebRoleView {
        WebRoleView {
            id: match self.id {
                Some(s) => Some(s@),
                None => None,
            },
            namespace: self.namespace@,
            name: self.name@,
        }
    }
}

impl Clone for WebApiRole {
    fn clone(&self) -> (r: Self)
        ensures
            r@ == self@,
    {
        WebApiRole {
            id: match &self.id {
                Some(s) => Some(s.clone()),
                None => None,
            },
            namespace: self.namespace.clone(),
            name: self.name.clone(),
        }
    }
}

/// The qualified `namespace::name` form of a role.
pub open spec fn role_qualified(r: RoleView) -> Seq<char> {
    qualified(r.namespace, r.name)
}

impl DbApiRole {
    /// Renders this role as `namespace::name`.
    pub fn qualified_string(&self) -> (r: String)
        ensures
            r@ == role_qualified(self@),
    {
        crate::text::qualified_name(self.namespace.as_str(), self.name.as_str())
    }

    /// The web-facing form of this role.
    pub fn to_web(&self) -> (r: WebApiRole)
        ensures
            r@.namespace == self@.namespace,
            r@.name == self@.name,
            r@.id matches Some(s) && is_canonical_digits(s) && digits_val(s) == self.id as nat,
    {
        WebApiRole {
            id: Some(format_u64(self.id)),
            namespace: self.namespace.clone(),
            name: self.name.clone(),
        }
    }
}

/// Mathematical image of a stored service record.
pub struct ServiceView {
    pub id: u64,
    pub api_name: Seq<char>,
    pub forward_url: Seq<char>,
    pub active: bool,
    pub version: Seq<char>,
    pub environment: Seq<char>,
}

/// The fields of a service as handed to storage on creation.
pub struct DbApiServiceRequest {
    pub api_name: String,
    pub forward_url: String,
    pub active: bool,
    pub version: String,
    pub environment: String,
}

/// A stored service record, with its record identity.
pub struct DbApiServiceRecord {
    pub id: u64,
    pub api_name: String,
    pub forward_url: String,
    pub active: bool,
    pub version: String,
    pub environment: String,
}

impl View for DbApiServiceRecord {
    type V = ServiceView;

    open spec fn view(&self) -> ServiceView {
        ServiceView {
            id: self.id,
            api_name: self.api_name@,
            forward_url: self.forward_url@,
            active: self.active,
            version: self.version@,
            environment: self.environment@,
        }
    }
}

impl Clone for DbApiServiceRecord {
    fn clone(&self) -> (r: Self)
        ensures
            r@ == self@,
    {
        DbApiServiceRecord {
            id: self.id,
            api_name: self.api_name.clone(),
            forward_url: self.forward_url.clone(),
            active: self.active,
            version: self.version.clone(),
            environment: self.environment.clone(),
        }
    }
}

/// A service record together with its full authorized-role set.
pub struct DbFullApiService {
    pub id: u64,
    pub api_name: String,
    pub forward_url: String,
    pub active: bool,
    pub version: String,
    pub environment: String,
    pub roles: Vec<DbApiRole>,
}

/// Mathematical image of a service together with its role set.
pub struct FullServiceView {
    pub svc: ServiceView,
    pub roles: Seq<RoleView>,
}

impl View for DbFullApiService {
    type V = FullServiceView;

    open spec fn view(&self) -> FullServiceView {
        FullServiceView {
            svc: ServiceView {
                id: self.id,
                api_name: self.api_name@,
                forward_url: self.forward_url@,
                active: self.active,
                version: self.version@,
                environment: self.environment@,
            },
            roles: role_views(self.roles@),
        }
    }
}

impl DbApiServiceRecord {
    /// Pairs this record with its authorized roles.
    pub fn with_roles(&self, roles: Vec<DbApiRole>) -> (r: DbFullApiService)
        ensures
            r.id == self.id,
            r.api_name@ == self.api_name@,
            r.forward_url@ == self.forward_url@,
            r.active == self.active,
            r.version@ == self.version@,
            r.environment@ == self.environment@,
            r.roles@ == roles@,
    {
        DbFullApiService {
            id: self.id,
            api_name: self.api_name.clone(),
            forward_url: self.forward_url.clone(),
            active: self.active,
            version: self.version.clone(),
            environment: self.environment.clone(),
            roles,
        }
    }
}

/// A service registration as it arrives over the web.
pub struct WebRequestApiService {
    pub api_name: String,
    pub version: String,
    pub forward_url: String,
    pub active: bool,
    pub role_namespaces: Vec<String>,
    pub roles: Vec<WebApiRole>,
    pub environment: String,
}

/// A namespace rendered as the role reference that grants blanket
/// membership of it.
pub open spec fn member_role_of(ns: Seq<char>) -> WebRoleView {
    WebRoleView { id: None, namespace: ns, name: member_role_name() }
}

/// The complete role set a web request asks for: its concrete roles
/// followed by one namespace-member role per listed namespace.
pub open spec fn requested_roles(
    roles: Seq<WebApiRole>,
    namespaces: Seq<String>,
) -> Seq<WebRoleView> {
    web_role_views(roles) + namespaces.map_values(|ns: String| member_role_of(ns@))
}

/// Turns a list of namespaces into namespace-member role references,
/// appending them to `out`.
fn push_member_roles(out: &mut Vec<WebApiRole>, namespaces: &Vec<String>)
    ensures
        web_role_views(final(out)@) == web_role_views(old(out)@) + namespaces@.map_values(
            |ns: String| member_role_of(ns@),
        ),
{
    let ghost base = web_role_views(out@);
    let mut i: usize = 0;
    while i < namespaces.len()
        invariant
            i <= namespaces@.len(),
            web_role_views(out@) =~= base + namespaces@.subrange(0, i as int).map_values(
                |ns: String| member_role_of(ns@),
            ),
        decreases namespaces@.len() - i,
    {
        let ns = namespaces[i].clone();
        let role = WebApiRole {
            id: None,
            namespace: ns,
            name: namespace_member_role().to_owned(),
        };
        let ghost pre = out@;
        out.push(role);
        proof {
            assert(role@ == member_role_of(namespaces@[i as int]@));
            assert(web_role_views(out@) =~= web_role_views(pre).push(
                member_role_of(namespaces@[i as int]@),
            ));
            assert(namespaces@.subrange(0, i as int + 1) =~= namespaces@.subrange(
                0,
                i as int,
            ).push(namespaces@[i as int]));
            assert(namespaces@.subrange(0, i as int + 1).map_values(
                |ns: String| member_role_of(ns@),
            ) =~= namespaces@.subrange(0, i as int).map_values(
                |ns: String| member_role_of(ns@),
            ).push(member_role_of(namespaces@[i as int]@)));
            assert(web_role_views(out@) =~= base + namespaces@.subrange(0, i as int + 1).map_values(
                |ns: String| member_role_of(ns@),
            ));
        }
        i = i + 1;
    }
    proof {
        assert(namespaces@.subrange(0, namespaces@.len() as int) =~= namespaces@);
    }
}

impl WebRequestApiService {
    /// The full role set this registration asks for, concrete roles
    /// first, then one namespace-member role per listed namespace.
    pub fn all_roles(&self) -> (r: Vec<WebApiRole>)
        ensures
            web_role_views(r@) == requested_roles(self.roles@, self.role_namespaces@),
    {
        let mut out: Vec<WebApiRole> = Vec::new();
        let mut i: usize = 0;
        while i < self.roles.len()
            invariant
                i <= self.roles@.len(),
                web_role_views(out@) =~= web_role_views(self.roles@.subrange(0, i as int)),
            decreases self.roles@.len() - i,
        {
            let ghost pre = out@;
            out.push(self.roles[i].clone());
            proof {
                assert(web_role_views(out@) =~= web_role_views(pre).push(self.roles@[i as int]@));
                assert(self.roles@.subrange(0, i as int + 1) =~= self.roles@.subrange(
                    0,
                    i as int,
                ).push(self.roles@[i as int]));
                assert(web_role_views(self.roles@.subrange(0, i as int + 1)) =~= web_role_views(
                    self.roles@.subrange(0, i as int),
                ).push(self.roles@[i as int]@));
            }
            i = i + 1;
        }
        proof {
            assert(self.roles@.subrange(0, self.roles@.len() as int) =~= self.roles@);
        }
        push_member_roles(&mut out, &self.role_namespaces);
        out
    }

    /// The storage-facing part of this registration.
    pub fn to_db_request(&self) -> (r: DbApiServiceRequest)
        ensures
            r.api_name@ == self.api_name@,
            r.forward_url@ == self.forward_url@,
            r.active == self.active,
            r.version@ == self.version@,
            r.environment@ == self.environment@,
    {
        DbApiServiceRequest {
            api_name: self.api_name.clone(),
            forward_url: self.forward_url.clone(),
            active: self.active,
            version: self.version.clone(),
            environment: self.environment.clone(),
        }
    }
}

/// A partial service update: only the present fields are applied.
pub struct WebRequestPartialApiService {
    pub api_name: Option<String>,
    pub forward_url: Option<String>,
    pub active: Option<bool>,
    pub version: Option<String>,
    pub role_namespaces: Option<Vec<String>>,
    pub roles: Option<Vec<WebApiRole>>,
    pub environment: Option<String>,
}

impl WebRequestPartialApiService {
    /// The full role set this update asks for, concrete roles first,
    /// then one namespace-member role per listed namespace; absent
    /// lists contribute nothing.
    pub fn all_roles(&self) -> (r: Vec<WebApiRole>)
        ensures
            web_role_views(r@) == partial_requested(*self),
    {
        let mut out: Vec<WebApiRole> = Vec::new();
        if let Some(rs) = &self.roles {
            let mut i: usize = 0;
            while i < rs.len()
                invariant
                    i <= rs@.len(),
                    web_role_views(out@) =~= web_role_views(rs@.subrange(0, i as int)),
                decreases rs@.len() - i,
            {
                let ghost pre = out@;
                out.push(rs[i].clone());
                proof {
                    assert(web_role_views(out@) =~= web_role_views(pre).push(rs@[i as int]@));
                    assert(rs@.subrange(0, i as int + 1) =~= rs@.subrange(0, i as int).push(
                        rs@[i as int],
                    ));
                    assert(web_role_views(rs@.subrange(0, i as int + 1)) =~= web_role_views(
                        rs@.subrange(0, i as int),
                    ).push(rs@[i as int]@));
                }
                i = i + 1;
            }
            proof {
                assert(rs@.subrange(0, rs@.len() as int) =~= rs@);
            }
        } else {
            proof {
                assert(web_role_views(out@) =~= web_role_views(Seq::<WebApiRole>::empty()));
            }
        }
        if let Some(ns) = &self.role_namespaces {
            push_member_roles(&mut out, ns);
        } else {
            proof {
                assert(web_role_views(out@) + Seq::<String>::empty().map_values(
                    |ns: String| member_role_of(ns@),
                ) =~= web_role_views(out@));
            }
        }
        out
    }
}

/// The web-facing form of a stored service: namespace-member roles
/// are folded back into the `role_namespaces` list.
pub struct WebResponseApiService {
    pub id: String,
    pub api_name: String,
    pub forward_url: String,
    pub active: bool,
    pub version: String,
    pub role_namespaces: Vec<String>,
    pub roles: Vec<WebApiRole>,
    pub environment: String,
}

/// The views of a sequence of stored roles.
pub open spec fn role_views(s: Seq<DbApiRole>) -> Seq<RoleView> {
    s.map_values(|x: DbApiRole| x@)
}

/// The views of a sequence of web-facing role references.
pub open spec fn web_role_views(s: Seq<WebApiRole>) -> Seq<WebRoleView> {
    s.map_values(|x: WebApiRole| x@)
}

/// The full role set a partial update asks for: its concrete roles
/// followed by one namespace-member role per listed namespace; an
/// absent list contributes nothing.
pub open spec fn partial_requested(p: WebRequestPartialApiService) -> Seq<WebRoleView> {
    requested_roles(
        match p.roles {
            Some(rs) => rs@,
            None => Seq::empty(),
        },
        match p.role_namespaces {
            Some(ns) => ns@,
            None => Seq::empty(),
        },
    )
}

/// The views of a sequence of strings.
pub open spec fn string_views(s: Seq<String>) -> Seq<Seq<char>> {
    s.map_values(|x: String| x@)
}

/// The namespaces of the namespace-member roles of `s`, in order.
pub open spec fn member_namespaces(s: Seq<RoleView>) -> Seq<Seq<char>> {
    s.filter(|v: RoleView| v.name == member_role_name()).map_values(|v: RoleView| v.namespace)
}

/// The namespaces of the concrete (non-sentinel) roles of `s`, in order.
pub open spec fn concrete_role_namespaces(s: Seq<RoleView>) -> Seq<Seq<char>> {
    s.filter(|v: RoleView| v.name != member_role_name()).map_values(|v: RoleView| v.namespace)
}

/// The names of the concrete (non-sentinel) roles of `s`, in order.
pub open spec fn concrete_role_names(s: Seq<RoleView>) -> Seq<Seq<char>> {
    s.filter(|v: RoleView| v.name != member_role_name()).map_values(|v: RoleView| v.name)
}

impl DbFullApiService {
    /// The web-facing form of this service.  Roles carrying the
    /// namespace-member sentinel become entries of `role_namespaces`;
    /// the rest are rendered as web roles in order.
    pub fn to_web_response(&self) -> (r: WebResponseApiService)
        ensures
            is_canonical_digits(r.id@) && digits_val(r.id@) == self.id as nat,
            r.api_name@ == self.api_name@,
            r.forward_url@ == self.forward_url@,
            r.active == self.active,
            r.version@ == self.version@,
            r.environment@ == self.environment@,
            string_views(r.role_namespaces@) == member_namespaces(role_views(self.roles@)),
            r.roles@.map_values(|x: WebApiRole| x@.namespace) == concrete_role_namespaces(
                role_views(self.roles@),
            ),
            r.roles@.map_values(|x: WebApiRole| x@.name) == concrete_role_names(
                role_views(self.roles@),
            ),
    {
        let mut namespaces: Vec<String> = Vec::new();
        let mut web_roles: Vec<WebApiRole> = Vec::new();
        let sentinel = namespace_member_role();
        let mut i: usize = 0;
        while i < self.roles.len()
            invariant
                i <= self.roles@.len(),
                sentinel@ == member_role_name(),
                string_views(namespaces@) == member_namespaces(
                    role_views(self.roles@.subrange(0, i as int)),
                ),
                web_roles@.map_values(|x: WebApiRole| x@.namespace) == concrete_role_namespaces(
                    role_views(self.roles@.subrange(0, i as int)),
                ),
                web_roles@.map_values(|x: WebApiRole| x@.name) == concrete_role_names(
                    role_views(self.roles@.subrange(0, i as int)),
                ),
            decreases self.roles@.len() - i,
        {
            let ghost prefix = role_views(self.roles@.subrange(0, i as int));
            let ghost v = self.roles@[i as int]@;
            let ghost pre_ns = namespaces@;
            let ghost pre_roles = web_roles@;
            let role = &self.roles[i];
            let is_member = crate::text::str_eq(role.name.as_str(), sentinel);
            if is_member {
                namespaces.push(role.namespace.clone());
                proof {
                    assert(string_views(namespaces@) =~= string_views(pre_ns).push(
                        self.roles@[i as int]@.namespace,
                    ));
                }
            } else {
                web_roles.push(role.to_web());
                proof {
                    assert(web_roles@.map_values(|x: WebApiRole| x@.namespace) =~= pre_roles
                        .map_values(|x: WebApiRole| x@.namespace).push(
                        self.roles@[i as int]@.namespace,
                    ));
                    assert(web_roles@.map_values(|x: WebApiRole| x@.name) =~= pre_roles.map_values(
                        |x: WebApiRole| x@.name,
                    ).push(self.roles@[i as int]@.name));
                }
            }
            proof {
                assert(self.roles@.subrange(0, i as int + 1) =~= self.roles@.subrange(
                    0,
                    i as int,
                ).push(self.roles@[i as int]));
                assert(role_views(self.roles@.subrange(0, i as int + 1)) =~= prefix.push(v));
                lemma_role_split_push(prefix, v);
                if is_member {
                    assert(v.name == member_role_name());
                    assert(member_namespaces(prefix.push(v)) == member_namespaces(prefix).push(
                        v.namespace,
                    ));
                    assert(string_views(namespaces@) == string_views(pre_ns).push(v.namespace));
                    assert(string_views(namespaces@) == member_namespaces(
                        role_views(self.roles@.subrange(0, i as int + 1)),
                    ));
                } else {
                    assert(v.name != member_role_name());
                    assert(web_roles@.map_values(|x: WebApiRole| x@.namespace)
                        == concrete_role_namespaces(
                        role_views(self.roles@.subrange(0, i as int + 1)),
                    ));
                    assert(web_roles@.map_values(|x: WebApiRole| x@.name) == concrete_role_names(
                        role_views(self.roles@.subrange(0, i as int + 1)),
                    ));
                }
            }
            i = i + 1;
        }
        proof {
            assert(self.roles@.subrange(0, self.roles@.len() as int) =~= self.roles@);
        }
        WebResponseApiService {
            id: format_u64(self.id),
            api_name: self.api_name.clone(),
            forward_url: self.forward_url.clone(),
            active: self.active,
            version: self.version.clone(),
            role_namespaces: namespaces,
            roles: web_roles,
            environment: self.environment.clone(),
        }
    }
}

/// How one more role extends the split into namespace entries and
/// concrete roles.
pub proof fn lemma_role_split_push(prefix: Seq<RoleView>, v: RoleView)
    ensures
        member_namespaces(prefix.push(v)) == if v.name == member_role_name() {
            member_namespaces(prefix).push(v.namespace)
        } else {
            member_namespaces(prefix)
        },
        concrete_role_namespaces(prefix.push(v)) == if v.name != member_role_name() {
            concrete_role_namespaces(prefix).push(v.namespace)
        } else {
            concrete_role_namespaces(prefix)
        },
        concrete_role_names(prefix.push(v)) == if v.name != member_role_name() {
            concrete_role_names(prefix).push(v.name)
        } else {
            concrete_role_names(prefix)
        },
{
    reveal(Seq::filter);
    assert(prefix.push(v).drop_last() =~= prefix);
    assert(prefix.push(v).last() == v);
    if v.name == member_role_name() {
        assert(prefix.push(v).filter(|x: RoleView| x.name == member_role_name()) =~= prefix.filter(
            |x: RoleView| x.name == member_role_name(),
        ).push(v));
        assert(member_namespaces(prefix.push(v)) =~= member_namespaces(prefix).push(v.namespace));
        assert(prefix.push(v).filter(|x: RoleView| x.name != member_role_name()) =~= prefix.filter(
            |x: RoleView| x.name != member_role_name(),
        ));
        assert(concrete_role_namespaces(prefix.push(v)) =~= concrete_role_namespaces(prefix));
        assert(concrete_role_names(prefix.push(v)) =~= concrete_role_names(prefix));
    } else {
        assert(prefix.push(v).filter(|x: RoleView| x.name != member_role_name()) =~= prefix.filter(
            |x: RoleView| x.name != member_role_name(),
        ).push(v));
        assert(concrete_role_namespaces(prefix.push(v)) =~= concrete_role_namespaces(prefix).push(
            v.namespace,
        ));
        assert(concrete_role_names(prefix.push(v)) =~= concrete_role_names(prefix).push(v.name));
        assert(prefix.push(v).filter(|x: RoleView| x.name == member_role_name()) =~= prefix.filter(
            |x: RoleView| x.name == member_role_name(),
        ));
        assert(member_namespaces(prefix.push(v)) =~= member_namespaces(prefix));
    }
}

/// Errors of the service-management surface.
pub enum ApiServiceError {
    ServiceNotFound(String),
    MissingData(String),
    DatabaseError(String),
    NotImplemented(String),
}

impl ApiServiceError {
    /// The HTTP status code this error is reported with.
    pub fn status_code(&self) -> (r: u16)
        ensures
            r == match *self {
                ApiServiceError::ServiceNotFound(_) => 404u16,
                ApiServiceError::MissingData(_) => 400u16,
                ApiServiceError::DatabaseError(_) => 500u16,
                ApiServiceError::NotImplemented(_) => 500u16,
            },
    {
        match self {
            ApiServiceError::ServiceNotFound(_) => 404,
            ApiServiceError::MissingData(_) => 400,
            ApiServiceError::DatabaseError(_) => 500,
            ApiServiceError::NotImplemented(_) => 500,
        }
    }
}

} // verus!
