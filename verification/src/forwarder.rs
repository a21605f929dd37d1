//! The forwarding engine's decision logic: path resolution, target
//! URL composition and header rewriting.
//!
//! The byte-stream relay itself is I/O and lives with the HTTP
//! server; everything it needs to decide is computed here.

use vstd::prelude::*;

verus! {

use crate::api_services::{string_views, FullServiceView};
use crate::authz::{authorized, check_aud_authorized};
use crate::errors::GatewayError;
use crate::store::{edge_role_ids, has_active_service, role_ids, GatewayStore};

/// `p` decomposes as `/<name>/<version>/<rest>` where `name` and
/// `version` contain no further slash.
pub open spec fn forward_path_form(
    p: Seq<char>,
    name: Seq<char>,
    version: Seq<char>,
    rest: Seq<char>,
) -> bool {
    p == seq!['/'] + name + seq!['/'] + version + seq!['/'] + rest && !name.contains('/')
        && !version.contains('/')
}

/// A path the forwarder can route: `/<segment>/<segment>/<rest>`.
pub open spec fn valid_forward_path(p: Seq<char>) -> bool {
    exists|name: Seq<char>, version: Seq<char>, rest: Seq<char>|
        forward_path_form(p, name, version, rest)
}

/// The first slash of `path` at or after `from`, if any.
fn find_slash(path: &str, from: usize) -> (r: Option<usize>)
    requires
        from <= path@.len(),
    ensures
        match r {
            Some(k) => from <= k < path@.len() && path@[k as int] == '/' && forall|t: int|
                from <= t < k ==> path@[t] != '/',
            None => forall|t: int| from <= t < path@.len() ==> path@[t] != '/',
        },
{
    let len = path.unicode_len();
    let mut i: usize = from;
    while i < len
        invariant
            from <= i <= len,
            len == path@.len(),
            forall|t: int| from <= t < i ==> path@[t] != '/',
        decreases len - i,
    {
        if path.get_char(i) == '/' {
            return Some(i);
        }
        i = i + 1;
    }
    None
}

/// Splits a request path into `(api_name, version, rest)`.
///
/// Exactly the paths of the form `/<segment>/<segment>/<rest>` are
/// accepted; any other shape is a bad request, decided before any
/// storage access.
pub fn parse_forward_path(path: &str) -> (r: Result<(String, String, String), GatewayError>)
    ensures
        r matches Ok(parts) ==> forward_path_form(path@, parts.0@, parts.1@, parts.2@),
        r is Err <==> !valid_forward_path(path@),
        r matches Err(e) ==> e is BadRequest,
{
    let len = path.unicode_len();
    if len == 0 || path.get_char(0) != '/' {
        proof {
            assert forall|n: Seq<char>, v: Seq<char>, e: Seq<char>|
                !forward_path_form(path@, n, v, e) by {
                if forward_path_form(path@, n, v, e) {
                    assert(path@[0] == '/');
                }
            }
        }
        return Err(GatewayError::BadRequest("Malformed forwarding path".to_owned()));
    }
    let s1 = match find_slash(path, 1) {
        Some(k) => k,
        None => {
            proof {
                assert forall|n: Seq<char>, v: Seq<char>, e: Seq<char>|
                    !forward_path_form(path@, n, v, e) by {
                    if forward_path_form(path@, n, v, e) {
                        let pos = 1 + n.len() as int;
                        assert(path@.len() == 3 + n.len() + v.len() + e.len());
                        assert(path@[pos] == '/');
                    }
                }
            }
            return Err(GatewayError::BadRequest("Malformed forwarding path".to_owned()));
        },
    };
    let s2 = match find_slash(path, s1 + 1) {
        Some(k) => k,
        None => {
            proof {
                assert forall|n: Seq<char>, v: Seq<char>, e: Seq<char>|
                    !forward_path_form(path@, n, v, e) by {
                    if forward_path_form(path@, n, v, e) {
                        let pos = 1 + n.len() as int;
                        assert(path@.len() == 3 + n.len() + v.len() + e.len());
                        assert(path@[pos] == '/');
                        if pos < s1 {
                            assert(false);
                        } else if pos > s1 {
                            assert(path@[s1 as int] == n[s1 - 1]);
                            assert(n.contains('/'));
                        } else {
                            let pos2 = 2 + n.len() + v.len() as int;
                            assert(path@[pos2] == '/');
                            assert(s1 + 1 <= pos2 < path@.len());
                        }
                    }
                }
            }
            return Err(GatewayError::BadRequest("Malformed forwarding path".to_owned()));
        },
    };
    let name = path.substring_char(1, s1).to_owned();
    let version = path.substring_char(s1 + 1, s2).to_owned();
    let rest = path.substring_char(s2 + 1, len).to_owned();
    proof {
        assert(path@ =~= seq!['/'] + name@ + seq!['/'] + version@ + seq!['/'] + rest@);
        assert(!name@.contains('/')) by {
            if name@.contains('/') {
                let k = choose|k: int| 0 <= k < name@.len() && name@[k] == '/';
                assert(path@[1 + k] == '/');
            }
        }
        assert(!version@.contains('/')) by {
            if version@.contains('/') {
                let k = choose|k: int| 0 <= k < version@.len() && version@[k] == '/';
                assert(path@[s1 + 1 + k] == '/');
            }
        }
        assert(forward_path_form(path@, name@, version@, rest@));
        assert(valid_forward_path(path@));
    }
    Ok((name, version, rest))
}

/// Composes the backend URL: `forward_url` + `/` + remaining path,
/// passed through verbatim.
pub fn compose_target_url(forward_url: &str, endpoint: &str) -> (r: String)
    ensures
        r@ == forward_url@ + "/"@ + endpoint@,
{
    let mut s = forward_url.to_owned();
    s.append("/");
    s.append(endpoint);
    s
}

/// The views of a header list.
pub open spec fn header_views(s: Seq<(String, String)>) -> Seq<(Seq<char>, Seq<char>)> {
    s.map_values(|kv: (String, String)| (kv.0@, kv.1@))
}

/// The inbound headers that are forwarded: all but `host`, which is
/// recomputed for the backend.
pub open spec fn kept_headers(h: Seq<(Seq<char>, Seq<char>)>) -> Seq<(Seq<char>, Seq<char>)> {
    h.filter(|kv: (Seq<char>, Seq<char>)| kv.0 != "host"@)
}

/// The proxy metadata headers, appended after the kept inbound ones
/// so existing forwarding chains are preserved.
pub open spec fn proxy_headers(
    real_ip: Seq<char>,
    forwarded_for: Seq<char>,
    scheme: Seq<char>,
    host: Seq<char>,
) -> Seq<(Seq<char>, Seq<char>)> {
    seq![
        ("X-Real-IP"@, real_ip),
        ("X-Forwarded-For"@, forwarded_for),
        ("X-Forwarded-Proto"@, scheme),
        ("X-Forwarded-Host"@, host),
    ]
}

/// How one more inbound header extends the kept list.
proof fn lemma_kept_headers_push(prefix: Seq<(Seq<char>, Seq<char>)>, kv: (Seq<char>, Seq<char>))
    ensures
        kept_headers(prefix.push(kv)) == if kv.0 != "host"@ {
            kept_headers(prefix).push(kv)
        } else {
            kept_headers(prefix)
        },
{
    reveal(Seq::filter);
    assert(prefix.push(kv).drop_last() =~= prefix);
    assert(prefix.push(kv).last() == kv);
    if kv.0 != "host"@ {
        assert(kept_headers(prefix.push(kv)) =~= kept_headers(prefix).push(kv));
    } else {
        assert(kept_headers(prefix.push(kv)) =~= kept_headers(prefix));
    }
}

/// Builds the outbound header list: every inbound header except
/// `host`, in order, followed by the four proxy metadata headers.
pub fn build_forward_headers(
    inbound: &Vec<(String, String)>,
    real_ip: &str,
    forwarded_for: &str,
    scheme: &str,
    host: &str,
) -> (r: Vec<(String, String)>)
    ensures
        header_views(r@) == kept_headers(header_views(inbound@)) + proxy_headers(
            real_ip@,
            forwarded_for@,
            scheme@,
            host@,
        ),
{
    let mut out: Vec<(String, String)> = Vec::new();
    let mut i: usize = 0;
    while i < inbound.len()
        invariant
            i <= inbound@.len(),
            header_views(out@) == kept_headers(header_views(inbound@.subrange(0, i as int))),
        decreases inbound@.len() - i,
    {
        let ghost prefix = header_views(inbound@.subrange(0, i as int));
        let ghost pre = out@;
        let kv = &inbound[i];
        if !crate::text::str_eq(kv.0.as_str(), "host") {
            out.push((kv.0.clone(), kv.1.clone()));
            proof {
                assert(header_views(out@) =~= header_views(pre).push(
                    (inbound@[i as int].0@, inbound@[i as int].1@),
                ));
            }
        }
        proof {
            reveal_strlit("host");
            assert(inbound@.subrange(0, i as int + 1) =~= inbound@.subrange(0, i as int).push(
                inbound@[i as int],
            ));
            assert(header_views(inbound@.subrange(0, i as int + 1)) =~= prefix.push(
                (inbound@[i as int].0@, inbound@[i as int].1@),
            ));
            lemma_kept_headers_push(prefix, (inbound@[i as int].0@, inbound@[i as int].1@));
        }
        i = i + 1;
    }
    proof {
        assert(inbound@.subrange(0, inbound@.len() as int) =~= inbound@);
    }
    let ghost kept = header_views(out@);
    out.push(("X-Real-IP".to_owned(), real_ip.to_owned()));
    out.push(("X-Forwarded-For".to_owned(), forwarded_for.to_owned()));
    out.push(("X-Forwarded-Proto".to_owned(), scheme.to_owned()));
    out.push(("X-Forwarded-Host".to_owned(), host.to_owned()));
    proof {
        assert(header_views(out@) =~= kept + proxy_headers(real_ip@, forwarded_for@, scheme@, host@));
    }
    out
}

/// What the forwarder decides for one request, before any byte is
/// relayed.
pub enum ForwardOutcome {
    /// The path is not `/<segment>/<segment>/<rest>`.
    BadRequest,
    /// No active service matches the name and version; whether an
    /// inactive one exists is not revealed.
    NotFound,
    /// The caller's audience authorizes no role of the service.
    Forbidden,
    /// Relay to this backend URL.
    Proxy(String),
}

/// A service resolved for a path, with its role set as stored: the
/// path decomposes onto the service's name and version, the record is
/// active and in the store, and the role set carries exactly the role
/// ids of the service's authorization edges, each role being a stored
/// role record.
pub open spec fn resolved_for_path(
    store: &GatewayStore,
    p: Seq<char>,
    name: Seq<char>,
    version: Seq<char>,
    rest: Seq<char>,
    s: FullServiceView,
) -> bool {
    forward_path_form(p, name, version, rest) && store@.services.contains(s.svc) && s.svc.active
        && s.svc.api_name == name && s.svc.version == version && role_ids(s.roles)
        == edge_role_ids(store@.authorizations, s.svc.id) && (forall|k: int|
        0 <= k < s.roles.len() ==> store@.roles.contains(#[trigger] s.roles[k]))
}

/// Decides one forwarding request: resolve the path, load the unique
/// active service with its authorized roles, check the caller's
/// audience against them, and compose the backend URL — in that
/// order, each failure short-circuiting the rest.
pub fn forward_decision(store: &GatewayStore, path: &str, claims_aud: &Vec<String>) -> (r:
    ForwardOutcome)
    requires
        store@.wf(),
    ensures
        r is BadRequest <==> !valid_forward_path(path@),
        r is NotFound ==> valid_forward_path(path@) && (forall|n: Seq<char>, v: Seq<char>, e: Seq<char>|
            forward_path_form(path@, n, v, e) ==> !has_active_service(store@.services, n, v)),
        r is Forbidden ==> exists|n: Seq<char>, v: Seq<char>, e: Seq<char>, s: FullServiceView|
            #[trigger] resolved_for_path(store, path@, n, v, e, s) && !authorized(
                s.roles,
                string_views(claims_aud@),
            ),
        r matches ForwardOutcome::Proxy(url) ==> exists|n: Seq<char>, v: Seq<char>, e: Seq<char>, s: FullServiceView|
            #[trigger] resolved_for_path(store, path@, n, v, e, s) && authorized(
                s.roles,
                string_views(claims_aud@),
            ) && url@ == s.svc.forward_url + "/"@ + e,
{
    let (name, version, rest) = match parse_forward_path(path) {
        Ok(parts) => parts,
        Err(_) => {
            return ForwardOutcome::BadRequest;
        },
    };
    let service = match store.get_service_with_roles(&name, &version) {
        Ok(s) => s,
        Err(_) => {
            proof {
                assert forall|n: Seq<char>, v: Seq<char>, e: Seq<char>|
                    forward_path_form(path@, n, v, e) implies !has_active_service(
                    store@.services,
                    n,
                    v,
                ) by {
                    lemma_forward_path_form_unique(path@, name@, version@, rest@, n, v, e);
                }
            }
            return ForwardOutcome::NotFound;
        },
    };
    if !check_aud_authorized(&service.roles, claims_aud) {
        proof {
            assert(resolved_for_path(store, path@, name@, version@, rest@, service@));
        }
        return ForwardOutcome::Forbidden;
    }
    let url = compose_target_url(service.forward_url.as_str(), rest.as_str());
    proof {
        assert(resolved_for_path(store, path@, name@, version@, rest@, service@));
    }
    ForwardOutcome::Proxy(url)
}

/// A path decomposes in at most one way.
proof fn lemma_forward_path_form_unique(
    p: Seq<char>,
    n1: Seq<char>,
    v1: Seq<char>,
    e1: Seq<char>,
    n2: Seq<char>,
    v2: Seq<char>,
    e2: Seq<char>,
)
    requires
        forward_path_form(p, n1, v1, e1),
        forward_path_form(p, n2, v2, e2),
    ensures
        n1 == n2,
        v1 == v2,
        e1 == e2,
{
    assert(n1.len() == n2.len()) by {
        if n1.len() < n2.len() {
            assert(p[1 + n1.len() as int] == '/');
            assert(n2[n1.len() as int] == p[1 + n1.len() as int]);
            assert(n2.contains('/')) by {
                assert(n2[n1.len() as int] == '/');
            }
        } else if n2.len() < n1.len() {
            assert(p[1 + n2.len() as int] == '/');
            assert(n1[n2.len() as int] == p[1 + n2.len() as int]);
            assert(n1.contains('/')) by {
                assert(n1[n2.len() as int] == '/');
            }
        }
    }
    assert(n1 =~= n2) by {
        assert(forall|t: int| 0 <= t < n1.len() ==> n1[t] == p[1 + t] && n2[t] == p[1 + t]);
    }
    let base = 2 + n1.len() as int;
    assert(v1.len() == v2.len()) by {
        if v1.len() < v2.len() {
            assert(p[base + v1.len()] == '/');
            assert(v2[v1.len() as int] == p[base + v1.len()]);
            assert(v2.contains('/')) by {
                assert(v2[v1.len() as int] == '/');
            }
        } else if v2.len() < v1.len() {
            assert(p[base + v2.len()] == '/');
            assert(v1[v2.len() as int] == p[base + v2.len()]);
            assert(v1.contains('/')) by {
                assert(v1[v2.len() as int] == '/');
            }
        }
    }
    assert(v1 =~= v2) by {
        assert(forall|t: int| 0 <= t < v1.len() ==> v1[t] == p[base + t] && v2[t] == p[base + t]);
    }
    assert(p.len() == 3 + n1.len() + v1.len() + e1.len());
    assert(p.len() == 3 + n2.len() + v2.len() + e2.len());
    assert(e1.len() == e2.len());
    assert(e1 =~= e2) by {
        assert(forall|t: int|
            0 <= t < e1.len() ==> e1[t] == p[base + 1 + v1.len() + t] && e2[t] == p[base + 1
                + v1.len() + t]);
    }
}

} // verus!
