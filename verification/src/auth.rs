//! The credential and token lifecycle: claims construction, bearer
//! header parsing and claim validation.
//!
//! Signing and signature verification are opaque primitives of the
//! surrounding process; the library decides everything about a claim
//! set once its signature has been checked.

use vstd::prelude::*;

verus! {

use crate::api_services::{role_qualified, role_views, string_views, DbApiRole};
use crate::errors::GatewayError;
use crate::text::{is_prefix_of, lower, lower_char, lower_char_ex, str_eq, str_starts_with};

/// The issuer written into every token the gateway signs.
pub fn gateway_jwt_issuer() -> (r: &'static str)
    ensures
        r@ == spec_gateway_jwt_issuer(),
{
    "apigateway.local"
}

/// The view of the gateway's issuer string.
pub open spec fn spec_gateway_jwt_issuer() -> Seq<char> {
    "apigateway.local"@
}

/// How long an issued token stays valid.
pub const TOKEN_LIFETIME_SECS: u64 = 24 * 60 * 60;

/// How long a password-reset request stays redeemable.
pub const RESET_REQUEST_LIFETIME_SECS: u64 = 24 * 60 * 60;

/// Mathematical image of a claim set.
pub struct ClaimsView {
    pub iss: Seq<char>,
    pub sub: Seq<char>,
    pub sub_id: Seq<char>,
    pub aud: Seq<Seq<char>>,
    pub exp: u64,
    pub iat: u64,
    pub nbf: u64,
}

/// The bearer token payload: issuer, subject username, subject id,
/// audience (the qualified role strings granted at issuance), and the
/// expiry/issued-at/not-before timestamps, in epoch seconds.
pub struct GatewayUserClaims {
    pub iss: String,
    pub sub: String,
    pub sub_id: String,
    pub aud: Vec<String>,
    pub exp: u64,
    pub iat: u64,
    pub nbf: u64,
}

impl View for GatewayUserClaims {
    type V = ClaimsView;

    open spec fn view(&self) -> ClaimsView {
        ClaimsView {
            iss: self.iss@,
            sub: self.sub@,
            sub_id: self.sub_id@,
            aud: string_views(self.aud@),
            exp: self.exp,
            iat: self.iat,
            nbf: self.nbf,
        }
    }
}

/// A login form: username and plaintext password.
pub struct GatewayLoginCredentials {
    pub username: String,
    pub password: String,
}

/// A set-password form.
pub struct PasswordForm {
    pub password: String,
}

/// A form naming a user.
pub struct UserForm {
    pub username: String,
}

/// Path parameters naming a password-reset request.
pub struct RequestIdParams {
    pub request_id: String,
}

/// Mathematical image of a password-reset request.
pub struct ResetView {
    pub id: u64,
    pub user_id: u64,
    pub used: bool,
    pub expires_at: u64,
    pub last_modified: u64,
}

/// A one-time password-reset request.  It becomes permanently inert
/// once `used` is set or once the current time passes `expires_at`.
pub struct PasswordResetRequest {
    pub id: u64,
    pub user_id: u64,
    pub used: bool,
    pub expires_at: u64,
    pub last_modified: u64,
}

impl View for PasswordResetRequest {
    type V = ResetView;

    open spec fn view(&self) -> ResetView {
        ResetView {
            id: self.id,
            user_id: self.user_id,
            used: self.used,
            expires_at: self.expires_at,
            last_modified: self.last_modified,
        }
    }
}

impl Clone for PasswordResetRequest {
    fn clone(&self) -> (r: Self)
        ensures
            r@ == self@,
    {
        PasswordResetRequest {
            id: self.id,
            user_id: self.user_id,
            used: self.used,
            expires_at: self.expires_at,
            last_modified: self.last_modified,
        }
    }
}

/// Errors of the authentication surface.
pub enum AuthError {
    InvalidUsernameOrPassword(String),
    TokenDecodeError(String),
    TokenEncodeError(String),
    DatabaseError(String),
    NotImplemented(String),
}

impl AuthError {
    /// The HTTP status code this error is reported with.
    pub fn status_code(&self) -> (r: u16)
        ensures
            r == match *self {
                AuthError::InvalidUsernameOrPassword(_) => 403u16,
                AuthError::TokenDecodeError(_) => 500u16,
                AuthError::TokenEncodeError(_) => 500u16,
                AuthError::DatabaseError(_) => 500u16,
                AuthError::NotImplemented(_) => 500u16,
            },
    {
        match self {
            AuthError::InvalidUsernameOrPassword(_) => 403,
            AuthError::TokenDecodeError(_) => 500,
            AuthError::TokenEncodeError(_) => 500,
            AuthError::DatabaseError(_) => 500,
            AuthError::NotImplemented(_) => 500,
        }
    }
}

/// The audience a user's roles grant: each role's qualified string.
pub fn roles_to_audience(roles: &Vec<DbApiRole>) -> (r: Vec<String>)
    ensures
        string_views(r@) == role_views(roles@).map_values(|v| role_qualified(v)),
{
    let mut out: Vec<String> = Vec::new();
    let mut i: usize = 0;
    while i < roles.len()
        invariant
            i <= roles@.len(),
            string_views(out@) =~= role_views(roles@.subrange(0, i as int)).map_values(
                |v| role_qualified(v),
            ),
        decreases roles@.len() - i,
    {
        let ghost pre = out@;
        out.push(roles[i].qualified_string());
        proof {
            assert(roles@.subrange(0, i as int + 1) =~= roles@.subrange(0, i as int).push(
                roles@[i as int],
            ));
            assert(role_views(roles@.subrange(0, i as int + 1)) =~= role_views(
                roles@.subrange(0, i as int),
            ).push(roles@[i as int]@));
            assert(string_views(out@) =~= string_views(pre).push(role_qualified(roles@[i as int]@)));
            assert(role_views(roles@.subrange(0, i as int + 1)).map_values(|v| role_qualified(v))
                =~= role_views(roles@.subrange(0, i as int)).map_values(|v| role_qualified(v)).push(
                role_qualified(roles@[i as int]@),
            ));
        }
        i = i + 1;
    }
    proof {
        assert(roles@.subrange(0, roles@.len() as int) =~= roles@);
    }
    out
}

/// Builds the claim set issued after a successful authentication:
/// fixed issuer, the user as subject, the given audience, and a
/// validity window of one token lifetime starting now.
pub fn build_claims(username: &String, user_web_id: &String, aud: Vec<String>, now: u64) -> (r:
    GatewayUserClaims)
    requires
        now <= u64::MAX - TOKEN_LIFETIME_SECS,
    ensures
        r@.iss == spec_gateway_jwt_issuer(),
        r@.sub == username@,
        r@.sub_id == user_web_id@,
        r@.aud == string_views(aud@),
        r@.exp == now + TOKEN_LIFETIME_SECS,
        r@.iat == now,
        r@.nbf == now,
{
    GatewayUserClaims {
        iss: gateway_jwt_issuer().to_owned(),
        sub: username.clone(),
        sub_id: user_web_id.clone(),
        aud,
        exp: now + TOKEN_LIFETIME_SECS,
        iat: now,
        nbf: now,
    }
}

/// Some audience entry is literally one of the required scopes.
pub open spec fn aud_intersects(aud: Seq<Seq<char>>, scopes: Seq<Seq<char>>) -> bool {
    exists|i: int, j: int|
        0 <= i < aud.len() && 0 <= j < scopes.len() && aud[i] == scopes[j]
}

/// Some audience entry starts with one of the required prefixes.
pub open spec fn aud_has_prefix(aud: Seq<Seq<char>>, prefixes: Seq<Seq<char>>) -> bool {
    exists|i: int, j: int|
        0 <= i < aud.len() && 0 <= j < prefixes.len() && is_prefix_of(prefixes[j], aud[i])
}

/// A claim set's validity window contains `now`: the token is not
/// used before `nbf` and expires at `exp`.
pub open spec fn claims_time_valid(c: ClaimsView, now: u64) -> bool {
    c.nbf <= now && now < c.exp
}

/// Everything the gateway checks of a decoded claim set: issuer,
/// validity window, and, when a required-scope list is supplied, a
/// non-empty intersection with the audience.
pub open spec fn claims_valid(
    c: ClaimsView,
    now: u64,
    issuer: Seq<char>,
    scopes: Option<Seq<Seq<char>>>,
) -> bool {
    c.iss == issuer && claims_time_valid(c, now) && match scopes {
        Some(s) => aud_intersects(c.aud, s),
        None => true,
    }
}

/// Decides whether some audience entry equals some scope.
fn aud_intersects_exec(aud: &Vec<String>, scopes: &Vec<String>) -> (r: bool)
    ensures
        r == aud_intersects(string_views(aud@), string_views(scopes@)),
{
    let ghost a = string_views(aud@);
    let ghost s = string_views(scopes@);
    let mut i: usize = 0;
    while i < aud.len()
        invariant
            i <= a.len(),
            a == string_views(aud@),
            s == string_views(scopes@),
            forall|i2: int, j2: int| 0 <= i2 < i && 0 <= j2 < s.len() ==> a[i2] != s[j2],
        decreases a.len() - i,
    {
        let mut j: usize = 0;
        while j < scopes.len()
            invariant
                j <= s.len(),
                i < a.len(),
                a == string_views(aud@),
                s == string_views(scopes@),
                forall|j2: int| 0 <= j2 < j ==> a[i as int] != s[j2],
            decreases s.len() - j,
        {
            if str_eq(aud[i].as_str(), scopes[j].as_str()) {
                proof {
                    assert(a[i as int] == s[j as int]);
                    assert(aud_intersects(a, s));
                }
                return true;
            }
            j = j + 1;
        }
        i = i + 1;
    }
    false
}

/// Validates a decoded claim set against the expected issuer, the
/// current time, and an optional required-scope list.  This is every
/// check the gateway makes beyond the signature itself.
pub fn validate_claims(
    claims: &GatewayUserClaims,
    now: u64,
    issuer: &str,
    scopes: Option<&Vec<String>>,
) -> (r: Result<(), GatewayError>)
    ensures
        r is Ok <==> claims_valid(
            claims@,
            now,
            issuer@,
            match scopes {
                Some(s) => Some(string_views(s@)),
                None => None,
            },
        ),
        r matches Err(e) ==> e is TokenDecodeError,
{
    if !str_eq(claims.iss.as_str(), issuer) {
        return Err(GatewayError::TokenDecodeError("InvalidIssuer".to_owned()));
    }
    if claims.nbf > now {
        return Err(GatewayError::TokenDecodeError("ImmatureSignature".to_owned()));
    }
    if now >= claims.exp {
        return Err(GatewayError::TokenDecodeError("ExpiredSignature".to_owned()));
    }
    if let Some(required) = scopes {
        if !aud_intersects_exec(&claims.aud, required) {
            return Err(GatewayError::TokenDecodeError("InvalidAudience".to_owned()));
        }
    }
    Ok(())
}

/// Validates a decoded claim set against the expected issuer and the
/// current time, and requires some audience entry to carry one of the
/// given prefixes; this protects namespace-scoped endpoints
/// independently of service-level authorization.
pub fn validate_claims_prefix(
    claims: &GatewayUserClaims,
    now: u64,
    issuer: &str,
    prefixes: &Vec<String>,
) -> (r: Result<(), GatewayError>)
    ensures
        r is Ok <==> claims_valid(claims@, now, issuer@, None) && aud_has_prefix(
            claims@.aud,
            string_views(prefixes@),
        ),
        r matches Err(e) ==> e is TokenDecodeError,
{
    if let Err(e) = validate_claims(claims, now, issuer, None) {
        return Err(e);
    }
    let ghost a = string_views(claims.aud@);
    let ghost p = string_views(prefixes@);
    let mut i: usize = 0;
    while i < claims.aud.len()
        invariant
            i <= a.len(),
            a == string_views(claims.aud@),
            p == string_views(prefixes@),
            claims_valid(claims@, now, issuer@, None),
            forall|i2: int, j2: int|
                0 <= i2 < i && 0 <= j2 < p.len() ==> !is_prefix_of(p[j2], a[i2]),
        decreases a.len() - i,
    {
        let mut j: usize = 0;
        while j < prefixes.len()
            invariant
                j <= p.len(),
                i < a.len(),
                a == string_views(claims.aud@),
                p == string_views(prefixes@),
                claims_valid(claims@, now, issuer@, None),
                forall|j2: int| 0 <= j2 < j ==> !is_prefix_of(p[j2], a[i as int]),
            decreases p.len() - j,
        {
            if str_starts_with(claims.aud[i].as_str(), prefixes[j].as_str()) {
                proof {
                    assert(is_prefix_of(p[j as int], a[i as int]));
                    assert(aud_has_prefix(a, p));
                }
                return Ok(());
            }
            j = j + 1;
        }
        i = i + 1;
    }
    Err(GatewayError::TokenDecodeError("User does not have the requisite role".to_owned()))
}

/// `h` splits at its first space into the scheme `bearer`
/// (case-insensitively) and the token that follows.
pub open spec fn bearer_split_at(h: Seq<char>, i: int) -> bool {
    0 <= i < h.len() && h[i] == ' ' && (forall|j: int| 0 <= j < i ==> h[j] != ' ') && lower(
        h.subrange(0, i),
    ) == "bearer"@
}

/// Extracts the token from an `Authorization` header value.  The
/// scheme must be `Bearer`, case-insensitively; anything else is
/// rejected as unauthorized.
pub fn parse_bearer(header: &str) -> (r: Result<String, GatewayError>)
    ensures
        r matches Ok(t) ==> exists|i: int| bearer_split_at(header@, i) && t@ == header@.subrange(
            i + 1,
            header@.len() as int,
        ),
        r is Err <==> !exists|i: int| bearer_split_at(header@, i),
        r matches Err(e) ==> e is Unauthorized,
{
    let len = header.unicode_len();
    let mut sp: usize = 0;
    let mut found = false;
    while sp < len && !found
        invariant
            sp <= len,
            len == header@.len(),
            found ==> sp < len && header@[sp as int] == ' ',
            forall|j: int| 0 <= j < sp ==> header@[j] != ' ',
        decreases len - sp + if found {
            0int
        } else {
            1int
        },
    {
        if header.get_char(sp) == ' ' {
            found = true;
        } else {
            sp = sp + 1;
        }
    }
    if !found {
        proof {
            assert forall|i: int| !bearer_split_at(header@, i) by {
                if bearer_split_at(header@, i) {
                    assert(header@[i] == ' ');
                }
            }
        }
        return Err(
            GatewayError::Unauthorized(
                "Missing 'Bearer' token from 'Authorization' header".to_owned(),
            ),
        );
    }
    let scheme_ok = if sp == 6 {
        let b = "bearer";
        proof {
            reveal_strlit("bearer");
        }
        let mut k: usize = 0;
        let mut all = true;
        while k < 6
            invariant
                k <= 6,
                sp == 6,
                len == header@.len(),
                sp < len,
                b@ == "bearer"@ && b@.len() == 6,
                all == forall|t: int| 0 <= t < k ==> lower_char(header@[t]) == b@[t],
            decreases 6 - k,
        {
            let ghost pre_all = all;
            if lower_char_ex(header.get_char(k)) != b.get_char(k) {
                all = false;
            }
            proof {
                if all {
                    assert(forall|t: int| 0 <= t < k + 1 ==> lower_char(header@[t]) == b@[t]);
                } else {
                    if pre_all {
                        assert(lower_char(header@[k as int]) != b@[k as int]);
                    } else {
                        let t0 = choose|t: int|
                            0 <= t < k && #[trigger] lower_char(header@[t]) != b@[t];
                        assert(lower_char(header@[t0]) != b@[t0]);
                    }
                    assert(!forall|t: int| 0 <= t < k + 1 ==> lower_char(header@[t]) == b@[t]);
                }
            }
            k = k + 1;
        }
        proof {
            if all {
                assert(forall|t: int| 0 <= t < 6 ==> lower(header@.subrange(0, 6))[t] == lower_char(
                    header@[t],
                ));
                assert(lower(header@.subrange(0, 6)) =~= b@);
            } else {
                let t0 = choose|t: int| 0 <= t < 6 && #[trigger] lower_char(header@[t]) != b@[t];
                assert(lower(header@.subrange(0, 6))[t0] == lower_char(header@[t0]));
                assert(lower(header@.subrange(0, 6)) != b@);
            }
        }
        all
    } else {
        proof {
            assert(lower(header@.subrange(0, sp as int)).len() == sp);
            reveal_strlit("bearer");
            assert(lower(header@.subrange(0, sp as int)) != "bearer"@);
        }
        false
    };
    if !scheme_ok {
        proof {
            assert forall|i: int| !bearer_split_at(header@, i) by {
                if bearer_split_at(header@, i) {
                    assert(header@[sp as int] == ' ');
                    assert(i == sp) by {
                        if i < sp {
                            assert(header@[i] == ' ');
                        } else if i > sp {
                            assert(header@[sp as int] != ' ');
                        }
                    }
                }
            }
        }
        return Err(
            GatewayError::Unauthorized(
                "Missing 'Bearer' token from 'Authorization' header".to_owned(),
            ),
        );
    }
    let token = header.substring_char(sp + 1, len).to_owned();
    proof {
        assert(bearer_split_at(header@, sp as int));
    }
    Ok(token)
}

} // verus!
