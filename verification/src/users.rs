//! Data model for gateway users.
//!
//! Timestamps are epoch seconds; a user's effective role set is
//! exactly the set of roles with a membership edge to it.

use vstd::prelude::*;

verus! {

use crate::api_services::{role_views, DbApiRole, RoleView, WebApiRole};
use crate::text::{digits_val, format_u64, is_canonical_digits};

/// Mathematical image of a stored user record.
pub struct UserView {
    pub id: u64,
    pub username: Seq<char>,
    pub password_hash: Option<Seq<char>>,
    pub created_date: u64,
    pub last_modified_date: u64,
    pub last_login: Option<u64>,
    pub password_reset_at: Option<u64>,
}

/// A stored user record.
pub struct DbGatewayUserRecord {
    pub id: u64,
    pub username: String,
    pub password_hash: Option<String>,
    pub created_date: u64,
    pub last_modified_date: u64,
    pub last_login: Option<u64>,
    pub password_reset_at: Option<u64>,
}

impl View for DbGatewayUserRecord {
    type V = UserView;

    open spec fn view(&self) -> UserView {
        UserView {
            id: self.id,
            username: self.username@,
            password_hash: match self.password_hash {
                Some(h) => Some(h@),
                None => None,
            },
            created_date: self.created_date,
            last_modified_date: self.last_modified_date,
            last_login: self.last_login,
            password_reset_at: self.password_reset_at,
        }
    }
}

impl Clone for DbGatewayUserRecord {
    fn clone(&self) -> (r: Self)
        ensures
            r@ == self@,
    {
        DbGatewayUserRecord {
            id: self.id,
            username: self.username.clone(),
            password_hash: match &self.password_hash {
                Some(h) => Some(h.clone()),
                None => None,
            },
            created_date: self.created_date,
            last_modified_date: self.last_modified_date,
            last_login: self.last_login,
            password_reset_at: self.password_reset_at,
        }
    }
}

/// A stored user together with its resolved role set.
pub struct DbGatewayUserResponse {
    pub id: u64,
    pub username: String,
    pub roles: Vec<DbApiRole>,
    pub created_date: u64,
    pub last_modified_date: u64,
    pub last_login: Option<u64>,
    pub password_reset_at: Option<u64>,
}

impl DbGatewayUserRecord {
    /// Pairs this record with its resolved roles.
    pub fn with_roles(&self, roles: Vec<DbApiRole>) -> (r: DbGatewayUserResponse)
        ensures
            r.id == self.id,
            r.username@ == self.username@,
            r.roles@ == roles@,
            r.created_date == self.created_date,
            r.last_modified_date == self.last_modified_date,
            r.last_login == self.last_login,
            r.password_reset_at == self.password_reset_at,
    {
        DbGatewayUserResponse {
            id: self.id,
            username: self.username.clone(),
            roles,
            created_date: self.created_date,
            last_modified_date: self.last_modified_date,
            last_login: self.last_login,
            password_reset_at: self.password_reset_at,
        }
    }
}

/// A user as it crosses the web boundary.
pub struct WebGatewayUserResponse {
    pub id: String,
    pub username: String,
    pub roles: Vec<WebApiRole>,
    pub created_date: u64,
    pub last_modified_date: u64,
    pub last_login: Option<u64>,
    pub password_reset_at: Option<u64>,
}

impl DbGatewayUserResponse {
    /// The web-facing form of this user.
    pub fn to_web_response(&self) -> (r: WebGatewayUserResponse)
        ensures
            is_canonical_digits(r.id@) && digits_val(r.id@) == self.id as nat,
            r.username@ == self.username@,
            r.roles@.len() == self.roles@.len(),
            forall|k: int|
                0 <= k < self.roles@.len() ==> r.roles@[k]@.namespace == role_views(
                    self.roles@,
                )[k].namespace && r.roles@[k]@.name == role_views(self.roles@)[k].name,
            r.created_date == self.created_date,
            r.last_modified_date == self.last_modified_date,
            r.last_login == self.last_login,
            r.password_reset_at == self.password_reset_at,
    {
        let mut web_roles: Vec<WebApiRole> = Vec::new();
        let mut i: usize = 0;
        while i < self.roles.len()
            invariant
                i <= self.roles@.len(),
                web_roles@.len() == i,
                forall|k: int|
                    0 <= k < i ==> web_roles@[k]@.namespace == role_views(self.roles@)[k].namespace
                        && web_roles@[k]@.name == role_views(self.roles@)[k].name,
            decreases self.roles@.len() - i,
        {
            web_roles.push(self.roles[i].to_web());
            i = i + 1;
        }
        WebGatewayUserResponse {
            id: format_u64(self.id),
            username: self.username.clone(),
            roles: web_roles,
            created_date: self.created_date,
            last_modified_date: self.last_modified_date,
            last_login: self.last_login,
            password_reset_at: self.password_reset_at,
        }
    }
}

/// A partial user update as it arrives over the web.
pub struct WebPartialGatewayUserUpdate {
    pub username: Option<String>,
    pub roles: Option<Vec<WebApiRole>>,
}

/// The storage-facing part of a partial user update.
pub struct DbPartialGatewayUserUpdate {
    pub username: Option<String>,
}

impl WebPartialGatewayUserUpdate {
    /// The storage-facing part of this update.
    pub fn to_db_update(&self) -> (r: DbPartialGatewayUserUpdate)
        ensures
            r.username matches Some(u) <==> self.username is Some,
            self.username matches Some(u0) ==> r.username matches Some(u) && u@ == u0@,
    {
        DbPartialGatewayUserUpdate {
            username: match &self.username {
                Some(u) => Some(u.clone()),
                None => None,
            },
        }
    }
}

/// A user registration as it arrives over the web.
pub struct WebGatewayUserRequest {
    pub username: String,
    pub roles: Vec<WebApiRole>,
}

/// The storage-facing part of a user registration.
pub struct DbGatewayUserRequest {
    pub username: String,
}

impl WebGatewayUserRequest {
    /// The storage-facing part of this registration.
    pub fn to_db_request(&self) -> (r: DbGatewayUserRequest)
        ensures
            r.username@ == self.username@,
    {
        DbGatewayUserRequest { username: self.username.clone() }
    }
}

/// Errors of the user-management surface.
pub enum UserError {
    UserNotFound(String),
    NotImplemented(String),
    DatabaseError(String),
}

impl UserError {
    /// The HTTP status code this error is reported with.
    pub fn status_code(&self) -> (r: u16)
        ensures
            r == match *self {
                UserError::UserNotFound(_) => 404u16,
                UserError::NotImplemented(_) => 500u16,
                UserError::DatabaseError(_) => 500u16,
            },
    {
        match self {
            UserError::UserNotFound(_) => 404,
            UserError::NotImplemented(_) => 500,
            UserError::DatabaseError(_) => 500,
        }
    }
}

} // verus!
