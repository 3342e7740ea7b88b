//! Plain data records exchanged with the surrounding collaborator services
//! (user administration, authentication and audit reporting). The core
//! performs none of those services' checks itself — it only carries their
//! rows across its boundary.

use vstd::prelude::*;

verus! {

/// A user row as the surrounding user service stores it.
pub struct UserRow {
    pub id: i64,
    pub name: String,
    pub username: String,
    pub email: Option<String>,
    pub password_hash: String,
    pub role: String,
    pub created_at: i64,
    pub last_login: Option<i64>,
}

/// A freshly created user, as handed back to the caller.
pub struct CreatedUser {
    pub id: i64,
    pub name: String,
    pub username: String,
    pub email: Option<String>,
    pub role: String,
    pub created_at: i64,
    pub last_login: Option<i64>,
}

/// The public projection of a user row: everything but the password hash.
pub struct UserPublic {
    pub id: i64,
    pub name: String,
    pub username: String,
    pub email: Option<String>,
    pub role: String,
    pub created_at: i64,
    pub last_login: Option<i64>,
}

impl UserRow {
    /// The public projection of this row: the password hash never leaves the
    /// service boundary.
    pub fn to_public(&self) -> (r: UserPublic)
        ensures
            r.id == self.id,
            r.name@ == self.name@,
            r.username@ == self.username@,
            r.email == self.email,
            r.role@ == self.role@,
            r.created_at == self.created_at,
            r.last_login == self.last_login,
    {
        UserPublic {
            id: self.id,
            name: self.name.clone(),
            username: self.username.clone(),
            email: match &self.email {
                Some(e) => Some(e.clone()),
                None => None,
            },
            role: self.role.clone(),
            created_at: self.created_at,
            last_login: self.last_login,
        }
    }
}

/// One row of the portal activity report.
pub struct PortalLog {
    pub id: i64,
    pub time: i64,
    pub user: Option<String>,
    pub event: String,
    pub target_user_id: Option<i64>,
    pub details: Option<String>,
}

/// One row of the watchlist report of blocked attempts.
pub struct WatchlistAttempt {
    pub id: i64,
    pub time: i64,
    pub user: Option<String>,
    pub op: String,
    pub path_or_target: Option<String>,
    pub reason: Option<String>,
    pub details: Option<String>,
}

} // verus!
