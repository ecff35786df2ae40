use crate::dates::{
    date_time_chars, format_date_time, parse_date_time, spec_parse_date_time, DateTime,
};
use crate::error::{AppError, AppResult};
use crate::seqs::{first_where, lemma_first_where, lemma_first_where_is, lemma_first_where_none};
use crate::text::str_eq;
use vstd::prelude::*;
use vstd::utf8::encode_utf8;

verus! {

/// An account. `deleted_at` set means the user is soft-deleted and invisible
/// to every lookup. `monthly_goal` is kept in thousandths of a kilometre.
#[derive(Debug, Clone)]
pub struct User {
    pub id: i64,
    pub username: String,
    pub monthly_goal: Option<u64>,
    pub created_at: DateTime,
    pub deleted_at: Option<DateTime>,
}

/// The fields a caller supplies to create or update a user.
#[derive(Debug, Clone)]
pub struct UserPartial {
    pub username: String,
    pub monthly_goal: Option<u64>,
}

/// A login request: sessions are issued by username alone.
#[derive(Debug, Clone)]
pub struct UserLogin {
    pub username: String,
}

/// A user as the storage layer sees it: date-times as canonical strings.
#[derive(Debug, Clone)]
pub struct UserRaw {
    pub id: i64,
    pub username: String,
    pub monthly_goal: Option<u64>,
    pub created_at: String,
    pub deleted_at: Option<String>,
}

impl User {
    pub open spec fn valid(self) -> bool {
        &&& self.created_at.valid()
        &&& match self.deleted_at {
            Some(dt) => dt.valid(),
            None => true,
        }
    }

    /// An equal copy (field by field).
    pub fn duplicate(&self) -> (r: User)
        ensures
            r == *self,
    {
        User {
            id: self.id,
            username: self.username.clone(),
            monthly_goal: self.monthly_goal,
            created_at: self.created_at,
            deleted_at: self.deleted_at,
        }
    }

    /// The storage form of this user: date-times formatted canonically.
    pub fn to_raw(&self) -> (r: UserRaw)
        requires
            self.valid(),
        ensures
            r.id == self.id,
            r.username == self.username,
            r.monthly_goal == self.monthly_goal,
            r.created_at@ == date_time_chars(self.created_at),
            match self.deleted_at {
                Some(dt) => r.deleted_at matches Some(s) && s@ == date_time_chars(dt),
                None => r.deleted_at is None,
            },
    {
        UserRaw {
            id: self.id,
            username: self.username.clone(),
            monthly_goal: self.monthly_goal,
            created_at: format_date_time(&self.created_at),
            deleted_at: match &self.deleted_at {
                Some(dt) => Some(format_date_time(dt)),
                None => None,
            },
        }
    }

    /// Read a user back from its storage form; fails exactly when a
    /// date-time column is not in the canonical form.
    pub fn from_raw(raw: &UserRaw) -> (r: AppResult<User>)
        ensures
            match r {
                Ok(u) => {
                    &&& u.valid()
                    &&& u.id == raw.id
                    &&& u.username == raw.username
                    &&& u.monthly_goal == raw.monthly_goal
                    &&& Some(u.created_at) == spec_parse_date_time(encode_utf8(raw.created_at@))
                    &&& match raw.deleted_at {
                        Some(s) => Some(u.deleted_at) == Some(
                            spec_parse_date_time(encode_utf8(s@)),
                        ),
                        None => u.deleted_at is None,
                    }
                },
                Err(e) => {
                    &&& e is Other
                    &&& spec_parse_date_time(encode_utf8(raw.created_at@)) is None || (
                    raw.deleted_at matches Some(s) && spec_parse_date_time(encode_utf8(s@))
                        is None)
                },
            },
    {
        let created_at = match parse_date_time(raw.created_at.as_str()) {
            Some(dt) => dt,
            None => {
                return Err(AppError::Other(String::from_str("invalid date-time")));
            },
        };
        let deleted_at = match &raw.deleted_at {
            Some(s) => match parse_date_time(s.as_str()) {
                Some(dt) => Some(dt),
                None => {
                    return Err(AppError::Other(String::from_str("invalid date-time")));
                },
            },
            None => None,
        };
        Ok(
            User {
                id: raw.id,
                username: raw.username.clone(),
                monthly_goal: raw.monthly_goal,
                created_at,
                deleted_at,
            },
        )
    }
}

/// Matches the live (not soft-deleted) user with the given id.
pub open spec fn active_user_with_id(id: i64) -> spec_fn(User) -> bool {
    |u: User| u.id == id && u.deleted_at is None
}

/// Matches the live user with the given username.
pub open spec fn active_user_with_name(name: Seq<char>) -> spec_fn(User) -> bool {
    |u: User| u.username@ == name && u.deleted_at is None
}

/// The users table. Rows are only ever appended or updated in place;
/// deletion is a timestamp, never removal.
pub struct UserStore {
    pub users: Vec<User>,
    pub next_id: i64,
}

impl UserStore {
    /// Store invariant: ids are positive, unique and below `next_id`,
    /// and every timestamp is a real date-time.
    pub open spec fn wf(self) -> bool {
        &&& 1 <= self.next_id
        &&& forall|i: int|
            0 <= i < self.users@.len() ==> {
                &&& 0 < (#[trigger] self.users@[i]).id < self.next_id
                &&& self.users@[i].valid()
            }
        &&& forall|i: int, j: int|
            0 <= i < j < self.users@.len() ==> (#[trigger] self.users@[i]).id != (
            #[trigger] self.users@[j]).id
    }

    pub fn new() -> (r: UserStore)
        ensures
            r.wf(),
            r.users@.len() == 0,
            r.next_id == 1,
    {
        UserStore { users: Vec::new(), next_id: 1 }
    }

    /// The live user with this id, or `NotFound`. Soft-deleted users are
    /// invisible here.
    pub fn get_by_id(&self, user_id: i64) -> (r: AppResult<User>)
        ensures
            ({
                let idx = first_where(self.users@, active_user_with_id(user_id));
                &&& (r is Ok <==> idx >= 0)
                &&& (r matches Ok(u) ==> u == self.users@[idx])
                &&& (r matches Err(e) ==> e is NotFound)
            }),
    {
        let ghost p = active_user_with_id(user_id);
        let n = self.users.len();
        let mut i: usize = 0;
        while i < n
            invariant
                p == active_user_with_id(user_id),
                n == self.users@.len(),
                0 <= i <= n,
                forall|k: int| 0 <= k < i ==> !p(self.users@[k]),
            decreases n - i,
        {
            let u = &self.users[i];
            if u.id == user_id && u.deleted_at.is_none() {
                proof {
                    lemma_first_where_is(self.users@, p, i as int);
                }
                return Ok(u.duplicate());
            }
            i += 1;
        }
        proof {
            lemma_first_where_none(self.users@, p);
        }
        Err(AppError::NotFound(String::from_str("User not found")))
    }

    /// The live user with this username, if any.
    pub fn try_get_by_username(&self, username: &str) -> (r: Option<User>)
        ensures
            ({
                let idx = first_where(self.users@, active_user_with_name(username@));
                &&& (r is Some <==> idx >= 0)
                &&& (r matches Some(u) ==> u == self.users@[idx])
            }),
    {
        let ghost p = active_user_with_name(username@);
        let n = self.users.len();
        let mut i: usize = 0;
        while i < n
            invariant
                p == active_user_with_name(username@),
                n == self.users@.len(),
                0 <= i <= n,
                forall|k: int| 0 <= k < i ==> !p(self.users@[k]),
            decreases n - i,
        {
            let u = &self.users[i];
            if str_eq(u.username.as_str(), username) && u.deleted_at.is_none() {
                proof {
                    lemma_first_where_is(self.users@, p, i as int);
                }
                return Some(u.duplicate());
            }
            i += 1;
        }
        proof {
            lemma_first_where_none(self.users@, p);
        }
        None
    }

    /// Like [`UserStore::try_get_by_username`], but a missing user is the
    /// error the login route reports.
    pub fn get_by_username(&self, username: &str) -> (r: AppResult<User>)
        ensures
            ({
                let idx = first_where(self.users@, active_user_with_name(username@));
                &&& (r is Ok <==> idx >= 0)
                &&& (r matches Ok(u) ==> u == self.users@[idx])
                &&& (r matches Err(e) ==> e is NotFound)
            }),
    {
        match self.try_get_by_username(username) {
            Some(u) => Ok(u),
            None => Err(AppError::NotFound(String::from_str("User not found"))),
        }
    }

    /// Create a user. Fails with `Conflict` exactly when a live user
    /// already carries the username.
    pub fn create(&mut self, new: &UserPartial, now: DateTime) -> (r: AppResult<User>)
        requires
            old(self).wf(),
            now.valid(),
        ensures
            final(self).wf(),
            ({
                let taken = first_where(old(self).users@, active_user_with_name(new.username@))
                    >= 0;
                if taken {
                    &&& r matches Err(e) && e is Conflict
                    &&& *final(self) == *old(self)
                } else if old(self).next_id == i64::MAX {
                    &&& r matches Err(e) && e is Database
                    &&& *final(self) == *old(self)
                } else {
                    &&& r matches Ok(u)
                    &&& u == (User {
                        id: old(self).next_id,
                        username: new.username,
                        monthly_goal: new.monthly_goal,
                        created_at: now,
                        deleted_at: None,
                    })
                    &&& final(self).users@ == old(self).users@.push(u)
                    &&& final(self).next_id == old(self).next_id + 1
                }
            }),
    {
        if self.try_get_by_username(new.username.as_str()).is_some() {
            return Err(AppError::Conflict(String::from_str("Username already exists")));
        }
        if self.next_id == i64::MAX {
            return Err(AppError::Database(String::from_str("id space exhausted")));
        }
        let user = User {
            id: self.next_id,
            username: new.username.clone(),
            monthly_goal: new.monthly_goal,
            created_at: now,
            deleted_at: None,
        };
        let result = user.duplicate();
        self.users.push(user);
        self.next_id = self.next_id + 1;
        Ok(result)
    }

    /// Update the live user with this id; `NotFound` exactly when no such
    /// user exists (missing or already soft-deleted).
    pub fn update(&mut self, user_id: i64, update: &UserPartial) -> (r: AppResult<User>)
        requires
            old(self).wf(),
        ensures
            final(self).wf(),
            ({
                let idx = first_where(old(self).users@, active_user_with_id(user_id));
                if idx >= 0 {
                    &&& r matches Ok(u)
                    &&& u == (User {
                        username: update.username,
                        monthly_goal: update.monthly_goal,
                        ..old(self).users@[idx]
                    })
                    &&& final(self).users@ == old(self).users@.update(idx, u)
                    &&& final(self).next_id == old(self).next_id
                } else {
                    &&& r matches Err(e) && e is NotFound
                    &&& *final(self) == *old(self)
                }
            }),
    {
        let ghost p = active_user_with_id(user_id);
        let n = self.users.len();
        let mut i: usize = 0;
        while i < n
            invariant
                p == active_user_with_id(user_id),
                *self == *old(self),
                old(self).wf(),
                n == self.users@.len(),
                0 <= i <= n,
                forall|k: int| 0 <= k < i ==> !p(self.users@[k]),
            decreases n - i,
        {
            let found = {
                let u = &self.users[i];
                u.id == user_id && u.deleted_at.is_none()
            };
            if found {
                proof {
                    lemma_first_where_is(self.users@, p, i as int);
                }
                let old_user = self.users[i].duplicate();
                let updated = User {
                    username: update.username.clone(),
                    monthly_goal: update.monthly_goal,
                    ..old_user
                };
                let result = updated.duplicate();
                self.users.set(i, updated);
                proof {
                    let s0 = old(self).users@;
                    let s1 = self.users@;
                    assert forall|k: int| 0 <= k < s1.len() implies (0 < (#[trigger] s1[k]).id
                        < self.next_id && s1[k].valid()) by {
                        if k != i as int {
                            assert(s1[k] == s0[k]);
                        }
                    }
                    assert forall|k: int, l: int| 0 <= k < l < s1.len() implies (#[trigger] s1[k]).id
                        != (#[trigger] s1[l]).id by {
                        assert(s1[k].id == s0[k].id);
                        assert(s1[l].id == s0[l].id);
                    }
                }
                return Ok(result);
            }
            i += 1;
        }
        proof {
            lemma_first_where_none(self.users@, p);
        }
        Err(AppError::NotFound(String::from_str("User not found")))
    }

    /// Soft-delete the live user with this id; `NotFound` exactly when
    /// there is none (so deleting twice fails the second time).
    pub fn delete(&mut self, user_id: i64, now: DateTime) -> (r: AppResult<()>)
        requires
            old(self).wf(),
            now.valid(),
        ensures
            final(self).wf(),
            ({
                let idx = first_where(old(self).users@, active_user_with_id(user_id));
                if idx >= 0 {
                    &&& r is Ok
                    &&& final(self).users@ == old(self).users@.update(
                        idx,
                        User { deleted_at: Some(now), ..old(self).users@[idx] },
                    )
                    &&& final(self).next_id == old(self).next_id
                } else {
                    &&& r matches Err(e) && e is NotFound
                    &&& *final(self) == *old(self)
                }
            }),
    {
        let ghost p = active_user_with_id(user_id);
        let n = self.users.len();
        let mut i: usize = 0;
        while i < n
            invariant
                p == active_user_with_id(user_id),
                *self == *old(self),
                old(self).wf(),
                now.valid(),
                n == self.users@.len(),
                0 <= i <= n,
                forall|k: int| 0 <= k < i ==> !p(self.users@[k]),
            decreases n - i,
        {
            let found = {
                let u = &self.users[i];
                u.id == user_id && u.deleted_at.is_none()
            };
            if found {
                proof {
                    lemma_first_where_is(self.users@, p, i as int);
                }
                let updated = User { deleted_at: Some(now), ..self.users[i].duplicate() };
                self.users.set(i, updated);
                proof {
                    let s0 = old(self).users@;
                    let s1 = self.users@;
                    assert forall|k: int| 0 <= k < s1.len() implies (0 < (#[trigger] s1[k]).id
                        < self.next_id && s1[k].valid()) by {
                        if k != i as int {
                            assert(s1[k] == s0[k]);
                        }
                    }
                    assert forall|k: int, l: int| 0 <= k < l < s1.len() implies (#[trigger] s1[k]).id
                        != (#[trigger] s1[l]).id by {
                        assert(s1[k].id == s0[k].id);
                        assert(s1[l].id == s0[l].id);
                    }
                }
                return Ok(());
            }
            i += 1;
        }
        proof {
            lemma_first_where_none(self.users@, p);
        }
        Err(AppError::NotFound(String::from_str("User not found")))
    }
}

} // verus!
