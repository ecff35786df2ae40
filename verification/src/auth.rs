use crate::dates::{date_time_chars, format_date_time, parse_date_time, spec_parse_date_time,
    DateTime};
use crate::error::{AppError, AppResult};
use crate::seqs::{first_where, lemma_first_where, lemma_first_where_is, lemma_first_where_none};
use crate::text::str_eq;
use crate::token::{create_token, is_hex_char, new_uuid_string, TOKEN_BYTES};
use crate::users::{active_user_with_id, User, UserLogin, UserStore};
use vstd::prelude::*;
use vstd::utf8::encode_utf8;

verus! {

/// A bearer session. Its life is `Active -> (sliding-expired | revoked)`;
/// there is no way back to `Active`.
#[derive(Debug)]
pub struct Session {
    pub id: String,
    pub token: String,
    pub user_id: i64,
    pub user_agent: String,
    pub created_at: DateTime,
    pub last_used_at: DateTime,
    pub revoked_at: Option<DateTime>,
}

/// A session as the storage layer sees it: date-times as canonical strings.
#[derive(Debug)]
pub struct SessionRaw {
    pub id: String,
    pub token: String,
    pub user_id: i64,
    pub user_agent: String,
    pub created_at: String,
    pub last_used_at: String,
    pub revoked_at: Option<String>,
}

impl Session {
    pub open spec fn valid(self) -> bool {
        &&& self.created_at.valid()
        &&& self.last_used_at.valid()
        &&& match self.revoked_at {
            Some(dt) => dt.valid(),
            None => true,
        }
    }

    /// An equal copy (field by field).
    pub fn duplicate(&self) -> (r: Session)
        ensures
            r == *self,
    {
        Session {
            id: self.id.clone(),
            token: self.token.clone(),
            user_id: self.user_id,
            user_agent: self.user_agent.clone(),
            created_at: self.created_at,
            last_used_at: self.last_used_at,
            revoked_at: self.revoked_at,
        }
    }

    /// The storage form of this session.
    pub fn to_raw(&self) -> (r: SessionRaw)
        requires
            self.valid(),
        ensures
            r.id == self.id,
            r.token == self.token,
            r.user_id == self.user_id,
            r.user_agent == self.user_agent,
            r.created_at@ == date_time_chars(self.created_at),
            r.last_used_at@ == date_time_chars(self.last_used_at),
            match self.revoked_at {
                Some(dt) => r.revoked_at matches Some(s) && s@ == date_time_chars(dt),
                None => r.revoked_at is None,
            },
    {
        SessionRaw {
            id: self.id.clone(),
            token: self.token.clone(),
            user_id: self.user_id,
            user_agent: self.user_agent.clone(),
            created_at: format_date_time(&self.created_at),
            last_used_at: format_date_time(&self.last_used_at),
            revoked_at: match &self.revoked_at {
                Some(dt) => Some(format_date_time(dt)),
                None => None,
            },
        }
    }

    /// Read a session back from its storage form; fails exactly when a
    /// date-time column is not in the canonical form.
    pub fn from_raw(raw: &SessionRaw) -> (r: AppResult<Session>)
        ensures
            match r {
                Ok(s) => {
                    &&& s.valid()
                    &&& s.id == raw.id
                    &&& s.token == raw.token
                    &&& s.user_id == raw.user_id
                    &&& s.user_agent == raw.user_agent
                    &&& Some(s.created_at) == spec_parse_date_time(encode_utf8(raw.created_at@))
                    &&& Some(s.last_used_at) == spec_parse_date_time(
                        encode_utf8(raw.last_used_at@),
                    )
                    &&& match raw.revoked_at {
                        Some(t) => Some(s.revoked_at) == Some(
                            spec_parse_date_time(encode_utf8(t@)),
                        ),
                        None => s.revoked_at is None,
                    }
                },
                Err(e) => {
                    &&& e is Other
                    &&& (spec_parse_date_time(encode_utf8(raw.created_at@)) is None
                        || spec_parse_date_time(encode_utf8(raw.last_used_at@)) is None || (
                    raw.revoked_at matches Some(t) && spec_parse_date_time(encode_utf8(t@))
                        is None))
                },
            },
    {
        let created_at = match parse_date_time(raw.created_at.as_str()) {
            Some(dt) => dt,
            None => {
                return Err(AppError::Other(String::from_str("invalid date-time")));
            },
        };
        let last_used_at = match parse_date_time(raw.last_used_at.as_str()) {
            Some(dt) => dt,
            None => {
                return Err(AppError::Other(String::from_str("invalid date-time")));
            },
        };
        let revoked_at = match &raw.revoked_at {
            Some(s) => match parse_date_time(s.as_str()) {
                Some(dt) => Some(dt),
                None => {
                    return Err(AppError::Other(String::from_str("invalid date-time")));
                },
            },
            None => None,
        };
        Ok(
            Session {
                id: raw.id.clone(),
                token: raw.token.clone(),
                user_id: raw.user_id,
                user_agent: raw.user_agent.clone(),
                created_at,
                last_used_at,
                revoked_at,
            },
        )
    }
}

/// A fresh session for `user_id`: random id, 128-hex-character random
/// token, both timestamps set to `now`, not revoked.
pub fn create_session(user_id: i64, user_agent: String, now: DateTime) -> (r: Session)
    requires
        now.valid(),
    ensures
        r.user_id == user_id,
        r.user_agent == user_agent,
        r.created_at == now,
        r.last_used_at == now,
        r.revoked_at is None,
        r.valid(),
        r.token@.len() == 2 * TOKEN_BYTES,
        forall|i: int| 0 <= i < r.token@.len() ==> is_hex_char(#[trigger] r.token@[i]),
        r.id@.len() == 36,
{
    Session {
        id: new_uuid_string(),
        token: create_token(),
        user_id,
        user_agent,
        created_at: now,
        last_used_at: now,
        revoked_at: None,
    }
}

/// Matches the session carrying the given token.
pub open spec fn session_with_token(token: Seq<char>) -> spec_fn(Session) -> bool {
    |s: Session| s.token@ == token
}

/// A session is fresh at `now` while the seconds since its last use do
/// not exceed the configured maximum inactivity.
pub open spec fn session_fresh(s: Session, now: DateTime, max_inactivity: int) -> bool {
    now.spec_unix_seconds() - s.last_used_at.spec_unix_seconds() <= max_inactivity
}

/// A session counts as revoked only once `now` is past the recorded
/// revocation time.
pub open spec fn session_unrevoked(s: Session, now: DateTime) -> bool {
    match s.revoked_at {
        Some(r) => now.spec_unix_seconds() <= r.spec_unix_seconds(),
        None => true,
    }
}

/// When a bearer token authenticates: its session exists, is fresh, is
/// not (effectively) revoked, and its user still exists undeleted.
pub open spec fn spec_authenticate_ok(
    users: Seq<User>,
    sessions: Seq<Session>,
    token: Seq<char>,
    now: DateTime,
    max_inactivity: int,
) -> bool {
    let i = first_where(sessions, session_with_token(token));
    &&& i >= 0
    &&& session_fresh(sessions[i], now, max_inactivity)
    &&& session_unrevoked(sessions[i], now)
    &&& first_where(users, active_user_with_id(sessions[i].user_id)) >= 0
}

/// Revoking marks every session of `user_id` with the given session id;
/// everything else is untouched.
pub open spec fn spec_revoke(
    sessions: Seq<Session>,
    user_id: i64,
    session_id: Seq<char>,
    at: DateTime,
) -> Seq<Session> {
    sessions.map(
        |j: int, s: Session|
            if s.user_id == user_id && s.id@ == session_id {
                Session { revoked_at: Some(at), ..s }
            } else {
                s
            },
    )
}

/// The sessions table.
pub struct SessionStore {
    pub sessions: Vec<Session>,
}

impl SessionStore {
    /// Store invariant: tokens are unique (the table has a unique index
    /// on them) and every timestamp is a real date-time.
    pub open spec fn wf(self) -> bool {
        &&& forall|i: int| 0 <= i < self.sessions@.len() ==> (#[trigger] self.sessions@[i]).valid()
        &&& forall|i: int, j: int|
            0 <= i < j < self.sessions@.len() ==> (#[trigger] self.sessions@[i]).token@ != (
            #[trigger] self.sessions@[j]).token@
    }

    pub fn new() -> (r: SessionStore)
        ensures
            r.wf(),
            r.sessions@.len() == 0,
    {
        SessionStore { sessions: Vec::new() }
    }

    /// Persist a session. Fails with `Database` exactly when the token is
    /// already present (the unique index would reject the row).
    pub fn create(&mut self, session: Session) -> (r: AppResult<()>)
        requires
            old(self).wf(),
            session.valid(),
        ensures
            final(self).wf(),
            ({
                let dup = first_where(old(self).sessions@, session_with_token(session.token@))
                    >= 0;
                if dup {
                    &&& r matches Err(e) && e is Database
                    &&& *final(self) == *old(self)
                } else {
                    &&& r is Ok
                    &&& final(self).sessions@ == old(self).sessions@.push(session)
                }
            }),
    {
        let ghost p = session_with_token(session.token@);
        let n = self.sessions.len();
        let mut i: usize = 0;
        while i < n
            invariant
                p == session_with_token(session.token@),
                *self == *old(self),
                old(self).wf(),
                n == self.sessions@.len(),
                0 <= i <= n,
                forall|k: int| 0 <= k < i ==> !p(self.sessions@[k]),
            decreases n - i,
        {
            if str_eq(self.sessions[i].token.as_str(), session.token.as_str()) {
                proof {
                    lemma_first_where_is(self.sessions@, p, i as int);
                }
                return Err(AppError::Database(String::from_str("duplicate session token")));
            }
            i += 1;
        }
        proof {
            lemma_first_where_none(self.sessions@, p);
        }
        self.sessions.push(session);
        proof {
            let s0 = old(self).sessions@;
            let s1 = self.sessions@;
            assert forall|k: int, l: int| 0 <= k < l < s1.len() implies (#[trigger] s1[k]).token@
                != (#[trigger] s1[l]).token@ by {
                if l < s0.len() {
                    assert(s1[k] == s0[k]);
                    assert(s1[l] == s0[l]);
                } else {
                    assert(s1[k] == s0[k]);
                    assert(!p(s0[k]));
                }
            }
        }
        Ok(())
    }

    /// The session carrying this token, if any.
    pub fn try_get_by_token(&self, token: &str) -> (r: Option<Session>)
        ensures
            ({
                let idx = first_where(self.sessions@, session_with_token(token@));
                &&& (r is Some <==> idx >= 0)
                &&& (r matches Some(s) ==> s == self.sessions@[idx])
            }),
    {
        let ghost p = session_with_token(token@);
        let n = self.sessions.len();
        let mut i: usize = 0;
        while i < n
            invariant
                p == session_with_token(token@),
                n == self.sessions@.len(),
                0 <= i <= n,
                forall|k: int| 0 <= k < i ==> !p(self.sessions@[k]),
            decreases n - i,
        {
            if str_eq(self.sessions[i].token.as_str(), token) {
                proof {
                    lemma_first_where_is(self.sessions@, p, i as int);
                }
                return Some(self.sessions[i].duplicate());
            }
            i += 1;
        }
        proof {
            lemma_first_where_none(self.sessions@, p);
        }
        None
    }

    /// Stamp the session carrying this token with a new `last_used_at`
    /// (the sliding-expiry touch).
    pub fn update_last_used(&mut self, token: &str, at: DateTime)
        requires
            old(self).wf(),
            at.valid(),
        ensures
            final(self).wf(),
            final(self).sessions@ == old(self).sessions@.map(
                |j: int, s: Session|
                    if s.token@ == token@ {
                        Session { last_used_at: at, ..s }
                    } else {
                        s
                    },
            ),
    {
        let ghost target = old(self).sessions@.map(
            |j: int, s: Session|
                if s.token@ == token@ {
                    Session { last_used_at: at, ..s }
                } else {
                    s
                },
        );
        let n = self.sessions.len();
        let mut i: usize = 0;
        while i < n
            invariant
                target == old(self).sessions@.map(
                    |j: int, s: Session|
                        if s.token@ == token@ {
                            Session { last_used_at: at, ..s }
                        } else {
                            s
                        },
                ),
                at.valid(),
                old(self).wf(),
                n == self.sessions@.len(),
                n == old(self).sessions@.len(),
                0 <= i <= n,
                forall|k: int| 0 <= k < i ==> self.sessions@[k] == target[k],
                forall|k: int| i <= k < n ==> self.sessions@[k] == old(self).sessions@[k],
            decreases n - i,
        {
            if str_eq(self.sessions[i].token.as_str(), token) {
                let updated = Session { last_used_at: at, ..self.sessions[i].duplicate() };
                self.sessions.set(i, updated);
            }
            i += 1;
        }
        proof {
            assert(self.sessions@ =~= target);
            assert forall|k: int, l: int| 0 <= k < l < self.sessions@.len() implies (
            #[trigger] self.sessions@[k]).token@ != (#[trigger] self.sessions@[l]).token@ by {
                assert(self.sessions@[k].token@ == old(self).sessions@[k].token@);
                assert(self.sessions@[l].token@ == old(self).sessions@[l].token@);
            }
        }
    }

    /// Set `revoked_at` on the session of `user_id` with the given id.
    /// Revoking an unknown or foreign session changes nothing; revoking
    /// twice merely re-stamps the time.
    pub fn revoke(&mut self, user_id: i64, session_id: &str, at: DateTime) -> (r: AppResult<()>)
        requires
            old(self).wf(),
            at.valid(),
        ensures
            final(self).wf(),
            r is Ok,
            final(self).sessions@ == spec_revoke(old(self).sessions@, user_id, session_id@, at),
    {
        let ghost target = spec_revoke(old(self).sessions@, user_id, session_id@, at);
        let n = self.sessions.len();
        let mut i: usize = 0;
        while i < n
            invariant
                target == spec_revoke(old(self).sessions@, user_id, session_id@, at),
                at.valid(),
                old(self).wf(),
                n == self.sessions@.len(),
                n == old(self).sessions@.len(),
                0 <= i <= n,
                forall|k: int| 0 <= k < i ==> self.sessions@[k] == target[k],
                forall|k: int| i <= k < n ==> self.sessions@[k] == old(self).sessions@[k],
            decreases n - i,
        {
            let matches_row = {
                let s = &self.sessions[i];
                s.user_id == user_id && str_eq(s.id.as_str(), session_id)
            };
            if matches_row {
                let updated = Session { revoked_at: Some(at), ..self.sessions[i].duplicate() };
                self.sessions.set(i, updated);
            }
            i += 1;
        }
        proof {
            assert(self.sessions@ =~= target);
            assert forall|k: int, l: int| 0 <= k < l < self.sessions@.len() implies (
            #[trigger] self.sessions@[k]).token@ != (#[trigger] self.sessions@[l]).token@ by {
                assert(self.sessions@[k].token@ == old(self).sessions@[k].token@);
                assert(self.sessions@[l].token@ == old(self).sessions@[l].token@);
            }
        }
        Ok(())
    }
}

/// Authenticate a bearer token against the stores, at time `now` and with
/// the configured maximum inactivity in seconds.
///
/// Exactly when the token's session exists, is fresh, is not past a
/// revocation, and its user is still live, the session is touched
/// (`last_used_at = now`) and the pair is returned; every failure is
/// `Unauthorized`. The touch happens before the user lookup, so a valid
/// session of a vanished user is still touched, as the store shows.
pub fn authenticate(
    users: &UserStore,
    sessions: &mut SessionStore,
    token: &str,
    now: DateTime,
    max_inactivity: i64,
) -> (r: AppResult<(User, Session)>)
    requires
        old(sessions).wf(),
        now.valid(),
    ensures
        final(sessions).wf(),
        r is Ok <==> spec_authenticate_ok(
            users.users@,
            old(sessions).sessions@,
            token@,
            now,
            max_inactivity as int,
        ),
        r matches Err(e) ==> e is Unauthorized,
        ({
            let i = first_where(old(sessions).sessions@, session_with_token(token@));
            if i >= 0 && session_fresh(old(sessions).sessions@[i], now, max_inactivity as int)
                && session_unrevoked(old(sessions).sessions@[i], now) {
                final(sessions).sessions@ == old(sessions).sessions@.update(
                    i,
                    Session { last_used_at: now, ..old(sessions).sessions@[i] },
                )
            } else {
                *final(sessions) == *old(sessions)
            }
        }),
        r matches Ok((u, s)) ==> ({
            let i = first_where(old(sessions).sessions@, session_with_token(token@));
            let j = first_where(users.users@, active_user_with_id(old(sessions).sessions@[i].user_id));
            &&& s == (Session { last_used_at: now, ..old(sessions).sessions@[i] })
            &&& u == users.users@[j]
        }),
{
    let ghost s0 = old(sessions).sessions@;
    let ghost i = first_where(s0, session_with_token(token@));
    proof {
        lemma_first_where(s0, session_with_token(token@));
    }
    let sess = match sessions.try_get_by_token(token) {
        Some(s) => s,
        None => {
            return Err(AppError::Unauthorized);
        },
    };
    let now_s = now.unix_seconds();
    let last_s = sess.last_used_at.unix_seconds();
    if (now_s as i128) - (last_s as i128) > (max_inactivity as i128) {
        return Err(AppError::Unauthorized);
    }
    match &sess.revoked_at {
        Some(revoked) => {
            let revoked_s = revoked.unix_seconds();
            if now_s > revoked_s {
                return Err(AppError::Unauthorized);
            }
        },
        None => {},
    }
    sessions.update_last_used(token, now);
    proof {
        let mapped = s0.map(
            |j: int, s: Session|
                if s.token@ == token@ {
                    Session { last_used_at: now, ..s }
                } else {
                    s
                },
        );
        let touched = s0.update(i, Session { last_used_at: now, ..s0[i] });
        assert forall|k: int| 0 <= k < s0.len() implies mapped[k] == touched[k] by {
            if k != i {
                assert(old(sessions).wf());
                if s0[k].token@ == token@ {
                    lemma_first_where_is(s0, session_with_token(token@), k);
                }
            }
        }
        assert(mapped =~= touched);
    }
    let user = match users.get_by_id(sess.user_id) {
        Ok(u) => u,
        Err(_) => {
            return Err(AppError::Unauthorized);
        },
    };
    Ok((user, Session { last_used_at: now, ..sess }))
}

/// LAW: once a session is revoked at `at`, any later `authenticate` with
/// its token fails, fresh or not.
pub proof fn lemma_revoked_session_fails(
    users: Seq<User>,
    sessions: Seq<Session>,
    user_id: i64,
    session_id: Seq<char>,
    at: DateTime,
    token: Seq<char>,
    now: DateTime,
    max_inactivity: int,
)
    requires
        ({
            let i = first_where(sessions, session_with_token(token));
            &&& i >= 0
            &&& sessions[i].user_id == user_id
            &&& sessions[i].id@ == session_id
        }),
        now.spec_unix_seconds() > at.spec_unix_seconds(),
    ensures
        !spec_authenticate_ok(
            users,
            spec_revoke(sessions, user_id, session_id, at),
            token,
            now,
            max_inactivity,
        ),
{
    let p = session_with_token(token);
    let i = first_where(sessions, p);
    lemma_first_where(sessions, p);
    let revoked = spec_revoke(sessions, user_id, session_id, at);
    assert(revoked.len() == sessions.len());
    assert forall|k: int| 0 <= k < i implies !p(revoked[k]) by {
        assert(revoked[k].token@ == sessions[k].token@);
    }
    assert(revoked[i].token@ == sessions[i].token@);
    lemma_first_where_is(revoked, p, i);
    assert(revoked[i].revoked_at == Some(at));
    assert(!session_unrevoked(revoked[i], now));
}

/// Issue a session for the named user: the login route. Fails with
/// `NotFound` exactly when no live user carries the username; the freak
/// case of a token collision surfaces as `Database` and stores nothing.
pub fn login(
    users: &UserStore,
    sessions: &mut SessionStore,
    request: &UserLogin,
    user_agent: String,
    now: DateTime,
) -> (r: AppResult<Session>)
    requires
        old(sessions).wf(),
        now.valid(),
    ensures
        final(sessions).wf(),
        ({
            let idx = first_where(users.users@, crate::users::active_user_with_name(request.username@));
            if idx < 0 {
                &&& r matches Err(e) && e is NotFound
                &&& *final(sessions) == *old(sessions)
            } else {
                match r {
                    Ok(s) => {
                        &&& s.user_id == users.users@[idx].id
                        &&& s.user_agent == user_agent
                        &&& s.created_at == now
                        &&& s.last_used_at == now
                        &&& s.revoked_at is None
                        &&& s.token@.len() == 2 * TOKEN_BYTES
                        &&& final(sessions).sessions@ == old(sessions).sessions@.push(s)
                    },
                    Err(e) => {
                        &&& e is Database
                        &&& *final(sessions) == *old(sessions)
                    },
                }
            }
        }),
{
    let user = match users.try_get_by_username(request.username.as_str()) {
        Some(u) => u,
        None => {
            return Err(AppError::NotFound(String::from_str("User not found")));
        },
    };
    let session = create_session(user.id, user_agent, now);
    let result = session.duplicate();
    match sessions.create(session) {
        Ok(()) => Ok(result),
        Err(e) => Err(e),
    }
}

/// Log out: revoke the caller's own current session at `now`.
pub fn logout(sessions: &mut SessionStore, session: &Session, now: DateTime) -> (r: AppResult<()>)
    requires
        old(sessions).wf(),
        now.valid(),
    ensures
        final(sessions).wf(),
        r is Ok,
        final(sessions).sessions@ == spec_revoke(
            old(sessions).sessions@,
            session.user_id,
            session.id@,
            now,
        ),
{
    sessions.revoke(session.user_id, session.id.as_str(), now)
}

} // verus!
