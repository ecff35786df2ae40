use biketrack::auth::{authenticate, create_session, login, logout, SessionStore};
use biketrack::dates::{Date, DateTime};
use biketrack::error::AppError;
use biketrack::users::{UserLogin, UserPartial, UserStore};

fn dt(year: u16, month: u8, day: u8, hour: u8, minute: u8, second: u8) -> DateTime {
    DateTime { date: Date { year, month, day }, hour, minute, second }
}

const FOUR_WEEKS: i64 = 60 * 60 * 24 * 7 * 4;

fn seeded_stores() -> (UserStore, SessionStore, String) {
    let mut users = UserStore::new();
    let mut sessions = SessionStore::new();
    let now = dt(2024, 5, 1, 10, 0, 0);
    users
        .create(&UserPartial { username: "alice".to_string(), monthly_goal: None }, now)
        .unwrap();
    let session = login(
        &users,
        &mut sessions,
        &UserLogin { username: "alice".to_string() },
        "test-agent".to_string(),
        now,
    )
    .unwrap();
    (users, sessions, session.token)
}

#[test]
fn session_has_expected_shape() {
    let now = dt(2024, 5, 1, 10, 0, 0);
    let s = create_session(7, "agent".to_string(), now);
    assert_eq!(s.user_id, 7);
    assert_eq!(s.user_agent, "agent");
    assert_eq!(s.token.len(), 128);
    assert_eq!(s.id.len(), 36);
    assert_eq!(s.created_at, now);
    assert_eq!(s.last_used_at, now);
    assert!(s.revoked_at.is_none());
}

#[test]
fn authenticate_succeeds_within_inactivity_window() {
    let (users, mut sessions, token) = seeded_stores();
    // exactly at the threshold: still accepted
    let at_limit = dt(2024, 5, 29, 10, 0, 0);
    assert_eq!(
        at_limit.unix_seconds() - dt(2024, 5, 1, 10, 0, 0).unix_seconds(),
        FOUR_WEEKS
    );
    let r = authenticate(&users, &mut sessions, &token, at_limit, FOUR_WEEKS);
    let (user, session) = r.unwrap();
    assert_eq!(user.username, "alice");
    assert_eq!(session.last_used_at, at_limit);
}

#[test]
fn authenticate_fails_one_second_past_the_threshold() {
    let (users, mut sessions, token) = seeded_stores();
    let past_limit = dt(2024, 5, 29, 10, 0, 1);
    let r = authenticate(&users, &mut sessions, &token, past_limit, FOUR_WEEKS);
    assert!(matches!(r, Err(AppError::Unauthorized)));
}

#[test]
fn sliding_expiry_extends_on_use() {
    let (users, mut sessions, token) = seeded_stores();
    // touch the session two weeks in; four weeks after that is still fine
    let midway = dt(2024, 5, 15, 10, 0, 0);
    authenticate(&users, &mut sessions, &token, midway, FOUR_WEEKS).unwrap();
    let later = dt(2024, 6, 10, 10, 0, 0);
    assert!(authenticate(&users, &mut sessions, &token, later, FOUR_WEEKS).is_ok());
}

#[test]
fn unknown_token_is_unauthorized() {
    let (users, mut sessions, _token) = seeded_stores();
    let now = dt(2024, 5, 1, 10, 0, 1);
    let r = authenticate(&users, &mut sessions, "nonsense", now, FOUR_WEEKS);
    assert!(matches!(r, Err(AppError::Unauthorized)));
}

#[test]
fn revoked_session_stops_authenticating() {
    let (users, mut sessions, token) = seeded_stores();
    let session = sessions.try_get_by_token(&token).unwrap();
    let revoke_at = dt(2024, 5, 1, 11, 0, 0);
    logout(&mut sessions, &session, revoke_at).unwrap();
    // not yet inactivity-expired, but past the revocation instant
    let now = dt(2024, 5, 1, 11, 0, 1);
    let r = authenticate(&users, &mut sessions, &token, now, FOUR_WEEKS);
    assert!(matches!(r, Err(AppError::Unauthorized)));
}

#[test]
fn revoking_twice_is_harmless() {
    let (_users, mut sessions, token) = seeded_stores();
    let session = sessions.try_get_by_token(&token).unwrap();
    let at = dt(2024, 5, 1, 11, 0, 0);
    sessions.revoke(session.user_id, &session.id, at).unwrap();
    let again = dt(2024, 5, 1, 12, 0, 0);
    sessions.revoke(session.user_id, &session.id, again).unwrap();
    let stored = sessions.try_get_by_token(&token).unwrap();
    assert_eq!(stored.revoked_at, Some(again));
}

#[test]
fn revoking_a_foreign_session_changes_nothing() {
    let (_users, mut sessions, token) = seeded_stores();
    let session = sessions.try_get_by_token(&token).unwrap();
    sessions.revoke(session.user_id + 1, &session.id, dt(2024, 5, 1, 11, 0, 0)).unwrap();
    let stored = sessions.try_get_by_token(&token).unwrap();
    assert!(stored.revoked_at.is_none());
}

#[test]
fn login_of_unknown_user_is_not_found() {
    let users = UserStore::new();
    let mut sessions = SessionStore::new();
    let r = login(
        &users,
        &mut sessions,
        &UserLogin { username: "ghost".to_string() },
        "agent".to_string(),
        dt(2024, 5, 1, 10, 0, 0),
    );
    assert!(matches!(r, Err(AppError::NotFound(_))));
}

#[test]
fn vanished_user_is_unauthorized() {
    let (mut users, mut sessions, token) = seeded_stores();
    let user = users.try_get_by_username("alice").unwrap();
    users.delete(user.id, dt(2024, 5, 1, 10, 30, 0)).unwrap();
    let r = authenticate(&users, &mut sessions, &token, dt(2024, 5, 1, 11, 0, 0), FOUR_WEEKS);
    assert!(matches!(r, Err(AppError::Unauthorized)));
}

#[test]
fn session_raw_round_trip() {
    let now = dt(2024, 5, 1, 10, 0, 0);
    let s = create_session(3, "agent".to_string(), now);
    let raw = s.to_raw();
    assert_eq!(raw.created_at, "2024-05-01 10:00:00");
    let back = biketrack::auth::Session::from_raw(&raw).unwrap();
    assert_eq!(back.token, s.token);
    assert_eq!(back.created_at, now);
    assert_eq!(back.revoked_at, None);
}
