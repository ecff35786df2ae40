use crate::dates::{Date, DateTime};
use crate::error::{AppError, AppResult};
use crate::seqs::{first_where, lemma_first_where, lemma_first_where_is, lemma_first_where_none};
use crate::text::{ascii_lower_eq, spec_ascii_lower, str_eq};
use crate::token::new_uuid_string;
use vstd::prelude::*;

verus! {

/// How long an OAuth state token may wait for the provider's redirect.
pub const OAUTH_STATE_TIMEOUT_SECONDS: i64 = 600;

/// The freshness buffer before an access token's expiry: a token within
/// a minute of expiring is refreshed rather than used.
pub const TOKEN_EXPIRY_BUFFER_SECONDS: i64 = 60;

/// A linked external account. Times are in seconds since 1970-01-01
/// 00:00:00 (the provider hands expiries out that way); `last_sync` is the
/// watermark from which the next activity sync scans.
#[derive(Debug)]
pub struct StravaModel {
    pub user_id: i64,
    pub strava_id: i64,
    pub strava_name: String,
    pub last_sync: i64,
    pub access_token: String,
    pub refresh_token: String,
    pub expires_at: i64,
}

/// A link row as the storage layer sees it (date-times rendered by the
/// storage adapter).
#[derive(Debug)]
pub struct StravaRaw {
    pub user_id: i64,
    pub strava_id: i64,
    pub strava_name: String,
    pub last_sync: String,
    pub access_token: String,
    pub refresh_token: String,
    pub expires_at: String,
}

/// The authorization URL handed back when a handshake starts.
#[derive(Debug)]
pub struct OAuthUrl {
    pub url: String,
}

/// What of a link is shown to its user: no tokens.
#[derive(Debug)]
pub struct StravaLink {
    pub user_id: i64,
    pub strava_id: i64,
    pub strava_name: String,
}

/// The caller-updatable part of a link: the sync watermark.
#[derive(Debug, Clone, Copy, PartialEq, Eq, Structural)]
pub struct StravaLinkPartial {
    pub last_sync: i64,
}

/// The provider's athlete summary.
#[derive(Debug)]
pub struct SummaryAthlete {
    pub id: i64,
    pub firstname: String,
    pub lastname: String,
}

/// The provider's athlete detail: includes the registered bikes.
#[derive(Debug)]
pub struct DetailedAthlete {
    pub id: i64,
    pub firstname: String,
    pub lastname: String,
    pub bikes: Vec<SummaryGear>,
}

/// One piece of gear as the provider lists it.
#[derive(Debug)]
pub struct SummaryGear {
    pub id: String,
    pub name: String,
}

/// The provider's answer to the authorization-code exchange.
#[derive(Debug)]
pub struct IssueTokenResponse {
    pub access_token: String,
    pub refresh_token: String,
    pub expires_at: i64,
    pub athlete: SummaryAthlete,
}

/// The provider's answer to a token refresh.
#[derive(Debug)]
pub struct RefreshTokenResponse {
    pub access_token: String,
    pub refresh_token: String,
    pub expires_at: i64,
}

/// The activity-listing query: a time window and a page.
#[derive(Debug, Clone, Copy, PartialEq, Eq, Structural)]
pub struct ActivityFilter {
    pub before: Option<i64>,
    pub after: Option<i64>,
    pub page: i64,
    pub per_page: i64,
}

impl ActivityFilter {
    /// The first page, thirty activities at a time, no window.
    pub fn default_filter() -> (r: ActivityFilter)
        ensures
            r == (ActivityFilter { before: None, after: None, page: 1, per_page: 30 }),
    {
        ActivityFilter { before: None, after: None, page: 1, per_page: 30 }
    }
}

/// How an activity's provider-defined sport type is classified here:
/// bicycle-like types count, everything else is `Other`.
#[derive(Debug, Clone, Copy, PartialEq, Eq, Structural)]
pub enum SportType {
    BikeRide,
    Other,
}

/// The provider sport-type strings that classify as a bike ride.
pub open spec fn spec_is_bike_sport(s: Seq<char>) -> bool {
    ||| s == "EBikeRide"@
    ||| s == "EMountainBikeRide"@
    ||| s == "GravelRide"@
    ||| s == "Handcycle"@
    ||| s == "MountainBikeRide"@
    ||| s == "Ride"@
    ||| s == "Velomobile"@
    ||| s == "VirtualRide"@
}

/// Classify a provider sport-type string.
pub fn sport_type_of(s: &str) -> (r: SportType)
    ensures
        r == SportType::BikeRide <==> spec_is_bike_sport(s@),
{
    if str_eq(s, "EBikeRide") || str_eq(s, "EMountainBikeRide") || str_eq(s, "GravelRide")
        || str_eq(s, "Handcycle") || str_eq(s, "MountainBikeRide") || str_eq(s, "Ride") || str_eq(
        s,
        "Velomobile",
    ) || str_eq(s, "VirtualRide") {
        SportType::BikeRide
    } else {
        SportType::Other
    }
}

/// One activity from the provider's listing, reduced to plain values:
/// the distance in metres (rounded by the boundary), the local start
/// date, and the gear the athlete rode.
#[derive(Debug)]
pub struct Activity {
    pub id: i64,
    pub name: String,
    pub distance: u64,
    pub sport: SportType,
    pub date: Date,
    pub gear_id: Option<String>,
}

impl Activity {
    pub open spec fn gear_view(self) -> Option<Seq<char>> {
        match self.gear_id {
            Some(g) => Some(g@),
            None => None,
        }
    }
}

impl StravaModel {
    /// An equal copy (field by field).
    pub fn duplicate(&self) -> (r: StravaModel)
        ensures
            r == *self,
    {
        StravaModel {
            user_id: self.user_id,
            strava_id: self.strava_id,
            strava_name: self.strava_name.clone(),
            last_sync: self.last_sync,
            access_token: self.access_token.clone(),
            refresh_token: self.refresh_token.clone(),
            expires_at: self.expires_at,
        }
    }

    /// Whether the access token must be refreshed before use: it is
    /// within the buffer of expiring, or past it.
    pub fn needs_refresh(&self, now_seconds: i64) -> (r: bool)
        ensures
            r == (self.expires_at <= now_seconds - TOKEN_EXPIRY_BUFFER_SECONDS),
    {
        (self.expires_at as i128) <= (now_seconds as i128) - (TOKEN_EXPIRY_BUFFER_SECONDS as i128)
    }

    /// Fold a refresh answer into the link: new tokens and expiry, the
    /// identity and watermark untouched.
    pub fn apply_refresh(self, response: RefreshTokenResponse) -> (r: StravaModel)
        ensures
            r.user_id == self.user_id,
            r.strava_id == self.strava_id,
            r.strava_name == self.strava_name,
            r.last_sync == self.last_sync,
            r.access_token == response.access_token,
            r.refresh_token == response.refresh_token,
            r.expires_at == response.expires_at,
    {
        StravaModel {
            access_token: response.access_token,
            refresh_token: response.refresh_token,
            expires_at: response.expires_at,
            ..self
        }
    }

    /// Advance the watermark to the given sync time.
    pub fn with_last_sync(self, last_sync: i64) -> (r: StravaModel)
        ensures
            r == (StravaModel { last_sync, ..self }),
    {
        StravaModel { last_sync, ..self }
    }

    /// The user-visible view of the link.
    pub fn to_link(&self) -> (r: StravaLink)
        ensures
            r.user_id == self.user_id,
            r.strava_id == self.strava_id,
            r.strava_name == self.strava_name,
    {
        StravaLink {
            user_id: self.user_id,
            strava_id: self.strava_id,
            strava_name: self.strava_name.clone(),
        }
    }
}

/// Build the link a fresh code exchange yields: identity from the
/// athlete, name joined from the athlete's names, watermark at the
/// epoch so the first sync scans everything.
pub fn token_response_to_model(response: IssueTokenResponse, user_id: i64) -> (r: StravaModel)
    ensures
        r.user_id == user_id,
        r.strava_id == response.athlete.id,
        r.strava_name@ == response.athlete.firstname@ + " "@ + response.athlete.lastname@,
        r.last_sync == 0,
        r.access_token == response.access_token,
        r.refresh_token == response.refresh_token,
        r.expires_at == response.expires_at,
{
    let strava_name = response.athlete.firstname.clone().concat(" ").concat(
        response.athlete.lastname.as_str(),
    );
    StravaModel {
        user_id,
        strava_id: response.athlete.id,
        strava_name,
        last_sync: 0,
        access_token: response.access_token,
        refresh_token: response.refresh_token,
        expires_at: response.expires_at,
    }
}

/// Matches the link of one user.
pub open spec fn link_of_user(user_id: i64) -> spec_fn(StravaModel) -> bool {
    |m: StravaModel| m.user_id == user_id
}

/// The linked-accounts table: at most one row per user.
pub struct StravaStore {
    pub links: Vec<StravaModel>,
}

impl StravaStore {
    pub open spec fn wf(self) -> bool {
        forall|i: int, j: int|
            0 <= i < j < self.links@.len() ==> (#[trigger] self.links@[i]).user_id != (
            #[trigger] self.links@[j]).user_id
    }

    pub fn new() -> (r: StravaStore)
        ensures
            r.wf(),
            r.links@.len() == 0,
    {
        StravaStore { links: Vec::new() }
    }

    /// The user's link, if the account is connected.
    pub fn try_get(&self, user_id: i64) -> (r: Option<StravaModel>)
        ensures
            ({
                let idx = first_where(self.links@, link_of_user(user_id));
                &&& (r is Some <==> idx >= 0)
                &&& (r matches Some(m) ==> m == self.links@[idx])
            }),
    {
        let ghost p = link_of_user(user_id);
        let n = self.links.len();
        let mut i: usize = 0;
        while i < n
            invariant
                p == link_of_user(user_id),
                n == self.links@.len(),
                0 <= i <= n,
                forall|k: int| 0 <= k < i ==> !p(self.links@[k]),
            decreases n - i,
        {
            if self.links[i].user_id == user_id {
                proof {
                    lemma_first_where_is(self.links@, p, i as int);
                }
                return Some(self.links[i].duplicate());
            }
            i += 1;
        }
        proof {
            lemma_first_where_none(self.links@, p);
        }
        None
    }

    /// Store a new link; `Database` exactly when the user already has
    /// one (the unique key would reject the row).
    pub fn create(&mut self, model: StravaModel) -> (r: AppResult<()>)
        requires
            old(self).wf(),
        ensures
            final(self).wf(),
            ({
                let dup = first_where(old(self).links@, link_of_user(model.user_id)) >= 0;
                if dup {
                    &&& r matches Err(e) && e is Database
                    &&& *final(self) == *old(self)
                } else {
                    &&& r is Ok
                    &&& final(self).links@ == old(self).links@.push(model)
                }
            }),
    {
        let ghost p = link_of_user(model.user_id);
        let n = self.links.len();
        let mut i: usize = 0;
        while i < n
            invariant
                p == link_of_user(model.user_id),
                *self == *old(self),
                old(self).wf(),
                n == self.links@.len(),
                0 <= i <= n,
                forall|k: int| 0 <= k < i ==> !p(self.links@[k]),
            decreases n - i,
        {
            if self.links[i].user_id == model.user_id {
                proof {
                    lemma_first_where_is(self.links@, p, i as int);
                }
                return Err(AppError::Database(String::from_str("link already exists")));
            }
            i += 1;
        }
        proof {
            lemma_first_where_none(self.links@, p);
        }
        self.links.push(model);
        proof {
            let s0 = old(self).links@;
            let s1 = self.links@;
            assert forall|k: int, l: int| 0 <= k < l < s1.len() implies (#[trigger] s1[k]).user_id
                != (#[trigger] s1[l]).user_id by {
                if l < s0.len() {
                    assert(s1[k] == s0[k]);
                    assert(s1[l] == s0[l]);
                } else {
                    assert(s1[k] == s0[k]);
                    assert(!p(s0[k]));
                }
            }
        }
        Ok(())
    }

    /// Replace the stored tokens, expiry and watermark of the user's
    /// link; a missing link changes nothing, as the bare SQL update does.
    pub fn update(&mut self, model: StravaModel) -> (r: AppResult<()>)
        requires
            old(self).wf(),
        ensures
            final(self).wf(),
            r is Ok,
            ({
                let idx = first_where(old(self).links@, link_of_user(model.user_id));
                if idx >= 0 {
                    final(self).links@ == old(self).links@.update(
                        idx,
                        StravaModel {
                            strava_id: old(self).links@[idx].strava_id,
                            strava_name: old(self).links@[idx].strava_name,
                            ..model
                        },
                    )
                } else {
                    *final(self) == *old(self)
                }
            }),
    {
        let ghost p = link_of_user(model.user_id);
        let n = self.links.len();
        let mut i: usize = 0;
        while i < n
            invariant
                p == link_of_user(model.user_id),
                *self == *old(self),
                old(self).wf(),
                n == self.links@.len(),
                0 <= i <= n,
                forall|k: int| 0 <= k < i ==> !p(self.links@[k]),
            decreases n - i,
        {
            if self.links[i].user_id == model.user_id {
                proof {
                    lemma_first_where_is(self.links@, p, i as int);
                }
                let updated = StravaModel {
                    strava_id: self.links[i].strava_id,
                    strava_name: self.links[i].strava_name.clone(),
                    ..model
                };
                self.links.set(i, updated);
                proof {
                    let s0 = old(self).links@;
                    let s1 = self.links@;
                    assert forall|k: int, l: int| 0 <= k < l < s1.len() implies (
                    #[trigger] s1[k]).user_id != (#[trigger] s1[l]).user_id by {
                        assert(s1[k].user_id == s0[k].user_id);
                        assert(s1[l].user_id == s0[l].user_id);
                    }
                }
                return Ok(());
            }
            i += 1;
        }
        proof {
            lemma_first_where_none(self.links@, p);
        }
        Ok(())
    }

    /// Remove the user's link (hard delete: tokens must not linger).
    pub fn delete(&mut self, user_id: i64) -> (r: AppResult<()>)
        requires
            old(self).wf(),
        ensures
            final(self).wf(),
            r is Ok,
            ({
                let idx = first_where(old(self).links@, link_of_user(user_id));
                if idx >= 0 {
                    final(self).links@ == old(self).links@.remove(idx)
                } else {
                    *final(self) == *old(self)
                }
            }),
    {
        let ghost p = link_of_user(user_id);
        let n = self.links.len();
        let mut i: usize = 0;
        while i < n
            invariant
                p == link_of_user(user_id),
                *self == *old(self),
                old(self).wf(),
                n == self.links@.len(),
                0 <= i <= n,
                forall|k: int| 0 <= k < i ==> !p(self.links@[k]),
            decreases n - i,
        {
            if self.links[i].user_id == user_id {
                proof {
                    lemma_first_where_is(self.links@, p, i as int);
                }
                self.links.remove(i);
                proof {
                    let s0 = old(self).links@;
                    let s1 = self.links@;
                    assert forall|k: int, l: int| 0 <= k < l < s1.len() implies (
                    #[trigger] s1[k]).user_id != (#[trigger] s1[l]).user_id by {
                        if k < i as int {
                            assert(s1[k] == s0[k]);
                        } else {
                            assert(s1[k] == s0[k + 1]);
                        }
                        if l < i as int {
                            assert(s1[l] == s0[l]);
                        } else {
                            assert(s1[l] == s0[l + 1]);
                        }
                    }
                }
                return Ok(());
            }
            i += 1;
        }
        proof {
            lemma_first_where_none(self.links@, p);
        }
        Ok(())
    }
}

/// A pending OAuth handshake: a random state token tied to the user who
/// started it.
#[derive(Debug)]
pub struct OAuthState {
    pub token: String,
    pub user_id: i64,
    pub created_at: DateTime,
}

impl OAuthState {
    pub open spec fn valid(self) -> bool {
        self.created_at.valid()
    }

    /// An equal copy (field by field).
    pub fn duplicate(&self) -> (r: OAuthState)
        ensures
            r == *self,
    {
        OAuthState {
            token: self.token.clone(),
            user_id: self.user_id,
            created_at: self.created_at,
        }
    }
}

/// Matches the pending handshake with the given state token.
pub open spec fn state_with_token(token: Seq<char>) -> spec_fn(OAuthState) -> bool {
    |s: OAuthState| s.token@ == token
}

/// A state entry still within the handshake timeout at `now`.
pub open spec fn state_live(s: OAuthState, now: DateTime) -> bool {
    now.spec_unix_seconds() - s.created_at.spec_unix_seconds() <= OAUTH_STATE_TIMEOUT_SECONDS
}

/// The in-memory store of pending OAuth handshakes. Entries are single
/// use: the redirect that consumes one removes it.
pub struct OAuthStateStore {
    pub states: Vec<OAuthState>,
}

impl OAuthStateStore {
    /// Store invariant: state tokens are unique and timestamps real.
    pub open spec fn wf(self) -> bool {
        &&& forall|i: int| 0 <= i < self.states@.len() ==> (#[trigger] self.states@[i]).valid()
        &&& forall|i: int, j: int|
            0 <= i < j < self.states@.len() ==> (#[trigger] self.states@[i]).token@ != (
            #[trigger] self.states@[j]).token@
    }

    pub fn new() -> (r: OAuthStateStore)
        ensures
            r.wf(),
            r.states@.len() == 0,
    {
        OAuthStateStore { states: Vec::new() }
    }

    /// Drop every entry older than the handshake timeout. Run at the
    /// start of each OAuth operation; there is no background timer.
    pub fn clear_expired(&mut self, now: DateTime)
        requires
            old(self).wf(),
            now.valid(),
        ensures
            final(self).wf(),
            final(self).states@ == old(self).states@.filter(
                (|s: OAuthState| state_live(s, now)),
            ),
    {
        let ghost p = (|s: OAuthState| state_live(s, now));
        let n = self.states.len();
        let mut kept: Vec<OAuthState> = Vec::new();
        let mut i: usize = 0;
        let now_s = now.unix_seconds();
        let ghost orig = self.states@;
        while i < n
            invariant
                p == (|s: OAuthState| state_live(s, now)),
                *self == *old(self),
                old(self).wf(),
                now.valid(),
                now_s == now.spec_unix_seconds(),
                orig == old(self).states@,
                n == self.states@.len(),
                0 <= i <= n,
                kept@ == orig.take(i as int).filter(p),
            decreases n - i,
        {
            proof {
                assert(orig.take(i as int + 1) =~= orig.take(i as int).push(orig[i as int]));
                crate::seqs::lemma_filter_push(orig.take(i as int), p, orig[i as int]);
            }
            let s = &self.states[i];
            let created_s = s.created_at.unix_seconds();
            if (now_s as i128) - (created_s as i128) <= (OAUTH_STATE_TIMEOUT_SECONDS as i128) {
                kept.push(s.duplicate());
            }
            i += 1;
        }
        proof {
            assert(orig.take(n as int) =~= orig);
        }
        self.states = kept;
        proof {
            let s1 = self.states@;
            let f = orig.filter(p);
            assert forall|k: int| 0 <= k < s1.len() implies (#[trigger] s1[k]).valid() by {
                orig.lemma_filter_pred(p, k);
                orig.lemma_filter_len(p);
                assert(s1[k] == f[k]);
                lemma_filter_element_of(orig, p, k);
            }
            assert forall|k: int, l: int| 0 <= k < l < s1.len() implies (#[trigger] s1[k]).token@
                != (#[trigger] s1[l]).token@ by {
                lemma_filter_pair_distinct(orig, p, k, l);
            }
        }
    }

    /// Record a pending handshake. An entry with the same token is
    /// replaced (the map-insert the original performed).
    pub fn insert(&mut self, token: String, user_id: i64, now: DateTime)
        requires
            old(self).wf(),
            now.valid(),
        ensures
            final(self).wf(),
            ({
                let entry = OAuthState { token, user_id, created_at: now };
                let idx = first_where(old(self).states@, state_with_token(token@));
                if idx >= 0 {
                    final(self).states@ == old(self).states@.update(idx, entry)
                } else {
                    final(self).states@ == old(self).states@.push(entry)
                }
            }),
    {
        let ghost p = state_with_token(token@);
        let entry = OAuthState { token, user_id, created_at: now };
        let n = self.states.len();
        let mut i: usize = 0;
        while i < n
            invariant
                p == state_with_token(entry.token@),
                entry == (OAuthState { token, user_id, created_at: now }),
                *self == *old(self),
                old(self).wf(),
                entry.valid(),
                n == self.states@.len(),
                0 <= i <= n,
                forall|k: int| 0 <= k < i ==> !p(self.states@[k]),
            decreases n - i,
        {
            if str_eq(self.states[i].token.as_str(), entry.token.as_str()) {
                proof {
                    lemma_first_where_is(self.states@, p, i as int);
                }
                self.states.set(i, entry);
                proof {
                    let s0 = old(self).states@;
                    let s1 = self.states@;
                    assert forall|k: int, l: int| 0 <= k < l < s1.len() implies (
                    #[trigger] s1[k]).token@ != (#[trigger] s1[l]).token@ by {
                        assert(s1[k].token@ == s0[k].token@);
                        assert(s1[l].token@ == s0[l].token@);
                    }
                }
                return ;
            }
            i += 1;
        }
        proof {
            lemma_first_where_none(self.states@, p);
        }
        self.states.push(entry);
        proof {
            let s0 = old(self).states@;
            let s1 = self.states@;
            assert forall|k: int, l: int| 0 <= k < l < s1.len() implies (#[trigger] s1[k]).token@
                != (#[trigger] s1[l]).token@ by {
                if l < s0.len() {
                    assert(s1[k] == s0[k]);
                    assert(s1[l] == s0[l]);
                } else {
                    assert(s1[k] == s0[k]);
                    assert(!p(s0[k]));
                }
            }
        }
    }

    /// Consume the handshake with this state token: it is returned once
    /// and removed, so a replayed redirect finds nothing.
    pub fn take(&mut self, token: &str) -> (r: Option<(i64, DateTime)>)
        requires
            old(self).wf(),
        ensures
            final(self).wf(),
            ({
                let idx = first_where(old(self).states@, state_with_token(token@));
                &&& (r is Some <==> idx >= 0)
                &&& (r matches Some(pair) ==> idx >= 0 && pair.0 == old(self).states@[idx].user_id
                    && pair.1 == old(self).states@[idx].created_at && final(self).states@ == old(
                    self,
                ).states@.remove(idx))
                &&& (r is None ==> *final(self) == *old(self))
            }),
            first_where(final(self).states@, state_with_token(token@)) < 0 || r is None,
            r is None ==> first_where(old(self).states@, state_with_token(token@)) < 0,
    {
        let ghost p = state_with_token(token@);
        let n = self.states.len();
        let mut i: usize = 0;
        while i < n
            invariant
                p == state_with_token(token@),
                *self == *old(self),
                old(self).wf(),
                n == self.states@.len(),
                0 <= i <= n,
                forall|k: int| 0 <= k < i ==> !p(self.states@[k]),
            decreases n - i,
        {
            if str_eq(self.states[i].token.as_str(), token) {
                proof {
                    lemma_first_where_is(self.states@, p, i as int);
                }
                let found = self.states[i].duplicate();
                self.states.remove(i);
                proof {
                    let s0 = old(self).states@;
                    let s1 = self.states@;
                    assert forall|k: int, l: int| 0 <= k < l < s1.len() implies (
                    #[trigger] s1[k]).token@ != (#[trigger] s1[l]).token@ by {
                        if k < i as int {
                            assert(s1[k] == s0[k]);
                        } else {
                            assert(s1[k] == s0[k + 1]);
                        }
                        if l < i as int {
                            assert(s1[l] == s0[l]);
                        } else {
                            assert(s1[l] == s0[l + 1]);
                        }
                    }
                    assert forall|k: int| 0 <= k < s1.len() implies (#[trigger] s1[k]).valid() by {
                        if k < i as int {
                            assert(s1[k] == s0[k]);
                        } else {
                            assert(s1[k] == s0[k + 1]);
                        }
                    }
                    assert forall|k: int| 0 <= k < s1.len() implies !p(s1[k]) by {
                        if k < i as int {
                            assert(s1[k] == s0[k]);
                        } else {
                            assert(s1[k] == s0[k + 1]);
                            assert(s0[k + 1].token@ != s0[i as int].token@);
                        }
                    }
                    lemma_first_where_none(s1, p);
                }
                return Some((found.user_id, found.created_at));
            }
            i += 1;
        }
        proof {
            lemma_first_where_none(self.states@, p);
        }
        None
    }
}

/// A maximal comma-free segment of `s`: what splitting on commas yields.
pub open spec fn is_piece(s: Seq<char>, a: int, b: int) -> bool {
    &&& 0 <= a <= b <= s.len()
    &&& (a == 0 || s[a - 1] == ',')
    &&& (b == s.len() || s[b] == ',')
    &&& forall|k: int| a <= k < b ==> s[k] != ','
}

/// Whether the comma-separated list `s` contains `want`, compared after
/// ASCII case folding — the grant check of the OAuth redirect.
pub open spec fn spec_scope_granted(s: Seq<char>, want: Seq<char>) -> bool {
    exists|a: int, b: int| is_piece(s, a, b) && spec_ascii_lower(s.subrange(a, b)) == want
}

/// The first comma at or after `start`, or the end of the string.
fn find_comma(s: &str, start: usize) -> (e: usize)
    requires
        start <= s@.len(),
    ensures
        start <= e <= s@.len(),
        forall|k: int| start <= k < e ==> s@[k] != ',',
        e < s@.len() ==> s@[e as int] == ',',
{
    let n = s.unicode_len();
    let mut e = start;
    while e < n
        invariant
            n == s@.len(),
            start <= e <= n,
            forall|k: int| start <= k < e ==> s@[k] != ',',
        decreases n - e,
    {
        if s.get_char(e) == ',' {
            return e;
        }
        e += 1;
    }
    n
}

/// Whether one of the comma-separated scopes in `granted`, folded to
/// ASCII lower case, is `want`.
pub fn scope_granted(granted: &str, want: &str) -> (r: bool)
    ensures
        r == spec_scope_granted(granted@, want@),
{
    let n = granted.unicode_len();
    let ghost g = granted@;
    let mut start: usize = 0;
    loop
        invariant
            n == g.len(),
            g == granted@,
            0 <= start <= n,
            start == 0 || g[start - 1] == ',',
            forall|a: int, b: int|
                #[trigger] is_piece(g, a, b) && a < start ==> spec_ascii_lower(g.subrange(a, b))
                    != want@,
        decreases n - start,
    {
        let e = find_comma(granted, start);
        let piece = granted.substring_char(start, e);
        if ascii_lower_eq(piece, want) {
            proof {
                assert(is_piece(g, start as int, e as int));
                assert(piece@ == g.subrange(start as int, e as int));
            }
            return true;
        }
        proof {
            assert(piece@ == g.subrange(start as int, e as int));
            assert forall|b: int| #[trigger] is_piece(g, start as int, b) implies b == e by {
                if b < e {
                    assert(g[b] == ',');
                } else if b > e {
                    assert(g[e as int] != ',');
                    assert(e < g.len());
                }
            }
        }
        if e == n {
            proof {
                assert forall|a: int, b: int| #[trigger] is_piece(g, a, b) implies spec_ascii_lower(
                    g.subrange(a, b),
                ) != want@ by {
                    if a > start {
                        assert(g[a - 1] == ',');
                        assert(start <= a - 1 < e);
                    } else if a == start {
                        assert(b == e);
                    }
                }
                if spec_scope_granted(g, want@) {
                    let (a, b) = choose|a: int, b: int|
                        is_piece(g, a, b) && spec_ascii_lower(g.subrange(a, b)) == want@;
                    assert(is_piece(g, a, b));
                }
            }
            return false;
        }
        proof {
            assert forall|a: int, b: int|
                #[trigger] is_piece(g, a, b) && a < e + 1 implies spec_ascii_lower(
                g.subrange(a, b),
            ) != want@ by {
                if a > start {
                    assert(g[a - 1] == ',');
                    assert(start <= a - 1 < e);
                } else if a == start {
                    assert(b == e);
                }
            }
        }
        start = e + 1;
    }
}

/// Validate that the provider granted every scope the application asks
/// for; the first missing one is named in the error, as `Other`.
pub fn check_scopes(granted: &str) -> (r: AppResult<()>)
    ensures
        r is Ok <==> (spec_scope_granted(granted@, "read_all"@) && spec_scope_granted(
            granted@,
            "profile:read_all"@,
        ) && spec_scope_granted(granted@, "activity:read_all"@)),
        r matches Err(e) ==> e is Other,
{
    if !scope_granted(granted, "read_all") {
        return Err(
            AppError::Other(String::from_str("Missing scope '").concat("read_all").concat("'")),
        );
    }
    if !scope_granted(granted, "profile:read_all") {
        return Err(
            AppError::Other(
                String::from_str("Missing scope '").concat("profile:read_all").concat("'"),
            ),
        );
    }
    if !scope_granted(granted, "activity:read_all") {
        return Err(
            AppError::Other(
                String::from_str("Missing scope '").concat("activity:read_all").concat("'"),
            ),
        );
    }
    Ok(())
}

/// Handle the provider's redirect against the state store: all scopes
/// must have been granted, and the state token must match a pending
/// handshake, which is consumed. Expired handshakes are purged first.
/// The returned id is the user who started the handshake.
pub fn redirect_state_check(
    states: &mut OAuthStateStore,
    scopes: &str,
    state_token: &str,
    now: DateTime,
) -> (r: AppResult<i64>)
    requires
        old(states).wf(),
        now.valid(),
    ensures
        final(states).wf(),
        ({
            let scopes_ok = spec_scope_granted(scopes@, "read_all"@) && spec_scope_granted(
                scopes@,
                "profile:read_all"@,
            ) && spec_scope_granted(scopes@, "activity:read_all"@);
            let purged = old(states).states@.filter((|s: OAuthState| state_live(s, now)));
            let idx = first_where(purged, state_with_token(state_token@));
            if !scopes_ok {
                &&& r matches Err(e) && e is Other
                &&& *final(states) == *old(states)
            } else if idx < 0 {
                &&& r matches Err(e) && e is Other
                &&& final(states).states@ == purged
            } else {
                &&& r matches Ok(uid) && uid == purged[idx].user_id
                &&& final(states).states@ == purged.remove(idx)
            }
        }),
{
    if let Err(e) = check_scopes(scopes) {
        return Err(e);
    }
    states.clear_expired(now);
    match states.take(state_token) {
        Some((user_id, _created)) => Ok(user_id),
        None => Err(AppError::Other(String::from_str("Invalid state"))),
    }
}

/// Start an OAuth handshake: a fresh random state token is recorded for
/// the user (expired entries are purged first) and returned, to be
/// embedded in the authorization URL.
pub fn begin_oauth(states: &mut OAuthStateStore, user_id: i64, now: DateTime) -> (r: String)
    requires
        old(states).wf(),
        now.valid(),
    ensures
        final(states).wf(),
        r@.len() == 36,
        ({
            let purged = old(states).states@.filter((|s: OAuthState| state_live(s, now)));
            let entry = OAuthState { token: r, user_id, created_at: now };
            let idx = first_where(purged, state_with_token(r@));
            if idx >= 0 {
                final(states).states@ == purged.update(idx, entry)
            } else {
                final(states).states@ == purged.push(entry)
            }
        }),
{
    states.clear_expired(now);
    let token = new_uuid_string();
    let result = token.clone();
    states.insert(token, user_id, now);
    result
}

/// LAW: a state token is single use. Once the handshake with `token` is
/// consumed (its entry removed), no further lookup of that token can
/// succeed, so a replayed redirect fails.
pub proof fn lemma_state_single_use(states: Seq<OAuthState>, token: Seq<char>)
    requires
        forall|i: int, j: int|
            0 <= i < j < states.len() ==> (#[trigger] states[i]).token@ != (
            #[trigger] states[j]).token@,
        first_where(states, state_with_token(token)) >= 0,
    ensures
        first_where(
            states.remove(first_where(states, state_with_token(token))),
            state_with_token(token),
        ) == -1,
{
    let p = state_with_token(token);
    let i = first_where(states, p);
    lemma_first_where(states, p);
    let rest = states.remove(i);
    assert forall|k: int| 0 <= k < rest.len() implies !p(rest[k]) by {
        if k < i {
            assert(rest[k] == states[k]);
        } else {
            assert(rest[k] == states[k + 1]);
            assert(states[k + 1].token@ != states[i].token@);
        }
    }
    lemma_first_where_none(rest, p);
}

/// Every element a filter keeps is an element of the original sequence.
proof fn lemma_filter_element_of<T>(s: Seq<T>, p: spec_fn(T) -> bool, k: int)
    requires
        0 <= k < s.filter(p).len(),
    ensures
        exists|w: int| 0 <= w < s.len() && s[w] == s.filter(p)[k],
    decreases s.len(),
{
    reveal(Seq::filter);
    if s.len() > 0 {
        let f = s.filter(p);
        let g = s.drop_last().filter(p);
        if p(s.last()) && k == f.len() - 1 {
            assert(s[s.len() - 1] == f[k]);
        } else {
            lemma_filter_element_of(s.drop_last(), p, k);
            let w = choose|w: int| 0 <= w < s.drop_last().len() && s.drop_last()[w] == g[k];
            assert(s[w] == s.filter(p)[k]);
        }
    }
}

/// Filtering keeps distinct positions distinct: used to carry pairwise
/// uniqueness through a purge.
proof fn lemma_filter_pair_distinct(s: Seq<OAuthState>, p: spec_fn(OAuthState) -> bool, k: int, l: int)
    requires
        forall|i: int, j: int|
            0 <= i < j < s.len() ==> (#[trigger] s[i]).token@ != (#[trigger] s[j]).token@,
        0 <= k < l < s.filter(p).len(),
    ensures
        s.filter(p)[k].token@ != s.filter(p)[l].token@,
    decreases s.len(),
{
    reveal(Seq::filter);
    if s.len() > 0 {
        let f = s.filter(p);
        let g = s.drop_last().filter(p);
        if p(s.last()) && l == f.len() - 1 {
            lemma_filter_element_of(s.drop_last(), p, k);
            let w = choose|w: int|
                0 <= w < s.drop_last().len() && s.drop_last()[w] == g[k];
            assert(s[w] == f[k]);
            assert(s[w].token@ != s[s.len() - 1].token@);
        } else {
            lemma_filter_pair_distinct(s.drop_last(), p, k, l);
        }
    }
}

} // verus!
