use biketrack::bikes::{BikePartial, BikeStore};
use biketrack::config::{strava_config, SecretString, StravaConfig};
use biketrack::dates::{Date, DateTime};
use biketrack::error::AppError;
use biketrack::rides::RideStore;
use biketrack::status::{status_model, Integration};
use biketrack::strava::{
    check_scopes, redirect_state_check, scope_granted, sport_type_of, token_response_to_model,
    Activity, ActivityFilter, IssueTokenResponse, OAuthStateStore, SportType, StravaModel,
    StravaStore, SummaryAthlete,
};
use biketrack::sync::import_activities;

fn date(year: u16, month: u8, day: u8) -> Date {
    Date { year, month, day }
}

fn dt(year: u16, month: u8, day: u8, hour: u8, minute: u8, second: u8) -> DateTime {
    DateTime { date: date(year, month, day), hour, minute, second }
}

const ALL_SCOPES: &str = "read_all,profile:read_all,activity:read_all";

fn activity(id: i64, gear: Option<&str>) -> Activity {
    Activity {
        id,
        name: "Morning Ride".to_string(),
        distance: 15_500,
        sport: SportType::BikeRide,
        date: date(2024, 5, 4),
        gear_id: gear.map(|g| g.to_string()),
    }
}

#[test]
fn sport_types_classify_bike_rides() {
    assert_eq!(sport_type_of("Ride"), SportType::BikeRide);
    assert_eq!(sport_type_of("GravelRide"), SportType::BikeRide);
    assert_eq!(sport_type_of("VirtualRide"), SportType::BikeRide);
    assert_eq!(sport_type_of("Run"), SportType::Other);
    assert_eq!(sport_type_of("ride"), SportType::Other);
    assert_eq!(sport_type_of(""), SportType::Other);
}

#[test]
fn scopes_are_matched_case_insensitively() {
    assert!(scope_granted("READ_ALL,other", "read_all"));
    assert!(scope_granted("read_all", "read_all"));
    assert!(!scope_granted("read,all", "read_all"));
    assert!(!scope_granted("", "read_all"));
    // pieces are taken verbatim: surrounding blanks are not trimmed
    assert!(!scope_granted("other, read_all", "read_all"));
    assert!(check_scopes(ALL_SCOPES).is_ok());
    assert!(check_scopes("Read_All,Profile:Read_All,Activity:Read_All").is_ok());
    let r = check_scopes("read_all,profile:read_all");
    assert!(matches!(r, Err(AppError::Other(_))));
}

#[test]
fn oauth_state_is_single_use() {
    let mut states = OAuthStateStore::new();
    let now = dt(2024, 5, 1, 10, 0, 0);
    let token = biketrack::strava::begin_oauth(&mut states, 7, now);
    assert_eq!(token.len(), 36);
    // first redirect succeeds and names the initiating user
    let first = redirect_state_check(&mut states, ALL_SCOPES, &token, now);
    assert_eq!(first.unwrap(), 7);
    // replaying the same state fails
    let second = redirect_state_check(&mut states, ALL_SCOPES, &token, now);
    assert!(matches!(second, Err(AppError::Other(_))));
}

#[test]
fn expired_states_are_purged() {
    let mut states = OAuthStateStore::new();
    let started = dt(2024, 5, 1, 10, 0, 0);
    let token = biketrack::strava::begin_oauth(&mut states, 7, started);
    // eleven minutes later the handshake has timed out
    let late = dt(2024, 5, 1, 10, 11, 0);
    let r = redirect_state_check(&mut states, ALL_SCOPES, &token, late);
    assert!(matches!(r, Err(AppError::Other(_))));
}

#[test]
fn missing_scope_rejects_before_consuming_state() {
    let mut states = OAuthStateStore::new();
    let now = dt(2024, 5, 1, 10, 0, 0);
    let token = biketrack::strava::begin_oauth(&mut states, 7, now);
    let r = redirect_state_check(&mut states, "read_all", &token, now);
    assert!(matches!(r, Err(AppError::Other(_))));
    // the state is still there for a corrected redirect
    assert!(redirect_state_check(&mut states, ALL_SCOPES, &token, now).is_ok());
}

#[test]
fn token_exchange_builds_the_link() {
    let response = IssueTokenResponse {
        access_token: "access".to_string(),
        refresh_token: "refresh".to_string(),
        expires_at: 1_714_521_600,
        athlete: SummaryAthlete { id: 99, firstname: "Ann".to_string(), lastname: "Rider".to_string() },
    };
    let model = token_response_to_model(response, 7);
    assert_eq!(model.user_id, 7);
    assert_eq!(model.strava_id, 99);
    assert_eq!(model.strava_name, "Ann Rider");
    assert_eq!(model.last_sync, 0);
    assert_eq!(model.expires_at, 1_714_521_600);
}

#[test]
fn token_freshness_uses_a_minute_of_buffer() {
    let model = StravaModel {
        user_id: 1,
        strava_id: 2,
        strava_name: "Ann".to_string(),
        last_sync: 0,
        access_token: "a".to_string(),
        refresh_token: "r".to_string(),
        expires_at: 1_000_000,
    };
    assert!(!model.needs_refresh(999_939));
    assert!(model.needs_refresh(1_000_060));
    assert!(model.needs_refresh(1_000_061));
}

#[test]
fn link_store_holds_one_link_per_user() {
    let mut links = StravaStore::new();
    let model = StravaModel {
        user_id: 1,
        strava_id: 2,
        strava_name: "Ann".to_string(),
        last_sync: 0,
        access_token: "a".to_string(),
        refresh_token: "r".to_string(),
        expires_at: 10,
    };
    links.create(model.duplicate()).unwrap();
    assert!(matches!(links.create(model.duplicate()), Err(AppError::Database(_))));
    let updated = model.duplicate().with_last_sync(123);
    links.update(updated).unwrap();
    assert_eq!(links.try_get(1).unwrap().last_sync, 123);
    links.delete(1).unwrap();
    assert!(links.try_get(1).is_none());
}

#[test]
fn sync_import_dedupes_per_bike_and_activity() {
    let mut bikes = BikeStore::new();
    let mut rides = RideStore::new();
    let owner = 1i64;
    bikes
        .create(
            owner,
            &BikePartial {
                name: "Trek".to_string(),
                description: None,
                color: None,
                strava_gear: Some("g1".to_string()),
            },
        )
        .unwrap();
    let page = vec![activity(100, Some("g1")), activity(101, Some("g1"))];
    // first sync creates one ride per (bike, activity)
    import_activities(&bikes, &mut rides, owner, &page).unwrap();
    assert_eq!(rides.get_all_for_bike(1).len(), 2);
    // an identical second sync creates nothing new
    import_activities(&bikes, &mut rides, owner, &page).unwrap();
    assert_eq!(rides.get_all_for_bike(1).len(), 2);
    let imported = rides.try_get_by_strava_ride_including_deleted(1, 100).unwrap();
    assert_eq!(imported.distance, 15_500);
    assert_eq!(imported.description.as_deref(), Some("Morning Ride"));
    assert_eq!(imported.date, date(2024, 5, 4));
}

#[test]
fn sync_dedup_survives_a_delete_and_resync() {
    let mut bikes = BikeStore::new();
    let mut rides = RideStore::new();
    let owner = 1i64;
    bikes
        .create(
            owner,
            &BikePartial {
                name: "Trek".to_string(),
                description: None,
                color: None,
                strava_gear: Some("g1".to_string()),
            },
        )
        .unwrap();
    let page = vec![activity(100, Some("g1"))];
    import_activities(&bikes, &mut rides, owner, &page).unwrap();
    let imported = rides.get_all_for_bike(1)[0].duplicate();
    rides.delete(imported.id, dt(2024, 5, 5, 0, 0, 0)).unwrap();
    // re-syncing after the delete must not resurrect the ride
    import_activities(&bikes, &mut rides, owner, &page).unwrap();
    assert_eq!(rides.get_all_for_bike(1).len(), 0);
}

#[test]
fn activities_without_matching_gear_import_nothing() {
    let mut bikes = BikeStore::new();
    let mut rides = RideStore::new();
    let owner = 1i64;
    bikes
        .create(
            owner,
            &BikePartial {
                name: "Trek".to_string(),
                description: None,
                color: None,
                strava_gear: Some("g1".to_string()),
            },
        )
        .unwrap();
    let page = vec![activity(1, Some("other-gear")), activity(2, None)];
    import_activities(&bikes, &mut rides, owner, &page).unwrap();
    assert_eq!(rides.get_all_for_bike(1).len(), 0);
}

#[test]
fn default_activity_filter_pages_by_thirty() {
    let f = ActivityFilter::default_filter();
    assert_eq!(f.page, 1);
    assert_eq!(f.per_page, 30);
    assert_eq!(f.before, None);
    assert_eq!(f.after, None);
}

#[test]
fn oauth_url_is_assembled_from_the_configuration() {
    let config = strava_config(
        Some("123".to_string()),
        Some(SecretString::new("SECRET-REDACTED".to_string())),
        Some("https://bikes.example".to_string()),
    )
    .unwrap();
    let url = config.oauth_url("/api/strava/redirect", "read_all,activity:read_all", "state-1");
    assert_eq!(
        url,
        "https://www.strava.com/oauth/authorize?client_id=123&redirect_uri=https://bikes.example/api/strava/redirect&response_type=code&scope=read_all,activity:read_all&state=state-1"
    );
}

#[test]
fn partial_configuration_disables_the_integration() {
    assert!(strava_config(Some("123".to_string()), None, None).is_none());
    let s = status_model("1.2.3".to_string(), false, vec![]);
    assert!(s.integrations.is_empty());
    let s = status_model("1.2.3".to_string(), true, vec!["bikes.example".to_string()]);
    assert_eq!(s.integrations, vec![Integration::Strava]);
    assert_eq!(s.version, "1.2.3");
}

#[test]
fn secrets_mask_their_display() {
    let s = SecretString::new("SECRET-REDACTED".to_string());
    assert_eq!(s.masked(), "#SECRET#");
    assert_eq!(s.expose(), "SECRET-REDACTED");
}

#[test]
fn refresh_folds_new_tokens_into_the_link() {
    let model = StravaModel {
        user_id: 1,
        strava_id: 2,
        strava_name: "Ann".to_string(),
        last_sync: 55,
        access_token: "old-a".to_string(),
        refresh_token: "old-r".to_string(),
        expires_at: 10,
    };
    let refreshed = model.apply_refresh(biketrack::strava::RefreshTokenResponse {
        access_token: "new-a".to_string(),
        refresh_token: "new-r".to_string(),
        expires_at: 99,
    });
    assert_eq!(refreshed.user_id, 1);
    assert_eq!(refreshed.last_sync, 55);
    assert_eq!(refreshed.access_token, "new-a");
    assert_eq!(refreshed.expires_at, 99);
    let link = refreshed.to_link();
    assert_eq!(link.strava_name, "Ann");
}
