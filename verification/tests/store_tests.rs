use biketrack::bikes::{BikePartial, BikeStore};
use biketrack::dates::{Date, DateTime};
use biketrack::error::AppError;
use biketrack::rides::{RideModelExt, RidePartial, RideStore};
use biketrack::users::{UserPartial, UserStore};

fn date(year: u16, month: u8, day: u8) -> Date {
    Date { year, month, day }
}

fn dt(year: u16, month: u8, day: u8, hour: u8, minute: u8, second: u8) -> DateTime {
    DateTime { date: date(year, month, day), hour, minute, second }
}

fn ride(d: Date, km_thousandths: u64) -> RidePartial {
    RidePartial { date: d, distance: km_thousandths, description: None, strava_ride: None }
}

#[test]
fn duplicate_username_conflicts() {
    let mut users = UserStore::new();
    let now = dt(2024, 5, 1, 8, 0, 0);
    users.create(&UserPartial { username: "alice".to_string(), monthly_goal: None }, now).unwrap();
    let r = users.create(&UserPartial { username: "alice".to_string(), monthly_goal: None }, now);
    assert!(matches!(&r, Err(AppError::Conflict(_))));
    assert_eq!(r.err().unwrap().status_code(), 409);
}

#[test]
fn deleted_username_can_be_reused() {
    let mut users = UserStore::new();
    let now = dt(2024, 5, 1, 8, 0, 0);
    let u = users
        .create(&UserPartial { username: "alice".to_string(), monthly_goal: None }, now)
        .unwrap();
    users.delete(u.id, now).unwrap();
    assert!(users.create(&UserPartial { username: "alice".to_string(), monthly_goal: None }, now)
        .is_ok());
}

#[test]
fn deleting_twice_is_not_found() {
    let mut users = UserStore::new();
    let now = dt(2024, 5, 1, 8, 0, 0);
    let u = users
        .create(&UserPartial { username: "bob".to_string(), monthly_goal: Some(100_000) }, now)
        .unwrap();
    users.delete(u.id, now).unwrap();
    assert!(matches!(users.delete(u.id, now), Err(AppError::NotFound(_))));
    assert!(matches!(users.get_by_id(u.id), Err(AppError::NotFound(_))));
}

#[test]
fn assert_owner_tells_forbidden_from_not_found() {
    let mut bikes = BikeStore::new();
    let owner = 1i64;
    let stranger = 2i64;
    let bike = bikes
        .create(
            owner,
            &BikePartial {
                name: "Trek".to_string(),
                description: None,
                color: None,
                strava_gear: None,
            },
        )
        .unwrap();
    assert!(bikes.assert_owner(bike.id, owner).is_ok());
    // existing bike, other user: Forbidden
    assert!(matches!(bikes.assert_owner(bike.id, stranger), Err(AppError::Forbidden)));
    // no such bike at all: NotFound
    assert!(matches!(bikes.assert_owner(bike.id + 99, owner), Err(AppError::NotFound(_))));
    // a soft-deleted bike no longer exists for the ownership check
    bikes.delete(bike.id, dt(2024, 5, 1, 9, 0, 0)).unwrap();
    assert!(matches!(bikes.assert_owner(bike.id, owner), Err(AppError::NotFound(_))));
}

#[test]
fn bike_update_keeps_owner() {
    let mut bikes = BikeStore::new();
    let bike = bikes
        .create(
            5,
            &BikePartial {
                name: "Trek".to_string(),
                description: None,
                color: None,
                strava_gear: None,
            },
        )
        .unwrap();
    let updated = bikes
        .update(
            bike.id,
            &BikePartial {
                name: "Trek Emonda".to_string(),
                description: Some("race".to_string()),
                color: Some("red".to_string()),
                strava_gear: Some("b123".to_string()),
            },
        )
        .unwrap();
    assert_eq!(updated.owner_id, 5);
    assert_eq!(updated.name, "Trek Emonda");
    assert_eq!(bikes.get_one(bike.id).unwrap().strava_gear.as_deref(), Some("b123"));
}

#[test]
fn soft_deleted_rides_are_invisible_but_keep_their_dedup_key() {
    let mut rides = RideStore::new();
    let bike_id = 1i64;
    let created = rides
        .create(
            bike_id,
            &RidePartial {
                date: date(2024, 5, 1),
                distance: 42_000,
                description: None,
                strava_ride: Some(777),
            },
        )
        .unwrap();
    rides.delete(created.id, dt(2024, 5, 2, 0, 0, 0)).unwrap();
    // invisible to the live lookups
    assert!(matches!(rides.get_one(created.id), Err(AppError::NotFound(_))));
    assert!(matches!(rides.check_exists(created.id), Err(AppError::NotFound(_))));
    assert_eq!(rides.get_all_for_bike(bike_id).len(), 0);
    // but the import dedup still sees it
    let found = rides.try_get_by_strava_ride_including_deleted(bike_id, 777);
    assert!(found.is_some());
    assert_eq!(found.unwrap().id, created.id);
}

#[test]
fn rides_list_newest_first() {
    let mut rides = RideStore::new();
    rides.create(1, &ride(date(2024, 5, 1), 10_000)).unwrap();
    rides.create(1, &ride(date(2024, 5, 3), 20_000)).unwrap();
    rides.create(1, &ride(date(2024, 5, 3), 30_000)).unwrap();
    rides.create(1, &ride(date(2024, 4, 30), 40_000)).unwrap();
    let listed = rides.get_all_for_bike(1);
    let dates: Vec<(u16, u8, u8)> =
        listed.iter().map(|r| (r.date.year, r.date.month, r.date.day)).collect();
    assert_eq!(dates, vec![(2024, 5, 3), (2024, 5, 3), (2024, 5, 1), (2024, 4, 30)]);
    // same date: the later (higher) id first
    assert!(listed[0].id > listed[1].id);
}

#[test]
fn date_prefix_filter_matches_like() {
    let mut rides = RideStore::new();
    rides.create(1, &ride(date(2024, 5, 1), 10_000)).unwrap();
    rides.create(1, &ride(date(2024, 6, 1), 20_000)).unwrap();
    rides.create(1, &ride(date(2023, 5, 1), 30_000)).unwrap();
    rides.create(2, &ride(date(2024, 5, 2), 40_000)).unwrap();
    assert_eq!(rides.get_all_for_bike_with_date(1, "2024-").len(), 2);
    assert_eq!(rides.get_all_for_bike_with_date(1, "2024-05-").len(), 1);
    assert_eq!(rides.get_all_for_bike_with_date(1, "2025-").len(), 0);
}

#[test]
fn total_distance_is_exact() {
    let mut rides = RideStore::new();
    rides.create(1, &ride(date(2024, 5, 1), 10_500)).unwrap();
    rides.create(1, &ride(date(2024, 5, 2), 20_250)).unwrap();
    rides.create(2, &ride(date(2024, 5, 2), 99_999)).unwrap();
    let doomed = rides.create(1, &ride(date(2024, 5, 3), 1_000)).unwrap();
    rides.delete(doomed.id, dt(2024, 5, 4, 0, 0, 0)).unwrap();
    assert_eq!(rides.total_distance_for_bike(1).total_distance, 30_750);
    assert_eq!(rides.total_distance_for_bike(3).total_distance, 0);
}

#[test]
fn monthly_buckets_for_a_year() {
    // the end-to-end shape: alice's bike, one May ride of 42 km
    let mut users = UserStore::new();
    let mut bikes = BikeStore::new();
    let mut rides = RideStore::new();
    let now = dt(2024, 5, 1, 8, 0, 0);
    let alice = users
        .create(&UserPartial { username: "alice".to_string(), monthly_goal: None }, now)
        .unwrap();
    let trek = bikes
        .create(
            alice.id,
            &BikePartial {
                name: "Trek".to_string(),
                description: None,
                color: None,
                strava_gear: None,
            },
        )
        .unwrap();
    assert!(bikes.assert_owner(trek.id, alice.id).is_ok());
    rides.create(trek.id, &ride(date(2024, 5, 1), 42_000)).unwrap();

    let months = rides.get_monthly_rides(trek.id, 2024);
    assert_eq!(months.len(), 12);
    // buckets run December down to January
    assert_eq!(months[0].month, 12);
    assert_eq!(months[11].month, 1);
    for bucket in &months {
        if bucket.month == 5 {
            assert_eq!(bucket.total_distance, 42_000);
            assert_eq!(bucket.rides.len(), 1);
        } else {
            assert_eq!(bucket.total_distance, 0);
            assert_eq!(bucket.rides.len(), 0);
        }
    }
}

#[test]
fn yearly_stats_mark_empty_months() {
    let mut rides = RideStore::new();
    rides.create(1, &ride(date(2024, 5, 1), 42_000)).unwrap();
    rides.create(1, &ride(date(2024, 5, 8), 8_000)).unwrap();
    let stats = rides.yearly_stats(1, 2024);
    assert_eq!(stats.len(), 12);
    assert_eq!(stats[0].month, 1);
    assert_eq!(stats[4].month, 5);
    assert_eq!(stats[4].rides, 2);
    assert_eq!(stats[4].total_distance, Some(50_000));
    assert_eq!(stats[0].rides, 0);
    assert_eq!(stats[0].total_distance, None);
}

#[test]
fn active_years_are_distinct_and_descending() {
    let mut rides = RideStore::new();
    rides.create(1, &ride(date(2022, 5, 1), 1_000)).unwrap();
    rides.create(1, &ride(date(2024, 5, 1), 1_000)).unwrap();
    rides.create(1, &ride(date(2022, 6, 1), 1_000)).unwrap();
    rides.create(1, &ride(date(2023, 1, 1), 1_000)).unwrap();
    rides.create(2, &ride(date(2020, 1, 1), 1_000)).unwrap();
    assert_eq!(rides.active_years(1), vec![2024, 2023, 2022]);
}

#[test]
fn updating_a_ride_keeps_its_import_key() {
    let mut rides = RideStore::new();
    let created = rides
        .create(
            1,
            &RidePartial {
                date: date(2024, 5, 1),
                distance: 10_000,
                description: Some("to work".to_string()),
                strava_ride: Some(5),
            },
        )
        .unwrap();
    let updated = rides
        .update(
            created.id,
            &RidePartial {
                date: date(2024, 5, 2),
                distance: 11_000,
                description: None,
                strava_ride: None,
            },
        )
        .unwrap();
    assert_eq!(updated.strava_ride, Some(5));
    assert_eq!(updated.distance, 11_000);
}

#[test]
fn overview_groups_months_newest_first() {
    let mut rides = RideStore::new();
    rides.create(1, &ride(date(2024, 5, 1), 10_000)).unwrap();
    rides.create(2, &ride(date(2024, 5, 20), 5_000)).unwrap();
    rides.create(1, &ride(date(2023, 12, 31), 7_000)).unwrap();
    let gone = rides.create(1, &ride(date(2022, 1, 1), 9_000)).unwrap();
    rides.delete(gone.id, dt(2024, 6, 1, 0, 0, 0)).unwrap();
    let groups = rides.group_rides_by_month();
    let labels: Vec<&str> = groups.iter().map(|g| g.date.as_str()).collect();
    assert_eq!(labels, vec!["2024-05", "2023-12"]);
    assert_eq!(groups[0].rides.len(), 2);
    assert_eq!(groups[0].total_distance, 15_000);
    assert_eq!(groups[1].total_distance, 7_000);
    // within the newest group the later ride comes first
    assert_eq!(groups[0].rides[0].date.day, 20);
}

#[test]
fn group_name_is_year_and_month() {
    let mut rides = RideStore::new();
    let created = rides.create(1, &ride(date(2024, 5, 1), 1_000)).unwrap();
    assert_eq!(created.get_group_name(), "2024-05");
}
