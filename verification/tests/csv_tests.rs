use biketrack::data::{export_data, export_rides_csv, import_data, parse_rides_csv};
use biketrack::dates::{Date, DateTime};
use biketrack::error::AppError;
use biketrack::rides::{Ride, RidePartial, RideStore};

fn date(year: u16, month: u8, day: u8) -> Date {
    Date { year, month, day }
}

fn dt(year: u16, month: u8, day: u8, hour: u8, minute: u8, second: u8) -> DateTime {
    DateTime { date: date(year, month, day), hour, minute, second }
}

const HEADER: &str = "id,date,distance,description,deleted_at,bike_id,strava_ride\n";

#[test]
fn export_renders_the_exact_rows() {
    let rides = vec![
        Ride {
            id: 1,
            date: date(2024, 5, 1),
            distance: 42_000,
            description: Some("to work, \"fast\"".to_string()),
            deleted_at: None,
            bike_id: 3,
            strava_ride: Some(777),
        },
        Ride {
            id: 2,
            date: date(2024, 5, 2),
            distance: 10_250,
            description: None,
            deleted_at: Some(dt(2024, 5, 3, 8, 30, 0)),
            bike_id: 3,
            strava_ride: None,
        },
    ];
    let out = export_rides_csv(&rides);
    let expected = format!(
        "{}1,2024-05-01,42,\"to work, \"\"fast\"\"\",,3,777\n2,2024-05-02,10.25,,2024-05-03 08:30:00,3,\n",
        HEADER
    );
    assert_eq!(out, expected);
}

#[test]
fn distance_decimals_are_minimal() {
    let mk = |distance: u64| Ride {
        id: 1,
        date: date(2024, 1, 1),
        distance,
        description: None,
        deleted_at: None,
        bike_id: 1,
        strava_ride: None,
    };
    assert!(export_rides_csv(&vec![mk(42_000)]).contains(",42,"));
    assert!(export_rides_csv(&vec![mk(42_500)]).contains(",42.5,"));
    assert!(export_rides_csv(&vec![mk(42_550)]).contains(",42.55,"));
    assert!(export_rides_csv(&vec![mk(42_555)]).contains(",42.555,"));
    assert!(export_rides_csv(&vec![mk(0)]).contains(",0,"));
    assert!(export_rides_csv(&vec![mk(5)]).contains(",0.005,"));
}

#[test]
fn parse_inverts_export() {
    let rides = vec![
        Ride {
            id: 10,
            date: date(2024, 2, 29),
            distance: 100_125,
            description: Some("a\nmultiline, quoted \"one\"".to_string()),
            deleted_at: Some(dt(2024, 3, 1, 0, 0, 1)),
            bike_id: -4,
            strava_ride: Some(-9),
        },
    ];
    let out = export_rides_csv(&rides);
    let back = parse_rides_csv(&out).unwrap();
    assert_eq!(back.len(), 1);
    assert_eq!(back[0].id, 10);
    assert_eq!(back[0].date, date(2024, 2, 29));
    assert_eq!(back[0].distance, 100_125);
    assert_eq!(back[0].description, rides[0].description);
    assert_eq!(back[0].deleted_at, rides[0].deleted_at);
    assert_eq!(back[0].bike_id, -4);
    assert_eq!(back[0].strava_ride, Some(-9));
}

#[test]
fn parse_accepts_a_bare_header_and_rejects_garbage() {
    assert_eq!(parse_rides_csv(HEADER).unwrap().len(), 0);
    assert!(matches!(parse_rides_csv(""), Err(AppError::Other(_))));
    assert!(matches!(parse_rides_csv("id,date\n"), Err(AppError::Other(_))));
    let bad_date = format!("{}1,2024-13-01,42,,,3,\n", HEADER);
    assert!(matches!(parse_rides_csv(&bad_date), Err(AppError::Other(_))));
    let bad_distance = format!("{}1,2024-05-01,42.5000,,,3,\n", HEADER);
    assert!(matches!(parse_rides_csv(&bad_distance), Err(AppError::Other(_))));
    let unterminated = format!("{}1,2024-05-01,42,\"oops,,3,\n", HEADER);
    assert!(matches!(parse_rides_csv(&unterminated), Err(AppError::Other(_))));
}

#[test]
fn parse_reads_every_representable_distance() {
    // the largest representable distances still round-trip
    let mk = |distance: u64| Ride {
        id: 1,
        date: date(2024, 1, 1),
        distance,
        description: None,
        deleted_at: None,
        bike_id: 1,
        strava_ride: None,
    };
    for distance in [u64::MAX, u64::MAX - 1, (u64::MAX / 1000) * 1000, 0, 1] {
        let out = export_rides_csv(&vec![mk(distance)]);
        let back = parse_rides_csv(&out).unwrap();
        assert_eq!(back[0].distance, distance);
    }
}

#[test]
fn import_does_not_dedup_so_reimporting_doubles() {
    let mut store = RideStore::new();
    store
        .create(
            3,
            &RidePartial {
                date: date(2024, 5, 1),
                distance: 42_000,
                description: Some("loop".to_string()),
                strava_ride: Some(7),
            },
        )
        .unwrap();
    let exported = export_data(&store);
    // importing the export against the same store adds the row again
    import_data(&mut store, &exported).unwrap();
    assert_eq!(store.get_all().len(), 2);
    // importing the same file once more adds it once more: no dedup
    import_data(&mut store, &exported).unwrap();
    assert_eq!(store.get_all().len(), 3);
    // exporting now and importing that doubles the store
    let exported_again = export_data(&store);
    import_data(&mut store, &exported_again).unwrap();
    assert_eq!(store.get_all().len(), 6);
    // every copy carries the same content under a fresh id
    let all = store.get_all();
    assert!(all.iter().all(|r| r.distance == 42_000 && r.bike_id == 3));
}

#[test]
fn import_ignores_the_file_row_ids_and_deletion_times() {
    let mut store = RideStore::new();
    let file = format!("{}55,2024-05-01,42,,2024-06-01 00:00:00,3,\n", HEADER);
    import_data(&mut store, &file).unwrap();
    let all = store.get_all();
    assert_eq!(all.len(), 1);
    assert_eq!(all[0].id, 1);
    assert!(all[0].deleted_at.is_none());
}

#[test]
fn export_round_trips_through_the_csv_crate() {
    let rides = vec![
        Ride {
            id: 1,
            date: date(2024, 5, 1),
            distance: 42_500,
            description: Some("commas, and \"quotes\"".to_string()),
            deleted_at: None,
            bike_id: 3,
            strava_ride: Some(777),
        },
    ];
    let out = export_rides_csv(&rides);
    let mut reader = csv::Reader::from_reader(out.as_bytes());
    let headers = reader.headers().unwrap().clone();
    assert_eq!(
        headers.iter().collect::<Vec<_>>(),
        vec!["id", "date", "distance", "description", "deleted_at", "bike_id", "strava_ride"]
    );
    let records: Vec<csv::StringRecord> = reader.records().map(|r| r.unwrap()).collect();
    assert_eq!(records.len(), 1);
    assert_eq!(&records[0][0], "1");
    assert_eq!(&records[0][1], "2024-05-01");
    assert_eq!(&records[0][2], "42.5");
    assert_eq!(&records[0][3], "commas, and \"quotes\"");
    assert_eq!(&records[0][4], "");
    assert_eq!(&records[0][5], "3");
    assert_eq!(&records[0][6], "777");
}

#[test]
fn error_messages_map_to_their_status_codes() {
    assert_eq!(AppError::NotFound("x".to_string()).status_code(), 404);
    assert_eq!(AppError::BadRequest("x".to_string()).status_code(), 400);
    assert_eq!(AppError::Unauthorized.status_code(), 401);
    assert_eq!(AppError::Forbidden.status_code(), 403);
    assert_eq!(AppError::Conflict("x".to_string()).status_code(), 409);
    assert_eq!(AppError::Database("x".to_string()).status_code(), 500);
    assert_eq!(AppError::Other("x".to_string()).status_code(), 500);
    // production messages hide internal detail; the detailed form keeps it
    assert_eq!(AppError::Database("boom".to_string()).message(), "Internal Server Error");
    assert_eq!(AppError::Database("boom".to_string()).detailed(), "Database Error: boom");
    assert_eq!(AppError::NotFound("no bike".to_string()).message(), "Not Found: no bike");
}
