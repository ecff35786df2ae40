use crate::dates::{
    date_chars, date_time_chars, format_date, format_date_time, format_year_month, parse_date,
    parse_date_time, spec_parse_date, spec_parse_date_time, Date, DateTime,
};
use crate::error::{AppError, AppResult};
use crate::seqs::{first_where, lemma_first_where, lemma_first_where_is, lemma_first_where_none};
use crate::text::clone_opt_string;
use vstd::prelude::*;
use vstd::utf8::encode_utf8;

verus! {

/// A ride. `distance` is kept in thousandths of a kilometre (metres), so
/// the arithmetic over it is exact. `strava_ride` is the external activity
/// id this ride was imported from, the dedup key of the sync.
#[derive(Debug)]
pub struct Ride {
    pub id: i64,
    pub date: Date,
    pub distance: u64,
    pub description: Option<String>,
    pub deleted_at: Option<DateTime>,
    pub bike_id: i64,
    pub strava_ride: Option<i64>,
}

/// The fields a caller supplies to create or update a ride. The external
/// activity id is only ever set at creation (by import); updates keep it.
#[derive(Debug)]
pub struct RidePartial {
    pub date: Date,
    pub distance: u64,
    pub description: Option<String>,
    pub strava_ride: Option<i64>,
}

/// A ride as the storage layer sees it: the date as a canonical string.
#[derive(Debug)]
pub struct RideRaw {
    pub id: i64,
    pub date: String,
    pub distance: u64,
    pub description: Option<String>,
    pub deleted_at: Option<String>,
    pub bike_id: i64,
    pub strava_ride: Option<i64>,
}

/// An aggregate total of ride distances, in thousandths of a kilometre.
#[derive(Debug, Clone, Copy, PartialEq, Eq, Structural)]
pub struct RideTotal {
    pub total_distance: u128,
}

/// The month label a ride is grouped under on the overview page.
pub trait RideModelExt {
    /// The `YYYY-MM` group name of this ride.
    fn get_group_name(&self) -> (r: String);
}

impl RideModelExt for Ride {
    fn get_group_name(&self) -> (r: String)
    {
        if self.date.check_valid() {
            format_year_month(&self.date)
        } else {
            String::new()
        }
    }
}

impl Ride {
    pub open spec fn valid(self) -> bool {
        &&& self.date.valid()
        &&& match self.deleted_at {
            Some(dt) => dt.valid(),
            None => true,
        }
    }

    /// An equal copy (field by field).
    pub fn duplicate(&self) -> (r: Ride)
        ensures
            r == *self,
    {
        Ride {
            id: self.id,
            date: self.date,
            distance: self.distance,
            description: clone_opt_string(&self.description),
            deleted_at: self.deleted_at,
            bike_id: self.bike_id,
            strava_ride: self.strava_ride,
        }
    }

    /// The `YYYY-MM` group name, with its contract (the trait method
    /// forwards here).
    pub fn group_name(&self) -> (r: String)
        requires
            self.valid(),
        ensures
            r@ == date_chars(self.date).take(7),
    {
        format_year_month(&self.date)
    }

    /// The storage form of this ride.
    pub fn to_raw(&self) -> (r: RideRaw)
        requires
            self.valid(),
        ensures
            r.id == self.id,
            r.date@ == date_chars(self.date),
            r.distance == self.distance,
            r.description == self.description,
            r.bike_id == self.bike_id,
            r.strava_ride == self.strava_ride,
            match self.deleted_at {
                Some(dt) => r.deleted_at matches Some(s) && s@ == date_time_chars(dt),
                None => r.deleted_at is None,
            },
    {
        RideRaw {
            id: self.id,
            date: format_date(&self.date),
            distance: self.distance,
            description: clone_opt_string(&self.description),
            deleted_at: match &self.deleted_at {
                Some(dt) => Some(format_date_time(dt)),
                None => None,
            },
            bike_id: self.bike_id,
            strava_ride: self.strava_ride,
        }
    }

    /// Read a ride back from its storage form; fails exactly when the
    /// date or a date-time column is not in the canonical form.
    pub fn from_raw(raw: &RideRaw) -> (r: AppResult<Ride>)
        ensures
            match r {
                Ok(x) => {
                    &&& x.valid()
                    &&& x.id == raw.id
                    &&& x.distance == raw.distance
                    &&& x.description == raw.description
                    &&& x.bike_id == raw.bike_id
                    &&& x.strava_ride == raw.strava_ride
                    &&& Some(x.date) == spec_parse_date(encode_utf8(raw.date@))
                    &&& match raw.deleted_at {
                        Some(s) => Some(x.deleted_at) == Some(
                            spec_parse_date_time(encode_utf8(s@)),
                        ),
                        None => x.deleted_at is None,
                    }
                },
                Err(e) => {
                    &&& e is Other
                    &&& (spec_parse_date(encode_utf8(raw.date@)) is None || (
                    raw.deleted_at matches Some(s) && spec_parse_date_time(encode_utf8(s@))
                        is None))
                },
            },
    {
        let date = match parse_date(raw.date.as_str()) {
            Some(d) => d,
            None => {
                return Err(AppError::Other(String::from_str("invalid date")));
            },
        };
        let deleted_at = match &raw.deleted_at {
            Some(s) => match parse_date_time(s.as_str()) {
                Some(dt) => Some(dt),
                None => {
                    return Err(AppError::Other(String::from_str("invalid date-time")));
                },
            },
            None => None,
        };
        Ok(
            Ride {
                id: raw.id,
                date,
                distance: raw.distance,
                description: clone_opt_string(&raw.description),
                deleted_at,
                bike_id: raw.bike_id,
                strava_ride: raw.strava_ride,
            },
        )
    }
}

/// Matches the live ride with the given id.
pub open spec fn active_ride_with_id(id: i64) -> spec_fn(Ride) -> bool {
    |r: Ride| r.id == id && r.deleted_at is None
}

/// Matches live rides of one bike.
pub open spec fn active_ride_of_bike(bike_id: i64) -> spec_fn(Ride) -> bool {
    |r: Ride| r.bike_id == bike_id && r.deleted_at is None
}

/// Matches any ride of the bike imported from the given external
/// activity, soft-deleted ones included: the dedup check must survive a
/// delete-and-resync cycle.
pub open spec fn ride_with_strava_incl_deleted(bike_id: i64, strava_id: i64) -> spec_fn(
    Ride,
) -> bool {
    |r: Ride| r.bike_id == bike_id && r.strava_ride == Some(strava_id)
}

/// Whether some ride of the bike (live or soft-deleted) carries the
/// external activity id.
pub open spec fn spec_has_strava_ride(rides: Seq<Ride>, bike_id: i64, strava_id: i64) -> bool {
    first_where(rides, ride_with_strava_incl_deleted(bike_id, strava_id)) >= 0
}

/// The rides table.
pub struct RideStore {
    pub rides: Vec<Ride>,
    pub next_id: i64,
}

impl RideStore {
    /// Store invariant: ids are positive, unique and below `next_id`,
    /// and every date is real.
    pub open spec fn wf(self) -> bool {
        &&& 1 <= self.next_id
        &&& forall|i: int|
            0 <= i < self.rides@.len() ==> {
                &&& 0 < (#[trigger] self.rides@[i]).id < self.next_id
                &&& self.rides@[i].valid()
            }
        &&& forall|i: int, j: int|
            0 <= i < j < self.rides@.len() ==> (#[trigger] self.rides@[i]).id != (
            #[trigger] self.rides@[j]).id
    }

    pub fn new() -> (r: RideStore)
        ensures
            r.wf(),
            r.rides@.len() == 0,
            r.next_id == 1,
    {
        RideStore { rides: Vec::new(), next_id: 1 }
    }

    /// `Ok` exactly when a live ride has this id.
    pub fn check_exists(&self, ride_id: i64) -> (r: AppResult<()>)
        ensures
            r is Ok <==> first_where(self.rides@, active_ride_with_id(ride_id)) >= 0,
            r matches Err(e) ==> e is NotFound,
    {
        match self.get_one(ride_id) {
            Ok(_) => Ok(()),
            Err(e) => Err(e),
        }
    }

    /// The live ride with this id, or `NotFound`.
    pub fn get_one(&self, ride_id: i64) -> (r: AppResult<Ride>)
        ensures
            ({
                let idx = first_where(self.rides@, active_ride_with_id(ride_id));
                &&& (r is Ok <==> idx >= 0)
                &&& (r matches Ok(x) ==> x == self.rides@[idx])
                &&& (r matches Err(e) ==> e is NotFound)
            }),
    {
        let ghost p = active_ride_with_id(ride_id);
        let n = self.rides.len();
        let mut i: usize = 0;
        while i < n
            invariant
                p == active_ride_with_id(ride_id),
                n == self.rides@.len(),
                0 <= i <= n,
                forall|k: int| 0 <= k < i ==> !p(self.rides@[k]),
            decreases n - i,
        {
            let x = &self.rides[i];
            if x.id == ride_id && x.deleted_at.is_none() {
                proof {
                    lemma_first_where_is(self.rides@, p, i as int);
                }
                return Ok(x.duplicate());
            }
            i += 1;
        }
        proof {
            lemma_first_where_none(self.rides@, p);
        }
        Err(AppError::NotFound(String::from_str("Ride not found")))
    }

    /// The dedup lookup of the import: finds the bike's ride for an
    /// external activity id even when it was soft-deleted since.
    pub fn try_get_by_strava_ride_including_deleted(&self, bike_id: i64, strava_id: i64) -> (r:
        Option<Ride>)
        ensures
            ({
                let idx = first_where(
                    self.rides@,
                    ride_with_strava_incl_deleted(bike_id, strava_id),
                );
                &&& (r is Some <==> idx >= 0)
                &&& (r matches Some(x) ==> x == self.rides@[idx])
                &&& (r is Some <==> spec_has_strava_ride(self.rides@, bike_id, strava_id))
            }),
    {
        let ghost p = ride_with_strava_incl_deleted(bike_id, strava_id);
        let n = self.rides.len();
        let mut i: usize = 0;
        while i < n
            invariant
                p == ride_with_strava_incl_deleted(bike_id, strava_id),
                n == self.rides@.len(),
                0 <= i <= n,
                forall|k: int| 0 <= k < i ==> !p(self.rides@[k]),
            decreases n - i,
        {
            let x = &self.rides[i];
            let strava_matches = match &x.strava_ride {
                Some(sid) => *sid == strava_id,
                None => false,
            };
            if x.bike_id == bike_id && strava_matches {
                proof {
                    lemma_first_where_is(self.rides@, p, i as int);
                }
                return Some(x.duplicate());
            }
            i += 1;
        }
        proof {
            lemma_first_where_none(self.rides@, p);
        }
        None
    }

    /// Create a ride against a bike.
    pub fn create(&mut self, bike_id: i64, new: &RidePartial) -> (r: AppResult<Ride>)
        requires
            old(self).wf(),
            new.date.valid(),
        ensures
            final(self).wf(),
            ({
                if old(self).next_id == i64::MAX {
                    &&& r matches Err(e) && e is Database
                    &&& *final(self) == *old(self)
                } else {
                    &&& r matches Ok(x)
                    &&& x == (Ride {
                        id: old(self).next_id,
                        date: new.date,
                        distance: new.distance,
                        description: new.description,
                        deleted_at: None,
                        bike_id: bike_id,
                        strava_ride: new.strava_ride,
                    })
                    &&& final(self).rides@ == old(self).rides@.push(x)
                    &&& final(self).next_id == old(self).next_id + 1
                }
            }),
    {
        if self.next_id == i64::MAX {
            return Err(AppError::Database(String::from_str("id space exhausted")));
        }
        let ride = Ride {
            id: self.next_id,
            date: new.date,
            distance: new.distance,
            description: clone_opt_string(&new.description),
            deleted_at: None,
            bike_id,
            strava_ride: new.strava_ride,
        };
        let result = ride.duplicate();
        self.rides.push(ride);
        self.next_id = self.next_id + 1;
        Ok(result)
    }

    /// Update the live ride with this id; `NotFound` exactly when there
    /// is none. Date, distance and description change; the external
    /// activity id on record is kept.
    pub fn update(&mut self, ride_id: i64, update: &RidePartial) -> (r: AppResult<Ride>)
        requires
            old(self).wf(),
            update.date.valid(),
        ensures
            final(self).wf(),
            ({
                let idx = first_where(old(self).rides@, active_ride_with_id(ride_id));
                if idx >= 0 {
                    &&& r matches Ok(x)
                    &&& x == (Ride {
                        date: update.date,
                        distance: update.distance,
                        description: update.description,
                        ..old(self).rides@[idx]
                    })
                    &&& final(self).rides@ == old(self).rides@.update(idx, x)
                    &&& final(self).next_id == old(self).next_id
                } else {
                    &&& r matches Err(e) && e is NotFound
                    &&& *final(self) == *old(self)
                }
            }),
    {
        let ghost p = active_ride_with_id(ride_id);
        let n = self.rides.len();
        let mut i: usize = 0;
        while i < n
            invariant
                p == active_ride_with_id(ride_id),
                *self == *old(self),
                old(self).wf(),
                update.date.valid(),
                n == self.rides@.len(),
                0 <= i <= n,
                forall|k: int| 0 <= k < i ==> !p(self.rides@[k]),
            decreases n - i,
        {
            let found = {
                let x = &self.rides[i];
                x.id == ride_id && x.deleted_at.is_none()
            };
            if found {
                proof {
                    lemma_first_where_is(self.rides@, p, i as int);
                }
                let updated = Ride {
                    date: update.date,
                    distance: update.distance,
                    description: clone_opt_string(&update.description),
                    ..self.rides[i].duplicate()
                };
                let result = updated.duplicate();
                self.rides.set(i, updated);
                proof {
                    let s0 = old(self).rides@;
                    let s1 = self.rides@;
                    assert forall|k: int| 0 <= k < s1.len() implies (0 < (#[trigger] s1[k]).id
                        < self.next_id && s1[k].valid()) by {
                        if k != i as int {
                            assert(s1[k] == s0[k]);
                        }
                    }
                    assert forall|k: int, l: int| 0 <= k < l < s1.len() implies (
                    #[trigger] s1[k]).id != (#[trigger] s1[l]).id by {
                        assert(s1[k].id == s0[k].id);
                        assert(s1[l].id == s0[l].id);
                    }
                }
                return Ok(result);
            }
            i += 1;
        }
        proof {
            lemma_first_where_none(self.rides@, p);
        }
        Err(AppError::NotFound(String::from_str("Ride not found")))
    }

    /// Soft-delete the live ride with this id; `NotFound` exactly when
    /// there is none. The row stays, so the dedup lookup still sees it.
    pub fn delete(&mut self, ride_id: i64, now: DateTime) -> (r: AppResult<()>)
        requires
            old(self).wf(),
            now.valid(),
        ensures
            final(self).wf(),
            ({
                let idx = first_where(old(self).rides@, active_ride_with_id(ride_id));
                if idx >= 0 {
                    &&& r is Ok
                    &&& final(self).rides@ == old(self).rides@.update(
                        idx,
                        Ride { deleted_at: Some(now), ..old(self).rides@[idx] },
                    )
                    &&& final(self).next_id == old(self).next_id
                } else {
                    &&& r matches Err(e) && e is NotFound
                    &&& *final(self) == *old(self)
                }
            }),
    {
        let ghost p = active_ride_with_id(ride_id);
        let n = self.rides.len();
        let mut i: usize = 0;
        while i < n
            invariant
                p == active_ride_with_id(ride_id),
                *self == *old(self),
                old(self).wf(),
                now.valid(),
                n == self.rides@.len(),
                0 <= i <= n,
                forall|k: int| 0 <= k < i ==> !p(self.rides@[k]),
            decreases n - i,
        {
            let found = {
                let x = &self.rides[i];
                x.id == ride_id && x.deleted_at.is_none()
            };
            if found {
                proof {
                    lemma_first_where_is(self.rides@, p, i as int);
                }
                let updated = Ride { deleted_at: Some(now), ..self.rides[i].duplicate() };
                self.rides.set(i, updated);
                proof {
                    let s0 = old(self).rides@;
                    let s1 = self.rides@;
                    assert forall|k: int| 0 <= k < s1.len() implies (0 < (#[trigger] s1[k]).id
                        < self.next_id && s1[k].valid()) by {
                        if k != i as int {
                            assert(s1[k] == s0[k]);
                        }
                    }
                    assert forall|k: int, l: int| 0 <= k < l < s1.len() implies (
                    #[trigger] s1[k]).id != (#[trigger] s1[l]).id by {
                        assert(s1[k].id == s0[k].id);
                        assert(s1[l].id == s0[l].id);
                    }
                }
                return Ok(());
            }
            i += 1;
        }
        proof {
            lemma_first_where_none(self.rides@, p);
        }
        Err(AppError::NotFound(String::from_str("Ride not found")))
    }
}

/// LAW: a soft-deleted ride is invisible to the live lookups, yet the
/// import dedup check still sees its external activity id.
pub proof fn lemma_soft_delete_visibility(rides: Seq<Ride>, i: int)
    requires
        0 <= i < rides.len(),
        rides[i].deleted_at is Some,
        forall|k: int| 0 <= k < rides.len() && k != i ==> (#[trigger] rides[k]).id != rides[i].id,
    ensures
        first_where(rides, active_ride_with_id(rides[i].id)) == -1,
        rides[i].strava_ride matches Some(sid) ==> spec_has_strava_ride(
            rides,
            rides[i].bike_id,
            sid,
        ),
{
    let p = active_ride_with_id(rides[i].id);
    assert forall|k: int| 0 <= k < rides.len() implies !p(rides[k]) by {
        if k != i {
            assert(rides[k].id != rides[i].id);
        }
    }
    lemma_first_where_none(rides, p);
    match rides[i].strava_ride {
        Some(sid) => {
            let q = ride_with_strava_incl_deleted(rides[i].bike_id, sid);
            assert(q(rides[i]));
            lemma_first_where(rides, q);
            if first_where(rides, q) < 0 {
                assert(!q(rides[i]));
            }
        },
        None => {},
    }
}

} // verus!
