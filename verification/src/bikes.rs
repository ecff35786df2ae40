use crate::dates::{date_time_chars, format_date_time, DateTime};
use crate::error::{AppError, AppResult};
use crate::seqs::{first_where, lemma_filter_push, lemma_first_where_is, lemma_first_where_none};
use crate::text::{clone_opt_string, str_eq};
use vstd::prelude::*;

verus! {

/// A bike. `deleted_at` set means soft-deleted; `strava_gear` is the
/// external gear id used to route imported activities to this bike.
#[derive(Debug)]
pub struct Bike {
    pub id: i64,
    pub name: String,
    pub description: Option<String>,
    pub deleted_at: Option<DateTime>,
    pub color: Option<String>,
    pub owner_id: i64,
    pub strava_gear: Option<String>,
}

/// The fields a caller supplies to create or update a bike.
#[derive(Debug)]
pub struct BikePartial {
    pub name: String,
    pub description: Option<String>,
    pub color: Option<String>,
    pub strava_gear: Option<String>,
}

/// A bike as the storage layer sees it.
#[derive(Debug)]
pub struct BikeRaw {
    pub id: i64,
    pub name: String,
    pub description: Option<String>,
    pub deleted_at: Option<String>,
    pub color: Option<String>,
    pub owner_id: i64,
    pub strava_gear: Option<String>,
}

impl Bike {
    pub open spec fn valid(self) -> bool {
        match self.deleted_at {
            Some(dt) => dt.valid(),
            None => true,
        }
    }

    /// An equal copy (field by field).
    pub fn duplicate(&self) -> (r: Bike)
        ensures
            r == *self,
    {
        Bike {
            id: self.id,
            name: self.name.clone(),
            description: clone_opt_string(&self.description),
            deleted_at: self.deleted_at,
            color: clone_opt_string(&self.color),
            owner_id: self.owner_id,
            strava_gear: clone_opt_string(&self.strava_gear),
        }
    }

    /// The storage form of this bike.
    pub fn to_raw(&self) -> (r: BikeRaw)
        requires
            self.valid(),
        ensures
            r.id == self.id,
            r.name == self.name,
            r.description == self.description,
            r.color == self.color,
            r.owner_id == self.owner_id,
            r.strava_gear == self.strava_gear,
            match self.deleted_at {
                Some(dt) => r.deleted_at matches Some(s) && s@ == date_time_chars(dt),
                None => r.deleted_at is None,
            },
    {
        BikeRaw {
            id: self.id,
            name: self.name.clone(),
            description: clone_opt_string(&self.description),
            deleted_at: match &self.deleted_at {
                Some(dt) => Some(format_date_time(dt)),
                None => None,
            },
            color: clone_opt_string(&self.color),
            owner_id: self.owner_id,
            strava_gear: clone_opt_string(&self.strava_gear),
        }
    }
}

/// Matches the live bike with the given id.
pub open spec fn active_bike_with_id(id: i64) -> spec_fn(Bike) -> bool {
    |b: Bike| b.id == id && b.deleted_at is None
}

/// Matches live bikes of one owner.
pub open spec fn active_bike_of_owner(owner_id: i64) -> spec_fn(Bike) -> bool {
    |b: Bike| b.owner_id == owner_id && b.deleted_at is None
}

/// Matches live bikes of one owner with the given external gear id.
/// A missing gear id matches no bike, as the SQL `= NULL` comparison does.
pub open spec fn active_bike_with_gear(owner_id: i64, gear: Option<Seq<char>>) -> spec_fn(
    Bike,
) -> bool {
    |b: Bike|
        {
            &&& b.owner_id == owner_id
            &&& b.deleted_at is None
            &&& match (b.strava_gear, gear) {
                (Some(g), Some(w)) => g@ == w,
                _ => false,
            }
        }
}

/// The bikes table.
pub struct BikeStore {
    pub bikes: Vec<Bike>,
    pub next_id: i64,
}

impl BikeStore {
    /// Store invariant: ids are positive, unique and below `next_id`,
    /// and every timestamp is a real date-time.
    pub open spec fn wf(self) -> bool {
        &&& 1 <= self.next_id
        &&& forall|i: int|
            0 <= i < self.bikes@.len() ==> {
                &&& 0 < (#[trigger] self.bikes@[i]).id < self.next_id
                &&& self.bikes@[i].valid()
            }
        &&& forall|i: int, j: int|
            0 <= i < j < self.bikes@.len() ==> (#[trigger] self.bikes@[i]).id != (
            #[trigger] self.bikes@[j]).id
    }

    pub fn new() -> (r: BikeStore)
        ensures
            r.wf(),
            r.bikes@.len() == 0,
            r.next_id == 1,
    {
        BikeStore { bikes: Vec::new(), next_id: 1 }
    }

    /// The ownership gate. `NotFound` when no live bike has the id;
    /// `Forbidden` when one does but belongs to someone else. The two are
    /// deliberately distinct failures.
    pub fn assert_owner(&self, bike_id: i64, user_id: i64) -> (r: AppResult<()>)
        ensures
            ({
                let idx = first_where(self.bikes@, active_bike_with_id(bike_id));
                if idx < 0 {
                    r matches Err(e) && e is NotFound
                } else if self.bikes@[idx].owner_id != user_id {
                    r matches Err(e) && e is Forbidden
                } else {
                    r is Ok
                }
            }),
    {
        let ghost p = active_bike_with_id(bike_id);
        let n = self.bikes.len();
        let mut i: usize = 0;
        while i < n
            invariant
                p == active_bike_with_id(bike_id),
                n == self.bikes@.len(),
                0 <= i <= n,
                forall|k: int| 0 <= k < i ==> !p(self.bikes@[k]),
            decreases n - i,
        {
            let b = &self.bikes[i];
            if b.id == bike_id && b.deleted_at.is_none() {
                proof {
                    lemma_first_where_is(self.bikes@, p, i as int);
                }
                if b.owner_id == user_id {
                    return Ok(());
                } else {
                    return Err(AppError::Forbidden);
                }
            }
            i += 1;
        }
        proof {
            lemma_first_where_none(self.bikes@, p);
        }
        Err(AppError::NotFound(String::from_str("Bike not found")))
    }

    /// All live bikes of an owner, in storage order.
    pub fn get_all(&self, owner_id: i64) -> (r: Vec<Bike>)
        ensures
            r@ == self.bikes@.filter(active_bike_of_owner(owner_id)),
    {
        let ghost p = active_bike_of_owner(owner_id);
        let n = self.bikes.len();
        let mut out: Vec<Bike> = Vec::new();
        let mut i: usize = 0;
        while i < n
            invariant
                p == active_bike_of_owner(owner_id),
                n == self.bikes@.len(),
                0 <= i <= n,
                out@ == self.bikes@.take(i as int).filter(p),
            decreases n - i,
        {
            proof {
                assert(self.bikes@.take(i as int + 1) =~= self.bikes@.take(i as int).push(
                    self.bikes@[i as int],
                ));
                lemma_filter_push(self.bikes@.take(i as int), p, self.bikes@[i as int]);
            }
            let b = &self.bikes[i];
            if b.owner_id == owner_id && b.deleted_at.is_none() {
                out.push(b.duplicate());
            }
            i += 1;
        }
        proof {
            assert(self.bikes@.take(n as int) =~= self.bikes@);
        }
        out
    }

    /// The live bike with this id, or `NotFound`.
    pub fn get_one(&self, bike_id: i64) -> (r: AppResult<Bike>)
        ensures
            ({
                let idx = first_where(self.bikes@, active_bike_with_id(bike_id));
                &&& (r is Ok <==> idx >= 0)
                &&& (r matches Ok(b) ==> b == self.bikes@[idx])
                &&& (r matches Err(e) ==> e is NotFound)
            }),
    {
        let ghost p = active_bike_with_id(bike_id);
        let n = self.bikes.len();
        let mut i: usize = 0;
        while i < n
            invariant
                p == active_bike_with_id(bike_id),
                n == self.bikes@.len(),
                0 <= i <= n,
                forall|k: int| 0 <= k < i ==> !p(self.bikes@[k]),
            decreases n - i,
        {
            let b = &self.bikes[i];
            if b.id == bike_id && b.deleted_at.is_none() {
                proof {
                    lemma_first_where_is(self.bikes@, p, i as int);
                }
                return Ok(b.duplicate());
            }
            i += 1;
        }
        proof {
            lemma_first_where_none(self.bikes@, p);
        }
        Err(AppError::NotFound(String::from_str("Bike not found")))
    }

    /// The owner's live bikes carrying this external gear id, in storage
    /// order; none when the activity has no gear id.
    pub fn get_by_strava_gear(&self, owner_id: i64, strava_gear: Option<&str>) -> (r: Vec<Bike>)
        ensures
            r@ == self.bikes@.filter(
                active_bike_with_gear(
                    owner_id,
                    match strava_gear {
                        Some(g) => Some(g@),
                        None => None,
                    },
                ),
            ),
    {
        let ghost g: Option<Seq<char>> = match strava_gear {
            Some(g) => Some(g@),
            None => None,
        };
        let ghost p = active_bike_with_gear(owner_id, g);
        let n = self.bikes.len();
        let mut out: Vec<Bike> = Vec::new();
        let mut i: usize = 0;
        while i < n
            invariant
                p == active_bike_with_gear(owner_id, g),
                g == match strava_gear {
                    Some(gg) => Some(gg@),
                    None => None::<Seq<char>>,
                },
                n == self.bikes@.len(),
                0 <= i <= n,
                out@ == self.bikes@.take(i as int).filter(p),
            decreases n - i,
        {
            proof {
                assert(self.bikes@.take(i as int + 1) =~= self.bikes@.take(i as int).push(
                    self.bikes@[i as int],
                ));
                lemma_filter_push(self.bikes@.take(i as int), p, self.bikes@[i as int]);
            }
            let b = &self.bikes[i];
            let gear_matches = match (&b.strava_gear, strava_gear) {
                (Some(bg), Some(w)) => str_eq(bg.as_str(), w),
                _ => false,
            };
            if b.owner_id == owner_id && b.deleted_at.is_none() && gear_matches {
                out.push(b.duplicate());
            }
            i += 1;
        }
        proof {
            assert(self.bikes@.take(n as int) =~= self.bikes@);
        }
        out
    }

    /// Create a bike for `owner_id`.
    pub fn create(&mut self, owner_id: i64, new: &BikePartial) -> (r: AppResult<Bike>)
        requires
            old(self).wf(),
        ensures
            final(self).wf(),
            ({
                if old(self).next_id == i64::MAX {
                    &&& r matches Err(e) && e is Database
                    &&& *final(self) == *old(self)
                } else {
                    &&& r matches Ok(b)
                    &&& b == (Bike {
                        id: old(self).next_id,
                        name: new.name,
                        description: new.description,
                        deleted_at: None,
                        color: new.color,
                        owner_id: owner_id,
                        strava_gear: new.strava_gear,
                    })
                    &&& final(self).bikes@ == old(self).bikes@.push(b)
                    &&& final(self).next_id == old(self).next_id + 1
                }
            }),
    {
        if self.next_id == i64::MAX {
            return Err(AppError::Database(String::from_str("id space exhausted")));
        }
        let bike = Bike {
            id: self.next_id,
            name: new.name.clone(),
            description: clone_opt_string(&new.description),
            deleted_at: None,
            color: clone_opt_string(&new.color),
            owner_id,
            strava_gear: clone_opt_string(&new.strava_gear),
        };
        let result = bike.duplicate();
        self.bikes.push(bike);
        self.next_id = self.next_id + 1;
        Ok(result)
    }

    /// Update the live bike with this id; `NotFound` exactly when there
    /// is none. The owner on record is kept.
    pub fn update(&mut self, bike_id: i64, update: &BikePartial) -> (r: AppResult<Bike>)
        requires
            old(self).wf(),
        ensures
            final(self).wf(),
            ({
                let idx = first_where(old(self).bikes@, active_bike_with_id(bike_id));
                if idx >= 0 {
                    &&& r matches Ok(b)
                    &&& b == (Bike {
                        name: update.name,
                        description: update.description,
                        color: update.color,
                        strava_gear: update.strava_gear,
                        ..old(self).bikes@[idx]
                    })
                    &&& final(self).bikes@ == old(self).bikes@.update(idx, b)
                    &&& final(self).next_id == old(self).next_id
                } else {
                    &&& r matches Err(e) && e is NotFound
                    &&& *final(self) == *old(self)
                }
            }),
    {
        let ghost p = active_bike_with_id(bike_id);
        let n = self.bikes.len();
        let mut i: usize = 0;
        while i < n
            invariant
                p == active_bike_with_id(bike_id),
                *self == *old(self),
                old(self).wf(),
                n == self.bikes@.len(),
                0 <= i <= n,
                forall|k: int| 0 <= k < i ==> !p(self.bikes@[k]),
            decreases n - i,
        {
            let found = {
                let b = &self.bikes[i];
                b.id == bike_id && b.deleted_at.is_none()
            };
            if found {
                proof {
                    lemma_first_where_is(self.bikes@, p, i as int);
                }
                let updated = Bike {
                    name: update.name.clone(),
                    description: clone_opt_string(&update.description),
                    color: clone_opt_string(&update.color),
                    strava_gear: clone_opt_string(&update.strava_gear),
                    ..self.bikes[i].duplicate()
                };
                let result = updated.duplicate();
                self.bikes.set(i, updated);
                proof {
                    let s0 = old(self).bikes@;
                    let s1 = self.bikes@;
                    assert forall|k: int| 0 <= k < s1.len() implies (0 < (#[trigger] s1[k]).id
                        < self.next_id && s1[k].valid()) by {
                        if k != i as int {
                            assert(s1[k] == s0[k]);
                        }
                    }
                    assert forall|k: int, l: int| 0 <= k < l < s1.len() implies (
                    #[trigger] s1[k]).id != (#[trigger] s1[l]).id by {
                        assert(s1[k].id == s0[k].id);
                        assert(s1[l].id == s0[l].id);
                    }
                }
                return Ok(result);
            }
            i += 1;
        }
        proof {
            lemma_first_where_none(self.bikes@, p);
        }
        Err(AppError::NotFound(String::from_str("Bike not found")))
    }

    /// Soft-delete the live bike with this id; `NotFound` exactly when
    /// there is none.
    pub fn delete(&mut self, bike_id: i64, now: DateTime) -> (r: AppResult<()>)
        requires
            old(self).wf(),
            now.valid(),
        ensures
            final(self).wf(),
            ({
                let idx = first_where(old(self).bikes@, active_bike_with_id(bike_id));
                if idx >= 0 {
                    &&& r is Ok
                    &&& final(self).bikes@ == old(self).bikes@.update(
                        idx,
                        Bike { deleted_at: Some(now), ..old(self).bikes@[idx] },
                    )
                    &&& final(self).next_id == old(self).next_id
                } else {
                    &&& r matches Err(e) && e is NotFound
                    &&& *final(self) == *old(self)
                }
            }),
    {
        let ghost p = active_bike_with_id(bike_id);
        let n = self.bikes.len();
        let mut i: usize = 0;
        while i < n
            invariant
                p == active_bike_with_id(bike_id),
                *self == *old(self),
                old(self).wf(),
                now.valid(),
                n == self.bikes@.len(),
                0 <= i <= n,
                forall|k: int| 0 <= k < i ==> !p(self.bikes@[k]),
            decreases n - i,
        {
            let found = {
                let b = &self.bikes[i];
                b.id == bike_id && b.deleted_at.is_none()
            };
            if found {
                proof {
                    lemma_first_where_is(self.bikes@, p, i as int);
                }
                let updated = Bike { deleted_at: Some(now), ..self.bikes[i].duplicate() };
                self.bikes.set(i, updated);
                proof {
                    let s0 = old(self).bikes@;
                    let s1 = self.bikes@;
                    assert forall|k: int| 0 <= k < s1.len() implies (0 < (#[trigger] s1[k]).id
                        < self.next_id && s1[k].valid()) by {
                        if k != i as int {
                            assert(s1[k] == s0[k]);
                        }
                    }
                    assert forall|k: int, l: int| 0 <= k < l < s1.len() implies (
                    #[trigger] s1[k]).id != (#[trigger] s1[l]).id by {
                        assert(s1[k].id == s0[k].id);
                        assert(s1[l].id == s0[l].id);
                    }
                }
                return Ok(());
            }
            i += 1;
        }
        proof {
            lemma_first_where_none(self.bikes@, p);
        }
        Err(AppError::NotFound(String::from_str("Bike not found")))
    }
}

} // verus!
