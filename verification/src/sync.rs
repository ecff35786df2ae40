use crate::bikes::{active_bike_with_gear, Bike, BikeStore};
use crate::error::AppResult;
use crate::rides::{
    ride_with_strava_incl_deleted, spec_has_strava_ride, Ride, RidePartial, RideStore,
};
use crate::seqs::{first_where, lemma_first_where, lemma_first_where_mono};
use crate::strava::Activity;
use vstd::prelude::*;

verus! {

/// The ride an imported activity becomes on one bike: dated on the
/// activity's local start date, described by its name, and carrying the
/// external activity id as the dedup key.
pub open spec fn imported_ride(next_id: int, act: Activity, bike_id: i64) -> Ride {
    Ride {
        id: next_id as i64,
        date: act.date,
        distance: act.distance,
        description: Some(act.name),
        deleted_at: None,
        bike_id,
        strava_ride: Some(act.id),
    }
}

/// Import one activity onto one bike: create the ride unless any ride of
/// that bike — soft-deleted ones included — already carries the
/// activity id.
pub open spec fn spec_import_one(rides: Seq<Ride>, next_id: int, bike_id: i64, act: Activity) -> (
    Seq<Ride>,
    int,
) {
    if spec_has_strava_ride(rides, bike_id, act.id) {
        (rides, next_id)
    } else {
        (rides.push(imported_ride(next_id, act, bike_id)), next_id + 1)
    }
}

/// Import one activity onto each listed bike, in order.
pub open spec fn spec_import_bikes(
    rides: Seq<Ride>,
    next_id: int,
    bike_ids: Seq<i64>,
    act: Activity,
) -> (Seq<Ride>, int)
    decreases bike_ids.len(),
{
    if bike_ids.len() == 0 {
        (rides, next_id)
    } else {
        let step = spec_import_one(rides, next_id, bike_ids[0], act);
        spec_import_bikes(step.0, step.1, bike_ids.drop_first(), act)
    }
}

/// The ids of the owner's live bikes carrying the activity's gear id.
pub open spec fn spec_gear_bike_ids(
    bikes: Seq<Bike>,
    owner_id: i64,
    gear: Option<Seq<char>>,
) -> Seq<i64> {
    bikes.filter(active_bike_with_gear(owner_id, gear)).map_values(|b: Bike| b.id)
}

/// Import a page of activities: each goes onto every one of the owner's
/// live bikes matching its gear id, deduplicated per (bike, activity).
pub open spec fn spec_import(
    rides: Seq<Ride>,
    next_id: int,
    bikes: Seq<Bike>,
    owner_id: i64,
    acts: Seq<Activity>,
) -> (Seq<Ride>, int)
    decreases acts.len(),
{
    if acts.len() == 0 {
        (rides, next_id)
    } else {
        let ids = spec_gear_bike_ids(bikes, owner_id, acts[0].gear_view());
        let step = spec_import_bikes(rides, next_id, ids, acts[0]);
        spec_import(step.0, step.1, bikes, owner_id, acts.drop_first())
    }
}

proof fn lemma_import_bikes_snoc(
    rides: Seq<Ride>,
    next_id: int,
    ids: Seq<i64>,
    y: i64,
    act: Activity,
)
    ensures
        spec_import_bikes(rides, next_id, ids.push(y), act).0 == spec_import_one(
            spec_import_bikes(rides, next_id, ids, act).0,
            spec_import_bikes(rides, next_id, ids, act).1,
            y,
            act,
        ).0,
        spec_import_bikes(rides, next_id, ids.push(y), act).1 == spec_import_one(
            spec_import_bikes(rides, next_id, ids, act).0,
            spec_import_bikes(rides, next_id, ids, act).1,
            y,
            act,
        ).1,
    decreases ids.len(),
{
    if ids.len() == 0 {
        assert(ids.push(y)[0] == y);
        assert(ids.push(y).drop_first() =~= ids);
        let step = spec_import_one(rides, next_id, y, act);
        assert(spec_import_bikes(step.0, step.1, ids, act).0 == step.0);
        assert(spec_import_bikes(step.0, step.1, ids, act).1 == step.1);
    } else {
        assert(ids.push(y)[0] == ids[0]);
        assert(ids.push(y).drop_first() =~= ids.drop_first().push(y));
        let step = spec_import_one(rides, next_id, ids[0], act);
        lemma_import_bikes_snoc(step.0, step.1, ids.drop_first(), y, act);
    }
}

proof fn lemma_import_snoc(
    rides: Seq<Ride>,
    next_id: int,
    bikes: Seq<Bike>,
    owner_id: i64,
    acts: Seq<Activity>,
    y: Activity,
)
    ensures
        spec_import(rides, next_id, bikes, owner_id, acts.push(y)).0 == spec_import_bikes(
            spec_import(rides, next_id, bikes, owner_id, acts).0,
            spec_import(rides, next_id, bikes, owner_id, acts).1,
            spec_gear_bike_ids(bikes, owner_id, y.gear_view()),
            y,
        ).0,
        spec_import(rides, next_id, bikes, owner_id, acts.push(y)).1 == spec_import_bikes(
            spec_import(rides, next_id, bikes, owner_id, acts).0,
            spec_import(rides, next_id, bikes, owner_id, acts).1,
            spec_gear_bike_ids(bikes, owner_id, y.gear_view()),
            y,
        ).1,
    decreases acts.len(),
{
    if acts.len() == 0 {
        assert(acts.push(y)[0] == y);
        assert(acts.push(y).drop_first() =~= acts);
        let ids = spec_gear_bike_ids(bikes, owner_id, y.gear_view());
        let step = spec_import_bikes(rides, next_id, ids, y);
        assert(spec_import(step.0, step.1, bikes, owner_id, acts).0 == step.0);
        assert(spec_import(step.0, step.1, bikes, owner_id, acts).1 == step.1);
    } else {
        assert(acts.push(y)[0] == acts[0]);
        assert(acts.push(y).drop_first() =~= acts.drop_first().push(y));
        let ids = spec_gear_bike_ids(bikes, owner_id, acts[0].gear_view());
        let step = spec_import_bikes(rides, next_id, ids, acts[0]);
        lemma_import_snoc(step.0, step.1, bikes, owner_id, acts.drop_first(), y);
    }
}

/// `t` carries `s` unchanged as its prefix.
pub open spec fn extends(t: Seq<Ride>, s: Seq<Ride>) -> bool {
    &&& s.len() <= t.len()
    &&& forall|k: int| 0 <= k < s.len() ==> t[k] == s[k]
}

proof fn lemma_import_bikes_extends(rides: Seq<Ride>, next_id: int, ids: Seq<i64>, act: Activity)
    ensures
        extends(spec_import_bikes(rides, next_id, ids, act).0, rides),
    decreases ids.len(),
{
    if ids.len() > 0 {
        let step = spec_import_one(rides, next_id, ids[0], act);
        lemma_import_bikes_extends(step.0, step.1, ids.drop_first(), act);
    }
}

proof fn lemma_import_extends(
    rides: Seq<Ride>,
    next_id: int,
    bikes: Seq<Bike>,
    owner_id: i64,
    acts: Seq<Activity>,
)
    ensures
        extends(spec_import(rides, next_id, bikes, owner_id, acts).0, rides),
    decreases acts.len(),
{
    if acts.len() > 0 {
        let ids = spec_gear_bike_ids(bikes, owner_id, acts[0].gear_view());
        let step = spec_import_bikes(rides, next_id, ids, acts[0]);
        lemma_import_bikes_extends(rides, next_id, ids, acts[0]);
        lemma_import_extends(step.0, step.1, bikes, owner_id, acts.drop_first());
    }
}

/// The dedup key, once present, survives any further import.
proof fn lemma_has_strava_extends(s: Seq<Ride>, t: Seq<Ride>, bike_id: i64, strava_id: i64)
    requires
        extends(t, s),
        spec_has_strava_ride(s, bike_id, strava_id),
    ensures
        spec_has_strava_ride(t, bike_id, strava_id),
{
    lemma_first_where_mono(s, t, ride_with_strava_incl_deleted(bike_id, strava_id));
}

/// After importing one activity onto one bike, that pair's key is there.
proof fn lemma_import_one_adds(rides: Seq<Ride>, next_id: int, bike_id: i64, act: Activity)
    ensures
        spec_has_strava_ride(spec_import_one(rides, next_id, bike_id, act).0, bike_id, act.id),
{
    let out = spec_import_one(rides, next_id, bike_id, act).0;
    let p = ride_with_strava_incl_deleted(bike_id, act.id);
    if !spec_has_strava_ride(rides, bike_id, act.id) {
        assert(p(out[out.len() - 1]));
        lemma_first_where(out, p);
        if first_where(out, p) < 0 {
            assert(!p(out[out.len() - 1]));
        }
    }
}

/// After importing one activity onto a list of bikes, every pair's key
/// is there.
proof fn lemma_import_bikes_all(rides: Seq<Ride>, next_id: int, ids: Seq<i64>, act: Activity)
    ensures
        forall|k: int|
            0 <= k < ids.len() ==> spec_has_strava_ride(
                spec_import_bikes(rides, next_id, ids, act).0,
                #[trigger] ids[k],
                act.id,
            ),
    decreases ids.len(),
{
    if ids.len() > 0 {
        let step = spec_import_one(rides, next_id, ids[0], act);
        let out = spec_import_bikes(step.0, step.1, ids.drop_first(), act);
        lemma_import_bikes_all(step.0, step.1, ids.drop_first(), act);
        lemma_import_one_adds(rides, next_id, ids[0], act);
        lemma_import_bikes_extends(step.0, step.1, ids.drop_first(), act);
        lemma_has_strava_extends(step.0, out.0, ids[0], act.id);
        assert forall|k: int| 0 <= k < ids.len() implies spec_has_strava_ride(
            spec_import_bikes(rides, next_id, ids, act).0,
            #[trigger] ids[k],
            act.id,
        ) by {
            if k > 0 {
                assert(ids.drop_first()[k - 1] == ids[k]);
            }
        }
    }
}

/// Everything a full import promises: afterwards, every activity's key
/// sits on every bike its gear routes it to.
proof fn lemma_import_all(
    rides: Seq<Ride>,
    next_id: int,
    bikes: Seq<Bike>,
    owner_id: i64,
    acts: Seq<Activity>,
)
    ensures
        forall|q: int, k: int|
            #![trigger spec_gear_bike_ids(bikes, owner_id, acts[q].gear_view())[k]]
            0 <= q < acts.len() && 0 <= k < spec_gear_bike_ids(
                bikes,
                owner_id,
                acts[q].gear_view(),
            ).len() ==> spec_has_strava_ride(
                spec_import(rides, next_id, bikes, owner_id, acts).0,
                spec_gear_bike_ids(bikes, owner_id, acts[q].gear_view())[k],
                acts[q].id,
            ),
    decreases acts.len(),
{
    if acts.len() > 0 {
        let ids0 = spec_gear_bike_ids(bikes, owner_id, acts[0].gear_view());
        let step = spec_import_bikes(rides, next_id, ids0, acts[0]);
        let out = spec_import(step.0, step.1, bikes, owner_id, acts.drop_first());
        lemma_import_bikes_all(rides, next_id, ids0, acts[0]);
        lemma_import_extends(step.0, step.1, bikes, owner_id, acts.drop_first());
        lemma_import_all(step.0, step.1, bikes, owner_id, acts.drop_first());
        assert forall|q: int, k: int|
            0 <= q < acts.len() && 0 <= k < spec_gear_bike_ids(
                bikes,
                owner_id,
                (#[trigger] acts[q]).gear_view(),
            ).len() implies spec_has_strava_ride(
            spec_import(rides, next_id, bikes, owner_id, acts).0,
            #[trigger] spec_gear_bike_ids(bikes, owner_id, acts[q].gear_view())[k],
            acts[q].id,
        ) by {
            let ids = spec_gear_bike_ids(bikes, owner_id, acts[q].gear_view());
            if q == 0 {
                lemma_has_strava_extends(step.0, out.0, ids[k], acts[0].id);
            } else {
                assert(acts.drop_first()[q - 1] == acts[q]);
            }
        }
    }
}

/// Importing a pair whose key is present changes nothing.
proof fn lemma_import_bikes_noop(rides: Seq<Ride>, next_id: int, ids: Seq<i64>, act: Activity)
    requires
        forall|k: int|
            0 <= k < ids.len() ==> spec_has_strava_ride(rides, #[trigger] ids[k], act.id),
    ensures
        spec_import_bikes(rides, next_id, ids, act).0 == rides,
        spec_import_bikes(rides, next_id, ids, act).1 == next_id,
    decreases ids.len(),
{
    if ids.len() > 0 {
        assert(spec_has_strava_ride(rides, ids[0], act.id));
        assert forall|k: int| 0 <= k < ids.drop_first().len() implies spec_has_strava_ride(
            rides,
            #[trigger] ids.drop_first()[k],
            act.id,
        ) by {
            assert(ids.drop_first()[k] == ids[k + 1]);
        }
        lemma_import_bikes_noop(rides, next_id, ids.drop_first(), act);
    }
}

/// An import whose every key is already present changes nothing.
proof fn lemma_import_noop(
    rides: Seq<Ride>,
    next_id: int,
    bikes: Seq<Bike>,
    owner_id: i64,
    acts: Seq<Activity>,
)
    requires
        forall|q: int, k: int|
            #![trigger spec_gear_bike_ids(bikes, owner_id, acts[q].gear_view())[k]]
            0 <= q < acts.len() && 0 <= k < spec_gear_bike_ids(
                bikes,
                owner_id,
                acts[q].gear_view(),
            ).len() ==> spec_has_strava_ride(
                rides,
                spec_gear_bike_ids(bikes, owner_id, acts[q].gear_view())[k],
                acts[q].id,
            ),
    ensures
        spec_import(rides, next_id, bikes, owner_id, acts).0 == rides,
        spec_import(rides, next_id, bikes, owner_id, acts).1 == next_id,
    decreases acts.len(),
{
    if acts.len() > 0 {
        let ids0 = spec_gear_bike_ids(bikes, owner_id, acts[0].gear_view());
        assert forall|k: int| 0 <= k < ids0.len() implies spec_has_strava_ride(
            rides,
            #[trigger] ids0[k],
            acts[0].id,
        ) by {
            assert(acts[0] == acts[0]);
        }
        lemma_import_bikes_noop(rides, next_id, ids0, acts[0]);
        assert forall|q: int, k: int|
            0 <= q < acts.drop_first().len() && 0 <= k < spec_gear_bike_ids(
                bikes,
                owner_id,
                (#[trigger] acts.drop_first()[q]).gear_view(),
            ).len() implies spec_has_strava_ride(
            rides,
            #[trigger] spec_gear_bike_ids(bikes, owner_id, acts.drop_first()[q].gear_view())[k],
            acts.drop_first()[q].id,
        ) by {
            assert(acts.drop_first()[q] == acts[q + 1]);
        }
        lemma_import_noop(rides, next_id, bikes, owner_id, acts.drop_first());
    }
}

/// Importing never moves the id counter backwards.
proof fn lemma_import_bikes_next(rides: Seq<Ride>, next_id: int, ids: Seq<i64>, act: Activity)
    ensures
        spec_import_bikes(rides, next_id, ids, act).1 >= next_id,
    decreases ids.len(),
{
    if ids.len() > 0 {
        let step = spec_import_one(rides, next_id, ids[0], act);
        lemma_import_bikes_next(step.0, step.1, ids.drop_first(), act);
    }
}

proof fn lemma_import_next(
    rides: Seq<Ride>,
    next_id: int,
    bikes: Seq<Bike>,
    owner_id: i64,
    acts: Seq<Activity>,
)
    ensures
        spec_import(rides, next_id, bikes, owner_id, acts).1 >= next_id,
    decreases acts.len(),
{
    if acts.len() > 0 {
        let ids = spec_gear_bike_ids(bikes, owner_id, acts[0].gear_view());
        let step = spec_import_bikes(rides, next_id, ids, acts[0]);
        lemma_import_bikes_next(rides, next_id, ids, acts[0]);
        lemma_import_next(step.0, step.1, bikes, owner_id, acts.drop_first());
    }
}

/// Importing onto a split bike list is importing onto the first part,
/// then the second.
proof fn lemma_import_bikes_append(
    rides: Seq<Ride>,
    next_id: int,
    a: Seq<i64>,
    b: Seq<i64>,
    act: Activity,
)
    ensures
        spec_import_bikes(rides, next_id, a + b, act).0 == spec_import_bikes(
            spec_import_bikes(rides, next_id, a, act).0,
            spec_import_bikes(rides, next_id, a, act).1,
            b,
            act,
        ).0,
        spec_import_bikes(rides, next_id, a + b, act).1 == spec_import_bikes(
            spec_import_bikes(rides, next_id, a, act).0,
            spec_import_bikes(rides, next_id, a, act).1,
            b,
            act,
        ).1,
    decreases a.len(),
{
    if a.len() == 0 {
        assert(a + b =~= b);
        assert(spec_import_bikes(rides, next_id, a, act).0 == rides);
        assert(spec_import_bikes(rides, next_id, a, act).1 == next_id);
    } else {
        assert((a + b)[0] == a[0]);
        assert((a + b).drop_first() =~= a.drop_first() + b);
        let step = spec_import_one(rides, next_id, a[0], act);
        lemma_import_bikes_append(step.0, step.1, a.drop_first(), b, act);
    }
}

/// Importing a split page is importing the first part, then the second.
proof fn lemma_import_append(
    rides: Seq<Ride>,
    next_id: int,
    bikes: Seq<Bike>,
    owner_id: i64,
    a: Seq<Activity>,
    b: Seq<Activity>,
)
    ensures
        spec_import(rides, next_id, bikes, owner_id, a + b).0 == spec_import(
            spec_import(rides, next_id, bikes, owner_id, a).0,
            spec_import(rides, next_id, bikes, owner_id, a).1,
            bikes,
            owner_id,
            b,
        ).0,
        spec_import(rides, next_id, bikes, owner_id, a + b).1 == spec_import(
            spec_import(rides, next_id, bikes, owner_id, a).0,
            spec_import(rides, next_id, bikes, owner_id, a).1,
            bikes,
            owner_id,
            b,
        ).1,
    decreases a.len(),
{
    if a.len() == 0 {
        assert(a + b =~= b);
        assert(spec_import(rides, next_id, bikes, owner_id, a).0 == rides);
        assert(spec_import(rides, next_id, bikes, owner_id, a).1 == next_id);
    } else {
        assert((a + b)[0] == a[0]);
        assert((a + b).drop_first() =~= a.drop_first() + b);
        let ids = spec_gear_bike_ids(bikes, owner_id, a[0].gear_view());
        let step = spec_import_bikes(rides, next_id, ids, a[0]);
        lemma_import_append(step.0, step.1, bikes, owner_id, a.drop_first(), b);
    }
}

/// LAW: importing the same activities twice is the same as importing
/// them once — per (bike, activity) pair at most one ride is ever
/// created, a soft-deleted one counting as created. Together with
/// [`import_activities`]'s success condition this also makes the second
/// run succeed: its fold moves the id counter nowhere, so the counter
/// bound that held after the first run still holds.
pub proof fn lemma_import_idempotent(
    rides: Seq<Ride>,
    next_id: int,
    bikes: Seq<Bike>,
    owner_id: i64,
    acts: Seq<Activity>,
)
    ensures
        ({
            let once = spec_import(rides, next_id, bikes, owner_id, acts);
            &&& spec_import(once.0, once.1, bikes, owner_id, acts).0 == once.0
            &&& spec_import(once.0, once.1, bikes, owner_id, acts).1 == once.1
        }),
{
    let once = spec_import(rides, next_id, bikes, owner_id, acts);
    lemma_import_all(rides, next_id, bikes, owner_id, acts);
    lemma_import_noop(once.0, once.1, bikes, owner_id, acts);
}

/// Import a page of activities into the ride store: the verified core
/// of the sync loop. On success the store is exactly the fold of the
/// dedup-and-create step over the page; it succeeds exactly when the id
/// space has room for every ride the fold creates. An error aborts
/// mid-page, so the caller must not advance its watermark.
pub fn import_activities(
    bikes: &BikeStore,
    rides: &mut RideStore,
    user_id: i64,
    activities: &Vec<Activity>,
) -> (r: AppResult<()>)
    requires
        old(rides).wf(),
        forall|k: int| 0 <= k < activities@.len() ==> (#[trigger] activities@[k]).date.valid(),
    ensures
        final(rides).wf(),
        r is Ok <==> spec_import(
            old(rides).rides@,
            old(rides).next_id as int,
            bikes.bikes@,
            user_id,
            activities@,
        ).1 <= i64::MAX,
        r is Ok ==> ({
            let end = spec_import(
                old(rides).rides@,
                old(rides).next_id as int,
                bikes.bikes@,
                user_id,
                activities@,
            );
            final(rides).rides@ == end.0 && final(rides).next_id == end.1
        }),
        r matches Err(e) ==> e is Database,
{
    let n = activities.len();
    let mut i: usize = 0;
    while i < n
        invariant
            rides.wf(),
            n == activities@.len(),
            forall|k: int| 0 <= k < activities@.len() ==> (#[trigger] activities@[k]).date.valid(),
            0 <= i <= n,
            ({
                let st = spec_import(
                    old(rides).rides@,
                    old(rides).next_id as int,
                    bikes.bikes@,
                    user_id,
                    activities@.take(i as int),
                );
                rides.rides@ == st.0 && rides.next_id == st.1
            }),
        decreases n - i,
    {
        let act = &activities[i];
        let ghost act0 = activities@[i as int];
        let gear: Option<&str> = match &act.gear_id {
            Some(g) => Some(g.as_str()),
            None => None,
        };
        let matching = bikes.get_by_strava_gear(user_id, gear);
        let ghost ids = spec_gear_bike_ids(bikes.bikes@, user_id, act0.gear_view());
        proof {
            assert(matching@.map_values(|b: Bike| b.id) =~= ids);
        }
        let ghost entry_rides = rides.rides@;
        let ghost entry_next = rides.next_id as int;
        let m = matching.len();
        let mut j: usize = 0;
        while j < m
            invariant
                rides.wf(),
                act0.date.valid(),
                m == matching@.len(),
                ids == matching@.map_values(|b: Bike| b.id),
                ids == spec_gear_bike_ids(bikes.bikes@, user_id, act0.gear_view()),
                act0 == activities@[i as int],
                i < activities@.len(),
                *act == act0,
                entry_rides == spec_import(
                    old(rides).rides@,
                    old(rides).next_id as int,
                    bikes.bikes@,
                    user_id,
                    activities@.take(i as int),
                ).0,
                entry_next == spec_import(
                    old(rides).rides@,
                    old(rides).next_id as int,
                    bikes.bikes@,
                    user_id,
                    activities@.take(i as int),
                ).1,
                0 <= j <= m,
                ({
                    let st = spec_import_bikes(entry_rides, entry_next, ids.take(j as int), act0);
                    rides.rides@ == st.0 && rides.next_id == st.1
                }),
            decreases m - j,
        {
            proof {
                assert(ids.take(j as int + 1) =~= ids.take(j as int).push(ids[j as int]));
                lemma_import_bikes_snoc(entry_rides, entry_next, ids.take(j as int), ids[j as int], act0);
                assert(ids[j as int] == matching@[j as int].id);
            }
            let bike_id = matching[j].id;
            let existing = rides.try_get_by_strava_ride_including_deleted(bike_id, act.id);
            if existing.is_none() {
                let partial = RidePartial {
                    date: act.date,
                    distance: act.distance,
                    description: Some(act.name.clone()),
                    strava_ride: Some(act.id),
                };
                match rides.create(bike_id, &partial) {
                    Ok(_) => {},
                    Err(e) => {
                        proof {
                            let acts = activities@;
                            let st = spec_import_bikes(
                                entry_rides,
                                entry_next,
                                ids.take(j as int),
                                act0,
                            );
                            let so = spec_import_one(st.0, st.1, ids[j as int], act0);
                            assert(so.1 == st.1 + 1);
                            assert(st.1 == i64::MAX);
                            // the whole import continues from here, so its
                            // final counter is past the id space
                            assert(ids.take(j as int) + ids.skip(j as int) =~= ids);
                            lemma_import_bikes_append(
                                entry_rides,
                                entry_next,
                                ids.take(j as int),
                                ids.skip(j as int),
                                act0,
                            );
                            assert(ids.skip(j as int)[0] == ids[j as int]);
                            assert(ids.skip(j as int).drop_first() =~= ids.skip(j as int + 1));
                            let sb = spec_import_bikes(entry_rides, entry_next, ids, act0);
                            lemma_import_bikes_next(so.0, so.1, ids.skip(j as int + 1), act0);
                            assert(sb.1 >= so.1);
                            assert(acts.take(i as int) + acts.skip(i as int) =~= acts);
                            lemma_import_append(
                                old(rides).rides@,
                                old(rides).next_id as int,
                                bikes.bikes@,
                                user_id,
                                acts.take(i as int),
                                acts.skip(i as int),
                            );
                            assert(acts.skip(i as int)[0] == act0);
                            assert(acts.skip(i as int).drop_first() =~= acts.skip(i as int + 1));
                            lemma_import_next(sb.0, sb.1, bikes.bikes@, user_id, acts.skip(i as int + 1));
                            assert(spec_import(
                                old(rides).rides@,
                                old(rides).next_id as int,
                                bikes.bikes@,
                                user_id,
                                acts,
                            ).1 > i64::MAX);
                        }
                        return Err(e);
                    },
                }
            }
            j += 1;
        }
        proof {
            assert(ids.take(m as int) =~= ids);
            assert(activities@.take(i as int + 1) =~= activities@.take(i as int).push(
                activities@[i as int],
            ));
            lemma_import_snoc(
                old(rides).rides@,
                old(rides).next_id as int,
                bikes.bikes@,
                user_id,
                activities@.take(i as int),
                activities@[i as int],
            );
        }
        i += 1;
    }
    proof {
        assert(activities@.take(n as int) =~= activities@);
    }
    Ok(())
}

} // verus!
