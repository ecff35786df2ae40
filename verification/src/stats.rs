use crate::dates::{date_chars, Date};
use crate::rides::{Ride, RideStore, RideTotal};
use crate::seqs::lemma_filter_push;
use crate::text::{spec_starts_with, starts_with};
use vstd::prelude::*;
use vstd::multiset::Multiset;
use vstd::seq_lib::lemma_multiset_commutative;
use vstd::string::StringSliceAdditionalSpecFns;

verus! {

/// The listing order of rides: later dates first, and within one date the
/// later (higher) id first — what `ORDER BY date DESC, id DESC` yields.
pub open spec fn ride_leq_desc(a: Ride, b: Ride) -> bool {
    ||| a.date.spec_day_number() > b.date.spec_day_number()
    ||| (a.date.spec_day_number() == b.date.spec_day_number() && a.id >= b.id)
}

/// A sequence of rides in listing order: pairwise descending.
pub open spec fn rides_sorted(s: Seq<Ride>) -> bool {
    forall|k: int, l: int|
        0 <= k < l < s.len() ==> ride_leq_desc(#[trigger] s[k], #[trigger] s[l])
}

/// Matches any live ride.
pub open spec fn live_ride() -> spec_fn(Ride) -> bool {
    |r: Ride| r.deleted_at is None
}

/// Matches live rides of one bike whose canonical date string starts
/// with the given prefix (the `date LIKE 'prefix%'` filter).
pub open spec fn live_ride_of_bike_with_prefix(bike_id: i64, prefix: Seq<char>) -> spec_fn(
    Ride,
) -> bool {
    |r: Ride|
        {
            &&& r.bike_id == bike_id
            &&& r.deleted_at is None
            &&& spec_starts_with(date_chars(r.date), prefix)
        }
}

/// A live ride of the bike dated in the given month.
pub open spec fn ride_in_month(r: Ride, bike_id: i64, year: u16, month: u8) -> bool {
    &&& r.bike_id == bike_id
    &&& r.deleted_at is None
    &&& r.date.year == year
    &&& r.date.month == month
}

/// Matches live rides of one bike dated in the given month.
pub open spec fn live_ride_in_month(bike_id: i64, year: u16, month: u8) -> spec_fn(Ride) -> bool {
    |r: Ride| ride_in_month(r, bike_id, year, month)
}

/// A live ride of the bike dated in the given year.
pub open spec fn ride_in_year(r: Ride, bike_id: i64, year: u16) -> bool {
    &&& r.bike_id == bike_id
    &&& r.deleted_at is None
    &&& r.date.year == year
}

/// The total distance of a sequence of rides, in thousandths of a
/// kilometre.
pub open spec fn sum_distance(s: Seq<Ride>) -> int
    decreases s.len(),
{
    if s.len() == 0 {
        0
    } else {
        sum_distance(s.drop_last()) + s.last().distance
    }
}

proof fn lemma_sum_push(s: Seq<Ride>, x: Ride)
    ensures
        sum_distance(s.push(x)) == sum_distance(s) + x.distance,
{
    assert(s.push(x).drop_last() =~= s);
    assert(s.push(x).last() == x);
}

proof fn lemma_sum_nonneg(s: Seq<Ride>)
    ensures
        0 <= sum_distance(s) <= s.len() * 0xffff_ffff_ffff_ffff,
    decreases s.len(),
{
    if s.len() > 0 {
        lemma_sum_nonneg(s.drop_last());
    }
}

fn ride_le_exec(a: &Ride, b: &Ride) -> (r: bool)
    requires
        a.date.valid(),
        b.date.valid(),
    ensures
        r == ride_leq_desc(*a, *b),
{
    let da = a.date.day_number();
    let db = b.date.day_number();
    da > db || (da == db && a.id >= b.id)
}

/// The position where a ride belongs in a descending-sorted vector.
fn insertion_point(out: &Vec<Ride>, x: &Ride) -> (j: usize)
    requires
        x.date.valid(),
        forall|k: int| 0 <= k < out@.len() ==> (#[trigger] out@[k]).valid(),
    ensures
        j <= out@.len(),
        forall|k: int| 0 <= k < j ==> ride_leq_desc(#[trigger] out@[k], *x),
        j < out@.len() ==> !ride_leq_desc(out@[j as int], *x),
{
    let m = out.len();
    let mut j: usize = 0;
    while j < m
        invariant
            x.date.valid(),
            forall|k: int| 0 <= k < out@.len() ==> (#[trigger] out@[k]).valid(),
            m == out@.len(),
            0 <= j <= m,
            forall|k: int| 0 <= k < j ==> ride_leq_desc(#[trigger] out@[k], *x),
        decreases m - j,
    {
        if !ride_le_exec(&out[j], x) {
            return j;
        }
        j += 1;
    }
    m
}

/// Sort rides into listing order. The result holds exactly the given
/// rides (as a multiset) in descending (date, id) order.
pub fn sort_rides_desc(input: Vec<Ride>) -> (out: Vec<Ride>)
    requires
        forall|k: int| 0 <= k < input@.len() ==> (#[trigger] input@[k]).valid(),
    ensures
        out@.to_multiset() == input@.to_multiset(),
        rides_sorted(out@),
        forall|k: int| 0 <= k < out@.len() ==> (#[trigger] out@[k]).valid(),
{
    broadcast use vstd::seq_lib::group_to_multiset_ensures;

    let n = input.len();
    let mut out: Vec<Ride> = Vec::new();
    let mut i: usize = 0;
    proof {
        assert(input@.take(0) =~= Seq::<Ride>::empty());
        assert(out@ =~= Seq::<Ride>::empty());
    }
    while i < n
        invariant
            n == input@.len(),
            forall|k: int| 0 <= k < input@.len() ==> (#[trigger] input@[k]).valid(),
            0 <= i <= n,
            out@.to_multiset() == input@.take(i as int).to_multiset(),
            rides_sorted(out@),
            forall|k: int| 0 <= k < out@.len() ==> (#[trigger] out@[k]).valid(),
        decreases n - i,
    {
        let x = input[i].duplicate();
        let j = insertion_point(&out, &x);
        let ghost prev = out@;
        out.insert(j, x);
        proof {
            broadcast use vstd::multiset::group_multiset_axioms;
            broadcast use vstd::seq_lib::group_to_multiset_ensures;

            let s1 = out@;
            let a = prev.take(j as int);
            let b = prev.skip(j as int);
            assert(prev =~= a + b);
            assert(s1 =~= a.push(x) + b);
            lemma_multiset_commutative(a.push(x), b);
            lemma_multiset_commutative(a, b);
            assert(a.push(x).to_multiset() =~= a.to_multiset().insert(x));
            assert(s1.to_multiset() =~= prev.to_multiset().insert(x));
            assert(input@.take(i + 1) =~= input@.take(i as int).push(input@[i as int]));
            assert(s1[j as int] == x);
            assert(forall|k: int| 0 <= k < j ==> s1[k] == prev[k]);
            assert(forall|k: int| j < k < s1.len() ==> s1[k] == prev[k - 1]);
            // order: everything before j lies at or above x, everything from j on below
            assert forall|k: int, l: int| 0 <= k < l < s1.len() implies ride_leq_desc(
                #[trigger] s1[k],
                #[trigger] s1[l],
            ) by {
                if l < j {
                    assert(s1[k] == prev[k]);
                    assert(s1[l] == prev[l]);
                } else if l == j {
                    assert(s1[k] == prev[k]);
                    assert(ride_leq_desc(prev[k], x));
                } else if k < j {
                    assert(s1[k] == prev[k]);
                    assert(s1[l] == prev[l - 1]);
                } else if k == j {
                    assert(s1[l] == prev[l - 1]);
                    assert(l - 1 >= j);
                    assert(j < prev.len());
                    assert(!ride_leq_desc(prev[j as int], x));
                    if l - 1 > j {
                        assert(ride_leq_desc(prev[j as int], prev[l - 1]));
                    }
                } else {
                    assert(s1[k] == prev[k - 1]);
                    assert(s1[l] == prev[l - 1]);
                }
            }
        }
        i += 1;
    }
    proof {
        assert(input@.take(n as int) =~= input@);
    }
    out
}

impl RideStore {
    /// All live rides in listing order: the export / overview query.
    pub fn get_all(&self) -> (r: Vec<Ride>)
        requires
            self.wf(),
        ensures
            r@.to_multiset() == self.rides@.filter(live_ride()).to_multiset(),
            rides_sorted(r@),
            forall|k: int| 0 <= k < r@.len() ==> (#[trigger] r@[k]).valid(),
    {
        let ghost p = live_ride();
        let n = self.rides.len();
        let mut picked: Vec<Ride> = Vec::new();
        let mut i: usize = 0;
        while i < n
            invariant
                p == live_ride(),
                self.wf(),
                n == self.rides@.len(),
                0 <= i <= n,
                picked@ == self.rides@.take(i as int).filter(p),
                forall|k: int| 0 <= k < picked@.len() ==> (#[trigger] picked@[k]).valid(),
            decreases n - i,
        {
            proof {
                assert(self.rides@.take(i as int + 1) =~= self.rides@.take(i as int).push(
                    self.rides@[i as int],
                ));
                lemma_filter_push(self.rides@.take(i as int), p, self.rides@[i as int]);
            }
            let x = &self.rides[i];
            if x.deleted_at.is_none() {
                picked.push(x.duplicate());
            }
            i += 1;
        }
        proof {
            assert(self.rides@.take(n as int) =~= self.rides@);
        }
        sort_rides_desc(picked)
    }

    /// The live rides of one bike, in listing order.
    pub fn get_all_for_bike(&self, bike_id: i64) -> (r: Vec<Ride>)
        requires
            self.wf(),
        ensures
            r@.to_multiset() == self.rides@.filter(
                crate::rides::active_ride_of_bike(bike_id),
            ).to_multiset(),
            rides_sorted(r@),
            forall|k: int| 0 <= k < r@.len() ==> (#[trigger] r@[k]).valid(),
    {
        let ghost p = crate::rides::active_ride_of_bike(bike_id);
        let n = self.rides.len();
        let mut picked: Vec<Ride> = Vec::new();
        let mut i: usize = 0;
        while i < n
            invariant
                p == crate::rides::active_ride_of_bike(bike_id),
                self.wf(),
                n == self.rides@.len(),
                0 <= i <= n,
                picked@ == self.rides@.take(i as int).filter(p),
                forall|k: int| 0 <= k < picked@.len() ==> (#[trigger] picked@[k]).valid(),
            decreases n - i,
        {
            proof {
                assert(self.rides@.take(i as int + 1) =~= self.rides@.take(i as int).push(
                    self.rides@[i as int],
                ));
                lemma_filter_push(self.rides@.take(i as int), p, self.rides@[i as int]);
            }
            let x = &self.rides[i];
            if x.bike_id == bike_id && x.deleted_at.is_none() {
                picked.push(x.duplicate());
            }
            i += 1;
        }
        proof {
            assert(self.rides@.take(n as int) =~= self.rides@);
        }
        sort_rides_desc(picked)
    }

    /// The live rides of one bike whose date begins with `date` (a
    /// `YYYY-` or `YYYY-MM-` prefix), in listing order.
    pub fn get_all_for_bike_with_date(&self, bike_id: i64, date: &str) -> (r: Vec<Ride>)
        requires
            self.wf(),
        ensures
            r@.to_multiset() == self.rides@.filter(
                live_ride_of_bike_with_prefix(bike_id, date@),
            ).to_multiset(),
            rides_sorted(r@),
            forall|k: int| 0 <= k < r@.len() ==> (#[trigger] r@[k]).valid(),
    {
        let ghost p = live_ride_of_bike_with_prefix(bike_id, date@);
        let n = self.rides.len();
        let mut picked: Vec<Ride> = Vec::new();
        let mut i: usize = 0;
        while i < n
            invariant
                p == live_ride_of_bike_with_prefix(bike_id, date@),
                self.wf(),
                n == self.rides@.len(),
                0 <= i <= n,
                picked@ == self.rides@.take(i as int).filter(p),
                forall|k: int| 0 <= k < picked@.len() ==> (#[trigger] picked@[k]).valid(),
            decreases n - i,
        {
            proof {
                assert(self.rides@.take(i as int + 1) =~= self.rides@.take(i as int).push(
                    self.rides@[i as int],
                ));
                lemma_filter_push(self.rides@.take(i as int), p, self.rides@[i as int]);
            }
            let x = &self.rides[i];
            if x.bike_id == bike_id && x.deleted_at.is_none() {
                let formatted = crate::dates::format_date(&x.date);
                if starts_with(formatted.as_str(), date) {
                    picked.push(x.duplicate());
                }
            }
            i += 1;
        }
        proof {
            assert(self.rides@.take(n as int) =~= self.rides@);
        }
        sort_rides_desc(picked)
    }

    /// The total distance over the bike's live rides, exact, in
    /// thousandths of a kilometre; zero when it has none.
    pub fn total_distance_for_bike(&self, bike_id: i64) -> (r: RideTotal)
        requires
            self.wf(),
        ensures
            r.total_distance == sum_distance(
                self.rides@.filter(crate::rides::active_ride_of_bike(bike_id)),
            ),
    {
        let ghost p = crate::rides::active_ride_of_bike(bike_id);
        let n = self.rides.len();
        let mut total: u128 = 0;
        let mut i: usize = 0;
        while i < n
            invariant
                p == crate::rides::active_ride_of_bike(bike_id),
                n == self.rides@.len(),
                0 <= i <= n,
                total == sum_distance(self.rides@.take(i as int).filter(p)),
                total <= i * 0xffff_ffff_ffff_ffff,
            decreases n - i,
        {
            proof {
                assert(self.rides@.take(i as int + 1) =~= self.rides@.take(i as int).push(
                    self.rides@[i as int],
                ));
                lemma_filter_push(self.rides@.take(i as int), p, self.rides@[i as int]);
                if p(self.rides@[i as int]) {
                    lemma_sum_push(self.rides@.take(i as int).filter(p), self.rides@[i as int]);
                }
            }
            let x = &self.rides[i];
            if x.bike_id == bike_id && x.deleted_at.is_none() {
                total = total + x.distance as u128;
            }
            i += 1;
        }
        proof {
            assert(self.rides@.take(n as int) =~= self.rides@);
        }
        RideTotal { total_distance: total }
    }
}

/// One month's bucket of a yearly listing: its rides in listing order
/// and their exact total distance.
#[derive(Debug)]
pub struct RideMonth {
    pub year: u16,
    pub month: u8,
    pub total_distance: u128,
    pub rides: Vec<Ride>,
}

/// One month's entry of the charts: how many rides, and their total
/// distance when there were any.
#[derive(Debug, Clone, Copy, PartialEq, Eq, Structural)]
pub struct MonthStat {
    pub month: u8,
    pub rides: usize,
    pub total_distance: Option<u128>,
}

impl RideStore {
    /// The bike's live rides of one month, in listing order.
    fn month_rides(&self, bike_id: i64, year: u16, month: u8) -> (r: Vec<Ride>)
        requires
            self.wf(),
        ensures
            r@.to_multiset() == self.rides@.filter(
                live_ride_in_month(bike_id, year, month),
            ).to_multiset(),
            rides_sorted(r@),
            forall|k: int| 0 <= k < r@.len() ==> (#[trigger] r@[k]).valid(),
    {
        let ghost p = live_ride_in_month(bike_id, year, month);
        let n = self.rides.len();
        let mut picked: Vec<Ride> = Vec::new();
        let mut i: usize = 0;
        while i < n
            invariant
                p == live_ride_in_month(bike_id, year, month),
                self.wf(),
                n == self.rides@.len(),
                0 <= i <= n,
                picked@ == self.rides@.take(i as int).filter(p),
                forall|k: int| 0 <= k < picked@.len() ==> (#[trigger] picked@[k]).valid(),
            decreases n - i,
        {
            proof {
                assert(self.rides@.take(i as int + 1) =~= self.rides@.take(i as int).push(
                    self.rides@[i as int],
                ));
                lemma_filter_push(self.rides@.take(i as int), p, self.rides@[i as int]);
            }
            let x = &self.rides[i];
            if x.bike_id == bike_id && x.deleted_at.is_none() && x.date.year == year
                && x.date.month == month {
                picked.push(x.duplicate());
            }
            i += 1;
        }
        proof {
            assert(self.rides@.take(n as int) =~= self.rides@);
        }
        sort_rides_desc(picked)
    }

    /// The exact total distance of the bike's live rides in one month.
    fn month_total(&self, bike_id: i64, year: u16, month: u8) -> (r: u128)
        ensures
            r == sum_distance(self.rides@.filter(live_ride_in_month(bike_id, year, month))),
    {
        let ghost p = live_ride_in_month(bike_id, year, month);
        let n = self.rides.len();
        let mut total: u128 = 0;
        let mut i: usize = 0;
        while i < n
            invariant
                p == live_ride_in_month(bike_id, year, month),
                n == self.rides@.len(),
                0 <= i <= n,
                total == sum_distance(self.rides@.take(i as int).filter(p)),
                total <= i * 0xffff_ffff_ffff_ffff,
            decreases n - i,
        {
            proof {
                assert(self.rides@.take(i as int + 1) =~= self.rides@.take(i as int).push(
                    self.rides@[i as int],
                ));
                lemma_filter_push(self.rides@.take(i as int), p, self.rides@[i as int]);
                if p(self.rides@[i as int]) {
                    lemma_sum_push(self.rides@.take(i as int).filter(p), self.rides@[i as int]);
                }
            }
            let x = &self.rides[i];
            if x.bike_id == bike_id && x.deleted_at.is_none() && x.date.year == year
                && x.date.month == month {
                total = total + x.distance as u128;
            }
            i += 1;
        }
        proof {
            assert(self.rides@.take(n as int) =~= self.rides@);
        }
        total
    }

    /// One month's bucket for the bike.
    pub fn get_month(&self, bike_id: i64, year: u16, month: u8) -> (r: RideMonth)
        requires
            self.wf(),
        ensures
            r.year == year,
            r.month == month,
            r.total_distance == sum_distance(
                self.rides@.filter(live_ride_in_month(bike_id, year, month)),
            ),
            r.rides@.to_multiset() == self.rides@.filter(
                live_ride_in_month(bike_id, year, month),
            ).to_multiset(),
            rides_sorted(r.rides@),
    {
        RideMonth {
            year,
            month,
            total_distance: self.month_total(bike_id, year, month),
            rides: self.month_rides(bike_id, year, month),
        }
    }

    /// The bike's year in twelve buckets, December first, each holding
    /// that month's rides in listing order and their exact total.
    pub fn get_monthly_rides(&self, bike_id: i64, year: u16) -> (r: Vec<RideMonth>)
        requires
            self.wf(),
        ensures
            r@.len() == 12,
            forall|k: int|
                0 <= k < 12 ==> {
                    let m = (12 - k) as u8;
                    &&& (#[trigger] r@[k]).year == year
                    &&& r@[k].month == m
                    &&& r@[k].total_distance == sum_distance(
                        self.rides@.filter(live_ride_in_month(bike_id, year, m)),
                    )
                    &&& r@[k].rides@.to_multiset() == self.rides@.filter(
                        live_ride_in_month(bike_id, year, m),
                    ).to_multiset()
                    &&& rides_sorted(r@[k].rides@)
                },
    {
        let mut out: Vec<RideMonth> = Vec::new();
        let mut k: usize = 0;
        while k < 12
            invariant
                self.wf(),
                0 <= k <= 12,
                out@.len() == k,
                forall|q: int|
                    0 <= q < k ==> {
                        let m = (12 - q) as u8;
                        &&& (#[trigger] out@[q]).year == year
                        &&& out@[q].month == m
                        &&& out@[q].total_distance == sum_distance(
                            self.rides@.filter(live_ride_in_month(bike_id, year, m)),
                        )
                        &&& out@[q].rides@.to_multiset() == self.rides@.filter(
                            live_ride_in_month(bike_id, year, m),
                        ).to_multiset()
                        &&& rides_sorted(out@[q].rides@)
                    },
            decreases 12 - k,
        {
            let month = (12 - k) as u8;
            let bucket = self.get_month(bike_id, year, month);
            out.push(bucket);
            k += 1;
        }
        out
    }

    /// The bike's year as chart data: months ascending, each with its
    /// ride count, and a total only for months that had rides.
    pub fn yearly_stats(&self, bike_id: i64, year: u16) -> (r: Vec<MonthStat>)
        requires
            self.wf(),
        ensures
            r@.len() == 12,
            forall|k: int|
                0 <= k < 12 ==> {
                    let m = (k + 1) as u8;
                    let rides = self.rides@.filter(live_ride_in_month(bike_id, year, m));
                    &&& (#[trigger] r@[k]).month == m
                    &&& r@[k].rides == rides.len()
                    &&& r@[k].total_distance == (if rides.len() == 0 {
                        None::<u128>
                    } else {
                        Some(sum_distance(rides) as u128)
                    })
                },
    {
        broadcast use vstd::seq_lib::group_to_multiset_ensures;

        let mut out: Vec<MonthStat> = Vec::new();
        let mut k: usize = 0;
        while k < 12
            invariant
                self.wf(),
                0 <= k <= 12,
                out@.len() == k,
                forall|q: int|
                    0 <= q < k ==> {
                        let m = (q + 1) as u8;
                        let rides = self.rides@.filter(live_ride_in_month(bike_id, year, m));
                        &&& (#[trigger] out@[q]).month == m
                        &&& out@[q].rides == rides.len()
                        &&& out@[q].total_distance == (if rides.len() == 0 {
                            None::<u128>
                        } else {
                            Some(sum_distance(rides) as u128)
                        })
                    },
            decreases 12 - k,
        {
            let month = (k + 1) as u8;
            let ghost p = live_ride_in_month(bike_id, year, month);
            let bucket = self.month_rides(bike_id, year, month);
            let total = self.month_total(bike_id, year, month);
            proof {
                broadcast use vstd::seq_lib::group_to_multiset_ensures;

                assert(bucket@.to_multiset().len() == self.rides@.filter(p).to_multiset().len());
                assert(bucket@.len() == bucket@.to_multiset().len());
                assert(self.rides@.filter(p).len() == self.rides@.filter(p).to_multiset().len());
                lemma_sum_nonneg(self.rides@.filter(p));
            }
            let count = bucket.len();
            let stat = MonthStat {
                month,
                rides: count,
                total_distance: if count == 0 {
                    None
                } else {
                    Some(total)
                },
            };
            out.push(stat);
            k += 1;
        }
        out
    }

    /// The years in which the bike has live rides, each once, latest
    /// first: the year picker of the charts.
    pub fn active_years(&self, bike_id: i64) -> (r: Vec<u16>)
        requires
            self.wf(),
        ensures
            forall|k: int, l: int| 0 <= k < l < r@.len() ==> #[trigger] r@[k] > #[trigger] r@[l],
            forall|y: u16|
                r@.contains(y) <==> exists|k: int|
                    0 <= k < self.rides@.len() && ride_in_year(#[trigger] self.rides@[k], bike_id, y),
    {
        let n = self.rides.len();
        let mut out: Vec<u16> = Vec::new();
        let mut i: usize = 0;
        while i < n
            invariant
                self.wf(),
                n == self.rides@.len(),
                0 <= i <= n,
                forall|k: int, l: int|
                    0 <= k < l < out@.len() ==> #[trigger] out@[k] > #[trigger] out@[l],
                forall|y: u16|
                    out@.contains(y) <==> exists|k: int|
                        0 <= k < i && ride_in_year(#[trigger] self.rides@[k], bike_id, y),
            decreases n - i,
        {
            let x = &self.rides[i];
            if x.bike_id == bike_id && x.deleted_at.is_none() {
                let y = x.date.year;
                proof {
                    assert(ride_in_year(self.rides@[i as int], bike_id, y));
                }
                let (j, already) = year_position(&out, y);
                if already {
                    proof {
                        assert forall|z: u16| out@.contains(z) implies exists|k: int|
                            0 <= k < i + 1 && ride_in_year(
                                #[trigger] self.rides@[k],
                                bike_id,
                                z,
                            ) by {
                            let k = choose|k: int|
                                0 <= k < i && ride_in_year(#[trigger] self.rides@[k], bike_id, z);
                        }
                    }
                } else {
                    let ghost prev = out@;
                    out.insert(j, y);
                    proof {
                        let s1 = out@;
                        assert(s1[j as int] == y);
                        assert(forall|k: int| 0 <= k < j ==> s1[k] == prev[k]);
                        assert(forall|k: int| j < k < s1.len() ==> s1[k] == prev[k - 1]);
                        assert forall|k: int, l: int| 0 <= k < l < s1.len() implies #[trigger] s1[k]
                            > #[trigger] s1[l] by {
                            if l == j {
                                assert(s1[k] == prev[k]);
                            } else if k == j && l > j {
                                assert(s1[l] == prev[l - 1]);
                            }
                        }
                        assert forall|z: u16| s1.contains(z) implies (prev.contains(z) || z
                            == y) by {
                            let w = choose|w: int| 0 <= w < s1.len() && s1[w] == z;
                            if w < j {
                                assert(prev[w] == z);
                            } else if w > j {
                                assert(prev[w - 1] == z);
                            }
                        }
                        assert forall|z: u16| prev.contains(z) implies s1.contains(z) by {
                            let w = choose|w: int| 0 <= w < prev.len() && prev[w] == z;
                            if w < j {
                                assert(s1[w] == z);
                            } else {
                                assert(s1[w + 1] == z);
                            }
                        }
                        assert(s1.contains(y));
                        assert forall|z: u16| s1.contains(z) implies exists|k: int|
                            0 <= k < i + 1 && ride_in_year(
                                #[trigger] self.rides@[k],
                                bike_id,
                                z,
                            ) by {
                            if prev.contains(z) {
                                let k = choose|k: int|
                                    0 <= k < i && ride_in_year(
                                        #[trigger] self.rides@[k],
                                        bike_id,
                                        z,
                                    );
                            } else {
                                assert(z == y);
                                assert(ride_in_year(self.rides@[i as int], bike_id, z));
                            }
                        }
                    }
                }
            } else {
                proof {
                    assert forall|z: u16| out@.contains(z) implies exists|k: int|
                        0 <= k < i + 1 && ride_in_year(#[trigger] self.rides@[k], bike_id, z) by {
                        let k = choose|k: int|
                            0 <= k < i && ride_in_year(#[trigger] self.rides@[k], bike_id, z);
                    }
                    assert forall|z: u16|
                        (exists|k: int|
                            0 <= k < i + 1 && ride_in_year(
                                #[trigger] self.rides@[k],
                                bike_id,
                                z,
                            )) implies out@.contains(z) by {
                        let k = choose|k: int|
                            0 <= k < i + 1 && ride_in_year(#[trigger] self.rides@[k], bike_id, z);
                        assert(k < i);
                    }
                }
            }
            i += 1;
        }
        out
    }
}

/// A live ride (of any bike) dated in the given calendar month.
pub open spec fn ride_in_calendar_month(r: Ride, year: u16, month: u8) -> bool {
    &&& r.deleted_at is None
    &&& r.date.year == year
    &&& r.date.month == month
}

/// Matches live rides of any bike dated in the given calendar month.
pub open spec fn live_ride_in_calendar_month(year: u16, month: u8) -> spec_fn(Ride) -> bool {
    |r: Ride| ride_in_calendar_month(r, year, month)
}

/// Whether some live ride falls in the calendar month.
pub open spec fn spec_month_present(rides: Seq<Ride>, year: u16, month: u8) -> bool {
    exists|j: int| 0 <= j < rides.len() && #[trigger] ride_in_calendar_month(rides[j], year, month)
}

/// A month key: the year and month packed so that the numeric order is
/// the calendar order.
pub open spec fn month_key(year: u16, month: u8) -> u32 {
    ((year as int) * 100 + month as int) as u32
}

/// Whether the grouping lists the calendar month.
pub open spec fn spec_group_listed(groups: Seq<RideGroup>, year: u16, month: u8) -> bool {
    exists|k: int|
        0 <= k < groups.len() && (#[trigger] groups[k]).year == year && groups[k].month == month
}

/// One group of the overview page: a month's rides, over all bikes, with
/// their total and the `YYYY-MM` label.
#[derive(Debug)]
pub struct RideGroup {
    pub date: String,
    pub year: u16,
    pub month: u8,
    pub total_distance: u128,
    pub rides: Vec<Ride>,
}

impl RideStore {
    /// The live rides of one calendar month over all bikes, in listing
    /// order.
    fn calendar_month_rides(&self, year: u16, month: u8) -> (r: Vec<Ride>)
        requires
            self.wf(),
        ensures
            r@.to_multiset() == self.rides@.filter(
                live_ride_in_calendar_month(year, month),
            ).to_multiset(),
            rides_sorted(r@),
            forall|k: int| 0 <= k < r@.len() ==> (#[trigger] r@[k]).valid(),
    {
        let ghost p = live_ride_in_calendar_month(year, month);
        let n = self.rides.len();
        let mut picked: Vec<Ride> = Vec::new();
        let mut i: usize = 0;
        while i < n
            invariant
                p == live_ride_in_calendar_month(year, month),
                self.wf(),
                n == self.rides@.len(),
                0 <= i <= n,
                picked@ == self.rides@.take(i as int).filter(p),
                forall|k: int| 0 <= k < picked@.len() ==> (#[trigger] picked@[k]).valid(),
            decreases n - i,
        {
            proof {
                assert(self.rides@.take(i as int + 1) =~= self.rides@.take(i as int).push(
                    self.rides@[i as int],
                ));
                lemma_filter_push(self.rides@.take(i as int), p, self.rides@[i as int]);
            }
            let x = &self.rides[i];
            if x.deleted_at.is_none() && x.date.year == year && x.date.month == month {
                picked.push(x.duplicate());
            }
            i += 1;
        }
        proof {
            assert(self.rides@.take(n as int) =~= self.rides@);
        }
        sort_rides_desc(picked)
    }

    /// The exact total of one calendar month over all bikes.
    fn calendar_month_total(&self, year: u16, month: u8) -> (r: u128)
        ensures
            r == sum_distance(self.rides@.filter(live_ride_in_calendar_month(year, month))),
    {
        let ghost p = live_ride_in_calendar_month(year, month);
        let n = self.rides.len();
        let mut total: u128 = 0;
        let mut i: usize = 0;
        while i < n
            invariant
                p == live_ride_in_calendar_month(year, month),
                n == self.rides@.len(),
                0 <= i <= n,
                total == sum_distance(self.rides@.take(i as int).filter(p)),
                total <= i * 0xffff_ffff_ffff_ffff,
            decreases n - i,
        {
            proof {
                assert(self.rides@.take(i as int + 1) =~= self.rides@.take(i as int).push(
                    self.rides@[i as int],
                ));
                lemma_filter_push(self.rides@.take(i as int), p, self.rides@[i as int]);
                if p(self.rides@[i as int]) {
                    lemma_sum_push(self.rides@.take(i as int).filter(p), self.rides@[i as int]);
                }
            }
            let x = &self.rides[i];
            if x.deleted_at.is_none() && x.date.year == year && x.date.month == month {
                total = total + x.distance as u128;
            }
            i += 1;
        }
        proof {
            assert(self.rides@.take(n as int) =~= self.rides@);
        }
        total
    }

    /// The overview page grouping: every month that has live rides, its
    /// `YYYY-MM` label, the rides in listing order and their exact total,
    /// newest month first.
    pub fn group_rides_by_month(&self) -> (r: Vec<RideGroup>)
        requires
            self.wf(),
        ensures
            forall|a: int, b: int|
                0 <= a < b < r@.len() ==> ((#[trigger] r@[a]).year > (#[trigger] r@[b]).year || (
                r@[a].year == r@[b].year && r@[a].month > r@[b].month)),
            forall|k: int|
                0 <= k < r@.len() ==> {
                    let g = #[trigger] r@[k];
                    &&& g.rides@.to_multiset() == self.rides@.filter(
                        live_ride_in_calendar_month(g.year, g.month),
                    ).to_multiset()
                    &&& rides_sorted(g.rides@)
                    &&& g.total_distance == sum_distance(
                        self.rides@.filter(live_ride_in_calendar_month(g.year, g.month)),
                    )
                    &&& g.date@ == date_chars(Date { year: g.year, month: g.month, day: 1 }).take(
                        7,
                    )
                },
            forall|y: u16, m: u8|
                #![trigger spec_month_present(self.rides@, y, m)]
                spec_group_listed(r@, y, m) <==> spec_month_present(self.rides@, y, m),
    {
        let keys = self.month_keys();
        let m = keys.len();
        let mut out: Vec<RideGroup> = Vec::new();
        let mut k: usize = 0;
        while k < m
            invariant
                self.wf(),
                m == keys@.len(),
                0 <= k <= m,
                out@.len() == k,
                forall|a: int, b: int|
                    0 <= a < b < keys@.len() ==> #[trigger] keys@[a] > #[trigger] keys@[b],
                forall|y: u16, m2: u8|
                    #![trigger spec_month_present(self.rides@, y, m2)]
                    keys@.contains(month_key(y, m2)) && 1 <= m2 <= 12 <==> spec_month_present(
                        self.rides@,
                        y,
                        m2,
                    ),
                forall|q: int|
                    0 <= q < keys@.len() ==> 100 <= #[trigger] keys@[q] && keys@[q] <= 999_912
                        && 1 <= keys@[q] % 100 <= 12,
                forall|q: int|
                    0 <= q < k ==> {
                        let g = #[trigger] out@[q];
                        &&& g.year == keys@[q] / 100
                        &&& g.month == (keys@[q] % 100) as u8
                        &&& g.rides@.to_multiset() == self.rides@.filter(
                            live_ride_in_calendar_month(g.year, g.month),
                        ).to_multiset()
                        &&& rides_sorted(g.rides@)
                        &&& g.total_distance == sum_distance(
                            self.rides@.filter(live_ride_in_calendar_month(g.year, g.month)),
                        )
                        &&& g.date@ == date_chars(
                            Date { year: g.year, month: g.month, day: 1 },
                        ).take(7)
                    },
            decreases m - k,
        {
            let key = keys[k];
            let year = (key / 100) as u16;
            let month = (key % 100) as u8;
            let label_date = Date { year, month, day: 1 };
            proof {
                assert(label_date.valid());
            }
            let group = RideGroup {
                date: crate::dates::format_year_month(&label_date),
                year,
                month,
                total_distance: self.calendar_month_total(year, month),
                rides: self.calendar_month_rides(year, month),
            };
            out.push(group);
            k += 1;
        }
        proof {
            assert forall|y: u16, m2: u8|
                #![trigger spec_month_present(self.rides@, y, m2)]
                spec_group_listed(out@, y, m2) <==> spec_month_present(self.rides@, y, m2) by {
                if spec_group_listed(out@, y, m2) {
                    let q = choose|q: int|
                        0 <= q < out@.len() && (#[trigger] out@[q]).year == y && out@[q].month
                            == m2;
                    lemma_unpack_month_key(keys@[q], y as int, m2 as int);
                    assert(keys@.contains(month_key(y, m2)));
                    assert(1 <= m2 <= 12);
                } else if spec_month_present(self.rides@, y, m2) {
                    let j = choose|j: int|
                        0 <= j < self.rides@.len() && #[trigger] ride_in_calendar_month(
                            self.rides@[j],
                            y,
                            m2,
                        );
                    assert(self.rides@[j].valid());
                    assert(1 <= m2 <= 12);
                    assert(keys@.contains(month_key(y, m2)));
                    let q = choose|q: int| 0 <= q < keys@.len() && keys@[q] == month_key(y, m2);
                    lemma_unpack_month_key(keys@[q], y as int, m2 as int);
                    assert(out@[q].year == y && out@[q].month == m2);
                    assert(spec_group_listed(out@, y, m2));
                }
            }
            assert forall|a: int, b: int| 0 <= a < b < out@.len() implies ((
            #[trigger] out@[a]).year > (#[trigger] out@[b]).year || (out@[a].year == out@[b].year
                && out@[a].month > out@[b].month)) by {
                assert(keys@[a] > keys@[b]);
                lemma_unpack_month_key(keys@[a], out@[a].year as int, out@[a].month as int);
                lemma_unpack_month_key(keys@[b], out@[b].year as int, out@[b].month as int);
            }
        }
        out
    }

    /// The distinct month keys of live rides, strictly descending:
    /// newest month first.
    fn month_keys(&self) -> (r: Vec<u32>)
        requires
            self.wf(),
        ensures
            forall|a: int, b: int| 0 <= a < b < r@.len() ==> #[trigger] r@[a] > #[trigger] r@[b],
            forall|y: u16, m: u8|
                #![trigger spec_month_present(self.rides@, y, m)]
                r@.contains(month_key(y, m)) && 1 <= m <= 12 <==> spec_month_present(
                    self.rides@,
                    y,
                    m,
                ),
            forall|q: int|
                0 <= q < r@.len() ==> 100 <= #[trigger] r@[q] && r@[q] <= 999_912 && 1 <= r@[q]
                    % 100 <= 12,
    {
        let n = self.rides.len();
        let mut out: Vec<u32> = Vec::new();
        let mut i: usize = 0;
        proof {
            assert(self.rides@.take(0) =~= Seq::<Ride>::empty());
        }
        while i < n
            invariant
                self.wf(),
                n == self.rides@.len(),
                0 <= i <= n,
                forall|a: int, b: int|
                    0 <= a < b < out@.len() ==> #[trigger] out@[a] > #[trigger] out@[b],
                forall|y: u16, m: u8|
                    #![trigger spec_month_present(self.rides@.take(i as int), y, m)]
                    out@.contains(month_key(y, m)) && 1 <= m <= 12 <==> spec_month_present(
                        self.rides@.take(i as int),
                        y,
                        m,
                    ),
                forall|q: int|
                    0 <= q < out@.len() ==> 100 <= #[trigger] out@[q] && out@[q] <= 999_912 && 1
                        <= out@[q] % 100 <= 12,
            decreases n - i,
        {
            let ghost pre = self.rides@.take(i as int);
            let ghost post = self.rides@.take(i as int + 1);
            proof {
                assert(post =~= pre.push(self.rides@[i as int]));
                assert forall|y: u16, m: u8|
                    #![trigger spec_month_present(post, y, m)]
                    spec_month_present(post, y, m) <==> (spec_month_present(pre, y, m)
                        || ride_in_calendar_month(self.rides@[i as int], y, m)) by {
                    if spec_month_present(post, y, m) {
                        let j = choose|j: int|
                            0 <= j < post.len() && #[trigger] ride_in_calendar_month(
                                post[j],
                                y,
                                m,
                            );
                        if j < i {
                            assert(pre[j] == post[j]);
                            assert(ride_in_calendar_month(pre[j], y, m));
                        } else {
                            assert(post[j] == self.rides@[i as int]);
                        }
                    }
                    if spec_month_present(pre, y, m) {
                        let j = choose|j: int|
                            0 <= j < pre.len() && #[trigger] ride_in_calendar_month(pre[j], y, m);
                        assert(ride_in_calendar_month(post[j], y, m));
                    }
                    if ride_in_calendar_month(self.rides@[i as int], y, m) {
                        assert(ride_in_calendar_month(post[i as int], y, m));
                    }
                }
            }
            let x = &self.rides[i];
            if x.deleted_at.is_none() {
                let y = x.date.year;
                let mth = x.date.month;
                let key: u32 = (y as u32) * 100 + mth as u32;
                proof {
                    assert(self.rides@[i as int].valid());
                    assert(ride_in_calendar_month(self.rides@[i as int], y, mth));
                    assert(key == month_key(y, mth));
                }
                let (j, already) = key_position(&out, key);
                if !already {
                    let ghost prev = out@;
                    out.insert(j, key);
                    proof {
                        let s1 = out@;
                        assert(s1[j as int] == key);
                        assert(forall|q: int| 0 <= q < j ==> s1[q] == prev[q]);
                        assert(forall|q: int| j < q < s1.len() ==> s1[q] == prev[q - 1]);
                        assert forall|a: int, b: int| 0 <= a < b < s1.len() implies #[trigger] s1[a]
                            > #[trigger] s1[b] by {
                            if b == j {
                                assert(s1[a] == prev[a]);
                            } else if a == j && b > j {
                                assert(s1[b] == prev[b - 1]);
                            }
                        }
                        assert forall|z: u32| s1.contains(z) implies (prev.contains(z) || z
                            == key) by {
                            let w = choose|w: int| 0 <= w < s1.len() && s1[w] == z;
                            if w < j {
                                assert(prev[w] == z);
                            } else if w > j {
                                assert(prev[w - 1] == z);
                            }
                        }
                        assert forall|z: u32| prev.contains(z) implies s1.contains(z) by {
                            let w = choose|w: int| 0 <= w < prev.len() && prev[w] == z;
                            if w < j {
                                assert(s1[w] == z);
                            } else {
                                assert(s1[w + 1] == z);
                            }
                        }
                        assert(s1.contains(key));
                        assert forall|y2: u16, m2: u8|
                            #![trigger spec_month_present(post, y2, m2)]
                            s1.contains(month_key(y2, m2)) && 1 <= m2
                                <= 12 implies spec_month_present(post, y2, m2) by {
                            if prev.contains(month_key(y2, m2)) {
                                assert(spec_month_present(pre, y2, m2));
                            } else {
                                assert(month_key(y2, m2) == key);
                                lemma_month_key_injective(y2, m2, y, mth);
                                assert(ride_in_calendar_month(self.rides@[i as int], y2, m2));
                            }
                        }
                        assert forall|y2: u16, m2: u8|
                            #![trigger spec_month_present(post, y2, m2)]
                            spec_month_present(post, y2, m2) && 1 <= m2 <= 12 implies s1.contains(
                            month_key(y2, m2),
                        ) by {
                            if spec_month_present(pre, y2, m2) {
                                assert(prev.contains(month_key(y2, m2)));
                            } else {
                                assert(ride_in_calendar_month(self.rides@[i as int], y2, m2));
                                assert(y2 == y && m2 == mth);
                            }
                        }
                    }
                } else {
                    proof {
                        assert forall|y2: u16, m2: u8|
                            #![trigger spec_month_present(post, y2, m2)]
                            out@.contains(month_key(y2, m2)) && 1 <= m2
                                <= 12 implies spec_month_present(post, y2, m2) by {
                            assert(spec_month_present(pre, y2, m2));
                        }
                        assert forall|y2: u16, m2: u8|
                            #![trigger spec_month_present(post, y2, m2)]
                            spec_month_present(post, y2, m2) && 1 <= m2 <= 12 implies out@.contains(
                            month_key(y2, m2),
                        ) by {
                            if spec_month_present(pre, y2, m2) {
                            } else {
                                assert(ride_in_calendar_month(self.rides@[i as int], y2, m2));
                                assert(y2 == y && m2 == mth);
                            }
                        }
                    }
                }
            } else {
                proof {
                    assert forall|y2: u16, m2: u8|
                        #![trigger spec_month_present(post, y2, m2)]
                        spec_month_present(post, y2, m2) <==> spec_month_present(pre, y2, m2) by {
                        assert(!(self.rides@[i as int].deleted_at is None));
                        assert(!ride_in_calendar_month(self.rides@[i as int], y2, m2));
                    }
                }
            }
            i += 1;
        }
        proof {
            assert(self.rides@.take(n as int) =~= self.rides@);
        }
        out
    }
}

/// Packed month keys agree exactly when year and month agree.
proof fn lemma_month_key_injective(y1: u16, m1: u8, y2: u16, m2: u8)
    requires
        m1 <= 99,
        m2 <= 99,
        month_key(y1, m1) == month_key(y2, m2),
    ensures
        y1 == y2 && m1 == m2,
{
    lemma_unpack_month_key(month_key(y1, m1), y1 as int, m1 as int);
    lemma_unpack_month_key(month_key(y2, m2), y2 as int, m2 as int);
}

/// Unpack a month key: its quotient and remainder by one hundred are the
/// year and month it was packed from.
proof fn lemma_unpack_month_key(key: u32, y: int, m: int)
    requires
        0 <= m < 100,
        key == y * 100 + m,
    ensures
        key as int / 100 == y,
        key as int % 100 == m,
{
    vstd::arithmetic::div_mod::lemma_fundamental_div_mod_converse(key as int, 100, y, m);
}

/// Where a month key belongs in a strictly descending list, or that it
/// is already present.
fn key_position(out: &Vec<u32>, key: u32) -> (r: (usize, bool))
    requires
        forall|a: int, b: int| 0 <= a < b < out@.len() ==> #[trigger] out@[a] > #[trigger] out@[b],
    ensures
        r.1 ==> out@.contains(key),
        !r.1 ==> {
            &&& r.0 <= out@.len()
            &&& forall|k: int| 0 <= k < r.0 ==> #[trigger] out@[k] > key
            &&& (r.0 < out@.len() ==> out@[r.0 as int] < key)
            &&& !out@.contains(key)
        },
{
    let m = out.len();
    let mut j: usize = 0;
    while j < m
        invariant
            forall|a: int, b: int|
                0 <= a < b < out@.len() ==> #[trigger] out@[a] > #[trigger] out@[b],
            m == out@.len(),
            0 <= j <= m,
            forall|k: int| 0 <= k < j ==> #[trigger] out@[k] > key,
        decreases m - j,
    {
        if out[j] == key {
            proof {
                assert(out@[j as int] == key);
            }
            return (j, true);
        }
        if out[j] < key {
            proof {
                assert forall|k: int| 0 <= k < out@.len() implies #[trigger] out@[k] != key by {
                    if k >= j {
                        if k > j {
                            assert(out@[k] < out@[j as int]);
                        }
                    }
                }
                if out@.contains(key) {
                    let w = choose|w: int| 0 <= w < out@.len() && out@[w] == key;
                }
            }
            return (j, false);
        }
        j += 1;
    }
    proof {
        if out@.contains(key) {
            let w = choose|w: int| 0 <= w < out@.len() && out@[w] == key;
        }
    }
    (m, false)
}

/// Where a year belongs in a strictly descending list, or that it is
/// already present.
fn year_position(out: &Vec<u16>, y: u16) -> (r: (usize, bool))
    requires
        forall|k: int, l: int| 0 <= k < l < out@.len() ==> #[trigger] out@[k] > #[trigger] out@[l],
    ensures
        r.1 ==> out@.contains(y),
        !r.1 ==> {
            &&& r.0 <= out@.len()
            &&& forall|k: int| 0 <= k < r.0 ==> #[trigger] out@[k] > y
            &&& (r.0 < out@.len() ==> out@[r.0 as int] < y)
            &&& !out@.contains(y)
        },
{
    let m = out.len();
    let mut j: usize = 0;
    while j < m
        invariant
            forall|k: int, l: int|
                0 <= k < l < out@.len() ==> #[trigger] out@[k] > #[trigger] out@[l],
            m == out@.len(),
            0 <= j <= m,
            forall|k: int| 0 <= k < j ==> #[trigger] out@[k] > y,
        decreases m - j,
    {
        if out[j] == y {
            proof {
                assert(out@[j as int] == y);
            }
            return (j, true);
        }
        if out[j] < y {
            proof {
                assert forall|k: int| 0 <= k < out@.len() implies #[trigger] out@[k] != y by {
                    if k >= j {
                        if k > j {
                            assert(out@[k] < out@[j as int]);
                        }
                    }
                }
                if out@.contains(y) {
                    let w = choose|w: int| 0 <= w < out@.len() && out@[w] == y;
                }
            }
            return (j, false);
        }
        j += 1;
    }
    proof {
        if out@.contains(y) {
            let w = choose|w: int| 0 <= w < out@.len() && out@[w] == y;
        }
    }
    (m, false)
}

} // verus!