use crate::dates::{
    date_bytes, date_chars, date_time_bytes, date_time_chars, digit_byte, format_date_time,
    is_digit, parse_date_bytes, parse_date_time_bytes, DateTime,
};
use crate::error::{AppError, AppResult};
use crate::num::{
    canonical_dec, dec_digits, dec_to_u64, dec_value, lemma_canonical_dec_digits,
    lemma_dec_digits_value, u64_to_dec,
};
use crate::rides::{Ride, RideStore};
use crate::stats::{live_ride, rides_sorted};
use crate::text::{ascii_chars_of, ascii_to_string, byte_char, starts_with};
use vstd::arithmetic::div_mod::lemma_fundamental_div_mod_converse;
use vstd::prelude::*;

verus! {

/// The decimal numeral of a non-negative number, as characters.
pub open spec fn num_chars(n: int) -> Seq<char> {
    ascii_chars_of(dec_digits(n))
}

/// The decimal numeral of a signed number.
pub open spec fn int_chars(n: int) -> Seq<char> {
    if n < 0 {
        seq!['-'] + num_chars(-n)
    } else {
        num_chars(n)
    }
}

pub open spec fn digit_char(n: int) -> char {
    byte_char(digit_byte(n))
}

/// A distance in thousandths of a kilometre, rendered in kilometres with
/// the shortest exact decimal: `42`, `42.5`, `42.55`, `42.555`.
pub open spec fn dist_chars(m: int) -> Seq<char> {
    let whole = num_chars(m / 1000);
    let f = m % 1000;
    if f == 0 {
        whole
    } else if f % 100 == 0 {
        whole + seq!['.', digit_char(f / 100)]
    } else if f % 10 == 0 {
        whole + seq!['.', digit_char(f / 100), digit_char((f / 10) % 10)]
    } else {
        whole + seq!['.', digit_char(f / 100), digit_char((f / 10) % 10), digit_char(f % 10)]
    }
}

/// Quote-doubling: the escaping inside a quoted CSV field.
pub open spec fn esc_quotes(s: Seq<char>) -> Seq<char>
    decreases s.len(),
{
    if s.len() == 0 {
        s
    } else {
        (if s[0] == '"' {
            seq!['"', '"']
        } else {
            seq![s[0]]
        }) + esc_quotes(s.drop_first())
    }
}

/// A description cell: always quoted when present, empty when absent.
pub open spec fn desc_field(d: Option<String>) -> Seq<char> {
    match d {
        Some(s) => seq!['"'] + esc_quotes(s@) + seq!['"'],
        None => Seq::<char>::empty(),
    }
}

/// A deletion-time cell: the canonical date-time or empty.
pub open spec fn deleted_field(d: Option<DateTime>) -> Seq<char> {
    match d {
        Some(dt) => date_time_chars(dt),
        None => Seq::<char>::empty(),
    }
}

/// An external-activity-id cell: the numeral or empty.
pub open spec fn strava_field(o: Option<i64>) -> Seq<char> {
    match o {
        Some(v) => int_chars(v as int),
        None => Seq::<char>::empty(),
    }
}

/// One CSV line of a ride, ending in a newline.
pub open spec fn ride_csv_row(r: Ride) -> Seq<char> {
    int_chars(r.id as int) + seq![','] + date_chars(r.date) + seq![','] + dist_chars(
        r.distance as int,
    ) + seq![','] + desc_field(r.description) + seq![','] + deleted_field(r.deleted_at) + seq![',']
        + int_chars(r.bike_id as int) + seq![','] + strava_field(r.strava_ride) + seq!['\n']
}

pub open spec fn rides_csv_body(rows: Seq<Ride>) -> Seq<char>
    decreases rows.len(),
{
    if rows.len() == 0 {
        Seq::<char>::empty()
    } else {
        rides_csv_body(rows.drop_last()) + ride_csv_row(rows.last())
    }
}

/// The header line of the export.
pub open spec fn csv_header() -> Seq<char> {
    "id,date,distance,description,deleted_at,bike_id,strava_ride\n"@
}

/// A whole export file: the header, then one line per ride. This is the
/// crate's canonical CSV dialect — descriptions always quoted, distances
/// with minimal decimals — and the importer reads exactly this dialect;
/// looser files other CSV writers emit (unquoted text cells, trailing
/// zeros) are rejected rather than guessed at.
pub open spec fn rides_csv(rows: Seq<Ride>) -> Seq<char> {
    csv_header() + rides_csv_body(rows)
}

fn append_num(out: &mut String, n: u64)
    ensures
        final(out)@ == old(out)@ + num_chars(n as int),
{
    let v = u64_to_dec(n);
    proof {
        lemma_dec_digits_value(n as int);
        assert forall|i: int| 0 <= i < v@.len() implies v@[i] < 128 by {
            assert(is_digit(v@[i]));
        }
    }
    let s = ascii_to_string(v);
    out.append(s.as_str());
}

fn append_i64(out: &mut String, n: i64)
    ensures
        final(out)@ == old(out)@ + int_chars(n as int),
{
    if n >= 0 {
        append_num(out, n as u64);
    } else {
        out.append("-");
        let mag: u64 = (-(n as i128)) as u64;
        append_num(out, mag);
        proof {
            reveal_strlit("-");
            assert(old(out)@ + "-"@ + num_chars(mag as int) =~= old(out)@ + int_chars(n as int));
        }
    }
}

fn append_dist(out: &mut String, m: u64)
    ensures
        final(out)@ == old(out)@ + dist_chars(m as int),
{
    append_num(out, m / 1000);
    let f = (m % 1000) as u16;
    if f == 0 {
        proof {
            assert(old(out)@ + num_chars(m as int / 1000) =~= old(out)@ + dist_chars(m as int));
        }
        return ;
    }
    let mut tail: Vec<u8> = Vec::new();
    tail.push(46);
    tail.push(48 + (f / 100) as u8);
    if f % 100 != 0 {
        tail.push(48 + ((f / 10) % 10) as u8);
        if f % 10 != 0 {
            tail.push(48 + (f % 10) as u8);
        }
    } else {
        proof {
            assert(ascii_chars_of(tail@) =~= seq!['.', digit_char(f as int / 100)]);
        }
    }
    proof {
        assert forall|i: int| 0 <= i < tail@.len() implies tail@[i] < 128 by {}
        if f % 100 != 0 && f % 10 == 0 {
            assert(ascii_chars_of(tail@) =~= seq![
                '.',
                digit_char(f as int / 100),
                digit_char((f as int / 10) % 10),
            ]);
        }
        if f % 100 != 0 && f % 10 != 0 {
            assert(ascii_chars_of(tail@) =~= seq![
                '.',
                digit_char(f as int / 100),
                digit_char((f as int / 10) % 10),
                digit_char(f as int % 10),
            ]);
        }
    }
    let s = ascii_to_string(tail);
    out.append(s.as_str());
    proof {
        assert(final(out)@ =~= old(out)@ + dist_chars(m as int));
    }
}

proof fn lemma_esc_snoc(s: Seq<char>, c: char)
    ensures
        esc_quotes(s.push(c)) == esc_quotes(s) + (if c == '"' {
            seq!['"', '"']
        } else {
            seq![c]
        }),
    decreases s.len(),
{
    if s.len() == 0 {
        assert(s.push(c)[0] == c);
        assert(s.push(c).drop_first() =~= s);
        assert(esc_quotes(s) =~= Seq::<char>::empty());
        assert(esc_quotes(s.push(c)) =~= esc_quotes(s) + (if c == '"' {
            seq!['"', '"']
        } else {
            seq![c]
        }));
    } else {
        assert(s.push(c)[0] == s[0]);
        assert(s.push(c).drop_first() =~= s.drop_first().push(c));
        lemma_esc_snoc(s.drop_first(), c);
        assert(esc_quotes(s.push(c)) =~= esc_quotes(s) + (if c == '"' {
            seq!['"', '"']
        } else {
            seq![c]
        }));
    }
}

/// Double every quote in `s`: the body of a quoted CSV cell.
fn escape_quotes(s: &str) -> (r: String)
    ensures
        r@ == esc_quotes(s@),
{
    let n = s.unicode_len();
    let mut out = String::new();
    let mut i: usize = 0;
    proof {
        assert(s@.take(0) =~= Seq::<char>::empty());
    }
    while i < n
        invariant
            n == s@.len(),
            0 <= i <= n,
            out@ == esc_quotes(s@.take(i as int)),
        decreases n - i,
    {
        proof {
            assert(s@.take(i as int + 1) =~= s@.take(i as int).push(s@[i as int]));
            lemma_esc_snoc(s@.take(i as int), s@[i as int]);
        }
        let c = s.get_char(i);
        if c == '"' {
            out.append("\"\"");
            proof {
                reveal_strlit("\"\"");
                assert(out@ =~= esc_quotes(s@.take(i as int + 1)));
            }
        } else {
            let piece = s.substring_char(i, i + 1);
            out.append(piece);
            proof {
                assert(piece@ =~= seq![s@[i as int]]);
                assert(out@ =~= esc_quotes(s@.take(i as int + 1)));
            }
        }
        i += 1;
    }
    proof {
        assert(s@.take(n as int) =~= s@);
    }
    out
}

fn append_row(out: &mut String, r: &Ride)
    requires
        r.valid(),
    ensures
        final(out)@ == old(out)@ + ride_csv_row(*r),
{
    proof {
        reveal_strlit(",");
        reveal_strlit("\"");
        reveal_strlit("\n");
    }
    append_i64(out, r.id);
    out.append(",");
    let date = crate::dates::format_date(&r.date);
    out.append(date.as_str());
    out.append(",");
    append_dist(out, r.distance);
    out.append(",");
    let ghost head = int_chars(r.id as int) + seq![','] + date_chars(r.date) + seq![',']
        + dist_chars(r.distance as int) + seq![','];
    proof {
        assert(out@ =~= old(out)@ + head);
    }
    match &r.description {
        Some(d) => {
            out.append("\"");
            let escaped = escape_quotes(d.as_str());
            out.append(escaped.as_str());
            out.append("\"");
        },
        None => {},
    }
    out.append(",");
    let ghost mid = head + desc_field(r.description) + seq![','];
    proof {
        assert(out@ =~= old(out)@ + mid);
    }
    match &r.deleted_at {
        Some(dt) => {
            let formatted = format_date_time(dt);
            out.append(formatted.as_str());
        },
        None => {},
    }
    out.append(",");
    append_i64(out, r.bike_id);
    out.append(",");
    let ghost tail = mid + deleted_field(r.deleted_at) + seq![','] + int_chars(r.bike_id as int)
        + seq![','];
    proof {
        assert(out@ =~= old(out)@ + tail);
    }
    match &r.strava_ride {
        Some(v) => {
            append_i64(out, *v);
        },
        None => {},
    }
    out.append("\n");
    proof {
        assert(out@ =~= old(out)@ + (tail + strava_field(r.strava_ride) + seq!['\n']));
        assert(tail + strava_field(r.strava_ride) + seq!['\n'] =~= ride_csv_row(*r));
    }
}

/// Render rides as the export file: the header line, then one CSV line
/// per ride, in the order given.
pub fn export_rides_csv(rides: &Vec<Ride>) -> (r: String)
    requires
        forall|k: int| 0 <= k < rides@.len() ==> (#[trigger] rides@[k]).valid(),
    ensures
        r@ == rides_csv(rides@),
{
    let mut out = String::from_str("id,date,distance,description,deleted_at,bike_id,strava_ride\n");
    proof {
        assert(rides@.take(0) =~= Seq::<Ride>::empty());
        assert(out@ =~= rides_csv(rides@.take(0)));
    }
    let n = rides.len();
    let mut i: usize = 0;
    while i < n
        invariant
            n == rides@.len(),
            forall|k: int| 0 <= k < rides@.len() ==> (#[trigger] rides@[k]).valid(),
            0 <= i <= n,
            out@ == rides_csv(rides@.take(i as int)),
        decreases n - i,
    {
        proof {
            assert(rides@.take(i as int + 1).drop_last() =~= rides@.take(i as int));
            assert(rides@.take(i as int + 1).last() == rides@[i as int]);
        }
        append_row(&mut out, &rides[i]);
        proof {
            assert(out@ =~= rides_csv(rides@.take(i as int + 1)));
        }
        i += 1;
    }
    proof {
        assert(rides@.take(n as int) =~= rides@);
    }
    out
}

/// What the data page shows: how many rides there are and the running
/// version.
#[derive(Debug)]
pub struct DataTemplate {
    pub rides: i64,
    pub app_version: String,
}

/// The export route: all live rides, in listing order, as CSV.
pub fn export_data(store: &RideStore) -> (r: String)
    requires
        store.wf(),
    ensures
        exists|rows: Seq<Ride>|
            {
                &&& rows.to_multiset() == store.rides@.filter(live_ride()).to_multiset()
                &&& rides_sorted(rows)
                &&& r@ == rides_csv(rows)
            },
{
    let rows = store.get_all();
    let out = export_rides_csv(&rows);
    proof {
        let ghost w = rows@;
        assert({
            &&& w.to_multiset() == store.rides@.filter(live_ride()).to_multiset()
            &&& rides_sorted(w)
            &&& out@ == rides_csv(w)
        });
    }
    out
}

/// The end of the digit run starting at `pos`.
fn scan_digits(s: &str, pos: usize) -> (e: usize)
    requires
        pos <= s@.len(),
    ensures
        pos <= e <= s@.len(),
        forall|k: int| pos <= k < e ==> '0' <= #[trigger] s@[k] <= '9',
        e < s@.len() ==> !('0' <= s@[e as int] <= '9'),
{
    let n = s.unicode_len();
    let mut e = pos;
    while e < n
        invariant
            pos <= e <= n,
            n == s@.len(),
            forall|k: int| pos <= k < e ==> '0' <= #[trigger] s@[k] <= '9',
        decreases n - e,
    {
        let c = s.get_char(e);
        if !('0' <= c && c <= '9') {
            return e;
        }
        e += 1;
    }
    n
}

/// Markers for "this cell's rendering sits here in the text". The
/// completeness clauses of the parsers trigger on these, so a caller
/// asks for them by naming the placement it has in hand.
pub open spec fn placed_num(s: Seq<char>, pos: int, v: u64, e: int) -> bool {
    s.subrange(pos, e) == num_chars(v as int)
}

pub open spec fn placed_int(s: Seq<char>, pos: int, v: i64, e: int) -> bool {
    s.subrange(pos, e) == int_chars(v as int)
}

pub open spec fn placed_dist(s: Seq<char>, pos: int, m: u64, e: int) -> bool {
    s.subrange(pos, e) == dist_chars(m as int)
}

pub open spec fn placed_date(s: Seq<char>, pos: int, d: crate::dates::Date) -> bool {
    s.subrange(pos, pos + 10) == date_chars(d)
}

pub open spec fn placed_deleted(s: Seq<char>, pos: int, o: Option<DateTime>) -> bool {
    s.subrange(pos, pos + deleted_field(o).len()) == deleted_field(o)
}

pub open spec fn placed_strava(s: Seq<char>, pos: int, o: Option<i64>) -> bool {
    s.subrange(pos, pos + strava_field(o).len()) == strava_field(o)
}

pub open spec fn placed_desc(s: Seq<char>, pos: int, t: Seq<char>) -> bool {
    s.subrange(pos, pos + 2 + esc_quotes(t).len()) == seq!['"'] + esc_quotes(t) + seq!['"']
}

pub open spec fn placed_row(s: Seq<char>, pos: int, R: Ride) -> bool {
    s.subrange(pos, pos + ride_csv_row(R).len() as int) == ride_csv_row(R)
}

/// Every character of a numeral is a decimal digit.
proof fn lemma_num_chars_digits(v: int)
    requires
        v >= 0,
    ensures
        num_chars(v).len() >= 1,
        forall|k: int| 0 <= k < num_chars(v).len() ==> '0' <= #[trigger] num_chars(v)[k] <= '9',
{
    lemma_dec_digits_value(v);
    assert forall|k: int| 0 <= k < num_chars(v).len() implies '0' <= #[trigger] num_chars(v)[k]
        <= '9' by {
        assert(is_digit(dec_digits(v)[k]));
        assert(num_chars(v)[k] == byte_char(dec_digits(v)[k]));
    }
}

/// A digit run that both the scanner and a numeral bound is one and the
/// same stretch, and its bytes are the numeral's digits.
proof fn lemma_uint_match_run(s: Seq<char>, pos: int, e: int, v: u64, e2: int)
    requires
        0 <= pos <= e <= s.len(),
        forall|k: int| pos <= k < e ==> '0' <= #[trigger] s[k] <= '9',
        e < s.len() ==> !('0' <= s[e] <= '9'),
        pos < e2 <= s.len(),
        s.subrange(pos, e2) == num_chars(v as int),
        e2 == s.len() || !('0' <= s[e2] <= '9'),
    ensures
        e2 == e,
        e - pos == dec_digits(v as int).len(),
        forall|k: int|
            0 <= k < e - pos ==> #[trigger] dec_digits(v as int)[k] == (s[pos + k]) as u8,
{
    lemma_num_chars_digits(v as int);
    assert forall|k: int| pos <= k < e2 implies '0' <= #[trigger] s[k] <= '9' by {
        assert(s[k] == s.subrange(pos, e2)[k - pos]);
    }
    if e2 > e {
        assert('0' <= s[e] <= '9');
        assert(false);
    }
    if e2 < e {
        assert('0' <= s[e2] <= '9');
        assert(false);
    }
    lemma_dec_digits_value(v as int);
    assert forall|k: int| 0 <= k < e - pos implies #[trigger] dec_digits(v as int)[k] == (s[pos
        + k]) as u8 by {
        assert(s[pos + k] == s.subrange(pos, e2)[k]);
        assert(num_chars(v as int)[k] == byte_char(dec_digits(v as int)[k]));
        assert(is_digit(dec_digits(v as int)[k]));
    }
}

/// Read a decimal numeral at `pos`: the longest digit run, which must
/// be canonical and fit. Exactly the placed numerals are read: wherever
/// a numeral sits at `pos` with no digit right after it, that numeral
/// and its end are returned.
fn parse_uint_at(s: &str, pos: usize) -> (r: Option<(u64, usize)>)
    requires
        pos <= s@.len(),
    ensures
        r matches Some(p) ==> {
            &&& pos < p.1 <= s@.len()
            &&& num_chars(p.0 as int) == s@.subrange(pos as int, p.1 as int)
            &&& (p.1 < s@.len() ==> !('0' <= s@[p.1 as int] <= '9'))
        },
        forall|v: u64, e2: int|
            #![trigger placed_num(s@, pos as int, v, e2)]
            pos < e2 <= s@.len() && s@.subrange(pos as int, e2) == num_chars(v as int) && (e2
                == s@.len() || !('0' <= s@[e2] <= '9')) ==> r == Some((v, e2 as usize)),
{
    let e = scan_digits(s, pos);
    if e == pos {
        proof {
            assert forall|v: u64, e2: int|
                pos < e2 <= s@.len() && s@.subrange(pos as int, e2) == num_chars(v as int) && (e2
                    == s@.len() || !('0' <= s@[e2] <= '9')) implies false by {
                lemma_num_chars_digits(v as int);
                assert(s@[pos as int] == s@.subrange(pos as int, e2)[0]);
                assert('0' <= s@[pos as int] <= '9');
            }
        }
        return None;
    }
    let mut dv: Vec<u8> = Vec::new();
    let mut i = pos;
    while i < e
        invariant
            pos <= i <= e <= s@.len(),
            forall|k: int| pos <= k < e ==> '0' <= #[trigger] s@[k] <= '9',
            dv@.len() == i - pos,
            forall|k: int|
                0 <= k < dv@.len() ==> is_digit(#[trigger] dv@[k]) && s@[pos + k] == byte_char(
                    dv@[k],
                ),
        decreases e - i,
    {
        let c = s.get_char(i);
        dv.push(c as u8);
        proof {
            assert(byte_char(c as u8) == c);
        }
        i += 1;
    }
    if dv.len() > 1 {
        let lead = dv[0];
        if lead == 48 {
            proof {
                assert forall|v: u64, e2: int|
                    pos < e2 <= s@.len() && s@.subrange(pos as int, e2) == num_chars(v as int) && (
                e2 == s@.len() || !('0' <= s@[e2] <= '9')) implies false by {
                    lemma_uint_match_run(s@, pos as int, e as int, v, e2);
                    lemma_dec_digits_value(v as int);
                    assert(dec_digits(v as int)[0] == (s@[pos as int]) as u8);
                    assert(dv@[0] == (s@[pos as int]) as u8) by {
                        assert(s@[pos as int] == byte_char(dv@[0]));
                    }
                }
            }
            return None;
        }
    }
    match dec_to_u64(dv.as_slice()) {
        Some(value) => {
            proof {
                lemma_canonical_dec_digits(dv@);
                assert(num_chars(value as int) =~= s@.subrange(pos as int, e as int));
                assert forall|v: u64, e2: int|
                    pos < e2 <= s@.len() && s@.subrange(pos as int, e2) == num_chars(v as int) && (
                e2 == s@.len() || !('0' <= s@[e2] <= '9')) implies Some((value, e)) == Some(
                    (v, e2 as usize),
                ) by {
                    lemma_uint_match_run(s@, pos as int, e as int, v, e2);
                    assert forall|k: int| 0 <= k < dv@.len() implies #[trigger] dv@[k]
                        == dec_digits(v as int)[k] by {
                        assert(s@[pos + k] == byte_char(dv@[k]));
                        assert(dec_digits(v as int)[k] == (s@[pos + k]) as u8);
                    }
                    assert(dv@ =~= dec_digits(v as int));
                    lemma_dec_digits_value(v as int);
                }
            }
            Some((value, e))
        },
        None => {
            proof {
                assert forall|v: u64, e2: int|
                    pos < e2 <= s@.len() && s@.subrange(pos as int, e2) == num_chars(v as int) && (
                e2 == s@.len() || !('0' <= s@[e2] <= '9')) implies false by {
                    lemma_uint_match_run(s@, pos as int, e as int, v, e2);
                    assert forall|k: int| 0 <= k < dv@.len() implies #[trigger] dv@[k]
                        == dec_digits(v as int)[k] by {
                        assert(s@[pos + k] == byte_char(dv@[k]));
                        assert(dec_digits(v as int)[k] == (s@[pos + k]) as u8);
                    }
                    assert(dv@ =~= dec_digits(v as int));
                    lemma_dec_digits_value(v as int);
                    assert(canonical_dec(dv@) && dec_value(dv@) <= u64::MAX);
                }
            }
            None
        },
    }
}

/// Read a signed numeral at `pos`; only canonical forms (no `-0`, no
/// leading zeros) in range are accepted, and every placed one is read.
fn parse_int_at(s: &str, pos: usize) -> (r: Option<(i64, usize)>)
    requires
        pos <= s@.len(),
    ensures
        r matches Some(p) ==> {
            &&& pos < p.1 <= s@.len()
            &&& int_chars(p.0 as int) == s@.subrange(pos as int, p.1 as int)
        },
        forall|v: i64, e2: int|
            #![trigger placed_int(s@, pos as int, v, e2)]
            pos < e2 <= s@.len() && s@.subrange(pos as int, e2) == int_chars(v as int) && (e2
                == s@.len() || !('0' <= s@[e2] <= '9')) ==> r == Some((v, e2 as usize)),
{
    let n = s.unicode_len();
    if pos < n && s.get_char(pos) == '-' {
        let r0 = parse_uint_at(s, pos + 1);
        proof {
            assert forall|v: i64, e2: int|
                pos < e2 <= s@.len() && s@.subrange(pos as int, e2) == int_chars(v as int) && (e2
                    == s@.len() || !('0' <= s@[e2] <= '9')) && v >= 0 implies false by {
                lemma_num_chars_digits(v as int);
                assert(s@[pos as int] == s@.subrange(pos as int, e2)[0]);
                assert('0' <= s@[pos as int] <= '9');
            }
            assert forall|v: i64, e2: int|
                pos < e2 <= s@.len() && s@.subrange(pos as int, e2) == int_chars(v as int) && (e2
                    == s@.len() || !('0' <= s@[e2] <= '9')) && v < 0 implies (pos + 1 < e2
                && s@.subrange(pos as int + 1, e2) == num_chars(-(v as int)) && r0 == Some(
                (((-(v as i128)) as u64), e2 as usize),
            )) by {
                lemma_num_chars_digits(-(v as int));
                assert((v as int) < 0);
                assert(int_chars(v as int) == seq!['-'] + num_chars(-(v as int)));
                assert(s@.subrange(pos as int + 1, e2) =~= num_chars(-(v as int))) by {
                    assert forall|k: int|
                        #![trigger s@.subrange(pos as int + 1, e2)[k]]
                        0 <= k < e2 - pos - 1 implies s@.subrange(pos as int + 1, e2)[k]
                            == num_chars(-(v as int))[k] by {
                        assert(s@.subrange(pos as int + 1, e2)[k] == s@[pos + 1 + k]);
                        assert(s@[pos + 1 + k] == s@.subrange(pos as int, e2)[k + 1]);
                        assert(int_chars(v as int) == seq!['-'] + num_chars(-(v as int)));
                        assert((seq!['-'] + num_chars(-(v as int)))[k + 1] == num_chars(
                            -(v as int),
                        )[k]);
                    }
                }
                let mag: u64 = (-(v as i128)) as u64;
                assert(mag as int == -(v as int));
                assert(num_chars(mag as int) == num_chars(-(v as int)));
                assert(placed_num(s@, pos as int + 1, mag, e2));
            }
        }
        match r0 {
            Some((mag, e)) => {
                if mag == 0 {
                    return None;
                }
                if mag > 0x8000_0000_0000_0000u64 {
                    return None;
                }
                let v: i64 = (-(mag as i128)) as i64;
                proof {
                    assert(v as int == -(mag as int));
                    assert(int_chars(v as int) =~= s@.subrange(pos as int, e as int));
                }
                Some((v, e))
            },
            None => None,
        }
    } else {
        let r0 = parse_uint_at(s, pos);
        proof {
            assert forall|v: i64, e2: int|
                pos < e2 <= s@.len() && s@.subrange(pos as int, e2) == int_chars(v as int) && (e2
                    == s@.len() || !('0' <= s@[e2] <= '9')) && v < 0 implies false by {
                assert(s@[pos as int] == s@.subrange(pos as int, e2)[0]);
                assert(s@[pos as int] == '-');
            }
            assert forall|v: i64, e2: int|
                pos < e2 <= s@.len() && s@.subrange(pos as int, e2) == int_chars(v as int) && (e2
                    == s@.len() || !('0' <= s@[e2] <= '9')) && v >= 0 implies r0 == Some(
                ((v as u64), e2 as usize),
            ) by {
                assert(num_chars((v as u64) as int) == num_chars(v as int));
                assert(placed_num(s@, pos as int, v as u64, e2));
            }
        }
        match r0 {
            Some((mag, e)) => {
                if mag > 0x7fff_ffff_ffff_ffffu64 {
                    None
                } else {
                    Some((mag as i64, e))
                }
            },
            None => None,
        }
    }
}

/// How a placed distance cell decomposes: its whole part, its dot, and
/// its fraction digits, with the cell's exact end.
proof fn lemma_dist_decompose(s: Seq<char>, pos: int, m: u64, e2: int)
    requires
        0 <= pos < e2 <= s.len(),
        s.subrange(pos, e2) == dist_chars(m as int),
        e2 == s.len() || (!('0' <= s[e2] <= '9') && s[e2] != '.'),
    ensures
        ({
            let w = m as int / 1000;
            let f = m as int % 1000;
            let ew = pos + num_chars(w).len();
            &&& ew <= e2
            &&& s.subrange(pos, ew) == num_chars(w)
            &&& (f == 0 ==> ew == e2)
            &&& (f != 0 ==> ew + 2 <= e2 && s[ew] == '.')
            &&& (f != 0 && f % 100 == 0 ==> e2 == ew + 2 && s[ew + 1] == digit_char(f / 100) && 1
                <= f / 100 <= 9)
            &&& (f % 100 != 0 && f % 10 == 0 ==> e2 == ew + 3 && s[ew + 1] == digit_char(f / 100)
                && s[ew + 2] == digit_char((f / 10) % 10) && 0 <= f / 100 <= 9 && 1 <= (f / 10)
                % 10 <= 9)
            &&& (f % 10 != 0 ==> e2 == ew + 4 && s[ew + 1] == digit_char(f / 100) && s[ew + 2]
                == digit_char((f / 10) % 10) && s[ew + 3] == digit_char(f % 10) && 0 <= f / 100
                <= 9 && 0 <= (f / 10) % 10 <= 9 && 1 <= f % 10 <= 9)
        }),
{
    let w = m as int / 1000;
    let f = m as int % 1000;
    let ew = pos + num_chars(w).len();
    let d = dist_chars(m as int);
    lemma_num_chars_digits(w);
    assert(d.len() == e2 - pos) by {
        assert(s.subrange(pos, e2).len() == e2 - pos);
    }
    assert forall|k: int| 0 <= k < e2 - pos implies #[trigger] s[pos + k] == d[k] by {
        assert(s[pos + k] == s.subrange(pos, e2)[k]);
    }
    if f == 0 {
        assert(d == num_chars(w));
        assert(ew == e2);
        assert(s.subrange(pos, ew) =~= num_chars(w)) by {
            assert(forall|k: int|
                0 <= k < ew - pos ==> #[trigger] s.subrange(pos, ew)[k] == s[pos + k]);
        }
    } else if f % 100 == 0 {
        assert(d == num_chars(w) + seq!['.', digit_char(f / 100)]);
        assert(e2 == ew + 2);
        assert(s.subrange(pos, ew) =~= num_chars(w)) by {
            assert(forall|k: int|
                0 <= k < ew - pos ==> #[trigger] s.subrange(pos, ew)[k] == s[pos + k]);
        }
        assert(s[ew] == d[ew - pos]);
        assert(s[ew + 1] == d[ew - pos + 1]);
        assert(f == (f / 100) * 100 + f % 100);
        assert(1 <= f / 100 <= 9);
    } else if f % 10 == 0 {
        assert(d == num_chars(w) + seq!['.', digit_char(f / 100), digit_char((f / 10) % 10)]);
        assert(e2 == ew + 3);
        assert(s.subrange(pos, ew) =~= num_chars(w)) by {
            assert(forall|k: int|
                0 <= k < ew - pos ==> #[trigger] s.subrange(pos, ew)[k] == s[pos + k]);
        }
        assert(s[ew] == d[ew - pos]);
        assert(s[ew + 1] == d[ew - pos + 1]);
        assert(s[ew + 2] == d[ew - pos + 2]);
        assert(f == (f / 100) * 100 + f % 100);
        assert(0 <= f / 100 <= 9);
        assert((f / 10) % 10 != 0) by (nonlinear_arith)
            requires
                0 <= f < 1000,
                f % 100 != 0,
                f % 10 == 0,
        ;
        assert(0 <= (f / 10) % 10 <= 9);
    } else {
        assert(d == num_chars(w) + seq![
            '.',
            digit_char(f / 100),
            digit_char((f / 10) % 10),
            digit_char(f % 10),
        ]);
        assert(e2 == ew + 4);
        assert(s.subrange(pos, ew) =~= num_chars(w)) by {
            assert(forall|k: int|
                0 <= k < ew - pos ==> #[trigger] s.subrange(pos, ew)[k] == s[pos + k]);
        }
        assert(s[ew] == d[ew - pos]);
        assert(s[ew + 1] == d[ew - pos + 1]);
        assert(s[ew + 2] == d[ew - pos + 2]);
        assert(s[ew + 3] == d[ew - pos + 3]);
        assert(f == (f / 100) * 100 + f % 100);
        assert(0 <= f / 100 <= 9);
        assert(0 <= (f / 10) % 10 <= 9);
        assert(1 <= f % 10 <= 9);
    }
}

/// Read a distance cell at `pos`: kilometres with up to three decimals,
/// trailing zeros not written; every placed cell is read.
#[verifier::rlimit(100)]
fn parse_dist_at(s: &str, pos: usize) -> (r: Option<(u64, usize)>)
    requires
        pos <= s@.len(),
    ensures
        r matches Some(p) ==> {
            &&& pos < p.1 <= s@.len()
            &&& dist_chars(p.0 as int) == s@.subrange(pos as int, p.1 as int)
        },
        forall|m: u64, e2: int|
            #![trigger placed_dist(s@, pos as int, m, e2)]
            pos < e2 <= s@.len() && s@.subrange(pos as int, e2) == dist_chars(m as int) && (e2
                == s@.len() || (!('0' <= s@[e2] <= '9') && s@[e2] != '.')) ==> r == Some(
                (m, e2 as usize),
            ),
{
    let ghost hyp = |m: u64, e2: int|
        pos < e2 <= s@.len() && s@.subrange(pos as int, e2) == dist_chars(m as int) && (e2
            == s@.len() || (!('0' <= s@[e2] <= '9') && s@[e2] != '.'));
    let n = s.unicode_len();
    let r0 = parse_uint_at(s, pos);
    proof {
        assert forall|m: u64, e2: int|
            #![trigger dist_chars(m as int), s@.subrange(pos as int, e2)]
            hyp(m, e2) implies r0 == Some(
            ((m / 1000), (pos + num_chars(m as int / 1000).len()) as usize),
        ) by {
            lemma_dist_decompose(s@, pos as int, m, e2);
            let w = m as int / 1000;
            let ew = pos + num_chars(w).len();
            assert(s@.subrange(pos as int, ew) == num_chars((m / 1000) as int));
            assert(placed_num(s@, pos as int, m / 1000, ew));
            if m as int % 1000 == 0 {
            } else {
                assert(s@[ew] == '.');
            }
        }
    }
    let (whole, e1) = match r0 {
        Some(p) => p,
        None => {
            proof {
                assert forall|m: u64, e2: int|
            #![trigger dist_chars(m as int), s@.subrange(pos as int, e2)]
            hyp(m, e2) implies false by {
                    assert(r0 is Some);
                }
            }
            return None;
        },
    };
    if whole > u64::MAX / 1000 {
        proof {
            assert forall|m: u64, e2: int|
            #![trigger dist_chars(m as int), s@.subrange(pos as int, e2)]
            hyp(m, e2) implies false by {
                vstd::arithmetic::div_mod::lemma_div_is_ordered(m as int, u64::MAX as int, 1000);
            }
        }
        return None;
    }
    proof {
        assert(whole * 1000 <= (u64::MAX / 1000) * 1000 <= u64::MAX);
        assert forall|m: u64, e2: int|
            #![trigger dist_chars(m as int), s@.subrange(pos as int, e2)]
            hyp(m, e2) implies whole == m / 1000 && e1 == pos
            + num_chars(m as int / 1000).len() && (m as int % 1000 == 0 ==> e1 == e2) && (m as int
            % 1000 != 0 ==> e1 + 2 <= e2 && s@[e1 as int] == '.') by {
            lemma_dist_decompose(s@, pos as int, m, e2);
        }
    }
    if e1 < n && s.get_char(e1) == '.' {
        proof {
            assert forall|m: u64, e2: int|
            #![trigger dist_chars(m as int), s@.subrange(pos as int, e2)]
            hyp(m, e2) implies m as int % 1000 != 0 by {
                if m as int % 1000 == 0 {
                    assert(e1 == e2);
                }
            }
        }
        if e1 + 1 >= n {
            proof {
                assert forall|m: u64, e2: int|
            #![trigger dist_chars(m as int), s@.subrange(pos as int, e2)]
            hyp(m, e2) implies false by {
                    lemma_dist_decompose(s@, pos as int, m, e2);
                }
            }
            return None;
        }
        let c1 = s.get_char(e1 + 1);
        if !('0' <= c1 && c1 <= '9') {
            proof {
                assert forall|m: u64, e2: int|
            #![trigger dist_chars(m as int), s@.subrange(pos as int, e2)]
            hyp(m, e2) implies false by {
                    lemma_dist_decompose(s@, pos as int, m, e2);
                    let f = m as int % 1000;
                    assert(s@[e1 + 1] == digit_char(f / 100));
                    assert('0' <= digit_char(f / 100) <= '9');
                }
            }
            return None;
        }
        let d1 = (c1 as u8 - 48) as u64;
        proof {
            assert forall|m: u64, e2: int|
            #![trigger dist_chars(m as int), s@.subrange(pos as int, e2)]
            hyp(m, e2) implies d1 == (m as int % 1000) / 100 by {
                lemma_dist_decompose(s@, pos as int, m, e2);
                let f = m as int % 1000;
                assert(s@[e1 + 1] == digit_char(f / 100));
                assert(0 <= f / 100 <= 9);
            }
        }
        let mut count: usize = 1;
        let mut d2: u64 = 0;
        let mut d3: u64 = 0;
        if e1 + 2 < n {
            let c2 = s.get_char(e1 + 2);
            if '0' <= c2 && c2 <= '9' {
                d2 = (c2 as u8 - 48) as u64;
                count = 2;
                if e1 + 3 < n {
                    let c3 = s.get_char(e1 + 3);
                    if '0' <= c3 && c3 <= '9' {
                        d3 = (c3 as u8 - 48) as u64;
                        count = 3;
                        if e1 + 4 < n {
                            let c4 = s.get_char(e1 + 4);
                            if '0' <= c4 && c4 <= '9' {
                                proof {
                                    assert forall|m: u64, e2: int|
            #![trigger dist_chars(m as int), s@.subrange(pos as int, e2)]
            hyp(m, e2) implies false by {
                                        lemma_dist_decompose(s@, pos as int, m, e2);
                                        let f = m as int % 1000;
                                        if f % 100 == 0 {
                                            assert(e2 == e1 + 2);
                                            assert(!('0' <= s@[e1 + 2] <= '9'));
                                        } else if f % 10 == 0 {
                                            assert(e2 == e1 + 3);
                                            assert(!('0' <= s@[e1 + 3] <= '9'));
                                        } else {
                                            assert(e2 == e1 + 4);
                                            assert(!('0' <= s@[e1 + 4] <= '9'));
                                        }
                                    }
                                }
                                return None;
                            }
                        }
                    }
                }
            }
        }
        proof {
            assert forall|m: u64, e2: int|
            #![trigger dist_chars(m as int), s@.subrange(pos as int, e2)]
            hyp(m, e2) implies ({
                let f = m as int % 1000;
                &&& (f % 100 == 0 ==> count == 1 && d1 == f / 100 && e2 == e1 + 2)
                &&& (f % 100 != 0 && f % 10 == 0 ==> count == 2 && d1 == f / 100 && d2 == (f / 10)
                    % 10 && e2 == e1 + 3)
                &&& (f % 10 != 0 ==> count == 3 && d1 == f / 100 && d2 == (f / 10) % 10 && d3 == f
                    % 10 && e2 == e1 + 4)
            }) by {
                lemma_dist_decompose(s@, pos as int, m, e2);
                let f = m as int % 1000;
                if f % 100 == 0 {
                    assert(e2 == e1 + 2);
                    if e1 + 2 < s@.len() {
                        assert(!('0' <= s@[e1 + 2] <= '9'));
                    }
                } else if f % 10 == 0 {
                    assert(s@[e1 + 2] == digit_char((f / 10) % 10));
                    if e1 + 3 < s@.len() {
                        assert(!('0' <= s@[e1 + 3] <= '9'));
                    }
                } else {
                    assert(s@[e1 + 2] == digit_char((f / 10) % 10));
                    assert(s@[e1 + 3] == digit_char(f % 10));
                    if e1 + 4 < s@.len() {
                        assert(!('0' <= s@[e1 + 4] <= '9'));
                    }
                }
            }
        }
        let f: u64 = if count == 1 {
            if d1 == 0 {
                proof {
                    assert forall|m: u64, e2: int|
            #![trigger dist_chars(m as int), s@.subrange(pos as int, e2)]
            hyp(m, e2) implies false by {
                        lemma_dist_decompose(s@, pos as int, m, e2);
                        let fm = m as int % 1000;
                        if fm % 100 == 0 {
                            assert(d1 == fm / 100 >= 1);
                        }
                    }
                }
                return None;
            }
            d1 * 100
        } else if count == 2 {
            if d2 == 0 {
                proof {
                    assert forall|m: u64, e2: int|
            #![trigger dist_chars(m as int), s@.subrange(pos as int, e2)]
            hyp(m, e2) implies false by {
                        lemma_dist_decompose(s@, pos as int, m, e2);
                        let fm = m as int % 1000;
                        if fm % 100 != 0 && fm % 10 == 0 {
                            assert(d2 == (fm / 10) % 10 >= 1);
                        }
                    }
                }
                return None;
            }
            d1 * 100 + d2 * 10
        } else {
            if d3 == 0 {
                proof {
                    assert forall|m: u64, e2: int|
            #![trigger dist_chars(m as int), s@.subrange(pos as int, e2)]
            hyp(m, e2) implies false by {
                        lemma_dist_decompose(s@, pos as int, m, e2);
                        let fm = m as int % 1000;
                        if fm % 10 != 0 {
                            assert(d3 == fm % 10 >= 1);
                        }
                    }
                }
                return None;
            }
            d1 * 100 + d2 * 10 + d3
        };
        proof {
            assert forall|m: u64, e2: int|
            #![trigger dist_chars(m as int), s@.subrange(pos as int, e2)]
            hyp(m, e2) implies f == m as int % 1000 && whole * 1000
                + f == m && e2 == e1 + 1 + count by {
                let fm = m as int % 1000;
                assert(fm == (fm / 100) * 100 + ((fm / 10) % 10) * 10 + fm % 10)
                    by (nonlinear_arith)
                    requires
                        0 <= fm < 1000,
                ;
                if fm % 100 == 0 {
                    assert(f == d1 * 100);
                } else if fm % 10 == 0 {
                    assert(f == d1 * 100 + d2 * 10);
                } else {
                    assert(f == d1 * 100 + d2 * 10 + d3);
                }
                assert(m as int == (m as int / 1000) * 1000 + m as int % 1000);
            }
        }
        if f > u64::MAX - whole * 1000 {
            proof {
                assert forall|m: u64, e2: int|
            #![trigger dist_chars(m as int), s@.subrange(pos as int, e2)]
            hyp(m, e2) implies false by {
                    assert(whole * 1000 + f == m);
                }
            }
            return None;
        }
        let m = whole * 1000 + f;
        let e = e1 + 1 + count;
        proof {
            lemma_fundamental_div_mod_converse(m as int, 1000, whole as int, f as int);
            lemma_fundamental_div_mod_converse(f as int, 100, d1 as int, (f - d1 * 100) as int);
            lemma_fundamental_div_mod_converse(
                (f - d1 * 100) as int,
                10,
                d2 as int,
                (f - d1 * 100 - d2 * 10) as int,
            );
            assert((f as int / 10) % 10 == d2) by {
                lemma_fundamental_div_mod_converse(
                    f as int,
                    10,
                    d1 as int * 10 + d2 as int,
                    d3 as int,
                );
                lemma_fundamental_div_mod_converse(
                    d1 as int * 10 + d2 as int,
                    10,
                    d1 as int,
                    d2 as int,
                );
            }
            assert(f as int % 10 == d3) by {
                lemma_fundamental_div_mod_converse(
                    f as int,
                    10,
                    d1 as int * 10 + d2 as int,
                    d3 as int,
                );
            }
            assert(dist_chars(m as int) =~= s@.subrange(pos as int, e as int));
        }
        Some((m, e))
    } else {
        proof {
            assert forall|m: u64, e2: int|
            #![trigger dist_chars(m as int), s@.subrange(pos as int, e2)]
            hyp(m, e2) implies m as int % 1000 == 0 && whole * 1000
                == m && e1 == e2 by {
                if m as int % 1000 != 0 {
                    assert(e1 + 2 <= e2 <= s@.len());
                    assert(s@[e1 as int] == '.');
                }
                assert(m as int == (m as int / 1000) * 1000);
            }
        }
        let m = whole * 1000;
        proof {
            lemma_fundamental_div_mod_converse(m as int, 1000, whole as int, 0);
            assert(dist_chars(m as int) =~= s@.subrange(pos as int, e1 as int));
        }
        Some((m, e1))
    }
}

/// Escaping splits over concatenation.
proof fn lemma_esc_append(a: Seq<char>, b: Seq<char>)
    ensures
        esc_quotes(a + b) == esc_quotes(a) + esc_quotes(b),
    decreases a.len(),
{
    if a.len() == 0 {
        assert(a + b =~= b);
        assert(esc_quotes(a) =~= Seq::<char>::empty());
        assert(esc_quotes(a + b) =~= esc_quotes(a) + esc_quotes(b));
    } else {
        assert((a + b)[0] == a[0]);
        assert((a + b).drop_first() =~= a.drop_first() + b);
        lemma_esc_append(a.drop_first(), b);
        assert(esc_quotes(a + b) =~= esc_quotes(a) + esc_quotes(b));
    }
}

/// The characters a placed quoted cell pins down.
proof fn lemma_quoted_chars(s: Seq<char>, pos: int, t: Seq<char>)
    requires
        0 <= pos,
        pos + 2 + esc_quotes(t).len() <= s.len(),
        s.subrange(pos, pos + 2 + esc_quotes(t).len()) == seq!['"'] + esc_quotes(t) + seq!['"'],
    ensures
        s[pos] == '"',
        forall|k: int| 0 <= k < esc_quotes(t).len() ==> #[trigger] s[pos + 1 + k] == esc_quotes(
            t,
        )[k],
        s[pos + 1 + esc_quotes(t).len()] == '"',
{
    let q = seq!['"'] + esc_quotes(t) + seq!['"'];
    assert forall|k: int| 0 <= k < q.len() implies #[trigger] s[pos + k] == q[k] by {
        assert(s[pos + k] == s.subrange(pos, pos + 2 + esc_quotes(t).len())[k]);
    }
    assert(s[pos + 0] == q[0]);
    assert forall|k: int| 0 <= k < esc_quotes(t).len() implies #[trigger] s[pos + 1 + k]
        == esc_quotes(t)[k] by {
        assert(s[pos + (1 + k)] == q[1 + k]);
    }
    assert(s[pos + (1 + esc_quotes(t).len())] == q[1 + esc_quotes(t).len() as int]);
}

/// Two quoted cells placed at the same spot, each with a non-quote right
/// after its closing quote, hold the same text: the quoting grammar is
/// prefix-determined.
proof fn lemma_quoted_det(s: Seq<char>, pos: int, t1: Seq<char>, t2: Seq<char>)
    requires
        0 <= pos,
        pos + 2 + esc_quotes(t1).len() <= s.len(),
        pos + 2 + esc_quotes(t2).len() <= s.len(),
        s.subrange(pos, pos + 2 + esc_quotes(t1).len()) == seq!['"'] + esc_quotes(t1) + seq!['"'],
        s.subrange(pos, pos + 2 + esc_quotes(t2).len()) == seq!['"'] + esc_quotes(t2) + seq!['"'],
        pos + 2 + esc_quotes(t1).len() == s.len() || s[pos + 2 + esc_quotes(t1).len()] != '"',
        pos + 2 + esc_quotes(t2).len() == s.len() || s[pos + 2 + esc_quotes(t2).len()] != '"',
    ensures
        t1 == t2,
    decreases t1.len(),
{
    lemma_quoted_chars(s, pos, t1);
    lemma_quoted_chars(s, pos, t2);
    if t1.len() == 0 && t2.len() == 0 {
        assert(t1 =~= t2);
    } else if t1.len() == 0 {
        // the closing quote of the empty cell sits where the other cell
        // still has body, which no escaping can produce
        assert(s[pos + 1 + 0] == esc_quotes(t2)[0]);
        if t2[0] == '"' {
            assert(esc_quotes(t2)[0] == (seq!['"', '"'] + esc_quotes(t2.drop_first()))[0]);
            assert(esc_quotes(t2)[1] == (seq!['"', '"'] + esc_quotes(t2.drop_first()))[1]);
            assert(s[pos + 1 + 1] == esc_quotes(t2)[1]);
            assert(s[pos + 2] == '"');
            assert(pos + 2 + esc_quotes(t1).len() == pos + 2);
            assert(pos + 2 < s.len());
            assert(false);
        } else {
            assert(esc_quotes(t2)[0] == (seq![t2[0]] + esc_quotes(t2.drop_first()))[0]);
            assert(s[pos + 1] == t2[0]);
            assert(s[pos + 1 + esc_quotes(t1).len()] == '"');
            assert(s[pos + 1] == '"');
            assert(false);
        }
    } else if t2.len() == 0 {
        assert(s[pos + 1 + 0] == esc_quotes(t1)[0]);
        if t1[0] == '"' {
            assert(esc_quotes(t1)[0] == (seq!['"', '"'] + esc_quotes(t1.drop_first()))[0]);
            assert(esc_quotes(t1)[1] == (seq!['"', '"'] + esc_quotes(t1.drop_first()))[1]);
            assert(s[pos + 1 + 1] == esc_quotes(t1)[1]);
            assert(s[pos + 2] == '"');
            assert(pos + 2 + esc_quotes(t2).len() == pos + 2);
            assert(pos + 2 < s.len());
            assert(false);
        } else {
            assert(esc_quotes(t1)[0] == (seq![t1[0]] + esc_quotes(t1.drop_first()))[0]);
            assert(s[pos + 1] == t1[0]);
            assert(s[pos + 1 + esc_quotes(t2).len()] == '"');
            assert(s[pos + 1] == '"');
            assert(false);
        }
    } else {
        let u1 = t1.drop_first();
        let u2 = t2.drop_first();
        if t1[0] != '"' {
            assert(esc_quotes(t1) == seq![t1[0]] + esc_quotes(u1));
            assert(s[pos + 1 + 0] == esc_quotes(t1)[0]);
            assert(s[pos + 1] == t1[0]);
            if t2[0] == '"' {
                assert(esc_quotes(t2) == seq!['"', '"'] + esc_quotes(u2));
                assert(s[pos + 1 + 0] == esc_quotes(t2)[0]);
                assert(s[pos + 1] == '"');
                assert(false);
            }
            assert(esc_quotes(t2) == seq![t2[0]] + esc_quotes(u2));
            assert(s[pos + 1 + 0] == esc_quotes(t2)[0]);
            assert(t2[0] == t1[0]);
            // drop the shared head character from the body
            let s2 = s.subrange(0, pos + 1) + s.skip(pos + 2);
            assert(s2.len() == s.len() - 1);
            assert forall|k: int| 0 <= k < pos + 1 implies #[trigger] s2[k] == s[k] by {}
            assert forall|k: int| pos + 1 <= k < s2.len() implies #[trigger] s2[k] == s[k + 1] by {}
            assert(s2.subrange(pos, pos + 2 + esc_quotes(u1).len()) =~= seq!['"'] + esc_quotes(u1)
                + seq!['"']) by {
                assert forall|k: int| 0 <= k < 2 + esc_quotes(u1).len() implies #[trigger] s2.subrange(
                    pos,
                    pos + 2 + esc_quotes(u1).len(),
                )[k] == (seq!['"'] + esc_quotes(u1) + seq!['"'])[k] by {
                    assert(s2.subrange(pos, pos + 2 + esc_quotes(u1).len())[k] == s2[pos + k]);
                    if k == 0 {
                        assert(s2[pos] == s[pos]);
                    } else {
                        assert(s2[pos + k] == s[pos + k + 1]);
                        if k < 1 + esc_quotes(u1).len() {
                            assert(s[pos + 1 + k] == esc_quotes(t1)[k]);
                            assert(esc_quotes(t1)[k] == esc_quotes(u1)[k - 1]);
                        } else {
                            assert(s[pos + 1 + esc_quotes(t1).len()] == '"');
                        }
                    }
                }
            }
            assert(s2.subrange(pos, pos + 2 + esc_quotes(u2).len()) =~= seq!['"'] + esc_quotes(u2)
                + seq!['"']) by {
                assert forall|k: int| 0 <= k < 2 + esc_quotes(u2).len() implies #[trigger] s2.subrange(
                    pos,
                    pos + 2 + esc_quotes(u2).len(),
                )[k] == (seq!['"'] + esc_quotes(u2) + seq!['"'])[k] by {
                    assert(s2.subrange(pos, pos + 2 + esc_quotes(u2).len())[k] == s2[pos + k]);
                    if k == 0 {
                        assert(s2[pos] == s[pos]);
                    } else {
                        assert(s2[pos + k] == s[pos + k + 1]);
                        if k < 1 + esc_quotes(u2).len() {
                            assert(s[pos + 1 + k] == esc_quotes(t2)[k]);
                            assert(esc_quotes(t2)[k] == esc_quotes(u2)[k - 1]);
                        } else {
                            assert(s[pos + 1 + esc_quotes(t2).len()] == '"');
                        }
                    }
                }
            }
            assert(pos + 2 + esc_quotes(u1).len() == s2.len() || s2[pos + 2 + esc_quotes(
                u1,
            ).len()] != '"') by {
                if pos + 2 + esc_quotes(u1).len() < s2.len() {
                    assert(s2[pos + 2 + esc_quotes(u1).len()] == s[pos + 2 + esc_quotes(
                        t1,
                    ).len()]);
                }
            }
            assert(pos + 2 + esc_quotes(u2).len() == s2.len() || s2[pos + 2 + esc_quotes(
                u2,
            ).len()] != '"') by {
                if pos + 2 + esc_quotes(u2).len() < s2.len() {
                    assert(s2[pos + 2 + esc_quotes(u2).len()] == s[pos + 2 + esc_quotes(
                        t2,
                    ).len()]);
                }
            }
            lemma_quoted_det(s2, pos, u1, u2);
            assert(t1.len() == u1.len() + 1 && t2.len() == u2.len() + 1);
            assert forall|k: int| 0 <= k < t1.len() implies t1[k] == t2[k] by {
                if k > 0 {
                    assert(t1[k] == u1[k - 1]);
                    assert(t2[k] == u2[k - 1]);
                }
            }
            assert(t1 =~= t2);
        } else {
            assert(esc_quotes(t1) == seq!['"', '"'] + esc_quotes(u1));
            assert(s[pos + 1 + 0] == esc_quotes(t1)[0]);
            assert(s[pos + 1] == '"');
            if t2[0] != '"' {
                assert(esc_quotes(t2) == seq![t2[0]] + esc_quotes(u2));
                assert(s[pos + 1 + 0] == esc_quotes(t2)[0]);
                assert(s[pos + 1] == t2[0]);
                assert(false);
            }
            assert(esc_quotes(t2) == seq!['"', '"'] + esc_quotes(u2));
            // drop the shared doubled quote from the body
            let s2 = s.subrange(0, pos + 1) + s.skip(pos + 3);
            assert(s2.len() == s.len() - 2);
            assert forall|k: int| 0 <= k < pos + 1 implies #[trigger] s2[k] == s[k] by {}
            assert forall|k: int| pos + 1 <= k < s2.len() implies #[trigger] s2[k] == s[k + 2] by {}
            assert(s2.subrange(pos, pos + 2 + esc_quotes(u1).len()) =~= seq!['"'] + esc_quotes(u1)
                + seq!['"']) by {
                assert forall|k: int| 0 <= k < 2 + esc_quotes(u1).len() implies #[trigger] s2.subrange(
                    pos,
                    pos + 2 + esc_quotes(u1).len(),
                )[k] == (seq!['"'] + esc_quotes(u1) + seq!['"'])[k] by {
                    assert(s2.subrange(pos, pos + 2 + esc_quotes(u1).len())[k] == s2[pos + k]);
                    if k == 0 {
                        assert(s2[pos] == s[pos]);
                    } else {
                        assert(s2[pos + k] == s[pos + k + 2]);
                        if k < 1 + esc_quotes(u1).len() {
                            assert(s[pos + 1 + (k + 1)] == esc_quotes(t1)[k + 1]);
                            assert(esc_quotes(t1)[k + 1] == esc_quotes(u1)[k - 1]);
                        } else {
                            assert(s[pos + 1 + esc_quotes(t1).len()] == '"');
                        }
                    }
                }
            }
            assert(s2.subrange(pos, pos + 2 + esc_quotes(u2).len()) =~= seq!['"'] + esc_quotes(u2)
                + seq!['"']) by {
                assert forall|k: int| 0 <= k < 2 + esc_quotes(u2).len() implies #[trigger] s2.subrange(
                    pos,
                    pos + 2 + esc_quotes(u2).len(),
                )[k] == (seq!['"'] + esc_quotes(u2) + seq!['"'])[k] by {
                    assert(s2.subrange(pos, pos + 2 + esc_quotes(u2).len())[k] == s2[pos + k]);
                    if k == 0 {
                        assert(s2[pos] == s[pos]);
                    } else {
                        assert(s2[pos + k] == s[pos + k + 2]);
                        if k < 1 + esc_quotes(u2).len() {
                            assert(s[pos + 1 + (k + 1)] == esc_quotes(t2)[k + 1]);
                            assert(esc_quotes(t2)[k + 1] == esc_quotes(u2)[k - 1]);
                        } else {
                            assert(s[pos + 1 + esc_quotes(t2).len()] == '"');
                        }
                    }
                }
            }
            assert(pos + 2 + esc_quotes(u1).len() == s2.len() || s2[pos + 2 + esc_quotes(
                u1,
            ).len()] != '"') by {
                if pos + 2 + esc_quotes(u1).len() < s2.len() {
                    assert(s2[pos + 2 + esc_quotes(u1).len()] == s[pos + 2 + esc_quotes(
                        t1,
                    ).len()]);
                }
            }
            assert(pos + 2 + esc_quotes(u2).len() == s2.len() || s2[pos + 2 + esc_quotes(
                u2,
            ).len()] != '"') by {
                if pos + 2 + esc_quotes(u2).len() < s2.len() {
                    assert(s2[pos + 2 + esc_quotes(u2).len()] == s[pos + 2 + esc_quotes(
                        t2,
                    ).len()]);
                }
            }
            lemma_quoted_det(s2, pos, u1, u2);
            assert(t1.len() == u1.len() + 1 && t2.len() == u2.len() + 1);
            assert forall|k: int| 0 <= k < t1.len() implies t1[k] == t2[k] by {
                if k > 0 {
                    assert(t1[k] == u1[k - 1]);
                    assert(t2[k] == u2[k - 1]);
                }
            }
            assert(t1 =~= t2);
        }
    }
}

/// Read a description cell at `pos`: either empty, or quoted with inner
/// quotes doubled. Every placed cell followed by its comma is read.
#[verifier::rlimit(100)]
fn parse_desc_at(s: &str, pos: usize) -> (r: Option<(Option<String>, usize)>)
    requires
        pos <= s@.len(),
    ensures
        r matches Some(p) ==> {
            &&& pos <= p.1 <= s@.len()
            &&& desc_field(p.0) == s@.subrange(pos as int, p.1 as int)
        },
        pos < s@.len() && s@[pos as int] == ',' ==> r == Some((None::<String>, pos)),
        forall|t: Seq<char>|
            #![trigger placed_desc(s@, pos as int, t)]
            pos + 2 + esc_quotes(t).len() < s@.len() && s@.subrange(
                pos as int,
                pos + 2 + esc_quotes(t).len(),
            ) == seq!['"'] + esc_quotes(t) + seq!['"'] && s@[pos + 2 + esc_quotes(t).len()]
                == ',' ==> (r matches Some(p) && p.1 == pos + 2 + esc_quotes(t).len() && (
            p.0 matches Some(d) && d@ == t)),
{
    let ghost hyp = |t: Seq<char>|
        pos + 2 + esc_quotes(t).len() < s@.len() && s@.subrange(
            pos as int,
            pos + 2 + esc_quotes(t).len(),
        ) == seq!['"'] + esc_quotes(t) + seq!['"'] && s@[pos + 2 + esc_quotes(t).len()] == ',';
    let ghost ex = exists|t: Seq<char>| #[trigger] hyp(t);
    let ghost t0: Seq<char> = if ex {
        choose|t: Seq<char>| #[trigger] hyp(t)
    } else {
        Seq::<char>::empty()
    };
    proof {
        if ex {
            lemma_quoted_chars(s@, pos as int, t0);
        }
    }
    let n = s.unicode_len();
    if pos >= n || s.get_char(pos) != '"' {
        proof {
            assert(desc_field(None) =~= s@.subrange(pos as int, pos as int));
            assert forall|t: Seq<char>|
                #![trigger esc_quotes(t)]
                pos + 2 + esc_quotes(t).len() < s@.len() && s@.subrange(
                    pos as int,
                    pos + 2 + esc_quotes(t).len(),
                ) == seq!['"'] + esc_quotes(t) + seq!['"'] && s@[pos + 2 + esc_quotes(t).len()]
                    == ',' implies false by {
                lemma_quoted_chars(s@, pos as int, t);
            }
        }
        return Some((None, pos));
    }
    let mut out = String::new();
    let mut i = pos + 1;
    let ghost mut jj: int = 0;
    proof {
        assert(esc_quotes(out@) =~= s@.subrange(pos as int + 1, pos as int + 1));
        if ex {
            assert(t0.take(0) =~= Seq::<char>::empty());
            assert(esc_quotes(t0.take(0)) =~= Seq::<char>::empty());
        }
    }
    loop
        invariant
            pos + 1 <= i <= n,
            n == s@.len(),
            s@[pos as int] == '"',
            esc_quotes(out@) == s@.subrange(pos as int + 1, i as int),
            hyp == (|t: Seq<char>|
                pos + 2 + esc_quotes(t).len() < s@.len() && s@.subrange(
                    pos as int,
                    pos + 2 + esc_quotes(t).len(),
                ) == seq!['"'] + esc_quotes(t) + seq!['"'] && s@[pos + 2 + esc_quotes(t).len()]
                    == ','),
            ex == exists|t: Seq<char>| #[trigger] hyp(t),
            ex ==> hyp(t0),
            ex ==> 0 <= jj <= t0.len() && out@ == t0.take(jj) && i == pos + 1 + esc_quotes(
                t0.take(jj),
            ).len(),
        decreases n - i,
    {
        proof {
            if ex {
                lemma_quoted_chars(s@, pos as int, t0);
                assert(t0.take(jj) + t0.skip(jj) =~= t0);
                lemma_esc_append(t0.take(jj), t0.skip(jj));
                assert(i - (pos + 1) <= esc_quotes(t0).len());
                assert(i <= pos + 1 + esc_quotes(t0).len() < n);
            }
        }
        if i >= n {
            proof {
                assert forall|t: Seq<char>|
                    #![trigger esc_quotes(t)]
                    pos + 2 + esc_quotes(t).len() < s@.len() && s@.subrange(
                        pos as int,
                        pos + 2 + esc_quotes(t).len(),
                    ) == seq!['"'] + esc_quotes(t) + seq!['"'] && s@[pos + 2 + esc_quotes(
                        t,
                    ).len()] == ',' implies false by {
                    assert(hyp(t));
                    assert(ex);
                    assert(t0.take(jj) + t0.skip(jj) =~= t0);
                    lemma_esc_append(t0.take(jj), t0.skip(jj));
                    assert(i <= pos + 1 + esc_quotes(t0).len() < n);
                }
            }
            return None;
        }
        let c = s.get_char(i);
        if c == '"' {
            if i + 1 < n && s.get_char(i + 1) == '"' {
                let ghost prev = out@;
                out.append("\"");
                proof {
                    reveal_strlit("\"");
                    assert(out@ =~= prev.push('"'));
                    lemma_esc_snoc(prev, '"');
                    assert(esc_quotes(out@) =~= s@.subrange(pos as int + 1, i as int + 2));
                    if ex {
                        // inside the body: the doubled quote is one text quote
                        if jj == t0.len() {
                            assert(t0.take(jj) =~= t0);
                            assert(s@[pos + 1 + esc_quotes(t0).len()] == '"');
                            assert(s@[pos + 2 + esc_quotes(t0).len()] == ',');
                            assert(i + 1 == pos + 2 + esc_quotes(t0).len());
                            assert(s@[i + 1] == ',');
                            assert(false);
                        }
                        let rest = t0.skip(jj);
                        assert(rest[0] == t0[jj]);
                        assert(esc_quotes(t0)[i - (pos + 1)] == esc_quotes(rest)[0]);
                        assert(s@[pos + 1 + (i - (pos + 1))] == esc_quotes(t0)[i - (pos + 1)]);
                        if t0[jj] != '"' {
                            assert(esc_quotes(rest) == seq![t0[jj]] + esc_quotes(
                                rest.drop_first(),
                            ));
                            assert(s@[i as int] == t0[jj]);
                            assert(false);
                        }
                        assert(t0.take(jj + 1) =~= t0.take(jj).push(t0[jj]));
                        lemma_esc_snoc(t0.take(jj), t0[jj]);
                        jj = jj + 1;
                        assert(out@ =~= t0.take(jj));
                    }
                }
                i += 2;
            } else {
                proof {
                    if ex {
                        if jj < t0.len() {
                            let rest = t0.skip(jj);
                            assert(rest[0] == t0[jj]);
                            assert(esc_quotes(t0)[i - (pos + 1)] == esc_quotes(rest)[0]);
                            assert(s@[pos + 1 + (i - (pos + 1))] == esc_quotes(t0)[i - (pos
                                + 1)]);
                            if t0[jj] == '"' {
                                assert(esc_quotes(rest) == seq!['"', '"'] + esc_quotes(
                                    rest.drop_first(),
                                ));
                                assert(esc_quotes(t0)[i - (pos + 1) + 1] == esc_quotes(rest)[1]);
                                assert(s@[pos + 1 + (i - (pos + 1) + 1)] == esc_quotes(t0)[i - (
                                pos + 1) + 1]);
                                assert(s@[i + 1] == '"');
                                assert(i + 1 < n);
                                assert(false);
                            } else {
                                assert(esc_quotes(rest) == seq![t0[jj]] + esc_quotes(
                                    rest.drop_first(),
                                ));
                                assert(s@[i as int] == t0[jj]);
                                assert(false);
                            }
                        }
                        assert(t0.take(jj) =~= t0);
                        assert(out@ == t0);
                        assert(i == pos + 1 + esc_quotes(t0).len());
                    }
                    assert(desc_field(Some(out)) =~= s@.subrange(pos as int, i as int + 1));
                }
                let e = i + 1;
                proof {
                    assert forall|t: Seq<char>|
                        #![trigger esc_quotes(t)]
                        pos + 2 + esc_quotes(t).len() < s@.len() && s@.subrange(
                            pos as int,
                            pos + 2 + esc_quotes(t).len(),
                        ) == seq!['"'] + esc_quotes(t) + seq!['"'] && s@[pos + 2 + esc_quotes(
                            t,
                        ).len()] == ',' implies (Some((Some(out), e)) matches Some(p) && p.1 == pos
                        + 2 + esc_quotes(t).len() && (p.0 matches Some(d) && d@ == t)) by {
                        assert(hyp(t));
                        assert(ex);
                        lemma_quoted_det(s@, pos as int, t, t0);
                    }
                }
                return Some((Some(out), e));
            }
        } else {
            let ghost prev = out@;
            let piece = s.substring_char(i, i + 1);
            out.append(piece);
            proof {
                assert(piece@ =~= seq![s@[i as int]]);
                assert(out@ =~= prev.push(s@[i as int]));
                lemma_esc_snoc(prev, s@[i as int]);
                assert(esc_quotes(out@) =~= s@.subrange(pos as int + 1, i as int + 1));
                if ex {
                    if jj == t0.len() {
                        assert(t0.take(jj) =~= t0);
                        assert(s@[pos + 1 + esc_quotes(t0).len()] == '"');
                        assert(s@[i as int] == '"');
                        assert(false);
                    }
                    let rest = t0.skip(jj);
                    assert(rest[0] == t0[jj]);
                    assert(esc_quotes(t0)[i - (pos + 1)] == esc_quotes(rest)[0]);
                    assert(s@[pos + 1 + (i - (pos + 1))] == esc_quotes(t0)[i - (pos + 1)]);
                    if t0[jj] == '"' {
                        assert(esc_quotes(rest) == seq!['"', '"'] + esc_quotes(
                            rest.drop_first(),
                        ));
                        assert(s@[i as int] == '"');
                        assert(false);
                    }
                    assert(esc_quotes(rest) == seq![t0[jj]] + esc_quotes(rest.drop_first()));
                    assert(s@[i as int] == t0[jj]);
                    assert(t0.take(jj + 1) =~= t0.take(jj).push(t0[jj]));
                    lemma_esc_snoc(t0.take(jj), t0[jj]);
                    jj = jj + 1;
                    assert(out@ =~= t0.take(jj));
                }
            }
            i += 1;
        }
    }
}

/// Read `count` ASCII characters at `pos` as bytes; a non-ASCII
/// character refuses the cell.
fn ascii_bytes_at(s: &str, pos: usize, count: usize) -> (r: Option<Vec<u8>>)
    requires
        pos + count <= s@.len(),
    ensures
        r matches Some(v) ==> {
            &&& v@.len() == count
            &&& forall|k: int|
                0 <= k < count ==> v@[k] < 128 && s@[pos + k] == byte_char(#[trigger] v@[k])
        },
        (forall|k: int| 0 <= k < count ==> #[trigger] s@[pos + k] <= '\u{007f}') ==> r is Some,
{
    let n = s.unicode_len();
    let mut v: Vec<u8> = Vec::new();
    let mut k: usize = 0;
    while k < count
        invariant
            n == s@.len(),
            pos + count <= n,
            0 <= k <= count,
            v@.len() == k,
            forall|q: int|
                0 <= q < k ==> v@[q] < 128 && s@[pos + q] == byte_char(#[trigger] v@[q]),
        decreases count - k,
    {
        let c = s.get_char(pos + k);
        if c > '\u{007f}' {
            proof {
                assert(s@[pos + k as int] > '\u{007f}');
            }
            return None;
        }
        v.push(c as u8);
        proof {
            assert(byte_char(c as u8) == c);
        }
        k += 1;
    }
    Some(v)
}

/// Read a date cell: exactly the canonical ten characters of every
/// placed valid date.
fn parse_date_at(s: &str, pos: usize) -> (r: Option<(crate::dates::Date, usize)>)
    requires
        pos <= s@.len(),
    ensures
        r matches Some(p) ==> {
            &&& pos < p.1 <= s@.len()
            &&& p.0.valid()
            &&& date_chars(p.0) == s@.subrange(pos as int, p.1 as int)
        },
        forall|d: crate::dates::Date|
            #![trigger placed_date(s@, pos as int, d)]
            d.valid() && pos + 10 <= s@.len() && s@.subrange(pos as int, pos as int + 10)
                == date_chars(d) ==> r == Some((d, (pos + 10) as usize)),
{
    proof {
        assert forall|d: crate::dates::Date|
            d.valid() && pos + 10 <= s@.len() && s@.subrange(pos as int, pos as int + 10)
                == date_chars(d) implies (date_chars(d).len() == 10 && forall|k: int|
            0 <= k < 10 ==> #[trigger] s@[pos + k] == byte_char(date_bytes(d)[k])
                && date_bytes(d)[k] < 128) by {
            assert forall|k: int| 0 <= k < 10 implies #[trigger] s@[pos + k] == byte_char(
                date_bytes(d)[k],
            ) && date_bytes(d)[k] < 128 by {
                assert(s@[pos + k] == s@.subrange(pos as int, pos as int + 10)[k]);
            }
        }
    }
    let n = s.unicode_len();
    if n - pos < 10 {
        return None;
    }
    let v = match ascii_bytes_at(s, pos, 10) {
        Some(v) => v,
        None => {
            proof {
                assert forall|d: crate::dates::Date|
                    d.valid() && pos + 10 <= s@.len() && s@.subrange(pos as int, pos as int + 10)
                        == date_chars(d) implies false by {
                    assert forall|k: int| 0 <= k < 10 implies #[trigger] s@[pos + k]
                        <= '\u{007f}' by {
                        assert(s@[pos + k] == byte_char(date_bytes(d)[k]));
                    }
                }
            }
            return None;
        },
    };
    let r0 = parse_date_bytes(v.as_slice());
    proof {
        assert forall|d: crate::dates::Date|
            d.valid() && pos + 10 <= s@.len() && s@.subrange(pos as int, pos as int + 10)
                == date_chars(d) implies v@ == date_bytes(d) && r0 == Some(d) by {
            assert forall|k: int| 0 <= k < 10 implies #[trigger] v@[k] == date_bytes(d)[k] by {
                assert(s@[pos + k] == byte_char(v@[k]));
                assert(s@[pos + k] == byte_char(date_bytes(d)[k]));
            }
            assert(v@ =~= date_bytes(d));
            crate::dates::lemma_date_roundtrip(d);
        }
    }
    match r0 {
        Some(d) => {
            proof {
                crate::dates::lemma_parse_date_exact(v@, d);
                assert(date_chars(d) =~= s@.subrange(pos as int, pos as int + 10));
            }
            Some((d, pos + 10))
        },
        None => None,
    }
}

/// Read a deletion-time cell: empty, or the canonical nineteen
/// characters; every placed cell followed by its comma is read.
#[verifier::rlimit(100)]
fn parse_deleted_at(s: &str, pos: usize) -> (r: Option<(Option<DateTime>, usize)>)
    requires
        pos <= s@.len(),
    ensures
        r matches Some(p) ==> {
            &&& pos <= p.1 <= s@.len()
            &&& deleted_field(p.0) == s@.subrange(pos as int, p.1 as int)
            &&& (p.0 matches Some(dt) ==> dt.valid())
        },
        forall|o: Option<DateTime>|
            #![trigger placed_deleted(s@, pos as int, o)]
            (o matches Some(dt) ==> dt.valid()) && pos + deleted_field(o).len() < s@.len()
                && s@.subrange(pos as int, pos + deleted_field(o).len()) == deleted_field(o)
                && s@[pos + deleted_field(o).len()] == ',' ==> r == Some(
                (o, (pos + deleted_field(o).len()) as usize),
            ),
{
    proof {
        assert forall|o: Option<DateTime>|
            (o matches Some(dt) ==> dt.valid()) && pos + deleted_field(o).len() < s@.len()
                && s@.subrange(pos as int, pos + deleted_field(o).len()) == deleted_field(o)
                && s@[pos + deleted_field(o).len()] == ',' && o is Some implies ('0' <= s@[pos as int]
            <= '9' && forall|k: int|
            0 <= k < 19 ==> #[trigger] s@[pos + k] == byte_char(date_time_bytes(o->0)[k])
                && date_time_bytes(o->0)[k] < 128) by {
            let dt = o->0;
            assert forall|k: int| 0 <= k < 19 implies #[trigger] s@[pos + k] == byte_char(
                date_time_bytes(dt)[k],
            ) && date_time_bytes(dt)[k] < 128 by {
                assert(s@[pos + k] == s@.subrange(pos as int, pos + 19)[k]);
            }
            assert(dt.valid());
            assert(date_time_bytes(dt)[0] == date_bytes(dt.date)[0]);
            assert(date_bytes(dt.date)[0] == digit_byte(dt.date.year as int / 1000));
            assert(0 <= dt.date.year as int / 1000 <= 9);
            assert(is_digit(date_bytes(dt.date)[0]));
            assert(s@[pos + 0] == byte_char(date_time_bytes(dt)[0]));
            assert(s@[pos as int] == s@[pos + 0]);
        }
    }
    let n = s.unicode_len();
    if pos >= n || s.get_char(pos) == ',' {
        proof {
            assert(deleted_field(None) =~= s@.subrange(pos as int, pos as int));
        }
        return Some((None, pos));
    }
    if n - pos < 19 {
        return None;
    }
    let v = match ascii_bytes_at(s, pos, 19) {
        Some(v) => v,
        None => {
            proof {
                assert forall|o: Option<DateTime>|
                    (o matches Some(dt) ==> dt.valid()) && pos + deleted_field(o).len() < s@.len()
                        && s@.subrange(pos as int, pos + deleted_field(o).len()) == deleted_field(
                    o) && s@[pos + deleted_field(o).len()] == ',' implies false by {
                    assert(o is Some);
                    assert forall|k: int| 0 <= k < 19 implies #[trigger] s@[pos + k]
                        <= '\u{007f}' by {
                        assert(s@[pos + k] == byte_char(date_time_bytes(o->0)[k]));
                    }
                }
            }
            return None;
        },
    };
    let r0 = parse_date_time_bytes(v.as_slice());
    proof {
        assert forall|o: Option<DateTime>|
            (o matches Some(dt) ==> dt.valid()) && pos + deleted_field(o).len() < s@.len()
                && s@.subrange(pos as int, pos + deleted_field(o).len()) == deleted_field(o)
                && s@[pos + deleted_field(o).len()] == ',' implies (o is Some && v@
            == date_time_bytes(o->0) && r0 == Some(o->0)) by {
            assert(o is Some);
            let dt = o->0;
            assert forall|k: int| 0 <= k < 19 implies #[trigger] v@[k] == date_time_bytes(
                dt,
            )[k] by {
                assert(s@[pos + k] == byte_char(v@[k]));
                assert(s@[pos + k] == byte_char(date_time_bytes(dt)[k]));
            }
            assert(v@ =~= date_time_bytes(dt));
            crate::dates::lemma_date_time_roundtrip(dt);
        }
    }
    match r0 {
        Some(dt) => {
            proof {
                crate::dates::lemma_parse_date_time_exact(v@, dt);
                assert(deleted_field(Some(dt)) =~= s@.subrange(pos as int, pos as int + 19));
            }
            Some((Some(dt), pos + 19))
        },
        None => None,
    }
}

/// Read an external-activity-id cell: empty before the line break, or a
/// numeral; every placed cell followed by its line break is read.
fn parse_strava_at(s: &str, pos: usize) -> (r: Option<(Option<i64>, usize)>)
    requires
        pos <= s@.len(),
    ensures
        r matches Some(p) ==> {
            &&& pos <= p.1 <= s@.len()
            &&& strava_field(p.0) == s@.subrange(pos as int, p.1 as int)
        },
        forall|o: Option<i64>|
            #![trigger placed_strava(s@, pos as int, o)]
            pos + strava_field(o).len() < s@.len() && s@.subrange(
                pos as int,
                pos + strava_field(o).len(),
            ) == strava_field(o) && s@[pos + strava_field(o).len()] == '\n' ==> r == Some(
                (o, (pos + strava_field(o).len()) as usize),
            ),
{
    proof {
        assert forall|o: Option<i64>|
            pos + strava_field(o).len() < s@.len() && s@.subrange(
                pos as int,
                pos + strava_field(o).len(),
            ) == strava_field(o) && s@[pos + strava_field(o).len()] == '\n' && o
            is Some implies s@[pos as int] != '\n' by {
            let v = o->0;
            assert(s@[pos as int] == int_chars(v as int)[0]);
            if v >= 0 {
                lemma_num_chars_digits(v as int);
                assert('0' <= int_chars(v as int)[0] <= '9');
            } else {
                assert(int_chars(v as int)[0] == '-');
            }
        }
    }
    let n = s.unicode_len();
    if pos >= n || s.get_char(pos) == '\n' {
        proof {
            assert(strava_field(None) =~= s@.subrange(pos as int, pos as int));
        }
        return Some((None, pos));
    }
    let r0 = parse_int_at(s, pos);
    proof {
        assert forall|o: Option<i64>|
            pos + strava_field(o).len() < s@.len() && s@.subrange(
                pos as int,
                pos + strava_field(o).len(),
            ) == strava_field(o) && s@[pos + strava_field(o).len()] == '\n' implies (o is Some
            && r0 == Some((o->0, (pos + strava_field(o).len()) as usize))) by {
            assert(o is Some);
            let v = o->0;
            assert(s@.subrange(pos as int, pos + int_chars(v as int).len()) == int_chars(
                v as int,
            ));
            assert(placed_int(s@, pos as int, v, pos + int_chars(v as int).len()));
        }
    }
    match r0 {
        Some((v, e)) => Some((Some(v), e)),
        None => None,
    }
}

/// Equal rows of data: every field agrees, descriptions compared by
/// their characters (a parsed description is rebuilt character by
/// character, so that is all that can be said of it).
pub open spec fn ride_like(a: Ride, b: Ride) -> bool {
    &&& a.id == b.id
    &&& a.date == b.date
    &&& a.distance == b.distance
    &&& a.deleted_at == b.deleted_at
    &&& a.bike_id == b.bike_id
    &&& a.strava_ride == b.strava_ride
    &&& match (a.description, b.description) {
        (Some(x), Some(y)) => x@ == y@,
        (None, None) => true,
        _ => false,
    }
}

/// Where each cell of a placed ride line sits, and the separators
/// between them.
#[verifier::rlimit(100)]
proof fn lemma_row_fields(s: Seq<char>, pos: int, R: Ride)
    requires
        0 <= pos,
        pos + ride_csv_row(R).len() <= s.len(),
        s.subrange(pos, pos + ride_csv_row(R).len() as int) == ride_csv_row(R),
    ensures
        ({
            let a1 = pos + int_chars(R.id as int).len();
            let a2 = a1 + 1 + 10;
            let a3 = a2 + 1 + dist_chars(R.distance as int).len();
            let a4 = a3 + 1 + desc_field(R.description).len();
            let a5 = a4 + 1 + deleted_field(R.deleted_at).len();
            let a6 = a5 + 1 + int_chars(R.bike_id as int).len();
            let a7 = a6 + 1 + strava_field(R.strava_ride).len();
            &&& date_chars(R.date).len() == 10
            &&& s.subrange(pos, a1) == int_chars(R.id as int)
            &&& s[a1] == ','
            &&& s.subrange(a1 + 1, a2) == date_chars(R.date)
            &&& s[a2] == ','
            &&& s.subrange(a2 + 1, a3) == dist_chars(R.distance as int)
            &&& s[a3] == ','
            &&& s.subrange(a3 + 1, a4) == desc_field(R.description)
            &&& s[a4] == ','
            &&& s.subrange(a4 + 1, a5) == deleted_field(R.deleted_at)
            &&& s[a5] == ','
            &&& s.subrange(a5 + 1, a6) == int_chars(R.bike_id as int)
            &&& s[a6] == ','
            &&& s.subrange(a6 + 1, a7) == strava_field(R.strava_ride)
            &&& s[a7] == '\n'
            &&& a7 + 1 == pos + ride_csv_row(R).len()
        }),
{
    let row = ride_csv_row(R);
    assert(date_chars(R.date).len() == 10) by {
        assert(date_bytes(R.date).len() == 10);
    }
    assert forall|k: int| 0 <= k < row.len() implies #[trigger] s[pos + k] == row[k] by {
        assert(s[pos + k] == s.subrange(pos, pos + row.len() as int)[k]);
    }
    let a1 = pos + int_chars(R.id as int).len();
    let a2 = a1 + 1 + 10;
    let a3 = a2 + 1 + dist_chars(R.distance as int).len();
    let a4 = a3 + 1 + desc_field(R.description).len();
    let a5 = a4 + 1 + deleted_field(R.deleted_at).len();
    let a6 = a5 + 1 + int_chars(R.bike_id as int).len();
    let a7 = a6 + 1 + strava_field(R.strava_ride).len();
    assert(s.subrange(pos, a1) =~= int_chars(R.id as int)) by {
        assert(forall|k: int|
            0 <= k < a1 - pos ==> #[trigger] s.subrange(pos, a1)[k] == s[pos + k]);
    }
    assert(s[a1] == row[a1 - pos]);
    assert(s.subrange(a1 + 1, a2) =~= date_chars(R.date)) by {
        assert(forall|k: int|
            0 <= k < 10 ==> #[trigger] s.subrange(a1 + 1, a2)[k] == s[pos + (a1 + 1 - pos + k)]);
    }
    assert(s[a2] == row[a2 - pos]);
    assert(s.subrange(a2 + 1, a3) =~= dist_chars(R.distance as int)) by {
        assert(forall|k: int|
            0 <= k < a3 - a2 - 1 ==> #[trigger] s.subrange(a2 + 1, a3)[k] == s[pos + (a2 + 1 - pos
                + k)]);
    }
    assert(s[a3] == row[a3 - pos]);
    assert(s.subrange(a3 + 1, a4) =~= desc_field(R.description)) by {
        assert(forall|k: int|
            0 <= k < a4 - a3 - 1 ==> #[trigger] s.subrange(a3 + 1, a4)[k] == s[pos + (a3 + 1 - pos
                + k)]);
    }
    assert(s[a4] == row[a4 - pos]);
    assert(s.subrange(a4 + 1, a5) =~= deleted_field(R.deleted_at)) by {
        assert(forall|k: int|
            0 <= k < a5 - a4 - 1 ==> #[trigger] s.subrange(a4 + 1, a5)[k] == s[pos + (a4 + 1 - pos
                + k)]);
    }
    assert(s[a5] == row[a5 - pos]);
    assert(s.subrange(a5 + 1, a6) =~= int_chars(R.bike_id as int)) by {
        assert(forall|k: int|
            0 <= k < a6 - a5 - 1 ==> #[trigger] s.subrange(a5 + 1, a6)[k] == s[pos + (a5 + 1 - pos
                + k)]);
    }
    assert(s[a6] == row[a6 - pos]);
    assert(s.subrange(a6 + 1, a7) =~= strava_field(R.strava_ride)) by {
        assert(forall|k: int|
            0 <= k < a7 - a6 - 1 ==> #[trigger] s.subrange(a6 + 1, a7)[k] == s[pos + (a6 + 1 - pos
                + k)]);
    }
    assert(s[a7] == row[a7 - pos]);
}

/// Stitch verified cells back into one line: the concatenation of the
/// pieces found between the separators is the row's rendering.
#[verifier::rlimit(100)]
proof fn lemma_row_assemble(
    s: Seq<char>,
    pos: int,
    ride: Ride,
    p3c: int,
    p4: int,
    p5: int,
    p6: int,
    p7: int,
)
    requires
        0 <= pos < p3c <= p4 < p5 < p6 < p7 < s.len(),
        s.subrange(pos, p3c) == int_chars(ride.id as int) + seq![','] + date_chars(ride.date)
            + seq![','] + dist_chars(ride.distance as int) + seq![','],
        s.subrange(p3c, p4) == desc_field(ride.description),
        s[p4] == ',',
        s.subrange(p4 + 1, p5) == deleted_field(ride.deleted_at),
        s[p5] == ',',
        s.subrange(p5 + 1, p6) == int_chars(ride.bike_id as int),
        s[p6] == ',',
        s.subrange(p6 + 1, p7) == strava_field(ride.strava_ride),
        s[p7] == '\n',
    ensures
        ride_csv_row(ride) == s.subrange(pos, p7 + 1),
{
    assert(ride_csv_row(ride) =~= s.subrange(pos, p3c) + s.subrange(p3c, p4) + seq![s[p4]]
        + s.subrange(p4 + 1, p5) + seq![s[p5]] + s.subrange(p5 + 1, p6) + seq![s[p6]]
        + s.subrange(p6 + 1, p7) + seq![s[p7]]);
    assert(s.subrange(pos, p3c) + s.subrange(p3c, p4) + seq![s[p4]] + s.subrange(p4 + 1, p5)
        + seq![s[p5]] + s.subrange(p5 + 1, p6) + seq![s[p6]] + s.subrange(p6 + 1, p7)
        + seq![s[p7]] =~= s.subrange(pos, p7 + 1));
}

/// Stitch the first three verified cells back together.
proof fn lemma_head_assemble(
    s: Seq<char>,
    pos: int,
    id: i64,
    date: crate::dates::Date,
    distance: u64,
    p1: int,
    p2: int,
    p3: int,
)
    requires
        0 <= pos <= p1 < p2 < p3 < s.len(),
        s.subrange(pos, p1) == int_chars(id as int),
        s[p1] == ',',
        s.subrange(p1 + 1, p2) == date_chars(date),
        s[p2] == ',',
        s.subrange(p2 + 1, p3) == dist_chars(distance as int),
        s[p3] == ',',
    ensures
        s.subrange(pos, p3 + 1) == int_chars(id as int) + seq![','] + date_chars(date) + seq![',']
            + dist_chars(distance as int) + seq![','],
{
    assert(s.subrange(pos, p3 + 1) =~= s.subrange(pos, p1) + seq![s[p1]] + s.subrange(p1 + 1, p2)
        + seq![s[p2]] + s.subrange(p2 + 1, p3) + seq![s[p3]]);
    assert(s.subrange(pos, p1) + seq![s[p1]] + s.subrange(p1 + 1, p2) + seq![s[p2]] + s.subrange(
        p2 + 1,
        p3,
    ) + seq![s[p3]] =~= int_chars(id as int) + seq![','] + date_chars(date) + seq![',']
        + dist_chars(distance as int) + seq![',']);
}

/// Read the first three cells of a placed ride line: id, date and
/// distance, each with its comma, returning the position after the
/// third comma.
#[verifier::rlimit(100)]
#[verifier::spinoff_prover]
fn parse_row_head(s: &str, pos: usize) -> (r: Option<(i64, crate::dates::Date, u64, usize)>)
    requires
        pos <= s@.len(),
    ensures
        r matches Some(p) ==> {
            &&& pos < p.3 <= s@.len()
            &&& p.1.valid()
            &&& s@.subrange(pos as int, p.3 as int) == int_chars(p.0 as int) + seq![',']
                + date_chars(p.1) + seq![','] + dist_chars(p.2 as int) + seq![',']
        },
        forall|R: Ride|
            #![trigger placed_row(s@, pos as int, R)]
            R.valid() && pos + ride_csv_row(R).len() <= s@.len() && s@.subrange(
                pos as int,
                pos + ride_csv_row(R).len() as int,
            ) == ride_csv_row(R) ==> r == Some(
                (
                    R.id,
                    R.date,
                    R.distance,
                    (pos + int_chars(R.id as int).len() + 1 + 10 + 1 + dist_chars(
                        R.distance as int,
                    ).len() + 1) as usize,
                ),
            ),
{
    let ghost hyp = |R: Ride|
        R.valid() && pos + ride_csv_row(R).len() <= s@.len() && s@.subrange(
            pos as int,
            pos + ride_csv_row(R).len() as int,
        ) == ride_csv_row(R);
    let n = s.unicode_len();
    proof {
        assert forall|R: Ride| #![trigger ride_csv_row(R)] hyp(R) implies ({
            let a1 = pos + int_chars(R.id as int).len();
            let a2 = a1 + 1 + 10;
            let a3 = a2 + 1 + dist_chars(R.distance as int).len();
            &&& a3 < pos + ride_csv_row(R).len()
            &&& date_chars(R.date).len() == 10
            &&& s@.subrange(pos as int, a1) == int_chars(R.id as int)
            &&& s@[a1] == ','
            &&& s@.subrange(a1 + 1, a2) == date_chars(R.date)
            &&& s@[a2] == ','
            &&& s@.subrange(a2 + 1, a3) == dist_chars(R.distance as int)
            &&& s@[a3] == ','
        }) by {
            lemma_row_fields(s@, pos as int, R);
        }
    }
    let r_id = parse_int_at(s, pos);
    proof {
        assert forall|R: Ride| #![trigger ride_csv_row(R)] hyp(R) implies r_id == Some(
            (R.id, (pos + int_chars(R.id as int).len()) as usize),
        ) by {
            assert(placed_int(s@, pos as int, R.id, pos + int_chars(R.id as int).len()));
        }
    }
    let (id, p1) = match r_id {
        Some(p) => p,
        None => {
            proof {
                assert forall|R: Ride| #![trigger ride_csv_row(R)] !hyp(R) by {}
            }
            return None;
        },
    };
    if p1 >= n || s.get_char(p1) != ',' {
        proof {
            assert forall|R: Ride| #![trigger ride_csv_row(R)] !hyp(R) by {}
        }
        return None;
    }
    let r_date = parse_date_at(s, p1 + 1);
    proof {
        assert forall|R: Ride| #![trigger ride_csv_row(R)] hyp(R) implies r_date == Some(
            (R.date, (pos + int_chars(R.id as int).len() + 1 + 10) as usize),
        ) by {
            assert(p1 == pos + int_chars(R.id as int).len());
            assert(placed_date(s@, p1 as int + 1, R.date));
        }
    }
    let (date, p2) = match r_date {
        Some(p) => p,
        None => {
            proof {
                assert forall|R: Ride| #![trigger ride_csv_row(R)] !hyp(R) by {}
            }
            return None;
        },
    };
    if p2 >= n || s.get_char(p2) != ',' {
        proof {
            assert forall|R: Ride| #![trigger ride_csv_row(R)] !hyp(R) by {}
        }
        return None;
    }
    let r_dist = parse_dist_at(s, p2 + 1);
    proof {
        assert forall|R: Ride| #![trigger ride_csv_row(R)] hyp(R) implies r_dist == Some(
            (
                R.distance,
                (pos + int_chars(R.id as int).len() + 1 + 10 + 1 + dist_chars(
                    R.distance as int,
                ).len()) as usize,
            ),
        ) by {
            assert(p2 == pos + int_chars(R.id as int).len() + 1 + 10);
            assert(placed_dist(
                s@,
                p2 as int + 1,
                R.distance,
                p2 + 1 + dist_chars(R.distance as int).len(),
            ));
        }
    }
    let (distance, p3) = match r_dist {
        Some(p) => p,
        None => {
            proof {
                assert forall|R: Ride| #![trigger ride_csv_row(R)] !hyp(R) by {}
            }
            return None;
        },
    };
    if p3 >= n || s.get_char(p3) != ',' {
        proof {
            assert forall|R: Ride| #![trigger ride_csv_row(R)] !hyp(R) by {}
        }
        return None;
    }
    proof {
        lemma_head_assemble(s@, pos as int, id, date, distance, p1 as int, p2 as int, p3 as int);
    }
    Some((id, date, distance, p3 + 1))
}

/// Read one ride line at `pos`, newline included: every placed line is
/// read back as the row it renders.
#[verifier::rlimit(100)]
#[verifier::spinoff_prover]
fn parse_row(s: &str, pos: usize) -> (r: Option<(Ride, usize)>)
    requires
        pos <= s@.len(),
    ensures
        r matches Some(p) ==> {
            &&& pos < p.1 <= s@.len()
            &&& p.0.valid()
            &&& ride_csv_row(p.0) == s@.subrange(pos as int, p.1 as int)
        },
        forall|R: Ride|
            #![trigger placed_row(s@, pos as int, R)]
            R.valid() && pos + ride_csv_row(R).len() <= s@.len() && s@.subrange(
                pos as int,
                pos + ride_csv_row(R).len() as int,
            ) == ride_csv_row(R) ==> (r matches Some(p) && p.1 == pos + ride_csv_row(R).len()
                && ride_like(p.0, R)),
{
    let ghost hyp = |R: Ride|
        R.valid() && pos + ride_csv_row(R).len() <= s@.len() && s@.subrange(
            pos as int,
            pos + ride_csv_row(R).len() as int,
        ) == ride_csv_row(R);
    let n = s.unicode_len();
    proof {
        assert forall|R: Ride| #![trigger ride_csv_row(R)] hyp(R) implies ({
            let a3 = pos + int_chars(R.id as int).len() + 1 + 10 + 1 + dist_chars(
                R.distance as int,
            ).len();
            let a4 = a3 + 1 + desc_field(R.description).len();
            let a5 = a4 + 1 + deleted_field(R.deleted_at).len();
            let a6 = a5 + 1 + int_chars(R.bike_id as int).len();
            let a7 = a6 + 1 + strava_field(R.strava_ride).len();
            &&& s@.subrange(a3 + 1, a4) == desc_field(R.description)
            &&& s@[a4] == ','
            &&& s@.subrange(a4 + 1, a5) == deleted_field(R.deleted_at)
            &&& s@[a5] == ','
            &&& s@.subrange(a5 + 1, a6) == int_chars(R.bike_id as int)
            &&& s@[a6] == ','
            &&& s@.subrange(a6 + 1, a7) == strava_field(R.strava_ride)
            &&& s@[a7] == '\n'
            &&& a7 + 1 == pos + ride_csv_row(R).len()
        }) by {
            lemma_row_fields(s@, pos as int, R);
        }
    }
    let r_head = parse_row_head(s, pos);
    proof {
        assert forall|R: Ride| #![trigger ride_csv_row(R)] hyp(R) implies r_head == Some(
            (
                R.id,
                R.date,
                R.distance,
                (pos + int_chars(R.id as int).len() + 1 + 10 + 1 + dist_chars(
                    R.distance as int,
                ).len() + 1) as usize,
            ),
        ) by {
            assert(placed_row(s@, pos as int, R));
        }
    }
    let (id, date, distance, p3c) = match r_head {
        Some(p) => p,
        None => {
            proof {
                assert forall|R: Ride| #![trigger ride_csv_row(R)] !hyp(R) by {}
            }
            return None;
        },
    };
    let r_desc = parse_desc_at(s, p3c);
    proof {
        assert forall|R: Ride| #![trigger ride_csv_row(R)] hyp(R) implies ({
            let a4 = pos + int_chars(R.id as int).len() + 1 + 10 + 1 + dist_chars(
                R.distance as int,
            ).len() + 1 + desc_field(R.description).len();
            (r_desc matches Some(p) && p.1 == a4 && (match (p.0, R.description) {
                (Some(x), Some(y)) => x@ == y@,
                (None, None) => true,
                _ => false,
            })) && s@[a4 as int] == ','
        }) by {
            let a3c = pos + int_chars(R.id as int).len() + 1 + 10 + 1 + dist_chars(
                R.distance as int,
            ).len() + 1;
            assert(p3c as int == a3c);
            match R.description {
                Some(d) => {
                    assert(desc_field(R.description) == seq!['"'] + esc_quotes(d@) + seq!['"']);
                    assert(placed_desc(s@, p3c as int, d@));
                },
                None => {
                    assert(s@[a3c] == ',');
                },
            }
        }
    }
    let (description, p4) = match r_desc {
        Some(p) => p,
        None => {
            proof {
                assert forall|R: Ride| #![trigger ride_csv_row(R)] !hyp(R) by {}
            }
            return None;
        },
    };
    if p4 >= n || s.get_char(p4) != ',' {
        proof {
            assert forall|R: Ride| #![trigger ride_csv_row(R)] !hyp(R) by {}
        }
        return None;
    }
    let r_del = parse_deleted_at(s, p4 + 1);
    proof {
        assert forall|R: Ride| #![trigger ride_csv_row(R)] hyp(R) implies ({
            let a5 = pos + int_chars(R.id as int).len() + 1 + 10 + 1 + dist_chars(
                R.distance as int,
            ).len() + 1 + desc_field(R.description).len() + 1 + deleted_field(
                R.deleted_at,
            ).len();
            r_del == Some((R.deleted_at, a5 as usize)) && s@[a5 as int] == ','
        }) by {
            assert(placed_deleted(s@, p4 as int + 1, R.deleted_at));
        }
    }
    let (deleted_at, p5) = match r_del {
        Some(p) => p,
        None => {
            proof {
                assert forall|R: Ride| #![trigger ride_csv_row(R)] !hyp(R) by {}
            }
            return None;
        },
    };
    if p5 >= n || s.get_char(p5) != ',' {
        proof {
            assert forall|R: Ride| #![trigger ride_csv_row(R)] !hyp(R) by {}
        }
        return None;
    }
    let r_bike = parse_int_at(s, p5 + 1);
    proof {
        assert forall|R: Ride| #![trigger ride_csv_row(R)] hyp(R) implies ({
            let a6 = pos + int_chars(R.id as int).len() + 1 + 10 + 1 + dist_chars(
                R.distance as int,
            ).len() + 1 + desc_field(R.description).len() + 1 + deleted_field(
                R.deleted_at,
            ).len() + 1 + int_chars(R.bike_id as int).len();
            r_bike == Some((R.bike_id, a6 as usize)) && s@[a6 as int] == ','
        }) by {
            assert(placed_int(
                s@,
                p5 as int + 1,
                R.bike_id,
                p5 + 1 + int_chars(R.bike_id as int).len(),
            ));
        }
    }
    let (bike_id, p6) = match r_bike {
        Some(p) => p,
        None => {
            proof {
                assert forall|R: Ride| #![trigger ride_csv_row(R)] !hyp(R) by {}
            }
            return None;
        },
    };
    if p6 >= n || s.get_char(p6) != ',' {
        proof {
            assert forall|R: Ride| #![trigger ride_csv_row(R)] !hyp(R) by {}
        }
        return None;
    }
    let r_str = parse_strava_at(s, p6 + 1);
    proof {
        assert forall|R: Ride| #![trigger ride_csv_row(R)] hyp(R) implies ({
            let a7 = pos + int_chars(R.id as int).len() + 1 + 10 + 1 + dist_chars(
                R.distance as int,
            ).len() + 1 + desc_field(R.description).len() + 1 + deleted_field(
                R.deleted_at,
            ).len() + 1 + int_chars(R.bike_id as int).len() + 1 + strava_field(
                R.strava_ride,
            ).len();
            r_str == Some((R.strava_ride, a7 as usize)) && s@[a7 as int] == '\n' && a7 + 1 == pos
                + ride_csv_row(R).len()
        }) by {
            assert(placed_strava(s@, p6 as int + 1, R.strava_ride));
        }
    }
    let (strava_ride, p7) = match r_str {
        Some(p) => p,
        None => {
            proof {
                assert forall|R: Ride| #![trigger ride_csv_row(R)] !hyp(R) by {}
            }
            return None;
        },
    };
    if p7 >= n || s.get_char(p7) != '\n' {
        proof {
            assert forall|R: Ride| #![trigger ride_csv_row(R)] !hyp(R) by {}
        }
        return None;
    }
    let ride = Ride { id, date, distance, description, deleted_at, bike_id, strava_ride };
    proof {
        lemma_row_assemble(
            s@,
            pos as int,
            ride,
            p3c as int,
            p4 as int,
            p5 as int,
            p6 as int,
            p7 as int,
        );
        assert forall|R: Ride| #![trigger ride_csv_row(R)] hyp(R) implies (p7 + 1 == pos
            + ride_csv_row(R).len() && ride_like(ride, R)) by {}
    }
    Some((ride, p7 + 1))
}

/// Where the next row of a placed file sits: at the boundary after the
/// rows already read, the next candidate row is rendered verbatim.
#[verifier::rlimit(100)]
proof fn lemma_csv_next_row(s: Seq<char>, pos: int, done: int, cand: Seq<Ride>)
    requires
        forall|k: int| 0 <= k < cand.len() ==> (#[trigger] cand[k]).valid(),
        rides_csv(cand) == s,
        0 <= done <= cand.len(),
        pos == rides_csv(cand.take(done)).len(),
    ensures
        done == cand.len() ==> pos == s.len(),
        done < cand.len() ==> {
            &&& 1 <= ride_csv_row(cand[done]).len()
            &&& pos + ride_csv_row(cand[done]).len() <= s.len()
            &&& s.subrange(pos, pos + ride_csv_row(cand[done]).len() as int) == ride_csv_row(
                cand[done],
            )
            &&& placed_row(s, pos, cand[done])
            &&& rides_csv(cand.take(done + 1)).len() == pos + ride_csv_row(cand[done]).len()
        },
{
    if done == cand.len() {
        assert(cand.take(done) =~= cand);
    } else {
        let row = ride_csv_row(cand[done]);
        assert(cand.take(done) + (seq![cand[done]] + cand.skip(done + 1)) =~= cand);
        lemma_body_append(cand.take(done), seq![cand[done]] + cand.skip(done + 1));
        lemma_body_append(seq![cand[done]], cand.skip(done + 1));
        assert(rides_csv_body(seq![cand[done]]) =~= row) by {
            assert(seq![cand[done]].drop_last() =~= Seq::<Ride>::empty());
            assert(seq![cand[done]].last() == cand[done]);
            assert(rides_csv_body(Seq::<Ride>::empty()) =~= Seq::<char>::empty());
        }
        assert(rides_csv(cand) =~= rides_csv(cand.take(done)) + row + rides_csv_body(
            cand.skip(done + 1),
        ));
        assert(s.subrange(pos, pos + row.len() as int) =~= row) by {
            assert forall|j: int| 0 <= j < row.len() implies #[trigger] s.subrange(
                pos,
                pos + row.len() as int,
            )[j] == row[j] by {
                assert(s.subrange(pos, pos + row.len() as int)[j] == s[pos + j]);
                assert(s[pos + j] == rides_csv(cand)[pos + j]);
                assert(rides_csv(cand)[pos + j] == (rides_csv(cand.take(done)) + row
                    + rides_csv_body(cand.skip(done + 1)))[pos + j]);
            }
        }
        assert(cand.take(done + 1).drop_last() =~= cand.take(done));
        assert(cand.take(done + 1).last() == cand[done]);
        assert(rides_csv(cand.take(done + 1)) =~= rides_csv(cand.take(done)) + row);
    }
}

/// The body renders a split row list as the two parts, one after the
/// other.
proof fn lemma_body_append(a: Seq<Ride>, b: Seq<Ride>)
    ensures
        rides_csv_body(a + b) == rides_csv_body(a) + rides_csv_body(b),
    decreases b.len(),
{
    if b.len() == 0 {
        assert(a + b =~= a);
        assert(rides_csv_body(b) =~= Seq::<char>::empty());
        assert(rides_csv_body(a + b) =~= rides_csv_body(a) + rides_csv_body(b));
    } else {
        assert((a + b).drop_last() =~= a + b.drop_last());
        assert((a + b).last() == b.last());
        lemma_body_append(a, b.drop_last());
        assert(rides_csv_body(a + b) =~= rides_csv_body(a) + rides_csv_body(b));
    }
}

/// Read a whole export file back. Every accepted file is the canonical
/// rendering of the returned rows, and every canonically rendered file
/// is accepted and yields exactly the rows it renders.
#[verifier::rlimit(100)]
#[verifier::spinoff_prover]
pub fn parse_rides_csv(s: &str) -> (r: AppResult<Vec<Ride>>)
    ensures
        r matches Ok(out) ==> {
            &&& rides_csv(out@) == s@
            &&& forall|k: int| 0 <= k < out@.len() ==> (#[trigger] out@[k]).valid()
        },
        s@ == csv_header() ==> (r matches Ok(out) && out@.len() == 0),
        forall|cand: Seq<Ride>|
            #![trigger rides_csv(cand)]
            (forall|k: int| 0 <= k < cand.len() ==> (#[trigger] cand[k]).valid()) && rides_csv(
                cand,
            ) == s@ ==> (r matches Ok(out) && out@.len() == cand.len() && (forall|k: int|
                0 <= k < cand.len() ==> ride_like(#[trigger] out@[k], cand[k]))),
        r matches Err(e) ==> e is Other,
{
    let n = s.unicode_len();
    let header = "id,date,distance,description,deleted_at,bike_id,strava_ride\n";
    if !starts_with(s, header) {
        proof {
            if s@ == csv_header() {
                assert(s@.take(header@.len() as int) =~= header@);
                assert(crate::text::spec_starts_with(s@, header@));
            }
            assert forall|cand: Seq<Ride>|
                #![trigger rides_csv(cand)]
                (forall|k: int| 0 <= k < cand.len() ==> (#[trigger] cand[k]).valid())
                    && rides_csv(cand) == s@ implies false by {
                assert(s@.take(header@.len() as int) =~= header@);
                assert(crate::text::spec_starts_with(s@, header@));
            }
        }
        return Err(AppError::Other(String::from_str("missing header")));
    }
    let hl = header.unicode_len();
    let mut out: Vec<Ride> = Vec::new();
    let mut pos = hl;
    proof {
        assert(out@.take(0) =~= Seq::<Ride>::empty());
        assert(rides_csv(out@) =~= s@.subrange(0, pos as int));
    }
    while pos < n
        invariant
            n == s@.len(),
            hl == csv_header().len(),
            hl <= pos <= n,
            forall|k: int| 0 <= k < out@.len() ==> (#[trigger] out@[k]).valid(),
            rides_csv(out@) == s@.subrange(0, pos as int),
            forall|cand: Seq<Ride>|
                #![trigger rides_csv(cand)]
                (forall|k: int| 0 <= k < cand.len() ==> (#[trigger] cand[k]).valid())
                    && rides_csv(cand) == s@ ==> {
                    &&& out@.len() <= cand.len()
                    &&& pos == rides_csv(cand.take(out@.len() as int)).len()
                    &&& forall|k: int|
                        0 <= k < out@.len() ==> ride_like(#[trigger] out@[k], cand[k])
                },
        decreases n - pos,
    {
        let r_row = parse_row(s, pos);
        proof {
            assert forall|cand: Seq<Ride>|
                #![trigger rides_csv(cand)]
                (forall|k: int| 0 <= k < cand.len() ==> (#[trigger] cand[k]).valid())
                    && rides_csv(cand) == s@ implies ({
                let q = out@.len() as int;
                &&& q < cand.len()
                &&& (r_row matches Some(p) && p.1 == pos + ride_csv_row(cand[q]).len()
                    && ride_like(p.0, cand[q]))
            }) by {
                let q = out@.len() as int;
                lemma_csv_next_row(s@, pos as int, q, cand);
            }
        }
        match r_row {
            Some((ride, next)) => {
                proof {
                    assert(out@.push(ride).drop_last() =~= out@);
                    assert(out@.push(ride).last() == ride);
                    assert(s@.subrange(0, pos as int) + s@.subrange(pos as int, next as int)
                        =~= s@.subrange(0, next as int));
                    assert(rides_csv(out@.push(ride)) =~= s@.subrange(0, next as int));
                    assert forall|cand: Seq<Ride>|
                        #![trigger rides_csv(cand)]
                        (forall|k: int| 0 <= k < cand.len() ==> (#[trigger] cand[k]).valid())
                            && rides_csv(cand) == s@ implies ({
                        let q = out@.len() as int;
                        &&& out@.push(ride).len() <= cand.len()
                        &&& next == rides_csv(cand.take(q + 1)).len()
                        &&& forall|k: int|
                            0 <= k < out@.push(ride).len() ==> ride_like(
                                #[trigger] out@.push(ride)[k],
                                cand[k],
                            )
                    }) by {
                        let q = out@.len() as int;
                        lemma_csv_next_row(s@, pos as int, q, cand);
                        assert forall|k: int| 0 <= k < out@.push(ride).len() implies ride_like(
                            #[trigger] out@.push(ride)[k],
                            cand[k],
                        ) by {
                            if k < q {
                                assert(out@.push(ride)[k] == out@[k]);
                            } else {
                                assert(out@.push(ride)[k] == ride);
                            }
                        }
                    }
                }
                out.push(ride);
                pos = next;
            },
            None => {
                proof {
                    assert forall|cand: Seq<Ride>|
                        #![trigger rides_csv(cand)]
                        (forall|k: int| 0 <= k < cand.len() ==> (#[trigger] cand[k]).valid())
                            && rides_csv(cand) == s@ implies false by {}
                }
                return Err(AppError::Other(String::from_str("malformed row")));
            },
        }
    }
    proof {
        assert(s@.subrange(0, n as int) =~= s@);
        assert forall|cand: Seq<Ride>|
            #![trigger rides_csv(cand)]
            (forall|k: int| 0 <= k < cand.len() ==> (#[trigger] cand[k]).valid()) && rides_csv(
                cand,
            ) == s@ implies (out@.len() == cand.len() && (forall|k: int|
            0 <= k < cand.len() ==> ride_like(#[trigger] out@[k], cand[k]))) by {
            let q = out@.len() as int;
            lemma_csv_next_row(s@, pos as int, q, cand);
            if q < cand.len() {
                assert(pos < n);
                assert(false);
            }
        }
    }
    Ok(out)
}

/// The ride a CSV row creates on import: a fresh id, the row's bike and
/// fields, never soft-deleted (the file's id and deletion time are not
/// imported).
pub open spec fn row_ride(next_id: int, row: Ride) -> Ride {
    Ride {
        id: next_id as i64,
        date: row.date,
        distance: row.distance,
        description: row.description,
        deleted_at: None,
        bike_id: row.bike_id,
        strava_ride: row.strava_ride,
    }
}

/// Importing rows inserts each as a new ride, in order, without any
/// deduplication: importing a file twice doubles the rides, by design.
pub open spec fn spec_insert_rows(rides: Seq<Ride>, next_id: int, rows: Seq<Ride>) -> (
    Seq<Ride>,
    int,
)
    decreases rows.len(),
{
    if rows.len() == 0 {
        (rides, next_id)
    } else {
        spec_insert_rows(rides.push(row_ride(next_id, rows[0])), next_id + 1, rows.drop_first())
    }
}

/// Inserting rows advances the id counter by exactly one per row.
proof fn lemma_insert_rows_count(rides: Seq<Ride>, next_id: int, rows: Seq<Ride>)
    ensures
        spec_insert_rows(rides, next_id, rows).1 == next_id + rows.len(),
    decreases rows.len(),
{
    if rows.len() > 0 {
        lemma_insert_rows_count(
            rides.push(row_ride(next_id, rows[0])),
            next_id + 1,
            rows.drop_first(),
        );
    }
}

proof fn lemma_insert_rows_snoc(rides: Seq<Ride>, next_id: int, rows: Seq<Ride>, y: Ride)
    ensures
        spec_insert_rows(rides, next_id, rows.push(y)).0 == spec_insert_rows(
            rides,
            next_id,
            rows,
        ).0.push(row_ride(spec_insert_rows(rides, next_id, rows).1, y)),
        spec_insert_rows(rides, next_id, rows.push(y)).1 == spec_insert_rows(
            rides,
            next_id,
            rows,
        ).1 + 1,
    decreases rows.len(),
{
    if rows.len() == 0 {
        assert(rows.push(y)[0] == y);
        assert(rows.push(y).drop_first() =~= rows);
        let pushed = rides.push(row_ride(next_id, y));
        assert(spec_insert_rows(pushed, next_id + 1, rows).0 == pushed);
        assert(spec_insert_rows(rides, next_id, rows).0 == rides);
    } else {
        assert(rows.push(y)[0] == rows[0]);
        assert(rows.push(y).drop_first() =~= rows.drop_first().push(y));
        lemma_insert_rows_snoc(
            rides.push(row_ride(next_id, rows[0])),
            next_id + 1,
            rows.drop_first(),
            y,
        );
    }
}

/// Insert parsed rows into the store, in order. No dedup happens here:
/// re-importing an export duplicates its rides. Succeeds exactly when
/// the id space has room for every row.
pub fn import_rows(store: &mut RideStore, rows: &Vec<Ride>) -> (r: AppResult<()>)
    requires
        old(store).wf(),
        forall|k: int| 0 <= k < rows@.len() ==> (#[trigger] rows@[k]).valid(),
    ensures
        final(store).wf(),
        r is Ok <==> old(store).next_id + rows@.len() <= i64::MAX,
        r is Ok ==> {
            &&& final(store).rides@ == spec_insert_rows(
                old(store).rides@,
                old(store).next_id as int,
                rows@,
            ).0
            &&& final(store).next_id == spec_insert_rows(
                old(store).rides@,
                old(store).next_id as int,
                rows@,
            ).1
        },
        r matches Err(e) ==> e is Database,
{
    let n = rows.len();
    let mut i: usize = 0;
    while i < n
        invariant
            store.wf(),
            n == rows@.len(),
            forall|k: int| 0 <= k < rows@.len() ==> (#[trigger] rows@[k]).valid(),
            0 <= i <= n,
            store.rides@ == spec_insert_rows(
                old(store).rides@,
                old(store).next_id as int,
                rows@.take(i as int),
            ).0,
            store.next_id == spec_insert_rows(
                old(store).rides@,
                old(store).next_id as int,
                rows@.take(i as int),
            ).1,
        decreases n - i,
    {
        proof {
            assert(rows@.take(i as int + 1) =~= rows@.take(i as int).push(rows@[i as int]));
            lemma_insert_rows_snoc(
                old(store).rides@,
                old(store).next_id as int,
                rows@.take(i as int),
                rows@[i as int],
            );
        }
        let row = &rows[i];
        let partial = crate::rides::RidePartial {
            date: row.date,
            distance: row.distance,
            description: crate::text::clone_opt_string(&row.description),
            strava_ride: row.strava_ride,
        };
        match store.create(row.bike_id, &partial) {
            Ok(_) => {},
            Err(e) => {
                proof {
                    lemma_insert_rows_count(
                        old(store).rides@,
                        old(store).next_id as int,
                        rows@.take(i as int),
                    );
                }
                return Err(e);
            },
        }
        i += 1;
    }
    proof {
        assert(rows@.take(n as int) =~= rows@);
        lemma_insert_rows_count(old(store).rides@, old(store).next_id as int, rows@);
    }
    Ok(())
}

/// The import route: read a CSV file and insert every row. It succeeds
/// exactly when the file is a canonical rendering of some rows and the
/// id space has room for them.
pub fn import_data(store: &mut RideStore, content: &str) -> (r: AppResult<()>)
    requires
        old(store).wf(),
    ensures
        final(store).wf(),
        r is Ok <==> exists|cand: Seq<Ride>|
            #![trigger rides_csv(cand)]
            (forall|k: int| 0 <= k < cand.len() ==> (#[trigger] cand[k]).valid()) && rides_csv(
                cand,
            ) == content@ && old(store).next_id + cand.len() <= i64::MAX,
        r is Ok ==> exists|cand: Seq<Ride>|
            {
                &&& rides_csv(cand) == content@
                &&& final(store).rides@ == spec_insert_rows(
                    old(store).rides@,
                    old(store).next_id as int,
                    cand,
                ).0
                &&& final(store).next_id == spec_insert_rows(
                    old(store).rides@,
                    old(store).next_id as int,
                    cand,
                ).1
            },
        r matches Err(e) ==> e is Other || e is Database,
{
    let rows = match parse_rides_csv(content) {
        Ok(rows) => rows,
        Err(e) => {
            proof {
                assert forall|cand: Seq<Ride>|
                    #![trigger rides_csv(cand)]
                    !((forall|k: int| 0 <= k < cand.len() ==> (#[trigger] cand[k]).valid())
                        && rides_csv(cand) == content@ && old(store).next_id + cand.len()
                        <= i64::MAX) by {}
            }
            return Err(e);
        },
    };
    match import_rows(store, &rows) {
        Ok(()) => {
            proof {
                let ghost w = rows@;
                assert({
                    &&& (forall|k: int| 0 <= k < w.len() ==> (#[trigger] w[k]).valid())
                    &&& rides_csv(w) == content@
                    &&& old(store).next_id + w.len() <= i64::MAX
                    &&& final(store).rides@ == spec_insert_rows(
                        old(store).rides@,
                        old(store).next_id as int,
                        w,
                    ).0
                    &&& final(store).next_id == spec_insert_rows(
                        old(store).rides@,
                        old(store).next_id as int,
                        w,
                    ).1
                });
            }
            Ok(())
        },
        Err(e) => {
            proof {
                assert forall|cand: Seq<Ride>|
                    #![trigger rides_csv(cand)]
                    !((forall|k: int| 0 <= k < cand.len() ==> (#[trigger] cand[k]).valid())
                        && rides_csv(cand) == content@ && old(store).next_id + cand.len()
                        <= i64::MAX) by {
                    if (forall|k: int| 0 <= k < cand.len() ==> (#[trigger] cand[k]).valid())
                        && rides_csv(cand) == content@ && old(store).next_id + cand.len()
                        <= i64::MAX {
                        assert(rows@.len() == cand.len());
                    }
                }
            }
            Err(e)
        },
    }
}

} // verus!
