//! Rows by local calendar day.
//!
//! A day is a date text; the host's calendar says which date each row has.
//! [`days_of`] groups the rows of a window by date, and [`distinct_minutes`]
//! counts the sample minutes of a day on which the air was damp.

use crate::double::Double;
use crate::table::{in_time_order, Stamped};
use crate::text::{before, comes_before, law_text_order_is_transitive, law_texts_are_ordered};
use vstd::prelude::*;

verus! {

/// The rows of one day.
pub struct DayRows {
    /// Local date as `YYYY-MM-DD`.
    pub date: String,
    /// The places of its rows in the table, in table order.
    pub rows: Vec<usize>,
}

/// Whether row `i` is at or after `from_ts` and has this date.
pub open spec fn of_day<T: Stamped>(
    rows: Seq<T>,
    dates: Seq<String>,
    from_ts: i64,
    date: Seq<char>,
    i: int,
) -> bool {
    rows[i].stamp() >= from_ts && dates[i]@ == date
}

/// The places, among the first `n` rows, of those at or after `from_ts` that
/// have this date.
pub open spec fn day_rows<T: Stamped>(
    rows: Seq<T>,
    dates: Seq<String>,
    from_ts: i64,
    date: Seq<char>,
    n: nat,
) -> Seq<usize>
    decreases n,
{
    if n == 0 {
        Seq::empty()
    } else {
        let earlier = day_rows(rows, dates, from_ts, date, (n - 1) as nat);
        if of_day(rows, dates, from_ts, date, n - 1) {
            earlier.push((n - 1) as usize)
        } else {
            earlier
        }
    }
}

/// Whether a day has this date.
pub open spec fn has_day(days: Seq<DayRows>, date: Seq<char>) -> bool {
    exists|d: int| 0 <= d < days.len() && (#[trigger] days[d]).date@ == date
}

/// Whether these are the days of the first `n` rows at or after `from_ts`:
/// in date order, none of them empty, each with all its rows, and one for
/// every row.
pub open spec fn is_days<T: Stamped>(
    days: Seq<DayRows>,
    rows: Seq<T>,
    dates: Seq<String>,
    from_ts: i64,
    n: nat,
) -> bool {
    &&& forall|c: int, d: int|
        0 <= c < d < days.len() ==> comes_before(
            (#[trigger] days[c]).date@,
            (#[trigger] days[d]).date@,
        )
    &&& forall|d: int|
        #![trigger days[d]]
        0 <= d < days.len() ==> {
            &&& days[d].rows@ == day_rows(rows, dates, from_ts, days[d].date@, n)
            &&& days[d].rows@.len() > 0
        }
    &&& forall|i: int|
        #![trigger rows[i]]
        0 <= i < n && rows[i].stamp() >= from_ts ==> has_day(days, dates[i]@)
}

/// The places of a day's rows are increasing places of rows of that day, and
/// every such row is among them.
pub proof fn lemma_day_rows<T: Stamped>(
    rows: Seq<T>,
    dates: Seq<String>,
    from_ts: i64,
    date: Seq<char>,
    n: nat,
)
    requires
        n <= rows.len(),
        rows.len() <= usize::MAX,
    ensures
        day_rows(rows, dates, from_ts, date, n).len() <= n,
        forall|k: int|
            0 <= k < day_rows(rows, dates, from_ts, date, n).len() ==> {
                &&& (#[trigger] day_rows(rows, dates, from_ts, date, n)[k]) < n
                &&& of_day(
                    rows,
                    dates,
                    from_ts,
                    date,
                    day_rows(rows, dates, from_ts, date, n)[k] as int,
                )
            },
        forall|j: int, k: int|
            0 <= j < k < day_rows(rows, dates, from_ts, date, n).len() ==> (#[trigger] day_rows(
                rows,
                dates,
                from_ts,
                date,
                n,
            )[j]) < (#[trigger] day_rows(rows, dates, from_ts, date, n)[k]),
        forall|i: int|
            0 <= i < n && of_day(rows, dates, from_ts, date, i) ==> #[trigger] day_rows(
                rows,
                dates,
                from_ts,
                date,
                n,
            ).contains(i as usize),
    decreases n,
{
    if n > 0 {
        let m = (n - 1) as nat;
        lemma_day_rows(rows, dates, from_ts, date, m);
        let earlier = day_rows(rows, dates, from_ts, date, m);
        let all = day_rows(rows, dates, from_ts, date, n);
        assert forall|i: int| 0 <= i < n && of_day(rows, dates, from_ts, date, i) implies
            #[trigger] all.contains(i as usize) by {
            if i < m {
                assert(earlier.contains(i as usize));
                let k = choose|k: int| 0 <= k < earlier.len() && earlier[k] == i as usize;
                assert(all[k] == i as usize);
            } else {
                assert(all[all.len() - 1] == i as usize);
            }
        }
    }
}

proof fn lemma_day_is_new<T: Stamped>(
    days: Seq<DayRows>,
    rows: Seq<T>,
    dates: Seq<String>,
    from_ts: i64,
    date: Seq<char>,
    n: nat,
)
    requires
        n <= rows.len(),
        forall|i: int|
            #![trigger rows[i]]
            0 <= i < n && rows[i].stamp() >= from_ts ==> has_day(days, dates[i]@),
        !has_day(days, date),
    ensures
        day_rows(rows, dates, from_ts, date, n) == Seq::<usize>::empty(),
    decreases n,
{
    if n > 0 {
        lemma_day_is_new(days, rows, dates, from_ts, date, (n - 1) as nat);
        assert(!of_day(rows, dates, from_ts, date, n - 1)) by {
            if of_day(rows, dates, from_ts, date, n - 1) {
                assert(rows[n - 1].stamp() >= from_ts);
                assert(has_day(days, dates[n - 1]@));
            }
        }
    }
}

/// Groups the rows at or after `from_ts` by date.
pub fn days_of<T: Stamped>(rows: &Vec<T>, dates: &Vec<String>, from_ts: i64) -> (days: Vec<DayRows>)
    requires
        dates.len() == rows.len(),
    ensures
        is_days(days@, rows@, dates@, from_ts, rows@.len()),
{
    let mut days: Vec<DayRows> = Vec::new();
    let mut n: usize = 0;
    while n < rows.len()
        invariant
            n <= rows.len(),
            dates.len() == rows.len(),
            is_days(days@, rows@, dates@, from_ts, n as nat),
        decreases rows.len() - n,
    {
        if rows[n].timestamp() >= from_ts {
            add_row(&mut days, rows, dates, from_ts, n);
        } else {
            proof {
                assert forall|i: int|
                    #![trigger rows@[i]]
                    0 <= i < n + 1 && rows@[i].stamp() >= from_ts implies has_day(
                    days@,
                    dates@[i]@,
                ) by {
                }
            }
        }
        n = n + 1;
    }
    days
}

fn add_row<T: Stamped>(
    days: &mut Vec<DayRows>,
    rows: &Vec<T>,
    dates: &Vec<String>,
    from_ts: i64,
    n: usize,
)
    requires
        n < rows.len(),
        dates.len() == rows.len(),
        rows@[n as int].stamp() >= from_ts,
        is_days(old(days)@, rows@, dates@, from_ts, n as nat),
    ensures
        is_days(final(days)@, rows@, dates@, from_ts, n as nat + 1),
{
    let ghost old_days = days@;
    let ghost date = dates@[n as int]@;
    let mut at: usize = days.len();
    while at > 0 && before(dates[n].as_str(), days[at - 1].date.as_str())
        invariant
            at <= days.len(),
            n < dates.len(),
            days@ == old_days,
            date == dates@[n as int]@,
            forall|d: int| at <= d < days.len() ==> comes_before(date, (#[trigger] days@[d]).date@),
        decreases at,
    {
        at = at - 1;
    }
    proof {
        assert forall|d: int| 0 <= d < at - 1 implies comes_before(
            (#[trigger] old_days[d]).date@,
            date,
        ) by {
            let top = old_days[at - 1].date@;
            law_texts_are_ordered(date, top);
            law_texts_are_ordered(top, date);
            assert(comes_before(old_days[d].date@, top));
            if top != date {
                law_text_order_is_transitive(old_days[d].date@, top, date);
            }
        }
        if at > 0 {
            law_texts_are_ordered(date, old_days[at - 1].date@);
            law_texts_are_ordered(old_days[at - 1].date@, date);
        }
        assert forall|d: int| 0 <= d < old_days.len() && d != at - 1 implies (
        #[trigger] old_days[d]).date@ != date by {
            law_texts_are_ordered(date, old_days[d].date@);
            law_texts_are_ordered(old_days[d].date@, date);
        }
        assert forall|d: int| 0 <= d < old_days.len() && (#[trigger] old_days[d]).date@
            != date implies day_rows(rows@, dates@, from_ts, old_days[d].date@, n as nat + 1)
            == old_days[d].rows@ by {
        }
    }
    if at > 0 && days[at - 1].date == dates[n] {
        days[at - 1].rows.push(n);
        proof {
            assert(days@[at - 1].rows@ == old_days[at - 1].rows@.push(n));
            assert(forall|d: int|
                0 <= d < old_days.len() ==> (#[trigger] days@[d]).date == old_days[d].date);
            assert(forall|d: int|
                0 <= d < old_days.len() && d != at - 1 ==> (#[trigger] days@[d]) == old_days[d]);
        }
    } else {
        let mut places: Vec<usize> = Vec::new();
        places.push(n);
        days.insert(at, DayRows { date: dates[n].clone(), rows: places });
        proof {
            assert(!has_day(old_days, date)) by {
                if has_day(old_days, date) {
                    let d = choose|d: int|
                        0 <= d < old_days.len() && (#[trigger] old_days[d]).date@ == date;
                    assert(d == at - 1);
                }
            }
            lemma_day_is_new(old_days, rows@, dates@, from_ts, date, n as nat);
            old_days.insert_ensures(at as int, days@[at as int]);
            assert(days@[at as int].rows@ =~= seq![n]);
            assert(day_rows(rows@, dates@, from_ts, date, n as nat + 1) =~= seq![n]);
            assert(forall|d: int| 0 <= d < at ==> (#[trigger] days@[d]) == old_days[d]);
            assert(forall|d: int| at < d < days.len() ==> (#[trigger] days@[d]) == old_days[d - 1]);
        }
    }
    proof {
        let m = n as nat + 1;
        assert forall|i: int|
            #![trigger rows@[i]]
            0 <= i < m && rows@[i].stamp() >= from_ts implies has_day(days@, dates@[i]@) by {
            if i < n {
                assert(has_day(old_days, dates@[i]@));
                let d = choose|d: int|
                    0 <= d < old_days.len() && (#[trigger] old_days[d]).date@ == dates@[i]@;
                if days.len() == old_days.len() {
                    assert(days@[d].date@ == dates@[i]@);
                } else if d < at {
                    assert(days@[d].date@ == dates@[i]@);
                } else {
                    assert(days@[d + 1].date@ == dates@[i]@);
                }
            } else {
                let d = if days.len() == old_days.len() {
                    at - 1
                } else {
                    at as int
                };
                assert(days@[d].date@ == dates@[i]@);
            }
        }
    }
}

/// The minute that holds a time.
pub open spec fn minute(ts: i64) -> int {
    ts as int / 60
}

/// The minute that holds a time.
pub fn minute_of(ts: i64) -> (m: i64)
    ensures
        m == minute(ts),
{
    if ts >= 0 {
        (ts as u64 / 60) as i64
    } else {
        let back: u64 = (-(ts + 1)) as u64 / 60;
        -(back as i64) - 1
    }
}

/// The minutes, of the rows at these places, in which the spread was a
/// number below `limit`.
pub open spec fn flagged_minutes<T: Stamped>(
    rows: Seq<T>,
    spreads: Seq<Double>,
    places: Seq<usize>,
    limit: Double,
) -> Set<int>
    decreases places.len(),
{
    if places.len() == 0 {
        Set::empty()
    } else {
        let earlier = flagged_minutes(rows, spreads, places.drop_last(), limit);
        let i = places.last() as int;
        if spreads[i].below(limit) {
            earlier.insert(minute(rows[i].stamp()))
        } else {
            earlier
        }
    }
}

/// There are finitely many flagged minutes, no more than rows, and fewer rows
/// flag no other minutes.
pub proof fn lemma_flagged_minutes<T: Stamped>(
    rows: Seq<T>,
    spreads: Seq<Double>,
    places: Seq<usize>,
    limit: Double,
    k: int,
)
    requires
        0 <= k <= places.len(),
    ensures
        flagged_minutes(rows, spreads, places, limit).finite(),
        flagged_minutes(rows, spreads, places, limit).len() <= places.len(),
        flagged_minutes(rows, spreads, places.take(k), limit).subset_of(
            flagged_minutes(rows, spreads, places, limit),
        ),
    decreases places.len(),
{
    if k == places.len() {
        assert(places.take(k) =~= places);
        if places.len() > 0 {
            lemma_flagged_minutes(rows, spreads, places.drop_last(), limit, k - 1);
        }
    } else {
        lemma_flagged_minutes(rows, spreads, places.drop_last(), limit, k);
        assert(places.drop_last().take(k) =~= places.take(k));
    }
}

/// Counts the distinct minutes of the rows at these places in which the
/// spread was a number below `limit`.
pub fn distinct_minutes<T: Stamped>(
    rows: &Vec<T>,
    spreads: &Vec<Double>,
    places: &Vec<usize>,
    limit: Double,
) -> (count: u32)
    requires
        in_time_order(rows@),
        spreads.len() == rows.len(),
        flagged_minutes(rows@, spreads@, places@, limit).len() <= u32::MAX,
        forall|k: int| 0 <= k < places.len() ==> (#[trigger] places@[k]) < rows.len(),
        forall|j: int, k: int|
            0 <= j < k < places.len() ==> (#[trigger] places@[j]) < (#[trigger] places@[k]),
    ensures
        count == flagged_minutes(rows@, spreads@, places@, limit).len(),
        flagged_minutes(rows@, spreads@, places@, limit).finite(),
{
    let mut count: u32 = 0;
    let mut last: i64 = i64::MIN;
    let mut n: usize = 0;
    proof {
        assert(places@.take(0) =~= Seq::empty());
    }
    while n < places.len()
        invariant
            n <= places.len(),
            in_time_order(rows@),
            spreads.len() == rows.len(),
            flagged_minutes(rows@, spreads@, places@, limit).len() <= u32::MAX,
            forall|k: int| 0 <= k < places.len() ==> (#[trigger] places@[k]) < rows.len(),
            forall|j: int, k: int|
                0 <= j < k < places.len() ==> (#[trigger] places@[j]) < (#[trigger] places@[k]),
            flagged_minutes(rows@, spreads@, places@.take(n as int), limit).finite(),
            count == flagged_minutes(rows@, spreads@, places@.take(n as int), limit).len(),
            last != i64::MIN ==> flagged_minutes(
                rows@,
                spreads@,
                places@.take(n as int),
                limit,
            ).contains(last as int),
            forall|m: int|
                #[trigger] flagged_minutes(
                    rows@,
                    spreads@,
                    places@.take(n as int),
                    limit,
                ).contains(m) ==> m <= last,
            n > 0 ==> last <= minute(rows@[places@[n - 1] as int].stamp()),
            n == 0 ==> last == i64::MIN,
        decreases places.len() - n,
    {
        let i: usize = places[n];
        let ts: i64 = rows[i].timestamp();
        let now: i64 = minute_of(ts);
        let ghost seen = flagged_minutes(rows@, spreads@, places@.take(n as int), limit);
        proof {
            let next = places@.take(n + 1);
            assert(next.drop_last() =~= places@.take(n as int));
            assert(next.last() == i);
            if n > 0 {
                assert(places@[n - 1] < places@[n as int]);
                assert(rows@[places@[n - 1] as int].stamp() <= rows@[i as int].stamp());
            }
            assert(last <= now);
            assert(seen.contains(now as int) ==> last == now);
            assert(last == now ==> seen.contains(now as int));
            lemma_flagged_minutes(rows@, spreads@, places@, limit, n + 1);
            vstd::set_lib::lemma_len_subset(
                flagged_minutes(rows@, spreads@, next, limit),
                flagged_minutes(rows@, spreads@, places@, limit),
            );
        }
        if spreads[i].lt(limit) && now != last {
            count = count + 1;
            last = now;
        } else {
            proof {
                if spreads@[i as int].below(limit) {
                    assert(seen.insert(now as int) =~= seen);
                }
            }
        }
        n = n + 1;
    }
    proof {
        assert(places@.take(n as int) =~= places@);
    }
    count
}

} // verus!
