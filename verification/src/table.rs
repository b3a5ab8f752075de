//! Rows in time order, and the time buckets they fall into.
//!
//! A table is a sequence of rows sorted by timestamp, rows of one timestamp
//! in the order in which they were stored. History is served in buckets:
//! [`bucketed`] groups the rows of a window so that the dashboard payload
//! stays bounded no matter how large the window is.

use crate::rows::{Event, OutdoorReading, Reading};
use vstd::prelude::*;

verus! {

/// A row with a timestamp.
pub trait Stamped: Sized {
    /// Unix timestamp in seconds.
    spec fn stamp(&self) -> i64;

    /// Unix timestamp in seconds.
    fn timestamp(&self) -> (ts: i64)
        ensures
            ts == self.stamp(),
    ;
}

impl Stamped for Reading {
    open spec fn stamp(&self) -> i64 {
        self.ts
    }

    fn timestamp(&self) -> (ts: i64) {
        self.ts
    }
}

impl Stamped for OutdoorReading {
    open spec fn stamp(&self) -> i64 {
        self.ts
    }

    fn timestamp(&self) -> (ts: i64) {
        self.ts
    }
}

impl Stamped for Event {
    open spec fn stamp(&self) -> i64 {
        self.ts
    }

    fn timestamp(&self) -> (ts: i64) {
        self.ts
    }
}

/// Whether the rows are in time order.
pub open spec fn in_time_order<T: Stamped>(rows: Seq<T>) -> bool {
    forall|i: int, j: int|
        0 <= i <= j < rows.len() ==> (#[trigger] rows[i]).stamp() <= (#[trigger] rows[j]).stamp()
}

/// Where a row of time `ts` goes: behind the last row that is not later.
pub open spec fn place<T: Stamped>(rows: Seq<T>, ts: i64) -> int
    decreases rows.len(),
{
    if rows.len() == 0 || rows.last().stamp() <= ts {
        rows.len() as int
    } else {
        place(rows.drop_last(), ts)
    }
}

/// The table with one more row.
pub open spec fn placed<T: Stamped>(rows: Seq<T>, row: T) -> Seq<T> {
    rows.insert(place(rows, row.stamp()), row)
}

proof fn lemma_place<T: Stamped>(rows: Seq<T>, ts: i64)
    requires
        in_time_order(rows),
    ensures
        0 <= place(rows, ts) <= rows.len(),
        forall|i: int| 0 <= i < place(rows, ts) ==> (#[trigger] rows[i]).stamp() <= ts,
        forall|i: int| place(rows, ts) <= i < rows.len() ==> (#[trigger] rows[i]).stamp() > ts,
    decreases rows.len(),
{
    if rows.len() > 0 && rows.last().stamp() > ts {
        let front = rows.drop_last();
        assert forall|i: int, j: int| 0 <= i <= j < front.len() implies (
        #[trigger] front[i]).stamp() <= (#[trigger] front[j]).stamp() by {
            assert(front[i] == rows[i] && front[j] == rows[j]);
        }
        lemma_place(front, ts);
        assert forall|i: int| 0 <= i < place(rows, ts) implies (#[trigger] rows[i]).stamp()
            <= ts by {
            assert(rows[i] == front[i]);
        }
        assert forall|i: int| place(rows, ts) <= i < rows.len() implies (#[trigger] rows[i]).stamp()
            > ts by {
            if i < front.len() {
                assert(rows[i] == front[i]);
            }
        }
    }
}

/// A table with one more row is in time order, keeps its other rows in their
/// order, and holds the new row behind every row that is not later and in
/// front of every row that is.
pub proof fn law_placed_keeps_time_order<T: Stamped>(rows: Seq<T>, row: T)
    requires
        in_time_order(rows),
    ensures
        0 <= place(rows, row.stamp()) <= rows.len(),
        in_time_order(placed(rows, row)),
        placed(rows, row).len() == rows.len() + 1,
        placed(rows, row).remove(place(rows, row.stamp())) == rows,
        placed(rows, row)[place(rows, row.stamp())] == row,
        forall|i: int|
            0 <= i < place(rows, row.stamp()) ==> (#[trigger] rows[i]).stamp() <= row.stamp(),
        forall|i: int|
            place(rows, row.stamp()) <= i < rows.len() ==> (#[trigger] rows[i]).stamp()
                > row.stamp(),
{
    lemma_place(rows, row.stamp());
    let p = place(rows, row.stamp());
    let all = placed(rows, row);
    rows.insert_ensures(p, row);
    assert(all.remove(p) =~= rows);
    assert forall|i: int, j: int| 0 <= i <= j < all.len() implies (#[trigger] all[i]).stamp() <= (
    #[trigger] all[j]).stamp() by {
        let a = if i < p {
            rows[i]
        } else if i == p {
            row
        } else {
            rows[i - 1]
        };
        let b = if j < p {
            rows[j]
        } else if j == p {
            row
        } else {
            rows[j - 1]
        };
        assert(all[i] == a && all[j] == b);
    }
}

/// Two rows of different times give one table, whichever is stored first.
pub proof fn law_order_of_storing_is_immaterial<T: Stamped>(rows: Seq<T>, a: T, b: T)
    requires
        in_time_order(rows),
        a.stamp() != b.stamp(),
    ensures
        placed(placed(rows, a), b) == placed(placed(rows, b), a),
{
    if a.stamp() < b.stamp() {
        lemma_store_earlier_later(rows, a, b);
    } else {
        lemma_store_earlier_later(rows, b, a);
    }
}

#[verifier::spinoff_prover]
proof fn lemma_store_earlier_later<T: Stamped>(rows: Seq<T>, a: T, b: T)
    requires
        in_time_order(rows),
        a.stamp() < b.stamp(),
    ensures
        placed(placed(rows, a), b) == placed(placed(rows, b), a),
{
    let (p, q) = (place(rows, a.stamp()), place(rows, b.stamp()));
    let (ra, rb) = (placed(rows, a), placed(rows, b));
    law_placed_keeps_time_order(rows, a);
    law_placed_keeps_time_order(rows, b);
    rows.insert_ensures(p, a);
    rows.insert_ensures(q, b);
    lemma_place(ra, b.stamp());
    lemma_place(rb, a.stamp());
    assert(p <= q) by {
        if q < p {
            assert(rows[q].stamp() <= a.stamp());
        }
    }
    let pb = place(ra, b.stamp());
    let pa = place(rb, a.stamp());
    assert(pb == q + 1) by {
        if pb < q + 1 {
            let x = ra[pb];
            assert(x.stamp() > b.stamp());
            if pb < p {
                assert(x == rows[pb]);
            } else if pb > p {
                assert(x == rows[pb - 1]);
            }
        } else if pb > q + 1 {
            let x = ra[q + 1];
            assert(x.stamp() <= b.stamp());
            assert(x == rows[q]);
        }
    }
    assert(pa == p) by {
        if pa < p {
            assert(rb[pa] == rows[pa]);
        } else if pa > p {
            let x = rb[p];
            assert(x.stamp() <= a.stamp());
            if p < q {
                assert(x == rows[p]);
            }
        }
    }
    assert(placed(ra, b) =~= placed(rb, a));
}

/// Stores a row at its place.
pub fn store<T: Stamped>(rows: &mut Vec<T>, row: T)
    requires
        in_time_order(old(rows)@),
    ensures
        final(rows)@ == placed(old(rows)@, row),
        in_time_order(final(rows)@),
{
    let ts: i64 = row.timestamp();
    let mut at: usize = rows.len();
    proof {
        law_placed_keeps_time_order(rows@, row);
        assert(rows@.take(rows.len() as int) =~= rows@);
    }
    while at > 0 && rows[at - 1].timestamp() > ts
        invariant
            at <= rows.len(),
            rows@ == old(rows)@,
            place(rows@, ts) == place(rows@.take(at as int), ts),
        decreases at,
    {
        proof {
            let front = rows@.take(at as int);
            assert(front.last() == rows@[at - 1]);
            assert(front.drop_last() =~= rows@.take(at - 1));
        }
        at = at - 1;
    }
    proof {
        let front = rows@.take(at as int);
        if at > 0 {
            assert(front.last() == rows@[at - 1]);
        }
        assert(place(rows@, ts) == at);
    }
    rows.insert(at, row);
}

/// The start of the bucket of `width` seconds that holds `ts`: the multiple
/// of the width that is nearest to it on the side of 0.
pub open spec fn bucket_start(ts: int, width: int) -> int {
    if ts >= 0 {
        ts / width * width
    } else {
        -((-ts) / width * width)
    }
}

/// A bucket width that can be used: at least one second.
pub open spec fn usable_width(width: i64) -> i64 {
    if width < 1 {
        1
    } else {
        width
    }
}

/// The start of the bucket that holds `ts`.
pub fn bucket_of(ts: i64, width: i64) -> (start: i64)
    requires
        width >= 1,
    ensures
        start == bucket_start(ts as int, width as int),
{
    let w: u64 = width as u64;
    if ts >= 0 {
        let m: u64 = ts as u64;
        proof {
            lemma_round_down(m as int, w as int);
        }
        let down: u64 = m - m % w;
        down as i64
    } else {
        let m: u64 = (-(ts + 1)) as u64 + 1;
        proof {
            lemma_round_down(m as int, w as int);
        }
        let down: u64 = m - m % w;
        if down == 0x8000_0000_0000_0000 {
            i64::MIN
        } else {
            -(down as i64)
        }
    }
}

proof fn lemma_round_down(m: int, w: int)
    requires
        m >= 0,
        w > 0,
    ensures
        m - m % w == m / w * w,
        0 <= m / w * w <= m,
        0 <= m % w <= m,
{
    vstd::arithmetic::div_mod::lemma_fundamental_div_mod(m, w);
    vstd::arithmetic::mul::lemma_mul_is_commutative(w, m / w);
    assert(0 <= m % w);
    assert(m / w * w >= 0) by (nonlinear_arith)
        requires
            m >= 0,
            w > 0,
    ;
}

/// Rows of one bucket.
pub struct Bucket<T> {
    /// Bucket start as a Unix timestamp in seconds.
    pub ts: i64,
    /// The rows, in table order.
    pub rows: Vec<T>,
}

/// Whether a row is at or after `from_ts` and in the bucket that starts at `start`.
pub open spec fn belongs<T: Stamped>(row: T, from_ts: i64, width: i64, start: int) -> bool {
    row.stamp() >= from_ts && bucket_start(row.stamp() as int, width as int) == start
}

/// The rows at or after `from_ts` in the bucket that starts at `start`.
pub open spec fn members<T: Stamped>(rows: Seq<T>, from_ts: i64, width: i64, start: int) -> Seq<T> {
    rows.filter(|row: T| belongs(row, from_ts, width, start))
}

/// Whether these are the buckets of the rows at or after `from_ts`: in time
/// order, none of them empty, each with all its rows, and one for every row.
pub open spec fn is_bucketing<T: Stamped>(
    buckets: Seq<Bucket<T>>,
    rows: Seq<T>,
    from_ts: i64,
    width: i64,
) -> bool {
    &&& forall|i: int, j: int|
        0 <= i < j < buckets.len() ==> (#[trigger] buckets[i]).ts < (#[trigger] buckets[j]).ts
    &&& forall|i: int|
        #![trigger buckets[i]]
        0 <= i < buckets.len() ==> {
            &&& buckets[i].rows@ == members(rows, from_ts, width, buckets[i].ts as int)
            &&& buckets[i].rows@.len() > 0
        }
    &&& forall|k: int|
        #![trigger rows[k]]
        0 <= k < rows.len() && rows[k].stamp() >= from_ts ==> has_bucket(
            buckets,
            bucket_start(rows[k].stamp() as int, width as int),
        )
}

/// Whether a bucket starts at `start`.
pub open spec fn has_bucket<T>(buckets: Seq<Bucket<T>>, start: int) -> bool {
    exists|i: int| 0 <= i < buckets.len() && (#[trigger] buckets[i]).ts == start
}

proof fn lemma_quotients_increase(a: int, b: int, w: int)
    requires
        0 <= a <= b,
        w > 0,
    ensures
        a / w * w <= b / w * w,
{
    vstd::arithmetic::div_mod::lemma_div_is_ordered(a, b, w);
    assert(a / w * w <= b / w * w) by (nonlinear_arith)
        requires
            a / w <= b / w,
            w > 0,
    ;
}

/// A later time is never in an earlier bucket.
pub proof fn law_buckets_follow_time(a: int, b: int, width: int)
    requires
        a <= b,
        width >= 1,
    ensures
        bucket_start(a, width) <= bucket_start(b, width),
{
    if a >= 0 {
        lemma_quotients_increase(a, b, width);
    } else if b < 0 {
        lemma_quotients_increase(-b, -a, width);
    } else {
        lemma_round_down(-a, width);
        lemma_round_down(b, width);
    }
}

/// A bucket starts less than its width from each of its times, between the
/// time and 0; and it is the bucket of its own start.
pub proof fn law_bucket_start_is_near(ts: int, width: int)
    requires
        width >= 1,
    ensures
        ts >= 0 ==> 0 <= bucket_start(ts, width) <= ts < bucket_start(ts, width) + width,
        ts < 0 ==> bucket_start(ts, width) - width < ts <= bucket_start(ts, width) <= 0,
        bucket_start(bucket_start(ts, width), width) == bucket_start(ts, width),
        bucket_start(ts, width) % width == 0,
{
    let m = if ts >= 0 {
        ts
    } else {
        -ts
    };
    let q = m / width;
    lemma_round_down(m, width);
    vstd::arithmetic::div_mod::lemma_mod_bound(m, width);
    vstd::arithmetic::div_mod::lemma_div_multiples_vanish(q, width);
    vstd::arithmetic::mul::lemma_mul_is_commutative(q, width);
    vstd::arithmetic::div_mod::lemma_mod_multiples_basic(q, width);
    vstd::arithmetic::div_mod::lemma_mod_multiples_basic(-q, width);
    assert(-(q * width) == (-q) * width) by (nonlinear_arith);
    assert(q * width >= 0) by (nonlinear_arith)
        requires
            q >= 0,
            width >= 1,
    ;
    if ts < 0 && q * width == 0 {
        assert(0int / width == 0) by {
            vstd::arithmetic::div_mod::lemma_div_basics_1(width);
        }
    }
}

proof fn lemma_members_push<T: Stamped>(
    rows: Seq<T>,
    row: T,
    from_ts: i64,
    width: i64,
    start: int,
)
    ensures
        members(rows.push(row), from_ts, width, start) == if belongs(row, from_ts, width, start) {
            members(rows, from_ts, width, start).push(row)
        } else {
            members(rows, from_ts, width, start)
        },
{
    reveal(Seq::filter);
    assert(rows.push(row).drop_last() =~= rows);
}

proof fn lemma_no_members<T: Stamped>(rows: Seq<T>, from_ts: i64, width: i64, start: int)
    requires
        forall|k: int|
            0 <= k < rows.len() ==> !belongs(#[trigger] rows[k], from_ts, width, start),
    ensures
        members(rows, from_ts, width, start).len() == 0,
    decreases rows.len(),
{
    reveal(Seq::filter);
    if rows.len() > 0 {
        let front = rows.drop_last();
        assert forall|k: int| 0 <= k < front.len() implies !belongs(
            #[trigger] front[k],
            from_ts,
            width,
            start,
        ) by {
            assert(front[k] == rows[k]);
        }
        lemma_no_members(front, from_ts, width, start);
        assert(!belongs(rows[rows.len() - 1], from_ts, width, start));
    }
}

/// Groups the rows at or after `from_ts` into buckets of `width` seconds.
pub fn bucketed<T: Stamped + Copy>(rows: &Vec<T>, from_ts: i64, width: i64) -> (buckets: Vec<
    Bucket<T>,
>)
    requires
        in_time_order(rows@),
        width >= 1,
    ensures
        is_bucketing(buckets@, rows@, from_ts, width),
{
    let mut buckets: Vec<Bucket<T>> = Vec::new();
    let mut n: usize = 0;
    while n < rows.len()
        invariant
            n <= rows.len(),
            width >= 1,
            in_time_order(rows@),
            is_bucketing(buckets@, rows@.take(n as int), from_ts, width),
            forall|i: int|
                0 <= i < buckets.len() ==> exists|k: int|
                    0 <= k < n && (#[trigger] buckets@[i]).ts == bucket_start(
                        (#[trigger] rows@[k]).stamp() as int,
                        width as int,
                    ),
        decreases rows.len() - n,
    {
        let row: T = rows[n];
        let ts: i64 = row.timestamp();
        let ghost seen = rows@.take(n as int);
        let ghost before = buckets@;
        proof {
            assert(rows@.take(n + 1) =~= seen.push(row));
            assert forall|start: int| members(#[trigger] seen.push(row), from_ts, width, start)
                == if belongs(row, from_ts, width, start) {
                members(seen, from_ts, width, start).push(row)
            } else {
                members(seen, from_ts, width, start)
            } by {
                lemma_members_push(seen, row, from_ts, width, start);
            }
        }
        if ts >= from_ts {
            let start: i64 = bucket_of(ts, width);
            let last: usize = buckets.len();
            if last > 0 && buckets[last - 1].ts == start {
                buckets[last - 1].rows.push(row);
            } else {
                let mut group: Vec<T> = Vec::new();
                group.push(row);
                buckets.push(Bucket { ts: start, rows: group });
            }
        }
        proof {
            let after = buckets@;
            let now = seen.push(row);
            let start = bucket_start(ts as int, width as int);
            assert forall|i: int| 0 <= i < before.len() implies (#[trigger] before[i]).ts
                <= start by {
                let k = choose|k: int|
                    0 <= k < n && before[i].ts == bucket_start(
                        (#[trigger] rows@[k]).stamp() as int,
                        width as int,
                    );
                assert(rows@[k].stamp() <= rows@[n as int].stamp());
                law_buckets_follow_time(rows@[k].stamp() as int, ts as int, width as int);
            }
            assert forall|i: int|
                #![trigger before[i]]
                0 <= i < before.len() && (ts < from_ts || before[i].ts != start) implies members(
                now,
                from_ts,
                width,
                before[i].ts as int,
            ) == before[i].rows@ by {
                assert(!belongs(row, from_ts, width, before[i].ts as int));
            }
            if ts >= from_ts {
                let top = after.len() - 1;
                assert(after[top].ts == start);
                if after.len() == before.len() {
                    assert(after[top].rows@ == before[top].rows@.push(row));
                } else {
                    assert(!has_bucket(before, start)) by {
                        if has_bucket(before, start) {
                            let i = choose|i: int|
                                0 <= i < before.len() && (#[trigger] before[i]).ts == start;
                            assert(before[before.len() - 1].ts >= before[i].ts);
                        }
                    }
                    assert forall|k: int| 0 <= k < seen.len() implies !belongs(
                        #[trigger] seen[k],
                        from_ts,
                        width,
                        start,
                    ) by {
                    }
                    lemma_no_members(seen, from_ts, width, start);
                    assert(members(now, from_ts, width, start) =~= seq![row]);
                    assert(after[top].rows@ =~= seq![row]);
                }
                assert(forall|i: int|
                    0 <= i < before.len() ==> (#[trigger] after[i]).ts == before[i].ts);
                assert(forall|i: int|
                    0 <= i < top ==> (#[trigger] after[i]) == before[i]);
                assert forall|k: int|
                    #![trigger now[k]]
                    0 <= k < now.len() && now[k].stamp() >= from_ts implies has_bucket(
                    after,
                    bucket_start(now[k].stamp() as int, width as int),
                ) by {
                    let b = bucket_start(now[k].stamp() as int, width as int);
                    if k < seen.len() {
                        assert(now[k] == seen[k]);
                        assert(has_bucket(before, b));
                        let i = choose|i: int|
                            0 <= i < before.len() && (#[trigger] before[i]).ts == b;
                        assert(after[i].ts == b);
                    } else {
                        assert(after[top].ts == b);
                    }
                }
            } else {
                assert forall|k: int|
                    #![trigger now[k]]
                    0 <= k < now.len() && now[k].stamp() >= from_ts implies has_bucket(
                    after,
                    bucket_start(now[k].stamp() as int, width as int),
                ) by {
                    assert(now[k] == seen[k]);
                }
            }
            assert(is_bucketing(after, now, from_ts, width));
            assert forall|i: int| 0 <= i < after.len() implies exists|k: int|
                0 <= k < n + 1 && (#[trigger] after[i]).ts == bucket_start(
                    (#[trigger] rows@[k]).stamp() as int,
                    width as int,
                ) by {
                if i < before.len() {
                    assert(after[i].ts == before[i].ts);
                    let k = choose|k: int|
                        0 <= k < n && before[i].ts == bucket_start(
                            (#[trigger] rows@[k]).stamp() as int,
                            width as int,
                        );
                    assert(rows@[k].stamp() == rows@[k].stamp());
                } else {
                    assert(after[i].ts == bucket_start(rows@[n as int].stamp() as int, width as int));
                }
            }
        }
        n = n + 1;
    }
    proof {
        assert(rows@.take(n as int) =~= rows@);
    }
    buckets
}

proof fn lemma_members_are_rows<T: Stamped>(
    rows: Seq<T>,
    from_ts: i64,
    width: i64,
    start: int,
    j: int,
)
    requires
        0 <= j < members(rows, from_ts, width, start).len(),
    ensures
        belongs(members(rows, from_ts, width, start)[j], from_ts, width, start),
        rows.contains(members(rows, from_ts, width, start)[j]),
    decreases rows.len(),
{
    reveal(Seq::filter);
    if rows.len() > 0 {
        let front = rows.drop_last();
        let kept = members(front, from_ts, width, start);
        if j < kept.len() {
            lemma_members_are_rows(front, from_ts, width, start, j);
            let k = choose|k: int| 0 <= k < front.len() && front[k] == kept[j];
            assert(rows[k] == kept[j]);
        } else {
            assert(rows[rows.len() - 1] == members(rows, from_ts, width, start)[j]);
        }
    }
}

/// Every row at or after the start of the window is in exactly one bucket,
/// that of its time, and a bucket holds no other rows.
pub proof fn law_every_row_is_in_one_bucket<T: Stamped>(
    buckets: Seq<Bucket<T>>,
    rows: Seq<T>,
    from_ts: i64,
    width: i64,
)
    requires
        is_bucketing(buckets, rows, from_ts, width),
    ensures
        forall|k: int|
            #![trigger rows[k]]
            0 <= k < rows.len() && rows[k].stamp() >= from_ts ==> exists|i: int|
                0 <= i < buckets.len() && (#[trigger] buckets[i]).rows@.contains(rows[k]),
        forall|i: int, j: int, row: T|
            0 <= i < buckets.len() && 0 <= j < buckets.len() && #[trigger] buckets[i].rows@.contains(
                row,
            ) && #[trigger] buckets[j].rows@.contains(row) ==> i == j,
        forall|i: int, row: T|
            0 <= i < buckets.len() && #[trigger] buckets[i].rows@.contains(row) ==> rows.contains(
                row,
            ) && belongs(row, from_ts, width, buckets[i].ts as int),
{
    assert forall|i: int, row: T|
        0 <= i < buckets.len() && #[trigger] buckets[i].rows@.contains(row) implies rows.contains(
        row,
    ) && belongs(row, from_ts, width, buckets[i].ts as int) by {
        let j = choose|j: int| 0 <= j < buckets[i].rows@.len() && buckets[i].rows@[j] == row;
        lemma_members_are_rows(rows, from_ts, width, buckets[i].ts as int, j);
    }
    assert forall|k: int|
        #![trigger rows[k]]
        0 <= k < rows.len() && rows[k].stamp() >= from_ts implies exists|i: int|
        0 <= i < buckets.len() && (#[trigger] buckets[i]).rows@.contains(rows[k]) by {
        let start = bucket_start(rows[k].stamp() as int, width as int);
        assert(has_bucket(buckets, start));
        let i = choose|i: int| 0 <= i < buckets.len() && (#[trigger] buckets[i]).ts == start;
        let pred = |row: T| belongs(row, from_ts, width, start);
        rows.lemma_filter_contains(pred, k);
        assert(buckets[i].rows@.contains(rows[k]));
    }
    assert forall|i: int, j: int, row: T|
        0 <= i < buckets.len() && 0 <= j < buckets.len() && #[trigger] buckets[i].rows@.contains(row)
            && #[trigger] buckets[j].rows@.contains(row) implies i == j by {
        assert(belongs(row, from_ts, width, buckets[i].ts as int));
        assert(belongs(row, from_ts, width, buckets[j].ts as int));
        if i < j {
            assert(buckets[i].ts < buckets[j].ts);
        } else if j < i {
            assert(buckets[j].ts < buckets[i].ts);
        }
    }
}

/// Time buckets are determined by the rows, the window and the width.
pub proof fn law_buckets_are_determined<T: Stamped>(
    a: Seq<Bucket<T>>,
    b: Seq<Bucket<T>>,
    rows: Seq<T>,
    from_ts: i64,
    width: i64,
)
    requires
        is_bucketing(a, rows, from_ts, width),
        is_bucketing(b, rows, from_ts, width),
    ensures
        a.len() == b.len(),
        forall|i: int|
            0 <= i < a.len() ==> (#[trigger] a[i]).ts == b[i].ts && a[i].rows@ == b[i].rows@,
{
    assert forall|i: int| 0 <= i < a.len() implies has_bucket(b, (#[trigger] a[i]).ts as int) by {
        lemma_start_is_shared(a, b, rows, from_ts, width, i);
    }
    assert forall|i: int| 0 <= i < b.len() implies has_bucket(a, (#[trigger] b[i]).ts as int) by {
        lemma_start_is_shared(b, a, rows, from_ts, width, i);
    }
    assert forall|i: int| 0 <= i < a.len() implies i < b.len() && (#[trigger] a[i]).ts
        == b[i].ts by {
        lemma_same_starts(a, b, i);
    }
    assert forall|i: int| 0 <= i < b.len() implies i < a.len() && (#[trigger] b[i]).ts
        == a[i].ts by {
        lemma_same_starts(b, a, i);
    }
    if a.len() < b.len() {
        lemma_same_starts(b, a, a.len() as int);
    } else if b.len() < a.len() {
        lemma_same_starts(a, b, b.len() as int);
    }
}

proof fn lemma_start_is_shared<T: Stamped>(
    a: Seq<Bucket<T>>,
    b: Seq<Bucket<T>>,
    rows: Seq<T>,
    from_ts: i64,
    width: i64,
    i: int,
)
    requires
        is_bucketing(a, rows, from_ts, width),
        is_bucketing(b, rows, from_ts, width),
        0 <= i < a.len(),
    ensures
        has_bucket(b, a[i].ts as int),
{
    lemma_members_are_rows(rows, from_ts, width, a[i].ts as int, 0);
    let row = a[i].rows@[0];
    let k = choose|k: int| 0 <= k < rows.len() && rows[k] == row;
    assert(rows[k].stamp() >= from_ts);
}

proof fn lemma_same_starts<T>(a: Seq<Bucket<T>>, b: Seq<Bucket<T>>, i: int)
    requires
        forall|i: int, j: int|
            0 <= i < j < a.len() ==> (#[trigger] a[i]).ts < (#[trigger] a[j]).ts,
        forall|i: int, j: int|
            0 <= i < j < b.len() ==> (#[trigger] b[i]).ts < (#[trigger] b[j]).ts,
        forall|i: int| 0 <= i < a.len() ==> has_bucket(b, (#[trigger] a[i]).ts as int),
        forall|i: int| 0 <= i < b.len() ==> has_bucket(a, (#[trigger] b[i]).ts as int),
        0 <= i < a.len(),
    ensures
        i < b.len(),
        a[i].ts == b[i].ts,
    decreases i,
{
    if i > 0 {
        lemma_same_starts(a, b, i - 1);
    }
    assert(has_bucket(b, a[i].ts as int));
    let j = choose|j: int| 0 <= j < b.len() && (#[trigger] b[j]).ts == a[i].ts;
    if j < i {
        lemma_same_starts(a, b, j);
        assert(a[j].ts < a[i].ts);
    } else if j > i {
        assert(b[i].ts < b[j].ts);
        assert(has_bucket(a, b[i].ts as int));
        let k = choose|k: int| 0 <= k < a.len() && (#[trigger] a[k]).ts == b[i].ts;
        if k >= i {
            if k > i {
                assert(a[i].ts < a[k].ts);
            }
        } else {
            lemma_same_starts(a, b, k);
            assert(b[k].ts < b[i].ts);
        }
    }
}

/// The number of buckets is bounded by the window and the width: rows from
/// `from_ts` to `until` give at most one bucket for each full width between
/// the two, and two more.
pub proof fn law_number_of_buckets_is_bounded<T: Stamped>(
    buckets: Seq<Bucket<T>>,
    rows: Seq<T>,
    from_ts: i64,
    until: i64,
    width: i64,
)
    requires
        is_bucketing(buckets, rows, from_ts, width),
        width >= 1,
        from_ts <= until,
        forall|k: int| 0 <= k < rows.len() ==> (#[trigger] rows[k]).stamp() <= until,
    ensures
        buckets.len() <= (until - from_ts) / width as int + 2,
{
    let w = width as int;
    if buckets.len() > 0 {
        let last = buckets.len() - 1;
        lemma_buckets_are_spaced(buckets, rows, from_ts, width, last);
        lemma_members_are_rows(rows, from_ts, width, buckets[0].ts as int, 0);
        lemma_members_are_rows(rows, from_ts, width, buckets[last].ts as int, 0);
        let first_row = buckets[0].rows@[0];
        let last_row = buckets[last].rows@[0];
        let k = choose|k: int| 0 <= k < rows.len() && rows[k] == last_row;
        assert(rows[k].stamp() <= until);
        law_bucket_start_is_near(first_row.stamp() as int, w);
        law_bucket_start_is_near(last_row.stamp() as int, w);
        assert(last * w < until - from_ts + w);
        let span = until - from_ts;
        vstd::arithmetic::div_mod::lemma_fundamental_div_mod(span, w);
        vstd::arithmetic::div_mod::lemma_mod_bound(span, w);
        assert(last < span / w + 2) by (nonlinear_arith)
            requires
                last * w < span + w,
                span == w * (span / w) + span % w,
                span % w < w,
                w > 0,
        ;
    }
}

proof fn lemma_buckets_are_spaced<T: Stamped>(
    buckets: Seq<Bucket<T>>,
    rows: Seq<T>,
    from_ts: i64,
    width: i64,
    i: int,
)
    requires
        is_bucketing(buckets, rows, from_ts, width),
        width >= 1,
        0 <= i < buckets.len(),
    ensures
        buckets[i].ts >= buckets[0].ts + i * width,
    decreases i,
{
    if i > 0 {
        lemma_buckets_are_spaced(buckets, rows, from_ts, width, i - 1);
        let w = width as int;
        let (a, b) = (buckets[i - 1].ts as int, buckets[i].ts as int);
        lemma_members_are_rows(rows, from_ts, width, a, 0);
        lemma_members_are_rows(rows, from_ts, width, b, 0);
        law_bucket_start_is_near(buckets[i - 1].rows@[0].stamp() as int, w);
        law_bucket_start_is_near(buckets[i].rows@[0].stamp() as int, w);
        vstd::arithmetic::div_mod::lemma_fundamental_div_mod(a, w);
        vstd::arithmetic::div_mod::lemma_fundamental_div_mod(b, w);
        assert(b - a >= w) by (nonlinear_arith)
            requires
                a < b,
                a == w * (a / w),
                b == w * (b / w),
                w > 0,
        ;
        assert(i * w == (i - 1) * w + w) by (nonlinear_arith);
    } else {
        assert(i * width == 0) by (nonlinear_arith)
            requires
                i == 0,
        ;
    }
}

/// Indoor and outdoor rows of one shared bucket.
pub struct SharedBucket<A, B> {
    /// Bucket start as a Unix timestamp in seconds.
    pub ts: i64,
    /// The indoor rows, in table order.
    pub indoor: Vec<A>,
    /// The outdoor rows, in table order.
    pub outdoor: Vec<B>,
}

/// Whether these are the buckets that both tables have rows in: in time
/// order, each with all its rows of both tables, none missing.
pub open spec fn is_join<A: Stamped, B: Stamped>(
    shared: Seq<SharedBucket<A, B>>,
    indoor: Seq<A>,
    outdoor: Seq<B>,
    from_ts: i64,
    width: i64,
) -> bool {
    &&& forall|i: int, j: int|
        0 <= i < j < shared.len() ==> (#[trigger] shared[i]).ts < (#[trigger] shared[j]).ts
    &&& forall|i: int|
        #![trigger shared[i]]
        0 <= i < shared.len() ==> {
            &&& shared[i].indoor@ == members(indoor, from_ts, width, shared[i].ts as int)
            &&& shared[i].outdoor@ == members(outdoor, from_ts, width, shared[i].ts as int)
            &&& shared[i].indoor@.len() > 0
            &&& shared[i].outdoor@.len() > 0
        }
    &&& forall|start: int|
        (#[trigger] members(indoor, from_ts, width, start)).len() > 0 && members(
            outdoor,
            from_ts,
            width,
            start,
        ).len() > 0 ==> has_shared_bucket(shared, start)
}

/// Whether a shared bucket starts at `start`.
pub open spec fn has_shared_bucket<A, B>(shared: Seq<SharedBucket<A, B>>, start: int) -> bool {
    exists|i: int| 0 <= i < shared.len() && (#[trigger] shared[i]).ts == start
}

fn copied<T: Copy>(rows: &Vec<T>) -> (copy: Vec<T>)
    ensures
        copy@ == rows@,
{
    let mut copy: Vec<T> = Vec::new();
    let mut n: usize = 0;
    while n < rows.len()
        invariant
            n <= rows.len(),
            copy@ == rows@.take(n as int),
        decreases rows.len() - n,
    {
        copy.push(rows[n]);
        proof {
            assert(rows@.take(n + 1) =~= rows@.take(n as int).push(rows@[n as int]));
        }
        n = n + 1;
    }
    proof {
        assert(rows@.take(n as int) =~= rows@);
    }
    copy
}

/// Groups the rows of two tables at or after `from_ts` into the buckets of
/// `width` seconds that both have rows in.
pub fn joined<A: Stamped + Copy, B: Stamped + Copy>(
    indoor: &Vec<A>,
    outdoor: &Vec<B>,
    from_ts: i64,
    width: i64,
) -> (shared: Vec<SharedBucket<A, B>>)
    requires
        in_time_order(indoor@),
        in_time_order(outdoor@),
        width >= 1,
    ensures
        is_join(shared@, indoor@, outdoor@, from_ts, width),
{
    let a = bucketed(indoor, from_ts, width);
    let b = bucketed(outdoor, from_ts, width);
    let mut shared: Vec<SharedBucket<A, B>> = Vec::new();
    let mut i: usize = 0;
    let mut j: usize = 0;
    while i < a.len() && j < b.len()
        invariant
            i <= a.len(),
            j <= b.len(),
            is_bucketing(a@, indoor@, from_ts, width),
            is_bucketing(b@, outdoor@, from_ts, width),
            forall|x: int, y: int|
                0 <= x < y < shared.len() ==> (#[trigger] shared@[x]).ts < (
                #[trigger] shared@[y]).ts,
            forall|x: int|
                #![trigger shared@[x]]
                0 <= x < shared.len() ==> {
                    &&& shared@[x].indoor@ == members(
                        indoor@,
                        from_ts,
                        width,
                        shared@[x].ts as int,
                    )
                    &&& shared@[x].outdoor@ == members(
                        outdoor@,
                        from_ts,
                        width,
                        shared@[x].ts as int,
                    )
                    &&& shared@[x].indoor@.len() > 0
                    &&& shared@[x].outdoor@.len() > 0
                    &&& i < a.len() ==> shared@[x].ts < a@[i as int].ts
                    &&& j < b.len() ==> shared@[x].ts < b@[j as int].ts
                },
            forall|x: int, y: int|
                #![trigger a@[x], b@[y]]
                0 <= x < a.len() && 0 <= y < b.len() && a@[x].ts == b@[y].ts && (x < i || y < j)
                    ==> has_shared_bucket(shared@, a@[x].ts as int),
        decreases a.len() - i + b.len() - j,
    {
        let ghost before = shared@;
        if a[i].ts < b[j].ts {
            proof {
                assert forall|x: int, y: int|
                    #![trigger a@[x], b@[y]]
                    0 <= x < a.len() && 0 <= y < b.len() && a@[x].ts == b@[y].ts && (x < i + 1 || y
                        < j) implies has_shared_bucket(shared@, a@[x].ts as int) by {
                    if x == i && y >= j {
                        if y > j {
                            assert(b@[j as int].ts < b@[y].ts);
                        }
                    }
                }
            }
            i = i + 1;
        } else if b[j].ts < a[i].ts {
            proof {
                assert forall|x: int, y: int|
                    #![trigger a@[x], b@[y]]
                    0 <= x < a.len() && 0 <= y < b.len() && a@[x].ts == b@[y].ts && (x < i || y < j
                        + 1) implies has_shared_bucket(shared@, a@[x].ts as int) by {
                    if y == j && x >= i {
                        if x > i {
                            assert(a@[i as int].ts < a@[x].ts);
                        }
                    }
                }
            }
            j = j + 1;
        } else {
            shared.push(
                SharedBucket {
                    ts: a[i].ts,
                    indoor: copied(&a[i].rows),
                    outdoor: copied(&b[j].rows),
                },
            );
            proof {
                let top = before.len() as int;
                assert(shared@[top].ts == a@[i as int].ts);
                assert forall|x: int, y: int|
                    #![trigger a@[x], b@[y]]
                    0 <= x < a.len() && 0 <= y < b.len() && a@[x].ts == b@[y].ts && (x < i + 1 || y
                        < j + 1) implies has_shared_bucket(shared@, a@[x].ts as int) by {
                    if x < i || y < j {
                        assert(has_shared_bucket(before, a@[x].ts as int));
                        let z = choose|z: int|
                            0 <= z < before.len() && (#[trigger] before[z]).ts == a@[x].ts;
                        assert(shared@[z].ts == a@[x].ts);
                    } else {
                        if x > i {
                            assert(a@[i as int].ts < a@[x].ts);
                        }
                        if y > j {
                            assert(b@[j as int].ts < b@[y].ts);
                        }
                        assert(x == i || y == j);
                        assert(shared@[top].ts == a@[x].ts);
                    }
                }
            }
            i = i + 1;
            j = j + 1;
        }
    }
    proof {
        assert forall|start: int|
            (#[trigger] members(indoor@, from_ts, width, start)).len() > 0 && members(
                outdoor@,
                from_ts,
                width,
                start,
            ).len() > 0 implies has_shared_bucket(shared@, start) by {
            lemma_members_are_rows(indoor@, from_ts, width, start, 0);
            lemma_members_are_rows(outdoor@, from_ts, width, start, 0);
            let ra = members(indoor@, from_ts, width, start)[0];
            let rb = members(outdoor@, from_ts, width, start)[0];
            let ka = choose|k: int| 0 <= k < indoor@.len() && indoor@[k] == ra;
            let kb = choose|k: int| 0 <= k < outdoor@.len() && outdoor@[k] == rb;
            assert(indoor@[ka].stamp() >= from_ts && outdoor@[kb].stamp() >= from_ts);
            assert(has_bucket(a@, start) && has_bucket(b@, start));
            let x = choose|x: int| 0 <= x < a@.len() && (#[trigger] a@[x]).ts == start;
            let y = choose|y: int| 0 <= y < b@.len() && (#[trigger] b@[y]).ts == start;
            assert(a@[x].ts == b@[y].ts);
        }
    }
    shared
}

/// Whether a time is in the bucket of this width that starts at `start`,
/// which is a multiple of the width: at most a width away from it, on the
/// side that is away from 0.
pub open spec fn is_within(ts: int, start: int, width: int) -> bool {
    ||| 0 <= start <= ts < start + width
    ||| start - width < ts <= start <= 0
}

proof fn lemma_multiples_are_apart(a: int, b: int, w: int)
    requires
        w >= 1,
        a % w == 0,
        b % w == 0,
        a < b,
    ensures
        b - a >= w,
{
    vstd::arithmetic::div_mod::lemma_fundamental_div_mod(a, w);
    vstd::arithmetic::div_mod::lemma_fundamental_div_mod(b, w);
    assert(b - a >= w) by (nonlinear_arith)
        requires
            a < b,
            a == w * (a / w),
            b == w * (b / w),
            w > 0,
    ;
}

proof fn lemma_within_is_start(ts: int, start: int, width: int)
    requires
        width >= 1,
        start % width == 0,
    ensures
        is_within(ts, start, width) <==> bucket_start(ts, width) == start,
{
    law_bucket_start_is_near(ts, width);
    let b = bucket_start(ts, width);
    if is_within(ts, start, width) {
        if b < start {
            lemma_multiples_are_apart(b, start, width);
        } else if start < b {
            lemma_multiples_are_apart(start, b, width);
        }
    }
}

/// The buckets of a history are those of exactly the width that is asked for,
/// or of one second where less is asked for: they start at different
/// multiples of it, in order; each holds all the rows of the window that lie
/// within it, in table order, and nothing else; none is empty; and every row
/// of the window lies within one of them.
pub proof fn law_buckets_have_the_width_asked_for<T: Stamped>(
    buckets: Seq<Bucket<T>>,
    rows: Seq<T>,
    from_ts: i64,
    bucket_secs: i64,
)
    requires
        is_bucketing(buckets, rows, from_ts, usable_width(bucket_secs)),
    ensures
        ({
            let w = if bucket_secs < 1 {
                1
            } else {
                bucket_secs as int
            };
            &&& forall|i: int, j: int|
                0 <= i < j < buckets.len() ==> (#[trigger] buckets[i]).ts < (
                #[trigger] buckets[j]).ts
            &&& forall|i: int|
                #![trigger buckets[i]]
                0 <= i < buckets.len() ==> {
                    &&& buckets[i].ts as int % w == 0
                    &&& buckets[i].rows@.len() > 0
                    &&& buckets[i].rows@ == rows.filter(
                        |row: T|
                            row.stamp() >= from_ts && is_within(
                                row.stamp() as int,
                                buckets[i].ts as int,
                                w,
                            ),
                    )
                }
            &&& forall|k: int|
                #![trigger rows[k]]
                0 <= k < rows.len() && rows[k].stamp() >= from_ts ==> exists|i: int|
                    0 <= i < buckets.len() && is_within(
                        rows[k].stamp() as int,
                        (#[trigger] buckets[i]).ts as int,
                        w,
                    )
        }),
{
    let width = usable_width(bucket_secs);
    let w = width as int;
    assert forall|i: int| #![trigger buckets[i]] 0 <= i < buckets.len() implies {
        &&& buckets[i].ts as int % w == 0
        &&& buckets[i].rows@ == rows.filter(
            |row: T|
                row.stamp() >= from_ts && is_within(row.stamp() as int, buckets[i].ts as int, w),
        )
    } by {
        let start = buckets[i].ts as int;
        lemma_members_are_rows(rows, from_ts, width, start, 0);
        law_bucket_start_is_near(buckets[i].rows@[0].stamp() as int, w);
        lemma_same_members(rows, from_ts, width, start);
    }
    assert forall|k: int|
        #![trigger rows[k]]
        0 <= k < rows.len() && rows[k].stamp() >= from_ts implies exists|i: int|
        0 <= i < buckets.len() && is_within(
            rows[k].stamp() as int,
            (#[trigger] buckets[i]).ts as int,
            w,
        ) by {
        let start = bucket_start(rows[k].stamp() as int, w);
        assert(has_bucket(buckets, start));
        let i = choose|i: int| 0 <= i < buckets.len() && (#[trigger] buckets[i]).ts == start;
        law_bucket_start_is_near(rows[k].stamp() as int, w);
        lemma_within_is_start(rows[k].stamp() as int, start, w);
        assert(is_within(rows[k].stamp() as int, buckets[i].ts as int, w));
    }
}

proof fn lemma_same_members<T: Stamped>(rows: Seq<T>, from_ts: i64, width: i64, start: int)
    requires
        width >= 1,
        start % (width as int) == 0,
    ensures
        members(rows, from_ts, width, start) == rows.filter(
            |row: T| row.stamp() >= from_ts && is_within(row.stamp() as int, start, width as int),
        ),
{
    let p = |row: T| belongs(row, from_ts, width, start);
    let q = |row: T|
        row.stamp() >= from_ts && is_within(row.stamp() as int, start, width as int);
    assert forall|row: T| #[trigger] p(row) == q(row) by {
        lemma_within_is_start(row.stamp() as int, start, width as int);
    }
    assert(p =~= q);
}

/// The buckets of a joined history are those of exactly the width that is
/// asked for, or of one second where less is asked for, in which both tables
/// have rows of the window; each holds all of them and nothing else.
pub proof fn law_shared_buckets_have_the_width_asked_for<A: Stamped, B: Stamped>(
    shared: Seq<SharedBucket<A, B>>,
    indoor: Seq<A>,
    outdoor: Seq<B>,
    from_ts: i64,
    bucket_secs: i64,
)
    requires
        is_join(shared, indoor, outdoor, from_ts, usable_width(bucket_secs)),
    ensures
        ({
            let w = if bucket_secs < 1 {
                1
            } else {
                bucket_secs as int
            };
            &&& forall|i: int, j: int|
                0 <= i < j < shared.len() ==> (#[trigger] shared[i]).ts < (#[trigger] shared[j]).ts
            &&& forall|i: int|
                #![trigger shared[i]]
                0 <= i < shared.len() ==> {
                    &&& shared[i].ts as int % w == 0
                    &&& shared[i].indoor@.len() > 0
                    &&& shared[i].outdoor@.len() > 0
                    &&& shared[i].indoor@ == indoor.filter(
                        |row: A|
                            row.stamp() >= from_ts && is_within(
                                row.stamp() as int,
                                shared[i].ts as int,
                                w,
                            ),
                    )
                    &&& shared[i].outdoor@ == outdoor.filter(
                        |row: B|
                            row.stamp() >= from_ts && is_within(
                                row.stamp() as int,
                                shared[i].ts as int,
                                w,
                            ),
                    )
                }
            &&& forall|j: int, k: int, start: int|
                #![trigger indoor[j], outdoor[k], is_within(indoor[j].stamp() as int, start, w)]
                0 <= j < indoor.len() && 0 <= k < outdoor.len() && start % w == 0
                    && indoor[j].stamp() >= from_ts && outdoor[k].stamp() >= from_ts && is_within(
                    indoor[j].stamp() as int,
                    start,
                    w,
                ) && is_within(outdoor[k].stamp() as int, start, w) ==> exists|i: int|
                    0 <= i < shared.len() && (#[trigger] shared[i]).ts == start
        }),
{
    let width = usable_width(bucket_secs);
    let w = width as int;
    assert forall|i: int| #![trigger shared[i]] 0 <= i < shared.len() implies {
        &&& shared[i].ts as int % w == 0
        &&& shared[i].indoor@ == indoor.filter(
            |row: A|
                row.stamp() >= from_ts && is_within(row.stamp() as int, shared[i].ts as int, w),
        )
        &&& shared[i].outdoor@ == outdoor.filter(
            |row: B|
                row.stamp() >= from_ts && is_within(row.stamp() as int, shared[i].ts as int, w),
        )
    } by {
        let start = shared[i].ts as int;
        lemma_members_are_rows(indoor, from_ts, width, start, 0);
        law_bucket_start_is_near(shared[i].indoor@[0].stamp() as int, w);
        lemma_same_members(indoor, from_ts, width, start);
        lemma_same_members(outdoor, from_ts, width, start);
    }
    assert forall|j: int, k: int, start: int|
        #![trigger indoor[j], outdoor[k], is_within(indoor[j].stamp() as int, start, w)]
        0 <= j < indoor.len() && 0 <= k < outdoor.len() && start % w == 0 && indoor[j].stamp()
            >= from_ts && outdoor[k].stamp() >= from_ts && is_within(
            indoor[j].stamp() as int,
            start,
            w,
        ) && is_within(outdoor[k].stamp() as int, start, w) implies exists|i: int|
        0 <= i < shared.len() && (#[trigger] shared[i]).ts == start by {
        lemma_within_is_start(indoor[j].stamp() as int, start, w);
        lemma_within_is_start(outdoor[k].stamp() as int, start, w);
        let p = |row: A| belongs(row, from_ts, width, start);
        let q = |row: B| belongs(row, from_ts, width, start);
        indoor.lemma_filter_contains(p, j);
        outdoor.lemma_filter_contains(q, k);
        assert(members(indoor, from_ts, width, start).contains(indoor[j]));
        assert(members(outdoor, from_ts, width, start).contains(outdoor[k]));
        assert(has_shared_bucket(shared, start));
    }
}

/// The time of a row is its timestamp.
pub proof fn law_rows_are_stamped_with_their_time(r: Reading, o: OutdoorReading, e: Event)
    ensures
        r.stamp() == r.ts,
        o.stamp() == o.ts,
        e.stamp() == e.ts,
{
}

} // verus!
