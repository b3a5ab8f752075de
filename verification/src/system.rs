//! Host health (SoC temperature, CPU, memory, throttling) for the dashboard
//! header.
//!
//! Everything here is best-effort: each value degrades to `None` instead of
//! failing, because host introspection must never take down the dashboard
//! that reports on it. The sources are Linux procfs/sysfs files, given here
//! as text.

use crate::double::{Double, ZERO};
use crate::text;
use vstd::arithmetic::power::pow;
use vstd::prelude::*;

verus! {

/// Snapshot of host health for the dashboard header.
#[derive(Clone, Copy, Debug, PartialEq, Eq, Structural)]
pub struct Stats {
    /// SoC temperature in °C: a sanity cross-check for the BME280 and an
    /// early warning if the Pi itself is overheating in a summer garage.
    pub cpu_temp_c: Option<Double>,
    /// CPU usage since the previous snapshot, 0-100 across all cores.
    pub cpu_usage_pct: Option<Double>,
    /// Physical memory in use (total minus reclaimable), percent.
    pub memory_used_pct: Option<Double>,
    /// Swap in use, percent; `None` when no swap is configured.
    pub swap_used_pct: Option<Double>,
    /// Live firmware throttling flags (Raspberry Pi specific).
    pub throttle: Option<Throttle>,
}

/// The "happening right now" bits of the Pi firmware's `get_throttled`
/// value (the low nibble; the high bits are "has happened since boot").
#[derive(Clone, Copy, Debug, PartialEq, Eq, Structural)]
pub struct Throttle {
    /// Supply voltage is below 4.63 V right now.
    pub under_voltage: bool,
    /// ARM frequency is capped right now.
    pub frequency_capped: bool,
    /// The SoC is actively throttled right now.
    pub throttled: bool,
    /// The soft temperature limit is active right now.
    pub soft_temp_limit: bool,
}

/// The numbers at the start of a row of fields, up to the first field that
/// is none.
pub open spec fn numbers(fields: Seq<Seq<char>>) -> Seq<int>
    decreases fields.len(),
{
    if fields.len() == 0 {
        Seq::empty()
    } else {
        match text::unsigned(fields[0], 10, u64::MAX as int) {
            Some(value) => seq![value] + numbers(fields.skip(1)),
            None => Seq::empty(),
        }
    }
}

/// The sum of a row of numbers.
pub open spec fn sum(values: Seq<int>) -> int
    decreases values.len(),
{
    if values.len() == 0 {
        0
    } else {
        sum(values.drop_last()) + values.last()
    }
}

/// The numbers of the aggregate `cpu` line: user, nice, system, idle, iowait
/// and what a newer kernel adds to them.
pub open spec fn cpu_counters(stat: Seq<char>) -> Option<Seq<int>> {
    let lines = text::lines(stat);
    if lines.len() == 0 {
        None
    } else {
        let fields = text::fields(lines[0]);
        if fields.len() == 0 || fields[0] != "cpu"@ {
            None
        } else {
            let values = numbers(fields.skip(1));
            if values.len() < 5 {
                None
            } else {
                Some(values)
            }
        }
    }
}

/// The idle (idle and iowait) and the total time of the `cpu` line.
pub open spec fn cpu_times(stat: Seq<char>) -> Option<(int, int)> {
    match cpu_counters(stat) {
        Some(values) => Some((values[3] + values[4], sum(values))),
        None => None,
    }
}

proof fn lemma_sum_grows(values: Seq<int>, k: int)
    requires
        0 <= k <= values.len(),
        forall|i: int| 0 <= i < values.len() ==> values[i] >= 0,
    ensures
        0 <= sum(values.take(k)) <= sum(values),
    decreases values.len(),
{
    if k == values.len() {
        assert(values.take(k) =~= values);
        if values.len() > 0 {
            let front = values.drop_last();
            lemma_sum_grows(front, front.len() as int);
            assert(front.take(front.len() as int) =~= front);
        }
    } else {
        let front = values.drop_last();
        lemma_sum_grows(front, k);
        assert(front.take(k) =~= values.take(k));
    }
}

proof fn lemma_numbers(fields: Seq<Seq<char>>)
    ensures
        numbers(fields).len() <= fields.len(),
        forall|i: int|
            0 <= i < numbers(fields).len() ==> 0 <= #[trigger] numbers(fields)[i] <= u64::MAX,
    decreases fields.len(),
{
    if fields.len() > 0 {
        let value = text::unsigned(fields[0], 10, u64::MAX as int);
        text::lemma_unsigned(fields[0], 10, u64::MAX as int);
        if value is Some {
            lemma_numbers(fields.skip(1));
        }
    }
}

/// The numbers at the start of fields from the given one on.
fn read_numbers(fields: &Vec<Vec<char>>, from: usize) -> (values: Vec<u64>)
    requires
        from <= fields.len(),
    ensures
        values@.map_values(|v: u64| v as int) == numbers(text::texts(fields@).skip(from as int)),
{
    let mut values: Vec<u64> = Vec::new();
    let mut i: usize = from;
    let ghost all = numbers(text::texts(fields@).skip(from as int));
    proof {
        assert(values@.map_values(|v: u64| v as int) + all =~= all);
    }
    while i < fields.len()
        invariant
            from <= i <= fields.len(),
            all == numbers(text::texts(fields@).skip(from as int)),
            values@.map_values(|v: u64| v as int) + numbers(text::texts(fields@).skip(i as int))
                == all,
        decreases fields.len() - i,
    {
        let ghost rest = text::texts(fields@).skip(i as int);
        let ghost old_values = values@.map_values(|v: u64| v as int);
        proof {
            assert(rest[0] == fields@[i as int]@);
            assert(rest.skip(1) =~= text::texts(fields@).skip(i + 1));
        }
        match text::parse_unsigned(&fields[i], 10, u64::MAX) {
            Some(value) => {
                values.push(value);
                proof {
                    let now = values@.map_values(|v: u64| v as int);
                    assert(now =~= old_values.push(value as int));
                    assert(now + numbers(rest.skip(1)) =~= old_values + numbers(rest));
                }
            },
            None => {
                proof {
                    assert(old_values + numbers(rest) =~= old_values);
                }
                return values;
            },
        }
        i = i + 1;
    }
    proof {
        assert(text::texts(fields@).skip(i as int) =~= Seq::empty());
        let now = values@.map_values(|v: u64| v as int);
        assert(now + numbers(text::texts(fields@).skip(i as int)) =~= now);
    }
    values
}

/// Parses the aggregate `cpu` line of `/proc/stat` into `(idle, total)`.
///
/// There is none where the first line is not such a line or has fewer than
/// five numbers, nor where the total is out of range.
pub fn parse_proc_stat(stat: &str) -> (times: Option<(u64, u64)>)
    ensures
        match times {
            Some(t) => cpu_times(stat@) == Some((t.0 as int, t.1 as int)),
            None => cpu_times(stat@) is None || cpu_times(stat@)->Some_0.1 > u64::MAX,
        },
{
    let lines = text::lines_of(&text::chars_of(stat));
    if lines.len() == 0 {
        return None;
    }
    proof {
        assert(text::texts(lines@)[0] == lines@[0]@);
    }
    let fields = text::fields_of(&lines[0]);
    if fields.len() == 0 {
        return None;
    }
    proof {
        assert(text::texts(fields@)[0] == fields@[0]@);
    }
    if !text::equals(&fields[0], "cpu") {
        return None;
    }
    let values = read_numbers(&fields, 1);
    let ghost counters = values@.map_values(|v: u64| v as int);
    if values.len() < 5 {
        return None;
    }
    let mut total: u64 = 0;
    let mut i: usize = 0;
    proof {
        assert(counters.take(0) =~= Seq::empty());
    }
    while i < values.len()
        invariant
            i <= values.len(),
            5 <= values.len(),
            counters == values@.map_values(|v: u64| v as int),
            cpu_times(stat@) == Some((counters[3] + counters[4], sum(counters))),
            total == sum(counters.take(i as int)),
        decreases values.len() - i,
    {
        proof {
            let next = counters.take(i + 1);
            assert(next.drop_last() =~= counters.take(i as int));
            assert(next.last() == values@[i as int]);
            lemma_sum_grows(counters, i + 1);
        }
        match total.checked_add(values[i]) {
            Some(more) => {
                total = more;
            },
            None => {
                return None;
            },
        }
        i = i + 1;
    }
    proof {
        assert(counters.take(i as int) =~= counters);
        lemma_idle_is_part(counters);
        assert(counters[3] == values@[3] && counters[4] == values@[4]);
    }
    Some((values[3] + values[4], total))
}

proof fn lemma_idle_is_part(values: Seq<int>)
    requires
        values.len() >= 5,
        forall|i: int| 0 <= i < values.len() ==> values[i] >= 0,
    ensures
        0 <= values[3] + values[4] <= sum(values),
{
    lemma_sum_grows(values, 5);
    lemma_sum_grows(values, 3);
    let five = values.take(5);
    let four = values.take(4);
    assert(five.drop_last() =~= four);
    assert(four.drop_last() =~= values.take(3));
    assert(sum(five) == sum(four) + values[4]);
    assert(sum(four) == sum(values.take(3)) + values[3]);
}

/// Idle time is part of the total.
pub proof fn law_idle_time_is_part_of_the_total(stat: Seq<char>)
    ensures
        cpu_times(stat) is Some ==> 0 <= cpu_times(stat)->Some_0.0 <= cpu_times(stat)->Some_0.1,
{
    if cpu_counters(stat) is Some {
        let fields = text::fields(text::lines(stat)[0]);
        lemma_numbers(fields.skip(1));
        lemma_idle_is_part(cpu_counters(stat)->Some_0);
    }
}

/// What passed between two CPU samples: the usage is the share of the total
/// that was not idle.
#[derive(Clone, Copy, Debug, PartialEq, Eq, Structural)]
pub struct Usage {
    /// Idle time that passed.
    pub idle: u64,
    /// All time that passed.
    pub total: u64,
}

/// What passed from one time to a later one, 0 where the counter went back.
pub open spec fn passed(before: u64, after: u64) -> u64 {
    if after >= before {
        (after - before) as u64
    } else {
        0
    }
}

/// What passed between two samples, where time passed at all.
pub open spec fn usage(previous: (u64, u64), current: (u64, u64)) -> Option<Usage> {
    let total = passed(previous.1, current.1);
    if total == 0 {
        None
    } else {
        Some(Usage { idle: passed(previous.0, current.0), total })
    }
}

/// What passed between two samples, where time passed at all.
pub fn usage_between(previous: (u64, u64), current: (u64, u64)) -> (r: Option<Usage>)
    ensures
        r == usage(previous, current),
{
    let idle: u64 = current.0.saturating_sub(previous.0);
    let total: u64 = current.1.saturating_sub(previous.1);
    if total == 0 {
        return None;
    }
    Some(Usage { idle, total })
}

/// Where neither the idle nor the busy time went back, the usage is a share
/// of the total: between nothing and all of it.
pub proof fn law_usage_is_a_share(previous: (u64, u64), current: (u64, u64))
    requires
        previous.0 <= previous.1,
        current.0 <= current.1,
        previous.0 <= current.0,
        previous.1 - previous.0 <= current.1 - current.0,
    ensures
        match usage(previous, current) {
            Some(u) => u.idle <= u.total && u.idle == current.0 - previous.0 && u.total == current.1
                - previous.1,
            None => previous == current,
        },
{
}

/// `(idle, total)` of the previous CPU sample; usage is only meaningful as a
/// difference between two samples. Interleaved requests from multiple
/// dashboard tabs just shorten each other's measurement window, which is
/// still a valid usage figure.
#[derive(Clone, Copy, Debug, PartialEq, Eq)]
pub struct CpuMeter {
    /// The previous sample.
    pub previous: Option<(u64, u64)>,
}

/// What follows a CPU sample.
#[derive(Clone, Copy, Debug, PartialEq, Eq)]
pub enum CpuStep {
    /// This is the usage.
    Done(Option<Usage>),
    /// There was no baseline: wait a moment and sample once more.
    SampleAgain((u64, u64)),
}

impl CpuMeter {
    /// A meter without a baseline.
    pub fn new() -> (m: CpuMeter)
        ensures
            m.previous is None,
    {
        CpuMeter { previous: None }
    }

    /// What follows the first sample of a request. A sample that was taken
    /// becomes the baseline; on the first one since startup there is nothing
    /// to compare with, and a short second sample is asked for so the
    /// initial dashboard load still shows a number.
    pub fn on_first(&mut self, times: Option<(u64, u64)>) -> (step: CpuStep)
        ensures
            step == (match (times, old(self).previous) {
                (None, _) => CpuStep::Done(None),
                (Some(first), Some(previous)) => CpuStep::Done(usage(previous, first)),
                (Some(first), None) => CpuStep::SampleAgain(first),
            }),
            final(self).previous == (if times is Some {
                times
            } else {
                old(self).previous
            }),
    {
        match times {
            None => CpuStep::Done(None),
            Some(first) => {
                let previous = self.previous;
                self.previous = Some(first);
                match previous {
                    Some(previous) => CpuStep::Done(usage_between(previous, first)),
                    None => CpuStep::SampleAgain(first),
                }
            },
        }
    }

    /// The usage after the second sample that was asked for.
    pub fn on_second(&mut self, first: (u64, u64), times: Option<(u64, u64)>) -> (r: Option<Usage>)
        ensures
            r == (match times {
                None => None,
                Some(second) => usage(first, second),
            }),
            final(self).previous == (if times is Some {
                times
            } else {
                old(self).previous
            }),
    {
        match times {
            None => None,
            Some(second) => {
                self.previous = Some(second);
                usage_between(first, second)
            },
        }
    }
}

/// What `/proc/meminfo` says, as it is written there: the first field of the
/// value, where there is one.
#[derive(Debug)]
pub struct MemInfo {
    /// The value of `MemTotal`.
    pub total: Option<String>,
    /// The value of `MemAvailable`.
    pub available: Option<String>,
    /// The value of `SwapTotal`.
    pub swap_total: Option<String>,
    /// The value of `SwapFree`.
    pub swap_free: Option<String>,
}

/// The first field of a text, where there is one.
pub open spec fn first_field(s: Seq<char>) -> Option<Seq<char>> {
    let fields = text::fields(s);
    if fields.len() == 0 {
        None
    } else {
        Some(fields[0])
    }
}

/// Whether a line is an entry for the key.
pub open spec fn is_entry(line: Seq<char>, key: Seq<char>) -> bool {
    text::split_once(line, ':') is Some && text::split_once(line, ':')->Some_0.0 == key
}

/// The value of the last entry for the key.
pub open spec fn entry(lines: Seq<Seq<char>>, key: Seq<char>) -> Option<Seq<char>>
    decreases lines.len(),
{
    if lines.len() == 0 {
        None
    } else if is_entry(lines.last(), key) {
        first_field(text::split_once(lines.last(), ':')->Some_0.1)
    } else {
        entry(lines.drop_last(), key)
    }
}

/// The text of an optional string.
pub open spec fn text_of(s: Option<String>) -> Option<Seq<char>> {
    match s {
        Some(s) => Some(s@),
        None => None,
    }
}

/// The first field of a text, where there is one.
fn read_field(s: &Vec<char>) -> (r: Option<String>)
    ensures
        text_of(r) == first_field(s@),
{
    let fields = text::fields_of(s);
    if fields.len() == 0 {
        None
    } else {
        proof {
            assert(text::texts(fields@)[0] == fields@[0]@);
        }
        Some(text::string_of(&fields[0]))
    }
}

/// Reads the entries of `/proc/meminfo` that memory and swap use are told
/// by. A later entry for the same key replaces an earlier one.
pub fn parse_meminfo(raw: &str) -> (info: MemInfo)
    ensures
        text_of(info.total) == entry(text::lines(raw@), "MemTotal"@),
        text_of(info.available) == entry(text::lines(raw@), "MemAvailable"@),
        text_of(info.swap_total) == entry(text::lines(raw@), "SwapTotal"@),
        text_of(info.swap_free) == entry(text::lines(raw@), "SwapFree"@),
{
    let lines = text::lines_of(&text::chars_of(raw));
    let mut info = MemInfo { total: None, available: None, swap_total: None, swap_free: None };
    let ghost all = text::texts(lines@);
    let mut i: usize = 0;
    proof {
        lemma_keys_differ();
        assert(all.take(0) =~= Seq::empty());
    }
    while i < lines.len()
        invariant
            i <= lines.len(),
            all == text::texts(lines@),
            "MemTotal"@ != "MemAvailable"@,
            "MemTotal"@ != "SwapTotal"@,
            "MemTotal"@ != "SwapFree"@,
            "MemAvailable"@ != "SwapTotal"@,
            "MemAvailable"@ != "SwapFree"@,
            "SwapTotal"@ != "SwapFree"@,
            text_of(info.total) == entry(all.take(i as int), "MemTotal"@),
            text_of(info.available) == entry(all.take(i as int), "MemAvailable"@),
            text_of(info.swap_total) == entry(all.take(i as int), "SwapTotal"@),
            text_of(info.swap_free) == entry(all.take(i as int), "SwapFree"@),
        decreases lines.len() - i,
    {
        proof {
            let next = all.take(i + 1);
            assert(next.drop_last() =~= all.take(i as int));
            assert(next.last() == lines@[i as int]@);
        }
        if let Some((key, rest)) = text::split_at(&lines[i], ':') {
            if text::equals(&key, "MemTotal") {
                info.total = read_field(&rest);
            } else if text::equals(&key, "MemAvailable") {
                info.available = read_field(&rest);
            } else if text::equals(&key, "SwapTotal") {
                info.swap_total = read_field(&rest);
            } else if text::equals(&key, "SwapFree") {
                info.swap_free = read_field(&rest);
            }
        }
        i = i + 1;
    }
    proof {
        assert(all.take(i as int) =~= all);
    }
    info
}

proof fn lemma_keys_differ()
    ensures
        "MemTotal"@ != "MemAvailable"@,
        "MemTotal"@ != "SwapTotal"@,
        "MemTotal"@ != "SwapFree"@,
        "MemAvailable"@ != "SwapTotal"@,
        "MemAvailable"@ != "SwapFree"@,
        "SwapTotal"@ != "SwapFree"@,
{
    reveal_strlit("MemTotal");
    reveal_strlit("MemAvailable");
    reveal_strlit("SwapTotal");
    reveal_strlit("SwapFree");
    assert("MemTotal"@.len() == 8 && "MemAvailable"@.len() == 12);
    assert("SwapTotal"@.len() == 9 && "SwapFree"@.len() == 8);
    assert("MemTotal"@[0] == 'M' && "SwapFree"@[0] == 'S');
}

/// The two numbers that a used share is computed from: the total and what
/// of it is unused. There is no share of nothing, so none is told where no
/// swap is configured.
pub fn used_share(total: Option<Double>, unused: Option<Double>) -> (r: Option<(Double, Double)>)
    ensures
        r == (match (total, unused) {
            (Some(t), Some(u)) if (Double { bits: ZERO }).below(t) => Some((t, u)),
            _ => None,
        }),
{
    match (total, unused) {
        (Some(t), Some(u)) => {
            if Double::from_bits(ZERO).lt(t) {
                Some((t, u))
            } else {
                None
            }
        },
        _ => None,
    }
}

/// Whether a bit of a number is set.
pub open spec fn has_bit(bits: int, weight: int) -> bool {
    (bits / weight) % 2 == 1
}

/// The number that a throttle report gives in hexadecimal.
pub open spec fn throttle_bits(raw: Seq<char>) -> Option<int> {
    let hex = text::without_prefix(text::trim(raw), "throttled="@);
    text::unsigned(text::without_prefix(hex, "0x"@), 16, u32::MAX as int)
}

/// The flags of a throttle report.
pub open spec fn throttle_of(raw: Seq<char>) -> Option<Throttle> {
    match throttle_bits(raw) {
        Some(bits) => Some(
            Throttle {
                under_voltage: has_bit(bits, 1),
                frequency_capped: has_bit(bits, 2),
                throttled: has_bit(bits, 4),
                soft_temp_limit: has_bit(bits, 8),
            },
        ),
        None => None,
    }
}

/// Parses the firmware throttle bitmask: bare hex with or without `0x`,
/// or vcgencmd's `throttled=0x...` form.
pub fn parse_throttled(raw: &str) -> (r: Option<Throttle>)
    ensures
        r == throttle_of(raw@),
{
    let trimmed = text::trimmed(raw);
    let hex = text::strip_prefix(&text::chars_of(trimmed.as_str()), "throttled=");
    let digits = text::strip_prefix(&hex, "0x");
    match text::parse_unsigned(&digits, 16, 0xFFFF_FFFF) {
        Some(value) => {
            let bits: u32 = value as u32;
            assert(bits & 0x1 != 0 <==> (bits / 1) % 2 == 1) by (bit_vector);
            assert(bits & 0x2 != 0 <==> (bits / 2) % 2 == 1) by (bit_vector);
            assert(bits & 0x4 != 0 <==> (bits / 4) % 2 == 1) by (bit_vector);
            assert(bits & 0x8 != 0 <==> (bits / 8) % 2 == 1) by (bit_vector);
            Some(
                Throttle {
                    under_voltage: bits & 0x1 != 0,
                    frequency_capped: bits & 0x2 != 0,
                    throttled: bits & 0x4 != 0,
                    soft_temp_limit: bits & 0x8 != 0,
                },
            )
        },
        None => None,
    }
}

/// The throttle flags, from the firmware node where it can be read and else
/// from what the firmware command printed, where it ran with success. (The
/// node's path varies across kernel and device-tree versions.)
pub fn throttle(node: Option<&str>, command: Option<(bool, &str)>) -> (r: Option<Throttle>)
    ensures
        r == (match (node, command) {
            (Some(raw), _) => throttle_of(raw@),
            (None, Some((true, raw))) => throttle_of(raw@),
            _ => None,
        }),
{
    match node {
        Some(raw) => parse_throttled(raw),
        None => match command {
            Some((success, raw)) => {
                if success {
                    parse_throttled(raw)
                } else {
                    None
                }
            },
            None => None,
        },
    }
}

/// The forms in which the firmware reports the same number decode alike:
/// bare hex, hex with `0x`, and `throttled=0x...`, each with any white space
/// around it.
pub proof fn law_throttle_forms_decode_alike(before: Seq<char>, hex: Seq<char>, after: Seq<char>)
    requires
        text::is_blank(before),
        text::is_blank(after),
        hex.len() > 0,
        forall|i: int| 0 <= i < hex.len() ==> text::digit(#[trigger] hex[i], 16) is Some,
    ensures
        throttle_of(before + hex + after) == throttle_of(hex),
        throttle_of(before + ("0x"@ + hex) + after) == throttle_of(hex),
        throttle_of(before + ("throttled="@ + "0x"@ + hex) + after) == throttle_of(hex),
{
    reveal_strlit("0x");
    reveal_strlit("throttled=");
    let name = "throttled="@;
    let mark = "0x"@;
    let marked = mark + hex;
    let named = name + mark + hex;
    assert(text::digit(hex[0], 16) is Some && text::digit(hex.last(), 16) is Some);
    assert(!text::is_white(hex[0]) && !text::is_white(hex.last()));
    assert(marked[0] == '0' && marked.last() == hex.last());
    assert(named[0] == 't' && named.last() == hex.last());
    text::law_trimming_takes_the_white_space_around(before, hex, after);
    text::law_trimming_takes_the_white_space_around(before, marked, after);
    text::law_trimming_takes_the_white_space_around(before, named, after);
    text::law_trimming_takes_the_white_space_around(Seq::empty(), hex, Seq::empty());
    assert(Seq::empty() + hex + Seq::empty() =~= hex);
    assert(!text::starts_with(hex, name)) by {
        if name.len() <= hex.len() {
            assert(hex.take(10)[0] == hex[0]);
        }
    }
    assert(!text::starts_with(marked, name)) by {
        if name.len() <= marked.len() {
            assert(marked.take(10)[0] == '0');
        }
    }
    assert(text::starts_with(named, name)) by {
        assert(named.take(10) =~= name);
    }
    assert(named.skip(10) =~= marked);
    reveal_with_fuel(text::without_prefix, 3);
    assert(text::without_prefix(named, name) == marked);
    assert(!text::starts_with(hex, mark)) by {
        if mark.len() <= hex.len() {
            assert(hex.take(2)[1] == hex[1]);
            assert(text::digit(hex[1], 16) is Some);
        }
    }
    assert(text::starts_with(marked, mark)) by {
        assert(marked.take(2) =~= mark);
    }
    assert(marked.skip(2) =~= hex);
    assert(text::without_prefix(marked, mark) == hex);
}

/// The last hexadecimal digit of a throttle report tells the flags, in
/// whatever form and with whatever white space around it the report comes:
/// under-voltage where it is odd, a capped frequency where it is 2, 3, 6, 7
/// or the same with 8 more, throttling where it is 4 to 7 or c to f, and the
/// soft temperature limit where it is 8 or more. Up to eight digits are
/// understood, and more only where the first is 0.
pub proof fn law_the_last_digit_tells_the_throttle_flags(
    before: Seq<char>,
    form: Seq<char>,
    hex: Seq<char>,
    after: Seq<char>,
)
    requires
        text::is_blank(before),
        text::is_blank(after),
        form == hex || form == "0x"@ + hex || form == "throttled="@ + "0x"@ + hex,
        hex.len() > 0,
        forall|i: int|
            0 <= i < hex.len() ==> {
                ||| '0' as int <= (#[trigger] hex[i]) as int <= '9' as int
                ||| 'a' as int <= hex[i] as int <= 'f' as int
                ||| 'A' as int <= hex[i] as int <= 'F' as int
            },
    ensures
        ({
            let c = hex.last() as int;
            let d = if c <= '9' as int {
                c - '0' as int
            } else if c >= 'a' as int {
                10 + c - 'a' as int
            } else {
                10 + c - 'A' as int
            };
            let flags = throttle_of(before + form + after);
            &&& hex.len() <= 8 ==> flags is Some
            &&& hex.len() > 8 && hex[0] != '0' ==> flags is None
            &&& flags is Some ==> {
                let f = flags->Some_0;
                &&& f.under_voltage <==> d == 1 || d == 3 || d == 5 || d == 7 || d == 9 || d == 11
                    || d == 13 || d == 15
                &&& f.frequency_capped <==> d == 2 || d == 3 || d == 6 || d == 7 || d == 10 || d
                    == 11 || d == 14 || d == 15
                &&& f.throttled <==> 4 <= d <= 7 || 12 <= d <= 15
                &&& f.soft_temp_limit <==> 8 <= d
            }
        }),
{
    assert forall|i: int| 0 <= i < hex.len() implies text::digit(#[trigger] hex[i], 16) is Some by {
    }
    law_throttle_forms_decode_alike(before, hex, after);
    assert(throttle_of(before + form + after) == throttle_of(hex));
    lemma_bare_hex(hex);
    let last = hex[hex.len() - 1];
    assert(hex.last() == last && text::digit(last, 16) is Some);
    let high = text::digits(hex.drop_last(), 16)->Some_0;
    let low = text::digit(last, 16)->Some_0;
    lemma_low_bits(high, low);
}

#[verifier::spinoff_prover]
proof fn lemma_low_bits(high: int, low: int)
    requires
        high >= 0,
        0 <= low < 16,
    ensures
        has_bit(high * 16 + low, 1) <==> low % 2 == 1,
        has_bit(high * 16 + low, 2) <==> (low / 2) % 2 == 1,
        has_bit(high * 16 + low, 4) <==> (low / 4) % 2 == 1,
        has_bit(high * 16 + low, 8) <==> (low / 8) % 2 == 1,
{
    let bits = high * 16 + low;
    assert(bits / 1 == 2 * (8 * high) + low);
    assert(bits / 2 == 2 * (4 * high) + low / 2);
    assert(bits / 4 == 2 * (2 * high) + low / 4);
    assert(bits / 8 == 2 * high + low / 8);
}

proof fn lemma_bare_hex(hex: Seq<char>)
    requires
        hex.len() > 0,
        forall|i: int| 0 <= i < hex.len() ==> text::digit(#[trigger] hex[i], 16) is Some,
    ensures
        text::digits(hex, 16) is Some,
        text::digits(hex.drop_last(), 16) is Some,
        text::digits(hex.drop_last(), 16)->Some_0 >= 0,
        throttle_bits(hex) == (if text::digits(hex, 16)->Some_0 <= u32::MAX {
            text::digits(hex, 16)
        } else {
            None::<int>
        }),
        hex.len() <= 8 ==> text::digits(hex, 16)->Some_0 <= u32::MAX,
        hex.len() > 8 && hex[0] != '0' ==> text::digits(hex, 16)->Some_0 > u32::MAX,
{
    let blank = Seq::<char>::empty();
    assert(blank + hex + blank =~= hex);
    assert(text::digit(hex[0], 16) is Some && text::digit(hex[hex.len() - 1], 16) is Some);
    text::law_trimming_takes_the_white_space_around(blank, hex, blank);
    reveal_strlit("0x");
    reveal_strlit("throttled=");
    assert(!text::starts_with(hex, "throttled="@)) by {
        if 10 <= hex.len() {
            assert(hex.take(10)[0] == hex[0]);
        }
    }
    assert(!text::starts_with(hex, "0x"@)) by {
        if 2 <= hex.len() {
            assert(hex.take(2)[1] == hex[1]);
            assert(text::digit(hex[1], 16) is Some);
        }
    }
    let front = hex.drop_last();
    assert forall|i: int| 0 <= i < front.len() implies text::digit(#[trigger] front[i], 16) is Some by {
        assert(front[i] == hex[i]);
    }
    lemma_hex_bounds(hex);
    lemma_hex_bounds(front);
    assert(pow(16, 8) == 0x1_0000_0000) by {
        reveal_with_fuel(pow, 9);
    }
    if hex.len() <= 8 {
        vstd::arithmetic::power::lemma_pow_increases(16, hex.len(), 8);
    } else {
        vstd::arithmetic::power::lemma_pow_increases(16, 8, (hex.len() - 1) as nat);
    }
}

proof fn lemma_hex_bounds(hex: Seq<char>)
    requires
        forall|i: int| 0 <= i < hex.len() ==> text::digit(#[trigger] hex[i], 16) is Some,
    ensures
        text::digits(hex, 16) is Some,
        0 <= text::digits(hex, 16)->Some_0 < pow(16, hex.len()),
        hex.len() > 0 && hex[0] != '0' ==> text::digits(hex, 16)->Some_0 >= pow(
            16,
            (hex.len() - 1) as nat,
        ),
    decreases hex.len(),
{
    vstd::arithmetic::power::lemma_pow0(16);
    if hex.len() > 0 {
        let front = hex.drop_last();
        assert forall|i: int| 0 <= i < front.len() implies text::digit(
            #[trigger] front[i],
            16,
        ) is Some by {
            assert(front[i] == hex[i]);
        }
        lemma_hex_bounds(front);
        assert(text::digit(hex[hex.len() - 1], 16) is Some);
        assert(hex.last() == hex[hex.len() - 1]);
        reveal(pow);
        assert(pow(16, hex.len()) == 16 * pow(16, front.len()));
        if front.len() > 0 {
            assert(front[0] == hex[0]);
            assert(pow(16, front.len()) == 16 * pow(16, (front.len() - 1) as nat));
        } else {
            assert(hex[0] == hex.last());
        }
    }
}

proof fn lemma_numbers_of(fields: Seq<Seq<char>>, values: Seq<int>)
    requires
        values.len() <= fields.len(),
        forall|i: int|
            0 <= i < values.len() ==> text::unsigned(#[trigger] fields[i], 10, u64::MAX as int)
                == Some(values[i]),
        values.len() < fields.len() ==> text::unsigned(
            fields[values.len() as int],
            10,
            u64::MAX as int,
        ) is None,
    ensures
        numbers(fields) == values,
    decreases values.len(),
{
    if values.len() > 0 {
        let (rest, others) = (fields.skip(1), values.skip(1));
        assert(text::unsigned(fields[0], 10, u64::MAX as int) == Some(values[0]));
        assert forall|i: int| 0 <= i < others.len() implies text::unsigned(
            #[trigger] rest[i],
            10,
            u64::MAX as int,
        ) == Some(others[i]) by {
            assert(rest[i] == fields[i + 1]);
        }
        lemma_numbers_of(rest, others);
        assert(values =~= seq![values[0]] + others);
    } else {
        assert(numbers(fields) =~= values);
    }
}

/// The `cpu` line is read as it is written: a name and at least five numbers,
/// of which the fourth and fifth are idle time and all are the total. What
/// follows a field that is no number is of no account, and a line with
/// another name or with fewer numbers is none.
pub proof fn law_the_cpu_line_is_read_as_written(
    stat: Seq<char>,
    fields: Seq<Seq<char>>,
    values: Seq<int>,
)
    requires
        text::lines(stat).len() > 0,
        text::fields(text::lines(stat)[0]) == fields,
        fields.len() > values.len(),
        forall|i: int|
            0 <= i < values.len() ==> text::unsigned(#[trigger] fields[i + 1], 10, u64::MAX as int)
                == Some(values[i]),
        values.len() + 1 < fields.len() ==> text::unsigned(
            fields[values.len() as int + 1],
            10,
            u64::MAX as int,
        ) is None,
    ensures
        fields[0] == "cpu"@ && values.len() >= 5 ==> cpu_times(stat) == Some(
            (values[3] + values[4], values.fold_left(0, |total: int, v: int| total + v)),
        ),
        fields[0] != "cpu"@ || values.len() < 5 ==> cpu_times(stat) is None,
{
    let rest = fields.skip(1);
    assert forall|i: int| 0 <= i < values.len() implies text::unsigned(
        #[trigger] rest[i],
        10,
        u64::MAX as int,
    ) == Some(values[i]) by {
        assert(rest[i] == fields[i + 1]);
    }
    if values.len() < rest.len() {
        assert(rest[values.len() as int] == fields[values.len() as int + 1]);
    }
    lemma_numbers_of(rest, values);
    lemma_sum_is_fold(values);
}

proof fn lemma_sum_is_fold(values: Seq<int>)
    ensures
        sum(values) == values.fold_left(0, |total: int, v: int| total + v),
    decreases values.len(),
{
    if values.len() > 0 {
        lemma_sum_is_fold(values.drop_last());
    }
}

/// A text without any line has no `cpu` line.
pub proof fn law_no_lines_no_cpu_times(stat: Seq<char>)
    requires
        text::lines(stat).len() == 0,
    ensures
        cpu_times(stat) is None,
{
}

/// The usage between two samples is what passed: there is one exactly where
/// the total grew; its total is by how much, and its idle time is by how much
/// the idle time grew, or nothing where it went back.
pub proof fn law_usage_is_what_passed(previous: (u64, u64), current: (u64, u64))
    ensures
        usage(previous, current) is Some <==> current.1 > previous.1,
        current.1 > previous.1 ==> usage(previous, current)->Some_0.total == current.1 - previous.1,
        current.1 > previous.1 && current.0 >= previous.0 ==> usage(previous, current)->Some_0.idle
            == current.0 - previous.0,
        current.1 > previous.1 && current.0 < previous.0 ==> usage(previous, current)->Some_0.idle
            == 0,
{
}

/// The value of a key is the first word behind the colon in the last line
/// that starts with the key and a colon: lines in front of it and lines of
/// other keys are of no account. There is none where no such line is, or
/// where nothing but white space follows the colon.
pub proof fn law_the_last_line_of_a_key_tells_its_value(
    lines: Seq<Seq<char>>,
    key: Seq<char>,
    i: int,
    before: Seq<char>,
    word: Seq<char>,
    rest: Seq<char>,
)
    requires
        forall|k: int| 0 <= k < key.len() ==> (#[trigger] key[k]) != ':',
        -1 <= i < lines.len(),
        forall|j: int|
            i < j < lines.len() ==> !((#[trigger] lines[j]).len() > key.len() && lines[j].take(
                key.len() as int + 1,
            ) == key.push(':')),
        text::is_blank(before),
        forall|k: int| 0 <= k < word.len() ==> !text::is_white(#[trigger] word[k]),
        word.len() == 0 ==> rest.len() == 0,
        rest.len() > 0 ==> text::is_white(rest[0]),
        i >= 0 ==> lines[i] == key.push(':') + (before + word + rest),
    ensures
        i < 0 ==> entry(lines, key) is None,
        i >= 0 && word.len() > 0 ==> entry(lines, key) == Some(word),
        i >= 0 && word.len() == 0 ==> entry(lines, key) is None,
    decreases lines.len(),
{
    if lines.len() > 0 {
        let last = lines.len() - 1;
        if i < last {
            assert(!is_entry(lines[last], key)) by {
                if is_entry(lines[last], key) {
                    let line = lines[last];
                    text::lemma_index_of(line, ':');
                    let n = text::index_of(line, ':');
                    assert(line.take(n) == key);
                    assert(line.take(key.len() as int + 1) =~= key.push(':'));
                }
            }
            let front = lines.drop_last();
            assert forall|j: int| i < j < front.len() implies !((#[trigger] front[j]).len()
                > key.len() && front[j].take(key.len() as int + 1) == key.push(':')) by {
                assert(front[j] == lines[j]);
            }
            if i >= 0 {
                assert(front[i] == lines[i]);
            }
            law_the_last_line_of_a_key_tells_its_value(front, key, i, before, word, rest);
        } else {
            let value = before + word + rest;
            text::law_texts_are_split_at_the_first_separator(key, ':', value);
            if word.len() > 0 {
                text::law_fields_are_the_words(before, word, rest);
                assert((seq![word] + text::fields(rest))[0] == word);
            } else {
                text::law_fields_are_the_words(before, seq!['x'], Seq::empty());
                assert(value =~= before);
            }
        }
    }
}

/// A word that is handed out is the word that was read.
pub proof fn law_words_are_handed_out_as_read(word: String)
    ensures
        text_of(Some(word)) == Some(word@),
        text_of(None) is None,
{
}

} // verus!
