//! When an alarm rings: pure functions of the alarm and a local minute handed in by the
//! caller, which never reads the clock itself.

use vstd::prelude::*;
use crate::clock::{
    day_of, minute_in_day, weekday_of, weekday_of_day, weekday_of_minute, Weekday,
    MINUTES_PER_DAY,
};
use crate::config::{alarm_views, Alarm, AlarmView};

verus! {

/// Alarm `a` rings at local minute `m`: it is enabled, lists the weekday of `m`, and `m`
/// is its minute of the day.
pub open spec fn fires_at(a: AlarmView, m: int) -> bool {
    &&& a.enabled
    &&& a.days.contains(weekday_of(m))
    &&& minute_in_day(m) == a.time.minute_of_day()
}

/// Whether `days` lists `day`.
pub fn lists_day(days: &Vec<Weekday>, day: Weekday) -> (r: bool)
    ensures
        r == days@.contains(day),
{
    let mut i: usize = 0;
    while i < days.len()
        invariant
            i <= days.len(),
            forall|j: int| 0 <= j < i ==> days@[j] != day,
        decreases days.len() - i,
    {
        if days[i] == day {
            return true;
        }
        i = i + 1;
    }
    false
}

/// Whether `alarm` rings at local minute `now`.
pub fn fires_in_minute(alarm: &Alarm, now: u64) -> (r: bool)
    ensures
        r == fires_at(alarm@, now as int),
{
    if !alarm.enabled {
        return false;
    }
    if now % MINUTES_PER_DAY != alarm.time.hour as u64 * 60 + alarm.time.minute as u64 {
        return false;
    }
    lists_day(&alarm.days, weekday_of_minute(now))
}

/// The minute at which `a` would ring `d` days after the day of `now`.
pub open spec fn candidate(a: AlarmView, now: int, d: int) -> int {
    (day_of(now) + d) * 1440 + a.time.minute_of_day()
}

/// The first of the days `d`, `d + 1`, ..., 7 after the day of `now` on which `a` rings
/// after `now`, as the minute it rings.
pub open spec fn search_from(a: AlarmView, now: int, d: int) -> Option<int>
    decreases 8 - d,
{
    if d > 7 || d < 0 {
        None
    } else if candidate(a, now, d) > now && a.days.contains(weekday_of_day(day_of(now) + d)) {
        Some(candidate(a, now, d))
    } else {
        search_from(a, now, d + 1)
    }
}

/// The next minute after `now` at which `a` rings, if it ever does.
pub open spec fn next_fire_of(a: AlarmView, now: int) -> Option<int> {
    if a.enabled && a.time.wf() {
        search_from(a, now, 0)
    } else {
        None
    }
}

/// `m` is the first minute after `now` at which `a` rings.
pub open spec fn is_next_fire(a: AlarmView, now: int, m: int) -> bool {
    &&& m > now
    &&& fires_at(a, m)
    &&& forall|k: int| now < k < m ==> !fires_at(a, k)
}

/// The next time `alarm` rings after local minute `now`, as a local minute; `None` when
/// it never rings (disabled, or no weekday listed).
pub fn next_fire(alarm: &Alarm, now: u64) -> (r: Option<u64>)
    requires
        now <= u64::MAX - 9 * 1440,
    ensures
        r matches Some(m) ==> next_fire_of(alarm@, now as int) == Some(m as int),
        r is None ==> next_fire_of(alarm@, now as int) is None,
{
    if !alarm.enabled || alarm.time.hour >= 24 || alarm.time.minute >= 60 {
        return None;
    }
    let ghost a = alarm@;
    let today: u64 = now / MINUTES_PER_DAY;
    let offset: u64 = alarm.time.hour as u64 * 60 + alarm.time.minute as u64;
    let mut d: u64 = 0;
    while d <= 7
        invariant
            d <= 8,
            a == alarm@,
            a.enabled,
            a.time.wf(),
            today == day_of(now as int),
            offset == a.time.minute_of_day(),
            now <= u64::MAX - 9 * 1440,
            search_from(a, now as int, 0) == search_from(a, now as int, d as int),
        decreases 8 - d,
    {
        let at: u64 = (today + d) * MINUTES_PER_DAY + offset;
        let day = weekday_of_minute(at);
        proof {
            assert(at as int == candidate(a, now as int, d as int));
            assert(day_of(at as int) == today + d);
        }
        if at > now && lists_day(&alarm.days, day) {
            return Some(at);
        }
        d = d + 1;
    }
    None
}

proof fn lemma_minute_split(k: int)
    requires
        k >= 0,
    ensures
        k == day_of(k) * 1440 + minute_in_day(k),
        0 <= minute_in_day(k) < 1440,
        day_of(k) >= 0,
{
}

proof fn lemma_candidate(a: AlarmView, now: int, d: int)
    requires
        now >= 0,
        d >= 0,
        a.time.wf(),
    ensures
        day_of(candidate(a, now, d)) == day_of(now) + d,
        minute_in_day(candidate(a, now, d)) == a.time.minute_of_day(),
        weekday_of(candidate(a, now, d)) == weekday_of_day(day_of(now) + d),
{
    let c = candidate(a, now, d);
    let t = a.time.minute_of_day();
    assert(0 <= t < 1440);
    lemma_minute_split(now);
    assert(c == (day_of(now) + d) * 1440 + t);
    assert(c / 1440 == day_of(now) + d);
    assert(c % 1440 == t);
}

/// A minute at which `a` rings is the candidate minute of its own day.
proof fn lemma_fire_is_candidate(a: AlarmView, now: int, k: int)
    requires
        now >= 0,
        k >= 0,
        a.time.wf(),
        fires_at(a, k),
        day_of(k) >= day_of(now),
    ensures
        k == candidate(a, now, day_of(k) - day_of(now)),
{
    lemma_minute_split(k);
}

proof fn lemma_search(a: AlarmView, now: int, d: int)
    requires
        now >= 0,
        0 <= d <= 8,
        a.enabled,
        a.time.wf(),
    ensures
        search_from(a, now, d) matches Some(m) ==> {
            &&& m > now
            &&& fires_at(a, m)
            &&& day_of(m) <= day_of(now) + 7
            &&& forall|k: int|
                now < k < m && #[trigger] fires_at(a, k) ==> day_of(k) < day_of(now) + d
        },
        search_from(a, now, d) is None ==> forall|k: int|
            now < k && #[trigger] fires_at(a, k) && day_of(k) <= day_of(now) + 7 ==> day_of(k)
                < day_of(now) + d,
    decreases 8 - d,
{
    let dn = day_of(now);
    lemma_minute_split(now);
    if d <= 7 {
        let c = candidate(a, now, d);
        lemma_candidate(a, now, d);
        if c > now && a.days.contains(weekday_of_day(dn + d)) {
            assert forall|k: int| now < k < c && #[trigger] fires_at(a, k) implies day_of(k) < dn
                + d by {
                lemma_minute_split(k);
                if day_of(k) >= dn + d {
                    lemma_fire_is_candidate(a, now, k);
                }
            }
        } else {
            lemma_search(a, now, d + 1);
            assert forall|k: int| now < k && #[trigger] fires_at(a, k) && day_of(k) == dn + d
                implies false by {
                lemma_minute_split(k);
                lemma_fire_is_candidate(a, now, k);
            }
        }
    }
}

/// The next ring time is exactly the first minute after `now` at which the alarm rings;
/// there is none when the alarm never rings again.
pub proof fn lemma_next_fire_is_first_ring(a: AlarmView, now: int)
    requires
        now >= 0,
        a.time.wf(),
    ensures
        next_fire_of(a, now) matches Some(m) ==> is_next_fire(a, now, m),
        next_fire_of(a, now) is None ==> forall|k: int| k > now ==> !#[trigger] fires_at(a, k),
{
    if a.enabled {
        lemma_search(a, now, 0);
        let dn = day_of(now);
        lemma_minute_split(now);
        assert forall|k: int| now < k && #[trigger] fires_at(a, k) implies day_of(k) >= dn by {
            lemma_minute_split(k);
        }
        if next_fire_of(a, now) is None {
            assert forall|k: int| k > now implies !#[trigger] fires_at(a, k) by {
                if fires_at(a, k) {
                    lemma_minute_split(k);
                    let e = day_of(k) - dn;
                    assert(e > 7);
                    let d = (e - 1) % 7 + 1;
                    assert(1 <= d <= 7);
                    let q = (e - 1) / 7;
                    assert(e == 7 * q + d);
                    vstd::arithmetic::div_mod::lemma_mod_multiples_vanish(q, dn + d + 3, 7);
                    assert((dn + e + 3) % 7 == (dn + d + 3) % 7);
                    assert(weekday_of_day(dn + e) == weekday_of_day(dn + d));
                    lemma_candidate(a, now, d);
                    let c = candidate(a, now, d);
                    assert(c >= (dn + 1) * 1440);
                    assert(fires_at(a, c));
                }
            }
        }
    }
}

/// A disabled alarm is as good as absent: it rings at no minute and has no next ring.
pub proof fn lemma_disabled_never_rings(a: AlarmView, now: int)
    requires
        !a.enabled,
    ensures
        forall|m: int| !#[trigger] fires_at(a, m),
        next_fire_of(a, now) is None,
{
}

/// The earliest of the next ring times of `alarms`.
pub open spec fn earliest_next_fire(alarms: Seq<AlarmView>, now: int) -> Option<int>
    decreases alarms.len(),
{
    if alarms.len() == 0 {
        None
    } else {
        let rest = earliest_next_fire(alarms.drop_last(), now);
        match (rest, next_fire_of(alarms.last(), now)) {
            (None, x) => x,
            (Some(r), None) => Some(r),
            (Some(r), Some(x)) => if x < r {
                Some(x)
            } else {
                Some(r)
            },
        }
    }
}

/// The tray's next ring is the earliest next ring of any alarm: it is some alarm's next
/// ring, and no alarm rings next before it; there is none only when no alarm rings again.
pub proof fn lemma_earliest_is_minimum(alarms: Seq<AlarmView>, now: int)
    ensures
        earliest_next_fire(alarms, now) matches Some(e) ==> {
            &&& exists|i: int| 0 <= i < alarms.len() && next_fire_of(#[trigger] alarms[i], now) == Some(e)
            &&& forall|i: int|
                0 <= i < alarms.len() ==> (next_fire_of(#[trigger] alarms[i], now) matches Some(m) ==> e <= m)
        },
        earliest_next_fire(alarms, now) is None ==> forall|i: int|
            0 <= i < alarms.len() ==> next_fire_of(#[trigger] alarms[i], now) is None,
    decreases alarms.len(),
{
    if alarms.len() > 0 {
        let init = alarms.drop_last();
        lemma_earliest_is_minimum(init, now);
        let n = alarms.len() - 1;
        let last = next_fire_of(alarms[n], now);
        assert(alarms[n] == alarms.last());
        assert forall|i: int| 0 <= i < n implies next_fire_of(#[trigger] alarms[i], now)
            == next_fire_of(init[i], now) by {
            assert(alarms[i] == init[i]);
        }
        match earliest_next_fire(init, now) {
            Some(r) => {
                let k = choose|k: int|
                    0 <= k < init.len() && next_fire_of(#[trigger] init[k], now) == Some(r);
                assert(next_fire_of(alarms[k], now) == Some(r));
                assert forall|i: int| 0 <= i < alarms.len() implies (next_fire_of(
                    #[trigger] alarms[i],
                    now,
                ) matches Some(m) ==> earliest_next_fire(alarms, now)->0 <= m) by {
                    if i < n {
                        assert(next_fire_of(alarms[i], now) == next_fire_of(init[i], now));
                    }
                }
            },
            None => {
                assert forall|i: int| 0 <= i < n implies next_fire_of(#[trigger] alarms[i], now)
                    is None by {
                    assert(next_fire_of(alarms[i], now) == next_fire_of(init[i], now));
                }
            },
        }
    }
}

/// The earliest next ring time over all alarms, for the tray.
pub fn earliest_fire(alarms: &Vec<Alarm>, now: u64) -> (r: Option<u64>)
    requires
        now <= u64::MAX - 9 * 1440,
    ensures
        r matches Some(m) ==> earliest_next_fire(alarm_views(alarms@), now as int) == Some(
            m as int,
        ),
        r is None ==> earliest_next_fire(alarm_views(alarms@), now as int) is None,
{
    let ghost views = alarm_views(alarms@);
    let mut best: Option<u64> = None;
    let mut i: usize = 0;
    while i < alarms.len()
        invariant
            i <= alarms.len(),
            views == alarm_views(alarms@),
            now <= u64::MAX - 9 * 1440,
            best matches Some(m) ==> earliest_next_fire(views.take(i as int), now as int) == Some(
                m as int,
            ),
            best is None ==> earliest_next_fire(views.take(i as int), now as int) is None,
        decreases alarms.len() - i,
    {
        let next = next_fire(&alarms[i], now);
        proof {
            assert(views.take(i + 1).drop_last() =~= views.take(i as int));
            assert(views.take(i + 1).last() == alarms@[i as int]@);
        }
        best = match (best, next) {
            (None, x) => x,
            (Some(b), None) => Some(b),
            (Some(b), Some(x)) => if x < b {
                Some(x)
            } else {
                Some(b)
            },
        };
        i = i + 1;
    }
    proof {
        assert(views.take(alarms.len() as int) =~= views);
    }
    best
}

/// The indices, ascending, of the alarms among the first `n` that ring at minute `m`.
pub open spec fn firing_among(alarms: Seq<AlarmView>, m: int, n: int) -> Seq<usize>
    decreases n,
{
    if n <= 0 {
        Seq::empty()
    } else if fires_at(alarms[n - 1], m) {
        firing_among(alarms, m, n - 1).push((n - 1) as usize)
    } else {
        firing_among(alarms, m, n - 1)
    }
}

/// The indices, ascending, of the alarms that ring at minute `m`.
pub open spec fn firing(alarms: Seq<AlarmView>, m: int) -> Seq<usize> {
    firing_among(alarms, m, alarms.len() as int)
}

/// What a poll at minute `now` reports, given the minute of the previous poll: nothing
/// when that was this same minute, otherwise every alarm that rings at `now`.
pub open spec fn poll_result(last: Option<u64>, alarms: Seq<AlarmView>, now: u64) -> Seq<usize> {
    if last == Some(now) {
        Seq::empty()
    } else {
        firing(alarms, now as int)
    }
}

/// Among the first `n` alarms, an index is reported for minute `m` exactly when that alarm
/// rings at `m` (every ringing one is listed, and every listed one rings); the listed
/// indices are strictly ascending, so none is listed twice.
pub proof fn lemma_firing_members(alarms: Seq<AlarmView>, m: int, n: int)
    requires
        0 <= n <= alarms.len(),
        alarms.len() <= usize::MAX,
    ensures
        forall|i: int|
            0 <= i < n && fires_at(alarms[i], m) ==> firing_among(alarms, m, n).contains(
                i as usize,
            ),
        forall|j: int|
            0 <= j < firing_among(alarms, m, n).len() ==> {
                let i = #[trigger] firing_among(alarms, m, n)[j];
                &&& i < n
                &&& fires_at(alarms[i as int], m)
            },
        forall|j1: int, j2: int|
            0 <= j1 < j2 < firing_among(alarms, m, n).len() ==> firing_among(alarms, m, n)[j1]
                < firing_among(alarms, m, n)[j2],
    decreases n,
{
    if n > 0 {
        lemma_firing_members(alarms, m, n - 1);
        let prev = firing_among(alarms, m, n - 1);
        if fires_at(alarms[n - 1], m) {
            let cur = prev.push((n - 1) as usize);
            assert(cur[cur.len() - 1] == (n - 1) as usize);
            assert forall|i: int| 0 <= i < n && fires_at(alarms[i], m) implies cur.contains(
                i as usize,
            ) by {
                if i < n - 1 {
                    let j = choose|j: int| 0 <= j < prev.len() && prev[j] == i as usize;
                    assert(cur[j] == i as usize);
                }
            }
        }
    }
}

/// The reports of successive polls at the minutes `times`, the alarms being read afresh
/// before each poll (`alarms[i]` for poll `i`), from a scheduler whose last poll was at
/// `last`.
pub open spec fn poll_reports(
    last: Option<u64>,
    alarms: Seq<Seq<AlarmView>>,
    times: Seq<u64>,
) -> Seq<Seq<usize>>
    decreases times.len(),
{
    if times.len() == 0 || alarms.len() == 0 {
        Seq::empty()
    } else {
        seq![poll_result(last, alarms[0], times[0])] + poll_reports(
            Some(times[0]),
            alarms.drop_first(),
            times.drop_first(),
        )
    }
}

proof fn lemma_poll_reports_at(
    last: Option<u64>,
    alarms: Seq<Seq<AlarmView>>,
    times: Seq<u64>,
    k: int,
)
    requires
        alarms.len() == times.len(),
        0 <= k < times.len(),
    ensures
        poll_reports(last, alarms, times).len() == times.len(),
        poll_reports(last, alarms, times)[k] == poll_result(
            if k == 0 {
                last
            } else {
                Some(times[k - 1])
            },
            alarms[k],
            times[k],
        ),
    decreases times.len(),
{
    if times.len() == 1 {
        assert(poll_reports(Some(times[0]), alarms.drop_first(), times.drop_first())
            =~= Seq::<Seq<usize>>::empty());
    } else {
        if k > 0 {
            lemma_poll_reports_at(Some(times[0]), alarms.drop_first(), times.drop_first(), k - 1);
        } else {
            lemma_poll_reports_at(Some(times[0]), alarms.drop_first(), times.drop_first(), 0);
        }
    }
}

/// However often a minute is polled, its alarms are reported at most once: with the clock
/// not going backwards, a later poll in an already polled minute reports nothing.
pub proof fn lemma_rings_once_per_minute(
    last: Option<u64>,
    alarms: Seq<Seq<AlarmView>>,
    times: Seq<u64>,
    j: int,
    k: int,
)
    requires
        alarms.len() == times.len(),
        forall|a: int, b: int| 0 <= a <= b < times.len() ==> times[a] <= times[b],
        0 <= j < k < times.len(),
        times[j] == times[k],
    ensures
        poll_reports(last, alarms, times)[k] == Seq::<usize>::empty(),
{
    lemma_poll_reports_at(last, alarms, times, k);
    assert(times[j] <= times[k - 1]);
}

/// A poll reports only alarms that ring in the minute of that poll: a minute slept through
/// is never rung late.
pub proof fn lemma_no_late_ring(
    last: Option<u64>,
    alarms: Seq<Seq<AlarmView>>,
    times: Seq<u64>,
    k: int,
    j: int,
)
    requires
        alarms.len() == times.len(),
        forall|a: int| 0 <= a < alarms.len() ==> #[trigger] alarms[a].len() <= usize::MAX,
        0 <= k < times.len(),
        0 <= j < poll_reports(last, alarms, times)[k].len(),
    ensures
        ({
            let i = poll_reports(last, alarms, times)[k][j] as int;
            &&& 0 <= i < alarms[k].len()
            &&& fires_at(alarms[k][i], times[k] as int)
        }),
{
    lemma_poll_reports_at(last, alarms, times, k);
    lemma_firing_members(alarms[k], times[k] as int, alarms[k].len() as int);
}

/// The first poll of a minute reports every alarm that rings in it.
pub proof fn lemma_first_poll_rings(
    last: Option<u64>,
    alarms: Seq<Seq<AlarmView>>,
    times: Seq<u64>,
    k: int,
    i: int,
)
    requires
        alarms.len() == times.len(),
        forall|a: int| 0 <= a < alarms.len() ==> #[trigger] alarms[a].len() <= usize::MAX,
        0 <= k < times.len(),
        (if k == 0 {
            last
        } else {
            Some(times[k - 1])
        }) != Some(times[k]),
        0 <= i < alarms[k].len(),
        fires_at(alarms[k][i], times[k] as int),
    ensures
        poll_reports(last, alarms, times)[k].contains(i as usize),
{
    lemma_poll_reports_at(last, alarms, times, k);
    lemma_firing_members(alarms[k], times[k] as int, alarms[k].len() as int);
}

/// Decides, poll by poll, which alarms ring. The daemon polls several times a minute;
/// the scheduler remembers the minute of the last poll so that each minute rings once.
pub struct Scheduler {
    last_minute: Option<u64>,
}

impl View for Scheduler {
    type V = Option<u64>;

    /// The minute of the last poll, if any.
    closed spec fn view(&self) -> Option<u64> {
        self.last_minute
    }
}

impl Scheduler {
    /// A scheduler that has not polled yet.
    pub fn new() -> (s: Scheduler)
        ensures
            s@ is None,
    {
        Scheduler { last_minute: None }
    }

    /// The alarms that ring now. `now` is the local minute of this poll. A minute already
    /// polled reports nothing; a minute that was never polled (the machine slept through
    /// it) is never reported later.
    pub fn poll(&mut self, alarms: &Vec<Alarm>, now: u64) -> (fired: Vec<usize>)
        ensures
            fired@ == poll_result(old(self)@, alarm_views(alarms@), now),
            final(self)@ == Some(now),
    {
        let ghost views = alarm_views(alarms@);
        let mut fired: Vec<usize> = Vec::new();
        if self.last_minute == Some(now) {
            return fired;
        }
        self.last_minute = Some(now);
        let mut i: usize = 0;
        while i < alarms.len()
            invariant
                i <= alarms.len(),
                views == alarm_views(alarms@),
                fired@ == firing_among(views, now as int, i as int),
            decreases alarms.len() - i,
        {
            if fires_in_minute(&alarms[i], now) {
                fired.push(i);
            }
            i = i + 1;
        }
        fired
    }
}

} // verus!
