//! The alarms and the configuration that holds them.

use vstd::prelude::*;
use vstd::string::StringExecFns;
use crate::clock::{
    day_number, parse_time_input, time_from_input, weekday_after_monday, TimeOfDay, Weekday,
};

verus! {

/// One alarm as the settings window and the configuration file describe it.
pub struct Alarm {
    /// What the ringing window shows.
    pub label: String,
    /// When, to the minute.
    pub time: TimeOfDay,
    /// The weekdays it rings on.
    pub days: Vec<Weekday>,
    /// A disabled alarm is as good as absent.
    pub enabled: bool,
    /// Ring only when a headset is connected.
    pub require_headset: bool,
}

/// The mathematical content of an [`Alarm`].
pub struct AlarmView {
    pub label: Seq<char>,
    pub time: TimeOfDay,
    pub days: Seq<Weekday>,
    pub enabled: bool,
    pub require_headset: bool,
}

impl View for Alarm {
    type V = AlarmView;

    open spec fn view(&self) -> AlarmView {
        AlarmView {
            label: self.label@,
            time: self.time,
            days: self.days@,
            enabled: self.enabled,
            require_headset: self.require_headset,
        }
    }
}

/// Everything the configuration file holds.
pub struct Config {
    /// The ring tone; empty means "use the packaged default".
    pub sound: String,
    pub alarms: Vec<Alarm>,
}

/// The mathematical content of a [`Config`].
pub struct ConfigView {
    pub sound: Seq<char>,
    pub alarms: Seq<AlarmView>,
}

/// The views of a list of alarms.
pub open spec fn alarm_views(alarms: Seq<Alarm>) -> Seq<AlarmView> {
    alarms.map_values(|a: Alarm| a@)
}

impl View for Config {
    type V = ConfigView;

    open spec fn view(&self) -> ConfigView {
        ConfigView { sound: self.sound@, alarms: alarm_views(self.alarms@) }
    }
}

/// How many times `days` lists `d`.
pub open spec fn count_day(days: Seq<Weekday>, d: Weekday) -> nat
    decreases days.len(),
{
    if days.len() == 0 {
        0
    } else {
        count_day(days.drop_last(), d) + if days.last() == d {
            1nat
        } else {
            0nat
        }
    }
}

/// `n` copies of `d`.
pub open spec fn repeat_day(d: Weekday, n: nat) -> Seq<Weekday> {
    Seq::new(n, |i: int| d)
}

/// The runs of the first `k` weekdays (Monday first) in `days`, each as often as listed.
pub open spec fn day_runs(days: Seq<Weekday>, k: int) -> Seq<Weekday>
    decreases k,
{
    if k <= 0 {
        Seq::empty()
    } else {
        day_runs(days, k - 1) + repeat_day(
            weekday_after_monday(k - 1),
            count_day(days, weekday_after_monday(k - 1)),
        )
    }
}

/// `days` sorted Monday first.
pub open spec fn sorted_days(days: Seq<Weekday>) -> Seq<Weekday> {
    day_runs(days, 7)
}

/// `i` is the first position of `d` in `days`.
pub open spec fn is_first_position(days: Seq<Weekday>, d: Weekday, i: int) -> bool {
    &&& 0 <= i < days.len()
    &&& days[i] == d
    &&& forall|j: int| 0 <= j < i ==> days[j] != d
}

/// The first position of `d` in `days`.
pub open spec fn first_position(days: Seq<Weekday>, d: Weekday) -> int {
    choose|i: int| is_first_position(days, d, i)
}

/// `days` with its first `d` removed, or `d` added at the end when it is not listed.
pub open spec fn flip_day(days: Seq<Weekday>, d: Weekday) -> Seq<Weekday> {
    if days.contains(d) {
        days.remove(first_position(days, d))
    } else {
        days.push(d)
    }
}

/// What clicking weekday `d` of an alarm does to its list: `d` is switched, and the list is
/// sorted Monday first.
pub open spec fn toggled_days(days: Seq<Weekday>, d: Weekday) -> Seq<Weekday> {
    sorted_days(flip_day(days, d))
}

/// Days numbered from Monday come in order.
pub open spec fn is_sorted_days(days: Seq<Weekday>) -> bool {
    forall|i: int, j: int|
        0 <= i <= j < days.len() ==> day_number(#[trigger] days[i]) <= day_number(#[trigger] days[j])
}

fn count_in(days: &Vec<Weekday>, d: Weekday) -> (n: usize)
    ensures
        n == count_day(days@, d),
{
    let mut n: usize = 0;
    let mut i: usize = 0;
    proof {
        assert(days@.take(0) =~= Seq::<Weekday>::empty());
    }
    while i < days.len()
        invariant
            i <= days.len(),
            n <= i,
            n == count_day(days@.take(i as int), d),
        decreases days.len() - i,
    {
        proof {
            assert(days@.take(i + 1).drop_last() =~= days@.take(i as int));
        }
        if days[i] == d {
            n = n + 1;
        }
        i = i + 1;
    }
    proof {
        assert(days@.take(days@.len() as int) =~= days@);
    }
    n
}

/// `days` sorted Monday first, each weekday as often as it was listed.
pub fn sort_days(days: &Vec<Weekday>) -> (sorted: Vec<Weekday>)
    ensures
        sorted@ == sorted_days(days@),
{
    let mut out: Vec<Weekday> = Vec::new();
    let mut k: u8 = 0;
    while k < 7
        invariant
            k <= 7,
            out@ == day_runs(days@, k as int),
        decreases 7 - k,
    {
        let d = Weekday::from_monday(k);
        let n = count_in(days, d);
        let ghost before = out@;
        let mut m: usize = 0;
        while m < n
            invariant
                m <= n,
                n == count_day(days@, d),
                out@ == before + repeat_day(d, m as nat),
            decreases n - m,
        {
            out.push(d);
            proof {
                assert(repeat_day(d, (m + 1) as nat) =~= repeat_day(d, m as nat).push(d));
            }
            m = m + 1;
        }
        k = k + 1;
    }
    out
}

fn position_of(days: &Vec<Weekday>, d: Weekday) -> (r: Option<usize>)
    ensures
        r matches Some(i) ==> days@.contains(d) && i == first_position(days@, d) && i < days@.len(),
        r is None ==> !days@.contains(d),
{
    let mut i: usize = 0;
    while i < days.len()
        invariant
            i <= days.len(),
            forall|j: int| 0 <= j < i ==> days@[j] != d,
        decreases days.len() - i,
    {
        if days[i] == d {
            proof {
                assert(is_first_position(days@, d, i as int));
                let k = first_position(days@, d);
                assert(is_first_position(days@, d, k));
                assert(k == i) by {
                    if k < i {
                        assert(days@[k] != d);
                    } else if k > i {
                        assert(days@[i as int] != d);
                    }
                }
            }
            return Some(i);
        }
        i = i + 1;
    }
    None
}

/// Switches weekday `d` in `days`, then sorts them Monday first.
pub fn toggle_day_in(days: &mut Vec<Weekday>, d: Weekday)
    ensures
        final(days)@ == toggled_days(old(days)@, d),
{
    match position_of(days, d) {
        Some(at) => {
            days.remove(at);
        },
        None => {
            days.push(d);
        },
    }
    let sorted = sort_days(days);
    *days = sorted;
}

proof fn lemma_count_concat(a: Seq<Weekday>, b: Seq<Weekday>, e: Weekday)
    ensures
        count_day(a + b, e) == count_day(a, e) + count_day(b, e),
    decreases b.len(),
{
    if b.len() == 0 {
        assert(a + b =~= a);
    } else {
        assert((a + b).drop_last() =~= a + b.drop_last());
        lemma_count_concat(a, b.drop_last(), e);
    }
}

proof fn lemma_count_repeat(x: Weekday, n: nat, e: Weekday)
    ensures
        count_day(repeat_day(x, n), e) == if x == e {
            n
        } else {
            0
        },
    decreases n,
{
    if n > 0 {
        assert(repeat_day(x, n).drop_last() =~= repeat_day(x, (n - 1) as nat));
        lemma_count_repeat(x, (n - 1) as nat, e);
    }
}

proof fn lemma_count_contains(s: Seq<Weekday>, e: Weekday)
    ensures
        count_day(s, e) > 0 <==> s.contains(e),
    decreases s.len(),
{
    if s.len() > 0 {
        lemma_count_contains(s.drop_last(), e);
        if s.drop_last().contains(e) {
            let k = choose|k: int| 0 <= k < s.drop_last().len() && s.drop_last()[k] == e;
            assert(s[k] == e);
        }
        if s.contains(e) && s.last() != e {
            let k = choose|k: int| 0 <= k < s.len() && s[k] == e;
            assert(k < s.len() - 1);
            assert(s.drop_last()[k] == e);
        }
    }
}

proof fn lemma_count_remove(s: Seq<Weekday>, i: int, e: Weekday)
    requires
        0 <= i < s.len(),
    ensures
        count_day(s, e) == count_day(s.remove(i), e) + if s[i] == e {
            1nat
        } else {
            0nat
        },
{
    assert(s =~= s.take(i) + seq![s[i]] + s.skip(i + 1));
    assert(s.remove(i) =~= s.take(i) + s.skip(i + 1));
    lemma_count_concat(s.take(i) + seq![s[i]], s.skip(i + 1), e);
    lemma_count_concat(s.take(i), seq![s[i]], e);
    lemma_count_concat(s.take(i), s.skip(i + 1), e);
    assert(seq![s[i]].drop_last() =~= Seq::<Weekday>::empty());
    assert(count_day(Seq::<Weekday>::empty(), e) == 0);
    assert(seq![s[i]].last() == s[i]);
    assert(count_day(seq![s[i]], e) == if s[i] == e {
        1nat
    } else {
        0nat
    });
}

proof fn lemma_count_flip(s: Seq<Weekday>, d: Weekday, e: Weekday)
    ensures
        e != d ==> count_day(flip_day(s, d), e) == count_day(s, e),
        count_day(s, d) == 0 ==> count_day(flip_day(s, d), d) == 1,
        count_day(s, d) > 0 ==> count_day(flip_day(s, d), d) == count_day(s, d) - 1,
{
    lemma_count_contains(s, d);
    if s.contains(d) {
        let i = first_position(s, d);
        assert(is_first_position(s, d, i)) by {
            let k = choose|k: int| 0 <= k < s.len() && s[k] == d;
            lemma_first_position_exists(s, d, k);
        }
        lemma_count_remove(s, i, e);
        lemma_count_remove(s, i, d);
    } else {
        assert(s.push(d).drop_last() =~= s);
    }
}

proof fn lemma_first_position_exists(s: Seq<Weekday>, d: Weekday, k: int)
    requires
        0 <= k < s.len(),
        s[k] == d,
    ensures
        is_first_position(s, d, first_position(s, d)),
    decreases k,
{
    if exists|j: int| 0 <= j < k && s[j] == d {
        let j = choose|j: int| 0 <= j < k && s[j] == d;
        lemma_first_position_exists(s, d, j);
    } else {
        assert(is_first_position(s, d, k));
    }
}

proof fn lemma_runs_count(s: Seq<Weekday>, k: int, e: Weekday)
    requires
        0 <= k <= 7,
    ensures
        count_day(day_runs(s, k), e) == if day_number(e) < k {
            count_day(s, e)
        } else {
            0
        },
    decreases k,
{
    if k > 0 {
        lemma_runs_count(s, k - 1, e);
        let x = weekday_after_monday(k - 1);
        lemma_count_concat(day_runs(s, k - 1), repeat_day(x, count_day(s, x)), e);
        lemma_count_repeat(x, count_day(s, x), e);
        crate::clock::lemma_day_number_round_trip(e);
    }
}

proof fn lemma_runs_sorted(s: Seq<Weekday>, k: int)
    requires
        0 <= k <= 7,
    ensures
        is_sorted_days(day_runs(s, k)),
        forall|i: int| 0 <= i < day_runs(s, k).len() ==> day_number(#[trigger] day_runs(s, k)[i]) < k,
    decreases k,
{
    if k > 0 {
        lemma_runs_sorted(s, k - 1);
        let x = weekday_after_monday(k - 1);
        let a = day_runs(s, k - 1);
        let b = repeat_day(x, count_day(s, x));
        let r = day_runs(s, k);
        assert(r == a + b);
        assert(day_number(x) == k - 1);
        assert forall|i: int| 0 <= i < r.len() implies day_number(#[trigger] r[i]) < k by {
            if i >= a.len() {
                assert(r[i] == b[i - a.len()]);
            } else {
                assert(r[i] == a[i]);
            }
        }
        assert forall|i: int, j: int|
            0 <= i <= j < r.len() implies day_number(#[trigger] r[i]) <= day_number(#[trigger] r[j]) by {
            if j < a.len() {
                assert(r[i] == a[i]);
                assert(r[j] == a[j]);
            } else if i >= a.len() {
                assert(r[i] == b[i - a.len()]);
                assert(r[j] == b[j - a.len()]);
            } else {
                assert(r[i] == a[i]);
                assert(r[j] == b[j - a.len()]);
            }
        }
    }
}

proof fn lemma_runs_depend_on_counts(s1: Seq<Weekday>, s2: Seq<Weekday>, k: int)
    requires
        forall|e: Weekday| count_day(s1, e) == count_day(s2, e),
    ensures
        day_runs(s1, k) == day_runs(s2, k),
    decreases k,
{
    if k > 0 {
        lemma_runs_depend_on_counts(s1, s2, k - 1);
        let x = weekday_after_monday(k - 1);
        assert(count_day(s1, x) == count_day(s2, x));
    }
}

/// Clicking a weekday switches that weekday and no other, and the list comes out sorted
/// Monday first. (A weekday listed twice by hand keeps one copy after one click.)
pub proof fn lemma_toggle_day_switches(days: Seq<Weekday>, d: Weekday, e: Weekday)
    ensures
        is_sorted_days(toggled_days(days, d)),
        e != d ==> (toggled_days(days, d).contains(e) <==> days.contains(e)),
        count_day(days, d) <= 1 ==> (toggled_days(days, d).contains(d) <==> !days.contains(d)),
{
    let f = flip_day(days, d);
    lemma_runs_sorted(f, 7);
    lemma_runs_count(f, 7, e);
    lemma_runs_count(f, 7, d);
    crate::clock::lemma_day_number_round_trip(e);
    crate::clock::lemma_day_number_round_trip(d);
    lemma_count_flip(days, d, e);
    lemma_count_contains(days, e);
    lemma_count_contains(days, d);
    lemma_count_contains(f, e);
    lemma_count_contains(f, d);
    lemma_count_contains(toggled_days(days, d), e);
    lemma_count_contains(toggled_days(days, d), d);
}

/// Clicking the same weekday twice gives back the alarm's weekdays, sorted Monday first;
/// a list the settings window wrote (sorted, each weekday once) comes back unchanged.
pub proof fn lemma_toggle_day_twice(days: Seq<Weekday>, d: Weekday)
    requires
        count_day(days, d) <= 1,
    ensures
        toggled_days(toggled_days(days, d), d) == sorted_days(days),
{
    let t1 = toggled_days(days, d);
    let f1 = flip_day(days, d);
    let f2 = flip_day(t1, d);
    assert forall|e: Weekday| count_day(f2, e) == count_day(days, e) by {
        lemma_runs_count(f1, 7, e);
        lemma_runs_count(f1, 7, d);
        crate::clock::lemma_day_number_round_trip(e);
        crate::clock::lemma_day_number_round_trip(d);
        lemma_count_flip(days, d, e);
        lemma_count_flip(t1, d, e);
        lemma_count_flip(days, d, d);
        lemma_count_flip(t1, d, d);
    }
    lemma_runs_depend_on_counts(f2, days, 7);
}

/// Clicking a weekday of a list that names each weekday at most once gives a list that
/// again names each weekday at most once.
pub proof fn lemma_toggle_day_keeps_days_distinct(days: Seq<Weekday>, d: Weekday)
    requires
        forall|e: Weekday| #[trigger] count_day(days, e) <= 1,
    ensures
        forall|e: Weekday| #[trigger] count_day(toggled_days(days, d), e) <= 1,
{
    let f = flip_day(days, d);
    assert forall|e: Weekday| #[trigger] count_day(toggled_days(days, d), e) <= 1 by {
        lemma_runs_count(f, 7, e);
        lemma_count_flip(days, d, e);
        assert(count_day(days, e) <= 1);
    }
}

/// For each weekday, Monday first, whether `days` lists it: the row of day buttons in the
/// settings window.
pub fn weekday_flags(days: &Vec<Weekday>) -> (flags: Vec<bool>)
    ensures
        flags@.len() == 7,
        forall|i: int| 0 <= i < 7 ==> flags@[i] == days@.contains(weekday_after_monday(i)),
{
    let mut flags: Vec<bool> = Vec::new();
    let mut k: u8 = 0;
    while k < 7
        invariant
            k <= 7,
            flags@.len() == k,
            forall|i: int| 0 <= i < k ==> flags@[i] == days@.contains(weekday_after_monday(i)),
        decreases 7 - k,
    {
        flags.push(crate::schedule::lists_day(days, Weekday::from_monday(k)));
        k = k + 1;
    }
    flags
}

/// The alarm the settings window adds: the end of a working-day nap, headset only.
pub open spec fn default_alarm_view() -> AlarmView {
    AlarmView {
        label: "闹钟"@,
        time: TimeOfDay { hour: 13, minute: 30 },
        days: seq![Weekday::Mon, Weekday::Tue, Weekday::Wed, Weekday::Thu, Weekday::Fri],
        enabled: true,
        require_headset: true,
    }
}

/// A new alarm as the settings window adds it.
pub fn default_alarm() -> (a: Alarm)
    ensures
        a@ == default_alarm_view(),
{
    let days = vec![Weekday::Mon, Weekday::Tue, Weekday::Wed, Weekday::Thu, Weekday::Fri];
    let a = Alarm {
        label: String::from_str("闹钟"),
        time: TimeOfDay { hour: 13, minute: 30 },
        days,
        enabled: true,
        require_headset: true,
    };
    proof {
        assert(a@.days =~= default_alarm_view().days);
    }
    a
}

/// Every alarm has a valid time of day.
pub open spec fn times_valid(alarms: Seq<AlarmView>) -> bool {
    forall|i: int| 0 <= i < alarms.len() ==> (#[trigger] alarms[i]).time.wf()
}

impl Alarm {
    /// A copy of this alarm.
    pub fn duplicate(&self) -> (a: Alarm)
        ensures
            a@ == self@,
    {
        Alarm {
            label: self.label.clone(),
            time: self.time,
            days: self.days.clone(),
            enabled: self.enabled,
            require_headset: self.require_headset,
        }
    }
}

impl Default for Config {
    /// No alarms and no sound: what a first run, without a configuration file, starts from.
    fn default() -> (c: Config)
        ensures
            c@.sound == Seq::<char>::empty(),
            c@.alarms == Seq::<AlarmView>::empty(),
    {
        let c = Config { sound: String::new(), alarms: Vec::new() };
        proof {
            assert(c@.alarms =~= Seq::<AlarmView>::empty());
        }
        c
    }
}

impl Config {
    /// Adds a new alarm, as the settings window's add button does.
    pub fn add_alarm(&mut self)
        ensures
            final(self)@.sound == old(self)@.sound,
            final(self)@.alarms == old(self)@.alarms.push(default_alarm_view()),
    {
        let ghost before = self@.alarms;
        self.alarms.push(default_alarm());
        proof {
            assert(self@.alarms =~= before.push(default_alarm_view()));
        }
    }

    /// Deletes alarm `index`.
    pub fn delete_alarm(&mut self, index: usize)
        requires
            index < old(self).alarms@.len(),
        ensures
            final(self)@.sound == old(self)@.sound,
            final(self)@.alarms == old(self)@.alarms.remove(index as int),
    {
        let ghost before = self@.alarms;
        self.alarms.remove(index);
        proof {
            assert(self@.alarms =~= before.remove(index as int));
        }
    }

    /// Puts `a` in place of alarm `index`.
    fn replace_alarm(&mut self, index: usize, a: Alarm)
        requires
            index < old(self).alarms@.len(),
        ensures
            final(self)@.sound == old(self)@.sound,
            final(self)@.alarms == old(self)@.alarms.update(index as int, a@),
    {
        let ghost before = self@.alarms;
        self.alarms.remove(index);
        self.alarms.insert(index, a);
        proof {
            assert(self@.alarms =~= before.update(index as int, a@));
        }
    }

    /// Switches alarm `index` on or off.
    pub fn toggle_enabled(&mut self, index: usize)
        requires
            index < old(self).alarms@.len(),
        ensures
            final(self)@.sound == old(self)@.sound,
            final(self)@.alarms == old(self)@.alarms.update(
                index as int,
                AlarmView { enabled: !old(self)@.alarms[index as int].enabled, ..old(self)@.alarms[index as int] },
            ),
    {
        let mut a = self.alarms[index].duplicate();
        a.enabled = !a.enabled;
        self.replace_alarm(index, a);
    }

    /// Switches whether alarm `index` needs a headset.
    pub fn toggle_headset(&mut self, index: usize)
        requires
            index < old(self).alarms@.len(),
        ensures
            final(self)@.sound == old(self)@.sound,
            final(self)@.alarms == old(self)@.alarms.update(
                index as int,
                AlarmView {
                    require_headset: !old(self)@.alarms[index as int].require_headset,
                    ..old(self)@.alarms[index as int]
                },
            ),
    {
        let mut a = self.alarms[index].duplicate();
        a.require_headset = !a.require_headset;
        self.replace_alarm(index, a);
    }

    /// Switches weekday `weekday` (0 for Monday) of alarm `index`; the weekdays stay sorted
    /// Monday first.
    pub fn toggle_day(&mut self, index: usize, weekday: usize)
        requires
            index < old(self).alarms@.len(),
            weekday < 7,
        ensures
            final(self)@.sound == old(self)@.sound,
            final(self)@.alarms == old(self)@.alarms.update(
                index as int,
                AlarmView {
                    days: toggled_days(
                        old(self)@.alarms[index as int].days,
                        weekday_after_monday(weekday as int),
                    ),
                    ..old(self)@.alarms[index as int]
                },
            ),
    {
        let mut a = self.alarms[index].duplicate();
        toggle_day_in(&mut a.days, Weekday::from_monday(weekday as u8));
        self.replace_alarm(index, a);
    }

    /// Renames alarm `index`.
    pub fn set_label(&mut self, index: usize, label: String)
        requires
            index < old(self).alarms@.len(),
        ensures
            final(self)@.sound == old(self)@.sound,
            final(self)@.alarms == old(self)@.alarms.update(
                index as int,
                AlarmView { label: label@, ..old(self)@.alarms[index as int] },
            ),
    {
        let mut a = self.alarms[index].duplicate();
        a.label = label;
        self.replace_alarm(index, a);
    }

    /// Sets the time of alarm `index` from text typed into the settings window. Text chrono
    /// does not read as `%H:%M` changes nothing and gives `false`.
    pub fn set_time(&mut self, index: usize, text: &str) -> (accepted: bool)
        requires
            index < old(self).alarms@.len(),
        ensures
            accepted == time_from_input(text@) is Some,
            final(self)@.sound == old(self)@.sound,
            time_from_input(text@) matches Some(t) ==> final(self)@.alarms == old(self)@.alarms.update(
                index as int,
                AlarmView { time: t, ..old(self)@.alarms[index as int] },
            ),
            time_from_input(text@) is None ==> final(self)@.alarms == old(self)@.alarms,
    {
        match parse_time_input(text) {
            Some(t) => {
                let mut a = self.alarms[index].duplicate();
                a.time = t;
                self.replace_alarm(index, a);
                true
            },
            None => false,
        }
    }

    /// Sets the ring tone.
    pub fn set_sound(&mut self, sound: String)
        ensures
            final(self)@.sound == sound@,
            final(self)@.alarms == old(self)@.alarms,
    {
        self.sound = sound;
    }
}

/// Every edit of the settings window keeps every alarm's time valid.
pub proof fn lemma_edits_keep_times_valid(alarms: Seq<AlarmView>, index: int, a: AlarmView)
    requires
        times_valid(alarms),
        0 <= index < alarms.len(),
        a.time.wf(),
    ensures
        times_valid(alarms.update(index, a)),
        times_valid(alarms.remove(index)),
        times_valid(alarms.push(default_alarm_view())),
{
    assert forall|i: int| 0 <= i < alarms.remove(index).len() implies (#[trigger] alarms.remove(
        index,
    )[i]).time.wf() by {
        if i < index {
            assert(alarms.remove(index)[i] == alarms[i]);
        } else {
            assert(alarms.remove(index)[i] == alarms[i + 1]);
        }
    }
    assert forall|i: int| 0 <= i < alarms.push(default_alarm_view()).len() implies (
    #[trigger] alarms.push(default_alarm_view())[i]).time.wf() by {
        if i < alarms.len() {
            assert(alarms.push(default_alarm_view())[i] == alarms[i]);
        }
    }
}

} // verus!
