//! The report sampler: the reporting window, the evenly spaced bucket
//! timestamps within it, and the rows that the fetched samples give.
use vstd::prelude::*;
use crate::config::{Device, Mib};
use crate::poll::Sample;

verus! {

/// What can keep a report from being set up.
#[derive(Debug, Clone, Copy, PartialEq, Eq, Structural)]
pub enum OutputError {
    /// The system clock reads before the epoch.
    SystemTime,
    /// The clock's seconds do not fit in an `i64`.
    TryFromInt,
    /// The window would begin before the epoch.
    Window,
}

/// What to report on and over which window, in seconds since the epoch.
pub struct PrintOption {
    pub need_print: bool,
    pub device: String,
    pub parameter: String,
    pub first_time: u64,
    pub lats_time: u64,
    pub num_reports: usize,
}

/// The default window: the last hour.
pub const DEFAULT_WINDOW_SECS: u64 = 3600;

/// The default number of buckets in a window.
pub const DEFAULT_NUM_REPORTS: usize = 10;

/// One row of a report: a stored sample and the divisor it is shown with.
#[derive(Debug, Clone, Copy, PartialEq, Eq, Structural)]
pub struct ReportRow {
    pub start: u64,
    pub data: i64,
    pub divisor: i64,
}

/// Timestamp `n` of a window split into `num` buckets.
pub open spec fn bucket_time(first: u64, last: u64, num: usize, n: int) -> int {
    first + ((last - first) / (num as int)) * n
}

/// Whether sample `i` is shown: always the first one, every later one
/// unless it repeats the previous sample's timestamp.
pub open spec fn kept(s: Seq<Sample>, i: int) -> bool {
    i == 0 || s[i].start != s[i - 1].start
}

/// The rows that a sequence of fetched samples gives.
pub open spec fn rows(s: Seq<Sample>, divisor: i64) -> Seq<ReportRow>
    decreases s.len(),
{
    if s.len() == 0 {
        Seq::empty()
    } else {
        rows(s.drop_last(), divisor) + if kept(s, s.len() - 1) {
            seq![ReportRow { start: s.last().start, data: s.last().data, divisor }]
        } else {
            Seq::empty()
        }
    }
}

/// Division truncated toward zero, as Rust's integer `/` does.
pub open spec fn trunc_div(a: int, d: int) -> int {
    if a >= 0 {
        a / d
    } else {
        -((-a) / d)
    }
}

/// The remainder that goes with `trunc_div`: it has the sign of `a`.
pub open spec fn trunc_rem(a: int, d: int) -> int {
    if a >= 0 {
        a % d
    } else {
        -((-a) % d)
    }
}

/// The last second of year 9999, in seconds since the epoch.
pub const LAST_SHOWN_SECOND: i64 = 253_402_300_799;

/// The UTC text `YYYY-MM-DD HH:MM:SS` of a second since the epoch.
pub uninterp spec fn timestamp_text(secs: i64) -> Seq<char>;

/// Relies on chrono's `DateTime::<Utc>::from_timestamp` and its `format`:
/// the text depends on the seconds alone.
/// Every second from the epoch up to the end of year 9999 is in its range.
#[verifier::external_body]
fn utc_text(secs: i64) -> (r: Option<String>)
    ensures
        r matches Some(t) ==> t@ == timestamp_text(secs),
        0 <= secs <= LAST_SHOWN_SECOND ==> r is Some,
{
    match chrono::DateTime::<chrono::Utc>::from_timestamp(secs, 0) {
        Some(d) => Some(d.format("%Y-%m-%d %H:%M:%S").to_string()),
        None => None,
    }
}

#[verifier::external_type_specification]
#[verifier::external_body]
pub struct ExSystemTime(std::time::SystemTime);

/// Relies on std's `SystemTime::now`: the current reading of the system
/// clock, of which nothing is promised.
pub assume_specification[ std::time::SystemTime::now ]() -> std::time::SystemTime;

/// Relies on std's `SystemTime::duration_since(UNIX_EPOCH)`: the whole
/// seconds from the epoch to `t`, or none when `t` is before the epoch.
#[verifier::external_body]
fn seconds_since_epoch(t: &std::time::SystemTime) -> (r: Option<u64>) {
    match t.duration_since(std::time::UNIX_EPOCH) {
        Ok(d) => Some(d.as_secs()),
        Err(_) => None,
    }
}

/// The clock reading `s`, in whole seconds since the epoch, as an `i64`;
/// none stands for a clock before the epoch.
pub fn unix_seconds(s: Option<u64>) -> (r: Result<i64, OutputError>)
    ensures
        s is None ==> r == Err::<i64, OutputError>(OutputError::SystemTime),
        s matches Some(x) ==> (x <= i64::MAX ==> r == Ok::<i64, OutputError>(x as i64)) && (x
            > i64::MAX ==> r == Err::<i64, OutputError>(OutputError::TryFromInt)),
{
    match s {
        Some(x) => {
            if x <= 0x7fff_ffff_ffff_ffff {
                Ok(x as i64)
            } else {
                Err(OutputError::TryFromInt)
            }
        },
        None => Err(OutputError::SystemTime),
    }
}

/// The current time in whole seconds since the epoch.
pub fn unix_time() -> (r: Result<i64, OutputError>)
    ensures
        r matches Ok(t) ==> t >= 0,
{
    let now = std::time::SystemTime::now();
    unix_seconds(seconds_since_epoch(&now))
}

impl ReportRow {
    /// The shown value `data / divisor`, as its whole part and remainder,
    /// both truncated toward zero; none unless the divisor is positive.
    pub fn scaled(&self) -> (r: Option<(i64, i64)>)
        ensures
            self.divisor < 1 ==> r is None,
            self.divisor >= 1 ==> r == Some(
                (
                    trunc_div(self.data as int, self.divisor as int) as i64,
                    trunc_rem(self.data as int, self.divisor as int) as i64,
                ),
            ),
    {
        if self.divisor < 1 {
            return None;
        }
        let d = self.divisor as u64;
        if self.data >= 0 {
            let a = self.data as u64;
            Some(((a / d) as i64, (a % d) as i64))
        } else {
            let a: u64 = if self.data == i64::MIN {
                0x8000_0000_0000_0000
            } else {
                (-self.data) as u64
            };
            let q = a / d;
            let m = a % d;
            assert(q <= a) by (nonlinear_arith)
                requires
                    q == a / d,
                    d >= 1,
            ;
            let qi: i64 = if q == 0x8000_0000_0000_0000 {
                i64::MIN
            } else {
                -(q as i64)
            };
            Some((qi, -(m as i64)))
        }
    }

    /// The row's timestamp as UTC text; none when it is out of the range
    /// that can be shown.
    pub fn time_text(&self) -> (r: Option<String>)
        ensures
            self.start > i64::MAX ==> r is None,
            r matches Some(t) ==> t@ == timestamp_text(self.start as i64),
            self.start <= LAST_SHOWN_SECOND ==> (r matches Some(t) && t@ == timestamp_text(
                self.start as i64,
            )),
    {
        if self.start > 0x7fff_ffff_ffff_ffff {
            None
        } else {
            utc_text(self.start as i64)
        }
    }
}


/// The index of the first device with address `ip`.
pub open spec fn find_device(devs: Seq<Device>, ip: Seq<char>) -> Option<int>
    decreases devs.len(),
{
    if devs.len() == 0 {
        None
    } else {
        match find_device(devs.drop_last(), ip) {
            Some(i) => Some(i),
            None => if devs.last().ip@ == ip {
                Some(devs.len() - 1)
            } else {
                None
            },
        }
    }
}

/// A parameter is reported when no name is asked for or its name is the one asked for.
pub open spec fn wanted(m: Mib, name: Seq<char>) -> bool {
    name.len() == 0 || m.name@ == name
}

/// The indices of the parameters that are reported, in order.
pub open spec fn picked(ms: Seq<Mib>, name: Seq<char>) -> Seq<usize>
    decreases ms.len(),
{
    if ms.len() == 0 {
        Seq::empty()
    } else {
        picked(ms.drop_last(), name) + if wanted(ms.last(), name) {
            seq![(ms.len() - 1) as usize]
        } else {
            Seq::empty()
        }
    }
}

impl PrintOption {
    /// The window is not reversed and has at least one bucket.
    pub open spec fn wf(&self) -> bool {
        self.first_time <= self.lats_time && self.num_reports >= 1
    }

    /// Options that print nothing yet and cover the hour before now.
    pub fn new() -> (r: Result<Self, OutputError>)
        ensures
            r matches Ok(p) ==> p.wf() && p.lats_time - p.first_time == DEFAULT_WINDOW_SECS
                && p.num_reports == DEFAULT_NUM_REPORTS && !p.need_print && p.device@.len() == 0
                && p.parameter@.len() == 0,
    {
        let now = unix_time()?;
        PrintOption::starting_at(now as u64)
    }

    /// Options that print nothing yet and cover the hour before `now`; the
    /// window may not begin before the epoch.
    pub fn starting_at(now: u64) -> (r: Result<Self, OutputError>)
        ensures
            now < DEFAULT_WINDOW_SECS ==> r == Err::<Self, OutputError>(OutputError::Window),
            now >= DEFAULT_WINDOW_SECS ==> (r matches Ok(p) && p.wf() && p.lats_time == now
                && p.first_time == now - DEFAULT_WINDOW_SECS && p.num_reports
                == DEFAULT_NUM_REPORTS && !p.need_print && p.device@.len() == 0
                && p.parameter@.len() == 0),
    {
        if now < DEFAULT_WINDOW_SECS {
            return Err(OutputError::Window);
        }
        Ok(
            PrintOption {
                need_print: false,
                device: String::new(),
                parameter: String::new(),
                first_time: now - DEFAULT_WINDOW_SECS,
                lats_time: now,
                num_reports: DEFAULT_NUM_REPORTS,
            },
        )
    }

    /// Sets the window to the `time` minutes before now.
    pub fn set_time(&mut self, time: usize) -> (r: Result<(), OutputError>)
        requires
            old(self).wf(),
        ensures
            final(self).wf(),
            final(self).num_reports == old(self).num_reports,
            final(self).need_print == old(self).need_print,
            final(self).device == old(self).device,
            final(self).parameter == old(self).parameter,
            r is Ok ==> final(self).lats_time - final(self).first_time == time * 60,
            r is Err ==> final(self).first_time == old(self).first_time && final(self).lats_time
                == old(self).lats_time,
    {
        let now = unix_time()?;
        self.set_window(now as u64, time)
    }

    /// Sets the window to the `minutes` minutes before `now`; refused, with
    /// nothing changed, when it would begin before the epoch.
    pub fn set_window(&mut self, now: u64, minutes: usize) -> (r: Result<(), OutputError>)
        requires
            old(self).wf(),
        ensures
            final(self).wf(),
            final(self).num_reports == old(self).num_reports,
            final(self).need_print == old(self).need_print,
            final(self).device == old(self).device,
            final(self).parameter == old(self).parameter,
            minutes * 60 > now ==> r == Err::<(), OutputError>(OutputError::Window) && final(self).first_time
                == old(self).first_time && final(self).lats_time == old(self).lats_time,
            minutes * 60 <= now ==> r is Ok && final(self).lats_time == now && final(self).first_time
                == now - minutes * 60,
    {
        let m = minutes as u64;
        if m > now / 60 {
            assert(m * 60 > now) by (nonlinear_arith)
                requires
                    m > now / 60,
            ;
            return Err(OutputError::Window);
        }
        assert(m * 60 <= now) by (nonlinear_arith)
            requires
                m <= now / 60,
        ;
        self.lats_time = now;
        self.first_time = now - m * 60;
        Ok(())
    }

    /// What a report covers: the first device whose address is `device`, and
    /// those of its parameters that `parameter` names (all when it is empty).
    /// Nothing when no report is asked for or no device has that address.
    pub fn select(&self, devices: &Vec<Device>) -> (r: Option<(usize, Vec<usize>)>)
        ensures
            !self.need_print ==> r is None,
            self.need_print ==> match find_device(devices@, self.device@) {
                None => r is None,
                Some(i) => r matches Some(x) && x.0 == i && x.1@ == picked(
                    devices@[i].mibs@,
                    self.parameter@,
                ),
            },
    {
        if !self.need_print {
            return None;
        }
        let mut i: usize = 0;
        while i < devices.len()
            invariant
                self.need_print,
                0 <= i <= devices@.len(),
                find_device(devices@.take(i as int), self.device@) is None,
            decreases devices@.len() - i,
        {
            assert(devices@.take(i + 1).drop_last() =~= devices@.take(i as int));
            if devices[i].ip == self.device {
                proof {
                    lemma_find_device_prefix(devices@, i + 1, self.device@);
                }
                let d = &devices[i];
                let mut r: Vec<usize> = Vec::new();
                let mut j: usize = 0;
                while j < d.mibs.len()
                    invariant
                        self.need_print,
                        0 <= j <= d.mibs@.len(),
                        r@ == picked(d.mibs@.take(j as int), self.parameter@),
                    decreases d.mibs@.len() - j,
                {
                    assert(d.mibs@.take(j + 1).drop_last() =~= d.mibs@.take(j as int));
                    if self.parameter.as_str().is_empty() || d.mibs[j].name == self.parameter {
                        r.push(j);
                    }
                    j = j + 1;
                }
                assert(d.mibs@.take(j as int) =~= d.mibs@);
                return Some((i, r));
            }
            i = i + 1;
        }
        assert(devices@.take(i as int) =~= devices@);
        None
    }

    /// The timestamps at which samples are fetched: `first + delta * n` for
    /// `n` in `0 .. num_reports - 1`, where `delta` is the window divided by
    /// `num_reports`. The last bucket of the window is not fetched.
    pub fn bucket_times(&self) -> (r: Vec<u64>)
        requires
            self.wf(),
        ensures
            r@.len() == self.num_reports - 1,
            forall|n: int|
                0 <= n < r@.len() ==> r@[n] == bucket_time(
                    self.first_time,
                    self.lats_time,
                    self.num_reports,
                    n,
                ),
    {
        let num = self.num_reports as u64;
        let delta = (self.lats_time - self.first_time) / num;
        let mut r: Vec<u64> = Vec::new();
        let mut n: usize = 0;
        while n < self.num_reports - 1
            invariant
                self.wf(),
                num == self.num_reports,
                delta == (self.lats_time - self.first_time) / (num as int),
                0 <= n <= self.num_reports - 1,
                r@.len() == n,
                forall|k: int|
                    0 <= k < n ==> r@[k] == bucket_time(
                        self.first_time,
                        self.lats_time,
                        self.num_reports,
                        k,
                    ),
            decreases self.num_reports - 1 - n,
        {
            let nn = n as u64;
            assert(delta * nn <= self.lats_time - self.first_time) by (nonlinear_arith)
                requires
                    delta == (self.lats_time - self.first_time) / (num as int),
                    nn < num,
                    num >= 1,
                    self.first_time <= self.lats_time,
            ;
            r.push(self.first_time + delta * nn);
            n = n + 1;
        }
        r
    }
}

/// The rows of a report: each fetched sample in order, but one that repeats
/// the timestamp of the sample before it is left out.
pub fn report_rows(samples: &Vec<Sample>, divisor: i64) -> (r: Vec<ReportRow>)
    ensures
        r@ == rows(samples@, divisor),
{
    let mut r: Vec<ReportRow> = Vec::new();
    let mut last_report_time: Option<u64> = None;
    let mut i: usize = 0;
    while i < samples.len()
        invariant
            0 <= i <= samples@.len(),
            r@ == rows(samples@.take(i as int), divisor),
            last_report_time == if i == 0 {
                None
            } else {
                Some(samples@[i - 1].start)
            },
        decreases samples@.len() - i,
    {
        let s = samples[i];
        let ghost pre = samples@.take(i + 1);
        assert(pre.drop_last() =~= samples@.take(i as int));
        assert(kept(pre, i as int) == kept(samples@, i as int));
        let show = match last_report_time {
            None => true,
            Some(t) => t != s.start,
        };
        if show {
            r.push(ReportRow { start: s.start, data: s.data, divisor });
        }
        last_report_time = Some(s.start);
        i = i + 1;
    }
    assert(samples@.take(i as int) =~= samples@);
    r
}

proof fn lemma_find_device_prefix(devs: Seq<Device>, i: int, ip: Seq<char>)
    requires
        0 <= i <= devs.len(),
        find_device(devs.take(i), ip) is Some,
    ensures
        find_device(devs, ip) == find_device(devs.take(i), ip),
    decreases devs.len() - i,
{
    if i < devs.len() {
        assert(devs.take(i + 1).drop_last() =~= devs.take(i));
        lemma_find_device_prefix(devs, i + 1, ip);
    } else {
        assert(devs.take(i) =~= devs);
    }
}

proof fn lemma_rows_last(s: Seq<Sample>, divisor: i64)
    ensures
        rows(s, divisor).len() > 0 ==> rows(s, divisor).last().start == s.last().start,
        rows(s, divisor).len() <= s.len(),
    decreases s.len(),
{
    if s.len() > 0 {
        lemma_rows_last(s.drop_last(), divisor);
    }
}

/// The first fetched sample is always shown, as the first row, whatever
/// its timestamp.
pub proof fn lemma_rows_first(s: Seq<Sample>, divisor: i64)
    requires
        s.len() > 0,
    ensures
        rows(s, divisor).len() > 0,
        rows(s, divisor)[0] == (ReportRow { start: s[0].start, data: s[0].data, divisor }),
    decreases s.len(),
{
    if s.len() == 1 {
        assert(s.drop_last() =~= Seq::<Sample>::empty());
        assert(rows(s.drop_last(), divisor) =~= Seq::<ReportRow>::empty());
    } else {
        lemma_rows_first(s.drop_last(), divisor);
    }
}

/// Samples that all share one timestamp, as when every bucket's lookup
/// returns the same stored sample, give exactly one row.
pub proof fn lemma_rows_one_sample(s: Seq<Sample>, divisor: i64)
    requires
        s.len() > 0,
        forall|i: int| 0 <= i < s.len() ==> (#[trigger] s[i]).start == s[0].start,
    ensures
        rows(s, divisor).len() == 1,
    decreases s.len(),
{
    if s.len() == 1 {
        assert(s.drop_last() =~= Seq::<Sample>::empty());
        assert(rows(s.drop_last(), divisor) =~= Seq::<ReportRow>::empty());
    } else {
        let p = s.drop_last();
        assert forall|i: int| 0 <= i < p.len() implies (#[trigger] p[i]).start == p[0].start by {
            assert(p[i] == s[i]);
        }
        lemma_rows_one_sample(p, divisor);
        assert(s[s.len() - 1].start == s[s.len() - 2].start);
    }
}

/// No two consecutive rows of a report share a timestamp: a sample that
/// storage returns again for the next bucket is shown once.
pub proof fn lemma_rows_no_repeat(s: Seq<Sample>, divisor: i64)
    ensures
        forall|k: int|
            0 <= k < rows(s, divisor).len() - 1 ==> #[trigger] rows(s, divisor)[k].start != rows(
                s,
                divisor,
            )[k + 1].start,
        forall|i: int| 0 < i < s.len() && s[i].start == s[i - 1].start ==> !#[trigger] kept(s, i),
    decreases s.len(),
{
    if s.len() > 0 {
        let p = s.drop_last();
        lemma_rows_no_repeat(p, divisor);
        lemma_rows_last(p, divisor);
        let rp = rows(p, divisor);
        assert forall|k: int| 0 <= k < rows(s, divisor).len() - 1 implies #[trigger] rows(
            s,
            divisor,
        )[k].start != rows(s, divisor)[k + 1].start by {
            if k + 1 < rp.len() {
                assert(rows(s, divisor)[k] == rp[k]);
                assert(rows(s, divisor)[k + 1] == rp[k + 1]);
            } else {
                assert(kept(s, s.len() - 1));
                assert(rows(s, divisor)[k] == rp.last());
                assert(rp.last().start == p.last().start);
            }
        }
    }
}

} // verus!
