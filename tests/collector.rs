use clibbix::config::{Config, Device, Mib};
use clibbix::output::{report_rows, unix_seconds, unix_time, OutputError, PrintOption, ReportRow};
use clibbix::poll::{cycle_samples, poll_plan, sample_for, PollOutcome, PollTarget, Sample};
use clibbix::value::{normalize, SnmpValue};

fn mib(id: u32, name: &str) -> Mib {
    Mib {
        id,
        name: name.to_string(),
        units: String::new(),
        oid: vec![1, 3, 6, 1, 2, 1, 1, 3],
        devision: 1,
    }
}

fn device(id: u32, ip: &str, mibs: Vec<Mib>) -> Device {
    Device { id, ip: ip.to_string(), community: "public".to_string(), mibs }
}

fn ids(c: &Config) -> (Vec<u32>, Vec<u32>) {
    let d = c.devices.iter().map(|d| d.id).collect();
    let m = c.devices.iter().flat_map(|d| d.mibs.iter().map(|m| m.id)).collect();
    (d, m)
}

#[test]
fn make_id_numbers_fresh_registry() {
    let mut c = Config::new();
    c.devices.push(device(0, "10.0.0.1", vec![mib(0, "a"), mib(0, "b")]));
    c.devices.push(device(0, "10.0.0.2", vec![mib(0, "c")]));
    c.make_id();
    assert_eq!(ids(&c), (vec![1, 2], vec![1, 2, 3]));
}

#[test]
fn make_id_keeps_existing_and_continues_after_max() {
    let mut c = Config::new();
    c.devices.push(device(0, "10.0.0.1", vec![mib(7, "a"), mib(0, "b")]));
    c.devices.push(device(5, "10.0.0.2", vec![mib(0, "c"), mib(2, "d")]));
    c.devices.push(device(0, "10.0.0.3", vec![]));
    c.make_id();
    assert_eq!(ids(&c), (vec![6, 5, 7], vec![7, 8, 9, 2]));
}

#[test]
fn make_id_parameter_max_comes_from_parameters() {
    let mut c = Config::new();
    c.devices.push(device(9, "10.0.0.1", vec![mib(1, "a"), mib(0, "b")]));
    c.make_id();
    assert_eq!(ids(&c), (vec![9], vec![1, 2]));
}

#[test]
fn make_id_twice_is_once() {
    let mut c = Config::new();
    c.devices.push(device(0, "10.0.0.1", vec![mib(0, "a"), mib(4, "b")]));
    c.devices.push(device(3, "10.0.0.2", vec![mib(0, "c")]));
    c.make_id();
    let once = ids(&c);
    c.make_id();
    assert_eq!(ids(&c), once);
    assert_eq!(once, (vec![4, 3], vec![5, 4, 6]));
}

#[test]
fn make_id_device_and_parameter_share_values() {
    let mut c = Config::new();
    c.devices.push(device(0, "10.0.0.1", vec![mib(0, "Uptime")]));
    c.make_id();
    assert_eq!(ids(&c), (vec![1], vec![1]));
    c.devices.push(device(0, "10.0.0.2", vec![mib(0, "Load")]));
    c.make_id();
    assert_eq!(ids(&c), (vec![1, 2], vec![1, 2]));
}

#[test]
fn make_id_keeps_other_fields() {
    let mut c = Config::new();
    c.loop_time = 30;
    c.devices.push(device(0, "10.0.0.1", vec![mib(0, "Uptime")]));
    c.make_id();
    assert_eq!(c.loop_time, 30);
    assert_eq!(c.devices[0].ip, "10.0.0.1");
    assert_eq!(c.devices[0].mibs[0].name, "Uptime");
    assert_eq!(c.devices[0].mibs[0].oid, vec![1, 3, 6, 1, 2, 1, 1, 3]);
}

#[test]
fn example_config_has_one_numbered_device() {
    let mut c = Config::new();
    c.example_config();
    assert_eq!(c.devices.len(), 1);
    assert_eq!(c.devices[0].id, 1);
    assert_eq!(c.devices[0].ip, "127.0.0.1");
    assert_eq!(c.devices[0].community, "public");
    assert_eq!(c.devices[0].mibs[0].id, 1);
    assert_eq!(c.devices[0].mibs[0].name, "Uptime");
    assert_eq!(c.devices[0].mibs[0].units, "seconds");
    assert_eq!(c.devices[0].mibs[0].oid, vec![1, 3, 6, 1, 2, 1, 1, 3]);
    assert_eq!(c.devices[0].mibs[0].devision, 1);
}

#[test]
fn mib_default_divides_by_one() {
    let m = Mib::default();
    assert_eq!(m.id, 0);
    assert_eq!(m.devision, 1);
    assert!(m.oid.is_empty());
}

#[test]
fn normalize_each_tag() {
    assert_eq!(normalize(&SnmpValue::Counter32(4294967295)), 4294967295);
    assert_eq!(normalize(&SnmpValue::Unsigned32(4294967295)), 4294967295);
    assert_eq!(normalize(&SnmpValue::Timeticks(360000)), 360000);
    assert_eq!(normalize(&SnmpValue::Integer(-5)), -5);
    assert_eq!(normalize(&SnmpValue::Counter64(1 << 40)), 1 << 40);
    assert_eq!(normalize(&SnmpValue::Other), 0);
}

#[test]
fn normalize_large_counter64_wraps() {
    assert_eq!(normalize(&SnmpValue::Counter64(u64::MAX)), -1);
    assert_eq!(normalize(&SnmpValue::Counter64(1 << 63)), i64::MIN);
}

fn window(first: u64, last: u64) -> PrintOption {
    PrintOption {
        need_print: true,
        device: String::new(),
        parameter: String::new(),
        first_time: first,
        lats_time: last,
        num_reports: 10,
    }
}

#[test]
fn bucket_times_of_ten_minutes() {
    let p = window(1_000_000, 1_000_600);
    let t = p.bucket_times();
    assert_eq!(t.len(), 9);
    let want: Vec<u64> = (0..9).map(|n| 1_000_000 + 60 * n).collect();
    assert_eq!(t, want);
}

#[test]
fn bucket_times_truncate_delta() {
    let p = window(100, 125);
    assert_eq!(p.bucket_times(), vec![100, 102, 104, 106, 108, 110, 112, 114, 116]);
}

#[test]
fn starting_at_covers_last_hour() {
    let p = PrintOption::starting_at(10_000).unwrap();
    assert_eq!(p.first_time, 6_400);
    assert_eq!(p.lats_time, 10_000);
    assert_eq!(p.num_reports, 10);
    assert!(!p.need_print);
    assert!(matches!(PrintOption::starting_at(3_599), Err(OutputError::Window)));
}

#[test]
fn set_window_in_minutes() {
    let mut p = PrintOption::starting_at(1_000_000).unwrap();
    assert_eq!(p.set_window(2_000_000, 1440), Ok(()));
    assert_eq!(p.first_time, 2_000_000 - 86_400);
    assert_eq!(p.lats_time, 2_000_000);
    assert_eq!(p.set_window(1_000, 60), Err(OutputError::Window));
    assert_eq!(p.lats_time, 2_000_000);
}

#[test]
fn clock_reads_after_epoch() {
    assert!(unix_time().unwrap() > 0);
    let mut p = PrintOption::new().unwrap();
    assert_eq!(p.lats_time - p.first_time, 3600);
    assert_eq!(p.set_time(10), Ok(()));
    assert_eq!(p.lats_time - p.first_time, 600);
}

fn sample(start: u64, data: i64) -> Sample {
    Sample { parameter: 1, object: 1, start, data }
}

#[test]
fn report_rows_drop_repeated_sample() {
    let s = vec![sample(100, 5), sample(100, 5), sample(160, 6), sample(160, 6), sample(220, 7)];
    let r = report_rows(&s, 1);
    let starts: Vec<u64> = r.iter().map(|x| x.start).collect();
    assert_eq!(starts, vec![100, 160, 220]);
    assert_eq!(r[1].data, 6);
}

#[test]
fn report_rows_zero_timestamp_first_is_shown() {
    let s = vec![sample(0, 5), sample(0, 5), sample(60, 6)];
    let r = report_rows(&s, 1);
    assert_eq!(
        r,
        vec![ReportRow { start: 0, data: 5, divisor: 1 }, ReportRow { start: 60, data: 6, divisor: 1 }]
    );
}

#[test]
fn report_rows_one_repeated_sample_gives_one_row() {
    let s = vec![sample(500, 3); 9];
    assert_eq!(report_rows(&s, 2), vec![ReportRow { start: 500, data: 3, divisor: 2 }]);
}

#[test]
fn unix_seconds_maps_clock_reading() {
    assert_eq!(unix_seconds(None), Err(OutputError::SystemTime));
    assert_eq!(unix_seconds(Some(1_700_000_000)), Ok(1_700_000_000));
    assert_eq!(unix_seconds(Some(u64::MAX)), Err(OutputError::TryFromInt));
    assert_eq!(unix_seconds(Some(i64::MAX as u64)), Ok(i64::MAX));
}

#[test]
fn config_new_polls_every_minute() {
    let c = Config::new();
    assert!(c.devices.is_empty());
    assert_eq!(c.loop_time, 60);
}

#[test]
fn report_rows_empty() {
    assert!(report_rows(&Vec::new(), 1).is_empty());
}

#[test]
fn scaled_divides_by_divisor() {
    let row = ReportRow { start: 1, data: 120, divisor: 2 };
    assert_eq!(row.scaled(), Some((60, 0)));
    assert_eq!(ReportRow { start: 1, data: 7, divisor: 2 }.scaled(), Some((3, 1)));
    assert_eq!(ReportRow { start: 1, data: -7, divisor: 2 }.scaled(), Some((-3, -1)));
    assert_eq!(ReportRow { start: 1, data: i64::MIN, divisor: 1 }.scaled(), Some((i64::MIN, 0)));
    assert_eq!(ReportRow { start: 1, data: 7, divisor: 0 }.scaled(), None);
}

#[test]
fn time_text_is_utc() {
    let row = ReportRow { start: 1431648000, data: 0, divisor: 1 };
    assert_eq!(row.time_text().unwrap(), "2015-05-15 00:00:00");
    assert_eq!(ReportRow { start: 0, data: 0, divisor: 1 }.time_text().unwrap(), "1970-01-01 00:00:00");
    let last = ReportRow { start: 253_402_300_799, data: 0, divisor: 1 };
    assert_eq!(last.time_text().unwrap(), "9999-12-31 23:59:59");
    assert_eq!(ReportRow { start: u64::MAX, data: 0, divisor: 1 }.time_text(), None);
}

#[test]
fn select_device_and_parameter() {
    let devs = vec![
        device(1, "10.0.0.1", vec![mib(1, "Uptime"), mib(2, "Load")]),
        device(2, "10.0.0.2", vec![mib(3, "Load")]),
    ];
    let mut p = PrintOption::starting_at(10_000).unwrap();
    p.device = "10.0.0.2".to_string();
    assert_eq!(p.select(&devs), None);
    p.need_print = true;
    assert_eq!(p.select(&devs), Some((1, vec![0])));
    p.device = "10.0.0.1".to_string();
    assert_eq!(p.select(&devs), Some((0, vec![0, 1])));
    p.parameter = "Load".to_string();
    assert_eq!(p.select(&devs), Some((0, vec![1])));
    p.device = "10.0.0.9".to_string();
    assert_eq!(p.select(&devs), None);
}

#[test]
fn plan_visits_in_configuration_order() {
    let devs = vec![
        device(1, "10.0.0.1", vec![mib(1, "a"), mib(2, "b")]),
        device(2, "10.0.0.2", vec![]),
        device(3, "10.0.0.3", vec![mib(3, "c")]),
    ];
    let plan = poll_plan(&devs);
    assert_eq!(
        plan,
        vec![
            PollTarget { device: 0, mib: 0 },
            PollTarget { device: 0, mib: 1 },
            PollTarget { device: 2, mib: 0 },
        ]
    );
}

#[test]
fn sample_for_failures_give_none() {
    let d = device(4, "10.0.0.1", vec![]);
    let m = mib(9, "a");
    assert_eq!(sample_for(&d, &m, &PollOutcome::SessionFailed), None);
    assert_eq!(sample_for(&d, &m, &PollOutcome::RequestFailed), None);
    assert_eq!(sample_for(&d, &m, &PollOutcome::NoBinding), None);
    assert_eq!(
        sample_for(&d, &m, &PollOutcome::Reply(SnmpValue::Counter32(7), 50)),
        Some(Sample { parameter: 9, object: 4, start: 50, data: 7 })
    );
}

#[test]
fn session_failure_does_not_stop_cycle() {
    let devs = vec![
        device(1, "10.0.0.1", vec![mib(1, "a"), mib(2, "b")]),
        device(2, "10.0.0.2", vec![mib(3, "c")]),
    ];
    let plan = poll_plan(&devs);
    let outcomes = vec![
        PollOutcome::SessionFailed,
        PollOutcome::Reply(SnmpValue::Integer(11), 100),
        PollOutcome::Reply(SnmpValue::Unsigned32(12), 101),
    ];
    let got = cycle_samples(&devs, &plan, &outcomes);
    assert_eq!(
        got,
        vec![
            Sample { parameter: 2, object: 1, start: 100, data: 11 },
            Sample { parameter: 3, object: 2, start: 101, data: 12 },
        ]
    );
}

#[test]
fn poll_then_report_end_to_end() {
    let mut c = Config::new();
    let mut up = mib(0, "Uptime");
    up.units = "seconds".to_string();
    c.devices.push(device(0, "10.0.0.1", vec![up]));
    c.make_id();
    let t: u64 = 1_700_000_000;
    let plan = poll_plan(&c.devices);
    let outcomes = vec![PollOutcome::Reply(SnmpValue::Timeticks(360000), t)];
    let stored = cycle_samples(&c.devices, &plan, &outcomes);
    assert_eq!(
        stored,
        vec![Sample { parameter: c.devices[0].mibs[0].id, object: c.devices[0].id, start: t, data: 360000 }]
    );
    let mut p = PrintOption::starting_at(t + 3600).unwrap();
    p.need_print = true;
    p.device = "10.0.0.1".to_string();
    let (di, mibs) = p.select(&c.devices).unwrap();
    assert_eq!((di, mibs.clone()), (0, vec![0]));
    let fetched: Vec<Sample> = p
        .bucket_times()
        .into_iter()
        .filter_map(|ts| stored.iter().filter(|s| s.start <= ts).last().copied())
        .collect();
    let rows = report_rows(&fetched, c.devices[0].mibs[mibs[0]].devision);
    assert_eq!(rows.len(), 1);
    assert_eq!(rows[0].start, t);
    assert_eq!(rows[0].scaled(), Some((360000, 0)));
    assert_eq!(rows[0].time_text().unwrap(), "2023-11-14 22:13:20");
}
