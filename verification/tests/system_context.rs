use threadctl::ratio::Ratio;
use threadctl::system_context::{
    avg10_fields, read_battery, read_thermal_zones, AdaptivePoller, BatteryReading, PressureLevel,
    SystemContext, ZoneReading,
};

fn context(pressure: PressureLevel, avg10: u64, battery: Option<u8>, secs: u64) -> SystemContext {
    SystemContext {
        memory_pressure: pressure,
        memory_avg10: Ratio { num: avg10, den: 1 },
        thermal_zones: vec![],
        thermal_pressure: Ratio::zero(),
        battery_pct: battery,
        is_charging: false,
        next_poll_interval: secs,
    }
}

#[test]
fn adaptive_poll_intervals() {
    let mut poller = AdaptivePoller::new(50_000);
    assert!(poller.should_sample(50_000));
    let ctx = context(PressureLevel::Normal, 5, Some(80), 10);
    poller.sampled(&ctx, 50_000);
    assert!(!poller.should_sample(50_000));
    assert!(poller.should_sample(60_000));
}

#[test]
fn critical_pressure_fast_poll() {
    let ctx = context(PressureLevel::Critical, 80, None, 1);
    assert_eq!(ctx.next_poll_interval, 1);
    let sampled = SystemContext::sample(Ratio { num: 80, den: 1 }, &[], Ratio::zero(), &[]);
    assert_eq!(sampled.memory_pressure, PressureLevel::Critical);
    assert_eq!(sampled.next_poll_interval, 1);
}

#[test]
fn pressure_levels_have_bounds() {
    assert_eq!(PressureLevel::from_avg10(Ratio { num: 60, den: 1 }), PressureLevel::Moderate);
    assert_eq!(PressureLevel::from_avg10(Ratio { num: 601, den: 10 }), PressureLevel::Critical);
    assert_eq!(PressureLevel::from_avg10(Ratio { num: 10, den: 1 }), PressureLevel::Moderate);
    assert_eq!(PressureLevel::from_avg10(Ratio { num: 999, den: 100 }), PressureLevel::Normal);
}

#[test]
fn pressure_fields_are_found() {
    let psi = "some avg10=5.23 avg60=3.10 avg300=1.50 total=123456\nfull avg10=1.00 avg60=0";
    assert_eq!(avg10_fields(psi), vec!["5.23".to_string(), "1.00".to_string()]);
    assert!(avg10_fields("").is_empty());
}

#[test]
fn zones_and_batteries_are_read() {
    let zones = read_thermal_zones(&[ZoneReading {
        name: "thermal_zone0".into(),
        zone_type: Some("cpu-0-0\n".into()),
        temp: Some("41500\n".into()),
    }]);
    assert_eq!(zones.len(), 1);
    assert_eq!(zones[0].temperature_mc, 41500);
    let (pct, charging) = read_battery(&[BatteryReading {
        capacity: Some("77\n".into()),
        status: Some("Charging\n".into()),
    }]);
    assert_eq!(pct, Some(77));
    assert!(charging);
}

#[test]
fn waiting_ends_at_the_deadline() {
    let mut poller = AdaptivePoller::new(50_000);
    poller.sampled(&context(PressureLevel::Normal, 5, Some(80), 10), 50_000);
    assert_eq!(poller.wait_until_next(51_000, 100_000), 9_000);
    assert_eq!(poller.wait_until_next(51_000, 52_500), 1_500);
    assert_eq!(poller.wait_until_next(51_000, 51_000), 0);
    assert_eq!(poller.wait_until_next(61_000, 100_000), 0);
}
