//! The state of the system: memory pressure, temperatures, battery, and how
//! often to look.

use vstd::prelude::*;
use vstd::slice::slice_subrange;

use crate::ratio::Ratio;
use crate::text;

verus! {

/// How scarce memory is, by the ten-second average of `/proc/pressure/memory`.
#[derive(Debug, Clone, Copy, PartialEq, Eq, Structural)]
pub enum PressureLevel {
    /// Below 10.
    Normal,
    /// From 10 to 60.
    Moderate,
    /// Above 60.
    Critical,
}

/// The level that an average stands for.
pub open spec fn level_of(avg10: Ratio) -> PressureLevel {
    if avg10.exceeds(60, 1) {
        PressureLevel::Critical
    } else if avg10.reaches(10, 1) {
        PressureLevel::Moderate
    } else {
        PressureLevel::Normal
    }
}

/// Seconds until the system is looked at again.
pub open spec fn poll_secs_of(level: PressureLevel) -> u64 {
    match level {
        PressureLevel::Normal => 10,
        PressureLevel::Moderate => 3,
        PressureLevel::Critical => 1,
    }
}

impl PressureLevel {
    /// The level that an average stands for.
    pub fn from_avg10(avg10: Ratio) -> (r: PressureLevel)
        ensures
            r == level_of(avg10),
    {
        if avg10.above(60, 1) {
            PressureLevel::Critical
        } else if avg10.at_least(10, 1) {
            PressureLevel::Moderate
        } else {
            PressureLevel::Normal
        }
    }

    /// Seconds until the system is looked at again.
    pub fn poll_secs(self) -> (r: u64)
        ensures
            r == poll_secs_of(self),
    {
        match self {
            PressureLevel::Normal => 10,
            PressureLevel::Moderate => 3,
            PressureLevel::Critical => 1,
        }
    }
}

/// The texts behind `avg10=` among some words.
pub open spec fn avg10_words(words: Seq<Seq<char>>) -> Seq<Seq<char>>
    decreases words.len(),
{
    if words.len() == 0 {
        Seq::empty()
    } else {
        let before = avg10_words(words.drop_last());
        if text::starts_with(words.last(), "avg10="@) {
            before.push(words.last().skip(6))
        } else {
            before
        }
    }
}

/// The texts behind `avg10=` in a pressure file, in order; the first one that
/// is a number counts.
pub fn avg10_fields(content: &str) -> (r: Vec<String>)
    ensures
        text::strings(r@) == avg10_words(text::words(content@)),
{
    let chars = text::chars_of(content);
    let words = text::words_of(chars.as_slice());
    let key = text::chars_of("avg10=");
    let ghost all = text::words(content@);
    let mut out: Vec<String> = Vec::new();
    let mut i: usize = 0;
    proof {
        reveal_strlit("avg10=");
        assert(all.take(0) =~= Seq::<Seq<char>>::empty());
        assert(text::strings(out@) =~= avg10_words(all.take(0)));
    }
    while i < words.len()
        invariant
            0 <= i <= words@.len(),
            text::texts(words@) == all,
            key@ == "avg10="@,
            key@.len() == 6,
            text::strings(out@) == avg10_words(all.take(i as int)),
        decreases words@.len() - i,
    {
        let w = words[i];
        proof {
            assert(all[i as int] == w@);
            assert(all.take(i + 1).drop_last() =~= all.take(i as int));
            assert(all.take(i + 1).last() == w@);
        }
        if text::begins_chars(w, key.as_slice()) {
            let ghost out0 = text::strings(out@);
            proof {
                assert(w@.subrange(6, w@.len() as int) =~= w@.skip(6));
            }
            out.push(text::string_of(slice_subrange(w, 6, w.len())));
            proof {
                assert(text::strings(out@) =~= out0.push(w@.skip(6)));
            }
        }
        i += 1;
    }
    proof {
        assert(all.take(i as int) =~= all);
    }
    out
}

/// One temperature sensor.
#[derive(Debug)]
pub struct ThermalZone {
    /// Such as `cpu-thermal`.
    pub zone_type: String,
    /// Thousandths of a degree Celsius.
    pub temperature_mc: i64,
}

/// What one directory under `/sys/class/thermal` says: its name and the texts
/// of its `type` and `temp`.
#[derive(Debug)]
pub struct ZoneReading {
    pub name: String,
    pub zone_type: Option<String>,
    pub temp: Option<String>,
}

/// A zone as its type and temperature.
pub type ZoneSpec = (Seq<char>, int);

impl ZoneReading {
    /// The zone that the reading describes; directories that are no zones,
    /// and zones without a type, describe none. A temperature that cannot be
    /// read counts as zero.
    pub open spec fn zone(&self) -> Option<ZoneSpec> {
        if !text::starts_with(self.name@, "thermal_zone"@) {
            None
        } else {
            let t = match self.zone_type {
                Some(x) => text::trim(x@),
                None => Seq::empty(),
            };
            if t.len() == 0 {
                None
            } else {
                Some(
                    (
                        t,
                        match self.temp {
                            Some(x) => match text::signed(
                                text::trim(x@),
                                0x8000_0000_0000_0000,
                                0x7FFF_FFFF_FFFF_FFFF,
                            ) {
                                Some(n) => n,
                                None => 0,
                            },
                            None => 0,
                        },
                    ),
                )
            }
        }
    }

    fn parse(&self) -> (r: Option<ThermalZone>)
        ensures
            match r {
                Some(z) => self.zone() == Some((z.zone_type@, z.temperature_mc as int)),
                None => self.zone() is None,
            },
    {
        let name = text::chars_of(self.name.as_str());
        if !text::begins(name.as_slice(), "thermal_zone") {
            return None;
        }
        let zone_type = match &self.zone_type {
            Some(x) => text::trimmed(x.as_str()),
            None => String::new(),
        };
        if zone_type.as_str().is_empty() {
            return None;
        }
        let temperature_mc: i64 = match &self.temp {
            Some(x) => {
                let chars = text::chars_of(x.as_str());
                match text::parse_signed(
                    text::trim_of(chars.as_slice()),
                    0x8000_0000_0000_0000,
                    0x7FFF_FFFF_FFFF_FFFF,
                ) {
                    Some(n) => n as i64,
                    None => 0,
                }
            },
            None => 0,
        };
        Some(ThermalZone { zone_type, temperature_mc })
    }
}

/// Whether `a` stands before `b`, or both are equal, in the order of
/// characters from the left.
pub open spec fn text_le(a: Seq<char>, b: Seq<char>) -> bool
    decreases a.len(),
{
    if a.len() == 0 {
        true
    } else if b.len() == 0 {
        false
    } else if a[0] != b[0] {
        a[0] < b[0]
    } else {
        text_le(a.skip(1), b.skip(1))
    }
}

fn chars_le(a: &[char], b: &[char]) -> (r: bool)
    ensures
        r == text_le(a@, b@),
{
    let mut i: usize = 0;
    proof {
        assert(a@.skip(0) =~= a@);
        assert(b@.skip(0) =~= b@);
    }
    while i < a.len()
        invariant
            0 <= i <= a@.len(),
            i <= b@.len(),
            text_le(a@, b@) == text_le(a@.skip(i as int), b@.skip(i as int)),
        decreases a@.len() - i,
    {
        if i >= b.len() {
            return false;
        }
        proof {
            assert(a@.skip(i as int).skip(1) =~= a@.skip(i + 1));
            assert(b@.skip(i as int).skip(1) =~= b@.skip(i + 1));
        }
        if a[i] != b[i] {
            return a[i] < b[i];
        }
        i += 1;
    }
    true
}

/// `zones`, ordered by type, with `z` behind all zones whose type is not
/// above its own.
pub open spec fn place_zone(zones: Seq<ZoneSpec>, z: ZoneSpec) -> Seq<ZoneSpec>
    decreases zones.len(),
{
    if zones.len() == 0 || text_le(zones.last().0, z.0) {
        zones.push(z)
    } else {
        place_zone(zones.drop_last(), z).push(zones.last())
    }
}

/// The zones of some readings, by type; zones of one type keep their order.
pub open spec fn zones_of(readings: Seq<ZoneReading>) -> Seq<ZoneSpec>
    decreases readings.len(),
{
    if readings.len() == 0 {
        Seq::empty()
    } else {
        let before = zones_of(readings.drop_last());
        match readings.last().zone() {
            Some(z) => place_zone(before, z),
            None => before,
        }
    }
}

/// The contents of a list of zones.
pub open spec fn zone_specs(zones: Seq<ThermalZone>) -> Seq<ZoneSpec> {
    Seq::new(zones.len(), |i: int| (zones[i].zone_type@, zones[i].temperature_mc as int))
}

proof fn lemma_place_zone(zones: Seq<ZoneSpec>, z: ZoneSpec, p: int)
    requires
        0 <= p <= zones.len(),
        p > 0 ==> text_le(zones[p - 1].0, z.0),
        forall|i: int| p <= i < zones.len() ==> !text_le((#[trigger] zones[i]).0, z.0),
    ensures
        place_zone(zones, z) == zones.insert(p, z),
    decreases zones.len(),
{
    if p == zones.len() {
        assert(zones.push(z) =~= zones.insert(p, z));
    } else {
        let front = zones.drop_last();
        assert forall|i: int| p <= i < front.len() implies !text_le(
            (#[trigger] front[i]).0,
            z.0,
        ) by {
            assert(front[i] == zones[i]);
        }
        lemma_place_zone(front, z, p);
        assert(front.insert(p, z).push(zones.last()) =~= zones.insert(p, z));
    }
}

/// The temperature sensors that the readings describe, ordered by type.
pub fn read_thermal_zones(readings: &[ZoneReading]) -> (r: Vec<ThermalZone>)
    ensures
        zone_specs(r@) == zones_of(readings@),
{
    let mut out: Vec<ThermalZone> = Vec::new();
    let mut k: usize = 0;
    proof {
        assert(zone_specs(out@) =~= zones_of(readings@.take(0)));
    }
    while k < readings.len()
        invariant
            0 <= k <= readings@.len(),
            zone_specs(out@) == zones_of(readings@.take(k as int)),
        decreases readings@.len() - k,
    {
        proof {
            assert(readings@.take(k + 1).drop_last() =~= readings@.take(k as int));
            assert(readings@.take(k + 1).last() == readings@[k as int]);
        }
        match readings[k].parse() {
            Some(z) => {
                let key = text::chars_of(z.zone_type.as_str());
                let ghost before = zone_specs(out@);
                let ghost zs = (z.zone_type@, z.temperature_mc as int);
                let mut p: usize = out.len();
                let mut found = false;
                while p > 0 && !found
                    invariant
                        0 <= p <= out@.len(),
                        key@ == zs.0,
                        before == zone_specs(out@),
                        found ==> p > 0 && text_le(before[p - 1].0, zs.0),
                        forall|i: int|
                            p <= i < before.len() ==> !text_le((#[trigger] before[i]).0, zs.0),
                    decreases
                        p,
                        (if found {
                            0int
                        } else {
                            1int
                        }),
                {
                    let other = text::chars_of(out[p - 1].zone_type.as_str());
                    proof {
                        assert(before[p - 1].0 == other@);
                    }
                    if chars_le(other.as_slice(), key.as_slice()) {
                        found = true;
                    } else {
                        p -= 1;
                    }
                }
                proof {
                    lemma_place_zone(before, zs, p as int);
                }
                out.insert(p, z);
                proof {
                    assert(zone_specs(out@) =~= before.insert(p as int, zs));
                }
            },
            None => {},
        }
        k += 1;
    }
    proof {
        assert(readings@.take(k as int) =~= readings@);
    }
    out
}

/// What one battery directory says: the texts of its `capacity` and `status`.
#[derive(Debug)]
pub struct BatteryReading {
    pub capacity: Option<String>,
    pub status: Option<String>,
}

/// The charge in percent and whether the battery is charging, by the first of
/// the readings that has a capacity.
pub open spec fn battery_of(readings: Seq<BatteryReading>) -> (Option<nat>, bool)
    decreases readings.len(),
{
    if readings.len() == 0 {
        (None, false)
    } else {
        match readings[0].capacity {
            Some(c) => (
                text::unsigned(text::trim(c@), u8::MAX as nat),
                readings[0].status matches Some(s) && text::trim(s@) == "Charging"@,
            ),
            None => battery_of(readings.skip(1)),
        }
    }
}

/// The charge in percent, if it can be read, and whether the battery is
/// charging.
pub fn read_battery(readings: &[BatteryReading]) -> (r: (Option<u8>, bool))
    ensures
        battery_of(readings@) == (
            match r.0 {
                Some(n) => Some(n as nat),
                None => None,
            },
            r.1,
        ),
{
    let mut i: usize = 0;
    proof {
        assert(readings@.skip(0) =~= readings@);
        reveal_strlit("Charging");
    }
    while i < readings.len()
        invariant
            0 <= i <= readings@.len(),
            battery_of(readings@) == battery_of(readings@.skip(i as int)),
        decreases readings@.len() - i,
    {
        proof {
            assert(readings@.skip(i as int)[0] == readings@[i as int]);
            assert(readings@.skip(i as int).skip(1) =~= readings@.skip(i + 1));
        }
        match &readings[i].capacity {
            Some(c) => {
                let chars = text::chars_of(c.as_str());
                let pct: Option<u8> = match text::parse_unsigned(
                    text::trim_of(chars.as_slice()),
                    255,
                ) {
                    Some(n) => Some(n as u8),
                    None => None,
                };
                let charging = match &readings[i].status {
                    Some(s) => {
                        let t = text::trimmed(s.as_str());
                        text::same_text(t.as_str(), "Charging")
                    },
                    None => false,
                };
                return (pct, charging);
            },
            None => {},
        }
        i += 1;
    }
    (None, false)
}

/// The state of the system at one time.
#[derive(Debug)]
pub struct SystemContext {
    pub memory_pressure: PressureLevel,
    pub memory_avg10: Ratio,
    pub thermal_zones: Vec<ThermalZone>,
    /// Share of the cooling devices in use.
    pub thermal_pressure: Ratio,
    pub battery_pct: Option<u8>,
    pub is_charging: bool,
    /// Seconds until the system is looked at again.
    pub next_poll_interval: u64,
}

/// Sensors at or below this are not connected.
pub const NO_SENSOR_MC: i64 = -100_000;

impl SystemContext {
    /// The state that readings of all sources describe.
    pub fn sample(
        avg10: Ratio,
        zones: &[ZoneReading],
        thermal_pressure: Ratio,
        batteries: &[BatteryReading],
    ) -> (r: SystemContext)
        ensures
            r.memory_pressure == level_of(avg10),
            r.memory_avg10 == avg10,
            zone_specs(r.thermal_zones@) == zones_of(zones@),
            r.thermal_pressure == thermal_pressure,
            battery_of(batteries@) == (
                match r.battery_pct {
                    Some(n) => Some(n as nat),
                    None => None,
                },
                r.is_charging,
            ),
            r.next_poll_interval == poll_secs_of(level_of(avg10)),
    {
        let memory_pressure = PressureLevel::from_avg10(avg10);
        let (battery_pct, is_charging) = read_battery(batteries);
        SystemContext {
            memory_pressure,
            memory_avg10: avg10,
            thermal_zones: read_thermal_zones(zones),
            thermal_pressure,
            battery_pct,
            is_charging,
            next_poll_interval: memory_pressure.poll_secs(),
        }
    }

    /// Number of connected sensors.
    pub fn valid_zones(&self) -> (r: usize)
        ensures
            r == valid_count(self.thermal_zones@),
    {
        let mut n: usize = 0;
        let mut i: usize = 0;
        proof {
            assert(self.thermal_zones@.take(0) =~= Seq::<ThermalZone>::empty());
        }
        while i < self.thermal_zones.len()
            invariant
                0 <= i <= self.thermal_zones@.len(),
                n <= i,
                n == valid_count(self.thermal_zones@.take(i as int)),
            decreases self.thermal_zones@.len() - i,
        {
            proof {
                assert(self.thermal_zones@.take(i + 1).drop_last()
                    =~= self.thermal_zones@.take(i as int));
            }
            if self.thermal_zones[i].temperature_mc > NO_SENSOR_MC {
                n += 1;
            }
            i += 1;
        }
        proof {
            assert(self.thermal_zones@.take(i as int) =~= self.thermal_zones@);
        }
        n
    }

    /// The highest temperature of the connected sensors whose type begins
    /// with `prefix`.
    pub fn max_of(&self, prefix: &str) -> (r: Option<i64>)
        ensures
            match r {
                Some(m) => {
                    &&& exists|i: int|
                        0 <= i < self.thermal_zones@.len() && counts_for(
                            #[trigger] self.thermal_zones@[i],
                            prefix@,
                        ) && self.thermal_zones@[i].temperature_mc == m
                    &&& forall|i: int|
                        0 <= i < self.thermal_zones@.len() && counts_for(
                            #[trigger] self.thermal_zones@[i],
                            prefix@,
                        ) ==> self.thermal_zones@[i].temperature_mc <= m
                },
                None => forall|i: int|
                    0 <= i < self.thermal_zones@.len() ==> !counts_for(
                        #[trigger] self.thermal_zones@[i],
                        prefix@,
                    ),
            },
    {
        let mut best: Option<i64> = None;
        let mut i: usize = 0;
        while i < self.thermal_zones.len()
            invariant
                0 <= i <= self.thermal_zones@.len(),
                match best {
                    Some(m) => {
                        &&& exists|j: int|
                            0 <= j < i && counts_for(#[trigger] self.thermal_zones@[j], prefix@)
                                && self.thermal_zones@[j].temperature_mc == m
                        &&& forall|j: int|
                            0 <= j < i && counts_for(#[trigger] self.thermal_zones@[j], prefix@)
                                ==> self.thermal_zones@[j].temperature_mc <= m
                    },
                    None => forall|j: int|
                        0 <= j < i ==> !counts_for(#[trigger] self.thermal_zones@[j], prefix@),
                },
            decreases self.thermal_zones@.len() - i,
        {
            let z = &self.thermal_zones[i];
            let chars = text::chars_of(z.zone_type.as_str());
            if z.temperature_mc > NO_SENSOR_MC && text::begins(chars.as_slice(), prefix) {
                proof {
                    assert(counts_for(self.thermal_zones@[i as int], prefix@));
                }
                best = match best {
                    Some(m) => if z.temperature_mc > m {
                        Some(z.temperature_mc)
                    } else {
                        Some(m)
                    },
                    None => Some(z.temperature_mc),
                };
            }
            i += 1;
        }
        best
    }
}

/// Number of connected sensors.
pub open spec fn valid_count(zones: Seq<ThermalZone>) -> nat
    decreases zones.len(),
{
    if zones.len() == 0 {
        0
    } else {
        valid_count(zones.drop_last()) + if zones.last().temperature_mc > NO_SENSOR_MC {
            1nat
        } else {
            0nat
        }
    }
}

/// Whether a sensor is connected and its type begins with `prefix`.
pub open spec fn counts_for(z: ThermalZone, prefix: Seq<char>) -> bool {
    z.temperature_mc > NO_SENSOR_MC && text::starts_with(z.zone_type@, prefix)
}

// ---------------------------------------------------------------------
// Polling
// ---------------------------------------------------------------------

/// The poller after a look that asks for the next one in some seconds.
pub open spec fn poller_after(secs: u64, now: u64) -> AdaptivePoller {
    AdaptivePoller { last_sample: now as i128, next_interval: (secs * 1000) as u64 }
}

/// Whether it is time to look at the system.
pub open spec fn sample_due(p: AdaptivePoller, now: u64) -> bool {
    elapsed(p.last_sample as int, now as int) >= p.next_interval
}

/// Milliseconds until the next look, or until the deadline if that is sooner.
pub open spec fn wait_of(p: AdaptivePoller, now: u64, deadline: u64) -> int {
    let due = p.last_sample + p.next_interval - now;
    let left = deadline - now;
    if due <= 0 || left <= 0 {
        0
    } else if due <= left {
        due
    } else {
        left
    }
}

/// Milliseconds from `last` to `now`; none when `now` lies before.
pub open spec fn elapsed(last: int, now: int) -> int {
    if now > last {
        now - last
    } else {
        0
    }
}

/// Decides when the system is looked at again. Times are milliseconds of a
/// clock that does not go back.
#[derive(Debug, Clone, Copy, PartialEq, Eq, Structural)]
pub struct AdaptivePoller {
    pub last_sample: i128,
    /// Milliseconds.
    pub next_interval: u64,
}

impl AdaptivePoller {
    /// A poller that is due at once.
    pub fn new(now: u64) -> (r: AdaptivePoller)
        ensures
            r.last_sample == now - 3_600_000,
            r.next_interval == 10_000,
    {
        AdaptivePoller { last_sample: now as i128 - 3_600_000, next_interval: 10_000 }
    }

    /// Whether the system is to be looked at.
    pub fn should_sample(&self, now: u64) -> (r: bool)
        ensures
            r == sample_due(*self, now),
    {
        let now = now as i128;
        if now > self.last_sample {
            if self.last_sample >= 0 {
                now - self.last_sample >= self.next_interval as i128
            } else {
                now >= self.last_sample + self.next_interval as i128
            }
        } else {
            self.next_interval == 0
        }
    }

    /// Takes over the interval that the latest state asks for.
    pub fn sampled(&mut self, ctx: &SystemContext, now: u64)
        requires
            ctx.next_poll_interval <= 18_446_744_073_709_551,
        ensures
            *final(self) == poller_after(ctx.next_poll_interval, now),
    {
        self.last_sample = now as i128;
        self.next_interval = ctx.next_poll_interval * 1000;
    }

    /// Milliseconds to sleep until the next look, but not beyond `deadline`.
    pub fn wait_until_next(&self, now: u64, deadline: u64) -> (r: u64)
        requires
            self.last_sample <= u64::MAX,
        ensures
            r == wait_of(*self, now, deadline),
    {
        if deadline <= now {
            return 0;
        }
        let left: u64 = deadline - now;
        if self.last_sample < -0xFFFF_FFFF_FFFF_FFFF {
            return 0;
        }
        let next: i128 = self.last_sample + self.next_interval as i128;
        if next <= now as i128 {
            0
        } else if next - now as i128 <= left as i128 {
            (next - now as i128) as u64
        } else {
            left
        }
    }
}

/// A fresh poller is due at once; after a look it is due again when the
/// interval has passed, and not before.
pub proof fn law_poll_interval(now: u64, later: u64, secs: u64)
    requires
        now <= later,
    ensures
        elapsed(now - 3_600_000, now as int) >= 10_000,
        elapsed(now as int, later as int) >= secs * 1000 <==> later - now >= secs * 1000,
{
}

} // verus!
