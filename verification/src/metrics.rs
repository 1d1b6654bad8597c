//! Selection rules of the Apple-silicon power and temperature sampler, on
//! plain values: which SMC keys are CPU temperature sensors, which HID
//! sensors are, where the active frequency states begin, which IOReport
//! channels feed which metric, and how energy units scale.
use vstd::prelude::*;
use crate::text::{chars_of, contains, has_infix, has_prefix, same_chars, starts_with};
use vstd::string::*;

verus! {

/// `a / b`, or 0 when `b` is 0.
pub fn zero_div(a: u64, b: u64) -> (r: u64)
    ensures
        r == if b == 0 {
            0
        } else {
            a / b
        },
{
    if b == 0 {
        0
    } else {
        a / b
    }
}

/// Memory use, in bytes.
#[derive(Debug, Default, Clone, Copy)]
pub struct MemMetrics {
    pub ram_total: u64,
    pub ram_usage: u64,
    pub swap_total: u64,
    pub swap_usage: u64,
}

/// Size and type code of an SMC key's value.
#[derive(Debug, Clone, Copy)]
pub struct SmcKeyInfo {
    pub data_size: u32,
    pub data_type: u32,
}

/// What probing one SMC key gave: its name, its value's size and type if
/// they could be read, and whether its value could be read.
#[derive(Debug, Clone)]
pub struct SmcProbe {
    pub name: String,
    pub info: Option<SmcKeyInfo>,
    pub readable: bool,
}

/// Type code of 4-byte little-endian floats (`flt `).
pub const SMC_FLOAT_TYPE: u32 = 1718383648u32;

/// The key holds a 4-byte float.
pub open spec fn is_float_key(info: SmcKeyInfo) -> bool {
    info.data_size == 4 && info.data_type == SMC_FLOAT_TYPE
}

/// The probed key is a CPU temperature sensor: a readable 4-byte float whose
/// name begins with `Tp`.
pub open spec fn is_cpu_sensor(p: SmcProbe) -> bool {
    &&& p.info matches Some(info) && is_float_key(info)
    &&& p.readable
    &&& has_prefix(p.name@, "Tp"@)
}

/// Names of the CPU temperature sensors among `probes`, in order.
pub open spec fn cpu_sensor_names(probes: Seq<SmcProbe>) -> Seq<Seq<char>>
    decreases probes.len(),
{
    if probes.len() == 0 {
        seq![]
    } else {
        let rest = cpu_sensor_names(probes.drop_last());
        if is_cpu_sensor(probes.last()) {
            rest.push(probes.last().name@)
        } else {
            rest
        }
    }
}

/// Whether a key with this size and type is worth reading (only 4-byte
/// floats can be CPU temperature sensors).
pub fn smc_key_wants_value(info: &SmcKeyInfo) -> (r: bool)
    ensures
        r == is_float_key(*info),
{
    info.data_size == 4 && info.data_type == SMC_FLOAT_TYPE
}

/// The CPU temperature sensors among the probed SMC keys, in order.
pub fn init_smc(probes: &Vec<SmcProbe>) -> (r: Vec<String>)
    ensures
        r@.map_values(|s: String| s@) == cpu_sensor_names(probes@),
{
    let tp = chars_of("Tp");
    let mut r: Vec<String> = Vec::new();
    let mut i: usize = 0;
    while i < probes.len()
        invariant
            i <= probes.len(),
            tp@ == "Tp"@,
            r@.map_values(|s: String| s@) == cpu_sensor_names(probes@.subrange(0, i as int)),
        decreases probes.len() - i,
    {
        let p = &probes[i];
        let ghost prev = r@;
        assert(probes@.subrange(0, i + 1).drop_last() =~= probes@.subrange(0, i as int));
        assert(probes@.subrange(0, i + 1).last() == *p);
        let keep = match &p.info {
            Some(info) => smc_key_wants_value(info) && p.readable && starts_with(
                &chars_of(p.name.as_str()),
                &tp,
            ),
            None => false,
        };
        if keep {
            r.push(p.name.clone());
            assert(r@.map_values(|s: String| s@) =~= prev.map_values(|s: String| s@).push(p.name@));
        }
        i = i + 1;
    }
    assert(probes@.subrange(0, i as int) =~= probes@);
    r
}

/// The HID sensor reports a CPU temperature: its name begins with
/// `pACC MTR Temp Sensor` or `eACC MTR Temp Sensor`.
pub fn is_hid_cpu_sensor(name: &String) -> (r: bool)
    ensures
        r == (has_prefix(name@, "pACC MTR Temp Sensor"@) || has_prefix(
            name@,
            "eACC MTR Temp Sensor"@,
        )),
{
    let n = chars_of(name.as_str());
    starts_with(&n, &chars_of("pACC MTR Temp Sensor")) || starts_with(
        &n,
        &chars_of("eACC MTR Temp Sensor"),
    )
}

/// A residency state in which the CPU runs (not `IDLE`, `DOWN` or `OFF`).
pub open spec fn is_active_state(name: Seq<char>) -> bool {
    name != "IDLE"@ && name != "DOWN"@ && name != "OFF"@
}

/// Position of the first active residency state, if any.
pub fn active_state_offset(names: &Vec<String>) -> (r: Option<usize>)
    ensures
        r is Some ==> r->0 < names.len() && is_active_state(names@[r->0 as int]@),
        r is Some ==> forall|j: int| 0 <= j < r->0 ==> !is_active_state((#[trigger] names@[j])@),
        r is None ==> forall|j: int| 0 <= j < names.len() ==> !is_active_state((#[trigger] names@[j])@),
{
    let idle = chars_of("IDLE");
    let down = chars_of("DOWN");
    let off = chars_of("OFF");
    let mut i: usize = 0;
    while i < names.len()
        invariant
            i <= names.len(),
            idle@ == "IDLE"@,
            down@ == "DOWN"@,
            off@ == "OFF"@,
            forall|j: int| 0 <= j < i ==> !is_active_state((#[trigger] names@[j])@),
        decreases names.len() - i,
    {
        let n = chars_of(names[i].as_str());
        if !same_chars(&n, &idle) && !same_chars(&n, &down) && !same_chars(&n, &off) {
            return Some(i);
        }
        i = i + 1;
    }
    None
}

/// Which metric an IOReport channel feeds.
#[derive(Debug, Clone, Copy, PartialEq, Eq)]
pub enum ChannelKind {
    /// Per-core frequency residencies of an efficiency core.
    EfficiencyCoreFrequency,
    /// Per-core frequency residencies of a performance core.
    PerformanceCoreFrequency,
    /// CPU energy.
    CpuEnergy,
    /// Neural engine energy.
    NeuralEngineEnergy,
    /// Not used.
    Other,
}

/// The metric fed by the channel `channel` of group `group` and subgroup
/// `subgroup`.
pub open spec fn channel_kind(group: Seq<char>, subgroup: Seq<char>, channel: Seq<char>) -> ChannelKind {
    if group == "CPU Stats"@ && subgroup == "CPU Core Performance States"@ && has_infix(
        channel,
        "ECPU"@,
    ) {
        ChannelKind::EfficiencyCoreFrequency
    } else if group == "CPU Stats"@ && subgroup == "CPU Core Performance States"@ && has_infix(
        channel,
        "PCPU"@,
    ) {
        ChannelKind::PerformanceCoreFrequency
    } else if group == "Energy Model"@ && channel == "CPU Energy"@ {
        ChannelKind::CpuEnergy
    } else if group == "Energy Model"@ && has_prefix(channel, "ANE"@) {
        ChannelKind::NeuralEngineEnergy
    } else {
        ChannelKind::Other
    }
}

/// Which metric an IOReport channel feeds.
pub fn classify_channel(group: &String, subgroup: &String, channel: &String) -> (r: ChannelKind)
    ensures
        r == channel_kind(group@, subgroup@, channel@),
{
    let g = chars_of(group.as_str());
    let sg = chars_of(subgroup.as_str());
    let c = chars_of(channel.as_str());
    let stats = same_chars(&g, &chars_of("CPU Stats")) && same_chars(
        &sg,
        &chars_of("CPU Core Performance States"),
    );
    if stats && contains(&c, &chars_of("ECPU")) {
        return ChannelKind::EfficiencyCoreFrequency;
    }
    if stats && contains(&c, &chars_of("PCPU")) {
        return ChannelKind::PerformanceCoreFrequency;
    }
    if same_chars(&g, &chars_of("Energy Model")) {
        if same_chars(&c, &chars_of("CPU Energy")) {
            return ChannelKind::CpuEnergy;
        }
        if starts_with(&c, &chars_of("ANE")) {
            return ChannelKind::NeuralEngineEnergy;
        }
    }
    ChannelKind::Other
}

/// Divisor that turns an energy reading in `unit` into joules.
pub open spec fn unit_divisor(unit: Seq<char>) -> Option<u32> {
    if unit == "mJ"@ {
        Some(1000)
    } else if unit == "uJ"@ {
        Some(1000000)
    } else if unit == "nJ"@ {
        Some(1000000000)
    } else {
        None
    }
}

/// Divisor that turns an energy reading in `unit` into joules (milli-,
/// micro- or nanojoules); any other unit is refused with the message
/// `Invalid energy unit: <unit>`.
pub fn energy_unit_scale(unit: &String) -> (r: Result<u32, String>)
    ensures
        r is Ok <==> unit_divisor(unit@) is Some,
        r is Ok ==> r->Ok_0 == unit_divisor(unit@)->0,
        r is Err ==> r->Err_0@ == "Invalid energy unit: "@ + unit@,
{
    let u = chars_of(unit.as_str());
    if same_chars(&u, &chars_of("mJ")) {
        Ok(1000)
    } else if same_chars(&u, &chars_of("uJ")) {
        Ok(1000000)
    } else if same_chars(&u, &chars_of("nJ")) {
        Ok(1000000000)
    } else {
        let mut m = String::from_str("Invalid energy unit: ");
        m.append(unit.as_str());
        Err(m)
    }
}


/// Only the channel named exactly `CPU Energy` of the `Energy Model` group
/// feeds CPU energy: any other channel name, even one containing `CPU`, does
/// not, and neither does a channel of another group.
pub proof fn lemma_cpu_energy_channel(group: Seq<char>, subgroup: Seq<char>, channel: Seq<char>)
    ensures
        channel_kind(group, subgroup, channel) == ChannelKind::CpuEnergy <==> (group
            == "Energy Model"@ && channel == "CPU Energy"@),
        group == "Energy Model"@ && channel != "CPU Energy"@ && !has_prefix(channel, "ANE"@)
            ==> channel_kind(group, subgroup, channel) == ChannelKind::Other,
        group == "Energy Model"@ && has_prefix(channel, "ANE"@) ==> channel_kind(
            group,
            subgroup,
            channel,
        ) == ChannelKind::NeuralEngineEnergy,
{
    reveal_strlit("Energy Model");
    reveal_strlit("CPU Stats");
    reveal_strlit("CPU Energy");
    reveal_strlit("ANE");
    assert("Energy Model"@ != "CPU Stats"@) by {
        assert("Energy Model"@[0] != "CPU Stats"@[0]);
    }
    if channel == "CPU Energy"@ {
        assert(!has_prefix(channel, "ANE"@)) by {
            assert(channel.subrange(0, 3)[0] != "ANE"@[0]);
        }
    }
}

} // verus!
