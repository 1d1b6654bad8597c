use energy_bench::metrics::{
    active_state_offset, classify_channel, energy_unit_scale, init_smc, is_hid_cpu_sensor,
    smc_key_wants_value, zero_div, ChannelKind, MemMetrics, SmcKeyInfo, SmcProbe, SMC_FLOAT_TYPE,
};

#[test]
fn zero_div_by_zero_is_zero() {
    assert_eq!(zero_div(10, 0), 0);
    assert_eq!(zero_div(10, 3), 3);
    assert_eq!(zero_div(0, 7), 0);
}

#[test]
fn mem_metrics_default_is_zero() {
    let m = MemMetrics::default();
    assert_eq!((m.ram_total, m.ram_usage, m.swap_total, m.swap_usage), (0, 0, 0, 0));
}

fn probe(name: &str, size: u32, ty: u32, readable: bool) -> SmcProbe {
    SmcProbe { name: name.into(), info: Some(SmcKeyInfo { data_size: size, data_type: ty }), readable }
}

#[test]
fn smc_cpu_sensors() {
    let probes = vec![
        probe("Tp01", 4, SMC_FLOAT_TYPE, true),
        probe("Tg05", 4, SMC_FLOAT_TYPE, true),
        probe("Tp02", 2, SMC_FLOAT_TYPE, true),
        probe("Tp03", 4, 1, true),
        probe("Tp04", 4, SMC_FLOAT_TYPE, false),
        SmcProbe { name: "Tp05".into(), info: None, readable: true },
        probe("Tp0D", 4, 1718383648, true),
    ];
    assert_eq!(init_smc(&probes), vec!["Tp01".to_string(), "Tp0D".to_string()]);
    assert!(smc_key_wants_value(&SmcKeyInfo { data_size: 4, data_type: SMC_FLOAT_TYPE }));
    assert!(!smc_key_wants_value(&SmcKeyInfo { data_size: 8, data_type: SMC_FLOAT_TYPE }));
}

#[test]
fn hid_cpu_sensors() {
    assert!(is_hid_cpu_sensor(&"pACC MTR Temp Sensor3".to_string()));
    assert!(is_hid_cpu_sensor(&"eACC MTR Temp Sensor0".to_string()));
    assert!(!is_hid_cpu_sensor(&"GPU MTR Temp Sensor1".to_string()));
    assert!(!is_hid_cpu_sensor(&"pACC MTR".to_string()));
}

#[test]
fn first_active_state() {
    let names = |v: &[&str]| v.iter().map(|s| s.to_string()).collect::<Vec<_>>();
    assert_eq!(active_state_offset(&names(&["IDLE", "DOWN", "V0P5", "V1P0"])), Some(2));
    assert_eq!(active_state_offset(&names(&["OFF", "IDLE"])), None);
    assert_eq!(active_state_offset(&names(&["V0"])), Some(0));
    assert_eq!(active_state_offset(&names(&[])), None);
}

#[test]
fn channel_classification() {
    let c = |g: &str, s: &str, ch: &str| classify_channel(&g.to_string(), &s.to_string(), &ch.to_string());
    let sub = "CPU Core Performance States";
    assert_eq!(c("CPU Stats", sub, "ECPU0"), ChannelKind::EfficiencyCoreFrequency);
    assert_eq!(c("CPU Stats", sub, "PCPU3"), ChannelKind::PerformanceCoreFrequency);
    assert_eq!(c("CPU Stats", "CPU Complex Performance States", "ECPU"), ChannelKind::Other);
    assert_eq!(c("Energy Model", "", "CPU Energy"), ChannelKind::CpuEnergy);
    assert_eq!(c("Energy Model", "", "ANE0"), ChannelKind::NeuralEngineEnergy);
    assert_eq!(c("Energy Model", "", "GPU Energy"), ChannelKind::Other);
    assert_eq!(c("CPU Stats", sub, "CPU Energy"), ChannelKind::Other);
}

#[test]
fn energy_units() {
    assert_eq!(energy_unit_scale(&"mJ".to_string()), Ok(1000));
    assert_eq!(energy_unit_scale(&"uJ".to_string()), Ok(1_000_000));
    assert_eq!(energy_unit_scale(&"nJ".to_string()), Ok(1_000_000_000));
    assert_eq!(energy_unit_scale(&"J".to_string()), Err("Invalid energy unit: J".to_string()));
}
