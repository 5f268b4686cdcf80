use analog_logic::analog::{
    analog_plan, validate_analog_config, AnalogSettings, AnalogStep, OptionalSetters,
    TriggerSettings,
};
use analog_logic::device::{
    ad3_device, c_text, check_device_index, check_device_type, check_handle,
    check_stream_available, check_stream_running, default_filter, default_trigger_source,
    failure_message, is_ad3, normalize_serial, sample_count, FILTER_DECIMATE,
};

struct AnalogTriggerConfig {
    enabled: bool,
    source: i32,
    channel: i32,
    level_v: f64,
    slope: i32,
    auto_timeout_s: f64,
}

struct AnalogConfig {
    channels: Vec<i32>,
    frequency_hz: f64,
    buffer_size: i32,
    range_v: f64,
    offset_v: f64,
    acquisition_mode: i32,
    record_length_s: f64,
    filter: i32,
    trigger: Option<AnalogTriggerConfig>,
    coupling: Option<i32>,
    bandwidth_hz: Option<f64>,
    attenuation: Option<f64>,
    impedance_ohm: Option<f64>,
}

fn positive(v: f64) -> bool {
    v.is_finite() && v > 0.0
}

/// The settings that the library checks, from a configuration.
fn settings(config: &AnalogConfig) -> AnalogSettings {
    AnalogSettings {
        channels: config.channels.clone(),
        frequency_valid: positive(config.frequency_hz),
        buffer_size: config.buffer_size,
        range_valid: positive(config.range_v),
        offset_finite: config.offset_v.is_finite(),
        acquisition_mode: config.acquisition_mode,
        record_length_valid: config.record_length_s.is_finite() && config.record_length_s >= 0.0,
        filter: config.filter,
        trigger: config.trigger.as_ref().map(|t| TriggerSettings {
            enabled: t.enabled,
            source: t.source,
            channel: t.channel,
            level_finite: t.level_v.is_finite(),
            slope: t.slope,
            auto_timeout_valid: t.auto_timeout_s.is_finite() && t.auto_timeout_s >= 0.0,
        }),
        coupling: config.coupling,
        bandwidth: config.bandwidth_hz.map(positive),
        attenuation: config.attenuation.map(positive),
        impedance: config.impedance_ohm.map(positive),
    }
}

fn validate(config: &AnalogConfig) -> Result<(), String> {
    validate_analog_config(&settings(config))
}

fn base_config() -> AnalogConfig {
    AnalogConfig {
        channels: vec![0],
        frequency_hz: 1_000_000.0,
        buffer_size: 8192,
        range_v: 5.0,
        offset_v: 0.0,
        acquisition_mode: 0,
        record_length_s: 0.0,
        filter: FILTER_DECIMATE,
        trigger: None,
        coupling: None,
        bandwidth_hz: None,
        attenuation: None,
        impedance_ohm: None,
    }
}

#[test]
fn rejects_invalid_analog_configuration() {
    let mut config = base_config();
    assert!(validate(&config).is_ok());

    config.frequency_hz = 0.0;
    assert!(validate(&config).is_err());

    config.frequency_hz = 1_000_000.0;
    config.filter = 4;
    assert!(validate(&config).is_err());
}

#[test]
fn analog_configuration_errors_name_the_setting() {
    let mut config = base_config();
    config.channels = vec![0, -1];
    assert_eq!(validate(&config).unwrap_err(), "analog capture requires at least one valid channel");
    let mut config = base_config();
    config.channels = vec![];
    assert!(validate(&config).is_err());
    let mut config = base_config();
    config.bandwidth_hz = Some(f64::NAN);
    assert_eq!(
        validate(&config).unwrap_err(),
        "analog bandwidth must be positive and finite when provided"
    );
    let mut config = base_config();
    config.coupling = Some(2);
    assert_eq!(validate(&config).unwrap_err(), "analog coupling must be 0 (DC) or 1 (AC) when provided");
    let mut config = base_config();
    config.trigger = Some(AnalogTriggerConfig {
        enabled: true,
        source: 2,
        channel: 0,
        level_v: 0.5,
        slope: 3,
        auto_timeout_s: 0.0,
    });
    assert_eq!(validate(&config).unwrap_err(), "analog trigger slope must be 0, 1, or 2");
    let mut config = base_config();
    config.buffer_size = 0;
    config.range_v = -1.0;
    assert_eq!(validate(&config).unwrap_err(), "analog buffer size must be positive");
}

const ALL: OptionalSetters = OptionalSetters { attenuation: true, bandwidth: true, impedance: true, coupling: true };

#[test]
fn configuration_calls_come_in_order() {
    let mut config = base_config();
    config.channels = vec![0, 1];
    config.coupling = Some(1);
    config.trigger = Some(AnalogTriggerConfig {
        enabled: true,
        source: 2,
        channel: 1,
        level_v: 0.5,
        slope: 1,
        auto_timeout_s: 0.0,
    });
    let plan = analog_plan(&settings(&config), 2, &ALL);
    assert!(plan.failure.is_none());
    let names: Vec<String> = plan.steps.iter().map(|s| step_name(*s)).collect();
    assert_eq!(
        names,
        vec![
            "auto", "enable 0 true", "enable 1 true", "range", "offset", "frequency", "buffer 8192",
            "mode 0", "filter 0", "coupling 1", "record", "source 2", "edge", "channel 1", "level",
            "condition 1", "timeout", "configure",
        ]
    );
}

#[test]
fn configuration_stops_at_a_missing_channel_or_setter() {
    let mut config = base_config();
    config.channels = vec![0, 3, 5];
    let plan = analog_plan(&settings(&config), 2, &ALL);
    assert_eq!(plan.steps.len(), 3);
    assert_eq!(
        plan.failure.unwrap(),
        "analog channel 3 is unavailable; device has 2 channels"
    );
    let mut config = base_config();
    config.bandwidth_hz = Some(1e6);
    let missing = OptionalSetters { bandwidth: false, ..ALL };
    let plan = analog_plan(&settings(&config), 2, &missing);
    assert_eq!(plan.failure.unwrap(), "WaveForms runtime does not support analog bandwidth");
    assert_eq!(plan.steps.len(), 9);
    let plan = analog_plan(&settings(&base_config()), 2, &missing);
    assert!(matches!(plan.steps[plan.steps.len() - 2], AnalogStep::TriggerSource(0)));
}

fn step_name(step: AnalogStep) -> String {
    match step {
        AnalogStep::AutoConfigureOff => "auto".to_string(),
        AnalogStep::EnableChannel(c, on) => format!("enable {c} {on}"),
        AnalogStep::SetRange => "range".to_string(),
        AnalogStep::SetOffset => "offset".to_string(),
        AnalogStep::SetFrequency => "frequency".to_string(),
        AnalogStep::SetBufferSize(b) => format!("buffer {b}"),
        AnalogStep::SetAcquisitionMode(m) => format!("mode {m}"),
        AnalogStep::SetFilter(v) => format!("filter {v}"),
        AnalogStep::SetAttenuation => "attenuation".to_string(),
        AnalogStep::SetBandwidth => "bandwidth".to_string(),
        AnalogStep::SetImpedance => "impedance".to_string(),
        AnalogStep::SetCoupling(v) => format!("coupling {v}"),
        AnalogStep::SetRecordLength => "record".to_string(),
        AnalogStep::TriggerSource(s) => format!("source {s}"),
        AnalogStep::TriggerTypeEdge => "edge".to_string(),
        AnalogStep::TriggerChannel(c) => format!("channel {c}"),
        AnalogStep::TriggerLevel => "level".to_string(),
        AnalogStep::TriggerCondition(c) => format!("condition {c}"),
        AnalogStep::TriggerAutoTimeout => "timeout".to_string(),
        AnalogStep::Configure => "configure".to_string(),
    }
}

#[test]
fn device_records_and_serials() {
    assert_eq!(normalize_serial("  sn:210415bb1234 \n"), "210415BB1234");
    assert_eq!(normalize_serial("abc"), "ABC");
    let mut name = [0u8; 32];
    name[..24].copy_from_slice(b"Analog Discovery 3\0junk\0");
    let mut serial = [0u8; 32];
    serial[..15].copy_from_slice(b"SN:210415abcdef");
    let device = ad3_device(1, &name, &serial, 3, 1, 2);
    assert_eq!(device.name, "Analog Discovery 3");
    assert_eq!(device.serial, "210415ABCDEF");
    assert!(device.in_use);
    assert_eq!((device.index, device.revision, device.configuration_count), (1, 3, 2));
    assert_eq!(c_text(&[0xff, b'a', 0]), "\u{fffd}a");
    assert!(is_ad3(10) && !is_ad3(3));
}

#[test]
fn waveforms_messages() {
    assert_eq!(failure_message("FDwfEnum", ""), "FDwfEnum failed");
    assert_eq!(failure_message("FDwfEnum", "busy"), "FDwfEnum failed: busy");
    assert_eq!(check_device_index(2, 2).unwrap_err(), "AD3 device index 2 is no longer available");
    assert_eq!(check_device_index(-1, 2).unwrap_err(), "AD3 device index -1 is no longer available");
    assert!(check_device_index(1, 2).is_ok());
    assert_eq!(
        check_device_type(0, 3).unwrap_err(),
        "device index 0 is type 3, not Analog Discovery 3"
    );
    assert!(check_handle(0).is_err() && check_handle(5).is_ok());
    assert_eq!(check_stream_available(2_000_000).unwrap(), 2_000_000);
    assert!(check_stream_available(2_000_001).is_err() && check_stream_available(-1).is_err());
    assert!(check_stream_running(2, 0).is_err());
    assert!(check_stream_running(2, 5).is_ok() && check_stream_running(3, 0).is_ok());
    assert_eq!((sample_count(-4), sample_count(9)), (0, 9));
    assert_eq!((default_filter(), default_trigger_source()), (0, 2));
}
