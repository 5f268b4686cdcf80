use analog_logic::trace::{is_bit_row, is_data_row_named, pair_trace_events, TraceEvent};

fn event(phase: &str, row: &str, name: &str, ts: Option<f64>) -> TraceEvent {
    TraceEvent {
        phase: phase.into(),
        pid: "uart".into(),
        row: row.into(),
        name: name.into(),
        time_bits: ts.map(|t| t.to_bits()),
    }
}

#[test]
fn begin_and_end_events_pair_by_row() {
    let events = vec![
        event("B", "RX", "0x41", Some(2.0)),
        event("B", "Bits", "1", Some(2.0)),
        event("E", "Bits", "", Some(2.5)),
        event("B", "Warnings", "Frame error", Some(1.0)),
        event("E", "RX", "", Some(3.0)),
        event("E", "Warnings", "", Some(1.5)),
        event("E", "TX", "", Some(4.0)),
        event("i", "RX", "", Some(9.0)),
    ];
    let annotations = pair_trace_events(&events).unwrap();
    assert_eq!(annotations.len(), 2);
    assert_eq!(annotations[0].text, "Frame error");
    assert_eq!(annotations[0].value, None);
    assert_eq!(f64::from_bits(annotations[0].end_bits), 1.5);
    assert_eq!(annotations[1].row, "RX");
    assert_eq!(annotations[1].value, Some(0x41));
    assert_eq!(f64::from_bits(annotations[1].start_bits), 2.0);
    assert_eq!(f64::from_bits(annotations[1].end_bits), 3.0);
}

#[test]
fn nested_events_close_newest_first() {
    let events = vec![
        event("B", "Data", "outer", Some(1.0)),
        event("B", "Data", "7f", Some(2.0)),
        event("E", "Data", "", Some(3.0)),
        event("E", "Data", "", Some(4.0)),
    ];
    let annotations = pair_trace_events(&events).unwrap();
    assert_eq!(annotations[0].text, "outer");
    assert_eq!(annotations[0].value, None);
    assert_eq!(annotations[1].text, "7f");
    assert_eq!(annotations[1].value, Some(0x7f));
}

#[test]
fn an_event_without_time_is_an_error() {
    let events = vec![event("B", "RX", "a", Some(1.0)), event("M", "RX", "", None)];
    assert_eq!(pair_trace_events(&events).err().unwrap(), "Missing annotation time");
}

#[test]
fn row_kinds_come_from_the_name_and_its_lowercase() {
    assert!(is_bit_row("bits"));
    assert!(is_bit_row("uart bits"));
    assert!(!is_bit_row("Bits"));
    assert!(is_data_row_named("RX", "rx"));
    assert!(is_data_row_named("MISO", "miso"));
    assert!(is_data_row_named("Data", "data"));
    assert!(!is_data_row_named("Data", "Data"));
    assert!(!is_data_row_named("rx", "rx"));
}
