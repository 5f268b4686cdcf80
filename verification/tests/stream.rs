use analog_logic::stream::{
    admit_start, append_window, check_decoder_config_count, chunk_action, chunk_has_news,
    clamp_pixels, flush_due, ChunkAction,
    envelope_plan, stop_blocking, StreamControl, StreamState,
};
use std::collections::VecDeque;

#[test]
fn stop_without_start_is_safe() {
    let mut manager: Option<StreamControl<()>> = None;
    stop_blocking(&mut manager, |_| true).unwrap();
}

#[test]
fn stop_joins_the_worker_once() {
    let mut manager = Some(StreamControl { stop_requested: false, worker: Some(7u32) });
    let mut joined = Vec::new();
    stop_blocking(&mut manager, |w| {
        joined.push(w);
        true
    })
    .unwrap();
    assert_eq!(joined, vec![7]);
    let control = manager.as_ref().unwrap();
    assert!(control.stop_requested && control.worker.is_none());
    stop_blocking(&mut manager, |_| panic!("no worker is left to join")).unwrap();
}

#[test]
fn stop_reports_a_panicked_worker() {
    let mut manager = Some(StreamControl { stop_requested: false, worker: Some(1u8) });
    assert_eq!(stop_blocking(&mut manager, |_| false).unwrap_err(), "Stream worker panicked");
}

#[test]
fn start_is_refused_while_running() {
    let mut manager = Some(StreamControl { stop_requested: false, worker: Some(1u8) });
    assert_eq!(
        admit_start(&mut manager, |_| false, |_| true).unwrap_err(),
        "The stream is already running"
    );
    assert!(manager.is_some());
    admit_start(&mut manager, |_| true, |_| true).unwrap();
    assert!(manager.is_none());
}

/// A window of `f64` samples, as the stream keeps it.
fn collect(q: &VecDeque<f64>) -> Vec<f64> {
    q.iter().copied().collect()
}

#[test]
fn bounded_window_keeps_latest_and_discards_gaps() {
    let mut window = [VecDeque::new(), VecDeque::new()];
    append_window(
        &mut window,
        &[vec![1., 2., 3.], vec![11., 12., 13.]],
        4,
        false,
        false,
    );
    append_window(
        &mut window,
        &[vec![4., 5., 6.], vec![14., 15., 16.]],
        4,
        false,
        false,
    );
    assert_eq!(
        window[0].iter().copied().collect::<Vec<_>>(),
        vec![3., 4., 5., 6.]
    );
    append_window(&mut window, &[vec![9.], vec![19.]], 4, true, false);
    assert_eq!(window[1].iter().copied().collect::<Vec<_>>(), vec![19.]);
    append_window(&mut window, &[vec![8.], vec![18.]], 4, false, true);
    assert!(window[0].is_empty());
}

#[test]
fn a_large_chunk_keeps_its_newest_samples() {
    let mut window = [VecDeque::from(vec![0.5]), VecDeque::from(vec![0.5])];
    append_window(&mut window, &[vec![1., 2., 3., 4., 5.], vec![1., 2., 3., 4., 5.]], 3, false, false);
    assert_eq!(collect(&window[0]), vec![3., 4., 5.]);
    append_window(&mut window, &[vec![6.], vec![6.]], 0, false, false);
    assert!(window[1].is_empty());
}

#[test]
fn ingest_counts_samples_on_the_timeline() {
    let mut state: StreamState<f64> = StreamState::new("dir".into(), 8);
    let first = state.ingest(&[vec![1., 2., 3.], vec![4., 5., 6.]], 0, 0);
    assert_eq!((first.sample_start, first.count, first.file_sample_offset), (0, 3, 0));
    let second = state.ingest(&[vec![7., 8.], vec![9., 10.]], 5, 0);
    assert_eq!((second.sample_start, second.count, second.lost_before), (8, 2, 5));
    assert_eq!(second.file_sample_offset, 3);
    assert_eq!((state.total, state.received, state.lost), (10, 5, 5));
    assert_eq!(state.total, state.received + state.lost);
    assert_eq!(collect(&state.channels[0]), vec![7., 8.]);
    assert_eq!(state.sequence, 2);
    assert_eq!(state.window_origin(), 8);
    state.ingest(&[vec![], vec![]], 0, 2);
    assert_eq!(state.corrupt, 2);
    assert!(state.check_decodable().is_err());
    state.finish(Some("boom".into()));
    assert!(!state.running);
    assert_eq!(state.error.as_deref(), Some("boom"));
}

#[test]
fn chunks_with_news_are_taken() {
    assert!(!chunk_has_news(0, 0, 0));
    assert!(chunk_has_news(1, 0, 0));
    assert!(chunk_has_news(0, 1, 0));
    assert!(chunk_has_news(0, 0, 1));
}

#[test]
fn decoding_needs_two_configurations() {
    assert!(check_decoder_config_count(2).is_ok());
    assert_eq!(
        check_decoder_config_count(1).unwrap_err(),
        "Two decoder configurations are required"
    );
}

struct Envelope {
    step_s: f64,
    min: Vec<f64>,
    max: Vec<f64>,
}

/// The envelope of a view, with the buckets that the library plans.
fn envelope(values: &[f64], rate: f64, start: f64, span: f64, pixels: usize) -> Envelope {
    let first = (start * rate).floor() as usize;
    let last = ((start + span) * rate).ceil() as usize;
    let plan = envelope_plan(values.len(), first, last, pixels);
    let mut result = Envelope { step_s: plan.step as f64 / rate, min: vec![], max: vec![] };
    for (a, b) in plan.buckets {
        let chunk = &values[a..b];
        result.min.push(chunk.iter().copied().fold(f64::INFINITY, f64::min));
        result.max.push(chunk.iter().copied().fold(f64::NEG_INFINITY, f64::max));
    }
    result
}

#[test]
fn envelopes_preserve_single_sample_pulses_and_zoom() {
    let mut values = vec![0.; 10000];
    values[5001] = 3.3;
    let result = envelope(&values, 1e6, 0., 0.01, 500);
    assert!(result.min.len() <= 500);
    assert_eq!(result.max.iter().copied().fold(0., f64::max), 3.3);
    let zoom = envelope(&values, 1e6, 0.005, 0.00001, 500);
    assert_eq!(zoom.step_s, 1e-6);
    assert_eq!(zoom.max[1], 3.3);
}

#[test]
fn envelope_buckets_cover_the_view() {
    let plan = envelope_plan(10, 2, 9, 3);
    assert_eq!((plan.first, plan.end, plan.step), (2, 9, 3));
    assert_eq!(plan.buckets, vec![(2, 5), (5, 8), (8, 9)]);
    let empty = envelope_plan(10, 20, 30, 64);
    assert_eq!((empty.first, empty.end, empty.step), (10, 10, 1));
    assert!(empty.buckets.is_empty());
    let reversed = envelope_plan(10, 6, 4, 64);
    assert_eq!((reversed.first, reversed.end), (6, 6));
    assert_eq!(clamp_pixels(1), 64);
    assert_eq!(clamp_pixels(5000), 2048);
    assert_eq!(clamp_pixels(2048), 2048);
    assert_eq!(clamp_pixels(1000), 1000);
}

#[test]
fn the_worker_waits_then_stalls_and_flushes_each_second() {
    assert!(matches!(chunk_action(3, 0, 0, 10_000_000_000), ChunkAction::TakeIn));
    assert!(matches!(chunk_action(0, 1, 0, 0), ChunkAction::TakeIn));
    assert!(matches!(chunk_action(0, 0, 0, 5_000_000_000), ChunkAction::Wait));
    match chunk_action(0, 0, 0, 5_000_000_001) {
        ChunkAction::Stall(e) => assert_eq!(e, "No samples received from AD3 for 5 seconds"),
        _ => panic!("expected a stall"),
    }
    assert!(!flush_due(1_000_000_000));
    assert!(flush_due(1_000_000_001));
}

#[test]
fn acquisition_settings_keep_the_timeline() {
    let mut state: StreamState<f64> = StreamState::new("dir".into(), 8);
    state.ingest(&[vec![1., 2.], vec![3., 4.]], 0, 0);
    state.set_acquisition(14, 2_000_000);
    assert_eq!((state.bits, state.capacity), (14, 2_000_000));
    assert_eq!((state.total, state.received, state.sequence), (2, 2, 1));
    assert_eq!(state.channels[0].len(), state.channels[1].len());
}

#[test]
fn envelopes_never_exceed_the_view_limit() {
    let plan = envelope_plan(8192, 0, 8192, clamp_pixels(5000));
    assert_eq!(plan.buckets.len(), 2048);
    assert_eq!(plan.step, 4);
}
