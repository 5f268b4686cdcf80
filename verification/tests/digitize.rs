use analog_logic::digitize::{digitize, CaptureShape, Level};

struct Capture {
    channels: Vec<Vec<f64>>,
    samples_lost: i32,
    samples_corrupt: i32,
}

struct Config {
    thresholds: [f64; 2],
    hysteresis_v: f64,
    differential: bool,
}

fn level(value: f64, threshold: f64, hysteresis: f64) -> Level {
    Level {
        finite: value.is_finite(),
        at_threshold: value >= threshold,
        above_band: value >= threshold + hysteresis / 2.0,
        below_band: value <= threshold - hysteresis / 2.0,
    }
}

/// Digitizes a capture: the levels of each sample against the settings,
/// then the library's state machine.
fn run(capture: &Capture, config: &Config) -> Result<(Vec<u8>, [usize; 2]), String> {
    let shape = CaptureShape {
        samples_lost: capture.samples_lost,
        samples_corrupt: capture.samples_corrupt,
        channel_lengths: capture.channels.iter().map(|c| c.len()).collect(),
    };
    let valid = config.thresholds.iter().all(|v| v.is_finite())
        && config.hysteresis_v.is_finite()
        && config.hysteresis_v >= 0.0;
    let mut levels = Vec::new();
    if capture.channels.len() == 2 && capture.channels[0].len() == capture.channels[1].len() {
        for i in 0..capture.channels[0].len() {
            let a1 = capture.channels[0][i];
            let a2 = capture.channels[1][i];
            let first = if config.differential { a2 - a1 } else { a1 };
            levels.push([
                level(first, config.thresholds[0], config.hysteresis_v),
                level(a2, config.thresholds[1], config.hysteresis_v),
            ]);
        }
    }
    digitize(&shape, valid, &levels, config.differential)
}

#[test]
fn thresholds_hysteresis_and_channel_order() {
    let capture = Capture {
        channels: vec![vec![0.0, 2.0, 0.95, 0.0], vec![2.0, 0.0, 0.0, 2.0]],
        samples_lost: 0,
        samples_corrupt: 0,
    };
    let config = Config { thresholds: [1.0, 1.0], hysteresis_v: 0.2, differential: false };
    let (bytes, transitions) = run(&capture, &config).unwrap();
    assert_eq!(bytes, vec![2, 1, 1, 2]);
    assert_eq!(transitions, [2, 2]);
    let damaged = Capture { samples_lost: 1, ..capture };
    assert!(run(&damaged, &config).is_err());
}

#[test]
fn differential_can_is_dominant_low() {
    let capture = Capture {
        channels: vec![vec![2.5, 1.5, 2.5], vec![2.5, 3.5, 2.5]],
        samples_lost: 0,
        samples_corrupt: 0,
    };
    let config = Config { thresholds: [0.9, 1.0], hysteresis_v: 0.1, differential: true };
    let (bytes, _) = run(&capture, &config).unwrap();
    assert_eq!(bytes.iter().map(|b| b & 1).collect::<Vec<_>>(), vec![1, 0, 1]);
}

#[test]
fn digitize_errors_come_in_order() {
    let good = Capture { channels: vec![vec![1.0], vec![1.0]], samples_lost: 0, samples_corrupt: 0 };
    let config = Config { thresholds: [1.0, 1.0], hysteresis_v: 0.1, differential: false };
    let corrupt = Capture { samples_corrupt: 3, channels: vec![], samples_lost: 0 };
    assert_eq!(
        run(&corrupt, &config).unwrap_err(),
        "Capture has lost/corrupt samples; recapture at a lower sample rate before decoding."
    );
    let bad = Config { thresholds: [f64::NAN, 1.0], hysteresis_v: 0.1, differential: false };
    assert_eq!(
        run(&good, &bad).unwrap_err(),
        "Thresholds must be finite and hysteresis must be non-negative"
    );
    let negative = Config { thresholds: [1.0, 1.0], hysteresis_v: -0.1, differential: false };
    assert!(run(&good, &negative).is_err());
    let uneven = Capture { channels: vec![vec![1.0], vec![]], samples_lost: 0, samples_corrupt: 0 };
    assert_eq!(run(&uneven, &config).unwrap_err(), "Two equal-length analog channels are required");
    let empty = Capture { channels: vec![vec![], vec![]], samples_lost: 0, samples_corrupt: 0 };
    assert!(run(&empty, &config).is_err());
    let infinite = Capture { channels: vec![vec![1.0, f64::INFINITY], vec![1.0, 1.0]], samples_lost: 0, samples_corrupt: 0 };
    assert_eq!(run(&infinite, &config).unwrap_err(), "Capture contains non-finite samples");
}

#[test]
fn hysteresis_band_keeps_the_level() {
    let capture = Capture {
        channels: vec![vec![0.0, 1.04, 0.96, 1.2, 0.96, 0.5], vec![0.0; 6]],
        samples_lost: 0,
        samples_corrupt: 0,
    };
    let config = Config { thresholds: [1.0, 1.0], hysteresis_v: 0.2, differential: false };
    let (bytes, transitions) = run(&capture, &config).unwrap();
    assert_eq!(bytes, vec![0, 0, 0, 1, 1, 0]);
    assert_eq!(transitions, [2, 0]);
}
