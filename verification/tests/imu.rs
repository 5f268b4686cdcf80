use analog_logic::annotation::{sort_by_start, time_order_key, Annotation};
use analog_logic::can::{collect_can_frames, parse_data_byte, parse_identifier};
use analog_logic::imu::{decode_imu_firmware, expression_annotations};

fn fields(texts: &[&str]) -> Vec<Annotation> {
    texts
        .iter()
        .enumerate()
        .map(|(index, text)| Annotation {
            start_bits: (index as f64 * 0.00001).to_bits(),
            end_bits: ((index + 1) as f64 * 0.00001).to_bits(),
            row: "Fields".into(),
            text: (*text).into(),
            value: None,
        })
        .collect()
}

const SAMPLE: [&str; 24] = [
    "Identifier: 256",
    "Data length code: 6",
    "Data byte 0: 0x00",
    "Data byte 1: 0x13",
    "Data byte 2: 0xFF",
    "Data byte 3: 0xE1",
    "Data byte 4: 0x03",
    "Data byte 5: 0xFC",
    "Identifier: 0x101",
    "Data length code: 8",
    "Data byte 0: 0xFF",
    "Data byte 1: 0xFF",
    "Data byte 2: 0xFA",
    "Data byte 3: 0x24",
    "Data byte 4: 0x00",
    "Data byte 5: 0x00",
    "Data byte 6: 0x09",
    "Data byte 7: 0xC4",
    "Identifier: 258",
    "Data length code: 4",
    "Data byte 0: 0xFF",
    "Data byte 1: 0xFF",
    "Data byte 2: 0xF4",
    "Data byte 3: 0x48",
];

#[test]
fn imu_firmware_reassembles_signed_big_endian_payloads() {
    let annotations = fields(&SAMPLE);
    let decoded = decode_imu_firmware(&annotations);
    assert_eq!(decoded.len(), 3);
    assert_eq!(
        decoded[0].text,
        "IMU #1 \u{b7} ax=19 mg \u{b7} ay=-31 mg \u{b7} az=1020 mg"
    );
    assert_eq!(decoded[1].text, "IMU #1 \u{b7} gx=-1500 mdps \u{b7} gy=2500 mdps");
    assert_eq!(decoded[2].text, "IMU #1 \u{b7} gz=-3000 mdps");
}

#[test]
fn imu_firmware_ignores_remote_requests() {
    let texts = [
        "Identifier: 256",
        "Data length code: 6",
        "Remote transmission request: remote frame",
    ];
    let annotations = fields(&texts);
    assert!(decode_imu_firmware(&annotations).is_empty());
}

#[test]
fn imu_samples_are_numbered_and_placed() {
    let mut texts: Vec<&str> = SAMPLE.to_vec();
    texts.extend_from_slice(&SAMPLE);
    let decoded = decode_imu_firmware(&fields(&texts));
    assert_eq!(decoded.len(), 6);
    assert!(decoded[3].text.starts_with("IMU #2 "));
    assert_eq!(decoded[0].row, "IMU firmware");
    assert_eq!(f64::from_bits(decoded[0].start_bits), 0.0);
    assert_eq!(f64::from_bits(decoded[0].end_bits), 8.0 * 0.00001);
    assert_eq!(f64::from_bits(decoded[2].start_bits), 18.0 * 0.00001);
}

#[test]
fn imu_short_frame_gives_a_warning() {
    let texts = ["Identifier: 0x102", "Data length code: 2", "Data byte 0: 0x01", "Data byte 1: 0x02"];
    let decoded = decode_imu_firmware(&fields(&texts));
    assert_eq!(decoded.len(), 1);
    assert_eq!(decoded[0].row, "Warnings");
    assert_eq!(
        decoded[0].text,
        "Invalid IMU firmware frame 0x102: gyro Z requires 4 data bytes"
    );
}

#[test]
fn imu_gyro_without_acceleration_is_dropped_and_other_ids_ignored() {
    let mut texts: Vec<&str> = SAMPLE[8..].to_vec();
    texts.push("Identifier: 7");
    texts.push("Data length code: 0");
    assert!(decode_imu_firmware(&fields(&texts)).is_empty());
}

#[test]
fn imu_keeps_decoder_warnings_in_time_order() {
    let mut annotations = fields(&SAMPLE);
    annotations.push(Annotation {
        start_bits: (0.5f64 * 0.00001).to_bits(),
        end_bits: 0.00001f64.to_bits(),
        row: "Warnings".into(),
        text: "Bit stuff error".into(),
        value: None,
    });
    let decoded = decode_imu_firmware(&annotations);
    assert_eq!(decoded.len(), 4);
    assert_eq!(decoded[1].text, "Bit stuff error");
}

#[test]
fn identifiers_and_data_bytes_parse() {
    assert_eq!(parse_identifier("Identifier: 256"), Some(256));
    assert_eq!(parse_identifier("Identifier: 0X1f"), Some(31));
    assert_eq!(parse_identifier("Identifier: 4294967296"), None);
    assert_eq!(parse_identifier("Id: 1"), None);
    assert_eq!(parse_data_byte("Data byte 3: 0xE1"), Some((3, 0xE1)));
    assert_eq!(parse_data_byte("Data byte 3: E1"), None);
    assert_eq!(parse_data_byte("Data byte 3: 0x100"), None);
}

#[test]
fn frames_collect_lengths_and_bytes() {
    let frames = collect_can_frames(&fields(&SAMPLE));
    assert_eq!(frames.len(), 3);
    assert_eq!(frames[1].id, 0x101);
    assert_eq!(frames[1].length, Some(8));
    assert_eq!(frames[1].data[7], Some(0xC4));
    assert!(!frames[1].remote);
}

#[test]
fn sorting_is_by_time_and_stable() {
    let make = |t: f64, text: &str| Annotation {
        start_bits: t.to_bits(),
        end_bits: t.to_bits(),
        row: "r".into(),
        text: text.into(),
        value: None,
    };
    let sorted = sort_by_start(vec![
        make(2.0, "a"),
        make(-1.0, "b"),
        make(2.0, "c"),
        make(-0.0, "d"),
        make(0.0, "e"),
    ]);
    let order: Vec<String> = sorted.iter().map(|a| a.text.clone()).collect();
    assert_eq!(order, vec!["b", "d", "e", "a", "c"]);
    assert!(time_order_key((-0.0f64).to_bits()) < time_order_key(0.0f64.to_bits()));
}

#[test]
fn other_expressions_keep_annotations() {
    let annotations = fields(&SAMPLE);
    assert_eq!(expression_annotations("can:can_rx=0", annotations).len(), 24);
    let annotations = fields(&SAMPLE);
    assert_eq!(
        expression_annotations("imu_firmware:can_rx=0:nominal_bitrate=1000000", annotations).len(),
        3
    );
}

#[test]
fn imu_other_frames_between_sample_frames_are_ignored() {
    let mut texts: Vec<&str> = SAMPLE[..8].to_vec();
    texts.extend_from_slice(&["Identifier: 0x200", "Data length code: 1", "Data byte 0: 0x01"]);
    texts.extend_from_slice(&SAMPLE[8..18]);
    texts.extend_from_slice(&[
        "Identifier: 0x100",
        "Data length code: 6",
        "Remote transmission request: remote frame",
    ]);
    texts.extend_from_slice(&SAMPLE[18..]);
    let with_others = decode_imu_firmware(&fields(&texts));
    let texts_with: Vec<String> = with_others.iter().map(|a| a.text.clone()).collect();
    let plain = decode_imu_firmware(&fields(&SAMPLE));
    let texts_plain: Vec<String> = plain.iter().map(|a| a.text.clone()).collect();
    assert_eq!(texts_with, texts_plain);
}

#[test]
fn sorting_many_annotations_is_stable() {
    let n = 200_000usize;
    let annotations: Vec<Annotation> = (0..n)
        .map(|i| Annotation {
            start_bits: (((n - i) / 3) as f64).to_bits(),
            end_bits: 0f64.to_bits(),
            row: "r".into(),
            text: i.to_string(),
            value: None,
        })
        .collect();
    let sorted = sort_by_start(annotations);
    assert_eq!(sorted.len(), n);
    for w in sorted.windows(2) {
        let (a, b) = (f64::from_bits(w[0].start_bits), f64::from_bits(w[1].start_bits));
        assert!(a <= b);
        if a == b {
            let (x, y): (usize, usize) = (w[0].text.parse().unwrap(), w[1].text.parse().unwrap());
            assert!(x < y);
        }
    }
}
