use analog_logic::decoder::{
    check_decoder_expression, decoder_catalog, decoder_details, limit_decoder_output,
    sigrok_expression, DecoderDetails,
};

#[test]
fn imu_firmware_expression_uses_can_decoder_at_configured_bitrate() {
    assert_eq!(
        sigrok_expression("imu_firmware:can_rx=1:nominal_bitrate=1000000").unwrap(),
        "can:can_rx=1:nominal_bitrate=1000000"
    );
    assert!(sigrok_expression("imu_firmware:can_rx=0:nominal_bitrate=0").is_err());
}

#[test]
fn plain_expressions_pass_through() {
    assert_eq!(sigrok_expression("uart:rx=0:tx=1").unwrap(), "uart:rx=0:tx=1");
    assert_eq!(sigrok_expression("can:can_rx=0").unwrap(), "can:can_rx=0");
}

#[test]
fn imu_expression_errors() {
    assert_eq!(
        sigrok_expression("imu_firmware:nominal_bitrate=500000").unwrap_err(),
        "IMU firmware decoder requires can_rx=<channel>"
    );
    assert_eq!(
        sigrok_expression("imu_firmware:can_rx=1").unwrap_err(),
        "IMU firmware decoder requires nominal_bitrate=<bit/s>"
    );
    assert_eq!(
        sigrok_expression("imu_firmware:can_rx=2:nominal_bitrate=1").unwrap_err(),
        "IMU firmware channel must be 0 or 1"
    );
    assert_eq!(
        sigrok_expression("imu_firmware:can_rx=x:nominal_bitrate=1").unwrap_err(),
        "IMU firmware channel must be 0 or 1"
    );
    assert_eq!(
        sigrok_expression("imu_firmware:can_rx=0:nominal_bitrate=fast").unwrap_err(),
        "IMU firmware bitrate must be a positive integer"
    );
    assert_eq!(
        sigrok_expression("imu_firmware:can_rx=0:nominal_bitrate=0").unwrap_err(),
        "IMU firmware bitrate must be a positive integer"
    );
}

#[test]
fn imu_expression_settings_in_any_order_last_wins() {
    assert_eq!(
        sigrok_expression("imu_firmware:nominal_bitrate=250000:x=1:can_rx=1:can_rx=+0").unwrap(),
        "can:can_rx=0:nominal_bitrate=250000"
    );
    assert_eq!(
        sigrok_expression("imu_firmware:can_rx=01:nominal_bitrate=+1000").unwrap(),
        "can:can_rx=1:nominal_bitrate=1000"
    );
}

#[test]
fn decoder_catalog_lists_ids_and_names() {
    let text = "Supported hardware drivers:\n  demo  Demo driver\n\nSupported protocol decoders:\n  can                  Controller Area Network\r\n  uart   Universal Asynchronous Receiver/Transmitter  \n\n  lonely\n";
    let list = decoder_catalog(text).unwrap();
    assert_eq!(list.len(), 2);
    assert_eq!(list[0].id, "can");
    assert_eq!(list[0].name, "Controller Area Network");
    assert_eq!(list[1].id, "uart");
    assert_eq!(list[1].name, "Universal Asynchronous Receiver/Transmitter");
    assert_eq!(decoder_catalog("nothing here").unwrap_err(), "No decoder catalog returned");
}

#[test]
fn decoder_catalog_stops_at_a_second_heading() {
    let text = "Supported protocol decoders:\n a A\nSupported protocol decoders:\n b B\n";
    let list = decoder_catalog(text).unwrap();
    assert_eq!(list.len(), 1);
    assert_eq!(list[0].id, "a");
}

#[test]
fn decoder_ids_are_checked() {
    assert!(matches!(decoder_details("uart"), Ok(DecoderDetails::Query)));
    assert!(matches!(decoder_details("spi_2"), Ok(DecoderDetails::Query)));
    assert_eq!(decoder_details("").err().unwrap(), "Invalid decoder ID");
    assert_eq!(decoder_details("can;rm").err().unwrap(), "Invalid decoder ID");
    match decoder_details("imu_firmware") {
        Ok(DecoderDetails::Known(text)) => {
            assert!(text.starts_with("IMU firmware application protocol\n\nUnderlying decoder: Classical CAN\n"));
            assert!(text.ends_with("One decoded sample is emitted after all three frames arrive."));
        }
        _ => panic!("the IMU firmware decoder is described here"),
    }
}

#[test]
fn decoder_expressions_are_checked() {
    assert!(check_decoder_expression("uart:rx=0").is_ok());
    assert_eq!(check_decoder_expression("").unwrap_err(), "Enter a valid decoder expression");
    assert!(check_decoder_expression("uart\n").is_err());
    assert!(check_decoder_expression(&"a".repeat(4096)).is_ok());
    assert!(check_decoder_expression(&"a".repeat(4097)).is_err());
    assert!(check_decoder_expression(&"\u{e9}".repeat(2049)).is_err());
}

#[test]
fn decoder_output_is_limited() {
    let (out, truncated) = limit_decoder_output("short");
    assert_eq!(out, "short");
    assert!(!truncated);
    let long = "x".repeat(64001);
    let (out, truncated) = limit_decoder_output(&long);
    assert_eq!(out.len(), 64000);
    assert!(truncated);
    let wide = "\u{e9}".repeat(40000);
    let (out, truncated) = limit_decoder_output(&wide);
    assert_eq!(out.chars().count(), 40000);
    assert!(truncated);
}
