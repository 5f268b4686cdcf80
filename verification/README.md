# Analog Logic

The backend of a two-channel oscilloscope and protocol decoder for the
Analog Discovery 3: it streams both analog inputs into a rolling window,
serves min/max envelopes of a view, digitizes the signals and runs the sigrok
protocol decoders on them, including the IMU firmware protocol on top of CAN.

## Layout

- `src/` is the library, verified with Verus. Each public function states
  its result in its contract.
  - `text.rs`: trimming, prefixes, ASCII case, search, number parsing and
    formatting over `Seq<char>`.
  - `stream.rs`: the rolling window, the timeline counters, envelope buckets
    and the stream worker's lifecycle.
  - `digitize.rs`: thresholds and hysteresis to logic bytes.
  - `decoder.rs`: the decoder catalog, decoder IDs and expressions.
  - `trace.rs`: annotations from the decoder's begin/end trace events.
  - `annotation.rs`: annotations and their stable order by start time.
  - `can.rs`, `imu.rs`: CAN frames from decoder fields, and IMU samples from
    CAN frames.
  - `device.rs`, `analog.rs`: device records and messages, the checks on an
    AnalogIn configuration and the order of the calls that apply it.
- `tests/`: tests of the library.
- `app/`: the program around it: JSON-line commands on standard input and
  output, the WaveForms calls, the worker thread, the capture files, the
  sigrok process, and the floating-point arithmetic of times and voltages.
