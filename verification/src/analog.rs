//! Analog input configuration: which settings are accepted, and the order of
//! the WaveForms calls that apply them.
//!
//! The settings that are real numbers (frequency, range, offset, record
//! length, bandwidth, attenuation, impedance, trigger level and timeout) are
//! held here by what the checks need of them: whether each is in range.
use vstd::prelude::*;
use crate::text::{append_str, decimal, push_decimal, string_from, string_of};
use crate::device::{TRIGSRC_DETECTOR_ANALOG_IN, TRIGSRC_NONE};

verus! {

/// The trigger part of an analog configuration.
#[derive(Debug)]
pub struct TriggerSettings {
    pub enabled: bool,
    pub source: i32,
    pub channel: i32,
    /// The trigger level is finite.
    pub level_finite: bool,
    pub slope: i32,
    /// The auto timeout is finite and not negative.
    pub auto_timeout_valid: bool,
}

/// An analog input configuration.
#[derive(Debug)]
pub struct AnalogSettings {
    pub channels: Vec<i32>,
    /// The sample frequency is finite and positive.
    pub frequency_valid: bool,
    pub buffer_size: i32,
    /// The input range is finite and positive.
    pub range_valid: bool,
    /// The offset is finite.
    pub offset_finite: bool,
    pub acquisition_mode: i32,
    /// The record length is finite and not negative.
    pub record_length_valid: bool,
    pub filter: i32,
    pub trigger: Option<TriggerSettings>,
    pub coupling: Option<i32>,
    /// When a bandwidth is given: whether it is finite and positive.
    pub bandwidth: Option<bool>,
    /// When an attenuation is given: whether it is finite and positive.
    pub attenuation: Option<bool>,
    /// When an impedance is given: whether it is finite and positive.
    pub impedance: Option<bool>,
}

/// The first reason, in the order the checks are made, why a trigger
/// configuration is refused.
pub open spec fn trigger_problem(t: TriggerSettings) -> Option<Seq<char>> {
    if t.source < 0 || t.channel < 0 {
        Some("analog trigger source and channel must not be negative"@)
    } else if !t.level_finite {
        Some("analog trigger level must be finite"@)
    } else if !(0 <= t.slope <= 2) {
        Some("analog trigger slope must be 0, 1, or 2"@)
    } else if !t.auto_timeout_valid {
        Some("analog trigger auto timeout must be finite and non-negative"@)
    } else {
        None
    }
}

/// The first reason, in the order the checks are made, why an analog
/// configuration is refused; `None` when it is accepted.
pub open spec fn analog_problem(c: AnalogSettings) -> Option<Seq<char>> {
    if c.channels@.len() == 0 || exists|i: int| 0 <= i < c.channels@.len() && #[trigger] c.channels@[i] < 0 {
        Some("analog capture requires at least one valid channel"@)
    } else if !c.frequency_valid {
        Some("analog frequency must be a positive finite value"@)
    } else if c.buffer_size <= 0 {
        Some("analog buffer size must be positive"@)
    } else if !c.range_valid {
        Some("analog range must be a positive finite value"@)
    } else if c.bandwidth == Some(false) {
        Some("analog bandwidth must be positive and finite when provided"@)
    } else if c.attenuation == Some(false) {
        Some("analog attenuation must be positive and finite when provided"@)
    } else if c.impedance == Some(false) {
        Some("analog impedance must be positive and finite when provided"@)
    } else if c.coupling matches Some(v) && !(0 <= v <= 1) {
        Some("analog coupling must be 0 (DC) or 1 (AC) when provided"@)
    } else if !c.offset_finite {
        Some("analog offset must be finite"@)
    } else if c.acquisition_mode < 0 {
        Some("analog acquisition mode must not be negative"@)
    } else if !(0 <= c.filter <= 3) {
        Some("analog filter must be between 0 and 3"@)
    } else if !c.record_length_valid {
        Some("analog record length must be finite and non-negative"@)
    } else {
        match c.trigger {
            Some(t) => trigger_problem(t),
            None => None,
        }
    }
}

fn check_trigger(t: &TriggerSettings) -> (r: Result<(), String>)
    ensures
        match trigger_problem(*t) {
            Some(m) => r matches Err(e) && e@ == m,
            None => r is Ok,
        },
{
    if t.source < 0 || t.channel < 0 {
        return Err(string_from("analog trigger source and channel must not be negative"));
    }
    if !t.level_finite {
        return Err(string_from("analog trigger level must be finite"));
    }
    if !(0 <= t.slope && t.slope <= 2) {
        return Err(string_from("analog trigger slope must be 0, 1, or 2"));
    }
    if !t.auto_timeout_valid {
        return Err(string_from("analog trigger auto timeout must be finite and non-negative"));
    }
    Ok(())
}

/// Checks an analog configuration before it is applied.
pub fn validate_analog_config(config: &AnalogSettings) -> (r: Result<(), String>)
    ensures
        match analog_problem(*config) {
            Some(m) => r matches Err(e) && e@ == m,
            None => r is Ok,
        },
{
    let mut any_negative = false;
    for i in 0..config.channels.len()
        invariant
            any_negative == exists|j: int| 0 <= j < i && #[trigger] config.channels@[j] < 0,
    {
        if config.channels[i] < 0 {
            any_negative = true;
        }
    }
    if config.channels.len() == 0 || any_negative {
        return Err(string_from("analog capture requires at least one valid channel"));
    }
    if !config.frequency_valid {
        return Err(string_from("analog frequency must be a positive finite value"));
    }
    if config.buffer_size <= 0 {
        return Err(string_from("analog buffer size must be positive"));
    }
    if !config.range_valid {
        return Err(string_from("analog range must be a positive finite value"));
    }
    if config.bandwidth == Some(false) {
        return Err(string_from("analog bandwidth must be positive and finite when provided"));
    }
    if config.attenuation == Some(false) {
        return Err(string_from("analog attenuation must be positive and finite when provided"));
    }
    if config.impedance == Some(false) {
        return Err(string_from("analog impedance must be positive and finite when provided"));
    }
    match config.coupling {
        Some(v) => {
            if !(0 <= v && v <= 1) {
                return Err(string_from("analog coupling must be 0 (DC) or 1 (AC) when provided"));
            }
        },
        None => {},
    }
    if !config.offset_finite {
        return Err(string_from("analog offset must be finite"));
    }
    if config.acquisition_mode < 0 {
        return Err(string_from("analog acquisition mode must not be negative"));
    }
    if !(0 <= config.filter && config.filter <= 3) {
        return Err(string_from("analog filter must be between 0 and 3"));
    }
    if !config.record_length_valid {
        return Err(string_from("analog record length must be finite and non-negative"));
    }
    match &config.trigger {
        Some(t) => check_trigger(t),
        None => Ok(()),
    }
}

// ---------------------------------------------------------------------------
// The configuration calls
// ---------------------------------------------------------------------------

/// One WaveForms call of an analog configuration. Calls without an integer
/// argument take their value from the configuration.
#[derive(Clone, Copy, Debug)]
pub enum AnalogStep {
    /// Turn automatic configuration off.
    AutoConfigureOff,
    /// Enable or disable one channel.
    EnableChannel(i32, bool),
    SetRange,
    SetOffset,
    SetFrequency,
    SetBufferSize(i32),
    SetAcquisitionMode(i32),
    SetFilter(i32),
    SetAttenuation,
    SetBandwidth,
    SetImpedance,
    SetCoupling(i32),
    SetRecordLength,
    TriggerSource(i32),
    TriggerTypeEdge,
    TriggerChannel(i32),
    TriggerLevel,
    TriggerCondition(i32),
    TriggerAutoTimeout,
    /// Apply the configuration without starting.
    Configure,
}

/// Which optional setters the WaveForms runtime offers.
#[derive(Debug)]
pub struct OptionalSetters {
    pub attenuation: bool,
    pub bandwidth: bool,
    pub impedance: bool,
    pub coupling: bool,
}

/// The calls to make, in order, and the failure that follows them, if the
/// configuration cannot be applied completely.
#[derive(Debug)]
pub struct AnalogPlan {
    pub steps: Vec<AnalogStep>,
    pub failure: Option<String>,
}

/// A channel of the configuration that the device does not have: the first
/// one, in the configuration's order, at or above the channel count.
pub open spec fn first_unavailable(channels: Seq<i32>, count: i32) -> Option<i32>
    decreases channels.len(),
{
    if channels.len() == 0 {
        None
    } else if channels[0] >= count {
        Some(channels[0])
    } else {
        first_unavailable(channels.drop_first(), count)
    }
}

/// Enabling each of the device's channels, those of the configuration on.
pub open spec fn enable_steps(channels: Seq<i32>, count: i32) -> Seq<AnalogStep> {
    Seq::new(
        if count > 0 {
            count as nat
        } else {
            0
        },
        |c: int| AnalogStep::EnableChannel(c as i32, channels.contains(c as i32)),
    )
}

pub open spec fn unavailable_message(channel: i32, count: i32) -> Seq<char> {
    "analog channel "@ + decimal(channel as int) + " is unavailable; device has "@ + decimal(
        count as int,
    ) + " channels"@
}

/// The trigger calls: an enabled trigger sets source and edge type, the
/// channel for the analog detector, then level, condition and timeout; no
/// trigger, or a disabled one, sets no source.
pub open spec fn trigger_steps(trigger: Option<TriggerSettings>) -> Seq<AnalogStep> {
    match trigger {
        Some(t) => if t.enabled {
            seq![AnalogStep::TriggerSource(t.source), AnalogStep::TriggerTypeEdge] + (if t.source
                == TRIGSRC_DETECTOR_ANALOG_IN {
                seq![AnalogStep::TriggerChannel(t.channel)]
            } else {
                Seq::empty()
            }) + seq![
                AnalogStep::TriggerLevel,
                AnalogStep::TriggerCondition(t.slope),
                AnalogStep::TriggerAutoTimeout,
            ]
        } else {
            seq![AnalogStep::TriggerSource(TRIGSRC_NONE)]
        },
        None => seq![AnalogStep::TriggerSource(TRIGSRC_NONE)],
    }
}

/// The calls for the optional settings that are given (attenuation,
/// bandwidth, impedance, coupling, in that order), and the failure when the
/// runtime lacks the setter of one of them, which ends the calls.
pub open spec fn optional_steps(c: AnalogSettings, support: OptionalSetters) -> (
    Seq<AnalogStep>,
    Option<Seq<char>>,
) {
    if c.attenuation is Some && !support.attenuation {
        (Seq::empty(), Some("WaveForms runtime does not support analog attenuation"@))
    } else {
        let s1: Seq<AnalogStep> = if c.attenuation is Some {
            seq![AnalogStep::SetAttenuation]
        } else {
            Seq::empty()
        };
        if c.bandwidth is Some && !support.bandwidth {
            (s1, Some("WaveForms runtime does not support analog bandwidth"@))
        } else {
            let s2 = s1 + if c.bandwidth is Some {
                seq![AnalogStep::SetBandwidth]
            } else {
                Seq::empty()
            };
            if c.impedance is Some && !support.impedance {
                (s2, Some("WaveForms runtime does not support analog impedance"@))
            } else {
                let s3 = s2 + if c.impedance is Some {
                    seq![AnalogStep::SetImpedance]
                } else {
                    Seq::empty()
                };
                if c.coupling is Some && !support.coupling {
                    (s3, Some("WaveForms runtime does not support analog coupling"@))
                } else {
                    (
                        s3 + match c.coupling {
                            Some(v) => seq![AnalogStep::SetCoupling(v)],
                            None => Seq::empty(),
                        },
                        None,
                    )
                }
            }
        }
    }
}

/// The calls after the channels are known to exist: range, offset,
/// frequency, buffer size, acquisition mode and filter; then the optional
/// settings; then, unless one of those failed, record length, trigger and
/// the configure call.
pub open spec fn settings_steps(c: AnalogSettings, support: OptionalSetters) -> (
    Seq<AnalogStep>,
    Option<Seq<char>>,
) {
    let base = seq![
        AnalogStep::SetRange,
        AnalogStep::SetOffset,
        AnalogStep::SetFrequency,
        AnalogStep::SetBufferSize(c.buffer_size),
        AnalogStep::SetAcquisitionMode(c.acquisition_mode),
        AnalogStep::SetFilter(c.filter),
    ];
    let (optional, failure) = optional_steps(c, support);
    match failure {
        Some(m) => (base + optional, Some(m)),
        None => (
            base + optional + seq![AnalogStep::SetRecordLength] + trigger_steps(c.trigger)
                + seq![AnalogStep::Configure],
            None,
        ),
    }
}

/// The calls that apply an analog configuration to a device with
/// `channel_count` channels, and the failure after them, if any.
pub open spec fn analog_plan_spec(
    c: AnalogSettings,
    channel_count: i32,
    support: OptionalSetters,
) -> (Seq<AnalogStep>, Option<Seq<char>>) {
    let head = seq![AnalogStep::AutoConfigureOff] + enable_steps(c.channels@, channel_count);
    match first_unavailable(c.channels@, channel_count) {
        Some(ch) => (head, Some(unavailable_message(ch, channel_count))),
        None => {
            let (rest, failure) = settings_steps(c, support);
            (head + rest, failure)
        },
    }
}

fn contains_channel(channels: &Vec<i32>, c: i32) -> (r: bool)
    ensures
        r == channels@.contains(c),
{
    for i in 0..channels.len()
        invariant
            forall|j: int| 0 <= j < i ==> channels@[j] != c,
    {
        if channels[i] == c {
            assert(channels@[i as int] == c);
            return true;
        }
    }
    false
}

fn find_unavailable(channels: &Vec<i32>, count: i32) -> (r: Option<i32>)
    ensures
        r == first_unavailable(channels@, count),
{
    let mut i: usize = 0;
    assert(channels@.skip(0) == channels@);
    while i < channels.len()
        invariant
            i <= channels@.len(),
            first_unavailable(channels@, count) == first_unavailable(channels@.skip(i as int), count),
        decreases channels@.len() - i,
    {
        assert(channels@.skip(i as int)[0] == channels@[i as int]);
        if channels[i] >= count {
            return Some(channels[i]);
        }
        assert(channels@.skip(i as int).drop_first() =~= channels@.skip(i + 1));
        i = i + 1;
    }
    None
}

fn push_step(steps: &mut Vec<AnalogStep>, s: AnalogStep)
    ensures
        final(steps)@ == old(steps)@.push(s),
{
    steps.push(s);
}

/// The WaveForms calls that apply an analog configuration, in order, to a
/// device with `channel_count` channels whose runtime offers the given
/// optional setters.
pub fn analog_plan(config: &AnalogSettings, channel_count: i32, support: &OptionalSetters) -> (r:
    AnalogPlan)
    ensures
        ({
            let (steps, failure) = analog_plan_spec(*config, channel_count, *support);
            &&& r.steps@ == steps
            &&& match failure {
                Some(m) => r.failure matches Some(e) && e@ == m,
                None => r.failure is None,
            }
        }),
{
    let mut steps: Vec<AnalogStep> = Vec::new();
    push_step(&mut steps, AnalogStep::AutoConfigureOff);
    let mut c: i32 = 0;
    while c < channel_count
        invariant
            0 <= c,
            channel_count > 0 ==> c <= channel_count,
            channel_count <= 0 ==> c == 0,
            steps@ == seq![AnalogStep::AutoConfigureOff] + Seq::new(
                c as nat,
                |k: int| AnalogStep::EnableChannel(k as i32, config.channels@.contains(k as i32)),
            ),
        decreases channel_count - c,
    {
        let on = contains_channel(&config.channels, c);
        push_step(&mut steps, AnalogStep::EnableChannel(c, on));
        assert(Seq::new(
            (c + 1) as nat,
            |k: int| AnalogStep::EnableChannel(k as i32, config.channels@.contains(k as i32)),
        ) =~= Seq::new(
            c as nat,
            |k: int| AnalogStep::EnableChannel(k as i32, config.channels@.contains(k as i32)),
        ).push(AnalogStep::EnableChannel(c, on)));
        c = c + 1;
    }
    assert(steps@ =~= seq![AnalogStep::AutoConfigureOff] + enable_steps(
        config.channels@,
        channel_count,
    ));
    let ghost head = steps@;
    match find_unavailable(&config.channels, channel_count) {
        Some(ch) => {
            let mut out: Vec<char> = Vec::new();
            append_str(&mut out, "analog channel ");
            push_decimal(&mut out, ch as i64);
            append_str(&mut out, " is unavailable; device has ");
            push_decimal(&mut out, channel_count as i64);
            append_str(&mut out, " channels");
            return AnalogPlan { steps, failure: Some(string_of(out.as_slice())) };
        },
        None => {},
    }
    let failure = append_settings_steps(&mut steps, config, support);
    AnalogPlan { steps, failure }
}

fn append_optional_steps(
    steps: &mut Vec<AnalogStep>,
    config: &AnalogSettings,
    support: &OptionalSetters,
) -> (r: Option<String>)
    ensures
        final(steps)@ == old(steps)@ + optional_steps(*config, *support).0,
        match optional_steps(*config, *support).1 {
            Some(m) => r matches Some(e) && e@ == m,
            None => r is None,
        },
{
    let ghost start = steps@;
    assert(start + Seq::<AnalogStep>::empty() =~= start);
    if config.attenuation.is_some() {
        if !support.attenuation {
            return Some(string_from("WaveForms runtime does not support analog attenuation"));
        }
        push_step(steps, AnalogStep::SetAttenuation);
    }
    let ghost s1: Seq<AnalogStep> = if config.attenuation is Some {
        seq![AnalogStep::SetAttenuation]
    } else {
        Seq::empty()
    };
    assert(steps@ =~= start + s1);
    if config.bandwidth.is_some() {
        if !support.bandwidth {
            return Some(string_from("WaveForms runtime does not support analog bandwidth"));
        }
        push_step(steps, AnalogStep::SetBandwidth);
    }
    let ghost s2 = s1 + if config.bandwidth is Some {
        seq![AnalogStep::SetBandwidth]
    } else {
        Seq::empty()
    };
    assert(steps@ =~= start + s2);
    if config.impedance.is_some() {
        if !support.impedance {
            return Some(string_from("WaveForms runtime does not support analog impedance"));
        }
        push_step(steps, AnalogStep::SetImpedance);
    }
    let ghost s3 = s2 + if config.impedance is Some {
        seq![AnalogStep::SetImpedance]
    } else {
        Seq::empty()
    };
    assert(steps@ =~= start + s3);
    match config.coupling {
        Some(v) => {
            if !support.coupling {
                return Some(string_from("WaveForms runtime does not support analog coupling"));
            }
            push_step(steps, AnalogStep::SetCoupling(v));
        },
        None => {},
    }
    assert(steps@ =~= start + (s3 + match config.coupling {
        Some(v) => seq![AnalogStep::SetCoupling(v)],
        None => Seq::<AnalogStep>::empty(),
    }));
    None
}

fn append_trigger_steps(steps: &mut Vec<AnalogStep>, trigger: &Option<TriggerSettings>)
    ensures
        final(steps)@ == old(steps)@ + trigger_steps(*trigger),
{
    let ghost start = steps@;
    match trigger {
        Some(t) => {
            if t.enabled {
                push_step(steps, AnalogStep::TriggerSource(t.source));
                push_step(steps, AnalogStep::TriggerTypeEdge);
                if t.source == TRIGSRC_DETECTOR_ANALOG_IN {
                    push_step(steps, AnalogStep::TriggerChannel(t.channel));
                }
                push_step(steps, AnalogStep::TriggerLevel);
                push_step(steps, AnalogStep::TriggerCondition(t.slope));
                push_step(steps, AnalogStep::TriggerAutoTimeout);
            } else {
                push_step(steps, AnalogStep::TriggerSource(TRIGSRC_NONE));
            }
        },
        None => {
            push_step(steps, AnalogStep::TriggerSource(TRIGSRC_NONE));
        },
    }
    assert(steps@ =~= start + trigger_steps(*trigger));
}

fn append_settings_steps(
    steps: &mut Vec<AnalogStep>,
    config: &AnalogSettings,
    support: &OptionalSetters,
) -> (r: Option<String>)
    ensures
        final(steps)@ == old(steps)@ + settings_steps(*config, *support).0,
        match settings_steps(*config, *support).1 {
            Some(m) => r matches Some(e) && e@ == m,
            None => r is None,
        },
{
    let ghost start = steps@;
    push_step(steps, AnalogStep::SetRange);
    push_step(steps, AnalogStep::SetOffset);
    push_step(steps, AnalogStep::SetFrequency);
    push_step(steps, AnalogStep::SetBufferSize(config.buffer_size));
    push_step(steps, AnalogStep::SetAcquisitionMode(config.acquisition_mode));
    push_step(steps, AnalogStep::SetFilter(config.filter));
    let ghost base = seq![
        AnalogStep::SetRange,
        AnalogStep::SetOffset,
        AnalogStep::SetFrequency,
        AnalogStep::SetBufferSize(config.buffer_size),
        AnalogStep::SetAcquisitionMode(config.acquisition_mode),
        AnalogStep::SetFilter(config.filter),
    ];
    assert(steps@ =~= start + base);
    let failure = append_optional_steps(steps, config, support);
    let ghost optional = optional_steps(*config, *support).0;
    assert(steps@ =~= start + (base + optional));
    match failure {
        Some(m) => {
            return Some(m);
        },
        None => {},
    }
    push_step(steps, AnalogStep::SetRecordLength);
    append_trigger_steps(steps, &config.trigger);
    push_step(steps, AnalogStep::Configure);
    assert(steps@ =~= start + (base + optional + seq![AnalogStep::SetRecordLength]
        + trigger_steps(config.trigger) + seq![AnalogStep::Configure]));
    None
}

// ---------------------------------------------------------------------------
// What the calls carry
// ---------------------------------------------------------------------------

/// Whether a call carries what the configuration says: a channel is enabled
/// exactly when the configuration lists it; the buffer size, acquisition
/// mode, filter and coupling are the configuration's; an enabled trigger's
/// source, channel and slope are its own, and without an enabled trigger the
/// source is none.
pub open spec fn step_agrees(c: AnalogSettings, step: AnalogStep) -> bool {
    match step {
        AnalogStep::EnableChannel(ch, on) => on == c.channels@.contains(ch),
        AnalogStep::SetBufferSize(b) => b == c.buffer_size,
        AnalogStep::SetAcquisitionMode(m) => m == c.acquisition_mode,
        AnalogStep::SetFilter(f) => f == c.filter,
        AnalogStep::SetCoupling(v) => c.coupling == Some(v),
        AnalogStep::TriggerSource(source) => match c.trigger {
            Some(t) => if t.enabled {
                source == t.source
            } else {
                source == TRIGSRC_NONE
            },
            None => source == TRIGSRC_NONE,
        },
        AnalogStep::TriggerChannel(ch) => c.trigger matches Some(t) && t.enabled && ch == t.channel,
        AnalogStep::TriggerCondition(slope) => c.trigger matches Some(t) && t.enabled && slope
            == t.slope,
        _ => true,
    }
}

pub open spec fn all_agree(c: AnalogSettings, steps: Seq<AnalogStep>) -> bool {
    forall|i: int| 0 <= i < steps.len() ==> step_agrees(c, #[trigger] steps[i])
}

proof fn lemma_all_agree_concat(c: AnalogSettings, a: Seq<AnalogStep>, b: Seq<AnalogStep>)
    requires
        all_agree(c, a),
        all_agree(c, b),
    ensures
        all_agree(c, a + b),
{
    assert forall|i: int| 0 <= i < (a + b).len() implies step_agrees(c, #[trigger] (a + b)[i]) by {
        if i < a.len() {
            assert((a + b)[i] == a[i]);
        } else {
            assert((a + b)[i] == b[i - a.len()]);
        }
    }
}

/// The calls of a plan carry the configuration's settings, and once the
/// channels are known to exist the plan sets the buffer size, acquisition
/// mode and filter that the configuration gives.
pub proof fn lemma_plan_carries_settings(
    c: AnalogSettings,
    channel_count: i32,
    support: OptionalSetters,
)
    ensures
        all_agree(c, analog_plan_spec(c, channel_count, support).0),
        first_unavailable(c.channels@, channel_count) is None ==> {
            let steps = analog_plan_spec(c, channel_count, support).0;
            &&& steps.contains(AnalogStep::SetBufferSize(c.buffer_size))
            &&& steps.contains(AnalogStep::SetAcquisitionMode(c.acquisition_mode))
            &&& steps.contains(AnalogStep::SetFilter(c.filter))
        },
{
    let en = enable_steps(c.channels@, channel_count);
    let head = seq![AnalogStep::AutoConfigureOff] + en;
    assert(all_agree(c, seq![AnalogStep::AutoConfigureOff]));
    assert(all_agree(c, en));
    lemma_all_agree_concat(c, seq![AnalogStep::AutoConfigureOff], en);
    let base = seq![
        AnalogStep::SetRange,
        AnalogStep::SetOffset,
        AnalogStep::SetFrequency,
        AnalogStep::SetBufferSize(c.buffer_size),
        AnalogStep::SetAcquisitionMode(c.acquisition_mode),
        AnalogStep::SetFilter(c.filter),
    ];
    assert(all_agree(c, base));
    let (optional, failure) = optional_steps(c, support);
    let s1: Seq<AnalogStep> = if c.attenuation is Some {
        seq![AnalogStep::SetAttenuation]
    } else {
        Seq::empty()
    };
    let s2: Seq<AnalogStep> = if c.bandwidth is Some {
        seq![AnalogStep::SetBandwidth]
    } else {
        Seq::empty()
    };
    let s3: Seq<AnalogStep> = if c.impedance is Some {
        seq![AnalogStep::SetImpedance]
    } else {
        Seq::empty()
    };
    let s4: Seq<AnalogStep> = match c.coupling {
        Some(v) => seq![AnalogStep::SetCoupling(v)],
        None => Seq::empty(),
    };
    assert(all_agree(c, s1));
    assert(all_agree(c, s2));
    assert(all_agree(c, s3));
    assert(all_agree(c, s4));
    assert(all_agree(c, Seq::<AnalogStep>::empty()));
    lemma_all_agree_concat(c, s1, s2);
    lemma_all_agree_concat(c, s1 + s2, s3);
    lemma_all_agree_concat(c, s1 + s2 + s3, s4);
    assert(all_agree(c, optional));
    let tr = trigger_steps(c.trigger);
    assert(all_agree(c, tr)) by {
        match c.trigger {
            Some(t) => if t.enabled {
                let x = seq![AnalogStep::TriggerSource(t.source), AnalogStep::TriggerTypeEdge];
                let y: Seq<AnalogStep> = if t.source == TRIGSRC_DETECTOR_ANALOG_IN {
                    seq![AnalogStep::TriggerChannel(t.channel)]
                } else {
                    Seq::empty()
                };
                let zz = seq![
                    AnalogStep::TriggerLevel,
                    AnalogStep::TriggerCondition(t.slope),
                    AnalogStep::TriggerAutoTimeout,
                ];
                assert(all_agree(c, x));
                assert(all_agree(c, y));
                assert(all_agree(c, zz));
                lemma_all_agree_concat(c, x, y);
                lemma_all_agree_concat(c, x + y, zz);
            } else {
            },
            None => {},
        }
    }
    let tail = seq![AnalogStep::SetRecordLength];
    let fin = seq![AnalogStep::Configure];
    assert(all_agree(c, tail));
    assert(all_agree(c, fin));
    lemma_all_agree_concat(c, base, optional);
    lemma_all_agree_concat(c, base + optional, tail);
    lemma_all_agree_concat(c, base + optional + tail, tr);
    lemma_all_agree_concat(c, base + optional + tail + tr, fin);
    let rest = settings_steps(c, support).0;
    assert(all_agree(c, rest));
    lemma_all_agree_concat(c, head, rest);
    if first_unavailable(c.channels@, channel_count) is None {
        let steps = analog_plan_spec(c, channel_count, support).0;
        assert(steps == head + rest);
        let k = head.len() as int;
        assert(rest.len() >= 6);
        assert(steps[k + 3] == rest[3]);
        assert(steps[k + 4] == rest[4]);
        assert(steps[k + 5] == rest[5]);
        match failure {
            Some(m) => {
                assert(rest == base + optional);
            },
            None => {
                assert(rest == base + optional + tail + tr + fin);
            },
        }
        assert(rest[3] == AnalogStep::SetBufferSize(c.buffer_size));
        assert(rest[4] == AnalogStep::SetAcquisitionMode(c.acquisition_mode));
        assert(rest[5] == AnalogStep::SetFilter(c.filter));
    }
}

} // verus!
