//! Analog Logic: the logic of a two-channel oscilloscope and protocol
//! decoder for the Analog Discovery 3.
use vstd::prelude::*;

pub mod text;
pub mod annotation;
pub mod can;
pub mod imu;
pub mod trace;
pub mod decoder;
pub mod digitize;
pub mod stream;
pub mod device;
pub mod analog;

verus! {

} // verus!
