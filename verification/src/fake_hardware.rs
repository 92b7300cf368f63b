//! A bridge to made-up hardware, for running without sensors: two
//! temperatures, a fan and two controls, read at random.
use vstd::prelude::*;
use rand::Rng;
use crate::hardware::{BridgeCall, HControl, HSensor, Hardware, HardwareBridge, HardwareError, Mode, Value};

verus! {

/// `rand::thread_rng().gen_range(30..80)`: a reading drawn at random from 30
/// to 79, as the documentation of `gen_range` gives for a half-open range.
#[verifier::external_body]
fn random_reading() -> (r: Value)
    ensures
        30 <= r < 80,
{
    rand::thread_rng().gen_range(30..80)
}

/// The made-up hardware and its readings.
pub struct FakeHardwareBridge {
    pub hardware: Hardware,
    /// The calls made on the bridge so far.
    pub log: Ghost<Seq<BridgeCall>>,
}

fn sensor(name: &str, index: usize) -> (r: HSensor)
    ensures
        r.name@ == name@,
        r.hardware_id@ == name@,
        r.info@ == Seq::<char>::empty(),
        r.internal_index == index,
{
    HSensor {
        name: String::from_str(name),
        hardware_id: String::from_str(name),
        info: String::new(),
        internal_index: index,
    }
}

fn control(name: &str, index: usize) -> (r: HControl)
    ensures
        r.name@ == name@,
        r.hardware_id@ == name@,
        r.info@ == Seq::<char>::empty(),
        r.internal_index == index,
{
    HControl {
        name: String::from_str(name),
        hardware_id: String::from_str(name),
        info: String::new(),
        internal_index: index,
    }
}

impl HardwareBridge for FakeHardwareBridge {
    open spec fn calls(&self) -> Seq<BridgeCall> {
        self.log@
    }

    /// The temperatures `temp1` and `temp2` (index 0), the fan `fan1`
    /// (index 1) and the controls `control1` and `control2` (index 2).
    fn new() -> (r: Result<Self, HardwareError>)
        ensures
            r matches Ok(b) && b.hardware.temps@.len() == 2 && b.hardware.fans@.len() == 1
                && b.hardware.controls@.len() == 2 && b.hardware.temps@[0].name@ == "temp1"@
                && b.hardware.temps@[1].name@ == "temp2"@ && b.hardware.fans@[0].name@ == "fan1"@
                && b.hardware.controls@[0].name@ == "control1"@ && b.hardware.controls@[1].name@
                == "control2"@ && b.hardware.temps@[0].internal_index == 0
                && b.hardware.temps@[1].internal_index == 0 && b.hardware.fans@[0].internal_index == 1
                && b.hardware.controls@[0].internal_index == 2 && b.hardware.controls@[1].internal_index == 2,
    {
        let mut hardware = Hardware::empty();
        hardware.temps.push(sensor("temp1", 0));
        hardware.temps.push(sensor("temp2", 0));
        hardware.fans.push(sensor("fan1", 1));
        hardware.controls.push(control("control1", 2));
        hardware.controls.push(control("control2", 2));
        Ok(Self { hardware, log: Ghost(Seq::empty()) })
    }

    fn hardware(&self) -> (r: &Hardware)
        ensures
            *r == self.hardware,
    {
        &self.hardware
    }

    /// A reading from 30 to 79, whatever the sensor.
    fn get_sensor_value(&mut self, sensor: &HSensor) -> (r: Result<Value, HardwareError>)
        ensures
            r matches Ok(v) && 30 <= v < 80,
            final(self).hardware == old(self).hardware,
    {
        let r = Ok(random_reading());
        self.log = Ghost(self.log@.push(BridgeCall::ReadSensor(*sensor, r)));
        r
    }

    /// A reading from 30 to 79, whatever the control.
    fn get_control_value(&mut self, control: &HControl) -> (r: Result<Value, HardwareError>)
        ensures
            r matches Ok(v) && 30 <= v < 80,
            final(self).hardware == old(self).hardware,
    {
        let r = Ok(random_reading());
        self.log = Ghost(self.log@.push(BridgeCall::ReadControl(*control, r)));
        r
    }

    /// Accepts any value.
    fn set_value(&mut self, control: &HControl, value: Value) -> (r: Result<(), HardwareError>)
        ensures
            r is Ok,
            final(self).hardware == old(self).hardware,
    {
        let r = Ok(());
        self.log = Ghost(self.log@.push(BridgeCall::WriteValue(*control, value, r)));
        r
    }

    /// Accepts any mode.
    fn set_mode(&mut self, control: &HControl, mode: &Mode) -> (r: Result<(), HardwareError>)
        ensures
            r is Ok,
            final(self).hardware == old(self).hardware,
    {
        let r = Ok(());
        self.log = Ghost(self.log@.push(BridgeCall::WriteMode(*control, *mode, r)));
        r
    }
}

} // verus!
