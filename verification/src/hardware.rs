//! Hardware items (sensors and controls) and the bridge that reads and drives them.
use vstd::prelude::*;
use crate::text::concat;

verus! {

/// A reading or a setting: a temperature, a fan speed or a control percentage.
pub type Value = i32;

/// An error reported by a hardware bridge, with the message of the platform layer.
#[derive(Debug)]
pub enum HardwareError {
    Linux(String),
    Windows(String),
}

/// Access to the descriptive fields of a hardware item.
pub trait HItem {
    fn name(&self) -> &String;
    fn id(&self) -> &String;
    fn info(&self) -> &String;
}

/// A sensor (temperature or fan speed) exposed by the hardware.
pub struct HSensor {
    pub name: String,
    pub hardware_id: String,
    pub info: String,
    pub internal_index: usize,
}

/// A control (a pwm output) exposed by the hardware.
pub struct HControl {
    pub name: String,
    pub hardware_id: String,
    pub info: String,
    pub internal_index: usize,
}

impl HItem for HSensor {
    fn name(&self) -> (r: &String)
        ensures
            r == &self.name,
    {
        &self.name
    }

    fn id(&self) -> (r: &String)
        ensures
            r == &self.hardware_id,
    {
        &self.hardware_id
    }

    fn info(&self) -> (r: &String)
        ensures
            r == &self.info,
    {
        &self.info
    }
}

impl HItem for HControl {
    fn name(&self) -> (r: &String)
        ensures
            r == &self.name,
    {
        &self.name
    }

    fn id(&self) -> (r: &String)
        ensures
            r == &self.hardware_id,
    {
        &self.hardware_id
    }

    fn info(&self) -> (r: &String)
        ensures
            r == &self.info,
    {
        &self.info
    }
}

impl HSensor {
    /// A copy of this sensor, field for field.
    pub fn copy(&self) -> (r: HSensor)
        ensures
            r == *self,
    {
        HSensor {
            name: self.name.clone(),
            hardware_id: self.hardware_id.clone(),
            info: self.info.clone(),
            internal_index: self.internal_index,
        }
    }

    /// Two sensors are the same item when they share the internal index.
    pub fn same_item(&self, other: &HSensor) -> (r: bool)
        ensures
            r == (self.internal_index == other.internal_index),
    {
        self.internal_index == other.internal_index
    }
}

impl HControl {
    /// A copy of this control, field for field.
    pub fn copy(&self) -> (r: HControl)
        ensures
            r == *self,
    {
        HControl {
            name: self.name.clone(),
            hardware_id: self.hardware_id.clone(),
            info: self.info.clone(),
            internal_index: self.internal_index,
        }
    }

    /// Two controls are the same item when they share the internal index.
    pub fn same_item(&self, other: &HControl) -> (r: bool)
        ensures
            r == (self.internal_index == other.internal_index),
    {
        self.internal_index == other.internal_index
    }
}

/// Every sensor and control that a bridge exposes.
pub struct Hardware {
    pub controls: Vec<HControl>,
    pub fans: Vec<HSensor>,
    pub temps: Vec<HSensor>,
}

impl Hardware {
    /// Hardware with no item.
    pub fn empty() -> (r: Hardware)
        ensures
            r.controls@.len() == 0,
            r.fans@.len() == 0,
            r.temps@.len() == 0,
    {
        Hardware { controls: Vec::new(), fans: Vec::new(), temps: Vec::new() }
    }
}

/// The first sensor of `items` with the hardware identifier `id`.
pub open spec fn find_sensor(items: Seq<HSensor>, id: Seq<char>) -> Option<HSensor>
    decreases items.len(),
{
    if items.len() == 0 {
        None
    } else if items[0].hardware_id@ == id {
        Some(items[0])
    } else {
        find_sensor(items.drop_first(), id)
    }
}

/// The first control of `items` with the hardware identifier `id`.
pub open spec fn find_control(items: Seq<HControl>, id: Seq<char>) -> Option<HControl>
    decreases items.len(),
{
    if items.len() == 0 {
        None
    } else if items[0].hardware_id@ == id {
        Some(items[0])
    } else {
        find_control(items.drop_first(), id)
    }
}

/// A copy of the first sensor of `items` with the hardware identifier `id`.
pub fn sensor_by_id(items: &Vec<HSensor>, id: &String) -> (r: Option<HSensor>)
    ensures
        r == find_sensor(items@, id@),
{
    let mut i: usize = 0;
    assert(items@.subrange(0, items@.len() as int) =~= items@);
    while i < items.len()
        invariant
            i <= items@.len(),
            find_sensor(items@.subrange(i as int, items@.len() as int), id@) == find_sensor(items@, id@),
        decreases items@.len() - i,
    {
        let ghost rest = items@.subrange(i as int, items@.len() as int);
        assert(rest.drop_first() =~= items@.subrange(i + 1, items@.len() as int));
        if items[i].hardware_id == *id {
            return Some(items[i].copy());
        }
        i = i + 1;
    }
    None
}

/// A copy of the first control of `items` with the hardware identifier `id`.
pub fn control_by_id(items: &Vec<HControl>, id: &String) -> (r: Option<HControl>)
    ensures
        r == find_control(items@, id@),
{
    let mut i: usize = 0;
    assert(items@.subrange(0, items@.len() as int) =~= items@);
    while i < items.len()
        invariant
            i <= items@.len(),
            find_control(items@.subrange(i as int, items@.len() as int), id@) == find_control(items@, id@),
        decreases items@.len() - i,
    {
        let ghost rest = items@.subrange(i as int, items@.len() as int);
        assert(rest.drop_first() =~= items@.subrange(i + 1, items@.len() as int));
        if items[i].hardware_id == *id {
            return Some(items[i].copy());
        }
        i = i + 1;
    }
    None
}

/// The name and the identifier that the Linux bridge gives a sensor or a
/// pwm output: `label chip` and `label-chip-sub_feature`.
pub fn sensor_names(label: &str, chip_name: &str, sub_feature_name: &str) -> (r: (String, String))
    ensures
        r.0@ == label@ + " "@ + chip_name@,
        r.1@ == label@ + "-"@ + chip_name@ + "-"@ + sub_feature_name@,
{
    let name = concat(concat(label, " ").as_str(), chip_name);
    let id = concat(concat(concat(concat(label, "-").as_str(), chip_name).as_str(), "-").as_str(), sub_feature_name);
    (name, id)
}

/// The description that the Linux bridge gives a sensor or a pwm output, one
/// line per field.
pub fn sensor_info(chip_path: &str, chip_name: &str, bus: &str, label: &str, feature: &str) -> (r: String)
    ensures
        r@ == "chip path: "@ + chip_path@ + "\nchip name: "@ + chip_name@ + "\nbus: "@ + bus@ + "\nlabel: "@
            + label@ + "\nfeature: "@ + feature@,
{
    let mut r = concat("chip path: ", chip_path);
    r = concat(r.as_str(), "\nchip name: ");
    r = concat(r.as_str(), chip_name);
    r = concat(r.as_str(), "\nbus: ");
    r = concat(r.as_str(), bus);
    r = concat(r.as_str(), "\nlabel: ");
    r = concat(r.as_str(), label);
    r = concat(r.as_str(), "\nfeature: ");
    r = concat(r.as_str(), feature);
    r
}

/// How a control is driven.
#[derive(PartialEq, Eq, Structural, Debug)]
pub enum Mode {
    Auto,
    Manual,
    Specific(Value),
}

/// A call made on a bridge, with the bridge's answer.
pub enum BridgeCall {
    ReadSensor(HSensor, Result<Value, HardwareError>),
    ReadControl(HControl, Result<Value, HardwareError>),
    WriteValue(HControl, Value, Result<(), HardwareError>),
    WriteMode(HControl, Mode, Result<(), HardwareError>),
    Refresh(Result<(), HardwareError>),
}

/// `after` is `before` followed by the calls made since.
pub open spec fn extends(before: Seq<BridgeCall>, after: Seq<BridgeCall>) -> bool {
    before.len() <= after.len() && after.subrange(0, before.len() as int) == before
}

/// The calls made from `before` to `after`.
pub open spec fn made_calls(before: Seq<BridgeCall>, after: Seq<BridgeCall>) -> Seq<BridgeCall> {
    after.subrange(before.len() as int, after.len() as int)
}

/// One call more extends the calls, and is all that was made since.
pub proof fn lemma_one_call(before: Seq<BridgeCall>, c: BridgeCall)
    ensures
        extends(before, before.push(c)),
        made_calls(before, before.push(c)) == seq![c],
{
    assert(before.push(c).subrange(0, before.len() as int) =~= before);
    assert(made_calls(before, before.push(c)) =~= seq![c]);
}

/// Two calls more extend the calls, and are all that was made since.
pub proof fn lemma_two_calls(before: Seq<BridgeCall>, c1: BridgeCall, c2: BridgeCall)
    ensures
        extends(before, before.push(c1).push(c2)),
        made_calls(before, before.push(c1).push(c2)) == seq![c1, c2],
{
    assert(before.push(c1).push(c2).subrange(0, before.len() as int) =~= before);
    assert(made_calls(before, before.push(c1).push(c2)) =~= seq![c1, c2]);
}

/// No call extends the calls, with nothing made.
pub proof fn lemma_no_call(before: Seq<BridgeCall>)
    ensures
        extends(before, before),
        made_calls(before, before) == Seq::<BridgeCall>::empty(),
{
    assert(before.subrange(0, before.len() as int) =~= before);
    assert(made_calls(before, before) =~= Seq::<BridgeCall>::empty());
}

/// A bridge to the machine's sensors and controls. Nothing is promised of what
/// the machine answers: the logic above it holds for every answer. Each call
/// on a sensor or a control is recorded, with its answer, in `calls`.
pub trait HardwareBridge {
    /// The calls made on this bridge so far, each with its answer.
    spec fn calls(&self) -> Seq<BridgeCall>;

    /// Connects to the machine.
    fn new() -> Result<Self, HardwareError> where Self: Sized;

    fn hardware(&self) -> &Hardware;

    fn get_sensor_value(&mut self, sensor: &HSensor) -> (r: Result<Value, HardwareError>)
        ensures
            final(self).calls() == old(self).calls().push(BridgeCall::ReadSensor(*sensor, r)),
    ;

    fn get_control_value(&mut self, control: &HControl) -> (r: Result<Value, HardwareError>)
        ensures
            final(self).calls() == old(self).calls().push(BridgeCall::ReadControl(*control, r)),
    ;

    fn set_value(&mut self, control: &HControl, value: Value) -> (r: Result<(), HardwareError>)
        ensures
            final(self).calls() == old(self).calls().push(BridgeCall::WriteValue(*control, value, r)),
    ;

    fn set_mode(&mut self, control: &HControl, mode: &Mode) -> (r: Result<(), HardwareError>)
        ensures
            final(self).calls() == old(self).calls().push(BridgeCall::WriteMode(*control, *mode, r)),
    ;

    /// Refreshes every sensor at once, on the platforms that read them in one
    /// go; elsewhere there is nothing to do, and it succeeds. A refresh is
    /// recorded, unless it does nothing.
    fn update(&mut self) -> (r: Result<(), HardwareError>)
        ensures
            final(self).calls() == old(self).calls().push(BridgeCall::Refresh(r)) || (r is Ok
                && final(self).calls() == old(self).calls()),
        default_ensures
            r is Ok,
            final(self).calls() == old(self).calls(),
    {
        Ok(())
    }

    /// Releases the platform resources; where there are none, it succeeds.
    fn shutdown(&mut self) -> (r: Result<(), HardwareError>)
        default_ensures
            r is Ok,
    {
        Ok(())
    }
}

impl Mode {
    /// A copy of this mode.
    pub fn copy(&self) -> (r: Mode)
        ensures
            r == *self,
    {
        match self {
            Mode::Auto => Mode::Auto,
            Mode::Manual => Mode::Manual,
            Mode::Specific(v) => Mode::Specific(*v),
        }
    }
}

/// A copy of an optional sensor.
pub fn copy_sensor(o: &Option<HSensor>) -> (r: Option<HSensor>)
    ensures
        r == *o,
{
    match o {
        Some(h) => Some(h.copy()),
        None => None,
    }
}

} // verus!
