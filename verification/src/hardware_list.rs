//! The hardware as a file lists it: names only, and the kind of each item.
use vstd::prelude::*;

verus! {

/// The items of the hardware, by kind.
pub struct Hardware {
    pub controls: Vec<Control>,
    pub temps: Vec<Temp>,
    pub fans: Vec<Fan>,
}

pub struct Control {
    pub name: String,
}

pub struct Fan {
    pub name: String,
}

/// A temperature, identified by its name.
pub struct Temp {
    pub name: String,
    pub hardware_id: String,
    pub hardware_type: HardwareType,
}

/// The kinds of hardware item.
#[derive(Clone, Copy, PartialEq, Eq, Structural)]
pub enum HardwareType {
    Temp,
    Fan,
    Control,
}

impl Temp {
    /// A temperature named `name`, which is also its identifier; the given
    /// identifier is not used.
    pub fn new(name: String, hardware_id: Option<u32>) -> (r: Temp)
        ensures
            r.name == name,
            r.hardware_id == name,
            r.hardware_type == HardwareType::Temp,
    {
        Temp { name: name.clone(), hardware_id: name, hardware_type: HardwareType::Temp }
    }
}

} // verus!
