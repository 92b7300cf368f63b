//! A temperature sensor.
use vstd::prelude::*;
use crate::text::clone_option;
use crate::hardware::copy_sensor;
use crate::app_graph::AppGraph;
use crate::hardware::{find_sensor, sensor_by_id, Hardware};
use crate::node::{node_made, IsValid, Node, NodeType, ToNode};
use crate::hardware::{HSensor, HardwareBridge, Value};
use crate::update::{hardware_result, sensor_read, UpdateError};
use crate::hardware::{extends, made_calls, BridgeCall};

verus! {

/// A temperature sensor, bound to a hardware sensor by its identifier.
pub struct Temp {
    pub name: String,
    pub hardware_id: Option<String>,
    pub temp_h: Option<HSensor>,
}

impl Temp {
    /// A temperature that is bound to nothing.
    pub fn default() -> (r: Self)
        ensures
            r.name@ == Seq::<char>::empty(),
            r.hardware_id.is_none(),
            r.temp_h.is_none(),
    {
        Self { name: String::new(), hardware_id: None, temp_h: None }
    }

    /// Reads the temperature from the bridge; a temperature bound to nothing is invalid.
    pub fn get_value<H: HardwareBridge>(&self, bridge: &mut H) -> (r: Result<Value, UpdateError>)
        ensures
            self.temp_h.is_none() ==> (r matches Err(UpdateError::NodeIsInvalid(n)) && n@ == self.name@)
                && final(bridge).calls() == old(bridge).calls(),
            self.temp_h matches Some(h) ==> extends(old(bridge).calls(), final(bridge).calls()) && sensor_read(
                h,
                made_calls(old(bridge).calls(), final(bridge).calls()),
                r,
            ),
    {
        match &self.temp_h {
            Some(temp_h) => {
                let ghost c0 = bridge.calls();
                let a = bridge.get_sensor_value(temp_h);
                proof {
                    crate::hardware::lemma_one_call(c0, BridgeCall::ReadSensor(*temp_h, a));
                }
                hardware_result(a)
            },
            None => Err(UpdateError::NodeIsInvalid(self.name.clone())),
        }
    }
}

impl IsValid for Temp {
    /// A temperature can be read when it is bound to a hardware sensor.
    fn is_valid(&self) -> (r: bool)
        ensures
            r == (self.hardware_id.is_some() && self.temp_h.is_some()),
    {
        self.hardware_id.is_some() && self.temp_h.is_some()
    }
}

/// The temperature bound to the first sensor of `temps` with its hardware
/// identifier, or, when there is none or no identifier, to nothing.
pub open spec fn temp_bound(t: Temp, temps: Seq<HSensor>) -> Temp {
    match t.hardware_id {
        Some(id) => match find_sensor(temps, id@) {
            Some(h) => Temp { temp_h: Some(h), ..t },
            None => Temp { hardware_id: None, temp_h: None, ..t },
        },
        None => Temp { temp_h: None, ..t },
    }
}

impl ToNode for Temp {
    fn to_node(self, app_graph: &mut AppGraph, hardware: &Hardware) -> (r: Node)
        ensures
            node_made(*old(app_graph), *final(app_graph), NodeType::Temp(temp_bound(self, hardware.temps@)), r),
    {
        let mut item = self;
        let found = match &item.hardware_id {
            Some(id) => Some(sensor_by_id(&hardware.temps, id)),
            None => None,
        };
        match found {
            Some(Some(h)) => {
                item.temp_h = Some(h);
            },
            Some(None) => {
                item.hardware_id = None;
                item.temp_h = None;
            },
            None => {
                item.temp_h = None;
            },
        }
        Node::new(NodeType::Temp(item), app_graph)
    }
}

impl Temp {
    /// A copy of this temperature, field for field.
    pub fn copy(&self) -> (r: Self)
        ensures
            r == *self,
    {
        Temp {
            name: self.name.clone(),
            hardware_id: clone_option(&self.hardware_id),
            temp_h: copy_sensor(&self.temp_h),
        }
    }
}

} // verus!
