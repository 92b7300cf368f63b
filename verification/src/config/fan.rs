//! A fan speed sensor.
use vstd::prelude::*;
use crate::text::clone_option;
use crate::hardware::copy_sensor;
use crate::app_graph::AppGraph;
use crate::hardware::{find_sensor, sensor_by_id, Hardware};
use crate::node::{node_made, IsValid, Node, NodeType, ToNode};
use crate::hardware::{HSensor, HardwareBridge, Value};
use crate::update::{hardware_result, sensor_read, UpdateError};
use crate::hardware::{extends, made_calls, BridgeCall};

verus! {

/// A fan speed sensor, bound to a hardware sensor by its identifier.
pub struct Fan {
    pub name: String,
    pub hardware_id: Option<String>,
    pub fan_h: Option<HSensor>,
}

impl Fan {
    /// A fan that is bound to nothing.
    pub fn default() -> (r: Self)
        ensures
            r.name@ == Seq::<char>::empty(),
            r.hardware_id.is_none(),
            r.fan_h.is_none(),
    {
        Self { name: String::new(), hardware_id: None, fan_h: None }
    }

    /// Reads the speed from the bridge; a fan bound to nothing is invalid.
    pub fn get_value<H: HardwareBridge>(&self, bridge: &mut H) -> (r: Result<Value, UpdateError>)
        ensures
            self.fan_h.is_none() ==> (r matches Err(UpdateError::NodeIsInvalid(n)) && n@ == self.name@)
                && final(bridge).calls() == old(bridge).calls(),
            self.fan_h matches Some(h) ==> extends(old(bridge).calls(), final(bridge).calls()) && sensor_read(
                h,
                made_calls(old(bridge).calls(), final(bridge).calls()),
                r,
            ),
    {
        match &self.fan_h {
            Some(fan_h) => {
                let ghost c0 = bridge.calls();
                let a = bridge.get_sensor_value(fan_h);
                proof {
                    crate::hardware::lemma_one_call(c0, BridgeCall::ReadSensor(*fan_h, a));
                }
                hardware_result(a)
            },
            None => Err(UpdateError::NodeIsInvalid(self.name.clone())),
        }
    }
}

impl IsValid for Fan {
    /// A fan can be read when it is bound to a hardware sensor.
    fn is_valid(&self) -> (r: bool)
        ensures
            r == (self.hardware_id.is_some() && self.fan_h.is_some()),
    {
        self.hardware_id.is_some() && self.fan_h.is_some()
    }
}

/// The fan bound to the first sensor of `fans` with its hardware identifier,
/// or, when there is none, to nothing and with no identifier.
pub open spec fn fan_bound(f: Fan, fans: Seq<HSensor>) -> Fan {
    match f.hardware_id {
        Some(id) => match find_sensor(fans, id@) {
            Some(h) => Fan { fan_h: Some(h), ..f },
            None => Fan { hardware_id: None, fan_h: None, ..f },
        },
        None => f,
    }
}

impl ToNode for Fan {
    fn to_node(self, app_graph: &mut AppGraph, hardware: &Hardware) -> (r: Node)
        ensures
            node_made(*old(app_graph), *final(app_graph), NodeType::Fan(fan_bound(self, hardware.fans@)), r),
    {
        let mut item = self;
        let found = match &item.hardware_id {
            Some(id) => Some(sensor_by_id(&hardware.fans, id)),
            None => None,
        };
        match found {
            Some(Some(h)) => {
                item.fan_h = Some(h);
            },
            Some(None) => {
                item.hardware_id = None;
                item.fan_h = None;
            },
            None => {},
        }
        Node::new(NodeType::Fan(item), app_graph)
    }
}

impl Fan {
    /// A copy of this fan, field for field.
    pub fn copy(&self) -> (r: Self)
        ensures
            r == *self,
    {
        Fan {
            name: self.name.clone(),
            hardware_id: clone_option(&self.hardware_id),
            fan_h: copy_sensor(&self.fan_h),
        }
    }
}

} // verus!
