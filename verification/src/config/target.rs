//! A behavior with two levels: idle until a load temperature, then load until
//! the idle temperature comes back.
use vstd::prelude::*;
use crate::text::clone_option;
use crate::app_graph::AppGraph;
use crate::hardware::Hardware;
use crate::node::{node_made, IsValid, Node, NodeType, ToNode};
use crate::hardware::Value;
use crate::update::UpdateError;

verus! {

/// Idle speed once the temperature has fallen to the idle temperature, load
/// speed once it has risen to the load temperature.
pub struct Target {
    pub name: String,
    pub idle_temp: u8,
    pub idle_speed: u8,
    pub load_temp: u8,
    pub load_speed: u8,
    pub input: Option<String>,
    pub idle_has_been_reatch: bool,
}

/// The speed for `value`, and whether the idle state holds afterwards.
pub open spec fn target_step(t: Target, value: Value) -> (int, bool) {
    if t.idle_has_been_reatch {
        if value < t.load_temp {
            (t.idle_speed as int, true)
        } else {
            (t.load_speed as int, false)
        }
    } else if value > t.idle_temp {
        (t.load_speed as int, false)
    } else {
        (t.idle_speed as int, true)
    }
}

/// The target as it stands after a step for `value`: its idle state is the
/// one that the step leaves.
pub open spec fn target_after(t: Target, value: Value) -> Target {
    Target { idle_has_been_reatch: target_step(t, value).1, ..t }
}

/// From the idle state, a temperature at or above the load temperature gives
/// the load speed and leaves the idle state; from then on, every temperature
/// above the idle temperature gives the load speed again and keeps the
/// target out of the idle state.
pub proof fn lemma_load_holds_until_idle(t: Target, v1: Value, v2: Value)
    requires
        t.idle_has_been_reatch,
        v1 >= t.load_temp,
        v2 > t.idle_temp,
    ensures
        target_step(t, v1).0 == t.load_speed,
        !target_after(t, v1).idle_has_been_reatch,
        target_step(target_after(t, v1), v2).0 == t.load_speed,
        !target_after(target_after(t, v1), v2).idle_has_been_reatch,
{
}

/// Out of the idle state, the load speed holds while the temperature stays
/// above the idle temperature; at or below it the idle speed comes back and
/// the idle state with it. In the idle state, the idle speed holds while the
/// temperature stays below the load temperature.
pub proof fn lemma_target_hysteresis(t: Target, v: Value)
    ensures
        !t.idle_has_been_reatch && v > t.idle_temp ==> target_step(t, v).0 == t.load_speed
            && !target_after(t, v).idle_has_been_reatch,
        !t.idle_has_been_reatch && v <= t.idle_temp ==> target_step(t, v).0 == t.idle_speed
            && target_after(t, v).idle_has_been_reatch,
        t.idle_has_been_reatch && v < t.load_temp ==> target_step(t, v).0 == t.idle_speed
            && target_after(t, v).idle_has_been_reatch,
        t.idle_has_been_reatch && v >= t.load_temp ==> target_step(t, v).0 == t.load_speed
            && !target_after(t, v).idle_has_been_reatch,
{
}

impl Target {
    /// Idle at 10% below 40°, load at 100% from 70°.
    pub fn default() -> (r: Self)
        ensures
            r.name@ == Seq::<char>::empty(),
            r.idle_temp == 40 && r.idle_speed == 10 && r.load_temp == 70 && r.load_speed == 100,
            r.input.is_none(),
            !r.idle_has_been_reatch,
    {
        Self {
            name: String::new(),
            idle_temp: 40,
            idle_speed: 10,
            load_temp: 70,
            load_speed: 100,
            input: None,
            idle_has_been_reatch: false,
        }
    }

    /// The speed for the input temperature `value`; records whether the idle
    /// state has been reached.
    pub fn get_value(&mut self, value: Value) -> (r: Result<Value, UpdateError>)
        ensures
            r matches Ok(v) && v == target_step(*old(self), value).0,
            final(self).idle_has_been_reatch == target_step(*old(self), value).1,
            final(self).name == old(self).name,
            final(self).input == old(self).input,
            final(self).idle_temp == old(self).idle_temp,
            final(self).idle_speed == old(self).idle_speed,
            final(self).load_temp == old(self).load_temp,
            final(self).load_speed == old(self).load_speed,
    {
        if self.idle_has_been_reatch {
            if value < self.load_temp as Value {
                return Ok(self.idle_speed as Value);
            }
            self.idle_has_been_reatch = false;
            return Ok(self.load_speed as Value);
        }
        if value > self.idle_temp as Value {
            return Ok(self.load_speed as Value);
        }
        self.idle_has_been_reatch = true;
        Ok(self.idle_speed as Value)
    }

    /// Replaces each setting above 100 with its default, as a configuration is loaded.
    pub fn fix_limits(&mut self)
        ensures
            *final(self) == target_fixed(*old(self)),
    {
        if self.idle_temp > 100 {
            self.idle_temp = 40;
        }
        if self.idle_speed > 100 {
            self.idle_speed = 10;
        }
        if self.load_temp > 100 {
            self.load_temp = 70;
        }
        if self.load_speed > 100 {
            self.load_speed = 100;
        }
    }
}

impl IsValid for Target {
    /// A target can run when it has an input.
    fn is_valid(&self) -> (r: bool)
        ensures
            r == self.input.is_some(),
    {
        self.input.is_some()
    }
}

/// The target that a configuration gives once each setting above 100 is
/// replaced with its default.
pub open spec fn target_fixed(t: Target) -> Target {
    Target {
        idle_temp: if t.idle_temp > 100 { 40u8 } else { t.idle_temp },
        idle_speed: if t.idle_speed > 100 { 10u8 } else { t.idle_speed },
        load_temp: if t.load_temp > 100 { 70u8 } else { t.load_temp },
        load_speed: if t.load_speed > 100 { 100u8 } else { t.load_speed },
        ..t
    }
}

impl ToNode for Target {
    fn to_node(self, app_graph: &mut AppGraph, hardware: &Hardware) -> (r: Node)
        ensures
            node_made(*old(app_graph), *final(app_graph), NodeType::Target(target_fixed(self)), r),
    {
        let mut item = self;
        item.fix_limits();
        Node::new(NodeType::Target(item), app_graph)
    }
}

impl Target {
    /// A copy of this behavior, its idle state included.
    pub fn copy(&self) -> (r: Self)
        ensures
            r == *self,
    {
        Target {
            name: self.name.clone(),
            idle_temp: self.idle_temp,
            idle_speed: self.idle_speed,
            load_temp: self.load_temp,
            load_speed: self.load_speed,
            input: clone_option(&self.input),
            idle_has_been_reatch: self.idle_has_been_reatch,
        }
    }
}

} // verus!
