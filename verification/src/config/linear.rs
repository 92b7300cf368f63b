//! A behavior that maps a temperature to a speed along a straight line.
use vstd::prelude::*;
use crate::text::clone_option;
use crate::app_graph::AppGraph;
use crate::hardware::Hardware;
use crate::node::{node_made, IsValid, Node, NodeType, ToNode};
use crate::hardware::Value;
use crate::update::UpdateError;
use super::affine::{affine_value, affine_at, lemma_affine_between};

verus! {

/// A line from `(min_temp, min_speed)` to `(max_temp, max_speed)`, flat
/// outside that range.
pub struct Linear {
    pub name: String,
    pub min_temp: u8,
    pub min_speed: u8,
    pub max_temp: u8,
    pub max_speed: u8,
    pub input: Option<String>,
}

/// The speed of a line at a temperature: the low speed up to the low
/// temperature, the high speed from the high temperature, the line in between.
pub open spec fn linear_value(l: Linear, value: Value) -> int {
    if value <= l.min_temp {
        l.min_speed as int
    } else if value >= l.max_temp {
        l.max_speed as int
    } else {
        affine_at(l.min_temp as int, l.min_speed as int, l.max_temp as int, l.max_speed as int, value as int)
    }
}

/// The line that a configuration gives once unusable settings are replaced:
/// the default pair replaces a reversed pair, then the default replaces each
/// value above 100.
pub open spec fn linear_fixed(l: Linear) -> Linear {
    let (t0, t1) = if l.max_temp < l.min_temp { (10u8, 70u8) } else { (l.min_temp, l.max_temp) };
    let (s0, s1) = if l.max_speed < l.min_speed { (10u8, 100u8) } else { (l.min_speed, l.max_speed) };
    Linear {
        min_temp: if t0 > 100 { 10u8 } else { t0 },
        max_temp: if t1 > 100 { 70u8 } else { t1 },
        min_speed: if s0 > 100 { 10u8 } else { s0 },
        max_speed: if s1 > 100 { 100u8 } else { s1 },
        ..l
    }
}

/// Loading keeps a line whose temperatures and speeds are each in order and
/// at most 100 exactly as configured; whatever the line, every setting is at
/// most 100 once loaded, and the rest of the line is unchanged.
pub proof fn lemma_linear_fixed(l: Linear)
    ensures
        l.min_temp <= l.max_temp && l.min_speed <= l.max_speed && l.max_temp <= 100 && l.max_speed <= 100
            ==> linear_fixed(l) == l,
        linear_fixed(l).min_temp <= 100 && linear_fixed(l).max_temp <= 100,
        linear_fixed(l).min_speed <= 100 && linear_fixed(l).max_speed <= 100,
        linear_fixed(l).name == l.name && linear_fixed(l).input == l.input,
{
}

/// The speed of a line is its low speed up to its low temperature and its
/// high speed from its high temperature on; in between, on a line whose low
/// temperature is below its high one, it lies between the two speeds.
pub proof fn lemma_linear_value_range(l: Linear, value: Value)
    ensures
        value <= l.min_temp ==> linear_value(l, value) == l.min_speed,
        l.min_temp < value && value >= l.max_temp ==> linear_value(l, value) == l.max_speed,
        l.min_temp < value < l.max_temp && l.min_speed <= l.max_speed ==> l.min_speed <= linear_value(l, value)
            <= l.max_speed,
        l.min_temp < value < l.max_temp && l.max_speed <= l.min_speed ==> l.max_speed <= linear_value(l, value)
            <= l.min_speed,
{
    if l.min_temp < value < l.max_temp {
        lemma_affine_between(l.min_temp as int, l.min_speed as int, l.max_temp as int, l.max_speed as int, value as int);
    }
}

impl Linear {
    /// A line from 10% at 10° to 100% at 70°.
    pub fn default() -> (r: Self)
        ensures
            r.name@ == Seq::<char>::empty(),
            r.min_temp == 10 && r.min_speed == 10 && r.max_temp == 70 && r.max_speed == 100,
            r.input.is_none(),
    {
        Self {
            name: String::new(),
            min_temp: 10,
            min_speed: 10,
            max_temp: 70,
            max_speed: 100,
            input: None,
        }
    }

    /// The speed for the input temperature `value`.
    pub fn get_value(&self, value: Value) -> (r: Result<Value, UpdateError>)
        ensures
            r matches Ok(v) && v == linear_value(*self, value),
    {
        if value <= self.min_temp as Value {
            return Ok(self.min_speed as Value);
        }
        if value >= self.max_temp as Value {
            return Ok(self.max_speed as Value);
        }
        Ok(affine_value(self.min_temp, self.min_speed, self.max_temp, self.max_speed, value))
    }

    /// Replaces unusable settings with the defaults, as a configuration is loaded.
    pub fn fix_limits(&mut self)
        ensures
            *final(self) == linear_fixed(*old(self)),
    {
        if self.max_temp < self.min_temp {
            self.min_temp = 10;
            self.max_temp = 70;
        }
        if self.max_speed < self.min_speed {
            self.min_speed = 10;
            self.max_speed = 100;
        }
        if self.min_temp > 100 {
            self.min_temp = 10;
        }
        if self.min_speed > 100 {
            self.min_speed = 10;
        }
        if self.max_temp > 100 {
            self.max_temp = 70;
        }
        if self.max_speed > 100 {
            self.max_speed = 100;
        }
    }
}

impl IsValid for Linear {
    /// A line can run when it has an input.
    fn is_valid(&self) -> (r: bool)
        ensures
            r == self.input.is_some(),
    {
        self.input.is_some()
    }
}

impl ToNode for Linear {
    fn to_node(self, app_graph: &mut AppGraph, hardware: &Hardware) -> (r: Node)
        ensures
            node_made(*old(app_graph), *final(app_graph), NodeType::Linear(linear_fixed(self)), r),
    {
        let mut item = self;
        item.fix_limits();
        Node::new(NodeType::Linear(item), app_graph)
    }
}

impl Linear {
    /// A copy of this behavior.
    pub fn copy(&self) -> (r: Self)
        ensures
            r == *self,
    {
        Linear {
            name: self.name.clone(),
            min_temp: self.min_temp,
            min_speed: self.min_speed,
            max_temp: self.max_temp,
            max_speed: self.max_speed,
            input: clone_option(&self.input),
        }
    }
}

} // verus!
