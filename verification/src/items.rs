//! The items of a configuration as an earlier file format wrote them, each
//! behavior naming the controls it drives.
use vstd::prelude::*;
use crate::app_graph::AppGraph;
use crate::hardware::Hardware;
use crate::node::Node;

verus! {

pub struct Control {
    pub name: String,
    pub hardware_id: String,
}

pub struct Fan {
    pub name: String,
    pub hardware_id: String,
}

pub struct Temp {
    pub name: String,
    pub hardware_id: String,
}

pub enum CustomTempType {
    Min,
    Max,
    Average,
}

pub struct CustomTemp {
    pub name: String,
    pub kind: CustomTempType,
    pub input: Vec<String>,
}

pub struct Coord {
    pub temp: u8,
    pub percent: u8,
}

pub struct Graph {
    pub name: String,
    pub coords: Vec<Coord>,
    pub input: String,
    pub output: Vec<String>,
}

pub struct Flat {
    pub name: String,
    pub value: i32,
    pub output: Vec<String>,
}

pub struct Linear {
    pub name: String,
    pub min_temp: u8,
    pub min_speed: u8,
    pub max_temp: u8,
    pub max_speed: u8,
    pub input: String,
    pub output: Vec<String>,
}

pub struct Target {
    pub name: String,
    pub idle_temp: u8,
    pub idle_speed: u8,
    pub load_temp: u8,
    pub load_speed: u8,
    pub input: String,
    pub output: Vec<String>,
}

/// Turns an item of that format into a node of the graph.
pub trait IntoNode {
    fn to_node(self, app_graph: &mut AppGraph, hardware: &Hardware) -> Node;
}

} // verus!
