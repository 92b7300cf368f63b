//! A behavior with a constant speed.
use vstd::prelude::*;
use crate::app_graph::AppGraph;
use crate::hardware::Hardware;
use crate::node::{node_made, IsValid, Node, NodeType, ToNode};

verus! {

/// A constant speed, in percent.
pub struct Flat {
    pub name: String,
    pub value: u16,
}

impl Flat {
    /// A constant speed of 50%.
    pub fn default() -> (r: Self)
        ensures
            r.name@ == Seq::<char>::empty(),
            r.value == 50,
    {
        Self { name: String::new(), value: 50 }
    }

    /// Replaces a speed above 100 with 50, as a configuration is loaded.
    pub fn fix_value(&mut self)
        ensures
            final(self).value == (if old(self).value > 100 { 50u16 } else { old(self).value }),
            final(self).name == old(self).name,
    {
        if self.value > 100 {
            self.value = 50;
        }
    }
}

impl IsValid for Flat {
    /// A flat behavior can always run.
    fn is_valid(&self) -> (r: bool)
        ensures
            r,
    {
        true
    }
}

impl ToNode for Flat {
    fn to_node(self, app_graph: &mut AppGraph, hardware: &Hardware) -> (r: Node)
        ensures
            node_made(
                *old(app_graph),
                *final(app_graph),
                NodeType::Flat(Flat { value: if self.value > 100 { 50u16 } else { self.value }, ..self }),
                r,
            ),
    {
        let mut item = self;
        item.fix_value();
        Node::new(NodeType::Flat(item), app_graph)
    }
}

impl Flat {
    /// A copy of this behavior.
    pub fn copy(&self) -> (r: Self)
        ensures
            r == *self,
    {
        Flat { name: self.name.clone(), value: self.value }
    }
}

} // verus!
