//! Typed access to the item of a node, for callers that know its kind.
use vstd::prelude::*;
use crate::app_graph::AppGraph;
use crate::config::control::Control;
use crate::config::custom_temp::CustomTemp;
use crate::config::fan::Fan;
use crate::config::flat::Flat;
use crate::config::linear::Linear;
use crate::config::target::Target;
use crate::config::temp::Temp;
use crate::id::Id;
use crate::node::{Node, NodeType};

verus! {

broadcast use vstd::std_specs::hash::group_hash_axioms;

impl AppGraph {
    /// The Control item of the node `id`, which must be a Control node of the graph.
    pub fn get_control(&self, id: Id) -> (r: &Control)
        requires
            self.nodes@.contains_key(id),
            (self.nodes@[id].node_type is Control),
        ensures
            NodeType::Control(*r) == self.nodes@[id].node_type,
    {
        self.get(&id).to_control()
    }

    /// The CustomTemp item of the node `id`, which must be a CustomTemp node of the graph.
    pub fn get_custom_temp(&self, id: Id) -> (r: &CustomTemp)
        requires
            self.nodes@.contains_key(id),
            (self.nodes@[id].node_type is CustomTemp),
        ensures
            NodeType::CustomTemp(*r) == self.nodes@[id].node_type,
    {
        self.get(&id).to_custom_temp()
    }

    /// The Temp item of the node `id`, which must be a Temp node of the graph.
    pub fn get_temp(&self, id: Id) -> (r: &Temp)
        requires
            self.nodes@.contains_key(id),
            (self.nodes@[id].node_type is Temp),
        ensures
            NodeType::Temp(*r) == self.nodes@[id].node_type,
    {
        self.get(&id).to_temp()
    }

    /// The Fan item of the node `id`, which must be a Fan node of the graph.
    pub fn get_fan(&self, id: Id) -> (r: &Fan)
        requires
            self.nodes@.contains_key(id),
            (self.nodes@[id].node_type is Fan),
        ensures
            NodeType::Fan(*r) == self.nodes@[id].node_type,
    {
        self.get(&id).to_fan()
    }

    /// The Flat item of the node `id`, which must be a Flat node of the graph.
    pub fn get_flat(&self, id: Id) -> (r: &Flat)
        requires
            self.nodes@.contains_key(id),
            (self.nodes@[id].node_type is Flat),
        ensures
            NodeType::Flat(*r) == self.nodes@[id].node_type,
    {
        self.get(&id).to_flat()
    }

    /// The Linear item of the node `id`, which must be a Linear node of the graph.
    pub fn get_linear(&self, id: Id) -> (r: &Linear)
        requires
            self.nodes@.contains_key(id),
            (self.nodes@[id].node_type is Linear),
        ensures
            NodeType::Linear(*r) == self.nodes@[id].node_type,
    {
        self.get(&id).to_linear()
    }

    /// The Target item of the node `id`, which must be a Target node of the graph.
    pub fn get_target(&self, id: Id) -> (r: &Target)
        requires
            self.nodes@.contains_key(id),
            (self.nodes@[id].node_type is Target),
        ensures
            NodeType::Target(*r) == self.nodes@[id].node_type,
    {
        self.get(&id).to_target()
    }

    /// The Control item of the node `id`, which must be a Control node of the graph, to change in place.
    pub fn get_control_mut(&mut self, id: Id) -> (r: &mut Control)
        requires
            old(self).nodes@.contains_key(id),
            (old(self).nodes@[id].node_type is Control),
        ensures
            NodeType::Control(*r) == old(self).nodes@[id].node_type,
            final(self).nodes@ == old(self).nodes@.insert(
                id,
                (Node { node_type: NodeType::Control(*final(r)), ..old(self).nodes@[id] }),
            ),
            final(self).id_generator == old(self).id_generator,
            final(self).root_nodes == old(self).root_nodes,
    {
        self.get_mut(&id).to_control_mut()
    }

    /// The CustomTemp item of the node `id`, which must be a CustomTemp node of the graph, to change in place.
    pub fn get_custom_temp_mut(&mut self, id: Id) -> (r: &mut CustomTemp)
        requires
            old(self).nodes@.contains_key(id),
            (old(self).nodes@[id].node_type is CustomTemp),
        ensures
            NodeType::CustomTemp(*r) == old(self).nodes@[id].node_type,
            final(self).nodes@ == old(self).nodes@.insert(
                id,
                (Node { node_type: NodeType::CustomTemp(*final(r)), ..old(self).nodes@[id] }),
            ),
            final(self).id_generator == old(self).id_generator,
            final(self).root_nodes == old(self).root_nodes,
    {
        self.get_mut(&id).to_custom_temp_mut()
    }

    /// The Temp item of the node `id`, which must be a Temp node of the graph, to change in place.
    pub fn get_temp_mut(&mut self, id: Id) -> (r: &mut Temp)
        requires
            old(self).nodes@.contains_key(id),
            (old(self).nodes@[id].node_type is Temp),
        ensures
            NodeType::Temp(*r) == old(self).nodes@[id].node_type,
            final(self).nodes@ == old(self).nodes@.insert(
                id,
                (Node { node_type: NodeType::Temp(*final(r)), ..old(self).nodes@[id] }),
            ),
            final(self).id_generator == old(self).id_generator,
            final(self).root_nodes == old(self).root_nodes,
    {
        self.get_mut(&id).to_temp_mut()
    }

    /// The Fan item of the node `id`, which must be a Fan node of the graph, to change in place.
    pub fn get_fan_mut(&mut self, id: Id) -> (r: &mut Fan)
        requires
            old(self).nodes@.contains_key(id),
            (old(self).nodes@[id].node_type is Fan),
        ensures
            NodeType::Fan(*r) == old(self).nodes@[id].node_type,
            final(self).nodes@ == old(self).nodes@.insert(
                id,
                (Node { node_type: NodeType::Fan(*final(r)), ..old(self).nodes@[id] }),
            ),
            final(self).id_generator == old(self).id_generator,
            final(self).root_nodes == old(self).root_nodes,
    {
        self.get_mut(&id).to_fan_mut()
    }

    /// The Flat item of the node `id`, which must be a Flat node of the graph, to change in place.
    pub fn get_flat_mut(&mut self, id: Id) -> (r: &mut Flat)
        requires
            old(self).nodes@.contains_key(id),
            (old(self).nodes@[id].node_type is Flat),
        ensures
            NodeType::Flat(*r) == old(self).nodes@[id].node_type,
            final(self).nodes@ == old(self).nodes@.insert(
                id,
                (Node { node_type: NodeType::Flat(*final(r)), ..old(self).nodes@[id] }),
            ),
            final(self).id_generator == old(self).id_generator,
            final(self).root_nodes == old(self).root_nodes,
    {
        self.get_mut(&id).to_flat_mut()
    }

    /// The Linear item of the node `id`, which must be a Linear node of the graph, to change in place.
    pub fn get_linear_mut(&mut self, id: Id) -> (r: &mut Linear)
        requires
            old(self).nodes@.contains_key(id),
            (old(self).nodes@[id].node_type is Linear),
        ensures
            NodeType::Linear(*r) == old(self).nodes@[id].node_type,
            final(self).nodes@ == old(self).nodes@.insert(
                id,
                (Node { node_type: NodeType::Linear(*final(r)), ..old(self).nodes@[id] }),
            ),
            final(self).id_generator == old(self).id_generator,
            final(self).root_nodes == old(self).root_nodes,
    {
        self.get_mut(&id).to_linear_mut()
    }

    /// The Target item of the node `id`, which must be a Target node of the graph, to change in place.
    pub fn get_target_mut(&mut self, id: Id) -> (r: &mut Target)
        requires
            old(self).nodes@.contains_key(id),
            (old(self).nodes@[id].node_type is Target),
        ensures
            NodeType::Target(*r) == old(self).nodes@[id].node_type,
            final(self).nodes@ == old(self).nodes@.insert(
                id,
                (Node { node_type: NodeType::Target(*final(r)), ..old(self).nodes@[id] }),
            ),
            final(self).id_generator == old(self).id_generator,
            final(self).root_nodes == old(self).root_nodes,
    {
        self.get_mut(&id).to_target_mut()
    }

}

impl Node {
    /// The Control item of this node, which must be a Control node.
    pub fn to_control(&self) -> (r: &Control)
        requires
            (self.node_type is Control),
        ensures
            NodeType::Control(*r) == self.node_type,
    {
        match &self.node_type {
            NodeType::Control(item) => item,
            _ => vstd::pervasive::unreached(),
        }
    }

    /// The Control item of this node, which must be a Control node, to change in place.
    pub fn to_control_mut(&mut self) -> (r: &mut Control)
        requires
            (old(self).node_type is Control),
        ensures
            NodeType::Control(*r) == old(self).node_type,
            *final(self) == (Node { node_type: NodeType::Control(*final(r)), ..*old(self) }),
    {
        match &mut self.node_type {
            NodeType::Control(item) => item,
            _ => vstd::pervasive::unreached(),
        }
    }

    /// The CustomTemp item of this node, which must be a CustomTemp node.
    pub fn to_custom_temp(&self) -> (r: &CustomTemp)
        requires
            (self.node_type is CustomTemp),
        ensures
            NodeType::CustomTemp(*r) == self.node_type,
    {
        match &self.node_type {
            NodeType::CustomTemp(item) => item,
            _ => vstd::pervasive::unreached(),
        }
    }

    /// The CustomTemp item of this node, which must be a CustomTemp node, to change in place.
    pub fn to_custom_temp_mut(&mut self) -> (r: &mut CustomTemp)
        requires
            (old(self).node_type is CustomTemp),
        ensures
            NodeType::CustomTemp(*r) == old(self).node_type,
            *final(self) == (Node { node_type: NodeType::CustomTemp(*final(r)), ..*old(self) }),
    {
        match &mut self.node_type {
            NodeType::CustomTemp(item) => item,
            _ => vstd::pervasive::unreached(),
        }
    }

    /// The Temp item of this node, which must be a Temp node.
    pub fn to_temp(&self) -> (r: &Temp)
        requires
            (self.node_type is Temp),
        ensures
            NodeType::Temp(*r) == self.node_type,
    {
        match &self.node_type {
            NodeType::Temp(item) => item,
            _ => vstd::pervasive::unreached(),
        }
    }

    /// The Temp item of this node, which must be a Temp node, to change in place.
    pub fn to_temp_mut(&mut self) -> (r: &mut Temp)
        requires
            (old(self).node_type is Temp),
        ensures
            NodeType::Temp(*r) == old(self).node_type,
            *final(self) == (Node { node_type: NodeType::Temp(*final(r)), ..*old(self) }),
    {
        match &mut self.node_type {
            NodeType::Temp(item) => item,
            _ => vstd::pervasive::unreached(),
        }
    }

    /// The Fan item of this node, which must be a Fan node.
    pub fn to_fan(&self) -> (r: &Fan)
        requires
            (self.node_type is Fan),
        ensures
            NodeType::Fan(*r) == self.node_type,
    {
        match &self.node_type {
            NodeType::Fan(item) => item,
            _ => vstd::pervasive::unreached(),
        }
    }

    /// The Fan item of this node, which must be a Fan node, to change in place.
    pub fn to_fan_mut(&mut self) -> (r: &mut Fan)
        requires
            (old(self).node_type is Fan),
        ensures
            NodeType::Fan(*r) == old(self).node_type,
            *final(self) == (Node { node_type: NodeType::Fan(*final(r)), ..*old(self) }),
    {
        match &mut self.node_type {
            NodeType::Fan(item) => item,
            _ => vstd::pervasive::unreached(),
        }
    }

    /// The Flat item of this node, which must be a Flat node.
    pub fn to_flat(&self) -> (r: &Flat)
        requires
            (self.node_type is Flat),
        ensures
            NodeType::Flat(*r) == self.node_type,
    {
        match &self.node_type {
            NodeType::Flat(item) => item,
            _ => vstd::pervasive::unreached(),
        }
    }

    /// The Flat item of this node, which must be a Flat node, to change in place.
    pub fn to_flat_mut(&mut self) -> (r: &mut Flat)
        requires
            (old(self).node_type is Flat),
        ensures
            NodeType::Flat(*r) == old(self).node_type,
            *final(self) == (Node { node_type: NodeType::Flat(*final(r)), ..*old(self) }),
    {
        match &mut self.node_type {
            NodeType::Flat(item) => item,
            _ => vstd::pervasive::unreached(),
        }
    }

    /// The Linear item of this node, which must be a Linear node.
    pub fn to_linear(&self) -> (r: &Linear)
        requires
            (self.node_type is Linear),
        ensures
            NodeType::Linear(*r) == self.node_type,
    {
        match &self.node_type {
            NodeType::Linear(item) => item,
            _ => vstd::pervasive::unreached(),
        }
    }

    /// The Linear item of this node, which must be a Linear node, to change in place.
    pub fn to_linear_mut(&mut self) -> (r: &mut Linear)
        requires
            (old(self).node_type is Linear),
        ensures
            NodeType::Linear(*r) == old(self).node_type,
            *final(self) == (Node { node_type: NodeType::Linear(*final(r)), ..*old(self) }),
    {
        match &mut self.node_type {
            NodeType::Linear(item) => item,
            _ => vstd::pervasive::unreached(),
        }
    }

    /// The Target item of this node, which must be a Target node.
    pub fn to_target(&self) -> (r: &Target)
        requires
            (self.node_type is Target),
        ensures
            NodeType::Target(*r) == self.node_type,
    {
        match &self.node_type {
            NodeType::Target(item) => item,
            _ => vstd::pervasive::unreached(),
        }
    }

    /// The Target item of this node, which must be a Target node, to change in place.
    pub fn to_target_mut(&mut self) -> (r: &mut Target)
        requires
            (old(self).node_type is Target),
        ensures
            NodeType::Target(*r) == old(self).node_type,
            *final(self) == (Node { node_type: NodeType::Target(*final(r)), ..*old(self) }),
    {
        match &mut self.node_type {
            NodeType::Target(item) => item,
            _ => vstd::pervasive::unreached(),
        }
    }
}

} // verus!
