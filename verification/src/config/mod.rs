//! The items of a configuration: controls, sensors and behaviors.
pub mod affine;
pub mod flat;
pub mod graph;
pub mod linear;
pub mod target;
pub mod custom_temp;
pub mod fan;
pub mod temp;
pub mod control;

use vstd::prelude::*;
use self::control::Control;
use self::custom_temp::CustomTemp;
use self::fan::Fan;
use self::flat::Flat;
use self::graph::Graph;
use self::linear::Linear;
use self::target::Target;
use self::temp::Temp;
use crate::app_graph::AppGraph;
use crate::id::Id;
use crate::node::{light_of, Node, NodeType, NodeTypeLight};
use crate::utils::keys_of;

verus! {

/// A configuration: the items of each kind, as a file lists them.
pub struct Config {
    pub controls: Vec<Control>,
    pub fans: Vec<Fan>,
    pub temps: Vec<Temp>,
    pub custom_temps: Vec<CustomTemp>,
    pub graphs: Vec<Graph>,
    pub flats: Vec<Flat>,
    pub linears: Vec<Linear>,
    pub targets: Vec<Target>,
}

/// The items of the nodes listed in `ks` whose kind is `l`, in the order of `ks`.
pub open spec fn items_of_kind(nodes: Map<Id, Node>, ks: Seq<Id>, l: NodeTypeLight) -> Seq<NodeType>
    decreases ks.len(),
{
    if ks.len() == 0 {
        Seq::empty()
    } else {
        let rest = items_of_kind(nodes, ks.drop_last(), l);
        if light_of(nodes[ks.last()].node_type) == l {
            rest.push(nodes[ks.last()].node_type)
        } else {
            rest
        }
    }
}

/// `a` is a copy of `b`: the same fields, lists compared by their contents.
pub open spec fn same_item(a: NodeType, b: NodeType) -> bool {
    match (a, b) {
        (NodeType::CustomTemp(x), NodeType::CustomTemp(y)) => x.name == y.name && x.kind == y.kind
            && x.inputs@ == y.inputs@,
        (NodeType::Graph(x), NodeType::Graph(y)) => x.name == y.name && x.input == y.input
            && x.coords@ == y.coords@,
        _ => a == b,
    }
}

/// `v` lists copies of `items`, in the same order.
pub open spec fn lists_items(v: Seq<NodeType>, items: Seq<NodeType>) -> bool {
    &&& v.len() == items.len()
    &&& forall|i: int| 0 <= i < v.len() ==> #[trigger] same_item(v[i], items[i])
}

/// The configuration `c` lists copies of the items of `nodes`, each kind in
/// the order of `ks`.
pub open spec fn config_lists(c: Config, nodes: Map<Id, Node>, ks: Seq<Id>) -> bool {
    &&& lists_items(c.controls@.map_values(|i: Control| NodeType::Control(i)), items_of_kind(nodes, ks, NodeTypeLight::Control))
    &&& lists_items(c.fans@.map_values(|i: Fan| NodeType::Fan(i)), items_of_kind(nodes, ks, NodeTypeLight::Fan))
    &&& lists_items(c.temps@.map_values(|i: Temp| NodeType::Temp(i)), items_of_kind(nodes, ks, NodeTypeLight::Temp))
    &&& lists_items(c.custom_temps@.map_values(|i: CustomTemp| NodeType::CustomTemp(i)), items_of_kind(nodes, ks, NodeTypeLight::CustomTemp))
    &&& lists_items(c.graphs@.map_values(|i: Graph| NodeType::Graph(i)), items_of_kind(nodes, ks, NodeTypeLight::Graph))
    &&& lists_items(c.flats@.map_values(|i: Flat| NodeType::Flat(i)), items_of_kind(nodes, ks, NodeTypeLight::Flat))
    &&& lists_items(c.linears@.map_values(|i: Linear| NodeType::Linear(i)), items_of_kind(nodes, ks, NodeTypeLight::Linear))
    &&& lists_items(c.targets@.map_values(|i: Target| NodeType::Target(i)), items_of_kind(nodes, ks, NodeTypeLight::Target))
}

impl Config {
    /// A configuration with no item.
    pub fn default() -> (r: Self)
        ensures
            r.controls@.len() == 0,
            r.fans@.len() == 0,
            r.temps@.len() == 0,
            r.custom_temps@.len() == 0,
            r.graphs@.len() == 0,
            r.flats@.len() == 0,
            r.linears@.len() == 0,
            r.targets@.len() == 0,
    {
        Config {
            controls: Vec::new(),
            fans: Vec::new(),
            temps: Vec::new(),
            custom_temps: Vec::new(),
            graphs: Vec::new(),
            flats: Vec::new(),
            linears: Vec::new(),
            targets: Vec::new(),
        }
    }

    /// The configuration of a graph: a copy of the item of each node, under
    /// its kind, in the order in which the map yields the nodes.
    pub fn from_app_graph(app_graph: &AppGraph) -> (r: Self)
        ensures
            exists|ks: Seq<Id>|
                ks.no_duplicates() && ks.to_set() == app_graph.nodes@.dom() && config_lists(
                    r,
                    app_graph.nodes@,
                    ks,
                ),
    {
        let mut config = Config::default();
        let keys = keys_of(&app_graph.nodes);
        let ghost nodes = app_graph.nodes@;
        let mut i: usize = 0;
        proof {
            assert(config.controls@.map_values(|i: Control| NodeType::Control(i)) =~= Seq::<NodeType>::empty());
            assert(config.fans@.map_values(|i: Fan| NodeType::Fan(i)) =~= Seq::<NodeType>::empty());
            assert(config.temps@.map_values(|i: Temp| NodeType::Temp(i)) =~= Seq::<NodeType>::empty());
            assert(config.custom_temps@.map_values(|i: CustomTemp| NodeType::CustomTemp(i)) =~= Seq::<NodeType>::empty());
            assert(config.graphs@.map_values(|i: Graph| NodeType::Graph(i)) =~= Seq::<NodeType>::empty());
            assert(config.flats@.map_values(|i: Flat| NodeType::Flat(i)) =~= Seq::<NodeType>::empty());
            assert(config.linears@.map_values(|i: Linear| NodeType::Linear(i)) =~= Seq::<NodeType>::empty());
            assert(config.targets@.map_values(|i: Target| NodeType::Target(i)) =~= Seq::<NodeType>::empty());
        }
        while i < keys.len()
            invariant
                i <= keys@.len(),
                nodes == app_graph.nodes@,
                keys@.to_set() == nodes.dom(),
                config_lists(config, nodes, keys@.take(i as int)),
            decreases keys@.len() - i,
        {
            let ghost pre = keys@.take(i as int);
            let ghost c0 = config;
            proof {
                assert(keys@.take(i + 1).drop_last() =~= pre);
                assert(keys@.to_set().contains(keys@[i as int]));
            }
            let node = app_graph.get(&keys[i]);
            match &node.node_type {
                NodeType::Control(item) => {
                    config.controls.push(item.copy());
                },
                NodeType::Fan(item) => {
                    config.fans.push(item.copy());
                },
                NodeType::Temp(item) => {
                    config.temps.push(item.copy());
                },
                NodeType::CustomTemp(item) => {
                    config.custom_temps.push(item.copy());
                },
                NodeType::Graph(item) => {
                    config.graphs.push(item.copy());
                },
                NodeType::Flat(item) => {
                    config.flats.push(item.copy());
                },
                NodeType::Linear(item) => {
                    config.linears.push(item.copy());
                },
                NodeType::Target(item) => {
                    config.targets.push(item.copy());
                },
            }
            proof {
                assert(config.controls@.map_values(|i: Control| NodeType::Control(i)) =~= (if light_of(node.node_type) == NodeTypeLight::Control {
                    c0.controls@.map_values(|i: Control| NodeType::Control(i)).push(NodeType::Control(config.controls@.last()))
                } else {
                    c0.controls@.map_values(|i: Control| NodeType::Control(i))
                }));
                assert(config.fans@.map_values(|i: Fan| NodeType::Fan(i)) =~= (if light_of(node.node_type) == NodeTypeLight::Fan {
                    c0.fans@.map_values(|i: Fan| NodeType::Fan(i)).push(NodeType::Fan(config.fans@.last()))
                } else {
                    c0.fans@.map_values(|i: Fan| NodeType::Fan(i))
                }));
                assert(config.temps@.map_values(|i: Temp| NodeType::Temp(i)) =~= (if light_of(node.node_type) == NodeTypeLight::Temp {
                    c0.temps@.map_values(|i: Temp| NodeType::Temp(i)).push(NodeType::Temp(config.temps@.last()))
                } else {
                    c0.temps@.map_values(|i: Temp| NodeType::Temp(i))
                }));
                assert(config.custom_temps@.map_values(|i: CustomTemp| NodeType::CustomTemp(i)) =~= (if light_of(node.node_type) == NodeTypeLight::CustomTemp {
                    c0.custom_temps@.map_values(|i: CustomTemp| NodeType::CustomTemp(i)).push(NodeType::CustomTemp(config.custom_temps@.last()))
                } else {
                    c0.custom_temps@.map_values(|i: CustomTemp| NodeType::CustomTemp(i))
                }));
                assert(config.graphs@.map_values(|i: Graph| NodeType::Graph(i)) =~= (if light_of(node.node_type) == NodeTypeLight::Graph {
                    c0.graphs@.map_values(|i: Graph| NodeType::Graph(i)).push(NodeType::Graph(config.graphs@.last()))
                } else {
                    c0.graphs@.map_values(|i: Graph| NodeType::Graph(i))
                }));
                assert(config.flats@.map_values(|i: Flat| NodeType::Flat(i)) =~= (if light_of(node.node_type) == NodeTypeLight::Flat {
                    c0.flats@.map_values(|i: Flat| NodeType::Flat(i)).push(NodeType::Flat(config.flats@.last()))
                } else {
                    c0.flats@.map_values(|i: Flat| NodeType::Flat(i))
                }));
                assert(config.linears@.map_values(|i: Linear| NodeType::Linear(i)) =~= (if light_of(node.node_type) == NodeTypeLight::Linear {
                    c0.linears@.map_values(|i: Linear| NodeType::Linear(i)).push(NodeType::Linear(config.linears@.last()))
                } else {
                    c0.linears@.map_values(|i: Linear| NodeType::Linear(i))
                }));
                assert(config.targets@.map_values(|i: Target| NodeType::Target(i)) =~= (if light_of(node.node_type) == NodeTypeLight::Target {
                    c0.targets@.map_values(|i: Target| NodeType::Target(i)).push(NodeType::Target(config.targets@.last()))
                } else {
                    c0.targets@.map_values(|i: Target| NodeType::Target(i))
                }));
            }
            i = i + 1;
        }
        proof {
            assert(keys@.take(keys@.len() as int) =~= keys@);
        }
        config
    }
}

/// Whether an item has what it needs to run.
pub trait IsValid {
    fn is_valid(&self) -> bool;
}

/// Access to the names of the nodes that an item reads.
pub trait Inputs {
    fn clear_inputs(&mut self);

    fn get_inputs(&self) -> Vec<&String>;
}

} // verus!
