//! The graph of nodes built from a configuration and the hardware.
use vstd::prelude::*;
use std::collections::HashMap;
use std::collections::hash_map::Entry;
use crate::config::control::{control_bound, Control};
use crate::config::custom_temp::CustomTemp;
use crate::config::fan::{fan_bound, Fan};
use crate::config::flat::Flat;
use crate::config::graph::strictly_sorted;
use crate::config::linear::{linear_fixed, Linear};
use crate::config::target::{target_fixed, Target};
use crate::config::temp::{temp_bound, Temp};
use crate::config::Config;
use crate::hardware::{HControl, HSensor, Hardware};
use crate::id::{Id, IdGenerator};
use crate::node::{self, wired, allowed, input_names, input_view, kept_inputs, inputs_sanitized, lemma_sanitized, lemma_same_but_inputs_keeps, sanitize_spec, Sanitize, curve_sorted, default_item, is_default_item, name_of, node_made, same_but_inputs, same_but_name, ToNode, find_by_name, lemma_allowed_lowers_level, level, light_of, names_unique, node_name, resolves, Input, Node, NodeType, NodeTypeLight};
use crate::text::{concat, decimal, lemma_decimal_injective, push_char, u128_to_decimal};
use crate::utils::{keys_of, RemoveElem};

verus! {

broadcast use vstd::std_specs::hash::group_hash_axioms;

pub type Nodes = HashMap<Id, Node>;

pub type RootNodes = Vec<Id>;

/// The nodes, keyed by identifier, the generator of identifiers and the
/// identifiers of the controls.
pub struct AppGraph {
    pub nodes: Nodes,
    pub id_generator: IdGenerator,
    pub root_nodes: RootNodes,
}

/// Some node of `nodes` is named `name`.
pub open spec fn name_taken(nodes: Map<Id, Node>, name: Seq<char>) -> bool {
    exists|k: Id| nodes.contains_key(k) && node_name(nodes[k]) == name
}

/// Each node is stored under its own identifier.
pub open spec fn ids_consistent(nodes: Map<Id, Node>) -> bool {
    forall|k: Id| nodes.contains_key(k) ==> #[trigger] nodes[k].id == k
}

/// Every input that names a node of the graph names a node of a lower rank.
pub open spec fn layered(nodes: Map<Id, Node>) -> bool {
    forall|k: Id, i: int|
        nodes.contains_key(k) && 0 <= i < nodes[k].inputs@.len() && nodes.contains_key(
            #[trigger] nodes[k].inputs@[i].id,
        ) ==> level(light_of(nodes[nodes[k].inputs@[i].id].node_type)) < level(
            light_of(nodes[k].node_type),
        )
}

/// Every curve of the graph is sorted by temperature.
pub open spec fn curves_sorted(nodes: Map<Id, Node>) -> bool {
    forall|k: Id|
        nodes.contains_key(k) ==> match #[trigger] nodes[k].node_type {
            NodeType::Graph(g) => crate::config::graph::curve_ok(g.coords@),
            _ => true,
        }
}

/// The inputs that each item names are those of its node: the first one
/// for an item with one input, all of them for a custom temperature.
pub open spec fn inputs_named(nodes: Map<Id, Node>) -> bool {
    forall|k: Id| #[trigger] nodes.contains_key(k) ==> input_names(nodes[k].node_type) == kept_inputs(
        light_of(nodes[k].node_type),
        input_view(nodes[k].inputs@),
    )
}

/// Every input of `inputs` names a node of `nodes` that can feed `nt`.
pub open spec fn inputs_found(nodes: Map<Id, Node>, nt: NodeType, inputs: Seq<Input>) -> bool {
    forall|i: int| 0 <= i < inputs.len() ==> #[trigger] input_resolved(nodes, nt, inputs[i])
}

/// `input` names a node of `nodes` that can feed `nt`, under that node's identifier.
pub open spec fn input_resolved(nodes: Map<Id, Node>, nt: NodeType, input: Input) -> bool {
    exists|k: Id| resolves(nodes, nt, input.name@, k) && nodes[k].id == input.id
}

/// A name made from `base`, a space and the number `i`.
pub open spec fn numbered_name(base: Seq<char>, i: nat) -> Seq<char> {
    base + seq![' '] + decimal(i)
}

/// `name` is the first of `base 1`, `base 2`, ... that no node of `nodes` has.
pub open spec fn first_unused(nodes: Map<Id, Node>, base: Seq<char>, name: Seq<char>) -> bool {
    exists|i: nat|
        i >= 1 && name == numbered_name(base, i) && !name_taken(nodes, name) && (forall|j: nat|
            1 <= j < i ==> name_taken(nodes, #[trigger] numbered_name(base, j)))
}

/// Every input of every node names an identifier of at most `bound`.
pub open spec fn inputs_below(nodes: Map<Id, Node>, bound: nat) -> bool {
    forall|k: Id, i: int|
        nodes.contains_key(k) && 0 <= i < nodes[k].inputs@.len() ==> #[trigger] nodes[k].inputs@[i].id
            <= bound
}

/// `node` can join the graph `g` as a fresh node.
pub open spec fn insertable(g: AppGraph, node: Node) -> bool {
    &&& !g.nodes@.contains_key(node.id)
    &&& node.id == g.id_generator.last_id()
    &&& forall|k: Id, i: int|
        g.nodes@.contains_key(k) && 0 <= i < g.nodes@[k].inputs@.len() ==> #[trigger] g.nodes@[k].inputs@[i].id
            != node.id
    &&& !name_taken(g.nodes@, node_name(node))
    &&& inputs_found(g.nodes@, node.node_type, node.inputs@)
    &&& input_names(node.node_type) == kept_inputs(light_of(node.node_type), input_view(node.inputs@))
    &&& match node.node_type {
        NodeType::Graph(c) => crate::config::graph::curve_ok(c.coords@),
        _ => true,
    }
}

proof fn lemma_numbered_name_injective(base: Seq<char>, i: nat, j: nat)
    requires
        numbered_name(base, i) == numbered_name(base, j),
    ensures
        i == j,
{
    let a = numbered_name(base, i);
    let b = numbered_name(base, j);
    assert(a.subrange(base.len() + 1int, a.len() as int) =~= decimal(i));
    assert(b.subrange(base.len() + 1int, b.len() as int) =~= decimal(j));
    lemma_decimal_injective(i, j);
}

/// The graph is well formed and holds the nodes `1` to `n`, the last
/// identifier handed out being `n`.
pub open spec fn numbered_from_one(g: AppGraph, n: nat) -> bool {
    &&& g.wf()
    &&& g.id_generator.last_id() == n
    &&& forall|k: Id| #[trigger] g.nodes@.contains_key(k) <==> 1 <= k <= n
}

/// `node` holds the item `nt`, renamed and with its inputs narrowed.
pub open spec fn from_item(node: Node, nt: NodeType) -> bool {
    &&& exists|nt1: NodeType| same_but_name(nt, nt1) && same_but_inputs(nt1, node.node_type)
    &&& input_names(node.node_type) == kept_inputs(light_of(nt), input_view(node.inputs@))
    &&& input_names(nt).len() == 0 ==> node.inputs@.len() == 0
}

/// Every node of `prev` is still in `cur`, unchanged.
pub open spec fn kept_nodes(prev: Map<Id, Node>, cur: Map<Id, Node>) -> bool {
    forall|k: Id| #[trigger] prev.contains_key(k) ==> cur.contains_key(k) && cur[k] == prev[k]
}

/// The control that the default graph makes for a pwm output: named after
/// it, bound to it, active and fed by nothing.
pub open spec fn control_of(h: HControl) -> Control {
    Control {
        name: h.name,
        hardware_id: Some(h.hardware_id),
        input: None,
        active: true,
        control_h: Some(h),
        mode_set: None,
    }
}

/// The fan that the default graph makes for a fan sensor.
pub open spec fn fan_of(h: HSensor) -> Fan {
    Fan { name: h.name, hardware_id: Some(h.hardware_id), fan_h: Some(h) }
}

/// The temperature that the default graph makes for a temperature sensor.
pub open spec fn temp_of(h: HSensor) -> Temp {
    Temp { name: h.name, hardware_id: Some(h.hardware_id), temp_h: Some(h) }
}

/// A node made from an item that names no input (a custom temperature
/// aside) reads nothing, and holds the item, renamed at most.
proof fn lemma_no_input_item(node: Node, nt: NodeType)
    requires
        from_item(node, nt),
        input_names(nt).len() == 0,
        !(nt is CustomTemp),
    ensures
        node.inputs@.len() == 0,
        same_but_name(nt, node.node_type),
{
    let nt1 = choose|nt1: NodeType| same_but_name(nt, nt1) && same_but_inputs(nt1, node.node_type);
    assert(input_view(node.inputs@) =~= Seq::<Seq<char>>::empty());
    assert(input_names(node.node_type).len() == 0);
    match (nt1, node.node_type) {
        (NodeType::Control(x), NodeType::Control(y)) => {
            assert(y.input is None);
        },
        (NodeType::Graph(x), NodeType::Graph(y)) => {
            assert(y.input is None);
        },
        (NodeType::Linear(x), NodeType::Linear(y)) => {
            assert(y.input is None);
        },
        (NodeType::Target(x), NodeType::Target(y)) => {
            assert(y.input is None);
        },
        _ => {},
    }
}

/// The item of a configuration that the node `k` of its graph is made of:
/// the fans, temperatures, custom temperatures, flat, linear and target
/// behaviors, then the controls, in that order from 1, each brought into
/// shape as `to_node` does.
pub open spec fn config_item(config: Config, hardware: Hardware, k: int) -> NodeType {
    let n0 = config.fans@.len() as int;
    let n1 = n0 + config.temps@.len();
    let n2 = n1 + config.custom_temps@.len();
    let n3 = n2 + config.flats@.len();
    let n4 = n3 + config.linears@.len();
    let n5 = n4 + config.targets@.len();
    if k <= n0 {
        NodeType::Fan(fan_bound(config.fans@[k - 1], hardware.fans@))
    } else if k <= n1 {
        NodeType::Temp(temp_bound(config.temps@[k - n0 - 1], hardware.temps@))
    } else if k <= n2 {
        NodeType::CustomTemp(config.custom_temps@[k - n1 - 1])
    } else if k <= n3 {
        let f = config.flats@[k - n2 - 1];
        NodeType::Flat(Flat { value: if f.value > 100 { 50u16 } else { f.value }, ..f })
    } else if k <= n4 {
        NodeType::Linear(linear_fixed(config.linears@[k - n3 - 1]))
    } else if k <= n5 {
        NodeType::Target(target_fixed(config.targets@[k - n4 - 1]))
    } else {
        NodeType::Control(control_bound(config.controls@[k - n5 - 1], hardware.controls@))
    }
}

/// Later items of a configuration are of the same rank or a higher one.
proof fn lemma_config_levels(config: Config, hardware: Hardware, k1: int, k2: int)
    requires
        k1 <= k2,
    ensures
        level(light_of(config_item(config, hardware, k1))) <= level(light_of(config_item(config, hardware, k2))),
{
}

/// Every node of the graph made so far, up to `upto`, reads the nodes that
/// its item names.
pub open spec fn config_wired(nodes: Map<Id, Node>, config: Config, hardware: Hardware, upto: int) -> bool {
    forall|k: int| 1 <= k <= upto ==> #[trigger] wired(nodes, config_item(config, hardware, k), nodes[k as Id])
}

/// The wiring stays when the next node of the configuration joins.
proof fn lemma_config_wired_grow(
    config: Config,
    hardware: Hardware,
    a: Map<Id, Node>,
    b: Map<Id, Node>,
    nd: Node,
    n: nat,
)
    requires
        config_wired(a, config, hardware, n as int),
        forall|k: Id| #[trigger] a.contains_key(k) <==> 1 <= k <= n,
        n + 1 <= u32::MAX,
        b == a.insert((n + 1) as Id, nd),
        light_of(nd.node_type) == light_of(config_item(config, hardware, (n + 1) as int)),
        wired(a, config_item(config, hardware, (n + 1) as int), nd),
    ensures
        config_wired(b, config, hardware, (n + 1) as int),
{
    let l_new = light_of(nd.node_type);
    assert forall|k: int| 1 <= k <= n + 1 implies #[trigger] wired(b, config_item(config, hardware, k), b[k as Id]) by {
        let nt = config_item(config, hardware, k);
        lemma_config_levels(config, hardware, k, (n + 1) as int);
        assert forall|x: Id| #[trigger] b.contains_key(x) && !a.contains_key(x) implies !allowed(
            light_of(nt),
            light_of(b[x].node_type),
        ) by {
            assert(x == (n + 1) as Id);
            if allowed(light_of(nt), l_new) {
                crate::node::lemma_allowed_lowers_level(light_of(nt), l_new);
            }
        }
        crate::node::lemma_resolved_same(a, b, nt, input_names(nt));
        if k <= n {
            assert(wired(a, nt, a[k as Id]));
            assert(b[k as Id] == a[k as Id]);
        }
    }
}

proof fn lemma_grow(g0: AppGraph, g1: AppGraph, g2: AppGraph, node: Node, nt: NodeType, n: nat)
    requires
        numbered_from_one(g0, n),
        node_made(g0, g1, nt, node),
        insertable(g1, node),
        g2.nodes@ == g1.nodes@.insert(node.id, node),
        g2.id_generator == g1.id_generator,
        g2.wf(),
    ensures
        numbered_from_one(g2, n + 1),
        kept_nodes(g0.nodes@, g2.nodes@),
        g2.nodes@[(n + 1) as Id] == node,
        from_item(node, nt),
        wired(g0.nodes@, nt, node),
        light_of(node.node_type) == light_of(nt),
        g2.nodes@ == g0.nodes@.insert((n + 1) as Id, node),
{
}

impl AppGraph {
    /// The graph is well formed: nodes under their own identifiers, all of
    /// them handed out by the generator, names unique, inputs of lower rank,
    /// curves sorted, and the controls listed once each in `root_nodes`.
    pub open spec fn wf(&self) -> bool {
        &&& ids_consistent(self.nodes@)
        &&& forall|k: Id| self.nodes@.contains_key(k) ==> k <= self.id_generator.last_id()
        &&& inputs_below(self.nodes@, self.id_generator.last_id())
        &&& names_unique(self.nodes@)
        &&& layered(self.nodes@)
        &&& curves_sorted(self.nodes@)
        &&& inputs_named(self.nodes@)
        &&& self.root_nodes@.no_duplicates()
        &&& forall|k: Id|
            #[trigger] self.root_nodes@.contains(k) <==> self.nodes@.contains_key(k) && light_of(
                self.nodes@[k].node_type,
            ) == NodeTypeLight::Control
    }

    fn new() -> (r: Self)
        ensures
            r.nodes@ == Map::<Id, Node>::empty(),
            r.root_nodes@ == Seq::<Id>::empty(),
            r.id_generator.last_id() == 0,
            r.wf(),
    {
        Self { nodes: HashMap::new(), id_generator: IdGenerator::new(), root_nodes: Vec::new() }
    }

    /// The graph of the hardware alone: a control for each pwm output, then
    /// a fan and a temperature for each sensor, numbered from 1 in that order.
    pub fn default(hardware: &Hardware) -> (r: Self)
        requires
            hardware.controls@.len() + hardware.fans@.len() + hardware.temps@.len() <= u32::MAX,
        ensures
            numbered_from_one(r, (hardware.controls@.len() + hardware.fans@.len() + hardware.temps@.len()) as nat),
            forall|i: int| 0 <= i < hardware.controls@.len() ==> (#[trigger] r.nodes@[(1 + i) as Id]).inputs@.len()
                == 0 && same_but_name(NodeType::Control(control_of(hardware.controls@[i])), r.nodes@[(1 + i) as Id].node_type),
            forall|i: int| 0 <= i < hardware.fans@.len() ==> (#[trigger] r.nodes@[(hardware.controls@.len() + 1 + i) as Id]).inputs@.len()
                == 0 && same_but_name(
                NodeType::Fan(fan_of(hardware.fans@[i])),
                r.nodes@[(hardware.controls@.len() + 1 + i) as Id].node_type,
            ),
            forall|i: int| 0 <= i < hardware.temps@.len() ==> (#[trigger] r.nodes@[(hardware.controls@.len() + hardware.fans@.len() + 1
                + i) as Id]).inputs@.len() == 0 && same_but_name(
                NodeType::Temp(temp_of(hardware.temps@[i])),
                r.nodes@[(hardware.controls@.len() + hardware.fans@.len() + 1 + i) as Id].node_type,
            ),
    {
        let mut app_graph = AppGraph::new();
        let ghost total = hardware.controls@.len() + hardware.fans@.len() + hardware.temps@.len();
        let ghost offs = seq![(0) as int, (hardware.controls@.len()) as int, (hardware.controls@.len() + hardware.fans@.len()) as int];
        let ghost prev0 = app_graph.nodes@;
        let mut i: usize = 0;
        while i < hardware.controls.len()
            invariant
                i <= hardware.controls@.len(),
                total <= u32::MAX,
                offs[0] + hardware.controls@.len() <= total,
                0 <= offs[0],
                numbered_from_one(app_graph, (offs[0] + i) as nat),
                kept_nodes(prev0, app_graph.nodes@),
                forall|j: int| 0 <= j < i ==> from_item(
                    #[trigger] app_graph.nodes@[(offs[0] + 1 + j) as Id],
                    NodeType::Control(control_of(hardware.controls@[j])),
                ),
            decreases hardware.controls@.len() - i,
        {
            let h = &hardware.controls[i];
            let item = Control::new(h.name.clone(), Some(h.hardware_id.clone()), None, true, Some(h.copy()));
            let ghost g0 = app_graph;
            let ghost n = (offs[0] + i) as nat;
            let ghost nt = NodeType::Control(item);
            let node = Node::new(NodeType::Control(item), &mut app_graph);
            let ghost g1 = app_graph;
            let ghost nd = node;
            app_graph.insert_node(node);
            proof {
                lemma_grow(g0, g1, app_graph, nd, nt, n);
            }
            i = i + 1;
        }
        let ghost after0 = app_graph.nodes@;
        let ghost prev1 = app_graph.nodes@;
        let mut i: usize = 0;
        while i < hardware.fans.len()
            invariant
                i <= hardware.fans@.len(),
                total <= u32::MAX,
                offs[1] + hardware.fans@.len() <= total,
                0 <= offs[1],
                numbered_from_one(app_graph, (offs[1] + i) as nat),
                kept_nodes(prev1, app_graph.nodes@),
                forall|j: int| 0 <= j < i ==> from_item(
                    #[trigger] app_graph.nodes@[(offs[1] + 1 + j) as Id],
                    NodeType::Fan(fan_of(hardware.fans@[j])),
                ),
            decreases hardware.fans@.len() - i,
        {
            let h = &hardware.fans[i];
            let item = Fan { name: h.name.clone(), hardware_id: Some(h.hardware_id.clone()), fan_h: Some(h.copy()) };
            let ghost g0 = app_graph;
            let ghost n = (offs[1] + i) as nat;
            let ghost nt = NodeType::Fan(item);
            let node = Node::new(NodeType::Fan(item), &mut app_graph);
            let ghost g1 = app_graph;
            let ghost nd = node;
            app_graph.insert_node(node);
            proof {
                lemma_grow(g0, g1, app_graph, nd, nt, n);
            }
            i = i + 1;
        }
        let ghost after1 = app_graph.nodes@;
        let ghost prev2 = app_graph.nodes@;
        let mut i: usize = 0;
        while i < hardware.temps.len()
            invariant
                i <= hardware.temps@.len(),
                total <= u32::MAX,
                offs[2] + hardware.temps@.len() <= total,
                0 <= offs[2],
                numbered_from_one(app_graph, (offs[2] + i) as nat),
                kept_nodes(prev2, app_graph.nodes@),
                forall|j: int| 0 <= j < i ==> from_item(
                    #[trigger] app_graph.nodes@[(offs[2] + 1 + j) as Id],
                    NodeType::Temp(temp_of(hardware.temps@[j])),
                ),
            decreases hardware.temps@.len() - i,
        {
            let h = &hardware.temps[i];
            let item = Temp { name: h.name.clone(), hardware_id: Some(h.hardware_id.clone()), temp_h: Some(h.copy()) };
            let ghost g0 = app_graph;
            let ghost n = (offs[2] + i) as nat;
            let ghost nt = NodeType::Temp(item);
            let node = Node::new(NodeType::Temp(item), &mut app_graph);
            let ghost g1 = app_graph;
            let ghost nd = node;
            app_graph.insert_node(node);
            proof {
                lemma_grow(g0, g1, app_graph, nd, nt, n);
            }
            i = i + 1;
        }
        let ghost after2 = app_graph.nodes@;
        proof {
            assert forall|i: int| 0 <= i < hardware.controls@.len() implies (#[trigger] app_graph.nodes@[(1 + i) as Id]).inputs@.len()
                == 0 && same_but_name(NodeType::Control(control_of(hardware.controls@[i])), app_graph.nodes@[(1 + i) as Id].node_type) by {
                let k = (offs[0] + 1 + i) as Id;
                assert(after0.contains_key(k));
                assert(from_item(app_graph.nodes@[k], NodeType::Control(control_of(hardware.controls@[i]))));
                lemma_no_input_item(app_graph.nodes@[k], NodeType::Control(control_of(hardware.controls@[i])));
            }
            assert forall|i: int| 0 <= i < hardware.fans@.len() implies (#[trigger] app_graph.nodes@[(hardware.controls@.len() + 1 + i) as Id]).inputs@.len()
                == 0 && same_but_name(
                NodeType::Fan(fan_of(hardware.fans@[i])),
                app_graph.nodes@[(hardware.controls@.len() + 1 + i) as Id].node_type,
            ) by {
                let k = (offs[1] + 1 + i) as Id;
                assert(after1.contains_key(k));
                assert(from_item(app_graph.nodes@[k], NodeType::Fan(fan_of(hardware.fans@[i]))));
                lemma_no_input_item(app_graph.nodes@[k], NodeType::Fan(fan_of(hardware.fans@[i])));
            }
            assert forall|i: int| 0 <= i < hardware.temps@.len() implies (#[trigger] app_graph.nodes@[(hardware.controls@.len() + hardware.fans@.len() + 1
                + i) as Id]).inputs@.len() == 0 && same_but_name(
                NodeType::Temp(temp_of(hardware.temps@[i])),
                app_graph.nodes@[(hardware.controls@.len() + hardware.fans@.len() + 1 + i) as Id].node_type,
            ) by {
                let k = (offs[2] + 1 + i) as Id;
                assert(from_item(app_graph.nodes@[k], NodeType::Temp(temp_of(hardware.temps@[i]))));
                lemma_no_input_item(app_graph.nodes@[k], NodeType::Temp(temp_of(hardware.temps@[i])));
            }
        }
        app_graph
    }

    /// The graph of a configuration: its fans, temperatures, custom
    /// temperatures, flat, linear and target behaviors, then its controls,
    /// each turned into a node in that order and numbered from 1, and wired
    /// to the nodes that its names resolve to. The graphs of the
    /// configuration are not read.
    pub fn from_config(config: Config, hardware: &Hardware) -> (r: Self)
        requires
            config.fans@.len() + config.temps@.len() + config.custom_temps@.len() + config.flats@.len() + config.linears@.len() + config.targets@.len() + config.controls@.len() <= u32::MAX,
        ensures
            numbered_from_one(r, (config.fans@.len() + config.temps@.len() + config.custom_temps@.len() + config.flats@.len() + config.linears@.len() + config.targets@.len() + config.controls@.len()) as nat),
            forall|i: int| 0 <= i < config.fans@.len() ==> from_item(
                #[trigger] r.nodes@[(0 + 1 + i) as Id],
                NodeType::Fan(fan_bound(config.fans@[i], hardware.fans@)),
            ),
            forall|i: int| 0 <= i < config.temps@.len() ==> from_item(
                #[trigger] r.nodes@[(config.fans@.len() + 1 + i) as Id],
                NodeType::Temp(temp_bound(config.temps@[i], hardware.temps@)),
            ),
            forall|i: int| 0 <= i < config.custom_temps@.len() ==> from_item(
                #[trigger] r.nodes@[(config.fans@.len() + config.temps@.len() + 1 + i) as Id],
                NodeType::CustomTemp(config.custom_temps@[i]),
            ),
            forall|i: int| 0 <= i < config.flats@.len() ==> from_item(
                #[trigger] r.nodes@[(config.fans@.len() + config.temps@.len() + config.custom_temps@.len() + 1 + i) as Id],
                NodeType::Flat(Flat { value: if config.flats@[i].value > 100 { 50u16 } else { config.flats@[i].value }, ..config.flats@[i] }),
            ),
            forall|i: int| 0 <= i < config.linears@.len() ==> from_item(
                #[trigger] r.nodes@[(config.fans@.len() + config.temps@.len() + config.custom_temps@.len() + config.flats@.len() + 1 + i) as Id],
                NodeType::Linear(linear_fixed(config.linears@[i])),
            ),
            forall|i: int| 0 <= i < config.targets@.len() ==> from_item(
                #[trigger] r.nodes@[(config.fans@.len() + config.temps@.len() + config.custom_temps@.len() + config.flats@.len() + config.linears@.len() + 1 + i) as Id],
                NodeType::Target(target_fixed(config.targets@[i])),
            ),
            forall|i: int| 0 <= i < config.controls@.len() ==> from_item(
                #[trigger] r.nodes@[(config.fans@.len() + config.temps@.len() + config.custom_temps@.len() + config.flats@.len() + config.linears@.len() + config.targets@.len() + 1 + i) as Id],
                NodeType::Control(control_bound(config.controls@[i], hardware.controls@)),
            ),
            config_wired(
                r.nodes@,
                config,
                *hardware,
                (config.fans@.len() + config.temps@.len() + config.custom_temps@.len() + config.flats@.len() + config.linears@.len()
                    + config.targets@.len() + config.controls@.len()) as int,
            ),
    {
        let mut app_graph = AppGraph::new();
        let ghost total = config.fans@.len() + config.temps@.len() + config.custom_temps@.len() + config.flats@.len() + config.linears@.len() + config.targets@.len() + config.controls@.len();
        let ghost fans = config.fans@;
        let ghost temps = config.temps@;
        let ghost custom_temps = config.custom_temps@;
        let ghost flats = config.flats@;
        let ghost linears = config.linears@;
        let ghost targets = config.targets@;
        let ghost controls = config.controls@;
        let ghost cfg = config;
        let ghost offs = seq![(0) as int, (config.fans@.len()) as int, (config.fans@.len() + config.temps@.len()) as int, (config.fans@.len() + config.temps@.len() + config.custom_temps@.len()) as int, (config.fans@.len() + config.temps@.len() + config.custom_temps@.len() + config.flats@.len()) as int, (config.fans@.len() + config.temps@.len() + config.custom_temps@.len() + config.flats@.len() + config.linears@.len()) as int, (config.fans@.len() + config.temps@.len() + config.custom_temps@.len() + config.flats@.len() + config.linears@.len() + config.targets@.len()) as int];
        let ghost prev0 = app_graph.nodes@;
        for fan in it: config.fans.into_iter()
            invariant
                it.seq() == fans,
                total <= u32::MAX,
                offs[0] + fans.len() <= total,
                0 <= offs[0],
                numbered_from_one(app_graph, (offs[0] + it.index()) as nat),
                config_wired(app_graph.nodes@, cfg, *hardware, offs[0] + it.index()),
                cfg.fans@ == fans && cfg.temps@ == temps && cfg.custom_temps@ == custom_temps && cfg.flats@ == flats
                    && cfg.linears@ == linears && cfg.targets@ == targets && cfg.controls@ == controls,
                offs.len() == 7 && offs[0] == 0 && offs[1] == fans.len() && offs[2] == offs[1] + temps.len() && offs[3]
                    == offs[2] + custom_temps.len() && offs[4] == offs[3] + flats.len() && offs[5] == offs[4] + linears.len()
                    && offs[6] == offs[5] + targets.len(),
                kept_nodes(prev0, app_graph.nodes@),
                forall|i: int| 0 <= i < it.index() ==> from_item(
                    #[trigger] app_graph.nodes@[(offs[0] + 1 + i) as Id],
                    NodeType::Fan(fan_bound(fans[i], hardware.fans@)),
                ),
        {
            let ghost g0 = app_graph;
            let ghost n = (offs[0] + it.index()) as nat;
            let ghost item = fan;
            let node = fan.to_node(&mut app_graph, hardware);
            let ghost g1 = app_graph;
            let ghost nd = node;
            app_graph.insert_node(node);
            proof {
                lemma_grow(g0, g1, app_graph, nd, NodeType::Fan(fan_bound(item, hardware.fans@)), n);
                assert(config_item(cfg, *hardware, (n + 1) as int) == NodeType::Fan(fan_bound(item, hardware.fans@)));
                lemma_config_wired_grow(cfg, *hardware, g0.nodes@, app_graph.nodes@, nd, n);
            }
        }
        let ghost after0 = app_graph.nodes@;
        let ghost prev1 = app_graph.nodes@;
        for temp in it: config.temps.into_iter()
            invariant
                it.seq() == temps,
                total <= u32::MAX,
                offs[1] + temps.len() <= total,
                0 <= offs[1],
                numbered_from_one(app_graph, (offs[1] + it.index()) as nat),
                config_wired(app_graph.nodes@, cfg, *hardware, offs[1] + it.index()),
                cfg.fans@ == fans && cfg.temps@ == temps && cfg.custom_temps@ == custom_temps && cfg.flats@ == flats
                    && cfg.linears@ == linears && cfg.targets@ == targets && cfg.controls@ == controls,
                offs.len() == 7 && offs[0] == 0 && offs[1] == fans.len() && offs[2] == offs[1] + temps.len() && offs[3]
                    == offs[2] + custom_temps.len() && offs[4] == offs[3] + flats.len() && offs[5] == offs[4] + linears.len()
                    && offs[6] == offs[5] + targets.len(),
                kept_nodes(prev1, app_graph.nodes@),
                forall|i: int| 0 <= i < it.index() ==> from_item(
                    #[trigger] app_graph.nodes@[(offs[1] + 1 + i) as Id],
                    NodeType::Temp(temp_bound(temps[i], hardware.temps@)),
                ),
        {
            let ghost g0 = app_graph;
            let ghost n = (offs[1] + it.index()) as nat;
            let ghost item = temp;
            let node = temp.to_node(&mut app_graph, hardware);
            let ghost g1 = app_graph;
            let ghost nd = node;
            app_graph.insert_node(node);
            proof {
                lemma_grow(g0, g1, app_graph, nd, NodeType::Temp(temp_bound(item, hardware.temps@)), n);
                assert(config_item(cfg, *hardware, (n + 1) as int) == NodeType::Temp(temp_bound(item, hardware.temps@)));
                lemma_config_wired_grow(cfg, *hardware, g0.nodes@, app_graph.nodes@, nd, n);
            }
        }
        let ghost after1 = app_graph.nodes@;
        let ghost prev2 = app_graph.nodes@;
        for custom_temp in it: config.custom_temps.into_iter()
            invariant
                it.seq() == custom_temps,
                total <= u32::MAX,
                offs[2] + custom_temps.len() <= total,
                0 <= offs[2],
                numbered_from_one(app_graph, (offs[2] + it.index()) as nat),
                config_wired(app_graph.nodes@, cfg, *hardware, offs[2] + it.index()),
                cfg.fans@ == fans && cfg.temps@ == temps && cfg.custom_temps@ == custom_temps && cfg.flats@ == flats
                    && cfg.linears@ == linears && cfg.targets@ == targets && cfg.controls@ == controls,
                offs.len() == 7 && offs[0] == 0 && offs[1] == fans.len() && offs[2] == offs[1] + temps.len() && offs[3]
                    == offs[2] + custom_temps.len() && offs[4] == offs[3] + flats.len() && offs[5] == offs[4] + linears.len()
                    && offs[6] == offs[5] + targets.len(),
                kept_nodes(prev2, app_graph.nodes@),
                forall|i: int| 0 <= i < it.index() ==> from_item(
                    #[trigger] app_graph.nodes@[(offs[2] + 1 + i) as Id],
                    NodeType::CustomTemp(custom_temps[i]),
                ),
        {
            let ghost g0 = app_graph;
            let ghost n = (offs[2] + it.index()) as nat;
            let ghost item = custom_temp;
            let node = custom_temp.to_node(&mut app_graph, hardware);
            let ghost g1 = app_graph;
            let ghost nd = node;
            app_graph.insert_node(node);
            proof {
                lemma_grow(g0, g1, app_graph, nd, NodeType::CustomTemp(item), n);
                assert(config_item(cfg, *hardware, (n + 1) as int) == NodeType::CustomTemp(item));
                lemma_config_wired_grow(cfg, *hardware, g0.nodes@, app_graph.nodes@, nd, n);
            }
        }
        let ghost after2 = app_graph.nodes@;
        let ghost prev3 = app_graph.nodes@;
        for flat in it: config.flats.into_iter()
            invariant
                it.seq() == flats,
                total <= u32::MAX,
                offs[3] + flats.len() <= total,
                0 <= offs[3],
                numbered_from_one(app_graph, (offs[3] + it.index()) as nat),
                config_wired(app_graph.nodes@, cfg, *hardware, offs[3] + it.index()),
                cfg.fans@ == fans && cfg.temps@ == temps && cfg.custom_temps@ == custom_temps && cfg.flats@ == flats
                    && cfg.linears@ == linears && cfg.targets@ == targets && cfg.controls@ == controls,
                offs.len() == 7 && offs[0] == 0 && offs[1] == fans.len() && offs[2] == offs[1] + temps.len() && offs[3]
                    == offs[2] + custom_temps.len() && offs[4] == offs[3] + flats.len() && offs[5] == offs[4] + linears.len()
                    && offs[6] == offs[5] + targets.len(),
                kept_nodes(prev3, app_graph.nodes@),
                forall|i: int| 0 <= i < it.index() ==> from_item(
                    #[trigger] app_graph.nodes@[(offs[3] + 1 + i) as Id],
                    NodeType::Flat(Flat { value: if flats[i].value > 100 { 50u16 } else { flats[i].value }, ..flats[i] }),
                ),
        {
            let ghost g0 = app_graph;
            let ghost n = (offs[3] + it.index()) as nat;
            let ghost item = flat;
            let node = flat.to_node(&mut app_graph, hardware);
            let ghost g1 = app_graph;
            let ghost nd = node;
            app_graph.insert_node(node);
            proof {
                lemma_grow(g0, g1, app_graph, nd, NodeType::Flat(Flat { value: if item.value > 100 { 50u16 } else { item.value }, ..item }), n);
                assert(config_item(cfg, *hardware, (n + 1) as int) == NodeType::Flat(Flat { value: if item.value > 100 { 50u16 } else { item.value }, ..item }));
                lemma_config_wired_grow(cfg, *hardware, g0.nodes@, app_graph.nodes@, nd, n);
            }
        }
        let ghost after3 = app_graph.nodes@;
        let ghost prev4 = app_graph.nodes@;
        for linear in it: config.linears.into_iter()
            invariant
                it.seq() == linears,
                total <= u32::MAX,
                offs[4] + linears.len() <= total,
                0 <= offs[4],
                numbered_from_one(app_graph, (offs[4] + it.index()) as nat),
                config_wired(app_graph.nodes@, cfg, *hardware, offs[4] + it.index()),
                cfg.fans@ == fans && cfg.temps@ == temps && cfg.custom_temps@ == custom_temps && cfg.flats@ == flats
                    && cfg.linears@ == linears && cfg.targets@ == targets && cfg.controls@ == controls,
                offs.len() == 7 && offs[0] == 0 && offs[1] == fans.len() && offs[2] == offs[1] + temps.len() && offs[3]
                    == offs[2] + custom_temps.len() && offs[4] == offs[3] + flats.len() && offs[5] == offs[4] + linears.len()
                    && offs[6] == offs[5] + targets.len(),
                kept_nodes(prev4, app_graph.nodes@),
                forall|i: int| 0 <= i < it.index() ==> from_item(
                    #[trigger] app_graph.nodes@[(offs[4] + 1 + i) as Id],
                    NodeType::Linear(linear_fixed(linears[i])),
                ),
        {
            let ghost g0 = app_graph;
            let ghost n = (offs[4] + it.index()) as nat;
            let ghost item = linear;
            let node = linear.to_node(&mut app_graph, hardware);
            let ghost g1 = app_graph;
            let ghost nd = node;
            app_graph.insert_node(node);
            proof {
                lemma_grow(g0, g1, app_graph, nd, NodeType::Linear(linear_fixed(item)), n);
                assert(config_item(cfg, *hardware, (n + 1) as int) == NodeType::Linear(linear_fixed(item)));
                lemma_config_wired_grow(cfg, *hardware, g0.nodes@, app_graph.nodes@, nd, n);
            }
        }
        let ghost after4 = app_graph.nodes@;
        let ghost prev5 = app_graph.nodes@;
        for target in it: config.targets.into_iter()
            invariant
                it.seq() == targets,
                total <= u32::MAX,
                offs[5] + targets.len() <= total,
                0 <= offs[5],
                numbered_from_one(app_graph, (offs[5] + it.index()) as nat),
                config_wired(app_graph.nodes@, cfg, *hardware, offs[5] + it.index()),
                cfg.fans@ == fans && cfg.temps@ == temps && cfg.custom_temps@ == custom_temps && cfg.flats@ == flats
                    && cfg.linears@ == linears && cfg.targets@ == targets && cfg.controls@ == controls,
                offs.len() == 7 && offs[0] == 0 && offs[1] == fans.len() && offs[2] == offs[1] + temps.len() && offs[3]
                    == offs[2] + custom_temps.len() && offs[4] == offs[3] + flats.len() && offs[5] == offs[4] + linears.len()
                    && offs[6] == offs[5] + targets.len(),
                kept_nodes(prev5, app_graph.nodes@),
                forall|i: int| 0 <= i < it.index() ==> from_item(
                    #[trigger] app_graph.nodes@[(offs[5] + 1 + i) as Id],
                    NodeType::Target(target_fixed(targets[i])),
                ),
        {
            let ghost g0 = app_graph;
            let ghost n = (offs[5] + it.index()) as nat;
            let ghost item = target;
            let node = target.to_node(&mut app_graph, hardware);
            let ghost g1 = app_graph;
            let ghost nd = node;
            app_graph.insert_node(node);
            proof {
                lemma_grow(g0, g1, app_graph, nd, NodeType::Target(target_fixed(item)), n);
                assert(config_item(cfg, *hardware, (n + 1) as int) == NodeType::Target(target_fixed(item)));
                lemma_config_wired_grow(cfg, *hardware, g0.nodes@, app_graph.nodes@, nd, n);
            }
        }
        let ghost after5 = app_graph.nodes@;
        let ghost prev6 = app_graph.nodes@;
        for control in it: config.controls.into_iter()
            invariant
                it.seq() == controls,
                total <= u32::MAX,
                offs[6] + controls.len() <= total,
                0 <= offs[6],
                numbered_from_one(app_graph, (offs[6] + it.index()) as nat),
                config_wired(app_graph.nodes@, cfg, *hardware, offs[6] + it.index()),
                cfg.fans@ == fans && cfg.temps@ == temps && cfg.custom_temps@ == custom_temps && cfg.flats@ == flats
                    && cfg.linears@ == linears && cfg.targets@ == targets && cfg.controls@ == controls,
                offs.len() == 7 && offs[0] == 0 && offs[1] == fans.len() && offs[2] == offs[1] + temps.len() && offs[3]
                    == offs[2] + custom_temps.len() && offs[4] == offs[3] + flats.len() && offs[5] == offs[4] + linears.len()
                    && offs[6] == offs[5] + targets.len(),
                kept_nodes(prev6, app_graph.nodes@),
                forall|i: int| 0 <= i < it.index() ==> from_item(
                    #[trigger] app_graph.nodes@[(offs[6] + 1 + i) as Id],
                    NodeType::Control(control_bound(controls[i], hardware.controls@)),
                ),
        {
            let ghost g0 = app_graph;
            let ghost n = (offs[6] + it.index()) as nat;
            let ghost item = control;
            let node = control.to_node(&mut app_graph, hardware);
            let ghost g1 = app_graph;
            let ghost nd = node;
            app_graph.insert_node(node);
            proof {
                lemma_grow(g0, g1, app_graph, nd, NodeType::Control(control_bound(item, hardware.controls@)), n);
                assert(config_item(cfg, *hardware, (n + 1) as int) == NodeType::Control(control_bound(item, hardware.controls@)));
                lemma_config_wired_grow(cfg, *hardware, g0.nodes@, app_graph.nodes@, nd, n);
            }
        }
        let ghost after6 = app_graph.nodes@;
        proof {
            assert forall|i: int| 0 <= i < fans.len() implies from_item(
                #[trigger] app_graph.nodes@[(offs[0] + 1 + i) as Id],
                NodeType::Fan(fan_bound(fans[i], hardware.fans@)),
            ) by {
                let k = (offs[0] + 1 + i) as Id;
                assert(after0.contains_key(k));
            }
            assert forall|i: int| 0 <= i < temps.len() implies from_item(
                #[trigger] app_graph.nodes@[(offs[1] + 1 + i) as Id],
                NodeType::Temp(temp_bound(temps[i], hardware.temps@)),
            ) by {
                let k = (offs[1] + 1 + i) as Id;
                assert(after1.contains_key(k));
            }
            assert forall|i: int| 0 <= i < custom_temps.len() implies from_item(
                #[trigger] app_graph.nodes@[(offs[2] + 1 + i) as Id],
                NodeType::CustomTemp(custom_temps[i]),
            ) by {
                let k = (offs[2] + 1 + i) as Id;
                assert(after2.contains_key(k));
            }
            assert forall|i: int| 0 <= i < flats.len() implies from_item(
                #[trigger] app_graph.nodes@[(offs[3] + 1 + i) as Id],
                NodeType::Flat(Flat { value: if flats[i].value > 100 { 50u16 } else { flats[i].value }, ..flats[i] }),
            ) by {
                let k = (offs[3] + 1 + i) as Id;
                assert(after3.contains_key(k));
            }
            assert forall|i: int| 0 <= i < linears.len() implies from_item(
                #[trigger] app_graph.nodes@[(offs[4] + 1 + i) as Id],
                NodeType::Linear(linear_fixed(linears[i])),
            ) by {
                let k = (offs[4] + 1 + i) as Id;
                assert(after4.contains_key(k));
            }
            assert forall|i: int| 0 <= i < targets.len() implies from_item(
                #[trigger] app_graph.nodes@[(offs[5] + 1 + i) as Id],
                NodeType::Target(target_fixed(targets[i])),
            ) by {
                let k = (offs[5] + 1 + i) as Id;
                assert(after5.contains_key(k));
            }
        }
        app_graph
    }

    /// The first of `Name 1`, `Name 2`, ... that no node has, where `Name`
    /// is `default_name`, the default name of the kind `node_type` in the
    /// language shown.
    pub fn generate_default_name(&self, node_type: NodeTypeLight, default_name: &str) -> (r: String)
        ensures
            first_unused(self.nodes@, default_name@, r@),
    {
        first_unused_name(&self.nodes, default_name)
    }

    /// A new node of kind `node_type_light` with default settings and the
    /// first free name numbered from `default_name`, the default name of the
    /// kind in the language shown. The node is not added to the graph.
    pub fn create_new_node(&mut self, node_type_light: NodeTypeLight, default_name: &str) -> (r: Node)
        requires
            old(self).id_generator.last_id() < u32::MAX,
        ensures
            exists|nt: NodeType|
                light_of(nt) == node_type_light && is_default_item(nt) && first_unused(
                    old(self).nodes@,
                    default_name@,
                    name_of(nt),
                ) && node_made(*old(self), *final(self), nt, r),
            old(self).wf() ==> insertable(*final(self), r),
    {
        let new_name = self.generate_default_name(node_type_light, default_name);
        let node_type = default_item(node_type_light, new_name);
        let ghost nt = node_type;
        let r = Node::new(node_type, self);
        proof {
            assert(curve_sorted(nt));
        }
        r
    }

    /// Finds the inputs of every node anew among the nodes of the graph, all
    /// of them read before any is changed.
    pub fn sanitize_inputs(&mut self, log: bool)
        requires
            ids_consistent(old(self).nodes@),
        ensures
            final(self).nodes@.dom() == old(self).nodes@.dom(),
            forall|k: Id| #[trigger] old(self).nodes@.contains_key(k) ==> inputs_sanitized(
                old(self).nodes@,
                old(self).nodes@[k],
                final(self).nodes@[k],
            ),
            final(self).id_generator == old(self).id_generator,
            final(self).root_nodes == old(self).root_nodes,
            old(self).wf() ==> final(self).wf(),
    {
        let ghost m0 = self.nodes@;
        let keys = keys_of(&self.nodes);
        let mut sanitizes: Vec<Sanitize> = Vec::new();
        let mut i: usize = 0;
        while i < keys.len()
            invariant
                i <= keys@.len(),
                self.nodes@ == m0,
                keys@.to_set() == m0.dom(),
                keys@.no_duplicates(),
                ids_consistent(m0),
                sanitizes@.len() == i,
                forall|j: int| 0 <= j < i ==> #[trigger] sanitize_spec(m0, m0[keys@[j]], sanitizes@[j]),
            decreases keys@.len() - i,
        {
            proof {
                assert(keys@.to_set().contains(keys@[i as int]));
            }
            let node = self.nodes.get(&keys[i]).unwrap();
            let s = node::sanitize_inputs(node, &self.nodes, log);
            sanitizes.push(s);
            i = i + 1;
        }
        let ghost sans = sanitizes@;
        for s in it: sanitizes.into_iter()
            invariant
                it.seq() == sans,
                sans.len() == keys@.len(),
                keys@.to_set() == m0.dom(),
                keys@.no_duplicates(),
                ids_consistent(m0),
                forall|j: int| 0 <= j < keys@.len() ==> #[trigger] sanitize_spec(m0, m0[keys@[j]], sans[j]),
                self.nodes@.dom() == m0.dom(),
                forall|j: int| it.index() <= j < keys@.len() ==> #[trigger] self.nodes@[keys@[j]] == m0[keys@[j]],
                forall|j: int| 0 <= j < it.index() ==> inputs_sanitized(m0, m0[keys@[j]], #[trigger] self.nodes@[keys@[j]]),
                self.id_generator == old(self).id_generator,
                self.root_nodes == old(self).root_nodes,
                m0 == old(self).nodes@,
        {
            let ghost j = it.index();
            let ghost k = keys@[j];
            proof {
                assert(keys@.to_set().contains(k));
                assert(sanitize_spec(m0, m0[k], s));
                assert(m0[k].id == k);
            }
            let node = node_mut(&mut self.nodes, s.id);
            let ghost before = *node;
            let ghost sv = s;
            node.set_inputs(s);
            proof {
                lemma_sanitized(m0, before, sv, self.nodes@[k]);
                assert forall|j2: int| 0 <= j2 < keys@.len() && j2 != j implies #[trigger] keys@[j2] != k by {}
            }
        }
        proof {
            assert forall|k: Id| #[trigger] m0.contains_key(k) implies inputs_sanitized(
                m0,
                m0[k],
                self.nodes@[k],
            ) by {
                assert(keys@.to_set().contains(k));
                let j = choose|j: int| 0 <= j < keys@.len() && keys@[j] == k;
                assert(inputs_sanitized(m0, m0[keys@[j]], self.nodes@[keys@[j]]));
            }
            if old(self).wf() {
                lemma_sanitize_keeps_wf(*old(self), *self);
            }
        }
    }

    /// The node with identifier `k`, which must be in the graph.
    pub fn get(&self, k: &Id) -> (r: &Node)
        requires
            self.nodes@.contains_key(*k),
        ensures
            *r == self.nodes@[*k],
    {
        self.nodes.get(k).unwrap()
    }

    /// The node with identifier `k`, which must be in the graph, to change in place.
    pub fn get_mut(&mut self, k: &Id) -> (r: &mut Node)
        requires
            old(self).nodes@.contains_key(*k),
        ensures
            *r == old(self).nodes@[*k],
            final(self).nodes@ == old(self).nodes@.insert(*k, *final(r)),
            final(self).id_generator == old(self).id_generator,
            final(self).root_nodes == old(self).root_nodes,
    {
        node_mut(&mut self.nodes, *k)
    }

    /// True when some node is named `name`.
    pub fn is_name_taken(&self, name: &String) -> (r: bool)
        ensures
            r == name_taken(self.nodes@, name@),
    {
        match find_by_name(&self.nodes, name) {
            Some(_) => true,
            None => false,
        }
    }

    /// The first of `name 1`, `name 2`, ... that no node has.
    pub fn generate_new_name(&self, name: &String) -> (r: String)
        ensures
            first_unused(self.nodes@, name@, r@),
    {
        first_unused_name(&self.nodes, name.as_str())
    }

    /// Adds a node, and lists it among the roots when it is a control.
    pub fn insert_node(&mut self, node: Node)
        ensures
            final(self).nodes@ == old(self).nodes@.insert(node.id, node),
            final(self).root_nodes@ == (if light_of(node.node_type) == NodeTypeLight::Control {
                old(self).root_nodes@.push(node.id)
            } else {
                old(self).root_nodes@
            }),
            final(self).id_generator == old(self).id_generator,
            old(self).wf() && insertable(*old(self), node) ==> final(self).wf(),
    {
        if node.is_root() {
            self.root_nodes.push(node.id);
        }
        let ghost g0 = *old(self);
        let ghost n = node;
        self.nodes.insert(node.id, node);
        proof {
            if g0.wf() && insertable(g0, n) {
                lemma_insert_keeps_wf(g0, n, *self);
            }
        }
    }

    /// Removes a node, and its identifier from the roots.
    pub fn remove_node(&mut self, id: Id) -> (r: Option<Node>)
        ensures
            r == (if old(self).nodes@.contains_key(id) {
                Some(old(self).nodes@[id])
            } else {
                None::<Node>
            }),
            final(self).nodes@ == old(self).nodes@.remove(id),
            final(self).id_generator == old(self).id_generator,
            old(self).wf() ==> final(self).wf(),
            r is Some && light_of(r->Some_0.node_type) == NodeTypeLight::Control && old(self).root_nodes@.contains(id)
                ==> exists|i: int|
                0 <= i < old(self).root_nodes@.len() && old(self).root_nodes@[i] == id && (forall|j: int|
                    0 <= j < i ==> old(self).root_nodes@[j] != id) && final(self).root_nodes@ == old(self).root_nodes@.remove(i),
            !(r is Some && light_of(r->Some_0.node_type) == NodeTypeLight::Control && old(self).root_nodes@.contains(id))
                ==> final(self).root_nodes@ == old(self).root_nodes@,
            old(self).wf() && r is Some && light_of(r->Some_0.node_type) == NodeTypeLight::Control ==> old(
                self,
            ).root_nodes@.contains(id),
    {
        let node = self.nodes.remove(&id);
        let ghost g0 = *old(self);
        if let Some(n) = &node {
            if n.is_root() {
                let target = id;
                let same = |e: &Id| -> (b: bool)
                    ensures
                        b == (*e == target),
                    { *e == target };
                let ghost r0 = self.root_nodes@;
                let removed = self.root_nodes.remove_elem(same);
                proof {
                    if removed is None && r0.contains(id) {
                        let j = choose|j: int| 0 <= j < r0.len() && r0[j] == id;
                        assert(same.ensures((&r0[j],), false));
                    }
                    if let Some(e) = removed {
                        let i = choose|i: int|
                            0 <= i < r0.len() && r0[i] == e && same.ensures((&r0[i],), true)
                                && (forall|j: int| 0 <= j < i ==> same.ensures((&r0[j],), false))
                                && self.root_nodes@ == r0.remove(i);
                        assert(r0.contains(id));
                        assert forall|j: int| 0 <= j < i implies r0[j] != id by {
                            assert(same.ensures((&r0[j],), false));
                        }
                    }
                    if g0.wf() {
                        assert(g0.nodes@[id] == *n);
                        assert(r0.contains(id));
                        let j = choose|j: int| 0 <= j < r0.len() && r0[j] == id;
                        if removed is None {
                            assert(same.ensures((&r0[j],), false));
                            assert(false);
                        } else {
                            let i = choose|i: int|
                                0 <= i < r0.len() && r0[i] == removed->Some_0 && same.ensures((&r0[i],), true)
                                    && self.root_nodes@ == r0.remove(i);
                            assert(r0[i] == id);
                        }
                    }
                }
            }
        }
        proof {
            if g0.wf() {
                lemma_remove_keeps_wf(g0, id, *self);
            }
        }
        node
    }
}

proof fn lemma_insert_keeps_wf(g0: AppGraph, n: Node, g1: AppGraph)
    requires
        g0.wf(),
        insertable(g0, n),
        g1.nodes@ == g0.nodes@.insert(n.id, n),
        g1.root_nodes@ == (if light_of(n.node_type) == NodeTypeLight::Control {
            g0.root_nodes@.push(n.id)
        } else {
            g0.root_nodes@
        }),
        g1.id_generator == g0.id_generator,
    ensures
        g1.wf(),
{
    let m0 = g0.nodes@;
    let m1 = g1.nodes@;
    assert forall|k: Id| m1.contains_key(k) implies #[trigger] m1[k].id == k by {
        if k != n.id {
            assert(m1[k] == m0[k]);
        }
    }
    assert forall|a: Id, b: Id|
        m1.contains_key(a) && m1.contains_key(b) && node_name(m1[a]) == node_name(m1[b]) implies a
        == b by {
        if a != n.id && b == n.id {
            assert(name_taken(m0, node_name(n)));
        } else if a == n.id && b != n.id {
            assert(name_taken(m0, node_name(n)));
        }
    }
    assert forall|k: Id, i: int|
        m1.contains_key(k) && 0 <= i < m1[k].inputs@.len() && m1.contains_key(
            #[trigger] m1[k].inputs@[i].id,
        ) implies level(light_of(m1[m1[k].inputs@[i].id].node_type)) < level(
        light_of(m1[k].node_type),
    ) by {
        if k == n.id {
            assert(m1[k] == n);
            assert(input_resolved(m0, n.node_type, n.inputs@[i]));
            let k2 = choose|k2: Id|
                resolves(m0, n.node_type, n.inputs@[i].name@, k2) && m0[k2].id == n.inputs@[i].id;
            assert(m0[k2].id == k2);
            assert(k2 != n.id);
            assert(m1[k2] == m0[k2]);
            lemma_allowed_lowers_level(light_of(n.node_type), light_of(m0[k2].node_type));
        } else {
            assert(m1[k] == m0[k]);
            assert(m0[k].inputs@[i].id != n.id);
            assert(m0.contains_key(m0[k].inputs@[i].id));
            assert(m1[m0[k].inputs@[i].id] == m0[m0[k].inputs@[i].id]);
        }
    }
    assert forall|k: Id| m1.contains_key(k) implies match #[trigger] m1[k].node_type {
        NodeType::Graph(c) => strictly_sorted(c.coords@),
        _ => true,
    } by {
        if k != n.id {
            assert(m1[k] == m0[k]);
        }
    }
    assert forall|k: Id| #[trigger] m1.contains_key(k) implies input_names(m1[k].node_type) == kept_inputs(
        light_of(m1[k].node_type),
        input_view(m1[k].inputs@),
    ) by {
        if k != n.id {
            assert(m0.contains_key(k));
            assert(m1[k] == m0[k]);
        }
    }
    assert forall|k: Id, i: int|
        m1.contains_key(k) && 0 <= i < m1[k].inputs@.len() implies #[trigger] m1[k].inputs@[i].id
        <= g1.id_generator.last_id() by {
        if k != n.id {
            assert(m1[k] == m0[k]);
        } else {
            assert(input_resolved(m0, n.node_type, n.inputs@[i]));
            let k2 = choose|k2: Id|
                resolves(m0, n.node_type, n.inputs@[i].name@, k2) && m0[k2].id == n.inputs@[i].id;
            assert(m0[k2].id == k2);
        }
    }
    assert forall|k: Id|
        #[trigger] g1.root_nodes@.contains(k) <==> m1.contains_key(k) && light_of(
            m1[k].node_type,
        ) == NodeTypeLight::Control by {
        if k != n.id {
            if m1.contains_key(k) {
                assert(m1[k] == m0[k]);
            }
            if light_of(n.node_type) == NodeTypeLight::Control && g1.root_nodes@.contains(k) {
                let j = choose|j: int| 0 <= j < g1.root_nodes@.len() && g1.root_nodes@[j] == k;
                assert(g0.root_nodes@[j] == k);
            }
            if light_of(n.node_type) == NodeTypeLight::Control && g0.root_nodes@.contains(k) {
                let j = choose|j: int| 0 <= j < g0.root_nodes@.len() && g0.root_nodes@[j] == k;
                assert(g1.root_nodes@[j] == k);
            }
        } else {
            if light_of(n.node_type) == NodeTypeLight::Control {
                assert(g1.root_nodes@.last() == k);
            } else {
                assert(!g0.root_nodes@.contains(k));
            }
        }
    }
    if light_of(n.node_type) == NodeTypeLight::Control {
        assert(!g0.root_nodes@.contains(n.id));
        assert forall|a: int, b: int|
            0 <= a < b < g1.root_nodes@.len() implies g1.root_nodes@[a] != g1.root_nodes@[b] by {
            if b == g1.root_nodes@.len() - 1 {
                assert(g0.root_nodes@.contains(g0.root_nodes@[a]));
            }
        }
    }
}

proof fn lemma_sanitize_keeps_wf(g0: AppGraph, g1: AppGraph)
    requires
        g0.wf(),
        g1.nodes@.dom() == g0.nodes@.dom(),
        forall|k: Id| #[trigger] g0.nodes@.contains_key(k) ==> inputs_sanitized(
            g0.nodes@,
            g0.nodes@[k],
            g1.nodes@[k],
        ),
        g1.id_generator == g0.id_generator,
        g1.root_nodes == g0.root_nodes,
    ensures
        g1.wf(),
{
    let m0 = g0.nodes@;
    let m1 = g1.nodes@;
    assert forall|k: Id| m1.contains_key(k) implies #[trigger] m1[k].id == k by {
        assert(m0.contains_key(k));
    }
    assert forall|k: Id| m1.contains_key(k) implies node_name(#[trigger] m1[k]) == node_name(m0[k])
        && light_of(m1[k].node_type) == light_of(m0[k].node_type) && curve_sorted(m1[k].node_type)
        == curve_sorted(m0[k].node_type) by {
        assert(m0.contains_key(k));
        lemma_same_but_inputs_keeps(m0[k].node_type, m1[k].node_type);
    }
    assert forall|a: Id, b: Id|
        m1.contains_key(a) && m1.contains_key(b) && node_name(m1[a]) == node_name(m1[b]) implies a
        == b by {
        assert(node_name(m1[a]) == node_name(m0[a]));
        assert(node_name(m1[b]) == node_name(m0[b]));
    }
    assert forall|k: Id, i: int|
        m1.contains_key(k) && 0 <= i < m1[k].inputs@.len() implies #[trigger] m1[k].inputs@[i].id
        <= g1.id_generator.last_id() && m1.contains_key(m1[k].inputs@[i].id) && level(
        light_of(m1[m1[k].inputs@[i].id].node_type),
    ) < level(light_of(m1[k].node_type)) by {
        assert(m0.contains_key(k));
        assert(inputs_sanitized(m0, m0[k], m1[k]));
        assert(input_resolved(m0, m1[k].node_type, m1[k].inputs@[i]));
        let k2 = choose|k2: Id|
            resolves(m0, m1[k].node_type, m1[k].inputs@[i].name@, k2) && m0[k2].id == m1[k].inputs@[i].id;
        assert(m0[k2].id == k2);
        assert(light_of(m1[k2].node_type) == light_of(m0[k2].node_type));
        lemma_allowed_lowers_level(light_of(m1[k].node_type), light_of(m0[k2].node_type));
    }
    assert forall|k: Id| m1.contains_key(k) implies match #[trigger] m1[k].node_type {
        NodeType::Graph(c) => strictly_sorted(c.coords@),
        _ => true,
    } by {
        assert(m0.contains_key(k));
        assert(curve_sorted(m1[k].node_type) == curve_sorted(m0[k].node_type));
    }
    assert forall|k: Id| #[trigger] m1.contains_key(k) implies input_names(m1[k].node_type) == kept_inputs(
        light_of(m1[k].node_type),
        input_view(m1[k].inputs@),
    ) by {
        assert(m0.contains_key(k));
        assert(inputs_sanitized(m0, m0[k], m1[k]));
    }
    assert forall|k: Id|
        #[trigger] g1.root_nodes@.contains(k) <==> m1.contains_key(k) && light_of(
            m1[k].node_type,
        ) == NodeTypeLight::Control by {
        if m1.contains_key(k) {
            assert(light_of(m1[k].node_type) == light_of(m0[k].node_type));
        }
    }
}

proof fn lemma_remove_keeps_wf(g0: AppGraph, id: Id, g1: AppGraph)
    requires
        g0.wf(),
        g1.nodes@ == g0.nodes@.remove(id),
        g1.id_generator == g0.id_generator,
        g0.nodes@.contains_key(id) && light_of(g0.nodes@[id].node_type) == NodeTypeLight::Control
            ==> exists|i: int|
            0 <= i < g0.root_nodes@.len() && g0.root_nodes@[i] == id && g1.root_nodes@
                == g0.root_nodes@.remove(i),
        !(g0.nodes@.contains_key(id) && light_of(g0.nodes@[id].node_type)
            == NodeTypeLight::Control) ==> g1.root_nodes@ == g0.root_nodes@,
    ensures
        g1.wf(),
{
    let m0 = g0.nodes@;
    let m1 = g1.nodes@;
    assert forall|k: Id| m1.contains_key(k) implies #[trigger] m1[k].id == k by {
        assert(m1[k] == m0[k]);
    }
    assert forall|a: Id, b: Id|
        m1.contains_key(a) && m1.contains_key(b) && node_name(m1[a]) == node_name(m1[b]) implies a
        == b by {
        assert(m1[a] == m0[a]);
        assert(m1[b] == m0[b]);
    }
    assert forall|k: Id, i: int|
        m1.contains_key(k) && 0 <= i < m1[k].inputs@.len() && m1.contains_key(
            #[trigger] m1[k].inputs@[i].id,
        ) implies level(light_of(m1[m1[k].inputs@[i].id].node_type)) < level(
        light_of(m1[k].node_type),
    ) by {
        assert(m1[k] == m0[k]);
        assert(m0.contains_key(m0[k].inputs@[i].id));
    }
    assert forall|k: Id| m1.contains_key(k) implies match #[trigger] m1[k].node_type {
        NodeType::Graph(c) => strictly_sorted(c.coords@),
        _ => true,
    } by {
        assert(m1[k] == m0[k]);
    }
    assert forall|k: Id| #[trigger] m1.contains_key(k) implies input_names(m1[k].node_type) == kept_inputs(
        light_of(m1[k].node_type),
        input_view(m1[k].inputs@),
    ) by {
        assert(m0.contains_key(k));
        assert(m1[k] == m0[k]);
    }
    assert forall|k: Id, i: int|
        m1.contains_key(k) && 0 <= i < m1[k].inputs@.len() implies #[trigger] m1[k].inputs@[i].id
        <= g1.id_generator.last_id() by {
        assert(m1[k] == m0[k]);
    }
    let r0 = g0.root_nodes@;
    let r1 = g1.root_nodes@;
    if m0.contains_key(id) && light_of(m0[id].node_type) == NodeTypeLight::Control {
        let i = choose|i: int| 0 <= i < r0.len() && r0[i] == id && r1 == r0.remove(i);
        assert forall|a: int, b: int| 0 <= a < b < r1.len() implies r1[a] != r1[b] by {
            let a0 = if a < i { a } else { a + 1 };
            let b0 = if b < i { b } else { b + 1 };
            assert(r1[a] == r0[a0]);
            assert(r1[b] == r0[b0]);
        }
        assert forall|k: Id| #[trigger] r1.contains(k) <==> r0.contains(k) && k != id by {
            if r1.contains(k) {
                let j = choose|j: int| 0 <= j < r1.len() && r1[j] == k;
                let j0 = if j < i { j } else { j + 1 };
                assert(r0[j0] == k);
                assert(j0 != i);
            }
            if r0.contains(k) && k != id {
                let j0 = choose|j: int| 0 <= j < r0.len() && r0[j] == k;
                if j0 < i {
                    assert(r1[j0] == k);
                } else {
                    assert(j0 != i);
                    assert(r1[j0 - 1] == k);
                }
            }
        }
    } else {
        assert(!r0.contains(id));
    }
    assert forall|k: Id|
        #[trigger] r1.contains(k) <==> m1.contains_key(k) && light_of(
            m1[k].node_type,
        ) == NodeTypeLight::Control by {
        if m1.contains_key(k) {
            assert(m1[k] == m0[k]);
        }
    }
}

/// The node of `nodes` under `k`, which must be there, to change in place.
pub fn node_mut(nodes: &mut Nodes, k: Id) -> (r: &mut Node)
    requires
        old(nodes)@.contains_key(k),
    ensures
        *r == old(nodes)@[k],
        final(nodes)@ == old(nodes)@.insert(k, *final(r)),
{
    match nodes.entry(k) {
        Entry::Occupied(e) => e.into_mut(),
        Entry::Vacant(_) => vstd::pervasive::unreached(),
    }
}

/// The first of `base 1`, `base 2`, ... that no node of `nodes` has.
pub fn first_unused_name(nodes: &Nodes, base: &str) -> (r: String)
    ensures
        first_unused(nodes@, base@, r@),
{
    let keys = keys_of(nodes);
    let ghost names = keys@.map_values(|k: Id| node_name(nodes@[k]));
    let ghost taken_names = names.to_set();
    let ghost mut seen: Set<Seq<char>> = Set::empty();
    let mut i: u128 = 1;
    let klen = keys.len();
    proof {
        names.lemma_cardinality_of_set();
        vstd::seq_lib::seq_to_set_is_finite(names);
        assert forall|nm: Seq<char>| name_taken(nodes@, nm) implies taken_names.contains(nm) by {
            let k = choose|k: Id| nodes@.contains_key(k) && node_name(nodes@[k]) == nm;
            assert(keys@.to_set().contains(k));
            let j = choose|j: int| 0 <= j < keys@.len() && keys@[j] == k;
            assert(names[j] == nm);
        }
    }
    let mut prefix = concat(base, " ");
    proof {
        reveal_strlit(" ");
    }
    loop
        invariant
            i >= 1,
            klen == keys@.len(),
            prefix@ == base@ + seq![' '],
            taken_names.finite(),
            taken_names.len() <= keys@.len(),
            forall|nm: Seq<char>| name_taken(nodes@, nm) ==> taken_names.contains(nm),
            seen.finite(),
            seen.subset_of(taken_names),
            seen.len() == i - 1,
            forall|j: nat| 1 <= j < i ==> name_taken(nodes@, #[trigger] numbered_name(base@, j)),
            forall|j: nat| 1 <= j < i ==> seen.contains(#[trigger] numbered_name(base@, j)),
            forall|nm: Seq<char>| seen.contains(nm) ==> exists|j: nat| 1 <= j < i && nm == numbered_name(base@, j),
        decreases keys@.len() + 1 - i,
    {
        let digits = u128_to_decimal(i);
        let candidate = concat(prefix.as_str(), digits.as_str());
        proof {
            assert(candidate@ =~= numbered_name(base@, i as nat));
        }
        let taken = match find_by_name(nodes, &candidate) {
            Some(_) => true,
            None => false,
        };
        if !taken {
            return candidate;
        }
        proof {
            let nm = numbered_name(base@, i as nat);
            if seen.contains(nm) {
                let j = choose|j: nat| 1 <= j < i && nm == numbered_name(base@, j);
                lemma_numbered_name_injective(base@, i as nat, j);
            }
            seen = seen.insert(nm);
            vstd::set_lib::lemma_len_subset(seen, taken_names);
            assert(seen.len() == i);
            assert(i <= keys@.len());
            assert forall|nm2: Seq<char>| seen.contains(nm2) implies exists|j: nat| 1 <= j < i + 1 && nm2 == numbered_name(base@, j) by {
                if nm2 != nm {
                    let j = choose|j: nat| 1 <= j < i && nm2 == numbered_name(base@, j);
                }
            }
        }
        i = i + 1;
    }
}

} // verus!
