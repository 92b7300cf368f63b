//! The nodes of the graph: a configuration item with its resolved inputs and
//! its last value.
use vstd::prelude::*;
use std::cmp::Ordering;
use crate::app_graph::{first_unused, input_resolved, inputs_found, insertable, name_taken, AppGraph, Nodes};
use crate::config::control::Control;
use crate::config::custom_temp::{CustomTemp, CustomTempKind};
use crate::config::fan::Fan;
use crate::config::flat::Flat;
use crate::config::graph::{Coord, Graph};
use crate::config::linear::Linear;
use crate::config::target::Target;
use crate::config::temp::Temp;
use crate::hardware::{Hardware, Value};
use crate::id::Id;
use crate::text::{clone_strings, concat, i32_to_decimal, is_blank, signed_decimal, trims_to_empty};
use crate::utils::keys_of;

verus! {

broadcast use vstd::std_specs::hash::group_hash_axioms;

/// The item that a node holds.
pub enum NodeType {
    Control(Control),
    Fan(Fan),
    Temp(Temp),
    CustomTemp(CustomTemp),
    Graph(Graph),
    Flat(Flat),
    Linear(Linear),
    Target(Target),
}

/// The kind of a node, without its item.
#[derive(Clone, Copy, PartialEq, Eq, Structural, Debug)]
pub enum NodeTypeLight {
    Control,
    Fan,
    Temp,
    CustomTemp,
    Graph,
    Flat,
    Linear,
    Target,
}

/// An input of a node: the identifier and the name of the node it reads.
pub struct Input {
    pub id: Id,
    pub name: String,
}

/// A node of the graph.
pub struct Node {
    pub id: Id,
    pub node_type: NodeType,
    pub inputs: Vec<Input>,
    pub value: Option<Value>,
}

/// How many inputs a kind of node reads.
#[derive(Clone, Copy, PartialEq, Eq, Structural)]
pub enum NbInput {
    Zero,
    One,
    Infinity,
}

/// The inputs of a node as found in the graph: the nodes, and their names.
pub struct Sanitize {
    pub id: Id,
    pub node: Vec<Input>,
    pub item: Vec<String>,
}

/// The unit in which a value is shown.
pub enum ValueKind {
    Celsius,
    Porcentage,
    RPM,
}

pub open spec fn light_of(nt: NodeType) -> NodeTypeLight {
    match nt {
        NodeType::Control(_) => NodeTypeLight::Control,
        NodeType::Fan(_) => NodeTypeLight::Fan,
        NodeType::Temp(_) => NodeTypeLight::Temp,
        NodeType::CustomTemp(_) => NodeTypeLight::CustomTemp,
        NodeType::Graph(_) => NodeTypeLight::Graph,
        NodeType::Flat(_) => NodeTypeLight::Flat,
        NodeType::Linear(_) => NodeTypeLight::Linear,
        NodeType::Target(_) => NodeTypeLight::Target,
    }
}

pub open spec fn name_of(nt: NodeType) -> Seq<char> {
    match nt {
        NodeType::Control(i) => i.name@,
        NodeType::Fan(i) => i.name@,
        NodeType::Temp(i) => i.name@,
        NodeType::CustomTemp(i) => i.name@,
        NodeType::Graph(i) => i.name@,
        NodeType::Flat(i) => i.name@,
        NodeType::Linear(i) => i.name@,
        NodeType::Target(i) => i.name@,
    }
}

pub open spec fn node_name(n: Node) -> Seq<char> {
    name_of(n.node_type)
}

pub open spec fn option_names(o: Option<String>) -> Seq<Seq<char>> {
    match o {
        Some(s) => seq![s@],
        None => Seq::empty(),
    }
}

pub open spec fn string_views(v: Seq<String>) -> Seq<Seq<char>> {
    v.map_values(|s: String| s@)
}

/// The names of the nodes that an item reads.
pub open spec fn input_names(nt: NodeType) -> Seq<Seq<char>> {
    match nt {
        NodeType::Control(i) => option_names(i.input),
        NodeType::CustomTemp(i) => string_views(i.inputs@),
        NodeType::Graph(i) => option_names(i.input),
        NodeType::Linear(i) => option_names(i.input),
        NodeType::Target(i) => option_names(i.input),
        _ => Seq::empty(),
    }
}

/// The kinds of node that a kind of node may read.
pub open spec fn allowed(node: NodeTypeLight, dep: NodeTypeLight) -> bool {
    match node {
        NodeTypeLight::Control => dep == NodeTypeLight::Flat || dep == NodeTypeLight::Graph || dep
            == NodeTypeLight::Target || dep == NodeTypeLight::Linear,
        NodeTypeLight::CustomTemp => dep == NodeTypeLight::Temp,
        NodeTypeLight::Graph | NodeTypeLight::Linear | NodeTypeLight::Target => dep
            == NodeTypeLight::Temp || dep == NodeTypeLight::CustomTemp,
        _ => false,
    }
}

pub open spec fn max_input_of(l: NodeTypeLight) -> NbInput {
    match l {
        NodeTypeLight::Control | NodeTypeLight::Graph | NodeTypeLight::Linear
        | NodeTypeLight::Target => NbInput::One,
        NodeTypeLight::CustomTemp => NbInput::Infinity,
        _ => NbInput::Zero,
    }
}

/// The rank of a kind of node in the order of evaluation: sensors first,
/// then custom temperatures, then behaviors, then controls.
pub open spec fn level(l: NodeTypeLight) -> nat {
    match l {
        NodeTypeLight::Fan | NodeTypeLight::Temp => 0,
        NodeTypeLight::CustomTemp => 1,
        NodeTypeLight::Control => 3,
        _ => 2,
    }
}

/// What `compare_update_priority` answers for two kinds of node.
pub open spec fn priority_order(a: NodeTypeLight, b: NodeTypeLight) -> Ordering {
    let sensor_b = b == NodeTypeLight::Fan || b == NodeTypeLight::Temp;
    match a {
        NodeTypeLight::Control => if b == NodeTypeLight::Control {
            Ordering::Equal
        } else {
            Ordering::Greater
        },
        NodeTypeLight::Fan | NodeTypeLight::Temp => if sensor_b {
            Ordering::Equal
        } else {
            Ordering::Less
        },
        NodeTypeLight::CustomTemp => if b == NodeTypeLight::CustomTemp {
            Ordering::Equal
        } else if sensor_b {
            Ordering::Greater
        } else {
            Ordering::Less
        },
        NodeTypeLight::Flat => Ordering::Equal,
        _ => if b == NodeTypeLight::Control {
            Ordering::Less
        } else if sensor_b || b == NodeTypeLight::CustomTemp {
            Ordering::Greater
        } else {
            Ordering::Equal
        },
    }
}

/// Whether the item of a node can run.
pub open spec fn type_valid(nt: NodeType) -> bool {
    match nt {
        NodeType::Control(i) => i.active && i.hardware_id.is_some() && i.control_h.is_some()
            && i.input.is_some(),
        NodeType::Fan(i) => i.hardware_id.is_some() && i.fan_h.is_some(),
        NodeType::Temp(i) => i.hardware_id.is_some() && i.temp_h.is_some(),
        NodeType::CustomTemp(i) => i.inputs@.len() > 0,
        NodeType::Graph(i) => i.input.is_some() && i.coords@.len() > 0,
        NodeType::Flat(_) => true,
        NodeType::Linear(i) => i.input.is_some(),
        NodeType::Target(i) => i.input.is_some(),
    }
}

/// `b` is `a` with another name.
pub open spec fn same_but_name(a: NodeType, b: NodeType) -> bool {
    match (a, b) {
        (NodeType::Control(x), NodeType::Control(y)) => Control { name: y.name, ..x } == y,
        (NodeType::Fan(x), NodeType::Fan(y)) => Fan { name: y.name, ..x } == y,
        (NodeType::Temp(x), NodeType::Temp(y)) => Temp { name: y.name, ..x } == y,
        (NodeType::CustomTemp(x), NodeType::CustomTemp(y)) => CustomTemp { name: y.name, ..x } == y,
        (NodeType::Graph(x), NodeType::Graph(y)) => Graph { name: y.name, ..x } == y,
        (NodeType::Flat(x), NodeType::Flat(y)) => Flat { name: y.name, ..x } == y,
        (NodeType::Linear(x), NodeType::Linear(y)) => Linear { name: y.name, ..x } == y,
        (NodeType::Target(x), NodeType::Target(y)) => Target { name: y.name, ..x } == y,
        _ => false,
    }
}

/// `b` is `a` with other inputs.
pub open spec fn same_but_inputs(a: NodeType, b: NodeType) -> bool {
    match (a, b) {
        (NodeType::Control(x), NodeType::Control(y)) => Control { input: y.input, ..x } == y,
        (NodeType::Fan(x), NodeType::Fan(y)) => x == y,
        (NodeType::Temp(x), NodeType::Temp(y)) => x == y,
        (NodeType::CustomTemp(x), NodeType::CustomTemp(y)) => CustomTemp { inputs: y.inputs, ..x } == y,
        (NodeType::Graph(x), NodeType::Graph(y)) => Graph { input: y.input, ..x } == y,
        (NodeType::Flat(x), NodeType::Flat(y)) => x == y,
        (NodeType::Linear(x), NodeType::Linear(y)) => Linear { input: y.input, ..x } == y,
        (NodeType::Target(x), NodeType::Target(y)) => Target { input: y.input, ..x } == y,
        _ => false,
    }
}

/// The inputs that an item keeps when it is given `names`: the first one for
/// an item with one input, all of them for a custom temperature, none for a
/// sensor or a flat behavior.
pub open spec fn kept_inputs(l: NodeTypeLight, names: Seq<Seq<char>>) -> Seq<Seq<char>> {
    match max_input_of(l) {
        NbInput::Zero => Seq::empty(),
        NbInput::One => if names.len() > 0 {
            seq![names[0]]
        } else {
            Seq::empty()
        },
        NbInput::Infinity => names,
    }
}

/// The node at key `k` of `nodes` can feed an item of kind `nt` through the name `name`.
pub open spec fn resolves(nodes: Map<Id, Node>, nt: NodeType, name: Seq<char>, k: Id) -> bool {
    &&& nodes.contains_key(k)
    &&& node_name(nodes[k]) == name
    &&& allowed(light_of(nt), light_of(nodes[k].node_type))
}

/// Some node of `nodes` can feed an item of kind `nt` through the name `name`.
pub open spec fn name_resolvable(nodes: Map<Id, Node>, nt: NodeType, name: Seq<char>) -> bool {
    exists|id: Id| resolves(nodes, nt, name, id)
}

/// The names, in order, through which some node can feed an item of kind `nt`.
pub open spec fn resolved_names(nodes: Map<Id, Node>, nt: NodeType, names: Seq<Seq<char>>) -> Seq<
    Seq<char>,
>
    decreases names.len(),
{
    if names.len() == 0 {
        Seq::empty()
    } else {
        let rest = resolved_names(nodes, nt, names.drop_last());
        if name_resolvable(nodes, nt, names.last()) {
            rest.push(names.last())
        } else {
            rest
        }
    }
}

/// No two nodes share a name.
pub open spec fn names_unique(nodes: Map<Id, Node>) -> bool {
    forall|a: Id, b: Id|
        nodes.contains_key(a) && nodes.contains_key(b) && node_name(nodes[a]) == node_name(nodes[b])
            ==> a == b
}

/// The inputs of a node are too many for its kind.
pub open spec fn too_many_inputs(node: Node) -> bool {
    max_input_of(light_of(node.node_type)) == NbInput::One && (node.inputs@.len() > 1 || input_names(
        node.node_type,
    ).len() > 1)
}

/// `s` lists, in the same order, nodes of `nodes` that can feed `nt` and their names.
pub open spec fn sanitize_sound(nodes: Map<Id, Node>, nt: NodeType, s: Sanitize) -> bool {
    &&& s.node@.len() == s.item@.len()
    &&& forall|i: int|
        0 <= i < s.node@.len() ==> #[trigger] entry_found(nodes, nt, s.node@[i], s.item@[i])
}

/// `input` is a node of `nodes` that can feed `nt`, found under the name `item`.
pub open spec fn entry_found(nodes: Map<Id, Node>, nt: NodeType, input: Input, item: String) -> bool {
    &&& input.name@ == item@
    &&& exists|k: Id| resolves(nodes, nt, item@, k) && nodes[k].id == input.id
}

/// What a node is displayed with.
pub open spec fn value_label(value: Option<Value>, kind: ValueKind) -> Seq<char> {
    match value {
        Some(v) => match kind {
            ValueKind::Celsius => signed_decimal(v as int) + "°C"@,
            ValueKind::Porcentage => signed_decimal(v as int) + "%"@,
            ValueKind::RPM => signed_decimal(v as int) + " RPM"@,
        },
        None => "No value"@,
    }
}

impl Sanitize {
    fn new(id: Id) -> (r: Self)
        ensures
            r.id == id,
            r.node@.len() == 0,
            r.item@.len() == 0,
    {
        Sanitize { id, item: Vec::new(), node: Vec::new() }
    }

    fn add(&mut self, id: Id, name: &str)
        ensures
            final(self).id == old(self).id,
            final(self).item@ == old(self).item@.push(final(self).item@.last()),
            final(self).item@.last()@ == name@,
            final(self).node@ == old(self).node@.push(final(self).node@.last()),
            final(self).node@.last().id == id,
            final(self).node@.last().name@ == name@,
    {
        self.item.push(String::from_str(name));
        let input = Input { id, name: String::from_str(name) };
        self.node.push(input);
    }
}

/// Finds a node of `nodes` named `name`, in the order in which the map yields them.
pub fn find_by_name(nodes: &Nodes, name: &String) -> (r: Option<Id>)
    ensures
        match r {
            Some(k) => nodes@.contains_key(k) && node_name(nodes@[k]) == name@,
            None => forall|k: Id| nodes@.contains_key(k) ==> node_name(nodes@[k]) != name@,
        },
{
    let keys = keys_of(nodes);
    let mut i: usize = 0;
    while i < keys.len()
        invariant
            i <= keys@.len(),
            keys@.to_set() == nodes@.dom(),
            forall|j: int| 0 <= j < i ==> node_name(nodes@[#[trigger] keys@[j]]) != name@,
        decreases keys@.len() - i,
    {
        let k = keys[i];
        proof {
            assert(keys@.to_set().contains(k));
        }
        let n = nodes.get(&k).unwrap();
        if *n.name() == *name {
            return Some(k);
        }
        i = i + 1;
    }
    proof {
        assert forall|k: Id| nodes@.contains_key(k) implies node_name(nodes@[k]) != name@ by {
            assert(keys@.to_set().contains(k));
            let j = choose|j: int| 0 <= j < keys@.len() && keys@[j] == k;
        }
    }
    None
}

/// The inputs of `node` as found in `nodes`: each name of the item that names
/// a node whose kind the item may read. A node of a one-input kind with more
/// than one input gets none.
pub fn sanitize_inputs(node: &Node, nodes: &Nodes, log: bool) -> (r: Sanitize)
    ensures
        sanitize_spec(nodes@, *node, r),
{
    let mut sanitize = Sanitize::new(node.id);
    proof {
        assert(picks(Seq::empty(), string_views(sanitize.item@), input_names(node.node_type)));
    }
    match node.node_type.max_input() {
        NbInput::Zero => {
            return sanitize;
        },
        NbInput::One => {
            if node.inputs.len() > 1 || node.node_type.get_inputs().len() > 1 {
                return sanitize;
            }
        },
        NbInput::Infinity => {},
    }
    let ghost mut idx: Seq<int> = Seq::empty();
    let names = node.node_type.get_inputs();
    let allowed_dep = node.node_type.allowed_dep();
    let ghost nt = node.node_type;
    let mut i: usize = 0;
    while i < names.len()
        invariant
            i <= names@.len(),
            string_views(names@) == input_names(nt),
            nt == node.node_type,
            sanitize.id == node.id,
            sanitize_sound(nodes@, nt, sanitize),
            sanitize.item@.len() <= i,
            forall|l: NodeTypeLight| allowed_dep@.contains(l) <==> allowed(light_of(nt), l),
            names_unique(nodes@) ==> string_views(sanitize.item@) == resolved_names(
                nodes@,
                nt,
                string_views(names@).take(i as int),
            ),
            picks(idx, string_views(sanitize.item@), string_views(names@)),
            forall|k: int| 0 <= k < idx.len() ==> #[trigger] idx[k] < i,
        decreases names@.len() - i,
    {
        let ghost before = sanitize;
        let name = &names[i];
        proof {
            assert(string_views(names@).take(i + 1).drop_last() =~= string_views(names@).take(i as int));
            assert(string_views(names@).take(i + 1).last() == name@);
        }
        match find_by_name(nodes, name) {
            Some(k) => {
                let n = nodes.get(&k).unwrap();
                proof {
                    assert(*n == nodes@[k]);
                }
                let l = n.node_type.to_light();
                if contains_light(&allowed_dep, l) {
                    sanitize.add(n.id, name.as_str());
                    proof {
                        let idx0 = idx;
                        idx = idx.push(i as int);
                        assert(string_views(names@)[i as int] == name@);
                        assert forall|k: int| 0 <= k < idx.len() implies 0 <= #[trigger] idx[k] < string_views(names@).len()
                            && string_views(names@)[idx[k]] == string_views(sanitize.item@)[k] by {
                            if k < idx0.len() {
                                assert(idx[k] == idx0[k]);
                            }
                        }
                        assert forall|k1: int, k2: int| 0 <= k1 < k2 < idx.len() implies #[trigger] idx[k1] < #[trigger] idx[k2] by {
                            if k2 < idx0.len() {
                                assert(idx[k1] == idx0[k1] && idx[k2] == idx0[k2]);
                            } else {
                                assert(idx[k1] == idx0[k1]);
                                assert(idx0[k1] < i);
                            }
                        }
                        assert(resolves(nodes@, nt, name@, k));
                        lemma_sound_push(nodes@, nt, before, sanitize, k);
                        assert(string_views(sanitize.item@) =~= string_views(before.item@).push(name@));
                        if names_unique(nodes@) {
                            assert(name_resolvable(nodes@, nt, name@));
                        }
                    }
                } else {
                    proof {
                        if names_unique(nodes@) {
                            if name_resolvable(nodes@, nt, name@) {
                                let id = choose|id: Id| resolves(nodes@, nt, name@, id);
                                assert(id == k);
                            }
                        }
                    }
                }
            },
            None => {
                proof {
                    assert(!name_resolvable(nodes@, nt, name@));
                }
            },
        }
        i = i + 1;
    }
    proof {
        assert(string_views(names@).take(names@.len() as int) =~= string_views(names@));
        assert(picks(idx, string_views(sanitize.item@), input_names(node.node_type)));
    }
    sanitize
}

proof fn lemma_sound_push(nodes: Map<Id, Node>, nt: NodeType, before: Sanitize, after: Sanitize, k: Id)
    requires
        sanitize_sound(nodes, nt, before),
        after.node@ == before.node@.push(after.node@.last()),
        after.item@ == before.item@.push(after.item@.last()),
        resolves(nodes, nt, after.item@.last()@, k),
        after.node@.last().id == nodes[k].id,
        after.node@.last().name@ == after.item@.last()@,
    ensures
        sanitize_sound(nodes, nt, after),
{
    assert forall|j: int| 0 <= j < after.node@.len() implies #[trigger] entry_found(
        nodes,
        nt,
        after.node@[j],
        after.item@[j],
    ) by {
        if j < before.node@.len() {
            assert(after.node@[j] == before.node@[j]);
            assert(after.item@[j] == before.item@[j]);
            assert(entry_found(nodes, nt, before.node@[j], before.item@[j]));
        } else {
            assert(resolves(nodes, nt, after.item@[j]@, k));
        }
    }
}

fn contains_light(v: &Vec<NodeTypeLight>, l: NodeTypeLight) -> (r: bool)
    ensures
        r == v@.contains(l),
{
    let mut i: usize = 0;
    while i < v.len()
        invariant
            i <= v@.len(),
            forall|j: int| 0 <= j < i ==> v@[j] != l,
        decreases v@.len() - i,
    {
        if v[i] == l {
            return true;
        }
        i = i + 1;
    }
    false
}

/// A name is usable for node `id` when it is not blank and no other node has it.
pub fn validate_name(nodes: &Nodes, id: &Id, name: &String) -> (r: bool)
    ensures
        r == (!is_blank(name@) && !(exists|k: Id|
            nodes@.contains_key(k) && node_name(nodes@[k]) == name@ && nodes@[k].id != *id)),
{
    if trims_to_empty(name.as_str()) {
        return false;
    }
    let keys = keys_of(nodes);
    let mut i: usize = 0;
    while i < keys.len()
        invariant
            i <= keys@.len(),
            keys@.to_set() == nodes@.dom(),
            forall|j: int|
                0 <= j < i ==> !(node_name(nodes@[#[trigger] keys@[j]]) == name@ && nodes@[keys@[j]].id
                    != *id),
        decreases keys@.len() - i,
    {
        let k = keys[i];
        proof {
            assert(keys@.to_set().contains(k));
        }
        let n = nodes.get(&k).unwrap();
        if *n.name() == *name && n.id != *id {
            return false;
        }
        i = i + 1;
    }
    proof {
        assert forall|k: Id| nodes@.contains_key(k) implies !(node_name(nodes@[k]) == name@
            && nodes@[k].id != *id) by {
            assert(keys@.to_set().contains(k));
            let j = choose|j: int| 0 <= j < keys@.len() && keys@[j] == k;
        }
    }
    true
}

impl NodeType {
    pub fn to_light(&self) -> (r: NodeTypeLight)
        ensures
            r == light_of(*self),
    {
        match self {
            NodeType::Control(_) => NodeTypeLight::Control,
            NodeType::Fan(_) => NodeTypeLight::Fan,
            NodeType::Temp(_) => NodeTypeLight::Temp,
            NodeType::CustomTemp(_) => NodeTypeLight::CustomTemp,
            NodeType::Graph(_) => NodeTypeLight::Graph,
            NodeType::Flat(_) => NodeTypeLight::Flat,
            NodeType::Linear(_) => NodeTypeLight::Linear,
            NodeType::Target(_) => NodeTypeLight::Target,
        }
    }

    pub fn name(&self) -> (r: &String)
        ensures
            r@ == name_of(*self),
    {
        match self {
            NodeType::Control(i) => &i.name,
            NodeType::Fan(i) => &i.name,
            NodeType::Temp(i) => &i.name,
            NodeType::CustomTemp(i) => &i.name,
            NodeType::Graph(i) => &i.name,
            NodeType::Flat(i) => &i.name,
            NodeType::Linear(i) => &i.name,
            NodeType::Target(i) => &i.name,
        }
    }

    pub fn set_name(&mut self, name: String)
        ensures
            name_of(*final(self)) == name@,
            same_but_name(*old(self), *final(self)),
    {
        match self {
            NodeType::Control(i) => i.name = name,
            NodeType::Fan(i) => i.name = name,
            NodeType::Temp(i) => i.name = name,
            NodeType::CustomTemp(i) => i.name = name,
            NodeType::Graph(i) => i.name = name,
            NodeType::Flat(i) => i.name = name,
            NodeType::Linear(i) => i.name = name,
            NodeType::Target(i) => i.name = name,
        }
    }

    pub fn is_valid(&self) -> (r: bool)
        ensures
            r == type_valid(*self),
    {
        match self {
            NodeType::Control(i) => i.is_valid(),
            NodeType::Fan(i) => i.is_valid(),
            NodeType::Temp(i) => i.is_valid(),
            NodeType::CustomTemp(i) => i.is_valid(),
            NodeType::Graph(i) => i.is_valid(),
            NodeType::Flat(i) => i.is_valid(),
            NodeType::Linear(i) => i.is_valid(),
            NodeType::Target(i) => i.is_valid(),
        }
    }

    /// The names of the nodes that this item reads.
    pub fn get_inputs(&self) -> (r: Vec<String>)
        ensures
            string_views(r@) == input_names(*self),
    {
        match self {
            NodeType::Control(i) => one_input(&i.input),
            NodeType::CustomTemp(i) => clone_strings(&i.inputs),
            NodeType::Graph(i) => one_input(&i.input),
            NodeType::Linear(i) => one_input(&i.input),
            NodeType::Target(i) => one_input(&i.input),
            _ => {
                let r: Vec<String> = Vec::new();
                proof {
                    assert(string_views(r@) =~= Seq::empty());
                }
                r
            },
        }
    }

    /// Gives the item the names of its inputs: the first one for an item with
    /// one input, all of them for a custom temperature, none for the others.
    pub fn set_inputs(&mut self, inputs: Vec<String>)
        ensures
            same_but_inputs(*old(self), *final(self)),
            input_names(*final(self)) == kept_inputs(light_of(*old(self)), string_views(inputs@)),
    {
        proof {
            assert(inputs@.len() > 0 ==> string_views(inputs@)[0] == inputs@[0]@);
        }
        match self {
            NodeType::Control(i) => {
                i.input = first_input(&inputs);
            },
            NodeType::CustomTemp(i) => {
                i.inputs = inputs;
            },
            NodeType::Graph(i) => {
                i.input = first_input(&inputs);
            },
            NodeType::Linear(i) => {
                i.input = first_input(&inputs);
            },
            NodeType::Target(i) => {
                i.input = first_input(&inputs);
            },
            NodeType::Fan(_) => {},
            NodeType::Temp(_) => {},
            NodeType::Flat(_) => {},
        }
    }

    /// The kinds of node that this item may read.
    pub fn allowed_dep(&self) -> (r: Vec<NodeTypeLight>)
        ensures
            forall|l: NodeTypeLight| r@.contains(l) <==> allowed(light_of(*self), l),
    {
        let mut r: Vec<NodeTypeLight> = Vec::new();
        match self {
            NodeType::Control(..) => {
                r.push(NodeTypeLight::Flat);
                r.push(NodeTypeLight::Graph);
                r.push(NodeTypeLight::Target);
                r.push(NodeTypeLight::Linear);
            },
            NodeType::CustomTemp(..) => {
                r.push(NodeTypeLight::Temp);
            },
            NodeType::Graph(..) | NodeType::Linear(..) | NodeType::Target(..) => {
                r.push(NodeTypeLight::Temp);
                r.push(NodeTypeLight::CustomTemp);
            },
            _ => {},
        }
        proof {
            assert forall|l: NodeTypeLight| r@.contains(l) <==> allowed(light_of(*self), l) by {
                if allowed(light_of(*self), l) {
                    let j: int = match (light_of(*self), l) {
                        (NodeTypeLight::Control, NodeTypeLight::Flat) => 0,
                        (NodeTypeLight::Control, NodeTypeLight::Graph) => 1,
                        (NodeTypeLight::Control, NodeTypeLight::Target) => 2,
                        (NodeTypeLight::Control, NodeTypeLight::Linear) => 3,
                        (_, NodeTypeLight::Temp) => 0,
                        _ => 1,
                    };
                    assert(r@[j] == l);
                }
            }
        }
        r
    }

    pub fn max_input(&self) -> (r: NbInput)
        ensures
            r == max_input_of(light_of(*self)),
    {
        match self {
            NodeType::Control(..) => NbInput::One,
            NodeType::Fan(..) => NbInput::Zero,
            NodeType::Temp(..) => NbInput::Zero,
            NodeType::CustomTemp(..) => NbInput::Infinity,
            NodeType::Graph(..) => NbInput::One,
            NodeType::Flat(..) => NbInput::Zero,
            NodeType::Linear(..) => NbInput::One,
            NodeType::Target(..) => NbInput::One,
        }
    }

    pub fn is_sensor(&self) -> (r: bool)
        ensures
            r == (light_of(*self) == NodeTypeLight::Fan || light_of(*self) == NodeTypeLight::Temp),
    {
        match self {
            NodeType::Fan(..) | NodeType::Temp(..) => true,
            _ => false,
        }
    }

    pub fn is_behavior(&self) -> (r: bool)
        ensures
            r == (light_of(*self) == NodeTypeLight::Graph || light_of(*self) == NodeTypeLight::Flat
                || light_of(*self) == NodeTypeLight::Linear || light_of(*self)
                == NodeTypeLight::Target),
    {
        match self {
            NodeType::Graph(..) | NodeType::Flat(..) | NodeType::Linear(..) | NodeType::Target(..) => true,
            _ => false,
        }
    }

    pub fn is_root(&self) -> (r: bool)
        ensures
            r == (light_of(*self) == NodeTypeLight::Control),
    {
        match self {
            NodeType::Control(..) => true,
            _ => false,
        }
    }

    pub fn is_control(&self) -> (r: bool)
        ensures
            r == (light_of(*self) == NodeTypeLight::Control),
    {
        self.is_root()
    }

    /// Orders two items for evaluation: sensors before custom temperatures,
    /// before behaviors, before controls; a flat behavior ties with everything.
    pub fn compare_update_priority(&self, other: &Self) -> (r: Ordering)
        ensures
            r == priority_order(light_of(*self), light_of(*other)),
    {
        match self {
            NodeType::Control(_) => match other {
                NodeType::Control(_) => Ordering::Equal,
                _ => Ordering::Greater,
            },
            NodeType::Fan(_) => {
                if other.is_sensor() {
                    Ordering::Equal
                } else {
                    Ordering::Less
                }
            },
            NodeType::Temp(_) => {
                if other.is_sensor() {
                    Ordering::Equal
                } else {
                    Ordering::Less
                }
            },
            NodeType::CustomTemp(_) => match other {
                NodeType::CustomTemp(_) => Ordering::Equal,
                NodeType::Fan(_) => Ordering::Greater,
                NodeType::Temp(_) => Ordering::Greater,
                _ => Ordering::Less,
            },
            NodeType::Flat(_) => Ordering::Equal,
            NodeType::Graph(_) | NodeType::Linear(..) | NodeType::Target(..) => match other {
                NodeType::Control(_) => Ordering::Less,
                NodeType::Fan(_) => Ordering::Greater,
                NodeType::Temp(_) => Ordering::Greater,
                NodeType::CustomTemp(_) => Ordering::Greater,
                _ => Ordering::Equal,
            },
        }
    }
}

/// The curve of a graph item is sorted by temperature (true of the other items).
pub open spec fn curve_sorted(nt: NodeType) -> bool {
    match nt {
        NodeType::Graph(c) => crate::config::graph::curve_ok(c.coords@),
        _ => true,
    }
}

/// `after` is `before` with its inputs found anew in `nodes`, as
/// `sanitize_inputs` and `set_inputs` do.
pub open spec fn inputs_sanitized(nodes: Map<Id, Node>, before: Node, after: Node) -> bool {
    let l = light_of(before.node_type);
    let cleared = max_input_of(l) == NbInput::Zero || too_many_inputs(before);
    &&& after.id == before.id
    &&& after.value == before.value
    &&& same_but_inputs(before.node_type, after.node_type)
    &&& inputs_found(nodes, after.node_type, after.inputs@)
    &&& input_names(after.node_type) == kept_inputs(l, input_view(after.inputs@))
    &&& cleared ==> after.inputs@.len() == 0
    &&& !cleared && names_unique(nodes) ==> input_view(after.inputs@) == resolved_names(
        nodes,
        before.node_type,
        input_names(before.node_type),
    )
}

/// The positions `idx` pick the names `a` out of `b`, in their order.
pub open spec fn picks(idx: Seq<int>, a: Seq<Seq<char>>, b: Seq<Seq<char>>) -> bool {
    &&& idx.len() == a.len()
    &&& forall|k: int| 0 <= k < idx.len() ==> 0 <= #[trigger] idx[k] < b.len() && b[idx[k]] == a[k]
    &&& forall|k1: int, k2: int| 0 <= k1 < k2 < idx.len() ==> #[trigger] idx[k1] < #[trigger] idx[k2]
}

/// The names `a` are some of the names `b`, in the order of `b`.
pub open spec fn names_in_order(a: Seq<Seq<char>>, b: Seq<Seq<char>>) -> bool {
    exists|idx: Seq<int>| picks(idx, a, b)
}

/// What `sanitize_inputs` answers for `node` in `nodes`.
pub open spec fn sanitize_spec(nodes: Map<Id, Node>, node: Node, r: Sanitize) -> bool {
    &&& r.id == node.id
    &&& sanitize_sound(nodes, node.node_type, r)
    &&& r.item@.len() <= input_names(node.node_type).len()
    &&& max_input_of(light_of(node.node_type)) == NbInput::Zero || too_many_inputs(node)
        ==> r.item@.len() == 0
    &&& names_in_order(string_views(r.item@), input_names(node.node_type))
    &&& !(max_input_of(light_of(node.node_type)) == NbInput::Zero || too_many_inputs(node))
        && names_unique(nodes) ==> string_views(r.item@) == resolved_names(
        nodes,
        node.node_type,
        input_names(node.node_type),
    )
}

/// Setting the inputs that `sanitize_inputs` found gives a sanitized node.
pub proof fn lemma_sanitized(nodes: Map<Id, Node>, before: Node, s: Sanitize, after: Node)
    requires
        sanitize_spec(nodes, before, s),
        after.id == before.id,
        after.value == before.value,
        after.inputs@ == s.node@,
        same_but_inputs(before.node_type, after.node_type),
        input_names(after.node_type) == kept_inputs(light_of(before.node_type), string_views(s.item@)),
    ensures
        inputs_sanitized(nodes, before, after),
{
    lemma_same_light(before.node_type, after.node_type);
    assert(input_view(after.inputs@) =~= string_views(s.item@)) by {
        assert forall|i: int| 0 <= i < after.inputs@.len() implies input_view(after.inputs@)[i]
            == string_views(s.item@)[i] by {
            assert(entry_found(nodes, before.node_type, s.node@[i], s.item@[i]));
        }
    }
    assert forall|i: int| 0 <= i < after.inputs@.len() implies #[trigger] input_resolved(
        nodes,
        after.node_type,
        after.inputs@[i],
    ) by {
        assert(entry_found(nodes, before.node_type, s.node@[i], s.item@[i]));
        let k = choose|k: Id| resolves(nodes, before.node_type, s.item@[i]@, k) && nodes[k].id == s.node@[i].id;
        assert(resolves(nodes, after.node_type, after.inputs@[i].name@, k));
    }
}

/// An item with other inputs keeps its name, its kind and its curve.
pub proof fn lemma_same_but_inputs_keeps(a: NodeType, b: NodeType)
    requires
        same_but_inputs(a, b),
    ensures
        name_of(a) == name_of(b),
        light_of(a) == light_of(b),
        curve_sorted(a) == curve_sorted(b),
{
}


/// The item holds the default settings of its kind (its name aside).
pub open spec fn is_default_item(nt: NodeType) -> bool {
    match nt {
        NodeType::Control(i) => i.hardware_id.is_none() && i.input.is_none() && !i.active
            && i.control_h.is_none() && i.mode_set.is_none(),
        NodeType::Fan(i) => i.hardware_id.is_none() && i.fan_h.is_none(),
        NodeType::Temp(i) => i.hardware_id.is_none() && i.temp_h.is_none(),
        NodeType::CustomTemp(i) => i.kind == CustomTempKind::Average && i.inputs@.len() == 0,
        NodeType::Graph(i) => i.input.is_none() && i.coords@ == seq![
            Coord { temp: 10, percent: 10 },
            Coord { temp: 70, percent: 100 },
        ],
        NodeType::Flat(i) => i.value == 50,
        NodeType::Linear(i) => i.min_temp == 10 && i.min_speed == 10 && i.max_temp == 70
            && i.max_speed == 100 && i.input.is_none(),
        NodeType::Target(i) => i.idle_temp == 40 && i.idle_speed == 10 && i.load_temp == 70
            && i.load_speed == 100 && i.input.is_none() && !i.idle_has_been_reatch,
    }
}

/// A new item of kind `l`, with default settings and the name `name`.
pub fn default_item(l: NodeTypeLight, name: String) -> (r: NodeType)
    ensures
        light_of(r) == l,
        is_default_item(r),
        name_of(r) == name@,
{
    let mut nt = match l {
        NodeTypeLight::Control => NodeType::Control(Control::default()),
        NodeTypeLight::Fan => NodeType::Fan(Fan::default()),
        NodeTypeLight::Temp => NodeType::Temp(Temp::default()),
        NodeTypeLight::CustomTemp => NodeType::CustomTemp(CustomTemp::default()),
        NodeTypeLight::Graph => NodeType::Graph(Graph::default()),
        NodeTypeLight::Flat => NodeType::Flat(Flat::default()),
        NodeTypeLight::Linear => NodeType::Linear(Linear::default()),
        NodeTypeLight::Target => NodeType::Target(Target::default()),
    };
    nt.set_name(name);
    nt
}

/// Whether an item has what it needs to run.
pub trait IsValid {
    fn is_valid(&self) -> bool;
}

/// Turns a configuration item into a node of the graph: the item is first
/// brought into shape (bound to its hardware, settings fixed), then given to
/// `Node::new`. The node is not added to the graph.
pub trait ToNode: Sized {
    fn to_node(self, app_graph: &mut AppGraph, hardware: &Hardware) -> (r: Node)
        requires
            old(app_graph).id_generator.last_id() < u32::MAX,
        ensures
            r.id == old(app_graph).id_generator.last_id() + 1,
            final(app_graph).id_generator.last_id() == r.id,
            final(app_graph).nodes == old(app_graph).nodes,
            final(app_graph).root_nodes == old(app_graph).root_nodes,
            old(app_graph).wf() ==> insertable(*final(app_graph), r),
    ;
}

/// `r` is the node that `Node::new` makes of `node_type` in the graph `g0`,
/// which becomes `g1`: a fresh identifier, the name kept unless taken (then
/// the first free numbered variant), the item's inputs narrowed to the nodes
/// of the graph that may feed it.
pub open spec fn node_made(g0: AppGraph, g1: AppGraph, node_type: NodeType, r: Node) -> bool {
    let l = light_of(node_type);
    let names = input_names(node_type);
    &&& r.id == g0.id_generator.last_id() + 1
    &&& g1.id_generator.last_id() == r.id
    &&& g1.nodes == g0.nodes
    &&& g1.root_nodes == g0.root_nodes
    &&& r.value.is_none()
    &&& light_of(r.node_type) == l
    &&& !name_taken(g0.nodes@, name_of(node_type)) ==> node_name(r) == name_of(node_type)
    &&& name_taken(g0.nodes@, name_of(node_type)) ==> first_unused(
        g0.nodes@,
        name_of(node_type),
        node_name(r),
    )
    &&& exists|nt1: NodeType| same_but_name(node_type, nt1) && same_but_inputs(nt1, r.node_type)
    &&& inputs_found(g0.nodes@, r.node_type, r.inputs@)
    &&& input_names(r.node_type) == kept_inputs(l, input_view(r.inputs@))
    &&& max_input_of(l) == NbInput::Zero || (max_input_of(l) == NbInput::One && names.len() > 1)
        ==> r.inputs@.len() == 0
    &&& !(max_input_of(l) == NbInput::Zero || (max_input_of(l) == NbInput::One && names.len() > 1))
        && names_unique(g0.nodes@) ==> input_view(r.inputs@) == resolved_names(
        g0.nodes@,
        node_type,
        names,
    )
}

/// The node `r` made for the item `nt` reads the nodes of `nodes` that its
/// names resolve to, in the order of its names; nothing when it takes no
/// input, or one input and is given several names.
pub open spec fn wired(nodes: Map<Id, Node>, nt: NodeType, r: Node) -> bool {
    let l = light_of(nt);
    let names = input_names(nt);
    if max_input_of(l) == NbInput::Zero || (max_input_of(l) == NbInput::One && names.len() > 1) {
        r.inputs@.len() == 0
    } else {
        input_view(r.inputs@) == resolved_names(nodes, nt, names)
    }
}

/// Nodes added that an item may not read change none of its resolutions.
pub proof fn lemma_resolved_same(a: Map<Id, Node>, b: Map<Id, Node>, nt: NodeType, names: Seq<Seq<char>>)
    requires
        forall|k: Id| #[trigger] a.contains_key(k) ==> b.contains_key(k) && b[k] == a[k],
        forall|k: Id| #[trigger] b.contains_key(k) && !a.contains_key(k) ==> !allowed(light_of(nt), light_of(b[k].node_type)),
    ensures
        resolved_names(b, nt, names) == resolved_names(a, nt, names),
    decreases names.len(),
{
    if names.len() > 0 {
        lemma_resolved_same(a, b, nt, names.drop_last());
        let x = names.last();
        if name_resolvable(b, nt, x) {
            let id = choose|id: Id| resolves(b, nt, x, id);
            assert(a.contains_key(id));
            assert(resolves(a, nt, x, id));
        }
        if name_resolvable(a, nt, x) {
            let id = choose|id: Id| resolves(a, nt, x, id);
            assert(resolves(b, nt, x, id));
        }
    }
}

/// The names that some node can feed depend on the kind of the item alone.
proof fn lemma_resolved_names_light(
    nodes: Map<Id, Node>,
    a: NodeType,
    b: NodeType,
    names: Seq<Seq<char>>,
)
    requires
        light_of(a) == light_of(b),
    ensures
        resolved_names(nodes, a, names) == resolved_names(nodes, b, names),
    decreases names.len(),
{
    if names.len() > 0 {
        lemma_resolved_names_light(nodes, a, b, names.drop_last());
        if name_resolvable(nodes, a, names.last()) {
            let k = choose|k: Id| resolves(nodes, a, names.last(), k);
            assert(resolves(nodes, b, names.last(), k));
        }
        if name_resolvable(nodes, b, names.last()) {
            let k = choose|k: Id| resolves(nodes, b, names.last(), k);
            assert(resolves(nodes, a, names.last(), k));
        }
    }
}

impl Node {
    /// A new node for `node_type`, with the next identifier of the graph. A
    /// name that some node already has is replaced with the first free
    /// numbered variant of it; the inputs are the nodes of the graph that the
    /// item names and may read. The node is not added to the graph.
    pub fn new(node_type: NodeType, app_graph: &mut AppGraph) -> (r: Self)
        requires
            old(app_graph).id_generator.last_id() < u32::MAX,
        ensures
            node_made(*old(app_graph), *final(app_graph), node_type, r),
            old(app_graph).wf() && curve_sorted(node_type) ==> insertable(*final(app_graph), r),
    {
        let id = app_graph.id_generator.new_id();
        let mut node = Self { id, node_type, inputs: Vec::new(), value: None };
        let ghost nt0 = node.node_type;
        if app_graph.is_name_taken(node.name()) {
            let new_name = app_graph.generate_new_name(node.name());
            node.node_type.set_name(new_name);
        } else {
            proof {
                assert(same_but_name(nt0, node.node_type)) by {
                    lemma_same_but_name_refl(nt0);
                }
            }
        }
        let ghost nt1 = node.node_type;
        let sanitize = sanitize_inputs(&node, &app_graph.nodes, true);
        let ghost san = sanitize;
        node.set_inputs(sanitize);
        proof {
            assert(input_view(node.inputs@) =~= string_views(san.item@)) by {
                assert forall|i: int| 0 <= i < node.inputs@.len() implies input_view(node.inputs@)[i] == string_views(san.item@)[i] by {
                    assert(entry_found(app_graph.nodes@, nt1, san.node@[i], san.item@[i]));
                }
            }
            assert forall|i: int| 0 <= i < node.inputs@.len() implies #[trigger] input_resolved(
                app_graph.nodes@,
                node.node_type,
                node.inputs@[i],
            ) by {
                assert(entry_found(app_graph.nodes@, nt1, san.node@[i], san.item@[i]));
                lemma_same_light(nt1, node.node_type);
                assert(node.inputs@[i] == san.node@[i]);
                let k = choose|k: Id| resolves(app_graph.nodes@, nt1, san.item@[i]@, k) && app_graph.nodes@[k].id == san.node@[i].id;
                assert(resolves(app_graph.nodes@, node.node_type, node.inputs@[i].name@, k));
            }
            assert(app_graph.nodes@ == old(app_graph).nodes@);
            assert(inputs_found(app_graph.nodes@, node.node_type, node.inputs@));
            lemma_same_light(nt0, nt1);
            lemma_same_light(nt1, node.node_type);
            lemma_names_of_same(nt0, nt1);
            if old(app_graph).wf() && curve_sorted(nt0) {
                lemma_curve_kept(nt0, nt1, node.node_type);
                assert(node_name(node) == name_of(nt1));
                assert(!name_taken(app_graph.nodes@, name_of(nt1)));
                assert(!app_graph.nodes@.contains_key(node.id));
                assert forall|k: Id, i: int|
                    app_graph.nodes@.contains_key(k) && 0 <= i < app_graph.nodes@[k].inputs@.len() implies #[trigger] app_graph.nodes@[k].inputs@[i].id
                        != node.id by {
                }
                assert(input_names(node.node_type) == kept_inputs(light_of(node.node_type), input_view(node.inputs@)));
                assert(insertable(*app_graph, node));
            }
            if !(max_input_of(light_of(nt0)) == NbInput::Zero || (max_input_of(light_of(nt0))
                == NbInput::One && input_names(nt0).len() > 1)) && names_unique(app_graph.nodes@) {
                lemma_resolved_names_light(app_graph.nodes@, nt0, nt1, input_names(nt0));
            }
        }
        node
    }

    pub fn name(&self) -> (r: &String)
        ensures
            r@ == node_name(*self),
    {
        self.node_type.name()
    }

    /// Takes the inputs found by `sanitize_inputs`: the nodes, and their names
    /// in the item.
    pub fn set_inputs(&mut self, sanitize: Sanitize)
        ensures
            final(self).id == old(self).id,
            final(self).value == old(self).value,
            final(self).inputs@ == sanitize.node@,
            same_but_inputs(old(self).node_type, final(self).node_type),
            input_names(final(self).node_type) == kept_inputs(
                light_of(old(self).node_type),
                string_views(sanitize.item@),
            ),
    {
        self.inputs = sanitize.node;
        self.node_type.set_inputs(sanitize.item);
    }

    /// The hardware identifier of a control, fan or temperature node.
    pub fn hardware_id(&self) -> (r: &Option<String>)
        requires
            light_of(self.node_type) == NodeTypeLight::Control || light_of(self.node_type)
                == NodeTypeLight::Fan || light_of(self.node_type) == NodeTypeLight::Temp,
        ensures
            *r == match self.node_type {
                NodeType::Control(i) => i.hardware_id,
                NodeType::Fan(i) => i.hardware_id,
                NodeType::Temp(i) => i.hardware_id,
                _ => None,
            },
    {
        match &self.node_type {
            NodeType::Control(i) => &i.hardware_id,
            NodeType::Fan(i) => &i.hardware_id,
            NodeType::Temp(i) => &i.hardware_id,
            _ => &None,
        }
    }

    /// The last value of the node, with its unit.
    pub fn value_text(&self, kind: &ValueKind) -> (r: String)
        ensures
            r@ == value_label(self.value, *kind),
    {
        match self.value {
            Some(val) => {
                let digits = i32_to_decimal(val);
                match kind {
                    ValueKind::Celsius => {
                        proof {
                            reveal_strlit("°C");
                        }
                        concat(digits.as_str(), "°C")
                    },
                    ValueKind::Porcentage => {
                        proof {
                            reveal_strlit("%");
                        }
                        concat(digits.as_str(), "%")
                    },
                    ValueKind::RPM => {
                        proof {
                            reveal_strlit(" RPM");
                        }
                        concat(digits.as_str(), " RPM")
                    },
                }
            },
            None => {
                proof {
                    reveal_strlit("No value");
                }
                String::from_str("No value")
            },
        }
    }

    pub fn is_root(&self) -> (r: bool)
        ensures
            r == (light_of(self.node_type) == NodeTypeLight::Control),
    {
        self.node_type.is_root()
    }
}

/// The names of a list of inputs.
pub open spec fn input_view(inputs: Seq<Input>) -> Seq<Seq<char>> {
    inputs.map_values(|i: Input| i.name@)
}

proof fn lemma_same_but_name_refl(nt: NodeType)
    ensures
        same_but_name(nt, nt),
{
}

proof fn lemma_same_light(a: NodeType, b: NodeType)
    requires
        same_but_name(a, b) || same_but_inputs(a, b),
    ensures
        light_of(a) == light_of(b),
{
}

proof fn lemma_names_of_same(a: NodeType, b: NodeType)
    requires
        same_but_name(a, b),
    ensures
        input_names(a) == input_names(b),
{
}

proof fn lemma_curve_kept(a: NodeType, b: NodeType, c: NodeType)
    requires
        same_but_name(a, b),
        same_but_inputs(b, c),
        curve_sorted(a),
    ensures
        curve_sorted(c),
{
}

fn one_input(input: &Option<String>) -> (r: Vec<String>)
    ensures
        string_views(r@) == option_names(*input),
{
    let mut r: Vec<String> = Vec::new();
    match input {
        Some(s) => {
            r.push(s.clone());
        },
        None => {},
    }
    proof {
        assert(string_views(r@) =~= option_names(*input));
    }
    r
}

fn first_input(inputs: &Vec<String>) -> (r: Option<String>)
    ensures
        option_names(r) == (if inputs@.len() > 0 {
            seq![inputs@[0]@]
        } else {
            Seq::empty()
        }),
{
    if inputs.len() > 0 {
        Some(inputs[0].clone())
    } else {
        None
    }
}

/// Evaluation ranks never go up along an allowed dependency.
pub proof fn lemma_allowed_lowers_level(node: NodeTypeLight, dep: NodeTypeLight)
    requires
        allowed(node, dep),
    ensures
        level(dep) < level(node),
{
}

/// Ordering nodes by their rank agrees with every strict answer of
/// `compare_update_priority`.
pub proof fn lemma_priority_agrees_with_level(a: NodeTypeLight, b: NodeTypeLight)
    ensures
        priority_order(a, b) == Ordering::Less ==> level(a) < level(b),
        priority_order(a, b) == Ordering::Greater ==> level(a) > level(b),
{
}

} // verus!
