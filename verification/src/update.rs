//! Evaluation of the graph of nodes against the hardware.
use vstd::prelude::*;
use crate::config::control::{is_invalid_error, manual_after, same_but_mode, value_write};
use crate::config::custom_temp::custom_value;
use crate::config::graph::{graph_value, strictly_sorted};
use crate::config::linear::linear_value;
use crate::config::target::{target_step, Target};
use crate::hardware::{BridgeCall, HControl, HSensor, HardwareBridge, HardwareError, Mode, Value};
use crate::hardware::{extends, made_calls};
use crate::id::Id;
use crate::utils::keys_of;
use crate::app_graph::{AppGraph, curves_sorted, ids_consistent, layered, node_mut, Nodes, RootNodes};
use crate::node::{input_names, input_view, kept_inputs, type_valid, Input};
use std::collections::HashSet;
use crate::node::{level, light_of, Node, NodeType, NodeTypeLight};

verus! {

broadcast use vstd::std_specs::hash::group_hash_axioms;

/// Why a node could not be updated.
#[derive(Debug)]
pub enum UpdateError {
    NodeNotFound(Id),
    ValueIsNone,
    NodeIsInvalid(String),
    NoInputData,
    CantSetMode,
    Hardware(HardwareError),
}

/// What an update reports for the answer `a` of a read: the value read, or
/// the bridge's error.
pub open spec fn read_reported(a: Result<Value, HardwareError>) -> Result<Value, UpdateError> {
    match a {
        Ok(v) => Ok(v),
        Err(e) => Err(UpdateError::Hardware(e)),
    }
}

/// What an update reports for the answer `a` of a write: success, or the
/// bridge's error.
pub open spec fn write_reported(a: Result<(), HardwareError>) -> Result<(), UpdateError> {
    match a {
        Ok(_) => Ok(()),
        Err(e) => Err(UpdateError::Hardware(e)),
    }
}

/// `r` with its value dropped.
pub open spec fn unit_of<T>(r: Result<T, UpdateError>) -> Result<(), UpdateError> {
    match r {
        Ok(_) => Ok(()),
        Err(e) => Err(e),
    }
}

/// The value that the answer `a` of a read gives, if any.
pub open spec fn answer_value(a: Result<Value, HardwareError>) -> Option<Value> {
    match a {
        Ok(v) => Some(v),
        Err(_) => None,
    }
}

/// The calls `made` are one read of the sensor `h`, whose answer `r` reports.
pub open spec fn sensor_read(h: HSensor, made: Seq<BridgeCall>, r: Result<Value, UpdateError>) -> bool {
    &&& made.len() == 1
    &&& (made[0] matches BridgeCall::ReadSensor(h1, a) && h1 == h && r == read_reported(a))
}

/// The calls `made` are one read of the control `h`, whose answer `r` reports.
pub open spec fn control_read(h: HControl, made: Seq<BridgeCall>, r: Result<Value, UpdateError>) -> bool {
    &&& made.len() == 1
    &&& (made[0] matches BridgeCall::ReadControl(h1, a) && h1 == h && r == read_reported(a))
}

/// The calls `made` by the update of a sensor bound to `h`: one read, whose
/// answer `r` reports and whose value, if any, the sensor now holds.
pub open spec fn sensor_update(h: HSensor, made: Seq<BridgeCall>, r: Result<(), UpdateError>, value: Option<Value>) -> bool {
    &&& made.len() == 1
    &&& (made[0] matches BridgeCall::ReadSensor(h1, a) && h1 == h && r == unit_of(read_reported(a)) && value
        == answer_value(a))
}

/// The result of a read from the bridge as the update reports it: the value
/// read, or the bridge's error.
pub fn hardware_result(r: Result<Value, HardwareError>) -> (o: Result<Value, UpdateError>)
    ensures
        o == read_reported(r),
{
    match r {
        Ok(v) => Ok(v),
        Err(e) => Err(UpdateError::Hardware(e)),
    }
}

/// `b` is `a` after an update: only the value, the mode recorded by a
/// control and the idle state of a target may differ.
pub open spec fn same_but_state(a: Node, b: Node) -> bool {
    &&& b.id == a.id
    &&& b.inputs == a.inputs
    &&& match (a.node_type, b.node_type) {
        (NodeType::Control(x), NodeType::Control(y)) => same_but_mode(x, y) && y.mode_set
            == x.mode_set || same_but_mode(x, y) && y.mode_set == Some(Mode::Manual),
        (NodeType::Target(x), NodeType::Target(y)) => (Target {
            idle_has_been_reatch: y.idle_has_been_reatch,
            ..x
        }) == y,
        _ => b.node_type == a.node_type,
    }
}

/// The kinds whose value is computed from their inputs alone.
pub open spec fn is_computed(l: NodeTypeLight) -> bool {
    l == NodeTypeLight::CustomTemp || l == NodeTypeLight::Graph || l == NodeTypeLight::Flat || l
        == NodeTypeLight::Linear || l == NodeTypeLight::Target
}

/// The kinds that read exactly one input.
pub open spec fn reads_one(l: NodeTypeLight) -> bool {
    l == NodeTypeLight::Control || l == NodeTypeLight::Graph || l == NodeTypeLight::Linear || l
        == NodeTypeLight::Target
}

/// The value that a computed item gives for the values of its inputs.
pub open spec fn computed_value(nt: NodeType, values: Seq<Value>) -> int {
    match nt {
        NodeType::CustomTemp(c) => custom_value(c.kind, values),
        NodeType::Graph(g) => graph_value(g.coords@, values[0]),
        NodeType::Flat(f) => f.value as int,
        NodeType::Linear(l) => linear_value(l, values[0]),
        NodeType::Target(t) => target_step(t, values[0]).0,
        _ => 0,
    }
}

/// What an item needs for `Node::update` to run on `values` without failing
/// on its own account.
pub open spec fn update_ready(nt: NodeType, values: Seq<Value>) -> bool {
    &&& reads_one(light_of(nt)) ==> values.len() >= 1
    &&& match nt {
        NodeType::Graph(g) => g.coords@.len() > 0 && strictly_sorted(g.coords@),
        NodeType::CustomTemp(c) => values.len() <= i32::MAX,
        _ => true,
    }
}

impl Node {
    /// Updates the node from the values of its inputs. A control is driven to
    /// its input value unless its last value is already that; a sensor is
    /// read from the bridge; any other item computes its value. A failure
    /// clears the value (a control keeps it).
    pub fn update<H: HardwareBridge>(&mut self, input_values: &[Value], bridge: &mut H) -> (r: Result<(), UpdateError>)
        requires
            update_ready(old(self).node_type, input_values@),
        ensures
            same_but_state(*old(self), *final(self)),
            is_computed(light_of(old(self).node_type)) ==> (if old(self).node_type is CustomTemp
                && input_values@.len() == 0 {
                r matches Err(UpdateError::NoInputData) && final(self).value.is_none()
            } else {
                r is Ok && final(self).value == Some(
                    computed_value(old(self).node_type, input_values@) as Value,
                )
            }),
            old(self).node_type matches NodeType::Target(t) ==> (final(self).node_type matches NodeType::Target(t2)
                && t2.idle_has_been_reatch == target_step(t, input_values@[0]).1),
            old(self).node_type matches NodeType::Fan(f) ==> (f.fan_h.is_none() ==> r is Err && is_invalid_error(r->Err_0, f.name@)),
            old(self).node_type matches NodeType::Temp(t) ==> (t.temp_h.is_none() ==> r is Err && is_invalid_error(r->Err_0, t.name@)),
            old(self).node_type is Fan || old(self).node_type is Temp ==> (r is Ok <==> final(self).value is Some),
            old(self).node_type matches NodeType::Fan(f) ==> (f.fan_h matches Some(h) ==> extends(
                old(bridge).calls(),
                final(bridge).calls(),
            ) && sensor_update(h, made_calls(old(bridge).calls(), final(bridge).calls()), r, final(self).value)),
            old(self).node_type matches NodeType::Temp(t) ==> (t.temp_h matches Some(h) ==> extends(
                old(bridge).calls(),
                final(bridge).calls(),
            ) && sensor_update(h, made_calls(old(bridge).calls(), final(bridge).calls()), r, final(self).value)),
            is_computed(light_of(old(self).node_type)) || (old(self).node_type matches NodeType::Fan(f) && f.fan_h is None)
                || (old(self).node_type matches NodeType::Temp(t) && t.temp_h is None) ==> final(bridge).calls()
                == old(bridge).calls(),
            old(self).node_type matches NodeType::Control(c) ==> (if old(self).value == Some(input_values@[0]) {
                r is Ok && *final(self) == *old(self) && final(bridge).calls() == old(bridge).calls()
            } else {
                &&& final(self).value == old(self).value
                &&& c.control_h.is_none() ==> r is Err && is_invalid_error(r->Err_0, c.name@) && final(bridge).calls()
                    == old(bridge).calls()
                &&& r is Ok ==> (final(self).node_type matches NodeType::Control(c2) && c2.mode_set == Some(Mode::Manual))
                &&& c.control_h matches Some(h) ==> extends(old(bridge).calls(), final(bridge).calls()) && value_write(
                    c,
                    h,
                    input_values@[0],
                    made_calls(old(bridge).calls(), final(bridge).calls()),
                    r,
                ) && (final(self).node_type matches NodeType::Control(c2) && c2.mode_set == manual_after(
                    c,
                    made_calls(old(bridge).calls(), final(bridge).calls()),
                ))
            }),
    {
        let value = match &mut self.node_type {
            NodeType::Control(control) => {
                let input_value = input_values[0];
                let same = match self.value {
                    Some(v) => v == input_value,
                    None => false,
                };
                if same {
                    return Ok(());
                }
                return match control.set_value(input_value, bridge) {
                    Ok(_) => Ok(()),
                    Err(e) => Err(e),
                };
            },
            NodeType::Fan(fan) => fan.get_value(bridge),
            NodeType::Temp(temp) => temp.get_value(bridge),
            NodeType::CustomTemp(custom_temp) => custom_temp.get_value(input_values),
            NodeType::Graph(graph) => graph.get_value(input_values[0]),
            NodeType::Flat(flat) => Ok(flat.value as Value),
            NodeType::Linear(linear) => linear.get_value(input_values[0]),
            NodeType::Target(target) => target.get_value(input_values[0]),
        };
        match value {
            Ok(v) => {
                self.value = Some(v);
                Ok(())
            },
            Err(e) => {
                self.value = None;
                Err(e)
            },
        }
    }
}

/// What the evaluation of a graph needs of its nodes: each under its own
/// identifier, curves sorted, the inputs that the items name found (so that
/// a valid one-input item has an input), no more inputs than an `i32` can
/// count, and no control read by another node.
pub open spec fn updatable(nodes: Map<Id, Node>) -> bool {
    &&& ids_consistent(nodes)
    &&& curves_sorted(nodes)
    &&& forall|k: Id| #[trigger] nodes.contains_key(k) ==> input_names(nodes[k].node_type) == kept_inputs(
        light_of(nodes[k].node_type),
        input_view(nodes[k].inputs@),
    )
    &&& forall|k: Id| #[trigger] nodes.contains_key(k) ==> nodes[k].inputs@.len() <= i32::MAX
    &&& forall|k: Id, i: int|
        nodes.contains_key(k) && 0 <= i < nodes[k].inputs@.len() && nodes.contains_key(
            #[trigger] nodes[k].inputs@[i].id,
        ) ==> light_of(nodes[nodes[k].inputs@[i].id].node_type) != NodeTypeLight::Control
}

/// The values of the nodes that `inputs` name.
pub open spec fn values_of_inputs(nodes: Map<Id, Node>, inputs: Seq<Input>) -> Seq<Option<Value>> {
    inputs.map_values(|i: Input| nodes[i.id].value)
}

/// Every value of `vs` is known.
pub open spec fn all_known(vs: Seq<Option<Value>>) -> bool {
    forall|i: int| 0 <= i < vs.len() ==> (#[trigger] vs[i]) is Some
}

/// The known values of `vs`.
pub open spec fn known(vs: Seq<Option<Value>>) -> Seq<Value> {
    vs.map_values(|o: Option<Value>| o->Some_0)
}

/// No input of `node` is the node itself.
pub open spec fn not_own_input(node: Node) -> bool {
    forall|i: int| 0 <= i < node.inputs@.len() ==> (#[trigger] node.inputs@[i]).id != node.id
}

/// Every node of `m0` that is not in `u` is unchanged in `m1`.
pub open spec fn only_updated_changed(m0: Map<Id, Node>, m1: Map<Id, Node>, u: Set<Id>) -> bool {
    forall|k: Id| #[trigger] m0.contains_key(k) && !u.contains(k) ==> m1[k] == m0[k]
}

/// Every node of `m0` that is in `u` is unchanged in `m1`.
pub open spec fn updated_kept(m0: Map<Id, Node>, m1: Map<Id, Node>, u: Set<Id>) -> bool {
    forall|k: Id| #[trigger] m0.contains_key(k) && u.contains(k) ==> m1[k] == m0[k]
}

/// Only the state of the nodes changes from `m0` to `m1`.
pub open spec fn states_changed(m0: Map<Id, Node>, m1: Map<Id, Node>) -> bool {
    &&& m1.dom() == m0.dom()
    &&& forall|k: Id| #[trigger] m0.contains_key(k) ==> same_but_state(m0[k], m1[k])
}

proof fn lemma_fewer_left(dom: Set<Id>, u0: Set<Id>, u1: Set<Id>, x: Id)
    requires
        dom.finite(),
        u0.subset_of(u1),
        u1.contains(x),
        dom.contains(x),
        !u0.contains(x),
    ensures
        dom.difference(u1).len() < dom.difference(u0).len(),
{
    let a = dom.difference(u1);
    let b = dom.difference(u0);
    assert(a.subset_of(b.remove(x)));
    vstd::set_lib::lemma_len_subset(a, b.remove(x));
}

proof fn lemma_updatable_kept(m0: Map<Id, Node>, m1: Map<Id, Node>)
    requires
        updatable(m0),
        states_changed(m0, m1),
    ensures
        updatable(m1),
{
    assert forall|k: Id| #[trigger] m1.contains_key(k) implies m1[k].id == k && light_of(m1[k].node_type) == light_of(m0[k].node_type)
        && input_names(m1[k].node_type) == input_names(m0[k].node_type) && curve_of(m1[k].node_type) == curve_of(m0[k].node_type) by {
        assert(m0.contains_key(k));
        assert(same_but_state(m0[k], m1[k]));
    }
}

/// The points of a curve item (no point for the other items).
pub open spec fn curve_of(nt: NodeType) -> Seq<crate::config::graph::Coord> {
    match nt {
        NodeType::Graph(g) => g.coords@,
        _ => Seq::empty(),
    }
}

/// A node that failed on its own account: it holds no value and is a
/// sensor or a control, an item that cannot run, or a custom temperature that
/// reads nothing.
pub open spec fn failed_alone(n: Node) -> bool {
    &&& n.value is None
    &&& !is_computed(light_of(n.node_type)) || !type_valid(n.node_type) || (n.node_type is CustomTemp
        && n.inputs@.len() == 0)
}

/// The node `id` is missing, or it is among the nodes `done` of a pass and
/// it failed on its own account, or a node that it reads did, down to the
/// sensors: the mark of a failure below it.
pub open spec fn unsettled(m: Map<Id, Node>, done: Set<Id>, id: Id) -> bool
    decreases level(light_of(m[id].node_type)), 1nat, 0nat when layered(m)
{
    !m.contains_key(id) || (done.contains(id) && (failed_alone(m[id]) || input_unsettled(
        m,
        done,
        id,
        m[id].inputs@.len(),
    )))
}

/// One of the first `n` inputs of the node `id` is unsettled.
pub open spec fn input_unsettled(m: Map<Id, Node>, done: Set<Id>, id: Id, n: nat) -> bool
    decreases level(light_of(m[id].node_type)), 0nat, n when layered(m)
{
    if n == 0 {
        false
    } else {
        input_unsettled(m, done, id, (n - 1) as nat) || (m.contains_key(id) && n - 1
            < m[id].inputs@.len() && (!m.contains_key(m[id].inputs@[n - 1].id) || unsettled(
            m,
            done,
            m[id].inputs@[n - 1].id,
        )))
    }
}

/// What an item gives for the values of its inputs: nothing for a custom
/// temperature that reads none.
pub open spec fn expected_value(nt: NodeType, values: Seq<Value>) -> Option<Value> {
    if nt is CustomTemp && values.len() == 0 {
        None
    } else {
        Some(computed_value(nt, values) as Value)
    }
}

/// The node `k` was updated from its inputs: each is among the nodes
/// `done`, and an item holds the value it computes from their values.
pub open spec fn settled(m: Map<Id, Node>, done: Set<Id>, k: Id) -> bool {
    &&& forall|i: int|
        0 <= i < m[k].inputs@.len() ==> done.contains(#[trigger] m[k].inputs@[i].id) && m.contains_key(
            m[k].inputs@[i].id,
        )
    &&& is_computed(light_of(m[k].node_type)) ==> all_known(values_of_inputs(m, m[k].inputs@))
        && item_gives(m[k].node_type, known(values_of_inputs(m, m[k].inputs@)), m[k].value)
}

/// `value` is what the item gives for the values of its inputs; for a target,
/// from one of its two states, since the step that gave it moved the state.
pub open spec fn item_gives(nt: NodeType, values: Seq<Value>, value: Option<Value>) -> bool {
    match nt {
        NodeType::Target(t) => values.len() >= 1 && (value == Some(
            target_step(Target { idle_has_been_reatch: true, ..t }, values[0]).0 as Value,
        ) || value == Some(target_step(Target { idle_has_been_reatch: false, ..t }, values[0]).0 as Value)),
        _ => value == expected_value(nt, values),
    }
}

/// Every valid node among the nodes `done` of a pass is settled, or unsettled
/// by a failure below it.
pub open spec fn pass_consistent(m: Map<Id, Node>, done: Set<Id>) -> bool {
    forall|k: Id|
        #[trigger] done.contains(k) && m.contains_key(k) && type_valid(m[k].node_type) ==> settled(
            m,
            done,
            k,
        ) || unsettled(m, done, k)
}

/// `m2` has the nodes of `m1`, with the same kinds and inputs, and the same
/// nodes of `done`.
pub open spec fn done_kept(m1: Map<Id, Node>, m2: Map<Id, Node>, done: Set<Id>) -> bool {
    &&& m2.dom() == m1.dom()
    &&& forall|k: Id| #[trigger] m1.contains_key(k) ==> light_of(m2[k].node_type) == light_of(m1[k].node_type)
        && m2[k].inputs == m1[k].inputs
    &&& forall|k: Id| #[trigger] m1.contains_key(k) && done.contains(k) ==> m2[k] == m1[k]
}

proof fn lemma_layered_kept(m1: Map<Id, Node>, m2: Map<Id, Node>, done: Set<Id>)
    requires
        layered(m1),
        done_kept(m1, m2, done),
    ensures
        layered(m2),
{
    assert forall|k: Id, i: int|
        m2.contains_key(k) && 0 <= i < m2[k].inputs@.len() && m2.contains_key(
            #[trigger] m2[k].inputs@[i].id,
        ) implies level(light_of(m2[m2[k].inputs@[i].id].node_type)) < level(light_of(m2[k].node_type)) by {
        assert(m1.contains_key(k));
        assert(m1[k].inputs@[i].id == m2[k].inputs@[i].id);
        assert(m1.contains_key(m1[k].inputs@[i].id));
    }
}

proof fn lemma_input_unsettled_iff(m: Map<Id, Node>, done: Set<Id>, id: Id, n: nat)
    requires
        layered(m),
    ensures
        input_unsettled(m, done, id, n) <==> exists|i: int|
            0 <= i < n && m.contains_key(id) && i < m[id].inputs@.len() && (!m.contains_key(
                #[trigger] m[id].inputs@[i].id,
            ) || unsettled(m, done, m[id].inputs@[i].id)),
    decreases n,
{
    if n > 0 {
        lemma_input_unsettled_iff(m, done, id, (n - 1) as nat);
        if input_unsettled(m, done, id, n) && !input_unsettled(m, done, id, (n - 1) as nat) {
            let i = n - 1;
            assert(!m.contains_key(m[id].inputs@[i].id) || unsettled(m, done, m[id].inputs@[i].id));
        }
    }
}

/// An input at index `i` that is missing or unsettled unsettles the node `id`.
proof fn lemma_unsettled_by_input(m: Map<Id, Node>, done: Set<Id>, id: Id, i: int)
    requires
        layered(m),
        m.contains_key(id),
        done.contains(id),
        0 <= i < m[id].inputs@.len(),
        !m.contains_key(m[id].inputs@[i].id) || unsettled(m, done, m[id].inputs@[i].id),
    ensures
        unsettled(m, done, id),
{
    lemma_input_unsettled_iff(m, done, id, m[id].inputs@.len());
}

/// Unsettled stays unsettled as the pass goes on: more nodes are done, and
/// the nodes done are kept.
proof fn lemma_unsettled_kept(m1: Map<Id, Node>, m2: Map<Id, Node>, d1: Set<Id>, d2: Set<Id>, id: Id)
    requires
        layered(m1),
        done_kept(m1, m2, d1),
        d1.subset_of(d2),
        unsettled(m1, d1, id),
    ensures
        unsettled(m2, d2, id),
    decreases level(light_of(m1[id].node_type)),
{
    lemma_layered_kept(m1, m2, d1);
    if m1.contains_key(id) {
        assert(m2[id] == m1[id]);
        if !failed_alone(m1[id]) {
            lemma_input_unsettled_iff(m1, d1, id, m1[id].inputs@.len());
            let i = choose|i: int|
                0 <= i < m1[id].inputs@.len() && m1.contains_key(id) && i < m1[id].inputs@.len() && (
                !m1.contains_key(#[trigger] m1[id].inputs@[i].id) || unsettled(m1, d1, m1[id].inputs@[i].id));
            let j = m1[id].inputs@[i].id;
            if m1.contains_key(j) {
                assert(level(light_of(m1[j].node_type)) < level(light_of(m1[id].node_type)));
                lemma_unsettled_kept(m1, m2, d1, d2, j);
            }
            lemma_unsettled_by_input(m2, d2, id, i);
        }
    }
}

/// A settled node stays settled as the pass goes on.
proof fn lemma_settled_kept(m1: Map<Id, Node>, m2: Map<Id, Node>, d1: Set<Id>, d2: Set<Id>, k: Id)
    requires
        done_kept(m1, m2, d1),
        d1.subset_of(d2),
        m1.contains_key(k),
        d1.contains(k),
        settled(m1, d1, k),
    ensures
        settled(m2, d2, k),
{
    assert(m2[k] == m1[k]);
    assert forall|i: int| 0 <= i < m1[k].inputs@.len() implies m2[(#[trigger] m1[k].inputs@[i]).id] == m1[m1[k].inputs@[i].id] by {
        assert(d1.contains(m1[k].inputs@[i].id));
    }
    assert(values_of_inputs(m2, m1[k].inputs@) =~= values_of_inputs(m1, m1[k].inputs@));
}

/// The consistency of a pass is kept as it goes on.
proof fn lemma_consistent_kept(m1: Map<Id, Node>, m2: Map<Id, Node>, d1: Set<Id>, d2: Set<Id>)
    requires
        layered(m1),
        done_kept(m1, m2, d1),
        d1.subset_of(d2),
        pass_consistent(m1, d1),
    ensures
        forall|k: Id| #[trigger] d1.contains(k) && m2.contains_key(k) && type_valid(m2[k].node_type) ==> settled(m2, d2, k)
            || unsettled(m2, d2, k),
{
    assert forall|k: Id| #[trigger] d1.contains(k) && m2.contains_key(k) && type_valid(m2[k].node_type) implies settled(m2, d2, k)
        || unsettled(m2, d2, k) by {
        assert(m1.contains_key(k));
        if settled(m1, d1, k) {
            lemma_settled_kept(m1, m2, d1, d2, k);
        } else {
            lemma_unsettled_kept(m1, m2, d1, d2, k);
        }
    }
}

/// The sensor `n`, bound to a handle and reading nothing, holds what a read
/// of that handle, among `calls` from index `start`, answered.
pub open spec fn sensor_read_in(n: Node, start: int, calls: Seq<BridgeCall>) -> bool {
    n.inputs@.len() == 0 ==> match n.node_type {
        NodeType::Fan(f) => match f.fan_h {
            Some(h) => exists|j: int|
                start <= j < calls.len() && (#[trigger] calls[j] matches BridgeCall::ReadSensor(h1, a) && h1
                    == h && n.value == answer_value(a)),
            None => true,
        },
        NodeType::Temp(t) => match t.temp_h {
            Some(h) => exists|j: int|
                start <= j < calls.len() && (#[trigger] calls[j] matches BridgeCall::ReadSensor(h1, a) && h1
                    == h && n.value == answer_value(a)),
            None => true,
        },
        _ => true,
    }
}

/// Every valid sensor among the nodes `done` of a pass was read in the pass:
/// it holds what the bridge answered.
pub open spec fn sensors_read(m: Map<Id, Node>, done: Set<Id>, start: int, calls: Seq<BridgeCall>) -> bool {
    forall|k: Id|
        #[trigger] done.contains(k) && m.contains_key(k) && type_valid(m[k].node_type) ==> sensor_read_in(
            m[k],
            start,
            calls,
        )
}

proof fn lemma_sensor_read_kept(n: Node, start: int, c1: Seq<BridgeCall>, c2: Seq<BridgeCall>)
    requires
        sensor_read_in(n, start, c1),
        extends(c1, c2),
        0 <= start,
    ensures
        sensor_read_in(n, start, c2),
{
    crate::hardware::lemma_no_call(c1);
    lemma_calls_kept(c1, c1, c2);
    if n.inputs@.len() == 0 {
        match n.node_type {
            NodeType::Fan(f) => {
                if let Some(h) = f.fan_h {
                    let j = choose|j: int|
                        start <= j < c1.len() && (#[trigger] c1[j] matches BridgeCall::ReadSensor(h1, a) && h1
                            == h && n.value == answer_value(a));
                    assert(c2[j] == c1[j]);
                }
            },
            NodeType::Temp(t) => {
                if let Some(h) = t.temp_h {
                    let j = choose|j: int|
                        start <= j < c1.len() && (#[trigger] c1[j] matches BridgeCall::ReadSensor(h1, a) && h1
                            == h && n.value == answer_value(a));
                    assert(c2[j] == c1[j]);
                }
            },
            _ => {},
        }
    }
}

/// The reads of a pass stay recorded when the node `k` joins the nodes done,
/// with its own read recorded.
proof fn lemma_sensors_extended(
    m1: Map<Id, Node>,
    m2: Map<Id, Node>,
    d1: Set<Id>,
    k: Id,
    start: int,
    c1: Seq<BridgeCall>,
    c2: Seq<BridgeCall>,
)
    requires
        sensors_read(m1, d1, start, c1),
        done_kept(m1, m2, d1),
        extends(c1, c2),
        0 <= start,
        m2.contains_key(k) && type_valid(m2[k].node_type) ==> sensor_read_in(m2[k], start, c2),
    ensures
        sensors_read(m2, d1.insert(k), start, c2),
{
    assert forall|x: Id| #[trigger] d1.insert(k).contains(x) && m2.contains_key(x) && type_valid(m2[x].node_type) implies sensor_read_in(
        m2[x],
        start,
        c2,
    ) by {
        if x != k {
            assert(d1.contains(x));
            assert(m1.contains_key(x));
            assert(m2[x] == m1[x]);
            lemma_sensor_read_kept(m1[x], start, c1, c2);
        }
    }
}

/// The first inputs `ids` of a node, as many as `vals`, are updated and hold
/// the values `vals`.
pub open spec fn inputs_ready(m: Map<Id, Node>, u: Set<Id>, ids: Seq<Id>, vals: Seq<Value>) -> bool {
    forall|i2: int|
        0 <= i2 < vals.len() ==> #[trigger] m.contains_key(ids[i2]) && u.contains(ids[i2]) && m[ids[i2]].value == Some(
            vals[i2],
        )
}

/// The control `k`, bound to a handle, was driven to the value `x` of its
/// input, one of the nodes `done`: it already held `x`, or the bridge was
/// asked, among `calls` from index `start`, to write `x` for its handle, or
/// refused it manual mode.
pub open spec fn driven(m: Map<Id, Node>, done: Set<Id>, k: Id, start: int, calls: Seq<BridgeCall>) -> bool {
    match m[k].node_type {
        NodeType::Control(c) => match c.control_h {
            Some(h) => m[k].inputs@.len() >= 1 && done.contains(m[k].inputs@[0].id) && m.contains_key(
                m[k].inputs@[0].id,
            ) && (m[m[k].inputs@[0].id].value matches Some(x) && (m[k].value == Some(x) || exists|j: int|
                start <= j < calls.len() && ((#[trigger] calls[j] matches BridgeCall::WriteValue(h1, v, _) && h1
                    == h && v == x) || (calls[j] matches BridgeCall::WriteMode(h1, md, a) && h1 == h && md
                    == Mode::Manual && a is Err)))),
            None => true,
        },
        _ => true,
    }
}

/// Every valid control among the nodes `done` of a pass was driven to the
/// value of its input, or sits above a failure.
pub open spec fn controls_driven(m: Map<Id, Node>, done: Set<Id>, start: int, calls: Seq<BridgeCall>) -> bool {
    forall|k: Id|
        #[trigger] done.contains(k) && m.contains_key(k) && type_valid(m[k].node_type) && m[k].node_type is Control
            ==> unsettled(m, done, k) || driven(m, done, k, start, calls)
}

proof fn lemma_driven_kept(
    m1: Map<Id, Node>,
    m2: Map<Id, Node>,
    d1: Set<Id>,
    d2: Set<Id>,
    k: Id,
    start: int,
    c1: Seq<BridgeCall>,
    c2: Seq<BridgeCall>,
)
    requires
        driven(m1, d1, k, start, c1),
        done_kept(m1, m2, d1),
        d1.subset_of(d2),
        m1.contains_key(k),
        d1.contains(k),
        extends(c1, c2),
        0 <= start,
    ensures
        driven(m2, d2, k, start, c2),
{
    crate::hardware::lemma_no_call(c1);
    lemma_calls_kept(c1, c1, c2);
    assert(m2[k] == m1[k]);
    if let NodeType::Control(c) = m1[k].node_type {
        if let Some(h) = c.control_h {
            let j0 = m1[k].inputs@[0].id;
            assert(m2[j0] == m1[j0]);
            if m1[k].value != m1[j0].value {
                let x = m1[j0].value->Some_0;
                let j = choose|j: int|
                    start <= j < c1.len() && ((#[trigger] c1[j] matches BridgeCall::WriteValue(h1, v, _) && h1 == h && v
                        == x) || (c1[j] matches BridgeCall::WriteMode(h1, md, a) && h1 == h && md == Mode::Manual
                        && a is Err));
                assert(c2[j] == c1[j]);
            }
        }
    }
}

/// The drives of a pass stay recorded when the node `k` joins the nodes done,
/// with its own account.
proof fn lemma_controls_extended(
    m1: Map<Id, Node>,
    m2: Map<Id, Node>,
    d1: Set<Id>,
    k: Id,
    start: int,
    c1: Seq<BridgeCall>,
    c2: Seq<BridgeCall>,
)
    requires
        layered(m1),
        controls_driven(m1, d1, start, c1),
        done_kept(m1, m2, d1),
        extends(c1, c2),
        0 <= start,
        m2.contains_key(k) && type_valid(m2[k].node_type) && m2[k].node_type is Control ==> unsettled(
            m2,
            d1.insert(k),
            k,
        ) || driven(m2, d1.insert(k), k, start, c2),
    ensures
        controls_driven(m2, d1.insert(k), start, c2),
{
    assert forall|x: Id| #[trigger] d1.insert(k).contains(x) && m2.contains_key(x) && type_valid(m2[x].node_type)
        && m2[x].node_type is Control implies unsettled(m2, d1.insert(k), x) || driven(m2, d1.insert(k), x, start, c2) by {
        if x != k {
            assert(d1.contains(x));
            assert(m1.contains_key(x));
            assert(m2[x] == m1[x]);
            if unsettled(m1, d1, x) {
                lemma_unsettled_kept(m1, m2, d1, d1.insert(k), x);
            } else {
                lemma_driven_kept(m1, m2, d1, d1.insert(k), x, start, c1, c2);
            }
        }
    }
}

/// No call of `calls` from index `start` is a refresh.
pub open spec fn no_refresh(start: int, calls: Seq<BridgeCall>) -> bool {
    forall|j: int| start <= j < calls.len() ==> !((#[trigger] calls[j]) is Refresh)
}

/// Among `calls` from index `start`, a refresh can only come first, and
/// then it succeeded.
pub open spec fn refresh_first(start: int, calls: Seq<BridgeCall>) -> bool {
    &&& no_refresh(start + 1, calls)
    &&& start < calls.len() && calls[start] is Refresh ==> (calls[start] matches BridgeCall::Refresh(a) && a is Ok)
}

/// Every node of `stack` is in the graph, of a higher rank than the node `id`
/// when it is in the graph.
pub open spec fn stack_above(m: Map<Id, Node>, stack: Set<Id>, id: Id) -> bool {
    m.contains_key(id) ==> forall|p: Id|
        #[trigger] stack.contains(p) ==> m.contains_key(p) && level(light_of(m[id].node_type)) < level(
            light_of(m[p].node_type),
        )
}

proof fn lemma_states_done_kept(m1: Map<Id, Node>, m2: Map<Id, Node>, u: Set<Id>, d: Set<Id>)
    requires
        states_changed(m1, m2),
        updated_kept(m1, m2, u),
        d.subset_of(u),
    ensures
        done_kept(m1, m2, d),
{
    assert forall|k: Id| #[trigger] m1.contains_key(k) implies light_of(m2[k].node_type) == light_of(m1[k].node_type)
        && m2[k].inputs == m1[k].inputs by {
        assert(same_but_state(m1[k], m2[k]));
    }
    assert forall|k: Id| #[trigger] m1.contains_key(k) && d.contains(k) implies m2[k] == m1[k] by {
        assert(u.contains(k));
    }
}

/// The pass stays consistent when the node `k` joins the nodes done, with
/// its own account settled or unsettled.
proof fn lemma_consistent_extended(m1: Map<Id, Node>, m2: Map<Id, Node>, d1: Set<Id>, k: Id)
    requires
        layered(m1),
        done_kept(m1, m2, d1),
        pass_consistent(m1, d1),
        m2.contains_key(k) && type_valid(m2[k].node_type) ==> settled(m2, d1.insert(k), k) || unsettled(
            m2,
            d1.insert(k),
            k,
        ),
    ensures
        pass_consistent(m2, d1.insert(k)),
{
    lemma_consistent_kept(m1, m2, d1, d1.insert(k));
    assert forall|x: Id| #[trigger] d1.insert(k).contains(x) && m2.contains_key(x) && type_valid(m2[x].node_type) implies settled(
        m2,
        d1.insert(k),
        x,
    ) || unsettled(m2, d1.insert(k), x) by {
        if x != k {
            assert(d1.contains(x));
        }
    }
}

/// What the update of the input `i` of the node `k` needs of the pass.
proof fn lemma_input_call_ready(
    m0: Map<Id, Node>,
    m1: Map<Id, Node>,
    u0: Set<Id>,
    u1: Set<Id>,
    stack: Set<Id>,
    k: Id,
    i: int,
)
    requires
        layered(m0),
        states_changed(m0, m1),
        m0.contains_key(k),
        0 <= i < m0[k].inputs@.len(),
        stack.subset_of(u0),
        u0.subset_of(u1),
        u1.contains(k),
        stack_above(m0, stack, k),
    ensures
        layered(m1),
        stack.insert(k).subset_of(u1),
        stack_above(m1, stack.insert(k), m0[k].inputs@[i].id),
{
    lemma_states_done_kept(m0, m1, Set::empty(), Set::empty());
    lemma_layered_kept(m0, m1, Set::empty());
    let jd = m0[k].inputs@[i].id;
    if m1.contains_key(jd) {
        assert(m0.contains_key(jd));
        assert(level(light_of(m0[jd].node_type)) < level(light_of(m0[k].node_type)));
        assert forall|p: Id| #[trigger] stack.insert(k).contains(p) implies m1.contains_key(p) && level(
            light_of(m1[jd].node_type),
        ) < level(light_of(m1[p].node_type)) by {
            if p != k {
                assert(stack.contains(p));
            }
            assert(m0.contains_key(p));
        }
    }
    assert forall|p: Id| stack.insert(k).contains(p) implies u1.contains(p) by {
        if p != k {
            assert(stack.contains(p));
        }
    }
}

/// Updates the node `node_id` after updating its inputs, each node once: a
/// node already in `updated` only gives its value. An invalid node, or one
/// with an input of unknown value, gets no value (a control keeps its value).
/// The first error of an input is returned. The ghost `stack` holds the nodes
/// whose update is under way above this one; the nodes updated and not under
/// way are the nodes done, and the pass keeps them consistent.
#[verifier::spinoff_prover]
fn update_rec<H: HardwareBridge>(
    nodes: &mut Nodes,
    node_id: &Id,
    updated: &mut HashSet<Id>,
    bridge: &mut H,
    Ghost(stack): Ghost<Set<Id>>,
    Ghost(start): Ghost<int>,
) -> (r: Result<Option<Value>, UpdateError>)
    requires
        updatable(old(nodes)@),
        layered(old(nodes)@) ==> stack.subset_of(old(updated)@) && pass_consistent(
            old(nodes)@,
            old(updated)@.difference(stack),
        ) && stack_above(old(nodes)@, stack, *node_id) && 0 <= start <= old(bridge).calls().len() && sensors_read(
            old(nodes)@,
            old(updated)@.difference(stack),
            start,
            old(bridge).calls(),
        ) && controls_driven(old(nodes)@, old(updated)@.difference(stack), start, old(bridge).calls()),
    ensures
        extends(old(bridge).calls(), final(bridge).calls()),
        no_refresh(old(bridge).calls().len() as int, final(bridge).calls()),
        layered(old(nodes)@) ==> sensors_read(
            final(nodes)@,
            final(updated)@.difference(stack),
            start,
            final(bridge).calls(),
        ) && controls_driven(final(nodes)@, final(updated)@.difference(stack), start, final(bridge).calls()),
        states_changed(old(nodes)@, final(nodes)@),
        updatable(final(nodes)@),
        old(updated)@.subset_of(final(updated)@),
        final(updated)@.subset_of(old(updated)@.union(old(nodes)@.dom())),
        updated_kept(old(nodes)@, final(nodes)@, old(updated)@),
        only_updated_changed(old(nodes)@, final(nodes)@, final(updated)@),
        !old(nodes)@.contains_key(*node_id) ==> r == Err::<Option<Value>, UpdateError>(UpdateError::NodeNotFound(*node_id))
            && final(nodes)@ == old(nodes)@ && final(updated)@ == old(updated)@,
        old(nodes)@.contains_key(*node_id) ==> final(updated)@.contains(*node_id),
        old(nodes)@.contains_key(*node_id) && old(updated)@.contains(*node_id) ==> r == Ok::<Option<Value>, UpdateError>(old(nodes)@[*node_id].value)
            && final(updated)@ == old(updated)@,
        r matches Ok(v) ==> v == final(nodes)@[*node_id].value || v is None && light_of(
            old(nodes)@[*node_id].node_type,
        ) == NodeTypeLight::Control,
        old(nodes)@.contains_key(*node_id) && !old(updated)@.contains(*node_id) && !type_valid(old(nodes)@[*node_id].node_type)
            ==> r == Ok::<Option<Value>, UpdateError>(None),
        old(nodes)@.contains_key(*node_id) && !old(updated)@.contains(*node_id) && type_valid(old(nodes)@[*node_id].node_type)
            && is_computed(light_of(old(nodes)@[*node_id].node_type)) && r is Ok && not_own_input(old(nodes)@[*node_id])
            ==> final(nodes)@[*node_id].value == (if all_known(values_of_inputs(final(nodes)@, old(nodes)@[*node_id].inputs@)) {
                Some(computed_value(old(nodes)@[*node_id].node_type, known(values_of_inputs(final(nodes)@, old(nodes)@[*node_id].inputs@))) as Value)
            } else {
                None::<Value>
            }),
        layered(old(nodes)@) ==> pass_consistent(final(nodes)@, final(updated)@.difference(stack)),
        layered(old(nodes)@) && (r is Err || r == Ok::<Option<Value>, UpdateError>(None)) && (old(nodes)@.contains_key(
            *node_id,
        ) ==> light_of(old(nodes)@[*node_id].node_type) != NodeTypeLight::Control) ==> unsettled(
            final(nodes)@,
            final(updated)@.difference(stack),
            *node_id,
        ),
    decreases old(nodes)@.dom().difference(old(updated)@).len(),
{
    let ghost m0 = nodes@;
    let ghost u0 = updated@;
    let ghost lay = layered(m0);
    let ghost cc0 = bridge.calls();
    proof {
        assert(nodes@.dom().finite());
        crate::hardware::lemma_no_call(cc0);
    }
    if updated.contains(node_id) {
        proof {
            if lay && m0.contains_key(*node_id) && m0[*node_id].value is None && light_of(m0[*node_id].node_type)
                != NodeTypeLight::Control {
                assert(!stack.contains(*node_id)) by {
                    if stack.contains(*node_id) {
                        assert(level(light_of(m0[*node_id].node_type)) < level(light_of(m0[*node_id].node_type)));
                    }
                }
                assert(u0.difference(stack).contains(*node_id));
                let n = m0[*node_id];
                if type_valid(n.node_type) && is_computed(light_of(n.node_type)) && !unsettled(m0, u0.difference(stack), *node_id) {
                    assert(settled(m0, u0.difference(stack), *node_id));
                    assert(n.node_type is CustomTemp);
                    assert(known(values_of_inputs(m0, n.inputs@)).len() == 0);
                    assert(n.inputs@.len() == 0);
                }
            }
        }
        return match nodes.get(node_id) {
            Some(node) => Ok(node.value),
            None => Err(UpdateError::NodeNotFound(*node_id)),
        };
    }
    let valid = match nodes.get(node_id) {
        Some(node) => node.node_type.is_valid(),
        None => {
            return Err(UpdateError::NodeNotFound(*node_id));
        },
    };
    let ghost n0 = m0[*node_id];
    let ghost d0 = u0.difference(stack);
    let ghost inner = stack.insert(*node_id);
    updated.insert(*node_id);
    proof {
        if lay {
            assert(updated@.difference(inner) =~= d0);
            assert(updated@.difference(stack) =~= d0.insert(*node_id));
            assert(!stack.contains(*node_id));
        }
    }
    if !valid {
        let node = node_mut(nodes, *node_id);
        if !node.node_type.is_control() {
            node.value = None;
        }
        proof {
            assert(nodes@.dom() =~= m0.dom());
            assert(states_changed(m0, nodes@));
            lemma_updatable_kept(m0, nodes@);
            if lay {
                lemma_states_done_kept(m0, nodes@, u0, d0);
                lemma_consistent_extended(m0, nodes@, d0, *node_id);
                lemma_sensors_extended(m0, nodes@, d0, *node_id, start, cc0, cc0);
                lemma_controls_extended(m0, nodes@, d0, *node_id, start, cc0, cc0);
            }
        }
        return Ok(None);
    }
    let mut input_ids: Vec<Id> = Vec::new();
    let mut j: usize = 0;
    let n_inputs = nodes.get(node_id).unwrap().inputs.len();
    while j < n_inputs
        invariant
            nodes@ == m0,
            m0.contains_key(*node_id),
            n0 == m0[*node_id],
            n_inputs == n0.inputs@.len(),
            j <= n_inputs,
            input_ids@.len() == j,
            forall|i: int| 0 <= i < j ==> input_ids@[i] == (#[trigger] n0.inputs@[i]).id,
        decreases n_inputs - j,
    {
        let id = nodes.get(node_id).unwrap().inputs[j].id;
        input_ids.push(id);
        j = j + 1;
    }
    let mut input_values: Vec<Value> = Vec::new();
    let mut i: usize = 0;
    while i < input_ids.len()
        invariant
            i <= input_ids@.len(),
            m0 == old(nodes)@,
            u0 == old(updated)@,
            input_ids@.len() == n0.inputs@.len(),
            forall|i2: int| 0 <= i2 < input_ids@.len() ==> input_ids@[i2] == (#[trigger] n0.inputs@[i2]).id,
            m0.contains_key(*node_id),
            !u0.contains(*node_id),
            n0 == m0[*node_id],
            type_valid(n0.node_type),
            updatable(m0),
            states_changed(m0, nodes@),
            updatable(nodes@),
            u0.subset_of(updated@),
            updated@.subset_of(u0.union(m0.dom())),
            updated@.contains(*node_id),
            updated_kept(m0, nodes@, u0),
            only_updated_changed(m0, nodes@, updated@),
            nodes@[*node_id] == n0,
            input_values@.len() == i,
            inputs_ready(nodes@, updated@, input_ids@, input_values@),
            lay == layered(m0),
            inner == stack.insert(*node_id),
            d0 == u0.difference(stack),
            lay ==> stack.subset_of(u0) && stack_above(m0, stack, *node_id) && !stack.contains(*node_id),
            lay ==> pass_consistent(nodes@, updated@.difference(inner)),
            cc0 == old(bridge).calls(),
            extends(cc0, bridge.calls()),
            no_refresh(cc0.len() as int, bridge.calls()),
            lay ==> 0 <= start <= cc0.len() && sensors_read(nodes@, updated@.difference(inner), start, bridge.calls())
                && controls_driven(nodes@, updated@.difference(inner), start, bridge.calls()),
        decreases input_ids@.len() - i,
    {
        let ghost m1 = nodes@;
        let ghost u1 = updated@;
        let ghost jd = input_ids@[i as int];
        let ghost cb = bridge.calls();
        proof {
            lemma_fewer_left(m0.dom(), u0, u1, *node_id);
            if lay {
                assert(jd == n0.inputs@[i as int].id);
                lemma_input_call_ready(m0, m1, u0, u1, stack, *node_id, i as int);
            }
        }
        let res = update_rec(nodes, &input_ids[i], updated, bridge, Ghost(inner), Ghost(start));
        proof {
            lemma_calls_kept(cc0, cb, bridge.calls());
            assert forall|j: int| cc0.len() <= j < bridge.calls().len() implies !((#[trigger] bridge.calls()[j]) is Refresh) by {
                if j < cb.len() {
                    assert(bridge.calls()[j] == cb[j]);
                }
            }
            assert forall|k: Id| #[trigger] m0.contains_key(k) implies same_but_state(m0[k], nodes@[k]) by {
                assert(m1.contains_key(k));
            }
        }
        match res {
            Err(e) => {
                proof {
                    if lay {
                        let m = nodes@;
                        let dd = updated@.difference(inner);
                        assert(jd == n0.inputs@[i as int].id);
                        if m0.contains_key(jd) {
                            assert(light_of(m1[jd].node_type) != NodeTypeLight::Control);
                        }
                        assert(unsettled(m, dd, jd));
                        assert(updated@.difference(stack) =~= dd.insert(*node_id));
                        assert(!stack.contains(*node_id));
                        assert(!dd.contains(*node_id));
                        assert(done_kept(m, m, dd));
                        lemma_layered_kept(m0, m, Set::empty());
                        lemma_unsettled_kept(m, m, dd, dd.insert(*node_id), jd);
                        assert(m[*node_id] == n0);
                        lemma_unsettled_by_input(m, dd.insert(*node_id), *node_id, i as int);
                        lemma_consistent_extended(m, m, dd, *node_id);
                        crate::hardware::lemma_no_call(bridge.calls());
                        lemma_sensors_extended(m, m, dd, *node_id, start, bridge.calls(), bridge.calls());
                        lemma_controls_extended(m, m, dd, *node_id, start, bridge.calls(), bridge.calls());
                    }
                }
                return Err(e);
            },
            Ok(Some(v)) => {
                let ghost vals0 = input_values@;
                proof {
                    assert(m1.contains_key(jd));
                    assert(updated@.contains(jd));
                    assert(nodes@[jd].value == Some(v));
                }
                input_values.push(v);
                proof {
                    assert forall|i2: int| 0 <= i2 < input_values@.len() implies #[trigger] nodes@.contains_key(input_ids@[i2])
                        && updated@.contains(input_ids@[i2]) && nodes@[input_ids@[i2]].value == Some(input_values@[i2]) by {
                        if i2 < i {
                            assert(m1.contains_key(input_ids@[i2]));
                            assert(input_values@[i2] == vals0[i2]);
                        }
                    }
                    assert(inputs_ready(nodes@, updated@, input_ids@, input_values@));
                }
            },
            Ok(None) => {
                let ghost m = nodes@;
                let ghost dd = updated@.difference(inner);
                let node = node_mut(nodes, *node_id);
                if !node.node_type.is_control() {
                    node.value = None;
                }
                proof {
                    assert(nodes@.dom() =~= m0.dom());
                    assert(states_changed(m0, nodes@));
                    lemma_updatable_kept(m0, nodes@);
                    if not_own_input(n0) && is_computed(light_of(n0.node_type)) {
                        let bad = input_ids@[i as int];
                        assert(bad == n0.inputs@[i as int].id);
                        assert(m0[*node_id].id == *node_id);
                        assert(bad != *node_id);
                        assert(m0.contains_key(*node_id));
                        assert(m0.contains_key(bad));
                        assert(values_of_inputs(nodes@, n0.inputs@)[i as int] is None);
                    }
                    if lay {
                        assert(jd == n0.inputs@[i as int].id);
                        assert(m0.contains_key(jd));
                        assert(light_of(m1[jd].node_type) != NodeTypeLight::Control);
                        assert(m[jd].value is None);
                        assert(jd != *node_id);
                        assert(!inner.contains(jd)) by {
                            if stack.contains(jd) {
                                assert(level(light_of(m0[*node_id].node_type)) < level(light_of(m0[jd].node_type)));
                                assert(level(light_of(m0[jd].node_type)) < level(light_of(m0[*node_id].node_type)));
                            }
                        }
                        lemma_layered_kept(m0, m, Set::empty());
                        assert(unsettled(m, dd, jd));
                        assert(updated@.difference(stack) =~= dd.insert(*node_id));
                        assert(!stack.contains(*node_id));
                        assert(!dd.contains(*node_id));
                        assert(done_kept(m, nodes@, dd));
                        lemma_unsettled_kept(m, nodes@, dd, dd.insert(*node_id), jd);
                        lemma_layered_kept(m, nodes@, dd);
                        lemma_unsettled_by_input(nodes@, dd.insert(*node_id), *node_id, i as int);
                        lemma_consistent_extended(m, nodes@, dd, *node_id);
                        crate::hardware::lemma_no_call(bridge.calls());
                        lemma_sensors_extended(m, nodes@, dd, *node_id, start, bridge.calls(), bridge.calls());
                        lemma_controls_extended(m, nodes@, dd, *node_id, start, bridge.calls(), bridge.calls());
                    }
                }
                return Ok(None);
            },
        }
        i = i + 1;
    }
    let ghost m2 = nodes@;
    let ghost dd = updated@.difference(inner);
    proof {
        assert(n0.inputs@.len() == input_values@.len());
    }
    proof {
        assert(m0.contains_key(*node_id));
        assert(input_names(n0.node_type) == kept_inputs(light_of(n0.node_type), input_view(n0.inputs@)));
        assert(n0.inputs@.len() <= i32::MAX);
        assert(input_view(n0.inputs@).len() == n0.inputs@.len());
        if n0.node_type is Graph {
            assert(match m0[*node_id].node_type {
                NodeType::Graph(g) => strictly_sorted(g.coords@),
                _ => true,
            });
        }
        assert(input_values@.len() == n0.inputs@.len());
        if reads_one(light_of(n0.node_type)) {
            assert(input_names(n0.node_type).len() == 1);
            assert(input_values@.len() >= 1);
        }
        assert(update_ready(n0.node_type, input_values@));
    }
    let ghost c_before = bridge.calls();
    let node = node_mut(nodes, *node_id);
    let res = node.update(&input_values, bridge);
    proof {
        let c_after = bridge.calls();
        if c_after == c_before {
            crate::hardware::lemma_no_call(c_before);
        }
        lemma_calls_kept(cc0, c_before, c_after);
        assert forall|j: int| cc0.len() <= j < c_after.len() implies !((#[trigger] c_after[j]) is Refresh) by {
            if j < c_before.len() {
                assert(c_after[j] == c_before[j]);
            } else {
                assert(made_calls(c_before, c_after)[j - c_before.len()] == c_after[j]);
            }
        }
        assert(nodes@.dom() =~= m0.dom());
        assert(states_changed(m0, nodes@));
        lemma_updatable_kept(m0, nodes@);
    }
    proof {
        if not_own_input(n0) {
            assert(m0[*node_id].id == *node_id);
            assert forall|i2: int| 0 <= i2 < n0.inputs@.len() implies nodes@[(#[trigger] n0.inputs@[i2]).id]
                == m2[n0.inputs@[i2].id] by {
                assert(input_ids@[i2] == n0.inputs@[i2].id);
            }
            assert forall|i2: int| 0 <= i2 < n0.inputs@.len() implies (#[trigger] values_of_inputs(nodes@, n0.inputs@)[i2])
                == Some(input_values@[i2]) by {
                assert(input_ids@[i2] == n0.inputs@[i2].id);
                assert(m2.contains_key(input_ids@[i2]));
            }
            assert(all_known(values_of_inputs(nodes@, n0.inputs@)));
            assert(known(values_of_inputs(nodes@, n0.inputs@)) =~= input_values@);
        }
        if lay {
            lemma_layered_kept(m0, m2, Set::empty());
            assert(not_own_input(n0)) by {
                assert forall|i2: int| 0 <= i2 < n0.inputs@.len() implies (#[trigger] n0.inputs@[i2]).id != n0.id by {
                    assert(input_ids@[i2] == n0.inputs@[i2].id);
                    assert(m0.contains_key(n0.inputs@[i2].id));
                    assert(m0[*node_id].id == *node_id);
                }
            }
            assert forall|i2: int| 0 <= i2 < nodes@[*node_id].inputs@.len() implies dd.insert(*node_id).contains(
                #[trigger] nodes@[*node_id].inputs@[i2].id,
            ) && nodes@.contains_key(nodes@[*node_id].inputs@[i2].id) by {
                let x = n0.inputs@[i2].id;
                assert(input_ids@[i2] == x);
                assert(m2.contains_key(x));
                assert(m0.contains_key(x));
                assert(!stack.contains(x)) by {
                    if stack.contains(x) {
                        assert(level(light_of(m0[*node_id].node_type)) < level(light_of(m0[x].node_type)));
                        assert(level(light_of(m0[x].node_type)) < level(light_of(m0[*node_id].node_type)));
                    }
                }
                assert(x != *node_id);
            }
            assert(updated@.difference(stack) =~= dd.insert(*node_id));
            assert(!stack.contains(*node_id));
            assert(!dd.contains(*node_id));
            assert(done_kept(m2, nodes@, dd));
            if res is Err && light_of(n0.node_type) != NodeTypeLight::Control {
                assert(nodes@[*node_id].value is None);
                assert(failed_alone(nodes@[*node_id]));
            } else {
                assert(settled(nodes@, dd.insert(*node_id), *node_id));
            }
            lemma_consistent_extended(m2, nodes@, dd, *node_id);
            let c_after = bridge.calls();
            if nodes@[*node_id].inputs@.len() == 0 && (n0.node_type is Fan || n0.node_type is Temp) {
                let j = c_before.len() as int;
                assert(made_calls(c_before, c_after)[0] == c_after[j]);
            }
            lemma_sensors_extended(m2, nodes@, dd, *node_id, start, c_before, c_after);
            if n0.node_type is Control && type_valid(n0.node_type) {
                let c = n0.node_type->Control_0;
                let h = c.control_h->Some_0;
                let j0 = n0.inputs@[0].id;
                assert(input_ids@[0] == j0);
                assert(nodes@[j0] == m2[j0]);
                assert(m2[j0].value == Some(input_values@[0]));
                if n0.value != Some(input_values@[0]) {
                    let made = made_calls(c_before, c_after);
                    let j = c_before.len() as int;
                    assert(made[0] == c_after[j]);
                    if c.mode_set != Some(Mode::Manual) && made.len() == 2 {
                        assert(made[1] == c_after[j + 1]);
                    }
                }
                assert(driven(nodes@, dd.insert(*node_id), *node_id, start, c_after));
            }
            lemma_controls_extended(m2, nodes@, dd, *node_id, start, c_before, c_after);
        }
    }
    match res {
        Ok(()) => Ok(nodes.get(node_id).unwrap().value),
        Err(e) => Err(e),
    }
}

/// `rank` is lower on every input that names a node of the graph than on
/// the node that reads it.
pub open spec fn ranked(nodes: Map<Id, Node>, rank: spec_fn(Id) -> nat) -> bool {
    forall|k: Id, i: int|
        nodes.contains_key(k) && 0 <= i < nodes[k].inputs@.len() && nodes.contains_key(
            #[trigger] nodes[k].inputs@[i].id,
        ) ==> rank(nodes[k].inputs@[i].id) < rank(k)
}

/// No node reads itself through its inputs: some rank decreases along
/// every input.
pub open spec fn acyclic(nodes: Map<Id, Node>) -> bool {
    exists|rank: spec_fn(Id) -> nat| ranked(nodes, rank)
}

/// A rank of an acyclic graph.
pub open spec fn rank_of(nodes: Map<Id, Node>) -> spec_fn(Id) -> nat {
    choose|rank: spec_fn(Id) -> nat| ranked(nodes, rank)
}

/// A layered graph is acyclic.
pub proof fn lemma_layered_acyclic(nodes: Map<Id, Node>)
    requires
        layered(nodes),
    ensures
        acyclic(nodes),
{
    let rank = |k: Id| level(light_of(nodes[k].node_type));
    assert(ranked(nodes, rank));
}

/// The node `id` is in the graph, can run, and so can every node it reads,
/// down to the sensors.
pub open spec fn chain_valid(nodes: Map<Id, Node>, id: Id) -> bool
    decreases rank_of(nodes)(id), 1nat, 0nat when acyclic(nodes)
{
    nodes.contains_key(id) && type_valid(nodes[id].node_type) && inputs_valid(
        nodes,
        id,
        nodes[id].inputs@.len(),
    )
}

/// The first `n` inputs of the node `id` name nodes of the graph whose chains are valid.
pub open spec fn inputs_valid(nodes: Map<Id, Node>, id: Id, n: nat) -> bool
    decreases rank_of(nodes)(id), 0nat, n when acyclic(nodes)
{
    if n == 0 {
        true
    } else {
        inputs_valid(nodes, id, (n - 1) as nat) && nodes.contains_key(id) && n - 1
            < nodes[id].inputs@.len() && nodes.contains_key(nodes[id].inputs@[n - 1].id)
            && chain_valid(nodes, nodes[id].inputs@[n - 1].id)
    }
}

proof fn lemma_inputs_valid_prefix(nodes: Map<Id, Node>, id: Id, n: nat, m: nat)
    requires
        acyclic(nodes),
        inputs_valid(nodes, id, n),
        m <= n,
    ensures
        inputs_valid(nodes, id, m),
    decreases n,
{
    if m < n {
        lemma_inputs_valid_prefix(nodes, id, (n - 1) as nat, m);
    }
}

/// Whether the node `node_id` and every node it reads can run.
fn validate_rec(nodes: &Nodes, node_id: &Id) -> (r: bool)
    requires
        acyclic(nodes@),
    ensures
        r == chain_valid(nodes@, *node_id),
    decreases rank_of(nodes@)(*node_id),
{
    let node = match nodes.get(node_id) {
        Some(node) => node,
        None => {
            return false;
        },
    };
    if !node.node_type.is_valid() {
        return false;
    }
    let mut i: usize = 0;
    while i < node.inputs.len()
        invariant
            acyclic(nodes@),
            nodes@.contains_key(*node_id),
            *node == nodes@[*node_id],
            type_valid(node.node_type),
            i <= node.inputs@.len(),
            inputs_valid(nodes@, *node_id, i as nat),
        decreases node.inputs@.len() - i,
    {
        let id = node.inputs[i].id;
        if nodes.get(&id).is_none() {
            proof {
                if chain_valid(nodes@, *node_id) {
                    lemma_inputs_valid_prefix(nodes@, *node_id, node.inputs@.len(), (i + 1) as nat);
                }
            }
            return false;
        }
        proof {
            assert(id == nodes@[*node_id].inputs@[i as int].id);
            assert(rank_of(nodes@)(id) < rank_of(nodes@)(*node_id));
        }
        if !validate_rec(nodes, &id) {
            proof {
                if chain_valid(nodes@, *node_id) {
                    lemma_inputs_valid_prefix(nodes@, *node_id, node.inputs@.len(), (i + 1) as nat);
                }
            }
            return false;
        }
        i = i + 1;
    }
    true
}

/// The evaluation of the graph: an update pass, and the switches of
/// controls back to automatic mode.
pub struct Update {}

impl Update {
    pub fn new() -> (r: Self) {
        Self {  }
    }

    pub fn default() -> (r: Self) {
        Self::new()
    }

    /// Switches the control `node_id` to automatic mode.
    fn set_node_to_auto<H: HardwareBridge>(&mut self, nodes: &mut Nodes, node_id: &Id, bridge: &mut H) -> (r: Result<(), UpdateError>)
        ensures
            final(nodes)@.dom() == old(nodes)@.dom(),
            !old(nodes)@.contains_key(*node_id) ==> r == Err::<(), UpdateError>(UpdateError::NodeNotFound(*node_id))
                && final(nodes)@ == old(nodes)@,
            old(nodes)@.contains_key(*node_id) && !(old(nodes)@[*node_id].node_type is Control) ==> r is Err
                && is_invalid_error(r->Err_0, crate::node::node_name(old(nodes)@[*node_id])) && final(nodes)@ == old(nodes)@,
            forall|k: Id| #[trigger] old(nodes)@.contains_key(k) && k != *node_id ==> final(nodes)@[k] == old(nodes)@[k],
            old(nodes)@.contains_key(*node_id) ==> auto_switched(old(nodes)@[*node_id], final(nodes)@[*node_id], r),
            extends(old(bridge).calls(), final(bridge).calls()),
            !old(nodes)@.contains_key(*node_id) ==> made_calls(old(bridge).calls(), final(bridge).calls()).len() == 0,
            old(nodes)@.contains_key(*node_id) ==> auto_call(
                old(nodes)@[*node_id],
                made_calls(old(bridge).calls(), final(bridge).calls()),
                r,
            ),
    {
        proof {
            crate::hardware::lemma_no_call(bridge.calls());
        }
        if nodes.get(node_id).is_none() {
            return Err(UpdateError::NodeNotFound(*node_id));
        }
        let ghost m0 = nodes@;
        let node = node_mut(nodes, *node_id);
        let r = match &mut node.node_type {
            NodeType::Control(control) => control.set_mode(Mode::Auto, bridge),
            _ => Err(UpdateError::NodeIsInvalid(node.name().clone())),
        };
        proof {
            assert(nodes@.dom() =~= m0.dom());
        }
        r
    }

    /// Refreshes the bridge, then updates the roots and, through them, every
    /// node they read, each node once. A failure of one root is left aside;
    /// only a failure of the refresh is returned, and then nothing else is
    /// asked of the bridge. In a layered graph the nodes reached, the roots
    /// among them, are left consistent: each valid one either holds what its
    /// item gives for the values of its inputs, all reached, or sits above a
    /// node that failed on its own account; each valid sensor reached holds
    /// what a read of it answered in this pass, and each valid control
    /// reached was driven to its input's value, or sits above a failure.
    pub fn optimized<H: HardwareBridge>(
        &mut self,
        nodes: &mut Nodes,
        root_nodes: &RootNodes,
        bridge: &mut H,
    ) -> (r: Result<(), UpdateError>)
        requires
            updatable(old(nodes)@),
        ensures
            states_changed(old(nodes)@, final(nodes)@),
            updatable(final(nodes)@),
            r is Err ==> final(nodes)@ == old(nodes)@ && r->Err_0 is Hardware,
            r matches Err(UpdateError::Hardware(e)) ==> final(bridge).calls() == old(bridge).calls().push(
                BridgeCall::Refresh(Err(e)),
            ),
            r is Ok ==> refresh_first(old(bridge).calls().len() as int, final(bridge).calls()),
            r is Ok && layered(old(nodes)@) ==> exists|done: Set<Id>|
                #[trigger] pass_consistent(final(nodes)@, done) && done.subset_of(final(nodes)@.dom()) && (forall|k: Id|
                    #[trigger] root_nodes@.contains(k) && old(nodes)@.contains_key(k) ==> done.contains(k))
                    && sensors_read(final(nodes)@, done, old(bridge).calls().len() as int, final(bridge).calls())
                    && controls_driven(final(nodes)@, done, old(bridge).calls().len() as int, final(bridge).calls()),
            extends(old(bridge).calls(), final(bridge).calls()),
    {
        let ghost m0 = nodes@;
        let refresh = bridge.update();
        let ghost refreshed = refresh;
        if let Err(e) = refresh {
            proof {
                assert(states_changed(m0, nodes@));
                crate::hardware::lemma_one_call(old(bridge).calls(), BridgeCall::Refresh(refreshed));
            }
            return Err(UpdateError::Hardware(e));
        }
        let mut updated: HashSet<Id> = HashSet::new();
        let mut i: usize = 0;
        let ghost c_start = old(bridge).calls().len();
        proof {
            assert(states_changed(m0, nodes@));
            crate::hardware::lemma_no_call(old(bridge).calls());
            if bridge.calls() != old(bridge).calls() {
                crate::hardware::lemma_one_call(old(bridge).calls(), BridgeCall::Refresh(refreshed));
                assert(refreshed is Ok);
                assert(bridge.calls()[c_start as int] == BridgeCall::Refresh(refreshed));
            }
        }
        while i < root_nodes.len()
            invariant
                i <= root_nodes@.len(),
                m0 == old(nodes)@,
                c_start == old(bridge).calls().len(),
                extends(old(bridge).calls(), bridge.calls()),
                refresh_first(c_start as int, bridge.calls()),
                layered(m0) ==> sensors_read(nodes@, updated@, c_start as int, bridge.calls()) && controls_driven(
                    nodes@,
                    updated@,
                    c_start as int,
                    bridge.calls(),
                ),
                states_changed(m0, nodes@),
                updatable(nodes@),
                layered(m0) ==> layered(nodes@) && pass_consistent(nodes@, updated@),
                updated@.subset_of(m0.dom()),
                forall|j: int| 0 <= j < i && m0.contains_key(root_nodes@[j]) ==> updated@.contains(#[trigger] root_nodes@[j]),
            decreases root_nodes@.len() - i,
        {
            let ghost m1 = nodes@;
            let ghost u1 = updated@;
            let ghost cb = bridge.calls();
            proof {
                assert(updated@.difference(Set::empty()) =~= updated@);
            }
            let _ = update_rec(nodes, &root_nodes[i], &mut updated, bridge, Ghost(Set::empty()), Ghost(c_start as int));
            proof {
                lemma_states_trans(m0, m1, nodes@);
                assert(updated@.difference(Set::empty()) =~= updated@);
                lemma_calls_kept(old(bridge).calls(), cb, bridge.calls());
                assert forall|j: int| c_start + 1 <= j < bridge.calls().len() implies !((#[trigger] bridge.calls()[j]) is Refresh) by {
                    if j < cb.len() {
                        assert(bridge.calls()[j] == cb[j]);
                    }
                }
                if c_start < cb.len() {
                    assert(bridge.calls()[c_start as int] == cb[c_start as int]);
                }
                if layered(m0) {
                    lemma_states_done_kept(m0, nodes@, Set::empty(), Set::empty());
                    lemma_layered_kept(m0, nodes@, Set::empty());
                }
                assert forall|j: int| 0 <= j < i + 1 && m0.contains_key(root_nodes@[j]) implies updated@.contains(#[trigger] root_nodes@[j]) by {
                    if j < i {
                        assert(u1.contains(root_nodes@[j]));
                    }
                }
            }
            i = i + 1;
        }
        proof {
            if layered(m0) {
                assert forall|k: Id| #[trigger] root_nodes@.contains(k) && old(nodes)@.contains_key(k) implies updated@.contains(k) by {
                    let j = choose|j: int| 0 <= j < root_nodes@.len() && root_nodes@[j] == k;
                    assert(m0.contains_key(root_nodes@[j]));
                }
                assert(pass_consistent(nodes@, updated@));
            }
        }
        Ok(())
    }

    /// Updates every node, sensors first, then custom temperatures, then
    /// behaviors, then controls, each node once. Failures are left aside. In
    /// a layered graph every node is left consistent, read and driven, as the
    /// nodes reached by `optimized` are.
    pub fn all_except_root_nodes<H: HardwareBridge>(&mut self, nodes: &mut Nodes, bridge: &mut H) -> (r: Result<(), UpdateError>)
        requires
            updatable(old(nodes)@),
        ensures
            r is Ok,
            states_changed(old(nodes)@, final(nodes)@),
            updatable(final(nodes)@),
            layered(old(nodes)@) ==> pass_consistent(final(nodes)@, final(nodes)@.dom()) && sensors_read(
                final(nodes)@,
                final(nodes)@.dom(),
                old(bridge).calls().len() as int,
                final(bridge).calls(),
            ) && controls_driven(final(nodes)@, final(nodes)@.dom(), old(bridge).calls().len() as int, final(bridge).calls()),
            extends(old(bridge).calls(), final(bridge).calls()),
    {
        let ghost m0 = nodes@;
        let ids = update_order(nodes);
        let mut updated: HashSet<Id> = HashSet::new();
        let mut i: usize = 0;
        let ghost c_start = old(bridge).calls().len();
        proof {
            assert(states_changed(m0, nodes@));
            crate::hardware::lemma_no_call(old(bridge).calls());
        }
        while i < ids.len()
            invariant
                i <= ids@.len(),
                m0 == old(nodes)@,
                c_start == old(bridge).calls().len(),
                extends(old(bridge).calls(), bridge.calls()),
                layered(m0) ==> sensors_read(nodes@, updated@, c_start as int, bridge.calls()) && controls_driven(
                    nodes@,
                    updated@,
                    c_start as int,
                    bridge.calls(),
                ),
                states_changed(m0, nodes@),
                updatable(nodes@),
                layered(m0) ==> layered(nodes@) && pass_consistent(nodes@, updated@),
                updated@.subset_of(m0.dom()),
                ids@.to_set() == m0.dom(),
                forall|j: int| 0 <= j < i && m0.contains_key(ids@[j]) ==> updated@.contains(#[trigger] ids@[j]),
            decreases ids@.len() - i,
        {
            let ghost m1 = nodes@;
            let ghost u1 = updated@;
            let ghost cb = bridge.calls();
            proof {
                assert(updated@.difference(Set::empty()) =~= updated@);
            }
            let _ = update_rec(nodes, &ids[i], &mut updated, bridge, Ghost(Set::empty()), Ghost(c_start as int));
            proof {
                lemma_states_trans(m0, m1, nodes@);
                assert(updated@.difference(Set::empty()) =~= updated@);
                lemma_calls_kept(old(bridge).calls(), cb, bridge.calls());
                if layered(m0) {
                    lemma_states_done_kept(m0, nodes@, Set::empty(), Set::empty());
                    lemma_layered_kept(m0, nodes@, Set::empty());
                }
                assert forall|j: int| 0 <= j < i + 1 && m0.contains_key(ids@[j]) implies updated@.contains(#[trigger] ids@[j]) by {
                    if j < i {
                        assert(u1.contains(ids@[j]));
                    }
                }
            }
            i = i + 1;
        }
        proof {
            assert(updated@ =~= nodes@.dom()) by {
                assert forall|k: Id| nodes@.contains_key(k) implies updated@.contains(k) by {
                    assert(m0.contains_key(k));
                    assert(ids@.to_set().contains(k));
                    let j = choose|j: int| 0 <= j < ids@.len() && ids@[j] == k;
                    assert(m0.contains_key(ids@[j]));
                }
            }
        }
        Ok(())
    }

    /// Reads the current value of each root control from the bridge; a
    /// control whose value cannot be read loses its value.
    pub fn root_nodes<H: HardwareBridge>(
        &mut self,
        nodes: &mut Nodes,
        root_nodes: &RootNodes,
        bridge: &mut H,
    ) -> (r: Result<(), UpdateError>)
        ensures
            r is Ok,
            final(nodes)@.dom() == old(nodes)@.dom(),
            forall|k: Id| #[trigger] old(nodes)@.contains_key(k) ==> (if root_nodes@.contains(k)
                && old(nodes)@[k].node_type is Control {
                value_read(old(nodes)@[k], final(nodes)@[k]) && read_from(
                    old(nodes)@[k],
                    final(nodes)@[k],
                    old(bridge).calls().len() as int,
                    final(bridge).calls(),
                )
            } else {
                final(nodes)@[k] == old(nodes)@[k]
            }),
            extends(old(bridge).calls(), final(bridge).calls()),
            only_reads(old(bridge).calls().len() as int, final(bridge).calls()),
    {
        let ghost m0 = nodes@;
        let ghost c0 = bridge.calls();
        proof {
            crate::hardware::lemma_no_call(c0);
        }
        let mut i: usize = 0;
        while i < root_nodes.len()
            invariant
                i <= root_nodes@.len(),
                m0 == old(nodes)@,
                c0 == old(bridge).calls(),
                nodes@.dom() == m0.dom(),
                extends(c0, bridge.calls()),
                only_reads(c0.len() as int, bridge.calls()),
                forall|k: Id| #[trigger] m0.contains_key(k) ==> (if root_nodes@.take(i as int).contains(k)
                    && m0[k].node_type is Control {
                    value_read(m0[k], nodes@[k]) && read_from(m0[k], nodes@[k], c0.len() as int, bridge.calls())
                } else {
                    nodes@[k] == m0[k]
                }),
            decreases root_nodes@.len() - i,
        {
            let id = root_nodes[i];
            proof {
                assert(root_nodes@.take(i + 1) =~= root_nodes@.take(i as int).push(id));
                assert forall|k2: Id| root_nodes@.take(i + 1).contains(k2) <==> root_nodes@.take(i as int).contains(k2) || k2 == id by {
                    lemma_push_contains(root_nodes@.take(i as int), id, k2);
                }
            }
            if nodes.get(&id).is_some() {
                let ghost m1 = nodes@;
                let ghost c1 = bridge.calls();
                let node = node_mut(nodes, id);
                if let NodeType::Control(control) = &node.node_type {
                    match control.get_value(bridge) {
                        Ok(value) => {
                            node.value = Some(value);
                        },
                        Err(_) => {
                            node.value = None;
                        },
                    }
                }
                proof {
                    assert(nodes@.dom() =~= m0.dom());
                    let c2 = bridge.calls();
                    crate::hardware::lemma_no_call(c1);
                    lemma_calls_kept(c0, c1, c2);
                    assert forall|k: Id| #[trigger] m0.contains_key(k) && root_nodes@.take(i as int).contains(k)
                        && m0[k].node_type is Control && k != id implies read_from(m0[k], nodes@[k], c0.len() as int, c2) by {
                        lemma_read_kept(m0[k], nodes@[k], c0.len() as int, c1, c2);
                    }
                    if m0[id].node_type is Control {
                        let c = m0[id].node_type->Control_0;
                        if c.control_h is Some {
                            let j = c1.len() as int;
                            assert(made_calls(c1, c2)[0] == c2[j]);
                        }
                    }
                }
            }
            i = i + 1;
        }
        proof {
            assert(root_nodes@.take(root_nodes@.len() as int) =~= root_nodes@);
        }
        Ok(())
    }

    /// Asks automatic mode of each root whose chain is valid: a control not
    /// in automatic mode yet is asked it through its handle, and holds it when
    /// the bridge accepts. Nothing else is asked of the bridge.
    pub fn set_valid_controls_to_auto<H: HardwareBridge>(
        &mut self,
        nodes: &mut Nodes,
        root_nodes: &RootNodes,
        bridge: &mut H,
    )
        requires
            acyclic(old(nodes)@),
        ensures
            final(nodes)@.dom() == old(nodes)@.dom(),
            forall|k: Id| #[trigger] old(nodes)@.contains_key(k) ==> (if auto_target(old(nodes)@, root_nodes@, k, true) {
                auto_requested(old(nodes)@[k], final(nodes)@[k], old(bridge).calls().len() as int, final(bridge).calls())
            } else {
                final(nodes)@[k] == old(nodes)@[k]
            }),
            extends(old(bridge).calls(), final(bridge).calls()),
            only_auto_requests(old(bridge).calls().len() as int, final(bridge).calls()),
    {
        self.set_controls_to_auto(nodes, root_nodes, bridge, true);
    }

    /// Asks automatic mode of each root whose chain is not valid, as
    /// `set_valid_controls_to_auto` does for the valid ones.
    pub fn set_invalid_controls_to_auto<H: HardwareBridge>(
        &mut self,
        nodes: &mut Nodes,
        root_nodes: &RootNodes,
        bridge: &mut H,
    )
        requires
            acyclic(old(nodes)@),
        ensures
            final(nodes)@.dom() == old(nodes)@.dom(),
            forall|k: Id| #[trigger] old(nodes)@.contains_key(k) ==> (if auto_target(old(nodes)@, root_nodes@, k, false) {
                auto_requested(old(nodes)@[k], final(nodes)@[k], old(bridge).calls().len() as int, final(bridge).calls())
            } else {
                final(nodes)@[k] == old(nodes)@[k]
            }),
            extends(old(bridge).calls(), final(bridge).calls()),
            only_auto_requests(old(bridge).calls().len() as int, final(bridge).calls()),
    {
        self.set_controls_to_auto(nodes, root_nodes, bridge, false);
    }

    /// Switches to automatic mode each root whose chain validity is `valid`;
    /// the validity of every root is read before any switch.
    fn set_controls_to_auto<H: HardwareBridge>(
        &mut self,
        nodes: &mut Nodes,
        root_nodes: &RootNodes,
        bridge: &mut H,
        valid: bool,
    )
        requires
            acyclic(old(nodes)@),
        ensures
            final(nodes)@.dom() == old(nodes)@.dom(),
            forall|k: Id| #[trigger] old(nodes)@.contains_key(k) ==> (if auto_target(old(nodes)@, root_nodes@, k, valid) {
                auto_requested(old(nodes)@[k], final(nodes)@[k], old(bridge).calls().len() as int, final(bridge).calls())
            } else {
                final(nodes)@[k] == old(nodes)@[k]
            }),
            extends(old(bridge).calls(), final(bridge).calls()),
            only_auto_requests(old(bridge).calls().len() as int, final(bridge).calls()),
    {
        let ghost m0 = nodes@;
        let ghost c0 = bridge.calls();
        proof {
            crate::hardware::lemma_no_call(c0);
        }
        let mut chosen: Vec<bool> = Vec::new();
        let mut i: usize = 0;
        while i < root_nodes.len()
            invariant
                i <= root_nodes@.len(),
                nodes@ == m0,
                acyclic(m0),
                chosen@.len() == i,
                forall|j: int| 0 <= j < i ==> chosen@[j] == (chain_valid(m0, #[trigger] root_nodes@[j]) == valid),
            decreases root_nodes@.len() - i,
        {
            let v = validate_rec(nodes, &root_nodes[i]);
            chosen.push(v == valid);
            i = i + 1;
        }
        let mut i: usize = 0;
        while i < root_nodes.len()
            invariant
                i <= root_nodes@.len(),
                chosen@.len() == root_nodes@.len(),
                forall|j: int| 0 <= j < root_nodes@.len() ==> chosen@[j] == (chain_valid(m0, #[trigger] root_nodes@[j]) == valid),
                m0 == old(nodes)@,
                c0 == old(bridge).calls(),
                nodes@.dom() == m0.dom(),
                extends(c0, bridge.calls()),
                only_auto_requests(c0.len() as int, bridge.calls()),
                forall|k: Id| #[trigger] m0.contains_key(k) ==> (if root_nodes@.take(i as int).contains(k)
                    && chain_valid(m0, k) == valid {
                    auto_requested(m0[k], nodes@[k], c0.len() as int, bridge.calls())
                } else {
                    nodes@[k] == m0[k]
                }),
            decreases root_nodes@.len() - i,
        {
            let id = root_nodes[i];
            proof {
                assert(root_nodes@.take(i + 1) =~= root_nodes@.take(i as int).push(id));
                assert forall|k2: Id| root_nodes@.take(i + 1).contains(k2) <==> root_nodes@.take(i as int).contains(k2) || k2 == id by {
                    lemma_push_contains(root_nodes@.take(i as int), id, k2);
                }
            }
            if chosen[i] {
                let ghost m1 = nodes@;
                let ghost c1 = bridge.calls();
                let r = self.set_node_to_auto(nodes, &id, bridge);
                proof {
                    let c2 = bridge.calls();
                    lemma_calls_kept(c0, c1, c2);
                    assert forall|k: Id| #[trigger] m0.contains_key(k) && root_nodes@.take(i as int).contains(k)
                        && chain_valid(m0, k) == valid && k != id implies auto_requested(m0[k], nodes@[k], c0.len() as int, c2) by {
                        lemma_auto_kept(m0[k], nodes@[k], c0.len() as int, c1, c2);
                    }
                    if m0.contains_key(id) {
                        assert(chosen@[i as int] == (chain_valid(m0, root_nodes@[i as int]) == valid));
                        lemma_auto_step(
                            m0[id],
                            m1[id],
                            nodes@[id],
                            c0.len() as int,
                            c1,
                            c2,
                            r,
                            root_nodes@.take(i as int).contains(id),
                        );
                    }
                    assert forall|j: int| c0.len() <= j < c2.len() implies (#[trigger] c2[j] matches BridgeCall::WriteMode(_, m, _)
                        && m == Mode::Auto) by {
                        if j >= c1.len() {
                            assert(made_calls(c1, c2)[j - c1.len()] == c2[j]);
                        }
                    }
                }
            }
            i = i + 1;
        }
        proof {
            assert(root_nodes@.take(root_nodes@.len() as int) =~= root_nodes@);
        }
    }
}

/// The calls `made` by a switch of the node `a` to automatic mode, and its
/// result `r`: one request of `Auto` for its handle, reported by `r`, when it
/// is a control bound to a handle and not in automatic mode yet; otherwise no
/// call, and success only for a control already in automatic mode.
pub open spec fn auto_call(a: Node, made: Seq<BridgeCall>, r: Result<(), UpdateError>) -> bool {
    match a.node_type {
        NodeType::Control(c) => if c.mode_set == Some(Mode::Auto) {
            made.len() == 0 && r is Ok
        } else {
            match c.control_h {
                Some(h) => crate::config::control::mode_switch(h, Mode::Auto, made, r),
                None => made.len() == 0 && r is Err,
            }
        },
        _ => made.len() == 0 && r is Err,
    }
}

/// The root `a` became `b`: a control bound to a handle and not in automatic
/// mode was asked `Auto` for that handle, among `calls` from index `start`,
/// and holds that mode when the bridge accepted it; any other node is kept.
pub open spec fn auto_requested(a: Node, b: Node, start: int, calls: Seq<BridgeCall>) -> bool {
    match a.node_type {
        NodeType::Control(c) => if c.mode_set == Some(Mode::Auto) || c.control_h is None {
            b == a
        } else {
            exists|j: int|
                start <= j < calls.len() && (#[trigger] calls[j] matches BridgeCall::WriteMode(h1, m1, ans)
                    && Some(h1) == c.control_h && m1 == Mode::Auto && auto_switched(a, b, write_reported(ans)))
        },
        _ => b == a,
    }
}

/// Every call of `calls` from index `start` asks a control for automatic mode.
pub open spec fn only_auto_requests(start: int, calls: Seq<BridgeCall>) -> bool {
    forall|j: int| start <= j < calls.len() ==> (#[trigger] calls[j] matches BridgeCall::WriteMode(_, m, _) && m
        == Mode::Auto)
}

proof fn lemma_auto_kept(a: Node, b: Node, start: int, c1: Seq<BridgeCall>, c2: Seq<BridgeCall>)
    requires
        auto_requested(a, b, start, c1),
        c1.len() <= c2.len(),
        forall|j: int| 0 <= j < c1.len() ==> c2[j] == c1[j],
        0 <= start,
    ensures
        auto_requested(a, b, start, c2),
{
    if let NodeType::Control(c) = a.node_type {
        if !(c.mode_set == Some(Mode::Auto) || c.control_h is None) {
            let j = choose|j: int|
                start <= j < c1.len() && (#[trigger] c1[j] matches BridgeCall::WriteMode(h1, m1, ans)
                    && Some(h1) == c.control_h && m1 == Mode::Auto && auto_switched(a, b, write_reported(ans)));
            assert(c2[j] == c1[j]);
        }
    }
}

/// One more switch of a root keeps it requested: `a1` is the root `a0`
/// before this switch (handled already when `prev`), `a2` after it.
proof fn lemma_auto_step(
    a0: Node,
    a1: Node,
    a2: Node,
    start: int,
    c1: Seq<BridgeCall>,
    c2: Seq<BridgeCall>,
    r: Result<(), UpdateError>,
    prev: bool,
)
    requires
        0 <= start <= c1.len(),
        extends(c1, c2),
        prev ==> auto_requested(a0, a1, start, c1),
        !prev ==> a1 == a0,
        auto_switched(a1, a2, r),
        auto_call(a1, made_calls(c1, c2), r),
    ensures
        auto_requested(a0, a2, start, c2),
{
    crate::hardware::lemma_no_call(c1);
    lemma_calls_kept(c1, c1, c2);
    if prev {
        lemma_auto_kept(a0, a1, start, c1, c2);
    }
    if let NodeType::Control(c) = a0.node_type {
        if !(c.mode_set == Some(Mode::Auto) || c.control_h is None) {
            let c1n = a1.node_type->Control_0;
            if c1n.mode_set == Some(Mode::Auto) {
                assert(a2 == a1);
            } else {
                if prev {
                    let j = choose|j: int|
                        start <= j < c1.len() && (#[trigger] c1[j] matches BridgeCall::WriteMode(h1, m1, ans)
                            && Some(h1) == c.control_h && m1 == Mode::Auto && auto_switched(a0, a1, write_reported(ans)));
                    assert(a1 == a0);
                }
                let j = c1.len() as int;
                assert(made_calls(c1, c2)[0] == c2[j]);
            }
        } else {
            assert(a2 == a1);
        }
    } else {
        assert(a2 == a1);
    }
}

/// The control `a`, if bound to a handle, became `b`, which holds the value
/// that a read of that handle, among `calls` from index `start`, answered.
pub open spec fn read_from(a: Node, b: Node, start: int, calls: Seq<BridgeCall>) -> bool {
    match a.node_type {
        NodeType::Control(c) => match c.control_h {
            Some(h) => exists|j: int|
                start <= j < calls.len() && (#[trigger] calls[j] matches BridgeCall::ReadControl(h1, ans) && h1
                    == h && b.value == answer_value(ans)),
            None => true,
        },
        _ => true,
    }
}

/// Every call of `calls` from index `start` reads a control.
pub open spec fn only_reads(start: int, calls: Seq<BridgeCall>) -> bool {
    forall|j: int| start <= j < calls.len() ==> (#[trigger] calls[j]) is ReadControl
}

proof fn lemma_calls_kept(c0: Seq<BridgeCall>, c1: Seq<BridgeCall>, c2: Seq<BridgeCall>)
    requires
        extends(c0, c1),
        extends(c1, c2),
    ensures
        extends(c0, c2),
        forall|j: int| 0 <= j < c1.len() ==> c2[j] == c1[j],
{
    assert forall|j: int| 0 <= j < c1.len() implies c2[j] == c1[j] by {
        assert(c2.subrange(0, c1.len() as int)[j] == c2[j]);
    }
    assert(c2.subrange(0, c0.len() as int) =~= c0) by {
        assert forall|j: int| 0 <= j < c0.len() implies c2.subrange(0, c0.len() as int)[j] == c0[j] by {
            assert(c1.subrange(0, c0.len() as int)[j] == c1[j]);
        }
    }
}

proof fn lemma_read_kept(a: Node, b: Node, start: int, c1: Seq<BridgeCall>, c2: Seq<BridgeCall>)
    requires
        read_from(a, b, start, c1),
        c1.len() <= c2.len(),
        forall|j: int| 0 <= j < c1.len() ==> c2[j] == c1[j],
        0 <= start,
    ensures
        read_from(a, b, start, c2),
{
    if let NodeType::Control(c) = a.node_type {
        if let Some(h) = c.control_h {
            let j = choose|j: int|
                start <= j < c1.len() && (#[trigger] c1[j] matches BridgeCall::ReadControl(h1, ans) && h1 == h
                    && b.value == answer_value(ans));
            assert(c2[j] == c1[j]);
        }
    }
}

/// `b` is the node `a` after an attempt to switch it to automatic mode: a
/// control gets the mode `Auto` when the attempt succeeds and keeps its mode
/// otherwise; any other node is unchanged.
pub open spec fn auto_switched(a: Node, b: Node, r: Result<(), UpdateError>) -> bool {
    &&& b.id == a.id
    &&& b.inputs == a.inputs
    &&& b.value == a.value
    &&& match (a.node_type, b.node_type) {
        (NodeType::Control(x), NodeType::Control(y)) => same_but_mode(x, y) && (if r is Ok {
            y.mode_set == Some(Mode::Auto)
        } else {
            y.mode_set == x.mode_set
        }),
        _ => b.node_type == a.node_type,
    }
}

/// `k` is listed in `roots` and the validity of its chain is `valid`.
pub open spec fn auto_target(nodes: Map<Id, Node>, roots: Seq<Id>, k: Id, valid: bool) -> bool {
    roots.contains(k) && chain_valid(nodes, k) == valid
}

/// The nodes of `nodes` ordered by rank: sensors, custom temperatures,
/// behaviors, then controls, each identifier once.
pub fn update_order(nodes: &Nodes) -> (r: Vec<Id>)
    ensures
        r@.no_duplicates(),
        r@.to_set() == nodes@.dom(),
        forall|a: int, b: int|
            0 <= a < b < r@.len() ==> level(light_of(nodes@[#[trigger] r@[a]].node_type)) <= level(
                light_of(nodes@[#[trigger] r@[b]].node_type),
            ),
{
    let keys = keys_of(nodes);
    let mut r: Vec<Id> = Vec::new();
    let mut lvl: u8 = 0;
    while lvl < 4
        invariant
            lvl <= 4,
            keys@.to_set() == nodes@.dom(),
            keys@.no_duplicates(),
            r@.no_duplicates(),
            forall|k: Id| r@.contains(k) <==> keys@.contains(k) && level(light_of(nodes@[k].node_type)) < lvl,
            forall|a: int, b: int|
                0 <= a < b < r@.len() ==> level(light_of(nodes@[#[trigger] r@[a]].node_type)) <= level(
                    light_of(nodes@[#[trigger] r@[b]].node_type),
                ),
            forall|a: int| 0 <= a < r@.len() ==> level(light_of(nodes@[#[trigger] r@[a]].node_type)) < lvl,
        decreases 4 - lvl,
    {
        let mut i: usize = 0;
        let ghost r0 = r@;
        while i < keys.len()
            invariant
                lvl < 4,
                i <= keys@.len(),
                keys@.to_set() == nodes@.dom(),
                keys@.no_duplicates(),
                r@.no_duplicates(),
                r0.len() <= r@.len(),
                r@.subrange(0, r0.len() as int) == r0,
                forall|k: Id| #[trigger] r0.contains(k) <==> keys@.contains(k) && level(light_of(nodes@[k].node_type)) < lvl,
                forall|k: Id| #[trigger] r@.contains(k) <==> r0.contains(k) || (keys@.take(i as int).contains(k)
                    && level(light_of(nodes@[k].node_type)) == lvl),
                forall|a: int| 0 <= a < r0.len() ==> level(light_of(nodes@[#[trigger] r0[a]].node_type)) < lvl,
                forall|a: int| r0.len() <= a < r@.len() ==> level(light_of(nodes@[#[trigger] r@[a]].node_type)) == lvl,
                forall|a: int, b: int|
                    0 <= a < b < r0.len() ==> level(light_of(nodes@[#[trigger] r0[a]].node_type)) <= level(
                        light_of(nodes@[#[trigger] r0[b]].node_type),
                    ),
            decreases keys@.len() - i,
        {
            let k = keys[i];
            proof {
                assert(keys@.to_set().contains(k));
                assert(keys@.take(i + 1) =~= keys@.take(i as int).push(k));
                assert forall|k2: Id| keys@.take(i + 1).contains(k2) <==> keys@.take(i as int).contains(k2) || k2 == k by {
                    lemma_push_contains(keys@.take(i as int), k, k2);
                }
                assert(!keys@.take(i as int).contains(k)) by {
                    if keys@.take(i as int).contains(k) {
                        let j = choose|j: int| 0 <= j < i && keys@.take(i as int)[j] == k;
                        assert(keys@[j] == keys@[i as int]);
                    }
                }
            }
            let n = nodes.get(&k).unwrap();
            let nl = node_level(n);
            proof {
                assert(*n == nodes@[k]);
                assert(r@.contains(k) ==> r0.contains(k) || (keys@.take(i as int).contains(k) && level(light_of(nodes@[k].node_type)) == lvl));
            }
            let ghost rprev = r@;
            if nl == lvl {
                let ghost rb = r@;
                proof {
                    assert(!r0.contains(k));
                    assert(!rb.contains(k));
                }
                r.push(k);
                proof {
                    assert forall|a: int, b: int| 0 <= a < b < r@.len() implies r@[a] != r@[b] by {
                        if b == r@.len() - 1 {
                            assert(rb.contains(rb[a]));
                        } else {
                            assert(rb[a] != rb[b]);
                        }
                    }
                    assert forall|k2: Id| r@.contains(k2) <==> rb.contains(k2) || k2 == k by {
                        lemma_push_contains(rb, k, k2);
                    }
                }
            }
            proof {
                assert forall|k2: Id| #[trigger] r@.contains(k2) <==> r0.contains(k2) || (keys@.take(i + 1).contains(k2)
                    && level(light_of(nodes@[k2].node_type)) == lvl) by {
                    assert(rprev.contains(k2) <==> r0.contains(k2) || (keys@.take(i as int).contains(k2)
                        && level(light_of(nodes@[k2].node_type)) == lvl));
                    assert(keys@.take(i + 1).contains(k2) <==> keys@.take(i as int).contains(k2) || k2 == k);
                }
            }
            i = i + 1;
        }
        proof {
            assert(keys@.take(keys@.len() as int) =~= keys@);
            assert forall|a: int, b: int|
                0 <= a < b < r@.len() implies level(light_of(nodes@[#[trigger] r@[a]].node_type)) <= level(
                    light_of(nodes@[#[trigger] r@[b]].node_type),
                ) by {
                if b < r0.len() {
                    assert(r@[a] == r0[a]);
                    assert(r@[b] == r0[b]);
                } else if a < r0.len() {
                    assert(r@[a] == r0[a]);
                }
            }
            assert forall|a: int| 0 <= a < r@.len() implies level(light_of(nodes@[#[trigger] r@[a]].node_type)) < lvl + 1 by {
                if a < r0.len() {
                    assert(r@[a] == r0[a]);
                }
            }
        }
        lvl = lvl + 1;
    }
    proof {
        assert forall|k: Id| #[trigger] r@.to_set().contains(k) <==> nodes@.dom().contains(k) by {
            if nodes@.dom().contains(k) {
                assert(keys@.to_set().contains(k));
                assert(level(light_of(nodes@[k].node_type)) <= 3);
            }
        }
        assert(r@.to_set() =~= nodes@.dom());
    }
    r
}

proof fn lemma_push_contains(s: Seq<Id>, x: Id, y: Id)
    ensures
        s.push(x).contains(y) <==> s.contains(y) || y == x,
{
    if s.contains(y) {
        let j = choose|j: int| 0 <= j < s.len() && s[j] == y;
        assert(s.push(x)[j] == y);
    }
    if y == x {
        assert(s.push(x)[s.len() as int] == y);
    }
    if s.push(x).contains(y) {
        let j = choose|j: int| 0 <= j < s.len() + 1 && s.push(x)[j] == y;
        if j < s.len() {
            assert(s[j] == y);
        }
    }
}

/// The rank of a node in the order of evaluation.
fn node_level(node: &Node) -> (r: u8)
    ensures
        r == level(light_of(node.node_type)),
{
    match node.node_type {
        NodeType::Fan(_) | NodeType::Temp(_) => 0,
        NodeType::CustomTemp(_) => 1,
        NodeType::Control(_) => 3,
        _ => 2,
    }
}

/// `b` is the control `a` with a value read from the bridge: nothing else
/// changes, and a control bound to no pwm output gets no value.
pub open spec fn value_read(a: Node, b: Node) -> bool {
    &&& b == (Node { value: b.value, ..a })
    &&& (a.node_type matches NodeType::Control(c) && c.control_h.is_none()) ==> b.value.is_none()
}

proof fn lemma_states_trans(m0: Map<Id, Node>, m1: Map<Id, Node>, m2: Map<Id, Node>)
    requires
        states_changed(m0, m1),
        states_changed(m1, m2),
    ensures
        states_changed(m0, m2),
{
    assert forall|k: Id| #[trigger] m0.contains_key(k) implies same_but_state(m0[k], m2[k]) by {
        assert(m1.contains_key(k));
        assert(same_but_state(m0[k], m1[k]));
        assert(same_but_state(m1[k], m2[k]));
    }
}

/// A well-formed graph can be evaluated, given no node with more inputs than
/// an `i32` can count.
pub proof fn lemma_wf_updatable(g: AppGraph)
    requires
        g.wf(),
        forall|k: Id| #[trigger] g.nodes@.contains_key(k) ==> g.nodes@[k].inputs@.len() <= i32::MAX,
    ensures
        updatable(g.nodes@),
{
    let m = g.nodes@;
    assert forall|k: Id, i: int|
        m.contains_key(k) && 0 <= i < m[k].inputs@.len() && m.contains_key(
            #[trigger] m[k].inputs@[i].id,
        ) implies light_of(m[m[k].inputs@[i].id].node_type) != NodeTypeLight::Control by {
        assert(level(light_of(m[m[k].inputs@[i].id].node_type)) < level(light_of(m[k].node_type)));
    }
}

} // verus!
