use fan_control::app_graph::AppGraph;
use fan_control::config::control::Control;
use fan_control::config::custom_temp::{CustomTemp, CustomTempKind};
use fan_control::config::fan::Fan;
use fan_control::config::flat::Flat;
use fan_control::config::linear::Linear;
use fan_control::config::temp::Temp;
use fan_control::config::Config;
use fan_control::fake_hardware::FakeHardwareBridge;
use fan_control::hardware::{HardwareBridge, Mode};
use fan_control::node::{Node, NodeType};
use fan_control::update::{update_order, Update, UpdateError};

fn lone_node(node_type: NodeType) -> Node {
    Node { id: 1, node_type, inputs: Vec::new(), value: None }
}

fn chain_config(control_input: Option<&str>) -> Config {
    let mut config = Config::default();
    config.temps.push(Temp { name: "temp1".into(), hardware_id: Some("temp1".into()), temp_h: None });
    config.linears.push(Linear {
        name: "lin".into(),
        min_temp: 10,
        min_speed: 10,
        max_temp: 70,
        max_speed: 100,
        input: Some("temp1".into()),
    });
    config.controls.push(Control::new(
        "control1".into(),
        Some("control1".into()),
        control_input.map(|s| s.to_string()),
        true,
        None,
    ));
    config
}

#[test]
fn node_update_computes_linear_value() {
    let mut bridge = FakeHardwareBridge::new().unwrap();
    let mut node = lone_node(NodeType::Linear(Linear::default()));
    assert!(node.update(&[40], &mut bridge).is_ok());
    assert_eq!(node.value, Some(55));
}

#[test]
fn node_update_of_flat_gives_its_value() {
    let mut bridge = FakeHardwareBridge::new().unwrap();
    let mut node = lone_node(NodeType::Flat(Flat { name: "f".into(), value: 30 }));
    assert!(node.update(&[], &mut bridge).is_ok());
    assert_eq!(node.value, Some(30));
}

#[test]
fn node_update_of_custom_temp_without_data_fails() {
    let mut bridge = FakeHardwareBridge::new().unwrap();
    let mut node = lone_node(NodeType::CustomTemp(CustomTemp::new(
        "c".into(),
        CustomTempKind::Max,
        vec![],
    )));
    node.value = Some(5);
    let r = node.update(&[], &mut bridge);
    assert!(matches!(r, Err(UpdateError::NoInputData)));
    assert_eq!(node.value, None);
}

#[test]
fn node_update_of_unbound_fan_is_invalid() {
    let mut bridge = FakeHardwareBridge::new().unwrap();
    let mut node = lone_node(NodeType::Fan(Fan { name: "fan".into(), hardware_id: None, fan_h: None }));
    let r = node.update(&[], &mut bridge);
    match r {
        Err(UpdateError::NodeIsInvalid(name)) => assert_eq!(name, "fan"),
        _ => panic!("expected an invalid node"),
    }
    assert_eq!(node.value, None);
}

#[test]
fn node_update_of_control_skips_same_value() {
    let mut bridge = FakeHardwareBridge::new().unwrap();
    let mut node = lone_node(NodeType::Control(Control::default()));
    node.value = Some(40);
    assert!(node.update(&[40], &mut bridge).is_ok());
    assert_eq!(node.value, Some(40));
    let r = node.update(&[41], &mut bridge);
    assert!(matches!(r, Err(UpdateError::NodeIsInvalid(_))));
    assert_eq!(node.value, Some(40));
}

#[test]
fn optimized_updates_the_chain_of_a_root() {
    let mut bridge = FakeHardwareBridge::new().unwrap();
    let mut graph = AppGraph::from_config(chain_config(Some("lin")), &bridge.hardware);
    let mut update = Update::new();
    let roots = graph.root_nodes.clone();
    assert!(update.optimized(&mut graph.nodes, &roots, &mut bridge).is_ok());
    let t = graph.get(&1).value.unwrap();
    assert!((30..80).contains(&t));
    let expected = if t >= 70 { 100 } else { 10 + (t - 10) * 90 / 60 };
    assert_eq!(graph.get(&2).value, Some(expected));
    assert_eq!(graph.get_control(3).mode_set, Some(Mode::Manual));
    assert!(update.root_nodes(&mut graph.nodes, &roots, &mut bridge).is_ok());
    let c = graph.get(&3).value.unwrap();
    assert!((30..80).contains(&c));
}

#[test]
fn all_nodes_update_in_rank_order() {
    let mut bridge = FakeHardwareBridge::new().unwrap();
    let mut graph = AppGraph::from_config(chain_config(Some("lin")), &bridge.hardware);
    let order = update_order(&graph.nodes);
    assert_eq!(order, vec![1, 2, 3]);
    let mut update = Update::new();
    assert!(update.all_except_root_nodes(&mut graph.nodes, &mut bridge).is_ok());
    let t = graph.get(&1).value.unwrap();
    let expected = if t >= 70 { 100 } else { 10 + (t - 10) * 90 / 60 };
    assert_eq!(graph.get(&2).value, Some(expected));
}

#[test]
fn invalid_node_gets_no_value() {
    let mut bridge = FakeHardwareBridge::new().unwrap();
    let mut config = chain_config(None);
    config.linears[0].input = None;
    let mut graph = AppGraph::from_config(config, &bridge.hardware);
    graph.get_mut(&2).value = Some(7);
    let mut update = Update::new();
    assert!(update.all_except_root_nodes(&mut graph.nodes, &mut bridge).is_ok());
    assert_eq!(graph.get(&2).value, None);
}

#[test]
fn valid_controls_switch_to_auto() {
    let mut bridge = FakeHardwareBridge::new().unwrap();
    let mut graph = AppGraph::from_config(chain_config(Some("lin")), &bridge.hardware);
    let roots = graph.root_nodes.clone();
    let mut update = Update::new();
    update.set_invalid_controls_to_auto(&mut graph.nodes, &roots, &mut bridge);
    assert_eq!(graph.get_control(3).mode_set, None);
    update.set_valid_controls_to_auto(&mut graph.nodes, &roots, &mut bridge);
    assert_eq!(graph.get_control(3).mode_set, Some(Mode::Auto));
}

#[test]
fn invalid_controls_switch_to_auto() {
    let mut bridge = FakeHardwareBridge::new().unwrap();
    let mut graph = AppGraph::from_config(chain_config(None), &bridge.hardware);
    let roots = graph.root_nodes.clone();
    let mut update = Update::new();
    update.set_valid_controls_to_auto(&mut graph.nodes, &roots, &mut bridge);
    assert_eq!(graph.get_control(3).mode_set, None);
    update.set_invalid_controls_to_auto(&mut graph.nodes, &roots, &mut bridge);
    assert_eq!(graph.get_control(3).mode_set, Some(Mode::Auto));
}
