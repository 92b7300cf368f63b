use fan_control::app_graph::AppGraph;
use fan_control::config::control::Control;
use fan_control::config::custom_temp::{CustomTemp, CustomTempKind};
use fan_control::config::fan::Fan;
use fan_control::config::flat::Flat;
use fan_control::config::graph::{Coord, Graph};
use fan_control::config::linear::Linear;
use fan_control::config::target::Target;
use fan_control::config::temp::Temp;
use fan_control::config::Config;
use fan_control::fake_hardware::FakeHardwareBridge;
use fan_control::hardware::{Hardware, HardwareBridge};
use fan_control::node::{validate_name, Node, NodeType, NodeTypeLight, ToNode, ValueKind};
use std::cmp::Ordering;

fn fake_hardware() -> Hardware {
    FakeHardwareBridge::new().unwrap().hardware
}

fn sample_config() -> Config {
    let mut config = Config::default();
    config.fans.push(Fan { name: "fan1".into(), hardware_id: Some("fan1".into()), fan_h: None });
    config.temps.push(Temp { name: "temp1".into(), hardware_id: Some("temp1".into()), temp_h: None });
    config.temps.push(Temp { name: "cpu".into(), hardware_id: Some("missing".into()), temp_h: None });
    config.custom_temps.push(CustomTemp::new(
        "avg".into(),
        CustomTempKind::Average,
        vec!["temp1".into(), "cpu".into(), "nope".into()],
    ));
    config.flats.push(Flat { name: "flat".into(), value: 150 });
    config.linears.push(Linear {
        name: "lin".into(),
        min_temp: 10,
        min_speed: 10,
        max_temp: 70,
        max_speed: 100,
        input: Some("avg".into()),
    });
    config.targets.push(Target {
        name: "tgt".into(),
        idle_temp: 200,
        idle_speed: 10,
        load_temp: 70,
        load_speed: 100,
        input: Some("temp1".into()),
        idle_has_been_reatch: false,
    });
    config.controls.push(Control::new(
        "control1".into(),
        Some("control1".into()),
        Some("lin".into()),
        true,
        None,
    ));
    config.graphs.push(Graph::default());
    config
}

#[test]
fn from_config_numbers_items_in_kind_order() {
    let hardware = fake_hardware();
    let graph = AppGraph::from_config(sample_config(), &hardware);
    assert_eq!(graph.nodes.len(), 8);
    let kinds = [
        NodeTypeLight::Fan,
        NodeTypeLight::Temp,
        NodeTypeLight::Temp,
        NodeTypeLight::CustomTemp,
        NodeTypeLight::Flat,
        NodeTypeLight::Linear,
        NodeTypeLight::Target,
        NodeTypeLight::Control,
    ];
    for (i, kind) in kinds.iter().enumerate() {
        let node = graph.get(&((i + 1) as u32));
        assert_eq!(node.id, (i + 1) as u32);
        assert_eq!(node.node_type.to_light(), *kind);
    }
    assert_eq!(graph.root_nodes, vec![8]);
}

#[test]
fn from_config_binds_hardware_and_fixes_settings() {
    let hardware = fake_hardware();
    let graph = AppGraph::from_config(sample_config(), &hardware);
    let fan = graph.get_fan(1);
    assert_eq!(fan.fan_h.as_ref().unwrap().name, "fan1");
    let temp = graph.get_temp(2);
    assert!(temp.temp_h.is_some());
    let cpu = graph.get_temp(3);
    assert!(cpu.hardware_id.is_none());
    assert!(cpu.temp_h.is_none());
    assert_eq!(graph.get_flat(5).value, 50);
    assert_eq!(graph.get_target(7).idle_temp, 40);
    let control = graph.get_control(8);
    assert_eq!(control.control_h.as_ref().unwrap().hardware_id, "control1");
}

#[test]
fn from_config_resolves_inputs() {
    let hardware = fake_hardware();
    let graph = AppGraph::from_config(sample_config(), &hardware);
    let avg = graph.get(&4);
    let ids: Vec<u32> = avg.inputs.iter().map(|i| i.id).collect();
    assert_eq!(ids, vec![2, 3]);
    assert_eq!(graph.get_custom_temp(4).inputs, vec!["temp1".to_string(), "cpu".to_string()]);
    assert_eq!(graph.get(&6).inputs[0].id, 4);
    assert_eq!(graph.get(&7).inputs[0].id, 2);
    assert_eq!(graph.get(&8).inputs[0].id, 6);
    assert_eq!(graph.get(&8).inputs[0].name, "lin");
}

#[test]
fn default_graph_lists_hardware() {
    let hardware = fake_hardware();
    let graph = AppGraph::default(&hardware);
    assert_eq!(graph.nodes.len(), 5);
    assert_eq!(graph.get(&1).name(), "control1");
    assert_eq!(graph.get(&2).name(), "control2");
    assert_eq!(graph.get(&3).name(), "fan1");
    assert_eq!(graph.get(&4).name(), "temp1");
    assert_eq!(graph.get(&5).name(), "temp2");
    assert_eq!(graph.root_nodes, vec![1, 2]);
    let control = graph.get_control(1);
    assert!(control.active);
    assert!(control.input.is_none());
}

#[test]
fn taken_name_gets_a_number() {
    let hardware = fake_hardware();
    let mut graph = AppGraph::default(&hardware);
    let temp = Temp { name: "temp1".into(), hardware_id: None, temp_h: None };
    let node = Node::new(NodeType::Temp(temp), &mut graph);
    assert_eq!(node.id, 6);
    assert_eq!(node.name(), "temp1 1");
    graph.insert_node(node);
    assert!(graph.is_name_taken(&"temp1 1".to_string()));
    assert_eq!(graph.generate_new_name(&"temp1".to_string()), "temp1 2");
}

#[test]
fn default_names_are_numbered_per_kind() {
    let mut graph = AppGraph::default(&Hardware::empty());
    assert_eq!(graph.generate_default_name(NodeTypeLight::Fan, "Fan"), "Fan 1");
    let node = graph.create_new_node(NodeTypeLight::Graph, "Graph");
    assert_eq!(node.name(), "Graph 1");
    assert_eq!(node.id, 1);
    match &node.node_type {
        NodeType::Graph(g) => assert_eq!(g.coords.len(), 2),
        _ => panic!("expected a graph"),
    }
    graph.insert_node(node);
    let node = graph.create_new_node(NodeTypeLight::Graph, "Graph");
    assert_eq!(node.name(), "Graph 2");
    assert_eq!(node.id, 2);
}

#[test]
fn removing_a_control_drops_its_root() {
    let hardware = fake_hardware();
    let mut graph = AppGraph::default(&hardware);
    let removed = graph.remove_node(1).unwrap();
    assert_eq!(removed.name(), "control1");
    assert_eq!(graph.root_nodes, vec![2]);
    assert!(graph.remove_node(1).is_none());
    assert_eq!(graph.nodes.len(), 4);
}

#[test]
fn sanitize_inputs_drops_missing_nodes() {
    let hardware = fake_hardware();
    let mut graph = AppGraph::from_config(sample_config(), &hardware);
    graph.remove_node(3);
    graph.sanitize_inputs(false);
    let ids: Vec<u32> = graph.get(&4).inputs.iter().map(|i| i.id).collect();
    assert_eq!(ids, vec![2]);
    assert_eq!(graph.get_custom_temp(4).inputs, vec!["temp1".to_string()]);
}

#[test]
fn validate_name_refuses_blank_and_taken() {
    let hardware = fake_hardware();
    let graph = AppGraph::default(&hardware);
    assert!(!validate_name(&graph.nodes, &1, &"  ".to_string()));
    assert!(!validate_name(&graph.nodes, &1, &"control2".to_string()));
    assert!(validate_name(&graph.nodes, &2, &"control2".to_string()));
    assert!(validate_name(&graph.nodes, &1, &"fresh".to_string()));
}

#[test]
fn value_text_shows_unit() {
    let mut node = AppGraph::default(&Hardware::empty()).create_new_node(NodeTypeLight::Temp, "Temp");
    assert_eq!(node.value_text(&ValueKind::Celsius), "No value");
    node.value = Some(42);
    assert_eq!(node.value_text(&ValueKind::Celsius), "42°C");
    node.value = Some(50);
    assert_eq!(node.value_text(&ValueKind::Porcentage), "50%");
    node.value = Some(-3);
    assert_eq!(node.value_text(&ValueKind::RPM), "-3 RPM");
}

#[test]
fn update_priority_follows_ranks() {
    let fan = NodeType::Fan(Fan::default());
    let control = NodeType::Control(Control::default());
    let linear = NodeType::Linear(Linear::default());
    let custom = NodeType::CustomTemp(CustomTemp::default());
    let flat = NodeType::Flat(Flat::default());
    assert_eq!(fan.compare_update_priority(&control), Ordering::Less);
    assert_eq!(control.compare_update_priority(&linear), Ordering::Greater);
    assert_eq!(custom.compare_update_priority(&fan), Ordering::Greater);
    assert_eq!(linear.compare_update_priority(&custom), Ordering::Greater);
    assert_eq!(flat.compare_update_priority(&control), Ordering::Equal);
}

#[test]
fn config_from_graph_lists_each_kind() {
    let hardware = fake_hardware();
    let graph = AppGraph::from_config(sample_config(), &hardware);
    let config = Config::from_app_graph(&graph);
    assert_eq!(config.fans.len(), 1);
    assert_eq!(config.temps.len(), 2);
    assert_eq!(config.custom_temps.len(), 1);
    assert_eq!(config.flats.len(), 1);
    assert_eq!(config.linears.len(), 1);
    assert_eq!(config.targets.len(), 1);
    assert_eq!(config.controls.len(), 1);
    assert_eq!(config.graphs.len(), 0);
    assert_eq!(config.flats[0].value, 50);
}

#[test]
fn typed_access_changes_in_place() {
    let hardware = fake_hardware();
    let mut graph = AppGraph::from_config(sample_config(), &hardware);
    graph.get_flat_mut(5).value = 70;
    assert_eq!(graph.get_flat(5).value, 70);
    graph.get_linear_mut(6).max_speed = 90;
    assert_eq!(graph.get_linear(6).max_speed, 90);
    let node = graph.get_mut(&7);
    node.value = Some(3);
    assert_eq!(graph.get(&7).value, Some(3));
}

#[test]
fn graph_node_sorts_its_curve() {
    let mut graph = AppGraph::default(&Hardware::empty());
    let g = Graph {
        name: "g".into(),
        coords: vec![
            Coord { temp: 30, percent: 150 },
            Coord { temp: 10, percent: 20 },
            Coord { temp: 30, percent: 40 },
        ],
        input: None,
    };
    let node = g.to_node(&mut graph, &Hardware::empty());
    let coords = match &node.node_type {
        NodeType::Graph(g) => g.coords.clone(),
        _ => panic!("expected a graph"),
    };
    assert_eq!(coords.len(), 2);
    assert_eq!((coords[0].temp, coords[0].percent), (10, 20));
    assert_eq!((coords[1].temp, coords[1].percent), (30, 100));
}

#[test]
fn coords_compare_by_temperature() {
    let a = Coord { temp: 10, percent: 10 };
    let b = Coord { temp: 10, percent: 20 };
    let c = Coord { temp: 12, percent: 0 };
    assert!(a == b);
    assert!(!a.exact_same(&b));
    assert!(a.exact_same(&a));
    assert!(a < c);
    assert_eq!(a.partial_cmp(&b), Some(Ordering::Equal));
}
