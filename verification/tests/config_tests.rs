use fan_control::config::graph::{Coord, Graph};
use fan_control::config::linear::Linear;
use fan_control::config::target::Target;
use fan_control::node::IsValid;

#[test]
fn test_logic() {
    let graph = Graph {
        name: "name".into(),
        coords: vec![
            Coord { temp: 10, percent: 10 },
            Coord { temp: 20, percent: 30 },
            Coord { temp: 25, percent: 20 },
            Coord { temp: 30, percent: 25 },
            Coord { temp: 40, percent: 5 },
        ],
        input: None,
    };

    graph.is_valid();

    assert_eq!(graph.get_value(9).unwrap(), 10);
    assert_eq!(graph.get_value(50).unwrap(), 5);

    assert_eq!(graph.get_value(22).unwrap(), 26);
    assert_eq!(graph.get_value(27).unwrap(), 22);
    assert_eq!(graph.get_value(35).unwrap(), 15);
}

#[test]
fn linear_test_update() {
    let linear = Linear {
        name: "Linear".into(),
        min_temp: 10,
        min_speed: 10,
        max_temp: 70,
        max_speed: 100,
        input: Some("temp1".into()),
    };

    assert!(linear.get_value(9).unwrap() == 10);
    assert!(linear.get_value(70).unwrap() == 100);
    assert!(linear.get_value(40).unwrap() == 55);
}

#[test]
fn target_test_update() {
    let mut target = Target {
        name: "linear".to_string(),
        input: Some("temp1".into()),
        idle_temp: 40,
        idle_speed: 10,
        load_temp: 70,
        load_speed: 100,
        idle_has_been_reatch: false,
    };

    assert!(target.get_value(55).unwrap() == 100);
    assert!(target.get_value(30).unwrap() == 10);
    assert!(target.get_value(55).unwrap() == 10);
    assert!(target.get_value(70).unwrap() == 100);
}
