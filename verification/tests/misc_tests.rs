use fan_control::config::control::Control;
use fan_control::config::custom_temp::{CustomTemp, CustomTempKind};
use fan_control::config::graph::{Coord, CoordError, Graph};
use fan_control::config::linear::Linear;
use fan_control::fake_hardware::FakeHardwareBridge;
use fan_control::hardware::{sensor_by_id, HSensor, HardwareBridge, Mode};
use fan_control::hardware::HardwareError;
use fan_control::hardware_list;
use fan_control::update::{hardware_result, UpdateError};
use fan_control::id::IdGenerator;
use fan_control::parse::parse_u8;
use fan_control::settings::{AppTheme, Settings, SettingsState};
use fan_control::utils::{has_duplicate, is_sorted, InsertSorted, RemoveElem};

fn curve() -> Graph {
    Graph {
        name: "g".into(),
        coords: vec![Coord { temp: 10, percent: 10 }, Coord { temp: 20, percent: 30 }],
        input: None,
    }
}

#[test]
fn settings_defaults() {
    let s = Settings::default();
    assert_eq!(s.update_delay, 1500);
    assert!(s.theme == AppTheme::Light);
    assert!(s.current_config.is_none());
    assert!(!s.start_at_login && !s.inactive);
    assert!(SettingsState::default().show_flatpak_dialog);
    assert_eq!(AppTheme::values().len(), 5);
}

#[test]
fn identifiers_count_up() {
    let mut g = IdGenerator::new();
    assert_eq!(g.new_id(), 1);
    assert_eq!(g.new_id(), 2);
    assert!(g.can_generate());
}

#[test]
fn custom_temperatures() {
    let avg = CustomTemp::new("a".into(), CustomTempKind::Average, vec![]);
    assert_eq!(avg.get_value(&[10, 20, 33]).unwrap(), 21);
    assert_eq!(avg.get_value(&[-7, 0]).unwrap(), -3);
    assert_eq!(avg.get_value(&[i32::MAX, 1]).unwrap(), -1073741824);
    let min = CustomTemp::new("m".into(), CustomTempKind::Min, vec![]);
    assert_eq!(min.get_value(&[10, -20, 33]).unwrap(), -20);
    let max = CustomTemp::new("x".into(), CustomTempKind::Max, vec![]);
    assert_eq!(max.get_value(&[10, 20, 33]).unwrap(), 33);
    assert_eq!(CustomTempKind::Max.to_string(), "Max");
    assert_eq!(CustomTempKind::values().len(), 3);
}

#[test]
fn new_points_are_checked() {
    let g = curve();
    assert!(matches!(g.try_new_coord("abc", "10"), Err(CoordError::InvalidTemp)));
    assert!(matches!(g.try_new_coord("300", "10"), Err(CoordError::InvalidTemp)));
    assert!(matches!(g.try_new_coord("15", "x"), Err(CoordError::InvalidPercent)));
    assert!(matches!(g.try_new_coord("15", "101"), Err(CoordError::PercentAbove100)));
    assert!(matches!(g.try_new_coord("10", "50"), Err(CoordError::TempAlreadyPresent(10))));
    let c = g.try_new_coord("+15", "20").unwrap();
    assert_eq!((c.temp, c.percent), (15, 20));
    assert_eq!(parse_u8("255"), Some(255));
    assert_eq!(parse_u8("256"), None);
    assert_eq!(parse_u8(""), None);
}

#[test]
fn points_are_placed_by_temperature() {
    let mut g = curve();
    g.add_coord(Coord { temp: 15, percent: 20 });
    assert_eq!(g.coords.iter().map(|c| c.temp).collect::<Vec<_>>(), vec![10, 15, 20]);
    g.add_coord(Coord { temp: 15, percent: 25 });
    assert_eq!(g.coords[1].percent, 25);
    assert_eq!(g.coords.len(), 3);
    g.remove_coord(&Coord { temp: 15, percent: 99 });
    assert_eq!(g.coords.len(), 3);
    g.remove_coord(&Coord { temp: 15, percent: 25 });
    assert_eq!(g.coords.len(), 2);
    g.replace_coord(&Coord { temp: 20, percent: 30 }, Coord { temp: 5, percent: 0 });
    assert_eq!(g.coords.iter().map(|c| c.temp).collect::<Vec<_>>(), vec![5, 10]);
    assert!(Coord { temp: 5, percent: 0 }.exact_same(&g.coords[0]));
}

#[test]
fn curve_checks() {
    let g = curve();
    assert!(!has_duplicate(&g.coords));
    assert!(is_sorted(&g.coords));
    let v = vec![Coord { temp: 3, percent: 0 }, Coord { temp: 1, percent: 0 }, Coord { temp: 3, percent: 5 }];
    assert!(has_duplicate(&v));
    assert!(!is_sorted(&v));
}

#[test]
fn line_between_points_rounds_toward_zero() {
    let l = Linear { name: "l".into(), min_temp: 19, min_speed: 0, max_temp: 58, max_speed: 91, input: None };
    assert_eq!(l.get_value(43).unwrap(), 56);
    assert_eq!(l.get_value(-5).unwrap(), 0);
}

#[test]
fn remove_elem_takes_first_match() {
    let mut v = vec![1, 2, 3, 2];
    assert_eq!(v.remove_elem(|x| *x == 2), Some(2));
    assert_eq!(v, vec![1, 3, 2]);
    assert_eq!(v.remove_elem(|x| *x == 9), None);
}

#[test]
fn fake_readings_stay_in_range() {
    let mut b = FakeHardwareBridge::new().unwrap();
    let s = b.hardware().temps[0].copy();
    for _ in 0..50 {
        let v = b.get_sensor_value(&s).unwrap();
        assert!((30..80).contains(&v));
    }
    let found = sensor_by_id(&b.hardware.fans, &"fan1".to_string()).unwrap();
    assert_eq!(found.internal_index, 1);
    assert!(sensor_by_id(&b.hardware.fans, &"nope".to_string()).is_none());
}

#[test]
fn control_mode_is_set_once() {
    let mut b = FakeHardwareBridge::new().unwrap();
    let h = b.hardware().controls[0].copy();
    let mut c = Control::new("c".into(), Some("control1".into()), None, true, Some(h));
    assert!(c.set_mode(Mode::Auto, &mut b).is_ok());
    assert_eq!(c.mode_set, Some(Mode::Auto));
    assert_eq!(c.set_value(40, &mut b).unwrap(), 40);
    assert_eq!(c.mode_set, Some(Mode::Manual));
    let v = c.get_value(&mut b).unwrap();
    assert!((30..80).contains(&v));
}

#[test]
fn listed_temperature_is_named_by_itself() {
    let t = hardware_list::Temp::new("t".into(), Some(3));
    assert_eq!(t.hardware_id, "t");
    assert!(t.hardware_type == hardware_list::HardwareType::Temp);
    let s = HSensor { name: "n".into(), hardware_id: "i".into(), info: String::new(), internal_index: 4 };
    assert!(s.same_item(&s.copy()));
}

#[test]
fn bridge_results_reported() {
    assert!(matches!(hardware_result(Ok(42)), Ok(42)));
    match hardware_result(Err(HardwareError::Linux("gone".into()))) {
        Err(UpdateError::Hardware(HardwareError::Linux(s))) => assert_eq!(s, "gone"),
        _ => panic!("wrong mapping"),
    }
}

#[test]
fn bridge_without_batch_refresh_succeeds() {
    let mut bridge = FakeHardwareBridge::new().unwrap();
    assert!(bridge.update().is_ok());
    assert!(bridge.shutdown().is_ok());
}

#[test]
fn insert_sorted_keeps_a_sorted_vector_sorted() {
    let mut v: Vec<i32> = vec![1, 4, 9];
    assert_eq!(v.insert_sorted(|e| e.cmp(&5), 5), None);
    assert_eq!(v, vec![1, 4, 5, 9]);
    assert_eq!(v.insert_sorted(|e| e.cmp(&4), 4), Some(4));
    assert_eq!(v, vec![1, 4, 5, 9]);
    assert_eq!(v.insert_sorted(|e| e.cmp(&0), 0), None);
    assert_eq!(v.insert_sorted(|e| e.cmp(&10), 10), None);
    assert_eq!(v, vec![0, 1, 4, 5, 9, 10]);
}
