use tap::capture::{
    AdapterObject, BluetoothInterface, Capture, CaptureLoop, PipelineAction, Transport,
};

fn config(classic: bool, le: bool) -> BluetoothInterface {
    BluetoothInterface {
        bt_classic_enabled: classic,
        bt_le_enabled: le,
        discovery_period_seconds: 10,
        dbus_method_call_timeout_seconds: 5,
    }
}

#[test]
fn backoff_doubles_and_caps() {
    let got: Vec<u64> = (0..9).map(Capture::backoff).collect();
    assert_eq!(got, vec![1, 2, 4, 8, 16, 32, 60, 60, 60]);
    assert_eq!(Capture::backoff(u32::MAX), 60);
}

#[test]
fn capture_loop_tracks_failures_and_hci_names() {
    let mut state = CaptureLoop::new();
    assert_eq!(state.on_resolve_failed(), 2);
    assert_eq!(state.on_resolve_failed(), 4);
    let plan = state.on_resolved("hci2", &config(true, true));
    assert!(plan.announce_new_hci);
    assert_eq!(plan.transports, vec![Transport::BrEdr, Transport::Le]);
    assert_eq!(state.on_cycle_finished(true), 8);
    let plan = state.on_resolved("hci2", &config(false, true));
    assert!(!plan.announce_new_hci);
    assert_eq!(plan.transports, vec![Transport::Le]);
    assert_eq!(state.on_cycle_finished(false), 1);
    let plan = state.on_resolved("hci1", &config(false, false));
    assert!(plan.announce_new_hci);
    assert!(plan.transports.is_empty());
    assert_eq!(state.last_known_hci.as_deref(), Some("hci1"));
    assert_eq!(Transport::BrEdr.name(), "bredr");
    assert_eq!(Transport::Le.name(), "le");
}

#[test]
fn resolves_the_hci_name_by_address() {
    let objects = vec![
        AdapterObject { path: "/org/bluez".to_string(), address: None },
        AdapterObject { path: "/org/bluez/hci0".to_string(), address: Some("11:22:33:44:55:66".to_string()) },
        AdapterObject { path: "/elsewhere/hci9".to_string(), address: Some("08:be:ac:4d:34:f2".to_string()) },
        AdapterObject { path: "/org/bluez/hci3".to_string(), address: Some("08:be:ac:4d:34:f2".to_string()) },
        AdapterObject { path: "/org/bluez/hci4".to_string(), address: Some("08:BE:AC:4D:34:F2".to_string()) },
    ];
    assert_eq!(Capture::resolve_hci_by_address(&objects, "08:BE:AC:4D:34:F2").as_deref(), Some("hci3"));
    assert_eq!(Capture::resolve_hci_by_address(&objects, "00:00:00:00:00:00"), None);
}

#[test]
fn device_paths_of_an_adapter() {
    assert!(Capture::is_device_path("/org/bluez/hci0/dev_08_BE_AC", "hci0"));
    assert!(!Capture::is_device_path("/org/bluez/hci0", "hci0"));
    assert!(!Capture::is_device_path("/org/bluez/hci1/dev_08_BE_AC", "hci0"));
}

#[test]
fn property_narrowing() {
    assert_eq!(Capture::parse_optional_i16_prop(Some(-60)), Some(-60));
    assert_eq!(Capture::parse_optional_i16_prop(Some(40_000)), None);
    assert_eq!(Capture::parse_optional_i16_prop(Some(-40_000)), Some((-40_000i64) as i16));
    assert_eq!(Capture::parse_optional_i16_prop(None), None);
    assert_eq!(Capture::parse_optional_u32_prop(Some(7)), Some(7));
    assert_eq!(Capture::parse_optional_u32_prop(Some(1 << 40)), None);
    assert_eq!(Capture::parse_mandatory_string_prop(None), "Invalid");
    assert_eq!(Capture::parse_mandatory_string_prop(Some("x".to_string())), "x");
}

#[test]
fn string_vectors_and_manufacturer_data() {
    assert_eq!(
        Capture::parse_optional_string_vector(Some(vec![Some("a".to_string()), None, Some("b".to_string())])),
        Some(vec!["a".to_string(), "b".to_string()])
    );
    assert_eq!(Capture::parse_optional_string_vector(Some(vec![None])), None);
    assert_eq!(Capture::parse_optional_string_vector(None), None);
    let (company, data) = Capture::parse_manufacturer_data(Some(0x1_004C), Some(vec![Some(1), None, Some(0x1FF)]));
    assert_eq!(company, Some(0x004C));
    assert_eq!(data, Some(vec![1, 0xFF]));
    assert_eq!(Capture::parse_manufacturer_data(None, None), (None, None));
}

#[test]
fn metrics_are_keyed_by_the_stable_interface_name() {
    let capture = Capture { configuration: config(true, true), interface_name: "bt-08:BE:AC:4D:34:F2".to_string() };
    let actions = capture.discovered_devices_to_pipeline(&vec![300, 400]);
    assert_eq!(actions.len(), 6);
    assert_eq!(actions[0], PipelineAction::SendDevice { index: 0, len: 1024 });
    assert_eq!(actions[1], PipelineAction::IncrementProcessedBytes { bytes: 300 });
    assert_eq!(actions[2], PipelineAction::UpdateCapture { interface_name: "bt-08:BE:AC:4D:34:F2".to_string() });
    assert_eq!(actions[4], PipelineAction::IncrementProcessedBytes { bytes: 400 });
    assert_eq!(actions[5], PipelineAction::UpdateCapture { interface_name: "bt-08:BE:AC:4D:34:F2".to_string() });
}

#[test]
fn failed_cycles_back_off_and_a_good_cycle_resets() {
    let mut state = CaptureLoop::new();
    state.on_resolved("hci0", &config(true, false));
    // Cycles whose discovery call failed count like panicked ones.
    assert_eq!(state.on_cycle_finished(true), 2);
    assert_eq!(state.on_cycle_finished(true), 4);
    assert_eq!(state.on_cycle_finished(true), 8);
    assert_eq!(state.consecutive_failures, 3);
    assert_eq!(state.on_cycle_finished(false), 1);
    assert_eq!(state.consecutive_failures, 0);
    for _ in 0..10 {
        state.on_cycle_finished(true);
    }
    assert_eq!(state.on_cycle_finished(true), 60);
}
