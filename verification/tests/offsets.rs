use pfp::offsets::{
    layout_8_0, layout_8_1, layout_8_2, layout_8_3, layout_8_4, layout_8_5, pick, LayoutOverrides,
    VersionLayout, FUNC_BUF,
};

fn picked(version: &str) -> Option<VersionLayout> {
    pick(version, &LayoutOverrides::none())
}

#[test]
fn picks_layout_per_minor_version() {
    assert_eq!(picked("8.0.30").unwrap().label, "8.0");
    assert_eq!(picked("8.1.34").unwrap().label, "8.1");
    assert_eq!(picked("8.2.31").unwrap().label, "8.2");
    assert_eq!(picked("8.3.31").unwrap().label, "8.3");
    assert_eq!(picked("8.3.0").unwrap().label, "8.3");
    assert_eq!(picked("8.4.21").unwrap().label, "8.4");
    assert_eq!(picked("8.5.6").unwrap().label, "8.5");
}

#[test]
fn rejects_unsupported_versions() {
    assert!(picked("7.4.33").is_none());
    assert!(picked("9.0.0").is_none());
    assert!(picked("").is_none());
}

#[test]
fn key_offsets_match_pahole() {
    // current_execute_data: stable 488 from 8.0 to 8.4, jumps to 512 in 8.5.
    for l in [layout_8_0(), layout_8_1(), layout_8_2(), layout_8_3(), layout_8_4()] {
        assert_eq!(l.eg_current_execute_data, 488, "layout {}", l.label);
    }
    assert_eq!(layout_8_5().eg_current_execute_data, 512);

    // symbol_table: 304 across every supported minor.
    for l in [
        layout_8_0(),
        layout_8_1(),
        layout_8_2(),
        layout_8_3(),
        layout_8_4(),
        layout_8_5(),
    ] {
        assert_eq!(l.eg_symbol_table, 304, "layout {}", l.label);
    }

    // op_array.filename drifts: 144 (8.0/8.1/8.3), 152 (8.2), 168 (8.4/8.5).
    assert_eq!(layout_8_0().op_array_filename, 144);
    assert_eq!(layout_8_1().op_array_filename, 144);
    assert_eq!(layout_8_2().op_array_filename, 152);
    assert_eq!(layout_8_3().op_array_filename, 144);
    assert_eq!(layout_8_4().op_array_filename, 168);
    assert_eq!(layout_8_5().op_array_filename, 168);
}

#[test]
fn env_overrides_apply() {
    let overrides = LayoutOverrides {
        eg_current_execute_data: Some("9999".to_string()),
        eg_symbol_table: Some("8888".to_string()),
    };
    let l = pick("8.3.0", &overrides).unwrap();
    assert_eq!(l.eg_current_execute_data, 9999);
    assert_eq!(l.eg_symbol_table, 8888);
}

#[test]
fn override_that_is_no_number_is_passed_over() {
    let overrides = LayoutOverrides {
        eg_current_execute_data: Some("0x200".to_string()),
        eg_symbol_table: Some("".to_string()),
    };
    let l = pick("8.5.1", &overrides).unwrap();
    assert_eq!(l.eg_current_execute_data, 512);
    assert_eq!(l.eg_symbol_table, 304);
}

#[test]
fn every_layout_lies_within_what_is_read() {
    for v in ["8.0.1", "8.1.1", "8.2.1", "8.3.1", "8.4.1", "8.5.1"] {
        let l = picked(v).unwrap();
        assert!(l.op_array_filename as usize + 8 <= FUNC_BUF);
        assert!(l.op_array_line_start as usize + 4 <= FUNC_BUF);
    }
}

#[test]
fn the_minor_number_is_read_whole() {
    assert!(picked("8.10.0").is_none());
    assert!(picked("8.45").is_none());
    assert_eq!(picked("8.4").unwrap().label, "8.4");
    assert_eq!(picked("8.4-dev").unwrap().label, "8.4");
}
