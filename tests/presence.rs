use emerge_watch::presence::{count_phases, earliest_start, phase_icon};

#[test]
fn icon_for_known_phases() {
    assert_eq!(phase_icon(&"compile".to_string()), Some("phase_compile".to_string()));
    assert_eq!(phase_icon(&"unpack".to_string()), Some("phase_unpack".to_string()));
    assert_eq!(phase_icon(&"configure".to_string()), Some("phase_configure".to_string()));
    assert_eq!(phase_icon(&"prepare".to_string()), Some("phase_prepare".to_string()));
    assert_eq!(phase_icon(&"install".to_string()), Some("phase_install".to_string()));
    assert_eq!(phase_icon(&"test".to_string()), None);
    assert_eq!(phase_icon(&String::new()), None);
}

#[test]
fn earliest_of_start_times() {
    assert_eq!(earliest_start(&vec![]), None);
    assert_eq!(earliest_start(&vec![42]), Some(42));
    assert_eq!(earliest_start(&vec![9, 3, 7, 3]), Some(3));
}

#[test]
fn phases_counted_once_each() {
    let phases: Vec<String> = ["compile", "install", "compile", "unpack", "compile"]
        .iter()
        .map(|s| s.to_string())
        .collect();
    let counted = count_phases(&phases);
    assert_eq!(
        counted,
        vec![("compile".to_string(), 3), ("install".to_string(), 1), ("unpack".to_string(), 1)]
    );
    assert!(count_phases(&vec![]).is_empty());
}
