use codescout::logging::{debug_log_rotation, diagnostic_logs_to_remove, instance_id};

fn entries(v: &[(&str, u128)]) -> Vec<(String, u128)> {
    v.iter().map(|(n, t)| (n.to_string(), *t)).collect()
}

#[test]
fn generate_instance_id_is_4_hex_chars() {
    for h in [0u64, 1, 0xabcd, 0xffff, 0x1234_5678_9abc_def0, u64::MAX] {
        let id = instance_id(h);
        assert_eq!(id.len(), 4, "expected 4 chars, got: {id}");
        assert!(id.chars().all(|c| c.is_ascii_hexdigit()), "non-hex char in: {id}");
    }
}

#[test]
fn instance_id_is_low_sixteen_bits_in_hex() {
    assert_eq!(instance_id(0), "0000");
    assert_eq!(instance_id(0xabcd), "abcd");
    assert_eq!(instance_id(0x1234_5678_9abc_def0), "def0");
    assert_eq!(instance_id(0x0f0a), "0f0a");
}

#[test]
fn rotate_diagnostic_keeps_last_6() {
    let mut list = Vec::new();
    for i in 0..8u128 {
        list.push((format!("diagnostic-{:04x}.log", i), 1000 + i));
    }
    let list: Vec<(String, u128)> = list;
    let mut removed = diagnostic_logs_to_remove(&list);
    removed.sort();
    assert_eq!(removed, vec!["diagnostic-0000.log", "diagnostic-0001.log"]);
}

#[test]
fn rotate_diagnostic_ignores_non_diagnostic_files() {
    // 8 diagnostic files + 3 non-diagnostic files
    let mut list = Vec::new();
    for i in 0..8u128 {
        list.push((format!("diagnostic-{:04x}.log", i), 1000 + i));
    }
    list.push(("debug.log".to_string(), 2000));
    list.push(("debug.log.1".to_string(), 2000));
    list.push(("random.txt".to_string(), 2000));
    let removed = diagnostic_logs_to_remove(&list);
    let all: Vec<&String> = list.iter().map(|(n, _)| n).filter(|n| !removed.contains(n)).collect();
    // 6 diagnostic + 3 non-diagnostic = 9
    assert_eq!(all.len(), 9, "non-diagnostic files must be untouched: {all:?}");
    assert!(all.contains(&&"debug.log".to_string()));
    assert!(all.contains(&&"random.txt".to_string()));
}

#[test]
fn rotate_diagnostic_nothing_when_six_or_fewer() {
    let list = entries(&[("diagnostic-a.log", 1), ("diagnostic-b.log", 2)]);
    assert!(diagnostic_logs_to_remove(&list).is_empty());
}

#[test]
fn rotate_diagnostic_ties_keep_earlier_listed() {
    let list = entries(&[
        ("diagnostic-1.log", 5),
        ("diagnostic-2.log", 5),
        ("diagnostic-3.log", 5),
        ("diagnostic-4.log", 5),
        ("diagnostic-5.log", 5),
        ("diagnostic-6.log", 5),
        ("diagnostic-7.log", 5),
    ]);
    assert_eq!(diagnostic_logs_to_remove(&list), vec!["diagnostic-7.log"]);
}

#[test]
fn rotate_keeps_last_3() {
    let r = debug_log_rotation();
    assert_eq!(r.remove, "debug.log.3");
    let moves: Vec<(&str, &str)> = r.moves.iter().map(|(a, b)| (a.as_str(), b.as_str())).collect();
    assert_eq!(
        moves,
        vec![
            ("debug.log.2", "debug.log.3"),
            ("debug.log.1", "debug.log.2"),
            ("debug.log", "debug.log.1"),
        ]
    );
}
