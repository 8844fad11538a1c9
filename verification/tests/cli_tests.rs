use vcore::cli::{parse_cmd, CliState, Cmd};
use vcore::VecBaseConfig;

#[test]
fn test_parse_quit() {
    assert!(matches!(parse_cmd("quit"), Cmd::Quit));
    assert!(matches!(parse_cmd("q"), Cmd::Quit));
    assert!(matches!(parse_cmd("exit"), Cmd::Quit));
}

#[test]
fn test_parse_insert() {
    let cmd = parse_cmd("insert vec1 0.1,0.2,0.3");
    assert!(matches!(cmd, Cmd::Insert { .. }));
    if let Cmd::Insert { id, values } = cmd {
        assert_eq!(id, "vec1");
        assert_eq!(values.len(), 3);
        assert!((f32::from_bits(values[0]) - 0.1).abs() < 1e-6);
    }
}

#[test]
fn test_parse_search_with_topk() {
    let cmd = parse_cmd("search 0.1,0.2,0.3 10");
    assert!(matches!(cmd, Cmd::Search { top_k: 10, .. }));
}

#[test]
fn test_parse_search_default_topk() {
    let cmd = parse_cmd("search 0.1,0.2");
    assert!(matches!(cmd, Cmd::Search { top_k: 5, .. }));
}

#[test]
fn test_parse_delete() {
    assert!(matches!(parse_cmd("del abc"), Cmd::Delete { .. }));
    assert!(matches!(parse_cmd("rm abc"), Cmd::Delete { .. }));
}

#[test]
fn test_parse_bench_default() {
    assert!(matches!(parse_cmd("bench"), Cmd::Bench { n: 1000 }));
}

#[test]
fn test_parse_bench_custom() {
    assert!(matches!(parse_cmd("bench 5000"), Cmd::Bench { n: 5000 }));
}

#[test]
fn test_parse_len() {
    assert!(matches!(parse_cmd("len"), Cmd::Len));
    assert!(matches!(parse_cmd("count"), Cmd::Len));
}

#[test]
fn test_blank_line_is_unknown_empty() {
    assert!(matches!(parse_cmd("  "), Cmd::Unknown(_)));
}

#[test]
fn test_parse_insert_invalid_floats() {
    let cmd = parse_cmd("insert x 0.1,oops");
    assert!(matches!(cmd, Cmd::Unknown(_)));
    if let Cmd::Unknown(msg) = cmd {
        assert_eq!(msg, "insert: invalid float values in '0.1,oops'");
    }
}

#[test]
fn test_parse_get_and_config() {
    assert!(matches!(parse_cmd("get abc"), Cmd::Get { .. }));
    assert!(matches!(parse_cmd("config"), Cmd::Config));
    assert!(matches!(parse_cmd("history"), Cmd::History));
    assert!(matches!(parse_cmd("help"), Cmd::Help));
}

#[test]
fn test_insert_dim_check() {
    let mut state = CliState::new(VecBaseConfig { dim: 3, ..VecBaseConfig::default() });
    // Insert with correct dim
    let v3: Vec<u32> = vec![1.0f32, 0.0, 0.0].iter().map(|x| x.to_bits()).collect();
    state.apply(&Cmd::Insert { id: "x".into(), values: v3 });
    assert_eq!(state.record_count, 1);

    // Insert with wrong dim — count should not increase
    let v2: Vec<u32> = vec![1.0f32, 0.0].iter().map(|x| x.to_bits()).collect();
    state.apply(&Cmd::Insert { id: "y".into(), values: v2 });
    assert_eq!(state.record_count, 1);
}

#[test]
fn test_apply_delete_and_quit() {
    let mut state = CliState::new(VecBaseConfig { dim: 2, ..VecBaseConfig::default() });
    assert!(state.apply(&Cmd::Delete { id: "none".into() }));
    assert_eq!(state.record_count, 0);
    let v: Vec<u32> = vec![1.0f32, 0.0].iter().map(|x| x.to_bits()).collect();
    state.apply(&Cmd::Insert { id: "a".into(), values: v });
    assert!(state.apply(&Cmd::Delete { id: "a".into() }));
    assert_eq!(state.record_count, 0);
    assert!(!state.apply(&Cmd::Quit));
}
