use manifold::config::{ConfigError, NodeConfig, PipelineConfig};
use manifold::yaml::{config_to_yaml, parse_config, MAX_CONFIG_DEPTH, MAX_CONFIG_SIZE_BYTES};

fn node(name: &str, engine: &str, inputs: &[&str]) -> NodeConfig {
    NodeConfig {
        name: name.to_string(),
        engine: engine.to_string(),
        code: "1".to_string(),
        inputs: inputs.iter().map(|s| s.to_string()).collect(),
    }
}

fn pipeline(nodes: Vec<NodeConfig>) -> PipelineConfig {
    PipelineConfig { name: "p".to_string(), nodes }
}

#[test]
fn parse_and_validate_pipeline_config() {
    let yaml = r#"
name: demo
nodes:
  - name: generate
    engine: uiua
    code: |
      [1 2 3]
    inputs: []
  - name: sum
    engine: uiua
    code: |
      +
    inputs:
      - generate
"#;

    let config = parse_config(yaml).expect("config must parse");
    assert_eq!(config.name, "demo");
    assert_eq!(config.nodes.len(), 2);
    assert_eq!(config.nodes[0].name, "generate");
    assert_eq!(config.nodes[1].inputs, vec!["generate".to_string()]);
}

#[test]
fn reject_duplicate_node_names() {
    let yaml = r#"
name: bad
nodes:
  - name: duplicate
    engine: uiua
    code: "1"
    inputs: []
  - name: duplicate
    engine: uiua
    code: "2"
    inputs: []
"#;

    let error = parse_config(yaml).unwrap_err();
    assert!(matches!(error, ConfigError::DuplicateNode(_)));
    assert_eq!(error.message(), "duplicate node name: duplicate");
}

#[test]
fn reject_payload_over_limit() {
    let mut yaml = String::from("name: big\nnodes: []\n");
    yaml.extend(std::iter::repeat_n('a', MAX_CONFIG_SIZE_BYTES + 1));
    let error = parse_config(&yaml).unwrap_err();
    assert!(matches!(error, ConfigError::PayloadTooLarge(_, _)));
    assert_eq!(
        error.message(),
        "pipeline config payload too large: 2097173 bytes exceeds 2097152 byte limit"
    );
}

#[test]
fn reject_too_deep_yaml() {
    let mut yaml = String::new();
    for depth in 0..(MAX_CONFIG_DEPTH + 2) {
        yaml.push_str(&"  ".repeat(depth));
        yaml.push_str("nested:\n");
    }
    let error = parse_config(&yaml).unwrap_err();
    assert!(matches!(error, ConfigError::DepthExceeded(_)));
    assert_eq!(error.message(), "pipeline config exceeds maximum nesting depth of 20");
}

#[test]
fn reject_what_is_not_a_pipeline() {
    for yaml in ["nodes: []", "name: [1]", "name: a\nnodes: 5", "- a", "name: a\nnodes:\n  - name: x", "a: [", "name: a\n? [x]\n: 1"] {
        assert!(matches!(parse_config(yaml), Err(ConfigError::Parse(_))), "{}", yaml);
    }
    assert_eq!(
        parse_config("nodes: []").unwrap_err().message(),
        "failed to parse pipeline config: missing field `name`"
    );
}

#[test]
fn fields_may_be_left_out() {
    let config = parse_config("name: a\nother: 5\nnodes:\n  - {name: x, engine: ' rust ', code: ''}\n").unwrap();
    assert_eq!(config.nodes.len(), 1);
    assert!(config.nodes[0].inputs.is_empty());
    assert_eq!(config.nodes[0].engine, " rust ");
    assert!(parse_config("name: a").unwrap().nodes.is_empty());
    assert!(parse_config("name: a\nnodes: ~").unwrap().nodes.is_empty());
}

#[test]
fn nodes_are_checked_one_by_one() {
    assert!(pipeline(vec![node("a", "uiua", &[]), node("b", "wasm", &["a", "x"])]).validate().is_ok());
    assert!(matches!(
        pipeline(vec![node(" ", "uiua", &[])]).validate(),
        Err(ConfigError::InvalidEngine(name)) if name == " "
    ));
    assert!(matches!(
        pipeline(vec![node("a", "  ", &[])]).validate(),
        Err(ConfigError::InvalidEngine(engine)) if engine == "  "
    ));
    assert!(pipeline(vec![node("a", "native", &[]), node("b", "does_not_exist", &[])]).validate().is_ok());
    assert_eq!(ConfigError::InvalidEngine("  ".to_string()).message(), "invalid engine:   ");
}

#[test]
fn cycles_are_found() {
    let cyclic = pipeline(vec![node("a", "uiua", &["c"]), node("b", "uiua", &["a"]), node("c", "uiua", &["b"])]);
    assert!(matches!(cyclic.validate(), Err(ConfigError::CycleDetected)));
    let own = pipeline(vec![node("a", "uiua", &["a"])]);
    let error = own.validate().unwrap_err();
    assert_eq!(error.message(), "cycle detected in pipeline");
    let diamond = pipeline(vec![
        node("d", "uiua", &["b", "c", "b"]),
        node("b", "uiua", &["a"]),
        node("c", "uiua", &["a"]),
        node("a", "uiua", &["input"]),
    ]);
    assert!(diamond.validate().is_ok());
}

#[test]
fn a_written_configuration_is_read_back() {
    let config = pipeline(vec![node("a", "uiua", &[]), node("b: #", "wasm", &["a", "yes"])]);
    let yaml = config_to_yaml(&config).unwrap();
    assert!(yaml.starts_with("name: p\nnodes:\n- name: a\n  engine: uiua\n"));
    let back = parse_config(&yaml).unwrap();
    assert_eq!(back.nodes.len(), 2);
    assert_eq!(back.nodes[1].name, "b: #");
    assert_eq!(back.nodes[1].inputs, vec!["a".to_string(), "yes".to_string()]);
}

#[test]
fn wrong_types_are_told() {
    for (yaml, fault) in [
        ("name: [1]", "invalid type: sequence, expected a string"),
        ("name: a\nnodes: 5", "invalid type: integer `5`, expected a sequence"),
        ("name: a\nnodes: -5", "invalid type: integer `-5`, expected a sequence"),
        ("name: 1.5", "invalid type: floating point `1.5`, expected a string"),
        ("name: true", "invalid type: boolean `true`, expected a string"),
        ("name: null", "invalid type: unit value, expected a string"),
        ("name: a\nnodes: x", "invalid type: string \"x\", expected a sequence"),
        ("- a", "invalid type: sequence, expected struct PipelineConfig"),
        ("name: a\nnodes: [3]", "invalid type: integer `3`, expected struct NodeConfig"),
        ("name: a\n? [x]\n: 1", "invalid type: sequence, expected field identifier"),
        ("name: a\n!t name: b", "duplicate field `name`"),
        ("nodes: 5\nname: 6", "invalid type: integer `5`, expected a sequence"),
        ("null", "missing field `name`"),
        ("name: a\nnodes:\n  - name: x\n    engine: uiua", "missing field `code`"),
    ] {
        assert_eq!(
            parse_config(yaml).unwrap_err().message(),
            format!("failed to parse pipeline config: {}", fault)
        );
    }
    assert!(parse_config("name: a\nnodes: null\nextra: [1]").unwrap().nodes.is_empty());
    assert_eq!(parse_config("name: !t a").unwrap().name, "a");
}
