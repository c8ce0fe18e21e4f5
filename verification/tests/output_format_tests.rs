use net_reduce::output_format::OutputFormat;

#[test]
fn test_from_str_valid_cases() {
    // Test lowercase
    assert!(matches!(OutputFormat::from_str("json").unwrap(), OutputFormat::Json));
    assert!(matches!(OutputFormat::from_str("yaml").unwrap(), OutputFormat::Yaml));
    assert!(matches!(OutputFormat::from_str("list").unwrap(), OutputFormat::List));

    // Test uppercase
    assert!(matches!(OutputFormat::from_str("JSON").unwrap(), OutputFormat::Json));
    assert!(matches!(OutputFormat::from_str("YAML").unwrap(), OutputFormat::Yaml));
    assert!(matches!(OutputFormat::from_str("LIST").unwrap(), OutputFormat::List));

    // Test mixed case
    assert!(matches!(OutputFormat::from_str("Json").unwrap(), OutputFormat::Json));
    assert!(matches!(OutputFormat::from_str("YaMl").unwrap(), OutputFormat::Yaml));
    assert!(matches!(OutputFormat::from_str("LiSt").unwrap(), OutputFormat::List));
}

#[test]
fn test_from_str_invalid_cases() {
    let result = OutputFormat::from_str("");
    assert!(result.is_err());
    assert_eq!(result.unwrap_err().message(), "Unknown output format: ");

    let result = OutputFormat::from_str("xml");
    assert!(result.is_err());
    assert_eq!(result.unwrap_err().message(), "Unknown output format: xml");
}

#[test]
fn test_write_json() {
    let format = OutputFormat::Json;
    let prefixes = vec![
        "2001:678:1e0::/56".to_string(),
        "2001:678:1e0:100::/56".to_string(),
    ];

    let result = format.write(prefixes);
    assert!(result.is_ok());

    let output = result.unwrap();
    assert_eq!(
        output.trim(),
        r#"["2001:678:1e0::/56","2001:678:1e0:100::/56"]"#
    );
}

#[test]
fn test_write_json_empty_vec() {
    let format = OutputFormat::Json;
    let prefixes = vec![];

    let result = format.write(prefixes);
    assert!(result.is_ok());

    let output = result.unwrap();
    assert_eq!(output.trim(), "[]");
}

#[test]
fn test_write_yaml() {
    let format = OutputFormat::Yaml;
    let prefixes = vec![
        "2001:678:1e0::/56".to_string(),
        "2001:678:1e0:100::/56".to_string(),
    ];

    let result = format.write(prefixes);
    assert!(result.is_ok());

    let output = result.unwrap();
    assert_eq!(
        output.trim(),
        "- 2001:678:1e0::/56\n- 2001:678:1e0:100::/56"
    );
}

#[test]
fn test_write_yaml_empty_vec() {
    let format = OutputFormat::Yaml;
    let prefixes = vec![];

    let result = format.write(prefixes);
    assert!(result.is_ok());

    let output = result.unwrap();
    assert_eq!(output.trim(), "[]");
}

#[test]
fn test_write_list() {
    let format = OutputFormat::List;
    let prefixes = vec![
        "2001:678:1e0::/56".to_string(),
        "2001:678:1e0:100::/128".to_string(),
        "192.168.178.0/24".to_string(),
    ];

    let result = format.write(prefixes);
    assert!(result.is_ok());

    let output = result.unwrap();
    let lines: Vec<&str> = output.lines().collect();
    assert_eq!(lines.len(), 3);
    assert_eq!(lines[0], "2001:678:1e0::/56");
    assert_eq!(lines[1], "2001:678:1e0:100::/128");
    assert_eq!(lines[2], "192.168.178.0/24");
}

#[test]
fn test_write_list_empty_vec() {
    let format = OutputFormat::List;
    let prefixes = vec![];

    let result = format.write(prefixes);
    assert!(result.is_ok());

    let output = result.unwrap();
    assert_eq!(output, "");
}
