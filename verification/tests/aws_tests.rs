use inventory::aws::{extract_tag_by_key, Arn, Tag};
use inventory::config::{AwsContext, Config, ConfigError};

#[test]
fn make_string_renders_the_role_arn() {
    assert_eq!(
        Arn::make_string("123456789012".to_string(), "admin".to_string()),
        "arn:aws:iam::123456789012:role/admin"
    );
}

#[test]
fn extract_tag_finds_first_matching_key() {
    let tags = vec![
        Tag { key: None, value: Some("orphan".to_string()) },
        Tag { key: Some("Name".to_string()), value: Some("web1".to_string()) },
        Tag { key: Some("Name".to_string()), value: Some("web2".to_string()) },
    ];
    assert_eq!(extract_tag_by_key(Some(tags), "Name"), Some("web1".to_string()));
}

#[test]
fn extract_tag_misses_return_none() {
    assert_eq!(extract_tag_by_key(None, "Name"), None);
    let tags = vec![Tag { key: Some("Role".to_string()), value: Some("db".to_string()) }];
    assert_eq!(extract_tag_by_key(Some(tags), "Name"), None);
    let valueless = vec![Tag { key: Some("Name".to_string()), value: None }];
    assert_eq!(extract_tag_by_key(Some(valueless), "Name"), None);
}

#[test]
fn config_holds_ordered_contexts() {
    let config = Config {
        aws_context: vec![
            AwsContext {
                region: "eu-west-1".to_string(),
                account: "111111111111".to_string(),
                role: "audit".to_string(),
                script: None,
            },
            AwsContext {
                region: "us-east-1".to_string(),
                account: "222222222222".to_string(),
                role: "ops".to_string(),
                script: Some("set output $private_ip".to_string()),
            },
        ],
    };
    assert_eq!(config.aws_context.len(), 2);
    assert_eq!(config.aws_context[0].region, "eu-west-1");
    assert_eq!(config.aws_context[1].script.as_deref(), Some("set output $private_ip"));
    let err = ConfigError::InvalidConfig;
    assert_eq!(err.message(), "invalid configuration");
}
