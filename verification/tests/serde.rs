use rustybackup::config::{BackupOptions, BackupPaths, Config};

fn strings(value: &toml::Value) -> Vec<String> {
    value.as_array().unwrap().iter().map(|v| v.as_str().unwrap().to_string()).collect()
}

#[test]
fn test_parse_config() {
    let sample = r#"
        [paths]
        include = ["C:/Test"]
        exclude = ["*/Temp"]

        [backup]
        destination = "Z:/Backups"
        max_versions = 5
    "#;

    let table: toml::Table = sample.parse().expect("Failed to parse config");
    let paths = table["paths"].as_table().unwrap();
    let backup = table["backup"].as_table().unwrap();
    let config = Config {
        paths: BackupPaths {
            includes: strings(&paths["include"]),
            exclude: strings(&paths["exclude"]),
        },
        backup: BackupOptions {
            destination: backup["destination"].as_str().unwrap().to_string(),
            max_versions: backup.get("max_versions").map(|v| v.as_integer().unwrap() as u32),
        },
    };
    assert_eq!(config.backup.destination, "Z:/Backups");
    assert_eq!(config.paths.includes.len(), 1);
    assert_eq!(config.paths.includes[0], "C:/Test");
    assert_eq!(config.paths.exclude, vec!["*/Temp".to_string()]);
    assert_eq!(config.keep_count(), 5);
}
