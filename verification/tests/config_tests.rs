use rustybackup::config::{BackupOptions as LibOptions, BackupPaths as LibPaths, Config as LibConfig};

#[derive(Debug)]
struct Config {
    paths: BackupPaths,
    backup: BackupOptions,
}

#[derive(Debug)]
struct BackupPaths {
    includes: Vec<String>,
    exclude: Vec<String>,
}

#[derive(Debug)]
struct BackupOptions {
    destination: String,
    keep_versions: bool,
    max_versions: Option<u32>,
}

#[test]
fn test_struct_debug_output() {
    let config = Config {
        paths: BackupPaths {
            includes: vec!["C:/Test".into()],
            exclude: vec!["*/Temp".into()],
        },
        backup: BackupOptions {
            destination: "Z:/Backups".into(),
            keep_versions: true,
            max_versions: Some(5),
        },
    };

    // Simple debug print to verify structure is sane
    println!("{:#?}", config);
    assert_eq!(config.backup.destination, "Z:/Backups");
}

#[test]
fn library_config_debug_output() {
    let config = LibConfig {
        paths: LibPaths { includes: vec!["C:/Test".into()], exclude: vec!["*/Temp".into()] },
        backup: LibOptions { destination: "Z:/Backups".into(), max_versions: Some(5) },
    };
    println!("{:#?}", config);
    assert_eq!(config.backup.destination, "Z:/Backups");
    assert_eq!(config.keep_count(), 5);
}
