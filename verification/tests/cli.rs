use std::time::Duration;

use tileset_downloader::cli::{
    reported_failures, Cli, ABOUT, DEFAULT_CONCURRENCY, EXAMPLES, MAX_REPORTED_FAILURES,
};
use tileset_downloader::local_path::LocalPath;

fn cli() -> Cli {
    Cli {
        url: "https://e.com/tileset.json".to_owned(),
        out: LocalPath::from_text("out"),
        concurrency: None,
        headers: Vec::new(),
        overwrite: false,
        dry_run: false,
        no_progress: false,
        timeout: 60,
        connect_timeout: 30,
        retries: 3,
        user_agent: None,
        verbose: 0,
        quiet: false,
    }
}

#[test]
fn quiet_disables_progress() {
    let cli = Cli {
        quiet: true,
        ..cli()
    };
    assert!(!cli.progress_enabled());
}

#[test]
fn progress_is_shown_unless_it_is_hidden() {
    assert!(cli().progress_enabled());
    let hidden = Cli {
        no_progress: true,
        ..cli()
    };
    assert!(!hidden.progress_enabled());
}

#[test]
fn concurrency_follows_the_machine_unless_it_is_given() {
    assert_eq!(cli().concurrency(Some(12)), 12);
    assert_eq!(cli().concurrency(None), DEFAULT_CONCURRENCY);
    let given = Cli {
        concurrency: Some(32),
        ..cli()
    };
    assert_eq!(given.concurrency(Some(12)), 32);
    assert_eq!(DEFAULT_CONCURRENCY, 4);
}

#[test]
fn the_log_level_follows_the_flags() {
    assert_eq!(cli().log_level(), "info");
    for (verbose, level) in [(1u8, "debug"), (2, "trace"), (9, "trace")] {
        let loud = Cli { verbose, ..cli() };
        assert_eq!(loud.log_level(), level);
    }
    let quiet = Cli {
        quiet: true,
        verbose: 2,
        ..cli()
    };
    assert_eq!(quiet.log_level(), "warn");
}

#[test]
fn the_client_is_configured_from_the_arguments() {
    let config = cli().client_config(4);
    assert_eq!(config.user_agent, "tileset-downloader/0.1.0");
    assert_eq!(config.max_idle_connections_per_host, 32);
    let given = Cli {
        user_agent: Some("me".to_owned()),
        headers: vec!["A: 1".to_owned(), "B: 2".to_owned()],
        timeout: 0,
        connect_timeout: 7,
        retries: 9,
        ..cli()
    };
    let config = given.client_config(64);
    assert_eq!(config.user_agent, "me");
    assert_eq!(config.headers, vec!["A: 1", "B: 2"]);
    assert_eq!(config.timeout, Duration::ZERO);
    assert_eq!(config.connect_timeout, Duration::from_secs(7));
    assert_eq!(config.retries, 9);
    assert_eq!(config.max_idle_connections_per_host, 64);
}

#[test]
fn only_the_first_failures_are_spelled_out() {
    assert_eq!(reported_failures(0), (0, 0));
    assert_eq!(reported_failures(10), (10, 0));
    assert_eq!(reported_failures(12), (10, 2));
    assert_eq!(MAX_REPORTED_FAILURES, 10);
}

#[test]
fn the_help_texts_are_in_place() {
    assert!(ABOUT.starts_with("Download a complete 3D Tiles tileset"));
    assert!(EXAMPLES.starts_with("Examples:\n  # tileset.json URL"));
    assert!(EXAMPLES.ends_with("out --dry-run"));
    assert!(EXAMPLES.contains("out \\\n      -j 32 --retries 8"));
}
