use std::time::Duration;

use indicatif::ProgressStyle;

use tileset_downloader::collector::{Collector, DownloadItem, ItemKind};
use tileset_downloader::download::{
    short, summarize, temp_path, DownloadOptions, FileEvent, FileOutcome, FileStep, FileTask,
    Summary, BYTE_BAR_TEMPLATE, FILE_BAR_TEMPLATE, MAX_MESSAGE_CHARS,
};
use tileset_downloader::error::{format_chain, Cause, Error, Result};
use tileset_downloader::local_path::LocalPath;
use tileset_downloader::web_url::Url;

fn items(paths: &[&str]) -> Vec<DownloadItem> {
    let mut collector = Collector::new(Url::parse("https://e.com/").expect("parses"));
    for path in paths {
        let url = Url::parse(&format!("https://e.com/{path}")).expect("parses");
        collector.add(url, ItemKind::Content).expect("is added");
    }
    collector.into_items()
}

fn failed() -> FileEvent {
    FileEvent::Failed {
        path: LocalPath::from_text("out/x"),
        cause: Cause::single("no space left on device"),
    }
}

/// Drives a task through the given events and collects its steps.
fn drive(overwrite: bool, events: Vec<FileEvent>) -> (Vec<FileStep>, Option<Result<FileOutcome>>) {
    let mut task = FileTask::new(overwrite);
    let mut steps = vec![task.step()];
    for event in events {
        task.advance(event);
        steps.push(task.step());
    }
    (steps, task.into_result())
}

#[test]
fn templates_are_valid() {
    assert!(
        ProgressStyle::with_template(FILE_BAR_TEMPLATE).is_ok(),
        "file bar template must parse: {FILE_BAR_TEMPLATE}"
    );
    assert!(
        ProgressStyle::with_template(BYTE_BAR_TEMPLATE).is_ok(),
        "byte bar template must parse: {BYTE_BAR_TEMPLATE}"
    );
}

#[test]
fn part_files_sit_next_to_their_target() {
    let temp = temp_path(&LocalPath::from_text("out/a/0.b3dm"));
    assert_eq!(temp.as_str(), "out/a/0.b3dm.part");
}

#[test]
fn long_paths_are_elided_not_truncated_at_the_wrong_end() {
    let path = LocalPath::from_text(&("a/".repeat(80) + "leaf.b3dm"));
    let shortened = short(&path);
    assert!(shortened.chars().count() <= MAX_MESSAGE_CHARS);
    assert!(shortened.ends_with("leaf.b3dm"), "got {shortened}");
}

#[test]
fn short_paths_are_left_alone() {
    assert_eq!(short(&LocalPath::from_text("a/b.b3dm")), "a/b.b3dm");
}

#[test]
fn elided_paths_fill_the_width() {
    let fits = "x".repeat(60);
    assert_eq!(short(&LocalPath::from_text(&fits)), fits);
    let over = format!("ab{}", "x".repeat(59));
    let shortened = short(&LocalPath::from_text(&over));
    assert_eq!(shortened, format!("…{}", "x".repeat(59)));
    assert_eq!(shortened.chars().count(), MAX_MESSAGE_CHARS);
}

#[test]
fn part_names_follow_the_last_component() {
    for (target, temp) in [
        ("out/a", "out/a.part"),
        ("a", "a.part"),
        ("/a/b", "/a/b.part"),
        ("out/_external/o.example/", "out/_external/o.example.part"),
    ] {
        assert_eq!(temp_path(&LocalPath::from_text(target)).as_str(), temp);
    }
}

#[test]
fn a_new_file_goes_through_every_step() {
    let (steps, result) = drive(
        false,
        vec![
            FileEvent::Found(false),
            FileEvent::Fetched(7),
            FileEvent::Done,
            FileEvent::Done,
            FileEvent::Done,
        ],
    );
    assert_eq!(
        steps,
        vec![
            FileStep::LookForTarget,
            FileStep::Fetch,
            FileStep::CreateDirectory,
            FileStep::WritePart,
            FileStep::Rename,
            FileStep::Finished,
        ]
    );
    assert!(matches!(
        result,
        Some(Ok(FileOutcome::Downloaded { bytes: 7 }))
    ));
}

#[test]
fn an_existing_file_is_skipped_unless_it_is_replaced() {
    let (steps, result) = drive(false, vec![FileEvent::Found(true)]);
    assert_eq!(steps, vec![FileStep::LookForTarget, FileStep::Finished]);
    assert!(matches!(result, Some(Ok(FileOutcome::Skipped))));

    let (steps, result) = drive(
        true,
        vec![
            FileEvent::Found(true),
            FileEvent::Fetched(3),
            FileEvent::Done,
            FileEvent::Done,
            FileEvent::Done,
        ],
    );
    assert_eq!(
        steps[4],
        FileStep::Rename,
        "the old file is not removed first"
    );
    assert_eq!(steps[5], FileStep::Finished);
    assert!(matches!(
        result,
        Some(Ok(FileOutcome::Downloaded { bytes: 3 }))
    ));
}

#[test]
fn each_step_fails_with_its_own_action() {
    let cases: Vec<(Vec<FileEvent>, &str)> = vec![
        (
            vec![FileEvent::Found(false), FileEvent::Fetched(1), failed()],
            "create directory",
        ),
        (
            vec![
                FileEvent::Found(false),
                FileEvent::Fetched(1),
                FileEvent::Done,
                failed(),
            ],
            "write",
        ),
        (
            vec![
                FileEvent::Found(false),
                FileEvent::Fetched(1),
                FileEvent::Done,
                FileEvent::Done,
                failed(),
                FileEvent::Done,
            ],
            "rename into place",
        ),
    ];
    for (events, action) in cases {
        let (steps, result) = drive(false, events);
        assert_eq!(steps.last(), Some(&FileStep::Finished));
        match result {
            Some(Err(error)) => assert_eq!(
                format_chain(&error),
                format!("failed to {action} `out/x`: no space left on device")
            ),
            other => panic!("unexpected {other:?}"),
        }
    }
}

#[test]
fn a_failed_rename_discards_the_part_file() {
    let (steps, _) = drive(
        false,
        vec![
            FileEvent::Found(false),
            FileEvent::Fetched(1),
            FileEvent::Done,
            FileEvent::Done,
            failed(),
            failed(),
        ],
    );
    assert_eq!(steps[5], FileStep::DiscardPart);
    assert_eq!(steps[6], FileStep::Finished);
}

#[test]
fn a_failed_fetch_touches_nothing() {
    let error = Error::HttpStatus {
        url: "https://e.com/a".to_owned(),
        status: 404,
    };
    let (steps, result) = drive(
        false,
        vec![FileEvent::Found(false), FileEvent::NotFetched(error)],
    );
    assert_eq!(
        steps,
        vec![FileStep::LookForTarget, FileStep::Fetch, FileStep::Finished]
    );
    assert!(matches!(
        result,
        Some(Err(Error::HttpStatus { status: 404, .. }))
    ));
}

#[test]
fn an_event_that_does_not_fit_changes_nothing() {
    let (steps, result) = drive(false, vec![FileEvent::Done, FileEvent::Fetched(9)]);
    assert_eq!(
        steps,
        vec![
            FileStep::LookForTarget,
            FileStep::LookForTarget,
            FileStep::LookForTarget
        ]
    );
    assert!(result.is_none());
}

#[test]
fn one_failure_costs_only_its_own_file() {
    let items = items(&["a", "b", "c", "d"]);
    let results = vec![
        Ok(FileOutcome::Downloaded { bytes: 10 }),
        Err(Error::HttpStatus {
            url: "https://e.com/b".to_owned(),
            status: 404,
        }),
        Ok(FileOutcome::Skipped),
        Ok(FileOutcome::Downloaded { bytes: 5 }),
    ];
    let summary = summarize(&items, results, Duration::from_secs(2));
    assert_eq!(summary.downloaded, 2);
    assert_eq!(summary.skipped, 1);
    assert_eq!(summary.bytes, 15);
    assert_eq!(summary.failures.len(), 1);
    assert_eq!(summary.failures[0].url, "https://e.com/b");
    assert_eq!(summary.failures[0].path.as_str(), "b");
    assert_eq!(summary.duration, Duration::from_secs(2));
    assert_eq!(summary.total(), 4);
    assert!(!summary.is_success());
    match summary.verdict() {
        Err(error) => assert_eq!(
            error.message(),
            "1 of 4 files failed to download; see the errors above"
        ),
        Ok(()) => panic!("a failure must be reported"),
    }
}

#[test]
fn a_clean_run_is_a_success() {
    let items = items(&["a"]);
    let summary = summarize(&items, vec![Ok(FileOutcome::Skipped)], Duration::ZERO);
    assert!(summary.is_success());
    assert!(summary.verdict().is_ok());
    assert_eq!(Summary::default().total(), 0);
    let options = DownloadOptions::default();
    assert!(!options.overwrite);
    assert!(options.progress);
}
