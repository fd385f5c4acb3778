//! Phase two: fetch every discovered item.
//!
//! Two properties matter more than speed here:
//!
//! * **Resumability.** A file is written to `<name>.part` and only renamed into
//!   place once it is complete, so an interrupted run never leaves a truncated
//!   tile behind. Files that already exist are skipped unless `--overwrite`.
//! * **Partial failure tolerance.** A single 404 in a 20 000-tile dataset must
//!   not throw away the other 19 999 downloads. Failures are collected into the
//!   [`Summary`] and reported at the end, and the process exits non-zero.

use std::time::Duration;
use vstd::prelude::*;

use crate::collector;
use crate::collector::{DownloadItem, ItemModel};
use crate::error;
use crate::error::{Cause, Error, ErrorModel, Result};
use crate::local_path;
use crate::local_path::{LocalPath, Part};
use crate::text;

verus! {

/// Template for the file-count bar.
pub const FILE_BAR_TEMPLATE: &'static str =
    "{spinner:.green} [{elapsed_precise}] [{bar:35.cyan/blue}] {pos:>5}/{len:<5} {percent:>3}% {per_sec:>11} ETA {eta:>5}  {msg}";

/// Template for the running byte counter.
pub const BYTE_BAR_TEMPLATE: &'static str = "{spinner:.dim} {bytes:>10} downloaded";

/// How wide a path shown next to the bar may be before it is elided.
pub const MAX_MESSAGE_CHARS: usize = 60;

/// Knobs for a download run.
#[derive(Debug, Clone)]
pub struct DownloadOptions {
    /// Replace files that already exist instead of skipping them.
    pub overwrite: bool,
    /// Draw progress bars.
    pub progress: bool,
}

impl Default for DownloadOptions {
    fn default() -> (options: DownloadOptions)
        ensures
            !options.overwrite,
            options.progress,
    {
        DownloadOptions { overwrite: false, progress: true }
    }
}

/// What happened to one file.
#[derive(Debug, Clone, Copy, PartialEq, Eq, Structural)]
pub enum FileOutcome {
    /// Fetched and written.
    Downloaded {
        /// Number of bytes written.
        bytes: u64,
    },
    /// Already on disk and `--overwrite` was not given.
    Skipped,
}

/// A file that could not be downloaded.
#[derive(Debug)]
pub struct Failure {
    /// URL that failed.
    pub url: String,
    /// Local path it would have been written to.
    pub path: LocalPath,
    /// Why it failed.
    pub error: Error,
}

/// What a [`Failure`] stands for.
#[verifier::ext_equal]
pub struct FailureModel {
    pub url: Seq<char>,
    pub path: Seq<char>,
    pub error: ErrorModel,
}

impl View for Failure {
    type V = FailureModel;

    open spec fn view(&self) -> FailureModel {
        FailureModel { url: self.url@, path: self.path@, error: self.error@ }
    }
}

/// Aggregate result of a download run.
#[derive(Debug, Default)]
pub struct Summary {
    /// Files fetched in this run.
    pub downloaded: usize,
    /// Files left alone because they already existed.
    pub skipped: usize,
    /// Bytes fetched in this run.
    pub bytes: u64,
    /// Files that failed, in the order the items were listed.
    pub failures: Vec<Failure>,
    /// Wall-clock time spent downloading.
    pub duration: Duration,
}

/// What the outcome of one file stands for.
pub type Attempt = core::result::Result<FileOutcome, ErrorModel>;

/// What a list of outcomes stands for.
pub open spec fn attempts(results: Seq<Result<FileOutcome>>) -> Seq<Attempt> {
    results.map_values(
        |r: Result<FileOutcome>|
            match r {
                Ok(outcome) => Ok::<FileOutcome, ErrorModel>(outcome),
                Err(error) => Err(error@),
            },
    )
}

/// How many files were fetched.
pub open spec fn downloaded_in(results: Seq<Attempt>) -> nat
    decreases results.len(),
{
    if results.len() == 0 {
        0
    } else {
        downloaded_in(results.drop_last()) + (match results.last() {
            Ok(FileOutcome::Downloaded { .. }) => 1nat,
            _ => 0,
        })
    }
}

/// How many files were left alone.
pub open spec fn skipped_in(results: Seq<Attempt>) -> nat
    decreases results.len(),
{
    if results.len() == 0 {
        0
    } else {
        skipped_in(results.drop_last()) + (match results.last() {
            Ok(FileOutcome::Skipped) => 1nat,
            _ => 0,
        })
    }
}

/// How many bytes were fetched.
pub open spec fn bytes_in(results: Seq<Attempt>) -> nat
    decreases results.len(),
{
    if results.len() == 0 {
        0
    } else {
        bytes_in(results.drop_last()) + (match results.last() {
            Ok(FileOutcome::Downloaded { bytes }) => bytes as nat,
            _ => 0,
        })
    }
}

/// The files that failed, in the order the items were listed.
pub open spec fn failures_in(items: Seq<ItemModel>, results: Seq<Attempt>) -> Seq<FailureModel>
    decreases results.len(),
{
    if results.len() == 0 {
        Seq::empty()
    } else {
        let before = failures_in(items, results.drop_last());
        match results.last() {
            Ok(_) => before,
            Err(error) => {
                let item = items[results.len() - 1];
                before.push(FailureModel { url: item.url.text, path: item.path, error })
            },
        }
    }
}

/// What a list of failures stands for.
pub open spec fn failure_views(failures: Seq<Failure>) -> Seq<FailureModel> {
    failures.map_values(|f: Failure| f@)
}

proof fn lemma_bytes_grow(results: Seq<Attempt>, n: int)
    requires
        0 <= n <= results.len(),
    ensures
        bytes_in(results.take(n)) <= bytes_in(results),
    decreases results.len() - n,
{
    if n < results.len() {
        lemma_bytes_grow(results, n + 1);
        assert(results.take(n + 1).drop_last() =~= results.take(n));
    } else {
        assert(results.take(n) =~= results);
    }
}

/// Every file is counted exactly once: as fetched, as left alone, or as failed.
pub proof fn law_every_file_is_counted(items: Seq<ItemModel>, results: Seq<Attempt>)
    ensures
        downloaded_in(results) + skipped_in(results) + failures_in(items, results).len()
            == results.len(),
    decreases results.len(),
{
    if results.len() > 0 {
        law_every_file_is_counted(items, results.drop_last());
    }
}

/// Collects the outcomes of a run. One failure costs only its own file.
pub fn summarize(items: &Vec<DownloadItem>, results: Vec<Result<FileOutcome>>, duration: Duration) -> (
    summary: Summary)
    requires
        items@.len() == results@.len(),
        bytes_in(attempts(results@)) <= u64::MAX,
    ensures
        summary.downloaded == downloaded_in(attempts(results@)),
        summary.skipped == skipped_in(attempts(results@)),
        summary.bytes == bytes_in(attempts(results@)),
        failure_views(summary.failures@) == failures_in(
            collector::item_views(items@),
            attempts(results@),
        ),
        summary.downloaded + summary.skipped + summary.failures@.len() == items@.len(),
        summary.duration == duration,
{
    let ghost models = collector::item_views(items@);
    let ghost outcomes = attempts(results@);
    let mut summary = Summary {
        downloaded: 0,
        skipped: 0,
        bytes: 0,
        failures: Vec::new(),
        duration,
    };
    let mut i: usize = 0;
    assert(failure_views(summary.failures@) =~= Seq::<FailureModel>::empty());
    for result in iter: results
        invariant
            i == iter.index(),
            iter.seq() == results@,
            items.len() == results@.len(),
            models == collector::item_views(items@),
            outcomes == attempts(results@),
            bytes_in(outcomes) <= u64::MAX,
            summary.downloaded == downloaded_in(outcomes.take(i as int)),
            summary.skipped == skipped_in(outcomes.take(i as int)),
            summary.bytes == bytes_in(outcomes.take(i as int)),
            failure_views(summary.failures@) == failures_in(models, outcomes.take(i as int)),
            summary.duration == duration,
    {
        let item = &items[i];
        proof {
            let done = outcomes.take(i as int);
            let next = outcomes.take(i + 1);
            assert(next.drop_last() =~= done);
            assert(next.last() == outcomes[i as int]);
            law_every_file_is_counted(models, done);
            law_every_file_is_counted(models, next);
            lemma_bytes_grow(outcomes, i + 1);
            assert(models[i as int] == item@);
        }
        match result {
            Ok(FileOutcome::Downloaded { bytes }) => {
                summary.downloaded = summary.downloaded + 1;
                summary.bytes = summary.bytes + bytes;
            },
            Ok(FileOutcome::Skipped) => {
                summary.skipped = summary.skipped + 1;
            },
            Err(error) => {
                let ghost before = failure_views(summary.failures@);
                let failure = Failure {
                    url: item.url.as_str().to_owned(),
                    path: item.relative_path.duplicate(),
                    error,
                };
                let ghost added = failure@;
                summary.failures.push(failure);
                assert(failure_views(summary.failures@) =~= before.push(added));
            },
        }
        i += 1;
    }
    assert(outcomes.take(i as int) =~= outcomes);
    proof {
        law_every_file_is_counted(models, outcomes);
        assert(failure_views(summary.failures@).len() == summary.failures@.len());
    }
    summary
}

/// What a run comes to, by how many files failed and how many there were.
pub open spec fn verdict_of(failed: usize, total: usize) -> core::result::Result<(), ErrorModel> {
    if failed == 0 {
        Ok(())
    } else {
        Err(ErrorModel::PartialFailure { failed, total })
    }
}

/// A single failure fails the run, no number of other files makes up for it, and the error
/// tells how many of how many failed.
pub proof fn law_one_failure_fails_the_run(failed: usize, total: usize)
    ensures
        verdict_of(failed, total) is Ok <==> failed == 0,
        verdict_of(failed, total) matches Err(error) ==> error == (ErrorModel::PartialFailure {
            failed,
            total,
        }),
{
}

impl Summary {
    /// Whether every item either downloaded or was skipped.
    pub fn is_success(&self) -> (success: bool)
        ensures
            success == (self.failures@.len() == 0),
    {
        self.failures.len() == 0
    }

    /// Items considered in this run.
    pub fn total(&self) -> (total: usize)
        requires
            self.downloaded + self.skipped + self.failures@.len() <= usize::MAX,
        ensures
            total == self.downloaded + self.skipped + self.failures@.len(),
    {
        self.downloaded + self.skipped + self.failures.len()
    }

    /// What a whole run comes to: success where no file failed, and otherwise how
    /// many of how many failed.
    pub fn verdict(&self) -> (out: Result<()>)
        requires
            self.downloaded + self.skipped + self.failures@.len() <= usize::MAX,
        ensures
            error::done(out) == (if self.failures@.len() == 0 {
                Ok::<(), ErrorModel>(())
            } else {
                Err::<(), ErrorModel>(
                    ErrorModel::PartialFailure {
                        failed: self.failures@.len() as usize,
                        total: (self.downloaded + self.skipped + self.failures@.len()) as usize,
                    },
                )
            }),
            error::done(out) == verdict_of(
                self.failures@.len() as usize,
                (self.downloaded + self.skipped + self.failures@.len()) as usize,
            ),
    {
        if self.is_success() {
            Ok(())
        } else {
            Err(Error::PartialFailure { failed: self.failures.len(), total: self.total() })
        }
    }
}

/// A path as it is shown next to the progress bar: its end, where it is too long.
pub open spec fn shortened(path: Seq<char>) -> Seq<char> {
    if path.len() <= MAX_MESSAGE_CHARS {
        path
    } else {
        seq!['\u{2026}'] + path.skip(path.len() - MAX_MESSAGE_CHARS + 1)
    }
}

/// Keeps the path next to the bar from pushing the bar itself off the line.
pub fn short(path: &LocalPath) -> (out: String)
    ensures
        out@ == shortened(path@),
        out@.len() <= MAX_MESSAGE_CHARS,
{
    let chars = text::chars_of(path.as_str());
    if chars.len() <= MAX_MESSAGE_CHARS {
        return path.as_str().to_owned();
    }
    let tail = text::text_of(&chars, chars.len() - MAX_MESSAGE_CHARS + 1, chars.len());
    let mut out = String::new();
    out.push('\u{2026}');
    out.append(tail.as_str());
    assert(out@ =~= shortened(path@));
    out
}

/// `<name>.b3dm` becomes `<name>.b3dm.part`.
pub fn temp_path(target: &LocalPath) -> (temp: LocalPath)
    ensures
        local_path::parts(temp@) == local_path::suffixed_parts(
            local_path::parts(target@),
            ".part"@,
        ),
{
    proof {
        lemma_part_is_plain();
    }
    local_path::with_suffix(target, ".part")
}

proof fn lemma_part_is_plain()
    ensures
        local_path::is_plain_name(".part"@),
{
    reveal_strlit(".part");
    assert(".part"@.len() == 5);
    assert(!".part"@.contains('/'));
    assert(seq!['.'].len() == 1 && seq!['.', '.'].len() == 2);
}

/// A part file is another file than its target, beside it.
pub proof fn law_part_is_beside_its_target(target: Seq<Part>, temp: Seq<Part>)
    requires
        target.len() > 0,
        target.last() is Name,
        temp == local_path::suffixed_parts(target, ".part"@),
    ensures
        temp != target,
        temp.drop_last() == target.drop_last(),
{
    reveal_strlit(".part");
    let name = target.last()->Name_0;
    assert((name + ".part"@).len() == name.len() + 5);
    assert(temp.last() == Part::Name(name + ".part"@));
    assert(temp.drop_last() =~= target.drop_last());
}

/// What has to be done next for one file.
#[derive(Debug, Clone, Copy, PartialEq, Eq, Structural)]
pub enum FileStep {
    /// Tell whether the target exists.
    LookForTarget,
    /// Fetch the body.
    Fetch,
    /// Create the directory that holds the target.
    CreateDirectory,
    /// Write the body to the part file.
    WritePart,
    /// Rename the part file to the target, in place of an old one: the commit point.
    Rename,
    /// Remove the part file, whether or not that works.
    DiscardPart,
    /// Nothing.
    Finished,
}

/// What came of a step.
#[derive(Debug)]
pub enum FileEvent {
    /// Whether the file that was looked for exists.
    Found(bool),
    /// The body is there, with its length.
    Fetched(u64),
    /// The step succeeded.
    Done,
    /// The body could not be fetched.
    NotFetched(Error),
    /// The step failed on a file or directory.
    Failed {
        /// Which file or directory.
        path: LocalPath,
        /// OS diagnostic.
        cause: Cause,
    },
}

/// What a [`FileEvent`] stands for.
#[verifier::ext_equal]
pub enum EventModel {
    Found(bool),
    Fetched(u64),
    Done,
    NotFetched(ErrorModel),
    Failed { path: Seq<char>, cause: Seq<Seq<char>> },
}

impl View for FileEvent {
    type V = EventModel;

    open spec fn view(&self) -> EventModel {
        match self {
            FileEvent::Found(exists) => EventModel::Found(*exists),
            FileEvent::Fetched(bytes) => EventModel::Fetched(*bytes),
            FileEvent::Done => EventModel::Done,
            FileEvent::NotFetched(error) => EventModel::NotFetched(error@),
            FileEvent::Failed { path, cause } => EventModel::Failed { path: path@, cause: cause@ },
        }
    }
}

/// What a [`FileTask`] stands for.
#[verifier::ext_equal]
pub struct TaskModel {
    /// Whether an existing target is replaced.
    pub overwrite: bool,
    /// What has to be done next.
    pub step: FileStep,
    /// The length of the body, once it was fetched.
    pub bytes: u64,
    /// What the download comes to, once that is known.
    pub result: Option<Attempt>,
}

/// The download of one file, step by step.
///
/// The rename is the commit point: readers either see the old file or the
/// complete new one, never a half-written tile.
#[derive(Debug)]
pub struct FileTask {
    overwrite: bool,
    step: FileStep,
    bytes: u64,
    result: Option<Result<FileOutcome>>,
}

impl View for FileTask {
    type V = TaskModel;

    closed spec fn view(&self) -> TaskModel {
        TaskModel {
            overwrite: self.overwrite,
            step: self.step,
            bytes: self.bytes,
            result: match self.result {
                Some(Ok(outcome)) => Some(Ok(outcome)),
                Some(Err(error)) => Some(Err(error@)),
                None => None,
            },
        }
    }
}

/// A task at another step.
pub open spec fn at_step(task: TaskModel, step: FileStep) -> TaskModel {
    TaskModel { step, ..task }
}

/// A task that has come to an end.
pub open spec fn ended(task: TaskModel, result: Attempt) -> TaskModel {
    TaskModel { step: FileStep::Finished, result: Some(result), ..task }
}

/// The error of an operation on a file or directory.
pub open spec fn io_error(action: Seq<char>, path: Seq<char>, cause: Seq<Seq<char>>) -> ErrorModel {
    ErrorModel::Io { action, path, source: cause }
}

/// A task after its step has led to an event. An event that the step cannot lead to
/// changes nothing.
pub open spec fn advanced(task: TaskModel, event: EventModel) -> TaskModel {
    match (task.step, event) {
        (FileStep::LookForTarget, EventModel::Found(exists)) => if exists && !task.overwrite {
            ended(task, Ok(FileOutcome::Skipped))
        } else {
            at_step(task, FileStep::Fetch)
        },
        (FileStep::Fetch, EventModel::Fetched(bytes)) => TaskModel {
            step: FileStep::CreateDirectory,
            bytes,
            ..task
        },
        (FileStep::Fetch, EventModel::NotFetched(error)) => ended(task, Err(error)),
        (FileStep::CreateDirectory, EventModel::Done) => at_step(task, FileStep::WritePart),
        (FileStep::CreateDirectory, EventModel::Failed { path, cause }) => ended(
            task,
            Err(io_error("create directory"@, path, cause)),
        ),
        (FileStep::WritePart, EventModel::Done) => at_step(task, FileStep::Rename),
        (FileStep::WritePart, EventModel::Failed { path, cause }) => ended(
            task,
            Err(io_error("write"@, path, cause)),
        ),
        (FileStep::Rename, EventModel::Done) => ended(
            task,
            Ok(FileOutcome::Downloaded { bytes: task.bytes }),
        ),
        (FileStep::Rename, EventModel::Failed { path, cause }) => at_step(
            ended(task, Err(io_error("rename into place"@, path, cause))),
            FileStep::DiscardPart,
        ),
        (FileStep::DiscardPart, _) => at_step(task, FileStep::Finished),
        _ => task,
    }
}

impl FileTask {
    /// The download of a file that nothing was done for yet.
    pub fn new(overwrite: bool) -> (task: FileTask)
        ensures
            task@ == (TaskModel {
                overwrite,
                step: FileStep::LookForTarget,
                bytes: 0,
                result: None,
            }),
    {
        FileTask { overwrite, step: FileStep::LookForTarget, bytes: 0, result: None }
    }

    /// What has to be done next.
    pub fn step(&self) -> (step: FileStep)
        ensures
            step == self@.step,
    {
        self.step
    }

    /// Takes in what came of the step.
    pub fn advance(&mut self, event: FileEvent)
        ensures
            final(self)@ == advanced(old(self)@, event@),
    {
        match (self.step, event) {
            (FileStep::LookForTarget, FileEvent::Found(exists)) => {
                if exists && !self.overwrite {
                    self.finish(Ok(FileOutcome::Skipped));
                } else {
                    self.step = FileStep::Fetch;
                }
            },
            (FileStep::Fetch, FileEvent::Fetched(bytes)) => {
                self.bytes = bytes;
                self.step = FileStep::CreateDirectory;
            },
            (FileStep::Fetch, FileEvent::NotFetched(error)) => {
                self.finish(Err(error));
            },
            (FileStep::CreateDirectory, FileEvent::Done) => {
                self.step = FileStep::WritePart;
            },
            (FileStep::CreateDirectory, FileEvent::Failed { path, cause }) => {
                self.finish(Err(Error::io("create directory", path, cause)));
            },
            (FileStep::WritePart, FileEvent::Done) => {
                self.step = FileStep::Rename;
            },
            (FileStep::WritePart, FileEvent::Failed { path, cause }) => {
                self.finish(Err(Error::io("write", path, cause)));
            },
            (FileStep::Rename, FileEvent::Done) => {
                let bytes = self.bytes;
                self.finish(Ok(FileOutcome::Downloaded { bytes }));
            },
            (FileStep::Rename, FileEvent::Failed { path, cause }) => {
                self.finish(Err(Error::io("rename into place", path, cause)));
                self.step = FileStep::DiscardPart;
            },
            (FileStep::DiscardPart, _) => {
                self.step = FileStep::Finished;
            },
            _ => {},
        }
    }

    fn finish(&mut self, result: Result<FileOutcome>)
        ensures
            final(self)@ == ended(
                old(self)@,
                match result {
                    Ok(outcome) => Ok(outcome),
                    Err(error) => Err(error@),
                },
            ),
    {
        self.step = FileStep::Finished;
        self.result = Some(result);
    }

    /// What the download came to, once it has finished.
    pub fn into_result(self) -> (result: Option<Result<FileOutcome>>)
        ensures
            match result {
                Some(Ok(outcome)) => self@.result == Some(Ok::<FileOutcome, ErrorModel>(outcome)),
                Some(Err(error)) => self@.result == Some(Err::<FileOutcome, ErrorModel>(error@)),
                None => self@.result is None,
            },
    {
        self.result
    }
}

/// The two files that a download touches.
#[verifier::ext_equal]
pub struct Disk {
    /// What the target holds, if it exists.
    pub target: Option<Seq<u8>>,
    /// What the part file holds, if it exists.
    pub part: Option<Seq<u8>>,
}

/// What carrying out a step can do to the disk when it leads to an event. A failed
/// write may leave anything in the part file.
pub open spec fn carried_out(
    step: FileStep,
    body: Seq<u8>,
    before: Disk,
    event: EventModel,
    after: Disk,
) -> bool {
    match step {
        FileStep::LookForTarget => after == before && event == EventModel::Found(
            before.target is Some,
        ),
        FileStep::WritePart => {
            &&& after.target == before.target
            &&& event is Done ==> after.part == Some(body)
        },
        FileStep::Rename => if event is Done {
            after == (Disk { target: before.part, part: None })
        } else {
            after == before
        },
        FileStep::DiscardPart => {
            &&& after.target == before.target
            &&& event is Done ==> after.part is None
        },
        FileStep::Fetch | FileStep::CreateDirectory | FileStep::Finished => after == before,
    }
}

/// What a run that is cut short in the middle of a step can leave on the disk.
pub open spec fn cut_short(step: FileStep, body: Seq<u8>, before: Disk, after: Disk) -> bool {
    match step {
        FileStep::WritePart | FileStep::DiscardPart => after.target == before.target,
        FileStep::Rename => after == before || after == (Disk { target: before.part, part: None }),
        _ => after == before,
    }
}

/// The target is as it was, or holds the complete body.
pub open spec fn is_whole(disk: Disk, start: Disk, body: Seq<u8>) -> bool {
    disk.target == start.target || disk.target == Some(body)
}

/// What holds of the disk at every step of a download.
pub open spec fn is_in_step(task: TaskModel, disk: Disk, start: Disk, body: Seq<u8>) -> bool {
    &&& is_whole(disk, start, body)
    &&& match task.step {
        FileStep::LookForTarget
        | FileStep::Fetch
        | FileStep::CreateDirectory
        | FileStep::WritePart => task.result is None && disk.target == start.target,
        FileStep::Rename => task.result is None && disk.target == start.target && disk.part
            == Some(body),
        FileStep::DiscardPart => task.result matches Some(Err(_)) && disk.target == start.target,
        FileStep::Finished => match task.result {
            Some(Ok(FileOutcome::Downloaded { .. })) => disk.target == Some(body),
            Some(Ok(FileOutcome::Skipped)) => disk.target == start.target && disk.target is Some
                && !task.overwrite,
            Some(Err(_)) => disk.target == start.target,
            None => false,
        },
    }
}

/// Every step keeps the target whole: whatever happens, it is as it was, or complete,
/// and an old file is never missing in between. A finished download has left the
/// complete body, or an existing file untouched, or, with an error, the target as it
/// was.
pub proof fn law_target_stays_whole(
    task: TaskModel,
    before: Disk,
    start: Disk,
    body: Seq<u8>,
    event: EventModel,
    after: Disk,
)
    requires
        is_in_step(task, before, start, body),
        carried_out(task.step, body, before, event, after),
    ensures
        is_in_step(advanced(task, event), after, start, body),
{
}

/// A download starts with the disk as it is.
pub proof fn law_download_starts_in_step(overwrite: bool, start: Disk, body: Seq<u8>)
    ensures
        is_in_step(
            TaskModel { overwrite, step: FileStep::LookForTarget, bytes: 0, result: None },
            start,
            start,
            body,
        ),
{
}

/// An interrupted run never leaves a truncated tile: wherever a download is cut
/// short, the target is as it was, or complete.
pub proof fn law_interruption_leaves_whole_files(
    task: TaskModel,
    before: Disk,
    start: Disk,
    body: Seq<u8>,
    after: Disk,
)
    requires
        is_in_step(task, before, start, body),
        cut_short(task.step, body, before, after),
    ensures
        is_whole(after, start, body),
{
}

/// A rename that fails is reported, and costs nothing but the new body: the target is
/// as it was, and the part file is gone once it was discarded.
pub proof fn law_failed_rename_keeps_the_target(
    task: TaskModel,
    before: Disk,
    start: Disk,
    body: Seq<u8>,
    path: Seq<char>,
    cause: Seq<Seq<char>>,
    between: Disk,
    after: Disk,
)
    requires
        task.step == FileStep::Rename,
        is_in_step(task, before, start, body),
        carried_out(FileStep::Rename, body, before, EventModel::Failed { path, cause }, between),
        carried_out(FileStep::DiscardPart, body, between, EventModel::Done, after),
    ensures
        ({
            let failed = advanced(task, EventModel::Failed { path, cause });
            let end = advanced(failed, EventModel::Done);
            &&& failed.step == FileStep::DiscardPart
            &&& end.step == FileStep::Finished
            &&& end.result == Some(
                Err::<FileOutcome, ErrorModel>(io_error("rename into place"@, path, cause)),
            )
            &&& after.target == start.target
            &&& after.part is None
        }),
{
}

/// A second run skips what is there: a download that finds its target, and is not to
/// overwrite it, ends without fetching anything.
pub proof fn law_existing_files_are_skipped(task: TaskModel)
    requires
        task.step == FileStep::LookForTarget,
        !task.overwrite,
    ensures
        advanced(task, EventModel::Found(true)) == ended(task, Ok(FileOutcome::Skipped)),
{
}

/// The counts of a run are those of its outcomes: as many files were fetched, left alone or
/// failed as there are such outcomes.
pub proof fn law_outcomes_are_counted(items: Seq<ItemModel>, results: Seq<Attempt>)
    ensures
        downloaded_in(results) == results.filter(
            |r: Attempt| r is Ok && r->Ok_0 is Downloaded,
        ).len(),
        skipped_in(results) == results.filter(|r: Attempt| r is Ok && r->Ok_0 is Skipped).len(),
        failures_in(items, results).len() == results.filter(|r: Attempt| r is Err).len(),
    decreases results.len(),
{
    reveal(Seq::filter);
    if results.len() > 0 {
        law_outcomes_are_counted(items, results.drop_last());
    }
}

/// The bytes of a run are those of its files, added up: a file that was fetched adds its
/// length, and any other adds nothing.
pub proof fn law_bytes_add_up(a: Seq<Attempt>, b: Seq<Attempt>, one: Attempt)
    ensures
        bytes_in(a + b) == bytes_in(a) + bytes_in(b),
        bytes_in(seq![one]) == (if one is Ok && one->Ok_0 is Downloaded {
            one->Ok_0->bytes as nat
        } else {
            0
        }),
        bytes_in(Seq::empty()) == 0,
    decreases b.len(),
{
    reveal_with_fuel(bytes_in, 2);
    if b.len() == 0 {
        assert(a + b =~= a);
    } else {
        law_bytes_add_up(a, b.drop_last(), one);
        assert((a + b).drop_last() =~= a + b.drop_last());
        assert((a + b).last() == b.last());
    }
    assert(seq![one].drop_last() =~= Seq::<Attempt>::empty());
}

/// Every failure is listed, in the order of the files, with the URL and the path of the file
/// that failed and the error that it failed with; and nothing else is listed.
pub proof fn law_failures_name_their_files(items: Seq<ItemModel>, results: Seq<Attempt>) -> (failed:
    Seq<int>)
    requires
        items.len() == results.len(),
    ensures
        failed.len() == failures_in(items, results).len(),
        forall|j: int, k: int|
            0 <= j < k < failed.len() ==> #[trigger] failed[j] < #[trigger] failed[k],
        forall|k: int|
            0 <= k < failed.len() ==> {
                let i = #[trigger] failed[k];
                &&& 0 <= i < results.len()
                &&& failures_in(items, results)[k].url == items[i].url.text
                &&& failures_in(items, results)[k].path == items[i].path
                &&& results[i] == Err::<FileOutcome, ErrorModel>(
                    failures_in(items, results)[k].error,
                )
            },
        forall|i: int|
            0 <= i < results.len() && (#[trigger] results[i]) is Err ==> failed.contains(i),
    decreases results.len(),
{
    if results.len() == 0 {
        Seq::empty()
    } else {
        let n = results.len() - 1;
        let front = results.drop_last();
        let before = law_failures_name_their_files(items.drop_last(), front);
        lemma_failures_ignore_the_rest(items, items.drop_last(), front);
        if results.last() is Err {
            let failed = before.push(n);
            assert forall|i: int| 0 <= i < results.len() && (#[trigger] results[i]) is Err implies
                failed.contains(i) by {
                if i < n {
                    assert(front[i] is Err);
                    let k = choose|k: int| 0 <= k < before.len() && before[k] == i;
                    assert(failed[k] == i);
                } else {
                    assert(failed[failed.len() - 1] == i);
                }
            }
            failed
        } else {
            assert forall|i: int| 0 <= i < results.len() && (#[trigger] results[i]) is Err implies
                before.contains(i) by {
                assert(front[i] is Err);
            }
            before
        }
    }
}

proof fn lemma_failures_ignore_the_rest(
    a: Seq<ItemModel>,
    b: Seq<ItemModel>,
    results: Seq<Attempt>,
)
    requires
        results.len() <= a.len(),
        results.len() <= b.len(),
        forall|i: int| 0 <= i < results.len() ==> a[i] == b[i],
    ensures
        failures_in(a, results) == failures_in(b, results),
    decreases results.len(),
{
    if results.len() > 0 {
        lemma_failures_ignore_the_rest(a, b, results.drop_last());
    }
}

/// What is shown of a path is all of it where it has no more than 60 characters, and
/// otherwise an ellipsis and its last 59.
pub proof fn law_long_paths_show_their_end(path: Seq<char>)
    ensures
        path.len() <= 60 ==> shortened(path) == path,
        path.len() > 60 ==> {
            &&& shortened(path).len() == 60
            &&& shortened(path)[0] == '\u{2026}'
            &&& forall|i: int|
                1 <= i < 60 ==> #[trigger] shortened(path)[i] == path[path.len() - 60 + i]
        },
{
}

/// The part file has the name of its target with `.part` behind it; where the target does
/// not end in a name, that is its whole name.
pub proof fn law_part_is_named_after_its_target(target: Seq<Part>, name: Seq<char>)
    requires
        target.len() > 0,
    ensures
        target.last() == Part::Name(name) ==> local_path::suffixed_parts(target, ".part"@)
            == target.drop_last().push(Part::Name(name + seq!['.', 'p', 'a', 'r', 't'])),
        !(target.last() is Name) ==> local_path::suffixed_parts(target, ".part"@) == target.push(
            Part::Name(seq!['.', 'p', 'a', 'r', 't']),
        ),
{
    reveal_strlit(".part");
    assert(".part"@ =~= seq!['.', 'p', 'a', 'r', 't']);
}

/// A download whose steps all succeed fetches the file and tells its length, unless the file
/// is there and is not to be replaced: then it is left alone, and nothing else is done.
pub proof fn law_download_runs_through(overwrite: bool, exists_already: bool, bytes: u64)
    ensures
        ({
            let start = TaskModel {
                overwrite,
                step: FileStep::LookForTarget,
                bytes: 0,
                result: None,
            };
            let looked = advanced(start, EventModel::Found(exists_already));
            let fetched = advanced(looked, EventModel::Fetched(bytes));
            let directory = advanced(fetched, EventModel::Done);
            let written = advanced(directory, EventModel::Done);
            let renamed = advanced(written, EventModel::Done);
            if exists_already && !overwrite {
                &&& looked.step == FileStep::Finished
                &&& looked.result == Some(Ok::<FileOutcome, ErrorModel>(FileOutcome::Skipped))
            } else {
                &&& looked.step == FileStep::Fetch
                &&& fetched.step == FileStep::CreateDirectory
                &&& directory.step == FileStep::WritePart
                &&& written.step == FileStep::Rename
                &&& renamed.step == FileStep::Finished
                &&& renamed.result == Some(
                    Ok::<FileOutcome, ErrorModel>(FileOutcome::Downloaded { bytes }),
                )
            }
        }),
{
}

/// A failure ends the download there, and is reported as what it is: that of the request
/// unchanged, and that of a file or directory with what was being done to it.
pub proof fn law_failures_are_reported(
    task: TaskModel,
    error: ErrorModel,
    path: Seq<char>,
    cause: Seq<Seq<char>>,
)
    ensures
        task.step == FileStep::Fetch ==> {
            let end = advanced(task, EventModel::NotFetched(error));
            &&& end.step == FileStep::Finished
            &&& end.result == Some(Err::<FileOutcome, ErrorModel>(error))
        },
        task.step == FileStep::CreateDirectory ==> {
            let end = advanced(task, EventModel::Failed { path, cause });
            &&& end.step == FileStep::Finished
            &&& end.result == Some(
                Err::<FileOutcome, ErrorModel>(
                    ErrorModel::Io { action: "create directory"@, path, source: cause },
                ),
            )
        },
        task.step == FileStep::WritePart ==> {
            let end = advanced(task, EventModel::Failed { path, cause });
            &&& end.step == FileStep::Finished
            &&& end.result == Some(
                Err::<FileOutcome, ErrorModel>(
                    ErrorModel::Io { action: "write"@, path, source: cause },
                ),
            )
        },
        task.step == FileStep::Rename ==> {
            let failed = advanced(task, EventModel::Failed { path, cause });
            &&& failed.step == FileStep::DiscardPart
            &&& failed.result == Some(
                Err::<FileOutcome, ErrorModel>(
                    ErrorModel::Io { action: "rename into place"@, path, source: cause },
                ),
            )
        },
{
}

/// What a download came to stays, and so does whether it may overwrite: nothing that happens
/// later changes either.
pub proof fn law_results_are_final(task: TaskModel, event: EventModel)
    ensures
        advanced(task, event).overwrite == task.overwrite,
        task.step == FileStep::Finished ==> advanced(task, event) == task,
        task.step == FileStep::DiscardPart ==> advanced(task, event).result == task.result
            && advanced(task, event).step == FileStep::Finished,
        advanced(task, event).step != FileStep::CreateDirectory || task.step
            == FileStep::CreateDirectory || event == EventModel::Fetched(
            advanced(task, event).bytes,
        ),
{
}

} // verus!
