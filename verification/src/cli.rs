//! What the command line asks for, and what follows from it.

use std::time::Duration;

use vstd::prelude::*;

use crate::collector;
use crate::collector::{DownloadItem, ItemKind};
use crate::local_path::LocalPath;
use crate::net;
use crate::net::ClientConfig;
use crate::text;

verus! {

/// Kept short; `--help` prints it verbatim.
pub const ABOUT: &'static str =
    "Download a complete 3D Tiles tileset from a URL into a local directory.";

/// Rendered after the option list by `--help`.
pub const EXAMPLES: &'static str =
    "Examples:\n  # tileset.json URL, output into ./mytiles\n  tileset-downloader https://example.com/tileset.json ./mytiles\n\n  # a directory URL works too: tileset.json is appended for you\n  tileset-downloader https://example.com/3dtiles/ ./mytiles\n\n  # 32 parallel fetches, 8 retries, signed-url style auth header\n  tileset-downloader https://api.example.com/tileset.json out \\\n      -j 32 --retries 8 -H 'Authorization: Bearer <token>'\n\n  # see what would be downloaded without downloading it\n  tileset-downloader https://example.com/tileset.json out --dry-run";

/// How many individual failures to spell out before summarising the rest.
pub const MAX_REPORTED_FAILURES: usize = 10;

/// How many files are fetched at once where neither the user nor the system says.
pub const DEFAULT_CONCURRENCY: usize = 4;

/// Parsed command line arguments.
#[derive(Debug, Clone)]
pub struct Cli {
    /// Root tileset URL: either a `tileset.json` or the directory holding it.
    pub url: String,
    /// Directory to write the tileset into. Created if missing.
    pub out: LocalPath,
    /// Number of files to fetch in parallel. Defaults to the logical CPU count.
    pub concurrency: Option<u32>,
    /// Extra request headers, e.g. `Authorization: Bearer xyz`.
    pub headers: Vec<String>,
    /// Re-download files that already exist.
    pub overwrite: bool,
    /// Discover everything, print the plan, and exit without downloading.
    pub dry_run: bool,
    /// Hide progress bars. Also implied by `quiet`.
    pub no_progress: bool,
    /// Per-request timeout in seconds. 0 disables the timeout.
    pub timeout: u64,
    /// Connection timeout in seconds. 0 disables the timeout.
    pub connect_timeout: u64,
    /// Retries per request for transient failures (timeouts, HTTP 429/5xx).
    pub retries: u32,
    /// Override the User-Agent header.
    pub user_agent: Option<String>,
    /// Verbosity: 1 for debug logs, 2 for trace logs.
    pub verbose: u8,
    /// Only log warnings and errors.
    pub quiet: bool,
}

/// How many files are fetched at once.
pub open spec fn worker_count(asked: Option<u32>, available: Option<usize>) -> usize {
    match (asked, available) {
        (Some(value), _) => value as usize,
        (None, Some(count)) => count,
        (None, None) => DEFAULT_CONCURRENCY,
    }
}

/// What the user asks for wins over what the system offers, and that over four.
pub proof fn law_user_decides_on_workers(asked: u32, offered: usize, available: Option<usize>)
    ensures
        asked <= usize::MAX ==> worker_count(Some(asked), available) == asked,
        worker_count(None, Some(offered)) == offered,
        worker_count(None, None) == 4,
{
}

/// Whether progress bars are drawn.
pub open spec fn draws_progress(no_progress: bool, quiet: bool) -> bool {
    !no_progress && !quiet
}

/// Either flag alone hides the progress bars, and nothing else does.
pub proof fn law_either_flag_hides_progress(flag: bool)
    ensures
        !draws_progress(true, flag),
        !draws_progress(flag, true),
        draws_progress(false, false),
{
}

/// The name of the least severe log level that is shown.
pub open spec fn level_name(quiet: bool, verbose: u8) -> Seq<char> {
    if quiet {
        "warn"@
    } else if verbose == 0 {
        "info"@
    } else if verbose == 1 {
        "debug"@
    } else {
        "trace"@
    }
}

/// Being quiet shows warnings and no more, however verbose the user asks to be besides. Each
/// step of verbosity shows one level more, and there are no more than two.
pub proof fn law_verbosity_adds_levels(verbose: u8)
    ensures
        level_name(true, verbose) == seq!['w', 'a', 'r', 'n'],
        level_name(false, 0) == seq!['i', 'n', 'f', 'o'],
        level_name(false, 1) == seq!['d', 'e', 'b', 'u', 'g'],
        verbose >= 2 ==> level_name(false, verbose) == seq!['t', 'r', 'a', 'c', 'e'],
{
    reveal_strlit("warn");
    reveal_strlit("info");
    reveal_strlit("debug");
    reveal_strlit("trace");
    assert("warn"@ =~= seq!['w', 'a', 'r', 'n']);
    assert("info"@ =~= seq!['i', 'n', 'f', 'o']);
    assert("debug"@ =~= seq!['d', 'e', 'b', 'u', 'g']);
    assert("trace"@ =~= seq!['t', 'r', 'a', 'c', 'e']);
}

/// How many idle connections are kept per host.
pub open spec fn idle_connections(concurrency: usize) -> usize {
    if concurrency > 32 {
        concurrency
    } else {
        32
    }
}

/// There is an idle connection for every file that is fetched at once, there are 32 in any
/// case, and no more than it takes.
pub proof fn law_connections_suffice(concurrency: usize)
    ensures
        idle_connections(concurrency) >= concurrency,
        idle_connections(concurrency) >= 32,
        idle_connections(concurrency) == concurrency || idle_connections(concurrency) == 32,
{
}

/// How many of a number of failures are spelled out.
pub open spec fn spelled_out(failures: usize) -> usize {
    if failures <= MAX_REPORTED_FAILURES {
        failures
    } else {
        MAX_REPORTED_FAILURES
    }
}

/// Up to ten failures are spelled out, and none is held back as long as there is room.
pub proof fn law_ten_failures_are_spelled_out(failures: usize)
    ensures
        spelled_out(failures) <= 10,
        spelled_out(failures) <= failures,
        spelled_out(failures) < failures ==> spelled_out(failures) == 10,
{
}

/// The line of a file in the printed plan.
pub open spec fn line_of(kind: ItemKind, url: Seq<char>) -> Seq<char> {
    text::padded(collector::label_of(kind), 8) + " "@ + url
}

/// Every line starts with the kind of the file, and has the whole URL from the tenth column
/// on.
pub proof fn law_urls_are_aligned(kind: ItemKind, url: Seq<char>)
    ensures
        line_of(kind, url).skip(9) == url,
        line_of(kind, url)[8] == ' ',
        text::starts_with(
            line_of(kind, url),
            match kind {
                ItemKind::Tileset => seq!['t', 'i', 'l', 'e', 's', 'e', 't', ' '],
                ItemKind::Subtree => seq!['s', 'u', 'b', 't', 'r', 'e', 'e', ' '],
                ItemKind::Buffer => seq!['b', 'u', 'f', 'f', 'e', 'r', ' ', ' '],
                ItemKind::Content => seq!['c', 'o', 'n', 't', 'e', 'n', 't', ' '],
            },
        ),
{
    reveal_strlit("tileset");
    reveal_strlit("subtree");
    reveal_strlit("buffer");
    reveal_strlit("content");
    reveal_strlit(" ");
    let label = collector::label_of(kind);
    let column = text::padded(label, 8);
    text::law_padding_fills_up(label, 8);
    let line = line_of(kind, url);
    assert(column.len() == 8);
    assert forall|i: int| 0 <= i < label.len() implies #[trigger] column[i] == label[i] by {
        assert(column.take(label.len() as int)[i] == column[i]);
    }
    assert(line.skip(9) =~= url);
    assert(line.take(8) =~= column);
    let start = match kind {
        ItemKind::Tileset => seq!['t', 'i', 'l', 'e', 's', 'e', 't', ' '],
        ItemKind::Subtree => seq!['s', 'u', 'b', 't', 'r', 'e', 'e', ' '],
        ItemKind::Buffer => seq!['b', 'u', 'f', 'f', 'e', 'r', ' ', ' '],
        ItemKind::Content => seq!['c', 'o', 'n', 't', 'e', 'n', 't', ' '],
    };
    assert(column =~= start);
}

impl Cli {
    /// Effective number of parallel downloads: what the user asked for, or else as
    /// many as the system can run at once, where it tells.
    pub fn concurrency(&self, available: Option<usize>) -> (count: usize)
        ensures
            count == (match (self.concurrency, available) {
                (Some(value), _) => value as usize,
                (None, Some(count)) => count,
                (None, None) => DEFAULT_CONCURRENCY,
            }),
            count == worker_count(self.concurrency, available),
    {
        match self.concurrency {
            Some(value) => value as usize,
            None => match available {
                Some(count) => count,
                None => DEFAULT_CONCURRENCY,
            },
        }
    }

    /// Whether progress bars should be drawn at all.
    pub fn progress_enabled(&self) -> (enabled: bool)
        ensures
            enabled == (!self.no_progress && !self.quiet),
            enabled == draws_progress(self.no_progress, self.quiet),
    {
        !self.no_progress && !self.quiet
    }

    /// The least severe log level that is shown, unless the environment says
    /// otherwise.
    pub fn log_level(&self) -> (level: &'static str)
        ensures
            level@ == (if self.quiet {
                "warn"@
            } else if self.verbose == 0 {
                "info"@
            } else if self.verbose == 1 {
                "debug"@
            } else {
                "trace"@
            }),
            level@ == level_name(self.quiet, self.verbose),
    {
        if self.quiet {
            "warn"
        } else if self.verbose == 0 {
            "info"
        } else if self.verbose == 1 {
            "debug"
        } else {
            "trace"
        }
    }

    /// The configuration of the HTTP client. As many idle connections are kept as
    /// files are fetched at once, and never fewer than by default.
    pub fn client_config(&self, concurrency: usize) -> (config: ClientConfig)
        ensures
            config.user_agent@ == (match self.user_agent {
                Some(agent) => agent@,
                None => net::DEFAULT_USER_AGENT@,
            }),
            config.timeout == net::whole_seconds(self.timeout),
            config.connect_timeout == net::whole_seconds(self.connect_timeout),
            config.retries == self.retries,
            text::texts(config.headers@) == text::texts(self.headers@),
            config.max_idle_connections_per_host == (if concurrency > 32 {
                concurrency
            } else {
                32
            }),
            config.max_idle_connections_per_host == idle_connections(concurrency),
    {
        let defaults = ClientConfig::default();
        ClientConfig {
            user_agent: match &self.user_agent {
                Some(agent) => agent.clone(),
                None => defaults.user_agent,
            },
            timeout: Duration::from_secs(self.timeout),
            connect_timeout: Duration::from_secs(self.connect_timeout),
            retries: self.retries,
            headers: text::duplicate_texts(&self.headers),
            max_idle_connections_per_host: if concurrency
                > defaults.max_idle_connections_per_host {
                concurrency
            } else {
                defaults.max_idle_connections_per_host
            },
        }
    }
}

/// How many of a number of failures are spelled out, and how many are only counted.
pub fn reported_failures(failures: usize) -> (counts: (usize, usize))
    ensures
        counts.0 == (if failures <= MAX_REPORTED_FAILURES {
            failures
        } else {
            MAX_REPORTED_FAILURES
        }),
        counts.0 == spelled_out(failures),
        counts.0 + counts.1 == failures,
{
    if failures <= MAX_REPORTED_FAILURES {
        (failures, 0)
    } else {
        (MAX_REPORTED_FAILURES, failures - MAX_REPORTED_FAILURES)
    }
}

/// The line of one file in the printed plan: what it is, in a column of eight
/// characters, and where it comes from.
pub fn plan_line(item: &DownloadItem) -> (line: String)
    ensures
        line@ == text::padded(collector::label_of(item@.kind), 8) + " "@ + item@.url.text,
        line@ == line_of(item@.kind, item@.url.text),
{
    let mut line = text::pad_text(item.kind.label(), 8);
    line.append(" ");
    line.append(item.url.as_str());
    line
}

} // verus!
