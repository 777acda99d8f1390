//! Fetching a page as markdown with the Obscura engine.
//!
//! The engine is a command. The library says which URL is asked for, with
//! which arguments, and what the outcome of the command means; the caller
//! runs it and kills it at the time limit.

use vstd::prelude::*;
use crate::foreign::{parse_url, path_of, shown_duration, text_of_bytes};
use crate::text::{chars_of, contains_text, matches_at, same_text, string_of, trimmed};
use crate::time::Duration;
#[allow(unused_imports)]
use crate::foreign::{duration_text, lowercase, parsed_url, path_from, utf8_lossy};
#[allow(unused_imports)]
use crate::text::{has_text, lemma_has_middle, lemma_has_more, occurs_at, trim, views};
#[allow(unused_imports)]
use crate::time::seconds;

verus! {

/// The longest excerpt of the engine's messages, in characters.
pub const TAIL_CHARS: usize = 500;

/// A handle to the engine.
#[derive(Debug)]
pub struct Obscura {
    /// The command that is run: a name on the search path, or a path.
    pub binary: std::path::PathBuf,
    /// Time limit of one fetch.
    pub timeout: Duration,
}

impl Obscura {
    /// A handle to the engine behind this command.
    pub fn new(binary: std::path::PathBuf, timeout: Duration) -> (r: Obscura)
        ensures
            r.binary == binary,
            r.timeout == timeout,
    {
        Obscura { binary, timeout }
    }
}

impl Clone for Obscura {
    fn clone(&self) -> (r: Self)
        ensures
            r == *self,
    {
        Obscura { binary: self.binary.clone(), timeout: self.timeout }
    }
}

impl Default for Obscura {
    /// `obscura` on the search path, with 60 seconds for a fetch.
    fn default() -> (r: Self)
        ensures
            r.binary == path_from("obscura"@),
            r.timeout@ == seconds(60),
    {
        Obscura { binary: path_of("obscura"), timeout: Duration::from_secs(60) }
    }
}

/// A page as markdown, with the normalized URL that it was fetched from.
#[derive(Debug, Clone, PartialEq, Eq)]
pub struct FetchedMarkdown {
    pub url: String,
    pub markdown: String,
}

/// What a fetched page says.
#[verifier::ext_equal]
pub struct MarkdownView {
    pub url: Seq<char>,
    pub markdown: Seq<char>,
}

impl View for FetchedMarkdown {
    type V = MarkdownView;

    open spec fn view(&self) -> MarkdownView {
        MarkdownView { url: self.url@, markdown: self.markdown@ }
    }
}

/// Why a page could not be fetched.
#[derive(Debug, Clone, PartialEq, Eq)]
pub enum FetchError {
    /// The input is no absolute http(s) URL, and no command was run; `input`
    /// is what the caller gave.
    InvalidUrl { input: String },
    /// The command succeeded and wrote nothing but white space.
    EmptyBody { url: String },
    /// The page denied access; `reason` is the end of the command's messages.
    Blocked { url: String, reason: String },
    /// The command was killed at the time limit.
    Timeout { url: String, after: Duration },
    /// The command could not be run, or failed.
    CommandFailed { url: String, detail: String },
}

/// What the failure of a fetch says.
#[verifier::ext_equal]
pub enum FetchFailure {
    InvalidUrl { input: Seq<char> },
    EmptyBody { url: Seq<char> },
    Blocked { url: Seq<char>, reason: Seq<char> },
    Timeout { url: Seq<char>, after: nat },
    CommandFailed { url: Seq<char>, detail: Seq<char> },
}

impl View for FetchError {
    type V = FetchFailure;

    open spec fn view(&self) -> FetchFailure {
        match *self {
            FetchError::InvalidUrl { input } => FetchFailure::InvalidUrl { input: input@ },
            FetchError::EmptyBody { url } => FetchFailure::EmptyBody { url: url@ },
            FetchError::Blocked { url, reason } => FetchFailure::Blocked {
                url: url@,
                reason: reason@,
            },
            FetchError::Timeout { url, after } => FetchFailure::Timeout { url: url@, after: after@ },
            FetchError::CommandFailed { url, detail } => FetchFailure::CommandFailed {
                url: url@,
                detail: detail@,
            },
        }
    }
}

impl FetchFailure {
    /// The failure in words.
    pub open spec fn message(self) -> Seq<char> {
        match self {
            FetchFailure::InvalidUrl { input } => "invalid url: "@ + input
                + " (expected absolute http(s) URL)"@,
            FetchFailure::EmptyBody { url } => "empty body: "@ + url + " returned no markdown"@,
            FetchFailure::Blocked { url, reason } => "blocked: "@ + url + ": "@ + reason,
            FetchFailure::Timeout { url, after } => "timeout: "@ + url + " after "@ + duration_text(
                (after / 1_000_000_000) as u64,
                (after % 1_000_000_000) as u32,
            ),
            FetchFailure::CommandFailed { url, detail } => "command failed: "@ + url + ": "@
                + detail,
        }
    }
}

/// Four texts, one after the other.
fn phrase(a: &str, b: &str, c: &str, d: &str) -> (r: String)
    ensures
        r@ == a@ + b@ + c@ + d@,
{
    let mut out = a.to_owned();
    out.append(b);
    out.append(c);
    out.append(d);
    out
}

impl FetchError {
    /// The failure in words.
    pub fn to_string(&self) -> (r: String)
        ensures
            r@ == self@.message(),
    {
        proof {
            reveal_strlit("");
        }
        match self {
            FetchError::InvalidUrl { input } => phrase(
                "invalid url: ",
                input.as_str(),
                " (expected absolute http(s) URL)",
                "",
            ),
            FetchError::EmptyBody { url } => phrase(
                "empty body: ",
                url.as_str(),
                " returned no markdown",
                "",
            ),
            FetchError::Blocked { url, reason } => phrase(
                "blocked: ",
                url.as_str(),
                ": ",
                reason.as_str(),
            ),
            FetchError::Timeout { url, after } => {
                let shown = shown_duration(after.as_secs(), after.subsec_nanos());
                phrase("timeout: ", url.as_str(), " after ", shown.as_str())
            },
            FetchError::CommandFailed { url, detail } => phrase(
                "command failed: ",
                url.as_str(),
                ": ",
                detail.as_str(),
            ),
        }
    }
}

/// The normal form of an absolute http(s) URL.
pub open spec fn normalized(raw: Seq<char>) -> Option<Seq<char>> {
    match parsed_url(raw) {
        Some(url) => if url.scheme == "http"@ || url.scheme == "https"@ {
            Some(url.serialized)
        } else {
            None
        },
        None => None,
    }
}

/// The normal form of an absolute http(s) URL; anything else is invalid.
pub fn normalize_url(raw_url: &str) -> (r: Result<String, FetchError>)
    ensures
        match r {
            Ok(url) => normalized(raw_url@) == Some(url@),
            Err(e) => normalized(raw_url@) is None && e@ == (FetchFailure::InvalidUrl {
                input: raw_url@,
            }),
        },
{
    match parse_url(raw_url) {
        Some(url) if same_text(url.scheme.as_str(), "http") || same_text(
            url.scheme.as_str(),
            "https",
        ) => Ok(url.serialized),
        _ => Err(FetchError::InvalidUrl { input: raw_url.to_owned() }),
    }
}

/// The arguments of the command that fetches a normalized URL.
pub open spec fn fetch_arguments(url: Seq<char>) -> Seq<Seq<char>> {
    seq!["fetch"@, url, "--dump"@, "markdown"@, "--quiet"@]
}

/// The arguments of the command that fetches a normalized URL.
pub fn command_arguments(url: &str) -> (r: Vec<String>)
    ensures
        views(r@) == fetch_arguments(url@),
{
    let r = vec![
        "fetch".to_owned(),
        url.to_owned(),
        "--dump".to_owned(),
        "markdown".to_owned(),
        "--quiet".to_owned(),
    ];
    assert(views(r@) =~= fetch_arguments(url@));
    r
}

/// How the run of the command ended.
#[derive(Debug)]
pub enum CommandRun {
    /// It could not be started, or its output could not be read.
    Broken { reason: String },
    /// It was killed at the time limit.
    TimedOut,
    /// It ended by itself. `status` is the exit status in words.
    Exited { success: bool, status: String, stdout: Vec<u8>, stderr: Vec<u8> },
}

/// A kind of character that may not stand beside a marker.
#[derive(Debug, Clone, Copy, PartialEq, Eq, Structural)]
pub enum Neighbor {
    Digit,
    Letter,
}

/// Whether an ASCII character is of the kind.
pub open spec fn is_neighbor(kind: Neighbor, c: char) -> bool {
    match kind {
        Neighbor::Digit => '0' <= c <= '9',
        Neighbor::Letter => 'a' <= c <= 'z' || 'A' <= c <= 'Z',
    }
}

/// Whether `needle` stands in `s` at position `i` with no neighbor of the
/// kind on either side.
pub open spec fn stands_alone_at(s: Seq<char>, needle: Seq<char>, kind: Neighbor, i: int) -> bool {
    &&& occurs_at(s, needle, i)
    &&& i == 0 || !is_neighbor(kind, s[i - 1])
    &&& i + needle.len() == s.len() || !is_neighbor(kind, s[i + needle.len()])
}

/// Whether `needle` stands anywhere in `s` with no neighbor of the kind.
pub open spec fn stands_alone(s: Seq<char>, needle: Seq<char>, kind: Neighbor) -> bool {
    needle.len() > 0 && exists|i: int| #[trigger] stands_alone_at(s, needle, kind, i)
}

/// Whether the messages, in lower case, say that access was denied.
pub open spec fn tells_blocked(lowered: Seq<char>) -> bool {
    ||| has_text(lowered, "forbidden"@)
    ||| has_text(lowered, "access denied"@)
    ||| has_text(lowered, "blocked"@)
    ||| has_text(lowered, "captcha"@)
    ||| has_text(lowered, "rate limit"@)
    ||| has_text(lowered, "rate-limited"@)
    ||| has_text(lowered, "too many requests"@)
    ||| stands_alone(lowered, "403"@, Neighbor::Digit)
    ||| stands_alone(lowered, "bot"@, Neighbor::Letter)
}

/// Whether `needle` stands anywhere in `haystack` with no neighbor of the
/// kind on either side.
pub fn contains_guarded(haystack: &str, needle: &str, kind: Neighbor) -> (r: bool)
    ensures
        r == stands_alone(haystack@, needle@, kind),
{
    let hay = chars_of(haystack);
    let ndl = chars_of(needle);
    if ndl.len() == 0 || hay.len() < ndl.len() {
        return false;
    }
    let last: usize = hay.len() - ndl.len();
    let mut i: usize = 0;
    while i < last
        invariant
            hay@ == haystack@,
            ndl@ == needle@,
            0 < ndl@.len(),
            last + ndl@.len() == hay@.len(),
            i <= last,
            forall|j: int| 0 <= j < i ==> !#[trigger] stands_alone_at(hay@, ndl@, kind, j),
        decreases last - i,
    {
        if is_alone_at(hay.as_slice(), ndl.as_slice(), kind, i) {
            return true;
        }
        i += 1;
    }
    is_alone_at(hay.as_slice(), ndl.as_slice(), kind, i)
}

/// Whether `needle` stands in `hay` at position `i` with no neighbor of the
/// kind on either side.
fn is_alone_at(hay: &[char], needle: &[char], kind: Neighbor, i: usize) -> (r: bool)
    ensures
        r == stands_alone_at(hay@, needle@, kind, i as int),
{
    if !matches_at(hay, needle, i) {
        return false;
    }
    let n: usize = hay.len();
    let end: usize = i + needle.len();
    (i == 0 || !is_beside(kind, hay[i - 1])) && (end == n || !is_beside(kind, hay[end]))
}

/// Whether the character is of the kind.
fn is_beside(kind: Neighbor, c: char) -> (r: bool)
    ensures
        r == is_neighbor(kind, c),
{
    match kind {
        Neighbor::Digit => '0' <= c && c <= '9',
        Neighbor::Letter => 'a' <= c && c <= 'z' || 'A' <= c && c <= 'Z',
    }
}

/// Whether messages in lower case say that access was denied. `403` counts
/// only outside a longer number, and `bot` only outside a longer word.
pub fn is_blocked_lowered(lowered: &str) -> (r: bool)
    ensures
        r == tells_blocked(lowered@),
{
    contains_text(lowered, "forbidden") || contains_text(lowered, "access denied") || contains_text(
        lowered,
        "blocked",
    ) || contains_text(lowered, "captcha") || contains_text(lowered, "rate limit") || contains_text(
        lowered,
        "rate-limited",
    ) || contains_text(lowered, "too many requests") || contains_guarded(
        lowered,
        "403",
        Neighbor::Digit,
    ) || contains_guarded(lowered, "bot", Neighbor::Letter)
}

/// Whether the messages say, in any case, that access was denied.
pub fn is_blocked(stderr: &str) -> (r: bool)
    ensures
        r == tells_blocked(lowercase(stderr@)),
{
    let lowered = stderr.to_lowercase();
    is_blocked_lowered(lowered.as_str())
}

/// The end of a text without the white space around it.
pub open spec fn tail_of(s: Seq<char>) -> Seq<char> {
    let t = trim(s);
    if t.len() <= TAIL_CHARS {
        t
    } else {
        t.skip(t.len() - TAIL_CHARS)
    }
}

/// The end of a text without the white space around it, at most 500
/// characters.
pub fn tail(stderr: &str) -> (r: String)
    ensures
        r@ == tail_of(stderr@),
        r@.len() <= TAIL_CHARS,
        r@.is_suffix_of(trim(stderr@)),
{
    let text = trimmed(stderr);
    let chars = chars_of(text.as_str());
    if chars.len() <= TAIL_CHARS {
        return text;
    }
    let r = string_of(chars.as_slice(), chars.len() - TAIL_CHARS, chars.len());
    assert(r@ =~= text@.skip(text@.len() - TAIL_CHARS));
    r
}

/// What the output of a command that ended by itself means, in texts.
/// `lowered` is the messages in lower case.
pub open spec fn outcome(
    url: Seq<char>,
    success: bool,
    status: Seq<char>,
    stdout: Seq<char>,
    stderr: Seq<char>,
    lowered: Seq<char>,
) -> Result<MarkdownView, FetchFailure> {
    if tells_blocked(lowered) {
        Err(FetchFailure::Blocked { url, reason: tail_of(stderr) })
    } else if !success {
        Err(
            FetchFailure::CommandFailed {
                url,
                detail: "exit "@ + status + ": "@ + tail_of(stderr),
            },
        )
    } else if trim(stdout).len() == 0 {
        Err(FetchFailure::EmptyBody { url })
    } else {
        Ok(MarkdownView { url, markdown: trim(stdout) })
    }
}

/// The result of a fetch as plain values.
pub open spec fn fetched_view(r: Result<FetchedMarkdown, FetchError>) -> Result<
    MarkdownView,
    FetchFailure,
> {
    match r {
        Ok(page) => Ok(page@),
        Err(e) => Err(e@),
    }
}

/// Reads the output of a command that ended by itself. A denial counts
/// whatever the exit status.
pub fn read_output(
    url: String,
    success: bool,
    status: &str,
    stdout: &str,
    stderr: &str,
    lowered: &str,
) -> (r: Result<FetchedMarkdown, FetchError>)
    ensures
        fetched_view(r) == outcome(url@, success, status@, stdout@, stderr@, lowered@),
{
    let stderr_tail = tail(stderr);
    if is_blocked_lowered(lowered) {
        return Err(FetchError::Blocked { url, reason: stderr_tail });
    }
    if !success {
        return Err(
            FetchError::CommandFailed {
                url,
                detail: phrase("exit ", status, ": ", stderr_tail.as_str()),
            },
        );
    }
    let markdown = trimmed(stdout);
    if markdown.as_str().is_empty() {
        return Err(FetchError::EmptyBody { url });
    }
    Ok(FetchedMarkdown { url, markdown })
}

/// What the run of a command means.
pub open spec fn run_outcome(timeout: nat, url: Seq<char>, run: CommandRun) -> Result<
    MarkdownView,
    FetchFailure,
> {
    match run {
        CommandRun::Broken { reason } => Err(FetchFailure::CommandFailed { url, detail: reason@ }),
        CommandRun::TimedOut => Err(FetchFailure::Timeout { url, after: timeout }),
        CommandRun::Exited { success, status, stdout, stderr } => outcome(
            url,
            success,
            status@,
            utf8_lossy(stdout@),
            utf8_lossy(stderr@),
            lowercase(utf8_lossy(stderr@)),
        ),
    }
}

impl Obscura {
    /// Reads how the command for a normalized URL ended.
    pub fn conclude(&self, url: String, run: &CommandRun) -> (r: Result<
        FetchedMarkdown,
        FetchError,
    >)
        ensures
            fetched_view(r) == run_outcome(self.timeout@, url@, *run),
    {
        match run {
            CommandRun::Broken { reason } => Err(
                FetchError::CommandFailed { url, detail: reason.clone() },
            ),
            CommandRun::TimedOut => Err(FetchError::Timeout { url, after: self.timeout }),
            CommandRun::Exited { success, status, stdout, stderr } => {
                let stdout = text_of_bytes(stdout.as_slice());
                let stderr = text_of_bytes(stderr.as_slice());
                let lowered = stderr.as_str().to_lowercase();
                read_output(
                    url,
                    *success,
                    status.as_str(),
                    stdout.as_str(),
                    stderr.as_str(),
                    lowered.as_str(),
                )
            },
        }
    }
}

/// A fetch succeeds exactly where the command succeeded, wrote something and
/// did not say that access was denied; a page is never blank, and its
/// markdown is what the command wrote, without the white space around it.
pub proof fn law_only_clean_output_is_a_page(
    url: Seq<char>,
    success: bool,
    status: Seq<char>,
    stdout: Seq<char>,
    stderr: Seq<char>,
    lowered: Seq<char>,
)
    ensures
        outcome(url, success, status, stdout, stderr, lowered) is Ok <==> (success && trim(
            stdout,
        ).len() > 0 && !tells_blocked(lowered)),
        outcome(url, success, status, stdout, stderr, lowered) matches Ok(page) ==> page.url == url
            && page.markdown == trim(stdout) && trim(page.markdown) == page.markdown,
        outcome(url, success, status, stdout, stderr, lowered) matches Err(
            FetchFailure::Blocked { reason, .. },
        ) ==> reason.len() <= TAIL_CHARS,
{
    crate::text::lemma_trim_idempotent(stdout);
}

/// A message that tells of a denial is recognised wherever it stands: the
/// words in any surroundings, the status and the short word where they are no
/// part of a longer number or word. A message without letters and without the
/// digit that the status starts with tells of none.
pub proof fn law_denials_are_recognised(before: Seq<char>, after: Seq<char>)
    ensures
        tells_blocked(before + "forbidden"@ + after),
        tells_blocked(before + "access denied"@ + after),
        tells_blocked(before + "blocked"@ + after),
        tells_blocked(before + "captcha"@ + after),
        tells_blocked(before + "rate limit"@ + after),
        tells_blocked(before + "rate-limited"@ + after),
        tells_blocked(before + "too many requests"@ + after),
        (before.len() == 0 || !('0' <= before.last() <= '9')) && (after.len() == 0 || !('0'
            <= after[0] <= '9')) ==> tells_blocked(before + "403"@ + after),
        (before.len() == 0 || !('a' <= before.last() <= 'z' || 'A' <= before.last() <= 'Z')) && (
        after.len() == 0 || !('a' <= after[0] <= 'z' || 'A' <= after[0] <= 'Z')) ==> tells_blocked(
            before + "bot"@ + after,
        ),
        (forall|i: int|
            0 <= i < before.len() ==> !('a' <= #[trigger] before[i] <= 'z') && before[i] != '4')
            ==> !tells_blocked(before),
{
    lemma_has_middle(before, "forbidden"@, after);
    lemma_has_middle(before, "access denied"@, after);
    lemma_has_middle(before, "blocked"@, after);
    lemma_has_middle(before, "captcha"@, after);
    lemma_has_middle(before, "rate limit"@, after);
    lemma_has_middle(before, "rate-limited"@, after);
    lemma_has_middle(before, "too many requests"@, after);
    reveal_strlit("403");
    reveal_strlit("bot");
    lemma_stands_alone(before, "403"@, after, Neighbor::Digit);
    lemma_stands_alone(before, "bot"@, after, Neighbor::Letter);
    if forall|i: int|
        0 <= i < before.len() ==> !('a' <= #[trigger] before[i] <= 'z') && before[i] != '4' {
        reveal_strlit("forbidden");
        reveal_strlit("access denied");
        reveal_strlit("blocked");
        reveal_strlit("captcha");
        reveal_strlit("rate limit");
        reveal_strlit("rate-limited");
        reveal_strlit("too many requests");
        lemma_no_such_text(before, "forbidden"@);
        lemma_no_such_text(before, "access denied"@);
        lemma_no_such_text(before, "blocked"@);
        lemma_no_such_text(before, "captcha"@);
        lemma_no_such_text(before, "rate limit"@);
        lemma_no_such_text(before, "rate-limited"@);
        lemma_no_such_text(before, "too many requests"@);
        lemma_no_such_text(before, "403"@);
        lemma_no_such_text(before, "bot"@);
    }
}

proof fn lemma_stands_alone(
    before: Seq<char>,
    needle: Seq<char>,
    after: Seq<char>,
    kind: Neighbor,
)
    requires
        needle.len() > 0,
    ensures
        (before.len() == 0 || !is_neighbor(kind, before.last())) && (after.len() == 0
            || !is_neighbor(kind, after[0])) ==> stands_alone(before + needle + after, needle, kind),
{
    let s = before + needle + after;
    let at = before.len() as int;
    assert(s.subrange(at, at + needle.len()) =~= needle);
    if (before.len() == 0 || !is_neighbor(kind, before.last())) && (after.len() == 0
        || !is_neighbor(kind, after[0])) {
        assert(stands_alone_at(s, needle, kind, at));
    }
}

proof fn lemma_no_such_text(s: Seq<char>, needle: Seq<char>)
    requires
        needle.len() > 0,
        forall|i: int| 0 <= i < s.len() ==> #[trigger] s[i] != needle[0],
    ensures
        !has_text(s, needle),
        forall|i: int| !occurs_at(s, needle, i),
{
    assert forall|i: int| !occurs_at(s, needle, i) by {
        if occurs_at(s, needle, i) {
            assert(s[i] == s.subrange(i, i + needle.len())[0]);
        }
    }
}

/// What the engine said last is kept: a denial comes before any other failure
/// and has the end of the message for its reason, and a command that failed
/// has its status and that end. The end is the whole message up to five
/// hundred characters, and never more than that.
pub proof fn law_the_end_of_the_message_is_kept(
    url: Seq<char>,
    success: bool,
    status: Seq<char>,
    stdout: Seq<char>,
    stderr: Seq<char>,
    lowered: Seq<char>,
)
    ensures
        tail_of(stderr).is_suffix_of(trim(stderr)),
        trim(stderr).len() <= 500 ==> tail_of(stderr) == trim(stderr),
        trim(stderr).len() > 500 ==> tail_of(stderr).len() == 500,
        tells_blocked(lowered) ==> outcome(url, success, status, stdout, stderr, lowered) == Err::<
            MarkdownView,
            FetchFailure,
        >(FetchFailure::Blocked { url, reason: tail_of(stderr) }),
        !tells_blocked(lowered) && !success ==> (outcome(
            url,
            success,
            status,
            stdout,
            stderr,
            lowered,
        ) matches Err(FetchFailure::CommandFailed { url: told, detail }) && told == url
            && has_text(detail, status) && tail_of(stderr).is_suffix_of(detail)),
        !tells_blocked(lowered) && success && trim(stdout).len() == 0 ==> outcome(
            url,
            success,
            status,
            stdout,
            stderr,
            lowered,
        ) == Err::<MarkdownView, FetchFailure>(FetchFailure::EmptyBody { url }),
{
    let end = tail_of(stderr);
    let detail = "exit "@ + status + ": "@ + end;
    assert(trim(stderr).skip(trim(stderr).len() - end.len()) =~= end);
    assert(detail.skip(detail.len() - end.len()) =~= end);
    lemma_has_middle("exit "@, status, ": "@);
    lemma_has_more("exit "@ + status + ": "@, end, status);
}

/// A command that could not be run, or that was stopped at the time limit,
/// failed for that reason and with that limit; the messages of one that ended
/// are read from its bytes.
pub proof fn law_runs_end_as_they_did(timeout: nat, url: Seq<char>, run: CommandRun)
    ensures
        match run {
            CommandRun::Broken { reason } => run_outcome(timeout, url, run) == Err::<
                MarkdownView,
                FetchFailure,
            >(FetchFailure::CommandFailed { url, detail: reason@ }),
            CommandRun::TimedOut => run_outcome(timeout, url, run) == Err::<
                MarkdownView,
                FetchFailure,
            >(FetchFailure::Timeout { url, after: timeout }),
            CommandRun::Exited { success, stdout, stderr, .. } => {
                &&& run_outcome(timeout, url, run) is Ok <==> success && trim(
                    utf8_lossy(stdout@),
                ).len() > 0 && !tells_blocked(lowercase(utf8_lossy(stderr@)))
                &&& run_outcome(timeout, url, run) matches Ok(page) ==> page.url == url
                    && page.markdown == trim(utf8_lossy(stdout@))
                &&& run_outcome(timeout, url, run) matches Err(FetchFailure::Blocked { reason, .. })
                    ==> tells_blocked(lowercase(utf8_lossy(stderr@))) && reason.is_suffix_of(
                    trim(utf8_lossy(stderr@)),
                )
            },
        },
{
    if let CommandRun::Exited { success, status, stdout, stderr } = run {
        law_the_end_of_the_message_is_kept(
            url,
            success,
            status@,
            utf8_lossy(stdout@),
            utf8_lossy(stderr@),
            lowercase(utf8_lossy(stderr@)),
        );
    }
}

/// Only pages of the web are fetched: a text is an address exactly where it is
/// a URL of one of the two schemes, and the address is that URL written out.
pub proof fn law_only_the_web_is_fetched(raw: Seq<char>, address: Seq<char>)
    ensures
        normalized(raw) == Some(address) <==> (parsed_url(raw) matches Some(url)
            && url.serialized == address && (url.scheme == "http"@ || url.scheme == "https"@)),
{
}

/// The command is asked for the page at the URL, as markdown and quietly.
pub proof fn law_the_command_is_asked_for_the_page(url: Seq<char>)
    ensures
        fetch_arguments(url).len() == 5,
        fetch_arguments(url)[0] == "fetch"@,
        fetch_arguments(url)[1] == url,
        fetch_arguments(url)[2] == "--dump"@,
        fetch_arguments(url)[3] == "markdown"@,
        fetch_arguments(url)[4] == "--quiet"@,
{
}

/// A failure names the URL, and the reason, the detail or the time after it.
pub proof fn law_failures_name_the_page(failure: FetchFailure)
    ensures
        match failure {
            FetchFailure::InvalidUrl { input } => has_text(failure.message(), input),
            FetchFailure::EmptyBody { url } => has_text(failure.message(), url),
            FetchFailure::Blocked { url, reason } => has_text(failure.message(), url)
                && reason.is_suffix_of(failure.message()),
            FetchFailure::CommandFailed { url, detail } => has_text(failure.message(), url)
                && detail.is_suffix_of(failure.message()),
            FetchFailure::Timeout { url, after } => has_text(failure.message(), url)
                && duration_text(
                (after / 1_000_000_000) as u64,
                (after % 1_000_000_000) as u32,
            ).is_suffix_of(failure.message()),
        },
{
    let m = failure.message();
    match failure {
        FetchFailure::InvalidUrl { input } => {
            lemma_has_middle("invalid url: "@, input, " (expected absolute http(s) URL)"@);
        },
        FetchFailure::EmptyBody { url } => {
            lemma_has_middle("empty body: "@, url, " returned no markdown"@);
        },
        FetchFailure::Blocked { url, reason } => {
            lemma_has_middle("blocked: "@, url, ": "@);
            lemma_has_more("blocked: "@ + url + ": "@, reason, url);
            assert(m.skip(m.len() - reason.len()) =~= reason);
        },
        FetchFailure::CommandFailed { url, detail } => {
            lemma_has_middle("command failed: "@, url, ": "@);
            lemma_has_more("command failed: "@ + url + ": "@, detail, url);
            assert(m.skip(m.len() - detail.len()) =~= detail);
        },
        FetchFailure::Timeout { url, after } => {
            let time = duration_text(
                (after / 1_000_000_000) as u64,
                (after % 1_000_000_000) as u32,
            );
            lemma_has_middle("timeout: "@, url, " after "@);
            lemma_has_more("timeout: "@ + url + " after "@, time, url);
            assert(m.skip(m.len() - time.len()) =~= time);
        },
    }
}

/// A number or a word that is part of a longer one tells of no denial: a
/// message of digits alone, or of letters alone, holds neither the status nor
/// the short word unless it is that and nothing else.
pub proof fn law_parts_of_longer_ones_tell_nothing(s: Seq<char>)
    ensures
        s.len() != 3 && (forall|i: int| 0 <= i < s.len() ==> '0' <= #[trigger] s[i] <= '9')
            ==> !tells_blocked(s),
        s.len() != 3 && (forall|i: int|
            0 <= i < s.len() ==> ('a' <= #[trigger] s[i] <= 'z' || 'A' <= s[i] <= 'Z'))
            ==> !stands_alone(s, "bot"@, Neighbor::Letter),
{
    reveal_strlit("403");
    reveal_strlit("bot");
    if s.len() != 3 && (forall|i: int| 0 <= i < s.len() ==> '0' <= #[trigger] s[i] <= '9') {
        lemma_not_alone(s, "403"@, Neighbor::Digit);
        lemma_markers_begin_with_letters();
        lemma_no_such_text(s, "forbidden"@);
        lemma_no_such_text(s, "access denied"@);
        lemma_no_such_text(s, "blocked"@);
        lemma_no_such_text(s, "captcha"@);
        lemma_no_such_text(s, "rate limit"@);
        lemma_no_such_text(s, "rate-limited"@);
        lemma_no_such_text(s, "too many requests"@);
        lemma_no_such_text(s, "bot"@);
    }
    if s.len() != 3 && (forall|i: int|
        0 <= i < s.len() ==> ('a' <= #[trigger] s[i] <= 'z' || 'A' <= s[i] <= 'Z')) {
        lemma_not_alone(s, "bot"@, Neighbor::Letter);
    }
}

proof fn lemma_not_alone(s: Seq<char>, needle: Seq<char>, kind: Neighbor)
    requires
        s.len() != needle.len(),
        forall|i: int| 0 <= i < s.len() ==> is_neighbor(kind, #[trigger] s[i]),
    ensures
        !stands_alone(s, needle, kind),
{
    assert forall|i: int| !(#[trigger] stands_alone_at(s, needle, kind, i)) by {
        if stands_alone_at(s, needle, kind, i) {
            if i > 0 {
                assert(is_neighbor(kind, s[i - 1]));
            } else {
                assert(is_neighbor(kind, s[i + needle.len()]));
            }
        }
    }
}

proof fn lemma_markers_begin_with_letters()
    ensures
        "forbidden"@.len() > 0 && "forbidden"@[0] == 'f',
        "access denied"@.len() > 0 && "access denied"@[0] == 'a',
        "blocked"@.len() > 0 && "blocked"@[0] == 'b',
        "captcha"@.len() > 0 && "captcha"@[0] == 'c',
        "rate limit"@.len() > 0 && "rate limit"@[0] == 'r',
        "rate-limited"@.len() > 0 && "rate-limited"@[0] == 'r',
        "too many requests"@.len() > 0 && "too many requests"@[0] == 't',
{
    reveal_strlit("forbidden");
    reveal_strlit("access denied");
    reveal_strlit("blocked");
    reveal_strlit("captcha");
    reveal_strlit("rate limit");
    reveal_strlit("rate-limited");
    reveal_strlit("too many requests");
}

} // verus!
