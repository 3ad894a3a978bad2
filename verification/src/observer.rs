//! Observation mode: observations (typed text, files, clipboard, command
//! output) are collected in a buffer and learned from in batches, and a
//! short history of them is kept.

use vstd::prelude::*;
use vstd::string::*;
use crate::inference::first_index;
use crate::text::{
    all_whitespace, byte_len, capped_len, chars_of, decimal, is_blank, str_eq, str_utf8_len_at_least,
    string_of_range, to_string, u64_to_decimal, utf8_len,
};

verus! {

/// Buffered text (in bytes) that triggers a learning batch.
pub const BATCH_SIZE: usize = 500;

/// How often the clipboard is polled, in milliseconds.
pub const CLIPBOARD_POLL_INTERVAL_MS: u64 = 1500;

/// How many interactions the history keeps.
pub const MAX_HISTORY_SIZE: usize = 100;

/// Whether `s` is the decimal text of some `u64`.
pub open spec fn is_decimal_text(s: Seq<char>) -> bool {
    exists|t: u64| decimal(t as nat) == s
}

/// The current time as decimal seconds since the Unix epoch ("0" when the
/// clock is set before the epoch).
pub fn chrono_timestamp() -> (r: String)
    ensures
        is_decimal_text(r@),
{
    let t: u64 = match crate::brain::clock_secs() {
        Some(s) => s,
        None => 0,
    };
    let r = u64_to_decimal(t);
    assert(decimal(t as nat) == r@);
    r
}

/// The text a buffer records for one observation.
pub open spec fn observation_text(timestamp: Seq<char>, source: Seq<char>, content: Seq<char>) -> Seq<char> {
    "["@ + timestamp + " - "@ + source + "] "@ + content + "\n"@
}

/// Observations collected for batch learning.
pub struct ObservationBuffer {
    content: String,
    total_observations: u64,
}

impl ObservationBuffer {
    /// The buffered text.
    pub closed spec fn text(&self) -> Seq<char> {
        self.content@
    }

    /// How many observations were added.
    pub closed spec fn observations(&self) -> u64 {
        self.total_observations
    }

    /// An empty buffer.
    pub fn new() -> (r: ObservationBuffer)
        ensures
            r.text() == Seq::<char>::empty(),
            r.observations() == 0,
    {
        ObservationBuffer { content: String::new(), total_observations: 0 }
    }

    /// Records `content` from `source`, stamped with the current time; blank
    /// content is ignored.
    pub fn add(&mut self, source: &str, content: &str)
        requires
            old(self).observations() < u64::MAX,
        ensures
            all_whitespace(content@) ==> final(self).text() == old(self).text() && final(self).observations()
                == old(self).observations(),
            !all_whitespace(content@) ==> final(self).observations() == old(self).observations() + 1
                && exists|ts: Seq<char>| is_decimal_text(ts) && final(self).text() == old(self).text() + observation_text(ts, source@, content@),
    {
        if is_blank(content) {
            return;
        }
        let timestamp = chrono_timestamp();
        self.content.append("[");
        self.content.append(timestamp.as_str());
        self.content.append(" - ");
        self.content.append(source);
        self.content.append("] ");
        self.content.append(content);
        self.content.append("\n");
        self.total_observations = self.total_observations + 1;
        assert(self.content@ =~= old(self).content@ + observation_text(timestamp@, source@, content@));
    }

    /// Whether enough text is buffered for a learning batch.
    pub fn should_learn(&self) -> (r: bool)
        ensures
            r == (utf8_len(self.text()) >= BATCH_SIZE),
    {
        str_utf8_len_at_least(self.content.as_str(), BATCH_SIZE)
    }

    /// Takes the buffered text, leaving the buffer empty.
    pub fn drain(&mut self) -> (r: String)
        ensures
            r@ == old(self).text(),
            final(self).text() == Seq::<char>::empty(),
            final(self).observations() == old(self).observations(),
    {
        let mut taken = String::new();
        std::mem::swap(&mut taken, &mut self.content);
        taken
    }

    /// The buffered text's length in bytes.
    pub fn size(&self) -> (r: usize)
        ensures
            r == capped_len(utf8_len(self.text())),
    {
        byte_len(self.content.as_str())
    }

    /// The buffered text.
    pub fn contents(&self) -> (r: &String)
        ensures
            r@ == self.text(),
    {
        &self.content
    }

    /// How many observations were added.
    pub fn count(&self) -> (r: u64)
        ensures
            r == self.observations(),
    {
        self.total_observations
    }
}

/// One recorded interaction.
#[derive(Debug, Clone)]
pub struct HistoryEntry {
    pub timestamp: String,
    pub source: String,
    pub content: String,
}

/// The view of a history entry: timestamp, source, content.
pub open spec fn entry_view(e: HistoryEntry) -> (Seq<char>, Seq<char>, Seq<char>) {
    (e.timestamp@, e.source@, e.content@)
}

/// The views of history entries.
pub open spec fn entry_views(v: Seq<HistoryEntry>) -> Seq<(Seq<char>, Seq<char>, Seq<char>)> {
    v.map_values(|e: HistoryEntry| entry_view(e))
}

/// The most recent interactions, oldest first, at most `MAX_HISTORY_SIZE`.
pub struct InteractionHistory {
    entries: Vec<HistoryEntry>,
}

impl InteractionHistory {
    /// The recorded entries, oldest first.
    pub closed spec fn log(&self) -> Seq<(Seq<char>, Seq<char>, Seq<char>)> {
        entry_views(self.entries@)
    }

    /// At most `MAX_HISTORY_SIZE` entries are kept.
    pub open spec fn wf(&self) -> bool {
        self.log().len() <= MAX_HISTORY_SIZE
    }

    /// An empty history.
    pub fn new() -> (r: InteractionHistory)
        ensures
            r.wf(),
            r.log() == Seq::<(Seq<char>, Seq<char>, Seq<char>)>::empty(),
    {
        let r = InteractionHistory { entries: Vec::new() };
        assert(r.log() =~= Seq::<(Seq<char>, Seq<char>, Seq<char>)>::empty());
        r
    }

    /// Records an interaction stamped with the current time, dropping the
    /// oldest one when the history is full.
    pub fn add(&mut self, source: &str, content: &str)
        requires
            old(self).wf(),
        ensures
            final(self).wf(),
            exists|ts: Seq<char>| is_decimal_text(ts) && final(self).log() == (if old(self).log().len() >= MAX_HISTORY_SIZE {
                old(self).log().drop_first()
            } else {
                old(self).log()
            }).push((ts, source@, content@)),
    {
        let entry = HistoryEntry {
            timestamp: chrono_timestamp(),
            source: to_string(source),
            content: to_string(content),
        };
        let ghost ev = entry_view(entry);
        let ghost before = self.entries@;
        if self.entries.len() >= MAX_HISTORY_SIZE {
            self.entries.remove(0);
            assert(entry_views(self.entries@) =~= entry_views(before).drop_first());
        }
        let ghost mid = self.entries@;
        self.entries.push(entry);
        assert(entry_views(self.entries@) =~= entry_views(mid).push(ev));
    }

    /// The last `n` entries (all of them when there are fewer), oldest first.
    pub fn recent(&self, n: usize) -> (r: &[HistoryEntry])
        ensures
            entry_views(r@) == self.log().subrange(
                if self.log().len() > n { self.log().len() - n } else { 0 },
                self.log().len() as int,
            ),
    {
        let len = self.entries.len();
        let start = if len > n {
            len - n
        } else {
            0
        };
        let r = vstd::slice::slice_subrange(self.entries.as_slice(), start, len);
        assert(entry_views(r@) =~= entry_views(self.entries@).subrange(start as int, len as int));
        r
    }

    /// One line per recent entry: `[timestamp] source (N chars)`, where N
    /// is the content's length in bytes.
    pub fn format(&self, n: usize) -> (r: String)
        ensures
            r@ == history_lines(self.log().subrange(
                if self.log().len() > n { self.log().len() - n } else { 0 },
                self.log().len() as int,
            )),
    {
        let recent = self.recent(n);
        let ghost rv = entry_views(recent@);
        let mut output = String::new();
        let mut i: usize = 0;
        while i < recent.len()
            invariant
                i <= recent@.len(),
                rv == entry_views(recent@),
                output@ == history_lines(rv.take(i as int)),
            decreases recent@.len() - i,
        {
            let e = &recent[i];
            assert(rv[i as int] == entry_view(*e));
            assert(rv.take(i as int + 1).drop_last() =~= rv.take(i as int));
            let len = byte_len(e.content.as_str()) as u64;
            output.append("[");
            output.append(e.timestamp.as_str());
            output.append("] ");
            output.append(e.source.as_str());
            output.append(" (");
            let d = u64_to_decimal(len);
            output.append(d.as_str());
            output.append(" chars)\n");
            i = i + 1;
        }
        assert(rv.take(i as int) =~= rv);
        output
    }
}

/// The display lines of history entries.
pub open spec fn history_lines(es: Seq<(Seq<char>, Seq<char>, Seq<char>)>) -> Seq<char>
    decreases es.len(),
{
    if es.len() == 0 {
        Seq::empty()
    } else {
        let e = es.last();
        history_lines(es.drop_last()) + "["@ + e.0 + "] "@ + e.1 + " ("@ + decimal(capped_len(utf8_len(e.2)) as u64 as nat)
            + " chars)\n"@
    }
}

// ---------------------------------------------------------------------------
// The observation console
// ---------------------------------------------------------------------------

/// A line typed in observation mode.
#[derive(Debug, Clone, PartialEq, Eq)]
pub enum ObserveCommand {
    /// Nothing (a blank line).
    Empty,
    /// Text to learn from.
    Text(String),
    /// `/exit` or `/quit`.
    Exit,
    /// `/help`.
    Help,
    /// `/run <command>`, with the command when given.
    Run(Option<String>),
    /// `/file <path>`, with the path (as typed) when given.
    File(Option<String>),
    /// `/history`.
    History,
    /// `/stats`.
    Stats,
    /// `/learn`.
    Learn,
    /// `/save`.
    Save,
    /// Any other `/command`.
    Unknown(String),
}

pub enum ObserveCommandView {
    Empty,
    Text(Seq<char>),
    Exit,
    Help,
    Run(Option<Seq<char>>),
    File(Option<Seq<char>>),
    History,
    Stats,
    Learn,
    Save,
    Unknown(Seq<char>),
}

impl View for ObserveCommand {
    type V = ObserveCommandView;

    open spec fn view(&self) -> ObserveCommandView {
        match self {
            ObserveCommand::Empty => ObserveCommandView::Empty,
            ObserveCommand::Text(t) => ObserveCommandView::Text(t@),
            ObserveCommand::Exit => ObserveCommandView::Exit,
            ObserveCommand::Help => ObserveCommandView::Help,
            ObserveCommand::Run(a) => ObserveCommandView::Run(crate::brain::opt_view(*a)),
            ObserveCommand::File(a) => ObserveCommandView::File(crate::brain::opt_view(*a)),
            ObserveCommand::History => ObserveCommandView::History,
            ObserveCommand::Stats => ObserveCommandView::Stats,
            ObserveCommand::Learn => ObserveCommandView::Learn,
            ObserveCommand::Save => ObserveCommandView::Save,
            ObserveCommand::Unknown(c) => ObserveCommandView::Unknown(c@),
        }
    }
}

/// The command word of a `/` line: up to its first space.
pub open spec fn command_word(s: Seq<char>) -> Seq<char> {
    match first_index(s, |c: char| c == ' ') {
        Some(k) => s.take(k),
        None => s,
    }
}

/// The argument of a `/` line: after its first space, if it has one.
pub open spec fn command_argument(s: Seq<char>) -> Option<Seq<char>> {
    match first_index(s, |c: char| c == ' ') {
        Some(k) => Some(s.skip(k + 1)),
        None => None,
    }
}

/// What a typed line asks for: the line is trimmed; a blank line is
/// nothing; a line starting with `/` is a command (its word up to the first
/// space, the rest its argument); any other line is text to learn from.
pub open spec fn observe_command(line: Seq<char>) -> ObserveCommandView {
    let t = crate::text::trim(line);
    if t.len() == 0 {
        ObserveCommandView::Empty
    } else if t[0] != '/' {
        ObserveCommandView::Text(t)
    } else {
        let w = command_word(t);
        if w == "/exit"@ || w == "/quit"@ {
            ObserveCommandView::Exit
        } else if w == "/help"@ {
            ObserveCommandView::Help
        } else if w == "/run"@ {
            ObserveCommandView::Run(command_argument(t))
        } else if w == "/file"@ {
            ObserveCommandView::File(command_argument(t))
        } else if w == "/history"@ {
            ObserveCommandView::History
        } else if w == "/stats"@ {
            ObserveCommandView::Stats
        } else if w == "/learn"@ {
            ObserveCommandView::Learn
        } else if w == "/save"@ {
            ObserveCommandView::Save
        } else {
            ObserveCommandView::Unknown(w)
        }
    }
}

/// Whether polled clipboard text is new: not empty and different from the
/// text seen last.
pub fn is_new_clipboard_text(last: &str, current: &str) -> (r: bool)
    ensures
        r == (current@ != last@ && current@.len() > 0),
{
    !str_eq(current, last) && !current.is_empty()
}

/// The text learned from a command's output: its standard output when it
/// succeeded, else "Error: " followed by its error output.
pub fn command_output_text(success: bool, stdout: String, stderr: &str) -> (r: String)
    ensures
        r@ == (if success { stdout@ } else { "Error: "@ + stderr@ }),
{
    if success {
        stdout
    } else {
        let mut r = to_string("Error: ");
        r.append(stderr);
        r
    }
}

/// A command line split at its first space: the word before it and, when
/// there is a space, the rest after it.
pub fn split_command(s: &str) -> (r: (String, Option<String>))
    ensures
        r.0@ == command_word(s@),
        crate::brain::opt_view(r.1) == command_argument(s@),
{
    let v = chars_of(s);
    let ghost p = |c: char| c == ' ';
    let mut k: usize = 0;
    while k < v.len() && v[k] != ' '
        invariant
            k <= v@.len(),
            v@ == s@,
            p == (|c: char| c == ' '),
            first_index(v@.take(k as int), p) is None,
        decreases v@.len() - k,
    {
        assert(v@.take(k as int + 1).drop_last() =~= v@.take(k as int));
        k = k + 1;
    }
    if k < v.len() {
        proof {
            assert(v@.take(k as int + 1).drop_last() =~= v@.take(k as int));
            crate::inference::lemma_first_index_prefix(v@, p, k as int + 1);
        }
        assert(v@.subrange(0, k as int) =~= v@.take(k as int));
        assert(v@.subrange(k as int + 1, v@.len() as int) =~= v@.skip(k as int + 1));
        (string_of_range(&v, 0, k), Some(string_of_range(&v, k + 1, v.len())))
    } else {
        assert(v@.take(k as int) =~= v@);
        assert(v@.subrange(0, k as int) =~= v@);
        (string_of_range(&v, 0, k), None)
    }
}

/// The command a typed line asks for (see `observe_command`).
pub fn parse_observe_input(line: &str) -> (r: ObserveCommand)
    ensures
        r@ == observe_command(line@),
{
    let t = crate::text::trim_str(line);
    let v = chars_of(t.as_str());
    if v.len() == 0 {
        return ObserveCommand::Empty;
    }
    if v[0] != '/' {
        return ObserveCommand::Text(t);
    }
    let (word, arg) = split_command(t.as_str());
    let w = word.as_str();
    if str_eq(w, "/exit") || str_eq(w, "/quit") {
        ObserveCommand::Exit
    } else if str_eq(w, "/help") {
        ObserveCommand::Help
    } else if str_eq(w, "/run") {
        ObserveCommand::Run(arg)
    } else if str_eq(w, "/file") {
        ObserveCommand::File(arg)
    } else if str_eq(w, "/history") {
        ObserveCommand::History
    } else if str_eq(w, "/stats") {
        ObserveCommand::Stats
    } else if str_eq(w, "/learn") {
        ObserveCommand::Learn
    } else if str_eq(w, "/save") {
        ObserveCommand::Save
    } else {
        ObserveCommand::Unknown(word)
    }
}

/// Whether `c` separates the parts of a path (`/`, or a backslash on Windows).
pub open spec fn is_path_sep(c: char) -> bool {
    c == '/' || c == '\\'
}

/// Whether a `..` part of the path `p` starts at `i`.
pub open spec fn parent_part_at(p: Seq<char>, i: int) -> bool {
    &&& 0 <= i
    &&& i + 1 < p.len()
    &&& p[i] == '.'
    &&& p[i + 1] == '.'
    &&& (i == 0 || is_path_sep(p[i - 1]))
    &&& (i + 2 == p.len() || is_path_sep(p[i + 2]))
}

/// Whether joining `p` to a directory names something inside it: `p` is not
/// empty, does not start at a root or with a drive (`C:`), and has no `..`
/// part.
pub open spec fn stays_inside(p: Seq<char>) -> bool {
    &&& p.len() > 0
    &&& !is_path_sep(p[0])
    &&& !(p.len() >= 2 && p[1] == ':')
    &&& forall|i: int| !parent_part_at(p, i)
}

/// The path that `/file <arg>` reads, relative to the sandbox: the trimmed
/// argument, or nothing when it would lead outside the sandbox.
pub open spec fn sandbox_entry_view(arg: Seq<char>) -> Option<Seq<char>> {
    let t = crate::text::trim(arg);
    if stays_inside(t) {
        Some(t)
    } else {
        None
    }
}

/// The path, relative to the sandbox, that `/file <arg>` reads: the trimmed
/// argument when it stays inside the sandbox, `None` when it is empty, starts
/// with `/`, a backslash or a drive (`C:`), or has a `..` part.
pub fn sandbox_entry(arg: &str) -> (r: Option<String>)
    ensures
        crate::brain::opt_view(r) == sandbox_entry_view(arg@),
{
    let t = crate::text::trim_str(arg);
    let cs = chars_of(t.as_str());
    let n = cs.len();
    if n == 0 || cs[0] == '/' || cs[0] == '\\' || (n >= 2 && cs[1] == ':') {
        return None;
    }
    let mut i: usize = 0;
    while i + 1 < n
        invariant
            n == cs@.len(),
            cs@ == t@,
            t@ == crate::text::trim(arg@),
            i < n,
            forall|j: int| 0 <= j < i ==> !parent_part_at(cs@, j),
        decreases n - i,
    {
        if cs[i] == '.' && cs[i + 1] == '.' && (i == 0 || cs[i - 1] == '/' || cs[i - 1] == '\\') && (i + 2 == n
            || cs[i + 2] == '/' || cs[i + 2] == '\\') {
            assert(parent_part_at(cs@, i as int));
            return None;
        }
        i += 1;
    }
    assert forall|j: int| !parent_part_at(cs@, j) by {
        if 0 <= j < i {
            assert(!parent_part_at(cs@, j));
        }
    }
    Some(t)
}

} // verus!
