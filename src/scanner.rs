use vstd::prelude::*;
use vstd::string::StrSliceExecFns;
use vstd::utf8::*;

use crate::matcher::{ends_with_match, folded_pattern, lower_str, Matcher};
use crate::track::{
    current_line, lemma_encode_push, lemma_newline_starts_line, line_bytes_after,
    line_chars_after, line_number_after, position_after, total_bytes_after, Occurence,
};
use crate::utf8::{
    decode_sequence, decode_stream, lead_len, lemma_decode_append, lemma_malformed_stays_malformed,
    unfinished, utf8_char_len,
};

verus! {

/// A progress report is due once more than this many bytes were scanned since the last.
pub const REPORT_INTERVAL: u64 = 1048576;

/// Every match in a run of characters, in the order in which they end, each at the
/// position of its last character.
pub open spec fn occurrences(s: Seq<char>, sep: char, pat: Seq<char>) -> Seq<Occurence>
    decreases s.len(),
{
    if s.len() == 0 {
        Seq::empty()
    } else {
        occurrences(s.drop_last(), sep, pat) + if ends_with_match(s, sep, pat) {
            seq![position_after(s)]
        } else {
            Seq::<Occurence>::empty()
        }
    }
}

/// Where a scan stands.
#[derive(Clone, Copy, Debug, PartialEq, Eq, Structural)]
pub enum Phase {
    Running,
    Completed,
    Cancelled,
    Failed,
}

/// Why a scan stopped without completing.
#[derive(Clone, Debug)]
pub enum ScanError {
    /// The search string was empty; no scan starts.
    EmptySearch,
    /// The file could not be opened.
    OpenFailed(String),
    /// The bytes are not well-formed UTF-8.
    InvalidEncoding,
    /// Reading failed.
    IoError(String),
}

/// What the reader hands the scanner.
#[derive(Clone, Debug)]
pub enum Event {
    /// The next byte of the stream.
    Byte(u8),
    /// The stream has no more bytes.
    End,
    /// Reading failed.
    ReadFailed(String),
    /// The caller asked the scan to stop.
    Cancelled,
}

/// A batch of new occurrences with the number of bytes scanned so far.
#[derive(Clone, Debug)]
pub struct Progress {
    pub bytes_scanned: u64,
    pub occurrences: Vec<Occurence>,
}

/// What the reader does next.
#[derive(Clone, Debug)]
pub enum Action {
    /// Read on.
    Continue,
    /// Hand this batch on, then read on.
    Report(Progress),
    /// Hand this last batch on; the scan is complete.
    Finish(Progress),
    /// Report the error; the scan is over.
    Fail(ScanError),
    /// The scan is over; nothing more is reported.
    Stop,
}

/// Streaming scan state: decoder, position counters, matcher and reporter.
pub struct Scanner {
    matcher: Matcher,
    line_number: u64,
    line_character_offset: u64,
    line_byte_offset: u64,
    total_byte_offset: u64,
    partial: Vec<u8>,
    found: Vec<Occurence>,
    last_report: u64,
    phase: Phase,
    reported: Ghost<Seq<Occurence>>,
}

/// The bytes of a sequence not yet complete: a valid lead byte and fewer bytes than it
/// announces.
pub open spec fn is_unfinished_sequence(p: Seq<u8>) -> bool {
    p.len() > 0 ==> (lead_len(p[0]) matches Some(n) && p.len() < n)
}

proof fn lemma_unfinished_sequence(p: Seq<u8>)
    requires
        is_unfinished_sequence(p),
    ensures
        decode_stream(p) == Some(Seq::<char>::empty()),
        unfinished(p) == p.len(),
{
}

/// A complete, well-formed sequence decodes to its one character.
proof fn lemma_complete_sequence(span: Seq<u8>, c: char)
    requires
        0 < span.len() <= 4,
        lead_len(span[0]) == Some(span.len() as usize),
        valid_utf8(span),
        decode_utf8(span) == seq![c],
    ensures
        decode_stream(span) == Some(seq![c]),
        unfinished(span) == 0,
{
    let n = span.len() as int;
    assert(span.subrange(0, n) =~= span);
    assert(span.subrange(n, n) =~= Seq::<u8>::empty());
    assert(decode_stream(Seq::<u8>::empty()) == Some(Seq::<char>::empty()));
    assert(unfinished(Seq::<u8>::empty()) == 0);
    assert(seq![c] + Seq::<char>::empty() =~= seq![c]);
}

impl Scanner {
    /// The folded pattern searched for.
    pub closed spec fn pattern(&self) -> Seq<char> {
        self.matcher.pattern()
    }

    /// The separator character.
    pub closed spec fn separator(&self) -> char {
        self.matcher.separator()
    }

    /// The characters decoded so far.
    pub closed spec fn chars(&self) -> Seq<char> {
        self.matcher.seen()
    }

    /// The bytes of a character that is not yet complete.
    pub closed spec fn pending(&self) -> Seq<u8> {
        self.partial@
    }

    /// All bytes accepted so far.
    pub open spec fn consumed(&self) -> Seq<u8> {
        encode_utf8(self.chars()) + self.pending()
    }

    /// Occurrences already handed out in reports.
    pub closed spec fn reported(&self) -> Seq<Occurence> {
        self.reported@
    }

    /// Occurrences found since the last report.
    pub closed spec fn unreported(&self) -> Seq<Occurence> {
        self.found@
    }

    pub closed spec fn phase(&self) -> Phase {
        self.phase
    }

    /// Bytes scanned when the last report went out.
    pub closed spec fn last_report(&self) -> u64 {
        self.last_report
    }

    /// Bytes of the characters decoded so far.
    pub closed spec fn total(&self) -> u64 {
        self.total_byte_offset
    }

    closed spec fn counters_inv(&self) -> bool {
        let s = self.matcher.seen();
        &&& self.total_byte_offset == total_bytes_after(s)
        &&& self.line_number == line_number_after(s)
        &&& self.line_character_offset == line_chars_after(s)
        &&& self.line_byte_offset == line_bytes_after(s)
        &&& self.line_number <= self.total_byte_offset + 1
        &&& self.line_character_offset <= self.total_byte_offset
        &&& self.line_byte_offset <= self.total_byte_offset
        &&& self.last_report <= self.total_byte_offset
    }

    closed spec fn core_inv(&self) -> bool {
        let s = self.matcher.seen();
        &&& self.matcher.wf()
        &&& self.counters_inv()
        &&& decode_stream(encode_utf8(s)) == Some(s)
        &&& unfinished(encode_utf8(s)) == 0
        &&& self.reported@ + self.found@ == occurrences(s, self.separator(), self.pattern())
    }

    /// Internal consistency of the scanner.
    pub closed spec fn inv(&self) -> bool {
        &&& self.core_inv()
        &&& is_unfinished_sequence(self.partial@)
        &&& (self.last_report == 0 || self.last_report < self.total_byte_offset + self.partial@.len())
    }

    /// A scanner in a consistent state: what it has decoded is what the accepted bytes
    /// decode to, its counters give the position after them, and the occurrences
    /// reported and pending are exactly the matches among them.
    pub open spec fn wf(&self) -> bool {
        &&& self.inv()
        &&& self.pattern().len() > 0
        &&& decode_stream(self.consumed()) == Some(self.chars())
        &&& unfinished(self.consumed()) == self.pending().len()
        &&& self.total() == total_bytes_after(self.chars())
        &&& self.last_report() <= self.total()
        &&& (self.last_report() == 0 || self.last_report() < self.consumed().len())
        &&& self.reported() + self.unreported() == occurrences(
            self.chars(),
            self.separator(),
            self.pattern(),
        )
    }

    proof fn lemma_wf(&self)
        requires
            self.inv(),
        ensures
            self.wf(),
    {
        lemma_unfinished_sequence(self.partial@);
        lemma_decode_append(encode_utf8(self.chars()), self.partial@);
        assert(self.consumed().len() == self.total_byte_offset + self.partial@.len());
        assert(self.chars() + Seq::<char>::empty() =~= self.chars());
    }

    /// A scanner for `search`, folded to lowercase, with the given separator, that has
    /// read nothing. An empty search string is refused.
    pub fn new(search: &str, separator: char) -> (r: Result<Scanner, ScanError>)
        ensures
            search@.len() == 0 <==> r is Err,
            r matches Err(e) ==> e is EmptySearch,
            r matches Ok(s) ==> {
                &&& s.wf()
                &&& s.pattern() == lower_str(search@)
                &&& s.separator() == separator
                &&& s.consumed() == Seq::<u8>::empty()
                &&& s.chars() == Seq::<char>::empty()
                &&& s.reported() == Seq::<Occurence>::empty()
                &&& s.unreported() == Seq::<Occurence>::empty()
                &&& s.phase() == Phase::Running
                &&& s.total() == 0
                &&& s.last_report() == 0
            },
    {
        let pattern = folded_pattern(search);
        if pattern.len() == 0 {
            return Err(ScanError::EmptySearch);
        }
        let r = Scanner {
            matcher: Matcher::new(pattern, separator),
            line_number: 1,
            line_character_offset: 0,
            line_byte_offset: 0,
            total_byte_offset: 0,
            partial: Vec::new(),
            found: Vec::new(),
            last_report: 0,
            phase: Phase::Running,
            reported: Ghost(Seq::empty()),
        };
        proof {
            let e = Seq::<char>::empty();
            assert(encode_utf8(e) =~= Seq::<u8>::empty());
            assert(current_line(e) =~= e);
            assert(r.found@ =~= occurrences(e, separator, r.pattern()));
            assert(r.reported@ + r.found@ =~= r.found@);
            r.lemma_wf();
            assert(r.consumed() =~= Seq::<u8>::empty());
        }
        Ok(r)
    }

    /// Bytes of the characters decoded so far.
    pub fn bytes_scanned(&self) -> (r: u64)
        ensures
            r == self.total(),
    {
        self.total_byte_offset
    }

    /// Whether the scan is still running.
    pub fn is_running(&self) -> (r: bool)
        ensures
            r == (self.phase() == Phase::Running),
    {
        self.phase == Phase::Running
    }

    /// Takes the character whose complete sequence `partial` now holds. On a malformed
    /// sequence its last byte is given back and nothing else changes.
    fn complete_char(&mut self) -> (r: bool)
        requires
            old(self).core_inv(),
            0 < old(self).partial@.len() <= 4,
            lead_len(old(self).partial@[0]) == Some(old(self).partial@.len() as usize),
            old(self).total_byte_offset + 4 <= u64::MAX,
            old(self).last_report == 0 || old(self).last_report < old(self).total_byte_offset
                + old(self).partial@.len(),
        ensures
            r == valid_utf8(old(self).partial@),
            r ==> final(self).total_byte_offset == old(self).total_byte_offset + old(
                self,
            ).partial@.len(),
            !r ==> *final(self) == (Scanner { partial: final(self).partial, ..*old(self) })
                && final(self).partial@ == old(self).partial@.drop_last(),
            r ==> final(self).inv() && final(self).partial@ == Seq::<u8>::empty() && encode_utf8(
                final(self).chars(),
            ) == encode_utf8(old(self).chars()) + old(self).partial@ && final(self).reported()
                == old(self).reported() && final(self).phase == old(self).phase
                && final(self).last_report == old(self).last_report && final(self).pattern()
                == old(self).pattern() && final(self).separator() == old(self).separator(),
    {
        let n = self.partial.len();
        match decode_sequence(self.partial.as_slice()) {
            None => {
                self.partial.pop();
                false
            },
            Some(c) => {
                let ghost s = self.matcher.seen();
                let ghost span = self.partial@;
                proof {
                    lemma_complete_sequence(span, c);
                    lemma_encode_push(s, c);
                    lemma_decode_append(encode_utf8(s), span);
                    lemma_newline_starts_line(s, c);
                    assert(s + seq![c] =~= s.push(c));
                }
                self.partial = Vec::new();
                let len = n as u64;
                self.total_byte_offset = self.total_byte_offset + len;
                if c == '\n' {
                    self.line_number = self.line_number + 1;
                    self.line_character_offset = 0;
                    self.line_byte_offset = 0;
                } else {
                    self.line_character_offset = self.line_character_offset + 1;
                    self.line_byte_offset = self.line_byte_offset + len;
                }
                let hit = self.matcher.step(c);
                let ghost s2 = s.push(c);
                proof {
                    assert(s2.drop_last() =~= s);
                }
                if hit {
                    self.found.push(
                        Occurence {
                            line_number: self.line_number,
                            line_character_offset: self.line_character_offset,
                            line_byte_offset: self.line_byte_offset,
                            total_byte_offset: self.total_byte_offset,
                        },
                    );
                    proof {
                        assert(self.reported@ + self.found@ =~= occurrences(
                            s2,
                            self.separator(),
                            self.pattern(),
                        ));
                    }
                } else {
                    proof {
                        assert(occurrences(s2, self.separator(), self.pattern()) =~= occurrences(
                            s,
                            self.separator(),
                            self.pattern(),
                        ) + Seq::<Occurence>::empty());
                    }
                }
                true
            },
        }
    }

    /// Takes one more byte: `false`, with nothing changed, when the bytes can no longer
    /// decode.
    fn push_byte(&mut self, b: u8) -> (r: bool)
        requires
            old(self).inv(),
            old(self).total_byte_offset + 4 <= u64::MAX,
        ensures
            final(self).inv(),
            r == decode_stream(old(self).consumed().push(b)) is Some,
            r ==> final(self).consumed() == old(self).consumed().push(b),
            !r ==> final(self).same_state(old(self)),
            final(self).total_byte_offset >= old(self).total_byte_offset,
            final(self).total_byte_offset + final(self).partial@.len() == old(self).total_byte_offset
                + old(self).partial@.len() + if r {
                1int
            } else {
                0int
            },
            final(self).reported() == old(self).reported(),
            final(self).phase == old(self).phase,
            final(self).last_report == old(self).last_report,
            final(self).pattern() == old(self).pattern(),
            final(self).separator() == old(self).separator(),
    {
        let ghost s = self.chars();
        let ghost p = self.partial@;
        let ghost x = p.push(b);
        proof {
            assert(old(self).consumed().push(b) =~= encode_utf8(s) + x);
            lemma_decode_append(encode_utf8(s), x);
            assert(x[0] == if p.len() == 0 { b } else { p[0] });
        }
        let lead = if self.partial.len() == 0 {
            b
        } else {
            self.partial[0]
        };
        match utf8_char_len(lead) {
            None => false,
            Some(n) => {
                self.partial.push(b);
                if self.partial.len() < n {
                    proof {
                        lemma_unfinished_sequence(x);
                    }
                    true
                } else {
                    let ok = self.complete_char();
                    proof {
                        let k = x.len() as int;
                        assert(x.subrange(0, k) =~= x);
                        assert(x.subrange(k, k) =~= Seq::<u8>::empty());
                        assert(decode_stream(Seq::<u8>::empty()) == Some(Seq::<char>::empty()));
                        if ok {
                            assert(self.consumed() =~= encode_utf8(s) + x);
                        } else {
                            assert(self.partial@ =~= p);
                        }
                    }
                    ok
                }
            },
        }
    }

    /// The same scan state as `o`: pattern, separator, characters, pending bytes,
    /// occurrences reported and unreported, and counters.
    pub open spec fn same_state(&self, o: &Scanner) -> bool {
        &&& self.pattern() == o.pattern()
        &&& self.separator() == o.separator()
        &&& self.chars() == o.chars()
        &&& self.pending() == o.pending()
        &&& self.reported() == o.reported()
        &&& self.unreported() == o.unreported()
        &&& self.total() == o.total()
        &&& self.last_report() == o.last_report()
    }

    /// Hands the unreported occurrences out, and counts them as reported.
    fn take_batch(&mut self) -> (r: Vec<Occurence>)
        requires
            old(self).inv(),
        ensures
            final(self).inv(),
            r@ == old(self).unreported(),
            final(self).reported() == old(self).reported() + old(self).unreported(),
            final(self).unreported() == Seq::<Occurence>::empty(),
            final(self).chars() == old(self).chars(),
            final(self).pending() == old(self).pending(),
            final(self).total() == old(self).total(),
            final(self).last_report() == old(self).last_report(),
            final(self).phase == old(self).phase,
            final(self).pattern() == old(self).pattern(),
            final(self).separator() == old(self).separator(),
    {
        let mut batch: Vec<Occurence> = Vec::new();
        batch.append(&mut self.found);
        self.reported = Ghost(self.reported@ + batch@);
        proof {
            assert(self.reported@ + self.found@ =~= old(self).reported@ + old(self).found@);
        }
        batch
    }

    /// One step of a scan: the decision on what the reader saw, and what it does next.
    /// A scan runs until it completes, fails or is cancelled; after that every event
    /// is ignored and nothing more is reported. Cancelling discards what was found
    /// since the last report and leaves what was reported as it was.
    pub fn handle(&mut self, event: Event) -> (r: Action)
        requires
            old(self).wf(),
            event is Byte ==> old(self).total() + 4 <= u64::MAX,
        ensures
            final(self).wf(),
            r matches Action::Report(p) ==> p.bytes_scanned == old(self).total() && old(
                self,
            ).total() - old(self).last_report() > REPORT_INTERVAL,
            final(self).pattern() == old(self).pattern(),
            final(self).separator() == old(self).separator(),
            old(self).phase() != Phase::Running ==> r is Stop && final(self).same_state(old(self))
                && final(self).phase() == old(self).phase(),
            old(self).phase() == Phase::Running ==> match event {
                Event::Cancelled => r is Stop && final(self).phase() == Phase::Cancelled
                    && final(self).same_state(old(self)),
                Event::ReadFailed(m) => (r matches Action::Fail(ScanError::IoError(e)) && e@
                    == m@) && final(self).phase() == Phase::Failed && final(self).same_state(old(self)),
                Event::End => if unfinished(old(self).consumed()) > 0 {
                    r matches Action::Fail(ScanError::InvalidEncoding) && final(self).phase()
                        == Phase::Failed && final(self).same_state(old(self))
                } else {
                    &&& r matches Action::Finish(p) && p.bytes_scanned == old(self).total()
                        && p.occurrences@ == old(self).unreported()
                    &&& r matches Action::Finish(p) && (old(self).last_report() > 0
                        ==> p.bytes_scanned > old(self).last_report())
                    &&& final(self).phase() == Phase::Completed
                    &&& final(self).reported() == old(self).reported() + old(self).unreported()
                    &&& final(self).reported() == occurrences(
                        old(self).chars(),
                        old(self).separator(),
                        old(self).pattern(),
                    )
                    &&& final(self).unreported() == Seq::<Occurence>::empty()
                    &&& final(self).consumed() == old(self).consumed()
                    &&& final(self).total() == old(self).total()
                },
                Event::Byte(b) => if decode_stream(old(self).consumed().push(b)) is None {
                    r matches Action::Fail(ScanError::InvalidEncoding) && final(self).phase()
                        == Phase::Failed && final(self).same_state(old(self))
                } else {
                    &&& final(self).consumed() == old(self).consumed().push(b)
                    &&& final(self).phase() == Phase::Running
                    &&& if old(self).total() - old(self).last_report() > REPORT_INTERVAL {
                        &&& r matches Action::Report(p) && p.bytes_scanned == old(self).total()
                            && p.occurrences@ == old(self).unreported()
                        &&& final(self).reported() == old(self).reported() + old(self).unreported()
                        &&& final(self).last_report() == old(self).total()
                    } else {
                        &&& r is Continue
                        &&& final(self).reported() == old(self).reported()
                        &&& final(self).last_report() == old(self).last_report()
                    }
                },
            },
    {
        if self.phase != Phase::Running {
            return Action::Stop;
        }
        match event {
            Event::Cancelled => {
                self.phase = Phase::Cancelled;
                Action::Stop
            },
            Event::ReadFailed(m) => {
                self.phase = Phase::Failed;
                Action::Fail(ScanError::IoError(m))
            },
            Event::End => {
                if self.partial.len() > 0 {
                    self.phase = Phase::Failed;
                    Action::Fail(ScanError::InvalidEncoding)
                } else {
                    let batch = self.take_batch();
                    self.phase = Phase::Completed;
                    proof {
                        self.lemma_wf();
                    }
                    Action::Finish(Progress { bytes_scanned: self.total_byte_offset, occurrences: batch })
                }
            },
            Event::Byte(b) => {
                let scanned = self.total_byte_offset;
                let due = scanned - self.last_report > REPORT_INTERVAL;
                let mut batch: Vec<Occurence> = Vec::new();
                if due {
                    batch = self.take_batch();
                }
                if !self.push_byte(b) {
                    if due {
                        self.found = batch;
                        self.reported = Ghost(old(self).reported@);
                    }
                    self.phase = Phase::Failed;
                    return Action::Fail(ScanError::InvalidEncoding);
                }
                if due {
                    self.last_report = scanned;
                    proof {
                        self.lemma_wf();
                    }
                    Action::Report(Progress { bytes_scanned: scanned, occurrences: batch })
                } else {
                    proof {
                        self.lemma_wf();
                    }
                    Action::Continue
                }
            },
        }
    }
} // impl Scanner

/// Every occurrence found in a run of characters marks a match that ends inside it and
/// stands at the position after the prefix that the match ends: its line number is one
/// more than the newlines of that prefix, its in-line offsets count the characters and
/// bytes after the last newline of the prefix, and its total offset is the encoded
/// length of the prefix.
pub proof fn lemma_occurrences_at_match_ends(s: Seq<char>, sep: char, pat: Seq<char>)
    ensures
        forall|k: int|
            0 <= k < occurrences(s, sep, pat).len() ==> marks_match_end(
                s,
                sep,
                pat,
                #[trigger] occurrences(s, sep, pat)[k],
            ),
    decreases s.len(),
{
    if s.len() > 0 {
        let t = s.drop_last();
        lemma_occurrences_at_match_ends(t, sep, pat);
        let occ = occurrences(s, sep, pat);
        let old_occ = occurrences(t, sep, pat);
        assert forall|k: int| 0 <= k < occ.len() implies marks_match_end(
            s,
            sep,
            pat,
            #[trigger] occ[k],
        ) by {
            if k < old_occ.len() {
                assert(occ[k] == old_occ[k]);
                assert(marks_match_end(t, sep, pat, old_occ[k]));
                let j = choose|j: int|
                    0 < j <= t.len() && ends_with_match(#[trigger] t.subrange(0, j), sep, pat)
                        && old_occ[k] == position_after(t.subrange(0, j));
                assert(t.subrange(0, j) =~= s.subrange(0, j));
            } else {
                assert(s.subrange(0, s.len() as int) =~= s);
                assert(occ[k] == position_after(s.subrange(0, s.len() as int)));
            }
        }
    }
}

/// Whether `o` is the position after a prefix of `s` at whose end a match ends.
pub open spec fn marks_match_end(s: Seq<char>, sep: char, pat: Seq<char>, o: Occurence) -> bool {
    exists|j: int|
        0 < j <= s.len() && ends_with_match(#[trigger] s.subrange(0, j), sep, pat) && o
            == position_after(s.subrange(0, j))
}

/// The separator kept when the user types `typed` over `current`: the first typed
/// character that differs from `current`, or `current` when there is none.
pub open spec fn chosen_separator(current: char, typed: Seq<char>) -> char
    decreases typed.len(),
{
    if typed.len() == 0 {
        current
    } else if typed[0] != current {
        typed[0]
    } else {
        chosen_separator(current, typed.drop_first())
    }
}

/// Picks the new separator from what was typed in place of `current`.
pub fn pick_separator(current: char, typed: &str) -> (r: char)
    ensures
        r == chosen_separator(current, typed@),
{
    let n = typed.unicode_len();
    let mut i: usize = 0;
    assert(typed@.subrange(0, n as int) =~= typed@);
    while i < n
        invariant
            n == typed@.len(),
            i <= n,
            chosen_separator(current, typed@) == chosen_separator(
                current,
                typed@.subrange(i as int, n as int),
            ),
        decreases n - i,
    {
        let c = typed.get_char(i);
        proof {
            let rest = typed@.subrange(i as int, n as int);
            assert(rest[0] == c);
            assert(rest.drop_first() =~= typed@.subrange(i + 1, n as int));
        }
        if c != current {
            return c;
        }
        i = i + 1;
    }
    proof {
        assert(typed@.subrange(n as int, n as int) =~= Seq::<char>::empty());
    }
    current
}

/// Scans a whole byte buffer for `search`, folded to lowercase, with `separator`
/// restarting matches like a newline does. Succeeds exactly when the search string is
/// not empty and the bytes are well-formed UTF-8 to their end; then it returns every
/// match, in order, with the number of bytes scanned.
pub fn scan_bytes(search: &str, separator: char, bytes: &[u8]) -> (r: Result<Progress, ScanError>)
    requires
        bytes@.len() + 4 <= u64::MAX,
    ensures
        search@.len() == 0 ==> (r matches Err(e) && e is EmptySearch),
        search@.len() > 0 ==> (r is Ok <==> decode_stream(bytes@) is Some && unfinished(bytes@)
            == 0),
        search@.len() > 0 && r is Err ==> (r matches Err(e) && e is InvalidEncoding),
        r matches Ok(p) ==> p.bytes_scanned == bytes@.len() && p.occurrences@ == occurrences(
            decode_stream(bytes@)->0,
            separator,
            lower_str(search@),
        ),
{
    let mut scanner = match Scanner::new(search, separator) {
        Err(e) => {
            return Err(e);
        },
        Ok(s) => s,
    };
    let mut all: Vec<Occurence> = Vec::new();
    let mut i: usize = 0;
    while i < bytes.len()
        invariant
            scanner.wf(),
            scanner.phase() == Phase::Running,
            scanner.consumed() == bytes@.subrange(0, i as int),
            scanner.pattern() == lower_str(search@),
            search@.len() > 0,
            scanner.separator() == separator,
            all@ == scanner.reported(),
            i <= bytes@.len(),
            bytes@.len() + 4 <= u64::MAX,
        decreases bytes@.len() - i,
    {
        proof {
            assert(scanner.total() <= scanner.consumed().len());
            assert(bytes@.subrange(0, i as int).push(bytes@[i as int]) =~= bytes@.subrange(
                0,
                i + 1,
            ));
        }
        match scanner.handle(Event::Byte(bytes[i])) {
            Action::Report(p) => {
                let mut p = p;
                all.append(&mut p.occurrences);
            },
            Action::Fail(e) => {
                proof {
                    let head = bytes@.subrange(0, i + 1);
                    lemma_malformed_stays_malformed(head, bytes@.subrange(i + 1, bytes@.len() as int));
                    assert(head + bytes@.subrange(i + 1, bytes@.len() as int) =~= bytes@);
                }
                return Err(e);
            },
            _ => {},
        }
        i = i + 1;
    }
    proof {
        assert(bytes@.subrange(0, bytes@.len() as int) =~= bytes@);
    }
    match scanner.handle(Event::End) {
        Action::Finish(p) => {
            let mut p = p;
            all.append(&mut p.occurrences);
            proof {
                assert(scanner.consumed() =~= encode_utf8(scanner.chars()));
            }
            Ok(Progress { bytes_scanned: p.bytes_scanned, occurrences: all })
        },
        Action::Fail(e) => Err(e),
        _ => {
            proof {
                assert(false);
            }
            Err(ScanError::InvalidEncoding)
        },
    }
}

/// A scan depends on nothing but its input: two scans of the same bytes, with the same
/// search string and separator, decode the same characters, give the same occurrences
/// in the same order, and scan the same number of bytes.
pub proof fn lemma_scan_is_repeatable(
    first: Seq<u8>,
    second: Seq<u8>,
    search: Seq<char>,
    separator: char,
)
    requires
        first == second,
    ensures
        decode_stream(first) == decode_stream(second),
        unfinished(first) == unfinished(second),
        occurrences(decode_stream(first)->0, separator, lower_str(search)) == occurrences(
            decode_stream(second)->0,
            separator,
            lower_str(search),
        ),
        first.len() == second.len(),
{
}

} // verus!
