use crate::bytes::{
    all_digits, append_bytes, contains_name, copy_range, decimal_value, find_byte, find_last_byte,
    index_of, last_index_of, names_view, parse_decimal,
};
use crate::commit::GitCommit;
use crate::kvlm::{values_under, KvlmView};
use crate::repo::GitRepo;
use std::fmt::Write;
use vstd::prelude::*;

verus! {

/// A date as text: the moment `timestamp` seconds after the epoch, seen
/// `offset` seconds east of Greenwich, laid out as `layout` says in the
/// notation of the `chrono` crate. `None` where the crate refuses the moment,
/// the offset or the layout. The calendar is not written out here.
pub uninterp spec fn formatted_date(timestamp: int, offset: int, layout: Seq<char>) -> Option<
    Seq<u8>,
>;

/// Calls `chrono::DateTime::from_timestamp`, `FixedOffset::east_opt`,
/// `DateTime::with_timezone` and `DateTime::format`, and writes what the last
/// gives. The contract only names the outcome.
#[verifier::external_body]
pub(crate) fn format_date(timestamp: i64, offset: i32, layout: &str) -> (text: Option<Vec<u8>>)
    ensures
        match text {
            Some(t) => formatted_date(timestamp as int, offset as int, layout@) == Some(t@),
            None => formatted_date(timestamp as int, offset as int, layout@) is None,
        },
{
    let utc = chrono::DateTime::from_timestamp(timestamp, 0)?;
    let zone = chrono::FixedOffset::east_opt(offset)?;
    let mut text = String::new();
    write!(text, "{}", utc.with_timezone(&zone).format(layout)).ok()?;
    Some(text.into_bytes())
}

/// Who made a commit, and when.
#[derive(Debug, Clone, PartialEq, Eq)]
pub struct Author {
    /// The name and the address, as they stand in the header.
    pub identity: Vec<u8>,
    /// Seconds since the epoch.
    pub timestamp: i64,
    /// The time zone, in seconds east of Greenwich.
    pub offset: i32,
}

/// What an `Author` holds, as plain values.
pub struct AuthorView {
    pub identity: Seq<u8>,
    pub timestamp: int,
    pub offset: int,
}

impl View for Author {
    type V = AuthorView;

    open spec fn view(&self) -> AuthorView {
        AuthorView {
            identity: self.identity@,
            timestamp: self.timestamp as int,
            offset: self.offset as int,
        }
    }
}

/// One record of the history: a commit's address, its author where the header
/// can be read, and the first line of its message.
#[derive(Debug, Clone, PartialEq, Eq)]
pub struct LogRecord {
    pub sha: Vec<u8>,
    pub author: Option<Author>,
    pub message: Vec<u8>,
}

/// What a `LogRecord` holds, as plain values.
pub struct LogRecordView {
    pub sha: Seq<u8>,
    pub author: Option<AuthorView>,
    pub message: Seq<u8>,
}

impl View for LogRecord {
    type V = LogRecordView;

    open spec fn view(&self) -> LogRecordView {
        LogRecordView {
            sha: self.sha@,
            author: match self.author {
                Some(a) => Some(a@),
                None => None,
            },
            message: self.message@,
        }
    }
}

/// The number behind the sign of a time zone, where the text is an optional
/// sign and one to six digits.
pub open spec fn zone_digits(zone: Seq<u8>) -> Seq<u8> {
    if zone.len() > 0 && (zone[0] == 43 || zone[0] == 45) {
        zone.skip(1)
    } else {
        zone
    }
}

/// Whether a text is a time zone: an optional sign and one to six digits.
pub open spec fn valid_zone(zone: Seq<u8>) -> bool {
    1 <= zone_digits(zone).len() <= 6 && all_digits(zone_digits(zone))
}

/// The seconds east of Greenwich that a time zone stands for: its last two
/// digits are minutes and those before them hours. A zone of a day or more
/// counts as Greenwich.
pub open spec fn zone_offset(zone: Seq<u8>) -> int {
    let number = decimal_value(zone_digits(zone)) as int;
    let seconds = (number / 100) * 3600 + (number % 100) * 60;
    if seconds >= 86400 {
        0
    } else if zone.len() > 0 && zone[0] == 45 {
        -seconds
    } else {
        seconds
    }
}

/// What an `author` header holds: the time zone behind its last space, the
/// timestamp behind the space before, and the identity before that. `None`
/// where one of the three is missing or cannot be read.
pub open spec fn parsed_author(line: Seq<u8>) -> Option<AuthorView> {
    let second = last_index_of(line, 32u8);
    let head = line.take(second);
    let first = last_index_of(head, 32u8);
    let stamp = head.skip(first + 1);
    let zone = line.skip(second + 1);
    if second > 0 && first >= 0 && stamp.len() > 0 && all_digits(stamp) && decimal_value(stamp)
        <= i64::MAX && valid_zone(zone) {
        Some(
            AuthorView {
                identity: head.take(first),
                timestamp: decimal_value(stamp) as int,
                offset: zone_offset(zone),
            },
        )
    } else {
        None
    }
}

/// `author`.
pub open spec fn author_key() -> Seq<u8> {
    seq![97u8, 117u8, 116u8, 104u8, 111u8, 114u8]
}

/// `parent`.
pub open spec fn parent_key() -> Seq<u8> {
    seq![112u8, 97u8, 114u8, 101u8, 110u8, 116u8]
}

/// The first line of a text.
pub open spec fn first_line(text: Seq<u8>) -> Seq<u8> {
    text.take(index_of(text, 10u8))
}

/// The record of a commit.
pub open spec fn record_of(sha: Seq<u8>, kvlm: KvlmView) -> LogRecordView {
    LogRecordView {
        sha,
        author: match values_under(kvlm.headers, author_key()) {
            Some(values) => if values.len() > 0 {
                parsed_author(values[0])
            } else {
                None
            },
            None => None,
        },
        message: match kvlm.message {
            Some(m) => first_line(m),
            None => Seq::empty(),
        },
    }
}

/// The parents of a commit, in the order of their headers.
pub open spec fn parents_of(kvlm: KvlmView) -> Seq<Seq<u8>> {
    match values_under(kvlm.headers, parent_key()) {
        Some(values) => values,
        None => Seq::empty(),
    }
}

/// The layout of the date of a record.
pub open spec fn date_layout() -> Seq<char> {
    "%a %b %d %H:%M:%S %Y %z"@
}

/// A record as text: the address; the author and the date where the author
/// can be read and the date can be written; the first line of the message.
pub open spec fn record_text(record: LogRecordView, date: Option<Seq<u8>>) -> Seq<u8> {
    seq![99u8, 111u8, 109u8, 109u8, 105u8, 116u8, 58u8, 32u8] + record.sha + seq![10u8] + (
    match (record.author, date) {
        (Some(author), Some(d)) => seq![65u8, 117u8, 116u8, 104u8, 111u8, 114u8, 58u8, 32u8]
            + author.identity + seq![10u8, 68u8, 97u8, 116u8, 101u8, 58u8, 32u8, 32u8, 32u8] + d
            + seq![10u8, 10u8],
        _ => Seq::empty(),
    }) + seq![32u8, 32u8, 32u8] + record.message + seq![10u8, 10u8]
}

/// Reads a time zone.
fn parse_zone(zone: &[u8]) -> (offset: Option<i32>)
    ensures
        match offset {
            Some(o) => valid_zone(zone@) && o == zone_offset(zone@),
            None => !valid_zone(zone@),
        },
{
    let signed = zone.len() > 0 && (zone[0] == 43 || zone[0] == 45);
    let digits: &[u8] = if signed {
        &zone[1..zone.len()]
    } else {
        zone
    };
    assert(digits@ =~= zone_digits(zone@));
    if digits.len() < 1 || digits.len() > 6 {
        return None;
    }
    match parse_decimal(digits, 999999) {
        None => {
            proof {
                if all_digits(digits@) {
                    lemma_six_digits(digits@);
                }
            }
            None
        },
        Some(number) => {
            let seconds: u64 = (number / 100) * 3600 + (number % 100) * 60;
            if seconds >= 86400 {
                Some(0)
            } else if zone[0] == 45 {
                Some(-(seconds as i32))
            } else {
                Some(seconds as i32)
            }
        },
    }
}

/// Six digits stand for less than a million.
proof fn lemma_six_digits(digits: Seq<u8>)
    requires
        all_digits(digits),
        digits.len() <= 6,
    ensures
        decimal_value(digits) <= pow10(digits.len()) - 1,
        decimal_value(digits) <= 999999,
    decreases digits.len(),
{
    if digits.len() > 0 {
        let shorter = digits.drop_last();
        assert forall|i: int| 0 <= i < shorter.len() implies crate::bytes::is_digit(
            #[trigger] shorter[i],
        ) by {
            assert(shorter[i] == digits[i]);
        }
        lemma_six_digits(shorter);
        assert(crate::bytes::is_digit(digits[digits.len() - 1]));
    }
    reveal_with_fuel(pow10, 7);
}

/// Ten to the power of `n`.
pub open spec fn pow10(n: nat) -> nat
    decreases n,
{
    if n == 0 {
        1
    } else {
        10 * pow10((n - 1) as nat)
    }
}

/// Reads an `author` header.
pub fn parse_author(line: &[u8]) -> (author: Option<Author>)
    ensures
        match author {
            Some(a) => parsed_author(line@) == Some(a@),
            None => parsed_author(line@) is None,
        },
{
    assert(line@.take(line@.len() as int) =~= line@);
    let second = match find_last_byte(line, 32u8, line.len()) {
        Some(at) => at,
        None => {
            return None;
        },
    };
    if second == 0 {
        return None;
    }
    let first = match find_last_byte(line, 32u8, second) {
        Some(at) => at,
        None => {
            return None;
        },
    };
    let ghost head = line@.take(second as int);
    let stamp = &line[first + 1..second];
    assert(stamp@ =~= head.skip(first + 1));
    let zone = &line[second + 1..line.len()];
    assert(zone@ =~= line@.skip(second + 1));
    let timestamp = match parse_decimal(stamp, 9223372036854775807u64) {
        Some(t) => t,
        None => {
            return None;
        },
    };
    let offset = match parse_zone(zone) {
        Some(o) => o,
        None => {
            return None;
        },
    };
    let identity = copy_range(line, 0, first);
    assert(identity@ =~= head.take(first as int));
    Some(Author { identity, timestamp: timestamp as i64, offset })
}

impl GitRepo {
    /// The record of the commit at `sha`: its author, where the `author`
    /// header can be read, and the first line of its message.
    pub fn log_record(sha: &[u8], commit: &GitCommit) -> (record: LogRecord)
        requires
            commit.kvlm.wf(),
        ensures
            record@ == record_of(sha@, commit.kvlm@),
    {
        let key: [u8; 6] = [97u8, 117u8, 116u8, 104u8, 111u8, 114u8];
        assert(key@ =~= author_key());
        let author = match commit.kvlm.get(key.as_slice()) {
            Some(values) => {
                if values.len() > 0 {
                    assert(names_view(values@)[0] == values@[0]@);
                    parse_author(values[0].as_slice())
                } else {
                    None
                }
            },
            None => None,
        };
        let message = match commit.kvlm.message() {
            Some(m) => {
                let end = find_byte(m.as_slice(), 10u8, 0);
                let line = copy_range(m.as_slice(), 0, end);
                assert(line@ =~= first_line(m@));
                line
            },
            None => Vec::new(),
        };
        let id = copy_range(sha, 0, sha.len());
        assert(id@ =~= sha@);
        LogRecord { sha: id, author, message }
    }

    /// The date of a record as text, where the record has an author and the
    /// date can be written.
    pub fn log_date(record: &LogRecord) -> (date: Option<Vec<u8>>)
        ensures
            record_date(record@) == match date {
                Some(d) => Some(d@),
                None => None::<Seq<u8>>,
            },
    {
        match &record.author {
            Some(author) => format_date(
                author.timestamp,
                author.offset,
                "%a %b %d %H:%M:%S %Y %z",
            ),
            None => None,
        }
    }

    /// A record as text, with the date as it was written for it.
    pub fn log_entry(record: &LogRecord, date: Option<&Vec<u8>>) -> (text: Vec<u8>)
        ensures
            text@ == record_text(
                record@,
                match date {
                    Some(d) => Some(d@),
                    None => None,
                },
            ),
    {
        let mut text: Vec<u8> = Vec::new();
        let open: [u8; 8] = [99u8, 111u8, 109u8, 109u8, 105u8, 116u8, 58u8, 32u8];
        append_bytes(&mut text, open.as_slice());
        append_bytes(&mut text, record.sha.as_slice());
        text.push(10u8);
        let ghost head = text@;
        let ghost middle: Seq<u8>;
        match (&record.author, date) {
            (Some(author), Some(d)) => {
                let label: [u8; 8] = [65u8, 117u8, 116u8, 104u8, 111u8, 114u8, 58u8, 32u8];
                append_bytes(&mut text, label.as_slice());
                append_bytes(&mut text, author.identity.as_slice());
                let when: [u8; 9] = [10u8, 68u8, 97u8, 116u8, 101u8, 58u8, 32u8, 32u8, 32u8];
                append_bytes(&mut text, when.as_slice());
                append_bytes(&mut text, d.as_slice());
                text.push(10u8);
                text.push(10u8);
                proof {
                    middle = seq![65u8, 117u8, 116u8, 104u8, 111u8, 114u8, 58u8, 32u8]
                        + author.identity@ + seq![
                        10u8,
                        68u8,
                        97u8,
                        116u8,
                        101u8,
                        58u8,
                        32u8,
                        32u8,
                        32u8,
                    ] + d@ + seq![10u8, 10u8];
                    assert(text@ =~= head + middle);
                }
            },
            _ => {
                proof {
                    middle = Seq::empty();
                    assert(text@ =~= head + middle);
                }
            },
        }
        text.push(32u8);
        text.push(32u8);
        text.push(32u8);
        append_bytes(&mut text, record.message.as_slice());
        text.push(10u8);
        text.push(10u8);
        assert(head =~= seq![99u8, 111u8, 109u8, 109u8, 105u8, 116u8, 58u8, 32u8] + record.sha@
            + seq![10u8]);
        assert(text@ =~= head + middle + seq![32u8, 32u8, 32u8] + record.message@ + seq![
            10u8,
            10u8,
        ]);
        text
    }
}

/// The date of a commit as text, where its author can be read and the date
/// can be written.
pub open spec fn record_date(record: LogRecordView) -> Option<Seq<u8>> {
    match record.author {
        Some(author) => formatted_date(author.timestamp, author.offset, date_layout()),
        None => None,
    }
}

/// A walk through the history: the addresses still to be read, and the
/// addresses that were taken in.
#[derive(Debug, Clone, PartialEq, Eq)]
pub struct LogWalk {
    pending: Vec<Vec<u8>>,
    seen: Vec<Vec<u8>>,
}

/// A list turned round.
pub open spec fn reversed(list: Seq<Seq<u8>>) -> Seq<Seq<u8>> {
    Seq::new(list.len(), |i: int| list[list.len() - 1 - i])
}

/// The headers and message of a commit that was read, or nothing for an
/// address at which no commit could be read.
pub open spec fn commit_view(commit: Option<&GitCommit>) -> Option<KvlmView> {
    match commit {
        Some(c) => Some(c.kvlm@),
        None => None,
    }
}

/// What taking one address into the history comes to, for the addresses still
/// to be read, the addresses taken in, and the text written. An address that
/// was taken in before changes nothing. Any other address is taken in; where
/// a commit was read at it, the commit's record is written and its parents
/// are read next, the first parent first, before what was to be read.
pub open spec fn logged(
    sha: Seq<u8>,
    commit: Option<KvlmView>,
    pending: Seq<Seq<u8>>,
    seen: Seq<Seq<u8>>,
    output: Seq<u8>,
) -> (Seq<Seq<u8>>, Seq<Seq<u8>>, Seq<u8>) {
    if seen.contains(sha) {
        (pending, seen, output)
    } else {
        match commit {
            Some(kvlm) => (
                parents_of(kvlm) + pending,
                seen.push(sha),
                output + record_text(record_of(sha, kvlm), record_date(record_of(sha, kvlm))),
            ),
            None => (pending, seen.push(sha), output),
        }
    }
}

impl LogWalk {
    /// The addresses still to be read, the next one first.
    pub closed spec fn pending(&self) -> Seq<Seq<u8>> {
        reversed(names_view(self.pending@))
    }

    /// The addresses that were taken in, in the order in which they were.
    pub closed spec fn seen(&self) -> Seq<Seq<u8>> {
        names_view(self.seen@)
    }

    /// A walk that starts at one commit.
    pub fn new(start: Vec<u8>) -> (walk: Self)
        ensures
            walk.pending() == seq![start@],
            walk.seen() == Seq::<Seq<u8>>::empty(),
    {
        let mut pending: Vec<Vec<u8>> = Vec::new();
        pending.push(start);
        let walk = LogWalk { pending, seen: Vec::new() };
        assert(walk.pending() =~= seq![start@]);
        assert(walk.seen() =~= Seq::<Seq<u8>>::empty());
        walk
    }

    /// Whether an address was taken in.
    pub fn was_seen(&self, sha: &[u8]) -> (yes: bool)
        ensures
            yes == self.seen().contains(sha@),
    {
        contains_name(&self.seen, sha)
    }

    /// Takes the next address to be read off the walk. `None` where nothing
    /// is left.
    pub fn next(&mut self) -> (sha: Option<Vec<u8>>)
        ensures
            final(self).seen() == old(self).seen(),
            match sha {
                Some(s) => old(self).pending().len() > 0 && s@ == old(self).pending()[0]
                    && final(self).pending() == old(self).pending().skip(1),
                None => old(self).pending().len() == 0 && final(self).pending().len() == 0,
            },
    {
        let ghost before = names_view(self.pending@);
        match self.pending.pop() {
            Some(top) => {
                assert(names_view(self.pending@) =~= before.drop_last());
                assert(reversed(before.drop_last()) =~= reversed(before).skip(1));
                assert(top@ == reversed(before)[0]);
                Some(top)
            },
            None => None,
        }
    }

    /// Takes an address in, with the commit that was read at it, or with
    /// nothing where none could be read. Says whether the address was new:
    /// then it counts as taken in from now on, and the parents of the commit
    /// are read next, the first parent first. An address that was taken in
    /// before changes nothing.
    pub fn visit(&mut self, sha: &[u8], commit: Option<&GitCommit>) -> (fresh: bool)
        requires
            commit matches Some(c) ==> c.kvlm.wf(),
        ensures
            fresh == !old(self).seen().contains(sha@),
            final(self).pending() == logged(
                sha@,
                commit_view(commit),
                old(self).pending(),
                old(self).seen(),
                Seq::empty(),
            ).0,
            final(self).seen() == logged(
                sha@,
                commit_view(commit),
                old(self).pending(),
                old(self).seen(),
                Seq::empty(),
            ).1,
    {
        if self.was_seen(sha) {
            return false;
        }
        let ghost taken = self.seen();
        let id = copy_range(sha, 0, sha.len());
        assert(id@ =~= sha@);
        self.seen.push(id);
        assert(self.seen() =~= taken.push(sha@));
        let ghost stack = names_view(self.pending@);
        match commit {
            Some(c) => {
                let key: [u8; 6] = [112u8, 97u8, 114u8, 101u8, 110u8, 116u8];
                assert(key@ =~= parent_key());
                match c.kvlm.get(key.as_slice()) {
                    Some(parents) => {
                        let ghost all = names_view(parents@);
                        let mut i: usize = parents.len();
                        assert(names_view(self.pending@) =~= stack + reversed(all).take(0));
                        while i > 0
                            invariant
                                i <= parents@.len(),
                                all == names_view(parents@),
                                self.seen() == taken.push(sha@),
                                names_view(self.pending@) == stack + reversed(all).take(
                                    parents@.len() - i,
                                ),
                            decreases i,
                        {
                            let ghost now = names_view(self.pending@);
                            i = i - 1;
                            let parent = copy_range(parents[i].as_slice(), 0, parents[i].len());
                            assert(parent@ =~= parents@[i as int]@);
                            self.pending.push(parent);
                            assert(names_view(self.pending@) =~= now.push(parent@));
                            assert(reversed(all)[parents@.len() - 1 - i] == all[i as int]);
                            assert(now.push(parent@) =~= stack + reversed(all).take(
                                parents@.len() - i,
                            ));
                        }
                        assert(reversed(all).take(parents@.len() as int) =~= reversed(all));
                        assert(reversed(stack + reversed(all)) =~= all + reversed(stack));
                    },
                    None => {
                        assert(parents_of(c.kvlm@) + reversed(stack) =~= reversed(stack));
                    },
                }
            },
            None => {},
        }
        true
    }
}

impl GitRepo {
    /// Takes the address `sha` into the history, with the commit that was
    /// read at it, or with nothing where none could be read. For an address
    /// that the walk has taken in before, the walk and the output stay as
    /// they are. For any other, the address counts as taken in; the record of
    /// the commit is written behind `output`; and its parents are read next,
    /// the first parent first.
    pub fn log(sha: &[u8], commit: Option<&GitCommit>, seen: &mut LogWalk, output: &mut Vec<u8>)
        requires
            commit matches Some(c) ==> c.kvlm.wf(),
        ensures
            (final(seen).pending(), final(seen).seen(), final(output)@) == logged(
                sha@,
                commit_view(commit),
                old(seen).pending(),
                old(seen).seen(),
                old(output)@,
            ),
    {
        let fresh = seen.visit(sha, commit);
        if fresh {
            match commit {
                Some(c) => {
                    let record = GitRepo::log_record(sha, c);
                    let date = GitRepo::log_date(&record);
                    let text = GitRepo::log_entry(&record, date.as_ref());
                    append_bytes(output, text.as_slice());
                },
                None => {},
            }
        }
    }
}

} // verus!
