//! The entry log: one transition per line, read and written by this codec.
use vstd::prelude::*;

use crate::text::{
    lacks, lemma_split_join, lemma_split_single, lines_of, split_lines, split_on, split_text, LineError,
};
use crate::timestamp::{no_separators, parse_fits, timestamp_of, Timestamp, TimestampError};

verus! {

/// The second field of a line that ends tracking.
pub const END_SENTINEL: &'static str = "__END";

pub open spec fn end_sentinel() -> Seq<char> {
    seq!['_', '_', 'E', 'N', 'D']
}

/// Why a log line could not be read.
#[derive(Debug)]
pub enum ParseEntryError {
    MissingTime,
    MissingName,
    MissingAttendance,
    MissingWbs,
    ParseDatetime(TimestampError),
}

impl ParseEntryError {
    /// A short description for the user.
    pub fn message(&self) -> String {
        match self {
            ParseEntryError::MissingTime => String::from_str("missing time stamp"),
            ParseEntryError::MissingName => String::from_str("missing activity name"),
            ParseEntryError::MissingAttendance => String::from_str("missing attendance type"),
            ParseEntryError::MissingWbs => String::from_str("missing wbs"),
            ParseEntryError::ParseDatetime(_) => String::from_str("failed to parse time stamp"),
        }
    }
}

/// The start of tracking an activity, with what the catalog said of it then.
#[derive(Clone, Debug)]
pub struct ActivityStart {
    pub start: Timestamp,
    pub activity_name: String,
    pub attendance_type: String,
    pub description: String,
    pub wbs: String,
}

/// One line of the log.
#[derive(Clone, Debug)]
pub enum ActivityEntry {
    Start(ActivityStart),
    End(Timestamp),
}

pub struct StartView {
    pub start: Timestamp,
    pub activity_name: Seq<char>,
    pub attendance_type: Seq<char>,
    pub description: Seq<char>,
    pub wbs: Seq<char>,
}

pub enum EntryView {
    Start(StartView),
    End(Timestamp),
}

impl View for ActivityStart {
    type V = StartView;

    open spec fn view(&self) -> StartView {
        StartView {
            start: self.start,
            activity_name: self.activity_name@,
            attendance_type: self.attendance_type@,
            description: self.description@,
            wbs: self.wbs@,
        }
    }
}

impl View for ActivityEntry {
    type V = EntryView;

    open spec fn view(&self) -> EntryView {
        match self {
            ActivityEntry::Start(s) => EntryView::Start(s@),
            ActivityEntry::End(t) => EntryView::End(*t),
        }
    }
}

impl EntryView {
    pub open spec fn time_stamp(self) -> Timestamp {
        match self {
            EntryView::Start(s) => s.start,
            EntryView::End(t) => t,
        }
    }

    /// The entry can be written as a line and read back as itself.
    pub open spec fn well_formed(self) -> bool {
        match self {
            EntryView::End(t) => t.valid(),
            EntryView::Start(s) => {
                &&& s.start.valid()
                &&& field_ok(s.activity_name)
                &&& field_ok(s.attendance_type)
                &&& field_ok(s.wbs)
                &&& field_ok(s.description)
                &&& s.activity_name != end_sentinel()
            },
        }
    }
}

/// A text that can stand as one field of a line.
pub open spec fn field_ok(s: Seq<char>) -> bool {
    lacks(s, '\t') && lacks(s, '\n') && lacks(s, '\r')
}

/// The outcome of reading a line, with the error's payload left out.
pub enum LineReading {
    Entry(EntryView),
    MissingName,
    BadTimestamp,
    MissingAttendance,
    MissingWbs,
}

/// What a log line says. The first field is the timestamp and the second the
/// activity, or the end sentinel, after which nothing more is read; a start
/// needs an attendance type and a billing code, and its description is empty
/// where the line has none.
pub open spec fn read_line(line: Seq<char>) -> LineReading {
    let f = split_on(line, '\t');
    if f.len() < 2 {
        LineReading::MissingName
    } else {
        match timestamp_of(f[0]) {
            None => LineReading::BadTimestamp,
            Some(t) => if !t.valid() {
                LineReading::BadTimestamp
            } else if f[1] == end_sentinel() {
                LineReading::Entry(EntryView::End(t))
            } else if f.len() < 3 {
                LineReading::MissingAttendance
            } else if f.len() < 4 {
                LineReading::MissingWbs
            } else {
                LineReading::Entry(
                    EntryView::Start(
                        StartView {
                            start: t,
                            activity_name: f[1],
                            attendance_type: f[2],
                            wbs: f[3],
                            description: if f.len() >= 5 {
                                f[4]
                            } else {
                                Seq::<char>::empty()
                            },
                        },
                    ),
                )
            },
        }
    }
}

/// The result of reading `line` is as `read_line` says, with the timestamp's
/// own error where the timestamp is at fault.
pub open spec fn reading_fits(line: Seq<char>, r: Result<ActivityEntry, ParseEntryError>) -> bool {
    match r {
        Ok(e) => read_line(line) == LineReading::Entry(e@),
        Err(ParseEntryError::MissingName) => read_line(line) is MissingName,
        Err(ParseEntryError::MissingAttendance) => read_line(line) is MissingAttendance,
        Err(ParseEntryError::MissingWbs) => read_line(line) is MissingWbs,
        Err(ParseEntryError::ParseDatetime(te)) => read_line(line) is BadTimestamp && parse_fits(
            split_on(line, '\t')[0],
            Err(te),
        ),
        Err(ParseEntryError::MissingTime) => false,
    }
}

/// The line that records an entry.
pub open spec fn line_of(e: EntryView) -> Seq<char> {
    match e {
        EntryView::End(t) => t.text() + seq!['\t'] + end_sentinel(),
        EntryView::Start(s) => s.start.text() + seq!['\t'] + s.activity_name + seq!['\t']
            + s.attendance_type + seq!['\t'] + s.wbs + seq!['\t'] + s.description,
    }
}

impl ActivityStart {
    pub fn time_stamp(&self) -> (r: &Timestamp)
        ensures
            *r == self.start,
    {
        &self.start
    }

    pub fn attendance(&self) -> (r: &str)
        ensures
            r@ == self.attendance_type@,
    {
        self.attendance_type.as_str()
    }

    pub fn description(&self) -> (r: &str)
        ensures
            r@ == self.description@,
    {
        self.description.as_str()
    }

    pub fn wbs(&self) -> (r: &str)
        ensures
            r@ == self.wbs@,
    {
        self.wbs.as_str()
    }
}

impl ActivityEntry {
    pub fn time_stamp(&self) -> (r: &Timestamp)
        ensures
            *r == self@.time_stamp(),
    {
        match self {
            ActivityEntry::Start(activity_start) => &activity_start.start,
            ActivityEntry::End(end_time) => end_time,
        }
    }

    /// Reads one line of the log.
    pub fn from_str(s: &str) -> (r: Result<ActivityEntry, ParseEntryError>)
        ensures
            reading_fits(s@, r),
    {
        let fields = split_text(s, '\t');
        let ghost f = split_on(s@, '\t');
        proof {
            assert(fields@.len() == f.len());
        }
        if fields.len() < 2 {
            return Err(ParseEntryError::MissingName);
        }
        proof {
            assert(fields@[0]@ == f[0]);
            assert(fields@[1]@ == f[1]);
        }
        let time_stamp = match Timestamp::parse(fields[0].as_str()) {
            Ok(t) => t,
            Err(e) => {
                return Err(ParseEntryError::ParseDatetime(e));
            },
        };
        let sentinel = String::from_str(END_SENTINEL);
        proof {
            reveal_strlit("__END");
            assert(sentinel@ =~= end_sentinel());
        }
        if fields[1] == sentinel {
            return Ok(ActivityEntry::End(time_stamp));
        }
        if fields.len() < 3 {
            return Err(ParseEntryError::MissingAttendance);
        }
        if fields.len() < 4 {
            return Err(ParseEntryError::MissingWbs);
        }
        proof {
            assert(fields@[2]@ == f[2]);
            assert(fields@[3]@ == f[3]);
        }
        let description = if fields.len() >= 5 {
            proof {
                assert(fields@[4]@ == f[4]);
            }
            fields[4].clone()
        } else {
            String::new()
        };
        Ok(
            ActivityEntry::Start(
                ActivityStart {
                    start: time_stamp,
                    activity_name: fields[1].clone(),
                    attendance_type: fields[2].clone(),
                    description,
                    wbs: fields[3].clone(),
                },
            ),
        )
    }

    /// Writes the entry as one line of the log, without a line terminator.
    /// Reading that line gives back the entry, wherever it is well formed.
    pub fn to_line(&self) -> (r: String)
        requires
            self@.time_stamp().valid(),
        ensures
            r@ == line_of(self@),
            self@.well_formed() ==> read_line(r@) == LineReading::Entry(self@),
    {
        let ghost t = self@.time_stamp();
        let written = self.time_stamp().format();
        proof {
            if self@.well_formed() {
                lemma_line_round_trip(self@);
            }
        }
        match self {
            ActivityEntry::End(time) => {
                let r = written.concat("\t").concat(END_SENTINEL);
                proof {
                    reveal_strlit("\t");
                    reveal_strlit("__END");
                    assert(r@ =~= line_of(self@));
                }
                r
            },
            ActivityEntry::Start(s) => {
                let r = written.concat("\t").concat(s.activity_name.as_str()).concat(
                    "\t",
                ).concat(s.attendance_type.as_str()).concat("\t").concat(s.wbs.as_str()).concat(
                    "\t",
                ).concat(s.description.as_str());
                proof {
                    reveal_strlit("\t");
                    assert(r@ =~= line_of(self@));
                }
                r
            },
        }
    }
}

/// Every line before `k` reads as an entry.
pub open spec fn lines_read(lines: Seq<Seq<char>>, k: int) -> bool {
    forall|i: int| 0 <= i < k ==> (#[trigger] read_line(lines[i])) is Entry
}

/// `r` is what reading the log file owes, where `contents` is the file's text,
/// or nothing where the file does not exist.
pub open spec fn log_fits(
    contents: Option<Seq<char>>,
    r: Result<Vec<ActivityEntry>, LineError<ParseEntryError>>,
) -> bool {
    match contents {
        None => r is Ok && r->Ok_0@.len() == 0,
        Some(t) => text_log_fits(lines_of(t), r),
    }
}

/// `r` is what reading a log with these lines owes.
pub open spec fn text_log_fits(
    ls: Seq<Seq<char>>,
    r: Result<Vec<ActivityEntry>, LineError<ParseEntryError>>,
) -> bool {
    &&& (r is Ok <==> lines_read(ls, ls.len() as int))
    &&& match r {
        Ok(v) => v@.len() == ls.len() && forall|i: int|
            0 <= i < ls.len() ==> read_line(ls[i]) == LineReading::Entry(#[trigger] v@[i]@),
        Err(le) => 1 <= le.line <= ls.len() && lines_read(ls, le.line - 1) && reading_fits(
            ls[le.line - 1],
            Err(le.error),
        ),
    }
}

/// Reads the whole log: its entries in the order of the lines, or the first
/// line that cannot be read. A log that does not exist yet (`None`) holds no
/// entries.
pub fn entries_from_log(contents: Option<&str>) -> (r: Result<
    Vec<ActivityEntry>,
    LineError<ParseEntryError>,
>)
    ensures
        log_fits(
            match contents {
                Some(t) => Some(t@),
                None => None,
            },
            r,
        ),
{
    let text = match contents {
        None => {
            return Ok(Vec::new());
        },
        Some(text) => text,
    };
    let lines = split_lines(text);
    let ghost ls = lines_of(text@);
    proof {
        assert(lines@.len() == ls.len());
    }
    let mut entries: Vec<ActivityEntry> = Vec::new();
    let mut i: usize = 0;
    while i < lines.len()
        invariant
            contents == Some(text),
            ls == lines_of(text@),
            ls == lines@.map_values(|l: String| l@),
            i <= lines@.len(),
            entries@.len() == i,
            forall|j: int|
                0 <= j < i ==> read_line(ls[j]) == LineReading::Entry(#[trigger] entries@[j]@),
        decreases lines@.len() - i,
    {
        proof {
            assert(lines@[i as int]@ == ls[i as int]);
        }
        match ActivityEntry::from_str(lines[i].as_str()) {
            Ok(e) => {
                entries.push(e);
            },
            Err(error) => {
                proof {
                    assert forall|j: int| 0 <= j < i implies (#[trigger] read_line(ls[j])) is Entry by {
                        assert(read_line(ls[j]) == LineReading::Entry(entries@[j]@));
                    }
                    assert(!(read_line(ls[i as int]) is Entry));
                    assert(!lines_read(ls, ls.len() as int));
                    assert(lines_read(ls, i as int));
                }
                let r = Err(LineError { line: i + 1, error });
                assert(reading_fits(ls[r->Err_0.line - 1], Err(r->Err_0.error)));
                assert(text_log_fits(ls, r));
                return r;
            },
        }
        i = i + 1;
    }
    proof {
        assert forall|j: int| 0 <= j < ls.len() implies (#[trigger] read_line(ls[j])) is Entry by {
            assert(read_line(ls[j]) == LineReading::Entry(entries@[j]@));
        }
    }
    Ok(entries)
}

/// Reading the line that records a well-formed entry gives back that entry,
/// given what chrono's writer promises of the timestamp's text.
proof fn lemma_line_round_trip(e: EntryView)
    requires
        e.well_formed(),
        no_separators(e.time_stamp().text()),
        timestamp_of(e.time_stamp().text()) == Some(e.time_stamp()),
    ensures
        read_line(line_of(e)) == LineReading::Entry(e),
{
    let t = e.time_stamp();
    assert(lacks(t.text(), '\t')) by {
        assert(no_separators(t.text()));
    };
    match e {
        EntryView::End(t) => {
            lemma_split_single(t.text(), '\t');
            lemma_split_single(end_sentinel(), '\t');
            lemma_split_join(t.text(), '\t', end_sentinel());
            assert(split_on(line_of(e), '\t') =~= seq![t.text(), end_sentinel()]);
        },
        EntryView::Start(s) => {
            let d = s.description;
            let w = s.wbs;
            let a = s.attendance_type;
            let n = s.activity_name;
            let ts = t.text();
            lemma_split_single(ts, '\t');
            lemma_split_single(n, '\t');
            lemma_split_single(a, '\t');
            lemma_split_single(w, '\t');
            lemma_split_single(d, '\t');
            let s4 = w + seq!['\t'] + d;
            lemma_split_join(w, '\t', d);
            let s3 = a + seq!['\t'] + s4;
            lemma_split_join(a, '\t', s4);
            let s2 = n + seq!['\t'] + s3;
            lemma_split_join(n, '\t', s3);
            let s1 = ts + seq!['\t'] + s2;
            lemma_split_join(ts, '\t', s2);
            assert(line_of(e) =~= s1);
            assert(split_on(line_of(e), '\t') =~= seq![ts, n, a, w, d]);
        },
    }
}

} // verus!
