//! The log of a run: its columns, its rows, and the file that a day's rows go
//! into.
use crate::arithmetic;
use crate::double::Double;
use crate::setpoint;
use crate::text;
use vstd::prelude::*;

verus! {

/// The columns of the log.
pub const LOG_COLUMNS: [&'static str; 32] = [
    "Timestamp",
    "MagX",
    "MagY",
    "MagZ",
    "MagTotal",
    "SetX",
    "SetY",
    "SetZ",
    "SetTotal",
    "ErrX",
    "ErrY",
    "ErrZ",
    "OutX",
    "OutY",
    "OutZ",
    "KpX",
    "KiX",
    "KdX",
    "KpY",
    "KiY",
    "KdY",
    "KpZ",
    "KiZ",
    "KdZ",
    "Mag2X",
    "Mag2Y",
    "Mag2Z",
    "Mag2Total",
    "CmdX",
    "CmdY",
    "CmdZ",
    "TickMs",
];

/// What a series is named where it has no name.
pub const DEFAULT_SERIES: &'static str = "sensor_log";

/// Where a series goes that has no directory.
pub const DEFAULT_DIRECTORY: &'static str = "logs";

/// The names of the first `count` columns.
pub open spec fn column_names(count: int) -> Seq<Seq<char>>
    decreases count,
{
    if count <= 0 {
        Seq::empty()
    } else {
        column_names(count - 1).push(LOG_COLUMNS[count - 1]@)
    }
}

/// The first line of a log.
pub fn log_header() -> (result: String)
    ensures
        result@ == text::joined(column_names(32), ","@),
{
    let mut names: Vec<String> = Vec::new();
    let mut at: usize = 0;
    assert(text::texts(names@) =~= column_names(0));
    while at < 32
        invariant
            at <= 32,
            text::texts(names@) == column_names(at as int),
        decreases 32 - at,
    {
        let ghost before = names@;
        names.push(LOG_COLUMNS[at].to_owned());
        assert(text::texts(names@) =~= text::texts(before).push(LOG_COLUMNS[at as int]@));
        at = at + 1;
    }
    text::join(&names, ",")
}

/// The gains of one axis.
#[derive(Debug, Clone, Copy, PartialEq)]
pub struct Gains {
    pub kp: Double,
    pub ki: Double,
    pub kd: Double,
}

/// What one row records.
#[derive(Debug, Clone, Copy, PartialEq)]
pub struct Snapshot {
    pub filtered: [Double; 3],
    pub setpoints: [Double; 3],
    pub errors: [Double; 3],
    pub gains: [Gains; 3],
    pub outputs: [Double; 3],
    pub magson: [Double; 3],
    /// Where the ramp is headed, as opposed to the setpoints, which it has
    /// reached.
    pub commanded: [Double; 3],
    /// How long the tick took, in seconds.
    pub tick_seconds: Double,
}

/// The three components of a vector and its length, in two decimals each.
pub open spec fn vector_columns(vector: [Double; 3]) -> Seq<(Double, u8)> {
    seq![
        (vector[0], 2u8),
        (vector[1], 2u8),
        (vector[2], 2u8),
        (setpoint::length_of(vector@), 2u8),
    ]
}

pub open spec fn component_columns(vector: [Double; 3]) -> Seq<(Double, u8)> {
    seq![(vector[0], 2u8), (vector[1], 2u8), (vector[2], 2u8)]
}

pub open spec fn gain_columns(gains: Gains) -> Seq<(Double, u8)> {
    seq![(gains.kp, 3u8), (gains.ki, 3u8), (gains.kd, 3u8)]
}

impl Snapshot {
    /// The numbers of a row behind its timestamp, each with its count of
    /// decimals.
    pub open spec fn columns_of(self) -> Seq<(Double, u8)> {
        vector_columns(self.filtered) + vector_columns(self.setpoints) + component_columns(
            self.errors,
        ) + component_columns(self.outputs) + gain_columns(self.gains[0]) + gain_columns(
            self.gains[1],
        ) + gain_columns(self.gains[2]) + vector_columns(self.magson) + component_columns(
            self.commanded,
        ) + seq![
            (
                arithmetic::product(self.tick_seconds, Double { bits: 0x408f_4000_0000_0000 }),
                1u8,
            ),
        ]
    }

    /// The numbers of a row behind its timestamp, each with its count of
    /// decimals.
    pub fn columns(&self) -> (result: Vec<(Double, u8)>)
        ensures
            result@ == self.columns_of(),
    {
        let mut columns: Vec<(Double, u8)> = Vec::new();
        push_vector(&mut columns, self.filtered);
        push_vector(&mut columns, self.setpoints);
        push_components(&mut columns, self.errors);
        push_components(&mut columns, self.outputs);
        push_gains(&mut columns, self.gains[0]);
        push_gains(&mut columns, self.gains[1]);
        push_gains(&mut columns, self.gains[2]);
        push_vector(&mut columns, self.magson);
        push_components(&mut columns, self.commanded);
        columns.push((self.tick_seconds.times(Double::from_bits(0x408f_4000_0000_0000)), 1));
        assert(columns@ =~= self.columns_of());
        columns
    }
}

fn push_components(columns: &mut Vec<(Double, u8)>, vector: [Double; 3])
    ensures
        final(columns)@ == old(columns)@ + component_columns(vector),
{
    columns.push((vector[0], 2));
    columns.push((vector[1], 2));
    columns.push((vector[2], 2));
    assert(columns@ =~= old(columns)@ + component_columns(vector));
}

fn push_vector(columns: &mut Vec<(Double, u8)>, vector: [Double; 3])
    ensures
        final(columns)@ == old(columns)@ + vector_columns(vector),
{
    push_components(columns, vector);
    columns.push((setpoint::magnitude(vector), 2));
    assert(columns@ =~= old(columns)@ + vector_columns(vector));
}

fn push_gains(columns: &mut Vec<(Double, u8)>, gains: Gains)
    ensures
        final(columns)@ == old(columns)@ + gain_columns(gains),
{
    columns.push((gains.kp, 3));
    columns.push((gains.ki, 3));
    columns.push((gains.kd, 3));
    assert(columns@ =~= old(columns)@ + gain_columns(gains));
}

/// One row: the timestamp and the numbers as they are written.
pub fn snapshot_row(timestamp: &str, values: &Vec<String>) -> (result: String)
    ensures
        result@ == text::joined(seq![timestamp@] + text::texts(values@), ","@),
{
    let mut parts: Vec<String> = Vec::new();
    parts.push(timestamp.to_owned());
    let mut at: usize = 0;
    assert(text::texts(parts@) =~= seq![timestamp@] + text::texts(values@).take(0));
    while at < values.len()
        invariant
            at <= values.len(),
            text::texts(parts@) == seq![timestamp@] + text::texts(values@).take(at as int),
        decreases values.len() - at,
    {
        let ghost before = parts@;
        parts.push(values[at].as_str().to_owned());
        assert(text::texts(parts@) =~= text::texts(before).push(values@[at as int]@));
        assert(text::texts(values@).take(at + 1) =~= text::texts(values@).take(at as int).push(
            values@[at as int]@,
        ));
        assert(text::texts(parts@) =~= seq![timestamp@] + text::texts(values@).take(at + 1));
        at = at + 1;
    }
    assert(text::texts(values@).take(values@.len() as int) =~= text::texts(values@));
    text::join(&parts, ",")
}

/// That a text holds no comma.
pub open spec fn plain(text: Seq<char>) -> bool {
    forall|i: int| 0 <= i < text.len() ==> #[trigger] text[i] != ','
}

/// A row has one value for every column of the header, and reads back as its
/// values, as long as none of them holds a comma.
pub proof fn law_rows_fit_the_header(
    snapshot: Snapshot,
    timestamp: Seq<char>,
    values: Seq<Seq<char>>,
)
    requires
        values.len() == snapshot.columns_of().len(),
        plain(timestamp),
        forall|i: int| 0 <= i < values.len() ==> plain(#[trigger] values[i]),
    ensures
        snapshot.columns_of().len() + 1 == column_names(32).len(),
        text::split(text::joined(seq![timestamp] + values, ","@), ',') == seq![timestamp] + values,
{
    lemma_names(32);
    let parts = seq![timestamp] + values;
    assert forall|i: int| 0 <= i < parts.len() implies plain(#[trigger] parts[i]) by {
        if i > 0 {
            assert(parts[i] == values[i - 1]);
        }
    }
    lemma_joined_splits(parts);
}

proof fn lemma_names(count: int)
    requires
        count >= 0,
    ensures
        column_names(count).len() == count,
    decreases count,
{
    if count > 0 {
        lemma_names(count - 1);
    }
}

/// A text without a comma is one piece.
proof fn lemma_plain_find(part: Seq<char>)
    requires
        plain(part),
    ensures
        text::find(part, ',') == part.len(),
    decreases part.len(),
{
    if part.len() > 0 {
        assert(part[0] != ',');
        assert forall|i: int| 0 <= i < part.skip(1).len() implies #[trigger] part.skip(1)[i]
            != ',' by {
            assert(part.skip(1)[i] == part[i + 1]);
        }
        lemma_plain_find(part.skip(1));
    }
}

/// Where a comma is found does not depend on what follows it.
proof fn lemma_find_before(head: Seq<char>, tail: Seq<char>)
    requires
        text::find(head, ',') < head.len(),
    ensures
        text::find(head + tail, ',') == text::find(head, ','),
    decreases head.len(),
{
    text::lemma_find_bound(head, ',');
    assert((head + tail)[0] == head[0]);
    if head[0] != ',' {
        assert((head + tail).skip(1) =~= head.skip(1) + tail);
        text::lemma_find_bound(head.skip(1), ',');
        lemma_find_before(head.skip(1), tail);
    }
}

proof fn lemma_find_behind(head: Seq<char>, tail: Seq<char>)
    requires
        text::find(head, ',') == head.len(),
        tail.len() > 0,
        tail[0] == ',',
    ensures
        text::find(head + tail, ',') == head.len(),
    decreases head.len(),
{
    if head.len() == 0 {
        assert(head + tail =~= tail);
    } else {
        assert((head + tail)[0] == head[0]);
        assert((head + tail).skip(1) =~= head.skip(1) + tail);
        lemma_find_behind(head.skip(1), tail);
    }
}

/// One more part behind a comma is one more piece.
proof fn lemma_one_more(head: Seq<char>, part: Seq<char>)
    requires
        plain(part),
    ensures
        text::split(head + ","@ + part, ',') == text::split(head, ',').push(part),
    decreases head.len(),
{
    reveal_strlit(",");
    let all = head + ","@ + part;
    let rest = ","@ + part;
    assert(all =~= head + rest);
    text::lemma_find_bound(head, ',');
    let at = text::find(head, ',');
    if at < head.len() {
        lemma_find_before(head, rest);
        assert(all.take(at) =~= head.take(at));
        assert(all.skip(at + 1) =~= head.skip(at + 1) + ","@ + part);
        lemma_one_more(head.skip(at + 1), part);
        assert(text::split(all, ',') =~= text::split(head, ',').push(part));
    } else {
        lemma_find_behind(head, rest);
        assert(all.take(at) =~= head);
        assert(all.skip(at + 1) =~= part);
        lemma_plain_find(part);
        assert(text::split(part, ',') =~= seq![part]);
        assert(text::split(head, ',') =~= seq![head]);
        assert(text::split(all, ',') =~= seq![head] + seq![part]);
        assert(text::split(all, ',') =~= text::split(head, ',').push(part));
    }
}

proof fn lemma_joined_splits(parts: Seq<Seq<char>>)
    requires
        parts.len() > 0,
        forall|i: int| 0 <= i < parts.len() ==> plain(#[trigger] parts[i]),
    ensures
        text::split(text::joined(parts, ","@), ',') == parts,
    decreases parts.len(),
{
    if parts.len() == 1 {
        assert(plain(parts[0]));
        lemma_plain_find(parts[0]);
        assert(text::split(parts[0], ',') =~= parts);
    } else {
        let before = parts.drop_last();
        assert forall|i: int| 0 <= i < before.len() implies plain(#[trigger] before[i]) by {
            assert(before[i] == parts[i]);
        }
        lemma_joined_splits(before);
        assert(plain(parts[parts.len() - 1]));
        lemma_one_more(text::joined(before, ","@), parts.last());
        assert(before.push(parts.last()) =~= parts);
    }
}

/// The directory and the name of a series, out of the stem and the parent of the
/// path that names it.
pub fn series(stem: Option<&str>, parent: Option<&str>) -> (result: (String, String))
    ensures
        result.0@ == (match parent {
            Some(parent) => if parent@.len() > 0 {
                parent@
            } else {
                DEFAULT_DIRECTORY@
            },
            None => DEFAULT_DIRECTORY@,
        }),
        result.1@ == (match stem {
            Some(stem) => if stem@.len() > 0 {
                stem@
            } else {
                DEFAULT_SERIES@
            },
            None => DEFAULT_SERIES@,
        }),
{
    let directory: String = match parent {
        Some(parent) => if text::chars_of(parent).len() > 0 {
            parent.to_owned()
        } else {
            DEFAULT_DIRECTORY.to_owned()
        },
        None => DEFAULT_DIRECTORY.to_owned(),
    };
    let name: String = match stem {
        Some(stem) => if text::chars_of(stem).len() > 0 {
            stem.to_owned()
        } else {
            DEFAULT_SERIES.to_owned()
        },
        None => DEFAULT_SERIES.to_owned(),
    };
    (directory, name)
}

/// A calendar day.
#[derive(Debug, Clone, Copy, PartialEq, Eq, Structural)]
pub struct LogDay {
    pub year: i32,
    pub month: u8,
    pub day: u8,
}

/// How far a year lies from the year 0.
pub open spec fn year_size(year: int) -> nat {
    if year < 0 {
        (-year) as nat
    } else {
        year as nat
    }
}

/// A year in four digits, or in as many as it needs. One that is not of the years
/// from 0 to 9999 has a sign in front.
pub open spec fn year_text(year: int) -> Seq<char> {
    let size = year_size(year);
    let digits = if size < 10000 {
        text::padded(size, 4)
    } else {
        text::decimal(size)
    };
    if year < 0 {
        "-"@ + digits
    } else if year < 10000 {
        digits
    } else {
        "+"@ + digits
    }
}

fn print_year(year: i32) -> (result: String)
    ensures
        result@ == year_text(year as int),
{
    let size: u64 = if year < 0 {
        (-(year as i64)) as u64
    } else {
        year as u64
    };
    let digits: String = if size < 10000 {
        text::print_padded(size, 4)
    } else {
        text::print(size)
    };
    if 0 <= year && year < 10000 {
        return digits;
    }
    let mut result: String = if year < 0 {
        "-".to_owned()
    } else {
        "+".to_owned()
    };
    result.append(digits.as_str());
    result
}

/// The file that the rows of a day go into.
pub open spec fn file_of(series: Seq<char>, day: LogDay) -> Seq<char> {
    series + "_"@ + year_text(day.year as int) + "-"@ + text::padded(day.month as nat, 2) + "-"@
        + text::padded(day.day as nat, 2) + ".csv"@
}

/// The file that the rows of a day go into.
pub fn day_file(series: &str, day: LogDay) -> (result: String)
    requires
        day.month <= 12,
        day.day <= 31,
    ensures
        result@ == file_of(series@, day),
{
    let mut name: String = series.to_owned();
    name.append("_");
    name.append(print_year(day.year).as_str());
    name.append("-");
    name.append(text::print_padded(day.month as u64, 2).as_str());
    name.append("-");
    name.append(text::print_padded(day.day as u64, 2).as_str());
    name.append(".csv");
    name
}

/// Padding keeps a number that it has room for.
proof fn lemma_padded(value: nat, width: nat)
    ensures
        text::all_digits(text::padded(value, width)),
        text::padded(value, width).len() == width,
        width == 1 && value < 10 ==> text::digits_value(text::padded(value, width)) == value,
        width == 2 && value < 100 ==> text::digits_value(text::padded(value, width)) == value,
        width == 3 && value < 1000 ==> text::digits_value(text::padded(value, width)) == value,
        width == 4 && value < 10000 ==> text::digits_value(text::padded(value, width)) == value,
    decreases width,
{
    if width > 0 {
        let less = (width - 1) as nat;
        lemma_padded(value / 10, less);
        let digits = text::padded(value, width);
        assert(digits.drop_last() =~= text::padded(value / 10, less));
        assert forall|i: int| 0 <= i < digits.len() implies text::is_digit(#[trigger] digits[i]) by {
            if i < less {
                assert(digits[i] == text::padded(value / 10, less)[i]);
            }
        }
        if width == 1 {
            assert(text::digits_value(digits.drop_last()) == 0);
        }
    }
}

/// Each year has a text of its own.
proof fn lemma_years(left: int, right: int)
    requires
        year_text(left) == year_text(right),
    ensures
        left == right,
{
    reveal_strlit("-");
    reveal_strlit("+");
    let a = year_text(left);
    let b = year_text(right);
    lemma_padded(year_size(left), 4);
    lemma_padded(year_size(right), 4);
    text::law_decimal_reads_back(year_size(left));
    text::law_decimal_reads_back(year_size(right));
    assert(text::is_digit(a[0]) <==> 0 <= left < 10000);
    assert(text::is_digit(b[0]) <==> 0 <= right < 10000);
    if !(0 <= left < 10000) {
        assert(a[0] == '-' <==> left < 0);
        assert(b[0] == '-' <==> right < 0);
        let size = year_size(left);
        assert(a.skip(1) =~= (if size < 10000 {
            text::padded(size, 4)
        } else {
            text::decimal(size)
        }));
        let size = year_size(right);
        assert(b.skip(1) =~= (if size < 10000 {
            text::padded(size, 4)
        } else {
            text::decimal(size)
        }));
    }
}

/// Each day has a file of its own.
pub proof fn law_days_do_not_share_files(series: Seq<char>, left: LogDay, right: LogDay)
    requires
        left.month <= 12 && left.day <= 31,
        right.month <= 12 && right.day <= 31,
        file_of(series, left) == file_of(series, right),
    ensures
        left == right,
{
    reveal_strlit("_");
    reveal_strlit("-");
    reveal_strlit(".csv");
    let a = file_of(series, left);
    let b = file_of(series, right);
    let start = series.len() as int + 1;
    let end = a.len() as int;
    lemma_padded(left.month as nat, 2);
    lemma_padded(right.month as nat, 2);
    lemma_padded(left.day as nat, 2);
    lemma_padded(right.day as nat, 2);
    assert(a.subrange(start, end - 10) =~= year_text(left.year as int));
    assert(b.subrange(start, end - 10) =~= year_text(right.year as int));
    assert(a.subrange(end - 9, end - 7) =~= text::padded(left.month as nat, 2));
    assert(b.subrange(end - 9, end - 7) =~= text::padded(right.month as nat, 2));
    assert(a.subrange(end - 6, end - 4) =~= text::padded(left.day as nat, 2));
    assert(b.subrange(end - 6, end - 4) =~= text::padded(right.day as nat, 2));
    lemma_years(left.year as int, right.year as int);
}

/// Whether a row belongs into a new file: the day has changed.
pub fn day_changed(day: LogDay, today: LogDay) -> (result: bool)
    ensures
        result == (day != today),
{
    day.year != today.year || day.month != today.month || day.day != today.day
}

/// Whether a file gets a header: it is new, or empty. `length` is that of the
/// file that is there.
pub fn needs_header(length: Option<u64>) -> (result: bool)
    ensures
        result == (length is None || length->0 == 0),
{
    match length {
        Some(length) => length == 0,
        None => true,
    }
}

/// A row as it is written: it ends in a line feed.
pub fn terminated(line: &str) -> (result: String)
    ensures
        result@ == (if line@.len() > 0 && line@.last() == '\n' {
            line@
        } else {
            line@.push('\n')
        }),
{
    let characters: Vec<char> = text::chars_of(line);
    let mut result: String = line.to_owned();
    if !(characters.len() > 0 && characters[characters.len() - 1] == '\n') {
        result.push('\n');
    }
    result
}

} // verus!
