use vstd::prelude::*;

use crate::release::lemma_decimal_digits;
use crate::version::{all_digits, digit_value, digits_value, is_digit};
use crate::text::{
    chars_of, decimal, digit_char, lemma_decimal_nonempty, push_char, push_decimal, trim, trim_spec,
};

verus! {

/// `n` followed by a noun, in the plural unless `n` is one: "1 row", "2 rows".
pub open spec fn count_phrase(n: nat, noun: Seq<char>) -> Seq<char> {
    decimal(n) + " "@ + noun + if n == 1 {
        Seq::empty()
    } else {
        seq!['s']
    }
}

/// The badge of a table preview: its row count where known, and its column
/// count where there are columns, separated by a middle dot.
pub open spec fn count_badge(rows: Option<usize>, columns: usize) -> Seq<char> {
    match rows {
        Some(r) => if columns > 0 {
            count_phrase(r as nat, "row"@) + " \u{b7} "@ + count_phrase(columns as nat, "col"@)
        } else {
            count_phrase(r as nat, "row"@)
        },
        None => if columns > 0 {
            count_phrase(columns as nat, "col"@)
        } else {
            Seq::empty()
        },
    }
}

fn push_count(output: &mut String, n: usize, noun: &str)
    ensures
        final(output)@ == old(output)@ + count_phrase(n as nat, noun@),
{
    push_decimal(output, n as u64);
    output.append(" ");
    output.append(noun);
    if n != 1 {
        push_char(output, 's');
    } else {
        assert(output@ + Seq::<char>::empty() == output@);
    }
}

/// Summarises the size of a table: "42 rows · 1 col", "4 cols", "7 rows" or nothing.
pub fn database_count_badge(rows: Option<usize>, columns: usize) -> (badge: String)
    ensures
        badge@ == count_badge(rows, columns),
{
    let mut badge = String::new();
    match rows {
        Some(r) => {
            push_count(&mut badge, r, "row");
            if columns > 0 {
                badge.append(" \u{b7} ");
                push_count(&mut badge, columns, "col");
            }
        },
        None => {
            if columns > 0 {
                push_count(&mut badge, columns, "col");
            }
        },
    }
    badge
}

/// The badge is empty exactly when there is neither a row count nor a column.
pub proof fn lemma_badge_empty(rows: Option<usize>, columns: usize)
    ensures
        count_badge(rows, columns).len() == 0 <==> (rows is None && columns == 0),
{
    if let Some(r) = rows {
        lemma_decimal_nonempty(r as nat);
    }
    lemma_decimal_nonempty(columns as nat);
}

/// A count is read in the plural exactly when it is not one: the badge ends in
/// "s" unless its last count is one.
pub proof fn lemma_badge_plural(rows: Option<usize>, columns: usize)
    ensures
        columns > 0 ==> (count_badge(rows, columns).last() == 's' <==> columns != 1),
        rows is Some && columns == 0 ==> (count_badge(rows, columns).last() == 's' <==> rows->0
            != 1),
{
    reveal_strlit("row");
    reveal_strlit("col");
    reveal_strlit(" ");
    reveal_strlit(" \u{b7} ");
}

/// The whole seconds of a timestamp in microseconds; a negative one counts as zero.
pub open spec fn whole_seconds(micros: i64) -> nat {
    if micros < 0 {
        0
    } else {
        (micros / 1_000_000) as nat
    }
}

/// A timestamp as minutes and two-digit seconds, "2:05".
pub open spec fn clock_text(micros: i64) -> Seq<char> {
    let seconds = whole_seconds(micros);
    decimal(seconds / 60) + ":"@ + seq![digit_char((seconds % 60) / 10), digit_char(seconds % 10)]
}

fn push_clock(output: &mut String, micros: i64)
    ensures
        final(output)@ == old(output)@ + clock_text(micros),
{
    let seconds: u64 = if micros < 0 {
        0
    } else {
        (micros / 1_000_000) as u64
    };
    push_decimal(output, seconds / 60);
    output.append(":");
    let within: u64 = seconds % 60;
    push_char(output, ((within / 10) as u8 + 48) as char);
    push_char(output, ((seconds % 10) as u8 + 48) as char);
    proof {
        assert(seconds % 10 == within % 10);
    }
}

/// A clock text reads back as the timestamp's whole seconds (zero for a negative
/// one): minutes in decimal, a colon, then two digits of seconds below sixty.
pub proof fn lemma_clock_reads_back(micros: i64)
    ensures
        exists|minutes: Seq<char>, seconds: Seq<char>|
            {
                &&& clock_text(micros) == minutes + seq![':'] + seconds
                &&& seconds.len() == 2
                &&& all_digits(minutes) && all_digits(seconds)
                &&& digits_value(seconds) < 60
                &&& digits_value(minutes) * 60 + digits_value(seconds) == if micros < 0 {
                    0
                } else {
                    micros / 1_000_000
                }
            },
{
    reveal_strlit(":");
    let total = whole_seconds(micros);
    let minutes = decimal(total / 60);
    let x = total % 60;
    let seconds = seq![digit_char(x / 10), digit_char(x % 10)];
    lemma_decimal_digits(total / 60);
    assert(digit_value(digit_char(x / 10)) == x / 10);
    assert(digit_value(digit_char(x % 10)) == x % 10);
    assert(seconds.drop_last() == seq![digit_char(x / 10)]);
    let first = seq![digit_char(x / 10)];
    assert(first.drop_last() =~= Seq::<char>::empty());
    assert(digits_value(first.drop_last()) == 0);
    assert(first.last() == digit_char(x / 10));
    assert(digits_value(first) == x / 10);
    assert(seconds.last() == digit_char(x % 10));
    assert(digits_value(seconds) == (x / 10) * 10 + x % 10);
    assert((x / 10) * 10 + x % 10 == x);
    assert((total / 60) * 60 + total % 60 == total);
    assert(is_digit(digit_char(x / 10)) && is_digit(digit_char(x % 10)));
    assert(all_digits(seconds));
    assert(clock_text(micros) == minutes + seq![':'] + seconds);
}

/// The playback position and length of a medium, both in microseconds, as
/// "position/length" clock texts.
pub fn format_media_time(position: i64, duration: i64) -> (text: String)
    ensures
        text@ == clock_text(position) + "/"@ + clock_text(duration),
{
    let mut text = String::new();
    push_clock(&mut text, position);
    text.append("/");
    push_clock(&mut text, duration);
    text
}

/// The narrowest width a preview opens with.
pub const MIN_PREVIEW_WIDTH: i32 = 280;

/// The width a preview opens with: nine tenths of the space the window leaves
/// free, but no less than `MIN_PREVIEW_WIDTH`.
pub open spec fn preview_width(window_width: i32, occupied: i32) -> int {
    let share = (window_width - occupied) * 9 / 10;
    if share < MIN_PREVIEW_WIDTH {
        MIN_PREVIEW_WIDTH as int
    } else if share > i32::MAX {
        i32::MAX as int
    } else {
        share
    }
}

/// The width a new preview takes of the window's free space.
pub fn preview_width_for_empty_space(window_width: i32, occupied: i32) -> (width: i32)
    ensures
        width == preview_width(window_width, occupied),
{
    if window_width <= occupied {
        return MIN_PREVIEW_WIDTH;
    }
    let free: i64 = window_width as i64 - occupied as i64;
    let share: i64 = free * 9 / 10;
    if share < MIN_PREVIEW_WIDTH as i64 {
        MIN_PREVIEW_WIDTH
    } else if share > i32::MAX as i64 {
        i32::MAX
    } else {
        share as i32
    }
}


/// How a table cell shows one character: a line break as a visible return
/// symbol, a carriage return not at all.
pub open spec fn flatten_char(c: char) -> Seq<char> {
    if c == '\n' {
        " \u{23ce} "@
    } else if c == '\r' {
        Seq::empty()
    } else {
        seq![c]
    }
}

/// A cell value on one line.
pub open spec fn flatten_text(value: Seq<char>) -> Seq<char>
    decreases value.len(),
{
    if value.len() == 0 {
        Seq::empty()
    } else {
        flatten_text(value.drop_last()) + flatten_char(value.last())
    }
}

/// The most characters of a cell value that a table shows.
pub const MAX_CELL_CHARS: usize = 200;

/// A cell value as a table shows it: on one line, and cut after
/// `MAX_CELL_CHARS` characters with an ellipsis.
pub open spec fn cell_display(value: Seq<char>) -> Seq<char> {
    let flat = flatten_text(value);
    if flat.len() > MAX_CELL_CHARS {
        flat.take(MAX_CELL_CHARS as int).push('\u{2026}')
    } else {
        flat
    }
}

/// Formats a database value for a table cell.
pub fn format_database_cell(value: &str) -> (display: String)
    ensures
        display@ == cell_display(value@),
{
    let mut flat = String::new();
    for c in it: value.chars()
        invariant
            it.seq() == value@,
            flat@ == flatten_text(value@.take(it.index() as int)),
    {
        proof {
            assert(value@.take(it.index() + 1).drop_last() == value@.take(it.index() as int));
        }
        if c == '\n' {
            flat.append(" \u{23ce} ");
        } else if c == '\r' {
            assert(flat@ + Seq::<char>::empty() == flat@);
        } else {
            push_char(&mut flat, c);
        }
    }
    proof {
        assert(value@.take(value@.len() as int) == value@);
    }
    if flat.as_str().unicode_len() > MAX_CELL_CHARS {
        let mut display = String::from_str(flat.as_str().substring_char(0, MAX_CELL_CHARS));
        push_char(&mut display, '\u{2026}');
        display
    } else {
        flat
    }
}

/// A shown cell never spans lines nor exceeds `MAX_CELL_CHARS` characters and the
/// ellipsis.
pub proof fn lemma_cell_display_one_line(value: Seq<char>)
    ensures
        cell_display(value).len() <= MAX_CELL_CHARS + 1,
        forall|i: int|
            0 <= i < cell_display(value).len() ==> #[trigger] cell_display(value)[i] != '\n'
                && cell_display(value)[i] != '\r',
{
    lemma_flatten_one_line(value);
}

/// A cut cell shows the beginning of the value: its first `MAX_CELL_CHARS`
/// characters on one line, then an ellipsis; a value that fits is shown whole.
pub proof fn lemma_cell_keeps_beginning(value: Seq<char>)
    ensures
        flatten_text(value).len() <= MAX_CELL_CHARS ==> cell_display(value) == flatten_text(value),
        flatten_text(value).len() > MAX_CELL_CHARS ==> {
            &&& cell_display(value).len() == MAX_CELL_CHARS + 1
            &&& cell_display(value).last() == '\u{2026}'
            &&& cell_display(value).drop_last().is_prefix_of(flatten_text(value))
        },
{
    let flat = flatten_text(value);
    if flat.len() > MAX_CELL_CHARS {
        assert(cell_display(value).drop_last() == flat.take(MAX_CELL_CHARS as int));
        assert(flat.take(MAX_CELL_CHARS as int) == flat.subrange(0, MAX_CELL_CHARS as int));
    }
}

/// A value without line breaks or carriage returns is shown as it is, when it fits.
pub proof fn lemma_flatten_plain(value: Seq<char>)
    requires
        forall|i: int| 0 <= i < value.len() ==> #[trigger] value[i] != '\n' && value[i] != '\r',
    ensures
        flatten_text(value) == value,
    decreases value.len(),
{
    if value.len() > 0 {
        lemma_flatten_plain(value.drop_last());
        assert(value.drop_last().push(value.last()) == value);
    }
}

proof fn lemma_flatten_one_line(value: Seq<char>)
    ensures
        forall|i: int|
            0 <= i < flatten_text(value).len() ==> #[trigger] flatten_text(value)[i] != '\n'
                && flatten_text(value)[i] != '\r',
    decreases value.len(),
{
    if value.len() > 0 {
        lemma_flatten_one_line(value.drop_last());
        reveal_strlit(" \u{23ce} ");
        let head = flatten_text(value.drop_last());
        let tail = flatten_char(value.last());
        assert forall|i: int| 0 <= i < flatten_text(value).len() implies #[trigger] flatten_text(
            value,
        )[i] != '\n' && flatten_text(value)[i] != '\r' by {
            if i < head.len() {
                assert(flatten_text(value)[i] == head[i]);
            } else {
                assert(flatten_text(value)[i] == tail[i - head.len()]);
            }
        }
    }
}


/// `c` in upper case where it is an ASCII letter.
pub open spec fn ascii_upper(c: char) -> char {
    if 'a' <= c && c <= 'z' {
        ((c as u8) - 32) as u8 as char
    } else {
        c
    }
}

pub open spec fn ascii_upper_text(text: Seq<char>) -> Seq<char> {
    text.map_values(|c: char| ascii_upper(c))
}

/// `part` occurs in `text`.
pub open spec fn contains_text(text: Seq<char>, part: Seq<char>) -> bool {
    exists|i: int| 0 <= i <= text.len() - part.len() && #[trigger] text.subrange(i, i + part.len()) == part
}

/// The type affinity SQLite gives a column declared with type `decl` (a type
/// without a name counts as none).
#[derive(Clone, Copy, Debug, PartialEq, Eq, Structural)]
pub enum ColumnAffinity {
    Integer,
    Text,
    Blob,
    Real,
    Numeric,
}

/// SQLite's rules for the affinity of a declared column type, read in order:
/// `INT` gives integer; `CHAR`, `CLOB` or `TEXT` text; `BLOB` or no type blob;
/// `REAL`, `FLOA` or `DOUB` real; anything else numeric. Letters match in any case.
pub open spec fn column_affinity(decl: Seq<char>) -> ColumnAffinity {
    let name = ascii_upper_text(trim_spec(decl));
    if contains_text(name, "INT"@) {
        ColumnAffinity::Integer
    } else if contains_text(name, "CHAR"@) || contains_text(name, "CLOB"@) || contains_text(
        name,
        "TEXT"@,
    ) {
        ColumnAffinity::Text
    } else if contains_text(name, "BLOB"@) || name.len() == 0 {
        ColumnAffinity::Blob
    } else if contains_text(name, "REAL"@) || contains_text(name, "FLOA"@) || contains_text(
        name,
        "DOUB"@,
    ) {
        ColumnAffinity::Real
    } else {
        ColumnAffinity::Numeric
    }
}

fn upper_chars(text: &str) -> (upper: Vec<char>)
    ensures
        upper@ == ascii_upper_text(text@),
{
    let chars = chars_of(text);
    let mut upper: Vec<char> = Vec::new();
    let mut i: usize = 0;
    while i < chars.len()
        invariant
            i <= chars@.len(),
            chars@ == text@,
            upper@ == ascii_upper_text(text@).take(i as int),
        decreases chars@.len() - i,
    {
        let c = chars[i];
        let u = if 'a' <= c && c <= 'z' {
            ((c as u8) - 32) as char
        } else {
            c
        };
        upper.push(u);
        proof {
            assert(ascii_upper_text(text@).take(i + 1) == ascii_upper_text(text@).take(
                i as int,
            ).push(ascii_upper(c)));
        }
        i = i + 1;
    }
    assert(ascii_upper_text(text@).take(chars@.len() as int) == ascii_upper_text(text@));
    upper
}

/// Whether `part` occurs in `text`.
fn contains_chars(text: &Vec<char>, part: &str) -> (found: bool)
    ensures
        found == contains_text(text@, part@),
{
    let p = chars_of(part);
    if p.len() == 0 {
        assert(text@.subrange(0, 0 + part@.len() as int) == part@);
        return true;
    }
    if p.len() > text.len() {
        return false;
    }
    let last = text.len() - p.len();
    let mut i: usize = 0;
    while i <= last
        invariant
            0 < p@.len() <= text@.len(),
            text@.len() <= usize::MAX,
            last == text@.len() - p@.len(),
            i <= last + 1,
            p@ == part@,
            forall|j: int| 0 <= j < i ==> #[trigger] text@.subrange(j, j + p@.len()) != p@,
        decreases last + 1 - i,
    {
        let mut k: usize = 0;
        while k < p.len() && text[i + k] == p[k]
            invariant
                i <= last,
                0 < p@.len() <= text@.len(),
                text@.len() <= usize::MAX,
                last == text@.len() - p@.len(),
                k <= p@.len(),
                text@.subrange(i as int, i + k) == p@.take(k as int),
            decreases p@.len() - k,
        {
            assert(text@.subrange(i as int, i + k + 1) == p@.take(k + 1));
            k = k + 1;
        }
        if k == p.len() {
            assert(p@.take(k as int) == p@);
            return true;
        }
        assert(text@.subrange(i as int, i + p@.len())[k as int] != p@[k as int]);
        i = i + 1;
    }
    false
}

/// The affinity SQLite gives a column declared with the type `decl`.
pub fn declared_affinity(decl: &str) -> (affinity: ColumnAffinity)
    ensures
        affinity == column_affinity(decl@),
{
    let trimmed = trim(decl);
    let name = upper_chars(trimmed.as_str());
    if contains_chars(&name, "INT") {
        ColumnAffinity::Integer
    } else if contains_chars(&name, "CHAR") || contains_chars(&name, "CLOB") || contains_chars(
        &name,
        "TEXT",
    ) {
        ColumnAffinity::Text
    } else if contains_chars(&name, "BLOB") || name.len() == 0 {
        ColumnAffinity::Blob
    } else if contains_chars(&name, "REAL") || contains_chars(&name, "FLOA") || contains_chars(
        &name,
        "DOUB",
    ) {
        ColumnAffinity::Real
    } else {
        ColumnAffinity::Numeric
    }
}

/// Whether a column of the declared type holds numbers, so that its cells align
/// to the right: integer, real and numeric affinity.
pub fn declares_numeric_affinity(decl: &str) -> (numeric: bool)
    ensures
        numeric == (column_affinity(decl@) != ColumnAffinity::Text && column_affinity(decl@)
            != ColumnAffinity::Blob),
{
    match declared_affinity(decl) {
        ColumnAffinity::Integer | ColumnAffinity::Real | ColumnAffinity::Numeric => true,
        ColumnAffinity::Text | ColumnAffinity::Blob => false,
    }
}

/// Whether a column is declared as holding binary data: a named type of blob affinity.
pub fn declares_blob(decl: &str) -> (blob: bool)
    ensures
        blob == (column_affinity(decl@) == ColumnAffinity::Blob && trim_spec(decl@).len() > 0),
{
    let trimmed = trim(decl);
    let affinity = declared_affinity(decl);
    affinity == ColumnAffinity::Blob && trimmed.as_str().unicode_len() > 0
}


/// Where a CSV reader stands within a field.
#[derive(Clone, Copy, Debug, PartialEq, Eq, Structural)]
pub enum CsvMode {
    /// Outside quotes.
    Unquoted,
    /// Inside a quoted field.
    Quoted,
    /// Just after a quote inside a quoted field: either the closing quote or the
    /// first half of a doubled one.
    QuoteSeen,
}

/// What a CSV reader knows after some prefix of the text: the records it has
/// finished, the fields of the record it is in, the field it is in, and whether
/// that field was opened by a quote.
#[verifier::ext_equal]
pub struct CsvScan {
    pub records: Seq<Seq<Seq<char>>>,
    pub fields: Seq<Seq<char>>,
    pub field: Seq<char>,
    pub mode: CsvMode,
    pub field_quoted: bool,
}

pub open spec fn csv_start() -> CsvScan {
    CsvScan {
        records: Seq::empty(),
        fields: Seq::empty(),
        field: Seq::empty(),
        mode: CsvMode::Unquoted,
        field_quoted: false,
    }
}

/// The end of a line outside quotes: the record is finished, unless the line was
/// blank.
pub open spec fn csv_end_record(scan: CsvScan) -> CsvScan {
    if scan.fields.len() == 0 && scan.field.len() == 0 && !scan.field_quoted {
        CsvScan { mode: CsvMode::Unquoted, ..scan }
    } else {
        CsvScan {
            records: scan.records.push(scan.fields.push(scan.field)),
            fields: Seq::empty(),
            field: Seq::empty(),
            mode: CsvMode::Unquoted,
            field_quoted: false,
        }
    }
}

/// One character outside quotes: a quote that opens a field, a field separator,
/// a line end, a carriage return (dropped) or a character of the field.
pub open spec fn csv_step_unquoted(scan: CsvScan, c: char) -> CsvScan {
    if c == '"' && scan.field.len() == 0 && !scan.field_quoted {
        CsvScan { mode: CsvMode::Quoted, field_quoted: true, ..scan }
    } else if c == ',' {
        CsvScan {
            fields: scan.fields.push(scan.field),
            field: Seq::empty(),
            mode: CsvMode::Unquoted,
            field_quoted: false,
            ..scan
        }
    } else if c == '\n' {
        csv_end_record(scan)
    } else if c == '\r' {
        CsvScan { mode: CsvMode::Unquoted, ..scan }
    } else {
        CsvScan { field: scan.field.push(c), mode: CsvMode::Unquoted, ..scan }
    }
}

/// One character of CSV text: inside quotes everything belongs to the field and a
/// doubled quote stands for one quote.
pub open spec fn csv_step(scan: CsvScan, c: char) -> CsvScan {
    match scan.mode {
        CsvMode::Quoted => if c == '"' {
            CsvScan { mode: CsvMode::QuoteSeen, ..scan }
        } else {
            CsvScan { field: scan.field.push(c), ..scan }
        },
        CsvMode::QuoteSeen => if c == '"' {
            CsvScan { field: scan.field.push('"'), mode: CsvMode::Quoted, ..scan }
        } else {
            csv_step_unquoted(scan, c)
        },
        CsvMode::Unquoted => csv_step_unquoted(scan, c),
    }
}

pub open spec fn csv_scan(text: Seq<char>) -> CsvScan
    decreases text.len(),
{
    if text.len() == 0 {
        csv_start()
    } else {
        csv_step(csv_scan(text.drop_last()), text.last())
    }
}

/// The records of CSV text, in order; the end of the text ends the last record.
pub open spec fn csv_records(text: Seq<char>) -> Seq<Seq<Seq<char>>> {
    csv_end_record(csv_scan(text)).records
}

/// A field written between quotes, each quote inside it doubled.
pub open spec fn quote_escaped(field: Seq<char>) -> Seq<char>
    decreases field.len(),
{
    if field.len() == 0 {
        Seq::empty()
    } else {
        quote_escaped(field.drop_last()) + if field.last() == '"' {
            seq!['"', '"']
        } else {
            seq![field.last()]
        }
    }
}

pub open spec fn quoted_field(field: Seq<char>) -> Seq<char> {
    seq!['"'] + quote_escaped(field) + seq!['"']
}

/// A record written as quoted fields separated by commas.
pub open spec fn quoted_record(fields: Seq<Seq<char>>) -> Seq<char>
    decreases fields.len(),
{
    if fields.len() == 0 {
        Seq::empty()
    } else if fields.len() == 1 {
        quoted_field(fields[0])
    } else {
        quoted_record(fields.drop_last()) + seq![','] + quoted_field(fields.last())
    }
}

/// A table written as quoted records separated by line ends.
pub open spec fn quoted_table(records: Seq<Seq<Seq<char>>>) -> Seq<char>
    decreases records.len(),
{
    if records.len() == 0 {
        Seq::empty()
    } else if records.len() == 1 {
        quoted_record(records[0])
    } else {
        quoted_table(records.drop_last()) + seq!['\n'] + quoted_record(records.last())
    }
}

/// The state after reading `text` from the state `scan`.
pub open spec fn csv_scan_from(scan: CsvScan, text: Seq<char>) -> CsvScan
    decreases text.len(),
{
    if text.len() == 0 {
        scan
    } else {
        csv_step(csv_scan_from(scan, text.drop_last()), text.last())
    }
}

proof fn lemma_scan_from_start(text: Seq<char>)
    ensures
        csv_scan(text) == csv_scan_from(csv_start(), text),
    decreases text.len(),
{
    if text.len() > 0 {
        lemma_scan_from_start(text.drop_last());
    }
}

proof fn lemma_scan_concat(scan: CsvScan, a: Seq<char>, b: Seq<char>)
    ensures
        csv_scan_from(scan, a + b) == csv_scan_from(csv_scan_from(scan, a), b),
    decreases b.len(),
{
    if b.len() == 0 {
        assert(a + b == a);
    } else {
        lemma_scan_concat(scan, a, b.drop_last());
        assert((a + b).drop_last() == a + b.drop_last());
        assert((a + b).last() == b.last());
    }
}

proof fn lemma_scan_two(scan: CsvScan, x: char, y: char)
    ensures
        csv_scan_from(scan, seq![x, y]) == csv_step(csv_step(scan, x), y),
{
    lemma_scan_one(scan, x);
    assert(seq![x, y].drop_last() == seq![x]);
    assert(seq![x, y].last() == y);
}

proof fn lemma_scan_one(scan: CsvScan, x: char)
    ensures
        csv_scan_from(scan, seq![x]) == csv_step(scan, x),
{
    assert(seq![x].drop_last() == Seq::<char>::empty());
    assert(seq![x].last() == x);
    assert(csv_scan_from(scan, Seq::<char>::empty()) == scan);
}

/// Inside quotes, the escaped text of a field adds exactly the field.
proof fn lemma_scan_escaped(scan: CsvScan, field: Seq<char>)
    requires
        scan.mode == CsvMode::Quoted,
    ensures
        csv_scan_from(scan, quote_escaped(field)) == (CsvScan { field: scan.field + field, ..scan }),
    decreases field.len(),
{
    if field.len() == 0 {
        assert(scan.field + field == scan.field);
        assert(csv_scan_from(scan, quote_escaped(field)) == scan);
    } else {
        let head = field.drop_last();
        let c = field.last();
        lemma_scan_escaped(scan, head);
        let mid = CsvScan { field: scan.field + head, ..scan };
        let piece = if c == '"' {
            seq!['"', '"']
        } else {
            seq![c]
        };
        lemma_scan_concat(scan, quote_escaped(head), piece);
        if c == '"' {
            lemma_scan_two(mid, '"', '"');
        } else {
            lemma_scan_one(mid, c);
        }
        assert((scan.field + head).push(c) == scan.field + field);
    }
}

/// No field in progress, outside quotes.
pub open spec fn csv_between_fields(scan: CsvScan) -> bool {
    scan.mode == CsvMode::Unquoted && scan.field.len() == 0 && !scan.field_quoted
}

proof fn lemma_scan_quoted_field(scan: CsvScan, field: Seq<char>)
    requires
        csv_between_fields(scan),
    ensures
        csv_scan_from(scan, quoted_field(field)) == (CsvScan {
            field: field,
            mode: CsvMode::QuoteSeen,
            field_quoted: true,
            ..scan
        }),
{
    let opened = CsvScan { mode: CsvMode::Quoted, field_quoted: true, ..scan };
    lemma_scan_one(scan, '"');
    assert(csv_step(scan, '"') == opened);
    lemma_scan_escaped(opened, field);
    assert(opened.field + field == field);
    let filled = CsvScan { field: field, ..opened };
    lemma_scan_one(filled, '"');
    lemma_scan_concat(scan, seq!['"'], quote_escaped(field));
    lemma_scan_concat(scan, seq!['"'] + quote_escaped(field), seq!['"']);
}

proof fn lemma_scan_quoted_record(scan: CsvScan, fields: Seq<Seq<char>>)
    requires
        csv_between_fields(scan),
        fields.len() > 0,
    ensures
        csv_scan_from(scan, quoted_record(fields)) == (CsvScan {
            records: scan.records,
            fields: scan.fields + fields.drop_last(),
            field: fields.last(),
            mode: CsvMode::QuoteSeen,
            field_quoted: true,
        }),
    decreases fields.len(),
{
    if fields.len() == 1 {
        lemma_scan_quoted_field(scan, fields[0]);
        assert(scan.fields + fields.drop_last() == scan.fields);
    } else {
        let head = fields.drop_last();
        lemma_scan_quoted_record(scan, head);
        let before = csv_scan_from(scan, quoted_record(head));
        let between = CsvScan {
            records: scan.records,
            fields: scan.fields + head.drop_last() + seq![head.last()],
            field: Seq::empty(),
            mode: CsvMode::Unquoted,
            field_quoted: false,
        };
        lemma_scan_one(before, ',');
        assert(before.fields.push(before.field) == scan.fields + head.drop_last() + seq![head.last()]);
        assert(csv_step(before, ',') == between);
        lemma_scan_quoted_field(between, fields.last());
        lemma_scan_concat(scan, quoted_record(head), seq![',']);
        lemma_scan_concat(scan, quoted_record(head) + seq![','], quoted_field(fields.last()));
        assert(head.drop_last().push(head.last()) == head);
        assert(scan.fields + head.drop_last() + seq![head.last()] == scan.fields + fields.drop_last());
    }
}

proof fn lemma_scan_quoted_table(scan: CsvScan, records: Seq<Seq<Seq<char>>>)
    requires
        csv_between_fields(scan),
        scan.fields.len() == 0,
        records.len() > 0,
        forall|i: int| 0 <= i < records.len() ==> #[trigger] records[i].len() > 0,
    ensures
        csv_scan_from(scan, quoted_table(records)) == (CsvScan {
            records: scan.records + records.drop_last(),
            fields: records.last().drop_last(),
            field: records.last().last(),
            mode: CsvMode::QuoteSeen,
            field_quoted: true,
        }),
    decreases records.len(),
{
    if records.len() == 1 {
        lemma_scan_quoted_record(scan, records[0]);
        assert(scan.records + records.drop_last() == scan.records);
        assert(scan.fields + records[0].drop_last() == records[0].drop_last());
    } else {
        let head = records.drop_last();
        assert forall|i: int| 0 <= i < head.len() implies #[trigger] head[i].len() > 0 by {
            assert(head[i] == records[i]);
        }
        lemma_scan_quoted_table(scan, head);
        let before = csv_scan_from(scan, quoted_table(head));
        let last_done = head.last();
        assert(last_done == records[records.len() - 2]);
        assert(last_done.drop_last().push(last_done.last()) == last_done);
        let between = CsvScan {
            records: scan.records + head,
            fields: Seq::empty(),
            field: Seq::empty(),
            mode: CsvMode::Unquoted,
            field_quoted: false,
        };
        lemma_scan_one(before, '\n');
        assert(scan.records + head.drop_last() + seq![last_done] == scan.records + head);
        assert((scan.records + head.drop_last()).push(last_done) == scan.records + head);
        assert(csv_step(before, '\n') == between);
        let last = records.last();
        assert(last == records[records.len() - 1]);
        lemma_scan_quoted_record(between, last);
        assert(between.fields + last.drop_last() == last.drop_last());
        lemma_scan_concat(scan, quoted_table(head), seq!['\n']);
        lemma_scan_concat(scan, quoted_table(head) + seq!['\n'], quoted_record(last));
    }
}

/// Reading a table whose fields are all written between quotes (inner quotes
/// doubled), one record per line, gives back exactly its records and fields,
/// whatever characters the fields hold.
pub proof fn lemma_quoted_table_round_trip(records: Seq<Seq<Seq<char>>>)
    requires
        forall|i: int| 0 <= i < records.len() ==> #[trigger] records[i].len() > 0,
    ensures
        csv_records(quoted_table(records)) == records,
{
    lemma_scan_from_start(quoted_table(records));
    if records.len() == 0 {
        assert(csv_scan(quoted_table(records)) == csv_start());
        assert(csv_end_record(csv_start()).records == records);
    } else {
        lemma_scan_quoted_table(csv_start(), records);
        let last = records.last();
        assert(last == records[records.len() - 1]);
        assert(last.drop_last().push(last.last()) == last);
        assert((Seq::<Seq<Seq<char>>>::empty() + records.drop_last()).push(last) == records);
    }
}

/// A character that CSV text can hold outside quotes without changing its structure.
pub open spec fn plain_csv_char(c: char) -> bool {
    c != '"' && c != ',' && c != '\n' && c != '\r'
}

pub open spec fn plain_csv_field(field: Seq<char>) -> bool {
    forall|i: int| 0 <= i < field.len() ==> plain_csv_char(#[trigger] field[i])
}

/// A record written as its fields separated by commas, without quotes.
pub open spec fn plain_record(fields: Seq<Seq<char>>) -> Seq<char>
    decreases fields.len(),
{
    if fields.len() == 0 {
        Seq::empty()
    } else if fields.len() == 1 {
        fields[0]
    } else {
        plain_record(fields.drop_last()) + seq![','] + fields.last()
    }
}

/// A table written as plain records separated by line ends.
pub open spec fn plain_table(records: Seq<Seq<Seq<char>>>) -> Seq<char>
    decreases records.len(),
{
    if records.len() == 0 {
        Seq::empty()
    } else if records.len() == 1 {
        plain_record(records[0])
    } else {
        plain_table(records.drop_last()) + seq!['\n'] + plain_record(records.last())
    }
}

/// A record that a plain table can hold: at least one field, not a blank line, and
/// no field with a quote, comma, line end or carriage return.
pub open spec fn plain_csv_record(fields: Seq<Seq<char>>) -> bool {
    &&& fields.len() > 0
    &&& !(fields.len() == 1 && fields[0].len() == 0)
    &&& forall|i: int| 0 <= i < fields.len() ==> plain_csv_field(#[trigger] fields[i])
}

proof fn lemma_scan_plain_field(scan: CsvScan, field: Seq<char>)
    requires
        csv_between_fields(scan),
        plain_csv_field(field),
    ensures
        csv_scan_from(scan, field) == (CsvScan { field: field, ..scan }),
    decreases field.len(),
{
    if field.len() == 0 {
        assert(csv_scan_from(scan, field) == scan);
        assert(scan.field == field);
    } else {
        let head = field.drop_last();
        assert forall|i: int| 0 <= i < head.len() implies plain_csv_char(#[trigger] head[i]) by {
            assert(head[i] == field[i]);
        }
        lemma_scan_plain_field(scan, head);
        assert(plain_csv_char(field[field.len() - 1]));
        assert(head.push(field.last()) == field);
    }
}

proof fn lemma_scan_plain_record(scan: CsvScan, fields: Seq<Seq<char>>)
    requires
        csv_between_fields(scan),
        fields.len() > 0,
        forall|i: int| 0 <= i < fields.len() ==> plain_csv_field(#[trigger] fields[i]),
    ensures
        csv_scan_from(scan, plain_record(fields)) == (CsvScan {
            records: scan.records,
            fields: scan.fields + fields.drop_last(),
            field: fields.last(),
            mode: CsvMode::Unquoted,
            field_quoted: false,
        }),
    decreases fields.len(),
{
    if fields.len() == 1 {
        assert(plain_csv_field(fields[0]));
        lemma_scan_plain_field(scan, fields[0]);
        assert(scan.fields + fields.drop_last() == scan.fields);
    } else {
        let head = fields.drop_last();
        assert forall|i: int| 0 <= i < head.len() implies plain_csv_field(#[trigger] head[i]) by {
            assert(head[i] == fields[i]);
        }
        lemma_scan_plain_record(scan, head);
        let before = csv_scan_from(scan, plain_record(head));
        let between = CsvScan {
            records: scan.records,
            fields: scan.fields + head.drop_last() + seq![head.last()],
            field: Seq::empty(),
            mode: CsvMode::Unquoted,
            field_quoted: false,
        };
        lemma_scan_one(before, ',');
        assert(before.fields.push(before.field) == scan.fields + head.drop_last() + seq![head.last()]);
        assert(csv_step(before, ',') == between);
        assert(plain_csv_field(fields[fields.len() - 1]));
        lemma_scan_plain_field(between, fields.last());
        lemma_scan_concat(scan, plain_record(head), seq![',']);
        lemma_scan_concat(scan, plain_record(head) + seq![','], fields.last());
        assert(head.drop_last().push(head.last()) == head);
        assert(scan.fields + head.drop_last() + seq![head.last()] == scan.fields + fields.drop_last());
    }
}

proof fn lemma_scan_plain_table(scan: CsvScan, records: Seq<Seq<Seq<char>>>)
    requires
        csv_between_fields(scan),
        scan.fields.len() == 0,
        records.len() > 0,
        forall|i: int| 0 <= i < records.len() ==> plain_csv_record(#[trigger] records[i]),
    ensures
        csv_scan_from(scan, plain_table(records)) == (CsvScan {
            records: scan.records + records.drop_last(),
            fields: records.last().drop_last(),
            field: records.last().last(),
            mode: CsvMode::Unquoted,
            field_quoted: false,
        }),
    decreases records.len(),
{
    if records.len() == 1 {
        assert(plain_csv_record(records[0]));
        lemma_scan_plain_record(scan, records[0]);
        assert(scan.records + records.drop_last() == scan.records);
        assert(scan.fields + records[0].drop_last() == records[0].drop_last());
    } else {
        let head = records.drop_last();
        assert forall|i: int| 0 <= i < head.len() implies plain_csv_record(#[trigger] head[i]) by {
            assert(head[i] == records[i]);
        }
        lemma_scan_plain_table(scan, head);
        let before = csv_scan_from(scan, plain_table(head));
        let last_done = head.last();
        assert(last_done == records[records.len() - 2]);
        assert(plain_csv_record(last_done));
        assert(last_done.drop_last().push(last_done.last()) == last_done);
        if last_done.len() == 1 {
            assert(last_done.last() == last_done[0]);
        }
        let between = CsvScan {
            records: scan.records + head,
            fields: Seq::empty(),
            field: Seq::empty(),
            mode: CsvMode::Unquoted,
            field_quoted: false,
        };
        lemma_scan_one(before, '\n');
        assert((scan.records + head.drop_last()).push(last_done) == scan.records + head);
        assert(csv_step(before, '\n') == between);
        let last = records.last();
        assert(last == records[records.len() - 1]);
        assert(plain_csv_record(last));
        lemma_scan_plain_record(between, last);
        assert(between.fields + last.drop_last() == last.drop_last());
        lemma_scan_concat(scan, plain_table(head), seq!['\n']);
        lemma_scan_concat(scan, plain_table(head) + seq!['\n'], plain_record(last));
    }
}

/// Reading a table written without quotes (fields separated by commas, records
/// by line ends) gives back exactly its records and fields, as long as no field
/// holds a quote, comma, line end or carriage return and no record is a blank line.
pub proof fn lemma_plain_table_round_trip(records: Seq<Seq<Seq<char>>>)
    requires
        forall|i: int| 0 <= i < records.len() ==> plain_csv_record(#[trigger] records[i]),
    ensures
        csv_records(plain_table(records)) == records,
{
    lemma_scan_from_start(plain_table(records));
    if records.len() == 0 {
        assert(csv_scan(plain_table(records)) == csv_start());
        assert(csv_end_record(csv_start()).records == records);
    } else {
        lemma_scan_plain_table(csv_start(), records);
        let last = records.last();
        assert(last == records[records.len() - 1]);
        assert(plain_csv_record(last));
        if last.len() == 1 {
            assert(last.last() == last[0]);
        }
        assert(last.drop_last().push(last.last()) == last);
        assert((Seq::<Seq<Seq<char>>>::empty() + records.drop_last()).push(last) == records);
    }
}

/// An exec CSV reader: the header record, the later records, and the state of the
/// record being read.
struct CsvReader {
    headers: Vec<String>,
    rows: Vec<Vec<String>>,
    have_headers: bool,
    fields: Vec<String>,
    field: String,
    mode: CsvMode,
    field_quoted: bool,
}

impl CsvReader {
    spec fn well_formed(&self) -> bool {
        !self.have_headers ==> self.headers@.len() == 0 && self.rows@.len() == 0
    }

    spec fn scan(&self) -> CsvScan {
        CsvScan {
            records: if self.have_headers {
                seq![self.headers.deep_view()] + self.rows.deep_view()
            } else {
                Seq::empty()
            },
            fields: self.fields.deep_view(),
            field: self.field@,
            mode: self.mode,
            field_quoted: self.field_quoted,
        }
    }

    fn end_record(&mut self)
        requires
            old(self).well_formed(),
        ensures
            final(self).well_formed(),
            final(self).scan() == csv_end_record(old(self).scan()),
    {
        if self.fields.len() == 0 && self.field.as_str().unicode_len() == 0 && !self.field_quoted {
            self.mode = CsvMode::Unquoted;
            return;
        }
        let ghost before = self.scan();
        let mut field = String::new();
        std::mem::swap(&mut field, &mut self.field);
        let mut record: Vec<String> = Vec::new();
        std::mem::swap(&mut record, &mut self.fields);
        record.push(field);
        assert(record.deep_view() == before.fields.push(before.field));
        if self.have_headers {
            self.rows.push(record);
            assert(seq![self.headers.deep_view()] + self.rows.deep_view() == before.records.push(
                before.fields.push(before.field),
            ));
        } else {
            self.headers = record;
            self.have_headers = true;
            assert(seq![self.headers.deep_view()] + self.rows.deep_view() == before.records.push(
                before.fields.push(before.field),
            ));
        }
        self.mode = CsvMode::Unquoted;
        self.field_quoted = false;
        assert(self.fields.deep_view() =~= Seq::<Seq<char>>::empty());
    }

    fn step_unquoted(&mut self, c: char)
        requires
            old(self).well_formed(),
        ensures
            final(self).well_formed(),
            final(self).scan() == csv_step_unquoted(old(self).scan(), c),
    {
        if c == '"' && self.field.as_str().unicode_len() == 0 && !self.field_quoted {
            self.mode = CsvMode::Quoted;
            self.field_quoted = true;
        } else if c == ',' {
            let ghost before = self.scan();
            let mut field = String::new();
            std::mem::swap(&mut field, &mut self.field);
            self.fields.push(field);
            assert(self.fields.deep_view() == before.fields.push(before.field));
            self.mode = CsvMode::Unquoted;
            self.field_quoted = false;
        } else if c == '\n' {
            self.end_record();
        } else if c == '\r' {
            self.mode = CsvMode::Unquoted;
        } else {
            push_char(&mut self.field, c);
            self.mode = CsvMode::Unquoted;
        }
    }

    fn step(&mut self, c: char)
        requires
            old(self).well_formed(),
        ensures
            final(self).well_formed(),
            final(self).scan() == csv_step(old(self).scan(), c),
    {
        match self.mode {
            CsvMode::Quoted => {
                if c == '"' {
                    self.mode = CsvMode::QuoteSeen;
                } else {
                    push_char(&mut self.field, c);
                }
            },
            CsvMode::QuoteSeen => {
                if c == '"' {
                    push_char(&mut self.field, '"');
                    self.mode = CsvMode::Quoted;
                } else {
                    self.step_unquoted(c);
                }
            },
            CsvMode::Unquoted => self.step_unquoted(c),
        }
    }
}

/// Reads CSV text: the first record gives the column headers, the others the rows.
/// Fields are separated by commas and records by line ends; a quoted field may hold
/// commas, line ends and doubled quotes; blank lines and carriage returns outside
/// quotes are skipped.
pub fn parse_csv_rows(csv: &str) -> (table: (Vec<String>, Vec<Vec<String>>))
    ensures
        ({
            let records = csv_records(csv@);
            &&& records.len() == 0 ==> table.0@.len() == 0 && table.1@.len() == 0
            &&& records.len() > 0 ==> table.0.deep_view() == records[0] && table.1.deep_view()
                == records.skip(1)
        }),
{
    let mut reader = CsvReader {
        headers: Vec::new(),
        rows: Vec::new(),
        have_headers: false,
        fields: Vec::new(),
        field: String::new(),
        mode: CsvMode::Unquoted,
        field_quoted: false,
    };
    assert(reader.fields.deep_view() =~= Seq::<Seq<char>>::empty());
    assert(reader.scan() == csv_start());
    for c in it: csv.chars()
        invariant
            it.seq() == csv@,
            reader.well_formed(),
            reader.scan() == csv_scan(csv@.take(it.index() as int)),
    {
        proof {
            assert(csv@.take(it.index() + 1).drop_last() == csv@.take(it.index() as int));
        }
        reader.step(c);
    }
    proof {
        assert(csv@.take(csv@.len() as int) == csv@);
    }
    reader.end_record();
    proof {
        let records = csv_records(csv@);
        if reader.have_headers {
            assert(records[0] == reader.headers.deep_view());
            assert(records.skip(1) == reader.rows.deep_view());
        }
    }
    (reader.headers, reader.rows)
}


/// A column of a database table: its name and its declared type.
#[derive(Clone, Debug, PartialEq, Eq)]
pub struct DatabaseColumn {
    pub name: String,
    pub decl_type: String,
}

/// The index of the first column named `name`, if any.
pub open spec fn column_named(columns: Seq<DatabaseColumn>, name: Seq<char>) -> Option<int>
    decreases columns.len(),
{
    if columns.len() == 0 {
        None
    } else if columns[0].name@ == name {
        Some(0)
    } else {
        match column_named(columns.drop_first(), name) {
            Some(i) => Some(i + 1),
            None => None,
        }
    }
}

/// The declared type of the column shown under the `index`-th header: the column
/// at that position where its name matches the header, else the first column of
/// that name, else none (empty).
pub open spec fn column_decl(
    columns: Seq<DatabaseColumn>,
    headers: Seq<String>,
    index: int,
) -> Seq<char> {
    if 0 <= index < headers.len() {
        if index < columns.len() && columns[index].name@ == headers[index]@ {
            columns[index].decl_type@
        } else {
            match column_named(columns, headers[index]@) {
                Some(i) => columns[i].decl_type@,
                None => Seq::empty(),
            }
        }
    } else {
        Seq::empty()
    }
}

proof fn lemma_column_named_in_range(columns: Seq<DatabaseColumn>, name: Seq<char>)
    ensures
        column_named(columns, name) matches Some(i) ==> 0 <= i < columns.len()
            && columns[i].name@ == name,
    decreases columns.len(),
{
    if columns.len() > 0 {
        lemma_column_named_in_range(columns.drop_first(), name);
    }
}

/// The declared type of the column shown under the `index`-th header.
pub fn column_decl_for<'a>(
    columns: &'a [DatabaseColumn],
    headers: &[String],
    index: usize,
) -> (decl: &'a str)
    ensures
        decl@ == column_decl(columns@, headers@, index as int),
{
    proof {
        reveal_strlit("");
    }
    if index >= headers.len() {
        return "";
    }
    let header = &headers[index];
    if index < columns.len() && columns[index].name == *header {
        return columns[index].decl_type.as_str();
    }
    let mut i: usize = 0;
    assert(columns@.subrange(0, columns@.len() as int) == columns@);
    while i < columns.len()
        invariant
            i <= columns@.len(),
            index < headers@.len(),
            *header == headers@[index as int],
            !(index < columns@.len() && columns@[index as int].name@ == headers@[index as int]@),
            ""@.len() == 0,
            match column_named(columns@, header@) {
                Some(found) => match column_named(
                    columns@.subrange(i as int, columns@.len() as int),
                    header@,
                ) {
                    Some(rest) => found == rest + i,
                    None => false,
                },
                None => column_named(
                    columns@.subrange(i as int, columns@.len() as int),
                    header@,
                ) is None,
            },
        decreases columns@.len() - i,
    {
        let ghost rest = columns@.subrange(i as int, columns@.len() as int);
        assert(rest[0] == columns@[i as int]);
        if columns[i].name == *header {
            assert(column_named(rest, header@) == Some(0int));
            return columns[i].decl_type.as_str();
        }
        assert(rest.drop_first() == columns@.subrange(i + 1, columns@.len() as int));
        i = i + 1;
    }
    proof {
        lemma_column_named_in_range(columns@, header@);
    }
    ""
}

} // verus!
