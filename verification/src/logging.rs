//! Log lines: "20060102 15:04.05.000 message".

use vstd::prelude::*;

use crate::text;

verus! {

pub const SHORT_LINE: &'static str =
    "--------------------------------------------------------------\n";

pub const LONG_LINE: &'static str =
    "----------------------------------------------------------------------------------------------------\n";

/// Whether a text is a year: four digits, or a sign and four or more.
pub open spec fn is_year(s: Seq<char>) -> bool {
    ||| s.len() == 4 && text::all_digits(s)
    ||| s.len() >= 5 && (s[0] == '+' || s[0] == '-') && text::all_digits(s.skip(1))
}

/// Whether a text is a date, a space, and a time of day to the millisecond.
pub open spec fn is_stamp(s: Seq<char>) -> bool {
    let n = s.len();
    &&& n >= 21
    &&& is_year(s.take(n - 17))
    &&& text::all_digits(s.subrange(n - 17, n - 15))
    &&& text::all_digits(s.subrange(n - 15, n - 13))
    &&& s[n - 13] == ' '
    &&& text::all_digits(s.subrange(n - 12, n - 10))
    &&& s[n - 10] == ':'
    &&& text::all_digits(s.subrange(n - 9, n - 7))
    &&& s[n - 7] == '.'
    &&& text::all_digits(s.subrange(n - 6, n - 4))
    &&& s[n - 4] == '.'
    &&& text::all_digits(s.subrange(n - 3, n as int))
}

/// `chrono::Local::now` in the format "%Y%m%d %H:%M.%S%.3f". Which time it is
/// depends on the clock and the machine's time zone; whichever it is, the month,
/// the day, the hour, the minute and the second have two digits each and the
/// fraction of a second has three, after a dot. The year before them has four
/// digits, or, before the year 0 and after the year 9999, a sign and at least four.
#[verifier::external_body]
pub fn now_string() -> (s: String)
    ensures
        is_stamp(s@),
{
    chrono::Local::now().format("%Y%m%d %H:%M.%S%.3f").to_string()
}

pub open spec fn line_text(stamp: Seq<char>, message: Seq<char>) -> Seq<char> {
    stamp + " "@ + message + "\n"@
}

/// A line of the log.
pub fn line_at(stamp: &str, message: &str) -> (s: String)
    ensures
        s@ == line_text(stamp@, message@),
{
    let mut s = stamp.to_owned();
    s.append(" ");
    s.append(message);
    s.append("\n");
    s
}

/// A line of the log, as of now.
pub fn log_line(message: &str) -> (s: String)
    ensures
        exists|stamp: Seq<char>|
            is_stamp(stamp) && s@ == #[trigger] line_text(stamp, message@),
{
    let stamp = now_string();
    line_at(stamp.as_str(), message)
}

/// A report's block on the console, between two lines.
pub fn section(block: &str) -> (s: String)
    ensures
        s@ == SHORT_LINE@ + block@ + "\n\n"@ + SHORT_LINE@,
{
    let mut s = SHORT_LINE.to_owned();
    s.append(block);
    s.append("\n\n");
    s.append(SHORT_LINE);
    s
}

/// A line of the log is the moment, a space, and the message, and ends there.
pub proof fn a_line_says_when(stamp: Seq<char>, message: Seq<char>)
    ensures
        ({
            let line = line_text(stamp, message);
            &&& line.len() == stamp.len() + message.len() + 2
            &&& stamp.is_prefix_of(line)
            &&& line[stamp.len() as int] == ' '
            &&& line.subrange(stamp.len() as int + 1, line.len() - 1) == message
            &&& line.last() == '\n'
        }),
{
    reveal_strlit(" ");
    reveal_strlit("\n");
    let line = line_text(stamp, message);
    assert(line.subrange(stamp.len() as int + 1, line.len() - 1) =~= message);
}

} // verus!
