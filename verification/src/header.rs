//! The text of the output: the comment lines at its head, and one line for
//! each row.

use crate::lines::{row_view, Row, RowView};
use crate::text::{decimal, push_decimal, push_signed_decimal, signed_decimal};
use chrono::Datelike;
use vstd::prelude::*;

verus! {

/// The current date in universal time, as year, month and day, from
/// `chrono::Utc::now` and the `Datelike` methods `year`, `month` and `day`.
/// The month is counted from 1 to 12 and the day from 1 to 31. A system
/// clock set before 1970 makes `chrono` panic.
#[verifier::external_body]
fn today() -> (date: (i32, u32, u32))
    ensures
        1 <= date.1 <= 12,
        1 <= date.2 <= 31,
{
    let now = chrono::Utc::now();
    (now.year(), now.month(), now.day())
}

/// A date as it stands in the header: year, month and day, with hyphens
/// between them and without leading zeros.
pub open spec fn date_text(year: int, month: nat, day: nat) -> Seq<char> {
    signed_decimal(year) + "-"@ + decimal(month) + "-"@ + decimal(day)
}

/// Writes a date as it stands in the header.
pub fn format_date(year: i32, month: u32, day: u32) -> (text: String)
    ensures
        text@ == date_text(year as int, month as nat, day as nat),
{
    let mut text = String::new();
    push_signed_decimal(&mut text, year as i64);
    text.append("-");
    push_decimal(&mut text, month as u64);
    text.append("-");
    push_decimal(&mut text, day as u64);
    assert(text@ =~= date_text(year as int, month as nat, day as nat));
    text
}

/// Today's date as it stands in the header.
pub fn get_date() -> (text: String)
    ensures
        exists|year: int, month: nat, day: nat|
            1 <= month <= 12 && 1 <= day <= 31 && text@ == #[trigger] date_text(year, month, day),
{
    let (year, month, day) = today();
    let text = format_date(year, month, day);
    assert(text@ == date_text(year as int, month as nat, day as nat));
    text
}

/// The four comment lines at the head of the output, for the date `date`.
pub open spec fn header_text(date: Seq<char>) -> Seq<char> {
    "#provider: bed2gtf\n"@ + "#version: 1.9.1\n"@
        + "#contact: https://github.com/alejandrogzi/bed2gtf\n"@ + "#date: "@ + date + "\n"@
}

/// Writes the four comment lines at the head of the output.
pub fn comments(date: &str) -> (text: String)
    ensures
        text@ == header_text(date@),
{
    let mut text = String::new();
    text.append("#provider: bed2gtf\n");
    text.append("#version: 1.9.1\n");
    text.append("#contact: https://github.com/alejandrogzi/bed2gtf\n");
    text.append("#date: ");
    text.append(date);
    text.append("\n");
    assert(text@ =~= header_text(date@));
    text
}

/// The line of a row: its nine columns with tabs between them, the source
/// in the second and a dot for the score in the sixth, and a line feed.
pub open spec fn row_text(row: RowView) -> Seq<char> {
    row.0 + "\t"@ + "bed2gtf"@ + "\t"@ + row.1 + "\t"@ + decimal(row.2 as nat) + "\t"@ + decimal(
        row.3 as nat,
    ) + "\t.\t"@ + row.4 + "\t"@ + row.5 + "\t"@ + row.6 + "\n"@
}

/// Writes the line of a row.
pub fn row_line(row: &Row) -> (text: String)
    ensures
        text@ == row_text(row_view(*row)),
{
    let mut text = String::new();
    text.append(row.0.as_str());
    text.append("\t");
    text.append("bed2gtf");
    text.append("\t");
    text.append(row.1.as_str());
    text.append("\t");
    push_decimal(&mut text, row.2 as u64);
    text.append("\t");
    push_decimal(&mut text, row.3 as u64);
    text.append("\t.\t");
    text.append(row.4.as_str());
    text.append("\t");
    text.append(row.5.as_str());
    text.append("\t");
    text.append(row.6.as_str());
    text.append("\n");
    assert(text@ =~= row_text(row_view(*row)));
    text
}

} // verus!
