use crate::text::{chars_of, ends_with, piece_of, push_text, string_of, text_ends_with};
use chrono::{Datelike, NaiveDate};
use vstd::prelude::*;
use vstd::utf8::encode_utf8;

verus! {

/// A day of the calendar.
#[derive(Clone, Copy, Debug, PartialEq, Eq, Structural)]
pub struct Date {
    pub year: i32,
    pub month: u32,
    pub day: u32,
}

/// The day that `chrono` reads off a text in the form `%Y%m%d`, as year, month and day;
/// none where the text is no such date.
pub uninterp spec fn compact_date(text: Seq<char>) -> Option<(i32, u32, u32)>;

/// How `chrono` writes the day with the given year, month and day in the form given; none
/// where there is no such day.
pub uninterp spec fn date_text(year: i32, month: u32, day: u32, form: Seq<char>) -> Option<
    Seq<char>,
>;

/// `chrono::NaiveDate::parse_from_str` with the format `%Y%m%d`, taken apart with `year`,
/// `month` and `day`.  The contract only names the result.
#[verifier::external_body]
fn read_compact_date(text: &str) -> (date: Option<Date>)
    ensures
        match date {
            Some(d) => compact_date(text@) == Some((d.year, d.month, d.day)),
            None => compact_date(text@) is None,
        },
{
    match NaiveDate::parse_from_str(text, "%Y%m%d") {
        Ok(day) => Some(Date { year: day.year(), month: day.month(), day: day.day() }),
        Err(_) => None,
    }
}

/// `chrono::NaiveDate::from_ymd_opt` and `NaiveDate::format`: the day written in one of the
/// two forms that this library uses.  The contract only names the result.
#[verifier::external_body]
fn write_date(date: &Date, form: &str) -> (text: Option<String>)
    requires
        form@ == "%Y%m%d"@ || form@ == "%Y/%m/%d"@,
    ensures
        match text {
            Some(t) => date_text(date.year, date.month, date.day, form@) == Some(t@),
            None => date_text(date.year, date.month, date.day, form@) is None,
        },
{
    NaiveDate::from_ymd_opt(date.year, date.month, date.day).map(|day| day.format(form).to_string())
}

/// What `validate_filename` makes of a name, given what was read off its first part.
pub open spec fn filename_verdict(filename: Seq<char>, read: Option<(i32, u32, u32)>) -> Result<
    Date,
    Seq<char>,
> {
    if !ends_with(filename, "_update.txt"@) {
        Err("filename must end with _update.txt"@)
    } else if encode_utf8(filename).len() != 19 {
        Err("filename must be 19 characters long"@)
    } else {
        match read {
            Some(d) => Ok((Date { year: d.0, month: d.1, day: d.2 })),
            None => Err("filename must start with a date in YYYYMMDD format"@),
        }
    }
}

/// The part of a name before `_update.txt`.
pub open spec fn date_part(filename: Seq<char>) -> Seq<char> {
    filename.subrange(0, filename.len() - 11)
}

/// Accepts the name of an update file, `YYYYMMDD_update.txt`, and hands out its date;
/// refuses any other name with the reason.
pub fn validate_filename(filename: &str) -> (result: Result<Date, String>)
    ensures
        match result {
            Ok(date) => filename_verdict(filename@, compact_date(date_part(filename@))) == Ok::<
                Date,
                Seq<char>,
            >(date),
            Err(why) => filename_verdict(filename@, compact_date(date_part(filename@))) == Err::<
                Date,
                Seq<char>,
            >(why@),
        },
{
    proof {
        reveal_strlit("_update.txt");
    }
    if text_ends_with(filename, "_update.txt") {
        let bytes = filename.as_bytes();
        if bytes.len() != 19 {
            return Err("filename must be 19 characters long".to_owned());
        }
        let chars = chars_of(filename);
        let date = piece_of(&chars, 0, chars.len() - 11);
        match read_compact_date(date.as_str()) {
            Some(parsed_date) => Ok(parsed_date),
            None => Err("filename must start with a date in YYYYMMDD format".to_owned()),
        }
    } else {
        Err("filename must end with _update.txt".to_owned())
    }
}

/// The name of the summary file for a day; none where there is no such day.
pub fn make_summary_filename(parsed_date: &Date) -> (name: Option<String>)
    ensures
        match name {
            Some(text) => date_text(
                parsed_date.year,
                parsed_date.month,
                parsed_date.day,
                "%Y%m%d"@,
            ) matches Some(day) && text@ == day + "_summary_update.txt"@,
            None => date_text(parsed_date.year, parsed_date.month, parsed_date.day, "%Y%m%d"@)
                is None,
        },
{
    match write_date(parsed_date, "%Y%m%d") {
        Some(day) => {
            let mut out: Vec<char> = Vec::new();
            push_text(&mut out, day.as_str());
            push_text(&mut out, "_summary_update.txt");
            Some(string_of(&out))
        },
        None => None,
    }
}

/// The boxed title that heads a summary, around the day as it is written with slashes.
pub open spec fn header_text(day: Seq<char>) -> Seq<char> {
    ",----------------------------------------,"@ + "\n"@ + "| SearchSites Team Update for "@
        + day + " |"@ + "\n"@ + "`----------------------------------------'"@ + "\n\n"@
}

/// The boxed title that heads the summary for a day; none where there is no such day.
pub fn make_header(parsed_date: &Date) -> (header: Option<String>)
    ensures
        match header {
            Some(text) => date_text(
                parsed_date.year,
                parsed_date.month,
                parsed_date.day,
                "%Y/%m/%d"@,
            ) matches Some(day) && text@ == header_text(day),
            None => date_text(parsed_date.year, parsed_date.month, parsed_date.day, "%Y/%m/%d"@)
                is None,
        },
{
    match write_date(parsed_date, "%Y/%m/%d") {
        Some(day) => {
            let mut out: Vec<char> = Vec::new();
            push_text(&mut out, ",----------------------------------------,");
            push_text(&mut out, "\n");
            push_text(&mut out, "| SearchSites Team Update for ");
            push_text(&mut out, day.as_str());
            push_text(&mut out, " |");
            push_text(&mut out, "\n");
            push_text(&mut out, "`----------------------------------------'");
            push_text(&mut out, "\n\n");
            Some(string_of(&out))
        },
        None => None,
    }
}

} // verus!
