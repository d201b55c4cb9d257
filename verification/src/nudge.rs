use crate::text::{push_text, string_of};
use vstd::prelude::*;

verus! {

/// A day of the week.
#[derive(Clone, Copy, Debug, PartialEq, Eq, Structural)]
pub enum Weekday {
    Mon,
    Tue,
    Wed,
    Thu,
    Fri,
    Sat,
    Sun,
}

/// The name under which the reminders are sent.
pub open spec fn bot_name() -> Seq<char> {
    "Search Sites Team Update Bot"@
}

/// Where the update is handed in.
pub open spec fn workflow_link() -> Seq<char> {
    "Click the link to start the workflow:\nhttps://slack.com/shortcuts/Ft0816961QNQ/ec60e56ad0f54f3025cc1d5ef4e6d53f\n"@
}

/// What the reminder says between the greeting and the thanks on a given day.
pub open spec fn message_body(day: Weekday) -> Seq<char> {
    match day {
        Weekday::Mon => "I hope you had a great weekend.\nWould you kindly send me your update for last week please? :pls:\n"@
            + workflow_link() + "I'd really appreciate it.\n\n"@,
        Weekday::Tue => "I hope you had a great long weekend.\nWould you kindly send me your update for last week please? :pls:\n"@
            + workflow_link() + "I'd really appreciate it.\n\n"@,
        Weekday::Wed => "I hope you had a good Wednesday so far, I know it's the middle of the week.\nI'm either really early (like Thanksgiving) or really late.\nWould you kindly send me your update please? :pls:\n"@
            + workflow_link() + "I'd really appreciate it.\n\n"@,
        Weekday::Thu => "I hope you had a good Thursday so far, and have fun, long weekend plans.\nWould you give me your update for the week so I can get it done early on Monday?\n"@
            + workflow_link() + "I'd really appreciate it.\n\n"@,
        Weekday::Fri => "I hope you had a good Friday so far, and have fun weekend plans.\nWould you give me your update for the week so I can get it done early on Monday?\n"@
            + workflow_link() + "I'd really appreciate it.\n\n"@,
        Weekday::Sat => "I forgot to ping you on Friday\nWould you give me your update for the week so I can get it done early on Monday?\nI'd really appreciate it.\n  It's the weekend though - so ignore this until Monday\n\n"@,
        Weekday::Sun => "Ignore this until Monday...  it's still the weekend.\n\n"@,
    }
}

/// How the reminder greets on a given day.
pub open spec fn greeting(day: Weekday) -> Seq<char> {
    match day {
        Weekday::Mon => "Happy Monday "@,
        Weekday::Tue => "Happy Tuesday "@,
        _ => "Hey "@,
    }
}

/// The whole reminder for `name` on a given day.
pub open spec fn message_for(name: Seq<char>, day: Weekday) -> Seq<char> {
    greeting(day) + name + "!\n"@ + message_body(day) + "Thank you!\n"@ + bot_name()
}

/// Writes the reminder for `name` on a given day.
pub fn build_message(name: String, day: Weekday) -> (message: String)
    ensures
        message@ == message_for(name@, day),
{
    let link =
        "Click the link to start the workflow:\nhttps://slack.com/shortcuts/Ft0816961QNQ/ec60e56ad0f54f3025cc1d5ef4e6d53f\n";
    let mut out: Vec<char> = Vec::new();
    match day {
        Weekday::Mon => push_text(&mut out, "Happy Monday "),
        Weekday::Tue => push_text(&mut out, "Happy Tuesday "),
        _ => push_text(&mut out, "Hey "),
    }
    push_text(&mut out, name.as_str());
    push_text(&mut out, "!\n");
    let ghost head = out@;
    assert(head =~= greeting(day) + name@ + "!\n"@);
    match day {
        Weekday::Mon => {
            push_text(
                &mut out,
                "I hope you had a great weekend.\nWould you kindly send me your update for last week please? :pls:\n",
            );
            push_text(&mut out, link);
            push_text(&mut out, "I'd really appreciate it.\n\n");
        },
        Weekday::Tue => {
            push_text(
                &mut out,
                "I hope you had a great long weekend.\nWould you kindly send me your update for last week please? :pls:\n",
            );
            push_text(&mut out, link);
            push_text(&mut out, "I'd really appreciate it.\n\n");
        },
        Weekday::Wed => {
            push_text(
                &mut out,
                "I hope you had a good Wednesday so far, I know it's the middle of the week.\nI'm either really early (like Thanksgiving) or really late.\nWould you kindly send me your update please? :pls:\n",
            );
            push_text(&mut out, link);
            push_text(&mut out, "I'd really appreciate it.\n\n");
        },
        Weekday::Thu => {
            push_text(
                &mut out,
                "I hope you had a good Thursday so far, and have fun, long weekend plans.\nWould you give me your update for the week so I can get it done early on Monday?\n",
            );
            push_text(&mut out, link);
            push_text(&mut out, "I'd really appreciate it.\n\n");
        },
        Weekday::Fri => {
            push_text(
                &mut out,
                "I hope you had a good Friday so far, and have fun weekend plans.\nWould you give me your update for the week so I can get it done early on Monday?\n",
            );
            push_text(&mut out, link);
            push_text(&mut out, "I'd really appreciate it.\n\n");
        },
        Weekday::Sat => {
            push_text(
                &mut out,
                "I forgot to ping you on Friday\nWould you give me your update for the week so I can get it done early on Monday?\nI'd really appreciate it.\n  It's the weekend though - so ignore this until Monday\n\n",
            );
        },
        Weekday::Sun => {
            push_text(&mut out, "Ignore this until Monday...  it's still the weekend.\n\n");
        },
    }
    assert(out@ =~= head + message_body(day));
    push_text(&mut out, "Thank you!\n");
    push_text(&mut out, "Search Sites Team Update Bot");
    assert(out@ =~= message_for(name@, day));
    string_of(&out)
}

} // verus!
