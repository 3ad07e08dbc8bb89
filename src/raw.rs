use vstd::prelude::*;

use crate::text::push_char;
use crate::ui_state::{ProcessRow, UIState};

verus! {

/// Relies on `String::push_str`: appends the characters of `t`.
#[verifier::external_body]
pub(crate) fn push_str(s: &mut String, t: &str)
    ensures
        final(s)@ == old(s)@ + t@,
{
    s.push_str(t)
}

/// The character of a decimal digit.
pub open spec fn digit_char(d: int) -> char {
    if d == 0 {
        '0'
    } else if d == 1 {
        '1'
    } else if d == 2 {
        '2'
    } else if d == 3 {
        '3'
    } else if d == 4 {
        '4'
    } else if d == 5 {
        '5'
    } else if d == 6 {
        '6'
    } else if d == 7 {
        '7'
    } else if d == 8 {
        '8'
    } else {
        '9'
    }
}

/// The decimal digits of `n`, without leading zeros.
pub open spec fn decimal(n: nat) -> Seq<char>
    decreases n,
{
    if n < 10 {
        seq![digit_char(n as int)]
    } else {
        decimal(n / 10).push(digit_char((n % 10) as int))
    }
}

/// The decimal form of a signed integer.
pub open spec fn signed_decimal(n: int) -> Seq<char> {
    if n < 0 {
        seq!['-'] + decimal((-n) as nat)
    } else {
        decimal(n as nat)
    }
}

pub(crate) fn digit(d: u128) -> (c: char)
    requires
        d < 10,
    ensures
        c == digit_char(d as int),
{
    if d == 0 {
        '0'
    } else if d == 1 {
        '1'
    } else if d == 2 {
        '2'
    } else if d == 3 {
        '3'
    } else if d == 4 {
        '4'
    } else if d == 5 {
        '5'
    } else if d == 6 {
        '6'
    } else if d == 7 {
        '7'
    } else if d == 8 {
        '8'
    } else {
        '9'
    }
}

pub(crate) fn push_decimal(s: &mut String, n: u128)
    ensures
        final(s)@ == old(s)@ + decimal(n as nat),
    decreases n,
{
    if n < 10 {
        push_char(s, digit(n));
        assert(old(s)@.push(digit_char(n as int)) =~= old(s)@ + decimal(n as nat));
    } else {
        push_decimal(s, n / 10);
        push_char(s, digit(n % 10));
        assert(old(s)@ + decimal(n as nat) =~= (old(s)@ + decimal((n / 10) as nat)).push(
            digit_char((n % 10) as int),
        ));
    }
}

/// The line of one row in raw output.
pub open spec fn row_line(r: ProcessRow, timestamp: int) -> Seq<char> {
    "process: <"@ + signed_decimal(timestamp) + "> \""@ + r.process.name@ + "\" down/up Bps: "@
        + decimal(r.current_bytes_downloaded as nat) + "/"@ + decimal(
        r.current_bytes_uploaded as nat,
    ) + " total down/up B: "@ + decimal(r.total_bytes_downloaded as nat) + "/"@ + decimal(
        r.total_bytes_uploaded as nat,
    )
}

/// Whether some row moved bytes in the current tick.
pub open spec fn has_traffic(rows: Seq<ProcessRow>) -> bool {
    exists|i: int|
        0 <= i < rows.len() && ((#[trigger] rows[i]).current_bytes_downloaded > 0
            || rows[i].current_bytes_uploaded > 0)
}

/// The lines of raw output for one tick: a header, one line per row (or a single
/// `<NO TRAFFIC>` where no row moved bytes in the tick), and an empty footer.
pub open spec fn raw_lines(rows: Seq<ProcessRow>, timestamp: int) -> Seq<Seq<char>> {
    seq!["Refreshing:"@] + if has_traffic(rows) {
        rows.map_values(|r: ProcessRow| row_line(r, timestamp))
    } else {
        seq!["<NO TRAFFIC>"@]
    } + seq![""@]
}

fn row_text(r: &ProcessRow, timestamp: i64) -> (s: String)
    ensures
        s@ == row_line(*r, timestamp as int),
{
    let mut s = String::new();
    push_str(&mut s, "process: <");
    if timestamp < 0 {
        push_str(&mut s, "-");
        proof {
            reveal_strlit("-");
        }
        push_decimal(&mut s, (0i128 - timestamp as i128) as u128);
    } else {
        push_decimal(&mut s, timestamp as u128);
    }
    push_str(&mut s, "> \"");
    push_str(&mut s, r.process.name.as_str());
    push_str(&mut s, "\" down/up Bps: ");
    push_decimal(&mut s, r.current_bytes_downloaded);
    push_str(&mut s, "/");
    push_decimal(&mut s, r.current_bytes_uploaded);
    push_str(&mut s, " total down/up B: ");
    push_decimal(&mut s, r.total_bytes_downloaded);
    push_str(&mut s, "/");
    push_decimal(&mut s, r.total_bytes_uploaded);
    proof {
        assert(s@ =~= row_line(*r, timestamp as int));
    }
    s
}

/// The raw output of `state` for one tick, stamped with `timestamp` (seconds since the
/// Unix epoch), one string per line.
pub fn raw_output_lines(state: &UIState, timestamp: i64) -> (lines: Vec<String>)
    ensures
        lines@.len() == raw_lines(state.process_rows@, timestamp as int).len(),
        forall|i: int|
            0 <= i < lines@.len() ==> (#[trigger] lines@[i])@ == raw_lines(
                state.process_rows@,
                timestamp as int,
            )[i],
{
    let rows = &state.process_rows;
    let ghost want = raw_lines(rows@, timestamp as int);
    let mut traffic = false;
    let mut j: usize = 0;
    while j < rows.len()
        invariant
            j <= rows@.len(),
            traffic == exists|i: int|
                0 <= i < j && ((#[trigger] rows@[i]).current_bytes_downloaded > 0
                    || rows@[i].current_bytes_uploaded > 0),
        decreases rows@.len() - j,
    {
        if rows[j].current_bytes_downloaded > 0 || rows[j].current_bytes_uploaded > 0 {
            traffic = true;
        }
        j = j + 1;
    }
    let mut lines: Vec<String> = Vec::new();
    lines.push("Refreshing:".to_string());
    if traffic {
        let mut i: usize = 0;
        while i < rows.len()
            invariant
                traffic == has_traffic(rows@),
                traffic,
                i <= rows@.len(),
                lines@.len() == i + 1,
                lines@[0]@ == "Refreshing:"@,
                forall|x: int| 0 <= x < i ==> (#[trigger] lines@[x + 1])@ == row_line(rows@[x], timestamp as int),
            decreases rows@.len() - i,
        {
            lines.push(row_text(&rows[i], timestamp));
            i = i + 1;
        }
    } else {
        lines.push("<NO TRAFFIC>".to_string());
    }
    lines.push("".to_string());
    proof {
        assert forall|i: int| 0 <= i < lines@.len() implies (#[trigger] lines@[i])@ == want[i] by {
            if traffic && 0 < i < lines@.len() - 1 {
                assert(lines@[(i - 1) + 1]@ == row_line(rows@[i - 1], timestamp as int));
            }
        }
    }
    lines
}

} // verus!
