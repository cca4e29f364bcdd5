//! The status line and the terminal frames that carry it.

use crate::digits::{decimal, is_digit, padded2, padded2_is_two_wide, push_decimal, push_padded2};
use crate::sample::MemorySample;
use crate::units::{format_bytes_unit, hundredths_in, unit_for, UnitChoice};
use vstd::prelude::*;

verus! {

/// A byte count as shown: the scaled value with two fractional digits, a
/// space, and the unit's label.
pub open spec fn value_text(bytes: nat, choice: UnitChoice) -> Seq<char> {
    let unit = unit_for(bytes, choice);
    let shown = hundredths_in(bytes, unit);
    decimal(shown / 100) + seq!['.'] + padded2(shown % 100) + seq![' '] + unit.label_text()
}

/// Elapsed whole seconds as `[MM:SS]`: minutes are not wrapped at 60, and
/// both parts are padded to two digits.
pub open spec fn elapsed_text(secs: nat) -> Seq<char> {
    seq!['['] + padded2(secs / 60) + seq![':'] + padded2(secs % 60) + seq![']']
}

/// The status line: `[MM:SS] RSS: <value> <unit> | VSZ: <value> <unit>`.
pub open spec fn status_text(secs: nat, sample: MemorySample, choice: UnitChoice) -> Seq<char> {
    elapsed_text(secs) + " RSS: "@ + value_text(sample.resident_bytes as nat, choice) + " | VSZ: "@
        + value_text(sample.virtual_bytes as nat, choice)
}

/// The escape sequence that clears the whole current line.
pub open spec fn clear_line_text() -> Seq<char> {
    seq!['\u{1b}', '[', '2', 'K']
}

/// What precedes anything written over the status line: a carriage return,
/// then the sequence that clears the line.
pub open spec fn line_reset_text() -> Seq<char> {
    seq!['\r'] + clear_line_text()
}

/// A displayed value has exactly two fractional digits: the whole part is
/// followed by a point, two digits, a space and the unit's label.
pub proof fn value_has_two_fraction_digits(bytes: nat, choice: UnitChoice)
    ensures
        ({
            let text = value_text(bytes, choice);
            let unit = unit_for(bytes, choice);
            let whole = decimal(hundredths_in(bytes, unit) / 100);
            let point = whole.len() as int;
            &&& text.len() == point + 4 + unit.label_text().len()
            &&& text.subrange(0, point) == whole
            &&& text[point] == '.'
            &&& is_digit(text[point + 1])
            &&& is_digit(text[point + 2])
            &&& text[point + 3] == ' '
            &&& text.subrange(point + 4, text.len() as int) == unit.label_text()
        }),
{
    let text = value_text(bytes, choice);
    let unit = unit_for(bytes, choice);
    let shown = hundredths_in(bytes, unit);
    let whole = decimal(shown / 100);
    let point = whole.len() as int;
    let fraction = padded2(shown % 100);
    padded2_is_two_wide(shown % 100);
    assert(text[point + 1] == fraction[0]);
    assert(text[point + 2] == fraction[1]);
    assert(text.subrange(0, point) =~= whole);
    assert(text.subrange(point + 4, text.len() as int) =~= unit.label_text());
}

/// Calls the `Display` of termion's `clear::CurrentLine`. Its source writes
/// the control sequence introducer, ESC and `[`, followed by `2K`; the
/// contract claims exactly these four characters.
#[verifier::external_body]
fn clear_current_line() -> (text: String)
    ensures
        text@ == clear_line_text(),
{
    format!("{}", termion::clear::CurrentLine)
}

fn push_value(out: &mut String, bytes: u64, choice: UnitChoice)
    ensures
        final(out)@ == old(out)@ + value_text(bytes as nat, choice),
{
    let scaled = format_bytes_unit(bytes, choice);
    proof {
        reveal_strlit(".");
        reveal_strlit(" ");
    }
    push_decimal(out, scaled.hundredths / 100);
    out.append(".");
    push_padded2(out, scaled.hundredths % 100);
    out.append(" ");
    out.append(scaled.unit.label());
    assert(out@ =~= old(out)@ + value_text(bytes as nat, choice));
}

fn push_elapsed(out: &mut String, secs: u64)
    ensures
        final(out)@ == old(out)@ + elapsed_text(secs as nat),
{
    proof {
        reveal_strlit("[");
        reveal_strlit(":");
        reveal_strlit("]");
    }
    out.append("[");
    push_padded2(out, secs / 60);
    out.append(":");
    push_padded2(out, secs % 60);
    out.append("]");
    assert(out@ =~= old(out)@ + elapsed_text(secs as nat));
}

/// Renders the status line for an elapsed time and a memory sample, each
/// value in the unit that `choice` selects for it.
pub fn render(elapsed_secs: u64, sample: MemorySample, choice: UnitChoice) -> (line: String)
    ensures
        line@ == status_text(elapsed_secs as nat, sample, choice),
{
    let mut line = String::new();
    push_elapsed(&mut line, elapsed_secs);
    line.append(" RSS: ");
    push_value(&mut line, sample.resident_bytes, choice);
    line.append(" | VSZ: ");
    push_value(&mut line, sample.virtual_bytes, choice);
    assert(line@ =~= status_text(elapsed_secs as nat, sample, choice));
    line
}

/// Renders the status line with each value scaled to the largest unit it
/// reaches.
pub fn format_status_line(elapsed_secs: u64, rss_bytes: u64, vsz_bytes: u64) -> (line: String)
    ensures
        line@ == status_text(
            elapsed_secs as nat,
            MemorySample { resident_bytes: rss_bytes, virtual_bytes: vsz_bytes },
            UnitChoice::Auto,
        ),
{
    render(
        elapsed_secs,
        MemorySample { resident_bytes: rss_bytes, virtual_bytes: vsz_bytes },
        UnitChoice::Auto,
    )
}

/// The text that returns to the start of the line and clears it.
pub fn line_reset() -> (text: String)
    ensures
        text@ == line_reset_text(),
{
    proof {
        reveal_strlit("\r");
    }
    let mut text = String::from_str("\r");
    let clear = clear_current_line();
    text.append(clear.as_str());
    assert(text@ =~= line_reset_text());
    text
}

/// The frame that redraws the status line in place: the line is cleared
/// first, so nothing of a longer predecessor stays behind.
pub fn status_frame(line: &str) -> (frame: String)
    ensures
        frame@ == line_reset_text() + line@,
{
    let mut frame = line_reset();
    frame.append(line);
    frame
}

/// The frame that prints the last status line and ends the in-place
/// redrawing with a line feed.
pub fn final_frame(line: &str) -> (frame: String)
    ensures
        frame@ == line_reset_text() + line@ + seq!['\n'],
{
    proof {
        reveal_strlit("\n");
    }
    let mut frame = line_reset();
    frame.append(line);
    frame.append("\n");
    assert(frame@ =~= line_reset_text() + line@ + seq!['\n']);
    frame
}

} // verus!
