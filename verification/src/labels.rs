//! The texts beside the controls.

use crate::double::{closest, lemma_closest_is_by_value, lemma_shifting_is_exact, lemma_whole_numbers_are_kept, whole, TOP};
use crate::graph::{clock_text, format_clock, format_rate, shown_rate, whole_seconds, whole_seconds_of, Rate, Sample};
use crate::power::{down, lemma_scale_is_positive, power, up};
use crate::proxy::{Direction, Event, PerDirection};
use crate::session::{minus, Status};
use crate::text::{append_number, append_two_decimals, decimal, joined3, lemma_rounded_is_monotone, two_decimals};
use crate::theme::Accent;
use crate::window::App;
use vstd::prelude::*;

verus! {

/// A hint beside a control, and whether it is a warning.
#[derive(Clone, Copy, Debug)]
pub struct Hint {
    pub text: &'static str,
    pub warning: bool,
}

/// The text of a hint, and whether it is a warning.
pub open spec fn hinted(hint: Option<Hint>) -> Option<(Seq<char>, bool)> {
    match hint {
        Some(hint) => Some((hint.text@, hint.warning)),
        None => None,
    }
}

/// The button that starts and stops the proxy.
#[derive(Clone, Copy, Debug)]
pub struct Toggle {
    pub text: &'static str,
    pub enabled: bool,
    pub fill: Accent,
}

impl App {
    /// What is said beside the save button.
    pub fn save_hint(&self) -> (hint: Option<Hint>)
        ensures
            hinted(hint) == if self.editor@.selected is None {
                Some(("Not saved yet"@, false))
            } else if self.editor@.has_unsaved_changes() {
                Some(("Unsaved changes"@, true))
            } else {
                None
            },
    {
        if self.editor.selected().is_none() {
            Some(Hint { text: "Not saved yet", warning: false })
        } else if self.editor.has_unsaved_changes() {
            Some(Hint { text: "Unsaved changes", warning: true })
        } else {
            None
        }
    }

    /// The button that starts and stops the proxy.
    pub fn toggle(&self, status: Status) -> (toggle: Toggle)
        ensures
            self.is_running() ==> toggle.text@ == "Stop proxy"@ && toggle.enabled == (status
                != Status::Stopping) && toggle.fill == Accent::Danger,
            !self.is_running() ==> toggle.text@ == "Start proxy"@ && toggle.enabled && toggle.fill
                == Accent::Download,
    {
        if self.running() {
            Toggle {
                text: "Stop proxy",
                enabled: status != Status::Stopping,
                fill: Accent::Danger,
            }
        } else {
            Toggle { text: "Start proxy", enabled: true, fill: Accent::Download }
        }
    }

    /// What is said below the list of profiles.
    pub fn profiles_hint(&self) -> (hint: Option<Hint>)
        ensures
            hinted(hint) == if self.is_running() {
                Some(("Stop the proxy to switch profiles."@, false))
            } else {
                None
            },
    {
        if self.running() {
            Some(Hint { text: "Stop the proxy to switch profiles.", warning: false })
        } else {
            None
        }
    }

    /// What is said below the rates.
    pub fn rates_hint(&self) -> (hint: Option<Hint>)
        ensures
            hinted(hint) == if self.editor@.rates_pending() {
                Some(("Press Enter to apply."@, true))
            } else if !self.editor@.form.limited {
                Some(("Limits are off. Traffic passes unrestricted."@, false))
            } else {
                None
            },
    {
        if self.editor.rates_pending() {
            Some(Hint { text: "Press Enter to apply.", warning: true })
        } else if self.editor.caps().is_none() {
            Some(Hint { text: "Limits are off. Traffic passes unrestricted.", warning: false })
        } else {
            None
        }
    }
}

impl App {
    /// The latest rates of the current or most recent run, or none.
    pub fn latest_rates(&self) -> (rates: PerDirection<Rate>)
        ensures
            rates == match self.session {
                Some(session) => session@.latest(),
                None => PerDirection { download: Rate::none(), upload: Rate::none() },
            },
    {
        match &self.session {
            Some(session) => session.latest(),
            None => PerDirection { download: Rate::idle(), upload: Rate::idle() },
        }
    }
}

/// A direction and its rate, as the legend shows them.
pub fn legend_text(direction: Direction, rate: Rate) -> (text: String)
    requires
        rate.nanos > 0,
    ensures
        text@ == direction.label_text() + " "@ + shown_rate(rate),
{
    joined3(direction.label(), " ", format_rate(rate).as_str())
}

/// A direction and its rate, as the graph shows them under the pointer.
pub fn pointed_rate_text(direction: Direction, rate: Rate) -> (text: String)
    requires
        rate.nanos > 0,
    ensures
        text@ == direction.label_text() + ": "@ + shown_rate(rate),
{
    joined3(direction.label(), ": ", format_rate(rate).as_str())
}

/// The time of a sample under the pointer.
pub fn pointed_time_text(sample: &Sample) -> (text: String)
    ensures
        text@ == "Session "@ + clock_text(whole_seconds_of(sample.at)),
{
    crate::text::joined("Session ", format_clock(whole_seconds(sample.at)).as_str())
}

/// How a row in the list of profiles is filled.
#[derive(Clone, Copy, Debug, PartialEq, Eq, Structural)]
pub enum RowFill {
    Plain,
    Hovered,
    Selected,
}

/// How a row is filled: a selected row and one with the keyboard focus look alike.
pub fn row_fill(selected: bool, focused: bool, hovered: bool) -> (fill: RowFill)
    ensures
        fill == if selected || focused {
            RowFill::Selected
        } else if hovered {
            RowFill::Hovered
        } else {
            RowFill::Plain
        },
{
    if selected || focused {
        RowFill::Selected
    } else if hovered {
        RowFill::Hovered
    } else {
        RowFill::Plain
    }
}

/// Whether a row is chosen: by a click, or by Enter or Space while it has the focus.
pub fn row_chosen(clicked: bool, focused: bool, enter: bool, space: bool) -> (chosen: bool)
    ensures
        chosen == (clicked || (focused && (enter || space))),
{
    clicked || (focused && (enter || space))
}

/// The answer to a question: yes, no, or not yet. Dismissing it means no.
pub fn dialog_answer(confirm: bool, cancel: bool, dismissed: bool) -> (answer: Option<bool>)
    ensures
        answer == if cancel {
            Some(false)
        } else if confirm {
            Some(true)
        } else if dismissed {
            Some(false)
        } else {
            None
        },
{
    if cancel {
        Some(false)
    } else if confirm {
        Some(true)
    } else if dismissed {
        Some(false)
    } else {
        None
    }
}

/// How high the list of `count` profiles is: one row each, from four to ten rows.
pub fn list_height(count: usize) -> (height: u64)
    ensures
        height == crate::proxy::clamped(count * 26, 104, 260),
{
    if count < 4 {
        104
    } else if count > 10 {
        260
    } else {
        count as u64 * 26
    }
}

/// The address of the proxy.
pub fn endpoint_address(port: u16) -> (text: String)
    ensures
        text@ == "127.0.0.1:"@ + decimal(port as nat),
{
    let mut text = "127.0.0.1:".to_owned();
    append_number(&mut text, port as u128);
    text
}

/// The address of the proxy as SQL Server clients write it.
pub fn endpoint_sql_server(port: u16) -> (text: String)
    ensures
        text@ == "tcp:127.0.0.1,"@ + decimal(port as nat),
{
    let mut text = "tcp:127.0.0.1,".to_owned();
    append_number(&mut text, port as u128);
    text
}

/// Confirms that `text` has been copied.
pub fn copied(text: &str) -> (notice: String)
    ensures
        notice@ == "Copied "@ + text@,
{
    crate::text::joined("Copied ", text)
}

/// What a preset does.
pub fn preset_hint(rate: u64) -> (text: String)
    ensures
        text@ == decimal(rate as nat) + " KiB/s in both directions"@,
{
    let mut text = crate::text::number_text(rate);
    text.append(" KiB/s in both directions");
    text
}

/// A rate in KiB/s as megabits per second.
pub open spec fn megabits_text(kib: u64) -> Seq<char> {
    let megabits = closest(kib as nat, 1).shifted(13).over(closest(1_000_000, 1));
    two_decimals(megabits.numerator(), megabits.denominator()) + " Mbit/s"@
}

/// A rate in KiB/s as megabits per second.
pub fn megabits(kib: u64) -> (text: String)
    ensures
        text@ == megabits_text(kib),
{
    let (n, d) = whole(kib).shift(13).divide(whole(1_000_000)).fraction();
    let mut text = String::new();
    append_two_decimals(&mut text, n, d);
    text.append(" Mbit/s");
    assert(text@ =~= megabits_text(kib));
    text
}

/// `bytes` in MiB, with two decimal places.
pub open spec fn mib_text(bytes: u64) -> Seq<char> {
    let mib = closest(bytes as nat, 1).shifted(-20);
    two_decimals(mib.numerator(), mib.denominator())
}

fn append_mib(out: &mut String, bytes: u64)
    ensures
        final(out)@ == old(out)@ + mib_text(bytes),
{
    let (n, d) = whole(bytes).shift(-20).fraction();
    append_two_decimals(out, n, d);
}

/// How many bytes a run has transferred.
pub fn totals_text(totals: PerDirection<u64>) -> (text: String)
    ensures
        text@ == mib_text(totals.download) + " MiB down, "@ + mib_text(totals.upload)
            + " MiB up"@,
{
    let mut text = String::new();
    append_mib(&mut text, totals.download);
    text.append(" MiB down, ");
    append_mib(&mut text, totals.upload);
    text.append(" MiB up");
    assert(text@ =~= mib_text(totals.download) + " MiB down, "@ + mib_text(totals.upload)
        + " MiB up"@);
    text
}

/// How many connections there are.
pub fn connections_text(connections: usize) -> (text: String)
    ensures
        text@ == decimal(connections as nat) + if connections == 1 {
            " connection"@
        } else {
            " connections"@
        },
{
    let mut text = crate::text::number_text(connections as u64);
    text.append(
        if connections == 1 {
            " connection"
        } else {
            " connections"
        },
    );
    text
}

/// The heading of the list of events.
pub fn events_heading(count: usize) -> (text: String)
    ensures
        text@ == "Session events ("@ + decimal(count as nat) + ")"@,
{
    let mut text = "Session events (".to_owned();
    append_number(&mut text, count as u128);
    text.append(")");
    text
}

/// An event of a run that started at `started`: how far into the run it happened,
/// and what it was.
pub fn event_line(event: &Event, started: u64) -> (text: String)
    ensures
        text@ == clock_text(whole_seconds_of(minus(event.at, started))) + "  "@ + event.text@,
{
    let nanos: u64 = if event.at > started {
        event.at - started
    } else {
        0
    };
    let clock = format_clock(whole_seconds(nanos));
    joined3(clock.as_str(), "  ", event.text.as_str())
}

/// A rate in megabits per second is 8192 times as many bits, through a million, rounded once
/// and shown with two decimal places.
pub proof fn lemma_megabits_are_bits(kib: u64)
    ensures
        ({
            let rate = closest(kib as nat, 1);
            let megabits = closest(8192 * rate.numerator(), 1_000_000 * rate.denominator());
            megabits_text(kib) == two_decimals(megabits.numerator(), megabits.denominator())
                + seq![' ', 'M', 'b', 'i', 't', '/', 's']
        }),
        kib < TOP ==> closest(kib as nat, 1).numerator() == kib * closest(
            kib as nat,
            1,
        ).denominator(),
{
    reveal_strlit(" Mbit/s");
    assert(" Mbit/s"@ =~= seq![' ', 'M', 'b', 'i', 't', '/', 's']);
    if kib < TOP {
        lemma_whole_numbers_are_kept(kib as nat);
    }
    let rate = closest(kib as nat, 1);
    let million = closest(1_000_000, 1);
    let bits = rate.shifted(13);
    lemma_whole_numbers_are_kept(1_000_000);
    lemma_shifting_is_exact(rate, 13);
    lemma_scale_is_positive(2, rate.exponent);
    lemma_scale_is_positive(2, bits.exponent);
    lemma_scale_is_positive(2, million.exponent);
    assert(up(2, 13) == 8192 && down(2, 13) == 1) by {
        reveal_with_fuel(power, 14);
    }
    let (rn, rd) = (rate.numerator(), rate.denominator());
    let (bn, bd) = (bits.numerator(), bits.denominator());
    let (mn, md) = (million.numerator(), million.denominator());
    assert(bn * rd == (rn * 8192) * bd) by {
        assert(rd * 1 == rd);
    }
    assert((bn * md) * (1_000_000 * rd) == (8192 * rn) * (bd * mn)) by (nonlinear_arith)
        requires
            bn * rd == (rn * 8192) * bd,
            mn == 1_000_000 * md,
    ;
    assert(bd * mn > 0) by (nonlinear_arith)
        requires
            bd > 0,
            mn == 1_000_000 * md,
            md > 0,
    ;
    lemma_closest_is_by_value(bn * md, bd * mn, 8192 * rn, 1_000_000 * rd);
}

/// Bytes are shown in MiB of 1,048,576 bytes, with two decimal places.
pub proof fn lemma_mib_are_bytes(bytes: u64)
    ensures
        ({
            let count = closest(bytes as nat, 1);
            mib_text(bytes) == two_decimals(count.numerator(), 1_048_576 * count.denominator())
        }),
        bytes < TOP ==> mib_text(bytes) == two_decimals(bytes as nat, 1_048_576),
{
    let count = closest(bytes as nat, 1);
    let mib = count.shifted(-20);
    lemma_shifting_is_exact(count, -20);
    lemma_scale_is_positive(2, count.exponent);
    lemma_scale_is_positive(2, mib.exponent);
    assert(up(2, -20) == 1 && down(2, -20) == 1_048_576) by {
        reveal_with_fuel(power, 21);
    }
    let (n, d) = (count.numerator(), count.denominator());
    let (m, c) = (mib.numerator(), mib.denominator());
    assert(m * (1_048_576 * d) == n * c) by {
        assert(n * 1 == n);
        assert(d * 1_048_576 == 1_048_576 * d);
    }
    lemma_two_decimals_are_by_value(m, c, n, 1_048_576 * d);
    if bytes < TOP {
        lemma_whole_numbers_are_kept(bytes as nat);
        assert(n * 1_048_576 == bytes * (1_048_576 * d)) by (nonlinear_arith)
            requires
                n == bytes * d,
        ;
        lemma_two_decimals_are_by_value(n, 1_048_576 * d, bytes as nat, 1_048_576);
    }
}

proof fn lemma_two_decimals_are_by_value(n: nat, d: nat, m: nat, c: nat)
    requires
        d > 0,
        c > 0,
        n * c == m * d,
    ensures
        two_decimals(n, d) == two_decimals(m, c),
{
    assert((n * 100) * c == (m * 100) * d) by (nonlinear_arith)
        requires
            n * c == m * d,
    ;
    lemma_rounded_is_monotone(n * 100, d, m * 100, c);
    lemma_rounded_is_monotone(m * 100, c, n * 100, d);
}

} // verus!
