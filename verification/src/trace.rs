//! The text form of the event log: one line per event, ended by a carriage
//! return and a line feed.
//!
//! * a join: `<timestep>: Node <id> joined`
//! * a failure: `<timestep>: Node <failed id> marked node <reporting id> as failed`
//!
//! Numbers are written in decimal without leading zeros.

use crate::log::LogEvent;
use vstd::prelude::*;
use vstd::string::*;

verus! {

/// The decimal digits of `n`, most significant first, as ASCII bytes.
pub open spec fn decimal(n: nat) -> Seq<u8>
    decreases n,
{
    if n < 10 {
        seq![('0' as u8 + n) as u8]
    } else {
        decimal(n / 10).push(('0' as u8 + n % 10) as u8)
    }
}

/// The bytes of a text made of ASCII characters.
pub open spec fn ascii(text: Seq<char>) -> Seq<u8> {
    Seq::new(text.len(), |i: int| text[i] as u8)
}

/// The line that stands for `event` at `timestep` in the trace.
pub open spec fn event_line(timestep: u32, event: LogEvent) -> Seq<u8> {
    match event {
        LogEvent::Join { joined_id } => decimal(timestep as nat) + ascii(": Node "@) + decimal(
            joined_id as nat,
        ) + ascii(" joined\r\n"@),
        LogEvent::Failure { failed_id, reporting_id } => decimal(timestep as nat) + ascii(
            ": Node "@,
        ) + decimal(failed_id as nat) + ascii(" marked node "@) + decimal(reporting_id as nat)
            + ascii(" as failed\r\n"@),
    }
}

/// The lines of `events`, one after the other.
pub open spec fn trace_text(events: Seq<(u32, LogEvent)>) -> Seq<u8>
    decreases events.len(),
{
    if events.len() == 0 {
        Seq::empty()
    } else {
        trace_text(events.drop_last()) + event_line(events.last().0, events.last().1)
    }
}

/// Appends the decimal digits of `n` to `buf`.
pub fn push_decimal(buf: &mut Vec<u8>, n: u32)
    ensures
        final(buf)@ == old(buf)@ + decimal(n as nat),
    decreases n,
{
    if n >= 10 {
        push_decimal(buf, n / 10);
    }
    let digit: u8 = (n % 10) as u8;
    buf.push('0' as u8 + digit);
}

/// Appends the bytes of an ASCII text to `buf`.
fn push_ascii(buf: &mut Vec<u8>, text: &str)
    requires
        is_ascii(text),
    ensures
        final(buf)@ == old(buf)@ + ascii(text@),
{
    broadcast use is_ascii_spec_bytes;

    let bytes = text.as_bytes();
    let mut i: usize = 0;
    while i < bytes.len()
        invariant
            i <= bytes@.len(),
            bytes@ == ascii(text@),
            buf@ == old(buf)@ + bytes@.subrange(0, i as int),
        decreases bytes@.len() - i,
    {
        buf.push(bytes[i]);
        i += 1;
    }
}

/// Appends the line of `event` at `timestep` to `buf`.
pub fn push_event_line(buf: &mut Vec<u8>, timestep: u32, event: LogEvent)
    ensures
        final(buf)@ == old(buf)@ + event_line(timestep, event),
{
    proof {
        reveal_strlit(": Node ");
        reveal_strlit(" joined\r\n");
        reveal_strlit(" marked node ");
        reveal_strlit(" as failed\r\n");
    }
    push_decimal(buf, timestep);
    push_ascii(buf, ": Node ");
    match event {
        LogEvent::Join { joined_id } => {
            push_decimal(buf, joined_id as u32);
            push_ascii(buf, " joined\r\n");
        },
        LogEvent::Failure { failed_id, reporting_id } => {
            push_decimal(buf, failed_id as u32);
            push_ascii(buf, " marked node ");
            push_decimal(buf, reporting_id as u32);
            push_ascii(buf, " as failed\r\n");
        },
    }
}

/// The line of `event` at `timestep`.
pub fn render_event(timestep: u32, event: LogEvent) -> (line: Vec<u8>)
    ensures
        line@ == event_line(timestep, event),
{
    let mut line: Vec<u8> = Vec::new();
    push_event_line(&mut line, timestep, event);
    line
}

} // verus!
