//! The status line.

use vstd::prelude::*;

use crate::text::{decimal, to_decimal};

verus! {

/// The status line while audio comes in: what is shown, and a hint on keys.
pub open spec fn ready_status(
    name: Seq<char>,
    channel: nat,
    channels: nat,
    rate: nat,
    window: nat,
    hint: Seq<char>,
) -> Seq<char> {
    " termwaves: "@ + name + " · ch "@ + decimal(channel) + "/"@ + decimal(channels) + " @ "@
        + decimal(rate) + " Hz · window "@ + decimal(window) + " samp   "@ + hint
}

/// The status line as long as no audio has come.
pub open spec fn waiting_status(hint: Seq<char>) -> Seq<char> {
    " termwaves: waiting for audio…   "@ + hint
}

/// Writes the status line while audio comes in.
pub fn write_ready_status(
    name: &str,
    channel: usize,
    channels: usize,
    rate: u32,
    window: usize,
    hint: &str,
) -> (s: String)
    ensures
        s@ == ready_status(
            name@,
            channel as nat,
            channels as nat,
            rate as nat,
            window as nat,
            hint@,
        ),
{
    let mut s = " termwaves: ".to_string();
    s.append(name);
    s.append(" · ch ");
    s.append(to_decimal(channel as u64).as_str());
    s.append("/");
    s.append(to_decimal(channels as u64).as_str());
    s.append(" @ ");
    s.append(to_decimal(rate as u64).as_str());
    s.append(" Hz · window ");
    s.append(to_decimal(window as u64).as_str());
    s.append(" samp   ");
    s.append(hint);
    s
}

/// Writes the status line as long as no audio has come.
pub fn write_waiting_status(hint: &str) -> (s: String)
    ensures
        s@ == waiting_status(hint@),
{
    let mut s = " termwaves: waiting for audio…   ".to_string();
    s.append(hint);
    s
}

} // verus!
