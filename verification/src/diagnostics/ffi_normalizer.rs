//! Normalized crash events at native code boundaries.
//!
//! A crash is described by one schema whatever the platform. The numbers of
//! the signals are the platform's.

use vstd::prelude::*;

use crate::text::{digits, hex_text, law_digits, value_in, joined, lines, lines_of, signed_decimal, signed_decimal_text, string_views, text_of, texts};

verus! {

/// Unified schema for a normalized crash event.
#[derive(Debug)]
pub struct NormalizedCrashPayload {
    pub signal: String,
    pub signal_number: i32,
    pub fault_address: Option<String>,
    pub backtrace_frames: Vec<String>,
    pub thread_id: u64,
    pub timestamp_seconds: u64,
}

/// The numbers that a platform gives to the signals that are watched.
#[derive(Debug, Clone, Copy)]
pub struct SignalNumbers {
    pub segv: i32,
    pub bus: i32,
    pub ill: i32,
    pub fpe: i32,
    pub abrt: i32,
    pub usr1: i32,
    pub usr2: i32,
}

/// The name of a signal. A platform without signals gives no numbers.
pub open spec fn signal_text(numbers: Option<SignalNumbers>, signum: i32) -> Seq<char> {
    match numbers {
        None => "UNKNOWN"@,
        Some(numbers) => if signum == numbers.segv {
            "SIGSEGV"@
        } else if signum == numbers.bus {
            "SIGBUS"@
        } else if signum == numbers.ill {
            "SIGILL"@
        } else if signum == numbers.fpe {
            "SIGFPE"@
        } else if signum == numbers.abrt {
            "SIGABRT"@
        } else if signum == numbers.usr1 {
            "SIGUSR1"@
        } else if signum == numbers.usr2 {
            "SIGUSR2"@
        } else {
            "SIG"@ + signed_decimal(signum as int)
        },
    }
}

/// The name of a signal.
pub fn signal_name(numbers: &Option<SignalNumbers>, signum: i32) -> (name: String)
    ensures
        name@ == signal_text(*numbers, signum),
        numbers is None ==> name@ == "UNKNOWN"@,
{
    let numbers = match numbers {
        Some(numbers) => numbers,
        None => return "UNKNOWN".to_owned(),
    };
    if signum == numbers.segv {
        "SIGSEGV".to_owned()
    } else if signum == numbers.bus {
        "SIGBUS".to_owned()
    } else if signum == numbers.ill {
        "SIGILL".to_owned()
    } else if signum == numbers.fpe {
        "SIGFPE".to_owned()
    } else if signum == numbers.abrt {
        "SIGABRT".to_owned()
    } else if signum == numbers.usr1 {
        "SIGUSR1".to_owned()
    } else if signum == numbers.usr2 {
        "SIGUSR2".to_owned()
    } else {
        joined("SIG", &signed_decimal_text(signum as i64))
    }
}

/// The signals that are watched, in the order in which they are.
pub fn watched_signals(numbers: &SignalNumbers) -> (signals: Vec<i32>)
    ensures
        signals@ == seq![
            numbers.segv,
            numbers.bus,
            numbers.ill,
            numbers.fpe,
            numbers.abrt,
            numbers.usr1,
            numbers.usr2,
        ],
{
    let mut signals: Vec<i32> = Vec::new();
    signals.push(numbers.segv);
    signals.push(numbers.bus);
    signals.push(numbers.ill);
    signals.push(numbers.fpe);
    signals.push(numbers.abrt);
    signals.push(numbers.usr1);
    signals.push(numbers.usr2);
    assert(signals@ =~= seq![
        numbers.segv,
        numbers.bus,
        numbers.ill,
        numbers.fpe,
        numbers.abrt,
        numbers.usr1,
        numbers.usr2,
    ]);
    signals
}

/// The least size of the stack on which signals are handled.
pub const MIN_STACK: usize = 131072;

/// The size of the stack on which signals are handled, given what the platform
/// asks for.
pub fn stack_size(platform: usize) -> (size: usize)
    ensures
        size == if platform < MIN_STACK {
            MIN_STACK
        } else {
            platform
        },
        platform < 131072 ==> size == 131072,
        platform >= 131072 ==> size == platform,
{
    if platform < MIN_STACK {
        MIN_STACK
    } else {
        platform
    }
}

/// The text of an address; zero is none.
pub open spec fn address_text(address: u64) -> Option<Seq<char>> {
    if address == 0 {
        None
    } else {
        Some("0x"@ + digits(address as nat, 16))
    }
}

/// The frames of a backtrace, one for each of its lines.
fn frames(backtrace: &str) -> (list: Vec<String>)
    ensures
        string_views(list@) == lines(backtrace@),
{
    let all = lines_of(backtrace);
    let mut list: Vec<String> = Vec::new();
    let mut i: usize = 0;
    while i < all.len()
        invariant
            i <= all.len(),
            list@.len() == i,
            forall|j: int| 0 <= j < i ==> (#[trigger] list@[j])@ == all@[j]@,
        decreases all.len() - i,
    {
        let frame = text_of(&all[i], 0, all[i].len());
        assert(frame@ =~= all@[i as int]@);
        list.push(frame);
        i = i + 1;
    }
    assert(string_views(list@) =~= texts(all@));
    list
}

/// Describe a crash. The address is zero if there is none, and the backtrace is
/// missing where none was taken.
pub fn normalize(
    numbers: &Option<SignalNumbers>,
    signum: i32,
    address: u64,
    backtrace: Option<&str>,
    thread_id: u64,
    timestamp_seconds: u64,
) -> (payload: NormalizedCrashPayload)
    ensures
        payload.signal@ == signal_text(*numbers, signum),
        payload.signal_number == signum,
        match payload.fault_address {
            Some(text) => address_text(address) == Some(text@),
            None => address_text(address) is None,
        },
        payload.fault_address is None <==> address == 0,
        match backtrace {
            Some(backtrace) => string_views(payload.backtrace_frames@) == lines(backtrace@),
            None => payload.backtrace_frames@.len() == 0,
        },
        payload.thread_id == thread_id,
        payload.timestamp_seconds == timestamp_seconds,
{
    NormalizedCrashPayload {
        signal: signal_name(numbers, signum),
        signal_number: signum,
        fault_address: if address == 0 {
            None
        } else {
            Some(joined("0x", &hex_text(address)))
        },
        backtrace_frames: match backtrace {
            Some(backtrace) => frames(backtrace),
            None => Vec::new(),
        },
        thread_id,
        timestamp_seconds,
    }
}

/// The numbers of the signals are all different.
pub open spec fn are_apart(numbers: SignalNumbers) -> bool {
    seq![
        numbers.segv,
        numbers.bus,
        numbers.ill,
        numbers.fpe,
        numbers.abrt,
        numbers.usr1,
        numbers.usr2,
    ].no_duplicates()
}

/// Every signal that is watched has its own name, on any platform that tells
/// them apart. Any other is called by its number, and without signals there is
/// no name.
pub proof fn law_signal_names(numbers: SignalNumbers, signum: i32)
    requires
        are_apart(numbers),
    ensures
        signal_text(Some(numbers), numbers.segv) == "SIGSEGV"@,
        signal_text(Some(numbers), numbers.bus) == "SIGBUS"@,
        signal_text(Some(numbers), numbers.ill) == "SIGILL"@,
        signal_text(Some(numbers), numbers.fpe) == "SIGFPE"@,
        signal_text(Some(numbers), numbers.abrt) == "SIGABRT"@,
        signal_text(Some(numbers), numbers.usr1) == "SIGUSR1"@,
        signal_text(Some(numbers), numbers.usr2) == "SIGUSR2"@,
        !seq![
            numbers.segv,
            numbers.bus,
            numbers.ill,
            numbers.fpe,
            numbers.abrt,
            numbers.usr1,
            numbers.usr2,
        ].contains(signum) ==> signal_text(Some(numbers), signum) == "SIG"@ + signed_decimal(
            signum as int,
        ),
        signal_text(None, signum) == "UNKNOWN"@,
{
    let all = seq![
        numbers.segv,
        numbers.bus,
        numbers.ill,
        numbers.fpe,
        numbers.abrt,
        numbers.usr1,
        numbers.usr2,
    ];
    assert(all[0] == numbers.segv && all[1] == numbers.bus && all[2] == numbers.ill && all[3]
        == numbers.fpe && all[4] == numbers.abrt && all[5] == numbers.usr1 && all[6]
        == numbers.usr2);
}

/// The address zero is none. Any other is written in hexadecimal notation, and
/// can be read back.
pub proof fn law_addresses(address: u64)
    ensures
        address_text(address) is None <==> address == 0,
        address_text(address) matches Some(text) ==> text.len() > 2 && text[0] == '0' && text[1]
            == 'x' && value_in(text.skip(2), 16) == address,
{
    reveal_strlit("0x");
    law_digits(address as nat, 16);
    if let Some(text) = address_text(address) {
        assert(text.skip(2) =~= digits(address as nat, 16));
    }
}

} // verus!
