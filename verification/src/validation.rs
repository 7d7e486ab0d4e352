//! What the entry point reads from its arguments: the whitelist entries and
//! the interval between two writes of the document.

use vstd::prelude::*;
use crate::network::{cidr_network, listed, Network};
use crate::text::{chars_of, find, find_char, parse_unsigned, texts_of, unsigned_numeral};

verus! {

/// The operations that a whitelist entry admits.
#[derive(Clone, Copy, Debug, PartialEq, Eq, Structural)]
pub enum Op {
    Read,
    Write,
    ReadWrite,
}

/// The operation that `text` names: `r`, `w` or `rw`.
pub open spec fn op_code(text: Seq<char>) -> Option<Op> {
    if text.len() == 1 && text[0] == 'r' {
        Some(Op::Read)
    } else if text.len() == 1 && text[0] == 'w' {
        Some(Op::Write)
    } else if text.len() == 2 && text[0] == 'r' && text[1] == 'w' {
        Some(Op::ReadWrite)
    } else {
        None
    }
}

/// The operation that the characters from `from` on name.
fn op_of(chars: &Vec<char>, from: usize) -> (out: Option<Op>)
    requires
        from <= chars.len(),
    ensures
        out == op_code(chars@.skip(from as int)),
{
    let n = chars.len() - from;
    if n == 1 && chars[from] == 'r' {
        Some(Op::Read)
    } else if n == 1 && chars[from] == 'w' {
        Some(Op::Write)
    } else if n == 2 && chars[from] == 'r' && chars[from + 1] == 'w' {
        Some(Op::ReadWrite)
    } else {
        None
    }
}

impl Op {
    /// Whether an entry with this operation joins the read list.
    pub open spec fn reads(self) -> bool {
        self is Read || self is ReadWrite
    }

    /// Whether an entry with this operation joins the write list.
    pub open spec fn writes(self) -> bool {
        self is Write || self is ReadWrite
    }

    /// Reads the operation of a whitelist entry.
    pub fn parse(target: &str) -> (out: Result<Self, String>)
        ensures
            match op_code(target@) {
                Some(op) => out == Ok::<Op, String>(op),
                None => out matches Err(text) && text@ == "Error parsing operation"@,
            },
    {
        let chars = chars_of(target);
        assert(chars@.skip(0) == chars@);
        match op_of(&chars, 0) {
            Some(op) => Ok(op),
            None => Err("Error parsing operation".to_string()),
        }
    }
}

/// A span of time: whole seconds, and the nanoseconds of the second begun.
#[derive(Clone, Copy, Debug, PartialEq, Eq, Structural)]
pub struct Interval {
    pub secs: u64,
    pub nanos: u32,
}

impl Interval {
    /// The span in nanoseconds.
    pub open spec fn total_nanos(self) -> nat {
        self.secs as nat * 1_000_000_000 + self.nanos as nat
    }
}

/// The unit that ends `text`: the length of its suffix and its nanoseconds.
/// `ms` is a millisecond, `us` a microsecond, any other `s` a second.
pub open spec fn time_unit(text: Seq<char>) -> Option<(nat, nat)> {
    let n = text.len() as int;
    if n >= 2 && text[n - 2] == 'm' && text[n - 1] == 's' {
        Some((2, 1_000_000))
    } else if n >= 2 && text[n - 2] == 'u' && text[n - 1] == 's' {
        Some((2, 1_000))
    } else if n >= 1 && text[n - 1] == 's' {
        Some((1, 1_000_000_000))
    } else {
        None
    }
}

/// The nanoseconds that `text` denotes: an unsigned numeral of 64 bits before
/// one of the units.
pub open spec fn time_nanos(text: Seq<char>) -> Option<nat> {
    match time_unit(text) {
        Some((suffix, scale)) => match unsigned_numeral(
            text.take(text.len() - suffix),
            u64::MAX as nat,
        ) {
            Some(count) => Some(count * scale),
            None => None,
        },
        None => None,
    }
}

/// Reads the interval between two writes of the document.
pub fn validate_time(val: &str) -> (out: Result<Interval, String>)
    ensures
        match time_nanos(val@) {
            Some(nanos) => out matches Ok(interval) && interval.total_nanos() == nanos
                && interval.nanos < 1_000_000_000,
            None => out matches Err(text) && text@
                == "The time must be a whole number suffixed by 's', 'ms', or 'us'"@,
        },
{
    let chars = chars_of(val);
    let n = chars.len();
    if n >= 2 && chars[n - 2] == 'm' && chars[n - 1] == 's' {
        assert(chars@.subrange(0, n - 2) == chars@.take(n - 2));
        if let Some(count) = parse_unsigned(&chars, 0, n - 2, u64::MAX) {
            let nanos: u32 = ((count % 1_000) * 1_000_000) as u32;
            assert((count / 1_000) * 1_000_000_000 + (count % 1_000) * 1_000_000 == count
                * 1_000_000);
            return Ok(Interval { secs: count / 1_000, nanos });
        }
    } else if n >= 2 && chars[n - 2] == 'u' && chars[n - 1] == 's' {
        assert(chars@.subrange(0, n - 2) == chars@.take(n - 2));
        if let Some(count) = parse_unsigned(&chars, 0, n - 2, u64::MAX) {
            let nanos: u32 = ((count % 1_000_000) * 1_000) as u32;
            assert((count / 1_000_000) * 1_000_000_000 + (count % 1_000_000) * 1_000 == count
                * 1_000);
            return Ok(Interval { secs: count / 1_000_000, nanos });
        }
    } else if n >= 1 && chars[n - 1] == 's' {
        assert(chars@.subrange(0, n - 1) == chars@.take(n - 1));
        if let Some(count) = parse_unsigned(&chars, 0, n - 1, u64::MAX) {
            return Ok(Interval { secs: count, nanos: 0 });
        }
    }
    Err("The time must be a whole number suffixed by 's', 'ms', or 'us'".to_string())
}

/// A whitelist entry as a mathematical value.
pub struct Grant {
    pub network: Network,
    pub op: Op,
}

/// What the entry `text` grants: up to its first `:` a network in CIDR
/// notation, after it an operation; without a `:` the whole is the network
/// and both operations are granted. None where either part is refused.
pub open spec fn whitelist_entry(text: Seq<char>) -> Option<Grant> {
    let cut = find_char(text, ':');
    if cut < text.len() {
        match (op_code(text.skip(cut + 1)), cidr_network(text.take(cut))) {
            (Some(op), Some(network)) => Some(Grant { network, op }),
            _ => None,
        }
    } else {
        match cidr_network(text) {
            Some(network) => Some(Grant { network, op: Op::ReadWrite }),
            None => None,
        }
    }
}

/// The networks that the valid entries among `targets` grant reading, or
/// writing where `write` is set, in the order of the entries.
pub open spec fn granted(targets: Seq<Seq<char>>, write: bool) -> Seq<Network>
    decreases targets.len(),
{
    if targets.len() == 0 {
        Seq::empty()
    } else {
        let earlier = granted(targets.drop_last(), write);
        match whitelist_entry(targets.last()) {
            Some(grant) => if (write && grant.op.writes()) || (!write && grant.op.reads()) {
                earlier.push(grant.network)
            } else {
                earlier
            },
            None => earlier,
        }
    }
}

/// A whitelist: absent where no network is listed.
pub open spec fn whitelist(networks: Seq<Network>) -> Option<Seq<Network>> {
    if networks.len() > 0 {
        Some(networks)
    } else {
        None
    }
}

/// Reads one whitelist entry.
fn parse_entry(text: &str) -> (out: Result<(Network, Op), String>)
    ensures
        match whitelist_entry(text@) {
            Some(grant) => out == Ok::<(Network, Op), String>((grant.network, grant.op))
                && grant.network.wf(),
            None => out is Err,
        },
{
    let chars = chars_of(text);
    let cut = find(&chars, ':');
    if cut < chars.len() {
        let op = match op_of(&chars, cut + 1) {
            Some(op) => op,
            None => {
                return Err("Error parsing operation".to_string());
            },
        };
        assert(text@.subrange(0, cut as int) == text@.take(cut as int));
        match Network::parse(text.substring_char(0, cut)) {
            Ok(network) => Ok((network, op)),
            Err(reason) => Err("Error parsing CIDR part of string: ".to_string().concat(reason.as_str())),
        }
    } else {
        match Network::parse(text) {
            Ok(network) => Ok((network, Op::ReadWrite)),
            Err(reason) => Err("Error parsing CIDR part of string: ".to_string().concat(reason.as_str())),
        }
    }
}

/// Reads the whitelist entries: the networks that may read and those that
/// may write, each list absent where it would be empty.
pub fn parse_whitelist(target: Vec<String>) -> (out: Result<
    (Option<Vec<Network>>, Option<Vec<Network>>),
    String,
>)
    ensures
        (forall|i: int| 0 <= i < target@.len() ==> whitelist_entry(#[trigger] target@[i]@) is Some)
            ==> (out matches Ok(lists) && listed(lists.0) == whitelist(
            granted(texts_of(target@), false),
        ) && listed(lists.1) == whitelist(granted(texts_of(target@), true))),
        (exists|i: int| 0 <= i < target@.len() && whitelist_entry(#[trigger] target@[i]@) is None)
            ==> out is Err,
        out matches Ok(lists) ==> {
            &&& lists.0 matches Some(networks) ==> forall|i: int|
                0 <= i < networks@.len() ==> (#[trigger] networks@[i]).wf()
            &&& lists.1 matches Some(networks) ==> forall|i: int|
                0 <= i < networks@.len() ==> (#[trigger] networks@[i]).wf()
        },
{
    let ghost texts = texts_of(target@);
    let mut read_whitelist: Vec<Network> = Vec::new();
    let mut write_whitelist: Vec<Network> = Vec::new();
    let mut i: usize = 0;
    assert(texts.take(0) == Seq::<Seq<char>>::empty());
    while i < target.len()
        invariant
            i <= target.len(),
            texts == texts_of(target@),
            forall|k: int| 0 <= k < i ==> whitelist_entry(#[trigger] target@[k]@) is Some,
            read_whitelist@ == granted(texts.take(i as int), false),
            write_whitelist@ == granted(texts.take(i as int), true),
            forall|k: int| 0 <= k < read_whitelist@.len() ==> (#[trigger] read_whitelist@[k]).wf(),
            forall|k: int|
                0 <= k < write_whitelist@.len() ==> (#[trigger] write_whitelist@[k]).wf(),
        decreases target.len() - i,
    {
        let ghost upto = texts.take(i + 1);
        assert(upto.drop_last() == texts.take(i as int));
        assert(upto.last() == target@[i as int]@);
        let (net, op) = match parse_entry(target[i].as_str()) {
            Ok(entry) => entry,
            Err(reason) => {
                return Err(reason);
            },
        };
        match op {
            Op::Read | Op::ReadWrite => {
                read_whitelist.push(net);
            },
            Op::Write => {},
        }
        match op {
            Op::Write | Op::ReadWrite => {
                write_whitelist.push(net);
            },
            Op::Read => {},
        }
        i = i + 1;
    }
    assert(texts.take(target.len() as int) == texts);
    let read = if read_whitelist.len() > 0 {
        Some(read_whitelist)
    } else {
        None
    };
    let write = if write_whitelist.len() > 0 {
        Some(write_whitelist)
    } else {
        None
    };
    Ok((read, write))
}

} // verus!
