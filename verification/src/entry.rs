//! The structured record parsed from one firewall log line, and the
//! packet direction derived from its interface fields.
use vstd::prelude::*;

verus! {

/// Mathematical model of a log entry: every text field as a character
/// sequence.
pub struct EntrySpec {
    pub timestamp: Seq<char>,
    pub action: Seq<char>,
    pub in_iface: Option<Seq<char>>,
    pub out_iface: Option<Seq<char>>,
    pub src_ip: Option<Seq<char>>,
    pub dst_ip: Option<Seq<char>>,
    pub src_port: Option<u16>,
    pub dst_port: Option<u16>,
    pub proto: Option<Seq<char>>,
    pub service: Option<Seq<char>>,
    pub raw: Seq<char>,
}

/// One parsed firewall log record. `raw` always holds the verbatim
/// source line and is the only cross-reload identity of the entry.
pub struct LogEntry {
    pub timestamp: String,
    pub action: String,
    pub in_iface: Option<String>,
    pub out_iface: Option<String>,
    pub src_ip: Option<String>,
    pub dst_ip: Option<String>,
    pub src_port: Option<u16>,
    pub dst_port: Option<u16>,
    pub proto: Option<String>,
    pub service: Option<String>,
    pub raw: String,
}

impl View for LogEntry {
    type V = EntrySpec;

    open spec fn view(&self) -> EntrySpec {
        EntrySpec {
            timestamp: self.timestamp@,
            action: self.action@,
            in_iface: self.in_iface.deep_view(),
            out_iface: self.out_iface.deep_view(),
            src_ip: self.src_ip.deep_view(),
            dst_ip: self.dst_ip.deep_view(),
            src_port: self.src_port,
            dst_port: self.dst_port,
            proto: self.proto.deep_view(),
            service: self.service.deep_view(),
            raw: self.raw@,
        }
    }
}

impl DeepView for LogEntry {
    type V = EntrySpec;

    open spec fn deep_view(&self) -> EntrySpec {
        self.view()
    }
}

impl Default for LogEntry {
    /// An entry with every field empty or absent.
    fn default() -> (r: Self)
        ensures
            r@.timestamp.len() == 0,
            r@.action.len() == 0,
            r@.in_iface is None,
            r@.out_iface is None,
            r@.src_ip is None,
            r@.dst_ip is None,
            r@.src_port is None,
            r@.dst_port is None,
            r@.proto is None,
            r@.service is None,
            r@.raw.len() == 0,
    {
        LogEntry {
            timestamp: String::new(),
            action: String::new(),
            in_iface: None,
            out_iface: None,
            src_ip: None,
            dst_ip: None,
            src_port: None,
            dst_port: None,
            proto: None,
            service: None,
            raw: String::new(),
        }
    }
}

/// Derived packet direction of an entry.
#[derive(PartialEq, Eq, Structural, Clone, Copy, Debug)]
pub enum Direction {
    Inbound,
    Outbound,
    Forwarded,
    Unknown,
}

/// Whether an optional interface field is present with a nonempty name.
pub open spec fn has_iface(o: Option<Seq<char>>) -> bool {
    match o {
        Some(s) => s.len() > 0,
        None => false,
    }
}

/// Direction as derived from the interface fields alone: only `IN`
/// nonempty means inbound, only `OUT` nonempty means outbound, both
/// mean forwarded, neither means unknown.
pub open spec fn spec_direction(e: EntrySpec) -> Direction {
    let has_in = has_iface(e.in_iface);
    let has_out = has_iface(e.out_iface);
    if has_in && !has_out {
        Direction::Inbound
    } else if !has_in && has_out {
        Direction::Outbound
    } else if has_in && has_out {
        Direction::Forwarded
    } else {
        Direction::Unknown
    }
}

/// The label shown for a direction.
pub open spec fn direction_label(d: Direction) -> Seq<char> {
    match d {
        Direction::Inbound => seq!['I', 'N'],
        Direction::Outbound => seq!['O', 'U', 'T'],
        Direction::Forwarded => seq!['F', 'W', 'D'],
        Direction::Unknown => seq!['?'],
    }
}

fn has_nonempty(o: &Option<String>) -> (r: bool)
    ensures
        r == has_iface(o.deep_view()),
{
    match o {
        Some(s) => s.as_str().unicode_len() > 0,
        None => false,
    }
}

impl LogEntry {
    /// The derived direction of this entry.
    pub fn direction_kind(&self) -> (r: Direction)
        ensures
            r == spec_direction(self@),
    {
        let has_in = has_nonempty(&self.in_iface);
        let has_out = has_nonempty(&self.out_iface);
        if has_in && !has_out {
            Direction::Inbound
        } else if !has_in && has_out {
            Direction::Outbound
        } else if has_in && has_out {
            Direction::Forwarded
        } else {
            Direction::Unknown
        }
    }

    /// The direction label of this entry.
    pub fn direction(&self) -> (r: &'static str)
        ensures
            r@ == direction_label(spec_direction(self@)),
    {
        match self.direction_kind() {
            Direction::Inbound => {
                let s = "IN";
                proof {
                    reveal_strlit("IN");
                    assert(s@ =~= seq!['I', 'N']);
                }
                s
            },
            Direction::Outbound => {
                let s = "OUT";
                proof {
                    reveal_strlit("OUT");
                    assert(s@ =~= seq!['O', 'U', 'T']);
                }
                s
            },
            Direction::Forwarded => {
                let s = "FWD";
                proof {
                    reveal_strlit("FWD");
                    assert(s@ =~= seq!['F', 'W', 'D']);
                }
                s
            },
            Direction::Unknown => {
                let s = "?";
                proof {
                    reveal_strlit("?");
                    assert(s@ =~= seq!['?']);
                }
                s
            },
        }
    }
}

} // verus!
