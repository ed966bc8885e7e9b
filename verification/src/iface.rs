//! Link-type classification and link-speed normalization for sysfs
//! attribute contents.

use crate::text::{spec_parse_u32, spec_parse_u64, trim};
use crate::text::{parse_trimmed_u32, parse_trimmed_u64};
use vstd::prelude::*;

verus! {

/// The closed set of link kinds a `/sys/class/net/<if>/type` code maps to.
/// Codes are the kernel's `ARPHRD_*` link-type numbers; every code outside
/// the known table collapses to `Unknown`.
#[derive(Clone, Copy, Debug, PartialEq, Eq, Structural)]
pub enum InterfaceType {
    Ethernet,
    Infiniband,
    Can,
    Slip,
    Ppp,
    Tunnel,
    Tunnel6,
    Loopback,
    Fddi,
    Sit,
    IpGre,
    Irda,
    Wireless80211,
    Ieee802154,
    Unknown,
}

/// The fixed lookup table from kernel link-type codes to interface kinds.
pub open spec fn type_of_code(code: u32) -> InterfaceType {
    if code == 1 {
        InterfaceType::Ethernet
    } else if code == 32 {
        InterfaceType::Infiniband
    } else if code == 280 {
        InterfaceType::Can
    } else if code == 256 {
        InterfaceType::Slip
    } else if code == 512 {
        InterfaceType::Ppp
    } else if code == 768 {
        InterfaceType::Tunnel
    } else if code == 769 {
        InterfaceType::Tunnel6
    } else if code == 772 {
        InterfaceType::Loopback
    } else if code == 774 {
        InterfaceType::Fddi
    } else if code == 776 {
        InterfaceType::Sit
    } else if code == 778 {
        InterfaceType::IpGre
    } else if code == 783 {
        InterfaceType::Irda
    } else if code == 801 {
        InterfaceType::Wireless80211
    } else if code == 804 {
        InterfaceType::Ieee802154
    } else {
        InterfaceType::Unknown
    }
}

/// The kind the `type` attribute text denotes: the trimmed text parsed as a
/// `u32` and looked up in the table, with any parse failure collapsing to
/// `Unknown`.
pub open spec fn spec_classify_text(s: Seq<u8>) -> InterfaceType {
    match spec_parse_u32(trim(s)) {
        Some(code) => type_of_code(code),
        None => InterfaceType::Unknown,
    }
}

/// The kind for a read of the `type` attribute that may have failed: a
/// failed read (`None`) is `Unknown`, never an error.
pub open spec fn spec_classify(content: Option<Seq<u8>>) -> InterfaceType {
    match content {
        Some(s) => spec_classify_text(s),
        None => InterfaceType::Unknown,
    }
}

/// Map a raw link-type code to its interface kind.  Every valid code in the
/// known table yields the corresponding variant; every code outside it
/// yields `Unknown`.
pub fn classify_code(code: u32) -> (r: InterfaceType)
    ensures
        r == type_of_code(code),
{
    if code == 1 {
        InterfaceType::Ethernet
    } else if code == 32 {
        InterfaceType::Infiniband
    } else if code == 280 {
        InterfaceType::Can
    } else if code == 256 {
        InterfaceType::Slip
    } else if code == 512 {
        InterfaceType::Ppp
    } else if code == 768 {
        InterfaceType::Tunnel
    } else if code == 769 {
        InterfaceType::Tunnel6
    } else if code == 772 {
        InterfaceType::Loopback
    } else if code == 774 {
        InterfaceType::Fddi
    } else if code == 776 {
        InterfaceType::Sit
    } else if code == 778 {
        InterfaceType::IpGre
    } else if code == 783 {
        InterfaceType::Irda
    } else if code == 801 {
        InterfaceType::Wireless80211
    } else if code == 804 {
        InterfaceType::Ieee802154
    } else {
        InterfaceType::Unknown
    }
}

/// Classify an interface from the contents of its sysfs `type` attribute.
///
/// `content` is the raw bytes of the file, or `None` where the read failed;
/// the function is total and every failure mode (unreadable file,
/// non-numeric text, unknown code) yields `Unknown`.
pub fn classify(content: Option<&[u8]>) -> (r: InterfaceType)
    ensures
        r == spec_classify(match content {
            Some(s) => Some(s@),
            None => None,
        }),
{
    match content {
        Some(s) => {
            match parse_trimmed_u32(s) {
                Some(code) => classify_code(code),
                None => InterfaceType::Unknown,
            }
        },
        None => InterfaceType::Unknown,
    }
}

/// The bits-per-second value the `speed` attribute text denotes: the trimmed
/// text parsed as a `u64` count of Mbps and scaled by 1,000,000, absent when
/// the text does not parse (the kernel's `-1` "unknown speed" sentinel fails
/// the unsigned parse) or the scaled value would not fit a `u64`.
pub open spec fn spec_speed_bps_text(s: Seq<u8>) -> Option<u64> {
    match spec_parse_u64(trim(s)) {
        Some(mbps) => if mbps * 1_000_000 <= u64::MAX {
            Some((mbps * 1_000_000) as u64)
        } else {
            None
        },
        None => None,
    }
}

/// The bits-per-second value for a read of the `speed` attribute that may
/// have failed: a failed read (`None`) is absent, never an error.
pub open spec fn spec_speed_bps(content: Option<Seq<u8>>) -> Option<u64> {
    match content {
        Some(s) => spec_speed_bps_text(s),
        None => None,
    }
}

/// Read an interface's speed in bits per second from the contents of its
/// sysfs `speed` attribute.
///
/// `content` is the raw bytes of the file, or `None` where the read failed;
/// the function is total and every failure mode yields `None`.
pub fn speed_bps(content: Option<&[u8]>) -> (r: Option<u64>)
    ensures
        r == spec_speed_bps(match content {
            Some(s) => Some(s@),
            None => None,
        }),
{
    match content {
        Some(s) => {
            match parse_trimmed_u64(s) {
                Some(mbps) => mbps.checked_mul(1_000_000),
                None => None,
            }
        },
        None => None,
    }
}

} // verus!
