//! The announce parser: pulls each field of a tracker announce out of
//! the raw query bytes, validates the required ones in a fixed order,
//! and fails with the first field that is missing or malformed.

use vstd::prelude::*;
use vstd::string::StringExecFns;

use crate::byteseq::{ascii, field_raw, init_command};
use crate::numbers::parse_u64_sp;
use vstd::string::StringSliceAdditionalSpecFns;
use crate::urlencoding::{from_url, url_dec};

verus! {

/// The event a peer reports with its announce.
#[derive(Debug, Clone, Copy, PartialEq, Eq, Structural)]
pub enum Event {
    Started,
    Completed,
    Stopped,
}

/// Why an announce was rejected: the first required field, in the order
/// info hash, peer id, port, stats, that is missing or malformed.
#[derive(Debug, Clone, Copy, PartialEq, Eq, Structural)]
pub enum PeerInfoError {
    InfoHashNotFound,
    InfoHashInvalid,
    PeerId,
    PortNotFound,
    PortInvalid,
    StatNotFound,
    StatInvalid,
}

/// A peer's network address: the textual form of its IP, and its port.
#[derive(Debug, Clone)]
pub struct PeerAddr {
    pub ip: Vec<u8>,
    pub port: u16,
}

/// Everything one announce carries, validated. The socket address holds
/// the announced port, not the port the connection came from.
#[derive(Debug)]
pub struct PeerInfo {
    pub sock_addr: PeerAddr,
    pub info_hash: Vec<u8>,
    pub peer_id: Vec<u8>,
    pub port: u64,
    pub downloaded: u64,
    pub uploaded: u64,
    pub left: u64,
    pub compact: Option<Vec<u8>>,
    pub event: Option<Event>,
}

/// The info hash: the field must exist and percent-decode to exactly
/// twenty bytes.
pub open spec fn info_hash_spec(s: Seq<u8>) -> Result<Seq<u8>, PeerInfoError> {
    match field_raw(s, ascii("info_hash="@)) {
        None => Err(PeerInfoError::InfoHashNotFound),
        Some(raw) => {
            if url_dec(raw).len() != 20 {
                Err(PeerInfoError::InfoHashInvalid)
            } else {
                Ok(url_dec(raw))
            }
        },
    }
}

/// The peer id: the field must exist and percent-decode to exactly
/// twenty bytes; either failure is the same error.
pub open spec fn peer_id_spec(s: Seq<u8>) -> Result<Seq<u8>, PeerInfoError> {
    match field_raw(s, ascii("peer_id="@)) {
        None => Err(PeerInfoError::PeerId),
        Some(raw) => {
            if url_dec(raw).len() != 20 {
                Err(PeerInfoError::PeerId)
            } else {
                Ok(url_dec(raw))
            }
        },
    }
}

/// The port: the field must exist, parse as an unsigned number, and lie
/// in the range 6881 to 6889.
pub open spec fn port_spec(s: Seq<u8>) -> Result<int, PeerInfoError> {
    match field_raw(s, ascii("port="@)) {
        None => Err(PeerInfoError::PortNotFound),
        Some(raw) => {
            match parse_u64_sp(raw) {
                None => Err(PeerInfoError::PortInvalid),
                Some(n) => {
                    if 6881 <= n <= 6889 {
                        Ok(n)
                    } else {
                        Err(PeerInfoError::PortInvalid)
                    }
                },
            }
        },
    }
}

/// A transfer statistic: the field must exist and parse as an unsigned
/// number; missing and malformed are distinct errors.
pub open spec fn stat_spec(s: Seq<u8>, key: Seq<u8>) -> Result<int, PeerInfoError> {
    match field_raw(s, key) {
        None => Err(PeerInfoError::StatNotFound),
        Some(raw) => {
            match parse_u64_sp(raw) {
                None => Err(PeerInfoError::StatInvalid),
                Some(n) => Ok(n),
            }
        },
    }
}

/// The optional event: one of the three known names, anything else (or
/// no field at all) counts as no event.
pub open spec fn event_spec(s: Seq<u8>) -> Option<Event> {
    match field_raw(s, ascii("event="@)) {
        None => None,
        Some(v) => {
            if v == ascii("started"@) {
                Some(Event::Started)
            } else if v == ascii("completed"@) {
                Some(Event::Completed)
            } else if v == ascii("stopped"@) {
                Some(Event::Stopped)
            } else {
                None
            }
        },
    }
}

/// The optional compact field, raw.
pub open spec fn compact_spec(s: Seq<u8>) -> Option<Seq<u8>> {
    field_raw(s, ascii("compact="@))
}

/// Checks a port field value: parsed, then held to the allowed range.
pub fn from_vec_to_port(result: Option<Vec<u8>>) -> (r: Result<u64, PeerInfoError>)
    ensures
        ({
            match result {
                Some(v) => {
                    match parse_u64_sp(v@) {
                        Some(n) => {
                            if 6881 <= n <= 6889 {
                                r matches Ok(p) && p == n
                            } else {
                                r == Err::<u64, PeerInfoError>(PeerInfoError::PortInvalid)
                            }
                        },
                        None => r == Err::<u64, PeerInfoError>(PeerInfoError::PortInvalid),
                    }
                },
                None => r == Err::<u64, PeerInfoError>(PeerInfoError::PortNotFound),
            }
        }),
{
    match result {
        Some(vec) => {
            match crate::numbers::parse_u64_bytes(vec.as_slice()) {
                Some(port_num) => {
                    if 6881 <= port_num && port_num <= 6889 {
                        Ok(port_num)
                    } else {
                        Err(PeerInfoError::PortInvalid)
                    }
                },
                None => Err(PeerInfoError::PortInvalid),
            }
        },
        None => Err(PeerInfoError::PortNotFound),
    }
}

/// Recognizes the three event names.
pub fn get_event(name_event: Vec<u8>) -> (r: Option<Event>)
    ensures
        r == ({
            if name_event@ == ascii("started"@) {
                Some(Event::Started)
            } else if name_event@ == ascii("completed"@) {
                Some(Event::Completed)
            } else if name_event@ == ascii("stopped"@) {
                Some(Event::Stopped)
            } else {
                None::<Event>
            }
        }),
{
    proof {
        reveal_strlit("started");
        reveal_strlit("completed");
        reveal_strlit("stopped");
    }
    let started = crate::byteseq::str_bytes("started");
    let completed = crate::byteseq::str_bytes("completed");
    let stopped = crate::byteseq::str_bytes("stopped");
    if crate::byteseq::bytes_eq(name_event.as_slice(), started.as_slice()) {
        Some(Event::Started)
    } else if crate::byteseq::bytes_eq(name_event.as_slice(), completed.as_slice()) {
        Some(Event::Completed)
    } else if crate::byteseq::bytes_eq(name_event.as_slice(), stopped.as_slice()) {
        Some(Event::Stopped)
    } else {
        None
    }
}

/// Extracts and validates the info hash field.
pub fn init_info_hash(announce: &[u8]) -> (r: Result<Vec<u8>, PeerInfoError>)
    ensures
        ({
            match info_hash_spec(announce@) {
                Ok(d) => r matches Ok(v) && v@ == d,
                Err(e) => r matches Err(e2) && e2 == e,
            }
        }),
{
    proof {
        reveal_strlit("info_hash=");
    }
    match init_command(announce, 10, "info_hash=") {
        Some(info_hash_url) => {
            let url_decoded = from_url(info_hash_url);
            if url_decoded.len() != 20 {
                Err(PeerInfoError::InfoHashInvalid)
            } else {
                Ok(url_decoded)
            }
        },
        None => Err(PeerInfoError::InfoHashNotFound),
    }
}

/// Extracts and validates the peer id field.
pub fn init_peer_id(announce: &[u8]) -> (r: Result<Vec<u8>, PeerInfoError>)
    ensures
        ({
            match peer_id_spec(announce@) {
                Ok(d) => r matches Ok(v) && v@ == d,
                Err(e) => r matches Err(e2) && e2 == e,
            }
        }),
{
    proof {
        reveal_strlit("peer_id=");
    }
    match init_command(announce, 8, "peer_id=") {
        Some(peer_id_url) => {
            let url_decoded = from_url(peer_id_url);
            if url_decoded.len() != 20 {
                Err(PeerInfoError::PeerId)
            } else {
                Ok(url_decoded)
            }
        },
        None => Err(PeerInfoError::PeerId),
    }
}

/// Extracts and validates the port field.
pub fn init_port(announce: &[u8]) -> (r: Result<u64, PeerInfoError>)
    ensures
        ({
            match port_spec(announce@) {
                Ok(n) => r matches Ok(p) && p == n,
                Err(e) => r matches Err(e2) && e2 == e,
            }
        }),
{
    proof {
        reveal_strlit("port=");
    }
    let port = init_command(announce, 5, "port=");
    from_vec_to_port(port)
}

/// Extracts and validates one transfer statistic.
pub fn init_stat(announce: &[u8], stat_type: &str) -> (r: Result<u64, PeerInfoError>)
    requires
        stat_type.is_ascii(),
        stat_type@.len() > 0,
    ensures
        ({
            match stat_spec(announce@, ascii(stat_type@)) {
                Ok(n) => r matches Ok(p) && p == n,
                Err(e) => r matches Err(e2) && e2 == e,
            }
        }),
{
    proof {
        vstd::string::is_ascii_spec_bytes(stat_type);
        assert(stat_type@.len() == stat_type.spec_bytes().len());
    }
    let size_command = stat_type.as_bytes().len();
    let stat = init_command(announce, size_command, stat_type);
    match stat {
        Some(vec) => {
            match crate::numbers::parse_u64_bytes(vec.as_slice()) {
                Some(number_res) => Ok(number_res),
                None => Err(PeerInfoError::StatInvalid),
            }
        },
        None => Err(PeerInfoError::StatNotFound),
    }
}

/// Extracts the optional event field.
pub fn init_event(announce: &[u8]) -> (r: Option<Event>)
    ensures
        r == event_spec(announce@),
{
    proof {
        reveal_strlit("event=");
    }
    match init_command(announce, 6, "event=") {
        Some(vector_event) => get_event(vector_event),
        None => None,
    }
}

impl PeerInfo {
    /// Parses one announce. The required fields are checked in the
    /// order info hash, peer id, port, downloaded, uploaded, left, and
    /// the first failure decides the error; the optional compact and
    /// event fields never fail. The resulting address carries the
    /// announced port.
    pub fn new(announce: Vec<u8>, sock_addr: PeerAddr) -> (r: Result<Self, PeerInfoError>)
        ensures
            ({
                let s = announce@;
                match info_hash_spec(s) {
                    Err(e) => r matches Err(e2) && e2 == e,
                    Ok(ih) => {
                        match peer_id_spec(s) {
                            Err(e) => r matches Err(e2) && e2 == e,
                            Ok(pid) => {
                                match port_spec(s) {
                                    Err(e) => r matches Err(e2) && e2 == e,
                                    Ok(port) => {
                                        match stat_spec(s, ascii("downloaded="@)) {
                                            Err(e) => r matches Err(e2) && e2 == e,
                                            Ok(dl) => {
                                                match stat_spec(s, ascii("uploaded="@)) {
                                                    Err(e) => r matches Err(e2) && e2 == e,
                                                    Ok(ul) => {
                                                        match stat_spec(s, ascii("left="@)) {
                                                            Err(e) => r matches Err(e2) && e2 == e,
                                                            Ok(lf) => r matches Ok(p)
                                                                && p.info_hash@ == ih && p.peer_id@
                                                                == pid && p.port == port
                                                                && p.downloaded == dl && p.uploaded
                                                                == ul && p.left == lf && (match compact_spec(
                                                                s,
                                                            ) {
                                                                Some(c) => p.compact matches Some(
                                                                    cv,
                                                                ) && cv@ == c,
                                                                None => p.compact is None,
                                                            }) && p.event == event_spec(s)
                                                                && p.sock_addr.ip@ == sock_addr.ip@
                                                                && p.sock_addr.port == port,
                                                        }
                                                    },
                                                }
                                            },
                                        }
                                    },
                                }
                            },
                        }
                    },
                }
            }),
    {
        proof {
            reveal_strlit("downloaded=");
            reveal_strlit("uploaded=");
            reveal_strlit("left=");
            reveal_strlit("compact=");
        }
        let mut sock_addr = sock_addr;
        let info_hash = match init_info_hash(announce.as_slice()) {
            Ok(result) => result,
            Err(error) => {
                return Err(error);
            },
        };
        let peer_id = match init_peer_id(announce.as_slice()) {
            Ok(result) => result,
            Err(error) => {
                return Err(error);
            },
        };
        let port = match init_port(announce.as_slice()) {
            Ok(result) => result,
            Err(error) => {
                return Err(error);
            },
        };
        let downloaded = match init_stat(announce.as_slice(), "downloaded=") {
            Ok(result) => result,
            Err(error) => {
                return Err(error);
            },
        };
        let uploaded = match init_stat(announce.as_slice(), "uploaded=") {
            Ok(result) => result,
            Err(error) => {
                return Err(error);
            },
        };
        let left = match init_stat(announce.as_slice(), "left=") {
            Ok(result) => result,
            Err(error) => {
                return Err(error);
            },
        };
        let compact = init_command(announce.as_slice(), 8, "compact=");
        let event = init_event(announce.as_slice());
        sock_addr.port = port as u16;
        Ok(
            PeerInfo {
                sock_addr,
                info_hash,
                peer_id,
                port,
                downloaded,
                uploaded,
                left,
                compact,
                event,
            },
        )
    }

    /// The twenty-byte info hash.
    pub fn get_info_hash(&self) -> (r: Vec<u8>)
        ensures
            r@ == self.info_hash@,
    {
        self.info_hash.clone()
    }

    /// The twenty-byte peer id.
    pub fn get_peer_id(&self) -> (r: Vec<u8>)
        ensures
            r@ == self.peer_id@,
    {
        self.peer_id.clone()
    }

    /// The announced port.
    pub fn get_port(&self) -> (r: u64)
        ensures
            r == self.port,
    {
        self.port
    }

    /// The peer's address, carrying the announced port.
    pub fn get_sock_addr(&self) -> (r: PeerAddr)
        ensures
            r.ip@ == self.sock_addr.ip@,
            r.port == self.sock_addr.port,
    {
        PeerAddr { ip: self.sock_addr.ip.clone(), port: self.sock_addr.port }
    }

    /// Downloaded and uploaded, in that order.
    pub fn get_downloaded_uploaded(&self) -> (r: (u64, u64))
        ensures
            r.0 == self.downloaded,
            r.1 == self.uploaded,
    {
        (self.downloaded, self.uploaded)
    }

    /// A peer counts as complete when it reported the completed event
    /// or has nothing left to download.
    pub fn is_complete(&self) -> (r: bool)
        ensures
            r == (self.event == Some(Event::Completed) || self.left == 0),
    {
        if let Some(Event::Completed) = self.event {
            return true;
        };
        self.left == 0
    }

    /// A peer counts as stopped when its last event said so.
    pub fn is_stopped(&self) -> (r: bool)
        ensures
            r == (self.event == Some(Event::Stopped)),
    {
        matches!(self.event, Some(Event::Stopped))
    }

    /// The compact form was requested when the compact field's last
    /// byte is the digit one.
    pub fn is_compact(&self) -> (r: bool)
        ensures
            r == ({
                match self.compact {
                    Some(v) => v@.len() > 0 && v@.last() == 49,
                    None => false,
                }
            }),
    {
        match &self.compact {
            Some(value) => {
                if value.len() > 0 {
                    value[value.len() - 1] == 49
                } else {
                    false
                }
            },
            None => false,
        }
    }
}

/// The message a rejected announce is answered with.
pub open spec fn announce_error_msg(error: PeerInfoError) -> Seq<char> {
    match error {
        PeerInfoError::InfoHashNotFound => "you sent me garbage - no info hash"@,
        PeerInfoError::InfoHashInvalid => "d14:failure reason63:Requested download is not authorized for use with this tracker.e"@,
        PeerInfoError::PeerId => "you sent me garbage - id not of length 20"@,
        PeerInfoError::StatNotFound => "you sent me garbage - invalid literal for long() with base 10: ''"@,
        PeerInfoError::StatInvalid => "you sent me garbage - invalid amount"@,
        PeerInfoError::PortNotFound => "you sent me garbage - invalid literal for long() with base 10: ''"@,
        PeerInfoError::PortInvalid => "you sent me garbage - invalid port"@,
    }
}

/// The fixed response body for each announce error.
pub fn get_error_response_for_announce(error: PeerInfoError) -> (r: String)
    ensures
        r@ == announce_error_msg(error),
{
    match error {
        PeerInfoError::InfoHashNotFound => String::from_str("you sent me garbage - no info hash"),
        PeerInfoError::InfoHashInvalid => String::from_str(
            "d14:failure reason63:Requested download is not authorized for use with this tracker.e",
        ),
        PeerInfoError::PeerId => String::from_str("you sent me garbage - id not of length 20"),
        PeerInfoError::StatNotFound => String::from_str(
            "you sent me garbage - invalid literal for long() with base 10: ''",
        ),
        PeerInfoError::StatInvalid => String::from_str("you sent me garbage - invalid amount"),
        PeerInfoError::PortNotFound => String::from_str(
            "you sent me garbage - invalid literal for long() with base 10: ''",
        ),
        PeerInfoError::PortInvalid => String::from_str("you sent me garbage - invalid port"),
    }
}

/// The fixed response body for each announce error, under the name the
/// lenient parser's module uses for it.
pub fn get_announce_error(error: PeerInfoError) -> (r: String)
    ensures
        r@ == announce_error_msg(error),
{
    get_error_response_for_announce(error)
}

} // verus!
