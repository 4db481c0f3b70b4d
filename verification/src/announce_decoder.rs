//! The lenient variant of the announce parser: it does not
//! percent-decode the identifiers, lets a missing or unparsable
//! statistic default to zero, and reports only which of the three hard
//! requirements failed.

use vstd::prelude::*;
use vstd::string::StringExecFns;

use crate::byteseq::{ascii, field_raw, init_command};
use crate::numbers::parse_u64_sp;

verus! {

/// The hard requirement that failed: info hash, peer id, or port.
#[derive(Debug, Clone, Copy, PartialEq, Eq, Structural)]
pub enum AnnounceError {
    InfoHash,
    PeerId,
    Port,
}

/// One announce as this revision reads it: identifiers raw, statistics
/// defaulted to zero when absent or unparsable, optional fields raw.
#[derive(Debug)]
pub struct Announce {
    pub info_hash: Vec<u8>,
    pub peer_id: Vec<u8>,
    pub port: u64,
    pub downloaded: u64,
    pub uploaded: u64,
    pub left: u64,
    pub ip: Option<Vec<u8>>,
    pub compact: Option<Vec<u8>>,
    pub event: Option<Vec<u8>>,
}

/// A numeric field's value, with zero for a missing or unparsable one.
pub open spec fn u64_field_or_zero(s: Seq<u8>, key: Seq<u8>) -> int {
    match field_raw(s, key) {
        Some(v) => {
            match parse_u64_sp(v) {
                Some(n) => n,
                None => 0,
            }
        },
        None => 0,
    }
}

/// Looks up a field's raw bytes.
pub fn init_command_vec(announce: &[u8], size_command: usize, command: &str) -> (r: Option<
    Vec<u8>,
>)
    requires
        command.is_ascii(),
        size_command == command@.len(),
        0 < size_command,
    ensures
        ({
            match field_raw(announce@, ascii(command@)) {
                Some(v) => r matches Some(w) && w@ == v,
                None => r is None,
            }
        }),
{
    init_command(announce, size_command, command)
}

/// Reads a numeric field, with zero for a missing or unparsable one.
pub fn init_command_u64(announce: &[u8], size_command: usize, command: &str) -> (r: u64)
    requires
        command.is_ascii(),
        size_command == command@.len(),
        0 < size_command,
    ensures
        r == u64_field_or_zero(announce@, ascii(command@)),
{
    let response_vector = init_command_vec(announce, size_command, command);
    match response_vector {
        Some(vector) => {
            match crate::numbers::parse_u64_bytes(vector.as_slice()) {
                Some(n) => n,
                None => 0,
            }
        },
        None => 0,
    }
}

impl Announce {
    /// Parses one announce leniently: info hash and peer id must occur
    /// (raw, any length), the port must be numeric and in range 6881 to
    /// 6889, and every statistic falls back to zero.
    pub fn new(announce: Vec<u8>) -> (r: Result<Self, AnnounceError>)
        ensures
            ({
                let s = announce@;
                match field_raw(s, ascii("info_hash="@)) {
                    None => r matches Err(e) && e == AnnounceError::InfoHash,
                    Some(ih) => {
                        match field_raw(s, ascii("peer_id="@)) {
                            None => r matches Err(e) && e == AnnounceError::PeerId,
                            Some(pid) => {
                                let port = u64_field_or_zero(s, ascii("port="@));
                                if !(6881 <= port <= 6889) {
                                    r matches Err(e) && e == AnnounceError::Port
                                } else {
                                    r matches Ok(a) && a.info_hash@ == ih && a.peer_id@ == pid
                                        && a.port == port && a.downloaded == u64_field_or_zero(
                                        s,
                                        ascii("downloaded="@),
                                    ) && a.uploaded == u64_field_or_zero(s, ascii("uploaded="@))
                                        && a.left == u64_field_or_zero(s, ascii("left="@)) && (
                                    match field_raw(s, ascii("ip="@)) {
                                        Some(v) => a.ip matches Some(w) && w@ == v,
                                        None => a.ip is None,
                                    }) && (match field_raw(s, ascii("compact="@)) {
                                        Some(v) => a.compact matches Some(w) && w@ == v,
                                        None => a.compact is None,
                                    }) && (match field_raw(s, ascii("event="@)) {
                                        Some(v) => a.event matches Some(w) && w@ == v,
                                        None => a.event is None,
                                    })
                                }
                            },
                        }
                    },
                }
            }),
    {
        proof {
            reveal_strlit("info_hash=");
            reveal_strlit("peer_id=");
            reveal_strlit("port=");
            reveal_strlit("downloaded=");
            reveal_strlit("uploaded=");
            reveal_strlit("left=");
            reveal_strlit("ip=");
            reveal_strlit("compact=");
            reveal_strlit("event=");
        }
        let info_hash = match init_command_vec(announce.as_slice(), 10, "info_hash=") {
            Some(result) => result,
            None => {
                return Err(AnnounceError::InfoHash);
            },
        };
        let peer_id = match init_command_vec(announce.as_slice(), 8, "peer_id=") {
            Some(result) => result,
            None => {
                return Err(AnnounceError::PeerId);
            },
        };
        let port = init_command_u64(announce.as_slice(), 5, "port=");
        if !(6881 <= port && port <= 6889) {
            return Err(AnnounceError::Port);
        }
        let downloaded = init_command_u64(announce.as_slice(), 11, "downloaded=");
        let uploaded = init_command_u64(announce.as_slice(), 9, "uploaded=");
        let left = init_command_u64(announce.as_slice(), 5, "left=");
        let ip = init_command_vec(announce.as_slice(), 3, "ip=");
        let compact = init_command_vec(announce.as_slice(), 8, "compact=");
        let event = init_command_vec(announce.as_slice(), 6, "event=");
        Ok(
            Announce {
                info_hash,
                peer_id,
                port,
                downloaded,
                uploaded,
                left,
                ip,
                compact,
                event,
            },
        )
    }
}

/// What the standard library's lossy UTF-8 conversion yields on the
/// given bytes: a fixed function of the bytes alone.
pub uninterp spec fn lossy_of(b: Seq<u8>) -> Seq<char>;

/// Relies on String::from_utf8_lossy: the result depends only on the
/// bytes; invalid sequences become replacement characters.
#[verifier::external_body]
fn from_utf8_lossy(b: &[u8]) -> (r: String)
    ensures
        r@ == lossy_of(b@),
{
    String::from_utf8_lossy(b).to_string()
}

/// The decimal text of one digit.
pub open spec fn dec_char_of(d: int) -> Seq<char> {
    if d == 0 {
        "0"@
    } else if d == 1 {
        "1"@
    } else if d == 2 {
        "2"@
    } else if d == 3 {
        "3"@
    } else if d == 4 {
        "4"@
    } else if d == 5 {
        "5"@
    } else if d == 6 {
        "6"@
    } else if d == 7 {
        "7"@
    } else if d == 8 {
        "8"@
    } else {
        "9"@
    }
}

/// The decimal text of a non-negative number.
pub open spec fn dec_chars(n: int) -> Seq<char>
    recommends
        n >= 0,
    decreases n,
{
    if n < 10 {
        dec_char_of(if n >= 0 {
            n
        } else {
            0
        })
    } else {
        dec_chars(n / 10) + dec_char_of(n % 10)
    }
}

/// One decimal digit as text.
fn digit_str(d: u64) -> (r: &'static str)
    requires
        d < 10,
    ensures
        r@ == dec_char_of(d as int),
{
    match d {
        0 => "0",
        1 => "1",
        2 => "2",
        3 => "3",
        4 => "4",
        5 => "5",
        6 => "6",
        7 => "7",
        8 => "8",
        _ => "9",
    }
}

/// A number as decimal text.
fn u64_dec_string(n: u64) -> (r: String)
    ensures
        r@ == dec_chars(n as int),
    decreases n,
{
    if n < 10 {
        String::from_str(digit_str(n))
    } else {
        let mut s = u64_dec_string(n / 10);
        s.append(digit_str(n % 10));
        s
    }
}

/// The fields of one announce, rendered one per line for inspection.
pub fn get_announce_str(announce: Announce) -> (r: String)
    ensures
        r@ == "INFO_HASH: "@ + lossy_of(announce.info_hash@) + "\nPEER_ID: "@ + lossy_of(
            announce.peer_id@,
        ) + "\nPORT: "@ + dec_chars(announce.port as int) + "\nDOWNLOADED: "@ + dec_chars(
            announce.downloaded as int,
        ) + "\nUPLOADED: "@ + dec_chars(announce.uploaded as int) + "\nLEFT: "@ + dec_chars(
            announce.left as int,
        ) + "\nIP: "@ + (match announce.ip {
            Some(v) => lossy_of(v@),
            None => "None"@,
        }) + "\nCOMPACT: "@ + (match announce.compact {
            Some(v) => lossy_of(v@),
            None => "None"@,
        }) + "\nEVENT: "@ + (match announce.event {
            Some(v) => lossy_of(v@),
            None => "None"@,
        }) + "\n"@,
{
    let mut s = String::new();
    s.append("INFO_HASH: ");
    let ih = from_utf8_lossy(announce.info_hash.as_slice());
    s.append(ih.as_str());
    s.append("\nPEER_ID: ");
    let pid = from_utf8_lossy(announce.peer_id.as_slice());
    s.append(pid.as_str());
    s.append("\nPORT: ");
    let ports = u64_dec_string(announce.port);
    s.append(ports.as_str());
    s.append("\nDOWNLOADED: ");
    let dl = u64_dec_string(announce.downloaded);
    s.append(dl.as_str());
    s.append("\nUPLOADED: ");
    let ul = u64_dec_string(announce.uploaded);
    s.append(ul.as_str());
    s.append("\nLEFT: ");
    let lf = u64_dec_string(announce.left);
    s.append(lf.as_str());
    s.append("\nIP: ");
    match &announce.ip {
        Some(v) => {
            let t = from_utf8_lossy(v.as_slice());
            s.append(t.as_str());
        },
        None => {
            s.append("None");
        },
    }
    s.append("\nCOMPACT: ");
    match &announce.compact {
        Some(v) => {
            let t = from_utf8_lossy(v.as_slice());
            s.append(t.as_str());
        },
        None => {
            s.append("None");
        },
    }
    s.append("\nEVENT: ");
    match &announce.event {
        Some(v) => {
            let t = from_utf8_lossy(v.as_slice());
            s.append(t.as_str());
        },
        None => {
            s.append("None");
        },
    }
    s.append("\n");
    s
}

/// The message each parse failure is answered with.
pub open spec fn announce_error_str(error: AnnounceError) -> Seq<char> {
    match error {
        AnnounceError::InfoHash => "Info Hash not found"@,
        AnnounceError::PeerId => "Peer id not found"@,
        AnnounceError::Port => "Port not found"@,
    }
}

/// The fixed text for each parse failure.
pub fn get_announce_error(error: AnnounceError) -> (r: String)
    ensures
        r@ == announce_error_str(error),
{
    match error {
        AnnounceError::InfoHash => String::from_str("Info Hash not found"),
        AnnounceError::PeerId => String::from_str("Peer id not found"),
        AnnounceError::Port => String::from_str("Port not found"),
    }
}

} // verus!
