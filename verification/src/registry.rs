//! The shared torrent registry: every tracked swarm keyed by its info
//! hash, and the whole handling of one announce against it — parse,
//! look up, render the response, record the peer. An unknown info hash
//! is rejected, never auto-created.

use vstd::prelude::*;

use crate::bencoding::model::{canon, enc};
use crate::byteseq::{ascii, bytes_eq, field_raw};
use crate::peer_info::{
    announce_error_msg, compact_spec, event_spec, get_error_response_for_announce, info_hash_spec,
    peer_id_spec, port_spec, stat_spec, PeerAddr, PeerInfo, PeerInfoError,
};
use crate::torrent_info::{no_peer, response_dict, TorrentInfo};
use vstd::slice::slice_to_vec;
use vstd::std_specs::vec::vec_index;
use vstd::string::StringSliceAdditionalSpecFns;

verus! {

broadcast use vstd::seq::group_seq_axioms, vstd::std_specs::vec::group_vec_axioms;

/// Every tracked torrent, keyed by info hash.
pub struct Registry {
    pub torrents: Vec<(Vec<u8>, TorrentInfo)>,
}

/// First index holding the info hash `h`, searched from `from`.
pub open spec fn find_hash_from(s: Seq<(Vec<u8>, TorrentInfo)>, h: Seq<u8>, from: int) -> Option<
    int,
>
    recommends
        0 <= from,
    decreases s.len() - from,
{
    if from >= s.len() {
        None
    } else if s[from].0@ == h {
        Some(from)
    } else {
        find_hash_from(s, h, from + 1)
    }
}

/// First index holding the info hash `h`.
pub open spec fn find_hash(s: Seq<(Vec<u8>, TorrentInfo)>, h: Seq<u8>) -> Option<int> {
    find_hash_from(s, h, 0)
}

/// The first error of the announce validation chain, if any.
pub open spec fn announce_error(s: Seq<u8>) -> Option<PeerInfoError> {
    match info_hash_spec(s) {
        Err(e) => Some(e),
        Ok(_) => {
            match peer_id_spec(s) {
                Err(e) => Some(e),
                Ok(_) => {
                    match port_spec(s) {
                        Err(e) => Some(e),
                        Ok(_) => {
                            match stat_spec(s, ascii("downloaded="@)) {
                                Err(e) => Some(e),
                                Ok(_) => {
                                    match stat_spec(s, ascii("uploaded="@)) {
                                        Err(e) => Some(e),
                                        Ok(_) => {
                                            match stat_spec(s, ascii("left="@)) {
                                                Err(e) => Some(e),
                                                Ok(_) => None,
                                            }
                                        },
                                    }
                                },
                            }
                        },
                    }
                },
            }
        },
    }
}

/// Validation short-circuits: an announce with no info hash field is
/// rejected for that reason alone, whatever shape the peer id, port or
/// statistics fields are in.
pub proof fn lemma_announce_short_circuit(s: Seq<u8>)
    requires
        crate::byteseq::field_raw(s, ascii("info_hash="@)) is None,
    ensures
        announce_error(s) == Some(PeerInfoError::InfoHashNotFound),
{
}

/// Whether the announce asked for the compact peer list.
pub open spec fn compact_requested(s: Seq<u8>) -> bool {
    match compact_spec(s) {
        Some(v) => v.len() > 0 && v.last() == 49,
        None => false,
    }
}

/// The record a valid announce leaves in the registry: every field as
/// the parser defines it, the address carrying the announced port.
pub open spec fn parsed_peer(s: Seq<u8>, addr: PeerAddr, p: PeerInfo) -> bool {
    &&& info_hash_spec(s) matches Ok(ih) && p.info_hash@ == ih
    &&& peer_id_spec(s) matches Ok(pid) && p.peer_id@ == pid
    &&& port_spec(s) matches Ok(port) && p.port == port && p.sock_addr.port == port
    &&& stat_spec(s, ascii("downloaded="@)) matches Ok(dl) && p.downloaded == dl
    &&& stat_spec(s, ascii("uploaded="@)) matches Ok(ul) && p.uploaded == ul
    &&& stat_spec(s, ascii("left="@)) matches Ok(lf) && p.left == lf
    &&& p.event == event_spec(s)
    &&& p.sock_addr.ip@ == addr.ip@
    &&& (match compact_spec(s) {
        Some(c) => p.compact matches Some(cv) && cv@ == c,
        None => p.compact is None,
    })
}

/// The one registry entry at `idx` was replaced by the same swarm with
/// `rec` inserted or overwritten under its peer id; everything else is
/// untouched.
pub open spec fn swarm_updated(
    before: Seq<(Vec<u8>, TorrentInfo)>,
    after: Seq<(Vec<u8>, TorrentInfo)>,
    idx: int,
    rec: PeerInfo,
) -> bool {
    let t = before[idx].1;
    let u = after[idx].1;
    &&& after.len() == before.len()
    &&& forall|i: int| 0 <= i < before.len() && i != idx ==> after[i] == #[trigger] before[i]
    &&& after[idx].0 == before[idx].0
    &&& u.info_hash@ == t.info_hash@
    &&& u.interval == t.interval
    &&& (if no_peer(t.peers@, rec.peer_id@) {
        &&& u.peers@.len() == t.peers@.len() + 1
        &&& u.peers@.take(t.peers@.len() as int) == t.peers@
        &&& u.peers@.last().0@ == rec.peer_id@
        &&& u.peers@.last().1 == rec
    } else {
        exists|i: int|
            {
                &&& 0 <= i < t.peers@.len()
                &&& (#[trigger] t.peers@[i]).0@ == rec.peer_id@
                &&& u.peers@.len() == t.peers@.len()
                &&& (forall|j: int| 0 <= j < t.peers@.len() && j != i ==> u.peers@[j] == #[trigger] t.peers@[j])
                &&& u.peers@[i].0@ == rec.peer_id@
                &&& u.peers@[i].1 == rec
            }
    })
}

/// How one announce against the registry relates request bytes,
/// registry before and after, and response bytes: a validation failure
/// or unknown info hash yields the fixed rejection and leaves the
/// registry alone; otherwise the found swarm answers (before recording
/// the peer) and then records the peer.
pub open spec fn announce_handled(
    pre: Seq<(Vec<u8>, TorrentInfo)>,
    post: Seq<(Vec<u8>, TorrentInfo)>,
    s: Seq<u8>,
    addr: PeerAddr,
    resp: Seq<u8>,
) -> bool {
    match announce_error(s) {
        Some(e) => resp == ascii(announce_error_msg(e)) && post == pre,
        None => {
            match find_hash(pre, info_hash_spec(s)->Ok_0) {
                None => resp == ascii(announce_error_msg(PeerInfoError::InfoHashInvalid)) && post
                    == pre,
                Some(idx) => exists|rec: PeerInfo|
                    #[trigger] parsed_peer(s, addr, rec) && resp == enc(
                        canon(
                            response_dict(pre[idx].1, peer_id_spec(s)->Ok_0, compact_requested(s)),
                        ),
                    ) && swarm_updated(pre, post, idx, rec),
            }
        },
    }
}

impl Registry {
    /// Hashes are unique, every swarm is well-formed, and no swarm has
    /// outgrown what the response counters can say.
    pub open spec fn wf(self) -> bool {
        &&& forall|i: int, j: int|
            0 <= i < j < self.torrents@.len() ==> (#[trigger] self.torrents@[i]).0@ != (
            #[trigger] self.torrents@[j]).0@
        &&& forall|i: int|
            0 <= i < self.torrents@.len() ==> (#[trigger] self.torrents@[i]).1.wf()
        &&& forall|i: int|
            0 <= i < self.torrents@.len() ==> (#[trigger] self.torrents@[i]).1.peers@.len()
                <= 0x7fff_ffff_ffff_ffff
    }

    /// No swarm is at the counter limit, so an announce may add a peer.
    pub open spec fn can_grow_spec(self) -> bool {
        forall|i: int|
            0 <= i < self.torrents@.len() ==> (#[trigger] self.torrents@[i]).1.peers@.len()
                < 0x7fff_ffff_ffff_ffff
    }

    /// An empty registry.
    pub fn new() -> (r: Registry)
        ensures
            r.torrents@.len() == 0,
            r.wf(),
            r.can_grow_spec(),
    {
        Registry { torrents: Vec::new() }
    }

    /// Whether every swarm still has room for one more peer record.
    pub fn can_grow(&self) -> (r: bool)
        ensures
            r == self.can_grow_spec(),
    {
        let n = self.torrents.len();
        let mut i: usize = 0;
        while i < n
            invariant
                0 <= i <= n,
                n == self.torrents@.len(),
                forall|t: int|
                    0 <= t < i ==> (#[trigger] self.torrents@[t]).1.peers@.len()
                        < 0x7fff_ffff_ffff_ffff,
            decreases n - i,
        {
            if (vec_index(&self.torrents, i).1.peers.len() as u64) >= 0x7fff_ffff_ffff_ffffu64 {
                return false;
            }
            i = i + 1;
        }
        true
    }

    /// Registers a fresh, empty swarm for `info_hash`; an already
    /// registered hash is left as it is.
    pub fn register_torrent(&mut self, info_hash: Vec<u8>)
        requires
            old(self).wf(),
        ensures
            final(self).wf(),
            ({
                match find_hash(old(self).torrents@, info_hash@) {
                    Some(_) => final(self).torrents@ == old(self).torrents@,
                    None => ({
                        let b = old(self).torrents@;
                        let a = final(self).torrents@;
                        a.len() == b.len() + 1 && a.take(b.len() as int) == b && a.last().0@
                            == info_hash@ && a.last().1.peers@.len() == 0 && a.last().1.interval
                            == 0 && a.last().1.info_hash@ == info_hash@
                    }),
                }
            }),
            old(self).can_grow_spec() ==> final(self).can_grow_spec(),
    {
        proof {
            lemma_find_hash_valid(self.torrents@, info_hash@, 0);
        }
        match self.find_torrent(&info_hash) {
            Some(_) => {},
            None => {
                let hash_copy = info_hash.clone();
                let torrent = TorrentInfo::new(info_hash);
                let ghost before = self.torrents@;
                self.torrents.push((hash_copy, torrent));
                proof {
                    assert(self.torrents@.take(before.len() as int) =~= before);
                    assert forall|a: int, b: int|
                        0 <= a < b < self.torrents@.len() implies (
                    #[trigger] self.torrents@[a]).0@ != (#[trigger] self.torrents@[b]).0@ by {
                        if b < before.len() {
                            assert(before[a].0@ != before[b].0@);
                        } else {
                            assert(find_none_means_no_hash(before, info_hash@));
                        }
                    }
                }
            },
        }
    }

    /// Index of the swarm registered for `h`, if any.
    fn find_torrent(&self, h: &Vec<u8>) -> (r: Option<usize>)
        ensures
            ({
                match find_hash(self.torrents@, h@) {
                    Some(i) => r == Some(i as usize),
                    None => r is None,
                }
            }),
    {
        let n = self.torrents.len();
        let mut i: usize = 0;
        while i < n
            invariant
                0 <= i <= n,
                n == self.torrents@.len(),
                find_hash(self.torrents@, h@) == find_hash_from(self.torrents@, h@, i as int),
            decreases n - i,
        {
            if bytes_eq(vec_index(&self.torrents, i).0.as_slice(), h.as_slice()) {
                return Some(i);
            }
            i = i + 1;
        }
        None
    }

    /// Handles one announce against the registry: a validation failure
    /// or an unknown info hash yields the protocol's fixed rejection
    /// body and changes nothing; a valid announce against a known swarm
    /// yields that swarm's bencoded response, rendered before the
    /// announcing peer's own record is inserted or overwritten.
    pub fn get_response_details(&mut self, buffer: &[u8], ip_port: PeerAddr) -> (r: Vec<u8>)
        requires
            old(self).wf(),
            old(self).can_grow_spec(),
        ensures
            final(self).wf(),
            announce_handled(old(self).torrents@, final(self).torrents@, buffer@, ip_port, r@),
    {
        let announce_vec = slice_to_vec(buffer);
        let ghost addr0 = ip_port;
        let info = match PeerInfo::new(announce_vec, ip_port) {
            Ok(info) => info,
            Err(error) => {
                let eb = error_bytes(error);
                proof {
                    assert(announce_handled(
                        old(self).torrents@,
                        self.torrents@,
                        buffer@,
                        addr0,
                        eb@,
                    ));
                }
                return eb;
            },
        };
        let info_hash = info.get_info_hash();
        // pins the registry's length into the machine's index range
        let _tlen = self.torrents.len();
        proof {
            lemma_find_hash_valid(self.torrents@, info_hash@, 0);
        }
        let idx = match self.find_torrent(&info_hash) {
            Some(idx) => idx,
            None => {
                let eb = error_bytes(PeerInfoError::InfoHashInvalid);
                proof {
                    assert(announce_handled(
                        old(self).torrents@,
                        self.torrents@,
                        buffer@,
                        addr0,
                        eb@,
                    ));
                }
                return eb;
            },
        };
        proof {
            assert(find_hash(self.torrents@, info_hash@) == Some(idx as int));
        }
        let ghost before = self.torrents@;
        let ghost grec = info;
        let (key, mut torrent) = self.torrents.remove(idx);
        let response = torrent.get_bencoded_response_for_announce(
            info.get_peer_id(),
            info.is_compact(),
        );
        let peer_id = info.get_peer_id();
        torrent.add_peer(peer_id, info);
        self.torrents.insert(idx, (key, torrent));
        proof {
            let s = buffer@;
            assert(parsed_peer(s, addr0, grec));
            assert(announce_error(s) is None);
            assert(response@ == enc(
                canon(
                    response_dict(
                        before[idx as int].1,
                        peer_id_spec(s)->Ok_0,
                        compact_requested(s),
                    ),
                ),
            ));
            assert forall|a: int, b: int|
                0 <= a < b < self.torrents@.len() implies (#[trigger] self.torrents@[a]).0@ != (
            #[trigger] self.torrents@[b]).0@ by {
                assert(before[a].0@ != before[b].0@);
            }
            assert forall|a: int|
                0 <= a < self.torrents@.len() && a != idx implies self.torrents@[a] == #[trigger] before[a] by {}
            let t = before[idx as int].1;
            let u = self.torrents@[idx as int].1;
            if crate::torrent_info::no_peer(t.peers@, grec.peer_id@) {
                assert(u.peers@.take(t.peers@.len() as int) =~= t.peers@);
            }
            assert(swarm_updated(before, self.torrents@, idx as int, grec));
            assert(before == old(self).torrents@);
            assert(exists|rec: PeerInfo|
                #[trigger] parsed_peer(s, addr0, rec) && response@ == enc(
                    canon(
                        response_dict(
                            old(self).torrents@[idx as int].1,
                            peer_id_spec(s)->Ok_0,
                            compact_requested(s),
                        ),
                    ),
                ) && swarm_updated(old(self).torrents@, self.torrents@, idx as int, rec));
            assert(info_hash@ == info_hash_spec(s)->Ok_0);
            assert(find_hash(old(self).torrents@, info_hash_spec(s)->Ok_0) == Some(idx as int));
            assert(announce_handled(
                old(self).torrents@,
                self.torrents@,
                buffer@,
                addr0,
                response@,
            ));
            assert forall|a: int|
                0 <= a < self.torrents@.len() implies (#[trigger] self.torrents@[a]).1.wf() && (
            self.torrents@[a]).1.peers@.len() <= 0x7fff_ffff_ffff_ffff by {
                if a != idx {
                    assert(self.torrents@[a] == before[a]);
                }
            }
        }
        response
    }
}

/// A missing find means the hash is nowhere in the sequence.
pub open spec fn find_none_means_no_hash(s: Seq<(Vec<u8>, TorrentInfo)>, h: Seq<u8>) -> bool {
    forall|i: int| 0 <= i < s.len() ==> (#[trigger] s[i]).0@ != h
}

/// What a found or missed hash search guarantees.
pub proof fn lemma_find_hash_valid(s: Seq<(Vec<u8>, TorrentInfo)>, h: Seq<u8>, from: int)
    requires
        0 <= from,
    ensures
        ({
            match find_hash_from(s, h, from) {
                Some(i) => from <= i < s.len() && s[i].0@ == h,
                None => forall|i: int| from <= i < s.len() ==> (#[trigger] s[i]).0@ != h,
            }
        }),
    decreases s.len() - from,
{
    if from >= s.len() {
    } else if s[from].0@ == h {
    } else {
        lemma_find_hash_valid(s, h, from + 1);
    }
}

/// The bytes of one rejection body.
fn error_bytes(error: PeerInfoError) -> (r: Vec<u8>)
    ensures
        r@ == ascii(announce_error_msg(error)),
{
    let msg = get_error_response_for_announce(error);
    let ms = msg.as_str();
    proof {
        reveal_strlit("you sent me garbage - no info hash");
        reveal_strlit(
            "d14:failure reason63:Requested download is not authorized for use with this tracker.e",
        );
        reveal_strlit("you sent me garbage - id not of length 20");
        reveal_strlit("you sent me garbage - invalid literal for long() with base 10: ''");
        reveal_strlit("you sent me garbage - invalid amount");
        reveal_strlit("you sent me garbage - invalid port");
        assert(vstd::string::is_ascii(ms));
        vstd::string::is_ascii_spec_bytes(ms);
        assert(ms.spec_bytes() =~= ascii(announce_error_msg(error)));
    }
    slice_to_vec(ms.as_bytes())
}

} // verus!
