//! One tracked torrent's swarm: its peers keyed by peer id, the counts
//! of complete and incomplete peers, and the bencoded announce response
//! in either verbose or compact form.

use vstd::prelude::*;

use crate::bencoding::encoder::from_dic;
use crate::bencoding::model::{canon, enc, keys_uniq, uniq_keys as uniq_keys_b, BValue};
use crate::bencoding::values::{lview, pview, vview, ValuesBencoding};
use crate::byteseq::{ascii, byte_pos_from, bytes_eq, find_byte, lemma_byte_pos_valid, str_bytes};
use crate::numbers::parse_u64_sp;
use crate::peer_info::{Event, PeerInfo};
use vstd::slice::{slice_subrange, slice_to_vec};
use vstd::std_specs::vec::vec_index;

verus! {

broadcast use vstd::seq::group_seq_axioms, vstd::std_specs::vec::group_vec_axioms;

/// One swarm: the torrent's info hash, the freshness interval handed to
/// peers, and the peers themselves, keyed by peer id.
pub struct TorrentInfo {
    pub info_hash: Vec<u8>,
    pub interval: i64,
    pub peers: Vec<(Vec<u8>, PeerInfo)>,
}

/// A peer counts as complete when it reported completion or has nothing
/// left to download.
pub open spec fn peer_complete(p: PeerInfo) -> bool {
    p.event == Some(Event::Completed) || p.left == 0
}

/// A peer's last report was that it stopped.
pub open spec fn peer_stopped(p: PeerInfo) -> bool {
    p.event == Some(Event::Stopped)
}

/// How many peers count as complete.
pub open spec fn count_complete(s: Seq<(Vec<u8>, PeerInfo)>) -> int
    decreases s,
{
    if s.len() == 0 {
        0
    } else {
        (if peer_complete(s[0].1) {
            1int
        } else {
            0int
        }) + count_complete(s.drop_first())
    }
}

/// A peer shows up in responses for `req` when it is not the requester
/// itself and did not report stopping.
pub open spec fn peer_visible(id: Seq<u8>, p: PeerInfo, req: Seq<u8>) -> bool {
    id != req && !peer_stopped(p)
}

/// The peers a response for `req` lists, in registry order.
pub open spec fn visible_peers(s: Seq<(Vec<u8>, PeerInfo)>, req: Seq<u8>) -> Seq<
    (Vec<u8>, PeerInfo),
>
    decreases s,
{
    if s.len() == 0 {
        s
    } else {
        let rest = visible_peers(s.drop_first(), req);
        if peer_visible(s[0].0@, s[0].1, req) {
            seq![s[0]] + rest
        } else {
            rest
        }
    }
}

/// Stopped peers and the requester itself never appear in a peer list,
/// while their records remain in the swarm and still enter the counts:
/// every listed peer is a swarm member that neither stopped nor is the
/// requester, and every other member is listed.
pub proof fn lemma_visible_peers_excludes(s: Seq<(Vec<u8>, PeerInfo)>, req: Seq<u8>)
    ensures
        forall|i: int|
            0 <= i < visible_peers(s, req).len() ==> !peer_stopped(
                (#[trigger] visible_peers(s, req)[i]).1,
            ) && visible_peers(s, req)[i].0@ != req,
        forall|i: int|
            0 <= i < visible_peers(s, req).len() ==> exists|j: int|
                0 <= j < s.len() && #[trigger] visible_peers(s, req)[i] == s[j],
        forall|j: int|
            0 <= j < s.len() && peer_visible((#[trigger] s[j]).0@, s[j].1, req) ==> exists|i: int|
                0 <= i < visible_peers(s, req).len() && #[trigger] visible_peers(s, req)[i]
                    == s[j],
    decreases s,
{
    if s.len() > 0 {
        lemma_visible_peers_excludes(s.drop_first(), req);
        let rest = visible_peers(s.drop_first(), req);
        let v = visible_peers(s, req);
        assert forall|i: int|
            0 <= i < v.len() implies !peer_stopped((#[trigger] v[i]).1) && v[i].0@ != req
            && exists|j: int| 0 <= j < s.len() && v[i] == #[trigger] s[j] by {
            if peer_visible(s[0].0@, s[0].1, req) {
                if i == 0 {
                    assert(v[i] == s[0]);
                } else {
                    assert(v[i] == rest[i - 1]);
                    let j = choose|j: int|
                        0 <= j < s.drop_first().len() && rest[i - 1] == #[trigger] s.drop_first()[j];
                    assert(v[i] == s[j + 1]);
                }
            } else {
                assert(v[i] == rest[i]);
                let j = choose|j: int|
                    0 <= j < s.drop_first().len() && rest[i] == #[trigger] s.drop_first()[j];
                assert(v[i] == s[j + 1]);
            }
        }
        assert forall|j: int|
            0 <= j < s.len() && peer_visible((#[trigger] s[j]).0@, s[j].1, req) implies exists|
        i: int|
            0 <= i < v.len() && #[trigger] v[i] == s[j] by {
            if j == 0 {
                assert(v[0] == s[0]);
            } else {
                assert(s.drop_first()[j - 1] == s[j]);
                let i = choose|i: int|
                    0 <= i < rest.len() && #[trigger] rest[i] == s.drop_first()[j - 1];
                if peer_visible(s[0].0@, s[0].1, req) {
                    assert(v[i + 1] == s[j]);
                } else {
                    assert(v[i] == s[j]);
                }
            }
        }
    }
}

/// The dictionary a verbose response lists for one peer.
pub open spec fn peer_entry(id: Seq<u8>, p: PeerInfo) -> BValue {
    BValue::Dict(
        seq![
            (ascii("peer_id"@), BValue::Str(id)),
            (ascii("ip"@), BValue::Str(p.sock_addr.ip@)),
            (ascii("port"@), BValue::Int(p.sock_addr.port as int)),
        ],
    )
}

/// The verbose peer list: one dictionary per visible peer.
pub open spec fn peer_entries(s: Seq<(Vec<u8>, PeerInfo)>) -> Seq<BValue>
    decreases s,
{
    if s.len() == 0 {
        Seq::empty()
    } else {
        seq![peer_entry(s[0].0@, s[0].1)] + peer_entries(s.drop_first())
    }
}

/// The value of one dotted-decimal segment as a single byte, or nothing
/// when the segment does not parse as one.
pub open spec fn seg_byte(seg: Seq<u8>) -> Seq<u8> {
    match parse_u64_sp(seg) {
        Some(n) => {
            if n <= 255 {
                seq![n as u8]
            } else {
                Seq::empty()
            }
        },
        None => Seq::empty(),
    }
}

/// The bytes a textual IP contributes to a compact response: each
/// dot-separated segment that parses as a byte, in order; segments that
/// do not parse are skipped.
pub open spec fn octets(ip: Seq<u8>) -> Seq<u8>
    decreases ip.len(),
{
    match byte_pos_from(ip, 46, 0) {
        None => seg_byte(ip),
        Some(d) => {
            if 0 <= d < ip.len() {
                seg_byte(ip.take(d)) + octets(ip.skip(d + 1))
            } else {
                seg_byte(ip)
            }
        },
    }
}

/// The six bytes (when the IP parses fully) one visible peer adds to a
/// compact response: its IP's octets, then its port big-endian.
pub open spec fn compact_blocks(s: Seq<(Vec<u8>, PeerInfo)>) -> Seq<u8>
    decreases s,
{
    if s.len() == 0 {
        Seq::empty()
    } else {
        octets(s[0].1.sock_addr.ip@) + seq![
            (s[0].1.sock_addr.port / 256) as u8,
            (s[0].1.sock_addr.port % 256) as u8,
        ] + compact_blocks(s.drop_first())
    }
}

/// The response dictionary: the two counts, the interval, and the peers
/// in the requested form.
pub open spec fn response_dict(t: TorrentInfo, req: Seq<u8>, compact: bool) -> BValue {
    BValue::Dict(
        seq![
            (ascii("complete"@), BValue::Int(count_complete(t.peers@))),
            (
                ascii("incomplete"@),
                BValue::Int(t.peers@.len() - count_complete(t.peers@)),
            ),
            (ascii("interval"@), BValue::Int(t.interval as int)),
            (
                ascii("peers"@),
                if compact {
                    BValue::Str(compact_blocks(visible_peers(t.peers@, req)))
                } else {
                    BValue::List(peer_entries(visible_peers(t.peers@, req)))
                },
            ),
        ],
    )
}

/// Insert-or-overwrite of one peer record, keyed by peer id.
pub open spec fn peers_upsert(
    s: Seq<(Vec<u8>, PeerInfo)>,
    id: Vec<u8>,
    p: PeerInfo,
    at: int,
) -> Seq<(Vec<u8>, PeerInfo)> {
    if 0 <= at < s.len() {
        s.update(at, (id, p))
    } else {
        s.push((id, p))
    }
}

/// The id is at no position in the peer sequence.
pub open spec fn no_peer(s: Seq<(Vec<u8>, PeerInfo)>, id: Seq<u8>) -> bool {
    forall|i: int| 0 <= i < s.len() ==> (#[trigger] s[i]).0@ != id
}

impl TorrentInfo {
    /// No two peer records share a peer id.
    pub open spec fn wf(self) -> bool {
        forall|i: int, j: int|
            0 <= i < j < self.peers@.len() ==> (#[trigger] self.peers@[i]).0@ != (
            #[trigger] self.peers@[j]).0@
    }

    /// A fresh swarm: no peers yet, interval zero.
    pub fn new(info_hash: Vec<u8>) -> (r: Self)
        ensures
            r.info_hash@ == info_hash@,
            r.interval == 0,
            r.peers@.len() == 0,
            r.wf(),
    {
        let peers: Vec<(Vec<u8>, PeerInfo)> = Vec::new();
        let interval: i64 = 0;
        TorrentInfo { info_hash, interval, peers }
    }

    /// The torrent's twenty-byte identifier.
    pub fn get_info_hash(&self) -> (r: Vec<u8>)
        ensures
            r@ == self.info_hash@,
    {
        self.info_hash.clone()
    }

    /// Inserts or overwrites the record for `peer_id`: a returning peer
    /// replaces its old record wholesale, a new one is appended.
    pub fn add_peer(&mut self, peer_id: Vec<u8>, peer_info: PeerInfo)
        requires
            old(self).wf(),
        ensures
            final(self).wf(),
            final(self).info_hash@ == old(self).info_hash@,
            final(self).interval == old(self).interval,
            ({
                let s = old(self).peers@;
                if no_peer(s, peer_id@) {
                    final(self).peers@ == s.push((peer_id, peer_info))
                } else {
                    exists|i: int|
                        0 <= i < s.len() && (#[trigger] s[i]).0@ == peer_id@ && final(self).peers@
                            == s.update(i, (peer_id, peer_info))
                }
            }),
    {
        let n = self.peers.len();
        let mut j: usize = 0;
        while j < n
            invariant
                0 <= j <= n,
                n == self.peers@.len(),
                self == old(self),
                old(self).wf(),
                forall|t: int| 0 <= t < j ==> (#[trigger] self.peers@[t]).0@ != peer_id@,
            decreases n - j,
        {
            let hit = bytes_eq(vec_index(&self.peers, j).0.as_slice(), peer_id.as_slice());
            if hit {
                let ghost before = self.peers@;
                let _replaced = self.peers.remove(j);
                self.peers.insert(j, (peer_id, peer_info));
                proof {
                    assert(self.peers@ =~= before.update(j as int, (peer_id, peer_info)));
                    assert forall|a: int, b: int|
                        0 <= a < b < self.peers@.len() implies (#[trigger] self.peers@[a]).0@ != (
                    #[trigger] self.peers@[b]).0@ by {
                        assert(before[a].0@ != before[b].0@);
                        if a != j && b != j {
                        }
                    }
                }
                return ;
            }
            j = j + 1;
        }
        self.peers.push((peer_id, peer_info));
        proof {
            let s = old(self).peers@;
            assert(no_peer(s, peer_id@));
            assert forall|a: int, b: int|
                0 <= a < b < self.peers@.len() implies (#[trigger] self.peers@[a]).0@ != (
            #[trigger] self.peers@[b]).0@ by {
                if b < s.len() {
                    assert(s[a].0@ != s[b].0@);
                } else {
                    assert(s[a].0@ != peer_id@);
                }
            }
        }
    }

    /// Counts the complete peers and the rest in one pass.
    fn get_number_of_complete_and_incomplete_peers(&self) -> (r: (i64, i64))
        requires
            self.peers@.len() <= 0x7fff_ffff_ffff_ffff,
        ensures
            r.0 == count_complete(self.peers@),
            r.1 == self.peers@.len() - count_complete(self.peers@),
    {
        let n = self.peers.len();
        let mut complete: i64 = 0;
        let mut incomplete: i64 = 0;
        let mut i: usize = 0;
        proof {
            assert(self.peers@.skip(0) =~= self.peers@);
        }
        while i < n
            invariant
                0 <= i <= n,
                n == self.peers@.len(),
                n <= 0x7fff_ffff_ffff_ffff,
                complete + incomplete == i,
                0 <= complete,
                0 <= incomplete,
                count_complete(self.peers@) == complete + count_complete(
                    self.peers@.skip(i as int),
                ),
            decreases n - i,
        {
            let ghost t = self.peers@.skip(i as int);
            proof {
                assert(t[0] == self.peers@[i as int]);
                assert(t.drop_first() =~= self.peers@.skip(i + 1));
            }
            let p = vec_index(&self.peers, i);
            let is_c = match p.1.event {
                Some(Event::Completed) => true,
                _ => p.1.left == 0,
            };
            if is_c {
                complete = complete + 1;
            } else {
                incomplete = incomplete + 1;
            }
            i = i + 1;
        }
        proof {
            assert(self.peers@.skip(n as int) =~= Seq::<(Vec<u8>, PeerInfo)>::empty());
        }
        (complete, incomplete)
    }

    /// The verbose response: a dictionary with the counts, the
    /// interval, and one dictionary per visible peer.
    fn get_response_no_compact(&self, peer_id: Vec<u8>) -> (r: Vec<u8>)
        requires
            self.peers@.len() <= 0x7fff_ffff_ffff_ffff,
        ensures
            r@ == enc(canon(response_dict(*self, peer_id@, false))),
    {
        proof {
            reveal_strlit("complete");
            reveal_strlit("incomplete");
            reveal_strlit("interval");
            reveal_strlit("peers");
            reveal_strlit("peer_id");
            reveal_strlit("ip");
            reveal_strlit("port");
        }
        let (complete, incomplete) = self.get_number_of_complete_and_incomplete_peers();
        let n = self.peers.len();
        let mut list_peers: Vec<ValuesBencoding> = Vec::new();
        let mut i: usize = 0;
        proof {
            assert(self.peers@.skip(0) =~= self.peers@);
            assert(lview(list_peers@) =~= Seq::<BValue>::empty());
            assert(peer_entries(visible_peers(self.peers@, peer_id@)) =~= lview(list_peers@)
                + peer_entries(visible_peers(self.peers@.skip(0), peer_id@)));
        }
        while i < n
            invariant
                0 <= i <= n,
                n == self.peers@.len(),
                peer_entries(visible_peers(self.peers@, peer_id@)) == lview(list_peers@)
                    + peer_entries(visible_peers(self.peers@.skip(i as int), peer_id@)),
                forall|t: int|
                    0 <= t < lview(list_peers@).len() ==> keys_uniq(#[trigger] lview(list_peers@)[t]),
            decreases n - i,
        {
            let ghost t = self.peers@.skip(i as int);
            proof {
                assert(t[0] == self.peers@[i as int]);
                assert(t.drop_first() =~= self.peers@.skip(i + 1));
            }
            proof {
                reveal_strlit("peer_id");
                reveal_strlit("ip");
                reveal_strlit("port");
            }
            let p = vec_index(&self.peers, i);
            let same = bytes_eq(p.0.as_slice(), peer_id.as_slice());
            let stopped = matches!(p.1.event, Some(Event::Stopped));
            let ghost t1 = self.peers@.skip(i + 1);
            if !same && !stopped {
                let mut dic_peer: Vec<(Vec<u8>, ValuesBencoding)> = Vec::new();
                dic_peer.push((str_bytes("peer_id"), ValuesBencoding::String(p.0.clone())));
                dic_peer.push((str_bytes("ip"), ValuesBencoding::String(p.1.sock_addr.ip.clone())));
                dic_peer.push(
                    (str_bytes("port"), ValuesBencoding::Integer(p.1.sock_addr.port as i64)),
                );
                let entry = ValuesBencoding::Dic(dic_peer);
                proof {
                    let pe = peer_entry(t[0].0@, t[0].1);
                    assert(vview(entry) == pe) by {
                        assert(pview(entry->Dic_0@) =~= pe->Dict_0);
                    }
                    assert(keys_uniq(vview(entry))) by {
                        let kp = pe->Dict_0;
                        assert(ascii("peer_id"@).len() == 7 && ascii("ip"@).len() == 2 && ascii(
                            "port"@,
                        ).len() == 4);
                        assert(uniq_keys_b(kp));
                        assert forall|w: int| 0 <= w < kp.len() implies keys_uniq(
                            (#[trigger] kp[w]).1,
                        ) by {}
                        crate::bencoding::model::lemma_keys_uniq_pairs_from_index(kp);
                    }
                    let vis = visible_peers(t, peer_id@);
                    assert(vis == seq![t[0]] + visible_peers(t1, peer_id@));
                    assert((seq![t[0]] + visible_peers(t1, peer_id@))[0] == t[0]);
                    assert((seq![t[0]] + visible_peers(t1, peer_id@)).drop_first()
                        =~= visible_peers(t1, peer_id@));
                    assert(peer_entries(vis) == seq![pe] + peer_entries(visible_peers(t1, peer_id@)));
                    assert(lview(list_peers@.push(entry)) =~= lview(list_peers@).push(
                        vview(entry),
                    ));
                    assert(lview(list_peers@) + (seq![pe] + peer_entries(visible_peers(t1, peer_id@)))
                        =~= lview(list_peers@).push(pe) + peer_entries(visible_peers(t1, peer_id@)));
                    assert forall|w: int|
                        0 <= w < lview(list_peers@.push(entry)).len() implies keys_uniq(
                        #[trigger] lview(list_peers@.push(entry))[w],
                    ) by {
                        if w < lview(list_peers@).len() {
                            assert(lview(list_peers@.push(entry))[w] == lview(list_peers@)[w]);
                        }
                    }
                }
                list_peers.push(entry);
            } else {
                proof {
                    assert(visible_peers(t, peer_id@) == visible_peers(t1, peer_id@));
                }
            }
            i = i + 1;
        }
        proof {
            assert(self.peers@.skip(n as int) =~= Seq::<(Vec<u8>, PeerInfo)>::empty());
            assert(peer_entries(visible_peers(self.peers@.skip(n as int), peer_id@))
                =~= Seq::<BValue>::empty());
            assert(peer_entries(visible_peers(self.peers@, peer_id@)) =~= lview(list_peers@));
        }
        let mut dic_to_bencode: Vec<(Vec<u8>, ValuesBencoding)> = Vec::new();
        dic_to_bencode.push((str_bytes("complete"), ValuesBencoding::Integer(complete)));
        dic_to_bencode.push((str_bytes("incomplete"), ValuesBencoding::Integer(incomplete)));
        dic_to_bencode.push((str_bytes("interval"), ValuesBencoding::Integer(self.interval)));
        dic_to_bencode.push((str_bytes("peers"), ValuesBencoding::List(list_peers)));
        proof {
            let ps = response_dict(*self, peer_id@, false)->Dict_0;
            assert(pview(dic_to_bencode@) =~= ps);
            assert(ascii("complete"@).len() == 8 && ascii("incomplete"@).len() == 10 && ascii(
                "interval"@,
            ).len() == 8 && ascii("peers"@).len() == 5);
            assert(ascii("complete"@)[0] == 99 && ascii("interval"@)[0] == 105);
            assert(uniq_keys_b(ps));
            crate::bencoding::model::lemma_keys_uniq_list_from_index(ps[3].1->List_0);
            assert forall|w: int| 0 <= w < ps.len() implies keys_uniq((#[trigger] ps[w]).1) by {}
            crate::bencoding::model::lemma_keys_uniq_pairs_from_index(ps);
            assert(keys_uniq(BValue::Dict(pview(dic_to_bencode@))));
        }
        from_dic(dic_to_bencode)
    }

    /// The compact response: the same dictionary, with the peer list a
    /// single byte string of six-byte blocks.
    fn get_response_compact(&self, peer_id: Vec<u8>) -> (r: Vec<u8>)
        requires
            self.peers@.len() <= 0x7fff_ffff_ffff_ffff,
        ensures
            r@ == enc(canon(response_dict(*self, peer_id@, true))),
    {
        proof {
            reveal_strlit("complete");
            reveal_strlit("incomplete");
            reveal_strlit("interval");
            reveal_strlit("peers");
        }
        let (complete, incomplete) = self.get_number_of_complete_and_incomplete_peers();
        let n = self.peers.len();
        let mut vec_u8_peers: Vec<u8> = Vec::new();
        let mut i: usize = 0;
        proof {
            assert(self.peers@.skip(0) =~= self.peers@);
            assert(compact_blocks(visible_peers(self.peers@, peer_id@)) =~= vec_u8_peers@
                + compact_blocks(visible_peers(self.peers@.skip(0), peer_id@)));
        }
        while i < n
            invariant
                0 <= i <= n,
                n == self.peers@.len(),
                compact_blocks(visible_peers(self.peers@, peer_id@)) == vec_u8_peers@
                    + compact_blocks(visible_peers(self.peers@.skip(i as int), peer_id@)),
            decreases n - i,
        {
            let ghost t = self.peers@.skip(i as int);
            proof {
                assert(t[0] == self.peers@[i as int]);
                assert(t.drop_first() =~= self.peers@.skip(i + 1));
            }
            let p = vec_index(&self.peers, i);
            let same = bytes_eq(p.0.as_slice(), peer_id.as_slice());
            let stopped = matches!(p.1.event, Some(Event::Stopped));
            let ghost t1 = self.peers@.skip(i + 1);
            let ghost out0 = vec_u8_peers@;
            if !same && !stopped {
                push_octets(&mut vec_u8_peers, p.1.sock_addr.ip.as_slice());
                let port = p.1.sock_addr.port;
                vec_u8_peers.push((port / 256) as u8);
                vec_u8_peers.push((port % 256) as u8);
                proof {
                    let vis = visible_peers(t, peer_id@);
                    assert(vis == seq![t[0]] + visible_peers(t1, peer_id@));
                    assert((seq![t[0]] + visible_peers(t1, peer_id@))[0] == t[0]);
                    assert((seq![t[0]] + visible_peers(t1, peer_id@)).drop_first()
                        =~= visible_peers(t1, peer_id@));
                    assert(compact_blocks(vis) == octets(t[0].1.sock_addr.ip@) + seq![
                        (t[0].1.sock_addr.port / 256) as u8,
                        (t[0].1.sock_addr.port % 256) as u8,
                    ] + compact_blocks(visible_peers(t1, peer_id@)));
                    assert(vec_u8_peers@ =~= out0 + octets(t[0].1.sock_addr.ip@) + seq![
                        (t[0].1.sock_addr.port / 256) as u8,
                        (t[0].1.sock_addr.port % 256) as u8,
                    ]);
                    assert(out0 + compact_blocks(vis) =~= vec_u8_peers@ + compact_blocks(
                        visible_peers(t1, peer_id@),
                    ));
                }
            } else {
                proof {
                    assert(visible_peers(t, peer_id@) == visible_peers(t1, peer_id@));
                }
            }
            i = i + 1;
        }
        proof {
            assert(self.peers@.skip(n as int) =~= Seq::<(Vec<u8>, PeerInfo)>::empty());
            assert(compact_blocks(visible_peers(self.peers@.skip(n as int), peer_id@))
                =~= Seq::<u8>::empty());
            assert(compact_blocks(visible_peers(self.peers@, peer_id@)) =~= vec_u8_peers@);
        }
        let mut dic_to_bencode: Vec<(Vec<u8>, ValuesBencoding)> = Vec::new();
        dic_to_bencode.push((str_bytes("complete"), ValuesBencoding::Integer(complete)));
        dic_to_bencode.push((str_bytes("incomplete"), ValuesBencoding::Integer(incomplete)));
        dic_to_bencode.push((str_bytes("interval"), ValuesBencoding::Integer(self.interval)));
        dic_to_bencode.push((str_bytes("peers"), ValuesBencoding::String(vec_u8_peers)));
        proof {
            let ps = response_dict(*self, peer_id@, true)->Dict_0;
            assert(pview(dic_to_bencode@) =~= ps);
            assert(ascii("complete"@).len() == 8 && ascii("incomplete"@).len() == 10 && ascii(
                "interval"@,
            ).len() == 8 && ascii("peers"@).len() == 5);
            assert(ascii("complete"@)[0] == 99 && ascii("interval"@)[0] == 105);
            assert(uniq_keys_b(ps));
            assert forall|w: int| 0 <= w < ps.len() implies keys_uniq((#[trigger] ps[w]).1) by {}
            crate::bencoding::model::lemma_keys_uniq_pairs_from_index(ps);
            assert(keys_uniq(BValue::Dict(pview(dic_to_bencode@))));
        }
        from_dic(dic_to_bencode)
    }

    /// The bencoded response for one announce: the requesting peer asks
    /// for compact or verbose form and never sees its own entry.
    pub fn get_bencoded_response_for_announce(&self, peer_id: Vec<u8>, is_compact: bool) -> (r:
        Vec<u8>)
        requires
            self.peers@.len() <= 0x7fff_ffff_ffff_ffff,
        ensures
            r@ == enc(canon(response_dict(*self, peer_id@, is_compact))),
    {
        match is_compact {
            true => self.get_response_compact(peer_id),
            false => self.get_response_no_compact(peer_id),
        }
    }
}

/// Appends the octets of one textual IP: each dot-separated segment
/// that parses as a byte, in order.
fn push_octets(out: &mut Vec<u8>, ip: &[u8])
    ensures
        final(out)@ == old(out)@ + octets(ip@),
{
    let n = ip.len();
    let mut i: usize = 0;
    proof {
        assert(ip@.skip(0) =~= ip@);
    }
    loop
        invariant
            0 <= i <= n,
            n == ip@.len(),
            old(out)@ + octets(ip@) == out@ + octets(ip@.skip(i as int)),
        decreases n - i,
    {
        let ghost t = ip@.skip(i as int);
        let rest = slice_subrange(ip, i, n);
        proof {
            assert(rest@ =~= t);
        }
        match find_byte(rest, 46, 0) {
            Some(d) => {
                proof {
                    lemma_byte_pos_valid(t, 46, 0);
                    assert(t.take(d as int) =~= ip@.subrange(i as int, i + d));
                    assert(t.skip(d + 1) =~= ip@.skip(i + d + 1));
                }
                let seg = slice_subrange(ip, i, i + d);
                match crate::numbers::parse_u64_bytes(seg) {
                    Some(v) => {
                        if v <= 255 {
                            out.push(v as u8);
                        }
                    },
                    None => {},
                }
                i = i + d + 1;
            },
            None => {
                let seg = slice_subrange(ip, i, n);
                proof {
                    assert(seg@ =~= t);
                }
                match crate::numbers::parse_u64_bytes(seg) {
                    Some(v) => {
                        if v <= 255 {
                            out.push(v as u8);
                        }
                    },
                    None => {},
                }
                proof {
                    assert(out@ =~= old(out)@ + octets(ip@));
                }
                return ;
            },
        }
        proof {
            assert(out@ + octets(ip@.skip(i as int)) =~= old(out)@ + octets(ip@));
        }
    }
}

} // verus!
