use web_rust::announce_decoder::{get_announce_error, get_announce_str, Announce, AnnounceError};
use web_rust::bencoding::decoder::{from_torrent_to_dic, to_dic};
use web_rust::bencoding::encoder::from_dic;
use web_rust::bencoding::values::ValuesBencoding;
use web_rust::handler::{build_http_response, dispatcher_step, route_request, AcceptEvent, DispatcherAction, Route};
use web_rust::peer_info::{get_error_response_for_announce, Event, PeerAddr, PeerInfo, PeerInfoError};
use web_rust::registry::Registry;
use web_rust::thread_pool::{worker_drain, Message};
use web_rust::torrent_info::TorrentInfo;

fn peer(id: &str, ip: &str, port: u16, left: u64, event: Option<Event>) -> (Vec<u8>, PeerInfo) {
    let info = PeerInfo {
        sock_addr: PeerAddr { ip: ip.as_bytes().to_vec(), port },
        info_hash: "aaaaaaaaaaaaaaaaaaaa".as_bytes().to_vec(),
        peer_id: id.as_bytes().to_vec(),
        port: port as u64,
        downloaded: 0,
        uploaded: 0,
        left,
        compact: None,
        event,
    };
    (id.as_bytes().to_vec(), info)
}

#[test]
fn announce_parses_every_field() {
    let query = "GET /announce?info_hash=aaaaaaaaaaaaaaaaaaaa&peer_id=bbbbbbbbbbbbbbbbbbbb&port=6881&downloaded=10&uploaded=5&left=7&compact=1&event=started HTTP/1.1"
        .as_bytes()
        .to_vec();
    let addr = PeerAddr { ip: "9.9.9.9".as_bytes().to_vec(), port: 50000 };
    let info = PeerInfo::new(query, addr).unwrap();
    assert_eq!(info.info_hash, "aaaaaaaaaaaaaaaaaaaa".as_bytes().to_vec());
    assert_eq!(info.peer_id, "bbbbbbbbbbbbbbbbbbbb".as_bytes().to_vec());
    assert_eq!(info.port, 6881);
    assert_eq!(info.downloaded, 10);
    assert_eq!(info.uploaded, 5);
    assert_eq!(info.left, 7);
    assert_eq!(info.event, Some(Event::Started));
    // the announced port replaces the connection's source port
    assert_eq!(info.sock_addr.port, 6881);
    assert_eq!(info.sock_addr.ip, "9.9.9.9".as_bytes().to_vec());
    assert!(info.is_compact());
    assert!(!info.is_complete());
    assert!(!info.is_stopped());
}

#[test]
fn announce_percent_decodes_identifiers() {
    let query = "info_hash=%ac%c3%b2%e43%d7%c7GZ%bbYA%b5h%1c%b7%a1%ea%26%e2&peer_id=bbbbbbbbbbbbbbbbbbbb&port=6881&downloaded=0&uploaded=0&left=0"
        .as_bytes()
        .to_vec();
    let addr = PeerAddr { ip: "1.1.1.1".as_bytes().to_vec(), port: 1 };
    let info = PeerInfo::new(query, addr).unwrap();
    assert_eq!(
        info.info_hash,
        vec![
            0xACu8, 0xC3, 0xB2, 0xE4, 0x33, 0xD7, 0xC7, 0x47, 0x5A, 0xBB, 0x59, 0x41, 0xB5, 0x68,
            0x1C, 0xB7, 0xA1, 0xEA, 0x26, 0xE2,
        ]
    );
}

#[test]
fn announce_missing_info_hash_short_circuits() {
    // peer id and port are also missing or malformed, but the info hash
    // is reported first
    let query = "peer_id=xx&port=99999".as_bytes().to_vec();
    let addr = PeerAddr { ip: "1.1.1.1".as_bytes().to_vec(), port: 1 };
    let err = PeerInfo::new(query, addr).unwrap_err();
    assert_eq!(err, PeerInfoError::InfoHashNotFound);
}

#[test]
fn announce_invalid_info_hash_length() {
    let query = "info_hash=short&peer_id=bbbbbbbbbbbbbbbbbbbb&port=6881".as_bytes().to_vec();
    let addr = PeerAddr { ip: "1.1.1.1".as_bytes().to_vec(), port: 1 };
    assert_eq!(PeerInfo::new(query, addr).unwrap_err(), PeerInfoError::InfoHashInvalid);
}

#[test]
fn announce_peer_id_errors() {
    let addr = PeerAddr { ip: "1.1.1.1".as_bytes().to_vec(), port: 1 };
    let query = "info_hash=aaaaaaaaaaaaaaaaaaaa&port=6881".as_bytes().to_vec();
    assert_eq!(PeerInfo::new(query, addr.clone()).unwrap_err(), PeerInfoError::PeerId);
    let query = "info_hash=aaaaaaaaaaaaaaaaaaaa&peer_id=tiny&port=6881".as_bytes().to_vec();
    assert_eq!(PeerInfo::new(query, addr).unwrap_err(), PeerInfoError::PeerId);
}

#[test]
fn announce_port_boundaries() {
    let addr = PeerAddr { ip: "1.1.1.1".as_bytes().to_vec(), port: 1 };
    let base = "info_hash=aaaaaaaaaaaaaaaaaaaa&peer_id=bbbbbbbbbbbbbbbbbbbb";
    let q = format!("{}&port=6880&downloaded=0&uploaded=0&left=0", base);
    assert_eq!(
        PeerInfo::new(q.as_bytes().to_vec(), addr.clone()).unwrap_err(),
        PeerInfoError::PortInvalid
    );
    let q = format!("{}&port=6890&downloaded=0&uploaded=0&left=0", base);
    assert_eq!(
        PeerInfo::new(q.as_bytes().to_vec(), addr.clone()).unwrap_err(),
        PeerInfoError::PortInvalid
    );
    let q = format!("{}&port=6881&downloaded=0&uploaded=0&left=0", base);
    assert_eq!(PeerInfo::new(q.as_bytes().to_vec(), addr.clone()).unwrap().port, 6881);
    let q = format!("{}&port=6889&downloaded=0&uploaded=0&left=0", base);
    assert_eq!(PeerInfo::new(q.as_bytes().to_vec(), addr).unwrap().port, 6889);
}

#[test]
fn announce_port_and_stat_errors() {
    let addr = PeerAddr { ip: "1.1.1.1".as_bytes().to_vec(), port: 1 };
    let base = "info_hash=aaaaaaaaaaaaaaaaaaaa&peer_id=bbbbbbbbbbbbbbbbbbbb";
    let q = format!("{}&downloaded=0", base);
    assert_eq!(
        PeerInfo::new(q.as_bytes().to_vec(), addr.clone()).unwrap_err(),
        PeerInfoError::PortNotFound
    );
    let q = format!("{}&port=abc", base);
    assert_eq!(
        PeerInfo::new(q.as_bytes().to_vec(), addr.clone()).unwrap_err(),
        PeerInfoError::PortInvalid
    );
    let q = format!("{}&port=6881&uploaded=0&left=0", base);
    assert_eq!(
        PeerInfo::new(q.as_bytes().to_vec(), addr.clone()).unwrap_err(),
        PeerInfoError::StatNotFound
    );
    let q = format!("{}&port=6881&downloaded=ten&uploaded=0&left=0", base);
    assert_eq!(
        PeerInfo::new(q.as_bytes().to_vec(), addr).unwrap_err(),
        PeerInfoError::StatInvalid
    );
}

#[test]
fn announce_unknown_event_is_no_event() {
    let addr = PeerAddr { ip: "1.1.1.1".as_bytes().to_vec(), port: 1 };
    let q = "info_hash=aaaaaaaaaaaaaaaaaaaa&peer_id=bbbbbbbbbbbbbbbbbbbb&port=6881&downloaded=0&uploaded=0&left=0&event=paused"
        .as_bytes()
        .to_vec();
    let info = PeerInfo::new(q, addr.clone()).unwrap();
    assert_eq!(info.event, None);
    let q = "info_hash=aaaaaaaaaaaaaaaaaaaa&peer_id=bbbbbbbbbbbbbbbbbbbb&port=6881&downloaded=0&uploaded=0&left=0&event=stopped"
        .as_bytes()
        .to_vec();
    let info = PeerInfo::new(q, addr).unwrap();
    assert_eq!(info.event, Some(Event::Stopped));
    assert!(info.is_stopped());
}

#[test]
fn announce_error_bodies() {
    assert_eq!(
        get_error_response_for_announce(PeerInfoError::InfoHashNotFound),
        "you sent me garbage - no info hash"
    );
    assert_eq!(
        get_error_response_for_announce(PeerInfoError::InfoHashInvalid),
        "d14:failure reason63:Requested download is not authorized for use with this tracker.e"
    );
    assert_eq!(
        get_error_response_for_announce(PeerInfoError::PeerId),
        "you sent me garbage - id not of length 20"
    );
    assert_eq!(
        get_error_response_for_announce(PeerInfoError::PortNotFound),
        "you sent me garbage - invalid literal for long() with base 10: ''"
    );
    assert_eq!(
        get_error_response_for_announce(PeerInfoError::PortInvalid),
        "you sent me garbage - invalid port"
    );
    assert_eq!(
        get_error_response_for_announce(PeerInfoError::StatNotFound),
        "you sent me garbage - invalid literal for long() with base 10: ''"
    );
    assert_eq!(
        get_error_response_for_announce(PeerInfoError::StatInvalid),
        "you sent me garbage - invalid amount"
    );
}

#[test]
fn response_compact_and_verbose_forms() {
    // swarm: A complete (and the requester), B incomplete
    let mut t = TorrentInfo::new("aaaaaaaaaaaaaaaaaaaa".as_bytes().to_vec());
    let (a_id, a) = peer("AAAAAAAAAAAAAAAAAAAA", "1.2.3.4", 6881, 0, None);
    let (b_id, b) = peer("BBBBBBBBBBBBBBBBBBBB", "5.6.7.8", 6882, 5, None);
    t.add_peer(a_id.clone(), a);
    t.add_peer(b_id, b);

    let verbose = t.get_bencoded_response_for_announce(a_id.clone(), false);
    let expected = "d8:completei1e10:incompletei1e8:intervali0e5:peersld2:ip7:5.6.7.87:peer_id20:BBBBBBBBBBBBBBBBBBBB4:porti6882eeee"
        .as_bytes()
        .to_vec();
    assert_eq!(verbose, expected);

    let compact = t.get_bencoded_response_for_announce(a_id, true);
    let mut expected = "d8:completei1e10:incompletei1e8:intervali0e5:peers6:"
        .as_bytes()
        .to_vec();
    expected.extend_from_slice(&[5u8, 6, 7, 8, 26, 226]);
    expected.push(b'e');
    assert_eq!(compact, expected);
}

#[test]
fn response_malformed_ip_skips_octets() {
    // a non-IPv4 address contributes no octets in compact form, but the
    // port bytes still follow
    let mut t = TorrentInfo::new("aaaaaaaaaaaaaaaaaaaa".as_bytes().to_vec());
    let (b_id, b) = peer("BBBBBBBBBBBBBBBBBBBB", "no-dots-here", 6882, 5, None);
    t.add_peer(b_id, b);
    let compact = t.get_bencoded_response_for_announce("CCCCCCCCCCCCCCCCCCCC".as_bytes().to_vec(), true);
    let mut expected = "d8:completei0e10:incompletei1e8:intervali0e5:peers2:"
        .as_bytes()
        .to_vec();
    expected.extend_from_slice(&[26u8, 226]);
    expected.push(b'e');
    assert_eq!(compact, expected);
}

#[test]
fn stopped_peer_kept_but_not_listed() {
    let mut t = TorrentInfo::new("aaaaaaaaaaaaaaaaaaaa".as_bytes().to_vec());
    let (s_id, s) = peer("SSSSSSSSSSSSSSSSSSSS", "1.2.3.4", 6883, 5, Some(Event::Stopped));
    t.add_peer(s_id, s);
    // the record remains in the registry and still enters the counts
    assert_eq!(t.peers.len(), 1);
    let verbose = t.get_bencoded_response_for_announce("RRRRRRRRRRRRRRRRRRRR".as_bytes().to_vec(), false);
    let expected = "d8:completei0e10:incompletei1e8:intervali0e5:peerslee"
        .as_bytes()
        .to_vec();
    assert_eq!(verbose, expected);
    // still there afterwards
    assert_eq!(t.peers.len(), 1);
}

#[test]
fn reannounce_overwrites_record() {
    let mut t = TorrentInfo::new("aaaaaaaaaaaaaaaaaaaa".as_bytes().to_vec());
    let (b_id, b) = peer("BBBBBBBBBBBBBBBBBBBB", "5.6.7.8", 6882, 5, None);
    t.add_peer(b_id.clone(), b);
    let (_, b2) = peer("BBBBBBBBBBBBBBBBBBBB", "5.6.7.8", 6882, 0, Some(Event::Completed));
    t.add_peer(b_id.clone(), b2);
    assert_eq!(t.peers.len(), 1);
    let verbose = t.get_bencoded_response_for_announce("RRRRRRRRRRRRRRRRRRRR".as_bytes().to_vec(), false);
    let expected = "d8:completei1e10:incompletei0e8:intervali0e5:peersld2:ip7:5.6.7.87:peer_id20:BBBBBBBBBBBBBBBBBBBB4:porti6882eeee"
        .as_bytes()
        .to_vec();
    assert_eq!(verbose, expected);
}

#[test]
fn registry_handles_whole_announce() {
    let mut reg = Registry::new();
    reg.register_torrent("aaaaaaaaaaaaaaaaaaaa".as_bytes().to_vec());
    assert!(reg.can_grow());
    let addr = PeerAddr { ip: "1.2.3.4".as_bytes().to_vec(), port: 40000 };
    let q = "GET /announce?info_hash=aaaaaaaaaaaaaaaaaaaa&peer_id=bbbbbbbbbbbbbbbbbbbb&port=6881&downloaded=0&uploaded=0&left=0 HTTP/1.1"
        .as_bytes()
        .to_vec();
    let resp = reg.get_response_details(&q, addr.clone());
    // the first announce sees an empty swarm
    assert_eq!(resp, "d8:completei0e10:incompletei0e8:intervali0e5:peerslee".as_bytes().to_vec());

    // the second peer sees the first one
    let q2 = "GET /announce?info_hash=aaaaaaaaaaaaaaaaaaaa&peer_id=cccccccccccccccccccc&port=6882&downloaded=0&uploaded=0&left=9 HTTP/1.1"
        .as_bytes()
        .to_vec();
    let resp2 = reg.get_response_details(&q2, addr.clone());
    let expected = "d8:completei1e10:incompletei0e8:intervali0e5:peersld2:ip7:1.2.3.47:peer_id20:bbbbbbbbbbbbbbbbbbbb4:porti6881eeee"
        .as_bytes()
        .to_vec();
    assert_eq!(resp2, expected);

    // an unknown info hash is rejected, not auto-created
    let q3 = "GET /announce?info_hash=zzzzzzzzzzzzzzzzzzzz&peer_id=cccccccccccccccccccc&port=6882&downloaded=0&uploaded=0&left=9 HTTP/1.1"
        .as_bytes()
        .to_vec();
    let resp3 = reg.get_response_details(&q3, addr.clone());
    assert_eq!(
        resp3,
        "d14:failure reason63:Requested download is not authorized for use with this tracker.e"
            .as_bytes()
            .to_vec()
    );

    // a malformed announce gets the matching fixed body
    let q4 = "GET /announce?peer_id=cccccccccccccccccccc HTTP/1.1".as_bytes().to_vec();
    let resp4 = reg.get_response_details(&q4, addr);
    assert_eq!(resp4, "you sent me garbage - no info hash".as_bytes().to_vec());
}

#[test]
fn old_parser_defaults_stats_to_zero() {
    let q = "info_hash=XYZ&peer_id=QQ&port=6881".as_bytes().to_vec();
    let a = Announce::new(q).unwrap();
    assert_eq!(a.info_hash, "XYZ".as_bytes().to_vec());
    assert_eq!(a.peer_id, "QQ".as_bytes().to_vec());
    assert_eq!(a.port, 6881);
    assert_eq!(a.downloaded, 0);
    assert_eq!(a.uploaded, 0);
    assert_eq!(a.left, 0);
    assert_eq!(a.ip, None);
    assert_eq!(a.compact, None);
    assert_eq!(a.event, None);
}

#[test]
fn old_parser_errors() {
    let q = "peer_id=QQ&port=6881".as_bytes().to_vec();
    assert!(matches!(Announce::new(q), Err(AnnounceError::InfoHash)));
    let q = "info_hash=XYZ&port=6881".as_bytes().to_vec();
    assert!(matches!(Announce::new(q), Err(AnnounceError::PeerId)));
    let q = "info_hash=XYZ&peer_id=QQ&port=80".as_bytes().to_vec();
    assert!(matches!(Announce::new(q), Err(AnnounceError::Port)));
    assert_eq!(get_announce_error(AnnounceError::InfoHash), "Info Hash not found");
    assert_eq!(get_announce_error(AnnounceError::PeerId), "Peer id not found");
    assert_eq!(get_announce_error(AnnounceError::Port), "Port not found");
}

#[test]
fn old_parser_renders_fields() {
    let q = "info_hash=XYZ&peer_id=QQ&port=6881&downloaded=3&uploaded=2&left=1&ip=1.2.3.4"
        .as_bytes()
        .to_vec();
    let a = Announce::new(q).unwrap();
    let rendered = get_announce_str(a);
    let expected = "INFO_HASH: XYZ\nPEER_ID: QQ\nPORT: 6881\nDOWNLOADED: 3\nUPLOADED: 2\nLEFT: 1\nIP: 1.2.3.4\nCOMPACT: None\nEVENT: None\n";
    assert_eq!(rendered, expected);
}

#[test]
fn routes_by_prefix() {
    assert_eq!(route_request("GET / HTTP/1.1\r\nHost: x".as_bytes()), Route::Index);
    assert_eq!(route_request("GET /stats.html HTTP/1.1".as_bytes()), Route::Stats);
    assert_eq!(route_request("GET /style.css HTTP/1.1".as_bytes()), Route::Style);
    assert_eq!(route_request("GET /docs.html HTTP/1.1".as_bytes()), Route::Docs);
    assert_eq!(route_request("GET /code.js HTTP/1.1".as_bytes()), Route::Code);
    assert_eq!(route_request("GET /announce?info_hash=x".as_bytes()), Route::Announce);
    assert_eq!(route_request("POST /upload HTTP/1.1".as_bytes()), Route::NotFound);
}

#[test]
fn frames_http_response() {
    let body = "abc".as_bytes().to_vec();
    let framed = build_http_response(true, body);
    assert_eq!(framed, "HTTP/1.1 200 OK\r\nContent-Length: 3\r\n\r\nabc".as_bytes().to_vec());
    let framed = build_http_response(false, Vec::new());
    assert_eq!(framed, "HTTP/1.1 404 NOT FOUND\r\nContent-Length: 0\r\n\r\n".as_bytes().to_vec());
}

#[test]
fn dispatcher_exits_on_idle_shutdown() {
    assert_eq!(dispatcher_step(AcceptEvent::WouldBlock, true), DispatcherAction::Exit);
    assert_eq!(dispatcher_step(AcceptEvent::WouldBlock, false), DispatcherAction::Sleep);
    assert_eq!(dispatcher_step(AcceptEvent::Connection, true), DispatcherAction::Dispatch);
    assert_eq!(dispatcher_step(AcceptEvent::Connection, false), DispatcherAction::Dispatch);
    assert_eq!(dispatcher_step(AcceptEvent::OtherError, true), DispatcherAction::Ignore);
}

#[test]
fn pool_drains_jobs_before_terminates() {
    // the teardown queue: every job ahead of one sentinel per worker
    let queue = vec![
        Message::NewJob(1),
        Message::NewJob(2),
        Message::NewJob(3),
        Message::Terminate,
        Message::Terminate,
        Message::Terminate,
        Message::Terminate,
    ];
    assert_eq!(worker_drain(&queue), vec![1, 2, 3]);
    // an empty pool drains nothing and stops at once
    let queue = vec![Message::Terminate];
    assert_eq!(worker_drain(&queue), Vec::<u64>::new());
    // a sentinel ahead of a job stops the worker early; teardown never
    // queues them that way
    let queue = vec![Message::NewJob(7), Message::Terminate, Message::NewJob(8)];
    assert_eq!(worker_drain(&queue), vec![7]);
}

#[test]
fn round_trip_canonicalizes_dictionaries() {
    // the same pairs in two insertion orders encode identically
    let mut d1 = Vec::new();
    d1.push(("beta".as_bytes().to_vec(), ValuesBencoding::Integer(2)));
    d1.push(("alfa".as_bytes().to_vec(), ValuesBencoding::Integer(1)));
    let mut d2 = Vec::new();
    d2.push(("alfa".as_bytes().to_vec(), ValuesBencoding::Integer(1)));
    d2.push(("beta".as_bytes().to_vec(), ValuesBencoding::Integer(2)));
    let e1 = from_dic(d1);
    let e2 = from_dic(d2);
    assert_eq!(e1, e2);
    assert_eq!(e1, "d4:alfai1e4:betai2ee".as_bytes().to_vec());

    // decoding the encoding gives the pairs back in canonical order,
    // with nothing left over
    let (decoded, rest) = to_dic(e1.clone()).unwrap();
    assert_eq!(rest, Vec::<u8>::new());
    let mut expected = Vec::new();
    expected.push(("alfa".as_bytes().to_vec(), ValuesBencoding::Integer(1)));
    expected.push(("beta".as_bytes().to_vec(), ValuesBencoding::Integer(2)));
    assert_eq!(decoded, expected);

    // the whole-file entry point insists on no trailing bytes
    assert_eq!(from_torrent_to_dic(e1).unwrap(), expected);
    let mut with_rest = "d4:alfai1ee".as_bytes().to_vec();
    with_rest.push(b'x');
    assert!(from_torrent_to_dic(with_rest).is_err());
}

#[test]
fn round_trip_nested_value() {
    // a nested dictionary inside a list, keys inserted out of order
    let mut inner = Vec::new();
    inner.push(("z".as_bytes().to_vec(), ValuesBencoding::Integer(26)));
    inner.push(("a".as_bytes().to_vec(), ValuesBencoding::Integer(1)));
    let mut outer = Vec::new();
    outer.push((
        "list".as_bytes().to_vec(),
        ValuesBencoding::List(vec![
            ValuesBencoding::Dic(inner),
            ValuesBencoding::String("x".as_bytes().to_vec()),
        ]),
    ));
    let encoded = from_dic(outer);
    assert_eq!(encoded, "d4:listld1:ai1e1:zi26ee1:xee".as_bytes().to_vec());
    let (decoded, rest) = to_dic(encoded).unwrap();
    assert_eq!(rest, Vec::<u8>::new());
    let mut inner_sorted = Vec::new();
    inner_sorted.push(("a".as_bytes().to_vec(), ValuesBencoding::Integer(1)));
    inner_sorted.push(("z".as_bytes().to_vec(), ValuesBencoding::Integer(26)));
    let mut expected = Vec::new();
    expected.push((
        "list".as_bytes().to_vec(),
        ValuesBencoding::List(vec![
            ValuesBencoding::Dic(inner_sorted),
            ValuesBencoding::String("x".as_bytes().to_vec()),
        ]),
    ));
    assert_eq!(decoded, expected);
}
