use miner_net::miner::{
    concat_u8, decode_id, decode_message, decode_sockip, encode_id, encode_message,
    encode_sockip, hashset_from_string, hashset_to_string, parse_network, try_decode_message,
    Flag, HandleError, Miner, Reaction,
};
use std::collections::HashSet;

fn s(t: &str) -> String {
    String::from(t)
}

fn as_set(v: &Vec<(u32, String)>) -> HashSet<(u32, String)> {
    v.iter().cloned().collect()
}

fn sends_of(r: &Reaction) -> Vec<(String, String, Flag)> {
    r.sends.iter().map(|o| (o.destination.clone(), o.message.clone(), o.flag)).collect()
}

fn miner_with(id: u32, addr: &str, peers: &[(u32, &str)]) -> Miner {
    let mut m = Miner::new(id, s(addr));
    for (i, a) in peers {
        m.add_to_network(*i, s(a));
    }
    m
}

#[test]
fn miner_flags_have_their_bytes() {
    let all = [
        Flag::Okay,
        Flag::Connect,
        Flag::Disconnect,
        Flag::RequireID,
        Flag::GiveID,
        Flag::BroadcastConnect,
        Flag::BroadcastDisconnect,
    ];
    for (i, f) in all.iter().enumerate() {
        assert_eq!(f.to_u8() as usize, i);
        assert_eq!(Flag::from_u8(i as u8), *f);
    }
}

#[test]
fn concat_u8_joins_bytes() {
    assert_eq!(concat_u8(&[1, 2, 3], &[4, 5]), vec![1, 2, 3, 4, 5]);
    assert_eq!(concat_u8(&[], &[4]), vec![4]);
    assert_eq!(concat_u8(&[], &[]), Vec::<u8>::new());
}

#[test]
fn sockip_padding() {
    assert_eq!(encode_sockip(s("127.0.0.1:8080")), "127.0.0.1:8080XXXXXXX");
    assert_eq!(encode_sockip(s("127.0.0.1:8080")).chars().count(), 21);
    assert_eq!(encode_sockip(s("255.255.255.255:65535")), "255.255.255.255:65535");
    assert_eq!(encode_sockip(s("")), "XXXXXXXXXXXXXXXXXXXXX");
    assert_eq!(decode_sockip(s("127.0.0.1:8080XXXXXXX")), "127.0.0.1:8080");
    assert_eq!(decode_sockip(s("aXbX")), "ab");
    assert_eq!(encode_sockip(s("host:1")), format!("{:X<21}", "host:1"));
}

#[test]
fn id_padding() {
    assert_eq!(encode_id(s("42")), "42YYYYYYYY");
    assert_eq!(encode_id(s("")), "YYYYYYYYYY");
    assert_eq!(encode_id(s("12345678901")), "12345678901");
    assert_eq!(decode_id(s("42YYYYYYYY")), "42");
    assert_eq!(encode_id(s("9")), format!("{:Y<10}", "9"));
}

#[test]
fn law_padding_roundtrip_on_values() {
    for a in ["", "127.0.0.1:8080", "255.255.255.255:65535", "localhost:1"] {
        assert_eq!(decode_sockip(encode_sockip(s(a))), a);
    }
    for i in ["", "0", "123456789", "4294967295"] {
        assert_eq!(decode_id(encode_id(s(i))), i);
    }
}

#[test]
fn encode_message_lays_out_the_fields() {
    let m = encode_message(&Flag::Connect, s("127.0.0.1:8080"), s("3"), s("hello"));
    let mut expected = vec![1u8];
    expected.extend_from_slice(b"127.0.0.1:8080XXXXXXX");
    expected.extend_from_slice(b"3YYYYYYYYY");
    expected.extend_from_slice(b"hello");
    assert_eq!(m, expected);
    assert_eq!(m.len(), 1 + 21 + 10 + 5);
}

#[test]
fn law_message_roundtrip_on_values() {
    let m = encode_message(&Flag::BroadcastConnect, s("10.0.0.2:9000"), s("17"), s("a;b é"));
    let (f, addr, id, text) = decode_message(&m);
    assert_eq!(f, Flag::BroadcastConnect);
    assert_eq!(addr, "10.0.0.2:9000");
    assert_eq!(id, "17");
    assert_eq!(text, "a;b é");
}

#[test]
fn decode_message_cuts_fields_at_fixed_places() {
    // A 21-character address loses its last character: the address field is read from
    // bytes 1 to 20 only.
    let m = encode_message(&Flag::Okay, s("255.255.255.255:65535"), s("1"), s("x"));
    let (_, addr, _, _) = decode_message(&m);
    assert_eq!(addr, "255.255.255.255:6553");
}

#[test]
fn try_decode_message_refuses_what_cannot_be_read() {
    assert!(try_decode_message(&[0u8; 31]).is_none());
    let mut m = encode_message(&Flag::Okay, s("a"), s("1"), s(""));
    assert!(try_decode_message(&m).is_some());
    m[0] = 7;
    assert!(try_decode_message(&m).is_none());
    let mut bad = encode_message(&Flag::Okay, s("a"), s("1"), s("x"));
    bad[32] = 0xff;
    assert!(try_decode_message(&bad).is_none());
    let mut bad_addr = encode_message(&Flag::Okay, s("a"), s("1"), s("x"));
    bad_addr[3] = 0x80;
    assert!(try_decode_message(&bad_addr).is_none());
    let buffer = [0u8; 50];
    let (f, addr, id, text) = try_decode_message(&buffer).unwrap();
    assert_eq!(f, Flag::Okay);
    assert_eq!(addr, "\u{0}".repeat(20));
    assert_eq!(id, "\u{0}".repeat(9));
    assert_eq!(text, "\u{0}".repeat(18));
}

#[test]
fn hashset_to_string_writes_each_member() {
    let net = vec![(1u32, s("10.0.0.1:1")), (2u32, s("10.0.0.2:2"))];
    assert_eq!(hashset_to_string(&net), "1,10.0.0.1:1;2,10.0.0.2:2");
    assert_eq!(hashset_to_string(&vec![]), "");
    assert_eq!(hashset_to_string(&vec![(0u32, s(""))]), "0,");
}

#[test]
fn hashset_from_string_reads_members() {
    let net = hashset_from_string(s("1,a;2,b;1,a"));
    assert_eq!(net.len(), 2);
    assert_eq!(as_set(&net), [(1, s("a")), (2, s("b"))].into_iter().collect());
    let trimmed = hashset_from_string(s("\u{0}\u{0}7\u{0},x,ignored"));
    assert_eq!(trimmed, vec![(7, s("x"))]);
    let plus = hashset_from_string(s("+3,y"));
    assert_eq!(plus, vec![(3, s("y"))]);
}

#[test]
fn parse_network_refuses_what_is_not_a_network() {
    assert!(parse_network(&s("")).is_none());
    assert!(parse_network(&s("abc")).is_none());
    assert!(parse_network(&s("1,a;")).is_none());
    assert!(parse_network(&s("1,a;2")).is_none());
    assert!(parse_network(&s("x,a")).is_none());
    assert!(parse_network(&s("4294967296,a")).is_none());
    assert!(parse_network(&s("4294967295,a")).is_some());
}

#[test]
fn law_network_text_roundtrip_on_values() {
    let net = vec![(1u32, s("10.0.0.1:1")), (42u32, s("10.0.0.2:2")), (7u32, s(""))];
    let back = hashset_from_string(hashset_to_string(&net));
    assert_eq!(as_set(&back), as_set(&net));
}

#[test]
fn new_miner_knows_no_one() {
    let m = Miner::new(9, s("127.0.0.1:8000"));
    assert_eq!(m.get_id(), 9);
    assert_eq!(m.sockip, "127.0.0.1:8000");
    assert!(m.network.is_empty());
    assert_eq!(m.describe(), "Miner[9]: \n Network:");
}

#[test]
fn law_add_and_remove_on_values() {
    let mut m = Miner::new(0, s("a"));
    assert!(m.add_to_network(1, s("b")));
    assert!(!m.add_to_network(1, s("b")));
    assert!(m.add_to_network(1, s("c")));
    assert_eq!(m.network.len(), 2);
    assert!(m.remove_from_network(1, s("b")));
    assert!(!m.remove_from_network(1, s("b")));
    assert_eq!(m.network, vec![(1, s("c"))]);
    // adding an absent member and taking it out again restores the network
    let before = m.network.clone();
    assert!(m.add_to_network(5, s("z")));
    assert!(m.remove_from_network(5, s("z")));
    assert_eq!(m.network, before);
}

#[test]
fn law_next_id_is_fresh_on_values() {
    let m = miner_with(3, "a", &[(10, "b"), (2, "c")]);
    assert_eq!(m.retrieve_next_id(), 11);
    let alone = Miner::new(0, s("a"));
    assert_eq!(alone.retrieve_next_id(), 1);
}

#[test]
fn law_broadcast_skips_sender_on_values() {
    let m = miner_with(0, "a", &[(1, "b"), (2, "c"), (3, "b")]);
    assert_eq!(m.broadcast_targets(&s("b")), vec![s("c")]);
    assert_eq!(m.broadcast_targets(&s("z")), vec![s("b"), s("c"), s("b")]);
}

#[test]
fn frame_message_uses_own_address_and_id() {
    let m = Miner::new(12, s("127.0.0.1:8000"));
    assert_eq!(
        m.frame_message(&s("hi"), &Flag::Connect),
        encode_message(&Flag::Connect, s("127.0.0.1:8000"), s("12"), s("hi"))
    );
}

#[test]
fn connect_replies_announces_and_adds() {
    let mut m = miner_with(0, "10.0.0.1:8000", &[(0, "10.0.0.1:8000"), (1, "10.0.0.3:9000")]);
    let data = encode_message(&Flag::Connect, s("10.0.0.2:9000"), s("5"), s("hello"));
    let r = m.handle_message(&data);
    assert_eq!(r.failure, None);
    assert_eq!(
        sends_of(&r),
        vec![
            (s("10.0.0.2:9000"), s("0,10.0.0.1:8000;1,10.0.0.3:9000"), Flag::Okay),
            (s("10.0.0.3:9000"), s("10.0.0.2:9000;5"), Flag::BroadcastConnect),
        ]
    );
    assert_eq!(
        m.network,
        vec![(0, s("10.0.0.1:8000")), (1, s("10.0.0.3:9000")), (5, s("10.0.0.2:9000"))]
    );
}

#[test]
fn connect_with_a_bad_id_replies_then_stops() {
    let mut m = miner_with(0, "a", &[(1, "b")]);
    let data = encode_message(&Flag::Connect, s("c"), s("x"), s("hello"));
    let r = m.handle_message(&data);
    assert_eq!(r.failure, Some(HandleError::BadSenderId));
    assert_eq!(sends_of(&r), vec![(s("c"), s("1,b"), Flag::Okay)]);
    assert_eq!(m.network, vec![(1, s("b"))]);
}

#[test]
fn disconnect_removes_and_passes_on() {
    let mut m = miner_with(0, "a", &[(1, "b"), (2, "c"), (3, "a")]);
    let data = encode_message(&Flag::Disconnect, s("b"), s("1"), s("bye"));
    let r = m.handle_message(&data);
    assert_eq!(r.failure, None);
    assert_eq!(m.network, vec![(2, s("c")), (3, s("a"))]);
    assert_eq!(sends_of(&r), vec![(s("c"), s("bye"), Flag::BroadcastDisconnect)]);
}

#[test]
fn disconnect_with_a_bad_id_does_nothing() {
    let mut m = miner_with(0, "a", &[(1, "b")]);
    let data = encode_message(&Flag::Disconnect, s("b"), s(""), s("bye"));
    let r = m.handle_message(&data);
    assert_eq!(r.failure, Some(HandleError::BadSenderId));
    assert!(r.sends.is_empty());
    assert_eq!(m.network, vec![(1, s("b"))]);
}

#[test]
fn okay_merges_the_network() {
    let mut m = miner_with(0, "a", &[(1, "b")]);
    let data = encode_message(&Flag::Okay, s("b"), s("1"), s("1,b;2,c;2,c"));
    let r = m.handle_message(&data);
    assert_eq!(r.failure, None);
    assert!(r.sends.is_empty());
    assert_eq!(m.network, vec![(1, s("b")), (2, s("c"))]);
}

#[test]
fn okay_with_a_bad_network_changes_nothing() {
    let mut m = miner_with(0, "a", &[(1, "b")]);
    let data = encode_message(&Flag::Okay, s("b"), s("1"), s("1,b;oops"));
    let r = m.handle_message(&data);
    assert_eq!(r.failure, Some(HandleError::BadNetwork));
    assert_eq!(m.network, vec![(1, s("b"))]);
}

#[test]
fn require_id_answers_with_the_next_id() {
    let mut m = miner_with(4, "a", &[(9, "b")]);
    let data = encode_message(&Flag::RequireID, s("c"), s(""), s("?"));
    let r = m.handle_message(&data);
    assert_eq!(r.failure, None);
    assert_eq!(sends_of(&r), vec![(s("c"), s("10"), Flag::GiveID)]);
}

#[test]
fn require_id_when_ids_run_out() {
    let mut m = miner_with(u32::MAX, "a", &[]);
    let data = encode_message(&Flag::RequireID, s("c"), s(""), s("?"));
    let r = m.handle_message(&data);
    assert_eq!(r.failure, Some(HandleError::IdsExhausted));
    assert!(r.sends.is_empty());
}

#[test]
fn broadcast_connect_adds_a_newcomer_and_passes_it_on() {
    let mut m = miner_with(0, "a", &[(1, "b"), (2, "c")]);
    let data = encode_message(&Flag::BroadcastConnect, s("b"), s("1"), s("d;7"));
    let r = m.handle_message(&data);
    assert_eq!(r.failure, None);
    assert_eq!(m.network, vec![(1, s("b")), (2, s("c")), (7, s("d"))]);
    assert_eq!(
        sends_of(&r),
        vec![
            (s("c"), s("d;7"), Flag::BroadcastConnect),
            (s("d"), s("d;7"), Flag::BroadcastConnect),
        ]
    );
}

#[test]
fn broadcast_connect_of_a_known_member_stops_there() {
    let mut m = miner_with(0, "a", &[(7, "d")]);
    let data = encode_message(&Flag::BroadcastConnect, s("b"), s("1"), s("d;7"));
    let r = m.handle_message(&data);
    assert_eq!(r.failure, None);
    assert!(r.sends.is_empty());
    assert_eq!(m.network, vec![(7, s("d"))]);
}

#[test]
fn broadcast_connect_that_is_not_an_announcement() {
    let mut m = miner_with(0, "a", &[]);
    for text in ["d", "d;x", "d;"] {
        let data = encode_message(&Flag::BroadcastConnect, s("b"), s("1"), s(text));
        let r = m.handle_message(&data);
        assert_eq!(r.failure, Some(HandleError::BadAnnouncement));
        assert!(m.network.is_empty());
    }
}

#[test]
fn give_id_and_broadcast_disconnect_are_ignored() {
    let mut m = miner_with(0, "a", &[(1, "b")]);
    for f in [Flag::GiveID, Flag::BroadcastDisconnect] {
        let data = encode_message(&f, s("b"), s("1"), s("x"));
        let r = m.handle_message(&data);
        assert_eq!(r.failure, None);
        assert!(r.sends.is_empty());
        assert_eq!(m.network, vec![(1, s("b"))]);
    }
}

#[test]
fn malformed_messages_are_refused() {
    let mut m = miner_with(0, "a", &[(1, "b")]);
    let short = [1u8; 10];
    assert_eq!(m.handle_message(&short).failure, Some(HandleError::Malformed));
    let mut unknown = encode_message(&Flag::Connect, s("b"), s("1"), s("x"));
    unknown[0] = 9;
    assert_eq!(m.handle_message(&unknown).failure, Some(HandleError::Malformed));
    let empty_text = encode_message(&Flag::Connect, s("b"), s("1"), s(""));
    assert_eq!(m.handle_message(&empty_text).failure, Some(HandleError::Malformed));
    let wide_first = encode_message(&Flag::Connect, s("b"), s("1"), s("éa"));
    assert_eq!(m.handle_message(&wide_first).failure, Some(HandleError::Malformed));
    assert_eq!(m.network, vec![(1, s("b"))]);
}

#[test]
fn id_from_reply_reads_the_given_id() {
    let reply = encode_message(&Flag::GiveID, s("10.0.0.1:8000"), s("0"), s("17"));
    assert_eq!(miner_net::miner::id_from_reply(&reply, reply.len()), Some(17));
    let mut buffer = [0u8; 50];
    buffer[..reply.len()].copy_from_slice(&reply);
    assert_eq!(miner_net::miner::id_from_reply(&buffer, reply.len()), Some(17));
    assert_eq!(miner_net::miner::id_from_reply(&buffer, 31), None);
    assert_eq!(miner_net::miner::id_from_reply(&buffer, 51), None);
    let padded = encode_message(&Flag::GiveID, s("a"), s("0"), s("17YY"));
    assert_eq!(miner_net::miner::id_from_reply(&padded, padded.len()), Some(17));
    let not_a_number = encode_message(&Flag::GiveID, s("a"), s("0"), s("x"));
    assert_eq!(miner_net::miner::id_from_reply(&not_a_number, not_a_number.len()), None);
    let mut invalid = reply.clone();
    invalid[32] = 0xc0;
    assert_eq!(miner_net::miner::id_from_reply(&invalid, invalid.len()), None);
}
