use crate::network::{
    insert_peer, lemma_network_text_roundtrip, lemma_with_peer, lemma_with_peers,
    lemma_without_peer, network_text, parse_peer, parsed_network, parsed_peers, peer_text,
    peers_of, plain_address, remove_peer, with_peer, with_peers, PeerView,
};
use crate::text::{
    chars_of, decimal, decimal_string, is_digit, joined, lemma_ascii_encoding_prefix,
    lemma_decimal, lemma_padded_ascii, lemma_parse_decimal, lemma_unpad, lemma_without_absent,
    lemma_without_idempotent, pad_right, padded, parse_u32, parsed_u32, pieces, push_char,
    push_text, remove_char, split_on, str_from_utf8, views, without,
};
use vstd::prelude::*;
use vstd::utf8::*;

verus! {

broadcast use vstd::utf8::group_utf8_lib;

/// What a message between miners is about; its position is the byte that opens a message.
#[derive(Copy, Clone, Debug, PartialEq, Eq, Structural)]
pub enum Flag {
    /// The reply to a `Connect`: the text is the sender's network.
    Okay,
    /// A miner joins the network.
    Connect,
    /// A miner leaves the network.
    Disconnect,
    /// A miner asks for an id.
    RequireID,
    /// The answer to `RequireID`: the text is the id.
    GiveID,
    /// A new miner is announced to the network.
    BroadcastConnect,
    /// A departure is announced to the network.
    BroadcastDisconnect,
}

impl Flag {
    /// The byte that stands for the flag in a message.
    pub open spec fn code(self) -> u8 {
        match self {
            Flag::Okay => 0,
            Flag::Connect => 1,
            Flag::Disconnect => 2,
            Flag::RequireID => 3,
            Flag::GiveID => 4,
            Flag::BroadcastConnect => 5,
            Flag::BroadcastDisconnect => 6,
        }
    }

    /// The flag that the byte `value` stands for (one of the first seven values).
    pub open spec fn of_code(value: u8) -> Flag {
        if value == 0 {
            Flag::Okay
        } else if value == 1 {
            Flag::Connect
        } else if value == 2 {
            Flag::Disconnect
        } else if value == 3 {
            Flag::RequireID
        } else if value == 4 {
            Flag::GiveID
        } else if value == 5 {
            Flag::BroadcastConnect
        } else {
            Flag::BroadcastDisconnect
        }
    }

    /// The flag of a byte; bytes beyond the last flag stand for no flag.
    pub fn from_u8(value: u8) -> (res: Flag)
        requires
            value <= 6,
        ensures
            res == Flag::of_code(value),
            res.code() == value,
    {
        match value {
            0 => Flag::Okay,
            1 => Flag::Connect,
            2 => Flag::Disconnect,
            3 => Flag::RequireID,
            4 => Flag::GiveID,
            5 => Flag::BroadcastConnect,
            _ => Flag::BroadcastDisconnect,
        }
    }

    /// The byte that stands for the flag.
    pub fn to_u8(&self) -> (res: u8)
        ensures
            res == self.code(),
    {
        match self {
            Flag::Okay => 0,
            Flag::Connect => 1,
            Flag::Disconnect => 2,
            Flag::RequireID => 3,
            Flag::GiveID => 4,
            Flag::BroadcastConnect => 5,
            Flag::BroadcastDisconnect => 6,
        }
    }
}

/// Reading a flag's byte gives the flag back, and every flag byte stands for a flag.
pub proof fn law_flag_code_roundtrip(f: Flag, v: u8)
    ensures
        Flag::of_code(f.code()) == f,
        v <= 6 ==> Flag::of_code(v).code() == v,
{
}

// ---------------------------------------------------------------------------
// Message frames
// ---------------------------------------------------------------------------

/// The width of the padded address field of a message.
pub open spec fn sockip_width() -> nat {
    21
}

/// The width of the padded id field of a message.
pub open spec fn id_width() -> nat {
    10
}

/// The bytes of a message: the flag byte, the address padded with `X` to 21 characters,
/// the id padded with `Y` to 10 characters, then the text, all in UTF-8.
pub open spec fn frame_bytes(code: u8, sockip: Seq<char>, id: Seq<char>, text: Seq<char>) -> Seq<
    u8,
> {
    seq![code] + encode_utf8(padded(sockip, 'X', sockip_width())) + encode_utf8(
        padded(id, 'Y', id_width()),
    ) + encode_utf8(text)
}

/// The bytes `first` followed by the bytes `second`.
pub fn concat_u8(first: &[u8], second: &[u8]) -> (res: Vec<u8>)
    ensures
        res@ == first@ + second@,
{
    let mut v: Vec<u8> = Vec::new();
    let mut i: usize = 0;
    while i < first.len()
        invariant
            i <= first.len(),
            v@ == first@.take(i as int),
        decreases first.len() - i,
    {
        v.push(first[i]);
        i += 1;
        assert(v@ =~= first@.take(i as int));
    }
    let mut j: usize = 0;
    while j < second.len()
        invariant
            i == first.len(),
            j <= second.len(),
            v@ == first@ + second@.take(j as int),
        decreases second.len() - j,
    {
        v.push(second[j]);
        j += 1;
        assert(v@ =~= first@ + second@.take(j as int));
    }
    assert(first@.take(i as int) =~= first@);
    assert(second@.take(j as int) =~= second@);
    v
}

/// The address padded with `X` to the width of its field.
pub fn encode_sockip(sockip: String) -> (res: String)
    ensures
        res@ == padded(sockip@, 'X', sockip_width()),
{
    pad_right(sockip, 'X', 21)
}

/// The address without its padding: every `X` taken out.
pub fn decode_sockip(sockip: String) -> (res: String)
    ensures
        res@ == without(sockip@, 'X'),
{
    remove_char(sockip.as_str(), 'X')
}

/// The id padded with `Y` to the width of its field.
pub fn encode_id(id: String) -> (res: String)
    ensures
        res@ == padded(id@, 'Y', id_width()),
{
    pad_right(id, 'Y', 10)
}

/// The id without its padding: every `Y` taken out.
pub fn decode_id(id: String) -> (res: String)
    ensures
        res@ == without(id@, 'Y'),
{
    remove_char(id.as_str(), 'Y')
}

/// The message with flag byte `code` (shared by the miner's and the wallet's flags).
pub(crate) fn frame(code: u8, sockip: String, id: String, msg: String) -> (res: Vec<u8>)
    ensures
        res@ == frame_bytes(code, sockip@, id@, msg@),
{
    let sockip_convert = encode_sockip(sockip);
    let id_convert = encode_id(id);
    let msg_convert: &[u8] = msg.as_str().as_bytes();
    let flag_convert: [u8; 1] = [code];
    let inner = concat_u8(id_convert.as_str().as_bytes(), msg_convert);
    let middle = concat_u8(sockip_convert.as_str().as_bytes(), inner.as_slice());
    let res = concat_u8(flag_convert.as_slice(), middle.as_slice());
    assert(flag_convert@ =~= seq![code]);
    assert(res@ =~= frame_bytes(code, sockip@, id@, msg@));
    res
}

/// The message that carries `msg` with `flag`, from the miner at `sockip` whose id is `id`.
pub fn encode_message(flag: &Flag, sockip: String, id: String, msg: String) -> (res: Vec<u8>)
    ensures
        res@ == frame_bytes(flag.code(), sockip@, id@, msg@),
{
    frame(flag.to_u8(), sockip, id, msg)
}

/// The address padding is undone by `decode_sockip` for any address without an `X`.
pub proof fn law_sockip_padding_roundtrip(sockip: Seq<char>)
    requires
        !sockip.contains('X'),
    ensures
        without(padded(sockip, 'X', sockip_width()), 'X') == sockip,
{
    lemma_unpad(sockip, 'X', sockip_width());
}

/// The id padding is undone by `decode_id` for any id without a `Y`.
pub proof fn law_id_padding_roundtrip(id: Seq<char>)
    requires
        !id.contains('Y'),
    ensures
        without(padded(id, 'Y', id_width()), 'Y') == id,
{
    lemma_unpad(id, 'Y', id_width());
}

/// Whether `m` can be read as a message: it holds at least the two fields and the flag
/// byte names a flag, and the address field (bytes 1 to 20), the id field (bytes 22 to 30)
/// and the text (from byte 32 on) are UTF-8.
pub open spec fn frame_decodable(m: Seq<u8>) -> bool {
    &&& m.len() >= 32
    &&& m[0] <= 6
    &&& valid_utf8(m.subrange(1, 21))
    &&& valid_utf8(m.subrange(22, 31))
    &&& valid_utf8(m.subrange(32, m.len() as int))
}

/// The sender's address read from a message: bytes 1 to 20, without `X`.
pub open spec fn decoded_sockip(m: Seq<u8>) -> Seq<char> {
    without(decode_utf8(m.subrange(1, 21)), 'X')
}

/// The sender's id read from a message: bytes 22 to 30, without `Y`.
pub open spec fn decoded_id(m: Seq<u8>) -> Seq<char> {
    without(decode_utf8(m.subrange(22, 31)), 'Y')
}

/// The text of a message: everything from byte 32 on.
pub open spec fn decoded_text(m: Seq<u8>) -> Seq<char> {
    decode_utf8(m.subrange(32, m.len() as int))
}

/// Reads a message: its flag, the sender's address and id, and its text.
pub fn decode_message(msg: &[u8]) -> (res: (Flag, String, String, String))
    requires
        frame_decodable(msg@),
    ensures
        res.0 == Flag::of_code(msg@[0]),
        res.1@ == decoded_sockip(msg@),
        res.2@ == decoded_id(msg@),
        res.3@ == decoded_text(msg@),
{
    let flag = Flag::from_u8(msg[0]);
    let sockip_encoded = str_from_utf8(&msg[1..21]).unwrap();
    let id_encoded = str_from_utf8(&msg[22..31]).unwrap();
    let text = str_from_utf8(&msg[32..msg.len()]).unwrap();
    assert(decode_utf8(encode_utf8(sockip_encoded@)) == sockip_encoded@);
    assert(decode_utf8(encode_utf8(id_encoded@)) == id_encoded@);
    assert(decode_utf8(encode_utf8(text@)) == text@);
    let sockip = decode_sockip(sockip_encoded.to_owned());
    assert(sockip@ == decoded_sockip(msg@));
    proof {
        lemma_without_idempotent(decode_utf8(msg@.subrange(1, 21)), 'X');
    }
    let sockip_twice = decode_sockip(sockip);
    assert(sockip_twice@ == decoded_sockip(msg@));
    (flag, sockip_twice, decode_id(id_encoded.to_owned()), text.to_owned())
}

/// Reads a message when it can be read: `None` exactly when it cannot.
pub fn try_decode_message(msg: &[u8]) -> (res: Option<(Flag, String, String, String)>)
    ensures
        res is Some <==> frame_decodable(msg@),
        res matches Some(r) ==> {
            &&& r.0 == Flag::of_code(msg@[0])
            &&& r.1@ == decoded_sockip(msg@)
            &&& r.2@ == decoded_id(msg@)
            &&& r.3@ == decoded_text(msg@)
        },
{
    if msg.len() < 32 || msg[0] > 6 {
        return None;
    }
    if str_from_utf8(&msg[1..21]).is_none() || str_from_utf8(&msg[22..31]).is_none()
        || str_from_utf8(&msg[32..msg.len()]).is_none() {
        return None;
    }
    Some(decode_message(msg))
}

/// Reading a message gives back what was sent, for an ASCII address of at most 20
/// characters without `X` and an ASCII id of at most 9 characters without `Y`, whatever the
/// text.
pub proof fn law_message_roundtrip(code: u8, sockip: Seq<char>, id: Seq<char>, text: Seq<char>)
    requires
        code <= 6,
        is_ascii_chars(sockip),
        sockip.len() <= 20,
        !sockip.contains('X'),
        is_ascii_chars(id),
        id.len() <= 9,
        !id.contains('Y'),
    ensures
        frame_decodable(frame_bytes(code, sockip, id, text)),
        frame_bytes(code, sockip, id, text)[0] == code,
        decoded_sockip(frame_bytes(code, sockip, id, text)) == sockip,
        decoded_id(frame_bytes(code, sockip, id, text)) == id,
        decoded_text(frame_bytes(code, sockip, id, text)) == text,
{
    let m = frame_bytes(code, sockip, id, text);
    let p = padded(sockip, 'X', sockip_width());
    let q = padded(id, 'Y', id_width());
    lemma_padded_ascii(sockip, 'X', sockip_width());
    lemma_padded_ascii(id, 'Y', id_width());
    lemma_ascii_encoding_prefix(p, 20);
    lemma_ascii_encoding_prefix(q, 9);
    let e = encode_utf8(p);
    let f = encode_utf8(q);
    let t = encode_utf8(text);
    assert(m =~= seq![code] + e + f + t);
    assert(m.subrange(1, 21) =~= e.subrange(0, 20));
    assert(m.subrange(22, 31) =~= f.subrange(0, 9));
    assert(m.subrange(32, m.len() as int) =~= t);
    assert(decode_utf8(encode_utf8(p.take(20))) == p.take(20));
    assert(decode_utf8(encode_utf8(q.take(9))) == q.take(9));
    // the first 20 characters of the address field are the address and part of its padding
    assert(p.take(20) =~= padded(sockip, 'X', 20));
    assert(q.take(9) =~= padded(id, 'Y', 9));
    lemma_unpad(sockip, 'X', 20);
    lemma_unpad(id, 'Y', 9);
}


/// The id carried by the first `size` bytes of `data`, a `GiveID` reply: the text from byte
/// 32 on, without `Y`, read as a number; absent when those bytes are not there, are not
/// UTF-8, or do not hold a number.
pub open spec fn reply_id(data: Seq<u8>, size: int) -> Option<u32> {
    if 32 <= size <= data.len() && valid_utf8(data.subrange(32, size)) {
        parsed_u32(without(decode_utf8(data.subrange(32, size)), 'Y'))
    } else {
        None
    }
}

/// The id carried by the reply to a `RequireID` (see `reply_id`).
pub fn id_from_reply(data: &[u8], size: usize) -> (res: Option<u32>)
    ensures
        res == reply_id(data@, size as int),
{
    if size < 32 || size > data.len() {
        return None;
    }
    match str_from_utf8(&data[32..size]) {
        None => None,
        Some(t) => {
            assert(decode_utf8(encode_utf8(t@)) == t@);
            let id_as_str_decoded = decode_id(t.to_owned());
            parse_u32(id_as_str_decoded.as_str())
        },
    }
}

/// The id that a `GiveID` reply carries as its text is the id read from it, whenever the
/// replying miner's address and id are ASCII and fit their fields.
pub proof fn law_given_id_roundtrip(code: u8, sockip: Seq<char>, id: Seq<char>, n: u32)
    requires
        is_ascii_chars(sockip),
        sockip.len() <= 21,
        is_ascii_chars(id),
        id.len() <= 10,
    ensures
        reply_id(
            frame_bytes(code, sockip, id, decimal(n as nat)),
            frame_bytes(code, sockip, id, decimal(n as nat)).len() as int,
        ) == Some(n),
{
    let text = decimal(n as nat);
    let m = frame_bytes(code, sockip, id, text);
    let p = padded(sockip, 'X', sockip_width());
    let q = padded(id, 'Y', id_width());
    lemma_padded_ascii(sockip, 'X', sockip_width());
    lemma_padded_ascii(id, 'Y', id_width());
    lemma_ascii_encoding_prefix(p, 0);
    lemma_ascii_encoding_prefix(q, 0);
    assert(m.subrange(32, m.len() as int) =~= encode_utf8(text));
    assert(decode_utf8(encode_utf8(text)) == text);
    lemma_decimal(n as nat);
    lemma_parse_decimal(n);
    assert(!text.contains('Y')) by {
        if text.contains('Y') {
            let k = choose|k: int| 0 <= k < text.len() && text[k] == 'Y';
            assert(is_digit(text[k]));
        }
    }
    lemma_without_absent(text, 'Y');
}

// ---------------------------------------------------------------------------
// Network texts
// ---------------------------------------------------------------------------

/// The text of a network: `id,address` for each member, separated by `;`.
pub fn hashset_to_string(set: &Vec<(u32, String)>) -> (res: String)
    ensures
        res@ == network_text(peers_of(set@)),
{
    let ghost texts = peers_of(set@).map_values(|e: PeerView| peer_text(e));
    let mut res = String::new();
    let mut i: usize = 0;
    assert(texts.take(0) =~= Seq::<Seq<char>>::empty());
    while i < set.len()
        invariant
            i <= set.len(),
            texts == peers_of(set@).map_values(|e: PeerView| peer_text(e)),
            res@ == joined(texts.take(i as int), ';'),
        decreases set.len() - i,
    {
        let ghost before = res@;
        if i > 0 {
            push_char(&mut res, ';');
        }
        let id_text = decimal_string(set[i].0);
        push_text(&mut res, id_text.as_str());
        push_char(&mut res, ',');
        push_text(&mut res, set[i].1.as_str());
        assert(texts[i as int] == peer_text((set@[i as int].0, set@[i as int].1@)));
        assert(texts.take(i + 1).drop_last() =~= texts.take(i as int));
        assert(texts.take(i + 1).last() == texts[i as int]);
        if i == 0 {
            assert(res@ =~= texts[0]);
        } else {
            assert(res@ =~= before.push(';') + texts[i as int]);
        }
        i += 1;
    }
    assert(texts.take(set.len() as int) =~= texts);
    res
}

/// A prefix of readable pieces is readable.
proof fn lemma_parsed_peers_prefix(ps: Seq<Seq<char>>, k: int)
    requires
        0 <= k <= ps.len(),
        parsed_peers(ps) is Some,
    ensures
        parsed_peers(ps.take(k)) is Some,
    decreases ps.len(),
{
    if k < ps.len() {
        assert(ps.drop_last().take(k) =~= ps.take(k));
        lemma_parsed_peers_prefix(ps.drop_last(), k);
    } else {
        assert(ps.take(k) =~= ps);
    }
}

/// The network that a text describes, each member once; `None` exactly when the text
/// does not describe one.
pub fn parse_network(text: &String) -> (res: Option<Vec<(u32, String)>>)
    ensures
        res is Some <==> parsed_network(text@) is Some,
        res matches Some(v) ==> peers_of(v@) == with_peers(
            Seq::empty(),
            parsed_network(text@).unwrap(),
        ),
{
    let cs = chars_of(text.as_str());
    let ps = split_on(&cs, ';');
    let ghost all = views(ps@);
    let mut out: Vec<(u32, String)> = Vec::new();
    let mut i: usize = 0;
    assert(all.take(0) =~= Seq::<Seq<char>>::empty());
    assert(peers_of(out@) =~= Seq::<PeerView>::empty());
    while i < ps.len()
        invariant
            i <= ps.len(),
            all == views(ps@),
            all == pieces(text@, ';'),
            parsed_peers(all.take(i as int)) is Some,
            peers_of(out@) == with_peers(Seq::empty(), parsed_peers(all.take(i as int)).unwrap()),
        decreases ps.len() - i,
    {
        assert(all[i as int] == ps@[i as int]@);
        assert(all.take(i + 1).drop_last() =~= all.take(i as int));
        assert(all.take(i + 1).last() == all[i as int]);
        match parse_peer(&ps[i]) {
            None => {
                proof {
                    if parsed_peers(all) is Some {
                        lemma_parsed_peers_prefix(all, i + 1);
                    }
                }
                return None;
            },
            Some(p) => {
                let ghost es = parsed_peers(all.take(i as int)).unwrap();
                let ghost pv = (p.0, p.1@);
                insert_peer(&mut out, p.0, p.1);
                assert(es.push(pv).drop_last() =~= es);
                assert(with_peers(Seq::empty(), es.push(pv)) == with_peer(
                    with_peers(Seq::empty(), es),
                    pv,
                ));
            },
        }
        i += 1;
    }
    assert(all.take(ps.len() as int) =~= all);
    Some(out)
}

/// The network that a text describes, each member once (the text must describe one).
pub fn hashset_from_string(hashset: String) -> (res: Vec<(u32, String)>)
    requires
        parsed_network(hashset@) is Some,
    ensures
        peers_of(res@) == with_peers(Seq::empty(), parsed_network(hashset@).unwrap()),
        peers_of(res@).no_duplicates(),
        peers_of(res@).to_set() == parsed_network(hashset@).unwrap().to_set(),
{
    let res = parse_network(&hashset).unwrap();
    proof {
        let es = parsed_network(hashset@).unwrap();
        lemma_with_peers(Seq::empty(), es);
        assert(Seq::<PeerView>::empty().to_set().union(es.to_set()) =~= es.to_set());
    }
    res
}

/// Reading the text of a network gives back the network's members, when it has some and
/// no address holds a `,` or a `;`.
pub proof fn law_network_text_roundtrip(n: Seq<PeerView>)
    requires
        n.len() > 0,
        n.no_duplicates(),
        forall|i: int| 0 <= i < n.len() ==> plain_address(#[trigger] n[i].1),
    ensures
        parsed_network(network_text(n)) == Some(n),
        with_peers(Seq::empty(), n).to_set() == n.to_set(),
{
    lemma_network_text_roundtrip(n);
    lemma_with_peers(Seq::empty(), n);
    assert(Seq::<PeerView>::empty().to_set().union(n.to_set()) =~= n.to_set());
}

// ---------------------------------------------------------------------------
// The miner
// ---------------------------------------------------------------------------

/// A miner: its id, the members of its network, and the address it listens on.
pub struct Miner {
    /// Our id.
    pub id: u32,
    /// The id and address of every member of the network, each pair once.
    pub network: Vec<(u32, String)>,
    /// The address (`ip:port`) the miner listens on.
    pub sockip: String,
}

/// The greatest of `own` and the ids of the members `n`.
pub open spec fn highest_id(own: u32, n: Seq<PeerView>) -> u32
    decreases n.len(),
{
    if n.len() == 0 {
        own
    } else {
        let m = highest_id(own, n.drop_last());
        if n.last().0 > m {
            n.last().0
        } else {
            m
        }
    }
}

/// The addresses of the members `n`, in order, but for those equal to `sender`.
pub open spec fn targets(n: Seq<PeerView>, sender: Seq<char>) -> Seq<Seq<char>>
    decreases n.len(),
{
    if n.len() == 0 {
        Seq::empty()
    } else {
        let r = targets(n.drop_last(), sender);
        if n.last().1 == sender {
            r
        } else {
            r.push(n.last().1)
        }
    }
}

/// The contents of each of the strings `v`.
pub open spec fn texts_of(v: Seq<String>) -> Seq<Seq<char>> {
    v.map_values(|s: String| s@)
}

impl Miner {
    /// The members of the network.
    pub open spec fn peers(&self) -> Seq<PeerView> {
        peers_of(self.network@)
    }

    /// No member is listed twice.
    pub open spec fn wf(&self) -> bool {
        self.peers().no_duplicates()
    }

    /// A miner with id `id` that listens on `socket` and knows no one yet.
    pub fn new(id: u32, socket: String) -> (res: Self)
        ensures
            res.id == id,
            res.sockip@ == socket@,
            res.peers() == Seq::<PeerView>::empty(),
            res.wf(),
    {
        let res = Miner { id: id, network: Vec::new(), sockip: socket };
        assert(res.peers() =~= Seq::<PeerView>::empty());
        res
    }

    /// Our id.
    pub fn get_id(&self) -> (res: u32)
        ensures
            res == self.id,
    {
        self.id
    }

    /// Adds the miner `peer_id` at `peer_addr` to the network; `true` when it was not a
    /// member yet, `false` when it was (and nothing changes).
    pub fn add_to_network(&mut self, peer_id: u32, peer_addr: String) -> (res: bool)
        requires
            old(self).wf(),
        ensures
            final(self).wf(),
            res == !old(self).peers().contains((peer_id, peer_addr@)),
            final(self).peers() == with_peer(old(self).peers(), (peer_id, peer_addr@)),
            final(self).peers().contains((peer_id, peer_addr@)),
            final(self).peers().to_set() == old(self).peers().to_set().insert(
                (peer_id, peer_addr@),
            ),
            final(self).id == old(self).id,
            final(self).sockip == old(self).sockip,
    {
        let ghost e = (peer_id, peer_addr@);
        let res = insert_peer(&mut self.network, peer_id, peer_addr);
        proof {
            lemma_with_peer(old(self).peers(), e);
        }
        res
    }

    /// Takes the miner `peer_id` at `peer_addr` out of the network; `true` when it was a
    /// member, `false` when it was not (and nothing changes).
    pub fn remove_from_network(&mut self, peer_id: u32, peer_addr: String) -> (res: bool)
        requires
            old(self).wf(),
        ensures
            final(self).wf(),
            res == old(self).peers().contains((peer_id, peer_addr@)),
            final(self).peers() == without(old(self).peers(), (peer_id, peer_addr@)),
            !final(self).peers().contains((peer_id, peer_addr@)),
            final(self).peers().to_set() == old(self).peers().to_set().remove(
                (peer_id, peer_addr@),
            ),
            !res ==> final(self).peers() == old(self).peers(),
            final(self).id == old(self).id,
            final(self).sockip == old(self).sockip,
    {
        let res = remove_peer(&mut self.network, peer_id, &peer_addr);
        proof {
            lemma_without_peer(old(self).peers(), (peer_id, peer_addr@));
            if !res {
                crate::text::lemma_without_absent(old(self).peers(), (peer_id, peer_addr@));
            }
        }
        res
    }

    /// The id to give a newcomer: one more than the greatest id known (ours and the
    /// members').
    pub fn retrieve_next_id(&self) -> (res: u32)
        requires
            highest_id(self.id, self.peers()) < u32::MAX,
        ensures
            res == highest_id(self.id, self.peers()) + 1,
    {
        let mut max_id = self.id;
        let mut i: usize = 0;
        assert(self.peers().take(0) =~= Seq::<PeerView>::empty());
        while i < self.network.len()
            invariant
                i <= self.network.len(),
                max_id == highest_id(self.id, self.peers().take(i as int)),
            decreases self.network.len() - i,
        {
            assert(self.peers().take(i + 1).drop_last() =~= self.peers().take(i as int));
            assert(self.peers()[i as int].0 == self.network@[i as int].0);
            if self.network[i].0 > max_id {
                max_id = self.network[i].0;
            }
            i += 1;
        }
        assert(self.peers().take(self.network.len() as int) =~= self.peers());
        max_id + 1
    }

    /// The addresses to pass a broadcast on to: every member's but `sender`'s, in network
    /// order.
    pub fn broadcast_targets(&self, sender: &String) -> (res: Vec<String>)
        ensures
            texts_of(res@) == targets(self.peers(), sender@),
    {
        let mut out: Vec<String> = Vec::new();
        let mut i: usize = 0;
        assert(self.peers().take(0) =~= Seq::<PeerView>::empty());
        assert(texts_of(out@) =~= Seq::<Seq<char>>::empty());
        while i < self.network.len()
            invariant
                i <= self.network.len(),
                texts_of(out@) == targets(self.peers().take(i as int), sender@),
            decreases self.network.len() - i,
        {
            let ghost before = texts_of(out@);
            assert(self.peers().take(i + 1).drop_last() =~= self.peers().take(i as int));
            assert(self.peers()[i as int].1 == self.network@[i as int].1@);
            if self.network[i].1 != *sender {
                out.push(self.network[i].1.clone());
                assert(texts_of(out@) =~= before.push(self.peers()[i as int].1));
            }
            i += 1;
        }
        assert(self.peers().take(self.network.len() as int) =~= self.peers());
        out
    }

    /// The bytes of a message from this miner: our address, our id and `message`.
    pub fn frame_message(&self, message: &String, flag: &Flag) -> (res: Vec<u8>)
        ensures
            res@ == frame_bytes(flag.code(), self.sockip@, decimal(self.id as nat), message@),
    {
        encode_message(flag, self.sockip.clone(), decimal_string(self.id), message.clone())
    }

    /// How the miner shows itself: `Miner[<id>]: \n Network:`.
    pub fn describe(&self) -> (res: String)
        ensures
            res@ == "Miner["@ + decimal(self.id as nat) + "]: \n Network:"@,
    {
        let mut s = String::new();
        push_text(&mut s, "Miner[");
        let id_text = decimal_string(self.id);
        push_text(&mut s, id_text.as_str());
        push_text(&mut s, "]: \n Network:");
        assert(s@ =~= "Miner["@ + decimal(self.id as nat) + "]: \n Network:"@);
        s
    }
}


// ---------------------------------------------------------------------------
// Reacting to a message
// ---------------------------------------------------------------------------

/// A message the miner is to send: to which address, what text, with what flag.
pub struct Outgoing {
    pub destination: String,
    pub message: String,
    pub flag: Flag,
}

/// An outgoing message as the specifications see it.
pub type OutgoingView = (Seq<char>, Seq<char>, Flag);

/// The outgoing messages `v` as the specifications see them.
pub open spec fn outgoing_views(v: Seq<Outgoing>) -> Seq<OutgoingView> {
    v.map_values(|o: Outgoing| (o.destination@, o.message@, o.flag))
}

/// Why a received message could not be handled to its end.
#[derive(Copy, Clone, Debug, PartialEq, Eq, Structural)]
pub enum HandleError {
    /// The bytes are not a message: too short, an unknown flag, fields that are not UTF-8,
    /// or a text that does not start with a one-byte character.
    Malformed,
    /// The sender's id is not a number.
    BadSenderId,
    /// The text of an `Okay` reply does not describe a network.
    BadNetwork,
    /// The text of a `BroadcastConnect` is not `address;id`.
    BadAnnouncement,
    /// Every id is taken: the next one would not fit in 32 bits.
    IdsExhausted,
}

/// What handling a message led to: the messages to send, in order, and, when the handling
/// stopped early, why (the messages are then those sent before it stopped).
pub struct Reaction {
    pub sends: Vec<Outgoing>,
    pub failure: Option<HandleError>,
}

/// A broadcast of `text` with `flag` to every member's address but `exclude`.
pub open spec fn fan_out(n: Seq<PeerView>, exclude: Seq<char>, text: Seq<char>, flag: Flag) -> Seq<
    OutgoingView,
> {
    targets(n, exclude).map_values(|a: Seq<char>| (a, text, flag))
}

/// Whether the text of a message can be cut after its first byte: it is not empty and its
/// first character is a single byte.
pub open spec fn text_cuttable(t: Seq<char>) -> bool {
    t.len() > 0 && (t[0] as u32) < 128
}

/// How a miner with id `own_id` listening on `own_addr`, whose network is `peers`, reacts
/// to the received bytes `data`: its network afterwards, the messages it sends, and why it
/// stopped early, if it did.
pub open spec fn reaction(own_id: u32, own_addr: Seq<char>, peers: Seq<PeerView>, data: Seq<u8>) -> (
    Seq<PeerView>,
    Seq<OutgoingView>,
    Option<HandleError>,
) {
    if !frame_decodable(data) || !text_cuttable(decoded_text(data)) {
        (peers, Seq::empty(), Some(HandleError::Malformed))
    } else {
        let sender = decoded_sockip(data);
        let text = decoded_text(data);
        let sender_id = parsed_u32(decoded_id(data));
        match Flag::of_code(data[0]) {
            Flag::Connect => {
                let reply = (sender, network_text(peers), Flag::Okay);
                match sender_id {
                    None => (peers, seq![reply], Some(HandleError::BadSenderId)),
                    Some(id) => (
                        with_peer(peers, (id, sender)),
                        seq![reply] + fan_out(
                            peers,
                            own_addr,
                            sender.push(';') + decimal(id as nat),
                            Flag::BroadcastConnect,
                        ),
                        None,
                    ),
                }
            },
            Flag::Disconnect => match sender_id {
                None => (peers, Seq::empty(), Some(HandleError::BadSenderId)),
                Some(id) => {
                    let rest = without(peers, (id, sender));
                    (rest, fan_out(rest, own_addr, text, Flag::BroadcastDisconnect), None)
                },
            },
            Flag::Okay => match parsed_network(text) {
                None => (peers, Seq::empty(), Some(HandleError::BadNetwork)),
                Some(es) => (with_peers(peers, es), Seq::empty(), None),
            },
            Flag::RequireID => {
                let top = highest_id(own_id, peers);
                if top == u32::MAX {
                    (peers, Seq::empty(), Some(HandleError::IdsExhausted))
                } else {
                    (peers, seq![(sender, decimal((top + 1) as nat), Flag::GiveID)], None)
                }
            },
            Flag::BroadcastConnect => {
                let ps = pieces(text, ';');
                if ps.len() < 2 {
                    (peers, Seq::empty(), Some(HandleError::BadAnnouncement))
                } else {
                    match parsed_u32(ps[1]) {
                        None => (peers, Seq::empty(), Some(HandleError::BadAnnouncement)),
                        Some(new_id) => {
                            let e = (new_id, ps[0]);
                            if peers.contains(e) {
                                (peers, Seq::empty(), None)
                            } else {
                                let grown = peers.push(e);
                                (
                                    grown,
                                    fan_out(grown, sender, text, Flag::BroadcastConnect),
                                    None,
                                )
                            }
                        },
                    }
                }
            },
            _ => (peers, Seq::empty(), None),
        }
    }
}

impl Miner {
    /// Appends to `sends` a broadcast of `message` with `flag` to every member's address
    /// but `sender`.
    fn push_broadcast(&self, sends: &mut Vec<Outgoing>, message: &String, flag: Flag, sender: &String)
        ensures
            outgoing_views(final(sends)@) == outgoing_views(old(sends)@) + fan_out(
                self.peers(),
                sender@,
                message@,
                flag,
            ),
    {
        let tg = self.broadcast_targets(sender);
        let ghost base = outgoing_views(sends@);
        let ghost all = fan_out(self.peers(), sender@, message@, flag);
        let mut i: usize = 0;
        assert(all.take(0) =~= Seq::<OutgoingView>::empty());
        assert(outgoing_views(sends@) =~= base + all.take(0));
        while i < tg.len()
            invariant
                i <= tg.len(),
                texts_of(tg@) == targets(self.peers(), sender@),
                all == fan_out(self.peers(), sender@, message@, flag),
                outgoing_views(sends@) == base + all.take(i as int),
            decreases tg.len() - i,
        {
            let ghost before = outgoing_views(sends@);
            sends.push(Outgoing { destination: tg[i].clone(), message: message.clone(), flag: flag });
            assert(all[i as int] == (tg@[i as int]@, message@, flag));
            assert(outgoing_views(sends@) =~= before.push(all[i as int]));
            assert(all.take(i + 1) =~= all.take(i as int).push(all[i as int]));
            i += 1;
        }
        assert(all.take(tg.len() as int) =~= all);
    }

    /// Reacts to the bytes of a received message: answers, passes announcements on, and
    /// updates the network, as `reaction` describes.
    pub fn handle_message(&mut self, data: &[u8]) -> (res: Reaction)
        requires
            old(self).wf(),
        ensures
            final(self).wf(),
            final(self).id == old(self).id,
            final(self).sockip == old(self).sockip,
            final(self).peers() == reaction(old(self).id, old(self).sockip@, old(self).peers(), data@).0,
            outgoing_views(res.sends@) == reaction(
                old(self).id,
                old(self).sockip@,
                old(self).peers(),
                data@,
            ).1,
            res.failure == reaction(old(self).id, old(self).sockip@, old(self).peers(), data@).2,
    {
        let mut sends: Vec<Outgoing> = Vec::new();
        assert(outgoing_views(sends@) =~= Seq::<OutgoingView>::empty());
        let (flag, sender_sockip, sender_id_as_str, message) = match try_decode_message(data) {
            None => {
                return Reaction { sends, failure: Some(HandleError::Malformed) };
            },
            Some(t) => t,
        };
        let text_chars = chars_of(message.as_str());
        if text_chars.len() == 0 || (text_chars[0] as u32) >= 128 {
            return Reaction { sends, failure: Some(HandleError::Malformed) };
        }
        let ghost peers0 = self.peers();
        match flag {
            Flag::Connect => {
                let network_text = hashset_to_string(&self.network);
                sends.push(
                    Outgoing {
                        destination: sender_sockip.clone(),
                        message: network_text,
                        flag: Flag::Okay,
                    },
                );
                match parse_u32(sender_id_as_str.as_str()) {
                    None => Reaction { sends, failure: Some(HandleError::BadSenderId) },
                    Some(sender_id) => {
                        let mut broadcast_message = sender_sockip.clone();
                        push_char(&mut broadcast_message, ';');
                        let id_text = decimal_string(sender_id);
                        push_text(&mut broadcast_message, id_text.as_str());
                        let own = self.sockip.clone();
                        self.push_broadcast(
                            &mut sends,
                            &broadcast_message,
                            Flag::BroadcastConnect,
                            &own,
                        );
                        self.add_to_network(sender_id, sender_sockip);
                        Reaction { sends, failure: None }
                    },
                }
            },
            Flag::Disconnect => {
                match parse_u32(sender_id_as_str.as_str()) {
                    None => Reaction { sends, failure: Some(HandleError::BadSenderId) },
                    Some(sender_id) => {
                        self.remove_from_network(sender_id, sender_sockip);
                        let own = self.sockip.clone();
                        self.push_broadcast(
                            &mut sends,
                            &message,
                            Flag::BroadcastDisconnect,
                            &own,
                        );
                        Reaction { sends, failure: None }
                    },
                }
            },
            Flag::Okay => {
                match parse_network(&message) {
                    None => Reaction { sends, failure: Some(HandleError::BadNetwork) },
                    Some(network) => {
                        let ghost es = parsed_network(message@).unwrap();
                        self.add_all(&network);
                        proof {
                            crate::network::lemma_with_peers_deduplicated(peers0, es);
                        }
                        Reaction { sends, failure: None }
                    },
                }
            },
            Flag::RequireID => {
                if self.highest_known_id() == u32::MAX {
                    Reaction { sends, failure: Some(HandleError::IdsExhausted) }
                } else {
                    let next_id = decimal_string(self.retrieve_next_id());
                    sends.push(
                        Outgoing { destination: sender_sockip, message: next_id, flag: Flag::GiveID },
                    );
                    Reaction { sends, failure: None }
                }
            },
            Flag::BroadcastConnect => {
                let splitted = split_on(&text_chars, ';');
                assert(views(splitted@).len() == splitted@.len());
                if splitted.len() < 2 {
                    return Reaction { sends, failure: Some(HandleError::BadAnnouncement) };
                }
                assert(views(splitted@)[0] == splitted@[0]@);
                assert(views(splitted@)[1] == splitted@[1]@);
                let new_sockip = crate::text::string_of(&splitted[0], 0, splitted[0].len());
                let new_id_as_str = crate::text::string_of(&splitted[1], 0, splitted[1].len());
                assert(splitted@[0]@.subrange(0, splitted@[0]@.len() as int) =~= splitted@[0]@);
                assert(splitted@[1]@.subrange(0, splitted@[1]@.len() as int) =~= splitted@[1]@);
                match parse_u32(new_id_as_str.as_str()) {
                    None => Reaction { sends, failure: Some(HandleError::BadAnnouncement) },
                    Some(new_id) => {
                        if self.add_to_network(new_id, new_sockip) {
                            self.push_broadcast(
                                &mut sends,
                                &message,
                                Flag::BroadcastConnect,
                                &sender_sockip,
                            );
                        }
                        Reaction { sends, failure: None }
                    },
                }
            },
            _ => Reaction { sends, failure: None },
        }
    }

    /// The greatest of our id and the members' ids.
    fn highest_known_id(&self) -> (res: u32)
        ensures
            res == highest_id(self.id, self.peers()),
    {
        let mut max_id = self.id;
        let mut i: usize = 0;
        assert(self.peers().take(0) =~= Seq::<PeerView>::empty());
        while i < self.network.len()
            invariant
                i <= self.network.len(),
                max_id == highest_id(self.id, self.peers().take(i as int)),
            decreases self.network.len() - i,
        {
            assert(self.peers().take(i + 1).drop_last() =~= self.peers().take(i as int));
            assert(self.peers()[i as int].0 == self.network@[i as int].0);
            if self.network[i].0 > max_id {
                max_id = self.network[i].0;
            }
            i += 1;
        }
        assert(self.peers().take(self.network.len() as int) =~= self.peers());
        max_id
    }

    /// Adds every member of `other` that is not a member yet (the union of the networks).
    fn add_all(&mut self, other: &Vec<(u32, String)>)
        requires
            old(self).wf(),
        ensures
            final(self).wf(),
            final(self).peers() == with_peers(old(self).peers(), peers_of(other@)),
            final(self).id == old(self).id,
            final(self).sockip == old(self).sockip,
    {
        let ghost es = peers_of(other@);
        let mut i: usize = 0;
        assert(es.take(0) =~= Seq::<PeerView>::empty());
        while i < other.len()
            invariant
                i <= other.len(),
                es == peers_of(other@),
                self.wf(),
                self.peers() == with_peers(old(self).peers(), es.take(i as int)),
                self.id == old(self).id,
                self.sockip == old(self).sockip,
            decreases other.len() - i,
        {
            assert(es.take(i + 1).drop_last() =~= es.take(i as int));
            assert(es[i as int] == (other@[i as int].0, other@[i as int].1@));
            self.add_to_network(other[i].0, other[i].1.clone());
            i += 1;
        }
        assert(es.take(other.len() as int) =~= es);
    }
}

/// Adding a newcomer and taking it out again gives back the network as it was.
pub proof fn law_add_then_remove_restores(n: Seq<PeerView>, e: PeerView)
    requires
        n.no_duplicates(),
        !n.contains(e),
    ensures
        with_peer(n, e) == n.push(e),
        without(with_peer(n, e), e) == n,
{
    lemma_without_absent(n, e);
    assert(n.push(e).drop_last() =~= n);
}

/// Taking a member out and adding it again gives back the same set of members.
pub proof fn law_remove_then_add_restores(n: Seq<PeerView>, e: PeerView)
    requires
        n.no_duplicates(),
        n.contains(e),
    ensures
        with_peer(without(n, e), e).to_set() == n.to_set(),
{
    lemma_without_peer(n, e);
    lemma_with_peer(without(n, e), e);
    assert(n.to_set().remove(e).insert(e) =~= n.to_set());
}

/// The id `retrieve_next_id` gives out is new: above our id and every member's id.
pub proof fn law_next_id_is_fresh(own: u32, n: Seq<PeerView>)
    ensures
        highest_id(own, n) >= own,
        forall|i: int| 0 <= i < n.len() ==> (#[trigger] n[i]).0 <= highest_id(own, n),
    decreases n.len(),
{
    if n.len() > 0 {
        law_next_id_is_fresh(own, n.drop_last());
        assert forall|i: int| 0 <= i < n.len() implies (#[trigger] n[i]).0 <= highest_id(own, n) by {
            if i < n.len() - 1 {
                assert(n.drop_last()[i] == n[i]);
            }
        }
    }
}

/// A broadcast is never passed back to the address it came from, and reaches every other
/// member's address.
pub proof fn law_broadcast_skips_sender(n: Seq<PeerView>, sender: Seq<char>)
    ensures
        !targets(n, sender).contains(sender),
        forall|i: int| 0 <= i < n.len() && (#[trigger] n[i]).1 != sender ==> targets(
            n,
            sender,
        ).contains(n[i].1),
        forall|j: int|
            0 <= j < targets(n, sender).len() ==> exists|i: int|
                0 <= i < n.len() && (#[trigger] n[i]).1 == #[trigger] targets(n, sender)[j],
    decreases n.len(),
{
    if n.len() > 0 {
        law_broadcast_skips_sender(n.drop_last(), sender);
        let r = targets(n.drop_last(), sender);
        assert forall|j: int| 0 <= j < targets(n, sender).len() implies exists|i: int|
            0 <= i < n.len() && (#[trigger] n[i]).1 == #[trigger] targets(n, sender)[j] by {
            if j < r.len() {
                assert(targets(n, sender)[j] == r[j]);
                let i = choose|i: int| 0 <= i < n.drop_last().len() && n.drop_last()[i].1 == r[j];
                assert(n[i] == n.drop_last()[i]);
            } else {
                assert(targets(n, sender)[j] == n.last().1);
                assert(n[n.len() - 1] == n.last());
            }
        }
        if n.last().1 != sender {
            assert(!r.push(n.last().1).contains(sender)) by {
                if r.push(n.last().1).contains(sender) {
                    let k = choose|k: int| 0 <= k < r.len() + 1 && r.push(n.last().1)[k] == sender;
                    if k < r.len() {
                        assert(r[k] == sender);
                    }
                }
            }
        }
        assert forall|i: int| 0 <= i < n.len() && (#[trigger] n[i]).1 != sender implies targets(
            n,
            sender,
        ).contains(n[i].1) by {
            if i < n.len() - 1 {
                assert(n.drop_last()[i] == n[i]);
                assert(r.contains(n[i].1));
                let k = choose|k: int| 0 <= k < r.len() && r[k] == n[i].1;
                if n.last().1 != sender {
                    assert(r.push(n.last().1)[k] == n[i].1);
                }
            } else {
                assert(n[i] == n.last());
                assert(r.push(n.last().1)[r.len() as int] == n[i].1);
            }
        }
    }
}

// ---------------------------------------------------------------------------
// What each kind of message does
// ---------------------------------------------------------------------------

/// The addresses that the outgoing messages `s` go to, in order.
pub open spec fn destinations(s: Seq<OutgoingView>) -> Seq<Seq<char>> {
    s.map_values(|o: OutgoingView| o.0)
}

/// A broadcast goes, in order, to the addresses that `targets` picks, each with the same
/// text and flag.
proof fn lemma_fan_out(n: Seq<PeerView>, exclude: Seq<char>, text: Seq<char>, flag: Flag)
    ensures
        destinations(fan_out(n, exclude, text, flag)) == targets(n, exclude),
        forall|i: int|
            0 <= i < fan_out(n, exclude, text, flag).len() ==> (#[trigger] fan_out(
                n,
                exclude,
                text,
                flag,
            )[i]).1 == text && fan_out(n, exclude, text, flag)[i].2 == flag,
{
    assert(destinations(fan_out(n, exclude, text, flag)) =~= targets(n, exclude));
}

/// An `Okay` reply whose text is a network merges that network into the miner's: every
/// old member stays, every received member is added, nothing else, no member twice;
/// nothing is sent.
pub proof fn law_okay_merges_network(
    own_id: u32,
    own_addr: Seq<char>,
    peers: Seq<PeerView>,
    data: Seq<u8>,
)
    requires
        peers.no_duplicates(),
        frame_decodable(data),
        text_cuttable(decoded_text(data)),
        data[0] == Flag::Okay.code(),
        parsed_network(decoded_text(data)) is Some,
    ensures
        ({
            let r = reaction(own_id, own_addr, peers, data);
            let received = parsed_network(decoded_text(data)).unwrap();
            &&& r.0.no_duplicates()
            &&& r.0.to_set() == peers.to_set().union(received.to_set())
            &&& forall|x: PeerView| peers.contains(x) ==> #[trigger] r.0.contains(x)
            &&& forall|x: PeerView| received.contains(x) ==> #[trigger] r.0.contains(x)
            &&& r.1 == Seq::<OutgoingView>::empty()
            &&& r.2 == None::<HandleError>
        }),
{
    let received = parsed_network(decoded_text(data)).unwrap();
    assert(Flag::of_code(data[0]) == Flag::Okay);
    lemma_with_peers(peers, received);
    let merged = with_peers(peers, received);
    assert forall|x: PeerView| peers.contains(x) implies #[trigger] merged.contains(x) by {
        assert(merged.to_set().contains(x));
    }
    assert forall|x: PeerView| received.contains(x) implies #[trigger] merged.contains(x) by {
        assert(merged.to_set().contains(x));
    }
}

/// A `Connect` whose id is a number is answered with the network's text, announced as
/// `address;id` to the address of every member but the miner's own (each one message, in
/// network order, and to no other address), and the newcomer becomes a member.
pub proof fn law_connect_announces_newcomer(
    own_id: u32,
    own_addr: Seq<char>,
    peers: Seq<PeerView>,
    data: Seq<u8>,
)
    requires
        peers.no_duplicates(),
        frame_decodable(data),
        text_cuttable(decoded_text(data)),
        data[0] == Flag::Connect.code(),
        parsed_u32(decoded_id(data)) is Some,
    ensures
        ({
            let r = reaction(own_id, own_addr, peers, data);
            let sender = decoded_sockip(data);
            let id = parsed_u32(decoded_id(data)).unwrap();
            let announced = destinations(r.1.drop_first());
            &&& r.2 == None::<HandleError>
            &&& r.1.len() >= 1
            &&& r.1[0] == (sender, network_text(peers), Flag::Okay)
            &&& announced == targets(peers, own_addr)
            &&& !announced.contains(own_addr)
            &&& forall|i: int|
                0 <= i < peers.len() && (#[trigger] peers[i]).1 != own_addr ==> announced.contains(
                    peers[i].1,
                )
            &&& forall|i: int|
                1 <= i < r.1.len() ==> (#[trigger] r.1[i]).1 == sender.push(';') + decimal(
                    id as nat,
                ) && r.1[i].2 == Flag::BroadcastConnect
            &&& r.0.no_duplicates()
            &&& r.0.contains((id, sender))
            &&& r.0.to_set() == peers.to_set().insert((id, sender))
        }),
{
    let r = reaction(own_id, own_addr, peers, data);
    let sender = decoded_sockip(data);
    let id = parsed_u32(decoded_id(data)).unwrap();
    let msg = sender.push(';') + decimal(id as nat);
    assert(Flag::of_code(data[0]) == Flag::Connect);
    let f = fan_out(peers, own_addr, msg, Flag::BroadcastConnect);
    assert(r.1 == seq![(sender, network_text(peers), Flag::Okay)] + f);
    assert(r.1.drop_first() =~= f);
    lemma_fan_out(peers, own_addr, msg, Flag::BroadcastConnect);
    law_broadcast_skips_sender(peers, own_addr);
    assert forall|i: int| 1 <= i < r.1.len() implies (#[trigger] r.1[i]).1 == msg && r.1[i].2
        == Flag::BroadcastConnect by {
        assert(r.1[i] == f[i - 1]);
    }
    lemma_with_peer(peers, (id, sender));
}

/// A `Disconnect` whose id is a number takes exactly that member out (wherever it stands
/// in the network) and passes the text on as `BroadcastDisconnect` to the address of every
/// remaining member but the miner's own, each once.
pub proof fn law_disconnect_removes_leaver(
    own_id: u32,
    own_addr: Seq<char>,
    peers: Seq<PeerView>,
    data: Seq<u8>,
)
    requires
        peers.no_duplicates(),
        frame_decodable(data),
        text_cuttable(decoded_text(data)),
        data[0] == Flag::Disconnect.code(),
        parsed_u32(decoded_id(data)) is Some,
    ensures
        ({
            let r = reaction(own_id, own_addr, peers, data);
            let leaver = (parsed_u32(decoded_id(data)).unwrap(), decoded_sockip(data));
            &&& r.2 == None::<HandleError>
            &&& !r.0.contains(leaver)
            &&& r.0.to_set() == peers.to_set().remove(leaver)
            &&& r.0.no_duplicates()
            &&& forall|x: PeerView| x != leaver ==> (peers.contains(x) <==> #[trigger] r.0.contains(x))
            &&& destinations(r.1) == targets(r.0, own_addr)
            &&& !destinations(r.1).contains(own_addr)
            &&& forall|i: int|
                0 <= i < r.0.len() && (#[trigger] r.0[i]).1 != own_addr ==> destinations(
                    r.1,
                ).contains(r.0[i].1)
            &&& forall|i: int|
                0 <= i < r.1.len() ==> (#[trigger] r.1[i]).1 == decoded_text(data) && r.1[i].2
                    == Flag::BroadcastDisconnect
        }),
{
    let leaver = (parsed_u32(decoded_id(data)).unwrap(), decoded_sockip(data));
    assert(Flag::of_code(data[0]) == Flag::Disconnect);
    let rest = without(peers, leaver);
    lemma_without_peer(peers, leaver);
    lemma_fan_out(rest, own_addr, decoded_text(data), Flag::BroadcastDisconnect);
    law_broadcast_skips_sender(rest, own_addr);
}

/// A `BroadcastConnect` announcing `address;id` makes that pair a member; when it was not
/// one yet, the announcement is passed on to the address of every member of the grown
/// network but the sender's (the newcomer included), each once; when it was, nothing is
/// sent and the network stays as it is.
pub proof fn law_broadcast_connect_relays(
    own_id: u32,
    own_addr: Seq<char>,
    peers: Seq<PeerView>,
    data: Seq<u8>,
)
    requires
        peers.no_duplicates(),
        frame_decodable(data),
        text_cuttable(decoded_text(data)),
        data[0] == Flag::BroadcastConnect.code(),
        pieces(decoded_text(data), ';').len() >= 2,
        parsed_u32(pieces(decoded_text(data), ';')[1]) is Some,
    ensures
        ({
            let r = reaction(own_id, own_addr, peers, data);
            let sender = decoded_sockip(data);
            let ps = pieces(decoded_text(data), ';');
            let e = (parsed_u32(ps[1]).unwrap(), ps[0]);
            &&& r.2 == None::<HandleError>
            &&& r.0.no_duplicates()
            &&& r.0.contains(e)
            &&& r.0.to_set() == peers.to_set().insert(e)
            &&& peers.contains(e) ==> r.0 == peers && r.1 == Seq::<OutgoingView>::empty()
            &&& !peers.contains(e) ==> {
                &&& destinations(r.1) == targets(r.0, sender)
                &&& !destinations(r.1).contains(sender)
                &&& (e.1 != sender ==> destinations(r.1).contains(e.1))
                &&& forall|i: int|
                    0 <= i < r.0.len() && (#[trigger] r.0[i]).1 != sender ==> destinations(
                        r.1,
                    ).contains(r.0[i].1)
                &&& forall|i: int|
                    0 <= i < r.1.len() ==> (#[trigger] r.1[i]).1 == decoded_text(data) && r.1[i].2
                        == Flag::BroadcastConnect
            }
        }),
{
    let sender = decoded_sockip(data);
    let ps = pieces(decoded_text(data), ';');
    let e = (parsed_u32(ps[1]).unwrap(), ps[0]);
    assert(Flag::of_code(data[0]) == Flag::BroadcastConnect);
    lemma_with_peer(peers, e);
    if !peers.contains(e) {
        let grown = peers.push(e);
        lemma_fan_out(grown, sender, decoded_text(data), Flag::BroadcastConnect);
        law_broadcast_skips_sender(grown, sender);
        assert(grown[peers.len() as int] == e);
    }
}

/// A `RequireID` is answered, whatever its text, with one `GiveID` to the sender carrying
/// an id above the miner's and every member's (one more than the greatest of them), as
/// long as that id fits; the network does not change.
pub proof fn law_require_id_answers(
    own_id: u32,
    own_addr: Seq<char>,
    peers: Seq<PeerView>,
    data: Seq<u8>,
)
    requires
        frame_decodable(data),
        text_cuttable(decoded_text(data)),
        data[0] == Flag::RequireID.code(),
        highest_id(own_id, peers) < u32::MAX,
    ensures
        ({
            let r = reaction(own_id, own_addr, peers, data);
            let next = (highest_id(own_id, peers) + 1) as u32;
            &&& r.2 == None::<HandleError>
            &&& r.0 == peers
            &&& r.1 == seq![(decoded_sockip(data), decimal(next as nat), Flag::GiveID)]
            &&& next > own_id
            &&& forall|i: int| 0 <= i < peers.len() ==> (#[trigger] peers[i]).0 < next
            &&& (next - 1 == own_id || exists|i: int|
                0 <= i < peers.len() && (#[trigger] peers[i]).0 == next - 1)
        }),
{
    assert(Flag::of_code(data[0]) == Flag::RequireID);
    law_next_id_is_fresh(own_id, peers);
    lemma_highest_id_is_known(own_id, peers);
}

/// The greatest known id is ours or a member's.
proof fn lemma_highest_id_is_known(own: u32, n: Seq<PeerView>)
    ensures
        highest_id(own, n) == own || exists|i: int| 0 <= i < n.len() && (#[trigger] n[i]).0
            == highest_id(own, n),
    decreases n.len(),
{
    if n.len() > 0 {
        lemma_highest_id_is_known(own, n.drop_last());
        if highest_id(own, n) != own {
            if n.last().0 > highest_id(own, n.drop_last()) {
                assert(n[n.len() - 1].0 == highest_id(own, n));
            } else {
                let i = choose|i: int|
                    0 <= i < n.drop_last().len() && (#[trigger] n.drop_last()[i]).0 == highest_id(
                        own,
                        n.drop_last(),
                    );
                assert(n[i] == n.drop_last()[i]);
            }
        }
    }
}

/// A message that cannot be read is refused as `Malformed` and nothing else is; whenever
/// handling stops early the network is left as it was, and the only message sent before is
/// the reply to a `Connect`.
pub proof fn law_failure_changes_nothing(
    own_id: u32,
    own_addr: Seq<char>,
    peers: Seq<PeerView>,
    data: Seq<u8>,
)
    ensures
        ({
            let r = reaction(own_id, own_addr, peers, data);
            &&& (r.2 == Some(HandleError::Malformed) <==> !(frame_decodable(data)
                && text_cuttable(decoded_text(data))))
            &&& r.2 is Some ==> r.0 == peers
            &&& r.2 is Some ==> r.1.len() <= 1
            &&& (r.2 is Some && r.1.len() == 1) ==> data[0] == Flag::Connect.code() && r.1[0] == (
                decoded_sockip(data),
                network_text(peers),
                Flag::Okay,
            )
        }),
{
    if frame_decodable(data) && text_cuttable(decoded_text(data)) {
        let v = data[0];
        assert(Flag::of_code(v).code() == v);
    }
}

/// `GiveID` and `BroadcastDisconnect` messages are read and let be: nothing changes and
/// nothing is sent.
pub proof fn law_other_flags_ignored(
    own_id: u32,
    own_addr: Seq<char>,
    peers: Seq<PeerView>,
    data: Seq<u8>,
)
    requires
        frame_decodable(data),
        text_cuttable(decoded_text(data)),
        data[0] == Flag::GiveID.code() || data[0] == Flag::BroadcastDisconnect.code(),
    ensures
        reaction(own_id, own_addr, peers, data) == (
            peers,
            Seq::<OutgoingView>::empty(),
            None::<HandleError>,
        ),
{
}

} // verus!
