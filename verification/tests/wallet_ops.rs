use miner_net::wallet::{
    concat_u8, decode_id, decode_sockip, encode_id, encode_message, encode_sockip, Flag, Wallet,
};

#[test]
fn wallet_flags_have_their_bytes() {
    let all = [
        Flag::Okay,
        Flag::Connect,
        Flag::Disconnect,
        Flag::RequireID,
        Flag::GiveID,
        Flag::BroadcastConnect,
        Flag::BroadcastDisconnect,
        Flag::RequireWalletID,
    ];
    for (i, f) in all.iter().enumerate() {
        assert_eq!(f.to_u8() as usize, i);
        assert_eq!(Flag::from_u8(i as u8), *f);
    }
}

#[test]
fn wallet_message_is_framed_like_a_miners() {
    let m = encode_message(
        Flag::RequireWalletID,
        String::from("127.0.0.1:7000"),
        String::from("12"),
        String::from("hi"),
    );
    let mut expected = vec![7u8];
    expected.extend_from_slice(b"127.0.0.1:7000XXXXXXX");
    expected.extend_from_slice(b"12YYYYYYYY");
    expected.extend_from_slice(b"hi");
    assert_eq!(m, expected);
}

#[test]
fn wallet_shares_the_padding_helpers() {
    assert_eq!(encode_sockip(String::from("a")), "aXXXXXXXXXXXXXXXXXXXX");
    assert_eq!(decode_sockip(String::from("aXXXXXXXXXXXXXXXXXXXX")), "a");
    assert_eq!(encode_id(String::from("3")), "3YYYYYYYYY");
    assert_eq!(decode_id(String::from("3YYYYYYYYY")), "3");
    assert_eq!(concat_u8(&[1, 2], &[3]), vec![1, 2, 3]);
}

#[test]
fn wallet_new_keeps_its_fields() {
    let w = Wallet::new(String::from("127.0.0.1:7000"), String::from("127.0.0.1:8000"), 4);
    assert_eq!(w.socket, "127.0.0.1:7000");
    assert_eq!(w.miner, "127.0.0.1:8000");
    assert_eq!(w.id, 4);
    assert_eq!(w.describe(), "Wallet[4]");
}

#[test]
fn wallet_frames_its_own_messages() {
    let w = Wallet::new(String::from("127.0.0.1:7000"), String::from("127.0.0.1:8000"), 4);
    let m = w.frame_message(&String::from("x"), Flag::GiveID);
    assert_eq!(
        m,
        encode_message(
            Flag::GiveID,
            String::from("127.0.0.1:7000"),
            String::from("4"),
            String::from("x")
        )
    );
}
