pub use crate::miner::{concat_u8, decode_id, decode_sockip, encode_id, encode_sockip};
use crate::miner::{frame, frame_bytes};
use crate::text::{decimal, decimal_string, push_text};
use vstd::prelude::*;

verus! {

/// What a message from a wallet is about; its position is the byte that opens a message.
/// The same as the miner's flags, with one more: a wallet asking its miner for an id.
#[derive(Copy, Clone, Debug, PartialEq, Eq, Structural)]
pub enum Flag {
    /// The reply to a `Connect`: the text is the sender's network.
    Okay,
    /// A node joins the network.
    Connect,
    /// A node leaves the network.
    Disconnect,
    /// A node asks for an id.
    RequireID,
    /// The answer to `RequireID`: the text is the id.
    GiveID,
    /// A new node is announced to the network.
    BroadcastConnect,
    /// A departure is announced to the network.
    BroadcastDisconnect,
    /// A wallet asks its miner for an id.
    RequireWalletID,
}

impl Flag {
    /// The byte that stands for the flag in a message.
    pub open spec fn code(self) -> u8 {
        match self {
            Flag::Okay => 0,
            Flag::Connect => 1,
            Flag::Disconnect => 2,
            Flag::RequireID => 3,
            Flag::GiveID => 4,
            Flag::BroadcastConnect => 5,
            Flag::BroadcastDisconnect => 6,
            Flag::RequireWalletID => 7,
        }
    }

    /// The flag that the byte `value` stands for (one of the first eight values).
    pub open spec fn of_code(value: u8) -> Flag {
        if value == 0 {
            Flag::Okay
        } else if value == 1 {
            Flag::Connect
        } else if value == 2 {
            Flag::Disconnect
        } else if value == 3 {
            Flag::RequireID
        } else if value == 4 {
            Flag::GiveID
        } else if value == 5 {
            Flag::BroadcastConnect
        } else if value == 6 {
            Flag::BroadcastDisconnect
        } else {
            Flag::RequireWalletID
        }
    }

    /// The flag of a byte; bytes beyond the last flag stand for no flag.
    pub fn from_u8(value: u8) -> (res: Flag)
        requires
            value <= 7,
        ensures
            res == Flag::of_code(value),
            res.code() == value,
    {
        match value {
            0 => Flag::Okay,
            1 => Flag::Connect,
            2 => Flag::Disconnect,
            3 => Flag::RequireID,
            4 => Flag::GiveID,
            5 => Flag::BroadcastConnect,
            6 => Flag::BroadcastDisconnect,
            _ => Flag::RequireWalletID,
        }
    }

    /// The byte that stands for the flag.
    pub fn to_u8(&self) -> (res: u8)
        ensures
            res == self.code(),
    {
        match self {
            Flag::Okay => 0,
            Flag::Connect => 1,
            Flag::Disconnect => 2,
            Flag::RequireID => 3,
            Flag::GiveID => 4,
            Flag::BroadcastConnect => 5,
            Flag::BroadcastDisconnect => 6,
            Flag::RequireWalletID => 7,
        }
    }
}

/// Reading a flag's byte gives the flag back, and every flag byte stands for a flag.
pub proof fn law_wallet_flag_code_roundtrip(f: Flag, v: u8)
    ensures
        Flag::of_code(f.code()) == f,
        v <= 7 ==> Flag::of_code(v).code() == v,
{
}

/// A wallet: its id, the address of the miner it is tied to, and its own address.
pub struct Wallet {
    /// Our id.
    pub id: u32,
    /// The address of the miner the wallet is tied to.
    pub miner: String,
    /// The address the wallet listens on.
    pub socket: String,
}

/// The message that carries `msg` with `flag`, from the node at `sockip` whose id is `id`.
pub fn encode_message(flag: Flag, sockip: String, id: String, msg: String) -> (res: Vec<u8>)
    ensures
        res@ == frame_bytes(flag.code(), sockip@, id@, msg@),
{
    frame(flag.to_u8(), sockip, id, msg)
}

impl Wallet {
    /// A wallet with id `id` listening on `socket`, tied to the miner at `miner`.
    pub fn new(socket: String, miner: String, id: u32) -> (res: Self)
        ensures
            res.socket@ == socket@,
            res.miner@ == miner@,
            res.id == id,
    {
        Wallet { socket: socket, miner: miner, id: id }
    }

    /// The bytes of a message from this wallet: our address, our id and `message`.
    pub fn frame_message(&self, message: &String, flag: Flag) -> (res: Vec<u8>)
        ensures
            res@ == frame_bytes(flag.code(), self.socket@, decimal(self.id as nat), message@),
    {
        encode_message(flag, self.socket.clone(), decimal_string(self.id), message.clone())
    }

    /// How the wallet shows itself: `Wallet[<id>]`.
    pub fn describe(&self) -> (res: String)
        ensures
            res@ == "Wallet["@ + decimal(self.id as nat) + "]"@,
    {
        let mut s = String::new();
        push_text(&mut s, "Wallet[");
        let id_text = decimal_string(self.id);
        push_text(&mut s, id_text.as_str());
        push_text(&mut s, "]");
        assert(s@ =~= "Wallet["@ + decimal(self.id as nat) + "]"@);
        s
    }
}

} // verus!
