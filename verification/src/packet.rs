//! The four-byte messages exchanged with the Windows sensor server: a
//! command code or a number, in the byte order of the machine (little-endian
//! on every Windows target).
use vstd::prelude::*;

verus! {

/// A message: four bytes.
pub struct Packet(pub [u8; 4]);

/// What the server is asked to do.
#[derive(Clone, Copy, PartialEq, Eq, Structural, Debug)]
pub enum Command {
    GetHardware,
    SetAuto,
    SetValue,
    GetValue,
    Shutdown,
    Update,
}

/// A number sent or received.
pub struct I32(pub i32);

/// The code of a command.
pub open spec fn command_code(c: Command) -> i32 {
    match c {
        Command::GetHardware => 0,
        Command::SetAuto => 1,
        Command::SetValue => 2,
        Command::GetValue => 3,
        Command::Shutdown => 4,
        Command::Update => 5,
    }
}

/// The unsigned number that four bytes write, least significant first.
pub open spec fn le_unsigned(b: Seq<u8>) -> int {
    b[0] + 256 * b[1] + 65536 * b[2] + 16777216 * b[3]
}

/// The `i32` that four bytes write in two's complement, least significant first.
pub open spec fn le_signed(b: Seq<u8>) -> int {
    let u = le_unsigned(b);
    if u >= 0x8000_0000 {
        u - 0x1_0000_0000
    } else {
        u
    }
}

impl Command {
    /// The code of the command.
    pub fn code(&self) -> (r: i32)
        ensures
            r == command_code(*self),
    {
        match self {
            Command::GetHardware => 0,
            Command::SetAuto => 1,
            Command::SetValue => 2,
            Command::GetValue => 3,
            Command::Shutdown => 4,
            Command::Update => 5,
        }
    }
}

impl Packet {
    /// The bytes of a number, least significant first.
    pub fn from_i32(number: I32) -> (r: Packet)
        ensures
            le_signed(r.0@) == number.0,
    {
        let x = number.0;
        let u: u64 = if x < 0 {
            (x as i64 + 0x1_0000_0000) as u64
        } else {
            x as u64
        };
        let b0 = (u % 256) as u8;
        let b1 = (u / 256 % 256) as u8;
        let b2 = (u / 65536 % 256) as u8;
        let b3 = (u / 16777216 % 256) as u8;
        let r = Packet([b0, b1, b2, b3]);
        proof {
            assert(r.0@ =~= seq![b0, b1, b2, b3]);
            assert(u < 0x1_0000_0000);
            assert(u == b0 + 256 * b1 + 65536 * b2 + 16777216 * b3) by (nonlinear_arith)
                requires
                    u < 0x1_0000_0000,
                    b0 == u % 256,
                    b1 == u / 256 % 256,
                    b2 == u / 65536 % 256,
                    b3 == u / 16777216 % 256,
            ;
        }
        r
    }

    /// The bytes of the code of a command.
    pub fn from_command(command: Command) -> (r: Packet)
        ensures
            le_signed(r.0@) == command_code(command),
    {
        Packet::from_i32(I32(command.code()))
    }
}

impl I32 {
    /// The number that a message writes.
    pub fn from_packet(packet: Packet) -> (r: I32)
        ensures
            r.0 == le_signed(packet.0@),
    {
        let b = packet.0;
        let u: u64 = b[0] as u64 + 256 * (b[1] as u64) + 65536 * (b[2] as u64) + 16777216 * (b[3] as u64);
        proof {
            assert(b@[0] == b[0] && b@[1] == b[1] && b@[2] == b[2] && b@[3] == b[3]);
        }
        if u >= 0x8000_0000 {
            I32((u as i64 - 0x1_0000_0000) as i32)
        } else {
            I32(u as i32)
        }
    }

    /// A count as a number; it must fit an `i32`.
    pub fn from_usize(value: usize) -> (r: I32)
        requires
            value <= i32::MAX,
        ensures
            r.0 == value,
    {
        I32(value as i32)
    }
}

/// A message is the only one that writes its number: reading a message
/// back from the number that it writes gives the same bytes.
pub proof fn lemma_message_determined(a: Seq<u8>, b: Seq<u8>)
    requires
        a.len() == 4,
        b.len() == 4,
        le_signed(a) == le_signed(b),
    ensures
        a == b,
{
    let (a0, a1, a2, a3) = (a[0] as int, a[1] as int, a[2] as int, a[3] as int);
    let (b0, b1, b2, b3) = (b[0] as int, b[1] as int, b[2] as int, b[3] as int);
    assert(le_unsigned(a) == le_unsigned(b));
    assert(a0 == b0 && a1 == b1 && a2 == b2 && a3 == b3) by (nonlinear_arith)
        requires
            0 <= a0 < 256,
            0 <= a1 < 256,
            0 <= a2 < 256,
            0 <= a3 < 256,
            0 <= b0 < 256,
            0 <= b1 < 256,
            0 <= b2 < 256,
            0 <= b3 < 256,
            a0 + 256 * a1 + 65536 * a2 + 16777216 * a3 == b0 + 256 * b1 + 65536 * b2 + 16777216 * b3,
    ;
    assert(a =~= b);
}

} // verus!
