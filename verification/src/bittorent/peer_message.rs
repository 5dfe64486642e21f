//! Messages of the peer wire protocol: a 4-byte big-endian length, then the
//! message id and its payload.
use vstd::prelude::*;
use crate::text::push_bytes;

verus! {

/// The kind of a peer message.
#[derive(Debug, PartialEq, Eq, Structural, Clone, Copy)]
pub enum MessageId {
    Choke,
    Unchoke,
    Interested,
    NotInterested,
    Have,
    Bitfield,
    Request,
    Piece,
    Cancel,
    Extension,
}

/// Why bytes are not a peer message.
#[derive(Debug, PartialEq, Eq, Structural, Clone, Copy)]
pub enum MessageError {
    /// The length prefix is 0.
    ZeroLength,
    /// The bytes end before the message does.
    UnexpectedEnd,
    /// No message has this id.
    InvalidId(u8),
}

/// A peer message.
pub struct Message {
    pub id: MessageId,
    pub payload: Vec<u8>,
}

impl MessageId {
    /// The byte that stands for this id on the wire.
    pub open spec fn code(self) -> u8 {
        match self {
            MessageId::Choke => 0,
            MessageId::Unchoke => 1,
            MessageId::Interested => 2,
            MessageId::NotInterested => 3,
            MessageId::Have => 4,
            MessageId::Bitfield => 5,
            MessageId::Request => 6,
            MessageId::Piece => 7,
            MessageId::Cancel => 8,
            MessageId::Extension => 20,
        }
    }

    /// The id that a byte stands for.
    pub open spec fn of_code(b: u8) -> Option<MessageId> {
        if b == 0 {
            Some(MessageId::Choke)
        } else if b == 1 {
            Some(MessageId::Unchoke)
        } else if b == 2 {
            Some(MessageId::Interested)
        } else if b == 3 {
            Some(MessageId::NotInterested)
        } else if b == 4 {
            Some(MessageId::Have)
        } else if b == 5 {
            Some(MessageId::Bitfield)
        } else if b == 6 {
            Some(MessageId::Request)
        } else if b == 7 {
            Some(MessageId::Piece)
        } else if b == 8 {
            Some(MessageId::Cancel)
        } else if b == 20 {
            Some(MessageId::Extension)
        } else {
            None
        }
    }

    /// The byte that stands for this id on the wire.
    pub fn as_byte(self) -> (b: u8)
        ensures
            b == self.code(),
    {
        match self {
            MessageId::Choke => 0,
            MessageId::Unchoke => 1,
            MessageId::Interested => 2,
            MessageId::NotInterested => 3,
            MessageId::Have => 4,
            MessageId::Bitfield => 5,
            MessageId::Request => 6,
            MessageId::Piece => 7,
            MessageId::Cancel => 8,
            MessageId::Extension => 20,
        }
    }

    /// The id that a byte stands for.
    pub fn try_from(value: u8) -> (r: Result<MessageId, MessageError>)
        ensures
            match r {
                Ok(id) => MessageId::of_code(value) == Some(id),
                Err(e) => MessageId::of_code(value) is None && e == MessageError::InvalidId(value),
            },
    {
        match value {
            0 => Ok(MessageId::Choke),
            1 => Ok(MessageId::Unchoke),
            2 => Ok(MessageId::Interested),
            3 => Ok(MessageId::NotInterested),
            4 => Ok(MessageId::Have),
            5 => Ok(MessageId::Bitfield),
            6 => Ok(MessageId::Request),
            7 => Ok(MessageId::Piece),
            8 => Ok(MessageId::Cancel),
            20 => Ok(MessageId::Extension),
            v => Err(MessageError::InvalidId(v)),
        }
    }
}

/// Every id is read back from its byte.
pub proof fn law_message_id_roundtrip(id: MessageId)
    ensures
        MessageId::of_code(id.code()) == Some(id),
{
}

/// The 4 big-endian bytes of `n`.
pub open spec fn be_u32(n: nat) -> Seq<u8> {
    seq![
        ((n / 0x100_0000) % 256) as u8,
        ((n / 0x1_0000) % 256) as u8,
        ((n / 0x100) % 256) as u8,
        (n % 256) as u8,
    ]
}

/// The number that 4 big-endian bytes give.
pub open spec fn be_value(b: Seq<u8>) -> nat {
    (b[0] as nat) * 0x100_0000 + (b[1] as nat) * 0x1_0000 + (b[2] as nat) * 0x100 + (b[3] as nat)
}

/// The bytes of a message: its length with the id, the id, the payload.
pub open spec fn frame(id: MessageId, payload: Seq<u8>) -> Seq<u8> {
    be_u32((payload.len() % 0x1_0000_0000) + 1) + seq![id.code()] + payload
}

/// The message that bytes start with, and its length.
pub open spec fn decode_frame(data: Seq<u8>) -> Result<(MessageId, Seq<u8>, int), MessageError> {
    if data.len() < 4 {
        Err(MessageError::UnexpectedEnd)
    } else {
        let n = be_value(data);
        if n == 0 {
            Err(MessageError::ZeroLength)
        } else if data.len() < 5 {
            Err(MessageError::UnexpectedEnd)
        } else {
            match MessageId::of_code(data[4]) {
                None => Err(MessageError::InvalidId(data[4])),
                Some(id) => if data.len() < 4 + n {
                    Err(MessageError::UnexpectedEnd)
                } else {
                    Ok((id, data.subrange(5, 4 + n as int), 4 + n as int))
                },
            }
        }
    }
}

/// Appends the 4 big-endian bytes of `n`.
pub fn push_be_u32(out: &mut Vec<u8>, n: u32)
    ensures
        final(out)@ == old(out)@ + be_u32(n as nat),
{
    out.push((n / 0x100_0000) as u8);
    out.push(((n / 0x1_0000) % 256) as u8);
    out.push(((n / 0x100) % 256) as u8);
    out.push((n % 256) as u8);
    assert(out@ =~= old(out)@ + be_u32(n as nat));
}

impl Message {
    pub fn new(id: MessageId, payload: Vec<u8>) -> (m: Message)
        ensures
            m.id == id,
            m.payload@ == payload@,
    {
        Message { id, payload }
    }

    /// The bytes of this message on the wire.
    ///
    /// The length with the id must fit in a `u32` after the payload's length
    /// is cut to 32 bits: adding 1 to it must not overflow.
    pub fn into_bytes(self) -> (r: Vec<u8>)
        requires
            self.payload@.len() % 0x1_0000_0000 < 0xffff_ffff,
        ensures
            r@ == frame(self.id, self.payload@),
    {
        let plen = self.payload.len();
        #[verifier::truncate]
        let len32 = plen as u32;
        assert(len32 == (plen as u64) % 0x1_0000_0000u64) by (bit_vector)
            requires
                len32 == #[verifier::truncate] (plen as u32),
        ;
        let length = len32 + 1;
        let mut bytes: Vec<u8> = Vec::new();
        push_be_u32(&mut bytes, length);
        bytes.push(self.id.as_byte());
        push_bytes(&mut bytes, self.payload.as_slice());
        assert(bytes@ =~= frame(self.id, self.payload@));
        bytes
    }

    /// Reads the message that `data` starts with, as a stream yields it:
    /// length, id, payload; also says how many bytes it takes.
    pub fn from_bytes(data: &[u8]) -> (r: Result<(Message, usize), MessageError>)
        ensures
            match r {
                Ok((m, n)) => decode_frame(data@) == Ok::<(MessageId, Seq<u8>, int), MessageError>(
                    (m.id, m.payload@, n as int),
                ),
                Err(e) => decode_frame(data@) == Err::<(MessageId, Seq<u8>, int), MessageError>(e),
            },
    {
        if data.len() < 4 {
            return Err(MessageError::UnexpectedEnd);
        }
        let length: u32 = (data[0] as u32) * 0x100_0000 + (data[1] as u32) * 0x1_0000 + (data[2]
            as u32) * 0x100 + (data[3] as u32);
        if length == 0 {
            return Err(MessageError::ZeroLength);
        }
        if data.len() < 5 {
            return Err(MessageError::UnexpectedEnd);
        }
        let id = match MessageId::try_from(data[4]) {
            Ok(id) => id,
            Err(e) => {
                return Err(e);
            },
        };
        let rest = (length - 1) as usize;
        if data.len() - 5 < rest {
            return Err(MessageError::UnexpectedEnd);
        }
        let mut payload: Vec<u8> = Vec::new();
        let mut i: usize = 0;
        let dlen = data.len();
        while i < rest
            invariant
                i <= rest,
                dlen == data@.len(),
                5 + rest <= data@.len(),
                payload@ == data@.subrange(5, 5 + i),
            decreases rest - i,
        {
            payload.push(data[5 + i]);
            i = i + 1;
            assert(payload@ =~= data@.subrange(5, 5 + i));
        }
        Ok((Message { id, payload }, 4 + length as usize))
    }
}

/// Reading the bytes of a message gives the message back, when its length
/// fits in the 32-bit prefix.
pub proof fn law_frame_roundtrip(id: MessageId, payload: Seq<u8>)
    requires
        payload.len() < 0xffff_ffff,
    ensures
        decode_frame(frame(id, payload)) == Ok::<(MessageId, Seq<u8>, int), MessageError>(
            (id, payload, frame(id, payload).len() as int),
        ),
{
    let f = frame(id, payload);
    let n = payload.len() + 1;
    assert(payload.len() % 0x1_0000_0000 == payload.len());
    assert(be_value(f) == n) by {
        assert(f[0] == ((n / 0x100_0000) % 256) as u8);
        assert(f[1] == ((n / 0x1_0000) % 256) as u8);
        assert(f[2] == ((n / 0x100) % 256) as u8);
        assert(f[3] == (n % 256) as u8);
        assert(((n / 0x100_0000) % 256) * 0x100_0000 + ((n / 0x1_0000) % 256) * 0x1_0000 + ((n
            / 0x100) % 256) * 0x100 + n % 256 == n) by (nonlinear_arith)
            requires
                n < 0x1_0000_0000,
        ;
    }
    assert(f[4] == id.code());
    assert(f.subrange(5, 4 + n as int) =~= payload);
}

} // verus!
