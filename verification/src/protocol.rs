//! The wire protocol: the instruction that the server sends before each
//! message, and the framing of a message into chunks.

use crate::errors::StreamError;
use crate::text::number_text;
use vstd::prelude::*;
use vstd::slice::slice_subrange;
use vstd::string::StringExecFns;

verus! {

/// The number of bytes in a full chunk.
pub const BUFFER_SIZE: usize = 50;

/// The largest number of chunks in a message: the count is sent in one byte.
pub const MAX_N_BUFFERS: usize = 255;

/// The largest number of bytes in a message.
pub const MAX_MESSAGE_SIZE: usize = 12750;

/// What the server tells a client to do next.
#[derive(Clone, Copy, PartialEq, Eq, Structural, Debug)]
pub enum Instruction {
    /// Print the message that follows.
    Print,
    /// Clear the screen, then print the message that follows.
    ClearAndPrint,
    /// Print the message that follows, then send a reply.
    PrintAndReply,
    /// Send a message; none follows from the server.
    Reply,
    /// End the session; no message follows.
    Close,
}

/// The byte that stands for an instruction.
pub open spec fn instruction_code(instruction: Instruction) -> u8 {
    match instruction {
        Instruction::Print => 1,
        Instruction::ClearAndPrint => 2,
        Instruction::PrintAndReply => 3,
        Instruction::Reply => 4,
        Instruction::Close => 5,
    }
}

/// The instruction that a byte stands for, if any.
pub open spec fn code_instruction(code: u8) -> Option<Instruction> {
    if code == 1 {
        Some(Instruction::Print)
    } else if code == 2 {
        Some(Instruction::ClearAndPrint)
    } else if code == 3 {
        Some(Instruction::PrintAndReply)
    } else if code == 4 {
        Some(Instruction::Reply)
    } else if code == 5 {
        Some(Instruction::Close)
    } else {
        None
    }
}

/// The byte of an instruction stands for that instruction, and a byte that
/// stands for an instruction is that instruction's byte.
pub proof fn lemma_instruction_codes(instruction: Instruction, code: u8)
    ensures
        code_instruction(instruction_code(instruction)) == Some(instruction),
        code_instruction(code) == Some(instruction) ==> code == instruction_code(instruction),
{
}

impl Instruction {
    /// The byte that stands for the instruction.
    pub fn to_byte(self) -> (code: u8)
        ensures
            code == instruction_code(self),
    {
        match self {
            Instruction::Print => 1,
            Instruction::ClearAndPrint => 2,
            Instruction::PrintAndReply => 3,
            Instruction::Reply => 4,
            Instruction::Close => 5,
        }
    }

    /// The instruction that a byte stands for, if any.
    pub fn from_byte(code: u8) -> (res: Option<Instruction>)
        ensures
            res == code_instruction(code),
    {
        match code {
            1 => Some(Instruction::Print),
            2 => Some(Instruction::ClearAndPrint),
            3 => Some(Instruction::PrintAndReply),
            4 => Some(Instruction::Reply),
            5 => Some(Instruction::Close),
            _ => None,
        }
    }

    /// Whether a message from the server follows the instruction.
    pub fn has_payload(self) -> (res: bool)
        ensures
            res == (self == Instruction::Print || self == Instruction::ClearAndPrint || self
                == Instruction::PrintAndReply),
    {
        match self {
            Instruction::Print | Instruction::ClearAndPrint | Instruction::PrintAndReply => true,
            Instruction::Reply | Instruction::Close => false,
        }
    }

    /// Whether the client answers the instruction with a message.
    pub fn expects_reply(self) -> (res: bool)
        ensures
            res == (self == Instruction::PrintAndReply || self == Instruction::Reply),
    {
        match self {
            Instruction::PrintAndReply | Instruction::Reply => true,
            _ => false,
        }
    }
}

/// The number of chunks that a message of `len` bytes takes: all of them
/// full but, perhaps, the last.
pub open spec fn chunk_count(len: nat) -> nat {
    (len + BUFFER_SIZE - 1) as nat / (BUFFER_SIZE as nat)
}

/// Where chunk `i` of a message of `len` bytes ends.
pub open spec fn chunk_end(len: nat, i: int) -> int {
    if (i + 1) * BUFFER_SIZE <= len {
        (i + 1) * BUFFER_SIZE
    } else {
        len as int
    }
}

/// The chunks of a message: the bytes in their order, 50 to a chunk.
pub open spec fn chunks_of(bytes: Seq<u8>) -> Seq<Seq<u8>> {
    Seq::new(
        chunk_count(bytes.len()),
        |i: int| bytes.subrange(i * BUFFER_SIZE, chunk_end(bytes.len(), i)),
    )
}

/// The bytes of chunks put one behind the other.
pub open spec fn joined(chunks: Seq<Seq<u8>>) -> Seq<u8>
    decreases chunks.len(),
{
    if chunks.len() == 0 {
        Seq::empty()
    } else {
        joined(chunks.drop_last()) + chunks.last()
    }
}

/// A message that is framed as the sender frames it and put together as the
/// receiver puts it together is the same message.
pub proof fn lemma_frame_round_trip(bytes: Seq<u8>)
    ensures
        joined(chunks_of(bytes)) == bytes,
{
    lemma_joined_chunks(bytes, chunk_count(bytes.len()) as int);
    assert(chunks_of(bytes).take(chunks_of(bytes).len() as int) =~= chunks_of(bytes));
    assert(bytes.take(bytes.len() as int) =~= bytes);
}

/// The first chunks of a message, joined, are the beginning of the message.
proof fn lemma_joined_chunks(bytes: Seq<u8>, k: int)
    requires
        0 <= k <= chunk_count(bytes.len()),
    ensures
        joined(chunks_of(bytes).take(k)) == bytes.take(
            if k == 0 {
                0
            } else {
                chunk_end(bytes.len(), k - 1)
            },
        ),
    decreases k,
{
    let chunks = chunks_of(bytes);
    if k == 0 {
        assert(joined(chunks.take(0)) =~= bytes.take(0));
    } else {
        lemma_joined_chunks(bytes, k - 1);
        assert(chunks.take(k).drop_last() =~= chunks.take(k - 1));
        assert(chunks.take(k).last() == chunks[k - 1]);
        let start = (k - 1) * BUFFER_SIZE;
        let end = chunk_end(bytes.len(), k - 1);
        if k - 1 > 0 {
            assert(chunk_end(bytes.len(), k - 2) == start);
        }
        assert(bytes.take(start) + bytes.subrange(start, end) =~= bytes.take(end));
    }
}

/// Every chunk of a message but the last is full, and the last one holds a
/// byte at least.
pub proof fn lemma_chunk_sizes(bytes: Seq<u8>, i: int)
    requires
        0 <= i < chunk_count(bytes.len()),
    ensures
        1 <= chunks_of(bytes)[i].len() <= BUFFER_SIZE,
        i + 1 < chunk_count(bytes.len()) ==> chunks_of(bytes)[i].len() == BUFFER_SIZE,
{
}

/// The error for a message that is too long to be framed.
fn too_long(len: usize) -> (res: StreamError)
    ensures
        res@ == too_long_text(len),
{
    let size = number_text(len);
    let limit = number_text(MAX_MESSAGE_SIZE);
    let message = String::from_str("Stream too long: size: ").concat(size.as_str()).concat(
        ", maximum size: ",
    ).concat(limit.as_str());
    StreamError::new(message)
}

/// What the error for a message of `len` bytes, too long to be framed, says.
pub open spec fn too_long_text(len: usize) -> Seq<char> {
    "Stream too long: size: "@ + crate::text::decimal_digits(len as nat) + ", maximum size: "@
        + crate::text::decimal_digits(MAX_MESSAGE_SIZE as nat)
}

/// Frames a message: the number of chunks, which is sent first in one byte,
/// and the chunks. A message of more than 12750 bytes cannot be framed.
pub fn frame_message(bytes: &[u8]) -> (res: Result<(u8, Vec<Vec<u8>>), StreamError>)
    ensures
        res is Ok <==> bytes@.len() <= MAX_MESSAGE_SIZE,
        res matches Ok(frame) ==> frame.0 == chunk_count(bytes@.len()) && frame.1@.map_values(
            |chunk: Vec<u8>| chunk@,
        ) == chunks_of(bytes@),
        res matches Err(error) ==> error@ == too_long_text(bytes.len()),
{
    let len: usize = bytes.len();
    if len > MAX_N_BUFFERS * BUFFER_SIZE {
        return Err(too_long(len));
    }
    let mut n_buffers: usize = len / BUFFER_SIZE;
    if len % BUFFER_SIZE != 0 {
        n_buffers += 1;
    }
    assert(n_buffers == chunk_count(len as nat));
    let mut chunks: Vec<Vec<u8>> = Vec::new();
    let mut i: usize = 0;
    while i < n_buffers
        invariant
            len == bytes@.len(),
            len <= MAX_N_BUFFERS * BUFFER_SIZE,
            n_buffers == chunk_count(len as nat),
            i <= n_buffers,
            chunks@.len() == i,
            forall|k: int| 0 <= k < i ==> (#[trigger] chunks@[k])@ == chunks_of(bytes@)[k],
        decreases n_buffers - i,
    {
        let start: usize = i * BUFFER_SIZE;
        let end: usize = if (i + 1) * BUFFER_SIZE <= len {
            (i + 1) * BUFFER_SIZE
        } else {
            len
        };
        let chunk = vstd::slice::slice_to_vec(slice_subrange(bytes, start, end));
        chunks.push(chunk);
        i += 1;
    }
    assert(chunks@.map_values(|chunk: Vec<u8>| chunk@) =~= chunks_of(bytes@));
    Ok((n_buffers as u8, chunks))
}

/// Puts a message together from the chunks in which it was received.
pub fn assemble(chunks: &Vec<Vec<u8>>) -> (res: Vec<u8>)
    ensures
        res@ == joined(chunks@.map_values(|chunk: Vec<u8>| chunk@)),
{
    let ghost all = chunks@.map_values(|chunk: Vec<u8>| chunk@);
    let mut res: Vec<u8> = Vec::new();
    let n: usize = chunks.len();
    let mut i: usize = 0;
    assert(all.take(0) =~= Seq::<Seq<u8>>::empty());
    while i < n
        invariant
            n == chunks@.len(),
            all == chunks@.map_values(|chunk: Vec<u8>| chunk@),
            i <= n,
            res@ == joined(all.take(i as int)),
        decreases n - i,
    {
        proof {
            assert(all.take(i + 1).drop_last() =~= all.take(i as int));
            assert(all.take(i + 1).last() == chunks@[i as int]@);
        }
        let mut chunk = chunks[i].clone();
        res.append(&mut chunk);
        i += 1;
    }
    assert(all.take(n as int) =~= all);
    res
}

} // verus!
