//! The framing of messages on a client connection.
//!
//! Each message travels as an eight-byte big-endian length followed by that
//! many bytes of payload. A length of zero stands for the end of the
//! conversation.
use vstd::prelude::*;

verus! {

/// The number of bytes of the length that starts each frame.
pub const HEADER_LEN: usize = 8;

/// The number that `count` bytes of `bytes`, from the first one on, stand
/// for when read in big-endian order.
pub open spec fn be_prefix(bytes: Seq<u8>, count: nat) -> nat
    decreases count,
{
    if count == 0 {
        0
    } else {
        be_prefix(bytes, (count - 1) as nat) * 256 + bytes[count - 1] as nat
    }
}

/// `256` to the power `count`.
pub open spec fn pow256(count: nat) -> nat
    decreases count,
{
    if count == 0 {
        1
    } else {
        pow256((count - 1) as nat) * 256
    }
}

/// The eight bytes of `n` in big-endian order.
pub open spec fn be_bytes_u64(n: u64) -> Seq<u8> {
    seq![
        (n >> 56u64) as u8,
        (n >> 48u64) as u8,
        (n >> 40u64) as u8,
        (n >> 32u64) as u8,
        (n >> 24u64) as u8,
        (n >> 16u64) as u8,
        (n >> 8u64) as u8,
        n as u8,
    ]
}

/// The frame that carries `payload`: its length, then the payload.
pub open spec fn frame(payload: Seq<u8>) -> Seq<u8> {
    be_bytes_u64(payload.len() as u64) + payload
}

/// The payload length that the header at the start of `received` announces.
pub open spec fn announced_len(received: Seq<u8>) -> nat {
    be_prefix(received, HEADER_LEN as nat)
}

/// Why a message could not be read.
#[derive(Clone, Copy, Debug, PartialEq, Eq, Structural)]
pub enum FrameError {
    /// The peer closed the connection inside the length header.
    UnexpectedEof,
    /// The peer closed the connection inside a payload.
    ConnectionReset,
}

/// Where reading a message stands, as the caller sees it.
pub enum FrameModel {
    /// More bytes are needed.
    Pending,
    /// A whole message was read.
    Message(Seq<u8>),
    /// The peer ended the conversation.
    Closed,
    /// The conversation broke off.
    Failed(FrameError),
}

/// Where reading a message stands once `received` has been read and the
/// connection is still open.
pub open spec fn outcome_after(received: Seq<u8>) -> FrameModel {
    if received.len() < HEADER_LEN {
        FrameModel::Pending
    } else if announced_len(received) == 0 {
        FrameModel::Closed
    } else if received.len() >= HEADER_LEN + announced_len(received) {
        FrameModel::Message(
            received.subrange(HEADER_LEN as int, HEADER_LEN + announced_len(received)),
        )
    } else {
        FrameModel::Pending
    }
}

/// What reading a message gives when the peer closes the connection after
/// `received`: a close before any byte of a frame, or before the first
/// payload byte, is a clean close; a cut header or a cut payload is an error.
pub open spec fn outcome_at_end(received: Seq<u8>) -> FrameModel {
    if received.len() == 0 {
        FrameModel::Closed
    } else if received.len() < HEADER_LEN {
        FrameModel::Failed(FrameError::UnexpectedEof)
    } else if outcome_after(received) !is Pending {
        outcome_after(received)
    } else if received.len() == HEADER_LEN {
        FrameModel::Closed
    } else {
        FrameModel::Failed(FrameError::ConnectionReset)
    }
}

/// How many more bytes belong to the message being read after `received`:
/// the rest of the header, then the rest of the payload.
pub open spec fn wanted_after(received: Seq<u8>) -> int {
    if received.len() < HEADER_LEN {
        HEADER_LEN - received.len()
    } else {
        HEADER_LEN + announced_len(received) - received.len()
    }
}

/// The eight big-endian bytes of `n` read back give `n`.
pub proof fn lemma_be_bytes_read_back(n: u64)
    ensures
        be_prefix(be_bytes_u64(n), 8) == n,
{
    let b = be_bytes_u64(n);
    reveal_with_fuel(be_prefix, 9);
    assert(b[0] == (n >> 56u64) as u8 && b[1] == (n >> 48u64) as u8);
    assert(b[2] == (n >> 40u64) as u8 && b[3] == (n >> 32u64) as u8);
    assert(b[4] == (n >> 24u64) as u8 && b[5] == (n >> 16u64) as u8);
    assert(b[6] == (n >> 8u64) as u8 && b[7] == n as u8);
    assert(((((((((n >> 56u64) as u8) as u64 * 256 + ((n >> 48u64) as u8) as u64) * 256 + ((n
        >> 40u64) as u8) as u64) * 256 + ((n >> 32u64) as u8) as u64) * 256 + ((n >> 24u64) as u8)
        as u64) * 256 + ((n >> 16u64) as u8) as u64) * 256 + ((n >> 8u64) as u8) as u64) * 256 + (
    n as u8) as u64 == n) by (bit_vector);
}

/// A big-endian read of the first `count` bytes depends on those bytes alone.
proof fn lemma_be_prefix_depends_on_prefix(a: Seq<u8>, b: Seq<u8>, count: nat)
    requires
        count <= a.len(),
        count <= b.len(),
        forall|i: int| 0 <= i < count ==> a[i] == b[i],
    ensures
        be_prefix(a, count) == be_prefix(b, count),
    decreases count,
{
    if count > 0 {
        lemma_be_prefix_depends_on_prefix(a, b, (count - 1) as nat);
    }
}

/// Powers of `256` grow with the exponent.
proof fn lemma_pow256_grows(small: nat, large: nat)
    requires
        small <= large,
    ensures
        pow256(small) <= pow256(large),
    decreases large,
{
    if small < large {
        lemma_pow256_grows(small, (large - 1) as nat);
    }
}

/// Reads eight bytes as a big-endian number.
fn read_be_u64(bytes: &Vec<u8>) -> (n: u64)
    requires
        bytes.len() == HEADER_LEN,
    ensures
        n == be_prefix(bytes@, 8),
{
    let mut n: u64 = 0;
    let mut i: usize = 0;
    proof {
        reveal_with_fuel(pow256, 8);
    }
    assert(pow256(7) == 0x100000000000000);
    while i < HEADER_LEN
        invariant
            bytes.len() == HEADER_LEN,
            i <= HEADER_LEN,
            n == be_prefix(bytes@, i as nat),
            n < pow256(i as nat),
            pow256(7) == 0x100000000000000,
        decreases HEADER_LEN - i,
    {
        proof {
            lemma_pow256_grows(i as nat, 7);
        }
        n = n * 256 + bytes[i] as u64;
        i = i + 1;
    }
    n
}

/// Appends the bytes of `src` to `dst`.
fn append_bytes(dst: &mut Vec<u8>, src: &[u8])
    ensures
        final(dst)@ == old(dst)@ + src@,
{
    let mut i: usize = 0;
    while i < src.len()
        invariant
            i <= src.len(),
            dst@ == old(dst)@ + src@.take(i as int),
        decreases src.len() - i,
    {
        dst.push(src[i]);
        i = i + 1;
        assert(dst@ =~= old(dst)@ + src@.take(i as int));
    }
    assert(src@.take(i as int) =~= src@);
}

/// Builds the frame that carries `payload`.
pub fn encode_frame(payload: &[u8]) -> (bytes: Vec<u8>)
    ensures
        bytes@ == frame(payload@),
{
    let n: u64 = payload.len() as u64;
    let mut bytes: Vec<u8> = Vec::new();
    bytes.push((n >> 56u64) as u8);
    bytes.push((n >> 48u64) as u8);
    bytes.push((n >> 40u64) as u8);
    bytes.push((n >> 32u64) as u8);
    bytes.push((n >> 24u64) as u8);
    bytes.push((n >> 16u64) as u8);
    bytes.push((n >> 8u64) as u8);
    bytes.push(n as u8);
    assert(bytes@ =~= be_bytes_u64(n));
    append_bytes(&mut bytes, payload);
    bytes
}

/// The header of the frame of `payload` announces the payload's length.
proof fn lemma_frame_announces_len(payload: Seq<u8>, count: nat)
    requires
        payload.len() <= u64::MAX,
        HEADER_LEN <= count <= frame(payload).len(),
    ensures
        announced_len(frame(payload).take(count as int)) == payload.len(),
{
    let n = payload.len() as u64;
    let f = frame(payload);
    lemma_be_bytes_read_back(n);
    lemma_be_prefix_depends_on_prefix(be_bytes_u64(n), f.take(count as int), 8);
}

/// A whole frame read back gives the payload it carries, when that payload
/// is not empty.
pub proof fn lemma_frame_read_back(payload: Seq<u8>)
    requires
        0 < payload.len() <= u64::MAX,
    ensures
        outcome_after(frame(payload)) == FrameModel::Message(payload),
{
    let f = frame(payload);
    lemma_frame_announces_len(payload, f.len());
    assert(f.take(f.len() as int) =~= f);
    assert(f.subrange(HEADER_LEN as int, f.len() as int) =~= payload);
}

/// The frame of an empty payload reads as the end of the conversation.
pub proof fn lemma_empty_frame_closes()
    ensures
        outcome_after(frame(Seq::<u8>::empty())) == FrameModel::Closed,
{
    let f = frame(Seq::<u8>::empty());
    lemma_frame_announces_len(Seq::<u8>::empty(), f.len());
    assert(f.take(f.len() as int) =~= f);
}

/// Every proper prefix of a frame leaves the message pending, and what the
/// reader then wants ends within the frame: a frame handed
/// over in pieces of any sizes is read whole, and nothing after it is taken.
pub proof fn lemma_frame_prefix_pending(payload: Seq<u8>, count: nat)
    requires
        0 < payload.len() <= u64::MAX,
        count < frame(payload).len(),
    ensures
        outcome_after(frame(payload).take(count as int)) is Pending,
        wanted_after(frame(payload).take(count as int)) > 0,
        count + wanted_after(frame(payload).take(count as int)) <= frame(payload).len(),
{
    if count >= HEADER_LEN {
        lemma_frame_announces_len(payload, count);
    }
}

/// A connection closed between two frames ends the conversation cleanly.
pub proof fn lemma_close_between_frames()
    ensures
        outcome_at_end(Seq::<u8>::empty()) == FrameModel::Closed,
{
}

/// A connection closed inside a length header is an error.
pub proof fn lemma_cut_header_fails(received: Seq<u8>)
    requires
        0 < received.len() < HEADER_LEN,
    ensures
        outcome_at_end(received) == FrameModel::Failed(FrameError::UnexpectedEof),
{
}

/// The bytes of pieces, one after the other.
pub open spec fn concat_pieces(pieces: Seq<Seq<u8>>) -> Seq<u8>
    decreases pieces.len(),
{
    if pieces.len() == 0 {
        Seq::empty()
    } else {
        concat_pieces(pieces.drop_last()) + pieces.last()
    }
}

/// Whether each piece was handed to a reader while the message was pending,
/// and was not empty and no longer than what the reader wanted: the way
/// `feed` is called.
pub open spec fn pieces_fed_as_wanted(pieces: Seq<Seq<u8>>) -> bool {
    forall|i: int|
        0 <= i < pieces.len() ==> {
            &&& outcome_after(concat_pieces(pieces.take(i))) is Pending
            &&& 0 < (#[trigger] pieces[i]).len() <= wanted_after(concat_pieces(pieces.take(i)))
        }
}

/// A frame followed by anything, handed to a reader in pieces of any sizes
/// as the reader wants them, is read whole and alone: the reader takes no
/// byte past the frame, and it has the payload exactly when it has taken
/// the whole frame.
pub proof fn lemma_frame_read_in_pieces(payload: Seq<u8>, rest: Seq<u8>, pieces: Seq<Seq<u8>>)
    requires
        0 < payload.len() <= u64::MAX,
        pieces_fed_as_wanted(pieces),
        concat_pieces(pieces).is_prefix_of(frame(payload) + rest),
    ensures
        concat_pieces(pieces).is_prefix_of(frame(payload)),
        (concat_pieces(pieces).len() == frame(payload).len()) == (outcome_after(
            concat_pieces(pieces),
        ) == FrameModel::Message(payload)),
    decreases pieces.len(),
{
    let f = frame(payload);
    let got = concat_pieces(pieces);
    if pieces.len() == 0 {
        lemma_frame_prefix_pending(payload, 0);
        assert(f.take(0) =~= got);
    } else {
        let front = pieces.drop_last();
        let last = pieces.last();
        assert forall|i: int| 0 <= i < front.len() implies {
            &&& outcome_after(concat_pieces(front.take(i))) is Pending
            &&& 0 < (#[trigger] front[i]).len() <= wanted_after(concat_pieces(front.take(i)))
        } by {
            assert(front.take(i) =~= pieces.take(i));
            assert(front[i] == pieces[i]);
        }
        assert(pieces.take(front.len() as int) =~= front);
        assert(got =~= concat_pieces(front) + last);
        assert(concat_pieces(front).is_prefix_of(f + rest)) by {
            assert(concat_pieces(front) =~= (f + rest).take(concat_pieces(front).len() as int));
        }
        lemma_frame_read_in_pieces(payload, rest, front);
        let before = concat_pieces(front);
        assert(before =~= f.take(before.len() as int));
        if before.len() == f.len() {
            assert(before =~= f);
            lemma_frame_read_back(payload);
            assert(false);
        }
        lemma_frame_prefix_pending(payload, before.len());
        assert(got.len() <= f.len());
        assert(got =~= f.take(got.len() as int)) by {
            assert forall|j: int| 0 <= j < got.len() implies got[j] == f[j] by {
                assert(got[j] == (f + rest)[j]);
            }
        }
        if got.len() == f.len() {
            assert(got =~= f);
            lemma_frame_read_back(payload);
        } else {
            lemma_frame_prefix_pending(payload, got.len());
        }
    }
}

/// Where reading a message stands.
#[derive(Debug)]
pub enum ReadOutcome {
    Pending,
    Message(Vec<u8>),
    Closed,
    Failed(FrameError),
}

impl View for ReadOutcome {
    type V = FrameModel;

    open spec fn view(&self) -> FrameModel {
        match self {
            ReadOutcome::Pending => FrameModel::Pending,
            ReadOutcome::Message(m) => FrameModel::Message(m@),
            ReadOutcome::Closed => FrameModel::Closed,
            ReadOutcome::Failed(e) => FrameModel::Failed(*e),
        }
    }
}

/// Reads one message from the bytes of a connection as they arrive.
///
/// The caller reads at most `wanted()` bytes at a time from the connection
/// and hands them to `feed`, or calls `end_of_stream` when the peer has
/// closed the connection, until the outcome is no longer pending. The reader
/// never asks for a byte past the end of the message.
pub struct FrameReader {
    header: Vec<u8>,
    body: Vec<u8>,
    size: u64,
    finished: bool,
    received: Ghost<Seq<u8>>,
}

impl FrameReader {
    /// The bytes handed to the reader so far.
    pub closed spec fn received(&self) -> Seq<u8> {
        self.received@
    }

    /// Whether the reader has reached an outcome.
    pub closed spec fn is_finished(&self) -> bool {
        self.finished
    }

    /// The reader's internal consistency.
    pub closed spec fn well_formed(&self) -> bool {
        &&& self.header.len() <= HEADER_LEN
        &&& !self.finished ==> {
            &&& self.received@ == self.header@ + self.body@
            &&& self.header.len() < HEADER_LEN ==> self.body.len() == 0
            &&& self.header.len() == HEADER_LEN ==> {
                &&& self.size == announced_len(self.received@)
                &&& 0 < self.size
                &&& self.body.len() < self.size
            }
        }
    }

    /// A reader that has read nothing yet.
    pub fn new() -> (reader: Self)
        ensures
            reader.well_formed(),
            !reader.is_finished(),
            reader.received() == Seq::<u8>::empty(),
    {
        FrameReader {
            header: Vec::new(),
            body: Vec::new(),
            size: 0,
            finished: false,
            received: Ghost(Seq::empty()),
        }
    }

    /// While a message is being read, nothing read so far completes it.
    pub proof fn lemma_pending(&self)
        requires
            self.well_formed(),
            !self.is_finished(),
        ensures
            outcome_after(self.received()) is Pending,
            wanted_after(self.received()) > 0,
    {
        if self.header.len() == HEADER_LEN {
            assert(self.received@.len() == HEADER_LEN + self.body.len());
        }
    }

    /// How many more bytes the message being read needs.
    pub fn wanted(&self) -> (count: u64)
        requires
            self.well_formed(),
            !self.is_finished(),
        ensures
            count == wanted_after(self.received()),
            count > 0,
    {
        proof {
            self.lemma_pending();
        }
        if self.header.len() < HEADER_LEN {
            (HEADER_LEN - self.header.len()) as u64
        } else {
            self.size - self.body.len() as u64
        }
    }

    /// Takes the next bytes read from the connection.
    pub fn feed(&mut self, chunk: &[u8]) -> (outcome: ReadOutcome)
        requires
            old(self).well_formed(),
            !old(self).is_finished(),
            0 < chunk@.len() <= wanted_after(old(self).received()),
        ensures
            final(self).well_formed(),
            final(self).received() == old(self).received() + chunk@,
            outcome@ == outcome_after(final(self).received()),
            final(self).is_finished() == (outcome@ !is Pending),
    {
        let ghost before = self.received@;
        let ghost after = before + chunk@;
        if self.header.len() < HEADER_LEN {
            append_bytes(&mut self.header, chunk);
            self.received = Ghost(after);
            assert(self.received@ =~= self.header@ + self.body@);
            if self.header.len() == HEADER_LEN {
                let size = read_be_u64(&self.header);
                proof {
                    lemma_be_prefix_depends_on_prefix(self.header@, after, 8);
                }
                self.size = size;
                if size == 0 {
                    self.finished = true;
                    return ReadOutcome::Closed;
                }
            }
            ReadOutcome::Pending
        } else {
            append_bytes(&mut self.body, chunk);
            self.received = Ghost(after);
            assert(self.received@ =~= self.header@ + self.body@);
            proof {
                lemma_be_prefix_depends_on_prefix(before, after, 8);
            }
            if self.body.len() as u64 == self.size {
                self.finished = true;
                let mut message: Vec<u8> = Vec::new();
                std::mem::swap(&mut message, &mut self.body);
                assert(message@ =~= after.subrange(HEADER_LEN as int, HEADER_LEN + self.size));
                ReadOutcome::Message(message)
            } else {
                ReadOutcome::Pending
            }
        }
    }

    /// Takes the news that the peer closed the connection.
    pub fn end_of_stream(&mut self) -> (outcome: ReadOutcome)
        requires
            old(self).well_formed(),
            !old(self).is_finished(),
        ensures
            final(self).well_formed(),
            final(self).is_finished(),
            final(self).received() == old(self).received(),
            outcome@ == outcome_at_end(old(self).received()),
            outcome@ !is Pending,
    {
        proof {
            self.lemma_pending();
        }
        self.finished = true;
        if self.header.len() == 0 {
            ReadOutcome::Closed
        } else if self.header.len() < HEADER_LEN {
            ReadOutcome::Failed(FrameError::UnexpectedEof)
        } else if self.body.len() == 0 {
            ReadOutcome::Closed
        } else {
            ReadOutcome::Failed(FrameError::ConnectionReset)
        }
    }
}

} // verus!
