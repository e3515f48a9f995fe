//! Frames: the units that go over the link.
//!
//! A frame is its length, a byte that holds the destination and the low four bits of the sequence
//! number, the payload, a CRC over all of these, and a sync byte.
use vstd::prelude::*;

verus! {

pub const MESSAGE_HEADER_SIZE: usize = 2;

pub const MESSAGE_TRAILER_SIZE: usize = 3;

pub const MESSAGE_LENGTH_MIN: usize = MESSAGE_HEADER_SIZE + MESSAGE_TRAILER_SIZE;

pub const MESSAGE_LENGTH_MAX: usize = 64;

pub const MESSAGE_LENGTH_PAYLOAD_MAX: usize = MESSAGE_LENGTH_MAX - MESSAGE_LENGTH_MIN;

pub const MESSAGE_POSITION_SEQ: usize = 1;

pub const MESSAGE_TRAILER_CRC: usize = 3;

pub const MESSAGE_VALUE_SYNC: u8 = 0x7E;

pub const MESSAGE_DEST: u8 = 0x10;

pub const MESSAGE_SEQ_MASK: u8 = 0x0F;

/// Why a payload could not be made into a frame.
#[derive(Debug, Clone, Copy, PartialEq, Eq, Structural)]
pub enum MessageEncodeError {
    /// The message would exceed the maximum packet length
    MessageTooLong,
}

// ---------------------------------------------------------------------------
// The checksum
// ---------------------------------------------------------------------------

/// One bit of the CRC, with the reflected polynomial `0x8408`.
pub open spec fn crc_bit(crc: u16) -> u16 {
    if crc & 1 == 1 {
        (crc >> 1) ^ 0x8408
    } else {
        crc >> 1
    }
}

/// Eight bits of the CRC.
pub open spec fn crc_byte(crc: u16, b: u8) -> u16 {
    crc_bit(crc_bit(crc_bit(crc_bit(crc_bit(crc_bit(crc_bit(crc_bit(crc ^ b as u16))))))))
}

/// The CRC of some bytes: it starts at `0xFFFF` and takes in the bytes in turn.
pub open spec fn crc16_of(data: Seq<u8>) -> u16
    decreases data.len(),
{
    if data.len() == 0 {
        0xFFFF
    } else {
        crc_byte(crc16_of(data.drop_last()), data.last())
    }
}

/// A whole byte of the CRC at once.
fn crc_step(crc: u16, byte: u8) -> (r: u16)
    ensures
        r == crc_byte(crc, byte),
{
    let b: u8 = byte ^ ((crc & 0xFF) as u8);
    let b2: u8 = b ^ (b << 4);
    let b16: u16 = b2 as u16;
    let r: u16 = (b16 << 8 | crc >> 8) ^ (b16 >> 4) ^ (b16 << 3);
    assert(r == crc_byte(crc, byte)) by (bit_vector)
        requires
            b == byte ^ ((crc & 0xFF) as u8),
            b2 == b ^ (b << 4),
            b16 == b2 as u16,
            r == (b16 << 8 | crc >> 8) ^ (b16 >> 4) ^ (b16 << 3),
    ;
    r
}

/// The CRC of some bytes.
pub fn crc16(buf: &[u8]) -> (crc: u16)
    ensures
        crc == crc16_of(buf@),
{
    let mut crc: u16 = 0xFFFF;
    let mut i: usize = 0;
    while i < buf.len()
        invariant
            i <= buf@.len(),
            crc == crc16_of(buf@.take(i as int)),
        decreases buf@.len() - i,
    {
        crc = crc_step(crc, buf[i]);
        assert(buf@.take(i + 1).drop_last() =~= buf@.take(i as int));
        i += 1;
    }
    assert(buf@.take(i as int) =~= buf@);
    crc
}

// ---------------------------------------------------------------------------
// Writing frames
// ---------------------------------------------------------------------------

/// The byte of a frame that holds its sequence number.
pub open spec fn sequence_byte(sequence: int) -> u8 {
    (0x10 + sequence % 16) as u8
}

/// A frame up to its CRC.
pub open spec fn frame_head(sequence: int, payload: Seq<u8>) -> Seq<u8> {
    seq![(payload.len() + 5) as u8, sequence_byte(sequence)] + payload
}

/// The CRC, the high byte first, and the sync byte.
pub open spec fn frame_trailer(crc: u16) -> Seq<u8> {
    seq![(crc / 256) as u8, (crc % 256) as u8, 0x7E]
}

/// A whole frame.
pub open spec fn frame_bytes(sequence: int, payload: Seq<u8>) -> Seq<u8> {
    frame_head(sequence, payload) + frame_trailer(crc16_of(frame_head(sequence, payload)))
}

/// Makes a frame of a payload. That fails if, and only if, the payload is too long.
pub fn encode_frame(sequence: u64, payload: &[u8]) -> (r: Result<Vec<u8>, MessageEncodeError>)
    ensures
        payload@.len() <= MESSAGE_LENGTH_PAYLOAD_MAX ==> (r matches Ok(f) && f@ == frame_bytes(
            sequence as int,
            payload@,
        )),
        payload@.len() > MESSAGE_LENGTH_PAYLOAD_MAX ==> r == Err::<Vec<u8>, MessageEncodeError>(
            MessageEncodeError::MessageTooLong,
        ),
{
    if payload.len() > MESSAGE_LENGTH_PAYLOAD_MAX {
        return Err(MessageEncodeError::MessageTooLong);
    }
    let len: usize = MESSAGE_LENGTH_MIN + payload.len();
    let mut buf: Vec<u8> = Vec::with_capacity(len);
    buf.push(len as u8);
    buf.push(MESSAGE_DEST | ((sequence as u8) & MESSAGE_SEQ_MASK));
    assert(0x10u8 | ((sequence as u8) & 0x0Fu8) == 0x10 + sequence % 16) by (bit_vector);
    buf.extend_from_slice(payload);
    assert(buf@ =~= frame_head(sequence as int, payload@));
    let crc: u16 = crc16(buf.as_slice());
    assert(((crc >> 8) & 0xFF) as u8 == crc / 256) by (bit_vector);
    assert((crc & 0xFF) as u8 == crc % 256) by (bit_vector);
    buf.push(((crc >> 8) & 0xFF) as u8);
    buf.push((crc & 0xFF) as u8);
    buf.push(MESSAGE_VALUE_SYNC);
    assert(buf@ =~= frame_bytes(sequence as int, payload@));
    Ok(buf)
}

// ---------------------------------------------------------------------------
// Reading frames
// ---------------------------------------------------------------------------

/// A frame as it was received.
#[derive(Debug)]
pub struct Frame {
    /// When the frame came in, in nanoseconds
    pub receive_time: u64,
    /// The low four bits of the sequence number
    pub sequence: u8,
    /// What the frame carries
    pub payload: Vec<u8>,
}

/// What a reader does with the first byte that it meets outside of a frame: whether it is in sync
/// from there on, and the length of the frame that starts there, if one does.
pub open spec fn reader_start(synced: bool, byte: u8) -> (bool, Option<int>) {
    if byte == MESSAGE_VALUE_SYNC {
        (true, None)
    } else if !synced {
        (false, None)
    } else if MESSAGE_LENGTH_MIN <= byte <= MESSAGE_LENGTH_MAX {
        (true, Some(byte as int))
    } else {
        (false, None)
    }
}

/// The sequence bits and the payload of a frame, if it is addressed to the host and its CRC is
/// right.
pub open spec fn frame_content(frame: Seq<u8>) -> Option<(u8, Seq<u8>)> {
    let n = frame.len();
    if frame[1] / 16 == 1 && frame[n - 3] as int * 256 + frame[n - 2] as int == crc16_of(
        frame.take(n - 3),
    ) {
        Some(((frame[1] % 16) as u8, frame.subrange(2, n - 3)))
    } else {
        None
    }
}

/// Finds frames in a stream of bytes. Out of sync it skips everything up to a sync byte.
#[derive(Debug)]
pub struct LowlevelReader {
    pub synced: bool,
}

impl LowlevelReader {
    /// A reader at the start of a stream is out of sync.
    pub fn new() -> (r: LowlevelReader)
        ensures
            !r.synced,
    {
        LowlevelReader { synced: false }
    }

    /// Takes in a byte outside of a frame. Where a frame starts with it, the result is the length
    /// of that frame, this byte included; the rest of it belongs to
    /// [`LowlevelReader::finish`].
    pub fn start(&mut self, next_byte: u8) -> (r: Option<usize>)
        ensures
            final(self).synced == reader_start(old(self).synced, next_byte).0,
            match reader_start(old(self).synced, next_byte).1 {
                Some(n) => r matches Some(k) && k == n,
                None => r is None,
            },
            r matches Some(k) ==> MESSAGE_LENGTH_MIN <= k <= MESSAGE_LENGTH_MAX,
    {
        if next_byte == MESSAGE_VALUE_SYNC {
            self.synced = true;
            return None;
        }
        if !self.synced {
            return None;
        }
        let len: usize = next_byte as usize;
        if !(MESSAGE_LENGTH_MIN <= len && len <= MESSAGE_LENGTH_MAX) {
            self.synced = false;
            return None;
        }
        Some(len)
    }

    /// Takes in all bytes of a frame. A frame that is not sound gives nothing and loses sync.
    pub fn finish(&mut self, buf: &[u8], receive_time: u64) -> (r: Option<Frame>)
        requires
            MESSAGE_LENGTH_MIN <= buf@.len() <= MESSAGE_LENGTH_MAX,
        ensures
            match frame_content(buf@) {
                Some((seq, payload)) => {
                    &&& r matches Some(f)
                    &&& f.receive_time == receive_time
                    &&& f.sequence == seq
                    &&& f.payload@ == payload
                    &&& final(self).synced == old(self).synced
                },
                None => r is None && !final(self).synced,
            },
            r matches Some(f) ==> f.sequence < 16,
    {
        let len: usize = buf.len();
        let seq: u8 = buf[MESSAGE_POSITION_SEQ];
        assert((seq & !0x0Fu8 == 0x10) == (seq / 16 == 1)) by (bit_vector);
        assert(seq & 0x0Fu8 == seq % 16) by (bit_vector);
        if seq & !MESSAGE_SEQ_MASK != MESSAGE_DEST {
            self.synced = false;
            return None;
        }
        let actual_crc: u16 = crc16(&buf[0..len - MESSAGE_TRAILER_SIZE]);
        assert(buf@.subrange(0, len - 3) =~= buf@.take(len - 3));
        let hi: u8 = buf[len - MESSAGE_TRAILER_CRC];
        let lo: u8 = buf[len - MESSAGE_TRAILER_CRC + 1];
        let frame_crc: u16 = (hi as u16) << 8 | (lo as u16);
        assert((hi as u16) << 8 | (lo as u16) == hi * 256 + lo) by (bit_vector);
        if frame_crc != actual_crc {
            self.synced = false;
            return None;
        }
        let payload = vstd::slice::slice_to_vec(
            &buf[MESSAGE_HEADER_SIZE..len - MESSAGE_TRAILER_SIZE],
        );
        Some(Frame { receive_time, sequence: seq & MESSAGE_SEQ_MASK, payload })
    }
}

// ---------------------------------------------------------------------------
// Streams of frames
// ---------------------------------------------------------------------------

/// The sequence bits and payloads of the frames that a reader finds in a stream, in order, up to
/// the last frame that is complete.
pub open spec fn stream_frames(synced: bool, input: Seq<u8>) -> Seq<(u8, Seq<u8>)>
    decreases input.len(),
{
    if input.len() == 0 {
        Seq::empty()
    } else {
        let (s, start) = reader_start(synced, input[0]);
        match start {
            None => stream_frames(s, input.skip(1)),
            Some(n) => if 0 < n <= input.len() {
                match frame_content(input.take(n)) {
                    Some(f) => seq![f] + stream_frames(true, input.skip(n)),
                    None => stream_frames(false, input.skip(n)),
                }
            } else {
                Seq::empty()
            },
        }
    }
}

/// A frame that was written is read back: the low four bits of the sequence number and the
/// payload.
pub proof fn frame_round_trip(sequence: int, payload: Seq<u8>)
    requires
        payload.len() <= MESSAGE_LENGTH_PAYLOAD_MAX,
    ensures
        frame_bytes(sequence, payload).len() == payload.len() + 5,
        reader_start(true, frame_bytes(sequence, payload)[0]) == (
            true,
            Some(frame_bytes(sequence, payload).len() as int),
        ),
        frame_content(frame_bytes(sequence, payload)) == Some(((sequence % 16) as u8, payload)),
{
    let f = frame_bytes(sequence, payload);
    let head = frame_head(sequence, payload);
    let n = f.len();
    assert(f.take(n - 3) =~= head);
    assert(f.subrange(2, n - 3) =~= payload);
    assert(f[1] == sequence_byte(sequence));
    let crc = crc16_of(head);
    assert(f[n - 3] == (crc / 256) as u8);
    assert(f[n - 2] == (crc % 256) as u8);
}

/// A reader in sync that meets a frame finds it, and goes on in sync behind it.
pub proof fn stream_starts_with_frame(sequence: int, payload: Seq<u8>, rest: Seq<u8>)
    requires
        payload.len() <= MESSAGE_LENGTH_PAYLOAD_MAX,
    ensures
        stream_frames(true, frame_bytes(sequence, payload) + rest) == seq![
            ((sequence % 16) as u8, payload),
        ] + stream_frames(true, rest),
{
    frame_round_trip(sequence, payload);
    let f = frame_bytes(sequence, payload);
    let input = f + rest;
    assert(input[0] == f[0]);
    assert(input.take(f.len() as int) =~= f);
    assert(input.skip(f.len() as int) =~= rest);
}

/// A sync byte outside of a frame brings any reader into sync.
pub proof fn stream_starts_with_sync(synced: bool, rest: Seq<u8>)
    ensures
        stream_frames(synced, seq![MESSAGE_VALUE_SYNC] + rest) == stream_frames(true, rest),
{
    let input = seq![MESSAGE_VALUE_SYNC] + rest;
    assert(input[0] == MESSAGE_VALUE_SYNC);
    assert(input.skip(1) =~= rest);
}

// ---------------------------------------------------------------------------
// What frames are made of
// ---------------------------------------------------------------------------

/// The CRC of no bytes is `0xFFFF`, and each byte is taken in by shifts and exclusive ors of what
/// it differs from the low half of the CRC by.
pub proof fn crc_takes_in_bytes(data: Seq<u8>, b: u8)
    ensures
        crc16_of(Seq::empty()) == 0xFFFF,
        ({
            let crc = crc16_of(data);
            let x: u8 = b ^ ((crc & 0xFF) as u8);
            let y: u8 = x ^ (x << 4);
            crc16_of(data.push(b)) == ((y as u16) << 8 | crc >> 8) ^ (y as u16 >> 4) ^ ((y as u16)
                << 3)
        }),
{
    let crc = crc16_of(data);
    let x: u8 = b ^ ((crc & 0xFF) as u8);
    let y: u8 = x ^ (x << 4);
    assert(data.push(b).drop_last() =~= data);
    assert(crc_byte(crc, b) == ((y as u16) << 8 | crc >> 8) ^ (y as u16 >> 4) ^ ((y as u16) << 3))
        by (bit_vector)
        requires
            x == b ^ ((crc & 0xFF) as u8),
            y == x ^ (x << 4),
    ;
}

/// The CRC of bytes with their own CRC behind them, the low byte first, is zero.
pub proof fn crc_of_its_own_crc_is_zero(data: Seq<u8>)
    ensures
        crc16_of(
            data.push((crc16_of(data) % 256) as u8).push((crc16_of(data) / 256) as u8),
        ) == 0,
{
    let crc = crc16_of(data);
    let low = (crc % 256) as u8;
    let high = (crc / 256) as u8;
    crc_takes_in_bytes(data, low);
    crc_takes_in_bytes(data.push(low), high);
    let first = crc16_of(data.push(low));
    let second = crc16_of(data.push(low).push(high));
    let x1: u8 = low ^ ((crc & 0xFF) as u8);
    let y1: u8 = x1 ^ (x1 << 4);
    let x2: u8 = high ^ ((first & 0xFF) as u8);
    let y2: u8 = x2 ^ (x2 << 4);
    assert(second == 0) by (bit_vector)
        requires
            low == (crc % 256) as u8,
            high == (crc / 256) as u8,
            x1 == low ^ ((crc & 0xFF) as u8),
            y1 == x1 ^ (x1 << 4),
            first == ((y1 as u16) << 8 | crc >> 8) ^ (y1 as u16 >> 4) ^ ((y1 as u16) << 3),
            x2 == high ^ ((first & 0xFF) as u8),
            y2 == x2 ^ (x2 << 4),
            second == ((y2 as u16) << 8 | first >> 8) ^ (y2 as u16 >> 4) ^ ((y2 as u16) << 3),
    ;
}

/// A frame is its length, a byte of the destination and the low four bits of the sequence number,
/// the payload, the CRC over all of these with the high byte first, and the sync byte.
pub proof fn frame_is_laid_out(sequence: int, payload: Seq<u8>)
    requires
        payload.len() <= 59,
    ensures
        MESSAGE_LENGTH_PAYLOAD_MAX == 59,
        ({
            let frame = frame_bytes(sequence, payload);
            let n = frame.len() as int;
            let crc = crc16_of(frame.take(n - 3));
            &&& n == payload.len() + 5
            &&& frame[0] == n
            &&& frame[1] == 0x10 + sequence % 16
            &&& frame.subrange(2, n - 3) == payload
            &&& frame[n - 3] == crc / 256
            &&& frame[n - 2] == crc % 256
            &&& frame[n - 1] == 0x7E
        }),
{
    let frame = frame_bytes(sequence, payload);
    let n = frame.len() as int;
    assert(frame.take(n - 3) =~= frame_head(sequence, payload));
    assert(frame.subrange(2, n - 3) =~= payload);
}

/// A sync byte always brings a reader into sync. Out of sync nothing else counts. In sync a length
/// from 5 to 64 starts a frame, and any other byte loses sync.
pub proof fn reader_goes_by_sync_and_length(synced: bool, byte: u8)
    ensures
        byte == 0x7E ==> reader_start(synced, byte) == (true, None::<int>),
        byte != 0x7E && !synced ==> reader_start(synced, byte) == (false, None::<int>),
        byte != 0x7E && synced && 5 <= byte <= 64 ==> reader_start(synced, byte) == (
            true,
            Some(byte as int),
        ),
        byte != 0x7E && synced && !(5 <= byte <= 64) ==> reader_start(synced, byte) == (
            false,
            None::<int>,
        ),
{
}

/// A reader accepts a frame if, and only if, it is addressed to the host and its CRC is right. It
/// then is the very frame that is written for the sequence bits and the payload that were found in
/// it.
pub proof fn accepted_frame_is_one_that_is_written(frame: Seq<u8>)
    requires
        5 <= frame.len() <= 64,
        frame[0] == frame.len(),
        frame[frame.len() - 1] == 0x7E,
    ensures
        frame_content(frame) is Some <==> 0x10 <= frame[1] < 0x20 && frame[frame.len() - 3] as int
            * 256 + frame[frame.len() - 2] as int == crc16_of(frame.take(frame.len() - 3)),
        frame_content(frame) matches Some((bits, payload)) ==> {
            &&& bits < 16
            &&& payload.len() + 5 == frame.len()
            &&& frame == frame_bytes(bits as int, payload)
        },
{
    let n = frame.len() as int;
    if let Some((bits, payload)) = frame_content(frame) {
        let head = frame_head(bits as int, payload);
        assert(frame.take(n - 3) =~= head);
        assert(frame =~= frame_bytes(bits as int, payload));
    }
}

} // verus!
