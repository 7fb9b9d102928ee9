//! Length-prefixed frames: four bytes of little-endian length, then the payload.

use vstd::prelude::*;

verus! {

/// Why a byte stream is not a run of complete frames.
#[derive(Debug, Clone, Copy, PartialEq, Eq)]
pub enum FormatError {
    /// The stream ends inside a length prefix: one to three bytes are left.
    TruncatedPrefix,
    /// The stream ends before the payload that the prefix announced is complete.
    TruncatedPayload,
}

impl FormatError {
    /// What is wrong with the stream, in words.
    pub fn message(&self) -> (text: &'static str)
        ensures
            text@ == match *self {
                FormatError::TruncatedPrefix => "truncated frame: the length prefix is cut short"@,
                FormatError::TruncatedPayload => "truncated frame: the payload is cut short"@,
            },
    {
        match self {
            FormatError::TruncatedPrefix => "truncated frame: the length prefix is cut short",
            FormatError::TruncatedPayload => "truncated frame: the payload is cut short",
        }
    }
}

/// The width of a length prefix in bytes.
pub const PREFIX_LEN: usize = 4;

/// The largest payload length that a prefix can announce.
pub const MAX_PAYLOAD_LEN: usize = 0xFFFF_FFFF;

/// The number that the first four bytes of `s` announce, little-endian.
pub open spec fn announced_len(s: Seq<u8>) -> nat
    recommends
        s.len() >= 4,
{
    (s[0] as nat) + 256 * (s[1] as nat) + 65536 * (s[2] as nat) + 16777216 * (s[3] as nat)
}

/// The four-byte little-endian prefix that announces `n`.
pub open spec fn length_prefix(n: nat) -> Seq<u8>
    recommends
        n <= MAX_PAYLOAD_LEN,
{
    seq![
        (n % 256) as u8,
        ((n / 256) % 256) as u8,
        ((n / 65536) % 256) as u8,
        ((n / 16777216) % 256) as u8,
    ]
}

/// One frame: the prefix of the payload's length, then the payload.
pub open spec fn encode_frame(payload: Seq<u8>) -> Seq<u8> {
    length_prefix(payload.len()) + payload
}

/// The frames of `payloads`, one after the other.
pub open spec fn encode_frames(payloads: Seq<Seq<u8>>) -> Seq<u8>
    decreases payloads.len(),
{
    if payloads.len() == 0 {
        Seq::empty()
    } else {
        encode_frame(payloads[0]) + encode_frames(payloads.drop_first())
    }
}

/// Every payload is short enough for its length to fit a prefix.
pub open spec fn encodable(payloads: Seq<Seq<u8>>) -> bool {
    forall|i: int| 0 <= i < payloads.len() ==> (#[trigger] payloads[i]).len() <= MAX_PAYLOAD_LEN
}

/// The frame at the head of a byte stream: its payload, nothing where the
/// stream is at its end, or the way in which the frame is cut short.
pub open spec fn head_frame(bytes: Seq<u8>) -> Result<Option<Seq<u8>>, FormatError> {
    if bytes.len() == 0 {
        Ok(None)
    } else if bytes.len() < 4 {
        Err(FormatError::TruncatedPrefix)
    } else if bytes.len() - 4 < announced_len(bytes) {
        Err(FormatError::TruncatedPayload)
    } else {
        Ok(Some(bytes.subrange(4, 4 + announced_len(bytes) as int)))
    }
}

/// What a byte stream decodes to: the payloads of its frames in order, or the
/// way in which the first incomplete frame is cut short. An empty stream holds
/// no frame and is complete.
pub open spec fn decode_frames(bytes: Seq<u8>) -> Result<Seq<Seq<u8>>, FormatError>
    decreases bytes.len(),
{
    match head_frame(bytes) {
        Ok(Some(payload)) => match decode_frames(bytes.skip(4 + payload.len() as int)) {
            Ok(rest) => Ok(seq![payload] + rest),
            Err(e) => Err(e),
        },
        Ok(None) => Ok(Seq::empty()),
        Err(e) => Err(e),
    }
}

/// The contents of each buffer of `bufs`.
pub open spec fn contents(bufs: Seq<Vec<u8>>) -> Seq<Seq<u8>> {
    Seq::new(bufs.len(), |i: int| bufs[i]@)
}

/// What is decoded from `rest`, put behind the payloads already found.
spec fn resume(done: Seq<Seq<u8>>, rest: Seq<u8>) -> Result<Seq<Seq<u8>>, FormatError> {
    match decode_frames(rest) {
        Ok(more) => Ok(done + more),
        Err(e) => Err(e),
    }
}

/// The outcome of reading one frame, with the payload taken by its contents.
pub open spec fn payload_of(r: Result<Option<Vec<u8>>, FormatError>) -> Result<
    Option<Seq<u8>>,
    FormatError,
> {
    match r {
        Ok(Some(payload)) => Ok(Some(payload@)),
        Ok(None) => Ok(None),
        Err(e) => Err(e),
    }
}

/// Reads the frames of a byte stream one at a time, front to back. It cannot
/// be set back.
pub struct FrameReader<'a> {
    bytes: &'a [u8],
    pos: usize,
}

impl<'a> FrameReader<'a> {
    #[verifier::type_invariant]
    spec fn within_stream(self) -> bool {
        self.pos <= self.bytes@.len()
    }

    /// The bytes that are not read yet.
    pub closed spec fn remaining(self) -> Seq<u8> {
        self.bytes@.skip(self.pos as int)
    }

    /// A reader at the start of `bytes`.
    pub fn new(bytes: &'a [u8]) -> (reader: Self)
        ensures
            reader.remaining() == bytes@,
    {
        assert(bytes@.skip(0) =~= bytes@);
        FrameReader { bytes, pos: 0 }
    }

    /// Reads the next frame and returns its payload, or nothing at the end of
    /// the stream. A frame that is cut short is reported and not read: the
    /// reader stays where it is.
    pub fn next_frame(&mut self) -> (r: Result<Option<Vec<u8>>, FormatError>)
        ensures
            head_frame(old(self).remaining()) == payload_of(r),
            final(self).remaining() == match r {
                Ok(Some(payload)) => old(self).remaining().skip(4 + payload@.len() as int),
                _ => old(self).remaining(),
            },
    {
        proof {
            use_type_invariant(&*self);
        }
        let bytes = self.bytes;
        let pos: usize = self.pos;
        let left: usize = bytes.len() - pos;
        let ghost tail = bytes@.skip(pos as int);
        if left == 0 {
            return Ok(None);
        }
        if left < PREFIX_LEN {
            return Err(FormatError::TruncatedPrefix);
        }
        let size: u64 = (bytes[pos] as u64) + 256 * (bytes[pos + 1] as u64) + 65536 * (bytes[pos
            + 2] as u64) + 16777216 * (bytes[pos + 3] as u64);
        assert(size == announced_len(tail));
        if size > (left - PREFIX_LEN) as u64 {
            return Err(FormatError::TruncatedPayload);
        }
        let start: usize = pos + PREFIX_LEN;
        let end: usize = start + size as usize;
        let payload = vstd::slice::slice_to_vec(vstd::slice::slice_subrange(bytes, start, end));
        assert(tail.subrange(4, 4 + size as int) =~= payload@);
        assert(tail.skip(4 + size as int) =~= bytes@.skip(end as int));
        self.pos = end;
        Ok(Some(payload))
    }
}

/// Splits a byte stream into the payloads of its frames.
///
/// Returns the payloads in stream order when the stream ends on a frame
/// boundary, and otherwise says how the first incomplete frame is cut short.
pub fn read_frames(bytes: &[u8]) -> (r: Result<Vec<Vec<u8>>, FormatError>)
    ensures
        match r {
            Ok(payloads) => decode_frames(bytes@) == Ok::<Seq<Seq<u8>>, FormatError>(
                contents(payloads@),
            ),
            Err(e) => decode_frames(bytes@) == Err::<Seq<Seq<u8>>, FormatError>(e),
        },
{
    let mut payloads: Vec<Vec<u8>> = Vec::new();
    let mut reader = FrameReader::new(bytes);
    assert(contents(payloads@) + decode_frames(bytes@)->Ok_0 =~= decode_frames(bytes@)->Ok_0);
    loop
        invariant
            decode_frames(bytes@) == resume(contents(payloads@), reader.remaining()),
        decreases reader.remaining().len(),
    {
        let ghost done = contents(payloads@);
        let ghost tail = reader.remaining();
        match reader.next_frame() {
            Err(e) => {
                return Err(e);
            },
            Ok(None) => {
                assert(done + Seq::<Seq<u8>>::empty() =~= done);
                return Ok(payloads);
            },
            Ok(Some(payload)) => {
                proof {
                    let more = decode_frames(reader.remaining());
                    assert(contents(payloads@.push(payload)) =~= done.push(payload@));
                    if more is Ok {
                        assert(done + (seq![payload@] + more->Ok_0) =~= done.push(payload@)
                            + more->Ok_0);
                    }
                }
                payloads.push(payload);
            },
        }
    }
}

/// Why a byte stream could not be turned into records: a frame is cut short,
/// or the decoder refused a payload.
#[derive(Debug, PartialEq, Eq)]
pub enum LoadError<E> {
    /// A frame of the stream is cut short.
    Format(FormatError),
    /// A payload did not parse; the decoder's own error is kept.
    Decode(E),
}

/// The payloads of the complete frames at the head of a byte stream: all of
/// its frames where the stream is whole, and those before the incomplete one
/// where it is cut short.
pub open spec fn complete_frames(bytes: Seq<u8>) -> Seq<Seq<u8>>
    decreases bytes.len(),
{
    match head_frame(bytes) {
        Ok(Some(payload)) => seq![payload] + complete_frames(
            bytes.skip(4 + payload.len() as int),
        ),
        _ => Seq::empty(),
    }
}

/// `decode` can answer `outcome` when it is given a payload with the contents
/// `payload`.
pub open spec fn decodes_to<G, E, F: Fn(Vec<u8>) -> Result<G, E>>(
    decode: F,
    payload: Seq<u8>,
    outcome: Result<G, E>,
) -> bool {
    exists|buf: Vec<u8>| buf@ == payload && #[trigger] decode.ensures((buf,), outcome)
}

/// `decode` answered each of `payloads` with the record of `records` at the
/// same place.
pub open spec fn decoded_each<G, E, F: Fn(Vec<u8>) -> Result<G, E>>(
    decode: F,
    payloads: Seq<Seq<u8>>,
    records: Seq<G>,
) -> bool {
    &&& records.len() == payloads.len()
    &&& forall|i: int|
        0 <= i < payloads.len() ==> decodes_to(
            decode,
            #[trigger] payloads[i],
            Ok::<G, E>(records[i]),
        )
}

/// Decodes a byte stream of frames into records, one per frame and in stream
/// order, by handing each payload to `decode` as soon as its frame is read.
///
/// The first failure in stream order ends the work: a payload that `decode`
/// refuses, or a frame that is cut short. Every frame before it was complete
/// and was decoded.
pub fn read_pb_stream<G, E, F: Fn(Vec<u8>) -> Result<G, E>>(bytes: &[u8], decode: F) -> (r: Result<
    Vec<G>,
    LoadError<E>,
>)
    requires
        forall|buf: Vec<u8>| decode.requires((buf,)),
    ensures
        match r {
            Ok(records) => decode_frames(bytes@) is Ok && decoded_each(
                decode,
                complete_frames(bytes@),
                records@,
            ),
            Err(LoadError::Format(e)) => decode_frames(bytes@) == Err::<Seq<Seq<u8>>, FormatError>(
                e,
            ) && exists|records: Seq<G>| decoded_each(decode, complete_frames(bytes@), records),
            Err(LoadError::Decode(e)) => exists|k: int, records: Seq<G>|
                0 <= k < complete_frames(bytes@).len() && decodes_to(
                    decode,
                    #[trigger] complete_frames(bytes@)[k],
                    Err::<G, E>(e),
                ) && #[trigger] decoded_each(decode, complete_frames(bytes@).take(k), records),
        },
{
    let mut records: Vec<G> = Vec::new();
    let mut reader = FrameReader::new(bytes);
    let ghost mut done: Seq<Seq<u8>> = Seq::empty();
    proof {
        assert(done + complete_frames(bytes@) =~= complete_frames(bytes@));
        assert(done + decode_frames(bytes@)->Ok_0 =~= decode_frames(bytes@)->Ok_0);
    }
    loop
        invariant
            forall|buf: Vec<u8>| decode.requires((buf,)),
            decode_frames(bytes@) == resume(done, reader.remaining()),
            complete_frames(bytes@) == done + complete_frames(reader.remaining()),
            decoded_each(decode, done, records@),
        decreases reader.remaining().len(),
    {
        let ghost before = records@;
        match reader.next_frame() {
            Err(e) => {
                assert(done + Seq::<Seq<u8>>::empty() =~= done);
                return Err(LoadError::Format(e));
            },
            Ok(None) => {
                assert(done + Seq::<Seq<u8>>::empty() =~= done);
                return Ok(records);
            },
            Ok(Some(payload)) => {
                let ghost contents = payload@;
                let ghost more = complete_frames(reader.remaining());
                let ghost rest = decode_frames(reader.remaining());
                proof {
                    assert(done + (seq![contents] + more) =~= done.push(contents) + more);
                    if rest is Ok {
                        assert(done + (seq![contents] + rest->Ok_0) =~= done.push(contents)
                            + rest->Ok_0);
                    }
                }
                match decode(payload) {
                    Ok(record) => {
                        records.push(record);
                        proof {
                            assert(decodes_to(decode, contents, Ok::<G, E>(record)));
                            done = done.push(contents);
                        }
                    },
                    Err(e) => {
                        proof {
                            let all = complete_frames(bytes@);
                            let k = done.len() as int;
                            assert(decodes_to(decode, contents, Err::<G, E>(e)));
                            assert(all[k] == contents);
                            assert(all.take(k) =~= done);
                        }
                        return Err(LoadError::Decode(e));
                    },
                }
            },
        }
    }
}

/// A prefix announces the length it was made from.
pub proof fn lemma_prefix_announces(n: nat, rest: Seq<u8>)
    requires
        n <= MAX_PAYLOAD_LEN,
    ensures
        length_prefix(n).len() == 4,
        announced_len(length_prefix(n) + rest) == n,
{
    let p = length_prefix(n);
    let s = p + rest;
    assert(s[0] == p[0] && s[1] == p[1] && s[2] == p[2] && s[3] == p[3]);
    assert(n == (n % 256) + 256 * ((n / 256) % 256) + 65536 * ((n / 65536) % 256) + 16777216 * ((n
        / 16777216) % 256));
}

/// The complete frames of a stream that is whole are all of its frames.
pub proof fn lemma_whole_stream_is_complete(bytes: Seq<u8>)
    ensures
        decode_frames(bytes) matches Ok(payloads) ==> complete_frames(bytes) == payloads,
    decreases bytes.len(),
{
    if let Ok(Some(payload)) = head_frame(bytes) {
        lemma_whole_stream_is_complete(bytes.skip(4 + payload.len() as int));
    }
}

/// Decoding the frames of `payloads` gives `payloads` back, in content and
/// order: the stream is whole, and its frames hold exactly `payloads`.
pub proof fn lemma_round_trip(payloads: Seq<Seq<u8>>)
    requires
        encodable(payloads),
    ensures
        decode_frames(encode_frames(payloads)) == Ok::<Seq<Seq<u8>>, FormatError>(payloads),
        complete_frames(encode_frames(payloads)) == payloads,
{
    lemma_round_trip_frames(payloads);
    lemma_whole_stream_is_complete(encode_frames(payloads));
}

proof fn lemma_round_trip_frames(payloads: Seq<Seq<u8>>)
    requires
        encodable(payloads),
    ensures
        decode_frames(encode_frames(payloads)) == Ok::<Seq<Seq<u8>>, FormatError>(payloads),
    decreases payloads.len(),
{
    if payloads.len() == 0 {
        assert(payloads =~= Seq::empty());
    } else {
        let first = payloads[0];
        let others = payloads.drop_first();
        let n = first.len();
        let tail = first + encode_frames(others);
        let bytes = encode_frames(payloads);
        assert(bytes =~= length_prefix(n) + tail);
        lemma_prefix_announces(n, tail);
        assert(encodable(others)) by {
            assert forall|i: int| 0 <= i < others.len() implies (#[trigger] others[i]).len()
                <= MAX_PAYLOAD_LEN by {
                assert(others[i] == payloads[i + 1]);
            }
        }
        lemma_round_trip_frames(others);
        assert(bytes.skip(4 + n as int) =~= encode_frames(others));
        assert(bytes.subrange(4, 4 + n as int) =~= first);
        assert(seq![first] + others =~= payloads);
    }
}

/// Whether `cut` bytes into the frames of `payloads` is a frame boundary: the
/// start of the stream, or the end of one of its frames.
pub open spec fn on_frame_boundary(payloads: Seq<Seq<u8>>, cut: int) -> bool
    decreases payloads.len(),
{
    cut == 0 || (payloads.len() > 0 && cut >= 4 + payloads[0].len() && on_frame_boundary(
        payloads.drop_first(),
        cut - 4 - payloads[0].len(),
    ))
}

/// The payloads of `payloads` whose frames end within the first `cut` bytes
/// of their stream.
pub open spec fn frames_within(payloads: Seq<Seq<u8>>, cut: int) -> Seq<Seq<u8>>
    decreases payloads.len(),
{
    if payloads.len() > 0 && cut >= 4 + payloads[0].len() {
        seq![payloads[0]] + frames_within(payloads.drop_first(), cut - 4 - payloads[0].len())
    } else {
        Seq::empty()
    }
}

/// A stream of frames that is cut off after `cut` bytes decodes if and only if
/// the cut falls on a frame boundary. Cut anywhere else, inside a prefix or
/// inside a payload, it is rejected. Either way its complete frames are the
/// frames that end before the cut, unchanged and in order.
pub proof fn lemma_truncation_detected(payloads: Seq<Seq<u8>>, cut: int)
    requires
        encodable(payloads),
        0 <= cut <= encode_frames(payloads).len(),
    ensures
        decode_frames(encode_frames(payloads).take(cut)) is Ok <==> on_frame_boundary(
            payloads,
            cut,
        ),
        complete_frames(encode_frames(payloads).take(cut)) == frames_within(payloads, cut),
    decreases payloads.len(),
{
    let bytes = encode_frames(payloads);
    let kept = bytes.take(cut);
    if cut == 0 {
    } else {
        assert(payloads.len() > 0);
        let first = payloads[0];
        let others = payloads.drop_first();
        let n = first.len();
        let tail = first + encode_frames(others);
        assert(bytes =~= length_prefix(n) + tail);
        lemma_prefix_announces(n, tail);
        if cut < 4 {
        } else {
            assert(kept =~= length_prefix(n) + tail.take(cut - 4));
            lemma_prefix_announces(n, tail.take(cut - 4));
            if cut - 4 < n {
            } else {
                assert(encodable(others)) by {
                    assert forall|i: int| 0 <= i < others.len() implies (#[trigger] others[i]).len()
                        <= MAX_PAYLOAD_LEN by {
                        assert(others[i] == payloads[i + 1]);
                    }
                }
                assert(kept.subrange(4, 4 + n as int) =~= first);
                assert(kept.skip(4 + n as int) =~= encode_frames(others).take(cut - 4 - n));
                lemma_truncation_detected(others, cut - 4 - n);
            }
        }
    }
}

} // verus!
