//! CRYPTO frames: finding them in a packet's plaintext, and putting the
//! handshake stream together from what they carry.

use vstd::prelude::*;

use crate::error::PacketError;
use crate::varint;

verus! {

/// Maximum assembled CRYPTO data size (8 KB).
pub const MAX_CRYPTO_ASSEMBLER_SIZE: usize = 8192;

/// A CRYPTO frame segment extracted from a decrypted Initial packet.
#[derive(Debug)]
pub struct CryptoSegment {
    pub offset: usize,
    pub data: Vec<u8>,
}

/// A stretch of the handshake stream: where it starts and what it holds.
#[verifier::ext_equal]
pub struct SegmentView {
    pub offset: nat,
    pub data: Seq<u8>,
}

impl View for CryptoSegment {
    type V = SegmentView;

    open spec fn view(&self) -> SegmentView {
        SegmentView { offset: self.offset as nat, data: self.data@ }
    }
}

impl Clone for CryptoSegment {
    fn clone(&self) -> (c: CryptoSegment)
        ensures
            c@ == self@,
    {
        let data = self.data.clone();
        assert(data@ =~= self.data@);
        CryptoSegment { offset: self.offset, data }
    }
}

/// The views of a list of segments.
pub open spec fn segment_views(segments: Seq<CryptoSegment>) -> Seq<SegmentView> {
    Seq::new(segments.len(), |i: int| segments[i]@)
}

/// The stream after one more segment, where a position that nothing has been
/// received for is `None`. A segment that ends beyond the maximum size is
/// dropped; any other overwrites what it covers.
pub open spec fn with_segment(stream: Seq<Option<u8>>, segment: SegmentView) -> Seq<Option<u8>> {
    let end = segment.offset + segment.data.len();
    if end > MAX_CRYPTO_ASSEMBLER_SIZE {
        stream
    } else {
        Seq::new(
            if end > stream.len() {
                end
            } else {
                stream.len()
            },
            |i: int|
                if segment.offset <= i < end {
                    Some(segment.data[i - segment.offset])
                } else if i < stream.len() {
                    stream[i]
                } else {
                    None
                },
        )
    }
}

/// The stream after segments have been added in order.
pub open spec fn with_segments(
    stream: Seq<Option<u8>>,
    segments: Seq<SegmentView>,
) -> Seq<Option<u8>>
    decreases segments.len(),
{
    if segments.len() == 0 {
        stream
    } else {
        with_segment(with_segments(stream, segments.drop_last()), segments.last())
    }
}

/// How many bytes have been received without a gap from the start.
pub open spec fn received_len(stream: Seq<Option<u8>>) -> nat
    decreases stream.len(),
{
    if stream.len() == 0 || stream[0] is None {
        0
    } else {
        1 + received_len(stream.skip(1))
    }
}

/// The bytes received without a gap from the start.
pub open spec fn received(stream: Seq<Option<u8>>) -> Seq<u8> {
    Seq::new(received_len(stream), |i: int| stream[i]->0)
}

proof fn lemma_received_len(stream: Seq<Option<u8>>, n: int)
    requires
        0 <= n <= stream.len(),
        forall|i: int| 0 <= i < n ==> stream[i] is Some,
        n < stream.len() ==> stream[n] is None,
    ensures
        received_len(stream) == n,
    decreases n,
{
    if n > 0 {
        let rest = stream.skip(1);
        assert forall|i: int| 0 <= i < n - 1 implies rest[i] is Some by {
            assert(rest[i] == stream[i + 1]);
        }
        lemma_received_len(rest, n - 1);
    }
}

proof fn lemma_received_prefix(stream: Seq<Option<u8>>)
    ensures
        received_len(stream) <= stream.len(),
        forall|i: int| 0 <= i < received_len(stream) ==> stream[i] is Some,
        received_len(stream) < stream.len() ==> stream[received_len(stream) as int] is None,
    decreases stream.len(),
{
    if stream.len() > 0 && stream[0] is Some {
        let rest = stream.skip(1);
        lemma_received_prefix(rest);
        assert forall|i: int| 0 <= i < received_len(stream) implies stream[i] is Some by {
            if i > 0 {
                assert(rest[i - 1] == stream[i]);
            }
        }
    }
}

/// Whether `segment` carries a stretch of `message`.
pub open spec fn is_part_of(segment: SegmentView, message: Seq<u8>) -> bool {
    &&& segment.offset + segment.data.len() <= message.len()
    &&& segment.data == message.subrange(
        segment.offset as int,
        (segment.offset + segment.data.len()) as int,
    )
}

/// Whether `segment` covers position `i` of the stream.
pub open spec fn covers(segment: SegmentView, i: int) -> bool {
    segment.offset <= i < segment.offset + segment.data.len()
}

/// Whether one of the segments covers position `i` of the stream.
pub open spec fn any_covers(segments: Seq<SegmentView>, i: int) -> bool {
    exists|k: int| 0 <= k < segments.len() && #[trigger] covers(segments[k], i)
}

/// What parts of a message leave in an empty stream: at each position the
/// message's byte if a part covers it, and nothing otherwise.
proof fn lemma_parts_of_message(message: Seq<u8>, segments: Seq<SegmentView>)
    requires
        message.len() <= MAX_CRYPTO_ASSEMBLER_SIZE,
        forall|k: int| 0 <= k < segments.len() ==> is_part_of(#[trigger] segments[k], message),
    ensures
        ({
            let stream = with_segments(Seq::empty(), segments);
            &&& stream.len() <= message.len()
            &&& forall|i: int|
                0 <= i < stream.len() ==> (#[trigger] stream[i] is Some ==> stream[i] == Some(
                    message[i],
                ))
            &&& forall|i: int, k: int|
                0 <= k < segments.len() && covers(#[trigger] segments[k], i) ==> i < stream.len()
                    && #[trigger] stream[i] is Some
        }),
    decreases segments.len(),
{
    if segments.len() > 0 {
        let before = with_segments(Seq::empty(), segments.drop_last());
        let last = segments.last();
        let stream = with_segments(Seq::empty(), segments);
        lemma_parts_of_message(message, segments.drop_last());
        assert(is_part_of(last, message));
        assert forall|i: int, k: int|
            0 <= k < segments.len() && covers(#[trigger] segments[k], i) implies i < stream.len()
            && #[trigger] stream[i] is Some by {
            if k < segments.len() - 1 {
                assert(covers(segments.drop_last()[k], i));
                assert(before[i] is Some);
            }
        }
    }
}

/// Segments that carry parts of one message, in whatever order and with
/// whatever overlap, give the start of that message back, and all of it once
/// they cover it.
pub proof fn segments_give_the_message(message: Seq<u8>, segments: Seq<SegmentView>)
    requires
        message.len() <= MAX_CRYPTO_ASSEMBLER_SIZE,
        forall|k: int| 0 <= k < segments.len() ==> is_part_of(#[trigger] segments[k], message),
    ensures
        ({
            let data = received(with_segments(Seq::empty(), segments));
            &&& data == message.take(data.len() as int)
            &&& (forall|i: int| 0 <= i < message.len() ==> any_covers(segments, i)) ==> data
                == message
        }),
{
    let stream = with_segments(Seq::empty(), segments);
    let data = received(stream);
    lemma_parts_of_message(message, segments);
    lemma_received_prefix(stream);
    assert forall|i: int| 0 <= i < data.len() implies data[i] == message[i] by {
        assert(stream[i] is Some);
    }
    assert(data =~= message.take(data.len() as int));
    if forall|i: int| 0 <= i < message.len() ==> any_covers(segments, i) {
        if data.len() < message.len() {
            let i = data.len() as int;
            assert(any_covers(segments, i));
            let k = choose|k: int| 0 <= k < segments.len() && #[trigger] covers(segments[k], i);
            assert(stream[i] is Some);
            assert(false);
        }
        assert(data =~= message);
    }
}

/// Adding segments never takes back what has been received.
pub proof fn received_only_grows(stream: Seq<Option<u8>>, segments: Seq<SegmentView>)
    ensures
        received_len(stream) <= received_len(with_segments(stream, segments)),
    decreases segments.len(),
{
    if segments.len() > 0 {
        let before = with_segments(stream, segments.drop_last());
        let after = with_segments(stream, segments);
        received_only_grows(stream, segments.drop_last());
        lemma_received_prefix(before);
        lemma_received_prefix(after);
        if received_len(after) < received_len(before) {
            assert(before[received_len(after) as int] is Some);
            assert(after[received_len(after) as int] is Some);
        }
    }
}

/// It makes no difference whether segments come in one packet or in several.
pub proof fn segments_may_come_apart(
    stream: Seq<Option<u8>>,
    a: Seq<SegmentView>,
    b: Seq<SegmentView>,
)
    ensures
        with_segments(with_segments(stream, a), b) == with_segments(stream, a + b),
    decreases b.len(),
{
    if b.len() == 0 {
        assert(a + b =~= a);
    } else {
        assert((a + b).drop_last() =~= a + b.drop_last());
        segments_may_come_apart(stream, a, b.drop_last());
    }
}

/// A segment that arrives again changes nothing.
pub proof fn repeated_segment_changes_nothing(stream: Seq<Option<u8>>, segment: SegmentView)
    ensures
        with_segment(with_segment(stream, segment), segment) == with_segment(stream, segment),
{
    assert(with_segment(with_segment(stream, segment), segment) =~= with_segment(stream, segment));
}

/// Assembler for CRYPTO frame data that tracks which byte ranges are covered.
/// Its view is the stream so far.
pub struct CryptoAssembler {
    data: Vec<u8>,
    covered: Vec<bool>,
}

impl View for CryptoAssembler {
    type V = Seq<Option<u8>>;

    closed spec fn view(&self) -> Seq<Option<u8>> {
        Seq::new(
            self.data@.len(),
            |i: int|
                if self.covered@[i] {
                    Some(self.data@[i])
                } else {
                    None
                },
        )
    }
}

impl CryptoAssembler {
    /// Every byte has its mark, and there are no more than the maximum.
    pub closed spec fn wf(&self) -> bool {
        &&& self.data@.len() == self.covered@.len()
        &&& self.data@.len() <= MAX_CRYPTO_ASSEMBLER_SIZE
    }

    pub fn new() -> (a: CryptoAssembler)
        ensures
            a.wf(),
            a@ == Seq::<Option<u8>>::empty(),
    {
        let a = CryptoAssembler { data: Vec::new(), covered: Vec::new() };
        assert(a@ =~= Seq::<Option<u8>>::empty());
        a
    }

    /// Adds one segment.
    fn add_segment(&mut self, segment: &CryptoSegment)
        requires
            old(self).wf(),
        ensures
            final(self).wf(),
            final(self)@ == with_segment(old(self)@, segment@),
    {
        let len = segment.data.len();
        if len > MAX_CRYPTO_ASSEMBLER_SIZE || segment.offset > MAX_CRYPTO_ASSEMBLER_SIZE - len {
            return;
        }
        let start = segment.offset;
        let end = start + len;
        if end > self.data.len() {
            self.data.resize(end, 0);
            self.covered.resize(end, false);
            assert forall|i: int| 0 <= i < old(self).data@.len() implies self.data@[i] == old(
                self,
            ).data@[i] && self.covered@[i] == old(self).covered@[i] by {
                assert(self.data@.subrange(0, old(self).data@.len() as int)[i] == self.data@[i]);
                assert(self.covered@.subrange(0, old(self).data@.len() as int)[i]
                    == self.covered@[i]);
            }
            assert forall|i: int| old(self).data@.len() <= i < end implies !self.covered@[i] by {
                assert(cloned::<bool>(false, self.covered@[i]));
            }
        }
        let ghost grown = *self;
        let mut i: usize = start;
        while i < end
            invariant
                start <= i <= end,
                end == start + len,
                len == segment.data@.len(),
                end <= MAX_CRYPTO_ASSEMBLER_SIZE,
                self.data@.len() == grown.data@.len(),
                self.covered@.len() == grown.data@.len(),
                end <= grown.data@.len(),
                forall|j: int|
                    0 <= j < self.data@.len() ==> #[trigger] self.data@[j] == if start <= j < i {
                        segment.data@[j - start]
                    } else {
                        grown.data@[j]
                    },
                forall|j: int|
                    0 <= j < self.data@.len() ==> #[trigger] self.covered@[j] == if start <= j < i {
                        true
                    } else {
                        grown.covered@[j]
                    },
            decreases end - i,
        {
            self.data[i] = segment.data[i - start];
            self.covered[i] = true;
            i = i + 1;
        }
        assert(self@ =~= with_segment(old(self)@, segment@));
    }

    /// Adds segments in order. One that would end beyond the maximum size is
    /// dropped.
    pub fn add_segments(&mut self, segments: &[CryptoSegment])
        requires
            old(self).wf(),
        ensures
            final(self).wf(),
            final(self)@ == with_segments(old(self)@, segment_views(segments@)),
    {
        let ghost views = segment_views(segments@);
        let mut i: usize = 0;
        assert(views.take(0) =~= Seq::<SegmentView>::empty());
        while i < segments.len()
            invariant
                0 <= i <= segments@.len(),
                views == segment_views(segments@),
                self.wf(),
                self@ == with_segments(old(self)@, views.take(i as int)),
            decreases segments@.len() - i,
        {
            assert(views.take(i + 1).drop_last() =~= views.take(i as int));
            self.add_segment(&segments[i]);
            i = i + 1;
        }
        assert(views.take(views.len() as int) =~= views);
    }

    /// How many bytes have been received without a gap from the start.
    pub fn contiguous_len(&self) -> (n: usize)
        requires
            self.wf(),
        ensures
            n == received_len(self@),
            n <= self@.len(),
    {
        let mut n: usize = 0;
        while n < self.covered.len() && self.covered[n]
            invariant
                self.wf(),
                0 <= n <= self.covered@.len(),
                forall|i: int| 0 <= i < n ==> self.covered@[i],
            decreases self.covered@.len() - n,
        {
            n = n + 1;
        }
        proof {
            lemma_received_len(self@, n as int);
        }
        n
    }

    /// The bytes received without a gap from the start.
    pub fn contiguous_data(&self) -> (bytes: &[u8])
        requires
            self.wf(),
        ensures
            bytes@ == received(self@),
    {
        let n = self.contiguous_len();
        let bytes = &self.data.as_slice()[0..n];
        proof {
            lemma_received_prefix(self@);
            assert forall|i: int| 0 <= i < n implies bytes@[i] == self@[i]->0 by {
                assert(self@[i] is Some);
            }
        }
        assert(bytes@ =~= received(self@));
        bytes
    }
}

/// How many bytes `n` integers at the start of `s` take up, or nothing if `s`
/// ends before they do.
pub open spec fn varints_len(s: Seq<u8>, n: nat) -> Option<nat>
    decreases n,
{
    if n == 0 {
        Some(0)
    } else {
        match varint::varint_at(s, 0) {
            Err(_) => None,
            Ok((_, size)) => match varints_len(s.skip(size as int), (n - 1) as nat) {
                None => None,
                Some(len) => Some(size + len),
            },
        }
    }
}

/// How many bytes the body of an ACK frame at the start of `s` takes up, behind
/// the frame type, or nothing if it is cut short: the largest packet number, the
/// delay, the number of further ranges, the first range, two integers for each
/// further range, and three counts if the frame has them.
#[verifier::opaque]
pub open spec fn ack_frame_len(s: Seq<u8>, with_counts: bool) -> Option<nat> {
    match varints_len(s, 2) {
        None => None,
        Some(before) => match varint::varint_at(s, before as int) {
            Err(_) => None,
            Ok((ranges, size)) => match varints_len(
                s.skip((before + size) as int),
                ack_fields(ranges, with_counts),
            ) {
                None => None,
                Some(rest) => Some(before + size + rest),
            },
        },
    }
}

/// How many integers an ACK frame holds behind the number of further ranges.
pub open spec fn ack_fields(ranges: nat, with_counts: bool) -> nat {
    1 + 2 * ranges + if with_counts {
        3nat
    } else {
        0nat
    }
}

proof fn lemma_varints_len(s: Seq<u8>, n: nat)
    ensures
        varints_len(s, n) matches Some(len) ==> len <= s.len(),
    decreases n,
{
    if n > 0 {
        if let Ok((_, size)) = varint::varint_at(s, 0) {
            lemma_varints_len(s.skip(size as int), (n - 1) as nat);
        }
    }
}

/// An ACK frame does not reach beyond the data.
pub proof fn lemma_ack_frame_len(s: Seq<u8>, with_counts: bool)
    ensures
        ack_frame_len(s, with_counts) matches Some(len) ==> len <= s.len(),
{
    reveal(ack_frame_len);
    lemma_varints_len(s, 2);
    if let Some(before) = varints_len(s, 2) {
        if let Ok((ranges, size)) = varint::varint_at(s, before as int) {
            lemma_varints_len(s.skip((before + size) as int), ack_fields(ranges, with_counts));
        }
    }
}

/// What a list of frames carries in its CRYPTO frames (6). PADDING (0), PING (1)
/// and ACK (2, or 3 with counts) frames are passed over. Any other frame ends
/// the list, and so does an ACK frame that is cut short.
pub open spec fn crypto_frames(s: Seq<u8>) -> Result<Seq<SegmentView>, PacketError>
    decreases s.len(),
{
    if s.len() == 0 {
        Ok(Seq::empty())
    } else {
        match varint::varint_at(s, 0) {
            Err(e) => Err(e),
            Ok((frame_type, size)) => if frame_type == 0 || frame_type == 1 {
                crypto_frames(s.skip(size as int))
            } else if frame_type == 2 || frame_type == 3 {
                match ack_frame_len(s.skip(size as int), frame_type == 3) {
                    None => Ok(Seq::empty()),
                    Some(len) => {
                        proof {
                            lemma_ack_frame_len(s.skip(size as int), frame_type == 3);
                        }
                        crypto_frames(s.skip(size as int).skip(len as int))
                    },
                }
            } else if frame_type == 6 {
                match crypto_frame(s.skip(size as int)) {
                    Err(e) => Err(e),
                    Ok((segment, frame_len)) => match crypto_frames(
                        s.skip(size as int).skip(frame_len as int),
                    ) {
                        Err(e) => Err(e),
                        Ok(more) => Ok(seq![segment] + more),
                    },
                }
            } else {
                Ok(Seq::empty())
            },
        }
    }
}

/// The body of a CRYPTO frame at the start of `s`, behind the frame type: the
/// offset, the length and the data. The segment comes with the body's size.
pub open spec fn crypto_frame(s: Seq<u8>) -> Result<(SegmentView, nat), PacketError> {
    match varint::varint_at(s, 0) {
        Err(e) => Err(e),
        Ok((offset, offset_size)) => match varint::varint_at(s, offset_size as int) {
            Err(e) => Err(e),
            Ok((length, length_size)) => {
                let start = offset_size + length_size;
                if start + length > s.len() {
                    Err(PacketError::CryptoFrameTooLong)
                } else {
                    Ok(
                        (
                            SegmentView {
                                offset: (offset as usize) as nat,
                                data: s.subrange(start as int, (start + length) as int),
                            },
                            start + length,
                        ),
                    )
                }
            },
        },
    }
}

/// Integers one behind the other.
pub open spec fn varints_bytes(values: Seq<u64>) -> Seq<u8>
    decreases values.len(),
{
    if values.len() == 0 {
        Seq::empty()
    } else {
        varint::varint_bytes(values[0] as nat) + varints_bytes(values.skip(1))
    }
}

/// Whether every value fits in a varint.
pub open spec fn all_encodable(values: Seq<u64>) -> bool {
    forall|i: int| 0 <= i < values.len() ==> #[trigger] values[i] < 0x4000_0000_0000_0000
}

proof fn lemma_varints_bytes(values: Seq<u64>, rest: Seq<u8>)
    requires
        all_encodable(values),
    ensures
        varints_len(varints_bytes(values) + rest, values.len()) == Some(
            varints_bytes(values).len(),
        ),
    decreases values.len(),
{
    if values.len() > 0 {
        let more = values.skip(1);
        assert forall|i: int| 0 <= i < more.len() implies #[trigger] more[i]
            < 0x4000_0000_0000_0000 by {
            assert(more[i] == values[i + 1]);
        }
        lemma_varints_bytes(more, rest);
        lemma_first_varint(values[0], varints_bytes(more) + rest);
        assert(varints_bytes(values) + rest =~= varint::varint_bytes(values[0] as nat) + (
        varints_bytes(more) + rest));
    }
}

proof fn lemma_first_varint(value: u64, rest: Seq<u8>)
    requires
        value < 0x4000_0000_0000_0000,
    ensures
        ({
            let first = varint::varint_bytes(value as nat);
            &&& varint::varint_at(first + rest, 0) == Ok::<(nat, nat), PacketError>(
                (value as nat, first.len()),
            )
            &&& (first + rest).skip(first.len() as int) == rest
        }),
{
    let first = varint::varint_bytes(value as nat);
    varint::varint_round_trip(Seq::empty(), value, rest);
    assert(Seq::<u8>::empty() + first + rest =~= first + rest);
    assert((first + rest).skip(first.len() as int) =~= rest);
}

proof fn lemma_ack_frame(before: Seq<u64>, ranges: u64, after: Seq<u64>, with_counts: bool, rest: Seq<u8>)
    requires
        before.len() == 2,
        ranges < 0x4000_0000_0000_0000,
        after.len() == ack_fields(ranges as nat, with_counts),
        all_encodable(before),
        all_encodable(after),
    ensures
        ({
            let body = varints_bytes(before) + varint::varint_bytes(ranges as nat) + varints_bytes(
                after,
            );
            &&& ack_frame_len(body + rest, with_counts) == Some(body.len())
            &&& (body + rest).skip(body.len() as int) == rest
        }),
{
    reveal(ack_frame_len);
    let a = varints_bytes(before);
    let n = varint::varint_bytes(ranges as nat);
    let b = varints_bytes(after);
    let body = a + n + b;
    let s = body + rest;
    assert(s =~= a + (n + b + rest));
    lemma_varints_bytes(before, n + b + rest);
    assert(s =~= a + n + (b + rest));
    varint::varint_round_trip(a, ranges, b + rest);
    assert(s.skip((a.len() + n.len()) as int) =~= b + rest);
    lemma_varints_bytes(after, rest);
    assert(s.skip(body.len() as int) =~= rest);
}

/// An ACK frame makes no difference to what the frames behind it carry. It holds
/// two integers, the number of further ranges, and what that number asks for.
pub proof fn ack_frames_are_passed_over(
    before: Seq<u64>,
    ranges: u64,
    after: Seq<u64>,
    with_counts: bool,
    rest: Seq<u8>,
)
    requires
        before.len() == 2,
        ranges < 0x4000_0000_0000_0000,
        after.len() == 1 + 2 * ranges + if with_counts {
            3int
        } else {
            0int
        },
        all_encodable(before),
        all_encodable(after),
    ensures
        crypto_frames(
            seq![
                if with_counts {
                    3u8
                } else {
                    2u8
                },
            ] + (varints_bytes(before) + varint::varint_bytes(ranges as nat) + varints_bytes(after)
                + rest),
        ) == crypto_frames(rest),
{
    let frame_type: u64 = if with_counts {
        3
    } else {
        2
    };
    let body = varints_bytes(before) + varint::varint_bytes(ranges as nat) + varints_bytes(after);
    lemma_ack_frame(before, ranges, after, with_counts, rest);
    assert(varint::varint_bytes(frame_type as nat) =~= seq![frame_type as u8]);
    lemma_first_varint(frame_type, body + rest);
}

/// An integer at an offset is the integer at the start of what follows it.
proof fn lemma_varint_at_skip(s: Seq<u8>, from: int, at: int)
    requires
        0 <= from <= s.len(),
        0 <= at,
    ensures
        varint::varint_at(s.skip(from), at) == varint::varint_at(s, from + at),
{
    let t = s.skip(from);
    if from + at < s.len() {
        let size = varint::varint_size(s[from + at]);
        if from + at + size <= s.len() {
            assert(t.subrange(at, at + size) =~= s.subrange(from + at, from + at + size));
        }
    }
}

/// Reads the body of a CRYPTO frame at `body`, and says where the next frame
/// starts.
fn read_crypto_frame(plaintext: &[u8], body: usize) -> (r: Result<
    (CryptoSegment, usize),
    PacketError,
>)
    requires
        body <= plaintext@.len(),
    ensures
        match r {
            Ok((segment, end)) => body < end <= plaintext@.len() && crypto_frame(
                plaintext@.skip(body as int),
            ) == Ok::<(SegmentView, nat), PacketError>((segment@, (end - body) as nat)),
            Err(e) => crypto_frame(plaintext@.skip(body as int)) == Err::<
                (SegmentView, nat),
                PacketError,
            >(e),
        },
{
    let ghost s = plaintext@.skip(body as int);
    proof {
        lemma_varint_at_skip(plaintext@, body as int, 0);
    }
    let (offset, offset_size) = varint::read_varint(plaintext, body)?;
    proof {
        lemma_varint_at_skip(plaintext@, body as int, offset_size as int);
    }
    let (length, length_size) = varint::read_varint(plaintext, body + offset_size)?;
    let start = body + offset_size + length_size;
    if length > (plaintext.len() - start) as u64 {
        return Err(PacketError::CryptoFrameTooLong);
    }
    let end = start + length as usize;
    let data = vstd::slice::slice_to_vec(&plaintext[start..end]);
    assert(data@ =~= s.subrange(start - body, end - body));
    Ok((CryptoSegment { offset: offset as usize, data }, end))
}

/// Steps over `n` integers at `at`, and says where they end.
fn skip_varints(plaintext: &[u8], at: usize, n: u64) -> (r: Option<usize>)
    requires
        at <= plaintext@.len(),
    ensures
        match r {
            Some(end) => at <= end <= plaintext@.len() && varints_len(
                plaintext@.skip(at as int),
                n as nat,
            ) == Some((end - at) as nat),
            None => varints_len(plaintext@.skip(at as int), n as nat) is None,
        },
{
    let mut pos: usize = at;
    let mut left: u64 = n;
    while left > 0
        invariant
            at <= pos <= plaintext@.len(),
            varints_len(plaintext@.skip(at as int), n as nat) == match varints_len(
                plaintext@.skip(pos as int),
                left as nat,
            ) {
                Some(len) => Some((pos - at + len) as nat),
                None => None,
            },
        decreases left,
    {
        proof {
            lemma_varint_at_skip(plaintext@, pos as int, 0);
        }
        match varint::read_varint(plaintext, pos) {
            Err(_) => {
                return None;
            },
            Ok((_, size)) => {
                assert(plaintext@.skip(pos as int).skip(size as int) =~= plaintext@.skip(
                    pos + size,
                ));
                pos = pos + size;
                left = left - 1;
            },
        }
    }
    Some(pos)
}

/// Steps over the body of an ACK frame at `body`, and says where the next frame
/// starts.
fn skip_ack_frame(plaintext: &[u8], body: usize, with_counts: bool) -> (r: Option<usize>)
    requires
        body <= plaintext@.len(),
    ensures
        match r {
            Some(end) => body <= end <= plaintext@.len() && ack_frame_len(
                plaintext@.skip(body as int),
                with_counts,
            ) == Some((end - body) as nat),
            None => ack_frame_len(plaintext@.skip(body as int), with_counts) is None,
        },
{
    reveal(ack_frame_len);
    let at = match skip_varints(plaintext, body, 2) {
        Some(at) => at,
        None => return None,
    };
    proof {
        lemma_varint_at_skip(plaintext@, body as int, at - body);
    }
    let (ranges, size) = match varint::read_varint(plaintext, at) {
        Ok(v) => v,
        Err(_) => return None,
    };
    let fields: u64 = 1 + 2 * ranges + if with_counts {
        3
    } else {
        0
    };
    assert(plaintext@.skip(body as int).skip(at - body + size) =~= plaintext@.skip(at + size));
    skip_varints(plaintext, at + size, fields)
}

/// Collects the CRYPTO frames of a packet's plaintext.
pub fn parse_crypto_frames(plaintext: &[u8]) -> (r: Result<Vec<CryptoSegment>, PacketError>)
    ensures
        match r {
            Ok(segments) => crypto_frames(plaintext@) == Ok::<Seq<SegmentView>, PacketError>(
                segment_views(segments@),
            ),
            Err(e) => crypto_frames(plaintext@) == Err::<Seq<SegmentView>, PacketError>(e),
        },
{
    let mut segments: Vec<CryptoSegment> = Vec::new();
    let mut pos: usize = 0;
    assert(plaintext@.skip(0) =~= plaintext@);
    assert(segment_views(segments@) =~= Seq::<SegmentView>::empty());
    proof {
        if let Ok(all) = crypto_frames(plaintext@) {
            assert(Seq::<SegmentView>::empty() + all =~= all);
        }
    }
    while pos < plaintext.len()
        invariant
            0 <= pos <= plaintext@.len(),
            crypto_frames(plaintext@) == followed_by(
                segment_views(segments@),
                crypto_frames(plaintext@.skip(pos as int)),
            ),
        ensures
            crypto_frames(plaintext@) == Ok::<Seq<SegmentView>, PacketError>(
                segment_views(segments@),
            ),
        decreases plaintext@.len() - pos,
    {
        let ghost rest = plaintext@.skip(pos as int);
        proof {
            lemma_varint_at_skip(plaintext@, pos as int, 0);
        }
        let (frame_type, type_size) = varint::read_varint(plaintext, pos)?;
        let body = pos + type_size;
        assert(rest.skip(type_size as int) =~= plaintext@.skip(body as int));
        if frame_type == 0 || frame_type == 1 {
            pos = body;
        } else if frame_type == 2 || frame_type == 3 {
            match skip_ack_frame(plaintext, body, frame_type == 3) {
                Some(end) => {
                    assert(plaintext@.skip(body as int).skip(end - body) =~= plaintext@.skip(
                        end as int,
                    ));
                    pos = end;
                },
                None => {
                    assert(segment_views(segments@) + Seq::<SegmentView>::empty()
                        =~= segment_views(segments@));
                    break;
                },
            }
        } else if frame_type == 6 {
            let (segment, end) = read_crypto_frame(plaintext, body)?;
            proof {
                assert(plaintext@.skip(body as int).skip(end - body) =~= plaintext@.skip(
                    end as int,
                ));
                lemma_followed_by(segments@, segment, crypto_frames(plaintext@.skip(end as int)));
            }
            segments.push(segment);
            pos = end;
        } else {
            assert(segment_views(segments@) + Seq::<SegmentView>::empty() =~= segment_views(
                segments@,
            ));
            break;
        }
        assert(pos == plaintext@.len() ==> plaintext@.skip(pos as int) =~= Seq::<u8>::empty());
    }
    assert(segment_views(segments@) + Seq::<SegmentView>::empty() =~= segment_views(segments@));
    Ok(segments)
}

/// The segments `before`, followed by those of `more` if there was no error.
spec fn followed_by(
    before: Seq<SegmentView>,
    more: Result<Seq<SegmentView>, PacketError>,
) -> Result<Seq<SegmentView>, PacketError> {
    match more {
        Ok(more) => Ok(before + more),
        Err(e) => Err(e),
    }
}

proof fn lemma_followed_by(
    before: Seq<CryptoSegment>,
    segment: CryptoSegment,
    more: Result<Seq<SegmentView>, PacketError>,
)
    ensures
        followed_by(segment_views(before.push(segment)), more) == followed_by(
            segment_views(before),
            followed_by(seq![segment@], more),
        ),
{
    assert(segment_views(before.push(segment)) =~= segment_views(before) + seq![segment@]);
    if let Ok(more) = more {
        assert(segment_views(before) + seq![segment@] + more =~= segment_views(before) + (
        seq![segment@] + more));
    }
}

/// A CRYPTO frame, written out: its type, the offset and the length of its data
/// as varints, and the data. In front of any frames it adds one segment, with
/// that offset and data, to what they carry.
pub proof fn crypto_frames_carry_offset_and_data(
    offset: u64,
    data: Seq<u8>,
    rest: Seq<u8>,
)
    requires
        offset < 0x4000_0000_0000_0000,
        offset <= usize::MAX,
        data.len() < 0x4000_0000_0000_0000,
    ensures
        crypto_frames(
            seq![6u8] + varint::varint_bytes(offset as nat) + varint::varint_bytes(data.len())
                + data + rest,
        ) == match crypto_frames(rest) {
            Ok(more) => Ok::<Seq<SegmentView>, PacketError>(
                seq![SegmentView { offset: offset as nat, data }] + more,
            ),
            Err(e) => Err(e),
        },
{
    let o = varint::varint_bytes(offset as nat);
    let n = varint::varint_bytes(data.len());
    let body = o + n + data + rest;
    let s = seq![6u8] + o + n + data + rest;
    lemma_first_varint(6, body);
    assert(varint::varint_bytes(6) =~= seq![6u8]);
    assert(s =~= varint::varint_bytes(6) + body);
    assert(body =~= o + (n + data + rest));
    lemma_first_varint(offset, n + data + rest);
    assert(body =~= o + n + (data + rest));
    varint::varint_round_trip(o, data.len() as u64, data + rest);
    let start = (o.len() + n.len()) as int;
    assert(body.subrange(start, start + data.len()) =~= data);
    assert(body.skip(start + data.len()) =~= rest);
}

/// PADDING and PING frames add nothing to what the frames behind them carry.
pub proof fn padding_and_ping_carry_nothing(frame_type: u8, rest: Seq<u8>)
    requires
        frame_type == 0 || frame_type == 1,
    ensures
        crypto_frames(seq![frame_type] + rest) == crypto_frames(rest),
{
    assert(varint::varint_bytes(frame_type as nat) =~= seq![frame_type]);
    lemma_first_varint(frame_type as u64, rest);
}

/// An empty list carries nothing, and a frame that is not known ends the list.
pub proof fn unknown_frames_end_the_list(frame_type: u64, rest: Seq<u8>)
    requires
        frame_type < 0x4000_0000_0000_0000,
        frame_type == 4 || frame_type == 5 || frame_type > 6,
    ensures
        crypto_frames(Seq::empty()) == Ok::<Seq<SegmentView>, PacketError>(Seq::empty()),
        crypto_frames(varint::varint_bytes(frame_type as nat) + rest) == Ok::<
            Seq<SegmentView>,
            PacketError,
        >(Seq::empty()),
{
    lemma_first_varint(frame_type, rest);
}

/// A CRYPTO frame that announces more data than there is makes the list
/// unreadable.
pub proof fn overlong_crypto_frame_is_refused(offset: u64, len: u64, data: Seq<u8>)
    requires
        offset < 0x4000_0000_0000_0000,
        data.len() < len < 0x4000_0000_0000_0000,
    ensures
        crypto_frames(
            seq![6u8] + varint::varint_bytes(offset as nat) + varint::varint_bytes(len as nat)
                + data,
        ) == Err::<Seq<SegmentView>, PacketError>(PacketError::CryptoFrameTooLong),
{
    let o = varint::varint_bytes(offset as nat);
    let n = varint::varint_bytes(len as nat);
    let body = o + n + data;
    lemma_first_varint(6, body);
    assert(varint::varint_bytes(6) =~= seq![6u8]);
    assert(seq![6u8] + o + n + data =~= varint::varint_bytes(6) + body);
    assert(body =~= o + (n + data));
    lemma_first_varint(offset, n + data);
    varint::varint_round_trip(o, len, data);
}

/// What one more segment does to the stream: it fills the positions that it
/// covers, leaves all others as they were, and opens a gap if it starts behind
/// the end. A segment that ends beyond the maximum size does nothing.
pub proof fn segment_fills_what_it_covers(stream: Seq<Option<u8>>, segment: SegmentView, i: int)
    requires
        0 <= i,
    ensures
        ({
            let after = with_segment(stream, segment);
            let end = segment.offset + segment.data.len();
            &&& end > 8192 ==> after == stream
            &&& end <= 8192 ==> {
                &&& after.len() == if end > stream.len() {
                    end
                } else {
                    stream.len()
                }
                &&& segment.offset <= i < end ==> after[i] == Some(
                    segment.data[i - segment.offset],
                )
                &&& !(segment.offset <= i < end) && i < stream.len() ==> after[i] == stream[i]
                &&& i < segment.offset && stream.len() <= i < after.len() ==> after[i] is None
            }
        }),
{
}

/// The data received is all that there is before the first gap.
pub proof fn received_stops_at_the_first_gap(stream: Seq<Option<u8>>, n: int)
    requires
        0 <= n <= stream.len(),
        forall|i: int| 0 <= i < n ==> stream[i] is Some,
        n < stream.len() ==> stream[n] is None,
    ensures
        received(stream).len() == n,
        forall|i: int| 0 <= i < n ==> Some(received(stream)[i]) == stream[i],
{
    lemma_received_len(stream, n);
}

proof fn lemma_too_few_varints(values: Seq<u64>, n: nat)
    requires
        all_encodable(values),
        values.len() < n,
    ensures
        varints_len(varints_bytes(values), n) is None,
    decreases values.len(),
{
    if values.len() > 0 {
        let more = values.skip(1);
        assert forall|i: int| 0 <= i < more.len() implies #[trigger] more[i]
            < 0x4000_0000_0000_0000 by {
            assert(more[i] == values[i + 1]);
        }
        lemma_too_few_varints(more, (n - 1) as nat);
        lemma_first_varint(values[0], varints_bytes(more));
    }
}

/// An ACK frame that ends before its last integer ends the list.
pub proof fn short_ack_frame_ends_the_list(
    before: Seq<u64>,
    ranges: u64,
    after: Seq<u64>,
    with_counts: bool,
)
    requires
        before.len() == 2,
        ranges < 0x4000_0000_0000_0000,
        after.len() < 1 + 2 * ranges + if with_counts {
            3int
        } else {
            0int
        },
        all_encodable(before),
        all_encodable(after),
    ensures
        crypto_frames(
            seq![
                if with_counts {
                    3u8
                } else {
                    2u8
                },
            ] + (varints_bytes(before) + varint::varint_bytes(ranges as nat) + varints_bytes(
                after,
            )),
        ) == Ok::<Seq<SegmentView>, PacketError>(Seq::empty()),
{
    reveal(ack_frame_len);
    let frame_type: u64 = if with_counts {
        3
    } else {
        2
    };
    let a = varints_bytes(before);
    let n = varint::varint_bytes(ranges as nat);
    let b = varints_bytes(after);
    let body = a + n + b;
    assert(varint::varint_bytes(frame_type as nat) =~= seq![frame_type as u8]);
    lemma_first_varint(frame_type, body);
    assert(body =~= a + (n + b));
    lemma_varints_bytes(before, n + b);
    varint::varint_round_trip(a, ranges, b);
    assert(body.skip((a.len() + n.len()) as int) =~= b);
    lemma_too_few_varints(after, ack_fields(ranges as nat, with_counts));
}

/// Segments are added one by one, in order.
pub proof fn segments_are_added_in_order(
    stream: Seq<Option<u8>>,
    segments: Seq<SegmentView>,
    last: SegmentView,
)
    ensures
        with_segments(stream, Seq::empty()) == stream,
        with_segments(stream, segments.push(last)) == with_segment(
            with_segments(stream, segments),
            last,
        ),
{
    assert(segments.push(last).drop_last() =~= segments);
}

/// A CRYPTO frame may spell its integers in any of the sizes: it adds its segment
/// to what the frames behind it carry.
pub proof fn crypto_frames_may_use_any_encoding(
    frame_type: Seq<u8>,
    offset: Seq<u8>,
    length: Seq<u8>,
    data: Seq<u8>,
    rest: Seq<u8>,
    o: nat,
)
    requires
        varint::varint_at(frame_type, 0) == Ok::<(nat, nat), PacketError>((6, frame_type.len())),
        varint::varint_at(offset, 0) == Ok::<(nat, nat), PacketError>((o, offset.len())),
        varint::varint_at(length, 0) == Ok::<(nat, nat), PacketError>((data.len(), length.len())),
        o <= usize::MAX,
    ensures
        crypto_frames(frame_type + (offset + length + data + rest)) == match crypto_frames(rest) {
            Ok(more) => Ok::<Seq<SegmentView>, PacketError>(
                seq![SegmentView { offset: o, data }] + more,
            ),
            Err(e) => Err(e),
        },
{
    let none = Seq::<u8>::empty();
    let body = offset + length + data + rest;
    let s = frame_type + body;
    let start = (offset.len() + length.len()) as int;
    assert(s =~= none + frame_type + body);
    varint::encodings_mean_the_same_everywhere(none, frame_type, body);
    assert(crypto_frame(body) == Ok::<(SegmentView, nat), PacketError>(
        (SegmentView { offset: o, data }, (start + data.len()) as nat),
    )) by {
        assert(body =~= none + offset + (length + data + rest));
        varint::encodings_mean_the_same_everywhere(none, offset, length + data + rest);
        assert(body =~= offset + length + (data + rest));
        varint::encodings_mean_the_same_everywhere(offset, length, data + rest);
        assert(body.subrange(start, start + data.len()) =~= data);
    }
    assert(body.skip(start + data.len()) =~= rest);
    lemma_after_crypto_frame(s, frame_type.len(), body, (start + data.len()) as nat);
}

proof fn lemma_after_crypto_frame(s: Seq<u8>, size: nat, body: Seq<u8>, len: nat)
    requires
        s.len() > 0,
        varint::varint_at(s, 0) == Ok::<(nat, nat), PacketError>((6, size)),
        s.skip(size as int) == body,
        crypto_frame(body) is Ok,
        (crypto_frame(body)->Ok_0).1 == len,
    ensures
        crypto_frames(s) == match crypto_frames(body.skip(len as int)) {
            Ok(more) => Ok::<Seq<SegmentView>, PacketError>(
                seq![(crypto_frame(body)->Ok_0).0] + more,
            ),
            Err(e) => Err(e),
        },
{
}

/// So may other frames: PADDING and PING add nothing, and what is not known ends
/// the list.
pub proof fn other_frames_may_use_any_encoding(frame_type: Seq<u8>, rest: Seq<u8>, t: nat)
    requires
        varint::varint_at(frame_type, 0) == Ok::<(nat, nat), PacketError>((t, frame_type.len())),
    ensures
        t == 0 || t == 1 ==> crypto_frames(frame_type + rest) == crypto_frames(rest),
        t == 4 || t == 5 || t > 6 ==> crypto_frames(frame_type + rest) == Ok::<
            Seq<SegmentView>,
            PacketError,
        >(Seq::empty()),
{
    let none = Seq::<u8>::empty();
    assert(none + frame_type + rest =~= frame_type + rest);
    varint::encodings_mean_the_same_everywhere(none, frame_type, rest);
}

} // verus!
