//! Finding TLS records in a stream of bytes.

use std::ops::Range;

use vstd::prelude::*;

use crate::error::{Error, InvalidMessage};
use crate::frontend;
use crate::frontend::TLS_RECORD_HEADER_LEN;

verus! {

/// No record is as long as this: plaintext, and what protecting it may add.
pub const MAX_PAYLOAD: u16 = 18432;

/// What a record holds.
#[derive(Debug, Clone, Copy, PartialEq, Eq, Structural)]
pub enum ContentType {
    ChangeCipherSpec,
    Alert,
    Handshake,
    ApplicationData,
    Heartbeat,
}

/// A record.
pub struct EncodedMessage<'a> {
    pub typ: ContentType,
    pub version: u16,
    pub payload: &'a [u8],
}

/// What stands at the start of a stream.
#[verifier::ext_equal]
pub enum Next {
    /// A record that is not complete, or nothing.
    Incomplete,
    /// Something that cannot be a record.
    Invalid(InvalidMessage),
    /// A record.
    Record { typ: ContentType, version: u16, payload: Seq<u8> },
}

/// The content type of the given number.
pub open spec fn content_type_of(n: u8) -> Option<ContentType> {
    if n == 0x14 {
        Some(ContentType::ChangeCipherSpec)
    } else if n == 0x15 {
        Some(ContentType::Alert)
    } else if n == 0x16 {
        Some(ContentType::Handshake)
    } else if n == 0x17 {
        Some(ContentType::ApplicationData)
    } else if n == 0x18 {
        Some(ContentType::Heartbeat)
    } else {
        None
    }
}

/// What stands at the start of `s`. Each field of a header is judged as soon as
/// it is there.
pub open spec fn next_record(s: Seq<u8>) -> Next {
    if s.len() < 1 {
        Next::Incomplete
    } else if content_type_of(s[0]) is None {
        Next::Invalid(InvalidMessage::InvalidContentType)
    } else if s.len() < 3 {
        Next::Incomplete
    } else if s[1] != 3 {
        Next::Invalid(InvalidMessage::UnknownProtocolVersion)
    } else if s.len() < TLS_RECORD_HEADER_LEN {
        Next::Incomplete
    } else {
        let len = s[3] * 256 + s[4];
        if len == 0 && content_type_of(s[0]) != Some(ContentType::ApplicationData) {
            Next::Invalid(InvalidMessage::InvalidEmptyPayload)
        } else if len >= MAX_PAYLOAD {
            Next::Invalid(InvalidMessage::MessageTooLarge)
        } else if s.len() < TLS_RECORD_HEADER_LEN + len {
            Next::Incomplete
        } else {
            Next::Record {
                typ: content_type_of(s[0])->0,
                version: (s[1] * 256 + s[2]) as u16,
                payload: s.subrange(
                    TLS_RECORD_HEADER_LEN as int,
                    TLS_RECORD_HEADER_LEN + len,
                ),
            }
        }
    }
}

/// How many bytes the complete records at the start of `s` take up.
pub open spec fn consumed(s: Seq<u8>) -> nat
    decreases s.len(),
{
    match next_record(s) {
        Next::Record { payload, .. } => {
            let len = TLS_RECORD_HEADER_LEN + payload.len();
            (len + consumed(s.skip(len as int))) as nat
        },
        _ => 0,
    }
}

/// The content type of the given number.
fn read_content_type(n: u8) -> (typ: Option<ContentType>)
    ensures
        typ == content_type_of(n),
{
    match n {
        0x14 => Some(ContentType::ChangeCipherSpec),
        0x15 => Some(ContentType::Alert),
        0x16 => Some(ContentType::Handshake),
        0x17 => Some(ContentType::ApplicationData),
        0x18 => Some(ContentType::Heartbeat),
        _ => None,
    }
}

/// Reads the record at the start of `bytes`, if there is a complete one.
fn read_record(bytes: &[u8]) -> (r: Option<Result<EncodedMessage<'_>, InvalidMessage>>)
    ensures
        match r {
            None => next_record(bytes@) is Incomplete,
            Some(Err(e)) => next_record(bytes@) == Next::Invalid(e),
            Some(Ok(m)) => next_record(bytes@) == (Next::Record {
                typ: m.typ,
                version: m.version,
                payload: m.payload@,
            }),
        },
{
    if bytes.len() < 1 {
        return None;
    }
    let typ = match read_content_type(bytes[0]) {
        Some(typ) => typ,
        None => return Some(Err(InvalidMessage::InvalidContentType)),
    };
    if bytes.len() < 3 {
        return None;
    }
    let version = bytes[1] as u16 * 256 + bytes[2] as u16;
    if bytes[1] != 3 {
        return Some(Err(InvalidMessage::UnknownProtocolVersion));
    }
    if bytes.len() < TLS_RECORD_HEADER_LEN {
        return None;
    }
    let len = bytes[3] as u16 * 256 + bytes[4] as u16;
    if len == 0 && typ != ContentType::ApplicationData {
        return Some(Err(InvalidMessage::InvalidEmptyPayload));
    }
    if len >= MAX_PAYLOAD {
        return Some(Err(InvalidMessage::MessageTooLarge));
    }
    let end = TLS_RECORD_HEADER_LEN + len as usize;
    if bytes.len() < end {
        return None;
    }
    Some(Ok(EncodedMessage { typ, version, payload: &bytes[TLS_RECORD_HEADER_LEN..end] }))
}

/// Finds record after record in a buffer. Its view is how much of the buffer it
/// has gone through.
pub struct HandshakeDeframer {
    processed: usize,
}

impl View for HandshakeDeframer {
    type V = nat;

    closed spec fn view(&self) -> nat {
        self.processed as nat
    }
}

impl Default for HandshakeDeframer {
    fn default() -> (d: HandshakeDeframer)
        ensures
            d@ == 0,
    {
        HandshakeDeframer { processed: 0 }
    }
}

impl HandshakeDeframer {
    /// The next record, and where in the buffer it stands, or nothing if it is
    /// not complete.
    pub fn deframe<'a>(&mut self, buf: &'a [u8]) -> (r: Option<
        Result<(EncodedMessage<'a>, Range<usize>), Error>,
    >)
        requires
            old(self)@ <= buf@.len(),
        ensures
            match r {
                None => next_record(buf@.skip(old(self)@ as int)) is Incomplete && final(self)@
                    == old(self)@,
                Some(Err(e)) => next_record(buf@.skip(old(self)@ as int)) matches Next::Invalid(x)
                    && e@ == crate::error::ErrorView::InvalidMessage(x) && final(self)@
                    == old(self)@,
                Some(Ok((m, bounds))) => {
                    &&& next_record(buf@.skip(old(self)@ as int)) == (Next::Record {
                        typ: m.typ,
                        version: m.version,
                        payload: m.payload@,
                    })
                    &&& bounds.start == old(self)@
                    &&& bounds.end == old(self)@ + TLS_RECORD_HEADER_LEN + m.payload@.len()
                    &&& final(self)@ == bounds.end
                },
            },
            final(self)@ <= buf@.len(),
    {
        let start = self.processed;
        let rest = &buf[start..buf.len()];
        assert(rest@ =~= buf@.skip(start as int));
        match read_record(rest) {
            None => None,
            Some(Err(e)) => Some(Err(Error::InvalidMessage(e))),
            Some(Ok(m)) => {
                let end = start + TLS_RECORD_HEADER_LEN + m.payload.len();
                self.processed = end;
                Some(Ok((m, Range { start, end })))
            },
        }
    }

    /// How much of the buffer has been gone through.
    pub fn processed(&self) -> (n: usize)
        ensures
            n == self@,
    {
        self.processed
    }
}

/// Goes through the records in `data` until there is no further complete one,
/// and returns how many bytes they take up.
pub fn fuzz_deframer(data: &[u8]) -> (n: usize)
    ensures
        n == consumed(data@),
        n <= data@.len(),
{
    let mut deframer = HandshakeDeframer::default();
    assert(data@.skip(0) =~= data@);
    loop
        invariant_except_break
            deframer@ <= data@.len(),
            consumed(data@) == deframer@ + consumed(data@.skip(deframer@ as int)),
        ensures
            deframer@ <= data@.len(),
            consumed(data@) == deframer@,
        decreases data@.len() - deframer@,
    {
        let ghost before = deframer@;
        match deframer.deframe(data) {
            None => {
                break ;
            },
            Some(Err(_)) => {
                break ;
            },
            Some(Ok((_, bounds))) => {
                assert(data@.skip(before as int).skip(bounds.end - before) =~= data@.skip(
                    bounds.end as int,
                ));
            },
        }
    }
    deframer.processed()
}

/// A handshake message that was put in a record is found again, and what
/// follows the record is left for the next.
pub proof fn wrapped_message_is_deframed(version: u16, handshake_message: Seq<u8>, rest: Seq<u8>)
    requires
        version / 256 == 3,
        0 < handshake_message.len() < MAX_PAYLOAD,
    ensures
        next_record(frontend::record_of(version, handshake_message) + rest) == (Next::Record {
            typ: ContentType::Handshake,
            version,
            payload: handshake_message,
        }),
        consumed(frontend::record_of(version, handshake_message) + rest)
            == TLS_RECORD_HEADER_LEN + handshake_message.len() + consumed(rest),
{
    let record = frontend::record_of(version, handshake_message);
    let s = record + rest;
    assert(s.subrange(5, 5 + handshake_message.len() as int) =~= handshake_message);
    assert(s.skip(5 + handshake_message.len() as int) =~= rest);
}

/// A record of any known content type, of any version of TLS and of any length
/// below the limit is found, whatever follows it; only application data may be
/// empty.
pub proof fn records_of_every_type_are_found(
    typ: u8,
    minor: u8,
    payload: Seq<u8>,
    behind: Seq<u8>,
)
    requires
        0x14 <= typ <= 0x18,
        payload.len() < 18432,
        payload.len() > 0 || typ == 0x17,
    ensures
        ({
            let s = seq![
                typ,
                3u8,
                minor,
                (payload.len() / 256) as u8,
                (payload.len() % 256) as u8,
            ] + payload + behind;
            &&& next_record(s) matches Next::Record { typ: t, version, payload: found } && found
                == payload && version == 0x300 + minor && t == if typ == 0x14 {
                ContentType::ChangeCipherSpec
            } else if typ == 0x15 {
                ContentType::Alert
            } else if typ == 0x16 {
                ContentType::Handshake
            } else if typ == 0x17 {
                ContentType::ApplicationData
            } else {
                ContentType::Heartbeat
            }
            &&& consumed(s) == 5 + payload.len() + consumed(behind)
        }),
{
    let s = seq![
        typ,
        3u8,
        minor,
        (payload.len() / 256) as u8,
        (payload.len() % 256) as u8,
    ] + payload + behind;
    assert(s.subrange(5, 5 + payload.len() as int) =~= payload);
    assert(s.skip(5 + payload.len() as int) =~= behind);
}

/// What is no record is refused as soon as the field that is wrong is there.
pub proof fn wrong_fields_are_refused_at_once(s: Seq<u8>)
    ensures
        s.len() >= 1 && !(0x14 <= s[0] <= 0x18) ==> next_record(s) == Next::Invalid(
            InvalidMessage::InvalidContentType,
        ),
        s.len() >= 3 && 0x14 <= s[0] <= 0x18 && s[1] != 3 ==> next_record(s) == Next::Invalid(
            InvalidMessage::UnknownProtocolVersion,
        ),
        s.len() >= 5 && 0x14 <= s[0] <= 0x18 && s[1] == 3 ==> {
            let len = s[3] * 256 + s[4];
            &&& len == 0 && s[0] != 0x17 ==> next_record(s) == Next::Invalid(
                InvalidMessage::InvalidEmptyPayload,
            )
            &&& len >= 18432 ==> next_record(s) == Next::Invalid(InvalidMessage::MessageTooLarge)
        },
        next_record(s) is Invalid ==> consumed(s) == 0,
{
}

/// A record that is not there in full is waited for, unless a field is wrong.
pub proof fn incomplete_records_are_waited_for(s: Seq<u8>)
    requires
        s.len() >= 1 ==> 0x14 <= s[0] <= 0x18,
        s.len() >= 3 ==> s[1] == 3,
        s.len() >= 5 ==> {
            let len = s[3] * 256 + s[4];
            (len > 0 || s[0] == 0x17) && len < 18432 && s.len() < 5 + len
        },
    ensures
        next_record(s) is Incomplete,
        consumed(s) == 0,
{
}

} // verus!
