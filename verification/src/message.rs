//! TLS messages on their way through the handshake.

use vstd::prelude::*;

use crate::error::Error;
use crate::hello;
use crate::hello::ClientHelloPayload;
use crate::inner_hello;
use crate::wire;

verus! {

/// The handshake type of a ClientHello.
pub const CLIENT_HELLO: u8 = 0x01;

/// The content type of handshake messages.
pub const HANDSHAKE: u8 = 0x16;

/// TLS 1.0.
pub const TLS10: u16 = 0x0301;

/// A handshake message without its header.
pub enum HandshakePayload {
    /// A ClientHello.
    ClientHello(ClientHelloPayload),
    /// Any other message, unread.
    Other { typ: u8, body: Vec<u8> },
}

/// The contents of a message.
pub enum MessagePayload {
    /// A handshake message, read and as it arrived.
    Handshake { parsed: HandshakePayload, encoded: Vec<u8> },
    /// Something of another content type.
    Other { content_type: u8, data: Vec<u8> },
}

/// A message.
pub struct Message {
    pub version: u16,
    pub payload: MessagePayload,
}

/// Shows that a message was the last one in its record.
#[derive(Debug, Clone, Copy, PartialEq, Eq, Structural)]
pub struct HandshakeAlignedProof;

/// A message together with how it arrived.
pub struct Input {
    pub message: Message,
    pub aligned_handshake: Option<HandshakeAlignedProof>,
}

/// The value of a [`HandshakePayload`].
pub enum HandshakeView {
    ClientHello(hello::HelloView),
    Other { typ: u8, body: Seq<u8> },
}

/// The value of a [`MessagePayload`].
pub enum PayloadView {
    Handshake { parsed: HandshakeView, encoded: Seq<u8> },
    Other { content_type: u8, data: Seq<u8> },
}

/// The value of an [`Input`].
pub struct InputView {
    pub version: u16,
    pub payload: PayloadView,
    pub aligned_handshake: Option<HandshakeAlignedProof>,
}

impl View for HandshakePayload {
    type V = HandshakeView;

    open spec fn view(&self) -> HandshakeView {
        match self {
            HandshakePayload::ClientHello(h) => HandshakeView::ClientHello(h@),
            HandshakePayload::Other { typ, body } => HandshakeView::Other { typ: *typ, body: body@ },
        }
    }
}

impl View for MessagePayload {
    type V = PayloadView;

    open spec fn view(&self) -> PayloadView {
        match self {
            MessagePayload::Handshake { parsed, encoded } => PayloadView::Handshake {
                parsed: parsed@,
                encoded: encoded@,
            },
            MessagePayload::Other { content_type, data } => PayloadView::Other {
                content_type: *content_type,
                data: data@,
            },
        }
    }
}

impl View for Input {
    type V = InputView;

    open spec fn view(&self) -> InputView {
        InputView {
            version: self.message.version,
            payload: self.message.payload@,
            aligned_handshake: self.aligned_handshake,
        }
    }
}

/// The ClientHello that a message is, and its encoding, or the error for any
/// other message.
pub open spec fn client_hello_in(payload: PayloadView) -> Result<
    (hello::HelloView, Seq<u8>),
    crate::error::ErrorView,
> {
    match payload {
        PayloadView::Handshake { parsed: HandshakeView::ClientHello(h), encoded } => Ok((h, encoded)),
        PayloadView::Handshake { parsed: HandshakeView::Other { typ, .. }, .. } => Err(
            crate::error::ErrorView::InappropriateHandshakeMessage { got_type: typ },
        ),
        PayloadView::Other { content_type, .. } => Err(
            crate::error::ErrorView::InappropriateMessage { got_type: content_type },
        ),
    }
}

/// The ClientHello that a message is, and its encoding.
pub fn require_client_hello(payload: &MessagePayload) -> (r: Result<
    (&ClientHelloPayload, &[u8]),
    Error,
>)
    ensures
        match r {
            Ok((h, encoded)) => client_hello_in(payload@) == Ok::<
                (hello::HelloView, Seq<u8>),
                crate::error::ErrorView,
            >((h@, encoded@)),
            Err(e) => client_hello_in(payload@) == Err::<
                (hello::HelloView, Seq<u8>),
                crate::error::ErrorView,
            >(e@),
        },
{
    match payload {
        MessagePayload::Handshake { parsed: HandshakePayload::ClientHello(h), encoded } => Ok(
            (h, encoded.as_slice()),
        ),
        MessagePayload::Handshake { parsed: HandshakePayload::Other { typ, .. }, .. } => Err(
            Error::InappropriateHandshakeMessage { got_type: *typ },
        ),
        MessagePayload::Other { content_type, .. } => Err(
            Error::InappropriateMessage { got_type: *content_type },
        ),
    }
}

/// The handshake message that `s` starts with, or nothing if it is cut short
/// or malformed. Messages other than ClientHello are not looked into.
pub open spec fn handshake_of(s: Seq<u8>) -> Option<HandshakeView> {
    if s.len() < 4 {
        None
    } else {
        let len = s[1] * 65536 + s[2] * 256 + s[3];
        match wire::take_bytes(s.skip(4), len) {
            None => None,
            Some((body, _)) => if s[0] == CLIENT_HELLO {
                match hello::parsed_hello(body) {
                    None => None,
                    Some(h) => Some(HandshakeView::ClientHello(h)),
                }
            } else {
                Some(HandshakeView::Other { typ: s[0], body })
            },
        }
    }
}

impl HandshakePayload {
    /// Reads a handshake message with its header.
    pub fn read(bytes: &[u8]) -> (r: Option<HandshakePayload>)
        ensures
            match r {
                Some(p) => handshake_of(bytes@) == Some(p@),
                None => handshake_of(bytes@) is None,
            },
    {
        let mut reader = wire::Reader::new(bytes);
        let typ: u8 = match reader.u8() {
            Some(typ) => typ,
            None => return None,
        };
        let ghost after_type = reader@;
        let len: usize = match inner_hello::u24_read(&mut reader) {
            Some(len) => len,
            None => return None,
        };
        proof {
            assert(reader@ =~= bytes@.skip(4));
            assert(after_type.take(3)[0] == bytes@[1]);
            assert(after_type.take(3)[1] == bytes@[2]);
            assert(after_type.take(3)[2] == bytes@[3]);
            assert(len == bytes@[1] * 65536 + bytes@[2] * 256 + bytes@[3]);
        }
        let body = match reader.take(len) {
            Some(body) => body,
            None => return None,
        };
        if typ == CLIENT_HELLO {
            let mut body_reader = wire::Reader::new(body);
            match ClientHelloPayload::read(&mut body_reader) {
                Some(h) => Some(HandshakePayload::ClientHello(h)),
                None => None,
            }
        } else {
            Some(HandshakePayload::Other { typ, body: vstd::slice::slice_to_vec(body) })
        }
    }
}

/// A handshake message is read by the length in its header, whatever follows it.
pub proof fn messages_are_read_by_their_length(header: Seq<u8>, body: Seq<u8>, behind: Seq<u8>)
    requires
        header.len() == 4,
        body.len() == header[1] * 0x10000 + header[2] * 0x100 + header[3],
    ensures
        header[0] == 1 ==> handshake_of(header + body + behind) == match hello::parsed_hello(body) {
            Some(h) => Some(HandshakeView::ClientHello(h)),
            None => None,
        },
        header[0] != 1 ==> handshake_of(header + body + behind) == Some(
            HandshakeView::Other { typ: header[0], body },
        ),
{
    let s = header + body + behind;
    assert(s[0] == header[0] && s[1] == header[1] && s[2] == header[2] && s[3] == header[3]);
    assert(s.skip(4).take(body.len() as int) =~= body);
}

/// A message that ends before its header or its body does is not read.
pub proof fn cut_messages_are_not_read(s: Seq<u8>)
    requires
        s.len() < 4 || s.len() < 4 + s[1] * 0x10000 + s[2] * 0x100 + s[3],
    ensures
        handshake_of(s) is None,
{
}

/// A ClientHello is told from other messages, and these by their types.
pub proof fn hellos_are_told_from_other_messages(
    h: hello::HelloView,
    encoded: Seq<u8>,
    typ: u8,
    content_type: u8,
    data: Seq<u8>,
)
    ensures
        client_hello_in(
            PayloadView::Handshake { parsed: HandshakeView::ClientHello(h), encoded },
        ) == Ok::<(hello::HelloView, Seq<u8>), crate::error::ErrorView>((h, encoded)),
        client_hello_in(
            PayloadView::Handshake { parsed: HandshakeView::Other { typ, body: data }, encoded },
        ) == Err::<(hello::HelloView, Seq<u8>), crate::error::ErrorView>(
            crate::error::ErrorView::InappropriateHandshakeMessage { got_type: typ },
        ),
        client_hello_in(PayloadView::Other { content_type, data }) == Err::<
            (hello::HelloView, Seq<u8>),
            crate::error::ErrorView,
        >(crate::error::ErrorView::InappropriateMessage { got_type: content_type }),
{
}

} // verus!
