//! What the proxy does with the packets of one client: it collects CRYPTO data
//! until the ClientHello is complete, decrypts ECH, and puts the inner
//! ClientHello in an Initial packet of its own. All other packets go on as they
//! came.

use std::sync::Arc;

use vstd::prelude::*;

use crate::crypto_frames;
use crate::crypto_frames::CryptoAssembler;
use crate::ech_key::EchServerKey;
use crate::error::{Error, PacketError};
use crate::frontend;
use crate::frontend::{EchProxy, EchProxyResult};
use crate::hpke::Hpke;
use crate::message::CLIENT_HELLO;
use crate::quic_packet;
use crate::quic_packet::{DecryptedInitial, InitialHeader};

verus! {

/// Why a client's packet could not be handled.
#[derive(Debug)]
pub enum ProxyError {
    /// The ClientHello could not be processed.
    Ech(Error),
    /// The inner ClientHello could not be put in a packet.
    Quic(PacketError),
}

/// The value of a [`ProxyError`].
pub enum ProxyErrorView {
    Ech(crate::error::ErrorView),
    Quic(PacketError),
}

impl View for ProxyError {
    type V = ProxyErrorView;

    open spec fn view(&self) -> ProxyErrorView {
        match self {
            ProxyError::Ech(e) => ProxyErrorView::Ech(e@),
            ProxyError::Quic(e) => ProxyErrorView::Quic(*e),
        }
    }
}

/// What an Initial packet led to.
pub enum ProcessResult {
    /// Forward this rewritten Initial packet to the backend.
    Forward(Vec<u8>),
    /// Need more Initial packets to complete the ClientHello.
    NeedMoreData,
    /// No ECH; forward original packet unchanged.
    Passthrough,
}

/// The value of a [`ProcessResult`].
pub enum ProcessView {
    Forward(Seq<u8>),
    NeedMoreData,
    Passthrough,
}

impl View for ProcessResult {
    type V = ProcessView;

    open spec fn view(&self) -> ProcessView {
        match self {
            ProcessResult::Forward(packet) => ProcessView::Forward(packet@),
            ProcessResult::NeedMoreData => ProcessView::NeedMoreData,
            ProcessResult::Passthrough => ProcessView::Passthrough,
        }
    }
}

/// What is known of one client.
pub struct SessionView<H> {
    pub proxy: frontend::ProxyView<H>,
    pub stream: Seq<Option<u8>>,
    pub header: Option<quic_packet::HeaderView>,
}

/// Whether handshake data starts with a complete ClientHello.
pub enum Collected {
    /// More data is needed.
    Incomplete,
    /// It starts with something else.
    Other,
    /// It starts with this ClientHello.
    Hello(Seq<u8>),
}

/// What handshake data starts with.
pub open spec fn collected(data: Seq<u8>) -> Collected {
    if data.len() < 4 {
        Collected::Incomplete
    } else if data[0] != CLIENT_HELLO {
        Collected::Other
    } else {
        let len = 4 + data[1] * 65536 + data[2] * 256 + data[3];
        if data.len() < len {
            Collected::Incomplete
        } else {
            Collected::Hello(data.take(len))
        }
    }
}

/// What is known of a client once the CRYPTO data of an Initial packet has been
/// taken in. The header of the first packet is kept.
pub open spec fn with_initial<H>(
    session: SessionView<H>,
    initial: quic_packet::InitialView,
) -> SessionView<H> {
    SessionView {
        proxy: session.proxy,
        stream: crypto_frames::with_segments(session.stream, initial.segments),
        header: if session.header is Some {
            session.header
        } else {
            Some(initial.header)
        },
    }
}

/// What an Initial packet leads to, and what is known afterwards.
pub open spec fn processed_initial<H: Hpke>(
    session: SessionView<H>,
    initial: quic_packet::InitialView,
) -> (Result<ProcessView, ProxyErrorView>, SessionView<H>) {
    let next = with_initial(session, initial);
    match collected(crypto_frames::received(next.stream)) {
        Collected::Incomplete => (Ok(ProcessView::NeedMoreData), next),
        Collected::Other => (Ok(ProcessView::Passthrough), next),
        Collected::Hello(hello) => {
            let (r, proxy) = frontend::proxied_message(next.proxy, hello);
            (
                match r {
                    Err(e) => Err(ProxyErrorView::Ech(e)),
                    Ok(frontend::ProxyResultView::Decrypted(inner)) =>
                        match quic_packet::encrypted_initial(next.header->0, inner) {
                        Err(e) => Err(ProxyErrorView::Quic(e)),
                        Ok(packet) => Ok(ProcessView::Forward(packet)),
                    },
                    Ok(_) => Ok(ProcessView::Passthrough),
                },
                SessionView { proxy, ..next },
            )
        },
    }
}

/// What is forwarded carries the inner ClientHello, under the header of the
/// client's first packet: that packet gives it back.
pub open spec fn forwards_inner_hello<H: Hpke>(
    session: SessionView<H>,
    initial: quic_packet::InitialView,
    packet: Seq<u8>,
) -> bool {
    let next = with_initial(session, initial);
    let h = next.header->0;
    &&& collected(crypto_frames::received(next.stream)) matches Collected::Hello(hello)
    &&& frontend::proxied_message(next.proxy, hello).0 matches Ok(
        frontend::ProxyResultView::Decrypted(inner),
    ) && (quic_packet::is_encodable(h) ==> quic_packet::gives_back(packet, h, inner))
}

/// Handles the contents of an Initial packet.
pub fn process_initial<H: Hpke>(
    ech_proxy: &mut EchProxy<H>,
    assembler: &mut CryptoAssembler,
    saved_header: &mut Option<InitialHeader>,
    decrypted: DecryptedInitial,
) -> (r: Result<ProcessResult, ProxyError>)
    requires
        old(assembler).wf(),
    ensures
        final(assembler).wf(),
        ({
            let before = session_view(*old(ech_proxy), *old(assembler), *old(saved_header));
            let (result, after) = processed_initial(before, decrypted@);
            &&& session_view(*final(ech_proxy), *final(assembler), *final(saved_header)) == after
            &&& match r {
                Ok(p) => result == Ok::<ProcessView, ProxyErrorView>(p@),
                Err(e) => result == Err::<ProcessView, ProxyErrorView>(e@),
            }
            &&& r matches Ok(ProcessResult::Forward(packet)) ==> forwards_inner_hello(
                before,
                decrypted@,
                packet@,
            )
        }),
{
    // Save header from first Initial for re-encryption.
    let header = match saved_header {
        Some(header) => header.clone(),
        None => decrypted.header.clone(),
    };
    if saved_header.is_none() {
        *saved_header = Some(decrypted.header.clone());
    }
    // Accumulate CRYPTO segments.

    assembler.add_segments(&decrypted.crypto_segments);
    let hs_data = assembler.contiguous_data();

    // A ClientHello starts with type(1) + length(3).
    if hs_data.len() < 4 {
        return Ok(ProcessResult::NeedMoreData);
    }
    if hs_data[0] != CLIENT_HELLO {
        // Not a ClientHello: pass through.
        return Ok(ProcessResult::Passthrough);
    }
    let msg_len = hs_data[1] as usize * 65536 + hs_data[2] as usize * 256 + hs_data[3] as usize;
    if hs_data.len() < 4 + msg_len {
        return Ok(ProcessResult::NeedMoreData);
    }
    // A complete ClientHello handshake message. Run ECH proxy.

    let client_hello_msg = &hs_data[0..4 + msg_len];
    assert(client_hello_msg@ =~= hs_data@.take(4 + msg_len));
    match ech_proxy.process_client_hello_msg(client_hello_msg) {
        Err(e) => Err(ProxyError::Ech(e)),
        Ok(EchProxyResult::Decrypted(inner_msg)) => {
            // Re-encrypt into a new Initial packet with the inner ClientHello.
            match quic_packet::encrypt_initial(&header, &inner_msg) {
                Err(e) => Err(ProxyError::Quic(e)),
                Ok(new_packet) => Ok(ProcessResult::Forward(new_packet)),
            }
        },
        Ok(EchProxyResult::NotOffered) => Ok(ProcessResult::Passthrough),
        Ok(EchProxyResult::Rejected(_)) => Ok(ProcessResult::Passthrough),
    }
}

/// What is known of one client, from the parts that hold it.
pub open spec fn session_view<H: Hpke>(
    proxy: EchProxy<H>,
    assembler: CryptoAssembler,
    header: Option<InitialHeader>,
) -> SessionView<H> {
    SessionView {
        proxy: proxy@,
        stream: assembler@,
        header: match header {
            Some(h) => Some(h@),
            None => None,
        },
    }
}

/// Per-client proxy state.
pub struct ClientSession<H: Hpke> {
    ech_proxy: EchProxy<H>,
    assembler: CryptoAssembler,
    /// Saved header from first Initial (for re-encryption).
    initial_header: Option<InitialHeader>,
}

impl<H: Hpke> View for ClientSession<H> {
    type V = SessionView<H>;

    closed spec fn view(&self) -> SessionView<H> {
        session_view(self.ech_proxy, self.assembler, self.initial_header)
    }
}

/// What to send to the backend for a client's packet.
pub enum PacketAction {
    /// The packet as it came: ECH processing is complete.
    Passthrough,
    /// This rewritten Initial packet in place of the client's.
    Rewritten(Vec<u8>),
    /// The packet as it came: it holds part of a ClientHello.
    PartialHello,
    /// The packet as it came: its ClientHello is not to be decrypted.
    NoEch,
    /// The packet as it came: it is no Initial packet, or carries no CRYPTO data.
    NotInitial,
    /// The packet as it came: it might be valid, but cannot be read here.
    Unreadable(PacketError),
}

/// The value of a [`PacketAction`].
pub enum ActionView {
    Passthrough,
    Rewritten(Seq<u8>),
    PartialHello,
    NoEch,
    NotInitial,
    Unreadable(PacketError),
}

impl View for PacketAction {
    type V = ActionView;

    open spec fn view(&self) -> ActionView {
        match self {
            PacketAction::Passthrough => ActionView::Passthrough,
            PacketAction::Rewritten(packet) => ActionView::Rewritten(packet@),
            PacketAction::PartialHello => ActionView::PartialHello,
            PacketAction::NoEch => ActionView::NoEch,
            PacketAction::NotInitial => ActionView::NotInitial,
            PacketAction::Unreadable(e) => ActionView::Unreadable(*e),
        }
    }
}

/// The bytes that go to the backend.
pub open spec fn sent(action: ActionView, packet: Seq<u8>) -> Seq<u8> {
    match action {
        ActionView::Rewritten(rewritten) => rewritten,
        _ => packet,
    }
}

impl PacketAction {
    /// The bytes to send for `packet`.
    pub fn bytes_to_send<'a>(&'a self, packet: &'a [u8]) -> (bytes: &'a [u8])
        ensures
            bytes@ == sent(self@, packet@),
    {
        match self {
            PacketAction::Rewritten(rewritten) => rewritten.as_slice(),
            _ => packet,
        }
    }
}

/// What to do with a client's packet, and what is known afterwards.
pub open spec fn handled<H: Hpke>(session: SessionView<H>, packet: Seq<u8>) -> (
    Result<ActionView, ProxyErrorView>,
    SessionView<H>,
) {
    if session.proxy.done {
        (Ok(ActionView::Passthrough), session)
    } else {
        match quic_packet::decrypted_initial(packet) {
            Err(e) => (Ok(ActionView::Unreadable(e)), session),
            Ok(None) => (Ok(ActionView::NotInitial), session),
            Ok(Some(initial)) => {
                let (r, next) = processed_initial(session, initial);
                (
                    match r {
                        Err(e) => Err(e),
                        Ok(ProcessView::Forward(rewritten)) => Ok(ActionView::Rewritten(rewritten)),
                        Ok(ProcessView::NeedMoreData) => Ok(ActionView::PartialHello),
                        Ok(ProcessView::Passthrough) => Ok(ActionView::NoEch),
                    },
                    next,
                )
            },
        }
    }
}

impl<H: Hpke> ClientSession<H> {
    /// Whether the parts of the session are in order.
    pub closed spec fn wf(&self) -> bool {
        self.assembler.wf()
    }

    /// The state of a client that nothing has been received from.
    pub fn new(keys: Arc<[EchServerKey<H>]>) -> (s: ClientSession<H>)
        ensures
            s.wf(),
            s@ == (SessionView {
                proxy: frontend::ProxyView { keys: keys@, frontend: None, done: false },
                stream: Seq::empty(),
                header: None,
            }),
    {
        let assembler = CryptoAssembler::new();
        assert(assembler@ =~= Seq::empty());
        ClientSession { ech_proxy: EchProxy::new(keys), assembler, initial_header: None }
    }

    /// Process a single client packet: ECH-decrypt if Initial, otherwise forward.
    pub fn handle_client_packet(&mut self, packet: &[u8]) -> (r: Result<PacketAction, ProxyError>)
        requires
            old(self).wf(),
        ensures
            final(self).wf(),
            final(self)@ == handled(old(self)@, packet@).1,
            match r {
                Ok(action) => handled(old(self)@, packet@).0 == Ok::<ActionView, ProxyErrorView>(
                    action@,
                ),
                Err(e) => handled(old(self)@, packet@).0 == Err::<ActionView, ProxyErrorView>(e@),
            },
            r matches Ok(PacketAction::Rewritten(rewritten)) ==> {
                &&& quic_packet::decrypted_initial(packet@) matches Ok(Some(initial))
                &&& forwards_inner_hello(old(self)@, initial, rewritten@)
                &&& old(self)@.header is None && initial.header.packet_number < 65536 ==> (
                quic_packet::decrypted_initial(rewritten@) matches Ok(Some(sent)) && sent.header
                    == initial.header)
            },
    {
        if self.ech_proxy.is_done() {
            return Ok(PacketAction::Passthrough);
        }
        match quic_packet::decrypt_initial(packet) {
            Err(e) => Ok(PacketAction::Unreadable(e)),
            Ok(None) => Ok(PacketAction::NotInitial),
            Ok(Some(decrypted)) => {
                proof {
                    if decrypted@.header.packet_number < 65536 {
                        quic_packet::decrypted_header_is_encodable(packet@, decrypted@);
                    }
                }
                match process_initial(
                    &mut self.ech_proxy,
                    &mut self.assembler,
                    &mut self.initial_header,
                    decrypted,
                ) {
                    Err(e) => Err(e),
                    Ok(ProcessResult::Forward(rewritten)) => Ok(PacketAction::Rewritten(rewritten)),
                    Ok(ProcessResult::NeedMoreData) => Ok(PacketAction::PartialHello),
                    Ok(ProcessResult::Passthrough) => Ok(PacketAction::NoEch),
                }
            },
        }
    }
}

/// Whether a client that has been silent for the given time is to be forgotten.
pub fn is_idle(idle_nanos: u128, idle_timeout_secs: u64) -> (idle: bool)
    ensures
        idle == (idle_nanos > idle_timeout_secs * 1_000_000_000),
{
    idle_nanos > idle_timeout_secs as u128 * 1_000_000_000
}

/// Once the proxy is done with a client, every packet goes on as it came and
/// nothing changes any more.
pub proof fn done_session_passes_everything<H: Hpke>(session: SessionView<H>, packet: Seq<u8>)
    requires
        session.proxy.done,
    ensures
        handled(session, packet).1 == session,
        handled(session, packet).0 matches Ok(action) && sent(action, packet) == packet,
{
}

/// A packet that is no Initial packet of a known version, or does not open, goes
/// on as it came and changes nothing.
pub proof fn other_packets_pass_unchanged<H: Hpke>(session: SessionView<H>, packet: Seq<u8>)
    requires
        !(quic_packet::decrypted_initial(packet) matches Ok(Some(_))),
    ensures
        handled(session, packet).1 == session,
        handled(session, packet).0 matches Ok(action) && sent(action, packet) == packet,
{
}

/// The header of the first Initial packet is kept: no later packet changes it.
pub proof fn first_header_is_kept<H: Hpke>(session: SessionView<H>, packet: Seq<u8>)
    requires
        session.header is Some,
    ensures
        handled(session, packet).1.header == session.header,
{
}

/// Until the ClientHello is complete, ECH processing does not begin.
pub proof fn partial_hello_is_only_collected<H: Hpke>(session: SessionView<H>, packet: Seq<u8>)
    requires
        handled(session, packet).0 matches Ok(action) && action is PartialHello,
    ensures
        handled(session, packet).1.proxy == session.proxy,
        sent(handled(session, packet).0->Ok_0, packet) == packet,
{
}

/// A ClientHello is recognised no matter how it was cut into CRYPTO frames, in
/// which order they came, and what comes after it: frames that carry parts of
/// the handshake data and cover it give the ClientHello that it starts with.
pub proof fn hello_is_collected_from_any_frames(
    data: Seq<u8>,
    segments: Seq<crypto_frames::SegmentView>,
)
    requires
        data.len() <= crypto_frames::MAX_CRYPTO_ASSEMBLER_SIZE,
        forall|k: int|
            0 <= k < segments.len() ==> crypto_frames::is_part_of(#[trigger] segments[k], data),
        forall|i: int| 0 <= i < data.len() ==> crypto_frames::any_covers(segments, i),
    ensures
        collected(
            crypto_frames::received(crypto_frames::with_segments(Seq::empty(), segments)),
        ) == collected(data),
{
    crypto_frames::segments_give_the_message(data, segments);
}

/// What handshake data starts with, from its bytes: a ClientHello of the length
/// that its header says, once that many bytes are there.
pub proof fn hello_is_collected_by_its_length(data: Seq<u8>)
    ensures
        data.len() < 4 ==> collected(data) is Incomplete,
        data.len() >= 4 && data[0] != 1 ==> collected(data) is Other,
        data.len() >= 4 && data[0] == 1 ==> {
            let len = 4 + data[1] * 0x10000 + data[2] * 0x100 + data[3];
            if data.len() < len {
                collected(data) is Incomplete
            } else {
                collected(data) == Collected::Hello(data.take(len))
            }
        },
{
}

/// What comes of an Initial packet with a first ClientHello that is decrypted: the
/// inner ClientHello, sealed under the header that is kept. That is the header of
/// the client's first Initial packet with CRYPTO data, with nothing changed.
pub proof fn inner_hello_is_sealed_under_the_first_header<H: Hpke>(
    session: SessionView<H>,
    packet: Seq<u8>,
    initial: quic_packet::InitialView,
    hello: Seq<u8>,
    inner: Seq<u8>,
)
    requires
        !session.proxy.done,
        quic_packet::decrypted_initial(packet) == Ok::<
            Option<quic_packet::InitialView>,
            PacketError,
        >(Some(initial)),
        ({
            let data = crypto_frames::received(
                crypto_frames::with_segments(session.stream, initial.segments),
            );
            &&& hello.len() >= 4
            &&& hello[0] == 1
            &&& hello.len() == 4 + hello[1] * 0x10000 + hello[2] * 0x100 + hello[3]
            &&& hello.is_prefix_of(data)
        }),
        frontend::proxied_message(session.proxy, hello).0 == Ok::<
            frontend::ProxyResultView,
            crate::error::ErrorView,
        >(frontend::ProxyResultView::Decrypted(inner)),
    ensures
        ({
            let header = if session.header is Some {
                session.header->0
            } else {
                initial.header
            };
            &&& handled(session, packet).1.header == Some(header)
            &&& handled(session, packet).1.proxy == frontend::proxied_message(
                session.proxy,
                hello,
            ).1
            &&& handled(session, packet).0 == match quic_packet::encrypted_initial(header, inner) {
                Ok(rewritten) => Ok::<ActionView, ProxyErrorView>(ActionView::Rewritten(rewritten)),
                Err(e) => Err(ProxyErrorView::Quic(e)),
            }
        }),
{
    let data = crypto_frames::received(
        crypto_frames::with_segments(session.stream, initial.segments),
    );
    assert(hello =~= data.take(hello.len() as int));
    assert(data[0] == hello[0] && data[1] == hello[1] && data[2] == hello[2] && data[3]
        == hello[3]);
}

/// What comes of an Initial packet with a ClientHello that is not decrypted: it
/// goes on as it came. One that the proxy refuses is reported.
pub proof fn undecrypted_hello_is_passed_on<H: Hpke>(
    session: SessionView<H>,
    packet: Seq<u8>,
    initial: quic_packet::InitialView,
    hello: Seq<u8>,
)
    requires
        !session.proxy.done,
        quic_packet::decrypted_initial(packet) == Ok::<
            Option<quic_packet::InitialView>,
            PacketError,
        >(Some(initial)),
        ({
            let data = crypto_frames::received(
                crypto_frames::with_segments(session.stream, initial.segments),
            );
            &&& hello.len() >= 4
            &&& hello[0] == 1
            &&& hello.len() == 4 + hello[1] * 0x10000 + hello[2] * 0x100 + hello[3]
            &&& hello.is_prefix_of(data)
        }),
        !(frontend::proxied_message(session.proxy, hello).0 matches Ok(
            frontend::ProxyResultView::Decrypted(_),
        )),
    ensures
        match frontend::proxied_message(session.proxy, hello).0 {
            Err(e) => handled(session, packet).0 == Err::<ActionView, ProxyErrorView>(
                ProxyErrorView::Ech(e),
            ),
            Ok(_) => handled(session, packet).0 matches Ok(action) && sent(action, packet)
                == packet,
        },
        handled(session, packet).1.proxy == frontend::proxied_message(session.proxy, hello).1,
{
    let data = crypto_frames::received(
        crypto_frames::with_segments(session.stream, initial.segments),
    );
    assert(hello =~= data.take(hello.len() as int));
    assert(data[0] == hello[0] && data[1] == hello[1] && data[2] == hello[2] && data[3]
        == hello[3]);
}

/// What is kept of an Initial packet: its CRYPTO data behind what came before,
/// and its header if it is the first. While data is missing, nothing else happens.
pub proof fn crypto_data_is_kept<H: Hpke>(
    session: SessionView<H>,
    packet: Seq<u8>,
    initial: quic_packet::InitialView,
)
    requires
        !session.proxy.done,
        quic_packet::decrypted_initial(packet) == Ok::<
            Option<quic_packet::InitialView>,
            PacketError,
        >(Some(initial)),
    ensures
        handled(session, packet).1.stream == crypto_frames::with_segments(
            session.stream,
            initial.segments,
        ),
        handled(session, packet).1.header == if session.header is Some {
            session.header
        } else {
            Some(initial.header)
        },
        ({
            let data = crypto_frames::received(
                crypto_frames::with_segments(session.stream, initial.segments),
            );
            data.len() < 4 || data[0] == 1 && data.len() < 4 + data[1] * 0x10000 + data[2] * 0x100
                + data[3] ==> {
                &&& handled(session, packet).1.proxy == session.proxy
                &&& handled(session, packet).0 matches Ok(action) && sent(action, packet) == packet
            }
        }),
{
}

/// What is sent for a packet: the rewritten one where there is one, and the packet
/// itself otherwise.
pub proof fn only_rewritten_packets_differ(action: ActionView, packet: Seq<u8>)
    ensures
        action matches ActionView::Rewritten(rewritten) ==> sent(action, packet) == rewritten,
        !(action is Rewritten) ==> sent(action, packet) == packet,
{
}

/// Handshake data that does not start with a ClientHello is not looked into.
pub proof fn other_handshake_data_is_passed_on<H: Hpke>(
    session: SessionView<H>,
    packet: Seq<u8>,
    initial: quic_packet::InitialView,
)
    requires
        !session.proxy.done,
        quic_packet::decrypted_initial(packet) == Ok::<
            Option<quic_packet::InitialView>,
            PacketError,
        >(Some(initial)),
        ({
            let data = crypto_frames::received(
                crypto_frames::with_segments(session.stream, initial.segments),
            );
            data.len() >= 4 && data[0] != 1
        }),
    ensures
        handled(session, packet).1.proxy == session.proxy,
        handled(session, packet).0 matches Ok(action) && sent(action, packet) == packet,
{
}

/// What is said of a packet that goes on as it came: why it does.
pub proof fn packets_go_on_for_a_reason<H: Hpke>(session: SessionView<H>, packet: Seq<u8>)
    ensures
        session.proxy.done ==> handled(session, packet).0 == Ok::<ActionView, ProxyErrorView>(
            ActionView::Passthrough,
        ),
        !session.proxy.done ==> match quic_packet::decrypted_initial(packet) {
            Err(e) => handled(session, packet).0 == Ok::<ActionView, ProxyErrorView>(
                ActionView::Unreadable(e),
            ),
            Ok(None) => handled(session, packet).0 == Ok::<ActionView, ProxyErrorView>(
                ActionView::NotInitial,
            ),
            Ok(Some(initial)) => {
                let data = crypto_frames::received(
                    crypto_frames::with_segments(session.stream, initial.segments),
                );
                &&& data.len() < 4 || data[0] == 1 && data.len() < 4 + data[1] * 0x10000 + data[2]
                    * 0x100 + data[3] ==> handled(session, packet).0 == Ok::<
                    ActionView,
                    ProxyErrorView,
                >(ActionView::PartialHello)
                &&& data.len() >= 4 && data[0] != 1 ==> handled(session, packet).0 == Ok::<
                    ActionView,
                    ProxyErrorView,
                >(ActionView::NoEch)
            },
        },
{
}

} // verus!
