//! EncodedClientHelloInner (RFC 9849, section 5.1): the form in which an inner
//! ClientHello is sealed, and the way back from there.
//!
//! The encoding leaves the session ID out, may name extensions of the outer
//! ClientHello in place of repeating them, and is padded with zeros. The inner
//! ClientHello is put together again as bytes, because the transcript hash
//! covers them.

use vstd::prelude::*;

use crate::error::{Error, PeerMisbehaved};
use crate::extensions;
use crate::extensions::{ECH_OUTER_EXTENSIONS, ENCRYPTED_CLIENT_HELLO};
use crate::hello;
use crate::hello::{ClientHelloPayload, EncryptedClientHello, HelloPrefix};
use crate::wire;

verus! {

/// The first extension of the given type, and what follows it. The search ends
/// at an extension that is cut short.
pub open spec fn seek(list: Seq<u8>, want: u16) -> Option<(extensions::RawExtension, Seq<u8>)>
    decreases list.len(),
{
    match extensions::take_ext(list) {
        None => None,
        Some((e, rest)) => if e.typ == want {
            Some((e, rest))
        } else if rest.len() < list.len() {
            seek(rest, want)
        } else {
            None
        },
    }
}

/// The extensions of the outer ClientHello that a list of types refers to. Each
/// is looked for behind the one before it, and `encrypted_client_hello` must
/// not be referred to.
pub open spec fn referenced(types: Seq<u8>, outer: Seq<u8>) -> Option<Seq<extensions::RawExtension>>
    decreases types.len(),
{
    if types.len() == 0 {
        Some(Seq::empty())
    } else {
        match wire::take_u16(types) {
            None => None,
            Some((want, more)) => if want == ENCRYPTED_CLIENT_HELLO {
                None
            } else {
                match seek(outer, want) {
                    None => None,
                    Some((e, rest)) => match referenced(more, rest) {
                        None => None,
                        Some(tail) => Some(seq![e] + tail),
                    },
                }
            },
        }
    }
}

/// What stands for one extension of an encoded inner ClientHello: itself, or
/// what it refers to if it is `ech_outer_extensions`.
pub open spec fn expanded_ext(e: extensions::RawExtension, outer: Seq<u8>) -> Option<
    Seq<extensions::RawExtension>,
> {
    if e.typ == ECH_OUTER_EXTENSIONS {
        match wire::take_vec8(e.data) {
            None => None,
            Some((types, rest)) => if types.len() == 0 || rest.len() != 0 {
                None
            } else {
                referenced(types, outer)
            },
        }
    } else {
        Some(seq![e])
    }
}

/// The extensions of the inner ClientHello, given those of its encoding.
pub open spec fn expanded_list(list: Seq<extensions::RawExtension>, outer: Seq<u8>) -> Option<
    Seq<extensions::RawExtension>,
>
    decreases list.len(),
{
    if list.len() == 0 {
        Some(Seq::empty())
    } else {
        match (expanded_list(list.drop_last(), outer), expanded_ext(list.last(), outer)) {
            (Some(front), Some(back)) => Some(front + back),
            _ => None,
        }
    }
}

/// The extensions of the inner ClientHello as bytes, or nothing if those of its
/// encoding are malformed or cannot be resolved.
pub open spec fn expanded(inner: Seq<u8>, outer: Seq<u8>) -> Option<Seq<u8>> {
    match extensions::ext_list(inner) {
        None => None,
        Some(list) => match expanded_list(list, outer) {
            None => None,
            Some(full) => Some(extensions::ext_list_bytes(full)),
        },
    }
}

/// The body of the inner ClientHello, given its encoding, and the session ID
/// and extensions of the outer ClientHello.
pub open spec fn reconstructed(content: Seq<u8>, session_id: Seq<u8>, outer: Seq<u8>) -> Result<
    Seq<u8>,
    PeerMisbehaved,
> {
    match hello::take_prefix(content) {
        None => Err(PeerMisbehaved::InvalidEchClientHelloInner),
        Some((p, s)) => match wire::take_vec16(s) {
            None => Err(PeerMisbehaved::InvalidEchClientHelloInner),
            Some((inner, padding)) => if p.session_id.len() != 0 {
                Err(PeerMisbehaved::InvalidEchClientHelloInner)
            } else if !wire::all_zero(padding) {
                Err(PeerMisbehaved::InvalidEchPadding)
            } else {
                match expanded(inner, outer) {
                    None => Err(PeerMisbehaved::InvalidEchOuterExtension),
                    Some(full) => Ok(
                        hello::prefix_bytes(hello::PrefixView { session_id, ..p }) + wire::vec16(
                            full,
                        ),
                    ),
                }
            },
        },
    }
}

/// Whether a ClientHello may be an inner one: it has the inner marker, and
/// offers versions but not TLS 1.2.
pub open spec fn is_inner(h: hello::HelloView) -> bool {
    &&& h.extensions.encrypted_client_hello matches Some(e) && e is Inner
    &&& h.extensions.supported_versions matches Some(v) && !v.tls12
}

/// The inner ClientHello and its body, given its encoding, and the session ID
/// and extensions of the outer ClientHello.
pub open spec fn decoded_inner(encoded: Seq<u8>, session_id: Seq<u8>, outer: Seq<u8>) -> Result<
    (hello::HelloView, Seq<u8>),
    PeerMisbehaved,
> {
    match reconstructed(encoded, session_id, outer) {
        Err(e) => Err(e),
        Ok(raw) => match hello::parsed_hello(raw) {
            None => Err(PeerMisbehaved::InvalidEchClientHelloInner),
            Some(h) => if is_inner(h) {
                Ok((h, raw))
            } else {
                Err(PeerMisbehaved::InvalidEchClientHelloInner)
            },
        },
    }
}

/// A ClientHello body with its handshake header.
pub open spec fn hello_message(body: Seq<u8>) -> Seq<u8> {
    seq![1u8] + wire::be24(body.len() as int) + body
}

/// The extensions in a ClientHello with its handshake header, as bytes.
pub open spec fn message_extensions(encoded: Seq<u8>) -> Option<Seq<u8>> {
    if encoded.len() < 4 {
        None
    } else {
        match hello::take_prefix(encoded.skip(4)) {
            None => None,
            Some((_, rest)) => match wire::take_vec16(rest) {
                None => None,
                Some((list, _)) => Some(list),
            },
        }
    }
}

proof fn lemma_seek_shrinks(list: Seq<u8>, want: u16)
    ensures
        seek(list, want) matches Some((e, rest)) ==> e.typ == want && e.data.len() < 65536
            && rest.len() < list.len(),
    decreases list.len(),
{
    if let Some((e, rest)) = extensions::take_ext(list) {
        extensions::lemma_ext_of_taken(list);
        lemma_seek_shrinks(rest, want);
    }
}

proof fn lemma_expanded_list_prefix(
    a: Seq<extensions::RawExtension>,
    b: Seq<extensions::RawExtension>,
    outer: Seq<u8>,
)
    ensures
        expanded_list(a, outer) is None ==> expanded_list(a + b, outer) is None,
    decreases b.len(),
{
    if b.len() == 0 {
        assert(a + b =~= a);
    } else {
        assert((a + b).drop_last() =~= a + b.drop_last());
        lemma_expanded_list_prefix(a, b.drop_last(), outer);
    }
}

proof fn lemma_expanded_list_push(
    done: Seq<extensions::RawExtension>,
    e: extensions::RawExtension,
    outer: Seq<u8>,
)
    ensures
        expanded_list(done.push(e), outer) == match (
            expanded_list(done, outer),
            expanded_ext(e, outer),
        ) {
            (Some(front), Some(back)) => Some(front + back),
            _ => None,
        },
{
    assert(done.push(e).drop_last() =~= done);
}

/// Whether the extensions fit behind their lengths.
pub open spec fn all_fit(list: Seq<extensions::RawExtension>) -> bool {
    forall|i: int| 0 <= i < list.len() ==> (#[trigger] list[i]).data.len() < 65536
}

/// Whether `part` is what stands in `list` at the positions `at`, which increase.
pub open spec fn picked(
    part: Seq<extensions::RawExtension>,
    list: Seq<extensions::RawExtension>,
    at: Seq<int>,
) -> bool {
    &&& at.len() == part.len()
    &&& forall|i: int| 0 <= i < at.len() ==> 0 <= #[trigger] at[i] < list.len()
    &&& forall|i: int| 0 <= i < at.len() ==> #[trigger] part[i] == list[at[i]]
    &&& forall|i: int, j: int| 0 <= i < j < at.len() ==> #[trigger] at[i] < #[trigger] at[j]
}

/// The types of a list of extensions.
pub open spec fn types_of(list: Seq<extensions::RawExtension>) -> Seq<u16> {
    Seq::new(list.len(), |i: int| list[i].typ)
}

proof fn lemma_ext_list_bytes_front(list: Seq<extensions::RawExtension>)
    requires
        list.len() > 0,
        all_fit(list),
    ensures
        extensions::take_ext(extensions::ext_list_bytes(list)) == Some(
            (list[0], extensions::ext_list_bytes(list.skip(1))),
        ),
{
    assert(list =~= seq![list[0]] + list.skip(1));
    extensions::lemma_ext_list_bytes_concat(seq![list[0]], list.skip(1));
    extensions::lemma_ext_list_bytes_one(list[0]);
    extensions::lemma_take_ext(list[0], extensions::ext_list_bytes(list.skip(1)));
}

/// Whether position `k` of `list` is the first with an extension of type `want`.
spec fn is_first(list: Seq<extensions::RawExtension>, want: u16, k: int) -> bool {
    &&& 0 <= k < list.len()
    &&& list[k].typ == want
    &&& forall|i: int| 0 <= i < k ==> (#[trigger] list[i]).typ != want
}

/// Seeking finds the first extension of the wanted type.
proof fn lemma_seek_first(list: Seq<extensions::RawExtension>, want: u16, k: int)
    requires
        all_fit(list),
        is_first(list, want, k),
    ensures
        seek(extensions::ext_list_bytes(list), want) == Some(
            (list[k], extensions::ext_list_bytes(list.skip(k + 1))),
        ),
    decreases list.len(),
{
    lemma_ext_list_bytes_front(list);
    extensions::lemma_ext_of_taken(extensions::ext_list_bytes(list));
    if k > 0 {
        let rest = list.skip(1);
        assert(list[0].typ != want);
        assert forall|i: int| 0 <= i < rest.len() implies (#[trigger] rest[i]).data.len()
            < 65536 by {
            assert(rest[i] == list[i + 1]);
        }
        assert forall|i: int| 0 <= i < k - 1 implies (#[trigger] rest[i]).typ != want by {
            assert(rest[i] == list[i + 1]);
        }
        lemma_seek_first(rest, want, k - 1);
        assert(rest.skip(k) =~= list.skip(k + 1));
    }
}

/// Seeking finds nothing if there is no extension of the wanted type.
proof fn lemma_seek_none(list: Seq<extensions::RawExtension>, want: u16)
    requires
        all_fit(list),
        forall|i: int| 0 <= i < list.len() ==> (#[trigger] list[i]).typ != want,
    ensures
        seek(extensions::ext_list_bytes(list), want) is None,
    decreases list.len(),
{
    if list.len() > 0 {
        lemma_ext_list_bytes_front(list);
        let rest = list.skip(1);
        assert(list[0].typ != want);
        assert forall|i: int| 0 <= i < rest.len() implies (#[trigger] rest[i]).data.len() < 65536
            && rest[i].typ != want by {
            assert(rest[i] == list[i + 1]);
        }
        lemma_seek_none(rest, want);
    }
}

/// There is a first extension of the wanted type, or none at all.
proof fn lemma_first_exists(list: Seq<extensions::RawExtension>, want: u16, n: int)
    requires
        0 <= n <= list.len(),
        forall|i: int| 0 <= i < n ==> (#[trigger] list[i]).typ != want,
    ensures
        (forall|i: int| 0 <= i < list.len() ==> (#[trigger] list[i]).typ != want) || (exists|k: int|
            is_first(list, want, k)),
    decreases list.len() - n,
{
    if n < list.len() {
        if list[n].typ == want {
            assert(is_first(list, want, n));
        } else {
            lemma_first_exists(list, want, n + 1);
        }
    }
}

/// What a list of types refers to has those types, is taken from the outer
/// ClientHello in the order in which it stands there, and never holds the
/// `encrypted_client_hello` extension.
pub proof fn references_keep_outer_order(types: Seq<u8>, outer: Seq<extensions::RawExtension>)
    requires
        all_fit(outer),
    ensures
        referenced(types, extensions::ext_list_bytes(outer)) matches Some(list) ==> {
            &&& hello::words(types) == Some(types_of(list))
            &&& exists|at: Seq<int>| #[trigger] picked(list, outer, at)
            &&& forall|i: int|
                0 <= i < list.len() ==> (#[trigger] list[i]).typ != ENCRYPTED_CLIENT_HELLO
        },
    decreases types.len(),
{
    let bytes = extensions::ext_list_bytes(outer);
    if let Some(list) = referenced(types, bytes) {
        if types.len() == 0 {
            assert(picked(list, outer, Seq::empty()));
            assert(hello::words(types)->0 =~= types_of(list));
        } else {
            let (want, more) = wire::take_u16(types)->0;
            lemma_first_exists(outer, want, 0);
            if forall|i: int| 0 <= i < outer.len() ==> (#[trigger] outer[i]).typ != want {
                lemma_seek_none(outer, want);
            } else {
                let k = choose|k: int| is_first(outer, want, k);
                lemma_seek_first(outer, want, k);
                let rest = outer.skip(k + 1);
                assert forall|i: int| 0 <= i < rest.len() implies (#[trigger] rest[i]).data.len()
                    < 65536 by {
                    assert(rest[i] == outer[i + k + 1]);
                }
                references_keep_outer_order(more, rest);
                let tail = referenced(more, extensions::ext_list_bytes(rest))->0;
                let at = choose|at: Seq<int>| #[trigger] picked(tail, rest, at);
                let whole = seq![k] + Seq::new(at.len(), |i: int| at[i] + k + 1);
                assert(list == seq![outer[k]] + tail);
                assert(picked(list, outer, whole)) by {
                    assert forall|i: int| 0 <= i < whole.len() implies 0 <= #[trigger] whole[i]
                        < outer.len() && list[i] == outer[whole[i]] by {
                        if i > 0 {
                            assert(0 <= at[i - 1] < rest.len());
                            assert(tail[i - 1] == rest[at[i - 1]]);
                        }
                    }
                    assert forall|i: int, j: int| 0 <= i < j < whole.len() implies #[trigger] whole[i]
                        < #[trigger] whole[j] by {
                        if i > 0 {
                            assert(at[i - 1] < at[j - 1]);
                        } else {
                            assert(0 <= at[j - 1]);
                        }
                    }
                }
                let w = hello::words(types);
                assert(hello::words(more) == Some(types_of(tail)));
                assert(more.len() == 2 * tail.len()) by {
                    assert(types_of(tail).len() == more.len() / 2);
                }
                assert(w->0 =~= types_of(list)) by {
                    assert forall|i: int| 0 <= i < types_of(list).len() implies #[trigger] (
                    w->0)[i] == types_of(list)[i] by {
                        if i > 0 {
                            assert(types_of(list)[i] == types_of(tail)[i - 1]);
                            assert((hello::words(more)->0)[i - 1] == types_of(tail)[i - 1]);
                            assert(more[2 * (i - 1)] == types[2 * i]);
                            assert(more[2 * (i - 1) + 1] == types[2 * i + 1]);
                        }
                    }
                }
                assert forall|i: int| 0 <= i < list.len() implies (#[trigger] list[i]).typ
                    != ENCRYPTED_CLIENT_HELLO by {
                    if i > 0 {
                        assert(list[i] == tail[i - 1]);
                    }
                }
            }
        }
    }
}

/// A reference is resolved to the next extension of its type: extensions that stand
/// in the outer ClientHello in the same order can be referred to by their types,
/// unless one of the same type stands between the one before and the one meant.
pub proof fn references_are_resolved_to_the_next_match(
    part: Seq<extensions::RawExtension>,
    outer: Seq<extensions::RawExtension>,
    at: Seq<int>,
)
    requires
        all_fit(outer),
        picked(part, outer, at),
        forall|i: int, j: int|
            0 <= i < part.len() && (i == 0 || at[i - 1] < j) && 0 <= j < at[i] ==> (
            #[trigger] outer[j]).typ != (#[trigger] part[i]).typ,
        forall|i: int| 0 <= i < part.len() ==> (#[trigger] part[i]).typ != ENCRYPTED_CLIENT_HELLO,
    ensures
        referenced(hello::word_bytes(types_of(part)), extensions::ext_list_bytes(outer)) == Some(
            part,
        ),
    decreases part.len(),
{
    let types = hello::word_bytes(types_of(part));
    if part.len() == 0 {
        assert(part =~= Seq::empty());
    } else {
        let k = at[0];
        let rest = outer.skip(k + 1);
        let tail = part.skip(1);
        let at_rest = Seq::new((at.len() - 1) as nat, |i: int| at[i + 1] - k - 1);
        assert(part[0] == outer[k]);
        assert(is_first(outer, part[0].typ, k));
        lemma_seek_first(outer, part[0].typ, k);
        assert forall|i: int| 0 <= i < rest.len() implies (#[trigger] rest[i]).data.len()
            < 65536 by {
            assert(rest[i] == outer[i + k + 1]);
        }
        assert(picked(tail, rest, at_rest)) by {
            assert forall|i: int| 0 <= i < at_rest.len() implies 0 <= #[trigger] at_rest[i]
                < rest.len() && tail[i] == rest[at_rest[i]] by {
                assert(at[0] < at[i + 1]);
                assert(part[i + 1] == outer[at[i + 1]]);
            }
            assert forall|i: int, j: int| 0 <= i < j < at_rest.len() implies #[trigger] at_rest[i]
                < #[trigger] at_rest[j] by {
                assert(at[i + 1] < at[j + 1]);
            }
        }
        assert forall|i: int, j: int|
            0 <= i < tail.len() && (i == 0 || at_rest[i - 1] < j) && 0 <= j < at_rest[i] implies (
        #[trigger] rest[j]).typ != (#[trigger] tail[i]).typ by {
            assert(rest[j] == outer[j + k + 1]);
            assert(tail[i] == part[i + 1]);
        }
        assert forall|i: int| 0 <= i < tail.len() implies (#[trigger] tail[i]).typ
            != ENCRYPTED_CLIENT_HELLO by {
            assert(tail[i] == part[i + 1]);
        }
        references_are_resolved_to_the_next_match(tail, rest, at_rest);
        assert(part[0].typ == types_of(part)[0]);
        assert(types.skip(2) =~= hello::word_bytes(types_of(tail))) by {
            assert forall|i: int| 0 <= i < types.skip(2).len() implies #[trigger] types.skip(2)[i]
                == hello::word_bytes(types_of(tail))[i] by {
                assert(types_of(tail)[i / 2] == types_of(part)[i / 2 + 1]);
            }
        }
        assert(types[0] * 256 + types[1] == part[0].typ);
        assert(seq![outer[k]] + tail =~= part);
    }
}

/// Extensions that stand in the outer ClientHello in the same order can be
/// referred to by their types: the reference gives them back.
pub proof fn references_are_resolved(
    part: Seq<extensions::RawExtension>,
    outer: Seq<extensions::RawExtension>,
    at: Seq<int>,
)
    requires
        all_fit(outer),
        picked(part, outer, at),
        forall|i: int, j: int|
            0 <= i < j < outer.len() ==> (#[trigger] outer[i]).typ != (#[trigger] outer[j]).typ,
        forall|i: int| 0 <= i < part.len() ==> (#[trigger] part[i]).typ != ENCRYPTED_CLIENT_HELLO,
    ensures
        referenced(hello::word_bytes(types_of(part)), extensions::ext_list_bytes(outer)) == Some(
            part,
        ),
{
    assert forall|i: int, j: int|
        0 <= i < part.len() && (i == 0 || at[i - 1] < j) && 0 <= j < at[i] implies (
    #[trigger] outer[j]).typ != (#[trigger] part[i]).typ by {
        assert(part[i] == outer[at[i]]);
    }
    references_are_resolved_to_the_next_match(part, outer, at);
}

/// Extensions that refer to nothing are kept as they are.
pub proof fn nothing_referenced_nothing_changed(inner: Seq<u8>, outer: Seq<u8>)
    requires
        extensions::ext_list(inner) matches Some(list) && forall|i: int|
            0 <= i < list.len() ==> (#[trigger] list[i]).typ != ECH_OUTER_EXTENSIONS,
    ensures
        expanded(inner, outer) == Some(inner),
{
    let list = extensions::ext_list(inner)->0;
    lemma_expanded_plain(list, outer);
    extensions::ext_list_rewrites(inner);
}

proof fn lemma_expanded_plain(list: Seq<extensions::RawExtension>, outer: Seq<u8>)
    requires
        forall|i: int| 0 <= i < list.len() ==> (#[trigger] list[i]).typ != ECH_OUTER_EXTENSIONS,
    ensures
        expanded_list(list, outer) == Some(list),
    decreases list.len(),
{
    if list.len() > 0 {
        lemma_expanded_plain(list.drop_last(), outer);
        assert(list.drop_last() + seq![list.last()] =~= list);
    } else {
        assert(list =~= Seq::empty());
    }
}

proof fn lemma_referenced_fits(types: Seq<u8>, outer: Seq<u8>)
    ensures
        referenced(types, outer) matches Some(list) ==> all_fit(list),
    decreases types.len(),
{
    if types.len() > 0 {
        if let Some((want, more)) = wire::take_u16(types) {
            if let Some((_, rest)) = seek(outer, want) {
                lemma_seek_shrinks(outer, want);
                lemma_referenced_fits(more, rest);
            }
        }
    }
}

proof fn lemma_expanded_fits(list: Seq<extensions::RawExtension>, outer: Seq<u8>)
    requires
        all_fit(list),
    ensures
        expanded_list(list, outer) matches Some(full) ==> all_fit(full),
    decreases list.len(),
{
    if list.len() > 0 {
        lemma_expanded_fits(list.drop_last(), outer);
        if let Some((types, _)) = wire::take_vec8(list.last().data) {
            lemma_referenced_fits(types, outer);
        }
    }
}

/// What comes out of the expansion is again a list of extensions: those that
/// the references were expanded to.
pub proof fn expansion_is_well_formed(inner: Seq<u8>, outer: Seq<u8>)
    ensures
        expanded(inner, outer) matches Some(full) ==> extensions::ext_list(full) == expanded_list(
            extensions::ext_list(inner)->0,
            outer,
        ),
{
    if let Some(list) = extensions::ext_list(inner) {
        extensions::ext_list_rewrites(inner);
        lemma_expanded_fits(list, outer);
        if let Some(full) = expanded_list(list, outer) {
            extensions::ext_list_round_trip(full);
        }
    }
}

/// Padding makes no difference to what is decoded.
pub proof fn padding_is_ignored(encoded: Seq<u8>, n: nat, session_id: Seq<u8>, outer: Seq<u8>)
    requires
        decoded_inner(encoded, session_id, outer) is Ok,
    ensures
        decoded_inner(encoded + wire::zeros(n), session_id, outer) == decoded_inner(
            encoded,
            session_id,
            outer,
        ),
{
    let pad = wire::zeros(n);
    let (p, s) = hello::take_prefix(encoded)->0;
    let (inner, padding) = wire::take_vec16(s)->0;
    hello::lemma_prefix_of_taken(encoded);
    assert(encoded + pad =~= hello::prefix_bytes(p) + (s + pad));
    hello::lemma_take_prefix(p, s + pad);
    wire::lemma_vec16_of_taken(s);
    assert(s + pad =~= wire::vec16(inner) + (padding + pad));
    wire::lemma_take_vec16(inner, padding + pad);
}

/// The encoding of an inner ClientHello: its fields, its extensions or references
/// to them, and padding.
pub open spec fn encoded_inner(
    p: hello::PrefixView,
    list: Seq<extensions::RawExtension>,
    padding: nat,
) -> Seq<u8> {
    hello::prefix_bytes(p) + wire::vec16(extensions::ext_list_bytes(list)) + wire::zeros(padding)
}

/// The body of an inner ClientHello, with the session ID of the outer one.
pub open spec fn restored_inner(
    p: hello::PrefixView,
    full: Seq<extensions::RawExtension>,
    session_id: Seq<u8>,
) -> Seq<u8> {
    hello::prefix_bytes(hello::PrefixView { session_id, ..p }) + wire::vec16(
        extensions::ext_list_bytes(full),
    )
}

/// Whether an inner ClientHello can be sent in this encoding: the fields fit
/// behind their lengths and leave the session ID out, the references resolve to
/// `full`, and what they resolve to is an inner ClientHello.
pub open spec fn encodes_inner(
    p: hello::PrefixView,
    list: Seq<extensions::RawExtension>,
    full: Seq<extensions::RawExtension>,
    session_id: Seq<u8>,
    outer: Seq<u8>,
) -> bool {
    &&& hello::prefix_fits(p)
    &&& p.session_id.len() == 0
    &&& all_fit(list)
    &&& extensions::ext_list_bytes(list).len() < 65536
    &&& expanded_list(list, outer) == Some(full)
    &&& hello::parsed_hello(restored_inner(p, full, session_id)) matches Some(h) && is_inner(h)
}

/// What a client encodes is what the server decodes: the inner ClientHello with
/// whatever extensions it has, those that it referred to among them, under the
/// session ID of the outer ClientHello.
pub proof fn encoded_hello_is_decoded(
    p: hello::PrefixView,
    list: Seq<extensions::RawExtension>,
    full: Seq<extensions::RawExtension>,
    padding: nat,
    session_id: Seq<u8>,
    outer: Seq<u8>,
)
    requires
        encodes_inner(p, list, full, session_id, outer),
    ensures
        ({
            let raw = restored_inner(p, full, session_id);
            decoded_inner(encoded_inner(p, list, padding), session_id, outer) == Ok::<
                (hello::HelloView, Seq<u8>),
                PeerMisbehaved,
            >((hello::parsed_hello(raw)->0, raw))
        }),
{
    encoded_hello_is_restored(p, list, full, padding, session_id, outer);
}

/// What a client encodes is what the server gets back: the client's fields and
/// extensions, with the references resolved, and the session ID of the outer
/// ClientHello.
pub proof fn encoded_hello_is_restored(
    p: hello::PrefixView,
    list: Seq<extensions::RawExtension>,
    full: Seq<extensions::RawExtension>,
    padding: nat,
    session_id: Seq<u8>,
    outer: Seq<u8>,
)
    requires
        hello::prefix_fits(p),
        p.session_id.len() == 0,
        all_fit(list),
        extensions::ext_list_bytes(list).len() < 65536,
        expanded_list(list, outer) == Some(full),
    ensures
        reconstructed(encoded_inner(p, list, padding), session_id, outer) == Ok::<
            Seq<u8>,
            PeerMisbehaved,
        >(restored_inner(p, full, session_id)),
{
    let body = extensions::ext_list_bytes(list);
    let pad = wire::zeros(padding);
    let encoded = hello::prefix_bytes(p) + wire::vec16(body) + pad;
    assert(encoded =~= hello::prefix_bytes(p) + (wire::vec16(body) + pad));
    hello::lemma_take_prefix(p, wire::vec16(body) + pad);
    wire::lemma_take_vec16(body, pad);
    extensions::ext_list_round_trip(list);
}

/// An inner ClientHello that refers to nothing and is sent without its session
/// ID, padded, is decoded to itself.
pub proof fn inner_hello_round_trip(
    h: hello::HelloView,
    padding: nat,
    outer: Seq<u8>,
)
    requires
        hello::hello_valid(h),
        is_inner(h),
    ensures
        decoded_inner(
            hello::hello_bytes(hello::HelloView { session_id: Seq::empty(), ..h }) + wire::zeros(
                padding,
            ),
            h.session_id,
            outer,
        ) == Ok::<(hello::HelloView, Seq<u8>), PeerMisbehaved>((h, hello::hello_bytes(h))),
{
    let bare = hello::HelloView { session_id: Seq::empty(), ..h };
    let list = hello::extension_list(h.extensions);
    let p = hello::hello_prefix(bare);
    hello::lemma_extension_list(h.extensions);
    extensions::ext_list_rewrites(extensions::ext_list_bytes(list));
    lemma_expanded_plain(list, outer);
    encoded_hello_is_restored(p, list, list, padding, h.session_id, outer);
    assert(hello::PrefixView { session_id: h.session_id, ..p } =~= hello::hello_prefix(h));
    hello::hello_round_trip(h);
}

/// The bytes after a handshake header are the body.
pub proof fn lemma_hello_message(body: Seq<u8>)
    ensures
        hello_message(body).skip(4) == body,
{
    assert(hello_message(body).skip(4) =~= body);
}

/// Moves past the first extension of the given type and returns its data.
fn seek_ext<'a>(reader: &mut wire::Reader<'a>, want: u16) -> (r: Option<&'a [u8]>)
    ensures
        match r {
            Some(data) => seek(old(reader)@, want) == Some(
                (extensions::RawExtension { typ: want, data: data@ }, final(reader)@),
            ),
            None => seek(old(reader)@, want) is None,
        },
{
    while reader.any_left()
        invariant
            seek(reader@, want) == seek(old(reader)@, want),
        decreases reader@.len(),
    {
        proof {
            extensions::lemma_ext_of_taken(reader@);
        }
        match extensions::read_ext(reader) {
            None => {
                return None;
            },
            Some((typ, data)) => {
                if typ == want {
                    return Some(data);
                }
            },
        }
    }
    None
}

/// Appends the extensions of the outer ClientHello that `types` refers to.
fn copy_referenced(out: &mut Vec<u8>, types: &[u8], outer: &[u8]) -> (ok: bool)
    ensures
        match referenced(types@, outer@) {
            Some(list) => ok && final(out)@ == old(out)@ + extensions::ext_list_bytes(list),
            None => !ok,
        },
{
    let mut type_reader = wire::Reader::new(types);
    let mut outer_reader = wire::Reader::new(outer);
    let ghost mut done: Seq<extensions::RawExtension> = Seq::empty();
    proof {
        assert(old(out)@ + extensions::ext_list_bytes(done) =~= old(out)@);
        if let Some(list) = referenced(types@, outer@) {
            assert(done + list =~= list);
        }
    }
    while type_reader.any_left()
        invariant
            out@ == old(out)@ + extensions::ext_list_bytes(done),
            referenced(types@, outer@) == match referenced(type_reader@, outer_reader@) {
                Some(list) => Some(done + list),
                None => None,
            },
        decreases type_reader@.len(),
    {
        let want: u16 = match type_reader.u16() {
            Some(want) => want,
            None => return false,
        };
        if want == ENCRYPTED_CLIENT_HELLO {
            return false;
        }
        let data = match seek_ext(&mut outer_reader, want) {
            Some(data) => data,
            None => return false,
        };
        let ghost e = extensions::RawExtension { typ: want, data: data@ };
        extensions::put_ext(out, want, data);
        proof {
            assert(done.push(e).drop_last() =~= done);
            if let Some(tail) = referenced(type_reader@, outer_reader@) {
                assert(done + (seq![e] + tail) =~= done.push(e) + tail);
            }
            assert(out@ =~= old(out)@ + extensions::ext_list_bytes(done.push(e)));
            done = done.push(e);
        }
    }
    assert(done + Seq::empty() =~= done);
    true
}

/// Appends what stands for one extension of an encoded inner ClientHello.
fn expand_ext(out: &mut Vec<u8>, typ: u16, data: &[u8], outer: &[u8]) -> (ok: bool)
    ensures
        match expanded_ext(extensions::RawExtension { typ, data: data@ }, outer@) {
            Some(list) => ok && final(out)@ == old(out)@ + extensions::ext_list_bytes(list),
            None => !ok,
        },
{
    if typ == ECH_OUTER_EXTENSIONS {
        let mut list_reader = wire::Reader::new(data);
        let types = match list_reader.vec8() {
            Some(types) => types,
            None => return false,
        };
        if types.len() == 0 || list_reader.any_left() {
            return false;
        }
        copy_referenced(out, types, outer)
    } else {
        proof {
            extensions::lemma_ext_list_bytes_one(extensions::RawExtension { typ, data: data@ });
        }
        extensions::put_ext(out, typ, data);
        true
    }
}

/// Expand ech_outer_extensions references in the inner hello's extensions.
///
/// Walks `inner_extensions` and replaces any `ech_outer_extensions` marker with
/// the referenced extensions copied from `outer_extensions_raw`. References must
/// be listed in the same order as the outer hello.
pub fn expand_extensions_raw(inner_extensions: &[u8], outer_extensions_raw: &[u8]) -> (r: Result<
    Vec<u8>,
    Error,
>)
    ensures
        match r {
            Ok(out) => expanded(inner_extensions@, outer_extensions_raw@) == Some(out@),
            Err(e) => expanded(inner_extensions@, outer_extensions_raw@) is None && e@
                == crate::error::ErrorView::PeerMisbehaved(
                PeerMisbehaved::InvalidEchOuterExtension,
            ),
        },
{
    let ghost inner = inner_extensions@;
    let ghost outer = outer_extensions_raw@;
    let mut out: Vec<u8> = Vec::new();
    let mut reader = wire::Reader::new(inner_extensions);
    let ghost mut done: Seq<extensions::RawExtension> = Seq::empty();
    proof {
        assert(out@ =~= extensions::ext_list_bytes(expanded_list(done, outer)->0));
        if let Some(list) = extensions::ext_list(inner) {
            assert(done + list =~= list);
        }
    }
    while reader.any_left()
        invariant
            inner == inner_extensions@,
            outer == outer_extensions_raw@,
            extensions::ext_list(inner) == match extensions::ext_list(reader@) {
                Some(rest) => Some(done + rest),
                None => None,
            },
            expanded_list(done, outer) is Some,
            out@ == extensions::ext_list_bytes(expanded_list(done, outer)->0),
        decreases reader@.len(),
    {
        let ghost before = reader@;
        let (typ, data) = match extensions::read_ext(&mut reader) {
            Some(e) => e,
            None => return Err(Error::PeerMisbehaved(PeerMisbehaved::InvalidEchOuterExtension)),
        };
        let ghost e = extensions::RawExtension { typ, data: data@ };
        let ghost front = expanded_list(done, outer)->0;
        proof {
            extensions::lemma_ext_of_taken(before);
            lemma_expanded_list_push(done, e, outer);
            if let Some(rest) = extensions::ext_list(reader@) {
                assert(done + (seq![e] + rest) =~= done.push(e) + rest);
                lemma_expanded_list_prefix(done.push(e), rest, outer);
            }
        }
        if !expand_ext(&mut out, typ, data, outer_extensions_raw) {
            return Err(Error::PeerMisbehaved(PeerMisbehaved::InvalidEchOuterExtension));
        }
        proof {
            extensions::lemma_ext_list_bytes_concat(front, expanded_ext(e, outer)->0);
            done = done.push(e);
        }
    }
    assert(done + Seq::empty() =~= done);
    Ok(out)
}

/// Reconstruct the inner ClientHello as raw bytes by splicing extensions at
/// the byte level.
pub fn reconstruct_inner_bytes(
    content: &[u8],
    outer_hello: &ClientHelloPayload,
    outer_extensions_raw: &[u8],
) -> (r: Result<Vec<u8>, Error>)
    ensures
        match r {
            Ok(raw) => reconstructed(content@, outer_hello.session_id@, outer_extensions_raw@)
                == Ok::<Seq<u8>, PeerMisbehaved>(raw@),
            Err(e) => reconstructed(content@, outer_hello.session_id@, outer_extensions_raw@)
                matches Err(x) && e@ == crate::error::ErrorView::PeerMisbehaved(x),
        },
{
    let mut reader = wire::Reader::new(content);
    let p = match HelloPrefix::read(&mut reader) {
        Some(p) => p,
        None => return Err(Error::PeerMisbehaved(PeerMisbehaved::InvalidEchClientHelloInner)),
    };
    let inner_extensions = match reader.vec16() {
        Some(list) => list,
        None => return Err(Error::PeerMisbehaved(PeerMisbehaved::InvalidEchClientHelloInner)),
    };
    if p.session_id.len() != 0 {
        return Err(Error::PeerMisbehaved(PeerMisbehaved::InvalidEchClientHelloInner));
    }
    let padding = reader.rest();
    if !wire::is_all_zero(padding) {
        return Err(Error::PeerMisbehaved(PeerMisbehaved::InvalidEchPadding));
    }
    let expanded_extensions = expand_extensions_raw(inner_extensions, outer_extensions_raw)?;

    let mut out: Vec<u8> = Vec::new();
    wire::put_u16(&mut out, p.version as usize);
    wire::put_bytes(&mut out, p.random);
    outer_hello.session_id.encode(&mut out);
    wire::put_vec16(&mut out, p.cipher_suites);
    wire::put_vec8(&mut out, p.compression);
    wire::put_vec16(&mut out, &expanded_extensions);
    assert(out@ =~= hello::prefix_bytes(
        hello::PrefixView { session_id: outer_hello.session_id@, ..p@ },
    ) + wire::vec16(expanded_extensions@)) by {
        reveal(hello::prefix_bytes);
    }
    Ok(out)
}

/// Decode an EncodedClientHelloInner and reconstruct the full inner ClientHello.
///
/// Returns both a parsed `ClientHelloPayload` and the raw bytes (for the
/// transcript hash).
pub fn decode_client_hello_inner(
    encoded: &[u8],
    outer_hello: &ClientHelloPayload,
    outer_extensions_raw: &[u8],
) -> (r: Result<(ClientHelloPayload, Vec<u8>), Error>)
    ensures
        match r {
            Ok((h, raw)) => decoded_inner(
                encoded@,
                outer_hello.session_id@,
                outer_extensions_raw@,
            ) == Ok::<(hello::HelloView, Seq<u8>), PeerMisbehaved>((h@, raw@)),
            Err(e) => decoded_inner(encoded@, outer_hello.session_id@, outer_extensions_raw@)
                matches Err(x) && e@ == crate::error::ErrorView::PeerMisbehaved(x),
        },
{
    if encoded.len() == 0 {
        proof {
            reveal(hello::take_prefix);
        }
        return Err(Error::PeerMisbehaved(PeerMisbehaved::InvalidEchClientHelloInner));
    }
    let raw_inner = reconstruct_inner_bytes(encoded, outer_hello, outer_extensions_raw)?;
    let mut reader = wire::Reader::new(&raw_inner);
    let inner_hello = match ClientHelloPayload::read(&mut reader) {
        Some(h) => h,
        None => return Err(Error::PeerMisbehaved(PeerMisbehaved::InvalidEchClientHelloInner)),
    };

    // The inner hello must contain the ECH inner marker.
    let has_marker = match &inner_hello.extensions.encrypted_client_hello {
        Some(EncryptedClientHello::Inner) => true,
        _ => false,
    };
    // It must name the versions that it offers, and not offer TLS 1.2.
    let versions_fit = match &inner_hello.extensions.supported_versions {
        Some(versions) => !versions.tls12,
        None => false,
    };
    if !has_marker || !versions_fit {
        return Err(Error::PeerMisbehaved(PeerMisbehaved::InvalidEchClientHelloInner));
    }
    Ok((inner_hello, raw_inner))
}

/// Build a handshake-encoded ClientHello from raw bytes.
///
/// Constructs the `type(1) || length(3) || body` encoding needed for the
/// transcript hash.
pub fn encode_inner_hello(raw: &[u8]) -> (message: Vec<u8>)
    ensures
        message@ == hello_message(raw@),
{
    let len = raw.len();
    let mut message: Vec<u8> = Vec::new();
    message.push(1);
    message.push((len / 65536 % 256) as u8);
    message.push((len / 256 % 256) as u8);
    message.push((len % 256) as u8);
    wire::put_bytes(&mut message, raw);
    assert(message@ =~= hello_message(raw@));
    message
}

/// Extract the raw extensions bytes from a ClientHello handshake message encoding.
///
/// `encoded` is the full handshake message (type + length + body).
pub fn extract_extensions_from_client_hello(encoded: &[u8]) -> (r: Result<&[u8], Error>)
    ensures
        match r {
            Ok(list) => message_extensions(encoded@) == Some(list@),
            Err(e) => message_extensions(encoded@) is None && e@
                == crate::error::ErrorView::PeerMisbehaved(
                PeerMisbehaved::InvalidEchClientHelloInner,
            ),
        },
{
    let mut reader = wire::Reader::new(encoded);
    if reader.u8().is_none() {
        return Err(Error::PeerMisbehaved(PeerMisbehaved::InvalidEchClientHelloInner));
    }
    if u24_read(&mut reader).is_none() {
        return Err(Error::PeerMisbehaved(PeerMisbehaved::InvalidEchClientHelloInner));
    }
    assert(reader@ =~= encoded@.skip(4));
    if HelloPrefix::read(&mut reader).is_none() {
        return Err(Error::PeerMisbehaved(PeerMisbehaved::InvalidEchClientHelloInner));
    }
    match reader.vec16() {
        Some(list) => Ok(list),
        None => Err(Error::PeerMisbehaved(PeerMisbehaved::InvalidEchClientHelloInner)),
    }
}

/// Reads a 24-bit integer. Nothing is consumed if there are fewer than 3 bytes.
pub fn u24_read(r: &mut wire::Reader) -> (n: Option<usize>)
    ensures
        match n {
            Some(n) => old(r)@.len() >= 3 && final(r)@ == old(r)@.skip(3) && old(r)@.take(3)
                == wire::be24(n as int) && n < 0x100_0000,
            None => old(r)@.len() < 3 && final(r)@ == old(r)@,
        },
{
    match r.take(3) {
        Some(b) => {
            let n = b[0] as usize * 65536 + b[1] as usize * 256 + b[2] as usize;
            proof {
                wire::lemma_be24(b[0], b[1], b[2]);
                assert(b@ =~= seq![b[0], b[1], b[2]]);
            }
            Some(n)
        },
        None => None,
    }
}

/// What stands for one extension: itself, unless it is `ech_outer_extensions`.
/// That one must hold a length byte and as many bytes as it says, and at least
/// one.
pub proof fn one_extension_is_expanded(e: extensions::RawExtension, outer: Seq<u8>)
    ensures
        e.typ != 0xfd00 ==> expanded_ext(e, outer) == Some(seq![e]),
        e.typ == 0xfd00 ==> expanded_ext(e, outer) == if e.data.len() > 1 && e.data.len() == 1
            + e.data[0] {
            referenced(e.data.skip(1), outer)
        } else {
            None
        },
{
    if e.typ == 0xfd00 && e.data.len() > 1 && e.data.len() == 1 + e.data[0] {
        assert(e.data.skip(1).take(e.data[0] as int) =~= e.data.skip(1));
    }
}

/// Extensions are expanded one by one, and each stays in its place: what stands
/// for a list is what stands for its parts, one behind the other.
pub proof fn parts_are_expanded_in_place(
    a: Seq<extensions::RawExtension>,
    b: Seq<extensions::RawExtension>,
    outer: Seq<u8>,
)
    ensures
        expanded_list(Seq::empty(), outer) == Some(Seq::<extensions::RawExtension>::empty()),
        a.len() == 1 ==> expanded_list(a, outer) == expanded_ext(a[0], outer),
        expanded_list(a + b, outer) == match (expanded_list(a, outer), expanded_list(b, outer)) {
            (Some(x), Some(y)) => Some(x + y),
            _ => None,
        },
    decreases b.len(),
{
    if a.len() == 1 {
        assert(a.drop_last() =~= Seq::empty());
        if let Some(x) = expanded_ext(a[0], outer) {
            assert(Seq::<extensions::RawExtension>::empty() + x =~= x);
        }
    }
    if b.len() == 0 {
        assert(a + b =~= a);
        if let Some(x) = expanded_list(a, outer) {
            assert(x + Seq::<extensions::RawExtension>::empty() =~= x);
        }
    } else {
        assert((a + b).drop_last() =~= a + b.drop_last());
        parts_are_expanded_in_place(a, b.drop_last(), outer);
        if let (Some(x), Some(y), Some(z)) = (
            expanded_list(a, outer),
            expanded_list(b.drop_last(), outer),
            expanded_ext(b.last(), outer),
        ) {
            assert(x + y + z =~= x + (y + z));
        }
    }
}

/// An `ech_outer_extensions` extension in the middle of others is replaced by what
/// it refers to: extensions of the outer ClientHello, in the order in which they
/// stand there. The others stay as they are.
pub proof fn references_are_replaced_in_place(
    front: Seq<extensions::RawExtension>,
    part: Seq<extensions::RawExtension>,
    back: Seq<extensions::RawExtension>,
    outer: Seq<extensions::RawExtension>,
    at: Seq<int>,
)
    requires
        forall|i: int| 0 <= i < front.len() ==> (#[trigger] front[i]).typ != 0xfd00,
        forall|i: int| 0 <= i < back.len() ==> (#[trigger] back[i]).typ != 0xfd00,
        0 < part.len() <= 127,
        all_fit(outer),
        picked(part, outer, at),
        forall|i: int, j: int|
            0 <= i < j < outer.len() ==> (#[trigger] outer[i]).typ != (#[trigger] outer[j]).typ,
        forall|i: int| 0 <= i < part.len() ==> (#[trigger] part[i]).typ != 0xfe0d,
    ensures
        expanded_list(
            front + seq![
                extensions::RawExtension {
                    typ: 0xfd00,
                    data: seq![(2 * part.len()) as u8] + hello::word_bytes(types_of(part)),
                },
            ] + back,
            extensions::ext_list_bytes(outer),
        ) == Some(front + part + back),
{
    let bytes = extensions::ext_list_bytes(outer);
    let types = hello::word_bytes(types_of(part));
    let data = seq![(2 * part.len()) as u8] + types;
    let marker = extensions::RawExtension { typ: 0xfd00, data };
    references_are_resolved(part, outer, at);
    one_extension_is_expanded(marker, bytes);
    assert(data.skip(1) =~= types);
    lemma_expanded_plain(front, bytes);
    lemma_expanded_plain(back, bytes);
    parts_are_expanded_in_place(seq![marker], Seq::empty(), bytes);
    parts_are_expanded_in_place(front, seq![marker], bytes);
    parts_are_expanded_in_place(front + seq![marker], back, bytes);
}

/// How an encoding is refused: if its session ID is not left out, and if its
/// padding is not all zero.
pub proof fn bad_encodings_are_refused(
    p: hello::PrefixView,
    list: Seq<u8>,
    padding: Seq<u8>,
    session_id: Seq<u8>,
    outer: Seq<u8>,
    i: int,
)
    requires
        hello::prefix_fits(p),
        list.len() < 65536,
    ensures
        ({
            let content = hello::prefix_bytes(p) + wire::vec16(list) + padding;
            &&& p.session_id.len() > 0 ==> reconstructed(content, session_id, outer) == Err::<
                Seq<u8>,
                PeerMisbehaved,
            >(PeerMisbehaved::InvalidEchClientHelloInner)
            &&& p.session_id.len() == 0 && 0 <= i < padding.len() && padding[i] != 0
                ==> reconstructed(content, session_id, outer) == Err::<Seq<u8>, PeerMisbehaved>(
                PeerMisbehaved::InvalidEchPadding,
            )
            &&& p.session_id.len() == 0 && wire::all_zero(padding) && expanded(list, outer) is None
                ==> reconstructed(content, session_id, outer) == Err::<Seq<u8>, PeerMisbehaved>(
                PeerMisbehaved::InvalidEchOuterExtension,
            )
        }),
{
    let content = hello::prefix_bytes(p) + wire::vec16(list) + padding;
    assert(content =~= hello::prefix_bytes(p) + (wire::vec16(list) + padding));
    hello::lemma_take_prefix(p, wire::vec16(list) + padding);
    wire::lemma_take_vec16(list, padding);
}

/// Every inner ClientHello is decoded, with whatever extensions it has, in any
/// order: it needs the inner marker and a list of versions without TLS 1.2, and
/// may list any other versions. What comes out is its fields and extensions, with
/// the session ID of the outer ClientHello.
pub proof fn inner_hello_with_any_extensions_is_decoded(
    p: hello::PrefixView,
    list: Seq<extensions::RawExtension>,
    full: Seq<extensions::RawExtension>,
    padding: nat,
    session_id: Seq<u8>,
    outer: Seq<u8>,
    i: int,
    j: int,
    versions: Seq<u16>,
)
    requires
        hello::prefix_fits(p),
        p.session_id.len() == 0,
        session_id.len() <= 32,
        p.cipher_suites.len() > 0,
        p.cipher_suites.len() % 2 == 0,
        p.compression.len() > 0,
        all_fit(list),
        extensions::ext_list_bytes(list).len() < 65536,
        expanded_list(list, outer) == Some(full),
        hello::extensions_fit(full),
        0 <= i < full.len(),
        full[i] == (extensions::RawExtension { typ: 0xfe0d, data: seq![1u8] }),
        0 <= j < full.len(),
        0 < versions.len() <= 127,
        full[j] == (extensions::RawExtension {
            typ: 0x002b,
            data: seq![(2 * versions.len()) as u8] + hello::word_bytes(versions),
        }),
        forall|n: int| 0 <= n < versions.len() ==> #[trigger] versions[n] != 0x0303,
    ensures
        decoded_inner(
            hello::prefix_bytes(p) + wire::vec16(extensions::ext_list_bytes(list)) + wire::zeros(
                padding,
            ),
            session_id,
            outer,
        ) matches Ok((h, raw)) && raw == hello::prefix_bytes(
            hello::PrefixView { session_id, ..p },
        ) + wire::vec16(extensions::ext_list_bytes(full)) && h.random == p.random && h.session_id
            == session_id && h.client_version == p.version && h.compression_methods
            == p.compression,
{
    let q = hello::PrefixView { session_id, ..p };
    hello::hello_is_read_with_any_extensions(q, full, i);
    hello::hello_is_read_with_any_extensions(q, full, j);
    hello::versions_are_offered_if_listed(versions);
    hello::ech_extension_is_read_as_written(hello::EchExtView::Inner, seq![1u8]);
    encoded_hello_is_restored(p, list, full, padding, session_id, outer);
}

/// What must be in an inner ClientHello, from what it says.
pub proof fn inner_hello_needs_marker_and_versions(h: hello::HelloView)
    ensures
        is_inner(h) <==> h.extensions.encrypted_client_hello == Some(hello::EchExtView::Inner) && (
        h.extensions.supported_versions matches Some(v) && !v.tls12),
{
}

/// An encoding that restores to something that is not an inner ClientHello is
/// refused.
pub proof fn others_are_not_decoded(encoded: Seq<u8>, session_id: Seq<u8>, outer: Seq<u8>)
    ensures
        decoded_inner(encoded, session_id, outer) matches Ok((h, raw)) ==> reconstructed(
            encoded,
            session_id,
            outer,
        ) == Ok::<Seq<u8>, PeerMisbehaved>(raw) && hello::parsed_hello(raw) == Some(h) && is_inner(
            h,
        ),
        reconstructed(encoded, session_id, outer) matches Err(e) ==> decoded_inner(
            encoded,
            session_id,
            outer,
        ) == Err::<(hello::HelloView, Seq<u8>), PeerMisbehaved>(e),
        reconstructed(encoded, session_id, outer) matches Ok(raw) ==> (hello::parsed_hello(
            raw,
        ) is None || !is_inner(hello::parsed_hello(raw)->0) ==> decoded_inner(
            encoded,
            session_id,
            outer,
        ) == Err::<(hello::HelloView, Seq<u8>), PeerMisbehaved>(
            PeerMisbehaved::InvalidEchClientHelloInner,
        )),
{
}

/// Nothing is restored from bytes that do not have the form of an encoding.
pub proof fn only_encodings_are_restored(content: Seq<u8>, session_id: Seq<u8>, outer: Seq<u8>)
    requires
        reconstructed(content, session_id, outer) is Ok,
    ensures
        exists|p: hello::PrefixView, list: Seq<extensions::RawExtension>, padding: nat|
            #![trigger encoded_inner(p, list, padding)]
            content == encoded_inner(p, list, padding) && hello::prefix_fits(p)
                && p.session_id.len() == 0 && expanded_list(list, outer) is Some,
{
    let (p, s) = hello::take_prefix(content)->0;
    let (inner, padding) = wire::take_vec16(s)->0;
    let list = extensions::ext_list(inner)->0;
    hello::lemma_prefix_of_taken(content);
    wire::lemma_vec16_of_taken(s);
    extensions::ext_list_rewrites(inner);
    assert(padding =~= wire::zeros(padding.len()));
    assert(content =~= hello::prefix_bytes(p) + wire::vec16(inner) + padding);
    assert(content == encoded_inner(p, list, padding.len()));
}

/// The message of a ClientHello: its type, the length of its body in 3 bytes, and
/// the body.
pub proof fn messages_are_laid_out(body: Seq<u8>)
    requires
        body.len() < 0x100_0000,
    ensures
        hello_message(body) == seq![
            1u8,
            (body.len() / 0x10000) as u8,
            (body.len() / 0x100 % 256) as u8,
            (body.len() % 256) as u8,
        ] + body,
{
    assert(hello_message(body) =~= seq![
        1u8,
        (body.len() / 0x10000) as u8,
        (body.len() / 0x100 % 256) as u8,
        (body.len() % 256) as u8,
    ] + body);
}

/// The extensions of a message are those behind its fields, whatever follows them.
pub proof fn extensions_of_a_message(
    header: Seq<u8>,
    p: hello::PrefixView,
    list: Seq<u8>,
    behind: Seq<u8>,
)
    requires
        header.len() == 4,
        hello::prefix_fits(p),
        list.len() < 65536,
    ensures
        message_extensions(header + hello::prefix_bytes(p) + wire::vec16(list) + behind) == Some(
            list,
        ),
        message_extensions(header + hello::prefix_bytes(p)) is None,
{
    let s = header + hello::prefix_bytes(p) + wire::vec16(list) + behind;
    assert(s.skip(4) =~= hello::prefix_bytes(p) + (wire::vec16(list) + behind));
    hello::lemma_take_prefix(p, wire::vec16(list) + behind);
    wire::lemma_take_vec16(list, behind);
    assert((header + hello::prefix_bytes(p)).skip(4) =~= hello::prefix_bytes(p) + Seq::empty());
    hello::lemma_take_prefix(p, Seq::empty());
}

/// The expansion of bytes is the expansion of the extensions that they are the
/// bytes of. Bytes that are no list of extensions have none.
pub proof fn bytes_are_expanded_as_a_list(
    list: Seq<extensions::RawExtension>,
    inner: Seq<u8>,
    outer: Seq<u8>,
)
    requires
        all_fit(list),
    ensures
        expanded(extensions::ext_list_bytes(list), outer) == match expanded_list(list, outer) {
            Some(full) => Some(extensions::ext_list_bytes(full)),
            None => None,
        },
        extensions::ext_list(inner) is None ==> expanded(inner, outer) is None,
{
    extensions::ext_list_round_trip(list);
}

/// Whether a list of extensions fits, and whether extensions are picked from it in
/// order.
pub proof fn fitting_and_picking(
    part: Seq<extensions::RawExtension>,
    list: Seq<extensions::RawExtension>,
    at: Seq<int>,
)
    ensures
        all_fit(list) <==> forall|i: int|
            0 <= i < list.len() ==> (#[trigger] list[i]).data.len() <= 65535,
        at.len() == part.len() && (forall|i: int|
            0 <= i < at.len() ==> 0 <= #[trigger] at[i] < list.len()) && (forall|i: int|
            0 <= i < at.len() ==> #[trigger] part[i] == list[at[i]]) && (forall|i: int, j: int|
            0 <= i < j < at.len() ==> #[trigger] at[i] < #[trigger] at[j]) ==> picked(
            part,
            list,
            at,
        ),
{
}

} // verus!
