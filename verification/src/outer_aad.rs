//! ClientHelloOuterAAD (RFC 9849, section 5.2): the outer ClientHello with the
//! sealed payload replaced by zeros, which the payload is authenticated with.

use vstd::prelude::*;

use crate::extensions;
use crate::extensions::ENCRYPTED_CLIENT_HELLO;
use crate::hello;
use crate::hello::EncryptedClientHelloOuter;
use crate::wire;

verus! {

/// Where the data of the first `encrypted_client_hello` extension in a list
/// starts, and its length. The search ends at the first extension that is cut
/// short.
pub open spec fn ech_data_at(list: Seq<u8>) -> Option<(int, int)>
    decreases list.len(),
{
    match extensions::take_ext(list) {
        None => None,
        Some((e, rest)) => if e.typ == ENCRYPTED_CLIENT_HELLO {
            Some((4, e.data.len() as int))
        } else if rest.len() < list.len() {
            match ech_data_at(rest) {
                None => None,
                Some((start, len)) => Some((start + 4 + e.data.len(), len)),
            }
        } else {
            None
        },
    }
}

/// Where in a ClientHello body the sealed payload of `payload_len` bytes starts
/// and ends: it is at the end of the `encrypted_client_hello` extension.
pub open spec fn payload_range(body: Seq<u8>, payload_len: int) -> Option<(int, int)> {
    match hello::take_prefix(body) {
        None => None,
        Some((_, rest)) => if rest.len() < 2 {
            None
        } else {
            let base = body.len() - rest.len() + 2;
            match ech_data_at(rest.skip(2)) {
                None => None,
                Some((start, len)) => if payload_len <= len {
                    Some((base + start + len - payload_len, base + start + len))
                } else {
                    None
                },
            }
        },
    }
}

/// `s` with zeros from `start` to `end`.
pub open spec fn zeroed(s: Seq<u8>, start: int, end: int) -> Seq<u8> {
    Seq::new(
        s.len(),
        |i: int|
            if start <= i < end {
                0
            } else {
                s[i]
            },
    )
}

/// A ClientHello body with the sealed payload replaced by zeros. A body without
/// such a payload is left as it is.
pub open spec fn without_payload(body: Seq<u8>, payload_len: int) -> Seq<u8> {
    match payload_range(body, payload_len) {
        None => body,
        Some((start, end)) => zeroed(body, start, end),
    }
}

/// The additional data that the sealed payload is authenticated with, for an
/// outer ClientHello with its 4-byte handshake header.
pub open spec fn outer_aad(outer_encoded: Seq<u8>, payload_len: int) -> Seq<u8> {
    without_payload(outer_encoded.skip(4), payload_len)
}

proof fn lemma_ech_data_at(list: Seq<u8>)
    ensures
        ech_data_at(list) matches Some((start, len)) ==> 4 <= start && 0 <= len && start + len
            <= list.len(),
    decreases list.len(),
{
    if let Some((e, rest)) = extensions::take_ext(list) {
        extensions::lemma_ext_of_taken(list);
        if e.typ != ENCRYPTED_CLIENT_HELLO {
            lemma_ech_data_at(rest);
        }
    }
}

/// The payload is within the body and has the length that was asked for.
pub proof fn lemma_payload_range(body: Seq<u8>, payload_len: int)
    requires
        payload_len >= 0,
    ensures
        payload_range(body, payload_len) matches Some((start, end)) ==> 0 <= start <= end
            <= body.len() && end - start == payload_len,
{
    if let Some((_, rest)) = hello::take_prefix(body) {
        hello::lemma_prefix_of_taken(body);
        if rest.len() >= 2 {
            lemma_ech_data_at(rest.skip(2));
        }
    }
}

/// Whether two byte strings are equal but for what stands from `start` to `end`.
pub open spec fn same_outside(a: Seq<u8>, b: Seq<u8>, start: int, end: int) -> bool {
    &&& a.len() == b.len()
    &&& forall|i: int| 0 <= i < a.len() && !(start <= i < end) ==> a[i] == b[i]
}

proof fn lemma_take_ext_frame(a: Seq<u8>, b: Seq<u8>)
    requires
        a.len() == b.len(),
        a.len() >= 4 ==> a[0] == b[0] && a[1] == b[1] && a[2] == b[2] && a[3] == b[3],
    ensures
        extensions::take_ext(a) is Some <==> extensions::take_ext(b) is Some,
        extensions::take_ext(a) matches Some((e, rest)) ==> {
            let (f, other) = extensions::take_ext(b)->0;
            &&& f.typ == e.typ
            &&& f.data.len() == e.data.len()
            &&& rest =~= a.skip(4 + e.data.len() as int)
            &&& other =~= b.skip(4 + e.data.len() as int)
        },
{
    if a.len() >= 4 {
        assert(a.skip(2).skip(2) =~= a.skip(4));
        assert(b.skip(2).skip(2) =~= b.skip(4));
    }
}

proof fn lemma_ech_data_at_frame(a: Seq<u8>, b: Seq<u8>, from: int, to: int)
    requires
        ech_data_at(a) matches Some((start, len)) && start <= from && to <= start + len,
        same_outside(a, b, from, to),
    ensures
        ech_data_at(b) == ech_data_at(a),
    decreases a.len(),
{
    lemma_ech_data_at(a);
    lemma_take_ext_frame(a, b);
    let (e, rest) = extensions::take_ext(a)->0;
    let (f, other) = extensions::take_ext(b)->0;
    extensions::lemma_ext_of_taken(a);
    extensions::lemma_ext_of_taken(b);
    if e.typ != ENCRYPTED_CLIENT_HELLO {
        let n = 4 + e.data.len() as int;
        lemma_ech_data_at(rest);
        assert(same_outside(rest, other, from - n, to - n)) by {
            assert(forall|i: int| 0 <= i < rest.len() ==> rest[i] == a[i + n]);
            assert(forall|i: int| 0 <= i < rest.len() ==> other[i] == b[i + n]);
        }
        lemma_ech_data_at_frame(rest, other, from - n, to - n);
    }
}

/// Where the payload is does not depend on what it holds.
proof fn lemma_payload_range_frame(body: Seq<u8>, other: Seq<u8>, payload_len: int)
    requires
        payload_len >= 0,
        payload_range(body, payload_len) matches Some((start, end)) && same_outside(
            body,
            other,
            start,
            end,
        ),
    ensures
        payload_range(other, payload_len) == payload_range(body, payload_len),
{
    let (start, end) = payload_range(body, payload_len)->0;
    let (p, rest) = hello::take_prefix(body)->0;
    hello::lemma_prefix_of_taken(body);
    let n = body.len() - rest.len();
    lemma_ech_data_at(rest.skip(2));
    let tail = other.skip(n);
    assert(other =~= hello::prefix_bytes(p) + tail) by {
        assert(forall|i: int| 0 <= i < n ==> body[i] == hello::prefix_bytes(p)[i]);
    }
    hello::lemma_take_prefix(p, tail);
    assert(same_outside(rest.skip(2), tail.skip(2), start - n - 2, end - n - 2)) by {
        assert(forall|i: int| 0 <= i < rest.len() ==> rest[i] == body[i + n]);
    }
    lemma_ech_data_at_frame(rest.skip(2), tail.skip(2), start - n - 2, end - n - 2);
}

/// The additional data has the length of the body, is zero where the payload
/// stands, and is the body everywhere else.
pub proof fn aad_differs_only_in_payload(body: Seq<u8>, payload_len: int)
    requires
        payload_len >= 0,
    ensures
        ({
            let aad = without_payload(body, payload_len);
            match payload_range(body, payload_len) {
                None => aad == body,
                Some((start, end)) => same_outside(body, aad, start, end) && wire::all_zero(
                    aad.subrange(start, end),
                ),
            }
        }),
{
    lemma_payload_range(body, payload_len);
}

/// Two ClientHellos that differ in nothing but the payload have the same
/// additional data: a client can compute it before it has sealed the payload.
pub proof fn aad_does_not_depend_on_payload(body: Seq<u8>, other: Seq<u8>, payload_len: int)
    requires
        payload_len >= 0,
        payload_range(body, payload_len) matches Some((start, end)) && same_outside(
            body,
            other,
            start,
            end,
        ),
    ensures
        without_payload(other, payload_len) == without_payload(body, payload_len),
{
    lemma_payload_range_frame(body, other, payload_len);
    assert(without_payload(other, payload_len) =~= without_payload(body, payload_len));
}

/// Zeroing the payload a second time changes nothing.
pub proof fn zeroing_is_idempotent(body: Seq<u8>, payload_len: int)
    requires
        payload_len >= 0,
    ensures
        without_payload(without_payload(body, payload_len), payload_len) == without_payload(
            body,
            payload_len,
        ),
{
    if payload_range(body, payload_len) is Some {
        aad_does_not_depend_on_payload(body, without_payload(body, payload_len), payload_len);
    }
}

/// Where the data of the first `encrypted_client_hello` extension in a list
/// starts, and its length.
fn find_ech_data(list: &[u8]) -> (r: Option<(usize, usize)>)
    ensures
        match r {
            Some((start, len)) => ech_data_at(list@) == Some((start as int, len as int)),
            None => ech_data_at(list@) is None,
        },
{
    let mut reader = wire::Reader::new(list);
    let mut pos: usize = 0;
    while reader.any_left()
        invariant
            pos + reader@.len() == list.len(),
            ech_data_at(list@) == match ech_data_at(reader@) {
                None => None::<(int, int)>,
                Some((start, len)) => Some((pos + start, len)),
            },
        decreases reader@.len(),
    {
        let ghost before = reader@;
        match extensions::read_ext(&mut reader) {
            None => {
                return None;
            },
            Some((typ, data)) => {
                proof {
                    extensions::lemma_ext_of_taken(before);
                    assert(before.len() == reader@.len() + 4 + data@.len());
                }
                if typ == ENCRYPTED_CLIENT_HELLO {
                    return Some((pos + 4, data.len()));
                }
                pos = pos + 4 + data.len();
            },
        }
    }
    None
}

/// Where in a ClientHello body the sealed payload starts and ends.
fn find_payload(body: &[u8], payload_len: usize) -> (r: Option<(usize, usize)>)
    ensures
        match r {
            Some((start, end)) => payload_range(body@, payload_len as int) == Some(
                (start as int, end as int),
            ),
            None => payload_range(body@, payload_len as int) is None,
        },
{
    let mut reader = wire::Reader::new(body);
    proof {
        hello::lemma_prefix_of_taken(body@);
    }
    if hello::HelloPrefix::read(&mut reader).is_none() {
        return None;
    }
    let left = reader.left();
    if left < 2 {
        return None;
    }
    let base = body.len() - left + 2;
    let list = reader.rest();
    let list = &list[2..left];
    proof {
        let rest = (hello::take_prefix(body@)->0).1;
        assert(list@ =~= rest.skip(2));
        lemma_ech_data_at(list@);
    }
    match find_ech_data(list) {
        Some((start, len)) => if payload_len <= len {
            let end = base + start + len;
            Some((end - payload_len, end))
        } else {
            None
        },
        None => None,
    }
}

/// Walk the extensions in a ClientHello body and zero the ECH ciphertext payload.
///
/// `body` is the full ClientHello body (starting at version). The payload is
/// the last `payload_len` bytes of the `encrypted_client_hello` extension.
pub fn zero_ech_payload_in_extensions(body: &mut Vec<u8>, payload_len: usize)
    ensures
        final(body)@ == without_payload(old(body)@, payload_len as int),
{
    let ghost plain = body@;
    if let Some((start, end)) = find_payload(body, payload_len) {
        proof {
            lemma_payload_range(plain, payload_len as int);
        }
        let mut i: usize = start;
        assert(body@ =~= zeroed(plain, start as int, start as int));
        while i < end
            invariant
                start <= i <= end <= body@.len(),
                body@ == zeroed(plain, start as int, i as int),
            decreases end - i,
        {
            body[i] = 0;
            i = i + 1;
            assert(body@ =~= zeroed(plain, start as int, i as int));
        }
    }
}

/// Construct the ClientHelloOuterAAD: the ClientHello body with the ECH payload
/// replaced by zeros.
///
/// `outer_encoded` is the handshake message, header included.
pub fn compute_client_hello_outer_aad(
    outer_encoded: &[u8],
    ech_ext: &EncryptedClientHelloOuter,
) -> (aad: Vec<u8>)
    requires
        outer_encoded@.len() >= 4,
    ensures
        aad@ == outer_aad(outer_encoded@, ech_ext.payload@.len() as int),
{
    let body = &outer_encoded[4..outer_encoded.len()];
    assert(body@ =~= outer_encoded@.skip(4));
    let mut aad = vstd::slice::slice_to_vec(body);
    zero_ech_payload_in_extensions(&mut aad, ech_ext.payload.len());
    aad
}

proof fn lemma_ech_data_at_list(list: Seq<extensions::RawExtension>, k: int, behind: Seq<u8>)
    requires
        forall|i: int| 0 <= i < list.len() ==> (#[trigger] list[i]).data.len() < 65536,
        0 <= k < list.len(),
        list[k].typ == ENCRYPTED_CLIENT_HELLO,
        forall|i: int| 0 <= i < k ==> (#[trigger] list[i]).typ != ENCRYPTED_CLIENT_HELLO,
    ensures
        ech_data_at(extensions::ext_list_bytes(list) + behind) == Some(
            (
                extensions::ext_list_bytes(list.take(k)).len() as int + 4,
                list[k].data.len() as int,
            ),
        ),
    decreases k,
{
    let rest = list.skip(1);
    let s = extensions::ext_list_bytes(list) + behind;
    let tail = extensions::ext_list_bytes(rest) + behind;
    assert(list =~= seq![list[0]] + rest);
    extensions::lemma_ext_list_bytes_concat(seq![list[0]], rest);
    extensions::lemma_ext_list_bytes_one(list[0]);
    assert(s =~= extensions::ext_bytes(list[0]) + tail);
    extensions::lemma_take_ext(list[0], tail);
    extensions::lemma_ext_of_taken(s);
    if k > 0 {
        assert(forall|i: int| 0 <= i < rest.len() ==> #[trigger] rest[i] == list[i + 1]);
        assert(list[0].typ != ENCRYPTED_CLIENT_HELLO);
        lemma_ech_data_at_list(rest, k - 1, behind);
        assert(list.take(k) =~= seq![list[0]] + rest.take(k - 1));
        extensions::lemma_ext_list_bytes_concat(seq![list[0]], rest.take(k - 1));
    } else {
        assert(list.take(0) =~= Seq::empty());
    }
}

/// The additional data of an outer ClientHello, wherever among its extensions
/// `encrypted_client_hello` stands, and whatever the other extensions are: it is
/// the ClientHello with the same fields and extensions, in which only the payload
/// is replaced by as many zeros. The 4 bytes of the handshake header are left out,
/// and what follows the ClientHello stays.
pub proof fn aad_is_the_hello_with_an_empty_payload(
    header: Seq<u8>,
    p: hello::PrefixView,
    list: Seq<extensions::RawExtension>,
    k: int,
    outer: hello::OuterView,
    blank: hello::OuterView,
    behind: Seq<u8>,
)
    requires
        header.len() == 4,
        hello::prefix_fits(p),
        forall|i: int| 0 <= i < list.len() ==> (#[trigger] list[i]).data.len() < 65536,
        0 <= k < list.len(),
        list[k] == (extensions::RawExtension {
            typ: 0xfe0d,
            data: hello::ech_data(hello::EchExtView::Outer(outer)),
        }),
        forall|i: int| 0 <= i < k ==> (#[trigger] list[i]).typ != 0xfe0d,
        blank.cipher_suite == outer.cipher_suite,
        blank.config_id == outer.config_id,
        blank.enc == outer.enc,
        blank.payload.len() == outer.payload.len(),
        forall|i: int| 0 <= i < blank.payload.len() ==> blank.payload[i] == 0,
    ensures
        outer_aad(
            header + hello::prefix_bytes(p) + wire::vec16(extensions::ext_list_bytes(list))
                + behind,
            outer.payload.len() as int,
        ) == hello::prefix_bytes(p) + wire::vec16(
            extensions::ext_list_bytes(
                list.update(
                    k,
                    extensions::RawExtension {
                        typ: 0xfe0d,
                        data: hello::ech_data(hello::EchExtView::Outer(blank)),
                    },
                ),
            ),
        ) + behind,
{
    let bytes = extensions::ext_list_bytes(list);
    let prefix = hello::prefix_bytes(p);
    let body = prefix + wire::vec16(bytes) + behind;
    let n = outer.payload.len() as int;
    let data = list[k].data;
    let blank_ext = extensions::RawExtension {
        typ: 0xfe0d,
        data: hello::ech_data(hello::EchExtView::Outer(blank)),
    };
    let blank_bytes = extensions::ext_list_bytes(list.update(k, blank_ext));
    let front = extensions::ext_list_bytes(list.take(k));
    let back = extensions::ext_list_bytes(list.skip(k + 1));
    let start = extensions::ext_bytes(list[k]).take(4 + data.len() - n);
    assert((header + prefix + wire::vec16(bytes) + behind).skip(4) =~= body);
    assert(bytes == front + (start + outer.payload) + back) by {
        assert(list =~= list.take(k).push(list[k]) + list.skip(k + 1));
        extensions::lists_are_laid_out(list.take(k), list[k], list.skip(k + 1));
        lemma_ext_start(outer, blank);
    }
    assert(blank_bytes == front + (start + blank.payload) + back) by {
        assert(list.update(k, blank_ext) =~= list.take(k).push(blank_ext) + list.skip(k + 1));
        extensions::lists_are_laid_out(list.take(k), blank_ext, list.skip(k + 1));
        lemma_ext_start(outer, blank);
    }
    let a = prefix + wire::be16(bytes.len() as int) + front + start;
    let length = wire::be16(bytes.len() as int);
    lemma_middle_part(prefix, length, front, start, outer.payload, back, behind);
    lemma_middle_part(prefix, length, front, start, blank.payload, back, behind);
    lemma_payload_range_of_list(p, list, k, behind, n);
    assert(a.len() == prefix.len() + 2 + front.len() + 4 + data.len() - n);
    lemma_zeroed_middle(a, outer.payload, blank.payload, back + behind);
}

/// The payload of a ClientHello is at the end of the extension at position `k`.
proof fn lemma_payload_range_of_list(
    p: hello::PrefixView,
    list: Seq<extensions::RawExtension>,
    k: int,
    behind: Seq<u8>,
    n: int,
)
    requires
        hello::prefix_fits(p),
        forall|i: int| 0 <= i < list.len() ==> (#[trigger] list[i]).data.len() < 65536,
        0 <= k < list.len(),
        list[k].typ == ENCRYPTED_CLIENT_HELLO,
        forall|i: int| 0 <= i < k ==> (#[trigger] list[i]).typ != ENCRYPTED_CLIENT_HELLO,
        0 <= n <= list[k].data.len(),
    ensures
        ({
            let end = hello::prefix_bytes(p).len() + 2 + extensions::ext_list_bytes(
                list.take(k),
            ).len() + 4 + list[k].data.len();
            payload_range(
                hello::prefix_bytes(p) + wire::vec16(extensions::ext_list_bytes(list)) + behind,
                n,
            ) == Some((end - n, end as int))
        }),
{
    let bytes = extensions::ext_list_bytes(list);
    let prefix = hello::prefix_bytes(p);
    let body = prefix + wire::vec16(bytes) + behind;
    assert(body =~= prefix + (wire::vec16(bytes) + behind));
    hello::lemma_take_prefix(p, wire::vec16(bytes) + behind);
    lemma_ech_data_at_list(list, k, behind);
    assert((wire::vec16(bytes) + behind).skip(2) =~= bytes + behind);
}

proof fn lemma_middle_part(
    prefix: Seq<u8>,
    length: Seq<u8>,
    front: Seq<u8>,
    start: Seq<u8>,
    x: Seq<u8>,
    back: Seq<u8>,
    behind: Seq<u8>,
)
    ensures
        prefix + (length + (front + (start + x) + back)) + behind == (prefix + length + front
            + start) + x + (back + behind),
{
    assert(prefix + (length + (front + (start + x) + back)) + behind =~= (prefix + length + front
        + start) + x + (back + behind));
}

proof fn lemma_zeroed_middle(a: Seq<u8>, x: Seq<u8>, y: Seq<u8>, b: Seq<u8>)
    requires
        x.len() == y.len(),
        forall|i: int| 0 <= i < y.len() ==> y[i] == 0,
    ensures
        zeroed(a + x + b, a.len() as int, (a.len() + x.len()) as int) == a + y + b,
{
    assert(zeroed(a + x + b, a.len() as int, (a.len() + x.len()) as int) =~= a + y + b);
}

/// Two extensions that differ in the payload alone start alike.
proof fn lemma_ext_start(outer: hello::OuterView, blank: hello::OuterView)
    requires
        blank.cipher_suite == outer.cipher_suite,
        blank.config_id == outer.config_id,
        blank.enc == outer.enc,
        blank.payload.len() == outer.payload.len(),
    ensures
        ({
            let data = hello::ech_data(hello::EchExtView::Outer(outer));
            let e = extensions::ext_bytes(extensions::RawExtension { typ: 0xfe0d, data });
            let f = extensions::ext_bytes(
                extensions::RawExtension {
                    typ: 0xfe0d,
                    data: hello::ech_data(hello::EchExtView::Outer(blank)),
                },
            );
            let start = e.take(4 + data.len() - outer.payload.len());
            &&& e.len() == 4 + data.len()
            &&& outer.payload.len() <= data.len()
            &&& e == start + outer.payload
            &&& f == start + blank.payload
        }),
{
    let data = hello::ech_data(hello::EchExtView::Outer(outer));
    let other = hello::ech_data(hello::EchExtView::Outer(blank));
    let m = data.len() - outer.payload.len();
    assert(data.take(m) =~= other.take(m));
    assert(data =~= data.take(m) + outer.payload);
    assert(other =~= data.take(m) + blank.payload);
    let e = extensions::ext_bytes(extensions::RawExtension { typ: 0xfe0d, data });
    let f = extensions::ext_bytes(extensions::RawExtension { typ: 0xfe0d, data: other });
    let t = wire::be16(0xfe0d);
    let l = wire::be16(data.len() as int);
    assert(e =~= t + l + data.take(m) + outer.payload);
    assert(f =~= t + l + data.take(m) + blank.payload);
    assert(e.take(4 + m) =~= t + l + data.take(m));
}

/// A ClientHello without `encrypted_client_hello` is its own additional data.
pub proof fn nothing_to_zero_without_an_offer(
    p: hello::PrefixView,
    list: Seq<extensions::RawExtension>,
    payload_len: int,
)
    requires
        hello::prefix_fits(p),
        forall|i: int| 0 <= i < list.len() ==> (#[trigger] list[i]).data.len() < 65536,
        forall|i: int| 0 <= i < list.len() ==> (#[trigger] list[i]).typ != 0xfe0d,
    ensures
        ({
            let body = hello::prefix_bytes(p) + wire::vec16(extensions::ext_list_bytes(list));
            without_payload(body, payload_len) == body
        }),
{
    let bytes = extensions::ext_list_bytes(list);
    hello::lemma_take_prefix(p, wire::vec16(bytes));
    assert(wire::vec16(bytes).skip(2) =~= bytes);
    lemma_no_ech_data(list);
}

proof fn lemma_no_ech_data(list: Seq<extensions::RawExtension>)
    requires
        forall|i: int| 0 <= i < list.len() ==> (#[trigger] list[i]).data.len() < 65536,
        forall|i: int| 0 <= i < list.len() ==> (#[trigger] list[i]).typ != 0xfe0d,
    ensures
        ech_data_at(extensions::ext_list_bytes(list)) is None,
    decreases list.len(),
{
    if list.len() > 0 {
        let rest = list.skip(1);
        assert(list =~= seq![list[0]] + rest);
        extensions::lemma_ext_list_bytes_concat(seq![list[0]], rest);
        extensions::lemma_ext_list_bytes_one(list[0]);
        extensions::lemma_take_ext(list[0], extensions::ext_list_bytes(rest));
        assert(forall|i: int| 0 <= i < rest.len() ==> #[trigger] rest[i] == list[i + 1]);
        lemma_no_ech_data(rest);
    }
}

} // verus!
