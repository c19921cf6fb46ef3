//! Lists of TLS extensions, as bytes.

use vstd::prelude::*;

use crate::wire;

verus! {

/// The type of `pre_shared_key`.
pub const PRE_SHARED_KEY: u16 = 0x0029;

/// The type of `supported_versions`.
pub const SUPPORTED_VERSIONS: u16 = 0x002b;

/// The type of `ech_outer_extensions`.
pub const ECH_OUTER_EXTENSIONS: u16 = 0xfd00;

/// The type of `encrypted_client_hello`.
pub const ENCRYPTED_CLIENT_HELLO: u16 = 0xfe0d;

/// An extension: its type and its data.
#[verifier::ext_equal]
pub struct RawExtension {
    pub typ: u16,
    pub data: Seq<u8>,
}

/// The bytes of an extension.
pub open spec fn ext_bytes(e: RawExtension) -> Seq<u8> {
    wire::be16(e.typ as int) + wire::vec16(e.data)
}

/// The bytes of a list of extensions.
pub open spec fn ext_list_bytes(list: Seq<RawExtension>) -> Seq<u8>
    decreases list.len(),
{
    if list.len() == 0 {
        Seq::empty()
    } else {
        ext_list_bytes(list.drop_last()) + ext_bytes(list.last())
    }
}

/// Reads an extension off the front.
pub open spec fn take_ext(s: Seq<u8>) -> Option<(RawExtension, Seq<u8>)> {
    match wire::take_u16(s) {
        None => None,
        Some((typ, after_type)) => match wire::take_vec16(after_type) {
            None => None,
            Some((data, rest)) => Some((RawExtension { typ, data }, rest)),
        },
    }
}

/// The extensions that `s` holds back to back, or nothing if its end is not
/// the end of an extension.
pub open spec fn ext_list(s: Seq<u8>) -> Option<Seq<RawExtension>>
    decreases s.len(),
{
    if s.len() == 0 {
        Some(Seq::empty())
    } else {
        match take_ext(s) {
            None => None,
            Some((e, rest)) => match ext_list(rest) {
                None => None,
                Some(list) => Some(seq![e] + list),
            },
        }
    }
}

/// The data of the first extension of the given type.
pub open spec fn find_ext(list: Seq<RawExtension>, typ: u16) -> Option<Seq<u8>>
    decreases list.len(),
{
    if list.len() == 0 {
        None
    } else if list[0].typ == typ {
        Some(list[0].data)
    } else {
        find_ext(list.skip(1), typ)
    }
}

/// Reading an extension gives back what `ext_bytes` wrote.
pub proof fn lemma_take_ext(e: RawExtension, rest: Seq<u8>)
    requires
        e.data.len() < 65536,
    ensures
        take_ext(ext_bytes(e) + rest) == Some((e, rest)),
{
    assert(ext_bytes(e) + rest =~= wire::be16(e.typ as int) + (wire::vec16(e.data) + rest));
    wire::lemma_take_be16(e.typ as int, wire::vec16(e.data) + rest);
    wire::lemma_take_vec16(e.data, rest);
}

/// Writing an extension that was read gives back the bytes that it was read from.
pub proof fn lemma_ext_of_taken(s: Seq<u8>)
    ensures
        take_ext(s) matches Some((e, rest)) ==> ext_bytes(e) + rest == s && e.data.len() < 65536
            && rest.len() + 4 <= s.len(),
{
    if let Some((typ, after_type)) = wire::take_u16(s) {
        if let Some((data, rest)) = wire::take_vec16(after_type) {
            wire::lemma_vec16_of_taken(after_type);
            assert(ext_bytes(RawExtension { typ, data }) + rest =~= s);
        }
    }
}

/// The bytes of two lists behind one another.
pub proof fn lemma_ext_list_bytes_concat(a: Seq<RawExtension>, b: Seq<RawExtension>)
    ensures
        ext_list_bytes(a + b) == ext_list_bytes(a) + ext_list_bytes(b),
    decreases b.len(),
{
    if b.len() == 0 {
        assert(a + b =~= a);
        assert(ext_list_bytes(a) + ext_list_bytes(b) =~= ext_list_bytes(a));
    } else {
        assert((a + b).drop_last() =~= a + b.drop_last());
        lemma_ext_list_bytes_concat(a, b.drop_last());
        assert(ext_list_bytes(a) + ext_list_bytes(b.drop_last()) + ext_bytes(b.last())
            =~= ext_list_bytes(a) + ext_list_bytes(b));
    }
}

/// The bytes of one extension as a list.
pub proof fn lemma_ext_list_bytes_one(e: RawExtension)
    ensures
        ext_list_bytes(seq![e]) == ext_bytes(e),
{
    reveal_with_fuel(ext_list_bytes, 2);
    assert(seq![e].drop_last() =~= Seq::empty());
    assert(Seq::<u8>::empty() + ext_bytes(e) =~= ext_bytes(e));
}

/// Reading a list gives back what was written.
pub proof fn ext_list_round_trip(list: Seq<RawExtension>)
    requires
        forall|i: int| 0 <= i < list.len() ==> (#[trigger] list[i]).data.len() < 65536,
    ensures
        ext_list(ext_list_bytes(list)) == Some(list),
    decreases list.len(),
{
    if list.len() == 0 {
        assert(list =~= Seq::empty());
    } else {
        let e = list[0];
        let rest = list.skip(1);
        assert(list =~= seq![e] + rest);
        lemma_ext_list_bytes_concat(seq![e], rest);
        lemma_ext_list_bytes_one(e);
        lemma_take_ext(e, ext_list_bytes(rest));
        ext_list_round_trip(rest);
    }
}

/// Writing a list that was read gives back the bytes that it was read from.
pub proof fn ext_list_rewrites(s: Seq<u8>)
    ensures
        ext_list(s) matches Some(list) ==> ext_list_bytes(list) == s && forall|i: int|
            0 <= i < list.len() ==> (#[trigger] list[i]).data.len() < 65536,
    decreases s.len(),
{
    if s.len() > 0 {
        if let Some((e, rest)) = take_ext(s) {
            lemma_ext_of_taken(s);
            ext_list_rewrites(rest);
            if let Some(tail) = ext_list(rest) {
                lemma_ext_list_bytes_concat(seq![e], tail);
                lemma_ext_list_bytes_one(e);
            }
        }
    }
}

/// Reads an extension: its type and its data. What is consumed on failure is
/// left open.
pub fn read_ext<'a>(r: &mut wire::Reader<'a>) -> (e: Option<(u16, &'a [u8])>)
    ensures
        match e {
            Some((typ, data)) => take_ext(old(r)@) == Some(
                (RawExtension { typ, data: data@ }, final(r)@),
            ),
            None => take_ext(old(r)@) is None,
        },
{
    let typ: u16 = match r.u16() {
        Some(typ) => typ,
        None => return None,
    };
    match r.vec16() {
        Some(data) => Some((typ, data)),
        None => None,
    }
}

/// Appends an extension.
pub fn put_ext(out: &mut Vec<u8>, typ: u16, data: &[u8])
    ensures
        final(out)@ == old(out)@ + ext_bytes(RawExtension { typ, data: data@ }),
{
    wire::put_u16(out, typ as usize);
    wire::put_vec16(out, data);
    assert(out@ =~= old(out)@ + ext_bytes(RawExtension { typ, data: data@ }));
}

/// How an extension is laid out: type, length and data.
pub proof fn extensions_are_laid_out(e: RawExtension)
    requires
        e.data.len() < 65536,
    ensures
        ext_bytes(e) == seq![
            (e.typ / 256) as u8,
            (e.typ % 256) as u8,
            (e.data.len() / 256) as u8,
            (e.data.len() % 256) as u8,
        ] + e.data,
{
    assert(ext_bytes(e) =~= seq![
        (e.typ / 256) as u8,
        (e.typ % 256) as u8,
        (e.data.len() / 256) as u8,
        (e.data.len() % 256) as u8,
    ] + e.data);
}

/// The bytes of a list are those of its extensions, one behind the other.
pub proof fn lists_are_laid_out(front: Seq<RawExtension>, e: RawExtension, back: Seq<RawExtension>)
    ensures
        ext_list_bytes(Seq::empty()) == Seq::<u8>::empty(),
        ext_list_bytes(front.push(e) + back) == ext_list_bytes(front) + ext_bytes(e)
            + ext_list_bytes(back),
{
    lemma_ext_list_bytes_concat(front.push(e), back);
    assert(front.push(e).drop_last() =~= front);
}

/// What is found of a type is the data of the first extension that has it, and
/// nothing is found if there is none.
pub proof fn first_extension_of_a_type_is_found(list: Seq<RawExtension>, typ: u16, k: int)
    ensures
        0 <= k < list.len() && list[k].typ == typ && (forall|i: int|
            0 <= i < k ==> (#[trigger] list[i]).typ != typ) ==> find_ext(list, typ) == Some(
            list[k].data,
        ),
        (forall|i: int| 0 <= i < list.len() ==> (#[trigger] list[i]).typ != typ) ==> find_ext(
            list,
            typ,
        ) is None,
    decreases list.len(),
{
    if list.len() > 0 && list[0].typ != typ {
        let rest = list.skip(1);
        assert(forall|i: int| 0 <= i < rest.len() ==> #[trigger] rest[i] == list[i + 1]);
        first_extension_of_a_type_is_found(rest, typ, k - 1);
        if k == 0 {
            assert(list[k].typ != typ);
        }
    }
}

} // verus!
