use vstd::prelude::*;
use vstd::string::*;
use vstd::utf8::valid_utf8;
use crate::error::VikError;
use crate::hash::{hex_lower, sha256, sha256_hex};
use crate::text::{
    all_digits, decimal, decimal_bytes, find, find_byte, first_at, is_utf8, lacks,
    lemma_ascii_utf8, lemma_decimal_parse, lemma_digits_ascii, lemma_find, lemma_find_at,
    parse_usize, parse_usize_bytes, push_all, slice_to_vec, all_ascii,
};

verus! {

/// The stored form of an object: `kind`, a space, the decimal length of
/// `data`, a NUL byte, then `data`.
pub open spec fn object_bytes(kind: Seq<u8>, data: Seq<u8>) -> Seq<u8> {
    kind + seq![32u8] + decimal(data.len()) + seq![0u8] + data
}

/// Builds the stored form of an object of the given kind.
pub fn encode_object(kind: &str, data: &[u8]) -> (r: Vec<u8>)
    ensures
        r@ == object_bytes(kind.spec_bytes(), data@),
{
    encode_object_bytes(kind.as_bytes(), data)
}

/// Builds the stored form of an object whose kind is given as bytes.
pub fn encode_object_bytes(kind: &[u8], data: &[u8]) -> (r: Vec<u8>)
    ensures
        r@ == object_bytes(kind@, data@),
{
    let mut out: Vec<u8> = Vec::new();
    push_all(&mut out, kind);
    out.push(32);
    let size = decimal_bytes(data.len() as u64);
    push_all(&mut out, size.as_slice());
    out.push(0);
    push_all(&mut out, data);
    assert(out@ =~= object_bytes(kind@, data@));
    out
}

/// An object read back: its kind and its content.
pub struct ParsedObject {
    pub kind: Vec<u8>,
    pub content: Vec<u8>,
}

/// How a stored object is read: the header runs up to the first NUL byte
/// and must be UTF-8; the kind runs up to the header's first space; the
/// rest of the header must read as a `usize` equal to the number of bytes
/// after the NUL.
pub open spec fn parse_object_spec(data: Seq<u8>) -> Result<(Seq<u8>, Seq<u8>), VikError> {
    match find(data, 0) {
        None => Err(VikError::MissingHeaderSeparator),
        Some(nul) => {
            let header = data.take(nul);
            if !valid_utf8(header) {
                Err(VikError::HeaderNotUtf8)
            } else {
                match find(header, 32) {
                    None => Err(VikError::MissingObjectSize),
                    Some(sp) => match parse_usize(header.skip(sp + 1)) {
                        None => Err(VikError::InvalidObjectSize),
                        Some(size) => {
                            let content = data.skip(nul + 1);
                            if content.len() != size {
                                Err(VikError::SizeMismatch)
                            } else {
                                Ok((header.take(sp), content))
                            }
                        },
                    },
                }
            }
        },
    }
}

/// `r` is what reading `data` as an object gives.
pub open spec fn parsed_as(r: Result<ParsedObject, VikError>, data: Seq<u8>) -> bool {
    match parse_object_spec(data) {
        Ok((kind, content)) => r matches Ok(o) && o.kind@ == kind && o.content@ == content,
        Err(e) => r == Err::<ParsedObject, VikError>(e),
    }
}

/// Reads the stored form of an object.
pub fn parse_object(data: &[u8]) -> (r: Result<ParsedObject, VikError>)
    ensures
        parsed_as(r, data@),
{
    let nul = match find_byte(data, 0) {
        None => return Err(VikError::MissingHeaderSeparator),
        Some(p) => p,
    };
    let header = slice_to_vec(data, 0, nul);
    assert(header@ =~= data@.take(nul as int));
    if !is_utf8(header.as_slice()) {
        return Err(VikError::HeaderNotUtf8);
    }
    proof {
        lemma_find(header@, 32);
    }
    let sp = match find_byte(header.as_slice(), 32) {
        None => return Err(VikError::MissingObjectSize),
        Some(p) => p,
    };
    let size_text = slice_to_vec(header.as_slice(), sp + 1, header.len());
    assert(size_text@ =~= header@.skip(sp + 1));
    let size = match parse_usize_bytes(size_text.as_slice()) {
        None => return Err(VikError::InvalidObjectSize),
        Some(n) => n,
    };
    let len = data.len();
    assert(nul < len);
    let content = slice_to_vec(data, nul + 1, len);
    assert(content@ =~= data@.skip(nul + 1));
    if content.len() != size {
        return Err(VikError::SizeMismatch);
    }
    let kind = slice_to_vec(header.as_slice(), 0, sp);
    assert(kind@ =~= header@.take(sp as int));
    Ok(ParsedObject { kind, content })
}

/// Reading back what `encode_object` wrote gives the same kind and the
/// same data, whenever the kind holds no space and no NUL byte.
pub proof fn lemma_object_roundtrip(kind: Seq<u8>, data: Seq<u8>)
    requires
        valid_utf8(kind),
        lacks(kind, 32),
        lacks(kind, 0),
        data.len() <= usize::MAX,
    ensures
        parse_object_spec(object_bytes(kind, data)) == Ok::<(Seq<u8>, Seq<u8>), VikError>(
            (kind, data),
        ),
{
    let dec = decimal(data.len());
    lemma_decimal_parse(data.len());
    lemma_digits_ascii(dec);
    let all = object_bytes(kind, data);
    let header = kind + seq![32u8] + dec;
    let nul = header.len() as int;
    assert(all =~= header + seq![0u8] + data);
    assert(all.take(nul) =~= header);
    assert forall|i: int| 0 <= i < header.len() implies header[i] != 0 by {
        if i < kind.len() {
            assert(header[i] == kind[i]);
        } else if i > kind.len() {
            assert(header[i] == dec[i - kind.len() - 1]);
            assert(all_digits(dec));
        }
    }
    lemma_find_at(all, 0, nul);
    let tail = seq![32u8] + dec;
    assert(all_ascii(tail)) by {
        assert forall|i: int| 0 <= i < tail.len() implies #[trigger] tail[i] < 128 by {
            if i > 0 {
                assert(tail[i] == dec[i - 1]);
            }
        }
    }
    lemma_ascii_utf8(tail);
    vstd::utf8::valid_utf8_concat(kind, tail);
    assert(header =~= kind + tail);
    assert(header.take(kind.len() as int) =~= kind);
    lemma_find_at(header, 32, kind.len() as int);
    assert(header.skip(kind.len() as int + 1) =~= dec);
    assert(all.skip(nul + 1) =~= data);
}

/// Where an object is stored: the directory named by the first two bytes
/// of its id, and the file named by the rest. Ids shorter than three bytes
/// are refused.
pub fn object_path(oid: &[u8]) -> (r: Result<(Vec<u8>, Vec<u8>), VikError>)
    requires
        oid@.len() >= 3 ==> !vstd::utf8::is_continuation_byte(oid@[2]),
    ensures
        match r {
            Ok((dir, file)) => oid@.len() >= 3 && dir@ == oid@.take(2) && file@ == oid@.skip(2),
            Err(e) => oid@.len() < 3 && e == VikError::InvalidObjectId,
        },
{
    if oid.len() < 3 {
        return Err(VikError::InvalidObjectId);
    }
    let dir = slice_to_vec(oid, 0, 2);
    let file = slice_to_vec(oid, 2, oid.len());
    assert(dir@ =~= oid@.take(2));
    assert(file@ =~= oid@.skip(2));
    Ok((dir, file))
}

/// The id of a stored object: the hexadecimal SHA-256 digest of its bytes.
pub open spec fn object_id(bytes: Seq<u8>) -> Seq<u8> {
    hex_lower(sha256(bytes))
}

/// An object to be stored: its id and its bytes.
pub struct StoredObject {
    pub oid: Vec<u8>,
    pub bytes: Vec<u8>,
}

impl View for StoredObject {
    type V = (Seq<u8>, Seq<u8>);

    open spec fn view(&self) -> (Seq<u8>, Seq<u8>) {
        (self.oid@, self.bytes@)
    }
}

/// The views of a sequence of stored objects.
pub open spec fn objects_view(v: Seq<StoredObject>) -> Seq<(Seq<u8>, Seq<u8>)> {
    v.map_values(|o: StoredObject| o@)
}

/// Builds the stored form of an object and its id, as `hash-object`
/// does.
pub fn hash_object(kind: &str, data: &[u8]) -> (r: StoredObject)
    ensures
        r.bytes@ == object_bytes(kind.spec_bytes(), data@),
        r.oid@ == object_id(r.bytes@),
        r.oid@.len() == 64,
        forall|i: int| 0 <= i < r.oid@.len() ==> crate::hash::is_hex_lower(#[trigger] r.oid@[i]),
{
    let bytes = encode_object(kind, data);
    let oid = sha256_hex(bytes.as_slice());
    StoredObject { oid, bytes }
}

} // verus!
