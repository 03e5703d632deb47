use crate::digest::{hex_of, sha1_digest, sha1_of, to_hex};
use crate::frame::{framed, lemma_round_trip, lemma_header_unique, parse_header, push_header, stored_object};
use crate::zlib::{inflate_of, zlib_compress, zlib_decompress, zlib_of};
use vstd::prelude::*;

verus! {

/// The three kinds of stored object.
#[derive(Debug, Clone, Copy, PartialEq, Eq, Structural)]
pub enum Kind {
    Blob,
    Tree,
    Commit,
}

/// Why an operation on the store failed.
#[derive(Debug, Clone, Copy, PartialEq, Eq, Structural)]
pub enum ObjectError {
    /// No object file exists for the identifier.
    NotFound,
    /// A header or a tree entry could not be parsed.
    Format,
    /// The compressed stream is corrupt or truncated.
    Decode,
    /// The file system or the compressor reported a failure.
    Io,
    /// An input object has the wrong kind.
    Precondition,
}

/// The lowercase ASCII name of a kind, as it appears in object headers.
pub open spec fn kind_name(k: Kind) -> Seq<u8> {
    match k {
        Kind::Blob => seq![98u8, 108, 111, 98],
        Kind::Tree => seq![116u8, 114, 101, 101],
        Kind::Commit => seq![99u8, 111, 109, 109, 105, 116],
    }
}

/// Kind names hold no space and no NUL, and the first byte tells them apart.
pub proof fn lemma_kind_name(k: Kind)
    ensures
        4 <= kind_name(k).len() <= 6,
        forall|i: int| 0 <= i < kind_name(k).len() ==> #[trigger] kind_name(k)[i] != 32u8
            && kind_name(k)[i] != 0u8,
        forall|j: Kind| #[trigger] kind_name(j)[0] == kind_name(k)[0] ==> j == k,
{
}

/// Byte-wise equality of `s[start..end]` with `lit`.
pub fn bytes_eq_at(s: &[u8], start: usize, end: usize, lit: &[u8]) -> (r: bool)
    requires
        start <= end <= s@.len(),
    ensures
        r == (s@.subrange(start as int, end as int) == lit@),
{
    if end - start != lit.len() {
        return false;
    }
    let mut i: usize = 0;
    while i < lit.len()
        invariant
            i <= lit@.len(),
            end - start == lit@.len(),
            start <= end <= s@.len(),
            forall|j: int| 0 <= j < i ==> s@[start + j] == lit@[j],
        decreases lit@.len() - i,
    {
        if s[start + i] != lit[i] {
            assert(s@.subrange(start as int, end as int)[i as int] != lit@[i as int]);
            return false;
        }
        i = i + 1;
    }
    assert(s@.subrange(start as int, end as int) =~= lit@);
    true
}

impl Kind {
    /// The header name of this kind.
    pub fn name(&self) -> (r: Vec<u8>)
        ensures
            r@ == kind_name(*self),
    {
        let r = match self {
            Kind::Blob => vec![98u8, 108, 111, 98],
            Kind::Tree => vec![116u8, 114, 101, 101],
            Kind::Commit => vec![99u8, 111, 109, 109, 105, 116],
        };
        assert(r@ =~= kind_name(*self));
        r
    }

    /// The kind whose name is `s[start..end]`, if any.
    pub fn from_name(s: &[u8], start: usize, end: usize) -> (r: Option<Kind>)
        requires
            start <= end <= s@.len(),
        ensures
            r matches Some(k) ==> kind_name(k) == s@.subrange(start as int, end as int),
            r is None ==> forall|k: Kind| kind_name(k) != s@.subrange(start as int, end as int),
    {
        let b = Kind::Blob.name();
        if bytes_eq_at(s, start, end, b.as_slice()) {
            return Some(Kind::Blob);
        }
        let t = Kind::Tree.name();
        if bytes_eq_at(s, start, end, t.as_slice()) {
            return Some(Kind::Tree);
        }
        let c = Kind::Commit.name();
        if bytes_eq_at(s, start, end, c.as_slice()) {
            return Some(Kind::Commit);
        }
        None
    }
}

/// What an object is: its kind and its payload bytes.
pub struct ObjectView {
    pub kind: Kind,
    pub payload: Seq<u8>,
}

/// An object held in memory: a kind and the payload bytes. The payload's size
/// is its length; framing is added only when the object is hashed or stored.
#[derive(Debug, Clone)]
pub struct Object {
    kind: Kind,
    data: Vec<u8>,
}

impl View for Object {
    type V = ObjectView;

    closed spec fn view(&self) -> ObjectView {
        ObjectView { kind: self.kind, payload: self.data@ }
    }
}

/// The identifier of an object: the SHA-1 digest of its framed bytes.
pub open spec fn object_id(k: Kind, payload: Seq<u8>) -> Seq<u8> {
    sha1_of(framed(k, payload))
}

/// What is stored on disk for an object: its framed bytes, zlib-compressed.
pub open spec fn stored_bytes(k: Kind, payload: Seq<u8>) -> Seq<u8> {
    zlib_of(framed(k, payload))
}

/// Writing an object twice gives the same identifier, and two different
/// payloads of one kind are framed into different byte streams, so their
/// identifiers differ wherever SHA-1 does not collide on those two streams.
pub proof fn lemma_content_addressing(k: Kind, a: Seq<u8>, b: Seq<u8>)
    requires
        a.len() <= usize::MAX,
        b.len() <= usize::MAX,
    ensures
        a == b ==> object_id(k, a) == object_id(k, b),
        a != b ==> framed(k, a) != framed(k, b),
        a != b && (sha1_of(framed(k, a)) == sha1_of(framed(k, b)) ==> framed(k, a) == framed(k, b))
            ==> object_id(k, a) != object_id(k, b),
{
    lemma_round_trip(k, a);
    lemma_round_trip(k, b);
}

/// A copy of `s[start..end]`.
pub fn copy_range(s: &[u8], start: usize, end: usize) -> (r: Vec<u8>)
    requires
        start <= end <= s@.len(),
    ensures
        r@ == s@.subrange(start as int, end as int),
{
    let mut r: Vec<u8> = Vec::new();
    let mut i: usize = start;
    while i < end
        invariant
            start <= i <= end <= s@.len(),
            r@ == s@.subrange(start as int, i as int),
        decreases end - i,
    {
        r.push(s[i]);
        i = i + 1;
        assert(r@ =~= s@.subrange(start as int, i as int));
    }
    r
}

/// The bytes `/objects/`.
pub open spec fn objects_dir() -> Seq<u8> {
    seq![47u8, 111, 98, 106, 101, 99, 116, 115, 47]
}

/// Where the object with identifier `id` lives under the store root `root`:
/// `<root>/objects/<first two hex digits>/<remaining 38 hex digits>`.
pub open spec fn object_path(root: Seq<u8>, id: Seq<u8>) -> Seq<u8> {
    root + objects_dir() + hex_of(id).subrange(0, 2) + seq![47u8] + hex_of(id).subrange(2, 40)
}

/// The path of the object file for identifier `id` under the store root `root`.
pub fn hash_to_path(root: &[u8], id: &[u8; 20]) -> (r: Vec<u8>)
    ensures
        r@ == object_path(root@, id@),
{
    let hex = to_hex(id);
    let mut r: Vec<u8> = Vec::new();
    r.extend_from_slice(root);
    let dir = vec![47u8, 111, 98, 106, 101, 99, 116, 115, 47];
    assert(dir@ =~= objects_dir());
    r.extend_from_slice(dir.as_slice());
    r.push(hex[0]);
    r.push(hex[1]);
    r.push(47u8);
    let mut i: usize = 2;
    while i < 40
        invariant
            2 <= i <= 40,
            hex@.len() == 40,
            r@ == root@ + objects_dir() + hex@.subrange(0, 2) + seq![47u8] + hex@.subrange(2, i as int),
        decreases 40 - i,
    {
        r.push(hex[i]);
        i = i + 1;
        assert(r@ =~= root@ + objects_dir() + hex@.subrange(0, 2) + seq![47u8] + hex@.subrange(2, i as int));
    }
    assert(r@ =~= object_path(root@, id@));
    r
}

impl Object {
    /// The object's kind.
    pub fn kind(&self) -> (r: &Kind)
        ensures
            *r == self@.kind,
    {
        &self.kind
    }

    /// The payload's length in bytes, framing excluded.
    pub fn size(&self) -> (r: usize)
        ensures
            r == self@.payload.len(),
    {
        self.data.len()
    }

    /// The payload bytes.
    pub fn data(&self) -> (r: &[u8])
        ensures
            r@ == self@.payload,
    {
        self.data.as_slice()
    }

    /// An object of kind `kind` whose payload is a copy of `bytes`.
    pub fn from_bytes(kind: Kind, bytes: &[u8]) -> (r: Object)
        ensures
            r@.kind == kind,
            r@.payload == bytes@,
    {
        let mut data: Vec<u8> = Vec::new();
        data.extend_from_slice(bytes);
        Object { kind, data }
    }

    /// The framed byte stream of the object: header, then payload.
    pub fn framed(&self) -> (r: Vec<u8>)
        ensures
            r@ == framed(self@.kind, self@.payload),
    {
        let mut r: Vec<u8> = Vec::new();
        push_header(&mut r, self.kind, self.data.len());
        r.extend_from_slice(self.data.as_slice());
        r
    }

    /// The object's identifier, and the compressed bytes to store under it.
    /// Always succeeds: compressing into memory cannot fail.
    pub fn compress_and_hash(&self) -> (r: Result<([u8; 20], Vec<u8>), ObjectError>)
        ensures
            r matches Ok((id, c)) && id@ == object_id(self@.kind, self@.payload) && c@
                == stored_bytes(self@.kind, self@.payload),
    {
        let f = self.framed();
        let id = sha1_digest(f.as_slice());
        match zlib_compress(f.as_slice()) {
            Some(c) => Ok((id, c)),
            None => Err(ObjectError::Io),
        }
    }

    /// The object held by a decompressed object file: the header, then exactly
    /// the announced number of payload bytes; anything after them is ignored.
    pub fn from_frame(s: &[u8]) -> (r: Result<Object, ObjectError>)
        ensures
            r matches Ok(o) ==> stored_object(s@, o@.kind, o@.payload),
            r is Err ==> r->Err_0 == ObjectError::Format && forall|k: Kind, p: Seq<u8>|
                !#[trigger] stored_object(s@, k, p),
    {
        match parse_header(s) {
            Ok((kind, size, start)) => {
                if s.len() - start < size {
                    proof {
                        assert forall|k: Kind, p: Seq<u8>| !#[trigger] stored_object(s@, k, p) by {
                            if stored_object(s@, k, p) {
                                let e = choose|e: int|
                                    crate::frame::header_at(s@, k, p.len(), e) && e + 1 + p.len()
                                        <= s@.len() && #[trigger] s@.subrange(e + 1, e + 1 + p.len())
                                        == p;
                                lemma_header_unique(s@, kind, size as nat, start - 1, k, p.len(), e);
                            }
                        }
                    }
                    return Err(ObjectError::Format);
                }
                let data = copy_range(s, start, start + size);
                let o = Object { kind, data };
                assert(crate::frame::header_at(s@, kind, size as nat, start - 1));
                assert(s@.subrange(start - 1 + 1, start - 1 + 1 + size) == o@.payload);
                Ok(o)
            },
            Err(e) => {
                proof {
                    assert forall|k: Kind, p: Seq<u8>| !#[trigger] stored_object(s@, k, p) by {
                        if stored_object(s@, k, p) {
                            let e = choose|e: int|
                                crate::frame::header_at(s@, k, p.len(), e) && e + 1 + p.len()
                                    <= s@.len() && #[trigger] s@.subrange(e + 1, e + 1 + p.len())
                                    == p;
                        }
                    }
                }
                Err(e)
            },
        }
    }

    /// The object held by the compressed contents of an object file. Fails
    /// with `Decode` exactly where the zlib stream cannot be inflated, and with
    /// `Format` exactly where the inflated bytes hold no object.
    pub fn from_stored(compressed: &[u8]) -> (r: Result<Object, ObjectError>)
        ensures
            forall|k: Kind, p: Seq<u8>|
                #[trigger] stored_bytes(k, p) == compressed@ ==> (r matches Ok(o) && o@.kind == k
                    && o@.payload == p),
            inflate_of(compressed@) is None <==> r == Err::<Object, ObjectError>(
                ObjectError::Decode,
            ),
            inflate_of(compressed@) matches Some(x) ==> (r matches Ok(o) ==> stored_object(
                x,
                o@.kind,
                o@.payload,
            )) && (r is Err ==> r->Err_0 == ObjectError::Format && forall|k: Kind, p: Seq<u8>|
                !#[trigger] stored_object(x, k, p)),
    {
        match zlib_decompress(compressed) {
            None => Err(ObjectError::Decode),
            Some(s) => {
                let inflated_len: usize = s.len();
                let r = Object::from_frame(s.as_slice());
                proof {
                    assert forall|k: Kind, p: Seq<u8>|
                        #[trigger] stored_bytes(k, p) == compressed@ implies (r matches Ok(o) && o@.kind
                        == k && o@.payload == p) by {
                        assert(zlib_of(framed(k, p)) == compressed@);
                        assert(s@ == framed(k, p));
                        assert(p.len() <= inflated_len);
                        lemma_round_trip(k, p);
                    }
                }
                r
            },
        }
    }
}

} // verus!
