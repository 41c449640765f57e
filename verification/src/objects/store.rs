//! The object store: compressed objects under the hexadecimal address of
//! their encoded bytes.

use crate::error::XitError;
use crate::hexcode::{hex_chars, is_address, is_address_text, lemma_hex_chars};
use crate::objects::blob::{compress_zlib, compute_sha1, hash_to_hex, sha1_digest, zlib_deflated};
use crate::scan::{find_from, lemma_find_from, lemma_find_from_bounds};
use crate::text::{chars_of, push_char, str_eq, string_of};
use vstd::prelude::*;
use vstd::string::StringExecFns;

verus! {

/// What an object is.
#[derive(Clone, Copy, Debug, PartialEq, Eq, Structural)]
pub enum ObjectKind {
    Blob,
    Tree,
    Commit,
}

/// The word that stands for a kind in an object's header: `blob`, `tree` or
/// `commit`, in ASCII.
pub open spec fn kind_tag(kind: ObjectKind) -> Seq<u8> {
    match kind {
        ObjectKind::Blob => seq![98u8, 108u8, 111u8, 98u8],
        ObjectKind::Tree => seq![116u8, 114u8, 101u8, 101u8],
        ObjectKind::Commit => seq![99u8, 111u8, 109u8, 109u8, 105u8, 116u8],
    }
}

/// A number in decimal ASCII digits, without leading zeros.
pub open spec fn decimal(n: nat) -> Seq<u8>
    decreases n,
{
    if n < 10 {
        seq![(48 + n) as u8]
    } else {
        decimal(n / 10).push((48 + n % 10) as u8)
    }
}

/// The bytes that are hashed and compressed: the kind, a space, the length of
/// the content in decimal, a NUL, and the content.
pub open spec fn encoded_object(kind: ObjectKind, content: Seq<u8>) -> Seq<u8> {
    kind_tag(kind) + seq![32u8] + decimal(content.len()) + seq![0u8] + content
}

/// The address of an object: the digest of its encoded bytes in hexadecimal.
pub open spec fn object_address(kind: ObjectKind, content: Seq<u8>) -> Seq<char> {
    hex_chars(sha1_digest(encoded_object(kind, content))@)
}

/// Every address of an object is forty hexadecimal digits.
pub proof fn lemma_object_address(kind: ObjectKind, content: Seq<u8>)
    ensures
        is_address(object_address(kind, content)),
{
    lemma_hex_chars(sha1_digest(encoded_object(kind, content))@);
}

/// A store after it was asked to keep `data` under `address`: what is there
/// already stays as it is.
pub open spec fn stored(
    objects: Map<Seq<char>, Seq<u8>>,
    address: Seq<char>,
    data: Seq<u8>,
) -> Map<Seq<char>, Seq<u8>> {
    if objects.contains_key(address) {
        objects
    } else {
        objects.insert(address, data)
    }
}

/// A result that holds a string, as one that holds a text.
pub open spec fn address_view(r: Result<String, XitError>) -> Result<Seq<char>, XitError> {
    match r {
        Ok(address) => Ok(address@),
        Err(e) => Err(e),
    }
}

/// What storing an object of the given kind and content comes to: the
/// result, and the objects afterwards. Where the compressor yields the bytes
/// of the encoded object, the result is the address of the object, under
/// which the store then holds those bytes unless it held something there
/// before. Where the compressor reports an error, the result is `Io` and the
/// store is as it was.
pub open spec fn written(
    before: Map<Seq<char>, Seq<u8>>,
    kind: ObjectKind,
    content: Seq<u8>,
) -> (Result<Seq<char>, XitError>, Map<Seq<char>, Seq<u8>>) {
    match zlib_deflated(encoded_object(kind, content)) {
        Some(data) => (
            Ok(object_address(kind, content)),
            stored(before, object_address(kind, content), data),
        ),
        None => (Err(XitError::Io), before),
    }
}

/// Writing is idempotent: an object written a second time gets the address
/// it got the first time, and the second write leaves the store as the first
/// one left it. A write that succeeds adds to the addresses of the store the
/// address of the object and nothing else.
pub proof fn lemma_write_idempotent(
    objects: Map<Seq<char>, Seq<u8>>,
    kind: ObjectKind,
    content: Seq<u8>,
)
    ensures
        written(written(objects, kind, content).1, kind, content) == written(
            objects,
            kind,
            content,
        ),
        written(objects, kind, content).0 matches Ok(address) ==> written(
            objects,
            kind,
            content,
        ).1.dom() == objects.dom().insert(address),
{
    let first = written(objects, kind, content);
    if let Ok(address) = first.0 {
        assert(first.1.contains_key(address));
        assert(first.1.dom() =~= objects.dom().insert(address));
    }
}

/// Writing never changes or removes what the store holds: every address of
/// the store keeps its bytes.
pub proof fn lemma_write_keeps_objects(
    objects: Map<Seq<char>, Seq<u8>>,
    kind: ObjectKind,
    content: Seq<u8>,
    address: Seq<char>,
)
    requires
        objects.contains_key(address),
    ensures
        written(objects, kind, content).1.contains_key(address),
        written(objects, kind, content).1[address] == objects[address],
{
}

/// One stored object: its address and its compressed bytes.
pub struct StoredObject {
    address: String,
    data: Vec<u8>,
}

/// The objects of a repository, each under its address.
pub struct ObjectStore {
    objects: Vec<StoredObject>,
}

impl View for ObjectStore {
    type V = Map<Seq<char>, Seq<u8>>;

    /// From each address to the compressed bytes stored under it.
    closed spec fn view(&self) -> Map<Seq<char>, Seq<u8>> {
        Map::new(
            |a: Seq<char>| self.slot(a) < self.objects.len(),
            |a: Seq<char>| self.objects[self.slot(a)].data@,
        )
    }
}

impl ObjectStore {
    /// The addresses, in the order in which the objects came.
    pub closed spec fn addresses(&self) -> Seq<Seq<char>> {
        self.objects@.map_values(|o: StoredObject| o.address@)
    }

    /// The position of the object with the address `a`, or the number of
    /// objects where there is none.
    closed spec fn slot(&self, a: Seq<char>) -> int {
        find_from(self.addresses(), 0, a)
    }

    /// No address occurs twice.
    pub closed spec fn wf(&self) -> bool {
        self.addresses().no_duplicates()
    }

    /// The store holds an object for each listed address and for no other.
    pub proof fn lemma_addresses(&self)
        ensures
            forall|a: Seq<char>| self@.contains_key(a) <==> self.addresses().contains(a),
            self@.dom().finite(),
    {
        let addrs = self.addresses();
        assert forall|a: Seq<char>| self@.contains_key(a) <==> addrs.contains(a) by {
            lemma_find_from_bounds(addrs, 0, a);
            if addrs.contains(a) {
                let i = choose|i: int| 0 <= i < addrs.len() && addrs[i] == a;
                assert(self.slot(a) <= i);
            }
        }
        vstd::seq_lib::seq_to_set_is_finite(addrs);
        assert(self@.dom() =~= addrs.to_set());
    }

    /// A store without objects.
    pub fn new() -> (s: ObjectStore)
        ensures
            s.wf(),
            s@ == Map::<Seq<char>, Seq<u8>>::empty(),
    {
        let s = ObjectStore { objects: Vec::new() };
        proof {
            assert(s@ =~= Map::<Seq<char>, Seq<u8>>::empty());
        }
        s
    }

    /// The number of objects.
    pub fn len(&self) -> (n: usize)
        ensures
            n == self.addresses().len(),
            self.wf() ==> n == self@.dom().len(),
    {
        proof {
            if self.wf() {
                self.lemma_addresses();
                self.addresses().unique_seq_to_set();
                assert(self@.dom() =~= self.addresses().to_set());
            }
        }
        self.objects.len()
    }

    /// The address of the object at position `i`.
    pub fn address_at(&self, i: usize) -> (a: &str)
        requires
            self.wf(),
            i < self.addresses().len(),
        ensures
            a@ == self.addresses()[i as int],
            self@.contains_key(a@),
    {
        proof {
            self.lemma_slot(i as int);
        }
        self.objects[i].address.as_str()
    }

    /// The compressed bytes of the object at position `i`.
    pub fn data_at(&self, i: usize) -> (d: &Vec<u8>)
        requires
            self.wf(),
            i < self.addresses().len(),
        ensures
            d@ == self@[self.addresses()[i as int]],
    {
        proof {
            self.lemma_slot(i as int);
        }
        &self.objects[i].data
    }

    /// The object at position `i` is the one found for its address.
    proof fn lemma_slot(&self, i: int)
        requires
            self.wf(),
            0 <= i < self.objects.len(),
        ensures
            self.slot(self.addresses()[i]) == i,
            self@.contains_key(self.addresses()[i]),
    {
        let addrs = self.addresses();
        lemma_find_from_bounds(addrs, 0, addrs[i]);
    }

    /// The position of the object with the given address.
    fn find(&self, address: &str) -> (i: usize)
        ensures
            i == self.slot(address@),
            i <= self.objects.len(),
    {
        let mut i: usize = 0;
        while i < self.objects.len() && !str_eq(self.objects[i].address.as_str(), address)
            invariant
                i <= self.objects.len(),
                self.addresses().len() == self.objects.len(),
                forall|j: int| 0 <= j < i ==> self.addresses()[j] != address@,
            decreases self.objects.len() - i,
        {
            i += 1;
        }
        proof {
            lemma_find_from(self.addresses(), 0, address@, i as int);
        }
        i
    }

    /// Whether an object is stored under `address`.
    pub fn contains(&self, address: &str) -> (b: bool)
        ensures
            b == self@.contains_key(address@),
    {
        self.find(address) < self.objects.len()
    }

    /// The compressed bytes stored under `address`.
    pub fn get(&self, address: &str) -> (r: Option<&Vec<u8>>)
        ensures
            match r {
                Some(d) => self@.contains_key(address@) && d@ == self@[address@],
                None => !self@.contains_key(address@),
            },
    {
        let i: usize = self.find(address);
        if i < self.objects.len() {
            Some(&self.objects[i].data)
        } else {
            None
        }
    }

    /// Keeps `data` under `address` unless an object is there already, which
    /// then stays as it is. Says whether `data` was taken.
    pub fn put(&mut self, address: String, data: Vec<u8>) -> (taken: bool)
        requires
            old(self).wf(),
        ensures
            final(self).wf(),
            taken == !old(self)@.contains_key(address@),
            final(self)@ == stored(old(self)@, address@, data@),
    {
        let i: usize = self.find(address.as_str());
        if i < self.objects.len() {
            false
        } else {
            let ghost before = *self;
            let ghost a = address@;
            let ghost d = data@;
            self.objects.push(StoredObject { address, data });
            proof {
                let addrs = self.addresses();
                let n = before.objects.len() as int;
                assert(addrs =~= before.addresses().push(a));
                lemma_find_from_bounds(before.addresses(), 0, a);
                assert(addrs.no_duplicates());
                assert(self.objects[n].data@ == d);
                assert(self.objects@ == before.objects@.push(self.objects@[n]));
                assert forall|q: Seq<char>| #[trigger] self.slot(q) == (if q == a {
                    n
                } else if before.slot(q) < n {
                    before.slot(q)
                } else {
                    n + 1
                }) by {
                    lemma_find_from_bounds(before.addresses(), 0, q);
                    let t = if q == a {
                        n
                    } else if before.slot(q) < n {
                        before.slot(q)
                    } else {
                        n + 1
                    };
                    lemma_find_from(addrs, 0, q, t);
                }
                assert forall|q: Seq<char>| self@.contains_key(q) <==> (q == a
                    || before@.contains_key(q)) by {
                    assert(self.slot(q) <= n + 1);
                }
                assert forall|q: Seq<char>| self@.contains_key(q) implies self@[q]
                    == before@.insert(a, d)[q] by {
                    let j = self.slot(q);
                    lemma_find_from_bounds(before.addresses(), 0, q);
                    if q != a {
                        assert(j == before.slot(q));
                        assert(self.objects@[j] == before.objects@[j]);
                    }
                }
                assert(self@ =~= before@.insert(a, d));
            }
            true
        }
    }
}

/// Where an object is kept below the metadata root: under `objects`, in a
/// directory named by the first two characters of its address, in a file
/// named by the other thirty-eight.
pub open spec fn object_path_of(address: Seq<char>) -> Seq<char> {
    "objects/"@ + address.take(2) + seq!['/'] + address.skip(2)
}

/// The path of the file that holds the object with the given address,
/// relative to the metadata root.
///
/// Fails with `InputValidation` where the address is not forty hexadecimal
/// digits.
pub fn object_path(address: &str) -> (r: Result<String, XitError>)
    ensures
        match r {
            Ok(path) => is_address(address@) && path@ == object_path_of(address@),
            Err(e) => e == XitError::InputValidation && !is_address(address@),
        },
{
    let chars = chars_of(address);
    if !is_address_text(chars.as_slice()) {
        return Err(XitError::InputValidation);
    }
    let mut path = "objects/".to_owned();
    path.append(string_of(vstd::slice::slice_subrange(chars.as_slice(), 0, 2)).as_str());
    push_char(&mut path, '/');
    path.append(string_of(vstd::slice::slice_subrange(chars.as_slice(), 2, 40)).as_str());
    proof {
        assert(address@.subrange(0, 2) =~= address@.take(2));
        assert(address@.subrange(2, 40) =~= address@.skip(2));
        assert(path@ =~= object_path_of(address@));
    }
    Ok(path)
}

/// Appends the decimal digits of `n`.
fn push_decimal(out: &mut Vec<u8>, n: usize)
    ensures
        final(out)@ == old(out)@ + decimal(n as nat),
    decreases n,
{
    if n >= 10 {
        push_decimal(out, n / 10);
    }
    out.push(48 + (n % 10) as u8);
    proof {
        assert(final(out)@ =~= old(out)@ + decimal(n as nat));
    }
}

/// The word for `kind` in an object's header.
pub fn kind_tag_bytes(kind: ObjectKind) -> (tag: Vec<u8>)
    ensures
        tag@ == kind_tag(kind),
{
    let mut tag: Vec<u8> = Vec::new();
    match kind {
        ObjectKind::Blob => {
            tag.push(98);
            tag.push(108);
            tag.push(111);
            tag.push(98);
        },
        ObjectKind::Tree => {
            tag.push(116);
            tag.push(114);
            tag.push(101);
            tag.push(101);
        },
        ObjectKind::Commit => {
            tag.push(99);
            tag.push(111);
            tag.push(109);
            tag.push(109);
            tag.push(105);
            tag.push(116);
        },
    }
    proof {
        assert(tag@ =~= kind_tag(kind));
    }
    tag
}

/// The bytes of an object as they are hashed and compressed.
pub fn encode_object(kind: ObjectKind, content: &[u8]) -> (encoded: Vec<u8>)
    ensures
        encoded@ == encoded_object(kind, content@),
{
    let mut encoded = kind_tag_bytes(kind);
    encoded.push(32);
    push_decimal(&mut encoded, content.len());
    encoded.push(0);
    encoded.extend_from_slice(content);
    proof {
        assert(encoded@ =~= encoded_object(kind, content@));
    }
    encoded
}

/// Stores an object of the given kind and returns its address.
///
/// The object is encoded, hashed and compressed; the store gains it under its
/// address unless that address is taken, in which case the store stays as it
/// is. Fails with `Io`, and changes nothing, exactly where the compressor
/// reports an error.
pub fn write_object(store: &mut ObjectStore, kind: ObjectKind, content: &[u8]) -> (r: Result<
    String,
    XitError,
>)
    requires
        old(store).wf(),
    ensures
        final(store).wf(),
        (address_view(r), final(store)@) == written(old(store)@, kind, content@),
        r matches Ok(address) ==> is_address(address@),
{
    proof {
        lemma_object_address(kind, content@);
    }
    let encoded = encode_object(kind, content);
    let hash = compute_sha1(encoded.as_slice());
    let address = hash_to_hex(&hash);
    match compress_zlib(encoded.as_slice()) {
        Ok(compressed) => {
            let result = address.clone();
            store.put(address, compressed);
            Ok(result)
        },
        Err(_) => Err(XitError::Io),
    }
}

} // verus!
