//! A key as the caller hands it in: its bytes, its weight, and the
//! identifier that a built dictionary has given it.

use vstd::prelude::*;
use vstd::slice::slice_to_vec;
use vstd::string::StringSliceAdditionalSpecFns;
use vstd::utf8::valid_utf8;
use crate::weight::DEFAULT_WEIGHT;

verus! {

/// `core::str::Utf8Error`, the reason why bytes are no text; nothing is
/// claimed of what it holds.
#[verifier::external_type_specification]
#[verifier::external_body]
pub struct ExUtf8Error(core::str::Utf8Error);

/// `core::str::from_utf8` succeeds on exactly the byte strings that are
/// well-formed UTF-8, and the text it returns is made of the bytes given.
pub assume_specification[ core::str::from_utf8 ](v: &[u8]) -> (r: Result<
    &str,
    core::str::Utf8Error,
>)
    ensures
        r is Ok <==> valid_utf8(v@),
        r is Ok ==> r->Ok_0.spec_bytes() == v@,
;

/// What a key holds.
pub struct KeyView {
    pub bytes: Seq<u8>,
    pub weight: u32,
    pub id: Option<u32>,
}

pub struct Key {
    bytes: Vec<u8>,
    weight: u32,
    id: Option<u32>,
}

impl View for Key {
    type V = KeyView;

    closed spec fn view(&self) -> KeyView {
        KeyView { bytes: self.bytes@, weight: self.weight, id: self.id }
    }
}

/// The bytes of `key` and how many they are.
pub fn to_raw(key: &str) -> (r: (Vec<u8>, usize))
    ensures
        r.0@ == key.spec_bytes(),
        r.1 == key.spec_bytes().len(),
{
    let bytes = slice_to_vec(key.as_bytes());
    let size = bytes.len();
    (bytes, size)
}

impl Default for Key {
    /// A key of no bytes, with the default weight and no identifier.
    fn default() -> (r: Key)
        ensures
            r@ == (KeyView { bytes: Seq::empty(), weight: DEFAULT_WEIGHT, id: None }),
    {
        Key { bytes: Vec::new(), weight: DEFAULT_WEIGHT, id: None }
    }
}

impl Key {
    /// A key made of the bytes of `key`.
    pub fn new(key: &str) -> (r: Key)
        ensures
            r@ == (KeyView { bytes: key.spec_bytes(), weight: DEFAULT_WEIGHT, id: None }),
    {
        let (bytes, _) = to_raw(key);
        Key { bytes, weight: DEFAULT_WEIGHT, id: None }
    }

    /// A key made of `bytes`.
    pub fn from_bytes(bytes: &[u8], weight: u32) -> (r: Key)
        ensures
            r@ == (KeyView { bytes: bytes@, weight, id: None }),
    {
        Key { bytes: slice_to_vec(bytes), weight, id: None }
    }

    pub fn set_id(&mut self, id: u32)
        ensures
            final(self)@ == (KeyView { id: Some(id), ..old(self)@ }),
    {
        self.id = Some(id);
    }

    /// The identifier, or zero as long as none has been given.
    pub fn id(&self) -> (r: u32)
        ensures
            r == match self@.id {
                Some(id) => id,
                None => 0,
            },
    {
        match self.id {
            Some(id) => id,
            None => 0,
        }
    }

    /// The identifier, if one has been given.
    pub fn assigned_id(&self) -> (r: Option<u32>)
        ensures
            r == self@.id,
    {
        self.id
    }

    pub fn set_weight(&mut self, weight: u32)
        ensures
            final(self)@ == (KeyView { weight, ..old(self)@ }),
    {
        self.weight = weight;
    }

    pub fn weight(&self) -> (r: u32)
        ensures
            r == self@.weight,
    {
        self.weight
    }

    pub fn set_str(&mut self, key: &str)
        ensures
            final(self)@ == (KeyView { bytes: key.spec_bytes(), ..old(self)@ }),
    {
        let (bytes, _) = to_raw(key);
        self.bytes = bytes;
    }

    /// The key as text, if its bytes are well-formed UTF-8.
    pub fn str(&self) -> (r: Result<&str, core::str::Utf8Error>)
        ensures
            r is Ok <==> valid_utf8(self@.bytes),
            r is Ok ==> r->Ok_0.spec_bytes() == self@.bytes,
    {
        core::str::from_utf8(self.bytes.as_slice())
    }

    pub fn bytes(&self) -> (r: &[u8])
        ensures
            r@ == self@.bytes,
    {
        self.bytes.as_slice()
    }

    /// The number of bytes, or the largest number that fits if there are
    /// more.
    pub fn length(&self) -> (r: u32)
        ensures
            r == if self@.bytes.len() <= u32::MAX {
                self@.bytes.len() as int
            } else {
                u32::MAX as int
            },
    {
        let n = self.bytes.len();
        if n <= u32::MAX as usize {
            n as u32
        } else {
            u32::MAX
        }
    }

    /// A copy of `existing`.
    pub fn from(existing: &Key) -> (r: Key)
        ensures
            r@ == existing@,
    {
        Key {
            bytes: slice_to_vec(existing.bytes.as_slice()),
            weight: existing.weight,
            id: existing.id,
        }
    }

    /// A copy of this key with the identifier `id`.
    pub fn with_id(&self, id: u32) -> (r: Key)
        ensures
            r@ == (KeyView { id: Some(id), ..self@ }),
    {
        Key { bytes: slice_to_vec(self.bytes.as_slice()), weight: self.weight, id: Some(id) }
    }
}

/// A key made from text is well-formed UTF-8, so it reads back as text.
pub proof fn lemma_text_key_reads_back(key: &str)
    ensures
        valid_utf8(key.spec_bytes()),
{
    vstd::utf8::encode_utf8_valid_utf8(key@);
}

} // verus!
