use vstd::prelude::*;

use crate::gc::ObjHeader;
use vstd::string::StringSliceAdditionalSpecFns;
use vstd::utf8::encode_utf8;

verus! {

/// The kind of a heap object, recorded in its header.
#[derive(Clone, Copy, PartialEq, Eq, Structural, Debug)]
pub enum ObjectType {
    String,
    NativeFunction,
    Function,
    List,
}

/// The FNV-1a offset basis.
pub open spec fn fnv_offset_basis() -> u32 {
    2166136261u32
}

/// The FNV-1a prime.
pub open spec fn fnv_prime() -> u32 {
    16777619u32
}

/// One FNV-1a step: xor in a byte, then multiply by the prime modulo 2^32.
pub open spec fn fnv_step(hash: u32, byte: u8) -> u32 {
    (((hash ^ (byte as u32)) as nat * fnv_prime() as nat) % 0x1_0000_0000nat) as u32
}

/// The 32-bit FNV-1a hash of a byte sequence.
pub open spec fn fnv1a(bytes: Seq<u8>) -> u32
    decreases bytes.len(),
{
    if bytes.len() == 0 {
        fnv_offset_basis()
    } else {
        fnv_step(fnv1a(bytes.drop_last()), bytes.last())
    }
}

/// Hashes the UTF-8 bytes of `string` with 32-bit FNV-1a.
pub fn hash_string(string: &str) -> (hash: u32)
    ensures
        hash == fnv1a(string.spec_bytes()),
{
    let bytes = string.as_bytes();
    let mut hash: u32 = 2166136261u32;
    let mut i: usize = 0;
    while i < bytes.len()
        invariant
            i <= bytes@.len(),
            bytes@ == string.spec_bytes(),
            hash == fnv1a(bytes@.subrange(0, i as int)),
        decreases bytes@.len() - i,
    {
        let c = bytes[i];
        hash = hash ^ (c as u32);
        hash = hash.wrapping_mul(16777619u32);
        proof {
            let prefix = bytes@.subrange(0, i + 1);
            assert(prefix.drop_last() =~= bytes@.subrange(0, i as int));
        }
        i = i + 1;
    }
    proof {
        assert(bytes@.subrange(0, bytes@.len() as int) =~= bytes@);
    }
    hash
}

/// A heap string as plain values: its characters, its stored hash and its mark bit.
pub struct LoxStringView {
    pub chars: Seq<char>,
    pub hash: u32,
    pub marked: bool,
}

/// An interned, immutable string stored on the garbage-collected heap.
pub struct LoxString {
    pub header: ObjHeader,
    string: String,
    pub hash: u32,
}

impl View for LoxString {
    type V = LoxStringView;

    open spec fn view(&self) -> LoxStringView {
        LoxStringView {
            chars: self.spec_chars(),
            hash: self.spec_hash(),
            marked: self.spec_header().is_marked,
        }
    }
}

impl LoxString {
    /// The characters of the string.
    pub closed spec fn spec_chars(&self) -> Seq<char> {
        self.string@
    }

    /// The object header.
    pub closed spec fn spec_header(&self) -> ObjHeader {
        self.header
    }

    /// The stored hash.
    pub closed spec fn spec_hash(&self) -> u32 {
        self.hash
    }

    /// Wraps `string`, recording its hash and a fresh, unmarked string header.
    pub fn new(string: String) -> (ls: LoxString)
        ensures
            ls.spec_chars() == string@,
            ls.spec_hash() == fnv1a(encode_utf8(string@)),
            ls.spec_header().obj_type == ObjectType::String,
            !ls.spec_header().is_marked,
    {
        let hash = hash_string(string.as_str());
        LoxString { header: ObjHeader::new(ObjectType::String), string, hash }
    }

    /// The stored hash.
    pub fn hash(&self) -> (h: u32)
        ensures
            h == self@.hash,
    {
        self.hash
    }

    /// Whether the collector has marked the string.
    pub fn is_marked(&self) -> (m: bool)
        ensures
            m == self@.marked,
    {
        self.header.is_marked
    }

    /// Sets or clears the collector's mark.
    pub fn set_marked(&mut self, marked: bool)
        ensures
            final(self)@ == (LoxStringView { marked, ..old(self)@ }),
    {
        self.header.is_marked = marked;
    }

    /// The string's contents.
    pub fn as_str(&self) -> (s: &str)
        ensures
            s@ == self.spec_chars(),
    {
        self.string.as_str()
    }
}

} // verus!
