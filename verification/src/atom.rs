use vstd::prelude::*;
use vstd::string::StringSliceAdditionalSpecFns;
use vstd::utf8::encode_utf8;

use crate::error::Error;

verus! {

/// Maximum byte length of any atom (identifier string) accepted by the engine.
pub const MAX_ATOM_LEN: usize = 64;

/// The bytes an atom may contain: `[a-z0-9._:/-]`.
pub open spec fn is_atom_byte(b: u8) -> bool {
    ||| (0x61 <= b && b <= 0x7a)  // a-z
    ||| (0x30 <= b && b <= 0x39)  // 0-9
    ||| b == 0x2e  // .
    ||| b == 0x5f  // _
    ||| b == 0x3a  // :
    ||| b == 0x2f  // /
    ||| b == 0x2d  // -
}

/// Index of the first byte at or after `i` that is not an atom byte.
pub open spec fn first_invalid_from(bytes: Seq<u8>, i: int) -> Option<int>
    decreases bytes.len() - i,
{
    if i < 0 || i >= bytes.len() {
        None
    } else if !is_atom_byte(bytes[i]) {
        Some(i)
    } else {
        first_invalid_from(bytes, i + 1)
    }
}

/// The outcome of validating an atom given by its bytes: empty, too long,
/// the first disallowed byte, or accepted.
pub open spec fn atom_verdict(bytes: Seq<u8>) -> Result<(), Error> {
    if bytes.len() == 0 {
        Err(Error::EmptyAtom)
    } else if bytes.len() > MAX_ATOM_LEN {
        Err(Error::AtomTooLong { limit: MAX_ATOM_LEN, actual: bytes.len() as usize })
    } else {
        match first_invalid_from(bytes, 0) {
            Some(i) => Err(Error::InvalidAtomChar { index: i as usize, byte: bytes[i] }),
            None => Ok(()),
        }
    }
}

/// A well-formed atom: 1 to `MAX_ATOM_LEN` bytes, each in `[a-z0-9._:/-]`.
pub open spec fn is_valid_atom(bytes: Seq<u8>) -> bool {
    &&& 0 < bytes.len() <= MAX_ATOM_LEN
    &&& forall|i: int| 0 <= i < bytes.len() ==> is_atom_byte(#[trigger] bytes[i])
}

/// `first_invalid_from` finds the least disallowed byte at or after `i`.
pub proof fn lemma_first_invalid_from(bytes: Seq<u8>, i: int)
    requires
        0 <= i <= bytes.len(),
    ensures
        match first_invalid_from(bytes, i) {
            Some(k) => i <= k < bytes.len() && !is_atom_byte(bytes[k]) && (forall|j: int|
                i <= j < k ==> is_atom_byte(#[trigger] bytes[j])),
            None => forall|j: int| i <= j < bytes.len() ==> is_atom_byte(#[trigger] bytes[j]),
        },
    decreases bytes.len() - i,
{
    if i < bytes.len() {
        lemma_first_invalid_from(bytes, i + 1);
    }
}

/// An atom is accepted exactly when it is well-formed.
pub proof fn lemma_atom_check_ok(bytes: Seq<u8>)
    ensures
        atom_verdict(bytes) is Ok <==> is_valid_atom(bytes),
{
    lemma_first_invalid_from(bytes, 0);
}

/// The atom alphabet, spelled out: an identifier is accepted exactly when it has 1 to
/// `MAX_ATOM_LEN` bytes and each is a lower-case ASCII letter `a`..=`z`, a digit `0`..=`9`,
/// or one of `.`, `_`, `:`, `/`, `-`.
pub proof fn lemma_atom_alphabet(bytes: Seq<u8>)
    ensures
        atom_verdict(bytes) is Ok <==> {
            &&& 1 <= bytes.len() <= 64
            &&& forall|i: int|
                0 <= i < bytes.len() ==> {
                    let b = #[trigger] bytes[i];
                    ||| ('a' as u8) <= b <= ('z' as u8)
                    ||| ('0' as u8) <= b <= ('9' as u8)
                    ||| b == ('.' as u8)
                    ||| b == ('_' as u8)
                    ||| b == (':' as u8)
                    ||| b == ('/' as u8)
                    ||| b == ('-' as u8)
                }
        },
{
    lemma_atom_check_ok(bytes);
    assert(('a' as u8) == 0x61u8 && ('z' as u8) == 0x7au8 && ('0' as u8) == 0x30u8 && ('9' as u8)
        == 0x39u8 && ('.' as u8) == 0x2eu8 && ('_' as u8) == 0x5fu8 && (':' as u8) == 0x3au8
        && ('/' as u8) == 0x2fu8 && ('-' as u8) == 0x2du8);
}

fn validate_atom(value: &str) -> (r: Result<(), Error>)
    ensures
        r == atom_verdict(value.spec_bytes()),
{
    let bytes = value.as_bytes();
    let len = bytes.len();
    if len == 0 {
        return Err(Error::EmptyAtom);
    }
    if len > MAX_ATOM_LEN {
        return Err(Error::AtomTooLong { limit: MAX_ATOM_LEN, actual: len });
    }
    let mut index: usize = 0;
    while index < len
        invariant
            bytes@ == value.spec_bytes(),
            len == bytes@.len(),
            0 < len <= MAX_ATOM_LEN,
            0 <= index <= len,
            first_invalid_from(bytes@, 0) == first_invalid_from(bytes@, index as int),
        decreases len - index,
    {
        let byte = bytes[index];
        let allowed = (byte >= 0x61 && byte <= 0x7a) || (byte >= 0x30 && byte <= 0x39) || byte
            == 0x2e || byte == 0x5f || byte == 0x3a || byte == 0x2f || byte == 0x2d;
        assert(allowed == is_atom_byte(bytes@[index as int]));
        if !allowed {
            return Err(Error::InvalidAtomChar { index, byte });
        }
        index = index + 1;
    }
    assert(first_invalid_from(bytes@, index as int) is None);
    Ok(())
}

/// Byte-exact equality of two byte strings.
pub(crate) fn bytes_equal(a: &[u8], b: &[u8]) -> (r: bool)
    ensures
        r == (a@ == b@),
{
    if a.len() != b.len() {
        return false;
    }
    let mut i: usize = 0;
    while i < a.len()
        invariant
            a@.len() == b@.len(),
            0 <= i <= a@.len(),
            forall|j: int| 0 <= j < i ==> a@[j] == b@[j],
        decreases a.len() - i,
    {
        if a[i] != b[i] {
            return false;
        }
        i = i + 1;
    }
    assert(a@ =~= b@);
    true
}

/// Byte-exact `starts_with`: is `prefix` a prefix of `s`?
pub(crate) fn bytes_start_with(s: &[u8], prefix: &[u8]) -> (r: bool)
    ensures
        r == prefix@.is_prefix_of(s@),
{
    if prefix.len() > s.len() {
        return false;
    }
    let mut i: usize = 0;
    while i < prefix.len()
        invariant
            prefix@.len() <= s@.len(),
            0 <= i <= prefix@.len(),
            forall|j: int| 0 <= j < i ==> prefix@[j] == s@[j],
        decreases prefix.len() - i,
    {
        if prefix[i] != s[i] {
            return false;
        }
        i = i + 1;
    }
    assert(s@.subrange(0, prefix@.len() as int) =~= prefix@);
    true
}

/// A validated identifier borrowed from the caller. Its view is its byte string.
#[derive(Clone, Copy, Debug, Eq, PartialEq, Hash)]
pub struct AtomRef<'a>(&'a str);

impl<'a> View for AtomRef<'a> {
    type V = Seq<u8>;

    closed spec fn view(&self) -> Seq<u8> {
        self.0.spec_bytes()
    }
}

impl<'a> AtomRef<'a> {
    /// Borrows `value` as a validated atom.
    ///
    /// Validates charset (`[a-z0-9._:/-]`) and length. Returns `Err` for any other byte,
    /// including uppercase ASCII and Unicode. No normalization is performed.
    pub fn new(value: &'a str) -> (r: Result<Self, Error>)
        ensures
            match atom_verdict(value.spec_bytes()) {
                Ok(()) => r is Ok && r->Ok_0@ == value.spec_bytes(),
                Err(e) => r == Err::<Self, Error>(e),
            },
    {
        validate_atom(value)?;
        Ok(Self(value))
    }

    pub fn as_str(self) -> (s: &'a str)
        ensures
            s.spec_bytes() == self@,
    {
        self.0
    }

    /// Byte-exact comparison of two atoms.
    pub(crate) fn same_as(self, other: AtomRef<'_>) -> (r: bool)
        ensures
            r == (self@ == other@),
    {
        bytes_equal(self.0.as_bytes(), other.0.as_bytes())
    }

    /// Byte-exact `starts_with` on atoms.
    pub(crate) fn starts_with(self, prefix: AtomRef<'_>) -> (r: bool)
        ensures
            r == prefix@.is_prefix_of(self@),
    {
        bytes_start_with(self.0.as_bytes(), prefix.0.as_bytes())
    }
}

impl<'a> AsRef<str> for AtomRef<'a> {
    fn as_ref(&self) -> (s: &str)
        ensures
            s.spec_bytes() == self@,
    {
        self.0
    }
}

/// A validated identifier owned by a policy. Its view is its byte string.
#[derive(Debug, Eq, PartialEq, Hash)]
pub struct OwnedAtom(String);

impl Clone for OwnedAtom {
    fn clone(&self) -> (c: Self)
        ensures
            c == *self,
    {
        OwnedAtom(self.0.clone())
    }
}

impl View for OwnedAtom {
    type V = Seq<u8>;

    closed spec fn view(&self) -> Seq<u8> {
        encode_utf8(self.0@)
    }
}

impl OwnedAtom {
    /// Copies `value` into an owned atom after validating it as [`AtomRef::new`] does.
    pub fn new(value: &str) -> (r: Result<Self, Error>)
        ensures
            match atom_verdict(value.spec_bytes()) {
                Ok(()) => r is Ok && r->Ok_0@ == value.spec_bytes(),
                Err(e) => r == Err::<Self, Error>(e),
            },
    {
        validate_atom(value)?;
        Ok(Self(value.to_owned()))
    }

    pub fn as_atom(&self) -> (a: AtomRef<'_>)
        ensures
            a@ == self@,
    {
        AtomRef(self.0.as_str())
    }

    pub fn as_str(&self) -> (s: &str)
        ensures
            s.spec_bytes() == self@,
    {
        self.0.as_str()
    }
}

impl AsRef<str> for OwnedAtom {
    fn as_ref(&self) -> (s: &str)
        ensures
            s.spec_bytes() == self@,
    {
        self.0.as_str()
    }
}

/// A validated principal identifier for a single evaluation call.
///
/// Syntax is validated at construction (charset `[a-z0-9._:/-]`, max [`MAX_ATOM_LEN`] bytes).
/// The engine performs **no semantic normalization**: `"user:Alice"` is rejected outright
/// (uppercase), but `"user:alice"` and a policy written for `"user:alice"` must already be
/// identical byte-for-byte. Canonicalize before constructing.
#[derive(Clone, Copy, Debug, Eq, PartialEq, Hash)]
pub struct Principal<'a>(AtomRef<'a>);

impl<'a> View for Principal<'a> {
    type V = Seq<u8>;

    closed spec fn view(&self) -> Seq<u8> {
        self.0@
    }
}

impl<'a> Principal<'a> {
    /// Creates a `Principal` from a string slice, validating syntax.
    pub fn new(value: &'a str) -> (r: Result<Self, Error>)
        ensures
            match atom_verdict(value.spec_bytes()) {
                Ok(()) => r is Ok && r->Ok_0@ == value.spec_bytes(),
                Err(e) => r == Err::<Self, Error>(e),
            },
    {
        Ok(Self(AtomRef::new(value)?))
    }

    pub fn as_atom(self) -> (a: AtomRef<'a>)
        ensures
            a@ == self@,
    {
        self.0
    }
}

/// A validated action identifier for a single evaluation call.
///
/// Same syntax contract as [`Principal`].
#[derive(Clone, Copy, Debug, Eq, PartialEq, Hash)]
pub struct Action<'a>(AtomRef<'a>);

impl<'a> View for Action<'a> {
    type V = Seq<u8>;

    closed spec fn view(&self) -> Seq<u8> {
        self.0@
    }
}

impl<'a> Action<'a> {
    /// Creates an `Action` from a string slice, validating syntax.
    pub fn new(value: &'a str) -> (r: Result<Self, Error>)
        ensures
            match atom_verdict(value.spec_bytes()) {
                Ok(()) => r is Ok && r->Ok_0@ == value.spec_bytes(),
                Err(e) => r == Err::<Self, Error>(e),
            },
    {
        Ok(Self(AtomRef::new(value)?))
    }

    pub fn as_atom(self) -> (a: AtomRef<'a>)
        ensures
            a@ == self@,
    {
        self.0
    }
}

/// A validated resource identifier for a single evaluation call.
///
/// Same syntax contract as [`Principal`]. `"invoice:123"` and `"invoice:0123"` are two
/// distinct resources as far as the engine is concerned.
#[derive(Clone, Copy, Debug, Eq, PartialEq, Hash)]
pub struct Resource<'a>(AtomRef<'a>);

impl<'a> View for Resource<'a> {
    type V = Seq<u8>;

    closed spec fn view(&self) -> Seq<u8> {
        self.0@
    }
}

impl<'a> Resource<'a> {
    /// Creates a `Resource` from a string slice, validating syntax.
    pub fn new(value: &'a str) -> (r: Result<Self, Error>)
        ensures
            match atom_verdict(value.spec_bytes()) {
                Ok(()) => r is Ok && r->Ok_0@ == value.spec_bytes(),
                Err(e) => r == Err::<Self, Error>(e),
            },
    {
        Ok(Self(AtomRef::new(value)?))
    }

    pub fn as_atom(self) -> (a: AtomRef<'a>)
        ensures
            a@ == self@,
    {
        self.0
    }
}

} // verus!
