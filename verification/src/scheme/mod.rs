//! Schemes: how a logical name is written as a file stem and read back.

use crate::text::{str_from_utf8, string_from_utf8_lossy, utf8_lossy_text};
use vstd::slice::slice_to_vec;
use vstd::string::StrSliceExecFns;
use vstd::prelude::*;
use vstd::utf8::*;

pub mod encoding;
pub mod hex;

verus! {

/// Why a file stem is not the encoding of a name.
#[derive(Clone, Copy, Debug, PartialEq, Eq, Structural)]
pub enum Error {
    /// The stem is not well-formed UTF-8 where text is required.
    NonUtf8,
    /// The stem holds this byte, which the scheme's alphabet lacks.
    InvalidByte(u8),
    /// The stem has this many bytes, which the scheme does not encode to.
    InvalidLength(usize),
}

/// The letter case of an encoding's alphabet.
#[derive(Clone, Copy, Debug, PartialEq, Eq, Structural)]
pub enum Case {
    Lower,
    Upper,
    Any,
}

impl Default for Case {
    fn default() -> (r: Self)
        ensures
            r == Case::Lower,
    {
        Case::Lower
    }
}

/// How one directory name stands to another among its siblings.
#[derive(Clone, Copy, Debug, PartialEq, Eq, Structural)]
pub enum PartOrder {
    Less,
    Equal,
    Greater,
}

impl PartOrder {
    /// The same relation read from the other side.
    pub open spec fn reversed(self) -> PartOrder {
        match self {
            PartOrder::Less => PartOrder::Greater,
            PartOrder::Equal => PartOrder::Equal,
            PartOrder::Greater => PartOrder::Less,
        }
    }

    /// Reads the relation from the other side.
    pub fn reverse(self) -> (r: PartOrder)
        ensures
            r == self.reversed(),
    {
        match self {
            PartOrder::Less => PartOrder::Greater,
            PartOrder::Equal => PartOrder::Equal,
            PartOrder::Greater => PartOrder::Less,
        }
    }
}

/// Lexicographic order of the keys `rank` gives to the items of `a` and `b`,
/// from index `from` on: the first differing key decides, and a proper
/// prefix comes first.
pub open spec fn lexicographic_from<T>(a: Seq<T>, b: Seq<T>, rank: spec_fn(T) -> int, from: int) -> PartOrder
    decreases a.len() - from,
{
    if from >= a.len() && from >= b.len() {
        PartOrder::Equal
    } else if from >= a.len() {
        PartOrder::Less
    } else if from >= b.len() {
        PartOrder::Greater
    } else if from < 0 {
        PartOrder::Equal
    } else if rank(a[from]) < rank(b[from]) {
        PartOrder::Less
    } else if rank(a[from]) > rank(b[from]) {
        PartOrder::Greater
    } else {
        lexicographic_from(a, b, rank, from + 1)
    }
}

/// Lexicographic order of `a` and `b` by the keys `rank` gives their items.
pub open spec fn lexicographic<T>(a: Seq<T>, b: Seq<T>, rank: spec_fn(T) -> int) -> PartOrder {
    lexicographic_from(a, b, rank, 0)
}

/// The order of two byte strings by their bytes.
pub open spec fn byte_order(a: Seq<u8>, b: Seq<u8>) -> PartOrder {
    lexicographic(a, b, |byte: u8| byte as int)
}

/// Puts two byte strings in the order of their bytes.
pub fn order_bytes(a: &[u8], b: &[u8]) -> (r: PartOrder)
    ensures
        r == byte_order(a@, b@),
{
    let ghost rank = |byte: u8| byte as int;
    let mut i: usize = 0;
    while i < a.len() && i < b.len()
        invariant
            i <= a@.len(),
            i <= b@.len(),
            rank == (|byte: u8| byte as int),
            lexicographic_from(a@, b@, rank, i as int) == byte_order(a@, b@),
        decreases a@.len() - i,
    {
        if a[i] < b[i] {
            return PartOrder::Less;
        }
        if a[i] > b[i] {
            return PartOrder::Greater;
        }
        i += 1;
    }
    if a.len() == b.len() {
        PartOrder::Equal
    } else if i >= a.len() {
        PartOrder::Less
    } else {
        PartOrder::Greater
    }
}

/// A scheme turns a name into the bytes of a file stem and a file stem back
/// into a name, and orders the directory names that the stems are cut into.
pub trait Scheme {
    /// The logical name.
    type Name: View;

    /// The length that every encoded name has, where the scheme fixes one.
    spec fn encoded_length() -> Option<usize>;

    /// Whether the scheme is set up as it must be.
    spec fn well_formed(&self) -> bool;

    /// The bytes of the file stem that stands for `name`.
    spec fn encoded(&self, name: <Self::Name as View>::V) -> Seq<u8>;

    /// The name that a file stem stands for, or why it stands for none.
    spec fn decoded(&self, file_stem: Seq<u8>) -> Result<<Self::Name as View>::V, Error>;

    /// The order of two sibling directory names, or why one of them cannot
    /// be ordered.
    spec fn part_order(&self, a: Seq<u8>, b: Seq<u8>) -> Result<PartOrder, Error>;

    /// The length of every encoded name, for a scheme that fixes it.
    fn fixed_length() -> (r: Option<usize>)
        ensures
            r == Self::encoded_length(),
    ;

    /// Writes `name` as the bytes of a file stem. Encoding never fails;
    /// every name reads back as itself, and a scheme of fixed length gives
    /// every name that length.
    fn name_to_bytes(&self, name: &Self::Name) -> (bytes: Vec<u8>)
        requires
            self.well_formed(),
        ensures
            bytes@ == self.encoded(name@),
            self.decoded(self.encoded(name@)) == Ok::<<Self::Name as View>::V, Error>(name@),
            Self::encoded_length() matches Some(length) ==> bytes@.len() == length,
    ;

    /// Reads the name that a file stem stands for.
    fn name_from_file_stem(&self, file_stem: &[u8]) -> (r: Result<Self::Name, Error>)
        requires
            self.well_formed(),
        ensures
            match r {
                Ok(name) => self.decoded(file_stem@) == Ok::<<Self::Name as View>::V, Error>(name@),
                Err(error) => self.decoded(file_stem@) == Err::<<Self::Name as View>::V, Error>(error),
            },
    ;

    /// Orders two sibling directory names.
    fn cmp_prefix_part(&self, a: &[u8], b: &[u8]) -> (r: Result<PartOrder, Error>)
        requires
            self.well_formed(),
        ensures
            r == self.part_order(a@, b@),
    ;
}

/// The scheme that keeps a name as the raw bytes of its path component:
/// every name is written as itself and read as itself.
#[derive(Clone, Copy, Debug, PartialEq, Eq)]
pub struct Identity;

impl Scheme for Identity {
    type Name = Vec<u8>;

    open spec fn encoded_length() -> Option<usize> {
        None
    }

    open spec fn well_formed(&self) -> bool {
        true
    }

    open spec fn encoded(&self, name: Seq<u8>) -> Seq<u8> {
        name
    }

    open spec fn decoded(&self, file_stem: Seq<u8>) -> Result<Seq<u8>, Error> {
        Ok(file_stem)
    }

    open spec fn part_order(&self, a: Seq<u8>, b: Seq<u8>) -> Result<PartOrder, Error> {
        Ok(byte_order(a, b))
    }

    fn fixed_length() -> (r: Option<usize>) {
        None
    }

    fn name_to_bytes(&self, name: &Vec<u8>) -> (bytes: Vec<u8>) {
        slice_to_vec(name.as_slice())
    }

    fn name_from_file_stem(&self, file_stem: &[u8]) -> (r: Result<Vec<u8>, Error>) {
        Ok(vstd::slice::slice_to_vec(file_stem))
    }

    fn cmp_prefix_part(&self, a: &[u8], b: &[u8]) -> (r: Result<PartOrder, Error>) {
        Ok(order_bytes(a, b))
    }
}

/// The scheme whose names are text, written as their UTF-8 bytes.
#[derive(Clone, Copy, Debug, PartialEq, Eq)]
pub struct Utf8;

impl Scheme for Utf8 {
    type Name = String;

    open spec fn encoded_length() -> Option<usize> {
        None
    }

    open spec fn well_formed(&self) -> bool {
        true
    }

    open spec fn encoded(&self, name: Seq<char>) -> Seq<u8> {
        encode_utf8(name)
    }

    open spec fn decoded(&self, file_stem: Seq<u8>) -> Result<Seq<char>, Error> {
        if valid_utf8(file_stem) {
            Ok(decode_utf8(file_stem))
        } else {
            Err(Error::NonUtf8)
        }
    }

    open spec fn part_order(&self, a: Seq<u8>, b: Seq<u8>) -> Result<PartOrder, Error> {
        Ok(byte_order(a, b))
    }

    fn fixed_length() -> (r: Option<usize>) {
        None
    }

    fn name_to_bytes(&self, name: &String) -> (bytes: Vec<u8>) {
        proof {
            encode_utf8_valid_utf8(name@);
            encode_utf8_decode_utf8(name@);
        }
        name.as_str().as_bytes_vec()
    }

    fn name_from_file_stem(&self, file_stem: &[u8]) -> (r: Result<String, Error>) {
        match str_from_utf8(file_stem) {
            Some(text) => Ok(text.to_owned()),
            None => Err(Error::NonUtf8),
        }
    }

    fn cmp_prefix_part(&self, a: &[u8], b: &[u8]) -> (r: Result<PartOrder, Error>) {
        Ok(order_bytes(a, b))
    }
}

/// Every raw name is written as itself and reads back as itself.
pub proof fn lemma_identity_round_trip(name: Seq<u8>)
    ensures
        Identity.encoded(name) == name,
        Identity.decoded(Identity.encoded(name)) == Ok::<Seq<u8>, Error>(name),
{
}

/// The written name as text, for a report: the text that the bytes are the
/// UTF-8 of, and their lossy reading where they are not UTF-8.
pub fn name_to_string<S: Scheme>(scheme: &S, name: &S::Name) -> (text: String)
    requires
        scheme.well_formed(),
    ensures
        text@ == utf8_lossy_text(scheme.encoded(name@)),
        valid_utf8(scheme.encoded(name@)) ==> encode_utf8(text@) == scheme.encoded(name@),
{
    let bytes = scheme.name_to_bytes(name);
    report_text(bytes.as_slice())
}

/// Bytes as text, for a report: the text that they are the UTF-8 of, and
/// their lossy reading where they are not UTF-8.
pub fn report_text(bytes: &[u8]) -> (text: String)
    ensures
        text@ == utf8_lossy_text(bytes@),
        valid_utf8(bytes@) ==> encode_utf8(text@) == bytes@,
{
    let text = string_from_utf8_lossy(bytes);
    proof {
        if valid_utf8(bytes@) {
            decode_utf8_encode_utf8(bytes@);
        }
    }
    text
}

/// Text that is written as a file stem reads back as itself.
pub proof fn lemma_utf8_round_trip(name: Seq<char>)
    ensures
        Utf8.decoded(Utf8.encoded(name)) == Ok::<Seq<char>, Error>(name),
{
    encode_utf8_valid_utf8(name);
    encode_utf8_decode_utf8(name);
}

/// Lexicographic order read from the other side is the reverse.
pub proof fn lemma_lexicographic_reverses<T>(a: Seq<T>, b: Seq<T>, rank: spec_fn(T) -> int, from: int)
    requires
        0 <= from,
    ensures
        lexicographic_from(b, a, rank, from) == lexicographic_from(a, b, rank, from).reversed(),
    decreases a.len() - from,
{
    if from < a.len() && from < b.len() && rank(a[from]) == rank(b[from]) {
        lemma_lexicographic_reverses(a, b, rank, from + 1);
    }
}

/// Lexicographic order is transitive: what comes after a later item comes
/// after an earlier one.
pub proof fn lemma_lexicographic_is_transitive<T>(
    a: Seq<T>,
    b: Seq<T>,
    c: Seq<T>,
    rank: spec_fn(T) -> int,
    from: int,
)
    requires
        0 <= from,
        lexicographic_from(a, b, rank, from) == PartOrder::Greater,
        lexicographic_from(b, c, rank, from) == PartOrder::Greater,
    ensures
        lexicographic_from(a, c, rank, from) == PartOrder::Greater,
    decreases a.len() - from,
{
    if from < a.len() && from < b.len() && from < c.len() && rank(a[from]) == rank(b[from])
        && rank(b[from]) == rank(c[from]) {
        lemma_lexicographic_is_transitive(a, b, c, rank, from + 1);
    }
}

/// Lexicographic order leaves no gaps: where neither the first item comes
/// after the second nor the second after the third, the first does not come
/// after the third.
pub proof fn lemma_lexicographic_is_weak<T>(
    a: Seq<T>,
    b: Seq<T>,
    c: Seq<T>,
    rank: spec_fn(T) -> int,
    from: int,
)
    requires
        0 <= from,
        lexicographic_from(a, b, rank, from) != PartOrder::Greater,
        lexicographic_from(b, c, rank, from) != PartOrder::Greater,
    ensures
        lexicographic_from(a, c, rank, from) != PartOrder::Greater,
    decreases a.len() - from,
{
    if from < a.len() && from < b.len() && from < c.len() && rank(a[from]) == rank(b[from])
        && rank(b[from]) == rank(c[from]) {
        lemma_lexicographic_is_weak(a, b, c, rank, from + 1);
    }
}

} // verus!
