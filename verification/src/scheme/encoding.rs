//! The Base32 scheme: a name of `N` bytes, written in the RFC 4648 Base32
//! alphabet by the `data-encoding` crate.

use crate::path::is_normal_name;
use crate::scheme::{
    lemma_lexicographic_is_transitive, lemma_lexicographic_is_weak, lemma_lexicographic_reverses,
    lexicographic, lexicographic_from, Case, Error, PartOrder, Scheme,
};
use crate::sorting::{
    arranged, is_strict_weak_order, lemma_arranged_is_ordered, stands_before,
};
use vstd::prelude::*;
use vstd::string::StrSliceExecFns;
use vstd::utf8::*;

verus! {

/// The Base32 text that `data_encoding::BASE32` writes for `bytes`.
pub uninterp spec fn base32_text(bytes: Seq<u8>) -> Seq<char>;

/// What `data_encoding::BASE32` reads from `text`: the bytes, or the
/// position of the first error.
pub uninterp spec fn base32_data(text: Seq<u8>) -> Result<Seq<u8>, usize>;

/// Whether `text` is read as `bytes`.
pub open spec fn reads_as(text: Seq<u8>, bytes: Seq<u8>) -> bool {
    base32_data(text) == Ok::<Seq<u8>, usize>(bytes)
}

/// The outcome of reading, with the bytes as a sequence.
pub open spec fn outcome_view(outcome: Result<Vec<u8>, usize>) -> Result<Seq<u8>, usize> {
    match outcome {
        Ok(bytes) => Ok(bytes@),
        Err(position) => Err(position),
    }
}

/// The byte that pads Base32 text.
pub const PADDING: u8 = 61;

/// Whether `c` is a character of the Base32 alphabet.
pub open spec fn alphabet_char(c: char) -> bool {
    ('A' <= c && c <= 'Z') || ('2' <= c && c <= '7')
}

/// Whether the text holds characters of the Base32 alphabet only, and so no
/// padding.
pub open spec fn written_in_alphabet(text: Seq<char>) -> bool {
    forall|i: int| 0 <= i < text.len() ==> alphabet_char(#[trigger] text[i])
}

/// What holds of every outcome of reading `text`: an error lies at a
/// position of the text, and the bytes read are five for every eight
/// characters unless the text holds padding.
pub open spec fn sound_outcome(text: Seq<u8>, outcome: Result<Seq<u8>, usize>) -> bool {
    match outcome {
        Err(position) => position < text.len(),
        Ok(bytes) => bytes.len() == text.len() / 8 * 5 || text.contains(PADDING),
    }
}

/// The largest input that the encoder is documented to take.
pub open spec fn encoder_limit() -> int {
    (usize::MAX / 512) as int
}

/// Trusted: `data_encoding::Encoding::encode` on `BASE32`. The crate's
/// source gives the length (eight characters for every five bytes begun),
/// asserts that the text is ASCII, and pads only a last group of fewer than
/// five bytes, so that an input of a multiple of five bytes is written in
/// symbols of the alphabet alone. Its documentation promises that decoding
/// the text gives the bytes back, and that inputs up to `usize::MAX / 512`
/// bytes do not panic.
#[verifier::external_body]
pub(crate) fn base32_encode(bytes: &[u8]) -> (r: String)
    requires
        bytes@.len() <= encoder_limit(),
    ensures
        r@ == base32_text(bytes@),
        r@.len() == (bytes@.len() + 4) / 5 * 8,
        is_ascii_chars(r@),
        bytes@.len() % 5 == 0 ==> written_in_alphabet(r@),
        reads_as(encode_utf8(r@), bytes@),
{
    data_encoding::BASE32.encode(bytes)
}

/// Trusted: `data_encoding::Encoding::decode` on `BASE32`. The result is a
/// function of the input alone. The crate documents that an error's
/// position is a valid position of the input, and that inputs up to
/// `usize::MAX / 8` bytes do not panic; its source shortens the five bytes
/// of a group of eight characters only where the group ends in padding.
#[verifier::external_body]
pub(crate) fn base32_decode(text: &[u8]) -> (r: Result<Vec<u8>, usize>)
    requires
        text@.len() <= usize::MAX / 8,
    ensures
        base32_data(text@) == outcome_view(r),
        sound_outcome(text@, outcome_view(r)),
{
    match data_encoding::BASE32.decode(text) {
        Ok(bytes) => Ok(bytes),
        Err(error) => Err(error.position),
    }
}

/// A character of the Base32 alphabet, by its class. Letters come before
/// digits, as the values they stand for do.
#[derive(Clone, Copy, Debug, PartialEq, Eq, Structural)]
pub enum Base32Char {
    /// One of the letters `A` to `Z`.
    Alphabetic(u8),
    /// One of the digits `2` to `7`.
    Numeric(u8),
}

/// Whether `byte` is a character of the Base32 alphabet.
pub open spec fn in_alphabet(byte: u8) -> bool {
    65 <= byte <= 90 || 50 <= byte <= 55
}

/// The place of `byte` in the Base32 alphabet: letters first, then digits.
pub open spec fn alphabet_rank(byte: u8) -> int {
    if 65 <= byte <= 90 {
        byte - 65
    } else {
        byte - 24
    }
}

impl Base32Char {
    /// The byte of the character.
    pub open spec fn byte(self) -> u8 {
        match self {
            Base32Char::Alphabetic(byte) => byte,
            Base32Char::Numeric(byte) => byte,
        }
    }

    /// Whether the character is what classifying its byte gives.
    pub open spec fn classifies(self, byte: u8) -> bool {
        &&& self.byte() == byte
        &&& self is Alphabetic <==> 65 <= byte <= 90
        &&& self is Numeric <==> 50 <= byte <= 55
    }

    /// Classifies a byte, or reports it where the alphabet lacks it.
    pub fn try_from(value: u8) -> (r: Result<Base32Char, Error>)
        ensures
            match r {
                Ok(character) => in_alphabet(value) && character.classifies(value),
                Err(error) => !in_alphabet(value) && error == Error::InvalidByte(value),
            },
    {
        if 65 <= value && value <= 90 {
            Ok(Base32Char::Alphabetic(value))
        } else if 50 <= value && value <= 55 {
            Ok(Base32Char::Numeric(value))
        } else {
            Err(Error::InvalidByte(value))
        }
    }

    /// The order of two characters: a letter before a digit, and two of
    /// one class by their bytes.
    pub open spec fn ordered(self, other: Base32Char) -> PartOrder {
        match (self, other) {
            (Base32Char::Alphabetic(_), Base32Char::Numeric(_)) => PartOrder::Less,
            (Base32Char::Numeric(_), Base32Char::Alphabetic(_)) => PartOrder::Greater,
            _ => if self.byte() < other.byte() {
                PartOrder::Less
            } else if self.byte() > other.byte() {
                PartOrder::Greater
            } else {
                PartOrder::Equal
            },
        }
    }

    /// Orders two characters: a letter before a digit, and two of one class
    /// by their bytes.
    pub fn order(self, other: Base32Char) -> (r: PartOrder)
        ensures
            r == self.ordered(other),
    {
        match (self, other) {
            (Base32Char::Alphabetic(_), Base32Char::Numeric(_)) => PartOrder::Less,
            (Base32Char::Numeric(_), Base32Char::Alphabetic(_)) => PartOrder::Greater,
            (Base32Char::Alphabetic(a), Base32Char::Alphabetic(b)) | (
                Base32Char::Numeric(a),
                Base32Char::Numeric(b),
            ) => {
                if a < b {
                    PartOrder::Less
                } else if a > b {
                    PartOrder::Greater
                } else {
                    PartOrder::Equal
                }
            },
        }
    }
}

/// Two characters that classify bytes of the alphabet are ordered as the
/// places of the bytes in the alphabet are.
pub proof fn lemma_classified_order(a: Base32Char, b: Base32Char)
    requires
        in_alphabet(a.byte()),
        in_alphabet(b.byte()),
        a.classifies(a.byte()),
        b.classifies(b.byte()),
    ensures
        a.ordered(b) == (if alphabet_rank(a.byte()) < alphabet_rank(b.byte()) {
            PartOrder::Less
        } else if alphabet_rank(a.byte()) > alphabet_rank(b.byte()) {
            PartOrder::Greater
        } else {
            PartOrder::Equal
        }),
{
}

/// The first byte of `value`, from index `from` on, that the Base32
/// alphabet lacks.
pub open spec fn first_outside_from(value: Seq<u8>, from: int) -> Option<u8>
    decreases value.len() - from,
{
    if from < 0 || from >= value.len() {
        None
    } else if !in_alphabet(value[from]) {
        Some(value[from])
    } else {
        first_outside_from(value, from + 1)
    }
}

/// The first byte of `value` that the Base32 alphabet lacks.
pub open spec fn first_outside(value: Seq<u8>) -> Option<u8> {
    first_outside_from(value, 0)
}

/// The order of two directory names by the places of their characters in
/// the Base32 alphabet, or the first byte, of the first name and then of
/// the second, that the alphabet lacks.
pub open spec fn alphabet_order(a: Seq<u8>, b: Seq<u8>) -> Result<PartOrder, Error> {
    match first_outside(a) {
        Some(byte) => Err(Error::InvalidByte(byte)),
        None => match first_outside(b) {
            Some(byte) => Err(Error::InvalidByte(byte)),
            None => Ok(lexicographic(a, b, |byte: u8| alphabet_rank(byte))),
        },
    }
}

/// Whether `characters` are the bytes of a directory name, each in the
/// alphabet and classified.
pub open spec fn classified(characters: Seq<Base32Char>, bytes: Seq<u8>) -> bool {
    &&& characters.len() == bytes.len()
    &&& forall|i: int|
        0 <= i < bytes.len() ==> in_alphabet(bytes[i]) && characters[i].classifies(bytes[i])
}

/// Classifies every byte of a directory name.
pub fn classify(value: &[u8]) -> (r: Result<Vec<Base32Char>, Error>)
    ensures
        match r {
            Ok(characters) => {
                &&& first_outside(value@) is None
                &&& classified(characters@, value@)
            },
            Err(error) => first_outside(value@) matches Some(byte) && error == Error::InvalidByte(
                byte,
            ),
        },
{
    let mut characters: Vec<Base32Char> = Vec::new();
    let mut i: usize = 0;
    while i < value.len()
        invariant
            i <= value@.len(),
            first_outside_from(value@, i as int) == first_outside(value@),
            characters@.len() == i,
            forall|j: int|
                0 <= j < i ==> in_alphabet(value@[j]) && characters@[j].classifies(value@[j]),
        decreases value@.len() - i,
    {
        let character = match Base32Char::try_from(value[i]) {
            Ok(character) => character,
            Err(error) => {
                return Err(error);
            },
        };
        characters.push(character);
        i += 1;
    }
    Ok(characters)
}

/// Orders two classified directory names lexicographically.
fn order_characters(
    a: &Vec<Base32Char>,
    b: &Vec<Base32Char>,
    Ghost(a_bytes): Ghost<Seq<u8>>,
    Ghost(b_bytes): Ghost<Seq<u8>>,
) -> (r: PartOrder)
    requires
        classified(a@, a_bytes),
        classified(b@, b_bytes),
    ensures
        r == lexicographic(a_bytes, b_bytes, |byte: u8| alphabet_rank(byte)),
{
    let ghost rank = |byte: u8| alphabet_rank(byte);
    let mut i: usize = 0;
    while i < a.len() && i < b.len()
        invariant
            i <= a@.len(),
            i <= b@.len(),
            classified(a@, a_bytes),
            classified(b@, b_bytes),
            rank == (|byte: u8| alphabet_rank(byte)),
            lexicographic_from(a_bytes, b_bytes, rank, i as int) == lexicographic(
                a_bytes,
                b_bytes,
                rank,
            ),
        decreases a@.len() - i,
    {
        proof {
            lemma_classified_order(a@[i as int], b@[i as int]);
        }
        match a[i].order(b[i]) {
            PartOrder::Less => {
                return PartOrder::Less;
            },
            PartOrder::Greater => {
                return PartOrder::Greater;
            },
            PartOrder::Equal => {},
        }
        i += 1;
    }
    if a.len() == b.len() {
        PartOrder::Equal
    } else if i >= a.len() {
        PartOrder::Less
    } else {
        PartOrder::Greater
    }
}

/// Orders two directory names by the Base32 alphabet.
pub fn order_by_alphabet(a: &[u8], b: &[u8]) -> (r: Result<PartOrder, Error>)
    ensures
        r == alphabet_order(a@, b@),
{
    let a_characters = classify(a)?;
    let b_characters = classify(b)?;
    Ok(order_characters(&a_characters, &b_characters, Ghost(a@), Ghost(b@)))
}

/// The name that a stem of the right length stands for, given what the
/// decoder made of it. A decoder error reports the byte at its position. A
/// result of another length than `n` comes of padding in the stem, and
/// reports the first byte that the alphabet lacks. The length of the stem
/// is reported only for an outcome that is not sound for the stem, which
/// the decoder does not give.
pub open spec fn name_of_outcome(stem: Seq<u8>, outcome: Result<Seq<u8>, usize>, n: int) -> Result<
    Seq<u8>,
    Error,
> {
    match outcome {
        Err(position) => if position < stem.len() {
            Err(Error::InvalidByte(stem[position as int]))
        } else {
            Err(Error::InvalidLength(stem.len() as usize))
        },
        Ok(bytes) => if bytes.len() == n {
            Ok(bytes)
        } else {
            match first_outside(stem) {
                Some(byte) => Err(Error::InvalidByte(byte)),
                None => Err(Error::InvalidLength(stem.len() as usize)),
            }
        },
    }
}

/// The length of the Base32 text of `n` bytes, for `n` a multiple of five.
pub open spec fn text_length(n: int) -> int {
    n / 5 * 8
}

/// What a stem reads as under the scheme for names of `n` bytes.
pub open spec fn base32_decoded(n: int, stem: Seq<u8>) -> Result<Seq<u8>, Error> {
    if stem.len() != text_length(n) {
        Err(Error::InvalidLength(stem.len() as usize))
    } else {
        name_of_outcome(stem, base32_data(stem), n)
    }
}

/// Makes a name of `N` bytes of what the decoder made of a stem.
pub fn name_from_outcome<const N: usize>(stem: &[u8], outcome: Result<Vec<u8>, usize>) -> (r: Result<
    [u8; N],
    Error,
>)
    ensures
        match r {
            Ok(name) => name_of_outcome(stem@, outcome_view(outcome), N as int) == Ok::<
                Seq<u8>,
                Error,
            >(name@),
            Err(error) => name_of_outcome(stem@, outcome_view(outcome), N as int) == Err::<
                Seq<u8>,
                Error,
            >(error),
        },
{
    match outcome {
        Err(position) => {
            if position < stem.len() {
                Err(Error::InvalidByte(stem[position]))
            } else {
                Err(Error::InvalidLength(stem.len()))
            }
        },
        Ok(bytes) => {
            if bytes.len() == N {
                let name = crate::text::array_of::<N>(&bytes);
                Ok(name)
            } else {
                match classify(stem) {
                    Err(error) => Err(error),
                    Ok(_) => Err(Error::InvalidLength(stem.len())),
                }
            }
        },
    }
}

/// The scheme whose names are exactly `N` bytes, `N` a multiple of five,
/// written as `N / 5 * 8` Base32 characters without padding.
#[derive(Clone, Copy, Debug, PartialEq, Eq)]
pub struct Base32<const N: usize> {
    /// Kept for the caller; Base32 text is always written in upper case.
    pub case: Case,
}

impl<const N: usize> Base32<N> {
    /// The scheme, for a length that is a multiple of five.
    pub fn new(case: Case) -> (r: Self)
        requires
            N % 5 == 0,
        ensures
            r.case == case,
    {
        Base32 { case }
    }
}

impl<const N: usize> Scheme for Base32<N> {
    type Name = [u8; N];

    open spec fn encoded_length() -> Option<usize> {
        if text_length(N as int) <= usize::MAX {
            Some(text_length(N as int) as usize)
        } else {
            None
        }
    }

    open spec fn well_formed(&self) -> bool {
        N % 5 == 0 && N <= encoder_limit()
    }

    open spec fn encoded(&self, name: Seq<u8>) -> Seq<u8> {
        encode_utf8(base32_text(name))
    }

    open spec fn decoded(&self, file_stem: Seq<u8>) -> Result<Seq<u8>, Error> {
        base32_decoded(N as int, file_stem)
    }

    open spec fn part_order(&self, a: Seq<u8>, b: Seq<u8>) -> Result<PartOrder, Error> {
        alphabet_order(a, b)
    }

    fn fixed_length() -> (r: Option<usize>) {
        (N / 5).checked_mul(8)
    }

    /// The bytes are characters of the alphabet only, so that every
    /// directory name cut from them can be ordered.
    fn name_to_bytes(&self, name: &[u8; N]) -> (bytes: Vec<u8>)
        ensures
            first_outside(bytes@) is None,
    {
        let text = base32_encode(name.as_slice());
        proof {
            is_ascii_chars_encode_utf8(text@);
            lemma_alphabet_text_has_alphabet_bytes(text@);
        }
        text.as_str().as_bytes_vec()
    }

    /// A stem of the right length is never refused for its length.
    fn name_from_file_stem(&self, file_stem: &[u8]) -> (r: Result<[u8; N], Error>)
        ensures
            file_stem@.len() == text_length(N as int) ==> !(r matches Err(Error::InvalidLength(_))),
    {
        if file_stem.len() != N / 5 * 8 {
            return Err(Error::InvalidLength(file_stem.len()));
        }
        let outcome = base32_decode(file_stem);
        proof {
            lemma_sound_outcome_is_no_wrong_length(N as int, file_stem@, outcome_view(outcome));
        }
        name_from_outcome::<N>(file_stem, outcome)
    }

    fn cmp_prefix_part(&self, a: &[u8], b: &[u8]) -> (r: Result<PartOrder, Error>) {
        order_by_alphabet(a, b)
    }
}

/// Where every byte from `from` on is in the alphabet, none is found
/// outside it.
proof fn lemma_none_outside(value: Seq<u8>, from: int)
    requires
        0 <= from,
        forall|i: int| from <= i < value.len() ==> in_alphabet(#[trigger] value[i]),
    ensures
        first_outside_from(value, from) is None,
    decreases value.len() - from,
{
    if from < value.len() {
        lemma_none_outside(value, from + 1);
    }
}

/// Where a byte at or after `from` is not in the alphabet, one is found
/// outside it.
proof fn lemma_some_outside(value: Seq<u8>, from: int, at: int)
    requires
        0 <= from <= at < value.len(),
        !in_alphabet(value[at]),
    ensures
        first_outside_from(value, from) is Some,
    decreases at - from,
{
    if from < at && in_alphabet(value[from]) {
        lemma_some_outside(value, from + 1, at);
    }
}

/// Text in the characters of the alphabet has bytes of the alphabet only.
pub proof fn lemma_alphabet_text_has_alphabet_bytes(text: Seq<char>)
    requires
        written_in_alphabet(text),
    ensures
        first_outside(encode_utf8(text)) is None,
        encode_utf8(text).len() == text.len(),
{
    assert(is_ascii_chars(text)) by {
        assert forall|i: int| 0 <= i < text.len() implies '\0' <= #[trigger] text[i] <= '\u{7f}' by {
            assert(alphabet_char(text[i]));
        }
    }
    is_ascii_chars_encode_utf8(text);
    let bytes = encode_utf8(text);
    assert forall|i: int| 0 <= i < bytes.len() implies in_alphabet(#[trigger] bytes[i]) by {
        assert(alphabet_char(text[i]));
        assert(bytes[i] == text[i] as u8);
    }
    lemma_none_outside(bytes, 0);
}

/// Where no byte is found outside the alphabet from `from` on, every byte
/// from there on is in it.
proof fn lemma_all_inside(value: Seq<u8>, from: int)
    requires
        0 <= from,
        first_outside_from(value, from) is None,
    ensures
        forall|i: int| from <= i < value.len() ==> in_alphabet(#[trigger] value[i]),
    decreases value.len() - from,
{
    if from < value.len() {
        lemma_all_inside(value, from + 1);
    }
}

/// The directory names that a name written in the alphabet is cut into are
/// written in the alphabet, so that the scheme can order any two of them.
pub proof fn lemma_directory_names_can_be_ordered(
    encoded: Seq<u8>,
    lengths: Seq<usize>,
    first: int,
    second: int,
)
    requires
        first_outside(encoded) is None,
        crate::shardable(encoded, lengths),
        0 <= first < lengths.len(),
        0 <= second < lengths.len(),
    ensures
        first_outside(crate::directory_names(encoded, lengths)[first]) is None,
        first_outside(crate::directory_names(encoded, lengths)[second]) is None,
        alphabet_order(
            crate::directory_names(encoded, lengths)[first],
            crate::directory_names(encoded, lengths)[second],
        ) is Ok,
{
    lemma_all_inside(encoded, 0);
    lemma_slice_in_alphabet(encoded, lengths, first);
    lemma_slice_in_alphabet(encoded, lengths, second);
}

/// A directory name cut from a name written in the alphabet is written in
/// the alphabet.
proof fn lemma_slice_in_alphabet(encoded: Seq<u8>, lengths: Seq<usize>, level: int)
    requires
        forall|i: int| 0 <= i < encoded.len() ==> in_alphabet(#[trigger] encoded[i]),
        crate::shardable(encoded, lengths),
        0 <= level < lengths.len(),
    ensures
        first_outside(crate::directory_names(encoded, lengths)[level]) is None,
{
    crate::lemma_lengths_sum_step(lengths, level);
    crate::lemma_lengths_sum_grows(lengths, level + 1);
    crate::lemma_lengths_sum_nonnegative(lengths.take(level));
    let start = crate::part_start(lengths, level);
    let part = crate::directory_names(encoded, lengths)[level];
    assert forall|i: int| 0 <= i < part.len() implies in_alphabet(#[trigger] part[i]) by {
        assert(part[i] == encoded[start + i]);
    }
    lemma_none_outside(part, 0);
}

/// A stem of the right length is never refused for its length, where the
/// outcome of reading it is sound: padding in the stem is reported as a byte
/// that the alphabet lacks.
pub proof fn lemma_sound_outcome_is_no_wrong_length(
    n: int,
    stem: Seq<u8>,
    outcome: Result<Seq<u8>, usize>,
)
    requires
        0 <= n,
        n % 5 == 0,
        stem.len() == text_length(n),
        sound_outcome(stem, outcome),
    ensures
        !(name_of_outcome(stem, outcome, n) matches Err(Error::InvalidLength(_))),
{
    match outcome {
        Err(position) => {},
        Ok(bytes) => {
            if bytes.len() != n {
                assert(stem.contains(PADDING));
                let at = choose|i: int| 0 <= i < stem.len() && stem[i] == PADDING;
                lemma_some_outside(stem, 0, at);
            }
        },
    }
}

/// A stem of the right length is never refused for its length, where the
/// decoder's outcome for it is sound, as every outcome it gives is.
pub proof fn lemma_base32_right_length(n: int, stem: Seq<u8>)
    requires
        0 <= n,
        n % 5 == 0,
        stem.len() == text_length(n),
        sound_outcome(stem, base32_data(stem)),
    ensures
        !(base32_decoded(n, stem) matches Err(Error::InvalidLength(_))),
{
    lemma_sound_outcome_is_no_wrong_length(n, stem, base32_data(stem));
}

/// A stem that has not the length of the scheme is refused with the length
/// it has, whatever its bytes.
pub proof fn lemma_base32_wrong_length(n: int, stem: Seq<u8>)
    requires
        stem.len() != text_length(n),
    ensures
        base32_decoded(n, stem) == Err::<Seq<u8>, Error>(Error::InvalidLength(stem.len() as usize)),
{
}

/// A stem of the right length at which the decoder finds an error is
/// refused with the byte at the position of the error.
pub proof fn lemma_base32_foreign_byte(n: int, stem: Seq<u8>, position: usize)
    requires
        stem.len() == text_length(n),
        base32_data(stem) == Err::<Seq<u8>, usize>(position),
        position < stem.len(),
    ensures
        base32_decoded(n, stem) == Err::<Seq<u8>, Error>(Error::InvalidByte(stem[position as int])),
{
}

/// The proper names that are written in the Base32 alphabet.
pub open spec fn alphabet_names() -> Set<Seq<u8>> {
    Set::new(|name: Seq<u8>| is_normal_name(name) && first_outside(name) is None)
}

/// The order of listings of the Base32 scheme is a strict weak order on the
/// proper names that are written in its alphabet.
pub proof fn lemma_alphabet_order_is_strict_weak<const N: usize>(scheme: Base32<N>)
    ensures
        is_strict_weak_order(scheme, alphabet_names()),
{
    let rank = |byte: u8| alphabet_rank(byte);
    let domain = alphabet_names();
    assert forall|a: Seq<u8>, b: Seq<u8>|
        domain.contains(a) && domain.contains(b) && #[trigger] stands_before(
            scheme,
            a,
            b,
        ) implies !stands_before(scheme, b, a) by {
        lemma_lexicographic_reverses(a, b, rank, 0);
    }
    assert forall|a: Seq<u8>, b: Seq<u8>, c: Seq<u8>|
        domain.contains(a) && domain.contains(b) && domain.contains(c) && #[trigger] stands_before(
            scheme,
            a,
            b,
        ) && #[trigger] stands_before(scheme, b, c) implies stands_before(scheme, a, c) by {
        lemma_lexicographic_is_transitive(a, b, c, rank, 0);
    }
    assert forall|a: Seq<u8>, b: Seq<u8>, c: Seq<u8>|
        domain.contains(a) && domain.contains(b) && domain.contains(c) && !#[trigger] stands_before(
            scheme,
            a,
            b,
        ) && !#[trigger] stands_before(scheme, b, c) implies !stands_before(scheme, a, c) by {
        lemma_lexicographic_is_weak(a, b, c, rank, 0);
    }
}

/// Under the Base32 scheme, a listing of proper names in its alphabet is
/// arranged in descending order of the alphabet: taken from its end, the
/// names come in ascending order, letters before digits.
pub proof fn lemma_arranged_by_alphabet_is_ordered<const N: usize>(
    scheme: Base32<N>,
    names: Seq<Seq<u8>>,
)
    requires
        forall|i: int|
            0 <= i < names.len() ==> is_normal_name(#[trigger] names[i]) && first_outside(names[i])
                is None,
    ensures
        forall|i: int, j: int|
            0 <= i < j < names.len() ==> lexicographic(
                #[trigger] arranged(scheme, names)[i],
                #[trigger] arranged(scheme, names)[j],
                |byte: u8| alphabet_rank(byte),
            ) != PartOrder::Less,
{
    lemma_alphabet_order_is_strict_weak(scheme);
    lemma_arranged_is_ordered(scheme, names, alphabet_names());
    crate::sorting::lemma_arranged_is_permutation(scheme, names);
    let out = arranged(scheme, names);
    assert forall|i: int, j: int| 0 <= i < j < names.len() implies lexicographic(
        #[trigger] out[i],
        #[trigger] out[j],
        |byte: u8| alphabet_rank(byte),
    ) != PartOrder::Less by {
        assert(alphabet_names().contains(out[i]));
        assert(alphabet_names().contains(out[j]));
        assert(!stands_before(scheme, out[j], out[i]));
        lemma_lexicographic_reverses(out[i], out[j], |byte: u8| alphabet_rank(byte), 0);
    }
}

} // verus!
