//! Hexadecimal schemes: a name is a byte string, written as two hexadecimal
//! digits for each byte.

use crate::scheme::{byte_order, order_bytes, Case, Error, PartOrder, Scheme};
use crate::text::{ascii_to_string, is_ascii_bytes, lemma_ascii_bytes_are_utf8, str_from_utf8};
use vstd::prelude::*;
use vstd::utf8::*;

verus! {

/// Whether `c` is a decimal digit.
pub open spec fn is_decimal_digit(c: u8) -> bool {
    48 <= c <= 57
}

/// Whether `c` is one of the letters `a` to `f`.
pub open spec fn is_lower_hex_letter(c: u8) -> bool {
    97 <= c <= 102
}

/// Whether `c` is one of the letters `A` to `F`.
pub open spec fn is_upper_hex_letter(c: u8) -> bool {
    65 <= c <= 70
}

/// Whether `c` is a hexadecimal digit of either case.
pub open spec fn is_hex_digit(c: u8) -> bool {
    is_decimal_digit(c) || is_lower_hex_letter(c) || is_upper_hex_letter(c)
}

/// Whether `c` belongs to the hexadecimal alphabet of the given case.
pub open spec fn is_valid_character(case: Case, c: u8) -> bool {
    match case {
        Case::Lower => is_decimal_digit(c) || is_lower_hex_letter(c),
        Case::Upper => is_decimal_digit(c) || is_upper_hex_letter(c),
        Case::Any => is_hex_digit(c),
    }
}

/// The number that the hexadecimal digit `c` stands for.
pub open spec fn hex_value(c: u8) -> int {
    if is_decimal_digit(c) {
        c - 48
    } else if is_lower_hex_letter(c) {
        c - 87
    } else {
        c - 55
    }
}

/// The digit that stands for `nibble`, upper case for `Case::Upper` and
/// lower case otherwise.
pub open spec fn hex_digit(case: Case, nibble: int) -> u8 {
    if nibble < 10 {
        (48 + nibble) as u8
    } else if case == Case::Upper {
        (55 + nibble) as u8
    } else {
        (87 + nibble) as u8
    }
}

/// The hexadecimal text of `bytes`: for each byte its high digit, then its
/// low digit.
pub open spec fn hex_text(case: Case, bytes: Seq<u8>) -> Seq<u8> {
    Seq::new(
        2 * bytes.len(),
        |i: int|
            if i % 2 == 0 {
                hex_digit(case, bytes[i / 2] as int / 16)
            } else {
                hex_digit(case, bytes[i / 2] as int % 16)
            },
    )
}

/// The first byte of `value` that the alphabet of the given case lacks,
/// looking from index `from` on.
pub open spec fn first_invalid_from(case: Case, value: Seq<u8>, from: int) -> Option<u8>
    decreases value.len() - from,
{
    if from < 0 || from >= value.len() {
        None
    } else if !is_valid_character(case, value[from]) {
        Some(value[from])
    } else {
        first_invalid_from(case, value, from + 1)
    }
}

/// The first byte of `value` that the alphabet of the given case lacks.
pub open spec fn first_invalid(case: Case, value: Seq<u8>) -> Option<u8> {
    first_invalid_from(case, value, 0)
}

/// Whether the `k`th pair of bytes of `stem` is two digits of the alphabet
/// of the given case.
pub open spec fn pair_is_valid(case: Case, stem: Seq<u8>, k: int) -> bool {
    is_valid_character(case, stem[2 * k]) && is_valid_character(case, stem[2 * k + 1])
}

/// The byte that the `k`th pair of digits of `stem` stands for.
pub open spec fn pair_value(stem: Seq<u8>, k: int) -> u8 {
    (hex_value(stem[2 * k]) * 16 + hex_value(stem[2 * k + 1])) as u8
}

/// The index of the first pair of `stem`, from pair `k` on, that is not two
/// digits of the alphabet of the given case.
pub open spec fn first_bad_pair_from(case: Case, stem: Seq<u8>, k: int) -> Option<int>
    decreases stem.len() - 2 * k,
{
    if k < 0 || 2 * k + 1 >= stem.len() {
        None
    } else if !pair_is_valid(case, stem, k) {
        Some(k)
    } else {
        first_bad_pair_from(case, stem, k + 1)
    }
}

/// The byte reported for a pair that is not two digits of the alphabet of
/// the given case: the first of the two that the alphabet lacks.
pub open spec fn offending_byte(case: Case, stem: Seq<u8>, k: int) -> u8 {
    if !is_valid_character(case, stem[2 * k]) {
        stem[2 * k]
    } else {
        stem[2 * k + 1]
    }
}

/// The bytes that the pairs of digits of `stem` stand for.
pub open spec fn pair_values(stem: Seq<u8>) -> Seq<u8> {
    Seq::new((stem.len() / 2) as nat, |k: int| pair_value(stem, k))
}

/// What a stem of even length reads as: the bytes its pairs stand for, or
/// the offending byte of its first pair that is not two digits of the
/// alphabet of the given case. Only `Case::Any` reads digits of either case.
pub open spec fn decoded_pairs(case: Case, stem: Seq<u8>) -> Result<Seq<u8>, Error> {
    match first_bad_pair_from(case, stem, 0) {
        Some(k) => Err(Error::InvalidByte(offending_byte(case, stem, k))),
        None => Ok(pair_values(stem)),
    }
}

/// What a stem reads as under the scheme for names of any length.
pub open spec fn any_length_decoded(case: Case, stem: Seq<u8>) -> Result<Seq<u8>, Error> {
    if !valid_utf8(stem) {
        Err(Error::NonUtf8)
    } else if stem.len() % 2 != 0 {
        Err(Error::InvalidLength(stem.len() as usize))
    } else {
        decoded_pairs(case, stem)
    }
}

/// What a stem reads as under the scheme for names of `n` bytes.
pub open spec fn fixed_decoded(case: Case, n: int, stem: Seq<u8>) -> Result<Seq<u8>, Error> {
    if !valid_utf8(stem) {
        Err(Error::NonUtf8)
    } else if stem.len() != 2 * n {
        Err(Error::InvalidLength(stem.len() as usize))
    } else {
        decoded_pairs(case, stem)
    }
}

/// Tests whether `c` belongs to the hexadecimal alphabet of the given case.
pub fn is_valid_character_byte(case: Case, c: u8) -> (r: bool)
    ensures
        r == is_valid_character(case, c),
{
    let digit = 48 <= c && c <= 57;
    let lower = 97 <= c && c <= 102;
    let upper = 65 <= c && c <= 70;
    match case {
        Case::Lower => digit || lower,
        Case::Upper => digit || upper,
        Case::Any => digit || lower || upper,
    }
}

/// Finds the first byte of `value` that the alphabet of the given case
/// lacks.
pub fn first_invalid_byte(case: Case, value: &[u8]) -> (r: Option<u8>)
    ensures
        r == first_invalid(case, value@),
{
    let mut i: usize = 0;
    while i < value.len()
        invariant
            i <= value@.len(),
            first_invalid_from(case, value@, i as int) == first_invalid(case, value@),
        decreases value@.len() - i,
    {
        if !is_valid_character_byte(case, value[i]) {
            return Some(value[i]);
        }
        i += 1;
    }
    None
}

/// The digit for a number below sixteen.
fn digit_of(case: Case, nibble: u8) -> (r: u8)
    requires
        nibble < 16,
    ensures
        r == hex_digit(case, nibble as int),
        r < 128,
{
    if nibble < 10 {
        48 + nibble
    } else {
        match case {
            Case::Upper => 55 + nibble,
            _ => 87 + nibble,
        }
    }
}

/// The number of a hexadecimal digit, if `c` is one.
fn value_of(c: u8) -> (r: Option<u8>)
    ensures
        r is Some <==> is_hex_digit(c),
        r matches Some(v) ==> v == hex_value(c) && v < 16,
{
    if 48 <= c && c <= 57 {
        Some(c - 48)
    } else if 97 <= c && c <= 102 {
        Some(c - 87)
    } else if 65 <= c && c <= 70 {
        Some(c - 55)
    } else {
        None
    }
}

/// Hexadecimal text is ASCII.
pub proof fn lemma_hex_text_is_ascii(case: Case, bytes: Seq<u8>)
    ensures
        is_ascii_bytes(hex_text(case, bytes)),
        valid_utf8(hex_text(case, bytes)),
{
    assert(is_ascii_bytes(hex_text(case, bytes)));
    lemma_ascii_bytes_are_utf8(hex_text(case, bytes));
}

/// Writes `bytes` as hexadecimal digits, in upper case for `Case::Upper`
/// and in lower case otherwise.
pub fn bytes_to_digits(case: Case, bytes: &[u8]) -> (digits: Vec<u8>)
    ensures
        digits@ == hex_text(case, bytes@),
{
    let mut digits: Vec<u8> = Vec::new();
    let mut i: usize = 0;
    while i < bytes.len()
        invariant
            i <= bytes@.len(),
            digits@.len() == 2 * i,
            forall|j: int| 0 <= j < digits@.len() ==> digits@[j] == hex_text(case, bytes@)[j],
        decreases bytes@.len() - i,
    {
        let byte = bytes[i];
        digits.push(digit_of(case, byte / 16));
        digits.push(digit_of(case, byte % 16));
        i += 1;
    }
    assert(digits@ =~= hex_text(case, bytes@));
    digits
}

/// Writes `bytes` as hexadecimal text, in upper case for `Case::Upper` and
/// in lower case otherwise.
pub fn bytes_to_string(case: Case, bytes: &[u8]) -> (r: String)
    ensures
        encode_utf8(r@) == hex_text(case, bytes@),
{
    let digits = bytes_to_digits(case, bytes);
    proof {
        lemma_hex_text_is_ascii(case, bytes@);
    }
    ascii_to_string(digits.as_slice())
}

/// Reads the `k`th pair of digits of a stem.
fn read_pair(case: Case, stem: &[u8], k: usize) -> (r: Result<u8, Error>)
    requires
        2 * k + 1 < stem@.len(),
    ensures
        match r {
            Ok(value) => pair_is_valid(case, stem@, k as int) && value == pair_value(
                stem@,
                k as int,
            ),
            Err(error) => !pair_is_valid(case, stem@, k as int) && error == Error::InvalidByte(
                offending_byte(case, stem@, k as int),
            ),
        },
{
    let length = stem.len();
    assert(2 * k + 1 < length);
    let high = stem[2 * k];
    let low = stem[2 * k + 1];
    if !is_valid_character_byte(case, high) {
        return Err(Error::InvalidByte(high));
    }
    if !is_valid_character_byte(case, low) {
        return Err(Error::InvalidByte(low));
    }
    match (value_of(high), value_of(low)) {
        (Some(h), Some(l)) => Ok(h * 16 + l),
        _ => vstd::pervasive::unreached(),
    }
}

/// Whether text written in one case is read in another: every case reads
/// what it writes, `Case::Any` reads what any case writes, and
/// `Case::Lower` reads what `Case::Any` writes, which is lower case.
pub open spec fn reads_case(read: Case, written: Case) -> bool {
    read == Case::Any || read == written || (written == Case::Any && read == Case::Lower)
}

/// Reading the hexadecimal text of `bytes` gives `bytes` back, where the
/// case of the reading takes the case of the writing.
pub proof fn lemma_hex_round_trip(written: Case, read: Case, bytes: Seq<u8>)
    requires
        reads_case(read, written),
    ensures
        decoded_pairs(read, hex_text(written, bytes)) == Ok::<Seq<u8>, Error>(bytes),
        any_length_decoded(read, hex_text(written, bytes)) == Ok::<Seq<u8>, Error>(bytes),
        fixed_decoded(read, bytes.len() as int, hex_text(written, bytes)) == Ok::<Seq<u8>, Error>(bytes),
{
    let text = hex_text(written, bytes);
    lemma_hex_text_is_ascii(written, bytes);
    assert forall|k: int| 0 <= k < bytes.len() implies pair_is_valid(read, text, k) && pair_value(
        text,
        k,
    ) == bytes[k] by {
        let b = bytes[k] as int;
        assert((2 * k) % 2 == 0 && (2 * k) / 2 == k);
        assert((2 * k + 1) % 2 == 1 && (2 * k + 1) / 2 == k);
        assert(text[2 * k] == hex_digit(written, b / 16));
        assert(text[2 * k + 1] == hex_digit(written, b % 16));
        assert(0 <= b / 16 < 16 && 0 <= b % 16 < 16);
        assert(b == (b / 16) * 16 + b % 16);
    }
    lemma_no_bad_pair(read, text, 0);
    assert(pair_values(text) =~= bytes);
}

/// Where every pair from `k` on is two digits, no pair is bad.
proof fn lemma_no_bad_pair(case: Case, stem: Seq<u8>, k: int)
    requires
        0 <= k,
        forall|j: int| k <= j && 2 * j + 1 < stem.len() ==> pair_is_valid(case, stem, j),
    ensures
        first_bad_pair_from(case, stem, k) is None,
    decreases stem.len() - 2 * k,
{
    if 2 * k + 1 < stem.len() {
        lemma_no_bad_pair(case, stem, k + 1);
    }
}

/// Reads a stem of even length pair by pair.
fn read_pairs(case: Case, stem: &[u8]) -> (r: Result<Vec<u8>, Error>)
    requires
        stem@.len() % 2 == 0,
    ensures
        match r {
            Ok(bytes) => decoded_pairs(case, stem@) == Ok::<Seq<u8>, Error>(bytes@),
            Err(error) => decoded_pairs(case, stem@) == Err::<Seq<u8>, Error>(error),
        },
{
    let pairs = stem.len() / 2;
    let mut bytes: Vec<u8> = Vec::new();
    let mut k: usize = 0;
    while k < pairs
        invariant
            k <= pairs,
            pairs == stem@.len() / 2,
            stem@.len() % 2 == 0,
            bytes@.len() == k,
            first_bad_pair_from(case, stem@, k as int) == first_bad_pair_from(case, stem@, 0),
            forall|j: int| 0 <= j < k ==> bytes@[j] == pair_value(stem@, j),
        decreases pairs - k,
    {
        match read_pair(case, stem, k) {
            Ok(value) => {
                bytes.push(value);
            },
            Err(error) => {
                return Err(error);
            },
        }
        k += 1;
    }
    assert(bytes@ =~= pair_values(stem@));
    Ok(bytes)
}

/// The scheme whose names are exactly `N` bytes, written as `2 * N`
/// hexadecimal digits.
#[derive(Clone, Copy, Debug, PartialEq, Eq)]
pub struct Hex<const N: usize> {
    /// The case that names are written in, and by which an offending byte
    /// is picked.
    pub case: Case,
}

impl<const N: usize> Default for Hex<N> {
    fn default() -> (r: Self)
        ensures
            r.case == Case::Lower,
    {
        Hex { case: Case::Lower }
    }
}

impl<const N: usize> Hex<N> {
    /// The scheme for the given case.
    pub fn new(case: Case) -> (r: Self)
        ensures
            r.case == case,
    {
        Hex { case }
    }
}

impl<const N: usize> Scheme for Hex<N> {
    type Name = [u8; N];

    open spec fn encoded_length() -> Option<usize> {
        if 2 * N <= usize::MAX {
            Some((2 * N) as usize)
        } else {
            None
        }
    }

    open spec fn well_formed(&self) -> bool {
        true
    }

    open spec fn encoded(&self, name: Seq<u8>) -> Seq<u8> {
        hex_text(self.case, name)
    }

    open spec fn decoded(&self, file_stem: Seq<u8>) -> Result<Seq<u8>, Error> {
        fixed_decoded(self.case, N as int, file_stem)
    }

    open spec fn part_order(&self, a: Seq<u8>, b: Seq<u8>) -> Result<PartOrder, Error> {
        Ok(byte_order(a, b))
    }

    fn fixed_length() -> (r: Option<usize>) {
        N.checked_mul(2)
    }

    fn name_to_bytes(&self, name: &[u8; N]) -> (bytes: Vec<u8>) {
        proof {
            lemma_hex_round_trip(self.case, self.case, name@);
        }
        bytes_to_digits(self.case, name.as_slice())
    }

    fn name_from_file_stem(&self, file_stem: &[u8]) -> (r: Result<[u8; N], Error>) {
        if str_from_utf8(file_stem).is_none() {
            return Err(Error::NonUtf8);
        }
        let length = file_stem.len();
        if length % 2 != 0 || length / 2 != N {
            return Err(Error::InvalidLength(length));
        }
        let bytes = read_pairs(self.case, file_stem)?;
        let name = crate::text::array_of::<N>(&bytes);
        Ok(name)
    }

    fn cmp_prefix_part(&self, a: &[u8], b: &[u8]) -> (r: Result<PartOrder, Error>) {
        Ok(order_bytes(a, b))
    }
}

/// The scheme whose names are byte strings of any length, written as two
/// hexadecimal digits for each byte.
#[derive(Clone, Copy, Debug, PartialEq, Eq)]
pub struct AnyLengthHex {
    /// The case that names are written in, and by which an offending byte
    /// is picked.
    pub case: Case,
}

impl Default for AnyLengthHex {
    fn default() -> (r: Self)
        ensures
            r.case == Case::Lower,
    {
        AnyLengthHex { case: Case::Lower }
    }
}

impl AnyLengthHex {
    /// The scheme for the given case.
    pub fn new(case: Case) -> (r: Self)
        ensures
            r.case == case,
    {
        AnyLengthHex { case }
    }
}

impl Scheme for AnyLengthHex {
    type Name = Vec<u8>;

    open spec fn encoded_length() -> Option<usize> {
        None
    }

    open spec fn well_formed(&self) -> bool {
        true
    }

    open spec fn encoded(&self, name: Seq<u8>) -> Seq<u8> {
        hex_text(self.case, name)
    }

    open spec fn decoded(&self, file_stem: Seq<u8>) -> Result<Seq<u8>, Error> {
        any_length_decoded(self.case, file_stem)
    }

    open spec fn part_order(&self, a: Seq<u8>, b: Seq<u8>) -> Result<PartOrder, Error> {
        Ok(byte_order(a, b))
    }

    fn fixed_length() -> (r: Option<usize>) {
        None
    }

    fn name_to_bytes(&self, name: &Vec<u8>) -> (bytes: Vec<u8>) {
        proof {
            lemma_hex_round_trip(self.case, self.case, name@);
        }
        bytes_to_digits(self.case, name.as_slice())
    }

    fn name_from_file_stem(&self, file_stem: &[u8]) -> (r: Result<Vec<u8>, Error>) {
        if str_from_utf8(file_stem).is_none() {
            return Err(Error::NonUtf8);
        }
        let length = file_stem.len();
        if length % 2 != 0 {
            return Err(Error::InvalidLength(length));
        }
        read_pairs(self.case, file_stem)
    }

    fn cmp_prefix_part(&self, a: &[u8], b: &[u8]) -> (r: Result<PartOrder, Error>) {
        Ok(order_bytes(a, b))
    }
}

/// Where the pairs from `k` up to `bad` are two digits each and the pair
/// `bad` is not, `bad` is the first bad pair from `k` on.
proof fn lemma_first_bad_pair(case: Case, stem: Seq<u8>, k: int, bad: int)
    requires
        0 <= k <= bad,
        2 * bad + 1 < stem.len(),
        !pair_is_valid(case, stem, bad),
        forall|j: int| k <= j < bad ==> pair_is_valid(case, stem, j),
    ensures
        first_bad_pair_from(case, stem, k) == Some(bad),
    decreases bad - k,
{
    if k < bad {
        lemma_first_bad_pair(case, stem, k + 1, bad);
    }
}

/// A stem that is text but has not the length of the scheme is refused with
/// the length it has.
pub proof fn lemma_hex_wrong_length(case: Case, n: int, stem: Seq<u8>)
    requires
        valid_utf8(stem),
        stem.len() != 2 * n,
    ensures
        fixed_decoded(case, n, stem) == Err::<Seq<u8>, Error>(
            Error::InvalidLength(stem.len() as usize),
        ),
        stem.len() % 2 != 0 ==> any_length_decoded(case, stem) == Err::<Seq<u8>, Error>(
            Error::InvalidLength(stem.len() as usize),
        ),
{
}

/// A stem of the right length in which one ASCII byte is outside the
/// alphabet of the case, and every other byte belongs to it, is refused
/// with that byte.
pub proof fn lemma_hex_foreign_byte(case: Case, n: int, stem: Seq<u8>, at: int)
    requires
        stem.len() == 2 * n,
        0 <= at < stem.len(),
        stem[at] < 128,
        !is_valid_character(case, stem[at]),
        forall|j: int| 0 <= j < stem.len() && j != at ==> is_valid_character(case, stem[j]),
    ensures
        fixed_decoded(case, n, stem) == Err::<Seq<u8>, Error>(Error::InvalidByte(stem[at])),
        any_length_decoded(case, stem) == Err::<Seq<u8>, Error>(Error::InvalidByte(stem[at])),
{
    assert(is_ascii_bytes(stem)) by {
        assert forall|j: int| 0 <= j < stem.len() implies #[trigger] stem[j] < 128 by {
            if j != at {
                assert(is_valid_character(case, stem[j]));
            }
        }
    }
    lemma_ascii_bytes_are_utf8(stem);
    let bad = at / 2;
    assert forall|j: int| 0 <= j < bad implies pair_is_valid(case, stem, j) by {
        assert(is_valid_character(case, stem[2 * j]));
        assert(is_valid_character(case, stem[2 * j + 1]));
    }
    lemma_first_bad_pair(case, stem, 0, bad);
    if at == 2 * bad {
        assert(!is_valid_character(case, stem[2 * bad]));
    } else {
        assert(at == 2 * bad + 1);
        assert(is_valid_character(case, stem[2 * bad]));
    }
}

} // verus!
