//! Constraints on the file names that a tree accepts.

use std::ops::Range;
use vstd::prelude::*;
use vstd::std_specs::convert::FromSpecImpl;
use vstd::utf8::encode_utf8;

verus! {

/// What a tree demands of the extension of its files.
#[derive(Clone, Debug, PartialEq, Eq)]
pub enum Extension {
    /// No extension is permitted.
    Forbidden,
    /// Exactly one extension is required, whatever it is.
    Any,
    /// The extension must be exactly this one.
    Fixed(String),
}

/// An extension constraint with the fixed extension as its bytes.
pub enum ExtensionRule {
    Forbidden,
    Any,
    Fixed(Seq<u8>),
}

impl View for Extension {
    type V = ExtensionRule;

    open spec fn view(&self) -> ExtensionRule {
        match self {
            Extension::Forbidden => ExtensionRule::Forbidden,
            Extension::Any => ExtensionRule::Any,
            Extension::Fixed(extension) => ExtensionRule::Fixed(encode_utf8(extension@)),
        }
    }
}

/// Whether a file with the given extension, or with none, meets the
/// constraint. Without a constraint every file does.
pub open spec fn extension_admitted(rule: Option<ExtensionRule>, extension: Option<Seq<u8>>) -> bool {
    match rule {
        None => true,
        Some(ExtensionRule::Forbidden) => extension is None,
        Some(ExtensionRule::Any) => extension is Some,
        Some(ExtensionRule::Fixed(expected)) => extension == Some(expected),
    }
}

/// Whether a file whose stem has the given length, or that has no stem,
/// meets the constraint. Without a constraint every file does.
pub open spec fn stem_length_admitted(rule: Option<Length>, length: Option<int>) -> bool {
    match rule {
        None => true,
        Some(constraint) => length matches Some(n) && constraint.admits(n),
    }
}

impl Default for Extension {
    fn default() -> (r: Self)
        ensures
            r@ == ExtensionRule::Forbidden,
    {
        Extension::Forbidden
    }
}

/// What a tree demands of the length of its file stems.
#[derive(Clone, Copy, Debug, PartialEq, Eq, Structural)]
pub enum Length {
    /// The stem has exactly this many bytes.
    Fixed(usize),
    /// The stem has at least the first and fewer than the second number of bytes.
    Range(usize, usize),
}

impl Length {
    /// The greatest stem length that the constraint leaves room for: the
    /// fixed length, or the length just below the end of the range. A range
    /// that ends at zero leaves room for none.
    pub open spec fn maximum(self) -> Option<usize> {
        match self {
            Length::Fixed(length) => Some(length),
            Length::Range(_, end) => if end > 0 {
                Some((end - 1) as usize)
            } else {
                None
            },
        }
    }

    /// The greatest stem length that the constraint leaves room for.
    pub fn greatest(&self) -> (r: Option<usize>)
        ensures
            r == self.maximum(),
    {
        match *self {
            Length::Fixed(length) => Some(length),
            Length::Range(_, end) => if end > 0 {
                Some(end - 1)
            } else {
                None
            },
        }
    }

    /// Whether a stem of `length` bytes meets the constraint.
    pub open spec fn admits(self, length: int) -> bool {
        match self {
            Length::Fixed(expected) => length == expected,
            Length::Range(minimum, maximum) => minimum <= length < maximum,
        }
    }

    /// Tests a stem length against the constraint.
    pub fn accepts(&self, length: usize) -> (r: bool)
        ensures
            r == self.admits(length as int),
    {
        match *self {
            Length::Fixed(expected) => length == expected,
            Length::Range(minimum, maximum) => length >= minimum && length < maximum,
        }
    }
}

impl From<usize> for Length {
    fn from(value: usize) -> (r: Self) {
        Length::Fixed(value)
    }
}

impl FromSpecImpl<usize> for Length {
    open spec fn obeys_from_spec() -> bool {
        true
    }

    open spec fn from_spec(value: usize) -> Self {
        Length::Fixed(value)
    }
}

impl From<Range<usize>> for Length {
    fn from(value: Range<usize>) -> (r: Self) {
        Length::Range(value.start, value.end)
    }
}

impl FromSpecImpl<Range<usize>> for Length {
    open spec fn obeys_from_spec() -> bool {
        true
    }

    open spec fn from_spec(value: Range<usize>) -> Self {
        Length::Range(value.start, value.end)
    }
}

} // verus!
