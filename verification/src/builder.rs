//! The builder of a tree: it gathers the configuration and checks, when the
//! tree is built, that the directory names fit into the file stems.

use crate::constraint::{Extension, ExtensionRule, Length};
use crate::lengths_sum;
use crate::scheme::{Identity, Scheme};
use crate::Tree;
use std::ops::Range;
use vstd::prelude::*;
use vstd::slice::slice_to_vec;
use vstd::string::StringExecFns;
use vstd::utf8::encode_utf8;

verus! {

/// Why a configuration makes no tree.
#[derive(Clone, Copy, Debug, PartialEq, Eq, Structural)]
pub enum Error {
    /// The directory names together are longer than a file stem may be.
    InconsistentPrefixPartLengths { prefix_part_lengths_total: usize, length_constraint: Length },
}

/// Whether directory names of the given lengths fit into a stem that meets
/// the length constraint: their sum does not exceed the greatest length
/// that the constraint leaves room for. Without a constraint they always
/// fit.
pub open spec fn consistent(rule: Option<Length>, lengths: Seq<usize>) -> bool {
    match rule {
        Some(constraint) => match constraint.maximum() {
            Some(maximum) => lengths_sum(lengths) <= maximum,
            None => false,
        },
        None => true,
    }
}

/// The largest number, or `sum` where it is no larger.
pub open spec fn saturated(sum: int) -> int {
    if sum <= usize::MAX {
        sum
    } else {
        usize::MAX as int
    }
}

/// The configuration of a tree in the making.
#[derive(Debug, PartialEq, Eq)]
pub struct TreeBuilder<S: Scheme> {
    base: Vec<u8>,
    length_constraint: Option<Length>,
    extension_constraint: Option<Extension>,
    prefix_part_lengths: Option<Vec<usize>>,
    scheme: S,
}

impl TreeBuilder<Identity> {
    /// A builder for a tree at `base`, with the identity scheme, no
    /// constraints and no directory levels.
    pub fn new(base: Vec<u8>) -> (builder: Self)
        ensures
            builder.base() == base@,
            builder.length_rule() is None,
            builder.extension_rule() is None,
            builder.part_lengths() == Seq::<usize>::empty(),
            builder.scheme() == Identity,
    {
        TreeBuilder {
            base,
            length_constraint: None,
            extension_constraint: None,
            prefix_part_lengths: None,
            scheme: Identity,
        }
    }
}

impl<S: Scheme> TreeBuilder<S> {
    #[verifier::type_invariant]
    spec fn valid(self) -> bool {
        self.scheme.well_formed()
    }

    /// The base directory.
    pub closed spec fn base(&self) -> Seq<u8> {
        self.base@
    }

    /// The constraint on the length of file stems, if any.
    pub closed spec fn length_rule(&self) -> Option<Length> {
        self.length_constraint
    }

    /// The constraint on extensions, if any.
    pub closed spec fn extension_rule(&self) -> Option<ExtensionRule> {
        match self.extension_constraint {
            Some(extension) => Some(extension@),
            None => None,
        }
    }

    /// The lengths of the directory names, outermost level first; none
    /// where none were given.
    pub closed spec fn part_lengths(&self) -> Seq<usize> {
        match self.prefix_part_lengths {
            Some(lengths) => lengths@,
            None => Seq::empty(),
        }
    }

    /// The scheme of the names.
    pub closed spec fn scheme(&self) -> S {
        self.scheme
    }

    /// Whether `other` differs at most in its constraints.
    pub open spec fn same_place(&self, other: &Self) -> bool {
        &&& other.base() == self.base()
        &&& other.part_lengths() == self.part_lengths()
        &&& other.scheme() == self.scheme()
    }

    /// Builds the tree. Where a length constraint is set, the lengths of the
    /// directory names must not add up to more than the greatest stem length
    /// that it leaves room for; the error reports their sum, or the largest
    /// number where the sum exceeds it.
    pub fn build(self) -> (r: Result<Tree<S>, Error>)
        ensures
            match r {
                Ok(tree) => {
                    &&& consistent(self.length_rule(), self.part_lengths())
                    &&& tree.base() == self.base()
                    &&& tree.length_rule() == self.length_rule()
                    &&& tree.extension_rule() == self.extension_rule()
                    &&& tree.part_lengths() == self.part_lengths()
                    &&& tree.scheme() == self.scheme()
                },
                Err(error) => {
                    &&& !consistent(self.length_rule(), self.part_lengths())
                    &&& self.length_rule() matches Some(constraint)
                    &&& error == (Error::InconsistentPrefixPartLengths {
                        prefix_part_lengths_total: saturated(
                            lengths_sum(self.part_lengths()),
                        ) as usize,
                        length_constraint: constraint,
                    })
                },
            },
    {
        let length_constraint = self.length_constraint;
        let tree = self.into_tree();
        match length_constraint {
            Some(constraint) => {
                let total = tree.checked_prefix_part_lengths_total();
                let fits = match (total, constraint.greatest()) {
                    (Some(sum), Some(maximum)) => sum <= maximum,
                    _ => false,
                };
                let prefix_part_lengths_total = match total {
                    Some(sum) => sum,
                    None => usize::MAX,
                };
                if fits {
                    Ok(tree)
                } else {
                    Err(
                        Error::InconsistentPrefixPartLengths {
                            prefix_part_lengths_total,
                            length_constraint: constraint,
                        },
                    )
                }
            },
            None => Ok(tree),
        }
    }

    /// The tree of this configuration, unchecked.
    fn into_tree(self) -> (tree: Tree<S>)
        ensures
            tree.base() == self.base(),
            tree.length_rule() == self.length_rule(),
            tree.extension_rule() == self.extension_rule(),
            tree.part_lengths() == self.part_lengths(),
            tree.scheme() == self.scheme(),
    {
        proof {
            use_type_invariant(&self);
        }
        let prefix_part_lengths = match self.prefix_part_lengths {
            Some(lengths) => lengths,
            None => Vec::new(),
        };
        Tree::assemble(
            self.base,
            self.length_constraint,
            self.extension_constraint,
            prefix_part_lengths,
            self.scheme,
        )
    }

    /// Forbids extensions.
    pub fn with_no_extension(self) -> (builder: Self)
        ensures
            self.same_place(&builder),
            builder.length_rule() == self.length_rule(),
            builder.extension_rule() == Some(ExtensionRule::Forbidden),
    {
        proof {
            use_type_invariant(&self);
        }
        TreeBuilder {
            base: self.base,
            length_constraint: self.length_constraint,
            extension_constraint: Some(Extension::Forbidden),
            prefix_part_lengths: self.prefix_part_lengths,
            scheme: self.scheme,
        }
    }

    /// Requires exactly this extension.
    pub fn with_extension(self, extension: &str) -> (builder: Self)
        ensures
            self.same_place(&builder),
            builder.length_rule() == self.length_rule(),
            builder.extension_rule() == Some(ExtensionRule::Fixed(encode_utf8(extension@))),
    {
        proof {
            use_type_invariant(&self);
        }
        TreeBuilder {
            base: self.base,
            length_constraint: self.length_constraint,
            extension_constraint: Some(Extension::Fixed(String::from_str(extension))),
            prefix_part_lengths: self.prefix_part_lengths,
            scheme: self.scheme,
        }
    }

    /// Requires an extension, whatever it is.
    pub fn with_any_extension(self) -> (builder: Self)
        ensures
            self.same_place(&builder),
            builder.length_rule() == self.length_rule(),
            builder.extension_rule() == Some(ExtensionRule::Any),
    {
        proof {
            use_type_invariant(&self);
        }
        TreeBuilder {
            base: self.base,
            length_constraint: self.length_constraint,
            extension_constraint: Some(Extension::Any),
            prefix_part_lengths: self.prefix_part_lengths,
            scheme: self.scheme,
        }
    }

    /// Requires file stems of exactly this length.
    pub fn with_length(self, length: usize) -> (builder: Self)
        ensures
            self.same_place(&builder),
            builder.length_rule() == Some(Length::Fixed(length)),
            builder.extension_rule() == self.extension_rule(),
    {
        proof {
            use_type_invariant(&self);
        }
        TreeBuilder {
            base: self.base,
            length_constraint: Some(Length::from(length)),
            extension_constraint: self.extension_constraint,
            prefix_part_lengths: self.prefix_part_lengths,
            scheme: self.scheme,
        }
    }

    /// Requires file stems whose length lies in the range.
    pub fn with_length_range(self, range: Range<usize>) -> (builder: Self)
        ensures
            self.same_place(&builder),
            builder.length_rule() == Some(Length::Range(range.start, range.end)),
            builder.extension_rule() == self.extension_rule(),
    {
        proof {
            use_type_invariant(&self);
        }
        TreeBuilder {
            base: self.base,
            length_constraint: Some(Length::from(range)),
            extension_constraint: self.extension_constraint,
            prefix_part_lengths: self.prefix_part_lengths,
            scheme: self.scheme,
        }
    }

    /// Sets the lengths of the directory names, outermost level first.
    pub fn with_prefix_part_lengths(self, prefix_part_lengths: &[usize]) -> (builder: Self)
        ensures
            builder.base() == self.base(),
            builder.scheme() == self.scheme(),
            builder.length_rule() == self.length_rule(),
            builder.extension_rule() == self.extension_rule(),
            builder.part_lengths() == prefix_part_lengths@,
    {
        proof {
            use_type_invariant(&self);
        }
        TreeBuilder {
            base: self.base,
            length_constraint: self.length_constraint,
            extension_constraint: self.extension_constraint,
            prefix_part_lengths: Some(slice_to_vec(prefix_part_lengths)),
            scheme: self.scheme,
        }
    }

    /// Sets the scheme. A scheme of fixed length replaces the length
    /// constraint by that length; another scheme leaves it as it is.
    pub fn with_scheme<T: Scheme>(self, scheme: T) -> (builder: TreeBuilder<T>)
        requires
            scheme.well_formed(),
        ensures
            builder.base() == self.base(),
            builder.part_lengths() == self.part_lengths(),
            builder.extension_rule() == self.extension_rule(),
            builder.scheme() == scheme,
            builder.length_rule() == (match T::encoded_length() {
                Some(length) => Some(Length::Fixed(length)),
                None => self.length_rule(),
            }),
    {
        let length_constraint = match T::fixed_length() {
            Some(fixed_length) => Some(Length::from(fixed_length)),
            None => self.length_constraint,
        };
        TreeBuilder {
            base: self.base,
            length_constraint,
            extension_constraint: self.extension_constraint,
            prefix_part_lengths: self.prefix_part_lengths,
            scheme,
        }
    }
}

} // verus!
