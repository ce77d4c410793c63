//! A sharded directory tree: logical names are mapped to paths whose leading
//! directories are fixed-length slices of the encoded name.

pub mod access;
pub mod builder;
pub mod constraint;
pub mod iter;
pub mod path;
pub mod scheme;
pub mod sorting;
pub mod text;

use crate::builder::TreeBuilder;
use crate::constraint::{Extension, ExtensionRule, Length};
use crate::path::{PathView, TreePath, DOT};
use crate::scheme::{report_text, Identity, Scheme};
use crate::text::utf8_lossy_text;
use vstd::prelude::*;
use vstd::slice::{slice_subrange, slice_to_vec};
use vstd::utf8::{encode_utf8, valid_utf8};

verus! {

#[verifier::external_type_specification]
#[verifier::external_body]
pub struct ExIoError(std::io::Error);

/// Why a name has no file, or a directory no tree.
#[derive(Debug)]
pub enum Error {
    /// The file system failed.
    Io(std::io::Error),
    /// A file was expected at the path.
    ExpectedFile(TreePath),
    /// A directory was expected at the path.
    ExpectedDirectory(TreePath),
    /// The directory at the path has no name.
    InvalidDirectory(TreePath),
    /// The encoded name is too short to be cut into directory names.
    InvalidName(String),
}

/// An error as a value.
pub enum ErrorView {
    Io(std::io::Error),
    ExpectedFile(PathView),
    ExpectedDirectory(PathView),
    InvalidDirectory(PathView),
    InvalidName(Seq<char>),
}

impl View for Error {
    type V = ErrorView;

    open spec fn view(&self) -> ErrorView {
        match self {
            Error::Io(error) => ErrorView::Io(*error),
            Error::ExpectedFile(path) => ErrorView::ExpectedFile(path@),
            Error::ExpectedDirectory(path) => ErrorView::ExpectedDirectory(path@),
            Error::InvalidDirectory(path) => ErrorView::InvalidDirectory(path@),
            Error::InvalidName(text) => ErrorView::InvalidName(text@),
        }
    }
}

/// A name with the path at which it was found.
#[derive(Clone, Debug, PartialEq, Eq, PartialOrd, Ord)]
pub struct Entry<N> {
    pub name: N,
    pub path: TreePath,
}

/// Whether `text` is the report of an encoded name: the text that the bytes
/// are the UTF-8 of, and their lossy reading where they are not UTF-8.
pub open spec fn reports(text: Seq<char>, encoded: Seq<u8>) -> bool {
    &&& text == utf8_lossy_text(encoded)
    &&& valid_utf8(encoded) ==> encode_utf8(text) == encoded
}

/// The sum of the lengths.
pub open spec fn lengths_sum(lengths: Seq<usize>) -> int
    decreases lengths.len(),
{
    if lengths.len() == 0 {
        0
    } else {
        lengths_sum(lengths.drop_last()) + lengths.last()
    }
}

/// Where the directory name of level `level` begins in an encoded name.
pub open spec fn part_start(lengths: Seq<usize>, level: int) -> int {
    lengths_sum(lengths.take(level))
}

/// Whether an encoded name is long enough to be cut into directory names of
/// the given lengths. An empty name never is.
pub open spec fn shardable(encoded: Seq<u8>, lengths: Seq<usize>) -> bool {
    encoded.len() >= lengths_sum(lengths) && encoded.len() >= 1
}

/// The directory names that an encoded name is cut into: consecutive slices
/// of the given lengths, from its front.
pub open spec fn directory_names(encoded: Seq<u8>, lengths: Seq<usize>) -> Seq<Seq<u8>> {
    Seq::new(
        lengths.len(),
        |level: int|
            encoded.subrange(part_start(lengths, level), part_start(lengths, level) + lengths[level]),
    )
}

/// The name of the file that stands for an encoded name: the encoded name
/// itself, followed by a dot and the fixed extension where one is set and
/// not empty.
pub open spec fn file_name_for(encoded: Seq<u8>, rule: Option<ExtensionRule>) -> Seq<u8> {
    match rule {
        Some(ExtensionRule::Fixed(extension)) => if extension.len() > 0 {
            encoded + seq![DOT] + extension
        } else {
            encoded
        },
        _ => encoded,
    }
}

/// A sum of lengths is not negative.
pub proof fn lemma_lengths_sum_nonnegative(lengths: Seq<usize>)
    ensures
        lengths_sum(lengths) >= 0,
    decreases lengths.len(),
{
    if lengths.len() > 0 {
        lemma_lengths_sum_nonnegative(lengths.drop_last());
    }
}

/// The sum of a front part of the lengths is at most the sum of all.
pub proof fn lemma_lengths_sum_grows(lengths: Seq<usize>, level: int)
    requires
        0 <= level <= lengths.len(),
    ensures
        lengths_sum(lengths.take(level)) <= lengths_sum(lengths),
    decreases lengths.len() - level,
{
    if level == lengths.len() {
        assert(lengths.take(level) =~= lengths);
    } else {
        lemma_lengths_sum_grows(lengths, level + 1);
        assert(lengths.take(level + 1).drop_last() =~= lengths.take(level));
    }
}

/// The sum of the first `level + 1` lengths is the sum of the first `level`
/// and the next one.
pub proof fn lemma_lengths_sum_step(lengths: Seq<usize>, level: int)
    requires
        0 <= level < lengths.len(),
    ensures
        lengths_sum(lengths.take(level + 1)) == lengths_sum(lengths.take(level)) + lengths[level],
{
    assert(lengths.take(level + 1).drop_last() =~= lengths.take(level));
}

/// A tree: a base directory, the constraints on its files, the lengths of
/// the directory names of each level, and the scheme of its names.
#[derive(Debug, PartialEq, Eq)]
pub struct Tree<S: Scheme> {
    base: Vec<u8>,
    length_constraint: Option<Length>,
    extension_constraint: Option<Extension>,
    prefix_part_lengths: Vec<usize>,
    scheme: S,
}

impl<S: Scheme> Tree<S> {
    #[verifier::type_invariant]
    spec fn valid(self) -> bool {
        self.scheme.well_formed()
    }

    /// The base directory.
    pub closed spec fn base(&self) -> Seq<u8> {
        self.base@
    }

    /// The constraint on the length of file stems, if any.
    pub closed spec fn length_rule(&self) -> Option<Length> {
        self.length_constraint
    }

    /// The constraint on extensions, if any.
    pub closed spec fn extension_rule(&self) -> Option<ExtensionRule> {
        match self.extension_constraint {
            Some(extension) => Some(extension@),
            None => None,
        }
    }

    /// The lengths of the directory names, outermost level first.
    pub closed spec fn part_lengths(&self) -> Seq<usize> {
        self.prefix_part_lengths@
    }

    /// The scheme of the names.
    pub closed spec fn scheme(&self) -> S {
        self.scheme
    }

    /// Puts a tree together from its parts.
    pub(crate) fn assemble(
        base: Vec<u8>,
        length_constraint: Option<Length>,
        extension_constraint: Option<Extension>,
        prefix_part_lengths: Vec<usize>,
        scheme: S,
    ) -> (tree: Tree<S>)
        requires
            scheme.well_formed(),
        ensures
            tree.base() == base@,
            tree.length_rule() == length_constraint,
            tree.extension_rule() == (match extension_constraint {
                Some(extension) => Some(extension@),
                None => None,
            }),
            tree.part_lengths() == prefix_part_lengths@,
            tree.scheme() == scheme,
    {
        Tree { base, length_constraint, extension_constraint, prefix_part_lengths, scheme }
    }

    /// The path of the base directory.
    pub fn base_path(&self) -> (path: TreePath)
        ensures
            path@.base == self.base(),
            path@.parts == Seq::<Seq<u8>>::empty(),
    {
        TreePath::new(slice_to_vec(self.base.as_slice()))
    }

    /// The number of directory levels.
    pub fn levels(&self) -> (count: usize)
        ensures
            count == self.part_lengths().len(),
    {
        self.prefix_part_lengths.len()
    }

    /// The length of the directory names of a level, if the tree has that
    /// level.
    pub fn part_length(&self, level: usize) -> (length: Option<usize>)
        ensures
            length == (if level < self.part_lengths().len() {
                Some(self.part_lengths()[level as int])
            } else {
                None
            }),
    {
        if level < self.prefix_part_lengths.len() {
            Some(self.prefix_part_lengths[level])
        } else {
            None
        }
    }

    /// The constraint on the length of file stems, if any.
    pub fn length_constraint(&self) -> (constraint: Option<Length>)
        ensures
            constraint == self.length_rule(),
    {
        self.length_constraint
    }

    /// The constraint on extensions, if any.
    pub fn extension_constraint(&self) -> (constraint: &Option<Extension>)
        ensures
            self.extension_rule() == (match *constraint {
                Some(extension) => Some(extension@),
                None => None,
            }),
    {
        &self.extension_constraint
    }

    /// The scheme of the names, which is set up as it must be.
    pub fn scheme_in_use(&self) -> (scheme: &S)
        ensures
            *scheme == self.scheme(),
            scheme.well_formed(),
    {
        proof {
            use_type_invariant(self);
        }
        &self.scheme
    }

    /// The sum of the lengths of the directory names, where it is a number
    /// that the machine can hold.
    pub fn checked_prefix_part_lengths_total(&self) -> (total: Option<usize>)
        ensures
            match total {
                Some(sum) => sum == lengths_sum(self.part_lengths()),
                None => lengths_sum(self.part_lengths()) > usize::MAX,
            },
    {
        let mut total: usize = 0;
        let mut level: usize = 0;
        while level < self.prefix_part_lengths.len()
            invariant
                level <= self.prefix_part_lengths@.len(),
                total == part_start(self.prefix_part_lengths@, level as int),
            decreases self.prefix_part_lengths@.len() - level,
        {
            proof {
                lemma_lengths_sum_step(self.prefix_part_lengths@, level as int);
                lemma_lengths_sum_grows(self.prefix_part_lengths@, level + 1);
            }
            match total.checked_add(self.prefix_part_lengths[level]) {
                Some(sum) => {
                    total = sum;
                },
                None => {
                    return None;
                },
            }
            level += 1;
        }
        assert(self.prefix_part_lengths@.take(level as int) =~= self.prefix_part_lengths@);
        Some(total)
    }

    /// The sum of the lengths of the directory names, or the largest number
    /// where the sum exceeds it.
    pub fn prefix_part_lengths_total(&self) -> (total: usize)
        ensures
            total == (if lengths_sum(self.part_lengths()) <= usize::MAX {
                lengths_sum(self.part_lengths())
            } else {
                usize::MAX as int
            }),
    {
        match self.checked_prefix_part_lengths_total() {
            Some(sum) => sum,
            None => usize::MAX,
        }
    }

    /// The path of the file for `name`, without regard to any extension:
    /// below the base directory one directory for each level, named by
    /// consecutive slices of the encoded name, then the encoded name itself.
    /// Fails where the encoded name is too short to be cut, with the encoded
    /// name as text for the report.
    pub fn name_path(&self, name: &S::Name) -> (r: Result<TreePath, String>)
        ensures
            match r {
                Ok(path) => {
                    &&& shardable(self.scheme().encoded(name@), self.part_lengths())
                    &&& path.base@ == self.base()
                    &&& path.parts() == directory_names(
                        self.scheme().encoded(name@),
                        self.part_lengths(),
                    ).push(self.scheme().encoded(name@))
                },
                Err(text) => {
                    &&& !shardable(self.scheme().encoded(name@), self.part_lengths())
                    &&& reports(text@, self.scheme().encoded(name@))
                },
            },
    {
        proof {
            use_type_invariant(self);
        }
        let encoded = self.scheme.name_to_bytes(name);
        let length = encoded.len();
        let ghost lengths = self.prefix_part_lengths@;
        let mut components: Vec<Vec<u8>> = Vec::new();
        let mut start: usize = 0;
        let mut level: usize = 0;
        while level < self.prefix_part_lengths.len()
            invariant
                level <= lengths.len(),
                lengths == self.prefix_part_lengths@,
                length == encoded@.len(),
                encoded@ == self.scheme().encoded(name@),
                start <= length,
                start == part_start(lengths, level as int),
                components@.len() == level,
                forall|i: int|
                    0 <= i < level ==> components@[i]@ == directory_names(encoded@, lengths)[i],
            decreases lengths.len() - level,
        {
            let part_length = self.prefix_part_lengths[level];
            proof {
                lemma_lengths_sum_step(lengths, level as int);
                lemma_lengths_sum_grows(lengths, level + 1);
            }
            if part_length > length - start {
                return Err(report_text(encoded.as_slice()));
            }
            let part = slice_subrange(encoded.as_slice(), start, start + part_length);
            components.push(slice_to_vec(part));
            start = start + part_length;
            level += 1;
        }
        assert(lengths.take(level as int) =~= lengths);
        if length == 0 {
            return Err(report_text(encoded.as_slice()));
        }
        components.push(encoded);
        let path = TreePath { base: slice_to_vec(self.base.as_slice()), components };
        assert(path.parts() =~= directory_names(encoded@, lengths).push(encoded@));
        Ok(path)
    }

    /// A traversal of the entries of the tree.
    pub fn entries(&self) -> (entries: iter::Entries<'_, S>)
        ensures
            entries.tree() == *self,
            entries.level() is None,
            entries.frames() == seq![seq![PathView { base: self.base(), parts: Seq::empty() }]],
    {
        iter::Entries::new(self)
    }

    /// The path of the file for `name`: that of `name_path`, with a fixed
    /// extension, where one is set, appended to the file name.
    pub fn path(&self, name: &S::Name) -> (r: Result<TreePath, String>)
        ensures
            match r {
                Ok(path) => {
                    &&& shardable(self.scheme().encoded(name@), self.part_lengths())
                    &&& path.base@ == self.base()
                    &&& path.parts() == directory_names(
                        self.scheme().encoded(name@),
                        self.part_lengths(),
                    ).push(file_name_for(self.scheme().encoded(name@), self.extension_rule()))
                },
                Err(text) => {
                    &&& !shardable(self.scheme().encoded(name@), self.part_lengths())
                    &&& reports(text@, self.scheme().encoded(name@))
                },
            },
    {
        let mut path = match self.name_path(name) {
            Ok(path) => path,
            Err(text) => {
                return Err(text);
            },
        };
        let ghost before = path.parts();
        match &self.extension_constraint {
            Some(Extension::Fixed(extension)) => {
                let suffix = extension.as_str().as_bytes();
                if suffix.len() > 0 {
                    let mut file_name = match path.components.pop() {
                        Some(file_name) => file_name,
                        None => Vec::new(),
                    };
                    file_name.push(DOT);
                    let mut i: usize = 0;
                    while i < suffix.len()
                        invariant
                            i <= suffix@.len(),
                            file_name@ == before.last() + seq![DOT] + suffix@.take(i as int),
                        decreases suffix@.len() - i,
                    {
                        file_name.push(suffix[i]);
                        assert(suffix@.take(i + 1) =~= suffix@.take(i as int).push(suffix@[i as int]));
                        i += 1;
                    }
                    assert(suffix@.take(i as int) =~= suffix@);
                    path.components.push(file_name);
                    assert(path.parts() =~= before.drop_last().push(
                        before.last() + seq![DOT] + suffix@,
                    ));
                }
            },
            _ => {},
        }
        assert(before.drop_last() =~= directory_names(
            self.scheme().encoded(name@),
            self.part_lengths(),
        ));
        Ok(path)
    }
}

impl Tree<Identity> {
    /// A builder for a tree at `base`, the raw bytes of the path of its
    /// base directory.
    pub fn builder(base: &[u8]) -> (builder: TreeBuilder<Identity>)
        ensures
            builder.base() == base@,
            builder.length_rule() is None,
            builder.extension_rule() is None,
            builder.part_lengths() == Seq::<usize>::empty(),
            builder.scheme() == Identity,
    {
        TreeBuilder::new(slice_to_vec(base))
    }
}

} // verus!
