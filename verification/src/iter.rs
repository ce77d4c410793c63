//! The traversal of a tree: depth first, one frame of pending paths for each
//! level, down to the files, which are checked and read as entries.
//!
//! The traversal itself touches no file system. It says which path it needs
//! to know about next, and is told what was found there. What is found
//! wanting is reported for that path alone: the traversal goes on with the
//! paths that are still to come.

use crate::constraint::{extension_admitted, stem_length_admitted, Extension, ExtensionRule, Length};
use crate::path::{is_normal_name, name_is_normal, PathView, TreePath};
use crate::scheme::Scheme;
use crate::sorting::{arrange, arranged, lemma_arranged_is_permutation, names_view};
use crate::{Entry, Tree};
use vstd::prelude::*;
use vstd::slice::slice_to_vec;

verus! {

/// Why a path in the tree yields no entry.
#[derive(Debug)]
pub enum Error {
    /// The file system failed.
    Io(std::io::Error),
    /// The directory at the path has not the name length of its level.
    InvalidPrefixPart(TreePath),
    /// The path has no file stem.
    InvalidFileStem(TreePath),
    /// A file was expected at the path.
    ExpectedFile(TreePath),
    /// A directory was expected at the path.
    ExpectedDirectory(TreePath),
    /// The file has this extension, or none, against the constraint.
    InvalidExtension(Option<Vec<u8>>),
    /// The file stem has this length, or the file no stem, against the
    /// constraint.
    InvalidFileStemLength(Option<usize>),
    /// The scheme does not read the file stem as a name.
    Scheme(crate::scheme::Error),
}

/// An error as a value.
pub enum ErrorView {
    Io(std::io::Error),
    InvalidPrefixPart(PathView),
    InvalidFileStem(PathView),
    ExpectedFile(PathView),
    ExpectedDirectory(PathView),
    InvalidExtension(Option<Seq<u8>>),
    InvalidFileStemLength(Option<usize>),
    Scheme(crate::scheme::Error),
}

impl View for Error {
    type V = ErrorView;

    open spec fn view(&self) -> ErrorView {
        match self {
            Error::Io(error) => ErrorView::Io(*error),
            Error::InvalidPrefixPart(path) => ErrorView::InvalidPrefixPart(path@),
            Error::InvalidFileStem(path) => ErrorView::InvalidFileStem(path@),
            Error::ExpectedFile(path) => ErrorView::ExpectedFile(path@),
            Error::ExpectedDirectory(path) => ErrorView::ExpectedDirectory(path@),
            Error::InvalidExtension(Some(extension)) => ErrorView::InvalidExtension(
                Some(extension@),
            ),
            Error::InvalidExtension(None) => ErrorView::InvalidExtension(None),
            Error::InvalidFileStemLength(length) => ErrorView::InvalidFileStemLength(*length),
            Error::Scheme(error) => ErrorView::Scheme(*error),
        }
    }
}

/// What was found where a directory was expected.
#[derive(Debug)]
pub enum Listing {
    /// There is no directory at the path.
    NotDirectory,
    /// The directory could not be read.
    Failed(std::io::Error),
    /// The names of the entries of the directory, in any order.
    Names(Vec<Vec<u8>>),
}

/// A listing as a value.
pub enum ListingView {
    NotDirectory,
    Failed(std::io::Error),
    Names(Seq<Seq<u8>>),
}

impl View for Listing {
    type V = ListingView;

    open spec fn view(&self) -> ListingView {
        match self {
            Listing::NotDirectory => ListingView::NotDirectory,
            Listing::Failed(error) => ListingView::Failed(*error),
            Listing::Names(names) => ListingView::Names(names_view(names@)),
        }
    }
}

/// What the traversal needs to know next.
#[derive(Debug)]
pub enum Request {
    /// Nothing: every path has been visited.
    Finished,
    /// Whether there is a regular file at the path, which stands at the
    /// level of the files.
    Entry(TreePath),
    /// The listing of the directory at the path.
    Directory(TreePath),
}

/// A request as a value.
pub enum RequestView {
    Finished,
    Entry(PathView),
    Directory(PathView),
}

impl View for Request {
    type V = RequestView;

    open spec fn view(&self) -> RequestView {
        match self {
            Request::Finished => RequestView::Finished,
            Request::Entry(path) => RequestView::Entry(path@),
            Request::Directory(path) => RequestView::Directory(path@),
        }
    }
}

/// The paths of a frame as values.
pub open spec fn paths_view(paths: Seq<TreePath>) -> Seq<PathView> {
    Seq::new(paths.len(), |i: int| paths[i]@)
}

/// The frames of a stack as values.
pub open spec fn frames_view(stack: Seq<Vec<TreePath>>) -> Seq<Seq<PathView>> {
    Seq::new(stack.len(), |i: int| paths_view(stack[i]@))
}

/// The level one further down; the first level from above the tree.
pub open spec fn raised(level: Option<usize>) -> Option<usize> {
    match level {
        None => Some(0),
        Some(level) => if level < usize::MAX {
            Some((level + 1) as usize)
        } else {
            Some(level)
        },
    }
}

/// The level one further up, but not above the first.
pub open spec fn lowered(level: Option<usize>) -> Option<usize> {
    match level {
        None => None,
        Some(level) => if level > 0 {
            Some((level - 1) as usize)
        } else {
            Some(level)
        },
    }
}

/// Where a traversal stands: its frames, innermost last, and its level.
pub struct Position {
    pub frames: Seq<Seq<PathView>>,
    pub level: Option<usize>,
}

/// One step of a traversal of a tree with `depth` directory levels:
/// exhausted frames are dropped, each lowering the level, and the last path
/// of the innermost frame that has one is taken. At the level of the files
/// it is an entry to be read; elsewhere it is a directory to be listed. The
/// level stays that of the innermost frame; it is raised when the listing
/// is taken in.
pub open spec fn advanced(position: Position, depth: nat) -> (Position, RequestView)
    decreases position.frames.len(),
{
    let frames = position.frames;
    if frames.len() == 0 {
        (position, RequestView::Finished)
    } else if frames.last().len() == 0 {
        advanced(Position { frames: frames.drop_last(), level: lowered(position.level) }, depth)
    } else {
        let path = frames.last().last();
        let rest = frames.drop_last().push(frames.last().drop_last());
        if position.level == Some(depth as usize) {
            (Position { frames: rest, level: position.level }, RequestView::Entry(path))
        } else {
            (Position { frames: rest, level: position.level }, RequestView::Directory(path))
        }
    }
}

/// The first name, from index `from` on, that is no proper name or has not
/// the expected length.
pub open spec fn first_misfit_from(names: Seq<Seq<u8>>, expected: int, from: int) -> Option<
    Seq<u8>,
>
    decreases names.len() - from,
{
    if from < 0 || from >= names.len() {
        None
    } else if !is_normal_name(names[from]) || names[from].len() != expected {
        Some(names[from])
    } else {
        first_misfit_from(names, expected, from + 1)
    }
}

/// The paths of the entries called `names` in the directory at `path`.
pub open spec fn children(path: PathView, names: Seq<Seq<u8>>) -> Seq<PathView> {
    Seq::new(names.len(), |i: int| path.child(names[i]))
}

/// The length that the names in a directory must have, where the directory
/// stands at `level`: that of the level, if the tree has it.
pub open spec fn expected_length(level: Option<usize>, lengths: Seq<usize>) -> Option<usize> {
    match level {
        Some(level) => if level < lengths.len() {
            Some(lengths[level as int])
        } else {
            None
        },
        None => None,
    }
}

/// What the listing of a directory found at `level` adds to the traversal:
/// the paths of the entries, arranged for the visit, or the reason why the
/// directory is not entered. The entries stand one level further down, and
/// are held to the name length of that level. Names of the wrong length are
/// found after arranging, the first of them in that order being reported.
pub open spec fn listed<S: Scheme>(
    scheme: S,
    lengths: Seq<usize>,
    level: Option<usize>,
    path: PathView,
    listing: ListingView,
) -> Result<Seq<PathView>, ErrorView> {
    match listing {
        ListingView::NotDirectory => Err(ErrorView::ExpectedDirectory(path)),
        ListingView::Failed(error) => Err(ErrorView::Io(error)),
        ListingView::Names(names) => {
            let ordered = arranged(scheme, names);
            match expected_length(raised(level), lengths) {
                Some(length) => match first_misfit_from(ordered, length as int, 0) {
                    Some(name) => Err(ErrorView::InvalidPrefixPart(path.child(name))),
                    None => Ok(children(path, ordered)),
                },
                None => Ok(children(path, ordered)),
            }
        },
    }
}

/// The length of a stem, if there is one.
pub open spec fn length_of(stem: Option<Seq<u8>>) -> Option<int> {
    match stem {
        Some(stem) => Some(stem.len() as int),
        None => None,
    }
}

/// What a path at the level of the files is read as: the name that the
/// scheme reads from its stem, or the first of these that fails, in this
/// order: it is a regular file, its extension meets the constraint, the
/// length of its stem meets the constraint, it has a stem, and the scheme
/// reads the stem.
pub open spec fn entry_name<S: Scheme>(
    scheme: S,
    length_rule: Option<Length>,
    extension_rule: Option<ExtensionRule>,
    path: PathView,
    is_file: bool,
) -> Result<<S::Name as View>::V, ErrorView> {
    if !is_file {
        Err(ErrorView::ExpectedFile(path))
    } else if !extension_admitted(extension_rule, path.extension()) {
        Err(ErrorView::InvalidExtension(path.extension()))
    } else if !stem_length_admitted(length_rule, length_of(path.stem())) {
        Err(
            ErrorView::InvalidFileStemLength(
                match path.stem() {
                    Some(stem) => Some(stem.len() as usize),
                    None => None,
                },
            ),
        )
    } else {
        match path.stem() {
            None => Err(ErrorView::InvalidFileStem(path)),
            Some(stem) => match scheme.decoded(stem) {
                Ok(name) => Ok(name),
                Err(error) => Err(ErrorView::Scheme(error)),
            },
        }
    }
}

/// Tells whether two byte strings are the same.
pub fn same_bytes(a: &[u8], b: &[u8]) -> (r: bool)
    ensures
        r == (a@ == b@),
{
    if a.len() != b.len() {
        return false;
    }
    let mut i: usize = 0;
    while i < a.len()
        invariant
            i <= a@.len(),
            a@.len() == b@.len(),
            forall|j: int| 0 <= j < i ==> a@[j] == b@[j],
        decreases a@.len() - i,
    {
        if a[i] != b[i] {
            return false;
        }
        i += 1;
    }
    assert(a@ =~= b@);
    true
}

/// A traversal of a tree.
#[derive(Debug)]
pub struct Entries<'a, S: Scheme> {
    stack: Vec<Vec<TreePath>>,
    level: Option<usize>,
    tree: &'a Tree<S>,
}

impl<'a, S: Scheme> Entries<'a, S> {
    /// The frames of pending paths, innermost last.
    pub closed spec fn frames(&self) -> Seq<Seq<PathView>> {
        frames_view(self.stack@)
    }

    /// The level of the paths of the innermost frame; none before the base
    /// directory has been entered.
    pub closed spec fn level(&self) -> Option<usize> {
        self.level
    }

    /// The tree.
    pub closed spec fn tree(&self) -> Tree<S> {
        *self.tree
    }

    /// Where the traversal stands.
    pub open spec fn position(&self) -> Position {
        Position { frames: self.frames(), level: self.level() }
    }

    /// A traversal that has the base directory of the tree before it.
    pub fn new(tree: &'a Tree<S>) -> (entries: Self)
        ensures
            entries.tree() == *tree,
            entries.level() is None,
            entries.frames() == seq![seq![PathView { base: tree.base(), parts: Seq::empty() }]],
    {
        let mut frame: Vec<TreePath> = Vec::new();
        frame.push(tree.base_path());
        let mut stack: Vec<Vec<TreePath>> = Vec::new();
        stack.push(frame);
        let entries = Entries { stack, level: None, tree };
        assert(paths_view(frame@) =~= seq![PathView { base: tree.base(), parts: Seq::empty() }]);
        assert(entries.frames() =~= seq![
            seq![PathView { base: tree.base(), parts: Seq::empty() }],
        ]);
        entries
    }

    /// Whether the traversal stands at the level of the files.
    pub fn is_last(&self) -> (r: bool)
        ensures
            r == (self.level() == Some(self.tree().part_lengths().len() as usize)),
    {
        match self.level {
            Some(level) => level == self.tree.levels(),
            None => false,
        }
    }

    /// The length that directory names have at the level of the traversal.
    pub fn current_prefix_part_length(&self) -> (r: Option<usize>)
        ensures
            r == expected_length(self.level(), self.tree().part_lengths()),
    {
        match self.level {
            Some(level) => self.tree.part_length(level),
            None => None,
        }
    }

    /// The length that directory names have one level further down.
    pub fn next_prefix_part_length(&self) -> (r: Option<usize>)
        ensures
            r == expected_length(raised(self.level()), self.tree().part_lengths()),
    {
        match self.level {
            Some(level) => self.tree.part_length(level.saturating_add(1)),
            None => self.tree.part_length(0),
        }
    }

    /// Goes one level down.
    pub fn increment_level(&mut self)
        ensures
            final(self).level() == raised(old(self).level()),
            final(self).frames() == old(self).frames(),
            final(self).tree() == old(self).tree(),
    {
        self.level = match self.level {
            None => Some(0),
            Some(level) => Some(level.saturating_add(1)),
        };
    }

    /// Goes one level up, but not above the first.
    pub fn decrement_level(&mut self)
        ensures
            final(self).level() == lowered(old(self).level()),
            final(self).frames() == old(self).frames(),
            final(self).tree() == old(self).tree(),
    {
        self.level = match self.level {
            None => None,
            Some(level) => Some(level.saturating_sub(1)),
        };
    }

    /// Tests the extension of the file at `path` against the constraint, and
    /// reports the extension found where it fails.
    pub fn validate_extension(&self, path: &TreePath) -> (r: Result<(), Option<Vec<u8>>>)
        ensures
            match r {
                Ok(_) => extension_admitted(self.tree().extension_rule(), path@.extension()),
                Err(found) => {
                    &&& !extension_admitted(self.tree().extension_rule(), path@.extension())
                    &&& match found {
                        Some(extension) => path@.extension() == Some(extension@),
                        None => path@.extension() is None,
                    }
                },
            },
    {
        let found = path.extension();
        match self.tree.extension_constraint() {
            None => Ok(()),
            Some(Extension::Forbidden) => match found {
                None => Ok(()),
                Some(extension) => Err(Some(slice_to_vec(extension))),
            },
            Some(Extension::Any) => match found {
                None => Err(None),
                Some(_) => Ok(()),
            },
            Some(Extension::Fixed(expected)) => match found {
                None => Err(None),
                Some(extension) => {
                    if same_bytes(expected.as_str().as_bytes(), extension) {
                        Ok(())
                    } else {
                        Err(Some(slice_to_vec(extension)))
                    }
                },
            },
        }
    }

    /// Tests the length of the stem of the file at `path` against the
    /// constraint, and reports the length found where it fails.
    pub fn validate_file_stem_length(&self, path: &TreePath) -> (r: Result<(), Option<usize>>)
        ensures
            match r {
                Ok(_) => stem_length_admitted(self.tree().length_rule(), length_of(path@.stem())),
                Err(found) => {
                    &&& !stem_length_admitted(self.tree().length_rule(), length_of(path@.stem()))
                    &&& match found {
                        Some(length) => path@.stem() matches Some(stem) && stem.len() == length,
                        None => path@.stem() is None,
                    }
                },
            },
    {
        match self.tree.length_constraint() {
            None => Ok(()),
            Some(constraint) => match path.file_stem() {
                None => Err(None),
                Some(stem) => {
                    if constraint.accepts(stem.len()) {
                        Ok(())
                    } else {
                        Err(Some(stem.len()))
                    }
                },
            },
        }
    }

    /// Reads the path at the level of the files as an entry, given whether
    /// a regular file is there.
    pub fn path_to_entry(&self, path: TreePath, is_file: bool) -> (r: Result<
        Entry<S::Name>,
        Error,
    >)
        ensures
            match r {
                Ok(entry) => {
                    &&& entry.path@ == path@
                    &&& entry_name(
                        self.tree().scheme(),
                        self.tree().length_rule(),
                        self.tree().extension_rule(),
                        path@,
                        is_file,
                    ) == Ok::<<S::Name as View>::V, ErrorView>(entry.name@)
                },
                Err(error) => entry_name(
                    self.tree().scheme(),
                    self.tree().length_rule(),
                    self.tree().extension_rule(),
                    path@,
                    is_file,
                ) == Err::<<S::Name as View>::V, ErrorView>(error@),
            },
    {
        if !is_file {
            return Err(Error::ExpectedFile(path));
        }
        match self.validate_extension(&path) {
            Ok(_) => {},
            Err(found) => {
                return Err(Error::InvalidExtension(found));
            },
        }
        match self.validate_file_stem_length(&path) {
            Ok(_) => {},
            Err(found) => {
                return Err(Error::InvalidFileStemLength(found));
            },
        }
        let read = match path.file_stem() {
            None => None,
            Some(stem) => Some(self.tree.scheme_in_use().name_from_file_stem(stem)),
        };
        match read {
            None => Err(Error::InvalidFileStem(path)),
            Some(Ok(name)) => Ok(Entry { name, path }),
            Some(Err(error)) => Err(Error::Scheme(error)),
        }
    }
    /// Takes the next step: drops the frames that are exhausted and takes
    /// the next pending path, which is either an entry to be read or a
    /// directory to be listed.
    pub fn advance(&mut self) -> (request: Request)
        ensures
            final(self).tree() == old(self).tree(),
            (final(self).position(), request@) == advanced(
                old(self).position(),
                old(self).tree().part_lengths().len(),
            ),
    {
        let ghost depth = self.tree().part_lengths().len();
        let ghost goal = advanced(self.position(), depth);
        loop
            invariant
                self.tree() == old(self).tree(),
                depth == self.tree().part_lengths().len(),
                advanced(self.position(), depth) == goal,
                goal == advanced(old(self).position(), depth),
            decreases self.stack@.len(),
        {
            let ghost frames = self.frames();
            let ghost before = self.position();
            let mut frame = match self.stack.pop() {
                None => {
                    assert(frames.len() == 0);
                    assert(self.frames() =~= frames);
                    assert(self.position() == before);
                    return Request::Finished;
                },
                Some(frame) => frame,
            };
            assert(frames.last() == paths_view(frame@));
            assert(self.frames() =~= frames.drop_last());
            let ghost pending = paths_view(frame@);
            match frame.pop() {
                None => {
                    self.decrement_level();
                },
                Some(path) => {
                    assert(pending.last() == path@);
                    assert(paths_view(frame@) =~= pending.drop_last());
                    self.stack.push(frame);
                    assert(self.frames() =~= frames.drop_last().push(pending.drop_last()));
                    assert(frames.last().len() > 0);
                    if self.is_last() {
                        assert(advanced(before, depth) == (self.position(), RequestView::Entry(path@)));
                        return Request::Entry(path);
                    } else {
                        assert(advanced(before, depth) == (
                            self.position(),
                            RequestView::Directory(path@),
                        ));
                        return Request::Directory(path);
                    }
                },
            }
        }
    }

    /// Takes in the listing of the directory at `path`, which `advance` asked
    /// for. Its entries are arranged and, where their level has a name
    /// length, held to it; they become the innermost frame, and the level is
    /// raised to theirs. Where the directory is not entered, the traversal
    /// stands as it stood: the level is that of the innermost frame, and the
    /// siblings of `path` are still to come.
    pub fn path_to_paths(&mut self, path: TreePath, listing: Listing) -> (r: Result<(), Error>)
        ensures
            final(self).tree() == old(self).tree(),
            match r {
                Ok(_) => {
                    &&& listed(
                        old(self).tree().scheme(),
                        old(self).tree().part_lengths(),
                        old(self).level(),
                        path@,
                        listing@,
                    ) matches Ok(paths)
                    &&& final(self).frames() == old(self).frames().push(paths)
                    &&& final(self).level() == raised(old(self).level())
                },
                Err(error) => {
                    &&& listed(
                        old(self).tree().scheme(),
                        old(self).tree().part_lengths(),
                        old(self).level(),
                        path@,
                        listing@,
                    ) == Err::<Seq<PathView>, ErrorView>(error@)
                    &&& final(self).frames() == old(self).frames()
                    &&& final(self).level() == old(self).level()
                },
            },
    {
        let ghost frames = self.frames();
        let ghost given = listing@;
        let names = match listing {
            Listing::NotDirectory => {
                return Err(Error::ExpectedDirectory(path));
            },
            Listing::Failed(error) => {
                return Err(Error::Io(error));
            },
            Listing::Names(names) => names,
        };
        let scheme = self.tree.scheme_in_use();
        let ordered = arrange(scheme, &names);
        let ghost ordered_names = names_view(ordered@);
        let expected = self.next_prefix_part_length();
        assert(given == ListingView::Names(names_view(names@)));
        let mut frame: Vec<TreePath> = Vec::new();
        let mut i: usize = 0;
        while i < ordered.len()
            invariant
                i <= ordered@.len(),
                ordered_names == names_view(ordered@),
                ordered_names == arranged(old(self).tree().scheme(), names_view(names@)),
                given == ListingView::Names(names_view(names@)),
                given == listing@,
                expected == expected_length(
                    raised(old(self).level()),
                    old(self).tree().part_lengths(),
                ),
                frame@.len() == i,
                forall|j: int| 0 <= j < i ==> frame@[j]@ == path@.child(ordered_names[j]),
                expected matches Some(length) ==> first_misfit_from(
                    ordered_names,
                    length as int,
                    i as int,
                ) == first_misfit_from(ordered_names, length as int, 0),
                self.frames() == frames,
                frames == old(self).frames(),
                self.tree() == old(self).tree(),
                self.level() == old(self).level(),
            decreases ordered@.len() - i,
        {
            let name = ordered[i].as_slice();
            assert(name@ == ordered_names[i as int]);
            let child = path.child(name);
            assert(child@ == path@.child(ordered_names[i as int]));
            match expected {
                Some(length) => {
                    if !name_is_normal(name) || name.len() != length {
                        return Err(Error::InvalidPrefixPart(child));
                    }
                },
                None => {},
            }
            frame.push(child);
            i += 1;
        }
        assert(paths_view(frame@) =~= children(path@, ordered_names));
        self.stack.push(frame);
        assert(self.frames() =~= frames.push(children(path@, ordered_names)));
        self.increment_level();
        Ok(())
    }
}

/// Where no name from `from` on is a misfit, every name from there on is a
/// proper name of the expected length.
proof fn lemma_no_misfit(names: Seq<Seq<u8>>, expected: int, from: int)
    requires
        0 <= from,
        first_misfit_from(names, expected, from) is None,
    ensures
        forall|i: int|
            from <= i < names.len() ==> is_normal_name(#[trigger] names[i]) && names[i].len()
                == expected,
    decreases names.len() - from,
{
    if from < names.len() {
        lemma_no_misfit(names, expected, from + 1);
    }
}

/// The frame that a listing adds holds the entries of the directory, each
/// once for each time the listing names it, in the arranged order; and
/// where their level has a name length, each is a proper name of that
/// length.
pub proof fn lemma_frame_holds_the_listing<S: Scheme>(
    scheme: S,
    lengths: Seq<usize>,
    level: Option<usize>,
    path: PathView,
    names: Seq<Seq<u8>>,
)
    requires
        listed(scheme, lengths, level, path, ListingView::Names(names)) is Ok,
    ensures
        listed(scheme, lengths, level, path, ListingView::Names(names)) == Ok::<
            Seq<PathView>,
            ErrorView,
        >(children(path, arranged(scheme, names))),
        arranged(scheme, names).to_multiset() == names.to_multiset(),
        arranged(scheme, names).len() == names.len(),
        expected_length(raised(level), lengths) matches Some(length) ==> forall|i: int|
            0 <= i < names.len() ==> is_normal_name(#[trigger] arranged(scheme, names)[i])
                && arranged(scheme, names)[i].len() == length,
{
    lemma_arranged_is_permutation(scheme, names);
    match expected_length(raised(level), lengths) {
        Some(length) => {
            lemma_no_misfit(arranged(scheme, names), length as int, 0);
        },
        None => {},
    }
}

} // verus!
