//! What the outcome of a file operation means for the tree, and the
//! inference of a tree's directory levels from what is found on a descent.
//!
//! Nothing here touches a file system: the caller performs the operation and
//! hands in what came of it.

use crate::path::{is_normal_name, PathView, TreePath};
use crate::scheme::Scheme;
use crate::{directory_names, shardable, Error, ErrorView, Tree};
use vstd::prelude::*;

verus! {

/// What came of opening a file for reading.
pub enum Opened<F> {
    /// The handle of what was opened.
    Handle(F),
    /// There is nothing at the path.
    NotFound,
    /// The file system failed otherwise.
    Failed(std::io::Error),
}

/// What came of creating a file that must not exist yet, and locking it.
pub enum Created<F> {
    /// The handle of the new file, locked.
    Handle(F),
    /// There is something at the path already.
    AlreadyExists,
    /// The file system failed otherwise.
    Failed(std::io::Error),
}

/// What opening the file at `path` gives its caller: the handle of a
/// regular file; nothing, and no error, where nothing is there; an error
/// where something else than a regular file was opened, or where the file
/// system failed.
pub fn opened_file<F>(path: TreePath, opened: Opened<F>, is_file: bool) -> (r: Result<
    Option<F>,
    Error,
>)
    ensures
        match opened {
            Opened::Handle(handle) => if is_file {
                r == Ok::<Option<F>, Error>(Some(handle))
            } else {
                r matches Err(error) && error@ == ErrorView::ExpectedFile(path@)
            },
            Opened::NotFound => r == Ok::<Option<F>, Error>(None),
            Opened::Failed(failure) => r matches Err(error) && error@ == ErrorView::Io(failure),
        },
{
    match opened {
        Opened::Handle(handle) => {
            if is_file {
                Ok(Some(handle))
            } else {
                Err(Error::ExpectedFile(path))
            }
        },
        Opened::NotFound => Ok(None),
        Opened::Failed(failure) => Err(Error::Io(failure)),
    }
}

/// What creating a file gives its caller: the handle of the new file;
/// nothing, and no error, where the file exists already; an error where the
/// file system failed.
pub fn created_file<F>(created: Created<F>) -> (r: Result<Option<F>, Error>)
    ensures
        match created {
            Created::Handle(handle) => r == Ok::<Option<F>, Error>(Some(handle)),
            Created::AlreadyExists => r == Ok::<Option<F>, Error>(None),
            Created::Failed(failure) => r matches Err(error) && error@ == ErrorView::Io(failure),
        },
{
    match created {
        Created::Handle(handle) => Ok(Some(handle)),
        Created::AlreadyExists => Ok(None),
        Created::Failed(failure) => Err(Error::Io(failure)),
    }
}

impl<S: Scheme> Tree<S> {
    /// The path of the file for `name`, for a file operation: as `path`
    /// gives it, with the error that a name too short has.
    pub fn file_path(&self, name: &S::Name) -> (r: Result<TreePath, Error>)
        ensures
            match r {
                Ok(path) => {
                    &&& shardable(self.scheme().encoded(name@), self.part_lengths())
                    &&& path@.base == self.base()
                    &&& path@.parts == directory_names(
                        self.scheme().encoded(name@),
                        self.part_lengths(),
                    ).push(
                        crate::file_name_for(self.scheme().encoded(name@), self.extension_rule()),
                    )
                },
                Err(error) => {
                    &&& !shardable(self.scheme().encoded(name@), self.part_lengths())
                    &&& error@ matches ErrorView::InvalidName(text)
                    &&& crate::reports(text, self.scheme().encoded(name@))
                },
            },
    {
        match self.path(name) {
            Ok(path) => Ok(path),
            Err(text) => Err(Error::InvalidName(text)),
        }
    }
}

/// The lengths of the names.
pub open spec fn name_lengths(names: Seq<Seq<u8>>) -> Seq<usize> {
    Seq::new(names.len(), |i: int| names[i].len() as usize)
}

/// What a descent into a tree has found of its directory levels: the
/// lengths of the names of the directories entered so far.
#[derive(Debug)]
pub struct Inference {
    lengths: Vec<usize>,
}

impl Inference {
    /// The lengths of the names of the directories entered, outermost first.
    pub closed spec fn lengths(&self) -> Seq<usize> {
        self.lengths@
    }

    /// Begins a descent at `base`, which must be a directory.
    pub fn begin(base: TreePath, is_directory: bool) -> (r: Result<Inference, Error>)
        ensures
            match r {
                Ok(inference) => is_directory && inference.lengths() == Seq::<usize>::empty(),
                Err(error) => !is_directory && error@ == ErrorView::ExpectedDirectory(base@),
            },
    {
        if is_directory {
            Ok(Inference::new())
        } else {
            Err(Error::ExpectedDirectory(base))
        }
    }

    /// A descent that has entered no directory yet.
    pub fn new() -> (r: Inference)
        ensures
            r.lengths() == Seq::<usize>::empty(),
    {
        Inference { lengths: Vec::new() }
    }

    /// Takes in the first entry of the directory entered last, found at
    /// `path`. A regular file ends the descent: nothing is recorded and the
    /// result is `false`. Anything else is entered as a directory: the
    /// length of its name is recorded and the result is `true`, or the
    /// descent fails where the path has no name.
    pub fn enter(&mut self, path: TreePath, is_file: bool) -> (r: Result<bool, Error>)
        ensures
            match r {
                Ok(entered) => {
                    &&& entered == !is_file
                    &&& is_file ==> final(self).lengths() == old(self).lengths()
                    &&& !is_file ==> (path@.leaf() matches Some(name) && final(self).lengths()
                        == old(self).lengths().push(name.len() as usize))
                },
                Err(error) => {
                    &&& !is_file
                    &&& path@.leaf() is None
                    &&& error@ == ErrorView::InvalidDirectory(path@)
                    &&& final(self).lengths() == old(self).lengths()
                },
            },
    {
        if is_file {
            return Ok(false);
        }
        let length = match path.file_name() {
            Some(name) => Some(name.len()),
            None => None,
        };
        match length {
            Some(length) => {
                self.lengths.push(length);
                Ok(true)
            },
            None => Err(Error::InvalidDirectory(path)),
        }
    }

    /// The directory levels inferred at the end of the descent: the lengths
    /// recorded where the descent ended at a file, and nothing where it
    /// ended in an empty directory, for then the tree holds no file to tell.
    pub fn finish(self, found_file: bool) -> (r: Option<Vec<usize>>)
        ensures
            match r {
                Some(lengths) => found_file && lengths@ == self.lengths(),
                None => !found_file,
            },
    {
        if found_file {
            Some(self.lengths)
        } else {
            None
        }
    }
}

/// What a descent has found: a path, and whether a regular file is there.
#[derive(Debug)]
pub struct Found {
    pub path: TreePath,
    pub is_file: bool,
}

/// What was found as a value.
pub struct FoundView {
    pub path: PathView,
    pub is_file: bool,
}

impl View for Found {
    type V = FoundView;

    open spec fn view(&self) -> FoundView {
        FoundView { path: self.path@, is_file: self.is_file }
    }
}

/// What was found on a descent, each as a value.
pub open spec fn found_view(found: Seq<Found>) -> Seq<FoundView> {
    Seq::new(found.len(), |i: int| found[i]@)
}

/// The outcome of a whole descent that has recorded `lengths` so far and
/// goes on to find `found`, the first entry of each directory in turn. The
/// first regular file ends it with the lengths recorded; every entry before
/// is entered as a directory, whose name length is recorded and which must
/// have a name. A descent that finds no file ends in an empty directory,
/// and infers nothing.
pub open spec fn descent(found: Seq<FoundView>, lengths: Seq<usize>) -> Result<
    Option<Seq<usize>>,
    ErrorView,
>
    decreases found.len(),
{
    if found.len() == 0 {
        Ok(None)
    } else if found[0].is_file {
        Ok(Some(lengths))
    } else {
        match found[0].path.leaf() {
            None => Err(ErrorView::InvalidDirectory(found[0].path)),
            Some(name) => descent(found.drop_first(), lengths.push(name.len() as usize)),
        }
    }
}

/// What a descent finds in a tree that holds one file, laid out below the
/// directories called `names`: each of the directories in turn, and then
/// the file.
pub open spec fn laid_out(base: Seq<u8>, names: Seq<Seq<u8>>, file_name: Seq<u8>) -> Seq<
    FoundView,
> {
    Seq::new(
        names.len() + 1,
        |i: int|
            if i < names.len() {
                FoundView { path: PathView { base, parts: names.take(i + 1) }, is_file: false }
            } else {
                FoundView { path: PathView { base, parts: names.push(file_name) }, is_file: true }
            },
    )
}

/// Infers the directory levels from a whole descent: `found` holds the
/// first entry of the base directory, then the first entry of that entry,
/// and so on, as far as the descent went.
pub fn infer_along(found: Vec<Found>) -> (r: Result<Option<Vec<usize>>, Error>)
    ensures
        match r {
            Ok(Some(lengths)) => descent(found_view(found@), Seq::empty()) == Ok::<
                Option<Seq<usize>>,
                ErrorView,
            >(Some(lengths@)),
            Ok(None) => descent(found_view(found@), Seq::empty()) == Ok::<
                Option<Seq<usize>>,
                ErrorView,
            >(None),
            Err(error) => descent(found_view(found@), Seq::empty()) == Err::<
                Option<Seq<usize>>,
                ErrorView,
            >(error@),
        },
{
    let ghost all = found_view(found@);
    let mut inference = Inference::new();
    let mut i: usize = 0;
    assert(all.skip(0) =~= all);
    while i < found.len()
        invariant
            i <= found@.len(),
            all == found_view(found@),
            descent(all.skip(i as int), inference.lengths()) == descent(all, Seq::empty()),
        decreases found@.len() - i,
    {
        let ghost rest = all.skip(i as int);
        assert(rest[0] == found@[i as int]@);
        assert(rest.drop_first() =~= all.skip(i + 1));
        let is_file = found[i].is_file;
        match inference.enter(found[i].path.duplicate(), is_file) {
            Ok(true) => {},
            Ok(false) => {
                return Ok(inference.finish(true));
            },
            Err(error) => {
                return Err(error);
            },
        }
        i += 1;
    }
    assert(all.skip(i as int).len() == 0);
    Ok(inference.finish(false))
}

/// Infers the directory levels of the tree at `base`: fails where `base` is
/// no directory, and otherwise infers from the whole descent, of which
/// `found` holds the first entry of `base`, then the first entry of that
/// entry, and so on, as far as the descent went.
pub fn inferred(base: TreePath, is_directory: bool, found: Vec<Found>) -> (r: Result<
    Option<Vec<usize>>,
    Error,
>)
    ensures
        !is_directory ==> (r matches Err(error) && error@ == ErrorView::ExpectedDirectory(base@)),
        is_directory ==> match r {
            Ok(Some(lengths)) => descent(found_view(found@), Seq::empty()) == Ok::<
                Option<Seq<usize>>,
                ErrorView,
            >(Some(lengths@)),
            Ok(None) => descent(found_view(found@), Seq::empty()) == Ok::<
                Option<Seq<usize>>,
                ErrorView,
            >(None),
            Err(error) => descent(found_view(found@), Seq::empty()) == Err::<
                Option<Seq<usize>>,
                ErrorView,
            >(error@),
        },
{
    if is_directory {
        infer_along(found)
    } else {
        Err(Error::ExpectedDirectory(base))
    }
}

/// A descent through laid-out directories records the length of each name.
proof fn lemma_descent_records_lengths(
    base: Seq<u8>,
    names: Seq<Seq<u8>>,
    file_name: Seq<u8>,
    from: int,
    lengths: Seq<usize>,
)
    requires
        0 <= from <= names.len(),
        forall|i: int| 0 <= i < names.len() ==> is_normal_name(#[trigger] names[i]),
    ensures
        descent(laid_out(base, names, file_name).skip(from), lengths) == Ok::<
            Option<Seq<usize>>,
            ErrorView,
        >(Some(lengths + name_lengths(names.skip(from)))),
    decreases names.len() - from,
{
    let found = laid_out(base, names, file_name).skip(from);
    if from == names.len() {
        assert(found[0].is_file);
        assert(lengths + name_lengths(names.skip(from)) =~= lengths);
    } else {
        let name = names[from];
        assert(found[0].path.parts =~= names.take(from + 1));
        assert(found[0].path.parts.last() == name);
        assert(found[0].path.leaf() == Some(name));
        assert(found.drop_first() =~= laid_out(base, names, file_name).skip(from + 1));
        lemma_descent_records_lengths(
            base,
            names,
            file_name,
            from + 1,
            lengths.push(name.len() as usize),
        );
        assert(lengths.push(name.len() as usize) + name_lengths(names.skip(from + 1)) =~= lengths
            + name_lengths(names.skip(from)));
    }
}

/// The directories that a tree lays out for a name have the lengths of its
/// levels.
pub proof fn lemma_inference_round_trip(encoded: Seq<u8>, lengths: Seq<usize>)
    requires
        shardable(encoded, lengths),
    ensures
        name_lengths(directory_names(encoded, lengths)) == lengths,
{
    assert forall|level: int| 0 <= level < lengths.len() implies directory_names(
        encoded,
        lengths,
    )[level].len() == lengths[level] by {
        crate::lemma_lengths_sum_step(lengths, level);
        crate::lemma_lengths_sum_grows(lengths, level + 1);
        crate::lemma_lengths_sum_grows(lengths, level);
        assert(crate::lengths_sum(lengths.take(level)) >= 0) by {
            crate::lemma_lengths_sum_nonnegative(lengths.take(level));
        }
    }
    assert(name_lengths(directory_names(encoded, lengths)) =~= lengths);
}

/// Inference gives back the levels that a tree was built with: where a
/// descent finds, below the base directory, the directories that the tree
/// lays out for a name and then the file of the name, it infers the lengths
/// of the tree's levels. The directory names must be names of directories
/// proper: a level of length zero, or a name cut into `.` or `..`, leaves
/// no directory behind to be found.
pub proof fn lemma_inference_gives_back_the_levels(
    base: Seq<u8>,
    encoded: Seq<u8>,
    lengths: Seq<usize>,
    file_name: Seq<u8>,
)
    requires
        shardable(encoded, lengths),
        forall|level: int|
            0 <= level < lengths.len() ==> is_normal_name(
                #[trigger] directory_names(encoded, lengths)[level],
            ),
    ensures
        descent(laid_out(base, directory_names(encoded, lengths), file_name), Seq::empty()) == Ok::<
            Option<Seq<usize>>,
            ErrorView,
        >(Some(lengths)),
        descent(Seq::empty(), Seq::empty()) == Ok::<Option<Seq<usize>>, ErrorView>(None),
{
    let names = directory_names(encoded, lengths);
    lemma_descent_records_lengths(base, names, file_name, 0, Seq::empty());
    lemma_inference_round_trip(encoded, lengths);
    assert(laid_out(base, names, file_name).skip(0) =~= laid_out(base, names, file_name));
    assert(names.skip(0) =~= names);
    assert(Seq::<usize>::empty() + name_lengths(names) =~= name_lengths(names));
}

} // verus!
