//! Paths below a tree's base directory, as the sequence of their component
//! names, and the parts of a file name.

use vstd::prelude::*;
use vstd::slice::{slice_subrange, slice_to_vec};

verus! {

/// A path: the base directory, then the names of the components below it,
/// outermost first. The base and each component are held as raw bytes.
#[derive(Clone, Debug, PartialEq, Eq, PartialOrd, Ord)]
pub struct TreePath {
    pub base: Vec<u8>,
    pub components: Vec<Vec<u8>>,
}

/// A path as a value: the bytes of the base directory and the names of the
/// components below it.
pub struct PathView {
    pub base: Seq<u8>,
    pub parts: Seq<Seq<u8>>,
}

impl PathView {
    /// The path of the entry called `name` in the directory at this path.
    pub open spec fn child(self, name: Seq<u8>) -> PathView {
        PathView { base: self.base, parts: self.parts.push(name) }
    }

    /// The name of the last component, where it is the name of a file or
    /// directory proper.
    pub open spec fn leaf(self) -> Option<Seq<u8>> {
        if self.parts.len() > 0 && is_normal_name(self.parts.last()) {
            Some(self.parts.last())
        } else {
            None
        }
    }

    /// The stem of the file name, where the path has a file name.
    pub open spec fn stem(self) -> Option<Seq<u8>> {
        match self.leaf() {
            Some(name) => Some(stem_of(name)),
            None => None,
        }
    }

    /// The extension of the file name, where the path has a file name and
    /// the name an extension.
    pub open spec fn extension(self) -> Option<Seq<u8>> {
        match self.leaf() {
            Some(name) => extension_of(name),
            None => None,
        }
    }
}

impl View for TreePath {
    type V = PathView;

    open spec fn view(&self) -> PathView {
        PathView { base: self.base@, parts: self.parts() }
    }
}

/// The byte of the dot that separates a file stem from its extension.
pub const DOT: u8 = 46;

/// Whether `name` is the name of a file or directory proper: not empty and
/// neither `.` nor `..`.
pub open spec fn is_normal_name(name: Seq<u8>) -> bool {
    name.len() != 0 && name != seq![DOT] && name != seq![DOT, DOT]
}

/// Whether `name` has a dot at `index` and none after it.
pub open spec fn is_last_dot(name: Seq<u8>, index: int) -> bool {
    &&& 0 <= index < name.len()
    &&& name[index] == DOT
    &&& forall|j: int| index < j < name.len() ==> name[j] != DOT
}

/// Whether `name` splits into a stem and an extension: it has a dot that
/// is not its first byte.
pub open spec fn has_extension(name: Seq<u8>) -> bool {
    exists|index: int| 0 < index && is_last_dot(name, index)
}

/// The index of the last dot of a name that has an extension.
pub open spec fn split_point(name: Seq<u8>) -> int {
    choose|index: int| 0 < index && is_last_dot(name, index)
}

/// The stem of a file name: what comes before its last dot, or the whole
/// name where it has no dot but perhaps a leading one.
pub open spec fn stem_of(name: Seq<u8>) -> Seq<u8> {
    if has_extension(name) {
        name.subrange(0, split_point(name))
    } else {
        name
    }
}

/// The extension of a file name: what comes after its last dot, if it has
/// a dot that is not its first byte.
pub open spec fn extension_of(name: Seq<u8>) -> Option<Seq<u8>> {
    if has_extension(name) {
        Some(name.subrange(split_point(name) + 1, name.len() as int))
    } else {
        None
    }
}

/// A name has at most one last dot.
pub proof fn lemma_last_dot_is_unique(name: Seq<u8>, a: int, b: int)
    requires
        is_last_dot(name, a),
        is_last_dot(name, b),
    ensures
        a == b,
{
}

/// Finds the last dot of a name, if it is not the first byte.
pub fn find_split_point(name: &[u8]) -> (r: Option<usize>)
    ensures
        r is Some <==> has_extension(name@),
        r matches Some(index) ==> index == split_point(name@) && 0 < index < name@.len(),
{
    let mut i: usize = name.len();
    while i > 0
        invariant
            i <= name@.len(),
            forall|j: int| i <= j < name@.len() ==> name@[j] != DOT,
        decreases i,
    {
        i -= 1;
        if name[i] == DOT {
            assert(is_last_dot(name@, i as int));
            if i > 0 {
                let ghost chosen = split_point(name@);
                proof {
                    lemma_last_dot_is_unique(name@, i as int, chosen);
                }
                return Some(i);
            } else {
                assert forall|index: int| 0 < index implies !is_last_dot(name@, index) by {
                    if is_last_dot(name@, index) {
                        lemma_last_dot_is_unique(name@, 0, index);
                    }
                }
                return None;
            }
        }
    }
    None
}

/// Tells whether `name` is the name of a file or directory proper.
pub fn name_is_normal(name: &[u8]) -> (r: bool)
    ensures
        r == is_normal_name(name@),
{
    let length = name.len();
    if length == 0 {
        false
    } else if length == 1 && name[0] == DOT {
        assert(name@ =~= seq![DOT]);
        false
    } else if length == 2 && name[0] == DOT && name[1] == DOT {
        assert(name@ =~= seq![DOT, DOT]);
        false
    } else {
        assert(name@ != seq![DOT]) by {
            if name@ == seq![DOT] {
                assert(seq![DOT].len() == 1);
                assert(seq![DOT][0] == DOT);
            }
        }
        assert(name@ != seq![DOT, DOT]) by {
            if name@ == seq![DOT, DOT] {
                assert(seq![DOT, DOT].len() == 2);
                assert(seq![DOT, DOT][0] == DOT);
                assert(seq![DOT, DOT][1] == DOT);
            }
        }
        true
    }
}

impl TreePath {
    /// The names of the components, each as a sequence of bytes.
    pub open spec fn parts(&self) -> Seq<Seq<u8>> {
        Seq::new(self.components@.len(), |i: int| self.components@[i]@)
    }

    /// The name of the last component, where it is the name of a file or
    /// directory proper.
    pub open spec fn leaf(&self) -> Option<Seq<u8>> {
        self@.leaf()
    }

    /// The path of the base directory itself.
    pub fn new(base: Vec<u8>) -> (r: TreePath)
        ensures
            r.base@ == base@,
            r.parts() == Seq::<Seq<u8>>::empty(),
    {
        let r = TreePath { base, components: Vec::new() };
        assert(r.parts() =~= Seq::<Seq<u8>>::empty());
        r
    }

    /// A copy of the path.
    pub fn duplicate(&self) -> (r: TreePath)
        ensures
            r.base@ == self.base@,
            r.parts() == self.parts(),
    {
        let mut components: Vec<Vec<u8>> = Vec::new();
        let mut i: usize = 0;
        while i < self.components.len()
            invariant
                i <= self.components@.len(),
                components@.len() == i,
                forall|j: int| 0 <= j < i ==> components@[j]@ == self.components@[j]@,
            decreases self.components@.len() - i,
        {
            components.push(slice_to_vec(self.components[i].as_slice()));
            i += 1;
        }
        let r = TreePath { base: slice_to_vec(self.base.as_slice()), components };
        assert(r.parts() =~= self.parts());
        r
    }

    /// The path of the entry called `name` in the directory at this path.
    pub fn child(&self, name: &[u8]) -> (r: TreePath)
        ensures
            r.base@ == self.base@,
            r.parts() == self.parts().push(name@),
    {
        let mut r = self.duplicate();
        r.components.push(slice_to_vec(name));
        assert(r.parts() =~= self.parts().push(name@));
        r
    }

    /// The name of the last component, where it is the name of a file or
    /// directory proper.
    pub fn file_name(&self) -> (r: Option<&[u8]>)
        ensures
            match r {
                Some(name) => self.leaf() == Some(name@),
                None => self.leaf() is None,
            },
    {
        let count = self.components.len();
        if count == 0 {
            return None;
        }
        let name = self.components[count - 1].as_slice();
        if name_is_normal(name) {
            Some(name)
        } else {
            None
        }
    }

    /// The stem of the file name, where the path has a file name.
    pub fn file_stem(&self) -> (r: Option<&[u8]>)
        ensures
            match r {
                Some(stem) => self@.stem() == Some(stem@),
                None => self@.stem() is None,
            },
    {
        match self.file_name() {
            None => None,
            Some(name) => match find_split_point(name) {
                None => Some(name),
                Some(index) => Some(slice_subrange(name, 0, index)),
            },
        }
    }

    /// The extension of the file name, where the path has a file name and
    /// the name an extension.
    pub fn extension(&self) -> (r: Option<&[u8]>)
        ensures
            match r {
                Some(extension) => self@.extension() == Some(extension@),
                None => self@.extension() is None,
            },
    {
        match self.file_name() {
            None => None,
            Some(name) => match find_split_point(name) {
                None => None,
                Some(index) => {
                    let length = name.len();
                    Some(slice_subrange(name, index + 1, length))
                },
            },
        }
    }
}

} // verus!
