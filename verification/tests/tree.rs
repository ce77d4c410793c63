//! The tree at work on a file system held in memory: names are saved and
//! opened, the entries are traversed, and the directory levels are inferred.

use sharded_tree::access::{
    created_file, infer_along, inferred, opened_file, Created, Found, Inference, Opened,
};
use sharded_tree::builder;
use sharded_tree::iter::{Error as IterError, Listing, Request};
use sharded_tree::path::TreePath;
use sharded_tree::scheme::encoding::Base32;
use sharded_tree::scheme::hex::Hex;
use sharded_tree::scheme::{Case, Scheme, Utf8};
use sharded_tree::{Entry, Error, Tree};
use std::collections::BTreeMap;

/// A file system below one base directory: each path, as its component
/// names, with the content of a file or nothing for a directory.
struct Disk {
    nodes: BTreeMap<Vec<Vec<u8>>, Option<Vec<u8>>>,
}

impl Disk {
    fn new() -> Disk {
        let mut nodes = BTreeMap::new();
        nodes.insert(Vec::new(), None);
        Disk { nodes }
    }

    fn is_file(&self, path: &TreePath) -> bool {
        matches!(self.nodes.get(&path.components), Some(Some(_)))
    }

    fn is_dir(&self, path: &TreePath) -> bool {
        matches!(self.nodes.get(&path.components), Some(None))
    }

    fn holds(&self, path: &TreePath) -> bool {
        self.nodes.contains_key(&path.components)
    }

    /// The names in a directory, last name first, so that nothing comes out
    /// in order by chance.
    fn names(&self, path: &TreePath) -> Vec<Vec<u8>> {
        let depth = path.components.len();
        let mut names: Vec<Vec<u8>> = self
            .nodes
            .keys()
            .filter(|key| key.len() == depth + 1 && key[..depth] == path.components[..])
            .map(|key| key[depth].clone())
            .collect();
        names.reverse();
        names
    }

    fn list(&self, path: &TreePath) -> Listing {
        if self.is_dir(path) {
            Listing::Names(self.names(path))
        } else {
            Listing::NotDirectory
        }
    }

    fn first_child(&self, path: &TreePath) -> Option<TreePath> {
        self.names(path).last().map(|name| path.child(name))
    }

    fn make_dir_all(&mut self, components: &[Vec<u8>]) {
        for depth in 0..=components.len() {
            self.nodes.entry(components[..depth].to_vec()).or_insert(None);
        }
    }

    fn create_new(&mut self, path: &TreePath, content: &[u8]) -> Created<()> {
        let depth = path.components.len();
        self.make_dir_all(&path.components[..depth - 1]);
        if self.nodes.contains_key(&path.components) {
            Created::AlreadyExists
        } else {
            self.nodes.insert(path.components.clone(), Some(content.to_vec()));
            Created::Handle(())
        }
    }

    fn open(&self, path: &TreePath) -> Opened<Vec<u8>> {
        match self.nodes.get(&path.components) {
            None => Opened::NotFound,
            Some(None) => Opened::Handle(Vec::new()),
            Some(Some(content)) => Opened::Handle(content.clone()),
        }
    }
}

fn create_file<S: Scheme>(
    tree: &Tree<S>,
    disk: &mut Disk,
    name: &S::Name,
    content: &[u8],
) -> Result<Option<()>, Error> {
    let path = tree.file_path(name)?;
    created_file(disk.create_new(&path, content))
}

fn open_file<S: Scheme>(tree: &Tree<S>, disk: &Disk, name: &S::Name) -> Result<Option<Vec<u8>>, Error> {
    let path = tree.file_path(name)?;
    let opened = disk.open(&path);
    let is_file = disk.is_file(&path);
    opened_file(path, opened, is_file)
}

fn entries<S: Scheme>(tree: &Tree<S>, disk: &Disk) -> Vec<Result<Entry<S::Name>, IterError>> {
    let mut traversal = tree.entries();
    let mut found = Vec::new();
    loop {
        match traversal.advance() {
            Request::Finished => return found,
            Request::Entry(path) => {
                let is_file = disk.is_file(&path);
                found.push(traversal.path_to_entry(path, is_file));
            }
            Request::Directory(path) => {
                let listing = disk.list(&path);
                if let Err(error) = traversal.path_to_paths(path, listing) {
                    found.push(Err(error));
                }
            }
        }
    }
}

fn all_entries<S: Scheme>(tree: &Tree<S>, disk: &Disk) -> Result<Vec<Entry<S::Name>>, IterError> {
    entries(tree, disk).into_iter().collect()
}

fn infer_prefix_part_lengths(disk: &Disk, base: TreePath) -> Result<Option<Vec<usize>>, Error> {
    let mut inference = Inference::begin(base.clone(), disk.is_dir(&base))?;
    let mut current = disk.first_child(&base);
    loop {
        match current {
            None => return Ok(inference.finish(false)),
            Some(path) => {
                let is_file = disk.is_file(&path);
                if !inference.enter(path.clone(), is_file)? {
                    return Ok(inference.finish(true));
                }
                current = disk.first_child(&path);
            }
        }
    }
}

fn shown(path: &TreePath) -> String {
    let mut text = String::from_utf8_lossy(&path.base).into_owned();
    for component in &path.components {
        text.push('/');
        text.push_str(&String::from_utf8_lossy(component));
    }
    text
}

fn base() -> TreePath {
    TreePath::new(b"/base".to_vec())
}

#[test]
fn test_open_file_nonexistent() {
    let disk = Disk::new();
    let tree = Tree::builder(b"/base").with_scheme(Utf8).build().unwrap();

    let result = open_file(&tree, &disk, &"nonexistent".to_string()).unwrap();
    assert!(
        result.is_none(),
        "Should return `Ok(None)` for nonexistent file"
    );
}

#[test]
fn test_open_file_exists() {
    let mut disk = Disk::new();
    let tree = Tree::builder(b"/base").with_scheme(Utf8).build().unwrap();

    let test_name = "testfile".to_string();
    create_file(&tree, &mut disk, &test_name, b"test content")
        .unwrap()
        .expect("Failed to create file");

    let opened = open_file(&tree, &disk, &test_name).unwrap();
    assert!(
        opened.is_some(),
        "Should return `Ok(Some(file))` for existing file"
    );
    assert_eq!(opened.unwrap(), b"test content".to_vec());
}

#[test]
fn test_open_file_directory_instead_of_file() {
    let mut disk = Disk::new();
    let tree = Tree::builder(b"/base")
        .with_scheme(Utf8)
        .with_prefix_part_lengths(&[2])
        .build()
        .unwrap();

    create_file(&tree, &mut disk, &"abcd".to_string(), b"test")
        .unwrap()
        .expect("Failed to create");

    let dir_name = "zz".to_string();
    let dir_path = tree.path(&dir_name).unwrap();
    disk.make_dir_all(&dir_path.components);

    match open_file(&tree, &disk, &dir_name) {
        Err(Error::ExpectedFile(path)) => assert_eq!(path, dir_path),
        Ok(None) => {}
        Ok(Some(_)) => panic!("Should not return `Ok(Some)` for a directory"),
        other => panic!("Unexpected result: {other:?}"),
    }
}

#[test]
fn test_open_file_symlink_to_directory() {
    let mut disk = Disk::new();
    let tree = Tree::builder(b"/base").with_scheme(Utf8).build().unwrap();

    // The disk follows links: a link to a directory opens as the directory does.
    disk.make_dir_all(&[b"somedir".to_vec()]);
    let link_name = "symlink".to_string();
    disk.make_dir_all(&[link_name.as_bytes().to_vec()]);

    let result = open_file(&tree, &disk, &link_name);

    match result {
        Err(Error::ExpectedFile(_)) | Ok(None) => {}
        other => panic!("Expected Err or Ok(None), got {other:?}"),
    }
}

#[test]
fn test_create_file_idempotent() {
    let mut disk = Disk::new();
    let tree = Tree::builder(b"/base").with_scheme(Utf8).build().unwrap();

    let name = "testfile".to_string();

    let first = create_file(&tree, &mut disk, &name, b"").unwrap();
    assert!(first.is_some(), "First creation should return Some(file)");

    let second = create_file(&tree, &mut disk, &name, b"").unwrap();
    assert!(second.is_none(), "Second creation should return None");
}

#[test]
fn create_file_is_idempotent_at_every_depth() {
    for lengths in [vec![], vec![2, 2], vec![2, 2, 2]] {
        let mut disk = Disk::new();
        let tree = Tree::builder(b"/base")
            .with_scheme(Utf8)
            .with_prefix_part_lengths(&lengths)
            .build()
            .unwrap();
        let name = "abcdefgh".to_string();
        assert_eq!(create_file(&tree, &mut disk, &name, b"x").unwrap(), Some(()));
        assert_eq!(create_file(&tree, &mut disk, &name, b"y").unwrap(), None);
        assert_eq!(open_file(&tree, &disk, &name).unwrap(), Some(b"x".to_vec()));
    }
}

#[test]
fn create_file_reports_a_name_too_short() {
    let mut disk = Disk::new();
    let tree = Tree::builder(b"/base")
        .with_scheme(Utf8)
        .with_prefix_part_lengths(&[2, 2])
        .build()
        .unwrap();
    match create_file(&tree, &mut disk, &"abc".to_string(), b"") {
        Err(Error::InvalidName(name)) => assert_eq!(name, "abc"),
        other => panic!("Unexpected result: {other:?}"),
    }
    match open_file(&tree, &disk, &"abc".to_string()) {
        Err(Error::InvalidName(name)) => assert_eq!(name, "abc"),
        other => panic!("Unexpected result: {other:?}"),
    }
}

#[test]
fn file_system_failures_are_handed_on() {
    let failure = std::io::Error::other("disk on fire");
    match opened_file::<()>(base(), Opened::Failed(failure), false) {
        Err(Error::Io(error)) => assert_eq!(error.to_string(), "disk on fire"),
        other => panic!("Unexpected result: {other:?}"),
    }
    let failure = std::io::Error::other("still burning");
    match created_file::<()>(Created::Failed(failure)) {
        Err(Error::Io(error)) => assert_eq!(error.to_string(), "still burning"),
        other => panic!("Unexpected result: {other:?}"),
    }
}

#[test]
fn test_create_file_with_nested_dirs() {
    let mut disk = Disk::new();
    let tree = Tree::builder(b"/base")
        .with_scheme(Utf8)
        .with_prefix_part_lengths(&[2, 2, 2])
        .build()
        .unwrap();

    let name = "abcdefgh".to_string();
    create_file(&tree, &mut disk, &name, b"nested")
        .unwrap()
        .expect("Failed to create file");

    let path = tree.path(&name).unwrap();
    assert!(disk.holds(&path));
    assert!(disk.is_file(&path));
    assert!(shown(&path).contains("/ab/cd/ef/"));
}

#[test]
fn test_infer_empty_directory() {
    let disk = Disk::new();

    let result = infer_prefix_part_lengths(&disk, base()).unwrap();
    assert_eq!(result, None, "Empty directory should return None");
}

#[test]
fn test_infer_with_files_no_subdirs() {
    let mut disk = Disk::new();
    disk.create_new(&base().child(b"file.txt"), b"");

    let result = infer_prefix_part_lengths(&disk, base()).unwrap();
    assert_eq!(
        result,
        Some(vec![]),
        "File in root should give empty prefix list"
    );
}

#[test]
fn test_infer_with_nested_structure() {
    let mut disk = Disk::new();
    disk.create_new(&base().child(b"ab").child(b"cd").child(b"file.txt"), b"");

    let result = infer_prefix_part_lengths(&disk, base()).unwrap();
    assert_eq!(
        result,
        Some(vec![2, 2]),
        "Should infer `[2, 2]` from `ab/cd/`"
    );
}

#[test]
fn infer_with_directories_but_no_file() {
    let mut disk = Disk::new();
    disk.make_dir_all(&[b"ab".to_vec(), b"cd".to_vec()]);

    assert_eq!(infer_prefix_part_lengths(&disk, base()).unwrap(), None);
}

#[test]
fn test_infer_on_file_instead_of_directory() {
    let mut disk = Disk::new();
    disk.nodes.insert(Vec::new(), Some(Vec::new()));

    let result = infer_prefix_part_lengths(&disk, base());
    assert!(
        result.is_err(),
        "Should return error when given a file path"
    );
    match result {
        Err(Error::ExpectedDirectory(_)) => (),
        other => panic!("Expected `Err(ExpectedDirectory)`, got {other:?}"),
    }
}

#[test]
fn inference_fails_on_a_directory_without_a_name() {
    let mut inference = Inference::new();
    assert_eq!(inference.enter(base().child(b"ab"), false).unwrap(), true);
    match inference.enter(base().child(b"ab").child(b".."), false) {
        Err(Error::InvalidDirectory(path)) => assert_eq!(path, base().child(b"ab").child(b"..")),
        other => panic!("Unexpected result: {other:?}"),
    }
    assert_eq!(inference.finish(true), Some(vec![2]));
}

#[test]
fn inference_along_a_whole_descent() {
    let directory = |path: TreePath| Found { path, is_file: false };
    let file = |path: TreePath| Found { path, is_file: true };
    assert_eq!(infer_along(vec![]).unwrap(), None);
    assert_eq!(infer_along(vec![file(base().child(b"f"))]).unwrap(), Some(vec![]));
    assert_eq!(
        infer_along(vec![
            directory(base().child(b"ab")),
            directory(base().child(b"ab").child(b"cde")),
            file(base().child(b"ab").child(b"cde").child(b"abcdef")),
        ])
        .unwrap(),
        Some(vec![2, 3])
    );
    // What follows the first file is not looked at.
    assert_eq!(
        infer_along(vec![
            directory(base().child(b"ab")),
            file(base().child(b"ab").child(b"abcd")),
            directory(base().child(b"ab").child(b"abcd").child(b"x")),
        ])
        .unwrap(),
        Some(vec![2])
    );
    // A descent that ends in an empty directory tells nothing.
    assert_eq!(
        infer_along(vec![directory(base().child(b"ab")), directory(base().child(b"ab").child(b"c"))])
            .unwrap(),
        None
    );
    match infer_along(vec![directory(base().child(b"ab")), directory(base().child(b"ab").child(b""))]) {
        Err(Error::InvalidDirectory(path)) => assert_eq!(path, base().child(b"ab").child(b"")),
        other => panic!("Unexpected result: {other:?}"),
    }
}

#[test]
fn inference_of_what_is_no_directory() {
    let found = || vec![Found { path: base().child(b"f"), is_file: true }];
    match inferred(base(), false, found()) {
        Err(Error::ExpectedDirectory(path)) => assert_eq!(path, base()),
        other => panic!("Unexpected result: {other:?}"),
    }
    assert_eq!(inferred(base(), true, found()).unwrap(), Some(vec![]));
    assert_eq!(inferred(base(), true, vec![]).unwrap(), None);
    assert!(Inference::begin(base(), true).is_ok());
    match Inference::begin(base(), false) {
        Err(Error::ExpectedDirectory(path)) => assert_eq!(path, base()),
        other => panic!("Unexpected result: {other:?}"),
    }
}

#[test]
fn inference_gives_back_the_levels_of_a_tree() {
    for lengths in [vec![], vec![1], vec![2, 2], vec![3, 1, 2], vec![6]] {
        let mut disk = Disk::new();
        let tree = Tree::builder(b"/base")
            .with_scheme(Utf8)
            .with_prefix_part_lengths(&lengths)
            .build()
            .unwrap();
        create_file(&tree, &mut disk, &"abcdef".to_string(), b"").unwrap();
        assert_eq!(infer_prefix_part_lengths(&disk, base()).unwrap(), Some(lengths));
    }
}

#[test]
fn test_entries_iteration() {
    let mut disk = Disk::new();
    let tree = Tree::builder(b"/base")
        .with_scheme(Utf8)
        .with_prefix_part_lengths(&[1])
        .build()
        .unwrap();

    let names = vec!["aaa", "abc", "bcd", "bbb"];
    for name in &names {
        create_file(&tree, &mut disk, &(*name).to_string(), name.as_bytes())
            .unwrap()
            .expect("create failed");
    }

    let entries = all_entries(&tree, &disk).unwrap();
    assert_eq!(entries.len(), 4, "Should find all four files");

    let entry_names: Vec<String> = entries.iter().map(|e| e.name.clone()).collect();
    for name in &names {
        assert!(
            entry_names.contains(&(*name).to_string()),
            "Should contain {name}"
        );
    }
    assert_eq!(entry_names, vec!["aaa", "abc", "bbb", "bcd"]);
    assert_eq!(entries[0].path, tree.path(&"aaa".to_string()).unwrap());
}

fn fixed_example() -> Disk {
    let mut disk = Disk::new();
    disk.create_new(&base().child(b"01").child(b"23").child(b"45").child(b"01234567.txt"), b"");
    disk.create_new(&base().child(b"98").child(b"76").child(b"54").child(b"98765432.txt"), b"");
    disk
}

fn mixed_example() -> Disk {
    let mut disk = Disk::new();
    disk.create_new(&base().child(b"01").child(b"23").child(b"45").child(b"01234567.txt"), b"");
    disk.create_new(&base().child(b"98").child(b"76").child(b"54").child(b"98765432"), b"");
    disk
}

#[test]
fn test_example_with_fixed_extension() {
    let disk = fixed_example();
    let tree = Tree::builder(b"examples/extensions/fixed-01/")
        .with_scheme(Utf8)
        .with_prefix_part_lengths(&[2, 2, 2])
        .with_length(8)
        .with_extension("txt")
        .build()
        .unwrap();

    let file = open_file(&tree, &disk, &"01234567".to_string()).unwrap();
    assert!(file.is_some());

    let file = open_file(&tree, &disk, &"98765432".to_string()).unwrap();
    assert!(file.is_some());

    let entries = all_entries(&tree, &disk).unwrap();
    assert_eq!(entries.len(), 2, "Should find both files");
}

#[test]
fn test_example_with_mixed_extensions_and_no_constraint() {
    let disk = mixed_example();
    let tree = Tree::builder(b"examples/extensions/mixed-01/")
        .with_scheme(Utf8)
        .with_prefix_part_lengths(&[2, 2, 2])
        .with_length(8)
        .build()
        .unwrap();

    let entries = all_entries(&tree, &disk).unwrap();
    assert_eq!(entries.len(), 2, "Should find both files");
}

#[test]
fn test_example_with_mixed_extensions_and_any_constraint_fails() {
    let disk = mixed_example();
    let tree = Tree::builder(b"examples/extensions/mixed-01/")
        .with_scheme(Utf8)
        .with_prefix_part_lengths(&[2, 2, 2])
        .with_length(8)
        .with_any_extension()
        .build()
        .unwrap();

    let entries = all_entries(&tree, &disk);

    match entries {
        Err(IterError::InvalidExtension(None)) => {}
        Err(error) => {
            panic!("Unexpected error: {error:?}");
        }
        Ok(_) => {
            panic!("Expected error on missing extension");
        }
    }
}

#[test]
fn test_example_with_mixed_extensions_and_fixed_constraint_fails() {
    let disk = mixed_example();
    let tree = Tree::builder(b"examples/extensions/mixed-01/")
        .with_scheme(Utf8)
        .with_prefix_part_lengths(&[2, 2, 2])
        .with_length(8)
        .with_extension("txt")
        .build()
        .unwrap();

    let file = open_file(&tree, &disk, &"01234567".to_string()).unwrap();
    assert!(file.is_some());

    let file = open_file(&tree, &disk, &"98765432".to_string()).unwrap();
    assert!(file.is_none());

    let entries = all_entries(&tree, &disk);

    match entries {
        Err(IterError::InvalidExtension(None)) => {}
        Err(error) => {
            panic!("Unexpected error: {error:?}");
        }
        Ok(_) => {
            panic!("Expected error on missing extension");
        }
    }
}

fn extension_matrix() -> Disk {
    let mut disk = Disk::new();
    disk.create_new(&base().child(b"a.txt"), b"");
    disk.create_new(&base().child(b"b"), b"");
    disk.create_new(&base().child(b"c.jpg"), b"");
    disk
}

fn outcomes(found: Vec<Result<Entry<String>, IterError>>) -> Vec<String> {
    found
        .into_iter()
        .map(|result| match result {
            Ok(entry) => format!("ok {}", entry.name),
            Err(IterError::InvalidExtension(Some(extension))) => {
                format!("extension {}", String::from_utf8_lossy(&extension))
            }
            Err(IterError::InvalidExtension(None)) => "no extension".to_string(),
            Err(other) => format!("{other:?}"),
        })
        .collect()
}

#[test]
fn extension_matrix_without_extensions() {
    let disk = extension_matrix();
    let tree = Tree::builder(b"/base").with_scheme(Utf8).with_no_extension().build().unwrap();
    assert_eq!(outcomes(entries(&tree, &disk)), vec!["extension txt", "ok b", "extension jpg"]);
}

#[test]
fn extension_matrix_with_fixed_extension() {
    let disk = extension_matrix();
    let tree = Tree::builder(b"/base").with_scheme(Utf8).with_extension("txt").build().unwrap();
    assert_eq!(outcomes(entries(&tree, &disk)), vec!["ok a", "no extension", "extension jpg"]);
}

#[test]
fn extension_matrix_with_any_extension() {
    let disk = extension_matrix();
    let tree = Tree::builder(b"/base").with_scheme(Utf8).with_any_extension().build().unwrap();
    assert_eq!(outcomes(entries(&tree, &disk)), vec!["ok a", "no extension", "ok c"]);
}

#[test]
fn extension_matrix_without_constraint() {
    let disk = extension_matrix();
    let tree = Tree::builder(b"/base").with_scheme(Utf8).build().unwrap();
    assert_eq!(outcomes(entries(&tree, &disk)), vec!["ok a", "ok b", "ok c"]);
}

#[test]
fn traversal_reports_stem_lengths_and_goes_on() {
    let mut disk = Disk::new();
    disk.create_new(&base().child(b"abc"), b"");
    disk.create_new(&base().child(b"abcd.txt"), b"");
    disk.create_new(&base().child(b"abcde"), b"");
    let tree = Tree::builder(b"/base").with_scheme(Utf8).with_length(4).build().unwrap();
    let found = entries(&tree, &disk);
    assert_eq!(found.len(), 3);
    assert!(matches!(found[0], Err(IterError::InvalidFileStemLength(Some(3)))));
    assert_eq!(found[1].as_ref().unwrap().name, "abcd");
    assert!(matches!(found[2], Err(IterError::InvalidFileStemLength(Some(5)))));

    let tree = Tree::builder(b"/base").with_scheme(Utf8).with_length_range(3..5).build().unwrap();
    let found = entries(&tree, &disk);
    assert_eq!(found[0].as_ref().unwrap().name, "abc");
    assert_eq!(found[1].as_ref().unwrap().name, "abcd");
    assert!(matches!(found[2], Err(IterError::InvalidFileStemLength(Some(5)))));
}

#[test]
fn traversal_reports_what_is_no_file_or_no_directory() {
    let mut disk = Disk::new();
    disk.make_dir_all(&[b"ab".to_vec(), b"abcd".to_vec()]);
    disk.create_new(&base().child(b"cd"), b"");
    let tree = Tree::builder(b"/base")
        .with_scheme(Utf8)
        .with_prefix_part_lengths(&[2])
        .build()
        .unwrap();
    let found = entries(&tree, &disk);
    assert_eq!(found.len(), 2);
    match &found[0] {
        Err(IterError::ExpectedFile(path)) => assert_eq!(shown(path), "/base/ab/abcd"),
        other => panic!("Unexpected result: {other:?}"),
    }
    match &found[1] {
        Err(IterError::ExpectedDirectory(path)) => assert_eq!(shown(path), "/base/cd"),
        other => panic!("Unexpected result: {other:?}"),
    }
}

#[test]
fn traversal_goes_on_with_the_siblings_of_what_is_no_directory() {
    let mut disk = Disk::new();
    disk.create_new(&base().child(b"a").child(b"x"), b"");
    disk.create_new(&base().child(b"a").child(b"y").child(b"ay1"), b"");
    disk.create_new(&base().child(b"b").child(b"z").child(b"bz1"), b"");
    let tree = Tree::builder(b"/base")
        .with_scheme(Utf8)
        .with_prefix_part_lengths(&[1, 1])
        .build()
        .unwrap();
    let found = entries(&tree, &disk);
    assert_eq!(found.len(), 3);
    match &found[0] {
        Err(IterError::ExpectedDirectory(path)) => assert_eq!(shown(path), "/base/a/x"),
        other => panic!("Unexpected result: {other:?}"),
    }
    assert_eq!(found[1].as_ref().unwrap().name, "ay1");
    assert_eq!(shown(&found[1].as_ref().unwrap().path), "/base/a/y/ay1");
    assert_eq!(found[2].as_ref().unwrap().name, "bz1");
}

#[test]
fn traversal_goes_on_after_a_directory_with_a_name_of_the_wrong_length() {
    let mut disk = Disk::new();
    disk.create_new(&base().child(b"a").child(b"xx").child(b"axx1"), b"");
    disk.create_new(&base().child(b"b").child(b"z").child(b"bz1"), b"");
    let tree = Tree::builder(b"/base")
        .with_scheme(Utf8)
        .with_prefix_part_lengths(&[1, 1])
        .build()
        .unwrap();
    let found = entries(&tree, &disk);
    assert_eq!(found.len(), 2);
    match &found[0] {
        Err(IterError::InvalidPrefixPart(path)) => assert_eq!(shown(path), "/base/a/xx"),
        other => panic!("Unexpected result: {other:?}"),
    }
    assert_eq!(found[1].as_ref().unwrap().name, "bz1");
}

#[test]
fn traversal_keeps_the_level_of_its_innermost_frame() {
    let mut disk = Disk::new();
    disk.create_new(&base().child(b"ab").child(b"abcd"), b"");
    let tree = Tree::builder(b"/base")
        .with_scheme(Utf8)
        .with_prefix_part_lengths(&[2])
        .build()
        .unwrap();
    let mut traversal = tree.entries();
    assert!(!traversal.is_last());
    assert_eq!(traversal.current_prefix_part_length(), None);
    assert_eq!(traversal.next_prefix_part_length(), Some(2));

    let root = match traversal.advance() {
        Request::Directory(path) => path,
        other => panic!("Unexpected request: {other:?}"),
    };
    // Asking for a listing changes no level; a listing that fails neither.
    assert_eq!(traversal.next_prefix_part_length(), Some(2));
    assert!(traversal.path_to_paths(root.clone(), Listing::NotDirectory).is_err());
    assert_eq!(traversal.current_prefix_part_length(), None);
    assert_eq!(traversal.next_prefix_part_length(), Some(2));

    // Taking a listing in goes one level down.
    let listing = disk.list(&root);
    traversal.path_to_paths(root, listing).unwrap();
    assert_eq!(traversal.current_prefix_part_length(), Some(2));
    assert_eq!(traversal.next_prefix_part_length(), None);
    assert!(!traversal.is_last());

    let directory = match traversal.advance() {
        Request::Directory(path) => path,
        other => panic!("Unexpected request: {other:?}"),
    };
    assert_eq!(shown(&directory), "/base/ab");
    let listing = disk.list(&directory);
    traversal.path_to_paths(directory, listing).unwrap();
    assert!(traversal.is_last());
    match traversal.advance() {
        Request::Entry(path) => assert_eq!(shown(&path), "/base/ab/abcd"),
        other => panic!("Unexpected request: {other:?}"),
    }
    assert!(matches!(traversal.advance(), Request::Finished));
}

#[test]
fn traversal_reports_a_directory_name_of_the_wrong_length() {
    let mut disk = Disk::new();
    disk.create_new(&base().child(b"ab").child(b"abcd"), b"");
    disk.create_new(&base().child(b"abc").child(b"abcd"), b"");
    let tree = Tree::builder(b"/base")
        .with_scheme(Utf8)
        .with_prefix_part_lengths(&[2])
        .build()
        .unwrap();
    let found = entries(&tree, &disk);
    assert_eq!(found.len(), 1);
    match &found[0] {
        Err(IterError::InvalidPrefixPart(path)) => assert_eq!(shown(path), "/base/abc"),
        other => panic!("Unexpected result: {other:?}"),
    }
}

#[test]
fn traversal_hands_on_a_listing_that_failed_and_a_stem_that_is_no_name() {
    let tree = Tree::builder(b"/base").with_scheme(Utf8).build().unwrap();
    let mut traversal = tree.entries();
    let path = match traversal.advance() {
        Request::Directory(path) => path,
        other => panic!("Unexpected request: {other:?}"),
    };
    assert_eq!(path, base());
    match traversal.path_to_paths(path, Listing::Failed(std::io::Error::other("unreadable"))) {
        Err(IterError::Io(error)) => assert_eq!(error.to_string(), "unreadable"),
        other => panic!("Unexpected result: {other:?}"),
    }
    assert!(matches!(traversal.advance(), Request::Finished));

    let traversal = tree.entries();
    match traversal.path_to_entry(base().child(&[0xff, 0xfe]), true) {
        Err(IterError::Scheme(error)) => assert_eq!(error, sharded_tree::scheme::Error::NonUtf8),
        other => panic!("Unexpected result: {other:?}"),
    }
    let constrained = Tree::builder(b"/base").with_scheme(Utf8).with_length(2).build().unwrap();
    match constrained.entries().path_to_entry(base().child(b".."), true) {
        Err(IterError::InvalidFileStemLength(None)) => {}
        other => panic!("Unexpected result: {other:?}"),
    }
    match traversal.path_to_entry(base().child(b".."), true) {
        Err(IterError::InvalidFileStem(path)) => assert_eq!(path, base().child(b"..")),
        other => panic!("Unexpected result: {other:?}"),
    }
}

#[test]
fn test_base32() {
    let mut disk = Disk::new();
    let prefix_part_lengths = vec![3, 2];

    let name_1 = b"abcd_abcd_abcd_abcd_";
    let name_2 = &[255u8; 20];
    let name_3 = b"abcd_abcd_abcd_efgh_";

    let tree = Tree::builder(b"/base")
        .with_scheme(Base32::<20>::new(Case::Lower))
        .with_prefix_part_lengths(&prefix_part_lengths)
        .build()
        .unwrap();

    create_file(&tree, &mut disk, name_1, b"foo")
        .unwrap()
        .expect("Unexpected file");

    let file = create_file(&tree, &mut disk, name_1, b"foo").unwrap();

    assert!(file.is_none());

    create_file(&tree, &mut disk, name_2, b"bar")
        .unwrap()
        .expect("Unexpected file");

    create_file(&tree, &mut disk, name_3, b"qux")
        .unwrap()
        .expect("Unexpected file");

    let entries = all_entries(&tree, &disk).unwrap();

    assert!(shown(&entries[0].path).ends_with("/MFR/GG/MFRGGZC7MFRGGZC7MFRGGZC7MFRGGZC7"));

    assert_eq!(
        entries
            .into_iter()
            .map(|entry| entry.name)
            .collect::<Vec<_>>(),
        vec![*name_1, *name_3, *name_2]
    );
}

struct Store {
    tree: Tree<Hex<16>>,
    disk: Disk,
}

impl Store {
    fn new(prefix_part_lengths: &[usize]) -> Result<Self, builder::Error> {
        Ok(Self {
            tree: Tree::builder(b"")
                .with_scheme(Hex::<16>::default())
                .with_prefix_part_lengths(prefix_part_lengths)
                .build()?,
            disk: Disk::new(),
        })
    }

    fn save(&mut self, digest: [u8; 16], bytes: &[u8]) -> Result<bool, Error> {
        Ok(create_file(&self.tree, &mut self.disk, &digest, bytes)?.is_some())
    }
}

const MINIMAL_JPG_HEX: &str = "ffd8ffe000104a46494600010100000100010000ffdb004300080606070605080707070909080a0c140d0c0b0b0c1912130f141d1a1f1e1d1a1c1c20242e2720222c231c1c2837292c30313434341f27393d38323c2e333432ffdb0043010909090c0b0c180d0d1832211c21323232323232323232323232323232323232323232323232323232323232323232323232323232ffc00011080001000103011100021101031101ffc4001f00000105010101010101000000000000000102030405060708090a0bffc400b51000020103030204030505040400017d010203000411051221314106135161712232819114a1b1c1d1f0e123f1ffda000c03010002110311003f00ff00ffd9";
const MINIMAL_PNG_HEX: &str = "89504e470d0a1a0a0000000d4948445200000001000000010802000000907724d90000000a49444154789c6360000002000185d114090000000049454e44ae426082";

fn from_hex(text: &str) -> Vec<u8> {
    sharded_tree::scheme::hex::AnyLengthHex::new(Case::Lower)
        .name_from_file_stem(text.as_bytes())
        .unwrap()
}

fn digest(text: &str) -> [u8; 16] {
    Hex::<16>::new(Case::Lower).name_from_file_stem(text.as_bytes()).unwrap()
}

fn minimal_jpg_digest() -> [u8; 16] {
    digest("79c09c11a8f92599f3c6d389564dd24d")
}

fn minimal_png_digest() -> [u8; 16] {
    digest("ddf93a3305d41f70e19bb8a04ac673a5")
}

fn empty_digest() -> [u8; 16] {
    digest("d41d8cd98f00b204e9800998ecf8427e")
}

fn text_digest() -> [u8; 16] {
    digest("ab07acbb1e496801937adfa772424bf7")
}

fn test_hex(prefix_part_lengths: Vec<usize>) -> Vec<Entry<[u8; 16]>> {
    let mut store = Store::new(&prefix_part_lengths).unwrap();
    let minimal_jpg_added = store.save(minimal_jpg_digest(), &from_hex(MINIMAL_JPG_HEX)).unwrap();
    let minimal_png_added = store.save(minimal_png_digest(), &from_hex(MINIMAL_PNG_HEX)).unwrap();
    let empty_added = store.save(empty_digest(), &[]).unwrap();
    let text_added = store.save(text_digest(), b"foo bar baz").unwrap();

    assert!(minimal_jpg_added);
    assert!(minimal_png_added);
    assert!(empty_added);
    assert!(text_added);

    let repeat_minimal_jpg_added = store.save(minimal_jpg_digest(), &from_hex(MINIMAL_JPG_HEX)).unwrap();
    let repeat_minimal_png_added = store.save(minimal_png_digest(), &from_hex(MINIMAL_PNG_HEX)).unwrap();
    let repeat_empty_added = store.save(empty_digest(), &[]).unwrap();
    let repeat_text_added = store.save(text_digest(), b"foo bar baz").unwrap();

    assert!(!repeat_minimal_jpg_added);
    assert!(!repeat_minimal_png_added);
    assert!(!repeat_empty_added);
    assert!(!repeat_text_added);

    let inferred_prefix_parts_length =
        infer_prefix_part_lengths(&store.disk, TreePath::new(Vec::new())).unwrap();

    assert_eq!(inferred_prefix_parts_length, Some(prefix_part_lengths));

    let entries = all_entries(&store.tree, &store.disk).unwrap();
    let digests = entries.iter().map(|entry| entry.name).collect::<Vec<_>>();

    let expected_digests = vec![
        minimal_jpg_digest(),
        text_digest(),
        empty_digest(),
        minimal_png_digest(),
    ];

    assert_eq!(entries.len(), 4);
    assert_eq!(digests, expected_digests);

    entries
}

#[test]
fn test_hex_empty() {
    test_hex(vec![]);
}

#[test]
fn test_hex_1() {
    test_hex(vec![1]);
}

#[test]
fn test_hex_2_2() {
    let entries = test_hex(vec![2, 2]);
    let directories: Vec<String> = entries
        .iter()
        .map(|entry| {
            assert_eq!(entry.path.components.len(), 3);
            format!(
                "{}/{}",
                String::from_utf8_lossy(&entry.path.components[0]),
                String::from_utf8_lossy(&entry.path.components[1])
            )
        })
        .collect();
    assert_eq!(directories, vec!["79/c0", "ab/07", "d4/1d", "dd/f9"]);
}

#[test]
fn test_hex_16_3() {
    test_hex(vec![16, 3]);
}

#[test]
fn test_hex_19_13() {
    test_hex(vec![19, 13]);
}
