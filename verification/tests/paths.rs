//! The paths that a tree lays out for its names, and the builder's check.

use sharded_tree::builder::Error as BuildError;
use sharded_tree::constraint::Length;
use sharded_tree::path::TreePath;
use sharded_tree::scheme::hex::Hex;
use sharded_tree::scheme::{Case, Identity, Utf8};
use sharded_tree::Tree;

fn shown(path: &TreePath) -> String {
    let mut text = String::from_utf8_lossy(&path.base).into_owned();
    for component in &path.components {
        text.push('/');
        text.push_str(&String::from_utf8_lossy(component));
    }
    text
}

#[test]
fn test_path_with_valid_prefix_lengths() {
    let tree = Tree::builder(b"/tmp/base")
        .with_scheme(Utf8)
        .with_prefix_part_lengths(&[2, 2])
        .build()
        .unwrap();

    let path = tree.path(&"abcdef".to_string()).unwrap();
    assert!(shown(&path).ends_with("/ab/cd/abcdef"));
    assert_eq!(shown(&path), "/tmp/base/ab/cd/abcdef");
}

#[test]
fn test_path_boundary_case_equal_length() {
    let tree = Tree::builder(b"/tmp/base")
        .with_scheme(Utf8)
        .with_prefix_part_lengths(&[2, 1])
        .build()
        .unwrap();

    // Name length (3) equals prefix total (3).
    let path = tree.path(&"abc".to_string()).unwrap();
    assert!(shown(&path).ends_with("/ab/c/abc"));
}

#[test]
fn test_path_too_short_name() {
    let tree = Tree::builder(b"/tmp/base")
        .with_scheme(Utf8)
        .with_prefix_part_lengths(&[2, 2])
        .build()
        .unwrap();

    // Name length (3) is less than prefix total (4).
    let result = tree.path(&"abc".to_string());
    assert!(result.is_err());
    assert_eq!(result.unwrap_err(), "abc");
}

#[test]
fn test_path_with_empty_prefix_parts() {
    let tree = Tree::builder(b"/tmp/base")
        .with_scheme(Utf8)
        .with_prefix_part_lengths(&[])
        .build()
        .unwrap();

    let path = tree.path(&"filename".to_string()).unwrap();
    assert!(shown(&path).ends_with("/filename"));
    assert!(!shown(&path).contains("//"));
}

#[test]
fn path_of_an_empty_name_fails_even_without_levels() {
    let tree = Tree::builder(b"/tmp/base").with_scheme(Utf8).build().unwrap();
    assert_eq!(tree.path(&String::new()), Err(String::new()));
    assert_eq!(tree.name_path(&String::new()), Err(String::new()));
}

#[test]
fn path_is_the_same_on_every_call() {
    let tree = Tree::builder(b"/tmp/base")
        .with_scheme(Hex::<4>::new(Case::Upper))
        .with_prefix_part_lengths(&[1, 2, 3])
        .with_extension("bin")
        .build()
        .unwrap();
    let name = [0xde, 0xad, 0xbe, 0xef];
    let first = tree.path(&name).unwrap();
    let second = tree.path(&name).unwrap();
    assert_eq!(first, second);
    assert_eq!(shown(&first), "/tmp/base/D/EA/DBE/DEADBEEF.bin");
    assert_eq!(shown(&tree.name_path(&name).unwrap()), "/tmp/base/D/EA/DBE/DEADBEEF");
}

#[test]
fn path_appends_only_a_fixed_extension_that_is_not_empty() {
    let name = "abcd".to_string();
    let any = Tree::builder(b"b").with_scheme(Utf8).with_any_extension().build().unwrap();
    assert_eq!(shown(&any.path(&name).unwrap()), "b/abcd");
    let none = Tree::builder(b"b").with_scheme(Utf8).with_no_extension().build().unwrap();
    assert_eq!(shown(&none.path(&name).unwrap()), "b/abcd");
    let empty = Tree::builder(b"b").with_scheme(Utf8).with_extension("").build().unwrap();
    assert_eq!(shown(&empty.path(&name).unwrap()), "b/abcd");
    let fixed = Tree::builder(b"b")
        .with_scheme(Utf8)
        .with_prefix_part_lengths(&[2])
        .with_extension("tar.gz")
        .build()
        .unwrap();
    assert_eq!(shown(&fixed.path(&name).unwrap()), "b/ab/abcd.tar.gz");
    assert_eq!(fixed.path(&name).unwrap().components, vec![b"ab".to_vec(), b"abcd.tar.gz".to_vec()]);
}

#[test]
fn path_of_a_raw_name_that_is_text_is_the_name() {
    let tree = Tree::builder(b"b")
        .with_scheme(Identity)
        .with_prefix_part_lengths(&[2])
        .build()
        .unwrap();
    let name = "grüße".as_bytes().to_vec();
    let path = tree.path(&name).unwrap();
    assert_eq!(path.components, vec![name[..2].to_vec(), name.clone()]);
}

#[test]
fn path_of_a_raw_name_that_is_no_text_keeps_its_bytes() {
    let tree = Tree::builder(&[b'/', 0xfe])
        .with_scheme(Identity)
        .with_prefix_part_lengths(&[1, 2])
        .build()
        .unwrap();
    let name = vec![0xff, b'a', 0x80, b'b'];
    let path = tree.path(&name).unwrap();
    assert_eq!(path.base, vec![b'/', 0xfe]);
    assert_eq!(path.components, vec![vec![0xff], vec![b'a', 0x80], name.clone()]);
    // A name too short is reported as text.
    assert_eq!(tree.path(&vec![0xff, b'a']), Err("\u{fffd}a".to_string()));
}

#[test]
fn path_cuts_bytes_of_the_encoded_name() {
    let tree = Tree::builder(b"b")
        .with_scheme(Identity)
        .with_prefix_part_lengths(&[1, 0, 2])
        .build()
        .unwrap();
    let path = tree.path(&b"wxyz".to_vec()).unwrap();
    assert_eq!(
        path.components,
        vec![b"w".to_vec(), b"".to_vec(), b"xy".to_vec(), b"wxyz".to_vec()]
    );
    assert_eq!(tree.path(&b"wx".to_vec()), Err("wx".to_string()));
}

#[test]
fn lengths_total_saturates() {
    let tree = Tree::builder(b"b")
        .with_prefix_part_lengths(&[usize::MAX, 2])
        .build()
        .unwrap();
    assert_eq!(tree.prefix_part_lengths_total(), usize::MAX);
    assert_eq!(tree.checked_prefix_part_lengths_total(), None);
    assert_eq!(tree.path(&b"abc".to_vec()), Err("abc".to_string()));
    let small = Tree::builder(b"b").with_prefix_part_lengths(&[3, 4]).build().unwrap();
    assert_eq!(small.prefix_part_lengths_total(), 7);
    assert_eq!(small.checked_prefix_part_lengths_total(), Some(7));
    assert_eq!(small.levels(), 2);
    assert_eq!(small.part_length(1), Some(4));
    assert_eq!(small.part_length(2), None);
}

#[test]
fn build_checks_the_lengths_against_the_constraint() {
    let error = Tree::builder(b"b")
        .with_scheme(Utf8)
        .with_length(4)
        .with_prefix_part_lengths(&[2, 3])
        .build()
        .unwrap_err();
    assert_eq!(
        error,
        BuildError::InconsistentPrefixPartLengths {
            prefix_part_lengths_total: 5,
            length_constraint: Length::Fixed(4),
        }
    );
    assert!(Tree::builder(b"b").with_length(5).with_prefix_part_lengths(&[2, 3]).build().is_ok());
    // A range admits the lengths below its end: the greatest is one less.
    assert!(Tree::builder(b"b").with_length_range(1..6).with_prefix_part_lengths(&[2, 3]).build().is_ok());
    assert_eq!(
        Tree::builder(b"b")
            .with_length_range(1..5)
            .with_prefix_part_lengths(&[2, 3])
            .build()
            .unwrap_err(),
        BuildError::InconsistentPrefixPartLengths {
            prefix_part_lengths_total: 5,
            length_constraint: Length::Range(1, 5),
        }
    );
    assert_eq!(
        Tree::builder(b"/b")
            .with_length_range(2..4)
            .with_prefix_part_lengths(&[4])
            .build()
            .unwrap_err(),
        BuildError::InconsistentPrefixPartLengths {
            prefix_part_lengths_total: 4,
            length_constraint: Length::Range(2, 4),
        }
    );
    assert!(Tree::builder(b"/b").with_length_range(2..4).with_prefix_part_lengths(&[3]).build().is_ok());
    // A range that ends at zero leaves room for no stem at all.
    assert_eq!(
        Tree::builder(b"b").with_length_range(0..0).build().unwrap_err(),
        BuildError::InconsistentPrefixPartLengths {
            prefix_part_lengths_total: 0,
            length_constraint: Length::Range(0, 0),
        }
    );
    assert!(Tree::builder(b"b").with_length(0).build().is_ok());
    // Without a constraint any lengths build.
    assert!(Tree::builder(b"b").with_prefix_part_lengths(&[usize::MAX, usize::MAX]).build().is_ok());
    assert_eq!(
        Tree::builder(b"b")
            .with_length_range(1..4)
            .with_prefix_part_lengths(&[2, 3])
            .build()
            .unwrap_err(),
        BuildError::InconsistentPrefixPartLengths {
            prefix_part_lengths_total: 5,
            length_constraint: Length::Range(1, 4),
        }
    );
    assert_eq!(
        Tree::builder(b"b")
            .with_length(usize::MAX)
            .with_prefix_part_lengths(&[usize::MAX, 1])
            .build()
            .unwrap_err(),
        BuildError::InconsistentPrefixPartLengths {
            prefix_part_lengths_total: usize::MAX,
            length_constraint: Length::Fixed(usize::MAX),
        }
    );
}

#[test]
fn with_scheme_derives_the_length_of_a_fixed_scheme() {
    // The fixed length of the scheme replaces the constraint set before.
    let error = Tree::builder(b"b")
        .with_length(100)
        .with_scheme(Hex::<2>::new(Case::Lower))
        .with_prefix_part_lengths(&[5])
        .build()
        .unwrap_err();
    assert_eq!(
        error,
        BuildError::InconsistentPrefixPartLengths {
            prefix_part_lengths_total: 5,
            length_constraint: Length::Fixed(4),
        }
    );
    // A scheme without a fixed length leaves it alone.
    let error = Tree::builder(b"b")
        .with_length(3)
        .with_scheme(Utf8)
        .with_prefix_part_lengths(&[5])
        .build()
        .unwrap_err();
    assert_eq!(
        error,
        BuildError::InconsistentPrefixPartLengths {
            prefix_part_lengths_total: 5,
            length_constraint: Length::Fixed(3),
        }
    );
    let tree = Tree::builder(b"b").with_scheme(Hex::<2>::new(Case::Lower)).build().unwrap();
    assert_eq!(tree.length_constraint(), Some(Length::Fixed(4)));
}

#[test]
fn length_constraints_from_numbers_and_ranges() {
    assert_eq!(Length::from(7), Length::Fixed(7));
    assert_eq!(Length::from(2..9), Length::Range(2, 9));
    assert!(Length::Fixed(7).accepts(7));
    assert!(!Length::Fixed(7).accepts(8));
    assert!(Length::Range(2, 9).accepts(2));
    assert!(Length::Range(2, 9).accepts(8));
    assert!(!Length::Range(2, 9).accepts(9));
    assert!(!Length::Range(2, 9).accepts(1));
    assert_eq!(Length::Fixed(7).greatest(), Some(7));
    assert_eq!(Length::Range(2, 9).greatest(), Some(8));
    assert_eq!(Length::Range(0, 1).greatest(), Some(0));
    assert_eq!(Length::Range(0, 0).greatest(), None);
}

#[test]
fn file_names_split_at_the_last_dot() {
    let base = TreePath::new(b"b".to_vec());
    let cases: [(&[u8], Option<&[u8]>, Option<&[u8]>, Option<&[u8]>); 8] = [
        (b"name.txt", Some(b"name.txt"), Some(b"name"), Some(b"txt")),
        (b"name", Some(b"name"), Some(b"name"), None),
        (b".hidden", Some(b".hidden"), Some(b".hidden"), None),
        (b".hidden.txt", Some(b".hidden.txt"), Some(b".hidden"), Some(b"txt")),
        (b"a.tar.gz", Some(b"a.tar.gz"), Some(b"a.tar"), Some(b"gz")),
        (b"name.", Some(b"name."), Some(b"name"), Some(b"")),
        (b"..", None, None, None),
        (b"", None, None, None),
    ];
    for (name, file_name, stem, extension) in cases {
        let path = base.child(name);
        assert_eq!(path.file_name(), file_name);
        assert_eq!(path.file_stem(), stem);
        assert_eq!(path.extension(), extension);
    }
    assert_eq!(base.file_name(), None);
    assert_eq!(base.child(b".").file_name(), None);
    assert_eq!(base.child(b"x").duplicate(), base.child(b"x"));
}
