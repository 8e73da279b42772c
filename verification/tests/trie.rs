use substitution::trie::Error;
use substitution::trie::TrieSet;

#[test]
fn no_insertion_not_contained() {
    const R: usize = 128;
    let set = TrieSet::<R, 0>::new();
    assert!(!set.contains(b"hello").unwrap())
}

#[test]
fn insertion_contained() {
    const R: usize = 128;
    let mut set = TrieSet::<R, 0>::new();
    set.insert(b"hello").unwrap();
    assert!(set.contains(b"hello").unwrap())
}

#[test]
fn insertion_prefix_not_contained() {
    const R: usize = 128;
    let mut set = TrieSet::<R, 0>::new();
    set.insert(b"hello").unwrap();
    assert!(!set.contains(b"hell").unwrap())
}

#[test]
fn insertion_prefix_score() {
    const R: usize = 128;
    let mut set = TrieSet::<R, 0>::new();
    set.insert(b"hello").unwrap();
    assert_eq!(set.prefix_score(b"hell").unwrap(), 4);
    assert_eq!(set.prefix_score(b"hell0").unwrap(), 4);
    assert_eq!(set.prefix_score(b"hello").unwrap(), 6);
}

#[test]
fn multiple_insertions() {
    const R: usize = 128;
    let keys = [
        b"apples".as_slice(),
        b"oranges".as_slice(),
        b"bananas".as_slice(),
    ];
    let false_keys = [
        b"apple".as_slice(),
        b"orangee".as_slice(),
        b"bananasplit".as_slice(),
        b"".as_slice(),
    ];

    let mut set = TrieSet::<R, 0>::new();
    for key in &keys {
        set.insert(key).unwrap();
    }
    for key in &false_keys {
        assert!(!set.contains(key).unwrap())
    }
    for key in &keys {
        assert!(set.contains(key).unwrap())
    }
}

#[test]
fn key_error() {
    const R: usize = 96;
    let mut set = TrieSet::<R, 0>::new();
    assert!(matches!(
        set.insert(b"Hello!"),
        Err(Error::KeyNotInAlphabet {
            value: 101,
            size: 96
        })
    ));
}
