use substitution::bitset::BitSet64;

#[test]
fn bs64_mixed_operations() {
    let mut bs = BitSet64::<4>::new();
    for i in 0u32..100 {
        bs.insert(i);
    }
    for i in 4u32..8 {
        bs.remove(i);
    }

    for i in 0u32..4 {
        assert!(bs.contains(i));
    }
    for i in 4u32..8 {
        assert!(!bs.contains(i));
    }
    for i in 8u32..100 {
        assert!(bs.contains(i));
    }
    for i in 100u32..256 {
        assert!(!bs.contains(i));
    }
}
