use coronene::atomic_vec::AtomicInitVec;

#[test]
fn test_atomic_vec() {
    let mut av = AtomicInitVec::<usize>::new();
    assert_eq!(av.slice().len(), 0);
    assert_eq!(av.slice(), &[]);
    assert!(av.init(vec![1, 2, 3, 4, 5, 6]));
    assert_eq!(av.slice().len(), 6);
    assert_eq!(av.slice(), &[1, 2, 3, 4, 5, 6]);
    assert!(!av.init(vec![4, 3, 2, 1])); // cannot re-init
    assert_eq!(av.slice().len(), 6);
    assert_eq!(av.slice(), &[1, 2, 3, 4, 5, 6]);
}

#[test]
fn atomic_vec_reports_publication() {
    let mut av = AtomicInitVec::<u8>::new();
    assert!(!av.is_initialized());
    assert!(av.init(vec![]));
    assert!(av.is_initialized());
    assert!(!av.init(vec![7]));
    assert_eq!(av.slice().len(), 0);
}
