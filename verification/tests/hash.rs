use typed_path::unix::hash::hash_pieces;

fn pieces(path: &[u8]) -> (Vec<Vec<u8>>, usize) {
    let (ps, total) = hash_pieces(path);
    (ps.into_iter().map(|p| p.to_vec()).collect(), total)
}

#[test]
fn hashing_skips_separators_and_inner_current_dirs() {
    assert_eq!(pieces(b"a/./b"), (vec![b"a".to_vec(), b"b".to_vec()], 2));
    assert_eq!(pieces(b"/a//b/."), (vec![b"a".to_vec(), b"b".to_vec()], 2));
    assert_eq!(pieces(b"./a"), (vec![b".".to_vec(), b"a".to_vec()], 2));
    assert_eq!(pieces(b"a/.."), (vec![b"a".to_vec(), b"..".to_vec()], 3));
    assert_eq!(pieces(b"a/.x"), (vec![b"a".to_vec(), b".x".to_vec()], 3));
    assert_eq!(pieces(b""), (vec![], 0));
    assert_eq!(pieces(b"///"), (vec![], 0));
}

#[test]
fn paths_with_the_same_components_hash_alike() {
    assert_eq!(pieces(b"/tmp/./foo//bar/"), pieces(b"/tmp/foo/bar"));
}
