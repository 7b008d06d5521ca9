use merkle_tree::hashing::_sha3;
use merkle_tree::proofs::verify;
use merkle_tree::tree::MerkleTree;

#[test]
fn test_hash() {
    assert_eq!(
        &_sha3(&vec![1, 2, 3]),
        &b"\xfd\x17\x80\xa6\xfc\x9e\xe0\xda\xb2l\xebK9A\xab\x03\xe6l\xcd\x97\r\x1d\xb9\x16\x12\xc6m\xf4Q[\n\n"
    );
}

#[test]
fn test_building() {
    let items: Vec<Vec<u8>> = vec![vec![1, 2, 3], vec![4, 5, 6], vec![7, 8, 9]];
    let input = items.iter().map(|x| x.as_ref()).collect();

    let merkle_tree = MerkleTree::build(input).unwrap();

    assert_eq!(merkle_tree.size, 3);
    assert_eq!(
        &merkle_tree.get_root_hash(),
        &b"\xbe\xa3\xfd\xa3\xa0\xb8=%\xef\xf3\xd4\x1cj\xa2\xd6=\x03I,\xcc0\xda\x1dg\x8a\x08o\x81g%1d"
    );
}

#[test]
fn test_proof() {
    let items: Vec<Vec<u8>> = vec![vec![1, 2, 3], vec![4, 5, 6], vec![7, 8, 9]];
    let input = items.iter().map(|x| x.as_ref()).collect();
    let path_item_1: Vec<u8> =
        b"\xfd\x17\x80\xa6\xfc\x9e\xe0\xda\xb2l\xebK9A\xab\x03\xe6l\xcd\x97\r\x1d\xb9\x16\x12\xc6m\xf4Q[\n\nl"
            .to_vec();
    let path_item_2: Vec<u8> =
        b")\xf0\xb7]\x17K\xd38D.z\xca|X{0a\x8a\xe6\xa7\x03\x1e\xbeT\xb8:\xd1&\x8faK\xa2r"
            .to_vec();
    let expected_proof = vec![path_item_1, path_item_2];

    let merkle_tree = MerkleTree::build(input).unwrap();
    let proof = merkle_tree.get_proof(1).unwrap();

    for (i, expected_hash) in expected_proof.iter().enumerate() {
        let actual_hash = &proof[i];
        println!("Expected: {:?}. Actual: {:?}", expected_hash, actual_hash);
        assert_eq!(actual_hash, expected_hash);
    }
}

#[test]
fn empty_input_is_rejected() {
    let input: Vec<&[u8]> = Vec::new();
    assert!(MerkleTree::build(input).is_err());
}

#[test]
fn size_matches_item_count() {
    for n in [1usize, 2, 3, 5, 7, 8, 13] {
        let items: Vec<Vec<u8>> = (0..n).map(|i| vec![i as u8, 42]).collect();
        let input = items.iter().map(|x| x.as_ref()).collect();
        let tree = MerkleTree::build(input).unwrap();
        assert_eq!(tree.size, n);
    }
}

#[test]
fn building_is_deterministic() {
    let items: Vec<Vec<u8>> = vec![vec![9, 9], vec![1], vec![2, 2, 2], vec![3], vec![4]];
    let input_a = items.iter().map(|x| x.as_ref()).collect();
    let input_b = items.iter().map(|x| x.as_ref()).collect();
    let tree_a = MerkleTree::build(input_a).unwrap();
    let tree_b = MerkleTree::build(input_b).unwrap();
    assert_eq!(tree_a.get_root_hash(), tree_b.get_root_hash());
}

#[test]
fn three_item_proof_has_tagged_sides_and_verifies() {
    let items: Vec<Vec<u8>> = vec![vec![1, 2, 3], vec![4, 5, 6], vec![7, 8, 9]];
    let input = items.iter().map(|x| x.as_ref()).collect();
    let tree = MerkleTree::build(input).unwrap();
    let root = tree.get_root_hash().to_vec();

    let proof = tree.get_proof(1).unwrap();
    assert_eq!(proof.len(), 2);
    // leaf 1 is a right child: its sibling leaf sits on the left
    assert_eq!(*proof[0].last().unwrap(), b'l');
    // the subtree of the padded third leaf sits on the right
    assert_eq!(*proof[1].last().unwrap(), b'r');
    assert!(verify(&items[1], 1, 3, &proof, &root));
}

#[test]
fn every_index_verifies_at_each_depth() {
    for n in [1usize, 2, 3, 5, 7] {
        let items: Vec<Vec<u8>> = (0..n).map(|i| vec![i as u8, 7, i as u8]).collect();
        let input = items.iter().map(|x| x.as_ref()).collect();
        let tree = MerkleTree::build(input).unwrap();
        let root = tree.get_root_hash().to_vec();
        for i in 0..n {
            let proof = tree.get_proof(i).unwrap();
            assert!(verify(&items[i], i, n, &proof, &root));
        }
    }
}

#[test]
fn out_of_range_index_yields_no_proof() {
    let items: Vec<Vec<u8>> = vec![vec![1], vec![2], vec![3]];
    let input = items.iter().map(|x| x.as_ref()).collect();
    let tree = MerkleTree::build(input).unwrap();
    assert!(tree.get_proof(2).is_some());
    assert!(tree.get_proof(3).is_none());
    assert!(tree.get_proof(8).is_none());
}

#[test]
fn single_item_tree_is_its_own_leaf() {
    let item: Vec<u8> = vec![10, 20, 30];
    let input = vec![item.as_ref()];
    let tree = MerkleTree::build(input).unwrap();
    assert_eq!(tree.size, 1);
    assert_eq!(tree.get_root_hash(), _sha3(&item).as_slice());
    let proof = tree.get_proof(0).unwrap();
    assert!(proof.is_empty());
    let root = tree.get_root_hash().to_vec();
    assert!(verify(&item, 0, 1, &proof, &root));
}

#[test]
fn tampered_item_is_rejected() {
    let items: Vec<Vec<u8>> = vec![vec![1, 2, 3], vec![4, 5, 6], vec![7, 8, 9]];
    let input = items.iter().map(|x| x.as_ref()).collect();
    let tree = MerkleTree::build(input).unwrap();
    let root = tree.get_root_hash().to_vec();
    let proof = tree.get_proof(1).unwrap();
    let tampered_item: Vec<u8> = vec![4, 5, 7];
    assert!(!verify(&tampered_item, 1, 3, &proof, &root));
}

#[test]
fn tampered_proof_entry_is_rejected() {
    let items: Vec<Vec<u8>> = vec![vec![1, 2, 3], vec![4, 5, 6], vec![7, 8, 9]];
    let input = items.iter().map(|x| x.as_ref()).collect();
    let tree = MerkleTree::build(input).unwrap();
    let root = tree.get_root_hash().to_vec();

    // flip one digest byte
    let mut proof = tree.get_proof(1).unwrap();
    proof[0][0] ^= 0xff;
    assert!(!verify(&items[1], 1, 3, &proof, &root));

    // flip a side tag
    let mut proof = tree.get_proof(1).unwrap();
    let last = proof[0].len() - 1;
    proof[0][last] = b'r';
    assert!(!verify(&items[1], 1, 3, &proof, &root));
}

#[test]
fn tampered_root_is_rejected() {
    let items: Vec<Vec<u8>> = vec![vec![1, 2, 3], vec![4, 5, 6], vec![7, 8, 9]];
    let input = items.iter().map(|x| x.as_ref()).collect();
    let tree = MerkleTree::build(input).unwrap();
    let proof = tree.get_proof(1).unwrap();
    let mut wrong_root = tree.get_root_hash().to_vec();
    wrong_root[31] ^= 0x01;
    assert!(!verify(&items[1], 1, 3, &proof, &wrong_root));
}
