use ckb_merkle_mountain_range::util::MemStore;
use ckb_merkle_mountain_range::{Merge, Result as CkbResult, MMR};
use keccak_mmr::codec::bytes_to_hex;
use keccak_mmr::{hash_leaf, verify_proof, Mmr};
use tiny_keccak::{Hasher, Keccak};

struct KeccakMergeRef;

impl Merge for KeccakMergeRef {
    type Item = Vec<u8>;
    fn merge(lhs: &Self::Item, rhs: &Self::Item) -> CkbResult<Self::Item> {
        let mut keccak = Keccak::v256();
        let mut result = [0u8; 32];
        keccak.update(lhs);
        keccak.update(rhs);
        keccak.finalize(&mut result);
        Ok(result.to_vec())
    }
}

#[test]
fn root_and_proof_match_reference_implementation() {
    let payloads: Vec<Vec<u8>> = (0..13u8).map(|i| vec![i, 7, i ^ 3]).collect();
    let leaves: Vec<Vec<u8>> = payloads.iter().map(|p| hash_leaf(p)).collect();

    let store = MemStore::<Vec<u8>>::default();
    let mut reference = MMR::<Vec<u8>, KeccakMergeRef, &MemStore<Vec<u8>>>::new(0, &store);
    let mut engine = Mmr::new();

    let mut positions = Vec::new();
    for leaf in &leaves {
        let p1 = reference.push(leaf.clone()).unwrap();
        let p2 = engine.push(leaf.clone());
        assert_eq!(p1, p2);
        positions.push(p2);
    }
    assert_eq!(reference.mmr_size(), engine.mmr_size());
    let ref_root = reference.get_root().unwrap();
    let own_root = engine.root().unwrap();
    assert_eq!(ref_root, own_root);

    for (k, pos) in positions.iter().enumerate() {
        let ref_proof = reference.gen_proof(vec![*pos]).unwrap();
        let own_proof = engine.gen_proof(*pos).unwrap();
        assert_eq!(ref_proof.proof_items().to_vec(), own_proof.items);
        let items_hex: Vec<String> = own_proof.items.iter().map(|d| bytes_to_hex(d)).collect();
        assert!(verify_proof(
            &bytes_to_hex(&own_root),
            items_hex,
            engine.mmr_size(),
            *pos,
            &payloads[k],
        )
        .unwrap());
    }
}
