use keccak_mmr::codec::{bytes_to_hex, decode_hex_field};
use keccak_mmr::{generate_root_with_proof, hash_leaf, verify_proof, MMRResult, Mmr, MmrError};

fn sample_calldata() -> Vec<u8> {
    (0..32).map(|i| i as u8).collect()
}

#[test]
fn test_proof_verification() {
    let calldata_bytes: Vec<u8> = (0..32).map(|i| i as u8).collect();
    let tree_size = 10u64;

    println!("Original calldata: {:?}", calldata_bytes);
    let result: MMRResult = generate_root_with_proof(&calldata_bytes, tree_size).unwrap();

    let last_leaf_position = result.leaf_positions[result.leaf_positions.len() - 1];
    let proof_result = verify_proof(
        &result.root,
        result.proof.clone(),
        result.mmr_size,
        last_leaf_position,
        &calldata_bytes,
    )
    .unwrap();

    assert!(proof_result);

    let mut modified_calldata = calldata_bytes.clone();
    modified_calldata[0] ^= 1; // Flip one bit
    println!("Modified calldata: {:?}", modified_calldata);

    let modified_proof_result = verify_proof(
        &result.root,
        result.proof,
        result.mmr_size,
        last_leaf_position,
        &modified_calldata,
    )
    .unwrap();

    println!("Modified Proof Result: {}", modified_proof_result);
    assert!(!modified_proof_result);
}

#[test]
fn root_is_deterministic_across_runs() {
    let calldata = sample_calldata();
    let a = generate_root_with_proof(&calldata, 10).unwrap();
    let b = generate_root_with_proof(&calldata, 10).unwrap();
    assert_eq!(a.root, b.root);
    assert_eq!(a.proof, b.proof);
    assert_eq!(a.mmr_size, b.mmr_size);
    assert_eq!(a.leaf_positions, b.leaf_positions);
}

#[test]
fn push_is_append_only() {
    let mut engine = Mmr::new();
    let mut positions = Vec::new();
    for i in 0..7u8 {
        positions.push(engine.push(hash_leaf(&[i])));
    }
    let size_before = engine.mmr_size();
    let saved: Vec<Vec<u8>> = (0..size_before)
        .map(|p| engine.get(p).unwrap())
        .collect();

    engine.push(hash_leaf(&[200]));
    assert!(engine.mmr_size() > size_before);
    for p in 0..size_before {
        assert_eq!(engine.get(p).unwrap(), saved[p as usize]);
    }
    // positions handed out earlier do not move
    assert_eq!(positions, vec![0, 1, 3, 4, 7, 8, 10]);
}

#[test]
fn empty_structure_has_no_root() {
    let engine = Mmr::new();
    assert_eq!(engine.root().unwrap_err(), MmrError::EmptyStructure);
    assert_eq!(
        generate_root_with_proof(&sample_calldata(), 0).unwrap_err(),
        MmrError::EmptyStructure
    );
}

#[test]
fn proof_for_position_past_the_end_is_rejected() {
    let mut engine = Mmr::new();
    for i in 0..5u8 {
        engine.push(hash_leaf(&[i]));
    }
    let size = engine.mmr_size();
    assert_eq!(engine.gen_proof(size).unwrap_err(), MmrError::InvalidTarget);
    assert_eq!(
        engine.gen_proof(size + 7).unwrap_err(),
        MmrError::InvalidTarget
    );
}

#[test]
fn proof_for_internal_node_is_rejected() {
    let mut engine = Mmr::new();
    for i in 0..4u8 {
        engine.push(hash_leaf(&[i]));
    }
    // position 2 is the parent of leaves 0 and 1
    assert_eq!(engine.gen_proof(2).unwrap_err(), MmrError::InvalidTarget);
}

#[test]
fn lookup_past_the_end_is_unknown_position() {
    let mut engine = Mmr::new();
    engine.push(hash_leaf(&[1]));
    assert_eq!(
        engine.get(engine.mmr_size()).unwrap_err(),
        MmrError::UnknownPosition
    );
}

#[test]
fn every_leaf_round_trips() {
    // a proof generated by the engine verifies against the engine's own root
    let mut engine = Mmr::new();
    let payloads: Vec<Vec<u8>> = (0..11u8).map(|i| vec![i, i ^ 0x5a, 3]).collect();
    let mut leaf_positions = Vec::new();
    for p in &payloads {
        leaf_positions.push(engine.push(hash_leaf(p)));
    }
    let root = engine.root().unwrap();
    let root_hex = bytes_to_hex(&root);
    let size = engine.mmr_size();
    for (k, pos) in leaf_positions.iter().enumerate() {
        let prf = engine.gen_proof(*pos).unwrap();
        assert_eq!(prf.mmr_size, size);
        let items_hex: Vec<String> = prf.items.iter().map(|d| bytes_to_hex(d)).collect();
        let ok = verify_proof(&root_hex, items_hex, size, *pos, &payloads[k]).unwrap();
        assert!(ok, "leaf {} failed to verify", k);
    }
}

#[test]
fn single_leaf_round_trips_with_empty_proof() {
    let mut engine = Mmr::new();
    let pos = engine.push(hash_leaf(b"only"));
    assert_eq!(pos, 0);
    let prf = engine.gen_proof(0).unwrap();
    assert!(prf.items.is_empty());
    let root_hex = bytes_to_hex(&engine.root().unwrap());
    assert!(verify_proof(&root_hex, Vec::new(), 1, 0, b"only").unwrap());
}

#[test]
fn tampered_root_or_sibling_fails() {
    let calldata = sample_calldata();
    let result = generate_root_with_proof(&calldata, 10).unwrap();
    let pos = result.leaf_positions[0];

    // flip one hex digit of the claimed root
    let mut bad_root = result.root.clone();
    let last = bad_root.pop().unwrap();
    bad_root.push(if last == '0' { '1' } else { '0' });
    assert!(!verify_proof(&bad_root, result.proof.clone(), result.mmr_size, pos, &calldata)
        .unwrap());

    // flip one byte of each proof sibling in turn
    for k in 0..result.proof.len() {
        let mut bad_proof = result.proof.clone();
        let digit = bad_proof[k].pop().unwrap();
        bad_proof[k].push(if digit == '0' { '1' } else { '0' });
        assert!(
            !verify_proof(&result.root, bad_proof, result.mmr_size, pos, &calldata).unwrap(),
            "tampered sibling {} still verified",
            k
        );
    }
}

#[test]
fn truncated_proof_is_malformed() {
    let calldata = sample_calldata();
    let result = generate_root_with_proof(&calldata, 10).unwrap();
    let pos = result.leaf_positions[0];
    let mut short = result.proof.clone();
    short.pop();
    assert_eq!(
        verify_proof(&result.root, short, result.mmr_size, pos, &calldata).unwrap_err(),
        MmrError::MalformedProof
    );
    let mut long = result.proof.clone();
    long.push(result.proof[0].clone());
    assert_eq!(
        verify_proof(&result.root, long, result.mmr_size, pos, &calldata).unwrap_err(),
        MmrError::MalformedProof
    );
}

#[test]
fn undecodable_hex_is_an_encoding_error() {
    let calldata = sample_calldata();
    let result = generate_root_with_proof(&calldata, 4).unwrap();
    let pos = result.leaf_positions[0];
    assert_eq!(
        verify_proof("0xzz", result.proof.clone(), result.mmr_size, pos, &calldata).unwrap_err(),
        MmrError::EncodingError
    );
    let mut bad_items = result.proof.clone();
    bad_items[0] = String::from("0xabc"); // odd number of digits
    assert_eq!(
        verify_proof(&result.root, bad_items, result.mmr_size, pos, &calldata).unwrap_err(),
        MmrError::EncodingError
    );
}

#[test]
fn proof_does_not_transfer_to_another_position_or_size() {
    let calldata = sample_calldata();
    let result = generate_root_with_proof(&calldata, 10).unwrap();
    let pos = result.leaf_positions[0];

    let other_pos = verify_proof(&result.root, result.proof.clone(), result.mmr_size, 0, &calldata);
    assert!(!matches!(other_pos, Ok(true)));

    let other_size = verify_proof(
        &result.root,
        result.proof.clone(),
        result.mmr_size + 1,
        pos,
        &calldata,
    );
    assert!(!matches!(other_size, Ok(true)));
}

#[test]
fn keccak_known_answers() {
    // Keccak-256 of the empty input and of "abc"
    assert_eq!(
        bytes_to_hex(&hash_leaf(&[])),
        "0xc5d2460186f7233c927e7db2dcc703c0e500b653ca82273b7bfad8045d85a470"
    );
    assert_eq!(
        bytes_to_hex(&hash_leaf(b"abc")),
        "0x4e03657aea45a94fc7d47ba826c8d667c0d1e6e33a64a036ec44f58fa12d6c45"
    );
}

#[test]
fn hex_encode_decode_round_trip() {
    let bytes = vec![0u8, 255, 16, 1, 0xab];
    let hex = bytes_to_hex(&bytes);
    assert_eq!(hex, "0x00ff1001ab");
    assert_eq!(decode_hex_field(&hex).unwrap(), bytes);
    // upper case and unprefixed forms decode too
    assert_eq!(decode_hex_field("00FF1001AB").unwrap(), bytes);
    assert_eq!(
        decode_hex_field("0x0g").unwrap_err(),
        MmrError::EncodingError
    );
}
