use vstd::prelude::*;
use vstd::string::*;

use crate::codec::{bytes_to_hex, bytes_to_hex_proof, decode_hex_field, hex_bytes, hex_ok,
    hex_str, strip0x};
use crate::engine::{dv, nodes_of, root_spec, Mmr};
use crate::errors::MmrError;
use crate::hasher::{hash_leaf, leaf_digest_of};
use crate::index::pos_height;
use crate::proofs::{gen_spec, replay_spec, verify_inclusion};

verus! {

/// The result of committing a calldata-derived leaf sequence: the root and
/// one inclusion proof, hex encoded for transport, with the size and the
/// proved leaf positions.
#[derive(Debug)]
pub struct MMRResult {
    pub root: String,
    pub proof: Vec<String>,
    pub mmr_size: u64,
    pub leaf_positions: Vec<u64>,
}

/// The payload of leaf i out of n: the calldata with every byte XORed with
/// the leaf index, except the last leaf, which is the calldata unchanged.
pub open spec fn payload_of(calldata: Seq<u8>, i: nat, n: nat) -> Seq<u8> {
    if i + 1 == n {
        calldata
    } else {
        calldata.map_values(|b: u8| b ^ ((i % 256) as u8))
    }
}

/// The leaf digests committed for a calldata and a tree size.
pub open spec fn leaves_of(calldata: Seq<u8>, n: nat) -> Seq<Seq<u8>> {
    Seq::new(n, |i: int| leaf_digest_of(payload_of(calldata, i as nat, n)))
}

/// Copy a byte slice into a vector.
fn copy_slice(data: &[u8]) -> (r: Vec<u8>)
    ensures
        r@ == data@,
{
    let mut r: Vec<u8> = Vec::new();
    let mut i: usize = 0;
    while i < data.len()
        invariant
            i <= data@.len(),
            r@ == data@.subrange(0, i as int),
        decreases data@.len() - i,
    {
        r.push(data[i]);
        i = i + 1;
    }
    proof {
        assert(r@ =~= data@);
    }
    r
}

/// XOR every byte of a slice with a mask.
fn xor_bytes(data: &[u8], m: u8) -> (r: Vec<u8>)
    ensures
        r@ == data@.map_values(|b: u8| b ^ m),
{
    let mut r: Vec<u8> = Vec::new();
    let mut i: usize = 0;
    while i < data.len()
        invariant
            i <= data@.len(),
            r@.len() == i,
            forall|k: int| 0 <= k < i ==> r@[k] == data@[k] ^ m,
        decreases data@.len() - i,
    {
        r.push(data[i] ^ m);
        i = i + 1;
    }
    proof {
        assert(r@ =~= data@.map_values(|b: u8| b ^ m));
    }
    r
}

/// Build a structure of `tree_size` leaves derived from the calldata (each
/// XORed with its index, the last one unchanged), and return its root, an
/// inclusion proof for the last leaf, and the size, hex encoded.
#[verifier::loop_isolation(false)]
pub fn generate_root_with_proof(calldata_bytes: &[u8], tree_size: u64) -> (r: Result<
    MMRResult,
    MmrError,
>)
    requires
        66 * (tree_size as int) + 66 <= usize::MAX as int,
    ensures
        ({
            let lv = leaves_of(calldata_bytes@, tree_size as nat);
            let nodes = nodes_of(lv);
            let last = nodes_of(lv.take(tree_size as int - 1)).len();
            match r {
                Ok(res) => tree_size > 0 && res.mmr_size as nat == nodes.len()
                    && res.leaf_positions@.len() == 1 && res.leaf_positions@[0] as nat == last
                    && res.root@ == seq!['0', 'x'] + hex_str(root_spec(nodes)) && ({
                    let items = gen_spec(nodes, last);
                    items is Some && res.proof@.len() == items->Some_0.len() && forall|i: int|
                        0 <= i < res.proof@.len() ==> res.proof@[i]@ == seq!['0', 'x'] + hex_str(
                            #[trigger] items->Some_0[i],
                        )
                }),
                Err(MmrError::EmptyStructure) => tree_size == 0,
                Err(MmrError::UnknownPosition) => tree_size > 0 && gen_spec(nodes, last) is None,
                Err(_) => false,
            }
        }),
{
    if tree_size == 0 {
        return Err(MmrError::EmptyStructure);
    }
    let ghost lv_full = leaves_of(calldata_bytes@, tree_size as nat);
    let mut engine = Mmr::new();
    let mut i: u64 = 0;
    let mut last_pos: u64 = 0;
    proof {
        assert(engine.leaves@ =~= lv_full.take(0));
    }
    while i < tree_size
        invariant
            i <= tree_size,
            engine.wf(),
            engine.leaves@ == lv_full.take(i as int),
            engine.nodes@.len() <= 65 * (i as int),
            i > 0 ==> engine.nodes@.len() >= 1,
            i == tree_size ==> last_pos as nat == nodes_of(
                lv_full.take(tree_size as int - 1),
            ).len() && (last_pos as nat) < engine.nodes@.len() && pos_height(last_pos as nat)
                == 0,
        decreases tree_size - i,
    {
        let tx: Vec<u8>;
        if i + 1 != tree_size {
            let m: u8 = (i % 256) as u8;
            tx = xor_bytes(calldata_bytes, m);
            proof {
                assert(m == ((i as nat) % 256) as u8);
                assert(tx@ =~= payload_of(calldata_bytes@, i as nat, tree_size as nat));
            }
        } else {
            tx = copy_slice(calldata_bytes);
        }
        proof {
            assert(tx@ == payload_of(calldata_bytes@, i as nat, tree_size as nat));
        }
        let leaf = hash_leaf(tx.as_slice());
        proof {
            assert(leaf@ == lv_full[i as int]);
        }
        let ghost before = engine;
        let pos = engine.push(leaf);
        if i + 1 == tree_size {
            last_pos = pos;
            proof {
                assert(before.leaves@ == lv_full.take(tree_size as int - 1));
                assert(pos_height(before.nodes@.len() as nat) == 0);
            }
        }
        proof {
            assert(engine.leaves@ =~= lv_full.take(i as int + 1));
        }
        i = i + 1;
    }
    proof {
        assert(engine.leaves@ =~= lv_full);
    }
    let root_digest = match engine.root() {
        Ok(d) => d,
        Err(e) => {
            proof {
                assert(false);
            }
            return Err(e);
        },
    };
    let root_hex = bytes_to_hex(root_digest.as_slice());
    let prf = match engine.gen_proof(last_pos) {
        Ok(p) => p,
        Err(e) => {
            proof {
                assert(e == MmrError::UnknownPosition);
            }
            return Err(MmrError::UnknownPosition);
        },
    };
    let proof_hex = bytes_to_hex_proof(&prf.items);
    let mut lp: Vec<u64> = Vec::new();
    lp.push(last_pos);
    Ok(MMRResult { root: root_hex, proof: proof_hex, mmr_size: prf.mmr_size, leaf_positions: lp })
}

/// Verify an inclusion proof carried in its transport form: decode the hex
/// fields, hash the payload to its leaf digest, and replay the walk that the
/// position and size dictate against the claimed root.
#[verifier::loop_isolation(false)]
pub fn verify_proof(
    root_hex: &str,
    proof_hex: Vec<String>,
    mmr_size: u64,
    leaf_position: u64,
    calldata_bytes: &[u8],
) -> (r: Result<bool, MmrError>)
    ensures
        ({
            let rootok = hex_ok(strip0x(root_hex@));
            let itemsok = forall|i: int|
                0 <= i < proof_hex@.len() ==> hex_ok(strip0x(#[trigger] proof_hex@[i]@));
            let ditems = Seq::new(
                proof_hex@.len(),
                |i: int| hex_bytes(strip0x(proof_hex@[i]@)),
            );
            let rp = replay_spec(
                ditems,
                mmr_size as nat,
                leaf_position as nat,
                leaf_digest_of(calldata_bytes@),
            );
            match r {
                Ok(b) => rootok && itemsok && rp is Some && (b <==> rp->Some_0 == hex_bytes(
                    strip0x(root_hex@),
                )),
                Err(MmrError::EncodingError) => !(rootok && itemsok),
                Err(MmrError::MalformedProof) => rootok && itemsok && rp is None,
                Err(_) => false,
            }
        }),
{
    let root = match decode_hex_field(root_hex) {
        Ok(v) => v,
        Err(_) => {
            return Err(MmrError::EncodingError);
        },
    };
    let mut items: Vec<Vec<u8>> = Vec::new();
    let mut i: usize = 0;
    while i < proof_hex.len()
        invariant
            i <= proof_hex@.len(),
            items@.len() == i,
            forall|k: int| 0 <= k < i ==> hex_ok(strip0x(#[trigger] proof_hex@[k]@)),
            forall|k: int| 0 <= k < i ==> dv(items@)[k] == hex_bytes(strip0x(proof_hex@[k]@)),
        decreases proof_hex@.len() - i,
    {
        match decode_hex_field(proof_hex[i].as_str()) {
            Ok(v) => {
                let ghost before = dv(items@);
                items.push(v);
                proof {
                    assert(dv(items@) =~= before.push(hex_bytes(strip0x(proof_hex@[i as int]@))));
                }
            },
            Err(_) => {
                return Err(MmrError::EncodingError);
            },
        }
        i = i + 1;
    }
    let leaf = hash_leaf(calldata_bytes);
    proof {
        assert(dv(items@) =~= Seq::new(
            proof_hex@.len(),
            |k: int| hex_bytes(strip0x(proof_hex@[k]@)),
        ));
    }
    match verify_inclusion(&root, &items, mmr_size, leaf_position, &leaf) {
        Ok(b) => Ok(b),
        Err(_) => Err(MmrError::MalformedProof),
    }
}

} // verus!
