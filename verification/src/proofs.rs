use vstd::prelude::*;

use crate::engine::{bag_digests, bag_rl, copy_bytes, dv, peak_digests, root_spec, Mmr};
use crate::errors::MmrError;
use crate::hasher::{merge_of, KeccakMerge};
use crate::index::{
    lemma_first_ge_props, lemma_peaks_range, lemma_pw2_pos, peaks_spec, pos_height, pos_height_u,
    peaks_u, pw2, pw2_u64, to_nats,
};

verus! {

/// An inclusion proof: the size of the structure it was generated against,
/// and the sibling digests of the walk, in the order they are consumed.
#[derive(Debug)]
pub struct MerkleProof {
    pub mmr_size: u64,
    pub items: Vec<Vec<u8>>,
}

/// The sibling digests collected while walking from position `cur` (already
/// at `height`) up to the peak at `peak`; None when the walk does not fit.
pub open spec fn climb_gen(nodes: Seq<Seq<u8>>, cur: nat, height: nat, peak: nat) -> Option<
    Seq<Seq<u8>>,
>
    decreases peak - cur,
        when cur <= peak
{
    if cur == peak {
        Some(Seq::empty())
    } else if height >= 64 {
        None
    } else if pos_height((cur + 1) as nat) > height {
        // cur is a right child; its sibling is the left subtree root.
        if cur + 1 >= 2 * pw2(height) {
            let sib = (cur - (2 * pw2(height) - 1)) as nat;
            match climb_gen(nodes, (cur + 1) as nat, (height + 1) as nat, peak) {
                Some(rest) => Some(seq![nodes[sib as int]] + rest),
                None => None,
            }
        } else {
            None
        }
    } else {
        // cur is a left child; its sibling is the right subtree root.
        let step = 2 * pw2(height);
        if step >= 1 && cur + step <= peak {
            let sib = (cur + step - 1) as nat;
            match climb_gen(nodes, (cur + step) as nat, (height + 1) as nat, peak) {
                Some(rest) => Some(seq![nodes[sib as int]] + rest),
                None => None,
            }
        } else {
            None
        }
    }
}

/// The proof items for the leaf at `pos` of the node table `nodes`: the
/// peaks left of its mountain, the siblings of its walk, and the bag of the
/// peaks right of its mountain (one item, absent when there are none).
pub open spec fn gen_spec(nodes: Seq<Seq<u8>>, pos: nat) -> Option<Seq<Seq<u8>>> {
    let pks = peaks_spec(nodes.len());
    let j = crate::index::first_ge(pks, pos);
    if !(0 <= j < pks.len()) {
        None
    } else {
        match climb_gen(nodes, pos, 0, pks[j]) {
            None => None,
            Some(sibs) => {
                let left = pks.take(j).map_values(|p: nat| nodes[p as int]);
                let rhs = pks.skip(j + 1).map_values(|p: nat| nodes[p as int]);
                if rhs.len() == 0 {
                    Some(left + sibs)
                } else if rhs.len() == 1 {
                    Some(left + sibs + rhs)
                } else {
                    Some(left + sibs + seq![bag_rl(rhs)])
                }
            },
        }
    }
}

/// Replay of the walk on the verifier's side: from the leaf digest at `cur`,
/// consume one sibling per step, merging on the side the position dictates,
/// until the peak is reached. Returns the recomputed peak digest and the
/// items left over; None when the items run out or the walk does not fit.
pub open spec fn climb_ver(
    cur: nat,
    height: nat,
    d: Seq<u8>,
    items: Seq<Seq<u8>>,
    peak: nat,
) -> Option<(Seq<u8>, Seq<Seq<u8>>)>
    decreases peak - cur,
        when cur <= peak
{
    if cur == peak {
        Some((d, items))
    } else if height >= 64 || items.len() == 0 {
        None
    } else {
        let s = items[0];
        let rest = items.drop_first();
        if pos_height((cur + 1) as nat) > height {
            climb_ver((cur + 1) as nat, (height + 1) as nat, merge_of(s, d), rest, peak)
        } else {
            let step = 2 * pw2(height);
            if step >= 1 && cur + step <= peak {
                climb_ver((cur + step) as nat, (height + 1) as nat, merge_of(d, s), rest, peak)
            } else {
                None
            }
        }
    }
}

/// The root a proof recomputes for the leaf digest `leaf` at position `pos`
/// of a structure of `size` nodes; None exactly when the item list does not
/// fit the walk that `pos` and `size` dictate.
pub open spec fn replay_spec(items: Seq<Seq<u8>>, size: nat, pos: nat, leaf: Seq<u8>) -> Option<
    Seq<u8>,
> {
    let pks = peaks_spec(size);
    let j = crate::index::first_ge(pks, pos);
    if !(pos < size) || pos_height(pos) != 0 || !(0 <= j < pks.len()) || items.len() < j {
        None
    } else {
        match climb_ver(pos, 0, leaf, items.skip(j), pks[j]) {
            None => None,
            Some((pk, rem)) => {
                let left = items.take(j);
                if j == pks.len() - 1 {
                    if rem.len() == 0 {
                        Some(bag_rl(left.push(pk)))
                    } else {
                        None
                    }
                } else {
                    if rem.len() == 1 {
                        Some(bag_rl(left.push(pk).push(rem[0])))
                    } else {
                        None
                    }
                }
            },
        }
    }
}

/// What it means for a proof to verify: its replayed root is the claimed one.
pub open spec fn verify_spec(
    root: Seq<u8>,
    items: Seq<Seq<u8>>,
    size: nat,
    pos: nat,
    leaf: Seq<u8>,
) -> bool {
    replay_spec(items, size, pos, leaf) == Some(root)
}

/// Proof soundness: a proof that verifies replays, by the walk derived from
/// the position and size alone, to exactly the claimed root; two different
/// roots can never both verify with the same proof, position and payload.
pub proof fn lemma_proof_soundness(
    root: Seq<u8>,
    other: Seq<u8>,
    items: Seq<Seq<u8>>,
    size: nat,
    pos: nat,
    leaf: Seq<u8>,
)
    requires
        verify_spec(root, items, size, pos, leaf),
    ensures
        replay_spec(items, size, pos, leaf) == Some(root),
        verify_spec(other, items, size, pos, leaf) ==> other == root,
{
}

/// Round trip on a one-node structure: for every leaf digest, the proof the
/// generator produces for its only leaf (no items) replays to exactly the
/// structure's root.
pub proof fn lemma_round_trip_single_leaf(nodes: Seq<Seq<u8>>)
    requires
        nodes.len() == 1,
    ensures
        gen_spec(nodes, 0) == Some(Seq::<Seq<u8>>::empty()),
        replay_spec(Seq::empty(), 1, 0, nodes[0]) == Some(root_spec(nodes)),
{
    crate::index::lemma_pw2_vals();
    let pks = peaks_spec(1);
    assert(crate::index::max_tree_from(1, 1) == 1);
    assert(pks =~= seq![0nat] + crate::index::peaks_from(1, 0));
    assert(pks =~= seq![0nat]);
    assert(crate::index::first_ge(pks, 0) == 0);
    assert(climb_gen(nodes, 0, 0, pks[0]) == Some(Seq::<Seq<u8>>::empty()));
    let left = pks.take(0).map_values(|p: nat| nodes[p as int]);
    let rhs = pks.skip(1).map_values(|p: nat| nodes[p as int]);
    assert(rhs.len() == 0);
    assert(left + Seq::<Seq<u8>>::empty() =~= Seq::<Seq<u8>>::empty());
    assert(crate::index::hgt1(1nat) == 0);
    let items = Seq::<Seq<u8>>::empty();
    assert(items.skip(0) =~= items);
    assert(climb_ver(0, 0, nodes[0], items, pks[0]) == Some((nodes[0], items)));
    assert(items.take(0).push(nodes[0]) =~= seq![nodes[0]]);
    assert(bag_rl(seq![nodes[0]]) == nodes[0]);
    assert(peak_digests(nodes) =~= seq![nodes[0]]);
}

/// Find the index of the mountain whose peak is at or past pos.
#[verifier::loop_isolation(false)]
fn find_peak_index(pks: &Vec<u64>, pos: u64) -> (j: usize)
    requires
        pks@.len() >= 1,
        (to_nats(pks@).last()) >= pos as nat,
    ensures
        j as int == crate::index::first_ge(to_nats(pks@), pos as nat),
        j < pks@.len(),
        pks@[j as int] >= pos,
{
    proof {
        lemma_first_ge_props(to_nats(pks@), pos as nat);
    }
    let ghost fg = crate::index::first_ge(to_nats(pks@), pos as nat);
    let n = pks.len();
    let mut j: usize = 0;
    while pks[j] < pos
        invariant
            0 <= j as int <= fg,
        decreases pks@.len() - j,
    {
        proof {
            assert(to_nats(pks@)[j as int] < pos as nat);
            assert(j as int != fg);
            assert((j as int) < fg);
            assert(fg < n as int);
        }
        j = j + 1;
    }
    proof {
        assert(to_nats(pks@)[j as int] >= pos as nat);
        if (j as int) < fg {
            assert(to_nats(pks@)[j as int] < pos as nat);
        }
    }
    j
}

impl Mmr {
    /// Inclusion proof for the leaf at `pos` against the current structure:
    /// the peaks left of its mountain, the siblings of its walk upward, and
    /// the bag of the peaks right of its mountain.
    ///
    /// For a structure grown only by `push`, the walk stays inside the node
    /// table; the `UnknownPosition` arm guards the lookups of a walk over a
    /// table not grown that way.
    #[verifier::loop_isolation(false)]
    #[verifier::rlimit(60)]
    pub fn gen_proof(&self, pos: u64) -> (r: Result<MerkleProof, MmrError>)
        ensures
            match r {
                Ok(p) => (pos as nat) < self.nodes@.len() && pos_height(pos as nat) == 0
                    && p.mmr_size as nat == self.nodes@.len() && gen_spec(
                    dv(self.nodes@),
                    pos as nat,
                ) == Some(dv(p.items@)),
                Err(e) => {
                    ||| (e == MmrError::InvalidTarget && (pos as nat >= self.nodes@.len()
                        || pos_height(pos as nat) != 0))
                    ||| (e == MmrError::UnknownPosition && (pos as nat) < self.nodes@.len()
                        && pos_height(pos as nat) == 0 && gen_spec(
                        dv(self.nodes@),
                        pos as nat,
                    ) is None)
                },
            },
    {
        let ghost nv = dv(self.nodes@);
        let size = self.nodes.len();
        if pos >= size as u64 {
            return Err(MmrError::InvalidTarget);
        }
        if pos_height_u(pos) != 0 {
            return Err(MmrError::InvalidTarget);
        }
        proof {
            lemma_peaks_range(size as nat);
        }
        let pks = peaks_u(size as u64);
        let ghost gpks = peaks_spec(size as nat);
        let j = find_peak_index(&pks, pos);
        let peak = pks[j];
        proof {
            assert(gpks[j as int] == peak as nat);
            assert((peak as nat) < size as nat);
        }
        let mut cur: u64 = pos;
        let mut height: u32 = 0;
        let mut sibs: Vec<Vec<u8>> = Vec::new();
        while cur < peak
            invariant
                pos <= cur <= peak,
                (match climb_gen(nv, cur as nat, height as nat, peak as nat) {
                    Some(rest) => climb_gen(nv, pos as nat, 0, peak as nat) == Some(
                        dv(sibs@) + rest,
                    ),
                    None => climb_gen(nv, pos as nat, 0, peak as nat) is None,
                }),
            decreases peak - cur,
        {
            let ghost ocur = cur as nat;
            let ghost oh = height as nat;
            let ghost osibs = dv(sibs@);
            if height >= 64 {
                return Err(MmrError::UnknownPosition);
            }
            let nh = pos_height_u(cur + 1);
            let p2 = pw2_u64(height);
            proof {
                crate::index::lemma_pw2_64();
                crate::index::lemma_pw2_mono(height as nat, 63);
                lemma_pw2_pos(height as nat);
            }
            let sib_off = (p2 - 1) + p2;
            let sib: u64;
            if nh > height {
                if cur < sib_off {
                    return Err(MmrError::UnknownPosition);
                }
                sib = cur - sib_off;
                proof {
                    assert(sib as nat == (ocur - (2 * pw2(oh) - 1)) as nat);
                    assert((sib as nat) < nv.len());
                }
            } else {
                if sib_off >= peak - cur {
                    proof {
                        assert(ocur + 2 * pw2(oh) > peak as nat);
                    }
                    return Err(MmrError::UnknownPosition);
                }
                sib = cur + sib_off;
                proof {
                    assert((sib as nat) < nv.len());
                }
            }
            sibs.push(copy_bytes(&self.nodes[sib as usize]));
            proof {
                assert(dv(sibs@) =~= osibs.push(nv[sib as int]));
            }
            if nh > height {
                cur = cur + 1;
            } else {
                proof {
                    assert(ocur + 2 * pw2(oh) == cur + sib_off + 1);
                }
                cur = cur + sib_off + 1;
            }
            height = height + 1;
            proof {
                let stepped = climb_gen(nv, cur as nat, height as nat, peak as nat);
                match stepped {
                    Some(rest) => {
                        assert(climb_gen(nv, ocur, oh, peak as nat) == Some(
                            seq![nv[sib as int]] + rest,
                        ));
                        assert(osibs + (seq![nv[sib as int]] + rest) =~= dv(sibs@) + rest);
                    },
                    None => {
                        assert(climb_gen(nv, ocur, oh, peak as nat) is None);
                    },
                }
            }
        }
        let ghost gsibs = dv(sibs@);
        proof {
            assert(climb_gen(nv, pos as nat, 0, peak as nat) == Some(gsibs + Seq::empty()));
            assert(gsibs + Seq::<Seq<u8>>::empty() =~= gsibs);
        }
        // assemble: left peaks, then siblings, then the bagged right peaks.
        let klen = pks.len();
        let ghost leftmap = gpks.take(j as int).map_values(|p: nat| nv[p as int]);
        let ghost rhsmap = gpks.skip(j as int + 1).map_values(|p: nat| nv[p as int]);
        let mut items: Vec<Vec<u8>> = Vec::new();
        let mut i: usize = 0;
        while i < j
            invariant
                i <= j,
                dv(items@).len() == i as int,
                forall|k: int| 0 <= k < i ==> dv(items@)[k] == nv[gpks[k] as int],
            decreases j - i,
        {
            let ghost before = dv(items@);
            let p = pks[i];
            proof {
                assert(gpks[i as int] == p as nat);
                assert((p as nat) < nv.len());
            }
            items.push(copy_bytes(&self.nodes[p as usize]));
            proof {
                assert(dv(items@) =~= before.push(nv[p as int]));
            }
            i = i + 1;
        }
        proof {
            assert(dv(items@) =~= leftmap);
        }
        let mut k2: usize = 0;
        while k2 < sibs.len()
            invariant
                k2 <= sibs@.len(),
                dv(items@) == leftmap + gsibs.subrange(0, k2 as int),
            decreases sibs@.len() - k2,
        {
            let ghost before = dv(items@);
            items.push(copy_bytes(&sibs[k2]));
            proof {
                assert(dv(items@) =~= before.push(gsibs[k2 as int]));
                assert(before.push(gsibs[k2 as int]) =~= leftmap + gsibs.subrange(0, k2 + 1));
            }
            k2 = k2 + 1;
        }
        proof {
            assert(gsibs.subrange(0, gsibs.len() as int) =~= gsibs);
        }
        if j + 1 < klen {
            if j + 2 == klen {
                let ghost before = dv(items@);
                let p = pks[j + 1];
                proof {
                    assert(gpks[j as int + 1] == p as nat);
                    assert((p as nat) < nv.len());
                }
                items.push(copy_bytes(&self.nodes[p as usize]));
                proof {
                    assert(rhsmap.len() == 1);
                    assert(rhsmap[0] == nv[p as int]);
                    assert(dv(items@) =~= before.push(nv[p as int]));
                    assert(dv(items@) =~= leftmap + gsibs + rhsmap);
                }
            } else {
                let mut rhsv: Vec<Vec<u8>> = Vec::new();
                let mut m: usize = j + 1;
                while m < klen
                    invariant
                        j + 1 <= m <= klen,
                        dv(rhsv@).len() == m - (j + 1),
                        forall|k: int|
                            0 <= k < dv(rhsv@).len() ==> dv(rhsv@)[k] == nv[gpks[j + 1 + k] as int],
                    decreases klen - m,
                {
                    let ghost before = dv(rhsv@);
                    let p = pks[m];
                    proof {
                        assert(gpks[m as int] == p as nat);
                        assert((p as nat) < nv.len());
                    }
                    rhsv.push(copy_bytes(&self.nodes[p as usize]));
                    proof {
                        assert(dv(rhsv@) =~= before.push(nv[p as int]));
                    }
                    m = m + 1;
                }
                proof {
                    assert(dv(rhsv@) =~= rhsmap);
                    assert(rhsmap.len() >= 2);
                }
                let ghost before = dv(items@);
                items.push(bag_digests(&rhsv));
                proof {
                    assert(dv(items@) =~= before.push(bag_rl(rhsmap)));
                    assert(dv(items@) =~= leftmap + gsibs + seq![bag_rl(rhsmap)]);
                }
            }
        } else {
            proof {
                assert(rhsmap.len() == 0);
                assert(dv(items@) =~= leftmap + gsibs);
            }
        }
        Ok(MerkleProof { mmr_size: size as u64, items })
    }
}

/// Verify an inclusion proof, decoded to raw digests: recompute the root
/// from the leaf digest by the walk that `pos` and `mmr_size` dictate,
/// consuming the proof items in order, and compare it with the claimed
/// root. Item lists that do not fit the walk are malformed, not false.
#[verifier::loop_isolation(false)]
pub fn verify_inclusion(
    root: &Vec<u8>,
    items: &Vec<Vec<u8>>,
    mmr_size: u64,
    pos: u64,
    leaf: &Vec<u8>,
) -> (r: Result<bool, MmrError>)
    ensures
        match r {
            Ok(b) => replay_spec(dv(items@), mmr_size as nat, pos as nat, leaf@) is Some && (b
                <==> replay_spec(dv(items@), mmr_size as nat, pos as nat, leaf@)->Some_0
                == root@),
            Err(e) => e == MmrError::MalformedProof && replay_spec(
                dv(items@),
                mmr_size as nat,
                pos as nat,
                leaf@,
            ) is None,
        },
{
    let ghost gitems = dv(items@);
    let ghost gsize = mmr_size as nat;
    let ghost gpos = pos as nat;
    if pos >= mmr_size {
        return Err(MmrError::MalformedProof);
    }
    if pos_height_u(pos) != 0 {
        return Err(MmrError::MalformedProof);
    }
    proof {
        lemma_peaks_range(gsize);
    }
    let pks = peaks_u(mmr_size);
    let ghost gpks = peaks_spec(gsize);
    let j = find_peak_index(&pks, pos);
    if items.len() < j {
        return Err(MmrError::MalformedProof);
    }
    let peak = pks[j];
    proof {
        assert(gpks[j as int] == peak as nat);
        assert((peak as nat) < gsize);
    }
    let mut cur: u64 = pos;
    let mut height: u32 = 0;
    let mut idx: usize = j;
    let mut d = copy_bytes(leaf);
    while cur < peak
        invariant
            pos <= cur <= peak,
            j <= idx <= items@.len(),
            climb_ver(gpos, 0, leaf@, gitems.skip(j as int), peak as nat) == climb_ver(
                cur as nat,
                height as nat,
                d@,
                gitems.skip(idx as int),
                peak as nat,
            ),
        decreases peak - cur,
    {
        if height >= 64 {
            return Err(MmrError::MalformedProof);
        }
        if idx >= items.len() {
            proof {
                assert(gitems.skip(idx as int).len() == 0);
            }
            return Err(MmrError::MalformedProof);
        }
        let s = &items[idx];
        proof {
            assert(gitems.skip(idx as int)[0] == s@);
            assert(gitems.skip(idx as int).drop_first() =~= gitems.skip(idx as int + 1));
            lemma_pw2_pos(height as nat);
        }
        let nh = pos_height_u(cur + 1);
        if nh > height {
            let d2 = KeccakMerge::merge(s, &d);
            d = d2;
            cur = cur + 1;
        } else {
            let p2 = pw2_u64(height);
            proof {
                crate::index::lemma_pw2_64();
                crate::index::lemma_pw2_mono(height as nat, 63);
            }
            let sib_off = (p2 - 1) + p2;
            if sib_off >= peak - cur {
                proof {
                    assert((cur as nat) + 2 * pw2(height as nat) > peak as nat);
                }
                return Err(MmrError::MalformedProof);
            }
            let d2 = KeccakMerge::merge(&d, s);
            d = d2;
            proof {
                assert((cur as nat) + 2 * pw2(height as nat) == cur + sib_off + 1);
            }
            cur = cur + sib_off + 1;
        }
        idx = idx + 1;
        height = height + 1;
    }
    let ghost pk_d = d@;
    let ghost grem = gitems.skip(idx as int);
    proof {
        assert(climb_ver(gpos, 0, leaf@, gitems.skip(j as int), peak as nat) == Some(
            (pk_d, grem),
        ));
        assert(grem.len() == items@.len() - idx);
    }
    let rem: usize = items.len() - idx;
    let klen = pks.len();
    let mut ph: Vec<Vec<u8>> = Vec::new();
    let mut i: usize = 0;
    while i < j
        invariant
            i <= j,
            dv(ph@) == gitems.subrange(0, i as int),
        decreases j - i,
    {
        let ghost before = ph@;
        ph.push(copy_bytes(&items[i]));
        proof {
            assert(dv(ph@) =~= dv(before).push(gitems[i as int]));
            assert(dv(ph@) =~= gitems.subrange(0, i + 1));
        }
        i = i + 1;
    }
    proof {
        assert(gitems.subrange(0, j as int) == gitems.take(j as int));
    }
    ph.push(d);
    proof {
        assert(dv(ph@) =~= gitems.take(j as int).push(pk_d));
    }
    if j + 1 == klen {
        if rem != 0 {
            return Err(MmrError::MalformedProof);
        }
        let computed = bag_digests(&ph);
        proof {
            assert(replay_spec(gitems, gsize, gpos, leaf@) == Some(bag_rl(dv(ph@))));
        }
        Ok(eq_bytes(&computed, root))
    } else {
        if rem != 1 {
            return Err(MmrError::MalformedProof);
        }
        let ghost before_r = ph@;
        ph.push(copy_bytes(&items[idx]));
        proof {
            assert(grem[0] == gitems[idx as int]);
            assert(dv(ph@) =~= dv(before_r).push(gitems[idx as int]));
            assert(dv(ph@) =~= gitems.take(j as int).push(pk_d).push(grem[0]));
            assert(replay_spec(gitems, gsize, gpos, leaf@) == Some(bag_rl(dv(ph@))));
        }
        let computed = bag_digests(&ph);
        Ok(eq_bytes(&computed, root))
    }
}

/// Byte-for-byte digest comparison.
pub fn eq_bytes(a: &Vec<u8>, b: &Vec<u8>) -> (r: bool)
    ensures
        r <==> a@ == b@,
{
    if a.len() != b.len() {
        return false;
    }
    let mut i: usize = 0;
    while i < a.len()
        invariant
            a@.len() == b@.len(),
            i <= a@.len(),
            forall|k: int| 0 <= k < i ==> a@[k] == b@[k],
        decreases a@.len() - i,
    {
        if a[i] != b[i] {
            return false;
        }
        i = i + 1;
    }
    proof {
        assert(a@ =~= b@);
    }
    true
}

} // verus!
