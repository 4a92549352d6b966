use vstd::prelude::*;

use crate::errors::MmrError;
use crate::hasher::{merge_of, KeccakMerge};
use crate::index::{
    lemma_hgt1_lower, lemma_peaks_range, lemma_pos_height_succ, lemma_pw2_64, lemma_pw2_mono,
    lemma_pw2_pos, lemma_pw2_vals, peaks_spec, peaks_u, pos_height, pos_height_u, pw2, pw2_u64,
    to_nats,
};

verus! {

/// The per-element views of a table of digest vectors.
pub open spec fn dv(s: Seq<Vec<u8>>) -> Seq<Seq<u8>> {
    s.map_values(|v: Vec<u8>| v@)
}

/// One merge cascade after a new node lands on top of the table: while the
/// next position is an internal node, merge the roots of the two subtrees
/// under it and append the parent, left child hashed before right child.
pub open spec fn cascade(nodes: Seq<Seq<u8>>, height: nat, fuel: nat) -> Seq<Seq<u8>>
    decreases fuel,
{
    if fuel == 0 || nodes.len() < 2 * pw2(height) || pos_height(nodes.len()) <= height {
        nodes
    } else {
        let left = nodes[nodes.len() - 2 * pw2(height)];
        let right = nodes[nodes.len() - 1];
        cascade(nodes.push(merge_of(left, right)), (height + 1) as nat, (fuel - 1) as nat)
    }
}

/// The node table after one leaf digest is appended and merged up.
pub open spec fn push_spec(nodes: Seq<Seq<u8>>, leaf: Seq<u8>) -> Seq<Seq<u8>> {
    cascade(nodes.push(leaf), 0, 64)
}

/// The node table committed by a sequence of leaf digests.
pub open spec fn nodes_of(leaves: Seq<Seq<u8>>) -> Seq<Seq<u8>>
    decreases leaves.len(),
{
    if leaves.len() == 0 {
        Seq::empty()
    } else {
        push_spec(nodes_of(leaves.drop_last()), leaves.last())
    }
}

/// Bagging: fold a non-empty sequence of peak digests into one digest, from
/// the shortest mountain back to the tallest; at each step the bag of the
/// right-hand side is the left input of the merge.
pub open spec fn bag_rl(s: Seq<Seq<u8>>) -> Seq<u8>
    decreases s.len(),
{
    if s.len() <= 1 {
        s[0]
    } else {
        merge_of(bag_rl(s.drop_first()), s[0])
    }
}

/// The digests standing at the peak positions of a node table.
pub open spec fn peak_digests(nodes: Seq<Seq<u8>>) -> Seq<Seq<u8>> {
    peaks_spec(nodes.len()).map_values(|p: nat| nodes[p as int])
}

/// The committed root of a non-empty node table: its bagged peaks.
pub open spec fn root_spec(nodes: Seq<Seq<u8>>) -> Seq<u8> {
    bag_rl(peak_digests(nodes))
}

/// Copy a digest.
pub fn copy_bytes(v: &Vec<u8>) -> (r: Vec<u8>)
    ensures
        r@ == v@,
{
    let mut r: Vec<u8> = Vec::new();
    let mut i: usize = 0;
    while i < v.len()
        invariant
            i <= v@.len(),
            r@ == v@.subrange(0, i as int),
        decreases v@.len() - i,
    {
        r.push(v[i]);
        i = i + 1;
    }
    proof {
        assert(r@ =~= v@);
    }
    r
}

/// Bag a non-empty list of peak digests, right to left.
pub fn bag_digests(ds: &Vec<Vec<u8>>) -> (r: Vec<u8>)
    requires
        ds@.len() >= 1,
    ensures
        r@ == bag_rl(dv(ds@)),
{
    let mut i: usize = ds.len() - 1;
    let mut acc = copy_bytes(&ds[i]);
    proof {
        assert(dv(ds@).skip(i as int) =~= seq![ds@[i as int]@]);
    }
    while i > 0
        invariant
            i < ds@.len(),
            acc@ == bag_rl(dv(ds@).skip(i as int)),
        decreases i,
    {
        i = i - 1;
        acc = KeccakMerge::merge(&acc, &ds[i]);
        proof {
            let s = dv(ds@).skip(i as int);
            assert(s.len() >= 2);
            assert(s.drop_first() =~= dv(ds@).skip(i + 1));
            assert(s[0] == ds@[i as int]@);
        }
    }
    proof {
        assert(dv(ds@).skip(0) =~= dv(ds@));
    }
    acc
}

/// The cascade only appends: the given table is a prefix of the result, and
/// at most `fuel` nodes are added.
pub proof fn lemma_cascade_prefix(nodes: Seq<Seq<u8>>, height: nat, fuel: nat)
    ensures
        cascade(nodes, height, fuel).len() >= nodes.len(),
        cascade(nodes, height, fuel).len() <= nodes.len() + fuel,
        cascade(nodes, height, fuel).subrange(0, nodes.len() as int) == nodes,
    decreases fuel,
{
    if !(fuel == 0 || nodes.len() < 2 * pw2(height) || pos_height(nodes.len()) <= height) {
        let left = nodes[nodes.len() - 2 * pw2(height)];
        let right = nodes[nodes.len() - 1];
        let bigger = nodes.push(merge_of(left, right));
        lemma_cascade_prefix(bigger, (height + 1) as nat, (fuel - 1) as nat);
        let all = cascade(nodes, height, fuel);
        assert(all.subrange(0, bigger.len() as int) == bigger);
        assert(all.subrange(0, nodes.len() as int) =~= nodes);
    } else {
        assert(cascade(nodes, height, fuel).subrange(0, nodes.len() as int) =~= nodes);
    }
}

/// An append-only Merkle Mountain Range engine over Keccak-256 digests.
///
/// Every node ever created keeps its position and digest for the lifetime of
/// the engine; a push only appends.
pub struct Mmr {
    /// Digest of every node created so far, indexed by position.
    pub nodes: Vec<Vec<u8>>,
    /// The leaf digests pushed so far, in order of insertion.
    pub leaves: Ghost<Seq<Seq<u8>>>,
}

impl Mmr {
    /// The engine is exactly the table committed by its leaf sequence, and
    /// the next free position is a leaf position.
    pub open spec fn wf(self) -> bool {
        &&& dv(self.nodes@) == nodes_of(self.leaves@)
        &&& pos_height(self.nodes@.len() as nat) == 0
    }

    /// A fresh, empty structure.
    pub fn new() -> (r: Mmr)
        ensures
            r.wf(),
            r.leaves@ == Seq::<Seq<u8>>::empty(),
            r.nodes@.len() == 0,
    {
        let r = Mmr { nodes: Vec::new(), leaves: Ghost(Seq::empty()) };
        proof {
            assert(dv(r.nodes@) =~= nodes_of(r.leaves@));
            assert(pos_height(0) == 0);
        }
        r
    }

    /// Total number of nodes ever created (leaves and internal nodes).
    pub fn mmr_size(&self) -> (r: u64)
        ensures
            r as nat == self.nodes@.len(),
    {
        self.nodes.len() as u64
    }

    /// Digest of the node at a position, if one was created there.
    pub fn get(&self, pos: u64) -> (r: Result<Vec<u8>, MmrError>)
        ensures
            match r {
                Ok(d) => pos < self.nodes@.len() && d@ == dv(self.nodes@)[pos as int],
                Err(e) => e == MmrError::UnknownPosition && pos >= self.nodes@.len(),
            },
    {
        if pos >= self.nodes.len() as u64 {
            Err(MmrError::UnknownPosition)
        } else {
            Ok(copy_bytes(&self.nodes[pos as usize]))
        }
    }

    /// Append a leaf digest at the next position, then merge upward while the
    /// two mountains on top have equal height. Returns the leaf's position.
    pub fn push(&mut self, leaf: Vec<u8>) -> (r: u64)
        requires
            old(self).wf(),
            old(self).nodes@.len() + 66 <= usize::MAX,
        ensures
            final(self).wf(),
            final(self).leaves@ == old(self).leaves@.push(leaf@),
            dv(final(self).nodes@) == push_spec(dv(old(self).nodes@), leaf@),
            r as nat == old(self).nodes@.len(),
            dv(final(self).nodes@).subrange(0, old(self).nodes@.len() as int) == dv(
                old(self).nodes@,
            ),
            old(self).nodes@.len() < final(self).nodes@.len() <= old(self).nodes@.len() + 65,
    {
        let pos_ret = self.nodes.len() as u64;
        let ghost base = dv(old(self).nodes@);
        let ghost nodes0 = base.push(leaf@);
        self.nodes.push(leaf);
        self.leaves = Ghost(self.leaves@.push(nodes0.last()));
        proof {
            assert(dv(self.nodes@) =~= nodes0);
            lemma_pw2_vals();
        }
        let mut height: u32 = 0;
        while pos_height_u(self.nodes.len() as u64) > height
            invariant
                old(self).nodes@.len() + 66 <= usize::MAX,
                nodes0.len() == old(self).nodes@.len() + 1,
                height <= 63,
                nodes0.len() <= self.nodes@.len() == nodes0.len() + height,
                self.nodes@.len() < u64::MAX,
                pos_height((self.nodes@.len() - 1) as nat) == height as nat,
                cascade(nodes0, 0, 64) == cascade(
                    dv(self.nodes@),
                    height as nat,
                    (64 - height) as nat,
                ),
                self.leaves@ == old(self).leaves@.push(nodes0.last()),
            decreases 64 - height,
        {
            let ghost prev = dv(self.nodes@);
            let len = self.nodes.len();
            proof {
                // Bound the height: a node of that height needs room below it.
                lemma_hgt1_lower((len + 1) as nat);
                let h = pos_height(len as nat);
                assert(h > height);
                lemma_pw2_mono((height + 2) as nat, (h + 1) as nat);
                lemma_pw2_64();
                if height >= 63 {
                    lemma_pw2_mono(65, (height + 2) as nat);
                    assert(false);
                }
                assert(len >= pw2((height + 2) as nat) - 2);
                lemma_pw2_mono((height + 1) as nat, (height + 2) as nat);
                lemma_pw2_pos((height + 1) as nat);
                assert(2 * pw2((height + 1) as nat) <= pw2((height + 2) as nat));
                assert(len as nat >= 2 * pw2((height) as nat));
            }
            let sib_off = pw2_u64(height + 1);
            proof {
                assert(sib_off as nat == 2 * pw2(height as nat));
                assert(sib_off as nat <= len as nat);
            }
            let li = len - (sib_off as usize);
            let parent = KeccakMerge::merge(&self.nodes[li], &self.nodes[len - 1]);
            let ghost pview = parent@;
            self.nodes.push(parent);
            height = height + 1;
            proof {
                assert(dv(self.nodes@) =~= prev.push(pview));
                // The new top node is one level higher than the one below it.
                lemma_pos_height_succ((len - 1) as nat);
                assert(pos_height(len as nat) == height as nat);
                // The cascade takes exactly this step.
                assert(cascade(prev, (height - 1) as nat, (64 - (height - 1)) as nat) == cascade(
                    dv(self.nodes@),
                    height as nat,
                    (64 - height) as nat,
                ));
            }
        }
        proof {
            // The loop has stopped: the next position is a leaf again.
            let len = self.nodes@.len();
            assert(len >= 1);
            lemma_pos_height_succ((len - 1) as nat);
            assert(pos_height(len as nat) == 0);
            // The cascade is finished.
            assert(cascade(dv(self.nodes@), height as nat, (64 - height) as nat) == dv(
                self.nodes@,
            ));
            assert(dv(self.nodes@) == push_spec(base, nodes0.last()));
            // The committed table of the new leaf sequence is this table.
            let lv = self.leaves@;
            assert(lv.drop_last() =~= old(self).leaves@);
            assert(nodes_of(lv) == push_spec(nodes_of(old(self).leaves@), nodes0.last()));
            lemma_cascade_prefix(nodes0, 0, 64);
            assert(dv(self.nodes@).subrange(0, nodes0.len() as int) == nodes0);
            assert(dv(self.nodes@).subrange(0, base.len() as int) =~= base);
        }
        pos_ret
    }

    /// The committed root: the peaks of the current structure, bagged.
    /// An empty structure has no root.
    pub fn root(&self) -> (r: Result<Vec<u8>, MmrError>)
        ensures
            match r {
                Ok(d) => self.nodes@.len() > 0 && d@ == root_spec(dv(self.nodes@)),
                Err(e) => e == MmrError::EmptyStructure && self.nodes@.len() == 0,
            },
    {
        let size = self.nodes.len();
        if size == 0 {
            return Err(MmrError::EmptyStructure);
        }
        proof {
            lemma_peaks_range(size as nat);
        }
        let peak_pos = peaks_u(size as u64);
        let ghost pds = peak_digests(dv(self.nodes@));
        let mut ds: Vec<Vec<u8>> = Vec::new();
        let mut i: usize = 0;
        proof {
            assert(to_nats(peak_pos@).len() == peaks_spec(size as nat).len());
        }
        while i < peak_pos.len()
            invariant
                i <= peak_pos@.len(),
                size as nat == self.nodes@.len(),
                to_nats(peak_pos@) == peaks_spec(self.nodes@.len() as nat),
                self.nodes@.len() >= 1,
                peaks_spec(self.nodes@.len() as nat).len() >= 1,
                forall|k: int|
                    0 <= k < peaks_spec(self.nodes@.len() as nat).len() ==> #[trigger] peaks_spec(
                        self.nodes@.len() as nat,
                    )[k] < self.nodes@.len(),
                dv(ds@) == peak_digests(dv(self.nodes@)).subrange(0, i as int),
            decreases peak_pos@.len() - i,
    {
            proof {
                assert(to_nats(peak_pos@)[i as int] == peak_pos@[i as int] as nat);
                assert((peak_pos@[i as int] as nat) < self.nodes@.len());
            }
            let ghost before = ds@;
            let p = peak_pos[i];
            let pu = p as usize;
            proof {
                assert((p as nat) < self.nodes@.len());
                assert(self.nodes@.len() == size as nat);
                assert(pu as int == p as int);
            }
            let d = copy_bytes(&self.nodes[pu]);
            let ghost dview = d@;
            proof {
                assert(dview == self.nodes@[pu as int]@);
                assert(dv(self.nodes@)[p as int] == self.nodes@[p as int]@);
                assert(dview == dv(self.nodes@)[p as int]);
            }
            ds.push(d);
            proof {
                assert(ds@ == before.push(d));
                assert(forall|k: int| 0 <= k < before.len() ==> ds@[k] == before[k]);
                assert(dv(ds@) =~= dv(before).push(dview));
                assert(peaks_spec(self.nodes@.len() as nat)[i as int] == p as nat);
                assert(peak_digests(dv(self.nodes@))[i as int] == dv(self.nodes@)[p as int]);
                assert(dv(ds@) =~= peak_digests(dv(self.nodes@)).subrange(0, i + 1));
            }
            i = i + 1;
        }
        proof {
            assert(dv(ds@) =~= peak_digests(dv(self.nodes@)));
        }
        Ok(bag_digests(&ds))
    }
}

/// Determinism: two engines that saw the same leaf digests hold the same
/// node table, and so commit to the same root, in whatever runs they grew.
pub proof fn lemma_root_deterministic(a: Mmr, b: Mmr)
    requires
        a.wf(),
        b.wf(),
        a.leaves@ == b.leaves@,
    ensures
        dv(a.nodes@) == dv(b.nodes@),
        root_spec(dv(a.nodes@)) == root_spec(dv(b.nodes@)),
{
}

/// Append-only stability: committing one more leaf only appends to the node
/// table; every position assigned before keeps its digest unchanged.
pub proof fn lemma_append_only(leaves: Seq<Seq<u8>>, extra: Seq<u8>)
    ensures
        nodes_of(leaves.push(extra)).len() > nodes_of(leaves).len(),
        nodes_of(leaves.push(extra)).subrange(0, nodes_of(leaves).len() as int) == nodes_of(
            leaves,
        ),
{
    let l2 = leaves.push(extra);
    assert(l2.drop_last() =~= leaves);
    assert(nodes_of(l2) == push_spec(nodes_of(leaves), extra));
    let base = nodes_of(leaves).push(extra);
    lemma_cascade_prefix(base, 0, 64);
    assert(nodes_of(l2).subrange(0, base.len() as int) == base);
    assert(nodes_of(l2).subrange(0, nodes_of(leaves).len() as int) =~= nodes_of(leaves));
}

} // verus!
