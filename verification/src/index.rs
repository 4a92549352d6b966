use vstd::prelude::*;

verus! {

// ---------------------------------------------------------------------------
// Powers of two
// ---------------------------------------------------------------------------

/// 2 to the power k.
pub open spec fn pw2(k: nat) -> nat
    decreases k,
{
    if k == 0 {
        1
    } else {
        2 * pw2((k - 1) as nat)
    }
}

pub proof fn lemma_pw2_pos(k: nat)
    ensures
        pw2(k) >= 1,
    decreases k,
{
    if k > 0 {
        lemma_pw2_pos((k - 1) as nat);
    }
}

/// The two smallest powers, unfolded once and for all.
pub proof fn lemma_pw2_vals()
    ensures
        pw2(0) == 1,
        pw2(1) == 2,
        pw2(2) == 4,
{
    assert(pw2(0) == 1 && pw2(1) == 2 && pw2(2) == 4) by {
        reveal_with_fuel(pw2, 4);
    }
}

pub proof fn lemma_pw2_mono(a: nat, b: nat)
    requires
        a <= b,
    ensures
        pw2(a) <= pw2(b),
        a < b ==> 2 * pw2(a) <= pw2(b),
    decreases b,
{
    if a < b {
        lemma_pw2_mono(a, (b - 1) as nat);
        lemma_pw2_pos(a);
    }
}

proof fn lemma_pw2_16()
    ensures
        pw2(16) == 0x10000,
{
    assert(pw2(16) == 0x10000) by {
        reveal_with_fuel(pw2, 17);
    }
}

pub proof fn lemma_pw2_64()
    ensures
        pw2(64) == 0x10000000000000000,
        pw2(63) == 0x8000000000000000,
{
    lemma_pw2_16();
    assert(pw2(32) == pw2(16) * pw2(16)) by {
        lemma_pw2_adds(16, 16);
    }
    assert(pw2(64) == pw2(32) * pw2(32)) by {
        lemma_pw2_adds(32, 32);
    }
    assert(pw2(64) == 2 * pw2(63));
}

pub proof fn lemma_pw2_adds(a: nat, b: nat)
    ensures
        pw2((a + b) as nat) == pw2(a) * pw2(b),
    decreases a,
{
    lemma_pw2_vals();
    if a > 0 {
        lemma_pw2_adds((a - 1) as nat, b);
        let x = pw2((a - 1) as nat);
        let y = pw2(b);
        assert(pw2((a + b) as nat) == 2 * pw2((a - 1 + b) as nat));
        assert(pw2((a - 1 + b) as nat) == x * y);
        assert(2 * (x * y) == (2 * x) * y) by (nonlinear_arith);
        assert(pw2(a) == 2 * x);
        assert(pw2((a + b) as nat) == pw2(a) * pw2(b));
    } else {
        assert(pw2((a + b) as nat) == pw2(b));
        assert(pw2(a) * pw2(b) == pw2(b));
    }
}

// ---------------------------------------------------------------------------
// Bit length
// ---------------------------------------------------------------------------

/// Number of binary digits of x (0 for x == 0).
pub open spec fn bitlen(x: nat) -> nat
    decreases x,
{
    if x == 0 {
        0
    } else {
        1 + bitlen(x / 2)
    }
}

pub proof fn lemma_bitlen_bounds(x: nat)
    requires
        x >= 1,
    ensures
        bitlen(x) >= 1,
        pw2((bitlen(x) - 1) as nat) <= x < pw2(bitlen(x)),
        x >= 2 ==> bitlen(x) >= 2,
    decreases x,
{
    lemma_pw2_vals();
    if x == 1 {
        assert(bitlen(1nat) == 1 + bitlen(0nat));
    } else {
        lemma_bitlen_bounds(x / 2);
        let bh = bitlen(x / 2);
        assert(bitlen(x) == 1 + bh);
        assert(2 * (x / 2) <= x);
        assert(x <= 2 * (x / 2) + 1);
        assert(pw2((bitlen(x) - 1) as nat) == pw2(bh));
        assert(pw2(bh) == 2 * pw2((bh - 1) as nat));
        assert(pw2(bitlen(x)) == 2 * pw2(bh));
        assert(pw2((bh - 1) as nat) <= x / 2);
        assert(x / 2 < pw2(bh));
        assert(x < 2 * pw2(bh));
    }
}

pub proof fn lemma_bitlen_unique(x: nat, b: nat)
    requires
        x >= 1,
        b >= 1,
        pw2((b - 1) as nat) <= x < pw2(b),
    ensures
        bitlen(x) == b,
{
    lemma_bitlen_bounds(x);
    let bx = bitlen(x);
    if bx < b {
        lemma_pw2_mono(bx, (b - 1) as nat);
        assert(false);
    } else if bx > b {
        lemma_pw2_mono(b, (bx - 1) as nat);
        assert(false);
    }
}

// ---------------------------------------------------------------------------
// Height of a node position
// ---------------------------------------------------------------------------

/// Whether x is of the form 2^k - 1 (all binary digits set).
pub open spec fn all_ones(x: nat) -> bool {
    x + 1 == pw2(bitlen(x))
}

/// Height of the node whose one-based index is x: repeatedly jump to the
/// mirrored index inside the left subtree until an index of the form
/// 2^k - 1 remains; its tree has height k - 1.
pub open spec fn hgt1(x: nat) -> nat
    decreases x,
{
    if x <= 1 {
        0
    } else if all_ones(x) {
        (bitlen(x) - 1) as nat
    } else if 2 <= pw2((bitlen(x) - 1) as nat) && pw2((bitlen(x) - 1) as nat) - 1 < x {
        hgt1((x - (pw2((bitlen(x) - 1) as nat) - 1)) as nat)
    } else {
        0
    }
}

/// Height of the node at zero-based position p.
pub open spec fn pos_height(p: nat) -> nat {
    hgt1((p + 1) as nat)
}

/// The guard of hgt1's jump branch holds whenever x >= 2 and x is not
/// all ones, so the jump branch is the one taken there.
proof fn lemma_hgt1_jump(x: nat)
    requires
        x >= 2,
        !all_ones(x),
    ensures
        2 <= pw2((bitlen(x) - 1) as nat),
        pw2((bitlen(x) - 1) as nat) - 1 < x,
        1 <= ((x - (pw2((bitlen(x) - 1) as nat) - 1)) as nat),
        ((x - (pw2((bitlen(x) - 1) as nat) - 1)) as nat) < x,
        hgt1(x) == hgt1((x - (pw2((bitlen(x) - 1) as nat) - 1)) as nat),
{
    lemma_bitlen_bounds(x);
    lemma_pw2_mono(1, (bitlen(x) - 1) as nat);
}

/// The height of the successor position: one more, or a fresh leaf.
pub proof fn lemma_hgt1_succ(x: nat)
    requires
        x >= 1,
    ensures
        hgt1((x + 1) as nat) == hgt1(x) + 1 || hgt1((x + 1) as nat) == 0,
    decreases x,
{
    let b = bitlen(x);
    lemma_bitlen_bounds(x);
    if all_ones(x) {
        // x + 1 == 2^b: jumping from it lands on index 1, a leaf.
        lemma_pw2_mono(1, b);
        assert(pw2(b) <= x + 1 < pw2((b + 1) as nat)) by {
            lemma_pw2_mono(b, (b + 1) as nat);
        }
        lemma_bitlen_unique((x + 1) as nat, (b + 1) as nat);
        assert(!all_ones((x + 1) as nat));
        lemma_hgt1_jump((x + 1) as nat);
        assert((x + 1 - (pw2(b) - 1)) as nat == 1);
    } else {
        // bit length is unchanged by the step.
        assert(x + 1 < pw2(b));
        lemma_bitlen_unique((x + 1) as nat, b);
        lemma_hgt1_jump(x);
        let xj = (x - (pw2((b - 1) as nat) - 1)) as nat;
        if all_ones((x + 1) as nat) {
            // x + 1 == 2^b - 1, so the jump of x lands on 2^(b-1) - 1,
            // which is all ones of bit length b - 1.
            assert(x == pw2(b) - 2);
            assert(xj == pw2((b - 1) as nat) - 1);
            lemma_pw2_mono(1, (b - 1) as nat);
            if b >= 2 {
                lemma_pw2_mono((b - 2) as nat, (b - 1) as nat);
                lemma_pw2_pos((b - 2) as nat);
                lemma_bitlen_unique(xj, (b - 1) as nat);
                assert(all_ones(xj));
                assert(hgt1(xj) == (b - 2) as nat);
                assert(hgt1((x + 1) as nat) == (b - 1) as nat);
            } else {
                assert(false);
            }
        } else {
            lemma_hgt1_jump((x + 1) as nat);
            assert((x + 1 - (pw2((b - 1) as nat) - 1)) as nat == xj + 1);
            lemma_hgt1_succ(xj);
        }
    }
}

/// Successor height at zero-based positions.
pub proof fn lemma_pos_height_succ(p: nat)
    ensures
        pos_height((p + 1) as nat) == pos_height(p) + 1 || pos_height((p + 1) as nat) == 0,
{
    lemma_hgt1_succ((p + 1) as nat);
}

/// A node of height h needs at least 2^(h+1) - 1 positions below and at it.
pub proof fn lemma_hgt1_lower(x: nat)
    requires
        x >= 1,
    ensures
        x >= pw2((hgt1(x) + 1) as nat) - 1,
    decreases x,
{
    lemma_pw2_vals();
    if x == 1 {
        assert(hgt1(1nat) == 0);
    } else if all_ones(x) {
        lemma_bitlen_bounds(x);
        assert(hgt1(x) == (bitlen(x) - 1) as nat);
        assert((hgt1(x) + 1) as nat == bitlen(x));
        assert(x == pw2(bitlen(x)) - 1);
    } else {
        lemma_hgt1_jump(x);
        lemma_hgt1_lower((x - (pw2((bitlen(x) - 1) as nat) - 1)) as nat);
    }
}

// ---------------------------------------------------------------------------
// Peak positions
// ---------------------------------------------------------------------------

/// Largest value of the form 2^k - 1 reachable from t by doubling steps
/// while staying at or under n.
pub open spec fn max_tree_from(t: nat, n: nat) -> nat
    decreases n - t,
        when t <= n
{
    if 2 * t + 1 <= n {
        max_tree_from((2 * t + 1) as nat, n)
    } else {
        t
    }
}

pub proof fn lemma_max_tree_bounds(t: nat, n: nat)
    requires
        1 <= t <= n,
    ensures
        t <= max_tree_from(t, n) <= n,
    decreases n - t,
{
    if 2 * t + 1 <= n {
        lemma_max_tree_bounds((2 * t + 1) as nat, n);
    }
}

/// Peak positions of a range of `remaining` nodes starting at `offset`:
/// the greedy decomposition into maximal perfect subtrees, tallest first.
pub open spec fn peaks_from(offset: nat, remaining: nat) -> Seq<nat>
    decreases remaining,
{
    if remaining == 0 {
        Seq::empty()
    } else {
        let t = max_tree_from(1, remaining);
        if 1 <= t <= remaining {
            seq![(offset + t - 1) as nat] + peaks_from((offset + t) as nat, (remaining - t) as nat)
        } else {
            Seq::empty()
        }
    }
}

/// Peak positions of a structure of `size` nodes, tallest mountain first.
pub open spec fn peaks_spec(size: nat) -> Seq<nat> {
    peaks_from(0, size)
}

/// Every peak lies inside the range it was computed for, the peaks are
/// strictly increasing, and the last peak is the last position of the range.
pub proof fn lemma_peaks_from_range(offset: nat, remaining: nat)
    requires
        remaining >= 1,
    ensures
        peaks_from(offset, remaining).len() >= 1,
        forall|i: int|
            0 <= i < peaks_from(offset, remaining).len() ==> offset <= #[trigger] peaks_from(
                offset,
                remaining,
            )[i] < offset + remaining,
        peaks_from(offset, remaining).last() == (offset + remaining - 1) as nat,
    decreases remaining,
{
    let t = max_tree_from(1, remaining);
    lemma_max_tree_bounds(1, remaining);
    if remaining - t > 0 {
        lemma_peaks_from_range((offset + t) as nat, (remaining - t) as nat);
    }
}

pub proof fn lemma_peaks_range(size: nat)
    requires
        size >= 1,
    ensures
        peaks_spec(size).len() >= 1,
        forall|i: int| 0 <= i < peaks_spec(size).len() ==> #[trigger] peaks_spec(size)[i] < size,
        peaks_spec(size).last() == (size - 1) as nat,
{
    lemma_peaks_from_range(0, size);
}

// ---------------------------------------------------------------------------
// Executable mirrors
// ---------------------------------------------------------------------------

/// 2^k as a machine word.
pub fn pw2_u64(k: u32) -> (r: u64)
    requires
        k <= 63,
    ensures
        r as nat == pw2(k as nat),
        r >= 1,
{
    let mut r: u64 = 1;
    let mut i: u32 = 0;
    while i < k
        invariant
            i <= k <= 63,
            r as nat == pw2(i as nat),
        decreases k - i,
    {
        proof {
            lemma_pw2_mono((i + 1) as nat, 63);
            lemma_pw2_64();
        }
        r = r * 2;
        i = i + 1;
    }
    proof {
        lemma_pw2_pos(k as nat);
    }
    r
}

/// Bit length of x, together with 2^bitlen(x).
fn bitlen_u(x: u64) -> (r: (u32, u128))
    ensures
        r.0 as nat == bitlen(x as nat),
        r.1 as nat == pw2(r.0 as nat),
        r.0 <= 64,
        x >= 1 ==> r.0 >= 1,
{
    let mut b: u32 = 0;
    let mut p: u128 = 1;
    while p <= x as u128
        invariant
            p as nat == pw2(b as nat),
            b <= 64,
            b >= 1 ==> pw2((b - 1) as nat) <= x as nat,
        decreases 2 * (x as int) + 2 - p as int,
    {
        proof {
            lemma_pw2_64();
            lemma_pw2_pos(b as nat);
            if b >= 64 {
                lemma_pw2_mono(64, b as nat);
                assert(false);
            }
        }
        p = p * 2;
        b = b + 1;
    }
    proof {
        if x >= 1 {
            if b == 0 {
                assert(false);
            }
            lemma_bitlen_unique(x as nat, b as nat);
        }
    }
    (b, p)
}

/// Index of the first entry of s at or past v; s.len() where there is none.
pub open spec fn first_ge(s: Seq<nat>, v: nat) -> int
    decreases s.len(),
{
    if s.len() == 0 {
        0
    } else if s[0] >= v {
        0
    } else {
        1 + first_ge(s.drop_first(), v)
    }
}

pub proof fn lemma_first_ge_props(s: Seq<nat>, v: nat)
    requires
        s.len() >= 1,
        s.last() >= v,
    ensures
        0 <= first_ge(s, v) < s.len(),
        s[first_ge(s, v)] >= v,
        forall|m: int| 0 <= m < first_ge(s, v) ==> s[m] < v,
    decreases s.len(),
{
    if s[0] >= v {
    } else {
        let t = s.drop_first();
        assert(t.last() == s.last());
        lemma_first_ge_props(t, v);
        assert(forall|m: int| 1 <= m < first_ge(s, v) ==> s[m] == t[m - 1]);
    }
}

/// The values of a word sequence as mathematical integers.
pub open spec fn to_nats(s: Seq<u64>) -> Seq<nat> {
    s.map_values(|x: u64| x as nat)
}

/// Peak positions of a structure of `size` nodes, tallest mountain first.
pub fn peaks_u(size: u64) -> (r: Vec<u64>)
    ensures
        to_nats(r@) == peaks_spec(size as nat),
{
    let mut r: Vec<u64> = Vec::new();
    let mut offset: u64 = 0;
    let mut remaining: u64 = size;
    proof {
        assert(to_nats(r@) =~= Seq::<nat>::empty());
    }
    while remaining > 0
        invariant
            offset + remaining == size,
            peaks_spec(size as nat) == to_nats(r@) + peaks_from(offset as nat, remaining as nat),
        decreases remaining,
    {
        let mut t: u64 = 1;
        while t <= (remaining - 1) / 2
            invariant
                1 <= t <= remaining,
                remaining >= 1,
                max_tree_from(t as nat, remaining as nat) == max_tree_from(1, remaining as nat),
            decreases remaining - t,
        {
            assert(2 * t + 1 <= remaining);
            t = 2 * t + 1;
        }
        proof {
            assert(!(2 * (t as nat) + 1 <= remaining as nat)) by {
                if 2 * t + 1 <= remaining {
                    assert(t <= (remaining - 1) / 2);
                }
            }
            assert(max_tree_from(t as nat, remaining as nat) == t as nat);
            let ghost pk = peaks_from(offset as nat, remaining as nat);
            assert(pk == seq![(offset + t - 1) as nat] + peaks_from(
                (offset + t) as nat,
                (remaining - t) as nat,
            ));
        }
        let ghost r_old = r@;
        r.push(offset + t - 1);
        proof {
            assert(to_nats(r@) =~= to_nats(r_old).push((offset + t - 1) as nat));
            assert(to_nats(r_old) + peaks_from(offset as nat, remaining as nat) =~= to_nats(r@)
                + peaks_from((offset + t) as nat, (remaining - t) as nat));
        }
        offset = offset + t;
        remaining = remaining - t;
    }
    proof {
        assert(peaks_spec(size as nat) =~= to_nats(r@));
    }
    r
}

/// Height of the node at position pos in the shared numbering.
pub fn pos_height_u(pos: u64) -> (r: u32)
    requires
        pos < u64::MAX,
    ensures
        r as nat == pos_height(pos as nat),
        r <= 63,
{
    let mut x: u64 = pos + 1;
    loop
        invariant
            1 <= x <= pos + 1,
            hgt1(x as nat) == pos_height(pos as nat),
        decreases x,
    {
        let (b, p) = bitlen_u(x);
        proof {
            lemma_bitlen_bounds(x as nat);
        }
        if (x as u128) + 1 == p {
            // all ones: the height is the bit length less one.
            proof {
                lemma_pw2_64();
                if b >= 65 {
                    assert(false);
                }
                if x == 1 {
                    assert(b == 1);
                }
            }
            return b - 1;
        }
        // jump into the left subtree.
        proof {
            if x == 1 {
                assert(pw2(bitlen(1nat)) == 2);
                assert(false);
            }
            lemma_hgt1_jump(x as nat);
            assert(p as nat == 2 * pw2((b - 1) as nat));
        }
        let half: u64 = (p / 2) as u64;
        x = x - (half - 1);
    }
}

} // verus!
