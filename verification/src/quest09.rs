use vstd::prelude::*;

use crate::parse;

verus! {

/// `t` can be written as a sum of exactly `k` stamp values drawn (with
/// repetition) from `stamps`.
pub open spec fn can_make(stamps: Seq<usize>, t: nat, k: nat) -> bool
    decreases k,
{
    if k == 0 {
        t == 0
    } else {
        exists|j: int|
            0 <= j < stamps.len() && stamps[j] <= t && can_make(
                stamps,
                (t - stamps[j]) as nat,
                (k - 1) as nat,
            )
    }
}

/// `k` is the least number of stamps from `stamps` that sums to `t`.
pub open spec fn is_min_count(stamps: Seq<usize>, t: nat, k: nat) -> bool {
    can_make(stamps, t, k) && forall|k2: nat| k2 < k ==> !can_make(stamps, t, k2)
}

/// The least number of stamps from `stamps` summing to `t`, or `None` when no
/// number of them does.
pub open spec fn spec_min_stamps(stamps: Seq<usize>, t: nat) -> Option<nat> {
    if exists|k: nat| can_make(stamps, t, k) {
        Some(choose|k: nat| is_min_count(stamps, t, k))
    } else {
        None
    }
}

/// Whenever some count works, a least count exists.
pub proof fn lemma_min_exists(stamps: Seq<usize>, t: nat, k: nat)
    requires
        can_make(stamps, t, k),
    ensures
        exists|m: nat| is_min_count(stamps, t, m),
    decreases k,
{
    if exists|k2: nat| k2 < k && can_make(stamps, t, k2) {
        let k2 = choose|k2: nat| k2 < k && can_make(stamps, t, k2);
        lemma_min_exists(stamps, t, k2);
    } else {
        assert(is_min_count(stamps, t, k));
    }
}

/// With every stamp at least 1, a sum of `k` stamps is at least `k`.
proof fn lemma_count_le_target(stamps: Seq<usize>, t: nat, k: nat)
    requires
        forall|j: int| 0 <= j < stamps.len() ==> stamps[j] >= 1,
        can_make(stamps, t, k),
    ensures
        k <= t,
    decreases k,
{
    if k > 0 {
        let j = choose|j: int|
            0 <= j < stamps.len() && stamps[j] <= t && can_make(
                stamps,
                (t - stamps[j]) as nat,
                (k - 1) as nat,
            );
        lemma_count_le_target(stamps, (t - stamps[j]) as nat, (k - 1) as nat);
    }
}

/// When the least-count function answers, its answer is the least count.
pub proof fn lemma_spec_min_some(stamps: Seq<usize>, t: nat, k: nat)
    requires
        spec_min_stamps(stamps, t) == Some(k),
    ensures
        is_min_count(stamps, t, k),
{
    let k0 = choose|k0: nat| can_make(stamps, t, k0);
    lemma_min_exists(stamps, t, k0);
    let m = choose|m: nat| is_min_count(stamps, t, m);
    assert(is_min_count(stamps, t, m));
}

/// The least count, when one exists, is what the least-count function answers.
pub proof fn lemma_spec_min_of_witness(stamps: Seq<usize>, t: nat, b: nat)
    requires
        is_min_count(stamps, t, b),
    ensures
        spec_min_stamps(stamps, t) == Some(b),
{
    let m = choose|m: nat| is_min_count(stamps, t, m);
    assert(is_min_count(stamps, t, m));
    assert(m >= b && b >= m);
}

/// An optional count seen as an optional natural number.
pub open spec fn opt_nat(o: Option<usize>) -> Option<nat> {
    match o {
        Some(k) => Some(k as nat),
        None => None,
    }
}

/// The least-stamp counts for every value up to `size`, bottom up:
/// `r[u]` is the least number of stamps from `stamps` summing to `u`,
/// or `None` when `u` cannot be summed at all.
pub fn fill_min_table(stamps: &Vec<usize>, size: usize) -> (r: Vec<Option<usize>>)
    requires
        forall|j: int| 0 <= j < stamps@.len() ==> stamps@[j] >= 1,
        size < usize::MAX,
    ensures
        r@.len() == size + 1,
        forall|u: int| 0 <= u <= size ==> #[trigger] opt_nat(r@[u]) == spec_min_stamps(stamps@, u as nat),
    decreases size,
{
    let mut r: Vec<Option<usize>> = Vec::new();
    r.push(Some(0));
    proof {
        assert(can_make(stamps@, 0, 0));
        assert(forall|k2: nat| k2 < 0 ==> !can_make(stamps@, 0, k2));
        assert(is_min_count(stamps@, 0, 0));
        assert(spec_min_stamps(stamps@, 0) == Some(0 as nat));
    }
    let mut u: usize = 1;
    while u <= size
        invariant
            1 <= u <= size + 1,
            size < usize::MAX,
            forall|j: int| 0 <= j < stamps@.len() ==> stamps@[j] >= 1,
            r@.len() == u,
            forall|w: int| 0 <= w < u ==> #[trigger] opt_nat(r@[w]) == spec_min_stamps(stamps@, w as nat),
        decreases size + 1 - u,
    {
        let mut best: Option<usize> = None;
        let mut j: usize = 0;
        while j < stamps.len()
            invariant
                0 <= j <= stamps@.len(),
                1 <= u <= size,
                forall|jj: int| 0 <= jj < stamps@.len() ==> stamps@[jj] >= 1,
                r@.len() == u,
                forall|w: int| 0 <= w < u ==> #[trigger] opt_nat(r@[w]) == spec_min_stamps(
                    stamps@,
                    w as nat,
                ),
                match best {
                    Some(b) => b >= 1 && can_make(stamps@, u as nat, b as nat) && b <= u,
                    None => true,
                },
                forall|jj: int, k: nat|
                    0 <= jj < j && stamps@[jj] <= u && #[trigger] can_make(
                        stamps@,
                        (u - stamps@[jj]) as nat,
                        k,
                    ) ==> best is Some && best.unwrap() <= k + 1,
            decreases stamps@.len() - j,
        {
            let s = stamps[j];
            if s <= u {
                match r[u - s] {
                    Some(k) => {
                        proof {
                            assert(opt_nat(r@[u - s]) == spec_min_stamps(stamps@, (u - s) as nat));
                            lemma_spec_min_some(stamps@, (u - s) as nat, k as nat);
                            lemma_count_le_target(stamps@, (u - s) as nat, k as nat);
                        }
                        let cand = k + 1;
                        proof {
                            assert(can_make(stamps@, u as nat, (k + 1) as nat));
                        }
                        match best {
                            Some(b) => {
                                if cand < b {
                                    best = Some(cand);
                                }
                            },
                            None => {
                                best = Some(cand);
                            },
                        }
                        proof {
                            assert forall|k2: nat| #[trigger]
                                can_make(
                                    stamps@,
                                    (u - stamps@[j as int]) as nat,
                                    k2,
                                ) implies best is Some && best.unwrap() <= k2 + 1 by {
                                assert(k2 >= k);
                            }
                        }
                    },
                    None => {
                        proof {
                            assert(opt_nat(r@[u - s]) == spec_min_stamps(stamps@, (u - s) as nat));
                            assert forall|k2: nat| !(#[trigger] can_make(
                                stamps@,
                                (u - stamps@[j as int]) as nat,
                                k2,
                            )) by {
                                if can_make(stamps@, (u - stamps@[j as int]) as nat, k2) {
                                    lemma_min_exists(
                                        stamps@,
                                        (u - stamps@[j as int]) as nat,
                                        k2,
                                    );
                                }
                            }
                        }
                    },
                }
            }
            j += 1;
        }
        proof {
            match best {
                Some(b) => {
                    assert forall|k2: nat| k2 < b implies !can_make(stamps@, u as nat, k2) by {
                        if can_make(stamps@, u as nat, k2) {
                            assert(k2 != 0);
                            let jj = choose|jj: int|
                                0 <= jj < stamps@.len() && stamps@[jj] <= u && can_make(
                                    stamps@,
                                    (u - stamps@[jj]) as nat,
                                    (k2 - 1) as nat,
                                );
                            assert(best.unwrap() <= (k2 - 1) + 1);
                        }
                    }
                    assert(is_min_count(stamps@, u as nat, b as nat));
                    lemma_spec_min_of_witness(stamps@, u as nat, b as nat);
                },
                None => {
                    assert forall|k2: nat| !can_make(stamps@, u as nat, k2) by {
                        if can_make(stamps@, u as nat, k2) {
                            assert(k2 != 0);
                            let jj = choose|jj: int|
                                0 <= jj < stamps@.len() && stamps@[jj] <= u && can_make(
                                    stamps@,
                                    (u - stamps@[jj]) as nat,
                                    (k2 - 1) as nat,
                                );
                        }
                    }
                    assert(spec_min_stamps(stamps@, u as nat) is None);
                },
            }
        }
        r.push(best);
        u += 1;
    }
    r
}

/// The least number of stamps from `stamps` that sums to `target`, or `None`
/// when no number of them does.
pub fn min_stamps(stamps: &Vec<usize>, target: usize) -> (r: Option<usize>)
    requires
        forall|j: int| 0 <= j < stamps@.len() ==> stamps@[j] >= 1,
        target < usize::MAX,
    ensures
        match r {
            Some(k) => is_min_count(stamps@, target as nat, k as nat),
            None => forall|k: nat| !can_make(stamps@, target as nat, k),
        },
{
    let table = fill_min_table(stamps, target);
    let r = table[target];
    proof {
        match r {
            Some(k) => {
                assert(opt_nat(r) == spec_min_stamps(stamps@, target as nat));
                lemma_spec_min_some(stamps@, target as nat, k as nat);
            },
            None => {},
        }
    }
    r
}


/// The number of stamps the greedy rule uses for target `t`: for each
/// denomination in the order given, take as many whole copies as fit, then
/// go on with the rest.
pub open spec fn greedy_count(stamps: Seq<usize>, t: nat) -> nat
    decreases stamps.len(),
{
    if stamps.len() == 0 {
        0
    } else if stamps[0] == 0 {
        greedy_count(stamps.drop_first(), t)
    } else {
        t / (stamps[0] as nat) + greedy_count(stamps.drop_first(), t % (stamps[0] as nat))
    }
}

/// What the greedy rule leaves of target `t` after all denominations.
pub open spec fn greedy_rem(stamps: Seq<usize>, t: nat) -> nat
    decreases stamps.len(),
{
    if stamps.len() == 0 {
        t
    } else if stamps[0] == 0 {
        greedy_rem(stamps.drop_first(), t)
    } else {
        greedy_rem(stamps.drop_first(), t % (stamps[0] as nat))
    }
}

/// The greedy remainder never exceeds the target.
proof fn lemma_greedy_rem_le(stamps: Seq<usize>, t: nat)
    ensures
        greedy_rem(stamps, t) <= t,
    decreases stamps.len(),
{
    if stamps.len() > 0 {
        if stamps[0] == 0 {
            lemma_greedy_rem_le(stamps.drop_first(), t);
        } else {
            lemma_greedy_rem_le(stamps.drop_first(), t % (stamps[0] as nat));
            assert(t % (stamps[0] as nat) <= t) by (nonlinear_arith)
                requires stamps[0] >= 1;
        }
    }
}

/// When some denomination is 1, the greedy rule leaves nothing.
pub proof fn lemma_greedy_rem_zero(stamps: Seq<usize>, t: nat)
    requires
        exists|j: int| 0 <= j < stamps.len() && stamps[j] == 1,
    ensures
        greedy_rem(stamps, t) == 0,
    decreases stamps.len(),
{
    lemma_greedy_rem_zero_from(stamps, t);
}

/// Once the target is 0, the greedy remainder stays 0.
proof fn lemma_greedy_rem_of_zero(stamps: Seq<usize>)
    ensures
        greedy_rem(stamps, 0) == 0,
    decreases stamps.len(),
{
    if stamps.len() > 0 {
        lemma_greedy_rem_of_zero(stamps.drop_first());
    }
}

proof fn lemma_greedy_rem_zero_from(stamps: Seq<usize>, t: nat)
    requires
        exists|j: int| 0 <= j < stamps.len() && stamps[j] == 1,
    ensures
        greedy_rem(stamps, t) == 0,
    decreases stamps.len(),
{
    let j = choose|j: int| 0 <= j < stamps.len() && stamps[j] == 1;
    if stamps[0] == 1 {
        lemma_greedy_rem_of_zero(stamps.drop_first());
    } else {
        assert(0 <= j - 1 < stamps.drop_first().len() && stamps.drop_first()[j - 1] == 1);
        if stamps[0] == 0 {
            lemma_greedy_rem_zero_from(stamps.drop_first(), t);
        } else {
            lemma_greedy_rem_zero_from(stamps.drop_first(), t % (stamps[0] as nat));
        }
    }
}

/// A sum over fewer denominations is a sum over all of them.
proof fn lemma_can_make_mono(stamps: Seq<usize>, t: nat, k: nat)
    requires
        stamps.len() >= 1,
        can_make(stamps.drop_first(), t, k),
    ensures
        can_make(stamps, t, k),
    decreases k,
{
    if k > 0 {
        let rest = stamps.drop_first();
        assert(exists|j: int|
            0 <= j < rest.len() && rest[j] <= t && can_make(
                rest,
                (t - rest[j]) as nat,
                (k - 1) as nat,
            ));
        let j = choose|j: int|
            0 <= j < rest.len() && rest[j] <= t && can_make(
                rest,
                (t - rest[j]) as nat,
                (k - 1) as nat,
            );
        lemma_can_make_mono(stamps, (t - rest[j]) as nat, (k - 1) as nat);
        assert(stamps[j + 1] == rest[j]);
        assert(0 <= j + 1 < stamps.len() && stamps[j + 1] <= t && can_make(
            stamps,
            (t - stamps[j + 1]) as nat,
            (k - 1) as nat,
        ));
    }
}

/// Adding `q` more copies of denomination `stamps[j]` to a sum keeps it a sum.
proof fn lemma_can_make_repeat(stamps: Seq<usize>, t: nat, k: nat, j: int, q: nat)
    requires
        can_make(stamps, t, k),
        0 <= j < stamps.len(),
    ensures
        can_make(stamps, (t + q * stamps[j]) as nat, (k + q) as nat),
    decreases q,
{
    if q > 0 {
        lemma_can_make_repeat(stamps, t, k, j, (q - 1) as nat);
        let t2 = (t + (q - 1) * stamps[j]) as nat;
        let t3 = (t + q * stamps[j]) as nat;
        assert(t3 == t2 + stamps[j]) by (nonlinear_arith)
            requires t2 == t + (q - 1) * stamps[j], t3 == t + q * stamps[j], q >= 1;
        assert(stamps[j] <= t3 && can_make(stamps, (t3 - stamps[j]) as nat, (k + q - 1) as nat));
        assert((k + q - 1) as nat == ((k + q) as nat - 1) as nat);
        assert(can_make(stamps, t3, (k + q) as nat));
    } else {
        assert((t + q * stamps[j]) as nat == t) by (nonlinear_arith)
            requires q == 0;
    }
}

/// What the greedy rule pays for is a genuine sum of stamps: the greedy count
/// realises the target minus the greedy remainder.
proof fn lemma_greedy_realizable(stamps: Seq<usize>, t: nat)
    requires
        forall|j: int| 0 <= j < stamps.len() ==> stamps[j] >= 1,
    ensures
        can_make(stamps, (t - greedy_rem(stamps, t)) as nat, greedy_count(stamps, t)),
    decreases stamps.len(),
{
    lemma_greedy_rem_le(stamps, t);
    if stamps.len() == 0 {
    } else {
        let s = stamps[0] as nat;
        let rest = stamps.drop_first();
        let q = t / s;
        let r0 = t % s;
        assert(t == q * s + r0 && r0 <= t) by (nonlinear_arith)
            requires s >= 1, q == t / s, r0 == t % s;
        lemma_greedy_realizable(rest, r0);
        lemma_greedy_rem_le(rest, r0);
        lemma_can_make_mono(stamps, (r0 - greedy_rem(rest, r0)) as nat, greedy_count(rest, r0));
        lemma_can_make_repeat(
            stamps,
            (r0 - greedy_rem(rest, r0)) as nat,
            greedy_count(rest, r0),
            0,
            q,
        );
        assert((r0 - greedy_rem(rest, r0)) as nat + q * stamps[0] == (t - greedy_rem(
            stamps,
            t,
        )) as nat) by (nonlinear_arith)
            requires
                t == q * s + r0,
                s == stamps[0],
                greedy_rem(stamps, t) == greedy_rem(rest, r0),
                greedy_rem(rest, r0) <= r0,
        ;
    }
}

/// The least stamp count never loses to the greedy rule: wherever the greedy
/// rule pays the whole target, a least count exists and is at most the
/// greedy count.
pub proof fn lemma_dp_improves_on_greedy(stamps: Seq<usize>, t: nat)
    requires
        forall|j: int| 0 <= j < stamps.len() ==> stamps[j] >= 1,
        greedy_rem(stamps, t) == 0,
    ensures
        spec_min_stamps(stamps, t) is Some,
        spec_min_stamps(stamps, t).unwrap() <= greedy_count(stamps, t),
{
    lemma_greedy_realizable(stamps, t);
    let g = greedy_count(stamps, t);
    assert(can_make(stamps, t, g));
    lemma_min_exists(stamps, t, g);
    let m = choose|m: nat| is_min_count(stamps, t, m);
    lemma_spec_min_of_witness(stamps, t, m);
    assert(!(g < m));
}


/// The denominations of the first tier, largest first, as the greedy rule
/// wants them.
pub open spec fn tier1_stamps() -> Seq<usize> {
    seq![10usize, 5, 3, 1]
}

/// The first tier's greedy count, written out: whole tens, then fives,
/// threes and ones of what remains.
proof fn lemma_tier1_closed(t: nat)
    ensures
        greedy_count(tier1_stamps(), t) == t / 10 + (t % 10) / 5 + ((t % 10) % 5) / 3 + ((t % 10)
            % 5) % 3,
{
    let s0 = tier1_stamps();
    let s1 = seq![5usize, 3, 1];
    let s2 = seq![3usize, 1];
    let s3 = seq![1usize];
    let s4 = Seq::<usize>::empty();
    assert(s0.drop_first() =~= s1);
    assert(s1.drop_first() =~= s2);
    assert(s2.drop_first() =~= s3);
    assert(s3.drop_first() =~= s4);
    let r1 = t % 10;
    let r2 = r1 % 5;
    let r3 = r2 % 3;
    assert(greedy_count(s4, r3 % 1) == 0);
    assert(r3 / 1 == r3 && r3 % 1 == 0) by (nonlinear_arith);
    assert(greedy_count(s3, r3) == r3);
    assert(greedy_count(s2, r2) == r2 / 3 + r3);
    assert(greedy_count(s1, r1) == r1 / 5 + r2 / 3 + r3);
    assert(greedy_count(s0, t) == t / 10 + r1 / 5 + r2 / 3 + r3);
}

/// Taking any one first-tier denomination off the target costs the greedy
/// rule at most one stamp.
proof fn lemma_tier1_step(t: nat, s: nat)
    requires
        s == 10 || s == 5 || s == 3 || s == 1,
        s <= t,
    ensures
        greedy_count(tier1_stamps(), t) <= greedy_count(tier1_stamps(), (t - s) as nat) + 1,
{
    lemma_tier1_closed(t);
    let t2 = (t - s) as nat;
    lemma_tier1_closed(t2);
    let q = t / 10;
    let r = t % 10;
    assert(t == 10 * q + r && r < 10) by (nonlinear_arith)
        requires q == t / 10, r == t % 10;
    if s == 10 {
        assert(t2 / 10 == q - 1 && t2 % 10 == r) by (nonlinear_arith)
            requires t == 10 * q + r, 0 <= r < 10, q >= 1, t2 == t - 10;
    } else if r >= s {
        assert(t2 / 10 == q && t2 % 10 == r - s) by (nonlinear_arith)
            requires t == 10 * q + r, 0 <= r - s < 10, t2 == t - s;
        assert(r / 5 + (r % 5) / 3 + (r % 5) % 3 <= (r - s) / 5 + (((r - s) as nat) % 5) / 3 + (((
        r - s) as nat) % 5) % 3 + 1) by (nonlinear_arith)
            requires r < 10, s <= r, s == 5 || s == 3 || s == 1;
    } else {
        assert(q >= 1) by (nonlinear_arith)
            requires t == 10 * q + r, s <= t, r < s, s <= 10;
        let r2 = (r + 10 - s) as nat;
        assert(t2 / 10 == q - 1 && t2 % 10 == r2) by (nonlinear_arith)
            requires
                t == 10 * q + r,
                q >= 1,
                t2 == t - s,
                r2 == r + 10 - s,
                0 <= r2 < 10,
                s <= 10,
        ;
        assert(r / 5 + (r % 5) / 3 + (r % 5) % 3 <= r2 / 5 + (r2 % 5) / 3 + (r2 % 5) % 3)
            by (nonlinear_arith)
            requires r < s, r2 == r + 10 - s, s == 5 || s == 3 || s == 1;
    }
}

/// No way of paying a target with first-tier denominations beats the greedy
/// rule's count.
proof fn lemma_tier1_count_ge_greedy(t: nat, k: nat)
    requires
        can_make(tier1_stamps(), t, k),
    ensures
        greedy_count(tier1_stamps(), t) <= k,
    decreases k,
{
    if k == 0 {
        lemma_tier1_closed(0);
    } else {
        let j = choose|j: int|
            0 <= j < tier1_stamps().len() && tier1_stamps()[j] <= t && can_make(
                tier1_stamps(),
                (t - tier1_stamps()[j]) as nat,
                (k - 1) as nat,
            );
        let s = tier1_stamps()[j];
        assert(s == 10 || s == 5 || s == 3 || s == 1) by {
            assert(tier1_stamps().len() == 4);
        }
        lemma_tier1_count_ge_greedy((t - s) as nat, (k - 1) as nat);
        lemma_tier1_step(t, s as nat);
    }
}

/// On the first tier's denominations the greedy rule is exact: every target
/// has a least count, and it is the greedy count.
pub proof fn lemma_first_tier_greedy_is_least(t: nat)
    ensures
        spec_min_stamps(tier1_stamps(), t) == Some(greedy_count(tier1_stamps(), t)),
{
    assert(tier1_stamps()[3] == 1usize);
    lemma_greedy_rem_zero(tier1_stamps(), t);
    assert(forall|j: int| 0 <= j < tier1_stamps().len() ==> tier1_stamps()[j] >= 1) by {
        assert(tier1_stamps().len() == 4);
    }
    lemma_greedy_realizable(tier1_stamps(), t);
    let g = greedy_count(tier1_stamps(), t);
    assert(can_make(tier1_stamps(), t, g));
    assert forall|k2: nat| k2 < g implies !can_make(tier1_stamps(), t, k2) by {
        if can_make(tier1_stamps(), t, k2) {
            lemma_tier1_count_ge_greedy(t, k2);
        }
    }
    assert(is_min_count(tier1_stamps(), t, g));
    lemma_spec_min_of_witness(tier1_stamps(), t, g);
}

/// A sum drawn from one set of denominations can be drawn from any set that
/// carries them all.
proof fn lemma_can_make_superset(sub: Seq<usize>, sup: Seq<usize>, t: nat, k: nat)
    requires
        forall|j: int| 0 <= j < sub.len() ==> sup.contains(#[trigger] sub[j]),
        can_make(sub, t, k),
    ensures
        can_make(sup, t, k),
    decreases k,
{
    if k > 0 {
        let j = choose|j: int|
            0 <= j < sub.len() && sub[j] <= t && can_make(
                sub,
                (t - sub[j]) as nat,
                (k - 1) as nat,
            );
        lemma_can_make_superset(sub, sup, (t - sub[j]) as nat, (k - 1) as nat);
        let j2 = choose|j2: int| 0 <= j2 < sup.len() && sup[j2] == sub[j];
        assert(0 <= j2 < sup.len() && sup[j2] <= t && can_make(
            sup,
            (t - sup[j2]) as nat,
            (k - 1) as nat,
        ));
    }
}

/// The denominations of the second tier.
pub open spec fn tier2_stamps() -> Seq<usize> {
    seq![1usize, 3, 5, 10, 15, 16, 20, 24, 25, 30]
}

/// For every target, the least count over the second tier's denominations
/// is defined and never exceeds the first tier's greedy count: the richer
/// set carries the first tier's denominations, so whatever the greedy rule
/// pays, the least count can pay too.
pub proof fn lemma_second_tier_min_le_first_greedy(t: nat)
    ensures
        spec_min_stamps(tier2_stamps(), t) is Some,
        spec_min_stamps(tier2_stamps(), t).unwrap() <= greedy_count(tier1_stamps(), t),
{
    assert(tier1_stamps()[3] == 1usize);
    lemma_greedy_rem_zero(tier1_stamps(), t);
    assert(forall|j: int| 0 <= j < tier1_stamps().len() ==> tier1_stamps()[j] >= 1) by {
        assert(tier1_stamps().len() == 4);
    }
    lemma_greedy_realizable(tier1_stamps(), t);
    let g = greedy_count(tier1_stamps(), t);
    assert(can_make(tier1_stamps(), t, g));
    assert(forall|j: int|
        0 <= j < tier1_stamps().len() ==> tier2_stamps().contains(#[trigger] tier1_stamps()[j]))
        by {
        assert(tier2_stamps()[3] == tier1_stamps()[0]);
        assert(tier2_stamps()[2] == tier1_stamps()[1]);
        assert(tier2_stamps()[1] == tier1_stamps()[2]);
        assert(tier2_stamps()[0] == tier1_stamps()[3]);
        assert(tier1_stamps().len() == 4);
        assert(tier2_stamps().contains(tier1_stamps()[0]));
        assert(tier2_stamps().contains(tier1_stamps()[1]));
        assert(tier2_stamps().contains(tier1_stamps()[2]));
        assert(tier2_stamps().contains(tier1_stamps()[3]));
    }
    lemma_can_make_superset(tier1_stamps(), tier2_stamps(), t, g);
    lemma_min_exists(tier2_stamps(), t, g);
    let m = choose|m: nat| is_min_count(tier2_stamps(), t, m);
    lemma_spec_min_of_witness(tier2_stamps(), t, m);
    assert(!(g < m));
}

/// The denominations of the third tier, largest first.
pub open spec fn tier3_stamps() -> Seq<usize> {
    seq![101usize, 100, 75, 74, 50, 49, 38, 37, 30, 25, 24, 20, 16, 15, 10, 5, 3, 1]
}

/// The greedy stamp count summed over every target.
pub open spec fn greedy_total(stamps: Seq<usize>, ts: Seq<nat>) -> nat
    decreases ts.len(),
{
    if ts.len() == 0 {
        0
    } else {
        greedy_count(stamps, ts[0]) + greedy_total(stamps, ts.drop_first())
    }
}

/// `Some` of a natural added to an optional total; `None` stays `None`.
pub open spec fn opt_add(a: nat, o: Option<nat>) -> Option<nat> {
    match o {
        Some(b) => Some((a + b) as nat),
        None => None,
    }
}

/// The least stamp count summed over every target, or `None` as soon as one
/// target cannot be summed at all.
pub open spec fn dp_total(stamps: Seq<usize>, ts: Seq<nat>) -> Option<nat>
    decreases ts.len(),
{
    if ts.len() == 0 {
        Some(0)
    } else {
        match spec_min_stamps(stamps, ts[0]) {
            None => None,
            Some(k) => opt_add(k, dp_total(stamps, ts.drop_first())),
        }
    }
}

/// Build the first-tier denominations.
fn tier1_vec() -> (v: Vec<usize>)
    ensures
        v@ == tier1_stamps(),
        forall|j: int| 0 <= j < v@.len() ==> v@[j] >= 1,
{
    let v: Vec<usize> = vec![10, 5, 3, 1];
    proof {
        assert(v@ =~= tier1_stamps());
        assert(forall|j: int| 0 <= j < v@.len() ==> v@[j] >= 1) by {
            assert(v@.len() == 4);
        }
    }
    v
}

/// Build the second-tier denominations.
fn tier2_vec() -> (v: Vec<usize>)
    ensures
        v@ == tier2_stamps(),
        forall|j: int| 0 <= j < v@.len() ==> v@[j] >= 1,
{
    let v: Vec<usize> = vec![1, 3, 5, 10, 15, 16, 20, 24, 25, 30];
    proof {
        assert(v@ =~= tier2_stamps());
        assert(forall|j: int| 0 <= j < v@.len() ==> v@[j] >= 1) by {
            assert(v@.len() == 10);
        }
    }
    v
}

/// Build the third-tier denominations.
fn tier3_vec() -> (v: Vec<usize>)
    ensures
        v@ == tier3_stamps(),
        forall|j: int| 0 <= j < v@.len() ==> v@[j] >= 1,
{
    let v: Vec<usize> = vec![101, 100, 75, 74, 50, 49, 38, 37, 30, 25, 24, 20, 16, 15, 10, 5, 3, 1];
    proof {
        assert(v@ =~= tier3_stamps());
        assert(forall|j: int| 0 <= j < v@.len() ==> v@[j] >= 1) by {
            assert(v@.len() == 18);
        }
    }
    v
}

/// Greedy solver: the sum over every number in the input of the greedy stamp
/// count with the first-tier denominations. `None` exactly when a number in
/// the input, or the total, does not fit in `usize`.
pub fn part1(input: &[u8]) -> (r: Option<usize>)
    ensures
        ({
            let ts = parse::spec_numbers(input@);
            match r {
                Some(v) => (forall|k: int| 0 <= k < ts.len() ==> ts[k] <= usize::MAX) && v as nat
                    == greedy_total(tier1_stamps(), ts),
                None => (exists|k: int| 0 <= k < ts.len() && ts[k] > usize::MAX) || greedy_total(
                    tier1_stamps(),
                    ts,
                ) > usize::MAX,
            }
        }),
{
    let ghost ts = parse::spec_numbers(input@);
    let targets = match parse::numbers(input) {
        Some(t) => t,
        None => {
            return None;
        },
    };
    let stamps = tier1_vec();
    let mut total: usize = 0;
    let mut i: usize = 0;
    proof {
        assert(ts.skip(0) =~= ts);
    }
    while i < targets.len()
        invariant
            0 <= i <= targets@.len(),
            ts == parse::spec_numbers(input@),
            targets@.map_values(|x: usize| x as nat) == ts,
            stamps@ == tier1_stamps(),
            forall|j: int| 0 <= j < stamps@.len() ==> stamps@[j] >= 1,
            total + greedy_total(stamps@, ts.skip(i as int)) == greedy_total(stamps@, ts),
        decreases targets@.len() - i,
    {
        let mut remaining = targets[i];
        proof {
            assert(ts.skip(i as int).drop_first() =~= ts.skip(i as int + 1));
            assert(ts.skip(i as int)[0] == ts[i as int]);
            assert(targets@.map_values(|x: usize| x as nat)[i as int] == ts[i as int]);
        }
        let ghost rest_after = greedy_total(stamps@, ts.skip(i as int + 1));
        proof {
            assert(stamps@.skip(0) =~= stamps@);
            assert(remaining as nat == ts[i as int]);
        }
        let mut j: usize = 0;
        while j < stamps.len()
            invariant
                0 <= j <= stamps@.len(),
                stamps@ == tier1_stamps(),
                ts == parse::spec_numbers(input@),
                forall|jj: int| 0 <= jj < stamps@.len() ==> stamps@[jj] >= 1,
                total + greedy_count(stamps@.skip(j as int), remaining as nat) + rest_after
                    == greedy_total(stamps@, ts),
            decreases stamps@.len() - j,
        {
            let s = stamps[j];
            proof {
                assert(stamps@.skip(j as int).drop_first() =~= stamps@.skip(j as int + 1));
                assert(stamps@.skip(j as int)[0] == stamps@[j as int]);
            }
            let q = remaining / s;
            proof {
                assert(greedy_count(stamps@.skip(j as int), remaining as nat) == q
                    + greedy_count(stamps@.skip(j as int + 1), (remaining % s) as nat));
            }
            if total > usize::MAX - q {
                return None;
            }
            total = total + q;
            remaining = remaining % s;
            j += 1;
        }
        proof {
            assert(stamps@.skip(stamps@.len() as int) =~= Seq::<usize>::empty());
            assert(greedy_count(stamps@.skip(stamps@.len() as int), remaining as nat) == 0);
        }
        i += 1;
    }
    proof {
        assert(ts.skip(targets@.len() as int) =~= Seq::<nat>::empty());
        assert(greedy_total(stamps@, ts.skip(targets@.len() as int)) == 0);
    }
    Some(total)
}

/// Least-stamps solver: the sum over every number in the input of the least
/// stamp count with the second-tier denominations. `None` exactly when a
/// number does not fit below `usize::MAX`, when some number cannot be summed
/// from the denominations at all, or when the total does not fit in `usize`.
pub fn part2(input: &[u8]) -> (r: Option<usize>)
    ensures
        ({
            let ts = parse::spec_numbers(input@);
            match r {
                Some(v) => (forall|k: int| 0 <= k < ts.len() ==> ts[k] < usize::MAX) && dp_total(
                    tier2_stamps(),
                    ts,
                ) == Some(v as nat),
                None => (exists|k: int| 0 <= k < ts.len() && ts[k] >= usize::MAX) || dp_total(
                    tier2_stamps(),
                    ts,
                ) is None || dp_total(tier2_stamps(), ts).unwrap() > usize::MAX,
            }
        }),
{
    let ghost ts = parse::spec_numbers(input@);
    let targets = match parse::numbers(input) {
        Some(t) => t,
        None => {
            return None;
        },
    };
    let stamps = tier2_vec();
    let mut total: usize = 0;
    let mut i: usize = 0;
    proof {
        assert(ts.skip(0) =~= ts);
    }
    while i < targets.len()
        invariant
            0 <= i <= targets@.len(),
            ts == parse::spec_numbers(input@),
            targets@.map_values(|x: usize| x as nat) == ts,
            stamps@ == tier2_stamps(),
            forall|j: int| 0 <= j < stamps@.len() ==> stamps@[j] >= 1,
            forall|k: int| 0 <= k < i ==> ts[k] < usize::MAX,
            dp_total(stamps@, ts) == opt_add(total as nat, dp_total(stamps@, ts.skip(i as int))),
        decreases targets@.len() - i,
    {
        let t = targets[i];
        proof {
            assert(ts.skip(i as int).drop_first() =~= ts.skip(i as int + 1));
            assert(ts.skip(i as int)[0] == ts[i as int]);
            assert(targets@.map_values(|x: usize| x as nat)[i as int] == ts[i as int]);
        }
        if t == usize::MAX {
            proof {
                assert(targets@.map_values(|x: usize| x as nat)[i as int] == ts[i as int]);
                assert(ts[i as int] == t as nat);
                assert(parse::spec_numbers(input@)[i as int] >= usize::MAX);
                assert(0 <= i < parse::spec_numbers(input@).len());
            }
            return None;
        }
        match min_stamps(&stamps, t) {
            Some(k) => {
                proof {
                    lemma_spec_min_of_witness(stamps@, t as nat, k as nat);
                    assert(dp_total(stamps@, ts.skip(i as int)) == opt_add(
                        k as nat,
                        dp_total(stamps@, ts.skip(i as int + 1)),
                    ));
                }
                if total > usize::MAX - k {
                    proof {
                        match dp_total(stamps@, ts.skip(i as int + 1)) {
                            Some(rest) => {
                                assert(dp_total(stamps@, ts) == Some(
                                    (total + k + rest) as nat,
                                ));
                            },
                            None => {
                                assert(dp_total(stamps@, ts) is None);
                            },
                        }
                    }
                    return None;
                }
                total = total + k;
            },
            None => {
                proof {
                    assert(ts[i as int] == t as nat);
                    assert(!(exists|k2: nat| can_make(stamps@, t as nat, k2)));
                    assert(spec_min_stamps(stamps@, t as nat) is None);
                    assert(ts.skip(i as int)[0] == t as nat);
                    assert(dp_total(stamps@, ts.skip(i as int)) is None);
                    assert(dp_total(stamps@, ts) is None);
                }
                return None;
            },
        }
        i += 1;
    }
    proof {
        assert(ts.skip(targets@.len() as int) =~= Seq::<nat>::empty());
        assert(dp_total(stamps@, ts.skip(targets@.len() as int)) == Some(0 as nat));
    }
    Some(total)
}


/// The smaller of an optional best and a new candidate.
pub open spec fn min_opt(best: Option<nat>, cand: nat) -> Option<nat> {
    match best {
        None => Some(cand),
        Some(b) => Some(if cand < b { cand } else { b }),
    }
}

/// The balanced-split scan: the two halves start at `t1` and `t2` and move
/// apart one step a round until they differ by more than 100; every round
/// where both halves have a least count offers their sum, and the best offer
/// is kept. The outer `None` marks the round where the lower half would step
/// below zero, which the rule does not survive.
pub open spec fn scan3(stamps: Seq<usize>, t1: nat, t2: nat, best: Option<nat>) -> Option<
    Option<nat>,
>
    decreases 102 - (t2 - t1),
{
    if t2 - t1 > 100 {
        Some(best)
    } else {
        let b2 = match (spec_min_stamps(stamps, t1), spec_min_stamps(stamps, t2)) {
            (Some(a), Some(b)) => min_opt(best, (a + b) as nat),
            _ => best,
        };
        if t1 == 0 {
            None
        } else {
            scan3(stamps, (t1 - 1) as nat, (t2 + 1) as nat, b2)
        }
    }
}

/// The best balanced split of target `t`: the least total count over all
/// near-halvings that differ by at most 100.
pub open spec fn window_min(stamps: Seq<usize>, t: nat) -> Option<Option<nat>> {
    scan3(stamps, t / 2, t / 2 + t % 2, None)
}

/// The best balanced-split count summed over every target; `None` as soon as
/// a target's scan faults or finds no split.
pub open spec fn part3_total(stamps: Seq<usize>, ts: Seq<nat>) -> Option<nat>
    decreases ts.len(),
{
    if ts.len() == 0 {
        Some(0)
    } else {
        match window_min(stamps, ts[0]) {
            Some(Some(m)) => opt_add(m, part3_total(stamps, ts.drop_first())),
            _ => None,
        }
    }
}

/// Balanced-split solver: every target is split into two nearly equal halves,
/// wandering up to 100 apart, and pays the least combined stamp count of the
/// third-tier denominations. `None` exactly when a number does not fit below
/// `usize::MAX`, when some target's scan faults or finds no split, or when
/// the total does not fit in `usize`.
pub fn part3(input: &[u8]) -> (r: Option<usize>)
    ensures
        ({
            let ts = parse::spec_numbers(input@);
            match r {
                Some(v) => (forall|k: int| 0 <= k < ts.len() ==> ts[k] < usize::MAX) && part3_total(
                    tier3_stamps(),
                    ts,
                ) == Some(v as nat),
                None => (exists|k: int| 0 <= k < ts.len() && ts[k] >= usize::MAX) || part3_total(
                    tier3_stamps(),
                    ts,
                ) is None || part3_total(tier3_stamps(), ts).unwrap() > usize::MAX,
            }
        }),
{
    let ghost ts = parse::spec_numbers(input@);
    let targets = match parse::numbers(input) {
        Some(t) => t,
        None => {
            return None;
        },
    };
    let stamps = tier3_vec();
    let mut total: usize = 0;
    let mut i: usize = 0;
    proof {
        assert(ts.skip(0) =~= ts);
    }
    while i < targets.len()
        invariant
            0 <= i <= targets@.len(),
            ts == parse::spec_numbers(input@),
            targets@.map_values(|x: usize| x as nat) == ts,
            stamps@ == tier3_stamps(),
            forall|j: int| 0 <= j < stamps@.len() ==> stamps@[j] >= 1,
            forall|k: int| 0 <= k < i ==> ts[k] < usize::MAX,
            part3_total(stamps@, ts) == opt_add(
                total as nat,
                part3_total(stamps@, ts.skip(i as int)),
            ),
        decreases targets@.len() - i,
    {
        let t = targets[i];
        proof {
            assert(ts.skip(i as int).drop_first() =~= ts.skip(i as int + 1));
            assert(ts.skip(i as int)[0] == ts[i as int]);
            assert(targets@.map_values(|x: usize| x as nat)[i as int] == ts[i as int]);
        }
        if t == usize::MAX {
            proof {
                assert(ts[i as int] == t as nat);
                assert(parse::spec_numbers(input@)[i as int] >= usize::MAX);
                assert(0 <= i < parse::spec_numbers(input@).len());
            }
            return None;
        }
        let mut t1: usize = t / 2;
        let mut t2: usize = t1 + t % 2;
        let mut best: Option<usize> = None;
        while t2 - t1 <= 100
            invariant
                t1 <= t / 2,
                t1 <= t2,
                t1 + t2 == t / 2 + t / 2 + t % 2,
                t < usize::MAX,
                ts == parse::spec_numbers(input@),
                0 <= i < targets@.len(),
                targets@.map_values(|x: usize| x as nat) == ts,
                ts[i as int] == t as nat,
                part3_total(stamps@, ts) == opt_add(
                    total as nat,
                    part3_total(stamps@, ts.skip(i as int)),
                ),
                stamps@ == tier3_stamps(),
                forall|j: int| 0 <= j < stamps@.len() ==> stamps@[j] >= 1,
                window_min(stamps@, t as nat) == scan3(
                    stamps@,
                    t1 as nat,
                    t2 as nat,
                    match best {
                        Some(b) => Some(b as nat),
                        None => None,
                    },
                ),
            decreases 102 + t1 - t2,
        {
            let m1 = min_stamps(&stamps, t1);
            let m2 = min_stamps(&stamps, t2);
            let ghost old_best = best;
            match (m1, m2) {
                (Some(a), Some(b)) => {
                    proof {
                        lemma_spec_min_of_witness(stamps@, t1 as nat, a as nat);
                        lemma_spec_min_of_witness(stamps@, t2 as nat, b as nat);
                        lemma_count_le_target(stamps@, t1 as nat, a as nat);
                        lemma_count_le_target(stamps@, t2 as nat, b as nat);
                    }
                    let sum = a + b;
                    best = match best {
                        None => Some(sum),
                        Some(bb) => Some(if sum < bb { sum } else { bb }),
                    };
                },
                _ => {
                    proof {
                        if m1 is None {
                            assert(!(exists|k2: nat| can_make(stamps@, t1 as nat, k2)));
                            assert(spec_min_stamps(stamps@, t1 as nat) is None);
                        }
                        if m2 is None {
                            assert(!(exists|k2: nat| can_make(stamps@, t2 as nat, k2)));
                            assert(spec_min_stamps(stamps@, t2 as nat) is None);
                        }
                    }
                },
            }
            proof {
                let sb_old = match old_best {
                    Some(b) => Some(b as nat),
                    None => None,
                };
                let sb_new = match best {
                    Some(b) => Some(b as nat),
                    None => None,
                };
                assert(sb_new == match (
                    spec_min_stamps(stamps@, t1 as nat),
                    spec_min_stamps(stamps@, t2 as nat),
                ) {
                    (Some(a), Some(b)) => min_opt(sb_old, (a + b) as nat),
                    _ => sb_old,
                });
            }
            if t1 == 0 {
                proof {
                    assert(window_min(stamps@, t as nat) is None);
                    assert(ts.skip(i as int)[0] == ts[i as int]);
                    assert(part3_total(stamps@, ts.skip(i as int)) is None);
                    assert(part3_total(stamps@, ts) is None);
                }
                return None;
            }
            t1 = t1 - 1;
            t2 = t2 + 1;
        }
        proof {
            let sb = match best {
                Some(b) => Some(b as nat),
                None => None,
            };
            assert(scan3(stamps@, t1 as nat, t2 as nat, sb) == Some(sb));
            assert(ts[i as int] == t as nat);
        }
        match best {
            Some(m) => {
                proof {
                    assert(part3_total(stamps@, ts.skip(i as int)) == opt_add(
                        m as nat,
                        part3_total(stamps@, ts.skip(i as int + 1)),
                    ));
                }
                if total > usize::MAX - m {
                    proof {
                        match part3_total(stamps@, ts.skip(i as int + 1)) {
                            Some(rest) => {
                                assert(part3_total(stamps@, ts) == Some(
                                    (total + m + rest) as nat,
                                ));
                            },
                            None => {
                                assert(part3_total(stamps@, ts) is None);
                            },
                        }
                    }
                    return None;
                }
                total = total + m;
            },
            None => {
                proof {
                    assert(part3_total(stamps@, ts.skip(i as int)) is None);
                    assert(part3_total(stamps@, ts) is None);
                }
                return None;
            },
        }
        i += 1;
    }
    proof {
        assert(ts.skip(targets@.len() as int) =~= Seq::<nat>::empty());
        assert(part3_total(stamps@, ts.skip(targets@.len() as int)) == Some(0 as nat));
    }
    Some(total)
}

} // verus!



