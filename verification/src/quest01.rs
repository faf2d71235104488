use vstd::prelude::*;

verus! {

/// How often the byte `c` occurs in `s`.
pub open spec fn count_byte(s: Seq<u8>, c: u8) -> nat
    decreases s.len(),
{
    if s.len() == 0 {
        0
    } else {
        count_byte(s.drop_last(), c) + (if s.last() == c {
            1nat
        } else {
            0nat
        })
    }
}

/// The creature score of the first tier: one point for each `B`, three for
/// each `C`.
pub open spec fn part1_score(s: Seq<u8>) -> nat {
    count_byte(s, 66) + count_byte(s, 67) * 3
}

/// The extra points of the second tier from index `i` on: two for every full
/// pair with no `x` in it.
pub open spec fn pair_bonus(s: Seq<u8>, i: int) -> nat
    decreases s.len() - i,
{
    if i < 0 || i + 1 >= s.len() {
        0
    } else {
        (if s[i] != 120 && s[i + 1] != 120 {
            2nat
        } else {
            0nat
        }) + pair_bonus(s, i + 2)
    }
}

/// The creature score of the second tier: the first tier's score, five more
/// for each `D`, and the pair bonus.
pub open spec fn part2_score(s: Seq<u8>) -> nat {
    part1_score(s) + count_byte(s, 68) * 5 + pair_bonus(s, 0)
}

/// The second tier walks the input in pairs and reads past a lone trailing
/// byte unless it is an `x`: on such input it has no answer.
pub open spec fn part2_faults(s: Seq<u8>) -> bool {
    s.len() % 2 == 1 && s.last() != 120
}

/// The extra points of the third tier from index `i` on: six for every triple
/// without an `x`, two for a triple with exactly one. The last group may be
/// shorter than three.
pub open spec fn triple_bonus(s: Seq<u8>, i: int) -> nat
    decreases s.len() - i + 3,
{
    if i < 0 || i >= s.len() {
        0
    } else {
        let hi = if i + 3 <= s.len() {
            i + 3
        } else {
            s.len() as int
        };
        let xs = count_byte(s.subrange(i, hi), 120);
        (if xs == 0 {
            6nat
        } else if xs == 1 {
            2nat
        } else {
            0nat
        }) + triple_bonus(s, i + 3)
    }
}

/// The creature score of the third tier: the first tier's score, five more
/// for each `D`, and the triple bonus.
pub open spec fn part3_score(s: Seq<u8>) -> nat {
    part1_score(s) + count_byte(s, 68) * 5 + triple_bonus(s, 0)
}

/// How often the byte `c` occurs in `input`.
pub fn count_occurrences(input: &[u8], c: u8) -> (r: usize)
    ensures
        r as nat == count_byte(input@, c),
{
    let mut n: usize = 0;
    let mut i: usize = 0;
    proof {
        assert(input@.take(0) =~= Seq::<u8>::empty());
    }
    while i < input.len()
        invariant
            0 <= i <= input@.len(),
            n as nat == count_byte(input@.take(i as int), c),
            n <= i,
        decreases input@.len() - i,
    {
        proof {
            assert(input@.take(i + 1).drop_last() =~= input@.take(i as int));
            assert(input@.take(i + 1).last() == input@[i as int]);
        }
        if input[i] == c {
            n += 1;
        }
        i += 1;
    }
    proof {
        assert(input@.take(input@.len() as int) =~= input@);
    }
    n
}

/// First-tier score of the creature line: `B` is worth 1, `C` worth 3.
/// `None` exactly when the score passes `usize`.
pub fn part1(input: &[u8]) -> (r: Option<usize>)
    ensures
        match r {
            Some(v) => v as nat == part1_score(input@),
            None => part1_score(input@) > usize::MAX,
        },
{
    let b = count_occurrences(input, 66);
    let c = count_occurrences(input, 67);
    if c > (usize::MAX - b) / 3 {
        proof {
            assert(b + c * 3 > usize::MAX) by (nonlinear_arith)
                requires c > (usize::MAX - b) / 3, b <= usize::MAX;
        }
        return None;
    }
    proof {
        assert(b + c * 3 <= usize::MAX) by (nonlinear_arith)
            requires c <= (usize::MAX - b) / 3, b <= usize::MAX;
    }
    Some(b + c * 3)
}

/// Second-tier score: the first tier's points, 5 for each `D`, and 2 for
/// every pair free of `x`. `None` exactly when a lone trailing byte other
/// than `x` is left over, or the score passes `usize`.
pub fn part2(input: &[u8]) -> (r: Option<usize>)
    ensures
        match r {
            Some(v) => !part2_faults(input@) && v as nat == part2_score(input@),
            None => part2_faults(input@) || part2_score(input@) > usize::MAX,
        },
{
    if input.len() % 2 == 1 && input[input.len() - 1] != 120 {
        return None;
    }
    let base = match with_d_bonus(input) {
        Some(v) => v,
        None => {
            return None;
        },
    };
    let mut res = base;
    let mut i: usize = 0;
    while i < input.len() && i + 1 < input.len()
        invariant
            0 <= i <= input@.len() + 1,
            res as nat + pair_bonus(input@, i as int) == part2_score(input@),
        decreases input@.len() - i,
    {
        if input[i] != 120 && input[i + 1] != 120 {
            if res > usize::MAX - 2 {
                return None;
            }
            res += 2;
        }
        i += 2;
    }
    Some(res)
}

/// Third-tier score: the first tier's points, 5 for each `D`, and for every
/// group of three, 6 without an `x` or 2 with exactly one; the last group
/// may be short. `None` exactly when the score passes `usize`.
pub fn part3(input: &[u8]) -> (r: Option<usize>)
    ensures
        match r {
            Some(v) => v as nat == part3_score(input@),
            None => part3_score(input@) > usize::MAX,
        },
{
    let base = match with_d_bonus(input) {
        Some(v) => v,
        None => {
            return None;
        },
    };
    let mut res = base;
    let mut i: usize = 0;
    while i < input.len()
        invariant
            0 <= i <= input@.len(),
            res as nat + triple_bonus(input@, i as int) == part3_score(input@),
        decreases input@.len() - i,
    {
        let hi = if input.len() - i >= 3 {
            i + 3
        } else {
            input.len()
        };
        let mut xs: usize = 0;
        let mut j: usize = i;
        proof {
            assert(input@.subrange(i as int, i as int) =~= Seq::<u8>::empty());
        }
        while j < hi
            invariant
                i <= j <= hi <= input@.len(),
                xs as nat == count_byte(input@.subrange(i as int, j as int), 120),
                xs <= j - i,
            decreases hi - j,
        {
            proof {
                assert(input@.subrange(i as int, j + 1).drop_last() =~= input@.subrange(
                    i as int,
                    j as int,
                ));
                assert(input@.subrange(i as int, j + 1).last() == input@[j as int]);
            }
            if input[j] == 120 {
                xs += 1;
            }
            j += 1;
        }
        let bonus: usize = if xs == 0 {
            6
        } else if xs == 1 {
            2
        } else {
            0
        };
        proof {
            assert(input@.subrange(i as int, j as int) == input@.subrange(i as int, hi as int));
            assert(triple_bonus(input@, i as int) == bonus as nat + triple_bonus(
                input@,
                i as int + 3,
            ));
            if hi < i + 3 {
                assert(triple_bonus(input@, i as int + 3) == 0);
                assert(triple_bonus(input@, hi as int) == 0);
            }
        }
        if res > usize::MAX - bonus {
            return None;
        }
        res += bonus;
        i = hi;
    }
    Some(res)
}

/// The shared base of the second and third tier: the first tier's score and
/// five points for each `D`.
fn with_d_bonus(input: &[u8]) -> (r: Option<usize>)
    ensures
        match r {
            Some(v) => v as nat == part1_score(input@) + count_byte(input@, 68) * 5,
            None => part1_score(input@) + count_byte(input@, 68) * 5 > usize::MAX,
        },
{
    let base = match part1(input) {
        Some(v) => v,
        None => {
            return None;
        },
    };
    let d = count_occurrences(input, 68);
    if d > (usize::MAX - base) / 5 {
        proof {
            assert(base + d * 5 > usize::MAX) by (nonlinear_arith)
                requires d > (usize::MAX - base) / 5, base <= usize::MAX;
        }
        return None;
    }
    proof {
        assert(base + d * 5 <= usize::MAX) by (nonlinear_arith)
            requires d <= (usize::MAX - base) / 5, base <= usize::MAX;
    }
    Some(base + d * 5)
}

} // verus!
