use vstd::prelude::*;

use crate::parse;

verus! {

/// Every line of `lines` is one unsigned number that fits in `usize`.
pub open spec fn all_nail_lines(lines: Seq<Seq<u8>>) -> bool {
    forall|i: int|
        0 <= i < lines.len() ==> parse::line_is_number(#[trigger] lines[i]) && parse::line_value(
            lines[i],
        ) <= usize::MAX
}

/// The nail heights named by `lines`, one per line.
pub open spec fn nail_values(lines: Seq<Seq<u8>>) -> Seq<nat> {
    lines.map_values(|l: Seq<u8>| parse::line_value(l))
}

/// The distance between two heights.
pub open spec fn dist(a: nat, b: nat) -> nat {
    if a >= b {
        (a - b) as nat
    } else {
        (b - a) as nat
    }
}

/// The hammer strikes needed to bring every nail to height `t`: one strike
/// moves one nail by one.
pub open spec fn spec_hits(ns: Seq<nat>, t: nat) -> nat
    decreases ns.len(),
{
    if ns.len() == 0 {
        0
    } else {
        spec_hits(ns.drop_last(), t) + dist(ns.last(), t)
    }
}

/// The smallest height among the nails.
pub open spec fn seq_min(ns: Seq<nat>) -> nat
    decreases ns.len(),
{
    if ns.len() <= 1 {
        ns[0]
    } else {
        let rest = seq_min(ns.drop_first());
        if ns[0] <= rest {
            ns[0]
        } else {
            rest
        }
    }
}

/// The summed height of the nails.
pub open spec fn seq_sum(ns: Seq<nat>) -> nat
    decreases ns.len(),
{
    if ns.len() == 0 {
        0
    } else {
        seq_sum(ns.drop_last()) + ns.last()
    }
}

/// Parses one nail height per line. `None` exactly when a line is not one
/// unsigned number that fits in `usize`.
pub fn get_nails(input: &[u8]) -> (r: Option<Vec<usize>>)
    ensures
        ({
            let lines = parse::spec_lines(input@);
            match r {
                Some(ns) => all_nail_lines(lines) && ns@.map_values(|x: usize| x as nat)
                    == nail_values(lines),
                None => !all_nail_lines(lines),
            }
        }),
{
    let ghost lns = parse::spec_lines(input@);
    let lines = parse::split_lines(input);
    let mut ns: Vec<usize> = Vec::new();
    let mut i: usize = 0;
    while i < lines.len()
        invariant
            0 <= i <= lines@.len(),
            lns == parse::spec_lines(input@),
            lines@.map_values(|l: Vec<u8>| l@) == lns,
            ns@.len() == i,
            forall|k: int|
                0 <= k < i ==> parse::line_is_number(#[trigger] lns[k]) && parse::line_value(
                    lns[k],
                ) <= usize::MAX,
            forall|k: int| 0 <= k < i ==> (#[trigger] ns@[k]) as nat == parse::line_value(lns[k]),
        decreases lines@.len() - i,
    {
        proof {
            assert(lines@.map_values(|l: Vec<u8>| l@)[i as int] == lns[i as int]);
        }
        match parse::parse_usize(lines[i].as_slice()) {
            Some(v) => {
                ns.push(v);
            },
            None => {
                return None;
            },
        }
        i += 1;
    }
    proof {
        assert(ns@.map_values(|x: usize| x as nat) =~= nail_values(lns));
    }
    Some(ns)
}

/// The strikes needed to bring every nail to height `target`. `None` exactly
/// when that count passes `usize`.
pub fn count_hits_to_target(nails: &Vec<usize>, target: usize) -> (r: Option<usize>)
    ensures
        ({
            let ns = nails@.map_values(|x: usize| x as nat);
            match r {
                Some(v) => v as nat == spec_hits(ns, target as nat),
                None => spec_hits(ns, target as nat) > usize::MAX,
            }
        }),
{
    let ghost ns = nails@.map_values(|x: usize| x as nat);
    let mut total: usize = 0;
    let mut i: usize = 0;
    proof {
        assert(ns.take(0) =~= Seq::<nat>::empty());
    }
    while i < nails.len()
        invariant
            0 <= i <= nails@.len(),
            ns == nails@.map_values(|x: usize| x as nat),
            total as nat == spec_hits(ns.take(i as int), target as nat),
        decreases nails@.len() - i,
    {
        proof {
            assert(ns.take(i + 1).drop_last() =~= ns.take(i as int));
            assert(ns.take(i + 1).last() == ns[i as int]);
            assert(ns[i as int] == nails@[i as int] as nat);
        }
        let n = nails[i];
        let d = if n >= target {
            n - target
        } else {
            target - n
        };
        if total > usize::MAX - d {
            proof {
                lemma_hits_prefix(ns, target as nat, i + 1);
            }
            return None;
        }
        total = total + d;
        i += 1;
    }
    proof {
        assert(ns.take(ns.len() as int) =~= ns);
    }
    Some(total)
}

/// The whole count is at least any prefix's count.
proof fn lemma_hits_prefix(ns: Seq<nat>, t: nat, k: int)
    requires
        0 <= k <= ns.len(),
    ensures
        spec_hits(ns, t) >= spec_hits(ns.take(k), t),
    decreases ns.len() - k,
{
    if k < ns.len() {
        lemma_hits_prefix(ns, t, k + 1);
        assert(ns.take(k + 1).drop_last() =~= ns.take(k));
    } else {
        assert(ns.take(k) =~= ns);
    }
}

/// Strikes to level every nail to the smallest height. `None` exactly when
/// the input is malformed, empty, or the count passes `usize`.
pub fn part1and2(input: &[u8]) -> (r: Option<usize>)
    ensures
        ({
            let ns = nail_values(parse::spec_lines(input@));
            match r {
                Some(v) => all_nail_lines(parse::spec_lines(input@)) && ns.len() > 0 && v as nat
                    == spec_hits(ns, seq_min(ns)),
                None => !all_nail_lines(parse::spec_lines(input@)) || ns.len() == 0 || spec_hits(
                    ns,
                    seq_min(ns),
                ) > usize::MAX,
            }
        }),
{
    let ghost ns = nail_values(parse::spec_lines(input@));
    let nails = match get_nails(input) {
        Some(v) => v,
        None => {
            return None;
        },
    };
    if nails.len() == 0 {
        return None;
    }
    let mut min = nails[0];
    let mut i: usize = 1;
    while i < nails.len()
        invariant
            1 <= i <= nails@.len(),
            ns == nails@.map_values(|x: usize| x as nat),
            min as nat == seq_min(ns.take(i as int)),
        decreases nails@.len() - i,
    {
        proof {
            lemma_seq_min_push(ns, i as int);
        }
        if nails[i] < min {
            min = nails[i];
        }
        i += 1;
    }
    proof {
        assert(ns.take(ns.len() as int) =~= ns);
    }
    count_hits_to_target(&nails, min)
}

/// Taking one more element into the front-minimum compares it in at the end.
proof fn lemma_seq_min_push(ns: Seq<nat>, i: int)
    requires
        1 <= i < ns.len(),
    ensures
        seq_min(ns.take(i + 1)) == if seq_min(ns.take(i)) <= ns[i] {
            seq_min(ns.take(i))
        } else {
            ns[i]
        },
    decreases i,
{
    if i == 1 {
        assert(ns.take(2).drop_first() =~= ns.subrange(1, 2));
        assert(ns.subrange(1, 2).len() == 1);
        assert(seq_min(ns.subrange(1, 2)) == ns[1]);
        assert(ns.take(2)[0] == ns[0]);
        assert(ns.take(1).len() == 1);
        assert(seq_min(ns.take(1)) == ns[0]);
        assert(seq_min(ns.take(2)) == if ns[0] <= ns[1] {
            ns[0]
        } else {
            ns[1]
        });
    } else {
        let dropf = ns.drop_first();
        lemma_seq_min_push(dropf, i - 1);
        assert(ns.take(i + 1).drop_first() =~= dropf.take(i));
        assert(ns.take(i).drop_first() =~= dropf.take(i - 1));
        assert(dropf.take(i)[i - 1] == ns[i]);
        assert(ns.take(i + 1)[0] == ns[0]);
        assert(ns.take(i)[0] == ns[0]);
        assert(ns.take(i + 1).len() == i + 1 && i + 1 > 1);
        assert(ns.take(i).len() == i);
        assert(seq_min(ns.take(i + 1)) == if ns[0] <= seq_min(dropf.take(i)) {
            ns[0]
        } else {
            seq_min(dropf.take(i))
        });
        assert(seq_min(ns.take(i)) == if ns[0] <= seq_min(dropf.take(i - 1)) {
            ns[0]
        } else {
            seq_min(dropf.take(i - 1))
        });
    }
}


/// One walking search: from offset `off` on, strike counts for targets
/// `start + off` (up) or `start - off` (down) are tried while they keep
/// improving on `best`; the first worse count ends the walk with the best
/// seen. `None` where the walk leaves the representable heights or a count
/// passes `usize`.
pub open spec fn walk(ns: Seq<nat>, start: nat, up: bool, off: usize, best: nat) -> Option<nat>
    decreases usize::MAX - off,
{
    let target_ok = if up {
        start + off <= usize::MAX
    } else {
        off <= start
    };
    if !target_ok {
        None
    } else {
        let target = if up {
            (start + off) as nat
        } else {
            (start - off) as nat
        };
        let t = spec_hits(ns, target);
        if t > usize::MAX {
            None
        } else if t > best {
            Some(best)
        } else if off == usize::MAX {
            None
        } else {
            walk(ns, start, up, (off + 1) as usize, t)
        }
    }
}

/// The third tier's answer: walk up and walk down from the average height,
/// and take the smaller strike count. `None` where the nails are missing or
/// a value on the way passes `usize`.
pub open spec fn part3_value(ns: Seq<nat>) -> Option<nat> {
    if ns.len() == 0 || seq_sum(ns) > usize::MAX {
        None
    } else {
        let avg = seq_sum(ns) / ns.len();
        let b0 = spec_hits(ns, avg);
        if b0 > usize::MAX {
            None
        } else {
            match (walk(ns, avg, true, 1, b0), walk(ns, avg, false, 1, b0)) {
                (Some(a), Some(b)) => Some(if a <= b {
                    a
                } else {
                    b
                }),
                _ => None,
            }
        }
    }
}

fn try_walk(nails: &Vec<usize>, start: usize, up: bool, best0: usize) -> (r: Option<usize>)
    ensures
        ({
            let ns = nails@.map_values(|x: usize| x as nat);
            match r {
                Some(v) => walk(ns, start as nat, up, 1, best0 as nat) == Some(v as nat),
                None => walk(ns, start as nat, up, 1, best0 as nat) is None,
            }
        }),
{
    let ghost ns = nails@.map_values(|x: usize| x as nat);
    let mut off: usize = 1;
    let mut best: usize = best0;
    loop
        invariant
            1 <= off,
            ns == nails@.map_values(|x: usize| x as nat),
            walk(ns, start as nat, up, 1, best0 as nat) == walk(
                ns,
                start as nat,
                up,
                off,
                best as nat,
            ),
        decreases usize::MAX - off,
    {
        let target: usize;
        if up {
            if start > usize::MAX - off {
                return None;
            }
            target = start + off;
        } else {
            if off > start {
                return None;
            }
            target = start - off;
        }
        let t = match count_hits_to_target(nails, target) {
            Some(t) => t,
            None => {
                return None;
            },
        };
        if t > best {
            return Some(best);
        }
        if off == usize::MAX {
            return None;
        }
        off = off + 1;
        best = t;
    }
}

/// Strikes to level every nail to the best height near the average: walking
/// up and down from the average while the count improves, the smaller of the
/// two walks' best counts. `None` exactly when the input is malformed or a
/// value on the way passes the representable range.
pub fn part3(input: &[u8]) -> (r: Option<usize>)
    ensures
        ({
            let ns = nail_values(parse::spec_lines(input@));
            match r {
                Some(v) => all_nail_lines(parse::spec_lines(input@)) && part3_value(ns) == Some(
                    v as nat,
                ),
                None => !all_nail_lines(parse::spec_lines(input@)) || part3_value(ns) is None,
            }
        }),
{
    let ghost ns = nail_values(parse::spec_lines(input@));
    let nails = match get_nails(input) {
        Some(v) => v,
        None => {
            return None;
        },
    };
    if nails.len() == 0 {
        return None;
    }
    let mut sum: usize = 0;
    let mut i: usize = 0;
    proof {
        assert(ns.take(0) =~= Seq::<nat>::empty());
    }
    while i < nails.len()
        invariant
            0 <= i <= nails@.len(),
            ns == nail_values(parse::spec_lines(input@)),
            ns == nails@.map_values(|x: usize| x as nat),
            sum as nat == seq_sum(ns.take(i as int)),
        decreases nails@.len() - i,
    {
        proof {
            assert(ns.take(i + 1).drop_last() =~= ns.take(i as int));
            assert(ns.take(i + 1).last() == ns[i as int]);
            assert(ns[i as int] == nails@[i as int] as nat);
        }
        let n = nails[i];
        if sum > usize::MAX - n {
            proof {
                lemma_sum_prefix(ns, i + 1);
            }
            return None;
        }
        sum = sum + n;
        i += 1;
    }
    proof {
        assert(ns.take(ns.len() as int) =~= ns);
    }
    let avg = sum / nails.len();
    let b0 = match count_hits_to_target(&nails, avg) {
        Some(t) => t,
        None => {
            return None;
        },
    };
    let upward = try_walk(&nails, avg, true, b0);
    let downward = try_walk(&nails, avg, false, b0);
    match (upward, downward) {
        (Some(a), Some(b)) => Some(
            if a <= b {
                a
            } else {
                b
            },
        ),
        _ => None,
    }
}

/// The whole sum is at least any prefix's sum.
proof fn lemma_sum_prefix(ns: Seq<nat>, k: int)
    requires
        0 <= k <= ns.len(),
    ensures
        seq_sum(ns) >= seq_sum(ns.take(k)),
    decreases ns.len() - k,
{
    if k < ns.len() {
        lemma_sum_prefix(ns, k + 1);
        assert(ns.take(k + 1).drop_last() =~= ns.take(k));
    } else {
        assert(ns.take(k) =~= ns);
    }
}

} // verus!

