use vstd::prelude::*;

use crate::parse;
use crate::quest07;

verus! {

/// The prefix `WORDS:`.
pub open spec fn words_prefix() -> Seq<u8> {
    seq![87u8, 79u8, 82u8, 68u8, 83u8, 58u8]
}

/// The first line that starts with `WORDS:`, from line `i` on.
pub open spec fn find_words_line(lns: Seq<Seq<u8>>, i: int) -> Option<int>
    decreases lns.len() - i,
{
    if i < 0 || i >= lns.len() {
        None
    } else if lns[i].len() >= 6 && lns[i].take(6) == words_prefix() {
        Some(i)
    } else {
        find_words_line(lns, i + 1)
    }
}

/// The runes: the comma-separated fields after `WORDS:` on the first line
/// that carries them.
pub open spec fn spec_runes(lns: Seq<Seq<u8>>) -> Option<Seq<Seq<u8>>> {
    match find_words_line(lns, 0) {
        None => None,
        Some(i) => Some(quest07::split_on_comma(lns[i].skip(6))),
    }
}

/// How many times `r` occurs in `w` from `i` on, counted left to right
/// without overlap; the empty rune occurs at every point, the ends included.
pub open spec fn count_matches(w: Seq<u8>, r: Seq<u8>, i: int) -> nat
    decreases w.len() + 1 - i,
{
    if i < 0 || i > w.len() {
        0
    } else if i + r.len() <= w.len() && w.subrange(i, i + r.len()) == r {
        1 + count_matches(
            w,
            r,
            i + (if r.len() == 0 {
                1int
            } else {
                r.len() as int
            }),
        )
    } else if i < w.len() {
        count_matches(w, r, i + 1)
    } else {
        0
    }
}

/// The first tier's score: the occurrences of every rune in the last line,
/// summed over the runes from `j` on.
pub open spec fn part1_sum(w: Seq<u8>, rs: Seq<Seq<u8>>, j: int) -> nat
    decreases rs.len() - j,
{
    if j < 0 || j >= rs.len() {
        0
    } else {
        count_matches(w, rs[j], 0) + part1_sum(w, rs, j + 1)
    }
}

/// Counts the non-overlapping occurrences of `r` in `w`.
fn exec_count_matches(w: &[u8], r: &[u8]) -> (cnt: Option<usize>)
    ensures
        match cnt {
            Some(c) => c as nat == count_matches(w@, r@, 0),
            None => count_matches(w@, r@, 0) > usize::MAX,
        },
{
    let mut cnt: usize = 0;
    let mut i: usize = 0;
    while i <= w.len()
        invariant
            0 <= i <= w@.len() + 1,
            count_matches(w@, r@, 0) == cnt + count_matches(w@, r@, i as int),
        decreases w@.len() + 1 - i,
    {
        let is_match = if r.len() <= w.len() && i <= w.len() - r.len() {
            let window = vstd::slice::slice_subrange(w, i, i + r.len());
            crate::quest06::bytes_eq(window, r)
        } else {
            false
        };
        proof {
            if i + r@.len() <= w@.len() {
                assert(w@.subrange(i as int, i as int + r@.len()) =~= w@.subrange(
                    i as int,
                    i + r.len(),
                ));
            }
        }
        if is_match {
            if cnt == usize::MAX {
                return None;
            }
            cnt = cnt + 1;
            if r.len() == 0 {
                proof {
                    assert(count_matches(w@, r@, i as int) == 1 + count_matches(
                        w@,
                        r@,
                        i as int + 1,
                    ));
                }
                if i == w.len() {
                    proof {
                        assert(count_matches(w@, r@, i as int + 1) == 0);
                    }
                    return Some(cnt);
                }
                i = i + 1;
            } else {
                proof {
                    assert(count_matches(w@, r@, i as int) == 1 + count_matches(
                        w@,
                        r@,
                        i + r@.len(),
                    ));
                }
                i = i + r.len();
            }
        } else {
            if i == w.len() {
                proof {
                    if r@.len() == 0 {
                        assert(w@.subrange(i as int, i as int) =~= r@);
                    }
                    assert(count_matches(w@, r@, i as int) == 0);
                }
                return Some(cnt);
            }
            i = i + 1;
        }
    }
    proof {
        assert(count_matches(w@, r@, i as int) == 0);
    }
    Some(cnt)
}

/// First tier: every rune's occurrences in the last line, summed. `None`
/// exactly when there is no `WORDS:` line, no last line, or the sum passes
/// `usize`.
pub fn part1(input: &[u8]) -> (res: Option<usize>)
    ensures
        ({
            let lns = parse::spec_lines(input@);
            match res {
                Some(v) => spec_runes(lns) matches Some(rs) && lns.len() > 0 && v as nat
                    == part1_sum(lns.last(), rs, 0),
                None => spec_runes(lns) is None || lns.len() == 0 || part1_sum(
                    lns.last(),
                    spec_runes(lns).unwrap(),
                    0,
                ) > usize::MAX,
            }
        }),
{
    let ghost lns = parse::spec_lines(input@);
    let lines = parse::split_lines(input);
    let runes = match get_runes(&lines, Ghost(lns)) {
        Some(r) => r,
        None => {
            return None;
        },
    };
    if lines.len() == 0 {
        return None;
    }
    let words = &lines[lines.len() - 1];
    proof {
        assert(lines@.map_values(|l: Vec<u8>| l@)[lns.len() - 1] == lns.last());
    }
    let ghost rs = spec_runes(lns).unwrap();
    let mut total: usize = 0;
    let mut j: usize = 0;
    while j < runes.len()
        invariant
            0 <= j <= runes@.len(),
            lns == parse::spec_lines(input@),
            lns.len() > 0,
            words@ == lns.last(),
            spec_runes(lns) == Some(rs),
            runes@.map_values(|t: Vec<u8>| t@) == rs,
            part1_sum(lns.last(), rs, 0) == total + part1_sum(lns.last(), rs, j as int),
        decreases runes@.len() - j,
    {
        proof {
            assert(runes@.map_values(|t: Vec<u8>| t@)[j as int] == rs[j as int]);
        }
        let c = match exec_count_matches(words.as_slice(), runes[j].as_slice()) {
            Some(c) => c,
            None => {
                return None;
            },
        };
        if total > usize::MAX - c {
            return None;
        }
        total = total + c;
        j += 1;
    }
    Some(total)
}

/// The runes of the input's `WORDS:` line. `None` exactly when no line
/// starts so.
fn get_runes(lines: &Vec<Vec<u8>>, Ghost(lns): Ghost<Seq<Seq<u8>>>) -> (r: Option<Vec<Vec<u8>>>)
    requires
        lines@.map_values(|l: Vec<u8>| l@) == lns,
    ensures
        match r {
            Some(v) => spec_runes(lns) matches Some(rs) && v@.map_values(|t: Vec<u8>| t@) == rs,
            None => spec_runes(lns) is None,
        },
{
    let mut i: usize = 0;
    while i < lines.len()
        invariant
            0 <= i <= lines@.len(),
            lines@.map_values(|l: Vec<u8>| l@) == lns,
            find_words_line(lns, 0) == find_words_line(lns, i as int),
        decreases lines@.len() - i,
    {
        proof {
            assert(lines@.map_values(|l: Vec<u8>| l@)[i as int] == lns[i as int]);
        }
        let line = &lines[i];
        let is_words = if line.len() >= 6 {
            let pre = vstd::slice::slice_subrange(line.as_slice(), 0, 6);
            let wp: Vec<u8> = vec![87, 79, 82, 68, 83, 58];
            proof {
                assert(wp@ =~= words_prefix());
                assert(pre@ =~= lns[i as int].take(6));
            }
            crate::quest06::bytes_eq(pre, wp.as_slice())
        } else {
            false
        };
        if is_words {
            let rest = vstd::slice::slice_subrange(line.as_slice(), 6, line.len());
            proof {
                assert(rest@ =~= lns[i as int].skip(6));
            }
            let toks = quest07::exec_split_on_comma(rest);
            proof {
                assert(find_words_line(lns, 0) == Some(i as int));
            }
            return Some(toks);
        }
        i += 1;
    }
    None
}


/// The lines joined with newlines between them.
pub open spec fn join_nl(lns: Seq<Seq<u8>>) -> Seq<u8>
    decreases lns.len(),
{
    if lns.len() == 0 {
        Seq::empty()
    } else if lns.len() == 1 {
        lns[0]
    } else {
        join_nl(lns.drop_last()) + seq![10u8] + lns.last()
    }
}

/// The sequence read backwards.
pub open spec fn rev_of(s: Seq<u8>) -> Seq<u8> {
    Seq::new(s.len(), |i: int| s[s.len() - 1 - i])
}

/// The used marks with positions `p` to `p + n` set.
pub open spec fn mark_span(used: Seq<bool>, p: int, n: int) -> Seq<bool> {
    Seq::new(
        used.len(),
        |i: int|
            if p <= i < p + n {
                true
            } else {
                used[i]
            },
    )
}

/// One rune swept over the line: every window equal to the rune or its
/// reverse marks its span.
pub open spec fn sweep_rune(w: Seq<u8>, r: Seq<u8>, rr: Seq<u8>, used: Seq<bool>, p: int) -> Seq<
    bool,
>
    decreases w.len() - r.len() - p + 1,
{
    if p < 0 || p + r.len() > w.len() {
        used
    } else {
        let u2 = if w.subrange(p, p + r.len()) == r || w.subrange(p, p + r.len()) == rr {
            mark_span(used, p, r.len() as int)
        } else {
            used
        };
        sweep_rune(w, r, rr, u2, p + 1)
    }
}

/// Every rune swept in turn.
pub open spec fn sweep_all(w: Seq<u8>, rs: Seq<Seq<u8>>, used: Seq<bool>, j: int) -> Seq<bool>
    decreases rs.len() - j,
{
    if j < 0 || j >= rs.len() {
        used
    } else {
        sweep_all(w, rs, sweep_rune(w, rs[j], rev_of(rs[j]), used, 0), j + 1)
    }
}

/// How many marks are set.
pub open spec fn count_true(s: Seq<bool>) -> nat
    decreases s.len(),
{
    if s.len() == 0 {
        0
    } else {
        count_true(s.drop_last()) + (if s.last() {
            1nat
        } else {
            0nat
        })
    }
}

/// The text the runes are sought in: everything from the third line on.
pub open spec fn scroll_text(lns: Seq<Seq<u8>>) -> Seq<u8> {
    if lns.len() >= 2 {
        join_nl(lns.skip(2))
    } else {
        join_nl(Seq::empty())
    }
}

/// Second tier: how many letters of the scroll, the third line on, stand
/// inside some rune read forward or backward. `None` exactly when there is
/// no `WORDS:` line or a rune is empty.
pub fn part2(input: &[u8]) -> (res: Option<usize>)
    ensures
        ({
            let lns = parse::spec_lines(input@);
            let w = scroll_text(lns);
            match res {
                Some(v) => spec_runes(lns) matches Some(rs) && (forall|j: int|
                    0 <= j < rs.len() ==> (#[trigger] rs[j]).len() >= 1) && v as nat == count_true(
                    sweep_all(w, rs, Seq::new(w.len(), |i: int| false), 0),
                ),
                None => spec_runes(lns) is None || (spec_runes(lns) matches Some(rs) && exists|
                    j: int,
                |
                    0 <= j < rs.len() && (#[trigger] rs[j]).len() == 0),
            }
        }),
{
    let ghost lns = parse::spec_lines(input@);
    let lines = parse::split_lines(input);
    let runes = match get_runes(&lines, Ghost(lns)) {
        Some(r) => r,
        None => {
            return None;
        },
    };
    let ghost rs = spec_runes(lns).unwrap();
    let mut words: Vec<u8> = Vec::new();
    let mut li: usize = 2;
    proof {
        if lns.len() >= 2 {
            assert(lns.skip(2).take(0) =~= Seq::<Seq<u8>>::empty());
        }
        assert(join_nl(Seq::empty()) == Seq::<u8>::empty());
        assert(words@ =~= join_nl(Seq::empty()));
    }
    while li < lines.len()
        invariant
            2 <= li <= lines@.len() + 2,
            lns == parse::spec_lines(input@),
            lines@.map_values(|l: Vec<u8>| l@) == lns,
            lns.len() >= 2 ==> li <= lns.len() + 2 && (li - 2 <= lns.skip(2).len()) && words@
                == join_nl(lns.skip(2).take(li - 2)),
            lns.len() < 2 ==> words@ == join_nl(Seq::empty()),
        decreases lines@.len() - li,
    {
        proof {
            assert(lines@.map_values(|l: Vec<u8>| l@)[li as int] == lns[li as int]);
        }
        if li > 2 {
            words.push(10);
        }
        let mut k: usize = 0;
        let line = &lines[li];
        while k < line.len()
            invariant
                0 <= k <= line@.len(),
                lns == parse::spec_lines(input@),
                2 <= li < lns.len(),
                line@ == lns[li as int],
                lns.len() >= 2,
                li - 2 < lns.skip(2).len(),
                li > 2 ==> words@ == join_nl(lns.skip(2).take(li - 2)) + seq![10u8] + line@.take(
                    k as int,
                ),
                li == 2 ==> words@ == join_nl(lns.skip(2).take(li - 2)) + line@.take(k as int),
            decreases line@.len() - k,
        {
            words.push(line[k]);
            proof {
                assert(line@.take(k + 1) =~= line@.take(k as int).push(line@[k as int]));
            }
            k += 1;
        }
        proof {
            let t = lns.skip(2);
            assert(line@.take(line@.len() as int) =~= line@);
            assert(t.take(li - 2 + 1).drop_last() =~= t.take(li - 2));
            assert(t.take(li - 2 + 1).last() == t[li - 2]);
            assert(t[li - 2] == lns[li as int]);
            if li > 2 {
                assert(t.take(li - 2 + 1).len() >= 2);
                assert(join_nl(t.take(li - 2 + 1)) == join_nl(t.take(li - 2)) + seq![10u8]
                    + line@);
            } else {
                assert(t.take(1).len() == 1);
                assert(join_nl(t.take(1)) == t[0]);
                assert(join_nl(t.take(0)) + line@ =~= t[0]);
            }
            assert(words@ == join_nl(t.take(li - 2 + 1)));
        }
        li += 1;
    }
    proof {
        if lns.len() >= 2 {
            assert(lns.skip(2).take(lns.skip(2).len() as int) =~= lns.skip(2));
        }
        assert(words@ == scroll_text(lns));
    }
    let ghost w = words@;
    let mut used: Vec<bool> = Vec::new();
    let mut k: usize = 0;
    while k < words.len()
        invariant
            0 <= k <= words@.len(),
            used@.len() == k,
            forall|i: int| 0 <= i < k ==> !(#[trigger] used@[i]),
        decreases words@.len() - k,
    {
        used.push(false);
        k += 1;
    }
    proof {
        assert(used@ =~= Seq::new(w.len(), |i: int| false));
    }
    let mut j: usize = 0;
    while j < runes.len()
        invariant
            0 <= j <= runes@.len(),
            lns == parse::spec_lines(input@),
            w == scroll_text(lns),
            words@ == w,
            spec_runes(lns) == Some(rs),
            runes@.map_values(|t: Vec<u8>| t@) == rs,
            used@.len() == w.len(),
            forall|t: int| 0 <= t < j ==> (#[trigger] rs[t]).len() >= 1,
            sweep_all(w, rs, Seq::new(w.len(), |i: int| false), 0) == sweep_all(w, rs, used@, j as int),
        decreases runes@.len() - j,
    {
        proof {
            assert(runes@.map_values(|t: Vec<u8>| t@)[j as int] == rs[j as int]);
        }
        let rune = &runes[j];
        if rune.len() == 0 {
            proof {
                assert(rs[j as int].len() == 0);
                assert(spec_runes(parse::spec_lines(input@)).unwrap()[j as int].len() == 0);
            }
            return None;
        }
        let mut rr: Vec<u8> = Vec::new();
        let mut k: usize = 0;
        while k < rune.len()
            invariant
                0 <= k <= rune@.len(),
                rr@.len() == k,
                forall|i: int| 0 <= i < k ==> (#[trigger] rr@[i]) == rune@[rune@.len() - 1 - i],
            decreases rune@.len() - k,
        {
            rr.push(rune[rune.len() - 1 - k]);
            k += 1;
        }
        proof {
            assert(rr@ =~= rev_of(rune@));
        }
        let ghost u0 = used@;
        let mut p: usize = 0;
        while rune.len() <= words.len() && p <= words.len() - rune.len()
            invariant
                0 <= p,
                rune@.len() >= 1,
                p <= words@.len() + 1,
                words@ == w,
                rr@ == rev_of(rune@),
                used@.len() == w.len(),
                sweep_rune(w, rune@, rev_of(rune@), u0, 0) == sweep_rune(
                    w,
                    rune@,
                    rev_of(rune@),
                    used@,
                    p as int,
                ),
            decreases words@.len() - p,
        {
            let window = vstd::slice::slice_subrange(words.as_slice(), p, p + rune.len());
            let hit = crate::quest06::bytes_eq(window, rune.as_slice()) || crate::quest06::bytes_eq(
                window,
                rr.as_slice(),
            );
            proof {
                assert(window@ =~= w.subrange(p as int, p as int + rune@.len()));
            }
            if hit {
                let ghost upre = used@;
                let _used_len = used.len();
                proof {
                    assert(used@.len() <= usize::MAX);
                }
                let mut n: usize = 0;
                while n < rune.len()
                    invariant
                        0 <= n <= rune@.len(),
                        p + rune@.len() <= w.len(),
                        w.len() <= usize::MAX,
                        used@.len() == w.len(),
                        upre.len() == w.len(),
                        forall|i: int|
                            0 <= i < w.len() ==> (#[trigger] used@[i]) == (if p <= i < p + n {
                                true
                            } else {
                                upre[i]
                            }),
                    decreases rune@.len() - n,
                {
                    used[p + n] = true;
                    n += 1;
                }
                proof {
                    assert(used@ =~= mark_span(upre, p as int, rune@.len() as int));
                }
            }
            p += 1;
        }
        proof {
            assert(sweep_rune(w, rune@, rev_of(rune@), used@, p as int) == used@);
            assert(sweep_all(w, rs, u0, j as int) == sweep_all(w, rs, used@, j as int + 1));
        }
        j += 1;
    }
    let mut total: usize = 0;
    let mut k: usize = 0;
    proof {
        assert(used@.take(0) =~= Seq::<bool>::empty());
    }
    while k < used.len()
        invariant
            0 <= k <= used@.len(),
            lns == parse::spec_lines(input@),
            w == scroll_text(lns),
            spec_runes(lns) == Some(rs),
            forall|t: int| 0 <= t < rs.len() ==> (#[trigger] rs[t]).len() >= 1,
            used@ == sweep_all(w, rs, Seq::new(w.len(), |i: int| false), 0),
            total <= k,
            total as nat == count_true(used@.take(k as int)),
        decreases used@.len() - k,
    {
        proof {
            assert(used@.take(k + 1).drop_last() =~= used@.take(k as int));
            assert(used@.take(k + 1).last() == used@[k as int]);
        }
        if used[k] {
            total += 1;
        }
        k += 1;
    }
    proof {
        assert(used@.take(used@.len() as int) =~= used@);
    }
    Some(total)
}


/// The pieces of `s` split at every `\n\n`, from `i` on, with `cur` the
/// piece read so far.
pub open spec fn blocks_acc(s: Seq<u8>, i: int, cur: Seq<u8>) -> Seq<Seq<u8>>
    decreases s.len() - i,
{
    if i < 0 || i >= s.len() {
        seq![cur]
    } else if i + 1 < s.len() && s[i] == 10 && s[i + 1] == 10 {
        seq![cur] + blocks_acc(s, i + 2, Seq::empty())
    } else {
        blocks_acc(s, i + 1, cur.push(s[i]))
    }
}

/// The second blank-line-separated block of the input, or nothing.
pub open spec fn grid_block(s: Seq<u8>) -> Seq<u8> {
    let bs = blocks_acc(s, 0, Seq::empty());
    if bs.len() >= 2 {
        bs[1]
    } else {
        Seq::empty()
    }
}

/// The grid has a row and all rows are one width.
pub open spec fn grid_ok(g: Seq<Seq<u8>>) -> bool {
    g.len() >= 1 && forall|i: int| 0 <= i < g.len() ==> (#[trigger] g[i]).len() == g[0].len()
}

/// The rune lies along row `row` from column `p` on, wrapping around.
pub open spec fn cyc_match(g: Seq<Seq<u8>>, row: int, p: int, r: Seq<u8>) -> bool {
    forall|n: int| 0 <= n < r.len() ==> g[row][(p + n) % (g[0].len() as int)] == (#[trigger] r[n])
}

/// The row's marks with the rune's wrapped span from `p` set.
pub open spec fn mark_wrap(m: Seq<Seq<bool>>, row: int, p: int, len: int, w: int) -> Seq<
    Seq<bool>,
> {
    m.update(
        row,
        Seq::new(
            m[row].len(),
            |c: int|
                if exists|n: int| 0 <= n < len && c == #[trigger] ((p + n) % w) {
                    true
                } else {
                    m[row][c]
                },
        ),
    )
}

/// One rune swept along one row, wrapping: every start whose wrapped window
/// reads the rune or its reverse marks its span.
pub open spec fn sweep_row_wrap(
    g: Seq<Seq<u8>>,
    r: Seq<u8>,
    rr: Seq<u8>,
    m: Seq<Seq<bool>>,
    row: int,
    p: int,
) -> Seq<Seq<bool>>
    decreases g[0].len() - p,
{
    if p < 0 || p >= g[0].len() {
        m
    } else {
        let m2 = if cyc_match(g, row, p, r) || cyc_match(g, row, p, rr) {
            mark_wrap(m, row, p, r.len() as int, g[0].len() as int)
        } else {
            m
        };
        sweep_row_wrap(g, r, rr, m2, row, p + 1)
    }
}

/// One rune swept along every row.
pub open spec fn sweep_rows(
    g: Seq<Seq<u8>>,
    r: Seq<u8>,
    rr: Seq<u8>,
    m: Seq<Seq<bool>>,
    row: int,
) -> Seq<Seq<bool>>
    decreases g.len() - row,
{
    if row < 0 || row >= g.len() {
        m
    } else {
        sweep_rows(g, r, rr, sweep_row_wrap(g, r, rr, m, row, 0), row + 1)
    }
}

/// The rune stands down column `col` from row `p` on.
pub open spec fn vert_match(g: Seq<Seq<u8>>, col: int, p: int, r: Seq<u8>) -> bool {
    forall|n: int| 0 <= n < r.len() ==> g[p + n][col] == (#[trigger] r[n])
}

/// The marks with the rune's vertical span from `p` down column `col` set.
pub open spec fn mark_down(m: Seq<Seq<bool>>, col: int, p: int, len: int) -> Seq<Seq<bool>> {
    Seq::new(
        m.len(),
        |x: int|
            if p <= x < p + len {
                m[x].update(col, true)
            } else {
                m[x]
            },
    )
}

/// One rune swept down one column: every start whose window reads the rune
/// or its reverse marks its span.
pub open spec fn sweep_col_down(
    g: Seq<Seq<u8>>,
    r: Seq<u8>,
    rr: Seq<u8>,
    m: Seq<Seq<bool>>,
    col: int,
    p: int,
) -> Seq<Seq<bool>>
    decreases g.len() - r.len() - p + 1,
{
    if p < 0 || p + r.len() > g.len() {
        m
    } else {
        let m2 = if vert_match(g, col, p, r) || vert_match(g, col, p, rr) {
            mark_down(m, col, p, r.len() as int)
        } else {
            m
        };
        sweep_col_down(g, r, rr, m2, col, p + 1)
    }
}

/// One rune swept down every column.
pub open spec fn sweep_cols(
    g: Seq<Seq<u8>>,
    r: Seq<u8>,
    rr: Seq<u8>,
    m: Seq<Seq<bool>>,
    col: int,
) -> Seq<Seq<bool>>
    decreases g[0].len() - col,
{
    if col < 0 || col >= g[0].len() {
        m
    } else {
        sweep_cols(g, r, rr, sweep_col_down(g, r, rr, m, col, 0), col + 1)
    }
}

/// Every rune swept along the rows and down the columns, in turn.
pub open spec fn sweep_grid(g: Seq<Seq<u8>>, rs: Seq<Seq<u8>>, m: Seq<Seq<bool>>, j: int) -> Seq<
    Seq<bool>,
>
    decreases rs.len() - j,
{
    if j < 0 || j >= rs.len() {
        m
    } else {
        let m2 = sweep_cols(g, rs[j], rev_of(rs[j]), sweep_rows(g, rs[j], rev_of(rs[j]), m, 0), 0);
        sweep_grid(g, rs, m2, j + 1)
    }
}

/// How many marks the whole grid holds.
pub open spec fn count_true_grid(m: Seq<Seq<bool>>) -> nat
    decreases m.len(),
{
    if m.len() == 0 {
        0
    } else {
        count_true_grid(m.drop_last()) + count_true(m.last())
    }
}

/// The fresh, unmarked grid of the given shape.
pub open spec fn no_marks(h: int, w: int) -> Seq<Seq<bool>> {
    Seq::new(h as nat, |x: int| Seq::new(w as nat, |c: int| false))
}


/// The marks as the view of the vectors that hold them.
pub open spec fn marks_view(v: Seq<Vec<bool>>) -> Seq<Seq<bool>> {
    v.map_values(|r: Vec<bool>| r@)
}

/// Marks the rune's span: along row `i` from column `j` wrapping, or down
/// column `j` from row `i`.
fn set_used(marks: &mut Vec<Vec<bool>>, i: usize, j: usize, len: usize, horizontal: bool)
    requires
        horizontal ==> i < old(marks)@.len() && old(marks)@[i as int]@.len() >= 1 && j < old(
            marks,
        )@[i as int]@.len(),
        !horizontal ==> i + len <= old(marks)@.len() && (forall|x: int|
            i <= x < i + len ==> j < (#[trigger] old(marks)@[x])@.len()),
    ensures
        horizontal ==> marks_view(final(marks)@) == mark_wrap(
            marks_view(old(marks)@),
            i as int,
            j as int,
            len as int,
            old(marks)@[i as int]@.len() as int,
        ),
        !horizontal ==> marks_view(final(marks)@) == mark_down(
            marks_view(old(marks)@),
            j as int,
            i as int,
            len as int,
        ),
{
    let ghost m0 = marks_view(marks@);
    if horizontal {
        let w = marks[i].len();
        let mut idx = j;
        let mut n: usize = 0;
        proof {
            assert((j as int) % (w as int) == j) by (nonlinear_arith)
                requires 0 <= j < w;
        }
        while n < len
            invariant
                0 <= n <= len,
                i < marks@.len(),
                w == m0[i as int].len(),
                w >= 1,
                j < w,
                idx < w,
                idx as int == (j + n) % (w as int),
                marks@.len() == m0.len(),
                forall|x: int| 0 <= x < m0.len() && x != i ==> (#[trigger] marks@[x])@ == m0[x],
                marks@[i as int]@.len() == w,
                forall|c: int|
                    0 <= c < w ==> (#[trigger] marks@[i as int]@[c]) == (if exists|t: int|
                        0 <= t < n && c == #[trigger] ((j + t) % (w as int)) {
                        true
                    } else {
                        m0[i as int][c]
                    }),
            decreases len - n,
        {
            marks[i][idx] = true;
            proof {
                assert(idx as int == (j + n) % (w as int));
                assert forall|c: int| 0 <= c < w implies (#[trigger] marks@[i as int]@[c]) == (
                if exists|t: int| 0 <= t < n + 1 && c == #[trigger] ((j + t) % (w as int)) {
                    true
                } else {
                    m0[i as int][c]
                }) by {
                    if c == idx {
                        assert(0 <= n < n + 1 && c == (j + n) % (w as int));
                    }
                }
                assert((j + n + 1) % (w as int) == (idx + 1) % (w as int)) by (nonlinear_arith)
                    requires idx as int == (j + n) % (w as int), w >= 1;
            }
            n += 1;
            idx = if idx + 1 < w {
                idx + 1
            } else {
                proof {
                    assert((idx + 1) % (w as int) == 0) by (nonlinear_arith)
                        requires idx + 1 == w, w >= 1;
                }
                0
            };
            proof {
                assert((idx as int) == (j + n) % (w as int)) by (nonlinear_arith)
                    requires
                        (j + n) % (w as int) == (if idx == 0 { (w as int) % (w as int) } else { idx as int % (w as int) }),
                        0 <= idx < w,
                        w >= 1,
                ;
            }
        }
        proof {
            assert(marks_view(marks@) =~= mark_wrap(m0, i as int, j as int, len as int, w as int))
                by {
                assert forall|x: int| 0 <= x < m0.len() implies marks_view(marks@)[x] =~= mark_wrap(
                    m0,
                    i as int,
                    j as int,
                    len as int,
                    w as int,
                )[x] by {
                    assert(marks_view(marks@)[x] == marks@[x]@);
                }
            }
        }
    } else {
        let _marks_len = marks.len();
        let mut n: usize = 0;
        while n < len
            invariant
                0 <= n <= len,
                i + len <= marks@.len(),
                m0.len() <= usize::MAX,
                marks@.len() == m0.len(),
                forall|x: int|
                    i <= x < i + len ==> j < (#[trigger] m0[x]).len(),
                forall|x: int| 0 <= x < m0.len() ==> (#[trigger] marks@[x])@.len() == m0[x].len(),
                forall|x: int|
                    0 <= x < m0.len() && !(i <= x < i + n) ==> (#[trigger] marks@[x])@ == m0[x],
                forall|x: int|
                    i <= x < i + n ==> (#[trigger] marks@[x])@ == m0[x].update(j as int, true),
            decreases len - n,
        {
            marks[i + n][j] = true;
            n += 1;
        }
        proof {
            assert(marks_view(marks@) =~= mark_down(m0, j as int, i as int, len as int)) by {
                assert forall|x: int| 0 <= x < m0.len() implies marks_view(marks@)[x] =~= mark_down(
                    m0,
                    j as int,
                    i as int,
                    len as int,
                )[x] by {
                    assert(marks_view(marks@)[x] == marks@[x]@);
                }
            }
        }
    }
}

/// Whether the rune lies along the row from `p` on, wrapping around.
fn check_wrap(grow: &Vec<u8>, p: usize, r: &Vec<u8>) -> (res: bool)
    requires
        grow@.len() >= 1,
        p < grow@.len(),
    ensures
        res == (forall|n: int|
            0 <= n < r@.len() ==> grow@[(p + n) % (grow@.len() as int)] == (#[trigger] r@[n])),
{
    let w = grow.len();
    let mut idx = p;
    let mut n: usize = 0;
    proof {
        assert((p as int) % (w as int) == p) by (nonlinear_arith)
            requires 0 <= p < w;
    }
    while n < r.len()
        invariant
            0 <= n <= r@.len(),
            w == grow@.len(),
            w >= 1,
            p < w,
            idx < w,
            idx as int == (p + n) % (w as int),
            forall|t: int|
                0 <= t < n ==> grow@[(p + t) % (w as int)] == (#[trigger] r@[t]),
        decreases r@.len() - n,
    {
        if grow[idx] != r[n] {
            proof {
                assert(grow@[(p + n) % (w as int)] != r@[n as int]);
            }
            return false;
        }
        n += 1;
        idx = if idx + 1 < w {
            idx + 1
        } else {
            proof {
                assert((idx + 1) % (w as int) == 0) by (nonlinear_arith)
                    requires idx + 1 == w, w >= 1;
            }
            0
        };
        proof {
            assert((p + n) % (w as int) == (((p + n - 1) % (w as int)) + 1) % (w as int))
                by (nonlinear_arith)
                requires w >= 1, n >= 1;
            assert((idx as int) == (p + n) % (w as int)) by (nonlinear_arith)
                requires
                    (p + n) % (w as int) == (if idx == 0 { (w as int) % (w as int) } else { idx as int % (w as int) }),
                    0 <= idx < w,
                    w >= 1,
            ;
        }
    }
    true
}


/// Splits the input at every blank line.
fn exec_blocks(s: &[u8]) -> (r: Vec<Vec<u8>>)
    ensures
        r@.map_values(|b: Vec<u8>| b@) == blocks_acc(s@, 0, Seq::empty()),
{
    let mut out: Vec<Vec<u8>> = Vec::new();
    let mut cur: Vec<u8> = Vec::new();
    let mut i: usize = 0;
    while i < s.len()
        invariant
            0 <= i <= s@.len(),
            blocks_acc(s@, 0, Seq::empty()) == out@.map_values(|b: Vec<u8>| b@) + blocks_acc(
                s@,
                i as int,
                cur@,
            ),
        decreases s@.len() - i,
    {
        let two = i + 1 < s.len() && s[i] == 10 && s[i + 1] == 10;
        if two {
            let ghost pre = out@;
            out.push(cur);
            proof {
                assert(out@.map_values(|b: Vec<u8>| b@) =~= pre.map_values(|b: Vec<u8>| b@).push(
                    cur@,
                ));
                assert(pre.map_values(|b: Vec<u8>| b@) + (seq![cur@] + blocks_acc(
                    s@,
                    i as int + 2,
                    Seq::empty(),
                )) =~= out@.map_values(|b: Vec<u8>| b@) + blocks_acc(
                    s@,
                    i as int + 2,
                    Seq::empty(),
                ));
            }
            cur = Vec::new();
            i += 2;
        } else {
            cur.push(s[i]);
            i += 1;
        }
    }
    let ghost pre = out@;
    out.push(cur);
    proof {
        assert(out@.map_values(|b: Vec<u8>| b@) =~= pre.map_values(|b: Vec<u8>| b@).push(cur@));
        assert(out@.map_values(|b: Vec<u8>| b@) =~= blocks_acc(s@, 0, Seq::empty()));
    }
    out
}

/// Third tier: how many cells of the rune grid, the second block of the
/// input, stand inside some rune read along a row with wraparound or down a
/// column, forward or backward. `None` exactly when there is no `WORDS:`
/// line, a rune is empty, the grid is missing or uneven, or the count
/// passes `usize`.
pub fn part3(input: &[u8]) -> (res: Option<usize>)
    ensures
        ({
            let lns = parse::spec_lines(input@);
            let g = parse::spec_lines(grid_block(input@));
            match res {
                Some(v) => spec_runes(lns) matches Some(rs) && (forall|j: int|
                    0 <= j < rs.len() ==> (#[trigger] rs[j]).len() >= 1) && grid_ok(g) && v as nat
                    == count_true_grid(
                    sweep_grid(g, rs, no_marks(g.len() as int, g[0].len() as int), 0),
                ),
                None => spec_runes(lns) is None || (spec_runes(lns) matches Some(rs) && exists|
                    j: int,
                |
                    0 <= j < rs.len() && (#[trigger] rs[j]).len() == 0) || !grid_ok(g) || (
                spec_runes(lns) matches Some(rs) && count_true_grid(
                    sweep_grid(g, rs, no_marks(g.len() as int, g[0].len() as int), 0),
                ) > usize::MAX),
            }
        }),
{
    let ghost lns = parse::spec_lines(input@);
    let lines = parse::split_lines(input);
    let runes = match get_runes(&lines, Ghost(lns)) {
        Some(r) => r,
        None => {
            return None;
        },
    };
    let ghost rs = spec_runes(lns).unwrap();
    let blocks = exec_blocks(input);
    let empty_block: Vec<u8> = Vec::new();
    let gb: &Vec<u8> = if blocks.len() >= 2 {
        &blocks[1]
    } else {
        &empty_block
    };
    proof {
        if blocks@.len() >= 2 {
            assert(blocks@.map_values(|b: Vec<u8>| b@)[1] == grid_block(input@));
        } else {
            assert(blocks_acc(input@, 0, Seq::empty()).len() == blocks@.len());
            assert(gb@ =~= grid_block(input@));
        }
    }
    let glines = parse::split_lines(gb.as_slice());
    let ghost g = parse::spec_lines(grid_block(input@));
    if glines.len() == 0 {
        return None;
    }
    let w = glines[0].len();
    let h = glines.len();
    proof {
        assert(glines@.map_values(|l: Vec<u8>| l@)[0] == g[0]);
    }
    let mut x: usize = 0;
    while x < h
        invariant
            0 <= x <= h,
            g == parse::spec_lines(grid_block(input@)),
            glines@.map_values(|l: Vec<u8>| l@) == g,
            h == g.len(),
            w == g[0].len(),
            forall|k: int| 0 <= k < x ==> (#[trigger] g[k]).len() == w,
        decreases h - x,
    {
        proof {
            assert(glines@.map_values(|l: Vec<u8>| l@)[x as int] == g[x as int]);
        }
        if glines[x].len() != w {
            proof {
                assert(g[x as int].len() != g[0].len());
            }
            return None;
        }
        x += 1;
    }
    if w == 0 {
        proof {
            assert(forall|k: int| 0 <= k < g.len() ==> (#[trigger] g[k]).len() == 0);
        }
    }
    let mut marks: Vec<Vec<bool>> = Vec::new();
    let mut x: usize = 0;
    while x < h
        invariant
            0 <= x <= h,
            marks@.len() == x,
            forall|k: int|
                0 <= k < x ==> (#[trigger] marks@[k])@ =~= Seq::new(w as nat, |c: int| false),
        decreases h - x,
    {
        let mut row: Vec<bool> = Vec::new();
        let mut c: usize = 0;
        while c < w
            invariant
                0 <= c <= w,
                row@.len() == c,
                forall|k: int| 0 <= k < c ==> !(#[trigger] row@[k]),
            decreases w - c,
        {
            row.push(false);
            c += 1;
        }
        proof {
            assert(row@ =~= Seq::new(w as nat, |c: int| false));
        }
        marks.push(row);
        x += 1;
    }
    proof {
        assert(marks_view(marks@) =~= no_marks(h as int, w as int));
    }
    let mut j: usize = 0;
    while j < runes.len()
        invariant
            0 <= j <= runes@.len(),
            lns == parse::spec_lines(input@),
            g == parse::spec_lines(grid_block(input@)),
            glines@.map_values(|l: Vec<u8>| l@) == g,
            h == g.len(),
            h >= 1,
            w == g[0].len(),
            grid_ok(g),
            spec_runes(lns) == Some(rs),
            runes@.map_values(|t: Vec<u8>| t@) == rs,
            marks@.len() == h,
            forall|k: int| 0 <= k < h ==> (#[trigger] marks@[k])@.len() == w,
            forall|t: int| 0 <= t < j ==> (#[trigger] rs[t]).len() >= 1,
            sweep_grid(g, rs, no_marks(h as int, w as int), 0) == sweep_grid(
                g,
                rs,
                marks_view(marks@),
                j as int,
            ),
        decreases runes@.len() - j,
    {
        proof {
            assert(runes@.map_values(|t: Vec<u8>| t@)[j as int] == rs[j as int]);
        }
        let rune = &runes[j];
        if rune.len() == 0 {
            proof {
                assert(rs[j as int].len() == 0);
                assert(spec_runes(parse::spec_lines(input@)).unwrap()[j as int].len() == 0);
            }
            return None;
        }
        let mut rr: Vec<u8> = Vec::new();
        let mut k: usize = 0;
        while k < rune.len()
            invariant
                0 <= k <= rune@.len(),
                rr@.len() == k,
                forall|i: int| 0 <= i < k ==> (#[trigger] rr@[i]) == rune@[rune@.len() - 1 - i],
            decreases rune@.len() - k,
        {
            rr.push(rune[rune.len() - 1 - k]);
            k += 1;
        }
        proof {
            assert(rr@ =~= rev_of(rune@));
        }
        let ghost mj = marks_view(marks@);
        let mut row: usize = 0;
        while row < h
            invariant
                0 <= row <= h,
                g == parse::spec_lines(grid_block(input@)),
                glines@.map_values(|l: Vec<u8>| l@) == g,
                h == g.len(),
                w == g[0].len(),
                grid_ok(g),
                rune@ == rs[j as int],
                0 <= j < rs.len(),
                rr@ == rev_of(rune@),
                rune@.len() >= 1,
                marks@.len() == h,
                forall|k: int| 0 <= k < h ==> (#[trigger] marks@[k])@.len() == w,
                sweep_rows(g, rune@, rr@, mj, 0) == sweep_rows(
                    g,
                    rune@,
                    rr@,
                    marks_view(marks@),
                    row as int,
                ),
            decreases h - row,
        {
            proof {
                assert(glines@.map_values(|l: Vec<u8>| l@)[row as int] == g[row as int]);
            }
            let ghost mrow = marks_view(marks@);
            let mut p: usize = 0;
            while p < w
                invariant
                    0 <= p <= w,
                    0 <= row < h,
                    g == parse::spec_lines(grid_block(input@)),
                    glines@.map_values(|l: Vec<u8>| l@) == g,
                    h == g.len(),
                    w == g[0].len(),
                    grid_ok(g),
                    rune@ == rs[j as int],
                    0 <= j < rs.len(),
                    rr@ == rev_of(rune@),
                    rune@.len() >= 1,
                    marks@.len() == h,
                    forall|k: int| 0 <= k < h ==> (#[trigger] marks@[k])@.len() == w,
                    sweep_row_wrap(g, rune@, rr@, mrow, row as int, 0) == sweep_row_wrap(
                        g,
                        rune@,
                        rr@,
                        marks_view(marks@),
                        row as int,
                        p as int,
                    ),
                decreases w - p,
            {
                let grow = &glines[row];
                proof {
                    assert(grow@ == g[row as int]);
                    assert(grow@.len() == w);
                }
                let hit = check_wrap(grow, p, rune) || check_wrap(grow, p, &rr);
                proof {
                    assert(hit == (cyc_match(g, row as int, p as int, rune@) || cyc_match(
                        g,
                        row as int,
                        p as int,
                        rr@,
                    )));
                }
                if hit {
                    let ghost mpre = marks_view(marks@);
                    set_used(&mut marks, row, p, rune.len(), true);
                    proof {
                        assert(marks_view(marks@) == mark_wrap(
                            mpre,
                            row as int,
                            p as int,
                            rune@.len() as int,
                            w as int,
                        ));
                        assert forall|k: int| 0 <= k < h implies (#[trigger] marks@[k])@.len()
                            == w by {
                            assert(marks@[k]@ == marks_view(marks@)[k]);
                            assert(mpre[k].len() == w);
                        }
                    }
                }
                p += 1;
            }
            row += 1;
        }
        let ghost mv = marks_view(marks@);
        proof {
            assert(sweep_rows(g, rune@, rr@, mj, 0) == mv);
        }
        let mut col: usize = 0;
        while col < w
            invariant
                0 <= col <= w,
                g == parse::spec_lines(grid_block(input@)),
                glines@.map_values(|l: Vec<u8>| l@) == g,
                h == g.len(),
                h >= 1,
                w == g[0].len(),
                grid_ok(g),
                rune@ == rs[j as int],
                0 <= j < rs.len(),
                rr@ == rev_of(rune@),
                rune@.len() >= 1,
                marks@.len() == h,
                forall|k: int| 0 <= k < h ==> (#[trigger] marks@[k])@.len() == w,
                sweep_cols(g, rune@, rr@, mv, 0) == sweep_cols(
                    g,
                    rune@,
                    rr@,
                    marks_view(marks@),
                    col as int,
                ),
            decreases w - col,
        {
            let mut colv: Vec<u8> = Vec::new();
            let mut x: usize = 0;
            while x < h
                invariant
                    0 <= x <= h,
                    0 <= col < w,
                    g == parse::spec_lines(grid_block(input@)),
                    glines@.map_values(|l: Vec<u8>| l@) == g,
                    h == g.len(),
                    w == g[0].len(),
                    grid_ok(g),
                    colv@.len() == x,
                    forall|k: int| 0 <= k < x ==> (#[trigger] colv@[k]) == g[k][col as int],
                decreases h - x,
            {
                proof {
                    assert(glines@.map_values(|l: Vec<u8>| l@)[x as int] == g[x as int]);
                    assert(g[x as int].len() == w);
                }
                colv.push(glines[x][col]);
                x += 1;
            }
            let ghost mcol = marks_view(marks@);
            let mut p: usize = 0;
            while rune.len() <= h && p <= h - rune.len()
                invariant
                    0 <= p,
                    p <= h + 1,
                    0 <= col < w,
                    g == parse::spec_lines(grid_block(input@)),
                    h == g.len(),
                    w == g[0].len(),
                    grid_ok(g),
                    rune@.len() >= 1,
                    rr@ == rev_of(rune@),
                    colv@.len() == h,
                    forall|k: int| 0 <= k < h ==> (#[trigger] colv@[k]) == g[k][col as int],
                    marks@.len() == h,
                    forall|k: int| 0 <= k < h ==> (#[trigger] marks@[k])@.len() == w,
                    sweep_col_down(g, rune@, rr@, mcol, col as int, 0) == sweep_col_down(
                        g,
                        rune@,
                        rr@,
                        marks_view(marks@),
                        col as int,
                        p as int,
                    ),
                decreases h - p,
            {
                let window = vstd::slice::slice_subrange(colv.as_slice(), p, p + rune.len());
                let hit = crate::quest06::bytes_eq(window, rune.as_slice())
                    || crate::quest06::bytes_eq(window, rr.as_slice());
                proof {
                    let wspec = Seq::new(rune@.len(), |n: int| g[p + n][col as int]);
                    assert(window@ =~= wspec);
                    assert(vert_match(g, col as int, p as int, rune@) == (wspec == rune@)) by {
                        if wspec == rune@ {
                            assert(forall|n: int|
                                0 <= n < rune@.len() ==> g[p + n][col as int] == (
                                #[trigger] rune@.index(n)));
                        }
                        if vert_match(g, col as int, p as int, rune@) {
                            assert(wspec =~= rune@);
                        }
                    }
                    assert(vert_match(g, col as int, p as int, rr@) == (wspec == rr@)) by {
                        if wspec == rr@ {
                            assert(forall|n: int|
                                0 <= n < rr@.len() ==> g[p + n][col as int] == (#[trigger] rr@[n]));
                        }
                        if vert_match(g, col as int, p as int, rr@) {
                            assert(wspec =~= rr@);
                        }
                    }
                }
                if hit {
                    let ghost mpre = marks_view(marks@);
                    set_used(&mut marks, p, col, rune.len(), false);
                    proof {
                        assert(marks_view(marks@) == mark_down(
                            mpre,
                            col as int,
                            p as int,
                            rune@.len() as int,
                        ));
                        assert forall|k: int| 0 <= k < h implies (#[trigger] marks@[k])@.len()
                            == w by {
                            assert(marks@[k]@ == marks_view(marks@)[k]);
                            assert(mpre[k].len() == w);
                        }
                    }
                }
                p += 1;
            }
            proof {
                assert(sweep_col_down(g, rune@, rr@, marks_view(marks@), col as int, p as int)
                    == marks_view(marks@));
            }
            col += 1;
        }
        proof {
            assert(sweep_grid(g, rs, mj, j as int) == sweep_grid(
                g,
                rs,
                marks_view(marks@),
                j as int + 1,
            ));
        }
        j += 1;
    }
    let ghost final_marks = marks_view(marks@);
    let mut total: usize = 0;
    let mut x: usize = 0;
    proof {
        assert(final_marks.take(0) =~= Seq::<Seq<bool>>::empty());
    }
    while x < marks.len()
        invariant
            0 <= x <= marks@.len(),
            lns == parse::spec_lines(input@),
            g == parse::spec_lines(grid_block(input@)),
            grid_ok(g),
            spec_runes(lns) == Some(rs),
            forall|t: int| 0 <= t < rs.len() ==> (#[trigger] rs[t]).len() >= 1,
            final_marks == marks_view(marks@),
            final_marks == sweep_grid(g, rs, no_marks(g.len() as int, g[0].len() as int), 0),
            total as nat == count_true_grid(final_marks.take(x as int)),
        decreases marks@.len() - x,
    {
        proof {
            assert(final_marks.take(x + 1).drop_last() =~= final_marks.take(x as int));
            assert(final_marks.take(x + 1).last() == final_marks[x as int]);
            assert(final_marks[x as int] == marks@[x as int]@);
        }
        let mrow = &marks[x];
        let mut rsum: usize = 0;
        let mut c: usize = 0;
        proof {
            assert(mrow@.take(0) =~= Seq::<bool>::empty());
        }
        while c < mrow.len()
            invariant
                0 <= c <= mrow@.len(),
                rsum <= c,
                mrow@ == final_marks[x as int],
                0 <= x < final_marks.len(),
                rsum as nat == count_true(mrow@.take(c as int)),
            decreases mrow@.len() - c,
        {
            proof {
                assert(mrow@.take(c + 1).drop_last() =~= mrow@.take(c as int));
                assert(mrow@.take(c + 1).last() == mrow@[c as int]);
            }
            if mrow[c] {
                rsum += 1;
            }
            c += 1;
        }
        proof {
            assert(mrow@.take(mrow@.len() as int) =~= mrow@);
        }
        if total > usize::MAX - rsum {
            proof {
                lemma_count_grid_prefix(final_marks, x + 1);
            }
            return None;
        }
        total = total + rsum;
        x += 1;
    }
    proof {
        assert(final_marks.take(final_marks.len() as int) =~= final_marks);
    }
    Some(total)
}

/// The whole grid's count is at least any prefix's count.
proof fn lemma_count_grid_prefix(m: Seq<Seq<bool>>, k: int)
    requires
        0 <= k <= m.len(),
    ensures
        count_true_grid(m) >= count_true_grid(m.take(k)),
    decreases m.len() - k,
{
    if k < m.len() {
        lemma_count_grid_prefix(m, k + 1);
        assert(m.take(k + 1).drop_last() =~= m.take(k));
    } else {
        assert(m.take(k) =~= m);
    }
}

} // verus!




