use vstd::prelude::*;

use crate::parse;
use crate::text;

verus! {

broadcast use vstd::std_specs::hash::group_hash_axioms;

/// `b` is an ASCII whitespace byte.
pub open spec fn is_ws(b: u8) -> bool {
    b == 9 || b == 10 || b == 11 || b == 12 || b == 13 || b == 32
}

/// The whitespace-separated tokens of `s` from index `i` on, with `cur` the
/// part of the current token read so far.
pub open spec fn tokens_acc(s: Seq<u8>, i: int, cur: Seq<u8>) -> Seq<Seq<u8>>
    decreases s.len() - i,
{
    if i < 0 || i >= s.len() {
        if cur.len() == 0 {
            Seq::empty()
        } else {
            seq![cur]
        }
    } else if is_ws(s[i]) {
        (if cur.len() == 0 {
            Seq::<Seq<u8>>::empty()
        } else {
            seq![cur]
        }) + tokens_acc(s, i + 1, Seq::empty())
    } else {
        tokens_acc(s, i + 1, cur.push(s[i]))
    }
}

/// The whitespace-separated tokens of `s`.
pub open spec fn spec_tokens(s: Seq<u8>) -> Seq<Seq<u8>> {
    tokens_acc(s, 0, Seq::empty())
}

/// Splits `s` into its whitespace-separated tokens.
pub fn split_tokens(s: &[u8]) -> (r: Vec<Vec<u8>>)
    ensures
        r@.map_values(|t: Vec<u8>| t@) == spec_tokens(s@),
{
    let mut out: Vec<Vec<u8>> = Vec::new();
    let mut cur: Vec<u8> = Vec::new();
    let mut i: usize = 0;
    while i < s.len()
        invariant
            0 <= i <= s@.len(),
            spec_tokens(s@) == out@.map_values(|t: Vec<u8>| t@) + tokens_acc(s@, i as int, cur@),
        decreases s@.len() - i,
    {
        let b = s[i];
        if b == 9 || b == 10 || b == 11 || b == 12 || b == 13 || b == 32 {
            proof {
                assert(is_ws(s@[i as int]));
                assert(tokens_acc(s@, i as int, cur@) == (if cur@.len() == 0 {
                    Seq::<Seq<u8>>::empty()
                } else {
                    seq![cur@]
                }) + tokens_acc(s@, i as int + 1, Seq::empty()));
            }
            if cur.len() > 0 {
                let ghost pre = out@;
                out.push(cur);
                proof {
                    assert(out@.map_values(|t: Vec<u8>| t@) =~= pre.map_values(|t: Vec<u8>| t@)
                        .push(cur@));
                    assert(pre.map_values(|t: Vec<u8>| t@) + (seq![cur@] + tokens_acc(
                        s@,
                        i + 1,
                        Seq::empty(),
                    )) =~= out@.map_values(|t: Vec<u8>| t@) + tokens_acc(
                        s@,
                        i as int + 1,
                        Seq::empty(),
                    ));
                }
                cur = Vec::new();
            } else {
                proof {
                    assert(cur@ =~= Seq::<u8>::empty());
                    assert(out@.map_values(|t: Vec<u8>| t@) + (Seq::<Seq<u8>>::empty()
                        + tokens_acc(s@, i + 1, Seq::empty())) =~= out@.map_values(|t: Vec<u8>| t@)
                        + tokens_acc(s@, i + 1, Seq::empty()));
                }
            }
        } else {
            proof {
                assert(tokens_acc(s@, i as int, cur@) == tokens_acc(
                    s@,
                    i as int + 1,
                    cur@.push(b),
                ));
            }
            cur.push(b);
        }
        i += 1;
    }
    if cur.len() > 0 {
        let ghost pre = out@;
        out.push(cur);
        proof {
            assert(out@.map_values(|t: Vec<u8>| t@) =~= pre.map_values(|t: Vec<u8>| t@).push(cur@));
        }
    }
    proof {
        assert(out@.map_values(|t: Vec<u8>| t@) =~= spec_tokens(s@));
    }
    out
}

/// The token is one unsigned number that fits in `usize`.
pub open spec fn tok_ok(t: Seq<u8>) -> bool {
    parse::line_is_number(t) && parse::line_value(t) <= usize::MAX
}

/// The number a token names.
pub open spec fn tok_val(t: Seq<u8>) -> usize {
    parse::line_value(t) as usize
}

/// The lines fill the columns cleanly: there is a first line, no line has
/// more tokens than the first, and every token is a number.
pub open spec fn columns_ok(lines: Seq<Seq<u8>>) -> bool {
    &&& lines.len() > 0
    &&& forall|i: int|
        0 <= i < lines.len() ==> spec_tokens(#[trigger] lines[i]).len() <= spec_tokens(
            lines[0],
        ).len()
    &&& forall|i: int, j: int|
        0 <= i < lines.len() && 0 <= j < spec_tokens(lines[i]).len() ==> tok_ok(
            #[trigger] spec_tokens(lines[i])[j],
        )
}

/// Column `c` of the dance floor: the `c`-th number of every line that has
/// one, top to bottom.
pub open spec fn column_of(lines: Seq<Seq<u8>>, c: int) -> Seq<usize>
    decreases lines.len(),
{
    if lines.len() == 0 {
        Seq::empty()
    } else {
        column_of(lines.drop_last(), c) + (if 0 <= c < spec_tokens(lines.last()).len() {
            seq![tok_val(spec_tokens(lines.last())[c])]
        } else {
            Seq::<usize>::empty()
        })
    }
}

/// The starting columns: as many as the first line has tokens.
pub open spec fn init_cols(lines: Seq<Seq<u8>>) -> Seq<Seq<usize>> {
    Seq::new(spec_tokens(lines[0]).len(), |c: int| column_of(lines, c))
}

/// The columns as the view of the vectors that hold them.
pub open spec fn cols_view(v: Seq<Vec<usize>>) -> Seq<Seq<usize>> {
    v.map_values(|c: Vec<usize>| c@)
}

/// Parses the dance floor: each line's numbers go to the columns left to
/// right. `None` exactly when there is no line, a line has more numbers
/// than the first, or a token is not a number that fits in `usize`.
pub fn parse_columns(input: &[u8]) -> (r: Option<Vec<Vec<usize>>>)
    ensures
        ({
            let lines = parse::spec_lines(input@);
            match r {
                Some(cols) => columns_ok(lines) && cols_view(cols@) == init_cols(lines),
                None => !columns_ok(lines),
            }
        }),
{
    let ghost lns = parse::spec_lines(input@);
    let lines = parse::split_lines(input);
    if lines.len() == 0 {
        return None;
    }
    let first_toks = split_tokens(lines[0].as_slice());
    let cc = first_toks.len();
    proof {
        assert(lines@.map_values(|l: Vec<u8>| l@)[0] == lns[0]);
    }
    let mut cols: Vec<Vec<usize>> = Vec::new();
    let mut c: usize = 0;
    while c < cc
        invariant
            0 <= c <= cc,
            cols@.len() == c,
            forall|k: int| 0 <= k < c ==> (#[trigger] cols@[k])@ == Seq::<usize>::empty(),
        decreases cc - c,
    {
        cols.push(Vec::new());
        c += 1;
    }
    let mut i: usize = 0;
    proof {
        assert(lns.take(0) =~= Seq::<Seq<u8>>::empty());
        assert forall|k: int| 0 <= k < cc implies #[trigger] column_of(lns.take(0), k)
            == Seq::<usize>::empty() by {}
    }
    while i < lines.len()
        invariant
            0 <= i <= lines@.len(),
            lns == parse::spec_lines(input@),
            lines@.map_values(|l: Vec<u8>| l@) == lns,
            lns.len() > 0,
            cc == spec_tokens(lns[0]).len(),
            cols@.len() == cc,
            forall|k: int|
                0 <= k < i ==> spec_tokens(#[trigger] lns[k]).len() <= spec_tokens(lns[0]).len(),
            forall|k: int, j: int|
                0 <= k < i && 0 <= j < spec_tokens(lns[k]).len() ==> tok_ok(
                    #[trigger] spec_tokens(lns[k])[j],
                ),
            forall|k: int|
                0 <= k < cc ==> (#[trigger] cols@[k])@ == column_of(lns.take(i as int), k),
        decreases lines@.len() - i,
    {
        proof {
            assert(lines@.map_values(|l: Vec<u8>| l@)[i as int] == lns[i as int]);
        }
        let toks = split_tokens(lines[i].as_slice());
        if toks.len() > cc {
            return None;
        }
        let ghost tks = spec_tokens(lns[i as int]);
        let mut j: usize = 0;
        while j < toks.len()
            invariant
                0 <= j <= toks@.len(),
                lns == parse::spec_lines(input@),
                0 <= i < lns.len(),
                toks@.map_values(|t: Vec<u8>| t@) == tks,
                tks == spec_tokens(lns[i as int]),
                tks.len() <= cc,
                cc == spec_tokens(lns[0]).len(),
                cols@.len() == cc,
                forall|k: int| 0 <= k < j ==> tok_ok(#[trigger] tks[k]),
                forall|k: int|
                    0 <= k < j ==> (#[trigger] cols@[k])@ == column_of(lns.take(i as int), k).push(
                        tok_val(tks[k]),
                    ),
                forall|k: int|
                    j <= k < cc ==> (#[trigger] cols@[k])@ == column_of(lns.take(i as int), k),
            decreases toks@.len() - j,
        {
            proof {
                assert(toks@.map_values(|t: Vec<u8>| t@)[j as int] == tks[j as int]);
            }
            let v = match parse::parse_usize(toks[j].as_slice()) {
                Some(v) => v,
                None => {
                    return None;
                },
            };
            cols[j].push(v);
            j += 1;
        }
        proof {
            assert(lns.take(i + 1).drop_last() =~= lns.take(i as int));
            assert(lns.take(i + 1).last() == lns[i as int]);
            assert forall|k: int| 0 <= k < cc implies #[trigger] column_of(lns.take(i + 1), k)
                == (if 0 <= k < tks.len() {
                column_of(lns.take(i as int), k).push(tok_val(tks[k]))
            } else {
                column_of(lns.take(i as int), k)
            }) by {
                if 0 <= k < tks.len() {
                    assert(column_of(lns.take(i as int), k) + seq![tok_val(tks[k])] =~= column_of(
                        lns.take(i as int),
                        k,
                    ).push(tok_val(tks[k])));
                } else {
                    assert(column_of(lns.take(i as int), k) + Seq::<usize>::empty() =~= column_of(
                        lns.take(i as int),
                        k,
                    ));
                }
            }
        }
        i += 1;
    }
    proof {
        assert(lns.take(lns.len() as int) =~= lns);
        assert(columns_ok(lns));
        assert(cols_view(cols@) =~= init_cols(lns));
    }
    Some(cols)
}


/// The decimal digits of `n`, most significant first.
pub open spec fn dec_digits(n: nat) -> Seq<u8>
    decreases n,
{
    if n < 10 {
        seq![(n + 48) as u8]
    } else {
        dec_digits(n / 10).push((n % 10 + 48) as u8)
    }
}

/// The front clapper of every column, as one run of decimal digits; `None`
/// when a column stands empty.
pub open spec fn front_digits(cols: Seq<Seq<usize>>) -> Option<Seq<u8>>
    decreases cols.len(),
{
    if cols.len() == 0 {
        Some(Seq::empty())
    } else {
        match front_digits(cols.drop_last()) {
            None => None,
            Some(d) => if cols.last().len() == 0 {
                None
            } else {
                Some(d + dec_digits(cols.last()[0] as nat))
            },
        }
    }
}

/// The first column at or after `j`, cyclically, that holds a clapper,
/// giving up after `fuel` looks.
pub open spec fn next_busy(cols: Seq<Seq<usize>>, j: int, fuel: nat) -> Option<int>
    decreases fuel,
{
    if fuel == 0 || !(0 <= j < cols.len()) {
        None
    } else if cols[j].len() > 0 {
        Some(j)
    } else {
        next_busy(cols, if j + 1 < cols.len() { j + 1 } else { 0 }, (fuel - 1) as nat)
    }
}

/// The clapper bounces down and up the columns from `j0` on: a column of
/// `n` dancers absorbs `2 n` claps per pass; the clapper joins the first
/// column where its remaining claps run out, counted down the column and
/// back up. `None` where every column is empty or the claps were zero.
pub open spec fn bounce(cols: Seq<Seq<usize>>, j0: int, claps: nat, clapper: usize) -> Option<
    Seq<Seq<usize>>,
>
    decreases claps,
{
    match next_busy(cols, j0, cols.len()) {
        None => None,
        Some(j) => {
            let ln = cols[j].len();
            if ln == 0 {
                None
            } else if claps == 0 {
                None
            } else if claps <= ln {
                Some(cols.update(j, cols[j].insert(claps - 1, clapper)))
            } else if claps <= 2 * ln {
                Some(cols.update(j, cols[j].insert(2 * ln - claps + 1, clapper)))
            } else {
                bounce(
                    cols,
                    if j + 1 < cols.len() {
                        j + 1
                    } else {
                        0
                    },
                    (claps - 2 * ln) as nat,
                    clapper,
                )
            }
        },
    }
}

/// One round of the first tier: the front clapper of column `r mod cc` steps
/// out and bounces along the other columns.
pub open spec fn round1_spec(cols: Seq<Seq<usize>>, r: nat) -> Option<Seq<Seq<usize>>> {
    let cc = cols.len();
    if cc == 0 {
        None
    } else {
        let cur = (r % cc) as int;
        if cols[cur].len() == 0 {
            None
        } else {
            let clapper = cols[cur][0];
            let c1 = cols.update(cur, cols[cur].drop_first());
            bounce(c1, if cur + 1 < cc { cur + 1 } else { 0 }, clapper as nat, clapper)
        }
    }
}

/// Rounds `k` to `n` of the first tier, in order.
pub open spec fn run1(cols: Seq<Seq<usize>>, k: nat, n: nat) -> Option<Seq<Seq<usize>>>
    decreases n - k,
{
    if k >= n {
        Some(cols)
    } else {
        match round1_spec(cols, k) {
            None => None,
            Some(c2) => run1(c2, k + 1, n),
        }
    }
}

/// One round of the later tiers: the front clapper of column `r mod cc`
/// steps to the next column and rejoins it at the place its claps name,
/// counted down and back up by the modular shortcut; the result read off is
/// the number the front row spells. `None` on an empty column, a zero
/// clapper, or a front-row number too large for `usize`.
pub open spec fn modular_round(cols: Seq<Seq<usize>>, r: nat) -> Option<(Seq<Seq<usize>>, usize)> {
    let cc = cols.len();
    if cc == 0 {
        None
    } else {
        let old_col = (r % cc) as int;
        if cols[old_col].len() == 0 {
            None
        } else {
            let clapper = cols[old_col][0];
            let c1 = cols.update(old_col, cols[old_col].drop_first());
            let new_col = if old_col + 1 < cc {
                old_col + 1
            } else {
                0
            };
            let ln = c1[new_col].len();
            if clapper == 0 || ln == 0 || 2 * ln > usize::MAX {
                None
            } else {
                let pos = (clapper - 1) as nat % (2 * ln as nat);
                let idx = if pos < ln {
                    pos as int
                } else {
                    2 * ln - pos
                };
                let c2 = c1.update(new_col, c1[new_col].insert(idx, clapper));
                match front_digits(c2) {
                    None => None,
                    Some(d) => if parse::line_value(d) > usize::MAX {
                        None
                    } else {
                        Some((c2, parse::line_value(d) as usize))
                    },
                }
            }
        }
    }
}

/// The second tier runs rounds until some front-row number has been seen
/// 2024 times; the answer is that number times the round that reached it.
pub open spec fn run2(cols: Seq<Seq<usize>>, round: usize, counts: Map<usize, usize>) -> Option<
    usize,
>
    decreases usize::MAX - round,
{
    if round == 0 {
        None
    } else {
        match modular_round(cols, (round - 1) as nat) {
            None => None,
            Some((c2, res)) => {
                let prev: usize = if counts.contains_key(res) {
                    counts[res]
                } else {
                    0
                };
                if prev == usize::MAX {
                    None
                } else {
                    let nc = (prev + 1) as usize;
                    if nc == 2024 {
                        if res * round > usize::MAX {
                            None
                        } else {
                            Some((res * round) as usize)
                        }
                    } else if round == usize::MAX {
                        None
                    } else {
                        run2(c2, (round + 1) as usize, counts.insert(res, nc))
                    }
                }
            },
        }
    }
}

/// The third tier runs one round per dancer and keeps the largest front-row
/// number seen; `Some(None)` means no round ran.
pub open spec fn run3(cols: Seq<Seq<usize>>, r: nat, n: nat, best: Option<usize>) -> Option<
    Option<usize>,
>
    decreases n - r,
{
    if r >= n {
        Some(best)
    } else {
        match modular_round(cols, r) {
            None => None,
            Some((c2, res)) => run3(
                c2,
                r + 1,
                n,
                Some(
                    match best {
                        None => res,
                        Some(b) => if res > b {
                            res
                        } else {
                            b
                        },
                    },
                ),
            ),
        }
    }
}

/// How many dancers stand on the floor.
pub open spec fn total_len(cols: Seq<Seq<usize>>) -> nat
    decreases cols.len(),
{
    if cols.len() == 0 {
        0
    } else {
        total_len(cols.drop_last()) + cols.last().len()
    }
}


/// The decimal digits of `n`, most significant first.
fn usize_digits(n: usize) -> (v: Vec<u8>)
    ensures
        v@ == dec_digits(n as nat),
        forall|i: int| 0 <= i < v@.len() ==> 48 <= #[trigger] v@[i] <= 57,
    decreases n,
{
    if n < 10 {
        let v: Vec<u8> = vec![(n as u8) + 48];
        proof {
            assert(v@ =~= dec_digits(n as nat));
        }
        v
    } else {
        let mut v = usize_digits(n / 10);
        v.push(((n % 10) as u8) + 48);
        v
    }
}

/// The first column at or after `start`, cyclically, that holds a clapper.
fn find_busy(cols: &Vec<Vec<usize>>, start: usize) -> (r: Option<usize>)
    requires
        cols@.len() > 0,
        start < cols@.len(),
    ensures
        match r {
            Some(j) => next_busy(cols_view(cols@), start as int, cols@.len() as nat) == Some(
                j as int,
            ) && j < cols@.len() && cols@[j as int]@.len() > 0,
            None => next_busy(cols_view(cols@), start as int, cols@.len() as nat) is None,
        },
{
    let cc = cols.len();
    let mut j = start;
    let mut fuel = cc;
    while fuel > 0
        invariant
            0 <= j < cc,
            cc == cols@.len(),
            fuel <= cc,
            next_busy(cols_view(cols@), start as int, cc as nat) == next_busy(
                cols_view(cols@),
                j as int,
                fuel as nat,
            ),
        decreases fuel,
    {
        if cols[j].len() > 0 {
            proof {
                assert(cols_view(cols@)[j as int] == cols@[j as int]@);
            }
            return Some(j);
        }
        j = if j + 1 < cc {
            j + 1
        } else {
            0
        };
        fuel = fuel - 1;
    }
    None
}

/// The number the front row spells, as digits; `None` when a column stands
/// empty.
fn fronts_digits(cols: &Vec<Vec<usize>>) -> (r: Option<Vec<u8>>)
    ensures
        match r {
            Some(d) => front_digits(cols_view(cols@)) == Some(d@) && forall|i: int|
                0 <= i < d@.len() ==> 48 <= #[trigger] d@[i] <= 57,
            None => front_digits(cols_view(cols@)) is None,
        },
{
    let ghost v = cols_view(cols@);
    let mut d: Vec<u8> = Vec::new();
    let mut c: usize = 0;
    proof {
        assert(v.take(0) =~= Seq::<Seq<usize>>::empty());
    }
    while c < cols.len()
        invariant
            0 <= c <= cols@.len(),
            v == cols_view(cols@),
            front_digits(v.take(c as int)) == Some(d@),
            forall|i: int| 0 <= i < d@.len() ==> 48 <= #[trigger] d@[i] <= 57,
        decreases cols@.len() - c,
    {
        proof {
            assert(v.take(c + 1).drop_last() =~= v.take(c as int));
            assert(v.take(c + 1).last() == v[c as int]);
            assert(v[c as int] == cols@[c as int]@);
        }
        if cols[c].len() == 0 {
            proof {
                lemma_front_none(v, c + 1);
            }
            return None;
        }
        let front = cols[c][0];
        let mut fd = usize_digits(front);
        let ghost pre = d@;
        d.append(&mut fd);
        proof {
            assert(d@ == pre + dec_digits(front as nat));
        }
        c += 1;
    }
    proof {
        assert(v.take(v.len() as int) =~= v);
    }
    Some(d)
}

/// Once a prefix of the columns fails to spell a front row, the whole floor
/// does.
proof fn lemma_front_none(cols: Seq<Seq<usize>>, k: int)
    requires
        0 <= k <= cols.len(),
        front_digits(cols.take(k)) is None,
    ensures
        front_digits(cols) is None,
    decreases cols.len() - k,
{
    if k < cols.len() {
        assert(cols.take(k + 1).drop_last() =~= cols.take(k));
        lemma_front_none(cols, k + 1);
    } else {
        assert(cols.take(k) =~= cols);
    }
}

/// One round of the first tier, on the floor in place. A `false` answer
/// means the round has no outcome; the floor is then half-done and must be
/// thrown away.
fn exec_round1(cols: &mut Vec<Vec<usize>>, r: usize) -> (ok: bool)
    ensures
        ok ==> round1_spec(cols_view(old(cols)@), r as nat) == Some(cols_view(final(cols)@)),
        !ok ==> round1_spec(cols_view(old(cols)@), r as nat) is None,
{
    let ghost v0 = cols_view(cols@);
    let cc = cols.len();
    if cc == 0 {
        return false;
    }
    let cur = r % cc;
    if cols[cur].len() == 0 {
        proof {
            assert(v0[cur as int] == cols@[cur as int]@);
        }
        return false;
    }
    let clapper = cols[cur].remove(0);
    let ghost v1 = cols_view(cols@);
    proof {
        assert(v0[cur as int] == old(cols)@[cur as int]@);
        assert(clapper == v0[cur as int][0]);
        assert(v1 =~= v0.update(cur as int, v0[cur as int].drop_first())) by {
            assert(cols@[cur as int]@ =~= v0[cur as int].drop_first());
            assert forall|k: int| 0 <= k < v1.len() implies v1[k] == v0.update(
                cur as int,
                v0[cur as int].drop_first(),
            )[k] by {
                assert(v1[k] == cols@[k]@);
            }
        }
    }
    let mut j = if cur + 1 < cc {
        cur + 1
    } else {
        0
    };
    let mut claps = clapper;
    let ghost target = bounce(v1, j as int, clapper as nat, clapper);
    loop
        invariant
            0 <= j < cc,
            cc == cols@.len(),
            cc > 0,
            v0 == cols_view(old(cols)@),
            cols_view(cols@) == v1,
            target == round1_spec(v0, r as nat),
            bounce(v1, j as int, claps as nat, clapper) == target,
        decreases claps,
    {
        let jb = match find_busy(cols, j) {
            Some(jb) => jb,
            None => {
                return false;
            },
        };
        let ln = cols[jb].len();
        proof {
            assert(v1[jb as int] == cols@[jb as int]@);
        }
        if claps == 0 {
            return false;
        }
        if claps <= ln {
            cols[jb].insert(claps - 1, clapper);
            proof {
                assert(cols_view(cols@) =~= v1.update(
                    jb as int,
                    v1[jb as int].insert(claps - 1, clapper),
                )) by {
                    assert forall|k: int| 0 <= k < cols@.len() implies cols_view(cols@)[k]
                        == v1.update(jb as int, v1[jb as int].insert(claps - 1, clapper))[k] by {
                        assert(cols_view(cols@)[k] == cols@[k]@);
                    }
                }
            }
            return true;
        }
        if claps - ln <= ln {
            let idx = ln - (claps - ln) + 1;
            cols[jb].insert(idx, clapper);
            proof {
                assert(idx == 2 * ln - claps + 1);
                assert(cols_view(cols@) =~= v1.update(
                    jb as int,
                    v1[jb as int].insert(2 * ln - claps + 1, clapper),
                )) by {
                    assert forall|k: int| 0 <= k < cols@.len() implies cols_view(cols@)[k]
                        == v1.update(jb as int, v1[jb as int].insert(2 * ln - claps + 1, clapper)).index(k) by {
                        assert(cols_view(cols@)[k] == cols@[k]@);
                    }
                }
            }
            return true;
        }
        claps = claps - ln - ln;
        j = if jb + 1 < cc {
            jb + 1
        } else {
            0
        };
    }
}


/// One round of the later tiers, on the floor in place, answering the number
/// the front row spells. A `None` answer means the round has no outcome; the
/// floor is then half-done and must be thrown away.
fn exec_modular_round(cols: &mut Vec<Vec<usize>>, r: usize) -> (res: Option<usize>)
    ensures
        match res {
            Some(v) => modular_round(cols_view(old(cols)@), r as nat) == Some(
                (cols_view(final(cols)@), v),
            ),
            None => modular_round(cols_view(old(cols)@), r as nat) is None,
        },
{
    let ghost v0 = cols_view(cols@);
    let cc = cols.len();
    if cc == 0 {
        return None;
    }
    let old_col = r % cc;
    if cols[old_col].len() == 0 {
        proof {
            assert(v0[old_col as int] == cols@[old_col as int]@);
        }
        return None;
    }
    let clapper = cols[old_col].remove(0);
    let ghost v1 = cols_view(cols@);
    proof {
        assert(v0[old_col as int] == old(cols)@[old_col as int]@);
        assert(clapper == v0[old_col as int][0]);
        assert(v1 =~= v0.update(old_col as int, v0[old_col as int].drop_first())) by {
            assert(cols@[old_col as int]@ =~= v0[old_col as int].drop_first());
            assert forall|k: int| 0 <= k < v1.len() implies v1[k] == v0.update(
                old_col as int,
                v0[old_col as int].drop_first(),
            )[k] by {
                assert(v1[k] == cols@[k]@);
            }
        }
    }
    let new_col = if old_col + 1 < cc {
        old_col + 1
    } else {
        0
    };
    let ln = cols[new_col].len();
    proof {
        assert(v1[new_col as int] == cols@[new_col as int]@);
    }
    if clapper == 0 || ln == 0 || ln > usize::MAX / 2 {
        proof {
            if ln > usize::MAX / 2 {
                assert(2 * (ln as nat) > usize::MAX) by (nonlinear_arith)
                    requires ln > usize::MAX / 2;
            }
        }
        return None;
    }
    proof {
        assert(2 * (ln as nat) <= usize::MAX) by (nonlinear_arith)
            requires ln <= usize::MAX / 2;
    }
    let pos = (clapper - 1) % (2 * ln);
    let idx = if pos < ln {
        pos
    } else {
        2 * ln - pos
    };
    cols[new_col].insert(idx, clapper);
    let ghost v2 = cols_view(cols@);
    proof {
        let spec_idx = if (pos as nat) < ln {
            pos as int
        } else {
            2 * ln - pos
        };
        assert(v2 =~= v1.update(new_col as int, v1[new_col as int].insert(spec_idx, clapper))) by {
            assert(cols@[new_col as int]@ == v1[new_col as int].insert(idx as int, clapper));
            assert forall|k: int| 0 <= k < v2.len() implies v2[k] == v1.update(
                new_col as int,
                v1[new_col as int].insert(spec_idx, clapper),
            )[k] by {
                assert(v2[k] == cols@[k]@);
            }
        }
    }
    let digits = match fronts_digits(cols) {
        Some(d) => d,
        None => {
            return None;
        },
    };
    match parse::parse_usize(digits.as_slice()) {
        Some(v) => Some(v),
        None => {
            proof {
                assert(parse::line_is_number(digits@)) by {
                    assert(digits@.len() > 0) by {
                        assert(front_digits(v2) == Some(digits@));
                        lemma_front_nonempty(v2);
                    }
                }
            }
            None
        },
    }
}

/// A floor with at least one column spells at least one digit.
proof fn lemma_front_nonempty(cols: Seq<Seq<usize>>)
    requires
        cols.len() > 0,
        front_digits(cols) is Some,
    ensures
        front_digits(cols).unwrap().len() > 0,
    decreases cols.len(),
{
    if cols.len() > 1 {
        lemma_front_nonempty(cols.drop_last());
    } else {
        assert(dec_digits(cols.last()[0] as nat).len() > 0) by {
            lemma_dec_digits_nonempty(cols.last()[0] as nat);
        }
    }
}

proof fn lemma_dec_digits_nonempty(n: nat)
    ensures
        dec_digits(n).len() > 0,
    decreases n,
{
}


/// First tier: ten rounds of the clapper dance, then the number the front
/// row spells, as text. `None` exactly when the floor is malformed, a round
/// has no outcome, or the front row cannot be read.
pub fn part1(input: &[u8]) -> (r: Option<String>)
    ensures
        ({
            let lines = parse::spec_lines(input@);
            match r {
                Some(s) => {
                    &&& columns_ok(lines)
                    &&& run1(init_cols(lines), 0, 10) is Some
                    &&& front_digits(run1(init_cols(lines), 0, 10).unwrap()) is Some
                    &&& s@ == text::bytes_as_chars(
                        front_digits(run1(init_cols(lines), 0, 10).unwrap()).unwrap(),
                    )
                },
                None => !columns_ok(lines) || run1(init_cols(lines), 0, 10) is None
                    || front_digits(run1(init_cols(lines), 0, 10).unwrap()) is None,
            }
        }),
{
    let ghost lines = parse::spec_lines(input@);
    let mut cols = match parse_columns(input) {
        Some(c) => c,
        None => {
            return None;
        },
    };
    let ghost c0 = init_cols(lines);
    let mut round: usize = 0;
    while round < 10
        invariant
            0 <= round <= 10,
            lines == parse::spec_lines(input@),
            c0 == init_cols(lines),
            columns_ok(lines),
            run1(c0, 0, 10) == run1(cols_view(cols@), round as nat, 10),
        decreases 10 - round,
    {
        if !exec_round1(&mut cols, round) {
            return None;
        }
        round += 1;
    }
    let digits = match fronts_digits(&cols) {
        Some(d) => d,
        None => {
            return None;
        },
    };
    Some(text::ascii_to_string(digits))
}

/// Second tier: rounds of the modular dance run until some front-row number
/// is seen for the 2024th time; the answer is that number times the round
/// that reached it. `None` exactly when the floor is malformed, a round has
/// no outcome, or a value on the way does not fit in `usize`.
pub fn part2(input: &[u8]) -> (r: Option<usize>)
    ensures
        ({
            let lines = parse::spec_lines(input@);
            match r {
                Some(v) => columns_ok(lines) && run2(init_cols(lines), 1, Map::empty()) == Some(v),
                None => !columns_ok(lines) || run2(init_cols(lines), 1, Map::empty()) is None,
            }
        }),
{
    let ghost lines = parse::spec_lines(input@);
    let mut cols = match parse_columns(input) {
        Some(c) => c,
        None => {
            return None;
        },
    };
    let ghost c0 = init_cols(lines);
    let mut counts: std::collections::HashMap<usize, usize> = std::collections::HashMap::new();
    let mut round: usize = 1;
    proof {
        assert(counts@ =~= Map::<usize, usize>::empty());
    }
    loop
        invariant
            1 <= round,
            lines == parse::spec_lines(input@),
            c0 == init_cols(lines),
            columns_ok(lines),
            vstd::std_specs::hash::obeys_key_model::<usize>(),
            run2(c0, 1, Map::empty()) == run2(cols_view(cols@), round, counts@),
        decreases usize::MAX - round,
    {
        let ghost vpre = cols_view(cols@);
        let ghost counts_pre = counts@;
        let res = match exec_modular_round(&mut cols, round - 1) {
            Some(v) => v,
            None => {
                return None;
            },
        };
        let prev: usize = match counts.get(&res) {
            Some(p) => *p,
            None => 0,
        };
        if prev == usize::MAX {
            return None;
        }
        let nc = prev + 1;
        if nc == 2024 {
            if res != 0 && round > usize::MAX / res {
                proof {
                    assert((res as nat) * round > usize::MAX) by (nonlinear_arith)
                        requires res >= 1, round > usize::MAX / res;
                }
                return None;
            }
            proof {
                if res == 0 {
                    assert((res as nat) * round == 0) by (nonlinear_arith)
                        requires res == 0;
                } else {
                    assert((res as nat) * round <= usize::MAX) by (nonlinear_arith)
                        requires res >= 1, round <= usize::MAX / res;
                }
                assert(modular_round(vpre, (round - 1) as nat) == Some((cols_view(cols@), res)));
                assert(run2(vpre, round, counts_pre) == Some((res * round) as usize));
            }
            return Some(res * round);
        }
        if round == usize::MAX {
            return None;
        }
        counts.insert(res, nc);
        round += 1;
    }
}

/// Third tier: one round of the modular dance per dancer; the answer is the
/// largest front-row number seen. `None` exactly when the floor is
/// malformed, a round has no outcome, or no round ran at all.
pub fn part3(input: &[u8]) -> (r: Option<usize>)
    ensures
        ({
            let lines = parse::spec_lines(input@);
            match r {
                Some(v) => {
                    &&& columns_ok(lines)
                    &&& total_len(init_cols(lines)) <= usize::MAX
                    &&& run3(init_cols(lines), 0, total_len(init_cols(lines)), None) == Some(
                        Some(v),
                    )
                },
                None => !columns_ok(lines) || total_len(init_cols(lines)) > usize::MAX || run3(
                    init_cols(lines),
                    0,
                    total_len(init_cols(lines)),
                    None,
                ) matches (Some(None) | None),
            }
        }),
{
    let ghost lines = parse::spec_lines(input@);
    let mut cols = match parse_columns(input) {
        Some(c) => c,
        None => {
            return None;
        },
    };
    let ghost c0 = init_cols(lines);
    let mut n: usize = 0;
    let mut c: usize = 0;
    proof {
        assert(cols_view(cols@).take(0) =~= Seq::<Seq<usize>>::empty());
    }
    while c < cols.len()
        invariant
            0 <= c <= cols@.len(),
            lines == parse::spec_lines(input@),
            c0 == init_cols(lines),
            columns_ok(lines),
            c0 == cols_view(cols@),
            n as nat == total_len(cols_view(cols@).take(c as int)),
        decreases cols@.len() - c,
    {
        proof {
            assert(cols_view(cols@).take(c + 1).drop_last() =~= cols_view(cols@).take(c as int));
            assert(cols_view(cols@).take(c + 1).last() == cols_view(cols@)[c as int]);
            assert(cols_view(cols@)[c as int] == cols@[c as int]@);
        }
        let ln = cols[c].len();
        if n > usize::MAX - ln {
            proof {
                lemma_total_len_prefix(cols_view(cols@), c + 1);
            }
            return None;
        }
        n = n + ln;
        c += 1;
    }
    proof {
        assert(cols_view(cols@).take(cols@.len() as int) =~= cols_view(cols@));
    }
    let mut best: Option<usize> = None;
    let mut round: usize = 0;
    while round < n
        invariant
            0 <= round <= n,
            lines == parse::spec_lines(input@),
            c0 == init_cols(lines),
            columns_ok(lines),
            n as nat == total_len(c0),
            run3(c0, 0, n as nat, None) == run3(
                cols_view(cols@),
                round as nat,
                n as nat,
                match best {
                    Some(b) => Some(b),
                    None => None,
                },
            ),
        decreases n - round,
    {
        let res = match exec_modular_round(&mut cols, round) {
            Some(v) => v,
            None => {
                return None;
            },
        };
        best = match best {
            None => Some(res),
            Some(b) => Some(
                if res > b {
                    res
                } else {
                    b
                },
            ),
        };
        round += 1;
    }
    best
}

/// The whole floor holds at least as many dancers as any prefix of it.
proof fn lemma_total_len_prefix(cols: Seq<Seq<usize>>, k: int)
    requires
        0 <= k <= cols.len(),
    ensures
        total_len(cols) >= total_len(cols.take(k)),
    decreases cols.len() - k,
{
    if k < cols.len() {
        lemma_total_len_prefix(cols, k + 1);
        assert(cols.take(k + 1).drop_last() =~= cols.take(k));
    } else {
        assert(cols.take(k) =~= cols);
    }
}

} // verus!




