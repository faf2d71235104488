use vstd::prelude::*;

use itertools::Itertools;

use crate::grid::Grid;
use crate::grid;
use crate::parse;
use crate::position::Position;
use crate::quest05;
use crate::text;

verus! {

/// One instruction of a racing plan: push, pull, or leave the power alone.
#[derive(Clone, Copy, Debug, PartialEq, Eq, Structural, PartialOrd, Ord, Hash)]
pub enum Action {
    Plus,
    Minus,
    Equal,
}

/// The rank of an action in the order the plan ranking uses:
/// `Plus` before `Minus` before `Equal`.
pub open spec fn act_rank(a: Action) -> int {
    match a {
        Action::Plus => 0,
        Action::Minus => 1,
        Action::Equal => 2,
    }
}

/// The action a byte names; `S` marks the start and acts like `=`.
pub open spec fn spec_action_of(b: u8) -> Option<Action> {
    if b == 43 {
        Some(Action::Plus)
    } else if b == 45 {
        Some(Action::Minus)
    } else if b == 61 || b == 83 {
        Some(Action::Equal)
    } else {
        None
    }
}

/// The action a byte names; `None` on any other byte.
pub fn action_of(b: u8) -> (r: Option<Action>)
    ensures
        r == spec_action_of(b),
{
    if b == 43 {
        Some(Action::Plus)
    } else if b == 45 {
        Some(Action::Minus)
    } else if b == 61 || b == 83 {
        Some(Action::Equal)
    } else {
        None
    }
}

/// The power after one action: one more, one less but never below zero, or
/// unchanged.
pub open spec fn apply_spec(p: nat, a: Action) -> nat {
    match a {
        Action::Plus => p + 1,
        Action::Minus => if p == 0 {
            0
        } else {
            (p - 1) as nat
        },
        Action::Equal => p,
    }
}

/// The power and gathered value after steps `k` to `n`, cycling through the
/// plan's actions; each step adds the new power to the value.
pub open spec fn plan_value(acts: Seq<Action>, p: nat, k: nat, n: nat, acc: nat) -> nat
    decreases n - k,
{
    if k >= n || acts.len() == 0 {
        acc
    } else {
        let p2 = apply_spec(p, acts[(k % acts.len()) as int]);
        plan_value(acts, p2, k + 1, n, acc + p2)
    }
}

/// As [`plan_value`], on a track: each step takes the track's action, except
/// that a track `Equal` defers to the plan's own action at that step.
pub open spec fn track_value(
    acts: Seq<Action>,
    track: Seq<Action>,
    p: nat,
    k: nat,
    n: nat,
    acc: nat,
) -> nat
    decreases n - k,
{
    if k >= n || track.len() == 0 {
        acc
    } else {
        let ta = track[(k % track.len()) as int];
        let a = if ta == Action::Equal && acts.len() > 0 {
            acts[(k % acts.len()) as int]
        } else {
            ta
        };
        let p2 = apply_spec(p, a);
        track_value(acts, track, p2, k + 1, n, acc + p2)
    }
}

/// Within the first `n` steps, the track defers to the plan at least once.
pub open spec fn track_defers(track: Seq<Action>, n: nat) -> bool {
    track.len() > 0 && exists|i: int|
        0 <= i < n && #[trigger] track[(i % (track.len() as int)) as int] == Action::Equal
}

/// A racing plan: a name and a cycle of actions.
pub struct Plan {
    pub actions: Vec<Action>,
    pub id: u8,
}

/// The plan a line names: the byte before the colon, then one action letter
/// per comma-separated field.
pub open spec fn plan_of_line(l: Seq<u8>) -> Option<(u8, Seq<Action>)> {
    let toks = split_on_comma(after_colon(l));
    if !has_colon(l) || l.len() == 0 || l[0] == 58 {
        None
    } else if exists|j: int| 0 <= j < toks.len() && action_of_tok(#[trigger] toks[j]) is None {
        None
    } else {
        Some((l[0], toks.map_values(|t: Seq<u8>| action_of_tok(t).unwrap())))
    }
}

/// Whether the line has a colon.
pub open spec fn has_colon(l: Seq<u8>) -> bool {
    exists|i: int| 0 <= i < l.len() && l[i] == 58
}

/// The first colon's position.
pub open spec fn colon_pos(l: Seq<u8>) -> int {
    choose|i: int|
        0 <= i < l.len() && l[i] == 58 && forall|j: int| 0 <= j < i ==> l[j] != 58
}

/// What stands after the first colon.
pub open spec fn after_colon(l: Seq<u8>) -> Seq<u8> {
    l.skip(colon_pos(l) + 1)
}

/// The comma-separated fields of `s`; an empty `s` is one empty field.
pub open spec fn split_acc(s: Seq<u8>, i: int, cur: Seq<u8>) -> Seq<Seq<u8>>
    decreases s.len() - i,
{
    if i < 0 || i >= s.len() {
        seq![cur]
    } else if s[i] == 44 {
        seq![cur] + split_acc(s, i + 1, Seq::empty())
    } else {
        split_acc(s, i + 1, cur.push(s[i]))
    }
}

/// The comma-separated fields of `s`.
pub open spec fn split_on_comma(s: Seq<u8>) -> Seq<Seq<u8>> {
    split_acc(s, 0, Seq::empty())
}

/// The action a one-letter field names; `None` on any other field.
pub open spec fn action_of_tok(t: Seq<u8>) -> Option<Action> {
    if t.len() != 1 {
        None
    } else {
        spec_action_of(t[0])
    }
}

/// Splits `s` at commas.
pub(crate) fn exec_split_on_comma(s: &[u8]) -> (r: Vec<Vec<u8>>)
    ensures
        r@.map_values(|t: Vec<u8>| t@) == split_on_comma(s@),
{
    let mut out: Vec<Vec<u8>> = Vec::new();
    let mut cur: Vec<u8> = Vec::new();
    let mut i: usize = 0;
    while i < s.len()
        invariant
            0 <= i <= s@.len(),
            split_on_comma(s@) == out@.map_values(|t: Vec<u8>| t@) + split_acc(
                s@,
                i as int,
                cur@,
            ),
        decreases s@.len() - i,
    {
        let b = s[i];
        if b == 44 {
            let ghost pre = out@;
            out.push(cur);
            proof {
                assert(out@.map_values(|t: Vec<u8>| t@) =~= pre.map_values(|t: Vec<u8>| t@).push(
                    cur@,
                ));
                assert(pre.map_values(|t: Vec<u8>| t@) + (seq![cur@] + split_acc(
                    s@,
                    i as int + 1,
                    Seq::empty(),
                )) =~= out@.map_values(|t: Vec<u8>| t@) + split_acc(
                    s@,
                    i as int + 1,
                    Seq::empty(),
                ));
            }
            cur = Vec::new();
        } else {
            cur.push(b);
        }
        i += 1;
    }
    let ghost pre = out@;
    out.push(cur);
    proof {
        assert(out@.map_values(|t: Vec<u8>| t@) =~= pre.map_values(|t: Vec<u8>| t@).push(cur@));
        assert(out@.map_values(|t: Vec<u8>| t@) =~= split_on_comma(s@));
    }
    out
}

impl Plan {
    /// Parses one plan line: a name, a colon, then comma-separated action
    /// letters. `None` exactly when the colon is missing or first, or a
    /// field is not one action letter.
    pub fn new(line: &[u8]) -> (r: Option<Plan>)
        ensures
            match r {
                Some(p) => plan_of_line(line@) matches Some(q) && p.id == q.0 && p.actions@ == q.1,
                None => plan_of_line(line@) is None,
            },
    {
        let mut ci: usize = 0;
        let mut found = false;
        while ci < line.len() && !found
            invariant
                0 <= ci <= line@.len(),
                !found ==> forall|j: int| 0 <= j < ci ==> line@[j] != 58,
                found ==> 0 < ci <= line@.len() && line@[ci - 1] == 58 && forall|j: int|
                    0 <= j < ci - 1 ==> line@[j] != 58,
            decreases line@.len() - ci,
        {
            if line[ci] == 58 {
                found = true;
            }
            ci += 1;
        }
        if !found {
            proof {
                assert(!has_colon(line@));
            }
            return None;
        }
        let cp = ci - 1;
        proof {
            assert(has_colon(line@));
            assert(colon_pos(line@) == cp as int) by {
                let p = colon_pos(line@);
                assert(0 <= p < line@.len() && line@[p] == 58 && forall|j: int|
                    0 <= j < p ==> line@[j] != 58);
            }
        }
        if cp == 0 {
            return None;
        }
        let id = line[0];
        let rest = slice_from(line, cp + 1);
        proof {
            assert(rest@ == after_colon(line@));
        }
        let toks = exec_split_on_comma(rest);
        let ghost tks = split_on_comma(after_colon(line@));
        let mut actions: Vec<Action> = Vec::new();
        let mut j: usize = 0;
        while j < toks.len()
            invariant
                0 <= j <= toks@.len(),
                toks@.map_values(|t: Vec<u8>| t@) == tks,
                tks == split_on_comma(after_colon(line@)),
                has_colon(line@),
                line@.len() > 0,
                line@[0] != 58,
                actions@.len() == j,
                forall|k: int| 0 <= k < j ==> action_of_tok(#[trigger] tks[k]) is Some,
                forall|k: int|
                    0 <= k < j ==> actions@[k] == action_of_tok(#[trigger] tks[k]).unwrap(),
            decreases toks@.len() - j,
        {
            proof {
                assert(toks@.map_values(|t: Vec<u8>| t@)[j as int] == tks[j as int]);
            }
            if toks[j].len() != 1 {
                proof {
                    assert(action_of_tok(tks[j as int]) is None);
                }
                return None;
            }
            let a = match action_of(toks[j][0]) {
                Some(a) => a,
                None => {
                    proof {
                        assert(action_of_tok(tks[j as int]) is None);
                    }
                    return None;
                },
            };
            actions.push(a);
            j += 1;
        }
        proof {
            assert(forall|k: int|
                0 <= k < tks.len() ==> !(action_of_tok(#[trigger] tks[k]) is None));
            assert(actions@ =~= tks.map_values(|t: Seq<u8>| action_of_tok(t).unwrap()));
        }
        Some(Plan { actions, id })
    }

    /// The plan's worth: from power `power`, run `length` steps of the
    /// plan's cycle, gathering the power after each step. Zero steps are
    /// worth zero whatever the plan holds. `None` exactly when an empty plan
    /// is asked to step, or the worth passes `usize`.
    pub fn value(&self, power: usize, length: usize) -> (r: Option<usize>)
        ensures
            match r {
                Some(v) => (self.actions@.len() > 0 || length == 0) && v as nat == plan_value(
                    self.actions@,
                    power as nat,
                    0,
                    length as nat,
                    0,
                ),
                None => (self.actions@.len() == 0 && length > 0) || plan_value(
                    self.actions@,
                    power as nat,
                    0,
                    length as nat,
                    0,
                ) > usize::MAX,
            },
    {
        if length == 0 {
            return Some(0);
        }
        if self.actions.len() == 0 {
            return None;
        }
        let mut p = power;
        let mut value: usize = 0;
        let mut k: usize = 0;
        while k < length
            invariant
                0 <= k <= length,
                self.actions@.len() > 0,
                plan_value(self.actions@, power as nat, 0, length as nat, 0) == plan_value(
                    self.actions@,
                    p as nat,
                    k as nat,
                    length as nat,
                    value as nat,
                ),
            decreases length - k,
        {
            let a = self.actions[k % self.actions.len()];
            if a == Action::Plus && p == usize::MAX {
                proof {
                    lemma_plan_value_lower(
                        self.actions@,
                        (p + 1) as nat,
                        (k + 1) as nat,
                        length as nat,
                        (value as nat + (p + 1)) as nat,
                    );
                }
                return None;
            }
            let p2 = match a {
                Action::Plus => p + 1,
                Action::Minus => if p == 0 {
                    0
                } else {
                    p - 1
                },
                Action::Equal => p,
            };
            if value > usize::MAX - p2 {
                proof {
                    lemma_plan_value_lower(
                        self.actions@,
                        p2 as nat,
                        (k + 1) as nat,
                        length as nat,
                        (value as nat + p2) as nat,
                    );
                }
                return None;
            }
            value = value + p2;
            p = p2;
            k += 1;
        }
        Some(value)
    }

    /// The plan's worth on a track: each step the track commands, except a
    /// track `Equal` defers to the plan's own cycle; the track is run
    /// `loops` times. `None` exactly when an empty plan is deferred to, a
    /// count passes `usize`, or the worth does.
    pub fn value_on_track(&self, power: usize, track_actions: &Vec<Action>, loops: usize) -> (r:
        Option<usize>)
        ensures
            ({
                let n = track_actions@.len() * loops;
                match r {
                    Some(v) => n <= usize::MAX && (self.actions@.len() > 0 || !track_defers(
                        track_actions@,
                        n as nat,
                    )) && v as nat == track_value(
                        self.actions@,
                        track_actions@,
                        power as nat,
                        0,
                        n as nat,
                        0,
                    ),
                    None => n > usize::MAX || (self.actions@.len() == 0 && track_defers(
                        track_actions@,
                        n as nat,
                    )) || track_value(
                        self.actions@,
                        track_actions@,
                        power as nat,
                        0,
                        n as nat,
                        0,
                    ) > usize::MAX,
                }
            }),
    {
        let tl = track_actions.len();
        if tl != 0 && loops > usize::MAX / tl {
            proof {
                assert(track_actions@.len() * loops > usize::MAX) by (nonlinear_arith)
                    requires
                        track_actions@.len() >= 1,
                        loops > (usize::MAX as int) / (track_actions@.len() as int),
                ;
            }
            return None;
        }
        proof {
            if tl != 0 {
                assert(track_actions@.len() * loops <= usize::MAX) by (nonlinear_arith)
                    requires
                        track_actions@.len() >= 1,
                        loops <= (usize::MAX as int) / (track_actions@.len() as int),
                ;
            }
        }
        let n = tl * loops;
        if tl == 0 {
            return Some(0);
        }
        let mut p = power;
        let mut value: usize = 0;
        let mut k: usize = 0;
        while k < n
            invariant
                0 <= k <= n,
                track_actions@.len() > 0,
                n == track_actions@.len() * loops,
                self.actions@.len() == 0 ==> forall|i: int|
                    0 <= i < k ==> #[trigger] track_actions@[(i % (track_actions@.len() as int)) as int]
                        != Action::Equal,
                track_value(
                    self.actions@,
                    track_actions@,
                    power as nat,
                    0,
                    n as nat,
                    0,
                ) == track_value(
                    self.actions@,
                    track_actions@,
                    p as nat,
                    k as nat,
                    n as nat,
                    value as nat,
                ),
            decreases n - k,
        {
            let ta = track_actions[k % track_actions.len()];
            let a = if ta == Action::Equal && self.actions.len() > 0 {
                self.actions[k % self.actions.len()]
            } else {
                if ta == Action::Equal {
                    proof {
                        assert(track_actions@[(k as int % (track_actions@.len() as int)) as int]
                            == Action::Equal);
                        assert(track_defers(track_actions@, n as nat));
                    }
                    return None;
                }
                ta
            };
            if a == Action::Plus && p == usize::MAX {
                proof {
                    lemma_track_value_lower(
                        self.actions@,
                        track_actions@,
                        (p + 1) as nat,
                        (k + 1) as nat,
                        n as nat,
                        (value as nat + (p + 1)) as nat,
                    );
                }
                return None;
            }
            let p2 = match a {
                Action::Plus => p + 1,
                Action::Minus => if p == 0 {
                    0
                } else {
                    p - 1
                },
                Action::Equal => p,
            };
            if value > usize::MAX - p2 {
                proof {
                    lemma_track_value_lower(
                        self.actions@,
                        track_actions@,
                        p2 as nat,
                        (k + 1) as nat,
                        n as nat,
                        (value as nat + p2) as nat,
                    );
                }
                return None;
            }
            value = value + p2;
            p = p2;
            k += 1;
        }
        proof {
            if self.actions@.len() == 0 {
                assert(!track_defers(track_actions@, n as nat)) by {
                    if track_defers(track_actions@, n as nat) {
                        let i = choose|i: int|
                            0 <= i < n && #[trigger] track_actions@[(i % (
                            track_actions@.len() as int)) as int] == Action::Equal;
                    }
                }
            }
        }
        Some(value)
    }
}

/// A slice of `s` from index `from` on.
fn slice_from(s: &[u8], from: usize) -> (r: &[u8])
    requires
        from <= s@.len(),
    ensures
        r@ == s@.skip(from as int),
{
    let r = vstd::slice::slice_subrange(s, from, s.len());
    proof {
        assert(r@ =~= s@.skip(from as int));
    }
    r
}

/// The gathered value never shrinks as the steps go on.
proof fn lemma_plan_value_lower(acts: Seq<Action>, p: nat, k: nat, n: nat, acc: nat)
    ensures
        plan_value(acts, p, k, n, acc) >= acc,
    decreases n - k,
{
    if k < n && acts.len() > 0 {
        let p2 = apply_spec(p, acts[(k % acts.len()) as int]);
        lemma_plan_value_lower(acts, p2, k + 1, n, acc + p2);
    }
}

/// The gathered value never shrinks as the steps go on.
proof fn lemma_track_value_lower(
    acts: Seq<Action>,
    track: Seq<Action>,
    p: nat,
    k: nat,
    n: nat,
    acc: nat,
)
    ensures
        track_value(acts, track, p, k, n, acc) >= acc,
    decreases n - k,
{
    if k < n && track.len() > 0 {
        let ta = track[(k % track.len()) as int];
        let a = if ta == Action::Equal && acts.len() > 0 {
            acts[(k % acts.len()) as int]
        } else {
            ta
        };
        let p2 = apply_spec(p, a);
        lemma_track_value_lower(acts, track, p2, k + 1, n, acc + p2);
    }
}


/// The position may follow `prev`: it is not the step we came from, and its
/// cell exists and is not whitespace.
pub open spec fn ok_step(g: Seq<Seq<u8>>, p: Position, prev: Position) -> bool {
    p != prev && (grid::cell_at(g, p) matches Some(c) && !quest05::is_ws(c))
}

/// The first viable candidate.
pub open spec fn first_ok(cands: Seq<Position>, g: Seq<Seq<u8>>, prev: Position) -> Option<
    Position,
>
    decreases cands.len(),
{
    if cands.len() == 0 {
        None
    } else if ok_step(g, cands[0], prev) {
        Some(cands[0])
    } else {
        first_ok(cands.drop_first(), g, prev)
    }
}

/// The next position of the walk: the first neighbor of `cur`, clockwise
/// from above, inside the grid's corner, not `prev`, on a non-blank cell.
pub open spec fn next_pos(g: Seq<Seq<u8>>, cur: Position, prev: Position, corner: Position) -> Option<
    Position,
> {
    first_ok(
        cur.spec_neighbors().filter(|p: Position| corner.spec_contains(p)),
        g,
        prev,
    )
}

/// The first `S` cell in row-major order.
pub open spec fn first_start(cells: Seq<(Position, u8)>) -> Option<Position>
    decreases cells.len(),
{
    if cells.len() == 0 {
        None
    } else if cells[0].1 == 83 {
        Some(cells[0].0)
    } else {
        first_start(cells.drop_first())
    }
}

/// The actions read along the track from `cur`, having come from `prev`:
/// each step records the cell's action and moves on, and the lap ends when
/// the step just recorded stood on the `S`. `None` when a cell cannot be
/// read as an action, the walk has nowhere to go, or `fuel` runs out.
pub open spec fn walk(
    g: Seq<Seq<u8>>,
    prev: Position,
    cur: Position,
    corner: Position,
    acc: Seq<Action>,
    fuel: nat,
) -> Option<Seq<Action>>
    decreases fuel,
{
    if fuel == 0 {
        None
    } else {
        match grid::cell_at(g, cur) {
            None => None,
            Some(c) => match spec_action_of(c) {
                None => None,
                Some(a) => {
                    let acc2 = acc.push(a);
                    match next_pos(g, cur, prev, corner) {
                        None => None,
                        Some(nxt) => if c == 83 {
                            Some(acc2)
                        } else {
                            walk(g, cur, nxt, corner, acc2, (fuel - 1) as nat)
                        },
                    }
                },
            },
        }
    }
}

/// The actions of one lap of the track: from the `S`, along the one-cell
/// path, back to the `S`.
pub open spec fn track_actions_spec(t: Seq<u8>) -> Option<Seq<Action>> {
    let lns = parse::spec_lines(t);
    if lns.len() == 0 || lns[0].len() == 0 {
        None
    } else {
        let corner = Position {
            row: (lns.len() - 1) as usize,
            col: (lns[0].len() - 1) as usize,
        };
        match first_start(grid::cells_upto(lns, lns.len() as int)) {
            None => None,
            Some(s_pos) => match next_pos(lns, s_pos, s_pos, corner) {
                None => None,
                Some(cur0) => walk(lns, s_pos, cur0, corner, Seq::empty(), usize::MAX as nat),
            },
        }
    }
}

/// The first viable candidate among `cands`, or `None`.
fn exec_first_ok(cands: &Vec<Position>, g: &Grid<u8>, prev: Position) -> (r: Option<Position>)
    ensures
        r == first_ok(cands@, g@, prev),
{
    let mut i: usize = 0;
    proof {
        assert(cands@.skip(0) =~= cands@);
    }
    while i < cands.len()
        invariant
            0 <= i <= cands@.len(),
            first_ok(cands@, g@, prev) == first_ok(cands@.skip(i as int), g@, prev),
        decreases cands@.len() - i,
    {
        proof {
            assert(cands@.skip(i as int).drop_first() =~= cands@.skip(i as int + 1));
            assert(cands@.skip(i as int)[0] == cands@[i as int]);
        }
        let p = cands[i];
        let viable = if p.row == prev.row && p.col == prev.col {
            false
        } else {
            match g.get(&p) {
                Some(c) => {
                    let cc = *c;
                    !(cc == 9 || cc == 10 || cc == 11 || cc == 12 || cc == 13 || cc == 32)
                },
                None => false,
            }
        };
        if viable {
            proof {
                assert(ok_step(g@, p, prev));
            }
            return Some(p);
        }
        proof {
            assert(!ok_step(g@, p, prev));
        }
        i += 1;
    }
    None
}

/// A viable first candidate is one of the candidates and viable.
proof fn lemma_first_ok_props(cands: Seq<Position>, g: Seq<Seq<u8>>, prev: Position)
    ensures
        first_ok(cands, g, prev) matches Some(p) ==> cands.contains(p) && ok_step(g, p, prev),
    decreases cands.len(),
{
    if cands.len() > 0 && !ok_step(g, cands[0], prev) {
        lemma_first_ok_props(cands.drop_first(), g, prev);
        if first_ok(cands, g, prev) is Some {
            let p = first_ok(cands, g, prev).unwrap();
            let i = choose|i: int|
                0 <= i < cands.drop_first().len() && cands.drop_first()[i] == p;
            assert(cands[i + 1] == p);
        }
    }
}

/// A found start is one of the cells, holding the `S`.
proof fn lemma_first_start_props(cells: Seq<(Position, u8)>)
    ensures
        first_start(cells) matches Some(p) ==> exists|k: int|
            0 <= k < cells.len() && (#[trigger] cells[k]).0 == p && cells[k].1 == 83,
    decreases cells.len(),
{
    if cells.len() > 0 && cells[0].1 != 83 {
        lemma_first_start_props(cells.drop_first());
        if first_start(cells) is Some {
            let p = first_start(cells).unwrap();
            let k = choose|k: int|
                0 <= k < cells.drop_first().len() && (#[trigger] cells.drop_first()[k]).0 == p
                    && cells.drop_first()[k].1 == 83;
            assert(cells[k + 1].0 == p && cells[k + 1].1 == 83);
        }
    }
}

/// The first `S` among the cells, in the order given.
fn find_start(cells: &Vec<(Position, u8)>) -> (r: Option<Position>)
    ensures
        r == first_start(cells@),
{
    let mut i: usize = 0;
    proof {
        assert(cells@.skip(0) =~= cells@);
    }
    while i < cells.len()
        invariant
            0 <= i <= cells@.len(),
            first_start(cells@) == first_start(cells@.skip(i as int)),
        decreases cells@.len() - i,
    {
        proof {
            assert(cells@.skip(i as int).drop_first() =~= cells@.skip(i as int + 1));
            assert(cells@.skip(i as int)[0] == cells@[i as int]);
        }
        if cells[i].1 == 83 {
            return Some(cells[i].0);
        }
        i += 1;
    }
    proof {
        assert(cells@.skip(cells@.len() as int) =~= Seq::<(Position, u8)>::empty());
    }
    None
}

/// Walks one lap of a race track and yields its actions in order, starting
/// just after the `S` and ending on it. `None` exactly when the track has no
/// lines or a blank first line, no `S`, a cell that is no action, a dead
/// end, or a lap longer than `usize::MAX` steps.
pub fn parse_track_actions(track: &[u8]) -> (r: Option<Vec<Action>>)
    ensures
        match r {
            Some(v) => track_actions_spec(track@) == Some(v@),
            None => track_actions_spec(track@) is None,
        },
{
    let ghost lns = parse::spec_lines(track@);
    let g = match Grid::from_text(track) {
        Some(g) => g,
        None => {
            return None;
        },
    };
    let h = g.height();
    let w = g.width();
    if w == 0 {
        proof {
            assert(lns[0].len() == 0);
        }
        return None;
    }
    let corner = Position::new(h - 1, w - 1);
    let cells = g.iter();
    let s_pos = match find_start(&cells) {
        Some(p) => p,
        None => {
            return None;
        },
    };
    proof {
        lemma_first_start_props(cells@);
        let k = choose|k: int|
            0 <= k < cells@.len() && (#[trigger] cells@[k]).0 == s_pos && cells@[k].1 == 83;
        assert(grid::cell_at(g@, s_pos) is Some);
    }
    let _s_row_len = g.row_len(s_pos.row);
    let cands0 = s_pos.neighbors_contained(corner);
    let ghost fcands0 = s_pos.spec_neighbors().filter(|p: Position| corner.spec_contains(p));
    let cur0 = match exec_first_ok(&cands0, &g, s_pos) {
        Some(p) => p,
        None => {
            return None;
        },
    };
    proof {
        lemma_first_ok_props(fcands0, g@, s_pos);
        assert(fcands0.contains(cur0));
        let i = choose|i: int| 0 <= i < fcands0.len() && fcands0[i] == cur0;
        s_pos.spec_neighbors().lemma_filter_pred(|p: Position| corner.spec_contains(p), i);
    }
    let mut prev = s_pos;
    let mut cur = cur0;
    let mut acts: Vec<Action> = Vec::new();
    let mut fuel: usize = usize::MAX;
    let ghost target = walk(g@, s_pos, cur0, corner, Seq::empty(), usize::MAX as nat);
    while fuel > 0
        invariant
            lns == parse::spec_lines(track@),
            g@ == lns,
            lns.len() > 0,
            lns[0].len() > 0,
            h == lns.len(),
            w == lns[0].len(),
            corner == (Position { row: (h - 1) as usize, col: (w - 1) as usize }),
            corner.spec_contains(cur),
            target == track_actions_spec(track@),
            walk(g@, prev, cur, corner, acts@, fuel as nat) == target,
        decreases fuel,
    {
        let c = match g.get(&cur) {
            Some(c) => *c,
            None => {
                return None;
            },
        };
        let a = match action_of(c) {
            Some(a) => a,
            None => {
                return None;
            },
        };
        acts.push(a);
        let cands = cur.neighbors_contained(corner);
        let ghost fcands = cur.spec_neighbors().filter(|p: Position| corner.spec_contains(p));
        let nxt = match exec_first_ok(&cands, &g, prev) {
            Some(p) => p,
            None => {
                return None;
            },
        };
        proof {
            lemma_first_ok_props(fcands, g@, prev);
            assert(fcands.contains(nxt));
            let i = choose|i: int| 0 <= i < fcands.len() && fcands[i] == nxt;
            cur.spec_neighbors().lemma_filter_pred(|p: Position| corner.spec_contains(p), i);
        }
        if c == 83 {
            return Some(acts);
        }
        prev = cur;
        cur = nxt;
        fuel = fuel - 1;
    }
    None
}


/// A ranked entry: a worth, the place the plan stood in the input, its name.
/// Entries order by worth first and input place second, so equal worths keep
/// their input order.
pub open spec fn le_entry(a: (usize, usize, u8), b: (usize, usize, u8)) -> bool {
    a.0 < b.0 || (a.0 == b.0 && a.1 <= b.1)
}

/// `x` slotted into its place from the back of `s`.
pub open spec fn insert_entry(s: Seq<(usize, usize, u8)>, x: (usize, usize, u8)) -> Seq<
    (usize, usize, u8),
>
    decreases s.len(),
{
    if s.len() == 0 || le_entry(s.last(), x) {
        s.push(x)
    } else {
        insert_entry(s.drop_last(), x).push(s.last())
    }
}

/// The entries in rising order of worth, equal worths in input order: the
/// stable ranking.
pub open spec fn sort_entries(s: Seq<(usize, usize, u8)>) -> Seq<(usize, usize, u8)>
    decreases s.len(),
{
    if s.len() == 0 {
        Seq::empty()
    } else {
        insert_entry(sort_entries(s.drop_last()), s.last())
    }
}

/// Sorts the entries by worth, stably.
fn exec_sort_entries(v: &Vec<(usize, usize, u8)>) -> (r: Vec<(usize, usize, u8)>)
    ensures
        r@ == sort_entries(v@),
{
    let mut out: Vec<(usize, usize, u8)> = Vec::new();
    let mut i: usize = 0;
    proof {
        assert(v@.take(0) =~= Seq::<(usize, usize, u8)>::empty());
    }
    while i < v.len()
        invariant
            0 <= i <= v@.len(),
            out@ == sort_entries(v@.take(i as int)),
        decreases v@.len() - i,
    {
        let x = v[i];
        let mut k = out.len();
        while k > 0 && entry_gt(out[k - 1], x)
            invariant
                0 <= k <= out@.len(),
                forall|m: int| k <= m < out@.len() ==> !le_entry(#[trigger] out@[m], x),
            decreases k,
        {
            k = k - 1;
        }
        let ghost pre = out@;
        out.insert(k, x);
        proof {
            lemma_insert_entry_at(pre, x, k as int);
            assert(out@ =~= pre.take(k as int).push(x) + pre.skip(k as int));
            assert(v@.take(i + 1).drop_last() =~= v@.take(i as int));
            assert(v@.take(i + 1).last() == v@[i as int]);
        }
        i += 1;
    }
    proof {
        assert(v@.take(v@.len() as int) =~= v@);
    }
    out
}

/// Strictly after `b` in the ranking order.
fn entry_gt(a: (usize, usize, u8), b: (usize, usize, u8)) -> (r: bool)
    ensures
        r == !le_entry(a, b),
{
    a.0 > b.0 || (a.0 == b.0 && a.1 > b.1)
}

/// Slotting from the back lands `x` before the entries that rank after it.
proof fn lemma_insert_entry_at(s: Seq<(usize, usize, u8)>, x: (usize, usize, u8), k: int)
    requires
        0 <= k <= s.len(),
        forall|m: int| k <= m < s.len() ==> !le_entry(#[trigger] s[m], x),
        k > 0 ==> le_entry(s[k - 1], x),
    ensures
        insert_entry(s, x) == s.take(k).push(x) + s.skip(k),
    decreases s.len(),
{
    if s.len() == 0 || le_entry(s.last(), x) {
        assert(k == s.len());
        assert(insert_entry(s, x) == s.push(x));
        assert(s.take(k).push(x) + s.skip(k) =~= s.push(x));
    } else {
        assert(k < s.len());
        lemma_insert_entry_at(s.drop_last(), x, k);
        assert(insert_entry(s, x) == insert_entry(s.drop_last(), x).push(s.last()));
        assert(s.drop_last().take(k) =~= s.take(k));
        assert((s.drop_last().take(k).push(x) + s.drop_last().skip(k)).push(s.last()) =~= s.take(
            k,
        ).push(x) + s.skip(k));
    }
}


/// The plans the lines name, or `None` as soon as one line is malformed.
pub open spec fn plans_of(lines: Seq<Seq<u8>>) -> Option<Seq<(u8, Seq<Action>)>> {
    if exists|i: int| 0 <= i < lines.len() && plan_of_line(#[trigger] lines[i]) is None {
        None
    } else {
        Some(lines.map_values(|l: Seq<u8>| plan_of_line(l).unwrap()))
    }
}

/// The names of the plans, best worth first: ranked by rising worth with
/// equal worths in input order, then read backwards.
pub open spec fn ranked_ids(ps: Seq<(u8, Seq<Action>)>, keys: Seq<nat>) -> Seq<u8> {
    let entries = Seq::new(
        ps.len(),
        |i: int| (keys[i] as usize, i as usize, ps[i].0),
    );
    let sorted = sort_entries(entries);
    Seq::new(ps.len(), |i: int| sorted[ps.len() - 1 - i].2)
}

/// Each plan's worth over ten steps from power ten.
pub open spec fn keys1(ps: Seq<(u8, Seq<Action>)>) -> Seq<nat> {
    Seq::new(ps.len(), |i: int| plan_value(ps[i].1, 10, 0, 10, 0))
}

/// Each plan's worth over ten laps of the track from power ten.
pub open spec fn keys2(ps: Seq<(u8, Seq<Action>)>, tr: Seq<Action>) -> Seq<nat> {
    Seq::new(ps.len(), |i: int| track_value(ps[i].1, tr, 10, 0, tr.len() * 10, 0))
}

/// Everything the ranking needs of the plans: no plan empty, every worth and
/// name representable.
pub open spec fn rankable(ps: Seq<(u8, Seq<Action>)>, keys: Seq<nat>) -> bool {
    forall|i: int|
        0 <= i < ps.len() ==> (#[trigger] ps[i]).1.len() > 0 && keys[i] <= usize::MAX && ps[i].0
            < 128
}

/// Everything the track ranking needs of the plans: an empty plan only where
/// the track never defers over its ten laps, every worth and name
/// representable.
pub open spec fn rankable_on_track(ps: Seq<(u8, Seq<Action>)>, tr: Seq<Action>) -> bool {
    forall|i: int|
        0 <= i < ps.len() ==> ((#[trigger] ps[i]).1.len() > 0 || !track_defers(
            tr,
            (tr.len() * 10) as nat,
        )) && keys2(ps, tr)[i] <= usize::MAX && ps[i].0 < 128
}

/// Parses one plan per line.
fn parse_plans(input: &[u8]) -> (r: Option<Vec<Plan>>)
    ensures
        ({
            let lines = parse::spec_lines(input@);
            match r {
                Some(v) => plans_of(lines) matches Some(ps) && v@.len() == ps.len() && forall|
                    i: int,
                |
                    0 <= i < ps.len() ==> (#[trigger] v@[i]).id == ps[i].0 && v@[i].actions@
                        == ps[i].1,
                None => plans_of(lines) is None,
            }
        }),
{
    let ghost lns = parse::spec_lines(input@);
    let lines = parse::split_lines(input);
    let mut v: Vec<Plan> = Vec::new();
    let mut i: usize = 0;
    while i < lines.len()
        invariant
            0 <= i <= lines@.len(),
            lns == parse::spec_lines(input@),
            lines@.map_values(|l: Vec<u8>| l@) == lns,
            v@.len() == i,
            forall|k: int| 0 <= k < i ==> plan_of_line(#[trigger] lns[k]) is Some,
            forall|k: int|
                0 <= k < i ==> (#[trigger] v@[k]).id == plan_of_line(lns[k]).unwrap().0
                    && v@[k].actions@ == plan_of_line(lns[k]).unwrap().1,
        decreases lines@.len() - i,
    {
        proof {
            assert(lines@.map_values(|l: Vec<u8>| l@)[i as int] == lns[i as int]);
        }
        match Plan::new(lines[i].as_slice()) {
            Some(p) => {
                v.push(p);
            },
            None => {
                return None;
            },
        }
        i += 1;
    }
    proof {
        assert(plans_of(lns) is Some);
        let ps = plans_of(lns).unwrap();
        assert(forall|k: int|
            0 <= k < ps.len() ==> #[trigger] ps[k] == plan_of_line(lns[k]).unwrap());
    }
    Some(v)
}

/// First tier: the plan names ranked by worth over ten steps from power ten,
/// best first. `None` exactly when a line is malformed, a plan is empty, or
/// a worth or name is not representable.
pub fn part1(input: &[u8]) -> (r: Option<String>)
    ensures
        ({
            let lines = parse::spec_lines(input@);
            match r {
                Some(s) => plans_of(lines) matches Some(ps) && rankable(ps, keys1(ps)) && s@
                    == text::bytes_as_chars(ranked_ids(ps, keys1(ps))),
                None => plans_of(lines) is None || (plans_of(lines) matches Some(ps) && !rankable(
                    ps,
                    keys1(ps),
                )),
            }
        }),
{
    let ghost lines = parse::spec_lines(input@);
    let plans = match parse_plans(input) {
        Some(v) => v,
        None => {
            return None;
        },
    };
    let ghost ps = plans_of(lines).unwrap();
    let mut entries: Vec<(usize, usize, u8)> = Vec::new();
    let mut i: usize = 0;
    while i < plans.len()
        invariant
            0 <= i <= plans@.len(),
            lines == parse::spec_lines(input@),
            plans_of(lines) == Some(ps),
            plans@.len() == ps.len(),
            forall|k: int|
                0 <= k < ps.len() ==> (#[trigger] plans@[k]).id == ps[k].0 && plans@[k].actions@
                    == ps[k].1,
            entries@.len() == i,
            forall|k: int|
                0 <= k < i ==> (#[trigger] ps[k]).1.len() > 0 && keys1(ps)[k] <= usize::MAX
                    && ps[k].0 < 128,
            forall|k: int|
                0 <= k < i ==> #[trigger] entries@[k] == (
                    keys1(ps)[k] as usize,
                    k as usize,
                    ps[k].0,
                ),
        decreases plans@.len() - i,
    {
        let key = match plans[i].value(10, 10) {
            Some(v) => v,
            None => {
                return None;
            },
        };
        let id = plans[i].id;
        if id >= 128 {
            return None;
        }
        entries.push((key, i, id));
        i += 1;
    }
    let sorted = exec_sort_entries(&entries);
    proof {
        assert(entries@ =~= Seq::new(
            ps.len(),
            |k: int| (keys1(ps)[k] as usize, k as usize, ps[k].0),
        ));
    }
    let mut ids: Vec<u8> = Vec::new();
    let mut j: usize = 0;
    let n = sorted.len();
    proof {
        assert(sorted@.len() == ps.len()) by {
            lemma_sort_entries_len(entries@);
        }
        lemma_sort_entries_contains(entries@);
        assert forall|k: int| 0 <= k < sorted@.len() implies (#[trigger] sorted@[k]).2 < 128 by {
            assert(entries@.contains(sorted@[k]));
            let m = choose|m: int| 0 <= m < entries@.len() && entries@[m] == sorted@[k];
            assert(entries@[m].2 == ps[m].0);
        }
    }
    while j < n
        invariant
            0 <= j <= n,
            n == sorted@.len(),
            n == ps.len(),
            sorted@ == sort_entries(
                Seq::new(ps.len(), |k: int| (keys1(ps)[k] as usize, k as usize, ps[k].0)),
            ),
            ids@.len() == j,
            forall|k: int| 0 <= k < j ==> #[trigger] ids@[k] == ranked_ids(ps, keys1(ps))[k],
            forall|k: int| 0 <= k < n ==> (#[trigger] sorted@[k]).2 < 128,
        decreases n - j,
    {
        ids.push(sorted[n - 1 - j].2);
        j += 1;
    }
    proof {
        assert(ids@ =~= ranked_ids(ps, keys1(ps)));
        assert(forall|k: int| 0 <= k < ids@.len() ==> #[trigger] ids@[k] < 128);
    }
    Some(text::ascii_to_string(ids))
}

/// Every slotted-in entry was there before or is the new one.
proof fn lemma_insert_entry_contains(s: Seq<(usize, usize, u8)>, x: (usize, usize, u8))
    ensures
        forall|k: int|
            0 <= k < insert_entry(s, x).len() ==> insert_entry(s, x)[k] == x || s.contains(
                #[trigger] insert_entry(s, x)[k],
            ),
    decreases s.len(),
{
    lemma_insert_entry_len(s, x);
    if s.len() == 0 || le_entry(s.last(), x) {
    } else {
        lemma_insert_entry_contains(s.drop_last(), x);
        lemma_insert_entry_len(s.drop_last(), x);
        assert forall|k: int|
            0 <= k < insert_entry(s, x).len() implies insert_entry(s, x)[k] == x || s.contains(
            #[trigger] insert_entry(s, x)[k],
        ) by {
            if k < insert_entry(s.drop_last(), x).len() {
                assert(insert_entry(s, x)[k] == insert_entry(s.drop_last(), x)[k]);
                if insert_entry(s.drop_last(), x)[k] != x {
                    let m = choose|m: int|
                        0 <= m < s.drop_last().len() && s.drop_last()[m] == insert_entry(
                            s.drop_last(),
                            x,
                        )[k];
                    assert(s[m] == insert_entry(s, x)[k]);
                }
            } else {
                assert(insert_entry(s, x)[k] == s.last());
                assert(s[s.len() - 1] == s.last());
            }
        }
    }
}

/// Every ranked entry stood among the given ones.
proof fn lemma_sort_entries_contains(s: Seq<(usize, usize, u8)>)
    ensures
        forall|k: int|
            0 <= k < sort_entries(s).len() ==> s.contains(#[trigger] sort_entries(s)[k]),
    decreases s.len(),
{
    if s.len() > 0 {
        lemma_sort_entries_contains(s.drop_last());
        lemma_insert_entry_contains(sort_entries(s.drop_last()), s.last());
        assert forall|k: int|
            0 <= k < sort_entries(s).len() implies s.contains(#[trigger] sort_entries(s)[k]) by {
            let e = sort_entries(s)[k];
            if e == s.last() {
                assert(s[s.len() - 1] == e);
            } else {
                assert(sort_entries(s.drop_last()).contains(e));
                let m = choose|m: int|
                    0 <= m < sort_entries(s.drop_last()).len() && sort_entries(s.drop_last())[m]
                        == e;
                let m2 = choose|m2: int|
                    0 <= m2 < s.drop_last().len() && s.drop_last()[m2] == e;
                assert(s[m2] == e);
            }
        }
    }
}

/// Sorting keeps the number of entries.
proof fn lemma_sort_entries_len(s: Seq<(usize, usize, u8)>)
    ensures
        sort_entries(s).len() == s.len(),
    decreases s.len(),
{
    if s.len() > 0 {
        lemma_sort_entries_len(s.drop_last());
        lemma_insert_entry_len(sort_entries(s.drop_last()), s.last());
    }
}

/// Slotting in keeps every entry and adds the new one.
proof fn lemma_insert_entry_len(s: Seq<(usize, usize, u8)>, x: (usize, usize, u8))
    ensures
        insert_entry(s, x).len() == s.len() + 1,
    decreases s.len(),
{
    if !(s.len() == 0 || le_entry(s.last(), x)) {
        lemma_insert_entry_len(s.drop_last(), x);
    }
}


/// Second tier: the plan names ranked by worth over ten laps of the track,
/// best first. `None` exactly when the track or a line is malformed, the lap
/// count does not fit, a plan is empty, or a worth or name is not
/// representable.
pub fn part2(input: &[u8], track: &[u8]) -> (r: Option<String>)
    ensures
        ({
            let lines = parse::spec_lines(input@);
            match r {
                Some(s) => track_actions_spec(track@) matches Some(tr) && plans_of(
                    lines,
                ) matches Some(ps) && (ps.len() > 0 ==> tr.len() * 10 <= usize::MAX)
                    && rankable_on_track(ps, tr) && s@ == text::bytes_as_chars(
                    ranked_ids(ps, keys2(ps, tr)),
                ),
                None => track_actions_spec(track@) is None || plans_of(lines) is None || (
                track_actions_spec(track@) matches Some(tr) && plans_of(lines) matches Some(ps)
                    && ps.len() > 0 && (tr.len() * 10 > usize::MAX || !rankable_on_track(
                    ps,
                    tr,
                ))),
            }
        }),
{
    let ghost lines = parse::spec_lines(input@);
    let plans = match parse_plans(input) {
        Some(v) => v,
        None => {
            return None;
        },
    };
    let ghost ps = plans_of(lines).unwrap();
    let tr = match parse_track_actions(track) {
        Some(t) => t,
        None => {
            return None;
        },
    };
    let ghost trs = tr@;
    let mut entries: Vec<(usize, usize, u8)> = Vec::new();
    let mut i: usize = 0;
    while i < plans.len()
        invariant
            0 <= i <= plans@.len(),
            lines == parse::spec_lines(input@),
            plans_of(lines) == Some(ps),
            track_actions_spec(track@) == Some(trs),
            tr@ == trs,
            plans@.len() == ps.len(),
            forall|k: int|
                0 <= k < ps.len() ==> (#[trigger] plans@[k]).id == ps[k].0 && plans@[k].actions@
                    == ps[k].1,
            i > 0 ==> trs.len() * 10 <= usize::MAX,
            entries@.len() == i,
            forall|k: int|
                0 <= k < i ==> ((#[trigger] ps[k]).1.len() > 0 || !track_defers(
                    trs,
                    (trs.len() * 10) as nat,
                )) && keys2(ps, trs)[k] <= usize::MAX && ps[k].0 < 128,
            forall|k: int|
                0 <= k < i ==> #[trigger] entries@[k] == (
                    keys2(ps, trs)[k] as usize,
                    k as usize,
                    ps[k].0,
                ),
        decreases plans@.len() - i,
    {
        let key = match plans[i].value_on_track(10, &tr, 10) {
            Some(v) => v,
            None => {
                return None;
            },
        };
        let id = plans[i].id;
        if id >= 128 {
            return None;
        }
        entries.push((key, i, id));
        i += 1;
    }
    if plans.len() == 0 {
        let empty_ids: Vec<u8> = Vec::new();
        proof {
            lemma_sort_entries_len(
                Seq::new(ps.len(), |k: int| (keys2(ps, trs)[k] as usize, k as usize, ps[k].0)),
            );
            assert(empty_ids@ =~= ranked_ids(ps, keys2(ps, trs)));
        }
        return Some(text::ascii_to_string(empty_ids));
    }
    let sorted = exec_sort_entries(&entries);
    proof {
        assert(entries@ =~= Seq::new(
            ps.len(),
            |k: int| (keys2(ps, trs)[k] as usize, k as usize, ps[k].0),
        ));
    }
    let mut ids: Vec<u8> = Vec::new();
    let mut j: usize = 0;
    let n = sorted.len();
    proof {
        assert(sorted@.len() == ps.len()) by {
            lemma_sort_entries_len(entries@);
        }
        lemma_sort_entries_contains(entries@);
        assert forall|k: int| 0 <= k < sorted@.len() implies (#[trigger] sorted@[k]).2 < 128 by {
            assert(entries@.contains(sorted@[k]));
            let m = choose|m: int| 0 <= m < entries@.len() && entries@[m] == sorted@[k];
            assert(entries@[m].2 == ps[m].0);
        }
    }
    while j < n
        invariant
            0 <= j <= n,
            n == sorted@.len(),
            n == ps.len(),
            sorted@ == sort_entries(
                Seq::new(ps.len(), |k: int| (keys2(ps, trs)[k] as usize, k as usize, ps[k].0)),
            ),
            ids@.len() == j,
            forall|k: int| 0 <= k < j ==> #[trigger] ids@[k] == ranked_ids(ps, keys2(ps, trs))[k],
            forall|k: int| 0 <= k < n ==> (#[trigger] sorted@[k]).2 < 128,
        decreases n - j,
    {
        ids.push(sorted[n - 1 - j].2);
        j += 1;
    }
    proof {
        assert(ids@ =~= ranked_ids(ps, keys2(ps, trs)));
        assert(forall|k: int| 0 <= k < ids@.len() ==> #[trigger] ids@[k] < 128);
    }
    Some(text::ascii_to_string(ids))
}

/// How many of the given actions equal `a`.
pub open spec fn count_act(s: Seq<Action>, a: Action) -> nat {
    s.filter(|x: Action| x == a).len()
}

/// `s` holds exactly the asked-for number of each action.
pub open spec fn arr_counts_ok(s: Seq<Action>, p: nat, m: nat, e: nat) -> bool {
    s.len() == p + m + e && count_act(s, Action::Plus) == p && count_act(s, Action::Minus) == m
        && count_act(s, Action::Equal) == e
}

/// `a` comes strictly before `b` in the lexicographic order of actions.
pub open spec fn lex_lt(a: Seq<Action>, b: Seq<Action>) -> bool {
    exists|k: int|
        #![trigger a[k], b[k]]
        0 <= k < a.len() && k < b.len() && (forall|m: int| 0 <= m < k ==> a[m] == b[m]) && act_rank(
            a[k],
        ) < act_rank(b[k])
}

/// `arrs` is the full catalogue of arrangements of the asked-for multiset of
/// actions: each entry has the right counts, they rise strictly in
/// lexicographic order, and every arrangement with the right counts is in.
pub open spec fn arrangements_ok(arrs: Seq<Seq<Action>>, p: nat, m: nat, e: nat) -> bool {
    &&& forall|i: int| 0 <= i < arrs.len() ==> arr_counts_ok(#[trigger] arrs[i], p, m, e)
    &&& forall|i: int, j: int| 0 <= i < j < arrs.len() ==> lex_lt(arrs[i], arrs[j])
    &&& forall|s: Seq<Action>| #[trigger] arr_counts_ok(s, p, m, e) ==> arrs.contains(s)
}

/// Relies on itertools' permutations, sorted_unstable and dedup: all
/// orderings of the given multiset of actions, each exactly once, rising in
/// the lexicographic order that the derived `Ord` of `Action` gives
/// (`Plus` before `Minus` before `Equal`).
#[verifier::external_body]
fn distinct_arrangements(pluses: usize, minuses: usize, equals: usize) -> (r: Vec<Vec<Action>>)
    requires
        pluses + minuses + equals <= usize::MAX,
    ensures
        arrangements_ok(
            r@.map_values(|v: Vec<Action>| v@),
            pluses as nat,
            minuses as nat,
            equals as nat,
        ),
{
    let n = pluses + minuses + equals;
    vec![Action::Plus; pluses]
        .into_iter()
        .chain(vec![Action::Minus; minuses])
        .chain(vec![Action::Equal; equals])
        .permutations(n)
        .sorted_unstable()
        .dedup()
        .collect()
}

impl Plan {
    /// Every distinct arrangement of the asked-for actions as a plan, in
    /// rising lexicographic order, named in rotation from `A`.
    pub fn permutations(pluses: usize, minuses: usize, equals: usize) -> (r: Vec<Plan>)
        requires
            pluses + minuses + equals <= usize::MAX,
        ensures
            arrangements_ok(
                r@.map_values(|pl: Plan| pl.actions@),
                pluses as nat,
                minuses as nat,
                equals as nat,
            ),
            forall|i: int| 0 <= i < r@.len() ==> (#[trigger] r@[i]).id == 65 + (i % 26) as u8,
    {
        let arrs = distinct_arrangements(pluses, minuses, equals);
        let ghost avs = arrs@.map_values(|v: Vec<Action>| v@);
        let mut r: Vec<Plan> = Vec::new();
        let mut i: usize = 0;
        while i < arrs.len()
            invariant
                0 <= i <= arrs@.len(),
                avs == arrs@.map_values(|v: Vec<Action>| v@),
                arrangements_ok(avs, pluses as nat, minuses as nat, equals as nat),
                r@.len() == i,
                forall|k: int| 0 <= k < i ==> (#[trigger] r@[k]).actions@ == avs[k],
                forall|k: int| 0 <= k < i ==> (#[trigger] r@[k]).id == 65 + (k % 26) as u8,
            decreases arrs@.len() - i,
        {
            let mut actions: Vec<Action> = Vec::new();
            let src = &arrs[i];
            let mut j: usize = 0;
            while j < src.len()
                invariant
                    0 <= j <= src@.len(),
                    actions@ == src@.take(j as int),
                decreases src@.len() - j,
            {
                actions.push(src[j]);
                proof {
                    assert(src@.take(j + 1) =~= src@.take(j as int).push(src@[j as int]));
                }
                j += 1;
            }
            proof {
                assert(src@.take(src@.len() as int) =~= src@);
                assert(avs[i as int] == arrs@[i as int]@);
            }
            let id = 65 + ((i % 26) as u8);
            r.push(Plan { actions, id });
            i += 1;
        }
        proof {
            assert(r@.map_values(|pl: Plan| pl.actions@) =~= avs);
        }
        r
    }
}

/// How many arrangements beat the threshold on the track over `n` steps.
pub open spec fn count_over(arrs: Seq<Seq<Action>>, tr: Seq<Action>, n: nat, thr: usize) -> nat
    decreases arrs.len(),
{
    if arrs.len() == 0 {
        0
    } else {
        count_over(arrs.drop_last(), tr, n, thr) + (if track_value(
            arrs.last(),
            tr,
            10,
            0,
            n,
            0,
        ) > thr {
            1nat
        } else {
            0nat
        })
    }
}

/// Third tier: among all distinct arrangements of five `+`, three `-` and
/// three `=`, how many beat the given plan over 2024 laps of the track.
/// `None` exactly when the track or the plan is malformed, the plan is
/// empty, the step count does not fit, or a worth is not representable.
pub fn part3(input: &[u8], track: &[u8]) -> (r: Option<usize>)
    ensures
        ({
            let n = track_actions_spec(track@).unwrap().len() * 2024;
            match r {
                Some(v) => track_actions_spec(track@) matches Some(tr) && plan_of_line(
                    input@,
                ) matches Some(pl) && (pl.1.len() > 0 || !track_defers(tr, n as nat)) && n
                    <= usize::MAX && track_value(
                    pl.1,
                    tr,
                    10,
                    0,
                    n as nat,
                    0,
                ) <= usize::MAX && exists|arrs: Seq<Seq<Action>>|
                    #[trigger] arrangements_ok(arrs, 5, 3, 3) && v as nat == count_over(
                        arrs,
                        tr,
                        n as nat,
                        track_value(pl.1, tr, 10, 0, n as nat, 0) as usize,
                    ) && forall|i: int|
                        0 <= i < arrs.len() ==> track_value(#[trigger] arrs[i], tr, 10, 0, n as nat, 0)
                            <= usize::MAX,
                None => track_actions_spec(track@) is None || plan_of_line(input@) is None || (
                plan_of_line(input@) matches Some(pl) && ((pl.1.len() == 0 && track_defers(
                    track_actions_spec(track@).unwrap(),
                    n as nat,
                )) || n > usize::MAX || track_value(
                    pl.1,
                    track_actions_spec(track@).unwrap(),
                    10,
                    0,
                    n as nat,
                    0,
                ) > usize::MAX)) || exists|arrs: Seq<Seq<Action>>|
                    #[trigger] arrangements_ok(arrs, 5, 3, 3) && exists|i: int|
                        0 <= i < arrs.len() && track_value(
                            #[trigger] arrs[i],
                            track_actions_spec(track@).unwrap(),
                            10,
                            0,
                            n as nat,
                            0,
                        ) > usize::MAX,
            }
        }),
{
    let tr = match parse_track_actions(track) {
        Some(t) => t,
        None => {
            return None;
        },
    };
    let plan_to_beat = match Plan::new(input) {
        Some(p) => p,
        None => {
            return None;
        },
    };
    let score_to_beat = match plan_to_beat.value_on_track(10, &tr, 2024) {
        Some(v) => v,
        None => {
            return None;
        },
    };
    let plans = Plan::permutations(5, 3, 3);
    let ghost avs = plans@.map_values(|pl: Plan| pl.actions@);
    let ghost n = tr@.len() * 2024;
    let mut count: usize = 0;
    let mut i: usize = 0;
    proof {
        assert(avs.take(0) =~= Seq::<Seq<Action>>::empty());
    }
    while i < plans.len()
        invariant
            0 <= i <= plans@.len(),
            count <= i,
            n == tr@.len() * 2024,
            n <= usize::MAX,
            track_actions_spec(track@) == Some(tr@),
            plan_of_line(input@) is Some,
            plan_of_line(input@).unwrap().1.len() > 0 || !track_defers(tr@, n as nat),
            score_to_beat as nat == track_value(
                plan_of_line(input@).unwrap().1,
                tr@,
                10,
                0,
                n as nat,
                0,
            ),
            avs == plans@.map_values(|pl: Plan| pl.actions@),
            arrangements_ok(avs, 5, 3, 3),
            forall|k: int|
                0 <= k < i ==> track_value(#[trigger] avs[k], tr@, 10, 0, n as nat, 0)
                    <= usize::MAX,
            count as nat == count_over(avs.take(i as int), tr@, n as nat, score_to_beat),
        decreases plans@.len() - i,
    {
        proof {
            assert(avs.take(i + 1).drop_last() =~= avs.take(i as int));
            assert(avs.take(i + 1).last() == avs[i as int]);
            assert(avs[i as int] == plans@[i as int].actions@);
            assert(arr_counts_ok(avs[i as int], 5, 3, 3));
        }
        let v = match plans[i].value_on_track(10, &tr, 2024) {
            Some(v) => v,
            None => {
                proof {
                    assert(track_value(avs[i as int], tr@, 10, 0, n as nat, 0) > usize::MAX);
                }
                return None;
            },
        };
        if v > score_to_beat {
            count += 1;
        }
        i += 1;
    }
    proof {
        assert(avs.take(avs.len() as int) =~= avs);
        assert(arrangements_ok(avs, 5, 3, 3));
        assert(count as nat == count_over(
            avs,
            tr@,
            n as nat,
            track_value(plan_of_line(input@).unwrap().1, tr@, 10, 0, n as nat, 0) as usize,
        ));
    }
    Some(count)
}

} // verus!




