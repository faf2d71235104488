use vstd::prelude::*;

use crate::parse;
use crate::quest07;
use crate::text;

verus! {

/// The model of the tree: an arena of branch names, each branch's optional
/// parent branch, and each fruit's parent branch.
pub type TreeModel = (Seq<Seq<u8>>, Seq<Option<int>>, Seq<int>);

/// The word `BUG`.
pub open spec fn bug_name() -> Seq<u8> {
    seq![66u8, 85u8, 71u8]
}

/// The word `ANT`.
pub open spec fn ant_name() -> Seq<u8> {
    seq![65u8, 78u8, 84u8]
}

/// The first position of name `n` in the arena, from `i` on.
pub open spec fn find_in(names: Seq<Seq<u8>>, n: Seq<u8>, i: int) -> Option<int>
    decreases names.len() - i,
{
    if i < 0 || i >= names.len() {
        None
    } else if names[i] == n {
        Some(i)
    } else {
        find_in(names, n, i + 1)
    }
}

/// The arena with name `n` present: found or pushed, with its position.
pub open spec fn intern(names: Seq<Seq<u8>>, bp: Seq<Option<int>>, n: Seq<u8>) -> (
    Seq<Seq<u8>>,
    Seq<Option<int>>,
    int,
) {
    match find_in(names, n, 0) {
        Some(i) => (names, bp, i),
        None => (names.push(n), bp.push(None), names.len() as int),
    }
}

/// One child recorded under parent branch `pid`: `BUG` and `ANT` are passed
/// over, `@` grows a fruit, any other name a branch whose parent is `pid`.
pub open spec fn child_step(st: TreeModel, pid: int, c: Seq<u8>) -> TreeModel {
    let (names, bp, fp) = st;
    if c == bug_name() || c == ant_name() {
        st
    } else if c == seq![64u8] {
        (names, bp, fp.push(pid))
    } else {
        let (names2, bp2, cid) = intern(names, bp, c);
        (names2, bp2.update(cid, Some(pid)), fp)
    }
}

/// The children recorded left to right from position `j` on.
pub open spec fn children_fold(st: TreeModel, pid: int, toks: Seq<Seq<u8>>, j: int) -> TreeModel
    decreases toks.len() - j,
{
    if j < 0 || j >= toks.len() {
        st
    } else {
        children_fold(child_step(st, pid, toks[j]), pid, toks, j + 1)
    }
}

/// One line recorded: the name before the colon is the parent, the fields
/// after it the children. A line without a colon has no reading; a `BUG` or
/// `ANT` parent is passed over whole.
pub open spec fn line_step(st: TreeModel, l: Seq<u8>) -> Option<TreeModel> {
    if !quest07::has_colon(l) {
        None
    } else {
        let parent = l.take(quest07::colon_pos(l));
        if parent == bug_name() || parent == ant_name() {
            Some(st)
        } else {
            let (names2, bp2, pid) = intern(st.0, st.1, parent);
            let toks = quest07::split_on_comma(quest07::after_colon(l));
            Some(children_fold((names2, bp2, st.2), pid, toks, 0))
        }
    }
}

/// The lines recorded top to bottom from line `i` on.
pub open spec fn lines_fold(st: TreeModel, lines: Seq<Seq<u8>>, i: int) -> Option<TreeModel>
    decreases lines.len() - i,
{
    if i < 0 || i >= lines.len() {
        Some(st)
    } else {
        match line_step(st, lines[i]) {
            None => None,
            Some(st2) => lines_fold(st2, lines, i + 1),
        }
    }
}

/// The tree the input describes.
pub open spec fn parse_tree(t: Seq<u8>) -> Option<TreeModel> {
    lines_fold((Seq::empty(), Seq::empty(), Seq::empty()), parse::spec_lines(t), 0)
}

/// The branches from `b` up to its root, names in climbing order; `None`
/// when the parents loop or `fuel` runs out.
pub open spec fn chain_names(st: TreeModel, b: int, fuel: nat) -> Option<Seq<Seq<u8>>>
    decreases fuel,
{
    if fuel == 0 || !(0 <= b < st.0.len()) {
        None
    } else {
        match st.1[b] {
            None => Some(seq![st.0[b]]),
            Some(p) => match chain_names(st, p, (fuel - 1) as nat) {
                None => None,
                Some(rest) => Some(seq![st.0[b]] + rest),
            },
        }
    }
}

/// The whole path of fruit `f`, fruit first, names in climbing order.
pub open spec fn fruit_chain(st: TreeModel, f: int) -> Option<Seq<Seq<u8>>> {
    if !(0 <= f < st.2.len()) {
        None
    } else {
        chain_names(st, st.2[f], st.0.len() as nat)
    }
}

/// The length of fruit `f`'s path, the fruit itself counted.
pub open spec fn fruit_len(st: TreeModel, f: int) -> Option<nat> {
    match fruit_chain(st, f) {
        None => None,
        Some(c) => Some(c.len() + 1),
    }
}

/// How many fruits have a path of length `n`.
pub open spec fn len_count(st: TreeModel, n: nat, upto: int) -> nat
    decreases upto,
{
    if upto <= 0 {
        0
    } else {
        len_count(st, n, upto - 1) + (if fruit_len(st, upto - 1) == Some(n) {
            1nat
        } else {
            0nat
        })
    }
}

/// The first fruit whose path length no other fruit shares.
pub open spec fn chosen_fruit(st: TreeModel, f: int) -> Option<int>
    decreases st.2.len() - f,
{
    if f < 0 || f >= st.2.len() {
        None
    } else if fruit_len(st, f) is Some && len_count(
        st,
        fruit_len(st, f).unwrap(),
        st.2.len() as int,
    ) == 1 {
        Some(f)
    } else {
        chosen_fruit(st, f + 1)
    }
}

/// The chain's bytes read from the root down, each branch written as its
/// `full` name or its first letter; a nameless branch has no first letter.
pub open spec fn answer_bytes_plain(chain: Seq<Seq<u8>>, full: bool) -> Option<Seq<u8>>
    decreases chain.len(),
{
    if chain.len() == 0 {
        Some(Seq::empty())
    } else {
        match answer_bytes_plain(chain.drop_first(), full) {
            None => None,
            Some(rest) => if full {
                Some(rest + chain[0])
            } else if chain[0].len() == 0 {
                None
            } else {
                Some(rest + seq![chain[0][0]])
            },
        }
    }
}

/// The answer's bytes: the chain read from the root down, the fruit's `@`
/// last.
pub open spec fn answer_bytes(chain: Seq<Seq<u8>>, full: bool) -> Option<Seq<u8>> {
    match answer_bytes_plain(chain, full) {
        None => None,
        Some(bs) => Some(bs.push(64)),
    }
}

/// The answer of the quest: the unique-length path, root first, written out
/// with full branch names or first letters. `None` when the input, the tree
/// or the choice fails.
pub open spec fn spec_answer(t: Seq<u8>, full: bool) -> Option<Seq<u8>> {
    match parse_tree(t) {
        None => None,
        Some(st) => {
            if exists|f: int| 0 <= f < st.2.len() && fruit_len(st, f) is None {
                None
            } else {
                match chosen_fruit(st, 0) {
                    None => None,
                    Some(f) => match fruit_chain(st, f) {
                        None => None,
                        Some(c) => answer_bytes(c, full),
                    },
                }
            }
        },
    }
}

/// The tree of branches and fruits: an arena of branch names, each branch's
/// parent if one was named, and each fruit's parent branch.
pub struct Tree {
    names: Vec<Vec<u8>>,
    bparent: Vec<Option<usize>>,
    fparent: Vec<usize>,
}

impl Tree {
    /// The tree as a model.
    pub closed spec fn model(&self) -> TreeModel {
        (
            self.names@.map_values(|n: Vec<u8>| n@),
            self.bparent@.map_values(
                |p: Option<usize>|
                    match p {
                        Some(i) => Some(i as int),
                        None => None,
                    },
            ),
            self.fparent@.map_values(|p: usize| p as int),
        )
    }

    /// The stored shape is sound: as many parents as names, and every parent
    /// link inside the arena.
    pub closed spec fn wf(&self) -> bool {
        &&& self.names@.len() == self.bparent@.len()
        &&& forall|i: int|
            0 <= i < self.bparent@.len() ==> (match #[trigger] self.bparent@[i] {
                Some(p) => p < self.names@.len(),
                None => true,
            })
        &&& forall|i: int|
            0 <= i < self.fparent@.len() ==> (#[trigger] self.fparent@[i]) < self.names@.len()
    }

    /// How many fruits the tree holds.
    pub fn fruits(&self) -> (r: usize)
        ensures
            r == self.model().2.len(),
    {
        self.fparent.len()
    }
}


/// The two byte strings are equal.
pub(crate) fn bytes_eq(a: &[u8], b: &[u8]) -> (r: bool)
    ensures
        r == (a@ == b@),
{
    if a.len() != b.len() {
        proof {
            assert(a@ != b@);
        }
        return false;
    }
    let mut i: usize = 0;
    while i < a.len()
        invariant
            0 <= i <= a@.len(),
            a@.len() == b@.len(),
            forall|k: int| 0 <= k < i ==> a@[k] == b@[k],
        decreases a@.len() - i,
    {
        if a[i] != b[i] {
            proof {
                assert(a@ != b@);
            }
            return false;
        }
        i += 1;
    }
    proof {
        assert(a@ =~= b@);
    }
    true
}

/// The bytes, copied.
fn copy_bytes(v: &[u8]) -> (r: Vec<u8>)
    ensures
        r@ == v@,
{
    let mut r: Vec<u8> = Vec::new();
    let mut i: usize = 0;
    while i < v.len()
        invariant
            0 <= i <= v@.len(),
            r@ == v@.take(i as int),
        decreases v@.len() - i,
    {
        r.push(v[i]);
        proof {
            assert(v@.take(i + 1) =~= v@.take(i as int).push(v@[i as int]));
        }
        i += 1;
    }
    proof {
        assert(v@.take(v@.len() as int) =~= v@);
    }
    r
}

impl Tree {
    /// The position of name `n` in the arena, if it stands there.
    fn find_name(&self, n: &[u8]) -> (r: Option<usize>)
        ensures
            match r {
                Some(i) => find_in(self.model().0, n@, 0) == Some(i as int) && i
                    < self.model().0.len(),
                None => find_in(self.model().0, n@, 0) is None,
            },
    {
        let ghost nv = self.model().0;
        let mut i: usize = 0;
        while i < self.names.len()
            invariant
                0 <= i <= self.names@.len(),
                nv == self.model().0,
                nv.len() == self.names@.len(),
                find_in(nv, n@, 0) == find_in(nv, n@, i as int),
            decreases self.names@.len() - i,
        {
            proof {
                assert(nv[i as int] == self.names@[i as int]@);
            }
            if bytes_eq(self.names[i].as_slice(), n) {
                return Some(i);
            }
            i += 1;
        }
        None
    }

    /// The name's place in the arena, found or made; a fresh place has no
    /// parent yet.
    fn intern_name(&mut self, n: &[u8]) -> (r: usize)
        requires
            old(self).wf(),
        ensures
            final(self).wf(),
            intern(old(self).model().0, old(self).model().1, n@) == (
                final(self).model().0,
                final(self).model().1,
                r as int,
            ),
            final(self).model().2 == old(self).model().2,
            r < final(self).model().0.len(),
    {
        match self.find_name(n) {
            Some(i) => i,
            None => {
                let i = self.names.len();
                self.names.push(copy_bytes(n));
                self.bparent.push(None);
                proof {
                    assert(self.model().0 =~= old(self).model().0.push(n@));
                    assert(self.model().1 =~= old(self).model().1.push(None));
                }
                i
            },
        }
    }

    /// Reads the tree from its lines: each line a parent, a colon, and its
    /// children; `BUG` and `ANT` are passed over, `@` is a fruit. `None`
    /// exactly when a line has no colon.
    pub fn new(input: &[u8]) -> (r: Option<Tree>)
        ensures
            match r {
                Some(t) => parse_tree(input@) == Some(t.model()) && t.wf(),
                None => parse_tree(input@) is None,
            },
    {
        let ghost lns = parse::spec_lines(input@);
        let ghost st0: TreeModel = (Seq::empty(), Seq::empty(), Seq::empty());
        let lines = parse::split_lines(input);
        let mut t = Tree { names: Vec::new(), bparent: Vec::new(), fparent: Vec::new() };
        proof {
            assert(t.model().0 =~= st0.0);
            assert(t.model().1 =~= st0.1);
            assert(t.model().2 =~= st0.2);
        }
        let mut i: usize = 0;
        while i < lines.len()
            invariant
                0 <= i <= lines@.len(),
                lns == parse::spec_lines(input@),
                lines@.map_values(|l: Vec<u8>| l@) == lns,
                st0 == (Seq::<Seq<u8>>::empty(), Seq::<Option<int>>::empty(), Seq::<int>::empty()),
                t.wf(),
                lines_fold(st0, lns, 0) == lines_fold(t.model(), lns, i as int),
            decreases lines@.len() - i,
        {
            proof {
                assert(lines@.map_values(|l: Vec<u8>| l@)[i as int] == lns[i as int]);
            }
            let line = &lines[i];
            let ghost l = lns[i as int];
            let mut ci: usize = 0;
            let mut found = false;
            while ci < line.len() && !found
                invariant
                    0 <= ci <= line@.len(),
                    l == line@,
                    !found ==> forall|j: int| 0 <= j < ci ==> l[j] != 58,
                    found ==> 0 < ci <= l.len() && l[ci - 1] == 58 && forall|j: int|
                        0 <= j < ci - 1 ==> l[j] != 58,
                decreases line@.len() - ci,
            {
                if line[ci] == 58 {
                    found = true;
                }
                ci += 1;
            }
            if !found {
                proof {
                    assert(!quest07::has_colon(l));
                    assert(line_step(t.model(), l) is None);
                    assert(lines_fold(t.model(), lns, i as int) is None);
                }
                return None;
            }
            let cp = ci - 1;
            proof {
                assert(quest07::has_colon(l));
                assert(quest07::colon_pos(l) == cp as int) by {
                    let p = quest07::colon_pos(l);
                    assert(0 <= p < l.len() && l[p] == 58 && forall|j: int|
                        0 <= j < p ==> l[j] != 58);
                }
            }
            let parent = vstd::slice::slice_subrange(line.as_slice(), 0, cp);
            proof {
                assert(parent@ =~= l.take(cp as int));
            }
            let bug: Vec<u8> = vec![66, 85, 71];
            let ant: Vec<u8> = vec![65, 78, 84];
            proof {
                assert(bug@ =~= bug_name());
                assert(ant@ =~= ant_name());
            }
            if bytes_eq(parent, bug.as_slice()) || bytes_eq(parent, ant.as_slice()) {
                proof {
                    assert(line_step(t.model(), l) == Some(t.model()));
                }
                i += 1;
                continue;
            }
            let ghost pre_st = t.model();
            let pid = t.intern_name(parent);
            let rest = vstd::slice::slice_subrange(line.as_slice(), cp + 1, line.len());
            proof {
                assert(rest@ =~= quest07::after_colon(l));
            }
            let toks = quest07::exec_split_on_comma(rest);
            let ghost tks = quest07::split_on_comma(quest07::after_colon(l));
            let ghost mid_st = t.model();
            let mut j: usize = 0;
            while j < toks.len()
                invariant
                    0 <= j <= toks@.len(),
                    toks@.map_values(|x: Vec<u8>| x@) == tks,
                    t.wf(),
                    pid < t.model().0.len(),
                    bug@ == bug_name(),
                    ant@ == ant_name(),
                    lns == parse::spec_lines(input@),
                    0 <= i < lns.len(),
                    l == lns[i as int],
                    st0 == (
                        Seq::<Seq<u8>>::empty(),
                        Seq::<Option<int>>::empty(),
                        Seq::<int>::empty(),
                    ),
                    lines_fold(st0, lns, 0) == lines_fold(pre_st, lns, i as int),
                    quest07::has_colon(l),
                    quest07::colon_pos(l) == cp as int,
                    l.take(cp as int) != bug_name(),
                    l.take(cp as int) != ant_name(),
                    intern(pre_st.0, pre_st.1, l.take(cp as int)) == (
                        mid_st.0,
                        mid_st.1,
                        pid as int,
                    ),
                    mid_st.2 == pre_st.2,
                    tks == quest07::split_on_comma(quest07::after_colon(l)),
                    children_fold(mid_st, pid as int, tks, 0) == children_fold(
                        t.model(),
                        pid as int,
                        tks,
                        j as int,
                    ),
                decreases toks@.len() - j,
            {
                proof {
                    assert(toks@.map_values(|x: Vec<u8>| x@)[j as int] == tks[j as int]);
                }
                let tok = &toks[j];
                let ghost pre = t.model();
                if bytes_eq(tok.as_slice(), bug.as_slice()) || bytes_eq(
                    tok.as_slice(),
                    ant.as_slice(),
                ) {
                    proof {
                        assert(child_step(pre, pid as int, tks[j as int]) == pre);
                    }
                } else if tok.len() == 1 && tok[0] == 64 {
                    self_push_fruit(&mut t, pid);
                    proof {
                        assert(tks[j as int] =~= seq![64u8]);
                        assert(child_step(pre, pid as int, tks[j as int]) == t.model());
                    }
                } else {
                    let cid = t.intern_name(tok.as_slice());
                    proof {
                        assert(tks[j as int] != bug_name() && tks[j as int] != ant_name());
                        assert(tks[j as int] != seq![64u8]) by {
                            if tok@.len() == 1 {
                                assert(tok@[0] != 64);
                            }
                        }
                    }
                    let ghost pre2 = t.model();
                    t.bparent[cid] = Some(pid);
                    proof {
                        assert(t.model().0 =~= pre2.0);
                        assert(t.model().2 =~= pre2.2);
                        assert(t.model().1 =~= pre2.1.update(cid as int, Some(pid as int)));
                        assert(child_step(pre, pid as int, tks[j as int]) == t.model());
                    }
                }
                j += 1;
            }
            proof {
                assert(line_step(pre_st, l) == Some(children_fold(mid_st, pid as int, tks, 0)));
            }
            i += 1;
        }
        proof {
            assert(lines_fold(t.model(), lns, lns.len() as int) == Some(t.model()));
        }
        Some(t)
    }
}

/// A fruit hung under branch `pid`.
fn self_push_fruit(t: &mut Tree, pid: usize)
    requires
        old(t).wf(),
        pid < old(t).model().0.len(),
    ensures
        final(t).wf(),
        final(t).model().0 == old(t).model().0,
        final(t).model().1 == old(t).model().1,
        final(t).model().2 == old(t).model().2.push(pid as int),
{
    t.fparent.push(pid);
    proof {
        assert(t.model().2 =~= old(t).model().2.push(pid as int));
    }
}


impl Tree {
    /// The length of the branch chain from `b` up, or `None` where the
    /// parents loop past the arena's size.
    fn chain_len(&self, b: usize, fuel: usize) -> (r: Option<usize>)
        requires
            self.wf(),
            b < self.model().0.len(),
        ensures
            match chain_names(self.model(), b as int, fuel as nat) {
                Some(c) => r matches Some(n) && n as nat == c.len() && n <= fuel,
                None => r is None,
            },
        decreases fuel,
    {
        if fuel == 0 {
            return None;
        }
        match self.bparent[b] {
            None => Some(1),
            Some(p) => match self.chain_len(p, fuel - 1) {
                None => None,
                Some(n) => Some(n + 1),
            },
        }
    }

    /// The answer bytes of the chain from `b` up, root first, with full
    /// names or first letters, the `@` not yet appended.
    fn chain_bytes(&self, b: usize, fuel: usize, full: bool) -> (r: Option<Vec<u8>>)
        requires
            self.wf(),
            b < self.model().0.len(),
        ensures
            match chain_names(self.model(), b as int, fuel as nat) {
                Some(c) => match answer_bytes_plain(c, full) {
                    Some(bs) => r matches Some(v) && v@ == bs,
                    None => r is None,
                },
                None => r is None,
            },
        decreases fuel,
    {
        if fuel == 0 {
            return None;
        }
        let ghost c = chain_names(self.model(), b as int, fuel as nat);
        let upper: Option<Vec<u8>> = match self.bparent[b] {
            None => Some(Vec::new()),
            Some(p) => match self.chain_bytes(p, fuel - 1, full) {
                None => {
                    proof {
                        let co = chain_names(self.model(), b as int, fuel as nat);
                        if co is Some {
                            let cc = co.unwrap();
                            assert(cc.drop_first() =~= chain_names(
                                self.model(),
                                p as int,
                                (fuel - 1) as nat,
                            ).unwrap());
                            assert(answer_bytes_plain(cc, full) is None);
                        }
                    }
                    return None;
                },
                Some(v) => Some(v),
            },
        };
        let mut out = match upper {
            Some(v) => v,
            None => {
                return None;
            },
        };
        let name = &self.names[b];
        proof {
            assert(self.model().0[b as int] == self.names@[b as int]@);
            if c is Some {
                let cc = c.unwrap();
                assert(cc[0] == self.model().0[b as int]);
                match self.model().1[b as int] {
                    None => {
                        assert(cc =~= seq![self.model().0[b as int]]);
                        assert(cc.drop_first() =~= Seq::<Seq<u8>>::empty());
                    },
                    Some(p) => {
                        assert(cc.drop_first() =~= chain_names(
                            self.model(),
                            p,
                            (fuel - 1) as nat,
                        ).unwrap());
                    },
                }
                assert(answer_bytes_plain(cc.drop_first(), full) == Some(out@));
            }
        }
        if full {
            let ghost out0 = out@;
            let mut piece = copy_bytes(name.as_slice());
            out.append(&mut piece);
            proof {
                if c is Some {
                    let cc = c.unwrap();
                    assert(out@ == out0 + cc[0]);
                    assert(answer_bytes_plain(cc, full) == Some(out@));
                }
            }
        } else {
            if name.len() == 0 {
                proof {
                    if c is Some {
                        let cc = c.unwrap();
                        assert(cc[0].len() == 0);
                        assert(answer_bytes_plain(cc, full) is None);
                    }
                }
                return None;
            }
            let ghost out0 = out@;
            out.push(name[0]);
            proof {
                if c is Some {
                    let cc = c.unwrap();
                    assert(out@ =~= out0 + seq![cc[0][0]]);
                    assert(answer_bytes_plain(cc, full) == Some(out@));
                }
            }
        }
        Some(out)
    }
}


impl Tree {
    /// How many names the arena holds.
    fn arena_size(&self) -> (r: usize)
        ensures
            r == self.model().0.len(),
    {
        self.names.len()
    }

    /// The parent branch of fruit `f`.
    fn fruit_parent(&self, f: usize) -> (r: usize)
        requires
            self.wf(),
            f < self.model().2.len(),
        ensures
            r as int == self.model().2[f as int],
            r < self.model().0.len(),
    {
        self.fparent[f]
    }
}

/// The answer of the quest: the path of unique length, root first, branches
/// written `full` or as first letters, the fruit as `@`. `None` exactly when
/// a line lacks a colon, some path loops, no length is unique, a first
/// letter is missing, or the answer is not plain text.
fn solve(input: &[u8], full: bool) -> (r: Option<String>)
    ensures
        match r {
            Some(s) => spec_answer(input@, full) matches Some(bs) && (forall|k: int|
                0 <= k < bs.len() ==> bs[k] < 128) && s@ == text::bytes_as_chars(bs),
            None => spec_answer(input@, full) is None || (spec_answer(input@, full) matches Some(
                bs,
            ) && exists|k: int| 0 <= k < bs.len() && bs[k] >= 128),
        },
{
    let t = match Tree::new(input) {
        Some(t) => t,
        None => {
            return None;
        },
    };
    let ghost st = t.model();
    let n = t.fruits();
    let fuel = t.arena_size();
    let mut lens: Vec<usize> = Vec::new();
    let mut f: usize = 0;
    while f < n
        invariant
            0 <= f <= n,
            st == t.model(),
            t.wf(),
            parse_tree(input@) == Some(st),
            n == st.2.len(),
            fuel == st.0.len(),
            lens@.len() == f,
            forall|k: int|
                0 <= k < f ==> fruit_len(st, k) == Some(((#[trigger] lens@[k]) + 1) as nat),
        decreases n - f,
    {
        let b = t.fruit_parent(f);
        let cl = match t.chain_len(b, fuel) {
            Some(c) => c,
            None => {
                proof {
                    assert(fruit_len(st, f as int) is None);
                }
                return None;
            },
        };
        lens.push(cl);
        f += 1;
    }
    proof {
        assert forall|k: int| 0 <= k < st.2.len() implies !(fruit_len(st, k) is None) by {
            assert(fruit_len(st, k) == Some(((lens@[k]) + 1) as nat));
        }
    }
    let mut found = false;
    let mut f: usize = 0;
    while f < n && !found
        invariant
            0 <= f <= n,
            st == t.model(),
            t.wf(),
            parse_tree(input@) == Some(st),
            n == st.2.len(),
            fuel == st.0.len(),
            lens@.len() == n,
            forall|k: int|
                0 <= k < n ==> fruit_len(st, k) == Some(((#[trigger] lens@[k]) + 1) as nat),
            !found ==> chosen_fruit(st, 0) == chosen_fruit(st, f as int),
            found ==> 0 <= f < n && chosen_fruit(st, 0) == Some(f as int),
        decreases n - f + (if found { 0int } else { 1int }),
    {
        let mut cnt: usize = 0;
        let mut g: usize = 0;
        while g < n
            invariant
                0 <= g <= n,
                0 <= f < n,
                cnt <= g,
                st == t.model(),
                n == st.2.len(),
                lens@.len() == n,
                forall|k: int|
                    0 <= k < n ==> fruit_len(st, k) == Some(((#[trigger] lens@[k]) + 1) as nat),
                cnt as nat == len_count(st, ((lens@[f as int]) + 1) as nat, g as int),
            decreases n - g,
        {
            if lens[g] == lens[f] {
                cnt += 1;
            }
            g += 1;
        }
        if cnt == 1 {
            proof {
                assert(fruit_len(st, f as int) is Some);
                assert(chosen_fruit(st, f as int) == Some(f as int));
            }
            found = true;
        } else {
            proof {
                assert(chosen_fruit(st, f as int) == chosen_fruit(st, f as int + 1));
            }
            f += 1;
        }
    }
    if !found {
        proof {
            assert forall|k: int| 0 <= k < st.2.len() implies !((#[trigger] fruit_len(
                st,
                k,
            )) is None) by {
                assert(fruit_len(st, k) == Some(((lens@[k]) + 1) as nat));
            }
            assert(chosen_fruit(st, n as int) is None);
        }
        return None;
    }
    let cf = f;
    let b = t.fruit_parent(cf);
    let mut bytes = match t.chain_bytes(b, fuel, full) {
        Some(v) => v,
        None => {
            proof {
            assert forall|k: int| 0 <= k < st.2.len() implies !((#[trigger] fruit_len(
                st,
                k,
            )) is None) by {
                assert(fruit_len(st, k) == Some(((lens@[k]) + 1) as nat));
            }
                assert(fruit_len(st, cf as int) is Some);
                assert(fruit_chain(st, cf as int) is Some);
                let c = fruit_chain(st, cf as int).unwrap();
                assert(answer_bytes_plain(c, full) is None);
                assert(answer_bytes(c, full) is None);
                assert(spec_answer(input@, full) is None);
            }
            return None;
        },
    };
    bytes.push(64);
    proof {
            assert forall|k: int| 0 <= k < st.2.len() implies !((#[trigger] fruit_len(
                st,
                k,
            )) is None) by {
                assert(fruit_len(st, k) == Some(((lens@[k]) + 1) as nat));
            }
        assert(fruit_chain(st, cf as int) is Some);
        let c = fruit_chain(st, cf as int).unwrap();
        assert(answer_bytes(c, full) == Some(bytes@));
        assert(spec_answer(input@, full) == Some(bytes@));
    }
    let mut k: usize = 0;
    while k < bytes.len()
        invariant
            0 <= k <= bytes@.len(),
            spec_answer(input@, full) == Some(bytes@),
            forall|m: int| 0 <= m < k ==> (#[trigger] bytes@[m]) < 128,
        decreases bytes@.len() - k,
    {
        if bytes[k] >= 128 {
            proof {
                assert(spec_answer(input@, full).unwrap() == bytes@);
                assert(spec_answer(input@, full).unwrap()[k as int] >= 128);
            }
            return None;
        }
        k += 1;
    }
    Some(text::ascii_to_string(bytes))
}

/// First tier: the unique-length path written with full branch names, the
/// fruit as `@`. `None` exactly when the tree, the choice or the writing
/// fails.
pub fn part1(input: &[u8]) -> (r: Option<String>)
    ensures
        match r {
            Some(s) => spec_answer(input@, true) matches Some(bs) && (forall|k: int|
                0 <= k < bs.len() ==> bs[k] < 128) && s@ == text::bytes_as_chars(bs),
            None => spec_answer(input@, true) is None || (spec_answer(input@, true) matches Some(
                bs,
            ) && exists|k: int| 0 <= k < bs.len() && bs[k] >= 128),
        },
{
    solve(input, true)
}

/// Later tiers: the unique-length path written with first letters only, the
/// fruit as `@`. `None` exactly when the tree, the choice or the writing
/// fails.
pub fn part2and3(input: &[u8]) -> (r: Option<String>)
    ensures
        match r {
            Some(s) => spec_answer(input@, false) matches Some(bs) && (forall|k: int|
                0 <= k < bs.len() ==> bs[k] < 128) && s@ == text::bytes_as_chars(bs),
            None => spec_answer(input@, false) is None || (spec_answer(input@, false) matches Some(
                bs,
            ) && exists|k: int| 0 <= k < bs.len() && bs[k] >= 128),
        },
{
    solve(input, false)
}

} // verus!



