use vstd::prelude::*;

use crate::parse;

verus! {

/// The first tier's pyramid: layers of width 1, 3, 5, ... are stacked until
/// the blocks on hand are covered; the answer pairs the missing blocks of
/// the top layer with the final width.
pub open spec fn grow1(blocks: nat, width: nat, avail: nat) -> (nat, nat)
    decreases (if blocks < avail { avail - blocks } else { 0int }),
{
    if blocks >= avail {
        (blocks, width)
    } else {
        grow1(blocks + width + 2, width + 2, avail)
    }
}

/// The stack never shrinks, and the width never passes the blocks.
proof fn lemma_grow1_bounds(blocks: nat, width: nat, avail: nat)
    requires
        width <= blocks,
    ensures
        grow1(blocks, width, avail).0 >= blocks,
        grow1(blocks, width, avail).1 <= grow1(blocks, width, avail).0,
    decreases (if blocks < avail { avail - blocks } else { 0int }),
{
    if blocks < avail {
        lemma_grow1_bounds(blocks + width + 2, width + 2, avail);
    }
}

/// First tier: blocks needed to finish the last layer, times the width.
/// `None` exactly when the input is not one number that fits, or a value on
/// the way passes `usize`.
pub fn part1(input: &[u8]) -> (r: Option<usize>)
    ensures
        ({
            match r {
                Some(v) => parse::line_is_number(input@) && parse::line_value(input@) <= usize::MAX
                    && v as nat == (grow1(1, 1, parse::line_value(input@)).0 - parse::line_value(
                    input@,
                )) * grow1(1, 1, parse::line_value(input@)).1,
                None => !parse::line_is_number(input@) || parse::line_value(input@) > usize::MAX
                    || grow1(1, 1, parse::line_value(input@)).0 > usize::MAX || (grow1(
                    1,
                    1,
                    parse::line_value(input@),
                ).0 - parse::line_value(input@)) * grow1(1, 1, parse::line_value(input@)).1
                    > usize::MAX,
            }
        }),
{
    let available = match parse::parse_usize(input) {
        Some(v) => v,
        None => {
            return None;
        },
    };
    let ghost target = grow1(1, 1, available as nat);
    let mut blocks: usize = 1;
    let mut width: usize = 1;
    proof {
        lemma_grow1_bounds(1, 1, available as nat);
    }
    while blocks < available
        invariant
            width <= blocks,
            available as nat == parse::line_value(input@),
            parse::line_is_number(input@),
            grow1(blocks as nat, width as nat, available as nat) == target,
            target == grow1(1, 1, available as nat),
            target.0 >= blocks,
            target.1 <= target.0,
        decreases (if blocks < available { available - blocks } else { 0int }),
    {
        proof {
            lemma_grow1_bounds((blocks as nat + width + 2) as nat, (width as nat + 2) as nat, available as nat);
        }
        if width > usize::MAX - 2 || blocks > usize::MAX - (width + 2) {
            return None;
        }
        width = width + 2;
        blocks = blocks + width;
    }
    let missing = blocks - available;
    if width != 0 && missing > usize::MAX / width {
        proof {
            assert((missing as nat) * width > usize::MAX) by (nonlinear_arith)
                requires width >= 1, missing > usize::MAX / width;
        }
        return None;
    }
    proof {
        if width != 0 {
            assert((missing as nat) * width <= usize::MAX) by (nonlinear_arith)
                requires width >= 1, missing <= (usize::MAX as int) / (width as int);
        } else {
            assert((missing as nat) * width == 0) by (nonlinear_arith)
                requires width == 0;
        }
    }
    Some(missing * width)
}

/// The second tier's pyramid: each new layer's thickness is the old one
/// times the priests, modulo the acolytes; a layer adds width times
/// thickness blocks. `None` where the thickness dies out or a value passes
/// `usize`.
pub open spec fn grow2(
    blocks: nat,
    width: nat,
    th: nat,
    priests: nat,
    acolytes: nat,
    avail: nat,
) -> Option<(nat, nat)>
    decreases (if blocks < avail { avail - blocks } else { 0int }),
{
    if blocks >= avail {
        Some((blocks, width))
    } else {
        let th2 = (th * priests) % acolytes;
        if th2 == 0 || th * priests > usize::MAX {
            None
        } else {
            let w2 = width + 2;
            let added = w2 * th2;
            if w2 > usize::MAX || added == 0 || blocks + added > usize::MAX {
                None
            } else {
                grow2(blocks + added, w2, th2, priests, acolytes, avail)
            }
        }
    }
}

/// Second tier: blocks needed to finish the last layer, times the width.
/// `None` exactly when the input is not one number that fits, the thickness
/// dies out, or a value on the way passes `usize`.
pub fn part2(input: &[u8], acolytes: usize, available: usize) -> (r: Option<usize>)
    requires
        acolytes >= 1,
    ensures
        ({
            match r {
                Some(v) => parse::line_is_number(input@) && parse::line_value(input@) <= usize::MAX
                    && (grow2(
                    1,
                    1,
                    1,
                    parse::line_value(input@),
                    acolytes as nat,
                    available as nat,
                ) matches Some(bw) && v as nat == (bw.0 - available) * bw.1),
                None => !parse::line_is_number(input@) || parse::line_value(input@) > usize::MAX
                    || grow2(
                    1,
                    1,
                    1,
                    parse::line_value(input@),
                    acolytes as nat,
                    available as nat,
                ) is None || (grow2(
                    1,
                    1,
                    1,
                    parse::line_value(input@),
                    acolytes as nat,
                    available as nat,
                ).unwrap().0 - available) * grow2(
                    1,
                    1,
                    1,
                    parse::line_value(input@),
                    acolytes as nat,
                    available as nat,
                ).unwrap().1 > usize::MAX,
            }
        }),
{
    let priests = match parse::parse_usize(input) {
        Some(v) => v,
        None => {
            return None;
        },
    };
    let ghost target = grow2(1, 1, 1, priests as nat, acolytes as nat, available as nat);
    let mut blocks: usize = 1;
    let mut width: usize = 1;
    let mut thickness: usize = 1;
    while blocks < available
        invariant
            acolytes >= 1,
            priests as nat == parse::line_value(input@),
            parse::line_is_number(input@),
            grow2(
                blocks as nat,
                width as nat,
                thickness as nat,
                priests as nat,
                acolytes as nat,
                available as nat,
            ) == target,
            target == grow2(1, 1, 1, priests as nat, acolytes as nat, available as nat),
        decreases (if blocks < available { available - blocks } else { 0int }),
    {
        if thickness != 0 && priests > usize::MAX / thickness {
            proof {
                assert((thickness as nat) * priests > usize::MAX) by (nonlinear_arith)
                    requires thickness >= 1, priests > usize::MAX / thickness;
            }
            return None;
        }
        proof {
            if thickness != 0 {
                assert((thickness as nat) * priests <= usize::MAX) by (nonlinear_arith)
                    requires
                        thickness >= 1,
                        priests <= (usize::MAX as int) / (thickness as int),
                ;
            } else {
                assert((thickness as nat) * priests == 0) by (nonlinear_arith)
                    requires thickness == 0;
            }
        }
        let th2 = (thickness * priests) % acolytes;
        if th2 == 0 {
            return None;
        }
        if width > usize::MAX - 2 {
            proof {
                assert(width as nat + 2 > usize::MAX);
            }
            return None;
        }
        let w2 = width + 2;
        if th2 > (usize::MAX - blocks) / w2 {
            proof {
                assert(blocks + (w2 as nat) * th2 > usize::MAX) by (nonlinear_arith)
                    requires
                        w2 >= 1,
                        th2 > ((usize::MAX - blocks) as int) / (w2 as int),
                        blocks <= usize::MAX,
                ;
            }
            return None;
        }
        proof {
            assert(blocks + (w2 as nat) * th2 <= usize::MAX) by (nonlinear_arith)
                requires
                    w2 >= 1,
                    th2 <= ((usize::MAX - blocks) as int) / (w2 as int),
                    blocks <= usize::MAX,
            ;
        }
        let added = w2 * th2;
        if added == 0 {
            return None;
        }
        thickness = th2;
        width = w2;
        blocks = blocks + added;
    }
    let missing = blocks - available;
    if width != 0 && missing > usize::MAX / width {
        proof {
            assert((missing as nat) * width > usize::MAX) by (nonlinear_arith)
                requires width >= 1, missing > usize::MAX / width;
        }
        return None;
    }
    proof {
        if width != 0 {
            assert((missing as nat) * width <= usize::MAX) by (nonlinear_arith)
                requires width >= 1, missing <= (usize::MAX as int) / (width as int);
        } else {
            assert((missing as nat) * width == 0) by (nonlinear_arith)
                requires width == 0;
        }
    }
    Some(missing * width)
}


/// The third tier's shrine, modelled: blocks laid, width, the columns'
/// heights, and the top layer's thickness.
pub type ShrineModel = (nat, nat, Seq<nat>, nat);

/// One layer added to the shrine: the new thickness is the old one times the
/// priests, modulo the acolytes, plus the acolytes; every column grows by
/// it, a new column appears, and the width grows by two. `None` where a
/// value passes `usize`.
pub open spec fn add_layer_spec(s: ShrineModel, priests: nat, acolytes: nat) -> Option<
    ShrineModel,
> {
    let (blocks, width, cols, top) = s;
    if top * priests > usize::MAX {
        None
    } else {
        let top2 = (top * priests) % acolytes + acolytes;
        if top2 > usize::MAX || (exists|i: int| 0 <= i < cols.len() && cols[i] + top2 > usize::MAX)
            || width + 2 > usize::MAX {
            None
        } else {
            let cols2 = cols.map_values(|c: nat| (c + top2) as nat).push(top2);
            let w2 = width + 2;
            let added = w2 * top2;
            if added == 0 || blocks + added > usize::MAX {
                None
            } else {
                Some(((blocks + added) as nat, w2 as nat, cols2, top2 as nat))
            }
        }
    }
}

/// Layers are added until the blocks on hand are covered.
pub open spec fn grow3(s: ShrineModel, priests: nat, acolytes: nat, avail: nat) -> Option<
    ShrineModel,
>
    decreases (if s.0 < avail { avail - s.0 } else { 0int }),
{
    if s.0 >= avail {
        Some(s)
    } else {
        match add_layer_spec(s, priests, acolytes) {
            None => None,
            Some(s2) => if s2.0 <= s.0 {
                None
            } else {
                grow3(s2, priests, acolytes, avail)
            },
        }
    }
}

/// The blocks the priests leave out, summed column by column from inside to
/// edge: the middle column counts once, the others twice, the outermost not
/// at all. `None` where a value passes `usize`.
pub open spec fn empty_acc(cols: Seq<nat>, i: int, base: nat, acolytes: nat, acc: nat) -> Option<
    nat,
>
    decreases cols.len() - i,
{
    if i < 1 || i >= cols.len() - 1 {
        Some(acc)
    } else if base * cols[i] > usize::MAX {
        None
    } else {
        let add = ((base * cols[i]) % acolytes) * 2;
        if add > usize::MAX || acc + add > usize::MAX {
            None
        } else {
            empty_acc(cols, i + 1, base, acolytes, (acc + add) as nat)
        }
    }
}

/// The blocks left empty under the shrine as it stands.
pub open spec fn empty_spec(s: ShrineModel, priests: nat, acolytes: nat) -> Option<nat> {
    let (blocks, width, cols, top) = s;
    if cols.len() == 0 || priests * width > usize::MAX {
        None
    } else {
        let base = priests * width;
        if base * cols[0] > usize::MAX {
            None
        } else {
            empty_acc(cols, 1, base, acolytes, (base * cols[0]) % acolytes)
        }
    }
}

/// Layers are added until the laid blocks minus the empty ones cover the
/// blocks on hand; the answer keeps the final state and the empty count.
pub open spec fn grow3b(s: ShrineModel, priests: nat, acolytes: nat, avail: nat) -> Option<
    (ShrineModel, nat),
>
    decreases (if s.1 < usize::MAX { usize::MAX - s.1 } else { 0int }),
{
    match empty_spec(s, priests, acolytes) {
        None => None,
        Some(e) => if e > s.0 {
            None
        } else if s.0 - e >= avail {
            Some((s, e))
        } else {
            match add_layer_spec(s, priests, acolytes) {
                None => None,
                Some(s2) => if s2.1 <= s.1 || s2.1 > usize::MAX {
                    None
                } else {
                    grow3b(s2, priests, acolytes, avail)
                },
            }
        },
    }
}

/// The third tier's shrine as built: blocks laid, width, column heights and
/// the top layer's thickness.
pub struct Shrine {
    blocks: usize,
    width: usize,
    col_heights: Vec<usize>,
    top_layer_height: usize,
}

impl Shrine {
    /// The shrine as a model.
    pub closed spec fn model(&self) -> ShrineModel {
        (
            self.blocks as nat,
            self.width as nat,
            self.col_heights@.map_values(|c: usize| c as nat),
            self.top_layer_height as nat,
        )
    }

    /// The blocks laid so far.
    pub fn blocks(&self) -> (r: usize)
        ensures
            r as nat == self.model().0,
    {
        self.blocks
    }

    /// A shrine of one block.
    pub fn new() -> (r: Shrine)
        ensures
            r.model() == (1nat, 1nat, seq![1nat], 1nat),
    {
        let r = Shrine { blocks: 1, width: 1, col_heights: vec![1], top_layer_height: 1 };
        proof {
            assert(r.col_heights@.map_values(|c: usize| c as nat) =~= seq![1nat]);
        }
        r
    }

    /// Adds one layer. A `false` answer means a value passed `usize`; the
    /// shrine is then unchanged.
    pub fn add_layer(&mut self, priests: usize, acolytes: usize) -> (ok: bool)
        requires
            acolytes >= 1,
        ensures
            ok ==> add_layer_spec(old(self).model(), priests as nat, acolytes as nat) == Some(
                final(self).model(),
            ),
            !ok ==> add_layer_spec(old(self).model(), priests as nat, acolytes as nat) is None
                && final(self).model() == old(self).model(),
    {
        let ghost m0 = self.model();
        let ghost pn = priests as nat;
        let ghost an = acolytes as nat;
        if self.top_layer_height != 0 && priests > usize::MAX / self.top_layer_height {
            proof {
                assert(m0.3 * pn > usize::MAX) by (nonlinear_arith)
                    requires
                        m0.3 >= 1,
                        m0.3 == self.top_layer_height,
                        pn == priests,
                        priests > (usize::MAX as int) / (self.top_layer_height as int),
                ;
            }
            return false;
        }
        proof {
            if self.top_layer_height != 0 {
                assert(m0.3 * pn <= usize::MAX) by (nonlinear_arith)
                    requires
                        m0.3 >= 1,
                        m0.3 == self.top_layer_height,
                        pn == priests,
                        priests <= (usize::MAX as int) / (self.top_layer_height as int),
                ;
            } else {
                assert(m0.3 * pn == 0) by (nonlinear_arith)
                    requires m0.3 == 0, pn == priests;
            }
        }
        let raw = (self.top_layer_height * priests) % acolytes;
        proof {
            assert(raw as nat == (m0.3 * pn) % an);
        }
        if raw > usize::MAX - acolytes {
            proof {
                assert((m0.3 * pn) % an + an > usize::MAX);
            }
            return false;
        }
        let top2 = raw + acolytes;
        proof {
            assert(top2 as nat == (m0.3 * pn) % an + an);
        }
        let mut new_cols: Vec<usize> = Vec::new();
        let mut i: usize = 0;
        while i < self.col_heights.len()
            invariant
                0 <= i <= self.col_heights@.len(),
                m0 == self.model(),
                m0 == old(self).model(),
                top2 <= usize::MAX,
                pn == priests as nat,
                an == acolytes as nat,
                top2 as nat == (m0.3 * pn) % an + an,
                m0.3 * pn <= usize::MAX,
                m0.2.len() == self.col_heights@.len(),
                new_cols@.len() == i,
                forall|k: int|
                    0 <= k < i ==> (#[trigger] m0.2[k]) + top2 <= usize::MAX,
                forall|k: int|
                    0 <= k < i ==> (#[trigger] new_cols@[k]) as nat == m0.2[k] + top2,
            decreases self.col_heights@.len() - i,
        {
            let c = self.col_heights[i];
            proof {
                assert(m0.2[i as int] == (self.col_heights@[i as int]) as nat);
            }
            if c > usize::MAX - top2 {
                proof {
                    assert(m0.2[i as int] + top2 > usize::MAX);
                    assert(exists|j: int|
                        0 <= j < m0.2.len() && #[trigger] m0.2[j] + ((m0.3 * pn) % an + an)
                            > usize::MAX) by {
                        assert(top2 as nat == (m0.3 * pn) % an + an);
                        assert(m0.2[i as int] + ((m0.3 * pn) % an + an) > usize::MAX);
                    }
                }
                return false;
            }
            let ghost pre_cols = new_cols@;
            new_cols.push(c + top2);
            i += 1;
            proof {
                assert forall|k: int| 0 <= k < i implies (#[trigger] m0.2[k]) + top2
                    <= usize::MAX by {
                    if k == i - 1 {
                        assert(m0.2[k] == c as nat);
                    }
                }
                assert forall|k: int| 0 <= k < i implies (#[trigger] new_cols@[k]) as nat
                    == m0.2[k] + top2 by {
                    if k == i - 1 {
                        assert(new_cols@[k] == c + top2);
                        assert(m0.2[k] == c as nat);
                    } else {
                        assert(new_cols@[k] == pre_cols[k]);
                    }
                }
            }
        }
        if self.width > usize::MAX - 2 {
            return false;
        }
        let w2 = self.width + 2;
        if top2 != 0 && w2 > usize::MAX / top2 {
            proof {
                assert((w2 as nat) * (top2 as nat) > usize::MAX) by (nonlinear_arith)
                    requires top2 >= 1, w2 > (usize::MAX as int) / (top2 as int);
                assert((m0.1 + 2) * ((m0.3 * pn) % an + an) > usize::MAX);
            }
            return false;
        }
        proof {
            assert((w2 as nat) * (top2 as nat) <= usize::MAX) by (nonlinear_arith)
                requires top2 >= 1, w2 <= (usize::MAX as int) / (top2 as int);
        }
        let added = w2 * top2;
        if added == 0 || self.blocks > usize::MAX - added {
            return false;
        }
        new_cols.push(top2);
        self.col_heights = new_cols;
        self.width = w2;
        self.top_layer_height = top2;
        self.blocks = self.blocks + added;
        proof {
            assert(self.model().2 =~= m0.2.map_values(|c: nat| (c + (top2 as nat)) as nat).push(
                top2 as nat,
            ));
        }
        true
    }

    /// The blocks left empty under the shrine as it stands. `None` where a
    /// value passes `usize`.
    pub fn empty_blocks(&self, priests: usize, acolytes: usize) -> (r: Option<usize>)
        requires
            acolytes >= 1,
        ensures
            match r {
                Some(v) => empty_spec(self.model(), priests as nat, acolytes as nat) == Some(
                    v as nat,
                ),
                None => empty_spec(self.model(), priests as nat, acolytes as nat) is None,
            },
    {
        let ghost m = self.model();
        if self.col_heights.len() == 0 {
            return None;
        }
        if self.width != 0 && priests > usize::MAX / self.width {
            proof {
                assert(priests * m.1 > usize::MAX) by (nonlinear_arith)
                    requires
                        m.1 >= 1,
                        m.1 == self.width,
                        priests > (usize::MAX as int) / (self.width as int),
                ;
            }
            return None;
        }
        proof {
            if self.width != 0 {
                assert(priests * m.1 <= usize::MAX) by (nonlinear_arith)
                    requires
                        m.1 >= 1,
                        m.1 == self.width,
                        priests <= (usize::MAX as int) / (self.width as int),
                ;
            } else {
                assert(priests * m.1 == 0) by (nonlinear_arith)
                    requires m.1 == 0;
            }
        }
        let base = priests * self.width;
        let c0 = self.col_heights[0];
        if c0 != 0 && base > usize::MAX / c0 {
            proof {
                assert((base as nat) * m.2[0] > usize::MAX) by (nonlinear_arith)
                    requires
                        m.2[0] >= 1,
                        m.2[0] == c0,
                        base > (usize::MAX as int) / (c0 as int),
                ;
            }
            return None;
        }
        proof {
            if c0 != 0 {
                assert((base as nat) * m.2[0] <= usize::MAX) by (nonlinear_arith)
                    requires
                        m.2[0] >= 1,
                        m.2[0] == c0,
                        base <= (usize::MAX as int) / (c0 as int),
                ;
            } else {
                assert((base as nat) * m.2[0] == 0) by (nonlinear_arith)
                    requires m.2[0] == 0;
            }
        }
        let mut acc = (base * c0) % acolytes;
        let mut i: usize = 1;
        while i < self.col_heights.len() - 1
            invariant
                1 <= i,
                self.col_heights@.len() >= 1,
                i <= self.col_heights@.len(),
                acolytes >= 1,
                m == self.model(),
                m.2.len() == self.col_heights@.len(),
                forall|k: int|
                    0 <= k < m.2.len() ==> m.2[k] == (#[trigger] self.col_heights@[k]) as nat,
                empty_spec(m, priests as nat, acolytes as nat) == empty_acc(
                    m.2,
                    i as int,
                    (priests * self.width) as nat,
                    acolytes as nat,
                    acc as nat,
                ),
                base == priests * self.width,
            decreases self.col_heights@.len() - i,
        {
            let c = self.col_heights[i];
            if c != 0 && base > usize::MAX / c {
                proof {
                    assert((base as nat) * m.2[i as int] > usize::MAX) by (nonlinear_arith)
                        requires
                            m.2[i as int] >= 1,
                            m.2[i as int] == c,
                            base > (usize::MAX as int) / (c as int),
                    ;
                }
                return None;
            }
            proof {
                if c != 0 {
                    assert((base as nat) * m.2[i as int] <= usize::MAX) by (nonlinear_arith)
                        requires
                            m.2[i as int] >= 1,
                            m.2[i as int] == c,
                            base <= (usize::MAX as int) / (c as int),
                    ;
                } else {
                    assert((base as nat) * m.2[i as int] == 0) by (nonlinear_arith)
                        requires m.2[i as int] == 0;
                }
            }
            let t = (base * c) % acolytes;
            if t > usize::MAX / 2 {
                proof {
                    assert(((base as nat) * m.2[i as int] % (acolytes as nat)) * 2 > usize::MAX)
                        by (nonlinear_arith)
                        requires
                            t == (base as nat) * m.2[i as int] % (acolytes as nat),
                            t > (usize::MAX as int) / 2,
                    ;
                }
                return None;
            }
            let add = t * 2;
            if acc > usize::MAX - add {
                return None;
            }
            acc = acc + add;
            i += 1;
        }
        Some(acc)
    }
}


/// Third tier: the shrine grows a layer at a time until the laid blocks,
/// less the ones the priests leave empty, cover the blocks on hand; the
/// answer is what remains past them. `None` exactly when the input is not
/// one number that fits, a layer or count passes `usize`, or the empty
/// count passes the laid blocks.
pub fn part3(input: &[u8], acolytes: usize, available: usize) -> (r: Option<usize>)
    requires
        acolytes >= 1,
    ensures
        ({
            let p = parse::line_value(input@);
            let s0 = (1nat, 1nat, seq![1nat], 1nat);
            match r {
                Some(v) => parse::line_is_number(input@) && p <= usize::MAX && (grow3(
                    s0,
                    p,
                    acolytes as nat,
                    available as nat,
                ) matches Some(s1) && (grow3b(s1, p, acolytes as nat, available as nat)
                    matches Some(se) && v as nat == se.0.0 - se.1 - available)),
                None => !parse::line_is_number(input@) || p > usize::MAX || grow3(
                    s0,
                    p,
                    acolytes as nat,
                    available as nat,
                ) is None || grow3b(
                    grow3(s0, p, acolytes as nat, available as nat).unwrap(),
                    p,
                    acolytes as nat,
                    available as nat,
                ) is None,
            }
        }),
{
    let priests = match parse::parse_usize(input) {
        Some(v) => v,
        None => {
            return None;
        },
    };
    let ghost s0 = (1nat, 1nat, seq![1nat], 1nat);
    let mut shrine = Shrine::new();
    let ghost target1 = grow3(s0, priests as nat, acolytes as nat, available as nat);
    while shrine.blocks() < available
        invariant
            acolytes >= 1,
            priests as nat == parse::line_value(input@),
            parse::line_is_number(input@),
            s0 == (1nat, 1nat, seq![1nat], 1nat),
            target1 == grow3(s0, priests as nat, acolytes as nat, available as nat),
            grow3(shrine.model(), priests as nat, acolytes as nat, available as nat) == target1,
        decreases
                (if shrine.model().0 < available {
                    available - shrine.model().0
                } else {
                    0int
                }),
    {
        let ghost m1 = shrine.model();
        if !shrine.add_layer(priests, acolytes) {
            return None;
        }
        proof {
            assert(shrine.model().0 > m1.0);
        }
    }
    let ghost s1 = shrine.model();
    proof {
        assert(target1 == Some(s1));
    }
    let ghost target2 = grow3b(s1, priests as nat, acolytes as nat, available as nat);
    loop
        invariant
            acolytes >= 1,
            priests as nat == parse::line_value(input@),
            parse::line_is_number(input@),
            s0 == (1nat, 1nat, seq![1nat], 1nat),
            grow3(s0, priests as nat, acolytes as nat, available as nat) == Some(s1),
            target2 == grow3b(s1, priests as nat, acolytes as nat, available as nat),
            grow3b(shrine.model(), priests as nat, acolytes as nat, available as nat) == target2,
        decreases
                (if shrine.model().1 < usize::MAX {
                    usize::MAX - shrine.model().1
                } else {
                    0int
                }),
    {
        let e = match shrine.empty_blocks(priests, acolytes) {
            Some(e) => e,
            None => {
                return None;
            },
        };
        let b = shrine.blocks();
        if e > b {
            return None;
        }
        if b - e >= available {
            return Some((b - e) - available);
        }
        let ghost m1 = shrine.model();
        if !shrine.add_layer(priests, acolytes) {
            return None;
        }
        proof {
            assert(shrine.model().1 == m1.1 + 2);
            assert(shrine.model().1 <= usize::MAX) by {
                assert(shrine.model().1 == shrine.width as nat);
            }
        }
    }
}

} // verus!


