use vstd::prelude::*;

verus! {

/// `b` is an ASCII digit.
pub open spec fn is_digit(b: u8) -> bool {
    48 <= b && b <= 57
}

/// The numeric value of the maximal digit runs of `s` from index `i` on,
/// left to right, with `cur` the value of the digit run read so far.
pub open spec fn numbers_acc(s: Seq<u8>, i: int, cur: Option<nat>) -> Seq<nat>
    decreases s.len() - i,
{
    if i < 0 || i >= s.len() {
        match cur {
            Some(v) => seq![v],
            None => Seq::empty(),
        }
    } else if is_digit(s[i]) {
        let d = (s[i] - 48) as nat;
        let v = match cur {
            Some(v) => v * 10 + d,
            None => d,
        };
        numbers_acc(s, i + 1, Some(v))
    } else {
        (match cur {
            Some(v) => seq![v],
            None => Seq::empty(),
        }) + numbers_acc(s, i + 1, None)
    }
}

/// The value of every maximal run of ASCII digits in `s`, in order of
/// appearance. Leading zeros only name the same value: "007" holds the
/// number 7.
pub open spec fn spec_numbers(s: Seq<u8>) -> Seq<nat> {
    numbers_acc(s, 0, None)
}

/// A digit run in progress only grows: some extracted number is at least the
/// value read so far.
proof fn lemma_acc_grows(s: Seq<u8>, i: int, v: nat)
    requires
        0 <= i,
    ensures
        exists|k: int|
            0 <= k < numbers_acc(s, i, Some(v)).len() && numbers_acc(s, i, Some(v))[k] >= v,
    decreases s.len() - i,
{
    let out = numbers_acc(s, i, Some(v));
    if i >= s.len() {
        assert(out[0] >= v);
    } else if is_digit(s[i]) {
        let d = (s[i] - 48) as nat;
        lemma_acc_grows(s, i + 1, v * 10 + d);
        let rest = numbers_acc(s, i + 1, Some((v * 10 + d) as nat));
        let k = choose|k: int| 0 <= k < rest.len() && #[trigger] rest[k] >= v * 10 + d;
        assert(v * 10 + d >= v) by (nonlinear_arith);
        assert(out[k] >= v);
    } else {
        assert(out[0] >= v);
    }
}

/// Scans `s` and yields every maximal run of ASCII digits as an unsigned
/// number, in left-to-right order. Answers `None` exactly when some run
/// names a value too large for `usize`.
pub fn numbers(s: &[u8]) -> (r: Option<Vec<usize>>)
    ensures
        match r {
            Some(v) => v@.map_values(|x: usize| x as nat) == spec_numbers(s@),
            None => exists|k: int|
                0 <= k < spec_numbers(s@).len() && spec_numbers(s@)[k] > usize::MAX,
        },
{
    let mut out: Vec<usize> = Vec::new();
    let mut cur: usize = 0;
    let mut in_run = false;
    let mut i: usize = 0;
    while i < s.len()
        invariant
            0 <= i <= s@.len(),
            !in_run ==> cur == 0,
            spec_numbers(s@) == out@.map_values(|x: usize| x as nat) + numbers_acc(
                s@,
                i as int,
                if in_run {
                    Some(cur as nat)
                } else {
                    None
                },
            ),
        decreases s@.len() - i,
    {
        let b = s[i];
        if 48 <= b && b <= 57 {
            let d = (b - 48) as usize;
            if cur > (usize::MAX - d) / 10 {
                proof {
                    let v: nat = if in_run {
                        ((cur as nat) * 10 + d) as nat
                    } else {
                        d as nat
                    };
                    assert(v > usize::MAX) by (nonlinear_arith)
                        requires
                            cur > (usize::MAX - d) / 10,
                            d <= 9,
                            v == (cur as nat) * 10 + d || v == d as nat,
                            in_run ==> v == (cur as nat) * 10 + d,
                            !in_run ==> cur == 0 && v == d as nat,
                    ;
                    lemma_acc_grows(s@, i + 1, v);
                    let seen = out@.map_values(|x: usize| x as nat);
                    let rest = numbers_acc(s@, i + 1, Some(v));
                    let k = choose|k: int| 0 <= k < rest.len() && #[trigger] rest[k] >= v;
                    assert(spec_numbers(s@)[seen.len() + k] >= v);
                }
                return None;
            }
            cur = if in_run {
                cur * 10 + d
            } else {
                d
            };
            in_run = true;
        } else {
            if in_run {
                let ghost pre = out@;
                out.push(cur);
                proof {
                    assert(out@.map_values(|x: usize| x as nat) =~= pre.map_values(
                        |x: usize| x as nat,
                    ).push(cur as nat));
                }
                cur = 0;
                in_run = false;
            }
        }
        i += 1;
    }
    if in_run {
        let ghost pre = out@;
        out.push(cur);
        proof {
            assert(out@.map_values(|x: usize| x as nat) =~= pre.map_values(
                |x: usize| x as nat,
            ).push(cur as nat));
        }
    }
    proof {
        assert(out@.map_values(|x: usize| x as nat) =~= spec_numbers(s@));
    }
    Some(out)
}


/// A line with a final carriage return loses it.
pub open spec fn strip_cr(l: Seq<u8>) -> Seq<u8> {
    if l.len() > 0 && l.last() == 13 {
        l.drop_last()
    } else {
        l
    }
}

/// The lines of `s` from index `i` on, with `cur` the part of the current
/// line read so far: pieces split at each newline, a carriage return before
/// a newline dropped, and no empty piece after a final newline.
pub open spec fn lines_acc(s: Seq<u8>, i: int, cur: Seq<u8>) -> Seq<Seq<u8>>
    decreases s.len() - i,
{
    if i < 0 || i >= s.len() {
        if cur.len() == 0 {
            Seq::empty()
        } else {
            seq![cur]
        }
    } else if s[i] == 10 {
        seq![strip_cr(cur)] + lines_acc(s, i + 1, Seq::empty())
    } else {
        lines_acc(s, i + 1, cur.push(s[i]))
    }
}

/// The lines of `s`: split at newlines, a carriage return before a newline
/// dropped, no empty final piece after a trailing newline.
pub open spec fn spec_lines(s: Seq<u8>) -> Seq<Seq<u8>> {
    lines_acc(s, 0, Seq::empty())
}

/// Splits `s` into its lines.
pub fn split_lines(s: &[u8]) -> (r: Vec<Vec<u8>>)
    ensures
        r@.map_values(|l: Vec<u8>| l@) == spec_lines(s@),
{
    let mut out: Vec<Vec<u8>> = Vec::new();
    let mut cur: Vec<u8> = Vec::new();
    let mut i: usize = 0;
    while i < s.len()
        invariant
            0 <= i <= s@.len(),
            spec_lines(s@) == out@.map_values(|l: Vec<u8>| l@) + lines_acc(s@, i as int, cur@),
        decreases s@.len() - i,
    {
        let b = s[i];
        if b == 10 {
            let ghost cur0 = cur@;
            if cur.len() > 0 && cur[cur.len() - 1] == 13 {
                cur.pop();
            }
            proof {
                assert(cur@ == strip_cr(cur0));
            }
            let ghost pre = out@;
            out.push(cur);
            proof {
                assert(out@.map_values(|l: Vec<u8>| l@) =~= pre.map_values(|l: Vec<u8>| l@).push(
                    cur@,
                ));
            }
            cur = Vec::new();
        } else {
            cur.push(b);
        }
        i += 1;
    }
    if cur.len() > 0 {
        let ghost pre = out@;
        out.push(cur);
        proof {
            assert(out@.map_values(|l: Vec<u8>| l@) =~= pre.map_values(|l: Vec<u8>| l@).push(cur@));
        }
    }
    proof {
        assert(out@.map_values(|l: Vec<u8>| l@) =~= spec_lines(s@));
    }
    out
}


/// `l` is one unsigned number: nonempty, digits only.
pub open spec fn line_is_number(l: Seq<u8>) -> bool {
    l.len() > 0 && forall|j: int| 0 <= j < l.len() ==> is_digit(#[trigger] l[j])
}

/// The value of the digit string `l`.
pub open spec fn line_value(l: Seq<u8>) -> nat
    decreases l.len(),
{
    if l.len() == 0 {
        0
    } else {
        line_value(l.drop_last()) * 10 + (l.last() - 48) as nat
    }
}

/// Parses a whole line as one unsigned number. `None` exactly when the line
/// is empty, holds a byte other than a digit, or names a value too large for
/// `usize`.
pub fn parse_usize(l: &[u8]) -> (r: Option<usize>)
    ensures
        match r {
            Some(v) => line_is_number(l@) && v as nat == line_value(l@),
            None => !line_is_number(l@) || line_value(l@) > usize::MAX,
        },
{
    if l.len() == 0 {
        return None;
    }
    let mut v: usize = 0;
    let mut i: usize = 0;
    proof {
        assert(l@.take(0) =~= Seq::<u8>::empty());
    }
    while i < l.len()
        invariant
            0 <= i <= l@.len(),
            v as nat == line_value(l@.take(i as int)),
            forall|j: int| 0 <= j < i ==> is_digit(#[trigger] l@[j]),
        decreases l@.len() - i,
    {
        let b = l[i];
        if b < 48 || b > 57 {
            return None;
        }
        let d = (b - 48) as usize;
        proof {
            assert(l@.take(i + 1).drop_last() =~= l@.take(i as int));
            assert(l@.take(i + 1).last() == l@[i as int]);
        }
        if v > (usize::MAX - d) / 10 {
            proof {
                assert((v as nat) * 10 + d > usize::MAX) by (nonlinear_arith)
                    requires v > (usize::MAX - d) / 10, d <= 9, v <= usize::MAX;
                lemma_line_value_prefix(l@, i + 1);
            }
            return None;
        }
        proof {
            assert((v as nat) * 10 + d <= usize::MAX) by (nonlinear_arith)
                requires v <= (usize::MAX - d) / 10, d <= 9, v <= usize::MAX;
        }
        v = v * 10 + d;
        i += 1;
    }
    proof {
        assert(l@.take(l@.len() as int) =~= l@);
    }
    Some(v)
}

/// A digit string's value is at least the value of any of its prefixes.
proof fn lemma_line_value_prefix(l: Seq<u8>, k: int)
    requires
        0 <= k <= l.len(),
    ensures
        line_value(l) >= line_value(l.take(k)),
    decreases l.len() - k,
{
    if k < l.len() {
        lemma_line_value_prefix(l, k + 1);
        assert(l.take(k + 1).drop_last() =~= l.take(k));
        assert(line_value(l.take(k + 1)) == line_value(l.take(k)) * 10 + (l[k] - 48) as nat);
        assert(line_value(l.take(k)) * 10 >= line_value(l.take(k))) by (nonlinear_arith);
    } else {
        assert(l.take(k) =~= l);
    }
}

} // verus!


