//! Integer lattice points of a fixed dimension, with translation and
//! neighbor enumeration.

use vstd::prelude::*;

verus! {

broadcast use vstd::array::group_array_axioms;

/// 3 to the power `d`: the number of length-`d` move sequences over
/// `{-1, 0, 1}`.
pub open spec fn pow3(d: nat) -> nat
    decreases d,
{
    if d == 0 {
        1
    } else {
        3 * pow3((d - 1) as nat)
    }
}

/// A length-`d` sequence of per-axis steps, each -1, 0 or +1.
spec fn valid_move(m: Seq<i64>, d: nat) -> bool {
    m.len() == d && forall|i: int| 0 <= i < d ==> -1 <= #[trigger] m[i] <= 1
}

/// A move that changes no axis.
spec fn zero_move(m: Seq<i64>) -> bool {
    forall|i: int| 0 <= i < m.len() ==> #[trigger] m[i] == 0i64
}

/// The location reached from `a` by the move `m`.
spec fn moved(a: Seq<i64>, m: Seq<i64>) -> Seq<i64> {
    Seq::new(a.len(), |i: int| (a[i] + m[i]) as i64)
}

/// `b` lies in the Moore neighborhood of `a`: it differs from `a` by at
/// most one step along every axis, and differs somewhere.
pub open spec fn moore_neighbor(a: Seq<i64>, b: Seq<i64>) -> bool {
    &&& b.len() == a.len()
    &&& forall|i: int| #![trigger b[i]] 0 <= i < a.len() ==> -1 <= b[i] - a[i] <= 1
    &&& b != a
}

/// All moves of `moves` with `step` written in front of each.
spec fn prefix_all(step: i64, moves: Seq<Seq<i64>>) -> Seq<Seq<i64>> {
    moves.map_values(|m: Seq<i64>| seq![step] + m)
}

/// Every length-`d` move over `{-1, 0, 1}`, the first axis varying
/// slowest: the whole -1 block, then the 0 block, then the +1 block.
spec fn all_moves(d: nat) -> Seq<Seq<i64>>
    decreases d,
{
    if d == 0 {
        seq![Seq::<i64>::empty()]
    } else {
        let rest = all_moves((d - 1) as nat);
        prefix_all(-1i64, rest) + prefix_all(0i64, rest) + prefix_all(1i64, rest)
    }
}

proof fn lemma_pow3_pos(d: nat)
    ensures
        pow3(d) >= 1,
    decreases d,
{
    if d > 0 {
        lemma_pow3_pos((d - 1) as nat);
    }
}

proof fn lemma_all_moves_len(d: nat)
    ensures
        all_moves(d).len() == pow3(d),
    decreases d,
{
    if d > 0 {
        lemma_all_moves_len((d - 1) as nat);
    }
}

/// Which move stands at index `k` of `all_moves(d)`, by block.
proof fn lemma_all_moves_index(d: nat, k: int)
    requires
        d > 0,
        0 <= k < all_moves(d).len(),
    ensures
        ({
            let rest = all_moves((d - 1) as nat);
            let n = rest.len() as int;
            &&& all_moves(d).len() == 3 * n
            &&& (k < n ==> all_moves(d)[k] == seq![-1i64] + rest[k])
            &&& (n <= k < 2 * n ==> all_moves(d)[k] == seq![0i64] + rest[k - n])
            &&& (2 * n <= k ==> all_moves(d)[k] == seq![1i64] + rest[k - 2 * n])
        }),
{
    let rest = all_moves((d - 1) as nat);
    let n = rest.len() as int;
    assert(prefix_all(-1i64, rest).len() == n);
    assert(prefix_all(0i64, rest).len() == n);
    assert(prefix_all(1i64, rest).len() == n);
    if k < n {
        assert(all_moves(d)[k] == prefix_all(-1i64, rest)[k]);
    } else if k < 2 * n {
        assert(all_moves(d)[k] == prefix_all(0i64, rest)[k - n]);
    } else {
        assert(all_moves(d)[k] == prefix_all(1i64, rest)[k - 2 * n]);
    }
}

proof fn lemma_all_moves_valid(d: nat)
    ensures
        forall|k: int|
            0 <= k < all_moves(d).len() ==> valid_move(#[trigger] all_moves(d)[k], d),
    decreases d,
{
    if d == 0 {
        assert(valid_move(all_moves(0)[0], 0));
    } else {
        let dm = (d - 1) as nat;
        lemma_all_moves_valid(dm);
        let rest = all_moves(dm);
        let n = rest.len() as int;
        assert forall|k: int|
            0 <= k < all_moves(d).len() implies valid_move(
            #[trigger] all_moves(d)[k],
            d,
        ) by {
            lemma_all_moves_index(d, k);
            let s: i64 = if k < n {
                -1i64
            } else if k < 2 * n {
                0i64
            } else {
                1i64
            };
            let j: int = if k < n {
                k
            } else if k < 2 * n {
                k - n
            } else {
                k - 2 * n
            };
            assert(valid_move(rest[j], dm));
            let m = all_moves(d)[k];
            assert(m == seq![s] + rest[j]);
            assert(m.len() == d);
            assert forall|i: int| 0 <= i < d implies -1 <= #[trigger] m[i] <= 1 by {
                if i == 0 {
                    assert(m[0] == s);
                } else {
                    assert(m[i] == rest[j][i - 1]);
                }
            }
        }
    }
}

/// Two moves that agree once the same step is written in front of each
/// agreed already.
proof fn lemma_prefix_cancel(s: i64, m1: Seq<i64>, m2: Seq<i64>)
    requires
        seq![s] + m1 == seq![s] + m2,
    ensures
        m1 == m2,
{
    assert((seq![s] + m1).len() == 1 + m1.len());
    assert((seq![s] + m2).len() == 1 + m2.len());
    assert(m1.len() == m2.len());
    assert forall|i: int| 0 <= i < m1.len() implies m1[i] == m2[i] by {
        assert((seq![s] + m1)[i + 1] == m1[i]);
        assert((seq![s] + m2)[i + 1] == m2[i]);
    }
    assert(m1 =~= m2);
}

proof fn lemma_all_moves_distinct(d: nat)
    ensures
        forall|k1: int, k2: int|
            0 <= k1 < k2 < all_moves(d).len() ==> #[trigger] all_moves(d)[k1]
                != #[trigger] all_moves(d)[k2],
    decreases d,
{
    if d > 0 {
        let dm = (d - 1) as nat;
        lemma_all_moves_distinct(dm);
        let rest = all_moves(dm);
        let n = rest.len() as int;
        assert forall|k1: int, k2: int|
            0 <= k1 < k2 < all_moves(d).len() implies #[trigger] all_moves(d)[k1]
            != #[trigger] all_moves(d)[k2] by {
            lemma_all_moves_index(d, k1);
            lemma_all_moves_index(d, k2);
            let s1: i64 = if k1 < n {
                -1i64
            } else if k1 < 2 * n {
                0i64
            } else {
                1i64
            };
            let j1: int = if k1 < n {
                k1
            } else if k1 < 2 * n {
                k1 - n
            } else {
                k1 - 2 * n
            };
            let s2: i64 = if k2 < n {
                -1i64
            } else if k2 < 2 * n {
                0i64
            } else {
                1i64
            };
            let j2: int = if k2 < n {
                k2
            } else if k2 < 2 * n {
                k2 - n
            } else {
                k2 - 2 * n
            };
            assert(all_moves(d)[k1] == seq![s1] + rest[j1]);
            assert(all_moves(d)[k2] == seq![s2] + rest[j2]);
            if s1 == s2 {
                assert(j1 < j2);
                if all_moves(d)[k1] == all_moves(d)[k2] {
                    lemma_prefix_cancel(s1, rest[j1], rest[j2]);
                }
            } else {
                assert((seq![s1] + rest[j1])[0] == s1);
                assert((seq![s2] + rest[j2])[0] == s2);
            }
        }
    }
}

proof fn lemma_all_moves_complete(d: nat, m: Seq<i64>)
    requires
        valid_move(m, d),
    ensures
        exists|k: int|
            0 <= k < all_moves(d).len() && #[trigger] all_moves(d)[k] == m,
    decreases d,
{
    if d == 0 {
        assert(m =~= Seq::<i64>::empty());
        assert(all_moves(0)[0] == m);
    } else {
        let dm = (d - 1) as nat;
        let rest = all_moves(dm);
        let n = rest.len() as int;
        lemma_all_moves_len(dm);
        lemma_pow3_pos(dm);
        let s = m[0];
        let tail = m.subrange(1, m.len() as int);
        assert(valid_move(tail, dm)) by {
            assert forall|i: int| 0 <= i < dm implies -1 <= #[trigger] tail[i] <= 1 by {
                assert(tail[i] == m[i + 1]);
            }
        }
        lemma_all_moves_complete(dm, tail);
        let kt = choose|kt: int| 0 <= kt < rest.len() && #[trigger] rest[kt] == tail;
        assert(-1 <= m[0] <= 1);
        let k: int = if s == -1 {
            kt
        } else if s == 0 {
            n + kt
        } else {
            2 * n + kt
        };
        assert(0 <= k < 3 * n);
        lemma_all_moves_index(d, k);
        assert(all_moves(d)[k] == seq![s] + tail);
        assert(seq![s] + tail =~= m);
        assert(all_moves(d)[k] == m);
    }
}

/// Builds `all_moves(d)` at run time: every length-`d` move over
/// `{-1, 0, 1}`, depth first, in block order.
fn enum_moves(d: usize) -> (r: Vec<Vec<i64>>)
    ensures
        r@.len() == all_moves(d as nat).len(),
        forall|k: int| 0 <= k < r@.len() ==> (#[trigger] r@[k])@ == all_moves(d as nat)[k],
    decreases d,
{
    let mut result: Vec<Vec<i64>> = Vec::new();
    if d == 0 {
        let empty_move: Vec<i64> = Vec::new();
        result.push(empty_move);
        proof {
            assert(result@[0]@ =~= all_moves(0)[0]);
        }
        result
    } else {
        let rest = enum_moves(d - 1);
        let ghost rest_spec = all_moves((d - 1) as nat);
        let ghost n = rest_spec.len() as int;
        let mut step: i64 = -1;
        while step <= 1
            invariant
                -1 <= step <= 2,
                rest@.len() == n,
                forall|k: int| 0 <= k < n ==> (#[trigger] rest@[k])@ == rest_spec[k],
                rest_spec == all_moves((d - 1) as nat),
                d >= 1,
                all_moves(d as nat).len() == 3 * n,
                result@.len() == (if step == -1 { 0 as int } else if step == 0 { n } else if step == 1 { 2 * n } else { 3 * n }),
                forall|k: int|
                    0 <= k < result@.len() ==> (#[trigger] result@[k])@ == all_moves(
                        d as nat,
                    )[k],
            decreases 2 - step,
        {
            let ghost offset = result@.len() as int;
            let mut j: usize = 0;
            while j < rest.len()
                invariant
                    0 <= j <= n,
                    -1 <= step <= 1,
                    rest@.len() == n,
                    forall|k: int| 0 <= k < n ==> (#[trigger] rest@[k])@ == rest_spec[k],
                    rest_spec == all_moves((d - 1) as nat),
                    d >= 1,
                    all_moves(d as nat).len() == 3 * n,
                    offset == (if step == -1 { 0 as int } else if step == 0 { n } else { 2 * n }),
                    result@.len() == offset + j,
                    forall|k: int|
                        0 <= k < result@.len() ==> (#[trigger] result@[k])@ == all_moves(
                            d as nat,
                        )[k],
                decreases n - j,
            {
                let tail = &rest[j];
                let mut mv: Vec<i64> = Vec::new();
                mv.push(step);
                let mut t: usize = 0;
                while t < tail.len()
                    invariant
                        0 <= t <= tail@.len(),
                        mv@.len() == 1 + t,
                        mv@[0] == step,
                        forall|u: int| 0 <= u < t ==> #[trigger] mv@[u + 1] == tail@[u],
                    decreases tail@.len() - t,
                {
                    mv.push(tail[t]);
                    t = t + 1;
                }
                proof {
                    assert forall|i: int| 0 <= i < mv@.len() implies mv@[i] == (seq![step]
                        + tail@)[i] by {
                        if i > 0 {
                            assert(mv@[(i - 1) + 1] == tail@[i - 1]);
                        }
                    }
                    assert(mv@ =~= seq![step] + tail@);
                    lemma_all_moves_index(d as nat, offset + j);
                    if step == -1 {
                        assert(all_moves(d as nat)[offset + j] == seq![step] + rest_spec[j as int]);
                    } else if step == 0 {
                        assert(offset + j - n == j);
                        assert(all_moves(d as nat)[offset + j] == seq![step] + rest_spec[j as int]);
                    } else {
                        assert(offset + j - 2 * n == j);
                        assert(all_moves(d as nat)[offset + j] == seq![step] + rest_spec[j as int]);
                    }
                }
                result.push(mv);
                j = j + 1;
            }
            step = step + 1;
        }
        proof {
            assert(result@.len() == 3 * n);
        }
        result
    }
}

/// Whether every step of the move is 0.
fn is_zero_mv(m: &Vec<i64>) -> (r: bool)
    ensures
        r == zero_move(m@),
{
    let mut i: usize = 0;
    while i < m.len()
        invariant
            0 <= i <= m@.len(),
            forall|j: int| 0 <= j < i ==> #[trigger] m@[j] == 0i64,
        decreases m@.len() - i,
    {
        if m[i] != 0 {
            return false;
        }
        i = i + 1;
    }
    true
}

/// A point of the `D`-dimensional integer lattice.
#[derive(Clone, Copy, Debug)]
pub struct GridPoint<const D: usize> {
    location: [i64; D],
}

impl<const D: usize> View for GridPoint<D> {
    type V = Seq<i64>;

    closed spec fn view(&self) -> Seq<i64> {
        self.location@
    }
}

impl<const D: usize> GridPoint<D> {
    pub fn new(location: [i64; D]) -> (r: Self)
        ensures
            r@ == location@,
    {
        Self { location }
    }

    pub fn origin() -> (r: Self)
        ensures
            r@.len() == D,
            forall|i: int| 0 <= i < D ==> r@[i] == 0i64,
    {
        Self::new([0; D])
    }

    pub fn location(&self) -> (r: [i64; D])
        ensures
            r@ == self@,
    {
        self.location
    }

    /// The point moved by `translation[i]` along each axis `i`.
    pub fn translate(&self, translation: [i64; D]) -> (r: Self)
        requires
            forall|i: int| #![trigger self@[i]]
                0 <= i < D ==> i64::MIN <= self@[i] + translation@[i] <= i64::MAX,
        ensures
            r@.len() == D,
            forall|i: int| 0 <= i < D ==> r@[i] == self@[i] + translation@[i],
    {
        let mut location = self.location;
        for i in 0..D
            invariant
                location@.len() == D,
                forall|j: int| 0 <= j < i ==> location@[j] == self@[j] + translation@[j],
                forall|j: int| i <= j < D ==> location@[j] == self@[j],
                forall|j: int| #![trigger self@[j]]
                    0 <= j < D ==> i64::MIN <= self@[j] + translation@[j] <= i64::MAX,
        {
            location[i] = location[i] + translation[i];
        }
        Self::new(location)
    }

    /// The `2 * D` face-adjacent points: for each axis, the point one step
    /// down followed by the point one step up.
    pub fn adjacent(&self) -> (r: Vec<GridPoint<D>>)
        requires
            forall|i: int| 0 <= i < D ==> i64::MIN < #[trigger] self@[i] < i64::MAX,
        ensures
            r@.len() == 2 * D,
            forall|k: int|
                0 <= k < r@.len() ==> (#[trigger] r@[k])@ == self@.update(
                    k / 2,
                    if k % 2 == 0 {
                        (self@[k / 2] - 1) as i64
                    } else {
                        (self@[k / 2] + 1) as i64
                    },
                ),
    {
        let mut adjacent: Vec<GridPoint<D>> = Vec::new();
        for i in 0..D
            invariant
                forall|j: int| 0 <= j < D ==> i64::MIN < #[trigger] self@[j] < i64::MAX,
                adjacent@.len() == 2 * i,
                forall|k: int|
                    0 <= k < adjacent@.len() ==> (#[trigger] adjacent@[k])@ == self@.update(
                        k / 2,
                        if k % 2 == 0 {
                            (self@[k / 2] - 1) as i64
                        } else {
                            (self@[k / 2] + 1) as i64
                        },
                    ),
        {
            let mut location = self.location;
            assert(location@[i as int] == self@[i as int]);
            location[i] = location[i] - 1;
            adjacent.push(GridPoint::<D>::new(location));
            location[i] = location[i] + 2;
            adjacent.push(GridPoint::<D>::new(location));
            proof {
                assert((2 * i as int) / 2 == i as int);
                assert((2 * i as int + 1) / 2 == i as int);
            }
        }
        adjacent
    }

    /// The point moved by `delta_i` along axis `i`, or `None` when the axis
    /// index is out of range.
    pub fn move_i(&self, i: usize, delta_i: i64) -> (r: Option<Self>)
        requires
            i < D ==> i64::MIN <= self@[i as int] + delta_i <= i64::MAX,
        ensures
            i >= D ==> r is None,
            i < D ==> (r matches Some(p) && p@ == self@.update(
                i as int,
                (self@[i as int] + delta_i) as i64,
            )),
    {
        if i >= D {
            None
        } else {
            let mut location = self.location;
            location[i] = location[i] + delta_i;
            Some(Self { location })
        }
    }

    /// The point reached from `self` by one move of single steps.
    fn moved_by(&self, m: &Vec<i64>) -> (r: Self)
        requires
            m@.len() == D,
            forall|i: int| 0 <= i < D ==> -1 <= #[trigger] m@[i] <= 1,
            forall|i: int| 0 <= i < D ==> i64::MIN < #[trigger] self@[i] < i64::MAX,
        ensures
            r@ == moved(self@, m@),
    {
        let mut location = self.location;
        for i in 0..D
            invariant
                m@.len() == D,
                forall|j: int| 0 <= j < D ==> -1 <= #[trigger] m@[j] <= 1,
                forall|j: int| 0 <= j < D ==> i64::MIN < #[trigger] self@[j] < i64::MAX,
                location@.len() == D,
                forall|j: int| 0 <= j < i ==> location@[j] == self@[j] + m@[j],
                forall|j: int| i <= j < D ==> location@[j] == self@[j],
        {
            location[i] = location[i] + m[i];
        }
        let r = Self { location };
        proof {
            assert(r@ =~= moved(self@, m@));
        }
        r
    }

    /// The full Moore neighborhood: every point other than `self` whose
    /// coordinates each differ from `self`'s by at most one, each exactly
    /// once; `pow3(D) - 1` points in all.
    pub fn neighbor(&self) -> (r: Vec<GridPoint<D>>)
        requires
            forall|i: int| 0 <= i < D ==> i64::MIN < #[trigger] self@[i] < i64::MAX,
        ensures
            r@.len() == pow3(D as nat) - 1,
            forall|k: int| 0 <= k < r@.len() ==> moore_neighbor(self@, (#[trigger] r@[k])@),
            forall|k1: int, k2: int|
                0 <= k1 < k2 < r@.len() ==> (#[trigger] r@[k1])@ != (#[trigger] r@[k2])@,
            forall|b: Seq<i64>|
                #[trigger] moore_neighbor(self@, b) ==> exists|k: int|
                    0 <= k < r@.len() && (#[trigger] r@[k])@ == b,
    {
        let translations = enum_moves(D);
        let ghost moves = all_moves(D as nat);
        proof {
            lemma_all_moves_len(D as nat);
            lemma_all_moves_valid(D as nat);
            lemma_all_moves_distinct(D as nat);
            lemma_pow3_pos(D as nat);
        }
        let mut result: Vec<GridPoint<D>> = Vec::new();
        let ghost mut srcs: Seq<int> = Seq::empty();
        let mut j: usize = 0;
        while j < translations.len()
            invariant
                forall|i: int| 0 <= i < D ==> i64::MIN < #[trigger] self@[i] < i64::MAX,
                moves == all_moves(D as nat),
                moves.len() == pow3(D as nat),
                translations@.len() == moves.len(),
                forall|k: int|
                    0 <= k < moves.len() ==> (#[trigger] translations@[k])@ == moves[k],
                forall|k: int| 0 <= k < moves.len() ==> valid_move(#[trigger] moves[k], D as nat),
                forall|k1: int, k2: int|
                    0 <= k1 < k2 < moves.len() ==> #[trigger] moves[k1] != #[trigger] moves[k2],
                0 <= j <= moves.len(),
                srcs.len() == result@.len(),
                forall|k: int| 0 <= k < srcs.len() ==> 0 <= #[trigger] srcs[k] < j,
                forall|k1: int, k2: int| 0 <= k1 < k2 < srcs.len() ==> srcs[k1] < srcs[k2],
                forall|k: int|
                    0 <= k < srcs.len() ==> !zero_move(#[trigger] moves[srcs[k]]),
                forall|k: int|
                    0 <= k < result@.len() ==> (#[trigger] result@[k])@ == moved(
                        self@,
                        moves[srcs[k]],
                    ),
                forall|jj: int|
                    0 <= jj < j && !zero_move(#[trigger] moves[jj]) ==> exists|k: int|
                        0 <= k < srcs.len() && srcs[k] == jj,
                result@.len() == (if exists|jj: int|
                    0 <= jj < j && zero_move(#[trigger] moves[jj]) {
                    j - 1
                } else {
                    j as int
                }),
            decreases moves.len() - j,
        {
            let mv = &translations[j];
            if !is_zero_mv(mv) {
                result.push(self.moved_by(mv));
                proof {
                    let prev = srcs;
                    srcs = srcs.push(j as int);
                    assert(srcs[srcs.len() - 1] == j as int);
                    assert forall|jj: int|
                        0 <= jj < j + 1 && !zero_move(#[trigger] moves[jj]) implies exists|k: int|
                        0 <= k < srcs.len() && srcs[k] == jj by {
                        if jj < j {
                            let k = choose|k: int| 0 <= k < prev.len() && #[trigger] prev[k] == jj;
                            assert(srcs[k] == jj);
                        } else {
                            assert(srcs[srcs.len() - 1] == jj);
                        }
                    }
                    if exists|jj: int| 0 <= jj < j + 1 && zero_move(#[trigger] moves[jj]) {
                        let jj = choose|jj: int|
                            0 <= jj < j + 1 && zero_move(#[trigger] moves[jj]);
                        assert(jj < j);
                    }
                }
            } else {
                proof {
                    assert(zero_move(moves[j as int]));
                    assert forall|jj: int| 0 <= jj < j implies !zero_move(
                        #[trigger] moves[jj],
                    ) by {
                        if zero_move(moves[jj]) {
                            assert(moves[jj].len() == D);
                            assert(moves[j as int].len() == D);
                            assert forall|i: int|
                                0 <= i < D implies moves[jj][i] == moves[j as int][i] by {
                                assert(moves[jj][i] == 0i64);
                                assert(moves[j as int][i] == 0i64);
                            }
                            assert(moves[jj] =~= moves[j as int]);
                        }
                    }
                    assert(result@.len() == j as int);
                }
            }
            j = j + 1;
        }
        proof {
            let zm = Seq::new(D as nat, |i: int| 0i64);
            assert(valid_move(zm, D as nat));
            lemma_all_moves_complete(D as nat, zm);
            let kz = choose|kz: int| 0 <= kz < moves.len() && #[trigger] moves[kz] == zm;
            assert(zero_move(moves[kz]));
            assert(result@.len() == pow3(D as nat) - 1);
            assert forall|k: int|
                0 <= k < result@.len() implies moore_neighbor(self@, (#[trigger] result@[k])@) by {
                let m = moves[srcs[k]];
                let b = moved(self@, m);
                assert(!zero_move(m));
                let i = choose|i: int| 0 <= i < m.len() && #[trigger] m[i] != 0i64;
                assert(b[i] != self@[i]);
            }
            assert forall|k1: int, k2: int|
                0 <= k1 < k2 < result@.len() implies (#[trigger] result@[k1])@
                != (#[trigger] result@[k2])@ by {
                let m1 = moves[srcs[k1]];
                let m2 = moves[srcs[k2]];
                assert(m1 != m2);
                if moved(self@, m1) == moved(self@, m2) {
                    assert forall|i: int| 0 <= i < D implies m1[i] == m2[i] by {
                        assert(moved(self@, m1)[i] == moved(self@, m2)[i]);
                    }
                    assert(m1 =~= m2);
                }
            }
            assert forall|b: Seq<i64>| #[trigger] moore_neighbor(self@, b) implies exists|k: int|
                0 <= k < result@.len() && (#[trigger] result@[k])@ == b by {
                let m = Seq::new(D as nat, |i: int| (b[i] - self@[i]) as i64);
                assert(valid_move(m, D as nat));
                assert(!zero_move(m)) by {
                    if forall|i: int| 0 <= i < D ==> #[trigger] b[i] == self@[i] {
                        assert(b =~= self@);
                    }
                    let i = choose|i: int| 0 <= i < D && #[trigger] b[i] != self@[i];
                    assert(m[i] != 0i64);
                }
                lemma_all_moves_complete(D as nat, m);
                let jj = choose|jj: int| 0 <= jj < moves.len() && #[trigger] moves[jj] == m;
                let k = choose|k: int| 0 <= k < srcs.len() && #[trigger] srcs[k] == jj;
                assert(result@[k]@ == moved(self@, m));
                assert(moved(self@, m) =~= b);
            }
        }
        result
    }
}

} // verus!
