//! The spatial index: a toroidal grid of buckets, each holding the handles of
//! the particles whose position rounds to it.

use std::collections::HashMap;
use vstd::prelude::*;

use crate::geometry::{abs, round_div, round_div_i64, Vec2, COORD_LIMIT};

verus! {

/// Bucket coordinates stay strictly inside `(-BUCKET_LIMIT, BUCKET_LIMIT)`.
pub const BUCKET_LIMIT: i64 = 0x4000_0000_0000_0000;

/// Bound on the bucket coordinates a neighbourhood query may start from.
pub const QUERY_LIMIT: i64 = 0x400_0000_0000;

/// Bound on the coordinates of a position that the index may be asked about.
pub const POSITION_LIMIT: i64 = 2 * COORD_LIMIT;

/// Distance between the first bucket column of one key row and the next.
pub const ROW_STRIDE: i128 = 0x1_0000_0000_0000_0000;

pub open spec fn bucket_in_range(ix: int, iy: int) -> bool {
    -BUCKET_LIMIT < ix < BUCKET_LIMIT && -BUCKET_LIMIT < iy < BUCKET_LIMIT
}

/// The map key under which the bucket `(ix, iy)` is stored.
pub open spec fn bucket_key(ix: int, iy: int) -> int {
    ix * ROW_STRIDE + iy
}

/// Bucket coordinates as mathematical pairs.
pub open spec fn keys_view(s: Seq<(i64, i64)>) -> Seq<(int, int)> {
    s.map_values(|k: (i64, i64)| (k.0 as int, k.1 as int))
}

pub open spec fn position_in_range(x: int, y: int) -> bool {
    -POSITION_LIMIT <= x <= POSITION_LIMIT && -POSITION_LIMIT <= y <= POSITION_LIMIT
}

/// Change that brings a coordinate past `+h` or `-h` back by one period `2h`.
pub open spec fn wrap_adjust(v: int, h: int) -> int {
    if v > h {
        -2 * h
    } else if v < -h {
        2 * h
    } else {
        0
    }
}

proof fn lemma_bucket_key_injective(ix: int, iy: int, jx: int, jy: int)
    requires
        bucket_in_range(ix, iy),
        bucket_in_range(jx, jy),
        bucket_key(ix, iy) == bucket_key(jx, jy),
    ensures
        ix == jx,
        iy == jy,
{
    assert((ix - jx) * ROW_STRIDE == jy - iy) by (nonlinear_arith)
        requires
            ix * ROW_STRIDE + iy == jx * ROW_STRIDE + jy,
    ;
    if ix != jx {
        assert(abs((ix - jx) * ROW_STRIDE) >= ROW_STRIDE) by (nonlinear_arith)
            requires
                ix != jx,
        ;
    }
}

proof fn lemma_keys_view_append(a: Seq<(i64, i64)>, b: Seq<(i64, i64)>)
    ensures
        keys_view(a + b) == keys_view(a) + keys_view(b),
{
    assert(keys_view(a + b) =~= keys_view(a) + keys_view(b));
}

fn key_of(ix: i64, iy: i64) -> (k: i128)
    requires
        bucket_in_range(ix as int, iy as int),
    ensures
        k == bucket_key(ix as int, iy as int),
{
    assert(-0x4000_0000_0000_0000_0000_0000_0000_0000int <= ix * ROW_STRIDE
        <= 0x4000_0000_0000_0000_0000_0000_0000_0000int) by (nonlinear_arith)
        requires
            -BUCKET_LIMIT < ix < BUCKET_LIMIT,
    ;
    (ix as i128) * ROW_STRIDE + (iy as i128)
}

/// `after` is `before` with the first occurrence of `e` replaced by the last
/// element, and the last slot dropped.
pub open spec fn is_swap_removal(before: Seq<usize>, after: Seq<usize>, e: usize) -> bool {
    exists|i: int|
        0 <= i < before.len() && before[i] == e && (forall|j: int| 0 <= j < i ==> before[j] != e)
            && after == before.update(i, before.last()).drop_last()
}

proof fn lemma_bucket_key_bounds(ix: int, iy: int)
    requires
        bucket_in_range(ix, iy),
    ensures
        i128::MIN < bucket_key(ix, iy) < i128::MAX,
{
    assert(-0x4000_0000_0000_0000_0000_0000_0000_0000int <= ix * ROW_STRIDE
        <= 0x4000_0000_0000_0000_0000_0000_0000_0000int) by (nonlinear_arith)
        requires
            -BUCKET_LIMIT < ix < BUCKET_LIMIT,
    ;
}

/// A swap removal takes one occurrence of `e` out of the sequence's
/// multiset and leaves every other handle's count as it was.
pub proof fn lemma_swap_removal_multiset(before: Seq<usize>, after: Seq<usize>, e: usize)
    requires
        is_swap_removal(before, after, e),
    ensures
        after.to_multiset() == before.to_multiset().remove(e),
{
    broadcast use vstd::seq_lib::group_to_multiset_ensures;

    let i = choose|i: int|
        0 <= i < before.len() && before[i] == e && (forall|j: int| 0 <= j < i ==> before[j] != e)
            && after == before.update(i, before.last()).drop_last();
    let n = before.len();
    let u = before.update(i, before.last());
    vstd::seq_lib::to_multiset_update(before, i, before.last());
    assert(u.drop_last() =~= u.remove(n - 1));
    vstd::seq_lib::to_multiset_remove(u, n - 1);
    assert(u[n - 1] == before.last());
    assert(before.to_multiset().count(e) > 0);
    assert(after.to_multiset() =~= before.to_multiset().remove(e));
}

proof fn lemma_swap_removal(before: Seq<usize>, after: Seq<usize>, e: usize)
    requires
        is_swap_removal(before, after, e),
        before.no_duplicates(),
    ensures
        after.no_duplicates(),
        !after.contains(e),
        forall|x: usize| x != e ==> (after.contains(x) <==> before.contains(x)),
        forall|j: int| 0 <= j < after.len() ==> before.contains(#[trigger] after[j]),
{
    let i = choose|i: int|
        0 <= i < before.len() && before[i] == e && (forall|j: int| 0 <= j < i ==> before[j] != e)
            && after == before.update(i, before.last()).drop_last();
    let n = before.len();
    assert forall|j: int| 0 <= j < after.len() implies #[trigger] after[j] == (if j == i {
        before[n - 1]
    } else {
        before[j]
    }) && before.contains(after[j]) by {
        if j == i {
            assert(before[n - 1] == before[n - 1]);
        }
        let k = if j == i {
            n - 1
        } else {
            j
        };
        assert(before[k] == after[j]);
    }
    assert forall|x: usize| x != e implies (after.contains(x) <==> before.contains(x)) by {
        if before.contains(x) {
            let k = choose|k: int| 0 <= k < n && before[k] == x;
            if k == n - 1 {
                if i < n - 1 {
                    assert(after[i] == x);
                }
            } else {
                assert(k != i);
                assert(after[k] == x);
            }
        }
    }
}

/// The rectangle `[-w/2, w/2) x [-h/2, h/2)` with opposite edges identified,
/// and the bucket index over it.
pub struct SimRegion {
    /// Half-width and half-height of the domain.
    pub top_right: Vec2,
    /// Side length of a bucket.
    pub granularity: i64,
    pub index: HashMap<i128, Vec<usize>>,
}

impl SimRegion {
    pub open spec fn wf(&self) -> bool {
        &&& 1 <= self.granularity <= COORD_LIMIT
        &&& 1 <= self.top_right.x <= COORD_LIMIT / 2
        &&& 1 <= self.top_right.y <= COORD_LIMIT / 2
    }

    /// The handles stored in bucket `(ix, iy)`, in order.
    pub open spec fn bucket(&self, ix: int, iy: int) -> Seq<usize> {
        if bucket_in_range(ix, iy) && self.index@.contains_key(bucket_key(ix, iy) as i128) {
            self.index@[bucket_key(ix, iy) as i128]@
        } else {
            Seq::empty()
        }
    }

    /// The bucket a position belongs to: each coordinate divided by the
    /// granularity and rounded to the nearest integer.
    pub open spec fn coords_of(&self, x: int, y: int) -> (int, int) {
        (round_div(x, self.granularity as int), round_div(y, self.granularity as int))
    }

    pub open spec fn bucket_at(&self, p: Vec2) -> Seq<usize> {
        self.bucket(self.coords_of(p.x as int, p.y as int).0, self.coords_of(p.x as int, p.y as int).1)
    }

    /// The index holds particle `h` at position `pos[h]`, for every `h`, and
    /// nothing else: each stored handle sits in the bucket of its position,
    /// once, and every particle is stored.
    pub open spec fn index_matches(&self, pos: Seq<Vec2>) -> bool {
        &&& pos.len() <= usize::MAX
        &&& forall|ix: int, iy: int, j: int|
            0 <= j < self.bucket(ix, iy).len() ==> {
                let h = #[trigger] self.bucket(ix, iy)[j];
                &&& (h as int) < pos.len()
                &&& self.coords_of(pos[h as int].x as int, pos[h as int].y as int) == (ix, iy)
            }
        &&& forall|ix: int, iy: int| #[trigger] self.bucket(ix, iy).no_duplicates()
        &&& forall|h: int| 0 <= h < pos.len() ==> #[trigger] self.bucket_at(pos[h]).contains(h as usize)
    }

    /// The bucket columns (or rows) at which the domain ends, as `(low, high)`.
    pub open spec fn bucket_span(&self, half: int) -> (int, int) {
        (round_div(-half, self.granularity as int), round_div(half, self.granularity as int))
    }

    /// The bucket `(ix, iy)` followed by its images across the domain's edges:
    /// one per axis on which it lies at or past the outermost bucket, and the
    /// diagonal one when it does so on both.
    pub open spec fn wrapped_buckets(&self, ix: int, iy: int) -> Seq<(int, int)> {
        let (left, right) = self.bucket_span(self.top_right.x as int);
        let (bottom, top) = self.bucket_span(self.top_right.y as int);
        let fold_x = ix <= left || ix >= right;
        let fold_y = iy <= bottom || iy >= top;
        let wx = if ix <= left {
            ix + (right - left)
        } else {
            ix - (right - left)
        };
        let wy = if iy <= bottom {
            iy + (top - bottom)
        } else {
            iy - (top - bottom)
        };
        seq![(ix, iy)] + (if fold_x {
            seq![(wx, iy)]
        } else {
            Seq::empty()
        }) + (if fold_y {
            seq![(ix, wy)]
        } else {
            Seq::empty()
        }) + (if fold_x && fold_y {
            seq![(wx, wy)]
        } else {
            Seq::empty()
        })
    }

    /// The buckets a neighbourhood query around `(ix, iy)` visits: the wrapped
    /// images of the 3 x 3 block, column by column.
    pub open spec fn neighbor_keys(&self, ix: int, iy: int) -> Seq<(int, int)> {
        self.wrapped_buckets(ix - 1, iy - 1) + self.wrapped_buckets(ix - 1, iy)
            + self.wrapped_buckets(ix - 1, iy + 1) + self.wrapped_buckets(ix, iy - 1)
            + self.wrapped_buckets(ix, iy) + self.wrapped_buckets(ix, iy + 1)
            + self.wrapped_buckets(ix + 1, iy - 1) + self.wrapped_buckets(ix + 1, iy)
            + self.wrapped_buckets(ix + 1, iy + 1)
    }

    /// The contents of the given buckets, one after another.
    pub open spec fn gather(&self, keys: Seq<(int, int)>) -> Seq<usize>
        decreases keys.len(),
    {
        if keys.len() == 0 {
            Seq::empty()
        } else {
            self.gather(keys.drop_last()) + self.bucket(keys.last().0, keys.last().1)
        }
    }

    /// What a neighbourhood query around bucket `(ix, iy)` returns.
    pub open spec fn neighbors(&self, ix: int, iy: int) -> Seq<usize> {
        self.gather(self.neighbor_keys(ix, iy))
    }

    /// What a neighbourhood query around position `(x, y)` returns.
    pub open spec fn neighbors_of_position(&self, x: int, y: int) -> Seq<usize> {
        self.neighbors(self.coords_of(x, y).0, self.coords_of(x, y).1)
    }

    /// An empty index over a `width` x `height` domain.
    pub fn new(width: i64, height: i64, granularity: i64) -> (r: SimRegion)
        requires
            2 <= width <= COORD_LIMIT,
            2 <= height <= COORD_LIMIT,
            1 <= granularity <= COORD_LIMIT,
        ensures
            r.wf(),
            r.top_right.x == width / 2,
            r.top_right.y == height / 2,
            r.granularity == granularity,
            r.index@ == Map::<i128, Vec<usize>>::empty(),
            forall|ix: int, iy: int| #[trigger] r.bucket(ix, iy) == Seq::<usize>::empty(),
            r.index_matches(Seq::empty()),
    {
        let r = SimRegion {
            top_right: Vec2::new(width / 2, height / 2),
            granularity,
            index: HashMap::new(),
        };
        assert forall|ix: int, iy: int| #[trigger] r.bucket(ix, iy) == Seq::<usize>::empty() by {}
        r
    }

    /// The bucket of position `(x, y)`.
    pub fn bucket_coords(&self, x: i64, y: i64) -> (r: (i64, i64))
        requires
            self.wf(),
            position_in_range(x as int, y as int),
        ensures
            (r.0 as int, r.1 as int) == self.coords_of(x as int, y as int),
            abs(r.0 as int) <= abs(x as int) + 1,
            abs(r.1 as int) <= abs(y as int) + 1,
    {
        (round_div_i64(x, self.granularity), round_div_i64(y, self.granularity))
    }

    /// The shift that brings `point` back into the domain along each axis on
    /// which it lies outside: one period, toward the domain.
    pub fn get_wrap_around_adjustment(&self, point: Vec2) -> (r: Vec2)
        requires
            self.wf(),
        ensures
            r.x == wrap_adjust(point.x as int, self.top_right.x as int),
            r.y == wrap_adjust(point.y as int, self.top_right.y as int),
    {
        let mut adjustment = Vec2::zero();
        if point.x > self.top_right.x {
            adjustment.x = -self.top_right.x;
        } else if point.x < -self.top_right.x {
            adjustment.x = self.top_right.x;
        }
        if point.y > self.top_right.y {
            adjustment.y = -self.top_right.y;
        } else if point.y < -self.top_right.y {
            adjustment.y = self.top_right.y;
        }
        Vec2::new(2 * adjustment.x, 2 * adjustment.y)
    }

    /// The delta from `origin` to `target`, shifted by one period along each
    /// axis on which it is longer than half the domain.
    pub fn get_corrected_position_delta(&self, origin: Vec2, target: Vec2) -> (r: Vec2)
        requires
            self.wf(),
            position_in_range(origin.x as int, origin.y as int),
            position_in_range(target.x as int, target.y as int),
        ensures
            r.x == (target.x - origin.x) + wrap_adjust(
                target.x - origin.x,
                self.top_right.x as int,
            ),
            r.y == (target.y - origin.y) + wrap_adjust(
                target.y - origin.y,
                self.top_right.y as int,
            ),
    {
        let delta = Vec2::new(target.x - origin.x, target.y - origin.y);
        let adjustment = self.get_wrap_around_adjustment(delta);
        Vec2::new(delta.x + adjustment.x, delta.y + adjustment.y)
    }

    /// The bucket `(ix, iy)` and its images across the domain's edges.
    fn get_wrapped_buckets(&self, ix: i64, iy: i64) -> (r: Vec<(i64, i64)>)
        requires
            self.wf(),
            -QUERY_LIMIT <= ix <= QUERY_LIMIT,
            -QUERY_LIMIT <= iy <= QUERY_LIMIT,
        ensures
            keys_view(r@) == self.wrapped_buckets(ix as int, iy as int),
            forall|j: int|
                0 <= j < r@.len() ==> -2 * QUERY_LIMIT <= (#[trigger] r@[j]).0 <= 2 * QUERY_LIMIT
                    && -2 * QUERY_LIMIT <= r@[j].1 <= 2 * QUERY_LIMIT,
    {
        let right = round_div_i64(self.top_right.x, self.granularity);
        let top = round_div_i64(self.top_right.y, self.granularity);
        let left = round_div_i64(-self.top_right.x, self.granularity);
        let bottom = round_div_i64(-self.top_right.y, self.granularity);
        let fold_x = ix <= left || ix >= right;
        let fold_y = iy <= bottom || iy >= top;
        let wx = if ix <= left {
            ix + (right - left)
        } else {
            ix - (right - left)
        };
        let wy = if iy <= bottom {
            iy + (top - bottom)
        } else {
            iy - (top - bottom)
        };
        let mut result: Vec<(i64, i64)> = Vec::new();
        result.push((ix, iy));
        if fold_x {
            result.push((wx, iy));
        }
        if fold_y {
            result.push((ix, wy));
        }
        if fold_x && fold_y {
            result.push((wx, wy));
        }
        assert(keys_view(result@) =~= self.wrapped_buckets(ix as int, iy as int));
        result
    }
    /// Replacing the vector under key `k` changes bucket `(cx, cy)` alone.
    proof fn lemma_bucket_frame(old_r: &SimRegion, new_r: &SimRegion, cx: int, cy: int, k: i128)
        requires
            bucket_in_range(cx, cy),
            k == bucket_key(cx, cy),
            new_r.index@ == old_r.index@.insert(k, new_r.index@[k]),
        ensures
            forall|ix: int, iy: int|
                #[trigger] new_r.bucket(ix, iy) == if ix == cx && iy == cy {
                    new_r.index@[k]@
                } else {
                    old_r.bucket(ix, iy)
                },
    {
        assert forall|ix: int, iy: int|
            #[trigger] new_r.bucket(ix, iy) == if ix == cx && iy == cy {
                new_r.index@[k]@
            } else {
                old_r.bucket(ix, iy)
            } by {
            if bucket_in_range(ix, iy) {
                lemma_bucket_key_bounds(ix, iy);
                lemma_bucket_key_bounds(cx, cy);
                if bucket_key(ix, iy) == bucket_key(cx, cy) {
                    lemma_bucket_key_injective(ix, iy, cx, cy);
                }
            }
        }
    }

    proof fn lemma_insert_keeps_index(
        old_r: &SimRegion,
        new_r: &SimRegion,
        pos: Seq<Vec2>,
        entity: usize,
        p: Vec2,
    )
        requires
            old_r.granularity == new_r.granularity,
            old_r.index_matches(pos),
            entity == pos.len(),
            entity < usize::MAX,
            forall|ix: int, iy: int|
                #[trigger] new_r.bucket(ix, iy) == if (ix, iy) == old_r.coords_of(p.x as int, p.y as int) {
                    old_r.bucket(ix, iy).push(entity)
                } else {
                    old_r.bucket(ix, iy)
                },
        ensures
            new_r.index_matches(pos.push(p)),
    {
        let npos = pos.push(p);
        let c = old_r.coords_of(p.x as int, p.y as int);
        assert forall|ix: int, iy: int, j: int| 0 <= j < new_r.bucket(ix, iy).len() implies {
            let h = #[trigger] new_r.bucket(ix, iy)[j];
            &&& (h as int) < npos.len()
            &&& new_r.coords_of(npos[h as int].x as int, npos[h as int].y as int) == (ix, iy)
        } by {
            if (ix, iy) == c && j == old_r.bucket(ix, iy).len() {
            } else {
                assert(new_r.bucket(ix, iy)[j] == old_r.bucket(ix, iy)[j]);
            }
        }
        assert forall|ix: int, iy: int| #[trigger] new_r.bucket(ix, iy).no_duplicates() by {
            if (ix, iy) == c {
                let b = old_r.bucket(ix, iy);
                assert forall|j: int| 0 <= j < b.len() implies b[j] != entity by {
                    assert(b[j] < pos.len());
                }
                let nb = new_r.bucket(ix, iy);
                assert(nb == b.push(entity));
                assert(b.no_duplicates());
                assert forall|i: int, j: int|
                    0 <= i < nb.len() && 0 <= j < nb.len() && i != j implies nb[i] != nb[j] by {
                    if i < b.len() && j < b.len() {
                        assert(nb[i] == b[i] && nb[j] == b[j]);
                    } else if i < b.len() {
                        assert(nb[i] == b[i]);
                    } else {
                        assert(nb[j] == b[j]);
                    }
                }
            }
        }
        assert forall|h: int| 0 <= h < npos.len() implies #[trigger] new_r.bucket_at(npos[h]).contains(
            h as usize,
        ) by {
            if h < pos.len() {
                assert(npos[h] == pos[h]);
                assert(old_r.bucket_at(pos[h]).contains(h as usize));
                let hc = old_r.coords_of(pos[h].x as int, pos[h].y as int);
                if hc == c {
                    let k = choose|k: int|
                        0 <= k < old_r.bucket_at(pos[h]).len() && old_r.bucket_at(pos[h])[k]
                            == h as usize;
                    assert(new_r.bucket_at(npos[h])[k] == h as usize);
                }
            } else {
                assert(new_r.bucket_at(npos[h])[old_r.bucket(c.0, c.1).len() as int] == h as usize);
            }
        }
    }

    proof fn lemma_move_keeps_index(
        old_r: &SimRegion,
        new_r: &SimRegion,
        pos: Seq<Vec2>,
        entity: usize,
        p_old: Vec2,
        p_new: Vec2,
    )
        requires
            old_r.granularity == new_r.granularity,
            old_r.index_matches(pos),
            (entity as int) < pos.len(),
            pos[entity as int] == p_old,
            old_r.coords_of(p_old.x as int, p_old.y as int) == old_r.coords_of(
                p_new.x as int,
                p_new.y as int,
            ) ==> forall|ix: int, iy: int| #[trigger]
                new_r.bucket(ix, iy) == old_r.bucket(ix, iy),
            old_r.coords_of(p_old.x as int, p_old.y as int) != old_r.coords_of(
                p_new.x as int,
                p_new.y as int,
            ) ==> forall|ix: int, iy: int|
                {
                    let co = old_r.coords_of(p_old.x as int, p_old.y as int);
                    let cn = old_r.coords_of(p_new.x as int, p_new.y as int);
                    if (ix, iy) == co {
                        is_swap_removal(old_r.bucket(ix, iy), #[trigger] new_r.bucket(ix, iy), entity)
                    } else if (ix, iy) == cn {
                        new_r.bucket(ix, iy) == old_r.bucket(ix, iy).push(entity)
                    } else {
                        new_r.bucket(ix, iy) == old_r.bucket(ix, iy)
                    }
                },
        ensures
            new_r.index_matches(pos.update(entity as int, p_new)),
    {
        let npos = pos.update(entity as int, p_new);
        let co = old_r.coords_of(p_old.x as int, p_old.y as int);
        let cn = old_r.coords_of(p_new.x as int, p_new.y as int);
        if co == cn {
            assert forall|h: int| 0 <= h < npos.len() implies #[trigger] new_r.bucket_at(
                npos[h],
            ).contains(h as usize) by {
                assert(old_r.bucket_at(pos[h]).contains(h as usize));
            }
            assert forall|ix: int, iy: int| #[trigger] new_r.bucket(ix, iy).no_duplicates() by {
                assert(old_r.bucket(ix, iy).no_duplicates());
            }
            assert forall|ix: int, iy: int, j: int| 0 <= j < new_r.bucket(ix, iy).len() implies {
                let h = #[trigger] new_r.bucket(ix, iy)[j];
                &&& (h as int) < npos.len()
                &&& new_r.coords_of(npos[h as int].x as int, npos[h as int].y as int) == (ix, iy)
            } by {
                assert(old_r.bucket(ix, iy)[j] == new_r.bucket(ix, iy)[j]);
            }
        } else {
            let bo = old_r.bucket(co.0, co.1);
            let bn = old_r.bucket(cn.0, cn.1);
            assert(new_r.bucket(co.0, co.1) == new_r.bucket(co.0, co.1));
            assert(bo.no_duplicates());
            lemma_swap_removal(bo, new_r.bucket(co.0, co.1), entity);
            assert forall|j: int| 0 <= j < bn.len() implies bn[j] != entity by {
                assert(old_r.coords_of(pos[bn[j] as int].x as int, pos[bn[j] as int].y as int)
                    == cn);
            }
            assert(!bn.contains(entity));
            assert forall|ix: int, iy: int, j: int| 0 <= j < new_r.bucket(ix, iy).len() implies {
                let h = #[trigger] new_r.bucket(ix, iy)[j];
                &&& (h as int) < npos.len()
                &&& new_r.coords_of(npos[h as int].x as int, npos[h as int].y as int) == (ix, iy)
            } by {
                let h = new_r.bucket(ix, iy)[j];
                if (ix, iy) == co {
                    assert(bo.contains(h));
                    let k = choose|k: int| 0 <= k < bo.len() && bo[k] == h;
                    assert(old_r.bucket(ix, iy)[k] == h);
                    assert(!new_r.bucket(co.0, co.1).contains(entity));
                    assert(h != entity);
                } else if (ix, iy) == cn {
                    if j < bn.len() {
                        assert(old_r.bucket(ix, iy)[j] == h);
                    }
                } else {
                    assert(old_r.bucket(ix, iy)[j] == h);
                    assert(h != entity);
                }
            }
            assert forall|ix: int, iy: int| #[trigger] new_r.bucket(ix, iy).no_duplicates() by {
                assert(old_r.bucket(ix, iy).no_duplicates());
            }
            assert forall|h: int| 0 <= h < npos.len() implies #[trigger] new_r.bucket_at(
                npos[h],
            ).contains(h as usize) by {
                if h == entity {
                    assert(new_r.bucket(cn.0, cn.1)[bn.len() as int] == entity);
                } else {
                    assert(npos[h] == pos[h]);
                    assert(old_r.bucket_at(pos[h]).contains(h as usize));
                    let hc = old_r.coords_of(pos[h].x as int, pos[h].y as int);
                    if hc == cn {
                        let k = choose|k: int| 0 <= k < bn.len() && bn[k] == h as usize;
                        assert(new_r.bucket(cn.0, cn.1)[k] == h as usize);
                    }
                }
            }
        }
    }

    /// Adds `entity` to the bucket of position `(x, y)`.
    pub fn insert_entity(&mut self, entity: usize, x: i64, y: i64)
        requires
            old(self).wf(),
            position_in_range(x as int, y as int),
        ensures
            final(self).wf(),
            final(self).top_right == old(self).top_right,
            final(self).granularity == old(self).granularity,
            forall|ix: int, iy: int|
                #[trigger] final(self).bucket(ix, iy) == if (ix, iy) == old(self).coords_of(
                    x as int,
                    y as int,
                ) {
                    old(self).bucket(ix, iy).push(entity)
                } else {
                    old(self).bucket(ix, iy)
                },
            forall|pos: Seq<Vec2>|
                #[trigger] old(self).index_matches(pos) && entity == pos.len() && entity < usize::MAX
                    ==> final(self).index_matches(pos.push((Vec2 { x, y }))),
    {
        let ghost old_r = *self;
        let (bx, by) = self.bucket_coords(x, y);
        let key = key_of(bx, by);
        let mut bucket = match self.index.remove(&key) {
            Some(b) => b,
            None => Vec::new(),
        };
        proof {
            if old_r.index@.contains_key(key) {
                assert(bucket@ == old_r.bucket(bx as int, by as int));
            }
        }
        bucket.push(entity);
        self.index.insert(key, bucket);
        proof {
            assert(self.index@ == old_r.index@.insert(key, self.index@[key]));
            SimRegion::lemma_bucket_frame(&old_r, self, bx as int, by as int, key);
            assert forall|pos: Seq<Vec2>|
                #[trigger] old_r.index_matches(pos) && entity == pos.len() && entity < usize::MAX implies self.index_matches(
                pos.push(Vec2 { x, y }),
            ) by {
                SimRegion::lemma_insert_keeps_index(&old_r, self, pos, entity, Vec2 { x, y });
            }
        }
    }

    /// Takes `entity` out of the bucket of position `(x_old, y_old)`, moving
    /// the bucket's last handle into its slot.
    pub fn remove_entity(&mut self, entity: usize, x_old: i64, y_old: i64)
        requires
            old(self).wf(),
            position_in_range(x_old as int, y_old as int),
            old(self).bucket(
                old(self).coords_of(x_old as int, y_old as int).0,
                old(self).coords_of(x_old as int, y_old as int).1,
            ).contains(entity),
        ensures
            final(self).wf(),
            final(self).top_right == old(self).top_right,
            final(self).granularity == old(self).granularity,
            forall|ix: int, iy: int|
                if (ix, iy) == old(self).coords_of(x_old as int, y_old as int) {
                    is_swap_removal(old(self).bucket(ix, iy), #[trigger] final(self).bucket(ix, iy), entity)
                } else {
                    final(self).bucket(ix, iy) == old(self).bucket(ix, iy)
                },
            ({
                let c = old(self).coords_of(x_old as int, y_old as int);
                final(self).bucket(c.0, c.1).to_multiset() == old(self).bucket(
                    c.0,
                    c.1,
                ).to_multiset().remove(entity)
            }),
    {
        let ghost old_r = *self;
        let (bx, by) = self.bucket_coords(x_old, y_old);
        let key = key_of(bx, by);
        let ghost c = (bx as int, by as int);
        let mut bucket = match self.index.remove(&key) {
            Some(b) => b,
            None => {
                proof {
                    assert(old_r.bucket(c.0, c.1).len() == 0);
                }
                Vec::new()
            },
        };
        assert(bucket@ == old_r.bucket(c.0, c.1));
        let mut idx: usize = 0;
        while bucket[idx] != entity
            invariant
                0 <= idx < bucket.len(),
                bucket@.contains(entity),
                forall|j: int| 0 <= j < idx ==> bucket@[j] != entity,
            decreases bucket.len() - idx,
        {
            idx = idx + 1;
            proof {
                if idx == bucket.len() {
                    let k = choose|k: int| 0 <= k < bucket@.len() && bucket@[k] == entity;
                    assert(bucket@[k] != entity);
                }
            }
        }
        let ghost before = bucket@;
        bucket.swap_remove(idx);
        assert(is_swap_removal(before, bucket@, entity));
        self.index.insert(key, bucket);
        proof {
            assert(self.index@ == old_r.index@.insert(key, self.index@[key]));
            SimRegion::lemma_bucket_frame(&old_r, self, c.0, c.1, key);
            lemma_swap_removal_multiset(old_r.bucket(c.0, c.1), self.bucket(c.0, c.1), entity);
        }
    }

    /// Moves `entity` from the bucket of `(x_old, y_old)` to that of
    /// `(x_new, y_new)`; nothing changes when the two buckets coincide.
    pub fn move_entity(&mut self, entity: usize, x_old: i64, y_old: i64, x_new: i64, y_new: i64)
        requires
            old(self).wf(),
            position_in_range(x_old as int, y_old as int),
            position_in_range(x_new as int, y_new as int),
            old(self).coords_of(x_old as int, y_old as int) != old(self).coords_of(
                x_new as int,
                y_new as int,
            ) ==> old(self).bucket(
                old(self).coords_of(x_old as int, y_old as int).0,
                old(self).coords_of(x_old as int, y_old as int).1,
            ).contains(entity),
        ensures
            final(self).wf(),
            final(self).top_right == old(self).top_right,
            final(self).granularity == old(self).granularity,
            old(self).coords_of(x_old as int, y_old as int) == old(self).coords_of(
                x_new as int,
                y_new as int,
            ) ==> *final(self) == *old(self),
            old(self).coords_of(x_old as int, y_old as int) == old(self).coords_of(
                x_new as int,
                y_new as int,
            ) ==> forall|ix: int, iy: int| #[trigger]
                final(self).bucket(ix, iy) == old(self).bucket(ix, iy),
            old(self).coords_of(x_old as int, y_old as int) != old(self).coords_of(
                x_new as int,
                y_new as int,
            ) ==> forall|ix: int, iy: int|
                {
                    let co = old(self).coords_of(x_old as int, y_old as int);
                    let cn = old(self).coords_of(x_new as int, y_new as int);
                    if (ix, iy) == co {
                        is_swap_removal(old(self).bucket(ix, iy), #[trigger] final(self).bucket(ix, iy), entity)
                    } else if (ix, iy) == cn {
                        final(self).bucket(ix, iy) == old(self).bucket(ix, iy).push(entity)
                    } else {
                        final(self).bucket(ix, iy) == old(self).bucket(ix, iy)
                    }
                },
            old(self).coords_of(x_old as int, y_old as int) != old(self).coords_of(
                x_new as int,
                y_new as int,
            ) ==> {
                let co = old(self).coords_of(x_old as int, y_old as int);
                let cn = old(self).coords_of(x_new as int, y_new as int);
                &&& final(self).bucket(co.0, co.1).to_multiset() == old(self).bucket(
                    co.0,
                    co.1,
                ).to_multiset().remove(entity)
                &&& final(self).bucket(cn.0, cn.1).to_multiset() == old(self).bucket(
                    cn.0,
                    cn.1,
                ).to_multiset().insert(entity)
            },
            forall|pos: Seq<Vec2>|
                #[trigger] old(self).index_matches(pos) && (entity as int) < pos.len() && pos[entity as int]
                    == (Vec2 { x: x_old, y: y_old }) ==> final(self).index_matches(
                    pos.update(entity as int, (Vec2 { x: x_new, y: y_new })),
                ),
    {
        let ghost old_r = *self;
        let old_bucket = self.bucket_coords(x_old, y_old);
        let new_bucket = self.bucket_coords(x_new, y_new);
        if old_bucket.0 == new_bucket.0 && old_bucket.1 == new_bucket.1 {
            proof {
                assert forall|pos: Seq<Vec2>|
                    #[trigger] old_r.index_matches(pos) && (entity as int) < pos.len() && pos[entity as int]
                        == (Vec2 { x: x_old, y: y_old }) implies self.index_matches(
                    pos.update(entity as int, (Vec2 { x: x_new, y: y_new })),
                ) by {
                    SimRegion::lemma_move_keeps_index(&old_r, self, pos, entity, Vec2 { x: x_old, y: y_old }, Vec2 { x: x_new, y: y_new });
                }
            }
            return;
        }
        self.remove_entity(entity, x_old, y_old);
        let ghost mid = *self;
        self.insert_entity(entity, x_new, y_new);
        proof {
            let co = old_r.coords_of(x_old as int, y_old as int);
            let cn = old_r.coords_of(x_new as int, y_new as int);
            assert(mid.bucket(cn.0, cn.1) == old_r.bucket(cn.0, cn.1));
            assert(self.bucket(cn.0, cn.1) == mid.bucket(cn.0, cn.1).push(entity));
            vstd::seq_lib::to_multiset_build(mid.bucket(cn.0, cn.1), entity);
            assert(self.bucket(co.0, co.1) == mid.bucket(co.0, co.1));
            assert forall|pos: Seq<Vec2>|
                #[trigger] old_r.index_matches(pos) && (entity as int) < pos.len() && pos[entity as int]
                    == (Vec2 { x: x_old, y: y_old }) implies self.index_matches(
                pos.update(entity as int, (Vec2 { x: x_new, y: y_new })),
            ) by {
                SimRegion::lemma_move_keeps_index(&old_r, self, pos, entity, Vec2 { x: x_old, y: y_old }, Vec2 { x: x_new, y: y_new });
            }
        }
    }
    proof fn lemma_gather_step(&self, keys: Seq<(int, int)>, i: int)
        requires
            0 <= i < keys.len(),
        ensures
            self.gather(keys.take(i + 1)) == self.gather(keys.take(i)) + self.bucket(
                keys[i].0,
                keys[i].1,
            ),
    {
        assert(keys.take(i + 1).drop_last() =~= keys.take(i));
    }

    /// Every handle in every bucket of the 3 x 3 block around bucket
    /// `(ix, iy)`, the blocks's buckets folded across the domain's edges.
    pub fn get_entities(&self, bucket: (i64, i64)) -> (r: Vec<usize>)
        requires
            self.wf(),
            -QUERY_LIMIT < bucket.0 < QUERY_LIMIT,
            -QUERY_LIMIT < bucket.1 < QUERY_LIMIT,
        ensures
            r@ == self.neighbors(bucket.0 as int, bucket.1 as int),
    {
        let (ix, iy) = bucket;
        let mut keys: Vec<(i64, i64)> = Vec::new();
        let mut xoff: i64 = -1;
        while xoff <= 1
            invariant
                -1 <= xoff <= 2,
                self.wf(),
                -QUERY_LIMIT < ix < QUERY_LIMIT,
                -QUERY_LIMIT < iy < QUERY_LIMIT,
                keys_view(keys@) == (if xoff == -1 {
                    Seq::empty()
                } else if xoff == 0 {
                    self.wrapped_buckets(ix - 1, iy - 1) + self.wrapped_buckets(ix - 1, iy as int)
                        + self.wrapped_buckets(ix - 1, iy + 1)
                } else if xoff == 1 {
                    self.wrapped_buckets(ix - 1, iy - 1) + self.wrapped_buckets(ix - 1, iy as int)
                        + self.wrapped_buckets(ix - 1, iy + 1) + self.wrapped_buckets(ix as int, iy - 1)
                        + self.wrapped_buckets(ix as int, iy as int) + self.wrapped_buckets(ix as int, iy + 1)
                } else {
                    self.neighbor_keys(ix as int, iy as int)
                }),
                forall|j: int|
                    0 <= j < keys@.len() ==> -2 * QUERY_LIMIT <= (#[trigger] keys@[j]).0 <= 2
                        * QUERY_LIMIT && -2 * QUERY_LIMIT <= keys@[j].1 <= 2 * QUERY_LIMIT,
            decreases 2 - xoff,
        {
            let mut yoff: i64 = -1;
            let ghost start = keys_view(keys@);
            while yoff <= 1
                invariant
                    -1 <= xoff <= 1,
                    -1 <= yoff <= 2,
                    self.wf(),
                    -QUERY_LIMIT < ix < QUERY_LIMIT,
                    -QUERY_LIMIT < iy < QUERY_LIMIT,
                    keys_view(keys@) == (if yoff == -1 {
                        start
                    } else if yoff == 0 {
                        start + self.wrapped_buckets(ix + xoff, iy - 1)
                    } else if yoff == 1 {
                        start + self.wrapped_buckets(ix + xoff, iy - 1) + self.wrapped_buckets(
                            ix + xoff,
                            iy as int,
                        )
                    } else {
                        start + self.wrapped_buckets(ix + xoff, iy - 1) + self.wrapped_buckets(
                            ix + xoff,
                            iy as int,
                        ) + self.wrapped_buckets(ix + xoff, iy + 1)
                    }),
                    forall|j: int|
                        0 <= j < keys@.len() ==> -2 * QUERY_LIMIT <= (#[trigger] keys@[j]).0 <= 2
                            * QUERY_LIMIT && -2 * QUERY_LIMIT <= keys@[j].1 <= 2 * QUERY_LIMIT,
                decreases 2 - yoff,
            {
                let mut wrapped = self.get_wrapped_buckets(ix + xoff, iy + yoff);
                let ghost before = keys@;
                let ghost w = wrapped@;
                keys.append(&mut wrapped);
                proof {
                    lemma_keys_view_append(before, w);
                    assert forall|j: int| 0 <= j < keys@.len() implies -2 * QUERY_LIMIT <= (
                    #[trigger] keys@[j]).0 <= 2 * QUERY_LIMIT && -2 * QUERY_LIMIT <= keys@[j].1 <= 2
                        * QUERY_LIMIT by {
                        if j >= before.len() {
                            assert(keys@[j] == w[j - before.len()]);
                        } else {
                            assert(keys@[j] == before[j]);
                        }
                    }
                }
                yoff = yoff + 1;
            }
            xoff = xoff + 1;
        }
        let ghost kv = keys_view(keys@);
        let mut result: Vec<usize> = Vec::new();
        let mut i: usize = 0;
        while i < keys.len()
            invariant
                i <= keys.len(),
                kv == keys_view(keys@),
                kv == self.neighbor_keys(ix as int, iy as int),
                result@ == self.gather(kv.take(i as int)),
                forall|j: int|
                    0 <= j < keys@.len() ==> -2 * QUERY_LIMIT <= (#[trigger] keys@[j]).0 <= 2
                        * QUERY_LIMIT && -2 * QUERY_LIMIT <= keys@[j].1 <= 2 * QUERY_LIMIT,
            decreases keys.len() - i,
        {
            let (kx, ky) = keys[i];
            assert(keys@[i as int] == (kx, ky));
            let key = key_of(kx, ky);
            proof {
                self.lemma_gather_step(kv, i as int);
                lemma_bucket_key_bounds(kx as int, ky as int);
            }
            match self.index.get(&key) {
                Some(b) => {
                    let ghost start = result@;
                    let mut j: usize = 0;
                    while j < b.len()
                        invariant
                            j <= b.len(),
                            result@ == start + b@.take(j as int),
                        decreases b.len() - j,
                    {
                        result.push(b[j]);
                        assert(b@.take(j + 1) =~= b@.take(j as int).push(b@[j as int]));
                        j = j + 1;
                    }
                    assert(b@.take(b.len() as int) =~= b@);
                },
                None => {},
            }
            i = i + 1;
        }
        assert(kv.take(kv.len() as int) =~= kv);
        result
    }

    /// The neighbourhood query around the bucket of position `(x, y)`.
    pub fn get_entities_by_position(&self, x: i64, y: i64) -> (r: Vec<usize>)
        requires
            self.wf(),
            position_in_range(x as int, y as int),
        ensures
            r@ == self.neighbors_of_position(x as int, y as int),
    {
        self.get_entities(self.bucket_coords(x, y))
    }
}

/// Rounding commutes with negation.
pub proof fn lemma_round_div_neg(a: int, b: int)
    requires
        b > 0,
    ensures
        round_div(-a, b) == -round_div(a, b),
{
    if a == 0 {
        assert(b / (2 * b) == 0) by (nonlinear_arith)
            requires
                b > 0,
        ;
    }
}

/// A point lies in the closed domain `[-hw, hw] x [-hh, hh]`.
pub open spec fn in_domain(region: &SimRegion, p: Vec2) -> bool {
    &&& -region.top_right.x <= p.x <= region.top_right.x
    &&& -region.top_right.y <= p.y <= region.top_right.y
}

/// Between two points of the domain, the corrected delta is never longer than
/// half the domain along either axis: it is the shortest way round the torus.
pub proof fn lemma_corrected_delta_within_half_extents(region: &SimRegion, p: Vec2, q: Vec2)
    requires
        region.wf(),
        in_domain(region, p),
        in_domain(region, q),
    ensures
        abs((q.x - p.x) + wrap_adjust(q.x - p.x, region.top_right.x as int))
            <= region.top_right.x,
        abs((q.y - p.y) + wrap_adjust(q.y - p.y, region.top_right.y as int))
            <= region.top_right.y,
{
}

impl SimRegion {
    proof fn lemma_gather_contains(&self, keys: Seq<(int, int)>, k: (int, int), h: usize)
        requires
            keys.contains(k),
            self.bucket(k.0, k.1).contains(h),
        ensures
            self.gather(keys).contains(h),
        decreases keys.len(),
    {
        let n = keys.len();
        let b = self.bucket(keys.last().0, keys.last().1);
        if keys.last() == k {
            let j = choose|j: int| 0 <= j < b.len() && b[j] == h;
            assert(self.gather(keys)[self.gather(keys.drop_last()).len() + j] == h);
        } else {
            let m = choose|m: int| 0 <= m < n && keys[m] == k;
            assert(m != n - 1);
            assert(keys.drop_last()[m] == k);
            self.lemma_gather_contains(keys.drop_last(), k, h);
            let j = choose|j: int|
                0 <= j < self.gather(keys.drop_last()).len() && self.gather(keys.drop_last())[j]
                    == h;
            assert(self.gather(keys)[j] == h);
        }
    }

    /// Every handle a neighbourhood query returns is a particle's.
    pub proof fn lemma_gather_indexed(&self, pos: Seq<Vec2>, keys: Seq<(int, int)>)
        requires
            self.index_matches(pos),
        ensures
            forall|k: int| 0 <= k < self.gather(keys).len() ==> (#[trigger] self.gather(keys)[k] as int)
                < pos.len(),
        decreases keys.len(),
    {
        if keys.len() > 0 {
            self.lemma_gather_indexed(pos, keys.drop_last());
            let front = self.gather(keys.drop_last());
            let b = self.bucket(keys.last().0, keys.last().1);
            assert forall|k: int| 0 <= k < self.gather(keys).len() implies (
            #[trigger] self.gather(keys)[k] as int) < pos.len() by {
                if k < front.len() {
                    assert(self.gather(keys)[k] == front[k]);
                } else {
                    assert(self.gather(keys)[k] == b[k - front.len()]);
                }
            }
        }
    }

    proof fn lemma_neighbor_keys_contain_center(&self, ix: int, iy: int, j: int)
        requires
            0 <= j < self.wrapped_buckets(ix, iy).len(),
        ensures
            self.neighbor_keys(ix, iy).contains(self.wrapped_buckets(ix, iy)[j]),
    {
        let c1 = self.wrapped_buckets(ix - 1, iy - 1) + self.wrapped_buckets(ix - 1, iy)
            + self.wrapped_buckets(ix - 1, iy + 1) + self.wrapped_buckets(ix, iy - 1);
        let c2 = c1 + self.wrapped_buckets(ix, iy);
        let c3 = c2 + self.wrapped_buckets(ix, iy + 1) + self.wrapped_buckets(ix + 1, iy - 1)
            + self.wrapped_buckets(ix + 1, iy) + self.wrapped_buckets(ix + 1, iy + 1);
        let at = c1.len() + j;
        assert(c2[at] == self.wrapped_buckets(ix, iy)[j]);
        assert(c3 == self.neighbor_keys(ix, iy));
        assert(c3[at] == c2[at]);
    }
}

/// Two particles on mirrored edges of the domain, at equal height, see each
/// other through the wrapped neighbourhood query. The first one's `x` must
/// round to the outermost bucket column; a position just inside the edge whose
/// bucket is the one before it is not covered.
pub proof fn lemma_mirrored_edge_neighbors(region: &SimRegion, pos: Seq<Vec2>, a: int, b: int)
    requires
        region.wf(),
        region.index_matches(pos),
        0 <= a < pos.len(),
        0 <= b < pos.len(),
        position_in_range(pos[a].x as int, pos[a].y as int),
        pos[b].x == -pos[a].x,
        pos[b].y == pos[a].y,
        round_div(pos[a].x as int, region.granularity as int) == round_div(
            region.top_right.x as int,
            region.granularity as int,
        ),
    ensures
        region.neighbors_of_position(pos[a].x as int, pos[a].y as int).contains(b as usize),
        region.neighbors_of_position(pos[b].x as int, pos[b].y as int).contains(a as usize),
{
    let g = region.granularity as int;
    let hw = region.top_right.x as int;
    let (ix, iy) = region.coords_of(pos[a].x as int, pos[a].y as int);
    lemma_round_div_neg(pos[a].x as int, g);
    lemma_round_div_neg(hw, g);
    assert(region.coords_of(pos[b].x as int, pos[b].y as int) == (-ix, iy));
    assert(region.bucket_at(pos[a]).contains(a as usize));
    assert(region.bucket_at(pos[b]).contains(b as usize));
    assert(region.bucket(ix, iy).contains(a as usize));
    assert(region.bucket(-ix, iy).contains(b as usize));
    assert(region.wrapped_buckets(ix, iy)[1] == (-ix, iy));
    region.lemma_neighbor_keys_contain_center(ix, iy, 1);
    region.lemma_gather_contains(region.neighbor_keys(ix, iy), (-ix, iy), b as usize);
    assert(region.wrapped_buckets(-ix, iy)[1] == (ix, iy));
    region.lemma_neighbor_keys_contain_center(-ix, iy, 1);
    region.lemma_gather_contains(region.neighbor_keys(-ix, iy), (ix, iy), a as usize);
}

/// Where the index matches the positions, a particle is found in the bucket of
/// its position and in no other.
pub proof fn lemma_indexed_bucket_is_position_bucket(
    region: &SimRegion,
    pos: Seq<Vec2>,
    h: int,
    ix: int,
    iy: int,
)
    requires
        region.index_matches(pos),
        0 <= h < pos.len(),
    ensures
        region.bucket_at(pos[h]).contains(h as usize),
        region.bucket(ix, iy).contains(h as usize) <==> (ix, iy) == region.coords_of(
            pos[h].x as int,
            pos[h].y as int,
        ),
{
    assert(region.bucket_at(pos[h]).contains(h as usize));
    if region.bucket(ix, iy).contains(h as usize) {
        let j = choose|j: int|
            0 <= j < region.bucket(ix, iy).len() && region.bucket(ix, iy)[j] == h as usize;
        assert(region.bucket(ix, iy)[j] == h as usize);
    }
}

} // verus!
