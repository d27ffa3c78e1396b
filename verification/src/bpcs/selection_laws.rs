//! What holds of every selection: the planes handed out are planes of the
//! image, complex enough, and no plane is handed out twice.

use crate::bpcs::alpha::Alpha;
use crate::bpcs::bit_plane::{is_complex, plane_at, valid_coord, PlaneCoord};
use crate::bpcs::plane_selection::{
    accepted_at, accepted_channels, accepted_columns, accepted_rows, coord_of, draw,
    draw_rearranges, lemma_count_marks_of, lemma_sweep_marked_len, marks_of, swap_removed,
    sweep_marked, Selection, SelectorModel,
};
use crate::bpcs::random::{is_permutation, permuted, shuffle_outcome};
use crate::image_utils::Raster;
use vstd::prelude::*;

verus! {

/// Whether `coord` names a plane of `image` at `bit_index` that is complex
/// enough for `min_alpha`.
pub open spec fn coord_ok(
    image: Raster,
    min_alpha: Alpha,
    coord: PlaneCoord,
    bit_index: int,
) -> bool {
    &&& coord.3 == bit_index
    &&& valid_coord(image.width, image.height, coord)
    &&& is_complex(plane_at(image, coord), min_alpha)
}

/// Whether `pool` can be the pool of `bit_index`: it lists complex planes of
/// `image` at that bit index, none of them twice.
pub open spec fn pool_ok(
    image: Raster,
    min_alpha: Alpha,
    pool: Seq<PlaneCoord>,
    bit_index: int,
) -> bool {
    &&& pool.no_duplicates()
    &&& forall|i: int|
        0 <= i < pool.len() ==> coord_ok(image, min_alpha, #[trigger] pool[i], bit_index)
}

/// Whether the sides of `image` fit in 32 bits, as those of every image in
/// memory do.
pub open spec fn fits(image: Raster) -> bool {
    image.width <= u32::MAX && image.height <= u32::MAX
}

proof fn lemma_accepted_channels_ok(
    image: Raster,
    min_alpha: Alpha,
    bit_index: u8,
    bx: int,
    by: int,
    n: nat,
)
    requires
        fits(image),
        bit_index < 8,
        0 <= bx < image.width / 8,
        0 <= by < image.height / 8,
        n <= 3,
    ensures
        pool_ok(
            image,
            min_alpha,
            accepted_channels(image, min_alpha, bit_index, bx, by, n),
            bit_index as int,
        ),
        forall|i: int|
            0 <= i < accepted_channels(image, min_alpha, bit_index, bx, by, n).len() ==> {
                let c = #[trigger] accepted_channels(image, min_alpha, bit_index, bx, by, n)[i];
                c.0 == 8 * bx && c.1 == 8 * by && c.2 < n
            },
    decreases n,
{
    if n > 0 {
        lemma_accepted_channels_ok(image, min_alpha, bit_index, bx, by, (n - 1) as nat);
    }
}

proof fn lemma_accepted_rows_ok(image: Raster, min_alpha: Alpha, bit_index: u8, bx: int, n: nat)
    requires
        fits(image),
        bit_index < 8,
        0 <= bx < image.width / 8,
        n <= image.height / 8,
    ensures
        pool_ok(
            image,
            min_alpha,
            accepted_rows(image, min_alpha, bit_index, bx, n),
            bit_index as int,
        ),
        forall|i: int|
            0 <= i < accepted_rows(image, min_alpha, bit_index, bx, n).len() ==> {
                let c = #[trigger] accepted_rows(image, min_alpha, bit_index, bx, n)[i];
                c.0 == 8 * bx && c.1 < 8 * n
            },
    decreases n,
{
    if n > 0 {
        lemma_accepted_rows_ok(image, min_alpha, bit_index, bx, (n - 1) as nat);
        lemma_accepted_channels_ok(image, min_alpha, bit_index, bx, n - 1, 3);
        let before = accepted_rows(image, min_alpha, bit_index, bx, (n - 1) as nat);
        let block = accepted_channels(image, min_alpha, bit_index, bx, n - 1, 3);
        lemma_concat_no_duplicates(before, block);
    }
}

proof fn lemma_accepted_columns_ok(image: Raster, min_alpha: Alpha, bit_index: u8, n: nat)
    requires
        fits(image),
        bit_index < 8,
        n <= image.width / 8,
    ensures
        pool_ok(
            image,
            min_alpha,
            accepted_columns(image, min_alpha, bit_index, n),
            bit_index as int,
        ),
        forall|i: int|
            0 <= i < accepted_columns(image, min_alpha, bit_index, n).len() ==> (
            #[trigger] accepted_columns(image, min_alpha, bit_index, n)[i]).0 < 8 * n,
    decreases n,
{
    if n > 0 {
        lemma_accepted_columns_ok(image, min_alpha, bit_index, (n - 1) as nat);
        lemma_accepted_rows_ok(image, min_alpha, bit_index, n - 1, image.height / 8);
        let before = accepted_columns(image, min_alpha, bit_index, (n - 1) as nat);
        let column = accepted_rows(image, min_alpha, bit_index, n - 1, image.height / 8);
        lemma_concat_no_duplicates(before, column);
    }
}

/// Two lists without duplicates that share no item make a list without
/// duplicates.
pub proof fn lemma_concat_no_duplicates<T>(a: Seq<T>, b: Seq<T>)
    requires
        a.no_duplicates(),
        b.no_duplicates(),
        forall|i: int, j: int| 0 <= i < a.len() && 0 <= j < b.len() ==> a[i] != b[j],
    ensures
        (a + b).no_duplicates(),
{
    let both = a + b;
    assert forall|i: int, j: int|
        0 <= i < both.len() && 0 <= j < both.len() && i != j implies both[i] != both[j] by {
        if i < a.len() && j < a.len() {
        } else if i >= a.len() && j >= a.len() {
            assert(b[i - a.len()] != b[j - a.len()]);
        } else if i < a.len() {
            assert(a[i] != b[j - a.len()]);
        } else {
            assert(a[j] != b[i - a.len()]);
        }
    }
}

/// The complex planes of a bit index are planes of the image at that bit
/// index, complex enough, and listed once each.
pub proof fn lemma_accepted_at_ok(image: Raster, min_alpha: Alpha, bit_index: u8)
    requires
        fits(image),
        bit_index < 8,
    ensures
        pool_ok(image, min_alpha, accepted_at(image, min_alpha, bit_index), bit_index as int),
{
    lemma_accepted_columns_ok(image, min_alpha, bit_index, image.width / 8);
}

/// Whether `taken` and `rest` divide the items of `whole` between them:
/// neither holds an item twice, none is in both, and together they are as
/// many as `whole`.
pub open spec fn splits<T>(whole: Seq<T>, taken: Seq<T>, rest: Seq<T>) -> bool {
    &&& taken.no_duplicates()
    &&& rest.no_duplicates()
    &&& forall|i: int| 0 <= i < taken.len() ==> whole.contains(#[trigger] taken[i])
    &&& forall|i: int| 0 <= i < rest.len() ==> whole.contains(#[trigger] rest[i])
    &&& forall|i: int, j: int|
        0 <= i < taken.len() && 0 <= j < rest.len() ==> #[trigger] taken[i] != #[trigger] rest[j]
    &&& taken.len() + rest.len() == whole.len()
}

/// Taking an item out of a list without duplicates leaves a list without
/// duplicates that holds the other items and not the one taken.
pub proof fn lemma_swap_removed<T>(items: Seq<T>, i: int)
    requires
        items.no_duplicates(),
        0 <= i < items.len(),
    ensures
        swap_removed(items, i).no_duplicates(),
        swap_removed(items, i).len() == items.len() - 1,
        forall|j: int|
            0 <= j < swap_removed(items, i).len() ==> items.contains(
                #[trigger] swap_removed(items, i)[j],
            ) && swap_removed(items, i)[j] != items[i],
{
    let after = swap_removed(items, i);
    let last = items.len() - 1;
    assert forall|j: int| 0 <= j < after.len() implies items.contains(#[trigger] after[j])
        && after[j] != items[i] by {
        if j == i {
            assert(after[j] == items[last]);
        } else {
            assert(after[j] == items[j]);
        }
    }
    assert forall|j: int, k: int|
        0 <= j < after.len() && 0 <= k < after.len() && j != k implies after[j] != after[k] by {
        let from_j = if j == i {
            last
        } else {
            j
        };
        let from_k = if k == i {
            last
        } else {
            k
        };
        assert(after[j] == items[from_j] && after[k] == items[from_k]);
    }
}

/// A sweep divides the items between those taken out and those left.
pub proof fn lemma_sweep_splits<T>(items: Seq<T>, marks: Seq<bool>, n: nat)
    requires
        items.no_duplicates(),
        n <= items.len(),
    ensures
        splits(items, sweep_marked(items, marks, n).0, sweep_marked(items, marks, n).1),
    decreases n,
{
    if n == 0 {
        assert forall|i: int| 0 <= i < items.len() implies items.contains(#[trigger] items[i]) by {}
    } else if marks[n - 1] {
        let after = swap_removed(items, n - 1);
        lemma_swap_removed(items, n - 1);
        lemma_sweep_splits(after, marks, (n - 1) as nat);
        let inner = sweep_marked(after, marks, (n - 1) as nat);
        let taken = seq![items[n - 1]] + inner.0;
        let rest = inner.1;
        assert forall|i: int| 0 <= i < inner.0.len() implies #[trigger] inner.0[i] != items[n - 1]
            && items.contains(inner.0[i]) by {
            assert(after.contains(inner.0[i]));
            let j = choose|j: int| 0 <= j < after.len() && after[j] == inner.0[i];
            assert(items.contains(after[j]));
        }
        assert forall|i: int| 0 <= i < rest.len() implies #[trigger] rest[i] != items[n - 1]
            && items.contains(rest[i]) by {
            assert(after.contains(rest[i]));
            let j = choose|j: int| 0 <= j < after.len() && after[j] == rest[i];
            assert(items.contains(after[j]));
        }
        assert(taken.no_duplicates()) by {
            assert forall|i: int, j: int|
                0 <= i < taken.len() && 0 <= j < taken.len() && i != j implies taken[i]
                != taken[j] by {
                if i > 0 && j > 0 {
                    assert(inner.0[i - 1] != inner.0[j - 1]);
                } else if i == 0 {
                    assert(taken[j] == inner.0[j - 1]);
                } else {
                    assert(taken[i] == inner.0[i - 1]);
                }
            }
        }
        assert forall|i: int| 0 <= i < taken.len() implies items.contains(#[trigger] taken[i]) by {
            if i == 0 {
                assert(items[n - 1] == taken[0]);
            } else {
                assert(taken[i] == inner.0[i - 1]);
            }
        }
        assert forall|i: int, j: int|
            0 <= i < taken.len() && 0 <= j < rest.len() implies #[trigger] taken[i]
            != #[trigger] rest[j] by {
            if i > 0 {
                assert(taken[i] == inner.0[i - 1]);
            }
        }
    } else {
        lemma_sweep_splits(items, marks, (n - 1) as nat);
    }
}

/// A rearranged list holds the items of the list, and none twice if the
/// list holds none twice.
pub proof fn lemma_permuted<T>(items: Seq<T>, order: Seq<int>)
    requires
        is_permutation(order, items.len()),
    ensures
        permuted(items, order).len() == items.len(),
        forall|i: int|
            0 <= i < items.len() ==> items.contains(#[trigger] permuted(items, order)[i]),
        items.no_duplicates() ==> permuted(items, order).no_duplicates(),
{
    let after = permuted(items, order);
    assert forall|i: int| 0 <= i < items.len() implies items.contains(#[trigger] after[i]) by {
        assert(after[i] == items[order[i]]);
    }
    if items.no_duplicates() {
        assert forall|i: int, j: int|
            0 <= i < after.len() && 0 <= j < after.len() && i != j implies after[i] != after[j] by {
            if i < j {
                assert(order[i] != order[j]);
            } else {
                assert(order[j] != order[i]);
            }
        }
    }
}

/// Drawing `n` items from a list without duplicates divides the list between
/// the `n` items drawn and the others.
pub proof fn lemma_draw_splits<T>(items: Seq<T>, n: nat, rng: Seq<u8>)
    requires
        items.no_duplicates(),
        n <= items.len(),
        draw_rearranges(items, n, rng),
    ensures
        splits(items, draw(items, n, rng).taken, draw(items, n, rng).rest),
        draw(items, n, rng).taken.len() == n,
{
    let first = shuffle_outcome(rng, items.len());
    let marks = marks_of(first.0, n, items.len());
    let swept = sweep_marked(items, marks, items.len());
    let second = shuffle_outcome(first.1, swept.0.len());
    lemma_count_marks_of(first.0, n, items.len());
    lemma_sweep_marked_len(items, marks, items.len());
    lemma_sweep_splits(items, marks, items.len());
    lemma_permuted(swept.0, second.0);
    let taken = permuted(swept.0, second.0);
    assert forall|i: int| 0 <= i < taken.len() implies items.contains(#[trigger] taken[i]) by {
        assert(swept.0.contains(taken[i]));
        let j = choose|j: int| 0 <= j < swept.0.len() && swept.0[j] == taken[i];
        assert(items.contains(swept.0[j]));
    }
    assert forall|i: int, j: int|
        0 <= i < taken.len() && 0 <= j < swept.1.len() implies #[trigger] taken[i]
        != #[trigger] swept.1[j] by {
        assert(swept.0.contains(taken[i]));
        let k = choose|k: int| 0 <= k < swept.0.len() && swept.0[k] == taken[i];
        assert(swept.0[k] != swept.1[j]);
    }
}

/// Whether `model` can be a selector: its image fits, it has a pool for each
/// of the eight bit indices, and each pool that was filled lists complex
/// planes of its bit index, none of them twice.
pub open spec fn model_ok(model: SelectorModel) -> bool {
    &&& fits(model.image)
    &&& model.pools.len() == 8
    &&& forall|b: int|
        0 <= b < 8 ==> (#[trigger] model.pools[b] matches Some(pool) ==> pool_ok(
            model.image,
            model.min_alpha,
            pool,
            b,
        ))
}

/// What holds of a selection from `origin` that found or missed `total`
/// planes: the planes found are complex planes of the image that `origin`
/// could still hand out and the selector afterwards no longer can, none of
/// them found twice; and the selector afterwards can hand out only what
/// `origin` could.
pub open spec fn selection_ok(origin: SelectorModel, selection: Selection, total: nat) -> bool {
    &&& model_ok(selection.model)
    &&& selection.model.image == origin.image
    &&& selection.model.min_alpha == origin.min_alpha
    &&& selection.planes.no_duplicates()
    &&& forall|i: int|
        0 <= i < selection.planes.len() ==> {
            let c = #[trigger] selection.planes[i];
            &&& c.3 < 8
            &&& coord_ok(origin.image, origin.min_alpha, c, c.3 as int)
            &&& origin.pool(c.3 as int).contains(c)
            &&& !selection.model.pool(c.3 as int).contains(c)
        }
    &&& forall|b: int, j: int|
        0 <= b < 8 && 0 <= j < selection.model.pool(b).len() ==> origin.pool(b).contains(
            #[trigger] selection.model.pool(b)[j],
        )
    &&& selection.planes.len() + selection.missing == total
}

/// Each pool of a selector, filled or not, lists complex planes of its bit
/// index, none of them twice.
pub proof fn lemma_pool_ok(model: SelectorModel, b: int)
    requires
        model_ok(model),
        0 <= b < 8,
    ensures
        pool_ok(model.image, model.min_alpha, model.pool(b), b),
{
    if model.pools[b] is None {
        lemma_accepted_at_ok(model.image, model.min_alpha, b as u8);
    }
}

/// A selector that has looked at no plane yet is a selector.
pub proof fn lemma_init_ok(image: Raster, min_alpha: Alpha, seed: Seq<u8>)
    requires
        fits(image),
    ensures
        model_ok(SelectorModel::init(image, min_alpha, seed)),
{
}

proof fn lemma_gather(
    origin: SelectorModel,
    model: SelectorModel,
    level: nat,
    need: nat,
    found: Seq<PlaneCoord>,
)
    requires
        model_ok(origin),
        model_ok(model),
        level <= 8,
        model.image == origin.image,
        model.min_alpha == origin.min_alpha,
        forall|b: int| 0 <= b < 8 - level ==> model.pools[b] == origin.pools[b],
        forall|b: int| 8 - level <= b < 8 ==> (#[trigger] model.pool(b)).len() == 0,
        found.no_duplicates(),
        forall|i: int|
            0 <= i < found.len() ==> {
                let c = #[trigger] found[i];
                &&& 8 - level <= c.3 < 8
                &&& coord_ok(origin.image, origin.min_alpha, c, c.3 as int)
                &&& origin.pool(c.3 as int).contains(c)
            },
        model.gather_rearranges(level, need),
    ensures
        selection_ok(origin, model.gather(level, need, found), found.len() + need),
    decreases 8 - level,
{
    let image = origin.image;
    let min_alpha = origin.min_alpha;
    if level >= 8 {
        let selection = model.gather(level, need, found);
        assert forall|i: int| 0 <= i < selection.planes.len() implies !selection.model.pool(
            (#[trigger] selection.planes[i]).3 as int,
        ).contains(selection.planes[i]) by {
            let c = selection.planes[i];
            assert(model.pool(c.3 as int).len() == 0);
        }
        assert forall|b: int, j: int|
            0 <= b < 8 && 0 <= j < selection.model.pool(b).len() implies origin.pool(b).contains(
            #[trigger] selection.model.pool(b)[j],
        ) by {
            assert(model.pool(b).len() == 0);
        }
    } else {
        let b = 7 - level;
        let pool = model.pool(b);
        assert(pool == origin.pool(b));
        lemma_pool_ok(model, b);
        if need < pool.len() {
            let drawn = draw(pool, need, model.rng);
            lemma_draw_splits(pool, need, model.rng);
            let after = model.with_pool(b, drawn.rest).with_rng(drawn.rng);
            let planes = found + drawn.taken;
            assert(model.gather(level, need, found) == (Selection {
                model: after,
                planes,
                missing: 0,
            }));
            assert forall|i: int| 0 <= i < drawn.taken.len() implies coord_ok(
                image,
                min_alpha,
                #[trigger] drawn.taken[i],
                b,
            ) by {
                let c = drawn.taken[i];
                assert(pool.contains(c));
                let j = choose|j: int| 0 <= j < pool.len() && pool[j] == c;
                assert(coord_ok(image, min_alpha, pool[j], b));
            }
            assert forall|i: int| 0 <= i < drawn.rest.len() implies coord_ok(
                image,
                min_alpha,
                #[trigger] drawn.rest[i],
                b,
            ) by {
                let c = drawn.rest[i];
                assert(pool.contains(c));
                let j = choose|j: int| 0 <= j < pool.len() && pool[j] == c;
                assert(coord_ok(image, min_alpha, pool[j], b));
            }
            assert(model_ok(after)) by {
                assert forall|k: int| 0 <= k < 8 implies (#[trigger] after.pools[k] matches Some(
                    p,
                ) ==> pool_ok(image, min_alpha, p, k)) by {
                    if k != b {
                        assert(after.pools[k] == model.pools[k]);
                    }
                }
            }
            lemma_concat_no_duplicates(found, drawn.taken);
            assert forall|i: int| 0 <= i < planes.len() implies {
                let c = #[trigger] planes[i];
                &&& c.3 < 8
                &&& coord_ok(image, min_alpha, c, c.3 as int)
                &&& origin.pool(c.3 as int).contains(c)
                &&& !after.pool(c.3 as int).contains(c)
            } by {
                let c = planes[i];
                if i < found.len() {
                    assert(c == found[i]);
                    assert(after.pools[c.3 as int] == model.pools[c.3 as int]);
                    assert(model.pool(c.3 as int).len() == 0);
                } else {
                    assert(c == drawn.taken[i - found.len()]);
                    assert(after.pool(b) == drawn.rest);
                    if drawn.rest.contains(c) {
                        let j = choose|j: int| 0 <= j < drawn.rest.len() && drawn.rest[j] == c;
                        assert(drawn.taken[i - found.len()] != drawn.rest[j]);
                    }
                }
            }
            assert forall|k: int, j: int|
                0 <= k < 8 && 0 <= j < after.pool(k).len() implies origin.pool(k).contains(
                #[trigger] after.pool(k)[j],
            ) by {
                if k == b {
                    assert(after.pool(k) == drawn.rest);
                    assert(pool.contains(drawn.rest[j]));
                } else {
                    assert(after.pools[k] == model.pools[k]);
                    if k < b {
                        assert(model.pools[k] == origin.pools[k]);
                        assert(origin.pool(k)[j] == after.pool(k)[j]);
                    } else {
                        assert(model.pool(k).len() == 0);
                    }
                }
            }
        } else {
            let after = model.with_pool(b, Seq::empty());
            let more = found + pool;
            assert(model_ok(after)) by {
                assert forall|k: int| 0 <= k < 8 implies (#[trigger] after.pools[k] matches Some(
                    p,
                ) ==> pool_ok(image, min_alpha, p, k)) by {
                    if k != b {
                        assert(after.pools[k] == model.pools[k]);
                    }
                }
            }
            assert forall|k: int| 0 <= k < 8 - (level + 1) implies after.pools[k]
                == origin.pools[k] by {
                assert(after.pools[k] == model.pools[k]);
            }
            assert forall|k: int| 8 - (level + 1) <= k < 8 implies (#[trigger] after.pool(k)).len()
                == 0 by {
                if k != b {
                    assert(after.pools[k] == model.pools[k]);
                    assert(model.pool(k).len() == 0);
                }
            }
            lemma_concat_no_duplicates(found, pool);
            assert forall|i: int| 0 <= i < more.len() implies {
                let c = #[trigger] more[i];
                &&& 8 - (level + 1) <= c.3 < 8
                &&& coord_ok(image, min_alpha, c, c.3 as int)
                &&& origin.pool(c.3 as int).contains(c)
            } by {
                if i < found.len() {
                    assert(more[i] == found[i]);
                } else {
                    assert(more[i] == pool[i - found.len()]);
                }
            }
            lemma_gather(origin, after, level + 1, (need - pool.len()) as nat, more);
        }
    }
}

/// Every selection that was made handed out complex planes of the image that
/// no selection had handed out before, none of them twice, and left the
/// selector with fewer planes to hand out, none of them new.
pub proof fn lemma_select(model: SelectorModel, n: nat)
    requires
        model_ok(model),
        model.select_rearranges(n),
    ensures
        selection_ok(model, model.select(n), n),
{
    assert forall|i: int| 0 <= i < model.pools.len() implies model.pools[i] == model.pools[i] by {}
    lemma_gather(model, model, 0, n, Seq::empty());
    let gathered = model.gather(0, n, Seq::empty());
    if gathered.missing == 0 {
        let outcome = shuffle_outcome(gathered.model.rng, gathered.planes.len());
        lemma_permuted(gathered.planes, outcome.0);
        let selection = model.select(n);
        assert(selection.model.pools == gathered.model.pools);
        assert forall|i: int| 0 <= i < selection.planes.len() implies {
            let c = #[trigger] selection.planes[i];
            &&& c.3 < 8
            &&& coord_ok(model.image, model.min_alpha, c, c.3 as int)
            &&& model.pool(c.3 as int).contains(c)
            &&& !selection.model.pool(c.3 as int).contains(c)
        } by {
            let c = selection.planes[i];
            assert(gathered.planes.contains(c));
            let j = choose|j: int| 0 <= j < gathered.planes.len() && gathered.planes[j] == c;
            assert(gathered.planes[j] == c);
            assert(selection.model.pool(c.3 as int) == gathered.model.pool(c.3 as int));
        }
        assert forall|b: int, j: int|
            0 <= b < 8 && 0 <= j < selection.model.pool(b).len() implies model.pool(b).contains(
            #[trigger] selection.model.pool(b)[j],
        ) by {
            assert(selection.model.pool(b) == gathered.model.pool(b));
        }
    }
}

/// The number of planes that the pools of the bit indices below `k` can
/// still hand out.
pub open spec fn pool_sum(model: SelectorModel, k: nat) -> nat
    decreases k,
{
    if k == 0 {
        0
    } else {
        pool_sum(model, (k - 1) as nat) + model.pool(k - 1).len()
    }
}

proof fn lemma_pool_sum_same(a: SelectorModel, b: SelectorModel, k: nat)
    requires
        forall|i: int| 0 <= i < k ==> a.pool(i) == b.pool(i),
    ensures
        pool_sum(a, k) == pool_sum(b, k),
    decreases k,
{
    if k > 0 {
        lemma_pool_sum_same(a, b, (k - 1) as nat);
    }
}

/// The planes that a selector can still hand out are those of its eight
/// pools.
pub proof fn lemma_available(model: SelectorModel)
    ensures
        model.available() == pool_sum(model, 8),
{
    reveal_with_fuel(pool_sum, 9);
}

proof fn lemma_gather_count(model: SelectorModel, level: nat, need: nat, found: Seq<PlaneCoord>)
    requires
        model.pools.len() == 8,
        level <= 8,
        model.gather_rearranges(level, need),
    ensures
        ({
            let selection = model.gather(level, need, found);
            let k = (8 - level) as nat;
            let have = pool_sum(model, k);
            &&& selection.missing == if need > have {
                need - have
            } else {
                0
            }
            &&& selection.planes.len() + selection.missing == found.len() + need
            &&& pool_sum(selection.model, k) == if need > have {
                0
            } else {
                have - need
            }
            &&& selection.model.pools.len() == 8
            &&& selection.model.image == model.image
            &&& selection.model.min_alpha == model.min_alpha
            &&& forall|b: int| k <= b < 8 ==> selection.model.pools[b] == model.pools[b]
        }),
    decreases 8 - level,
{
    if level < 8 {
        let b = 7 - level;
        let k = (8 - level) as nat;
        let pool = model.pool(b);
        if need < pool.len() {
            let drawn = draw(pool, need, model.rng);
            let after = model.with_pool(b, drawn.rest).with_rng(drawn.rng);
            lemma_count_marks_of(shuffle_outcome(model.rng, pool.len()).0, need, pool.len());
            lemma_sweep_marked_len(
                pool,
                marks_of(shuffle_outcome(model.rng, pool.len()).0, need, pool.len()),
                pool.len(),
            );
            assert(drawn.taken.len() == need);
            assert(drawn.rest.len() == pool.len() - need);
            assert forall|i: int| 0 <= i < k - 1 implies after.pool(i) == model.pool(i) by {
                assert(after.pools[i] == model.pools[i]);
            }
            lemma_pool_sum_same(after, model, (k - 1) as nat);
            assert(after.pool(b) == drawn.rest);
        } else {
            let after = model.with_pool(b, Seq::empty());
            lemma_gather_count(after, level + 1, (need - pool.len()) as nat, found + pool);
            let selection = model.gather(level, need, found);
            assert forall|i: int| 0 <= i < k - 1 implies after.pool(i) == model.pool(i) by {
                assert(after.pools[i] == model.pools[i]);
            }
            lemma_pool_sum_same(after, model, (k - 1) as nat);
            assert(selection.model.pools[b] == after.pools[b]);
            assert(selection.model.pool(b).len() == 0);
            assert forall|i: int| k <= i < 8 implies selection.model.pools[i]
                == model.pools[i] by {
                assert(selection.model.pools[i] == after.pools[i]);
            }
        }
    }
}

/// A selection succeeds exactly when as many planes as it asks for can
/// still be handed out; it then hands out that many and leaves that many
/// fewer. A selection that fails leaves none.
pub proof fn lemma_select_count(model: SelectorModel, n: nat)
    requires
        model.pools.len() == 8,
        model.select_rearranges(n),
    ensures
        model.select(n).missing == 0 <==> n <= model.available(),
        model.select(n).missing == 0 ==> model.select(n).planes.len() == n && model.select(
            n,
        ).model.available() == model.available() - n,
        model.select(n).missing != 0 ==> model.select(n).planes.len() == model.available()
            && model.select(n).model.available() == 0,
        model.select(n).model.pools.len() == 8,
{
    lemma_gather_count(model, 0, n, Seq::empty());
    lemma_available(model);
    lemma_available(model.select(n).model);
    let gathered = model.gather(0, n, Seq::empty());
    assert forall|i: int| 0 <= i < 8 implies model.select(n).model.pool(i) == gathered.model.pool(
        i,
    ) by {}
    lemma_pool_sum_same(model.select(n).model, gathered.model, 8);
}

/// Whether two images have the same complex planes at every bit index.
pub open spec fn same_accepted(a: Raster, b: Raster, min_alpha: Alpha) -> bool {
    forall|bit_index: u8|
        bit_index < 8 ==> #[trigger] accepted_at(a, min_alpha, bit_index) == accepted_at(
            b,
            min_alpha,
            bit_index,
        )
}

proof fn lemma_gather_other_image(
    model: SelectorModel,
    image: Raster,
    level: nat,
    need: nat,
    found: Seq<PlaneCoord>,
)
    requires
        same_accepted(model.image, image, model.min_alpha),
        model.pools.len() == 8,
        level <= 8,
    ensures
        model.with_image(image).gather(level, need, found) == (Selection {
            model: model.gather(level, need, found).model.with_image(image),
            ..model.gather(level, need, found)
        }),
        model.with_image(image).gather_rearranges(level, need) == model.gather_rearranges(
            level,
            need,
        ),
    decreases 8 - level,
{
    if level < 8 {
        let b = 7 - level;
        let other = model.with_image(image);
        assert(accepted_at(model.image, model.min_alpha, b as u8) == accepted_at(
            image,
            model.min_alpha,
            b as u8,
        ));
        assert(other.pool(b) == model.pool(b));
        let pool = model.pool(b);
        if need < pool.len() {
        } else {
            let after = model.with_pool(b, Seq::empty());
            assert(other.with_pool(b, Seq::empty()) == after.with_image(image));
            lemma_gather_other_image(
                after,
                image,
                level + 1,
                (need - pool.len()) as nat,
                found + pool,
            );
        }
    }
}

proof fn lemma_gather_pools_len(model: SelectorModel, level: nat, need: nat, found: Seq<PlaneCoord>)
    requires
        model.pools.len() == 8,
    ensures
        model.gather(level, need, found).model.pools.len() == 8,
        model.gather(level, need, found).model.image == model.image,
        model.gather(level, need, found).model.min_alpha == model.min_alpha,
    decreases 8 - level,
{
    if level < 8 {
        let b = 7 - level;
        let pool = model.pool(b);
        if need >= pool.len() {
            lemma_gather_pools_len(
                model.with_pool(b, Seq::empty()),
                level + 1,
                (need - pool.len()) as nat,
                found + pool,
            );
        }
    }
}

/// A selection leaves the selector with its image, its threshold and its
/// eight pools.
pub proof fn lemma_select_keeps(model: SelectorModel, n: nat)
    requires
        model.pools.len() == 8,
    ensures
        model.select(n).model.pools.len() == 8,
        model.select(n).model.image == model.image,
        model.select(n).model.min_alpha == model.min_alpha,
{
    lemma_gather_pools_len(model, 0, n, Seq::empty());
}

/// A selection depends on the image only through the complex planes of each
/// bit index: over an image with the same complex planes it hands out the
/// same planes in the same order.
pub proof fn lemma_select_other_image(model: SelectorModel, image: Raster, n: nat)
    requires
        same_accepted(model.image, image, model.min_alpha),
        model.pools.len() == 8,
    ensures
        model.with_image(image).select(n) == (Selection {
            model: model.select(n).model.with_image(image),
            ..model.select(n)
        }),
        model.with_image(image).select_rearranges(n) == model.select_rearranges(n),
{
    lemma_gather_other_image(model, image, 0, n, Seq::empty());
}

/// Two selectors made from the same image, threshold and seed hand out the
/// same planes in the same order when they are asked for the planes of the
/// length fields, of the conjugation map and of the message of the same
/// frame.
pub proof fn lemma_selection_is_deterministic(
    first: SelectorModel,
    second: SelectorModel,
    image: Raster,
    min_alpha: Alpha,
    seed: Seq<u8>,
    iv_count: nat,
    map_count: nat,
    message_count: nat,
)
    requires
        first == SelectorModel::init(image, min_alpha, seed),
        second == SelectorModel::init(image, min_alpha, seed),
    ensures
        first.select(iv_count).planes == second.select(iv_count).planes,
        first.select(iv_count).model.select(map_count).planes == second.select(
            iv_count,
        ).model.select(map_count).planes,
        first.select(iv_count).model.select(map_count).model.select(message_count).planes
            == second.select(iv_count).model.select(map_count).model.select(message_count).planes,
{
}

/// Whether the plane of `image` at `coord` is complex enough for `min_alpha`.
pub open spec fn complex_at(image: Raster, coord: PlaneCoord, min_alpha: Alpha) -> bool {
    is_complex(plane_at(image, coord), min_alpha)
}

/// Whether two images of the same size have their complex planes at the same
/// coordinates.
pub open spec fn same_complexity(a: Raster, b: Raster, min_alpha: Alpha) -> bool {
    &&& a.width == b.width
    &&& a.height == b.height
    &&& forall|coord: PlaneCoord|
        valid_coord(a.width, a.height, coord) ==> #[trigger] complex_at(a, coord, min_alpha)
            == complex_at(b, coord, min_alpha)
}

proof fn lemma_accepted_channels_same(
    a: Raster,
    b: Raster,
    min_alpha: Alpha,
    bit_index: u8,
    bx: int,
    by: int,
    n: nat,
)
    requires
        fits(a),
        same_complexity(a, b, min_alpha),
        bit_index < 8,
        0 <= bx < a.width / 8,
        0 <= by < a.height / 8,
        n <= 3,
    ensures
        accepted_channels(a, min_alpha, bit_index, bx, by, n) == accepted_channels(
            b,
            min_alpha,
            bit_index,
            bx,
            by,
            n,
        ),
    decreases n,
{
    if n > 0 {
        lemma_accepted_channels_same(a, b, min_alpha, bit_index, bx, by, (n - 1) as nat);
        let coord = coord_of(bx, by, n - 1, bit_index);
        assert(valid_coord(a.width, a.height, coord));
        assert(complex_at(a, coord, min_alpha) == complex_at(b, coord, min_alpha));
    }
}

proof fn lemma_accepted_rows_same(
    a: Raster,
    b: Raster,
    min_alpha: Alpha,
    bit_index: u8,
    bx: int,
    n: nat,
)
    requires
        fits(a),
        same_complexity(a, b, min_alpha),
        bit_index < 8,
        0 <= bx < a.width / 8,
        n <= a.height / 8,
    ensures
        accepted_rows(a, min_alpha, bit_index, bx, n) == accepted_rows(
            b,
            min_alpha,
            bit_index,
            bx,
            n,
        ),
    decreases n,
{
    if n > 0 {
        lemma_accepted_rows_same(a, b, min_alpha, bit_index, bx, (n - 1) as nat);
        lemma_accepted_channels_same(a, b, min_alpha, bit_index, bx, n - 1, 3);
    }
}

proof fn lemma_accepted_columns_same(a: Raster, b: Raster, min_alpha: Alpha, bit_index: u8, n: nat)
    requires
        fits(a),
        same_complexity(a, b, min_alpha),
        bit_index < 8,
        n <= a.width / 8,
    ensures
        accepted_columns(a, min_alpha, bit_index, n) == accepted_columns(
            b,
            min_alpha,
            bit_index,
            n,
        ),
    decreases n,
{
    if n > 0 {
        lemma_accepted_columns_same(a, b, min_alpha, bit_index, (n - 1) as nat);
        lemma_accepted_rows_same(a, b, min_alpha, bit_index, n - 1, a.height / 8);
    }
}

/// Images with their complex planes at the same coordinates have the same
/// complex planes at every bit index.
pub proof fn lemma_same_accepted(a: Raster, b: Raster, min_alpha: Alpha)
    requires
        fits(a),
        same_complexity(a, b, min_alpha),
    ensures
        same_accepted(a, b, min_alpha),
{
    assert forall|bit_index: u8| bit_index < 8 implies #[trigger] accepted_at(
        a,
        min_alpha,
        bit_index,
    ) == accepted_at(b, min_alpha, bit_index) by {
        lemma_accepted_columns_same(a, b, min_alpha, bit_index, a.width / 8);
    }
}

/// What holds of the three selections of a frame, made one after another:
/// each plane selected is a complex plane of the image, and no plane is
/// selected twice, in one selection or in two.
pub open spec fn frame_ok(
    image: Raster,
    min_alpha: Alpha,
    iv: Seq<PlaneCoord>,
    map: Seq<PlaneCoord>,
    message: Seq<PlaneCoord>,
) -> bool {
    &&& (iv + message + map).no_duplicates()
    &&& forall|i: int|
        0 <= i < (iv + message + map).len() ==> valid_coord(
            image.width,
            image.height,
            #[trigger] (iv + message + map)[i],
        ) && complex_at(image, (iv + message + map)[i], min_alpha)
}

/// The three regions of a frame lie on complex planes of the image and share
/// no plane.
pub proof fn lemma_frame_selections(start: SelectorModel, iv_count: nat, map_count: nat, n: nat)
    requires
        model_ok(start),
        start.select_rearranges(iv_count),
        start.select(iv_count).model.select_rearranges(map_count),
        start.select(iv_count).model.select(map_count).model.select_rearranges(n),
    ensures
        frame_ok(
            start.image,
            start.min_alpha,
            start.select(iv_count).planes,
            start.select(iv_count).model.select(map_count).planes,
            start.select(iv_count).model.select(map_count).model.select(n).planes,
        ),
{
    let first = start.select(iv_count);
    let second = first.model.select(map_count);
    let third = second.model.select(n);
    lemma_select(start, iv_count);
    lemma_select(first.model, map_count);
    lemma_select(second.model, n);
    let iv = first.planes;
    let map = second.planes;
    let message = third.planes;
    assert forall|i: int, j: int| 0 <= i < iv.len() && 0 <= j < message.len() implies iv[i]
        != message[j] by {
        let c = message[j];
        assert(second.model.pool(c.3 as int).contains(c));
        let k = choose|k: int|
            0 <= k < second.model.pool(c.3 as int).len() && second.model.pool(c.3 as int)[k] == c;
        assert(first.model.pool(c.3 as int).contains(second.model.pool(c.3 as int)[k]));
    }
    assert forall|i: int, j: int| 0 <= i < iv.len() && 0 <= j < map.len() implies iv[i]
        != map[j] by {
        let c = map[j];
        assert(first.model.pool(c.3 as int).contains(c));
    }
    assert forall|i: int, j: int| 0 <= i < message.len() && 0 <= j < map.len() implies message[i]
        != map[j] by {
        let c = message[i];
        assert(second.model.pool(c.3 as int).contains(c));
    }
    lemma_concat_no_duplicates(iv, message);
    assert forall|i: int, j: int|
        0 <= i < (iv + message).len() && 0 <= j < map.len() implies (iv + message)[i]
        != map[j] by {
        if i < iv.len() {
            assert((iv + message)[i] == iv[i]);
        } else {
            assert((iv + message)[i] == message[i - iv.len()]);
        }
    }
    lemma_concat_no_duplicates(iv + message, map);
    let all = iv + message + map;
    assert forall|i: int| 0 <= i < all.len() implies valid_coord(
        start.image.width,
        start.image.height,
        #[trigger] all[i],
    ) && complex_at(start.image, all[i], start.min_alpha) by {
        if i < iv.len() {
            assert(all[i] == iv[i]);
        } else if i < iv.len() + message.len() {
            assert(all[i] == message[i - iv.len()]);
        } else {
            assert(all[i] == map[i - iv.len() - message.len()]);
        }
    }
}

} // verus!
