//! Choosing the planes that carry a message: the complex planes of an image,
//! drawn without replacement in an order that the key decides.

use crate::bpcs::alpha::Alpha;
use crate::bpcs::bit_plane::{is_complex, plane_at, valid_coord, PlaneCoord};
use crate::bpcs::bit_plane_iter::BitIndexedBitPlaneIter;
use crate::bpcs::dynamic_prefix::{
    num_of_prefixed_planes_for_n_bits, planes_needed, prefix_length, prefix_length_of,
};
use crate::bpcs::initialization_vector::{
    iv_plane_count, MESSAGE_LENGTH_IV_BIT_NUMBER, MESSAGE_REMNANT_IV_BIT_NUMBER,
};
use crate::bpcs::random::{
    is_permutation, permuted, rng_from_seed, rng_state, seeded_state, shuffle_items,
    shuffle_outcome,
};
use crate::bpcs::selection_laws::{lemma_init_ok, lemma_select, model_ok};
use crate::errors::SteganographyError;
use crate::image_utils::{Raster, RgbImage};
use rand::rngs::StdRng;
use vstd::prelude::*;

verus! {

/// The coordinates of the plane in block column `bx` and block row `by`.
pub open spec fn coord_of(bx: int, by: int, channel: int, bit_index: u8) -> PlaneCoord {
    ((8 * bx) as u32, (8 * by) as u32, channel as u8, bit_index)
}

/// The complex planes among the first `n` channels of one block.
pub open spec fn accepted_channels(
    image: Raster,
    min_alpha: Alpha,
    bit_index: u8,
    bx: int,
    by: int,
    n: nat,
) -> Seq<PlaneCoord>
    decreases n,
{
    if n == 0 {
        Seq::empty()
    } else {
        let before = accepted_channels(image, min_alpha, bit_index, bx, by, (n - 1) as nat);
        let coord = coord_of(bx, by, n - 1, bit_index);
        if is_complex(plane_at(image, coord), min_alpha) {
            before.push(coord)
        } else {
            before
        }
    }
}

/// The complex planes among the first `n` blocks of one block column.
pub open spec fn accepted_rows(
    image: Raster,
    min_alpha: Alpha,
    bit_index: u8,
    bx: int,
    n: nat,
) -> Seq<PlaneCoord>
    decreases n,
{
    if n == 0 {
        Seq::empty()
    } else {
        accepted_rows(image, min_alpha, bit_index, bx, (n - 1) as nat) + accepted_channels(
            image,
            min_alpha,
            bit_index,
            bx,
            n - 1,
            3,
        )
    }
}

/// The complex planes in the first `n` block columns.
pub open spec fn accepted_columns(
    image: Raster,
    min_alpha: Alpha,
    bit_index: u8,
    n: nat,
) -> Seq<PlaneCoord>
    decreases n,
{
    if n == 0 {
        Seq::empty()
    } else {
        accepted_columns(image, min_alpha, bit_index, (n - 1) as nat) + accepted_rows(
            image,
            min_alpha,
            bit_index,
            n - 1,
            image.height / 8,
        )
    }
}

/// The coordinates of all planes of `image` at `bit_index` that are complex
/// enough for `min_alpha`, in the order in which a cursor meets them.
pub open spec fn accepted_at(image: Raster, min_alpha: Alpha, bit_index: u8) -> Seq<PlaneCoord> {
    accepted_columns(image, min_alpha, bit_index, image.width / 8)
}

/// The number of planes of `image`, over all bit indices, that are complex
/// enough for `min_alpha`.
pub open spec fn accepted_count(image: Raster, min_alpha: Alpha) -> nat {
    accepted_at(image, min_alpha, 0).len() + accepted_at(image, min_alpha, 1).len() + accepted_at(
        image,
        min_alpha,
        2,
    ).len() + accepted_at(image, min_alpha, 3).len() + accepted_at(image, min_alpha, 4).len()
        + accepted_at(image, min_alpha, 5).len() + accepted_at(image, min_alpha, 6).len()
        + accepted_at(image, min_alpha, 7).len()
}

/// The number of `true` among the first `n` entries of `marks`.
pub open spec fn count_marked(marks: Seq<bool>, n: nat) -> nat
    decreases n,
{
    if n == 0 {
        0
    } else {
        count_marked(marks, (n - 1) as nat) + if marks[n - 1] {
            1nat
        } else {
            0nat
        }
    }
}

/// `items` without the item at `i`, whose place the last item takes.
pub open spec fn swap_removed<T>(items: Seq<T>, i: int) -> Seq<T> {
    items.update(i, items.last()).drop_last()
}

/// Goes down through the positions below `n` and takes out, by
/// [`swap_removed`], each one that is marked. Gives the items taken out, in
/// the order of their removal, and what is left.
pub open spec fn sweep_marked<T>(items: Seq<T>, marks: Seq<bool>, n: nat) -> (Seq<T>, Seq<T>)
    decreases n,
{
    if n == 0 {
        (Seq::empty(), items)
    } else if marks[n - 1] {
        let rest = sweep_marked(swap_removed(items, n - 1), marks, (n - 1) as nat);
        (seq![items[n - 1]] + rest.0, rest.1)
    } else {
        sweep_marked(items, marks, (n - 1) as nat)
    }
}

/// The marks on `len` positions that mark the first `n` entries of `order`.
pub open spec fn marks_of(order: Seq<int>, n: nat, len: nat) -> Seq<bool> {
    Seq::new(len, |j: int| exists|k: int| 0 <= k < n && order[k] == j)
}

/// What drawing `n` items at random leaves behind.
pub struct Drawn<T> {
    /// The items drawn, in the order in which they are handed out.
    pub taken: Seq<T>,
    /// The items that stay, in their new order.
    pub rest: Seq<T>,
    /// The state of the generator afterwards.
    pub rng: Seq<u8>,
}

/// Draws `n` of `items` with a generator in state `rng`: the positions are
/// shuffled and the first `n` of them chosen; the items there are taken out
/// from the highest position down, each replaced by the last item; the items
/// taken are shuffled.
pub open spec fn draw<T>(items: Seq<T>, n: nat, rng: Seq<u8>) -> Drawn<T> {
    let first = shuffle_outcome(rng, items.len());
    let swept = sweep_marked(items, marks_of(first.0, n, items.len()), items.len());
    let second = shuffle_outcome(first.1, swept.0.len());
    Drawn { taken: permuted(swept.0, second.0), rest: swept.1, rng: second.1 }
}

/// Whether the two shuffles of [`draw`] rearrange: each of their orders lists
/// every position once.
pub open spec fn draw_rearranges<T>(items: Seq<T>, n: nat, rng: Seq<u8>) -> bool {
    let first = shuffle_outcome(rng, items.len());
    let swept = sweep_marked(items, marks_of(first.0, n, items.len()), items.len());
    let second = shuffle_outcome(first.1, swept.0.len());
    is_permutation(first.0, items.len()) && is_permutation(second.0, swept.0.len())
}

/// Whether all of `coords` name planes of `image`.
pub open spec fn all_valid(image: Raster, coords: Seq<PlaneCoord>) -> bool {
    forall|i: int|
        0 <= i < coords.len() ==> valid_coord(image.width, image.height, #[trigger] coords[i])
}

/// The mathematical content of a [`PlaneSelector`].
pub struct SelectorModel {
    /// The image whose planes are chosen from.
    pub image: Raster,
    /// The threshold that a plane must reach.
    pub min_alpha: Alpha,
    /// For each bit index, the complex planes not yet handed out; `None`
    /// until the planes of that bit index have been looked at.
    pub pools: Seq<Option<Seq<PlaneCoord>>>,
    /// The state of the generator.
    pub rng: Seq<u8>,
}

/// How a selection ended.
pub struct Selection {
    /// The selector afterwards.
    pub model: SelectorModel,
    /// The planes selected; when some are missing, those that were found.
    pub planes: Seq<PlaneCoord>,
    /// How many of the planes asked for could not be found.
    pub missing: nat,
}

impl SelectorModel {
    /// The selector over `image` before any plane was looked at.
    pub open spec fn init(image: Raster, min_alpha: Alpha, seed: Seq<u8>) -> SelectorModel {
        SelectorModel {
            image,
            min_alpha,
            pools: Seq::new(8, |b: int| None::<Seq<PlaneCoord>>),
            rng: seeded_state(seed),
        }
    }

    /// The planes of bit index `b` that can still be handed out.
    pub open spec fn pool(self, b: int) -> Seq<PlaneCoord> {
        match self.pools[b] {
            Some(p) => p,
            None => accepted_at(self.image, self.min_alpha, b as u8),
        }
    }

    /// The number of planes that can still be handed out.
    pub open spec fn available(self) -> nat {
        self.pool(0).len() + self.pool(1).len() + self.pool(2).len() + self.pool(3).len()
            + self.pool(4).len() + self.pool(5).len() + self.pool(6).len() + self.pool(7).len()
    }

    /// The selector with the pool of bit index `b` replaced.
    pub open spec fn with_pool(self, b: int, pool: Seq<PlaneCoord>) -> SelectorModel {
        SelectorModel { pools: self.pools.update(b, Some(pool)), ..self }
    }

    /// The selector over another image.
    pub open spec fn with_image(self, image: Raster) -> SelectorModel {
        SelectorModel { image, ..self }
    }

    /// The selector with its generator in another state.
    pub open spec fn with_rng(self, rng: Seq<u8>) -> SelectorModel {
        SelectorModel { rng, ..self }
    }

    /// Gathers `need` planes, from bit index `7 - level` upwards in
    /// significance: a bit index with more planes than are needed gives up
    /// that many, drawn at random, and ends the search; any other gives up all
    /// it has.
    pub open spec fn gather(self, level: nat, need: nat, found: Seq<PlaneCoord>) -> Selection
        decreases 8 - level,
    {
        if level >= 8 {
            Selection { model: self, planes: found, missing: need }
        } else {
            let b = 7 - level;
            let pool = self.pool(b);
            if need < pool.len() {
                let drawn = draw(pool, need, self.rng);
                Selection {
                    model: self.with_pool(b, drawn.rest).with_rng(drawn.rng),
                    planes: found + drawn.taken,
                    missing: 0,
                }
            } else {
                self.with_pool(b, Seq::empty()).gather(
                    level + 1,
                    (need - pool.len()) as nat,
                    found + pool,
                )
            }
        }
    }

    /// Whether the shuffles of [`Self::gather`] rearrange.
    pub open spec fn gather_rearranges(self, level: nat, need: nat) -> bool
        decreases 8 - level,
    {
        if level >= 8 {
            true
        } else {
            let b = 7 - level;
            let pool = self.pool(b);
            if need < pool.len() {
                draw_rearranges(pool, need, self.rng)
            } else {
                self.with_pool(b, Seq::empty()).gather_rearranges(
                    level + 1,
                    (need - pool.len()) as nat,
                )
            }
        }
    }

    /// Whether the shuffles of [`Self::select`] rearrange. This holds of
    /// every selection that was made.
    pub open spec fn select_rearranges(self, n: nat) -> bool {
        let gathered = self.gather(0, n, Seq::empty());
        &&& self.gather_rearranges(0, n)
        &&& gathered.missing == 0 ==> is_permutation(
            shuffle_outcome(gathered.model.rng, gathered.planes.len()).0,
            gathered.planes.len(),
        )
    }

    /// Selects `n` planes: gathers them, least significant bit index first,
    /// and shuffles what was gathered. When fewer than `n` are left, nothing
    /// is shuffled.
    pub open spec fn select(self, n: nat) -> Selection {
        let gathered = self.gather(0, n, Seq::empty());
        if gathered.missing != 0 {
            gathered
        } else {
            let outcome = shuffle_outcome(gathered.model.rng, gathered.planes.len());
            Selection {
                model: gathered.model.with_rng(outcome.1),
                planes: permuted(gathered.planes, outcome.0),
                missing: 0,
            }
        }
    }
}

/// The number of planes that hold the conjugation map of a message of
/// `message_plane_length` planes.
pub open spec fn conjugation_map_plane_count(min_alpha: Alpha, message_plane_length: nat) -> nat {
    planes_needed(message_plane_length, prefix_length_of(min_alpha))
}

proof fn lemma_count_marked_update(marks: Seq<bool>, j: int, n: nat)
    requires
        0 <= j < marks.len(),
        !marks[j],
        n <= marks.len(),
    ensures
        count_marked(marks.update(j, true), n) == count_marked(marks, n) + if j < n {
            1nat
        } else {
            0nat
        },
    decreases n,
{
    if n > 0 {
        lemma_count_marked_update(marks, j, (n - 1) as nat);
    }
}

proof fn lemma_count_marked_none(marks: Seq<bool>, n: nat)
    requires
        n <= marks.len(),
        forall|j: int| 0 <= j < marks.len() ==> !marks[j],
    ensures
        count_marked(marks, n) == 0,
    decreases n,
{
    if n > 0 {
        lemma_count_marked_none(marks, (n - 1) as nat);
    }
}

/// Marking the first `n` entries of a permutation marks `n` positions.
pub proof fn lemma_count_marks_of(order: Seq<int>, n: nat, len: nat)
    requires
        is_permutation(order, len),
        n <= len,
    ensures
        count_marked(marks_of(order, n, len), len) == n,
    decreases n,
{
    if n == 0 {
        lemma_count_marked_none(marks_of(order, 0, len), len);
    } else {
        lemma_count_marks_of(order, (n - 1) as nat, len);
        let before = marks_of(order, (n - 1) as nat, len);
        let j = order[n - 1];
        assert(!before[j]) by {
            if before[j] {
                let k = choose|k: int| 0 <= k < n - 1 && order[k] == j;
                assert(order[k] != order[n - 1]);
            }
        }
        assert(marks_of(order, n, len) =~= before.update(j, true)) by {
            assert forall|i: int| 0 <= i < len implies marks_of(order, n, len)[i] == before.update(
                j,
                true,
            )[i] by {
                if i == j {
                    assert(order[n - 1] == i);
                } else if before[i] {
                    let k = choose|k: int| 0 <= k < n - 1 && order[k] == i;
                    assert(0 <= k < n && order[k] == i);
                } else if marks_of(order, n, len)[i] {
                    let k = choose|k: int| 0 <= k < n && order[k] == i;
                    assert(k != n - 1);
                    assert(0 <= k < n - 1 && order[k] == i);
                }
            }
        }
        lemma_count_marked_update(before, j, len);
    }
}

/// A sweep takes out as many items as are marked and leaves the others.
pub proof fn lemma_sweep_marked_len<T>(items: Seq<T>, marks: Seq<bool>, n: nat)
    requires
        n <= items.len(),
    ensures
        sweep_marked(items, marks, n).0.len() == count_marked(marks, n),
        sweep_marked(items, marks, n).0.len() + sweep_marked(items, marks, n).1.len()
            == items.len(),
    decreases n,
{
    if n > 0 {
        if marks[n - 1] {
            lemma_sweep_marked_len(swap_removed(items, n - 1), marks, (n - 1) as nat);
        } else {
            lemma_sweep_marked_len(items, marks, (n - 1) as nat);
        }
    }
}

proof fn lemma_accepted_rows_empty(image: Raster, min_alpha: Alpha, bit_index: u8, n: nat)
    requires
        image.height / 8 == 0,
    ensures
        accepted_columns(image, min_alpha, bit_index, n) == Seq::<PlaneCoord>::empty(),
    decreases n,
{
    if n > 0 {
        lemma_accepted_rows_empty(image, min_alpha, bit_index, (n - 1) as nat);
        assert(accepted_rows(image, min_alpha, bit_index, n - 1, 0) =~= Seq::<PlaneCoord>::empty());
        assert(accepted_columns(image, min_alpha, bit_index, n) =~= Seq::<PlaneCoord>::empty());
    }
}

/// The complex planes that a cursor at `(bx, by, channel)` has passed.
pub open spec fn accepted_before(
    image: Raster,
    min_alpha: Alpha,
    bit_index: u8,
    bx: int,
    by: int,
    channel: int,
) -> Seq<PlaneCoord> {
    accepted_columns(image, min_alpha, bit_index, bx as nat) + accepted_rows(
        image,
        min_alpha,
        bit_index,
        bx,
        by as nat,
    ) + accepted_channels(image, min_alpha, bit_index, bx, by, channel as nat)
}

/// The coordinates of all planes of `source_image` at `bit_index` that are
/// complex enough for `min_alpha`.
pub fn collect_accepted_planes_at_bit_index(
    source_image: &RgbImage,
    min_alpha: Alpha,
    bit_index: u8,
) -> (accepted_coords: Vec<PlaneCoord>)
    requires
        source_image.wf(),
        bit_index < 8,
    ensures
        accepted_coords@ == accepted_at(source_image@, min_alpha, bit_index),
{
    let mut accepted_coords: Vec<PlaneCoord> = Vec::new();
    let mut plane_iter = BitIndexedBitPlaneIter::new(source_image, bit_index);
    proof {
        if plane_iter.rows() == 0 {
            lemma_accepted_rows_empty(
                source_image@,
                min_alpha,
                bit_index,
                plane_iter.block_x as nat,
            );
        }
        assert(accepted_coords@ =~= accepted_before(
            source_image@,
            min_alpha,
            bit_index,
            plane_iter.block_x as int,
            0,
            0,
        ));
    }
    loop
        invariant
            plane_iter.wf(),
            plane_iter.source_image == source_image,
            plane_iter.bit_index == bit_index,
            plane_iter.finished() ==> plane_iter.block_y == 0 && plane_iter.channel == 0,
            accepted_coords@ == accepted_before(
                source_image@,
                min_alpha,
                bit_index,
                plane_iter.block_x as int,
                plane_iter.block_y as int,
                plane_iter.channel as int,
            ),
        decreases
                plane_iter.columns() - plane_iter.block_x,
                plane_iter.rows() - plane_iter.block_y,
                3 - plane_iter.channel,
    {
        let ghost bx = plane_iter.block_x as int;
        let ghost by = plane_iter.block_y as int;
        let ghost ch = plane_iter.channel as int;
        let ghost before = accepted_coords@;
        match plane_iter.next() {
            None => {
                assert(accepted_coords@ =~= accepted_at(source_image@, min_alpha, bit_index));
                return accepted_coords;
            },
            Some((coord, plane)) => {
                if plane.is_complex(min_alpha) {
                    accepted_coords.push(coord);
                }
                proof {
                    let image = source_image@;
                    assert(coord == coord_of(bx, by, ch, bit_index));
                    let channels = accepted_channels(
                        image,
                        min_alpha,
                        bit_index,
                        bx,
                        by,
                        (ch + 1) as nat,
                    );
                    assert(accepted_coords@ =~= accepted_columns(
                        image,
                        min_alpha,
                        bit_index,
                        bx as nat,
                    ) + accepted_rows(image, min_alpha, bit_index, bx, by as nat) + channels);
                    if ch == 2 {
                        assert(accepted_rows(image, min_alpha, bit_index, bx, (by + 1) as nat)
                            == accepted_rows(image, min_alpha, bit_index, bx, by as nat)
                            + channels);
                        if by + 1 < plane_iter.rows() {
                            assert(accepted_coords@ =~= accepted_before(
                                image,
                                min_alpha,
                                bit_index,
                                bx,
                                by + 1,
                                0,
                            ));
                        } else {
                            assert(accepted_columns(image, min_alpha, bit_index, (bx + 1) as nat)
                                == accepted_columns(image, min_alpha, bit_index, bx as nat)
                                + accepted_rows(image, min_alpha, bit_index, bx, image.height / 8));
                            assert(accepted_coords@ =~= accepted_before(
                                image,
                                min_alpha,
                                bit_index,
                                bx + 1,
                                0,
                                0,
                            ));
                        }
                    }
                }
            },
        }
    }
}

/// Takes `n` items out of `items` at random: shuffles the positions, chooses
/// the first `n` of them, takes the items there out from the highest position
/// down, each replaced by the last item, and shuffles the items taken.
pub fn drain_n_random_items_from_vec<T>(
    items: &mut Vec<T>,
    n: usize,
    rng: &mut StdRng,
) -> (selected_items: Vec<T>)
    requires
        n <= old(items)@.len(),
    ensures
        selected_items@ == draw(old(items)@, n as nat, rng_state(*old(rng))).taken,
        final(items)@ == draw(old(items)@, n as nat, rng_state(*old(rng))).rest,
        rng_state(*final(rng)) == draw(old(items)@, n as nat, rng_state(*old(rng))).rng,
        selected_items@.len() == n,
        final(items)@.len() == old(items)@.len() - n,
        draw_rearranges(old(items)@, n as nat, rng_state(*old(rng))),
{
    let len: usize = items.len();
    let ghost start = items@;
    let ghost first = shuffle_outcome(rng_state(*rng), len as nat);
    let mut selected_indexes: Vec<usize> = Vec::with_capacity(len);
    let mut i: usize = 0;
    while i < len
        invariant
            i <= len,
            selected_indexes@.len() == i,
            forall|j: int| 0 <= j < i ==> selected_indexes@[j] == j,
        decreases len - i,
    {
        selected_indexes.push(i);
        i += 1;
    }
    shuffle_items(&mut selected_indexes, rng);
    assert(forall|j: int| 0 <= j < len ==> selected_indexes@[j] == first.0[j]);

    let mut marks: Vec<bool> = Vec::with_capacity(len);
    let mut i: usize = 0;
    while i < len
        invariant
            i <= len,
            marks@.len() == i,
            forall|j: int| 0 <= j < i ==> !marks@[j],
        decreases len - i,
    {
        marks.push(false);
        i += 1;
    }
    let mut k: usize = 0;
    assert(marks@ =~= marks_of(first.0, 0, len as nat));
    while k < n
        invariant
            k <= n <= len,
            selected_indexes@.len() == len,
            is_permutation(first.0, len as nat),
            forall|j: int| 0 <= j < len ==> selected_indexes@[j] == first.0[j],
            marks@ == marks_of(first.0, k as nat, len as nat),
        decreases n - k,
    {
        let at: usize = selected_indexes[k];
        let ghost before = marks@;
        marks[at] = true;
        proof {
            assert forall|j: int| 0 <= j < len implies marks@[j] == marks_of(
                first.0,
                (k + 1) as nat,
                len as nat,
            )[j] by {
                if j == at {
                    assert(first.0[k as int] == j);
                } else if before[j] {
                    let w = choose|w: int| 0 <= w < k && first.0[w] == j;
                    assert(0 <= w < k + 1 && first.0[w] == j);
                } else if marks_of(first.0, (k + 1) as nat, len as nat)[j] {
                    let w = choose|w: int| 0 <= w < k + 1 && first.0[w] == j;
                    assert(0 <= w < k && first.0[w] == j);
                }
            }
            assert(marks@ =~= marks_of(first.0, (k + 1) as nat, len as nat));
        }
        k += 1;
    }

    let mut selected_items: Vec<T> = Vec::with_capacity(n);
    let mut i: usize = len;
    proof {
        assert(selected_items@ + sweep_marked(items@, marks@, i as nat).0 =~= sweep_marked(
            start,
            marks@,
            len as nat,
        ).0);
        lemma_count_marks_of(first.0, n as nat, len as nat);
    }
    while i > 0
        invariant
            i <= items@.len() <= len,
            marks@.len() == len,
            selected_items@ + sweep_marked(items@, marks@, i as nat).0 == sweep_marked(
                start,
                marks@,
                len as nat,
            ).0,
            sweep_marked(items@, marks@, i as nat).1 == sweep_marked(start, marks@, len as nat).1,
        decreases i,
    {
        let ghost before_items = items@;
        let ghost before_selected = selected_items@;
        if marks[i - 1] {
            let p = items.swap_remove(i - 1);
            selected_items.push(p);
            proof {
                let rest = sweep_marked(items@, marks@, (i - 1) as nat);
                assert(items@ == swap_removed(before_items, i - 1));
                assert(selected_items@ + rest.0 =~= before_selected + (seq![before_items[i - 1]]
                    + rest.0));
            }
        }
        i -= 1;
    }
    proof {
        lemma_sweep_marked_len(start, marks@, len as nat);
        assert(selected_items@ =~= sweep_marked(start, marks@, len as nat).0);
    }
    shuffle_items(&mut selected_items, rng);
    selected_items
}

/// The number of planes of `source_image`, over all bit indices, that are
/// complex enough for `min_alpha`.
pub fn count_accepted_planes(source_image: &RgbImage, min_alpha: Alpha) -> (count: u64)
    requires
        source_image.wf(),
    ensures
        count == accepted_count(source_image@, min_alpha),
{
    let mut total: u64 = 0;
    let mut bit_index: u8 = 0;
    let ghost image = source_image@;
    while bit_index < 8
        invariant
            bit_index <= 8,
            source_image.wf(),
            image == source_image@,
            total <= bit_index * 0x1000_0000_0000_0000,
            total == partial_count(image, min_alpha, bit_index as nat),
        decreases 8 - bit_index,
    {
        let accepted = collect_accepted_planes_at_bit_index(source_image, min_alpha, bit_index);
        proof {
            lemma_accepted_at_len(image, min_alpha, bit_index);
        }
        total += accepted.len() as u64;
        bit_index += 1;
    }
    proof {
        reveal_with_fuel(partial_count, 9);
    }
    total
}

/// The number of complex planes at the bit indices below `n`.
pub open spec fn partial_count(image: Raster, min_alpha: Alpha, n: nat) -> nat
    decreases n,
{
    if n == 0 {
        0
    } else {
        partial_count(image, min_alpha, (n - 1) as nat) + accepted_at(
            image,
            min_alpha,
            (n - 1) as u8,
        ).len()
    }
}

proof fn lemma_accepted_channels_len(
    image: Raster,
    min_alpha: Alpha,
    bit_index: u8,
    bx: int,
    by: int,
    n: nat,
)
    ensures
        accepted_channels(image, min_alpha, bit_index, bx, by, n).len() <= n,
    decreases n,
{
    if n > 0 {
        lemma_accepted_channels_len(image, min_alpha, bit_index, bx, by, (n - 1) as nat);
    }
}

proof fn lemma_accepted_rows_len(image: Raster, min_alpha: Alpha, bit_index: u8, bx: int, n: nat)
    ensures
        accepted_rows(image, min_alpha, bit_index, bx, n).len() <= 3 * n,
    decreases n,
{
    if n > 0 {
        lemma_accepted_rows_len(image, min_alpha, bit_index, bx, (n - 1) as nat);
        lemma_accepted_channels_len(image, min_alpha, bit_index, bx, n - 1, 3);
    }
}

proof fn lemma_accepted_columns_len(image: Raster, min_alpha: Alpha, bit_index: u8, n: nat)
    ensures
        accepted_columns(image, min_alpha, bit_index, n).len() <= 3 * (n * (image.height / 8)),
    decreases n,
{
    if n > 0 {
        lemma_accepted_columns_len(image, min_alpha, bit_index, (n - 1) as nat);
        lemma_accepted_rows_len(image, min_alpha, bit_index, n - 1, image.height / 8);
        let rows = (image.height / 8) as int;
        assert(3 * ((n - 1) * rows) + 3 * rows == 3 * (n * rows)) by (nonlinear_arith);
    } else {
        assert(0 * (image.height / 8) == 0) by (nonlinear_arith);
    }
}

/// An image whose sides fit in 32 bits has fewer than `2^60` planes at any bit
/// index.
pub proof fn lemma_accepted_at_len(image: Raster, min_alpha: Alpha, bit_index: u8)
    requires
        image.width <= u32::MAX,
        image.height <= u32::MAX,
    ensures
        accepted_at(image, min_alpha, bit_index).len() < 0x1000_0000_0000_0000,
{
    lemma_accepted_columns_len(image, min_alpha, bit_index, image.width / 8);
    let columns = (image.width / 8) as int;
    let rows = (image.height / 8) as int;
    assert(columns * rows <= 0x2000_0000 * 0x2000_0000) by (nonlinear_arith)
        requires
            0 <= columns <= 0x2000_0000,
            0 <= rows <= 0x2000_0000,
    ;
}

/// An image has at most one plane for every eight samples.
pub proof fn lemma_accepted_count_bound(image: Raster, min_alpha: Alpha)
    requires
        image.wf(),
    ensures
        accepted_count(image, min_alpha) * 8 <= image.data.len(),
{
    let columns = (image.width / 8) as int;
    let rows = (image.height / 8) as int;
    let w = image.width as int;
    let h = image.height as int;
    assert(64 * (columns * rows) <= w * h) by (nonlinear_arith)
        requires
            0 <= 8 * columns <= w,
            0 <= 8 * rows <= h,
    ;
    assert(w * h * 3 == image.width * image.height * 3) by (nonlinear_arith)
        requires
            w == image.width,
            h == image.height,
    ;
    lemma_accepted_columns_len(image, min_alpha, 0, image.width / 8);
    lemma_accepted_columns_len(image, min_alpha, 1, image.width / 8);
    lemma_accepted_columns_len(image, min_alpha, 2, image.width / 8);
    lemma_accepted_columns_len(image, min_alpha, 3, image.width / 8);
    lemma_accepted_columns_len(image, min_alpha, 4, image.width / 8);
    lemma_accepted_columns_len(image, min_alpha, 5, image.width / 8);
    lemma_accepted_columns_len(image, min_alpha, 6, image.width / 8);
    lemma_accepted_columns_len(image, min_alpha, 7, image.width / 8);
}

/// Hands out the complex planes of an image, each at most once, in an order
/// that the seed decides.
pub struct PlaneSelector<'a> {
    source_image: &'a RgbImage,
    min_alpha: Alpha,
    plane_map: Vec<Option<Vec<PlaneCoord>>>,
    rng: StdRng,
}

/// The content of one entry of the selector's table.
pub open spec fn pool_view(pool: Option<Vec<PlaneCoord>>) -> Option<Seq<PlaneCoord>> {
    match pool {
        Some(p) => Some(p@),
        None => None,
    }
}

impl<'a> View for PlaneSelector<'a> {
    type V = SelectorModel;

    closed spec fn view(&self) -> SelectorModel {
        SelectorModel {
            image: self.source_image@,
            min_alpha: self.min_alpha,
            pools: Seq::new(self.plane_map@.len(), |b: int| pool_view(self.plane_map@[b])),
            rng: rng_state(self.rng),
        }
    }
}

impl<'a> PlaneSelector<'a> {
    /// The selector holds a well-formed image and, for each of the eight bit
    /// indices, either nothing yet or complex planes of that bit index, none
    /// of them twice.
    pub closed spec fn wf(&self) -> bool {
        self.source_image.wf() && self.plane_map@.len() == 8 && model_ok(self@)
    }

    /// A selector over `source_image` that has looked at no plane yet.
    pub fn new(
        source_image: &'a RgbImage,
        min_alpha: Alpha,
        randomization_seed: [u8; 32],
    ) -> (selector: Self)
        requires
            source_image.wf(),
        ensures
            selector.wf(),
            selector@ == SelectorModel::init(source_image@, min_alpha, randomization_seed@),
    {
        let mut plane_map: Vec<Option<Vec<PlaneCoord>>> = Vec::with_capacity(8);
        let mut bit_index: u8 = 0;
        while bit_index < 8
            invariant
                bit_index <= 8,
                plane_map@.len() == bit_index,
                forall|b: int| 0 <= b < bit_index ==> plane_map@[b] is None,
            decreases 8 - bit_index,
        {
            plane_map.push(None);
            bit_index += 1;
        }
        let selector = PlaneSelector {
            source_image,
            min_alpha,
            plane_map,
            rng: rng_from_seed(randomization_seed),
        };
        proof {
            assert(selector@.pools =~= SelectorModel::init(
                source_image@,
                min_alpha,
                randomization_seed@,
            ).pools);
            lemma_init_ok(source_image@, min_alpha, randomization_seed@);
        }
        selector
    }

    /// Selects `n` planes that were not handed out before, preferring the
    /// less significant bit indices, and shuffles them.
    pub fn select_n_planes(&mut self, n: usize) -> (selected: Result<
        Vec<PlaneCoord>,
        SteganographyError,
    >)
        requires
            old(self).wf(),
        ensures
            final(self).wf(),
            final(self)@ == old(self)@.select(n as nat).model,
            old(self)@.select_rearranges(n as nat),
            selected is Ok <==> old(self)@.select(n as nat).missing == 0,
            selected matches Ok(planes) ==> planes@ == old(self)@.select(n as nat).planes,
            selected matches Err(e) ==> e == SteganographyError::InsufficientPlaneNumber(
                n,
                old(self)@.select(n as nat).planes.len() as usize,
            ),
            selected matches Ok(planes) ==> planes@.len() == n && all_valid(
                old(self)@.image,
                planes@,
            ),
            final(self)@.image == old(self)@.image,
            final(self)@.min_alpha == old(self)@.min_alpha,
    {
        let mut unselected_num: usize = n;
        let mut total_selected: Vec<PlaneCoord> = Vec::new();
        let mut level: u8 = 0;
        let mut enough: bool = false;
        let ghost start = self@;
        while level < 8 && !enough
            invariant
                level <= 8,
                self.source_image.wf(),
                self.plane_map@.len() == 8,
                self.source_image == old(self).source_image,
                self.min_alpha == old(self).min_alpha,
                total_selected@.len() + unselected_num == n,
                enough ==> start.gather(0, n as nat, Seq::empty()) == (Selection {
                    model: self@,
                    planes: total_selected@,
                    missing: unselected_num as nat,
                }),
                !enough ==> start.gather(0, n as nat, Seq::empty()) == self@.gather(
                    level as nat,
                    unselected_num as nat,
                    total_selected@,
                ),
                enough ==> start.gather_rearranges(0, n as nat),
                !enough ==> (start.gather_rearranges(0, n as nat) <==> self@.gather_rearranges(
                    level as nat,
                    unselected_num as nat,
                )),
            decreases 8 - level + if enough { 0int } else { 1int },
        {
            let bit_index: u8 = 7 - level;
            let ghost before = self@;
            let ghost before_selected = total_selected@;
            let ghost before_map = self.plane_map@;
            let slot: Option<Vec<PlaneCoord>> = self.plane_map.remove(bit_index as usize);
            let mut curr_bit_index_planes: Vec<PlaneCoord> = match slot {
                Some(planes) => planes,
                None => collect_accepted_planes_at_bit_index(
                    self.source_image,
                    self.min_alpha,
                    bit_index,
                ),
            };
            assert(curr_bit_index_planes@ == before.pool(bit_index as int));
            if unselected_num < curr_bit_index_planes.len() {
                let mut curr_bit_index_selected = drain_n_random_items_from_vec(
                    &mut curr_bit_index_planes,
                    unselected_num,
                    &mut self.rng,
                );
                unselected_num -= curr_bit_index_selected.len();
                total_selected.append(&mut curr_bit_index_selected);
                enough = true;
            } else {
                unselected_num -= curr_bit_index_planes.len();
                total_selected.append(&mut curr_bit_index_planes);
                level += 1;
            }
            self.plane_map.insert(bit_index as usize, Some(curr_bit_index_planes));
            proof {
                assert(self.plane_map@ =~= before_map.update(
                    bit_index as int,
                    Some(curr_bit_index_planes),
                ));
                assert(self@.pools =~= before.pools.update(
                    bit_index as int,
                    Some(curr_bit_index_planes@),
                ));
            }
        }

        if unselected_num != 0 {
            proof {
                lemma_select(start, n as nat);
            }
            return Err(SteganographyError::InsufficientPlaneNumber(n, total_selected.len()));
        }
        shuffle_items(&mut total_selected, &mut self.rng);
        proof {
            lemma_select(start, n as nat);
        }
        Ok(total_selected)
    }

    /// Selects the planes for the two length fields of a message.
    pub fn select_iv_planes(&mut self, min_alpha: Alpha) -> (selected: Result<
        Vec<PlaneCoord>,
        SteganographyError,
    >)
        requires
            old(self).wf(),
            min_alpha.is_threshold(),
        ensures
            final(self).wf(),
            final(self)@ == old(self)@.select(iv_plane_count(min_alpha)).model,
            old(self)@.select_rearranges(iv_plane_count(min_alpha)),
            selected is Ok <==> old(self)@.select(iv_plane_count(min_alpha)).missing == 0,
            selected matches Ok(planes) ==> planes@ == old(self)@.select(
                iv_plane_count(min_alpha),
            ).planes,
            selected matches Err(e) ==> e == SteganographyError::InsufficientPlaneNumber(
                iv_plane_count(min_alpha) as usize,
                old(self)@.select(iv_plane_count(min_alpha)).planes.len() as usize,
            ),
            selected matches Ok(planes) ==> planes@.len() == iv_plane_count(min_alpha)
                && all_valid(old(self)@.image, planes@),
            final(self)@.image == old(self)@.image,
            final(self)@.min_alpha == old(self)@.min_alpha,
    {
        let iv_plane_num = num_of_prefixed_planes_for_n_bits(
            MESSAGE_LENGTH_IV_BIT_NUMBER,
            prefix_length(min_alpha),
        ) + num_of_prefixed_planes_for_n_bits(
            MESSAGE_REMNANT_IV_BIT_NUMBER,
            prefix_length(min_alpha),
        );
        self.select_n_planes(iv_plane_num)
    }

    /// Selects the planes for the conjugation map of a message of
    /// `message_plane_length` planes.
    pub fn select_conjugation_map_planes(
        &mut self,
        min_alpha: Alpha,
        message_plane_length: usize,
    ) -> (selected: Result<Vec<PlaneCoord>, SteganographyError>)
        requires
            old(self).wf(),
            min_alpha.is_threshold(),
        ensures
            final(self).wf(),
            final(self)@ == old(self)@.select(
                conjugation_map_plane_count(min_alpha, message_plane_length as nat),
            ).model,
            old(self)@.select_rearranges(
                conjugation_map_plane_count(min_alpha, message_plane_length as nat),
            ),
            selected is Ok <==> old(self)@.select(
                conjugation_map_plane_count(min_alpha, message_plane_length as nat),
            ).missing == 0,
            selected matches Ok(planes) ==> planes@ == old(self)@.select(
                conjugation_map_plane_count(min_alpha, message_plane_length as nat),
            ).planes,
            selected matches Err(e) ==> e == SteganographyError::InsufficientPlaneNumber(
                conjugation_map_plane_count(min_alpha, message_plane_length as nat) as usize,
                old(self)@.select(
                    conjugation_map_plane_count(min_alpha, message_plane_length as nat),
                ).planes.len() as usize,
            ),
            selected matches Ok(planes) ==> planes@.len() == conjugation_map_plane_count(
                min_alpha,
                message_plane_length as nat,
            ) && all_valid(old(self)@.image, planes@),
            final(self)@.image == old(self)@.image,
            final(self)@.min_alpha == old(self)@.min_alpha,
    {
        let conjugation_map_plane_num = num_of_prefixed_planes_for_n_bits(
            message_plane_length,
            prefix_length(min_alpha),
        );
        self.select_n_planes(conjugation_map_plane_num)
    }

    /// Selects the planes for a message of `message_plane_length` planes.
    pub fn select_message_planes(&mut self, message_plane_length: usize) -> (selected: Result<
        Vec<PlaneCoord>,
        SteganographyError,
    >)
        requires
            old(self).wf(),
        ensures
            final(self).wf(),
            final(self)@ == old(self)@.select(message_plane_length as nat).model,
            old(self)@.select_rearranges(message_plane_length as nat),
            selected is Ok <==> old(self)@.select(message_plane_length as nat).missing == 0,
            selected matches Ok(planes) ==> planes@ == old(self)@.select(
                message_plane_length as nat,
            ).planes,
            selected matches Err(e) ==> e == SteganographyError::InsufficientPlaneNumber(
                message_plane_length,
                old(self)@.select(message_plane_length as nat).planes.len() as usize,
            ),
            selected matches Ok(planes) ==> planes@.len() == message_plane_length && all_valid(
                old(self)@.image,
                planes@,
            ),
            final(self)@.image == old(self)@.image,
            final(self)@.min_alpha == old(self)@.min_alpha,
    {
        self.select_n_planes(message_plane_length)
    }
}

} // verus!
