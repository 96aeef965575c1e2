//! The lattice of gradient noise: three permutation tables, and the index
//! of the gradient that belongs to a lattice point.

use crate::rand_gen::get_rand_usize_range;
use crate::scalar::Scalar;
use crate::sequence::{lemma_entry_of_permutation, lemma_swap_keeps_entries};
use vstd::prelude::*;

verus! {

/// The period of the lattice along each axis, and the number of gradients.
pub const POINT_COUNT: usize = 256;

/// Whether `table` holds each of the numbers below [`POINT_COUNT`] once.
pub open spec fn is_permutation_table(table: Seq<usize>) -> bool {
    &&& table.len() == POINT_COUNT
    &&& table.no_duplicates()
    &&& forall|i: int| 0 <= i < table.len() ==> table[i] < POINT_COUNT
}

/// The sequence `0, 1, ..., n - 1`.
pub open spec fn identity_table(n: nat) -> Seq<usize> {
    Seq::new(n, |i: int| i as usize)
}

/// The slot of a permutation table that a lattice coordinate falls into: the
/// coordinate reduced modulo the period.
pub open spec fn lattice_slot(coordinate: int) -> int {
    coordinate % (POINT_COUNT as int)
}

/// The index of the gradient at the lattice point `(x, y, z)`: the entries of
/// the three tables at the point's slots, combined by exclusive or.
pub open spec fn gradient_index(tables: Seq<Seq<usize>>, x: int, y: int, z: int) -> usize {
    tables[0][lattice_slot(x)] ^ tables[1][lattice_slot(y)] ^ tables[2][lattice_slot(z)]
}

/// The lattice repeats with its period along each axis.
pub proof fn lemma_lattice_is_periodic(
    tables: Seq<Seq<usize>>,
    x: int,
    y: int,
    z: int,
    i: int,
    j: int,
    k: int,
)
    ensures
        gradient_index(tables, x + i * POINT_COUNT, y + j * POINT_COUNT, z + k * POINT_COUNT)
            == gradient_index(tables, x, y, z),
{
    lemma_slot_is_periodic(x, i);
    lemma_slot_is_periodic(y, j);
    lemma_slot_is_periodic(z, k);
}

/// A coordinate and the coordinate a whole number of periods further fall
/// into the same slot.
proof fn lemma_slot_is_periodic(coordinate: int, periods: int)
    ensures
        lattice_slot(coordinate + periods * POINT_COUNT) == lattice_slot(coordinate),
        0 <= lattice_slot(coordinate) < POINT_COUNT,
{
    assert((coordinate + periods * 256) % 256 == coordinate % 256) by (nonlinear_arith);
}

/// The permutation tables of a noise lattice, one for each axis.
#[derive(Debug)]
pub struct Perlin {
    perm_x: Vec<usize>,
    perm_y: Vec<usize>,
    perm_z: Vec<usize>,
}

impl View for Perlin {
    type V = Seq<Seq<usize>>;

    closed spec fn view(&self) -> Seq<Seq<usize>> {
        seq![self.perm_x@, self.perm_y@, self.perm_z@]
    }
}

/// The exclusive or of three table entries is the index of a gradient.
proof fn lemma_xor_in_table(a: usize, b: usize, c: usize)
    by (bit_vector)
    requires
        a < 256,
        b < 256,
        c < 256,
    ensures
        a ^ b ^ c < 256,
{
}

impl Perlin {
    #[verifier::type_invariant]
    spec fn tables_are_permutations(self) -> bool {
        &&& is_permutation_table(self.perm_x@)
        &&& is_permutation_table(self.perm_y@)
        &&& is_permutation_table(self.perm_z@)
    }

    /// A lattice with three freshly shuffled tables.
    pub fn new() -> (perlin: Self)
        ensures
            perlin@.len() == 3,
            forall|axis: int| 0 <= axis < 3 ==> is_permutation_table(#[trigger] perlin@[axis]),
            forall|axis: int| 0 <= axis < 3 ==> is_shuffled_table(#[trigger] perlin@[axis]),
    {
        let perm_x = Self::perlin_generate_perm();
        let perm_y = Self::perlin_generate_perm();
        let perm_z = Self::perlin_generate_perm();
        Perlin { perm_x, perm_y, perm_z }
    }

    /// The table of one axis.
    pub fn table(&self, axis: usize) -> (table: &Vec<usize>)
        requires
            axis < 3,
        ensures
            table@ == self@[axis as int],
            is_permutation_table(table@),
    {
        proof {
            use_type_invariant(self);
        }
        if axis == 0 {
            &self.perm_x
        } else if axis == 1 {
            &self.perm_y
        } else {
            &self.perm_z
        }
    }

    /// The slot of a table for the lattice coordinate `cell + offset`.
    fn slot(cell: i32, offset: u8) -> (slot: usize)
        ensures
            slot == lattice_slot(cell + offset),
            slot < POINT_COUNT,
    {
        // 2^31 is a multiple of the period: adding it leaves the slot as it
        // is and the sum without a sign.
        let shifted: i64 = cell as i64 + offset as i64 + 0x8000_0000;
        let slot: i64 = shifted % 256;
        slot as usize
    }

    /// The index of the gradient at the corner of the lattice cell `cell`
    /// that lies `corner` steps further along each axis.
    pub fn corner_index(&self, cell: [i32; 3], corner: [u8; 3]) -> (index: usize)
        ensures
            index == gradient_index(
                self@,
                cell[0] + corner[0],
                cell[1] + corner[1],
                cell[2] + corner[2],
            ),
            index < POINT_COUNT,
    {
        proof {
            use_type_invariant(self);
        }
        let a: usize = self.perm_x[Self::slot(cell[0], corner[0])];
        let b: usize = self.perm_y[Self::slot(cell[1], corner[1])];
        let c: usize = self.perm_z[Self::slot(cell[2], corner[2])];
        proof {
            lemma_xor_in_table(a, b, c);
        }
        a ^ b ^ c
    }

    /// The gradient indices of the eight corners of the lattice cell `cell`:
    /// the corner `(di, dj, dk)` stands at position `4 * di + 2 * dj + dk`.
    pub fn corner_indices(&self, cell: [i32; 3]) -> (indices: [usize; 8])
        ensures
            forall|di: u8, dj: u8, dk: u8|
                di < 2 && dj < 2 && dk < 2 ==> #[trigger] indices[4 * di + 2 * dj + dk]
                    == gradient_index(self@, cell[0] + di, cell[1] + dj, cell[2] + dk),
            forall|i: int| 0 <= i < 8 ==> indices[i] < POINT_COUNT,
    {
        let mut indices: [usize; 8] = [0; 8];
        let mut n: u8 = 0;
        while n < 8
            invariant
                n <= 8,
                forall|i: int| 0 <= i < 8 ==> indices[i] < POINT_COUNT,
                forall|di: u8, dj: u8, dk: u8|
                    di < 2 && dj < 2 && dk < 2 && 4 * di + 2 * dj + dk < n
                        ==> #[trigger] indices[4 * di + 2 * dj + dk] == gradient_index(
                        self@,
                        cell[0] + di,
                        cell[1] + dj,
                        cell[2] + dk,
                    ),
            decreases 8 - n,
        {
            let di: u8 = n / 4;
            let dj: u8 = (n / 2) % 2;
            let dk: u8 = n % 2;
            let index = self.corner_index(cell, [di, dj, dk]);
            indices[n as usize] = index;
            n = n + 1;
        }
        indices
    }

    /// The gradient indices of the eight corners of the lattice cell that
    /// the point `(x, y, z)` lies in: the cell whose coordinates are the
    /// integer parts of the point's.
    pub fn corners_around(&self, x: Scalar, y: Scalar, z: Scalar) -> (indices: [usize; 8])
        ensures
            forall|di: u8, dj: u8, dk: u8|
                di < 2 && dj < 2 && dk < 2 ==> #[trigger] indices[4 * di + 2 * dj + dk]
                    == gradient_index(
                    self@,
                    x.floor_in_range() + di,
                    y.floor_in_range() + dj,
                    z.floor_in_range() + dk,
                ),
            forall|i: int| 0 <= i < 8 ==> indices[i] < POINT_COUNT,
    {
        let cell: [i32; 3] = [x.floor_to_i32(), y.floor_to_i32(), z.floor_to_i32()];
        self.corner_indices(cell)
    }

    /// A shuffled table of the numbers below [`POINT_COUNT`]: the numbers in
    /// order, shuffled, so that each of them occurs once and none at its own
    /// place.
    pub fn perlin_generate_perm() -> (table: Vec<usize>)
        ensures
            is_permutation_table(table@),
            is_shuffled_table(table@),
    {
        let mut p: Vec<usize> = Vec::new();
        let mut i: usize = 0;
        while i < POINT_COUNT
            invariant
                i <= POINT_COUNT,
                p@ == identity_table(i as nat),
            decreases POINT_COUNT - i,
        {
            p.push(i);
            assert(p@ =~= identity_table((i + 1) as nat));
            i = i + 1;
        }
        let ghost start = p@;
        let table = Self::permute(p);
        proof {
            assert(start.no_duplicates());
            start.lemma_multiset_has_no_duplicates();
            table@.lemma_multiset_has_no_duplicates_conv();
            assert forall|i: int| 0 <= i < table@.len() implies table@[i] < POINT_COUNT by {
                lemma_entry_of_permutation(table@, start, i);
            }
            let targets = choose|targets: Seq<int>| #[trigger]
                are_targets(targets, start.len()) && table@ == shuffled_with(start, targets);
            assert(are_targets(targets, POINT_COUNT as nat) && table@ == shuffled_with(
                identity_table(POINT_COUNT as nat),
                targets,
            ));
            assert forall|i: int| 0 <= i < POINT_COUNT implies table@[i] != i by {
                assert(start[i] == i);
            }
        }
        table
    }

    /// Shuffles a table: from the last entry down to the second, each entry
    /// changes places with a randomly chosen earlier one.
    pub fn permute(p: Vec<usize>) -> (shuffled: Vec<usize>)
        ensures
            shuffled@.len() == p@.len(),
            shuffled@.to_multiset() == p@.to_multiset(),
            exists|targets: Seq<int>| #[trigger]
                are_targets(targets, p@.len()) && shuffled@ == shuffled_with(p@, targets),
            p@.no_duplicates() && p@.len() >= 2 ==> forall|i: int|
                0 <= i < p@.len() ==> shuffled@[i] != p@[i],
    {
        let mut p = p;
        let ghost start = p@;
        let ghost mut targets: Seq<int> = Seq::empty();
        let mut i: usize = p.len();
        while i > 1
            invariant
                i <= p@.len(),
                start.len() >= 1 ==> i >= 1,
                p@.len() == start.len(),
                p@.to_multiset() == start.to_multiset(),
                targets.len() == start.len() - i,
                forall|k: int|
                    0 <= k < targets.len() ==> 0 <= #[trigger] targets[k] < start.len() - 1 - k,
                p@ == shuffled_with(start, targets),
            decreases i,
        {
            i = i - 1;
            let target: usize = get_rand_usize_range(0, i);
            proof {
                lemma_swap_keeps_entries(p@, i as int, target as int);
                assert(targets.push(target as int).drop_last() =~= targets);
                targets = targets.push(target as int);
            }
            let moved: usize = p[i];
            let chosen: usize = p[target];
            p.set(i, chosen);
            p.set(target, moved);
        }
        proof {
            assert(are_targets(targets, start.len()));
            if start.no_duplicates() && start.len() >= 2 {
                lemma_shuffle_moves_every_entry(start, targets);
            }
        }
        p
    }
}

/// Whether `table` is a shuffle of the numbers below [`POINT_COUNT`] in
/// order: what the targets of some shuffle make of them, with no number left
/// at its own place.
pub open spec fn is_shuffled_table(table: Seq<usize>) -> bool {
    &&& exists|targets: Seq<int>| #[trigger]
        are_targets(targets, POINT_COUNT as nat) && table == shuffled_with(
            identity_table(POINT_COUNT as nat),
            targets,
        )
    &&& forall|i: int| 0 <= i < POINT_COUNT ==> #[trigger] table[i] != i
}

/// A table with the entries at two places exchanged.
pub open spec fn exchanged(table: Seq<usize>, i: int, j: int) -> Seq<usize> {
    table.update(i, table[j]).update(j, table[i])
}

/// What a shuffle makes of a table. The shuffle goes from the last place
/// down to the second, and `targets` lists, in that order, the place with
/// which the entry at each of these places changes places.
pub open spec fn shuffled_with(table: Seq<usize>, targets: Seq<int>) -> Seq<usize>
    decreases targets.len(),
{
    if targets.len() == 0 {
        table
    } else {
        exchanged(
            shuffled_with(table, targets.drop_last()),
            table.len() - targets.len(),
            targets.last(),
        )
    }
}

/// Whether `targets` are the targets of a shuffle of a table of `len`
/// entries: one for each place from the last down to the second, and each
/// an earlier place than the one it is for.
pub open spec fn are_targets(targets: Seq<int>, len: nat) -> bool {
    &&& targets.len() == if len == 0 {
        0
    } else {
        len - 1
    }
    &&& forall|k: int| 0 <= k < targets.len() ==> 0 <= #[trigger] targets[k] < len - 1 - k
}

/// Whether the first `targets.len()` steps of a shuffle have left the table
/// `now` in order behind them: every place that a step has gone over holds
/// another entry than at first, and every earlier place holds its first
/// entry or one that stood at a later place than all of these.
spec fn is_stirred(table: Seq<usize>, targets: Seq<int>, now: Seq<usize>) -> bool {
    let done = table.len() - targets.len();
    &&& now.len() == table.len()
    &&& forall|r: int| done <= r < table.len() ==> #[trigger] now[r] != table[r]
    &&& forall|r: int, q: int|
        0 <= r < done && 0 <= q < done && #[trigger] now[r] != table[r] ==> now[r]
            != #[trigger] table[q]
}

/// The steps of a shuffle of a table without repeated entries leave the
/// table stirred.
proof fn lemma_shuffle_stirs(table: Seq<usize>, targets: Seq<int>)
    requires
        table.no_duplicates(),
        targets.len() < table.len(),
        forall|k: int| 0 <= k < targets.len() ==> 0 <= #[trigger] targets[k] < table.len() - 1 - k,
    ensures
        is_stirred(table, targets, shuffled_with(table, targets)),
    decreases targets.len(),
{
    if targets.len() > 0 {
        let earlier = targets.drop_last();
        let before = shuffled_with(table, earlier);
        let place = table.len() - targets.len();
        let target = targets.last();
        let now = shuffled_with(table, targets);
        assert forall|k: int| 0 <= k < earlier.len() implies 0 <= #[trigger] earlier[k]
            < table.len() - 1 - k by {
            assert(earlier[k] == targets[k]);
        }
        lemma_shuffle_stirs(table, earlier);
        assert(0 <= target < place);
        assert(now == exchanged(before, place, target));
        assert(now[place] == before[target]);
        assert(now[target] == before[place]);
        assert forall|r: int| place <= r < table.len() implies #[trigger] now[r] != table[r] by {
            if r == place {
                if before[target] == table[target] {
                } else {
                    assert(before[target] != table[place]);
                }
            } else {
                assert(now[r] == before[r]);
            }
        }
        assert forall|r: int, q: int|
            0 <= r < place && 0 <= q < place && #[trigger] now[r] != table[r] implies now[r]
            != #[trigger] table[q] by {
            if r == target {
                if before[place] == table[place] {
                } else {
                    assert(before[place] != table[q]);
                }
            } else {
                assert(now[r] == before[r]);
                assert(before[r] != table[q]);
            }
        }
    }
}

/// A shuffle of a table without repeated entries moves every entry: no
/// place holds afterwards what it held before.
pub proof fn lemma_shuffle_moves_every_entry(table: Seq<usize>, targets: Seq<int>)
    requires
        table.no_duplicates(),
        table.len() >= 2,
        are_targets(targets, table.len()),
    ensures
        forall|i: int| 0 <= i < table.len() ==> shuffled_with(table, targets)[i] != table[i],
{
    lemma_shuffle_stirs(table, targets);
    let now = shuffled_with(table, targets);
    // The last step exchanged the first two places.
    let earlier = targets.drop_last();
    let before = shuffled_with(table, earlier);
    assert forall|k: int| 0 <= k < earlier.len() implies 0 <= #[trigger] earlier[k] < table.len()
        - 1 - k by {
        assert(earlier[k] == targets[k]);
    }
    lemma_shuffle_stirs(table, earlier);
    assert(targets.last() == 0);
    assert(now == exchanged(before, 1, 0));
    assert(now[0] == before[1]);
    if before[1] == table[1] {
    } else {
        assert(before[1] != table[0]);
    }
    assert forall|i: int| 0 <= i < table.len() implies now[i] != table[i] by {
        if i >= 1 {
            assert(now[i] != table[i]);
        }
    }
}

} // verus!
