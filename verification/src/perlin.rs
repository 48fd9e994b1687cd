//! The lattice of the noise function: three shuffled tables, and the choice
//! of the eight gradients around a point.

use vstd::prelude::*;
use crate::random::random_below;
use crate::vector::Vec3;

verus! {

/// The number of entries of each table, and of gradients.
pub const PERLIN_SIZE: usize = 256;

/// The table after one step of the shuffle: the entries at `i` and `j` change
/// places; where `j` is `i` itself, the entry is cleared.
pub open spec fn shuffle_step(p: Seq<u8>, i: int, j: int) -> Seq<u8> {
    if i == j {
        p.update(i, 0u8)
    } else {
        p.update(i, p[j]).update(j, p[i])
    }
}

/// The table after the first `n` steps of the shuffle that `draws` describes,
/// starting from the table that holds each position at its place: step `i`
/// is taken with `i` and `draws[i]`.
pub open spec fn shuffled(draws: Seq<usize>, n: int) -> Seq<u8>
    decreases n,
{
    if n <= 0 {
        Seq::new(PERLIN_SIZE as nat, |k: int| k as u8)
    } else {
        shuffle_step(shuffled(draws, n - 1), n - 1, draws[n - 1] as int)
    }
}

/// Where no draw names its own position, the shuffled table holds every
/// value from 0 to 255 once: it is a permutation.
pub proof fn lemma_shuffle_without_clears_permutes(draws: Seq<usize>, n: int)
    requires
        0 <= n <= PERLIN_SIZE,
        draws.len() == PERLIN_SIZE,
        forall|i: int| 0 <= i < n ==> (#[trigger] draws[i]) < PERLIN_SIZE && draws[i] != i,
    ensures
        shuffled(draws, n).len() == PERLIN_SIZE,
        shuffled(draws, n).no_duplicates(),
    decreases n,
{
    if n > 0 {
        lemma_shuffle_without_clears_permutes(draws, n - 1);
        let before = shuffled(draws, n - 1);
        let after = shuffled(draws, n);
        let i = n - 1;
        let j = draws[n - 1] as int;
        assert forall|a: int, b: int|
            0 <= a < after.len() && 0 <= b < after.len() && a != b implies after[a] != after[b] by {
            let from = |k: int|
                if k == i {
                    j
                } else if k == j {
                    i
                } else {
                    k
                };
            assert(after[a] == before[from(a)]);
            assert(after[b] == before[from(b)]);
        }
    }
}

/// The shuffle of a table by given draws, one for each position.
pub fn permutation_from(draws: &Vec<usize>) -> (p: Vec<u8>)
    requires
        draws@.len() == PERLIN_SIZE,
        forall|i: int| 0 <= i < PERLIN_SIZE ==> (#[trigger] draws@[i]) < PERLIN_SIZE,
    ensures
        p@ == shuffled(draws@, PERLIN_SIZE as int),
        p@.len() == PERLIN_SIZE,
{
    let mut p: Vec<u8> = Vec::new();
    let mut k: usize = 0;
    while k < PERLIN_SIZE
        invariant
            k <= PERLIN_SIZE,
            p@.len() == k,
            forall|i: int| 0 <= i < k ==> p@[i] == i as u8,
        decreases PERLIN_SIZE - k,
    {
        p.push(k as u8);
        k += 1;
    }
    proof {
        assert(p@ =~= shuffled(draws@, 0));
    }
    let mut i: usize = 0;
    while i < PERLIN_SIZE
        invariant
            i <= PERLIN_SIZE,
            draws@.len() == PERLIN_SIZE,
            forall|k: int| 0 <= k < PERLIN_SIZE ==> (#[trigger] draws@[k]) < PERLIN_SIZE,
            p@.len() == PERLIN_SIZE,
            p@ == shuffled(draws@, i as int),
        decreases PERLIN_SIZE - i,
    {
        let j: usize = draws[i];
        if i == j {
            p.set(i, 0u8);
        } else {
            let at_i: u8 = p[i];
            let at_j: u8 = p[j];
            p.set(i, at_j);
            p.set(j, at_i);
        }
        i += 1;
    }
    p
}

/// The table is the shuffle by some draws that are all below 255.
pub open spec fn is_shuffle(p: Seq<u8>) -> bool {
    exists|draws: Seq<usize>|
        {
            &&& draws.len() == PERLIN_SIZE
            &&& forall|i: int| 0 <= i < PERLIN_SIZE ==> (#[trigger] draws[i]) < 255
            &&& p == shuffled(draws, PERLIN_SIZE as int)
        }
}

/// A shuffled table. The draws are made with the library's random source,
/// each below 255; the table is the shuffle by those draws.
pub fn generate_permutation() -> (p: Vec<u8>)
    ensures
        p@.len() == PERLIN_SIZE,
        is_shuffle(p@),
{
    let mut draws: Vec<usize> = Vec::new();
    let mut i: usize = 0;
    while i < PERLIN_SIZE
        invariant
            i <= PERLIN_SIZE,
            draws@.len() == i,
            forall|k: int| 0 <= k < i ==> (#[trigger] draws@[k]) < 255,
        decreases PERLIN_SIZE - i,
    {
        let j = random_below(255);
        draws.push(j);
        i += 1;
    }
    let p = permutation_from(&draws);
    proof {
        let witness = draws@;
        assert(witness.len() == PERLIN_SIZE && (forall|i: int|
            0 <= i < PERLIN_SIZE ==> (#[trigger] witness[i]) < 255) && p@ == shuffled(
            witness,
            PERLIN_SIZE as int,
        ));
    }
    p
}

/// The lattice of the noise function: a table of 256 gradients, and one
/// shuffled table for each axis, by which a lattice point finds its gradient.
pub struct Perlin {
    pub perm_x: Vec<u8>,
    pub perm_y: Vec<u8>,
    pub perm_z: Vec<u8>,
    pub grid: Vec<Vec3>,
}

/// The gradients at the eight corners of a lattice cell, named by the offset
/// of the corner along x, y and z.
#[derive(Clone, Copy, Debug)]
pub struct Corners {
    pub c000: Vec3,
    pub c001: Vec3,
    pub c010: Vec3,
    pub c011: Vec3,
    pub c100: Vec3,
    pub c101: Vec3,
    pub c110: Vec3,
    pub c111: Vec3,
}

/// A lattice coordinate, brought into the table: the coordinate moved by
/// `offset`, modulo the size of the table.
pub open spec fn wrapped(at: usize, offset: int) -> int {
    ((at as int) % 256 + offset) % 256
}

impl Perlin {
    /// All four tables have 256 entries.
    pub open spec fn wf(self) -> bool {
        &&& self.perm_x@.len() == PERLIN_SIZE
        &&& self.perm_y@.len() == PERLIN_SIZE
        &&& self.perm_z@.len() == PERLIN_SIZE
        &&& self.grid@.len() == PERLIN_SIZE
    }

    /// The place in the table of gradients of the lattice point `(x, y, z)`.
    pub open spec fn hash_of(self, x: int, y: int, z: int) -> u8 {
        self.perm_x@[x] ^ self.perm_y@[y] ^ self.perm_z@[z]
    }

    /// The gradient of the corner of the cell of `(x, y, z)` that lies `dx`,
    /// `dy`, `dz` further along the axes.
    pub open spec fn gradient_of(self, x: usize, y: usize, z: usize, dx: int, dy: int, dz: int) -> Vec3 {
        self.grid@[self.hash_of(wrapped(x, dx), wrapped(y, dy), wrapped(z, dz)) as int]
    }

    /// A lattice over the given gradients, with three freshly shuffled tables.
    pub fn new(grid: Vec<Vec3>) -> (noise: Perlin)
        requires
            grid@.len() == PERLIN_SIZE,
        ensures
            noise.wf(),
            noise.grid@ == grid@,
            is_shuffle(noise.perm_x@),
            is_shuffle(noise.perm_y@),
            is_shuffle(noise.perm_z@),
    {
        Perlin {
            grid,
            perm_x: generate_permutation(),
            perm_y: generate_permutation(),
            perm_z: generate_permutation(),
        }
    }

    /// The place in the table of gradients of a lattice point.
    pub fn hash(&self, x: usize, y: usize, z: usize) -> (h: usize)
        requires
            self.wf(),
            x < PERLIN_SIZE,
            y < PERLIN_SIZE,
            z < PERLIN_SIZE,
        ensures
            h == self.hash_of(x as int, y as int, z as int),
            h < PERLIN_SIZE,
    {
        (self.perm_x[x] ^ self.perm_y[y] ^ self.perm_z[z]) as usize
    }

    /// The gradients at the eight corners of the cell that holds the lattice
    /// point `(x, y, z)`.
    pub fn corners(&self, x: usize, y: usize, z: usize) -> (c: Corners)
        requires
            self.wf(),
        ensures
            c.c000 == self.gradient_of(x, y, z, 0, 0, 0),
            c.c001 == self.gradient_of(x, y, z, 0, 0, 1),
            c.c010 == self.gradient_of(x, y, z, 0, 1, 0),
            c.c011 == self.gradient_of(x, y, z, 0, 1, 1),
            c.c100 == self.gradient_of(x, y, z, 1, 0, 0),
            c.c101 == self.gradient_of(x, y, z, 1, 0, 1),
            c.c110 == self.gradient_of(x, y, z, 1, 1, 0),
            c.c111 == self.gradient_of(x, y, z, 1, 1, 1),
    {
        let xi: usize = x % PERLIN_SIZE;
        let xi1: usize = (xi + 1) % PERLIN_SIZE;
        let yi: usize = y % PERLIN_SIZE;
        let yi1: usize = (yi + 1) % PERLIN_SIZE;
        let zi: usize = z % PERLIN_SIZE;
        let zi1: usize = (zi + 1) % PERLIN_SIZE;
        proof {
            assert(xi == wrapped(x, 0) && xi1 == wrapped(x, 1));
            assert(yi == wrapped(y, 0) && yi1 == wrapped(y, 1));
            assert(zi == wrapped(z, 0) && zi1 == wrapped(z, 1));
        }
        Corners {
            c000: self.grid[self.hash(xi, yi, zi)],
            c001: self.grid[self.hash(xi, yi, zi1)],
            c010: self.grid[self.hash(xi, yi1, zi)],
            c011: self.grid[self.hash(xi, yi1, zi1)],
            c100: self.grid[self.hash(xi1, yi, zi)],
            c101: self.grid[self.hash(xi1, yi, zi1)],
            c110: self.grid[self.hash(xi1, yi1, zi)],
            c111: self.grid[self.hash(xi1, yi1, zi1)],
        }
    }
}

} // verus!
