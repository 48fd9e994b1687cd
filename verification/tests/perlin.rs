use pathtracer::perlin::{generate_permutation, permutation_from, Perlin, PERLIN_SIZE};
use pathtracer::scalar::Scalar;
use pathtracer::vector::Vec3;

fn perlin_grid() -> Vec<Vec3> {
    (0..PERLIN_SIZE as u32)
        .map(|k| Vec3::new(Scalar::from_bits(k), Scalar::from_bits(k + 1000), Scalar::from_bits(k + 2000)))
        .collect()
}

#[test]
fn shuffle_by_given_draws_swaps_entry_by_entry() {
    // every draw names the next position: the first entry travels to the end
    let draws: Vec<usize> = (0..PERLIN_SIZE).map(|i| (i + 1) % PERLIN_SIZE).collect();
    let p = permutation_from(&draws);
    assert_eq!(p.len(), PERLIN_SIZE);
    // steps 0 .. 254 carry entry 0 to the last place; the last step swaps it back to the front
    let mut expected: Vec<u8> = (0..PERLIN_SIZE).map(|k| k as u8).collect();
    for i in 0..PERLIN_SIZE {
        let j = draws[i];
        expected.swap(i, j);
    }
    assert_eq!(p, expected);
    assert_eq!(p[0], 0);
    assert_eq!(p[1], 2);
    assert_eq!(p[255], 1);
}

#[test]
fn a_draw_of_the_position_itself_clears_the_entry() {
    let mut draws: Vec<usize> = (0..PERLIN_SIZE).map(|i| (i + 1) % PERLIN_SIZE).collect();
    draws[10] = 10;
    let p = permutation_from(&draws);
    let mut expected: Vec<u8> = (0..PERLIN_SIZE).map(|k| k as u8).collect();
    for i in 0..PERLIN_SIZE {
        let j = draws[i];
        if i == j {
            expected[i] = 0;
        } else {
            expected.swap(i, j);
        }
    }
    assert_eq!(p, expected);
    assert_eq!(p[10], 0);
    // all draws equal to their position clear the whole table
    let own: Vec<usize> = (0..PERLIN_SIZE).collect();
    assert_eq!(permutation_from(&own), vec![0u8; PERLIN_SIZE]);
}

#[test]
fn generated_tables_have_256_entries_and_differ() {
    let a = generate_permutation();
    let b = generate_permutation();
    assert_eq!(a.len(), PERLIN_SIZE);
    assert_eq!(b.len(), PERLIN_SIZE);
    let identity: Vec<u8> = (0..PERLIN_SIZE).map(|k| k as u8).collect();
    assert_ne!(a, identity);
    assert_ne!(a, b);
}

#[test]
fn hash_combines_the_three_tables() {
    let noise = Perlin::new(perlin_grid());
    assert_eq!(noise.grid, perlin_grid());
    for &(x, y, z) in [(0usize, 0usize, 0usize), (1, 2, 3), (255, 255, 255), (17, 200, 99)].iter() {
        let expected = (noise.perm_x[x] ^ noise.perm_y[y] ^ noise.perm_z[z]) as usize;
        assert_eq!(noise.hash(x, y, z), expected);
    }
}

#[test]
fn corners_wrap_round_the_lattice() {
    let mut noise = Perlin::new(perlin_grid());
    noise.perm_x = (0..PERLIN_SIZE).map(|k| k as u8).collect();
    noise.perm_y = vec![0u8; PERLIN_SIZE];
    noise.perm_z = vec![0u8; PERLIN_SIZE];
    // with these tables the hash of a lattice point is its x
    let at = |k: u32| Vec3::new(Scalar::from_bits(k), Scalar::from_bits(k + 1000), Scalar::from_bits(k + 2000));
    let c = noise.corners(3, 7, 9);
    assert_eq!((c.c000, c.c001, c.c010, c.c011), (at(3), at(3), at(3), at(3)));
    assert_eq!((c.c100, c.c101, c.c110, c.c111), (at(4), at(4), at(4), at(4)));
    let c = noise.corners(255, 0, 0);
    assert_eq!((c.c000, c.c100), (at(255), at(0)));
    let c = noise.corners(256 + 5, 1000, usize::MAX);
    assert_eq!((c.c000, c.c100), (at(5), at(6)));
    noise.perm_x = vec![0u8; PERLIN_SIZE];
    noise.perm_z = (0..PERLIN_SIZE).map(|k| k as u8).collect();
    let c = noise.corners(0, 0, usize::MAX);
    assert_eq!((c.c000, c.c001, c.c110, c.c111), (at(255), at(0), at(255), at(0)));
}
