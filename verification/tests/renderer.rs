use pathtracer::renderer::{
    assemble, partial_render, place_tile, render, tile_origins, Collector, Tile, TileError,
};

fn renderer_shade(x: usize, y: usize) -> (u8, u8, u8) {
    ((x * 16 + y) as u8, (200 - x) as u8, (100 + y * 3) as u8)
}

fn renderer_tiles(width: usize, height: usize, block: usize) -> Vec<Tile> {
    let _ = (width, height);
    tile_origins(width, height, block)
        .into_iter()
        .map(|(i, j)| Tile {
            start_x: i,
            start_y: j,
            data: partial_render(i, j, block, block, &renderer_shade),
        })
        .collect()
}

#[test]
fn tile_origins_go_up_the_image_row_by_row() {
    assert_eq!(tile_origins(4, 4, 2), vec![(0, 0), (2, 0), (0, 2), (2, 2)]);
    assert_eq!(tile_origins(6, 2, 2), vec![(0, 0), (2, 0), (4, 0)]);
    assert_eq!(tile_origins(2, 6, 2), vec![(0, 0), (0, 2), (0, 4)]);
    assert_eq!(tile_origins(4, 4, 4), vec![(0, 0)]);
}

#[test]
fn tile_origins_of_an_empty_image_are_none() {
    assert_eq!(tile_origins(0, 0, 16), vec![]);
    assert_eq!(tile_origins(0, 8, 4), vec![]);
    assert_eq!(tile_origins(8, 0, 4), vec![]);
}

#[test]
fn tile_origins_reach_beyond_an_image_that_is_no_multiple() {
    assert_eq!(tile_origins(5, 3, 2), vec![(0, 0), (2, 0), (4, 0), (0, 2), (2, 2), (4, 2)]);
}

#[test]
fn partial_render_lays_lines_out_from_the_top() {
    let data = partial_render(1, 2, 2, 2, &renderer_shade);
    let mut expected = Vec::new();
    for (x, y) in [(1, 3), (2, 3), (1, 2), (2, 2)] {
        let (r, g, b) = renderer_shade(x, y);
        expected.extend_from_slice(&[r, g, b]);
    }
    assert_eq!(data, expected);
}

#[test]
fn partial_render_of_nothing_is_empty() {
    assert_eq!(partial_render(3, 4, 0, 5, &renderer_shade), Vec::<u8>::new());
    assert_eq!(partial_render(3, 4, 5, 0, &renderer_shade), Vec::<u8>::new());
}

#[test]
fn place_tile_writes_under_the_tile_only() {
    let (width, height, block) = (4usize, 4usize, 2usize);
    let mut data = vec![7u8; width * height * 3];
    let tile = Tile { start_x: 2, start_y: 0, data: (1u8..=12).collect() };
    place_tile(&mut data, width, height, block, &tile);
    for row in 0..height {
        for col in 0..width {
            for ch in 0..3 {
                let at = (row * width + col) * 3 + ch;
                // the tile at image line 0 lies in the two bottom rows of the frame
                if row >= 2 && col >= 2 {
                    let local = ((row - 2) * block + (col - 2)) * 3 + ch;
                    assert_eq!(data[at], (local + 1) as u8);
                } else {
                    assert_eq!(data[at], 7);
                }
            }
        }
    }
}

#[test]
fn assemble_gives_the_same_frame_in_any_order() {
    let (width, height, block) = (6usize, 4usize, 2usize);
    let tiles = renderer_tiles(width, height, block);
    assert_eq!(tiles.len(), 6);
    let in_order = assemble(width, height, block, &tiles);
    let whole = partial_render(0, 0, width, height, &renderer_shade);
    assert_eq!(in_order, whole);
    let orders: [[usize; 6]; 4] =
        [[5, 4, 3, 2, 1, 0], [2, 0, 5, 1, 4, 3], [1, 0, 3, 2, 5, 4], [3, 5, 0, 4, 2, 1]];
    for order in orders.iter() {
        let shuffled: Vec<Tile> = order
            .iter()
            .map(|&k| Tile {
                start_x: tiles[k].start_x,
                start_y: tiles[k].start_y,
                data: tiles[k].data.clone(),
            })
            .collect();
        assert_eq!(assemble(width, height, block, &shuffled), whole);
    }
}

#[test]
fn assemble_leaves_blank_what_no_tile_covers() {
    let (width, height, block) = (4usize, 4usize, 2usize);
    let tiles = vec![Tile { start_x: 0, start_y: 2, data: vec![9u8; block * block * 3] }];
    let data = assemble(width, height, block, &tiles);
    for row in 0..height {
        for col in 0..width {
            for ch in 0..3 {
                let expected = if row < 2 && col < 2 { 9 } else { 0 };
                assert_eq!(data[(row * width + col) * 3 + ch], expected);
            }
        }
    }
}

#[test]
fn assemble_lets_the_last_tile_win() {
    let (width, height, block) = (2usize, 2usize, 2usize);
    let tiles = vec![
        Tile { start_x: 0, start_y: 0, data: vec![1u8; 12] },
        Tile { start_x: 0, start_y: 0, data: vec![2u8; 12] },
    ];
    assert_eq!(assemble(width, height, block, &tiles), vec![2u8; 12]);
}

#[test]
fn render_agrees_with_one_tile_over_the_whole_image() {
    for &(width, height, block) in [(8usize, 8usize, 4usize), (6, 4, 2), (4, 4, 1), (3, 3, 3)].iter()
    {
        let tiled = render(width, height, block, &renderer_shade);
        let whole = partial_render(0, 0, width, height, &renderer_shade);
        assert_eq!(tiled, whole);
        for row in 0..height {
            for col in 0..width {
                let (r, g, b) = renderer_shade(col, height - 1 - row);
                let at = (row * width + col) * 3;
                assert_eq!((tiled[at], tiled[at + 1], tiled[at + 2]), (r, g, b));
            }
        }
    }
}

#[test]
fn render_of_an_empty_image_is_empty() {
    assert_eq!(render(0, 0, 16, &renderer_shade), Vec::<u8>::new());
}

#[test]
fn collector_hands_the_frame_out_once_every_tile_has_come() {
    let (width, height, block) = (6usize, 4usize, 2usize);
    let whole = partial_render(0, 0, width, height, &renderer_shade);
    for order in [[0usize, 1, 2, 3, 4, 5], [5, 3, 1, 4, 2, 0], [2, 5, 0, 3, 1, 4]].iter() {
        let mut tiles: Vec<Option<Tile>> =
            renderer_tiles(width, height, block).into_iter().map(Some).collect();
        let mut frame = Collector::new(width, height, block);
        assert_eq!(frame.remaining(), 6);
        for (n, &k) in order.iter().enumerate() {
            assert_eq!(frame.accept(tiles[k].take().unwrap()), Ok(()));
            assert_eq!(frame.remaining(), 5 - n);
        }
        assert_eq!(frame.finish(), Some(whole.clone()));
    }
}

#[test]
fn collector_keeps_the_frame_while_tiles_are_missing() {
    let (width, height, block) = (4usize, 4usize, 2usize);
    let mut frame = Collector::new(width, height, block);
    let mut tiles = renderer_tiles(width, height, block);
    tiles.pop();
    for tile in tiles {
        assert_eq!(frame.accept(tile), Ok(()));
    }
    assert_eq!(frame.remaining(), 1);
    assert_eq!(frame.finish(), None);
    assert_eq!(Collector::new(0, 0, 4).finish(), Some(vec![]));
}

#[test]
fn collector_turns_away_what_is_no_tile_of_the_grid() {
    let (width, height, block) = (4usize, 4usize, 2usize);
    let mut frame = Collector::new(width, height, block);
    let tile = |x: usize, y: usize, len: usize| Tile { start_x: x, start_y: y, data: vec![5u8; len] };
    assert_eq!(frame.accept(tile(1, 0, 12)), Err(TileError::OffGrid));
    assert_eq!(frame.accept(tile(0, 3, 12)), Err(TileError::OffGrid));
    assert_eq!(frame.accept(tile(4, 0, 12)), Err(TileError::OffGrid));
    assert_eq!(frame.accept(tile(0, 4, 12)), Err(TileError::OffGrid));
    assert_eq!(frame.accept(tile(usize::MAX - 1, 0, 12)), Err(TileError::OffGrid));
    assert_eq!(frame.accept(tile(0, 0, 11)), Err(TileError::WrongSize));
    assert_eq!(frame.accept(tile(0, 0, 13)), Err(TileError::WrongSize));
    assert_eq!(frame.accept(tile(1, 0, 11)), Err(TileError::OffGrid));
    assert_eq!(frame.remaining(), 4);
    assert_eq!(frame.accept(tile(2, 0, 12)), Ok(()));
    assert_eq!(frame.accept(tile(2, 0, 12)), Err(TileError::Duplicate));
    assert_eq!(frame.accept(tile(2, 0, 11)), Err(TileError::WrongSize));
    assert_eq!(frame.remaining(), 3);
    // what was turned away has left no mark
    let mut expected = vec![0u8; width * height * 3];
    for row in 2..4 {
        for col in 2..4 {
            for ch in 0..3 {
                expected[(row * width + col) * 3 + ch] = 5;
            }
        }
    }
    assert_eq!(frame.data, expected);
}
