use bevy::image::{ImageFilterMode, ImageSampler};
use bevy::render::render_resource::TextureFormat;
use wavefield::height::{TerrainChunk, SQUARE};
use wavefield::waves::{square_neighborhood, Direction, Waves, MAX_RADIUS};

fn vec2(x: f32, y: f32) -> Direction {
    Direction { x: x.to_bits(), y: y.to_bits() }
}

const ZERO: Direction = Direction { x: 0, y: 0 };

fn ring() -> TerrainChunk {
    let mut terrain = TerrainChunk::zero();
    for x in [0, SQUARE - 1] {
        for y in 0..SQUARE {
            terrain.set(x, y, 1.0f32.to_bits());
        }
    }
    for y in [0, SQUARE - 1] {
        for x in 0..SQUARE {
            terrain.set(x, y, 1.0f32.to_bits());
        }
    }
    terrain
}

/// The direction of a water cell, worked out in single precision from the
/// land around it.
fn by_hand(terrain: &TerrainChunk, x: usize, y: usize) -> Direction {
    for r in 1..=MAX_RADIUS as isize {
        let (mut sx, mut sy, mut n) = (0.0f32, 0.0f32, 0usize);
        for ly in (y as isize - r).max(0)..=(y as isize + r).min(SQUARE as isize - 1) {
            for lx in (x as isize - r).max(0)..=(x as isize + r).min(SQUARE as isize - 1) {
                if f32::from_bits(terrain.get(lx as usize, ly as usize)) > 0.5 {
                    sx += x as f32 - lx as f32;
                    sy += y as f32 - ly as f32;
                    n += 1;
                }
            }
        }
        if n > 0 {
            return vec2(sx / n as f32, sy / n as f32);
        }
    }
    ZERO
}

#[test]
fn waves_init() {
    let terrain = ring();
    let waves = Waves::init(&terrain);

    assert_eq!(waves.get(0, 0), ZERO);
    assert_eq!(waves.get(1, 0), ZERO);
    assert_eq!(waves.get(0, 1), ZERO);
    // The window of radius 1 around (1, 1) holds five land cells, (0, 0),
    // (1, 0), (2, 0), (0, 1) and (0, 2); the vectors from them add up to
    // (2, 2).
    assert_eq!(waves.get(1, 1), vec2(2.0 / 5.0, 2.0 / 5.0));
}

#[test]
fn ring_of_land_pushes_towards_the_middle() {
    let waves = Waves::init(&ring());
    // Next to the left shore, away from the corners: three land cells, each
    // one column to the left.
    assert_eq!(waves.get(1, 7), vec2(1.0, 0.0));
    assert_eq!(waves.get(14, 7), vec2(-1.0, 0.0));
    assert_eq!(waves.get(7, 1), vec2(0.0, 1.0));
    assert_eq!(waves.get(7, 14), vec2(0.0, -1.0));
    // Two cells from the shore the window of radius 2 is the first with land.
    assert_eq!(waves.get(2, 7), vec2(2.0, 0.0));
    // In the corner the window of radius 2 holds nine land cells; the vectors
    // from them add up to (8, 8).
    assert_eq!(waves.get(2, 2), vec2(8.0 / 9.0, 8.0 / 9.0));
    assert_eq!(waves.get(4, 7), vec2(4.0, 0.0));
    assert_eq!(waves.get(14, 14), vec2(-0.4, -0.4));
}

#[test]
fn water_far_from_land_is_calm() {
    let waves = Waves::init(&ring());
    // Five cells or more from every shore.
    for y in 5..=10 {
        for x in 5..=10 {
            assert_eq!(waves.get(x, y), ZERO);
        }
    }
    assert_ne!(waves.get(4, 5), ZERO);
}

#[test]
fn open_sea_has_no_direction() {
    let waves = Waves::init(&TerrainChunk::zero());
    for y in 0..SQUARE {
        for x in 0..SQUARE {
            assert_eq!(waves.get(x, y), ZERO);
        }
    }
}

#[test]
fn first_window_with_land_wins() {
    let mut terrain = TerrainChunk::zero();
    terrain.set(8, 7, 1.0f32.to_bits());
    terrain.set(12, 8, 1.0f32.to_bits());
    let waves = Waves::init(&terrain);
    // Radius 1 finds (8, 7) only, though (12, 8) would be found at radius 4.
    assert_eq!(waves.get(8, 8), vec2(0.0, 1.0));
    // From (10, 8) both are found at radius 2.
    assert_eq!(waves.get(10, 8), vec2(0.0, 0.5));
    // From (3, 7) nothing lies within radius 4.
    assert_eq!(waves.get(3, 7), ZERO);
    assert_eq!(waves.get(4, 7), vec2(-4.0, 0.0));
    // Land cells keep the zero vector.
    assert_eq!(waves.get(8, 7), ZERO);
}

#[test]
fn land_on_both_sides_cancels() {
    let mut terrain = TerrainChunk::zero();
    terrain.set(7, 8, 1.0f32.to_bits());
    terrain.set(9, 8, 1.0f32.to_bits());
    let waves = Waves::init(&terrain);
    assert_eq!(waves.get(8, 8), ZERO);
    assert_eq!(waves.wave_direction((8, 8)), None);
}

#[test]
fn every_cell_matches_single_precision() {
    let mut terrain = TerrainChunk::zero();
    let mut state = 3u64;
    for y in 0..SQUARE {
        for x in 0..SQUARE {
            state = state.wrapping_mul(6364136223846793005).wrapping_add(1442695040888963407);
            let h = ((state >> 33) % 1000) as f32 / 1000.0;
            terrain.set(x, y, (h * h).to_bits());
        }
    }
    let waves = Waves::init(&terrain);
    let mut water = 0;
    for y in 0..SQUARE {
        for x in 0..SQUARE {
            if terrain.is_land(x, y) {
                assert_eq!(waves.get(x, y), ZERO);
            } else {
                water += 1;
                assert_eq!(waves.get(x, y), by_hand(&terrain, x, y), "cell ({x}, {y})");
            }
        }
    }
    assert!(water > 50);
}

#[test]
fn init_twice_gives_the_same_field() {
    let terrain = ring();
    let first = Waves::init(&terrain);
    let second = Waves::init(&terrain);
    for y in 0..SQUARE {
        for x in 0..SQUARE {
            assert_eq!(first.get(x, y), second.get(x, y));
        }
    }
    assert_eq!(first.texture_bytes(), second.texture_bytes());
}

#[test]
fn set_changes_one_direction() {
    let mut waves = Waves::init(&TerrainChunk::zero());
    waves.set(4, 9, vec2(1.5, -2.0));
    for y in 0..SQUARE {
        for x in 0..SQUARE {
            let expected = if (x, y) == (4, 9) { vec2(1.5, -2.0) } else { ZERO };
            assert_eq!(waves.get(x, y), expected);
        }
    }
}

#[test]
fn neighborhood_is_cut_off_at_the_edge() {
    assert_eq!(square_neighborhood(0, 0, 1), vec![(0, 0), (1, 0), (0, 1), (1, 1)]);
    assert_eq!(
        square_neighborhood(15, 8, 1),
        vec![(14, 7), (15, 7), (14, 8), (15, 8), (14, 9), (15, 9)]
    );
    assert_eq!(square_neighborhood(5, 5, 0), vec![(5, 5)]);
    assert_eq!(square_neighborhood(8, 8, 2).len(), 25);
    assert_eq!(square_neighborhood(8, 8, 4).len(), 81);
    assert_eq!(square_neighborhood(8, 8, usize::MAX).len(), SQUARE * SQUARE);
    let all = square_neighborhood(3, 12, 100);
    assert_eq!(all[0], (0, 0));
    assert_eq!(all[17], (1, 1));
    assert_eq!(all[255], (15, 15));
}

#[test]
fn neighborhood_goes_row_by_row() {
    let cells = square_neighborhood(4, 9, 2);
    let mut expected = Vec::new();
    for y in 7..=11 {
        for x in 2..=6 {
            expected.push((x, y));
        }
    }
    assert_eq!(cells, expected);
}

#[test]
fn calm_cells_give_no_direction() {
    let waves = Waves::init(&ring());
    for ay in -40isize..40 {
        for ax in -40isize..40 {
            let x = ax.rem_euclid(SQUARE as isize) as usize;
            let y = ay.rem_euclid(SQUARE as isize) as usize;
            let dir = waves.get(x, y);
            let sampled = waves.wave_direction((ax, ay));
            if dir == ZERO {
                assert_eq!(sampled, None);
            } else {
                assert_eq!(sampled, Some(dir));
                let v = (f32::from_bits(dir.x), f32::from_bits(dir.y));
                assert!((v.0 * v.0 + v.1 * v.1).sqrt() > 0.0);
            }
        }
    }
}

#[test]
fn negative_zero_is_calm_too() {
    let mut waves = Waves::init(&TerrainChunk::zero());
    waves.set(2, 3, vec2(-0.0, 0.0));
    waves.set(3, 3, vec2(-0.0, -0.0));
    waves.set(4, 3, vec2(-0.0, 1.0e-40));
    assert_eq!(waves.wave_direction((2, 3)), None);
    assert_eq!(waves.wave_direction((3, 3)), None);
    assert_eq!(waves.wave_direction((4, 3)), Some(vec2(-0.0, 1.0e-40)));
}

#[test]
fn sampling_repeats_with_the_chunk() {
    let waves = Waves::init(&ring());
    assert_eq!(waves.wave_direction((1, 7)), Some(vec2(1.0, 0.0)));
    assert_eq!(waves.wave_direction((17, 7)), Some(vec2(1.0, 0.0)));
    assert_eq!(waves.wave_direction((-15, 23)), Some(vec2(1.0, 0.0)));
    assert_eq!(waves.wave_direction((1 - 16 * 1000, 7 + 16 * 999)), Some(vec2(1.0, 0.0)));
}

#[test]
fn wave_texture_holds_two_numbers_per_cell() {
    let waves = Waves::init(&ring());
    let bytes = waves.texture_bytes();
    assert_eq!(bytes.len(), 8 * SQUARE * SQUARE);
    for y in 0..SQUARE {
        for x in 0..SQUARE {
            let i = 8 * (y * SQUARE + x);
            let dx = f32::from_le_bytes([bytes[i], bytes[i + 1], bytes[i + 2], bytes[i + 3]]);
            let dy = f32::from_le_bytes([bytes[i + 4], bytes[i + 5], bytes[i + 6], bytes[i + 7]]);
            assert_eq!(vec2(dx, dy), waves.get(x, y));
        }
    }
    let at = 8 * (7 * SQUARE + 1);
    assert_eq!(&bytes[at..at + 8], &[0, 0, 0x80, 0x3f, 0, 0, 0, 0]);
}

#[test]
fn wave_image_carries_the_texture() {
    let waves = Waves::init(&ring());
    let image = waves.as_tex();
    assert_eq!(image.data, Some(waves.texture_bytes()));
    assert_eq!(image.texture_descriptor.size.width, SQUARE as u32);
    assert_eq!(image.texture_descriptor.size.height, SQUARE as u32);
    assert_eq!(image.texture_descriptor.format, TextureFormat::Rg32Float);
    match image.sampler {
        ImageSampler::Descriptor(d) => {
            assert!(matches!(d.mag_filter, ImageFilterMode::Nearest));
            assert!(matches!(d.min_filter, ImageFilterMode::Nearest));
        }
        ImageSampler::Default => panic!("the sampler was not set"),
    }
}
