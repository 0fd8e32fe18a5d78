use flatland::grid::{Grid, GridLike};
use flatland::polynomial::Polynomial;
use flatland::scalar::{add_fp, clamp_scalar, div_fp, mul_fp, tdiv, BOUND, SCALE};
use flatland::simulation::config::Config;
use flatland::simulation::conflict::{reduce_potential_moves, PotentialMoves};
use flatland::simulation::score::{ranked_potential_moves, PairwiseTileScorer};
use flatland::simulation::{Element, Phase, State, Tile};

fn uniform_state(width: usize, height: usize, tile: Tile, config: Config) -> State {
    let n = width * height;
    State {
        elements: Grid::from_cells(width, height, vec![tile; n]),
        config,
        potential_moves: Grid::from_cells(width, height, vec![PotentialMoves::new(vec![]); n]),
        conflict_iters: 0,
    }
}

fn state_from_tiles(width: usize, height: usize, tiles: Vec<Tile>, config: Config) -> State {
    let n = width * height;
    State {
        elements: Grid::from_cells(width, height, tiles),
        config,
        potential_moves: Grid::from_cells(width, height, vec![PotentialMoves::new(vec![]); n]),
        conflict_iters: 0,
    }
}

fn assert_bijection(moves: &Grid<(isize, isize)>, width: isize, height: isize) {
    let mut seen = Vec::new();
    for y in 0..height {
        for x in 0..width {
            let s = *moves.get(x, y).expect("in bounds");
            assert!(s.0 >= 0 && s.0 < width && s.1 >= 0 && s.1 < height);
            seen.push(s);
        }
    }
    seen.sort();
    let mut expected = Vec::new();
    for y in 0..height {
        for x in 0..width {
            expected.push((x, y));
        }
    }
    expected.sort();
    assert_eq!(seen, expected);
}

#[test]
fn fixed_point_arithmetic_exact_values() {
    assert_eq!(tdiv(7, 2), 3);
    assert_eq!(tdiv(-7, 2), -3);
    assert_eq!(mul_fp(750, 130), 97);
    assert_eq!(mul_fp(-750, 130), -97);
    assert_eq!(div_fp(500, 250), 2000);
    assert_eq!(div_fp(330, 1530), 215);
    assert_eq!(add_fp(BOUND, BOUND), BOUND);
    assert_eq!(clamp_scalar(-BOUND - 5), -BOUND);
}

#[test]
fn polynomial_eval_exact_values() {
    // air density at saturation 0.6: 0.1 - 0.99 * 0.6
    let p = Polynomial::new(vec![100, -990]);
    assert_eq!(p.eval(600), -494);
    // soil adhesion at saturation 0.7: 3.25 * 0.7 - 2.5 * 0.49
    let q = Polynomial::new(vec![0, 3250, -2500]);
    assert_eq!(q.eval(700), 1050);
    // coefficients are clamped on construction
    let r = Polynomial::new(vec![9000]);
    assert_eq!(r.eval(0), 5000);
}

#[test]
fn tile_quantities_exact_values() {
    let config = Config::default();
    let water = Tile::new(Element::Water, SCALE);
    let air = Tile::new(Element::Air, 600);
    assert_eq!(water.density(&config), 600);
    assert_eq!(air.density(&config), -494);
    assert_eq!(water.adhesion(&config), 750);
    assert_eq!(air.adhesion(&config), 130);
    assert_eq!(air.cohesion(&config), 340);
    assert_eq!(water.attractive_force(&air, &config), 97);
    // the attraction primitive is commutative
    assert_eq!(air.attractive_force(&water, &config), 97);
    assert_eq!(air.attractive_force(&air, &config), 115);
}

#[test]
fn tile_new_clamps_saturation() {
    assert_eq!(Tile::new(Element::Air, -5).saturation(), 0);
    assert_eq!(Tile::new(Element::Air, 2000).saturation(), SCALE);
    assert_eq!(Tile::new(Element::Air, 321).saturation(), 321);
}

#[test]
fn phase_follows_element_and_saturation() {
    let config = Config::default();
    assert_eq!(Tile::new(Element::Air, 100).phase(&config), Phase::Gas);
    assert_eq!(Tile::new(Element::Water, 100).phase(&config), Phase::Liquid);
    assert_eq!(Tile::new(Element::Soil, 900).phase(&config), Phase::Solid);
    assert_eq!(Tile::new(Element::Soil, 901).phase(&config), Phase::Liquid);
}

#[test]
fn position_score_uses_vacated_cell() {
    // a three-cell line [A, mover, B]: scoring the mover's step onto
    // A's cell must treat the mover's own cell as vacated, evaluating
    // the pair (mover, A) there instead of (mover, mover)
    let config = Config::default();
    let tiles = vec![
        Tile::new(Element::Soil, 700),
        Tile::new(Element::Water, SCALE),
        Tile::new(Element::Air, 600),
    ];
    let state = state_from_tiles(3, 1, tiles, config);
    let scorer = PairwiseTileScorer::new(&state);
    // seven absent neighbors contribute adhesion(water)^2 = 562 each,
    // weighted 0.1 -> 56; the redirected neighbor contributes
    // adhesion(water)*adhesion(soil@0.7) = 787, weighted 0.1 -> 78;
    // density weights are zero on the lateral axis; distance penalty 1
    assert_eq!(scorer.position_score(&state.config, 1, 0, 0, 0), 469);
    // without the redirect the same slot would contribute
    // cohesion(water)^2 = 250, weighted -> 25, giving 417 - 1 = 416
    assert_ne!(scorer.position_score(&state.config, 1, 0, 0, 0), 416);
}

#[test]
fn resolution_is_a_bijection_under_contention() {
    // every cell of a three-by-three grid wants the center: one wins,
    // the rest fall back to the nearest free destination
    let config = Config::default();
    let mut state = uniform_state(3, 3, Tile::new(Element::Air, 600), config);
    let scorer = PairwiseTileScorer::new(&state);
    let mut prefs = Vec::new();
    for _ in 0..9 {
        prefs.push(PotentialMoves::new(vec![(1, 1)]));
    }
    state.potential_moves = Grid::from_cells(3, 3, prefs);
    let (moves, iters) = reduce_potential_moves(&scorer, &state.config, &mut state.potential_moves);
    assert_bijection(&moves, 3, 3);
    // every list holds one preference, so at most ten iterations
    assert!(iters >= 1 && iters <= 10);
}

#[test]
fn resolution_is_a_bijection_on_scrambled_preferences() {
    let config = Config::default();
    let mut state = uniform_state(4, 4, Tile::new(Element::Soil, 700), config);
    let scorer = PairwiseTileScorer::new(&state);
    let mut prefs = Vec::new();
    let mut seed: u64 = 42;
    let mut total = 0usize;
    for y in 0..4isize {
        for x in 0..4isize {
            let mut neighborhood = Vec::new();
            for dy in -1..=1isize {
                for dx in -1..=1isize {
                    let (nx, ny) = (x + dx, y + dy);
                    if nx >= 0 && nx < 4 && ny >= 0 && ny < 4 {
                        neighborhood.push((nx, ny));
                    }
                }
            }
            let mut list = Vec::new();
            seed = seed.wrapping_mul(6364136223846793005).wrapping_add(1442695040888963407);
            let count = (seed >> 33) as usize % 4;
            for k in 0..count {
                seed = seed.wrapping_mul(6364136223846793005).wrapping_add(1442695040888963407);
                let pick = (seed >> 33) as usize % neighborhood.len();
                list.push(neighborhood[pick]);
                let _ = k;
            }
            total += list.len();
            prefs.push(PotentialMoves::new(list));
        }
    }
    state.potential_moves = Grid::from_cells(4, 4, prefs);
    let (moves, iters) = reduce_potential_moves(&scorer, &state.config, &mut state.potential_moves);
    assert_bijection(&moves, 4, 4);
    assert!(iters >= 1 && iters <= total + 1);
}

#[test]
fn orphans_take_nearest_free_destination() {
    // with no preferences at all, everyone is an orphan and the
    // row-major fallback maps every cell to itself
    let config = Config::default();
    let mut state = uniform_state(2, 1, Tile::new(Element::Air, 600), config);
    let scorer = PairwiseTileScorer::new(&state);
    let (moves, _) = reduce_potential_moves(&scorer, &state.config, &mut state.potential_moves);
    assert_eq!(*moves.get(0, 0).unwrap(), (0, 0));
    assert_eq!(*moves.get(1, 0).unwrap(), (1, 0));
}

#[test]
fn equal_scores_break_ties_toward_lowest_row_major() {
    // with all weights zeroed only the distance penalty differs, so
    // every cell prefers staying put, then its neighbors in (y, x) order
    let mut config = Config::default();
    config.neighbor_attraction_weights = [0; 8];
    config.neighbor_density_weights = [0; 8];
    let state = uniform_state(3, 3, Tile::new(Element::Air, 600), config);
    let scorer = PairwiseTileScorer::new(&state);
    let pm = ranked_potential_moves(&scorer, &state.config);
    let mut center = pm.get(1, 1).unwrap().clone();
    let mut order = Vec::new();
    while let Some(d) = center.current() {
        order.push(d);
        center.pop();
    }
    assert_eq!(
        order,
        vec![
            (1, 1),
            (0, 0),
            (1, 0),
            (2, 0),
            (0, 1),
            (2, 1),
            (0, 2),
            (1, 2),
            (2, 2)
        ]
    );
}

#[test]
fn water_over_air_prefers_downward() {
    // a three-by-three grid with water at the center and air on all
    // eight neighbors: after one tick the water has moved straight down
    let config = Config::default();
    let mut tiles = vec![Tile::new(Element::Air, 600); 9];
    tiles[4] = Tile::new(Element::Water, SCALE);
    let mut state = state_from_tiles(3, 3, tiles, config);
    state.update();
    let mut water_cells = Vec::new();
    for y in 0..3isize {
        for x in 0..3isize {
            if state.elements.get(x, y).unwrap().element() == Element::Water {
                water_cells.push((x, y));
            }
        }
    }
    assert_eq!(water_cells, vec![(1, 2)]);
}

#[test]
fn saturation_stays_in_range_after_updates() {
    // extreme starting saturations and the maximum diffusion rate
    let mut config = Config::default();
    config.saturation_diffusion_rate = SCALE;
    let mut tiles = Vec::new();
    for k in 0..64 {
        let sat = if k % 2 == 0 { 0 } else { SCALE };
        let e = match k % 3 {
            0 => Element::Air,
            1 => Element::Soil,
            _ => Element::Water,
        };
        tiles.push(Tile::new(e, sat));
    }
    let mut state = state_from_tiles(8, 8, tiles, config);
    for _ in 0..3 {
        state.update();
        for t in state.elements.iter() {
            assert!(t.saturation() >= 0 && t.saturation() <= SCALE);
        }
    }
}

#[test]
fn transition_at_threshold_does_not_oscillate() {
    // a tile exactly at the air-to-water threshold becomes water once
    // and then stays water while its saturation is unchanged
    let config = Config::default();
    let mut state = state_from_tiles(1, 1, vec![Tile::new(Element::Air, 900)], config);
    state.update();
    assert_eq!(state.elements.get(0, 0).unwrap().element(), Element::Water);
    assert_eq!(state.elements.get(0, 0).unwrap().saturation(), 900);
    state.update();
    assert_eq!(state.elements.get(0, 0).unwrap().element(), Element::Water);
    state.update();
    assert_eq!(state.elements.get(0, 0).unwrap().element(), Element::Water);
}

#[test]
fn generated_states_respect_element_saturation_ranges() {
    let state = State::gen(Config::default(), 8, 8);
    assert_eq!(state.elements.iter().len(), 64);
    assert_eq!(state.conflict_iters, 0);
    for p in state.potential_moves.iter() {
        assert!(p.clone().current().is_none());
    }
    for t in state.elements.iter() {
        match t.element() {
            Element::Air => assert!(t.saturation() >= 500 && t.saturation() <= 750),
            Element::Soil => assert!(t.saturation() >= 500 && t.saturation() <= 900),
            Element::Water => assert_eq!(t.saturation(), SCALE),
        }
    }
}

#[test]
fn generated_configs_are_well_formed() {
    let mut rng = rand::thread_rng();
    let a = Config::gen(&mut rng);
    let b = Config::gen(&mut rng);
    for c in [&a, &b] {
        assert!(c.air_to_water_saturation_threshold >= 0);
        assert!(c.air_to_water_saturation_threshold <= SCALE);
        assert!(c.saturation_diffusion_rate >= 0 && c.saturation_diffusion_rate <= SCALE);
        assert!(c.water_to_air_saturation_threshold >= 0);
        assert!(c.water_to_air_saturation_threshold <= SCALE);
    }
    let crossed = a.crossover(&b, &mut rng);
    assert!(crossed.saturation_diffusion_rate >= 0 && crossed.saturation_diffusion_rate <= SCALE);
    let mutated = crossed.mutate(100, &mut rng);
    assert!(mutated.saturation_diffusion_rate >= 0 && mutated.saturation_diffusion_rate <= SCALE);
    for w in mutated.neighbor_density_weights {
        assert!(w >= -5 * SCALE && w <= 5 * SCALE);
    }
}

#[test]
fn update_preserves_grid_shape_and_tile_count() {
    let mut state = State::gen(Config::default(), 16, 16);
    let before: Vec<(Element, i64)> =
        state.elements.iter().iter().map(|t| (t.element(), t.saturation())).collect();
    state.update();
    assert_eq!(state.elements.iter().len(), 256);
    assert!(state.conflict_iters >= 1);
    // movement only permutes tiles; diffusion and transitions change
    // values afterwards, so only the count is compared here
    assert_eq!(before.len(), 256);
}
