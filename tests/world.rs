use bugshine::{shade, sole_active_species, Config, Fate, InitError, Tile, World, CHANCE_SCALE};

fn config(width: usize, height: usize, species: usize, max_age: u8) -> Config {
    let mut palette = Vec::new();
    for s in 0..species {
        palette.push([(s * 40) as u8, 20, 30, 255]);
    }
    Config {
        width,
        height,
        species,
        max_age,
        skip_chance: 0,
        deactive_chance: 0,
        pulse_chance: 0,
        palette,
    }
}

fn tiles_of(world: &World) -> Vec<Tile> {
    let mut v = Vec::new();
    for y in 0..world.height() {
        for x in 0..world.width() {
            v.push(world.tile(x, y));
        }
    }
    v
}

fn roots_of(world: &World, species: usize) -> Vec<(usize, usize)> {
    (0..species).map(|s| world.root(s)).collect()
}

#[test]
fn single_species_survives() {
    let walls = vec![false; 4];
    let mut world = World::new(config(2, 2, 1, 1), &walls, 7).unwrap();
    let bugs: Vec<Tile> = tiles_of(&world).into_iter().filter(|t| *t != Tile::Empty).collect();
    assert_eq!(bugs, vec![Tile::Bug(0, 1)]);
    assert_eq!(world.winner(), None);
    world.tick();
    assert_eq!(world.winner(), Some(0));
    assert!(world.is_game_over());
}

#[test]
fn deterministic_spread_on_empty_board() {
    let walls = vec![false; 3];
    let max_age = 8;
    let mut world = World::from_layout(config(3, 1, 1, max_age), &walls, &vec![(0, 0)], 1).unwrap();
    world.tick();
    assert_eq!(world.tile(1, 0), Tile::Bug(0, max_age));
    assert!(world.frontier().contains(&(1, 0)));
    assert_eq!(world.tile(0, 0), Tile::Bug(0, max_age - 1));
    assert_eq!(world.tile(2, 0), Tile::Empty);
    assert_eq!(world.ticks(), 1);
}

#[test]
fn render_color_mapping() {
    let mut cfg = config(2, 1, 1, 10);
    cfg.palette = vec![[10, 20, 30, 255]];
    let world = World::from_layout(cfg, &vec![false, true], &vec![(0, 0)], 3).unwrap();
    let mut frame = vec![9u8; 8];
    world.draw(&mut frame);
    assert_eq!(frame, vec![50, 60, 70, 255, 32, 32, 32, 255]);
}

#[test]
fn render_clamps_at_255_and_clears_empty_cells() {
    let mut cfg = config(2, 1, 1, 10);
    cfg.palette = vec![[250, 215, 0, 7]];
    let world = World::from_layout(cfg, &vec![false, false], &vec![(1, 0)], 3).unwrap();
    let mut frame = vec![9u8; 8];
    world.draw(&mut frame);
    assert_eq!(frame, vec![0, 0, 0, 0, 255, 255, 40, 7]);
}

#[test]
fn shade_brightens_each_colour_channel() {
    assert_eq!(shade([10, 20, 30, 255], 10), [50, 60, 70, 255]);
    assert_eq!(shade([10, 20, 30, 128], 0), [10, 20, 30, 128]);
    assert_eq!(shade([200, 0, 255, 0], 255), [255, 255, 255, 0]);
}

#[test]
fn click_outside_ownership_changes_nothing() {
    let walls = vec![false, true, false, false];
    let world_cfg = config(2, 2, 2, 6);
    let mut world = World::from_layout(world_cfg, &walls, &vec![(0, 0), (1, 1)], 5).unwrap();
    let tiles = tiles_of(&world);
    let frontier = world.frontier();
    let roots = roots_of(&world, 2);
    // a wall, an empty cell, a rival's cell, and cells off the board
    for (x, y) in [(1, 0), (0, 1), (1, 1), (2, 0), (0, 2), (usize::MAX, usize::MAX)] {
        world.click(x, y);
        assert_eq!(tiles_of(&world), tiles);
        assert_eq!(world.frontier(), frontier);
        assert_eq!(roots_of(&world, 2), roots);
    }
}

#[test]
fn click_on_own_cell_reinforces_it() {
    let walls = vec![false; 3];
    let mut cfg = config(3, 1, 2, 4);
    cfg.deactive_chance = CHANCE_SCALE;
    let mut world = World::from_layout(cfg, &walls, &vec![(0, 0), (2, 0)], 5).unwrap();
    world.tick();
    assert_eq!(world.tile(0, 0), Tile::Bug(0, 3));
    assert!(world.frontier().is_empty());
    world.click(0, 0);
    assert_eq!(world.tile(0, 0), Tile::Bug(0, 4));
    assert_eq!(world.root(0), (0, 0));
    assert_eq!(world.frontier(), vec![(0, 0)]);
}

#[test]
fn dormant_cells_still_age() {
    let mut cfg = config(1, 1, 1, 5);
    cfg.deactive_chance = CHANCE_SCALE;
    let mut world = World::from_layout(cfg, &vec![false], &vec![(0, 0)], 11).unwrap();
    world.tick();
    assert_eq!(world.tile(0, 0), Tile::Bug(0, 4));
    assert!(world.frontier().is_empty());
    assert_eq!(world.winner(), None);
    for _ in 0..10 {
        world.tick();
    }
    assert_eq!(world.tile(0, 0), Tile::Bug(0, 0));
}

#[test]
fn skipped_cells_stay_active_without_counting() {
    let mut cfg = config(2, 1, 1, 5);
    cfg.skip_chance = CHANCE_SCALE;
    let mut world = World::from_layout(cfg, &vec![false, false], &vec![(0, 0)], 11).unwrap();
    world.tick();
    assert_eq!(world.frontier(), vec![(0, 0)]);
    assert_eq!(world.tile(1, 0), Tile::Empty);
    assert_eq!(world.winner(), None);
}

#[test]
fn pulse_refreshes_the_root() {
    let mut cfg = config(1, 1, 1, 5);
    cfg.pulse_chance = CHANCE_SCALE;
    let mut world = World::from_layout(cfg, &vec![false], &vec![(0, 0)], 11).unwrap();
    world.tick();
    assert_eq!(world.tile(0, 0), Tile::Bug(0, 5));
    assert_eq!(world.frontier(), vec![(0, 0)]);
    assert_eq!(world.winner(), Some(0));
}

#[test]
fn spread_takes_spent_rival_cells() {
    let mut cfg = config(2, 1, 2, 1);
    cfg.skip_chance = 0;
    let mut world = World::from_layout(cfg, &vec![false, false], &vec![(0, 0), (1, 0)], 2).unwrap();
    // both cells are fresh: neither can take the other, both age to zero
    world.tick();
    assert_eq!(world.tile(0, 0), Tile::Bug(0, 0));
    assert_eq!(world.tile(1, 0), Tile::Bug(1, 0));
    assert_eq!(world.winner(), None);
    // spreading took nothing, so nothing stays active
    assert!(world.frontier().is_empty());
    world.click(0, 0);
    world.tick();
    assert_eq!(world.tile(1, 0), Tile::Bug(0, 1));
    assert_eq!(world.tile(0, 0), Tile::Bug(0, 0));
    assert_eq!(world.frontier(), vec![(1, 0)]);
    assert_eq!(world.winner(), Some(0));
}

#[test]
fn walls_never_change_and_ages_stay_bounded() {
    let width = 12;
    let height = 9;
    let mut walls = vec![false; width * height];
    for i in 0..walls.len() {
        walls[i] = i % 7 == 3;
    }
    let mut cfg = config(width, height, 4, 6);
    cfg.skip_chance = 200_000;
    cfg.deactive_chance = 100_000;
    cfg.pulse_chance = 300_000;
    let mut world = World::new(cfg, &walls, 99).unwrap();
    for _ in 0..200 {
        world.tick();
        for y in 0..height {
            for x in 0..width {
                let t = world.tile(x, y);
                assert_eq!(t == Tile::Wall, walls[y * width + x]);
                if let Tile::Bug(s, age) = t {
                    assert!(s < 4);
                    assert!(age <= 6);
                }
            }
        }
        for (x, y) in world.frontier() {
            assert!(x < width && y < height);
        }
        for s in 0..4 {
            let (x, y) = world.root(s);
            assert!(x < width && y < height);
        }
    }
}

#[test]
fn spent_cells_stay_spent_or_are_renewed() {
    let mut cfg = config(6, 6, 3, 2);
    cfg.skip_chance = 100_000;
    cfg.deactive_chance = 300_000;
    cfg.pulse_chance = 500_000;
    let mut world = World::new(cfg, &vec![false; 36], 4).unwrap();
    for _ in 0..100 {
        let before = tiles_of(&world);
        world.tick();
        let after = tiles_of(&world);
        for i in 0..36 {
            if let Tile::Bug(_, 0) = before[i] {
                assert!(after[i] == before[i] || matches!(after[i], Tile::Bug(_, 2)));
            }
        }
    }
}

#[test]
fn winner_never_changes_once_decided() {
    let mut cfg = config(8, 8, 3, 4);
    cfg.pulse_chance = 500_000;
    cfg.deactive_chance = 50_000;
    let mut world = World::new(cfg, &vec![false; 64], 12345).unwrap();
    let mut decided = None;
    for _ in 0..2000 {
        world.tick();
        if let Some(w) = decided {
            assert_eq!(world.winner(), Some(w));
        } else {
            decided = world.winner();
        }
    }
    assert!(decided.is_some());
    assert!(decided.unwrap() < 3);
}

#[test]
fn random_placement_uses_distinct_open_cells() {
    let width = 5;
    let height = 4;
    let walls: Vec<bool> = (0..20).map(|i| i % 3 == 0).collect();
    for seed in 0..20 {
        let world = World::new(config(width, height, 6, 9), &walls, seed).unwrap();
        let roots = roots_of(&world, 6);
        assert_eq!(world.frontier(), roots);
        for (s, &(x, y)) in roots.iter().enumerate() {
            assert!(x < width && y < height);
            assert!(!walls[y * width + x]);
            assert_eq!(world.tile(x, y), Tile::Bug(s as u8, 9));
            for t in 0..s {
                assert_ne!(roots[t], (x, y));
            }
        }
        let bugs = tiles_of(&world).iter().filter(|t| matches!(t, Tile::Bug(_, _))).count();
        assert_eq!(bugs, 6);
    }
}

#[test]
fn placement_fills_a_board_with_exactly_enough_room() {
    let walls = vec![true, false, true, false, false, true];
    let world = World::new(config(3, 2, 3, 2), &walls, 8).unwrap();
    let tiles = tiles_of(&world);
    for i in [1usize, 3, 4] {
        assert!(matches!(tiles[i], Tile::Bug(_, 2)));
    }
}

#[test]
fn initialization_errors() {
    assert_eq!(World::new(config(0, 3, 1, 2), &vec![], 1).err(), Some(InitError::InvalidConfig));
    assert_eq!(World::new(config(3, 3, 0, 2), &vec![false; 9], 1).err(), Some(InitError::InvalidConfig));
    assert_eq!(World::new(config(3, 3, 257, 2), &vec![false; 9], 1).err(), Some(InitError::InvalidConfig));
    let mut bad_palette = config(3, 3, 2, 2);
    bad_palette.palette.pop();
    assert_eq!(World::new(bad_palette, &vec![false; 9], 1).err(), Some(InitError::InvalidConfig));
    assert_eq!(World::new(config(3, 3, 1, 2), &vec![false; 8], 1).err(), Some(InitError::LayoutMismatch));
    assert_eq!(
        World::new(config(2, 2, 3, 2), &vec![true, false, false, true], 1).err(),
        Some(InitError::NoRoom)
    );
    assert_eq!(
        World::from_layout(config(2, 2, 2, 2), &vec![false; 4], &vec![(0, 0)], 1).err(),
        Some(InitError::LayoutMismatch)
    );
    assert_eq!(
        World::from_layout(config(2, 2, 2, 2), &vec![false; 4], &vec![(0, 0), (0, 0)], 1).err(),
        Some(InitError::BadRoot)
    );
    assert_eq!(
        World::from_layout(config(2, 2, 2, 2), &vec![false, true, false, false], &vec![(0, 0), (1, 0)], 1).err(),
        Some(InitError::BadRoot)
    );
    assert_eq!(
        World::from_layout(config(2, 2, 1, 2), &vec![false; 4], &vec![(2, 0)], 1).err(),
        Some(InitError::BadRoot)
    );
}

#[test]
fn sole_active_species_needs_exactly_one() {
    assert_eq!(sole_active_species(&vec![0, 3, 0]), Some(1));
    assert_eq!(sole_active_species(&vec![5]), Some(0));
    assert_eq!(sole_active_species(&vec![0, 3, 1]), None);
    assert_eq!(sole_active_species(&vec![0, 0]), None);
    assert_eq!(sole_active_species(&vec![]), None);
}

#[test]
fn spread_from_reaches_only_orthogonal_takeable_neighbours() {
    // . # .
    // . A .
    // . . .
    let walls = vec![false, true, false, false, false, false, false, false, false];
    let mut world = World::from_layout(config(3, 3, 1, 3), &walls, &vec![(1, 1)], 0).unwrap();
    let mut next = Vec::new();
    let mut fresh = vec![false; 9];
    assert_eq!(world.spread_from(1, 1, &mut next, &mut fresh), Some(0));
    assert_eq!(next, vec![(0, 1), (1, 2), (2, 1)]);
    assert_eq!(world.tile(1, 0), Tile::Wall);
    assert_eq!(world.tile(0, 0), Tile::Empty);
    assert_eq!(world.tile(0, 1), Tile::Bug(0, 3));
    assert_eq!(fresh, vec![false, false, false, true, false, true, false, true, false]);
    assert_eq!(world.spread_from(0, 0, &mut next, &mut fresh), None);
    world.age_pass(&fresh);
    assert_eq!(world.tile(1, 1), Tile::Bug(0, 2));
    assert_eq!(world.tile(2, 1), Tile::Bug(0, 3));
}

#[test]
fn spread_phase_follows_the_given_fates() {
    // A . B .   (4 x 1, species 0 at x = 0, species 1 at x = 2)
    let mut world =
        World::from_layout(config(4, 1, 2, 3), &vec![false; 4], &vec![(0, 0), (2, 0)], 0).unwrap();
    let order = vec![(2, 0), (0, 0)];
    let (next, fresh, counts) = world.spread_phase(&order, &vec![Fate::Spread, Fate::Wait]);
    assert_eq!(next, vec![(1, 0), (3, 0), (0, 0)]);
    assert_eq!(fresh, vec![false, true, false, true]);
    assert_eq!(counts, vec![0, 1]);
    assert_eq!(world.tile(1, 0), Tile::Bug(1, 3));
    assert_eq!(world.tile(3, 0), Tile::Bug(1, 3));
    assert_eq!(world.tile(0, 0), Tile::Bug(0, 3));

    let (next, fresh, counts) = world.spread_phase(&order, &vec![Fate::Sleep, Fate::Spread]);
    assert!(next.is_empty());
    assert_eq!(fresh, vec![false; 4]);
    assert_eq!(counts, vec![1, 0]);
}
