use boids::vec2::Vec2;
use boids::world::{Boid, World};

fn grid_world() -> World {
    let mut world = World::new(
        &Vec2::new(1000, 1000),
        150,
        150,
        1000,
        1000,
        1000,
        0,
        0,
        100,
        0,
    );
    for i in (0..1000).step_by(100) {
        for j in (0..1000).step_by(100) {
            world.add_boid(&Vec2::new(i as i64, j as i64), &Vec2::zero());
        }
    }
    world
}

#[test]
fn test_world_separation() {
    let world = grid_world();
    for idx in 0..world.num_boids() {
        let protected = world
            .quadtree()
            .query_circle(world.get_boid(idx).pos, world.protect_range());
        let sep = world.separation(world.get_boid(idx).pos, &protected);
        let expected = world.separation_brute_force(idx);
        assert_eq!(sep, expected);
    }
}

#[test]
fn test_world_alignment() {
    let world = grid_world();
    for idx in 0..world.num_boids() {
        let visible = world
            .quadtree()
            .query_circle(world.get_boid(idx).pos, world.visible_range());
        let align = world.alignment(world.get_boid(idx).vel, &visible);
        let expected = world.alignment_brute_force(idx);
        assert_eq!(align, expected);
    }
}

#[test]
fn test_world_cohesion() {
    let world = grid_world();
    for idx in 0..world.num_boids() {
        let visible = world
            .quadtree()
            .query_circle(world.get_boid(idx).pos, world.visible_range());
        let cohesion = world.cohesion(world.get_boid(idx).pos, &visible);
        let expected = world.cohesion_brute_force(idx);
        assert_eq!(cohesion, expected);
    }
}

#[test]
fn test_coincident_boids_no_separation() {
    // two agents at the same position with zero velocity repel by the zero
    // displacement: no separation force at all
    let mut world = World::new(&Vec2::new(1000, 1000), 200, 100, 1000, 0, 0, 0, 0, 100, 0);
    world.add_boid(&Vec2::new(500, 500), &Vec2::zero());
    world.add_boid(&Vec2::new(500, 500), &Vec2::zero());
    let p = world.get_boid(0).pos;
    let protected = world.quadtree().query_circle(p, world.protect_range());
    assert_eq!(protected.len(), 2);
    assert_eq!(world.separation(p, &protected), Vec2::zero());
    assert_eq!(world.separation_brute_force(0), Vec2::zero());
    assert_eq!(world.separation_brute_force(1), Vec2::zero());
}

#[test]
fn test_lone_boid_no_alignment_or_cohesion() {
    // a single agent sees no neighbour besides itself: alignment and
    // cohesion vanish
    let mut world =
        World::new(&Vec2::new(1000, 1000), 200, 100, 1000, 1000, 1000, 0, 0, 100, 0);
    world.add_boid(&Vec2::new(500, 500), &Vec2::new(10, 20));
    let b = world.get_boid(0);
    let visible = world.quadtree().query_circle(b.pos, world.visible_range());
    assert_eq!(visible.len(), 1);
    assert_eq!(world.alignment(b.vel, &visible), Vec2::zero());
    assert_eq!(world.cohesion(b.pos, &visible), Vec2::zero());
    assert_eq!(world.alignment_brute_force(0), Vec2::zero());
    assert_eq!(world.cohesion_brute_force(0), Vec2::zero());
}

#[test]
fn test_separation_exact_value() {
    // one neighbour at displacement (-30, -40), avoidance one half
    let mut world = World::new(&Vec2::new(1000, 1000), 200, 100, 500, 0, 0, 0, 0, 100, 0);
    world.add_boid(&Vec2::new(0, 0), &Vec2::zero());
    world.add_boid(&Vec2::new(30, 40), &Vec2::zero());
    let sep = world.separation_brute_force(0);
    assert_eq!(sep, Vec2::new(-15, -20));
    // and symmetrically for the other agent
    assert_eq!(world.separation_brute_force(1), Vec2::new(15, 20));
}

#[test]
fn test_alignment_exact_value() {
    // neighbours with velocities (10,20) and (20,40): their average is
    // (15,30), the agent is at rest, factor one
    let mut world =
        World::new(&Vec2::new(1000, 1000), 200, 100, 0, 1000, 0, 0, 0, 1000, 0);
    world.add_boid(&Vec2::new(100, 100), &Vec2::zero());
    world.add_boid(&Vec2::new(110, 100), &Vec2::new(10, 20));
    world.add_boid(&Vec2::new(100, 110), &Vec2::new(20, 40));
    assert_eq!(world.alignment_brute_force(0), Vec2::new(15, 30));
}

#[test]
fn test_cohesion_exact_value() {
    // neighbours at (110,100) and (130,140): their average is (120,120),
    // the agent sits at (100,100), factor one
    let mut world =
        World::new(&Vec2::new(1000, 1000), 200, 100, 0, 0, 1000, 0, 0, 1000, 0);
    world.add_boid(&Vec2::new(100, 100), &Vec2::zero());
    world.add_boid(&Vec2::new(110, 100), &Vec2::zero());
    world.add_boid(&Vec2::new(130, 140), &Vec2::zero());
    assert_eq!(world.cohesion_brute_force(0), Vec2::new(20, 20));
}

#[test]
fn test_handle_margins() {
    let world = World::new(&Vec2::new(1000, 1000), 200, 100, 0, 0, 0, 50, 7, 100, 0);
    // near the low edges: steer positive on both axes
    assert_eq!(world.handle_margins(Vec2::new(10, 20)), Vec2::new(7, 7));
    // near the high edges: steer negative on both axes
    assert_eq!(world.handle_margins(Vec2::new(980, 990)), Vec2::new(-7, -7));
    // mixed and centred
    assert_eq!(world.handle_margins(Vec2::new(10, 990)), Vec2::new(7, -7));
    assert_eq!(world.handle_margins(Vec2::new(500, 500)), Vec2::zero());
}

#[test]
fn test_tick_moves_boid() {
    // no forces configured: one tick advances the position by the velocity
    let mut world = World::new(&Vec2::new(1000, 1000), 200, 100, 0, 0, 0, 0, 0, 100, 0);
    world.add_boid(&Vec2::new(500, 500), &Vec2::new(10, 0));
    world.tick();
    assert_eq!(world.get_boid(0).pos, Vec2::new(510, 500));
    assert_eq!(world.get_boid(0).vel, Vec2::new(10, 0));
    assert_eq!(world.num_boids(), 1);
    assert_eq!(world.quadtree().len(), 1);
}

#[test]
fn test_tick_clamps_speed() {
    // velocity (30,40) has length 50, above max speed 10: it is scaled onto
    // the circle of radius 10 before the position moves
    let mut world = World::new(&Vec2::new(1000, 1000), 200, 100, 0, 0, 0, 0, 0, 10, 0);
    world.add_boid(&Vec2::new(500, 500), &Vec2::new(30, 40));
    world.tick();
    assert_eq!(world.get_boid(0).vel, Vec2::new(6, 8));
    assert_eq!(world.get_boid(0).pos, Vec2::new(506, 508));
}

#[test]
fn test_tick_min_speed() {
    // velocity (3,4) has length 5, below min speed 10: scaled up
    let mut world = World::new(&Vec2::new(1000, 1000), 200, 100, 0, 0, 0, 0, 0, 100, 10);
    world.add_boid(&Vec2::new(500, 500), &Vec2::new(3, 4));
    world.tick();
    assert_eq!(world.get_boid(0).vel, Vec2::new(6, 8));
    assert_eq!(world.get_boid(0).pos, Vec2::new(506, 508));
}

#[test]
fn test_tick_zero_velocity_stays() {
    // a zero velocity has no direction: the minimum-speed clamp leaves it
    // alone rather than inventing one
    let mut world = World::new(&Vec2::new(1000, 1000), 200, 100, 0, 0, 0, 0, 0, 100, 10);
    world.add_boid(&Vec2::new(500, 500), &Vec2::zero());
    world.tick();
    assert_eq!(world.get_boid(0).vel, Vec2::zero());
    assert_eq!(world.get_boid(0).pos, Vec2::new(500, 500));
}

#[test]
fn test_tick_matches_brute_force() {
    // with every agent inside the world rectangle, the indexed tick and the
    // brute-force tick agree agent by agent
    let mut fast = World::new(&Vec2::new(1000, 1000), 150, 80, 300, 200, 100, 50, 9, 60, 4);
    let mut brute = World::new(&Vec2::new(1000, 1000), 150, 80, 300, 200, 100, 50, 9, 60, 4);
    let mut x: i64 = 13;
    for k in 0..40 {
        x = (x * 31 + 17) % 1001;
        let y = (x * 57 + 23) % 1001;
        let v = Vec2::new((k % 11) - 5, (k % 7) - 3);
        fast.add_boid(&Vec2::new(x, y), &v);
        brute.add_boid(&Vec2::new(x, y), &v);
    }
    for _ in 0..3 {
        fast.tick();
        brute.tick_brute_force();
        // chained ticks stay in lockstep while everyone stays in the world
        let mut all_in = true;
        for i in 0..fast.num_boids() {
            let p = fast.get_boid(i).pos;
            all_in = all_in && 0 <= p.x && p.x <= 1000 && 0 <= p.y && p.y <= 1000;
        }
        for i in 0..fast.num_boids() {
            assert_eq!(fast.get_boid(i), brute.get_boid(i));
        }
        if !all_in {
            break;
        }
    }
}

#[test]
fn test_world_index_tracks_boids() {
    let mut world = World::new(&Vec2::new(1000, 1000), 150, 80, 300, 200, 100, 0, 0, 60, 0);
    world.add_boid(&Vec2::new(100, 100), &Vec2::zero());
    world.add_boid(&Vec2::new(900, 900), &Vec2::zero());
    // an out-of-world agent is kept in the list but not indexed
    world.add_boid(&Vec2::new(2000, 2000), &Vec2::zero());
    assert_eq!(world.num_boids(), 3);
    assert_eq!(world.quadtree().len(), 2);
    assert_eq!(world.get_boid(2), Boid::new(Vec2::new(2000, 2000), Vec2::zero()));
}
