use particle_engine::boundary::{span, Edges, Fate, Reach, Rule, Span, Turn};
use particle_engine::contact::{classify, least_penetration, Impact, Side};
use particle_engine::pace::sleep_for;
use particle_engine::schedule::{Outcome, Phase, Schedule, PHASES};

const ORDER: [Phase; 9] = [
    Phase::Spawn,
    Phase::Integrate,
    Phase::Boundary,
    Phase::Obstacle,
    Phase::Grid,
    Phase::Collide,
    Phase::Metrics,
    Phase::Snapshot,
    Phase::Pace,
];

#[test]
fn phases_run_in_the_fixed_order() {
    assert_eq!(PHASES, 9);
    for (i, phase) in ORDER.iter().enumerate() {
        assert_eq!(phase.index() as usize, i);
        assert_eq!(phase.next(), ORDER[(i + 1) % 9]);
    }
}

#[test]
fn a_clean_tick_performs_each_phase_once() {
    let mut schedule = Schedule::new();
    assert_eq!(schedule.current(), Some(Phase::Spawn));
    let mut seen = vec![Phase::Spawn];
    for _ in 0..8 {
        seen.push(schedule.advance(Outcome::Done).unwrap());
    }
    assert_eq!(seen, ORDER.to_vec());
    assert_eq!(seen.iter().filter(|p| **p == Phase::Obstacle).count(), 1);
    assert_eq!(schedule.advance(Outcome::Done), Some(Phase::Spawn));
    assert_eq!(schedule, Schedule::new());
}

#[test]
fn a_fault_skips_the_snapshot_of_that_tick_only() {
    let mut schedule = Schedule::new();
    assert_eq!(schedule.advance(Outcome::Done), Some(Phase::Integrate));
    assert_eq!(schedule.advance(Outcome::Fault), Some(Phase::Boundary));
    assert!(schedule.degraded);
    assert_eq!(schedule.advance(Outcome::Done), Some(Phase::Obstacle));
    assert_eq!(schedule.advance(Outcome::Done), Some(Phase::Grid));
    assert_eq!(schedule.advance(Outcome::Done), Some(Phase::Collide));
    assert_eq!(schedule.advance(Outcome::Done), Some(Phase::Metrics));
    assert_eq!(schedule.advance(Outcome::Done), Some(Phase::Pace));
    assert_eq!(schedule.advance(Outcome::Done), Some(Phase::Spawn));
    assert!(!schedule.degraded);
    let mut reached_snapshot = false;
    for _ in 0..9 {
        if schedule.advance(Outcome::Done) == Some(Phase::Snapshot) {
            reached_snapshot = true;
        }
    }
    assert!(reached_snapshot);
}

#[test]
fn a_fault_in_the_last_phase_before_the_snapshot_still_skips_it() {
    let mut schedule = Schedule { phase: Phase::Metrics, degraded: false, stopped: false };
    assert_eq!(schedule.advance(Outcome::Fault), Some(Phase::Pace));
}

#[test]
fn a_lost_consumer_stops_the_loop_for_good() {
    let mut schedule = Schedule { phase: Phase::Snapshot, degraded: false, stopped: false };
    assert_eq!(schedule.advance(Outcome::Disconnected), None);
    assert!(schedule.stopped);
    assert_eq!(schedule.current(), None);
    let halted = schedule;
    assert_eq!(schedule.advance(Outcome::Done), None);
    assert_eq!(schedule.advance(Outcome::Fault), None);
    assert_eq!(schedule, halted);
}

#[test]
fn sleep_is_what_is_left_of_the_period() {
    assert_eq!(sleep_for(0, 20), 20);
    assert_eq!(sleep_for(7, 20), 13);
    assert_eq!(sleep_for(19, 20), 1);
}

#[test]
fn an_overrun_tick_does_not_sleep() {
    assert_eq!(sleep_for(20, 20), 0);
    assert_eq!(sleep_for(21, 20), 0);
    assert_eq!(sleep_for(u64::MAX, 20), 0);
    assert_eq!(sleep_for(5, 0), 0);
}

#[test]
fn the_least_depth_names_the_side() {
    assert_eq!(least_penetration(1, 9, 9, 9), Side::Left);
    assert_eq!(least_penetration(9, 1, 9, 9), Side::Right);
    assert_eq!(least_penetration(9, 9, 1, 9), Side::Up);
    assert_eq!(least_penetration(9, 9, 9, 1), Side::Down);
    assert_eq!(least_penetration(-5, -7, 3, i64::MAX), Side::Right);
    assert_eq!(least_penetration(i64::MIN, i64::MIN + 1, 0, 0), Side::Left);
}

#[test]
fn ties_go_to_the_first_of_left_right_up_down() {
    assert_eq!(least_penetration(4, 4, 4, 4), Side::Left);
    assert_eq!(least_penetration(5, 4, 4, 4), Side::Right);
    assert_eq!(least_penetration(5, 5, 4, 4), Side::Up);
    assert_eq!(least_penetration(4, 9, 4, 9), Side::Left);
    assert_eq!(least_penetration(9, 4, 9, 4), Side::Right);
}

#[test]
fn each_side_pushes_along_its_axis() {
    assert_eq!(Side::Left.push(), (1, 0));
    assert_eq!(Side::Right.push(), (-1, 0));
    assert_eq!(Side::Up.push(), (0, 1));
    assert_eq!(Side::Down.push(), (0, -1));
    assert!(Side::Left.is_horizontal());
    assert!(Side::Right.is_horizontal());
    assert!(!Side::Up.is_horizontal());
    assert!(!Side::Down.is_horizontal());
}

#[test]
fn particles_apart_do_not_respond() {
    // overlap is the sum of the radii less the distance
    assert_eq!(classify(0, 5), Impact::Apart);
    assert_eq!(classify(-1, 5), Impact::Apart);
    assert_eq!(classify(12 - 12, 100), Impact::Apart);
    assert_eq!(classify(12 - 40, -3), Impact::Apart);
    assert_eq!(classify(i64::MIN, i64::MAX), Impact::Apart);
}

#[test]
fn overlapping_particles_respond_only_while_they_approach() {
    assert_eq!(classify(2, 10), Impact::Exchange);
    assert_eq!(classify(2, 0), Impact::Exchange);
    assert_eq!(classify(2, -1), Impact::Separating);
    assert_eq!(classify(1, i64::MIN), Impact::Separating);
    assert_eq!(classify(i64::MAX, i64::MAX), Impact::Exchange);
}

#[test]
fn an_exchange_is_not_repeated_at_the_opposite_alignment() {
    assert_eq!(classify(2, 10), Impact::Exchange);
    assert_eq!(classify(2, -10), Impact::Separating);
}

const EDGES: Edges =
    Edges { low_x: Rule::Remove, high_x: Rule::Remove, low_y: Rule::Remove, high_y: Rule::Bounce };

const CLEAR: Span = Span { low: Reach::Clear, high: Reach::Clear };

fn still() -> Fate {
    Fate { leaves: false, turn_x: Turn::Straight, turn_y: Turn::Straight }
}

#[test]
fn each_end_of_an_extent_is_measured_against_its_bound() {
    assert_eq!(span(10, 22, 0, 100), CLEAR);
    assert_eq!(span(88, 100, 0, 100), Span { low: Reach::Clear, high: Reach::Touching });
    assert_eq!(span(90, 102, 0, 100), Span { low: Reach::Clear, high: Reach::Beyond });
    assert_eq!(span(0, 12, 0, 100), Span { low: Reach::Touching, high: Reach::Clear });
    assert_eq!(span(-3, 9, 0, 100), Span { low: Reach::Beyond, high: Reach::Clear });
    assert_eq!(span(1, 99, 0, 100), CLEAR);
}

#[test]
fn both_ends_of_an_extent_are_reported() {
    assert_eq!(span(-5, 105, 0, 100), Span { low: Reach::Beyond, high: Reach::Beyond });
    assert_eq!(span(0, 100, 0, 100), Span { low: Reach::Touching, high: Reach::Touching });
    assert_eq!(span(0, 101, 0, 100), Span { low: Reach::Touching, high: Reach::Beyond });
    assert_eq!(span(i64::MIN, i64::MAX, 0, 100), Span { low: Reach::Beyond, high: Reach::Beyond });
}

#[test]
fn a_particle_inside_the_area_stays_as_it_is() {
    assert_eq!(EDGES.fate(CLEAR, CLEAR), still());
    assert_eq!(EDGES.fate(span(-1399, 2799, -1400, 2800), span(-799, 799, -800, 800)), still());
}

#[test]
fn a_particle_at_a_removing_edge_leaves() {
    for reach in [Reach::Touching, Reach::Beyond] {
        for other in [Reach::Clear, Reach::Touching, Reach::Beyond] {
            let low = Span { low: reach, high: other };
            let high = Span { low: other, high: reach };
            assert!(EDGES.fate(low, CLEAR).leaves);
            assert!(EDGES.fate(high, CLEAR).leaves);
            assert!(EDGES.fate(CLEAR, low).leaves);
        }
    }
    let x = span(2788, 2800, -1400, 2800);
    assert!(EDGES.fate(x, CLEAR).leaves);
}

#[test]
fn a_particle_on_a_removing_edge_leaves_though_it_has_reached_a_bouncing_edge_too() {
    // the top removes and the bottom bounces; the extent spans the whole height
    let y = span(-800, 800, -800, 800);
    let fate = EDGES.fate(CLEAR, y);
    assert!(fate.leaves);
    assert_eq!(fate.turn_y, Turn::Straight);
    let past = span(-800, 805, -800, 800);
    let fate = EDGES.fate(CLEAR, past);
    assert!(fate.leaves);
    assert_eq!(fate.turn_y, Turn::FromHigh);
    let beyond = span(-900, 900, -800, 800);
    assert!(EDGES.fate(CLEAR, beyond).leaves);
}

#[test]
fn a_bouncing_edge_turns_back_only_what_has_gone_past_it() {
    let touching = EDGES.fate(CLEAR, span(788, 800, -800, 800));
    assert_eq!(touching, still());
    let past = EDGES.fate(CLEAR, span(789, 801, -800, 800));
    assert_eq!(past, Fate { leaves: false, turn_x: Turn::Straight, turn_y: Turn::FromHigh });
    let both = EDGES.fate(span(2790, 2802, -1400, 2800), span(789, 801, -800, 800));
    assert_eq!(both, Fate { leaves: true, turn_x: Turn::Straight, turn_y: Turn::FromHigh });
}

#[test]
fn an_area_of_bouncing_edges_retires_nothing() {
    let walled = Edges {
        low_x: Rule::Bounce,
        high_x: Rule::Bounce,
        low_y: Rule::Bounce,
        high_y: Rule::Bounce,
    };
    let low = Span { low: Reach::Beyond, high: Reach::Clear };
    let high = Span { low: Reach::Clear, high: Reach::Beyond };
    let wide = Span { low: Reach::Beyond, high: Reach::Beyond };
    assert_eq!(
        walled.fate(low, high),
        Fate { leaves: false, turn_x: Turn::FromLow, turn_y: Turn::FromHigh }
    );
    // beyond at both ends: turned back from the high edge
    assert_eq!(walled.fate(wide, CLEAR).turn_x, Turn::FromHigh);
    let on_the_line = Span { low: Reach::Touching, high: Reach::Touching };
    assert_eq!(walled.fate(on_the_line, on_the_line), still());
}
