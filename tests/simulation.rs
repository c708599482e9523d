use disjoint_path_routing::demand::{Request, Uniform};
use disjoint_path_routing::greedy_shortest_paths::{GreedyShortestPaths, PathType};
use disjoint_path_routing::time_graph::Path;
use disjoint_path_routing::middle_terminals::MiddleTerminals;
use disjoint_path_routing::one_three_rectangle::OneThreeRectangle;
use disjoint_path_routing::plan::Vertex;
use disjoint_path_routing::settings::Settings;
use disjoint_path_routing::simulation::{InitializationError, Simulation};
use disjoint_path_routing::state::History;

fn v(x: u64, y: u64) -> Vertex {
    Vertex { x, y }
}

fn settings(total_time: usize, nr_robots: usize, nr_requests: u64) -> Settings {
    Settings { total_time, nr_robots, nr_requests, output_file: None }
}

fn simulation(x: u64, y: u64, settings: Settings, seed: [u8; 32]) -> Simulation<OneThreeRectangle> {
    let plan = OneThreeRectangle::new(x, y);
    let algorithm = GreedyShortestPaths::new(&plan, &settings);
    Simulation::new(algorithm, plan, Uniform::create(seed), settings)
}

fn pending(history: &History, t: usize) -> usize {
    history.states[t].requests.iter().filter(|r| r.is_some()).count()
}

fn assert_invariants(history: &History) {
    for t in 0..history.states.len() {
        let robots = &history.states[t].robot_states;
        for a in 0..robots.len() {
            assert_eq!(robots[a].robot_id, a);
            for b in 0..robots.len() {
                if a != b && robots[a].vertex.is_some() {
                    assert_ne!(robots[a].vertex, robots[b].vertex);
                }
            }
        }
        if t > 0 {
            let before = &history.states[t - 1].robot_states;
            for a in 0..robots.len() {
                if let Some(now) = robots[a].vertex {
                    let then = before[a].vertex.unwrap();
                    assert!(now.distance(then) <= 1);
                    for b in 0..robots.len() {
                        if a != b && before[b].vertex == Some(now) {
                            assert_ne!(robots[b].vertex, before[a].vertex);
                        }
                    }
                }
            }
            for id in 0..history.states[t].requests.len() {
                if history.states[t].requests[id].is_some() {
                    assert_eq!(history.states[t].requests[id], history.states[t - 1].requests[id]);
                }
            }
        }
    }
}

#[test]
fn multiple_vehicle_ilp_path() {
    let mut simulation = simulation(3, 3, settings(5, 1, 1), [0; 32]);
    assert!(simulation.initialize().is_ok());
    let result = simulation.run();
    let is_ok = result.is_ok();
    if let Err(error) = &result {
        println!("{:?}: {:?} at time {}", error.error.message(), error.error.instruction(), error.error.time());
    }
    assert!(is_ok);
}

#[test]
fn single_tight_path_delivers() {
    let mut simulation = simulation(3, 3, settings(10, 1, 1), [0; 32]);
    let request = Request { from: v(0, 1), to: v(2, 1) };
    assert!(simulation.set_initial_state(&vec![v(0, 0)], &vec![request]).is_ok());
    let history = simulation.run().ok().unwrap();
    assert_invariants(&history);
    let last = history.states.len() - 1;
    assert_eq!(pending(&history, last), 0);
    // Move to the source, pick up, wait one step, two moves, drop off.
    assert_eq!(last, 6);
    assert_eq!(history.states[2].robot_states[0].parcel_id, Some(0));
    assert_eq!(history.states[last].robot_states[0].vertex, Some(v(2, 1)));
    assert_eq!(history.states[last].robot_states[0].parcel_id, None);
}

#[test]
fn two_robots_same_request_pair() {
    let mut simulation = simulation(3, 3, settings(20, 2, 2), [0; 32]);
    let request = Request { from: v(0, 1), to: v(2, 1) };
    assert!(simulation.set_initial_state(&vec![v(0, 1), v(0, 0)], &vec![request, request]).is_ok());
    let history = simulation.run().ok().unwrap();
    assert_invariants(&history);
    let last = history.states.len() - 1;
    assert_eq!(pending(&history, last), 0);
    let first_done = (0..=last).find(|&t| pending(&history, t) < 2).unwrap();
    let second_done = (0..=last).find(|&t| pending(&history, t) == 0).unwrap();
    assert!(first_done < second_done);
    assert_eq!(second_done, last);
}

#[test]
fn more_robots_than_requests() {
    let mut simulation = simulation(3, 3, settings(20, 3, 1), [0; 32]);
    let request = Request { from: v(0, 1), to: v(2, 1) };
    assert!(simulation.set_initial_state(&vec![v(0, 0), v(2, 2), v(1, 2)], &vec![request]).is_ok());
    let history = simulation.run().ok().unwrap();
    assert_invariants(&history);
    let last = history.states.len() - 1;
    assert_eq!(pending(&history, last), 0);
    assert!(history.states.len() < 20);
    // The robots without work leave the floor at once.
    assert_eq!(history.states[1].robot_states[1].vertex, None);
    assert_eq!(history.states[1].robot_states[2].vertex, None);
}

#[test]
fn requests_without_robots_stay_pending() {
    let mut simulation = simulation(3, 3, settings(6, 0, 2), [0; 32]);
    assert!(simulation.initialize().is_ok());
    let history = simulation.run().ok().unwrap();
    assert_eq!(history.states.len(), 6);
    for t in 0..6 {
        assert_eq!(pending(&history, t), 2);
    }
}

#[test]
fn same_seed_same_history() {
    let run = || {
        let mut simulation = simulation(5, 5, settings(40, 2, 3), [7; 32]);
        assert!(simulation.initialize().is_ok());
        simulation.run().ok().unwrap()
    };
    let first = run();
    let second = run();
    assert_eq!(first.states.len(), second.states.len());
    for t in 0..first.states.len() {
        assert_eq!(first.states[t].robot_states, second.states[t].robot_states);
        assert_eq!(first.states[t].requests, second.states[t].requests);
    }
    assert_invariants(&first);
}

#[test]
fn initialization_refuses_bad_starts() {
    let mut simulation = simulation(3, 3, settings(6, 2, 0), [0; 32]);
    assert!(matches!(
        simulation.set_initial_state(&vec![v(0, 0), v(0, 0)], &vec![]),
        Err(InitializationError::InvalidStarts)
    ));
    assert!(matches!(
        simulation.set_initial_state(&vec![v(0, 0), v(3, 0)], &vec![]),
        Err(InitializationError::InvalidStarts)
    ));
    assert!(simulation.set_initial_state(&vec![v(0, 0), v(1, 0)], &vec![]).is_ok());
    assert!(matches!(simulation.initialize(), Err(InitializationError::AlreadyInitialized)));
}

#[test]
fn too_many_robots_are_refused() {
    let mut simulation = simulation(2, 2, settings(6, 5, 1), [0; 32]);
    assert!(matches!(simulation.initialize(), Err(InitializationError::TooManyRobots)));
}

#[test]
fn generated_requests_go_from_sources_to_terminals() {
    let plan = OneThreeRectangle::new(4, 5);
    let mut demand = Uniform::create([3; 32]);
    let requests = demand.generate(&plan, 20);
    assert_eq!(requests.len(), 20);
    for r in requests {
        assert_eq!(r.from.x, 0);
        assert!(1 <= r.from.y && r.from.y <= 3);
        assert!(r.to.y == 0 || r.to.y == 4 || r.to.x == 3);
    }
    let mut again = Uniform::create([3; 32]);
    assert_eq!(again.generate(&plan, 20), Uniform::create([3; 32]).generate(&plan, 20));
}

#[test]
fn e_plan_greedy() {
    let plan = MiddleTerminals::new(10, 10, 3, 3);
    let settings = settings(500, 5, 10);
    let algorithm = GreedyShortestPaths::new(&plan, &settings);
    let mut simulation = Simulation::new(algorithm, plan, Uniform::create([0; 32]), settings);
    assert!(simulation.initialize().is_ok());
    let result = simulation.run();
    let is_ok = result.is_ok();
    if let Err(error) = &result {
        println!("{:?}: {:?} at time {}", error.error.message(), error.error.instruction(), error.error.time());
    }
    assert!(is_ok);
}

#[test]
fn obstruction_defers_pickup() {
    // A one-row corridor: robot 0 stands on robot 1's pickup vertex.
    let mut simulation = simulation(4, 1, settings(20, 2, 2), [0; 32]);
    let requests = vec![
        Request { from: v(1, 0), to: v(3, 0) },
        Request { from: v(1, 0), to: v(2, 0) },
    ];
    assert!(simulation.set_initial_state(&vec![v(1, 0), v(0, 0)], &requests).is_ok());
    let history = simulation.run().ok().unwrap();
    assert_invariants(&history);
    let last = history.states.len() - 1;
    assert_eq!(pending(&history, last), 0);
    let first_done = (0..=last).find(|&t| history.states[t].requests[0].is_none()).unwrap();
    let second_picked = (0..=last).find(|&t| history.states[t].robot_states[1].parcel_id == Some(1)).unwrap();
    assert!(first_done <= second_picked);
}

#[test]
fn statistics_of_a_single_delivery() {
    let mut simulation = simulation(3, 3, settings(10, 1, 1), [0; 32]);
    let request = Request { from: v(0, 1), to: v(2, 1) };
    assert!(simulation.set_initial_state(&vec![v(0, 0)], &vec![request]).is_ok());
    let history = simulation.run().ok().unwrap();
    let statistics = history.calculate_statistics();
    assert_eq!(statistics.makespan, Some(6));
    assert_eq!(statistics.delivered_distance, 2);
    assert_eq!(statistics.robot_travel, vec![3]);
}

#[test]
fn statistics_without_delivery() {
    let mut simulation = simulation(3, 3, settings(4, 0, 1), [0; 32]);
    assert!(simulation.initialize().is_ok());
    let history = simulation.run().ok().unwrap();
    let statistics = history.calculate_statistics();
    assert_eq!(statistics.makespan, None);
    assert_eq!(statistics.delivered_distance, 0);
    assert!(statistics.robot_travel.is_empty());
}

#[test]
fn history_accessors() {
    let mut simulation = simulation(3, 3, settings(10, 1, 1), [0; 32]);
    let request = Request { from: v(0, 1), to: v(2, 1) };
    assert!(simulation.set_initial_state(&vec![v(0, 0)], &vec![request]).is_ok());
    assert_eq!(simulation.history().time(), 1);
    assert_eq!(simulation.history().last_robot_state(0).vertex, Some(v(0, 0)));
    let history = simulation.run().ok().unwrap();
    assert_eq!(history.time(), 7);
    assert!(history.last_state().is_done());
}

fn first_step_task(plan: OneThreeRectangle, start: Vertex, request: Request) -> (usize, Option<PathType>) {
    let settings = settings(10, 1, 1);
    let mut algorithm = GreedyShortestPaths::new(&plan, &settings);
    let mut simulation = Simulation::new(GreedyShortestPaths::new(&plan, &settings), plan, Uniform::create([0; 32]), settings);
    assert!(simulation.set_initial_state(&vec![start], &vec![request]).is_ok());
    algorithm.next_step(simulation.plan(), simulation.history());
    let task = algorithm.active_path(0);
    match task {
        Some((parcel, Some(leg))) => (*parcel, Some(match leg {
            PathType::Pickup(p) => {
                PathType::Pickup(p.clone())
            },
            PathType::Delivery(p) => {
                PathType::Delivery(p.clone())
            },
        })),
        Some((parcel, None)) => (*parcel, None),
        None => panic!("no task"),
    }
}

#[test]
fn mod_test_calculate_paths_single_3_3() {
    let source = v(0, 1);
    let terminal = v(2, 1);
    let task = first_step_task(OneThreeRectangle::new(3, 3), v(0, 1), Request { from: source, to: terminal });
    assert_eq!(
        task,
        (0, Some(PathType::Delivery(Path { start_time: 2, nodes: vec![source, v(1, 1), terminal] })))
    );
}

#[test]
fn mod_test_calculate_paths_single_5_5() {
    let from = v(0, 3);
    let to = v(1, 0);
    let task = first_step_task(OneThreeRectangle::new(5, 5), v(0, 1), Request { from, to });
    assert_eq!(task, (0, Some(PathType::Pickup(Path { start_time: 1, nodes: vec![v(0, 1), v(0, 2), from] }))));
}

#[test]
fn greedy_shortest_paths_test_calculate_paths_single_3_3() {
    let source = v(0, 1);
    let terminal = v(2, 1);
    let task = first_step_task(OneThreeRectangle::new(3, 3), v(0, 1), Request { from: source, to: terminal });
    assert_eq!(
        task,
        (0, Some(PathType::Delivery(Path { start_time: 2, nodes: vec![source, v(1, 1), terminal] })))
    );
}

#[test]
fn greedy_shortest_paths_test_calculate_paths_single_5_5() {
    let from = v(0, 3);
    let to = v(1, 0);
    let task = first_step_task(OneThreeRectangle::new(5, 5), v(0, 1), Request { from, to });
    assert_eq!(task, (0, Some(PathType::Pickup(Path { start_time: 1, nodes: vec![v(0, 1), v(0, 2), from] }))));
}
