use actuate::diagram::{has_duplicates, sort_ids, Builder, Diagram, GraphLine, Id, Plugin, SystemInfo};

fn id(n: u64) -> Id {
    Id { type_id: n }
}

fn system(n: u64, reads: &[u64], writes: &[u64]) -> SystemInfo {
    SystemInfo {
        id: id(n),
        name: format!("system{}", n),
        reads: reads.iter().map(|&r| id(r)).collect(),
        writes: writes.iter().map(|&w| id(w)).collect(),
    }
}

#[test]
fn has_duplicates_sorts_and_detects() {
    let mut v = vec![id(3), id(1), id(2)];
    assert!(!has_duplicates(&mut v));
    assert_eq!(v, vec![id(1), id(2), id(3)]);
    let mut w = vec![id(2), id(1), id(2)];
    assert!(has_duplicates(&mut w));
    assert_eq!(w, vec![id(1), id(2), id(2)]);
    let mut empty: Vec<Id> = Vec::new();
    assert!(!has_duplicates(&mut empty));
    let mut u = vec![id(9), id(4)];
    sort_ids(&mut u);
    assert_eq!(u, vec![id(4), id(9)]);
}

#[test]
fn builder_replaces_by_identifier() {
    let mut b: Builder<&str> = Diagram::builder();
    b.add_state(id(1), "a");
    b.add_state(id(1), "b");
    b.add_input(id(2), "c");
    b.add_input(id(2), "d");
    b.add_system(system(10, &[1], &[]));
    b.add_system(system(10, &[2], &[]));
    let d = b.build();
    assert_eq!(d.run(), vec![id(10)]);
}

#[test]
fn build_follows_inputs_through_writes() {
    // input 1 -> sys 10 writes 2 -> sys 11 reads 2 writes 3 -> sys 12 reads 3;
    // sys 13 reads 4, which nothing writes.
    let mut b: Builder<u8> = Builder::new();
    b.add_input(id(1), 0);
    b.add_state(id(2), 0);
    b.add_system(system(10, &[1], &[2]));
    b.add_system(system(11, &[2], &[3]));
    b.add_system(system(12, &[3], &[]));
    b.add_system(system(13, &[4], &[]));
    let d = b.build();
    let order = d.run();
    assert_eq!(order, vec![id(10), id(11), id(12)]);
}

#[test]
fn run_starts_from_each_input_reader() {
    let mut b: Builder<u8> = Builder::new();
    b.add_input(id(1), 0);
    b.add_system(system(21, &[1], &[]));
    b.add_system(system(20, &[1], &[]));
    let d = b.build();
    let mut order = d.run();
    order.sort_by_key(|i| i.type_id);
    assert_eq!(order, vec![id(20), id(21)]);
}

#[test]
fn run_of_empty_diagram_runs_nothing() {
    let mut b: Builder<u8> = Builder::new();
    b.add_system(system(1, &[5], &[6]));
    let d = b.build();
    assert!(d.run().is_empty());
}

#[test]
fn each_node_runs_once_in_a_cycle() {
    // 30 reads 1 and 3, writes 2; 31 reads 2, writes 3.
    let mut b: Builder<u8> = Builder::new();
    b.add_input(id(1), 0);
    b.add_system(system(30, &[3, 1], &[2]));
    b.add_system(system(31, &[2], &[3]));
    let d = b.build();
    assert_eq!(d.run(), vec![id(30), id(31)]);
}

struct Pair;

impl Plugin<u8> for Pair {
    fn build(&self, builder: &mut Builder<u8>) {
        builder.add_input(id(1), 1);
        builder.add_system(system(40, &[1], &[]));
    }
}

#[test]
fn plugin_adds_its_parts() {
    let mut b: Builder<u8> = Builder::new();
    b.add_plugin(Pair);
    let d = b.build();
    assert_eq!(d.run(), vec![id(40)]);
}

#[test]
fn builder_calls_chain() {
    let mut b: Builder<u8> = Builder::new();
    b.add_input(id(1), 0).add_system(system(50, &[1], &[2])).add_system(system(51, &[2], &[]));
    let d = b.build();
    assert_eq!(d.run(), vec![id(50), id(51)]);
}

#[test]
fn run_takes_input_systems_first() {
    // 60 reads input 1 and writes 2; 61 reads 2; 62 reads input 3.
    let mut b: Builder<u8> = Builder::new();
    b.add_input(id(1), 0).add_input(id(3), 0);
    b.add_system(system(60, &[1], &[2]));
    b.add_system(system(61, &[2], &[]));
    b.add_system(system(62, &[3], &[]));
    let d = b.build();
    let order = d.run();
    assert_eq!(order.len(), 3);
    assert_eq!(order[2], id(61));
}

#[test]
fn visualize_draws_inputs_systems_and_edges() {
    let mut b: Builder<u8> = Builder::new();
    b.add_input(id(1), 0);
    b.add_state(id(2), 0);
    b.add_system(system(10, &[1], &[2]));
    b.add_system(system(11, &[2], &[]));
    let d = b.build();
    assert_eq!(
        d.visualize(),
        vec![
            GraphLine::Input { input: id(1), graph: b'A' },
            GraphLine::System { graph: b'A', system: id(10) },
            GraphLine::Edge { from: b'A', state: id(2), to: b'B' },
        ]
    );
}
