//! The determinacy race detector.

use ws_deque::race::{
    assign_english, count_strands, find_races, hebrew_walk, in_parallel, Access, Dag, Node, Race,
    StrandInfo,
};

#[test]
fn parallel_write_write_is_a_race() {
    let mut dag = Dag::new();
    dag.parallel(|d| {
        d.strand(|s| s.write(0));
        d.strand(|s| s.write(0));
    });
    let races = dag.detect_races();
    assert_eq!(races.len(), 1, "two parallel writers race");
    assert_eq!(races[0].location, 0);
}

#[test]
fn parallel_read_write_is_a_race() {
    let mut dag = Dag::new();
    dag.parallel(|d| {
        d.strand(|s| s.read(7));
        d.strand(|s| s.write(7));
    });
    assert_eq!(dag.detect_races().len(), 1, "parallel read+write race");
}

#[test]
fn parallel_read_read_is_not_a_race() {
    let mut dag = Dag::new();
    dag.parallel(|d| {
        d.strand(|s| s.read(0));
        d.strand(|s| s.read(0));
    });
    assert!(dag.detect_races().is_empty(), "two readers never race");
}

#[test]
fn series_write_write_is_not_a_race() {
    // Sequenced writes happen-before each other: no race regardless of value.
    let mut dag = Dag::new();
    dag.series(|d| {
        d.strand(|s| s.write(0));
        d.strand(|s| s.write(0));
    });
    assert!(
        dag.detect_races().is_empty(),
        "sequential writes don't race"
    );
}

#[test]
fn parallel_but_disjoint_locations_no_race() {
    let mut dag = Dag::new();
    dag.parallel(|d| {
        d.strand(|s| s.write(1));
        d.strand(|s| s.write(2));
    });
    assert!(
        dag.detect_races().is_empty(),
        "disjoint locations don't race"
    );
}

#[test]
fn nested_reduction_is_race_free() {
    // The canonical safe pattern: each parallel strand writes its OWN slot, then a serial
    // combine reads them all. No two parallel strands touch the same location.
    let mut dag = Dag::new();
    dag.series(|d| {
        d.parallel(|p| {
            p.strand(|s| s.write(0));
            p.strand(|s| s.write(1));
            p.strand(|s| s.write(2));
            p.strand(|s| s.write(3));
        });
        d.strand(|s| {
            // Serial combine, after the join: reads are sequenced after all writes.
            s.read(0);
            s.read(1);
            s.read(2);
            s.read(3);
        });
    });
    assert!(
        dag.detect_races().is_empty(),
        "fork-then-join reduction is race-free"
    );
}

#[test]
fn accumulator_into_shared_cell_is_a_race() {
    // The canonical BUG: parallel strands all += into one shared accumulator.
    let mut dag = Dag::new();
    dag.parallel(|d| {
        for _ in 0..4 {
            d.strand(|s| {
                s.read(99); // read acc
                s.write(99); // write acc  → parallel write-conflict
            });
        }
    });
    let races = dag.detect_races();
    assert!(!races.is_empty(), "shared accumulator must be flagged");
    assert!(races.iter().all(|r| r.location == 99));
}

#[test]
fn series_of_parallels_no_cross_race() {
    // Two separate parallel phases that each write disjoint cells, sequenced: no race even
    // though cells repeat across phases (the phases are in series).
    let mut dag = Dag::new();
    dag.series(|d| {
        d.parallel(|p| {
            p.strand(|s| s.write(0));
            p.strand(|s| s.write(1));
        });
        d.parallel(|p| {
            p.strand(|s| s.write(0)); // same cell as phase 1, but sequenced after it
            p.strand(|s| s.write(1));
        });
    });
    assert!(
        dag.detect_races().is_empty(),
        "sequenced phases don't cross-race"
    );
}

#[test]
fn a_report_names_the_strands_and_the_writers() {
    let mut dag = Dag::new();
    dag.strand(|s| s.write(5));
    dag.parallel(|d| {
        d.strand(|s| s.read(5));
        d.series(|e| {
            e.strand(|s| s.read(6));
            e.strand(|s| s.write(5));
        });
    });
    assert_eq!(
        dag.detect_races(),
        vec![Race { location: 5, strand_a: 1, strand_b: 3, write_a: false, write_b: true }]
    );
}

/// A computation in which strand 0 writes twice and reads once what strand 1 writes and reads.
fn busy_pair(d: &mut Dag) {
    d.parallel(|p| {
        p.strand(|s| {
            s.write(3);
            s.read(3);
            s.write(3);
        });
        p.strand(|s| {
            s.write(3);
            s.read(3);
        });
    });
}

fn sorted(mut races: Vec<Race>) -> Vec<(usize, usize, usize, bool, bool)> {
    races.sort_by_key(|r| (r.location, r.strand_a, r.strand_b, r.write_a, r.write_b));
    races.iter().map(|r| (r.location, r.strand_a, r.strand_b, r.write_a, r.write_b)).collect()
}

#[test]
fn each_pair_of_accesses_is_reported_once() {
    let mut dag = Dag::new();
    busy_pair(&mut dag);
    assert_eq!(
        sorted(dag.detect_races()),
        vec![
            (3, 0, 1, false, true),
            (3, 0, 1, true, false),
            (3, 0, 1, true, false),
            (3, 0, 1, true, true),
            (3, 0, 1, true, true),
        ]
    );
}

#[test]
fn what_runs_in_series_adds_no_race() {
    let mut dag = Dag::new();
    busy_pair(&mut dag);
    let before = sorted(dag.detect_races());
    dag.strand(|s| s.write(3));
    assert_eq!(sorted(dag.detect_races()), before);
    let mut around = Dag::new();
    around.series(|d| busy_pair(d));
    assert_eq!(sorted(around.detect_races()), before);
}

#[test]
fn an_empty_computation_has_no_races() {
    assert!(Dag::new().detect_races().is_empty());
    assert!(Dag::default().detect_races().is_empty());
}

fn strand(location: usize, is_write: bool) -> Node {
    Node::Strand(vec![Access { location, is_write }])
}

#[test]
fn the_two_orders_disagree_on_parallel_strands_only() {
    let tree = Node::Series(vec![
        strand(0, true),
        Node::Parallel(vec![
            strand(1, true),
            Node::Series(vec![strand(1, false), strand(2, true)]),
        ]),
        strand(3, true),
    ]);
    assert_eq!(count_strands(&tree), 5);
    let mut strands: Vec<StrandInfo> = Vec::new();
    let mut english = 0;
    assign_english(&tree, &mut english, &mut strands);
    assert_eq!(english, 5);
    let mut hebrew = 0;
    let mut cursor = 0;
    hebrew_walk(&tree, &mut hebrew, &mut strands, &mut cursor);
    assert_eq!((hebrew, cursor), (5, 5));
    let ranks: Vec<(usize, usize)> = strands.iter().map(|s| (s.english, s.hebrew)).collect();
    assert_eq!(ranks, vec![(0, 0), (1, 3), (2, 1), (3, 2), (4, 4)]);
    for a in 0..5 {
        for b in 0..5 {
            let parallel = (a == 1 && (b == 2 || b == 3)) || (b == 1 && (a == 2 || a == 3));
            if a != b {
                assert_eq!(in_parallel(&strands[a], &strands[b]), parallel, "{a} {b}");
            }
        }
    }
    let races = find_races(&strands);
    assert_eq!(races.len(), 1);
    assert_eq!((races[0].location, races[0].strand_a, races[0].strand_b), (1, 1, 2));
}
