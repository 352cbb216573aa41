use match_linestrings::geometry::{Coord, Envelope, Line};
use match_linestrings::index::SpatialIndex;

fn line(points: &[(i32, i32)]) -> Line {
    Line::new(points.iter().map(|&(x, y)| Coord { x, y }).collect()).unwrap()
}

fn sorted(mut positions: Vec<usize>) -> Vec<usize> {
    positions.sort();
    positions
}

fn three_streets() -> SpatialIndex<char> {
    SpatialIndex::bulk_load(vec![
        ('a', line(&[(0, 0), (100, 0)])),
        ('b', line(&[(0, 50), (100, 50)])),
        ('c', line(&[(500, 500), (600, 700)])),
    ])
}

#[test]
fn the_index_keeps_its_sources_in_order() {
    let index = three_streets();
    assert_eq!(index.size(), 3);
    assert_eq!(index.id(0), 'a');
    assert_eq!(index.id(2), 'c');
    assert_eq!(index.line(1).points(), line(&[(0, 50), (100, 50)]).points());
}

#[test]
fn an_empty_index_has_no_candidates() {
    let index: SpatialIndex<usize> = SpatialIndex::bulk_load(vec![]);
    assert_eq!(index.size(), 0);
    let everything = Envelope {
        min_x: i64::MIN,
        min_y: i64::MIN,
        max_x: i64::MAX,
        max_y: i64::MAX,
    };
    assert!(index.locate(&everything).is_empty());
}

#[test]
fn a_search_finds_the_sources_whose_box_intersects() {
    let index = three_streets();
    let found = index.locate(&Envelope { min_x: 10, min_y: -5, max_x: 20, max_y: 5 });
    assert_eq!(found, vec![0]);
    let found = index.locate(&Envelope { min_x: 10, min_y: -5, max_x: 20, max_y: 60 });
    assert_eq!(sorted(found), vec![0, 1]);
    let found = index.locate(&Envelope { min_x: -1000, min_y: -1000, max_x: 1000, max_y: 1000 });
    assert_eq!(sorted(found), vec![0, 1, 2]);
}

#[test]
fn a_search_beside_every_box_finds_nothing() {
    let index = three_streets();
    assert!(index.locate(&Envelope { min_x: 200, min_y: 0, max_x: 300, max_y: 100 }).is_empty());
}

#[test]
fn a_box_that_only_touches_is_found() {
    let index = three_streets();
    let found = index.locate(&Envelope { min_x: 100, min_y: 0, max_x: 200, max_y: 10 });
    assert_eq!(found, vec![0]);
    let found = index.locate(&Envelope { min_x: 400, min_y: 400, max_x: 500, max_y: 500 });
    assert_eq!(found, vec![2]);
}

#[test]
fn the_box_counts_and_not_the_line() {
    // The diagonal's box covers the query, the diagonal itself is far from it.
    let index = SpatialIndex::bulk_load(vec![(7u32, line(&[(0, 0), (1000, 1000)]))]);
    let found = index.locate(&Envelope { min_x: 900, min_y: 0, max_x: 1000, max_y: 100 });
    assert_eq!(found, vec![0]);
}

#[test]
fn the_candidates_of_a_target_lie_within_the_buffer() {
    let index = three_streets();
    let target = line(&[(0, 20), (100, 20)]);
    assert!(index.candidates_for(&target, 19).is_empty());
    assert_eq!(index.candidates_for(&target, 20), vec![0]);
    assert_eq!(sorted(index.candidates_for(&target, 30)), vec![0, 1]);
    assert_eq!(sorted(index.candidates_for(&target, 1000)), vec![0, 1, 2]);
}

#[test]
fn a_larger_buffer_loses_no_candidate() {
    let index = three_streets();
    let target = line(&[(120, 10), (130, 40)]);
    let mut before: Vec<usize> = Vec::new();
    for buffer in [0u32, 5, 19, 20, 21, 100, 400, 1000, u32::MAX] {
        let now = index.candidates_for(&target, buffer);
        for p in &before {
            assert!(now.contains(p));
        }
        before = now;
    }
    assert_eq!(sorted(before), vec![0, 1, 2]);
}

#[test]
fn a_line_is_a_candidate_for_itself() {
    let index = three_streets();
    for p in 0..index.size() {
        let target = index.line(p).clone();
        assert!(index.candidates_for(&target, 0).contains(&p));
    }
}

#[test]
fn every_source_of_a_large_index_is_found_once() {
    let mut sources = Vec::new();
    for i in 0..500i32 {
        let x = (i % 25) * 100;
        let y = (i / 25) * 100;
        sources.push((i, line(&[(x, y), (x + 10, y + 10)])));
    }
    let index = SpatialIndex::bulk_load(sources);
    let all = index.locate(&Envelope { min_x: -1, min_y: -1, max_x: 3000, max_y: 3000 });
    assert_eq!(sorted(all), (0..500).collect::<Vec<usize>>());
    // One row of 25 boxes.
    let row = index.locate(&Envelope { min_x: 0, min_y: 300, max_x: 2500, max_y: 310 });
    assert_eq!(sorted(row), (75..100).collect::<Vec<usize>>());
    for p in 0..500usize {
        let e = index.line(p).envelope();
        assert_eq!(index.locate(&e), vec![p]);
    }
}

#[test]
fn sources_with_the_same_box_are_all_found() {
    let index = SpatialIndex::bulk_load(vec![
        (10u8, line(&[(0, 0), (10, 10)])),
        (20u8, line(&[(10, 10), (0, 0)])),
        (10u8, line(&[(0, 10), (10, 0)])),
    ]);
    let found = index.locate(&Envelope { min_x: 5, min_y: 5, max_x: 5, max_y: 5 });
    assert_eq!(sorted(found), vec![0, 1, 2]);
}
