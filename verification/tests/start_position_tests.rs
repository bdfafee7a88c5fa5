use hyper_pattern_matching::naive_hyper_pattern_matching::StartPosition;
use hyper_pattern_matching::start_position::insert_position;

#[test]
fn test_start_position_order() {
    let start_positions = [
        StartPosition { start_indices: vec![0, 3] },
        StartPosition { start_indices: vec![2, 2] },
        StartPosition { start_indices: vec![3, 1] },
    ];

    for i in 0..start_positions.len() {
        for j in 0..start_positions.len() {
            if i < j {
                assert!(start_positions[i] < start_positions[j]);
            } else if i > j {
                assert!(start_positions[i] > start_positions[j]);
            } else {
                assert!(start_positions[i] == start_positions[j]);
            }
        }
    }
}

#[test]
fn immediate_successors_move_one_index() {
    let p = StartPosition { start_indices: vec![1, 4, 0] };
    let succs = p.immediate_successors();
    assert_eq!(succs.len(), 3);
    assert_eq!(succs[0].start_indices, vec![2, 4, 0]);
    assert_eq!(succs[1].start_indices, vec![1, 5, 0]);
    assert_eq!(succs[2].start_indices, vec![1, 4, 1]);
}

#[test]
fn queue_stays_sorted_without_repetition() {
    let mut q = Vec::new();
    insert_position(&mut q, StartPosition { start_indices: vec![1, 0] });
    insert_position(&mut q, StartPosition { start_indices: vec![0, 2] });
    insert_position(&mut q, StartPosition { start_indices: vec![1, 0] });
    insert_position(&mut q, StartPosition { start_indices: vec![0, 1] });
    let got: Vec<Vec<usize>> = q.into_iter().map(|p| p.start_indices).collect();
    assert_eq!(got, vec![vec![0, 1], vec![0, 2], vec![1, 0]]);
}
