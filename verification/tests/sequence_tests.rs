use hyper_pattern_matching::sequence::{AppendOnlySequence, ReadableView};

#[test]
fn test_append_only_sequence() {
    let mut seq = AppendOnlySequence::new();
    seq.append(1);
    seq.append(2);
    seq.append(3);

    let view1 = seq.readable_view();
    assert_eq!(view1.readable_slice(&seq), &[1, 2, 3]);

    seq.append(4);
    let view2 = seq.readable_view();
    assert_eq!(view2.readable_slice(&seq), &[1, 2, 3, 4]);

    seq.clear();
    let view3 = seq.readable_view();
    assert_eq!(view3.readable_slice(&seq), &[] as &[i32]);
}

#[test]
fn test_readable_view_advance() {
    let mut seq = AppendOnlySequence::new();
    seq.append("a".to_string());
    seq.append("b".to_string());
    seq.append("c".to_string());
    let mut view = seq.readable_view();
    assert_eq!(view.readable_slice(&seq), &["a", "b", "c"]);

    view.advance_readable(&seq, 1);
    assert_eq!(view.readable_slice(&seq), &["b", "c"]);

    view.advance_readable(&seq, 10);
    assert_eq!(view.readable_slice(&seq), Vec::<String>::new());
}

#[test]
fn view_sees_later_appends() {
    let mut seq = AppendOnlySequence::new();
    seq.append('x');
    let mut view = seq.readable_view();
    view.advance_readable(&seq, 1);
    assert!(view.is_empty(&seq));
    seq.append('y');
    assert_eq!(view.len(&seq), 1);
    assert_eq!(view.readable_slice(&seq), &['y']);
}

#[test]
fn closing_keeps_elements() {
    let mut seq = AppendOnlySequence::new();
    seq.append(7u64);
    assert!(!seq.is_closed());
    seq.close();
    assert!(seq.is_closed());
    assert_eq!(seq.len(), 1);
    assert_eq!(seq.get(0), Some(&7));
    assert_eq!(seq.get(1), None);
    assert_eq!(ReadableView::new().start, 0);
}
