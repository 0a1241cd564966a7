use std::collections::VecDeque;

use vchat::samples::try_fill_buf;

fn get_setup() -> ([f32; 6], VecDeque<Vec<f32>>) {
    let buf = [0.0f32; 6];
    let rx: VecDeque<Vec<f32>> = VecDeque::new();
    (buf, rx)
}

#[test]
fn test_try_fill_remaining_single_recv_clean() {
    let (mut buf, mut rx) = get_setup();

    rx.push_back(vec![2.0, 3.0, 4.0, 5.0]);

    let mut buf_used = 2;
    let buf_len = buf.len();

    try_fill_buf::<f32>(&mut rx, &mut buf, &mut buf_used, buf_len);

    assert_eq!(buf, [0.0, 0.0, 2.0, 3.0, 4.0, 5.0]);
}

#[test]
fn test_try_fill_remaining_multi_recv_clean() {
    let (mut buf, mut rx) = get_setup();

    rx.push_back(vec![2.0, 3.0]);
    rx.push_back(vec![4.0, 5.0]);

    let mut buf_used = 2;
    let buf_len = buf.len();

    try_fill_buf::<f32>(&mut rx, &mut buf, &mut buf_used, buf_len);

    assert_eq!(buf, [0.0, 0.0, 2.0, 3.0, 4.0, 5.0]);
}

#[test]
fn test_try_fill_remaining_single_recv_remaining() {
    let (mut buf, mut rx) = get_setup();

    rx.push_back(vec![2.0, 3.0, 4.0, 5.0, 6.0, 7.0]);

    let mut buf_used = 2;
    let buf_len = buf.len();

    try_fill_buf::<f32>(&mut rx, &mut buf, &mut buf_used, buf_len);

    assert_eq!(buf, [0.0, 0.0, 2.0, 3.0, 4.0, 5.0]);
    assert_eq!(rx.pop_front().unwrap(), vec![6.0, 7.0]);
}

#[test]
fn test_try_fill_remaining_multi_recv_remaining() {
    let (mut buf, mut rx) = get_setup();

    rx.push_back(vec![2.0, 3.0, 4.0]);
    rx.push_back(vec![5.0, 6.0, 7.0]);

    let mut buf_used = 2;
    let buf_len = buf.len();

    try_fill_buf::<f32>(&mut rx, &mut buf, &mut buf_used, buf_len);

    assert_eq!(buf, [0.0, 0.0, 2.0, 3.0, 4.0, 5.0]);
    assert_eq!(rx.pop_front().unwrap(), vec![6.0, 7.0]);
}

#[test]
fn try_fill_counts_used_slots_and_keeps_queue_when_full() {
    let mut buf = [0u32; 4];
    let mut rx: VecDeque<Vec<u32>> = VecDeque::new();
    rx.push_back(vec![1]);
    rx.push_back(vec![]);
    rx.push_back(vec![2, 3, 4]);
    let mut used = 1;
    try_fill_buf::<u32>(&mut rx, &mut buf, &mut used, 4);
    assert_eq!(used, 4);
    assert_eq!(buf, [0, 1, 2, 3]);
    assert_eq!(rx.len(), 1);
    assert_eq!(rx.pop_front().unwrap(), vec![4]);
}

#[test]
fn try_fill_stops_when_queue_runs_dry() {
    let mut buf = [9u32; 5];
    let mut rx: VecDeque<Vec<u32>> = VecDeque::new();
    rx.push_back(vec![1, 2]);
    let mut used = 0;
    try_fill_buf::<u32>(&mut rx, &mut buf, &mut used, 5);
    assert_eq!(used, 2);
    assert_eq!(buf, [1, 2, 9, 9, 9]);
    assert!(rx.is_empty());
}

#[test]
fn try_fill_full_buffer_takes_nothing() {
    let mut buf = [7u32; 3];
    let mut rx: VecDeque<Vec<u32>> = VecDeque::new();
    rx.push_back(vec![1, 2]);
    let mut used = 3;
    try_fill_buf::<u32>(&mut rx, &mut buf, &mut used, 3);
    assert_eq!(used, 3);
    assert_eq!(buf, [7, 7, 7]);
    assert_eq!(rx.pop_front().unwrap(), vec![1, 2]);
}

#[test]
fn fill_stops_at_buf_len_and_keeps_the_rest() {
    let mut buf = [9u32; 6];
    let mut rx: VecDeque<Vec<u32>> = VecDeque::new();
    rx.push_back(vec![1, 2, 3]);
    let mut buf_used = 1;
    try_fill_buf::<u32>(&mut rx, &mut buf, &mut buf_used, 3);
    assert_eq!(buf_used, 3);
    assert_eq!(buf, [9, 1, 2, 9, 9, 9]);
    assert_eq!(rx.pop_front(), Some(vec![3]));
}
