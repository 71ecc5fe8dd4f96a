use ghostrpc::fragment::{cut_piece, FragmentState, WritePlan};

#[test]
fn pieces_are_short_and_delayed() {
    let mut state = FragmentState::new();
    assert_eq!(state.plan(100), WritePlan::Piece);
    for _ in 0..500 {
        let n = state.next_piece(100);
        assert!(1 <= n && n <= 40);
        assert!(state.next_piece(3) <= 3);
    }
    let delay = state.piece_written(10).unwrap();
    assert!(5 <= delay && delay <= 30);
    assert_eq!(state.plan(100), WritePlan::AwaitDelay);
    assert_eq!(state.plan(0), WritePlan::PassThrough);
    state.delay_passed();
    assert_eq!(state.plan(100), WritePlan::Piece);
}

#[test]
fn piece_lengths_vary() {
    let state = FragmentState::new();
    let first = state.next_piece(1000);
    assert!((0..1000).any(|_| state.next_piece(1000) != first));
}

#[test]
fn fragmentation_ends_after_512_bytes() {
    let mut state = FragmentState::new();
    let mut total = 0;
    while !state.pass_through {
        assert!(total < 512);
        assert_eq!(state.plan(1000), WritePlan::Piece);
        let n = state.next_piece(1000);
        total += n;
        let delay = state.piece_written(n);
        assert_eq!(delay.is_some(), total < 512);
        if delay.is_some() {
            state.delay_passed();
        }
    }
    assert!(512 <= total && total < 552);
    assert_eq!(state.bytes_written, total);
    assert_eq!(state.plan(1000), WritePlan::PassThrough);
}

#[test]
fn nothing_written_is_no_piece() {
    let mut state = FragmentState::new();
    assert_eq!(state.piece_written_with(0, 7), None);
    assert_eq!(state.plan(5), WritePlan::Piece);
    assert_eq!(state.piece_written_with(511, 7), Some(7));
    state.delay_passed();
    assert_eq!(state.piece_written_with(1, 7), None);
    assert!(state.pass_through);
}

#[test]
fn pieces_are_cut() {
    assert_eq!(cut_piece(10, 40), 10);
    assert_eq!(cut_piece(100, 40), 40);
    assert_eq!(cut_piece(40, 40), 40);
}

#[test]
fn whatever_is_written_comes_through() {
    let data: Vec<u8> = (0..3000usize).map(|i| (i % 251) as u8).collect();
    for seed in 0..50usize {
        let mut state = FragmentState::new();
        let mut came: Vec<u8> = Vec::new();
        let mut sent = 0;
        let mut turn = seed;
        while sent < data.len() {
            turn += 1;
            let before = state;
            let left = &data[sent..];
            let handed = match state.plan(left.len()) {
                WritePlan::PassThrough => left.len(),
                WritePlan::AwaitDelay => {
                    if turn % 3 == 0 {
                        continue;
                    }
                    state.delay_passed();
                    state.next_piece(left.len())
                }
                WritePlan::Piece => state.next_piece(left.len()),
            };
            if turn % 5 == 0 {
                assert_eq!(state.bytes_written, before.bytes_written);
                assert_eq!(state.pass_through, before.pass_through);
                continue;
            }
            let n = if turn % 2 == 0 { handed } else { handed / 2 };
            if !state.pass_through {
                let _ = state.piece_written(n);
            }
            came.extend_from_slice(&left[..handed][..n]);
            sent += n;
            assert!(state.bytes_written >= before.bytes_written);
            assert!(state.bytes_written <= 551);
            assert!(state.pass_through || !before.pass_through);
            assert_eq!(state.pass_through, state.bytes_written >= 512);
        }
        assert_eq!(came, data);
    }
}
