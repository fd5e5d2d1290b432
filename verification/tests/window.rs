use rdiff::window::Window;

#[test]
fn frame_iterator() {
    let data = vec![1u8, 2, 3, 4, 5, 6, 7, 8, 9, 10];
    let mut window_basic = Window::new(&data, 5);
    assert_eq!(window_basic.frame(), (&[1u8, 2, 3, 4, 5][..], &[][..]));

    window_basic.advance();
    assert_eq!(window_basic.frame(), (&[2u8, 3, 4, 5][..], &[6u8][..]));

    window_basic.advance();
    window_basic.advance();
    window_basic.advance();
    window_basic.advance();
    assert_eq!(window_basic.frame(), (&[][..], &[6u8, 7, 8, 9, 10][..]));

    window_basic.advance();
    assert_eq!(window_basic.frame(), (&[7u8, 8, 9, 10][..], &[][..]));

    window_basic.advance();
    window_basic.advance();
    window_basic.advance();
    assert_eq!(window_basic.frame(), (&[10u8][..], &[][..]));

    window_basic.advance();
    assert_eq!(window_basic.frame(), (&[][..], &[][..]));

    let small = vec![1u8, 2, 3, 4];
    let window_too_small = Window::new(&small, 5);
    assert_eq!(window_too_small.frame(), (&[1u8, 2, 3, 4][..], &[][..]));

    let nothing: Vec<u8> = vec![];
    let window_empty = Window::new(&nothing, 5);
    assert_eq!(window_empty.frame(), (&[][..], &[][..]));

    let bigger = vec![1u8, 2, 3, 4, 5, 6, 7, 8, 9, 10, 11, 12];
    let mut window_bigger = Window::new(&bigger, 5);
    assert_eq!(window_bigger.frame(), (&[1u8, 2, 3, 4, 5][..], &[][..]));
    window_bigger.advance();
    window_bigger.advance();
    window_bigger.advance();
    window_bigger.advance();
    window_bigger.advance();
    window_bigger.advance();
    assert_eq!(window_bigger.frame(), (&[7u8, 8, 9, 10][..], &[11u8][..]));

    window_bigger.advance();
    assert_eq!(window_bigger.frame(), (&[8u8, 9, 10][..], &[11u8, 12][..]));
    window_bigger.advance();
    assert_eq!(window_bigger.frame(), (&[9u8, 10][..], &[11u8, 12][..]));
    window_bigger.advance();
    assert_eq!(window_bigger.frame(), (&[10u8][..], &[11u8, 12][..]));
    window_bigger.advance();
    assert_eq!(window_bigger.frame(), (&[][..], &[11u8, 12][..]));
    window_bigger.advance();
    assert_eq!(window_bigger.frame(), (&[12u8][..], &[][..]));
}

#[test]
fn advance() {
    let data = vec![1u8, 2, 3, 4, 5, 6, 7, 8, 9, 10];
    let mut window_basic = Window::new(&data, 5);
    assert_eq!(window_basic.advance(), (Some(1), Some(6)));
    assert_eq!(window_basic.advance(), (Some(2), Some(7)));
    assert_eq!(window_basic.advance(), (Some(3), Some(8)));
    assert_eq!(window_basic.advance(), (Some(4), Some(9)));
    assert_eq!(window_basic.advance(), (Some(5), Some(10)));
    assert_eq!(window_basic.advance(), (Some(6), None));
    assert_eq!(window_basic.advance(), (Some(7), None));
    assert_eq!(window_basic.advance(), (Some(8), None));
    assert_eq!(window_basic.advance(), (Some(9), None));
    assert_eq!(window_basic.advance(), (Some(10), None));
    assert_eq!(window_basic.advance(), (None, None));

    let huge = vec![1u8, 2, 3, 4, 5, 6, 7, 8, 9, 10, 11, 12, 13, 14, 15, 16, 17, 18];
    let mut window_huge = Window::new(&huge, 5);
    assert_eq!(window_huge.advance(), (Some(1), Some(6)));
    assert_eq!(window_huge.advance(), (Some(2), Some(7)));
    assert_eq!(window_huge.advance(), (Some(3), Some(8)));
    assert_eq!(window_huge.advance(), (Some(4), Some(9)));
    assert_eq!(window_huge.advance(), (Some(5), Some(10)));
    assert_eq!(window_huge.advance(), (Some(6), Some(11)));
    assert_eq!(window_huge.advance(), (Some(7), Some(12)));
    assert_eq!(window_huge.advance(), (Some(8), Some(13)));
    assert_eq!(window_huge.advance(), (Some(9), Some(14)));
    assert_eq!(window_huge.advance(), (Some(10), Some(15)));
    assert_eq!(window_huge.advance(), (Some(11), Some(16)));
    assert_eq!(window_huge.advance(), (Some(12), Some(17)));
    assert_eq!(window_huge.advance(), (Some(13), Some(18)));
    assert_eq!(window_huge.advance(), (Some(14), None));
    assert_eq!(window_huge.advance(), (Some(15), None));
    assert_eq!(window_huge.advance(), (Some(16), None));
    assert_eq!(window_huge.advance(), (Some(17), None));
    assert_eq!(window_huge.advance(), (Some(18), None));
    assert_eq!(window_huge.advance(), (None, None));

    let nothing: Vec<u8> = vec![];
    let mut window_empty = Window::new(&nothing, 5);
    assert_eq!(window_empty.advance(), (None, None));

    let small = vec![1u8, 2, 3, 4];
    let mut window_too_small = Window::new(&small, 5);
    assert_eq!(window_too_small.advance(), (Some(1), None));
    assert_eq!(window_too_small.advance(), (Some(2), None));
    assert_eq!(window_too_small.advance(), (Some(3), None));
    assert_eq!(window_too_small.advance(), (Some(4), None));
    assert_eq!(window_too_small.advance(), (None, None));
    assert_eq!(window_too_small.advance(), (None, None));
    assert_eq!(window_too_small.advance(), (None, None));
}

#[test]
fn window_accessors_follow_the_position() {
    let data = vec![1u8, 2, 3, 4, 5, 6, 7];
    let mut window = Window::new(&data, 3);
    assert_eq!(window.get_bytes_read(), 0);
    assert_eq!(window.frame_size(), 3);
    assert!(window.on_boundry());
    window.advance();
    assert_eq!(window.get_bytes_read(), 1);
    assert_eq!(window.frame_size(), 3);
    assert!(!window.on_boundry());
    window.advance();
    window.advance();
    assert_eq!(window.get_bytes_read(), 3);
    assert!(window.on_boundry());
    window.advance();
    window.advance();
    assert_eq!(window.get_bytes_read(), 5);
    assert_eq!(window.frame_size(), 2);
    assert!(!window.on_boundry());
    window.advance();
    assert_eq!(window.frame_size(), 1);
    assert!(window.on_boundry());
    window.advance();
    assert_eq!(window.get_bytes_read(), 7);
    assert_eq!(window.frame_size(), 0);
    assert!(window.on_boundry());
    assert_eq!(window.advance(), (None, None));
    assert_eq!(window.get_bytes_read(), 7);
}
