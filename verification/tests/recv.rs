use papercast::tiles::TileDiff;
use papercast::transport::partial_update;
use papercast::proto::{encode, Message, Rect, RefreshHint, ServerHello, Update, UpdateRect};
use papercast::recv::{
    handshake_step, next_backoff, pull_step, take_message, FrameError, Framebuffer, PullAction,
    PullError, BACKOFF_MAX_MS, BACKOFF_MIN_MS,
};

fn hello(w: u16, h: u16) -> ServerHello {
    ServerHello { proto_version: 1, width: w, height: h, levels: 16 }
}

fn rect(x: u16, y: u16, w: u16, h: u16, gray8: Vec<u8>) -> UpdateRect {
    UpdateRect { rect: Rect { x, y, width: w, height: h }, gray8 }
}

#[test]
fn new_framebuffer_is_black_and_sized() {
    let fb = Framebuffer::new(&hello(3, 2));
    assert_eq!((fb.width(), fb.height(), fb.levels()), (3, 2, 16));
    assert_eq!(fb.pixels(), &[0u8; 6][..]);
}

#[test]
fn rects_are_blitted_in_place() {
    let mut fb = Framebuffer::new(&hello(4, 3));
    let u = Update { refresh_hint: RefreshHint::Auto, rects: vec![rect(1, 1, 2, 2, vec![1, 2, 3, 4])] };
    assert_eq!(fb.apply(&u), Ok(()));
    assert_eq!(fb.pixels(), &[0, 0, 0, 0, 0, 1, 2, 0, 0, 3, 4, 0][..]);
}

#[test]
fn out_of_bounds_rect_is_refused_after_earlier_rects() {
    let mut fb = Framebuffer::new(&hello(2, 2));
    let u = Update {
        refresh_hint: RefreshHint::Auto,
        rects: vec![rect(0, 0, 1, 1, vec![9]), rect(1, 1, 2, 1, vec![1, 2]), rect(0, 1, 1, 1, vec![7])],
    };
    assert_eq!(fb.apply(&u), Err(FrameError::OutOfBounds));
    // The first rect landed; the one after the bad rect did not.
    assert_eq!(fb.pixels(), &[9, 0, 0, 0][..]);
}

#[test]
fn size_mismatch_is_refused() {
    let mut fb = Framebuffer::new(&hello(2, 2));
    let u = Update { refresh_hint: RefreshHint::Auto, rects: vec![rect(0, 0, 2, 2, vec![1, 2, 3])] };
    assert_eq!(fb.apply(&u), Err(FrameError::SizeMismatch));
    assert_eq!(fb.pixels(), &[0, 0, 0, 0][..]);
}

#[test]
fn pull_step_delivers_and_drops() {
    let mut fb = Framebuffer::new(&hello(2, 1));
    let ok = Message::Update(Update { refresh_hint: RefreshHint::Fast, rects: vec![rect(0, 0, 2, 1, vec![5, 6])] });
    assert_eq!(pull_step(&mut fb, ok), PullAction::Deliver(RefreshHint::Fast));
    assert_eq!(fb.pixels(), &[5, 6][..]);
    let bad = Message::Update(Update { refresh_hint: RefreshHint::Auto, rects: vec![rect(1, 0, 2, 1, vec![5, 6])] });
    assert_eq!(pull_step(&mut fb, bad), PullAction::Drop(PullError::BadUpdate(FrameError::OutOfBounds)));
    assert_eq!(pull_step(&mut fb, Message::Ready), PullAction::Drop(PullError::Unexpected));
    assert_eq!(pull_step(&mut fb, Message::ModeChanged("video".into())), PullAction::ModeChanged("video".into()));
    assert_eq!(pull_step(&mut fb, Message::ServerHello(hello(1, 1))), PullAction::Reset);
    assert_eq!((fb.width(), fb.height()), (1, 1));
    assert_eq!(fb.pixels(), &[0][..]);
}

#[test]
fn handshake_waits_for_hello() {
    assert!(handshake_step(&Message::Ready).is_none());
    let fb = handshake_step(&Message::ServerHello(hello(5, 4))).unwrap();
    assert_eq!(fb.pixels().len(), 20);
}

#[test]
fn take_message_drains_exactly_one_frame() {
    let mut buf = encode(&Message::Ready);
    buf.extend_from_slice(&encode(&Message::ClientHello { proto_version: 1 }));
    buf.push(0); // start of a third, incomplete frame
    assert_eq!(take_message(&mut buf), Ok(Some(Message::Ready)));
    assert_eq!(take_message(&mut buf), Ok(Some(Message::ClientHello { proto_version: 1 })));
    assert_eq!(buf, vec![0]);
    assert_eq!(take_message(&mut buf), Ok(None));
    assert_eq!(buf, vec![0]);
}

#[test]
fn backoff_doubles_up_to_the_cap() {
    assert_eq!(next_backoff(BACKOFF_MIN_MS), 400);
    assert_eq!(next_backoff(2500), 5000);
    assert_eq!(next_backoff(4000), BACKOFF_MAX_MS);
    assert_eq!(next_backoff(u64::MAX), BACKOFF_MAX_MS);
}

#[test]
fn diff_update_reproduces_the_frame_at_the_receiver() {
    let (w, h) = (40u32, 24u32);
    let a: Vec<u8> = (0..w * h).map(|i| (i % 7) as u8).collect();
    let mut b = a.clone();
    b[3] = 200;
    b[(20 * w + 39) as usize] = 9;
    let mut d = TileDiff::new(8, 8);
    let first = d.diff(&a, (w, h));
    let mut fb = Framebuffer::new(&hello(w as u16, h as u16));
    fb.apply(&partial_update(&a, w as u16, &first, RefreshHint::Auto)).unwrap();
    assert_eq!(fb.pixels(), &a[..]);
    let rects = d.diff(&b, (w, h));
    fb.apply(&partial_update(&b, w as u16, &rects, RefreshHint::Auto)).unwrap();
    assert_eq!(fb.pixels(), &b[..]);
}
