use neko::event::{Event, Key};
use neko::objets::{visible_cols, visible_rows, Neko, Term};
use neko::page::{Page, WindowSize};

#[test]
fn new_screen_is_empty() {
    let t = Term::new();
    assert!(t.matrix.is_empty());
    assert_eq!((t.curs_x, t.curs_y, t.begin_x, t.begin_y), (0, 0, 0, 0));
}

#[test]
fn visible_block() {
    assert_eq!(visible_rows(2, 5, 10), 5);
    assert_eq!(visible_rows(8, 5, 10), 2);
    assert_eq!(visible_rows(10, 5, 10), 0);
    assert_eq!(visible_cols(2, 8, 20), Some(8));
    assert_eq!(visible_cols(15, 8, 20), Some(6));
    assert_eq!(visible_cols(21, 8, 20), Some(0));
    assert_eq!(visible_cols(65530, 10, 65535), None);
    assert_eq!(visible_cols(65530, 6, 65535), Some(6));
}

#[test]
fn new_cat_marks_its_block() {
    let mut t = Term::new();
    t.matrix = vec![vec![0u8; 4]; 4];
    let n = Neko::new((1, 0), (2, 2), &mut t, (3, 10));
    assert_eq!(t.matrix, vec![vec![0, 0, 0, 0], vec![4, 4, 0, 0], vec![4, 4, 0, 0], vec![0, 0, 0, 0]]);
    assert_eq!(n.tmp_char, b'!');
    assert_eq!(n.char_exe, 'j');
    assert_eq!(n.coord_exe, (1, 2));
    assert_eq!(n.event, Event::Key(Key::Char('\0')));
    assert_eq!((n.coord, n.size, n.term), ((1, 0), (2, 2), (3, 10)));
}

#[test]
fn cat_block_is_cut_at_the_terminal_edge() {
    let mut t = Term::new();
    t.matrix = vec![vec![0u8; 4]; 4];
    let _ = Neko::new((2, 1), (8, 8), &mut t, (3, 3));
    assert_eq!(t.matrix, vec![vec![0, 0, 0, 0], vec![4, 4, 0, 0], vec![4, 4, 0, 0], vec![0, 0, 0, 0]]);
}

#[test]
fn cat_character_cycles_through_printable_characters() {
    let mut t = Term::new();
    let mut n = Neko::new((0, 0), (0, 0), &mut t, (0, 0));
    let start = n.tmp_char;
    for _ in 0..95 {
        n.switch();
        assert!((33..=127).contains(&n.tmp_char));
    }
    assert_eq!(n.tmp_char, start);
    n.tmp_char = 126;
    n.switch();
    assert_eq!(n.tmp_char, 127);
    n.switch();
    assert_eq!(n.tmp_char, 33);
}

#[test]
fn cat_bottom() {
    let mut t = Term::new();
    let n = Neko::new((0, 5), (0, 5), &mut t, (0, 10));
    assert_eq!(n.touches_bottom(), Some(true));
    let m = Neko::new((0, 65535), (0, 5), &mut t, (0, 10));
    assert_eq!(m.touches_bottom(), None);
}

#[test]
fn page_keeps_the_last_line() {
    let mut p = Page::new(16);
    p.push(b"one".to_vec());
    p.push(b"two".to_vec());
    p.output(b"three");
    assert_eq!(p.line_count(), 1);
    assert_eq!(p.last_line(), Some(&b"three".to_vec()));
    let mut q = Page::default();
    assert_eq!(q.line_count(), 0);
    assert_eq!(q.last_line(), None);
    q.push(b"x".to_vec());
    assert_eq!(q.line_count(), 1);
    assert!(Page::greets(b"."));
    assert!(!Page::greets(b".."));
    assert!(!Page::greets(b""));
    assert_eq!(p.size(), WindowSize { ws_row: 0, ws_col: 0, ws_xpixel: 0, ws_ypixel: 0 });
    p.resize(&WindowSize { ws_row: 24, ws_col: 80, ws_xpixel: 0, ws_ypixel: 0 });
    assert_eq!(p.size(), WindowSize { ws_row: 24, ws_col: 80, ws_xpixel: 0, ws_ypixel: 0 });
    assert_eq!(p.line_count(), 1);
}
