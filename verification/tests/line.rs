use neko::event::Key;
use neko::get_line::{move_it, move_to, Echo, LineEditor, Term};

fn editor(at: u8) -> LineEditor {
    let mut term = Term::new(String::from("jpepin $> "));
    term.curs_x = at;
    term.begin_x = at;
    LineEditor::new(term)
}

#[test]
fn new_line_state_is_zero() {
    let t = Term::new(String::from("p> "));
    assert_eq!(t.prompt, "p> ");
    assert!(t.line.is_empty());
    assert_eq!((t.curs_x, t.curs_y, t.begin_x, t.begin_y, t.term_x, t.term_y), (0, 0, 0, 0, 0, 0));
}

#[test]
fn cursor_moves() {
    assert_eq!(move_it(0), Some(Echo::Left(1)));
    assert_eq!(move_it(1), Some(Echo::Right(1)));
    assert_eq!(move_it(2), None);
    assert_eq!(move_to(3), Some(Echo::Right(3)));
    assert_eq!(move_to(-4), Some(Echo::Left(4)));
    assert_eq!(move_to(0), None);
}

#[test]
fn typing_echoes_and_keeps_characters() {
    let mut e = editor(10);
    assert_eq!(e.step(Key::Char('a')), Some((vec![Echo::Put('a')], false)));
    assert_eq!(e.step(Key::Alt('b')), Some((vec![Echo::Put('^'), Echo::Put('b')], false)));
    assert_eq!(e.step(Key::Ctrl('c')), Some((vec![Echo::Put('*'), Echo::Put('c')], false)));
    assert_eq!(e.text(), &vec!['a', 'b', 'c']);
    assert_eq!(e.size(), 3);
    assert_eq!(e.cursor_x(), 15);
    assert_eq!(e.step(Key::Char('\n')), Some((vec![], true)));
    assert_eq!(e.step(Key::Char('\0')), Some((vec![], true)));
    assert_eq!(e.step(Key::Up), Some((vec![], false)));
}

#[test]
fn left_and_right_stay_within_the_line() {
    let mut e = editor(5);
    assert_eq!(e.step(Key::Left), Some((vec![], false)));
    e.step(Key::Char('x'));
    assert_eq!(e.step(Key::Right), Some((vec![], false)));
    assert_eq!(e.step(Key::Left), Some((vec![Echo::Left(1)], false)));
    assert_eq!(e.cursor_x(), 5);
    assert_eq!(e.step(Key::Right), Some((vec![Echo::Right(1)], false)));
    assert_eq!(e.cursor_x(), 6);
}

#[test]
fn backspace_in_the_middle_redraws_the_rest() {
    let mut e = editor(0);
    for c in "abcd".chars() {
        e.step(Key::Char(c));
    }
    e.step(Key::Left);
    e.step(Key::Left);
    // cursor after 'b': erases 'b', redraws "cd"
    assert_eq!(
        e.step(Key::Backspace),
        Some((
            vec![Echo::Left(1), Echo::Put('c'), Echo::Put('d'), Echo::Put(' '), Echo::Left(2), Echo::Left(1)],
            false
        ))
    );
    assert_eq!(e.text(), &vec!['a', 'c', 'd']);
    assert_eq!(e.cursor_x(), 1);
    assert_eq!(e.size(), 3);
}

#[test]
fn typing_then_erasing_restores_the_line() {
    let mut e = editor(3);
    e.step(Key::Char('h'));
    e.step(Key::Char('i'));
    e.step(Key::Char('!'));
    assert_eq!(e.step(Key::Backspace), Some((vec![Echo::Left(1), Echo::Put(' '), Echo::Left(1)], false)));
    assert_eq!(e.text(), &vec!['h', 'i']);
    assert_eq!(e.cursor_x(), 5);
}

#[test]
fn backspace_at_the_start_does_nothing() {
    let mut e = editor(3);
    assert_eq!(e.step(Key::Backspace), Some((vec![], false)));
}

#[test]
fn keys_the_line_cannot_take() {
    let mut e = editor(254);
    assert_eq!(e.step(Key::Alt('x')), None);
    assert_eq!(e.cursor_x(), 254);
    e.step(Key::Char('y'));
    assert_eq!(e.step(Key::Char('z')), None);
    // after an Alt character, the cursor runs ahead of the text
    let mut f = editor(0);
    f.step(Key::Alt('q'));
    assert_eq!(f.step(Key::Backspace), None);
}
