use paro::terminal::{dialog, read_input, read_key, Inputs, Key};

#[test]
fn keys_and_their_answers() {
    assert_eq!(read_key(Key::Char('y')), Some(Inputs::Yes));
    assert_eq!(read_key(Key::Char('n')), Some(Inputs::No));
    assert_eq!(read_key(Key::Char('\n')), Some(Inputs::No));
    assert_eq!(read_key(Key::Esc), Some(Inputs::No));
    assert_eq!(read_key(Key::Ctrl('c')), Some(Inputs::Exit));
    assert_eq!(read_key(Key::Ctrl('d')), Some(Inputs::Exit));
    assert_eq!(read_key(Key::Char('Y')), None);
    assert_eq!(read_key(Key::Char('x')), None);
    assert_eq!(read_key(Key::Ctrl('y')), None);
    assert_eq!(read_key(Key::Other), None);
}

#[test]
fn other_keys_are_passed_over() {
    assert_eq!(read_input(&vec![Key::Char('x'), Key::Other, Key::Char('y'), Key::Char('n')]), Some((Inputs::Yes, 3)));
    assert_eq!(read_input(&vec![Key::Ctrl('c')]), Some((Inputs::Exit, 1)));
    assert_eq!(read_input(&vec![Key::Char('q'), Key::Other]), None);
    assert_eq!(read_input(&vec![]), None);
}

#[test]
fn the_question_shows_the_default() {
    assert_eq!(dialog("Overwrite? /home/u/.vimrc"), "Overwrite? /home/u/.vimrc [y/N] ");
}

#[test]
fn answers_have_names() {
    assert_eq!(Inputs::Yes.label(), "Yes");
    assert_eq!(Inputs::No.label(), "No");
    assert_eq!(Inputs::Exit.label(), "Exit");
}
