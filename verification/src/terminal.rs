//! The answers of the person at the terminal.

use vstd::prelude::*;

verus! {

/// What the person answered to a question.
#[derive(Clone, Copy, Debug, PartialEq, Eq, Structural)]
pub enum Inputs {
    Yes,
    No,
    Exit,
}

/// One key press, as far as the dialog tells keys apart.
#[derive(Clone, Copy, Debug, PartialEq, Eq, Structural)]
pub enum Key {
    /// A character key.
    Char(char),
    /// A character key pressed together with the control key.
    Ctrl(char),
    /// The escape key.
    Esc,
    /// Any other key.
    Other,
}

/// The answer that a key gives: `y` says yes, `n` says no, escape and
/// return take the default, which is no, and control with `c` or `d` leaves.
/// Every other key gives no answer, and the dialog goes on waiting.
pub open spec fn answer_of(key: Key) -> Option<Inputs> {
    match key {
        Key::Char(c) => if c == 'y' {
            Some(Inputs::Yes)
        } else if c == 'n' || c == '\n' {
            Some(Inputs::No)
        } else {
            None
        },
        Key::Ctrl(c) => if c == 'c' || c == 'd' {
            Some(Inputs::Exit)
        } else {
            None
        },
        Key::Esc => Some(Inputs::No),
        Key::Other => None,
    }
}

/// The first answer among the keys, with the number of keys read up to and with it.
pub open spec fn first_answer(keys: Seq<Key>) -> Option<(Inputs, nat)>
    decreases keys.len(),
{
    if keys.len() == 0 {
        None
    } else {
        match answer_of(keys[0]) {
            Some(input) => Some((input, 1nat)),
            None => match first_answer(keys.skip(1)) {
                Some((input, read)) => Some((input, read + 1)),
                None => None,
            },
        }
    }
}

/// The text that a question is asked with.
pub open spec fn prompt_of(question: Seq<char>) -> Seq<char> {
    question + " [y/N] "@
}

impl Inputs {
    /// The word that stands for the answer.
    pub fn label(&self) -> (res: String)
        ensures
            res@ == match *self {
                Inputs::Yes => "Yes"@,
                Inputs::No => "No"@,
                Inputs::Exit => "Exit"@,
            },
    {
        match self {
            Inputs::Yes => "Yes".to_owned(),
            Inputs::No => "No".to_owned(),
            Inputs::Exit => "Exit".to_owned(),
        }
    }
}

/// The answer that one key gives, if it gives one.
pub fn read_key(key: Key) -> (res: Option<Inputs>)
    ensures
        res == answer_of(key),
{
    match key {
        Key::Char(c) => {
            if c == 'y' {
                Some(Inputs::Yes)
            } else if c == 'n' || c == '\n' {
                Some(Inputs::No)
            } else {
                None
            }
        },
        Key::Ctrl(c) => {
            if c == 'c' || c == 'd' {
                Some(Inputs::Exit)
            } else {
                None
            }
        },
        Key::Esc => Some(Inputs::No),
        Key::Other => None,
    }
}

/// Reads keys until one gives an answer. Hands back the answer and how many
/// keys were read, or nothing where no key gives one.
pub fn read_input(keys: &Vec<Key>) -> (res: Option<(Inputs, usize)>)
    ensures
        res is Some <==> first_answer(keys@) is Some,
        res matches Some((input, read)) ==> first_answer(keys@) == Some((input, read as nat)),
{
    let mut i: usize = 0;
    assert(keys@.skip(0) =~= keys@);
    while i < keys.len()
        invariant
            i <= keys.len(),
            first_answer(keys@) is Some <==> first_answer(keys@.skip(i as int)) is Some,
            first_answer(keys@.skip(i as int)) matches Some((input, read)) ==> first_answer(keys@) == Some(
                (input, read + i as nat),
            ),
        decreases keys.len() - i,
    {
        let ghost rest = keys@.skip(i as int);
        assert(rest[0] == keys@[i as int]);
        assert(rest.skip(1) =~= keys@.skip(i + 1));
        match read_key(keys[i]) {
            Some(input) => {
                return Some((input, i + 1));
            },
            None => {},
        }
        i = i + 1;
    }
    None
}

/// The text that a question is asked with: the question, then the two
/// answers, the default in capitals.
pub fn dialog(question: &str) -> (res: String)
    ensures
        res@ == prompt_of(question@),
{
    question.to_owned().concat(" [y/N] ")
}

} // verus!
