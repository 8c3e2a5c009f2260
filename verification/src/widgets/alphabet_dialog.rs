use vstd::prelude::*;

use crate::backend::{alphabet_kind_at, AlphabetKind};
use crate::chars::extend_chars;
use crate::constants::Alphabets;
use crate::widgets::window::selected_alphabet;

verus! {

/// The characters shown in the alphabet dialog, by section, and the alphabet
/// they belong to.
pub struct AlphabetSections {
    pub kind: AlphabetKind,
    pub letters: Vec<char>,
    pub digits: Vec<char>,
    pub punctuation: Vec<char>,
    pub extra_punctuation: Vec<char>,
}

/// The sections of the alphabet dialog while the alphabet at `index` of the
/// alphabet list is chosen: its visible letters, the visible digits, the
/// visible symbols, and the symbols that can be played.
pub fn alphabet_sections(alphabets: &Alphabets, index: i64) -> (s: AlphabetSections)
    ensures
        s.kind == alphabet_kind_at(index as int),
        s.letters@ == alphabets.alphabet_of(s.kind).visible@,
        s.digits@ == alphabets.digits.visible@,
        s.punctuation@ == alphabets.symbols.visible@,
        s.extra_punctuation@ == alphabets.symbols.supported@,
{
    let (letters, kind) = selected_alphabet(alphabets, index);
    let mut digits: Vec<char> = Vec::new();
    extend_chars(&mut digits, &alphabets.digits.visible);
    let mut punctuation: Vec<char> = Vec::new();
    extend_chars(&mut punctuation, &alphabets.symbols.visible);
    let mut extra_punctuation: Vec<char> = Vec::new();
    extend_chars(&mut extra_punctuation, &alphabets.symbols.supported);
    AlphabetSections { kind, letters, digits, punctuation, extra_punctuation }
}

/// Where the button of the `i`-th character of a section stands, as
/// (column, row): two columns.
pub fn alphabet_cell(i: usize) -> (cell: (i32, i32))
    ensures
        cell == ((i % 2) as i32, (i / 2) as i32),
{
    ((i % 2) as i32, (i / 2) as i32)
}

/// What a click on a character of the alphabet dialog does.
#[derive(PartialEq, Eq, Structural, Clone, Copy, Debug)]
pub enum ClickAction {
    /// The practice text is playing: tell the user that the character cannot
    /// be played now.
    ShowBusy,
    /// A character of the dialog is playing: nothing.
    Ignore,
    /// Play the character.
    Play,
}

/// What a click on a character does, while the practice text is playing
/// (`playing_text`) or a character of the dialog is (`playing_char`).
pub fn character_click(playing_text: bool, playing_char: bool) -> (a: ClickAction)
    ensures
        a == (if playing_text {
            ClickAction::ShowBusy
        } else if playing_char {
            ClickAction::Ignore
        } else {
            ClickAction::Play
        }),
{
    if playing_text {
        ClickAction::ShowBusy
    } else if playing_char {
        ClickAction::Ignore
    } else {
        ClickAction::Play
    }
}

} // verus!
