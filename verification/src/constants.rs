use vstd::prelude::*;

use crate::backend::AlphabetKind;

verus! {

/// The characters of one alphabet: those shown in the interface, and those
/// that can be played.
#[derive(Clone, Debug)]
pub struct Alphabet {
    pub visible: Vec<char>,
    pub supported: Vec<char>,
}

/// All alphabets that the trainer knows.
#[derive(Clone, Debug)]
pub struct Alphabets {
    pub latin: Alphabet,
    pub cyrillic: Alphabet,
    pub greek: Alphabet,
    pub hebrew: Alphabet,
    pub arabic: Alphabet,
    pub persian: Alphabet,
    pub korean: Alphabet,
    pub digits: Alphabet,
    pub symbols: Alphabet,
}

/// Text played before the practice text.
pub const START_TEXT: &'static str = "VVV = ";

/// Text played after the practice text.
pub const END_TEXT: &'static str = " +";

/// Start of the text played before a competition text of letters.
pub const START_TEXT_COMPETITIONS_LETTERS: &'static str = "OOOOO ";

/// Start of the text played before a competition text of digits.
pub const START_TEXT_COMPETITIONS_DIGITS: &'static str = "00000 ";

/// The text shown when the trainer starts.
pub const DEFAULT_TEXT: &'static str = "HELLO MORSE";

/// Keeps a punctuation mark on the line of the character next to it.
pub const WORD_JOINER: char = '\u{2060}';

/// Stands beside a punctuation mark where no character is joined to it.
pub const ZERO_WIDTH_NO_JOINER: char = '\u{200C}';

impl Alphabets {
    /// The alphabet of `kind`.
    pub open spec fn alphabet_of(&self, kind: AlphabetKind) -> Alphabet {
        match kind {
            AlphabetKind::Latin => self.latin,
            AlphabetKind::Cyrillic => self.cyrillic,
            AlphabetKind::Greek => self.greek,
            AlphabetKind::Hebrew => self.hebrew,
            AlphabetKind::Arabic => self.arabic,
            AlphabetKind::Persian => self.persian,
            AlphabetKind::Korean => self.korean,
        }
    }

    /// The alphabet of `kind`.
    pub fn get(&self, kind: AlphabetKind) -> (a: &Alphabet)
        ensures
            *a == self.alphabet_of(kind),
    {
        match kind {
            AlphabetKind::Latin => &self.latin,
            AlphabetKind::Cyrillic => &self.cyrillic,
            AlphabetKind::Greek => &self.greek,
            AlphabetKind::Hebrew => &self.hebrew,
            AlphabetKind::Arabic => &self.arabic,
            AlphabetKind::Persian => &self.persian,
            AlphabetKind::Korean => &self.korean,
        }
    }
}

} // verus!
