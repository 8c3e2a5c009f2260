pub mod char_source;
pub mod text_generator;

use vstd::prelude::*;

verus! {

/// The kind of text that is trained: letters, digits or both.
#[derive(PartialEq, Eq, Structural, Clone, Copy, Debug)]
pub enum TextType {
    Letters,
    Digits,
    Mixed,
}

impl Default for TextType {
    fn default() -> (t: Self)
        ensures
            t == TextType::Letters,
    {
        TextType::Letters
    }
}

/// The reference word by which a speed in words per minute is measured.
#[derive(PartialEq, Eq, Structural, Clone, Copy, Debug)]
pub enum SpeedSystem {
    CODEX,
    PARIS,
}

impl Default for SpeedSystem {
    fn default() -> (s: Self)
        ensures
            s == SpeedSystem::CODEX,
    {
        SpeedSystem::CODEX
    }
}

impl SpeedSystem {
    /// The speed system stored in the settings as `value`: 0 is CODEX, any
    /// other value PARIS.
    pub fn from_setting(value: i32) -> (s: Self)
        ensures
            s == (if value == 0 { SpeedSystem::CODEX } else { SpeedSystem::PARIS }),
    {
        if value == 0 {
            SpeedSystem::CODEX
        } else {
            SpeedSystem::PARIS
        }
    }

    /// The name of the speed system.
    pub fn name(&self) -> (n: &'static str)
        ensures
            *self == SpeedSystem::CODEX ==> n@ == "CODEX"@,
            *self == SpeedSystem::PARIS ==> n@ == "PARIS"@,
    {
        match self {
            SpeedSystem::CODEX => "CODEX",
            SpeedSystem::PARIS => "PARIS",
        }
    }
}

impl TextType {
    /// The text type chosen at `index` of the text type list: letters, digits,
    /// then mixed for any other index.
    pub fn from_index(index: u32) -> (t: Self)
        ensures
            t == (if index == 0 {
                TextType::Letters
            } else if index == 1 {
                TextType::Digits
            } else {
                TextType::Mixed
            }),
    {
        if index == 0 {
            TextType::Letters
        } else if index == 1 {
            TextType::Digits
        } else {
            TextType::Mixed
        }
    }
}

/// The wave form of the played tone.
#[derive(PartialEq, Eq, Structural, Clone, Copy, Debug)]
pub enum WaveType {
    Square,
    Triangle,
    Sawtooth,
    Sine,
}

impl WaveType {
    /// The wave type stored in the settings as `value`: 0 square, 1 triangle,
    /// 2 sawtooth, any other value sine.
    pub fn from_setting(value: i32) -> (t: Self)
        ensures
            t == (if value == 0 {
                WaveType::Square
            } else if value == 1 {
                WaveType::Triangle
            } else if value == 2 {
                WaveType::Sawtooth
            } else {
                WaveType::Sine
            }),
    {
        if value == 0 {
            WaveType::Square
        } else if value == 1 {
            WaveType::Triangle
        } else if value == 2 {
            WaveType::Sawtooth
        } else {
            WaveType::Sine
        }
    }
}

/// The alphabets whose letters can be trained.
#[derive(PartialEq, Eq, Structural, Clone, Copy, Debug)]
pub enum AlphabetKind {
    Latin,
    Cyrillic,
    Greek,
    Hebrew,
    Arabic,
    Persian,
    Korean,
}

impl AlphabetKind {
    /// The alphabet chosen at `index` of the alphabet list: 1 Cyrillic,
    /// 2 Greek, 3 Hebrew, 4 Arabic, 5 Persian, 6 Korean, any other Latin.
    pub fn from_index(index: i64) -> (k: Self)
        ensures
            k == alphabet_kind_at(index as int),
            index == 1 ==> k == AlphabetKind::Cyrillic,
            index == 2 ==> k == AlphabetKind::Greek,
            index == 3 ==> k == AlphabetKind::Hebrew,
            index == 4 ==> k == AlphabetKind::Arabic,
            index == 5 ==> k == AlphabetKind::Persian,
            index == 6 ==> k == AlphabetKind::Korean,
            index < 1 || index > 6 ==> k == AlphabetKind::Latin,
    {
        if index == 1 {
            AlphabetKind::Cyrillic
        } else if index == 2 {
            AlphabetKind::Greek
        } else if index == 3 {
            AlphabetKind::Hebrew
        } else if index == 4 {
            AlphabetKind::Arabic
        } else if index == 5 {
            AlphabetKind::Persian
        } else if index == 6 {
            AlphabetKind::Korean
        } else {
            AlphabetKind::Latin
        }
    }
}

/// The alphabet at `index` of the alphabet list.
pub open spec fn alphabet_kind_at(index: int) -> AlphabetKind {
    if index == 1 {
        AlphabetKind::Cyrillic
    } else if index == 2 {
        AlphabetKind::Greek
    } else if index == 3 {
        AlphabetKind::Hebrew
    } else if index == 4 {
        AlphabetKind::Arabic
    } else if index == 5 {
        AlphabetKind::Persian
    } else if index == 6 {
        AlphabetKind::Korean
    } else {
        AlphabetKind::Latin
    }
}

} // verus!
