use morse::backend::text_generator::TextGenError;
use morse::backend::{AlphabetKind, SpeedSystem, TextType, WaveType};
use morse::chars::{chars_of, decimal_chars};
use morse::constants::{Alphabet, Alphabets, WORD_JOINER, ZERO_WIDTH_NO_JOINER};
use morse::widgets::alphabet_dialog::{alphabet_cell, alphabet_sections, character_click, ClickAction};
use morse::widgets::window::{
    add_punctuation_joiners, allowed_chars, check_button_cell, check_button_chars, clipboard_text,
    enabled_chars, format_timer, generate_group_text, highlight_offsets, playable_text,
    playback_end, playback_start, playback_text, selected_alphabet, split_playable,
};

fn alpha(visible: &str, supported: &str) -> Alphabet {
    Alphabet { visible: visible.chars().collect(), supported: supported.chars().collect() }
}

fn alphabets() -> Alphabets {
    Alphabets {
        latin: alpha("ABC", "ABC"),
        cyrillic: alpha("АБВ", "АБВ"),
        greek: alpha("ΑΒΓ", "ΑΒΓ"),
        hebrew: alpha("אבג", "אבג"),
        arabic: alpha("ابت", "ابت"),
        persian: alpha("پچژ", "پچژ"),
        korean: alpha("ㄱㄴㄷ", "ㄱㄴㄷ"),
        digits: alpha("12", "12"),
        symbols: alpha(".,", "!"),
    }
}

#[test]
fn timer_below_an_hour() {
    assert_eq!(format_timer(0), "00:00");
    assert_eq!(format_timer(5), "00:05");
    assert_eq!(format_timer(65), "01:05");
    assert_eq!(format_timer(600), "10:00");
    assert_eq!(format_timer(3599), "59:59");
}

#[test]
fn timer_from_an_hour_shows_hours_and_minutes() {
    assert_eq!(format_timer(3600), "01:00");
    assert_eq!(format_timer(3725), "01:02");
    assert_eq!(format_timer(36000 + 59 * 60 + 59), "10:59");
    assert_eq!(format_timer(360000), "100:00");
}

#[test]
fn punctuation_is_joined_to_neighbours() {
    let wj = WORD_JOINER;
    let zw = ZERO_WIDTH_NO_JOINER;
    assert_eq!(add_punctuation_joiners("AB"), "AB");
    assert_eq!(add_punctuation_joiners("A.B"), format!("A{wj}.{wj}B"));
    assert_eq!(add_punctuation_joiners(". A"), format!("{zw}.{zw} A"));
    assert_eq!(add_punctuation_joiners("A ?"), format!("A {zw}?{zw}"));
    assert_eq!(add_punctuation_joiners("A,"), format!("A{wj},{zw}"));
    assert_eq!(add_punctuation_joiners("=/"), format!("{zw}={wj}{wj}/{zw}"));
}

#[test]
fn joiners_only_join() {
    let input = "HELLO, WORLD. A=B / C?";
    let shown = add_punctuation_joiners(input);
    let stripped: String =
        shown.chars().filter(|c| *c != WORD_JOINER && *c != ZERO_WIDTH_NO_JOINER).collect();
    assert_eq!(stripped, input);
}

#[test]
fn clipboard_breaks_lines_every_word_length_spaces() {
    assert_eq!(clipboard_text("AAAAA BBBBB CCCCC", 2), "AAAAA BBBBB\nCCCCC");
    assert_eq!(clipboard_text("A B C D E F G", 5), "A B C D E\nF G");
    assert_eq!(clipboard_text("ABC", 5), "ABC");
    assert_eq!(clipboard_text("A B", 1), "A\nB");
    assert_eq!(clipboard_text("ABC", 0), "ABC");
}

#[test]
fn playback_texts() {
    assert_eq!(playback_start(0, TextType::Letters, 20), "");
    assert_eq!(playback_end(0), "");
    assert_eq!(playback_start(1, TextType::Letters, 20), "VVV = ");
    assert_eq!(playback_end(1), " +");
    assert_eq!(playback_start(2, TextType::Letters, 20), "OOOOO 20 VVV = ");
    assert_eq!(playback_start(2, TextType::Digits, 7), "00000 7 VVV = ");
    assert_eq!(playback_start(5, TextType::Mixed, 125), "00000 125 VVV = ");
    assert_eq!(playback_end(2), " +");
    assert_eq!(playback_text("ABC", 0, TextType::Letters, 20), "ABC");
    assert_eq!(playback_text("ABC", 1, TextType::Letters, 20), "VVV = ABC +");
    assert_eq!(playback_text("ABC", 2, TextType::Letters, 20), "OOOOO 20 VVV = ABC +");
}

#[test]
fn playable_text_is_upper_case_and_allowed() {
    let allowed: Vec<char> = "ABCDEFGHIJKLMNOPQRSTUVWXYZ ".chars().collect();
    let p = playable_text("hello, world!", &allowed);
    assert_eq!(p.text, "HELLO WORLD");
    assert_eq!(p.offsets, vec![0, 1, 2, 3, 4, 6, 7, 8, 9, 10, 11]);
}

#[test]
fn split_playable_keeps_positions() {
    let allowed: Vec<char> = vec!['A', 'B'];
    let p = split_playable("XAYB", &allowed);
    assert_eq!(p.text, "AB");
    assert_eq!(p.offsets, vec![1, 3]);
    let none = split_playable("xyz", &allowed);
    assert_eq!(none.text, "");
    assert!(none.offsets.is_empty());
}

#[test]
fn highlights_follow_offsets_then_stay() {
    assert_eq!(highlight_offsets(&vec![1, 3], 4), vec![1, 3, 3, 3]);
    assert_eq!(highlight_offsets(&vec![1, 3, 5], 2), vec![1, 3]);
    assert_eq!(highlight_offsets(&vec![], 2), vec![0, 0]);
}

#[test]
fn alphabet_selection() {
    let a = alphabets();
    let (chars, kind) = selected_alphabet(&a, 1);
    assert_eq!(kind, AlphabetKind::Cyrillic);
    assert_eq!(chars, vec!['А', 'Б', 'В']);
    assert_eq!(selected_alphabet(&a, 6).1, AlphabetKind::Korean);
    assert_eq!(selected_alphabet(&a, 0).1, AlphabetKind::Latin);
    assert_eq!(selected_alphabet(&a, 7).1, AlphabetKind::Latin);
    assert_eq!(selected_alphabet(&a, -1).1, AlphabetKind::Latin);
}

#[test]
fn allowed_characters() {
    let a = alphabets();
    assert_eq!(allowed_chars(&a, 0), "ABC12.,!".chars().collect::<Vec<char>>());
    assert_eq!(allowed_chars(&a, 2), "ΑΒΓ12.,!ABC".chars().collect::<Vec<char>>());
}

#[test]
fn check_buttons() {
    let a = alphabets();
    assert_eq!(check_button_chars(&a, 0, 0).0, vec!['A', 'B', 'C']);
    assert_eq!(check_button_chars(&a, 3, 1), (vec!['1', '2'], AlphabetKind::Hebrew));
    assert_eq!(check_button_chars(&a, 0, 2).0, "ABC12.,".chars().collect::<Vec<char>>());
    assert_eq!(check_button_cell(3, 10), (1, 1));
    assert_eq!(check_button_cell(9, 10), (4, 1));
    assert_eq!(check_button_cell(7, 26), (1, 1));
    assert_eq!(check_button_cell(25, 26), (4, 1));
}

#[test]
fn enabled_characters() {
    let labels = vec!['A', 'B', 'C', 'D'];
    let active = vec![true, false, true, false];
    assert_eq!(enabled_chars(&labels, &active), vec!['A', 'C']);
    assert_eq!(enabled_chars(&vec![], &vec![]), Vec::<char>::new());
    assert_eq!(enabled_chars(&labels, &vec![true; 4]), labels);
    assert_eq!(enabled_chars(&labels, &vec![false; 4]), Vec::<char>::new());
}

#[test]
fn group_text() {
    assert_eq!(generate_group_text(7, 2, 5, vec![]), Err(TextGenError::NoCharacters));
    assert_eq!(generate_group_text(7, 0, 5, vec![]), Err(TextGenError::NoCharacters));
    assert_eq!(generate_group_text(7, 0, 5, vec!['A', 'B']), Err(TextGenError::WordLongerThanText));
    let text = generate_group_text(7, 3, 5, vec!['A', 'B', 'C']).unwrap();
    assert_eq!(generate_group_text(7, 3, 5, vec!['A', 'B', 'C']).unwrap(), text);
    assert_eq!(text.split(' ').count(), 3);
    assert!(text.split(' ').all(|w| w.chars().count() == 5));
}

#[test]
fn settings_choices() {
    assert_eq!(WaveType::from_setting(0), WaveType::Square);
    assert_eq!(WaveType::from_setting(1), WaveType::Triangle);
    assert_eq!(WaveType::from_setting(2), WaveType::Sawtooth);
    assert_eq!(WaveType::from_setting(3), WaveType::Sine);
    assert_eq!(WaveType::from_setting(-4), WaveType::Sine);
    assert_eq!(SpeedSystem::from_setting(0), SpeedSystem::CODEX);
    assert_eq!(SpeedSystem::from_setting(1), SpeedSystem::PARIS);
    assert_eq!(SpeedSystem::CODEX.name(), "CODEX");
    assert_eq!(SpeedSystem::PARIS.name(), "PARIS");
    assert_eq!(SpeedSystem::default(), SpeedSystem::CODEX);
    assert_eq!(TextType::default(), TextType::Letters);
    assert_eq!(TextType::from_index(0), TextType::Letters);
    assert_eq!(TextType::from_index(1), TextType::Digits);
    assert_eq!(TextType::from_index(2), TextType::Mixed);
    assert_eq!(TextType::from_index(9), TextType::Mixed);
    assert_eq!(AlphabetKind::from_index(4), AlphabetKind::Arabic);
    assert_eq!(AlphabetKind::from_index(5), AlphabetKind::Persian);
}

#[test]
fn alphabet_dialog() {
    let a = alphabets();
    let s = alphabet_sections(&a, 2);
    assert_eq!(s.kind, AlphabetKind::Greek);
    assert_eq!(s.letters, vec!['Α', 'Β', 'Γ']);
    assert_eq!(s.digits, vec!['1', '2']);
    assert_eq!(s.punctuation, vec!['.', ',']);
    assert_eq!(s.extra_punctuation, vec!['!']);
    assert_eq!(alphabet_cell(0), (0, 0));
    assert_eq!(alphabet_cell(5), (1, 2));
    assert_eq!(character_click(true, false), ClickAction::ShowBusy);
    assert_eq!(character_click(true, true), ClickAction::ShowBusy);
    assert_eq!(character_click(false, true), ClickAction::Ignore);
    assert_eq!(character_click(false, false), ClickAction::Play);
}

#[test]
fn characters_and_numerals() {
    assert_eq!(chars_of("añb"), vec!['a', 'ñ', 'b']);
    assert_eq!(decimal_chars(0), vec!['0']);
    assert_eq!(decimal_chars(1907), vec!['1', '9', '0', '7']);
    assert_eq!(decimal_chars(u64::MAX).len(), 20);
}
