use morse::backend::text_generator::{generate_text, TextGenError};

fn words(text: &str) -> Vec<String> {
    text.split(' ').map(|w| w.to_string()).collect()
}

fn no_triple(text: &str) -> bool {
    let mut chars: Vec<char> = vec!['\0', '\0'];
    chars.extend(text.chars());
    for i in 2..chars.len() {
        if chars[i] == chars[i - 1] && chars[i] == chars[i - 2] {
            return false;
        }
    }
    true
}

#[test]
fn zero_word_length_is_refused() {
    let r = generate_text(Some(1), 10, 0, vec!['A', 'B']);
    assert_eq!(r, Err(TextGenError::ZeroWordLength));
}

#[test]
fn word_longer_than_text_is_refused() {
    let r = generate_text(Some(1), 4, 5, vec!['A', 'B']);
    assert_eq!(r, Err(TextGenError::WordLongerThanText));
}

#[test]
fn empty_characters_are_refused() {
    let r = generate_text(Some(1), 10, 5, vec![]);
    assert_eq!(r, Err(TextGenError::NoCharacters));
}

#[test]
fn errors_come_in_order() {
    assert_eq!(generate_text(Some(1), 0, 0, vec![]), Err(TextGenError::ZeroWordLength));
    assert_eq!(generate_text(Some(1), 3, 5, vec![]), Err(TextGenError::WordLongerThanText));
}

#[test]
fn error_messages() {
    assert_eq!(
        TextGenError::ZeroWordLength.message(),
        "The value of `word_length` must be greater than 0."
    );
    assert_eq!(
        TextGenError::WordLongerThanText.message(),
        "The value of `chars_count` must be greater than or equal to `word_length`."
    );
    assert_eq!(TextGenError::NoCharacters.message(), "The Vec<char> `chars_in_use` cannot be empty.");
}

#[test]
fn text_is_in_groups() {
    let text = generate_text(Some(7), 12, 5, vec!['K', 'M', 'R']).unwrap();
    assert_eq!(text.chars().count(), 12 + 2);
    let ws = words(&text);
    assert_eq!(ws.len(), 3);
    assert_eq!(ws[0].chars().count(), 5);
    assert_eq!(ws[1].chars().count(), 5);
    assert_eq!(ws[2].chars().count(), 2);
}

#[test]
fn exact_groups_have_no_trailing_space() {
    let text = generate_text(Some(3), 10, 5, vec!['A', 'B']).unwrap();
    assert_eq!(text.chars().count(), 11);
    assert_eq!(text.chars().nth(5), Some(' '));
    assert!(!text.ends_with(' '));
}

#[test]
fn text_uses_only_given_characters() {
    let chars = vec!['E', 'T', 'A'];
    for seed in 0..20 {
        let text = generate_text(Some(seed), 25, 5, chars.clone()).unwrap();
        assert!(text.chars().all(|c| c == ' ' || chars.contains(&c)));
    }
}

#[test]
fn no_three_in_a_row() {
    for seed in 0..50 {
        let text = generate_text(Some(seed), 30, 5, vec!['A', 'B']).unwrap();
        assert!(no_triple(&text), "{}", text);
    }
}

#[test]
fn single_character_may_repeat() {
    let text = generate_text(Some(5), 6, 3, vec!['S']).unwrap();
    assert_eq!(text, "SSS SSS");
}

#[test]
fn every_character_occurs_when_text_is_long_enough() {
    let chars: Vec<char> = "ABCDEFGHIJ".chars().collect();
    for seed in 0..30 {
        let text = generate_text(Some(seed), 10, 5, chars.clone()).unwrap();
        for c in &chars {
            assert!(text.contains(*c), "{} lacks {}", text, c);
        }
    }
}

#[test]
fn same_seed_gives_same_text() {
    let a = generate_text(Some(42), 20, 4, vec!['A', 'B', 'C']).unwrap();
    let b = generate_text(Some(42), 20, 4, vec!['A', 'B', 'C']).unwrap();
    assert_eq!(a, b);
}

#[test]
fn unseeded_generation_works() {
    let text = generate_text(None, 10, 5, vec!['A', 'B', 'C']).unwrap();
    assert_eq!(text.chars().count(), 11);
}

#[test]
fn repeated_characters_can_block() {
    let r = generate_text(Some(1), 3, 3, vec!['A', 'A']);
    assert_eq!(r, Err(TextGenError::RepeatBlocked));
    assert_eq!(
        TextGenError::RepeatBlocked.message(),
        "No character may come next without three equal ones in a row."
    );
}

#[test]
fn repeated_characters_are_accepted() {
    let text = generate_text(Some(9), 2, 2, vec!['A', 'A', 'B']).unwrap();
    assert_eq!(text.chars().count(), 2);
    assert!(text.chars().all(|c| c == 'A' || c == 'B'));
}

#[test]
fn short_text_repeats_no_character() {
    let chars: Vec<char> = "ABCDEFGHIJ".chars().collect();
    for seed in 0..30 {
        let text = generate_text(Some(seed), 6, 3, chars.clone()).unwrap();
        let drawn: Vec<char> = text.chars().filter(|c| *c != ' ').collect();
        for i in 0..drawn.len() {
            for j in (i + 1)..drawn.len() {
                assert_ne!(drawn[i], drawn[j], "{}", text);
            }
        }
    }
}

#[test]
fn different_seeds_can_give_different_texts() {
    let chars: Vec<char> = "ABCDEFGHIJKLMNOPQRSTUVWXYZ".chars().collect();
    let first = generate_text(Some(0), 25, 5, chars.clone()).unwrap();
    let differs = (1..10).any(|seed| generate_text(Some(seed), 25, 5, chars.clone()).unwrap() != first);
    assert!(differs);
}
