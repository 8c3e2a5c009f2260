use vstd::prelude::*;

use crate::backend::text_generator::{generate_text, is_generation_result, TextGenError};
use crate::backend::{alphabet_kind_at, AlphabetKind, TextType};
use crate::chars::{
    chars_of, copy_chars, decimal, decimal_chars, digit_char, extend_chars, lemma_digit_char,
    position_of, string_from_chars,
};
use crate::constants::{
    Alphabets,
    END_TEXT, START_TEXT, START_TEXT_COMPETITIONS_DIGITS, START_TEXT_COMPETITIONS_LETTERS,
    WORD_JOINER, ZERO_WIDTH_NO_JOINER,
};

verus! {

/// `n` in two or more decimal digits: a leading zero for one digit.
pub open spec fn two_digits(n: nat) -> Seq<char> {
    if n < 10 {
        seq!['0'] + decimal(n)
    } else {
        decimal(n)
    }
}

/// The text of the timer for `secs` seconds: "HH:MM" from one hour on,
/// "MM:SS" below.
pub open spec fn timer_text(secs: nat) -> Seq<char> {
    let hours = secs / 3600;
    let minutes = ((secs - hours * 3600) / 60) as nat;
    let seconds = (secs - hours * 3600 - minutes * 60) as nat;
    if hours > 0 {
        two_digits(hours) + seq![':'] + two_digits(minutes)
    } else {
        two_digits(minutes) + seq![':'] + two_digits(seconds)
    }
}

/// `c` is a decimal digit.
pub open spec fn is_digit(c: char) -> bool {
    '0' <= c <= '9'
}

/// The number written by the two decimal digits `s[0]` and `s[1]`.
pub open spec fn two_digit_value(s: Seq<char>) -> int {
    (s[0] as int - '0' as int) * 10 + (s[1] as int - '0' as int)
}

proof fn lemma_two_digits(n: nat)
    requires
        n < 100,
    ensures
        two_digits(n).len() == 2,
        is_digit(two_digits(n)[0]) && is_digit(two_digits(n)[1]),
        two_digit_value(two_digits(n)) == n,
{
    if n < 10 {
        lemma_digit_char(n);
        assert(two_digits(n) =~= seq!['0', digit_char(n)]);
    } else {
        lemma_digit_char(n / 10);
        lemma_digit_char(n % 10);
        assert(n / 10 < 10);
        assert(decimal(n / 10) =~= seq![digit_char(n / 10)]);
        assert(two_digits(n) =~= seq![digit_char(n / 10), digit_char(n % 10)]);
    }
}

/// Below a hundred hours the timer shows two digits, a colon and two
/// digits, which read back the time: minutes and seconds below an hour
/// (seconds below 60), else hours and the minutes of the hour begun.
pub proof fn lemma_timer_reads_back(secs: nat)
    requires
        secs < 100 * 3600,
    ensures
        timer_text(secs).len() == 5,
        timer_text(secs)[2] == ':',
        is_digit(timer_text(secs)[0]) && is_digit(timer_text(secs)[1]),
        is_digit(timer_text(secs)[3]) && is_digit(timer_text(secs)[4]),
        secs < 3600 ==> two_digit_value(timer_text(secs).take(2)) * 60 + two_digit_value(
            timer_text(secs).skip(3),
        ) == secs && two_digit_value(timer_text(secs).skip(3)) < 60,
        secs >= 3600 ==> two_digit_value(timer_text(secs).take(2)) == secs / 3600
            && two_digit_value(timer_text(secs).skip(3)) == (secs % 3600) / 60,
{
    let hours = secs / 3600;
    let minutes = ((secs - hours * 3600) / 60) as nat;
    let seconds = (secs - hours * 3600 - minutes * 60) as nat;
    assert(secs == hours * 3600 + secs % 3600);
    assert(secs - hours * 3600 == secs % 3600);
    assert(minutes < 60);
    assert(seconds < 60);
    let t = timer_text(secs);
    if hours > 0 {
        lemma_two_digits(hours);
        lemma_two_digits(minutes);
        assert(t.take(2) =~= two_digits(hours));
        assert(t.skip(3) =~= two_digits(minutes));
    } else {
        lemma_two_digits(minutes);
        lemma_two_digits(seconds);
        assert(t.take(2) =~= two_digits(minutes));
        assert(t.skip(3) =~= two_digits(seconds));
    }
}

fn two_digit_chars(n: u64) -> (v: Vec<char>)
    ensures
        v@ == two_digits(n as nat),
{
    if n < 10 {
        let mut v: Vec<char> = Vec::new();
        v.push('0');
        let d = decimal_chars(n);
        extend_chars(&mut v, &d);
        v
    } else {
        decimal_chars(n)
    }
}

/// The text of the timer that shows `secs` seconds.
pub fn format_timer(secs: u64) -> (s: String)
    ensures
        s@ == timer_text(secs as nat),
        secs < 100 * 3600 ==> s@.len() == 5 && s@[2] == ':',
        secs < 3600 ==> two_digit_value(s@.take(2)) * 60 + two_digit_value(s@.skip(3)) == secs
            && two_digit_value(s@.skip(3)) < 60,
        3600 <= secs < 100 * 3600 ==> two_digit_value(s@.take(2)) == secs / 3600
            && two_digit_value(s@.skip(3)) == (secs % 3600) / 60,
{
    proof {
        if secs < 100 * 3600 {
            lemma_timer_reads_back(secs as nat);
        }
    }
    let hours = secs / 3600;
    assert(hours * 3600 <= secs) by (nonlinear_arith)
        requires
            hours == secs / 3600,
    ;
    let minutes = (secs - hours * 3600) / 60;
    assert(minutes * 60 <= secs - hours * 3600) by (nonlinear_arith)
        requires
            minutes == (secs - hours * 3600) / 60,
            secs - hours * 3600 >= 0,
    ;
    let seconds = secs - hours * 3600 - minutes * 60;
    let mut v: Vec<char> = Vec::new();
    if hours > 0 {
        let h = two_digit_chars(hours);
        extend_chars(&mut v, &h);
        v.push(':');
        let m = two_digit_chars(minutes);
        extend_chars(&mut v, &m);
    } else {
        let m = two_digit_chars(minutes);
        extend_chars(&mut v, &m);
        v.push(':');
        let sec = two_digit_chars(seconds);
        extend_chars(&mut v, &sec);
    }
    proof {
        assert(v@ =~= timer_text(secs as nat));
    }
    string_from_chars(&v)
}

/// The punctuation marks that are kept next to their neighbours.
pub open spec fn is_punctuation(c: char) -> bool {
    c == '.' || c == ',' || c == '/' || c == '=' || c == '?'
}

/// What the `i`-th character of `s` becomes: a punctuation mark gets a word
/// joiner on each side where a character other than a space stands there,
/// else a zero width non-joiner; other characters stay as they are.
pub open spec fn joined_piece(s: Seq<char>, i: int) -> Seq<char> {
    let c = s[i];
    if is_punctuation(c) {
        let before = if i > 0 && s[i - 1] != ' ' {
            WORD_JOINER
        } else {
            ZERO_WIDTH_NO_JOINER
        };
        let after = if i + 1 < s.len() && s[i + 1] != ' ' {
            WORD_JOINER
        } else {
            ZERO_WIDTH_NO_JOINER
        };
        seq![before, c, after]
    } else {
        seq![c]
    }
}

/// The pieces of the first `n` characters of `s`, in order.
pub open spec fn joined_prefix(s: Seq<char>, n: nat) -> Seq<char>
    decreases n,
{
    if n == 0 {
        seq![]
    } else {
        joined_prefix(s, (n - 1) as nat) + joined_piece(s, n - 1)
    }
}

/// `s` with its punctuation marks joined to their neighbours.
pub open spec fn with_joiners(s: Seq<char>) -> Seq<char> {
    joined_prefix(s, s.len())
}

/// The text to show for `input`, where a line break cannot part a
/// punctuation mark from the characters next to it.
pub fn add_punctuation_joiners(input: &str) -> (out: String)
    ensures
        out@ == with_joiners(input@),
        out@.len() == input@.len() + 2 * count_punctuation(input@),
        forall|i: int|
            0 <= i < input@.len() ==> out@[#[trigger] shown_position(input@, i)] == input@[i],
        forall|i: int|
            0 <= i < input@.len() && is_punctuation(input@[i]) ==> out@[#[trigger] shown_position(
                input@,
                i,
            ) - 1] == (if i > 0 && input@[i - 1] != ' ' {
                WORD_JOINER
            } else {
                ZERO_WIDTH_NO_JOINER
            }) && out@[shown_position(input@, i) + 1] == (if i + 1 < input@.len() && input@[i + 1]
                != ' ' {
                WORD_JOINER
            } else {
                ZERO_WIDTH_NO_JOINER
            }),
{
    proof {
        lemma_punctuation_joined(input@);
    }
    let chars = chars_of(input);
    let len = chars.len();
    let mut output: Vec<char> = Vec::new();
    let mut i: usize = 0;
    while i < len
        invariant
            i <= len,
            len == chars@.len(),
            chars@ == input@,
            output@ == joined_prefix(chars@, i as nat),
        decreases len - i,
    {
        let c = chars[i];
        if c == '.' || c == ',' || c == '/' || c == '=' || c == '?' {
            if i > 0 && chars[i - 1] != ' ' {
                output.push(WORD_JOINER);
            } else {
                output.push(ZERO_WIDTH_NO_JOINER);
            }
            output.push(c);
            if i + 1 < len && chars[i + 1] != ' ' {
                output.push(WORD_JOINER);
            } else {
                output.push(ZERO_WIDTH_NO_JOINER);
            }
        } else {
            output.push(c);
        }
        proof {
            assert(output@ =~= joined_prefix(chars@, (i + 1) as nat));
        }
        i += 1;
    }
    string_from_chars(&output)
}

/// `c` is one of the two joining characters.
pub open spec fn is_joiner(c: char) -> bool {
    c == WORD_JOINER || c == ZERO_WIDTH_NO_JOINER
}

/// `s` without its joining characters.
pub open spec fn strip_joiners(s: Seq<char>) -> Seq<char>
    decreases s.len(),
{
    if s.len() == 0 {
        seq![]
    } else if is_joiner(s.last()) {
        strip_joiners(s.drop_last())
    } else {
        strip_joiners(s.drop_last()).push(s.last())
    }
}

proof fn lemma_strip_concat(a: Seq<char>, b: Seq<char>)
    ensures
        strip_joiners(a + b) == strip_joiners(a) + strip_joiners(b),
    decreases b.len(),
{
    if b.len() == 0 {
        assert(a + b =~= a);
        assert(strip_joiners(a) + strip_joiners(b) =~= strip_joiners(a));
    } else {
        lemma_strip_concat(a, b.drop_last());
        assert((a + b).drop_last() =~= a + b.drop_last());
        assert((a + b).last() == b.last());
        if !is_joiner(b.last()) {
            assert(strip_joiners(a) + strip_joiners(b.drop_last()).push(b.last()) =~= (
            strip_joiners(a) + strip_joiners(b.drop_last())).push(b.last()));
        }
    }
}

proof fn lemma_strip_prefix(s: Seq<char>, n: nat)
    requires
        n <= s.len(),
        forall|i: int| 0 <= i < s.len() ==> !is_joiner(#[trigger] s[i]),
    ensures
        strip_joiners(joined_prefix(s, n)) == s.take(n as int),
    decreases n,
{
    if n == 0 {
        assert(s.take(0) =~= seq![]);
    } else {
        let m = (n - 1) as nat;
        lemma_strip_prefix(s, m);
        let piece = joined_piece(s, m as int);
        lemma_strip_concat(joined_prefix(s, m), piece);
        assert(!is_joiner(s[m as int]));
        if is_punctuation(s[m as int]) {
            assert(piece.len() == 3);
            assert(is_joiner(piece[0]) && is_joiner(piece[2]) && piece[1] == s[m as int]);
            let p2 = piece.drop_last();
            let p1 = p2.drop_last();
            assert(p1.drop_last() =~= seq![]);
            assert(strip_joiners(p1.drop_last()) =~= seq![]);
            assert(p1.last() == piece[0]);
            assert(strip_joiners(p1) =~= seq![]);
            assert(strip_joiners(p2) =~= seq![s[m as int]]);
            assert(strip_joiners(piece) =~= seq![s[m as int]]);
        } else {
            assert(piece =~= seq![s[m as int]]);
            assert(piece.drop_last() =~= seq![]);
            assert(strip_joiners(piece.drop_last()) =~= seq![]);
            assert(strip_joiners(piece) =~= seq![s[m as int]]);
        }
        assert(s.take(n as int) =~= s.take(m as int).push(s[m as int]));
    }
}

/// The joining characters only join: where `s` holds none of them, taking
/// them out of the text shown for `s` gives `s` back.
pub proof fn lemma_joiners_only_join(s: Seq<char>)
    requires
        forall|i: int| 0 <= i < s.len() ==> !is_joiner(#[trigger] s[i]),
    ensures
        strip_joiners(with_joiners(s)) == s,
{
    lemma_strip_prefix(s, s.len());
    assert(s.take(s.len() as int) =~= s);
}

/// The number of punctuation marks in `s`.
pub open spec fn count_punctuation(s: Seq<char>) -> nat
    decreases s.len(),
{
    if s.len() == 0 {
        0
    } else {
        count_punctuation(s.drop_last()) + if is_punctuation(s.last()) {
            1nat
        } else {
            0nat
        }
    }
}

/// Where the `i`-th character of `s` stands in the text shown for `s`: after
/// the characters before it, two joining characters for each punctuation
/// mark among them, and its own joining character before it if it is one.
pub open spec fn shown_position(s: Seq<char>, i: int) -> int {
    i + 2 * count_punctuation(s.take(i)) + if is_punctuation(s[i]) {
        1int
    } else {
        0int
    }
}

proof fn lemma_count_punctuation_step(s: Seq<char>, i: int)
    requires
        0 <= i < s.len(),
    ensures
        count_punctuation(s.take(i + 1)) == count_punctuation(s.take(i)) + if is_punctuation(
            s[i],
        ) {
            1nat
        } else {
            0nat
        },
{
    assert(s.take(i + 1).drop_last() =~= s.take(i));
}

proof fn lemma_count_punctuation_mono(s: Seq<char>, i: int, j: int)
    requires
        0 <= i <= j <= s.len(),
    ensures
        count_punctuation(s.take(i)) <= count_punctuation(s.take(j)),
    decreases j - i,
{
    if i < j {
        lemma_count_punctuation_mono(s, i, j - 1);
        lemma_count_punctuation_step(s, j - 1);
    }
}

proof fn lemma_joined_prefix_layout(s: Seq<char>, n: nat)
    requires
        n <= s.len(),
    ensures
        joined_prefix(s, n).len() == n + 2 * count_punctuation(s.take(n as int)),
        forall|i: int| 0 <= i < n ==> joined_prefix(s, n)[#[trigger] shown_position(s, i)] == s[i],
        forall|i: int|
            0 <= i < n && is_punctuation(s[i]) ==> joined_prefix(s, n)[#[trigger] shown_position(
                s,
                i,
            ) - 1] == (if i > 0 && s[i - 1] != ' ' {
                WORD_JOINER
            } else {
                ZERO_WIDTH_NO_JOINER
            }) && joined_prefix(s, n)[shown_position(s, i) + 1] == (if i + 1 < s.len() && s[i + 1]
                != ' ' {
                WORD_JOINER
            } else {
                ZERO_WIDTH_NO_JOINER
            }),
    decreases n,
{
    if n == 0 {
        assert(s.take(0) =~= Seq::<char>::empty());
    } else {
        let m = (n - 1) as nat;
        lemma_joined_prefix_layout(s, m);
        lemma_count_punctuation_step(s, m as int);
        let a = joined_prefix(s, m);
        let piece = joined_piece(s, m as int);
        let all = joined_prefix(s, n);
        assert(all == a + piece);
        assert forall|i: int| 0 <= i < m implies shown_position(s, i) + (if is_punctuation(s[i]) {
            1int
        } else {
            0int
        }) < a.len() by {
            lemma_count_punctuation_step(s, i);
            lemma_count_punctuation_mono(s, i + 1, m as int);
        }
        assert forall|i: int| 0 <= i < n implies all[#[trigger] shown_position(s, i)] == s[i] by {
            if i < m {
                assert(all[shown_position(s, i)] == a[shown_position(s, i)]);
            } else {
                assert(shown_position(s, i) == a.len() + (if is_punctuation(s[i]) {
                    1int
                } else {
                    0int
                }));
            }
        }
        assert forall|i: int|
            0 <= i < n && is_punctuation(s[i]) implies all[#[trigger] shown_position(s, i) - 1] == (
            if i > 0 && s[i - 1] != ' ' {
                WORD_JOINER
            } else {
                ZERO_WIDTH_NO_JOINER
            }) && all[shown_position(s, i) + 1] == (if i + 1 < s.len() && s[i + 1] != ' ' {
                WORD_JOINER
            } else {
                ZERO_WIDTH_NO_JOINER
            }) by {
            if i < m {
                assert(all[shown_position(s, i) - 1] == a[shown_position(s, i) - 1]);
                assert(all[shown_position(s, i) + 1] == a[shown_position(s, i) + 1]);
            } else {
                assert(shown_position(s, i) == a.len() + 1);
            }
        }
    }
}

/// The text shown for `s` keeps every character of `s`, in order, and puts
/// two joining characters around each punctuation mark: a word joiner on a
/// side where a character other than a space stands next to it, a zero width
/// non-joiner on a side where a space stands or the text ends. Nothing else
/// is added: the text is two characters longer per punctuation mark.
pub proof fn lemma_punctuation_joined(s: Seq<char>)
    ensures
        with_joiners(s).len() == s.len() + 2 * count_punctuation(s),
        forall|i: int| 0 <= i < s.len() ==> with_joiners(s)[#[trigger] shown_position(s, i)] == s[i],
        forall|i: int|
            0 <= i < s.len() && is_punctuation(s[i]) ==> with_joiners(s)[#[trigger] shown_position(
                s,
                i,
            ) - 1] == (if i > 0 && s[i - 1] != ' ' {
                WORD_JOINER
            } else {
                ZERO_WIDTH_NO_JOINER
            }) && with_joiners(s)[shown_position(s, i) + 1] == (if i + 1 < s.len() && s[i + 1]
                != ' ' {
                WORD_JOINER
            } else {
                ZERO_WIDTH_NO_JOINER
            }),
{
    lemma_joined_prefix_layout(s, s.len());
    assert(s.take(s.len() as int) =~= s);
}

/// The number of spaces in `s`.
pub open spec fn count_spaces(s: Seq<char>) -> nat
    decreases s.len(),
{
    if s.len() == 0 {
        0
    } else {
        count_spaces(s.drop_last()) + if s.last() == ' ' {
            1nat
        } else {
            0nat
        }
    }
}

/// What the `i`-th character of `s` becomes on the clipboard: every
/// `word_length`-th space a line break.
pub open spec fn clipboard_char(s: Seq<char>, i: int, word_length: nat) -> char {
    if s[i] == ' ' {
        if count_spaces(s.take(i + 1)) % word_length == 0 {
            '\n'
        } else {
            ' '
        }
    } else {
        s[i]
    }
}

/// The number of occurrences of `c` in `s`.
pub open spec fn count_char(s: Seq<char>, c: char) -> nat
    decreases s.len(),
{
    if s.len() == 0 {
        0
    } else {
        count_char(s.drop_last(), c) + if s.last() == c {
            1nat
        } else {
            0nat
        }
    }
}

proof fn lemma_div_step(c: int, w: int)
    requires
        w > 0,
        c >= 0,
    ensures
        (c + 1) / w == c / w + (if (c + 1) % w == 0 {
            1int
        } else {
            0int
        }),
{
    let q = c / w;
    let r = c % w;
    vstd::arithmetic::div_mod::lemma_fundamental_div_mod(c, w);
    assert(c == w * q + r);
    if r == w - 1 {
        assert(c + 1 == (q + 1) * w + 0) by (nonlinear_arith)
            requires
                c == w * q + r,
                r == w - 1,
        ;
        vstd::arithmetic::div_mod::lemma_fundamental_div_mod_converse(c + 1, w, q + 1, 0);
    } else {
        assert(c + 1 == q * w + (r + 1)) by (nonlinear_arith)
            requires
                c == w * q + r,
        ;
        vstd::arithmetic::div_mod::lemma_fundamental_div_mod_converse(c + 1, w, q, r + 1);
    }
}

/// On the clipboard only spaces change: a character other than a space stays
/// as it is, and a space becomes a line break exactly when the spaces up to
/// and including it are a multiple of `word_length` in number.
pub proof fn lemma_clipboard_changes_only_spaces(text: Seq<char>, word_length: nat)
    requires
        word_length > 0,
    ensures
        forall|i: int|
            0 <= i < text.len() ==> {
                let out = #[trigger] clipboard_char(text, i, word_length);
                &&& text[i] != ' ' ==> out == text[i]
                &&& text[i] == ' ' ==> (out == '\n' <==> count_spaces(text.take(i + 1))
                    % word_length == 0)
                &&& text[i] == ' ' ==> (out == '\n' || out == ' ')
            },
{
}

/// The clipboard text holds one line break more than `text` for every
/// `word_length` spaces of `text`: its line breaks are those of `text` and
/// `count_spaces(text) / word_length` more.
pub proof fn lemma_clipboard_line_count(text: Seq<char>, word_length: nat, n: nat)
    requires
        word_length > 0,
        n <= text.len(),
    ensures
        count_char(Seq::new(n, |i: int| clipboard_char(text, i, word_length)), '\n') == count_char(
            text.take(n as int),
            '\n',
        ) + (count_spaces(text.take(n as int)) as int) / (word_length as int),
    decreases n,
{
    let f = |i: int| clipboard_char(text, i, word_length);
    if n == 0 {
        assert(Seq::new(0, f) =~= Seq::<char>::empty());
        assert(text.take(0) =~= Seq::<char>::empty());
    } else {
        let m = (n - 1) as nat;
        lemma_clipboard_line_count(text, word_length, m);
        assert(Seq::new(n, f).drop_last() =~= Seq::new(m, f));
        assert(text.take(n as int).drop_last() =~= text.take(m as int));
        assert(text.take(n as int).last() == text[m as int]);
        let cs = count_spaces(text.take(m as int));
        lemma_div_step(cs as int, word_length as int);
        if text[m as int] == ' ' {
            assert(text.take(m + 1int) =~= text.take(n as int));
        }
    }
}

/// The text put on the clipboard for `text`: every `word_length`-th space
/// becomes a line break, so that each line holds `word_length` words.
pub fn clipboard_text(text: &str, word_length: u64) -> (out: String)
    requires
        word_length > 0 || !text@.contains(' '),
    ensures
        out@ == Seq::new(text@.len(), |i: int| clipboard_char(text@, i, word_length as nat)),
        out@.len() == text@.len(),
        forall|i: int| 0 <= i < text@.len() && text@[i] != ' ' ==> out@[i] == text@[i],
        word_length > 0 ==> forall|i: int|
            0 <= i < text@.len() && text@[i] == ' ' ==> (out@[i] == '\n' <==> (count_spaces(
                text@.take(i + 1),
            ) as int) % (word_length as int) == 0) && (out@[i] == '\n' || out@[i] == ' '),
        word_length > 0 ==> count_char(out@, '\n') == count_char(text@, '\n') + (count_spaces(text@)
            as int) / (word_length as int),
{
    let chars = chars_of(text);
    let len = chars.len();
    let mut result: Vec<char> = Vec::new();
    let mut space_count: u64 = 0;
    let mut i: usize = 0;
    while i < len
        invariant
            i <= len,
            len == chars@.len(),
            chars@ == text@,
            word_length > 0 || !chars@.contains(' '),
            space_count == count_spaces(chars@.take(i as int)),
            space_count <= i,
            result@ == Seq::new(i as nat, |j: int| clipboard_char(chars@, j, word_length as nat)),
        decreases len - i,
    {
        let c = chars[i];
        proof {
            assert(chars@.take(i + 1).drop_last() =~= chars@.take(i as int));
        }
        if c == ' ' {
            space_count += 1;
            if space_count % word_length == 0 {
                result.push('\n');
            } else {
                result.push(' ');
            }
        } else {
            result.push(c);
        }
        proof {
            assert(result@ =~= Seq::new((i + 1) as nat, |j: int| clipboard_char(chars@, j, word_length as nat)));
        }
        i += 1;
    }
    proof {
        if word_length > 0 {
            lemma_clipboard_changes_only_spaces(text@, word_length as nat);
            lemma_clipboard_line_count(text@, word_length as nat, text@.len());
            assert(text@.take(text@.len() as int) =~= text@);
        }
        assert forall|i: int| 0 <= i < text@.len() && text@[i] != ' ' implies result@[i] == text@[i] by {
            assert(result@[i] == clipboard_char(text@, i, word_length as nat));
        }
    }
    string_from_chars(&result)
}

/// What is played before the practice text: nothing where `additions` is 0;
/// the start text where it is 1; otherwise the competition start for the
/// text type, the speed, a space and the start text.
pub open spec fn start_text(additions: int, text_type: TextType, speed: nat) -> Seq<char> {
    if additions == 0 {
        seq![]
    } else if additions == 1 {
        START_TEXT@
    } else {
        let opening = if text_type == TextType::Letters {
            START_TEXT_COMPETITIONS_LETTERS@
        } else {
            START_TEXT_COMPETITIONS_DIGITS@
        };
        opening + decimal(speed) + seq![' '] + START_TEXT@
    }
}

/// What is played after the practice text: nothing where `additions` is 0,
/// else the end text.
pub open spec fn end_text(additions: int) -> Seq<char> {
    if additions == 0 {
        seq![]
    } else {
        END_TEXT@
    }
}

/// The competition start does not depend on which setting other than 0 and
/// 1 chose it, is the same for digits and mixed texts, and opens with the
/// letters opening exactly for letters and with the digits opening otherwise.
pub proof fn lemma_competition_start(a1: int, a2: int, text_type: TextType, speed: nat)
    requires
        a1 != 0 && a1 != 1,
        a2 != 0 && a2 != 1,
    ensures
        start_text(a1, text_type, speed) == start_text(a2, text_type, speed),
        start_text(a1, TextType::Mixed, speed) == start_text(a1, TextType::Digits, speed),
        start_text(a1, text_type, speed).take(START_TEXT_COMPETITIONS_LETTERS@.len() as int) == (
        if text_type == TextType::Letters {
            START_TEXT_COMPETITIONS_LETTERS@
        } else {
            START_TEXT_COMPETITIONS_DIGITS@
        }),
        start_text(a1, text_type, speed) == (if text_type == TextType::Letters {
            START_TEXT_COMPETITIONS_LETTERS@
        } else {
            START_TEXT_COMPETITIONS_DIGITS@
        }) + decimal(speed) + seq![' '] + START_TEXT@,
{
    reveal_strlit("OOOOO ");
    reveal_strlit("00000 ");
    let opening = if text_type == TextType::Letters {
        START_TEXT_COMPETITIONS_LETTERS@
    } else {
        START_TEXT_COMPETITIONS_DIGITS@
    };
    assert((opening + decimal(speed) + seq![' '] + START_TEXT@).take(opening.len() as int) =~= opening);
}

/// The text played before the practice text, for the additions setting,
/// the text type and the speed.
pub fn playback_start(additions: i32, text_type: TextType, speed: u32) -> (s: String)
    ensures
        s@ == start_text(additions as int, text_type, speed as nat),
        additions == 0 ==> s@ == Seq::<char>::empty(),
        additions == 1 ==> s@ == START_TEXT@,
        additions != 0 && additions != 1 ==> s@ == (if text_type == TextType::Letters {
            START_TEXT_COMPETITIONS_LETTERS@
        } else {
            START_TEXT_COMPETITIONS_DIGITS@
        }) + decimal(speed as nat) + seq![' '] + START_TEXT@,
{
    proof {
        if additions != 0 && additions != 1 {
            lemma_competition_start(additions as int, additions as int, text_type, speed as nat);
        }
    }
    let mut v: Vec<char> = Vec::new();
    if additions == 1 {
        v = chars_of(START_TEXT);
    } else if additions != 0 {
        if text_type == TextType::Letters {
            v = chars_of(START_TEXT_COMPETITIONS_LETTERS);
        } else {
            v = chars_of(START_TEXT_COMPETITIONS_DIGITS);
        }
        let digits = decimal_chars(speed as u64);
        extend_chars(&mut v, &digits);
        v.push(' ');
        let start = chars_of(START_TEXT);
        extend_chars(&mut v, &start);
    }
    proof {
        assert(v@ =~= start_text(additions as int, text_type, speed as nat));
    }
    string_from_chars(&v)
}

/// The text played after the practice text, for the additions setting.
pub fn playback_end(additions: i32) -> (s: String)
    ensures
        s@ == end_text(additions as int),
        additions == 0 ==> s@ == Seq::<char>::empty(),
        additions != 0 ==> s@ == END_TEXT@,
{
    let v = if additions == 0 {
        Vec::new()
    } else {
        chars_of(END_TEXT)
    };
    proof {
        assert(v@ =~= end_text(additions as int));
    }
    string_from_chars(&v)
}

/// The whole text played for the practice text `base`: start, `base`, end.
pub fn playback_text(base: &str, additions: i32, text_type: TextType, speed: u32) -> (s: String)
    ensures
        s@ == start_text(additions as int, text_type, speed as nat) + base@ + end_text(
            additions as int,
        ),
        additions == 0 ==> s@ == base@,
        additions == 1 ==> s@ == START_TEXT@ + base@ + END_TEXT@,
        additions != 0 && additions != 1 ==> s@ == (if text_type == TextType::Letters {
            START_TEXT_COMPETITIONS_LETTERS@
        } else {
            START_TEXT_COMPETITIONS_DIGITS@
        }) + decimal(speed as nat) + seq![' '] + START_TEXT@ + base@ + END_TEXT@,
{
    let start = playback_start(additions, text_type, speed);
    let end = playback_end(additions);
    let mut v = chars_of(start.as_str());
    let b = chars_of(base);
    extend_chars(&mut v, &b);
    let e = chars_of(end.as_str());
    extend_chars(&mut v, &e);
    proof {
        if additions == 0 {
            assert(Seq::<char>::empty() + base@ + Seq::<char>::empty() =~= base@);
        }
    }
    string_from_chars(&v)
}

/// `s` in upper case, as `str::to_uppercase` gives it.
pub uninterp spec fn uppercase(s: Seq<char>) -> Seq<char>;

/// `str::to_uppercase` (std): the upper case of `s`, by the Unicode case
/// mapping. What that mapping is, is not stated: the result is named.
#[verifier::external_body]
fn to_uppercase(s: &str) -> (r: String)
    ensures
        r@ == uppercase(s@),
{
    s.to_uppercase()
}

/// The characters of the first `n` characters of `s` that `allowed` holds.
pub open spec fn kept_chars(s: Seq<char>, allowed: Seq<char>, n: nat) -> Seq<char>
    decreases n,
{
    if n == 0 {
        seq![]
    } else if allowed.contains(s[n - 1]) {
        kept_chars(s, allowed, (n - 1) as nat).push(s[n - 1])
    } else {
        kept_chars(s, allowed, (n - 1) as nat)
    }
}

/// The positions, as `i32`, of the characters of the first `n` characters of
/// `s` that `allowed` holds.
pub open spec fn kept_positions(s: Seq<char>, allowed: Seq<char>, n: nat) -> Seq<i32>
    decreases n,
{
    if n == 0 {
        seq![]
    } else if allowed.contains(s[n - 1]) {
        kept_positions(s, allowed, (n - 1) as nat).push((n - 1) as i32)
    } else {
        kept_positions(s, allowed, (n - 1) as nat)
    }
}

/// Each position of a played character points at that character: the
/// positions and the played characters are equally many, and the `k`-th
/// position, which lies before `n` and after the one before it, holds the
/// `k`-th played character (positions below 2^31).
pub proof fn lemma_positions_point_at_played(s: Seq<char>, allowed: Seq<char>, n: nat)
    requires
        n <= s.len(),
        n <= 0x8000_0000,
    ensures
        kept_positions(s, allowed, n).len() == kept_chars(s, allowed, n).len(),
        forall|k: int|
            0 <= k < kept_positions(s, allowed, n).len() ==> 0 <= #[trigger] kept_positions(
                s,
                allowed,
                n,
            )[k] < n && s[kept_positions(s, allowed, n)[k] as int] == kept_chars(s, allowed, n)[k],
        forall|k1: int, k2: int|
            0 <= k1 < k2 < kept_positions(s, allowed, n).len() ==> kept_positions(s, allowed, n)[k1]
                < kept_positions(s, allowed, n)[k2],
    decreases n,
{
    if n > 0 {
        lemma_positions_point_at_played(s, allowed, (n - 1) as nat);
    }
}

proof fn lemma_kept_allowed(s: Seq<char>, allowed: Seq<char>, n: nat)
    requires
        n <= s.len(),
    ensures
        forall|k: int|
            0 <= k < kept_chars(s, allowed, n).len() ==> allowed.contains(
                #[trigger] kept_chars(s, allowed, n)[k],
            ),
    decreases n,
{
    if n > 0 {
        let m = (n - 1) as nat;
        lemma_kept_allowed(s, allowed, m);
        let before = kept_chars(s, allowed, m);
        let after = kept_chars(s, allowed, n);
        assert forall|k: int| 0 <= k < after.len() implies allowed.contains(#[trigger] after[k]) by {
            if k < before.len() {
                assert(after[k] == before[k]);
            }
        }
    }
}

/// Exactly the allowed characters are played: each played character is
/// allowed, and each position before `n` whose character is allowed is the
/// position of a played character (positions below 2^31).
pub proof fn lemma_played_exactly_allowed(s: Seq<char>, allowed: Seq<char>, n: nat)
    requires
        n <= s.len(),
        n <= 0x8000_0000,
    ensures
        forall|k: int|
            0 <= k < kept_chars(s, allowed, n).len() ==> allowed.contains(
                #[trigger] kept_chars(s, allowed, n)[k],
            ),
        forall|i: int|
            0 <= i < n && allowed.contains(s[i]) ==> exists|k: int|
                0 <= k < kept_positions(s, allowed, n).len() && #[trigger] kept_positions(
                    s,
                    allowed,
                    n,
                )[k] == i,
    decreases n,
{
    lemma_kept_allowed(s, allowed, n);
    if n > 0 {
        let m = (n - 1) as nat;
        lemma_played_exactly_allowed(s, allowed, m);
        lemma_positions_point_at_played(s, allowed, m);
        let before = kept_positions(s, allowed, m);
        let after = kept_positions(s, allowed, n);
        assert forall|i: int| 0 <= i < n && allowed.contains(s[i]) implies exists|k: int|
            0 <= k < after.len() && #[trigger] after[k] == i by {
            if i < m {
                let k = choose|k: int| 0 <= k < before.len() && #[trigger] before[k] == i;
                assert(after[k] == before[k]);
            } else {
                assert(after[before.len() as int] == m as i32);
                assert((m as i32) as int == i);
            }
        }
    }
}

/// The text that is played, and where each of its characters stands in the
/// upper case text it was taken from.
pub struct PlayableText {
    pub text: String,
    pub offsets: Vec<i32>,
}

/// The characters of `upper` that `allowed` holds, and their positions.
pub fn split_playable(upper: &str, allowed: &Vec<char>) -> (p: PlayableText)
    ensures
        p.text@ == kept_chars(upper@, allowed@, upper@.len()),
        p.offsets@ == kept_positions(upper@, allowed@, upper@.len()),
        forall|k: int| 0 <= k < p.text@.len() ==> allowed@.contains(#[trigger] p.text@[k]),
        upper@.len() <= 0x8000_0000 ==> p.offsets@.len() == p.text@.len() && (forall|k: int|
            0 <= k < p.offsets@.len() ==> 0 <= #[trigger] p.offsets@[k] < upper@.len()
                && upper@[p.offsets@[k] as int] == p.text@[k]) && (forall|i: int|
            0 <= i < upper@.len() && allowed@.contains(upper@[i]) ==> exists|k: int|
                0 <= k < p.offsets@.len() && #[trigger] p.offsets@[k] == i),
{
    let chars = chars_of(upper);
    let len = chars.len();
    let mut kept: Vec<char> = Vec::new();
    let mut offsets: Vec<i32> = Vec::new();
    let mut i: usize = 0;
    while i < len
        invariant
            i <= len,
            len == chars@.len(),
            chars@ == upper@,
            kept@ == kept_chars(chars@, allowed@, i as nat),
            offsets@ == kept_positions(chars@, allowed@, i as nat),
        decreases len - i,
    {
        let c = chars[i];
        if position_of(allowed, c).is_some() {
            kept.push(c);
            offsets.push(i as i32);
        }
        i += 1;
    }
    proof {
        lemma_kept_allowed(upper@, allowed@, upper@.len());
        if upper@.len() <= 0x8000_0000 {
            lemma_positions_point_at_played(upper@, allowed@, upper@.len());
            lemma_played_exactly_allowed(upper@, allowed@, upper@.len());
        }
    }
    PlayableText { text: string_from_chars(&kept), offsets }
}

/// The text played for the text `text` of the text view: its upper case,
/// with only the characters that `allowed` holds.
pub fn playable_text(text: &str, allowed: &Vec<char>) -> (p: PlayableText)
    ensures
        p.text@ == kept_chars(uppercase(text@), allowed@, uppercase(text@).len()),
        p.offsets@ == kept_positions(uppercase(text@), allowed@, uppercase(text@).len()),
        forall|k: int| 0 <= k < p.text@.len() ==> allowed@.contains(#[trigger] p.text@[k]),
        uppercase(text@).len() <= 0x8000_0000 ==> p.offsets@.len() == p.text@.len() && (forall|
            k: int,
        |
            0 <= k < p.offsets@.len() ==> 0 <= #[trigger] p.offsets@[k] < uppercase(text@).len()
                && uppercase(text@)[p.offsets@[k] as int] == p.text@[k]) && (forall|i: int|
            0 <= i < uppercase(text@).len() && allowed@.contains(uppercase(text@)[i]) ==> exists|
                k: int,
            |
                0 <= k < p.offsets@.len() && #[trigger] p.offsets@[k] == i),
{
    let upper = to_uppercase(text);
    split_playable(upper.as_str(), allowed)
}

/// The position highlighted while the `i`-th sound is played: the position of
/// the `i`-th played character, or the last one where there are fewer, or 0
/// where there are none.
pub open spec fn highlight_at(offsets: Seq<i32>, i: int) -> i32 {
    if i < offsets.len() {
        offsets[i]
    } else if offsets.len() > 0 {
        offsets.last()
    } else {
        0
    }
}

/// The positions highlighted while each of `count` sounds is played.
pub fn highlight_offsets(offsets: &Vec<i32>, count: usize) -> (r: Vec<i32>)
    ensures
        r@ == Seq::new(count as nat, |i: int| highlight_at(offsets@, i)),
        r@.len() == count,
        forall|i: int| 0 <= i < count && i < offsets@.len() ==> r@[i] == offsets@[i],
        offsets@.len() > 0 ==> forall|i: int|
            offsets@.len() <= i < count ==> r@[i] == offsets@[offsets@.len() - 1],
        offsets@.len() == 0 ==> forall|i: int| 0 <= i < count ==> r@[i] == 0,
{
    let mut r: Vec<i32> = Vec::new();
    let mut char_id: i32 = 0;
    let mut i: usize = 0;
    while i < count
        invariant
            i <= count,
            r@ == Seq::new(i as nat, |j: int| highlight_at(offsets@, j)),
            i > 0 ==> char_id == highlight_at(offsets@, i - 1),
            i == 0 ==> char_id == 0,
        decreases count - i,
    {
        if i < offsets.len() {
            char_id = offsets[i];
        }
        r.push(char_id);
        proof {
            assert(r@ =~= Seq::new((i + 1) as nat, |j: int| highlight_at(offsets@, j)));
        }
        i += 1;
    }
    r
}

/// The visible letters of the alphabet at `index` of the alphabet list, and
/// that alphabet.
pub fn selected_alphabet(alphabets: &Alphabets, index: i64) -> (r: (Vec<char>, AlphabetKind))
    ensures
        r.1 == alphabet_kind_at(index as int),
        r.0@ == alphabets.alphabet_of(r.1).visible@,
{
    let kind = AlphabetKind::from_index(index);
    (copy_chars(&alphabets.get(kind).visible), kind)
}

/// The characters that may be played: the letters of `kind`, the digits,
/// the symbols, the symbols that can be played though they are not shown,
/// and the Latin letters where `kind` is another alphabet.
pub open spec fn allowed_of(alphabets: Alphabets, kind: AlphabetKind) -> Seq<char> {
    alphabets.alphabet_of(kind).visible@ + alphabets.digits.visible@ + alphabets.symbols.visible@
        + alphabets.symbols.supported@ + if kind != AlphabetKind::Latin {
        alphabets.latin.visible@
    } else {
        seq![]
    }
}

/// Whatever alphabet is chosen, the characters that may be played are its
/// visible letters, the Latin letters, the digits and the symbols, shown or
/// not: a character is allowed exactly when it is one of these.
pub proof fn lemma_allowed_membership(alphabets: Alphabets, kind: AlphabetKind, c: char)
    ensures
        allowed_of(alphabets, kind).contains(c) <==> (alphabets.alphabet_of(kind).visible@.contains(c)
            || alphabets.latin.visible@.contains(c) || alphabets.digits.visible@.contains(c)
            || alphabets.symbols.visible@.contains(c) || alphabets.symbols.supported@.contains(c)),
{
    let l = alphabets.alphabet_of(kind).visible@;
    let d = alphabets.digits.visible@;
    let sv = alphabets.symbols.visible@;
    let ss = alphabets.symbols.supported@;
    let lat = if kind != AlphabetKind::Latin {
        alphabets.latin.visible@
    } else {
        seq![]
    };
    let all = allowed_of(alphabets, kind);
    assert(all =~= l + d + sv + ss + lat);
    lemma_concat_contains(l, d, c);
    lemma_concat_contains(l + d, sv, c);
    lemma_concat_contains(l + d + sv, ss, c);
    lemma_concat_contains(l + d + sv + ss, lat, c);
    if kind == AlphabetKind::Latin {
        assert(!lat.contains(c));
    }
}

proof fn lemma_concat_contains(a: Seq<char>, b: Seq<char>, c: char)
    ensures
        (a + b).contains(c) <==> (a.contains(c) || b.contains(c)),
{
    if (a + b).contains(c) {
        let i = choose|i: int| 0 <= i < (a + b).len() && (a + b)[i] == c;
        if i < a.len() {
            assert(a[i] == c);
        } else {
            assert(b[i - a.len()] == c);
        }
    }
    if a.contains(c) {
        let i = choose|i: int| 0 <= i < a.len() && a[i] == c;
        assert((a + b)[i] == c);
    }
    if b.contains(c) {
        let i = choose|i: int| 0 <= i < b.len() && b[i] == c;
        assert((a + b)[a.len() + i] == c);
    }
}

/// The characters that may be played while the alphabet at `index` of the
/// alphabet list is chosen.
pub fn allowed_chars(alphabets: &Alphabets, index: i64) -> (r: Vec<char>)
    ensures
        r@ == allowed_of(*alphabets, alphabet_kind_at(index as int)),
        forall|c: char|
            #[trigger] r@.contains(c) <==> (alphabets.alphabet_of(
                alphabet_kind_at(index as int),
            ).visible@.contains(c) || alphabets.latin.visible@.contains(c)
                || alphabets.digits.visible@.contains(c) || alphabets.symbols.visible@.contains(c)
                || alphabets.symbols.supported@.contains(c)),
{
    let (mut allowed, kind) = selected_alphabet(alphabets, index);
    extend_chars(&mut allowed, &alphabets.digits.visible);
    extend_chars(&mut allowed, &alphabets.symbols.visible);
    extend_chars(&mut allowed, &alphabets.symbols.supported);
    if kind != AlphabetKind::Latin {
        extend_chars(&mut allowed, &alphabets.latin.visible);
    }
    proof {
        assert(allowed@ =~= allowed_of(*alphabets, kind));
        assert forall|c: char|
            #[trigger] allowed@.contains(c) <==> (alphabets.alphabet_of(kind).visible@.contains(c)
                || alphabets.latin.visible@.contains(c) || alphabets.digits.visible@.contains(c)
                || alphabets.symbols.visible@.contains(c) || alphabets.symbols.supported@.contains(
                c,
            )) by {
            lemma_allowed_membership(*alphabets, kind, c);
        }
    }
    allowed
}

/// The characters offered for a text of the type at `text_type_index`: the
/// letters of the chosen alphabet, the digits, or both and the symbols.
pub open spec fn offered_of(alphabets: Alphabets, kind: AlphabetKind, text_type_index: u32) -> Seq<char> {
    let letters = alphabets.alphabet_of(kind).visible@;
    if text_type_index == 0 {
        letters
    } else if text_type_index == 1 {
        alphabets.digits.visible@
    } else {
        letters + alphabets.digits.visible@ + alphabets.symbols.visible@
    }
}

/// The offered characters by text type: letters are the chosen alphabet's
/// visible letters, digits are the digits, and a mixed text offers the
/// letters, then the digits, then the visible symbols.
pub proof fn lemma_offered_by_type(alphabets: Alphabets, kind: AlphabetKind, text_type_index: u32)
    ensures
        offered_of(alphabets, kind, 0) == alphabets.alphabet_of(kind).visible@,
        offered_of(alphabets, kind, 1) == alphabets.digits.visible@,
        text_type_index >= 2 ==> offered_of(alphabets, kind, text_type_index) == offered_of(
            alphabets,
            kind,
            0,
        ) + offered_of(alphabets, kind, 1) + alphabets.symbols.visible@,
        text_type_index != 1 ==> offered_of(alphabets, kind, text_type_index).take(
            alphabets.alphabet_of(kind).visible@.len() as int,
        ) == alphabets.alphabet_of(kind).visible@,
{
    let l = alphabets.alphabet_of(kind).visible@;
    if text_type_index >= 2 {
        assert((l + alphabets.digits.visible@ + alphabets.symbols.visible@).take(l.len() as int) =~= l);
    } else if text_type_index == 0 {
        assert(l.take(l.len() as int) =~= l);
    }
}

/// The characters that get a check button, for the alphabet at
/// `alphabet_index` and the text type at `text_type_index`, and that alphabet.
pub fn check_button_chars(alphabets: &Alphabets, alphabet_index: i64, text_type_index: u32) -> (r: (
    Vec<char>,
    AlphabetKind,
))
    ensures
        r.1 == alphabet_kind_at(alphabet_index as int),
        r.0@ == offered_of(*alphabets, r.1, text_type_index),
        text_type_index == 0 ==> r.0@ == alphabets.alphabet_of(r.1).visible@,
        text_type_index == 1 ==> r.0@ == alphabets.digits.visible@,
        text_type_index >= 2 ==> r.0@ == alphabets.alphabet_of(r.1).visible@
            + alphabets.digits.visible@ + alphabets.symbols.visible@,
{
    proof {
        lemma_offered_by_type(*alphabets, alphabet_kind_at(alphabet_index as int), text_type_index);
    }
    let (base, kind) = selected_alphabet(alphabets, alphabet_index);
    let chars = if text_type_index == 0 {
        base
    } else if text_type_index == 1 {
        copy_chars(&alphabets.digits.visible)
    } else {
        let mut mixed = base;
        extend_chars(&mut mixed, &alphabets.digits.visible);
        extend_chars(&mut mixed, &alphabets.symbols.visible);
        mixed
    };
    (chars, kind)
}

/// Where the check button of the `i`-th of `count` characters stands, as
/// (column, row): two rows for up to ten characters, else six.
pub fn check_button_cell(i: usize, count: usize) -> (cell: (i32, i32))
    ensures
        count <= 10 ==> cell == ((i / 2) as i32, (i % 2) as i32),
        count > 10 ==> cell == ((i / 6) as i32, (i % 6) as i32),
{
    if count <= 10 {
        ((i / 2) as i32, (i % 2) as i32)
    } else {
        ((i / 6) as i32, (i % 6) as i32)
    }
}

/// The characters whose check buttons are active, in order.
pub open spec fn enabled_of(labels: Seq<char>, active: Seq<bool>, n: nat) -> Seq<char>
    decreases n,
{
    if n == 0 {
        seq![]
    } else if active[n - 1] {
        enabled_of(labels, active, (n - 1) as nat).push(labels[n - 1])
    } else {
        enabled_of(labels, active, (n - 1) as nat)
    }
}

/// The enabled characters are labels of active buttons, in order, at most
/// one per button: all labels where every button is active, none where no
/// button is.
pub proof fn lemma_enabled_chars(labels: Seq<char>, active: Seq<bool>, n: nat)
    requires
        n <= labels.len(),
        n <= active.len(),
    ensures
        enabled_of(labels, active, n).len() <= n,
        forall|i: int|
            0 <= i < n && active[i] ==> enabled_of(labels, active, n).contains(#[trigger] labels[i]),
        forall|k: int|
            0 <= k < enabled_of(labels, active, n).len() ==> exists|i: int|
                0 <= i < n && active[i] && labels[i] == #[trigger] enabled_of(labels, active, n)[k],
        (forall|i: int| 0 <= i < n ==> active[i]) ==> enabled_of(labels, active, n) == labels.take(
            n as int,
        ),
        (forall|i: int| 0 <= i < n ==> !active[i]) ==> enabled_of(labels, active, n) == Seq::<
            char,
        >::empty(),
    decreases n,
{
    if n > 0 {
        let m = (n - 1) as nat;
        lemma_enabled_chars(labels, active, m);
        let before = enabled_of(labels, active, m);
        let after = enabled_of(labels, active, n);
        assert forall|i: int| 0 <= i < n && active[i] implies after.contains(#[trigger] labels[i]) by {
            if i < m {
                let k = choose|k: int| 0 <= k < before.len() && before[k] == labels[i];
                if active[m as int] {
                    assert(after[k] == before[k]);
                }
            } else {
                assert(after[after.len() - 1] == labels[i]);
            }
        }
        assert forall|k: int| 0 <= k < after.len() implies exists|i: int|
            0 <= i < n && active[i] && labels[i] == #[trigger] after[k] by {
            if k < before.len() {
                assert(after[k] == before[k]);
                let i = choose|i: int| 0 <= i < m && active[i] && labels[i] == before[k];
                assert(0 <= i < n && active[i] && labels[i] == after[k]);
            } else {
                assert(active[m as int] && labels[m as int] == after[k]);
            }
        }
        if forall|i: int| 0 <= i < n ==> active[i] {
            assert(active[m as int]);
            assert(labels.take(n as int) =~= labels.take(m as int).push(labels[m as int]));
        }
        if forall|i: int| 0 <= i < n ==> !active[i] {
            assert(!active[m as int]);
        }
    }
}

/// The characters of the check buttons, `labels`, whose buttons are
/// `active`.
pub fn enabled_chars(labels: &Vec<char>, active: &Vec<bool>) -> (r: Vec<char>)
    requires
        labels.len() == active.len(),
    ensures
        r@ == enabled_of(labels@, active@, labels@.len()),
        r@.len() <= labels@.len(),
        forall|i: int|
            0 <= i < labels@.len() && active@[i] ==> r@.contains(#[trigger] labels@[i]),
        forall|k: int|
            0 <= k < r@.len() ==> exists|i: int|
                0 <= i < labels@.len() && active@[i] && labels@[i] == #[trigger] r@[k],
{
    proof {
        lemma_enabled_chars(labels@, active@, labels@.len());
    }
    let mut r: Vec<char> = Vec::new();
    let mut i: usize = 0;
    while i < labels.len()
        invariant
            i <= labels.len(),
            labels.len() == active.len(),
            r@ == enabled_of(labels@, active@, i as nat),
        decreases labels.len() - i,
    {
        if active[i] {
            r.push(labels[i]);
        }
        i += 1;
    }
    r
}

/// The outcome of generating a practice text of `groups` words of
/// `word_length` characters from `chars_in_use`, with the generator seeded
/// by `seed`: `NoCharacters` where no character is in use, else what
/// `generate_text` gives with that seed for `groups * word_length`
/// characters, which is a text wherever the lengths are accepted and the
/// characters are distinct.
pub fn generate_group_text(seed: u64, groups: u64, word_length: u64, chars_in_use: Vec<char>) -> (r: Result<
    String,
    TextGenError,
>)
    requires
        chars_in_use@.len() > 0 ==> groups * word_length <= u64::MAX,
    ensures
        chars_in_use@.len() == 0 ==> r == Err::<String, TextGenError>(TextGenError::NoCharacters),
        chars_in_use@.len() > 0 ==> is_generation_result(
            r,
            Some(seed),
            (groups * word_length) as u64,
            word_length,
            chars_in_use@,
        ),
        chars_in_use@.len() > 0 && word_length == 0 ==> r == Err::<String, TextGenError>(
            TextGenError::ZeroWordLength,
        ),
        chars_in_use@.len() > 0 && word_length > 0 && groups == 0 ==> r == Err::<
            String,
            TextGenError,
        >(TextGenError::WordLongerThanText),
        chars_in_use@.len() > 0 && chars_in_use@.no_duplicates() && word_length > 0 && groups > 0
            ==> r is Ok,
        r matches Ok(s) ==> s@.len() == groups * (word_length + 1) - 1,
{
    if chars_in_use.len() == 0 {
        return Err(TextGenError::NoCharacters);
    }
    let count = groups * word_length;
    proof {
        if word_length > 0 && groups > 0 {
            assert(count >= word_length) by (nonlinear_arith)
                requires
                    count == groups * word_length,
                    groups > 0,
            ;
            assert(count - 1 == (groups - 1) * word_length + (word_length - 1)) by (nonlinear_arith)
                requires
                    count == groups * word_length,
            ;
            vstd::arithmetic::div_mod::lemma_fundamental_div_mod_converse(
                count - 1,
                word_length as int,
                groups - 1,
                word_length - 1,
            );
            assert(count + (count - 1) / (word_length as int) == groups * (word_length + 1) - 1)
                by (nonlinear_arith)
                requires
                    count == groups * word_length,
                    (count - 1) / (word_length as int) == groups - 1,
            ;
        }
        if word_length > 0 && groups == 0 {
            assert(count == 0) by (nonlinear_arith)
                requires
                    count == groups * word_length,
                    groups == 0,
            ;
        }
    }
    generate_text(Some(seed), count, word_length, chars_in_use)
}

} // verus!
