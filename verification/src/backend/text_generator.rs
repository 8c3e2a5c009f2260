use vstd::prelude::*;

use crate::backend::char_source::{draw_char, seeded_index, CharSource};
use crate::chars::{copy_chars, position_of, string_from_chars};

verus! {

/// Why no practice text was generated.
#[derive(PartialEq, Eq, Structural, Clone, Copy, Debug)]
pub enum TextGenError {
    /// `word_length` is 0.
    ZeroWordLength,
    /// `word_length` is greater than `chars_count`.
    WordLongerThanText,
    /// `chars_in_use` is empty.
    NoCharacters,
    /// No seed was given and the system gave no entropy to seed a generator.
    NoEntropy,
    /// Every character that could come next would be the third equal one in
    /// a row (only where `chars_in_use` holds a character twice).
    RepeatBlocked,
}

impl TextGenError {
    /// The message that explains the error to a user.
    pub fn message(&self) -> (m: &'static str)
        ensures
            *self == TextGenError::ZeroWordLength ==> m@
                == "The value of `word_length` must be greater than 0."@,
            *self == TextGenError::WordLongerThanText ==> m@
                == "The value of `chars_count` must be greater than or equal to `word_length`."@,
            *self == TextGenError::NoCharacters ==> m@
                == "The Vec<char> `chars_in_use` cannot be empty."@,
            *self == TextGenError::NoEntropy ==> m@
                == "The system gave no entropy to seed the generator."@,
            *self == TextGenError::RepeatBlocked ==> m@
                == "No character may come next without three equal ones in a row."@,
    {
        match self {
            TextGenError::ZeroWordLength => "The value of `word_length` must be greater than 0.",
            TextGenError::WordLongerThanText =>
                "The value of `chars_count` must be greater than or equal to `word_length`.",
            TextGenError::NoCharacters => "The Vec<char> `chars_in_use` cannot be empty.",
            TextGenError::NoEntropy => "The system gave no entropy to seed the generator.",
            TextGenError::RepeatBlocked =>
                "No character may come next without three equal ones in a row.",
        }
    }
}

/// The text made of `picks` where a space follows every complete group of
/// `w` characters but the last one.
pub open spec fn spaced(picks: Seq<char>, w: nat) -> Seq<char>
    decreases picks.len(),
{
    if picks.len() == 0 {
        seq![]
    } else {
        let rest = picks.drop_last();
        let prefix = spaced(rest, w);
        let with_break = if rest.len() > 0 && rest.len() % w == 0 {
            prefix.push(' ')
        } else {
            prefix
        };
        with_break.push(picks.last())
    }
}

/// The text emitted after `picks` while more characters are to come: the
/// spaced text, with a space where a group has just been completed.
pub open spec fn emitted(picks: Seq<char>, w: nat) -> Seq<char> {
    if picks.len() > 0 && picks.len() % w == 0 {
        spaced(picks, w).push(' ')
    } else {
        spaced(picks, w)
    }
}

/// What stands before the `j`-th drawn character: two NUL characters, then
/// the text emitted so far.
pub open spec fn preceding(picks: Seq<char>, j: int, w: nat) -> Seq<char> {
    context(picks.take(j), w)
}

/// Two NUL characters, then the text emitted after `prior`.
pub open spec fn context(prior: Seq<char>, w: nat) -> Seq<char> {
    seq!['\0', '\0'] + emitted(prior, w)
}

/// The `j`-th drawn character is the same as both characters before it.
pub open spec fn makes_triple(picks: Seq<char>, j: int, w: nat) -> bool {
    let b = preceding(picks, j, w);
    picks[j] == b[b.len() - 1] && picks[j] == b[b.len() - 2]
}

/// `text` is a practice text of `count` characters drawn from `chars`, in
/// groups of `w`: `picks` are the drawn characters; no character is the same
/// as the two before it (where more than one character is in use); where
/// the text is at least as long as `chars`, every character of `chars` occurs;
/// and where it is no longer and `chars` is distinct, none occurs twice.
pub open spec fn is_practice_text(
    text: Seq<char>,
    picks: Seq<char>,
    count: nat,
    w: nat,
    chars: Seq<char>,
) -> bool {
    &&& picks.len() == count
    &&& text == spaced(picks, w)
    &&& forall|j: int| 0 <= j < count ==> chars.contains(#[trigger] picks[j])
    &&& chars.len() > 1 ==> forall|j: int| 0 <= j < count ==> !#[trigger] makes_triple(picks, j, w)
    &&& count >= chars.len() ==> forall|c: char| #[trigger] chars.contains(c) ==> picks.contains(c)
    &&& chars.no_duplicates() && count <= chars.len() ==> picks.no_duplicates()
}

/// `s` without the first occurrence of `c`, if any.
pub open spec fn remove_first(s: Seq<char>, c: char) -> Seq<char>
    decreases s.len(),
{
    if s.len() == 0 {
        s
    } else if s[0] == c {
        s.skip(1)
    } else {
        seq![s[0]] + remove_first(s.skip(1), c)
    }
}

/// The characters of `chars` not used up by `picks`: each drawn character
/// takes away its first occurrence that is left.
pub open spec fn remaining(chars: Seq<char>, picks: Seq<char>) -> Seq<char>
    decreases picks.len(),
{
    if picks.len() == 0 {
        chars
    } else {
        remove_first(remaining(chars, picks.drop_last()), picks.last())
    }
}

/// The characters from which the character after `prior` is drawn. Among
/// the last characters of a text of `count`, as long as some are left, the
/// characters not used yet; else all of `chars`. Where more than one
/// character is in use and the two characters before are equal, that
/// character is left out.
#[verifier::opaque]
pub open spec fn step_pool(chars: Seq<char>, prior: Seq<char>, count: nat, w: nat) -> Seq<char> {
    let unused = remaining(chars, prior);
    let pool = if count - prior.len() - 1 < chars.len() && unused.len() > 0 {
        unused
    } else {
        chars
    };
    let b = context(prior, w);
    let before = b[b.len() - 2];
    if chars.len() > 1 && before == b[b.len() - 1] {
        pool.filter(|x: char| x != before)
    } else {
        pool
    }
}

/// The lengths of the pools of the first `j` draws.
pub open spec fn draw_lengths(chars: Seq<char>, picks: Seq<char>, j: int, count: nat, w: nat) -> Seq<
    nat,
> {
    Seq::new(j as nat, |i: int| step_pool(chars, picks.take(i), count, w).len())
}

/// Each of `picks` was drawn from its pool; with a seed, at the index that
/// the seeded generator gives after the earlier draws.
#[verifier::opaque]
pub open spec fn is_drawn(picks: Seq<char>, count: nat, w: nat, chars: Seq<char>, seed: Option<
    u64,
>) -> bool {
    forall|j: int|
        0 <= j < picks.len() ==> {
            let pool = step_pool(chars, picks.take(j), count, w);
            &&& pool.contains(#[trigger] picks[j])
            &&& seed matches Some(k) ==> picks[j] == pool[seeded_index(
                k,
                draw_lengths(chars, picks, j, count, w),
                pool.len(),
            ) as int]
        }
}

/// `text` is a practice text generated with `seed`, drawn as `picks`.
pub open spec fn is_generated_text(
    text: Seq<char>,
    picks: Seq<char>,
    count: nat,
    w: nat,
    chars: Seq<char>,
    seed: Option<u64>,
) -> bool {
    &&& is_practice_text(text, picks, count, w, chars)
    &&& is_drawn(picks, count, w, chars, seed)
}

/// After drawing `prior`, fewer than `count` characters, the pool of the next
/// draw is empty.
pub open spec fn is_blocked_prefix(
    prior: Seq<char>,
    count: nat,
    w: nat,
    chars: Seq<char>,
    seed: Option<u64>,
) -> bool {
    &&& prior.len() < count
    &&& is_drawn(prior, count, w, chars, seed)
    &&& step_pool(chars, prior, count, w).len() == 0
}

/// What `generate_text` gives for `seed`, `count`, `w` and `chars`: the error
/// for the arguments where there is one; else a generated text, or, without
/// a seed, `NoEntropy`, or, where `chars` holds a character twice,
/// `RepeatBlocked` after a blocked prefix. With a seed and distinct
/// characters, a text.
pub open spec fn is_generation_result(
    r: Result<String, TextGenError>,
    seed: Option<u64>,
    count: u64,
    w: u64,
    chars: Seq<char>,
) -> bool {
    &&& r matches Ok(s) ==> generation_error(count, w, chars) is None && exists|picks: Seq<char>|
        is_generated_text(s@, picks, count as nat, w as nat, chars, seed)
    &&& r matches Err(e) ==> match generation_error(count, w, chars) {
        Some(g) => e == g,
        None => (seed is None && e == TextGenError::NoEntropy) || (e
            == TextGenError::RepeatBlocked && !chars.no_duplicates() && exists|prior: Seq<char>|
            is_blocked_prefix(prior, count as nat, w as nat, chars, seed)),
    }
    &&& seed is Some && generation_error(count, w, chars) is None && chars.no_duplicates() ==> r is Ok
}

/// The error for the given lengths and characters, checked in this order.
pub open spec fn generation_error(chars_count: u64, word_length: u64, chars: Seq<char>) -> Option<
    TextGenError,
> {
    if word_length == 0 {
        Some(TextGenError::ZeroWordLength)
    } else if word_length > chars_count {
        Some(TextGenError::WordLongerThanText)
    } else if chars.len() == 0 {
        Some(TextGenError::NoCharacters)
    } else {
        None
    }
}

/// The arguments alone decide the error that comes before any character is
/// drawn, checked in this order: a word length of 0, then a word longer than
/// the text, then no character in use. The arguments are accepted exactly
/// when the word length is positive and at most the text's length and some
/// character is in use, whatever that length.
pub proof fn lemma_generation_error_exact(chars_count: u64, word_length: u64, chars: Seq<char>)
    ensures
        generation_error(chars_count, word_length, chars) == Some(TextGenError::ZeroWordLength)
            <==> word_length == 0,
        generation_error(chars_count, word_length, chars) == Some(
            TextGenError::WordLongerThanText,
        ) <==> (0 < word_length && chars_count < word_length),
        generation_error(chars_count, word_length, chars) == Some(TextGenError::NoCharacters)
            <==> (0 < word_length <= chars_count && chars.len() == 0),
        generation_error(chars_count, word_length, chars) is None <==> (0 < word_length
            <= chars_count && chars.len() > 0),
{
}

/// What a result of generating a text says of its arguments: each error that
/// the arguments decide comes exactly on the arguments named for it;
/// `NoEntropy` comes only without a seed and `RepeatBlocked` only where a
/// character is in use twice; with a seed, accepted arguments and distinct
/// characters the result is a text; and a text has `chars_count` drawn
/// characters and a space after each complete word but the last, so
/// `chars_count + (chars_count - 1) / word_length` characters in all.
pub proof fn lemma_generation_outcome(
    r: Result<String, TextGenError>,
    seed: Option<u64>,
    chars_count: u64,
    word_length: u64,
    chars: Seq<char>,
)
    requires
        is_generation_result(r, seed, chars_count, word_length, chars),
    ensures
        r == Err::<String, TextGenError>(TextGenError::ZeroWordLength) <==> word_length == 0,
        r == Err::<String, TextGenError>(TextGenError::WordLongerThanText) <==> (0 < word_length
            && chars_count < word_length),
        r == Err::<String, TextGenError>(TextGenError::NoCharacters) <==> (0 < word_length
            <= chars_count && chars.len() == 0),
        r == Err::<String, TextGenError>(TextGenError::NoEntropy) ==> seed is None,
        r == Err::<String, TextGenError>(TextGenError::RepeatBlocked) ==> !chars.no_duplicates(),
        seed is Some && 0 < word_length <= chars_count && chars.len() > 0 && chars.no_duplicates()
            ==> r is Ok,
        r matches Ok(s) ==> 0 < word_length <= chars_count && chars.len() > 0 && s@.len()
            == chars_count + (chars_count - 1) / (word_length as int),
        r matches Ok(s) ==> forall|k: int|
            0 <= k < s@.len() ==> #[trigger] s@[k] == ' ' || chars.contains(s@[k]),
        r matches Ok(s) ==> (chars_count >= chars.len() ==> forall|c: char|
            #[trigger] chars.contains(c) ==> s@.contains(c)),
        r matches Ok(s) ==> (chars.len() > 1 && !chars.contains(' ') ==> forall|k: int|
            2 <= k < s@.len() ==> !(#[trigger] s@[k] == s@[k - 1] && s@[k] == s@[k - 2])),
{
    lemma_generation_error_exact(chars_count, word_length, chars);
    if r is Ok {
        let s = r->Ok_0;
        let w = word_length as nat;
        let picks = choose|p: Seq<char>|
            is_generated_text(s@, p, chars_count as nat, w, chars, seed);
        lemma_spaced_layout(picks, w);
        lemma_spaced_chars(picks, w, chars);
        if chars.len() > 1 && !chars.contains(' ') {
            lemma_no_three_in_a_row(s@, picks, chars_count as nat, w, chars);
        }
        if chars_count >= chars.len() {
            assert forall|c: char| #[trigger] chars.contains(c) implies s@.contains(c) by {
                assert(picks.contains(c));
                let j = choose|j: int| 0 <= j < picks.len() && picks[j] == c;
                let wi = word_length as int;
                vstd::arithmetic::div_mod::lemma_div_is_ordered(j, picks.len() - 1, wi);
                vstd::arithmetic::div_mod::lemma_div_pos_is_pos(j, wi);
                assert(0 <= pick_position(j, w) < s@.len());
                assert(s@[pick_position(j, w)] == c);
            }
        }
    }
}

/// Where the `j`-th drawn character stands in the spaced text: after it come
/// `j / w` spaces.
pub open spec fn pick_position(j: int, w: nat) -> int {
    j + j / (w as int)
}

/// Where the space after the `b`-th complete group stands.
pub open spec fn break_position(b: int, w: nat) -> int {
    b * (w + 1) - 1
}

/// The length of the spaced text of `n` drawn characters.
pub open spec fn spaced_len(n: nat, w: nat) -> nat {
    if n == 0 {
        0
    } else {
        n + ((n - 1) / (w as int)) as nat
    }
}

/// The practice text is made of words of `w` characters, the last one
/// possibly shorter, separated by single spaces: the `j`-th drawn character
/// stands at `j + j / w`, the space after the `b`-th word at `b * (w + 1) - 1`,
/// and these are all the positions of the text.
pub proof fn lemma_spaced_layout(picks: Seq<char>, w: nat)
    requires
        w > 0,
    ensures
        spaced(picks, w).len() == spaced_len(picks.len(), w),
        forall|j: int|
            0 <= j < picks.len() ==> spaced(picks, w)[#[trigger] pick_position(j, w)] == picks[j],
        picks.len() > 0 ==> forall|b: int|
            1 <= b <= (picks.len() - 1) / (w as int) ==> spaced(picks, w)[#[trigger] break_position(
                b,
                w,
            )] == ' ',
    decreases picks.len(),
{
    let wi = w as int;
    if picks.len() == 0 {
    } else if picks.len() == 1 {
        assert(0int / wi == 0) by {
            vstd::arithmetic::div_mod::lemma_fundamental_div_mod_converse(0, wi, 0, 0);
        }
        assert(pick_position(0, w) == 0);
        assert(spaced(picks.drop_last(), w) =~= seq![]);
        assert(spaced(picks, w) =~= seq![picks[0]]);
    } else {
        let rest = picks.drop_last();
        let m = rest.len() as int;
        lemma_spaced_layout(rest, w);
        let q = m / wi;
        let r = m % wi;
        vstd::arithmetic::div_mod::lemma_fundamental_div_mod(m, wi);
        assert(m == wi * q + r);
        assert(0 <= r < wi);
        let old_text = spaced(rest, w);
        let new_text = spaced(picks, w);
        let has_break = m % wi == 0;
        // (m - 1) / w and m / w
        if has_break {
            assert(m - 1 == (q - 1) * wi + (wi - 1)) by (nonlinear_arith)
                requires
                    m == wi * q + r,
                    r == 0,
            ;
            vstd::arithmetic::div_mod::lemma_fundamental_div_mod_converse(m - 1, wi, q - 1, wi - 1);
            assert(q >= 1) by (nonlinear_arith)
                requires
                    m == wi * q,
                    m >= 1,
                    wi >= 1,
            ;
        } else {
            assert(m - 1 == q * wi + (r - 1)) by (nonlinear_arith)
                requires
                    m == wi * q + r,
            ;
            vstd::arithmetic::div_mod::lemma_fundamental_div_mod_converse(m - 1, wi, q, r - 1);
        }
        let old_len = m + (m - 1) / wi;
        assert(old_text.len() == old_len);
        assert(new_text.len() == spaced_len(picks.len(), w));
        assert(new_text[pick_position(m, w)] == picks[m]);
        assert forall|j: int| 0 <= j < picks.len() implies new_text[#[trigger] pick_position(j, w)]
            == picks[j] by {
            if j < m {
                assert(j / wi <= (m - 1) / wi) by {
                    vstd::arithmetic::div_mod::lemma_div_is_ordered(j, m - 1, wi);
                }
                assert(rest[j] == picks[j]);
                assert(old_text[pick_position(j, w)] == rest[j]);
            }
        }
        assert forall|b: int|
            1 <= b <= (picks.len() - 1) / wi implies new_text[#[trigger] break_position(b, w)] == ' ' by {
            if b <= (m - 1) / wi {
                assert(b * wi <= m - 1) by (nonlinear_arith)
                    requires
                        b <= (m - 1) / wi,
                        m - 1 >= 0,
                        wi > 0,
                {
                    vstd::arithmetic::div_mod::lemma_fundamental_div_mod(m - 1, wi);
                    vstd::arithmetic::mul::lemma_mul_inequality(b, (m - 1) / wi, wi);
                }
                assert(b * (w + 1) == b * wi + b) by (nonlinear_arith)
                    requires
                        wi == w as int,
                ;
                assert(break_position(b, w) < old_len);
                assert(old_text[break_position(b, w)] == ' ');
            } else {
                assert(b == q);
                assert(b * (w + 1) == b * wi + b) by (nonlinear_arith)
                    requires
                        wi == w as int,
                ;
            }
        }
    }
}

proof fn lemma_no_triple_spaced(picks: Seq<char>, w: nat, chars: Seq<char>)
    requires
        forall|j: int| 0 <= j < picks.len() ==> chars.contains(#[trigger] picks[j]),
        forall|j: int| 0 <= j < picks.len() ==> !#[trigger] makes_triple(picks, j, w),
        !chars.contains(' '),
    ensures
        forall|k: int|
            2 <= k < spaced(picks, w).len() ==> !(#[trigger] spaced(picks, w)[k] == spaced(
                picks,
                w,
            )[k - 1] && spaced(picks, w)[k] == spaced(picks, w)[k - 2]),
    decreases picks.len(),
{
    if picks.len() > 0 {
        let rest = picks.drop_last();
        let last = picks.last();
        assert forall|j: int| 0 <= j < rest.len() implies #[trigger] makes_triple(rest, j, w)
            == makes_triple(picks, j, w) by {
            assert(rest.take(j) =~= picks.take(j));
        }
        assert forall|j: int| 0 <= j < rest.len() implies chars.contains(#[trigger] rest[j]) by {
            assert(rest[j] == picks[j]);
        }
        assert forall|j: int| 0 <= j < rest.len() implies !#[trigger] makes_triple(rest, j, w) by {
            assert(makes_triple(rest, j, w) == makes_triple(picks, j, w));
        }
        lemma_no_triple_spaced(rest, w, chars);
        assert(rest.push(last) =~= picks);
        lemma_spaced_push(rest, last, w);
        let tr = spaced(rest, w);
        let e = emitted(rest, w);
        let t = spaced(picks, w);
        assert(t == e.push(last));
        assert(picks.take(rest.len() as int) =~= rest);
        assert(!makes_triple(picks, rest.len() as int, w));
        assert(chars.contains(picks[rest.len() as int]));
        if rest.len() > 0 {
            lemma_spaced_last(rest, w);
            assert(chars.contains(rest[rest.len() - 1]));
        }
        assert forall|k: int| 2 <= k < t.len() implies !(#[trigger] t[k] == t[k - 1] && t[k] == t[
            k - 2]) by {
            if k < tr.len() {
                assert(t[k] == tr[k] && t[k - 1] == tr[k - 1] && t[k - 2] == tr[k - 2]);
            } else if k < e.len() {
                assert(t[k] == ' ');
                assert(t[k - 1] == rest.last());
            } else {
                assert(t[k] == picks[rest.len() as int]);
            }
        }
    }
}

proof fn lemma_spaced_chars(picks: Seq<char>, w: nat, chars: Seq<char>)
    requires
        forall|j: int| 0 <= j < picks.len() ==> chars.contains(#[trigger] picks[j]),
    ensures
        forall|k: int|
            0 <= k < spaced(picks, w).len() ==> #[trigger] spaced(picks, w)[k] == ' '
                || chars.contains(spaced(picks, w)[k]),
    decreases picks.len(),
{
    if picks.len() > 0 {
        let rest = picks.drop_last();
        assert forall|j: int| 0 <= j < rest.len() implies chars.contains(#[trigger] rest[j]) by {
            assert(rest[j] == picks[j]);
        }
        lemma_spaced_chars(rest, w, chars);
        let last = picks.last();
        assert(rest.push(last) =~= picks);
        lemma_spaced_push(rest, last, w);
        assert(chars.contains(picks[picks.len() - 1]));
        let tr = spaced(rest, w);
        let t = spaced(picks, w);
        assert forall|k: int| 0 <= k < t.len() implies #[trigger] t[k] == ' ' || chars.contains(
            t[k],
        ) by {
            if k < tr.len() {
                assert(t[k] == tr[k]);
            }
        }
    }
}

/// Three equal characters never stand in a row in a practice text: where
/// more than one character is in use and none of them is a space, no
/// character of the text is the same as the two before it, across the
/// spaces between words as well.
pub proof fn lemma_no_three_in_a_row(
    text: Seq<char>,
    picks: Seq<char>,
    count: nat,
    w: nat,
    chars: Seq<char>,
)
    requires
        is_practice_text(text, picks, count, w, chars),
        chars.len() > 1,
        !chars.contains(' '),
    ensures
        forall|k: int| 2 <= k < text.len() ==> !(#[trigger] text[k] == text[k - 1] && text[k] == text[k - 2]),
{
    lemma_no_triple_spaced(picks, w, chars);
}

proof fn lemma_remove_first(s: Seq<char>, c: char)
    ensures
        forall|x: char| remove_first(s, c).contains(x) ==> s.contains(x),
        forall|x: char| s.contains(x) && x != c ==> remove_first(s, c).contains(x),
        remove_first(s, c).len() == (if s.contains(c) { s.len() - 1 } else { s.len() as int }),
        s.no_duplicates() ==> remove_first(s, c).no_duplicates() && !remove_first(s, c).contains(c),
    decreases s.len(),
{
    if s.len() == 0 {
    } else {
        let t = s.skip(1);
        let r = remove_first(s, c);
        assert forall|x: char| t.contains(x) implies s.contains(x) by {
            let i = choose|i: int| 0 <= i < t.len() && t[i] == x;
            assert(s[i + 1] == x);
        }
        assert forall|x: char| s.contains(x) && x != s[0] implies t.contains(x) by {
            let i = choose|i: int| 0 <= i < s.len() && s[i] == x;
            assert(t[i - 1] == x);
        }
        assert(s.contains(s[0]));
        if s[0] == c {
            assert(r == t);
            if s.no_duplicates() {
                assert(t.no_duplicates()) by {
                    assert forall|i: int, j: int| 0 <= i < t.len() && 0 <= j < t.len() && i != j implies t[i] != t[j] by {
                        assert(s[i + 1] != s[j + 1]);
                    }
                }
                if t.contains(c) {
                    let i = choose|i: int| 0 <= i < t.len() && t[i] == c;
                    assert(s[i + 1] == s[0]);
                }
            }
        } else {
            lemma_remove_first(t, c);
            let rt = remove_first(t, c);
            assert(r == seq![s[0]] + rt);
            assert(s.contains(c) <==> t.contains(c));
            assert forall|x: char| r.contains(x) implies s.contains(x) by {
                let i = choose|i: int| 0 <= i < r.len() && r[i] == x;
                if i > 0 {
                    assert(rt[i - 1] == x);
                }
            }
            assert forall|x: char| s.contains(x) && x != c implies r.contains(x) by {
                if x == s[0] {
                    assert(r[0] == x);
                } else {
                    assert(rt.contains(x));
                    let i = choose|i: int| 0 <= i < rt.len() && rt[i] == x;
                    assert(r[i + 1] == x);
                }
            }
            if s.no_duplicates() {
                assert(t.no_duplicates()) by {
                    assert forall|i: int, j: int| 0 <= i < t.len() && 0 <= j < t.len() && i != j implies t[i] != t[j] by {
                        assert(s[i + 1] != s[j + 1]);
                    }
                }
                assert(!rt.contains(s[0])) by {
                    if rt.contains(s[0]) {
                        assert(t.contains(s[0]));
                        let i = choose|i: int| 0 <= i < t.len() && t[i] == s[0];
                        assert(s[i + 1] == s[0]);
                    }
                }
                assert forall|i: int, j: int| 0 <= i < r.len() && 0 <= j < r.len() && i != j implies r[i] != r[j] by {
                    if i == 0 && j > 0 {
                        assert(r[j] == rt[j - 1]);
                        assert(rt.contains(rt[j - 1]));
                    } else if j == 0 && i > 0 {
                        assert(r[i] == rt[i - 1]);
                        assert(rt.contains(rt[i - 1]));
                    } else if i > 0 && j > 0 {
                        assert(r[i] == rt[i - 1] && r[j] == rt[j - 1]);
                    }
                }
                assert(!r.contains(c)) by {
                    if r.contains(c) {
                        let i = choose|i: int| 0 <= i < r.len() && r[i] == c;
                        if i > 0 {
                            assert(rt[i - 1] == c);
                        }
                    }
                }
            }
        }
    }
}

/// Removing the first occurrence at `i` is `remove_first`.
proof fn lemma_remove_first_at(s: Seq<char>, c: char, i: int)
    requires
        0 <= i < s.len(),
        s[i] == c,
        forall|t: int| 0 <= t < i ==> s[t] != c,
    ensures
        remove_first(s, c) == s.remove(i),
    decreases i,
{
    if i == 0 {
        assert(s.skip(1) =~= s.remove(0));
    } else {
        let t = s.skip(1);
        lemma_remove_first_at(t, c, i - 1);
        assert(seq![s[0]] + t.remove(i - 1) =~= s.remove(i));
    }
}

proof fn lemma_remove_first_absent(s: Seq<char>, c: char)
    requires
        !s.contains(c),
    ensures
        remove_first(s, c) == s,
    decreases s.len(),
{
    if s.len() > 0 {
        let t = s.skip(1);
        assert(s.contains(s[0]));
        assert(!t.contains(c)) by {
            if t.contains(c) {
                let i = choose|i: int| 0 <= i < t.len() && t[i] == c;
                assert(s[i + 1] == c);
            }
        }
        lemma_remove_first_absent(t, c);
        assert(seq![s[0]] + t =~= s);
    }
}

/// What is left of `chars` after `picks`: only characters of `chars`, every
/// character of `chars` not drawn, at most as many as `chars`; where `chars`
/// is distinct, exactly the characters of `chars` not drawn, each once.
proof fn lemma_remaining(chars: Seq<char>, picks: Seq<char>)
    ensures
        forall|x: char| remaining(chars, picks).contains(x) ==> chars.contains(x),
        forall|x: char| chars.contains(x) && !picks.contains(x) ==> remaining(chars, picks).contains(x),
        remaining(chars, picks).len() <= chars.len(),
        chars.no_duplicates() ==> remaining(chars, picks).no_duplicates() && forall|x: char|
            remaining(chars, picks).contains(x) ==> !picks.contains(x),
    decreases picks.len(),
{
    if picks.len() > 0 {
        let p = picks.drop_last();
        let c = picks.last();
        lemma_remaining(chars, p);
        let before = remaining(chars, p);
        lemma_remove_first(before, c);
        assert forall|x: char| chars.contains(x) && !picks.contains(x) implies remaining(chars, picks).contains(x) by {
            assert(picks[picks.len() - 1] == c);
            assert(!p.contains(x)) by {
                if p.contains(x) {
                    let i = choose|i: int| 0 <= i < p.len() && p[i] == x;
                    assert(picks[i] == x);
                }
            }
        }
        if chars.no_duplicates() {
            assert forall|x: char| remaining(chars, picks).contains(x) implies !picks.contains(x) by {
                assert(before.contains(x));
                assert(!p.contains(x));
                assert(x != c);
                if picks.contains(x) {
                    let i = choose|i: int| 0 <= i < picks.len() && picks[i] == x;
                    if i < p.len() {
                        assert(p[i] == x);
                    }
                }
            }
        }
    }
}

proof fn lemma_spaced_push(picks: Seq<char>, c: char, w: nat)
    ensures
        spaced(picks.push(c), w) == emitted(picks, w).push(c),
{
    assert(picks.push(c).drop_last() =~= picks);
}

proof fn lemma_spaced_last(picks: Seq<char>, w: nat)
    requires
        picks.len() > 0,
    ensures
        spaced(picks, w).len() > 0,
        spaced(picks, w).last() == picks.last(),
{
}

/// The elements of `pool` other than `f`, in order.
fn without_char(pool: &Vec<char>, f: char) -> (r: Vec<char>)
    ensures
        r@ == pool@.filter(|x: char| x != f),
        forall|x: char| r@.contains(x) <==> (pool@.contains(x) && x != f),
{
    let ghost pred = |x: char| x != f;
    let mut r: Vec<char> = Vec::new();
    let mut i: usize = 0;
    while i < pool.len()
        invariant
            i <= pool.len(),
            pred == (|x: char| x != f),
            r@ == pool@.take(i as int).filter(pred),
        decreases pool.len() - i,
    {
        let x = pool[i];
        if x != f {
            r.push(x);
        }
        proof {
            reveal(Seq::filter);
            assert(pool@.take(i + 1).drop_last() =~= pool@.take(i as int));
            assert(pool@.take(i + 1).last() == x);
        }
        i += 1;
    }
    proof {
        assert(pool@.take(i as int) =~= pool@);
        assert forall|x: char| r@.contains(x) <==> (pool@.contains(x) && x != f) by {
            if r@.contains(x) {
                pool@.lemma_filter_contains_rev(pred, x);
                let k = choose|k: int| 0 <= k < r@.len() && r@[k] == x;
                pool@.lemma_filter_pred(pred, k);
            }
            if pool@.contains(x) && x != f {
                let k = choose|k: int| 0 <= k < pool@.len() && pool@[k] == x;
                pool@.lemma_filter_contains(pred, k);
            }
        }
    }
    r
}

/// With distinct characters, the pool of a draw is never empty.
proof fn lemma_pool_not_empty(chars: Seq<char>, prior: Seq<char>, count: nat, w: nat)
    requires
        chars.no_duplicates(),
        chars.len() >= 1,
        prior.len() < count,
    ensures
        step_pool(chars, prior, count, w).len() > 0,
{
    reveal(step_pool);
    lemma_remaining(chars, prior);
    let unused = remaining(chars, prior);
    let from_unused = count - prior.len() - 1 < chars.len() && unused.len() > 0;
    let pool = if from_unused { unused } else { chars };
    let b = context(prior, w);
    let f = b[b.len() - 2];
    let pred = |x: char| x != f;
    assert(pool.len() > 0);
    if chars.len() > 1 && f == b[b.len() - 1] {
        assert(chars[0] != chars[1]);
        assert(chars.contains(chars[0]) && chars.contains(chars[1]));
        let x = if from_unused && prior.len() > 0 {
            lemma_spaced_last(prior, w);
            assert(prior.contains(prior.last())) by {
                assert(prior[prior.len() - 1] == prior.last());
            }
            assert(f == prior.last());
            assert(!unused.contains(f));
            assert(unused.contains(unused[0]));
            unused[0]
        } else if chars[0] != f {
            chars[0]
        } else {
            chars[1]
        };
        if from_unused && prior.len() == 0 {
            assert(unused.contains(chars[0]) && unused.contains(chars[1]));
        }
        assert(pool.contains(x) && x != f);
        let i = choose|i: int| 0 <= i < pool.len() && pool[i] == x;
        pool.lemma_filter_contains(pred, i);
    }
}

/// Drawing `c` from the pool after `prior` keeps the draws in order.
proof fn lemma_draw_step(
    chars: Seq<char>,
    prior: Seq<char>,
    c: char,
    count: nat,
    w: nat,
    seed: Option<u64>,
)
    requires
        is_drawn(prior, count, w, chars, seed),
        step_pool(chars, prior, count, w).contains(c),
        seed matches Some(k) ==> c == step_pool(chars, prior, count, w)[seeded_index(
            k,
            draw_lengths(chars, prior, prior.len() as int, count, w),
            step_pool(chars, prior, count, w).len(),
        ) as int],
    ensures
        is_drawn(prior.push(c), count, w, chars, seed),
        draw_lengths(chars, prior.push(c), prior.len() + 1int, count, w) == draw_lengths(
            chars,
            prior,
            prior.len() as int,
            count,
            w,
        ).push(step_pool(chars, prior, count, w).len()),
{
    reveal(is_drawn);
    let picks = prior.push(c);
    assert forall|i: int| 0 <= i <= prior.len() implies #[trigger] picks.take(i) == prior.take(i) by {
        assert(picks.take(i) =~= prior.take(i));
    }
    assert(prior.take(prior.len() as int) =~= prior);
    assert(draw_lengths(chars, picks, prior.len() + 1int, count, w) =~= draw_lengths(
        chars,
        prior,
        prior.len() as int,
        count,
        w,
    ).push(step_pool(chars, prior, count, w).len()));
    assert forall|j: int| 0 <= j < picks.len() implies {
        let p = step_pool(chars, picks.take(j), count, w);
        &&& p.contains(#[trigger] picks[j])
        &&& seed matches Some(s) ==> picks[j] == p[seeded_index(
            s,
            draw_lengths(chars, picks, j, count, w),
            p.len(),
        ) as int]
    } by {
        assert(draw_lengths(chars, picks, j, count, w) =~= draw_lengths(chars, prior, j, count, w));
        if j < prior.len() {
            assert(picks[j] == prior[j]);
        }
    }
}

/// Drawing `c` keeps the drawn characters in `chars` and free of three equal
/// ones in a row.
proof fn lemma_practice_step(chars: Seq<char>, prior: Seq<char>, c: char, w: nat)
    requires
        forall|j: int| 0 <= j < prior.len() ==> chars.contains(#[trigger] prior[j]),
        chars.len() > 1 ==> forall|j: int|
            0 <= j < prior.len() ==> !#[trigger] makes_triple(prior, j, w),
        chars.contains(c),
        chars.len() > 1 ==> {
            let b = context(prior, w);
            !(c == b[b.len() - 1] && c == b[b.len() - 2])
        },
    ensures
        forall|j: int| 0 <= j < prior.len() + 1 ==> chars.contains(#[trigger] prior.push(c)[j]),
        chars.len() > 1 ==> forall|j: int|
            0 <= j < prior.len() + 1 ==> !#[trigger] makes_triple(prior.push(c), j, w),
{
    let picks = prior.push(c);
    assert(picks.take(prior.len() as int) =~= prior);
    assert forall|j: int| 0 <= j < prior.len() + 1 implies chars.contains(#[trigger] picks[j]) by {
        if j < prior.len() {
            assert(picks[j] == prior[j]);
        }
    }
    if chars.len() > 1 {
        assert forall|j: int| 0 <= j < prior.len() + 1 implies !#[trigger] makes_triple(picks, j, w) by {
            if j < prior.len() {
                assert(picks.take(j) =~= prior.take(j));
                assert(picks[j] == prior[j]);
                assert(!makes_triple(prior, j, w));
            }
        }
    }
}

proof fn lemma_seeded_draws_agree(
    p1: Seq<char>,
    p2: Seq<char>,
    count: nat,
    w: nat,
    chars: Seq<char>,
    k: u64,
    m: int,
)
    requires
        0 <= m <= p1.len(),
        m <= p2.len(),
        is_drawn(p1, count, w, chars, Some(k)),
        is_drawn(p2, count, w, chars, Some(k)),
    ensures
        forall|j: int| 0 <= j < m ==> p1[j] == p2[j],
    decreases m,
{
    if m > 0 {
        let j = m - 1;
        lemma_seeded_draws_agree(p1, p2, count, w, chars, k, j);
        reveal(is_drawn);
        assert(p1.take(j) =~= p2.take(j));
        assert forall|i: int| 0 <= i < j implies #[trigger] p1.take(i) == p2.take(i) by {
            assert(p1.take(i) =~= p2.take(i));
        }
        assert(draw_lengths(chars, p1, j, count, w) =~= draw_lengths(chars, p2, j, count, w));
        assert(p1[j] == step_pool(chars, p1.take(j), count, w)[seeded_index(
            k,
            draw_lengths(chars, p1, j, count, w),
            step_pool(chars, p1.take(j), count, w).len(),
        ) as int]);
        assert(p2[j] == step_pool(chars, p2.take(j), count, w)[seeded_index(
            k,
            draw_lengths(chars, p2, j, count, w),
            step_pool(chars, p2.take(j), count, w).len(),
        ) as int]);
    }
}

/// The seed fixes the result: two results that `generate_text` can give for
/// the same seed and the same arguments are the same text, or the same error.
pub proof fn lemma_same_seed_same_result(
    r1: Result<String, TextGenError>,
    r2: Result<String, TextGenError>,
    seed: u64,
    count: u64,
    w: u64,
    chars: Seq<char>,
)
    requires
        is_generation_result(r1, Some(seed), count, w, chars),
        is_generation_result(r2, Some(seed), count, w, chars),
    ensures
        r1 is Ok <==> r2 is Ok,
        r1 is Ok && r2 is Ok ==> r1->Ok_0@ == r2->Ok_0@,
        r1 is Err && r2 is Err ==> r1->Err_0 == r2->Err_0,
{
    let c = count as nat;
    let wn = w as nat;
    if generation_error(count, w, chars) is None {
        if r1 is Ok {
            let p1 = choose|p: Seq<char>| is_generated_text(r1->Ok_0@, p, c, wn, chars, Some(seed));
            if r2 is Ok {
                let p2 = choose|p: Seq<char>| is_generated_text(r2->Ok_0@, p, c, wn, chars, Some(seed));
                lemma_seeded_draws_agree(p1, p2, c, wn, chars, seed, c as int);
                assert(p1 =~= p2);
            } else {
                let q = choose|q: Seq<char>| is_blocked_prefix(q, c, wn, chars, Some(seed));
                lemma_seeded_draws_agree(p1, q, c, wn, chars, seed, q.len() as int);
                assert(p1.take(q.len() as int) =~= q);
                reveal(is_drawn);
                assert(step_pool(chars, p1.take(q.len() as int), c, wn).contains(p1[q.len() as int]));
            }
        } else if r2 is Ok {
            let p2 = choose|p: Seq<char>| is_generated_text(r2->Ok_0@, p, c, wn, chars, Some(seed));
            let q = choose|q: Seq<char>| is_blocked_prefix(q, c, wn, chars, Some(seed));
            lemma_seeded_draws_agree(p2, q, c, wn, chars, seed, q.len() as int);
            assert(p2.take(q.len() as int) =~= q);
            reveal(is_drawn);
            assert(step_pool(chars, p2.take(q.len() as int), c, wn).contains(p2[q.len() as int]));
        }
    }
}

/// Generates a practice text of `chars_count` characters drawn from
/// `chars_in_use`, in words of `word_length` characters separated by single
/// spaces. No three characters in a row are the same where more than one
/// character is in use; among the last characters, those not used yet are
/// drawn first, so that a text at least as long as `chars_in_use` holds each
/// of them, and a shorter one (of distinct characters) repeats none. `seed`,
/// where given, seeds the generator and so fixes the text; otherwise the
/// system does.
pub fn generate_text(seed: Option<u64>, chars_count: u64, word_length: u64, chars_in_use: Vec<char>) -> (r: Result<String, TextGenError>)
    ensures
        is_generation_result(r, seed, chars_count, word_length, chars_in_use@),
        r == Err::<String, TextGenError>(TextGenError::ZeroWordLength) <==> word_length == 0,
        r == Err::<String, TextGenError>(TextGenError::WordLongerThanText) <==> (0 < word_length
            && chars_count < word_length),
        r == Err::<String, TextGenError>(TextGenError::NoCharacters) <==> (0 < word_length
            <= chars_count && chars_in_use@.len() == 0),
        r == Err::<String, TextGenError>(TextGenError::NoEntropy) ==> seed is None,
        r == Err::<String, TextGenError>(TextGenError::RepeatBlocked)
            ==> !chars_in_use@.no_duplicates(),
        seed is Some && 0 < word_length <= chars_count && chars_in_use@.len() > 0
            && chars_in_use@.no_duplicates() ==> r is Ok,
        r matches Ok(s) ==> s@.len() == chars_count + (chars_count - 1) / (word_length as int),
        r matches Ok(s) ==> forall|k: int|
            0 <= k < s@.len() ==> #[trigger] s@[k] == ' ' || chars_in_use@.contains(s@[k]),
        r matches Ok(s) ==> (chars_count >= chars_in_use@.len() ==> forall|c: char|
            #[trigger] chars_in_use@.contains(c) ==> s@.contains(c)),
        r matches Ok(s) ==> (chars_in_use@.len() > 1 && !chars_in_use@.contains(' ') ==> forall|
            k: int,
        | 2 <= k < s@.len() ==> !(#[trigger] s@[k] == s@[k - 1] && s@[k] == s@[k - 2])),
{
    if word_length == 0 {
        return Err(TextGenError::ZeroWordLength);
    }
    if word_length > chars_count {
        return Err(TextGenError::WordLongerThanText);
    }
    if chars_in_use.len() == 0 {
        return Err(TextGenError::NoCharacters);
    }
    let source = match seed {
        Some(value) => CharSource::seeded(value),
        None => match CharSource::from_system() {
            Some(source) => source,
            None => return Err(TextGenError::NoEntropy),
        },
    };
    let ghost chars = chars_in_use@;
    let r = generate_from_source(source, chars_count, word_length, chars_in_use);
    proof {
        if r is Ok {
            let picks = choose|p: Seq<char>|
                is_generated_text(r->Ok_0@, p, chars_count as nat, word_length as nat, chars, seed);
            assert(is_generated_text(r->Ok_0@, picks, chars_count as nat, word_length as nat, chars, seed));
        }
        lemma_generation_outcome(r, seed, chars_count, word_length, chars);
    }
    r
}

/// Generates the practice text with `source`, a generator that has drawn
/// nothing yet, for arguments that `generate_text` accepts. The text is the
/// one the source's seed gives, or any one for a source the system seeded;
/// with distinct characters there is always one, and otherwise the result
/// is a text or `RepeatBlocked` after a blocked prefix.
#[verifier::rlimit(60)]
pub(crate) fn generate_from_source(
    initial: CharSource,
    chars_count: u64,
    word_length: u64,
    chars_in_use: Vec<char>,
) -> (r: Result<String, TextGenError>)
    requires
        generation_error(chars_count, word_length, chars_in_use@) is None,
        initial@.1 == Seq::<nat>::empty(),
    ensures
        r matches Ok(s) ==> exists|picks: Seq<char>|
            is_generated_text(
                s@,
                picks,
                chars_count as nat,
                word_length as nat,
                chars_in_use@,
                initial@.0,
            ),
        r matches Err(e) ==> e == TextGenError::RepeatBlocked && !chars_in_use@.no_duplicates()
            && exists|prior: Seq<char>|
            is_blocked_prefix(
                prior,
                chars_count as nat,
                word_length as nat,
                chars_in_use@,
                initial@.0,
            ),
        chars_in_use@.no_duplicates() ==> r is Ok,
{
    let ghost seed = initial@.0;
    let mut source = initial;
    let w = word_length;
    let n = chars_in_use.len();
    let ghost chars = chars_in_use@;
    let ghost count = chars_count as nat;
    let mut unused = copy_chars(&chars_in_use);
    let mut result: Vec<char> = Vec::new();
    let mut prev0: char = '\0';
    let mut prev1: char = '\0';
    let ghost mut picks: Seq<char> = seq![];
    let mut k: u64 = 0;
    proof {
        assert(draw_lengths(chars, picks, 0, count, w as nat) =~= Seq::<nat>::empty());
        reveal(is_drawn);
    }
    while k < chars_count
        invariant
            0 < w <= chars_count,
            w == word_length,
            count == chars_count as nat,
            n == chars_in_use.len(),
            n >= 1,
            chars == chars_in_use@,
            k <= chars_count,
            picks.len() == k,
            result@ == (if k > 0 && k % w == 0 && k < chars_count {
                spaced(picks, w as nat).push(' ')
            } else {
                spaced(picks, w as nat)
            }),
            ({
                let t = seq!['\0', '\0'] + result@;
                prev0 == t[t.len() - 2] && prev1 == t[t.len() - 1]
            }),
            forall|j: int| 0 <= j < k ==> chars.contains(#[trigger] picks[j]),
            n > 1 ==> forall|j: int| 0 <= j < k ==> !#[trigger] makes_triple(picks, j, w as nat),
            unused@ == remaining(chars, picks),
            chars_count >= n && chars_count - k <= n ==> unused@.len() <= chars_count - k,
            chars.no_duplicates() && chars_count <= n ==> picks.no_duplicates() && unused@.len()
                == n - k,
            source@.0 == seed,
            seed == initial@.0,
            source@.1 == draw_lengths(chars, picks, k as int, count, w as nat),
            is_drawn(picks, count, w as nat, chars, seed),
        decreases chars_count - k,
    {
        let from_unused = chars_count - k - 1 < n as u64 && unused.len() > 0;
        let reject = n > 1 && prev0 == prev1;
        let ghost t = seq!['\0', '\0'] + result@;
        let pool = if from_unused {
            copy_chars(&unused)
        } else {
            copy_chars(&chars_in_use)
        };
        let candidates = if reject {
            without_char(&pool, prev0)
        } else {
            pool
        };
        proof {
            lemma_remaining(chars, picks);
            assert(context(picks, w as nat) == t);
            assert(candidates@ == step_pool(chars, picks, count, w as nat)) by {
                reveal(step_pool);
                assert((|x: char| x != prev0) =~= (|x: char| x != t[t.len() - 2]));
            }
        }
        if candidates.len() == 0 {
            proof {
                if chars.no_duplicates() {
                    lemma_pool_not_empty(chars, picks, count, w as nat);
                }
                assert(is_blocked_prefix(picks, chars_count as nat, word_length as nat, chars_in_use@, seed));
                assert(!chars_in_use@.no_duplicates());
            }
            let r: Result<String, TextGenError> = Err(TextGenError::RepeatBlocked);
            return r;
        }
        let new_char = draw_char(&mut source, &candidates).unwrap();
        let ghost old_picks = picks;
        let ghost old_unused = unused@;
        match position_of(&unused, new_char) {
            Some(index) => {
                proof {
                    lemma_remove_first_at(unused@, new_char, index as int);
                }
                unused.remove(index);
            },
            None => {
                proof {
                    lemma_remove_first_absent(unused@, new_char);
                }
            },
        }
        result.push(new_char);
        proof {
            lemma_remove_first(old_unused, new_char);
            assert(candidates@.contains(new_char));
            lemma_draw_step(chars, old_picks, new_char, count, w as nat, seed);
            lemma_practice_step(chars, old_picks, new_char, w as nat);
            picks = picks.push(new_char);
            assert(picks.drop_last() =~= old_picks);
            lemma_spaced_push(old_picks, new_char, w as nat);
            if chars.no_duplicates() && chars_count <= n {
                assert(old_unused.contains(new_char));
                assert(!old_picks.contains(new_char));
                assert forall|a: int, b: int| 0 <= a < picks.len() && 0 <= b < picks.len() && a != b implies picks[a] != picks[b] by {
                    if a < k && b < k {
                        assert(old_picks[a] != old_picks[b]);
                    } else if a == k {
                        assert(old_picks[b] == picks[b]);
                    } else {
                        assert(old_picks[a] == picks[a]);
                    }
                }
            }
        }
        k += 1;
        if k % w == 0 && k != chars_count {
            result.push(' ');
            prev0 = new_char;
            prev1 = ' ';
        } else {
            prev0 = prev1;
            prev1 = new_char;
        }
    }
    proof {
        lemma_remaining(chars, picks);
        if chars_count >= n {
            assert forall|x: char| #[trigger] chars.contains(x) implies picks.contains(x) by {
                if !picks.contains(x) {
                    assert(unused@.contains(x));
                }
            }
        }
    }
    let text = string_from_chars(&result);
    let r: Result<String, TextGenError> = Ok(text);
    assert(is_generated_text(r->Ok_0@, picks, count, w as nat, chars, seed));
    r
}

} // verus!
