//! Text: numbers, lists and names of events.

use crate::event::{Event, ThreadId};
use vstd::prelude::*;
use vstd::string::*;

verus! {

/// The digit `d` as a character.
pub open spec fn digit_char(d: nat) -> char {
    if d == 0 {
        '0'
    } else if d == 1 {
        '1'
    } else if d == 2 {
        '2'
    } else if d == 3 {
        '3'
    } else if d == 4 {
        '4'
    } else if d == 5 {
        '5'
    } else if d == 6 {
        '6'
    } else if d == 7 {
        '7'
    } else if d == 8 {
        '8'
    } else {
        '9'
    }
}

/// The decimal digits of `n`.
pub open spec fn decimal_of(n: nat) -> Seq<char>
    decreases n,
{
    if n < 10 {
        seq![digit_char(n)]
    } else {
        decimal_of(n / 10).push(digit_char(n % 10))
    }
}

/// `n` zeros.
pub open spec fn zeros(n: nat) -> Seq<char> {
    Seq::new(n, |i: int| '0')
}

/// The decimal digits of `n`, filled up with zeros to `width`.
pub open spec fn padded_of(n: nat, width: nat) -> Seq<char> {
    let digits = decimal_of(n);
    if digits.len() < width {
        zeros((width - digits.len()) as nat) + digits
    } else {
        digits
    }
}

fn digit(d: u128) -> (s: &'static str)
    requires
        d < 10,
    ensures
        s@ == seq![digit_char(d as nat)],
{
    proof {
        reveal_strlit("0");
        reveal_strlit("1");
        reveal_strlit("2");
        reveal_strlit("3");
        reveal_strlit("4");
        reveal_strlit("5");
        reveal_strlit("6");
        reveal_strlit("7");
        reveal_strlit("8");
        reveal_strlit("9");
    }
    let s = if d == 0 {
        "0"
    } else if d == 1 {
        "1"
    } else if d == 2 {
        "2"
    } else if d == 3 {
        "3"
    } else if d == 4 {
        "4"
    } else if d == 5 {
        "5"
    } else if d == 6 {
        "6"
    } else if d == 7 {
        "7"
    } else if d == 8 {
        "8"
    } else {
        "9"
    };
    assert(s@ =~= seq![digit_char(d as nat)]);
    s
}

/// The decimal digits of `n`.
pub fn decimal(n: u128) -> (s: String)
    ensures
        s@ == decimal_of(n as nat),
    decreases n,
{
    if n < 10 {
        String::from_str(digit(n))
    } else {
        let mut s = decimal(n / 10);
        let ghost before = s@;
        s.append(digit(n % 10));
        assert(s@ =~= before.push(digit_char((n % 10) as nat)));
        s
    }
}

/// The decimal digits of `n`, filled up with zeros to `width`.
pub fn padded(n: u128, width: usize) -> (s: String)
    ensures
        s@ == padded_of(n as nat, width as nat),
{
    let digits = decimal(n);
    let len = digits.as_str().unicode_len();
    let mut s = String::new();
    let mut i: usize = len;
    proof {
        reveal_strlit("0");
    }
    assert(s@ =~= zeros(0));
    while i < width
        invariant
            len <= i,
            len <= width ==> i <= width,
            len > width ==> i == len,
            s@ == zeros((i - len) as nat),
            "0"@ == seq!['0'],
        decreases width - i,
    {
        s.append("0");
        i += 1;
        assert(s@ =~= zeros((i - len) as nat));
    }
    s.append(digits.as_str());
    assert(len >= width ==> zeros(0) + digits@ =~= digits@);
    s
}

/// The texts of the first `n` entries, with `sep` between them.
pub open spec fn joined(texts: Seq<Seq<char>>, sep: Seq<char>, n: nat) -> Seq<char>
    decreases n,
{
    if n == 0 {
        Seq::empty()
    } else if n == 1 {
        texts[0]
    } else {
        joined(texts, sep, (n - 1) as nat) + sep + texts[n - 1]
    }
}

/// The views of a list of texts.
pub open spec fn texts_view(texts: Seq<String>) -> Seq<Seq<char>> {
    Seq::new(texts.len(), |i: int| texts[i]@)
}

/// The texts with `sep` between them.
pub fn join(texts: &Vec<String>, sep: &str) -> (s: String)
    ensures
        s@ == joined(texts_view(texts@), sep@, texts@.len()),
{
    let mut s = String::new();
    assert(s@ =~= Seq::<char>::empty());
    let ghost views = texts_view(texts@);
    let mut i: usize = 0;
    while i < texts.len()
        invariant
            i <= texts.len(),
            views == texts_view(texts@),
            s@ == joined(views, sep@, i as nat),
        decreases texts.len() - i,
    {
        assert(views[i as int] == texts@[i as int]@);
        if i > 0 {
            s.append(sep);
        }
        s.append(texts[i].as_str());
        i += 1;
        assert(i == 1 ==> Seq::<char>::empty() + views[0] =~= views[0]);
    }
    s
}

/// The name of a thread.
pub open spec fn thread_text(t: ThreadId) -> Seq<char> {
    "t"@ + decimal_of(t.id as nat)
}

pub fn thread_name(t: ThreadId) -> (s: String)
    ensures
        s@ == thread_text(t),
{
    let mut s = String::from_str("t");
    s.append(decimal(t.id as u128).as_str());
    s
}

/// The name of an event: its thread and its index.
pub open spec fn event_text(e: Event) -> Seq<char> {
    "("@ + thread_text(e.thread) + ", "@ + decimal_of(e.index as nat) + ")"@
}

pub fn event_name(e: Event) -> (s: String)
    ensures
        s@ == event_text(e),
{
    let mut s = String::from_str("(");
    s.append(thread_name(e.thread).as_str());
    s.append(", ");
    s.append(decimal(e.index as u128).as_str());
    s.append(")");
    s
}

/// The names of events.
pub open spec fn event_texts(events: Seq<Event>) -> Seq<Seq<char>> {
    Seq::new(events.len(), |i: int| event_text(events[i]))
}

/// The names of events, with commas between them.
pub open spec fn events_text(events: Seq<Event>) -> Seq<char> {
    joined(event_texts(events), ", "@, events.len())
}

pub fn fmt_events(events: &Vec<Event>) -> (s: String)
    ensures
        s@ == events_text(events@),
{
    let mut names: Vec<String> = Vec::new();
    let mut i: usize = 0;
    while i < events.len()
        invariant
            i <= events.len(),
            names@.len() == i,
            forall|k: int| 0 <= k < i ==> (#[trigger] names@[k])@ == event_text(events@[k]),
        decreases events.len() - i,
    {
        names.push(event_name(events[i]));
        i += 1;
    }
    assert(texts_view(names@) =~= event_texts(events@));
    join(&names, ", ")
}

/// A set of events in braces.
pub open spec fn event_set_text(events: Seq<Event>) -> Seq<char> {
    "{"@ + events_text(events) + "}"@
}

pub fn fmt_event_set(events: &Vec<Event>) -> (s: String)
    ensures
        s@ == event_set_text(events@),
{
    let mut s = String::from_str("{");
    s.append(fmt_events(events).as_str());
    s.append("}");
    s
}

/// Sets of events, with commas between them.
pub open spec fn event_sets_text(sets: Seq<Seq<Event>>) -> Seq<char> {
    joined(Seq::new(sets.len(), |i: int| event_set_text(sets[i])), ", "@, sets.len())
}

pub fn fmt_event_sets(sets: &Vec<Vec<Event>>) -> (s: String)
    ensures
        s@ == event_sets_text(crate::revisit::sets_view(sets@)),
{
    let mut names: Vec<String> = Vec::new();
    let mut i: usize = 0;
    while i < sets.len()
        invariant
            i <= sets.len(),
            names@.len() == i,
            forall|k: int| 0 <= k < i ==> (#[trigger] names@[k])@ == event_set_text(sets@[k]@),
        decreases sets.len() - i,
    {
        names.push(fmt_event_set(&sets[i]));
        i += 1;
    }
    let ghost views = crate::revisit::sets_view(sets@);
    assert(texts_view(names@) =~= Seq::new(views.len(), |i: int| event_set_text(views[i])));
    join(&names, ", ")
}

/// The decimal digits of a number of halves, with two places.
pub open spec fn halves_of(h: int) -> Seq<char> {
    let size = (if h < 0 {
        -h
    } else {
        h
    }) as nat;
    (if h < 0 {
        "-"@
    } else {
        Seq::empty()
    }) + decimal_of(size / 2) + (if size % 2 == 1 {
        ".50"@
    } else {
        ".00"@
    })
}

/// A number of halves, with two places.
pub fn halves(h: i128) -> (s: String)
    requires
        h > i128::MIN,
    ensures
        s@ == halves_of(h as int),
{
    let mut s = String::new();
    assert(s@ =~= Seq::<char>::empty());
    let size: u128 = if h < 0 {
        s.append("-");
        assert(Seq::<char>::empty() + "-"@ =~= "-"@);
        (-h) as u128
    } else {
        h as u128
    };
    s.append(decimal(size / 2).as_str());
    s.append(if size % 2 == 1 {
        ".50"
    } else {
        ".00"
    });
    s
}

/// Whether a character separates words.
pub open spec fn is_white(c: char) -> bool {
    let n = c as nat;
    (9 <= n <= 13) || n == 32 || n == 0x85 || n == 0xA0 || n == 0x1680 || (0x2000 <= n <= 0x200A)
        || n == 0x2028 || n == 0x2029 || n == 0x202F || n == 0x205F || n == 0x3000
}

/// Whether `c` is white space.
pub fn white(c: char) -> (b: bool)
    ensures
        b == is_white(c),
{
    let n = c as u32;
    (9 <= n && n <= 13) || n == 32 || n == 0x85 || n == 0xA0 || n == 0x1680 || (0x2000 <= n && n
        <= 0x200A) || n == 0x2028 || n == 0x2029 || n == 0x202F || n == 0x205F || n == 0x3000
}

/// The words that have ended within the first `n` characters, and the start of the
/// word that has not.
pub open spec fn words_upto(text: Seq<char>, n: nat) -> (Seq<Seq<char>>, Seq<char>)
    decreases n,
{
    if n == 0 {
        (Seq::empty(), Seq::empty())
    } else {
        let (words, word) = words_upto(text, (n - 1) as nat);
        if !is_white(text[n - 1]) {
            (words, word.push(text[n - 1]))
        } else if word.len() > 0 {
            (words.push(word), Seq::empty())
        } else {
            (words, word)
        }
    }
}

/// The words of a text.
pub open spec fn words_of(text: Seq<char>) -> Seq<Seq<char>> {
    let (words, word) = words_upto(text, text.len());
    if word.len() > 0 {
        words.push(word)
    } else {
        words
    }
}

/// The words of a text.
pub fn split_words(text: &str) -> (r: Vec<String>)
    ensures
        texts_view(r@) == words_of(text@),
{
    let mut r: Vec<String> = Vec::new();
    let mut word = String::new();
    let mut word_len: usize = 0;
    let len = text.unicode_len();
    assert(texts_view(r@) =~= Seq::<Seq<char>>::empty());
    assert(word@ =~= Seq::<char>::empty());
    let mut i: usize = 0;
    while i < len
        invariant
            len == text@.len(),
            i <= len,
            word_len <= i,
            word@.len() == word_len,
            (texts_view(r@), word@) == words_upto(text@, i as nat),
        decreases len - i,
    {
        let c = text.get_char(i);
        let ghost before = texts_view(r@);
        let ghost start = word@;
        if !white(c) {
            word.append(text.substring_char(i, i + 1));
            word_len += 1;
            assert(word@ =~= start.push(c));
        } else if word_len > 0 {
            let mut ended = String::new();
            std::mem::swap(&mut ended, &mut word);
            r.push(ended);
            word_len = 0;
            assert(texts_view(r@) =~= before.push(start));
            assert(word@ =~= Seq::<char>::empty());
        }
        i += 1;
    }
    let ghost before = texts_view(r@);
    let ghost last = word@;
    if word_len > 0 {
        r.push(word);
        assert(texts_view(r@) =~= before.push(last));
    }
    r
}

/// Whether a character is a decimal digit.
pub open spec fn is_digit(c: char) -> bool {
    '0' <= c <= '9'
}

/// The digits of a number that may have a plus sign before it.
pub open spec fn number_digits(text: Seq<char>) -> Seq<char> {
    if text.len() > 0 && text[0] == '+' {
        text.drop_first()
    } else {
        text
    }
}

/// Whether a text is a number of at most `max`.
pub open spec fn is_number(text: Seq<char>, max: nat) -> bool {
    let digits = number_digits(text);
    digits.len() > 0 && (forall|i: int|
        0 <= i < digits.len() ==> is_digit(#[trigger] digits[i])) && value_of(digits) <= max
}

/// A prefix of digits has a value that is not larger.
proof fn lemma_value_prefix(digits: Seq<char>, n: nat)
    requires
        n <= digits.len(),
    ensures
        value_of(digits.take(n as int)) <= value_of(digits),
    decreases digits.len(),
{
    if n < digits.len() {
        let shorter = digits.drop_last();
        lemma_value_prefix(shorter, n);
        assert(shorter.take(n as int) =~= digits.take(n as int));
    } else {
        assert(digits.take(n as int) =~= digits);
    }
}

/// The number of at most `max` that a text is, if it is one.
pub fn parse_number(text: &str, max: u64) -> (r: Option<u64>)
    ensures
        r is Some == is_number(text@, max as nat),
        r matches Some(n) ==> n == value_of(number_digits(text@)),
{
    let len = text.unicode_len();
    let ghost digits = number_digits(text@);
    let start: usize = if len > 0 && text.get_char(0) == '+' {
        1
    } else {
        0
    };
    assert(digits =~= text@.skip(start as int));
    if start == len {
        return None;
    }
    let mut value: u64 = 0;
    let mut i: usize = start;
    assert(digits.take(0) =~= Seq::<char>::empty());
    while i < len
        invariant
            len == text@.len(),
            start <= i <= len,
            digits == number_digits(text@),
            digits == text@.skip(start as int),
            value <= max,
            value == value_of(digits.take(i - start)),
            forall|k: int| 0 <= k < i - start ==> is_digit(#[trigger] digits[k]),
        decreases len - i,
    {
        let c = text.get_char(i);
        assert(digits[i - start] == c);
        if c < '0' || c > '9' {
            assert(!is_digit(digits[i - start]));
            return None;
        }
        let d = (c as u32 - '0' as u32) as u64;
        proof {
            let longer = digits.take(i + 1 - start);
            assert(longer.drop_last() =~= digits.take(i - start));
            assert(longer.last() == c);
            lemma_value_prefix(digits, (i + 1 - start) as nat);
        }
        if value > max / 10 || d > max || value * 10 > max - d {
            return None;
        }
        value = value * 10 + d;
        i += 1;
    }
    assert(digits.take(i - start) =~= digits);
    Some(value)
}

/// The number that a digit stands for.
pub open spec fn digit_value(c: char) -> nat {
    (c as nat - '0' as nat) as nat
}

/// The number that decimal digits stand for.
pub open spec fn value_of(digits: Seq<char>) -> nat
    decreases digits.len(),
{
    if digits.len() == 0 {
        0
    } else {
        value_of(digits.drop_last()) * 10 + digit_value(digits.last())
    }
}

/// Reading the digits of a number gives the number back.
pub proof fn law_decimal_round_trip(n: nat)
    ensures
        value_of(decimal_of(n)) == n,
    decreases n,
{
    assert(decimal_of(n).last() == digit_char(n % 10));
    assert(digit_value(digit_char(n % 10)) == n % 10);
    if n < 10 {
        assert(decimal_of(n).drop_last() =~= Seq::<char>::empty());
        assert(value_of(Seq::<char>::empty()) == 0);
    } else {
        law_decimal_round_trip(n / 10);
        assert(decimal_of(n).drop_last() =~= decimal_of(n / 10));
    }
}


/// Whether a text is a word: not empty, and without anything that separates words.
pub open spec fn is_word(word: Seq<char>) -> bool {
    word.len() > 0 && forall|i: int| 0 <= i < word.len() ==> !is_white(#[trigger] word[i])
}

/// The digits of a number are digits, and make a word.
pub proof fn lemma_decimal_digits(n: nat)
    ensures
        is_word(decimal_of(n)),
        forall|i: int| 0 <= i < decimal_of(n).len() ==> is_digit(#[trigger] decimal_of(n)[i]),
    decreases n,
{
    if n >= 10 {
        lemma_decimal_digits(n / 10);
        let before = decimal_of(n / 10);
        assert forall|i: int| 0 <= i < decimal_of(n).len() implies is_digit(
            #[trigger] decimal_of(n)[i],
        ) by {
            if i < before.len() {
                assert(decimal_of(n)[i] == before[i]);
            }
        }
    }
    assert forall|i: int| 0 <= i < decimal_of(n).len() implies !is_white(
        #[trigger] decimal_of(n)[i],
    ) by {
        assert(is_digit(decimal_of(n)[i]));
    }
}

/// The digits of a number are read as the number.
pub proof fn law_decimal_is_number(n: nat, max: nat)
    requires
        n <= max,
    ensures
        is_number(decimal_of(n), max),
        value_of(number_digits(decimal_of(n))) == n,
{
    lemma_decimal_digits(n);
    law_decimal_round_trip(n);
    assert(is_digit(decimal_of(n)[0]));
}

proof fn lemma_words_prefix(a: Seq<char>, b: Seq<char>, n: nat)
    requires
        n <= a.len(),
    ensures
        words_upto(a + b, n) == words_upto(a, n),
    decreases n,
{
    if n > 0 {
        lemma_words_prefix(a, b, (n - 1) as nat);
        assert((a + b)[n - 1] == a[n - 1]);
    }
}

proof fn lemma_words_more(a: Seq<char>, w: Seq<char>, k: nat)
    requires
        is_word(w),
        k <= w.len(),
    ensures
        words_upto(a + w, a.len() + k) == (
            words_upto(a, a.len()).0,
            words_upto(a, a.len()).1 + w.take(k as int),
        ),
    decreases k,
{
    let start = words_upto(a, a.len());
    if k == 0 {
        lemma_words_prefix(a, w, a.len());
        assert(start.1 + w.take(0) =~= start.1);
    } else {
        lemma_words_more(a, w, (k - 1) as nat);
        assert((a + w)[a.len() + k - 1] == w[k - 1]);
        assert((start.1 + w.take(k - 1)).push(w[k - 1]) =~= start.1 + w.take(k as int));
    }
}

proof fn lemma_joined_words(tokens: Seq<Seq<char>>, n: nat)
    requires
        0 < n <= tokens.len(),
        forall|i: int| 0 <= i < tokens.len() ==> is_word(#[trigger] tokens[i]),
    ensures
        words_upto(joined(tokens, " "@, n), joined(tokens, " "@, n).len()) == (
            tokens.take(n - 1),
            tokens[n - 1],
        ),
    decreases n,
{
    reveal_strlit(" ");
    let text = joined(tokens, " "@, n);
    let token = tokens[n - 1];
    assert(is_word(token));
    if n == 1 {
        let none = Seq::<char>::empty();
        lemma_words_more(none, token, token.len());
        assert(none + token =~= token);
        assert(none + token.take(token.len() as int) =~= token);
        assert(tokens.take(0) =~= Seq::<Seq<char>>::empty());
    } else {
        let before = joined(tokens, " "@, (n - 1) as nat);
        lemma_joined_words(tokens, (n - 1) as nat);
        let spaced = before + " "@;
        lemma_words_prefix(before, " "@, before.len());
        assert(spaced[before.len() as int] == ' ');
        assert(is_word(tokens[n - 2]));
        assert(words_upto(spaced, spaced.len()) == (
            tokens.take(n - 2).push(tokens[n - 2]),
            Seq::<char>::empty(),
        ));
        assert(tokens.take(n - 2).push(tokens[n - 2]) =~= tokens.take(n - 1));
        lemma_words_more(spaced, token, token.len());
        assert(Seq::<char>::empty() + token.take(token.len() as int) =~= token);
        assert(text == spaced + token);
    }
}

/// Words with one space between them are the words of the text that they make.
pub proof fn law_words_round_trip(tokens: Seq<Seq<char>>)
    requires
        forall|i: int| 0 <= i < tokens.len() ==> is_word(#[trigger] tokens[i]),
    ensures
        words_of(joined(tokens, " "@, tokens.len())) == tokens,
{
    let n = tokens.len();
    if n == 0 {
        assert(words_of(Seq::<char>::empty()) =~= tokens);
    } else {
        lemma_joined_words(tokens, n);
        assert(is_word(tokens[n - 1]));
        assert(tokens.take(n - 1).push(tokens[n - 1]) =~= tokens);
    }
}

} // verus!
