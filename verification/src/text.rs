//! Reading of the small text files by which Linux publishes its counters:
//! lines, words and decimal numbers.
use vstd::prelude::*;

verus! {

/// A character with the Unicode White_Space property.
pub open spec fn white_space(c: char) -> bool {
    let n = c as u32;
    ||| 0x09 <= n <= 0x0D
    ||| n == 0x20
    ||| n == 0x85
    ||| n == 0xA0
    ||| n == 0x1680
    ||| 0x2000 <= n <= 0x200A
    ||| n == 0x2028
    ||| n == 0x2029
    ||| n == 0x202F
    ||| n == 0x205F
    ||| n == 0x3000
}

/// The length of the word that the text starts with.
pub open spec fn word_len(s: Seq<char>) -> nat
    decreases s.len(),
{
    if s.len() == 0 || white_space(s[0]) {
        0
    } else {
        1 + word_len(s.skip(1))
    }
}

/// The words of the text: its longest stretches without white space.
pub open spec fn words(s: Seq<char>) -> Seq<Seq<char>>
    decreases s.len(),
{
    if s.len() == 0 {
        seq![]
    } else if white_space(s[0]) {
        words(s.skip(1))
    } else {
        let n = word_len(s);
        if 0 < n <= s.len() {
            seq![s.take(n as int)] + words(s.skip(n as int))
        } else {
            seq![]
        }
    }
}

/// The length of the text up to its first line feed.
pub open spec fn line_len(s: Seq<char>) -> nat
    decreases s.len(),
{
    if s.len() == 0 || s[0] == '\n' {
        0
    } else {
        1 + line_len(s.skip(1))
    }
}

/// A line without the carriage return of its line ending.
pub open spec fn without_carriage_return(s: Seq<char>) -> Seq<char> {
    if s.len() > 0 && s.last() == '\r' {
        s.drop_last()
    } else {
        s
    }
}

/// The lines of the text, which end in a line feed, with or without a carriage
/// return before it; the last line may lack its ending.
pub open spec fn lines(s: Seq<char>) -> Seq<Seq<char>>
    decreases s.len(),
{
    let n = line_len(s);
    if s.len() == 0 {
        seq![]
    } else if n >= s.len() {
        seq![s]
    } else {
        seq![without_carriage_return(s.take(n as int))] + lines(s.skip(n as int + 1))
    }
}

/// The text without the white space before it.
pub open spec fn trimmed_start(s: Seq<char>) -> Seq<char>
    decreases s.len(),
{
    if s.len() > 0 && white_space(s[0]) {
        trimmed_start(s.skip(1))
    } else {
        s
    }
}

/// The text without the white space behind it.
pub open spec fn trimmed_end(s: Seq<char>) -> Seq<char>
    decreases s.len(),
{
    if s.len() > 0 && white_space(s.last()) {
        trimmed_end(s.drop_last())
    } else {
        s
    }
}

/// The text without the white space around it.
pub open spec fn trimmed(s: Seq<char>) -> Seq<char> {
    trimmed_end(trimmed_start(s))
}

/// Whether `s` begins with `prefix`.
pub open spec fn begins_with(s: Seq<char>, prefix: Seq<char>) -> bool {
    prefix.len() <= s.len() && s.take(prefix.len() as int) == prefix
}

/// A decimal digit.
pub open spec fn digit(c: char) -> bool {
    '0' <= c <= '9'
}

/// The number that a row of digits stands for.
pub open spec fn decimal(s: Seq<char>) -> nat
    decreases s.len(),
{
    if s.len() == 0 {
        0
    } else {
        decimal(s.drop_last()) * 10 + (s.last() as u32 - '0' as u32) as nat
    }
}

/// Only digits, and at least one.
pub open spec fn all_digits(s: Seq<char>) -> bool {
    s.len() > 0 && forall|i: int| 0 <= i < s.len() ==> digit(#[trigger] s[i])
}

/// The number that a text stands for, if it is digits with at most one plus sign
/// before them and the number is at most `max`.
pub open spec fn number(s: Seq<char>, max: nat) -> Option<nat> {
    let digits = if s.len() > 0 && s[0] == '+' {
        s.skip(1)
    } else {
        s
    };
    if all_digits(digits) && decimal(digits) <= max {
        Some(decimal(digits))
    } else {
        None
    }
}

/// The texts in a list of texts.
pub open spec fn views(list: Seq<Vec<char>>) -> Seq<Seq<char>> {
    list.map_values(|text: Vec<char>| text@)
}

/// The characters of a string.
pub fn chars_of(s: &str) -> (r: Vec<char>)
    ensures
        r@ == s@,
{
    let mut r: Vec<char> = Vec::new();
    for c in it: s.chars()
        invariant
            r@ == it.seq().take(it.index()),
            it.seq() == s@,
    {
        r.push(c);
    }
    r
}

/// Whether a character is white space.
pub fn is_white_space(c: char) -> (r: bool)
    ensures
        r == white_space(c),
{
    let n: u32 = c as u32;
    (0x09 <= n && n <= 0x0D) || n == 0x20 || n == 0x85 || n == 0xA0 || n == 0x1680 || (0x2000 <= n
        && n <= 0x200A) || n == 0x2028 || n == 0x2029 || n == 0x202F || n == 0x205F || n == 0x3000
}

/// A word is no longer than the text.
proof fn lemma_word_len(s: Seq<char>)
    ensures
        word_len(s) <= s.len(),
        s.len() > 0 && !white_space(s[0]) ==> word_len(s) > 0,
    decreases s.len(),
{
    if s.len() > 0 {
        lemma_word_len(s.skip(1));
    }
}

/// Split a text into its words.
pub fn split_words(s: &Vec<char>) -> (r: Vec<Vec<char>>)
    ensures
        views(r@) == words(s@),
{
    let mut r: Vec<Vec<char>> = Vec::new();
    let mut i: usize = 0;
    assert(s@.skip(0) =~= s@);
    assert(views(r@) =~= Seq::<Seq<char>>::empty());
    while i < s.len()
        invariant
            i <= s@.len(),
            views(r@) + words(s@.skip(i as int)) == words(s@),
        decreases s@.len() - i,
    {
        let ghost rest = s@.skip(i as int);
        assert(rest[0] == s@[i as int]);
        if is_white_space(s[i]) {
            assert(rest.skip(1) =~= s@.skip(i + 1));
            i = i + 1;
        } else {
            let start: usize = i;
            let mut word: Vec<char> = Vec::new();
            while i < s.len() && !is_white_space(s[i])
                invariant
                    start <= i <= s@.len(),
                    rest == s@.skip(start as int),
                    word@ == rest.take(i - start),
                    word_len(rest) == i - start + word_len(s@.skip(i as int)),
                decreases s@.len() - i,
            {
                assert(s@.skip(i as int)[0] == s@[i as int]);
                assert(s@.skip(i as int).skip(1) =~= s@.skip(i + 1));
                word.push(s[i]);
                i = i + 1;
                assert(word@ =~= rest.take(i - start));
            }
            assert(word_len(s@.skip(i as int)) == 0) by {
                if i < s@.len() {
                    assert(s@.skip(i as int)[0] == s@[i as int]);
                }
            }
            let ghost before = views(r@);
            proof {
                lemma_word_len(rest);
                assert(rest.skip(i - start) =~= s@.skip(i as int));
            }
            r.push(word);
            assert(views(r@) =~= before.push(rest.take(i - start)));
            assert(views(r@) + words(s@.skip(i as int)) =~= before + (seq![rest.take(i - start)]
                + words(s@.skip(i as int))));
        }
    }
    assert(s@.skip(i as int) =~= Seq::<char>::empty());
    assert(views(r@) + words(s@.skip(i as int)) =~= views(r@));
    r
}

/// Split a text into its lines.
pub fn split_lines(s: &Vec<char>) -> (r: Vec<Vec<char>>)
    ensures
        views(r@) == lines(s@),
{
    let mut r: Vec<Vec<char>> = Vec::new();
    let mut i: usize = 0;
    assert(s@.skip(0) =~= s@);
    assert(views(r@) =~= Seq::<Seq<char>>::empty());
    while i < s.len()
        invariant
            i <= s@.len(),
            views(r@) + lines(s@.skip(i as int)) == lines(s@),
        decreases s@.len() - i,
    {
        let ghost rest = s@.skip(i as int);
        let start: usize = i;
        let mut line: Vec<char> = Vec::new();
        while i < s.len() && s[i] != '\n'
            invariant
                start <= i <= s@.len(),
                rest == s@.skip(start as int),
                line@ == rest.take(i - start),
                line_len(rest) == i - start + line_len(s@.skip(i as int)),
            decreases s@.len() - i,
        {
            assert(s@.skip(i as int)[0] == s@[i as int]);
            assert(s@.skip(i as int).skip(1) =~= s@.skip(i + 1));
            line.push(s[i]);
            i = i + 1;
            assert(line@ =~= rest.take(i - start));
        }
        assert(line_len(s@.skip(i as int)) == 0) by {
            if i < s@.len() {
                assert(s@.skip(i as int)[0] == s@[i as int]);
            }
        }
        let ghost before = views(r@);
        if i < s.len() {
            i = i + 1;
            if line.len() > 0 && line[line.len() - 1] == '\r' {
                line.pop();
            }
            assert(line@ =~= without_carriage_return(rest.take(i - 1 - start)));
            assert(rest.skip(i - start) =~= s@.skip(i as int));
        } else {
            assert(line@ =~= rest);
            assert(s@.skip(i as int) =~= Seq::<char>::empty());
        }
        let ghost added = line@;
        r.push(line);
        assert(views(r@) =~= before.push(added));
        assert(views(r@) + lines(s@.skip(i as int)) =~= before + (seq![added] + lines(
            s@.skip(i as int),
        )));
        assert(seq![added] + lines(s@.skip(i as int)) =~= lines(rest));
    }
    assert(s@.skip(i as int) =~= Seq::<char>::empty());
    assert(views(r@) + lines(s@.skip(i as int)) =~= views(r@));
    r
}

/// The text without the white space around it.
pub fn trim(s: &Vec<char>) -> (r: Vec<char>)
    ensures
        r@ == trimmed(s@),
{
    let mut start: usize = 0;
    assert(s@.skip(0) =~= s@);
    while start < s.len() && is_white_space(s[start])
        invariant
            start <= s@.len(),
            trimmed_start(s@.skip(start as int)) == trimmed_start(s@),
        decreases s@.len() - start,
    {
        assert(s@.skip(start as int)[0] == s@[start as int]);
        assert(s@.skip(start as int).skip(1) =~= s@.skip(start + 1));
        start = start + 1;
    }
    assert(trimmed_start(s@) == s@.skip(start as int)) by {
        if start < s@.len() {
            assert(s@.skip(start as int)[0] == s@[start as int]);
        }
    }
    let mut end: usize = s.len();
    assert(s@.subrange(start as int, end as int) =~= s@.skip(start as int));
    while start < end && is_white_space(s[end - 1])
        invariant
            start <= end <= s@.len(),
            trimmed_end(s@.subrange(start as int, end as int)) == trimmed(s@),
        decreases end - start,
    {
        let ghost middle = s@.subrange(start as int, end as int);
        assert(middle.last() == s@[end - 1]);
        assert(middle.drop_last() =~= s@.subrange(start as int, end - 1));
        end = end - 1;
    }
    let ghost middle = s@.subrange(start as int, end as int);
    assert(trimmed(s@) == middle) by {
        if start < end {
            assert(middle.last() == s@[end - 1]);
        }
    }
    let mut r: Vec<char> = Vec::new();
    for i in start..end
        invariant
            start <= end <= s@.len(),
            r@ == s@.subrange(start as int, i as int),
    {
        r.push(s[i]);
        assert(r@ =~= s@.subrange(start as int, i + 1));
    }
    r
}

/// Whether the text begins with the given prefix.
pub fn starts_with(s: &Vec<char>, prefix: &str) -> (r: bool)
    ensures
        r == begins_with(s@, prefix@),
{
    let wanted: Vec<char> = chars_of(prefix);
    if wanted.len() > s.len() {
        return false;
    }
    for i in 0..wanted.len()
        invariant
            wanted@ == prefix@,
            wanted@.len() <= s@.len(),
            forall|j: int| 0 <= j < i ==> s@[j] == wanted@[j],
    {
        if s[i] != wanted[i] {
            assert(s@.take(wanted@.len() as int)[i as int] != wanted@[i as int]);
            return false;
        }
    }
    assert(s@.take(wanted@.len() as int) =~= wanted@);
    true
}

/// The digits at the front of a row of digits stand for a smaller number.
proof fn lemma_decimal_grows(s: Seq<char>, n: int)
    requires
        0 <= n <= s.len(),
        forall|i: int| 0 <= i < s.len() ==> digit(#[trigger] s[i]),
    ensures
        decimal(s.take(n)) <= decimal(s),
    decreases s.len(),
{
    if n < s.len() {
        assert(s.drop_last().take(n) =~= s.take(n));
        lemma_decimal_grows(s.drop_last(), n);
    } else {
        assert(s.take(n) =~= s);
    }
}

/// The number, up to `max`, that a text stands for.
pub fn parse_number(s: &Vec<char>, max: u64) -> (r: Option<u64>)
    ensures
        r == (match number(s@, max as nat) {
            Some(n) => Some(n as u64),
            None => None,
        }),
{
    let start: usize = if s.len() > 0 && s[0] == '+' { 1 } else { 0 };
    let ghost digits = s@.skip(start as int);
    assert(start == 0 ==> digits =~= s@);
    if start >= s.len() {
        return None;
    }
    let mut value: u64 = 0;
    assert(digits.take(0) =~= Seq::<char>::empty());
    for i in start..s.len()
        invariant
            start <= s@.len(),
            digits == s@.skip(start as int),
            digits == (if s@.len() > 0 && s@[0] == '+' {
                s@.skip(1)
            } else {
                s@
            }),
            digits.len() == s@.len() - start,
            value == decimal(digits.take(i - start)),
            value <= max,
            forall|j: int| 0 <= j < i - start ==> digit(#[trigger] digits[j]),
    {
        let c: char = s[i];
        let ghost n = i - start;
        assert(digits[n] == c);
        if !('0' <= c && c <= '9') {
            return None;
        }
        let d: u64 = (c as u32 - '0' as u32) as u64;
        assert(digits.take(n + 1).drop_last() =~= digits.take(n));
        assert(decimal(digits.take(n + 1)) == value * 10 + d);
        if value > (u64::MAX - d) / 10 || value * 10 + d > max {
            proof {
                if all_digits(digits) {
                    lemma_decimal_grows(digits, n + 1);
                }
            }
            return None;
        }
        value = value * 10 + d;
    }
    assert(digits.take(digits.len() as int) =~= digits);
    Some(value)
}

/// A word is as long in a longer text, as long as it ends in the shorter one or
/// white space follows.
proof fn lemma_word_len_before_white_space(a: Seq<char>, c: char, b: Seq<char>)
    requires
        white_space(c),
    ensures
        word_len(a + seq![c] + b) == word_len(a),
    decreases a.len(),
{
    let s = a + seq![c] + b;
    if a.len() == 0 {
        assert(s[0] == c);
    } else {
        assert(s[0] == a[0]);
        assert(s.skip(1) =~= a.skip(1) + seq![c] + b);
        lemma_word_len_before_white_space(a.skip(1), c, b);
    }
}

/// Law: white space between two texts separates their words, and adds none.
pub proof fn law_white_space_separates_words(a: Seq<char>, c: char, b: Seq<char>)
    requires
        white_space(c),
    ensures
        words(a + seq![c] + b) == words(a) + words(b),
    decreases a.len(),
{
    let s = a + seq![c] + b;
    if a.len() == 0 {
        assert(s[0] == c);
        assert(s.skip(1) =~= b);
        assert(words(a) + words(b) =~= words(b));
    } else if white_space(a[0]) {
        assert(s[0] == a[0]);
        assert(s.skip(1) =~= a.skip(1) + seq![c] + b);
        law_white_space_separates_words(a.skip(1), c, b);
    } else {
        let n = word_len(a) as int;
        assert(s[0] == a[0]);
        lemma_word_len(a);
        lemma_word_len(s);
        lemma_word_len_before_white_space(a, c, b);
        assert(s.take(n) =~= a.take(n));
        assert(s.skip(n) =~= a.skip(n) + seq![c] + b);
        law_white_space_separates_words(a.skip(n), c, b);
        assert(seq![a.take(n)] + (words(a.skip(n)) + words(b)) =~= (seq![a.take(n)] + words(
            a.skip(n),
        )) + words(b));
    }
}

/// Law: a text without white space is one word, and the empty text has none.
pub proof fn law_text_without_white_space_is_one_word(s: Seq<char>)
    requires
        forall|i: int| 0 <= i < s.len() ==> !white_space(#[trigger] s[i]),
    ensures
        words(s) == (if s.len() == 0 {
            Seq::<Seq<char>>::empty()
        } else {
            seq![s]
        }),
{
    lemma_whole_word_len(s);
    if s.len() > 0 {
        assert(s.take(s.len() as int) =~= s);
        assert(!white_space(s[0]));
        assert(s.skip(s.len() as int) =~= Seq::<char>::empty());
        assert(words(s.skip(s.len() as int)) =~= Seq::<Seq<char>>::empty());
        assert(seq![s] + words(s.skip(s.len() as int)) =~= seq![s]);
    }
}

/// Without white space the first word is the whole text.
proof fn lemma_whole_word_len(s: Seq<char>)
    requires
        forall|i: int| 0 <= i < s.len() ==> !white_space(#[trigger] s[i]),
    ensures
        word_len(s) == s.len(),
    decreases s.len(),
{
    if s.len() > 0 {
        lemma_whole_word_len(s.skip(1));
    }
}

/// The first line ends before the first line feed.
proof fn lemma_line_len_before_feed(a: Seq<char>, b: Seq<char>)
    requires
        forall|i: int| 0 <= i < a.len() ==> #[trigger] a[i] != '\n',
    ensures
        line_len(a + b) == a.len() + line_len(b),
    decreases a.len(),
{
    if a.len() == 0 {
        assert(a + b =~= b);
    } else {
        assert((a + b)[0] == a[0]);
        assert((a + b).skip(1) =~= a.skip(1) + b);
        lemma_line_len_before_feed(a.skip(1), b);
    }
}

/// Law: a line feed ends a line, and takes the carriage return before it along;
/// the lines behind it are those of the rest.
pub proof fn law_line_feed_ends_a_line(a: Seq<char>, b: Seq<char>)
    requires
        forall|i: int| 0 <= i < a.len() ==> #[trigger] a[i] != '\n',
    ensures
        lines(a + seq!['\n'] + b) == seq![
            if a.len() > 0 && a[a.len() - 1] == '\r' {
                a.take(a.len() - 1)
            } else {
                a
            },
        ] + lines(b),
{
    let s = a + seq!['\n'] + b;
    let n = a.len() as int;
    assert(s =~= a + (seq!['\n'] + b));
    assert((seq!['\n'] + b)[0] == '\n');
    lemma_line_len_before_feed(a, seq!['\n'] + b);
    assert(s.take(n) =~= a);
    assert(s.skip(n + 1) =~= b);
    if a.len() > 0 && a.last() == '\r' {
        assert(a.drop_last() =~= a.take(n - 1));
    }
}

/// Law: a text without a line feed is one line as it stands, and the empty text
/// has none.
pub proof fn law_text_without_line_feed_is_one_line(s: Seq<char>)
    requires
        forall|i: int| 0 <= i < s.len() ==> #[trigger] s[i] != '\n',
    ensures
        lines(s) == (if s.len() == 0 {
            Seq::<Seq<char>>::empty()
        } else {
            seq![s]
        }),
{
    lemma_line_len_before_feed(s, Seq::empty());
    assert(s + Seq::<char>::empty() =~= s);
}

/// White space before a text does not count.
proof fn lemma_trimmed_start(a: Seq<char>, s: Seq<char>)
    requires
        forall|i: int| 0 <= i < a.len() ==> white_space(#[trigger] a[i]),
        s.len() > 0 ==> !white_space(s[0]),
    ensures
        trimmed_start(a + s) == s,
    decreases a.len(),
{
    if a.len() == 0 {
        assert(a + s =~= s);
    } else {
        assert((a + s)[0] == a[0]);
        assert((a + s).skip(1) =~= a.skip(1) + s);
        lemma_trimmed_start(a.skip(1), s);
    }
}

/// White space behind a text does not count.
proof fn lemma_trimmed_end(s: Seq<char>, b: Seq<char>)
    requires
        forall|i: int| 0 <= i < b.len() ==> white_space(#[trigger] b[i]),
        s.len() > 0 ==> !white_space(s[s.len() - 1]),
    ensures
        trimmed_end(s + b) == s,
    decreases b.len(),
{
    if b.len() == 0 {
        assert(s + b =~= s);
    } else {
        assert((s + b).last() == b[b.len() - 1]);
        assert((s + b).drop_last() =~= s + b.drop_last());
        lemma_trimmed_end(s, b.drop_last());
    }
}

/// Law: trimming takes off the white space on both sides, all of it and nothing
/// else.
pub proof fn law_trimming_leaves_the_middle(a: Seq<char>, middle: Seq<char>, b: Seq<char>)
    requires
        forall|i: int| 0 <= i < a.len() ==> white_space(#[trigger] a[i]),
        forall|i: int| 0 <= i < b.len() ==> white_space(#[trigger] b[i]),
        middle.len() > 0 ==> !white_space(middle[0]) && !white_space(middle[middle.len() - 1]),
    ensures
        trimmed(a + middle + b) == middle,
{
    if middle.len() == 0 {
        let s = a + middle + b;
        assert forall|i: int| 0 <= i < s.len() implies white_space(#[trigger] s[i]) by {
            if i < a.len() {
                assert(s[i] == a[i]);
            } else {
                assert(s[i] == b[i - a.len()]);
            }
        }
        lemma_trimmed_start(s, middle);
        assert(s + middle =~= s);
        assert(trimmed_end(middle) == middle);
    } else {
        assert(a + middle + b =~= a + (middle + b));
        assert((middle + b)[0] == middle[0]);
        lemma_trimmed_start(a, middle + b);
        lemma_trimmed_end(middle, b);
    }
}

/// Law: nothing is left of a text once it is trimmed only if it is white space
/// throughout.
pub proof fn law_empty_when_trimmed(s: Seq<char>)
    requires
        trimmed(s).len() == 0,
    ensures
        forall|i: int| 0 <= i < s.len() ==> white_space(#[trigger] s[i]),
    decreases s.len(),
{
    if s.len() > 0 {
        if white_space(s[0]) {
            law_empty_when_trimmed(s.skip(1));
            assert forall|i: int| 0 <= i < s.len() implies white_space(#[trigger] s[i]) by {
                if i > 0 {
                    assert(s.skip(1)[i - 1] == s[i]);
                }
            }
        } else {
            lemma_trimmed_end_keeps_front(s);
        }
    }
}

/// Trimming the end leaves a text that starts with something else.
proof fn lemma_trimmed_end_keeps_front(s: Seq<char>)
    requires
        s.len() > 0,
        !white_space(s[0]),
    ensures
        trimmed_end(s).len() > 0,
    decreases s.len(),
{
    if white_space(s.last()) {
        lemma_trimmed_end_keeps_front(s.drop_last());
    }
}

/// Law: a text begins with exactly those texts that it continues.
pub proof fn law_text_begins_with_what_it_continues(
    s: Seq<char>,
    prefix: Seq<char>,
    rest: Seq<char>,
)
    ensures
        begins_with(prefix + rest, prefix),
        begins_with(s, prefix) ==> s == prefix + s.skip(prefix.len() as int),
{
    assert((prefix + rest).take(prefix.len() as int) =~= prefix);
    if begins_with(s, prefix) {
        assert(s =~= s.take(prefix.len() as int) + s.skip(prefix.len() as int));
    }
}

/// Law: the number in one character is that digit's, with or without a plus sign
/// before it; no text and a lone plus sign are no numbers.
pub proof fn law_number_in_one_digit(c: char, max: nat)
    ensures
        number(seq![c], max) == (if '0' <= c <= '9' && c as u32 - '0' as u32 <= max {
            Some((c as u32 - '0' as u32) as nat)
        } else {
            None
        }),
        number(seq!['+', c], max) == number(if c == '+' {
            seq![]
        } else {
            seq![c]
        }, max),
        number(seq![], max) is None,
{
    let one = seq![c];
    let signed = seq!['+', c];
    assert(one.drop_last() =~= Seq::<char>::empty());
    assert(decimal(one) == decimal(one.drop_last()) * 10 + (c as u32 - '0' as u32) as nat);
    assert(signed.skip(1) =~= one);
    assert(one.skip(1) =~= Seq::<char>::empty());
    assert(one[0] == c);
    if c == '+' {
        assert(!digit(one[0]));
    }
}

/// Law: one character more makes ten times the number and the digit, if it is a
/// digit and the result is not too large; what is no number, or is too large,
/// does not become one.
pub proof fn law_number_with_one_digit_more(s: Seq<char>, c: char, max: nat)
    requires
        s.len() > 0,
        s != seq!['+'],
    ensures
        number(s.push(c), max) == (match number(s, max) {
            Some(n) => if '0' <= c <= '9' && n * 10 + (c as u32 - '0' as u32) <= max {
                Some((n * 10 + (c as u32 - '0' as u32)) as nat)
            } else {
                None
            },
            None => None,
        }),
{
    let signed = s[0] == '+';
    let digits = if signed {
        s.skip(1)
    } else {
        s
    };
    let more = digits.push(c);
    if signed {
        if s.len() == 1 {
            assert(s =~= seq!['+']);
        }
        assert(s.push(c).skip(1) =~= more);
    }
    assert(s.push(c)[0] == s[0]);
    assert(more.drop_last() =~= digits);
    assert(more[more.len() - 1] == c);
    if all_digits(more) {
        assert forall|i: int| 0 <= i < digits.len() implies digit(#[trigger] digits[i]) by {
            assert(more[i] == digits[i]);
        }
    }
    if all_digits(digits) && digit(c) {
        assert forall|i: int| 0 <= i < more.len() implies digit(#[trigger] more[i]) by {
            if i < digits.len() {
                assert(more[i] == digits[i]);
            }
        }
    }
}

} // verus!
