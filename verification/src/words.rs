//! Whitespace, and what lies between it.
use crate::text::chars_of;
use vstd::prelude::*;

verus! {

/// Unicode's `White_Space` property.
pub open spec fn is_white_space(c: char) -> bool {
    let n = c as u32;
    ||| 0x9 <= n <= 0xd
    ||| n == 0x20
    ||| n == 0x85
    ||| n == 0xa0
    ||| n == 0x1680
    ||| 0x2000 <= n <= 0x200a
    ||| 0x2028 <= n <= 0x2029
    ||| n == 0x202f
    ||| n == 0x205f
    ||| n == 0x3000
}

/// A word, if it is one.
pub open spec fn nonempty(word: Seq<char>) -> Seq<Seq<char>> {
    if word.len() == 0 {
        seq![]
    } else {
        seq![word]
    }
}

/// The words from `i` on, behind the beginning of a word.
pub open spec fn words_from(s: Seq<char>, i: int, begun: Seq<char>) -> Seq<Seq<char>>
    decreases s.len() - i,
{
    if i >= s.len() {
        nonempty(begun)
    } else if is_white_space(s[i]) {
        nonempty(begun) + words_from(s, i + 1, seq![])
    } else {
        words_from(s, i + 1, begun.push(s[i]))
    }
}

/// The words of a text: what whitespace separates.
pub open spec fn words(s: Seq<char>) -> Seq<Seq<char>> {
    words_from(s, 0, seq![])
}

/// A text without whitespace in front.
pub open spec fn trimmed_start(s: Seq<char>) -> Seq<char>
    decreases s.len(),
{
    if s.len() > 0 && is_white_space(s[0]) {
        trimmed_start(s.skip(1))
    } else {
        s
    }
}

/// A text without whitespace behind.
pub open spec fn trimmed_end(s: Seq<char>) -> Seq<char>
    decreases s.len(),
{
    if s.len() > 0 && is_white_space(s.last()) {
        trimmed_end(s.drop_last())
    } else {
        s
    }
}

/// A text without whitespace on either side.
pub open spec fn trimmed(s: Seq<char>) -> Seq<char> {
    trimmed_end(trimmed_start(s))
}

/// The first place, from `i` on, where a text holds another one.
pub open spec fn place_of(s: Seq<char>, sought: Seq<char>, i: int) -> Option<int>
    decreases s.len() + 1 - i,
{
    if i < 0 || i + sought.len() > s.len() {
        None
    } else if s.subrange(i, i + sought.len()) == sought {
        Some(i)
    } else {
        place_of(s, sought, i + 1)
    }
}

/// What lies in front of a separator, and what behind it.
pub open spec fn split_at_first(s: Seq<char>, separator: Seq<char>) -> Option<(Seq<char>, Seq<char>)> {
    match place_of(s, separator, 0) {
        Some(i) => Some((s.take(i), s.skip(i + separator.len()))),
        None => None,
    }
}

/// Whether a character is whitespace.
pub fn white_space(c: char) -> (b: bool)
    ensures
        b == is_white_space(c),
{
    let n: u32 = c as u32;
    (0x9 <= n && n <= 0xd) || n == 0x20 || n == 0x85 || n == 0xa0 || n == 0x1680 || (0x2000 <= n && n
        <= 0x200a) || (0x2028 <= n && n <= 0x2029) || n == 0x202f || n == 0x205f || n == 0x3000
}

/// Some characters as a string.
pub fn string_of(chars: &Vec<char>, from: usize, to: usize) -> (s: String)
    requires
        from <= to <= chars@.len(),
    ensures
        s@ == chars@.subrange(from as int, to as int),
{
    let mut s: String = String::new();
    let mut i: usize = from;
    assert(s@ =~= chars@.subrange(from as int, i as int));
    while i < to
        invariant
            from <= i <= to <= chars@.len(),
            s@ == chars@.subrange(from as int, i as int),
        decreases to - i,
    {
        s.push(chars[i]);
        i = i + 1;
        assert(s@ =~= chars@.subrange(from as int, i as int));
    }
    s
}

/// The words of a text.
pub fn split_white_space(s: &str) -> (r: Vec<String>)
    ensures
        r.deep_view() == words(s@),
{
    let chars: Vec<char> = chars_of(s);
    let mut r: Vec<String> = Vec::new();
    let mut word: String = String::new();
    let mut open: bool = false;
    let mut i: usize = 0;
    assert(r.deep_view() + words_from(s@, 0, word@) =~= words(s@));
    while i < chars.len()
        invariant
            i <= chars@.len(),
            chars@ == s@,
            open == (word@.len() > 0),
            r.deep_view() + words_from(s@, i as int, word@) == words(s@),
        decreases chars@.len() - i,
    {
        let ghost before = r.deep_view();
        let ghost begun = word@;
        let c: char = chars[i];
        if white_space(c) {
            let ghost rest = words_from(s@, i + 1, seq![]);
            if open {
                r.push(word);
                assert(r.deep_view() =~= before.push(begun));
                assert(before + (seq![begun] + rest) =~= before.push(begun) + rest);
            } else {
                assert(before + (Seq::<Seq<char>>::empty() + rest) =~= before + rest);
            }
            word = String::new();
            assert(word@ =~= seq![]);
            open = false;
        } else {
            word.push(c);
            open = true;
        }
        i = i + 1;
    }
    let ghost before = r.deep_view();
    let ghost begun = word@;
    if open {
        r.push(word);
        assert(r.deep_view() =~= before + nonempty(begun));
    } else {
        assert(r.deep_view() =~= before + nonempty(begun));
    }
    r
}

/// The text without whitespace on either side.
pub fn trim(s: &str) -> (r: String)
    ensures
        r@ == trimmed(s@),
{
    let chars: Vec<char> = chars_of(s);
    let mut from: usize = 0;
    assert(s@.skip(0) =~= s@);
    while from < chars.len() && white_space(chars[from])
        invariant
            from <= chars@.len(),
            chars@ == s@,
            trimmed_start(s@) == trimmed_start(s@.skip(from as int)),
        decreases chars@.len() - from,
    {
        assert(s@.skip(from as int).skip(1) =~= s@.skip(from + 1));
        from = from + 1;
    }
    let ghost rest = s@.skip(from as int);
    assert(trimmed_start(s@) == rest);
    let mut to: usize = chars.len();
    assert(s@.subrange(from as int, to as int) =~= rest);
    while to > from && white_space(chars[to - 1])
        invariant
            from <= to <= chars@.len(),
            chars@ == s@,
            trimmed_end(rest) == trimmed_end(s@.subrange(from as int, to as int)),
        decreases to,
    {
        assert(s@.subrange(from as int, to as int).drop_last() =~= s@.subrange(
            from as int,
            to - 1,
        ));
        to = to - 1;
    }
    string_of(&chars, from, to)
}

fn is_at(chars: &Vec<char>, i: usize, sought: &Vec<char>) -> (b: bool)
    requires
        i + sought@.len() <= chars@.len(),
    ensures
        b == (chars@.subrange(i as int, i + sought@.len()) == sought@),
{
    let n: usize = chars.len();
    let mut k: usize = 0;
    while k < sought.len()
        invariant
            k <= sought@.len(),
            n == chars@.len(),
            i + sought@.len() <= n,
            forall|j: int| 0 <= j < k ==> chars@[i + j] == sought@[j],
        decreases sought@.len() - k,
    {
        if chars[i + k] != sought[k] {
            assert(chars@.subrange(i as int, i + sought@.len())[k as int] != sought@[k as int]);
            return false;
        }
        k = k + 1;
    }
    assert(chars@.subrange(i as int, i + sought@.len()) =~= sought@);
    true
}

/// What lies in front of the first separator, and what behind it.
pub fn split_once(s: &str, separator: &str) -> (r: Option<(String, String)>)
    ensures
        match r {
            Some((a, b)) => split_at_first(s@, separator@) == Some((a@, b@)),
            None => split_at_first(s@, separator@) is None,
        },
{
    let chars: Vec<char> = chars_of(s);
    let sought: Vec<char> = chars_of(separator);
    let mut i: usize = 0;
    while i < chars.len() && sought.len() <= chars.len() - i
        invariant
            i <= chars@.len(),
            chars@ == s@,
            sought@ == separator@,
            place_of(s@, separator@, 0) == place_of(s@, separator@, i as int),
        decreases chars@.len() - i,
    {
        if is_at(&chars, i, &sought) {
            let a: String = string_of(&chars, 0, i);
            let b: String = string_of(&chars, i + sought.len(), chars.len());
            assert(a@ =~= s@.take(i as int));
            assert(b@ =~= s@.skip(i + separator@.len()));
            return Some((a, b));
        }
        i = i + 1;
    }
    if sought.len() == 0 {
        let a: String = string_of(&chars, 0, i);
        let b: String = string_of(&chars, i, chars.len());
        assert(s@.subrange(i as int, i as int) =~= separator@);
        assert(a@ =~= s@.take(i as int));
        assert(b@ =~= s@.skip(i as int));
        return Some((a, b));
    }
    None
}

proof fn lemma_trimmed_start(s: Seq<char>) -> (front: Seq<char>)
    ensures
        s == front + trimmed_start(s),
        forall|i: int| 0 <= i < front.len() ==> is_white_space(#[trigger] front[i]),
        trimmed_start(s).len() > 0 ==> !is_white_space(trimmed_start(s)[0]),
    decreases s.len(),
{
    if s.len() > 0 && is_white_space(s[0]) {
        let rest = lemma_trimmed_start(s.skip(1));
        assert(s =~= seq![s[0]] + s.skip(1));
        assert(s =~= seq![s[0]] + rest + trimmed_start(s));
        seq![s[0]] + rest
    } else {
        assert(s =~= Seq::<char>::empty() + s);
        Seq::empty()
    }
}

proof fn lemma_trimmed_end(s: Seq<char>) -> (back: Seq<char>)
    ensures
        s == trimmed_end(s) + back,
        forall|i: int| 0 <= i < back.len() ==> is_white_space(#[trigger] back[i]),
        trimmed_end(s).len() > 0 ==> !is_white_space(trimmed_end(s).last()),
    decreases s.len(),
{
    if s.len() > 0 && is_white_space(s.last()) {
        let rest = lemma_trimmed_end(s.drop_last());
        assert(s =~= s.drop_last().push(s.last()));
        assert(s =~= trimmed_end(s) + rest.push(s.last()));
        rest.push(s.last())
    } else {
        assert(s =~= s + Seq::<char>::empty());
        Seq::empty()
    }
}

/// All whitespace.
pub open spec fn is_blank(s: Seq<char>) -> bool {
    forall|i: int| 0 <= i < s.len() ==> is_white_space(#[trigger] s[i])
}

/// Trimming takes whitespace away, on either side, all that there is, and nothing else.
pub proof fn trimming_takes_whitespace_only(s: Seq<char>)
    ensures
        exists|front: Seq<char>, back: Seq<char>|
            s == #[trigger] (front + trimmed(s) + back) && is_blank(front) && is_blank(back),
        trimmed(s).len() > 0 ==> !is_white_space(trimmed(s)[0]) && !is_white_space(
            trimmed(s).last(),
        ),
{
    let front = lemma_trimmed_start(s);
    let t = trimmed_start(s);
    let back = lemma_trimmed_end(t);
    assert(s =~= front + trimmed(s) + back);
    if trimmed(s).len() > 0 {
        assert(trimmed(s)[0] == t[0]);
    }
}

/// What is in front of a separator, the separator, and what is behind make up the text again,
/// and the separator is nowhere earlier. Without a separator, there is no split.
pub proof fn splits_are_at_the_first_separator(s: Seq<char>, separator: Seq<char>, i: int)
    requires
        0 <= i,
        i + separator.len() <= s.len(),
    ensures
        split_at_first(s, separator) matches Some((a, b)) ==> s == a + separator + b && (s.subrange(
            i,
            i + separator.len(),
        ) == separator ==> a.len() <= i),
        split_at_first(s, separator) is None ==> s.subrange(i, i + separator.len()) != separator,
{
    lemma_place_of(s, separator, 0, i);
    if let Some(p) = place_of(s, separator, 0) {
        assert(s =~= s.take(p) + separator + s.skip(p + separator.len())) by {
            assert(s.subrange(p, p + separator.len()) == separator);
            assert forall|k: int| p <= k < p + separator.len() implies s[k] == separator[k - p] by {
                assert(s.subrange(p, p + separator.len())[k - p] == separator[k - p]);
            }
        }
    }
}

proof fn lemma_place_of(s: Seq<char>, sought: Seq<char>, from: int, i: int)
    requires
        0 <= from,
    ensures
        place_of(s, sought, from) matches Some(p) ==> from <= p && p + sought.len() <= s.len()
            && s.subrange(p, p + sought.len()) == sought,
        from <= i && i + sought.len() <= s.len() && s.subrange(i, i + sought.len()) == sought
            ==> place_of(s, sought, from) is Some && place_of(s, sought, from)->Some_0 <= i,
    decreases s.len() + 1 - from,
{
    if from + sought.len() <= s.len() && s.subrange(from, from + sought.len()) != sought {
        lemma_place_of(s, sought, from + 1, i);
    }
}

/// The characters of some words, one word after the other.
pub open spec fn run_together(w: Seq<Seq<char>>) -> Seq<char>
    decreases w.len(),
{
    if w.len() == 0 {
        seq![]
    } else {
        w[0] + run_together(w.skip(1))
    }
}

/// Words are what whitespace separates: there is something in each, and no whitespace; and
/// nothing but whitespace is lost.
pub proof fn words_lose_whitespace_only(s: Seq<char>)
    ensures
        run_together(words(s)) == s.filter(|c: char| !is_white_space(c)),
        forall|k: int|
            0 <= k < words(s).len() ==> (#[trigger] words(s)[k]).len() > 0 && words(s)[k].filter(
                |c: char| !is_white_space(c),
            ) == words(s)[k],
{
    let visible = |c: char| !is_white_space(c);
    let none = Seq::<char>::empty();
    reveal(Seq::filter);
    assert(none.filter(visible) =~= none);
    lemma_words_from(s, 0, none);
    assert(s.skip(0) =~= s);
    assert(none + s.filter(visible) =~= s.filter(visible));
}

proof fn lemma_filter_first(s: Seq<char>)
    requires
        s.len() > 0,
    ensures
        ({
            let visible = |c: char| !is_white_space(c);
            s.filter(visible) == (if visible(s[0]) {
                seq![s[0]]
            } else {
                seq![]
            }) + s.skip(1).filter(visible)
        }),
{
    let visible = |c: char| !is_white_space(c);
    reveal_with_fuel(Seq::filter, 2);
    assert(s =~= seq![s[0]] + s.skip(1));
    Seq::filter_distributes_over_add(seq![s[0]], s.skip(1), visible);
    assert(seq![s[0]].drop_last() =~= seq![]);
    assert(seq![s[0]].filter(visible) =~= if visible(s[0]) {
        seq![s[0]]
    } else {
        seq![]
    });
}

proof fn lemma_words_from(s: Seq<char>, i: int, begun: Seq<char>)
    requires
        0 <= i <= s.len(),
        begun.filter(|c: char| !is_white_space(c)) == begun,
    ensures
        run_together(words_from(s, i, begun)) == begun + s.skip(i).filter(
            |c: char| !is_white_space(c),
        ),
        forall|k: int|
            0 <= k < words_from(s, i, begun).len() ==> (#[trigger] words_from(s, i, begun)[k]).len()
                > 0 && words_from(s, i, begun)[k].filter(|c: char| !is_white_space(c))
                == words_from(s, i, begun)[k],
    decreases s.len() - i,
{
    let visible = |c: char| !is_white_space(c);
    let w = words_from(s, i, begun);
    let none = Seq::<char>::empty();
    reveal_with_fuel(run_together, 2);
    if i >= s.len() {
        reveal(Seq::filter);
        assert(s.skip(i) =~= none);
        assert(none.filter(visible) =~= none);
        if begun.len() > 0 {
            assert(w.skip(1) =~= seq![]);
            assert(run_together(w) =~= begun);
        } else {
            assert(begun =~= none);
        }
        assert(begun + none =~= begun);
    } else {
        let rest = s.skip(i);
        lemma_filter_first(rest);
        assert(rest.skip(1) =~= s.skip(i + 1));
        assert(rest[0] == s[i]);
        if is_white_space(s[i]) {
            assert(none.filter(visible) =~= none) by {
                reveal(Seq::filter);
            }
            lemma_words_from(s, i + 1, none);
            let later = words_from(s, i + 1, none);
            assert(none + s.skip(i + 1).filter(visible) =~= s.skip(i + 1).filter(visible));
            assert(none + rest.skip(1).filter(visible) =~= rest.filter(visible));
            if begun.len() > 0 {
                assert(w =~= seq![begun] + later);
                assert(w.skip(1) =~= later);
                assert(run_together(w) =~= begun + run_together(later));
                assert forall|k: int| 0 <= k < w.len() implies (#[trigger] w[k]).len() > 0
                    && w[k].filter(visible) == w[k] by {
                    if k > 0 {
                        assert(w[k] == later[k - 1]);
                    }
                }
            } else {
                assert(w =~= later);
                assert(begun =~= none);
            }
        } else {
            let longer = begun.push(s[i]);
            assert(longer.filter(visible) == longer) by {
                reveal(Seq::filter);
                assert(longer.drop_last() =~= begun);
            }
            lemma_words_from(s, i + 1, longer);
            assert(longer + s.skip(i + 1).filter(visible) =~= begun + rest.filter(visible));
        }
    }
}

proof fn lemma_words_apart(a: Seq<char>, c: char, b: Seq<char>, i: int, begun: Seq<char>)
    requires
        0 <= i <= a.len(),
        is_white_space(c),
    ensures
        words_from(a + seq![c] + b, i, begun) == words_from(a, i, begun) + words_from(
            b,
            0,
            seq![],
        ),
    decreases a.len() - i,
{
    let s = a + seq![c] + b;
    let behind = words_from(b, 0, seq![]);
    if i == a.len() {
        assert(s[i] == c);
        lemma_words_behind(s, b, i + 1, 0, seq![]);
    } else {
        assert(s[i] == a[i]);
        if is_white_space(a[i]) {
            lemma_words_apart(a, c, b, i + 1, seq![]);
            let rest = words_from(a, i + 1, seq![]);
            assert(nonempty(begun) + (rest + behind) =~= nonempty(begun) + rest + behind);
        } else {
            lemma_words_apart(a, c, b, i + 1, begun.push(a[i]));
        }
    }
}

proof fn lemma_words_behind(s: Seq<char>, b: Seq<char>, from: int, i: int, begun: Seq<char>)
    requires
        0 <= from,
        s.len() == from + b.len(),
        forall|k: int| 0 <= k < b.len() ==> s[from + k] == #[trigger] b[k],
        0 <= i <= b.len(),
    ensures
        words_from(s, from + i, begun) == words_from(b, i, begun),
    decreases b.len() - i,
{
    if i < b.len() {
        assert(s[from + i] == b[i]);
        if is_white_space(b[i]) {
            lemma_words_behind(s, b, from, i + 1, seq![]);
        } else {
            lemma_words_behind(s, b, from, i + 1, begun.push(b[i]));
        }
    }
}

/// Whitespace separates words, and nothing else does.
pub proof fn whitespace_separates_words(a: Seq<char>, c: char, b: Seq<char>)
    ensures
        is_white_space(c) ==> words(a + seq![c] + b) == words(a) + words(b),
        a.len() > 0 && (forall|i: int| 0 <= i < a.len() ==> !is_white_space(#[trigger] a[i]))
            ==> words(a) == seq![a],
{
    if is_white_space(c) {
        lemma_words_apart(a, c, b, 0, seq![]);
    }
    if a.len() > 0 && (forall|i: int| 0 <= i < a.len() ==> !is_white_space(#[trigger] a[i])) {
        assert(a.take(0) =~= seq![]);
        lemma_one_word(a, 0, seq![]);
    }
}

proof fn lemma_one_word(a: Seq<char>, i: int, begun: Seq<char>)
    requires
        0 <= i <= a.len(),
        a.len() > 0,
        begun == a.take(i),
        forall|k: int| 0 <= k < a.len() ==> !is_white_space(#[trigger] a[k]),
    ensures
        words_from(a, i, begun) == seq![a],
    decreases a.len() - i,
{
    if i < a.len() {
        assert(begun.push(a[i]) =~= a.take(i + 1));
        lemma_one_word(a, i + 1, begun.push(a[i]));
    } else {
        assert(a.take(i) =~= a);
    }
}

/// Whitespace is what Unicode says it is: of ASCII, the space and what controls the line; else, the
/// next line, the spaces that do not break, of any width or of Ogham, and what separates lines and
/// paragraphs.
pub proof fn white_space_is_what_unicode_says(c: char)
    ensures
        c <= '\u{7f}' ==> (is_white_space(c) <==> c == ' ' || c == '\t' || c == '\n' || c == '\u{b}'
            || c == '\u{c}' || c == '\r'),
        '\u{7f}' < c <= '\u{ff}' ==> (is_white_space(c) <==> c == '\u{85}' || c == '\u{a0}'),
        c > '\u{ff}' ==> (is_white_space(c) <==> c == '\u{1680}' || '\u{2000}' <= c <= '\u{200a}' || c
            == '\u{2028}' || c == '\u{2029}' || c == '\u{202f}' || c == '\u{205f}' || c == '\u{3000}'),
{
}

} // verus!
