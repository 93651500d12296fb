//! Character sequences: whitespace, trimming, searching and splitting.
//!
//! Every executable function here reads a `&str` through its characters and
//! is specified over `Seq<char>`.

use vstd::prelude::*;

verus! {

/// Whether `c` has the Unicode `White_Space` property.
pub uninterp spec fn is_space(c: char) -> bool;

/// `char::is_whitespace` answers whether the character has the `White_Space`
/// property; `is_space` is the name under which contracts speak of that answer.
pub assume_specification[ char::is_whitespace ](c: char) -> (r: bool)
    ensures
        r == is_space(c),
;

/// `String::push` appends the given character to the end of the string.
pub assume_specification[ String::push ](s: &mut String, ch: char)
    ensures
        final(s)@ == old(s)@.push(ch),
;

/// Number of whitespace characters at the front of `s`.
pub open spec fn leading_spaces(s: Seq<char>) -> nat
    decreases s.len(),
{
    if s.len() > 0 && is_space(s[0]) {
        1 + leading_spaces(s.drop_first())
    } else {
        0
    }
}

/// Number of whitespace characters at the back of `s`.
pub open spec fn trailing_spaces(s: Seq<char>) -> nat
    decreases s.len(),
{
    if s.len() > 0 && is_space(s.last()) {
        1 + trailing_spaces(s.drop_last())
    } else {
        0
    }
}

/// `s` without its leading whitespace.
pub open spec fn trim_start(s: Seq<char>) -> Seq<char> {
    s.skip(leading_spaces(s) as int)
}

/// `s` without its trailing whitespace.
pub open spec fn trim_end(s: Seq<char>) -> Seq<char> {
    s.take(s.len() - trailing_spaces(s))
}

/// `s` without leading and trailing whitespace.
pub open spec fn trimmed(s: Seq<char>) -> Seq<char> {
    trim_end(trim_start(s))
}

/// Index of the first occurrence of `c` in `s`, or `s.len()` if there is none.
pub open spec fn position(s: Seq<char>, c: char) -> nat
    decreases s.len(),
{
    if s.len() == 0 || s[0] == c {
        0
    } else {
        1 + position(s.drop_first(), c)
    }
}

/// The pieces of `s` between occurrences of `sep`. There is always at least
/// one piece; an empty `s` has the single empty piece.
pub open spec fn split_on(s: Seq<char>, sep: char) -> Seq<Seq<char>>
    decreases s.len(),
{
    let i = position(s, sep) as int;
    if i >= s.len() {
        seq![s]
    } else {
        seq![s.take(i)] + split_on(s.skip(i + 1), sep)
    }
}

/// The character sequences of a sequence of strings.
pub open spec fn texts(v: Seq<String>) -> Seq<Seq<char>> {
    v.map_values(|s: String| s@)
}

/// `n` whitespace characters followed by a non-whitespace character, or by
/// the end of `s`, are exactly the leading whitespace of `s`.
pub proof fn lemma_leading_spaces(s: Seq<char>, n: int)
    requires
        0 <= n <= s.len(),
        forall|j: int| 0 <= j < n ==> is_space(#[trigger] s[j]),
        n == s.len() || !is_space(s[n]),
    ensures
        leading_spaces(s) == n,
    decreases n,
{
    if n > 0 {
        let rest = s.drop_first();
        assert forall|j: int| 0 <= j < n - 1 implies is_space(#[trigger] rest[j]) by {
            assert(rest[j] == s[j + 1]);
        }
        lemma_leading_spaces(rest, n - 1);
    }
}

/// `n` whitespace characters preceded by a non-whitespace character, or by
/// the start of `s`, are exactly the trailing whitespace of `s`.
pub proof fn lemma_trailing_spaces(s: Seq<char>, n: int)
    requires
        0 <= n <= s.len(),
        forall|j: int| s.len() - n <= j < s.len() ==> is_space(#[trigger] s[j]),
        n == s.len() || !is_space(s[s.len() - n - 1]),
    ensures
        trailing_spaces(s) == n,
    decreases n,
{
    if n > 0 {
        let rest = s.drop_last();
        assert forall|j: int| rest.len() - (n - 1) <= j < rest.len() implies is_space(
            #[trigger] rest[j],
        ) by {
            assert(rest[j] == s[j]);
        }
        lemma_trailing_spaces(rest, n - 1);
    }
}

/// The first `n` characters differ from `c`, and the next one is `c` or the
/// end of `s`: then `n` is the position of `c`.
pub proof fn lemma_position(s: Seq<char>, c: char, n: int)
    requires
        0 <= n <= s.len(),
        forall|j: int| 0 <= j < n ==> #[trigger] s[j] != c,
        n == s.len() || s[n] == c,
    ensures
        position(s, c) == n,
    decreases n,
{
    if n > 0 {
        let rest = s.drop_first();
        assert forall|j: int| 0 <= j < n - 1 implies #[trigger] rest[j] != c by {
            assert(rest[j] == s[j + 1]);
        }
        lemma_position(rest, c, n - 1);
    }
}

/// What `position` returns: a bound, with no `c` before it and `c` at it.
pub proof fn lemma_position_is_first(s: Seq<char>, c: char)
    ensures
        position(s, c) <= s.len(),
        forall|j: int| 0 <= j < position(s, c) ==> #[trigger] s[j] != c,
        position(s, c) < s.len() ==> s[position(s, c) as int] == c,
        position(s, c) < s.len() <==> s.contains(c),
    decreases s.len(),
{
    if s.len() == 0 || s[0] == c {
        if s.len() > 0 {
            assert(s.contains(c));
        }
    } else {
        let rest = s.drop_first();
        lemma_position_is_first(rest, c);
        let p = position(rest, c) as int;
        assert forall|j: int| 0 <= j < p + 1 implies #[trigger] s[j] != c by {
            if j > 0 {
                assert(s[j] == rest[j - 1]);
            }
        }
        if p < rest.len() {
            assert(s[p + 1] == rest[p]);
            assert(s.contains(c));
        } else {
            assert(!s.contains(c)) by {
                if s.contains(c) {
                    let k = choose|k: int| 0 <= k < s.len() && s[k] == c;
                    assert(rest[k - 1] == s[k]);
                    assert(rest.contains(c));
                }
            }
        }
    }
}

/// The leading whitespace of `s` is whitespace, lies within `s`, and ends
/// at a character that is none.
pub proof fn lemma_leading_spaces_end(s: Seq<char>)
    ensures
        leading_spaces(s) <= s.len(),
        forall|j: int| 0 <= j < leading_spaces(s) ==> is_space(#[trigger] s[j]),
        leading_spaces(s) < s.len() ==> !is_space(s[leading_spaces(s) as int]),
    decreases s.len(),
{
    if s.len() > 0 && is_space(s[0]) {
        let rest = s.drop_first();
        lemma_leading_spaces_end(rest);
        assert forall|j: int| 0 <= j < leading_spaces(s) implies is_space(#[trigger] s[j]) by {
            if j > 0 {
                assert(s[j] == rest[j - 1]);
            }
        }
        if leading_spaces(s) < s.len() {
            assert(s[leading_spaces(s) as int] == rest[leading_spaces(rest) as int]);
        }
    }
}

/// The trailing whitespace of `s` is whitespace, lies within `s`, and
/// starts after a character that is none.
pub proof fn lemma_trailing_spaces_end(s: Seq<char>)
    ensures
        trailing_spaces(s) <= s.len(),
        forall|j: int| s.len() - trailing_spaces(s) <= j < s.len() ==> is_space(#[trigger] s[j]),
        trailing_spaces(s) < s.len() ==> !is_space(s[s.len() - trailing_spaces(s) - 1]),
    decreases s.len(),
{
    if s.len() > 0 && is_space(s.last()) {
        let rest = s.drop_last();
        lemma_trailing_spaces_end(rest);
        assert forall|j: int| s.len() - trailing_spaces(s) <= j < s.len() implies is_space(
            #[trigger] s[j],
        ) by {
            if j < s.len() - 1 {
                assert(s[j] == rest[j]);
            }
        }
        if trailing_spaces(s) < s.len() {
            assert(s[s.len() - trailing_spaces(s) - 1] == rest[rest.len() - trailing_spaces(rest)
                - 1]);
        }
    }
}

/// Trimming cuts a range out of `s`: it starts after the leading whitespace
/// and is empty, or starts and ends with a character that is no whitespace.
pub proof fn lemma_trimmed_range(s: Seq<char>)
    ensures
        leading_spaces(s) + trimmed(s).len() <= s.len(),
        trimmed(s) == s.subrange(
            leading_spaces(s) as int,
            (leading_spaces(s) + trimmed(s).len()) as int,
        ),
        trimmed(s).len() > 0 ==> !is_space(trimmed(s).first()) && !is_space(trimmed(s).last()),
        trimmed(s).len() == 0 <==> leading_spaces(s) == s.len(),
{
    lemma_leading_spaces_end(s);
    let t = trim_start(s);
    lemma_trailing_spaces_end(t);
    assert(trimmed(s) =~= s.subrange(
        leading_spaces(s) as int,
        (leading_spaces(s) + trimmed(s).len()) as int,
    ));
    if t.len() > 0 {
        assert(t[0] == s[leading_spaces(s) as int]);
        assert(trailing_spaces(t) < t.len());
    }
}

/// Trimming adds no character: what the trimmed text holds, `s` holds.
pub proof fn lemma_trimmed_holds_less(s: Seq<char>, c: char)
    requires
        trimmed(s).contains(c),
    ensures
        s.contains(c),
{
    lemma_trimmed_range(s);
    let k = choose|k: int| 0 <= k < trimmed(s).len() && trimmed(s)[k] == c;
    assert(s[leading_spaces(s) + k] == c);
}

/// Number of occurrences of `c` in `s`.
pub open spec fn occurrences(s: Seq<char>, c: char) -> nat
    decreases s.len(),
{
    if s.len() == 0 {
        0
    } else if s[0] == c {
        1 + occurrences(s.drop_first(), c)
    } else {
        occurrences(s.drop_first(), c)
    }
}

/// The characters before the first `c` add nothing to the count of `c`.
pub proof fn lemma_occurrences_from_first(s: Seq<char>, c: char)
    ensures
        occurrences(s, c) == occurrences(s.skip(position(s, c) as int), c),
    decreases s.len(),
{
    if s.len() == 0 || s[0] == c {
        assert(s.skip(0) =~= s);
    } else {
        let rest = s.drop_first();
        lemma_occurrences_from_first(rest, c);
        lemma_position_is_first(rest, c);
        assert(s.skip(position(s, c) as int) =~= rest.skip(position(rest, c) as int));
    }
}

/// Splitting at `sep` gives one piece more than `s` holds separators.
pub proof fn lemma_split_count(s: Seq<char>, sep: char)
    ensures
        split_on(s, sep).len() == occurrences(s, sep) + 1,
    decreases s.len(),
{
    let i = position(s, sep) as int;
    lemma_position_is_first(s, sep);
    lemma_occurrences_from_first(s, sep);
    if i >= s.len() {
        assert(s.skip(i) =~= Seq::<char>::empty());
    } else {
        lemma_split_count(s.skip(i + 1), sep);
        assert(s.skip(i).drop_first() =~= s.skip(i + 1));
    }
}

/// A text without `sep` is its own single piece.
pub proof fn lemma_split_without_separator(s: Seq<char>, sep: char)
    requires
        !s.contains(sep),
    ensures
        split_on(s, sep) == seq![s],
{
    lemma_position_is_first(s, sep);
}

/// Two texts joined by a separator split into the pieces of the first
/// followed by the pieces of the second.
pub proof fn lemma_split_joined(a: Seq<char>, b: Seq<char>, sep: char)
    ensures
        split_on(a + seq![sep] + b, sep) == split_on(a, sep) + split_on(b, sep),
    decreases a.len(),
{
    let joined = a + seq![sep] + b;
    let i = position(a, sep) as int;
    lemma_position_is_first(a, sep);
    assert forall|j: int| 0 <= j < i implies #[trigger] joined[j] != sep by {
        assert(joined[j] == a[j]);
    }
    if i >= a.len() {
        assert(joined[i] == sep);
        lemma_position(joined, sep, i);
        assert(joined.take(i) =~= a);
        assert(joined.skip(i + 1) =~= b);
    } else {
        assert(joined[i] == a[i]);
        lemma_position(joined, sep, i);
        assert(joined.take(i) =~= a.take(i));
        assert(joined.skip(i + 1) =~= a.skip(i + 1) + seq![sep] + b);
        lemma_split_joined(a.skip(i + 1), b, sep);
        assert(split_on(joined, sep) =~= split_on(a, sep) + split_on(b, sep));
    }
}

/// No piece of a split holds the separator.
pub proof fn lemma_pieces_hold_no_separator(s: Seq<char>, sep: char, k: int)
    requires
        0 <= k < split_on(s, sep).len(),
    ensures
        !split_on(s, sep)[k].contains(sep),
    decreases s.len(),
{
    let i = position(s, sep) as int;
    lemma_position_is_first(s, sep);
    if i >= s.len() {
    } else if k == 0 {
        let head = s.take(i);
        assert(split_on(s, sep)[0] == head);
        if head.contains(sep) {
            let j = choose|j: int| 0 <= j < head.len() && head[j] == sep;
            assert(s[j] == sep);
        }
    } else {
        assert(split_on(s, sep)[k] == split_on(s.skip(i + 1), sep)[k - 1]);
        lemma_pieces_hold_no_separator(s.skip(i + 1), sep, k - 1);
    }
}

/// The characters of `s`, in order.
pub fn collect_chars(s: &str) -> (chars: Vec<char>)
    ensures
        chars@ == s@,
{
    let mut chars: Vec<char> = Vec::new();
    for c in it: s.chars()
        invariant
            it.seq() == s@,
            chars@ == s@.take(it.index()),
    {
        chars.push(c);
    }
    chars
}

/// The string of the characters `chars[from..to]`.
pub fn text_of(chars: &Vec<char>, from: usize, to: usize) -> (text: String)
    requires
        from <= to <= chars.len(),
    ensures
        text@ == chars@.subrange(from as int, to as int),
{
    let mut text = String::new();
    let mut at: usize = from;
    while at < to
        invariant
            from <= at <= to <= chars.len(),
            text@ == chars@.subrange(from as int, at as int),
        decreases to - at,
    {
        text.push(chars[at]);
        at += 1;
        assert(text@ =~= chars@.subrange(from as int, at as int));
    }
    text
}

/// Finds the first `c` in `chars[from..to]`. Returns its index in `chars`,
/// or `to` if the range holds no `c`.
pub fn find_char(chars: &Vec<char>, from: usize, to: usize, c: char) -> (at: usize)
    requires
        from <= to <= chars.len(),
    ensures
        from <= at <= to,
        at - from == position(chars@.subrange(from as int, to as int), c),
{
    let mut at: usize = from;
    while at < to && chars[at] != c
        invariant
            from <= at <= to <= chars.len(),
            forall|j: int| from <= j < at ==> chars@[j] != c,
        decreases to - at,
    {
        at += 1;
    }
    proof {
        let s = chars@.subrange(from as int, to as int);
        assert forall|j: int| 0 <= j < at - from implies #[trigger] s[j] != c by {
            assert(s[j] == chars@[from + j]);
        }
        lemma_position(s, c, at - from);
    }
    at
}

/// Trims `chars[from..to]`: returns the bounds of the range that is left
/// when leading and trailing whitespace is removed.
pub fn trim_range(chars: &Vec<char>, from: usize, to: usize) -> (bounds: (usize, usize))
    requires
        from <= to <= chars.len(),
    ensures
        from <= bounds.0 <= bounds.1 <= to,
        chars@.subrange(bounds.0 as int, bounds.1 as int) == trimmed(
            chars@.subrange(from as int, to as int),
        ),
{
    let mut lo: usize = from;
    while lo < to && chars[lo].is_whitespace()
        invariant
            from <= lo <= to <= chars.len(),
            forall|j: int| from <= j < lo ==> is_space(chars@[j]),
        decreases to - lo,
    {
        lo += 1;
    }
    let mut hi: usize = to;
    while hi > lo && chars[hi - 1].is_whitespace()
        invariant
            lo <= hi <= to <= chars.len(),
            forall|j: int| hi <= j < to ==> is_space(chars@[j]),
        decreases hi - lo,
    {
        hi -= 1;
    }
    proof {
        let s = chars@.subrange(from as int, to as int);
        assert forall|j: int| 0 <= j < lo - from implies is_space(#[trigger] s[j]) by {
            assert(s[j] == chars@[from + j]);
        }
        lemma_leading_spaces(s, lo - from);
        let t = trim_start(s);
        assert(t =~= chars@.subrange(lo as int, to as int));
        assert forall|j: int| t.len() - (to - hi) <= j < t.len() implies is_space(
            #[trigger] t[j],
        ) by {
            assert(t[j] == chars@[lo + j]);
        }
        lemma_trailing_spaces(t, to - hi);
        assert(trim_end(t) =~= chars@.subrange(lo as int, hi as int));
    }
    (lo, hi)
}

/// Splits `s` at every occurrence of `sep`.
pub fn split_text(s: &str, sep: char) -> (pieces: Vec<String>)
    ensures
        texts(pieces@) == split_on(s@, sep),
{
    let chars = collect_chars(s);
    let n: usize = chars.len();
    let mut pieces: Vec<String> = Vec::new();
    let mut start: usize = 0;
    let mut at: usize = find_char(&chars, 0, n, sep);
    proof {
        assert(s@.subrange(0, n as int) =~= s@);
        assert(texts(pieces@) + split_on(s@, sep) =~= split_on(s@, sep));
    }
    while at < n
        invariant
            n == chars.len(),
            chars@ == s@,
            start <= at <= n,
            at - start == position(s@.subrange(start as int, n as int), sep),
            split_on(s@, sep) == texts(pieces@) + split_on(s@.subrange(start as int, n as int), sep),
        decreases n - start,
    {
        let piece = text_of(&chars, start, at);
        proof {
            let rest = s@.subrange(start as int, n as int);
            assert(rest.take(at - start) =~= s@.subrange(start as int, at as int));
            assert(rest.skip(at - start + 1) =~= s@.subrange(at + 1, n as int));
            assert(texts(pieces@.push(piece)) =~= texts(pieces@) + seq![piece@]);
        }
        pieces.push(piece);
        start = at + 1;
        at = find_char(&chars, start, n, sep);
    }
    let piece = text_of(&chars, start, n);
    proof {
        assert(texts(pieces@.push(piece)) =~= texts(pieces@) + seq![piece@]);
    }
    pieces.push(piece);
    pieces
}

} // verus!
