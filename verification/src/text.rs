//! Text as a sequence of characters: cutting it up, searching it, padding it
//! and measuring it.

use vstd::prelude::*;
use vstd::utf8::encode_utf8;

verus! {

/// `String::push` appends the character at the end.
pub assume_specification[ String::push ](s: &mut String, c: char)
    ensures
        final(s)@ == old(s)@.push(c),
;

/// The texts of a list of strings.
pub open spec fn texts(v: Seq<String>) -> Seq<Seq<char>> {
    Seq::new(v.len(), |i: int| v[i]@)
}

/// The text of what may be there.
pub open spec fn text_of(s: Option<String>) -> Option<Seq<char>> {
    match s {
        Some(t) => Some(t@),
        None => None,
    }
}

/// The text of what may have been read.
pub open spec fn read_text(s: Option<&str>) -> Option<Seq<char>> {
    match s {
        Some(t) => Some(t@),
        None => None,
    }
}

// ---------------------------------------------------------------------------
// Characters
// ---------------------------------------------------------------------------

/// The characters with the Unicode property `White_Space`.
pub open spec fn is_space(c: char) -> bool {
    ||| '\u{9}' <= c <= '\u{d}'
    ||| c == ' '
    ||| c == '\u{85}'
    ||| c == '\u{a0}'
    ||| c == '\u{1680}'
    ||| '\u{2000}' <= c <= '\u{200a}'
    ||| c == '\u{2028}'
    ||| c == '\u{2029}'
    ||| c == '\u{202f}'
    ||| c == '\u{205f}'
    ||| c == '\u{3000}'
}

fn check_space(c: char) -> (r: bool)
    ensures
        r == is_space(c),
{
    ('\u{9}' <= c && c <= '\u{d}') || c == ' ' || c == '\u{85}' || c == '\u{a0}' || c == '\u{1680}' || ('\u{2000}'
        <= c && c <= '\u{200a}') || c == '\u{2028}' || c == '\u{2029}' || c == '\u{202f}' || c == '\u{205f}' || c
        == '\u{3000}'
}

/// The characters of a text.
pub fn chars_of(s: &str) -> (v: Vec<char>)
    ensures
        v@ == s@,
{
    let mut v: Vec<char> = Vec::new();
    for c in it: s.chars()
        invariant
            v@ == it.seq().take(it.index()),
            it.seq() == s@,
    {
        v.push(c);
    }
    v
}

/// The text of the characters from `from` up to `to`.
fn cut(v: &Vec<char>, from: usize, to: usize) -> (r: String)
    requires
        from <= to <= v.len(),
    ensures
        r@ == v@.subrange(from as int, to as int),
{
    let mut r = String::new();
    let mut i: usize = from;
    while i < to
        invariant
            from <= i <= to <= v.len(),
            r@ == v@.subrange(from as int, i as int),
        decreases to - i,
    {
        r.push(v[i]);
        i = i + 1;
    }
    r
}

// ---------------------------------------------------------------------------
// Cutting up
// ---------------------------------------------------------------------------

/// The place of the first `c`, or the length where there is none.
pub open spec fn place_of(s: Seq<char>, c: char) -> nat
    decreases s.len(),
{
    if s.len() == 0 || s[0] == c {
        0
    } else {
        1 + place_of(s.skip(1), c)
    }
}

/// A line without the carriage return at its end.
pub open spec fn without_return(s: Seq<char>) -> Seq<char> {
    if s.len() > 0 && s.last() == '\r' {
        s.drop_last()
    } else {
        s
    }
}

/// The lines of a text: each ends at a line feed, or at a carriage return and a
/// line feed; what is behind the last line feed is a line unless it is empty.
pub open spec fn lines_of(s: Seq<char>) -> Seq<Seq<char>>
    decreases s.len(),
{
    if s.len() == 0 {
        Seq::empty()
    } else {
        let end = place_of(s, '\n');
        if end >= s.len() {
            seq![s]
        } else {
            seq![without_return(s.take(end as int))] + lines_of(s.skip(end as int + 1))
        }
    }
}

/// The lines behind the first `n`.
pub open spec fn behind(lines: Seq<Seq<char>>, n: nat) -> Seq<Seq<char>> {
    if lines.len() <= n {
        Seq::empty()
    } else {
        lines.skip(n as int)
    }
}

/// The number of characters that are not spaces at the start of a text.
pub open spec fn word_length(s: Seq<char>) -> nat
    decreases s.len(),
{
    if s.len() == 0 || is_space(s[0]) {
        0
    } else {
        1 + word_length(s.skip(1))
    }
}

/// The words of a text: its longest runs of characters that are not spaces.
pub open spec fn words_of(s: Seq<char>) -> Seq<Seq<char>>
    decreases s.len(),
{
    if s.len() == 0 {
        Seq::empty()
    } else if is_space(s[0]) {
        words_of(s.skip(1))
    } else {
        let n = word_length(s);
        if n >= s.len() {
            seq![s]
        } else {
            seq![s.take(n as int)] + words_of(s.skip(n as int))
        }
    }
}

pub(crate) proof fn lemma_place_of(s: Seq<char>, c: char, n: nat)
    requires
        n <= s.len(),
        forall|i: int| 0 <= i < n ==> s[i] != c,
        n < s.len() ==> s[n as int] == c,
    ensures
        place_of(s, c) == n,
    decreases n,
{
    if n > 0 {
        assert forall|i: int| 0 <= i < n - 1 implies s.skip(1)[i] != c by {
            assert(s.skip(1)[i] == s[i + 1]);
        }
        lemma_place_of(s.skip(1), c, (n - 1) as nat);
    }
}

proof fn lemma_word_length(s: Seq<char>, n: nat)
    requires
        n <= s.len(),
        forall|i: int| 0 <= i < n ==> !is_space(s[i]),
        n < s.len() ==> is_space(s[n as int]),
    ensures
        word_length(s) == n,
    decreases n,
{
    if n > 0 {
        assert forall|i: int| 0 <= i < n - 1 implies !is_space(s.skip(1)[i]) by {
            assert(s.skip(1)[i] == s[i + 1]);
        }
        lemma_word_length(s.skip(1), (n - 1) as nat);
    }
}

/// The lines of a text.
pub fn lines(s: &str) -> (r: Vec<String>)
    ensures
        texts(r@) == lines_of(s@),
{
    let v: Vec<char> = chars_of(s);
    let n: usize = v.len();
    let mut r: Vec<String> = Vec::new();
    let mut start: usize = 0;
    proof {
        assert(v@.skip(0) =~= v@);
    }
    while start < n
        invariant
            start <= n == v.len(),
            texts(r@) + lines_of(v@.skip(start as int)) =~= lines_of(v@),
        decreases n - start,
    {
        let mut end: usize = start;
        while end < n && v[end] != '\n'
            invariant
                start <= end <= n == v.len(),
                forall|i: int| start <= i < end ==> v@[i] != '\n',
            decreases n - end,
        {
            end = end + 1;
        }
        let ghost rest = v@.skip(start as int);
        let ghost before = texts(r@);
        proof {
            lemma_place_of(rest, '\n', (end - start) as nat);
        }
        if end == n {
            let line = cut(&v, start, n);
            proof {
                assert(line@ =~= rest);
                assert(texts(r@.push(line)) =~= before.push(line@));
                assert(v@.skip(n as int).len() == 0);
            }
            r.push(line);
            start = n;
        } else {
            let last: usize = if end > start && v[end - 1] == '\r' {
                end - 1
            } else {
                end
            };
            let line = cut(&v, start, last);
            proof {
                assert(line@ =~= without_return(rest.take(end - start)));
                assert(texts(r@.push(line)) =~= before.push(line@));
                assert(rest.skip(end - start + 1) =~= v@.skip(end + 1));
            }
            r.push(line);
            start = end + 1;
        }
    }
    proof {
        assert(v@.skip(start as int).len() == 0);
    }
    r
}

/// The words of a text.
pub fn words(s: &str) -> (r: Vec<String>)
    ensures
        texts(r@) == words_of(s@),
{
    let v: Vec<char> = chars_of(s);
    let n: usize = v.len();
    let mut r: Vec<String> = Vec::new();
    let mut start: usize = 0;
    proof {
        assert(v@.skip(0) =~= v@);
    }
    while start < n
        invariant
            start <= n == v.len(),
            texts(r@) + words_of(v@.skip(start as int)) =~= words_of(v@),
        decreases n - start,
    {
        let ghost rest = v@.skip(start as int);
        let ghost before = texts(r@);
        if check_space(v[start]) {
            proof {
                assert(rest.skip(1) =~= v@.skip(start + 1));
            }
            start = start + 1;
        } else {
            let mut end: usize = start;
            while end < n && !check_space(v[end])
                invariant
                    start <= end <= n == v.len(),
                    forall|i: int| start <= i < end ==> !is_space(v@[i]),
                    end > start || !is_space(v@[start as int]),
                decreases n - end,
            {
                end = end + 1;
            }
            proof {
                lemma_word_length(rest, (end - start) as nat);
            }
            let word = cut(&v, start, end);
            proof {
                assert(texts(r@.push(word)) =~= before.push(word@));
                if end == n {
                    assert(word@ =~= rest);
                    assert(v@.skip(n as int).len() == 0);
                } else {
                    assert(word@ =~= rest.take(end - start));
                    assert(rest.skip(end - start) =~= v@.skip(end as int));
                }
            }
            r.push(word);
            start = end;
        }
    }
    proof {
        assert(v@.skip(start as int).len() == 0);
    }
    r
}

/// The text without the spaces at its start.
pub open spec fn trimmed_start(s: Seq<char>) -> Seq<char>
    decreases s.len(),
{
    if s.len() > 0 && is_space(s[0]) {
        trimmed_start(s.skip(1))
    } else {
        s
    }
}

/// The text without the spaces at its end.
pub open spec fn trimmed_end(s: Seq<char>) -> Seq<char>
    decreases s.len(),
{
    if s.len() > 0 && is_space(s.last()) {
        trimmed_end(s.drop_last())
    } else {
        s
    }
}

/// The text without the spaces at either end.
pub open spec fn trimmed(s: Seq<char>) -> Seq<char> {
    trimmed_end(trimmed_start(s))
}

/// The text without the spaces at either end.
pub fn trim(s: &str) -> (r: String)
    ensures
        r@ == trimmed(s@),
{
    let v: Vec<char> = chars_of(s);
    let n: usize = v.len();
    let mut start: usize = 0;
    proof {
        assert(v@.skip(0) =~= v@);
    }
    while start < n && check_space(v[start])
        invariant
            start <= n == v.len(),
            trimmed_start(v@.skip(start as int)) == trimmed_start(v@),
        decreases n - start,
    {
        proof {
            assert(v@.skip(start as int).skip(1) =~= v@.skip(start + 1));
        }
        start = start + 1;
    }
    let ghost rest = v@.skip(start as int);
    let mut end: usize = n;
    proof {
        assert(rest =~= v@.subrange(start as int, n as int));
    }
    while end > start && check_space(v[end - 1])
        invariant
            start <= end <= n == v.len(),
            trimmed_end(v@.subrange(start as int, end as int)) == trimmed_end(rest),
        decreases end,
    {
        proof {
            assert(v@.subrange(start as int, end as int).drop_last() =~= v@.subrange(
                start as int,
                end - 1,
            ));
        }
        end = end - 1;
    }
    cut(&v, start, end)
}

/// What stands between the first and the second `c`, or behind the first where
/// there is no second.
pub open spec fn second_part(s: Seq<char>, c: char) -> Option<Seq<char>> {
    let first = place_of(s, c);
    if first >= s.len() {
        None
    } else {
        let rest = s.skip(first as int + 1);
        Some(rest.take(place_of(rest, c) as int))
    }
}

proof fn lemma_place_bound(s: Seq<char>, c: char)
    ensures
        place_of(s, c) <= s.len(),
    decreases s.len(),
{
    if s.len() > 0 && s[0] != c {
        lemma_place_bound(s.skip(1), c);
    }
}

/// The place of the first `c` from `from` on.
fn find_char(v: &Vec<char>, c: char, from: usize) -> (r: usize)
    requires
        from <= v.len(),
    ensures
        r == from + place_of(v@.skip(from as int), c),
        from <= r <= v.len(),
{
    let mut i: usize = from;
    while i < v.len() && v[i] != c
        invariant
            from <= i <= v.len(),
            forall|k: int| from <= k < i ==> v@[k] != c,
        decreases v.len() - i,
    {
        i = i + 1;
    }
    proof {
        lemma_place_of(v@.skip(from as int), c, (i - from) as nat);
    }
    i
}

/// What stands between the first and the second `c`.
pub fn part_behind(s: &str, c: char) -> (r: Option<String>)
    ensures
        match r {
            Some(t) => second_part(s@, c) == Some(t@),
            None => second_part(s@, c) is None,
        },
{
    let v: Vec<char> = chars_of(s);
    proof {
        assert(v@.skip(0) =~= v@);
    }
    let first: usize = find_char(&v, c, 0);
    if first == v.len() {
        return None;
    }
    let second: usize = find_char(&v, c, first + 1);
    let r = cut(&v, first + 1, second);
    proof {
        let rest = v@.skip(first + 1);
        assert(r@ =~= rest.take(place_of(rest, c) as int));
    }
    Some(r)
}

/// What stands behind the last `c`; the whole text where there is none.
pub open spec fn last_part(s: Seq<char>, c: char) -> Seq<char>
    decreases s.len(),
{
    let first = place_of(s, c);
    if first >= s.len() {
        s
    } else {
        last_part(s.skip(first as int + 1), c)
    }
}

/// What stands behind the last `c`.
pub fn part_after_last(s: &str, c: char) -> (r: String)
    ensures
        r@ == last_part(s@, c),
{
    let v: Vec<char> = chars_of(s);
    let mut start: usize = 0;
    let mut i: usize = find_char(&v, c, 0);
    proof {
        assert(v@.skip(0) =~= v@);
    }
    while i < v.len()
        invariant
            start <= i <= v.len(),
            i == start + place_of(v@.skip(start as int), c),
            last_part(v@.skip(start as int), c) == last_part(v@, c),
        decreases v.len() - start,
    {
        proof {
            assert(v@.skip(start as int).skip(i - start + 1) =~= v@.skip(i + 1));
        }
        start = i + 1;
        i = find_char(&v, c, start);
    }
    let r = cut(&v, start, v.len());
    proof {
        assert(r@ =~= v@.skip(start as int));
    }
    r
}

/// The text without the characters `c` at its end.
pub open spec fn without_trailing(s: Seq<char>, c: char) -> Seq<char>
    decreases s.len(),
{
    if s.len() > 0 && s.last() == c {
        without_trailing(s.drop_last(), c)
    } else {
        s
    }
}

/// The text without the characters `c` at its end.
pub fn trim_trailing(s: &str, c: char) -> (r: String)
    ensures
        r@ == without_trailing(s@, c),
{
    let v: Vec<char> = chars_of(s);
    let mut end: usize = v.len();
    proof {
        assert(v@.take(end as int) =~= v@);
    }
    while end > 0 && v[end - 1] == c
        invariant
            end <= v.len(),
            without_trailing(v@.take(end as int), c) == without_trailing(v@, c),
        decreases end,
    {
        proof {
            assert(v@.take(end as int).drop_last() =~= v@.take(end - 1));
        }
        end = end - 1;
    }
    let r = cut(&v, 0, end);
    proof {
        assert(r@ =~= v@.take(end as int));
    }
    r
}

// ---------------------------------------------------------------------------
// Searching
// ---------------------------------------------------------------------------

/// `pattern` stands in the text at `i`.
pub open spec fn occurs_at(s: Seq<char>, pattern: Seq<char>, i: int) -> bool {
    &&& 0 <= i
    &&& i + pattern.len() <= s.len()
    &&& s.subrange(i, i + pattern.len()) == pattern
}

/// The text begins with `pattern`.
pub open spec fn begins_with(s: Seq<char>, pattern: Seq<char>) -> bool {
    occurs_at(s, pattern, 0)
}

/// The text ends with `pattern`.
pub open spec fn finishes_with(s: Seq<char>, pattern: Seq<char>) -> bool {
    occurs_at(s, pattern, s.len() - pattern.len())
}

/// `pattern` stands somewhere in the text.
pub open spec fn holds(s: Seq<char>, pattern: Seq<char>) -> bool {
    exists|i: int| occurs_at(s, pattern, i)
}

/// The first place from `from` on where `pattern` stands.
pub open spec fn seek(s: Seq<char>, pattern: Seq<char>, from: nat) -> Option<nat>
    decreases s.len() - from,
{
    if from + pattern.len() > s.len() {
        None
    } else if occurs_at(s, pattern, from as int) {
        Some(from)
    } else if from >= s.len() {
        None
    } else {
        seek(s, pattern, from + 1)
    }
}

/// The text with each `from` in it, taken from the left, replaced by `to`.
pub open spec fn replaced(s: Seq<char>, from: Seq<char>, to: Seq<char>) -> Seq<char>
    decreases s.len(),
{
    if from.len() == 0 || s.len() < from.len() {
        s
    } else if begins_with(s, from) {
        to + replaced(s.skip(from.len() as int), from, to)
    } else {
        seq![s[0]] + replaced(s.skip(1), from, to)
    }
}

fn matches_at(v: &Vec<char>, pattern: &Vec<char>, i: usize) -> (r: bool)
    requires
        i <= v.len(),
    ensures
        r == occurs_at(v@, pattern@, i as int),
{
    if pattern.len() > v.len() - i {
        return false;
    }
    let mut k: usize = 0;
    while k < pattern.len()
        invariant
            k <= pattern.len(),
            i + pattern.len() <= v.len(),
            forall|j: int| 0 <= j < k ==> v@[i + j] == pattern@[j],
        decreases pattern.len() - k,
    {
        if v[i + k] != pattern[k] {
            proof {
                assert(v@.subrange(i as int, i + pattern.len())[k as int] != pattern@[k as int]);
            }
            return false;
        }
        k = k + 1;
    }
    proof {
        assert(v@.subrange(i as int, i + pattern.len()) =~= pattern@);
    }
    true
}

/// Both texts are the same.
pub fn equal(a: &str, b: &str) -> (r: bool)
    ensures
        r == (a@ == b@),
{
    let v: Vec<char> = chars_of(a);
    let w: Vec<char> = chars_of(b);
    let r: bool = v.len() == w.len() && matches_at(&v, &w, 0);
    proof {
        if v@.len() == w@.len() {
            assert(v@.subrange(0, w@.len() as int) =~= v@);
        }
    }
    r
}

/// The text begins with `pattern`.
pub fn starts_with(s: &str, pattern: &str) -> (r: bool)
    ensures
        r == begins_with(s@, pattern@),
{
    matches_at(&chars_of(s), &chars_of(pattern), 0)
}

/// The text ends with `pattern`.
pub fn ends_with(s: &str, pattern: &str) -> (r: bool)
    ensures
        r == finishes_with(s@, pattern@),
{
    let v: Vec<char> = chars_of(s);
    let p: Vec<char> = chars_of(pattern);
    p.len() <= v.len() && matches_at(&v, &p, v.len() - p.len())
}

fn find_from(v: &Vec<char>, pattern: &Vec<char>, from: usize) -> (r: Option<usize>)
    requires
        from <= v.len(),
    ensures
        match r {
            Some(i) => seek(v@, pattern@, from as nat) == Some(i as nat) && i + pattern.len() <= v.len(),
            None => seek(v@, pattern@, from as nat) is None,
        },
{
    let mut i: usize = from;
    while i < v.len() && pattern.len() <= v.len() - i
        invariant
            from <= i <= v.len(),
            seek(v@, pattern@, from as nat) == seek(v@, pattern@, i as nat),
        decreases v.len() - i,
    {
        if matches_at(v, pattern, i) {
            return Some(i);
        }
        i = i + 1;
    }
    if matches_at(v, pattern, i) {
        Some(i)
    } else {
        None
    }
}

proof fn lemma_seek_none(s: Seq<char>, pattern: Seq<char>, from: nat, i: int)
    requires
        seek(s, pattern, from) is None,
        from <= i,
    ensures
        !occurs_at(s, pattern, i),
    decreases s.len() - from,
{
    if from < i && from + pattern.len() <= s.len() && from < s.len() {
        lemma_seek_none(s, pattern, from + 1, i);
    }
}

proof fn lemma_seek_some(s: Seq<char>, pattern: Seq<char>, from: nat)
    ensures
        seek(s, pattern, from) matches Some(i) ==> i >= from && occurs_at(s, pattern, i as int),
    decreases s.len() - from,
{
    if from + pattern.len() <= s.len() && !occurs_at(s, pattern, from as int) && from < s.len() {
        lemma_seek_some(s, pattern, from + 1);
    }
}

/// `pattern` stands somewhere in the text.
pub fn contains(s: &str, pattern: &str) -> (r: bool)
    ensures
        r == holds(s@, pattern@),
{
    let v: Vec<char> = chars_of(s);
    let p: Vec<char> = chars_of(pattern);
    let found = find_from(&v, &p, 0);
    proof {
        lemma_seek_some(v@, p@, 0);
        if found is None {
            assert forall|i: int| !occurs_at(v@, p@, i) by {
                if i >= 0 {
                    lemma_seek_none(v@, p@, 0, i);
                }
            }
        }
    }
    found.is_some()
}

/// What stands behind the first `key` and before the first `stop` behind it.
pub open spec fn enclosed(s: Seq<char>, key: Seq<char>, stop: Seq<char>) -> Option<Seq<char>> {
    match seek(s, key, 0) {
        Some(i) => {
            let rest = s.skip(i as int + key.len());
            match seek(rest, stop, 0) {
                Some(end) => Some(rest.take(end as int)),
                None => None,
            }
        },
        None => None,
    }
}

/// What stands behind the first `key` and before the first `stop` behind it.
pub fn between(s: &str, key: &str, stop: &str) -> (r: Option<String>)
    ensures
        match r {
            Some(t) => enclosed(s@, key@, stop@) == Some(t@),
            None => enclosed(s@, key@, stop@) is None,
        },
{
    let v: Vec<char> = chars_of(s);
    let k: Vec<char> = chars_of(key);
    match find_from(&v, &k, 0) {
        Some(i) => {
            let rest = cut(&v, i + k.len(), v.len());
            proof {
                assert(rest@ =~= v@.skip(i + k.len()));
            }
            let w: Vec<char> = chars_of(rest.as_str());
            match find_from(&w, &chars_of(stop), 0) {
                Some(end) => {
                    let r = cut(&w, 0, end);
                    proof {
                        assert(r@ =~= w@.take(end as int));
                    }
                    Some(r)
                },
                None => None,
            }
        },
        None => None,
    }
}

/// The text with each `from` in it, taken from the left, replaced by `to`.
pub fn replace(s: &str, from: &str, to: &str) -> (r: String)
    requires
        from@.len() > 0,
    ensures
        r@ == replaced(s@, from@, to@),
{
    let v: Vec<char> = chars_of(s);
    let p: Vec<char> = chars_of(from);
    let mut r = String::new();
    let mut i: usize = 0;
    proof {
        assert(v@.skip(0) =~= v@);
    }
    while i < v.len()
        invariant
            i <= v.len(),
            p.len() > 0,
            p@ == from@,
            r@ + replaced(v@.skip(i as int), p@, to@) == replaced(v@, p@, to@),
        decreases v.len() - i,
    {
        let ghost rest = v@.skip(i as int);
        proof {
            if i + p.len() <= v.len() {
                assert(rest.subrange(0, p.len() as int) =~= v@.subrange(i as int, i + p.len()));
            }
        }
        if matches_at(&v, &p, i) {
            let ghost done = r@;
            r.append(to);
            proof {
                assert(rest.skip(p.len() as int) =~= v@.skip(i + p.len()));
                assert(done + (to@ + replaced(v@.skip(i + p.len()), p@, to@)) =~= (done + to@) + replaced(
                    v@.skip(i + p.len()),
                    p@,
                    to@,
                ));
            }
            i = i + p.len();
        } else {
            let ghost done = r@;
            r.push(v[i]);
            proof {
                assert(rest.skip(1) =~= v@.skip(i + 1));
                if rest.len() < p.len() {
                    assert(v@.skip(i + 1).len() < p.len());
                    assert(done + rest =~= done.push(v@[i as int]) + v@.skip(i + 1));
                } else {
                    assert(done + (seq![v@[i as int]] + replaced(v@.skip(i + 1), p@, to@)) =~= done.push(
                        v@[i as int],
                    ) + replaced(v@.skip(i + 1), p@, to@));
                }
            }
            i = i + 1;
        }
    }
    proof {
        assert(v@.skip(i as int) =~= Seq::empty());
        assert(r@ + Seq::<char>::empty() =~= r@);
    }
    r
}

// ---------------------------------------------------------------------------
// Measuring and ordering
// ---------------------------------------------------------------------------

/// The number of bytes of a text in UTF-8.
pub open spec fn byte_length(s: Seq<char>) -> nat {
    encode_utf8(s).len()
}

/// The number of bytes of a text in UTF-8.
pub fn bytes_in(s: &str) -> (n: usize)
    ensures
        n == byte_length(s@),
{
    s.as_bytes().len()
}

/// The first text comes before the second in the order of their characters.
pub open spec fn precedes(a: Seq<char>, b: Seq<char>) -> bool
    decreases b.len(),
{
    if b.len() == 0 {
        false
    } else if a.len() == 0 {
        true
    } else if a[0] != b[0] {
        a[0] < b[0]
    } else {
        precedes(a.skip(1), b.skip(1))
    }
}

/// The first text comes before the second.
pub fn is_before(a: &str, b: &str) -> (r: bool)
    ensures
        r == precedes(a@, b@),
{
    let v: Vec<char> = chars_of(a);
    let w: Vec<char> = chars_of(b);
    let mut i: usize = 0;
    proof {
        assert(v@.skip(0) =~= v@ && w@.skip(0) =~= w@);
    }
    while i < v.len() && i < w.len() && v[i] == w[i]
        invariant
            i <= v.len(),
            i <= w.len(),
            precedes(v@, w@) == precedes(v@.skip(i as int), w@.skip(i as int)),
        decreases v.len() - i,
    {
        proof {
            assert(v@.skip(i as int).skip(1) =~= v@.skip(i + 1));
            assert(w@.skip(i as int).skip(1) =~= w@.skip(i + 1));
        }
        i = i + 1;
    }
    if i >= w.len() {
        false
    } else if i >= v.len() {
        true
    } else {
        v[i] < w[i]
    }
}

/// Texts are in a strict order: no two come before each other, one of two
/// different ones comes before the other, and what comes before a text comes before
/// all that the text comes before.
pub proof fn law_texts_are_ordered(a: Seq<char>, b: Seq<char>, c: Seq<char>)
    ensures
        precedes(a, b) ==> !precedes(b, a),
        a != b ==> precedes(a, b) || precedes(b, a),
        precedes(a, b) && precedes(b, c) ==> precedes(a, c),
    decreases a.len() + b.len() + c.len(),
{
    if a.len() > 0 && b.len() > 0 {
        if a[0] == b[0] {
            if c.len() > 0 {
                law_texts_are_ordered(a.skip(1), b.skip(1), c.skip(1));
            } else {
                law_texts_are_ordered(a.skip(1), b.skip(1), c);
            }
            if a.skip(1) == b.skip(1) {
                assert(a =~= seq![a[0]] + a.skip(1));
                assert(b =~= seq![b[0]] + b.skip(1));
            }
        }
    } else if a.len() == 0 && b.len() == 0 {
        assert(a =~= b);
    }
}

// ---------------------------------------------------------------------------
// Marked texts
// ---------------------------------------------------------------------------

/// The texts whose marks are set, in their order; what has no mark is not marked.
pub open spec fn marked(s: Seq<Seq<char>>, marks: Seq<bool>) -> Seq<Seq<char>>
    decreases s.len(),
{
    if s.len() == 0 {
        Seq::empty()
    } else {
        let front = marked(s.drop_last(), marks);
        if s.len() <= marks.len() && marks[s.len() - 1] {
            front.push(s.last())
        } else {
            front
        }
    }
}

/// The texts whose marks are set.
pub fn marked_texts(list: &Vec<String>, marks: &Vec<bool>) -> (r: Vec<String>)
    ensures
        texts(r@) == marked(texts(list@), marks@),
{
    let ghost all = texts(list@);
    let mut r: Vec<String> = Vec::new();
    let mut i: usize = 0;
    proof {
        assert(all.take(0) =~= Seq::empty());
        assert(texts(r@) =~= Seq::empty());
    }
    while i < list.len()
        invariant
            i <= list.len(),
            all == texts(list@),
            texts(r@) == marked(all.take(i as int), marks@),
        decreases list.len() - i,
    {
        proof {
            assert(all.take(i + 1).drop_last() =~= all.take(i as int));
            assert(all.take(i + 1).last() == list@[i as int]@);
        }
        if i < marks.len() && marks[i] {
            let ghost before = r@;
            r.push(list[i].clone());
            proof {
                assert(texts(r@) =~= texts(before).push(list@[i as int]@));
            }
        }
        i = i + 1;
    }
    proof {
        assert(all.take(all.len() as int) =~= all);
    }
    r
}

/// The first text whose mark is set.
pub open spec fn first_marked(s: Seq<Seq<char>>, marks: Seq<bool>) -> Option<Seq<char>> {
    if marked(s, marks).len() > 0 {
        Some(marked(s, marks)[0])
    } else {
        None
    }
}

/// The first text whose mark is set.
pub fn first_marked_text(list: &Vec<String>, marks: &Vec<bool>) -> (r: Option<String>)
    ensures
        text_of(r) == first_marked(texts(list@), marks@),
{
    let all = marked_texts(list, marks);
    proof {
        assert(texts(all@).len() == all.len());
    }
    if all.len() > 0 {
        proof {
            assert(texts(all@)[0] == all@[0]@);
        }
        Some(all[0].clone())
    } else {
        None
    }
}

} // verus!
