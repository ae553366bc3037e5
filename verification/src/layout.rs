//! Widths of coloured text, padding, rules across the screen and grids.

use crate::text::chars_of;
use vstd::prelude::*;

verus! {

/// The character that opens an escape sequence.
pub const ESCAPE: char = '\u{1b}';

/// The same character `n` times.
pub open spec fn repeated(c: char, n: nat) -> Seq<char> {
    Seq::new(n, |i: int| c)
}

/// Where a character stands: in plain text, behind the escape character that opens a
/// sequence, or further inside a control sequence, which `[` begins.
#[derive(Clone, Copy, Debug, PartialEq, Eq, Structural)]
pub enum Place {
    Plain,
    Escaped,
    Inside,
}

/// The characters that end a control sequence.
pub open spec fn is_final(c: char) -> bool {
    '@' <= c <= '~'
}

/// The characters that may stand between the escape character and the one that ends
/// a short sequence.
pub open spec fn is_intermediate(c: char) -> bool {
    ' ' <= c <= '/'
}

/// Where the next character stands. An escape character opens a sequence wherever it
/// stands. A control sequence ends at its first final character, any other sequence
/// at its first character that is no intermediate one.
pub open spec fn place_behind(place: Place, c: char) -> Place {
    if c == ESCAPE {
        Place::Escaped
    } else {
        match place {
            Place::Plain => Place::Plain,
            Place::Escaped => if c == '[' {
                Place::Inside
            } else if is_intermediate(c) {
                Place::Escaped
            } else {
                Place::Plain
            },
            Place::Inside => if is_final(c) {
                Place::Plain
            } else {
                Place::Inside
            },
        }
    }
}

/// The number of characters that a terminal shows of a text that begins in this
/// place: those outside escape sequences.
pub open spec fn visible_length(s: Seq<char>, place: Place) -> nat
    decreases s.len(),
{
    if s.len() == 0 {
        0
    } else {
        let rest = visible_length(s.skip(1), place_behind(place, s[0]));
        if place == Place::Plain && s[0] != ESCAPE {
            1 + rest
        } else {
            rest
        }
    }
}

/// Where a text ends that begins in this place.
pub open spec fn ends_at(s: Seq<char>, place: Place) -> Place
    decreases s.len(),
{
    if s.len() == 0 {
        place
    } else {
        ends_at(s.skip(1), place_behind(place, s[0]))
    }
}

/// The width of a text on the screen.
pub open spec fn width_of(s: Seq<char>) -> nat {
    visible_length(s, Place::Plain)
}

/// No escape sequence is open where the text ends.
pub open spec fn is_closed(s: Seq<char>) -> bool {
    ends_at(s, Place::Plain) == Place::Plain
}

/// The text with spaces before it, `width` characters or more.
pub open spec fn right_aligned(s: Seq<char>, width: nat) -> Seq<char> {
    if s.len() >= width {
        s
    } else {
        repeated(' ', (width - s.len()) as nat) + s
    }
}

/// The text with spaces behind it, `width` characters or more.
pub open spec fn left_aligned(s: Seq<char>, width: nat) -> Seq<char> {
    if s.len() >= width {
        s
    } else {
        s + repeated(' ', (width - s.len()) as nat)
    }
}

/// A rule of dashes across `width` columns with a text in the middle of it; only
/// dashes where the text has no room.
pub open spec fn dashed_line(width: nat, middle: Seq<char>) -> Seq<char> {
    let content = width_of(middle) + 2;
    if content >= width {
        repeated('-', width)
    } else {
        let left = ((width - content) / 2) as nat;
        let right = (width - content - left) as nat;
        repeated('-', left) + " "@ + middle + " "@ + repeated('-', right)
    }
}

/// The same character `n` times.
pub fn repeat(c: char, n: usize) -> (s: String)
    ensures
        s@ == repeated(c, n as nat),
{
    let mut s = String::new();
    let mut i: usize = 0;
    while i < n
        invariant
            i <= n,
            s@ =~= repeated(c, i as nat),
        decreases n - i,
    {
        s.push(c);
        i = i + 1;
    }
    s
}

/// The text with spaces before it.
pub fn align_right(s: &str, width: usize) -> (r: String)
    ensures
        r@ == right_aligned(s@, width as nat),
{
    let n: usize = s.unicode_len();
    if n >= width {
        return s.to_owned();
    }
    let mut r = repeat(' ', width - n);
    r.append(s);
    r
}

/// The text with spaces behind it.
pub fn align_left(s: &str, width: usize) -> (r: String)
    ensures
        r@ == left_aligned(s@, width as nat),
{
    let n: usize = s.unicode_len();
    let mut r = s.to_owned();
    if n < width {
        r.append(repeat(' ', width - n).as_str());
    }
    r
}

fn next_place(place: Place, c: char) -> (r: Place)
    ensures
        r == place_behind(place, c),
{
    if c == ESCAPE {
        return Place::Escaped;
    }
    match place {
        Place::Plain => Place::Plain,
        Place::Escaped => {
            if c == '[' {
                Place::Inside
            } else if ' ' <= c && c <= '/' {
                Place::Escaped
            } else {
                Place::Plain
            }
        },
        Place::Inside => {
            if '@' <= c && c <= '~' {
                Place::Plain
            } else {
                Place::Inside
            }
        },
    }
}

/// The number of characters of the text that a terminal shows.
pub fn strip_ansi(s: &str) -> (n: usize)
    ensures
        n == width_of(s@),
{
    let v: Vec<char> = chars_of(s);
    let mut n: usize = 0;
    let mut place: Place = Place::Plain;
    let mut i: usize = 0;
    proof {
        assert(v@.skip(0) =~= v@);
    }
    while i < v.len()
        invariant
            n <= i <= v.len(),
            n + visible_length(v@.skip(i as int), place) == width_of(v@),
        decreases v.len() - i,
    {
        proof {
            assert(v@.skip(i as int).skip(1) =~= v@.skip(i + 1));
        }
        let c: char = v[i];
        if place == Place::Plain && c != ESCAPE {
            n = n + 1;
        }
        place = next_place(place, c);
        i = i + 1;
    }
    n
}

/// A rule of dashes across the screen with a text in the middle of it.
pub fn get_dashed_line(max_w: usize, mid_text: &str) -> (line: String)
    ensures
        line@ == dashed_line(max_w as nat, mid_text@),
{
    let shown: usize = strip_ansi(mid_text);
    if max_w <= 2 || shown >= max_w - 2 {
        return repeat('-', max_w);
    }
    let free: usize = max_w - 2 - shown;
    let left: usize = free / 2;
    let right: usize = free - left;
    let mut line = repeat('-', left);
    line.append(" ");
    line.append(mid_text);
    line.append(" ");
    line.append(repeat('-', right).as_str());
    line
}

// ---------------------------------------------------------------------------
// Laws of widths
// ---------------------------------------------------------------------------

/// The width of two texts one behind the other: that of the first, and that of
/// the second begun in the place where the first ends.
pub proof fn law_width_of_joined(a: Seq<char>, b: Seq<char>, place: Place)
    ensures
        visible_length(a + b, place) == visible_length(a, place) + visible_length(b, ends_at(a, place)),
        ends_at(a + b, place) == ends_at(b, ends_at(a, place)),
    decreases a.len(),
{
    if a.len() == 0 {
        assert(a + b =~= b);
    } else {
        assert((a + b).skip(1) =~= a.skip(1) + b);
        law_width_of_joined(a.skip(1), b, place_behind(place, a[0]));
    }
}

/// Text without an escape character is as wide as it is long.
pub proof fn law_width_of_plain(s: Seq<char>)
    requires
        forall|i: int| 0 <= i < s.len() ==> s[i] != ESCAPE,
    ensures
        width_of(s) == s.len(),
        is_closed(s),
    decreases s.len(),
{
    if s.len() > 0 {
        assert forall|i: int| 0 <= i < s.len() - 1 implies s.skip(1)[i] != ESCAPE by {
            assert(s.skip(1)[i] == s[i + 1]);
        }
        law_width_of_plain(s.skip(1));
    }
}

/// A rule is as wide as the screen, whatever complete text stands in it.
pub proof fn law_dashed_line_fills_the_width(width: nat, middle: Seq<char>)
    requires
        is_closed(middle),
    ensures
        width_of(dashed_line(width, middle)) == width,
{
    let content = width_of(middle) + 2;
    if content >= width {
        law_width_of_plain(repeated('-', width));
    } else {
        let left = ((width - content) / 2) as nat;
        let right = (width - content - left) as nat;
        let a = repeated('-', left);
        let b = repeated('-', right);
        reveal_strlit(" ");
        law_width_of_plain(a);
        law_width_of_plain(b);
        law_width_of_plain(" "@);
        law_width_of_joined(a, " "@, Place::Plain);
        law_width_of_joined(a + " "@, middle, Place::Plain);
        law_width_of_joined(a + " "@ + middle, " "@, Place::Plain);
        law_width_of_joined(a + " "@ + middle + " "@, b, Place::Plain);
    }
}

/// Spaces put beside a complete text widen it to the width asked for.
pub proof fn law_aligned_width(s: Seq<char>, width: nat)
    requires
        forall|i: int| 0 <= i < s.len() ==> s[i] != ESCAPE,
    ensures
        right_aligned(s, width).len() == (if s.len() > width {
            s.len()
        } else {
            width
        }),
        left_aligned(s, width).len() == right_aligned(s, width).len(),
        width_of(right_aligned(s, width)) == right_aligned(s, width).len(),
        width_of(left_aligned(s, width)) == left_aligned(s, width).len(),
{
    law_width_of_plain(right_aligned(s, width));
    law_width_of_plain(left_aligned(s, width));
}

} // verus!
