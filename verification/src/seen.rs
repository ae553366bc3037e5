//! What a reader sees of a text: the characters outside escape sequences, and the
//! numbers among them.

use crate::decimal::{all_digits, digits_value, ten_to};
use crate::layout::{
    ends_at, is_closed, law_width_of_joined, place_behind, visible_length, width_of, Place, ESCAPE,
};
use crate::text::{place_of, trimmed_start};
use vstd::prelude::*;

verus! {

// ---------------------------------------------------------------------------
// Characters
// ---------------------------------------------------------------------------

/// What is seen of a text that begins in this place.
pub open spec fn seen_from(s: Seq<char>, place: Place) -> Seq<char>
    decreases s.len(),
{
    if s.len() == 0 {
        Seq::empty()
    } else {
        let rest = seen_from(s.skip(1), place_behind(place, s[0]));
        if place == Place::Plain && s[0] != ESCAPE {
            seq![s[0]] + rest
        } else {
            rest
        }
    }
}

/// What is seen of a text.
pub open spec fn seen(s: Seq<char>) -> Seq<char> {
    seen_from(s, Place::Plain)
}

/// A complete text of which exactly this is seen.
pub open spec fn reads(s: Seq<char>, plain: Seq<char>) -> bool {
    is_closed(s) && seen(s) == plain
}

/// Nothing is seen of the text: it is made of complete escape sequences.
pub open spec fn silent(s: Seq<char>) -> bool {
    is_closed(s) && width_of(s) == 0
}

/// No escape sequence stands in the text.
pub open spec fn plain(s: Seq<char>) -> bool {
    forall|i: int| 0 <= i < s.len() ==> #[trigger] s[i] != ESCAPE
}

/// As many characters are seen as the text is wide.
pub proof fn law_seen_is_as_long_as_wide(s: Seq<char>, place: Place)
    ensures
        seen_from(s, place).len() == visible_length(s, place),
    decreases s.len(),
{
    if s.len() > 0 {
        law_seen_is_as_long_as_wide(s.skip(1), place_behind(place, s[0]));
    }
}

pub(crate) proof fn lemma_seen_joined(a: Seq<char>, b: Seq<char>, place: Place)
    ensures
        seen_from(a + b, place) == seen_from(a, place) + seen_from(b, ends_at(a, place)),
    decreases a.len(),
{
    if a.len() == 0 {
        assert(a + b =~= b);
        assert(Seq::<char>::empty() + seen_from(b, place) =~= seen_from(b, place));
    } else {
        assert((a + b).skip(1) =~= a.skip(1) + b);
        lemma_seen_joined(a.skip(1), b, place_behind(place, a[0]));
        assert(seen_from(a + b, place) =~= seen_from(a, place) + seen_from(b, ends_at(a, place)));
    }
}

/// Of two complete texts one behind the other is seen what is seen of each.
pub proof fn law_reads_joined(a: Seq<char>, b: Seq<char>, x: Seq<char>, y: Seq<char>)
    requires
        reads(a, x),
        reads(b, y),
    ensures
        reads(a + b, x + y),
{
    lemma_seen_joined(a, b, Place::Plain);
    law_width_of_joined(a, b, Place::Plain);
}

/// Text without an escape sequence is seen as it is.
pub proof fn law_plain_reads(s: Seq<char>)
    requires
        plain(s),
    ensures
        reads(s, s),
    decreases s.len(),
{
    if s.len() > 0 {
        assert forall|i: int| 0 <= i < s.len() - 1 implies #[trigger] s.skip(1)[i] != ESCAPE by {
            assert(s.skip(1)[i] == s[i + 1]);
        }
        law_plain_reads(s.skip(1));
        assert(seen(s) =~= s);
    } else {
        assert(seen(s) =~= s);
    }
}

/// Of a text that is no column wide nothing is seen.
pub proof fn law_silent_reads(s: Seq<char>)
    requires
        silent(s),
    ensures
        reads(s, Seq::empty()),
{
    law_seen_is_as_long_as_wide(s, Place::Plain);
    assert(seen(s) =~= Seq::empty());
}

// ---------------------------------------------------------------------------
// Numbers
// ---------------------------------------------------------------------------

/// A number read from a text: `digits` with the point `places` before their end.
pub struct Decimal {
    pub digits: nat,
    pub places: nat,
}

/// The decimal number that a text holds behind spaces: digits, or digits, a point and
/// digits.
pub open spec fn decimal_read(s: Seq<char>) -> Option<Decimal> {
    let t = trimmed_start(s);
    let point = place_of(t, '.') as int;
    if point < t.len() {
        let whole = t.take(point);
        let part = t.skip(point + 1);
        if whole.len() > 0 && part.len() > 0 && all_digits(whole) && all_digits(part) {
            Some(
                Decimal { digits: digits_value(whole) * ten_to(part.len()) + digits_value(part), places: part.len() },
            )
        } else {
            None
        }
    } else if t.len() > 0 && all_digits(t) {
        Some(Decimal { digits: digits_value(t), places: 0 })
    } else {
        None
    }
}

impl Decimal {
    /// The number is `value / whole` but for at most half of its last digit.
    pub open spec fn rounds(self, value: nat, whole: nat) -> bool {
        -(whole as int) <= 2 * (self.digits * whole - value * ten_to(self.places)) <= whole
    }
}

} // verus!
