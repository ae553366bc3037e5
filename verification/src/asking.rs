//! What may be asked on the command line, and how it is understood.

use crate::binary64::{
    at_most, below, fraction, integer, law_integers_are_exact, law_numbers_are_ordered, Number,
};
use crate::cli::{
    asked, interval_of, law_interval_within_bounds, option_joined, option_named, Asked, GivenTexts, Poll,
};
use crate::text::{begins_with, occurs_at};
use vstd::prelude::*;

verus! {

/// The first letter behind the dash tells the options apart.
proof fn lemma_letters(arg: Seq<char>)
    ensures
        "-n"@ == seq!['-', 'n'],
        "-r"@ == seq!['-', 'r'],
        "-m"@ == seq!['-', 'm'],
        "-t"@ == seq!['-', 't'],
        "-d"@ == seq!['-', 'd'],
        "-h"@ == seq!['-', 'h'],
        "-v"@ == seq!['-', 'v'],
        "--help"@.len() == 6 && "--help"@[0] == '-' && "--help"@[1] == '-' && "--help"@[2] == 'h',
        "--version"@.len() == 9 && "--version"@[0] == '-' && "--version"@[1] == '-' && "--version"@[2] == 'v',
        "--cpu-stats-interval"@.len() == 20 && "--cpu-stats-interval"@[0] == '-' && "--cpu-stats-interval"@[1] == '-'
            && "--cpu-stats-interval"@[2] == 'c',
        "--room-temp-interval"@.len() == 20 && "--room-temp-interval"@[0] == '-' && "--room-temp-interval"@[1] == '-'
            && "--room-temp-interval"@[2] == 'r',
        "--mem-stats-interval"@.len() == 20 && "--mem-stats-interval"@[0] == '-' && "--mem-stats-interval"@[1] == '-'
            && "--mem-stats-interval"@[2] == 'm',
        "--net-interval"@.len() == 14 && "--net-interval"@[0] == '-' && "--net-interval"@[1] == '-'
            && "--net-interval"@[2] == 'n',
        "--disk-interval"@.len() == 15 && "--disk-interval"@[0] == '-' && "--disk-interval"@[1] == '-'
            && "--disk-interval"@[2] == 'd',
{
    reveal_strlit("-n");
    reveal_strlit("-r");
    reveal_strlit("-m");
    reveal_strlit("-t");
    reveal_strlit("-d");
    reveal_strlit("-h");
    reveal_strlit("-v");
    reveal_strlit("--help");
    reveal_strlit("--version");
    reveal_strlit("--cpu-stats-interval");
    reveal_strlit("--room-temp-interval");
    reveal_strlit("--mem-stats-interval");
    reveal_strlit("--net-interval");
    reveal_strlit("--disk-interval");
    assert("-n"@ =~= seq!['-', 'n']);
    assert("-r"@ =~= seq!['-', 'r']);
    assert("-m"@ =~= seq!['-', 'm']);
    assert("-t"@ =~= seq!['-', 't']);
    assert("-d"@ =~= seq!['-', 'd']);
    assert("-h"@ =~= seq!['-', 'h']);
    assert("-v"@ =~= seq!['-', 'v']);
}

/// The words for an interval, the short one and the long one.
pub open spec fn words_for(poll: Poll) -> (Seq<char>, Seq<char>) {
    match poll {
        Poll::Cpu => ("-n"@, "--cpu-stats-interval"@),
        Poll::Room => ("-r"@, "--room-temp-interval"@),
        Poll::Mem => ("-m"@, "--mem-stats-interval"@),
        Poll::Net => ("-t"@, "--net-interval"@),
        Poll::Disk => ("-d"@, "--disk-interval"@),
    }
}

/// What was given for an interval.
pub open spec fn given_for(given: GivenTexts, poll: Poll) -> Option<Seq<char>> {
    match poll {
        Poll::Cpu => given.cpu,
        Poll::Room => given.room,
        Poll::Mem => given.mem,
        Poll::Net => given.net,
        Poll::Disk => given.disk,
    }
}

/// One option and the rest: how the arguments go on.
proof fn lemma_option_first(poll: Poll, word: Seq<char>, value: Seq<char>, rest: Seq<Seq<char>>, given: GivenTexts)
    requires
        word == words_for(poll).0 || word == words_for(poll).1,
    ensures
        asked(seq![word, value] + rest, given) == asked(rest, given.with(poll, Some(value))),
        given_for(given.with(poll, Some(value)), poll) == Some(value),
        forall|other: Poll|
            other != poll ==> #[trigger] given_for(given.with(poll, Some(value)), other) == given_for(given, other),
{
    lemma_letters(word);
    let all = seq![word, value] + rest;
    assert(all[0] == word);
    assert(all.skip(1)[0] == value);
    assert(all.skip(1).skip(1) =~= rest);
    assert(option_named(word) == Some(poll));
    assert(word != "-h"@ && word != "--help"@ && word != "-v"@ && word != "--version"@) by {
        assert("-h"@[1] == 'h' && "-v"@[1] == 'v');
    }
}

proof fn lemma_joined_first(poll: Poll, value: Seq<char>, rest: Seq<Seq<char>>, given: GivenTexts)
    requires
        value.len() > 0,
    ensures
        asked(seq![words_for(poll).0 + value] + rest, given) == asked(rest, given.with(poll, Some(value))),
{
    let short = words_for(poll).0;
    let word = short + value;
    lemma_letters(word);
    let all = seq![word] + rest;
    assert(all[0] == word);
    assert(all.skip(1) =~= rest);
    assert(word.skip(2) =~= value);
    assert(word[0] == '-' && word[1] == short[1]);
    assert(word.subrange(0, 2) =~= short);
    assert(word[1] != '-');
    assert(word.len() > 2);
    assert(option_named(word) is None);
    assert(begins_with(word, short));
    assert(option_joined(word) == Some(poll)) by {
        reveal(begins_with);
        reveal(occurs_at);
        assert(forall|other: Poll| begins_with(word, #[trigger] words_for(other).0) ==> other == poll) by {
            assert forall|other: Poll| begins_with(word, #[trigger] words_for(other).0) implies other == poll by {
                let w = words_for(other).0;
                assert(word.subrange(0, 2)[1] == w[1]);
            }
        }
        assert(words_for(Poll::Cpu).0 == "-n"@);
        assert(words_for(Poll::Room).0 == "-r"@);
        assert(words_for(Poll::Mem).0 == "-m"@);
        assert(words_for(Poll::Net).0 == "-t"@);
        assert(words_for(Poll::Disk).0 == "-d"@);
    }
}

/// Each option gives the interval of its own, and no other: by the short word, by the long
/// one, and with its value joined to the short word.
pub proof fn law_option_gives_its_interval(poll: Poll, value: Seq<char>, given: GivenTexts)
    ensures
        asked(seq![words_for(poll).0, value], given) matches Asked::Run(g) && given_for(g, poll) == Some(value)
            && forall|other: Poll| other != poll ==> #[trigger] given_for(g, other) == given_for(given, other),
        asked(seq![words_for(poll).1, value], given) == asked(seq![words_for(poll).0, value], given),
        value.len() > 0 ==> asked(seq![words_for(poll).0 + value], given) == asked(
            seq![words_for(poll).0, value],
            given,
        ),
{
    let none = Seq::<Seq<char>>::empty();
    lemma_option_first(poll, words_for(poll).0, value, none, given);
    lemma_option_first(poll, words_for(poll).1, value, none, given);
    assert(seq![words_for(poll).0, value] + none =~= seq![words_for(poll).0, value]);
    assert(seq![words_for(poll).1, value] + none =~= seq![words_for(poll).1, value]);
    if value.len() > 0 {
        lemma_joined_first(poll, value, none, given);
        assert(seq![words_for(poll).0 + value] + none =~= seq![words_for(poll).0 + value]);
    }
}

/// Of two values for one interval the later counts, and options for two intervals may come in
/// either order.
pub proof fn law_order_of_options(
    first: Poll,
    second: Poll,
    a: Seq<char>,
    b: Seq<char>,
    rest: Seq<Seq<char>>,
    given: GivenTexts,
)
    ensures
        asked(seq![words_for(first).0, a] + (seq![words_for(first).0, b] + rest), given) == asked(
            seq![words_for(first).0, b] + rest,
            given,
        ),
        first != second ==> asked(seq![words_for(first).0, a] + (seq![words_for(second).0, b] + rest), given) == asked(
            seq![words_for(second).0, b] + (seq![words_for(first).0, a] + rest),
            given,
        ),
{
    let v = words_for(first).0;
    let w = words_for(second).0;
    lemma_option_first(first, v, a, seq![v, b] + rest, given);
    lemma_option_first(first, v, b, rest, given.with(first, Some(a)));
    lemma_option_first(first, v, b, rest, given);
    lemma_option_first(first, v, a, seq![w, b] + rest, given);
    lemma_option_first(second, w, b, rest, given.with(first, Some(a)));
    lemma_option_first(second, w, b, seq![v, a] + rest, given);
    lemma_option_first(first, v, a, rest, given.with(second, Some(b)));
}

/// Help and version are given wherever they are asked for, whatever options stand before them
/// and whatever follows.
pub proof fn law_help_and_version(poll: Poll, value: Seq<char>, rest: Seq<Seq<char>>, given: GivenTexts)
    ensures
        asked(seq!["-h"@] + rest, given) == Asked::Help,
        asked(seq!["--help"@] + rest, given) == Asked::Help,
        asked(seq!["-v"@] + rest, given) == Asked::Version,
        asked(seq!["--version"@] + rest, given) == Asked::Version,
        asked(seq![words_for(poll).0, value] + (seq!["-h"@] + rest), given) == Asked::Help,
        asked(seq![words_for(poll).0, value] + (seq!["-v"@] + rest), given) == Asked::Version,
{
    lemma_letters("-h"@);
    lemma_option_first(poll, words_for(poll).0, value, seq!["-h"@] + rest, given);
    lemma_option_first(poll, words_for(poll).0, value, seq!["-v"@] + rest, given);
    assert((seq!["-h"@] + rest)[0] == "-h"@);
    assert((seq!["--help"@] + rest)[0] == "--help"@);
    assert((seq!["-v"@] + rest)[0] == "-v"@);
    assert((seq!["--version"@] + rest)[0] == "--version"@);
    assert("-v"@[1] != "-h"@[1]);
}

/// A word without a dash at its start asks for nothing, and no words ask for nothing.
pub proof fn law_other_words(word: Seq<char>, rest: Seq<Seq<char>>, given: GivenTexts)
    requires
        word.len() == 0 || word[0] != '-',
    ensures
        asked(seq![word] + rest, given) == asked(rest, given),
        asked(Seq::empty(), given) == Asked::Run(given),
{
    lemma_letters(word);
    let all = seq![word] + rest;
    assert(all[0] == word);
    assert(all.skip(1) =~= rest);
    assert(option_joined(word) is None) by {
        reveal(begins_with);
        reveal(occurs_at);
        assert(word.len() >= 2 ==> word.subrange(0, 2)[0] != '-');
    }
}

/// Without an option everything is polled every two seconds. The processors can be polled ten
/// times a second, the thermometer once and the others twice; all but the thermometer at
/// least once a minute, and that at least once an hour. What is given between is kept.
pub proof fn law_intervals(poll: Poll, x: Number)
    requires
        x !is Nan,
    ensures
        interval_of(poll, None) == integer(2),
        at_most(fraction(1, 10), x) && at_most(x, integer(60)) ==> interval_of(Poll::Cpu, Some(x)) == x,
        below(x, fraction(1, 10)) ==> interval_of(Poll::Cpu, Some(x)) == fraction(1, 10),
        at_most(integer(1), x) && at_most(x, integer(3600)) ==> interval_of(Poll::Room, Some(x)) == x,
        below(x, integer(1)) ==> interval_of(Poll::Room, Some(x)) == integer(1),
        below(integer(3600), x) ==> interval_of(Poll::Room, Some(x)) == integer(3600),
        poll != Poll::Cpu && poll != Poll::Room ==> {
            &&& at_most(fraction(1, 2), x) && at_most(x, integer(60)) ==> interval_of(poll, Some(x)) == x
            &&& below(x, fraction(1, 2)) ==> interval_of(poll, Some(x)) == fraction(1, 2)
        },
        poll != Poll::Room && below(integer(60), x) ==> interval_of(poll, Some(x)) == integer(60),
{
    law_interval_within_bounds(Poll::Cpu, Some(x));
    law_interval_within_bounds(Poll::Room, Some(x));
    law_interval_within_bounds(poll, Some(x));
    law_interval_within_bounds(poll, None);
    law_interval_within_bounds(poll, Some(integer(2)));
    law_integers_are_exact(1);
    law_integers_are_exact(2);
    law_integers_are_exact(60);
    law_integers_are_exact(3600);
    let one = crate::binary64::one_units();
    vstd::arithmetic::power2::lemma_pow2_pos(1074);
    assert(1 * one * 1 <= 1 * one * 10 && 1 * one * 1 <= 1 * one * 2);
    crate::binary64::law_rounding_keeps_order(1 * one, 10, 1 * one, 1);
    crate::binary64::law_rounding_keeps_order(1 * one, 2, 1 * one, 1);
    law_numbers_are_ordered(fraction(1, 10), integer(1), integer(2));
    law_numbers_are_ordered(fraction(1, 2), integer(1), integer(2));
}

/// An option that stands last, without a value, takes back what was given for its interval.
pub proof fn law_option_without_a_value(poll: Poll, word: Seq<char>, given: GivenTexts)
    requires
        word == words_for(poll).0 || word == words_for(poll).1,
    ensures
        asked(seq![word], given) matches Asked::Run(g) && given_for(g, poll) is None && forall|other: Poll|
            other != poll ==> #[trigger] given_for(g, other) == given_for(given, other),
{
    lemma_letters(word);
    reveal_with_fuel(asked, 2);
    let all = seq![word];
    assert(all[0] == word);
    assert(all.skip(1) =~= Seq::empty());
    assert(option_named(word) == Some(poll));
    assert(word != "-h"@ && word != "--help"@ && word != "-v"@ && word != "--version"@) by {
        assert("-h"@[1] == 'h' && "-v"@[1] == 'v');
    }
}

} // verus!
