//! The names of makers in their colours: the model of the processor reads as it was.

use crate::color::law_sequence_has_no_width;
use crate::hardware::branded;
use crate::layout::{ends_at, law_width_of_joined, place_behind, Place, ESCAPE};
use crate::seen::{
    law_plain_reads, law_reads_joined, law_silent_reads, lemma_seen_joined, plain, reads, seen_from,
    silent,
};
use crate::text::{begins_with, replaced};
use vstd::prelude::*;

verus! {

/// A capital letter.
spec fn is_capital(c: char) -> bool {
    'A' <= c <= 'Z'
}

/// No capital letter stands inside an escape sequence.
spec fn calm(s: Seq<char>, place: Place) -> bool
    decreases s.len(),
{
    s.len() == 0 || ((place == Place::Plain || !is_capital(s[0])) && calm(s.skip(1), place_behind(place, s[0])))
}

proof fn lemma_calm_joined(a: Seq<char>, b: Seq<char>, place: Place)
    ensures
        calm(a + b, place) <==> calm(a, place) && calm(b, ends_at(a, place)),
    decreases a.len(),
{
    if a.len() == 0 {
        assert(a + b =~= b);
    } else {
        assert((a + b).skip(1) =~= a.skip(1) + b);
        assert((a + b)[0] == a[0]);
        lemma_calm_joined(a.skip(1), b, place_behind(place, a[0]));
    }
}

proof fn lemma_small_letters_are_calm(s: Seq<char>, place: Place)
    requires
        forall|i: int| 0 <= i < s.len() ==> !is_capital(#[trigger] s[i]),
    ensures
        calm(s, place),
    decreases s.len(),
{
    if s.len() > 0 {
        assert forall|i: int| 0 <= i < s.len() - 1 implies !is_capital(#[trigger] s.skip(1)[i]) by {
            assert(s.skip(1)[i] == s[i + 1]);
        }
        lemma_small_letters_are_calm(s.skip(1), place_behind(place, s[0]));
    }
}

proof fn lemma_plain_is_calm(s: Seq<char>)
    requires
        plain(s),
    ensures
        calm(s, Place::Plain),
    decreases s.len(),
{
    if s.len() > 0 {
        assert forall|i: int| 0 <= i < s.len() - 1 implies #[trigger] s.skip(1)[i] != ESCAPE by {
            assert(s.skip(1)[i] == s[i + 1]);
        }
        lemma_plain_is_calm(s.skip(1));
    }
}

/// Where a name is replaced by the same name in a colour, the same is seen.
proof fn lemma_same_is_seen(s: Seq<char>, place: Place, name: Seq<char>, colored: Seq<char>)
    requires
        name.len() > 0,
        is_capital(name[0]),
        plain(name),
        reads(colored, name),
        calm(colored, Place::Plain),
        calm(s, place),
    ensures
        calm(replaced(s, name, colored), place),
        seen_from(replaced(s, name, colored), place) == seen_from(s, place),
        ends_at(replaced(s, name, colored), place) == ends_at(s, place),
    decreases s.len(),
{
    if s.len() < name.len() {
    } else if begins_with(s, name) {
        assert(s.subrange(0, name.len() as int)[0] == s[0]);
        let rest = s.skip(name.len() as int);
        assert(s =~= name + rest);
        law_plain_reads(name);
        lemma_calm_joined(name, rest, place);
        lemma_same_is_seen(rest, place, name, colored);
        let r = replaced(rest, name, colored);
        lemma_calm_joined(colored, r, place);
        lemma_seen_joined(colored, r, place);
        lemma_seen_joined(name, rest, place);
        law_width_of_joined(colored, r, place);
        law_width_of_joined(name, rest, place);
    } else {
        let behind = place_behind(place, s[0]);
        lemma_same_is_seen(s.skip(1), behind, name, colored);
        let r = replaced(s.skip(1), name, colored);
        let all = seq![s[0]] + r;
        assert(all[0] == s[0]);
        assert(all.skip(1) =~= r);
    }
}

/// A name between a colour and what ends it.
proof fn lemma_colored(color: Seq<char>, name: Seq<char>, colored: Seq<char>)
    requires
        silent(color),
        forall|i: int| 0 <= i < color.len() ==> !is_capital(#[trigger] color[i]),
        plain(name),
        colored == color + name + "\x1b[0m"@ + "\x1b[1m"@,
    ensures
        reads(colored, name),
        calm(colored, Place::Plain),
{
    let reset = "\x1b[0m"@;
    let bold = "\x1b[1m"@;
    reveal_strlit("\x1b[0m");
    reveal_strlit("\x1b[1m");
    law_sequence_has_no_width(reset);
    law_sequence_has_no_width(bold);
    law_silent_reads(color);
    law_silent_reads(reset);
    law_silent_reads(bold);
    law_plain_reads(name);
    let e = Seq::<char>::empty();
    law_reads_joined(color, name, e, name);
    law_reads_joined(color + name, reset, e + name, e);
    law_reads_joined(color + name + reset, bold, e + name + e, e);
    assert(e + name + e + e =~= name);
    lemma_small_letters_are_calm(color, Place::Plain);
    lemma_small_letters_are_calm(reset, Place::Plain);
    lemma_small_letters_are_calm(bold, Place::Plain);
    lemma_plain_is_calm(name);
    lemma_calm_joined(color, name, Place::Plain);
    lemma_calm_joined(color + name, reset, Place::Plain);
    lemma_calm_joined(color + name + reset, bold, Place::Plain);
}

proof fn lemma_makers()
    ensures
        reads("\x1b[1;38;2;237;28;36mAMD\x1b[0m\x1b[1m"@, "AMD"@),
        calm("\x1b[1;38;2;237;28;36mAMD\x1b[0m\x1b[1m"@, Place::Plain),
        reads("\x1b[1;38;2;0;113;197mIntel\x1b[0m\x1b[1m"@, "Intel"@),
        calm("\x1b[1;38;2;0;113;197mIntel\x1b[0m\x1b[1m"@, Place::Plain),
        reads("\x1b[1;38;2;192;192;192mApple\x1b[0m\x1b[1m"@, "Apple"@),
        calm("\x1b[1;38;2;192;192;192mApple\x1b[0m\x1b[1m"@, Place::Plain),
{
    reveal_strlit("\x1b[0m");
    reveal_strlit("\x1b[1m");
    reveal_strlit("\x1b[1;38;2;237;28;36m");
    reveal_strlit("AMD");
    reveal_strlit("\x1b[1;38;2;237;28;36mAMD\x1b[0m\x1b[1m");
    law_sequence_has_no_width("\x1b[1;38;2;237;28;36m"@);
    assert("\x1b[1;38;2;237;28;36mAMD\x1b[0m\x1b[1m"@ =~= "\x1b[1;38;2;237;28;36m"@ + "AMD"@ + "\x1b[0m"@
        + "\x1b[1m"@);
    lemma_colored("\x1b[1;38;2;237;28;36m"@, "AMD"@, "\x1b[1;38;2;237;28;36mAMD\x1b[0m\x1b[1m"@);
    reveal_strlit("\x1b[1;38;2;0;113;197m");
    reveal_strlit("Intel");
    reveal_strlit("\x1b[1;38;2;0;113;197mIntel\x1b[0m\x1b[1m");
    law_sequence_has_no_width("\x1b[1;38;2;0;113;197m"@);
    assert("\x1b[1;38;2;0;113;197mIntel\x1b[0m\x1b[1m"@ =~= "\x1b[1;38;2;0;113;197m"@ + "Intel"@ + "\x1b[0m"@
        + "\x1b[1m"@);
    lemma_colored("\x1b[1;38;2;0;113;197m"@, "Intel"@, "\x1b[1;38;2;0;113;197mIntel\x1b[0m\x1b[1m"@);
    reveal_strlit("\x1b[1;38;2;192;192;192m");
    reveal_strlit("Apple");
    reveal_strlit("\x1b[1;38;2;192;192;192mApple\x1b[0m\x1b[1m");
    law_sequence_has_no_width("\x1b[1;38;2;192;192;192m"@);
    assert("\x1b[1;38;2;192;192;192mApple\x1b[0m\x1b[1m"@ =~= "\x1b[1;38;2;192;192;192m"@ + "Apple"@ + "\x1b[0m"@
        + "\x1b[1m"@);
    lemma_colored("\x1b[1;38;2;192;192;192m"@, "Apple"@, "\x1b[1;38;2;192;192;192mApple\x1b[0m\x1b[1m"@);
}

proof fn lemma_other_makers()
    ensures
        reads("\x1b[1;38;2;0;193;222mARM\x1b[0m\x1b[1m"@, "ARM"@),
        calm("\x1b[1;38;2;0;193;222mARM\x1b[0m\x1b[1m"@, Place::Plain),
        reads("\x1b[1;38;2;155;81;224mRISC-V\x1b[0m\x1b[1m"@, "RISC-V"@),
        calm("\x1b[1;38;2;155;81;224mRISC-V\x1b[0m\x1b[1m"@, Place::Plain),
        reads("\x1b[1;38;2;31;112;193mIBM\x1b[0m\x1b[1m"@, "IBM"@),
        calm("\x1b[1;38;2;31;112;193mIBM\x1b[0m\x1b[1m"@, Place::Plain),
{
    reveal_strlit("\x1b[0m");
    reveal_strlit("\x1b[1m");
    reveal_strlit("\x1b[1;38;2;0;193;222m");
    reveal_strlit("ARM");
    reveal_strlit("\x1b[1;38;2;0;193;222mARM\x1b[0m\x1b[1m");
    law_sequence_has_no_width("\x1b[1;38;2;0;193;222m"@);
    assert("\x1b[1;38;2;0;193;222mARM\x1b[0m\x1b[1m"@ =~= "\x1b[1;38;2;0;193;222m"@ + "ARM"@ + "\x1b[0m"@
        + "\x1b[1m"@);
    lemma_colored("\x1b[1;38;2;0;193;222m"@, "ARM"@, "\x1b[1;38;2;0;193;222mARM\x1b[0m\x1b[1m"@);
    reveal_strlit("\x1b[1;38;2;155;81;224m");
    reveal_strlit("RISC-V");
    reveal_strlit("\x1b[1;38;2;155;81;224mRISC-V\x1b[0m\x1b[1m");
    law_sequence_has_no_width("\x1b[1;38;2;155;81;224m"@);
    assert("\x1b[1;38;2;155;81;224mRISC-V\x1b[0m\x1b[1m"@ =~= "\x1b[1;38;2;155;81;224m"@ + "RISC-V"@ + "\x1b[0m"@
        + "\x1b[1m"@);
    lemma_colored("\x1b[1;38;2;155;81;224m"@, "RISC-V"@, "\x1b[1;38;2;155;81;224mRISC-V\x1b[0m\x1b[1m"@);
    reveal_strlit("\x1b[1;38;2;31;112;193m");
    reveal_strlit("IBM");
    reveal_strlit("\x1b[1;38;2;31;112;193mIBM\x1b[0m\x1b[1m");
    law_sequence_has_no_width("\x1b[1;38;2;31;112;193m"@);
    assert("\x1b[1;38;2;31;112;193mIBM\x1b[0m\x1b[1m"@ =~= "\x1b[1;38;2;31;112;193m"@ + "IBM"@ + "\x1b[0m"@
        + "\x1b[1m"@);
    lemma_colored("\x1b[1;38;2;31;112;193m"@, "IBM"@, "\x1b[1;38;2;31;112;193mIBM\x1b[0m\x1b[1m"@);
}

/// The model in the colours of its maker reads as the model.
pub proof fn law_brand_reads(model: Seq<char>)
    requires
        plain(model),
    ensures
        reads(branded(model), model),
{
    lemma_makers();
    lemma_other_makers();
    law_plain_reads(model);
    lemma_plain_is_calm(model);
    reveal_strlit("AMD");
    reveal_strlit("Intel");
    reveal_strlit("Apple");
    reveal_strlit("ARM");
    reveal_strlit("RISC-V");
    reveal_strlit("IBM");
    let plain_place = Place::Plain;
    let amd = replaced(model, "AMD"@, "\x1b[1;38;2;237;28;36mAMD\x1b[0m\x1b[1m"@);
    lemma_same_is_seen(model, plain_place, "AMD"@, "\x1b[1;38;2;237;28;36mAMD\x1b[0m\x1b[1m"@);
    let intel = replaced(amd, "Intel"@, "\x1b[1;38;2;0;113;197mIntel\x1b[0m\x1b[1m"@);
    lemma_same_is_seen(amd, plain_place, "Intel"@, "\x1b[1;38;2;0;113;197mIntel\x1b[0m\x1b[1m"@);
    let apple = replaced(intel, "Apple"@, "\x1b[1;38;2;192;192;192mApple\x1b[0m\x1b[1m"@);
    lemma_same_is_seen(intel, plain_place, "Apple"@, "\x1b[1;38;2;192;192;192mApple\x1b[0m\x1b[1m"@);
    let arm = replaced(apple, "ARM"@, "\x1b[1;38;2;0;193;222mARM\x1b[0m\x1b[1m"@);
    lemma_same_is_seen(apple, plain_place, "ARM"@, "\x1b[1;38;2;0;193;222mARM\x1b[0m\x1b[1m"@);
    let risc = replaced(arm, "RISC-V"@, "\x1b[1;38;2;155;81;224mRISC-V\x1b[0m\x1b[1m"@);
    lemma_same_is_seen(arm, plain_place, "RISC-V"@, "\x1b[1;38;2;155;81;224mRISC-V\x1b[0m\x1b[1m"@);
    lemma_same_is_seen(risc, plain_place, "IBM"@, "\x1b[1;38;2;31;112;193mIBM\x1b[0m\x1b[1m"@);
}

} // verus!
