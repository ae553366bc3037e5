//! Tables: values under names, in the order in which the names came.

use crate::text::{equal, texts};
use vstd::prelude::*;

verus! {

/// A value under a name.
pub struct Entry<T> {
    pub name: String,
    pub value: T,
}

impl<T: View> View for Entry<T> {
    type V = (Seq<char>, T::V);

    open spec fn view(&self) -> (Seq<char>, T::V) {
        (self.name@, self.value@)
    }
}

/// The contents of a table.
pub open spec fn rows_of<T: View>(v: Seq<Entry<T>>) -> Seq<(Seq<char>, T::V)> {
    Seq::new(v.len(), |i: int| v[i]@)
}

/// No name occurs twice.
pub open spec fn distinct<V>(s: Seq<(Seq<char>, V)>) -> bool {
    forall|i: int, j: int| 0 <= i < j < s.len() ==> (#[trigger] s[i]).0 != (#[trigger] s[j]).0
}

/// The place of a name, or the number of rows where the name does not occur.
pub open spec fn slot<V>(s: Seq<(Seq<char>, V)>, name: Seq<char>) -> nat
    decreases s.len(),
{
    if s.len() == 0 || s[0].0 == name {
        0
    } else {
        1 + slot(s.skip(1), name)
    }
}

/// The name occurs.
pub open spec fn listed<V>(s: Seq<(Seq<char>, V)>, name: Seq<char>) -> bool {
    exists|i: int| 0 <= i < s.len() && (#[trigger] s[i]).0 == name
}

/// The value under a name.
pub open spec fn value_of<V>(s: Seq<(Seq<char>, V)>, name: Seq<char>) -> Option<V> {
    if slot(s, name) < s.len() {
        Some(s[slot(s, name) as int].1)
    } else {
        None
    }
}

/// The table with a value under a name: in the row of the name, or in a new last
/// row.
pub open spec fn stored<V>(s: Seq<(Seq<char>, V)>, name: Seq<char>, value: V) -> Seq<(Seq<char>, V)> {
    if slot(s, name) < s.len() {
        s.update(slot(s, name) as int, (name, value))
    } else {
        s.push((name, value))
    }
}

/// What is found of a name: its place, and that it is the first of that name.
pub proof fn lemma_slot<V>(s: Seq<(Seq<char>, V)>, name: Seq<char>)
    ensures
        slot(s, name) <= s.len(),
        slot(s, name) < s.len() ==> s[slot(s, name) as int].0 == name,
        slot(s, name) < s.len() <==> listed(s, name),
        forall|i: int| 0 <= i < slot(s, name) ==> (#[trigger] s[i]).0 != name,
    decreases s.len(),
{
    if s.len() > 0 && s[0].0 != name {
        let rest = s.skip(1);
        lemma_slot(rest, name);
        assert forall|i: int| 0 <= i < slot(s, name) implies (#[trigger] s[i]).0 != name by {
            if i > 0 {
                assert(rest[i - 1] == s[i]);
            }
        }
        if listed(s, name) {
            let i = choose|i: int| 0 <= i < s.len() && (#[trigger] s[i]).0 == name;
            assert(rest[i - 1] == s[i]);
        }
        if listed(rest, name) {
            let i = choose|i: int| 0 <= i < rest.len() && (#[trigger] rest[i]).0 == name;
            assert(rest[i] == s[i + 1]);
        }
    }
}

proof fn lemma_slot_is<V>(s: Seq<(Seq<char>, V)>, name: Seq<char>, n: nat)
    requires
        n <= s.len(),
        n < s.len() ==> s[n as int].0 == name,
        forall|i: int| 0 <= i < n ==> (#[trigger] s[i]).0 != name,
    ensures
        slot(s, name) == n,
{
    lemma_slot(s, name);
    if slot(s, name) < n {
        assert(s[slot(s, name) as int].0 != name);
    }
    if n < slot(s, name) {
        assert(s[n as int].0 != name);
    }
}

/// The place of a name, or the number of rows where the name does not occur.
pub fn find<T: View>(v: &Vec<Entry<T>>, name: &str) -> (r: usize)
    ensures
        r == slot(rows_of(v@), name@),
        r <= v.len(),
        r < v.len() ==> v@[r as int].name@ == name@,
{
    let mut i: usize = 0;
    while i < v.len() && !equal(v[i].name.as_str(), name)
        invariant
            i <= v.len(),
            forall|j: int| 0 <= j < i ==> (#[trigger] rows_of(v@)[j]).0 != name@,
        decreases v.len() - i,
    {
        i = i + 1;
    }
    proof {
        lemma_slot_is(rows_of(v@), name@, i as nat);
    }
    i
}

/// Puts a value under a name.
pub fn store<T: View>(v: &mut Vec<Entry<T>>, name: &str, value: T)
    ensures
        rows_of(final(v)@) == stored(rows_of(old(v)@), name@, value@),
{
    let i: usize = find(v, name);
    let entry = Entry { name: name.to_owned(), value };
    if i < v.len() {
        proof {
            assert(rows_of(v@.update(i as int, entry)) =~= rows_of(v@).update(i as int, entry@));
        }
        v.set(i, entry);
    } else {
        proof {
            assert(rows_of(v@.push(entry)) =~= rows_of(v@).push(entry@));
        }
        v.push(entry);
    }
}

/// A table in which no name occurs twice stays so: a name has one value, the last
/// that was put under it, and no other name is touched.
pub proof fn law_stored<V>(s: Seq<(Seq<char>, V)>, name: Seq<char>, value: V, other: Seq<char>)
    requires
        distinct(s),
    ensures
        distinct(stored(s, name, value)),
        value_of(stored(s, name, value), name) == Some(value),
        other != name ==> value_of(stored(s, name, value), other) == value_of(s, other),
        listed(stored(s, name, value), other) <==> other == name || listed(s, other),
{
    lemma_slot(s, name);
    lemma_slot(s, other);
    let r = stored(s, name, value);
    let n = slot(s, name);
    let m = slot(s, other);
    if n < s.len() {
        assert forall|i: int| 0 <= i < r.len() implies (#[trigger] r[i]).0 == s[i].0 by {}
        lemma_slot_is(r, name, n);
        lemma_slot_is(r, other, m);
    } else {
        assert forall|i: int| 0 <= i < s.len() implies (#[trigger] r[i]) == s[i] by {}
        assert forall|i: int| 0 <= i < s.len() implies (#[trigger] s[i]).0 != name by {}
        assert forall|i: int| 0 <= i < n implies (#[trigger] r[i]).0 != name by {
            assert(r[i] == s[i]);
        }
        assert(r[n as int].0 == name);
        lemma_slot_is(r, name, n);
        if other != name {
            if m < s.len() {
                lemma_slot_is(r, other, m);
            } else {
                assert forall|i: int| 0 <= i < r.len() implies (#[trigger] r[i]).0 != other by {
                    if i < s.len() {
                        assert(s[i].0 != other);
                    }
                }
                lemma_slot_is(r, other, r.len());
            }
        }
    }
    lemma_slot(r, other);
    lemma_slot(r, name);
}

/// The rows whose names are among these.
pub open spec fn only<V>(s: Seq<(Seq<char>, V)>, names: Seq<Seq<char>>) -> Seq<(Seq<char>, V)>
    decreases s.len(),
{
    if s.len() == 0 {
        Seq::empty()
    } else if names.contains(s.last().0) {
        only(s.drop_last(), names).push(s.last())
    } else {
        only(s.drop_last(), names)
    }
}

/// The names of the rows whose names are not among these.
pub open spec fn missing<V>(s: Seq<(Seq<char>, V)>, names: Seq<Seq<char>>) -> Seq<Seq<char>>
    decreases s.len(),
{
    if s.len() == 0 {
        Seq::empty()
    } else if names.contains(s.last().0) {
        missing(s.drop_last(), names)
    } else {
        missing(s.drop_last(), names).push(s.last().0)
    }
}

/// The name is among these.
pub fn is_among(names: &Vec<String>, name: &str) -> (r: bool)
    ensures
        r == texts(names@).contains(name@),
{
    let mut i: usize = 0;
    while i < names.len()
        invariant
            i <= names.len(),
            forall|j: int| 0 <= j < i ==> (#[trigger] texts(names@)[j]) != name@,
        decreases names.len() - i,
    {
        if equal(names[i].as_str(), name) {
            proof {
                assert(texts(names@)[i as int] == name@);
            }
            return true;
        }
        i = i + 1;
    }
    false
}

/// Keeps the rows whose names are among these, and gives the names of the others.
pub fn keep_only<T: View>(v: Vec<Entry<T>>, names: &Vec<String>) -> (r: (Vec<Entry<T>>, Vec<String>))
    ensures
        rows_of(r.0@) == only(rows_of(v@), texts(names@)),
        texts(r.1@) == missing(rows_of(v@), texts(names@)),
{
    let ghost all = rows_of(v@);
    let mut rest = v;
    let mut kept: Vec<Entry<T>> = Vec::new();
    let mut gone: Vec<String> = Vec::new();
    let ghost mut done: int = 0;
    proof {
        assert(all.skip(0) =~= all);
        assert(all.take(0) =~= Seq::empty());
        assert(rows_of(kept@) =~= Seq::empty());
        assert(texts(gone@) =~= Seq::empty());
    }
    while rest.len() > 0
        invariant
            0 <= done <= all.len(),
            rows_of(rest@) == all.skip(done),
            rows_of(kept@) == only(all.take(done), texts(names@)),
            texts(gone@) == missing(all.take(done), texts(names@)),
        decreases rest.len(),
    {
        let ghost before = rest@;
        let entry = rest.remove(0);
        proof {
            assert(rows_of(before).len() == before.len());
            assert(rows_of(before)[0] == entry@);
            assert forall|i: int| 0 <= i < rest.len() implies rows_of(rest@)[i] == all.skip(done + 1)[i] by {
                assert(rows_of(before)[i + 1] == before[i + 1]@);
            }
            assert(rows_of(rest@) =~= all.skip(done + 1));
            assert(all.take(done + 1).drop_last() =~= all.take(done));
            assert(all.take(done + 1).last() == entry@);
            assert(rows_of(kept@.push(entry)) =~= rows_of(kept@).push(entry@));
            assert(texts(gone@.push(entry.name)) =~= texts(gone@).push(entry.name@));
            done = done + 1;
        }
        if is_among(names, entry.name.as_str()) {
            kept.push(entry);
        } else {
            gone.push(entry.name);
        }
    }
    proof {
        assert(rows_of(rest@).len() == 0);
        assert(all.take(done) =~= all);
    }
    (kept, gone)
}

/// What is kept of a table is what was in it under the names that are kept, and
/// what is missing are the other names.
pub proof fn law_only<V>(s: Seq<(Seq<char>, V)>, names: Seq<Seq<char>>, name: Seq<char>)
    requires
        distinct(s),
    ensures
        distinct(only(s, names)),
        listed(only(s, names), name) <==> listed(s, name) && names.contains(name),
        names.contains(name) ==> value_of(only(s, names), name) == value_of(s, name),
        missing(s, names).contains(name) <==> listed(s, name) && !names.contains(name),
    decreases s.len(),
{
    lemma_slot(s, name);
    if s.len() > 0 {
        let front = s.drop_last();
        let last = s.last();
        law_only(front, names, name);
        law_only(front, names, last.0);
        lemma_slot(front, name);
        lemma_slot(only(front, names), name);
        assert forall|n: Seq<char>| listed(s, n) <==> listed(front, n) || n == last.0 by {
            if listed(s, n) {
                let i = choose|i: int| 0 <= i < s.len() && (#[trigger] s[i]).0 == n;
                if i < front.len() {
                    assert(front[i] == s[i]);
                }
            }
            if listed(front, n) {
                let i = choose|i: int| 0 <= i < front.len() && (#[trigger] front[i]).0 == n;
                assert(front[i] == s[i]);
            }
            if n == last.0 {
                assert(s[s.len() - 1].0 == n);
            }
        }
        let r = only(s, names);
        let f = only(front, names);
        assert(!listed(front, last.0)) by {
            if listed(front, last.0) {
                let i = choose|i: int| 0 <= i < front.len() && (#[trigger] front[i]).0 == last.0;
                assert(s[i].0 == s[s.len() - 1].0);
            }
        }
        if names.contains(last.0) {
            assert(r == f.push(last));
            assert forall|i: int, j: int| 0 <= i < j < r.len() implies (#[trigger] r[i]).0 != (#[trigger] r[j]).0 by {
                assert(r[i] == f[i]);
                if j < f.len() {
                    assert(r[j] == f[j]);
                } else if f[i].0 == last.0 {
                    assert(listed(f, last.0));
                }
            }
            assert(listed(r, name) <==> listed(f, name) || name == last.0) by {
                if listed(r, name) {
                    let i = choose|i: int| 0 <= i < r.len() && (#[trigger] r[i]).0 == name;
                    if i < f.len() {
                        assert(f[i] == r[i]);
                    }
                }
                if listed(f, name) {
                    let i = choose|i: int| 0 <= i < f.len() && (#[trigger] f[i]).0 == name;
                    assert(f[i] == r[i]);
                }
                if name == last.0 {
                    assert(r[r.len() - 1].0 == name);
                }
            }
            lemma_slot(r, name);
            if name == last.0 {
                lemma_value(r, name, r.len() - 1);
                lemma_value(s, name, s.len() - 1);
            } else if listed(front, name) {
                let i = slot(front, name) as int;
                assert(front[i] == s[i]);
                lemma_value(s, name, i);
                if names.contains(name) {
                    let k = slot(f, name) as int;
                    assert(f[k] == r[k]);
                    lemma_value(r, name, k);
                }
            }
        } else {
            assert(r == f);
            let m = missing(front, names);
            assert(missing(s, names) == m.push(last.0));
            assert(missing(s, names).contains(name) <==> m.contains(name) || name == last.0) by {
                let w = m.push(last.0);
                if w.contains(name) {
                    let i = choose|i: int| 0 <= i < w.len() && w[i] == name;
                    if i < m.len() {
                        assert(m[i] == name);
                    }
                }
                if m.contains(name) {
                    let i = choose|i: int| 0 <= i < m.len() && m[i] == name;
                    assert(w[i] == name);
                }
                if name == last.0 {
                    assert(w[w.len() - 1] == name);
                }
            }
            if name != last.0 && listed(front, name) {
                let i = slot(front, name) as int;
                assert(front[i] == s[i]);
                lemma_value(s, name, i);
            }
        }
    }
}

/// In a table in which no name occurs twice, a row holds the value of its name.
pub proof fn lemma_value<V>(s: Seq<(Seq<char>, V)>, name: Seq<char>, i: int)
    requires
        distinct(s),
        0 <= i < s.len(),
        s[i].0 == name,
    ensures
        slot(s, name) == i,
        value_of(s, name) == Some(s[i].1),
        listed(s, name),
{
    assert forall|j: int| 0 <= j < i implies (#[trigger] s[j]).0 != name by {
        assert(s[j].0 != s[i].0);
    }
    lemma_slot_is(s, name, i as nat);
}

} // verus!
