//! Tables of texts: labels of values, and tables keyed by message and signal.

use crate::text;
use vstd::prelude::*;

verus! {

// == Labels ===================================================================

/// Labels, each under a key.
#[derive(Debug)]
pub struct Labels {
    pub pairs: Vec<(String, String)>,
}

/// The table that pairs write; of pairs with the same key the last one counts.
pub open spec fn label_table(pairs: Seq<(String, String)>) -> Map<Seq<char>, Seq<char>>
    decreases pairs.len(),
{
    if pairs.len() == 0 {
        Map::empty()
    } else {
        label_table(pairs.drop_last()).insert(pairs.last().0@, pairs.last().1@)
    }
}

impl View for Labels {
    type V = Map<Seq<char>, Seq<char>>;

    open spec fn view(&self) -> Map<Seq<char>, Seq<char>> {
        label_table(self.pairs@)
    }
}

impl Labels {
    /// No labels.
    pub fn new() -> (labels: Self)
        ensures
            labels@ == Map::<Seq<char>, Seq<char>>::empty(),
    {
        Self { pairs: Vec::new() }
    }

    /// Enters a label, in place of an older one under the same key.
    pub fn insert(&mut self, key: String, label: String)
        ensures
            final(self)@ == old(self)@.insert(key@, label@),
    {
        self.pairs.push((key, label));
        assert(self.pairs@.drop_last() =~= old(self).pairs@);
    }

    /// The label under a key.
    pub fn get(&self, key: &str) -> (label: Option<&String>)
        ensures
            label is Some <==> self@.contains_key(key@),
            label is Some ==> (label->0)@ == self@[key@],
    {
        let mut i: usize = self.pairs.len();
        assert(self.pairs@.take(i as int) =~= self.pairs@);
        while i > 0
            invariant
                i <= self.pairs.len(),
                label_table(self.pairs@.take(i as int)).contains_key(key@) == self@.contains_key(
                    key@,
                ),
                self@.contains_key(key@) ==> label_table(self.pairs@.take(i as int))[key@]
                    == self@[key@],
            decreases i,
        {
            let ghost now = self.pairs@.take(i as int);
            assert(now.drop_last() =~= self.pairs@.take(i - 1));
            if text::same_text(self.pairs[i - 1].0.as_str(), key) {
                return Some(&self.pairs[i - 1].1);
            }
            i -= 1;
        }
        None
    }
}

impl Clone for Labels {
    fn clone(&self) -> (labels: Self)
        ensures
            labels@ == self@,
    {
        let mut pairs: Vec<(String, String)> = Vec::new();
        let mut i: usize = 0;
        while i < self.pairs.len()
            invariant
                i <= self.pairs.len(),
                pairs@ == self.pairs@.take(i as int),
            decreases self.pairs.len() - i,
        {
            pairs.push((self.pairs[i].0.clone(), self.pairs[i].1.clone()));
            assert(pairs@ =~= self.pairs@.take(i + 1));
            i += 1;
        }
        assert(self.pairs@.take(i as int) =~= self.pairs@);
        Self { pairs }
    }
}

// == Tables by message and signal =============================================

/// A message and one of its signals, by their names.
pub type SignalName = (Seq<char>, Seq<char>);

/// A table keyed by message and signal.
pub struct Lookup<V> {
    entries: Vec<(String, String, V)>,
}

/// The table that entries write; of entries with the same key the last one counts.
pub open spec fn entry_table<V>(entries: Seq<(String, String, V)>) -> Map<SignalName, V>
    decreases entries.len(),
{
    if entries.len() == 0 {
        Map::empty()
    } else {
        let e = entries.last();
        entry_table(entries.drop_last()).insert((e.0@, e.1@), e.2)
    }
}

impl<V> View for Lookup<V> {
    type V = Map<SignalName, V>;

    closed spec fn view(&self) -> Map<SignalName, V> {
        entry_table(self.entries@)
    }
}

impl<V> Lookup<V> {
    /// An empty table.
    pub fn new() -> (table: Self)
        ensures
            table@ == Map::<SignalName, V>::empty(),
    {
        Self { entries: Vec::new() }
    }

    /// Enters a value, in place of an older one of the same signal.
    pub fn insert(&mut self, message: String, signal: String, value: V)
        ensures
            final(self)@ == old(self)@.insert((message@, signal@), value),
    {
        self.entries.push((message, signal, value));
        assert(self.entries@.drop_last() =~= old(self).entries@);
    }

    /// The value of a signal.
    pub fn get(&self, message: &str, signal: &str) -> (value: Option<&V>)
        ensures
            value is Some <==> self@.contains_key((message@, signal@)),
            value is Some ==> *(value->0) == self@[(message@, signal@)],
    {
        let ghost key = (message@, signal@);
        let mut i: usize = self.entries.len();
        assert(self.entries@.take(i as int) =~= self.entries@);
        while i > 0
            invariant
                i <= self.entries.len(),
                key == (message@, signal@),
                entry_table(self.entries@.take(i as int)).contains_key(key) == self@.contains_key(
                    key,
                ),
                self@.contains_key(key) ==> entry_table(self.entries@.take(i as int))[key]
                    == self@[key],
            decreases i,
        {
            let ghost now = self.entries@.take(i as int);
            assert(now.drop_last() =~= self.entries@.take(i - 1));
            let e = &self.entries[i - 1];
            if text::same_text(e.0.as_str(), message) && text::same_text(e.1.as_str(), signal) {
                return Some(&self.entries[i - 1].2);
            }
            i -= 1;
        }
        None
    }
}

/// A table of labels gives a key the label that was written for it last.
pub proof fn law_last_label_is_found(pairs: Seq<(String, String)>, i: int)
    requires
        0 <= i < pairs.len(),
        forall|j: int| i < j < pairs.len() ==> (#[trigger] pairs[j]).0@ != pairs[i].0@,
    ensures
        label_table(pairs).contains_key(pairs[i].0@),
        label_table(pairs)[pairs[i].0@] == pairs[i].1@,
    decreases pairs.len(),
{
    let most = pairs.drop_last();
    if i < most.len() {
        assert forall|j: int| i < j < most.len() implies (#[trigger] most[j]).0@ != most[i].0@ by {
            assert(pairs[j] == most[j]);
        }
        law_last_label_is_found(most, i);
        assert(pairs[pairs.len() - 1].0@ != pairs[i].0@);
    }
}

/// A table of labels has no keys but those that were written.
pub proof fn law_other_keys_have_no_label(pairs: Seq<(String, String)>, key: Seq<char>)
    requires
        forall|i: int| 0 <= i < pairs.len() ==> (#[trigger] pairs[i]).0@ != key,
    ensures
        !label_table(pairs).contains_key(key),
    decreases pairs.len(),
{
    if pairs.len() > 0 {
        let most = pairs.drop_last();
        assert forall|i: int| 0 <= i < most.len() implies (#[trigger] most[i]).0@ != key by {
            assert(pairs[i] == most[i]);
        }
        law_other_keys_have_no_label(most, key);
        assert(pairs[pairs.len() - 1].0@ != key);
    }
}

/// Of the entries for a message and a signal the last one counts.
pub proof fn law_last_entry_is_found<V>(entries: Seq<(String, String, V)>, i: int)
    requires
        0 <= i < entries.len(),
        forall|j: int|
            i < j < entries.len() ==> (#[trigger] entries[j]).0@ != entries[i].0@ || entries[j].1@
                != entries[i].1@,
    ensures
        entry_table(entries).contains_key((entries[i].0@, entries[i].1@)),
        entry_table(entries)[(entries[i].0@, entries[i].1@)] == entries[i].2,
    decreases entries.len(),
{
    let most = entries.drop_last();
    if i < most.len() {
        assert forall|j: int| i < j < most.len() implies (#[trigger] most[j]).0@ != most[i].0@
            || most[j].1@ != most[i].1@ by {
            assert(most[j] == entries[j]);
        }
        law_last_entry_is_found(most, i);
        assert(entries[entries.len() - 1].0@ != entries[i].0@ || entries[entries.len() - 1].1@
            != entries[i].1@);
    }
}

/// A message and a signal without an entry are not in the table.
pub proof fn law_other_names_have_no_entry<V>(entries: Seq<(String, String, V)>, name: SignalName)
    requires
        forall|j: int|
            0 <= j < entries.len() ==> (#[trigger] entries[j]).0@ != name.0 || entries[j].1@
                != name.1,
    ensures
        !entry_table(entries).contains_key(name),
    decreases entries.len(),
{
    if entries.len() > 0 {
        let most = entries.drop_last();
        assert forall|j: int| 0 <= j < most.len() implies (#[trigger] most[j]).0@ != name.0
            || most[j].1@ != name.1 by {
            assert(most[j] == entries[j]);
        }
        law_other_names_have_no_entry(most, name);
        assert(entries[entries.len() - 1].0@ != name.0 || entries[entries.len() - 1].1@ != name.1);
    }
}

} // verus!
