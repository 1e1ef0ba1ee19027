use vstd::prelude::*;

verus! {

/// The visibility of a quest or quest entry in the player's log.
#[derive(Clone, Copy, Debug, PartialEq, Eq, Structural)]
pub enum EntryState {
    Hidden,
    Visible,
    Active,
    Complete,
}

impl EntryState {
    /// Parses a state name; anything unrecognized reads as hidden.
    pub fn from_str(s: &str) -> (r: EntryState)
        ensures
            r == (if s@ == "Hidden"@ {
                EntryState::Hidden
            } else if s@ == "Visible"@ {
                EntryState::Visible
            } else if s@ == "Active"@ {
                EntryState::Active
            } else if s@ == "Complete"@ {
                EntryState::Complete
            } else {
                EntryState::Hidden
            }),
    {
        let owned = String::from_str(s);
        if owned == String::from_str("Hidden") {
            EntryState::Hidden
        } else if owned == String::from_str("Visible") {
            EntryState::Visible
        } else if owned == String::from_str("Active") {
            EntryState::Active
        } else if owned == String::from_str("Complete") {
            EntryState::Complete
        } else {
            EntryState::Hidden
        }
    }
}

/// The first entry state recorded under `name`, if any.
pub open spec fn entry_lookup(entries: Seq<(String, EntryState)>, name: Seq<char>) -> Option<
    EntryState,
>
    decreases entries.len(),
{
    if entries.len() == 0 {
        None
    } else if entries[0].0@ == name {
        Some(entries[0].1)
    } else {
        entry_lookup(entries.drop_first(), name)
    }
}

/// One quest's state: its own log visibility and the states of its
/// entries, in the order they were first recorded.
#[derive(Debug)]
pub struct QuestState {
    id: String,
    state: EntryState,
    entries: Vec<(String, EntryState)>,
}

impl QuestState {
    pub closed spec fn spec_id(&self) -> Seq<char> {
        self.id@
    }

    pub closed spec fn spec_state(&self) -> EntryState {
        self.state
    }

    pub closed spec fn spec_entries(&self) -> Seq<(String, EntryState)> {
        self.entries@
    }

    pub fn new(id: String) -> (q: QuestState)
        ensures
            q.spec_id() == id@,
            q.spec_state() == EntryState::Hidden,
            q.spec_entries().len() == 0,
    {
        QuestState { id, state: EntryState::Hidden, entries: Vec::new() }
    }

    /// The recorded state of the named entry; an entry never recorded is
    /// hidden.
    #[verifier::loop_isolation(false)]
    pub fn entry_state(&self, entry: &str) -> (r: EntryState)
        ensures
            r == (match entry_lookup(self.spec_entries(), entry@) {
                Some(st) => st,
                None => EntryState::Hidden,
            }),
    {
        let wanted = String::from_str(entry);
        proof {
            assert(self.spec_entries().skip(0) =~= self.spec_entries());
        }
        let mut k: usize = 0;
        while k < self.entries.len()
            invariant
                k <= self.entries@.len(),
                wanted@ == entry@,
                entry_lookup(self.spec_entries(), entry@) == entry_lookup(
                    self.spec_entries().skip(k as int),
                    entry@,
                ),
            decreases self.entries@.len() - k,
        {
            proof {
                assert(self.spec_entries().skip(k as int).drop_first() =~= self.spec_entries().skip(
                    k + 1,
                ));
                assert(self.spec_entries().skip(k as int)[0] == self.spec_entries()[k as int]);
            }
            if self.entries[k].0 == wanted {
                return self.entries[k].1;
            }
            k += 1;
        }
        proof {
            assert(self.spec_entries().skip(self.entries@.len() as int).len() == 0);
        }
        EntryState::Hidden
    }

    /// Records the named entry's state, updating the first record under
    /// that name or appending a new one; making an entry visible or
    /// active lifts a hidden quest to visible.
    #[verifier::loop_isolation(false)]
    pub fn set_entry_state(&mut self, entry: &str, state: EntryState)
        ensures
            final(self).spec_id() == old(self).spec_id(),
            final(self).spec_state() == (if (state == EntryState::Visible || state
                == EntryState::Active) && old(self).spec_state() == EntryState::Hidden {
                EntryState::Visible
            } else {
                old(self).spec_state()
            }),
            entry_lookup(final(self).spec_entries(), entry@) == Some(state),
            (exists|j: int|
                0 <= j < old(self).spec_entries().len() && (#[trigger] old(self).spec_entries()[j]).0@
                    == entry@) ==> ({
                let j = choose|j: int|
                    0 <= j < old(self).spec_entries().len() && (#[trigger] old(self).spec_entries()[j]).0@
                        == entry@ && (forall|j2: int|
                        0 <= j2 < j ==> (#[trigger] old(self).spec_entries()[j2]).0@ != entry@);
                final(self).spec_entries() == old(self).spec_entries().update(
                    j,
                    (old(self).spec_entries()[j].0, state),
                )
            }),
            (forall|j: int|
                0 <= j < old(self).spec_entries().len() ==> (#[trigger] old(self).spec_entries()[j]).0@
                    != entry@) ==> ({
                &&& final(self).spec_entries().len() == old(self).spec_entries().len() + 1
                &&& final(self).spec_entries().drop_last() == old(self).spec_entries()
                &&& final(self).spec_entries().last().0@ == entry@
                &&& final(self).spec_entries().last().1 == state
            }),
    {
        match state {
            EntryState::Visible | EntryState::Active => {
                if self.state == EntryState::Hidden {
                    self.state = EntryState::Visible;
                }
            },
            _ => (),
        }
        let wanted = String::from_str(entry);
        let mut k: usize = 0;
        while k < self.entries.len()
            invariant
                k <= self.entries@.len(),
                wanted@ == entry@,
                forall|j: int| 0 <= j < k ==> (#[trigger] self.entries@[j]).0@ != entry@,
                self.id == old(self).id,
                self.entries == old(self).entries,
                self.state == (if (state == EntryState::Visible || state == EntryState::Active)
                    && old(self).state == EntryState::Hidden {
                    EntryState::Visible
                } else {
                    old(self).state
                }),
            decreases self.entries@.len() - k,
        {
            if self.entries[k].0 == wanted {
                let key = self.entries[k].0.clone();
                proof {
                    assert(key == old(self).entries@[k as int].0);
                }
                self.entries.set(k, (key, state));
                proof {
                    lemma_entry_lookup_update(old(self).entries@, entry@, k as int, state);
                    assert(self.entries@[k as int].0@ == old(self).entries@[k as int].0@);
                    assert(entry_lookup(
                        old(self).entries@.update(k as int, (self.entries@[k as int].0, state)),
                        entry@,
                    ) == Some(state));
                    assert(old(self).entries@.update(k as int, (self.entries@[k as int].0, state))
                        =~= self.entries@);
                    let j = choose|j: int|
                        0 <= j < old(self).spec_entries().len() && (#[trigger] old(self).spec_entries()[j]).0@
                            == entry@ && (forall|j2: int|
                            0 <= j2 < j ==> (#[trigger] old(self).spec_entries()[j2]).0@
                                != entry@);
                    assert(j == k as int);
                    assert(self.entries@ =~= old(self).entries@.update(
                        j,
                        (old(self).spec_entries()[j].0, state),
                    ));
                }
                return ;
            }
            k += 1;
        }
        self.entries.push((wanted, state));
        proof {
            assert(self.entries@.last() == self.entries@[self.entries@.len() - 1]);
            lemma_entry_lookup_append(old(self).entries@, entry@, self.entries@.last());
            assert(self.entries@.drop_last() =~= old(self).entries@);
        }
    }

    pub fn state(&self) -> (r: EntryState)
        ensures
            r == self.spec_state(),
    {
        self.state
    }

    /// The recorded entries, in first-recorded order.
    pub fn iter(&self) -> (r: &Vec<(String, EntryState)>)
        ensures
            r@ == self.spec_entries(),
    {
        &self.entries
    }
}

/// Updating the first record under a name changes what lookup finds for
/// that name.
proof fn lemma_entry_lookup_update(
    entries: Seq<(String, EntryState)>,
    name: Seq<char>,
    k: int,
    state: EntryState,
)
    requires
        0 <= k < entries.len(),
        entries[k].0@ == name,
        forall|j: int| 0 <= j < k ==> (#[trigger] entries[j]).0@ != name,
    ensures
        forall|key: String|
            key@ == entries[k].0@ ==> entry_lookup(
                entries.update(k, (key, state)),
                name,
            ) == Some(state),
    decreases k,
{
    assert forall|key: String|
        key@ == entries[k].0@ implies entry_lookup(entries.update(k, (key, state)), name) == Some(
        state,
    ) by {
        let updated = entries.update(k, (key, state));
        if k == 0 {
            assert(updated[0].0@ == name);
        } else {
            assert(updated[0].0@ != name);
            assert(updated.drop_first() =~= entries.drop_first().update(k - 1, (key, state)));
            lemma_entry_lookup_update(entries.drop_first(), name, k - 1, state);
        }
    }
}

/// Appending a record under a fresh name makes lookup find it.
proof fn lemma_entry_lookup_append(
    entries: Seq<(String, EntryState)>,
    name: Seq<char>,
    item: (String, EntryState),
)
    requires
        forall|j: int| 0 <= j < entries.len() ==> (#[trigger] entries[j]).0@ != name,
        item.0@ == name,
    ensures
        entry_lookup(entries.push(item), name) == Some(item.1),
    decreases entries.len(),
{
    let pushed = entries.push(item);
    if entries.len() == 0 {
        assert(pushed[0] == item);
    } else {
        assert(pushed[0] == entries[0]);
        assert(pushed.drop_first() =~= entries.drop_first().push(item));
        lemma_entry_lookup_append(entries.drop_first(), name, item);
    }
}

} // verus!
