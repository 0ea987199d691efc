//! A table of strings by name: the completion scripts that `complete -C`
//! registers by command name, and the shell variables that `declare` sets.
use vstd::prelude::*;
use crate::text::{chars_of, chars_equal};

verus! {

/// The names of `entries`, in order.
pub open spec fn keys_of(entries: Seq<(Seq<char>, Seq<char>)>) -> Seq<Seq<char>> {
    entries.map_values(|e: (Seq<char>, Seq<char>)| e.0)
}

/// The map that a list of distinct-keyed entries stands for.
pub open spec fn map_of(entries: Seq<(Seq<char>, Seq<char>)>) -> Map<Seq<char>, Seq<char>>
    decreases entries.len(),
{
    if entries.len() == 0 {
        Map::empty()
    } else {
        map_of(entries.drop_last()).insert(entries.last().0, entries.last().1)
    }
}

/// Strings by name. No name occurs twice.
pub struct StringTable {
    entries: Vec<(String, String)>,
}

impl View for StringTable {
    type V = Map<Seq<char>, Seq<char>>;

    /// The string held for each name.
    closed spec fn view(&self) -> Map<Seq<char>, Seq<char>> {
        map_of(self.entry_views())
    }
}

impl StringTable {
    pub closed spec fn entry_views(&self) -> Seq<(Seq<char>, Seq<char>)> {
        self.entries@.map_values(|e: (String, String)| (e.0@, e.1@))
    }

    #[verifier::type_invariant]
    closed spec fn keys_distinct(&self) -> bool {
        keys_of(self.entry_views()).no_duplicates()
    }

    /// An empty table.
    pub fn new() -> (t: Self)
        ensures
            t.view() == Map::<Seq<char>, Seq<char>>::empty(),
    {
        let t = StringTable { entries: Vec::new() };
        assert(t.entry_views() == Seq::<(Seq<char>, Seq<char>)>::empty());
        t
    }

    /// Where the entry for `cmd` is, if there is one.
    fn find(&self, cmd: &str) -> (idx: Option<usize>)
        ensures
            match idx {
                Some(i) => i < self.entries@.len() && self.entry_views()[i as int].0 == cmd@,
                None => !keys_of(self.entry_views()).contains(cmd@),
            },
    {
        let target = chars_of(cmd);
        let mut i: usize = 0;
        while i < self.entries.len()
            invariant
                target@ == cmd@,
                i <= self.entries@.len(),
                forall|j: int| 0 <= j < i ==> self.entry_views()[j].0 != cmd@,
            decreases self.entries@.len() - i,
        {
            let key = chars_of(self.entries[i].0.as_str());
            if chars_equal(key.as_slice(), target.as_slice()) {
                return Some(i);
            }
            i = i + 1;
        }
        proof {
            if keys_of(self.entry_views()).contains(cmd@) {
                let j = choose|j: int| 0 <= j < keys_of(self.entry_views()).len()
                    && keys_of(self.entry_views())[j] == cmd@;
                assert(self.entry_views()[j].0 == cmd@);
            }
        }
        None
    }

    /// The string held for `cmd`.
    pub fn get(&self, cmd: &str) -> (path: Option<String>)
        ensures
            match path {
                Some(p) => self.view().contains_key(cmd@) && self.view()[cmd@] == p@,
                None => !self.view().contains_key(cmd@),
            },
    {
        proof {
            use_type_invariant(self);
            lemma_map_of(self.entry_views());
        }
        match self.find(cmd) {
            Some(i) => {
                let p = self.entries[i].1.clone();
                proof {
                    let ev = self.entry_views();
                    assert(ev[i as int] == (self.entries@[i as int].0@, self.entries@[i as int].1@));
                    assert(ev[i as int].1 == p@);
                    assert(keys_of(ev)[i as int] == cmd@);
                    assert(map_of(ev)[ev[i as int].0] == ev[i as int].1);
                }
                Some(p)
            },
            None => None,
        }
    }

    /// Holds `path` for `cmd`, replacing any earlier string.
    pub fn insert(&mut self, cmd: String, path: String)
        ensures
            final(self).view() == old(self).view().insert(cmd@, path@),
    {
        proof {
            use_type_invariant(&*self);
            lemma_map_of(self.entry_views());
        }
        let ghost old_views = self.entry_views();
        match self.find(cmd.as_str()) {
            Some(i) => {
                let ghost new_views = old_views.update(i as int, (cmd@, path@));
                proof {
                    assert(keys_of(new_views) == keys_of(old_views));
                    lemma_map_of(new_views);
                    lemma_map_of_lookup(old_views);
                    lemma_map_of_lookup(new_views);
                    let target = map_of(old_views).insert(cmd@, path@);
                    assert forall|k: Seq<char>| #[trigger] map_of(new_views).contains_key(k) == target.contains_key(k) by {
                        assert(keys_of(old_views)[i as int] == cmd@);
                    }
                    assert forall|k: Seq<char>| #[trigger] map_of(new_views).contains_key(k) implies map_of(new_views)[k] == target[k] by {
                        let j = choose|j: int| 0 <= j < new_views.len() && new_views[j].0 == k && map_of(new_views)[k] == new_views[j].1;
                        if j != i {
                            assert(old_views[j] == new_views[j]);
                            assert(keys_of(old_views)[j] != keys_of(old_views)[i as int]);
                        }
                    }
                    assert(map_of(new_views) == target);
                }
                let mut entries: Vec<(String, String)> = Vec::new();
                std::mem::swap(&mut entries, &mut self.entries);
                entries.set(i, (cmd, path));
                assert(entries@.map_values(|e: (String, String)| (e.0@, e.1@)) == new_views);
                self.entries = entries;
            },
            None => {
                let ghost new_views = old_views.push((cmd@, path@));
                proof {
                    assert(keys_of(new_views) == keys_of(old_views).push(cmd@));
                    assert(new_views.drop_last() == old_views);
                }
                let mut entries: Vec<(String, String)> = Vec::new();
                std::mem::swap(&mut entries, &mut self.entries);
                entries.push((cmd, path));
                assert(entries@.map_values(|e: (String, String)| (e.0@, e.1@)) == new_views);
                self.entries = entries;
            },
        }
    }

    /// Forgets the string held for `cmd`, if there is one.
    pub fn remove(&mut self, cmd: &str)
        ensures
            final(self).view() == old(self).view().remove(cmd@),
    {
        proof {
            use_type_invariant(&*self);
            lemma_map_of(self.entry_views());
        }
        let ghost old_views = self.entry_views();
        match self.find(cmd) {
            Some(i) => {
                let ghost new_views = old_views.remove(i as int);
                proof {
                    assert(keys_of(new_views) == keys_of(old_views).remove(i as int));
                    assert(keys_of(new_views).no_duplicates());
                    lemma_map_of(new_views);
                    lemma_map_of_lookup(old_views);
                    lemma_map_of_lookup(new_views);
                    assert forall|k: Seq<char>| #[trigger] map_of(new_views).contains_key(k)
                        == map_of(old_views).remove(cmd@).contains_key(k) by {
                        if map_of(new_views).contains_key(k) {
                            let j = choose|j: int| 0 <= j < keys_of(new_views).len() && keys_of(new_views)[j] == k;
                            assert(keys_of(old_views)[i as int] == cmd@);
                            if j < i {
                                assert(keys_of(old_views)[j] == k);
                                assert(keys_of(old_views)[j] != keys_of(old_views)[i as int]);
                            } else {
                                assert(keys_of(old_views)[j + 1] == k);
                                assert(keys_of(old_views)[j + 1] != keys_of(old_views)[i as int]);
                            }
                            assert(map_of(old_views).contains_key(k));
                        }
                        if map_of(old_views).remove(cmd@).contains_key(k) {
                            assert(map_of(old_views).contains_key(k));
                            let j = choose|j: int| 0 <= j < keys_of(old_views).len() && keys_of(old_views)[j] == k;
                            assert(keys_of(old_views)[i as int] == cmd@);
                            if j < i {
                                assert(keys_of(new_views)[j] == k);
                            } else {
                                assert(j != i);
                                assert(keys_of(new_views)[j - 1] == k);
                            }
                        }
                    }
                    assert forall|k: Seq<char>| #[trigger] map_of(new_views).contains_key(k) implies map_of(new_views)[k] == map_of(old_views).remove(cmd@)[k] by {
                        let j = choose|j: int| 0 <= j < new_views.len() && new_views[j].0 == k && map_of(new_views)[k] == new_views[j].1;
                        if j < i {
                            assert(old_views[j] == new_views[j]);
                            assert(map_of(old_views)[old_views[j].0] == old_views[j].1);
                        } else {
                            assert(old_views[j + 1] == new_views[j]);
                            assert(map_of(old_views)[old_views[j + 1].0] == old_views[j + 1].1);
                        }
                    }
                    assert(map_of(new_views) == map_of(old_views).remove(cmd@));
                }
                let mut entries: Vec<(String, String)> = Vec::new();
                std::mem::swap(&mut entries, &mut self.entries);
                entries.remove(i);
                assert(entries@.map_values(|e: (String, String)| (e.0@, e.1@)) == new_views);
                self.entries = entries;
            },
            None => {
                assert(map_of(old_views).remove(cmd@) == map_of(old_views));
            },
        }
    }
}

/// Each key of a distinct-keyed list is looked up at the entry that holds it.
proof fn lemma_map_of_lookup(entries: Seq<(Seq<char>, Seq<char>)>)
    requires
        keys_of(entries).no_duplicates(),
    ensures
        forall|k: Seq<char>| #[trigger] map_of(entries).contains_key(k) ==> exists|j: int|
            0 <= j < entries.len() && entries[j].0 == k && map_of(entries)[k] == entries[j].1,
{
    lemma_map_of(entries);
    assert forall|k: Seq<char>| #[trigger] map_of(entries).contains_key(k) implies exists|j: int|
        0 <= j < entries.len() && entries[j].0 == k && map_of(entries)[k] == entries[j].1 by {
        let j = choose|j: int| 0 <= j < keys_of(entries).len() && keys_of(entries)[j] == k;
        assert(entries[j].0 == k);
        assert(map_of(entries)[entries[j].0] == entries[j].1);
    }
}

/// With distinct keys, the map holds exactly the keys of the entries, each with its
/// entry's value.
proof fn lemma_map_of(entries: Seq<(Seq<char>, Seq<char>)>)
    requires
        keys_of(entries).no_duplicates(),
    ensures
        forall|k: Seq<char>| #[trigger] map_of(entries).contains_key(k) <==> keys_of(entries).contains(k),
        forall|i: int| 0 <= i < entries.len() ==> map_of(entries)[#[trigger] entries[i].0] == entries[i].1,
    decreases entries.len(),
{
    if entries.len() > 0 {
        let init = entries.drop_last();
        assert(keys_of(init) == keys_of(entries).drop_last());
        lemma_map_of(init);
        let last = entries.last();
        assert(map_of(entries) == map_of(init).insert(last.0, last.1));
        assert(keys_of(entries) == keys_of(init).push(last.0));
        assert forall|k: Seq<char>| #[trigger] map_of(entries).contains_key(k) <==> keys_of(entries).contains(k) by {
            assert(map_of(init).contains_key(k) <==> keys_of(init).contains(k));
            if keys_of(entries).contains(k) {
                let j = choose|j: int| 0 <= j < keys_of(entries).len() && keys_of(entries)[j] == k;
                if j < init.len() {
                    assert(keys_of(init)[j] == k);
                }
            }
            if keys_of(init).contains(k) {
                let j = choose|j: int| 0 <= j < keys_of(init).len() && keys_of(init)[j] == k;
                assert(keys_of(entries)[j] == k);
            }
            assert(keys_of(entries)[entries.len() - 1] == last.0);
        }
        assert forall|i: int| 0 <= i < entries.len() implies map_of(entries)[#[trigger] entries[i].0] == entries[i].1 by {
            if i < entries.len() - 1 {
                assert(keys_of(entries)[i] != keys_of(entries)[entries.len() - 1]);
                assert(init[i] == entries[i]);
            }
        }
    }
}

} // verus!
