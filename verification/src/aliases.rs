//! The table of host aliases: an exact-match table from alias to canonical host.

use crate::label::same_bytes;
use vstd::prelude::*;

verus! {

/// Whether the entry of `entries` at `at` is the one for `alias`.
pub closed spec fn names(entries: Seq<(Vec<u8>, Vec<u8>)>, at: int, alias: Seq<u8>) -> bool {
    0 <= at < entries.len() && entries[at].0@ == alias
}

/// Whether `entries` has an entry for `alias`.
pub closed spec fn listed(entries: Seq<(Vec<u8>, Vec<u8>)>, alias: Seq<u8>) -> bool {
    exists|at: int| names(entries, at, alias)
}

/// Where `entries` has its entry for `alias`, if it has one.
pub closed spec fn place(entries: Seq<(Vec<u8>, Vec<u8>)>, alias: Seq<u8>) -> int {
    choose|at: int| names(entries, at, alias)
}

/// Whether no alias occurs twice in `entries`.
pub closed spec fn distinct(entries: Seq<(Vec<u8>, Vec<u8>)>) -> bool {
    forall|i: int, j: int|
        0 <= i < j < entries.len() ==> (#[trigger] entries[i]).0@ != (#[trigger] entries[j]).0@
}

/// The entry for an alias stands at one place only.
proof fn lemma_place(entries: Seq<(Vec<u8>, Vec<u8>)>, at: int, alias: Seq<u8>)
    requires
        distinct(entries),
        names(entries, at, alias),
    ensures
        listed(entries, alias),
        place(entries, alias) == at,
{
    let found = place(entries, alias);
    if found < at {
        assert(entries[found].0@ != entries[at].0@);
    } else if at < found {
        assert(entries[at].0@ != entries[found].0@);
    }
}

/// A table of aliases, each with the canonical host that it stands for. No alias occurs
/// twice in it.
pub struct Aliases {
    entries: Vec<(Vec<u8>, Vec<u8>)>,
}

impl Aliases {
    /// Whether the table is well-formed: no alias occurs twice in it.
    pub closed spec fn wf(self) -> bool {
        distinct(self.entries@)
    }

    /// Creates an empty table.
    pub fn new() -> (aliases: Self)
        ensures
            aliases.wf(),
            aliases@ == Map::<Seq<u8>, Seq<u8>>::empty(),
    {
        let aliases = Aliases { entries: Vec::new() };
        proof {
            assert forall|alias: Seq<u8>| !listed(aliases.entries@, alias) by {
                assert forall|at: int| !names(aliases.entries@, at, alias) by {}
            }
            assert(aliases@ =~= Map::<Seq<u8>, Seq<u8>>::empty());
        }
        aliases
    }

    /// Makes `alias` stand for `host`, whatever it stood for before.
    pub fn insert(&mut self, alias: Vec<u8>, host: Vec<u8>)
        requires
            old(self).wf(),
        ensures
            final(self).wf(),
            final(self)@ == old(self)@.insert(alias@, host@),
    {
        let ghost before = self.entries@;
        let mut i: usize = 0;
        while i < self.entries.len()
            invariant
                distinct(before),
                old(self).entries@ == before,
                self.entries@ == before,
                i <= before.len(),
                forall|k: int| 0 <= k < i ==> (#[trigger] before[k]).0@ != alias@,
            decreases before.len() - i,
        {
            if same_bytes(self.entries[i].0.as_slice(), alias.as_slice()) {
                self.entries[i].1 = host;
                proof {
                    let after = self.entries@;
                    assert forall|k: int| 0 <= k < after.len() implies (#[trigger] after[k]).0@
                        == before[k].0@ by {}
                    assert(distinct(after));
                    assert forall|key: Seq<u8>| #[trigger]
                        listed(after, key) == (key == alias@ || listed(before, key)) by {
                        if key == alias@ {
                            assert(names(after, i as int, key));
                        }
                        if listed(before, key) {
                            assert(names(after, place(before, key), key));
                        }
                        if listed(after, key) {
                            assert(names(before, place(after, key), key));
                        }
                    }
                    assert forall|key: Seq<u8>| listed(after, key) implies #[trigger] after[place(
                        after,
                        key,
                    )].1@ == (if key == alias@ {
                        host@
                    } else {
                        before[place(before, key)].1@
                    }) by {
                        let at = place(after, key);
                        assert(names(before, at, key));
                        lemma_place(before, at, key);
                        if key == alias@ {
                            lemma_place(after, i as int, key);
                        }
                    }
                    assert(final(self)@ =~= old(self)@.insert(alias@, host@));
                }
                return ;
            }
            i += 1;
        }
        self.entries.push((alias, host));
        proof {
            let after = self.entries@;
            let last = before.len() as int;
            assert(distinct(after)) by {
                assert forall|a: int, b: int| 0 <= a < b < after.len() implies (
                #[trigger] after[a]).0@ != (#[trigger] after[b]).0@ by {
                    if b < last {
                        assert(before[a].0@ != before[b].0@);
                    } else {
                        assert(before[a].0@ != alias@);
                    }
                }
            }
            assert forall|key: Seq<u8>| #[trigger]
                listed(after, key) == (key == alias@ || listed(before, key)) by {
                if key == alias@ {
                    assert(names(after, last, key));
                }
                if listed(before, key) {
                    assert(names(after, place(before, key), key));
                }
                if listed(after, key) {
                    let at = place(after, key);
                    if at < last {
                        assert(names(before, at, key));
                    }
                }
            }
            assert forall|key: Seq<u8>| listed(after, key) implies #[trigger] after[place(
                after,
                key,
            )].1@ == (if key == alias@ {
                host@
            } else {
                before[place(before, key)].1@
            }) by {
                let at = place(after, key);
                if key == alias@ {
                    lemma_place(after, last, key);
                } else {
                    assert(names(before, at, key));
                    lemma_place(before, at, key);
                }
            }
            assert(final(self)@ =~= old(self)@.insert(alias@, host@));
        }
    }

    /// The canonical host that `alias` stands for, if it stands for one.
    pub fn get(&self, alias: &[u8]) -> (host: Option<&Vec<u8>>)
        requires
            self.wf(),
        ensures
            match host {
                Some(name) => self@.contains_key(alias@) && self@[alias@] == name@,
                None => !self@.contains_key(alias@),
            },
    {
        let mut i: usize = 0;
        while i < self.entries.len()
            invariant
                self.wf(),
                i <= self.entries@.len(),
                forall|k: int| 0 <= k < i ==> (#[trigger] self.entries@[k]).0@ != alias@,
            decreases self.entries@.len() - i,
        {
            if same_bytes(self.entries[i].0.as_slice(), alias) {
                proof {
                    assert(names(self.entries@, i as int, alias@));
                    lemma_place(self.entries@, i as int, alias@);
                }
                return Some(&self.entries[i].1);
            }
            i += 1;
        }
        proof {
            assert forall|at: int| !names(self.entries@, at, alias@) by {
                if 0 <= at < self.entries@.len() {
                    assert(self.entries@[at].0@ != alias@);
                }
            }
        }
        None
    }
}

impl View for Aliases {
    type V = Map<Seq<u8>, Seq<u8>>;

    /// The aliases of the table, each with the canonical host that it stands for.
    closed spec fn view(&self) -> Map<Seq<u8>, Seq<u8>> {
        Map::new(
            |alias: Seq<u8>| listed(self.entries@, alias),
            |alias: Seq<u8>| self.entries@[place(self.entries@, alias)].1@,
        )
    }
}

} // verus!
