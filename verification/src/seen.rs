//! The identifiers of messages that were dealt with, of which the last few are
//! remembered.

use std::collections::VecDeque;
use vstd::hash_set::StringHashSet;
use vstd::prelude::*;
use vstd::string::StringExecFns;

verus! {

/// How many identifiers are remembered.
pub const MAX_SEEN: usize = 256;

/// What is remembered after an identifier was added.
pub open spec fn seen_after(seen: Seq<Seq<char>>, id: Seq<char>) -> Seq<Seq<char>> {
    if seen.contains(id) {
        seen
    } else if seen.len() < MAX_SEEN {
        seen.push(id)
    } else {
        seen.push(id).skip(1)
    }
}

/// The views of a list of identifiers.
pub open spec fn id_views(ids: Seq<String>) -> Seq<Seq<char>> {
    ids.map_values(|s: String| s@)
}

/// The identifiers of messages that were dealt with, the oldest first.
pub struct SeenIds {
    set: StringHashSet,
    order: VecDeque<String>,
}

impl View for SeenIds {
    type V = Seq<Seq<char>>;

    closed spec fn view(&self) -> Seq<Seq<char>> {
        id_views(self.order@)
    }
}

impl Default for SeenIds {
    /// Nothing was dealt with.
    fn default() -> (seen: SeenIds)
        ensures
            seen.wf(),
            seen@ == Seq::<Seq<char>>::empty(),
    {
        let seen = SeenIds { set: StringHashSet::new(), order: VecDeque::new() };
        proof {
            assert(seen@ == Seq::<Seq<char>>::empty());
        }
        seen
    }
}

impl SeenIds {
    /// No identifier is there twice, and there are not too many.
    pub closed spec fn wf(self) -> bool {
        &&& self@.no_duplicates()
        &&& self@.len() <= MAX_SEEN
        &&& forall|id: Seq<char>| #[trigger] self.set@.contains(id) <==> self@.contains(id)
    }

    /// Whether an identifier is remembered.
    pub fn contains(&self, id: &str) -> (r: bool)
        requires
            self.wf(),
        ensures
            r == self@.contains(id@),
    {
        self.set.contains(id)
    }

    /// Remembers an identifier, and forgets the oldest one if there are too many.
    /// The answer says whether it is new.
    pub fn insert(&mut self, id: &str) -> (r: bool)
        requires
            old(self).wf(),
        ensures
            final(self).wf(),
            r == !old(self)@.contains(id@),
            final(self)@ == seen_after(old(self)@, id@),
    {
        let ghost before = self@;
        if self.set.contains(id) {
            return false;
        }
        let text = String::from_str(id);
        self.set.insert(String::from_str(id));
        self.order.push_back(text);
        let ghost all = before.push(id@);
        proof {
            assert(self@ == all);
            assert forall|x: Seq<char>| #[trigger] self.set@.contains(x) <==> all.contains(x) by {
                if before.contains(x) {
                    let k = choose|k: int| 0 <= k < before.len() && before[k] == x;
                    assert(all[k] == x);
                }
                if all.contains(x) && x != id@ {
                    let k = choose|k: int| 0 <= k < all.len() && all[k] == x;
                    assert(before[k] == x);
                }
                assert(all[all.len() - 1] == id@);
            }
            assert(all.no_duplicates());
        }
        if self.order.len() > MAX_SEEN {
            if let Some(oldest) = self.order.pop_front() {
                proof {
                    assert(oldest@ == all[0]);
                    assert(self@ == all.skip(1));
                }
                self.set.remove(oldest.as_str());
                proof {
                    let rest = all.skip(1);
                    assert forall|x: Seq<char>| #[trigger]
                        self.set@.contains(x) <==> rest.contains(x) by {
                        if all.contains(x) && x != all[0] {
                            let k = choose|k: int| 0 <= k < all.len() && all[k] == x;
                            assert(rest[k - 1] == x);
                        }
                        if rest.contains(x) {
                            let k = choose|k: int| 0 <= k < rest.len() && rest[k] == x;
                            assert(all[k + 1] == x);
                        }
                    }
                    assert(rest.no_duplicates());
                }
            }
        }
        true
    }
}

/// An identifier that was added is remembered, the number of those remembered
/// stays bounded, and none is remembered twice.
pub proof fn law_seen_ids(seen: Seq<Seq<char>>, id: Seq<char>)
    requires
        seen.no_duplicates(),
        seen.len() <= MAX_SEEN,
    ensures
        seen_after(seen, id).contains(id),
        seen_after(seen, id).no_duplicates(),
        seen_after(seen, id).len() <= MAX_SEEN,
        seen_after(seen_after(seen, id), id) == seen_after(seen, id),
{
    let after = seen_after(seen, id);
    if !seen.contains(id) {
        assert(after[after.len() - 1] == id);
    }
}

} // verus!
