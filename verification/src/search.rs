use crate::node::{ascending, subtree, Node};
use crate::order::{compare, lemma_lt_asym, lemma_lt_trans, lt, total_order, KeyOrder};
use crate::sorted::{lemma_splice_lookup, lemma_to_map_index};
use vstd::prelude::*;

verus! {

impl<K: Ord, V, const D: usize> Node<K, V, D> {
    /// `found` and `at` say where `key` stands among this node's own keys:
    /// at index `at` if `found`, else between key `at - 1` and key `at`.
    pub open spec fn located(self, key: K, found: bool, at: int) -> bool {
        &&& 0 <= at <= self.keys.len()
        &&& found ==> at < self.keys.len() && self.keys[at].key == key
        &&& !found ==> forall|j: int| 0 <= j < at ==> lt((#[trigger] self.keys[j]).key, key)
        &&& !found ==> forall|j: int|
            at <= j < self.keys.len() ==> lt(key, (#[trigger] self.keys[j]).key)
    }

    /// Among ascending keys a key has one place only.
    pub proof fn lemma_located_once(self, key: K, found: bool, at: int)
        requires
            total_order::<K>(),
            ascending(self.keys@),
            self.located(key, found, at),
        ensures
            forall|f: bool, a: int| #[trigger] self.located(key, f, a) ==> f == found && a == at,
    {
        assert forall|f: bool, a: int| #[trigger] self.located(key, f, a) implies f == found && a
            == at by {
            if found {
                if f {
                    if a < at {
                        assert(lt(self.keys@[a].key, self.keys@[at].key));
                        lemma_lt_asym(self.keys[a].key, self.keys[at].key);
                    } else if at < a {
                        assert(lt(self.keys@[at].key, self.keys@[a].key));
                        lemma_lt_asym(self.keys[at].key, self.keys[a].key);
                    }
                } else {
                    if at < a {
                        assert(lt(self.keys[at].key, key));
                    } else {
                        assert(lt(key, self.keys[at].key));
                    }
                    lemma_lt_asym(self.keys[at].key, key);
                    lemma_lt_asym(key, self.keys[at].key);
                }
            } else {
                if f {
                    if a < at {
                        assert(lt(self.keys[a].key, key));
                    } else {
                        assert(lt(key, self.keys[a].key));
                    }
                    lemma_lt_asym(self.keys[a].key, key);
                    lemma_lt_asym(key, self.keys[a].key);
                } else {
                    if a < at {
                        assert(lt(self.keys[a].key, key));
                        assert(lt(key, self.keys[a].key));
                        lemma_lt_asym(self.keys[a].key, key);
                    } else if at < a {
                        assert(lt(self.keys[at].key, key));
                        assert(lt(key, self.keys[at].key));
                        lemma_lt_asym(self.keys[at].key, key);
                    }
                }
            }
        }
    }

    /// Binary search among this node's own keys. Returns whether `key` is
    /// one of them and, if so, its index; otherwise the index of the child
    /// slot where `key` belongs.
    pub fn index_for(&self, key: &K) -> (r: (bool, usize))
        requires
            total_order::<K>(),
            ascending(self.keys@),
        ensures
            self.located(*key, r.0, r.1 as int),
    {
        let mut lo: usize = 0;
        let mut hi: usize = self.keys.len();
        while lo < hi
            invariant
                total_order::<K>(),
                ascending(self.keys@),
                lo <= hi <= self.keys.len(),
                forall|j: int| 0 <= j < lo ==> lt((#[trigger] self.keys[j]).key, *key),
                forall|j: int| hi <= j < self.keys.len() ==> lt(*key, (#[trigger] self.keys[j]).key),
            decreases hi - lo,
        {
            let mid: usize = lo + (hi - lo) / 2;
            match compare(key, &self.keys[mid].key) {
                KeyOrder::Equal => {
                    return (true, mid);
                },
                KeyOrder::Less => {
                    proof {
                        assert forall|j: int| mid <= j < self.keys.len() implies lt(
                            *key,
                            (#[trigger] self.keys[j]).key,
                        ) by {
                            if mid < j {
                                assert(lt(self.keys@[mid as int].key, self.keys@[j].key));
                                lemma_lt_trans(*key, self.keys[mid as int].key, self.keys[j].key);
                            }
                        }
                    }
                    hi = mid;
                },
                KeyOrder::Greater => {
                    proof {
                        assert forall|j: int| 0 <= j < mid + 1 implies lt(
                            (#[trigger] self.keys[j]).key,
                            *key,
                        ) by {
                            if j < mid {
                                assert(lt(self.keys@[j].key, self.keys@[mid as int].key));
                                lemma_lt_trans(self.keys[j].key, self.keys[mid as int].key, *key);
                            }
                        }
                    }
                    lo = mid + 1;
                },
            }
        }
        (false, lo)
    }

    /// Looks `key` up in the subtree rooted here.
    pub fn find(&self, key: &K) -> (r: Option<&V>)
        requires
            total_order::<K>(),
            self.wf(),
        ensures
            match r {
                Some(v) => self@.contains_key(*key) && self@[*key] == *v,
                None => !self@.contains_key(*key),
            },
        decreases self.height(),
    {
        proof {
            self.lemma_keys_ascending();
        }
        let (found, i) = self.index_for(key);
        if found {
            proof {
                self.lemma_position(i as int);
                lemma_to_map_index(self.entries(), self.position(i as int));
            }
            Some(&self.keys[i].value)
        } else {
            proof {
                self.lemma_child(i as int);
                self.lemma_entries_at(i as int);
                self.lemma_parts_sorted(i as int);
                self.lemma_bounds(i as int, *key);
                lemma_splice_lookup(
                    self.pre(i as int),
                    subtree(self.child(i as int)),
                    self.post(i as int),
                    *key,
                );
            }
            let child = if i < self.keys.len() {
                &self.keys[i].pointed_node
            } else {
                &self.last_node
            };
            match child {
                None => None,
                Some(c) => c.find(key),
            }
        }
    }
}

} // verus!
