//! A trie that maps byte strings to values.

use std::collections::HashMap;
use vstd::prelude::*;
use vstd::slice::slice_subrange;
use vstd::std_specs::hash::*;

verus! {

/// A node of the trie: the value of the key that ends here, if it has one,
/// and the nodes of the keys that go on, by their next byte.
pub struct Trie<T> {
    data: Option<T>,
    children: HashMap<u8, Trie<T>>,
}

/// `HashMap::get_mut`: a mutable reference to the child under `key`, if
/// there is one. The map afterwards differs from the map before only in
/// what the caller makes of that child.
#[verifier::external_body]
fn child_mut<T>(children: &mut HashMap<u8, Trie<T>>, key: u8) -> (child: Option<&mut Trie<T>>)
    ensures
        child is Some <==> old(children)@.contains_key(key),
        child matches Some(c) ==> *c == old(children)@[key] && final(children)@ == old(
            children,
        )@.insert(key, *final(c)),
        child is None ==> final(children)@ == old(children)@,
{
    children.get_mut(&key)
}

impl<T> Trie<T> {
    /// The value that the trie holds under `key`, if any.
    pub closed spec fn lookup(self, key: Seq<u8>) -> Option<T>
        decreases key.len(),
    {
        if key.len() == 0 {
            self.data
        } else if self.children@.contains_key(key[0]) {
            self.children@[key[0]].lookup(key.drop_first())
        } else {
            None
        }
    }

    /// An empty trie.
    pub fn new() -> (trie: Trie<T>)
        ensures
            forall|key: Seq<u8>| trie.lookup(key) is None,
    {
        let trie = Trie { data: None, children: HashMap::new() };
        proof {
            assert forall|key: Seq<u8>| trie.lookup(key) is None by {
                reveal_with_fuel(Trie::lookup, 2);
            }
        }
        trie
    }

    /// Puts `data` under the key `chars`, unless the key has a value
    /// already: then the trie stays as it is and an error is returned.
    pub fn insert(&mut self, chars: &[u8], data: Option<T>) -> (r: Result<(), String>)
        ensures
            r is Ok <==> old(self).lookup(chars@) is None,
            r is Ok ==> forall|key: Seq<u8>|
                final(self).lookup(key) == if key == chars@ {
                    data
                } else {
                    old(self).lookup(key)
                },
            r is Err ==> forall|key: Seq<u8>| final(self).lookup(key) == old(self).lookup(key),
        decreases chars@.len(),
    {
        broadcast use group_hash_axioms;

        if chars.len() == 0 {
            if self.data.is_none() {
                self.data = data;
                proof {
                    assert forall|key: Seq<u8>|
                        final(self).lookup(key) == if key == chars@ {
                            data
                        } else {
                            old(self).lookup(key)
                        } by {
                        if key.len() == 0 {
                            assert(key =~= chars@);
                        }
                    }
                }
                return Ok(());
            } else {
                return Err(String::new());
            }
        }
        let first = chars[0];
        let rest = slice_subrange(chars, 1, chars.len());
        proof {
            assert(rest@ =~= chars@.drop_first());
        }
        let ghost children = self.children@;
        let mut child = match self.children.remove(&first) {
            Some(child) => child,
            None => Trie::new(),
        };
        let ghost before = child;
        let r = child.insert(rest, data);
        let _ = self.children.insert(first, child);
        proof {
            assert(self.children@ =~= children.insert(first, child));
            assert(self.data == old(self).data);
            assert forall|key: Seq<u8>| key.len() > 0 && key[0] == first implies self.lookup(key)
                == child.lookup(key.drop_first()) && old(self).lookup(key) == before.lookup(
                key.drop_first(),
            ) by {
                assert(self.children@[first] == child);
            }
            assert forall|key: Seq<u8>| key.len() > 0 && key[0] != first implies self.lookup(key)
                == old(self).lookup(key) by {
                assert(self.children@.contains_key(key[0]) == children.contains_key(key[0]));
            }
            assert forall|key: Seq<u8>| key.len() == 0 implies self.lookup(key) == old(self).lookup(key) && key != chars@ by {}
            assert forall|key: Seq<u8>| key.len() > 0 && key[0] == first implies (key == chars@
                <==> key.drop_first() == rest@) by {
                if key.drop_first() == rest@ {
                    assert forall|i: int| 0 <= i < key.len() implies key[i] == chars@[i] by {
                        if i > 0 {
                            assert(key[i] == key.drop_first()[i - 1]);
                            assert(chars@[i] == rest@[i - 1]);
                        }
                    }
                    assert(key =~= chars@);
                }
            }
            assert(old(self).lookup(chars@) == before.lookup(rest@));
            if r is Ok {
                assert forall|key: Seq<u8>|
                    self.lookup(key) == if key == chars@ {
                        data
                    } else {
                        old(self).lookup(key)
                    } by {
                    if key.len() > 0 && key[0] == first {
                        assert(self.lookup(key) == child.lookup(key.drop_first()));
                    }
                }
            } else {
                assert forall|key: Seq<u8>| self.lookup(key) == old(self).lookup(key) by {
                    if key.len() > 0 && key[0] == first {
                        assert(self.lookup(key) == child.lookup(key.drop_first()));
                    }
                }
            }
        }
        r
    }

    /// The value under the key `chars`, if it has one.
    pub fn get(&self, chars: &[u8]) -> (r: Option<&T>)
        ensures
            r is Some <==> self.lookup(chars@) is Some,
            r matches Some(value) ==> self.lookup(chars@) == Some(*value),
        decreases chars@.len(),
    {
        broadcast use group_hash_axioms;

        if chars.len() == 0 {
            return self.data.as_ref();
        }
        let rest = slice_subrange(chars, 1, chars.len());
        proof {
            assert(rest@ =~= chars@.drop_first());
        }
        match self.children.get(&chars[0]) {
            Some(child) => child.get(rest),
            None => None,
        }
    }
}

impl<T> Trie<T> {
    /// The value under the key `chars`, if it has one, to be changed in
    /// place: nothing else in the trie changes.
    pub fn get_mut(&mut self, chars: &[u8]) -> (r: Option<&mut T>)
        ensures
            r is Some <==> old(self).lookup(chars@) is Some,
            r matches Some(value) ==> {
                &&& old(self).lookup(chars@) == Some(*value)
                &&& forall|key: Seq<u8>|
                    final(self).lookup(key) == if key == chars@ {
                        Some(*final(value))
                    } else {
                        old(self).lookup(key)
                    }
            },
            r is None ==> forall|key: Seq<u8>| final(self).lookup(key) == old(self).lookup(key),
        decreases chars@.len(),
    {
        if chars.len() == 0 {
            let r = self.data.as_mut();
            proof {
                assert forall|key: Seq<u8>| key.len() == 0 implies key == chars@ by {
                    assert(key =~= chars@);
                }
            }
            return r;
        }
        let first = chars[0];
        let rest = slice_subrange(chars, 1, chars.len());
        proof {
            assert(rest@ =~= chars@.drop_first());
            assert forall|key: Seq<u8>| key.len() > 0 && key[0] == first implies (key == chars@
                <==> key.drop_first() == rest@) by {
                if key.drop_first() == rest@ {
                    assert forall|i: int| 0 <= i < key.len() implies key[i] == chars@[i] by {
                        if i > 0 {
                            assert(key[i] == key.drop_first()[i - 1]);
                            assert(chars@[i] == rest@[i - 1]);
                        }
                    }
                    assert(key =~= chars@);
                }
            }
        }
        let ghost children = self.children@;
        let ghost end = *final(self);
        match child_mut(&mut self.children, first) {
            Some(child) => {
                let ghost before = *child;
                let ghost after = *final(child);
                proof {
                    assert(end.children@ == children.insert(first, after));
                    assert(end.data == old(self).data);
                    assert forall|key: Seq<u8>| key.len() > 0 && key[0] == first implies end.lookup(
                        key,
                    ) == after.lookup(key.drop_first()) && old(self).lookup(key) == before.lookup(
                        key.drop_first(),
                    ) by {
                        assert(end.children@[first] == after);
                    }
                    assert forall|key: Seq<u8>| key.len() > 0 && key[0] != first implies end.lookup(
                        key,
                    ) == old(self).lookup(key) by {
                        assert(end.children@.contains_key(key[0]) == children.contains_key(key[0]));
                    }
                    assert forall|key: Seq<u8>| key.len() == 0 implies end.lookup(key) == old(self).lookup(key) && key != chars@ by {}
                    assert(old(self).lookup(chars@) == before.lookup(rest@));
                }
                child.get_mut(rest)
            },
            None => {
                proof {
                    assert(end.children@ == children);
                    assert(end.data == old(self).data);
                    assert forall|key: Seq<u8>| end.lookup(key) == old(self).lookup(key) by {}
                }
                None
            },
        }
    }
}

} // verus!
