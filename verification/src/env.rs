//! The environment: a string-keyed store of values shared read-only by every
//! task of a DAG while it runs.

use vstd::prelude::*;
use crate::values::Content;

verus! {

/// A key to value mapping built before a run and read by tasks during it.
pub struct EnvVar {
    entries: Vec<(String, Content)>,
}

impl View for EnvVar {
    type V = Seq<(String, Content)>;

    closed spec fn view(&self) -> Seq<(String, Content)> {
        self.entries@
    }
}

impl EnvVar {
    /// Each key occurs at most once, so a successful read is unambiguous.
    pub open spec fn wf(self) -> bool {
        forall|i: int, j: int|
            0 <= i < j < self@.len() ==> self@[i].0@ != self@[j].0@
    }

    /// The stored value of `key`, if any.
    pub open spec fn maps(self, key: Seq<char>, val: Content) -> bool {
        exists|i: int| 0 <= i < self@.len() && self@[i].0@ == key && self@[i].1 == val
    }

    pub open spec fn has_key(self, key: Seq<char>) -> bool {
        exists|i: int| 0 <= i < self@.len() && self@[i].0@ == key
    }

    pub fn new() -> (r: Self)
        ensures
            r@ == Seq::<(String, Content)>::empty(),
            r.wf(),
    {
        EnvVar { entries: Vec::new() }
    }

    /// Bind `key` to `val`, replacing any earlier binding of the same key.
    pub fn set(&mut self, key: &str, val: Content)
        requires
            old(self).wf(),
        ensures
            final(self).wf(),
            final(self).maps(key@, val),
            forall|k: Seq<char>, v: Content|
                k != key@ ==> (final(self).maps(k, v) <==> old(self).maps(k, v)),
    {
        let keyed: String = key.to_owned();
        let mut i: usize = 0;
        while i < self.entries.len()
            invariant
                self.wf(),
                i <= self.entries.len(),
                self@ == old(self)@,
                keyed@ == key@,
                forall|j: int| 0 <= j < i ==> self@[j].0@ != key@,
            decreases self.entries.len() - i,
        {
            if self.entries[i].0 == keyed {
                let owned: String = key.to_owned();
                self.entries.set(i, (owned, val));
                proof {
                    assert(self@[i as int].0@ == key@ && self@[i as int].1 == val);
                    assert(self.maps(key@, val));
                    let s = self@;
                    let o = old(self)@;
                    assert forall|k: Seq<char>, v: Content|
                        k != key@ implies (self.maps(k, v) <==> old(self).maps(k, v)) by {
                        if self.maps(k, v) {
                            let w = choose|w: int|
                                0 <= w < s.len() && s[w].0@ == k && s[w].1 == v;
                            assert(o[w].0@ == k && o[w].1 == v);
                        }
                        if old(self).maps(k, v) {
                            let w = choose|w: int|
                                0 <= w < o.len() && o[w].0@ == k && o[w].1 == v;
                            assert(s[w].0@ == k && s[w].1 == v);
                        }
                    }
                }
                return ;
            }
            i = i + 1;
        }
        let owned: String = key.to_owned();
        self.entries.push((owned, val));
        proof {
            let s = self@;
            let o = old(self)@;
            assert(s[s.len() - 1].0@ == key@);
            assert forall|k: Seq<char>, v: Content|
                k != key@ implies (self.maps(k, v) <==> old(self).maps(k, v)) by {
                if self.maps(k, v) {
                    let w = choose|w: int| 0 <= w < s.len() && s[w].0@ == k && s[w].1 == v;
                    assert(w < s.len() - 1);
                    assert(o[w].0@ == k && o[w].1 == v);
                }
                if old(self).maps(k, v) {
                    let w = choose|w: int| 0 <= w < o.len() && o[w].0@ == k && o[w].1 == v;
                    assert(s[w].0@ == k && s[w].1 == v);
                }
            }
        }
    }

    /// The value bound to `key`, or `None` when the key is unbound.  No
    /// well-formedness is demanded, so any task action may read freely; on a
    /// store with duplicate keys the earliest binding answers.
    pub fn get(&self, key: &str) -> (r: Option<Content>)
        ensures
            match r {
                Some(v) => self.maps(key@, v),
                None => !self.has_key(key@),
            },
    {
        let keyed: String = key.to_owned();
        let mut i: usize = 0;
        while i < self.entries.len()
            invariant
                i <= self.entries.len(),
                keyed@ == key@,
                forall|j: int| 0 <= j < i ==> self@[j].0@ != key@,
            decreases self.entries.len() - i,
        {
            if self.entries[i].0 == keyed {
                let found: Content = self.entries[i].1.clone();
                proof {
                    assert(self@[i as int].0@ == key@ && self@[i as int].1 == found);
                }
                return Some(found);
            }
            i = i + 1;
        }
        None
    }

    /// Typed read: the integer bound to `key`, or `None` when the key is
    /// unbound or bound to another kind.  On a well-formed store the `None`
    /// answer is exact: no integer is bound to the key at all.
    pub fn get_usize(&self, key: &str) -> (r: Option<usize>)
        ensures
            r matches Some(v) ==> self.maps(key@, Content::Uint(v)),
            self.wf() ==> (match r {
                Some(v) => self.maps(key@, Content::Uint(v)),
                None => forall|v: usize| !self.maps(key@, Content::Uint(v)),
            }),
    {
        match self.get(key) {
            Some(c) => {
                match c {
                    Content::Uint(v) => Some(v),
                    _ => {
                        proof {
                            assert forall|v: usize|
                                self.wf() implies !self.maps(key@, Content::Uint(v)) by {
                                if self.maps(key@, Content::Uint(v)) {
                                    let w = choose|w: int|
                                        0 <= w < self@.len() && self@[w].0@ == key@
                                            && self@[w].1 == Content::Uint(v);
                                    let u = choose|u: int|
                                        0 <= u < self@.len() && self@[u].0@ == key@
                                            && self@[u].1 == c;
                                    assert(w == u);
                                }
                            }
                        }
                        None
                    },
                }
            },
            None => None,
        }
    }

    /// Convenience write of an integer value.
    pub fn set_usize(&mut self, key: &str, val: usize)
        requires
            old(self).wf(),
        ensures
            final(self).wf(),
            final(self).maps(key@, Content::Uint(val)),
            forall|k: Seq<char>, v: Content|
                k != key@ ==> (final(self).maps(k, v) <==> old(self).maps(k, v)),
    {
        self.set(key, Content::Uint(val))
    }
}

} // verus!
