//! A venue parser's accumulated books, one per key.
use crate::book::{BookView, Orderbook};
use vstd::prelude::*;

verus! {

/// Books by key (a trading pair, or a fixed key for venues whose frames name
/// no pair). Keys are unique.
#[derive(Debug)]
pub struct BookStore {
    entries: Vec<(String, Orderbook)>,
}

spec fn has_key(entries: Seq<(String, Orderbook)>, k: Seq<char>) -> bool {
    exists|i: int| 0 <= i < entries.len() && entries[i].0@ == k
}

spec fn store_map(entries: Seq<(String, Orderbook)>) -> Map<Seq<char>, BookView> {
    Map::new(
        |k: Seq<char>| has_key(entries, k),
        |k: Seq<char>| entries[choose|i: int| 0 <= i < entries.len() && entries[i].0@ == k].1@,
    )
}

spec fn keys_unique(entries: Seq<(String, Orderbook)>) -> bool {
    forall|i: int, j: int|
        #![trigger entries[i], entries[j]]
        0 <= i < j < entries.len() ==> entries[i].0@ != entries[j].0@
}

spec fn books_wf(entries: Seq<(String, Orderbook)>) -> bool {
    forall|i: int| 0 <= i < entries.len() ==> (#[trigger] entries[i]).1.wf()
}

proof fn lemma_store_at(entries: Seq<(String, Orderbook)>, i: int)
    requires
        keys_unique(entries),
        0 <= i < entries.len(),
    ensures
        store_map(entries).contains_key(entries[i].0@),
        store_map(entries)[entries[i].0@] == entries[i].1@,
{
    let k = entries[i].0@;
    assert(has_key(entries, k));
    let j = choose|j: int| 0 <= j < entries.len() && entries[j].0@ == k;
    if i < j || j < i {
        assert(entries[i].0@ != entries[j].0@);
    }
}

/// `order` lists the stored books, each key once.
pub open spec fn lists(order: Seq<(String, Orderbook)>, m: Map<Seq<char>, BookView>) -> bool {
    &&& forall|i: int|
        0 <= i < order.len() ==> m.contains_key((#[trigger] order[i]).0@) && m[order[i].0@] == order[i].1@
    &&& forall|k: Seq<char>| m.contains_key(k) ==> exists|i: int| 0 <= i < order.len() && #[trigger] order[i].0@ == k
    &&& forall|i: int, j: int| #![trigger order[i], order[j]] 0 <= i < j < order.len() ==> order[i].0@ != order[j].0@
}

impl View for BookStore {
    type V = Map<Seq<char>, BookView>;

    closed spec fn view(&self) -> Map<Seq<char>, BookView> {
        store_map(self.entries@)
    }
}

impl BookStore {
    /// Keys unique and every book well formed.
    pub closed spec fn wf(&self) -> bool {
        keys_unique(self.entries@) && books_wf(self.entries@)
    }

    pub fn new() -> (r: BookStore)
        ensures
            r.wf(),
            r@ == Map::<Seq<char>, BookView>::empty(),
    {
        let r = BookStore { entries: Vec::new() };
        proof {
            assert(r@ =~= Map::<Seq<char>, BookView>::empty());
        }
        r
    }

    /// Drop every book.
    pub fn clear(&mut self)
        ensures
            final(self).wf(),
            final(self)@ == Map::<Seq<char>, BookView>::empty(),
    {
        self.entries.clear();
        proof {
            assert(self@ =~= Map::<Seq<char>, BookView>::empty());
        }
    }

    fn find(&self, key: &String) -> (r: Option<usize>)
        requires
            self.wf(),
        ensures
            match r {
                Some(i) => i < self.entries@.len() && self.entries@[i as int].0@ == key@,
                None => !self@.contains_key(key@),
            },
    {
        let mut i: usize = 0;
        while i < self.entries.len()
            invariant
                i <= self.entries@.len(),
                forall|j: int| 0 <= j < i ==> (#[trigger] self.entries@[j]).0@ != key@,
            decreases self.entries@.len() - i,
        {
            if self.entries[i].0 == *key {
                return Some(i);
            }
            i = i + 1;
        }
        None
    }

    /// The stored keys and books, each key once.
    pub fn entries(&self) -> (r: &Vec<(String, Orderbook)>)
        requires
            self.wf(),
        ensures
            lists(r@, self@),
            forall|i: int| 0 <= i < r@.len() ==> (#[trigger] r@[i]).1.wf(),
    {
        proof {
            let e = self.entries@;
            assert forall|i: int| 0 <= i < e.len() implies self@.contains_key((#[trigger] e[i]).0@)
                && self@[e[i].0@] == e[i].1@ by {
                lemma_store_at(e, i);
            }
        }
        &self.entries
    }

    /// A copy of the book under `key`.
    pub fn get(&self, key: &String) -> (r: Option<Orderbook>)
        requires
            self.wf(),
        ensures
            match r {
                Some(b) => self@.contains_key(key@) && b@ == self@[key@] && b.wf(),
                None => !self@.contains_key(key@),
            },
    {
        match self.find(key) {
            Some(i) => {
                proof {
                    lemma_store_at(self.entries@, i as int);
                }
                Some(self.entries[i].1.duplicate())
            },
            None => None,
        }
    }

    /// Store `book` under `key`, replacing any book there.
    pub fn put(&mut self, key: String, book: Orderbook)
        requires
            old(self).wf(),
            book.wf(),
        ensures
            final(self).wf(),
            final(self)@ == old(self)@.insert(key@, book@),
    {
        let ghost old_entries = self.entries@;
        let ghost bv = book@;
        let ghost k = key@;
        match self.find(&key) {
            Some(i) => {
                self.entries.set(i, (key, book));
                proof {
                    let e = self.entries@;
                    assert(e == old_entries.update(i as int, e[i as int]));
                    assert(keys_unique(e)) by {
                        assert forall|a: int, b: int| #![trigger e[a], e[b]] 0 <= a < b < e.len() implies e[a].0@ != e[b].0@ by {
                            assert(e[a].0@ == old_entries[a].0@ && e[b].0@ == old_entries[b].0@);
                        }
                    }
                    assert(books_wf(e));
                    let m = store_map(old_entries).insert(k, bv);
                    assert forall|x: Seq<char>| #[trigger] store_map(e).contains_key(x) == m.contains_key(x) by {
                        if has_key(e, x) {
                            let a = choose|a: int| 0 <= a < e.len() && e[a].0@ == x;
                            assert(old_entries[a].0@ == x);
                        }
                        if has_key(old_entries, x) {
                            let a = choose|a: int| 0 <= a < old_entries.len() && old_entries[a].0@ == x;
                            assert(e[a].0@ == x);
                        }
                    }
                    assert forall|x: Seq<char>| #[trigger] store_map(e).contains_key(x) implies store_map(e)[x] == m[x] by {
                        let a = choose|a: int| 0 <= a < e.len() && e[a].0@ == x;
                        lemma_store_at(e, a);
                        if a != i {
                            lemma_store_at(old_entries, a);
                        }
                    }
                    assert(store_map(e) =~= m);
                }
            },
            None => {
                self.entries.push((key, book));
                proof {
                    let e = self.entries@;
                    let n = old_entries.len() as int;
                    assert(e == old_entries.push(e[n]));
                    assert(keys_unique(e)) by {
                        assert forall|a: int, b: int| #![trigger e[a], e[b]] 0 <= a < b < e.len() implies e[a].0@ != e[b].0@ by {
                            if b == n {
                                assert(e[a] == old_entries[a]);
                                if e[a].0@ == k {
                                    assert(has_key(old_entries, k));
                                }
                            } else {
                                assert(e[a] == old_entries[a] && e[b] == old_entries[b]);
                            }
                        }
                    }
                    assert(books_wf(e)) by {
                        assert forall|a: int| 0 <= a < e.len() implies (#[trigger] e[a]).1.wf() by {
                            if a < n {
                                assert(e[a] == old_entries[a]);
                            }
                        }
                    }
                    let m = store_map(old_entries).insert(k, bv);
                    assert forall|x: Seq<char>| #[trigger] store_map(e).contains_key(x) == m.contains_key(x) by {
                        if has_key(e, x) {
                            let a = choose|a: int| 0 <= a < e.len() && e[a].0@ == x;
                            if a < n {
                                assert(old_entries[a].0@ == x);
                            }
                        }
                        if has_key(old_entries, x) {
                            let a = choose|a: int| 0 <= a < old_entries.len() && old_entries[a].0@ == x;
                            assert(e[a].0@ == x);
                        }
                        if x == k {
                            assert(e[n].0@ == x);
                        }
                    }
                    assert forall|x: Seq<char>| #[trigger] store_map(e).contains_key(x) implies store_map(e)[x] == m[x] by {
                        let a = choose|a: int| 0 <= a < e.len() && e[a].0@ == x;
                        lemma_store_at(e, a);
                        if a < n {
                            assert(e[a] == old_entries[a]);
                            lemma_store_at(old_entries, a);
                        }
                    }
                    assert(store_map(e) =~= m);
                }
            },
        }
    }
}

} // verus!
