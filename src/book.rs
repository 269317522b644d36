//! The per-venue order book: two price-ordered sides of (price, quantity)
//! levels plus the ticker overlay.
use crate::decimal::{lemma_lt_asymmetric, lemma_lt_irreflexive, lemma_lt_total, lemma_lt_transitive, Decimal};
use std::cmp::Ordering;
use vstd::prelude::*;

verus! {

/// Which side of the book a level belongs to.
#[derive(Clone, Copy, Debug, PartialEq, Eq, Structural)]
pub enum Side {
    Bid,
    Ask,
}

/// One price row of a book side: the price and the quantity resting there.
#[derive(Clone, Copy, Debug, PartialEq, Eq, Structural)]
pub struct PriceLevel {
    pub price: Decimal,
    pub quantity: Decimal,
}

/// Prices strictly ascending (hence unique), each in normal form, and every
/// stored quantity above zero.
pub open spec fn ascending(s: Seq<PriceLevel>) -> bool {
    &&& forall|i: int, j: int|
        #![trigger s[i], s[j]]
        0 <= i < j < s.len() ==> s[i].price.lt(s[j].price)
    &&& forall|i: int| 0 <= i < s.len() ==> (#[trigger] s[i]).price.is_normal()
    &&& forall|i: int| 0 <= i < s.len() ==> positive((#[trigger] s[i]).quantity)
}

/// Above zero: neither zero nor negative.
pub open spec fn positive(q: Decimal) -> bool {
    !q.spec_is_zero() && !q.spec_negative()
}

/// No quantity among the levels is negative.
pub open spec fn no_negative(levels: Seq<PriceLevel>) -> bool {
    forall|i: int| 0 <= i < levels.len() ==> !(#[trigger] levels[i]).quantity.spec_negative()
}

pub open spec fn has_price(s: Seq<PriceLevel>, p: Decimal) -> bool {
    exists|i: int| 0 <= i < s.len() && s[i].price == p
}

/// A side read as a map from price to quantity.
pub open spec fn level_map(s: Seq<PriceLevel>) -> Map<Decimal, Decimal> {
    Map::new(
        |p: Decimal| has_price(s, p),
        |p: Decimal| s[choose|i: int| 0 <= i < s.len() && s[i].price == p].quantity,
    )
}

/// One update with insert-with-zero-delete semantics.
pub open spec fn apply_level(m: Map<Decimal, Decimal>, u: PriceLevel) -> Map<Decimal, Decimal> {
    if u.quantity.spec_is_zero() {
        m.remove(u.price)
    } else {
        m.insert(u.price, u.quantity)
    }
}

/// A sequence of updates applied in order.
pub open spec fn apply_levels(m: Map<Decimal, Decimal>, ups: Seq<PriceLevel>) -> Map<
    Decimal,
    Decimal,
>
    decreases ups.len(),
{
    if ups.len() == 0 {
        m
    } else {
        apply_level(apply_levels(m, ups.drop_last()), ups.last())
    }
}

/// The `n` highest-priced levels of an ascending side.
pub open spec fn keep_highest(s: Seq<PriceLevel>, n: nat) -> Seq<PriceLevel> {
    if s.len() > n {
        s.subrange(s.len() - n, s.len() as int)
    } else {
        s
    }
}

/// The `n` lowest-priced levels of an ascending side.
pub open spec fn keep_lowest(s: Seq<PriceLevel>, n: nat) -> Seq<PriceLevel> {
    if s.len() > n {
        s.take(n as int)
    } else {
        s
    }
}

proof fn lemma_unique_index(s: Seq<PriceLevel>, i: int, j: int)
    requires
        ascending(s),
        0 <= i < s.len(),
        0 <= j < s.len(),
        s[i].price == s[j].price,
    ensures
        i == j,
{
    if i < j {
        lemma_lt_irreflexive(s[i].price);
    } else if j < i {
        lemma_lt_irreflexive(s[i].price);
    }
}

pub proof fn lemma_level_map_at(s: Seq<PriceLevel>, i: int)
    requires
        ascending(s),
        0 <= i < s.len(),
    ensures
        level_map(s).contains_key(s[i].price),
        level_map(s)[s[i].price] == s[i].quantity,
{
    let p = s[i].price;
    assert(has_price(s, p));
    let j = choose|j: int| 0 <= j < s.len() && s[j].price == p;
    lemma_unique_index(s, i, j);
}

/// Inserting a new price at its place keeps the side ascending and adds it to the map.
proof fn lemma_insert_at(s: Seq<PriceLevel>, i: int, lvl: PriceLevel)
    requires
        ascending(s),
        0 <= i <= s.len(),
        lvl.price.is_normal(),
        positive(lvl.quantity),
        forall|j: int| 0 <= j < i ==> (#[trigger] s[j]).price.lt(lvl.price),
        forall|j: int| i <= j < s.len() ==> lvl.price.lt((#[trigger] s[j]).price),
    ensures
        ascending(s.insert(i, lvl)),
        level_map(s.insert(i, lvl)) == level_map(s).insert(lvl.price, lvl.quantity),
{
    let s2 = s.insert(i, lvl);
    assert forall|a: int, b: int| 0 <= a < b < s2.len() implies #[trigger] s2[a].price.lt(
        #[trigger] s2[b].price,
    ) by {
        if a < i && b == i {
        } else if a == i {
            assert(s2[b] == s[b - 1]);
        } else if b < i {
        } else if a < i {
            assert(s2[b] == s[b - 1]);
        } else {
            assert(s2[a] == s[a - 1]);
            assert(s2[b] == s[b - 1]);
        }
    }
    assert(ascending(s2));
    let m = level_map(s).insert(lvl.price, lvl.quantity);
    assert forall|k: Decimal| #[trigger] level_map(s2).contains_key(k) == m.contains_key(k) by {
        if has_price(s2, k) {
            let a = choose|a: int| 0 <= a < s2.len() && s2[a].price == k;
            if a < i {
                assert(s[a].price == k);
            } else if a > i {
                assert(s[a - 1].price == k);
            }
        }
        if has_price(s, k) {
            let a = choose|a: int| 0 <= a < s.len() && s[a].price == k;
            if a < i {
                assert(s2[a].price == k);
            } else {
                assert(s2[a + 1].price == k);
            }
        }
        if k == lvl.price {
            assert(s2[i].price == k);
        }
    }
    assert forall|k: Decimal| #[trigger] level_map(s2).contains_key(k) implies level_map(s2)[k]
        == m[k] by {
        let a = choose|a: int| 0 <= a < s2.len() && s2[a].price == k;
        lemma_level_map_at(s2, a);
        if a < i {
            lemma_level_map_at(s, a);
        } else if a > i {
            lemma_level_map_at(s, a - 1);
        }
    }
    assert(level_map(s2) =~= m);
}

/// Replacing the quantity at an existing price.
proof fn lemma_update_at(s: Seq<PriceLevel>, i: int, q: Decimal)
    requires
        ascending(s),
        0 <= i < s.len(),
        positive(q),
    ensures
        ascending(s.update(i, PriceLevel { price: s[i].price, quantity: q })),
        level_map(s.update(i, PriceLevel { price: s[i].price, quantity: q })) == level_map(s).insert(
            s[i].price,
            q,
        ),
{
    let lvl = PriceLevel { price: s[i].price, quantity: q };
    let s2 = s.update(i, lvl);
    assert(ascending(s2));
    let m = level_map(s).insert(lvl.price, q);
    assert forall|k: Decimal| #[trigger] level_map(s2).contains_key(k) == m.contains_key(k) by {
        if has_price(s2, k) {
            let a = choose|a: int| 0 <= a < s2.len() && s2[a].price == k;
            assert(s[a].price == k);
        }
        if has_price(s, k) {
            let a = choose|a: int| 0 <= a < s.len() && s[a].price == k;
            assert(s2[a].price == k);
        }
    }
    assert forall|k: Decimal| #[trigger] level_map(s2).contains_key(k) implies level_map(s2)[k]
        == m[k] by {
        let a = choose|a: int| 0 <= a < s2.len() && s2[a].price == k;
        lemma_level_map_at(s2, a);
        if a != i {
            lemma_level_map_at(s, a);
        }
    }
    assert(level_map(s2) =~= m);
}

/// Removing the level at an index drops its price from the map.
proof fn lemma_remove_at(s: Seq<PriceLevel>, i: int)
    requires
        ascending(s),
        0 <= i < s.len(),
    ensures
        ascending(s.remove(i)),
        level_map(s.remove(i)) == level_map(s).remove(s[i].price),
{
    let s2 = s.remove(i);
    assert forall|a: int, b: int| 0 <= a < b < s2.len() implies #[trigger] s2[a].price.lt(
        #[trigger] s2[b].price,
    ) by {
        if b < i {
        } else if a < i {
            assert(s2[b] == s[b + 1]);
        } else {
            assert(s2[a] == s[a + 1]);
            assert(s2[b] == s[b + 1]);
        }
    }
    assert forall|a: int| 0 <= a < s2.len() implies (#[trigger] s2[a]).price.is_normal()
        && positive(s2[a].quantity) by {
        if a >= i {
            assert(s2[a] == s[a + 1]);
        }
    }
    assert(ascending(s2));
    let p = s[i].price;
    let m = level_map(s).remove(p);
    assert forall|k: Decimal| #[trigger] level_map(s2).contains_key(k) == m.contains_key(k) by {
        if has_price(s2, k) {
            let a = choose|a: int| 0 <= a < s2.len() && s2[a].price == k;
            if a < i {
                assert(s[a].price == k);
                if k == p {
                    lemma_unique_index(s, a, i);
                }
            } else {
                assert(s[a + 1].price == k);
                if k == p {
                    lemma_unique_index(s, a + 1, i);
                }
            }
        }
        if has_price(s, k) && k != p {
            let a = choose|a: int| 0 <= a < s.len() && s[a].price == k;
            if a < i {
                assert(s2[a].price == k);
            } else {
                assert(a != i);
                assert(s2[a - 1].price == k);
            }
        }
    }
    assert forall|k: Decimal| #[trigger] level_map(s2).contains_key(k) implies level_map(s2)[k]
        == m[k] by {
        let a = choose|a: int| 0 <= a < s2.len() && s2[a].price == k;
        lemma_level_map_at(s2, a);
        if a < i {
            lemma_level_map_at(s, a);
        } else {
            lemma_level_map_at(s, a + 1);
        }
    }
    assert(level_map(s2) =~= m);
}

/// Reading an ascending side one level further adds that level's price, which
/// the shorter prefix does not hold.
pub proof fn lemma_level_map_prefix(s: Seq<PriceLevel>, i: int)
    requires
        ascending(s),
        0 <= i < s.len(),
    ensures
        !level_map(s.take(i)).contains_key(s[i].price),
        level_map(s.take(i + 1)) == level_map(s.take(i)).insert(s[i].price, s[i].quantity),
{
    let t = s.take(i);
    lemma_ascending_subrange(s, 0, i);
    assert(t =~= s.subrange(0, i));
    assert forall|j: int| 0 <= j < i implies (#[trigger] t[j]).price.lt(s[i].price) by {
        assert(t[j] == s[j]);
    }
    lemma_insert_at(t, i, s[i]);
    assert(t.insert(i, s[i]) =~= s.take(i + 1));
    if has_price(t, s[i].price) {
        let a = choose|a: int| 0 <= a < t.len() && t[a].price == s[i].price;
        assert(s[a].price == s[i].price);
        lemma_unique_index(s, a, i);
    }
}

pub proof fn lemma_level_map_empty()
    ensures
        level_map(Seq::<PriceLevel>::empty()) == Map::<Decimal, Decimal>::empty(),
{
    assert(level_map(Seq::<PriceLevel>::empty()) =~= Map::<Decimal, Decimal>::empty());
}

/// Two ascending sides with the same price map are the same side.
pub proof fn lemma_ascending_unique(s1: Seq<PriceLevel>, s2: Seq<PriceLevel>)
    requires
        ascending(s1),
        ascending(s2),
        level_map(s1) == level_map(s2),
    ensures
        s1 == s2,
    decreases s1.len() + s2.len(),
{
    if s1.len() == 0 && s2.len() == 0 {
        assert(s1 =~= s2);
    } else if s1.len() == 0 {
        lemma_level_map_at(s2, 0);
    } else if s2.len() == 0 {
        lemma_level_map_at(s1, 0);
    } else {
        let n1 = s1.len() - 1;
        let n2 = s2.len() - 1;
        let top1 = s1[n1].price;
        let top2 = s2[n2].price;
        lemma_level_map_at(s1, n1);
        lemma_level_map_at(s2, n2);
        if top1 != top2 {
            let a = choose|a: int| 0 <= a < s2.len() && s2[a].price == top1;
            let b = choose|b: int| 0 <= b < s1.len() && s1[b].price == top2;
            assert(a != n2 && b != n1);
            assert(top1.lt(top2));
            assert(top2.lt(top1));
            lemma_lt_asymmetric(top1, top2);
        }
        lemma_remove_at(s1, n1);
        lemma_remove_at(s2, n2);
        assert(s1.remove(n1) =~= s1.drop_last());
        assert(s2.remove(n2) =~= s2.drop_last());
        lemma_ascending_unique(s1.drop_last(), s2.drop_last());
        assert(s1[n1] == s2[n2]);
        assert(s1 =~= s1.drop_last().push(s1[n1]));
        assert(s2 =~= s2.drop_last().push(s2[n2]));
    }
}

/// The ascending side holding exactly the prices and quantities of `m`.
pub open spec fn sorted_side(m: Map<Decimal, Decimal>) -> Seq<PriceLevel> {
    choose|s: Seq<PriceLevel>| ascending(s) && level_map(s) == m
}

/// `m` has a sorted side: an ascending side whose price map is `m`.
pub open spec fn has_sorted_side(m: Map<Decimal, Decimal>) -> bool {
    ascending(sorted_side(m)) && level_map(sorted_side(m)) == m
}

/// An ascending side is the sorted side of its own map.
pub proof fn lemma_sorted_side(s: Seq<PriceLevel>)
    requires
        ascending(s),
    ensures
        sorted_side(level_map(s)) == s,
{
    let t = sorted_side(level_map(s));
    assert(ascending(t) && level_map(t) == level_map(s));
    lemma_ascending_unique(t, s);
}

/// One side of a book: levels kept in ascending price order.
#[derive(Clone, Debug, PartialEq)]
pub struct BookSide {
    levels: Vec<PriceLevel>,
}

impl View for BookSide {
    type V = Seq<PriceLevel>;

    closed spec fn view(&self) -> Seq<PriceLevel> {
        self.levels@
    }
}

impl BookSide {
    pub fn new() -> (r: BookSide)
        ensures
            r@ == Seq::<PriceLevel>::empty(),
    {
        BookSide { levels: Vec::new() }
    }

    pub fn len(&self) -> (r: usize)
        ensures
            r == self@.len(),
    {
        self.levels.len()
    }

    /// The levels in ascending price order.
    pub fn levels(&self) -> (r: &Vec<PriceLevel>)
        ensures
            r@ == self@,
    {
        &self.levels
    }

    /// The lowest-priced level.
    pub fn first(&self) -> (r: Option<PriceLevel>)
        ensures
            self@.len() == 0 ==> r is None,
            self@.len() > 0 ==> r == Some(self@[0]),
    {
        if self.levels.len() == 0 {
            None
        } else {
            Some(self.levels[0])
        }
    }

    /// The highest-priced level.
    pub fn last(&self) -> (r: Option<PriceLevel>)
        ensures
            self@.len() == 0 ==> r is None,
            self@.len() > 0 ==> r == Some(self@.last()),
    {
        let n = self.levels.len();
        if n == 0 {
            None
        } else {
            Some(self.levels[n - 1])
        }
    }

    /// The quantity resting at `price`.
    pub fn get(&self, price: &Decimal) -> (r: Option<Decimal>)
        requires
            ascending(self@),
        ensures
            r == (if level_map(self@).contains_key(*price) {
                Some(level_map(self@)[*price])
            } else {
                None
            }),
    {
        let mut i: usize = 0;
        while i < self.levels.len()
            invariant
                i <= self.levels@.len(),
                ascending(self.levels@),
                forall|j: int| 0 <= j < i ==> self.levels@[j].price != *price,
            decreases self.levels@.len() - i,
        {
            if self.levels[i].price == *price {
                proof {
                    lemma_level_map_at(self.levels@, i as int);
                }
                return Some(self.levels[i].quantity);
            }
            i = i + 1;
        }
        None
    }

    fn duplicate(&self) -> (r: BookSide)
        ensures
            r@ == self@,
    {
        let mut levels: Vec<PriceLevel> = Vec::new();
        let mut i: usize = 0;
        while i < self.levels.len()
            invariant
                i <= self.levels@.len(),
                levels@ == self.levels@.take(i as int),
            decreases self.levels@.len() - i,
        {
            levels.push(self.levels[i]);
            i = i + 1;
            proof {
                assert(levels@ =~= self.levels@.take(i as int));
            }
        }
        proof {
            assert(levels@ =~= self.levels@);
        }
        BookSide { levels }
    }

    fn clear(&mut self)
        ensures
            final(self)@ == Seq::<PriceLevel>::empty(),
    {
        self.levels.clear();
    }

    /// Set the quantity at `price`; a zero quantity removes the price.
    fn insert(&mut self, price: Decimal, quantity: Decimal)
        requires
            ascending(old(self)@),
            !quantity.spec_negative(),
        ensures
            ascending(final(self)@),
            level_map(final(self)@) == apply_level(
                level_map(old(self)@),
                PriceLevel { price, quantity },
            ),
    {
        proof {
            use_type_invariant(&price);
        }
        let n = self.levels.len();
        let mut i: usize = 0;
        while i < n && matches!(self.levels[i].price.compare(&price), Ordering::Less)
            invariant
                n == self.levels@.len(),
                i <= n,
                forall|j: int| 0 <= j < i ==> (#[trigger] self.levels@[j]).price.lt(price),
            decreases n - i,
        {
            i = i + 1;
        }
        let found = i < n && self.levels[i].price == price;
        proof {
            if i < n && !found {
                lemma_lt_total(self.levels@[i as int].price, price);
                assert(price.lt(self.levels@[i as int].price));
                assert forall|j: int| i <= j < n implies price.lt(
                    (#[trigger] self.levels@[j]).price,
                ) by {
                    if j > i {
                        lemma_lt_transitive(price, self.levels@[i as int].price, self.levels@[j].price);
                    }
                }
            }
        }
        let lvl = PriceLevel { price, quantity };
        if found {
            if quantity.is_zero() {
                proof {
                    lemma_remove_at(self.levels@, i as int);
                }
                self.levels.remove(i);
            } else {
                proof {
                    lemma_update_at(self.levels@, i as int, quantity);
                }
                self.levels[i] = lvl;
            }
        } else {
            proof {
                assert(!has_price(self.levels@, price)) by {
                    if has_price(self.levels@, price) {
                        let a = choose|a: int| 0 <= a < n && self.levels@[a].price == price;
                        lemma_lt_irreflexive(price);
                        if a >= i {
                            assert(price.lt(self.levels@[a].price));
                        }
                    }
                }
                assert(level_map(self.levels@).remove(price) =~= level_map(self.levels@));
            }
            if !quantity.is_zero() {
                proof {
                    lemma_insert_at(self.levels@, i as int, lvl);
                }
                self.levels.insert(i, lvl);
            }
        }
    }

    /// Keep the `n` highest prices.
    fn keep_highest(&mut self, n: usize)
        requires
            ascending(old(self)@),
        ensures
            final(self)@ == keep_highest(old(self)@, n as nat),
            ascending(final(self)@),
    {
        let len = self.levels.len();
        if len > n {
            let tail = self.levels.split_off(len - n);
            self.levels = tail;
        }
        proof {
            lemma_ascending_subrange(old(self)@, (len - keep_highest(old(self)@, n as nat).len()) as int, len as int);
        }
    }

    /// Keep the `n` lowest prices.
    fn keep_lowest(&mut self, n: usize)
        requires
            ascending(old(self)@),
        ensures
            final(self)@ == keep_lowest(old(self)@, n as nat),
            ascending(final(self)@),
    {
        let len = self.levels.len();
        self.levels.truncate(n);
        proof {
            lemma_ascending_subrange(old(self)@, 0, keep_lowest(old(self)@, n as nat).len() as int);
            assert(old(self)@.take(n as int) =~= old(self)@.subrange(0, n as int));
            assert(len <= n ==> old(self)@.subrange(0, len as int) =~= old(self)@);
        }
    }
}

proof fn lemma_ascending_subrange(s: Seq<PriceLevel>, a: int, b: int)
    requires
        ascending(s),
        0 <= a <= b <= s.len(),
    ensures
        ascending(s.subrange(a, b)),
{
    let t = s.subrange(a, b);
    assert forall|i: int, j: int| 0 <= i < j < t.len() implies #[trigger] t[i].price.lt(
        #[trigger] t[j].price,
    ) by {
        assert(t[i] == s[a + i]);
        assert(t[j] == s[a + j]);
    }
    assert forall|i: int| 0 <= i < t.len() implies (#[trigger] t[i]).price.is_normal()
        && positive(t[i].quantity) by {
        assert(t[i] == s[a + i]);
    }
}

/// Trimming a side keeps at most `n` levels, and every dropped price is worse
/// than every kept one: lower on the bid side, higher on the ask side.
pub proof fn lemma_trim_keeps_best(s: Seq<PriceLevel>, n: nat)
    requires
        ascending(s),
    ensures
        keep_highest(s, n).len() <= n,
        keep_lowest(s, n).len() <= n,
        keep_highest(s, n).len() == s.len() || keep_highest(s, n).len() == n,
        keep_lowest(s, n).len() == s.len() || keep_lowest(s, n).len() == n,
        level_map(keep_highest(s, n)).submap_of(level_map(s)),
        level_map(keep_lowest(s, n)).submap_of(level_map(s)),
        forall|dropped: Decimal, kept: Decimal|
            level_map(s).contains_key(dropped) && !level_map(keep_highest(s, n)).contains_key(
                dropped,
            ) && #[trigger] level_map(keep_highest(s, n)).contains_key(kept) ==> #[trigger] dropped.lt(
                kept,
            ),
        forall|dropped: Decimal, kept: Decimal|
            level_map(s).contains_key(dropped) && !level_map(keep_lowest(s, n)).contains_key(
                dropped,
            ) && #[trigger] level_map(keep_lowest(s, n)).contains_key(kept) ==> #[trigger] kept.lt(
                dropped,
            ),
{
    let len = s.len();
    let lo: int = if len > n { len - n } else { 0 };
    let hi: int = if len > n { n as int } else { len as int };
    let h = keep_highest(s, n);
    let l = keep_lowest(s, n);
    assert(h =~= s.subrange(lo, len as int));
    assert(l =~= s.subrange(0, hi));
    lemma_ascending_subrange(s, lo, len as int);
    lemma_ascending_subrange(s, 0, hi);
    assert forall|p: Decimal| #[trigger] level_map(h).contains_key(p) implies level_map(s).contains_key(p)
        && level_map(h)[p] == level_map(s)[p] by {
        let a = choose|a: int| 0 <= a < h.len() && h[a].price == p;
        lemma_level_map_at(h, a);
        lemma_level_map_at(s, a + lo);
    }
    assert forall|p: Decimal| #[trigger] level_map(l).contains_key(p) implies level_map(s).contains_key(p)
        && level_map(l)[p] == level_map(s)[p] by {
        let a = choose|a: int| 0 <= a < l.len() && l[a].price == p;
        lemma_level_map_at(l, a);
        lemma_level_map_at(s, a);
    }
    assert forall|dropped: Decimal, kept: Decimal|
        level_map(s).contains_key(dropped) && !level_map(h).contains_key(dropped)
            && #[trigger] level_map(h).contains_key(kept) implies #[trigger] dropped.lt(kept) by {
        let a = choose|a: int| 0 <= a < len && s[a].price == dropped;
        let b = choose|b: int| 0 <= b < h.len() && h[b].price == kept;
        if a >= lo {
            assert(h[a - lo].price == dropped);
        }
        assert(s[b + lo].price == kept);
    }
    assert forall|dropped: Decimal, kept: Decimal|
        level_map(s).contains_key(dropped) && !level_map(l).contains_key(dropped)
            && #[trigger] level_map(l).contains_key(kept) implies #[trigger] kept.lt(dropped) by {
        let a = choose|a: int| 0 <= a < len && s[a].price == dropped;
        let b = choose|b: int| 0 <= b < l.len() && l[b].price == kept;
        if a < hi {
            assert(l[a].price == dropped);
        }
        assert(s[b].price == kept);
    }
}

/// A book side maps each price to a non-zero quantity, so after an update with
/// a zero quantity the price is absent.
pub proof fn lemma_zero_update_removes(m: Map<Decimal, Decimal>, p: Decimal, q: Decimal)
    requires
        q.spec_is_zero(),
    ensures
        !apply_level(m, PriceLevel { price: p, quantity: q }).contains_key(p),
{
}

/// The abstract content of a book.
pub struct BookView {
    pub name: Seq<char>,
    pub bid: Seq<PriceLevel>,
    pub ask: Seq<PriceLevel>,
    pub volume: Decimal,
    pub last_price: Decimal,
    pub timestamp: u128,
}

/// Relies on std's `SystemTime::now` (read as milliseconds since the Unix epoch
/// through `duration_since` and `as_millis`; 0 for a clock set before the epoch).
/// Nothing is promised of the value: it is the clock's.
#[verifier::external_body]
fn get_unixtime() -> u128 {
    std::time::SystemTime::now().duration_since(std::time::UNIX_EPOCH).map(|d| d.as_millis()).unwrap_or(0)
}

/// A venue's book: bid and ask sides, the last traded price and the traded
/// volume (zero when unknown), and the time it was built, in milliseconds.
#[derive(Clone, Debug, PartialEq)]
pub struct Orderbook {
    name: String,
    bid: BookSide,
    ask: BookSide,
    volume: Decimal,
    last_price: Decimal,
    timestamp: u128,
}

impl View for Orderbook {
    type V = BookView;

    closed spec fn view(&self) -> BookView {
        BookView {
            name: self.name@,
            bid: self.bid@,
            ask: self.ask@,
            volume: self.volume,
            last_price: self.last_price,
            timestamp: self.timestamp,
        }
    }
}

impl Orderbook {
    /// Both sides ascending.
    pub open spec fn wf(&self) -> bool {
        ascending(self@.bid) && ascending(self@.ask)
    }

    pub open spec fn side_view(&self, side: Side) -> Seq<PriceLevel> {
        match side {
            Side::Bid => self@.bid,
            Side::Ask => self@.ask,
        }
    }

    /// An empty book for venue `name`, stamped with the current time.
    pub fn new(name: &str) -> (r: Orderbook)
        ensures
            r.wf(),
            r@ == (BookView {
                name: name@,
                bid: Seq::empty(),
                ask: Seq::empty(),
                volume: Decimal::spec_zero(),
                last_price: Decimal::spec_zero(),
                timestamp: r@.timestamp,
            }),
    {
        Orderbook::with_timestamp(name, get_unixtime())
    }

    /// An empty book for venue `name` stamped with `timestamp`.
    pub fn with_timestamp(name: &str, timestamp: u128) -> (r: Orderbook)
        ensures
            r.wf(),
            r@ == (BookView {
                name: name@,
                bid: Seq::empty(),
                ask: Seq::empty(),
                volume: Decimal::spec_zero(),
                last_price: Decimal::spec_zero(),
                timestamp,
            }),
    {
        let r = Orderbook {
            name: name.to_owned(),
            bid: BookSide::new(),
            ask: BookSide::new(),
            volume: Decimal::zero(),
            last_price: Decimal::zero(),
            timestamp,
        };
        proof {
            assert(r@.bid =~= Seq::<PriceLevel>::empty());
            assert(r@.ask =~= Seq::<PriceLevel>::empty());
        }
        r
    }

    pub fn name(&self) -> (r: &String)
        ensures
            r@ == self@.name,
    {
        &self.name
    }

    pub fn bid(&self) -> (r: &BookSide)
        ensures
            r@ == self@.bid,
    {
        &self.bid
    }

    pub fn ask(&self) -> (r: &BookSide)
        ensures
            r@ == self@.ask,
    {
        &self.ask
    }

    pub fn volume(&self) -> (r: Decimal)
        ensures
            r == self@.volume,
    {
        self.volume
    }

    pub fn last_price(&self) -> (r: Decimal)
        ensures
            r == self@.last_price,
    {
        self.last_price
    }

    pub fn timestamp(&self) -> (r: u128)
        ensures
            r == self@.timestamp,
    {
        self.timestamp
    }

    pub fn set_timestamp(&mut self, timestamp: u128)
        ensures
            final(self)@ == (BookView { timestamp, ..old(self)@ }),
    {
        self.timestamp = timestamp;
    }

    /// Overwrite the ticker overlay; the depth is kept.
    pub fn set_ticker(&mut self, last_price: Decimal, volume: Decimal)
        ensures
            final(self)@ == (BookView { last_price, volume, ..old(self)@ }),
    {
        self.last_price = last_price;
        self.volume = volume;
    }

    /// A copy of this book.
    pub fn duplicate(&self) -> (r: Orderbook)
        ensures
            r@ == self@,
    {
        Orderbook {
            name: self.name.clone(),
            bid: self.bid.duplicate(),
            ask: self.ask.duplicate(),
            volume: self.volume,
            last_price: self.last_price,
            timestamp: self.timestamp,
        }
    }

    /// Empty both sides; the ticker fields are kept.
    pub fn clear(&mut self)
        ensures
            final(self).wf(),
            final(self)@ == (BookView {
                bid: Seq::<PriceLevel>::empty(),
                ask: Seq::<PriceLevel>::empty(),
                ..old(self)@
            }),
    {
        self.bid.clear();
        self.ask.clear();
    }

    /// Set the quantity at `price` on `side`; a zero quantity erases the price.
    /// Quantities are never negative: a book holds only quantities above zero.
    pub fn insert(&mut self, side: Side, price: Decimal, volume: Decimal)
        requires
            old(self).wf(),
            !volume.spec_negative(),
        ensures
            final(self).wf(),
            level_map(final(self).side_view(side)) == apply_level(
                level_map(old(self).side_view(side)),
                PriceLevel { price, quantity: volume },
            ),
            volume.spec_is_zero() ==> !level_map(final(self).side_view(side)).contains_key(price),
            final(self)@.name == old(self)@.name,
            final(self)@.volume == old(self)@.volume,
            final(self)@.last_price == old(self)@.last_price,
            final(self)@.timestamp == old(self)@.timestamp,
            side == Side::Bid ==> final(self)@.ask == old(self)@.ask,
            side == Side::Ask ==> final(self)@.bid == old(self)@.bid,
    {
        match side {
            Side::Bid => self.bid.insert(price, volume),
            Side::Ask => self.ask.insert(price, volume),
        }
    }

    /// Apply `levels` in order to `side`, each with insert-with-zero-delete semantics.
    pub fn insert_all(&mut self, side: Side, levels: &Vec<PriceLevel>)
        requires
            old(self).wf(),
            no_negative(levels@),
        ensures
            final(self).wf(),
            level_map(final(self).side_view(side)) == apply_levels(
                level_map(old(self).side_view(side)),
                levels@,
            ),
            final(self)@.name == old(self)@.name,
            final(self)@.volume == old(self)@.volume,
            final(self)@.last_price == old(self)@.last_price,
            final(self)@.timestamp == old(self)@.timestamp,
            side == Side::Bid ==> final(self)@.ask == old(self)@.ask,
            side == Side::Ask ==> final(self)@.bid == old(self)@.bid,
    {
        let mut i: usize = 0;
        while i < levels.len()
            invariant
                i <= levels@.len(),
                no_negative(levels@),
                self.wf(),
                level_map(self.side_view(side)) == apply_levels(
                    level_map(old(self).side_view(side)),
                    levels@.take(i as int),
                ),
                self@.name == old(self)@.name,
                self@.volume == old(self)@.volume,
                self@.last_price == old(self)@.last_price,
                self@.timestamp == old(self)@.timestamp,
                side == Side::Bid ==> self@.ask == old(self)@.ask,
                side == Side::Ask ==> self@.bid == old(self)@.bid,
            decreases levels@.len() - i,
        {
            let lvl = levels[i];
            self.insert(side, lvl.price, lvl.quantity);
            proof {
                assert(levels@.take(i + 1).drop_last() =~= levels@.take(i as int));
            }
            i = i + 1;
        }
        proof {
            assert(levels@.take(i as int) =~= levels@);
        }
    }

    /// Keep the `level` best prices of each side: the highest bids and the lowest asks.
    pub fn trim(&mut self, level: u32)
        requires
            old(self).wf(),
        ensures
            final(self).wf(),
            final(self)@ == (BookView {
                bid: keep_highest(old(self)@.bid, level as nat),
                ask: keep_lowest(old(self)@.ask, level as nat),
                ..old(self)@
            }),
    {
        self.bid.keep_highest(level as usize);
        self.ask.keep_lowest(level as usize);
    }
}

} // verus!
