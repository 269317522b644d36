//! Merging venue books by price and summarizing the top of the merged book.
use crate::book::{ascending, lemma_level_map_prefix, level_map, Orderbook, PriceLevel};
use crate::decimal::{lemma_lt_asymmetric, lemma_lt_irreflexive, lemma_lt_total, lemma_lt_transitive, Decimal};
use std::cmp::Ordering;
use vstd::prelude::*;

verus! {

/// Most rows a summary holds per side.
pub const MAX_SUMMARY_ROWS: usize = 10;

/// A venue's quantity at a merged price.
#[derive(Clone, Debug, PartialEq)]
pub struct VenueQuantity {
    pub exchange: String,
    pub quantity: Decimal,
}

/// All venues' quantities at one price, in merge order.
#[derive(Clone, Debug, PartialEq)]
pub struct PriceGroup {
    pub price: Decimal,
    pub entries: Vec<VenueQuantity>,
}

pub struct GroupView {
    pub price: Decimal,
    pub entries: Seq<(Seq<char>, Decimal)>,
}

pub open spec fn entry_view(e: VenueQuantity) -> (Seq<char>, Decimal) {
    (e.exchange@, e.quantity)
}

impl View for PriceGroup {
    type V = GroupView;

    open spec fn view(&self) -> GroupView {
        GroupView { price: self.price, entries: self.entries@.map_values(|e: VenueQuantity| entry_view(e)) }
    }
}

pub open spec fn groups_view(gs: Seq<PriceGroup>) -> Seq<GroupView> {
    gs.map_values(|g: PriceGroup| g@)
}

/// One row of a summary: a venue, a price and the amount it offers there.
#[derive(Clone, Debug, PartialEq)]
pub struct Level {
    pub exchange: String,
    pub price: Decimal,
    pub amount: Decimal,
}

pub struct LevelView {
    pub exchange: Seq<char>,
    pub price: Decimal,
    pub amount: Decimal,
}

impl View for Level {
    type V = LevelView;

    open spec fn view(&self) -> LevelView {
        LevelView { exchange: self.exchange@, price: self.price, amount: self.amount }
    }
}

pub open spec fn levels_view(ls: Seq<Level>) -> Seq<LevelView> {
    ls.map_values(|l: Level| l@)
}

/// Prices strictly ascending and in normal form.
pub open spec fn ascending_groups(gs: Seq<GroupView>) -> bool {
    &&& forall|i: int, j: int|
        #![trigger gs[i], gs[j]]
        0 <= i < j < gs.len() ==> gs[i].price.lt(gs[j].price)
    &&& forall|i: int| 0 <= i < gs.len() ==> (#[trigger] gs[i]).price.is_normal()
}

pub open spec fn has_group(gs: Seq<GroupView>, p: Decimal) -> bool {
    exists|i: int| 0 <= i < gs.len() && gs[i].price == p
}

/// A merged side read as a map from price to the venues' entries there.
pub open spec fn group_map(gs: Seq<GroupView>) -> Map<Decimal, Seq<(Seq<char>, Decimal)>> {
    Map::new(
        |p: Decimal| has_group(gs, p),
        |p: Decimal| gs[choose|i: int| 0 <= i < gs.len() && gs[i].price == p].entries,
    )
}

/// The entries at `p`, empty where the price is absent.
pub open spec fn entries_at(m: Map<Decimal, Seq<(Seq<char>, Decimal)>>, p: Decimal) -> Seq<
    (Seq<char>, Decimal),
> {
    if m.contains_key(p) {
        m[p]
    } else {
        Seq::empty()
    }
}

/// Merging one venue's side: at each of its prices the venue's quantity is
/// appended after the entries already there.
pub open spec fn merge_side(
    m: Map<Decimal, Seq<(Seq<char>, Decimal)>>,
    venue: Seq<char>,
    side: Map<Decimal, Decimal>,
) -> Map<Decimal, Seq<(Seq<char>, Decimal)>> {
    Map::new(
        |p: Decimal| m.contains_key(p) || side.contains_key(p),
        |p: Decimal|
            if side.contains_key(p) {
                entries_at(m, p).push((venue, side[p]))
            } else {
                m[p]
            },
    )
}

/// The summary rows of one group.
pub open spec fn group_rows(g: GroupView) -> Seq<LevelView> {
    g.entries.map_values(|e: (Seq<char>, Decimal)| LevelView { exchange: e.0, price: g.price, amount: e.1 })
}

/// The rows of groups visited in order.
pub open spec fn flatten(gs: Seq<GroupView>) -> Seq<LevelView>
    decreases gs.len(),
{
    if gs.len() == 0 {
        Seq::empty()
    } else {
        flatten(gs.drop_last()) + group_rows(gs.last())
    }
}

/// The number of entries in the groups.
pub open spec fn entry_count(gs: Seq<GroupView>) -> nat
    decreases gs.len(),
{
    if gs.len() == 0 {
        0
    } else {
        entry_count(gs.drop_last()) + gs.last().entries.len()
    }
}

pub open spec fn first_rows(s: Seq<LevelView>, n: nat) -> Seq<LevelView> {
    if s.len() > n {
        s.take(n as int)
    } else {
        s
    }
}

/// Visit the first `depth` groups in `order`, emitting each group's rows, and
/// stop at `MAX_SUMMARY_ROWS` rows.
pub open spec fn top_rows(order: Seq<GroupView>, depth: nat) -> Seq<LevelView> {
    first_rows(flatten(first_groups(order, depth)), MAX_SUMMARY_ROWS as nat)
}

/// The first `depth` groups of `order` (all of them if there are fewer).
pub open spec fn first_groups(order: Seq<GroupView>, depth: nat) -> Seq<GroupView> {
    if order.len() > depth {
        order.take(depth as int)
    } else {
        order
    }
}

/// Groups from the highest price down.
pub open spec fn descending(gs: Seq<GroupView>) -> Seq<GroupView> {
    Seq::new(gs.len(), |i: int| gs[gs.len() - 1 - i])
}

pub struct AggregatedView {
    pub bid: Seq<GroupView>,
    pub ask: Seq<GroupView>,
}

/// The merged book of many venues, built by `new`, then `merge` once per
/// venue book, then read by `finalize`.
#[derive(Debug)]
pub struct AggregatedOrderbook {
    bid: Vec<PriceGroup>,
    ask: Vec<PriceGroup>,
}

impl View for AggregatedOrderbook {
    type V = AggregatedView;

    closed spec fn view(&self) -> AggregatedView {
        AggregatedView { bid: groups_view(self.bid@), ask: groups_view(self.ask@) }
    }
}

/// The top of the merged book: at most `MAX_SUMMARY_ROWS` rows per side, best
/// prices first.
#[derive(Clone, Debug, PartialEq)]
pub struct Summary {
    pub bids: Vec<Level>,
    pub asks: Vec<Level>,
}

impl Summary {
    /// The best ask price and the best bid price, the two ends of the spread;
    /// `None` when either side is empty.
    pub fn top_of_book(&self) -> (r: Option<(Decimal, Decimal)>)
        ensures
            self.bids@.len() > 0 && self.asks@.len() > 0 ==> r == Some(
                (self.asks@[0].price, self.bids@[0].price),
            ),
            self.bids@.len() == 0 || self.asks@.len() == 0 ==> r is None,
    {
        if self.bids.len() > 0 && self.asks.len() > 0 {
            Some((self.asks[0].price, self.bids[0].price))
        } else {
            None
        }
    }
}

proof fn lemma_unique_group(gs: Seq<GroupView>, i: int, j: int)
    requires
        ascending_groups(gs),
        0 <= i < gs.len(),
        0 <= j < gs.len(),
        gs[i].price == gs[j].price,
    ensures
        i == j,
{
    if i != j {
        lemma_lt_irreflexive(gs[i].price);
    }
}

proof fn lemma_group_map_at(gs: Seq<GroupView>, i: int)
    requires
        ascending_groups(gs),
        0 <= i < gs.len(),
    ensures
        group_map(gs).contains_key(gs[i].price),
        group_map(gs)[gs[i].price] == gs[i].entries,
{
    let p = gs[i].price;
    assert(has_group(gs, p));
    let j = choose|j: int| 0 <= j < gs.len() && gs[j].price == p;
    lemma_unique_group(gs, i, j);
}

proof fn lemma_group_insert_at(gs: Seq<GroupView>, i: int, g: GroupView)
    requires
        ascending_groups(gs),
        0 <= i <= gs.len(),
        g.price.is_normal(),
        forall|j: int| 0 <= j < i ==> (#[trigger] gs[j]).price.lt(g.price),
        forall|j: int| i <= j < gs.len() ==> g.price.lt((#[trigger] gs[j]).price),
    ensures
        ascending_groups(gs.insert(i, g)),
        group_map(gs.insert(i, g)) == group_map(gs).insert(g.price, g.entries),
{
    let s2 = gs.insert(i, g);
    assert forall|a: int, b: int| 0 <= a < b < s2.len() implies #[trigger] s2[a].price.lt(
        #[trigger] s2[b].price,
    ) by {
        if a < i && b == i {
        } else if a == i {
            assert(s2[b] == gs[b - 1]);
        } else if b < i {
        } else if a < i {
            assert(s2[b] == gs[b - 1]);
        } else {
            assert(s2[a] == gs[a - 1]);
            assert(s2[b] == gs[b - 1]);
        }
    }
    assert(ascending_groups(s2));
    let m = group_map(gs).insert(g.price, g.entries);
    assert forall|k: Decimal| #[trigger] group_map(s2).contains_key(k) == m.contains_key(k) by {
        if has_group(s2, k) {
            let a = choose|a: int| 0 <= a < s2.len() && s2[a].price == k;
            if a < i {
                assert(gs[a].price == k);
            } else if a > i {
                assert(gs[a - 1].price == k);
            }
        }
        if has_group(gs, k) {
            let a = choose|a: int| 0 <= a < gs.len() && gs[a].price == k;
            if a < i {
                assert(s2[a].price == k);
            } else {
                assert(s2[a + 1].price == k);
            }
        }
        if k == g.price {
            assert(s2[i].price == k);
        }
    }
    assert forall|k: Decimal| #[trigger] group_map(s2).contains_key(k) implies group_map(s2)[k]
        == m[k] by {
        let a = choose|a: int| 0 <= a < s2.len() && s2[a].price == k;
        lemma_group_map_at(s2, a);
        if a < i {
            lemma_group_map_at(gs, a);
        } else if a > i {
            lemma_group_map_at(gs, a - 1);
        }
    }
    assert(group_map(s2) =~= m);
}

proof fn lemma_group_update_at(gs: Seq<GroupView>, i: int, entries: Seq<(Seq<char>, Decimal)>)
    requires
        ascending_groups(gs),
        0 <= i < gs.len(),
    ensures
        ascending_groups(gs.update(i, GroupView { price: gs[i].price, entries })),
        group_map(gs.update(i, GroupView { price: gs[i].price, entries })) == group_map(gs).insert(
            gs[i].price,
            entries,
        ),
{
    let g = GroupView { price: gs[i].price, entries };
    let s2 = gs.update(i, g);
    assert(ascending_groups(s2));
    let m = group_map(gs).insert(g.price, entries);
    assert forall|k: Decimal| #[trigger] group_map(s2).contains_key(k) == m.contains_key(k) by {
        if has_group(s2, k) {
            let a = choose|a: int| 0 <= a < s2.len() && s2[a].price == k;
            assert(gs[a].price == k);
        }
        if has_group(gs, k) {
            let a = choose|a: int| 0 <= a < gs.len() && gs[a].price == k;
            assert(s2[a].price == k);
        }
    }
    assert forall|k: Decimal| #[trigger] group_map(s2).contains_key(k) implies group_map(s2)[k]
        == m[k] by {
        let a = choose|a: int| 0 <= a < s2.len() && s2[a].price == k;
        lemma_group_map_at(s2, a);
        if a != i {
            lemma_group_map_at(gs, a);
        }
    }
    assert(group_map(s2) =~= m);
}

proof fn lemma_group_remove_last(gs: Seq<GroupView>)
    requires
        ascending_groups(gs),
        gs.len() > 0,
    ensures
        ascending_groups(gs.drop_last()),
        group_map(gs.drop_last()) == group_map(gs).remove(gs.last().price),
{
    let n = gs.len() - 1;
    let t = gs.drop_last();
    assert(ascending_groups(t));
    let p = gs.last().price;
    let m = group_map(gs).remove(p);
    assert forall|k: Decimal| #[trigger] group_map(t).contains_key(k) == m.contains_key(k) by {
        if has_group(t, k) {
            let a = choose|a: int| 0 <= a < t.len() && t[a].price == k;
            assert(gs[a].price == k);
            if k == p {
                lemma_unique_group(gs, a, n);
            }
        }
        if has_group(gs, k) && k != p {
            let a = choose|a: int| 0 <= a < gs.len() && gs[a].price == k;
            assert(a != n);
            assert(t[a].price == k);
        }
    }
    assert forall|k: Decimal| #[trigger] group_map(t).contains_key(k) implies group_map(t)[k] == m[k] by {
        let a = choose|a: int| 0 <= a < t.len() && t[a].price == k;
        lemma_group_map_at(t, a);
        lemma_group_map_at(gs, a);
    }
    assert(group_map(t) =~= m);
}

/// Two ascending group sequences with the same map are the same sequence.
pub proof fn lemma_groups_unique(g1: Seq<GroupView>, g2: Seq<GroupView>)
    requires
        ascending_groups(g1),
        ascending_groups(g2),
        group_map(g1) == group_map(g2),
    ensures
        g1 == g2,
    decreases g1.len() + g2.len(),
{
    if g1.len() == 0 && g2.len() == 0 {
        assert(g1 =~= g2);
    } else if g1.len() == 0 {
        lemma_group_map_at(g2, 0);
    } else if g2.len() == 0 {
        lemma_group_map_at(g1, 0);
    } else {
        let n1 = g1.len() - 1;
        let n2 = g2.len() - 1;
        let top1 = g1[n1].price;
        let top2 = g2[n2].price;
        lemma_group_map_at(g1, n1);
        lemma_group_map_at(g2, n2);
        if top1 != top2 {
            let a = choose|a: int| 0 <= a < g2.len() && g2[a].price == top1;
            let b = choose|b: int| 0 <= b < g1.len() && g1[b].price == top2;
            assert(a != n2 && b != n1);
            assert(top1.lt(top2));
            assert(top2.lt(top1));
            lemma_lt_asymmetric(top1, top2);
        }
        lemma_group_remove_last(g1);
        lemma_group_remove_last(g2);
        lemma_groups_unique(g1.drop_last(), g2.drop_last());
        assert(g1[n1] == g2[n2]);
        assert(g1 =~= g1.drop_last().push(g1[n1]));
        assert(g2 =~= g2.drop_last().push(g2[n2]));
    }
}

/// The ascending groups holding exactly the prices and entries of `m`.
pub open spec fn sorted_groups(m: Map<Decimal, Seq<(Seq<char>, Decimal)>>) -> Seq<GroupView> {
    choose|gs: Seq<GroupView>| ascending_groups(gs) && group_map(gs) == m
}

/// An ascending group sequence is the sorted groups of its own map.
pub proof fn lemma_sorted_groups(gs: Seq<GroupView>)
    requires
        ascending_groups(gs),
    ensures
        sorted_groups(group_map(gs)) == gs,
{
    let t = sorted_groups(group_map(gs));
    assert(ascending_groups(t) && group_map(t) == group_map(gs));
    lemma_groups_unique(t, gs);
}

/// Adding one more of the venue's prices to a merge.
proof fn lemma_merge_step(
    m: Map<Decimal, Seq<(Seq<char>, Decimal)>>,
    venue: Seq<char>,
    side: Map<Decimal, Decimal>,
    p: Decimal,
    q: Decimal,
)
    requires
        !side.contains_key(p),
    ensures
        merge_side(m, venue, side.insert(p, q)) == merge_side(m, venue, side).insert(
            p,
            entries_at(m, p).push((venue, q)),
        ),
{
    assert(merge_side(m, venue, side.insert(p, q)) =~= merge_side(m, venue, side).insert(
        p,
        entries_at(m, p).push((venue, q)),
    ));
}

/// Merge the levels of one venue's side into a merged side.
fn merge_levels(groups: &mut Vec<PriceGroup>, venue: &String, levels: &Vec<PriceLevel>)
    requires
        ascending_groups(groups_view(old(groups)@)),
        ascending(levels@),
    ensures
        ascending_groups(groups_view(final(groups)@)),
        group_map(groups_view(final(groups)@)) == merge_side(
            group_map(groups_view(old(groups)@)),
            venue@,
            level_map(levels@),
        ),
{
    let ghost m0 = group_map(groups_view(groups@));
    proof {
        assert(level_map(levels@.take(0)) =~= Map::<Decimal, Decimal>::empty());
        assert(merge_side(m0, venue@, Map::empty()) =~= m0);
    }
    let mut k: usize = 0;
    while k < levels.len()
        invariant
            k <= levels@.len(),
            ascending(levels@),
            ascending_groups(groups_view(groups@)),
            group_map(groups_view(groups@)) == merge_side(m0, venue@, level_map(levels@.take(k as int))),
        decreases levels@.len() - k,
    {
        let lvl = levels[k];
        let price = lvl.price;
        proof {
            use_type_invariant(&price);
            lemma_level_map_prefix(levels@, k as int);
            lemma_merge_step(m0, venue@, level_map(levels@.take(k as int)), price, lvl.quantity);
        }
        let ghost before = groups_view(groups@);
        let ghost cur = merge_side(m0, venue@, level_map(levels@.take(k as int)));
        let entry = VenueQuantity { exchange: venue.clone(), quantity: lvl.quantity };
        let n = groups.len();
        let mut i: usize = 0;
        while i < n && matches!(groups[i].price.compare(&price), Ordering::Less)
            invariant
                n == groups@.len(),
                i <= n,
                groups_view(groups@) == before,
                forall|j: int| 0 <= j < i ==> (#[trigger] before[j]).price.lt(price),
            decreases n - i,
        {
            i = i + 1;
        }
        let found = i < n && groups[i].price == price;
        if found {
            proof {
                lemma_group_map_at(before, i as int);
                assert(entries_at(cur, price) == entries_at(m0, price)) by {
                    assert(!level_map(levels@.take(k as int)).contains_key(price));
                }
                lemma_group_update_at(before, i as int, before[i as int].entries.push(entry_view(entry)));
            }
            let mut g = groups.remove(i);
            g.entries.push(entry);
            groups.insert(i, g);
            proof {
                assert(g@.entries =~= before[i as int].entries.push(entry_view(entry)));
                assert(groups_view(groups@) =~= before.update(
                    i as int,
                    GroupView { price: before[i as int].price, entries: before[i as int].entries.push(entry_view(entry)) },
                ));
            }
        } else {
            proof {
                if i < n {
                    lemma_lt_total(before[i as int].price, price);
                    assert forall|j: int| i <= j < n implies price.lt((#[trigger] before[j]).price) by {
                        if j > i {
                            lemma_lt_transitive(price, before[i as int].price, before[j].price);
                        }
                    }
                }
                assert(!has_group(before, price)) by {
                    if has_group(before, price) {
                        let a = choose|a: int| 0 <= a < n && before[a].price == price;
                        lemma_lt_irreflexive(price);
                        if a >= i {
                            assert(price.lt(before[a].price));
                        }
                    }
                }
                assert(entries_at(cur, price) == Seq::<(Seq<char>, Decimal)>::empty()) by {
                    assert(!level_map(levels@.take(k as int)).contains_key(price));
                }
                lemma_group_insert_at(
                    before,
                    i as int,
                    GroupView { price, entries: seq![entry_view(entry)] },
                );
            }
            let mut entries: Vec<VenueQuantity> = Vec::new();
            entries.push(entry);
            let g = PriceGroup { price, entries };
            groups.insert(i, g);
            proof {
                assert(g@.entries =~= seq![entry_view(entry)]);
                assert(Seq::<(Seq<char>, Decimal)>::empty().push(entry_view(entry)) =~= seq![entry_view(entry)]);
                assert(groups_view(groups@) =~= before.insert(i as int, GroupView { price, entries: seq![entry_view(entry)] }));
            }
        }
        k = k + 1;
    }
    proof {
        assert(levels@.take(k as int) =~= levels@);
    }
}

/// The rows of `groups`, highest price first when `from_top` and lowest
/// first otherwise, visiting at most `depth` groups and emitting at most
/// `MAX_SUMMARY_ROWS` rows.
fn collect_rows(groups: &Vec<PriceGroup>, from_top: bool, depth: u32) -> (r: Vec<Level>)
    ensures
        levels_view(r@) == top_rows(
            if from_top {
                descending(groups_view(groups@))
            } else {
                groups_view(groups@)
            },
            depth as nat,
        ),
{
    let ghost order = if from_top {
        descending(groups_view(groups@))
    } else {
        groups_view(groups@)
    };
    let n = groups.len();
    let stop: usize = if (depth as usize) < n {
        depth as usize
    } else {
        n
    };
    let mut rows: Vec<Level> = Vec::new();
    let mut k: usize = 0;
    proof {
        assert(order.take(0) =~= Seq::<GroupView>::empty());
    }
    while k < stop && rows.len() < MAX_SUMMARY_ROWS
        invariant
            n == groups@.len(),
            order.len() == n,
            order == (if from_top {
                descending(groups_view(groups@))
            } else {
                groups_view(groups@)
            }),
            stop <= n,
            stop <= depth,
            k <= stop,
            levels_view(rows@) == first_rows(flatten(order.take(k as int)), MAX_SUMMARY_ROWS as nat),
        decreases stop - k,
    {
        let idx = if from_top {
            n - 1 - k
        } else {
            k
        };
        let g = &groups[idx];
        proof {
            assert(order[k as int] == g@);
        }
        let mut j: usize = 0;
        while j < g.entries.len() && rows.len() < MAX_SUMMARY_ROWS
            invariant
                j <= g.entries@.len(),
                k < order.len(),
                order[k as int] == g@,
                levels_view(rows@) == first_rows(
                    flatten(order.take(k as int)) + group_rows(g@).take(j as int),
                    MAX_SUMMARY_ROWS as nat,
                ),
                rows@.len() <= MAX_SUMMARY_ROWS,
            decreases g.entries@.len() - j,
        {
            let e = &g.entries[j];
            let row = Level { exchange: e.exchange.clone(), price: g.price, amount: e.quantity };
            let ghost prev = flatten(order.take(k as int)) + group_rows(g@).take(j as int);
            let ghost old_rows = rows;
            assert(levels_view(rows@).len() == rows@.len());
            rows.push(row);
            proof {
                assert(levels_view(rows@.drop_last()).len() == rows@.len() - 1);
                assert(rows@.drop_last() =~= old_rows@);
                assert(prev.len() < MAX_SUMMARY_ROWS);
                assert(group_rows(g@).take(j + 1) =~= group_rows(g@).take(j as int).push(row@));
                assert(flatten(order.take(k as int)) + group_rows(g@).take(j + 1) =~= prev.push(row@));
                assert(levels_view(rows@) =~= prev.push(row@));
            }
            j = j + 1;
        }
        proof {
            let f = flatten(order.take(k as int));
            assert(order.take(k + 1).drop_last() =~= order.take(k as int));
            assert(flatten(order.take(k + 1)) == f + group_rows(g@));
            if j == g.entries@.len() {
                assert(group_rows(g@).take(j as int) =~= group_rows(g@));
            } else {
                lemma_first_rows_extend(f + group_rows(g@).take(j as int), group_rows(g@).skip(j as int));
                assert(f + group_rows(g@).take(j as int) + group_rows(g@).skip(j as int) =~= f + group_rows(g@));
            }
        }
        k = k + 1;
    }
    proof {
        let visited = first_groups(order, depth as nat);
        assert(visited =~= order.take(stop as int));
        if k < stop {
            lemma_flatten_split(order.take(stop as int), k as int);
            assert(order.take(stop as int).take(k as int) =~= order.take(k as int));
            lemma_first_rows_extend(flatten(order.take(k as int)), flatten(order.take(stop as int).skip(k as int)));
        }
    }
    rows
}

/// Once `MAX_SUMMARY_ROWS` rows are there, later rows change nothing.
proof fn lemma_first_rows_extend(a: Seq<LevelView>, b: Seq<LevelView>)
    requires
        first_rows(a, MAX_SUMMARY_ROWS as nat).len() == MAX_SUMMARY_ROWS,
    ensures
        first_rows(a + b, MAX_SUMMARY_ROWS as nat) == first_rows(a, MAX_SUMMARY_ROWS as nat),
{
    assert((a + b).take(MAX_SUMMARY_ROWS as int) =~= a.take(MAX_SUMMARY_ROWS as int));
}

/// The rows of a prefix of groups come first.
pub proof fn lemma_flatten_split(gs: Seq<GroupView>, k: int)
    requires
        0 <= k <= gs.len(),
    ensures
        flatten(gs) == flatten(gs.take(k)) + flatten(gs.skip(k)),
    decreases gs.len(),
{
    if k == gs.len() {
        assert(gs.take(k) =~= gs);
        assert(gs.skip(k) =~= Seq::<GroupView>::empty());
        assert(flatten(gs) + Seq::<LevelView>::empty() =~= flatten(gs));
    } else {
        lemma_flatten_split(gs.drop_last(), k);
        assert(gs.drop_last().take(k) =~= gs.take(k));
        assert(gs.skip(k).drop_last() =~= gs.drop_last().skip(k));
        assert(gs.skip(k).last() == gs.last());
        assert(flatten(gs.take(k)) + flatten(gs.drop_last().skip(k)) + group_rows(gs.last()) =~= flatten(gs.take(k)) + (flatten(gs.drop_last().skip(k)) + group_rows(gs.last())));
    }
}

/// Groups strictly ordered in visiting direction: rising prices when `up`,
/// falling prices otherwise.
pub open spec fn groups_in_order(order: Seq<GroupView>, up: bool) -> bool {
    forall|i: int, j: int|
        #![trigger order[i], order[j]]
        0 <= i < j < order.len() ==> if up {
            order[i].price.lt(order[j].price)
        } else {
            order[j].price.lt(order[i].price)
        }
}

/// Rows whose prices never move against the direction: non-decreasing when
/// `up`, non-increasing otherwise.
pub open spec fn rows_in_order(rows: Seq<LevelView>, up: bool) -> bool {
    forall|i: int, j: int|
        #![trigger rows[i], rows[j]]
        0 <= i < j < rows.len() ==> if up {
            rows[i].price.le(rows[j].price)
        } else {
            rows[j].price.le(rows[i].price)
        }
}

proof fn lemma_flatten_in_order(order: Seq<GroupView>, up: bool)
    requires
        groups_in_order(order, up),
    ensures
        rows_in_order(flatten(order), up),
        forall|i: int|
            0 <= i < flatten(order).len() ==> exists|g: int|
                0 <= g < order.len() && (#[trigger] flatten(order)[i]).price == order[g].price,
    decreases order.len(),
{
    if order.len() > 0 {
        let pre = order.drop_last();
        let last = order.last();
        let n = order.len() - 1;
        assert forall|i: int, j: int| #![trigger pre[i], pre[j]] 0 <= i < j < pre.len() implies (if up {
            pre[i].price.lt(pre[j].price)
        } else {
            pre[j].price.lt(pre[i].price)
        }) by {
            assert(pre[i] == order[i] && pre[j] == order[j]);
        }
        lemma_flatten_in_order(pre, up);
        let f = flatten(pre);
        let t = group_rows(last);
        let all = flatten(order);
        assert(all == f + t);
        assert forall|i: int| 0 <= i < all.len() implies exists|g: int|
            0 <= g < order.len() && (#[trigger] all[i]).price == order[g].price by {
            if i < f.len() {
                assert(all[i] == f[i]);
                let g = choose|g: int| 0 <= g < pre.len() && f[i].price == pre[g].price;
                assert(order[g] == pre[g]);
            } else {
                assert(all[i] == t[i - f.len()]);
                assert(all[i].price == order[n].price);
            }
        }
        assert forall|i: int, j: int| #![trigger all[i], all[j]] 0 <= i < j < all.len() implies (if up {
            all[i].price.le(all[j].price)
        } else {
            all[j].price.le(all[i].price)
        }) by {
            if j < f.len() {
                assert(all[i] == f[i] && all[j] == f[j]);
            } else if i >= f.len() {
                assert(all[i] == t[i - f.len()] && all[j] == t[j - f.len()]);
            } else {
                assert(all[i] == f[i] && all[j] == t[j - f.len()]);
                let g = choose|g: int| 0 <= g < pre.len() && f[i].price == pre[g].price;
                assert(order[g] == pre[g]);
                assert(all[j].price == order[n].price);
            }
        }
    }
}

proof fn lemma_flatten_len(gs: Seq<GroupView>)
    ensures
        flatten(gs).len() == entry_count(gs),
    decreases gs.len(),
{
    if gs.len() > 0 {
        lemma_flatten_len(gs.drop_last());
    }
}

proof fn lemma_top_rows_in_order(order: Seq<GroupView>, depth: nat, up: bool)
    requires
        groups_in_order(order, up),
    ensures
        rows_in_order(top_rows(order, depth), up),
{
    let v = first_groups(order, depth);
    assert forall|i: int, j: int| #![trigger v[i], v[j]] 0 <= i < j < v.len() implies (if up {
        v[i].price.lt(v[j].price)
    } else {
        v[j].price.lt(v[i].price)
    }) by {
        assert(v[i] == order[i] && v[j] == order[j]);
    }
    lemma_flatten_in_order(v, up);
    let f = flatten(v);
    let r = top_rows(order, depth);
    assert forall|i: int, j: int| #![trigger r[i], r[j]] 0 <= i < j < r.len() implies (if up {
        r[i].price.le(r[j].price)
    } else {
        r[j].price.le(r[i].price)
    }) by {
        assert(r[i] == f[i] && r[j] == f[j]);
    }
}

/// Summary bids never rise in price and summary asks never fall.
pub proof fn lemma_finalize_sorted(a: AggregatedOrderbook, level: nat)
    requires
        a.wf(),
    ensures
        rows_in_order(top_rows(descending(a@.bid), level), false),
        rows_in_order(top_rows(a@.ask, level), true),
{
    let d = descending(a@.bid);
    let n = a@.bid.len();
    assert forall|i: int, j: int| #![trigger d[i], d[j]] 0 <= i < j < d.len() implies (if false {
        d[i].price.lt(d[j].price)
    } else {
        d[j].price.lt(d[i].price)
    }) by {
        assert(d[i] == a@.bid[n - 1 - i] && d[j] == a@.bid[n - 1 - j]);
    }
    lemma_top_rows_in_order(d, level, false);
    lemma_top_rows_in_order(a@.ask, level, true);
}

/// Each summary side has at most `MAX_SUMMARY_ROWS` rows and at most as many
/// rows as there are entries at the `level` best prices; in fact the lesser of
/// the two.
pub proof fn lemma_finalize_row_count(a: AggregatedOrderbook, level: nat)
    ensures
        top_rows(descending(a@.bid), level).len() <= MAX_SUMMARY_ROWS,
        top_rows(descending(a@.bid), level).len() <= entry_count(first_groups(descending(a@.bid), level)),
        top_rows(a@.ask, level).len() <= MAX_SUMMARY_ROWS,
        top_rows(a@.ask, level).len() <= entry_count(first_groups(a@.ask, level)),
        top_rows(descending(a@.bid), level).len() == MAX_SUMMARY_ROWS || top_rows(descending(a@.bid), level).len()
            == entry_count(first_groups(descending(a@.bid), level)),
        top_rows(a@.ask, level).len() == MAX_SUMMARY_ROWS || top_rows(a@.ask, level).len() == entry_count(
            first_groups(a@.ask, level),
        ),
{
    lemma_flatten_len(first_groups(descending(a@.bid), level));
    lemma_flatten_len(first_groups(a@.ask, level));
}

impl AggregatedOrderbook {
    pub open spec fn wf(&self) -> bool {
        ascending_groups(self@.bid) && ascending_groups(self@.ask)
    }

    pub fn new() -> (r: AggregatedOrderbook)
        ensures
            r.wf(),
            r@.bid.len() == 0,
            r@.ask.len() == 0,
    {
        let r = AggregatedOrderbook { bid: Vec::new(), ask: Vec::new() };
        proof {
            assert(r@.bid =~= Seq::<GroupView>::empty());
            assert(r@.ask =~= Seq::<GroupView>::empty());
        }
        r
    }

    /// The merged bid groups, ascending by price.
    pub fn bid(&self) -> (r: &Vec<PriceGroup>)
        ensures
            groups_view(r@) == self@.bid,
    {
        &self.bid
    }

    /// The merged ask groups, ascending by price.
    pub fn ask(&self) -> (r: &Vec<PriceGroup>)
        ensures
            groups_view(r@) == self@.ask,
    {
        &self.ask
    }

    /// Add every level of `orderbook` under its venue name: at each price the
    /// venue's quantity goes after the entries merged before it.
    pub fn merge(&mut self, orderbook: &Orderbook)
        requires
            old(self).wf(),
            orderbook.wf(),
        ensures
            final(self).wf(),
            group_map(final(self)@.bid) == merge_side(
                group_map(old(self)@.bid),
                orderbook@.name,
                level_map(orderbook@.bid),
            ),
            group_map(final(self)@.ask) == merge_side(
                group_map(old(self)@.ask),
                orderbook@.name,
                level_map(orderbook@.ask),
            ),
    {
        let name = orderbook.name();
        merge_levels(&mut self.bid, name, orderbook.bid().levels());
        merge_levels(&mut self.ask, name, orderbook.ask().levels());
    }

    /// The summary of the merged book: bids from the highest price down and
    /// asks from the lowest up, each visiting at most `level` prices and
    /// emitting at most `MAX_SUMMARY_ROWS` rows, venues in merge order at a price.
    pub fn finalize(&self, level: u32) -> (r: Summary)
        ensures
            levels_view(r.bids@) == top_rows(descending(self@.bid), level as nat),
            levels_view(r.asks@) == top_rows(self@.ask, level as nat),
    {
        let bids = collect_rows(&self.bid, true, level);
        let asks = collect_rows(&self.ask, false, level);
        Summary { bids, asks }
    }
}

} // verus!
