//! The explorer: bounded breadth-first traversal of trade-derived baskets,
//! with parent-pointer path reconstruction and a best-match route query.

use vstd::prelude::*;
use vstd::arithmetic::div_mod::lemma_fundamental_div_mod_converse;

use crate::basket::Candies;
use crate::basket::Trade;
use crate::bound::below;
use crate::bound::lemma_distinct_bounded;
use crate::bound::pool;

verus! {

/// One explored state: the basket, and how it was first discovered —
/// `None` for the root, or the index of the discovery parent together
/// with the rule applied to it.
#[derive(Debug, Clone, Copy)]
pub struct Entry {
    pub basket: Candies,
    pub parent: Option<(usize, Trade)>,
}

/// A read-only summary of a completed exploration.
#[derive(Debug, Clone, Copy, PartialEq, Eq, Structural)]
pub struct Statistics {
    /// Number of distinct explored states, the root included.
    pub count: usize,
    /// Smallest basket total among the explored states.
    pub min_total: i32,
    /// Largest basket total among the explored states.
    pub max_total: i32,
    /// Largest trade-count distance from the root among non-root states.
    pub max_trades: usize,
}

/// Every parent pointer refers to an earlier entry.
pub open spec fn combos_wf(t: Seq<Entry>) -> bool {
    forall|i: int|
        0 <= i < t.len() ==> ((#[trigger] t[i]).parent matches Some(pt) ==> pt.0 < i)
}

/// Every stored basket is non-negative with a total within `i32` range,
/// and every parent pointer refers to an earlier entry.
pub open spec fn table_ok(t: Seq<Entry>) -> bool {
    &&& combos_wf(t)
    &&& forall|i: int|
        0 <= i < t.len() ==> (#[trigger] t[i]).basket.wf() && t[i].basket.total_spec()
            <= i32::MAX
}

/// The non-root entry at `i` records a valid discovery step: an earlier
/// parent, a rule from the rule list, and the basket that applying the
/// rule to the parent's basket yields, within the cap.
pub open spec fn entry_parent_ok(t: Seq<Entry>, i: int, cap: int, trades: Seq<Trade>) -> bool {
    &&& t[i].parent matches Some((p, tr))
    &&& t[i].parent matches Some((p, tr)) ==> {
        &&& p < i
        &&& trades.contains(tr)
        &&& t[p as int].basket.can_apply(tr)
        &&& t[i].basket == t[p as int].basket.applied(tr)
        &&& t[i].basket.wf()
        &&& t[i].basket.total_spec() <= cap
    }
}

/// The explored-state table is well formed: the root sits at index 0
/// holding the starting basket, every other entry records a valid
/// discovery step, and the stored baskets are pairwise distinct.
pub open spec fn entries_wf(t: Seq<Entry>, start: Candies, cap: int, trades: Seq<Trade>) -> bool {
    &&& t.len() >= 1
    &&& t[0].basket == start
    &&& t[0].parent is None
    &&& forall|i: int| 1 <= i < t.len() ==> entry_parent_ok(t, i, cap, trades)
    &&& forall|i: int, j: int|
        0 <= i < j < t.len() ==> (#[trigger] t[i]).basket != (#[trigger] t[j]).basket
}

/// Some entry of the table holds basket `b`.
pub open spec fn has_basket(t: Seq<Entry>, b: Candies) -> bool {
    exists|j: int| 0 <= j < t.len() && (#[trigger] t[j]).basket == b
}

/// Every rule applicable to the basket at `i` whose outcome respects the
/// cap leads to a basket that the table already holds.
pub open spec fn entry_expanded(t: Seq<Entry>, i: int, cap: int, trades: Seq<Trade>) -> bool {
    forall|k: int|
        0 <= k < trades.len() && t[i].basket.can_apply(#[trigger] trades[k])
            && t[i].basket.applied(trades[k]).total_spec() <= cap ==> has_basket(
            t,
            t[i].basket.applied(trades[k]),
        )
}

/// The number of trades separating entry `i` from the root along its
/// discovery path; 0 for the root and for indices outside the table.
pub open spec fn chain_len_spec(t: Seq<Entry>, i: int) -> nat
    decreases i,
{
    if 0 <= i < t.len() {
        match t[i].parent {
            Some((p, _tr)) => if p < i {
                1 + chain_len_spec(t, p as int)
            } else {
                0
            },
            None => 0,
        }
    } else {
        0
    }
}

/// The rules along the discovery path of entry `i`, in root-to-entry
/// order.
pub open spec fn chain_rules(t: Seq<Entry>, i: int) -> Seq<Trade>
    decreases i,
{
    if 0 <= i < t.len() {
        match t[i].parent {
            Some((p, tr)) => if p < i {
                chain_rules(t, p as int).push(tr)
            } else {
                Seq::empty()
            },
            None => Seq::empty(),
        }
    } else {
        Seq::empty()
    }
}

/// Applies `rules` to `b` in order via repeated trades; `None` as soon
/// as a rule is rejected.
pub open spec fn replay(b: Candies, rules: Seq<Trade>) -> Option<Candies>
    decreases rules.len(),
{
    if rules.len() == 0 {
        Some(b)
    } else if b.can_apply(rules[0]) {
        replay(b.applied(rules[0]), rules.drop_first())
    } else {
        None
    }
}

/// Entry `c` covers the target, no covering entry has a larger total,
/// and no earlier covering entry ties its total: `c` is the entry that
/// the route query selects.
pub open spec fn is_best(t: Seq<Entry>, c: int, target: Candies) -> bool {
    &&& 0 <= c < t.len()
    &&& t[c].basket.covers(target)
    &&& forall|i: int|
        0 <= i < t.len() && #[trigger] t[i].basket.covers(target) ==> t[i].basket.total_spec()
            <= t[c].basket.total_spec()
    &&& forall|i: int|
        0 <= i < c && #[trigger] t[i].basket.covers(target) ==> t[i].basket.total_spec()
            < t[c].basket.total_spec()
}

/// The kind given by the standard rule at offset `k` of the generated
/// block: the rules are emitted for every ordered pair of distinct
/// kinds, four rules per giving kind.
pub open spec fn std_give_kind(k: int) -> int {
    k / 4
}

/// The kind received by the standard rule at offset `k` of the
/// generated block.
pub open spec fn std_receive_kind(k: int) -> int {
    if k % 4 < k / 4 {
        k % 4
    } else {
        k % 4 + 1
    }
}

/// The chain length of any entry is bounded by its index.
proof fn lemma_chain_len_le(t: Seq<Entry>, i: int)
    requires
        i >= 0,
    ensures
        chain_len_spec(t, i) <= i,
    decreases i,
{
    if 0 <= i < t.len() {
        match t[i].parent {
            Some((p, _tr)) => {
                if (p as int) < i {
                    lemma_chain_len_le(t, p as int);
                }
            },
            None => {},
        }
    }
}

/// Appending an entry keeps every basket the table already holds.
proof fn lemma_push_preserves_has_basket(t: Seq<Entry>, e: Entry, b: Candies)
    requires
        has_basket(t, b),
    ensures
        has_basket(t.push(e), b),
{
    let j = choose|j: int| 0 <= j < t.len() && t[j].basket == b;
    assert(t.push(e)[j].basket == b);
}

/// Appending an entry keeps an already expanded entry expanded.
proof fn lemma_push_preserves_expanded(t: Seq<Entry>, e: Entry, i: int, cap: int, trades: Seq<
    Trade,
>)
    requires
        0 <= i < t.len(),
        entry_expanded(t, i, cap, trades),
    ensures
        entry_expanded(t.push(e), i, cap, trades),
{
    let t2 = t.push(e);
    assert(t2[i] == t[i]);
    assert forall|k: int|
        0 <= k < trades.len() && t2[i].basket.can_apply(#[trigger] trades[k])
            && t2[i].basket.applied(trades[k]).total_spec() <= cap implies has_basket(
        t2,
        t2[i].basket.applied(trades[k]),
    ) by {
        assert(has_basket(t, t[i].basket.applied(trades[k])));
        lemma_push_preserves_has_basket(t, e, t[i].basket.applied(trades[k]));
    }
}

/// Appending a valid discovery step whose basket is new keeps the table
/// well formed.
proof fn lemma_push_entry(t: Seq<Entry>, e: Entry, start: Candies, cap: int, trades: Seq<Trade>)
    requires
        entries_wf(t, start, cap, trades),
        !has_basket(t, e.basket),
        e.parent matches Some((p, tr)) && {
            &&& p < t.len()
            &&& trades.contains(tr)
            &&& t[p as int].basket.can_apply(tr)
            &&& e.basket == t[p as int].basket.applied(tr)
            &&& e.basket.wf()
            &&& e.basket.total_spec() <= cap
        },
    ensures
        entries_wf(t.push(e), start, cap, trades),
{
    let t2 = t.push(e);
    assert forall|m: int| 0 <= m < t.len() implies t2[m] == t[m] by {}
    assert(t2[0] == t[0]);
    assert forall|i: int| 1 <= i < t2.len() implies entry_parent_ok(t2, i, cap, trades) by {
        if i < t.len() {
            assert(entry_parent_ok(t, i, cap, trades));
        } else {
            assert(t2[i] == e);
        }
    }
    assert forall|i: int, j: int|
        0 <= i < j < t2.len() implies (#[trigger] t2[i]).basket != (#[trigger] t2[j]).basket by {
        if j < t.len() {
            assert(t[i].basket != t[j].basket);
        } else {
            if t2[i].basket == e.basket {
                assert(t[i].basket == e.basket);
                assert(has_basket(t, e.basket));
            }
        }
    }
}

/// Path-replay consistency: replaying the rules along an entry's parent
/// chain against the root basket reproduces the stored basket exactly.
pub proof fn lemma_path_replay(
    t: Seq<Entry>,
    start: Candies,
    cap: int,
    trades: Seq<Trade>,
    i: int,
)
    requires
        entries_wf(t, start, cap, trades),
        0 <= i < t.len(),
    ensures
        replay(start, chain_rules(t, i)) == Some(t[i].basket),
    decreases i,
{
    if i == 0 {
        assert(chain_rules(t, 0) =~= Seq::<Trade>::empty());
    } else {
        assert(entry_parent_ok(t, i, cap, trades));
        match t[i].parent {
            Some((p, tr)) => {
                lemma_path_replay(t, start, cap, trades, p as int);
                lemma_replay_push(start, chain_rules(t, p as int), tr);
            },
            None => {},
        }
    }
}

/// Replaying one more rule applies it to the replay outcome so far.
proof fn lemma_replay_push(b: Candies, rules: Seq<Trade>, tr: Trade)
    ensures
        replay(b, rules.push(tr)) == match replay(b, rules) {
            Some(x) => if x.can_apply(tr) {
                Some(x.applied(tr))
            } else {
                None
            },
            None => None,
        },
    decreases rules.len(),
{
    if rules.len() == 0 {
        assert(rules.push(tr).len() == 1);
        assert(rules.push(tr)[0] == tr);
        assert(rules.push(tr).drop_first() =~= Seq::<Trade>::empty());
        assert(replay(b, rules) == Some(b));
        if b.can_apply(tr) {
            assert(replay(b, rules.push(tr)) == replay(
                b.applied(tr),
                rules.push(tr).drop_first(),
            ));
            assert(replay(b.applied(tr), Seq::<Trade>::empty()) == Some(b.applied(tr)));
        } else {
            assert(replay(b, rules.push(tr)) is None);
        }
    } else {
        assert(rules.push(tr)[0] == rules[0]);
        assert(rules.push(tr).drop_first() =~= rules.drop_first().push(tr));
        if b.can_apply(rules[0]) {
            lemma_replay_push(b.applied(rules[0]), rules.drop_first(), tr);
            assert(replay(b, rules.push(tr)) == replay(
                b.applied(rules[0]),
                rules.drop_first().push(tr),
            ));
            assert(replay(b, rules) == replay(b.applied(rules[0]), rules.drop_first()));
        } else {
            assert(replay(b, rules.push(tr)) is None);
            assert(replay(b, rules) is None);
        }
    }
}

/// The root entry lies zero trades from the root; a direct child of the
/// root lies one trade from it.
pub proof fn lemma_chain_length_root_and_child(t: Seq<Entry>, i: int)
    requires
        combos_wf(t),
        t.len() >= 1,
        t[0].parent is None,
        0 <= i < t.len(),
    ensures
        chain_len_spec(t, 0) == 0,
        (t[i].parent matches Some((p, _tr)) && p == 0) ==> chain_len_spec(t, i) == 1,
{
    assert(chain_len_spec(t, 0) == 0);
}

/// The explorer: owns the starting basket, the rule set, and the cap on
/// total resources, and fills the explored-state table.
pub struct CandyWorks {
    pub candies: Candies,
    pub max_candies: u32,
    pub trades: Vec<Trade>,
    pub combinations: Vec<Entry>,
}

impl CandyWorks {
    /// The configuration is well formed: the starting basket and every
    /// rule hold non-negative counts, and the machine limits leave room
    /// for any single trade's received amount.
    pub open spec fn works_wf(self) -> bool {
        &&& self.candies.wf()
        &&& self.candies.total_spec() <= i32::MAX
        &&& self.max_candies <= i32::MAX
        &&& forall|k: int| 0 <= k < self.trades@.len() ==> (#[trigger] self.trades@[k]).wf()
        &&& forall|k: int|
            0 <= k < self.trades@.len() ==> (#[trigger] self.trades@[k]).receive.total_spec()
                + self.candies.total_spec() <= i32::MAX && self.trades@[k].receive.total_spec()
                + self.max_candies <= i32::MAX
    }

    /// The table is a well-formed record of an exploration from the
    /// starting basket.
    pub open spec fn explored(self) -> bool {
        &&& entries_wf(self.combinations@, self.candies, self.max_candies as int, self.trades@)
        &&& table_ok(self.combinations@)
    }

    /// No applicable rule within the cap leads out of the table: the
    /// exploration is complete.
    pub open spec fn expanded(self) -> bool {
        forall|i: int|
            0 <= i < self.combinations@.len() ==> entry_expanded(
                self.combinations@,
                i,
                self.max_candies as int,
                self.trades@,
            )
    }

    /// Builds an explorer from a starting basket, an inclusive cap on
    /// total resources, and a list of custom rules; the 20 standard
    /// rules — one for every ordered pair of distinct kinds — are
    /// appended after the custom ones.
    #[verifier::loop_isolation(false)]
    pub fn new(candies: Candies, max_candies: u32, custom_trades: Vec<Trade>) -> (r: CandyWorks)
        requires
            candies.wf(),
            candies.total_spec() < i32::MAX,
            max_candies < i32::MAX as u32,
            forall|k: int| 0 <= k < custom_trades@.len() ==> (#[trigger] custom_trades@[k]).wf(),
            forall|k: int|
                0 <= k < custom_trades@.len() ==> (
                #[trigger] custom_trades@[k]).receive.total_spec() + candies.total_spec()
                    <= i32::MAX && custom_trades@[k].receive.total_spec() + max_candies
                    <= i32::MAX,
        ensures
            r.candies == candies,
            r.max_candies == max_candies,
            r.combinations@.len() == 0,
            r.trades@.len() == custom_trades@.len() + 20,
            forall|m: int| 0 <= m < custom_trades@.len() ==> r.trades@[m] == custom_trades@[m],
            forall|m: int|
                custom_trades@.len() <= m < r.trades@.len() ==> r.trades@[m]
                    == Trade::standard_spec(
                    std_give_kind(m - custom_trades@.len()),
                    std_receive_kind(m - custom_trades@.len()),
                ),
            r.works_wf(),
    {
        let mut trades = custom_trades;
        let ghost n0 = trades@.len() as int;
        let ghost custom = trades@;
        let mut i: usize = 0;
        while i < 5
            invariant
                i <= 5,
                trades@.len() == n0 + 4 * i,
                forall|m: int| 0 <= m < n0 ==> trades@[m] == custom[m],
                forall|m: int|
                    n0 <= m < trades@.len() ==> trades@[m] == Trade::standard_spec(
                        std_give_kind(m - n0),
                        std_receive_kind(m - n0),
                    ),
            decreases 5 - i,
        {
            let mut j: usize = 0;
            while j < 5
                invariant
                    i < 5,
                    j <= 5,
                    trades@.len() == n0 + 4 * i + (if j <= i {
                        j as int
                    } else {
                        j as int - 1
                    }),
                    forall|m: int| 0 <= m < n0 ==> trades@[m] == custom[m],
                    forall|m: int|
                        n0 <= m < trades@.len() ==> trades@[m] == Trade::standard_spec(
                            std_give_kind(m - n0),
                            std_receive_kind(m - n0),
                        ),
                decreases 5 - j,
            {
                if i != j {
                    let t = Trade::standard_trade(i, j);
                    proof {
                        let kk = trades@.len() as int - n0;
                        let jj = if j < i {
                            j as int
                        } else {
                            j as int - 1
                        };
                        assert(kk == 4 * (i as int) + jj);
                        lemma_fundamental_div_mod_converse(kk, 4, i as int, jj);
                        assert(std_give_kind(kk) == i as int);
                        assert(std_receive_kind(kk) == j as int);
                    }
                    trades.push(t);
                }
                j += 1;
            }
            i += 1;
        }
        proof {
            assert forall|k: int| 0 <= k < trades@.len() implies (#[trigger] trades@[k]).wf()
                && trades@[k].receive.total_spec() + candies.total_spec() <= i32::MAX
                && trades@[k].receive.total_spec() + max_candies <= i32::MAX by {
                if k < n0 {
                    assert(trades@[k] == custom[k]);
                } else {
                    let kk = k - n0;
                    assert(0 <= kk < 20);
                    let a = std_give_kind(kk);
                    let b = std_receive_kind(kk);
                    assert(0 <= a < 5);
                    assert(0 <= b < 5);
                    assert(trades@[k] == Trade::standard_spec(a, b));
                    assert(trades@[k].receive.total_spec() == 1);
                    assert(trades@[k].give.total_spec() == 3);
                }
            }
        }
        CandyWorks { candies, max_candies, trades, combinations: Vec::new() }
    }

    /// Bounded breadth-first exploration: replaces the table with every
    /// distinct basket reachable from the starting basket by applying
    /// rules, pruning any newly discovered basket whose total exceeds
    /// the cap (the root is recorded regardless of the cap).
    ///
    /// Afterwards the table is well formed — the root holds the
    /// starting basket, every entry records a valid discovery step, no
    /// two entries hold the same basket — and complete: no applicable
    /// rule within the cap leads out of it.
    #[verifier::loop_isolation(false)]
    pub fn explore(&mut self)
        requires
            old(self).works_wf(),
        ensures
            final(self).candies == old(self).candies,
            final(self).max_candies == old(self).max_candies,
            final(self).trades == old(self).trades,
            final(self).works_wf(),
            final(self).explored(),
            final(self).expanded(),
    {
        let ghost start = self.candies;
        let ghost cap = self.max_candies as int;
        let ghost trs = self.trades@;
        let ghost top = if start.total_spec() >= cap {
            start.total_spec()
        } else {
            cap
        };
        let ghost base = top + 1;

        let mut table: Vec<Entry> = Vec::new();
        table.push(Entry { basket: self.candies, parent: None });
        proof {
            lemma_table_len_bounded(table@, start, cap, trs, base);
        }
        let mut cursor: usize = 0;
        while cursor < table.len()
            invariant
                cursor <= table@.len(),
                entries_wf(table@, start, cap, trs),
                table_ok(table@),
                table@.len() <= pool(base),
                forall|i: int| 0 <= i < cursor ==> entry_expanded(table@, i, cap, trs),
            decreases pool(base) - table@.len(), table@.len() - cursor,
        {
            let current: Candies = table[cursor].basket;
            proof {
                if cursor > 0 {
                    assert(entry_parent_ok(table@, cursor as int, cap, trs));
                }
                assert(current.wf() && current.total_spec() <= top);
            }
            let num_trades = self.trades.len();
            let ghost len0 = table@.len();
            let mut k: usize = 0;
            while k < num_trades
                invariant
                    table@.len() >= len0,
                    cursor < table@.len(),
                    k <= trs.len(),
                    num_trades == trs.len(),
                    current == table@[cursor as int].basket,
                    current.wf(),
                    current.total_spec() <= top,
                    entries_wf(table@, start, cap, trs),
                    table_ok(table@),
                    table@.len() <= pool(base),
                    forall|i: int| 0 <= i < cursor ==> entry_expanded(table@, i, cap, trs),
                    forall|kk: int|
                        0 <= kk < k && current.can_apply(#[trigger] trs[kk]) && current.applied(
                            trs[kk],
                        ).total_spec() <= cap ==> has_basket(table@, current.applied(trs[kk])),
                decreases trs.len() - k,
            {
                let tr: Trade = self.trades[k];
                proof {
                    assert(tr.wf());
                    assert(tr.receive.eggs <= tr.receive.total_spec());
                    assert(tr.receive.worms <= tr.receive.total_spec());
                    assert(tr.receive.cakes <= tr.receive.total_spec());
                    assert(tr.receive.fishes <= tr.receive.total_spec());
                    assert(tr.receive.meats <= tr.receive.total_spec());
                    assert(current.eggs <= current.total_spec());
                    assert(current.worms <= current.total_spec());
                    assert(current.cakes <= current.total_spec());
                    assert(current.fishes <= current.total_spec());
                    assert(current.meats <= current.total_spec());
                    assert(current.total_spec() + tr.receive.total_spec() <= i32::MAX);
                    assert(current.fits(tr));
                }
                if let Some(nb) = current.trade(&tr) {
                    let tot = nb.total();
                    if tot <= self.max_candies as i32 {
                        if !basket_in_table(&table, &nb) {
                            let ghost tpre = table@;
                            let entry = Entry { basket: nb, parent: Some((cursor, tr)) };
                            table.push(entry);
                            proof {
                                assert(trs.contains(tr)) by {
                                    assert(trs[k as int] == tr);
                                }
                                lemma_push_entry(tpre, entry, start, cap, trs);
                                lemma_table_len_bounded(table@, start, cap, trs, base);
                                assert forall|i: int| 0 <= i < cursor implies entry_expanded(
                                    table@,
                                    i,
                                    cap,
                                    trs,
                                ) by {
                                    lemma_push_preserves_expanded(tpre, entry, i, cap, trs);
                                }
                                assert forall|kk: int|
                                    0 <= kk < k + 1 && current.can_apply(#[trigger] trs[kk])
                                        && current.applied(trs[kk]).total_spec()
                                        <= cap implies has_basket(
                                    table@,
                                    current.applied(trs[kk]),
                                ) by {
                                    if kk < k {
                                        lemma_push_preserves_has_basket(
                                            tpre,
                                            entry,
                                            current.applied(trs[kk]),
                                        );
                                    } else {
                                        assert(table@[tpre.len() as int].basket == current.applied(
                                            trs[kk],
                                        ));
                                    }
                                }
                            }
                        }
                    }
                }
                k += 1;
            }
            proof {
                assert(entry_expanded(table@, cursor as int, cap, trs));
            }
            cursor += 1;
        }
        self.combinations = table;
    }

    /// The number of trades separating the entry at `index` from the
    /// root along its discovery path, counted by walking parent
    /// pointers; 0 for the root and for an index outside the table.
    #[verifier::loop_isolation(false)]
    pub fn len_from_combination(&self, index: usize) -> (r: usize)
        requires
            combos_wf(self.combinations@),
        ensures
            r == chain_len_spec(self.combinations@, index as int),
    {
        let ghost t = self.combinations@;
        proof {
            lemma_chain_len_le(t, index as int);
        }
        let mut current: usize = index;
        let mut steps: usize = 0;
        #[verifier::loop_isolation(true)]
        loop
            invariant
                t == self.combinations@,
                combos_wf(t),
                steps + chain_len_spec(t, current as int) == chain_len_spec(t, index as int),
                chain_len_spec(t, index as int) <= index,
            ensures
                steps == chain_len_spec(t, index as int),
            decreases current,
        {
            if current >= self.combinations.len() {
                break ;
            }
            match self.combinations[current].parent {
                Some((p, _tr)) => {
                    steps = steps + 1;
                    current = p;
                },
                None => {
                    break ;
                },
            }
        }
        steps
    }

    /// A summary of the explored table: entry count, smallest and
    /// largest basket total, and the largest trade-count distance from
    /// the root among non-root entries (0 when only the root exists).
    /// `None` when the table is empty, which never holds after
    /// [`CandyWorks::explore`].
    #[verifier::loop_isolation(false)]
    pub fn stadistics(&self) -> (r: Option<Statistics>)
        requires
            table_ok(self.combinations@),
        ensures
            r is None <==> self.combinations@.len() == 0,
            r matches Some(st) ==> {
                let t = self.combinations@;
                &&& st.count == t.len()
                &&& forall|i: int|
                    0 <= i < t.len() ==> st.min_total <= (#[trigger] t[i]).basket.total_spec()
                        <= st.max_total
                &&& exists|i: int|
                    0 <= i < t.len() && (#[trigger] t[i]).basket.total_spec() == st.min_total
                &&& exists|i: int|
                    0 <= i < t.len() && (#[trigger] t[i]).basket.total_spec() == st.max_total
                &&& forall|i: int| 1 <= i < t.len() ==> chain_len_spec(t, i) <= st.max_trades
                &&& t.len() > 1 ==> exists|i: int|
                    1 <= i < t.len() && chain_len_spec(t, i) == st.max_trades
                &&& t.len() == 1 ==> st.max_trades == 0
            },
    {
        let ghost t = self.combinations@;
        let n = self.combinations.len();
        if n == 0 {
            return None;
        }
        let mut min_total: i32 = self.combinations[0].basket.total();
        let mut max_total: i32 = min_total;
        let ghost min_at: int = 0;
        let ghost max_at: int = 0;
        let mut i: usize = 1;
        while i < n
            invariant
                1 <= i <= n,
                n == t.len(),
                0 <= min_at < i,
                0 <= max_at < i,
                t[min_at].basket.total_spec() == min_total,
                t[max_at].basket.total_spec() == max_total,
                forall|m: int|
                    0 <= m < i ==> min_total <= (#[trigger] t[m]).basket.total_spec() <= max_total,
            decreases n - i,
        {
            let tot = self.combinations[i].basket.total();
            if tot < min_total {
                min_total = tot;
                proof {
                    min_at = i as int;
                }
            }
            if tot > max_total {
                max_total = tot;
                proof {
                    max_at = i as int;
                }
            }
            i += 1;
        }
        let mut max_trades: usize = 0;
        let ghost trades_at: int = 0;
        let mut i: usize = 1;
        while i < n
            invariant
                1 <= i <= n,
                n == t.len(),
                combos_wf(t),
                t == self.combinations@,
                i > 1 ==> 1 <= trades_at < i && chain_len_spec(t, trades_at) == max_trades,
                i == 1 ==> max_trades == 0,
                forall|m: int| 1 <= m < i ==> chain_len_spec(t, m) <= max_trades,
            decreases n - i,
        {
            let steps = self.len_from_combination(i);
            if steps > max_trades || i == 1 {
                max_trades = steps;
                proof {
                    trades_at = i as int;
                }
            }
            i += 1;
        }
        Some(Statistics { count: n, min_total, max_total, max_trades })
    }

    /// Finds a cheapest-to-describe route to a basket covering `target`.
    ///
    /// Returns the empty route when the starting basket already covers
    /// the target; `None` — unreachable — when no explored basket
    /// covers it.  Otherwise the covering entry with the largest total
    /// is selected (the earliest in table order among ties; this
    /// deliberately prefers the richest covering state over the one
    /// reached in the fewest trades), and the rules along its discovery
    /// path are returned in root-to-target order.  Applying them in
    /// order to the starting basket reproduces the selected basket
    /// exactly.
    #[verifier::loop_isolation(false)]
    pub fn find_optimal_route(&self, target: Candies) -> (r: Option<Vec<Trade>>)
        requires
            self.explored(),
        ensures
            self.candies.covers(target) ==> (r matches Some(v) && v@.len() == 0),
            !self.candies.covers(target) && !(exists|i: int|
                0 <= i < self.combinations@.len() && (
                #[trigger] self.combinations@[i]).basket.covers(target)) ==> r is None,
            !self.candies.covers(target) && (exists|i: int|
                0 <= i < self.combinations@.len() && (
                #[trigger] self.combinations@[i]).basket.covers(target)) ==> (exists|c: int|
                {
                    &&& #[trigger] is_best(self.combinations@, c, target)
                    &&& r matches Some(v)
                    &&& v@ == chain_rules(self.combinations@, c)
                    &&& replay(self.candies, v@) == Some(self.combinations@[c].basket)
                }),
    {
        let ghost t = self.combinations@;
        if self.candies.contains(&target) {
            return Some(Vec::new());
        }
        let n = self.combinations.len();
        let mut found = false;
        let mut best: usize = 0;
        let mut best_total: i32 = 0;
        let mut i: usize = 0;
        while i < n
            invariant
                i <= n,
                n == t.len(),
                !found ==> forall|m: int|
                    0 <= m < i ==> !(#[trigger] t[m].basket.covers(target)),
                found ==> {
                    &&& best < i
                    &&& t[best as int].basket.covers(target)
                    &&& best_total == t[best as int].basket.total_spec()
                    &&& forall|m: int|
                        0 <= m < i && #[trigger] t[m].basket.covers(target)
                            ==> t[m].basket.total_spec() <= best_total
                    &&& forall|m: int|
                        0 <= m < best && #[trigger] t[m].basket.covers(target)
                            ==> t[m].basket.total_spec() < best_total
                },
            decreases n - i,
        {
            if self.combinations[i].basket.contains(&target) {
                let tot = self.combinations[i].basket.total();
                if !found || tot > best_total {
                    found = true;
                    best = i;
                    best_total = tot;
                }
            }
            i += 1;
        }
        if !found {
            return None;
        }
        assert(is_best(t, best as int, target));
        let mut rev: Vec<Trade> = Vec::new();
        let mut cur: usize = best;
        #[verifier::loop_isolation(true)]
        loop
            invariant
                t == self.combinations@,
                self.explored(),
                0 <= best < t.len(),
                cur < n,
                n == t.len(),
                chain_rules(t, best as int) == chain_rules(t, cur as int) + rev@.reverse(),
            ensures
                rev@.reverse() == chain_rules(t, best as int),
            decreases cur,
        {
            match self.combinations[cur].parent {
                Some((p, tr)) => {
                    proof {
                        assert(cur > 0) by {
                            if cur == 0 {
                                assert(t[0].parent is None);
                            }
                        }
                        assert(entry_parent_ok(t, cur as int, self.max_candies as int, self.trades@));
                        assert(chain_rules(t, cur as int) == chain_rules(t, p as int).push(tr));
                    }
                    let ghost rev_old = rev@;
                    let ghost cur_old = cur as int;
                    rev.push(tr);
                    cur = p;
                    proof {
                        assert(chain_rules(t, cur_old) + rev_old.reverse() =~= chain_rules(
                            t,
                            cur as int,
                        ) + rev@.reverse()) by {
                            assert(rev@ == rev_old.push(tr));
                            assert forall|q: int|
                                0 <= q < rev@.len() implies rev@.reverse()[q] == (seq![tr]
                                + rev_old.reverse())[q] by {
                                if q == 0 {
                                    assert(rev@.reverse()[0] == rev@[rev@.len() - 1]);
                                } else {
                                    assert(rev@.reverse()[q] == rev@[rev@.len() - 1 - q]);
                                    assert(rev@[rev@.len() - 1 - q] == rev_old[rev_old.len() - (q
                                        - 1) - 1]);
                                }
                            }
                            assert(rev@.reverse() =~= seq![tr] + rev_old.reverse());
                        }
                    }
                },
                None => {
                    proof {
                        assert(chain_rules(t, cur as int) =~= Seq::<Trade>::empty());
                        assert(Seq::<Trade>::empty() + rev@.reverse() =~= rev@.reverse());
                    }
                    break ;
                },
            }
        }
        let m = rev.len();
        let mut route: Vec<Trade> = Vec::new();
        let mut k: usize = m;
        while k > 0
            invariant
                k <= m,
                m == rev@.len(),
                route@.len() == m - k,
                forall|q: int| 0 <= q < route@.len() ==> route@[q] == rev@[m - 1 - q],
            decreases k,
        {
            k -= 1;
            route.push(rev[k]);
        }
        proof {
            assert(route@ =~= rev@.reverse());
            assert(route@ == chain_rules(t, best as int));
            lemma_path_replay(t, self.candies, self.max_candies as int, self.trades@, best as int);
        }
        Some(route)
    }
}

/// A well-formed table of baskets below the common bound has no more
/// entries than there are distinct baskets below it.
proof fn lemma_table_len_bounded(
    t: Seq<Entry>,
    start: Candies,
    cap: int,
    trades: Seq<Trade>,
    base: int,
)
    requires
        entries_wf(t, start, cap, trades),
        start.wf(),
        base > start.total_spec(),
        base > cap,
    ensures
        t.len() <= pool(base),
{
    let baskets = t.map_values(|e: Entry| e.basket);
    assert forall|i: int| 0 <= i < baskets.len() implies below(#[trigger] baskets[i], base) by {
        assert(baskets[i] == t[i].basket);
        if i == 0 {
            assert(t[0].basket == start);
        } else {
            assert(entry_parent_ok(t, i, cap, trades));
        }
    }
    assert forall|i: int, j: int| 0 <= i < j < baskets.len() implies baskets[i] != baskets[j] by {
        assert(t[i].basket != t[j].basket);
    }
    lemma_distinct_bounded(baskets, base);
}

/// Whether some entry of the table already holds basket `b`.
#[verifier::loop_isolation(false)]
fn basket_in_table(table: &Vec<Entry>, b: &Candies) -> (r: bool)
    ensures
        r == has_basket(table@, *b),
{
    let n = table.len();
    let mut j: usize = 0;
    while j < n
        invariant
            j <= n,
            n == table@.len(),
            forall|m: int| 0 <= m < j ==> (#[trigger] table@[m]).basket != *b,
        decreases n - j,
    {
        if table[j].basket == *b {
            return true;
        }
        j += 1;
    }
    false
}

} // verus!
