//! Baskets of resources and the trade rules that exchange them.

use vstd::prelude::*;

verus! {

/// An inventory snapshot: a count of each of the five resource kinds.
///
/// A basket stored as a reachable state always has every field
/// non-negative (see [`Candies::wf`]); a trade whose outcome would drive
/// a field negative is rejected, never stored.
#[derive(Debug, Clone, Copy, PartialEq, Eq, Hash, Structural)]
pub struct Candies {
    pub eggs: i32,
    pub worms: i32,
    pub cakes: i32,
    pub fishes: i32,
    pub meats: i32,
}

/// A fixed exchange: give one basket amount, receive another.
#[derive(Debug, Clone, Copy)]
pub struct Trade {
    pub give: Candies,
    pub receive: Candies,
}

impl Candies {
    /// All five counts are non-negative.
    pub open spec fn wf(self) -> bool {
        &&& self.eggs >= 0
        &&& self.worms >= 0
        &&& self.cakes >= 0
        &&& self.fishes >= 0
        &&& self.meats >= 0
    }

    /// The sum of the five counts, as a mathematical integer.
    pub open spec fn total_spec(self) -> int {
        self.eggs + self.worms + self.cakes + self.fishes + self.meats
    }

    /// Every count of `self` is at least the corresponding count of `other`.
    pub open spec fn covers(self, other: Candies) -> bool {
        &&& self.eggs >= other.eggs
        &&& self.worms >= other.worms
        &&& self.cakes >= other.cakes
        &&& self.fishes >= other.fishes
        &&& self.meats >= other.meats
    }

    /// The all-zero basket.
    pub open spec fn empty() -> Candies {
        Candies { eggs: 0, worms: 0, cakes: 0, fishes: 0, meats: 0 }
    }

    /// Applying `t` to `self` leaves every count non-negative.
    pub open spec fn can_apply(self, t: Trade) -> bool {
        &&& self.eggs + t.receive.eggs - t.give.eggs >= 0
        &&& self.worms + t.receive.worms - t.give.worms >= 0
        &&& self.cakes + t.receive.cakes - t.give.cakes >= 0
        &&& self.fishes + t.receive.fishes - t.give.fishes >= 0
        &&& self.meats + t.receive.meats - t.give.meats >= 0
    }

    /// The basket that results from applying `t` to `self`.
    ///
    /// Exact whenever the adjusted counts lie within `i32` range, which
    /// [`Candies::fits`] together with [`Candies::can_apply`] guarantees.
    pub open spec fn applied(self, t: Trade) -> Candies {
        Candies {
            eggs: (self.eggs + t.receive.eggs - t.give.eggs) as i32,
            worms: (self.worms + t.receive.worms - t.give.worms) as i32,
            cakes: (self.cakes + t.receive.cakes - t.give.cakes) as i32,
            fishes: (self.fishes + t.receive.fishes - t.give.fishes) as i32,
            meats: (self.meats + t.receive.meats - t.give.meats) as i32,
        }
    }

    /// Machine limit: adding the received counts to `self` stays within `i32`.
    pub open spec fn fits(self, t: Trade) -> bool {
        &&& self.eggs + t.receive.eggs <= i32::MAX
        &&& self.worms + t.receive.worms <= i32::MAX
        &&& self.cakes + t.receive.cakes <= i32::MAX
        &&& self.fishes + t.receive.fishes <= i32::MAX
        &&& self.meats + t.receive.meats <= i32::MAX
    }

    /// The basket with the count at `index` raised by `value`
    /// (kinds are numbered 0 to 4); any other index leaves `self` unchanged.
    pub open spec fn add_at(self, index: int, value: int) -> Candies {
        if index == 0 {
            Candies { eggs: (self.eggs + value) as i32, ..self }
        } else if index == 1 {
            Candies { worms: (self.worms + value) as i32, ..self }
        } else if index == 2 {
            Candies { cakes: (self.cakes + value) as i32, ..self }
        } else if index == 3 {
            Candies { fishes: (self.fishes + value) as i32, ..self }
        } else if index == 4 {
            Candies { meats: (self.meats + value) as i32, ..self }
        } else {
            self
        }
    }

    /// Machine limit: raising the count at `index` by `value` stays within `i32`.
    pub open spec fn add_fits(self, index: int, value: int) -> bool {
        &&& index == 0 ==> i32::MIN <= self.eggs + value <= i32::MAX
        &&& index == 1 ==> i32::MIN <= self.worms + value <= i32::MAX
        &&& index == 2 ==> i32::MIN <= self.cakes + value <= i32::MAX
        &&& index == 3 ==> i32::MIN <= self.fishes + value <= i32::MAX
        &&& index == 4 ==> i32::MIN <= self.meats + value <= i32::MAX
    }

    /// Attempts a trade: gives `trade.give`, receives `trade.receive`.
    ///
    /// The trade is rejected — the result is `None` — exactly when the
    /// adjusted basket would hold a negative count of some kind.
    pub fn trade(&self, trade: &Trade) -> (r: Option<Candies>)
        requires
            self.wf(),
            trade.wf(),
            self.fits(*trade),
        ensures
            r is Some <==> self.can_apply(*trade),
            r matches Some(nb) ==> {
                &&& nb == self.applied(*trade)
                &&& nb.wf()
                &&& nb.total_spec() == self.total_spec() + trade.receive.total_spec()
                    - trade.give.total_spec()
            },
    {
        let result = Candies {
            eggs: self.eggs + trade.receive.eggs - trade.give.eggs,
            meats: self.meats + trade.receive.meats - trade.give.meats,
            fishes: self.fishes + trade.receive.fishes - trade.give.fishes,
            worms: self.worms + trade.receive.worms - trade.give.worms,
            cakes: self.cakes + trade.receive.cakes - trade.give.cakes,
        };
        if result.eggs < 0
            || result.meats < 0
            || result.fishes < 0
            || result.worms < 0
            || result.cakes < 0
        {
            None
        } else {
            Some(result)
        }
    }

    /// The total number of resources in the basket.
    pub fn total(&self) -> (r: i32)
        requires
            self.wf(),
            self.total_spec() <= i32::MAX,
        ensures
            r == self.total_spec(),
    {
        self.eggs + self.worms + self.cakes + self.fishes + self.meats
    }

    /// Whether `self` covers `other`: every count of `self` is at least
    /// the corresponding count of `other`.
    pub fn contains(&self, other: &Candies) -> (r: bool)
        ensures
            r == self.covers(*other),
    {
        self.eggs >= other.eggs
            && self.meats >= other.meats
            && self.fishes >= other.fishes
            && self.worms >= other.worms
            && self.cakes >= other.cakes
    }

    /// The all-zero basket, the identity for combination.
    pub fn none() -> (r: Candies)
        ensures
            r == Candies::empty(),
    {
        Candies { eggs: 0, worms: 0, cakes: 0, fishes: 0, meats: 0 }
    }

    /// Raises the count at `index` by `value`; an out-of-range index is a
    /// no-op, not an error.
    pub fn add_by_index(&mut self, index: usize, value: i32)
        requires
            old(self).add_fits(index as int, value as int),
        ensures
            *final(self) == old(self).add_at(index as int, value as int),
    {
        match index {
            0 => self.eggs += value,
            1 => self.worms += value,
            2 => self.cakes += value,
            3 => self.fishes += value,
            4 => self.meats += value,
            _ => (),
        }
    }
}

impl Trade {
    /// Both sides of the exchange hold non-negative counts.
    pub open spec fn wf(self) -> bool {
        self.give.wf() && self.receive.wf()
    }

    /// The canonical exchange for a pair of kinds: give 3 of kind `a`,
    /// receive 1 of kind `b`.
    pub open spec fn standard_spec(a: int, b: int) -> Trade {
        Trade {
            give: Candies::empty().add_at(a, 3),
            receive: Candies::empty().add_at(b, 1),
        }
    }

    /// Builds the standard rule giving 3 of kind `a` for 1 of kind `b`.
    pub fn standard_trade(a: usize, b: usize) -> (r: Trade)
        ensures
            r == Trade::standard_spec(a as int, b as int),
            r.wf(),
            r.give.total_spec() <= 3,
            r.receive.total_spec() <= 1,
    {
        let mut give = Candies::none();
        let mut receive = Candies::none();
        give.add_by_index(a, 3);
        receive.add_by_index(b, 1);
        Trade { give, receive }
    }
}

} // verus!
