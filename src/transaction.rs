use vstd::prelude::*;
use crate::ladder::{consumed, reaches, Level};
use crate::utils::{Direction, Price, Time, Volume};

verus! {

/// One completed trade on the tape.
#[derive(Debug, Clone, Copy)]
pub struct Transaction {
    pub timestamp: Time,
    pub index: usize,
    pub price: Price,
    pub volume: Volume,
    /// The aggressor side: a buy consumed asks, a sell consumed bids.
    pub direction: Direction,
}

impl Transaction {
    /// Lets this trade consume resting volume from `orders`, best level
    /// first: levels it crosses are emptied until its volume runs out, the
    /// last one it reaches keeps what is left over.
    pub fn handle(&self, orders: &mut Vec<Level>)
        ensures
            final(orders)@ == consumed(old(orders)@, self.direction, self.price, self.volume as nat),
    {
        let ghost start = orders@;
        let mut trx_volume = self.volume;
        let mut i: usize = 0;
        let mut done = false;
        assert(start.skip(0) =~= start);
        assert(orders@.take(0) + consumed(start, self.direction, self.price, self.volume as nat)
            =~= consumed(start, self.direction, self.price, self.volume as nat));
        while i < orders.len() && !done
            invariant
                i <= orders.len(),
                orders.len() == start.len(),
                done ==> orders@ == consumed(start, self.direction, self.price, self.volume as nat),
                !done ==> orders@.skip(i as int) == start.skip(i as int),
                !done ==> consumed(start, self.direction, self.price, self.volume as nat)
                    == orders@.take(i as int) + consumed(start.skip(i as int), self.direction, self.price, trx_volume as nat),
            decreases orders.len() - i + (if done { 0int } else { 1int }),
        {
            let (price, volume) = orders[i];
            let ghost rest = start.skip(i as int);
            assert(rest[0] == orders@[i as int]) by {
                assert(orders@.skip(i as int)[0] == orders@[i as int]);
            }
            let stop = match self.direction {
                Direction::Buy => self.price < price,
                Direction::Sell => self.price > price,
            };
            if stop {
                assert(!reaches(self.direction, self.price, price));
                assert(orders@ =~= orders@.take(i as int) + orders@.skip(i as int));
                done = true;
            } else if trx_volume > volume {
                let ghost before = orders@;
                trx_volume = trx_volume - volume;
                orders.set(i, (price, 0));
                assert(rest.drop_first() =~= start.skip(i + 1));
                assert(orders@.take(i + 1) =~= before.take(i as int) + seq![(price, 0usize)]);
                assert(orders@.skip(i + 1) =~= before.skip(i + 1));
                assert(before.skip(i + 1) =~= before.skip(i as int).drop_first());
                i = i + 1;
            } else {
                let ghost before = orders@;
                orders.set(i, (price, volume - trx_volume));
                assert(orders@ =~= before.take(i as int) + rest.update(0, (price, (volume - trx_volume) as usize)));
                done = true;
            }
        }
        if !done {
            assert(start.skip(i as int).len() == 0);
            assert(orders@ =~= orders@.take(i as int));
        }
    }
}

} // verus!
