use vstd::prelude::*;
use crate::str_util::str_eq;

verus! {

/// Selectivities and costs are held in parts per million: one million stands
/// for 1.0.
pub const SEL_SCALE: u64 = 1000000;

/// Half of `SEL_SCALE`: the structural default selectivity of an atom with no
/// measured entry.
pub const SEL_DEFAULT: u64 = 500000;

/// A read-only statistics map from atom fingerprint to a value in parts per
/// million. Later insertions shadow earlier ones.
pub struct StatsMap {
    entries: Vec<(String, u64)>,
}

/// The map an entry list denotes: later entries win.
pub open spec fn map_of(s: Seq<(String, u64)>) -> Map<Seq<char>, u64>
    decreases s.len(),
{
    if s.len() == 0 {
        Map::empty()
    } else {
        map_of(s.drop_last()).insert(s.last().0@, s.last().1)
    }
}

impl View for StatsMap {
    type V = Map<Seq<char>, u64>;

    closed spec fn view(&self) -> Map<Seq<char>, u64> {
        map_of(self.entries@)
    }
}

impl StatsMap {
    pub fn new() -> (r: StatsMap)
        ensures
            r@ == Map::<Seq<char>, u64>::empty(),
    {
        StatsMap { entries: Vec::new() }
    }

    /// Record `value` under `key`, shadowing any earlier entry.
    pub fn insert(&mut self, key: String, value: u64)
        ensures
            final(self)@ == old(self)@.insert(key@, value),
    {
        self.entries.push((key, value));
        proof {
            assert(self.entries@.drop_last() =~= old(self).entries@);
        }
    }

    /// Look the fingerprint up; `None` when nothing was recorded for it.
    #[verifier::loop_isolation(false)]
    pub fn get(&self, key: &str) -> (r: Option<u64>)
        ensures
            r == if self@.contains_key(key@) {
                Some(self@[key@])
            } else {
                None::<u64>
            },
    {
        let mut i: usize = self.entries.len();
        proof {
            assert(self.entries@.take(i as int) =~= self.entries@);
        }
        while i > 0
            invariant
                0 <= i <= self.entries@.len(),
                self@.contains_key(key@) == map_of(self.entries@.take(i as int)).contains_key(
                    key@,
                ),
                self@.contains_key(key@) ==> self@[key@] == map_of(
                    self.entries@.take(i as int),
                )[key@],
            decreases i,
        {
            i -= 1;
            proof {
                assert(self.entries@.take(i + 1).drop_last() =~= self.entries@.take(i as int));
                assert(self.entries@.take(i + 1).last() == self.entries@[i as int]);
            }
            if str_eq(self.entries[i].0.as_str(), key) {
                return Some(self.entries[i].1);
            }
        }
        proof {
            assert(self.entries@.take(0) =~= Seq::<(String, u64)>::empty());
        }
        None
    }
}

} // verus!
