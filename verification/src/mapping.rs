//! The table that maps host names to upstream hosts.

use vstd::prelude::*;

verus! {

/// The map that a list of pairs stands for, where a later pair replaces an
/// earlier one with the same host name.
pub open spec fn pairs_map(pairs: Seq<(String, String)>) -> Map<Seq<char>, Seq<char>>
    decreases pairs.len(),
{
    if pairs.len() == 0 {
        Map::empty()
    } else {
        pairs_map(pairs.drop_last()).insert(pairs.last().0@, pairs.last().1@)
    }
}

/// A finite map from host names, as clients send them, to upstream hosts.
///
/// Host names are matched as they are: no case folding, no wildcards. The
/// table is kept as the list of what was inserted, in order; of two entries
/// for one host name the later one counts.
pub struct HostMapping {
    entries: Vec<(String, String)>,
}

impl View for HostMapping {
    type V = Map<Seq<char>, Seq<char>>;

    closed spec fn view(&self) -> Map<Seq<char>, Seq<char>> {
        pairs_map(self.entries@)
    }
}

impl HostMapping {
    /// The empty table.
    pub fn new() -> (table: Self)
        ensures
            table@ == Map::<Seq<char>, Seq<char>>::empty(),
    {
        HostMapping { entries: Vec::new() }
    }

    /// Maps `sni` to `upstream`, in place of what it was mapped to before.
    pub fn insert(&mut self, sni: String, upstream: String)
        ensures
            final(self)@ == old(self)@.insert(sni@, upstream@),
    {
        self.entries.push((sni, upstream));
        proof {
            assert(self.entries@.drop_last() =~= old(self).entries@);
        }
    }

    /// The upstream host that `sni` is mapped to, if any.
    pub fn get(&self, sni: &String) -> (upstream: Option<&String>)
        ensures
            match upstream {
                Some(host) => self@.contains_key(sni@) && host@ == self@[sni@],
                None => !self@.contains_key(sni@),
            },
    {
        let mut i: usize = self.entries.len();
        proof {
            assert(self.entries@.take(i as int) =~= self.entries@);
        }
        while i > 0
            invariant
                i <= self.entries.len(),
                pairs_map(self.entries@.take(i as int)).contains_key(sni@) == self@.contains_key(
                    sni@,
                ),
                self@.contains_key(sni@) ==> pairs_map(self.entries@.take(i as int))[sni@]
                    == self@[sni@],
            decreases i,
        {
            proof {
                assert(self.entries@.take(i as int).drop_last() =~= self.entries@.take(i - 1));
            }
            i -= 1;
            if self.entries[i].0 == *sni {
                return Some(&self.entries[i].1);
            }
        }
        None
    }
}

} // verus!
