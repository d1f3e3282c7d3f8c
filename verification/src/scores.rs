//! The score map: a per-cell counter, incremented once for every head cell
//! the search expands. Purely diagnostic data for the presentation layer; it
//! never affects which path the search returns. Keys are kept unique, so the
//! map is modelled as a `Map` from cell to counter.

use vstd::prelude::*;

use crate::grid::GridPosition;

verus! {

/// The mapping an entry list denotes: later entries win, though a
/// well-formed list never repeats a key.
pub open spec fn map_of(s: Seq<(GridPosition, i32)>) -> Map<GridPosition, i32>
    decreases s.len(),
{
    if s.len() == 0 {
        Map::empty()
    } else {
        map_of(s.drop_last()).insert(s.last().0, s.last().1)
    }
}

/// How one bump changes a counter: a missing key starts at 1, a present one
/// goes up by one and stays put at the counter's ceiling.
pub open spec fn bumped(m: Map<GridPosition, i32>, pos: GridPosition) -> i32 {
    if m.contains_key(pos) {
        if m[pos] < i32::MAX {
            (m[pos] + 1) as i32
        } else {
            m[pos]
        }
    } else {
        1i32
    }
}

/// The per-cell visit counters of one search invocation.
pub struct Scores {
    pub entries: Vec<(GridPosition, i32)>,
}

impl View for Scores {
    type V = Map<GridPosition, i32>;

    open spec fn view(&self) -> Map<GridPosition, i32> {
        map_of(self.entries@)
    }
}

proof fn lemma_map_of_props(s: Seq<(GridPosition, i32)>)
    requires
        s.map_values(|e: (GridPosition, i32)| e.0).no_duplicates(),
    ensures
        forall|k: GridPosition|
            map_of(s).contains_key(k) <==> exists|i: int| 0 <= i < s.len() && (#[trigger] s[i]).0
                == k,
        forall|i: int| 0 <= i < s.len() ==> map_of(s)[(#[trigger] s[i]).0] == s[i].1,
        map_of(s).dom().finite(),
        map_of(s).dom().len() == s.len(),
    decreases s.len(),
{
    if s.len() > 0 {
        let d = s.drop_last();
        let keys = s.map_values(|e: (GridPosition, i32)| e.0);
        assert(d.map_values(|e: (GridPosition, i32)| e.0) =~= keys.drop_last());
        lemma_map_of_props(d);
        assert(forall|i: int| 0 <= i < d.len() ==> #[trigger] d[i] == s[i]);
        assert(!map_of(d).contains_key(s.last().0)) by {
            if map_of(d).contains_key(s.last().0) {
                let i = choose|i: int| 0 <= i < d.len() && (#[trigger] d[i]).0 == s.last().0;
                assert(keys[i] == keys[s.len() - 1]);
            }
        }
        assert(map_of(s).dom() =~= map_of(d).dom().insert(s.last().0));
        assert forall|i: int| 0 <= i < s.len() implies map_of(s)[(#[trigger] s[i]).0]
            == s[i].1 by {
            if i < s.len() - 1 {
                assert(keys[i] != keys[s.len() - 1]);
                assert(d[i] == s[i]);
                assert(map_of(d)[d[i].0] == d[i].1);
            }
        }
        assert forall|k: GridPosition| map_of(s).contains_key(k) implies exists|i: int|
            0 <= i < s.len() && (#[trigger] s[i]).0 == k by {
            if k == s.last().0 {
                assert(s[s.len() - 1].0 == k);
            } else {
                assert(map_of(d).contains_key(k));
                let i = choose|i: int| 0 <= i < d.len() && (#[trigger] d[i]).0 == k;
                assert(s[i].0 == k);
            }
        }
        assert forall|i: int| 0 <= i < s.len() && (#[trigger] s[i]).0 == s[i].0 implies map_of(
            s,
        ).contains_key(s[i].0) by {
            if i < s.len() - 1 {
                assert(d[i] == s[i]);
                assert(map_of(d).contains_key(d[i].0));
            }
        }
    }
}

impl Scores {
    /// Keys appear at most once.
    pub open spec fn wf(self) -> bool {
        self.entries@.map_values(|e: (GridPosition, i32)| e.0).no_duplicates()
    }

    pub fn new() -> (r: Scores)
        ensures
            r@ == Map::<GridPosition, i32>::empty(),
            r.wf(),
    {
        Scores { entries: Vec::new() }
    }

    /// The counter for `pos`, if one has been created.
    #[verifier::loop_isolation(false)]
    pub fn get(&self, pos: &GridPosition) -> (r: Option<i32>)
        requires
            self.wf(),
        ensures
            match r {
                Some(v) => self@.contains_key(*pos) && v == self@[*pos],
                None => !self@.contains_key(*pos),
            },
    {
        proof {
            lemma_map_of_props(self.entries@);
        }
        let mut i: usize = 0;
        while i < self.entries.len()
            invariant
                i <= self.entries@.len(),
                forall|j: int| 0 <= j < i ==> (#[trigger] self.entries@[j]).0 != *pos,
            decreases self.entries@.len() - i,
        {
            if self.entries[i].0 == *pos {
                return Some(self.entries[i].1);
            }
            i = i + 1;
        }
        None
    }

    /// How many cells have a counter.
    pub fn len(&self) -> (r: usize)
        requires
            self.wf(),
        ensures
            r == self@.dom().len(),
    {
        proof {
            lemma_map_of_props(self.entries@);
        }
        self.entries.len()
    }

    /// Counts one more visit of `pos`, creating the counter at 1 if absent.
    #[verifier::loop_isolation(false)]
    pub fn bump(&mut self, pos: GridPosition)
        requires
            old(self).wf(),
        ensures
            final(self)@ == old(self)@.insert(pos, bumped(old(self)@, pos)),
            final(self).wf(),
    {
        proof {
            lemma_map_of_props(self.entries@);
        }
        let ghost s0 = self.entries@;
        let mut i: usize = 0;
        while i < self.entries.len()
            invariant
                self.entries@ == s0,
                i <= s0.len(),
                forall|j: int| 0 <= j < i ==> (#[trigger] s0[j]).0 != pos,
            decreases s0.len() - i,
        {
            if self.entries[i].0 == pos {
                let v = self.entries[i].1;
                let nv = if v < i32::MAX {
                    v + 1
                } else {
                    v
                };
                self.entries[i] = (pos, nv);
                proof {
                    lemma_map_of_update(s0, i as int, pos, nv);
                    assert(self.entries@.map_values(|e: (GridPosition, i32)| e.0) =~= s0.map_values(
                        |e: (GridPosition, i32)| e.0,
                    ));
                }
                return ;
            }
            i = i + 1;
        }
        self.entries.push((pos, 1));
        proof {
            assert(self.entries@.drop_last() =~= s0);
            assert(!map_of(s0).contains_key(pos));
            assert(self.entries@.map_values(|e: (GridPosition, i32)| e.0) =~= s0.map_values(
                |e: (GridPosition, i32)| e.0,
            ).push(pos));
            let keys = self.entries@.map_values(|e: (GridPosition, i32)| e.0);
            assert forall|a: int, b: int| 0 <= a < keys.len() && 0 <= b < keys.len() && a != b
                implies keys[a] != keys[b] by {
                if b == keys.len() - 1 {
                    assert(s0[a] == self.entries@[a]);
                } else if a == keys.len() - 1 {
                    assert(s0[b] == self.entries@[b]);
                }
            }
        }
    }
}

/// Updating the entry that holds a key is, at the map level, inserting over
/// that key.
proof fn lemma_map_of_update(s: Seq<(GridPosition, i32)>, i: int, k: GridPosition, v: i32)
    requires
        s.map_values(|e: (GridPosition, i32)| e.0).no_duplicates(),
        0 <= i < s.len(),
        s[i].0 == k,
    ensures
        map_of(s.update(i, (k, v))) == map_of(s).insert(k, v),
    decreases s.len(),
{
    let t = s.update(i, (k, v));
    if i == s.len() - 1 {
        assert(t.drop_last() =~= s.drop_last());
        assert(t.last() == (k, v));
    } else {
        let d = s.drop_last();
        let keys = s.map_values(|e: (GridPosition, i32)| e.0);
        assert(d.map_values(|e: (GridPosition, i32)| e.0) =~= keys.drop_last());
        lemma_map_of_update(d, i, k, v);
        assert(t.drop_last() =~= d.update(i, (k, v)));
        assert(t.last() == s.last());
        assert(keys[i] != keys[s.len() - 1]);
        assert(s.last().0 != k);
        assert(map_of(d).insert(k, v).insert(s.last().0, s.last().1) =~= map_of(d).insert(
            s.last().0,
            s.last().1,
        ).insert(k, v));
    }
}

} // verus!
