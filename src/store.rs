//! Reading, editing and re-addressing the bytes of an image.
//!
//! Edits only touch addresses that already hold data: bytes are edited
//! here, never newly allocated.
use crate::error::{IntelHexError, IntelHexErrorKind};
use crate::image::{is_ascending_listing, IntelHex};
use std::collections::BTreeMap;
use vstd::prelude::*;

verus! {

broadcast use vstd::std_specs::btree::group_btree_axioms;

/// `m` with each `(address, value)` of `u` written in turn.
pub open spec fn apply_updates(m: Map<usize, u8>, u: Seq<(usize, u8)>) -> Map<usize, u8>
    decreases u.len(),
{
    if u.len() == 0 {
        m
    } else {
        apply_updates(m, u.drop_last()).insert(u.last().0, u.last().1)
    }
}

/// The first index in `from..` of `u` whose address `m` does not hold.
pub open spec fn first_absent(m: Map<usize, u8>, u: Seq<(usize, u8)>, from: nat) -> Option<nat>
    decreases u.len() - from,
{
    if from >= u.len() {
        None
    } else if !m.contains_key(u[from as int].0) {
        Some(from)
    } else {
        first_absent(m, u, from + 1)
    }
}

/// `m` with every key moved by `new_min - old_min`.
pub open spec fn shifted(m: Map<usize, u8>, old_min: usize, new_min: usize) -> Map<usize, u8> {
    Map::new(
        |a: usize|
            a >= new_min && a - new_min + old_min <= usize::MAX && m.contains_key(
                (a - new_min + old_min) as usize,
            ),
        |a: usize| m[(a - new_min + old_min) as usize],
    )
}

pub open spec fn is_min_key(m: Map<usize, u8>, k: usize) -> bool {
    m.contains_key(k) && forall|a: usize| #[trigger] m.contains_key(a) ==> k <= a
}

pub open spec fn is_max_key(m: Map<usize, u8>, k: usize) -> bool {
    m.contains_key(k) && forall|a: usize| #[trigger] m.contains_key(a) ==> a <= k
}

/// The lowest address of a non-empty store.
pub open spec fn min_key(m: Map<usize, u8>) -> usize {
    choose|k: usize| is_min_key(m, k)
}

/// The highest address of a non-empty store.
pub open spec fn max_key(m: Map<usize, u8>) -> usize {
    choose|k: usize| is_max_key(m, k)
}

pub proof fn lemma_min_max_unique(m: Map<usize, u8>, lo: usize, hi: usize)
    requires
        is_min_key(m, lo),
        is_max_key(m, hi),
    ensures
        min_key(m) == lo,
        max_key(m) == hi,
{
    let a = min_key(m);
    assert(m.contains_key(lo) && m.contains_key(a));
    let b = max_key(m);
    assert(m.contains_key(hi) && m.contains_key(b));
}

pub proof fn lemma_listing_ends(s: Seq<(usize, u8)>, m: Map<usize, u8>)
    requires
        is_ascending_listing(s, m),
        s.len() > 0,
    ensures
        is_min_key(m, s[0].0),
        is_max_key(m, s.last().0),
{
    assert forall|a: usize| #[trigger] m.contains_key(a) implies s[0].0 <= a && a <= s.last().0 by {
        let i = choose|i: int| 0 <= i < s.len() && s[i].0 == a;
        if i > 0 {
            assert(s[0].0 < s[i].0);
        }
        if i < s.len() - 1 {
            assert(s[i].0 < s[s.len() - 1].0);
        }
    }
}

pub proof fn lemma_listing_empty(m: Map<usize, u8>)
    requires
        is_ascending_listing(Seq::empty(), m),
    ensures
        m.dom() == Set::<usize>::empty(),
{
    assert forall|a: usize| !m.contains_key(a) by {
        if m.contains_key(a) {
            let i = choose|i: int| 0 <= i < 0 && Seq::<(usize, u8)>::empty()[i].0 == a;
        }
    }
    assert(m.dom() =~= Set::<usize>::empty());
}

impl IntelHex {
    /// A copy of the store.
    pub fn to_btree_map(&self) -> (r: BTreeMap<usize, u8>)
        ensures
            r@ == self.store(),
    {
        self.buffer.clone()
    }

    /// The byte at `address`, if the store holds one.
    pub fn get_byte(&self, address: usize) -> (r: Option<u8>)
        ensures
            r == (if self.store().contains_key(address) {
                Some(self.store()[address])
            } else {
                None
            }),
    {
        match self.buffer.get(&address) {
            Some(b) => Some(*b),
            None => None,
        }
    }

    /// The bytes at the given addresses, or `None` if any of them holds none.
    pub fn get_buffer_slice(&self, addr_vec: &[usize]) -> (r: Option<Vec<u8>>)
        ensures
            match r {
                Some(v) => (forall|i: int|
                    0 <= i < addr_vec@.len() ==> self.store().contains_key(#[trigger] addr_vec@[i]))
                    && v@ == addr_vec@.map_values(|a: usize| self.store()[a]),
                None => exists|i: int|
                    0 <= i < addr_vec@.len() && !self.store().contains_key(#[trigger] addr_vec@[i]),
            },
    {
        let mut out: Vec<u8> = Vec::new();
        let mut i: usize = 0;
        while i < addr_vec.len()
            invariant
                i <= addr_vec@.len(),
                forall|j: int| 0 <= j < i ==> self.store().contains_key(#[trigger] addr_vec@[j]),
                out@ == addr_vec@.take(i as int).map_values(|a: usize| self.store()[a]),
            decreases addr_vec@.len() - i,
        {
            match self.buffer.get(&addr_vec[i]) {
                Some(b) => {
                    out.push(*b);
                },
                None => {
                    return None;
                },
            }
            i += 1;
            assert(out@ =~= addr_vec@.take(i as int).map_values(|a: usize| self.store()[a]));
        }
        assert(addr_vec@.take(i as int) =~= addr_vec@);
        Some(out)
    }

    /// Sets the byte at `address`, which must already hold one.
    pub fn update_byte(&mut self, address: usize, value: u8) -> (r: Result<(), IntelHexError>)
        ensures
            final(self).start_addr == old(self).start_addr,
            final(self).size == old(self).size,
            final(self).filepath == old(self).filepath,
            if old(self).store().contains_key(address) {
                r is Ok && final(self).store() == old(self).store().insert(address, value)
            } else {
                r == Err::<(), IntelHexError>(
                    IntelHexError::UpdateError(IntelHexErrorKind::InvalidAddress(address)),
                ) && final(self).store() == old(self).store()
            },
    {
        if self.buffer.contains_key(&address) {
            self.buffer.insert(address, value);
            Ok(())
        } else {
            Err(IntelHexError::UpdateError(IntelHexErrorKind::InvalidAddress(address)))
        }
    }

    /// Applies the updates in order. At the first address that holds no
    /// byte it stops with an error; the updates before it stay applied.
    pub fn update_buffer_slice(&mut self, updates_map: &[(usize, u8)]) -> (r: Result<
        (),
        IntelHexError,
    >)
        ensures
            final(self).start_addr == old(self).start_addr,
            final(self).size == old(self).size,
            final(self).filepath == old(self).filepath,
            match first_absent(old(self).store(), updates_map@, 0) {
                Some(i) => r == Err::<(), IntelHexError>(
                    IntelHexError::UpdateError(
                        IntelHexErrorKind::InvalidAddress(updates_map@[i as int].0),
                    ),
                ) && final(self).store() == apply_updates(
                    old(self).store(),
                    updates_map@.take(i as int),
                ),
                None => r is Ok && final(self).store() == apply_updates(
                    old(self).store(),
                    updates_map@,
                ),
            },
    {
        let ghost m0 = self.store();
        let mut i: usize = 0;
        while i < updates_map.len()
            invariant
                i <= updates_map@.len(),
                m0 == old(self).store(),
                self.start_addr == old(self).start_addr,
                self.size == old(self).size,
                self.filepath == old(self).filepath,
                self.store() == apply_updates(m0, updates_map@.take(i as int)),
                self.store().dom() == m0.dom(),
                first_absent(m0, updates_map@, 0) == first_absent(m0, updates_map@, i as nat),
            decreases updates_map@.len() - i,
        {
            let (addr, value) = updates_map[i];
            if !self.buffer.contains_key(&addr) {
                return Err(IntelHexError::UpdateError(IntelHexErrorKind::InvalidAddress(addr)));
            }
            self.buffer.insert(addr, value);
            assert(updates_map@.take(i + 1).drop_last() =~= updates_map@.take(i as int));
            assert(self.store().dom() =~= m0.dom());
            i += 1;
        }
        assert(updates_map@.take(i as int) =~= updates_map@);
        Ok(())
    }

    /// The lowest address that holds a byte.
    pub fn get_min_addr(&self) -> (r: Option<usize>)
        ensures
            match r {
                Some(k) => is_min_key(self.store(), k),
                None => self.store().dom() == Set::<usize>::empty(),
            },
    {
        let e = self.entries();
        if e.len() == 0 {
            proof {
                assert(e@ =~= Seq::<(usize, u8)>::empty());
                lemma_listing_empty(self.store());
            }
            None
        } else {
            proof {
                lemma_listing_ends(e@, self.store());
            }
            Some(e[0].0)
        }
    }

    /// The highest address that holds a byte.
    pub fn get_max_addr(&self) -> (r: Option<usize>)
        ensures
            match r {
                Some(k) => is_max_key(self.store(), k),
                None => self.store().dom() == Set::<usize>::empty(),
            },
    {
        let e = self.entries();
        if e.len() == 0 {
            proof {
                assert(e@ =~= Seq::<(usize, u8)>::empty());
                lemma_listing_empty(self.store());
            }
            None
        } else {
            proof {
                lemma_listing_ends(e@, self.store());
            }
            Some(e[e.len() - 1].0)
        }
    }

    /// Moves every byte so that the lowest address becomes `new_min`;
    /// byte values, the start address and the metadata stay as they are.
    pub fn relocate(&mut self, new_min: usize) -> (r: Result<(), IntelHexError>)
        ensures
            final(self).start_addr == old(self).start_addr,
            final(self).size == old(self).size,
            final(self).filepath == old(self).filepath,
            if old(self).store().dom() == Set::<usize>::empty() {
                r == Err::<(), IntelHexError>(
                    IntelHexError::UpdateError(IntelHexErrorKind::IntelHexInstanceEmpty),
                ) && final(self).store() == old(self).store()
            } else if max_key(old(self).store()) - min_key(old(self).store()) > usize::MAX
                - new_min {
                r == Err::<(), IntelHexError>(
                    IntelHexError::UpdateError(IntelHexErrorKind::InvalidAddress(new_min)),
                ) && final(self).store() == old(self).store()
            } else {
                r is Ok && final(self).store() == shifted(
                    old(self).store(),
                    min_key(old(self).store()),
                    new_min,
                )
            },
    {
        let e = self.entries();
        let ghost m = self.store();
        if e.len() == 0 {
            proof {
                assert(e@ =~= Seq::<(usize, u8)>::empty());
                lemma_listing_empty(m);
            }
            return Err(IntelHexError::UpdateError(IntelHexErrorKind::IntelHexInstanceEmpty));
        }
        let min = e[0].0;
        let max = e[e.len() - 1].0;
        proof {
            lemma_listing_ends(e@, m);
            lemma_min_max_unique(m, min, max);
            assert(m.contains_key(min));
            assert(m.dom() != Set::<usize>::empty());
        }
        if max - min > usize::MAX - new_min {
            return Err(IntelHexError::UpdateError(IntelHexErrorKind::InvalidAddress(new_min)));
        }
        let mut moved: BTreeMap<usize, u8> = BTreeMap::new();
        let mut i: usize = 0;
        while i < e.len()
            invariant
                i <= e@.len(),
                is_ascending_listing(e@, m),
                min == e@[0].0,
                max == e@.last().0,
                is_min_key(m, min),
                is_max_key(m, max),
                max - min <= usize::MAX - new_min,
                forall|j: int|
                    0 <= j < i ==> #[trigger] moved@.contains_key(
                        (e@[j].0 - min + new_min) as usize,
                    ) && moved@[(e@[j].0 - min + new_min) as usize] == e@[j].1,
                forall|a: usize| #[trigger]
                    moved@.contains_key(a) ==> exists|j: int|
                        0 <= j < i && a == e@[j].0 - min + new_min,
            decreases e@.len() - i,
        {
            let (a, b) = e[i];
            assert(m.contains_key(e@[i as int].0));
            let key = a - min + new_min;
            moved.insert(key, b);
            assert forall|j: int| 0 <= j < i + 1 implies #[trigger] moved@.contains_key(
                (e@[j].0 - min + new_min) as usize,
            ) && moved@[(e@[j].0 - min + new_min) as usize] == e@[j].1 by {
                if j < i {
                    assert(e@[j].0 < e@[i as int].0);
                }
            }
            i += 1;
        }
        proof {
            let target = shifted(m, min, new_min);
            assert forall|a: usize| #[trigger] moved@.contains_key(a) implies target.contains_key(
                a,
            ) by {
                let j = choose|j: int| 0 <= j < e@.len() && a == e@[j].0 - min + new_min;
                assert(m.contains_key(e@[j].0));
                assert((a - new_min + min) as usize == e@[j].0);
            }
            assert forall|a: usize| #[trigger] target.contains_key(a) implies moved@.contains_key(
                a,
            ) by {
                let k = (a - new_min + min) as usize;
                assert(m.contains_key(k));
                let j = choose|j: int| 0 <= j < e@.len() && e@[j].0 == k;
                assert(min <= k);
                assert(moved@.contains_key((e@[j].0 - min + new_min) as usize));
                assert((e@[j].0 - min + new_min) as usize == a);
            }
            assert forall|a: usize| #[trigger] moved@.contains_key(a) implies moved@[a]
                == target[a] by {
                let j = choose|j: int| 0 <= j < e@.len() && a == e@[j].0 - min + new_min;
                assert(moved@.contains_key((e@[j].0 - min + new_min) as usize));
            }
            assert(moved@ =~= target);
        }
        self.buffer = moved;
        Ok(())
    }
}

/// Relocating a store whose addresses span `old_min..=old_max` so that it
/// starts at `new_min` keeps every byte value, moves every address by
/// `new_min - old_min`, adds no other address, and moves the highest
/// address by the same amount.
pub proof fn law_relocate_shifts(m: Map<usize, u8>, old_min: usize, old_max: usize, new_min: usize)
    requires
        is_min_key(m, old_min),
        is_max_key(m, old_max),
        old_max - old_min <= usize::MAX - new_min,
    ensures
        forall|a: usize| #[trigger]
            m.contains_key(a) ==> shifted(m, old_min, new_min).contains_key(
                (a - old_min + new_min) as usize,
            ) && shifted(m, old_min, new_min)[(a - old_min + new_min) as usize] == m[a],
        forall|b: usize| #[trigger]
            shifted(m, old_min, new_min).contains_key(b) ==> new_min <= b && m.contains_key(
                (b - new_min + old_min) as usize,
            ),
        is_min_key(shifted(m, old_min, new_min), new_min),
        is_max_key(shifted(m, old_min, new_min), (old_max - old_min + new_min) as usize),
{
    let t = shifted(m, old_min, new_min);
    assert forall|a: usize| #[trigger] m.contains_key(a) implies t.contains_key(
        (a - old_min + new_min) as usize,
    ) && t[(a - old_min + new_min) as usize] == m[a] by {
        assert(old_min <= a <= old_max);
        assert(((a - old_min + new_min) as usize - new_min + old_min) as usize == a);
    }
    assert(m.contains_key(old_min));
    assert(m.contains_key(old_max));
    assert forall|b: usize| #[trigger] t.contains_key(b) implies b <= (old_max - old_min
        + new_min) as usize by {
        let a = (b - new_min + old_min) as usize;
        assert(m.contains_key(a));
    }
}

} // verus!
