//! A map from item names to quantities, the storage behind every inventory,
//! recipe and transfer request of the game.
//!
//! The entries are kept in a vector in insertion order; no name occurs twice.
//! Its model is a `Map` from the name's characters to the quantity.
use vstd::prelude::*;
use vstd::math::min;

verus! {

/// Compares two string slices by content.
///
/// Trusted: calls `<str as PartialEq>::eq`, which std documents as byte-wise
/// equality; equal bytes of valid UTF-8 are equal character sequences, so the
/// contract claims the result is the equality of the two character views.
#[verifier::external_body]
pub(crate) fn str_eq(a: &str, b: &str) -> (r: bool)
    ensures
        r == (a@ == b@),
{
    a == b
}

/// The names of a sequence of entries are pairwise distinct.
pub open spec fn distinct_names(s: Seq<(String, u32)>) -> bool {
    forall|i: int, j: int| 0 <= i < s.len() && 0 <= j < s.len() && i != j ==> s[i].0@ != s[j].0@
}

/// The map that a sequence of entries denotes (a later entry wins).
pub open spec fn map_of(s: Seq<(String, u32)>) -> Map<Seq<char>, u32>
    decreases s.len(),
{
    if s.len() == 0 {
        Map::empty()
    } else {
        map_of(s.drop_last()).insert(s.last().0@, s.last().1)
    }
}

/// The sum of the quantities of a sequence of entries.
pub open spec fn sum_of(s: Seq<(String, u32)>) -> int
    decreases s.len(),
{
    if s.len() == 0 {
        0
    } else {
        sum_of(s.drop_last()) + s.last().1
    }
}

/// The index of the entry named `k`, if any.
pub open spec fn has_name(s: Seq<(String, u32)>, k: Seq<char>) -> bool {
    exists|i: int| 0 <= i < s.len() && s[i].0@ == k
}

pub proof fn lemma_map_of_dom(s: Seq<(String, u32)>, k: Seq<char>)
    ensures
        map_of(s).dom().contains(k) <==> has_name(s, k),
    decreases s.len(),
{
    if s.len() > 0 {
        lemma_map_of_dom(s.drop_last(), k);
        if has_name(s, k) && s.last().0@ != k {
            let i = choose|i: int| 0 <= i < s.len() && s[i].0@ == k;
            assert(s.drop_last()[i].0@ == k);
        }
        if has_name(s.drop_last(), k) {
            let i = choose|i: int| 0 <= i < s.drop_last().len() && s.drop_last()[i].0@ == k;
            assert(s[i].0@ == k);
        }
        if s.last().0@ == k {
            assert(s[s.len() - 1].0@ == k);
        }
    }
}

pub proof fn lemma_map_of_index(s: Seq<(String, u32)>, i: int)
    requires
        distinct_names(s),
        0 <= i < s.len(),
    ensures
        map_of(s).dom().contains(s[i].0@),
        map_of(s)[s[i].0@] == s[i].1,
    decreases s.len(),
{
    if i < s.len() - 1 {
        lemma_map_of_index(s.drop_last(), i);
        assert(s.drop_last()[i] == s[i]);
        assert(s[i].0@ != s[s.len() - 1].0@);
    }
}

pub proof fn lemma_map_of_update(s: Seq<(String, u32)>, i: int, e: (String, u32))
    requires
        distinct_names(s),
        0 <= i < s.len(),
        e.0@ == s[i].0@,
    ensures
        map_of(s.update(i, e)) == map_of(s).insert(e.0@, e.1),
        distinct_names(s.update(i, e)),
    decreases s.len(),
{
    let t = s.update(i, e);
    if i == s.len() - 1 {
        assert(t.drop_last() =~= s.drop_last());
        assert(map_of(t) =~= map_of(s).insert(e.0@, e.1));
    } else {
        assert(t.drop_last() =~= s.drop_last().update(i, e));
        lemma_map_of_update(s.drop_last(), i, e);
        assert(s[i].0@ != s.last().0@);
        assert(map_of(t) =~= map_of(s).insert(e.0@, e.1));
    }
}

pub proof fn lemma_map_of_remove(s: Seq<(String, u32)>, i: int)
    requires
        distinct_names(s),
        0 <= i < s.len(),
    ensures
        map_of(s.remove(i)) == map_of(s).remove(s[i].0@),
        distinct_names(s.remove(i)),
    decreases s.len(),
{
    let t = s.remove(i);
    let k = s[i].0@;
    if i == s.len() - 1 {
        assert(t =~= s.drop_last());
        lemma_map_of_dom(s.drop_last(), k);
        assert forall|j: int| 0 <= j < s.drop_last().len() implies s.drop_last()[j].0@ != k by {
            assert(s.drop_last()[j] == s[j]);
        }
        assert(!map_of(s.drop_last()).dom().contains(k));
        assert(map_of(t) =~= map_of(s).remove(k));
    } else {
        assert(t.drop_last() =~= s.drop_last().remove(i));
        assert(t.last() == s.last());
        lemma_map_of_remove(s.drop_last(), i);
        assert(s.drop_last()[i] == s[i]);
        assert(s.last().0@ != k);
        assert(map_of(t) =~= map_of(s).remove(k));
    }
}

pub proof fn lemma_sum_update(s: Seq<(String, u32)>, i: int, e: (String, u32))
    requires
        0 <= i < s.len(),
    ensures
        sum_of(s.update(i, e)) == sum_of(s) - s[i].1 + e.1,
    decreases s.len(),
{
    let t = s.update(i, e);
    if i == s.len() - 1 {
        assert(t.drop_last() =~= s.drop_last());
    } else {
        assert(t.drop_last() =~= s.drop_last().update(i, e));
        lemma_sum_update(s.drop_last(), i, e);
    }
}

pub proof fn lemma_sum_remove(s: Seq<(String, u32)>, i: int)
    requires
        0 <= i < s.len(),
    ensures
        sum_of(s.remove(i)) == sum_of(s) - s[i].1,
    decreases s.len(),
{
    let t = s.remove(i);
    if i == s.len() - 1 {
        assert(t =~= s.drop_last());
    } else {
        assert(t.drop_last() =~= s.drop_last().remove(i));
        assert(t.last() == s.last());
        lemma_sum_remove(s.drop_last(), i);
    }
}

pub proof fn lemma_sum_nonneg(s: Seq<(String, u32)>)
    ensures
        sum_of(s) >= 0,
    decreases s.len(),
{
    if s.len() > 0 {
        lemma_sum_nonneg(s.drop_last());
    }
}

/// An entry's quantity is at most the sum of all quantities.
pub proof fn lemma_sum_ge_entry(s: Seq<(String, u32)>, i: int)
    requires
        0 <= i < s.len(),
    ensures
        sum_of(s) >= s[i].1,
    decreases s.len(),
{
    lemma_sum_nonneg(s.drop_last());
    if i < s.len() - 1 {
        lemma_sum_ge_entry(s.drop_last(), i);
    }
}

/// Item names mapped to quantities; no name occurs twice.
pub struct ItemMap {
    entries: Vec<(String, u32)>,
}

impl View for ItemMap {
    type V = Map<Seq<char>, u32>;

    closed spec fn view(&self) -> Map<Seq<char>, u32> {
        map_of(self.entries@)
    }
}

impl ItemMap {
    #[verifier::type_invariant]
    closed spec fn inv(self) -> bool {
        distinct_names(self.entries@)
    }

    /// The entries in insertion order.
    pub closed spec fn entries(self) -> Seq<(String, u32)> {
        self.entries@
    }

    /// The sum of all quantities.
    pub open spec fn total(self) -> int {
        sum_of(self.entries())
    }

    /// The quantity held of `k`, zero when absent.
    pub open spec fn qty(self, k: Seq<char>) -> int {
        if self@.dom().contains(k) {
            self@[k] as int
        } else {
            0
        }
    }

    /// An empty map.
    pub fn new() -> (m: ItemMap)
        ensures
            m@ == Map::<Seq<char>, u32>::empty(),
            m.entries().len() == 0,
            m.total() == 0,
    {
        ItemMap { entries: Vec::new() }
    }

    /// The number of distinct names.
    pub fn len(&self) -> (n: usize)
        ensures
            n == self@.dom().len(),
            n == self.entries().len(),
            distinct_names(self.entries()),
            map_of(self.entries()) == self@,
    {
        proof {
            use_type_invariant(self);
            lemma_dom_len(self.entries@);
        }
        self.entries.len()
    }

    /// Whether no name is present.
    pub fn is_empty(&self) -> (b: bool)
        ensures
            b == (self@.dom().len() == 0),
            b == (self@ == Map::<Seq<char>, u32>::empty()),
            b == (self.entries().len() == 0),
            b ==> self.total() == 0,
    {
        proof {
            use_type_invariant(self);
            lemma_dom_len(self.entries@);
            if self.entries@.len() > 0 {
                use_type_invariant(self);
                lemma_entries(self.entries@);
                assert(self@.dom().contains(self.entries@[0].0@));
            } else {
                assert(self@ =~= Map::<Seq<char>, u32>::empty());
            }
        }
        self.entries.len() == 0
    }

    /// The position of `name` among the entries.
    fn find(&self, name: &str) -> (r: Option<usize>)
        ensures
            match r {
                Some(i) => i < self.entries@.len() && self.entries@[i as int].0@ == name@
                    && self@.dom().contains(name@) && self@[name@] == self.entries@[i as int].1,
                None => !self@.dom().contains(name@),
            },
    {
        proof {
            use_type_invariant(&*self);
            lemma_entries(self.entries@);
        }
        let mut i: usize = 0;
        while i < self.entries.len()
            invariant
                i <= self.entries@.len(),
                forall|j: int| 0 <= j < i ==> self.entries@[j].0@ != name@,
            decreases self.entries@.len() - i,
        {
            if str_eq(self.entries[i].0.as_str(), name) {
                proof {
                    use_type_invariant(self);
                    lemma_entries(self.entries@);
                    assert(self.entries@[i as int] == self.entries@[i as int]);
                }
                return Some(i);
            }
            i = i + 1;
        }
        proof {
            if self@.dom().contains(name@) {
                assert(has_name(self.entries(), name@));
            }
        }
        None
    }

    /// The quantity stored under `name`.
    pub fn get(&self, name: &str) -> (r: Option<&u32>)
        ensures
            r == (if self@.dom().contains(name@) {
                Some(&self@[name@])
            } else {
                None::<&u32>
            }),
    {
        proof {
            use_type_invariant(&*self);
            lemma_entries(self.entries@);
        }
        match self.find(name) {
            Some(i) => Some(&self.entries[i].1),
            None => None,
        }
    }

    /// The quantity stored under `name`, zero when absent.
    pub fn quantity(&self, name: &str) -> (q: u32)
        ensures
            q == self.qty(name@),
    {
        match self.get(name) {
            Some(q) => *q,
            None => 0,
        }
    }

    /// Whether `name` is present.
    pub fn contains_key(&self, name: &str) -> (b: bool)
        ensures
            b == self@.dom().contains(name@),
    {
        self.find(name).is_some()
    }

    /// Sets the quantity of `name`, keeping its position when present and
    /// appending it otherwise. Returns the previous quantity.
    pub fn insert(&mut self, name: String, quantity: u32) -> (prev: Option<u32>)
        ensures
            final(self)@ == old(self)@.insert(name@, quantity),
            prev == (if old(self)@.dom().contains(name@) {
                Some(old(self)@[name@])
            } else {
                None::<u32>
            }),
            final(self).total() == old(self).total() - old(self).qty(name@) + quantity,
    {
        proof {
            use_type_invariant(&*self);
            lemma_entries(self.entries@);
        }
        match self.find(name.as_str()) {
            Some(i) => {
                let old_q = self.entries[i].1;
                proof {
                    lemma_map_of_update(self.entries@, i as int, (name, quantity));
                    lemma_sum_update(self.entries@, i as int, (name, quantity));
                }
                let mut v: Vec<(String, u32)> = Vec::new();
                std::mem::swap(&mut v, &mut self.entries);
                v.set(i, (name, quantity));
                self.entries = v;
                Some(old_q)
            },
            None => {
                let ghost s = self.entries@;
                proof {
                    assert forall|j: int| 0 <= j < s.len() implies s[j].0@ != name@ by {
                        if s[j].0@ == name@ {
                            assert(has_name(s, name@));
                        }
                    }
                }
                let mut v: Vec<(String, u32)> = Vec::new();
                std::mem::swap(&mut v, &mut self.entries);
                v.push((name, quantity));
                proof {
                    assert(v@.drop_last() =~= s);
                }
                self.entries = v;
                None
            },
        }
    }

    /// Removes `name`, returning its quantity.
    pub fn remove(&mut self, name: &str) -> (prev: Option<u32>)
        ensures
            final(self)@ == old(self)@.remove(name@),
            prev == (if old(self)@.dom().contains(name@) {
                Some(old(self)@[name@])
            } else {
                None::<u32>
            }),
            final(self).total() == old(self).total() - old(self).qty(name@),
    {
        proof {
            use_type_invariant(&*self);
            lemma_entries(self.entries@);
        }
        match self.find(name) {
            Some(i) => {
                proof {
                    lemma_map_of_remove(self.entries@, i as int);
                    lemma_sum_remove(self.entries@, i as int);
                }
                let mut v: Vec<(String, u32)> = Vec::new();
                std::mem::swap(&mut v, &mut self.entries);
                let e = v.remove(i);
                self.entries = v;
                Some(e.1)
            },
            None => {
                proof {
                    assert(old(self)@ =~= old(self)@.remove(name@));
                }
                None
            },
        }
    }

    /// Adds `quantity` to the quantity of `name`, creating the entry when absent.
    pub fn add(&mut self, name: &str, quantity: u32)
        requires
            old(self).qty(name@) + quantity <= u32::MAX,
        ensures
            final(self)@ == old(self)@.insert(name@, (old(self).qty(name@) + quantity) as u32),
            final(self).total() == old(self).total() + quantity,
    {
        let current = self.quantity(name);
        self.insert(name.to_owned(), current + quantity);
    }

    /// Takes up to `quantity` of `name`; the entry leaves when it runs out.
    /// Returns the quantity taken.
    pub fn take(&mut self, name: &str, quantity: u32) -> (taken: u32)
        ensures
            taken == min(old(self).qty(name@), quantity as int),
            final(self)@ == crate::materials::items::after_removal(old(self)@, name@, quantity),
            final(self).total() == old(self).total() - taken,
    {
        if self.contains_key(name) {
            let current = self.quantity(name);
            let taken = if current < quantity {
                current
            } else {
                quantity
            };
            let remaining = current - taken;
            if remaining == 0 {
                self.remove(name);
            } else {
                self.insert(name.to_owned(), remaining);
            }
            taken
        } else {
            0
        }
    }

    /// The number of entries, the name and the quantity at a position.
    pub fn entry_at(&self, i: usize) -> (e: (&String, u32))
        requires
            i < self.entries().len(),
        ensures
            e.0 == self.entries()[i as int].0,
            e.1 == self.entries()[i as int].1,
    {
        (&self.entries[i].0, self.entries[i].1)
    }

    /// The sum of all quantities.
    pub fn sum(&self) -> (t: u32)
        requires
            self.total() <= u32::MAX,
        ensures
            t == self.total(),
    {
        let mut acc: u32 = 0;
        let mut i: usize = 0;
        proof {
            lemma_sum_prefix_mono(self.entries@, 0, self.entries@.len() as int);
        }
        while i < self.entries.len()
            invariant
                i <= self.entries@.len(),
                acc == sum_of(self.entries@.take(i as int)),
                sum_of(self.entries@) <= u32::MAX,
            decreases self.entries@.len() - i,
        {
            proof {
                lemma_sum_prefix_mono(self.entries@, i + 1, self.entries@.len() as int);
                assert(self.entries@.take(i + 1).drop_last() =~= self.entries@.take(i as int));
                assert(self.entries@.take(self.entries@.len() as int) =~= self.entries@);
            }
            acc = acc + self.entries[i].1;
            i = i + 1;
        }
        proof {
            assert(self.entries@.take(i as int) =~= self.entries@);
        }
        acc
    }

    /// A copy with the same entries.
    pub fn duplicate(&self) -> (m: ItemMap)
        ensures
            m@ == self@,
            m.entries() == self.entries(),
    {
        proof {
            use_type_invariant(self);
        }
        let mut v: Vec<(String, u32)> = Vec::new();
        let mut i: usize = 0;
        while i < self.entries.len()
            invariant
                i <= self.entries@.len(),
                v@ == self.entries@.take(i as int),
            decreases self.entries@.len() - i,
        {
            v.push((self.entries[i].0.clone(), self.entries[i].1));
            i = i + 1;
            proof {
                assert(v@ =~= self.entries@.take(i as int));
            }
        }
        proof {
            assert(v@ =~= self.entries@);
        }
        ItemMap { entries: v }
    }
}

/// The entries of a map with distinct names denote it, and each is at most the sum.
pub proof fn lemma_entries(s: Seq<(String, u32)>)
    requires
        distinct_names(s),
    ensures
        sum_of(s) >= 0,
        forall|i: int|
            #![trigger s[i]]
            0 <= i < s.len() ==> map_of(s).dom().contains(s[i].0@) && map_of(s)[s[i].0@]
                == s[i].1 && sum_of(s) >= s[i].1,
        forall|k: Seq<char>|
            #![trigger map_of(s).dom().contains(k)]
            map_of(s).dom().contains(k) <==> has_name(s, k),
{
    lemma_sum_nonneg(s);
    assert forall|i: int| #![trigger s[i]] 0 <= i < s.len() implies map_of(s).dom().contains(
        s[i].0@,
    ) && map_of(s)[s[i].0@] == s[i].1 && sum_of(s) >= s[i].1 by {
        lemma_map_of_index(s, i);
        lemma_sum_ge_entry(s, i);
    }
    assert forall|k: Seq<char>| #![trigger map_of(s).dom().contains(k)]
        map_of(s).dom().contains(k) <==> has_name(s, k) by {
        lemma_map_of_dom(s, k);
    }
}

/// The first `i` entries do not name entry `i`.
pub proof fn lemma_prefix_lacks_next(s: Seq<(String, u32)>, i: int)
    requires
        distinct_names(s),
        0 <= i < s.len(),
    ensures
        !map_of(s.take(i)).dom().contains(s[i].0@),
        distinct_names(s.take(i)),
        map_of(s.take(i + 1)) == map_of(s.take(i)).insert(s[i].0@, s[i].1),
{
    lemma_map_of_dom(s.take(i), s[i].0@);
    if has_name(s.take(i), s[i].0@) {
        let j = choose|j: int| 0 <= j < s.take(i).len() && s.take(i)[j].0@ == s[i].0@;
        assert(s[j].0@ == s[i].0@);
    }
    assert(s.take(i + 1).drop_last() =~= s.take(i));
}

proof fn lemma_dom_len(s: Seq<(String, u32)>)
    requires
        distinct_names(s),
    ensures
        map_of(s).dom().len() == s.len(),
        map_of(s).dom().finite(),
    decreases s.len(),
{
    if s.len() > 0 {
        let t = s.drop_last();
        assert(distinct_names(t));
        lemma_dom_len(t);
        lemma_map_of_dom(t, s.last().0@);
        if has_name(t, s.last().0@) {
            let i = choose|i: int| 0 <= i < t.len() && t[i].0@ == s.last().0@;
            assert(s[i].0@ == s[s.len() - 1].0@);
        }
    }
}

/// Sums of prefixes grow with the prefix.
pub proof fn lemma_sum_prefix_mono(s: Seq<(String, u32)>, i: int, j: int)
    requires
        0 <= i <= j <= s.len(),
    ensures
        sum_of(s.take(i)) <= sum_of(s.take(j)),
    decreases j - i,
{
    if i < j {
        lemma_sum_prefix_mono(s, i, j - 1);
        assert(s.take(j).drop_last() =~= s.take(j - 1));
    }
}

} // verus!
