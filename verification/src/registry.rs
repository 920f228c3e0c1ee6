//! Tables of definitions (items, recipes, buildings) looked up by name.
use vstd::prelude::*;
use crate::item_map::str_eq;

verus! {

/// A definition that carries its own name.
pub trait Named {
    spec fn name_view(&self) -> Seq<char>;

    fn name(&self) -> (r: &String)
        ensures
            r@ == self.name_view(),
    ;
}

/// The table that a sequence of definitions denotes: a later definition
/// replaces an earlier one of the same name.
pub open spec fn defs_map<D: Named>(s: Seq<D>) -> Map<Seq<char>, D>
    decreases s.len(),
{
    if s.len() == 0 {
        Map::empty()
    } else {
        defs_map(s.drop_last()).insert(s.last().name_view(), s.last())
    }
}

/// The names of a sequence of definitions are pairwise distinct.
pub open spec fn distinct_defs<D: Named>(s: Seq<D>) -> bool {
    forall|i: int, j: int|
        0 <= i < s.len() && 0 <= j < s.len() && i != j ==> s[i].name_view() != s[j].name_view()
}

pub proof fn lemma_defs_dom<D: Named>(s: Seq<D>, k: Seq<char>)
    ensures
        defs_map(s).dom().contains(k) <==> exists|i: int| 0 <= i < s.len() && s[i].name_view() == k,
    decreases s.len(),
{
    if s.len() > 0 {
        lemma_defs_dom(s.drop_last(), k);
        if exists|i: int| 0 <= i < s.len() && s[i].name_view() == k {
            let i = choose|i: int| 0 <= i < s.len() && s[i].name_view() == k;
            if i < s.len() - 1 {
                assert(s.drop_last()[i].name_view() == k);
            }
        }
        if exists|i: int| 0 <= i < s.drop_last().len() && s.drop_last()[i].name_view() == k {
            let i = choose|i: int| 0 <= i < s.drop_last().len() && s.drop_last()[i].name_view() == k;
            assert(s[i].name_view() == k);
        }
        if s.last().name_view() == k {
            assert(s[s.len() - 1].name_view() == k);
        }
    }
}

pub proof fn lemma_defs_index<D: Named>(s: Seq<D>, i: int)
    requires
        distinct_defs(s),
        0 <= i < s.len(),
    ensures
        defs_map(s).dom().contains(s[i].name_view()),
        defs_map(s)[s[i].name_view()] == s[i],
    decreases s.len(),
{
    if i < s.len() - 1 {
        lemma_defs_index(s.drop_last(), i);
        assert(s.drop_last()[i] == s[i]);
        assert(s[i].name_view() != s[s.len() - 1].name_view());
    }
}

proof fn lemma_defs_update<D: Named>(s: Seq<D>, i: int, d: D)
    requires
        distinct_defs(s),
        0 <= i < s.len(),
        d.name_view() == s[i].name_view(),
    ensures
        defs_map(s.update(i, d)) == defs_map(s).insert(d.name_view(), d),
        distinct_defs(s.update(i, d)),
    decreases s.len(),
{
    let t = s.update(i, d);
    if i == s.len() - 1 {
        assert(t.drop_last() =~= s.drop_last());
        assert(defs_map(t) =~= defs_map(s).insert(d.name_view(), d));
    } else {
        assert(t.drop_last() =~= s.drop_last().update(i, d));
        lemma_defs_update(s.drop_last(), i, d);
        assert(s[i].name_view() != s.last().name_view());
        assert(defs_map(t) =~= defs_map(s).insert(d.name_view(), d));
    }
}

proof fn lemma_defs_len<D: Named>(s: Seq<D>)
    requires
        distinct_defs(s),
    ensures
        defs_map(s).dom().len() == s.len(),
        defs_map(s).dom().finite(),
    decreases s.len(),
{
    if s.len() > 0 {
        let t = s.drop_last();
        lemma_defs_len(t);
        lemma_defs_dom(t, s.last().name_view());
        if exists|i: int| 0 <= i < t.len() && t[i].name_view() == s.last().name_view() {
            let i = choose|i: int| 0 <= i < t.len() && t[i].name_view() == s.last().name_view();
            assert(s[i].name_view() == s[s.len() - 1].name_view());
        }
    }
}

/// Definitions by name; no name occurs twice.
pub struct Registry<D: Named> {
    definitions: Vec<D>,
}

impl<D: Named> View for Registry<D> {
    type V = Map<Seq<char>, D>;

    closed spec fn view(&self) -> Map<Seq<char>, D> {
        defs_map(self.definitions@)
    }
}

impl<D: Named> Registry<D> {
    #[verifier::type_invariant]
    closed spec fn inv(self) -> bool {
        distinct_defs(self.definitions@)
    }

    /// The definitions in the order they were first registered.
    pub closed spec fn definitions(self) -> Seq<D> {
        self.definitions@
    }

    /// An empty table.
    pub fn new() -> (r: Self)
        ensures
            r@ == Map::<Seq<char>, D>::empty(),
            r.definitions().len() == 0,
    {
        Registry { definitions: Vec::new() }
    }

    fn find(&self, name: &str) -> (r: Option<usize>)
        ensures
            match r {
                Some(i) => i < self.definitions@.len() && self.definitions@[i as int].name_view()
                    == name@ && self@.dom().contains(name@) && self@[name@]
                    == self.definitions@[i as int],
                None => !self@.dom().contains(name@),
            },
    {
        let mut i: usize = 0;
        while i < self.definitions.len()
            invariant
                i <= self.definitions@.len(),
                forall|j: int| 0 <= j < i ==> self.definitions@[j].name_view() != name@,
            decreases self.definitions@.len() - i,
        {
            if str_eq(self.definitions[i].name().as_str(), name) {
                proof {
                    use_type_invariant(self);
                    lemma_defs_index(self.definitions@, i as int);
                }
                return Some(i);
            }
            i = i + 1;
        }
        proof {
            lemma_defs_dom(self.definitions@, name@);
        }
        None
    }

    /// Registers `def`, replacing a definition of the same name in place.
    pub fn insert(&mut self, def: D)
        ensures
            final(self)@ == old(self)@.insert(def.name_view(), def),
    {
        proof {
            use_type_invariant(&*self);
        }
        let found = self.find(def.name().as_str());
        let mut v: Vec<D> = Vec::new();
        std::mem::swap(&mut v, &mut self.definitions);
        match found {
            Some(i) => {
                proof {
                    lemma_defs_update(v@, i as int, def);
                }
                v.set(i, def);
            },
            None => {
                let ghost s = v@;
                proof {
                    assert forall|j: int| 0 <= j < s.len() implies s[j].name_view()
                        != def.name_view() by {
                        if s[j].name_view() == def.name_view() {
                            lemma_defs_dom(s, def.name_view());
                        }
                    }
                }
                v.push(def);
                proof {
                    assert(v@.drop_last() =~= s);
                }
            },
        }
        self.definitions = v;
    }

    /// The table of the given definitions, a later one replacing an earlier
    /// one of the same name.
    pub fn from_defs(defs: Vec<D>) -> (r: Self)
        ensures
            r@ == defs_map(defs@),
    {
        let ghost all = defs@;
        let mut rest = defs;
        let mut reversed: Vec<D> = Vec::new();
        let n = rest.len();
        while rest.len() > 0
            invariant
                n == all.len(),
                rest@.len() + reversed@.len() == n,
                rest@ == all.take(rest@.len() as int),
                forall|j: int| 0 <= j < reversed@.len() ==> reversed@[j] == all[n - 1 - j],
            decreases rest@.len(),
        {
            let d = rest.pop().unwrap();
            reversed.push(d);
            proof {
                assert(rest@ =~= all.take(rest@.len() as int));
            }
        }
        let mut r = Registry::new();
        let mut i: usize = 0;
        while i < n
            invariant
                n == all.len(),
                i <= n,
                reversed@.len() == n - i,
                forall|j: int| 0 <= j < reversed@.len() ==> reversed@[j] == all[n - 1 - j],
                r@ == defs_map(all.take(i as int)),
            decreases n - i,
        {
            let d = reversed.pop().unwrap();
            proof {
                assert(all.take(i + 1).drop_last() =~= all.take(i as int));
            }
            r.insert(d);
            i = i + 1;
        }
        proof {
            assert(all.take(n as int) =~= all);
        }
        r
    }

    /// The definition registered under `name`.
    pub fn get_definition(&self, name: &str) -> (r: Option<&D>)
        ensures
            r == (if self@.dom().contains(name@) {
                Some(&self@[name@])
            } else {
                None::<&D>
            }),
    {
        match self.find(name) {
            Some(i) => Some(&self.definitions[i]),
            None => None,
        }
    }

    /// Whether a definition is registered under `name`.
    pub fn contains(&self, name: &str) -> (b: bool)
        ensures
            b == self@.dom().contains(name@),
    {
        self.find(name).is_some()
    }

    /// The number of definitions.
    pub fn len(&self) -> (n: usize)
        ensures
            n == self@.dom().len(),
            n == self.definitions().len(),
            distinct_defs(self.definitions()),
            defs_map(self.definitions()) == self@,
    {
        proof {
            use_type_invariant(self);
            lemma_defs_len(self.definitions@);
        }
        self.definitions.len()
    }

    /// The definition at a position of the registration order.
    pub fn definition_at(&self, i: usize) -> (d: &D)
        requires
            i < self.definitions().len(),
        ensures
            *d == self.definitions()[i as int],
    {
        &self.definitions[i]
    }
}

} // verus!
