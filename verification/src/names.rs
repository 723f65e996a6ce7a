//! A set of names that remembers the order in which its members arrived.

use vstd::prelude::*;

verus! {

/// The texts of a sequence of strings.
pub open spec fn texts(v: Seq<String>) -> Seq<Seq<char>> {
    v.map_values(|s: String| s@)
}

/// Appending a string appends its text.
pub proof fn lemma_texts_push(v: Seq<String>, s: String)
    ensures
        texts(v.push(s)) == texts(v).push(s@),
{
    assert(texts(v.push(s)) =~= texts(v).push(s@));
}

/// A finite set of names. Members are kept in the order of their first
/// insertion, and none is stored twice.
#[derive(Debug)]
pub struct NameSet {
    items: Vec<String>,
}

impl NameSet {
    /// The members in the order in which they were first inserted.
    pub closed spec fn order(&self) -> Seq<Seq<char>> {
        texts(self.items@)
    }

    /// No member is stored twice.
    #[verifier::type_invariant]
    spec fn no_member_twice(&self) -> bool {
        texts(self.items@).no_duplicates()
    }

    /// The empty set.
    pub fn new() -> (r: NameSet)
        ensures
            r.order() == Seq::<Seq<char>>::empty(),
            r@ == Set::<Seq<char>>::empty(),
    {
        let r = NameSet { items: Vec::new() };
        assert(r.order() =~= Seq::<Seq<char>>::empty());
        assert(r@ =~= Set::<Seq<char>>::empty());
        r
    }

    /// Whether `name` is a member.
    pub fn contains(&self, name: &str) -> (r: bool)
        ensures
            r == self@.contains(name@),
    {
        let probe = name.to_owned();
        let mut i: usize = 0;
        while i < self.items.len()
            invariant
                i <= self.items.len(),
                probe@ == name@,
                forall|j: int| 0 <= j < i ==> (#[trigger] self.order()[j]) != name@,
            decreases self.items.len() - i,
        {
            if self.items[i] == probe {
                assert(self.order()[i as int] == name@);
                return true;
            }
            i += 1;
        }
        false
    }

    /// Adds `name`; returns whether it was new.
    pub fn insert(&mut self, name: String) -> (r: bool)
        ensures
            final(self)@ == old(self)@.insert(name@),
            r == !old(self)@.contains(name@),
            final(self).order() == if r {
                old(self).order().push(name@)
            } else {
                old(self).order()
            },
    {
        if self.contains(name.as_str()) {
            assert(self@.insert(name@) =~= self@);
            false
        } else {
            let ghost before = self.order();
            let ghost n = name@;
            proof {
                use_type_invariant(&*self);
                lemma_texts_push(self.items@, name);
                before.lemma_push_to_set_commute(n);
            }
            let mut taken = NameSet { items: Vec::new() };
            core::mem::swap(self, &mut taken);
            let mut items = taken.items;
            items.push(name);
            *self = NameSet { items };
            true
        }
    }

    /// The number of members.
    pub fn len(&self) -> (r: usize)
        ensures
            r == self@.len(),
            r == self.order().len(),
    {
        proof {
            use_type_invariant(self);
            self.order().unique_seq_to_set();
        }
        self.items.len()
    }

    /// Whether the set has no member.
    pub fn is_empty(&self) -> (r: bool)
        ensures
            r == (self@ == Set::<Seq<char>>::empty()),
            r == (self.order().len() == 0),
    {
        let r = self.items.len() == 0;
        proof {
            if r {
                assert(self@ =~= Set::<Seq<char>>::empty());
            } else {
                assert(self@.contains(self.order()[0]));
            }
        }
        r
    }

    /// The members as owned strings, in insertion order.
    pub fn names(&self) -> (r: Vec<String>)
        ensures
            texts(r@) == self.order(),
            texts(r@).to_set() == self@,
            texts(r@).no_duplicates(),
    {
        proof {
            use_type_invariant(self);
        }
        let mut out: Vec<String> = Vec::new();
        let mut i: usize = 0;
        while i < self.items.len()
            invariant
                i <= self.items.len(),
                texts(out@) == self.order().take(i as int),
            decreases self.items.len() - i,
        {
            let item = self.items[i].clone();
            assert(item@ == self.order()[i as int]);
            proof {
                lemma_texts_push(out@, item);
            }
            out.push(item);
            assert(self.order().take(i + 1) =~= self.order().take(i as int).push(
                self.order()[i as int],
            ));
            i += 1;
        }
        assert(self.order().take(i as int) =~= self.order());
        out
    }
}

impl View for NameSet {
    type V = Set<Seq<char>>;

    closed spec fn view(&self) -> Set<Seq<char>> {
        self.order().to_set()
    }
}

} // verus!
