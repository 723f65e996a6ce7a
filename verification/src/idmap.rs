//! Token ids: the unsigned integer types that can hold them, and the map from
//! token names to ids that ties a lexer to a grammar.

use vstd::prelude::*;
use crate::names::texts;
use crate::text::chars_of;

verus! {

/// An unsigned integer type that can hold token ids.
pub trait StorageInt: Copy {
    /// The number that a value of the type stands for.
    spec fn value(self) -> nat;

    /// The name of the type as source text spells it.
    spec fn type_spelling() -> Seq<char>;

    /// The value, widened.
    fn to_u64(self) -> (r: u64)
        ensures
            r as nat == self.value(),
    ;

    /// The name of the type as source text spells it.
    fn type_text() -> (r: &'static str)
        ensures
            r@ == Self::type_spelling(),
    ;
}

impl StorageInt for u8 {
    open spec fn value(self) -> nat {
        self as nat
    }

    open spec fn type_spelling() -> Seq<char> {
        "u8"@
    }

    fn to_u64(self) -> (r: u64) {
        self as u64
    }

    fn type_text() -> (r: &'static str) {
        "u8"
    }
}

impl StorageInt for u16 {
    open spec fn value(self) -> nat {
        self as nat
    }

    open spec fn type_spelling() -> Seq<char> {
        "u16"@
    }

    fn to_u64(self) -> (r: u64) {
        self as u64
    }

    fn type_text() -> (r: &'static str) {
        "u16"
    }
}

impl StorageInt for u32 {
    open spec fn value(self) -> nat {
        self as nat
    }

    open spec fn type_spelling() -> Seq<char> {
        "u32"@
    }

    fn to_u64(self) -> (r: u64) {
        self as u64
    }

    fn type_text() -> (r: &'static str) {
        "u32"
    }
}

impl StorageInt for u64 {
    open spec fn value(self) -> nat {
        self as nat
    }

    open spec fn type_spelling() -> Seq<char> {
        "u64"@
    }

    fn to_u64(self) -> (r: u64) {
        self
    }

    fn type_text() -> (r: &'static str) {
        "u64"
    }
}

impl StorageInt for usize {
    open spec fn value(self) -> nat {
        self as nat
    }

    open spec fn type_spelling() -> Seq<char> {
        "usize"@
    }

    fn to_u64(self) -> (r: u64) {
        self as u64
    }

    fn type_text() -> (r: &'static str) {
        "usize"
    }
}

/// Whether the name `a` stands before the name `b`: at the first place where
/// they differ `a` has the smaller character, or `a` ends there and `b` goes
/// on.
pub open spec fn precedes(a: Seq<char>, b: Seq<char>) -> bool
    decreases a.len(),
{
    if b.len() == 0 {
        false
    } else if a.len() == 0 {
        true
    } else if a[0] != b[0] {
        a[0] < b[0]
    } else {
        precedes(a.drop_first(), b.drop_first())
    }
}

/// Whether each of the names stands before all that follow it.
pub open spec fn ascending(names: Seq<Seq<char>>) -> bool {
    forall|i: int, j: int|
        0 <= i < j < names.len() ==> precedes(#[trigger] names[i], #[trigger] names[j])
}

/// No name stands before itself.
pub proof fn lemma_precedes_irreflexive(a: Seq<char>)
    ensures
        !precedes(a, a),
    decreases a.len(),
{
    if a.len() > 0 {
        lemma_precedes_irreflexive(a.drop_first());
    }
}

/// What stands before a name stands before all that the name stands before.
pub proof fn lemma_precedes_transitive(a: Seq<char>, b: Seq<char>, c: Seq<char>)
    requires
        precedes(a, b),
        precedes(b, c),
    ensures
        precedes(a, c),
    decreases a.len(),
{
    if a.len() > 0 && a[0] == b[0] && b[0] == c[0] {
        lemma_precedes_transitive(a.drop_first(), b.drop_first(), c.drop_first());
    }
}

/// Ascending names hold no name twice.
pub proof fn lemma_ascending_no_duplicates(names: Seq<Seq<char>>)
    requires
        ascending(names),
    ensures
        names.no_duplicates(),
{
    assert forall|i: int, j: int| 0 <= i < names.len() && 0 <= j < names.len() && i != j implies
        names[i] != names[j] by {
        lemma_precedes_irreflexive(names[i]);
        if i < j {
            assert(precedes(names[i], names[j]));
        } else {
            assert(precedes(names[j], names[i]));
        }
    }
}

/// Ascending names are fixed by the set of names that they hold.
pub proof fn lemma_ascending_unique(a: Seq<Seq<char>>, b: Seq<Seq<char>>)
    requires
        ascending(a),
        ascending(b),
        forall|x: Seq<char>| a.contains(x) <==> b.contains(x),
    ensures
        a == b,
    decreases a.len(),
{
    if a.len() == 0 {
        if b.len() > 0 {
            assert(b.contains(b[0]));
        }
        assert(a =~= b);
    } else {
        assert(a.contains(a[0]));
        let k = b.index_of(a[0]);
        assert(b[k] == a[0]);
        assert(b.contains(b[0]));
        let m = a.index_of(b[0]);
        assert(a[m] == b[0]);
        lemma_precedes_irreflexive(a[0]);
        if k > 0 {
            assert(precedes(b[0], b[k]));
            if m > 0 {
                assert(precedes(a[0], a[m]));
                lemma_precedes_transitive(a[0], a[m], a[0]);
            }
        }
        assert(a[0] == b[0]);
        let ra = a.drop_first();
        let rb = b.drop_first();
        assert(ascending(ra)) by {
            assert forall|i: int, j: int| 0 <= i < j < ra.len() implies precedes(
                #[trigger] ra[i],
                #[trigger] ra[j],
            ) by {
                assert(precedes(a[i + 1], a[j + 1]));
            }
        }
        assert(ascending(rb)) by {
            assert forall|i: int, j: int| 0 <= i < j < rb.len() implies precedes(
                #[trigger] rb[i],
                #[trigger] rb[j],
            ) by {
                assert(precedes(b[i + 1], b[j + 1]));
            }
        }
        assert forall|x: Seq<char>| ra.contains(x) <==> rb.contains(x) by {
            lemma_precedes_irreflexive(x);
            if ra.contains(x) {
                let i = ra.index_of(x);
                assert(a[i + 1] == x);
                assert(precedes(a[0], a[i + 1]));
                assert(a.contains(x));
                let j = b.index_of(x);
                assert(b[j] == x);
                assert(rb[j - 1] == x);
            }
            if rb.contains(x) {
                let i = rb.index_of(x);
                assert(b[i + 1] == x);
                assert(precedes(b[0], b[i + 1]));
                assert(b.contains(x));
                let j = a.index_of(x);
                assert(a[j] == x);
                assert(ra[j - 1] == x);
            }
        }
        lemma_ascending_unique(ra, rb);
        assert(a =~= seq![a[0]] + ra);
        assert(b =~= seq![b[0]] + rb);
    }
}

/// How one name stands to another.
enum Place {
    Before,
    Same,
    After,
}

/// How the name `a` stands to the name `b`.
fn place_of(a: &Vec<char>, b: &Vec<char>) -> (r: Place)
    ensures
        match r {
            Place::Before => precedes(a@, b@),
            Place::Same => a@ == b@,
            Place::After => precedes(b@, a@),
        },
{
    let mut i: usize = 0;
    assert(a@.skip(0) =~= a@);
    assert(b@.skip(0) =~= b@);
    while i < a.len() && i < b.len()
        invariant
            i <= a.len(),
            i <= b.len(),
            a@.take(i as int) == b@.take(i as int),
            precedes(a@, b@) == precedes(a@.skip(i as int), b@.skip(i as int)),
            precedes(b@, a@) == precedes(b@.skip(i as int), a@.skip(i as int)),
        decreases a.len() - i,
    {
        let ghost ra = a@.skip(i as int);
        let ghost rb = b@.skip(i as int);
        assert(ra[0] == a@[i as int] && rb[0] == b@[i as int]);
        if a[i] < b[i] {
            return Place::Before;
        }
        if b[i] < a[i] {
            return Place::After;
        }
        assert(ra.drop_first() =~= a@.skip(i + 1));
        assert(rb.drop_first() =~= b@.skip(i + 1));
        assert(a@.take(i + 1) =~= a@.take(i as int).push(a@[i as int]));
        assert(b@.take(i + 1) =~= b@.take(i as int).push(b@[i as int]));
        i += 1;
    }
    if i < b.len() {
        assert(a@.skip(i as int).len() == 0);
        Place::Before
    } else if i < a.len() {
        assert(b@.skip(i as int).len() == 0);
        Place::After
    } else {
        assert(a@.take(i as int) =~= a@);
        assert(b@.take(i as int) =~= b@);
        Place::Same
    }
}

/// The entries that a sequence of pairs gives to a map: each pair in turn,
/// so that of two pairs with one name the later one stays.
pub open spec fn map_of_pairs<T>(pairs: Seq<(Seq<char>, T)>) -> Map<Seq<char>, T>
    decreases pairs.len(),
{
    if pairs.len() == 0 {
        Map::empty()
    } else {
        map_of_pairs(pairs.drop_last()).insert(pairs.last().0, pairs.last().1)
    }
}

/// What each of a sequence of pairs holds.
pub open spec fn pair_views<T>(pairs: Seq<(String, T)>) -> Seq<(Seq<char>, T)> {
    pairs.map_values(|p: (String, T)| (p.0@, p.1))
}

/// A map from token names to token ids. The entries are kept in the
/// ascending order of their names, whatever the order in which they arrived,
/// so that two maps with the same entries are walked alike.
#[derive(Debug)]
pub struct IdMap<T> {
    keys: Vec<String>,
    ids: Vec<T>,
}

impl<T> IdMap<T> {
    /// Every name has one id and the names ascend.
    #[verifier::type_invariant]
    spec fn one_id_each(&self) -> bool {
        &&& self.keys@.len() == self.ids@.len()
        &&& ascending(texts(self.keys@))
    }
}

impl<T: Copy> IdMap<T> {
    /// The names, in ascending order.
    pub closed spec fn names(&self) -> Seq<Seq<char>> {
        texts(self.keys@)
    }

    /// The ids, each at the position of its name in `names`.
    pub closed spec fn ids(&self) -> Seq<T> {
        self.ids@
    }

    /// Every name has one id and the names ascend. This holds of every map
    /// that the functions of this type hand out.
    pub open spec fn ordered(&self) -> bool {
        &&& self.names().len() == self.ids().len()
        &&& ascending(self.names())
    }

    /// The map that the entries stand for.
    pub open spec fn map(&self) -> Map<Seq<char>, T> {
        Map::new(
            |k: Seq<char>| self.names().contains(k),
            |k: Seq<char>| self.ids()[self.names().index_of(k)],
        )
    }

    /// The empty map.
    pub fn new() -> (r: IdMap<T>)
        ensures
            r.ordered(),
            r.names() == Seq::<Seq<char>>::empty(),
            r.ids() == Seq::<T>::empty(),
            r.map() == Map::<Seq<char>, T>::empty(),
    {
        let r = IdMap { keys: Vec::new(), ids: Vec::new() };
        assert(r.names() =~= Seq::<Seq<char>>::empty());
        assert(r.map() =~= Map::<Seq<char>, T>::empty());
        r
    }

    /// The map with the entries that `pairs` give, each pair in turn.
    pub fn from_pairs(pairs: &Vec<(String, T)>) -> (r: IdMap<T>)
        ensures
            r.ordered(),
            r.map() == map_of_pairs(pair_views(pairs@)),
    {
        let mut out = IdMap::new();
        let ghost all = pair_views(pairs@);
        let mut i: usize = 0;
        assert(all.take(0) =~= Seq::<(Seq<char>, T)>::empty());
        while i < pairs.len()
            invariant
                i <= pairs.len(),
                all == pair_views(pairs@),
                out.ordered(),
                out.map() == map_of_pairs(all.take(i as int)),
            decreases pairs.len() - i,
        {
            proof {
                assert(all.take(i + 1).drop_last() =~= all.take(i as int));
                assert(all.take(i + 1).last() == (pairs@[i as int].0@, pairs@[i as int].1));
            }
            out.insert(pairs[i].0.clone(), pairs[i].1);
            i += 1;
        }
        assert(all.take(i as int) =~= all);
        out
    }

    /// The place of `name` among the names: the position of the first name
    /// that does not stand before it, and whether that name is `name`.
    fn seek(&self, name: &str) -> (r: (usize, bool))
        ensures
            self.ordered(),
            r.0 <= self.names().len(),
            forall|j: int| 0 <= j < r.0 ==> precedes(#[trigger] self.names()[j], name@),
            r.1 ==> r.0 < self.names().len() && self.names()[r.0 as int] == name@
                && self.names().index_of(name@) == r.0,
            !r.1 ==> !self.names().contains(name@) && (r.0 < self.names().len() ==> precedes(
                name@,
                self.names()[r.0 as int],
            )),
    {
        proof {
            use_type_invariant(self);
            lemma_ascending_no_duplicates(self.names());
        }
        let probe = chars_of(name);
        let mut i: usize = 0;
        while i < self.keys.len()
            invariant
                self.ordered(),
                self.names().no_duplicates(),
                i <= self.keys.len(),
                probe@ == name@,
                forall|j: int| 0 <= j < i ==> precedes(#[trigger] self.names()[j], name@),
            decreases self.keys.len() - i,
        {
            let key = chars_of(self.keys[i].as_str());
            assert(key@ == self.names()[i as int]);
            match place_of(&key, &probe) {
                Place::Before => {
                    i += 1;
                },
                Place::Same => {
                    proof {
                        let j = self.names().index_of(name@);
                        assert(self.names()[j] == name@);
                    }
                    return (i, true);
                },
                Place::After => {
                    proof {
                        self.lemma_not_among(name@, i as int);
                    }
                    return (i, false);
                },
            }
        }
        proof {
            self.lemma_not_among(name@, i as int);
        }
        (i, false)
    }

    /// A name that stands behind the first `i` names and before the others
    /// is none of the names.
    proof fn lemma_not_among(&self, name: Seq<char>, i: int)
        requires
            ascending(self.names()),
            0 <= i <= self.names().len(),
            forall|j: int| 0 <= j < i ==> precedes(#[trigger] self.names()[j], name),
            i < self.names().len() ==> precedes(name, self.names()[i]),
        ensures
            !self.names().contains(name),
    {
        let names = self.names();
        if names.contains(name) {
            let k = names.index_of(name);
            assert(names[k] == name);
            lemma_precedes_irreflexive(name);
            if k > i {
                assert(precedes(names[i], names[k]));
                lemma_precedes_transitive(name, names[i], name);
            }
        }
    }

    /// The id of `name`, if it has one.
    pub fn get(&self, name: &str) -> (r: Option<T>)
        ensures
            r == if self.map().dom().contains(name@) {
                Some(self.map()[name@])
            } else {
                None
            },
    {
        proof {
            use_type_invariant(self);
        }
        let (i, found) = self.seek(name);
        if found {
            Some(self.ids[i])
        } else {
            None
        }
    }

    /// Whether `name` has an id.
    pub fn contains_key(&self, name: &str) -> (r: bool)
        ensures
            r == self.map().dom().contains(name@),
    {
        self.seek(name).1
    }

    /// Gives `name` the id `id`; returns the id it had before, if any.
    pub fn insert(&mut self, name: String, id: T) -> (r: Option<T>)
        ensures
            final(self).ordered(),
            final(self).map() == old(self).map().insert(name@, id),
            r == if old(self).map().dom().contains(name@) {
                Some(old(self).map()[name@])
            } else {
                None
            },
    {
        let ghost before = *self;
        let ghost n = name@;
        proof {
            use_type_invariant(&*self);
            lemma_ascending_no_duplicates(before.names());
        }
        let (i, found) = self.seek(name.as_str());
        let mut taken = IdMap { keys: Vec::new(), ids: Vec::new() };
        core::mem::swap(self, &mut taken);
        let mut keys = taken.keys;
        let mut ids = taken.ids;
        if found {
            let prev = ids[i];
            ids.set(i, id);
            *self = IdMap { keys, ids };
            proof {
                assert forall|k: Seq<char>| self.map().dom().contains(k) implies (
                #[trigger] self.map()[k]) == before.map().insert(n, id)[k] by {
                    let j = self.names().index_of(k);
                    assert(self.names()[j] == k);
                }
                assert(self.map() =~= before.map().insert(n, id));
            }
            Some(prev)
        } else {
            proof {
                before.names().insert_ensures(i as int, n);
                before.ids().insert_ensures(i as int, id);
                assert(texts(keys@.insert(i as int, name)) =~= before.names().insert(i as int, n))
                    by {
                    keys@.insert_ensures(i as int, name);
                }
            }
            keys.insert(i, name);
            ids.insert(i, id);
            let ghost names = texts(keys@);
            proof {
                assert(names == before.names().insert(i as int, n));
                assert(ascending(names)) by {
                    assert forall|a: int, b: int| 0 <= a < b < names.len() implies precedes(
                        #[trigger] names[a],
                        #[trigger] names[b],
                    ) by {
                        let old_names = before.names();
                        if b < i {
                            assert(precedes(old_names[a], old_names[b]));
                        } else if b == i {
                            assert(names[a] == old_names[a]);
                        } else if a == i {
                            assert(names[b] == old_names[b - 1]);
                            if b - 1 > i {
                                assert(precedes(old_names[i as int], old_names[b - 1]));
                                lemma_precedes_transitive(n, old_names[i as int], old_names[b - 1]);
                            }
                        } else if a < i {
                            assert(names[a] == old_names[a]);
                            assert(names[b] == old_names[b - 1]);
                            assert(precedes(old_names[a], old_names[b - 1]));
                        } else {
                            assert(names[a] == old_names[a - 1]);
                            assert(names[b] == old_names[b - 1]);
                            assert(precedes(old_names[a - 1], old_names[b - 1]));
                        }
                    }
                }
            }
            *self = IdMap { keys, ids };
            proof {
                let old_names = before.names();
                lemma_ascending_no_duplicates(names);
                assert forall|k: Seq<char>| #[trigger]
                    names.contains(k) == (old_names.contains(k) || k == n) by {
                    if old_names.contains(k) {
                        let j = old_names.index_of(k);
                        assert(old_names[j] == k);
                        if j < i {
                            assert(names[j] == k);
                        } else {
                            assert(names[j + 1] == k);
                        }
                    }
                    if k == n {
                        assert(names[i as int] == k);
                    }
                    if names.contains(k) {
                        let j = names.index_of(k);
                        assert(names[j] == k);
                        if j < i {
                            assert(old_names[j] == k);
                        } else if j > i {
                            assert(old_names[j - 1] == k);
                        }
                    }
                }
                assert forall|k: Seq<char>| self.map().dom().contains(k) implies (
                #[trigger] self.map()[k]) == before.map().insert(n, id)[k] by {
                    let j = names.index_of(k);
                    assert(names[j] == k);
                    if j < i {
                        assert(old_names[j] == k);
                        let j0 = old_names.index_of(k);
                        assert(old_names[j0] == k);
                    } else if j > i {
                        assert(old_names[j - 1] == k);
                        let j0 = old_names.index_of(k);
                        assert(old_names[j0] == k);
                    }
                }
                assert(self.map() =~= before.map().insert(n, id));
            }
            None
        }
    }

    /// The number of entries.
    pub fn len(&self) -> (r: usize)
        ensures
            self.ordered(),
            r == self.names().len(),
            r == self.ids().len(),
            r == self.map().dom().len(),
    {
        proof {
            use_type_invariant(self);
            lemma_ascending_no_duplicates(self.names());
            self.names().unique_seq_to_set();
            assert(self.map().dom() =~= self.names().to_set());
        }
        self.keys.len()
    }

    /// The name of the entry at position `i`.
    pub fn name_at(&self, i: usize) -> (r: &String)
        requires
            i < self.names().len(),
        ensures
            r@ == self.names()[i as int],
    {
        &self.keys[i]
    }

    /// The id of the entry at position `i`.
    pub fn id_at(&self, i: usize) -> (r: T)
        requires
            i < self.ids().len(),
        ensures
            r == self.ids()[i as int],
    {
        self.ids[i]
    }
}

/// Two maps with the same entries hold them in the same order.
pub proof fn lemma_same_map_same_order<T: Copy>(a: &IdMap<T>, b: &IdMap<T>)
    requires
        a.ordered(),
        b.ordered(),
        a.map() == b.map(),
    ensures
        a.names() == b.names(),
        a.ids() == b.ids(),
{
    assert forall|x: Seq<char>| a.names().contains(x) <==> b.names().contains(x) by {
        assert(a.map().dom().contains(x) == a.names().contains(x));
        assert(b.map().dom().contains(x) == b.names().contains(x));
    }
    lemma_ascending_unique(a.names(), b.names());
    lemma_ascending_no_duplicates(a.names());
    let names = a.names();
    assert forall|i: int| 0 <= i < names.len() implies a.ids()[i] == b.ids()[i] by {
        let k = names[i];
        assert(names.contains(k));
        let j = names.index_of(k);
        assert(names[j] == k);
        assert(j == i);
        assert(a.map()[k] == a.ids()[i]);
        assert(b.map()[k] == b.ids()[i]);
    }
    assert(a.ids() =~= b.ids());
}

} // verus!
