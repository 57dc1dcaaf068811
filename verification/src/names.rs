//! A map from names to values, kept in the order of the names.

use vstd::prelude::*;

use crate::text;

verus! {

// ---------------------------------------------------------------------------
// The order of names
// ---------------------------------------------------------------------------

/// `a` comes before `b` in the dictionary order of their code points.
pub open spec fn precedes(a: Seq<char>, b: Seq<char>) -> bool
    decreases a.len(),
{
    if b.len() == 0 {
        false
    } else if a.len() == 0 {
        true
    } else if a[0] != b[0] {
        a[0] < b[0]
    } else {
        precedes(a.drop_first(), b.drop_first())
    }
}

/// The order is total, and no name comes before itself.
pub proof fn lemma_precedes_total(a: Seq<char>, b: Seq<char>)
    ensures
        precedes(a, b) || precedes(b, a) || a == b,
        !(precedes(a, b) && precedes(b, a)),
        a == b ==> !precedes(a, b),
    decreases a.len(),
{
    if a.len() > 0 && b.len() > 0 {
        lemma_precedes_total(a.drop_first(), b.drop_first());
        if a[0] == b[0] && a.drop_first() == b.drop_first() {
            assert(a == seq![a[0]] + a.drop_first());
            assert(b == seq![b[0]] + b.drop_first());
        }
    } else {
        assert(a.len() == 0 && b.len() == 0 ==> a == b);
    }
}

/// The order is transitive.
pub proof fn lemma_precedes_transitive(a: Seq<char>, b: Seq<char>, c: Seq<char>)
    requires
        precedes(a, b),
        precedes(b, c),
    ensures
        precedes(a, c),
    decreases a.len(),
{
    if a.len() > 0 && b.len() > 0 && c.len() > 0 && a[0] == b[0] && b[0] == c[0] {
        lemma_precedes_transitive(a.drop_first(), b.drop_first(), c.drop_first());
    }
}

/// How one name stands to another.
enum Standing {
    Before,
    Same,
    After,
}

/// How `a` stands to `b` in the order of names.
fn standing(a: &str, b: &str) -> (result: Standing)
    ensures
        match result {
            Standing::Before => precedes(a@, b@),
            Standing::Same => a@ == b@,
            Standing::After => precedes(b@, a@),
        },
{
    let left = text::chars_of(a);
    let right = text::chars_of(b);
    let mut i: usize = 0;
    assert(left@.skip(0) == left@);
    assert(right@.skip(0) == right@);
    while i < left.len() && i < right.len()
        invariant
            left@ == a@,
            right@ == b@,
            i <= left@.len(),
            i <= right@.len(),
            left@.take(i as int) == right@.take(i as int),
            precedes(a@, b@) == precedes(left@.skip(i as int), right@.skip(i as int)),
            precedes(b@, a@) == precedes(right@.skip(i as int), left@.skip(i as int)),
        decreases left@.len() - i,
    {
        if left[i] < right[i] {
            return Standing::Before;
        }
        if left[i] > right[i] {
            return Standing::After;
        }
        assert(left@.skip(i as int).drop_first() == left@.skip(i + 1));
        assert(right@.skip(i as int).drop_first() == right@.skip(i + 1));
        assert(left@.take(i + 1) == left@.take(i as int).push(left@[i as int]));
        assert(right@.take(i + 1) == right@.take(i as int).push(right@[i as int]));
        i += 1;
    }
    if i < right.len() {
        Standing::Before
    } else if i < left.len() {
        Standing::After
    } else {
        assert(left@.take(i as int) == left@);
        assert(right@.take(i as int) == right@);
        Standing::Same
    }
}

// ---------------------------------------------------------------------------
// The map
// ---------------------------------------------------------------------------

/// A value that may be kept under some names and not under others.
pub trait Filed: View {
    /// The value may be kept under `name`.
    spec fn filed_under(&self, name: Seq<char>) -> bool;

    /// A copy of the value.
    fn duplicate(&self) -> (copy: Self) where Self: Sized
        ensures
            copy@ == self@,
            forall|name: Seq<char>| copy.filed_under(name) == self.filed_under(name),
    ;
}

/// `listing` lists what `map` holds, in the order of the names.
pub open spec fn lists<W>(listing: Seq<(Seq<char>, W)>, map: Map<Seq<char>, W>) -> bool {
    &&& forall|i: int, j: int|
        0 <= i < j < listing.len() ==> precedes(#[trigger] listing[i].0, #[trigger] listing[j].0)
    &&& forall|i: int|
        0 <= i < listing.len() ==> #[trigger] map.contains_key(listing[i].0) && map[listing[i].0]
            == listing[i].1
    &&& forall|name: Seq<char>| #[trigger]
        map.contains_key(name) ==> exists|i: int|
            0 <= i < listing.len() && (#[trigger] listing[i]).0 == name
}

/// A map from names to values, kept in the order of the names.
#[derive(Debug)]
pub struct NameMap<V: Filed> {
    entries: Vec<(String, V)>,
}

/// The names in `entries` are in order, without a repetition.
spec fn in_order<V: Filed>(entries: Seq<(String, V)>) -> bool {
    forall|i: int, j: int|
        0 <= i < j < entries.len() ==> precedes(#[trigger] entries[i].0@, #[trigger] entries[j].0@)
}

/// Every value in `entries` may be kept under its name.
spec fn all_filed<V: Filed>(entries: Seq<(String, V)>) -> bool {
    forall|i: int|
        0 <= i < entries.len() ==> (#[trigger] entries[i]).1.filed_under(entries[i].0@)
}

/// The entry at `i` is kept under `name`.
spec fn is_entry<V: Filed>(entries: Seq<(String, V)>, name: Seq<char>, i: int) -> bool {
    0 <= i < entries.len() && entries[i].0@ == name
}

/// The map that `entries` list.
spec fn map_of<V: Filed>(entries: Seq<(String, V)>) -> Map<Seq<char>, V::V> {
    Map::new(
        |name: Seq<char>| exists|i: int| is_entry(entries, name, i),
        |name: Seq<char>| entries[choose|i: int| is_entry(entries, name, i)].1@,
    )
}

/// An entry of an ordered list is what the map holds under its name.
proof fn lemma_entry<V: Filed>(entries: Seq<(String, V)>, i: int)
    requires
        in_order(entries),
        0 <= i < entries.len(),
    ensures
        map_of(entries).contains_key(entries[i].0@),
        map_of(entries)[entries[i].0@] == entries[i].1@,
{
    let name = entries[i].0@;
    assert(is_entry(entries, name, i));
    let k = choose|k: int| is_entry(entries, name, k);
    lemma_precedes_total(entries[i].0@, entries[k].0@);
    if k < i {
        assert(precedes(entries[k].0@, entries[i].0@));
    } else if i < k {
        assert(precedes(entries[i].0@, entries[k].0@));
    }
}

impl<V: Filed> View for NameMap<V> {
    type V = Map<Seq<char>, V::V>;

    /// The map from names to the views of the values.
    closed spec fn view(&self) -> Map<Seq<char>, V::V> {
        map_of(self.entries@)
    }
}

impl<V: Filed> NameMap<V> {
    #[verifier::type_invariant]
    spec fn well_formed(self) -> bool {
        in_order(self.entries@) && all_filed(self.entries@)
    }

    /// The names and the views of their values, in the order of the names.
    pub closed spec fn listing(&self) -> Seq<(Seq<char>, V::V)> {
        Seq::new(self.entries@.len(), |i: int| (self.entries@[i].0@, self.entries@[i].1@))
    }

    /// A map without names.
    pub fn new() -> (map: Self)
        ensures
            map@ == Map::<Seq<char>, V::V>::empty(),
    {
        let map = NameMap { entries: Vec::new() };
        assert(map@ =~= Map::<Seq<char>, V::V>::empty());
        map
    }

    /// Where `name` stands among the names, and whether it is one of them.
    fn locate(&self, name: &str) -> (place: (usize, bool))
        ensures
            place.0 <= self.entries@.len(),
            forall|i: int| 0 <= i < place.0 ==> precedes(#[trigger] self.entries@[i].0@, name@),
            place.1 ==> is_entry(self.entries@, name@, place.0 as int),
            !place.1 ==> forall|i: int|
                place.0 <= i < self.entries@.len() ==> precedes(
                    name@,
                    #[trigger] self.entries@[i].0@,
                ),
            place.1 == self@.contains_key(name@),
    {
        proof {
            use_type_invariant(self);
        }
        let mut low: usize = 0;
        let mut high: usize = self.entries.len();
        while low < high
            invariant
                in_order(self.entries@),
                low <= high <= self.entries@.len(),
                forall|i: int| 0 <= i < low ==> precedes(#[trigger] self.entries@[i].0@, name@),
                forall|i: int|
                    high <= i < self.entries@.len() ==> precedes(
                        name@,
                        #[trigger] self.entries@[i].0@,
                    ),
            decreases high - low,
        {
            let middle: usize = low + (high - low) / 2;
            match standing(&self.entries[middle].0, name) {
                Standing::Before => {
                    proof {
                        assert forall|i: int| 0 <= i < middle + 1 implies precedes(
                            #[trigger] self.entries@[i].0@,
                            name@,
                        ) by {
                            if i < middle {
                                lemma_precedes_transitive(
                                    self.entries@[i].0@,
                                    self.entries@[middle as int].0@,
                                    name@,
                                );
                            }
                        }
                    }
                    low = middle + 1;
                },
                Standing::Same => {
                    proof {
                        assert(is_entry(self.entries@, name@, middle as int));
                        lemma_entry(self.entries@, middle as int);
                        assert forall|i: int| 0 <= i < middle implies precedes(
                            #[trigger] self.entries@[i].0@,
                            name@,
                        ) by {
                            assert(precedes(
                                self.entries@[i].0@,
                                self.entries@[middle as int].0@,
                            ));
                        }
                    }
                    return (middle, true);
                },
                Standing::After => {
                    proof {
                        assert forall|i: int| middle <= i < self.entries@.len() implies precedes(
                            name@,
                            #[trigger] self.entries@[i].0@,
                        ) by {
                            if i > middle {
                                lemma_precedes_transitive(
                                    name@,
                                    self.entries@[middle as int].0@,
                                    self.entries@[i].0@,
                                );
                            }
                        }
                    }
                    high = middle;
                },
            }
        }
        proof {
            assert forall|i: int| !is_entry(self.entries@, name@, i) by {
                if is_entry(self.entries@, name@, i) {
                    lemma_precedes_total(self.entries@[i].0@, name@);
                }
            }
        }
        (low, false)
    }

    /// Keeps `value` under `name`, in place of what was kept there before.
    pub fn insert(&mut self, name: String, value: V)
        requires
            value.filed_under(name@),
        ensures
            final(self)@ == old(self)@.insert(name@, value@),
    {
        proof {
            use_type_invariant(&*self);
        }
        let (at, found) = self.locate(&name);
        let mut entries: Vec<(String, V)> = Vec::new();
        std::mem::swap(&mut entries, &mut self.entries);
        let ghost before = entries@;
        let ghost entry = (name, value);
        if found {
            entries.set(at, (name, value));
            proof {
                assert(entries@ == before.update(at as int, entry));
                assert forall|i: int, j: int| 0 <= i < j < entries@.len() implies precedes(
                    #[trigger] entries@[i].0@,
                    #[trigger] entries@[j].0@,
                ) by {
                    assert(entries@[i].0@ == before[i].0@);
                    assert(entries@[j].0@ == before[j].0@);
                }
            }
        } else {
            entries.insert(at, (name, value));
            proof {
                assert(entries@ == before.insert(at as int, entry));
                assert forall|i: int, j: int| 0 <= i < j < entries@.len() implies precedes(
                    #[trigger] entries@[i].0@,
                    #[trigger] entries@[j].0@,
                ) by {
                    let left = if i < at { i } else { i - 1 };
                    let right = if j < at { j } else { j - 1 };
                    if i != at {
                        assert(entries@[i] == before[left]);
                    }
                    if j != at {
                        assert(entries@[j] == before[right]);
                    }
                }
            }
        }
        proof {
            lemma_inserted(before, entries@, at as int, entry);
            assert forall|i: int| 0 <= i < entries@.len() implies (
            #[trigger] entries@[i]).1.filed_under(entries@[i].0@) by {
                if i != at {
                    let k = if found || i < at { i } else { i - 1 };
                    assert(entries@[i] == before[k]);
                }
            }
        }
        self.entries = entries;
    }

    /// What is kept under `name`.
    pub fn get(&self, name: &str) -> (value: Option<&V>)
        ensures
            match value {
                Some(found) => self@.contains_key(name@) && found@ == self@[name@]
                    && found.filed_under(name@),
                None => !self@.contains_key(name@),
            },
    {
        proof {
            use_type_invariant(self);
        }
        let (at, found) = self.locate(name);
        if found {
            proof {
                lemma_entry(self.entries@, at as int);
            }
            Some(&self.entries[at].1)
        } else {
            None
        }
    }

    /// True when something is kept under `name`.
    pub fn contains_key(&self, name: &str) -> (answer: bool)
        ensures
            answer == self@.contains_key(name@),
    {
        self.locate(name).1
    }

    /// Forgets every name.
    pub fn clear(&mut self)
        ensures
            final(self)@ == Map::<Seq<char>, V::V>::empty(),
    {
        self.entries = Vec::new();
        assert(self@ =~= Map::<Seq<char>, V::V>::empty());
    }

    /// The number of names.
    pub fn len(&self) -> (count: usize)
        ensures
            count == self.listing().len(),
            lists(self.listing(), self@),
    {
        proof {
            use_type_invariant(self);
            assert forall|i: int| 0 <= i < self.listing().len() implies #[trigger]
            self@.contains_key(self.listing()[i].0) && self@[self.listing()[i].0]
                == self.listing()[i].1 by {
                lemma_entry(self.entries@, i);
            }
            assert forall|name: Seq<char>| #[trigger] self@.contains_key(name) implies exists|i: int|

                0 <= i < self.listing().len() && (#[trigger] self.listing()[i]).0 == name by {
                let i = choose|i: int| is_entry(self.entries@, name, i);
                assert(self.listing()[i].0 == name);
            }
        }
        self.entries.len()
    }

    /// The name and the value at `i` in the order of the names.
    pub fn entry(&self, i: usize) -> (entry: (&String, &V))
        requires
            i < self.listing().len(),
        ensures
            entry.0@ == self.listing()[i as int].0,
            entry.1@ == self.listing()[i as int].1,
            entry.1.filed_under(entry.0@),
    {
        proof {
            use_type_invariant(self);
        }
        let entry = &self.entries[i];
        (&entry.0, &entry.1)
    }
}

impl<V: Filed> Clone for NameMap<V> {
    fn clone(&self) -> (copy: Self)
        ensures
            copy@ == self@,
    {
        proof {
            use_type_invariant(self);
        }
        let mut entries: Vec<(String, V)> = Vec::new();
        let mut i: usize = 0;
        while i < self.entries.len()
            invariant
                in_order(self.entries@),
                all_filed(self.entries@),
                i <= self.entries@.len(),
                entries@.len() == i,
                forall|k: int|
                    0 <= k < i ==> (#[trigger] entries@[k]).0@ == self.entries@[k].0@
                        && entries@[k].1@ == self.entries@[k].1@ && entries@[k].1.filed_under(
                        entries@[k].0@,
                    ),
            decreases self.entries@.len() - i,
        {
            let entry = &self.entries[i];
            entries.push((entry.0.clone(), entry.1.duplicate()));
            i += 1;
        }
        proof {
            assert forall|i: int, j: int| 0 <= i < j < entries@.len() implies precedes(
                #[trigger] entries@[i].0@,
                #[trigger] entries@[j].0@,
            ) by {
                assert(precedes(self.entries@[i].0@, self.entries@[j].0@));
            }
            let old_map = map_of(self.entries@);
            let new_map = map_of(entries@);
            assert forall|name: Seq<char>| #![trigger new_map.dom().contains(name)]
                #![trigger old_map.dom().contains(name)]
                new_map.dom().contains(name) == old_map.dom().contains(name)
                && (old_map.dom().contains(name) ==> new_map[name] == old_map[name]) by {
                if new_map.dom().contains(name) {
                    let i = choose|i: int| is_entry(entries@, name, i);
                    assert(is_entry(self.entries@, name, i));
                    lemma_entry(entries@, i);
                    lemma_entry(self.entries@, i);
                }
                if old_map.dom().contains(name) {
                    let i = choose|i: int| is_entry(self.entries@, name, i);
                    assert(is_entry(entries@, name, i));
                }
            }
            assert(new_map.dom() =~= old_map.dom());
            assert(new_map =~= old_map);
        }
        NameMap { entries }
    }
}

/// Setting or adding one entry of an ordered list is inserting into its map.
proof fn lemma_inserted<V: Filed>(
    before: Seq<(String, V)>,
    after: Seq<(String, V)>,
    at: int,
    entry: (String, V),
)
    requires
        in_order(before),
        in_order(after),
        ({
            ||| is_entry(before, entry.0@, at) && after == before.update(at, entry)
            ||| 0 <= at <= before.len() && after == before.insert(at, entry)
        }),
    ensures
        map_of(after) == map_of(before).insert(entry.0@, entry.1@),
{
    let expected = map_of(before).insert(entry.0@, entry.1@);
    assert(after[at] == entry);
    lemma_entry(after, at);
    let actual = map_of(after);
    assert forall|name: Seq<char>| #![trigger actual.dom().contains(name)]
        #![trigger expected.dom().contains(name)]
        actual.dom().contains(name) == expected.dom().contains(name) && (expected.dom().contains(
        name,
    ) ==> actual[name] == expected[name]) by {
        if name != entry.0@ {
            if map_of(after).contains_key(name) {
                let i = choose|i: int| is_entry(after, name, i);
                let k = if after.len() == before.len() || i < at { i } else { i - 1 };
                assert(after[i] == before[k]);
                assert(is_entry(before, name, k));
                lemma_entry(after, i);
                lemma_entry(before, k);
            }
            if map_of(before).contains_key(name) {
                let k = choose|k: int| is_entry(before, name, k);
                let i = if after.len() == before.len() || k < at { k } else { k + 1 };
                assert(after[i] == before[k]);
                assert(is_entry(after, name, i));
                lemma_entry(after, i);
                lemma_entry(before, k);
            }
        }
    }
    assert(actual.dom() =~= expected.dom());
    assert(actual =~= expected);
}

}
