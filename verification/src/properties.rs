//! Texts in ascending order: sets of names, and maps from names to values.

use vstd::prelude::*;

use crate::text;

verus! {

/// The characters of each text of a list.
pub open spec fn texts(list: Seq<String>) -> Seq<Seq<char>> {
    Seq::new(list.len(), |i: int| list[i]@)
}

/// Each text of the list comes strictly before those that follow it, so none occurs twice.
pub open spec fn ascending(list: Seq<Seq<char>>) -> bool {
    forall|i: int, j: int|
        0 <= i < j < list.len() ==> text::text_before(#[trigger] list[i], #[trigger] list[j])
}

/// How many texts of an ascending list come before `name`.
fn position(list: &Vec<String>, name: &str) -> (at: usize)
    requires
        ascending(texts(list@)),
    ensures
        at <= list@.len(),
        forall|i: int| 0 <= i < at ==> text::text_before(#[trigger] texts(list@)[i], name@),
        forall|i: int|
            at <= i < list@.len() ==> texts(list@)[i] == name@ || text::text_before(
                name@,
                #[trigger] texts(list@)[i],
            ),
        texts(list@).contains(name@) <==> at < list@.len() && texts(list@)[at as int] == name@,
        forall|i: int| at < i < list@.len() ==> text::text_before(name@, #[trigger] texts(list@)[i]),
{
    let ghost all = texts(list@);
    let mut at: usize = 0;
    while at < list.len() && text::comes_before(list[at].as_str(), name)
        invariant
            at <= list@.len(),
            all == texts(list@),
            forall|i: int| 0 <= i < at ==> text::text_before(#[trigger] all[i], name@),
        decreases list@.len() - at,
    {
        assert(all[at as int] == list@[at as int]@);
        at += 1;
    }
    proof {
        if at < list@.len() {
            assert(all[at as int] == list@[at as int]@);
            text::text_order_is_total(all[at as int], name@);
            assert forall|i: int| at < i < all.len() implies text::text_before(
                name@,
                #[trigger] all[i],
            ) by {
                assert(text::text_before(all[at as int], all[i]));
                if all[at as int] != name@ {
                    text::text_order_is_transitive(name@, all[at as int], all[i]);
                }
            }
        }
        assert(all.contains(name@) ==> at < all.len() && all[at as int] == name@) by {
            if all.contains(name@) {
                let i = choose|i: int| 0 <= i < all.len() && all[i] == name@;
                if text::text_before(name@, name@) {
                    text::text_order_is_strict(name@, name@);
                }
                assert(i == at);
            }
        }
    }
    at
}

/// Adds a name to an ascending list, unless the list holds it.
pub fn insert_name(list: &mut Vec<String>, name: String)
    requires
        ascending(texts(old(list)@)),
    ensures
        ascending(texts(final(list)@)),
        forall|other: Seq<char>| #[trigger]
            texts(final(list)@).contains(other) <==> texts(old(list)@).contains(other) || other
                == name@,
{
    let ghost before = texts(list@);
    let at = position(list, name.as_str());
    if at < list.len() && list[at] == name {
        assert(before[at as int] == name@);
        return ;
    }
    let ghost text = name@;
    list.insert(at, name);
    proof {
        let after = texts(list@);
        assert(after =~= before.insert(at as int, text));
        lemma_inserted(before, at as int, text);
    }
}

/// Inserting a text at its place keeps a list ascending and adds nothing else.
proof fn lemma_inserted(list: Seq<Seq<char>>, at: int, text: Seq<char>)
    requires
        ascending(list),
        0 <= at <= list.len(),
        forall|i: int| 0 <= i < at ==> text::text_before(#[trigger] list[i], text),
        forall|i: int| at <= i < list.len() ==> text::text_before(text, #[trigger] list[i]),
    ensures
        ascending(list.insert(at, text)),
        forall|other: Seq<char>| #[trigger]
            list.insert(at, text).contains(other) <==> list.contains(other) || other == text,
{
    let longer = list.insert(at, text);
    assert forall|i: int, j: int| 0 <= i < j < longer.len() implies text::text_before(
        #[trigger] longer[i],
        #[trigger] longer[j],
    ) by {
        let p = if i < at {
            i
        } else {
            i - 1
        };
        let q = if j < at {
            j
        } else {
            j - 1
        };
        if i != at && j != at {
            assert(text::text_before(list[p], list[q]));
        } else if i == at {
            assert(longer[j] == list[q]);
        } else {
            assert(longer[i] == list[p]);
        }
    }
    assert forall|other: Seq<char>| #[trigger] longer.contains(other) <==> list.contains(other)
        || other == text by {
        if longer.contains(other) && other != text {
            let i = choose|i: int| 0 <= i < longer.len() && longer[i] == other;
            assert(other == list[if i < at {
                i
            } else {
                i - 1
            }]);
        }
        if list.contains(other) {
            let i = choose|i: int| 0 <= i < list.len() && list[i] == other;
            assert(longer[if i < at {
                i
            } else {
                i + 1
            }] == other);
        }
        assert(longer[at] == text);
    }
}

/// The map from each name to the value at its place.
pub open spec fn map_of(names: Seq<Seq<char>>, values: Seq<Seq<char>>) -> Map<
    Seq<char>,
    Seq<char>,
> {
    Map::new(
        |name: Seq<char>| names.contains(name),
        |name: Seq<char>| values[names.index_of(name)],
    )
}

/// A map from names to values that is walked in ascending order of the names.
#[derive(Debug)]
pub struct PropertyMap {
    names: Vec<String>,
    values: Vec<String>,
}

impl View for PropertyMap {
    type V = Map<Seq<char>, Seq<char>>;

    open spec fn view(&self) -> Map<Seq<char>, Seq<char>> {
        map_of(self.name_list(), self.value_list())
    }
}

impl PropertyMap {
    /// The names, in the order in which the map is walked.
    pub closed spec fn name_list(&self) -> Seq<Seq<char>> {
        texts(self.names@)
    }

    /// The values, each at the place of its name.
    pub closed spec fn value_list(&self) -> Seq<Seq<char>> {
        texts(self.values@)
    }

    /// Every name has a value, and the names ascend.
    #[verifier::type_invariant]
    pub open spec fn well_formed(&self) -> bool {
        &&& self.name_list().len() == self.value_list().len()
        &&& ascending(self.name_list())
    }

    /// The map without any name.
    pub fn new() -> (map: Self)
        ensures
            map@ == Map::<Seq<char>, Seq<char>>::empty(),
            map.name_list() == Seq::<Seq<char>>::empty(),
            map.well_formed(),
    {
        let map = PropertyMap { names: Vec::new(), values: Vec::new() };
        assert(map.name_list() =~= Seq::empty());
        assert(map@ =~= Map::empty());
        map
    }

    /// How many names the map holds.
    pub fn len(&self) -> (length: usize)
        ensures
            length == self.name_list().len(),
            self.well_formed(),
    {
        proof {
            use_type_invariant(self);
        }
        self.names.len()
    }

    /// Whether the map holds no name.
    pub fn is_empty(&self) -> (empty: bool)
        ensures
            empty == (self.name_list().len() == 0),
            empty == (self@ == Map::<Seq<char>, Seq<char>>::empty()),
    {
        proof {
            if self.names@.len() == 0 {
                assert(self@ =~= Map::empty());
            } else {
                assert(self.name_list().contains(self.name_list()[0]));
                assert(self@.contains_key(self.name_list()[0]));
            }
        }
        self.names.len() == 0
    }

    /// The name at a place of the map's order.
    pub fn name(&self, at: usize) -> (name: &str)
        requires
            at < self.name_list().len(),
        ensures
            name@ == self.name_list()[at as int],
    {
        self.names[at].as_str()
    }

    /// The value at a place of the map's order.
    pub fn value(&self, at: usize) -> (value: &str)
        requires
            at < self.name_list().len(),
        ensures
            value@ == self.value_list()[at as int],
            value@ == self@[self.name_list()[at as int]],
    {
        proof {
            use_type_invariant(self);
            lemma_index_of(self.name_list(), at as int);
        }
        self.values[at].as_str()
    }

    /// Gives a name a value, and returns the value that it had before.
    pub fn insert(&mut self, name: String, value: String) -> (previous: Option<String>)
        ensures
            final(self)@ == old(self)@.insert(name@, value@),
            final(self).well_formed(),
            match previous {
                Some(previous) => old(self)@.contains_key(name@) && old(self)@[name@] == previous@,
                None => !old(self)@.contains_key(name@),
            },
    {
        proof {
            use_type_invariant(&*self);
        }
        let mut taken = PropertyMap { names: Vec::new(), values: Vec::new() };
        std::mem::swap(&mut taken, self);
        let PropertyMap { mut names, mut values } = taken;
        let ghost old_names = texts(names@);
        let ghost old_values = texts(values@);
        let at = position(&names, name.as_str());
        let mut previous: Option<String> = None;
        if at < names.len() && names[at] == name {
            proof {
                assert(old_names[at as int] == name@);
                lemma_map_update(old_names, old_values, at as int, value@);
                assert(old_values[at as int] == values@[at as int]@);
            }
            let ghost text = value@;
            previous = Some(values.remove(at));
            values.insert(at, value);
            assert(texts(values@) =~= old_values.update(at as int, text));
        } else {
            proof {
                assert(!old_names.contains(name@)) by {
                    if at < names@.len() {
                        assert(old_names[at as int] == names@[at as int]@);
                    }
                }
                lemma_inserted(old_names, at as int, name@);
                lemma_map_insert(old_names, old_values, at as int, name@, value@);
            }
            let ghost key = name@;
            let ghost text = value@;
            names.insert(at, name);
            values.insert(at, value);
            assert(texts(names@) =~= old_names.insert(at as int, key));
            assert(texts(values@) =~= old_values.insert(at as int, text));
        }
        *self = PropertyMap { names, values };
        previous
    }
}

/// Changing the value at a place changes what the name at that place maps to.
proof fn lemma_map_update(
    names: Seq<Seq<char>>,
    values: Seq<Seq<char>>,
    at: int,
    value: Seq<char>,
)
    requires
        ascending(names),
        names.len() == values.len(),
        0 <= at < names.len(),
    ensures
        map_of(names, values.update(at, value)) == map_of(names, values).insert(names[at], value),
        map_of(names, values).contains_key(names[at]),
        map_of(names, values)[names[at]] == values[at],
{
    lemma_index_of(names, at);
    assert(map_of(names, values.update(at, value)) =~= map_of(names, values).insert(
        names[at],
        value,
    ));
}

/// Inserting a name and a value at the same place adds that name and value to the map.
proof fn lemma_map_insert(
    names: Seq<Seq<char>>,
    values: Seq<Seq<char>>,
    at: int,
    name: Seq<char>,
    value: Seq<char>,
)
    requires
        ascending(names),
        ascending(names.insert(at, name)),
        names.len() == values.len(),
        0 <= at <= names.len(),
        !names.contains(name),
        forall|other: Seq<char>| #[trigger]
            names.insert(at, name).contains(other) <==> names.contains(other) || other == name,
    ensures
        map_of(names.insert(at, name), values.insert(at, value)) == map_of(names, values).insert(
            name,
            value,
        ),
{
    let longer = names.insert(at, name);
    let after = map_of(longer, values.insert(at, value));
    let expected = map_of(names, values).insert(name, value);
    assert forall|other: Seq<char>| #[trigger] longer.contains(other) implies after[other]
        == expected[other] by {
        if other == name {
            lemma_index_of(longer, at);
        } else {
            let i = names.index_of(other);
            assert(names.contains(other));
            let j = if i < at {
                i
            } else {
                i + 1
            };
            assert(longer[j] == other);
            lemma_index_of(longer, j);
        }
    }
    assert(after =~= expected);
}

/// A map gives each of its names the value at the place of the name, and knows no other names.
pub proof fn value_stands_at_its_name(map: PropertyMap, at: int)
    requires
        map.well_formed(),
        0 <= at < map.name_list().len(),
    ensures
        map@.contains_key(map.name_list()[at]),
        map@[map.name_list()[at]] == map.value_list()[at],
        forall|name: Seq<char>| #[trigger]
            map@.contains_key(name) ==> exists|i: int|
                0 <= i < map.name_list().len() && map.name_list()[i] == name,
{
    lemma_index_of(map.name_list(), at);
    assert(map.name_list().contains(map.name_list()[at]));
}

/// A text of an ascending list stands at one place only.
proof fn lemma_index_of(list: Seq<Seq<char>>, at: int)
    requires
        ascending(list),
        0 <= at < list.len(),
    ensures
        list.index_of(list[at]) == at,
{
    let other = list.index_of(list[at]);
    assert(list[other] == list[at] && 0 <= other < list.len());
    if other < at {
        text::text_order_is_strict(list[other], list[at]);
    } else if at < other {
        text::text_order_is_strict(list[at], list[other]);
    }
}

} // verus!
