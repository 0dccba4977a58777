//! A map from label names to label values that is walked in the order of the
//! names' bytes.

use crate::model;
use crate::model::{Label, LabelView};
use crate::text;
use crate::text::{text_eq, text_relation, Relation};
use vstd::prelude::*;

verus! {

/// Labels keyed by their name, kept in the order of the names.
#[derive(Debug, PartialEq, Eq)]
pub struct LabelMap {
    entries: Vec<Label>,
}

/// Whether each name comes before the next.
pub open spec fn strictly_sorted(s: Seq<LabelView>) -> bool {
    forall|i: int, j: int|
        #![trigger s[i], s[j]]
        0 <= i < j < s.len() ==> text::text_before(s[i].name, s[j].name)
}

/// The map that a list of labels stands for.
pub open spec fn map_of(s: Seq<LabelView>) -> Map<Seq<char>, Seq<char>> {
    Map::new(|k: Seq<char>| model::has_label(s, k), |k: Seq<char>| model::label_value(s, k))
}

/// In a sorted list each label is the first of its name.
pub proof fn lemma_sorted_lookup(s: Seq<LabelView>, i: int)
    requires
        strictly_sorted(s),
        0 <= i < s.len(),
    ensures
        model::first_named(s, s[i].name, 0) == i,
        map_of(s).contains_key(s[i].name),
        map_of(s)[s[i].name] == s[i].value,
{
    let f = model::first_named(s, s[i].name, 0);
    model::lemma_first_named(s, s[i].name, 0);
    if f < i {
        text::lemma_text_before_total(s[f].name, s[i].name);
    } else if f > i {
        assert(s[i].name != s[i].name);
    }
}

/// A name that no label has is not in the map.
proof fn lemma_absent(s: Seq<LabelView>, k: Seq<char>)
    requires
        forall|i: int| 0 <= i < s.len() ==> s[i].name != k,
    ensures
        !map_of(s).contains_key(k),
{
    model::lemma_first_named(s, k, 0);
}

/// A name of the map is that of some label.
proof fn lemma_present(s: Seq<LabelView>, k: Seq<char>) -> (i: int)
    requires
        map_of(s).contains_key(k),
    ensures
        0 <= i < s.len(),
        s[i].name == k,
        map_of(s)[k] == s[i].value,
{
    model::lemma_first_named(s, k, 0);
    model::first_named(s, k, 0)
}

/// Two sorted lists that stand for the same map are equal: the map alone
/// decides in which order its labels are walked.
pub proof fn lemma_entries_determined(a: Seq<LabelView>, b: Seq<LabelView>)
    requires
        strictly_sorted(a),
        strictly_sorted(b),
        map_of(a) == map_of(b),
    ensures
        a == b,
    decreases a.len() + b.len(),
{
    if a.len() == 0 {
        if b.len() > 0 {
            lemma_sorted_lookup(b, 0);
            let i = lemma_present(a, b[0].name);
        }
        assert(a =~= b);
    } else if b.len() == 0 {
        lemma_sorted_lookup(a, 0);
        let i = lemma_present(b, a[0].name);
    } else {
        let x = a.last();
        let y = b.last();
        lemma_sorted_lookup(a, a.len() - 1);
        lemma_sorted_lookup(b, b.len() - 1);
        let i = lemma_present(b, x.name);
        let j = lemma_present(a, y.name);
        text::lemma_text_before_total(x.name, y.name);
        if i < b.len() - 1 && j < a.len() - 1 {
            assert(text::text_before(b[i].name, b[b.len() - 1].name));
            assert(text::text_before(a[j].name, a[a.len() - 1].name));
        }
        assert(x == y);
        let a0 = a.drop_last();
        let b0 = b.drop_last();
        assert(strictly_sorted(a0));
        assert(strictly_sorted(b0));
        assert forall|k: Seq<char>| #[trigger]
            map_of(a0).dom().contains(k) == map_of(b0).dom().contains(k) && (map_of(
                b0,
            ).dom().contains(k) ==> map_of(a0)[k] == map_of(b0)[k]) by {
            if map_of(a0).contains_key(k) {
                let p = lemma_present(a0, k);
                lemma_sorted_lookup(a0, p);
                lemma_sorted_lookup(a, p);
                let q = lemma_present(b, k);
                assert(k != y.name) by {
                    lemma_sorted_lookup(a, p);
                }
                assert(b0[q] == b[q]);
                lemma_sorted_lookup(b0, q);
            } else if map_of(b0).contains_key(k) {
                let p = lemma_present(b0, k);
                lemma_sorted_lookup(b0, p);
                lemma_sorted_lookup(b, p);
                let q = lemma_present(a, k);
                assert(a0[q] == a[q]);
                lemma_sorted_lookup(a0, q);
            }
        }
        lemma_maps_agree(map_of(a0), map_of(b0));
        lemma_entries_determined(a0, b0);
        assert(a =~= a0.push(x));
        assert(b =~= b0.push(y));
    }
}

impl LabelMap {
    /// The labels in the order in which the map is walked.
    pub closed spec fn entries(&self) -> Seq<LabelView> {
        self.entries.deep_view()
    }

    #[verifier::type_invariant]
    spec fn well_formed(&self) -> bool {
        strictly_sorted(self.entries.deep_view())
    }

    /// An empty map.
    pub fn new() -> (r: Self)
        ensures
            r@ == Map::<Seq<char>, Seq<char>>::empty(),
            r.entries() == Seq::<LabelView>::empty(),
    {
        let r = LabelMap { entries: Vec::new() };
        assert(r.entries() =~= Seq::<LabelView>::empty());
        assert(r@ =~= Map::<Seq<char>, Seq<char>>::empty());
        r
    }

    /// The number of labels. The map is what its labels stand for, and they
    /// are walked in the order of their names.
    pub fn len(&self) -> (r: usize)
        ensures
            r == self.entries().len(),
            self@ == map_of(self.entries()),
            strictly_sorted(self.entries()),
    {
        proof {
            use_type_invariant(self);
        }
        self.entries.len()
    }

    /// Whether the map holds no label.
    pub fn is_empty(&self) -> (r: bool)
        ensures
            r == (self.entries().len() == 0),
    {
        self.entries.len() == 0
    }

    /// The label at position `i` of the walk.
    pub fn entry(&self, i: usize) -> (r: &Label)
        requires
            i < self.entries().len(),
        ensures
            r.deep_view() == self.entries()[i as int],
    {
        &self.entries[i]
    }

    /// The first position whose name does not come before `key`, and whether
    /// it holds `key`.
    fn find(&self, key: &str) -> (r: (usize, bool))
        ensures
            r.0 <= self.entries().len(),
            forall|i: int|
                0 <= i < r.0 ==> text::text_before((#[trigger] self.entries()[i]).name, key@),
            r.1 ==> r.0 < self.entries().len() && self.entries()[r.0 as int].name == key@,
            !r.1 ==> forall|i: int|
                r.0 <= i < self.entries().len() ==> text::text_before(
                    key@,
                    (#[trigger] self.entries()[i]).name,
                ),
            r.1 == self@.contains_key(key@),
            r.1 ==> self@[key@] == self.entries()[r.0 as int].value,
    {
        proof {
            use_type_invariant(self);
        }
        let ghost s = self.entries();
        let mut p: usize = 0;
        while p < self.entries.len()
            invariant
                s == self.entries.deep_view(),
                s == self.entries(),
                strictly_sorted(s),
                p <= s.len(),
                forall|i: int| 0 <= i < p ==> text::text_before((#[trigger] s[i]).name, key@),
            decreases s.len() - p,
        {
            match text_relation(self.entries[p].name.as_str(), key) {
                Relation::Less => {
                    p += 1;
                },
                Relation::Equal => {
                    proof {
                        lemma_sorted_lookup(s, p as int);
                    }
                    return (p, true);
                },
                Relation::Greater => {
                    proof {
                        assert forall|i: int| p <= i < s.len() implies text::text_before(
                            key@,
                            (#[trigger] s[i]).name,
                        ) by {
                            if i > p {
                                text::lemma_text_before_transitive(
                                    key@,
                                    s[p as int].name,
                                    s[i].name,
                                );
                            }
                        }
                        lemma_not_found(s, key@, p as int);
                    }
                    return (p, false);
                },
            }
        }
        proof {
            lemma_not_found(s, key@, p as int);
        }
        (p, false)
    }

    /// The value of `key`.
    pub fn get(&self, key: &str) -> (r: Option<&String>)
        ensures
            match r {
                Some(value) => self@.contains_key(key@) && value@ == self@[key@],
                None => !self@.contains_key(key@),
            },
    {
        let (p, found) = self.find(key);
        if found {
            Some(&self.entries[p].value)
        } else {
            None
        }
    }

    /// Whether the map holds `key`.
    pub fn contains_key(&self, key: &str) -> (r: bool)
        ensures
            r == self@.contains_key(key@),
    {
        self.find(key).1
    }

    /// Sets the value of `key`.
    pub fn insert(&mut self, key: String, value: String)
        ensures
            final(self)@ == old(self)@.insert(key@, value@),
    {
        let (p, found) = self.find(key.as_str());
        let ghost s = self.entries();
        proof {
            use_type_invariant(&*self);
        }
        let mut entries: Vec<Label> = Vec::new();
        std::mem::swap(&mut entries, &mut self.entries);
        let label = Label { name: key, value };
        let ghost x = label.deep_view();
        if found {
            entries.set(p, label);
            proof {
                assert(entries.deep_view() =~= s.update(p as int, x));
                lemma_replaced(s, p as int, x);
            }
        } else {
            entries.insert(p, label);
            proof {
                assert(entries.deep_view() =~= s.insert(p as int, x));
                lemma_inserted(s, p as int, x);
            }
        }
        self.entries = entries;
    }

    /// Sets the value of `key` unless it has one.
    pub fn insert_if_absent(&mut self, key: String, value: String)
        ensures
            final(self)@ == if old(self)@.contains_key(key@) {
                old(self)@
            } else {
                old(self)@.insert(key@, value@)
            },
    {
        if !self.contains_key(key.as_str()) {
            self.insert(key, value);
        }
    }

    /// Takes `key` out of the map.
    pub fn remove(&mut self, key: &str) -> (r: Option<String>)
        ensures
            final(self)@ == old(self)@.remove(key@),
            match r {
                Some(value) => old(self)@.contains_key(key@) && value@ == old(self)@[key@],
                None => !old(self)@.contains_key(key@),
            },
    {
        let (p, found) = self.find(key);
        if !found {
            assert(self@ =~= self@.remove(key@));
            return None;
        }
        let ghost s = self.entries();
        proof {
            use_type_invariant(&*self);
        }
        let mut entries: Vec<Label> = Vec::new();
        std::mem::swap(&mut entries, &mut self.entries);
        let label = entries.remove(p);
        proof {
            assert(entries.deep_view() =~= s.remove(p as int));
            lemma_removed(s, p as int);
        }
        self.entries = entries;
        Some(label.value)
    }

    /// Sets every label of `other`.
    pub fn extend(&mut self, other: &LabelMap)
        ensures
            final(self)@ == old(self)@.union_prefer_right(other@),
    {
        let ghost start = self@;
        proof {
            use_type_invariant(other);
            assert(map_of(other.entries().take(0)) =~= Map::<Seq<char>, Seq<char>>::empty());
            assert(self@ =~= start.union_prefer_right(map_of(other.entries().take(0))));
        }
        let mut i: usize = 0;
        while i < other.len()
            invariant
                i <= other.entries().len(),
                strictly_sorted(other.entries()),
                self@ == start.union_prefer_right(map_of(other.entries().take(i as int))),
            decreases other.entries().len() - i,
        {
            let label = other.entry(i);
            self.insert(label.name.clone(), label.value.clone());
            proof {
                lemma_take_grows(other.entries(), i as int);
                assert(self@ =~= start.union_prefer_right(
                    map_of(other.entries().take(i as int + 1)),
                ));
            }
            i += 1;
        }
        assert(other.entries().take(i as int) =~= other.entries());
    }

    /// Sets every label of `other` whose name has no value yet.
    pub fn extend_if_absent(&mut self, other: &LabelMap)
        ensures
            final(self)@ == other@.union_prefer_right(old(self)@),
    {
        let ghost start = self@;
        proof {
            use_type_invariant(other);
            assert(map_of(other.entries().take(0)) =~= Map::<Seq<char>, Seq<char>>::empty());
            assert(self@ =~= map_of(other.entries().take(0)).union_prefer_right(start));
        }
        let mut i: usize = 0;
        while i < other.len()
            invariant
                i <= other.entries().len(),
                strictly_sorted(other.entries()),
                self@ == map_of(other.entries().take(i as int)).union_prefer_right(start),
            decreases other.entries().len() - i,
        {
            let label = other.entry(i);
            self.insert_if_absent(label.name.clone(), label.value.clone());
            proof {
                lemma_take_grows(other.entries(), i as int);
                assert(self@ =~= map_of(other.entries().take(i as int + 1)).union_prefer_right(
                    start,
                ));
            }
            i += 1;
        }
        assert(other.entries().take(i as int) =~= other.entries());
    }

    /// Whether two maps hold the same labels.
    pub fn same(&self, other: &LabelMap) -> (r: bool)
        ensures
            r == (self@ == other@),
            r == (self.entries() == other.entries()),
    {
        proof {
            use_type_invariant(self);
            use_type_invariant(other);
            if self@ == other@ {
                lemma_entries_determined(self.entries(), other.entries());
            }
        }
        if self.entries.len() != other.entries.len() {
            return false;
        }
        let mut i: usize = 0;
        while i < self.entries.len()
            invariant
                i <= self.entries@.len() == other.entries@.len(),
                self@ == other@ ==> self.entries() == other.entries(),
                self.entries() == self.entries.deep_view(),
                other.entries() == other.entries.deep_view(),
                forall|j: int| 0 <= j < i ==> self.entries()[j] == other.entries()[j],
            decreases self.entries@.len() - i,
        {
            if !text_eq(self.entries[i].name.as_str(), other.entries[i].name.as_str())
                || !text_eq(self.entries[i].value.as_str(), other.entries[i].value.as_str()) {
                assert(self.entries()[i as int] != other.entries()[i as int]);
                assert(self.entries() != other.entries());
                return false;
            }
            i += 1;
        }
        assert(self.entries() =~= other.entries());
        true
    }
}

impl View for LabelMap {
    type V = Map<Seq<char>, Seq<char>>;

    closed spec fn view(&self) -> Map<Seq<char>, Seq<char>> {
        map_of(self.entries.deep_view())
    }
}

impl Clone for LabelMap {
    fn clone(&self) -> (r: Self)
        ensures
            r@ == self@,
            r.entries() == self.entries(),
    {
        proof {
            use_type_invariant(self);
        }
        let entries = self.entries.clone();
        assert(entries.deep_view() =~= self.entries.deep_view());
        LabelMap { entries }
    }
}

impl DeepView for LabelMap {
    type V = Map<Seq<char>, Seq<char>>;

    open spec fn deep_view(&self) -> Map<Seq<char>, Seq<char>> {
        self@
    }
}

impl Default for LabelMap {
    fn default() -> (r: Self)
        ensures
            r@ == Map::<Seq<char>, Seq<char>>::empty(),
    {
        LabelMap::new()
    }
}

/// Maps with the same keys and the same values are equal.
proof fn lemma_maps_agree(a: Map<Seq<char>, Seq<char>>, b: Map<Seq<char>, Seq<char>>)
    requires
        forall|k: Seq<char>| #[trigger]
            a.dom().contains(k) == b.dom().contains(k) && (b.dom().contains(k) ==> a[k] == b[k]),
    ensures
        a == b,
{
    assert(a.dom() =~= b.dom());
    assert(a =~= b);
}

proof fn lemma_not_found(s: Seq<LabelView>, k: Seq<char>, p: int)
    requires
        0 <= p <= s.len(),
        forall|i: int| 0 <= i < p ==> text::text_before((#[trigger] s[i]).name, k),
        forall|i: int| p <= i < s.len() ==> text::text_before(k, (#[trigger] s[i]).name),
    ensures
        !map_of(s).contains_key(k),
{
    assert forall|i: int| 0 <= i < s.len() implies s[i].name != k by {
        text::lemma_text_before_total(s[i].name, k);
    }
    lemma_absent(s, k);
}

proof fn lemma_replaced(s: Seq<LabelView>, p: int, x: LabelView)
    requires
        strictly_sorted(s),
        0 <= p < s.len(),
        s[p].name == x.name,
    ensures
        strictly_sorted(s.update(p, x)),
        map_of(s.update(p, x)) == map_of(s).insert(x.name, x.value),
{
    let t = s.update(p, x);
    assert forall|i: int, j: int| #![trigger t[i], t[j]] 0 <= i < j < t.len() implies
        text::text_before(t[i].name, t[j].name) by {
        assert(text::text_before(s[i].name, s[j].name));
    }
    lemma_sorted_lookup(t, p);
    let m = map_of(s).insert(x.name, x.value);
    assert forall|k: Seq<char>| #[trigger]
        map_of(t).dom().contains(k) == m.dom().contains(k) && (m.dom().contains(k) ==> map_of(
            t,
        )[k] == m[k]) by {
        if k != x.name && map_of(s).contains_key(k) {
            let i = lemma_present(s, k);
            assert(t[i] == s[i]);
            lemma_sorted_lookup(t, i);
        }
        if k != x.name && map_of(t).contains_key(k) {
            let i = lemma_present(t, k);
            assert(t[i] == s[i]);
            lemma_sorted_lookup(s, i);
        }
    }
    lemma_maps_agree(map_of(t), m);
}

proof fn lemma_inserted(s: Seq<LabelView>, p: int, x: LabelView)
    requires
        strictly_sorted(s),
        0 <= p <= s.len(),
        forall|i: int| 0 <= i < p ==> text::text_before((#[trigger] s[i]).name, x.name),
        forall|i: int| p <= i < s.len() ==> text::text_before(x.name, (#[trigger] s[i]).name),
    ensures
        strictly_sorted(s.insert(p, x)),
        map_of(s.insert(p, x)) == map_of(s).insert(x.name, x.value),
{
    let t = s.insert(p, x);
    assert forall|i: int, j: int| #![trigger t[i], t[j]] 0 <= i < j < t.len() implies
        text::text_before(t[i].name, t[j].name) by {
        let a = if i < p { i } else { i - 1 };
        let b = if j < p { j } else { j - 1 };
        if i != p {
            assert(t[i] == s[a]);
        }
        if j != p {
            assert(t[j] == s[b]);
        }
    }
    assert(t[p] == x);
    lemma_sorted_lookup(t, p);
    let m = map_of(s).insert(x.name, x.value);
    assert forall|k: Seq<char>| #[trigger]
        map_of(t).dom().contains(k) == m.dom().contains(k) && (m.dom().contains(k) ==> map_of(
            t,
        )[k] == m[k]) by {
        if k != x.name && map_of(s).contains_key(k) {
            let i = lemma_present(s, k);
            let j = if i < p { i } else { i + 1 };
            assert(t[j] == s[i]);
            lemma_sorted_lookup(t, j);
        }
        if k != x.name && map_of(t).contains_key(k) {
            let j = lemma_present(t, k);
            let i = if j < p { j } else { j - 1 };
            assert(t[j] == s[i]);
            lemma_sorted_lookup(s, i);
        }
    }
    lemma_maps_agree(map_of(t), m);
}

proof fn lemma_removed(s: Seq<LabelView>, p: int)
    requires
        strictly_sorted(s),
        0 <= p < s.len(),
    ensures
        strictly_sorted(s.remove(p)),
        map_of(s.remove(p)) == map_of(s).remove(s[p].name),
{
    let t = s.remove(p);
    assert forall|i: int, j: int| #![trigger t[i], t[j]] 0 <= i < j < t.len() implies
        text::text_before(t[i].name, t[j].name) by {
        let a = if i < p { i } else { i + 1 };
        let b = if j < p { j } else { j + 1 };
        assert(t[i] == s[a] && t[j] == s[b]);
    }
    assert forall|i: int| 0 <= i < t.len() implies t[i].name != s[p].name by {
        let a = if i < p { i } else { i + 1 };
        assert(t[i] == s[a]);
        text::lemma_text_before_total(s[a].name, s[p].name);
    }
    lemma_absent(t, s[p].name);
    let m = map_of(s).remove(s[p].name);
    assert forall|k: Seq<char>| #[trigger]
        map_of(t).dom().contains(k) == m.dom().contains(k) && (m.dom().contains(k) ==> map_of(
            t,
        )[k] == m[k]) by {
        if k != s[p].name && map_of(s).contains_key(k) {
            let i = lemma_present(s, k);
            let j = if i < p { i } else { i - 1 };
            assert(t[j] == s[i]);
            lemma_sorted_lookup(t, j);
        }
        if k != s[p].name && map_of(t).contains_key(k) {
            let j = lemma_present(t, k);
            let i = if j < p { j } else { j + 1 };
            assert(t[j] == s[i]);
            lemma_sorted_lookup(s, i);
        }
    }
    lemma_maps_agree(map_of(t), m);
}

/// The map of the first labels grows by one label at a time.
proof fn lemma_take_grows(s: Seq<LabelView>, i: int)
    requires
        strictly_sorted(s),
        0 <= i < s.len(),
    ensures
        map_of(s.take(i + 1)) == map_of(s.take(i)).insert(s[i].name, s[i].value),
        !map_of(s.take(i)).contains_key(s[i].name),
{
    let a = s.take(i);
    let t = s.take(i + 1);
    assert(strictly_sorted(a));
    assert(a.insert(i, s[i]) =~= t);
    lemma_inserted(a, i, s[i]);
    assert forall|j: int| 0 <= j < a.len() implies a[j].name != s[i].name by {
        assert(a[j] == s[j]);
        text::lemma_text_before_total(s[j].name, s[i].name);
    }
    lemma_absent(a, s[i].name);
}

/// What a map holds under a name is what its entry of that name holds.
pub proof fn lemma_entries_held(map: LabelMap, name: Seq<char>)
    ensures
        map@.contains_key(name) <==> model::has_label(map.entries(), name),
        map@.contains_key(name) ==> map@[name] == model::label_value(map.entries(), name),
{
}

} // verus!
