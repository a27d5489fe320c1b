//! Property values and objects: the data model of the store.

use vstd::prelude::*;

use crate::text::str_eq;

verus! {

/// All possible types that can be stored inside an [`Object`]: 64-bit signed
/// integers and UTF-8 strings.
#[derive(Debug)]
pub enum PropValue {
    Number(i64),
    String(String),
}

/// The mathematical value of a [`PropValue`].
pub ghost enum PropV {
    Num(int),
    Str(Seq<char>),
}

impl View for PropValue {
    type V = PropV;

    open spec fn view(&self) -> PropV {
        match self {
            PropValue::Number(n) => PropV::Num(*n as int),
            PropValue::String(s) => PropV::Str(s@),
        }
    }
}

impl PropValue {
    /// If this [`PropValue`] contains a [`String`], return it. If not, return [`None`].
    pub fn as_str(&self) -> (r: Option<&String>)
        ensures
            match r {
                Some(s) => self@ == PropV::Str(s@),
                None => self@ is Num,
            },
    {
        match self {
            PropValue::String(s) => Some(s),
            _ => None,
        }
    }

    /// If this [`PropValue`] contains an [`i64`], return it. If not, return [`None`].
    pub fn as_number(&self) -> (r: Option<i64>)
        ensures
            match r {
                Some(n) => self@ == PropV::Num(n as int),
                None => self@ is Str,
            },
    {
        match self {
            PropValue::Number(n) => Some(*n),
            _ => None,
        }
    }
}

impl Clone for PropValue {
    fn clone(&self) -> (r: Self)
        ensures
            r@ == self@,
    {
        match self {
            PropValue::Number(n) => PropValue::Number(*n),
            PropValue::String(s) => PropValue::String(s.clone()),
        }
    }
}

impl PartialEq for PropValue {
    fn eq(&self, other: &Self) -> (r: bool) {
        match (self, other) {
            (PropValue::Number(a), PropValue::Number(b)) => *a == *b,
            (PropValue::String(a), PropValue::String(b)) => *a == *b,
            _ => false,
        }
    }
}

impl Eq for PropValue {}

impl vstd::std_specs::cmp::PartialEqSpecImpl for PropValue {
    open spec fn obeys_eq_spec() -> bool {
        true
    }

    open spec fn eq_spec(&self, other: &Self) -> bool {
        self@ == other@
    }
}

/// A value that can be turned into a [`PropValue`]; lets callers pass string
/// slices and integers directly where a property value is expected.
pub trait IntoPropValue: Sized {
    /// The mathematical property value this will turn into.
    spec fn prop_view(&self) -> PropV;

    fn into_prop(self) -> (r: PropValue)
        ensures
            r@ == self.prop_view(),
    ;
}

impl IntoPropValue for PropValue {
    open spec fn prop_view(&self) -> PropV {
        self@
    }

    fn into_prop(self) -> (r: PropValue) {
        self
    }
}

impl IntoPropValue for i64 {
    open spec fn prop_view(&self) -> PropV {
        PropV::Num(*self as int)
    }

    fn into_prop(self) -> (r: PropValue) {
        PropValue::Number(self)
    }
}

impl<'a> IntoPropValue for &'a str {
    open spec fn prop_view(&self) -> PropV {
        PropV::Str((*self)@)
    }

    fn into_prop(self) -> (r: PropValue) {
        PropValue::String(self.to_owned())
    }
}

impl IntoPropValue for String {
    open spec fn prop_view(&self) -> PropV {
        PropV::Str(self@)
    }

    fn into_prop(self) -> (r: PropValue) {
        PropValue::String(self)
    }
}

/// One key/value pair at the mathematical level.
pub type KvV = (Seq<char>, PropV);

/// The key views of a pair sequence are pairwise distinct.
pub open spec fn keys_distinct(s: Seq<KvV>) -> bool {
    forall|i: int, j: int| 0 <= i < j < s.len() ==> s[i].0 != s[j].0
}

/// The mapping described by a sequence of key/value pairs, later pairs winning.
pub open spec fn map_of(s: Seq<KvV>) -> Map<Seq<char>, PropV>
    decreases s.len(),
{
    if s.len() == 0 {
        Map::empty()
    } else {
        map_of(s.drop_last()).insert(s.last().0, s.last().1)
    }
}

pub proof fn lemma_map_of_contains(s: Seq<KvV>, k: Seq<char>)
    ensures
        map_of(s).contains_key(k) <==> exists|i: int| 0 <= i < s.len() && s[i].0 == k,
    decreases s.len(),
{
    if s.len() == 0 {
    } else {
        lemma_map_of_contains(s.drop_last(), k);
        if s.last().0 == k {
            assert(s[s.len() - 1].0 == k);
        } else {
            if map_of(s).contains_key(k) {
                let i = choose|i: int| 0 <= i < s.drop_last().len() && s.drop_last()[i].0 == k;
                assert(s[i].0 == k);
            }
            if exists|i: int| 0 <= i < s.len() && s[i].0 == k {
                let i = choose|i: int| 0 <= i < s.len() && s[i].0 == k;
                assert(s.drop_last()[i].0 == k);
            }
        }
    }
}

pub proof fn lemma_map_of_get(s: Seq<KvV>, i: int)
    requires
        keys_distinct(s),
        0 <= i < s.len(),
    ensures
        map_of(s).contains_key(s[i].0),
        map_of(s)[s[i].0] == s[i].1,
    decreases s.len(),
{
    if i == s.len() - 1 {
    } else {
        lemma_map_of_get(s.drop_last(), i);
        assert(s.drop_last()[i] == s[i]);
        assert(s[i].0 != s.last().0);
    }
}

pub proof fn lemma_map_of_finite(s: Seq<KvV>)
    ensures
        map_of(s).dom().finite(),
    decreases s.len(),
{
    if s.len() == 0 {
    } else {
        lemma_map_of_finite(s.drop_last());
    }
}

pub proof fn lemma_map_of_len(s: Seq<KvV>)
    requires
        keys_distinct(s),
    ensures
        map_of(s).dom().finite(),
        map_of(s).dom().len() == s.len(),
    decreases s.len(),
{
    lemma_map_of_finite(s);
    if s.len() == 0 {
        assert(map_of(s).dom() =~= Set::<Seq<char>>::empty());
    } else {
        lemma_map_of_len(s.drop_last());
        lemma_map_of_contains(s.drop_last(), s.last().0);
        assert(forall|i: int| 0 <= i < s.drop_last().len() ==> s[i].0 != s.last().0);
        assert(!map_of(s.drop_last()).contains_key(s.last().0));
        lemma_map_of_finite(s.drop_last());
        assert(map_of(s).dom() =~= map_of(s.drop_last()).dom().insert(s.last().0));
        vstd::set::axiom_set_insert_len(map_of(s.drop_last()).dom(), s.last().0);
    }
}

pub proof fn lemma_map_of_update(s: Seq<KvV>, i: int, v: PropV)
    requires
        keys_distinct(s),
        0 <= i < s.len(),
    ensures
        map_of(s.update(i, (s[i].0, v))) == map_of(s).insert(s[i].0, v),
    decreases s.len(),
{
    let t = s.update(i, (s[i].0, v));
    if i == s.len() - 1 {
        assert(t.drop_last() =~= s.drop_last());
        assert(map_of(t) =~= map_of(s).insert(s[i].0, v));
    } else {
        lemma_map_of_update(s.drop_last(), i, v);
        assert(t.drop_last() =~= s.drop_last().update(i, (s[i].0, v)));
        assert(t.last() == s.last());
        assert(s.drop_last()[i] == s[i]);
        assert(s[i].0 != s.last().0);
        assert(map_of(t) =~= map_of(s).insert(s[i].0, v));
    }
}

/// A set of properties that may be stored in a [`Store`](crate::store::Store):
/// a mapping from property name to property value. Insertion order is not
/// observable.
#[derive(Debug)]
pub struct Object {
    entries: Vec<(String, PropValue)>,
}

impl View for Object {
    type V = Map<Seq<char>, PropV>;

    closed spec fn view(&self) -> Map<Seq<char>, PropV> {
        map_of(self.kv())
    }
}

impl Object {
    /// The internal pair sequence, at the mathematical level.
    pub closed spec fn kv(&self) -> Seq<KvV> {
        self.entries@.map_values(|p: (String, PropValue)| (p.0@, p.1@))
    }

    #[verifier::type_invariant]
    spec fn inv(&self) -> bool {
        keys_distinct(self.kv())
    }

    /// The view of an object always has a finite domain.
    pub proof fn lemma_finite_dom(&self)
        ensures
            self@.dom().finite(),
    {
        lemma_map_of_finite(self.kv());
    }

    /// An object with no properties.
    pub fn new() -> (r: Object)
        ensures
            r@ == Map::<Seq<char>, PropV>::empty(),
    {
        let o = Object { entries: Vec::new() };
        proof {
            assert(o.kv() =~= Seq::<KvV>::empty());
        }
        o
    }

    /// The index of the entry holding `key`, if any.
    fn index_of_key(&self, key: &str) -> (r: Option<usize>)
        ensures
            match r {
                Some(i) => i < self.kv().len() && self.kv()[i as int].0 == key@,
                None => forall|i: int| 0 <= i < self.kv().len() ==> self.kv()[i].0 != key@,
            },
    {
        let n = self.entries.len();
        let mut i: usize = 0;
        while i < n
            invariant
                i <= n,
                n == self.kv().len(),
                forall|j: int| 0 <= j < i ==> self.kv()[j].0 != key@,
            decreases n - i,
        {
            if str_eq(self.entries[i].0.as_str(), key) {
                return Some(i);
            }
            i = i + 1;
        }
        None
    }

    /// Look up a property by name.
    pub fn get(&self, key: &str) -> (r: Option<&PropValue>)
        ensures
            match r {
                Some(v) => self@.contains_key(key@) && v@ == self@[key@],
                None => !self@.contains_key(key@),
            },
    {
        proof {
            use_type_invariant(self);
            lemma_map_of_contains(self.kv(), key@);
        }
        match self.index_of_key(key) {
            Some(i) => {
                proof {
                    lemma_map_of_get(self.kv(), i as int);
                }
                Some(&self.entries[i].1)
            },
            None => None,
        }
    }

    /// Whether a property with the given name is present.
    pub fn contains_key(&self, key: &str) -> (r: bool)
        ensures
            r == self@.contains_key(key@),
    {
        self.get(key).is_some()
    }

    /// The number of properties.
    pub fn len(&self) -> (r: usize)
        ensures
            self@.dom().finite(),
            r == self@.dom().len(),
    {
        proof {
            use_type_invariant(self);
            lemma_map_of_len(self.kv());
        }
        self.entries.len()
    }

    /// Whether the object has no properties at all.
    pub fn is_empty(&self) -> (r: bool)
        ensures
            self@.dom().finite(),
            r == (self@.dom().len() == 0),
    {
        self.len() == 0
    }

    /// Set the property `key` to `value`, replacing any previous value.
    pub fn insert<V: IntoPropValue>(&mut self, key: &str, value: V)
        ensures
            final(self)@ == old(self)@.insert(key@, value.prop_view()),
    {
        proof {
            use_type_invariant(&*self);
        }
        let v = value.into_prop();
        let ghost old_kv = self.kv();
        let found = self.index_of_key(key);
        let mut entries: Vec<(String, PropValue)> = Vec::new();
        core::mem::swap(&mut entries, &mut self.entries);
        match found {
            Some(i) => {
                entries.set(i, (key.to_owned(), v));
                proof {
                    let new_kv = entries@.map_values(|p: (String, PropValue)| (p.0@, p.1@));
                    assert(new_kv =~= old_kv.update(i as int, (key@, value.prop_view())));
                    lemma_map_of_update(old_kv, i as int, value.prop_view());
                }
            },
            None => {
                entries.push((key.to_owned(), v));
                proof {
                    let new_kv = entries@.map_values(|p: (String, PropValue)| (p.0@, p.1@));
                    assert(new_kv =~= old_kv.push((key@, value.prop_view())));
                    assert(new_kv.drop_last() =~= old_kv);
                }
            },
        }
        core::mem::swap(&mut entries, &mut self.entries);
    }

    /// Set the property `key` to `value` and hand the object back; a literal
    /// builder for writing objects down in one expression.
    pub fn with<V: IntoPropValue>(self, key: &str, value: V) -> (r: Object)
        ensures
            r@ == self@.insert(key@, value.prop_view()),
    {
        let mut o = self;
        o.insert(key, value);
        o
    }

    /// Merge every property of `patch` into this object, overwriting on
    /// collision; properties absent from `patch` are kept.
    pub fn merge_from(&mut self, patch: &Object)
        ensures
            final(self)@ == old(self)@.union_prefer_right(patch@),
    {
        proof {
            use_type_invariant(&*self);
            use_type_invariant(patch);
        }
        let n = patch.entries.len();
        let mut i: usize = 0;
        while i < n
            invariant
                i <= n,
                n == patch.kv().len(),
                keys_distinct(patch.kv()),
                self@ == old(self)@.union_prefer_right(map_of(patch.kv().take(i as int))),
            decreases n - i,
        {
            let ghost pre = self@;
            let (k, v) = (&patch.entries[i].0, &patch.entries[i].1);
            self.insert(k.as_str(), v.clone());
            proof {
                assert(patch.kv().take(i + 1 as int).drop_last() =~= patch.kv().take(i as int));
                assert(patch.kv().take(i + 1 as int).last() == patch.kv()[i as int]);
                assert(self@ =~= old(self)@.union_prefer_right(
                    map_of(patch.kv().take(i + 1 as int)),
                ));
            }
            i = i + 1;
        }
        proof {
            assert(patch.kv().take(n as int) =~= patch.kv());
            assert(self@ =~= old(self)@.union_prefer_right(patch@));
        }
    }
}

impl Clone for Object {
    fn clone(&self) -> (r: Self)
        ensures
            r@ == self@,
            r.kv() == self.kv(),
    {
        proof {
            use_type_invariant(self);
        }
        let n = self.entries.len();
        let mut entries: Vec<(String, PropValue)> = Vec::new();
        let mut i: usize = 0;
        while i < n
            invariant
                i <= n,
                n == self.entries.len(),
                entries@.len() == i,
                forall|j: int|
                    0 <= j < i ==> entries@[j].0@ == self.entries@[j].0@ && entries@[j].1@
                        == self.entries@[j].1@,
            decreases n - i,
        {
            let k = self.entries[i].0.clone();
            let v = self.entries[i].1.clone();
            entries.push((k, v));
            i = i + 1;
        }
        proof {
            let new_kv = entries@.map_values(|p: (String, PropValue)| (p.0@, p.1@));
            assert(new_kv =~= self.kv());
        }
        let r = Object { entries };
        proof {
            assert(r.kv() =~= self.kv());
        }
        r
    }
}

impl PartialEq for Object {
    fn eq(&self, other: &Self) -> (r: bool) {
        proof {
            use_type_invariant(self);
            use_type_invariant(other);
        }
        if self.len() != other.len() {
            proof {
                lemma_map_of_len(self.kv());
                lemma_map_of_len(other.kv());
                if self@ == other@ {
                    assert(self@.dom().len() == other@.dom().len());
                }
            }
            return false;
        }
        proof {
            lemma_map_of_len(self.kv());
            lemma_map_of_len(other.kv());
        }
        let n = self.entries.len();
        let mut i: usize = 0;
        while i < n
            invariant
                i <= n,
                n == self.kv().len(),
                keys_distinct(self.kv()),
                keys_distinct(other.kv()),
                self@.dom().finite(),
                other@.dom().finite(),
                self@.dom().len() == other@.dom().len(),
                n == self@.dom().len(),
                forall|j: int|
                    0 <= j < i ==> other@.contains_key(#[trigger] self.kv()[j].0) && other@[self.kv()[j].0]
                        == self.kv()[j].1,
            decreases n - i,
        {
            proof {
                use_type_invariant(self);
                use_type_invariant(other);
                lemma_map_of_len(self.kv());
                lemma_map_of_len(other.kv());
                lemma_map_of_get(self.kv(), i as int);
            }
            let key = &self.entries[i].0;
            match other.get(key.as_str()) {
                Some(v) => {
                    let mine = &self.entries[i].1;
                    if !prop_value_eq(mine, v) {
                        proof {
                            assert(self@[self.kv()[i as int].0] == self.kv()[i as int].1);
                            assert(self@ != other@);
                        }
                        return false;
                    }
                },
                None => {
                    proof {
                        lemma_map_of_contains(self.kv(), self.kv()[i as int].0);
                        assert(self@.contains_key(self.kv()[i as int].0));
                        assert(self@ != other@);
                    }
                    return false;
                },
            }
            i = i + 1;
        }
        proof {
            lemma_map_of_len(self.kv());
            lemma_map_of_len(other.kv());
            assert(self@.dom().subset_of(other@.dom())) by {
                assert forall|k: Seq<char>| self@.dom().contains(k) implies other@.dom().contains(
                    k,
                ) by {
                    assert(self@.contains_key(k));
                    lemma_map_of_contains(self.kv(), k);
                    let j = choose|j: int| 0 <= j < self.kv().len() && self.kv()[j].0 == k;
                    lemma_map_of_get(self.kv(), j);
                    assert(other@.contains_key(self.kv()[j].0));
                }
            }
            vstd::set_lib::lemma_subset_equality(self@.dom(), other@.dom());
            assert forall|k: Seq<char>| self@.dom().contains(k) implies self@[k] == other@[k] by {
                lemma_map_of_contains(self.kv(), k);
                let j = choose|j: int| 0 <= j < self.kv().len() && self.kv()[j].0 == k;
                lemma_map_of_get(self.kv(), j);
                assert(other@.contains_key(self.kv()[j].0) && other@[self.kv()[j].0]
                    == self.kv()[j].1);
            }
            assert(self@ =~= other@);
        }
        true
    }
}

impl Eq for Object {}

impl vstd::std_specs::cmp::PartialEqSpecImpl for Object {
    open spec fn obeys_eq_spec() -> bool {
        true
    }

    open spec fn eq_spec(&self, other: &Self) -> bool {
        self@ == other@
    }
}

/// Structural equality of two property values.
pub fn prop_value_eq(a: &PropValue, b: &PropValue) -> (r: bool)
    ensures
        r == (a@ == b@),
{
    match (a, b) {
        (PropValue::Number(x), PropValue::Number(y)) => *x == *y,
        (PropValue::String(x), PropValue::String(y)) => str_eq(x.as_str(), y.as_str()),
        _ => false,
    }
}

} // verus!
