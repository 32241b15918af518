//! Grouping of values under keys, with a fold that sums them per group.
use vstd::prelude::*;

verus! {

/// A group key: a number or a text.
#[derive(Debug, Clone, PartialEq, Eq, Hash)]
pub enum KeyValue {
    Number(i32),
    String(String),
}

/// What a key stands for: keys with equal views are the same key.
pub enum KeyView {
    Number(i32),
    Text(Seq<char>),
}

impl View for KeyValue {
    type V = KeyView;

    open spec fn view(&self) -> KeyView {
        match self {
            KeyValue::Number(n) => KeyView::Number(*n),
            KeyValue::String(s) => KeyView::Text(s@),
        }
    }
}

impl KeyValue {
    /// Whether two keys name the same group.
    pub fn same_key(&self, other: &KeyValue) -> (r: bool)
        ensures
            r == (self@ == other@),
    {
        match (self, other) {
            (KeyValue::Number(a), KeyValue::Number(b)) => *a == *b,
            (KeyValue::String(a), KeyValue::String(b)) => *a == *b,
            _ => false,
        }
    }

    /// A copy of the key.
    pub fn duplicate(&self) -> (r: KeyValue)
        ensures
            r == *self,
    {
        match self {
            KeyValue::Number(n) => KeyValue::Number(*n),
            KeyValue::String(s) => KeyValue::String(s.clone()),
        }
    }
}

/// Something that tells which group an object belongs to.
pub trait Agrupator<T> {
    /// Whether the key of `object` can be asked for.
    spec fn accepts(&self, object: T) -> bool;

    /// Whether `key` is a key that `get_group_key` may give for `object`.
    spec fn gives(&self, object: T, key: KeyValue) -> bool;

    fn get_group_key(&self, object: T) -> (r: KeyValue)
        requires
            self.accepts(object),
        ensures
            self.gives(object, r),
    ;
}

/// A key used as a grouping puts every object in its own group.
impl<T> Agrupator<T> for KeyValue {
    open spec fn accepts(&self, object: T) -> bool {
        true
    }

    open spec fn gives(&self, object: T, key: KeyValue) -> bool {
        key == *self
    }

    fn get_group_key(&self, _object: T) -> (r: KeyValue) {
        self.duplicate()
    }
}

/// A function from objects to keys is a grouping.
impl<T, F: Fn(T) -> KeyValue> Agrupator<T> for F {
    open spec fn accepts(&self, object: T) -> bool {
        call_requires(*self, (object,))
    }

    open spec fn gives(&self, object: T, key: KeyValue) -> bool {
        call_ensures(*self, (object,), key)
    }

    fn get_group_key(&self, object: T) -> (r: KeyValue) {
        (self)(object)
    }
}

/// The map that a sequence of entries stands for, later entries winning.
pub open spec fn entries_map<T>(s: Seq<(KeyValue, T)>) -> Map<KeyView, T>
    decreases s.len(),
{
    if s.len() == 0 {
        Map::empty()
    } else {
        entries_map(s.drop_last()).insert(s.last().0@, s.last().1)
    }
}

pub open spec fn distinct_keys<T>(s: Seq<(KeyValue, T)>) -> bool {
    forall|i: int, j: int| 0 <= i < j < s.len() ==> (#[trigger] s[i]).0@ != (#[trigger] s[j]).0@
}

proof fn lemma_entries_map_keys<T>(s: Seq<(KeyValue, T)>, k: KeyView)
    ensures
        entries_map(s).contains_key(k) <==> exists|i: int| 0 <= i < s.len() && (#[trigger] s[i]).0@ == k,
    decreases s.len(),
{
    if s.len() > 0 {
        let p = s.drop_last();
        lemma_entries_map_keys(p, k);
        if entries_map(p).contains_key(k) {
            let i = choose|i: int| 0 <= i < p.len() && (#[trigger] p[i]).0@ == k;
            assert(s[i] == p[i]);
        }
        if exists|i: int| 0 <= i < s.len() && (#[trigger] s[i]).0@ == k {
            let i = choose|i: int| 0 <= i < s.len() && (#[trigger] s[i]).0@ == k;
            if i < p.len() {
                assert(p[i] == s[i]);
            }
        }
    }
}

proof fn lemma_entries_map_value<T>(s: Seq<(KeyValue, T)>, i: int)
    requires
        distinct_keys(s),
        0 <= i < s.len(),
    ensures
        entries_map(s).contains_key(s[i].0@),
        entries_map(s)[s[i].0@] == s[i].1,
    decreases s.len(),
{
    let p = s.drop_last();
    if i < s.len() - 1 {
        assert(p[i] == s[i]);
        lemma_entries_map_value(p, i);
    }
}

proof fn lemma_entries_map_update<T>(s: Seq<(KeyValue, T)>, i: int, e: (KeyValue, T))
    requires
        distinct_keys(s),
        0 <= i < s.len(),
        e.0@ == s[i].0@,
    ensures
        distinct_keys(s.update(i, e)),
        entries_map(s.update(i, e)) == entries_map(s).insert(e.0@, e.1),
    decreases s.len(),
{
    let u = s.update(i, e);
    assert forall|a: int, b: int| 0 <= a < b < u.len() implies (#[trigger] u[a]).0@ != (
    #[trigger] u[b]).0@ by {
        assert(s[a].0@ != s[b].0@);
    }
    let p = s.drop_last();
    if i == s.len() - 1 {
        assert(u.drop_last() =~= p);
        assert forall|j: int| 0 <= j < p.len() implies (#[trigger] p[j]).0@ != e.0@ by {
            assert(p[j] == s[j]);
        }
        lemma_entries_map_keys(p, e.0@);
        assert(entries_map(u) =~= entries_map(s).insert(e.0@, e.1));
    } else {
        assert(u.drop_last() =~= p.update(i, e));
        assert forall|a: int, b: int| 0 <= a < b < p.len() implies (#[trigger] p[a]).0@ != (
        #[trigger] p[b]).0@ by {
            assert(p[a] == s[a] && p[b] == s[b]);
        }
        lemma_entries_map_update(p, i, e);
        assert(s.last().0@ != e.0@) by {
            assert(s[i].0@ != s[s.len() - 1].0@);
        }
        assert(entries_map(u) =~= entries_map(s).insert(e.0@, e.1));
    }
}

proof fn lemma_entries_map_len<T>(s: Seq<(KeyValue, T)>)
    requires
        distinct_keys(s),
    ensures
        entries_map(s).dom().finite(),
        entries_map(s).dom().len() == s.len(),
    decreases s.len(),
{
    if s.len() > 0 {
        let p = s.drop_last();
        assert forall|a: int, b: int| 0 <= a < b < p.len() implies (#[trigger] p[a]).0@ != (
        #[trigger] p[b]).0@ by {
            assert(p[a] == s[a] && p[b] == s[b]);
        }
        lemma_entries_map_len(p);
        lemma_entries_map_keys(p, s.last().0@);
        if entries_map(p).contains_key(s.last().0@) {
            let i = choose|i: int| 0 <= i < p.len() && (#[trigger] p[i]).0@ == s.last().0@;
            assert(s[i] == p[i]);
            assert(s[i].0@ != s[s.len() - 1].0@);
        }
    }
}

/// A map from group keys to values, in the order in which keys came.
pub struct ObjectMap<T> {
    entries: Vec<(KeyValue, T)>,
}

impl<T> View for ObjectMap<T> {
    type V = Map<KeyView, T>;

    closed spec fn view(&self) -> Map<KeyView, T> {
        entries_map(self.entries@)
    }
}

impl<T> ObjectMap<T> {
    pub closed spec fn wf(&self) -> bool {
        distinct_keys(self.entries@)
    }

    pub fn new() -> (r: ObjectMap<T>)
        ensures
            r.wf(),
            r@ == Map::<KeyView, T>::empty(),
    {
        ObjectMap { entries: Vec::new() }
    }

    /// Number of keys.
    pub fn len(&self) -> (r: usize)
        requires
            self.wf(),
        ensures
            self@.dom().finite(),
            r == self@.dom().len(),
    {
        proof {
            lemma_entries_map_len(self.entries@);
        }
        self.entries.len()
    }

    fn position(&self, key: &KeyValue) -> (r: Option<usize>)
        requires
            self.wf(),
        ensures
            match r {
                Some(i) => i < self.entries@.len() && self.entries@[i as int].0@ == key@,
                None => !self@.contains_key(key@),
            },
    {
        let mut i: usize = 0;
        while i < self.entries.len()
            invariant
                i <= self.entries@.len(),
                forall|j: int| 0 <= j < i ==> (#[trigger] self.entries@[j]).0@ != key@,
            decreases self.entries@.len() - i,
        {
            if self.entries[i].0.same_key(key) {
                return Some(i);
            }
            i = i + 1;
        }
        proof {
            lemma_entries_map_keys(self.entries@, key@);
        }
        None
    }

    /// The value kept under `key`, if any.
    pub fn get(&self, key: &KeyValue) -> (r: Option<&T>)
        requires
            self.wf(),
        ensures
            match r {
                Some(v) => self@.contains_key(key@) && *v == self@[key@],
                None => !self@.contains_key(key@),
            },
    {
        match self.position(key) {
            Some(i) => {
                proof {
                    lemma_entries_map_value(self.entries@, i as int);
                }
                Some(&self.entries[i].1)
            },
            None => None,
        }
    }

    /// Keeps `value` under `key`, replacing what was there.
    pub fn insert(&mut self, key: KeyValue, value: T)
        requires
            old(self).wf(),
        ensures
            final(self).wf(),
            final(self)@ == old(self)@.insert(key@, value),
    {
        match self.position(&key) {
            Some(i) => {
                proof {
                    lemma_entries_map_update(self.entries@, i as int, (key, value));
                }
                self.entries.set(i, (key, value));
            },
            None => {
                proof {
                    lemma_entries_map_keys(self.entries@, key@);
                }
                let ghost before = self.entries@;
                self.entries.push((key, value));
                assert(self.entries@.drop_last() =~= before);
                assert forall|a: int, b: int| 0 <= a < b < self.entries@.len() implies (
                #[trigger] self.entries@[a]).0@ != (#[trigger] self.entries@[b]).0@ by {
                    if b == before.len() {
                        assert(self.entries@[a] == before[a]);
                    } else {
                        assert(self.entries@[a] == before[a] && self.entries@[b] == before[b]);
                    }
                }
            },
        }
    }

    /// The keys and values, in the order in which keys came.
    pub fn entries(&self) -> (r: &Vec<(KeyValue, T)>)
        requires
            self.wf(),
        ensures
            self@.dom().finite(),
            r@.len() == self@.dom().len(),
            forall|i: int|
                0 <= i < r@.len() ==> self@.contains_key((#[trigger] r@[i]).0@) && self@[r@[i].0@]
                    == r@[i].1,
    {
        proof {
            lemma_entries_map_len(self.entries@);
            assert forall|i: int| 0 <= i < self.entries@.len() implies self@.contains_key(
                (#[trigger] self.entries@[i]).0@,
            ) && self@[self.entries@[i].0@] == self.entries@[i].1 by {
                lemma_entries_map_value(self.entries@, i);
            }
        }
        &self.entries
    }
}

/// The map after adding `n` to the value under `key`, or starting it at
/// `n`; sums wrap around on overflow.
pub open spec fn add_to_group(m: Map<KeyView, i32>, key: KeyView, n: i32) -> Map<KeyView, i32> {
    if m.contains_key(key) {
        m.insert(key, m[key].wrapping_add(n))
    } else {
        m.insert(key, n)
    }
}

/// Adds `n` to the running sum of the group that `group` puts it in.
pub fn sum_number_by_group<A: Agrupator<i32>>(n: i32, result: &mut ObjectMap<i32>, group: &A)
    requires
        old(result).wf(),
        group.accepts(n),
    ensures
        final(result).wf(),
        exists|k: KeyValue| group.gives(n, k) && final(result)@ == add_to_group(old(result)@, k@, n),
{
    let key = group.get_group_key(n);
    let ghost k = key;
    match result.get(&key) {
        Some(res) => {
            let sum = res.wrapping_add(n);
            result.insert(key, sum);
        },
        None => {
            result.insert(key, n);
        },
    }
    assert(group.gives(n, k) && result@ == add_to_group(old(result)@, k@, n));
}

/// Puts odd numbers in group 1 and even numbers in group 0.
pub fn is_odd(n: i32) -> (r: KeyValue)
    ensures
        r == (if n % 2 != 0 {
            KeyValue::Number(1)
        } else {
            KeyValue::Number(0)
        }),
{
    if n % 2 != 0 {
        return KeyValue::Number(1);
    }
    KeyValue::Number(0)
}

/// Whether `states` are the maps that folding `summer` over `objects`, one
/// after another, passes through: `states[i + 1]` is a result of `summer` on
/// `objects[i]` and `states[i]`.
pub open spec fn fold_states<T, B, S: Fn(T, ObjectMap<T>, &B) -> ObjectMap<T>>(
    summer: S,
    group_by: &B,
    objects: Seq<T>,
    states: Seq<ObjectMap<T>>,
) -> bool {
    &&& states.len() == objects.len() + 1
    &&& forall|i: int|
        0 <= i < objects.len() ==> call_ensures(
            summer,
            (objects[i], states[i], group_by),
            #[trigger] states[i + 1],
        )
}

/// Folds `summer` over `to_group`, in order, starting from an empty map.
pub fn group_sum_by<T, B: Agrupator<T>, S: Fn(T, ObjectMap<T>, &B) -> ObjectMap<T>>(
    to_group: Vec<T>,
    group_by: &B,
    summer: S,
) -> (r: ObjectMap<T>)
    requires
        forall|object: T, m: ObjectMap<T>| m.wf() ==> call_requires(summer, (object, m, group_by)),
        forall|object: T, m: ObjectMap<T>, out: ObjectMap<T>|
            m.wf() && call_ensures(summer, (object, m, group_by), out) ==> out.wf(),
    ensures
        r.wf(),
        exists|states: Seq<ObjectMap<T>>|
            fold_states(summer, group_by, to_group@, states) && states[0]@ == Map::<
                KeyView,
                T,
            >::empty() && states.last() == r,
{
    let mut rest = to_group;
    let mut reversed: Vec<T> = Vec::new();
    while rest.len() > 0
        invariant
            to_group@ == rest@ + reversed@.reverse(),
        decreases rest@.len(),
    {
        let ghost before = reversed@;
        let x = rest.pop().unwrap();
        reversed.push(x);
        assert(reversed@.reverse() =~= seq![x] + before.reverse());
    }
    assert(to_group@ =~= reversed@.reverse());
    let mut result: ObjectMap<T> = ObjectMap::new();
    let ghost mut states: Seq<ObjectMap<T>> = seq![result];
    while reversed.len() > 0
        invariant
            result.wf(),
            states[0]@ == Map::<KeyView, T>::empty(),
            to_group@.len() >= reversed@.len(),
            to_group@ == to_group@.take(to_group@.len() - reversed@.len()) + reversed@.reverse(),
            fold_states(summer, group_by, to_group@.take(to_group@.len() - reversed@.len()), states),
            states.last() == result,
            forall|object: T, m: ObjectMap<T>| m.wf() ==> call_requires(summer, (object, m, group_by)),
            forall|object: T, m: ObjectMap<T>, out: ObjectMap<T>|
                m.wf() && call_ensures(summer, (object, m, group_by), out) ==> out.wf(),
        decreases reversed@.len(),
    {
        let ghost done = to_group@.take(to_group@.len() - reversed@.len());
        let ghost rev_before = reversed@;
        let x = reversed.pop().unwrap();
        let ghost xg = x;
        assert(rev_before.reverse() =~= seq![xg] + reversed@.reverse());
        result = summer(x, result, group_by);
        let ghost now = to_group@.take(to_group@.len() - reversed@.len());
        assert(now =~= done.push(xg)) by {
            assert(to_group@ =~= done + (seq![xg] + reversed@.reverse()));
        }
        let ghost old_states = states;
        proof {
            states = states.push(result);
            assert forall|i: int| 0 <= i < now.len() implies call_ensures(
                summer,
                (now[i], states[i], group_by),
                #[trigger] states[i + 1],
            ) by {
                if i < done.len() {
                    assert(now[i] == done[i]);
                    assert(states[i] == old_states[i] && states[i + 1] == old_states[i + 1]);
                }
            }
        }
    }
    assert(to_group@.take(to_group@.len() as int) =~= to_group@);
    result
}

} // verus!
