use vstd::prelude::*;

verus! {

/// A dynamic value. Floats are kept as their IEEE-754 bit pattern.
#[derive(Debug, PartialEq)]
pub enum Variant {
    Null,
    String(String),
    Integer(i64),
    Float(u64),
    Boolean(bool),
    Array(Vec<Variant>),
    Object(Vec<(String, Variant)>),
}

/// The mathematical value of a variant.
pub enum Value {
    Null,
    Text(Seq<char>),
    Integer(i64),
    Float(u64),
    Boolean(bool),
    Array(Seq<Value>),
    Object(Seq<(Seq<char>, Value)>),
}

impl Variant {
    pub open spec fn value(&self) -> Value
        decreases self,
    {
        match self {
            Variant::Null => Value::Null,
            Variant::String(s) => Value::Text(s@),
            Variant::Integer(i) => Value::Integer(*i),
            Variant::Float(f) => Value::Float(*f),
            Variant::Boolean(b) => Value::Boolean(*b),
            Variant::Array(items) => Value::Array(
                Seq::new(
                    items@.len(),
                    |i: int|
                        if 0 <= i < items@.len() {
                            items@[i].value()
                        } else {
                            Value::Null
                        },
                ),
            ),
            Variant::Object(entries) => Value::Object(
                Seq::new(
                    entries@.len(),
                    |i: int|
                        if 0 <= i < entries@.len() {
                            (entries@[i].0@, entries@[i].1.value())
                        } else {
                            (Seq::empty(), Value::Null)
                        },
                ),
            ),
        }
    }
}

/// A deep copy of a variant.
fn copy_variant(v: &Variant) -> (r: Variant)
    ensures
        r.value() == v.value(),
    decreases v,
{
    match v {
        Variant::Null => Variant::Null,
        Variant::String(s) => Variant::String(s.clone()),
        Variant::Integer(i) => Variant::Integer(*i),
        Variant::Float(f) => Variant::Float(*f),
        Variant::Boolean(b) => Variant::Boolean(*b),
        Variant::Array(items) => {
            let mut out: Vec<Variant> = Vec::new();
            let mut i: usize = 0;
            while i < items.len()
                invariant
                    i <= items@.len(),
                    *v == Variant::Array(*items),
                    out@.len() == i,
                    forall|k: int| 0 <= k < i ==> (#[trigger] out@[k]).value() == items@[k].value(),
                decreases items.len() - i,
            {
                proof {
                    vstd::std_specs::vec::axiom_vec_index_decreases(*items, i as int);
                    assert(decreases_to!(*v => v->Array_0));
                    assert(decreases_to!(*items => items[i as int]));
                }
                let c = copy_variant(&items[i]);
                out.push(c);
                i += 1;
            }
            let r = Variant::Array(out);
            assert(r.value()->Array_0 =~= v.value()->Array_0);
            r
        },
        Variant::Object(entries) => {
            let mut out: Vec<(String, Variant)> = Vec::new();
            let mut i: usize = 0;
            while i < entries.len()
                invariant
                    i <= entries@.len(),
                    *v == Variant::Object(*entries),
                    out@.len() == i,
                    forall|k: int|
                        0 <= k < i ==> (#[trigger] out@[k]).0@ == entries@[k].0@ && out@[k].1.value()
                            == entries@[k].1.value(),
                decreases entries.len() - i,
            {
                proof {
                    vstd::std_specs::vec::axiom_vec_index_decreases(*entries, i as int);
                    assert(decreases_to!(*v => v->Object_0));
                    assert(decreases_to!(*entries => entries[i as int]));
                    assert(decreases_to!(entries[i as int] => entries[i as int].1));
                }
                let c = copy_variant(&entries[i].1);
                out.push((entries[i].0.clone(), c));
                i += 1;
            }
            let r = Variant::Object(out);
            assert(r.value()->Object_0 =~= v.value()->Object_0);
            r
        },
    }
}

impl Clone for Variant {
    /// A deep copy.
    fn clone(&self) -> (r: Self)
        ensures
            r.value() == self.value(),
    {
        copy_variant(self)
    }
}

/// A cursor's keyed values: entries with distinct keys.
pub struct State {
    value: Vec<(String, Variant)>,
}

impl View for State {
    type V = Map<Seq<char>, Value>;

    closed spec fn view(&self) -> Map<Seq<char>, Value> {
        Map::new(
            |k: Seq<char>| exists|i: int| 0 <= i < self.value@.len() && #[trigger] self.value@[i].0@ == k,
            |k: Seq<char>|
                self.value@[choose|i: int|
                    0 <= i < self.value@.len() && #[trigger] self.value@[i].0@ == k].1.value(),
        )
    }
}

impl State {
    /// The keys are distinct.
    pub closed spec fn wf(&self) -> bool {
        forall|i: int, j: int|
            0 <= i < j < self.value@.len() ==> (#[trigger] self.value@[i]).0@ != (#[trigger] self.value@[j]).0@
    }

    proof fn lemma_lookup(&self, i: int)
        requires
            self.wf(),
            0 <= i < self.value@.len(),
        ensures
            self@.contains_key(self.value@[i].0@),
            self@[self.value@[i].0@] == self.value@[i].1.value(),
    {
        let k = self.value@[i].0@;
        assert(self@.dom().contains(k));
        let j = choose|j: int| 0 <= j < self.value@.len() && #[trigger] self.value@[j].0@ == k;
        if j != i {
            if j < i {
                assert(self.value@[j].0@ != self.value@[i].0@);
            } else {
                assert(self.value@[i].0@ != self.value@[j].0@);
            }
        }
    }

    /// An empty state.
    pub fn new() -> (r: State)
        ensures
            r.wf(),
            r@ == Map::<Seq<char>, Value>::empty(),
    {
        let r = State { value: Vec::new() };
        assert(r@ =~= Map::<Seq<char>, Value>::empty());
        r
    }

    fn index_of(&self, key: &String) -> (r: Option<usize>)
        requires
            self.wf(),
        ensures
            r is None ==> !self@.contains_key(key@),
            r matches Some(i) ==> i < self.value@.len() && self.value@[i as int].0@ == key@,
    {
        let mut i: usize = 0;
        while i < self.value.len()
            invariant
                i <= self.value@.len(),
                forall|j: int| 0 <= j < i ==> (#[trigger] self.value@[j]).0@ != key@,
            decreases self.value.len() - i,
        {
            if self.value[i].0 == *key {
                return Some(i);
            }
            i += 1;
        }
        None
    }

    /// Binds `key` to `value`, replacing any earlier binding.
    pub fn set(&mut self, key: String, value: Variant)
        requires
            old(self).wf(),
        ensures
            final(self).wf(),
            final(self)@ == old(self)@.insert(key@, value.value()),
    {
        let ghost k = key@;
        let ghost v = value.value();
        match self.index_of(&key) {
            Some(i) => {
                self.value.set(i, (key, value));
                assert forall|a: int, b: int|
                    0 <= a < b < self.value@.len() implies (#[trigger] self.value@[a]).0@
                    != (#[trigger] self.value@[b]).0@ by {
                    assert(old(self).value@[a].0@ != old(self).value@[b].0@);
                }
                assert forall|kk: Seq<char>| #[trigger] self@.contains_key(kk) == old(self)@.insert(
                    k,
                    v,
                ).contains_key(kk) by {
                    if old(self)@.contains_key(kk) {
                        let j = choose|j: int|
                            0 <= j < old(self).value@.len() && #[trigger] old(self).value@[j].0@
                                == kk;
                        assert(self.value@[j].0@ == kk);
                    }
                    if self@.contains_key(kk) {
                        let j = choose|j: int|
                            0 <= j < self.value@.len() && #[trigger] self.value@[j].0@ == kk;
                        assert(old(self).value@[j].0@ == kk);
                    }
                }
                assert forall|kk: Seq<char>| #[trigger] self@.contains_key(kk) implies self@[kk]
                    == old(self)@.insert(k, v)[kk] by {
                    let j = choose|j: int|
                        0 <= j < self.value@.len() && #[trigger] self.value@[j].0@ == kk;
                    self.lemma_lookup(j);
                    if j != i {
                        old(self).lemma_lookup(j);
                    }
                }
                assert(self@ =~= old(self)@.insert(k, v));
            },
            None => {
                self.value.push((key, value));
                let ghost n: int = self.value@.len() - 1;
                assert forall|a: int, b: int|
                    0 <= a < b < self.value@.len() implies (#[trigger] self.value@[a]).0@
                    != (#[trigger] self.value@[b]).0@ by {
                    if b == n {
                        assert(!old(self)@.contains_key(k));
                        if self.value@[a].0@ == k {
                            assert(old(self).value@[a].0@ == k);
                        }
                    } else {
                        assert(old(self).value@[a].0@ != old(self).value@[b].0@);
                    }
                }
                assert forall|kk: Seq<char>| #[trigger] self@.contains_key(kk) == old(self)@.insert(
                    k,
                    v,
                ).contains_key(kk) by {
                    if old(self)@.contains_key(kk) {
                        let j = choose|j: int|
                            0 <= j < old(self).value@.len() && #[trigger] old(self).value@[j].0@
                                == kk;
                        assert(self.value@[j].0@ == kk);
                    }
                    if kk == k {
                        assert(self.value@[n].0@ == kk);
                    }
                    if self@.contains_key(kk) && kk != k {
                        let j = choose|j: int|
                            0 <= j < self.value@.len() && #[trigger] self.value@[j].0@ == kk;
                        assert(old(self).value@[j].0@ == kk);
                    }
                }
                assert forall|kk: Seq<char>| #[trigger] self@.contains_key(kk) implies self@[kk]
                    == old(self)@.insert(k, v)[kk] by {
                    let j = choose|j: int|
                        0 <= j < self.value@.len() && #[trigger] self.value@[j].0@ == kk;
                    self.lemma_lookup(j);
                    if j != n {
                        old(self).lemma_lookup(j);
                    }
                }
                assert(self@ =~= old(self)@.insert(k, v));
            },
        }
    }

    /// The value bound to `key`, if any.
    pub fn get(&self, key: &str) -> (r: Option<&Variant>)
        requires
            self.wf(),
        ensures
            r is Some <==> self@.contains_key(key@),
            r matches Some(v) ==> v.value() == self@[key@],
    {
        let k = key.to_owned();
        match self.index_of(&k) {
            Some(i) => {
                proof {
                    self.lemma_lookup(i as int);
                }
                Some(&self.value[i].1)
            },
            None => None,
        }
    }

    /// Whether `key` is bound.
    pub fn has(&self, key: &str) -> (r: bool)
        requires
            self.wf(),
        ensures
            r == self@.contains_key(key@),
    {
        let k = key.to_owned();
        match self.index_of(&k) {
            Some(i) => {
                proof {
                    self.lemma_lookup(i as int);
                }
                true
            },
            None => false,
        }
    }

    /// Unbinds `key`, returning the value it had.
    pub fn remove(&mut self, key: &str) -> (r: Option<Variant>)
        requires
            old(self).wf(),
        ensures
            final(self).wf(),
            final(self)@ == old(self)@.remove(key@),
            r is Some <==> old(self)@.contains_key(key@),
            r matches Some(v) ==> v.value() == old(self)@[key@],
    {
        let k = key.to_owned();
        match self.index_of(&k) {
            Some(i) => {
                proof {
                    self.lemma_lookup(i as int);
                }
                let (_, v) = self.value.remove(i);
                assert forall|a: int, b: int|
                    0 <= a < b < self.value@.len() implies (#[trigger] self.value@[a]).0@
                    != (#[trigger] self.value@[b]).0@ by {
                    let oa = if a < i { a } else { a + 1 };
                    let ob = if b < i { b } else { b + 1 };
                    assert(self.value@[a] == old(self).value@[oa]);
                    assert(self.value@[b] == old(self).value@[ob]);
                    assert(old(self).value@[oa].0@ != old(self).value@[ob].0@);
                }
                assert forall|kk: Seq<char>| #[trigger] self@.contains_key(kk) == old(self)@.remove(
                    key@,
                ).contains_key(kk) by {
                    if old(self)@.contains_key(kk) && kk != key@ {
                        let j = choose|j: int|
                            0 <= j < old(self).value@.len() && #[trigger] old(self).value@[j].0@
                                == kk;
                        assert(j != i);
                        let nj = if j < i { j } else { j - 1 };
                        assert(self.value@[nj].0@ == kk);
                    }
                    if self@.contains_key(kk) {
                        let j = choose|j: int|
                            0 <= j < self.value@.len() && #[trigger] self.value@[j].0@ == kk;
                        let oj = if j < i { j } else { j + 1 };
                        assert(old(self).value@[oj].0@ == kk);
                        assert(oj != i);
                        assert(old(self).value@[oj].0@ != old(self).value@[i as int].0@);
                    }
                }
                assert forall|kk: Seq<char>| #[trigger] self@.contains_key(kk) implies self@[kk]
                    == old(self)@.remove(key@)[kk] by {
                    let j = choose|j: int|
                        0 <= j < self.value@.len() && #[trigger] self.value@[j].0@ == kk;
                    self.lemma_lookup(j);
                    let oj = if j < i { j } else { j + 1 };
                    assert(self.value@[j] == old(self).value@[oj]);
                    old(self).lemma_lookup(oj);
                }
                assert(self@ =~= old(self)@.remove(key@));
                Some(v)
            },
            None => {
                assert(old(self)@.remove(key@) =~= old(self)@);
                None
            },
        }
    }

    /// A deep copy: an independent state with the same bindings.
    pub fn snapshot(&self) -> (r: State)
        requires
            self.wf(),
        ensures
            r.wf(),
            r@ == self@,
    {
        let mut out: Vec<(String, Variant)> = Vec::new();
        let mut i: usize = 0;
        while i < self.value.len()
            invariant
                i <= self.value@.len(),
                out@.len() == i,
                forall|k: int|
                    0 <= k < i ==> (#[trigger] out@[k]).0@ == self.value@[k].0@ && out@[k].1.value()
                        == self.value@[k].1.value(),
            decreases self.value.len() - i,
        {
            out.push((self.value[i].0.clone(), self.value[i].1.clone()));
            i += 1;
        }
        let r = State { value: out };
        assert forall|a: int, b: int|
            0 <= a < b < r.value@.len() implies (#[trigger] r.value@[a]).0@
            != (#[trigger] r.value@[b]).0@ by {
            assert(self.value@[a].0@ != self.value@[b].0@);
        }
        assert forall|kk: Seq<char>| #[trigger] r@.contains_key(kk) == self@.contains_key(kk) by {
            if self@.contains_key(kk) {
                let j = choose|j: int| 0 <= j < self.value@.len() && #[trigger] self.value@[j].0@ == kk;
                assert(r.value@[j].0@ == kk);
            }
            if r@.contains_key(kk) {
                let j = choose|j: int| 0 <= j < r.value@.len() && #[trigger] r.value@[j].0@ == kk;
                assert(self.value@[j].0@ == kk);
            }
        }
        assert forall|kk: Seq<char>| #[trigger] r@.contains_key(kk) implies r@[kk] == self@[kk] by {
            let j = choose|j: int| 0 <= j < r.value@.len() && #[trigger] r.value@[j].0@ == kk;
            r.lemma_lookup(j);
            self.lemma_lookup(j);
        }
        assert(r@ =~= self@);
        r
    }
}

/// The key of a script table entry, as far as conversion cares.
#[derive(Debug)]
pub enum TableKey {
    Text(String),
    Integer(i64),
    Other,
}

/// The text-keyed entries, in order.
pub open spec fn text_entries(es: Seq<(TableKey, Variant)>) -> Seq<(Seq<char>, Value)>
    decreases es.len(),
{
    if es.len() == 0 {
        Seq::empty()
    } else {
        let rest = text_entries(es.drop_last());
        match es.last().0 {
            TableKey::Text(k) => rest.push((k@, es.last().1.value())),
            _ => rest,
        }
    }
}

/// The integer-keyed entries, in order.
pub open spec fn integer_entries(es: Seq<(TableKey, Variant)>) -> Seq<(i64, Value)>
    decreases es.len(),
{
    if es.len() == 0 {
        Seq::empty()
    } else {
        let rest = integer_entries(es.drop_last());
        match es.last().0 {
            TableKey::Integer(k) => rest.push((k, es.last().1.value())),
            _ => rest,
        }
    }
}

/// Whether the keys ascend.
pub open spec fn keys_ascend(ps: Seq<(i64, Value)>) -> bool {
    forall|a: int, b: int| 0 <= a < b < ps.len() ==> (#[trigger] ps[a]).0 <= (#[trigger] ps[b]).0
}

/// Keyed variants as keyed values.
pub open spec fn keyed_values(ps: Seq<(i64, Variant)>) -> Seq<(i64, Value)> {
    ps.map_values(|p: (i64, Variant)| (p.0, p.1.value()))
}

/// Named variants as named values.
pub open spec fn named_values(ps: Seq<(String, Variant)>) -> Seq<(Seq<char>, Value)> {
    ps.map_values(|p: (String, Variant)| (p.0@, p.1.value()))
}

impl Variant {
    /// A script table as a variant. With any text key it is an object of
    /// the text-keyed entries, in the given order; otherwise an array of the
    /// integer-keyed values in ascending key order. Other keys are dropped.
    pub fn from_table(entries: Vec<(TableKey, Variant)>) -> (r: Variant)
        ensures
            text_entries(entries@).len() > 0 ==> r.value() == Value::Object(text_entries(entries@)),
            text_entries(entries@).len() == 0 ==> exists|ps: Seq<(i64, Value)>|
                keys_ascend(ps) && ps.to_multiset() == integer_entries(entries@).to_multiset()
                    && r.value() == Value::Array(ps.map_values(|p: (i64, Value)| p.1)),
    {
        let ghost all = entries@;
        let mut rest = entries;
        let mut texts: Vec<(String, Variant)> = Vec::new();
        let mut ints: Vec<(i64, Variant)> = Vec::new();
        let ghost mut i: int = 0;
        assert(keyed_values(ints@) =~= integer_entries(all.subrange(0, 0)));
        assert(named_values(texts@) =~= text_entries(all.subrange(0, 0)));
        while rest.len() > 0
            invariant
                0 <= i <= all.len(),
                rest@ == all.subrange(i, all.len() as int),
                named_values(texts@) == text_entries(all.subrange(0, i)),
                keys_ascend(keyed_values(ints@)),
                keyed_values(ints@).to_multiset() == integer_entries(all.subrange(0, i)).to_multiset(),
            decreases rest.len(),
        {
            let (key, value) = rest.remove(0);
            assert((key, value) == all[i]);
            assert(all.subrange(0, i + 1).drop_last() =~= all.subrange(0, i));
            let ghost sub = all.subrange(0, i);
            match key {
                TableKey::Text(k) => {
                    let ghost prev = texts@;
                    texts.push((k, value));
                    assert(named_values(texts@) =~= named_values(prev).push((k@, value.value())));
                },
                TableKey::Integer(k) => {
                    let mut pos: usize = 0;
                    while pos < ints.len() && ints[pos].0 <= k
                        invariant
                            pos <= ints@.len(),
                            forall|j: int| 0 <= j < pos ==> (#[trigger] ints@[j]).0 <= k,
                        decreases ints.len() - pos,
                    {
                        pos += 1;
                    }
                    let ghost prev = ints@;
                    let ghost x = (k, value.value());
                    ints.insert(pos, (k, value));
                    proof {
                        assert(keyed_values(ints@) =~= keyed_values(prev).insert(pos as int, x));
                        vstd::seq_lib::to_multiset_insert(keyed_values(prev), pos as int, x);
                        vstd::seq_lib::to_multiset_build(integer_entries(sub), x);
                        assert forall|a: int, b: int|
                            0 <= a < b < keyed_values(ints@).len() implies (#[trigger] keyed_values(
                            ints@,
                        )[a]).0 <= (#[trigger] keyed_values(ints@)[b]).0 by {
                            let kp = keyed_values(prev);
                            if b < pos {
                                assert(kp[a].0 <= kp[b].0);
                            } else if b == pos {
                                assert(prev[a].0 <= k);
                            } else if a < pos {
                                assert(kp[a].0 <= kp[b - 1].0 || a == b - 1);
                                if pos < prev.len() {
                                    assert(kp[pos as int].0 > k);
                                    assert(kp[a].0 <= kp[pos as int].0 || a == pos);
                                }
                            } else if a == pos {
                                assert(prev[pos as int].0 > k);
                                assert(kp[pos as int].0 <= kp[b - 1].0 || b - 1 == pos);
                            } else {
                                assert(kp[a - 1].0 <= kp[b - 1].0);
                            }
                        }
                    }
                },
                TableKey::Other => {},
            }
            proof {
                i = i + 1;
            }
        }
        assert(all.subrange(0, i) =~= all);
        if texts.len() > 0 {
            let r = Variant::Object(texts);
            assert(r.value()->Object_0 =~= named_values(texts@));
            return r;
        }
        let ghost ps = keyed_values(ints@);
        let mut items: Vec<Variant> = Vec::new();
        let ghost mut j: int = 0;
        let ghost total = ints@;
        while ints.len() > 0
            invariant
                0 <= j <= total.len(),
                ints@ == total.subrange(j, total.len() as int),
                items@.len() == j,
                forall|a: int| 0 <= a < j ==> (#[trigger] items@[a]).value() == total[a].1.value(),
            decreases ints.len(),
        {
            let (_, v) = ints.remove(0);
            assert(v == total[j].1);
            items.push(v);
            proof {
                j = j + 1;
            }
        }
        let r = Variant::Array(items);
        assert(r.value()->Array_0 =~= ps.map_values(|p: (i64, Value)| p.1));
        r
    }
}

} // verus!
