//! Ordered collections keyed by names.
//!
//! A name is a sequence of characters. Names are ordered character by
//! character, by code point, and a proper prefix comes first.
use crate::text::{chars_of, same};
use vstd::prelude::*;

verus! {

/// `a` comes strictly before `b`.
pub open spec fn before(a: Seq<char>, b: Seq<char>) -> bool
    decreases a.len(),
{
    if b.len() == 0 {
        false
    } else if a.len() == 0 {
        true
    } else if a[0] != b[0] {
        (a[0] as int) < (b[0] as int)
    } else {
        before(a.drop_first(), b.drop_first())
    }
}

/// No name comes before itself.
pub proof fn before_irreflexive(a: Seq<char>)
    ensures
        !before(a, a),
    decreases a.len(),
{
    if a.len() > 0 {
        before_irreflexive(a.drop_first());
    }
}

/// The order is transitive.
pub proof fn before_transitive(a: Seq<char>, b: Seq<char>, c: Seq<char>)
    requires
        before(a, b),
        before(b, c),
    ensures
        before(a, c),
    decreases a.len(),
{
    if a.len() > 0 && a[0] == b[0] && b[0] == c[0] {
        before_transitive(a.drop_first(), b.drop_first(), c.drop_first());
    }
}

/// Of two different names, one comes before the other.
pub proof fn before_total(a: Seq<char>, b: Seq<char>)
    ensures
        before(a, b) || a == b || before(b, a),
    decreases a.len(),
{
    if a.len() > 0 && b.len() > 0 && a[0] == b[0] {
        before_total(a.drop_first(), b.drop_first());
        if a.drop_first() == b.drop_first() {
            assert(a =~= seq![a[0]] + a.drop_first());
            assert(b =~= seq![b[0]] + b.drop_first());
        }
    } else if a.len() == 0 && b.len() == 0 {
        assert(a =~= b);
    }
}

/// The names stand in strictly ascending order, so none of them twice.
pub open spec fn ascending(names: Seq<Seq<char>>) -> bool {
    forall|i: int, j: int| 0 <= i < j < names.len() ==> before(#[trigger] names[i], #[trigger] names[j])
}

/// An ascending sequence is fixed by the set of its elements.
pub proof fn ascending_unique(a: Seq<Seq<char>>, b: Seq<Seq<char>>)
    requires
        ascending(a),
        ascending(b),
        forall|k: Seq<char>| #![trigger a.contains(k)] #![trigger b.contains(k)] a.contains(k) <==> b.contains(k),
    ensures
        a == b,
    decreases a.len(),
{
    if a.len() == 0 {
        if b.len() > 0 {
            assert(b.contains(b[0]));
        }
        assert(a =~= b);
    } else if b.len() == 0 {
        assert(a.contains(a[0]));
    } else {
        assert(a.contains(a[0]));
        assert(b.contains(b[0]));
        let i = choose|i: int| 0 <= i < b.len() && b[i] == a[0];
        let j = choose|j: int| 0 <= j < a.len() && a[j] == b[0];
        if i > 0 {
            before_irreflexive(a[0]);
            if j > 0 {
                before_transitive(a[0], b[0], a[0]);
            }
        }
        assert(a[0] == b[0]);
        let ra = a.drop_first();
        let rb = b.drop_first();
        assert forall|k: Seq<char>| ra.contains(k) implies rb.contains(k) by {
            let x = choose|x: int| 0 <= x < ra.len() && ra[x] == k;
            assert(a[x + 1] == k);
            assert(a.contains(k));
            assert(b.contains(k));
            let y = choose|y: int| 0 <= y < b.len() && b[y] == k;
            before_irreflexive(a[0]);
            assert(rb[y - 1] == k);
        }
        assert forall|k: Seq<char>| rb.contains(k) implies ra.contains(k) by {
            let x = choose|x: int| 0 <= x < rb.len() && rb[x] == k;
            assert(b[x + 1] == k);
            assert(b.contains(k));
            assert(a.contains(k));
            let y = choose|y: int| 0 <= y < a.len() && a[y] == k;
            before_irreflexive(a[0]);
            assert(ra[y - 1] == k);
        }
        ascending_unique(ra, rb);
        assert(a =~= seq![a[0]] + ra);
        assert(b =~= seq![b[0]] + rb);
    }
}

/// The names of a finite set, ascending.
pub open spec fn in_order(names: Set<Seq<char>>) -> Seq<Seq<char>> {
    choose|s: Seq<Seq<char>>| ascending(s) && #[trigger] s.to_set() == names
}

/// Any ascending sequence of the set's names is the one that
/// [`in_order`] means.
pub proof fn in_order_is(s: Seq<Seq<char>>)
    requires
        ascending(s),
    ensures
        in_order(s.to_set()) == s,
{
    let t = in_order(s.to_set());
    assert(ascending(t) && t.to_set() == s.to_set());
    assert forall|k: Seq<char>| t.contains(k) <==> s.contains(k) by {
        assert(t.to_set().contains(k) == s.to_set().contains(k));
    }
    ascending_unique(t, s);
}

/// An ascending sequence with one more name in its place.
proof fn with_name(s: Seq<Seq<char>>, name: Seq<char>) -> (res: Seq<Seq<char>>)
    requires
        ascending(s),
        !s.contains(name),
    ensures
        ascending(res),
        res.len() == s.len() + 1,
        forall|k: Seq<char>| #[trigger] res.contains(k) <==> (s.contains(k) || k == name),
    decreases s.len(),
{
    if s.len() == 0 || before(s.last(), name) {
        let res = s.push(name);
        assert forall|i: int, j: int| 0 <= i < j < res.len() implies before(#[trigger] res[i], #[trigger] res[j]) by {
            if j == s.len() && i < s.len() - 1 {
                before_transitive(s[i], s.last(), name);
            }
        }
        assert forall|k: Seq<char>| #[trigger] res.contains(k) <==> (s.contains(k) || k == name) by {
            if s.contains(k) {
                let i = choose|i: int| 0 <= i < s.len() && s[i] == k;
                assert(res[i] == k);
            }
            if k == name {
                assert(res[s.len() as int] == k);
            }
        }
        res
    } else {
        let rest = s.drop_last();
        assert(!rest.contains(name)) by {
            if rest.contains(name) {
                let i = choose|i: int| 0 <= i < rest.len() && rest[i] == name;
                assert(s[i] == name);
            }
        }
        let put = with_name(rest, name);
        let res = put.push(s.last());
        assert(s.contains(s.last()));
        before_total(s.last(), name);
        assert forall|k: Seq<char>| #[trigger] res.contains(k) <==> (s.contains(k) || k == name) by {
            if s.contains(k) {
                let i = choose|i: int| 0 <= i < s.len() && s[i] == k;
                if i < s.len() - 1 {
                    assert(rest[i] == k);
                    assert(put.contains(k));
                } else {
                    assert(res[put.len() as int] == k);
                }
            }
            if k == name {
                assert(put.contains(k));
            }
            if put.contains(k) {
                let i = choose|i: int| 0 <= i < put.len() && put[i] == k;
                assert(res[i] == k);
            }
            if res.contains(k) {
                let i = choose|i: int| 0 <= i < res.len() && res[i] == k;
                if i < put.len() {
                    assert(put[i] == k);
                    assert(put.contains(k));
                    if rest.contains(k) {
                        let j = choose|j: int| 0 <= j < rest.len() && rest[j] == k;
                        assert(s[j] == k);
                    }
                }
            }
        }
        assert forall|i: int, j: int| 0 <= i < j < res.len() implies before(#[trigger] res[i], #[trigger] res[j]) by {
            if j == put.len() {
                assert(put.contains(put[i]));
                if put[i] != name {
                    let k = choose|k: int| 0 <= k < rest.len() && rest[k] == put[i];
                    assert(before(s[k], s[s.len() - 1]));
                }
            }
        }
        res
    }
}

/// [`in_order`] lists exactly the names of a finite set, ascending.
pub proof fn in_order_of_finite(names: Set<Seq<char>>)
    requires
        names.finite(),
    ensures
        ascending(in_order(names)),
        in_order(names).to_set() == names,
    decreases names.len(),
{
    if names.len() == 0 {
        let s = Seq::<Seq<char>>::empty();
        assert(s.to_set() =~= names);
        assert(ascending(s));
    } else {
        let a = names.choose();
        in_order_of_finite(names.remove(a));
        let rest = in_order(names.remove(a));
        assert(!rest.contains(a)) by {
            assert(rest.to_set().contains(a) == names.remove(a).contains(a));
        }
        let s = with_name(rest, a);
        assert forall|k: Seq<char>| s.to_set().contains(k) == names.contains(k) by {
            assert(s.contains(k) <==> (rest.contains(k) || k == a));
            assert(rest.to_set().contains(k) == names.remove(a).contains(k));
        }
        assert(s.to_set() =~= names);
        assert(ascending(s));
    }
}

/// Whether `a` comes before `b`.
pub fn is_before(a: &str, b: &str) -> (res: bool)
    ensures
        res == before(a@, b@),
{
    let x = chars_of(a);
    let y = chars_of(b);
    let mut i: usize = 0;
    assert(a@.skip(0) =~= a@ && b@.skip(0) =~= b@);
    while i < x.len() && i < y.len()
        invariant
            x@ == a@,
            y@ == b@,
            i <= x.len(),
            i <= y.len(),
            before(a@.skip(i as int), b@.skip(i as int)) == before(a@, b@),
        decreases x.len() - i,
    {
        if x[i] != y[i] {
            return x[i] < y[i];
        }
        assert(a@.skip(i as int).drop_first() =~= a@.skip(i + 1));
        assert(b@.skip(i as int).drop_first() =~= b@.skip(i + 1));
        i = i + 1;
    }
    i < y.len()
}

/// A map from names to values, kept in name order.
pub struct NameMap<V> {
    entries: Vec<(String, V)>,
}

pub closed spec fn held_at<V>(entries: Seq<(String, V)>, name: Seq<char>, i: int) -> bool {
    0 <= i < entries.len() && entries[i].0@ == name
}

impl<V> View for NameMap<V> {
    type V = Map<Seq<char>, V>;

    closed spec fn view(&self) -> Map<Seq<char>, V> {
        Map::new(
            |name: Seq<char>| exists|i: int| held_at(self.entries@, name, i),
            |name: Seq<char>| self.entries@[choose|i: int| held_at(self.entries@, name, i)].1,
        )
    }
}

impl<V> NameMap<V> {
    /// The entries stand in ascending name order.
    pub closed spec fn wf(&self) -> bool {
        ascending(self.order())
    }

    /// The names in the order in which they stand.
    pub closed spec fn order(&self) -> Seq<Seq<char>> {
        self.entries@.map_values(|e: (String, V)| e.0@)
    }

    /// The order holds the map's names, each once, ascending.
    pub proof fn order_is_domain(&self)
        requires
            self.wf(),
        ensures
            ascending(self.order()),
            forall|name: Seq<char>| #[trigger] self.order().contains(name) <==> self@.contains_key(name),
            forall|i: int| 0 <= i < self.order().len() ==> self@.contains_key(#[trigger] self.order()[i]),
            self.order().to_set() == self@.dom(),
            self.order() == in_order(self@.dom()),
            self@.dom().finite(),
            self@.dom().len() == self.order().len(),
    {
        assert forall|name: Seq<char>| #[trigger] self.order().contains(name) <==> self@.contains_key(name) by {
            if self.order().contains(name) {
                let i = choose|i: int| 0 <= i < self.order().len() && self.order()[i] == name;
                assert(held_at(self.entries@, name, i));
            }
            if self@.contains_key(name) {
                let i = choose|i: int| held_at(self.entries@, name, i);
                assert(self.order()[i] == name);
            }
        }
        assert forall|i: int| 0 <= i < self.order().len() implies self@.contains_key(#[trigger] self.order()[i]) by {
            assert(self.order().contains(self.order()[i]));
        }
        assert(self.order().to_set() =~= self@.dom());
        assert(self.order().no_duplicates()) by {
            assert forall|i: int, j: int| 0 <= i < self.order().len() && 0 <= j < self.order().len() && i != j
                implies self.order()[i] != self.order()[j] by {
                before_irreflexive(self.order()[i]);
                if i < j {
                    assert(before(self.order()[i], self.order()[j]));
                } else {
                    assert(before(self.order()[j], self.order()[i]));
                }
            }
        }
        self.order().unique_seq_to_set();
        in_order_is(self.order());
    }

    proof fn value_of(&self, i: int)
        requires
            self.wf(),
            0 <= i < self.entries@.len(),
        ensures
            self@.contains_key(self.entries@[i].0@),
            self@[self.entries@[i].0@] == self.entries@[i].1,
    {
        let name = self.entries@[i].0@;
        assert(held_at(self.entries@, name, i));
        let j = choose|j: int| held_at(self.entries@, name, j);
        before_irreflexive(name);
        assert(self.order()[i] == name && self.order()[j] == name);
        if i < j {
            assert(before(self.order()[i], self.order()[j]));
        }
        if j < i {
            assert(before(self.order()[j], self.order()[i]));
        }
    }

    pub fn new() -> (res: Self)
        ensures
            res.wf(),
            res@ == Map::<Seq<char>, V>::empty(),
    {
        let res = NameMap { entries: Vec::new() };
        assert(res@ =~= Map::<Seq<char>, V>::empty());
        res
    }

    pub fn len(&self) -> (res: usize)
        requires
            self.wf(),
        ensures
            res == self.order().len(),
            res == self@.dom().len(),
    {
        proof {
            self.order_is_domain();
        }
        self.entries.len()
    }

    /// The first position whose name does not come before `name`.
    fn position(&self, name: &str) -> (res: usize)
        requires
            self.wf(),
        ensures
            0 <= res <= self.entries@.len(),
            forall|i: int| 0 <= i < res ==> before(#[trigger] self.order()[i], name@),
            forall|i: int| res <= i < self.entries@.len() ==> !before(#[trigger] self.order()[i], name@),
    {
        let mut lo: usize = 0;
        let mut hi: usize = self.entries.len();
        while lo < hi
            invariant
                self.wf(),
                lo <= hi <= self.entries@.len(),
                forall|i: int| 0 <= i < lo ==> before(#[trigger] self.order()[i], name@),
                forall|i: int| hi <= i < self.entries@.len() ==> !before(#[trigger] self.order()[i], name@),
            decreases hi - lo,
        {
            let mid: usize = lo + (hi - lo) / 2;
            assert(self.order()[mid as int] == self.entries@[mid as int].0@);
            if is_before(self.entries[mid].0.as_str(), name) {
                proof {
                    assert forall|i: int| 0 <= i < mid + 1 implies before(#[trigger] self.order()[i], name@) by {
                        if i < mid {
                            before_transitive(self.order()[i], self.order()[mid as int], name@);
                        }
                    }
                }
                lo = mid + 1;
            } else {
                proof {
                    assert forall|i: int| mid <= i < self.entries@.len() implies !before(#[trigger] self.order()[i], name@) by {
                        if i > mid && before(self.order()[i], name@) {
                            before_transitive(self.order()[mid as int], self.order()[i], name@);
                        }
                    }
                }
                hi = mid;
            }
        }
        lo
    }

    /// The position of `name`, if it is there.
    fn find(&self, name: &str) -> (res: Option<usize>)
        requires
            self.wf(),
        ensures
            match res {
                Some(i) => i < self.entries@.len() && self.entries@[i as int].0@ == name@ && self@.contains_key(name@)
                    && self@[name@] == self.entries@[i as int].1,
                None => !self@.contains_key(name@),
            },
    {
        let i: usize = self.position(name);
        proof {
            if self@.contains_key(name@) {
                let j = choose|j: int| held_at(self.entries@, name@, j);
                before_irreflexive(name@);
                assert(self.order()[j] == name@);
                if i < j {
                    before_total(self.order()[i as int], name@);
                    assert(before(self.order()[i as int], self.order()[j]));
                }
                assert(i == j);
            }
        }
        if i < self.entries.len() && same(self.entries[i].0.as_str(), name) {
            proof {
                self.value_of(i as int);
            }
            Some(i)
        } else {
            None
        }
    }

    pub fn contains(&self, name: &str) -> (res: bool)
        requires
            self.wf(),
        ensures
            res == self@.contains_key(name@),
    {
        self.find(name).is_some()
    }

    pub fn get(&self, name: &str) -> (res: Option<&V>)
        requires
            self.wf(),
        ensures
            match res {
                Some(v) => self@.contains_key(name@) && *v == self@[name@],
                None => !self@.contains_key(name@),
            },
    {
        match self.find(name) {
            Some(i) => Some(&self.entries[i].1),
            None => None,
        }
    }

    pub fn get_mut(&mut self, name: &str) -> (res: Option<&mut V>)
        requires
            old(self).wf(),
        ensures
            final(self).wf(),
            final(self).order() == old(self).order(),
            match res {
                Some(v) => old(self)@.contains_key(name@) && *v == old(self)@[name@] && final(self)@ == old(self)@.insert(
                    name@,
                    *final(v),
                ),
                None => !old(self)@.contains_key(name@) && *final(self) == *old(self),
            },
    {
        match self.find(name) {
            Some(i) => Some(self.value_at_mut(i)),
            None => None,
        }
    }

    /// Puts `value` under `name` and returns what stood there.
    pub fn insert(&mut self, name: String, value: V) -> (res: Option<V>)
        requires
            old(self).wf(),
        ensures
            final(self).wf(),
            final(self)@ == old(self)@.insert(name@, value),
            res == if old(self)@.contains_key(name@) { Some(old(self)@[name@]) } else { None::<V> },
    {
        match self.get_mut(name.as_str()) {
            Some(slot) => {
                let mut value = value;
                std::mem::swap(slot, &mut value);
                return Some(value);
            },
            None => {},
        }
        let i: usize = self.position(name.as_str());
        let ghost was = *self;
        self.entries.insert(i, (name, value));
        proof {
            let now = *self;
            was.order_is_domain();
            assert(now.order() =~= was.order().insert(i as int, name@));
            assert forall|a: int, b: int| 0 <= a < b < now.order().len() implies before(
                #[trigger] now.order()[a],
                #[trigger] now.order()[b],
            ) by {
                let x = if a < i { a } else { a - 1 };
                let y = if b < i { b } else { b - 1 };
                if a != i && b != i {
                    assert(before(was.order()[x], was.order()[y]));
                } else if a == i {
                    before_total(was.order()[y], name@);
                    assert(was.order().contains(was.order()[y]));
                }
            }
            now.order_is_domain();
            assert forall|k: Seq<char>| now@.contains_key(k) <==> was@.insert(name@, value).contains_key(k) by {
                if now@.contains_key(k) {
                    let j = choose|j: int| 0 <= j < now.order().len() && now.order()[j] == k;
                    if j < i {
                        assert(was.order()[j] == k);
                    } else if j > i {
                        assert(was.order()[j - 1] == k);
                    }
                }
                if was@.contains_key(k) {
                    let j = choose|j: int| 0 <= j < was.order().len() && was.order()[j] == k;
                    if j < i {
                        assert(now.order()[j] == k);
                    } else {
                        assert(now.order()[j + 1] == k);
                    }
                }
                assert(now.order()[i as int] == name@);
            }
            assert forall|k: Seq<char>| now@.contains_key(k) implies now@[k] == was@.insert(name@, value)[k] by {
                let j = choose|j: int| 0 <= j < now.order().len() && now.order()[j] == k;
                now.value_of(j);
                if j < i {
                    was.value_of(j);
                } else if j > i {
                    was.value_of(j - 1);
                }
            }
            assert(now@ =~= was@.insert(name@, value));
        }
        None
    }

    /// Takes `name` out and returns what stood there.
    pub fn remove(&mut self, name: &str) -> (res: Option<V>)
        requires
            old(self).wf(),
        ensures
            final(self).wf(),
            final(self)@ == old(self)@.remove(name@),
            res == if old(self)@.contains_key(name@) { Some(old(self)@[name@]) } else { None::<V> },
    {
        let i: usize = match self.find(name) {
            Some(i) => i,
            None => {
                assert(self@ =~= old(self)@.remove(name@));
                return None;
            },
        };
        let ghost was = *self;
        let (_, value) = self.entries.remove(i);
        proof {
            let now = *self;
            was.order_is_domain();
            assert(now.order() =~= was.order().remove(i as int));
            assert forall|a: int, b: int| 0 <= a < b < now.order().len() implies before(
                #[trigger] now.order()[a],
                #[trigger] now.order()[b],
            ) by {
                let x = if a < i { a } else { a + 1 };
                let y = if b < i { b } else { b + 1 };
                assert(before(was.order()[x], was.order()[y]));
            }
            now.order_is_domain();
            assert forall|k: Seq<char>| now@.contains_key(k) <==> was@.remove(name@).contains_key(k) by {
                before_irreflexive(name@);
                if now@.contains_key(k) {
                    let j = choose|j: int| 0 <= j < now.order().len() && now.order()[j] == k;
                    if j < i {
                        assert(was.order()[j] == k);
                        assert(before(was.order()[j], was.order()[i as int]));
                    } else {
                        assert(was.order()[j + 1] == k);
                        assert(before(was.order()[i as int], was.order()[j + 1]));
                    }
                }
                if was@.remove(name@).contains_key(k) {
                    let j = choose|j: int| 0 <= j < was.order().len() && was.order()[j] == k;
                    if j < i {
                        assert(now.order()[j] == k);
                    } else {
                        assert(now.order()[j - 1] == k);
                    }
                }
            }
            assert forall|k: Seq<char>| now@.contains_key(k) implies now@[k] == was@.remove(name@)[k] by {
                let j = choose|j: int| 0 <= j < now.order().len() && now.order()[j] == k;
                now.value_of(j);
                if j < i {
                    was.value_of(j);
                } else {
                    was.value_of(j + 1);
                }
            }
            assert(now@ =~= was@.remove(name@));
        }
        Some(value)
    }

    /// The name at a position.
    pub fn key_at(&self, i: usize) -> (res: &String)
        requires
            self.wf(),
            i < self.order().len(),
        ensures
            res@ == self.order()[i as int],
            self@.contains_key(res@),
    {
        proof {
            self.value_of(i as int);
        }
        &self.entries[i].0
    }

    /// The value at a position.
    pub fn value_at(&self, i: usize) -> (res: &V)
        requires
            self.wf(),
            i < self.order().len(),
        ensures
            *res == self@[self.order()[i as int]],
    {
        proof {
            self.value_of(i as int);
        }
        &self.entries[i].1
    }

    /// The value at a position, for changing.
    pub fn value_at_mut(&mut self, i: usize) -> (res: &mut V)
        requires
            old(self).wf(),
            i < old(self).order().len(),
        ensures
            final(self).wf(),
            final(self).order() == old(self).order(),
            *res == old(self)@[old(self).order()[i as int]],
            final(self)@ == old(self)@.insert(old(self).order()[i as int], *final(res)),
    {
        proof {
            self.value_of(i as int);
        }
        let res = &mut self.entries[i].1;
        proof {
            let name = old(self).order()[i as int];
                let was = *old(self);
            let now = *after_borrow(self);
            assert(now.entries@ =~= was.entries@.update(i as int, (was.entries@[i as int].0, *final(res))));
            assert(now.order() =~= was.order());
            was.order_is_domain();
            now.order_is_domain();
            assert forall|k: Seq<char>| now@.contains_key(k) implies now@[k] == was@.insert(name, *final(res))[k] by {
                assert(now.order().contains(k));
                let j = choose|j: int| 0 <= j < now.order().len() && now.order()[j] == k;
                now.value_of(j);
                was.value_of(j);
                if j != i {
                    before_irreflexive(k);
                    if j < i {
                        assert(before(was.order()[j], was.order()[i as int]));
                    } else {
                        assert(before(was.order()[i as int], was.order()[j]));
                    }
                }
            }
            assert forall|k: Seq<char>| now@.contains_key(k) <==> was@.insert(name, *final(res)).contains_key(k) by {
                assert(now.order().contains(k) == was.order().contains(k));
            }
            assert(now@ =~= was@.insert(name, *final(res)));
        }
        res
    }
}

/// A set of names, kept in name order.
pub struct NameSet {
    members: NameMap<()>,
}

impl View for NameSet {
    type V = Set<Seq<char>>;

    closed spec fn view(&self) -> Set<Seq<char>> {
        self.members@.dom()
    }
}

impl NameSet {
    pub closed spec fn wf(&self) -> bool {
        self.members.wf()
    }

    /// The names in the order in which they stand.
    pub closed spec fn order(&self) -> Seq<Seq<char>> {
        self.members.order()
    }

    /// The order holds the set's names, each once, ascending.
    pub proof fn order_is_members(&self)
        requires
            self.wf(),
        ensures
            ascending(self.order()),
            forall|name: Seq<char>| #[trigger] self.order().contains(name) <==> self@.contains(name),
            forall|i: int| 0 <= i < self.order().len() ==> self@.contains(#[trigger] self.order()[i]),
            self.order().to_set() == self@,
            self.order() == in_order(self@),
            self@.finite(),
            self@.len() == self.order().len(),
    {
        self.members.order_is_domain();
    }

    pub fn new() -> (res: Self)
        ensures
            res.wf(),
            res@ == Set::<Seq<char>>::empty(),
    {
        let res = NameSet { members: NameMap::new() };
        assert(res@ =~= Set::<Seq<char>>::empty());
        res
    }

    pub fn len(&self) -> (res: usize)
        requires
            self.wf(),
        ensures
            res == self.order().len(),
            res == self@.len(),
    {
        self.members.len()
    }

    pub fn is_empty(&self) -> (res: bool)
        requires
            self.wf(),
        ensures
            res == (self@ == Set::<Seq<char>>::empty()),
            res == (self.order().len() == 0),
    {
        let res = self.members.len() == 0;
        proof {
            self.order_is_members();
            if res {
                assert(self@ =~= Set::<Seq<char>>::empty());
            } else {
                assert(self@.contains(self.order()[0]));
            }
        }
        res
    }

    pub fn contains(&self, name: &str) -> (res: bool)
        requires
            self.wf(),
        ensures
            res == self@.contains(name@),
    {
        self.members.contains(name)
    }

    /// Puts `name` in; true if it was not there.
    pub fn insert(&mut self, name: String) -> (res: bool)
        requires
            old(self).wf(),
        ensures
            final(self).wf(),
            final(self)@ == old(self)@.insert(name@),
            res == !old(self)@.contains(name@),
    {
        let was = self.members.insert(name, ());
        assert(self@ =~= old(self)@.insert(name@));
        was.is_none()
    }

    /// Takes `name` out; true if it was there.
    pub fn remove(&mut self, name: &str) -> (res: bool)
        requires
            old(self).wf(),
        ensures
            final(self).wf(),
            final(self)@ == old(self)@.remove(name@),
            res == old(self)@.contains(name@),
    {
        let was = self.members.remove(name);
        assert(self@ =~= old(self)@.remove(name@));
        was.is_some()
    }

    /// The name at a position.
    pub fn at(&self, i: usize) -> (res: &String)
        requires
            self.wf(),
            i < self.order().len(),
        ensures
            res@ == self.order()[i as int],
            self@.contains(res@),
    {
        self.members.key_at(i)
    }

    /// A set with the same names.
    pub fn copy(&self) -> (res: Self)
        requires
            self.wf(),
        ensures
            res.wf(),
            res@ == self@,
    {
        let mut res = NameSet::new();
        let n: usize = self.len();
        let mut i: usize = 0;
        assert(self.order().take(0).to_set() =~= Set::<Seq<char>>::empty());
        while i < n
            invariant
                self.wf(),
                res.wf(),
                n == self.order().len(),
                i <= n,
                res@ == self.order().take(i as int).to_set(),
            decreases n - i,
        {
            res.insert(self.at(i).clone());
            assert(self.order().take(i + 1) =~= self.order().take(i as int).push(self.order()[i as int]));
            proof {
                self.order().take(i as int).lemma_push_to_set_commute(self.order()[i as int]);
            }
            i = i + 1;
        }
        proof {
            assert(self.order().take(n as int) =~= self.order());
            self.order_is_members();
        }
        res
    }

    /// Whether two sets hold the same names.
    pub fn equals(&self, other: &NameSet) -> (res: bool)
        requires
            self.wf(),
            other.wf(),
        ensures
            res == (self@ == other@),
    {
        let n: usize = self.len();
        proof {
            self.order_is_members();
            other.order_is_members();
        }
        if n != other.len() {
            return false;
        }
        let mut i: usize = 0;
        while i < n
            invariant
                self.wf(),
                other.wf(),
                n == self.order().len(),
                n == other.order().len(),
                i <= n,
                forall|j: int| 0 <= j < i ==> self.order()[j] == #[trigger] other.order()[j],
            decreases n - i,
        {
            if !same(self.at(i).as_str(), other.at(i).as_str()) {
                proof {
                    if self@ == other@ {
                        self.order_is_members();
                        other.order_is_members();
                        ascending_unique(self.order(), other.order());
                    }
                }
                return false;
            }
            i = i + 1;
        }
        assert(self.order() =~= other.order());
        true
    }

    /// The set of the names in a list.
    pub fn of(names: &Vec<String>) -> (res: Self)
        ensures
            res.wf(),
            res@ == views(names@).to_set(),
    {
        let mut res = NameSet::new();
        let mut i: usize = 0;
        assert(views(names@).take(0).to_set() =~= Set::<Seq<char>>::empty());
        while i < names.len()
            invariant
                res.wf(),
                i <= names.len(),
                res@ == views(names@).take(i as int).to_set(),
            decreases names.len() - i,
        {
            res.insert(names[i].clone());
            proof {
                let all = views(names@);
                assert(all.take(i + 1) =~= all.take(i as int).push(all[i as int]));
                all.take(i as int).lemma_push_to_set_commute(all[i as int]);
            }
            i = i + 1;
        }
        assert(views(names@).take(names.len() as int) =~= views(names@));
        res
    }

    /// The names, ascending.
    pub fn names(&self) -> (res: Vec<String>)
        requires
            self.wf(),
        ensures
            views(res@) == self.order(),
            ascending(views(res@)),
            views(res@).to_set() == self@,
    {
        let mut res: Vec<String> = Vec::new();
        let n: usize = self.len();
        let mut i: usize = 0;
        while i < n
            invariant
                self.wf(),
                n == self.order().len(),
                i <= n,
                views(res@) == self.order().take(i as int),
            decreases n - i,
        {
            let name = self.at(i).clone();
            res.push(name);
            assert(views(res@) =~= self.order().take(i as int).push(name@));
            assert(views(res@) =~= self.order().take(i + 1));
            i = i + 1;
        }
        proof {
            assert(views(res@) =~= self.order());
            self.order_is_members();
        }
        res
    }
}

/// The characters of an optional string.
pub open spec fn opt_view(s: Option<&str>) -> Option<Seq<char>> {
    match s {
        Some(t) => Some(t@),
        None => None,
    }
}

/// The character sequences that a sequence of strings holds.
pub open spec fn views(names: Seq<String>) -> Seq<Seq<char>> {
    names.map_values(|s: String| s@)
}

/// Names are ordered by the first character in which they differ, by code
/// point; a name comes before every longer one that begins with it. What is
/// returned is how far two names agree.
pub proof fn names_are_ordered_by_code_point(a: Seq<char>, b: Seq<char>) -> (k: int)
    ensures
        0 <= k <= a.len(),
        k <= b.len(),
        forall|i: int| 0 <= i < k ==> a[i] == b[i],
        k == a.len() || k == b.len() || a[k] != b[k],
        before(a, b) <==> k < b.len() && (k == a.len() || (a[k] as int) < (b[k] as int)),
    decreases a.len(),
{
    if a.len() == 0 || b.len() == 0 || a[0] != b[0] {
        0
    } else {
        let k = names_are_ordered_by_code_point(a.drop_first(), b.drop_first());
        assert forall|i: int| 0 <= i < k + 1 implies a[i] == b[i] by {
            if i > 0 {
                assert(a.drop_first()[i - 1] == b.drop_first()[i - 1]);
            }
        }
        k + 1
    }
}

} // verus!
