//! Environments: what the variables of a graph stand for.

use vstd::prelude::*;
use crate::error::EvalError;
use crate::model::Fault;
use crate::nn::{Atom, AtomKind, AtomV};
use crate::scalar::Scalar;
use crate::text;
use crate::value;
use crate::value::Value;

verus! {

/// Generic mapping of variable names to *something*, in the order of the names.
#[derive(Debug)]
pub struct Env<T> {
    names: Vec<String>,
    values: Vec<T>,
}

/// Whether names stand in strictly ascending order.
pub open spec fn ascending(names: Seq<Seq<char>>) -> bool {
    forall|i: int, j: int|
        0 <= i < j < names.len() ==> text::precedes(#[trigger] names[i], #[trigger] names[j])
}

/// Whether `names` holds `k`.
pub open spec fn named(names: Seq<Seq<char>>, k: Seq<char>) -> bool {
    exists|i: int| 0 <= i < names.len() && #[trigger] names[i] == k
}

/// Where `k` stands in `names`.
pub open spec fn place(names: Seq<Seq<char>>, k: Seq<char>) -> int {
    choose|i: int| 0 <= i < names.len() && #[trigger] names[i] == k
}

/// The mapping that parallel lists of names and values make up.
pub open spec fn pairing<T>(names: Seq<Seq<char>>, values: Seq<T>) -> Map<Seq<char>, T> {
    Map::new(|k: Seq<char>| named(names, k), |k: Seq<char>| values[place(names, k)])
}

/// A name in ascending names stands in one place only.
pub proof fn lemma_place(names: Seq<Seq<char>>, i: int)
    requires
        ascending(names),
        0 <= i < names.len(),
    ensures
        named(names, names[i]),
        place(names, names[i]) == i,
{
    let k = names[i];
    let j = place(names, k);
    assert(0 <= j < names.len() && names[j] == k);
    text::lemma_precedes_total(k, k);
    if j < i {
        assert(text::precedes(names[j], names[i]));
    } else if i < j {
        assert(text::precedes(names[i], names[j]));
    }
}

impl<T> Env<T> {
    #[verifier::type_invariant]
    spec fn inv(self) -> bool {
        self.names@.len() == self.values@.len() && ascending(self.names())
    }

    /// The names, in ascending order.
    pub closed spec fn names(&self) -> Seq<Seq<char>> {
        Seq::new(self.names@.len(), |i: int| self.names@[i]@)
    }

    /// The values, in the order of their names.
    pub closed spec fn values(&self) -> Seq<T> {
        self.values@
    }

    /// The names are ascending, each with one value.
    pub open spec fn wf(&self) -> bool {
        ascending(self.names()) && self.names().len() == self.values().len()
    }
}

impl<T> View for Env<T> {
    type V = Map<Seq<char>, T>;

    open spec fn view(&self) -> Map<Seq<char>, T> {
        pairing(self.names(), self.values())
    }
}

/// Inserting a new name at its place extends the mapping.
proof fn lemma_insert<T>(names: Seq<Seq<char>>, values: Seq<T>, i: int, k: Seq<char>, v: T)
    requires
        ascending(names),
        names.len() == values.len(),
        0 <= i <= names.len(),
        forall|j: int| 0 <= j < i ==> text::precedes(#[trigger] names[j], k),
        forall|j: int| i <= j < names.len() ==> text::precedes(k, #[trigger] names[j]),
    ensures
        ascending(names.insert(i, k)),
        pairing(names.insert(i, k), values.insert(i, v)) == pairing(names, values).insert(k, v),
        !pairing(names, values).dom().contains(k),
{
    let (n2, v2) = (names.insert(i, k), values.insert(i, v));
    assert forall|a: int, b: int| 0 <= a < b < n2.len() implies text::precedes(
        #[trigger] n2[a],
        #[trigger] n2[b],
    ) by {
        let x = if a < i {
            a
        } else {
            a - 1
        };
        let y = if b < i {
            b
        } else {
            b - 1
        };
        if a != i && b != i {
            assert(text::precedes(names[x], names[y]));
        } else if a == i {
            assert(text::precedes(k, names[y]));
        } else {
            assert(text::precedes(names[x], k));
        }
    }
    assert(!named(names, k)) by {
        if named(names, k) {
            let j = place(names, k);
            text::lemma_precedes_total(k, k);
            assert(text::precedes(names[j], k) || text::precedes(k, names[j]));
        }
    }
    let (p, q) = (pairing(n2, v2), pairing(names, values).insert(k, v));
    assert forall|x: Seq<char>| p.dom().contains(x) <==> q.dom().contains(x) by {
        if named(n2, x) {
            let a = place(n2, x);
            if a < i {
                assert(names[a] == x);
            } else if a > i {
                assert(names[a - 1] == x);
            }
        }
        if named(names, x) {
            let a = place(names, x);
            if a < i {
                assert(n2[a] == x);
            } else {
                assert(n2[a + 1] == x);
            }
        }
        assert(n2[i] == k);
    }
    assert forall|x: Seq<char>| #[trigger] p.dom().contains(x) implies p[x] == q[x] by {
        let a = place(n2, x);
        lemma_place(n2, a);
        if a < i {
            lemma_place(names, a);
            assert(names[a] == x);
        } else if a > i {
            lemma_place(names, a - 1);
            assert(names[a - 1] == x);
        }
        text::lemma_precedes_total(x, x);
    }
    assert(p =~= q);
}

/// Replacing the value of a name updates the mapping.
proof fn lemma_replace<T>(names: Seq<Seq<char>>, values: Seq<T>, i: int, v: T)
    requires
        ascending(names),
        names.len() == values.len(),
        0 <= i < names.len(),
    ensures
        pairing(names, values.update(i, v)) == pairing(names, values).insert(names[i], v),
        pairing(names, values).dom().contains(names[i]),
{
    lemma_place(names, i);
    let (p, q) = (
        pairing(names, values.update(i, v)),
        pairing(names, values).insert(names[i], v),
    );
    assert forall|x: Seq<char>| #[trigger] p.dom().contains(x) implies p[x] == q[x] by {
        lemma_place(names, place(names, x));
    }
    assert(p =~= q);
}

impl<T> Env<T> {
    /// The environment without names.
    pub fn new() -> (r: Env<T>)
        ensures
            r@ == Map::<Seq<char>, T>::empty(),
            r.names() == Seq::<Seq<char>>::empty(),
            r.values() == Seq::<T>::empty(),
    {
        let r = Env { names: Vec::new(), values: Vec::new() };
        assert(r.names() =~= Seq::<Seq<char>>::empty());
        assert(r@ =~= Map::<Seq<char>, T>::empty());
        r
    }

    /// Where a name stands, or where it belongs.
    fn find(&self, key: &str) -> (r: Result<usize, usize>)
        ensures
            match r {
                Ok(i) => i < self.names().len() && self.names()[i as int] == key@,
                Err(i) => {
                    &&& i <= self.names().len()
                    &&& forall|j: int|
                        0 <= j < i ==> text::precedes(#[trigger] self.names()[j], key@)
                    &&& forall|j: int|
                        i <= j < self.names().len() ==> text::precedes(
                            key@,
                            #[trigger] self.names()[j],
                        )
                },
            },
    {
        proof {
            use_type_invariant(self);
        }
        for i in 0..self.names.len()
            invariant
                ascending(self.names()),
                forall|j: int| 0 <= j < i ==> text::precedes(#[trigger] self.names()[j], key@),
        {
            if !text::comes_before(self.names[i].as_str(), key) {
                proof {
                    text::lemma_precedes_total(self.names()[i as int], key@);
                }
                if text::comes_before(key, self.names[i].as_str()) {
                    proof {
                        assert forall|j: int| i <= j < self.names().len() implies text::precedes(
                            key@,
                            #[trigger] self.names()[j],
                        ) by {
                            if j > i {
                                assert(text::precedes(
                                    self.names()[i as int],
                                    self.names()[j],
                                ));
                                text::lemma_precedes_trans(
                                    key@,
                                    self.names()[i as int],
                                    self.names()[j],
                                );
                            }
                        }
                    }
                    return Err(i);
                }
                return Ok(i);
            }
        }
        Err(self.names.len())
    }

    /// What a name stands for.
    pub fn get(&self, key: &str) -> (r: Option<&T>)
        ensures
            match r {
                Some(v) => self@.dom().contains(key@) && *v == self@[key@],
                None => !self@.dom().contains(key@),
            },
    {
        proof {
            use_type_invariant(self);
        }
        match self.find(key) {
            Ok(i) => {
                proof {
                    lemma_place(self.names(), i as int);
                }
                Some(&self.values[i])
            },
            Err(i) => {
                proof {
                    if named(self.names(), key@) {
                        let j = place(self.names(), key@);
                        text::lemma_precedes_total(key@, key@);
                        assert(text::precedes(self.names()[j], key@) || text::precedes(
                            key@,
                            self.names()[j],
                        ));
                    }
                }
                None
            },
        }
    }

    /// Makes a name stand for a value.
    pub fn insert(&mut self, key: String, value: T)
        ensures
            final(self)@ == old(self)@.insert(key@, value),
    {
        proof {
            use_type_invariant(&*self);
        }
        let found = self.find(key.as_str());
        let mut whole = Env::new();
        std::mem::swap(&mut whole, self);
        let Env { mut names, mut values } = whole;
        let ghost old_names = Seq::new(names@.len(), |i: int| names@[i]@);
        let ghost old_values = values@;
        match found {
            Ok(i) => {
                values.set(i, value);
                proof {
                    lemma_replace(old_names, old_values, i as int, value);
                }
            },
            Err(i) => {
                proof {
                    lemma_insert(old_names, old_values, i as int, key@, value);
                }
                names.insert(i, key);
                values.insert(i, value);
                assert(Seq::new(names@.len(), |i: int| names@[i]@) =~= old_names.insert(
                    i as int,
                    key@,
                ));
            },
        }
        *self = Env { names, values };
    }

    /// Replaces what a name stands for, if it stands for something.
    pub fn update(&mut self, key: &str, new_value: T) -> (r: bool)
        ensures
            r == old(self)@.dom().contains(key@),
            final(self)@ == (if r {
                old(self)@.insert(key@, new_value)
            } else {
                old(self)@
            }),
    {
        let known = self.get(key).is_some();
        if known {
            self.insert(text::copied(key), new_value);
            true
        } else {
            false
        }
    }

    /// The number of names.
    pub fn len(&self) -> (r: usize)
        ensures
            r == self.names().len(),
            self.wf(),
    {
        proof {
            use_type_invariant(self);
        }
        self.names.len()
    }

    /// Whether there are no names.
    pub fn is_empty(&self) -> (r: bool)
        ensures
            r == (self@ == Map::<Seq<char>, T>::empty()),
            !r ==> self.names().len() > 0 && self@.dom().contains(self.names()[0]),
    {
        proof {
            use_type_invariant(self);
            if self.names().len() > 0 {
                lemma_place(self.names(), 0);
                assert(self@.dom().contains(self.names()[0]));
            } else {
                assert(self@ =~= Map::<Seq<char>, T>::empty());
            }
        }
        self.names.len() == 0
    }

    /// Name number `i` in ascending order.
    pub fn name_at(&self, i: usize) -> (r: &String)
        requires
            i < self.names().len(),
        ensures
            r@ == self.names()[i as int],
    {
        &self.names[i]
    }

    /// The value of name number `i` in ascending order.
    pub fn value_at(&self, i: usize) -> (r: &T)
        requires
            i < self.names().len(),
        ensures
            *r == self.values()[i as int],
    {
        proof {
            use_type_invariant(self);
        }
        &self.values[i]
    }
}

/// Whether `names` lists the domain of a mapping in ascending order.
pub open spec fn lists<V>(names: Seq<Seq<char>>, m: Map<Seq<char>, V>) -> bool {
    &&& ascending(names)
    &&& forall|k: Seq<char>| named(names, k) <==> #[trigger] m.dom().contains(k)
}

/// The names in the domain of a mapping, in ascending order.
pub open spec fn sorted_names<V>(m: Map<Seq<char>, V>) -> Seq<Seq<char>> {
    choose|names: Seq<Seq<char>>| lists(names, m)
}

/// There is one way to list names in ascending order.
pub proof fn lemma_ascending_unique(a: Seq<Seq<char>>, b: Seq<Seq<char>>)
    requires
        ascending(a),
        ascending(b),
        forall|k: Seq<char>| named(a, k) <==> named(b, k),
    ensures
        a == b,
    decreases a.len(),
{
    if a.len() == 0 {
        if b.len() > 0 {
            lemma_place(b, 0);
            assert(named(a, b[0]));
        }
        assert(a =~= b);
    } else {
        let n = a.len() - 1;
        lemma_place(a, n);
        assert(named(b, a[n]));
        let m = b.len() - 1;
        lemma_place(b, m);
        assert(named(a, b[m]));
        let j = place(b, a[n]);
        let i = place(a, b[m]);
        text::lemma_precedes_total(a[n], b[m]);
        if j < m {
            assert(text::precedes(b[j], b[m]));
            if i < n {
                assert(text::precedes(a[i], a[n]));
            }
        }
        assert(a[n] == b[m]);
        let (x, y) = (a.drop_last(), b.drop_last());
        assert forall|k: Seq<char>| named(x, k) <==> named(y, k) by {
            if named(x, k) {
                let p = place(x, k);
                assert(a[p] == k);
                lemma_place(a, p);
                assert(named(b, k));
                let q = place(b, k);
                lemma_place(a, n);
                assert(q != m);
                assert(y[q] == k);
            }
            if named(y, k) {
                let p = place(y, k);
                assert(b[p] == k);
                lemma_place(b, p);
                assert(named(a, k));
                let q = place(a, k);
                lemma_place(b, m);
                assert(q != n);
                assert(x[q] == k);
            }
        }
        lemma_ascending_unique(x, y);
        assert(a =~= x.push(a[n]));
        assert(b =~= y.push(b[m]));
    }
}

/// What lists the domain of a mapping is its sorted names.
pub proof fn lemma_sorted_names<V>(names: Seq<Seq<char>>, m: Map<Seq<char>, V>)
    requires
        lists(names, m),
    ensures
        sorted_names(m) == names,
{
    let other = sorted_names(m);
    assert(lists(other, m));
    assert forall|k: Seq<char>| named(names, k) <==> named(other, k) by {
        assert(named(names, k) <==> m.dom().contains(k));
    }
    lemma_ascending_unique(names, other);
}

/// The mathematical environment.
pub open spec fn scope<S: Scalar, T: Value<S>>(e: Map<Seq<char>, T>) -> Map<Seq<char>, T::M> {
    Map::new(|k: Seq<char>| e.dom().contains(k), |k: Seq<char>| e[k].m())
}

/// Inserting commutes with taking mathematical values.
pub proof fn lemma_scope_insert<S: Scalar, T: Value<S>>(
    e: Map<Seq<char>, T>,
    k: Seq<char>,
    v: T,
)
    ensures
        scope::<S, T>(e.insert(k, v)) == scope::<S, T>(e).insert(k, v.m()),
{
    assert(scope::<S, T>(e.insert(k, v)) =~= scope::<S, T>(e).insert(k, v.m()));
}

/// What an operand stands for: its constant, or what its name stands for.
pub open spec fn resolved<S: Scalar, T: Value<S>>(e: Map<Seq<char>, T::M>, a: AtomV<S>) -> Result<
    T::M,
    Fault,
> {
    match a.value {
        Some(t) => Ok(T::constant(t)),
        None => if e.dom().contains(a.name) {
            Ok(e[a.name])
        } else {
            Err(Fault::Undefined(a.name))
        },
    }
}

impl<T> Env<T> {
    /// What an operand stands for. A name that stands for nothing is an error.
    pub fn resolve<S: Scalar>(&self, atom: &Atom<S>) -> (r: Result<T, EvalError>) where
        T: Value<S>,

        ensures
            value::result::<S, T>(r) == resolved::<S, T>(scope::<S, T>(self@), atom@),
    {
        match &atom.kind {
            AtomKind::Const(data) => Ok(T::lift(data.dup())),
            AtomKind::Var => match self.get(atom.name.as_str()) {
                Some(v) => Ok(v.copy()),
                None => Err(EvalError::Undefined(atom.name.clone())),
            },
        }
    }
}

} // verus!
