//! One lexical scope: an ordered mapping from variable names to values,
//! torn down exactly once when the scope ends.
//!
//! The scope owns the heap blocks of its `Owned` bindings and must
//! release each exactly once; `Reference` bindings alias blocks owned
//! elsewhere and are never released here. Teardown walks the bindings,
//! frees exactly the owned ones, and consumes the environment: any later
//! operation fails with a use-after-teardown error.

use vstd::prelude::*;
use crate::value::Value;

verus! {

/// The recoverable error conditions of an environment.
#[derive(Debug, PartialEq, Eq)]
pub enum EnvError {
    /// A lookup asked for a name that has no binding in this
    /// environment; the offending name is carried along so the caller
    /// can report it.
    BindingNotFound { name: String },
    /// An operation ran on an environment whose teardown had already
    /// happened.
    UseAfterTeardown,
}

/// Whether every name occurs at most once among the entries.
pub open spec fn distinct_names(entries: Seq<(Seq<char>, Value)>) -> bool {
    forall|i: int, j: int| 0 <= i < j < entries.len() ==> entries[i].0 != entries[j].0
}

/// The mapping that a sequence of (name, value) entries denotes: a later
/// entry for a name overwrites an earlier one.
pub open spec fn map_of(entries: Seq<(Seq<char>, Value)>) -> Map<Seq<char>, Value>
    decreases entries.len(),
{
    if entries.len() == 0 {
        Map::empty()
    } else {
        map_of(entries.drop_last()).insert(entries.last().0, entries.last().1)
    }
}

/// The block ids that tearing down a scope with these values, in this
/// order, releases: the payload of each owned value, in order, and
/// nothing for the references.
pub open spec fn freed_ids(vs: Seq<Value>) -> Seq<u64>
    decreases vs.len(),
{
    if vs.len() == 0 {
        Seq::empty()
    } else if vs.last().spec_is_owned() {
        freed_ids(vs.drop_last()).push(vs.last().spec_payload())
    } else {
        freed_ids(vs.drop_last())
    }
}

/// A name that occurs in no entry is not in the denoted mapping.
proof fn lemma_map_of_absent(entries: Seq<(Seq<char>, Value)>, n: Seq<char>)
    requires
        forall|i: int| 0 <= i < entries.len() ==> entries[i].0 != n,
    ensures
        !map_of(entries).contains_key(n),
    decreases entries.len(),
{
    if entries.len() > 0 {
        lemma_map_of_absent(entries.drop_last(), n);
    }
}

/// With distinct names, the entry holding a name gives its value in the
/// denoted mapping.
proof fn lemma_map_of_found(entries: Seq<(Seq<char>, Value)>, n: Seq<char>, i: int)
    requires
        0 <= i < entries.len(),
        entries[i].0 == n,
        distinct_names(entries),
    ensures
        map_of(entries).contains_key(n),
        map_of(entries)[n] == entries[i].1,
    decreases entries.len(),
{
    if i < entries.len() - 1 {
        lemma_map_of_found(entries.drop_last(), n, i);
        assert(entries.last().0 != n);
    }
}

/// With distinct names, replacing the entry that holds a name denotes
/// the same mapping as inserting the new value for that name.
proof fn lemma_map_of_update(entries: Seq<(Seq<char>, Value)>, i: int, n: Seq<char>, v: Value)
    requires
        0 <= i < entries.len(),
        entries[i].0 == n,
        distinct_names(entries),
    ensures
        map_of(entries.update(i, (n, v))) == map_of(entries).insert(n, v),
    decreases entries.len(),
{
    let upd = entries.update(i, (n, v));
    if i == entries.len() - 1 {
        assert(upd.drop_last() =~= entries.drop_last());
        assert(map_of(upd) =~= map_of(entries).insert(n, v));
    } else {
        lemma_map_of_update(entries.drop_last(), i, n, v);
        assert(upd.drop_last() =~= entries.drop_last().update(i, (n, v)));
        assert(entries.last().0 != n);
        assert(map_of(upd) =~= map_of(entries).insert(n, v));
    }
}

/// The bindings that a sequence of definitions produces when applied in
/// order to a starting map: each definition overwrites any earlier
/// binding of its name, as `Env::define` does.
pub open spec fn define_all(
    m: Map<Seq<char>, Value>,
    defs: Seq<(Seq<char>, Value)>,
) -> Map<Seq<char>, Value>
    decreases defs.len(),
{
    if defs.len() == 0 {
        m
    } else {
        define_all(m, defs.drop_last()).insert(defs.last().0, defs.last().1)
    }
}

/// Law: after a sequence of definitions with pairwise distinct names, a
/// lookup of each name finds exactly the value that was defined for it.
pub proof fn lemma_distinct_defines_then_get(
    m: Map<Seq<char>, Value>,
    defs: Seq<(Seq<char>, Value)>,
    i: int,
)
    requires
        0 <= i < defs.len(),
        forall|j: int, k: int| 0 <= j < k < defs.len() ==> defs[j].0 != defs[k].0,
    ensures
        define_all(m, defs).contains_key(defs[i].0),
        define_all(m, defs)[defs[i].0] == defs[i].1,
    decreases defs.len(),
{
    if i < defs.len() - 1 {
        lemma_distinct_defines_then_get(m, defs.drop_last(), i);
        assert(defs.last().0 != defs[i].0);
    }
}

/// Law: defining a name and then immediately defining it again leaves
/// the second value bound; a lookup returns the second value, never the
/// first.
pub proof fn lemma_rebind_overwrites(m: Map<Seq<char>, Value>, n: Seq<char>, v: Value, v2: Value)
    ensures
        m.insert(n, v).insert(n, v2).contains_key(n),
        m.insert(n, v).insert(n, v2)[n] == v2,
{
}

/// Law: tearing down a scope that holds only reference values performs
/// zero free operations; every aliased block is left to its owner.
pub proof fn lemma_teardown_of_references_frees_nothing(vs: Seq<Value>)
    requires
        forall|i: int| 0 <= i < vs.len() ==> !vs[i].spec_is_owned(),
    ensures
        freed_ids(vs) == Seq::<u64>::empty(),
    decreases vs.len(),
{
    if vs.len() > 0 {
        lemma_teardown_of_references_frees_nothing(vs.drop_last());
    }
}

/// Law: tearing down a scope that holds only owned values frees the
/// block of every binding exactly once — the freed ids are exactly the
/// payloads of the bindings, one for one, in definition order.
pub proof fn lemma_teardown_of_owned_frees_each_once(vs: Seq<Value>)
    requires
        forall|i: int| 0 <= i < vs.len() ==> vs[i].spec_is_owned(),
    ensures
        freed_ids(vs) == vs.map_values(|v: Value| v.spec_payload()),
    decreases vs.len(),
{
    if vs.len() > 0 {
        lemma_teardown_of_owned_frees_each_once(vs.drop_last());
        assert(freed_ids(vs) =~= vs.map_values(|v: Value| v.spec_payload()));
    }
}

/// One lexical scope: an ordered mapping from names to values, plus the
/// guard that marks the scope as consumed once it has been torn down.
pub struct Env {
    entries: Vec<(String, Value)>,
    torn_down: bool,
}

impl Env {
    /// The bindings in definition order, each name as its sequence of
    /// characters.
    pub closed spec fn entries_view(self) -> Seq<(Seq<char>, Value)> {
        self.entries@.map_values(|e: (String, Value)| (e.0@, e.1))
    }

    /// Whether this environment may still be used: teardown has not
    /// happened yet.
    pub closed spec fn live(self) -> bool {
        !self.torn_down
    }

    /// The bound names, in definition order.
    pub open spec fn names(self) -> Seq<Seq<char>> {
        self.entries_view().map_values(|e: (Seq<char>, Value)| e.0)
    }

    /// The bound values, in definition order.
    pub open spec fn values(self) -> Seq<Value> {
        self.entries_view().map_values(|e: (Seq<char>, Value)| e.1)
    }

    /// The mapping from bound names to their current values.
    pub open spec fn bindings(self) -> Map<Seq<char>, Value> {
        map_of(self.entries_view())
    }

    /// Whether a name is currently bound.
    pub open spec fn is_bound(self, n: Seq<char>) -> bool {
        self.bindings().contains_key(n)
    }

    /// Each name is bound at most once.
    pub open spec fn wf(self) -> bool {
        distinct_names(self.entries_view())
    }

    /// Create an empty, usable environment for a scope that is being
    /// entered.
    pub fn new() -> (e: Env)
        ensures
            e.wf(),
            e.live(),
            e.entries_view() == Seq::<(Seq<char>, Value)>::empty(),
            e.names() == Seq::<Seq<char>>::empty(),
            e.values() == Seq::<Value>::empty(),
            e.bindings() == Map::<Seq<char>, Value>::empty(),
    {
        let e = Env { entries: Vec::new(), torn_down: false };
        proof {
            assert(e.entries_view() =~= Seq::<(Seq<char>, Value)>::empty());
            assert(e.names() =~= Seq::<Seq<char>>::empty());
        }
        e
    }

    /// The position of the entry bound to `name`, if any.
    fn find(&self, name: &String) -> (r: Option<usize>)
        ensures
            match r {
                Some(i) => i < self.entries_view().len()
                    && self.entries_view()[i as int].0 == name@
                    && (forall|j: int| 0 <= j < i ==> self.entries_view()[j].0 != name@),
                None => forall|j: int|
                    0 <= j < self.entries_view().len() ==> self.entries_view()[j].0 != name@,
            },
    {
        let n = self.entries.len();
        let mut i: usize = 0;
        while i < n
            invariant
                n == self.entries.len(),
                i <= n,
                forall|j: int| 0 <= j < i ==> self.entries_view()[j].0 != name@,
            decreases n - i,
        {
            if self.entries[i].0 == *name {
                return Some(i);
            }
            i += 1;
        }
        None
    }

    /// Look up the value bound to `name` and hand back a copy of the
    /// handle. The environment's own slot stays authoritative for
    /// ownership: the copy must never be independently freed. Fails with
    /// `BindingNotFound` when the name has no binding here, and with
    /// `UseAfterTeardown` once the scope has been torn down.
    pub fn get(&self, name: &String) -> (r: Result<Value, EnvError>)
        requires
            self.wf(),
        ensures
            self.live() && self.is_bound(name@) ==> r == Ok::<Value, EnvError>(
                self.bindings()[name@],
            ),
            self.live() && !self.is_bound(name@) ==> r == Err::<Value, EnvError>(
                EnvError::BindingNotFound { name: *name },
            ),
            !self.live() ==> r == Err::<Value, EnvError>(EnvError::UseAfterTeardown),
    {
        if self.torn_down {
            return Err(EnvError::UseAfterTeardown);
        }
        match self.find(name) {
            Some(i) => {
                proof {
                    lemma_map_of_found(self.entries_view(), name@, i as int);
                }
                Ok(self.entries[i].1)
            },
            None => {
                proof {
                    lemma_map_of_absent(self.entries_view(), name@);
                }
                Err(EnvError::BindingNotFound { name: name.clone() })
            },
        }
    }

    /// Bind `value` under `name`, overwriting any existing binding for
    /// that name. A displaced owned value is freed on the spot — never
    /// silently leaked — and the id of the block that was released is
    /// reported as `Ok(Some(id))`; otherwise the call reports `Ok(None)`.
    /// Fails with `UseAfterTeardown`, changing nothing, once the scope
    /// has been torn down.
    pub fn define(&mut self, name: String, value: Value) -> (r: Result<Option<u64>, EnvError>)
        requires
            old(self).wf(),
        ensures
            final(self).wf(),
            old(self).live() ==> final(self).live(),
            old(self).live() ==> final(self).bindings() == old(self).bindings().insert(
                name@,
                value,
            ),
            old(self).live() && old(self).is_bound(name@) ==> final(self).names() == old(
                self,
            ).names(),
            old(self).live() && old(self).is_bound(name@) ==> final(self).entries_view().len()
                == old(self).entries_view().len(),
            old(self).live() && old(self).is_bound(name@) ==> forall|k: int|
                0 <= k < old(self).entries_view().len() && old(self).entries_view()[k].0 == name@
                    ==> final(self).entries_view()[k] == (name@, value),
            old(self).live() && old(self).is_bound(name@) ==> forall|k: int|
                0 <= k < old(self).entries_view().len() && old(self).entries_view()[k].0 != name@
                    ==> final(self).entries_view()[k] == old(self).entries_view()[k],
            old(self).live() && !old(self).is_bound(name@) ==> final(self).names() == old(
                self,
            ).names().push(name@),
            old(self).live() && !old(self).is_bound(name@) ==> final(self).entries_view() == old(
                self,
            ).entries_view().push((name@, value)),
            old(self).live() ==> r == Ok::<Option<u64>, EnvError>(
                if old(self).is_bound(name@) && old(self).bindings()[name@].spec_is_owned() {
                    Some(old(self).bindings()[name@].spec_payload())
                } else {
                    None
                },
            ),
            !old(self).live() ==> r == Err::<Option<u64>, EnvError>(EnvError::UseAfterTeardown)
                && *final(self) == *old(self),
    {
        if self.torn_down {
            return Err(EnvError::UseAfterTeardown);
        }
        match self.find(&name) {
            Some(i) => {
                proof {
                    lemma_map_of_found(self.entries_view(), name@, i as int);
                    lemma_map_of_update(self.entries_view(), i as int, name@, value);
                }
                let ghost old_view = self.entries_view();
                let displaced = self.entries[i].1;
                self.entries[i] = (name, value);
                proof {
                    assert(self.entries_view() =~= old_view.update(i as int, (name@, value)));
                    assert(self.names() =~= old(self).names());
                }
                if displaced.is_owned() {
                    Ok(Some(displaced.free()))
                } else {
                    Ok(None)
                }
            },
            None => {
                proof {
                    lemma_map_of_absent(self.entries_view(), name@);
                }
                let ghost old_view = self.entries_view();
                self.entries.push((name, value));
                proof {
                    assert(self.entries_view() =~= old_view.push((name@, value)));
                    assert(self.entries_view().drop_last() =~= old_view);
                    assert(self.names() =~= old(self).names().push(name@));
                    assert(self.bindings() =~= old(self).bindings().insert(name@, value));
                }
                Ok(None)
            },
        }
    }

    /// Tear the scope down: visit every binding in definition order,
    /// release the block of each owned value exactly once, leave every
    /// reference untouched, and consume the environment. Returns the
    /// ids of the blocks that were released, in binding order. A second
    /// call finds the scope consumed, frees nothing, and fails with
    /// `UseAfterTeardown`.
    pub fn free(&mut self) -> (r: Result<Vec<u64>, EnvError>)
        ensures
            old(self).live() ==> !final(self).live(),
            old(self).live() ==> final(self).wf(),
            old(self).live() ==> final(self).names() == Seq::<Seq<char>>::empty(),
            old(self).live() ==> final(self).bindings() == Map::<Seq<char>, Value>::empty(),
            old(self).live() ==> (r matches Ok(freed) && freed@ == freed_ids(old(self).values())),
            !old(self).live() ==> r == Err::<Vec<u64>, EnvError>(EnvError::UseAfterTeardown)
                && *final(self) == *old(self),
    {
        if self.torn_down {
            return Err(EnvError::UseAfterTeardown);
        }
        let mut freed: Vec<u64> = Vec::new();
        let n = self.entries.len();
        let mut i: usize = 0;
        while i < n
            invariant
                *self == *old(self),
                n == self.entries.len(),
                i <= n,
                self.values().len() == n,
                freed@ == freed_ids(self.values().take(i as int)),
            decreases n - i,
        {
            let ghost prefix = self.values().take(i as int);
            let v = self.entries[i].1;
            proof {
                assert(self.values().take(i + 1).drop_last() =~= prefix);
                assert(self.values().take(i + 1).last() == v);
            }
            if v.is_owned() {
                freed.push(v.free());
            }
            i += 1;
        }
        proof {
            assert(self.values().take(n as int) =~= self.values());
        }
        self.entries.clear();
        self.torn_down = true;
        proof {
            assert(self.entries_view() =~= Seq::<(Seq<char>, Value)>::empty());
            assert(self.names() =~= Seq::<Seq<char>>::empty());
        }
        Ok(freed)
    }
}

} // verus!
