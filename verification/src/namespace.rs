//! A part of a store that is set aside for one application.

use crate::record::{RunMetadata, RunRecord};
use crate::store::{
    all_scoped, all_unscoped, edge_set, lemma_targets_found, refs_at, scoped, unscoped, Contents,
};
use crate::store::{Store, StoreError};
use crate::text::{cat, cat3, strip};
use crate::text::{stripped, texts};
use crate::value::Value;
use vstd::prelude::*;

verus! {

/// The name of the scope of an application.
pub open spec fn app_scope(dapp_id: Seq<char>) -> Seq<char> {
    "app:"@ + dapp_id + ":"@
}

/// The part of a store whose keys begin with the scope of one application.
pub struct InstanceNamespace<S: Store> {
    pub inner: S,
    pub prefix: String,
}

impl<S: Store> InstanceNamespace<S> {
    /// The part of `inner` for the application.
    pub fn new(inner: S, dapp_id: &str) -> (r: InstanceNamespace<S>)
        ensures
            r.inner == inner,
            r.prefix@ == app_scope(dapp_id@),
            r.contents() == inner.contents(),
            r.scopes() == inner.scopes().push(app_scope(dapp_id@)),
            r.infallible() == inner.infallible(),
    {
        let prefix = cat3("app:", dapp_id, ":");
        InstanceNamespace { inner, prefix }
    }

    /// The key inside of the scope.
    pub fn namespace_key(&self, key: &str) -> (r: String)
        ensures
            r@ == self.prefix@ + key@,
            scoped(self.inner.scopes(), r@) == scoped(self.scopes(), key@),
    {
        assert(self.scopes().drop_last() =~= self.inner.scopes());
        cat(self.prefix.as_str(), key)
    }

    /// The text without the name of the scope, if it begins with it.
    pub fn strip_namespace(&self, text: &str) -> (r: String)
        ensures
            r@ == stripped(text@, self.prefix@),
    {
        strip(text, self.prefix.as_str())
    }

    fn namespace_keys(&self, keys: &Vec<String>) -> (r: Vec<String>)
        ensures
            all_scoped(self.inner.scopes(), texts(r@)) == all_scoped(self.scopes(), texts(keys@)),
    {
        let mut r: Vec<String> = Vec::new();
        let mut i: usize = 0;
        while i < keys.len()
            invariant
                i <= keys@.len(),
                r@.len() == i,
                forall|j: int|
                    0 <= j < i ==> scoped(self.inner.scopes(), (#[trigger] r@[j])@) == scoped(
                        self.scopes(),
                        keys@[j]@,
                    ),
            decreases keys.len() - i,
        {
            r.push(self.namespace_key(keys[i].as_str()));
            i += 1;
        }
        assert(all_scoped(self.inner.scopes(), texts(r@)) =~= all_scoped(
            self.scopes(),
            texts(keys@),
        ));
        r
    }

    fn strip_all(&self, list: Vec<String>, all: Ghost<Seq<Seq<char>>>) -> (r: Vec<String>)
        requires
            texts(list@) == all_unscoped(self.inner.scopes(), all@),
        ensures
            texts(r@) == all_unscoped(self.scopes(), all@),
    {
        let mut r: Vec<String> = Vec::new();
        let mut i: usize = 0;
        assert(self.scopes().drop_last() =~= self.inner.scopes());
        while i < list.len()
            invariant
                i <= list@.len(),
                r@.len() == i,
                forall|j: int|
                    0 <= j < i ==> (#[trigger] r@[j])@ == stripped(list@[j]@, self.prefix@),
            decreases list.len() - i,
        {
            r.push(self.strip_namespace(list[i].as_str()));
            i += 1;
        }
        assert(texts(r@) =~= all_unscoped(self.scopes(), all@)) by {
            assert(texts(list@).len() == all@.len());
            assert forall|j: int| 0 <= j < list@.len() implies r@[j]@ == unscoped(
                self.scopes(),
                all@[j],
            ) by {
                assert(texts(list@)[j] == unscoped(self.inner.scopes(), all@[j]));
            }
        }
        r
    }
}

impl<S: Store> Store for InstanceNamespace<S> {
    open spec fn contents(&self) -> Contents {
        self.inner.contents()
    }

    open spec fn scopes(&self) -> Seq<Seq<char>> {
        self.inner.scopes().push(self.prefix@)
    }

    open spec fn infallible(&self) -> bool {
        self.inner.infallible()
    }

    fn put_run(&mut self, record: RunRecord) -> (r: Result<(), StoreError>) {
        self.inner.put_run(record)
    }

    fn get_run(&self, run_id: &str) -> (r: Result<Option<RunRecord>, StoreError>) {
        self.inner.get_run(run_id)
    }

    fn list_runs(&self) -> (r: Result<Vec<RunMetadata>, StoreError>) {
        assert(self.contents() == self.inner.contents());
        self.inner.list_runs()
    }

    fn put_entry(&mut self, key: &str, value: Value) -> (r: Result<(), StoreError>) {
        let key = self.namespace_key(key);
        self.inner.put_entry(key.as_str(), value)
    }

    fn get_entry(&self, key: &str) -> (r: Result<Option<Value>, StoreError>) {
        let key = self.namespace_key(key);
        self.inner.get_entry(key.as_str())
    }

    fn delete_entry(&mut self, key: &str) -> (r: Result<(), StoreError>) {
        let key = self.namespace_key(key);
        self.inner.delete_entry(key.as_str())
    }

    fn put_edge(&mut self, edge_type: &str, edge_id: &str, targets: &Vec<String>) -> (r: Result<
        (),
        StoreError,
    >) {
        let edge_type = self.namespace_key(edge_type);
        let targets = self.namespace_keys(targets);
        self.inner.put_edge(edge_type.as_str(), edge_id, &targets)
    }

    fn get_edge_targets(&self, edge_type: &str, edge_id: &str) -> (r: Result<
        Option<Vec<String>>,
        StoreError,
    >) {
        let edge_type = self.namespace_key(edge_type);
        let ghost key = crate::store::edge_key(
            scoped(self.inner.scopes(), edge_type@),
            edge_id@,
        );
        match self.inner.get_edge_targets(edge_type.as_str(), edge_id) {
            Ok(Some(list)) => {
                let ghost all = refs_at(self.contents(), key);
                Ok(Some(self.strip_all(list, Ghost(all))))
            },
            Ok(None) => Ok(None),
            Err(e) => Err(e),
        }
    }

    fn get_vertex_edges(&self, target_id: &str) -> (r: Result<Vec<String>, StoreError>) {
        let target_id = self.namespace_key(target_id);
        let ghost key = crate::store::vertex_key(scoped(self.inner.scopes(), target_id@));
        match self.inner.get_vertex_edges(target_id.as_str()) {
            Ok(list) => {
                let ghost all = refs_at(self.contents(), key);
                proof {
                    assert(all_unscoped(self.inner.scopes(), Seq::empty()) =~= Seq::empty());
                    assert(list@.len() == 0 ==> texts(list@) =~= Seq::empty());
                }
                let r = self.strip_all(list, Ghost(all));
                assert(texts(r@).len() == all.len());
                Ok(r)
            },
            Err(e) => Err(e),
        }
    }

    fn scan_prefix(&self, prefix: &str, limit: usize, offset: usize) -> (r: Result<
        Vec<(String, Value)>,
        StoreError,
    >) {
        let ghost outer = prefix@;
        let prefix = self.namespace_key(prefix);
        assert(self.scopes().drop_last() =~= self.inner.scopes());
        assert(self.contents() == self.inner.contents());
        let ghost s = crate::store::page(
            crate::store::hits(self.contents(), scoped(self.scopes(), outer)),
            limit as nat,
            offset as nat,
        );
        match self.inner.scan_prefix(prefix.as_str(), limit, offset) {
            Ok(found) => {
                let mut list: Vec<(String, Value)> = Vec::new();
                for entry in it: found.into_iter()
                    invariant
                        it.seq() == found@,
                        found@.len() == s.len(),
                        forall|i: int|
                            0 <= i < s.len() ==> (#[trigger] found@[i]).0@ == unscoped(
                                self.inner.scopes(),
                                s[i].0,
                            ) && crate::store::holds_value(s[i].1, found@[i].1@),
                        self.scopes().drop_last() == self.inner.scopes(),
                        list@.len() == it.index(),
                        forall|i: int|
                            0 <= i < list@.len() ==> (#[trigger] list@[i]).0@ == unscoped(
                                self.scopes(),
                                s[i].0,
                            ) && crate::store::holds_value(s[i].1, list@[i].1@),
                {
                    let (key, value) = entry;
                    let key = self.strip_namespace(key.as_str());
                    list.push((key, value));
                }
                Ok(list)
            },
            Err(e) => Err(e),
        }
    }

    fn delete_edge(&mut self, edge_type: &str, edge_id: &str) -> (r: Result<(), StoreError>) {
        let edge_type = self.namespace_key(edge_type);
        self.inner.delete_edge(edge_type.as_str(), edge_id)
    }
}

/// A key is found again behind the scopes that it was put into.
pub proof fn lemma_unscoped_scoped(scopes: Seq<Seq<char>>, key: Seq<char>)
    ensures
        unscoped(scopes, scoped(scopes, key)) == key,
    decreases scopes.len(),
{
    if scopes.len() > 0 {
        let p = scopes.last();
        lemma_unscoped_scoped(scopes.drop_last(), p + key);
        assert((p + key).subrange(0, p.len() as int) =~= p);
        assert((p + key).subrange(p.len() as int, (p + key).len() as int) =~= key);
    }
}

/// The targets that were set through any scopes are found through the same scopes as they were.
pub proof fn lemma_targets_in_scope(
    scopes: Seq<Seq<char>>,
    before: Contents,
    after: Contents,
    e: Seq<char>,
    targets: Seq<Seq<char>>,
)
    requires
        edge_set(before, after, e, all_scoped(scopes, targets)),
    ensures
        all_unscoped(scopes, refs_at(after, e)) == targets,
{
    lemma_targets_found(before, after, e, all_scoped(scopes, targets));
    assert forall|i: int| 0 <= i < targets.len() implies unscoped(
        scopes,
        scoped(scopes, targets[i]),
    ) == targets[i] by {
        lemma_unscoped_scoped(scopes, targets[i]);
    }
    assert(all_unscoped(scopes, all_scoped(scopes, targets)) =~= targets);
}

/// Applications whose names hold no colon never share a key.
pub proof fn lemma_applications_apart(a: Seq<char>, b: Seq<char>, key_a: Seq<char>, key_b: Seq<char>)
    requires
        !a.contains(':'),
        !b.contains(':'),
        a != b,
    ensures
        app_scope(a) + key_a != app_scope(b) + key_b,
{
    let x = app_scope(a) + key_a;
    let y = app_scope(b) + key_b;
    reveal_strlit("app:");
    reveal_strlit(":");
    let n = 4int;
    assert("app:"@.len() == 4 && ":"@.len() == 1 && ":"@[0] == ':');
    if x == y {
        assert forall|i: int| 0 <= i < a.len() implies x[n + i] == a[i] by {}
        assert forall|i: int| 0 <= i < b.len() implies y[n + i] == b[i] by {}
        assert(x[n + a.len()] == ':');
        assert(y[n + b.len()] == ':');
        if a.len() < b.len() {
            assert(b[a.len() as int] == ':');
            assert(b.contains(':'));
        } else if b.len() < a.len() {
            assert(a[b.len() as int] == ':');
            assert(a.contains(':'));
        } else {
            assert forall|i: int| 0 <= i < a.len() implies a[i] == b[i] by {
                assert(x[n + i] == y[n + i]);
            }
            assert(a =~= b);
        }
    }
}

/// The scope of an application is its name between `app:` and a colon.
pub proof fn lemma_application_scope(dapp_id: Seq<char>, key: Seq<char>)
    ensures
        scoped(seq![app_scope(dapp_id)], key).take(4) == seq!['a', 'p', 'p', ':'],
        scoped(seq![app_scope(dapp_id)], key).skip(4) == dapp_id.push(':') + key,
{
    reveal_strlit("app:");
    reveal_strlit(":");
    let none = Seq::<Seq<char>>::empty();
    let scope = app_scope(dapp_id);
    crate::store::lemma_scopes_before(none, scope, key);
    assert(none.push(scope) =~= seq![scope]);
    let s = scoped(seq![scope], key);
    assert(scoped(none, Seq::<char>::empty()) =~= Seq::<char>::empty());
    assert(s =~= scope + key);
    assert(s.take(4) =~= seq!['a', 'p', 'p', ':']);
    assert(s.skip(4) =~= dapp_id.push(':') + key);
}

} // verus!
