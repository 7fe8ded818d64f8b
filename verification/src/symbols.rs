//! Qualified symbol keys and the global symbol tables, with overlay
//! (shadowing) semantics: inserting under an existing key replaces the prior
//! definition, builtin or not.

use vstd::prelude::*;

use crate::checked::DataTypeDef;
use crate::checked::DataTypeDefView;
use crate::checked::FunctionDef;
use crate::checked::FunctionDefView;

verus! {

/// Qualified name of a function: owning module identifier plus local name.
/// Equality is exact on both components.
pub struct FunctionAccessKey {
    pub module_name: String,
    pub function_name: String,
}

pub ghost struct FunctionAccessKeyView {
    pub module_name: Seq<char>,
    pub function_name: Seq<char>,
}

impl View for FunctionAccessKey {
    type V = FunctionAccessKeyView;

    open spec fn view(&self) -> FunctionAccessKeyView {
        FunctionAccessKeyView {
            module_name: self.module_name@,
            function_name: self.function_name@,
        }
    }
}

impl Clone for FunctionAccessKey {
    fn clone(&self) -> (r: Self)
        ensures
            r == *self,
    {
        FunctionAccessKey {
            module_name: self.module_name.clone(),
            function_name: self.function_name.clone(),
        }
    }
}

/// Qualified name of a data type: owning module identifier plus type name.
pub struct DataTypeKey {
    pub module_name: String,
    pub defined_type: String,
}

pub ghost struct DataTypeKeyView {
    pub module_name: Seq<char>,
    pub defined_type: Seq<char>,
}

impl View for DataTypeKey {
    type V = DataTypeKeyView;

    open spec fn view(&self) -> DataTypeKeyView {
        DataTypeKeyView { module_name: self.module_name@, defined_type: self.defined_type@ }
    }
}

impl Clone for DataTypeKey {
    fn clone(&self) -> (r: Self)
        ensures
            r == *self,
    {
        DataTypeKey {
            module_name: self.module_name.clone(),
            defined_type: self.defined_type.clone(),
        }
    }
}

/// Does some entry of `s` carry the key `k`?
pub open spec fn has_key<K, V>(s: Seq<(K, V)>, k: K) -> bool {
    exists|i: int| 0 <= i < s.len() && (#[trigger] s[i]).0 == k
}

/// The position of the entry keyed `k`.
pub open spec fn key_index<K, V>(s: Seq<(K, V)>, k: K) -> int {
    choose|i: int| 0 <= i < s.len() && (#[trigger] s[i]).0 == k
}

/// Keys are pairwise distinct.
pub open spec fn distinct_keys<K, V>(s: Seq<(K, V)>) -> bool {
    forall|i: int, j: int| #![trigger s[i], s[j]] 0 <= i < j < s.len() ==> s[i].0 != s[j].0
}

/// Insert-or-replace: the overlay rule of the global symbol table. A new
/// definition under an existing key replaces it; no error is raised.
pub open spec fn upsert<K, V>(s: Seq<(K, V)>, k: K, v: V) -> Seq<(K, V)> {
    if has_key(s, k) {
        s.update(key_index(s, k), (k, v))
    } else {
        s.push((k, v))
    }
}

/// The definition stored under `k`, if any.
pub open spec fn table_get<K, V>(s: Seq<(K, V)>, k: K) -> Option<V> {
    if has_key(s, k) {
        Some(s[key_index(s, k)].1)
    } else {
        None
    }
}

/// The global function table: qualified key to function definition.
pub struct FunctionTable {
    entries: Vec<(FunctionAccessKey, FunctionDef)>,
}

impl View for FunctionTable {
    type V = Seq<(FunctionAccessKeyView, FunctionDefView)>;

    closed spec fn view(&self) -> Seq<(FunctionAccessKeyView, FunctionDefView)> {
        Seq::new(self.entries@.len(), |i: int| (self.entries@[i].0@, self.entries@[i].1@))
    }
}

impl FunctionTable {
    pub open spec fn wf(&self) -> bool {
        distinct_keys(self@)
    }

    pub fn new() -> (r: FunctionTable)
        ensures
            r.wf(),
            r@.len() == 0,
    {
        FunctionTable { entries: Vec::new() }
    }

    pub fn len(&self) -> (r: usize)
        ensures
            r as int == self@.len(),
    {
        self.entries.len()
    }

    /// Insert a definition, replacing any definition under the same key.
    pub fn insert(&mut self, key: FunctionAccessKey, value: FunctionDef)
        requires
            old(self).wf(),
        ensures
            final(self).wf(),
            final(self)@ == upsert(old(self)@, key@, value@),
    {
        let ghost s0 = self@;
        let ghost kv = key@;
        let n = self.entries.len();
        let mut i: usize = 0;
        while i < n
            invariant
                self.wf(),
                self@ == s0,
                old(self)@ == s0,
                kv == key@,
                n as int == self@.len(),
                (i as int) <= (n as int),
                forall|j: int| 0 <= j < i as int ==> (#[trigger] s0[j]).0 != kv,
            decreases n as int - i as int,
        {
            if self.entries[i].0.module_name.eq(&key.module_name)
                && self.entries[i].0.function_name.eq(&key.function_name) {
                proof {
                    assert(s0[i as int].0 == kv);
                    assert(has_key(s0, kv));
                    assert(key_index(s0, kv) == i as int) by {
                        let ix = key_index(s0, kv);
                        if ix != i as int {
                            assert(s0[ix].0 == s0[i as int].0);
                            assert(false);
                        }
                    }
                }
                self.entries[i] = (key, value);
                proof {
                    assert(self@ =~= s0.update(i as int, (kv, self.entries@[i as int].1@)));
                    assert(self@ == upsert(s0, kv, self.entries@[i as int].1@));
                    assert forall|a: int, b: int| #![trigger self@[a], self@[b]]
                        0 <= a < b < self@.len() implies self@[a].0 != self@[b].0 by {
                        assert(s0[a].0 == self@[a].0 || a == i as int);
                        assert(s0[b].0 == self@[b].0 || b == i as int);
                    }
                }
                return ;
            }
            i = i + 1;
        }
        proof {
            if has_key(s0, kv) {
                let ix = key_index(s0, kv);
                assert(s0[ix].0 == kv);
                assert(false);
            }
        }
        self.entries.push((key, value));
        proof {
            assert(self@ =~= s0.push((kv, self.entries@[self.entries@.len() - 1].1@)));
            assert(self@ == upsert(s0, kv, self.entries@[self.entries@.len() - 1].1@));
            assert forall|a: int, b: int| #![trigger self@[a], self@[b]]
                0 <= a < b < self@.len() implies self@[a].0 != self@[b].0 by {
                if b < self@.len() - 1 {
                    assert(s0[a].0 == self@[a].0 && s0[b].0 == self@[b].0);
                } else {
                    assert(self@[b].0 == kv);
                    assert(s0[a].0 == self@[a].0);
                }
            }
        }
    }

    /// Look up the definition stored under `key`.
    pub fn get(&self, key: &FunctionAccessKey) -> (r: Option<&FunctionDef>)
        requires
            self.wf(),
        ensures
            match r {
                Some(v) => table_get(self@, key@) == Some(v@),
                None => table_get(self@, key@) is None,
            },
    {
        let n = self.entries.len();
        let mut i: usize = 0;
        while i < n
            invariant
                self.wf(),
                n as int == self@.len(),
                (i as int) <= (n as int),
                forall|j: int| 0 <= j < i as int ==> (#[trigger] self@[j]).0 != key@,
            decreases n as int - i as int,
        {
            if self.entries[i].0.module_name.eq(&key.module_name)
                && self.entries[i].0.function_name.eq(&key.function_name) {
                proof {
                    assert(self@[i as int].0 == key@);
                    let ix = key_index(self@, key@);
                    if ix != i as int {
                        assert(self@[ix].0 == self@[i as int].0);
                        assert(false);
                    }
                }
                return Some(&self.entries[i].1);
            }
            i = i + 1;
        }
        proof {
            if has_key(self@, key@) {
                let ix = key_index(self@, key@);
                assert(self@[ix].0 == key@);
                assert(false);
            }
        }
        None
    }
}

/// The global data-type table: qualified key to data-type definition.
pub struct DataTypeTable {
    entries: Vec<(DataTypeKey, DataTypeDef)>,
}

impl View for DataTypeTable {
    type V = Seq<(DataTypeKeyView, DataTypeDefView)>;

    closed spec fn view(&self) -> Seq<(DataTypeKeyView, DataTypeDefView)> {
        Seq::new(self.entries@.len(), |i: int| (self.entries@[i].0@, self.entries@[i].1@))
    }
}

impl DataTypeTable {
    pub open spec fn wf(&self) -> bool {
        distinct_keys(self@)
    }

    pub fn new() -> (r: DataTypeTable)
        ensures
            r.wf(),
            r@.len() == 0,
    {
        DataTypeTable { entries: Vec::new() }
    }

    pub fn len(&self) -> (r: usize)
        ensures
            r as int == self@.len(),
    {
        self.entries.len()
    }

    /// Insert a definition, replacing any definition under the same key.
    pub fn insert(&mut self, key: DataTypeKey, value: DataTypeDef)
        requires
            old(self).wf(),
        ensures
            final(self).wf(),
            final(self)@ == upsert(old(self)@, key@, value@),
    {
        let ghost s0 = self@;
        let ghost kv = key@;
        let n = self.entries.len();
        let mut i: usize = 0;
        while i < n
            invariant
                self.wf(),
                self@ == s0,
                old(self)@ == s0,
                kv == key@,
                n as int == self@.len(),
                (i as int) <= (n as int),
                forall|j: int| 0 <= j < i as int ==> (#[trigger] s0[j]).0 != kv,
            decreases n as int - i as int,
        {
            if self.entries[i].0.module_name.eq(&key.module_name)
                && self.entries[i].0.defined_type.eq(&key.defined_type) {
                proof {
                    assert(s0[i as int].0 == kv);
                    assert(has_key(s0, kv));
                    assert(key_index(s0, kv) == i as int) by {
                        let ix = key_index(s0, kv);
                        if ix != i as int {
                            assert(s0[ix].0 == s0[i as int].0);
                            assert(false);
                        }
                    }
                }
                self.entries[i] = (key, value);
                proof {
                    assert(self@ =~= s0.update(i as int, (kv, self.entries@[i as int].1@)));
                    assert(self@ == upsert(s0, kv, self.entries@[i as int].1@));
                    assert forall|a: int, b: int| #![trigger self@[a], self@[b]]
                        0 <= a < b < self@.len() implies self@[a].0 != self@[b].0 by {
                        assert(s0[a].0 == self@[a].0 || a == i as int);
                        assert(s0[b].0 == self@[b].0 || b == i as int);
                    }
                }
                return ;
            }
            i = i + 1;
        }
        proof {
            if has_key(s0, kv) {
                let ix = key_index(s0, kv);
                assert(s0[ix].0 == kv);
                assert(false);
            }
        }
        self.entries.push((key, value));
        proof {
            assert(self@ =~= s0.push((kv, self.entries@[self.entries@.len() - 1].1@)));
            assert(self@ == upsert(s0, kv, self.entries@[self.entries@.len() - 1].1@));
            assert forall|a: int, b: int| #![trigger self@[a], self@[b]]
                0 <= a < b < self@.len() implies self@[a].0 != self@[b].0 by {
                if b < self@.len() - 1 {
                    assert(s0[a].0 == self@[a].0 && s0[b].0 == self@[b].0);
                } else {
                    assert(self@[b].0 == kv);
                    assert(s0[a].0 == self@[a].0);
                }
            }
        }
    }

    /// Look up the definition stored under `key`.
    pub fn get(&self, key: &DataTypeKey) -> (r: Option<&DataTypeDef>)
        requires
            self.wf(),
        ensures
            match r {
                Some(v) => table_get(self@, key@) == Some(v@),
                None => table_get(self@, key@) is None,
            },
    {
        let n = self.entries.len();
        let mut i: usize = 0;
        while i < n
            invariant
                self.wf(),
                n as int == self@.len(),
                (i as int) <= (n as int),
                forall|j: int| 0 <= j < i as int ==> (#[trigger] self@[j]).0 != key@,
            decreases n as int - i as int,
        {
            if self.entries[i].0.module_name.eq(&key.module_name)
                && self.entries[i].0.defined_type.eq(&key.defined_type) {
                proof {
                    assert(self@[i as int].0 == key@);
                    let ix = key_index(self@, key@);
                    if ix != i as int {
                        assert(self@[ix].0 == self@[i as int].0);
                        assert(false);
                    }
                }
                return Some(&self.entries[i].1);
            }
            i = i + 1;
        }
        proof {
            if has_key(self@, key@) {
                let ix = key_index(self@, key@);
                assert(self@[ix].0 == key@);
                assert(false);
            }
        }
        None
    }
}

} // verus!
