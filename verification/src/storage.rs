//! Namespaced key-value storage for extensions: one namespace per extension
//! id, holding string keys and JSON documents carried as text. Operations
//! act within a single namespace, so no extension can observe or change
//! another extension's keys.

use vstd::prelude::*;
use crate::strutil;

verus! {

/// One stored key with its value.
pub struct StorageEntry {
    pub key: String,
    pub value: String,
}

/// One extension's namespace.
pub struct StorageNamespace {
    pub id: String,
    pub entries: Vec<StorageEntry>,
}

/// The entries of one namespace as a map from key to value.
pub open spec fn entries_map(es: Seq<StorageEntry>) -> Map<Seq<char>, Seq<char>>
    decreases es.len(),
{
    if es.len() == 0 {
        Map::empty()
    } else {
        entries_map(es.drop_last()).insert(es.last().key@, es.last().value@)
    }
}

/// The whole store as a map from extension id to that extension's map.
pub open spec fn storage_map(ss: Seq<StorageNamespace>) -> Map<
    Seq<char>,
    Map<Seq<char>, Seq<char>>,
>
    decreases ss.len(),
{
    if ss.len() == 0 {
        Map::empty()
    } else {
        storage_map(ss.drop_last()).insert(ss.last().id@, entries_map(ss.last().entries@))
    }
}

/// Entry keys are pairwise distinct.
pub open spec fn entry_keys_distinct(es: Seq<StorageEntry>) -> bool {
    forall|i: int, j: int|
        #![trigger es[i], es[j]]
        0 <= i < j < es.len() ==> es[i].key@ != es[j].key@
}

/// Namespace ids are pairwise distinct.
pub open spec fn ns_ids_distinct(ss: Seq<StorageNamespace>) -> bool {
    forall|i: int, j: int|
        #![trigger ss[i], ss[j]]
        0 <= i < j < ss.len() ==> ss[i].id@ != ss[j].id@
}

/// With distinct keys, the entry map reads back exactly the entries.
proof fn lemma_entries_map_index(es: Seq<StorageEntry>, k: int)
    requires
        entry_keys_distinct(es),
        0 <= k < es.len(),
    ensures
        entries_map(es).contains_key(es[k].key@),
        entries_map(es)[es[k].key@] == es[k].value@,
    decreases es.len(),
{
    if k < es.len() - 1 {
        assert(entry_keys_distinct(es.drop_last())) by {
            assert(forall|i: int|
                0 <= i < es.len() - 1 ==> (#[trigger] es.drop_last()[i]) == es[i]);
        }
        assert(es.drop_last()[k] == es[k]);
        lemma_entries_map_index(es.drop_last(), k);
        assert(es.last() == es[es.len() - 1]);
    }
}

/// A key no entry carries is not in the entry map.
proof fn lemma_entries_map_absent(es: Seq<StorageEntry>, x: Seq<char>)
    requires
        forall|k: int| 0 <= k < es.len() ==> (#[trigger] es[k]).key@ != x,
    ensures
        !entries_map(es).contains_key(x),
    decreases es.len(),
{
    if es.len() > 0 {
        assert(forall|k: int| 0 <= k < es.len() - 1 ==> (#[trigger] es.drop_last()[k]) == es[k]);
        lemma_entries_map_absent(es.drop_last(), x);
        assert(es.last() == es[es.len() - 1]);
    }
}

/// Updating the entry that holds a key updates exactly that key.
proof fn lemma_entries_map_update(es: Seq<StorageEntry>, k: int, e: StorageEntry)
    requires
        entry_keys_distinct(es),
        0 <= k < es.len(),
        e.key@ == es[k].key@,
    ensures
        entries_map(es.update(k, e)) == entries_map(es).insert(e.key@, e.value@),
    decreases es.len(),
{
    let s2 = es.update(k, e);
    if k == es.len() - 1 {
        assert(s2.drop_last() =~= es.drop_last());
        assert(s2.last() == e);
        assert(entries_map(es).insert(e.key@, e.value@) =~= entries_map(es.drop_last()).insert(
            e.key@,
            e.value@,
        ));
    } else {
        assert(entry_keys_distinct(es.drop_last())) by {
            assert(forall|i: int|
                0 <= i < es.len() - 1 ==> (#[trigger] es.drop_last()[i]) == es[i]);
        }
        assert(s2.drop_last() =~= es.drop_last().update(k, e));
        assert(s2.last() == es.last());
        lemma_entries_map_update(es.drop_last(), k, e);
        assert(es.last().key@ != e.key@) by {
            assert(es.last() == es[es.len() - 1]);
            assert(es[k].key@ != es[es.len() - 1].key@);
        }
        assert(entries_map(es.drop_last()).insert(e.key@, e.value@).insert(
            es.last().key@,
            es.last().value@,
        ) =~= entries_map(es).insert(e.key@, e.value@));
    }
}

/// Updating the namespace that holds an id updates exactly that id.
proof fn lemma_storage_map_update(ss: Seq<StorageNamespace>, k: int, n: StorageNamespace)
    requires
        ns_ids_distinct(ss),
        0 <= k < ss.len(),
        n.id@ == ss[k].id@,
    ensures
        storage_map(ss.update(k, n)) == storage_map(ss).insert(n.id@, entries_map(n.entries@)),
    decreases ss.len(),
{
    let s2 = ss.update(k, n);
    if k == ss.len() - 1 {
        assert(s2.drop_last() =~= ss.drop_last());
        assert(s2.last() == n);
        assert(storage_map(ss).insert(n.id@, entries_map(n.entries@)) =~= storage_map(
            ss.drop_last(),
        ).insert(n.id@, entries_map(n.entries@)));
    } else {
        assert(ns_ids_distinct(ss.drop_last())) by {
            assert(forall|i: int|
                0 <= i < ss.len() - 1 ==> (#[trigger] ss.drop_last()[i]) == ss[i]);
        }
        assert(s2.drop_last() =~= ss.drop_last().update(k, n));
        assert(s2.last() == ss.last());
        lemma_storage_map_update(ss.drop_last(), k, n);
        assert(ss.last().id@ != n.id@) by {
            assert(ss.last() == ss[ss.len() - 1]);
            assert(ss[k].id@ != ss[ss.len() - 1].id@);
        }
        assert(storage_map(ss.drop_last()).insert(n.id@, entries_map(n.entries@)).insert(
            ss.last().id@,
            entries_map(ss.last().entries@),
        ) =~= storage_map(ss).insert(n.id@, entries_map(n.entries@)));
    }
}

/// With distinct ids, the store map reads back exactly the namespaces.
proof fn lemma_storage_map_index(ss: Seq<StorageNamespace>, k: int)
    requires
        ns_ids_distinct(ss),
        0 <= k < ss.len(),
    ensures
        storage_map(ss).contains_key(ss[k].id@),
        storage_map(ss)[ss[k].id@] == entries_map(ss[k].entries@),
    decreases ss.len(),
{
    if k < ss.len() - 1 {
        assert(ns_ids_distinct(ss.drop_last())) by {
            assert(forall|i: int|
                0 <= i < ss.len() - 1 ==> (#[trigger] ss.drop_last()[i]) == ss[i]);
        }
        assert(ss.drop_last()[k] == ss[k]);
        lemma_storage_map_index(ss.drop_last(), k);
        assert(ss.last() == ss[ss.len() - 1]);
    }
}

/// An id no namespace carries is not in the store map.
proof fn lemma_storage_map_absent(ss: Seq<StorageNamespace>, x: Seq<char>)
    requires
        forall|k: int| 0 <= k < ss.len() ==> (#[trigger] ss[k]).id@ != x,
    ensures
        !storage_map(ss).contains_key(x),
    decreases ss.len(),
{
    if ss.len() > 0 {
        assert(forall|k: int| 0 <= k < ss.len() - 1 ==> (#[trigger] ss.drop_last()[k]) == ss[k]);
        lemma_storage_map_absent(ss.drop_last(), x);
        assert(ss.last() == ss[ss.len() - 1]);
    }
}

/// The in-memory plugin store.
pub struct PluginStorage {
    pub spaces: Vec<StorageNamespace>,
}

impl PluginStorage {
    /// The store's mathematical content.
    pub open spec fn view_map(&self) -> Map<Seq<char>, Map<Seq<char>, Seq<char>>> {
        storage_map(self.spaces@)
    }

    /// Store invariant: namespace ids and keys within each namespace are
    /// unique.
    pub open spec fn wf(&self) -> bool {
        &&& ns_ids_distinct(self.spaces@)
        &&& forall|k: int|
            0 <= k < self.spaces@.len() ==> entry_keys_distinct(
                (#[trigger] self.spaces@[k]).entries@,
            )
    }

    /// An empty store.
    pub fn new() -> (r: Self)
        ensures
            r.wf(),
            r.view_map() =~= Map::<Seq<char>, Map<Seq<char>, Seq<char>>>::empty(),
    {
        PluginStorage { spaces: Vec::new() }
    }

    /// Index of the namespace for this extension id.
    fn find_space(&self, plugin_id: &str) -> (r: Option<usize>)
        requires
            self.wf(),
        ensures
            r is Some ==> r->0 < self.spaces@.len() && self.spaces@[r->0 as int].id@ == plugin_id@
                && self.view_map().contains_key(plugin_id@) && self.view_map()[plugin_id@]
                == entries_map(self.spaces@[r->0 as int].entries@),
            r is None ==> !self.view_map().contains_key(plugin_id@),
    {
        let mut i: usize = 0;
        while i < self.spaces.len()
            invariant
                self.wf(),
                0 <= i <= self.spaces@.len(),
                forall|k: int| 0 <= k < i ==> (#[trigger] self.spaces@[k]).id@ != plugin_id@,
            decreases self.spaces@.len() - i,
        {
            if strutil::str_eq(self.spaces[i].id.as_str(), plugin_id) {
                proof {
                    lemma_storage_map_index(self.spaces@, i as int);
                }
                return Some(i);
            }
            i = i + 1;
        }
        proof {
            lemma_storage_map_absent(self.spaces@, plugin_id@);
        }
        None
    }

    /// Index of a key inside one namespace's entries.
    fn find_entry(es: &Vec<StorageEntry>, key: &str) -> (r: Option<usize>)
        requires
            entry_keys_distinct(es@),
        ensures
            r is Some ==> r->0 < es@.len() && es@[r->0 as int].key@ == key@ && entries_map(
                es@,
            ).contains_key(key@) && entries_map(es@)[key@] == es@[r->0 as int].value@,
            r is None ==> !entries_map(es@).contains_key(key@),
    {
        let mut i: usize = 0;
        while i < es.len()
            invariant
                entry_keys_distinct(es@),
                0 <= i <= es@.len(),
                forall|k: int| 0 <= k < i ==> (#[trigger] es@[k]).key@ != key@,
            decreases es@.len() - i,
        {
            if strutil::str_eq(es[i].key.as_str(), key) {
                proof {
                    lemma_entries_map_index(es@, i as int);
                }
                return Some(i);
            }
            i = i + 1;
        }
        proof {
            lemma_entries_map_absent(es@, key@);
        }
        None
    }

    /// Read a key from one extension's namespace.
    pub fn get(&self, plugin_id: &str, key: &str) -> (r: Option<String>)
        requires
            self.wf(),
        ensures
            r is Some <==> self.view_map().contains_key(plugin_id@) && self.view_map()[
                plugin_id@].contains_key(key@),
            r is Some ==> r->0@ == self.view_map()[plugin_id@][key@],
    {
        match self.find_space(plugin_id) {
            Some(i) => {
                match Self::find_entry(&self.spaces[i].entries, key) {
                    Some(j) => Some(self.spaces[i].entries[j].value.clone()),
                    None => None,
                }
            },
            None => None,
        }
    }

    /// Write a key in one extension's namespace, creating the namespace on
    /// first use. Only that namespace's map changes, and only at that key.
    pub fn set(&mut self, plugin_id: &str, key: &str, value: String)
        requires
            old(self).wf(),
        ensures
            final(self).wf(),
            old(self).view_map().contains_key(plugin_id@) ==> final(self).view_map() == old(
                self,
            ).view_map().insert(plugin_id@, old(self).view_map()[plugin_id@].insert(key@, value@)),
            !old(self).view_map().contains_key(plugin_id@) ==> final(self).view_map() == old(
                self,
            ).view_map().insert(
                plugin_id@,
                Map::<Seq<char>, Seq<char>>::empty().insert(key@, value@),
            ),
    {
        let ghost sspre = self.spaces@;
        match self.find_space(plugin_id) {
            Some(i) => {
                let ns = self.spaces.remove(i);
                let ghost nspre = ns;
                let StorageNamespace { id, mut entries } = ns;
                let ghost espre = entries@;
                match Self::find_entry(&entries, key) {
                    Some(j) => {
                        let e = StorageEntry { key: key.to_owned(), value };
                        proof {
                            assert(e.key@ == espre[j as int].key@);
                        }
                        vec_set_entry(&mut entries, j, e);
                        proof {
                            lemma_entries_map_update(espre, j as int, entries@[j as int]);
                            assert(entry_keys_distinct(entries@)) by {
                                assert forall|x: int, y: int|
                                    #![trigger entries@[x], entries@[y]]
                                    0 <= x < y < entries@.len() implies entries@[x].key@
                                    != entries@[y].key@ by {
                                    assert(espre[x].key@ != espre[y].key@);
                                    assert(entries@[x].key@ == espre[x].key@);
                                    assert(entries@[y].key@ == espre[y].key@);
                                }
                            }
                        }
                    },
                    None => {
                        proof {
                            assert forall|k: int| 0 <= k < espre.len() implies (#[trigger] espre[
                                k]).key@ != key@ by {
                                if espre[k].key@ == key@ {
                                    lemma_entries_map_index(espre, k);
                                }
                            }
                        }
                        let ghost eo = entries@;
                        entries.push(StorageEntry { key: key.to_owned(), value });
                        proof {
                            assert(entries@.drop_last() =~= eo);
                            assert(entries@.last() == entries@[entries@.len() - 1]);
                            assert(entry_keys_distinct(entries@)) by {
                                assert forall|x: int, y: int|
                                    #![trigger entries@[x], entries@[y]]
                                    0 <= x < y < entries@.len() implies entries@[x].key@
                                    != entries@[y].key@ by {
                                    if y < eo.len() {
                                        assert(entries@[x] == eo[x] && entries@[y] == eo[y]);
                                    } else {
                                        assert(entries@[x] == eo[x]);
                                        assert(entries@[y].key@ == key@);
                                    }
                                }
                            }
                        }
                    },
                }
                let ns2 = StorageNamespace { id, entries };
                self.spaces.insert(i, ns2);
                proof {
                    assert(self.spaces@ =~= sspre.update(i as int, self.spaces@[i as int]));
                    assert(self.spaces@[i as int].id@ == sspre[i as int].id@);
                    lemma_storage_map_update(sspre, i as int, self.spaces@[i as int]);
                    assert(ns_ids_distinct(self.spaces@)) by {
                        assert forall|x: int, y: int|
                            #![trigger self.spaces@[x], self.spaces@[y]]
                            0 <= x < y < self.spaces@.len() implies self.spaces@[x].id@
                            != self.spaces@[y].id@ by {
                            assert(sspre[x].id@ != sspre[y].id@);
                            assert(self.spaces@[x].id@ == sspre[x].id@);
                            assert(self.spaces@[y].id@ == sspre[y].id@);
                        }
                    }
                }
            },
            None => {
                proof {
                    assert forall|k: int| 0 <= k < sspre.len() implies (#[trigger] sspre[k]).id@
                        != plugin_id@ by {
                        if sspre[k].id@ == plugin_id@ {
                            lemma_storage_map_index(sspre, k);
                        }
                    }
                }
                let mut entries: Vec<StorageEntry> = Vec::new();
                let e = StorageEntry { key: key.to_owned(), value };
                let ghost ev = e.value@;
                entries.push(e);
                proof {
                    assert(entries@.len() == 1);
                    assert(entries@.drop_last() =~= Seq::<StorageEntry>::empty());
                    assert(entries@.last() == entries@[0]);
                    assert(entries@[0].key@ == key@);
                    assert(entries@[0].value@ == ev);
                    assert(entries_map(entries@.drop_last()) == Map::<Seq<char>, Seq<char>>::empty());
                    assert(entries_map(entries@) =~= Map::<Seq<char>, Seq<char>>::empty().insert(
                        key@,
                        ev,
                    ));
                }
                self.spaces.push(StorageNamespace { id: plugin_id.to_owned(), entries });
                proof {
                    assert(self.spaces@.drop_last() =~= sspre);
                    assert(self.spaces@.last() == self.spaces@[self.spaces@.len() - 1]);
                    assert(ns_ids_distinct(self.spaces@)) by {
                        assert forall|x: int, y: int|
                            #![trigger self.spaces@[x], self.spaces@[y]]
                            0 <= x < y < self.spaces@.len() implies self.spaces@[x].id@
                            != self.spaces@[y].id@ by {
                            if y < sspre.len() {
                                assert(self.spaces@[x] == sspre[x] && self.spaces@[y] == sspre[y]);
                            } else {
                                assert(self.spaces@[x] == sspre[x]);
                                assert(self.spaces@[y].id@ == plugin_id@);
                            }
                        }
                    }
                }
            },
        }
    }

    /// Delete a key from one extension's namespace; deleting an absent key
    /// or from an absent namespace changes nothing.
    pub fn delete(&mut self, plugin_id: &str, key: &str)
        requires
            old(self).wf(),
        ensures
            final(self).wf(),
            old(self).view_map().contains_key(plugin_id@) ==> final(self).view_map() == old(
                self,
            ).view_map().insert(plugin_id@, old(self).view_map()[plugin_id@].remove(key@)),
            !old(self).view_map().contains_key(plugin_id@) ==> final(self).view_map() == old(
                self,
            ).view_map(),
    {
        let ghost sspre = self.spaces@;
        match self.find_space(plugin_id) {
            Some(i) => {
                let ns = self.spaces.remove(i);
                let StorageNamespace { id, mut entries } = ns;
                let ghost espre = entries@;
                match Self::find_entry(&entries, key) {
                    Some(j) => {
                        let _ = entries.remove(j);
                        proof {
                            lemma_entries_map_remove(espre, j as int);
                            assert(espre[j as int].key@ == key@);
                        }
                    },
                    None => {
                        proof {
                            assert(entries_map(espre).remove(key@) =~= entries_map(espre));
                        }
                    },
                }
                let ns2 = StorageNamespace { id, entries };
                self.spaces.insert(i, ns2);
                proof {
                    assert(self.spaces@ =~= sspre.update(i as int, self.spaces@[i as int]));
                    assert(self.spaces@[i as int].id@ == sspre[i as int].id@);
                    lemma_storage_map_update(sspre, i as int, self.spaces@[i as int]);
                    assert(ns_ids_distinct(self.spaces@)) by {
                        assert forall|x: int, y: int|
                            #![trigger self.spaces@[x], self.spaces@[y]]
                            0 <= x < y < self.spaces@.len() implies self.spaces@[x].id@
                            != self.spaces@[y].id@ by {
                            assert(sspre[x].id@ != sspre[y].id@);
                            assert(self.spaces@[x].id@ == sspre[x].id@);
                            assert(self.spaces@[y].id@ == sspre[y].id@);
                        }
                    }
                }
            },
            None => {},
        }
    }

    /// Drop an extension's whole namespace; clearing an absent namespace
    /// changes nothing.
    pub fn clear(&mut self, plugin_id: &str)
        requires
            old(self).wf(),
        ensures
            final(self).wf(),
            final(self).view_map() == old(self).view_map().remove(plugin_id@),
    {
        let ghost sspre = self.spaces@;
        match self.find_space(plugin_id) {
            Some(i) => {
                let _ = self.spaces.remove(i);
                proof {
                    lemma_storage_map_remove(sspre, i as int);
                    assert(sspre[i as int].id@ == plugin_id@);
                }
            },
            None => {
                proof {
                    assert(storage_map(sspre).remove(plugin_id@) =~= storage_map(sspre));
                }
            },
        }
    }
}

/// Replace one element of an entry vector.
fn vec_set_entry(v: &mut Vec<StorageEntry>, i: usize, e: StorageEntry)
    requires
        i < old(v)@.len(),
    ensures
        final(v)@ == old(v)@.update(i as int, e),
{
    let _ = v.remove(i);
    v.insert(i, e);
    proof {
        assert(v@ =~= old(v)@.update(i as int, e));
    }
}

/// Removing the entry at an index removes exactly its key from the map.
proof fn lemma_entries_map_remove(es: Seq<StorageEntry>, j: int)
    requires
        entry_keys_distinct(es),
        0 <= j < es.len(),
    ensures
        entry_keys_distinct(es.remove(j)),
        entries_map(es.remove(j)) == entries_map(es).remove(es[j].key@),
    decreases es.len(),
{
    let pre = es.drop_last();
    assert(entry_keys_distinct(pre)) by {
        assert(forall|i: int| 0 <= i < pre.len() ==> (#[trigger] pre[i]) == es[i]);
    }
    assert(es.last() == es[es.len() - 1]);
    if j == es.len() - 1 {
        assert(es.remove(j) =~= pre);
        assert forall|k: int| 0 <= k < pre.len() implies (#[trigger] pre[k]).key@
            != es[j].key@ by {
            assert(es[k].key@ != es[j].key@);
        }
        lemma_entries_map_absent(pre, es[j].key@);
        assert(entries_map(es) == entries_map(pre).insert(es[j].key@, es[j].value@));
        assert(entries_map(es).remove(es[j].key@) =~= entries_map(pre));
    } else {
        assert(es.remove(j).drop_last() =~= pre.remove(j));
        assert(es.remove(j).last() == es.last());
        lemma_entries_map_remove(pre, j);
        assert(pre[j] == es[j]);
        assert(es.last().key@ != es[j].key@) by {
            assert(es[j].key@ != es[es.len() - 1].key@);
        }
        assert(entries_map(es.remove(j)) == entries_map(pre).remove(es[j].key@).insert(
            es.last().key@,
            es.last().value@,
        ));
        assert(entries_map(pre).remove(es[j].key@).insert(es.last().key@, es.last().value@)
            =~= entries_map(es).remove(es[j].key@));
        assert(entry_keys_distinct(es.remove(j))) by {
            let r = es.remove(j);
            assert forall|x: int, y: int|
                #![trigger r[x], r[y]]
                0 <= x < y < r.len() implies r[x].key@ != r[y].key@ by {
                let xo: int = if x < j { x } else { x + 1 };
                let yo: int = if y < j { y } else { y + 1 };
                assert(r[x] == es[xo]);
                assert(r[y] == es[yo]);
                assert(es[xo].key@ != es[yo].key@);
            }
        }
    }
}

/// Removing the namespace at an index removes exactly its id from the map.
proof fn lemma_storage_map_remove(ss: Seq<StorageNamespace>, j: int)
    requires
        ns_ids_distinct(ss),
        0 <= j < ss.len(),
    ensures
        ns_ids_distinct(ss.remove(j)),
        storage_map(ss.remove(j)) == storage_map(ss).remove(ss[j].id@),
        forall|k: int| 0 <= k < ss.remove(j).len() ==> exists|m: int|
            0 <= m < ss.len() && (#[trigger] ss.remove(j)[k]) == ss[m],
    decreases ss.len(),
{
    let pre = ss.drop_last();
    assert(ns_ids_distinct(pre)) by {
        assert(forall|i: int| 0 <= i < pre.len() ==> (#[trigger] pre[i]) == ss[i]);
    }
    assert(ss.last() == ss[ss.len() - 1]);
    if j == ss.len() - 1 {
        assert(ss.remove(j) =~= pre);
        assert forall|k: int| 0 <= k < pre.len() implies (#[trigger] pre[k]).id@ != ss[j].id@ by {
            assert(ss[k].id@ != ss[j].id@);
        }
        lemma_storage_map_absent(pre, ss[j].id@);
        assert(storage_map(ss) == storage_map(pre).insert(ss[j].id@, entries_map(
            ss[j].entries@,
        )));
        assert(storage_map(ss).remove(ss[j].id@) =~= storage_map(pre));
        assert forall|k: int| 0 <= k < ss.remove(j).len() implies exists|m: int|
            0 <= m < ss.len() && (#[trigger] ss.remove(j)[k]) == ss[m] by {
            assert(ss.remove(j)[k] == ss[k]);
        }
    } else {
        assert(ss.remove(j).drop_last() =~= pre.remove(j));
        assert(ss.remove(j).last() == ss.last());
        lemma_storage_map_remove(pre, j);
        assert(pre[j] == ss[j]);
        assert(ss.last().id@ != ss[j].id@) by {
            assert(ss[j].id@ != ss[ss.len() - 1].id@);
        }
        assert(storage_map(ss.remove(j)) == storage_map(pre).remove(ss[j].id@).insert(
            ss.last().id@,
            entries_map(ss.last().entries@),
        ));
        assert(storage_map(pre).remove(ss[j].id@).insert(
            ss.last().id@,
            entries_map(ss.last().entries@),
        ) =~= storage_map(ss).remove(ss[j].id@));
        assert(ns_ids_distinct(ss.remove(j))) by {
            let r = ss.remove(j);
            assert forall|x: int, y: int|
                #![trigger r[x], r[y]]
                0 <= x < y < r.len() implies r[x].id@ != r[y].id@ by {
                let xo: int = if x < j { x } else { x + 1 };
                let yo: int = if y < j { y } else { y + 1 };
                assert(r[x] == ss[xo]);
                assert(r[y] == ss[yo]);
                assert(ss[xo].id@ != ss[yo].id@);
            }
        }
        assert forall|k: int| 0 <= k < ss.remove(j).len() implies exists|m: int|
            0 <= m < ss.len() && (#[trigger] ss.remove(j)[k]) == ss[m] by {
            let ko: int = if k < j { k } else { k + 1 };
            assert(ss.remove(j)[k] == ss[ko]);
        }
    }
}

/// Writing under one extension's namespace never changes what any other
/// extension's namespace holds: keys written under one id are invisible
/// through every other id.
pub proof fn lemma_namespace_isolation(
    m: Map<Seq<char>, Map<Seq<char>, Seq<char>>>,
    a: Seq<char>,
    b: Seq<char>,
    inner: Map<Seq<char>, Seq<char>>,
)
    requires
        a != b,
    ensures
        m.insert(a, inner).contains_key(b) == m.contains_key(b),
        m.contains_key(b) ==> m.insert(a, inner)[b] == m[b],
{
}

} // verus!
