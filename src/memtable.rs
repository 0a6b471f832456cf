//! The in-memory table: keys in byte-lexicographic order, each with the
//! entry of the highest-numbered write seen for it.
use vstd::prelude::*;
use crate::entry::{Entry, EntryModel};
use crate::types::{empty_key_error, DBError};

verus! {

/// `a` comes before `b` in byte-lexicographic order: at the first position
/// where they differ `a` holds the smaller byte, or `a` is a proper prefix of `b`.
pub open spec fn lex_lt(a: Seq<u8>, b: Seq<u8>) -> bool {
    exists|i: int| lex_lt_at(a, b, i)
}

/// `a` and `b` agree before `i`, and `i` is where `a` falls below `b`.
pub open spec fn lex_lt_at(a: Seq<u8>, b: Seq<u8>, i: int) -> bool {
    &&& 0 <= i <= a.len()
    &&& i < b.len()
    &&& forall|j: int| 0 <= j < i ==> a[j] == b[j]
    &&& (i == a.len() || a[i] < b[i])
}

pub proof fn lemma_lex_lt_irreflexive(a: Seq<u8>)
    ensures
        !lex_lt(a, a),
{
}

pub proof fn lemma_lex_lt_transitive(a: Seq<u8>, b: Seq<u8>, c: Seq<u8>)
    requires
        lex_lt(a, b),
        lex_lt(b, c),
    ensures
        lex_lt(a, c),
{
    let i = choose|i: int| lex_lt_at(a, b, i);
    let j = choose|j: int| lex_lt_at(b, c, j);
    if i <= j {
        assert(lex_lt_at(a, c, i));
    } else {
        assert(lex_lt_at(a, c, j));
    }
}

/// Byte-lexicographic comparison of `a` with `b`.
pub fn compare_keys(a: &[u8], b: &[u8]) -> (r: std::cmp::Ordering)
    ensures
        r == std::cmp::Ordering::Less <==> lex_lt(a@, b@),
        r == std::cmp::Ordering::Equal <==> a@ == b@,
        r == std::cmp::Ordering::Greater <==> lex_lt(b@, a@),
{
    let n: usize = if a.len() < b.len() {
        a.len()
    } else {
        b.len()
    };
    let mut i: usize = 0;
    while i < n
        invariant
            i <= n,
            n <= a@.len(),
            n <= b@.len(),
            n == a@.len() || n == b@.len(),
            forall|j: int| 0 <= j < i ==> a@[j] == b@[j],
        decreases n - i,
    {
        if a[i] < b[i] {
            assert(lex_lt_at(a@, b@, i as int));
            proof {
                lemma_lex_lt_order_facts(a@, b@);
            }
            return std::cmp::Ordering::Less;
        }
        if a[i] > b[i] {
            assert(lex_lt_at(b@, a@, i as int));
            proof {
                lemma_lex_lt_order_facts(b@, a@);
            }
            return std::cmp::Ordering::Greater;
        }
        i = i + 1;
    }
    if a.len() < b.len() {
        assert(lex_lt_at(a@, b@, n as int));
        proof {
            lemma_lex_lt_order_facts(a@, b@);
        }
        std::cmp::Ordering::Less
    } else if a.len() > b.len() {
        assert(lex_lt_at(b@, a@, n as int));
        proof {
            lemma_lex_lt_order_facts(b@, a@);
        }
        std::cmp::Ordering::Greater
    } else {
        assert(a@ =~= b@);
        proof {
            lemma_lex_lt_irreflexive(a@);
        }
        std::cmp::Ordering::Equal
    }
}

/// Where `a` comes before `b`, the two differ and `b` does not come before `a`.
proof fn lemma_lex_lt_order_facts(a: Seq<u8>, b: Seq<u8>)
    requires
        lex_lt(a, b),
    ensures
        a != b,
        !lex_lt(b, a),
{
    lemma_lex_lt_irreflexive(a);
    if lex_lt(b, a) {
        lemma_lex_lt_transitive(a, b, a);
    }
}

/// Each key strictly before the next, so no key appears twice.
pub open spec fn sorted_keys(ks: Seq<Seq<u8>>) -> bool {
    forall|i: int, j: int| 0 <= i < j < ks.len() ==> lex_lt(#[trigger] ks[i], #[trigger] ks[j])
}

/// The map from each key of `ks` to the entry at the same position of `es`.
pub open spec fn table_map(ks: Seq<Seq<u8>>, es: Seq<EntryModel>) -> Map<Seq<u8>, EntryModel> {
    Map::new(
        |k: Seq<u8>| ks.contains(k),
        |k: Seq<u8>| es[choose|i: int| 0 <= i < ks.len() && ks[i] == k],
    )
}

proof fn lemma_table_map_index(ks: Seq<Seq<u8>>, es: Seq<EntryModel>, i: int)
    requires
        sorted_keys(ks),
        ks.len() == es.len(),
        0 <= i < ks.len(),
    ensures
        table_map(ks, es).contains_key(ks[i]),
        table_map(ks, es)[ks[i]] == es[i],
{
    assert(ks.contains(ks[i]));
    let j = choose|j: int| 0 <= j < ks.len() && ks[j] == ks[i];
    if j < i {
        lemma_lex_lt_irreflexive(ks[i]);
        assert(lex_lt(ks[j], ks[i]));
    } else if j > i {
        lemma_lex_lt_irreflexive(ks[i]);
        assert(lex_lt(ks[i], ks[j]));
    }
}

proof fn lemma_table_map_absent(ks: Seq<Seq<u8>>, es: Seq<EntryModel>, k: Seq<u8>)
    requires
        forall|j: int| 0 <= j < ks.len() ==> ks[j] != k,
    ensures
        !table_map(ks, es).contains_key(k),
{
}

proof fn lemma_table_map_len(ks: Seq<Seq<u8>>, es: Seq<EntryModel>)
    requires
        sorted_keys(ks),
    ensures
        table_map(ks, es).len() == ks.len(),
{
    assert forall|i: int, j: int| 0 <= i < ks.len() && 0 <= j < ks.len() && i != j implies ks[i]
        != ks[j] by {
        if i < j {
            lemma_lex_lt_order_facts(ks[i], ks[j]);
        } else {
            lemma_lex_lt_order_facts(ks[j], ks[i]);
        }
    }
    assert(table_map(ks, es).dom() =~= ks.to_set());
    ks.unique_seq_to_set();
}

proof fn lemma_table_map_update(ks: Seq<Seq<u8>>, es: Seq<EntryModel>, i: int, e: EntryModel)
    requires
        sorted_keys(ks),
        ks.len() == es.len(),
        0 <= i < ks.len(),
    ensures
        table_map(ks, es.update(i, e)) =~= table_map(ks, es).insert(ks[i], e),
{
    let old_map = table_map(ks, es);
    let new_map = table_map(ks, es.update(i, e));
    assert forall|k: Seq<u8>| #[trigger] new_map.contains_key(k) implies new_map[k]
        == old_map.insert(ks[i], e)[k] by {
        let j = choose|j: int| 0 <= j < ks.len() && ks[j] == k;
        lemma_table_map_index(ks, es, j);
        lemma_table_map_index(ks, es.update(i, e), j);
        lemma_table_map_index(ks, es, i);
    }
    assert forall|k: Seq<u8>| #[trigger] old_map.insert(ks[i], e).contains_key(k) implies new_map.contains_key(k) by {
        if k == ks[i] {
            lemma_table_map_index(ks, es.update(i, e), i);
        }
    }
}

proof fn lemma_table_map_insert(
    ks: Seq<Seq<u8>>,
    es: Seq<EntryModel>,
    i: int,
    key: Seq<u8>,
    e: EntryModel,
)
    requires
        sorted_keys(ks),
        sorted_keys(ks.insert(i, key)),
        ks.len() == es.len(),
        0 <= i <= ks.len(),
    ensures
        table_map(ks.insert(i, key), es.insert(i, e)) =~= table_map(ks, es).insert(key, e),
{
    let nks = ks.insert(i, key);
    let nes = es.insert(i, e);
    let old_map = table_map(ks, es);
    let new_map = table_map(nks, nes);
    assert forall|k: Seq<u8>| #[trigger] new_map.contains_key(k) implies old_map.insert(
        key,
        e,
    ).contains_key(k) && new_map[k] == old_map.insert(key, e)[k] by {
        let j = choose|j: int| 0 <= j < nks.len() && nks[j] == k;
        lemma_table_map_index(nks, nes, j);
        lemma_table_map_index(nks, nes, i);
        if j < i {
            lemma_table_map_index(ks, es, j);
        } else if j > i {
            lemma_table_map_index(ks, es, j - 1);
        }
    }
    assert forall|k: Seq<u8>| #[trigger] old_map.insert(key, e).contains_key(k) implies new_map.contains_key(k) by {
        if k == key {
            lemma_table_map_index(nks, nes, i);
        } else {
            let j = choose|j: int| 0 <= j < ks.len() && ks[j] == k;
            if j < i {
                lemma_table_map_index(nks, nes, j);
            } else {
                lemma_table_map_index(nks, nes, j + 1);
            }
        }
    }
}

/// The keys of the table with their entries, in byte-lexicographic order.
pub struct MemTable {
    keys: Vec<Vec<u8>>,
    entries: Vec<Entry>,
}

impl MemTable {
    /// The keys, in the order they are held.
    pub closed spec fn key_seq(&self) -> Seq<Seq<u8>> {
        self.keys@.map_values(|k: Vec<u8>| k@)
    }

    /// The entries, at the positions of their keys.
    pub closed spec fn entry_seq(&self) -> Seq<EntryModel> {
        self.entries@.map_values(|e: Entry| e@)
    }

    /// Keys strictly ascending and never empty, one entry for each.
    pub closed spec fn wf(&self) -> bool {
        &&& self.keys@.len() == self.entries@.len()
        &&& sorted_keys(self.key_seq())
        &&& forall|i: int| 0 <= i < self.keys@.len() ==> (#[trigger] self.key_seq()[i]).len() > 0
    }
}

impl View for MemTable {
    type V = Map<Seq<u8>, EntryModel>;

    closed spec fn view(&self) -> Map<Seq<u8>, EntryModel> {
        table_map(self.key_seq(), self.entry_seq())
    }
}

/// `s` is the highest sequence number among the entries of `m`.
pub open spec fn is_max_seq_no(m: Map<Seq<u8>, EntryModel>, s: u64) -> bool {
    &&& forall|k: Seq<u8>| #[trigger] m.contains_key(k) ==> m[k].seq_no() <= s
    &&& exists|k: Seq<u8>| #[trigger] m.contains_key(k) && m[k].seq_no() == s
}

/// The table after a put of `val` under `key` with sequence number `seq_no`:
/// the new value replaces the entry only if that entry's number is lower.
pub open spec fn put_model(
    m: Map<Seq<u8>, EntryModel>,
    key: Seq<u8>,
    val: Seq<u8>,
    seq_no: u64,
) -> Map<Seq<u8>, EntryModel> {
    if m.contains_key(key) && m[key].seq_no() >= seq_no {
        m
    } else {
        m.insert(key, EntryModel::Value { seq_no, val })
    }
}

/// The table after a delete of `key` with sequence number `seq_no`: a
/// tombstone goes in only where the key has no entry yet.
pub open spec fn delete_model(m: Map<Seq<u8>, EntryModel>, key: Seq<u8>, seq_no: u64) -> Map<
    Seq<u8>,
    EntryModel,
> {
    if m.contains_key(key) {
        m
    } else {
        m.insert(key, EntryModel::Tombstone { seq_no })
    }
}

impl MemTable {
    /// An empty table.
    pub fn new() -> (r: MemTable)
        ensures
            r.wf(),
            r@ == Map::<Seq<u8>, EntryModel>::empty(),
    {
        let r = MemTable { keys: Vec::new(), entries: Vec::new() };
        assert(r.key_seq() =~= Seq::<Seq<u8>>::empty());
        assert(r@ =~= Map::<Seq<u8>, EntryModel>::empty());
        r
    }

    /// The number of keys in the table.
    pub fn len(&self) -> (r: usize)
        requires
            self.wf(),
        ensures
            r == self@.len(),
    {
        proof {
            lemma_table_map_len(self.key_seq(), self.entry_seq());
        }
        self.keys.len()
    }

    pub fn is_empty(&self) -> (r: bool)
        requires
            self.wf(),
        ensures
            r == (self@.len() == 0),
    {
        self.len() == 0
    }

    /// The highest sequence number among the entries, if there are any.
    pub fn max_seq_no(&self) -> (r: Option<u64>)
        requires
            self.wf(),
        ensures
            r is None ==> self@ == Map::<Seq<u8>, EntryModel>::empty(),
            r matches Some(s) ==> is_max_seq_no(self@, s),
    {
        let n: usize = self.entries.len();
        if n == 0 {
            assert(self@ =~= Map::<Seq<u8>, EntryModel>::empty());
            return None;
        }
        let ghost ks = self.key_seq();
        let ghost es = self.entry_seq();
        let mut best: u64 = self.entries[0].seq_no();
        let mut i: usize = 1;
        assert(es[0] == self.entries@[0]@);
        while i < n
            invariant
                self.wf(),
                ks == self.key_seq(),
                es == self.entry_seq(),
                n == self.entries@.len(),
                1 <= i <= n,
                forall|j: int| 0 <= j < i ==> (#[trigger] es[j]).seq_no() <= best,
                exists|j: int| 0 <= j < i && (#[trigger] es[j]).seq_no() == best,
            decreases n - i,
        {
            assert(es[i as int] == self.entries@[i as int]@);
            let s = self.entries[i].seq_no();
            if s > best {
                best = s;
            }
            i = i + 1;
        }
        proof {
            assert forall|k: Seq<u8>| #[trigger] self@.contains_key(k) implies self@[k].seq_no()
                <= best by {
                let j = choose|j: int| 0 <= j < ks.len() && ks[j] == k;
                lemma_table_map_index(ks, es, j);
            }
            let j = choose|j: int| 0 <= j < n && (#[trigger] es[j]).seq_no() == best;
            lemma_table_map_index(ks, es, j);
        }
        Some(best)
    }

    /// Where `key` stands (`Ok`), or where it would go to keep the order (`Err`).
    fn find(&self, key: &[u8]) -> (r: Result<usize, usize>)
        requires
            self.wf(),
        ensures
            r matches Ok(i) ==> i < self.keys@.len() && self.key_seq()[i as int] == key@,
            r matches Err(i) ==> i <= self.keys@.len() && (forall|j: int|
                0 <= j < i ==> lex_lt(#[trigger] self.key_seq()[j], key@)) && (forall|j: int|
                i <= j < self.keys@.len() ==> lex_lt(key@, #[trigger] self.key_seq()[j])),
    {
        let n: usize = self.keys.len();
        let mut i: usize = 0;
        while i < n
            invariant
                self.wf(),
                n == self.keys@.len(),
                i <= n,
                forall|j: int| 0 <= j < i ==> lex_lt(#[trigger] self.key_seq()[j], key@),
            decreases n - i,
        {
            assert(self.key_seq()[i as int] == self.keys@[i as int]@);
            match compare_keys(self.keys[i].as_slice(), key) {
                std::cmp::Ordering::Less => {},
                std::cmp::Ordering::Equal => {
                    return Ok(i);
                },
                std::cmp::Ordering::Greater => {
                    let ghost ks = self.key_seq();
                    assert forall|j: int| i <= j < n implies lex_lt(key@, #[trigger] ks[j]) by {
                        if j > i {
                            lemma_lex_lt_transitive(key@, ks[i as int], ks[j]);
                        }
                    }
                    return Err(i);
                },
            }
            i = i + 1;
        }
        Err(n)
    }

    /// The entry held for `key`, if any.
    pub fn get(&self, key: &[u8]) -> (r: Option<&Entry>)
        requires
            self.wf(),
        ensures
            r matches Some(e) ==> self@.contains_key(key@) && e@ == self@[key@],
            r is None ==> !self@.contains_key(key@),
    {
        match self.find(key) {
            Ok(i) => {
                proof {
                    lemma_table_map_index(self.key_seq(), self.entry_seq(), i as int);
                }
                Some(&self.entries[i])
            },
            Err(i) => {
                proof {
                    assert forall|j: int| 0 <= j < self.key_seq().len() implies self.key_seq()[j]
                        != key@ by {
                        if j < i {
                            lemma_lex_lt_order_facts(self.key_seq()[j], key@);
                        } else {
                            lemma_lex_lt_order_facts(key@, self.key_seq()[j]);
                        }
                    }
                    lemma_table_map_absent(self.key_seq(), self.entry_seq(), key@);
                }
                None
            },
        }
    }

    /// Replaces the entry at position `i`.
    fn set_entry(&mut self, i: usize, e: Entry)
        requires
            old(self).wf(),
            i < old(self).keys@.len(),
        ensures
            final(self).wf(),
            final(self)@ == old(self)@.insert(old(self).key_seq()[i as int], e@),
    {
        let ghost ks = self.key_seq();
        let ghost es = self.entry_seq();
        proof {
            lemma_table_map_update(ks, es, i as int, e@);
        }
        self.entries.set(i, e);
        assert(self.entry_seq() =~= es.update(i as int, e@));
        assert(self.key_seq() =~= ks);
    }

    /// Puts `key` with `e` at position `i`, which keeps the keys in order.
    fn insert_at(&mut self, i: usize, key: Vec<u8>, e: Entry)
        requires
            old(self).wf(),
            key@.len() > 0,
            i <= old(self).keys@.len(),
            forall|j: int| 0 <= j < i ==> lex_lt(#[trigger] old(self).key_seq()[j], key@),
            forall|j: int|
                i <= j < old(self).keys@.len() ==> lex_lt(key@, #[trigger] old(self).key_seq()[j]),
        ensures
            final(self).wf(),
            final(self)@ == old(self)@.insert(key@, e@),
    {
        let ghost ks = self.key_seq();
        let ghost es = self.entry_seq();
        let ghost nks = ks.insert(i as int, key@);
        assert forall|a: int, b: int| 0 <= a < b < nks.len() implies lex_lt(
            #[trigger] nks[a],
            #[trigger] nks[b],
        ) by {
            if b < i {
            } else if b == i {
            } else if a < i {
                assert(nks[b] == ks[b - 1]);
            } else if a == i {
                assert(nks[b] == ks[b - 1]);
            } else {
                assert(nks[a] == ks[a - 1] && nks[b] == ks[b - 1]);
            }
        }
        proof {
            lemma_table_map_insert(ks, es, i as int, key@, e@);
        }
        self.keys.insert(i, key);
        self.entries.insert(i, e);
        assert(self.key_seq() =~= nks);
        assert(self.entry_seq() =~= es.insert(i as int, e@));
    }
}

/// Writes `val` under `key` with sequence number `seq_no`.
///
/// An empty key is refused with a `Codec` error and the table is left as it
/// was. Otherwise the value goes in if the key has no entry, or replaces an
/// entry whose sequence number is lower; a write whose number is not higher
/// than the entry's is dropped.
pub fn put(mem: &mut MemTable, key: Vec<u8>, val: Vec<u8>, seq_no: u64) -> (r: Result<(), DBError>)
    requires
        old(mem).wf(),
    ensures
        final(mem).wf(),
        key@.len() == 0 ==> (r matches Err(DBError::Codec { .. })) && final(mem)@ == old(mem)@,
        key@.len() > 0 ==> r is Ok && final(mem)@ == put_model(old(mem)@, key@, val@, seq_no),
{
    if key.len() == 0 {
        return Err(empty_key_error());
    }
    match mem.find(key.as_slice()) {
        Ok(i) => {
            proof {
                lemma_table_map_index(mem.key_seq(), mem.entry_seq(), i as int);
            }
            assert(mem.entry_seq()[i as int] == mem.entries@[i as int]@);
            if mem.entries[i].seq_no() < seq_no {
                mem.set_entry(i, Entry::Value { seq_no, val });
            }
        },
        Err(i) => {
            proof {
                assert forall|j: int| 0 <= j < mem.key_seq().len() implies mem.key_seq()[j]
                    != key@ by {
                    if j < i {
                        lemma_lex_lt_order_facts(mem.key_seq()[j], key@);
                    } else {
                        lemma_lex_lt_order_facts(key@, mem.key_seq()[j]);
                    }
                }
                lemma_table_map_absent(mem.key_seq(), mem.entry_seq(), key@);
            }
            mem.insert_at(i, key, Entry::Value { seq_no, val });
        },
    }
    Ok(())
}

/// Marks `key` deleted with sequence number `seq_no`, only where the key has
/// no entry yet; an existing value or tombstone is left as it is.
///
/// An empty key is refused with a `Codec` error and the table is left as it was.
pub fn delete(mem: &mut MemTable, key: Vec<u8>, seq_no: u64) -> (r: Result<(), DBError>)
    requires
        old(mem).wf(),
    ensures
        final(mem).wf(),
        key@.len() == 0 ==> (r matches Err(DBError::Codec { .. })) && final(mem)@ == old(mem)@,
        key@.len() > 0 ==> r is Ok && final(mem)@ == delete_model(old(mem)@, key@, seq_no),
{
    if key.len() == 0 {
        return Err(empty_key_error());
    }
    match mem.find(key.as_slice()) {
        Ok(i) => {
            proof {
                lemma_table_map_index(mem.key_seq(), mem.entry_seq(), i as int);
            }
        },
        Err(i) => {
            proof {
                assert forall|j: int| 0 <= j < mem.key_seq().len() implies mem.key_seq()[j]
                    != key@ by {
                    if j < i {
                        lemma_lex_lt_order_facts(mem.key_seq()[j], key@);
                    } else {
                        lemma_lex_lt_order_facts(key@, mem.key_seq()[j]);
                    }
                }
                lemma_table_map_absent(mem.key_seq(), mem.entry_seq(), key@);
            }
            mem.insert_at(i, key, Entry::Tombstone { seq_no });
        },
    }
    Ok(())
}

/// Two puts to one key numbered `a < b`, applied in either order, leave
/// `b`'s value under the key and the same table, provided the key held no
/// entry numbered `b` or higher before.
pub proof fn lemma_last_writer_by_seq_no(
    m: Map<Seq<u8>, EntryModel>,
    key: Seq<u8>,
    val_a: Seq<u8>,
    a: u64,
    val_b: Seq<u8>,
    b: u64,
)
    requires
        a < b,
        !m.contains_key(key) || m[key].seq_no() < b,
    ensures
        put_model(put_model(m, key, val_a, a), key, val_b, b) == put_model(
            put_model(m, key, val_b, b),
            key,
            val_a,
            a,
        ),
        put_model(put_model(m, key, val_a, a), key, val_b, b)[key] == (EntryModel::Value {
            seq_no: b,
            val: val_b,
        }),
{
    let ab = put_model(put_model(m, key, val_a, a), key, val_b, b);
    let ba = put_model(put_model(m, key, val_b, b), key, val_a, a);
    assert(ab =~= m.insert(key, EntryModel::Value { seq_no: b, val: val_b }));
    assert(ba =~= m.insert(key, EntryModel::Value { seq_no: b, val: val_b }));
}

} // verus!
