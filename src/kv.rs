use vstd::prelude::*;

verus! {

/// What a store holds: the value of each key, and the expiration ledger of
/// (key, deadline in milliseconds) records in the order they were made.
pub struct StoreModel {
    pub values: Map<Seq<char>, Seq<char>>,
    pub ledger: Seq<(Seq<char>, u64)>,
}

/// The key-value store: a mapping from keys to values, and a ledger of
/// deadlines after which a sweep evicts the key. Reads do not look at the
/// ledger: a key stays readable until a sweep at or after its deadline.
pub struct Store {
    entries: Vec<(String, String)>,
    ledger: Vec<(String, u64)>,
    values: Ghost<Map<Seq<char>, Seq<char>>>,
}

impl View for Store {
    type V = StoreModel;

    closed spec fn view(&self) -> StoreModel {
        StoreModel {
            values: self.values@,
            ledger: self.ledger@.map_values(|r: (String, u64)| (r.0@, r.1)),
        }
    }
}

impl Store {
    /// The entries hold each key once, and they are the mapping.
    pub closed spec fn wf(&self) -> bool {
        &&& forall|i: int|
            0 <= i < self.entries@.len() ==> self.values@.contains_key(
                #[trigger] self.entries@[i].0@,
            ) && self.values@[self.entries@[i].0@] == self.entries@[i].1@
        &&& forall|k: Seq<char>| #[trigger]
            self.values@.contains_key(k) ==> exists|i: int|
                0 <= i < self.entries@.len() && #[trigger] self.entries@[i].0@ == k
        &&& forall|i: int, j: int|
            0 <= i < j < self.entries@.len() ==> #[trigger] self.entries@[i].0@
                != #[trigger] self.entries@[j].0@
    }
}

/// The deadline of an expiry given at `now`, saturating at the largest time.
pub open spec fn deadline(now: u64, ms: u64) -> u64 {
    if now + ms > u64::MAX {
        u64::MAX
    } else {
        (now + ms) as u64
    }
}

/// The store after setting `key` to `value` at `now`: an expiry appends a
/// ledger record and leaves earlier records alone.
pub open spec fn set_spec(
    m: StoreModel,
    key: Seq<char>,
    value: Seq<char>,
    expiry: Option<u64>,
    now: u64,
) -> StoreModel {
    StoreModel {
        values: m.values.insert(key, value),
        ledger: match expiry {
            Some(ms) => m.ledger.push((key, deadline(now, ms))),
            None => m.ledger,
        },
    }
}

/// The mapping after a sweep at `now` over the ledger records, in order:
/// each record that is due removes its key.
pub open spec fn swept_values(
    values: Map<Seq<char>, Seq<char>>,
    ledger: Seq<(Seq<char>, u64)>,
    now: u64,
) -> Map<Seq<char>, Seq<char>>
    decreases ledger.len(),
{
    if ledger.len() == 0 {
        values
    } else {
        let v = swept_values(values, ledger.drop_last(), now);
        if ledger.last().1 <= now {
            v.remove(ledger.last().0)
        } else {
            v
        }
    }
}

/// The store after a sweep at `now`: due keys are evicted and due records
/// dropped; the records not yet due stay, in order.
pub open spec fn sweep_spec(m: StoreModel, now: u64) -> StoreModel {
    StoreModel {
        values: swept_values(m.values, m.ledger, now),
        ledger: m.ledger.filter(|r: (Seq<char>, u64)| r.1 > now),
    }
}

/// An empty store with an empty ledger.
pub fn init() -> (r: Store)
    ensures
        r.wf(),
        r@.values == Map::<Seq<char>, Seq<char>>::empty(),
        r@.ledger == Seq::<(Seq<char>, u64)>::empty(),
{
    let r = Store { entries: Vec::new(), ledger: Vec::new(), values: Ghost(Map::empty()) };
    assert(r@.ledger =~= Seq::<(Seq<char>, u64)>::empty());
    r
}

/// The index of the entry for `key`, if there is one.
fn find(store: &Store, key: &String) -> (r: Option<usize>)
    requires
        store.wf(),
    ensures
        match r {
            Some(i) => i < store.entries@.len() && store.entries@[i as int].0@ == key@,
            None => !store@.values.contains_key(key@),
        },
{
    let mut i: usize = 0;
    while i < store.entries.len()
        invariant
            i <= store.entries@.len(),
            store.wf(),
            forall|j: int| 0 <= j < i ==> store.entries@[j].0@ != key@,
        decreases store.entries@.len() - i,
    {
        if store.entries[i].0 == *key {
            return Some(i);
        }
        i = i + 1;
    }
    None
}

/// The value of `key`, whatever the ledger says of it.
pub fn get(store: &Store, key: &str) -> (r: Option<String>)
    requires
        store.wf(),
    ensures
        match r {
            Some(v) => store@.values.contains_key(key@) && v@ == store@.values[key@],
            None => !store@.values.contains_key(key@),
        },
{
    let k = key.to_owned();
    match find(store, &k) {
        Some(i) => Some(store.entries[i].1.clone()),
        None => None,
    }
}

/// Sets `key` to `value`; with an expiry, also records the deadline
/// `now + expiry` in the ledger.
pub fn set(store: &mut Store, key: &str, value: String, expiry: Option<u64>, now: u64)
    requires
        old(store).wf(),
    ensures
        final(store).wf(),
        final(store)@ == set_spec(old(store)@, key@, value@, expiry, now),
{
    let k = key.to_owned();
    evict(store, &k);
    let ghost kept = store.entries@;
    let ghost kept_values = store.values@;
    assert forall|j: int| 0 <= j < kept.len() implies #[trigger] kept[j].0@ != k@ by {
        assert(kept_values.contains_key(kept[j].0@));
    }
    store.entries.push((k, value));
    let ghost v = value@;
    store.values = Ghost(store.values@.insert(key@, v));
    proof {
        let n = store.entries@.len() - 1;
        assert(store.entries@[n].0@ == key@);
        assert forall|q: Seq<char>| #[trigger] store.values@.contains_key(q) implies exists|i: int|
            0 <= i < store.entries@.len() && #[trigger] store.entries@[i].0@ == q by {
            if q == key@ {
                assert(store.entries@[n].0@ == q);
            } else {
                assert(kept_values.contains_key(q));
                let i = choose|i: int| 0 <= i < kept.len() && #[trigger] kept[i].0@ == q;
                assert(store.entries@[i].0@ == q);
            }
        }
        assert forall|a: int, b: int|
            0 <= a < b < store.entries@.len() implies #[trigger] store.entries@[a].0@
                != #[trigger] store.entries@[b].0@ by {
            if b == n {
                assert(kept[a].0@ != k@);
            } else {
                assert(kept[a].0@ != kept[b].0@);
            }
        }
        assert forall|i: int| 0 <= i < store.entries@.len() implies store.values@.contains_key(
            #[trigger] store.entries@[i].0@,
        ) && store.values@[store.entries@[i].0@] == store.entries@[i].1@ by {
            if i < n {
                assert(kept[i].0@ != k@);
                assert(kept_values.contains_key(kept[i].0@));
            }
        }
        assert(store.values@ =~= old(store)@.values.insert(key@, value@));
    }
    let ghost e = store.entries;
    let ghost vv = store.values;
    assert(store.wf());
    if let Some(ms) = expiry {
        let at = if ms > u64::MAX - now {
            u64::MAX
        } else {
            now + ms
        };
        store.ledger.push((key.to_owned(), at));
    }
    assert(store.entries == e && store.values == vv);
    assert(store@.ledger =~= set_spec(old(store)@, key@, value@, expiry, now).ledger);
}

/// Removes the entry for `key`, if there is one.
fn evict(store: &mut Store, key: &String)
    requires
        old(store).wf(),
    ensures
        final(store).wf(),
        final(store).ledger == old(store).ledger,
        final(store)@.values == old(store)@.values.remove(key@),
{
    let ghost old_entries = store.entries@;
    match find(store, key) {
        Some(i) => {
            store.entries.remove(i);
            store.values = Ghost(store.values@.remove(key@));
            proof {
                assert forall|q: Seq<char>| #[trigger] store.values@.contains_key(q) implies exists|
                    j: int,
                |
                    0 <= j < store.entries@.len() && #[trigger] store.entries@[j].0@ == q by {
                    let j = choose|j: int|
                        0 <= j < old_entries.len() && #[trigger] old_entries[j].0@ == q;
                    if j < i {
                        assert(store.entries@[j].0@ == q);
                    } else {
                        assert(store.entries@[j - 1].0@ == q);
                    }
                }
            }
        },
        None => {
            assert(store.values@.remove(key@) =~= store.values@);
        },
    }
}

/// One sweep at `now`: evicts the key of every ledger record that is due and
/// drops those records; the others stay for the next sweep.
pub fn sweep(store: &mut Store, now: u64)
    requires
        old(store).wf(),
    ensures
        final(store).wf(),
        final(store)@ == sweep_spec(old(store)@, now),
{
    let records = store.ledger.split_off(0);
    assert(store.entries == old(store).entries);
    assert(store.values == old(store).values);
    assert(store.wf());
    let ghost recs = records@.map_values(|r: (String, u64)| (r.0@, r.1));
    let ghost start = store.values@;
    let mut kept: Vec<(String, u64)> = Vec::new();
    let mut i: usize = 0;
    while i < records.len()
        invariant
            i <= records@.len(),
            store.wf(),
            recs == records@.map_values(|r: (String, u64)| (r.0@, r.1)),
            store.values@ == swept_values(start, recs.subrange(0, i as int), now),
            kept@.map_values(|r: (String, u64)| (r.0@, r.1)) == recs.subrange(0, i as int).filter(
                |r: (Seq<char>, u64)| r.1 > now,
            ),
        decreases records@.len() - i,
    {
        let ghost pre = recs.subrange(0, i as int);
        let ghost kept_before = kept@;
        proof {
            assert(recs.subrange(0, i + 1).drop_last() =~= pre);
            reveal(Seq::filter);
        }
        if records[i].1 <= now {
            evict(store, &records[i].0);
        } else {
            kept.push((records[i].0.clone(), records[i].1));
            assert(kept@.map_values(|r: (String, u64)| (r.0@, r.1)) =~= kept_before.map_values(
                |r: (String, u64)| (r.0@, r.1),
            ).push(recs[i as int]));
        }
        i = i + 1;
    }
    proof {
        assert(recs.subrange(0, i as int) =~= recs);
        assert(recs =~= old(store)@.ledger);
    }
    let ghost e = store.entries;
    let ghost vv = store.values;
    assert(store.wf());
    store.ledger = kept;
    assert(store.entries == e && store.values == vv);
}

proof fn lemma_swept_removes(
    values: Map<Seq<char>, Seq<char>>,
    ledger: Seq<(Seq<char>, u64)>,
    now: u64,
    i: int,
)
    requires
        0 <= i < ledger.len(),
        ledger[i].1 <= now,
    ensures
        !swept_values(values, ledger, now).contains_key(ledger[i].0),
    decreases ledger.len(),
{
    if i < ledger.len() - 1 {
        lemma_swept_removes(values, ledger.drop_last(), now, i);
    }
}

/// A sweep at or after the deadline of a ledger record evicts its key, and a
/// sweep before it keeps the record for a later sweep.
pub proof fn lemma_sweep_due_record(m: StoreModel, now: u64, i: int)
    requires
        0 <= i < m.ledger.len(),
    ensures
        m.ledger[i].1 <= now ==> !sweep_spec(m, now).values.contains_key(m.ledger[i].0),
        m.ledger[i].1 > now ==> sweep_spec(m, now).ledger.contains(m.ledger[i]),
{
    if m.ledger[i].1 <= now {
        lemma_swept_removes(m.values, m.ledger, now, i);
    } else {
        let pred = |r: (Seq<char>, u64)| r.1 > now;
        m.ledger.filter_lemma(pred);
        assert(m.ledger.filter(pred).contains(m.ledger[i]));
    }
}

/// Expiry: right after a set with an expiry the key reads back the value, and
/// the first sweep at or after `now + ms` evicts it; sweeps before that keep
/// its record.
pub proof fn lemma_expiry(
    m: StoreModel,
    key: Seq<char>,
    value: Seq<char>,
    ms: u64,
    now: u64,
    later: u64,
)
    ensures
        set_spec(m, key, value, Some(ms), now).values.contains_key(key),
        set_spec(m, key, value, Some(ms), now).values[key] == value,
        later >= deadline(now, ms) ==> !sweep_spec(
            set_spec(m, key, value, Some(ms), now),
            later,
        ).values.contains_key(key),
        later < deadline(now, ms) ==> sweep_spec(
            set_spec(m, key, value, Some(ms), now),
            later,
        ).ledger.contains((key, deadline(now, ms))),
{
    let m1 = set_spec(m, key, value, Some(ms), now);
    let i = m1.ledger.len() - 1;
    assert(m1.ledger[i] == (key, deadline(now, ms)));
    lemma_sweep_due_record(m1, later, i);
}

/// The store after the sets of `writes` to one key, in order; each write is
/// a value, an optional expiry and the time it lands.
pub open spec fn apply_sets(
    m: StoreModel,
    key: Seq<char>,
    writes: Seq<(Seq<char>, Option<u64>, u64)>,
) -> StoreModel
    decreases writes.len(),
{
    if writes.len() == 0 {
        m
    } else {
        let w = writes.last();
        set_spec(apply_sets(m, key, writes.drop_last()), key, w.0, w.1, w.2)
    }
}

/// Writers racing on one key: whatever order the writes land in, a read
/// afterwards gives the value of one of them, the last to land.
pub proof fn lemma_last_writer_wins(
    m: StoreModel,
    key: Seq<char>,
    writes: Seq<(Seq<char>, Option<u64>, u64)>,
)
    requires
        writes.len() > 0,
    ensures
        apply_sets(m, key, writes).values.contains_key(key),
        apply_sets(m, key, writes).values[key] == writes.last().0,
        exists|i: int|
            0 <= i < writes.len() && #[trigger] writes[i].0 == apply_sets(
                m,
                key,
                writes,
            ).values[key],
{
    assert(writes[writes.len() - 1].0 == apply_sets(m, key, writes).values[key]);
}

} // verus!
