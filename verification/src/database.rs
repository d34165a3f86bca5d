//! The static name table the server answers from: lowercased names mapped
//! to IPv4 addresses, seeded once at startup and only read while serving.

use vstd::prelude::*;

use crate::types::Ipv4Address;

verus! {

/// The lowercase form of a string, as the standard library computes it.
pub uninterp spec fn lower_of(s: Seq<char>) -> Seq<char>;

/// Relies on str::to_lowercase: the result is a pure function of the
/// characters alone.
#[verifier::external_body]
fn to_lowercase(s: &str) -> (r: String)
    ensures
        r@ == lower_of(s@),
{
    s.to_lowercase()
}

/// The map a list of entries stands for; a later entry for the same name
/// wins.
pub open spec fn entries_map(entries: Seq<(String, Ipv4Address)>) -> Map<Seq<char>, Ipv4Address>
    decreases entries.len(),
{
    if entries.len() == 0 {
        Map::empty()
    } else {
        entries_map(entries.drop_last()).insert(entries.last().0@, entries.last().1)
    }
}

/// A name table. Keys are stored lowercased and are pairwise distinct, so
/// a lookup scan agrees with the map the entries stand for.
pub struct SimpleDnsDatabase {
    records: Vec<(String, Ipv4Address)>,
}

impl View for SimpleDnsDatabase {
    type V = Map<Seq<char>, Ipv4Address>;

    open spec fn view(&self) -> Map<Seq<char>, Ipv4Address> {
        entries_map(self.entries())
    }
}

/// No two entries share a name.
pub open spec fn distinct_keys(entries: Seq<(String, Ipv4Address)>) -> bool {
    forall|i: int, j: int|
        0 <= i < j < entries.len() ==> (#[trigger] entries[i]).0@ != (#[trigger] entries[j]).0@
}

/// With distinct keys, the map holds a name exactly when some entry does,
/// with that entry's address.
proof fn lemma_entries_map_index(entries: Seq<(String, Ipv4Address)>, i: int)
    requires
        distinct_keys(entries),
        0 <= i < entries.len(),
    ensures
        entries_map(entries).contains_key(entries[i].0@),
        entries_map(entries)[entries[i].0@] == entries[i].1,
    decreases entries.len(),
{
    if i == entries.len() - 1 {
    } else {
        assert(entries.drop_last()[i] == entries[i]);
        assert forall|a: int, b: int|
            0 <= a < b < entries.drop_last().len() implies (#[trigger] entries.drop_last()[a]).0@
            != (#[trigger] entries.drop_last()[b]).0@ by {
            assert(entries[a] == entries.drop_last()[a]);
            assert(entries[b] == entries.drop_last()[b]);
        }
        lemma_entries_map_index(entries.drop_last(), i);
        assert(entries[i].0@ != entries.last().0@);
    }
}

/// A name no entry holds is not in the map.
proof fn lemma_entries_map_absent(entries: Seq<(String, Ipv4Address)>, key: Seq<char>)
    requires
        forall|i: int| 0 <= i < entries.len() ==> (#[trigger] entries[i]).0@ != key,
    ensures
        !entries_map(entries).contains_key(key),
    decreases entries.len(),
{
    if entries.len() > 0 {
        assert forall|i: int| 0 <= i < entries.drop_last().len() implies (#[trigger] entries.drop_last()[i]).0@ != key by {
            assert(entries.drop_last()[i] == entries[i]);
        }
        lemma_entries_map_absent(entries.drop_last(), key);
        assert(entries.last().0@ != key);
    }
}

impl SimpleDnsDatabase {
    /// The entries, in insertion order.
    pub closed spec fn entries(&self) -> Seq<(String, Ipv4Address)> {
        self.records@
    }

    /// The keys are lowercased pairwise-distinct names.
    pub closed spec fn wf(&self) -> bool {
        distinct_keys(self.records@)
    }

    /// An empty table, then the fixed seed entries.
    pub fn new() -> (r: Self)
        ensures
            r.wf(),
            r@ == Map::<Seq<char>, Ipv4Address>::empty().insert(
                lower_of("localhost"@),
                Ipv4Address { o0: 127, o1: 0, o2: 0, o3: 1 },
            ).insert(lower_of("test.local"@), Ipv4Address { o0: 192, o1: 168, o2: 1, o3: 100 })
                .insert(lower_of("server.local"@), Ipv4Address { o0: 192, o1: 168, o2: 1, o3: 1 })
                .insert(lower_of("example.com"@), Ipv4Address { o0: 93, o1: 184, o2: 216, o3: 34 })
                .insert(lower_of("google.com"@), Ipv4Address { o0: 8, o1: 8, o2: 8, o3: 8 }),
    {
        let mut db = SimpleDnsDatabase { records: Vec::new() };
        proof {
            assert(db@ =~= Map::<Seq<char>, Ipv4Address>::empty());
        }
        db.add_record(String::from_str("localhost"), Ipv4Address { o0: 127, o1: 0, o2: 0, o3: 1 });
        db.add_record(
            String::from_str("test.local"),
            Ipv4Address { o0: 192, o1: 168, o2: 1, o3: 100 },
        );
        db.add_record(
            String::from_str("server.local"),
            Ipv4Address { o0: 192, o1: 168, o2: 1, o3: 1 },
        );
        db.add_record(
            String::from_str("example.com"),
            Ipv4Address { o0: 93, o1: 184, o2: 216, o3: 34 },
        );
        db.add_record(String::from_str("google.com"), Ipv4Address { o0: 8, o1: 8, o2: 8, o3: 8 });
        db
    }

    /// Adds or overwrites the entry for a name, stored lowercased.
    pub fn add_record(&mut self, name: String, ip: Ipv4Address)
        requires
            old(self).wf(),
        ensures
            final(self).wf(),
            final(self)@ == old(self)@.insert(lower_of(name@), ip),
    {
        let key = to_lowercase(name.as_str());
        let ghost entries0 = self.records@;
        let mut i: usize = 0;
        while i < self.records.len()
            invariant
                self.records@ == entries0,
                entries0 == old(self).records@,
                key@ == lower_of(name@),
                i <= entries0.len(),
                distinct_keys(entries0),
                forall|k: int| 0 <= k < i ==> (#[trigger] entries0[k]).0@ != key@,
            decreases entries0.len() - i,
        {
            if self.records[i].0 == key {
                self.records[i].1 = ip;
                proof {
                    lemma_update_entry(entries0, i as int, ip);
                    assert(self.records@ == entries0.update(
                        i as int,
                        (entries0[i as int].0, ip),
                    ));
                }
                return ;
            }
            i = i + 1;
        }
        self.records.push((key, ip));
        proof {
            assert(self.records@.drop_last() =~= entries0);
            assert forall|a: int, b: int|
                0 <= a < b < self.records@.len() implies (#[trigger] self.records@[a]).0@
                != (#[trigger] self.records@[b]).0@ by {
                if b < entries0.len() {
                    assert(self.records@[a] == entries0[a] && self.records@[b] == entries0[b]);
                } else {
                    assert(self.records@[a] == entries0[a]);
                    assert(self.records@[b].0@ == lower_of(name@));
                }
            }
        }
    }

    /// The address stored for a name, compared case-insensitively; nothing
    /// if the name is absent.
    pub fn lookup(&self, name: &str) -> (r: Option<Ipv4Address>)
        requires
            self.wf(),
        ensures
            r == if self@.contains_key(lower_of(name@)) {
                Some(self@[lower_of(name@)])
            } else {
                None::<Ipv4Address>
            },
    {
        let key = to_lowercase(name);
        let mut i: usize = 0;
        while i < self.records.len()
            invariant
                self.wf(),
                i <= self.records@.len(),
                key@ == lower_of(name@),
                forall|k: int| 0 <= k < i ==> (#[trigger] self.records@[k]).0@ != key@,
            decreases self.records@.len() - i,
        {
            if self.records[i].0 == key {
                proof {
                    lemma_entries_map_index(self.records@, i as int);
                }
                return Some(self.records[i].1);
            }
            i = i + 1;
        }
        proof {
            lemma_entries_map_absent(self.records@, key@);
        }
        None
    }

    /// Every entry, in insertion order, each name with its address.
    pub fn list_records(&self) -> (r: &Vec<(String, Ipv4Address)>)
        ensures
            r@ == self.entries(),
    {
        &self.records
    }
}

/// Overwriting one entry's address updates the map at that entry's name
/// and keeps the keys distinct.
proof fn lemma_update_entry(entries: Seq<(String, Ipv4Address)>, i: int, ip: Ipv4Address)
    requires
        distinct_keys(entries),
        0 <= i < entries.len(),
    ensures
        distinct_keys(entries.update(i, (entries[i].0, ip))),
        entries_map(entries.update(i, (entries[i].0, ip))) == entries_map(entries).insert(
            entries[i].0@,
            ip,
        ),
    decreases entries.len(),
{
    let updated = entries.update(i, (entries[i].0, ip));
    assert forall|a: int, b: int|
        0 <= a < b < updated.len() implies (#[trigger] updated[a]).0@ != (#[trigger] updated[b]).0@
        by {
        assert(updated[a].0@ == entries[a].0@ && updated[b].0@ == entries[b].0@);
    }
    if i == entries.len() - 1 {
        assert(updated.drop_last() =~= entries.drop_last());
        assert(entries_map(updated) =~= entries_map(entries).insert(entries[i].0@, ip));
    } else {
        assert(updated.drop_last() =~= entries.drop_last().update(i, (entries[i].0, ip)));
        assert(entries.drop_last()[i] == entries[i]);
        assert forall|a: int, b: int|
            0 <= a < b < entries.drop_last().len() implies (#[trigger] entries.drop_last()[a]).0@
            != (#[trigger] entries.drop_last()[b]).0@ by {
            assert(entries[a] == entries.drop_last()[a]);
            assert(entries[b] == entries.drop_last()[b]);
        }
        lemma_update_entry(entries.drop_last(), i, ip);
        assert(updated.last() == entries.last());
        assert(entries[i].0@ != entries.last().0@);
        assert(entries_map(updated) =~= entries_map(entries).insert(entries[i].0@, ip));
    }
}

} // verus!
