//! The widget cache: an explicit context object, owned by the host and
//! handed to every render pass, that maps `(widget kind, identity)` to the
//! instance constructed the first time that key was rendered.
//!
//! The cache guarantees at most one construction per key over its lifetime:
//! a hit returns the instance recorded before and changes nothing; a miss
//! records a fresh instance number. Keys are partitioned by widget kind, so
//! widgets of different kinds may share an identity without colliding.
//! Nothing is ever evicted: entries live as long as the cache does.

use vstd::prelude::*;

use crate::identity::Identity;

verus! {

/// One recorded construction.
pub struct CacheEntry {
    pub kind: u32,
    pub id: Identity,
    pub instance: u64,
}

/// What the specification sees of an entry.
pub struct EntryModel {
    pub kind: int,
    pub id: Seq<u8>,
    pub instance: int,
}

/// The first entry of `s[i..]` under the given key, if any.
pub open spec fn find_from(s: Seq<EntryModel>, i: int, kind: int, id: Seq<u8>) -> Option<int>
    decreases s.len() - i,
{
    if i < 0 || i >= s.len() {
        Option::None
    } else if s[i].kind == kind && s[i].id == id {
        Option::Some(s[i].instance)
    } else {
        find_from(s, i + 1, kind, id)
    }
}

/// The instance recorded under the given key, if any.
pub open spec fn cache_lookup(s: Seq<EntryModel>, kind: int, id: Seq<u8>) -> Option<int> {
    find_from(s, 0, kind, id)
}

/// Instances are the positions at which their entries were recorded: every
/// entry gets a fresh one.
pub open spec fn cache_wf(s: Seq<EntryModel>) -> bool {
    forall|i: int| 0 <= i < s.len() ==> #[trigger] s[i].instance == i
}

/// What `get_or_insert` does: a hit hands back the recorded instance and
/// changes nothing, a miss records the next instance number under the key.
pub open spec fn spec_get_or_insert(s: Seq<EntryModel>, kind: int, id: Seq<u8>) -> (
    int,
    bool,
    Seq<EntryModel>,
) {
    match cache_lookup(s, kind, id) {
        Option::Some(v) => (v, false, s),
        Option::None => (
            s.len() as int,
            true,
            s.push(EntryModel { kind, id, instance: s.len() as int }),
        ),
    }
}

/// `t` is `s` with entries recorded after it: nothing of `s` is touched.
pub open spec fn cache_extends(s: Seq<EntryModel>, t: Seq<EntryModel>) -> bool {
    s.len() <= t.len() && t.take(s.len() as int) == s
}

pub proof fn lemma_cache_extends_trans(a: Seq<EntryModel>, b: Seq<EntryModel>, c: Seq<EntryModel>)
    requires
        cache_extends(a, b),
        cache_extends(b, c),
    ensures
        cache_extends(a, c),
{
    assert(c.take(a.len() as int) =~= b.take(a.len() as int));
    assert(b.take(a.len() as int) =~= b.take(b.len() as int).take(a.len() as int));
    assert(b.take(b.len() as int) =~= b);
}

/// A key once recorded keeps its instance, however the cache grows.
pub proof fn lemma_lookup_stable(
    s: Seq<EntryModel>,
    t: Seq<EntryModel>,
    i: int,
    kind: int,
    id: Seq<u8>,
)
    requires
        cache_extends(s, t),
        0 <= i <= s.len(),
        find_from(s, i, kind, id) is Some,
    ensures
        find_from(t, i, kind, id) == find_from(s, i, kind, id),
    decreases s.len() - i,
{
    assert(t[i] == s[i]) by {
        assert(t.take(s.len() as int)[i] == t[i]);
    }
    if !(s[i].kind == kind && s[i].id == id) {
        lemma_lookup_stable(s, t, i + 1, kind, id);
    }
}

/// Recording a missing key makes it found, at the recorded instance.
pub proof fn lemma_lookup_after_insert(s: Seq<EntryModel>, i: int, kind: int, id: Seq<u8>)
    requires
        0 <= i <= s.len(),
        find_from(s, i, kind, id) is None,
    ensures
        find_from(s.push(EntryModel { kind, id, instance: s.len() as int }), i, kind, id)
            == Option::Some(s.len() as int),
    decreases s.len() - i,
{
    let e = EntryModel { kind, id, instance: s.len() as int };
    let t = s.push(e);
    if i < s.len() {
        assert(t[i] == s[i]);
        assert(!(s[i].kind == kind && s[i].id == id));
        lemma_lookup_after_insert(s, i + 1, kind, id);
    } else {
        assert(t[i] == e);
    }
}

/// Wherever a lookup finds an instance, an entry holds it.
proof fn lemma_find_from_witness(s: Seq<EntryModel>, i: int, kind: int, id: Seq<u8>)
    requires
        0 <= i <= s.len(),
        find_from(s, i, kind, id) is Some,
    ensures
        exists|j: int|
            i <= j < s.len() && #[trigger] s[j].kind == kind && s[j].id == id && s[j].instance
                == find_from(s, i, kind, id).unwrap(),
    decreases s.len() - i,
{
    if s[i].kind == kind && s[i].id == id {
    } else {
        lemma_find_from_witness(s, i + 1, kind, id);
    }
}

/// Distinct keys never share an instance: each key's widget is its own.
pub proof fn lemma_distinct_keys_distinct_instances(
    s: Seq<EntryModel>,
    kind1: int,
    id1: Seq<u8>,
    kind2: int,
    id2: Seq<u8>,
)
    requires
        cache_wf(s),
        kind1 != kind2 || id1 != id2,
        cache_lookup(s, kind1, id1) is Some,
        cache_lookup(s, kind2, id2) is Some,
    ensures
        cache_lookup(s, kind1, id1) != cache_lookup(s, kind2, id2),
{
    lemma_find_from_witness(s, 0, kind1, id1);
    lemma_find_from_witness(s, 0, kind2, id2);
    let j1 = choose|j: int|
        0 <= j < s.len() && #[trigger] s[j].kind == kind1 && s[j].id == id1 && s[j].instance
            == cache_lookup(s, kind1, id1).unwrap();
    let j2 = choose|j: int|
        0 <= j < s.len() && #[trigger] s[j].kind == kind2 && s[j].id == id2 && s[j].instance
            == cache_lookup(s, kind2, id2).unwrap();
    assert(s[j1].instance == j1);
    assert(s[j2].instance == j2);
    if j1 == j2 {
        assert(kind1 == kind2 && id1 == id2);
    }
}

/// Asking twice for the same key constructs once: the second call returns
/// the identical instance and leaves the cache exactly as it was.
pub proof fn lemma_get_or_insert_idempotent(s: Seq<EntryModel>, kind: int, id: Seq<u8>)
    ensures
        ({
            let (v1, fresh1, s1) = spec_get_or_insert(s, kind, id);
            let (v2, fresh2, s2) = spec_get_or_insert(s1, kind, id);
            v2 == v1 && !fresh2 && s2 == s1
        }),
{
    let (v1, fresh1, s1) = spec_get_or_insert(s, kind, id);
    match cache_lookup(s, kind, id) {
        Option::Some(_) => {},
        Option::None => {
            lemma_lookup_after_insert(s, 0, kind, id);
        },
    }
}

/// The long-lived table of constructed widget instances.
pub struct WidgetCache {
    pub entries: Vec<CacheEntry>,
}

impl View for WidgetCache {
    type V = Seq<EntryModel>;

    open spec fn view(&self) -> Seq<EntryModel> {
        self.entries@.map_values(
            |e: CacheEntry| EntryModel { kind: e.kind as int, id: e.id@, instance: e.instance as int },
        )
    }
}

impl WidgetCache {
    pub open spec fn wf(self) -> bool {
        cache_wf(self@)
    }

    /// An empty cache: nothing constructed yet.
    pub fn new() -> (c: WidgetCache)
        ensures
            c@ =~= Seq::<EntryModel>::empty(),
            c.wf(),
    {
        WidgetCache { entries: Vec::new() }
    }

    /// How many widget instances have been constructed so far.
    pub fn len(&self) -> (n: usize)
        ensures
            n == self@.len(),
    {
        self.entries.len()
    }

    /// The instance for `(kind, id)`: the recorded one on a hit, or a fresh
    /// one — reported by the `bool`, so the caller knows to run the
    /// constructor exactly then — recorded under the key on a miss.
    #[verifier::loop_isolation(false)]
    pub fn get_or_insert(&mut self, kind: u32, id: Identity) -> (r: (u64, bool))
        requires
            old(self).wf(),
        ensures
            final(self).wf(),
            ({
                let (v, fresh, s2) = spec_get_or_insert(old(self)@, kind as int, id@);
                r.0 as int == v && r.1 == fresh && final(self)@ =~= s2
            }),
    {
        let ghost s = self@;
        let mut i: usize = 0;
        while i < self.entries.len()
            invariant
                i <= s.len(),
                find_from(s, 0, kind as int, id@) == find_from(s, i as int, kind as int, id@),
            decreases s.len() - i,
        {
            let hit = self.entries[i].kind == kind && self.entries[i].id.same_as(&id);
            proof {
                assert(s[i as int] == EntryModel {
                    kind: self.entries@[i as int].kind as int,
                    id: self.entries@[i as int].id@,
                    instance: self.entries@[i as int].instance as int,
                });
            }
            if hit {
                return (self.entries[i].instance, false);
            }
            i += 1;
        }
        let instance = self.entries.len() as u64;
        let ghost e = EntryModel { kind: kind as int, id: id@, instance: s.len() as int };
        self.entries.push(CacheEntry { kind, id, instance });
        proof {
            assert(self@ =~= s.push(e));
        }
        (instance, true)
    }
}

} // verus!
