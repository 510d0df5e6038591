//! The stop catalog (stops known by id) and the syntax of stop references in
//! route definitions (`"01009"`, or `"01009*"` for a stop the route passes
//! through without serving).
use vstd::prelude::*;
use crate::text::{chars_of, string_from_chars};

verus! {

/// A stop as the layout sees it: its id and display name. Its geographic
/// position is kept by the caller under the same catalog slot.
pub struct StopRecord {
    pub id: String,
    pub name: String,
}

/// Stops keyed by id; no id occurs twice (see `wf`). A later stop with an id
/// already present replaces the earlier one in its slot.
pub struct StopCatalog {
    pub records: Vec<StopRecord>,
}

impl StopCatalog {
    /// No id occurs twice.
    pub open spec fn wf(&self) -> bool {
        forall|i: int, j: int|
            0 <= i < j < self.records@.len() ==> #[trigger] self.records@[i].id@
                != #[trigger] self.records@[j].id@
    }

    /// The id stored in slot `i`.
    pub open spec fn id_at(&self, i: int) -> Seq<char> {
        self.records@[i].id@
    }

    /// Some slot holds `id`.
    pub open spec fn contains_id(&self, id: Seq<char>) -> bool {
        exists|i: int| 0 <= i < self.records@.len() && #[trigger] self.id_at(i) == id
    }

    /// The slot that holds `id`, if any.
    pub open spec fn lookup(&self, id: Seq<char>) -> Option<int> {
        if self.contains_id(id) {
            Some(choose|i: int| 0 <= i < self.records@.len() && #[trigger] self.id_at(i) == id)
        } else {
            None
        }
    }

    /// With unique ids, `lookup` names the one slot that holds `id`.
    pub proof fn lemma_lookup_slot(&self, id: Seq<char>, i: int)
        requires
            self.wf(),
            0 <= i < self.records@.len(),
            self.id_at(i) == id,
        ensures
            self.lookup(id) == Some(i),
    {
        assert(self.contains_id(id));
        let k = choose|k: int| 0 <= k < self.records@.len() && #[trigger] self.id_at(k) == id;
        if k != i {
            if k < i {
                assert(self.records@[k].id@ != self.records@[i].id@);
            } else {
                assert(self.records@[i].id@ != self.records@[k].id@);
            }
        }
    }

    /// An empty catalog.
    pub fn new() -> (c: StopCatalog)
        ensures
            c.wf(),
            c.records@.len() == 0,
    {
        StopCatalog { records: Vec::new() }
    }

    /// The number of stops.
    pub fn len(&self) -> (n: usize)
        ensures
            n == self.records@.len(),
    {
        self.records.len()
    }

    /// The slot holding `id`, if any.
    pub fn find(&self, id: &String) -> (slot: Option<usize>)
        requires
            self.wf(),
        ensures
            match slot {
                Some(k) => self.lookup(id@) == Some(k as int),
                None => self.lookup(id@) is None,
            },
    {
        let n = self.records.len();
        let mut i: usize = 0;
        while i < n
            invariant
                self.wf(),
                n == self.records@.len(),
                i <= n,
                forall|k: int| 0 <= k < i ==> #[trigger] self.id_at(k) != id@,
            decreases n - i,
        {
            if self.records[i].id == *id {
                proof {
                    self.lemma_lookup_slot(id@, i as int);
                }
                return Some(i);
            }
            i = i + 1;
        }
        None
    }

    /// Adds `record`; a stop already stored under the same id is replaced in
    /// its slot. Returns the slot now holding `record`.
    pub fn insert(&mut self, record: StopRecord) -> (slot: usize)
        requires
            old(self).wf(),
        ensures
            final(self).wf(),
            old(self).lookup(record.id@) matches Some(k) ==> slot == k && final(self).records@
                == old(self).records@.update(k, record),
            old(self).lookup(record.id@) is None ==> slot == old(self).records@.len()
                && final(self).records@ == old(self).records@.push(record),
    {
        let found = self.find(&record.id);
        match found {
            Some(k) => {
                let ghost before = self.records@;
                self.records.set(k, record);
                proof {
                    assert forall|i: int, j: int|
                        0 <= i < j < self.records@.len() implies #[trigger] self.records@[i].id@
                        != #[trigger] self.records@[j].id@ by {
                        assert(before[i].id@ != before[j].id@);
                        if i == k as int || j == k as int {
                            assert(before[k as int].id@ == self.records@[k as int].id@);
                        }
                    }
                }
                k
            },
            None => {
                let n = self.records.len();
                let ghost before = self.records@;
                self.records.push(record);
                proof {
                    assert forall|i: int, j: int|
                        0 <= i < j < self.records@.len() implies #[trigger] self.records@[i].id@
                        != #[trigger] self.records@[j].id@ by {
                        if j == n as int {
                            assert(self.records@[i] == before[i]);
                            assert(before[i].id@ == old(self).id_at(i));
                            if before[i].id@ == self.records@[j].id@ {
                                assert(old(self).contains_id(record.id@));
                            }
                        } else {
                            assert(before[i].id@ != before[j].id@);
                        }
                    }
                }
                n
            },
        }
    }
}

/// After an insert, the catalog maps the inserted id to the returned slot and
/// holds the inserted record there; every other id keeps its slot and record.
pub proof fn law_insert_then_lookup(
    before: StopCatalog,
    after: StopCatalog,
    record: StopRecord,
    slot: usize,
    other: Seq<char>,
)
    requires
        before.wf(),
        after.wf(),
        before.lookup(record.id@) matches Some(k) ==> slot == k && after.records@
            == before.records@.update(k, record),
        before.lookup(record.id@) is None ==> slot == before.records@.len()
            && after.records@ == before.records@.push(record),
        other != record.id@,
    ensures
        after.lookup(record.id@) == Some(slot as int),
        after.records@[slot as int] == record,
        after.lookup(other) == before.lookup(other),
{
    assert(after.id_at(slot as int) == record.id@);
    after.lemma_lookup_slot(record.id@, slot as int);
    if before.contains_id(other) {
        let k = choose|k: int| 0 <= k < before.records@.len() && #[trigger] before.id_at(k) == other;
        before.lemma_lookup_slot(other, k);
        assert(after.id_at(k) == other);
        after.lemma_lookup_slot(other, k);
    } else {
        if after.contains_id(other) {
            let k = choose|k: int| 0 <= k < after.records@.len() && #[trigger] after.id_at(k) == other;
            if k < before.records@.len() {
                assert(before.id_at(k) == other);
            }
        }
    }
}

// ---------------------------------------------------------------------------
// Stop references
// ---------------------------------------------------------------------------

/// The id named by a stop reference: the reference without its trailing `*`s.
pub open spec fn trim_stars(s: Seq<char>) -> Seq<char>
    decreases s.len(),
{
    if s.len() > 0 && s.last() == '*' {
        trim_stars(s.drop_last())
    } else {
        s
    }
}

/// A reference ending in `*` marks a stop the route passes without serving.
pub open spec fn ends_with_star(s: Seq<char>) -> bool {
    s.len() > 0 && s.last() == '*'
}

/// A parsed stop reference.
pub struct StopRef {
    pub id: String,
    pub passthrough: bool,
}

/// Splits a stop reference into the stop id and the pass-through mark.
pub fn parse_stop_ref(raw: &str) -> (r: StopRef)
    ensures
        r.id@ == trim_stars(raw@),
        r.passthrough == ends_with_star(raw@),
{
    let mut chars = chars_of(raw);
    let passthrough = chars.len() > 0 && chars[chars.len() - 1] == '*';
    while chars.len() > 0 && chars[chars.len() - 1] == '*'
        invariant
            trim_stars(chars@) == trim_stars(raw@),
        decreases chars.len(),
    {
        let ghost before = chars@;
        chars.pop();
        assert(chars@ =~= before.drop_last());
    }
    let id = string_from_chars(&chars);
    StopRef { id, passthrough }
}

/// A trimmed id ends in no `*`, and the reference is the id followed by `*`s
/// only.
pub proof fn law_trim_stars(s: Seq<char>)
    ensures
        !ends_with_star(trim_stars(s)),
        trim_stars(s).len() <= s.len(),
        s.take(trim_stars(s).len() as int) == trim_stars(s),
        forall|i: int| trim_stars(s).len() <= i < s.len() ==> #[trigger] s[i] == '*',
        trim_stars(trim_stars(s)) == trim_stars(s),
    decreases s.len(),
{
    if s.len() > 0 && s.last() == '*' {
        law_trim_stars(s.drop_last());
        let t = trim_stars(s.drop_last());
        assert(s.take(t.len() as int) =~= s.drop_last().take(t.len() as int));
        assert forall|i: int| t.len() <= i < s.len() implies #[trigger] s[i] == '*' by {
            if i < s.len() - 1 {
                assert(s[i] == s.drop_last()[i]);
            }
        }
    } else {
        assert(s.take(s.len() as int) =~= s);
    }
}

} // verus!
