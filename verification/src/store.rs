//! The document store: an ordered collection of entries, newest at the
//! front, with lazy time-to-live expiry swept only as a side effect of the
//! operations that the contracts describe.

use vstd::prelude::*;
use crate::json::{Json, JsonValue};
use crate::matcher::{matches_pattern, spec_matches};

verus! {

/// One stored document: its bucket label, its JSON payload, and an optional
/// absolute expiry instant. `expiry` of `None` means the entry never
/// expires. Instants are plain numbers on a caller-supplied clock; every
/// operation that evaluates expiry takes the current instant `now` as an
/// argument.
pub struct DocumentEntry {
    pub bucket: String,
    pub data: JsonValue,
    pub expiry: Option<u64>,
}

/// The mathematical shape of one stored document.
pub struct EntryModel {
    pub bucket: Seq<char>,
    pub data: Json,
    pub expiry: Option<u64>,
}

/// An entry is logically dead once the current instant exceeds its expiry.
pub open spec fn expired(e: EntryModel, now: u64) -> bool {
    match e.expiry {
        Some(t) => now > t,
        None => false,
    }
}

/// The bucket label that query and delete treat as "all buckets".
pub open spec fn wildcard() -> Seq<char> {
    "*"@
}

/// Whether a query or delete scoped to bucket label `b` touches entry `e`.
pub open spec fn bucket_selects(b: Seq<char>, e: EntryModel) -> bool {
    b == wildcard() || e.bucket == b
}

/// The absolute expiry instant computed at insertion: `now` plus the ttl in
/// ticks, saturating at the largest representable instant.
pub open spec fn spec_expiry(ttl: Option<u64>, now: u64) -> Option<u64> {
    match ttl {
        Some(t) => if now + t > u64::MAX { Some(u64::MAX) } else { Some((now + t) as u64) },
        None => None,
    }
}

impl DocumentEntry {
    /// The mathematical value that this entry denotes.
    pub open spec fn dv(self) -> EntryModel {
        EntryModel { bucket: self.bucket@, data: self.data.dv(), expiry: self.expiry }
    }

    /// A fresh entry for `data` in `bucket`, its expiry computed once, now.
    pub fn new(bucket: &str, data: &JsonValue, ttl: Option<u64>, now: u64) -> (e: DocumentEntry)
        ensures
            e.dv() == (EntryModel {
                bucket: bucket@,
                data: data.dv(),
                expiry: spec_expiry(ttl, now),
            }),
    {
        let expiry = match ttl {
            Some(t) => Some(if t > u64::MAX - now { u64::MAX } else { now + t }),
            None => None,
        };
        DocumentEntry { bucket: bucket.to_owned(), data: data.deep_copy(), expiry }
    }

    /// Whether the entry is logically dead at instant `now`.
    pub fn is_expired(&self, now: u64) -> (r: bool)
        ensures
            r == expired(self.dv(), now),
    {
        match self.expiry {
            Some(t) => now > t,
            None => false,
        }
    }

    /// A structural copy of the entry, denoting the same model.
    pub fn duplicate(&self) -> (r: DocumentEntry)
        ensures
            r.dv() == self.dv(),
    {
        DocumentEntry {
            bucket: self.bucket.clone(),
            data: self.data.deep_copy(),
            expiry: self.expiry,
        }
    }
}

/// The models denoted by a vector of entries, in the same order.
pub open spec fn entries_dv(s: Seq<DocumentEntry>) -> Seq<EntryModel>
    decreases s.len(),
{
    if s.len() == 0 {
        Seq::empty()
    } else {
        entries_dv(s.drop_last()).push(s.last().dv())
    }
}

/// `entries_dv` maps the sequence pointwise.
pub broadcast proof fn lemma_entries_dv(s: Seq<DocumentEntry>)
    ensures
        (#[trigger] entries_dv(s)).len() == s.len(),
        forall|i: int| 0 <= i < s.len() ==> entries_dv(s)[i] == s[i].dv(),
    decreases s.len(),
{
    if s.len() > 0 {
        lemma_entries_dv(s.drop_last());
    }
}

/// The views of a vector of bucket labels, in the same order.
pub open spec fn str_views(s: Seq<String>) -> Seq<Seq<char>>
    decreases s.len(),
{
    if s.len() == 0 {
        Seq::empty()
    } else {
        str_views(s.drop_last()).push(s.last()@)
    }
}

/// `str_views` maps the sequence pointwise.
pub broadcast proof fn lemma_str_views(s: Seq<String>)
    ensures
        (#[trigger] str_views(s)).len() == s.len(),
        forall|i: int| 0 <= i < s.len() ==> str_views(s)[i] == s[i]@,
    decreases s.len(),
{
    if s.len() > 0 {
        lemma_str_views(s.drop_last());
    }
}

/// The distinct bucket labels of `s` in first-seen order, front to back.
pub open spec fn distinct_buckets(s: Seq<EntryModel>) -> Seq<Seq<char>>
    decreases s.len(),
{
    if s.len() == 0 {
        Seq::empty()
    } else {
        let rest = distinct_buckets(s.drop_last());
        if rest.contains(s.last().bucket) {
            rest
        } else {
            rest.push(s.last().bucket)
        }
    }
}

/// `s` with every entry removed that is expired at `now`.
pub open spec fn sweep(s: Seq<EntryModel>, now: u64) -> Seq<EntryModel>
    decreases s.len(),
{
    if s.len() == 0 {
        Seq::empty()
    } else {
        let rest = sweep(s.drop_last(), now);
        if expired(s.last(), now) {
            rest
        } else {
            rest.push(s.last())
        }
    }
}

/// `s` with every expired entry of bucket `b` removed; expired entries of
/// other buckets are left untouched.
pub open spec fn sweep_bucket(s: Seq<EntryModel>, b: Seq<char>, now: u64) -> Seq<EntryModel>
    decreases s.len(),
{
    if s.len() == 0 {
        Seq::empty()
    } else {
        let rest = sweep_bucket(s.drop_last(), b, now);
        if s.last().bucket == b && expired(s.last(), now) {
            rest
        } else {
            rest.push(s.last())
        }
    }
}

/// The entries of `s` whose bucket is `b`, in order.
pub open spec fn select_bucket(s: Seq<EntryModel>, b: Seq<char>) -> Seq<EntryModel>
    decreases s.len(),
{
    if s.len() == 0 {
        Seq::empty()
    } else {
        let rest = select_bucket(s.drop_last(), b);
        if s.last().bucket == b {
            rest.push(s.last())
        } else {
            rest
        }
    }
}

/// The entries of `s` that a query for `b` and `pat` returns: the bucket is
/// selected and the data matches the pattern.
pub open spec fn select_match(s: Seq<EntryModel>, b: Seq<char>, pat: Json) -> Seq<EntryModel>
    decreases s.len(),
{
    if s.len() == 0 {
        Seq::empty()
    } else {
        let rest = select_match(s.drop_last(), b, pat);
        if bucket_selects(b, s.last()) && spec_matches(s.last().data, pat) {
            rest.push(s.last())
        } else {
            rest
        }
    }
}

/// What a delete for `b` and `pat` leaves behind: entries that are neither
/// expired nor both bucket-selected and matching.
pub open spec fn delete_result(s: Seq<EntryModel>, b: Seq<char>, pat: Json, now: u64) -> Seq<
    EntryModel,
>
    decreases s.len(),
{
    if s.len() == 0 {
        Seq::empty()
    } else {
        let rest = delete_result(s.drop_last(), b, pat, now);
        if expired(s.last(), now) || (bucket_selects(b, s.last()) && spec_matches(
            s.last().data,
            pat,
        )) {
            rest
        } else {
            rest.push(s.last())
        }
    }
}

/// `s` with every entry of bucket `b` removed, expired or not.
pub open spec fn drop_bucket(s: Seq<EntryModel>, b: Seq<char>) -> Seq<EntryModel>
    decreases s.len(),
{
    if s.len() == 0 {
        Seq::empty()
    } else {
        let rest = drop_bucket(s.drop_last(), b);
        if s.last().bucket == b {
            rest
        } else {
            rest.push(s.last())
        }
    }
}

/// The bucketed document collection: an ordered sequence of entries, newest
/// inserted at the front. Its view is the sequence of entry models.
///
/// Every operation takes the store exclusively (`&mut self` or `&self`), so
/// a caller that shares it across tasks serializes the operations behind a
/// single lock; each operation then acts at one instant `now` of the
/// caller's clock.
pub struct Database {
    entries: Vec<DocumentEntry>,
}

impl View for Database {
    type V = Seq<EntryModel>;

    closed spec fn view(&self) -> Seq<EntryModel> {
        entries_dv(self.entries@)
    }
}

/// Whether the exec label `b` is the query wildcard.
fn is_wildcard(b: &str) -> (r: bool)
    ensures
        r == (b@ == wildcard()),
{
    proof {
        reveal_strlit("*");
    }
    if b.unicode_len() == 1 {
        let c = b.get_char(0);
        let r = c == '*';
        proof {
            if r {
                assert(b@ =~= "*"@);
            }
        }
        r
    } else {
        false
    }
}

impl Database {
    /// An empty store.
    pub fn new() -> (db: Database)
        ensures
            db@ == Seq::<EntryModel>::empty(),
    {
        Database { entries: Vec::new() }
    }

    /// Creates an entry for `data` in `bucket` with the given ttl and pushes
    /// it to the front; nothing else changes, and nothing is swept.
    #[verifier::loop_isolation(false)]
    pub fn insert(&mut self, bucket: &str, json_data: &JsonValue, ttl: Option<u64>, now: u64)
        ensures
            final(self)@ == seq![
                EntryModel {
                    bucket: bucket@,
                    data: json_data.dv(),
                    expiry: spec_expiry(ttl, now),
                },
            ] + old(self)@,
    {
        broadcast use lemma_entries_dv;

        let e = DocumentEntry::new(bucket, json_data, ttl, now);
        let ghost m = e.dv();
        let ghost before = self.entries@;
        self.entries.insert(0, e);
        proof {
            assert(entries_dv(self.entries@) =~= seq![m] + entries_dv(before));
        }
    }

    /// The distinct bucket labels, front to back, each at its first
    /// occurrence; no sweep side effect.
    #[verifier::loop_isolation(false)]
    pub fn get_all_buckets(&self) -> (r: Vec<String>)
        ensures
            str_views(r@) == distinct_buckets(self@),
    {
        broadcast use lemma_entries_dv, lemma_str_views;

        let ghost gs = self@;
        let mut result: Vec<String> = Vec::new();
        let mut i: usize = 0;
        while i < self.entries.len()
            invariant
                0 <= i <= self.entries.len(),
                gs == self@,
                str_views(result@) == distinct_buckets(gs.take(i as int)),
            decreases self.entries.len() - i,
        {
            proof {
                assert(gs.take(i + 1).drop_last() =~= gs.take(i as int));
                assert(gs.take(i + 1).last() == gs[i as int]);
                assert(gs[i as int] == self.entries@[i as int].dv());
            }
            let b = &self.entries[i].bucket;
            if !contains_string(&result, b) {
                let ghost before = result@;
                result.push(b.clone());
                proof {
                    assert(result@.drop_last() =~= before);
                    assert(str_views(result@) =~= str_views(before).push(b@));
                }
            }
            i += 1;
        }
        proof {
            assert(gs.take(gs.len() as int) =~= gs);
        }
        result
    }

    /// Removes every expired entry of `bucket` (entries of other buckets are
    /// untouched, expired or not), then returns the remaining entries of
    /// `bucket`, front to back.
    #[verifier::loop_isolation(false)]
    pub fn get_bucket(&mut self, bucket: &str, now: u64) -> (r: Vec<DocumentEntry>)
        ensures
            final(self)@ == sweep_bucket(old(self)@, bucket@, now),
            entries_dv(r@) == select_bucket(final(self)@, bucket@),
    {
        broadcast use lemma_entries_dv;

        let ghost gs = self@;
        let mut kept: Vec<DocumentEntry> = Vec::new();
        let mut i: usize = 0;
        while i < self.entries.len()
            invariant
                0 <= i <= self.entries.len(),
                gs == self@,
                entries_dv(kept@) == sweep_bucket(gs.take(i as int), bucket@, now),
            decreases self.entries.len() - i,
        {
            proof {
                assert(gs.take(i + 1).drop_last() =~= gs.take(i as int));
                assert(gs.take(i + 1).last() == gs[i as int]);
                assert(gs[i as int] == self.entries@[i as int].dv());
            }
            let e = &self.entries[i];
            let drop_it = str_eq(&e.bucket, bucket) && e.is_expired(now);
            if !drop_it {
                let ghost before = kept@;
                kept.push(e.duplicate());
                proof {
                    assert(kept@.drop_last() =~= before);
                    assert(entries_dv(kept@) =~= entries_dv(before).push(gs[i as int]));
                }
            }
            i += 1;
        }
        proof {
            assert(gs.take(gs.len() as int) =~= gs);
        }
        self.entries = kept;

        let ghost gk = self@;
        let mut r: Vec<DocumentEntry> = Vec::new();
        let mut j: usize = 0;
        while j < self.entries.len()
            invariant
                0 <= j <= self.entries.len(),
                gk == self@,
                entries_dv(r@) == select_bucket(gk.take(j as int), bucket@),
            decreases self.entries.len() - j,
        {
            proof {
                assert(gk.take(j + 1).drop_last() =~= gk.take(j as int));
                assert(gk.take(j + 1).last() == gk[j as int]);
                assert(gk[j as int] == self.entries@[j as int].dv());
            }
            let e = &self.entries[j];
            if str_eq(&e.bucket, bucket) {
                let ghost before = r@;
                r.push(e.duplicate());
                proof {
                    assert(r@.drop_last() =~= before);
                    assert(entries_dv(r@) =~= entries_dv(before).push(gk[j as int]));
                }
            }
            j += 1;
        }
        proof {
            assert(gk.take(gk.len() as int) =~= gk);
        }
        r
    }

    /// Removes every expired entry store-wide, then returns the entries
    /// whose bucket is selected by `bucket` (the wildcard selects all) and
    /// whose data matches `pattern`, front to back.
    #[verifier::loop_isolation(false)]
    pub fn get(&mut self, bucket: &str, pattern: &JsonValue, now: u64) -> (r: Vec<DocumentEntry>)
        ensures
            final(self)@ == sweep(old(self)@, now),
            entries_dv(r@) == select_match(final(self)@, bucket@, pattern.dv()),
    {
        broadcast use lemma_entries_dv;

        let ghost gs = self@;
        let mut kept: Vec<DocumentEntry> = Vec::new();
        let mut i: usize = 0;
        while i < self.entries.len()
            invariant
                0 <= i <= self.entries.len(),
                gs == self@,
                entries_dv(kept@) == sweep(gs.take(i as int), now),
            decreases self.entries.len() - i,
        {
            proof {
                assert(gs.take(i + 1).drop_last() =~= gs.take(i as int));
                assert(gs.take(i + 1).last() == gs[i as int]);
                assert(gs[i as int] == self.entries@[i as int].dv());
            }
            let e = &self.entries[i];
            if !e.is_expired(now) {
                let ghost before = kept@;
                kept.push(e.duplicate());
                proof {
                    assert(kept@.drop_last() =~= before);
                    assert(entries_dv(kept@) =~= entries_dv(before).push(gs[i as int]));
                }
            }
            i += 1;
        }
        proof {
            assert(gs.take(gs.len() as int) =~= gs);
        }
        self.entries = kept;

        let wild = is_wildcard(bucket);
        let ghost gk = self@;
        let mut r: Vec<DocumentEntry> = Vec::new();
        let mut j: usize = 0;
        while j < self.entries.len()
            invariant
                0 <= j <= self.entries.len(),
                gk == self@,
                wild == (bucket@ == wildcard()),
                entries_dv(r@) == select_match(gk.take(j as int), bucket@, pattern.dv()),
            decreases self.entries.len() - j,
        {
            proof {
                assert(gk.take(j + 1).drop_last() =~= gk.take(j as int));
                assert(gk.take(j + 1).last() == gk[j as int]);
                assert(gk[j as int] == self.entries@[j as int].dv());
            }
            let e = &self.entries[j];
            let selected = (wild || str_eq(&e.bucket, bucket)) && matches_pattern(
                &e.data,
                pattern,
            );
            if selected {
                let ghost before = r@;
                r.push(e.duplicate());
                proof {
                    assert(r@.drop_last() =~= before);
                    assert(entries_dv(r@) =~= entries_dv(before).push(gk[j as int]));
                }
            }
            j += 1;
        }
        proof {
            assert(gk.take(gk.len() as int) =~= gk);
        }
        r
    }

    /// Drops, store-wide, every entry that is expired or that both lies in
    /// the selected bucket (the wildcard selects all) and matches `pattern`;
    /// every other entry is retained in order.
    #[verifier::loop_isolation(false)]
    pub fn delete(&mut self, bucket: &str, pattern: &JsonValue, now: u64)
        ensures
            final(self)@ == delete_result(old(self)@, bucket@, pattern.dv(), now),
    {
        broadcast use lemma_entries_dv;

        let wild = is_wildcard(bucket);
        let ghost gs = self@;
        let mut kept: Vec<DocumentEntry> = Vec::new();
        let mut i: usize = 0;
        while i < self.entries.len()
            invariant
                0 <= i <= self.entries.len(),
                gs == self@,
                wild == (bucket@ == wildcard()),
                entries_dv(kept@) == delete_result(gs.take(i as int), bucket@, pattern.dv(), now),
            decreases self.entries.len() - i,
        {
            proof {
                assert(gs.take(i + 1).drop_last() =~= gs.take(i as int));
                assert(gs.take(i + 1).last() == gs[i as int]);
                assert(gs[i as int] == self.entries@[i as int].dv());
            }
            let e = &self.entries[i];
            let dead = e.is_expired(now) || ((wild || str_eq(&e.bucket, bucket))
                && matches_pattern(&e.data, pattern));
            if !dead {
                let ghost before = kept@;
                kept.push(e.duplicate());
                proof {
                    assert(kept@.drop_last() =~= before);
                    assert(entries_dv(kept@) =~= entries_dv(before).push(gs[i as int]));
                }
            }
            i += 1;
        }
        proof {
            assert(gs.take(gs.len() as int) =~= gs);
        }
        self.entries = kept;
    }

    /// Unconditionally drops every entry of `bucket`, expired or not.
    #[verifier::loop_isolation(false)]
    pub fn delete_bucket(&mut self, bucket: &str)
        ensures
            final(self)@ == drop_bucket(old(self)@, bucket@),
    {
        broadcast use lemma_entries_dv;

        let ghost gs = self@;
        let mut kept: Vec<DocumentEntry> = Vec::new();
        let mut i: usize = 0;
        while i < self.entries.len()
            invariant
                0 <= i <= self.entries.len(),
                gs == self@,
                entries_dv(kept@) == drop_bucket(gs.take(i as int), bucket@),
            decreases self.entries.len() - i,
        {
            proof {
                assert(gs.take(i + 1).drop_last() =~= gs.take(i as int));
                assert(gs.take(i + 1).last() == gs[i as int]);
                assert(gs[i as int] == self.entries@[i as int].dv());
            }
            let e = &self.entries[i];
            if !str_eq(&e.bucket, bucket) {
                let ghost before = kept@;
                kept.push(e.duplicate());
                proof {
                    assert(kept@.drop_last() =~= before);
                    assert(entries_dv(kept@) =~= entries_dv(before).push(gs[i as int]));
                }
            }
            i += 1;
        }
        proof {
            assert(gs.take(gs.len() as int) =~= gs);
        }
        self.entries = kept;
    }
}

/// Whether the label `a` equals the label `b`, character by character.
#[verifier::loop_isolation(false)]
pub(crate) fn str_eq(a: &String, b: &str) -> (r: bool)
    ensures
        r == (a@ == b@),
{
    let la = a.as_str().unicode_len();
    let lb = b.unicode_len();
    if la != lb {
        return false;
    }
    let mut i: usize = 0;
    while i < la
        invariant
            0 <= i <= la,
            la == a@.len() == b@.len(),
            forall|j: int| 0 <= j < i ==> a@[j] == b@[j],
        decreases la - i,
    {
        if a.as_str().get_char(i) != b.get_char(i) {
            return false;
        }
        i += 1;
    }
    proof {
        assert(a@ =~= b@);
    }
    true
}

/// Whether `v` holds a label equal to `s`.
#[verifier::loop_isolation(false)]
fn contains_string(v: &Vec<String>, s: &String) -> (r: bool)
    ensures
        r == str_views(v@).contains(s@),
{
    broadcast use lemma_str_views;

    let mut i: usize = 0;
    while i < v.len()
        invariant
            0 <= i <= v.len(),
            forall|j: int| 0 <= j < i ==> str_views(v@)[j] != s@,
        decreases v.len() - i,
    {
        proof {
            assert(str_views(v@)[i as int] == v@[i as int]@);
        }
        if v[i] == *s {
            assert(str_views(v@).contains(s@));
            return true;
        }
        i += 1;
    }
    proof {
        assert(!str_views(v@).contains(s@)) by {
            if str_views(v@).contains(s@) {
                let j = choose|j: int|
                    0 <= j < str_views(v@).len() && str_views(v@)[j] == s@;
                assert(str_views(v@)[j] != s@);
            }
        }
    }
    false
}

} // verus!
