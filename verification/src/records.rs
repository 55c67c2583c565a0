use vstd::prelude::*;
use crate::ip::{IpAddress, render_ip, render_ip_chars};

verus! {

/// The kind of managed record: A for IPv4, AAAA for IPv6.
#[derive(Clone, Copy, PartialEq, Eq, Structural, Debug)]
pub enum RecordKind {
    A,
    Aaaa,
}

/// The record kind an address of this family lives in.
pub open spec fn kind_for(ip: IpAddress) -> RecordKind {
    match ip {
        IpAddress::V4(_) => RecordKind::A,
        IpAddress::V6(_) => RecordKind::Aaaa,
    }
}

pub fn record_kind_for(ip: &IpAddress) -> (k: RecordKind)
    ensures
        k == kind_for(*ip),
{
    match ip {
        IpAddress::V4(_) => RecordKind::A,
        IpAddress::V6(_) => RecordKind::Aaaa,
    }
}

/// The provider's view of one existing record, as far as this system reads
/// it; provider metadata beyond these fields is not interpreted.
pub struct DnsRecord {
    pub id: String,
    pub name: String,
    pub kind: RecordKind,
    pub content: String,
    pub ttl: u32,
}

impl Clone for DnsRecord {
    fn clone(&self) -> (r: Self)
        ensures
            r == *self,
    {
        DnsRecord {
            id: self.id.clone(),
            name: self.name.clone(),
            kind: self.kind,
            content: self.content.clone(),
            ttl: self.ttl,
        }
    }
}

/// The write-side payload of a create or update call.
pub struct RecordUpdateRequest {
    pub kind: RecordKind,
    pub name: String,
    pub content: String,
    pub ttl: u32,
    pub proxied: bool,
}

/// Builds the payload for pointing `full_name` at `ip`: the record kind
/// follows the address family, the content is the address text, and
/// proxying is always disabled.
pub fn generate_dns_record(ip: &IpAddress, full_name: String, ttl: u32) -> (r: RecordUpdateRequest)
    ensures
        r.kind == kind_for(*ip),
        r.name == full_name,
        r.content@ == render_ip_chars(*ip),
        r.ttl == ttl,
        r.proxied == false,
{
    RecordUpdateRequest {
        kind: record_kind_for(ip),
        name: full_name,
        content: render_ip(ip),
        ttl: ttl,
        proxied: false,
    }
}

/// One zone as the provider lists it: its registered name and identifier.
pub struct ZoneEntry {
    pub name: String,
    pub id: String,
}

/// The provider error that this logic itself decides: the zone for the
/// target domain does not exist at the provider at all, which no retry can
/// fix.
#[derive(Debug)]
pub enum DnsApiError {
    MissingDomain { domain: String },
}

/// The identifier of the first listed zone whose registered name exactly
/// equals `domain`.
pub open spec fn zone_id_spec(zones: Seq<ZoneEntry>, domain: Seq<char>) -> Option<Seq<char>>
    decreases zones.len(),
{
    if zones.len() == 0 {
        None
    } else if zones[0].name@ == domain {
        Some(zones[0].id@)
    } else {
        zone_id_spec(zones.drop_first(), domain)
    }
}

/// Finds the zone owning `domain` among the zones the provider listed: only
/// an exact name match counts. A missing zone is unrecoverable here — the
/// domain is not registered with the provider.
pub fn find_zone_id(zones: &Vec<ZoneEntry>, domain: &String) -> (r: Result<String, DnsApiError>)
    ensures
        match r {
            Ok(id) => zone_id_spec(zones@, domain@) == Some(id@),
            Err(e) => {
                &&& zone_id_spec(zones@, domain@) is None
                &&& (e matches DnsApiError::MissingDomain { domain: d } && d@ == domain@)
            },
        },
{
    let mut i: usize = 0;
    proof {
        assert(zones@.skip(0) =~= zones@);
    }
    while i < zones.len()
        invariant
            i <= zones@.len(),
            zone_id_spec(zones@, domain@) == zone_id_spec(zones@.skip(i as int), domain@),
        decreases zones@.len() - i,
    {
        proof {
            assert(zones@.skip(i as int)[0] == zones@[i as int]);
            assert(zones@.skip(i as int).drop_first() =~= zones@.skip(i as int + 1));
        }
        if zones[i].name == *domain {
            return Ok(zones[i].id.clone());
        }
        i = i + 1;
    }
    proof {
        assert(zones@.skip(zones@.len() as int).len() == 0);
    }
    Err((DnsApiError::MissingDomain { domain: domain.clone() }))
}

/// The records whose name is exactly `full_name`, in listed order.
pub open spec fn filter_by_name_spec(records: Seq<DnsRecord>, full_name: Seq<char>) -> Seq<
    DnsRecord,
>
    decreases records.len(),
{
    if records.len() == 0 {
        Seq::empty()
    } else {
        let rest = filter_by_name_spec(records.drop_last(), full_name);
        if records.last().name@ == full_name {
            rest.push(records.last())
        } else {
            rest
        }
    }
}

/// Selects the records for one fully-qualified name out of everything the
/// provider listed for the zone; an empty result is valid, not an error.
pub fn filter_records_by_name(records: &Vec<DnsRecord>, full_name: &String) -> (r: Vec<DnsRecord>)
    ensures
        r@ == filter_by_name_spec(records@, full_name@),
{
    let mut out: Vec<DnsRecord> = Vec::new();
    let mut i: usize = 0;
    proof {
        assert(records@.take(0) =~= Seq::<DnsRecord>::empty());
    }
    while i < records.len()
        invariant
            i <= records@.len(),
            out@ == filter_by_name_spec(records@.take(i as int), full_name@),
        decreases records@.len() - i,
    {
        proof {
            assert(records@.take(i as int + 1).drop_last() =~= records@.take(i as int));
            assert(records@.take(i as int + 1).last() == records@[i as int]);
        }
        if records[i].name == *full_name {
            out.push(records[i].clone());
        }
        i = i + 1;
    }
    proof {
        assert(records@.take(records@.len() as int) =~= records@);
    }
    out
}

/// The cache of record identifiers: (fully-qualified name, record kind) →
/// the provider's identifier. Entries are never removed; a later write for
/// the same pair wins.
pub struct RecordCache {
    entries: Vec<(String, RecordKind, String)>,
}

/// The map denoted by cache entries, later entries overriding earlier ones.
pub open spec fn entries_map(s: Seq<(String, RecordKind, String)>) -> Map<
    (Seq<char>, RecordKind),
    Seq<char>,
>
    decreases s.len(),
{
    if s.len() == 0 {
        Map::empty()
    } else {
        entries_map(s.drop_last()).insert((s.last().0@, s.last().1), s.last().2@)
    }
}

impl View for RecordCache {
    type V = Map<(Seq<char>, RecordKind), Seq<char>>;

    closed spec fn view(&self) -> Map<(Seq<char>, RecordKind), Seq<char>> {
        entries_map(self.entries@)
    }
}

impl RecordCache {
    /// The empty cache, before the startup inventory scan.
    pub fn new() -> (c: RecordCache)
        ensures
            c@ == Map::<(Seq<char>, RecordKind), Seq<char>>::empty(),
    {
        RecordCache { entries: Vec::new() }
    }

    /// The cached identifier for (name, kind), if any.
    pub fn get(&self, name: &String, kind: RecordKind) -> (r: Option<&String>)
        ensures
            match r {
                Some(id) => self@.contains_key((name@, kind)) && id@ == self@[(name@, kind)],
                None => !self@.contains_key((name@, kind)),
            },
    {
        let ghost key = (name@, kind);
        let mut i: usize = self.entries.len();
        proof {
            assert(self.entries@.take(self.entries@.len() as int) =~= self.entries@);
        }
        while i > 0
            invariant
                i <= self.entries@.len(),
                key == (name@, kind),
                self@ == entries_map(self.entries@),
                entries_map(self.entries@).contains_key(key) == entries_map(
                    self.entries@.take(i as int),
                ).contains_key(key),
                entries_map(self.entries@).contains_key(key) ==> entries_map(self.entries@)[key]
                    == entries_map(self.entries@.take(i as int))[key],
            decreases i,
        {
            proof {
                assert(self.entries@.take(i as int).drop_last() =~= self.entries@.take(
                    i as int - 1,
                ));
                assert(self.entries@.take(i as int).last() == self.entries@[i as int - 1]);
            }
            let ghost e = self.entries@[i as int - 1];
            let ghost sub = self.entries@.take(i as int);
            proof {
                assert(entries_map(sub) == entries_map(self.entries@.take(i as int - 1)).insert(
                    (e.0@, e.1),
                    e.2@,
                ));
            }
            let entry = &self.entries[i - 1];
            proof {
                assert(*entry == e);
            }
            if entry.0 == *name && record_kind_eq(entry.1, kind) {
                proof {
                    assert((e.0@, e.1) == key);
                    assert(entries_map(sub).contains_key(key));
                    assert(entries_map(sub)[key] == e.2@);
                }
                return Some(&entry.2);
            }
            proof {
                assert(e.0@ != name@ || e.1 != kind);
                assert((e.0@, e.1) != key);
                assert(entries_map(sub).contains_key(key) == entries_map(
                    self.entries@.take(i as int - 1),
                ).contains_key(key));
            }
            i = i - 1;
        }
        proof {
            assert(self.entries@.take(0) =~= Seq::<(String, RecordKind, String)>::empty());
        }
        None
    }

    /// Caches `id` under (name, kind), displacing any earlier identifier.
    pub fn insert(&mut self, name: String, kind: RecordKind, id: String)
        ensures
            final(self)@ == old(self)@.insert((name@, kind), id@),
    {
        let ghost before = self.entries@;
        self.entries.push((name, kind, id));
        proof {
            assert(self.entries@.drop_last() =~= before);
        }
    }
}

fn record_kind_eq(a: RecordKind, b: RecordKind) -> (r: bool)
    ensures
        r == (a == b),
{
    match (a, b) {
        (RecordKind::A, RecordKind::A) => true,
        (RecordKind::Aaaa, RecordKind::Aaaa) => true,
        _ => false,
    }
}

/// What the reconciler must do for one (name, kind): update the record the
/// cache already knows, or create a fresh one.
pub enum WriteAction {
    UpdateExisting(String),
    CreateNew,
}

/// Chooses between update and create for one (name, kind) pair from what
/// the cache knows.
pub fn plan_write(cache: &RecordCache, name: &String, kind: RecordKind) -> (a: WriteAction)
    ensures
        match a {
            WriteAction::UpdateExisting(id) => cache@.contains_key((name@, kind)) && id@
                == cache@[(name@, kind)],
            WriteAction::CreateNew => !cache@.contains_key((name@, kind)),
        },
{
    match cache.get(name, kind) {
        Some(id) => WriteAction::UpdateExisting(id.clone()),
        None => WriteAction::CreateNew,
    }
}

/// How the provider answered one planned write.
pub enum WriteOutcome {
    /// The update call went through; the payload is the provider's own
    /// success flag, which callers must check.
    Updated(bool),
    /// The update call failed outright (transport or malformed response).
    UpdateFailed,
    /// The create call succeeded, returning the new record's identifier.
    Created(String),
    /// The create call failed, or the provider reported logical failure.
    CreateFailed,
}

/// Whether one write's outcome counts as success for the cycle.
pub open spec fn outcome_success(o: WriteOutcome) -> bool {
    match o {
        WriteOutcome::Updated(flag) => flag,
        WriteOutcome::Created(_) => true,
        _ => false,
    }
}

/// The cache after one write's outcome: only a successful create changes
/// it, adding the fresh identifier under (name, kind).
pub open spec fn cache_after_outcome(
    m: Map<(Seq<char>, RecordKind), Seq<char>>,
    name: Seq<char>,
    kind: RecordKind,
    o: WriteOutcome,
) -> Map<(Seq<char>, RecordKind), Seq<char>> {
    match o {
        WriteOutcome::Created(id) => m.insert((name, kind), id@),
        _ => m,
    }
}

/// Folds one write's outcome into the cache. A failed create leaves the
/// cache untouched, so the next cycle attempts the create again.
pub fn apply_write_outcome(
    cache: &mut RecordCache,
    name: &String,
    kind: RecordKind,
    outcome: WriteOutcome,
) -> (success: bool)
    ensures
        success == outcome_success(outcome),
        final(cache)@ == cache_after_outcome(old(cache)@, name@, kind, outcome),
{
    match outcome {
        WriteOutcome::Updated(flag) => flag,
        WriteOutcome::UpdateFailed => false,
        WriteOutcome::Created(id) => {
            cache.insert(name.clone(), kind, id);
            true
        },
        WriteOutcome::CreateFailed => false,
    }
}

/// Law (cache idempotence): once a create for (name, kind) has succeeded
/// and been folded in, the cache holds the created identifier for that
/// pair, so the next plan for the same pair — with no intervening change —
/// is an update of that identifier, never a second create; and since
/// updates leave the cache unchanged, so is every later plan.
pub proof fn lemma_update_then_not_create(
    m: Map<(Seq<char>, RecordKind), Seq<char>>,
    name: Seq<char>,
    kind: RecordKind,
    id: String,
)
    ensures
        cache_after_outcome(m, name, kind, WriteOutcome::Created(id)).contains_key((name, kind)),
        cache_after_outcome(m, name, kind, WriteOutcome::Created(id))[(name, kind)] == id@,
        forall|o: WriteOutcome|
            !(o is Created) ==> #[trigger] cache_after_outcome(m, name, kind, o) == m,
{
}

/// The cache after folding in the records listed for `full_name` at
/// startup, in listed order.
pub open spec fn populate_spec(
    m: Map<(Seq<char>, RecordKind), Seq<char>>,
    full_name: Seq<char>,
    records: Seq<DnsRecord>,
) -> Map<(Seq<char>, RecordKind), Seq<char>>
    decreases records.len(),
{
    if records.len() == 0 {
        m
    } else {
        populate_spec(m, full_name, records.drop_last()).insert(
            (full_name, records.last().kind),
            records.last().id@,
        )
    }
}

/// Startup population for one managed name: every record the provider
/// listed for it — possibly both an A and an AAAA — is cached under
/// (name, kind) → identifier.
pub fn populate_cache(cache: &mut RecordCache, full_name: &String, records: &Vec<DnsRecord>)
    ensures
        final(cache)@ == populate_spec(old(cache)@, full_name@, records@),
{
    let mut i: usize = 0;
    proof {
        assert(records@.take(0) =~= Seq::<DnsRecord>::empty());
    }
    while i < records.len()
        invariant
            i <= records@.len(),
            cache@ == populate_spec(old(cache)@, full_name@, records@.take(i as int)),
        decreases records@.len() - i,
    {
        proof {
            assert(records@.take(i as int + 1).drop_last() =~= records@.take(i as int));
            assert(records@.take(i as int + 1).last() == records@[i as int]);
        }
        cache.insert(full_name.clone(), records[i].kind, records[i].id.clone());
        i = i + 1;
    }
    proof {
        assert(records@.take(records@.len() as int) =~= records@);
    }
}

} // verus!
