//! The torrents of a session: each has a number, and no two have the same digest.

use vstd::prelude::*;

use crate::assoc::{under, Table};
use crate::meta::hash::{Id20, Id32};
use crate::meta::hex::hex_text;
use crate::meta::metainfo::{FileDetails, MetaVersion};
use crate::peer::responder::KnownInfoHash;

verus! {

/// What is known of a torrent from its metadata.
#[derive(Debug)]
pub struct TorrentFacts {
    pub private: bool,
    pub name: String,
    pub single_file_mode: bool,
    pub files: Vec<FileDetails>,
    /// The digests that it is announced under.
    pub announced: Vec<Id20>,
}

/// Where a torrent is stored: a directory, and one of the torrent's own inside it or none.
#[derive(Debug)]
pub struct RootDir {
    pub base: String,
    pub subfolder: Option<String>,
}

/// A torrent of the session.
#[derive(Debug)]
pub struct ManagedTorrent {
    pub id: usize,
    pub info_hash: Id20,
    pub info_hash_v2: Option<Id32>,
    pub meta_version: Option<MetaVersion>,
    pub advertise_v2: bool,
    pub create_subfolder: bool,
    pub root_dir: RootDir,
    pub p2p_proxy_is_task_override: bool,
    pub metadata: Option<TorrentFacts>,
}

/// A torrent by its number or by its digest.
#[derive(Debug, Clone, Copy)]
pub enum TorrentIdOrHash {
    Id(usize),
    Hash(Id20),
}

/// The torrents of a session, and the numbers that are taken.
#[verifier::ext_equal]
pub struct RegistryModel {
    pub torrents: Map<usize, ManagedTorrent>,
    pub by_hash: Map<Id20, usize>,
    pub next_id: int,
}

/// What claiming a digest comes to.
#[derive(Debug, Clone, Copy, PartialEq, Eq, Structural)]
pub enum Claim {
    /// The digest is claimed under a new number.
    Reserved(usize),
    /// A torrent with this digest is managed already.
    AlreadyManaged(usize),
    /// Another torrent with this digest is being added.
    Busy,
}

#[derive(Debug)]
pub struct Registry {
    torrents: Table<usize, ManagedTorrent>,
    by_hash: Table<Id20, usize>,
    next_id: usize,
}

impl View for Registry {
    type V = RegistryModel;

    closed spec fn view(&self) -> RegistryModel {
        RegistryModel {
            torrents: self.torrents@,
            by_hash: self.by_hash@,
            next_id: self.next_id as int,
        }
    }
}

/// True of the registries that come about: every torrent stands under its own number and under
/// its digest, and no number is taken twice.
pub open spec fn sound(m: RegistryModel) -> bool {
    &&& forall|id: usize| #[trigger]
        m.torrents.contains_key(id) ==> m.torrents[id].id == id && under(
            m.by_hash,
            m.torrents[id].info_hash,
        ) == Some(id)
    &&& forall|h: Id20| #[trigger] m.by_hash.contains_key(h) ==> m.by_hash[h] < m.next_id
    &&& forall|g: Id20, h: Id20|
        m.by_hash.contains_key(g) && m.by_hash.contains_key(h) && #[trigger] m.by_hash[g]
            == #[trigger] m.by_hash[h] ==> g == h
}

/// The torrent that is meant.
pub open spec fn found(m: RegistryModel, which: TorrentIdOrHash) -> Option<ManagedTorrent> {
    match which {
        TorrentIdOrHash::Id(id) => under(m.torrents, id),
        TorrentIdOrHash::Hash(h) => match under(m.by_hash, h) {
            Some(id) => under(m.torrents, id),
            None => None,
        },
    }
}

/// What claiming a digest comes to.
pub open spec fn claim_of(m: RegistryModel, h: Id20) -> Claim {
    match under(m.by_hash, h) {
        Some(id) => if m.torrents.contains_key(id) {
            Claim::AlreadyManaged(id)
        } else {
            Claim::Busy
        },
        None => Claim::Reserved(m.next_id as usize),
    }
}

/// The registry with a digest claimed.
pub open spec fn claimed(m: RegistryModel, h: Id20) -> RegistryModel {
    if m.by_hash.contains_key(h) {
        m
    } else {
        RegistryModel {
            by_hash: m.by_hash.insert(h, m.next_id as usize),
            next_id: m.next_id + 1,
            ..m
        }
    }
}

/// The registry with a claim given up.
pub open spec fn released(m: RegistryModel, h: Id20, id: usize) -> RegistryModel {
    if under(m.by_hash, h) == Some(id) {
        RegistryModel { by_hash: m.by_hash.remove(h), ..m }
    } else {
        m
    }
}

/// The registry with a torrent under its number.
pub open spec fn committed(m: RegistryModel, t: ManagedTorrent) -> RegistryModel {
    RegistryModel { torrents: m.torrents.insert(t.id, t), ..m }
}

/// The registry without a torrent.
pub open spec fn removed(m: RegistryModel, id: usize, h: Id20) -> RegistryModel {
    RegistryModel { torrents: m.torrents.remove(id), by_hash: m.by_hash.remove(h), ..m }
}

/// What a torrent is greeted with.
pub open spec fn greeting(t: ManagedTorrent) -> KnownInfoHash {
    KnownInfoHash {
        info_hash: t.info_hash,
        advertise_v2: t.advertise_v2,
        advertise_dht: t.metadata matches Some(f) ==> !f.private,
    }
}

/// True when `r` names every torrent once, with its digest in digits.
pub open spec fn lists_torrents(r: Seq<(usize, String)>, m: RegistryModel) -> bool {
    exists|ids: Seq<usize>|
        #![trigger ids.len()]
        {
            &&& ids.no_duplicates()
            &&& forall|id: usize| #[trigger] ids.contains(id) <==> m.torrents.contains_key(id)
            &&& r.len() == ids.len()
            &&& forall|i: int|
                0 <= i < r.len() ==> (#[trigger] r[i]).0 == ids[i] && r[i].1@ == hex_text(
                    m.torrents[ids[i]].info_hash@,
                )
        }
}

impl Registry {
    pub fn new() -> (r: Self)
        ensures
            r@ == (RegistryModel { torrents: Map::empty(), by_hash: Map::empty(), next_id: 1 }),
            sound(r@),
    {
        Registry { torrents: Table::new(), by_hash: Table::new(), next_id: 1 }
    }

    pub fn get(&self, which: TorrentIdOrHash) -> (r: Option<&ManagedTorrent>)
        ensures
            match found(self@, which) {
                Some(t) => r == Some(&t),
                None => r is None,
            },
    {
        match which {
            TorrentIdOrHash::Id(id) => self.torrents.get(&id),
            TorrentIdOrHash::Hash(h) => match self.by_hash.get(&h) {
                Some(id) => self.torrents.get(id),
                None => None,
            },
        }
    }

    /// What claiming a digest would come to.
    pub fn lookup(&self, h: &Id20) -> (r: Claim)
        ensures
            r == claim_of(self@, *h),
    {
        match self.by_hash.get(h) {
            Some(id) => if self.torrents.contains_key(id) {
                Claim::AlreadyManaged(*id)
            } else {
                Claim::Busy
            },
            None => Claim::Reserved(self.next_id),
        }
    }

    /// Claim a digest, so that no second torrent with it can be added meanwhile.
    pub fn claim(&mut self, h: Id20) -> (r: Claim)
        requires
            old(self)@.next_id < usize::MAX,
        ensures
            r == claim_of(old(self)@, h),
            final(self)@ == claimed(old(self)@, h),
    {
        let r = self.lookup(&h);
        if let Claim::Reserved(id) = r {
            self.by_hash.insert(h, id);
            self.next_id = id + 1;
        }
        r
    }

    /// Give a claim up, so that the torrent can be added again.
    pub fn release(&mut self, h: &Id20, id: usize)
        ensures
            final(self)@ == released(old(self)@, *h, id),
    {
        let held = match self.by_hash.get(h) {
            Some(x) => *x == id,
            None => false,
        };
        if held {
            self.by_hash.remove(h);
        }
    }

    /// Put a torrent under the number that was reserved for it.
    pub fn commit(&mut self, torrent: ManagedTorrent)
        ensures
            final(self)@ == committed(old(self)@, torrent),
    {
        let id: usize = torrent.id;
        self.torrents.insert(id, torrent);
    }

    /// Forget a torrent.
    pub fn remove(&mut self, id: usize, h: &Id20)
        ensures
            final(self)@ == removed(old(self)@, id, *h),
    {
        self.torrents.remove(&id);
        self.by_hash.remove(h);
    }

    /// The numbers of all torrents, each once.
    pub fn ids(&self) -> (r: Vec<usize>)
        ensures
            forall|id: usize| #[trigger] r@.contains(id) <==> self@.torrents.contains_key(id),
            r@.no_duplicates(),
    {
        self.torrents.keys()
    }

    /// Every torrent with its digest in digits.
    pub fn list(&self) -> (r: Vec<(usize, String)>)
        ensures
            lists_torrents(r@, self@),
    {
        let ids = self.ids();
        let mut out: Vec<(usize, String)> = Vec::new();
        let mut i: usize = 0;
        while i < ids.len()
            invariant
                i <= ids.len(),
                forall|id: usize| #[trigger] ids@.contains(id) <==> self@.torrents.contains_key(id),
                out.len() == i,
                forall|j: int|
                    0 <= j < i ==> (#[trigger] out@[j]).0 == ids@[j] && out@[j].1@ == hex_text(
                        self@.torrents[ids@[j]].info_hash@,
                    ),
            decreases ids.len() - i,
        {
            assert(ids@.contains(ids@[i as int]));
            if let Some(t) = self.torrents.get(&ids[i]) {
                out.push((ids[i], t.info_hash.to_hex()));
            }
            i += 1;
        }
        assert(ids@.len() == ids.len());
        out
    }

    /// What each torrent is greeted with: one greeting for every torrent.
    pub fn known_infohashes(&self) -> (r: Vec<KnownInfoHash>)
        ensures
            exists|ids: Seq<usize>|
                #![trigger ids.len()]
                {
                    &&& ids.no_duplicates()
                    &&& forall|id: usize| #[trigger]
                        ids.contains(id) <==> self@.torrents.contains_key(id)
                    &&& r@ == Seq::new(ids.len(), |i: int| greeting(self@.torrents[ids[i]]))
                },
    {
        let ids = self.ids();
        let mut out: Vec<KnownInfoHash> = Vec::new();
        let mut i: usize = 0;
        let ghost all = Seq::new(ids@.len(), |i: int| greeting(self@.torrents[ids@[i]]));
        while i < ids.len()
            invariant
                i <= ids.len(),
                forall|id: usize| #[trigger] ids@.contains(id) <==> self@.torrents.contains_key(id),
                all == Seq::new(ids@.len(), |i: int| greeting(self@.torrents[ids@[i]])),
                out@ == all.take(i as int),
            decreases ids.len() - i,
        {
            assert(ids@.contains(ids@[i as int]));
            if let Some(t) = self.torrents.get(&ids[i]) {
                let advertise_dht = match &t.metadata {
                    Some(f) => !f.private,
                    None => true,
                };
                out.push(
                    KnownInfoHash {
                        info_hash: t.info_hash,
                        advertise_v2: t.advertise_v2,
                        advertise_dht,
                    },
                );
            }
            assert(out@ =~= all.take(i + 1));
            i += 1;
        }
        assert(all.take(i as int) =~= all);
        assert(ids@.len() == ids.len());
        out
    }
}

/// No two torrents have the same digest.
pub proof fn one_torrent_per_digest(m: RegistryModel, a: usize, b: usize)
    requires
        sound(m),
        m.torrents.contains_key(a),
        m.torrents.contains_key(b),
        m.torrents[a].info_hash == m.torrents[b].info_hash,
    ensures
        a == b,
{
}

/// While a digest is claimed, it cannot be claimed again; once the claim is given up, it can, and
/// everything is as before but for the number, which is never used again.
pub proof fn claims_are_exclusive(m: RegistryModel, h: Id20)
    requires
        sound(m),
        !m.by_hash.contains_key(h),
        0 <= m.next_id < usize::MAX,
    ensures
        claim_of(m, h) == Claim::Reserved(m.next_id as usize),
        !m.torrents.contains_key(m.next_id as usize),
        claim_of(claimed(m, h), h) is Busy,
        released(claimed(m, h), h, m.next_id as usize) == (RegistryModel {
            next_id: m.next_id + 1,
            ..m
        }),
{
    let c = claimed(m, h);
    let id = m.next_id as usize;
    if m.torrents.contains_key(id) {
        assert(m.by_hash.contains_key(m.torrents[id].info_hash));
    }
    assert(released(c, h, id).by_hash =~= m.by_hash);
}

/// A torrent that is committed under its claim is found by its number and by its digest.
pub proof fn committed_torrents_are_found(m: RegistryModel, t: ManagedTorrent)
    requires
        sound(m),
        under(m.by_hash, t.info_hash) == Some(t.id),
    ensures
        found(committed(m, t), TorrentIdOrHash::Id(t.id)) == Some(t),
        found(committed(m, t), TorrentIdOrHash::Hash(t.info_hash)) == Some(t),
        claim_of(committed(m, t), t.info_hash) == Claim::AlreadyManaged(t.id),
{
}

/// Claiming, giving up, committing and removing keep a registry sound.
pub proof fn registries_stay_sound(m: RegistryModel, h: Id20, id: usize, t: ManagedTorrent)
    requires
        sound(m),
        0 <= m.next_id < usize::MAX,
    ensures
        sound(claimed(m, h)),
        claim_of(m, h) is Busy ==> sound(released(m, h, id)),
        under(m.by_hash, t.info_hash) == Some(t.id) ==> sound(committed(m, t)),
        m.torrents.contains_key(id) ==> sound(removed(m, id, m.torrents[id].info_hash)),
{
    let c = claimed(m, h);
    assert(sound(c)) by {
        assert forall|x: usize| #[trigger] c.torrents.contains_key(x) implies c.torrents[x].id == x
            && under(c.by_hash, c.torrents[x].info_hash) == Some(x) by {
            assert(m.torrents.contains_key(x));
        }
        assert forall|g: Id20| #[trigger] c.by_hash.contains_key(g) implies c.by_hash[g]
            < c.next_id by {
            if g != h {
                assert(m.by_hash.contains_key(g));
            }
        }
        assert forall|f: Id20, g: Id20|
            c.by_hash.contains_key(f) && c.by_hash.contains_key(g) && #[trigger] c.by_hash[f]
                == #[trigger] c.by_hash[g] implies f == g by {
            if f != h {
                assert(m.by_hash.contains_key(f));
            }
            if g != h {
                assert(m.by_hash.contains_key(g));
            }
        }
    }
    if claim_of(m, h) is Busy {
        let r = released(m, h, id);
        assert forall|x: usize| #[trigger] r.torrents.contains_key(x) implies r.torrents[x].id == x
            && under(r.by_hash, r.torrents[x].info_hash) == Some(x) by {
            assert(m.torrents.contains_key(x));
        }
        assert(sound(r));
    }
    if under(m.by_hash, t.info_hash) == Some(t.id) {
        let r = committed(m, t);
        assert forall|x: usize| #[trigger] r.torrents.contains_key(x) implies r.torrents[x].id == x
            && under(r.by_hash, r.torrents[x].info_hash) == Some(x) by {
            if x != t.id {
                assert(m.torrents.contains_key(x));
            }
        }
        assert(sound(r));
    }
    if m.torrents.contains_key(id) {
        let h2 = m.torrents[id].info_hash;
        let r = removed(m, id, h2);
        assert forall|x: usize| #[trigger] r.torrents.contains_key(x) implies r.torrents[x].id == x
            && under(r.by_hash, r.torrents[x].info_hash) == Some(x) by {
            assert(m.torrents.contains_key(x));
        }
        assert(sound(r));
    }
}

/// A torrent is greeted with its own digest. It is told of the overlay unless it is known to be
/// private, and of the newer kind of metadata exactly where it advertises it.
pub proof fn how_a_torrent_is_greeted(t: ManagedTorrent)
    ensures
        greeting(t).info_hash == t.info_hash,
        greeting(t).advertise_v2 == t.advertise_v2,
        greeting(t).advertise_dht <==> t.metadata is None || !t.metadata->0.private,
{
}

/// A digest leads to the torrent that was committed under its claim, and to no other; claiming one
/// digest leaves every other as it was.
pub proof fn digests_lead_to_torrents(m: RegistryModel, h: Id20, g: Id20, id: usize)
    requires
        sound(m),
        0 <= m.next_id < usize::MAX,
    ensures
        m.torrents.contains_key(id) ==> found(
            m,
            TorrentIdOrHash::Hash(m.torrents[id].info_hash),
        ) == Some(m.torrents[id]),
        found(m, TorrentIdOrHash::Id(id)) == (if m.torrents.contains_key(id) {
            Some(m.torrents[id])
        } else {
            None
        }),
        g != h ==> claim_of(claimed(m, h), g) is AlreadyManaged == claim_of(m, g) is AlreadyManaged,
        g != h ==> claim_of(claimed(m, h), g) is Busy == claim_of(m, g) is Busy,
        claimed(m, h).torrents == m.torrents,
        claim_of(m, h) is Reserved <==> !m.by_hash.contains_key(h),
        claim_of(m, h) matches Claim::AlreadyManaged(n) ==> m.torrents.contains_key(n)
            && m.by_hash[h] == n,
        claim_of(m, h) matches Claim::Reserved(n) ==> !m.torrents.contains_key(n) && n
            == m.next_id,
{
    if claim_of(m, h) is Reserved {
        claims_are_exclusive(m, h);
    }
}

} // verus!
