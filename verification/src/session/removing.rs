//! How torrents are removed, with what was stored of them or without.

use vstd::prelude::*;

use crate::meta::hash::Id20;
use crate::meta::metainfo::info::joined_path;
use crate::meta::metainfo::{unsafe_name, FileDetails, MetaModel};
use crate::net::literal::{parts_of, split_parts};
use crate::session::adding::{add_step, AddStep, AddTorrentOptions, TorrentPlan};
use crate::session::registry::{
    found, removed, ManagedTorrent, RegistryModel, TorrentFacts, TorrentIdOrHash,
};
use crate::session::{Session, SessionModel};
use crate::text::{chars_views, first_char, from_chars, text_views, to_chars};

verus! {

/// Something that is deleted: where it lies below the directory of the torrent, and whether it is
/// a directory with everything in it.
#[derive(Debug)]
pub struct Deletion {
    pub path: Vec<String>,
    pub whole_directory: bool,
}

/// The mathematical value of a [`Deletion`].
#[verifier::ext_equal]
pub struct DeletionModel {
    pub path: Seq<Seq<char>>,
    pub whole_directory: bool,
}

impl View for Deletion {
    type V = DeletionModel;

    open spec fn view(&self) -> DeletionModel {
        DeletionModel { path: text_views(self.path@), whole_directory: self.whole_directory }
    }
}

/// The mathematical values of deletions.
pub open spec fn deletion_views(v: Seq<Deletion>) -> Seq<DeletionModel> {
    Seq::new(v.len(), |i: int| v[i]@)
}

/// True of the components that lead nowhere but down.
pub open spec fn leads_down(s: Seq<char>) -> bool {
    s.len() > 0 && s != "."@ && s != ".."@
}

/// True when every component leads down.
pub open spec fn all_lead_down(parts: Seq<Seq<char>>) -> bool {
    forall|i: int| 0 <= i < parts.len() ==> leads_down(#[trigger] parts[i])
}

/// The files that are deleted one by one; a path that does not lead down is passed over.
pub open spec fn file_deletions(files: Seq<FileDetails>) -> Seq<DeletionModel>
    decreases files.len(),
{
    if files.len() == 0 {
        seq![]
    } else {
        let front = file_deletions(files.drop_last());
        let parts = parts_of(files.last().filename@, '/');
        if all_lead_down(parts) {
            front.push(DeletionModel { path: parts, whole_directory: false })
        } else {
            front
        }
    }
}

/// What is deleted with a torrent: its one file, its own directory, or else its files one by one,
/// so that no directory is removed that is not its own.
pub open spec fn deletions_of(create_subfolder: bool, f: TorrentFacts) -> Seq<DeletionModel> {
    if f.single_file_mode && f.name@.len() > 0 {
        seq![DeletionModel { path: seq![f.name@], whole_directory: false }]
    } else if !f.single_file_mode && create_subfolder && f.name@.len() > 0 {
        seq![DeletionModel { path: seq![], whole_directory: true }]
    } else {
        file_deletions(f.files@)
    }
}

fn part_leads_down(c: &Vec<char>) -> (r: bool)
    ensures
        r == leads_down(c@),
{
    if c.len() == 0 {
        return false;
    }
    let s = from_chars(c.as_slice());
    !crate::text::same_text(s.as_str(), ".") && !crate::text::same_text(s.as_str(), "..")
}

fn path_below(filename: &String) -> (r: Option<Vec<String>>)
    ensures
        match r {
            Some(p) => all_lead_down(parts_of(filename@, '/')) && text_views(p@) == parts_of(
                filename@,
                '/',
            ),
            None => !all_lead_down(parts_of(filename@, '/')),
        },
{
    let c = to_chars(filename.as_str());
    let parts = split_parts(c.as_slice(), '/');
    let ghost all = chars_views(parts@);
    let mut out: Vec<String> = Vec::new();
    let mut i: usize = 0;
    assert(text_views(out@) =~= all.take(0));
    while i < parts.len()
        invariant
            i <= parts.len(),
            all == chars_views(parts@),
            all == parts_of(filename@, '/'),
            text_views(out@) == all.take(i as int),
            forall|j: int| 0 <= j < i ==> leads_down(#[trigger] all[j]),
        decreases parts.len() - i,
    {
        assert(all[i as int] == parts@[i as int]@);
        if !part_leads_down(&parts[i]) {
            assert(!leads_down(all[i as int]));
            return None;
        }
        let ghost before = out@;
        let s = from_chars(parts[i].as_slice());
        let ghost text = s@;
        out.push(s);
        assert(text_views(out@) =~= text_views(before).push(text));
        assert(all.take(i + 1) =~= all.take(i as int).push(all[i as int]));
        i += 1;
    }
    assert(all.take(i as int) =~= all);
    Some(out)
}

fn list_file_deletions(files: &Vec<FileDetails>) -> (r: Vec<Deletion>)
    ensures
        deletion_views(r@) == file_deletions(files@),
{
    let mut out: Vec<Deletion> = Vec::new();
    let mut i: usize = 0;
    assert(files@.take(0) =~= seq![]);
    assert(deletion_views(out@) =~= seq![]);
    while i < files.len()
        invariant
            i <= files.len(),
            deletion_views(out@) == file_deletions(files@.take(i as int)),
        decreases files.len() - i,
    {
        assert(files@.take(i + 1).drop_last() =~= files@.take(i as int));
        if let Some(path) = path_below(&files[i].filename) {
            let ghost before = out@;
            let d = Deletion { path, whole_directory: false };
            let ghost model = d@;
            out.push(d);
            assert(deletion_views(out@) =~= deletion_views(before).push(model));
        }
        i += 1;
    }
    assert(files@.take(i as int) =~= files@);
    out
}

/// What is deleted with a torrent; nothing is known of it where its metadata is missing.
pub fn deletions(t: &ManagedTorrent, with_files: bool) -> (r: Option<Vec<Deletion>>)
    ensures
        match (with_files, t.metadata) {
            (true, Some(f)) => r matches Some(v) && deletion_views(v@) == deletions_of(
                t.create_subfolder,
                f,
            ),
            _ => r is None,
        },
{
    if !with_files {
        return None;
    }
    let f = match &t.metadata {
        Some(f) => f,
        None => {
            return None;
        },
    };
    let unnamed = crate::proxy::is_empty(f.name.as_str());
    if f.single_file_mode && !unnamed {
        let mut path: Vec<String> = Vec::new();
        path.push(f.name.as_str().to_string());
        assert(text_views(path@) =~= seq![f.name@]);
        let mut out: Vec<Deletion> = Vec::new();
        out.push(Deletion { path, whole_directory: false });
        assert(deletion_views(out@) =~= deletions_of(t.create_subfolder, *f));
        return Some(out);
    }
    if !f.single_file_mode && t.create_subfolder && !unnamed {
        let path: Vec<String> = Vec::new();
        assert(text_views(path@) =~= seq![]);
        let mut out: Vec<Deletion> = Vec::new();
        out.push(Deletion { path, whole_directory: true });
        assert(deletion_views(out@) =~= deletions_of(t.create_subfolder, *f));
        return Some(out);
    }
    Some(list_file_deletions(&f.files))
}

/// What follows once a torrent was removed.
#[derive(Debug)]
pub struct RemoveFollowUp {
    /// The digests that the overlay need no longer keep to itself.
    pub public_hashes: Vec<Id20>,
    /// What is no longer announced on the local network.
    pub forget_locally: Option<Id20>,
}

fn copy_ids(v: &Vec<Id20>) -> (r: Vec<Id20>)
    ensures
        r@ == v@,
{
    let mut out: Vec<Id20> = Vec::new();
    let mut i: usize = 0;
    while i < v.len()
        invariant
            i <= v.len(),
            out@ == v@.take(i as int),
        decreases v.len() - i,
    {
        out.push(v[i]);
        assert(out@ =~= v@.take(i + 1));
        i += 1;
    }
    assert(v@.take(i as int) =~= v@);
    out
}

/// True when `r` is what follows once a torrent was removed.
pub open spec fn follows_removal(r: RemoveFollowUp, t: ManagedTorrent, dht: Option<u64>) -> bool {
    match t.metadata {
        Some(f) => if f.private {
            &&& r.public_hashes@ == (if dht is Some {
                f.announced@
            } else {
                seq![]
            })
            &&& r.forget_locally is None
        } else {
            r.public_hashes@.len() == 0 && r.forget_locally == Some(t.info_hash)
        },
        None => r.public_hashes@.len() == 0 && r.forget_locally == Some(t.info_hash),
    }
}

impl Session {
    /// Forget a torrent that has been stopped.
    pub fn delete(&mut self, which: TorrentIdOrHash) -> (r: Option<RemoveFollowUp>)
        ensures
            match found(old(self)@.registry, which) {
                Some(t) => {
                    &&& final(self)@ == (SessionModel {
                        registry: removed(old(self)@.registry, t.id, t.info_hash),
                        ..old(self)@
                    })
                    &&& r matches Some(f)
                    &&& follows_removal(f, t, old(self)@.dht)
                },
                None => final(self)@ == old(self)@ && r is None,
            },
    {
        let (id, h, follow) = match self.registry.get(which) {
            None => {
                return None;
            },
            Some(t) => {
                let follow = match &t.metadata {
                    Some(f) => if f.private {
                        let public_hashes = if self.dht.is_some() {
                            copy_ids(&f.announced)
                        } else {
                            Vec::new()
                        };
                        RemoveFollowUp { public_hashes, forget_locally: None }
                    } else {
                        RemoveFollowUp {
                            public_hashes: Vec::new(),
                            forget_locally: Some(t.info_hash),
                        }
                    },
                    None => RemoveFollowUp {
                        public_hashes: Vec::new(),
                        forget_locally: Some(t.info_hash),
                    },
                };
                (t.id, t.info_hash, follow)
            },
        };
        self.registry.remove(id, &h);
        Some(follow)
    }
}

/// Whatever the metadata says, deleting a torrent never leads out of its directory, and a whole
/// directory is removed only where it is the torrent's own.
pub proof fn deletions_stay_inside(create_subfolder: bool, f: TorrentFacts, i: int)
    requires
        !unsafe_name(f.name@),
        0 <= i < deletions_of(create_subfolder, f).len(),
    ensures
        all_lead_down(deletions_of(create_subfolder, f)[i].path),
        deletions_of(create_subfolder, f)[i].whole_directory ==> create_subfolder
            && !f.single_file_mode,
        !deletions_of(create_subfolder, f)[i].whole_directory ==> deletions_of(
            create_subfolder,
            f,
        )[i].path.len() > 0,
{
    let d = deletions_of(create_subfolder, f);
    if f.single_file_mode {
        assert(d[0].path[0] == f.name@);
    } else if !create_subfolder {
        lemma_files_lead_down(f.files@, i);
    }
}

proof fn lemma_files_lead_down(files: Seq<FileDetails>, i: int)
    requires
        0 <= i < file_deletions(files).len(),
    ensures
        all_lead_down(file_deletions(files)[i].path),
        !file_deletions(files)[i].whole_directory,
        file_deletions(files)[i].path.len() > 0,
    decreases files.len(),
{
    let front = file_deletions(files.drop_last());
    if i < front.len() {
        lemma_files_lead_down(files.drop_last(), i);
    } else {
        lemma_some_parts(files.last().filename@);
    }
}

proof fn lemma_some_parts(s: Seq<char>)
    ensures
        parts_of(s, '/').len() > 0,
{
}

proof fn lemma_file_deletions(files: Seq<FileDetails>)
    ensures
        forall|d: DeletionModel| #[trigger]
            file_deletions(files).contains(d) <==> !d.whole_directory && all_lead_down(d.path)
                && exists|k: int|
                0 <= k < files.len() && d.path == parts_of((#[trigger] files[k]).filename@, '/'),
    decreases files.len(),
{
    if files.len() > 0 {
        let front = files.drop_last();
        let before = file_deletions(front);
        let out = file_deletions(files);
        let parts = parts_of(files.last().filename@, '/');
        let last = DeletionModel { path: parts, whole_directory: false };
        lemma_file_deletions(front);
        assert forall|d: DeletionModel| #[trigger] out.contains(d) <==> !d.whole_directory
            && all_lead_down(d.path) && exists|k: int|
            0 <= k < files.len() && d.path == parts_of((#[trigger] files[k]).filename@, '/') by {
            assert(before.contains(d) <==> !d.whole_directory && all_lead_down(d.path) && exists|
                k: int,
            |
                0 <= k < front.len() && d.path == parts_of((#[trigger] front[k]).filename@, '/'));
            if before.contains(d) {
                let at = choose|at: int| 0 <= at < before.len() && before[at] == d;
                assert(out[at] == d);
                let k = choose|k: int|
                    0 <= k < front.len() && d.path == parts_of(
                        (#[trigger] front[k]).filename@,
                        '/',
                    );
                assert(files[k] == front[k]);
            }
            if all_lead_down(parts) {
                assert(out[before.len() as int] == last);
            }
            assert(files[files.len() - 1] == files.last());
            if out.contains(d) && !before.contains(d) {
                let at = choose|at: int| 0 <= at < out.len() && out[at] == d;
                if at < before.len() {
                    assert(before[at] == d);
                }
                assert(d == last);
            }
            if !d.whole_directory && all_lead_down(d.path) && exists|k: int|
                0 <= k < files.len() && d.path == parts_of(
                    (#[trigger] files[k]).filename@,
                    '/',
                ) {
                let k = choose|k: int|
                    0 <= k < files.len() && d.path == parts_of(
                        (#[trigger] files[k]).filename@,
                        '/',
                    );
                if k < front.len() {
                    assert(front[k] == files[k]);
                } else {
                    assert(d == last);
                    assert(out.contains(d));
                }
            }
        }
    }
}

/// With a torrent of one file that file is deleted, and nothing else. With one of several files
/// that has a directory of its own that directory is deleted, and nothing else. Otherwise exactly
/// its files are deleted, but for those whose path would lead elsewhere than down.
pub proof fn what_is_deleted(create_subfolder: bool, f: TorrentFacts, d: DeletionModel)
    requires
        f.name@.len() > 0,
    ensures
        ({
            let all = deletions_of(create_subfolder, f);
            &&& f.single_file_mode ==> (all.contains(d) <==> d.path == seq![f.name@]
                && !d.whole_directory)
            &&& !f.single_file_mode && create_subfolder ==> (all.contains(d) <==> d.path.len() == 0
                && d.whole_directory)
            &&& !f.single_file_mode && !create_subfolder ==> (all.contains(d)
                <==> !d.whole_directory && (forall|i: int|
                0 <= i < d.path.len() ==> (#[trigger] d.path[i]).len() > 0 && d.path[i] != "."@
                    && d.path[i] != ".."@) && exists|k: int|
                0 <= k < f.files@.len() && d.path == parts_of(
                    (#[trigger] f.files@[k]).filename@,
                    '/',
                ))
        }),
{
    let all = deletions_of(create_subfolder, f);
    lemma_file_deletions(f.files@);
    if f.single_file_mode || create_subfolder {
        assert(all.len() == 1);
        if all.contains(d) {
            let at = choose|at: int| 0 <= at < all.len() && all[at] == d;
            assert(d == all[0]);
        }
        if f.single_file_mode {
            if d.path == seq![f.name@] && !d.whole_directory {
                assert(all[0] == d);
            }
        } else if d.path.len() == 0 && d.whole_directory {
            assert(d.path =~= seq![]);
            assert(all[0] == d);
        }
    } else {
        assert(all == file_deletions(f.files@));
        assert(all_lead_down(d.path) <==> (forall|i: int|
            0 <= i < d.path.len() ==> (#[trigger] d.path[i]).len() > 0 && d.path[i] != "."@
                && d.path[i] != ".."@)) by {
            if all_lead_down(d.path) {
                assert forall|i: int| 0 <= i < d.path.len() implies (#[trigger] d.path[i]).len()
                    > 0 && d.path[i] != "."@ && d.path[i] != ".."@ by {
                    assert(leads_down(d.path[i]));
                }
            }
        }
    }
}

proof fn lemma_parts_joined(a: Seq<char>, b: Seq<char>, c: char)
    ensures
        parts_of(a + seq![c] + b, c) == parts_of(a, c) + parts_of(b, c),
    decreases a.len(),
{
    let s = a + seq![c] + b;
    let n = first_char(a, c);
    lemma_first_char_in(a, c);
    lemma_first_char_in(s, c);
    let m = first_char(s, c);
    if n < a.len() {
        assert(s[n] == c);
        assert(m == n) by {
            if n < m {
                assert(s[n] != c);
            }
            if m < n {
                assert(a[m] == s[m]);
            }
        }
        let rest = a.skip(n + 1);
        lemma_parts_joined(rest, b, c);
        assert(s.take(n) =~= a.take(n));
        assert(s.skip(n + 1) =~= rest + seq![c] + b);
        assert(parts_of(s, c) =~= parts_of(a, c) + parts_of(b, c));
    } else {
        assert(s[a.len() as int] == c);
        assert(m == a.len()) by {
            if a.len() < m {
                assert(s[a.len() as int] != c);
            }
            if m < a.len() {
                assert(a[m] == s[m]);
            }
        }
        assert(s.take(m) =~= a);
        assert(s.skip(m + 1) =~= b);
        assert(parts_of(s, c) =~= parts_of(a, c) + parts_of(b, c));
    }
}

proof fn lemma_first_char_in(s: Seq<char>, c: char)
    ensures
        0 <= first_char(s, c) <= s.len(),
        first_char(s, c) < s.len() ==> s[first_char(s, c)] == c,
        forall|i: int| 0 <= i < first_char(s, c) ==> #[trigger] s[i] != c,
    decreases s.len(),
{
    if s.len() > 0 && s[0] != c {
        lemma_first_char_in(s.drop_first(), c);
        assert forall|i: int| 0 <= i < first_char(s, c) implies #[trigger] s[i] != c by {
            if i > 0 {
                assert(s.drop_first()[i - 1] == s[i]);
            }
        }
    }
}

/// The name of a file is taken apart into the components that it was put together from.
pub proof fn names_are_taken_apart(path: Seq<Seq<char>>)
    requires
        path.len() > 0,
        forall|i: int| 0 <= i < path.len() ==> !(#[trigger] path[i]).contains('/'),
    ensures
        parts_of(joined_path(path), '/') == path,
    decreases path.len(),
{
    let last = path.last();
    assert(path[path.len() - 1] == last);
    lemma_first_char_in(last, '/');
    if first_char(last, '/') < last.len() {
        assert(last.contains(last[first_char(last, '/')]));
    }
    assert(parts_of(last, '/') == seq![last]);
    if path.len() == 1 {
        assert(path =~= seq![last]);
    } else {
        let front = path.drop_last();
        assert forall|i: int| 0 <= i < front.len() implies !(#[trigger] front[i]).contains('/') by {
            assert(front[i] == path[i]);
        }
        names_are_taken_apart(front);
        reveal_strlit("/");
        assert("/"@ =~= seq!['/']);
        lemma_parts_joined(joined_path(front), last, '/');
        assert(joined_path(path) == joined_path(front) + seq!['/'] + last);
        assert(front + seq![last] =~= path);
    }
}

/// True where what stands at `path`, below a directory, is removed by a deletion.
pub open spec fn removes(d: DeletionModel, path: Seq<Seq<char>>) -> bool {
    if d.whole_directory {
        d.path.len() <= path.len() && path.take(d.path.len() as int) == d.path
    } else {
        path == d.path
    }
}

/// Removing a torrent deletes every file that was stored of it, and, where it has no directory of
/// its own, no directory at all: whatever lies beside its files stays.
pub proof fn what_was_stored_is_deleted(
    s: SessionModel,
    meta: MetaModel,
    opts: AddTorrentOptions,
    checked: bool,
    p: TorrentPlan,
    after: SessionModel,
    f: TorrentFacts,
    k: int,
)
    requires
        add_step(s, meta, opts, checked, AddStep::Start(p), after),
        f.name@ == meta.info.name,
        f.single_file_mode == meta.info.single_file_mode,
        f.files@.len() == meta.info.files.len(),
        f.name@.len() > 0,
        0 <= k < f.files@.len(),
        f.files@[k].filename@ == joined_path(meta.info.files[k].path),
        meta.info.files[k].path.len() > 0,
        forall|i: int|
            0 <= i < meta.info.files[k].path.len() ==> !unsafe_name(
                #[trigger] meta.info.files[k].path[i],
            ),
        meta.info.single_file_mode ==> meta.info.files[k].path == seq![meta.info.name],
    ensures
        exists|d: DeletionModel| #[trigger]
            deletions_of(p.create_subfolder, f).contains(d) && removes(d, meta.info.files[k].path),
        forall|d: DeletionModel| #[trigger]
            deletions_of(p.create_subfolder, f).contains(d) && p.root_dir.subfolder is None
                ==> !d.whole_directory && d.path.len() > 0,
{
    let path = meta.info.files[k].path;
    let all = deletions_of(p.create_subfolder, f);
    crate::session::adding::where_a_torrent_is_stored(s, meta, opts, checked, p, after);
    assert forall|i: int| 0 <= i < path.len() implies !(#[trigger] path[i]).contains('/') by {
        assert(!unsafe_name(path[i]));
    }
    names_are_taken_apart(path);
    let d = if f.single_file_mode {
        DeletionModel { path: seq![f.name@], whole_directory: false }
    } else if opts.create_subfolder {
        DeletionModel { path: seq![], whole_directory: true }
    } else {
        DeletionModel { path, whole_directory: false }
    };
    what_is_deleted(p.create_subfolder, f, d);
    if d.whole_directory {
        assert(path.take(0) =~= d.path);
    } else if !f.single_file_mode {
        assert forall|i: int| 0 <= i < d.path.len() implies (#[trigger] d.path[i]).len() > 0
            && d.path[i] != "."@ && d.path[i] != ".."@ by {
            assert(!unsafe_name(path[i]));
        }
        assert(f.files@[k].filename@ == joined_path(path));
    }
    assert(all.contains(d) && removes(d, path));
    assert forall|d: DeletionModel| #[trigger]
        all.contains(d) && p.root_dir.subfolder is None implies !d.whole_directory && d.path.len()
        > 0 by {
        what_is_deleted(p.create_subfolder, f, d);
        if !f.single_file_mode {
            let j = choose|j: int|
                0 <= j < f.files@.len() && d.path == parts_of(
                    (#[trigger] f.files@[j]).filename@,
                    '/',
                );
            lemma_some_parts(f.files@[j].filename@);
        }
    }
}

/// A torrent that is removed is found neither by its number nor by its digest, and every other
/// torrent is found as before. Only a private torrent gives digests back to the overlay, and only
/// one that is not private was announced on the local network.
pub proof fn what_a_removal_leaves(
    m: RegistryModel,
    t: ManagedTorrent,
    id: usize,
    h: Id20,
    r: RemoveFollowUp,
    dht: Option<u64>,
)
    requires
        follows_removal(r, t, dht),
    ensures
        found(removed(m, t.id, t.info_hash), TorrentIdOrHash::Id(t.id)) is None,
        found(removed(m, t.id, t.info_hash), TorrentIdOrHash::Hash(t.info_hash)) is None,
        id != t.id ==> found(removed(m, t.id, t.info_hash), TorrentIdOrHash::Id(id)) == found(
            m,
            TorrentIdOrHash::Id(id),
        ),
        h != t.info_hash && !(m.by_hash.contains_key(h) && m.by_hash[h] == t.id) ==> found(
            removed(m, t.id, t.info_hash),
            TorrentIdOrHash::Hash(h),
        ) == found(m, TorrentIdOrHash::Hash(h)),
        t.metadata matches Some(f) && f.private && dht is Some ==> r.public_hashes@
            == t.metadata->0.announced@,
        dht is None || t.metadata is None || !t.metadata->0.private ==> r.public_hashes@.len() == 0,
        r.forget_locally is None <==> t.metadata is Some && t.metadata->0.private,
        r.forget_locally matches Some(g) ==> g == t.info_hash,
{
}

} // verus!
