//! Torrent files.

use vstd::prelude::*;

use crate::bencode::{
    copy_range, decode_all, decode_dict_field_raw, field, int_field,
    lemma_model_entries, lemma_model_list, list_field, local_limits, model, model_entries,
    model_list, parse_all, raw_field, text_field, text_in, Bencode, Error, Value,
};
use crate::meta::hash::{
    id20_has_its_bytes, id20_is_its_bytes, id20_of, id32_has_its_bytes, id32_is_its_bytes,
    id32_of, sha1, sha1_digest, sha256, sha256_digest, Id20, Id32,
};
use crate::net::SocketAddr;
use crate::ranked::{index_of, put_in_order, ranked, ranked_has, ranked_put, ranking};
use crate::text::{same_text, text_views};
use crate::webseed::link::{parse_url_list, url_list};
use crate::words;
use crate::words::{
    w_announce, w_announce_list, w_comment, w_created_by, w_creation_date, w_encoding, w_file_tree,
    w_info, w_meta_version, w_piece_layers, w_pieces, w_url_list,
};

pub mod bootstrap;
pub mod info;
pub mod reading;
pub mod tree;

pub use crate::meta::metainfo::bootstrap::{
    bootstrap_of, host_views, hosts_match, parse_bootstrap_nodes, BootModel,
};
pub use crate::meta::metainfo::info::{
    accepted_torrents_stay_inside, file_views, files_length, info_of, safe_path, unsafe_name, validate_info, FileDetails, FileModel, InfoModel, TorrentMetaInfo,
    ValidatedTorrentMetaV1Info,
};
pub use crate::meta::metainfo::tree::{
    accepted_trees_stay_inside, file_v2_views, files_v2_length, info_v2_of, validate_info_v2, FileTreeNode, FileV2Model, InfoV2Model,
    TorrentMetaInfoV2, ValidatedTorrentMetaV2Info,
};

verus! {

/// Why a torrent file cannot be accepted.
#[derive(Debug, Clone, Copy, PartialEq, Eq)]
pub enum MetaError {
    Bencode(Error),
    MissingInfo,
    BadInfo(&'static str),
    BadUtf8 { field: &'static str },
    ZeroLength,
    BadPieces,
    BadInfoV2(&'static str),
    MissingPieceLayers,
}

/// Which versions of the format a torrent is described in.
#[derive(Debug, Clone, Copy, PartialEq, Eq, Structural)]
pub enum MetaVersion {
    V1,
    V2,
    Hybrid,
}

impl MetaVersion {
    pub fn as_str(&self) -> (r: &'static str)
        ensures
            r == (match *self {
                MetaVersion::V1 => "v1",
                MetaVersion::V2 => "v2",
                MetaVersion::Hybrid => "hybrid",
            }),
    {
        match self {
            MetaVersion::V1 => "v1",
            MetaVersion::V2 => "v2",
            MetaVersion::Hybrid => "hybrid",
        }
    }

    pub fn has_v1(&self) -> (r: bool)
        ensures
            r == !(*self is V2),
    {
        match self {
            MetaVersion::V2 => false,
            _ => true,
        }
    }
}

/// The digests that identify a torrent, one for each version that it is described in.
#[derive(Debug, Clone, Copy, PartialEq, Eq)]
pub struct TorrentInfoHashes {
    pub v1: Option<Id20>,
    pub v2: Option<Id32>,
}

/// The short digests that a torrent is announced under: the first version's, and the start of the
/// second version's where it is another.
pub open spec fn announced_under(h: TorrentInfoHashes) -> Seq<Id20> {
    match (h.v1, h.v2) {
        (None, None) => seq![],
        (Some(a), None) => seq![a],
        (None, Some(b)) => seq![id20_of(b@.take(20))],
        (Some(a), Some(b)) => if a == id20_of(b@.take(20)) {
            seq![a]
        } else {
            seq![a, id20_of(b@.take(20))]
        },
    }
}

impl TorrentInfoHashes {
    pub fn announce_infohashes(&self) -> (r: Vec<Id20>)
        ensures
            r@ == announced_under(*self),
    {
        let mut out: Vec<Id20> = Vec::new();
        match self.v1 {
            Some(v1) => {
                out.push(v1);
            },
            None => {},
        }
        match self.v2 {
            Some(v2) => {
                let short = v2.truncate_to_id20();
                proof {
                    id20_is_its_bytes(short);
                }
                let known = match self.v1 {
                    Some(v1) => v1 == short,
                    None => false,
                };
                if !known {
                    out.push(short);
                }
            },
            None => {},
        }
        assert(out@ =~= announced_under(*self));
        out
    }
}

/// What a torrent file says.
#[verifier::ext_equal]
pub struct MetaModel {
    pub info: InfoModel,
    pub announce: Option<Seq<char>>,
    pub announce_list: Seq<Seq<Seq<char>>>,
    pub url_list: Seq<Seq<char>>,
    pub bootstrap: BootModel,
    pub comment: Option<Seq<char>>,
    pub created_by: Option<Seq<char>>,
    pub creation_date: Option<int>,
    pub encoding: Option<Seq<char>>,
    pub info_hash: Id20,
    pub info_v2: Option<InfoV2Model>,
    pub info_hash_v2: Option<Id32>,
    pub meta_version: MetaVersion,
    pub piece_layers: Seq<(Seq<u8>, Seq<u8>)>,
    pub info_bytes: Seq<u8>,
}

/// What a torrent file says.
#[derive(Debug, Clone)]
pub struct TorrentMeta {
    pub info: ValidatedTorrentMetaV1Info,
    pub announce: Option<String>,
    pub announce_list: Vec<Vec<String>>,
    pub url_list: Vec<String>,
    pub bootstrap_nodes: Vec<(Id20, SocketAddr)>,
    pub bootstrap_hosts: Vec<(Id20, String, u16)>,
    pub comment: Option<String>,
    pub created_by: Option<String>,
    pub creation_date: Option<i64>,
    pub encoding: Option<String>,
    pub info_hash: Id20,
    pub info_v2: Option<ValidatedTorrentMetaV2Info>,
    pub info_hash_v2: Option<Id32>,
    pub meta_version: MetaVersion,
    /// The digests of the pieces of a file, by the digest of the file; in the order of the latter.
    pub piece_layers: Vec<(Id32, Vec<u8>)>,
    pub info_bytes: Vec<u8>,
}

/// The mathematical value of a text that may be absent.
pub open spec fn maybe_text(s: Option<String>) -> Option<Seq<char>> {
    match s {
        Some(t) => Some(t@),
        None => None,
    }
}

/// The mathematical values of lists of texts.
pub open spec fn tier_views(v: Seq<Vec<String>>) -> Seq<Seq<Seq<char>>> {
    Seq::new(v.len(), |i: int| text_views(v[i]@))
}

impl View for TorrentMeta {
    type V = MetaModel;

    open spec fn view(&self) -> MetaModel {
        MetaModel {
            info: self.info@,
            announce: maybe_text(self.announce),
            announce_list: tier_views(self.announce_list@),
            url_list: text_views(self.url_list@),
            bootstrap: BootModel {
                nodes: self.bootstrap_nodes@,
                hosts: host_views(self.bootstrap_hosts@),
            },
            comment: maybe_text(self.comment),
            created_by: maybe_text(self.created_by),
            creation_date: match self.creation_date {
                Some(d) => Some(d as int),
                None => None,
            },
            encoding: maybe_text(self.encoding),
            info_hash: self.info_hash,
            info_v2: match self.info_v2 {
                Some(i) => Some(i@),
                None => None,
            },
            info_hash_v2: self.info_hash_v2,
            meta_version: self.meta_version,
            piece_layers: ranking(self.piece_layers@),
            info_bytes: self.info_bytes@,
        }
    }
}

impl TorrentMeta {
    pub fn info_hashes(&self) -> (r: TorrentInfoHashes)
        ensures
            r == (TorrentInfoHashes {
                v1: if self.meta_version is V2 {
                    None
                } else {
                    Some(self.info_hash)
                },
                v2: self.info_hash_v2,
            }),
    {
        TorrentInfoHashes {
            v1: if self.meta_version.has_v1() {
                Some(self.info_hash)
            } else {
                None
            },
            v2: self.info_hash_v2,
        }
    }

    pub fn announce_infohashes(&self) -> (r: Vec<Id20>)
        ensures
            r@ == announced_under(
                TorrentInfoHashes {
                    v1: if self.meta_version is V2 {
                        None
                    } else {
                        Some(self.info_hash)
                    },
                    v2: self.info_hash_v2,
                },
            ),
    {
        self.info_hashes().announce_infohashes()
    }
}

/// The texts of a list; what is no text is passed over.
pub open spec fn texts_of(items: Seq<Bencode>) -> Seq<Seq<char>>
    decreases items.len(),
{
    if items.len() == 0 {
        seq![]
    } else {
        match text_in(items.last()) {
            Some(t) => texts_of(items.drop_last()).push(t),
            None => texts_of(items.drop_last()),
        }
    }
}

/// The tiers of a list of trackers; what is no list is passed over.
pub open spec fn tiers_of(items: Seq<Bencode>) -> Seq<Seq<Seq<char>>>
    decreases items.len(),
{
    if items.len() == 0 {
        seq![]
    } else {
        match items.last() {
            Bencode::List(tier) => tiers_of(items.drop_last()).push(texts_of(tier)),
            _ => tiers_of(items.drop_last()),
        }
    }
}

fn read_texts(items: &Vec<Value>) -> (r: Vec<String>)
    ensures
        text_views(r@) == texts_of(model_list(items@)),
{
    let ghost all = model_list(items@);
    let mut out: Vec<String> = Vec::new();
    let mut i: usize = 0;
    proof {
        lemma_model_list(items@);
        assert(all.take(0) =~= seq![]);
        assert(text_views(out@) =~= seq![]);
    }
    while i < items.len()
        invariant
            i <= items.len(),
            all == model_list(items@),
            all.len() == items.len(),
            forall|j: int| 0 <= j < items.len() ==> #[trigger] all[j] == model(items@[j]),
            text_views(out@) == texts_of(all.take(i as int)),
        decreases items.len() - i,
    {
        proof {
            assert(all.take(i + 1).drop_last() =~= all.take(i as int));
            assert(all.take(i + 1).last() == items@[i as int]@);
        }
        match items[i].as_str() {
            Some(s) => {
                let ghost before = out@;
                out.push(s);
                assert(text_views(out@) =~= text_views(before).push(s@));
            },
            None => {},
        }
        i += 1;
    }
    assert(all.take(i as int) =~= all);
    out
}

fn read_tiers(items: &Vec<Value>) -> (r: Vec<Vec<String>>)
    ensures
        tier_views(r@) == tiers_of(model_list(items@)),
{
    let ghost all = model_list(items@);
    let mut out: Vec<Vec<String>> = Vec::new();
    let mut i: usize = 0;
    proof {
        lemma_model_list(items@);
        assert(all.take(0) =~= seq![]);
        assert(tier_views(out@) =~= seq![]);
    }
    while i < items.len()
        invariant
            i <= items.len(),
            all == model_list(items@),
            all.len() == items.len(),
            forall|j: int| 0 <= j < items.len() ==> #[trigger] all[j] == model(items@[j]),
            tier_views(out@) == tiers_of(all.take(i as int)),
        decreases items.len() - i,
    {
        proof {
            assert(all.take(i + 1).drop_last() =~= all.take(i as int));
            assert(all.take(i + 1).last() == items@[i as int]@);
        }
        match items[i].as_list() {
            Some(tier) => {
                let ghost before = out@;
                let texts = read_texts(tier);
                out.push(texts);
                assert(tier_views(out@) =~= tier_views(before).push(text_views(texts@)));
            },
            None => {},
        }
        i += 1;
    }
    assert(all.take(i as int) =~= all);
    out
}

/// The digests of pieces, by the digest of their file; the first entry that cannot be accepted
/// decides the error.
pub open spec fn layer_entries(d: Seq<(Seq<u8>, Bencode)>) -> Result<
    Seq<(Seq<u8>, Seq<u8>)>,
    MetaError,
>
    decreases d.len(),
{
    if d.len() == 0 {
        Ok(seq![])
    } else {
        match layer_entries(d.drop_last()) {
            Err(e) => Err(e),
            Ok(front) => if d.last().0.len() != 32 {
                Err(MetaError::BadInfoV2("piece layers key not 32 bytes"))
            } else {
                match d.last().1 {
                    Bencode::Bytes(b) => if b.len() % 32 != 0 {
                        Err(MetaError::BadInfoV2("piece layers value length not multiple of 32"))
                    } else {
                        Ok(ranked_put(front, d.last().0, b))
                    },
                    _ => Err(MetaError::BadInfoV2("piece layers value not bytes")),
                }
            },
        }
    }
}

/// The digests of pieces in a torrent file.
pub open spec fn layers_of(v: Bencode) -> Result<Seq<(Seq<u8>, Seq<u8>)>, MetaError> {
    match field(v, w_piece_layers()) {
        None => Ok(seq![]),
        Some(Bencode::Dict(d)) => layer_entries(d),
        Some(_) => Err(MetaError::BadInfoV2("piece layers not dict")),
    }
}

proof fn lemma_layers_error(d: Seq<(Seq<u8>, Bencode)>, i: int)
    requires
        0 <= i <= d.len(),
        layer_entries(d.take(i)) is Err,
    ensures
        layer_entries(d) == layer_entries(d.take(i)),
    decreases d.len(),
{
    if i < d.len() {
        assert(d.drop_last().take(i) =~= d.take(i));
        lemma_layers_error(d.drop_last(), i);
    } else {
        assert(d.take(i) =~= d);
    }
}

/// Read the digests of pieces in a torrent file.
pub fn parse_piece_layers(top: &Value) -> (r: Result<Vec<(Id32, Vec<u8>)>, MetaError>)
    ensures
        match layers_of(top@) {
            Ok(l) => r matches Ok(v) && ranking(v@) == l,
            Err(e) => r == Err::<Vec<(Id32, Vec<u8>)>, MetaError>(e),
        },
{
    let mut out: Vec<(Id32, Vec<u8>)> = Vec::new();
    assert(ranking(out@) =~= seq![]);
    let value = match top.get(words::piece_layers().as_slice()) {
        Some(v) => v,
        None => {
            return Ok(out);
        },
    };
    let d = match value.as_dict() {
        Some(d) => d,
        None => {
            return Err(MetaError::BadInfoV2("piece layers not dict"));
        },
    };
    let ghost all = model_entries(d@);
    let mut i: usize = 0;
    proof {
        lemma_model_entries(d@);
        assert(all.take(0) =~= seq![]);
    }
    while i < d.len()
        invariant
            i <= d.len(),
            all == model_entries(d@),
            all.len() == d.len(),
            layers_of(top@) == layer_entries(all),
            forall|j: int|
                0 <= j < d.len() ==> #[trigger] all[j] == (d@[j].0@, model(d@[j].1)),
            layer_entries(all.take(i as int)) == Ok::<Seq<(Seq<u8>, Seq<u8>)>, MetaError>(
                ranking(out@),
            ),
            ranked(ranking(out@)),
        decreases d.len() - i,
    {
        proof {
            assert(all.take(i + 1).drop_last() =~= all.take(i as int));
            assert(all.take(i + 1).last() == all[i as int]);
        }
        let root = match Id32::from_slice(d[i].0.as_slice()) {
            Some(root) => root,
            None => {
                proof {
                    lemma_layers_error(all, i + 1);
                }
                return Err(MetaError::BadInfoV2("piece layers key not 32 bytes"));
            },
        };
        let bytes = match d[i].1.as_bytes() {
            Some(b) => b,
            None => {
                proof {
                    lemma_layers_error(all, i + 1);
                }
                return Err(MetaError::BadInfoV2("piece layers value not bytes"));
            },
        };
        if bytes.len() % 32 != 0 {
            proof {
                lemma_layers_error(all, i + 1);
            }
            return Err(MetaError::BadInfoV2("piece layers value length not multiple of 32"));
        }
        let copy = copy_range(bytes.as_slice(), 0, bytes.len());
        assert(copy@ =~= bytes@);
        put_in_order(&mut out, root, copy);
        i += 1;
    }
    assert(all.take(i as int) =~= all);
    Ok(out)
}

/// True when a torrent of the second version is one file.
pub open spec fn is_single(v2: InfoV2Model) -> bool {
    v2.files.len() == 1 && v2.files[0].path.len() == 1 && v2.files[0].path[0] == v2.name
}

/// A file as the first version would list it: below the directory of the torrent, whose name
/// the second version puts in front.
pub open spec fn facade_file(v2: InfoV2Model, f: FileV2Model) -> FileModel {
    FileModel {
        path: if !is_single(v2) && f.path.len() > 0 && f.path[0] == v2.name {
            f.path.skip(1)
        } else {
            f.path
        },
        length: f.length,
    }
}

/// A torrent of the second version in the form of the first: without digests of pieces.
pub open spec fn facade_of(v2: InfoV2Model) -> InfoModel {
    InfoModel {
        name: v2.name,
        piece_length: v2.piece_length,
        pieces: seq![],
        private: v2.private,
        files: Seq::new(v2.files.len(), |i: int| facade_file(v2, v2.files[i])),
        single_file_mode: is_single(v2),
    }
}

fn copy_tail(path: &Vec<String>, from: usize) -> (r: Vec<String>)
    requires
        from <= path.len(),
    ensures
        text_views(r@) == text_views(path@).skip(from as int),
{
    let ghost all = text_views(path@).skip(from as int);
    let mut out: Vec<String> = Vec::new();
    let mut i: usize = from;
    assert(text_views(out@) =~= all.take(0));
    while i < path.len()
        invariant
            from <= i <= path.len(),
            all == text_views(path@).skip(from as int),
            text_views(out@) == all.take(i - from),
        decreases path.len() - i,
    {
        let ghost before = out@;
        out.push(path[i].clone());
        proof {
            assert(text_views(out@) =~= text_views(before).push(path@[i as int]@));
            assert(text_views(out@) =~= all.take(i + 1 - from));
        }
        i += 1;
    }
    assert(text_views(out@) =~= all);
    out
}

/// Put a torrent of the second version into the form of the first.
pub fn synthesize_v1_facade_from_v2(v2: &ValidatedTorrentMetaV2Info) -> (r:
    ValidatedTorrentMetaV1Info)
    ensures
        r@ == facade_of(v2@),
{
    let ghost m = v2@;
    assert(m.files.len() == v2.files.len());
    let single_file_mode = v2.files.len() == 1 && v2.files[0].path.len() == 1 && same_text(
        v2.files[0].path[0].as_str(),
        v2.name.as_str(),
    );
    proof {
        if v2.files.len() == 1 {
            assert(m.files[0].path.len() == v2.files@[0].path@.len());
        }
    }
    assert(single_file_mode == is_single(m));
    let mut files: Vec<TorrentMetaInfo> = Vec::new();
    let mut i: usize = 0;
    assert(file_views(files@) =~= facade_of(m).files.take(0));
    while i < v2.files.len()
        invariant
            i <= v2.files.len(),
            m == v2@,
            single_file_mode == is_single(m),
            file_views(files@) == facade_of(m).files.take(i as int),
        decreases v2.files.len() - i,
    {
        let f = &v2.files[i];
        let ghost before = files@;
        assert(m.files[i as int].path.len() == f.path@.len());
        let inside = !single_file_mode && f.path.len() > 0 && same_text(
            f.path[0].as_str(),
            v2.name.as_str(),
        );
        let path = copy_tail(
            &f.path,
            if inside {
                1
            } else {
                0
            },
        );
        assert(text_views(f.path@).skip(0) =~= text_views(f.path@));
        let file = TorrentMetaInfo { path, length: f.length };
        proof {
            assert(file@ =~= facade_file(m, m.files[i as int]));
        }
        files.push(file);
        proof {
            assert(file_views(files@) =~= file_views(before).push(file@));
            assert(file_views(files@) =~= facade_of(m).files.take(i + 1));
        }
        i += 1;
    }
    let r = ValidatedTorrentMetaV1Info {
        name: v2.name.clone(),
        piece_length: v2.piece_length,
        pieces: Vec::new(),
        private: v2.private,
        files,
        single_file_mode,
    };
    proof {
        assert(r@.files =~= facade_of(m).files);
        assert(r@ =~= facade_of(m));
    }
    r
}

/// True when a description is in the second version.
pub open spec fn declares_v2(info: Bencode) -> bool {
    int_field(info, w_meta_version()) == Some(2int) && field(info, w_file_tree()) is Some
}

fn has_v2(info: &Value) -> (r: bool)
    ensures
        r == declares_v2(info@),
{
    let two = match info.int_at(words::meta_version().as_slice()) {
        Some(n) => n == 2,
        None => false,
    };
    two && info.get(words::file_tree().as_slice()).is_some()
}

/// The second version of a raw description, as a peer sends it; nothing where it is in the first
/// version only.
pub fn parse_info_v2_from_bytes(info_bytes: &[u8]) -> (r: Result<
    Option<ValidatedTorrentMetaV2Info>,
    MetaError,
>)
    ensures
        match parse_all(info_bytes@, local_limits()) {
            Err(e) => r == Err::<Option<ValidatedTorrentMetaV2Info>, MetaError>(
                MetaError::Bencode(e),
            ),
            Ok(v) => if !(v is Dict) {
                r == Err::<Option<ValidatedTorrentMetaV2Info>, MetaError>(
                    MetaError::BadInfo("info not dict"),
                )
            } else if !declares_v2(v) {
                r matches Ok(o) && o is None
            } else {
                match info_v2_of(v) {
                    Ok(i) => r matches Ok(Some(x)) && x@ == i,
                    Err(e) => r == Err::<Option<ValidatedTorrentMetaV2Info>, MetaError>(e),
                }
            },
        },
{
    let value = match decode_all(info_bytes) {
        Ok(v) => v,
        Err(e) => {
            return Err(MetaError::Bencode(e));
        },
    };
    if value.as_dict().is_none() {
        return Err(MetaError::BadInfo("info not dict"));
    }
    if !has_v2(&value) {
        return Ok(None);
    }
    match validate_info_v2(&value) {
        Ok(i) => Ok(Some(i)),
        Err(e) => Err(e),
    }
}

/// True when every file that takes more than a piece has the digests of its pieces.
pub open spec fn has_layers(v2: InfoV2Model, layers: Seq<(Seq<u8>, Seq<u8>)>) -> bool {
    forall|i: int|
        0 <= i < v2.files.len() && (#[trigger] v2.files[i]).length > v2.piece_length ==> ranked_has(
            layers,
            v2.files[i].pieces_root@,
        )
}

fn all_layers(v2: &ValidatedTorrentMetaV2Info, layers: &Vec<(Id32, Vec<u8>)>) -> (r: bool)
    ensures
        r == has_layers(v2@, ranking(layers@)),
{
    let mut i: usize = 0;
    while i < v2.files.len()
        invariant
            i <= v2.files.len(),
            forall|j: int|
                0 <= j < i && (#[trigger] v2@.files[j]).length > v2.piece_length ==> ranked_has(
                    ranking(layers@),
                    v2@.files[j].pieces_root@,
                ),
        decreases v2.files.len() - i,
    {
        let f = &v2.files[i];
        assert(v2@.files[i as int] == f@);
        if f.length > v2.piece_length as u64 && index_of(layers, &f.pieces_root).is_none() {
            return false;
        }
        i += 1;
    }
    true
}

/// What stands around the description of a torrent.
#[verifier::ext_equal]
pub struct FrameModel {
    pub announce: Option<Seq<char>>,
    pub announce_list: Seq<Seq<Seq<char>>>,
    pub url_list: Seq<Seq<char>>,
    pub bootstrap: BootModel,
    pub comment: Option<Seq<char>>,
    pub created_by: Option<Seq<char>>,
    pub creation_date: Option<int>,
    pub encoding: Option<Seq<char>>,
}

/// What stands around the description of a torrent.
pub open spec fn frame_of(v: Bencode) -> FrameModel {
    FrameModel {
        announce: text_field(v, w_announce()),
        announce_list: match list_field(v, w_announce_list()) {
            Some(tiers) => tiers_of(tiers),
            None => seq![],
        },
        url_list: match field(v, w_url_list()) {
            Some(u) => url_list(u),
            None => seq![],
        },
        bootstrap: bootstrap_of(v),
        comment: text_field(v, w_comment()),
        created_by: text_field(v, w_created_by()),
        creation_date: int_field(v, w_creation_date()),
        encoding: text_field(v, w_encoding()),
    }
}

/// A description and what stands around it.
pub open spec fn framed(
    f: FrameModel,
    info: InfoModel,
    info_hash: Id20,
    info_v2: Option<InfoV2Model>,
    info_hash_v2: Option<Id32>,
    meta_version: MetaVersion,
    piece_layers: Seq<(Seq<u8>, Seq<u8>)>,
    info_bytes: Seq<u8>,
) -> MetaModel {
    MetaModel {
        info,
        announce: f.announce,
        announce_list: f.announce_list,
        url_list: f.url_list,
        bootstrap: f.bootstrap,
        comment: f.comment,
        created_by: f.created_by,
        creation_date: f.creation_date,
        encoding: f.encoding,
        info_hash,
        info_v2,
        info_hash_v2,
        meta_version,
        piece_layers,
        info_bytes,
    }
}

/// The long digest of a description.
pub open spec fn long_hash(raw: Seq<u8>) -> Id32 {
    id32_of(sha256_digest(raw))
}

/// A torrent that is described in the second version only: it is known under the start of its
/// long digest, and every file that takes more than a piece has the digests of its pieces.
pub open spec fn pure_v2_of(v: Bencode, info: Bencode, raw: Seq<u8>) -> Result<
    MetaModel,
    MetaError,
> {
    match info_v2_of(info) {
        Err(e) => Err(e),
        Ok(v2) => match layers_of(v) {
            Err(e) => Err(e),
            Ok(layers) => if !has_layers(v2, layers) {
                Err(MetaError::MissingPieceLayers)
            } else {
                Ok(
                    framed(
                        frame_of(v),
                        facade_of(v2),
                        id20_of(long_hash(raw)@.take(20)),
                        Some(v2),
                        Some(long_hash(raw)),
                        MetaVersion::V2,
                        layers,
                        raw,
                    ),
                )
            },
        },
    }
}

/// A torrent that is described in both versions: it is private where either says so.
pub open spec fn hybrid_of(v: Bencode, info: Bencode, raw: Seq<u8>) -> Result<MetaModel, MetaError> {
    match info_of(info) {
        Err(e) => Err(e),
        Ok(i) => match info_v2_of(info) {
            Err(e) => Err(e),
            Ok(v2) => match layers_of(v) {
                Err(e) => Err(e),
                Ok(layers) => Ok(
                    framed(
                        frame_of(v),
                        InfoModel { private: i.private || v2.private, ..i },
                        id20_of(sha1_digest(raw)),
                        Some(v2),
                        Some(long_hash(raw)),
                        MetaVersion::Hybrid,
                        layers,
                        raw,
                    ),
                ),
            },
        },
    }
}

/// A torrent that is described in the first version only.
pub open spec fn pure_v1_of(v: Bencode, info: Bencode, raw: Seq<u8>) -> Result<
    MetaModel,
    MetaError,
> {
    match info_of(info) {
        Err(e) => Err(e),
        Ok(i) => Ok(
            framed(
                frame_of(v),
                i,
                id20_of(sha1_digest(raw)),
                None,
                None,
                MetaVersion::V1,
                seq![],
                raw,
            ),
        ),
    }
}

/// A torrent with its description, and the bytes of that description.
pub open spec fn described(v: Bencode, info: Bencode, raw: Seq<u8>) -> Result<MetaModel, MetaError> {
    let has_v1 = field(info, w_pieces()) is Some;
    if !(info is Dict) {
        Err(MetaError::BadInfo("info not dict"))
    } else if has_v1 && declares_v2(info) {
        hybrid_of(v, info, raw)
    } else if has_v1 {
        pure_v1_of(v, info, raw)
    } else if declares_v2(info) {
        pure_v2_of(v, info, raw)
    } else {
        Err(MetaError::BadInfo("info dict has neither v1 nor v2"))
    }
}

/// What a torrent file says, or why it cannot be accepted.
pub open spec fn torrent_of(b: Seq<u8>) -> Result<MetaModel, MetaError> {
    match parse_all(b, local_limits()) {
        Err(e) => Err(MetaError::Bencode(e)),
        Ok(v) => if !(v is Dict) {
            Err(MetaError::BadInfo("top-level not dict"))
        } else {
            match (raw_field(b, w_info(), local_limits()), field(v, w_info())) {
                (Err(e), _) => Err(MetaError::Bencode(e)),
                (Ok(Some(raw)), Some(info)) => described(v, info, raw),
                _ => Err(MetaError::MissingInfo),
            }
        },
    }
}

struct Frame {
    announce: Option<String>,
    announce_list: Vec<Vec<String>>,
    url_list: Vec<String>,
    bootstrap_nodes: Vec<(Id20, SocketAddr)>,
    bootstrap_hosts: Vec<(Id20, String, u16)>,
    comment: Option<String>,
    created_by: Option<String>,
    creation_date: Option<i64>,
    encoding: Option<String>,
}

impl View for Frame {
    type V = FrameModel;

    closed spec fn view(&self) -> FrameModel {
        FrameModel {
            announce: maybe_text(self.announce),
            announce_list: tier_views(self.announce_list@),
            url_list: text_views(self.url_list@),
            bootstrap: BootModel {
                nodes: self.bootstrap_nodes@,
                hosts: host_views(self.bootstrap_hosts@),
            },
            comment: maybe_text(self.comment),
            created_by: maybe_text(self.created_by),
            creation_date: match self.creation_date {
                Some(d) => Some(d as int),
                None => None,
            },
            encoding: maybe_text(self.encoding),
        }
    }
}

fn read_frame(v: &Value) -> (r: Frame)
    ensures
        r@ == frame_of(v@),
        hosts_match(r@.bootstrap),
{
    let announce_list = match v.list_at(words::announce_list().as_slice()) {
        Some(tiers) => read_tiers(tiers),
        None => {
            let none: Vec<Vec<String>> = Vec::new();
            assert(tier_views(none@) =~= seq![]);
            none
        },
    };
    let url_list = match v.get(words::url_list().as_slice()) {
        Some(u) => parse_url_list(u),
        None => {
            let none: Vec<String> = Vec::new();
            assert(text_views(none@) =~= seq![]);
            none
        },
    };
    let boot = parse_bootstrap_nodes(v);
    let r = Frame {
        announce: v.text_at(words::announce().as_slice()),
        announce_list,
        url_list,
        bootstrap_nodes: boot.nodes,
        bootstrap_hosts: boot.hosts,
        comment: v.text_at(words::comment().as_slice()),
        created_by: v.text_at(words::created_by().as_slice()),
        creation_date: v.int_at(words::creation_date().as_slice()),
        encoding: v.text_at(words::encoding().as_slice()),
    };
    assert(r@ =~= frame_of(v@));
    r
}

fn put_in_frame(
    f: Frame,
    info: ValidatedTorrentMetaV1Info,
    info_hash: Id20,
    info_v2: Option<ValidatedTorrentMetaV2Info>,
    info_hash_v2: Option<Id32>,
    meta_version: MetaVersion,
    piece_layers: Vec<(Id32, Vec<u8>)>,
    info_bytes: Vec<u8>,
) -> (r: TorrentMeta)
    ensures
        r@ == framed(
            f@,
            info@,
            info_hash,
            match info_v2 {
                Some(i) => Some(i@),
                None => None,
            },
            info_hash_v2,
            meta_version,
            ranking(piece_layers@),
            info_bytes@,
        ),
{
    TorrentMeta {
        info,
        announce: f.announce,
        announce_list: f.announce_list,
        url_list: f.url_list,
        bootstrap_nodes: f.bootstrap_nodes,
        bootstrap_hosts: f.bootstrap_hosts,
        comment: f.comment,
        created_by: f.created_by,
        creation_date: f.creation_date,
        encoding: f.encoding,
        info_hash,
        info_v2,
        info_hash_v2,
        meta_version,
        piece_layers,
        info_bytes,
    }
}

fn read_pure_v2(v: &Value, info: &Value, raw: Vec<u8>) -> (r: Result<TorrentMeta, MetaError>)
    ensures
        match pure_v2_of(v@, info@, raw@) {
            Ok(m) => r matches Ok(x) && x@ == m,
            Err(e) => r == Err::<TorrentMeta, MetaError>(e),
        },
        r matches Ok(x) ==> digests_match(x@) && hosts_match(x@.bootstrap),
{
    let v2 = match validate_info_v2(info) {
        Ok(v2) => v2,
        Err(e) => {
            return Err(e);
        },
    };
    let long = sha256(raw.as_slice());
    let layers = match parse_piece_layers(v) {
        Ok(l) => l,
        Err(e) => {
            return Err(e);
        },
    };
    if !all_layers(&v2, &layers) {
        return Err(MetaError::MissingPieceLayers);
    }
    let facade = synthesize_v1_facade_from_v2(&v2);
    let short = long.truncate_to_id20();
    proof {
        id32_is_its_bytes(long);
        id20_is_its_bytes(short);
    }
    Ok(
        put_in_frame(
            read_frame(v),
            facade,
            short,
            Some(v2),
            Some(long),
            MetaVersion::V2,
            layers,
            raw,
        ),
    )
}

fn read_with_v1(v: &Value, info: &Value, raw: Vec<u8>, both: bool) -> (r: Result<
    TorrentMeta,
    MetaError,
>)
    ensures
        match (if both {
            hybrid_of(v@, info@, raw@)
        } else {
            pure_v1_of(v@, info@, raw@)
        }) {
            Ok(m) => r matches Ok(x) && x@ == m,
            Err(e) => r == Err::<TorrentMeta, MetaError>(e),
        },
        r matches Ok(x) ==> digests_match(x@) && hosts_match(x@.bootstrap),
{
    let info_hash = sha1(raw.as_slice());
    proof {
        id20_is_its_bytes(info_hash);
    }
    let mut v1 = match validate_info(info) {
        Ok(v1) => v1,
        Err(e) => {
            return Err(e);
        },
    };
    if !both {
        let layers: Vec<(Id32, Vec<u8>)> = Vec::new();
        assert(ranking(layers@) =~= seq![]);
        return Ok(
            put_in_frame(
                read_frame(v),
                v1,
                info_hash,
                None,
                None,
                MetaVersion::V1,
                layers,
                raw,
            ),
        );
    }
    let ghost plain = v1@;
    let v2 = match validate_info_v2(info) {
        Ok(v2) => v2,
        Err(e) => {
            return Err(e);
        },
    };
    v1.private = v1.private || v2.private;
    assert(v1@ =~= (InfoModel { private: plain.private || v2@.private, ..plain }));
    let long = sha256(raw.as_slice());
    proof {
        id32_is_its_bytes(long);
    }
    let layers = match parse_piece_layers(v) {
        Ok(l) => l,
        Err(e) => {
            return Err(e);
        },
    };
    Ok(
        put_in_frame(
            read_frame(v),
            v1,
            info_hash,
            Some(v2),
            Some(long),
            MetaVersion::Hybrid,
            layers,
            raw,
        ),
    )
}

/// True when the digests of a torrent are those of the bytes of its description: of the first
/// version the short one, of the second the long one, whose start stands in for the short one
/// where the first version is missing.
pub open spec fn digests_match(m: MetaModel) -> bool {
    &&& !(m.meta_version is V2) ==> m.info_hash@ == sha1_digest(m.info_bytes)
    &&& m.meta_version is V2 ==> m.info_hash@ == sha256_digest(m.info_bytes).take(20)
    &&& m.meta_version is V1 ==> m.info_hash_v2 is None
    &&& !(m.meta_version is V1) ==> (m.info_hash_v2 matches Some(long) && long@ == sha256_digest(
        m.info_bytes,
    ))
}

/// Read a torrent file.
pub fn parse_torrent(bytes: &[u8]) -> (r: Result<TorrentMeta, MetaError>)
    ensures
        match torrent_of(bytes@) {
            Ok(m) => r matches Ok(x) && x@ == m,
            Err(e) => r == Err::<TorrentMeta, MetaError>(e),
        },
        r matches Ok(x) ==> digests_match(x@) && hosts_match(x@.bootstrap),
{
    let value = match decode_all(bytes) {
        Ok(v) => v,
        Err(e) => {
            return Err(MetaError::Bencode(e));
        },
    };
    if value.as_dict().is_none() {
        return Err(MetaError::BadInfo("top-level not dict"));
    }
    let raw = match decode_dict_field_raw(bytes, words::info().as_slice()) {
        Ok(Some(raw)) => raw,
        Ok(None) => {
            return Err(MetaError::MissingInfo);
        },
        Err(e) => {
            return Err(MetaError::Bencode(e));
        },
    };
    let info = match value.get(words::info().as_slice()) {
        Some(info) => info,
        None => {
            return Err(MetaError::MissingInfo);
        },
    };
    if info.as_dict().is_none() {
        return Err(MetaError::BadInfo("info not dict"));
    }
    let v1 = info.get(words::pieces().as_slice()).is_some();
    let v2 = has_v2(info);
    if v1 {
        return read_with_v1(&value, info, raw, v2);
    }
    if v2 {
        return read_pure_v2(&value, info, raw);
    }
    Err(MetaError::BadInfo("info dict has neither v1 nor v2"))
}

proof fn lemma_facade_length(v2: InfoV2Model, n: int)
    requires
        0 <= n <= v2.files.len(),
    ensures
        files_length(facade_of(v2).files.take(n)) == files_v2_length(v2.files.take(n)),
    decreases n,
{
    if n > 0 {
        lemma_facade_length(v2, n - 1);
        assert(v2.files.take(n).drop_last() =~= v2.files.take(n - 1));
        assert(facade_of(v2).files.take(n).drop_last() =~= facade_of(v2).files.take(n - 1));
    }
}

/// Whatever version a torrent is described in, none of its files lies outside its directory, and
/// its length is known.
pub proof fn accepted_files_stay_inside(b: Seq<u8>)
    requires
        torrent_of(b) is Ok,
    ensures
        forall|i: int|
            0 <= i < torrent_of(b)->Ok_0.info.files.len() ==> safe_path(
                (#[trigger] torrent_of(b)->Ok_0.info.files[i]).path,
            ),
        !unsafe_name(torrent_of(b)->Ok_0.info.name),
        torrent_of(b)->Ok_0.info.piece_length > 0,
        0 < files_length(torrent_of(b)->Ok_0.info.files) <= u64::MAX,
{
    let v = parse_all(b, local_limits())->Ok_0;
    let info = field(v, w_info())->0;
    let m = torrent_of(b)->Ok_0;
    if field(info, w_pieces()) is Some {
        accepted_torrents_stay_inside(info);
    } else {
        accepted_trees_stay_inside(info);
        let v2 = info_v2_of(info)->Ok_0;
        lemma_facade_length(v2, v2.files.len() as int);
        assert(v2.files.take(v2.files.len() as int) =~= v2.files);
        assert(facade_of(v2).files.take(v2.files.len() as int) =~= facade_of(v2).files);
        assert forall|i: int| 0 <= i < m.info.files.len() implies safe_path(
            (#[trigger] m.info.files[i]).path,
        ) by {
            let f = v2.files[i];
            assert(safe_path(f.path));
            assert(m.info.files[i] == facade_file(v2, f));
            if !is_single(v2) && f.path.len() > 0 && f.path[0] == v2.name {
                assert forall|j: int| 0 <= j < f.path.skip(1).len() implies !unsafe_name(
                    #[trigger] f.path.skip(1)[j],
                ) by {
                    assert(f.path.skip(1)[j] == f.path[j + 1]);
                }
            }
        }
    }
}

/// The digests of a torrent can be computed again from the bytes of its description, and there is
/// at least one to announce it under: the short one, the start of the long one where the torrent
/// is described in the second version only, and both where it is described in both. Digests of the
/// right lengths are stored byte for byte.
pub proof fn digests_can_be_recomputed(b: Seq<u8>)
    requires
        torrent_of(b) is Ok,
    ensures
        ({
            let m = torrent_of(b)->Ok_0;
            let hashes = TorrentInfoHashes {
                v1: if m.meta_version is V2 {
                    None
                } else {
                    Some(m.info_hash)
                },
                v2: m.info_hash_v2,
            };
            &&& m.meta_version is V1 ==> m.info_hash == id20_of(sha1_digest(m.info_bytes))
                && m.info_hash_v2 is None && announced_under(hashes) == seq![m.info_hash]
            &&& m.meta_version is Hybrid ==> m.info_hash == id20_of(sha1_digest(m.info_bytes))
                && m.info_hash_v2 == Some(id32_of(sha256_digest(m.info_bytes)))
                && announced_under(hashes).contains(m.info_hash) && announced_under(hashes).contains(
                id20_of(id32_of(sha256_digest(m.info_bytes))@.take(20)),
            )
            &&& m.meta_version is V2 ==> m.info_hash_v2 == Some(
                id32_of(sha256_digest(m.info_bytes)),
            ) && m.info_hash == id20_of(id32_of(sha256_digest(m.info_bytes))@.take(20))
                && announced_under(hashes) == seq![m.info_hash]
            &&& sha1_digest(m.info_bytes).len() == 20 && sha256_digest(m.info_bytes).len() == 32
                ==> digests_match(m)
        }),
{
    let m = torrent_of(b)->Ok_0;
    let hashes = TorrentInfoHashes {
        v1: if m.meta_version is V2 {
            None
        } else {
            Some(m.info_hash)
        },
        v2: m.info_hash_v2,
    };
    let announced = announced_under(hashes);
    assert(announced[0] == m.info_hash);
    if sha1_digest(m.info_bytes).len() == 20 && sha256_digest(m.info_bytes).len() == 32 {
        id20_has_its_bytes(sha1_digest(m.info_bytes));
        id32_has_its_bytes(sha256_digest(m.info_bytes));
        id20_has_its_bytes(sha256_digest(m.info_bytes).take(20));
    }
    if m.meta_version is Hybrid {
        let short = id20_of(long_hash(m.info_bytes)@.take(20));
        assert(announced[announced.len() - 1] == short || announced[0] == short);
    }
}

} // verus!
