//! The description of a torrent in its first version: one run of pieces over all files.

use vstd::prelude::*;

use crate::bencode::{
    bytes_field, copy_range, int_field, lemma_model_list, list_field, model, model_list,
    text_field, text_in, Bencode, Value,
};
use crate::meta::metainfo::MetaError;
use crate::sums::total;
use crate::text::{copy_texts, same_text, text_views, to_chars};
use crate::words;
use crate::words::{w_files, w_length, w_name, w_path, w_piece_length, w_pieces, w_private};

verus! {

/// True of the names that could lead out of the directory of a torrent.
pub open spec fn unsafe_name(s: Seq<char>) -> bool {
    s.len() == 0 || s == "."@ || s == ".."@ || s.contains('/') || s.contains('\\')
}

/// True of the names that could lead out of the directory of a torrent.
pub fn is_unsafe_name(s: &str) -> (r: bool)
    ensures
        r == unsafe_name(s@),
{
    let chars = to_chars(s);
    if chars.len() == 0 || same_text(s, ".") || same_text(s, "..") {
        return true;
    }
    let mut i: usize = 0;
    while i < chars.len()
        invariant
            i <= chars.len(),
            chars@ == s@,
            forall|j: int| 0 <= j < i ==> chars@[j] != '/' && chars@[j] != '\\',
        decreases chars.len() - i,
    {
        if chars[i] == '/' || chars[i] == '\\' {
            assert(s@.contains(chars@[i as int]));
            return true;
        }
        i += 1;
    }
    false
}

/// A file: its place below the directory of the torrent, and its length.
#[verifier::ext_equal]
pub struct FileModel {
    pub path: Seq<Seq<char>>,
    pub length: u64,
}

/// The description of a torrent.
#[verifier::ext_equal]
pub struct InfoModel {
    pub name: Seq<char>,
    pub piece_length: u32,
    pub pieces: Seq<u8>,
    pub private: bool,
    pub files: Seq<FileModel>,
    pub single_file_mode: bool,
}

/// A single file of a torrent.
#[derive(Debug)]
pub struct TorrentMetaInfo {
    /// The components of its path, none of which leads out of the directory of the torrent.
    pub path: Vec<String>,
    pub length: u64,
}

/// The description of a torrent.
#[derive(Debug)]
pub struct ValidatedTorrentMetaV1Info {
    pub name: String,
    pub piece_length: u32,
    /// The digest of each piece, twenty bytes each.
    pub pieces: Vec<u8>,
    pub private: bool,
    pub files: Vec<TorrentMetaInfo>,
    /// True where the torrent is a single file.
    pub single_file_mode: bool,
}

impl View for TorrentMetaInfo {
    type V = FileModel;

    open spec fn view(&self) -> FileModel {
        FileModel { path: text_views(self.path@), length: self.length }
    }
}

/// The mathematical values of files.
pub open spec fn file_views(v: Seq<TorrentMetaInfo>) -> Seq<FileModel> {
    Seq::new(v.len(), |i: int| v[i]@)
}

impl View for ValidatedTorrentMetaV1Info {
    type V = InfoModel;

    open spec fn view(&self) -> InfoModel {
        InfoModel {
            name: self.name@,
            piece_length: self.piece_length,
            pieces: self.pieces@,
            private: self.private,
            files: file_views(self.files@),
            single_file_mode: self.single_file_mode,
        }
    }
}

impl Clone for TorrentMetaInfo {
    fn clone(&self) -> (r: Self)
        ensures
            r@ == self@,
    {
        TorrentMetaInfo { path: copy_texts(&self.path), length: self.length }
    }
}

impl Clone for ValidatedTorrentMetaV1Info {
    fn clone(&self) -> (r: Self)
        ensures
            r@ == self@,
    {
        let mut files: Vec<TorrentMetaInfo> = Vec::new();
        let ghost all = file_views(self.files@);
        let mut i: usize = 0;
        assert(file_views(files@) =~= all.take(0));
        while i < self.files.len()
            invariant
                i <= self.files.len(),
                all == file_views(self.files@),
                file_views(files@) == all.take(i as int),
            decreases self.files.len() - i,
        {
            let ghost before = files@;
            let file = self.files[i].clone();
            let ghost f = file@;
            files.push(file);
            assert(file_views(files@) =~= file_views(before).push(f));
            assert(all.take(i + 1) =~= all.take(i as int).push(all[i as int]));
            i += 1;
        }
        assert(all.take(i as int) =~= all);
        let pieces = copy_range(self.pieces.as_slice(), 0, self.pieces.len());
        assert(pieces@ =~= self.pieces@);
        ValidatedTorrentMetaV1Info {
            name: self.name.as_str().to_string(),
            piece_length: self.piece_length,
            pieces,
            private: self.private,
            files,
            single_file_mode: self.single_file_mode,
        }
    }
}

/// The length of all files.
pub open spec fn files_length(files: Seq<FileModel>) -> nat {
    total(files, |f: FileModel| f.length as nat)
}

/// The components of a path.
pub open spec fn path_of(items: Seq<Bencode>) -> Result<Seq<Seq<char>>, MetaError>
    decreases items.len(),
{
    if items.len() == 0 {
        Ok(seq![])
    } else {
        match path_of(items.drop_last()) {
            Err(e) => Err(e),
            Ok(front) => match text_in(items.last()) {
                None => Err(MetaError::BadUtf8 { field: "file path" }),
                Some(s) => if unsafe_name(s) {
                    Err(MetaError::BadInfo("file path component unsafe"))
                } else {
                    Ok(front.push(s))
                },
            },
        }
    }
}

/// A file of a list of files.
pub open spec fn file_of(entry: Bencode) -> Result<FileModel, MetaError> {
    if !(entry is Dict) {
        Err(MetaError::BadInfo("files entry not dict"))
    } else {
        match int_field(entry, w_length()) {
            None => Err(MetaError::BadInfo("file length missing")),
            Some(length) => if length < 0 {
                Err(MetaError::BadInfo("file length negative"))
            } else {
                match list_field(entry, w_path()) {
                    None => Err(MetaError::BadInfo("file path missing")),
                    Some(items) => match path_of(items) {
                        Err(e) => Err(e),
                        Ok(path) => Ok(FileModel { path, length: length as u64 }),
                    },
                }
            },
        }
    }
}

/// The files of a list of files; the first that cannot be accepted decides the error.
pub open spec fn files_of(items: Seq<Bencode>) -> Result<Seq<FileModel>, MetaError>
    decreases items.len(),
{
    if items.len() == 0 {
        Ok(seq![])
    } else {
        match files_of(items.drop_last()) {
            Err(e) => Err(e),
            Ok(front) => match file_of(items.last()) {
                Err(e) => Err(e),
                Ok(f) => Ok(front.push(f)),
            },
        }
    }
}

/// The files of a torrent, and whether it is a single one.
pub open spec fn listed_files(v: Bencode, name: Seq<char>) -> Result<
    (Seq<FileModel>, bool),
    MetaError,
> {
    match list_field(v, w_files()) {
        Some(items) => match files_of(items) {
            Err(e) => Err(e),
            Ok(files) => Ok((files, false)),
        },
        None => match int_field(v, w_length()) {
            None => Err(MetaError::BadInfo("single-file length missing")),
            Some(length) => if length <= 0 {
                Err(MetaError::ZeroLength)
            } else {
                Ok((seq![FileModel { path: seq![name], length: length as u64 }], true))
            },
        },
    }
}

/// The description of a torrent, or why it cannot be accepted. The checks are made in this order.
pub open spec fn info_of(v: Bencode) -> Result<InfoModel, MetaError> {
    if !(v is Dict) {
        Err(MetaError::BadInfo("info not dict"))
    } else {
        match int_field(v, w_piece_length()) {
            None => Err(MetaError::BadInfo("piece length missing")),
            Some(piece_length) => if !(0 < piece_length <= u32::MAX) {
                Err(MetaError::BadInfo("piece length out of range"))
            } else {
                match bytes_field(v, w_pieces()) {
                    None => Err(MetaError::BadInfo("pieces missing")),
                    Some(pieces) => if pieces.len() == 0 || pieces.len() % 20 != 0 {
                        Err(MetaError::BadPieces)
                    } else {
                        match text_field(v, w_name()) {
                            None => Err(MetaError::BadUtf8 { field: "name" }),
                            Some(name) => if unsafe_name(name) {
                                Err(MetaError::BadInfo("torrent name unsafe"))
                            } else {
                                match listed_files(v, name) {
                                    Err(e) => Err(e),
                                    Ok((files, single_file_mode)) => if files_length(files)
                                        > u64::MAX {
                                        Err(MetaError::BadInfo("total file length overflow"))
                                    } else if files_length(files) == 0 {
                                        Err(MetaError::ZeroLength)
                                    } else {
                                        Ok(
                                            InfoModel {
                                                name,
                                                piece_length: piece_length as u32,
                                                pieces,
                                                private: is_private(v),
                                                files,
                                                single_file_mode,
                                            },
                                        )
                                    },
                                }
                            },
                        }
                    },
                }
            },
        }
    }
}

/// True of the torrents that may only be shared through their trackers.
pub open spec fn is_private(v: Bencode) -> bool {
    int_field(v, w_private()) matches Some(n) && n != 0
}

/// True of the torrents that may only be shared through their trackers.
pub fn private_flag(v: &Value) -> (r: bool)
    ensures
        r == is_private(v@),
{
    match v.int_at(words::private().as_slice()) {
        Some(n) => n != 0,
        None => false,
    }
}

fn read_path(items: &Vec<Value>) -> (r: Result<Vec<String>, MetaError>)
    ensures
        match path_of(model_list(items@)) {
            Ok(p) => r matches Ok(v) && text_views(v@) == p,
            Err(e) => r == Err::<Vec<String>, MetaError>(e),
        },
{
    let ghost all = model_list(items@);
    proof {
        lemma_model_list(items@);
        assert(all.take(0) =~= seq![]);
    }
    let mut out: Vec<String> = Vec::new();
    let mut i: usize = 0;
    assert(text_views(out@) =~= seq![]);
    while i < items.len()
        invariant
            i <= items.len(),
            all == model_list(items@),
            all.len() == items.len(),
            forall|j: int| 0 <= j < items.len() ==> #[trigger] all[j] == model(items@[j]),
            path_of(all.take(i as int)) == Ok::<Seq<Seq<char>>, MetaError>(text_views(out@)),
        decreases items.len() - i,
    {
        let ghost next = all.take(i + 1);
        proof {
            assert(next.drop_last() =~= all.take(i as int));
            assert(next.last() == items@[i as int]@);
        }
        let s = match items[i].as_str() {
            Some(s) => s,
            None => {
                proof {
                    lemma_path_error(all, i + 1);
                }
                return Err(MetaError::BadUtf8 { field: "file path" });
            },
        };
        if is_unsafe_name(s.as_str()) {
            proof {
                lemma_path_error(all, i + 1);
            }
            return Err(MetaError::BadInfo("file path component unsafe"));
        }
        let ghost before = out@;
        out.push(s);
        assert(text_views(out@) =~= text_views(before).push(s@));
        i += 1;
    }
    assert(all.take(i as int) =~= all);
    Ok(out)
}

proof fn lemma_path_error(items: Seq<Bencode>, i: int)
    requires
        0 <= i <= items.len(),
        path_of(items.take(i)) is Err,
    ensures
        path_of(items) == path_of(items.take(i)),
    decreases items.len(),
{
    if i < items.len() {
        assert(items.drop_last().take(i) =~= items.take(i));
        lemma_path_error(items.drop_last(), i);
    } else {
        assert(items.take(i) =~= items);
    }
}

fn read_file(entry: &Value) -> (r: Result<TorrentMetaInfo, MetaError>)
    ensures
        match file_of(entry@) {
            Ok(f) => r matches Ok(v) && v@ == f,
            Err(e) => r == Err::<TorrentMetaInfo, MetaError>(e),
        },
{
    if entry.as_dict().is_none() {
        return Err(MetaError::BadInfo("files entry not dict"));
    }
    let length: i64 = match entry.int_at(words::length().as_slice()) {
        Some(n) => n,
        None => {
            return Err(MetaError::BadInfo("file length missing"));
        },
    };
    if length < 0 {
        return Err(MetaError::BadInfo("file length negative"));
    }
    let items = match entry.list_at(words::path().as_slice()) {
        Some(items) => items,
        None => {
            return Err(MetaError::BadInfo("file path missing"));
        },
    };
    match read_path(items) {
        Ok(path) => Ok(TorrentMetaInfo { path, length: length as u64 }),
        Err(e) => Err(e),
    }
}

proof fn lemma_files_error(items: Seq<Bencode>, i: int)
    requires
        0 <= i <= items.len(),
        files_of(items.take(i)) is Err,
    ensures
        files_of(items) == files_of(items.take(i)),
    decreases items.len(),
{
    if i < items.len() {
        assert(items.drop_last().take(i) =~= items.take(i));
        lemma_files_error(items.drop_last(), i);
    } else {
        assert(items.take(i) =~= items);
    }
}

fn read_files(items: &Vec<Value>) -> (r: Result<Vec<TorrentMetaInfo>, MetaError>)
    ensures
        match files_of(model_list(items@)) {
            Ok(f) => r matches Ok(v) && file_views(v@) == f,
            Err(e) => r == Err::<Vec<TorrentMetaInfo>, MetaError>(e),
        },
{
    let ghost all = model_list(items@);
    proof {
        lemma_model_list(items@);
        assert(all.take(0) =~= seq![]);
    }
    let mut out: Vec<TorrentMetaInfo> = Vec::new();
    let mut i: usize = 0;
    assert(file_views(out@) =~= seq![]);
    while i < items.len()
        invariant
            i <= items.len(),
            all == model_list(items@),
            all.len() == items.len(),
            forall|j: int| 0 <= j < items.len() ==> #[trigger] all[j] == model(items@[j]),
            files_of(all.take(i as int)) == Ok::<Seq<FileModel>, MetaError>(file_views(out@)),
        decreases items.len() - i,
    {
        let ghost next = all.take(i + 1);
        proof {
            assert(next.drop_last() =~= all.take(i as int));
            assert(next.last() == items@[i as int]@);
        }
        match read_file(&items[i]) {
            Ok(f) => {
                let ghost before = out@;
                out.push(f);
                assert(file_views(out@) =~= file_views(before).push(f@));
            },
            Err(e) => {
                proof {
                    lemma_files_error(all, i + 1);
                }
                return Err(e);
            },
        }
        i += 1;
    }
    assert(all.take(i as int) =~= all);
    Ok(out)
}

proof fn lemma_length_grows(files: Seq<FileModel>, i: int)
    requires
        0 <= i <= files.len(),
    ensures
        files_length(files.take(i)) <= files_length(files),
    decreases files.len(),
{
    if i < files.len() {
        lemma_length_grows(files.drop_last(), i);
        assert(files.drop_last().take(i) =~= files.take(i));
    } else {
        assert(files.take(i) =~= files);
    }
}

/// The length of all files, where it can be counted.
pub fn checked_length(files: &Vec<TorrentMetaInfo>) -> (r: Option<u64>)
    ensures
        match r {
            Some(n) => n == files_length(file_views(files@)),
            None => files_length(file_views(files@)) > u64::MAX,
        },
{
    let ghost all = file_views(files@);
    let mut n: u64 = 0;
    let mut i: usize = 0;
    assert(all.take(0) =~= seq![]);
    while i < files.len()
        invariant
            i <= files.len(),
            all == file_views(files@),
            n == files_length(all.take(i as int)),
        decreases files.len() - i,
    {
        proof {
            assert(all.take(i + 1).drop_last() =~= all.take(i as int));
            assert(all.take(i + 1).last() == files@[i as int]@);
            lemma_length_grows(all, i + 1);
        }
        match n.checked_add(files[i].length) {
            Some(next) => {
                n = next;
            },
            None => {
                return None;
            },
        }
        i += 1;
    }
    assert(all.take(i as int) =~= all);
    Some(n)
}

fn read_listed(v: &Value, name: &String) -> (r: Result<(Vec<TorrentMetaInfo>, bool), MetaError>)
    ensures
        match listed_files(v@, name@) {
            Ok(p) => r matches Ok(q) && file_views(q.0@) == p.0 && q.1 == p.1,
            Err(e) => r == Err::<(Vec<TorrentMetaInfo>, bool), MetaError>(e),
        },
{
    match v.list_at(words::files().as_slice()) {
        Some(items) => {
            return match read_files(items) {
                Ok(files) => Ok((files, false)),
                Err(e) => Err(e),
            };
        },
        None => {},
    }
    let length: i64 = match v.int_at(words::length().as_slice()) {
        Some(n) => n,
        None => {
            return Err(MetaError::BadInfo("single-file length missing"));
        },
    };
    if length <= 0 {
        return Err(MetaError::ZeroLength);
    }
    let mut path: Vec<String> = Vec::new();
    path.push(name.clone());
    assert(text_views(path@) =~= seq![name@]);
    let mut files: Vec<TorrentMetaInfo> = Vec::new();
    files.push(TorrentMetaInfo { path, length: length as u64 });
    assert(file_views(files@) =~= seq![FileModel { path: seq![name@], length: length as u64 }]);
    Ok((files, true))
}

/// Read the description of a torrent.
pub fn validate_info(v: &Value) -> (r: Result<ValidatedTorrentMetaV1Info, MetaError>)
    ensures
        match info_of(v@) {
            Ok(i) => r matches Ok(x) && x@ == i,
            Err(e) => r == Err::<ValidatedTorrentMetaV1Info, MetaError>(e),
        },
{
    if v.as_dict().is_none() {
        return Err(MetaError::BadInfo("info not dict"));
    }
    let piece_length: i64 = match v.int_at(words::piece_length().as_slice()) {
        Some(n) => n,
        None => {
            return Err(MetaError::BadInfo("piece length missing"));
        },
    };
    if piece_length <= 0 || piece_length > 4_294_967_295 {
        return Err(MetaError::BadInfo("piece length out of range"));
    }
    let pieces = match v.bytes_at(words::pieces().as_slice()) {
        Some(b) => b,
        None => {
            return Err(MetaError::BadInfo("pieces missing"));
        },
    };
    if pieces.len() == 0 || pieces.len() % 20 != 0 {
        return Err(MetaError::BadPieces);
    }
    let name = match v.text_at(words::name().as_slice()) {
        Some(s) => s,
        None => {
            return Err(MetaError::BadUtf8 { field: "name" });
        },
    };
    if is_unsafe_name(name.as_str()) {
        return Err(MetaError::BadInfo("torrent name unsafe"));
    }
    let (files, single_file_mode) = match read_listed(v, &name) {
        Ok(p) => p,
        Err(e) => {
            return Err(e);
        },
    };
    match checked_length(&files) {
        None => {
            return Err(MetaError::BadInfo("total file length overflow"));
        },
        Some(n) => {
            if n == 0 {
                return Err(MetaError::ZeroLength);
            }
        },
    }
    let copy = copy_range(pieces.as_slice(), 0, pieces.len());
    assert(copy@ =~= pieces@);
    let r = ValidatedTorrentMetaV1Info {
        name,
        piece_length: piece_length as u32,
        pieces: copy,
        private: private_flag(v),
        files,
        single_file_mode,
    };
    Ok(r)
}

/// True when no component of a path leads out of the directory of the torrent.
pub open spec fn safe_path(path: Seq<Seq<char>>) -> bool {
    forall|i: int| 0 <= i < path.len() ==> !unsafe_name(#[trigger] path[i])
}

proof fn lemma_safe_path(items: Seq<Bencode>)
    requires
        path_of(items) is Ok,
    ensures
        safe_path(path_of(items)->Ok_0),
    decreases items.len(),
{
    if items.len() > 0 {
        lemma_safe_path(items.drop_last());
    }
}

proof fn lemma_safe_files(items: Seq<Bencode>)
    requires
        files_of(items) is Ok,
    ensures
        forall|i: int|
            0 <= i < files_of(items)->Ok_0.len() ==> safe_path(
                (#[trigger] files_of(items)->Ok_0[i]).path,
            ),
    decreases items.len(),
{
    if items.len() > 0 {
        lemma_safe_files(items.drop_last());
        match list_field(items.last(), w_path()) {
            Some(p) => {
                lemma_safe_path(p);
            },
            None => {},
        }
    }
}

/// A torrent that is accepted stays inside its directory, has a whole number of piece digests,
/// and a length that is neither zero nor too large to count.
pub proof fn accepted_torrents_stay_inside(v: Bencode)
    requires
        info_of(v) is Ok,
    ensures
        ({
            let info = info_of(v)->Ok_0;
            &&& !unsafe_name(info.name)
            &&& forall|i: int|
                0 <= i < info.files.len() ==> safe_path((#[trigger] info.files[i]).path)
            &&& info.pieces.len() > 0
            &&& info.pieces.len() % 20 == 0
            &&& info.piece_length > 0
            &&& 0 < files_length(info.files) <= u64::MAX
        }),
{
    match list_field(v, w_files()) {
        Some(items) => {
            lemma_safe_files(items);
        },
        None => {},
    }
}

impl ValidatedTorrentMetaV1Info {
    /// The length of all files.
    pub fn total_length(&self) -> (r: u64)
        requires
            files_length(self@.files) <= u64::MAX,
        ensures
            r == files_length(self@.files),
    {
        match checked_length(&self.files) {
            Some(n) => n,
            None => 0,
        }
    }

    /// How many pieces there are: as many as there are digests, or as the length asks for where
    /// there are none. The count is kept in 32 bits.
    pub fn piece_count(&self) -> (r: u32)
        requires
            files_length(self@.files) <= u64::MAX,
        ensures
            r == pieces_counted(self@),
    {
        if self.pieces.len() == 0 {
            let n: u64 = self.total_length();
            if self.piece_length == 0 || n == 0 {
                return 0;
            }
            let p: u64 = self.piece_length as u64;
            proof {
                let (a, b) = (n as int, p as int);
                if b >= 2 {
                    assert(a / b <= a / 2) by (nonlinear_arith)
                        requires
                            a >= 0,
                            b >= 2,
                    ;
                }
            }
            (if n % p == 0 {
                n / p
            } else {
                n / p + 1
            }) as u32
        } else {
            (self.pieces.len() / 20) as u32
        }
    }

    /// Each file with its path as one text.
    pub fn iter_file_details(&self) -> (r: Vec<FileDetails>)
        ensures
            r.len() == self.files.len(),
            forall|i: int|
                0 <= i < r.len() ==> (#[trigger] r@[i]).filename@ == joined_path(
                    self@.files[i].path,
                ) && r@[i].len == self@.files[i].length,
    {
        let mut out: Vec<FileDetails> = Vec::new();
        let mut i: usize = 0;
        while i < self.files.len()
            invariant
                i <= self.files.len(),
                out.len() == i,
                forall|j: int|
                    0 <= j < i ==> (#[trigger] out@[j]).filename@ == joined_path(
                        self@.files[j].path,
                    ) && out@[j].len == self@.files[j].length,
            decreases self.files.len() - i,
        {
            let f = &self.files[i];
            let filename = join_path(&f.path);
            out.push(FileDetails { filename, len: f.length });
            i += 1;
        }
        out
    }
}

/// How many pieces a torrent has, in 32 bits.
pub open spec fn pieces_counted(info: InfoModel) -> u32 {
    let n = files_length(info.files);
    let p = info.piece_length as nat;
    if info.pieces.len() > 0 {
        (info.pieces.len() / 20) as u32
    } else if p == 0 || n == 0 {
        0
    } else if n % p == 0 {
        (n / p) as u32
    } else {
        (n / p + 1) as u32
    }
}

/// A file as it is shown.
#[derive(Debug, Clone)]
pub struct FileDetails {
    pub filename: String,
    pub len: u64,
}

/// The components of a path with slashes between them.
pub open spec fn joined_path(path: Seq<Seq<char>>) -> Seq<char>
    decreases path.len(),
{
    if path.len() == 0 {
        seq![]
    } else if path.len() == 1 {
        path[0]
    } else {
        joined_path(path.drop_last()) + "/"@ + path.last()
    }
}

/// The components of a path with slashes between them.
pub fn join_path(path: &Vec<String>) -> (r: String)
    ensures
        r@ == joined_path(text_views(path@)),
{
    let ghost all = text_views(path@);
    if path.len() == 0 {
        return String::new();
    }
    let mut out = path[0].clone();
    let mut i: usize = 1;
    assert(joined_path(all.take(1)) =~= all[0]);
    while i < path.len()
        invariant
            1 <= i <= path.len(),
            all == text_views(path@),
            out@ == joined_path(all.take(i as int)),
        decreases path.len() - i,
    {
        assert(all.take(i + 1).drop_last() =~= all.take(i as int));
        out.append("/");
        out.append(path[i].as_str());
        i += 1;
    }
    assert(all.take(i as int) =~= all);
    out
}

} // verus!
