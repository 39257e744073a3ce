//! The description of a torrent in its second version: a tree of files, each with its own digest.

use vstd::prelude::*;

use crate::bencode::{
    bytes_field, copy_range, field, int_field, lemma_model_entries, model,
    model_entries, text_field, Bencode, Value,
};
use crate::meta::hash::{id32_of, Id32};
use crate::meta::metainfo::info::{is_private, is_unsafe_name, private_flag, safe_path, unsafe_name};
use crate::meta::metainfo::MetaError;
use crate::ranked::{put_in_order, rank, ranked, ranked_has, ranked_put, ranking};
use crate::sums::total;
use crate::text::{read_text, text_of, text_views};
use crate::words;
use crate::words::{
    w_file_tree, w_length, w_meta_version, w_name, w_piece_length, w_pieces_root,
};

verus! {

/// A tree of files.
pub enum TreeModel {
    Dir(Seq<(Seq<u8>, TreeModel)>),
    File { length: u64, pieces_root: Option<Id32> },
}

/// A tree of files: the children of a directory stand in the order of their names.
#[derive(Debug)]
pub enum FileTreeNode {
    Dir(Vec<(Vec<u8>, FileTreeNode)>),
    File { length: u64, pieces_root: Option<Id32> },
}

/// The mathematical value of a tree.
pub open spec fn tree_model(n: FileTreeNode) -> TreeModel
    decreases n,
{
    match n {
        FileTreeNode::Dir(c) => TreeModel::Dir(tree_models(c@)),
        FileTreeNode::File { length, pieces_root } => TreeModel::File { length, pieces_root },
    }
}

/// The mathematical values of the children of a directory.
pub open spec fn tree_models(s: Seq<(Vec<u8>, FileTreeNode)>) -> Seq<(Seq<u8>, TreeModel)>
    decreases s,
{
    if s.len() == 0 {
        seq![]
    } else {
        tree_models(s.drop_last()).push((s.last().0@, tree_model(s.last().1)))
    }
}

impl View for FileTreeNode {
    type V = TreeModel;

    open spec fn view(&self) -> TreeModel {
        tree_model(*self)
    }
}

proof fn lemma_tree_models(s: Seq<(Vec<u8>, FileTreeNode)>)
    ensures
        tree_models(s) == ranking(s),
    decreases s.len(),
{
    if s.len() > 0 {
        lemma_tree_models(s.drop_last());
        assert(tree_models(s) =~= ranking(s));
    } else {
        assert(tree_models(s) =~= ranking(s));
    }
}

fn copy_tree(n: &FileTreeNode) -> (r: FileTreeNode)
    ensures
        tree_model(r) == tree_model(*n),
    decreases n,
{
    match n {
        FileTreeNode::Dir(c) => FileTreeNode::Dir(copy_children(c)),
        FileTreeNode::File { length, pieces_root } => FileTreeNode::File {
            length: *length,
            pieces_root: *pieces_root,
        },
    }
}

fn copy_children(c: &Vec<(Vec<u8>, FileTreeNode)>) -> (r: Vec<(Vec<u8>, FileTreeNode)>)
    ensures
        tree_models(r@) == tree_models(c@),
    decreases c,
{
    let mut out: Vec<(Vec<u8>, FileTreeNode)> = Vec::new();
    let mut i: usize = 0;
    while i < c.len()
        invariant
            i <= c.len(),
            tree_models(out@) == tree_models(c@.take(i as int)),
        decreases c.len() - i,
    {
        let ghost before = out@;
        proof {
            assert(decreases_to!(c => c@[i as int]));
            assert(c@.take(i + 1).drop_last() =~= c@.take(i as int));
        }
        let name = copy_range(c[i].0.as_slice(), 0, c[i].0.len());
        assert(name@ =~= c@[i as int].0@);
        out.push((name, copy_tree(&c[i].1)));
        assert(out@.drop_last() =~= before);
        i += 1;
    }
    assert(c@.take(i as int) =~= c@);
    out
}

impl Clone for FileTreeNode {
    fn clone(&self) -> (r: Self)
        ensures
            r@ == self@,
    {
        copy_tree(self)
    }
}

/// A file at the end of a branch.
pub open spec fn leaf_of(leaf: Bencode) -> Result<TreeModel, MetaError> {
    if !(leaf is Dict) {
        Err(MetaError::BadInfoV2("file tree leaf payload not dict"))
    } else {
        match int_field(leaf, w_length()) {
            None => Err(MetaError::BadInfoV2("file tree leaf length missing")),
            Some(length) => if length < 0 {
                Err(MetaError::BadInfoV2("file tree leaf length negative"))
            } else {
                match bytes_field(leaf, w_pieces_root()) {
                    Some(b) => if b.len() != 32 {
                        Err(MetaError::BadInfoV2("pieces root not 32 bytes"))
                    } else {
                        Ok(
                            TreeModel::File {
                                length: length as u64,
                                pieces_root: Some(id32_of(b)),
                            },
                        )
                    },
                    None => if length > 0 {
                        Err(
                            MetaError::BadInfoV2(
                                "file tree leaf missing pieces root for non-empty file",
                            ),
                        )
                    } else {
                        Ok(TreeModel::File { length: 0, pieces_root: None })
                    },
                }
            },
        }
    }
}

/// A tree of files: a dictionary with nothing but an empty key is a file, any other a directory.
pub open spec fn tree_of(v: Bencode) -> Result<TreeModel, MetaError>
    decreases v,
{
    match v {
        Bencode::Dict(d) => if d.len() == 1 && d[0].0.len() == 0 {
            leaf_of(d[0].1)
        } else {
            match children_of(d) {
                Ok(c) => Ok(TreeModel::Dir(c)),
                Err(e) => Err(e),
            }
        },
        _ => Err(MetaError::BadInfoV2("file tree node not dict")),
    }
}

/// The children of a directory in the order of their names; of two with one name the later counts.
pub open spec fn children_of(d: Seq<(Seq<u8>, Bencode)>) -> Result<
    Seq<(Seq<u8>, TreeModel)>,
    MetaError,
>
    decreases d,
{
    if d.len() == 0 {
        Ok(seq![])
    } else {
        match children_of(d.drop_last()) {
            Err(e) => Err(e),
            Ok(front) => match text_of(d.last().0) {
                None => Err(MetaError::BadUtf8 { field: "file tree key" }),
                Some(name) => if unsafe_name(name) {
                    Err(MetaError::BadInfoV2("file tree key unsafe"))
                } else {
                    match tree_of(d.last().1) {
                        Err(e) => Err(e),
                        Ok(t) => Ok(ranked_put(front, d.last().0, t)),
                    }
                },
            },
        }
    }
}

fn read_leaf(leaf: &Value) -> (r: Result<FileTreeNode, MetaError>)
    ensures
        match leaf_of(leaf@) {
            Ok(t) => r matches Ok(n) && n@ == t,
            Err(e) => r == Err::<FileTreeNode, MetaError>(e),
        },
{
    if leaf.as_dict().is_none() {
        return Err(MetaError::BadInfoV2("file tree leaf payload not dict"));
    }
    let length: i64 = match leaf.int_at(words::length().as_slice()) {
        Some(n) => n,
        None => {
            return Err(MetaError::BadInfoV2("file tree leaf length missing"));
        },
    };
    if length < 0 {
        return Err(MetaError::BadInfoV2("file tree leaf length negative"));
    }
    match leaf.bytes_at(words::pieces_root().as_slice()) {
        Some(b) => match Id32::from_slice(b.as_slice()) {
            Some(root) => Ok(
                FileTreeNode::File { length: length as u64, pieces_root: Some(root) },
            ),
            None => Err(MetaError::BadInfoV2("pieces root not 32 bytes")),
        },
        None => {
            if length > 0 {
                return Err(
                    MetaError::BadInfoV2("file tree leaf missing pieces root for non-empty file"),
                );
            }
            Ok(FileTreeNode::File { length: 0, pieces_root: None })
        },
    }
}

proof fn lemma_children_error(d: Seq<(Seq<u8>, Bencode)>, i: int)
    requires
        0 <= i <= d.len(),
        children_of(d.take(i)) is Err,
    ensures
        children_of(d) == children_of(d.take(i)),
    decreases d.len(),
{
    if i < d.len() {
        assert(d.drop_last().take(i) =~= d.take(i));
        lemma_children_error(d.drop_last(), i);
    } else {
        assert(d.take(i) =~= d);
    }
}

/// Read a tree of files.
pub fn parse_file_tree(value: &Value) -> (r: Result<FileTreeNode, MetaError>)
    ensures
        match tree_of(value@) {
            Ok(t) => r matches Ok(n) && n@ == t,
            Err(e) => r == Err::<FileTreeNode, MetaError>(e),
        },
    decreases value,
{
    match value {
        Value::Dict(d) => {
            proof {
                lemma_model_entries(d@);
            }
            if d.len() == 1 && d[0].0.len() == 0 {
                return read_leaf(&d[0].1);
            }
            match read_children(d) {
                Ok(c) => {
                    proof {
                        lemma_tree_models(c@);
                    }
                    Ok(FileTreeNode::Dir(c))
                },
                Err(e) => Err(e),
            }
        },
        _ => Err(MetaError::BadInfoV2("file tree node not dict")),
    }
}

fn read_children(d: &Vec<(Vec<u8>, Value)>) -> (r: Result<Vec<(Vec<u8>, FileTreeNode)>, MetaError>)
    ensures
        match children_of(model_entries(d@)) {
            Ok(c) => r matches Ok(v) && ranking(v@) == c,
            Err(e) => r == Err::<Vec<(Vec<u8>, FileTreeNode)>, MetaError>(e),
        },
    decreases d,
{
    let ghost all = model_entries(d@);
    let mut out: Vec<(Vec<u8>, FileTreeNode)> = Vec::new();
    let mut i: usize = 0;
    proof {
        lemma_model_entries(d@);
        assert(all.take(0) =~= seq![]);
        assert(ranking(out@) =~= seq![]);
    }
    while i < d.len()
        invariant
            i <= d.len(),
            all == model_entries(d@),
            all.len() == d.len(),
            forall|j: int|
                0 <= j < d.len() ==> #[trigger] all[j] == (d@[j].0@, model(d@[j].1)),
            children_of(all.take(i as int)) == Ok::<Seq<(Seq<u8>, TreeModel)>, MetaError>(
                ranking(out@),
            ),
            ranked(ranking(out@)),
        decreases d.len() - i,
    {
        let ghost next = all.take(i + 1);
        proof {
            assert(decreases_to!(d => d@[i as int]));
            assert(next.drop_last() =~= all.take(i as int));
            assert(next.last() == all[i as int]);
        }
        let name = match read_text(d[i].0.as_slice()) {
            Some(name) => name,
            None => {
                proof {
                    lemma_children_error(all, i + 1);
                }
                return Err(MetaError::BadUtf8 { field: "file tree key" });
            },
        };
        if is_unsafe_name(name.as_str()) {
            proof {
                lemma_children_error(all, i + 1);
            }
            return Err(MetaError::BadInfoV2("file tree key unsafe"));
        }
        match parse_file_tree(&d[i].1) {
            Ok(node) => {
                let key = copy_range(d[i].0.as_slice(), 0, d[i].0.len());
                assert(key@ =~= d@[i as int].0@);
                put_in_order(&mut out, key, node);
            },
            Err(e) => {
                proof {
                    lemma_children_error(all, i + 1);
                }
                return Err(e);
            },
        }
        i += 1;
    }
    assert(all.take(i as int) =~= all);
    Ok(out)
}

/// A file of the tree: its place, its length and the digest of its pieces.
#[verifier::ext_equal]
pub struct FileV2Model {
    pub path: Seq<Seq<char>>,
    pub length: u64,
    pub pieces_root: Id32,
}

/// A file of the tree: its place, its length and the digest of its pieces.
#[derive(Debug, Clone)]
pub struct TorrentMetaInfoV2 {
    pub path: Vec<String>,
    pub length: u64,
    pub pieces_root: Id32,
}

impl View for TorrentMetaInfoV2 {
    type V = FileV2Model;

    open spec fn view(&self) -> FileV2Model {
        FileV2Model {
            path: text_views(self.path@),
            length: self.length,
            pieces_root: self.pieces_root,
        }
    }
}

/// The mathematical values of files.
pub open spec fn file_v2_views(v: Seq<TorrentMetaInfoV2>) -> Seq<FileV2Model> {
    Seq::new(v.len(), |i: int| v[i]@)
}

/// The files of a tree that hold anything, in the order of their names.
pub open spec fn flat_of(t: TreeModel, path: Seq<Seq<char>>) -> Result<Seq<FileV2Model>, MetaError>
    decreases t,
{
    match t {
        TreeModel::Dir(c) => flat_children(c, path),
        TreeModel::File { length, pieces_root } => if length == 0 {
            Ok(seq![])
        } else {
            match pieces_root {
                None => Err(MetaError::BadInfoV2("non-empty file missing pieces root")),
                Some(root) => Ok(seq![FileV2Model { path, length, pieces_root: root }]),
            }
        },
    }
}

/// The files below a directory.
pub open spec fn flat_children(c: Seq<(Seq<u8>, TreeModel)>, path: Seq<Seq<char>>) -> Result<
    Seq<FileV2Model>,
    MetaError,
>
    decreases c,
{
    if c.len() == 0 {
        Ok(seq![])
    } else {
        match flat_children(c.drop_last(), path) {
            Err(e) => Err(e),
            Ok(front) => match text_of(c.last().0) {
                None => Err(MetaError::BadUtf8 { field: "file tree key" }),
                Some(name) => match flat_of(c.last().1, path.push(name)) {
                    Err(e) => Err(e),
                    Ok(files) => Ok(front + files),
                },
            },
        }
    }
}

proof fn lemma_flat_error(c: Seq<(Seq<u8>, TreeModel)>, path: Seq<Seq<char>>, i: int)
    requires
        0 <= i <= c.len(),
        flat_children(c.take(i), path) is Err,
    ensures
        flat_children(c, path) == flat_children(c.take(i), path),
    decreases c.len(),
{
    if i < c.len() {
        assert(c.drop_last().take(i) =~= c.take(i));
        lemma_flat_error(c.drop_last(), path, i);
    } else {
        assert(c.take(i) =~= c);
    }
}

fn copy_path(path: &Vec<String>) -> (r: Vec<String>)
    ensures
        text_views(r@) == text_views(path@),
{
    let mut out: Vec<String> = Vec::new();
    let mut i: usize = 0;
    assert(text_views(out@) =~= text_views(path@).take(0));
    while i < path.len()
        invariant
            i <= path.len(),
            text_views(out@) == text_views(path@).take(i as int),
        decreases path.len() - i,
    {
        let ghost before = out@;
        out.push(path[i].clone());
        proof {
            assert(text_views(out@) =~= text_views(before).push(path@[i as int]@));
            assert(text_views(out@) =~= text_views(path@).take(i + 1));
        }
        i += 1;
    }
    assert(text_views(out@) =~= text_views(path@));
    out
}

/// List the files of a tree.
pub fn flatten_file_tree(
    node: &FileTreeNode,
    path: &mut Vec<String>,
    out: &mut Vec<TorrentMetaInfoV2>,
) -> (r: Result<(), MetaError>)
    ensures
        match flat_of(node@, text_views(old(path)@)) {
            Ok(files) => r is Ok && file_v2_views(final(out)@) == file_v2_views(old(out)@) + files
                && text_views(final(path)@) == text_views(old(path)@),
            Err(e) => r == Err::<(), MetaError>(e),
        },
    decreases node,
{
    match node {
        FileTreeNode::Dir(c) => flatten_children(c, path, out),
        FileTreeNode::File { length, pieces_root } => {
            if *length == 0 {
                assert(file_v2_views(out@) + Seq::<FileV2Model>::empty() =~= file_v2_views(out@));
                return Ok(());
            }
            match pieces_root {
                None => Err(MetaError::BadInfoV2("non-empty file missing pieces root")),
                Some(root) => {
                    let file = TorrentMetaInfoV2 {
                        path: copy_path(path),
                        length: *length,
                        pieces_root: *root,
                    };
                    out.push(file);
                    assert(file_v2_views(out@) =~= file_v2_views(old(out)@) + seq![file@]);
                    Ok(())
                },
            }
        },
    }
}

fn flatten_children(
    c: &Vec<(Vec<u8>, FileTreeNode)>,
    path: &mut Vec<String>,
    out: &mut Vec<TorrentMetaInfoV2>,
) -> (r: Result<(), MetaError>)
    ensures
        match flat_children(tree_models(c@), text_views(old(path)@)) {
            Ok(files) => r is Ok && file_v2_views(final(out)@) == file_v2_views(old(out)@) + files
                && text_views(final(path)@) == text_views(old(path)@),
            Err(e) => r == Err::<(), MetaError>(e),
        },
    decreases c,
{
    let ghost all = tree_models(c@);
    let ghost here = text_views(path@);
    let mut i: usize = 0;
    proof {
        lemma_tree_models(c@);
        assert(all.take(0) =~= seq![]);
        assert(file_v2_views(out@) + Seq::<FileV2Model>::empty() =~= file_v2_views(out@));
    }
    while i < c.len()
        invariant
            i <= c.len(),
            all == tree_models(c@),
            all == ranking(c@),
            here == text_views(old(path)@),
            text_views(path@) == here,
            flat_children(all.take(i as int), here) matches Ok(files) && file_v2_views(out@)
                == file_v2_views(old(out)@) + files,
        decreases c.len() - i,
    {
        let ghost next = all.take(i + 1);
        let ghost before = path@;
        let ghost listed = file_v2_views(out@);
        proof {
            assert(decreases_to!(c => c@[i as int]));
            assert(next.drop_last() =~= all.take(i as int));
            assert(next.last() == (c@[i as int].0@, c@[i as int].1@));
        }
        let name = match read_text(c[i].0.as_slice()) {
            Some(name) => name,
            None => {
                proof {
                    lemma_flat_error(all, here, i + 1);
                }
                return Err(MetaError::BadUtf8 { field: "file tree key" });
            },
        };
        path.push(name);
        assert(text_views(path@) =~= here.push(name@));
        match flatten_file_tree(&c[i].1, path, out) {
            Ok(_) => {},
            Err(e) => {
                proof {
                    lemma_flat_error(all, here, i + 1);
                }
                return Err(e);
            },
        }
        let ghost deeper = path@;
        let _ = path.pop();
        proof {
            assert(text_views(deeper).len() == deeper.len());
            assert(text_views(path@) =~= text_views(deeper).drop_last());
            assert(here.push(name@).drop_last() =~= here);
            let front = flat_children(all.take(i as int), here)->Ok_0;
            let files = flat_of(c@[i as int].1@, here.push(name@))->Ok_0;
            assert(file_v2_views(old(out)@) + (front + files) =~= (file_v2_views(old(out)@) + front)
                + files);
        }
        i += 1;
    }
    assert(all.take(i as int) =~= all);
    Ok(())
}

/// True of the powers of two.
pub open spec fn power_of_two(n: nat) -> bool
    decreases n,
{
    n == 1 || (n > 1 && n % 2 == 0 && power_of_two(n / 2))
}

fn is_power_of_two(n: u32) -> (r: bool)
    ensures
        r == power_of_two(n as nat),
{
    let mut m: u32 = n;
    while m > 1 && m % 2 == 0
        invariant
            power_of_two(n as nat) == power_of_two(m as nat),
        decreases m,
    {
        m = m / 2;
    }
    m == 1
}

/// The description of a torrent in its second version.
#[verifier::ext_equal]
pub struct InfoV2Model {
    pub name: Seq<char>,
    pub piece_length: u32,
    pub private: bool,
    pub files: Seq<FileV2Model>,
}

/// The description of a torrent in its second version.
#[derive(Debug, Clone)]
pub struct ValidatedTorrentMetaV2Info {
    pub name: String,
    pub piece_length: u32,
    pub private: bool,
    pub files: Vec<TorrentMetaInfoV2>,
}

impl View for ValidatedTorrentMetaV2Info {
    type V = InfoV2Model;

    open spec fn view(&self) -> InfoV2Model {
        InfoV2Model {
            name: self.name@,
            piece_length: self.piece_length,
            private: self.private,
            files: file_v2_views(self.files@),
        }
    }
}

/// The length of all files.
pub open spec fn files_v2_length(files: Seq<FileV2Model>) -> nat {
    total(files, |f: FileV2Model| f.length as nat)
}

/// The files of the tree of a torrent.
pub open spec fn tree_files(v: Bencode) -> Result<Seq<FileV2Model>, MetaError> {
    match field(v, w_file_tree()) {
        None => Err(MetaError::BadInfoV2("file tree missing")),
        Some(tree) => match tree_of(tree) {
            Err(e) => Err(e),
            Ok(t) => flat_of(t, seq![]),
        },
    }
}

/// The description of a torrent in its second version, or why it cannot be accepted. The checks
/// are made in this order.
pub open spec fn info_v2_of(v: Bencode) -> Result<InfoV2Model, MetaError> {
    if !(v is Dict) {
        Err(MetaError::BadInfoV2("info not dict"))
    } else if int_field(v, w_meta_version()) is None {
        Err(MetaError::BadInfoV2("meta version missing"))
    } else if int_field(v, w_meta_version()) != Some(2int) {
        Err(MetaError::BadInfoV2("unsupported meta version"))
    } else {
        match int_field(v, w_piece_length()) {
            None => Err(MetaError::BadInfoV2("piece length missing")),
            Some(n) => if !(0 < n <= u32::MAX) {
                Err(MetaError::BadInfoV2("piece length out of range"))
            } else if n < 16384 || !power_of_two(n as nat) {
                Err(
                    MetaError::BadInfoV2("piece length must be a power of two and >= 16 KiB"),
                )
            } else {
                match text_field(v, w_name()) {
                    None => Err(MetaError::BadUtf8 { field: "v2 name" }),
                    Some(name) => if unsafe_name(name) {
                        Err(MetaError::BadInfoV2("v2 name unsafe"))
                    } else {
                        match tree_files(v) {
                            Err(e) => Err(e),
                            Ok(files) => if files.len() == 0 {
                                Err(MetaError::BadInfoV2("file tree has no files"))
                            } else if files_v2_length(files) > u64::MAX {
                                Err(MetaError::BadInfoV2("total file length overflow"))
                            } else if files_v2_length(files) == 0 {
                                Err(MetaError::ZeroLength)
                            } else {
                                Ok(
                                    InfoV2Model {
                                        name,
                                        piece_length: n as u32,
                                        private: is_private(v),
                                        files,
                                    },
                                )
                            },
                        }
                    },
                }
            },
        }
    }
}

proof fn lemma_length_grows(files: Seq<FileV2Model>, i: int)
    requires
        0 <= i <= files.len(),
    ensures
        files_v2_length(files.take(i)) <= files_v2_length(files),
    decreases files.len(),
{
    if i < files.len() {
        lemma_length_grows(files.drop_last(), i);
        assert(files.drop_last().take(i) =~= files.take(i));
    } else {
        assert(files.take(i) =~= files);
    }
}

fn checked_v2_length(files: &Vec<TorrentMetaInfoV2>) -> (r: Option<u64>)
    ensures
        match r {
            Some(n) => n == files_v2_length(file_v2_views(files@)),
            None => files_v2_length(file_v2_views(files@)) > u64::MAX,
        },
{
    let ghost all = file_v2_views(files@);
    let mut n: u64 = 0;
    let mut i: usize = 0;
    assert(all.take(0) =~= seq![]);
    while i < files.len()
        invariant
            i <= files.len(),
            all == file_v2_views(files@),
            n == files_v2_length(all.take(i as int)),
        decreases files.len() - i,
    {
        proof {
            assert(all.take(i + 1).drop_last() =~= all.take(i as int));
            assert(all.take(i + 1).last() == files@[i as int]@);
            lemma_length_grows(all, i + 1);
        }
        match n.checked_add(files[i].length) {
            Some(next) => {
                n = next;
            },
            None => {
                return None;
            },
        }
        i += 1;
    }
    assert(all.take(i as int) =~= all);
    Some(n)
}

fn read_tree_files(v: &Value) -> (r: Result<Vec<TorrentMetaInfoV2>, MetaError>)
    ensures
        match tree_files(v@) {
            Ok(f) => r matches Ok(x) && file_v2_views(x@) == f,
            Err(e) => r == Err::<Vec<TorrentMetaInfoV2>, MetaError>(e),
        },
{
    let tree = match v.get(words::file_tree().as_slice()) {
        Some(t) => t,
        None => {
            return Err(MetaError::BadInfoV2("file tree missing"));
        },
    };
    let node = match parse_file_tree(tree) {
        Ok(n) => n,
        Err(e) => {
            return Err(e);
        },
    };
    let mut path: Vec<String> = Vec::new();
    let mut files: Vec<TorrentMetaInfoV2> = Vec::new();
    proof {
        assert(text_views(path@) =~= seq![]);
        assert(file_v2_views(files@) =~= seq![]);
    }
    match flatten_file_tree(&node, &mut path, &mut files) {
        Ok(_) => {
            let ghost f = flat_of(node@, seq![])->Ok_0;
            assert(Seq::<FileV2Model>::empty() + f =~= f);
            Ok(files)
        },
        Err(e) => Err(e),
    }
}

/// Read the description of a torrent in its second version.
pub fn validate_info_v2(v: &Value) -> (r: Result<ValidatedTorrentMetaV2Info, MetaError>)
    ensures
        match info_v2_of(v@) {
            Ok(i) => r matches Ok(x) && x@ == i,
            Err(e) => r == Err::<ValidatedTorrentMetaV2Info, MetaError>(e),
        },
{
    if v.as_dict().is_none() {
        return Err(MetaError::BadInfoV2("info not dict"));
    }
    let version: i64 = match v.int_at(words::meta_version().as_slice()) {
        Some(n) => n,
        None => {
            return Err(MetaError::BadInfoV2("meta version missing"));
        },
    };
    if version != 2 {
        return Err(MetaError::BadInfoV2("unsupported meta version"));
    }
    let piece_length: i64 = match v.int_at(words::piece_length().as_slice()) {
        Some(n) => n,
        None => {
            return Err(MetaError::BadInfoV2("piece length missing"));
        },
    };
    if piece_length <= 0 || piece_length > 4_294_967_295 {
        return Err(MetaError::BadInfoV2("piece length out of range"));
    }
    let piece_length: u32 = piece_length as u32;
    if piece_length < 16384 || !is_power_of_two(piece_length) {
        return Err(MetaError::BadInfoV2("piece length must be a power of two and >= 16 KiB"));
    }
    let name = match v.text_at(words::name().as_slice()) {
        Some(s) => s,
        None => {
            return Err(MetaError::BadUtf8 { field: "v2 name" });
        },
    };
    if is_unsafe_name(name.as_str()) {
        return Err(MetaError::BadInfoV2("v2 name unsafe"));
    }
    let files = match read_tree_files(v) {
        Ok(f) => f,
        Err(e) => {
            return Err(e);
        },
    };
    assert(files.len() == file_v2_views(files@).len());
    if files.len() == 0 {
        return Err(MetaError::BadInfoV2("file tree has no files"));
    }
    match checked_v2_length(&files) {
        None => {
            return Err(MetaError::BadInfoV2("total file length overflow"));
        },
        Some(n) => {
            if n == 0 {
                return Err(MetaError::ZeroLength);
            }
        },
    }
    Ok(ValidatedTorrentMetaV2Info { name, piece_length, private: private_flag(v), files })
}

impl ValidatedTorrentMetaV2Info {
    /// The length of all files.
    pub fn total_length(&self) -> (r: u64)
        requires
            files_v2_length(self@.files) <= u64::MAX,
        ensures
            r == files_v2_length(self@.files),
    {
        match checked_v2_length(&self.files) {
            Some(n) => n,
            None => 0,
        }
    }
}

/// True of a name that stays inside the directory of a torrent.
pub open spec fn safe_key(k: Seq<u8>) -> bool {
    text_of(k) matches Some(name) && !unsafe_name(name)
}

/// True of the trees whose names all stay inside the directory of the torrent.
pub open spec fn safe_tree(t: TreeModel) -> bool
    decreases t,
{
    match t {
        TreeModel::Dir(c) => safe_children(c),
        TreeModel::File { .. } => true,
    }
}

/// True of the directories whose names all stay inside the directory of the torrent.
pub open spec fn safe_children(c: Seq<(Seq<u8>, TreeModel)>) -> bool
    decreases c,
{
    c.len() == 0 || (safe_children(c.drop_last()) && safe_key(c.last().0) && safe_tree(c.last().1))
}

spec fn safe_child(e: (Seq<u8>, TreeModel)) -> bool {
    safe_key(e.0) && safe_tree(e.1)
}

proof fn lemma_all_safe(c: Seq<(Seq<u8>, TreeModel)>)
    requires
        safe_children(c),
    ensures
        forall|i: int| 0 <= i < c.len() ==> safe_child(#[trigger] c[i]),
    decreases c.len(),
{
    if c.len() > 0 {
        lemma_all_safe(c.drop_last());
        assert forall|i: int| 0 <= i < c.len() implies safe_child(#[trigger] c[i]) by {
            if i < c.len() - 1 {
                assert(c[i] == c.drop_last()[i]);
            }
        }
    }
}

proof fn lemma_safe_all(c: Seq<(Seq<u8>, TreeModel)>)
    requires
        forall|i: int| 0 <= i < c.len() ==> safe_child(#[trigger] c[i]),
    ensures
        safe_children(c),
    decreases c.len(),
{
    if c.len() > 0 {
        let front = c.drop_last();
        assert forall|i: int| 0 <= i < front.len() implies safe_child(#[trigger] front[i]) by {
            assert(front[i] == c[i]);
        }
        lemma_safe_all(front);
        assert(safe_child(c[c.len() - 1]));
    }
}

proof fn lemma_safe_tree(v: Bencode)
    requires
        tree_of(v) is Ok,
    ensures
        safe_tree(tree_of(v)->Ok_0),
    decreases v,
{
    match v {
        Bencode::Dict(d) => {
            if !(d.len() == 1 && d[0].0.len() == 0) {
                lemma_safe_children(d);
            }
        },
        _ => {},
    }
}

proof fn lemma_safe_children(d: Seq<(Seq<u8>, Bencode)>)
    requires
        children_of(d) is Ok,
    ensures
        safe_children(children_of(d)->Ok_0),
    decreases d,
{
    if d.len() > 0 {
        lemma_safe_children(d.drop_last());
        lemma_safe_tree(d.last().1);
        let front = children_of(d.drop_last())->Ok_0;
        let t = tree_of(d.last().1)->Ok_0;
        let out = ranked_put(front, d.last().0, t);
        let at = rank(front, d.last().0);
        lemma_rank_in_range(front, d.last().0);
        lemma_all_safe(front);
        assert forall|i: int| 0 <= i < out.len() implies safe_child(#[trigger] out[i]) by {
            if i == at {
                assert(out[i] == (d.last().0, t));
            } else if i < at || ranked_has(front, d.last().0) {
                assert(out[i] == front[i]);
            } else {
                assert(out[i] == front[i - 1]);
            }
        }
        lemma_safe_all(out);
    }
}

proof fn lemma_rank_in_range<V>(m: Seq<(Seq<u8>, V)>, key: Seq<u8>)
    ensures
        0 <= rank(m, key) <= m.len(),
    decreases m.len(),
{
    if m.len() > 0 {
        lemma_rank_in_range(m.drop_first(), key);
    }
}

proof fn lemma_flat_is_safe(t: TreeModel, path: Seq<Seq<char>>)
    requires
        safe_tree(t),
        safe_path(path),
        flat_of(t, path) is Ok,
    ensures
        forall|i: int|
            0 <= i < flat_of(t, path)->Ok_0.len() ==> safe_path(
                (#[trigger] flat_of(t, path)->Ok_0[i]).path,
            ),
    decreases t, 1int,
{
    match t {
        TreeModel::Dir(c) => {
            lemma_flat_children_safe(c, path);
        },
        _ => {},
    }
}

proof fn lemma_flat_children_safe(c: Seq<(Seq<u8>, TreeModel)>, path: Seq<Seq<char>>)
    requires
        safe_children(c),
        safe_path(path),
        flat_children(c, path) is Ok,
    ensures
        forall|i: int|
            0 <= i < flat_children(c, path)->Ok_0.len() ==> safe_path(
                (#[trigger] flat_children(c, path)->Ok_0[i]).path,
            ),
    decreases c, 0int,
{
    if c.len() > 0 {
        let front = c.drop_last();
        lemma_flat_children_safe(front, path);
        let name = text_of(c.last().0)->0;
        let deeper = path.push(name);
        assert(safe_path(deeper));
        assert(decreases_to!(c => c[c.len() - 1]));
        lemma_flat_is_safe(c[c.len() - 1].1, deeper);
        let a = flat_children(front, path)->Ok_0;
        let b = flat_of(c.last().1, deeper)->Ok_0;
        let all = flat_children(c, path)->Ok_0;
        assert forall|i: int| 0 <= i < all.len() implies safe_path((#[trigger] all[i]).path) by {
            if i < a.len() {
                assert(all[i] == a[i]);
            } else {
                assert(all[i] == b[i - a.len()]);
            }
        }
    }
}

/// A torrent that is accepted in its second version stays inside its directory as well.
pub proof fn accepted_trees_stay_inside(v: Bencode)
    requires
        info_v2_of(v) is Ok,
    ensures
        ({
            let info = info_v2_of(v)->Ok_0;
            &&& !unsafe_name(info.name)
            &&& forall|i: int|
                0 <= i < info.files.len() ==> safe_path((#[trigger] info.files[i]).path)
            &&& info.files.len() > 0
            &&& power_of_two(info.piece_length as nat)
            &&& info.piece_length >= 16384
            &&& 0 < files_v2_length(info.files) <= u64::MAX
        }),
{
    match field(v, w_file_tree()) {
        Some(tree) => {
            lemma_safe_tree(tree);
            lemma_flat_is_safe(tree_of(tree)->Ok_0, seq![]);
        },
        None => {},
    }
}

} // verus!
