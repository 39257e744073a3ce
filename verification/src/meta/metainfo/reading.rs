//! What is read of a torrent file, in terms of what stands in it.

use vstd::prelude::*;

use crate::bencode::{
    bytes_field, field, int_field, list_field, local_limits, parse_all, raw_field, text_field,
    text_in, Bencode,
};
use crate::meta::hash::{id32_has_its_bytes, Id32};
use crate::meta::metainfo::info::{file_of, files_length, files_of, is_private, path_of};
use crate::meta::metainfo::tree::{
    children_of, flat_children, flat_of, leaf_of, tree_files, tree_of, TreeModel,
};
use crate::meta::metainfo::{
    bootstrap_of, described, digests_match, facade_of, info_of, info_v2_of, layer_entries,
    layers_of, texts_of, tiers_of, torrent_of, unsafe_name, FileModel, FileV2Model, InfoModel,
    InfoV2Model, MetaError, MetaModel,
};
use crate::ranked::{ranked, ranked_has, ranked_has_its_keys, ranked_put_keeps_order, ranked_put_members};
use crate::text::text_of;
use crate::webseed::link::{base_of, url_list, usable_urls};
use crate::webseed::WebSeedFault;

verus! {

/// True when places rise along a list.
pub open spec fn rising(at: Seq<int>) -> bool {
    forall|i: int, j: int| 0 <= i < j < at.len() ==> #[trigger] at[i] < #[trigger] at[j]
}

/// True when `out` is what stands at the places `at` of a list of texts, and no text stands
/// anywhere else in it.
pub open spec fn texts_stand_at(items: Seq<Bencode>, out: Seq<Seq<char>>, at: Seq<int>) -> bool {
    &&& rising(at)
    &&& at.len() == out.len()
    &&& forall|k: int|
        0 <= k < at.len() ==> 0 <= #[trigger] at[k] < items.len() && text_in(items[at[k]]) == Some(
            out[k],
        )
    &&& forall|i: int|
        0 <= i < items.len() && text_in(#[trigger] items[i]) is Some ==> at.contains(i)
}

/// True when `out` is every text of a list, in their order.
pub open spec fn all_texts(items: Seq<Bencode>, out: Seq<Seq<char>>) -> bool {
    exists|at: Seq<int>| texts_stand_at(items, out, at)
}

/// True when `out` is what the lists at the places `at` say, and no list stands anywhere else.
pub open spec fn tiers_stand_at(
    items: Seq<Bencode>,
    out: Seq<Seq<Seq<char>>>,
    at: Seq<int>,
) -> bool {
    &&& rising(at)
    &&& at.len() == out.len()
    &&& forall|k: int|
        0 <= k < at.len() ==> 0 <= #[trigger] at[k] < items.len() && (
        items[at[k]] matches Bencode::List(tier) && all_texts(tier, out[k]))
    &&& forall|i: int| 0 <= i < items.len() && (#[trigger] items[i]) is List ==> at.contains(i)
}

proof fn lemma_texts(items: Seq<Bencode>) -> (at: Seq<int>)
    ensures
        texts_stand_at(items, texts_of(items), at),
    decreases items.len(),
{
    if items.len() == 0 {
        let at = Seq::<int>::empty();
        at
    } else {
        let front = items.drop_last();
        let last = (items.len() - 1) as int;
        let before = lemma_texts(front);
        let at = if text_in(items.last()) is Some {
            before.push(last)
        } else {
            before
        };
        let out = texts_of(items);
        assert forall|k: int| 0 <= k < at.len() implies 0 <= #[trigger] at[k] < items.len()
            && text_in(items[at[k]]) == Some(out[k]) by {
            if k < before.len() {
                assert(front[before[k]] == items[before[k]]);
            }
        }
        assert forall|i: int|
            0 <= i < items.len() && text_in(#[trigger] items[i]) is Some implies at.contains(i) by {
            if i < last {
                assert(front[i] == items[i]);
                let k = choose|k: int| 0 <= k < before.len() && before[k] == i;
                assert(at[k] == i);
            } else {
                assert(at[before.len() as int] == last);
            }
        }
        at
    }
}

proof fn lemma_tiers(items: Seq<Bencode>) -> (at: Seq<int>)
    ensures
        tiers_stand_at(items, tiers_of(items), at),
    decreases items.len(),
{
    if items.len() == 0 {
        let at = Seq::<int>::empty();
        at
    } else {
        let front = items.drop_last();
        let last = (items.len() - 1) as int;
        let before = lemma_tiers(front);
        let at = if items.last() is List {
            before.push(last)
        } else {
            before
        };
        let out = tiers_of(items);
        if let Bencode::List(tier) = items.last() {
            let inner = lemma_texts(tier);
            assert(all_texts(tier, texts_of(tier)));
        }
        assert forall|k: int| 0 <= k < at.len() implies 0 <= #[trigger] at[k] < items.len() && (
        items[at[k]] matches Bencode::List(tier) && all_texts(tier, out[k])) by {
            if k < before.len() {
                assert(front[before[k]] == items[before[k]]);
                assert(out[k] == tiers_of(front)[k]);
            } else {
                assert(out[k] == texts_of(items.last()->List_0));
            }
        }
        assert forall|i: int|
            0 <= i < items.len() && (#[trigger] items[i]) is List implies at.contains(i) by {
            if i < last {
                assert(front[i] == items[i]);
                let k = choose|k: int| 0 <= k < before.len() && before[k] == i;
                assert(at[k] == i);
            } else {
                assert(at[before.len() as int] == last);
            }
        }
        at
    }
}

/// Where nothing in a list is passed over, every text stands where it stood.
pub proof fn plain_lists_are_read_whole(items: Seq<Bencode>)
    requires
        forall|i: int| 0 <= i < items.len() ==> text_in(#[trigger] items[i]) is Some,
    ensures
        texts_of(items).len() == items.len(),
        forall|i: int|
            0 <= i < items.len() ==> Some(#[trigger] texts_of(items)[i]) == text_in(items[i]),
    decreases items.len(),
{
    if items.len() > 0 {
        let front = items.drop_last();
        assert forall|i: int| 0 <= i < front.len() implies text_in(#[trigger] front[i]) is Some by {
            assert(front[i] == items[i]);
        }
        plain_lists_are_read_whole(front);
        assert(text_in(items[items.len() - 1]) is Some);
        assert forall|i: int| 0 <= i < items.len() implies Some(#[trigger] texts_of(items)[i])
            == text_in(items[i]) by {
            if i < front.len() {
                assert(front[i] == items[i]);
            }
        }
    }
}

proof fn lemma_plain_tiers(items: Seq<Bencode>)
    requires
        forall|i: int| 0 <= i < items.len() ==> (#[trigger] items[i]) is List,
    ensures
        tiers_of(items).len() == items.len(),
        forall|i: int|
            0 <= i < items.len() ==> #[trigger] tiers_of(items)[i] == texts_of(items[i]->List_0),
    decreases items.len(),
{
    if items.len() > 0 {
        let front = items.drop_last();
        assert forall|i: int| 0 <= i < front.len() implies (#[trigger] front[i]) is List by {
            assert(front[i] == items[i]);
        }
        lemma_plain_tiers(front);
        assert(items[items.len() - 1] is List);
        assert forall|i: int| 0 <= i < items.len() implies #[trigger] tiers_of(items)[i]
            == texts_of(items[i]->List_0) by {
            if i < front.len() {
                assert(front[i] == items[i]);
            }
        }
    }
}

/// What a torrent file holds, under the key "info" too, where it is accepted.
spec fn top(b: Seq<u8>) -> Bencode {
    parse_all(b, local_limits())->Ok_0
}

/// Every tracker of a torrent file that is accepted is read: the tiers are the lists under
/// "announce-list", in their order, and a tier is every text of its list, in their order.
pub proof fn every_tracker_is_read(b: Seq<u8>)
    requires
        torrent_of(b) is Ok,
    ensures
        parse_all(b, local_limits()) is Ok,
        ({
            let m = torrent_of(b)->Ok_0;
            match list_field(parse_all(b, local_limits())->Ok_0, seq![97u8, 110, 110, 111, 117, 110, 99, 101, 45, 108, 105, 115, 116]) {
                Some(tiers) => exists|at: Seq<int>| tiers_stand_at(tiers, m.announce_list, at),
                None => m.announce_list.len() == 0,
            }
        }),
{
    let v = top(b);
    if let Some(tiers) = list_field(v, seq![97u8, 110, 110, 111, 117, 110, 99, 101, 45, 108, 105, 115, 116]) {
        let at = lemma_tiers(tiers);
        assert(tiers_stand_at(tiers, torrent_of(b)->Ok_0.announce_list, at));
    }
}

/// Where the tiers of an accepted torrent file hold texts only, there are as many tiers as it
/// lists, each as long as its list, and every tracker stands in its tier where it stood.
pub proof fn plain_tiers_are_read_whole(b: Seq<u8>, tiers: Seq<Bencode>, t: int, i: int)
    requires
        torrent_of(b) is Ok,
        list_field(parse_all(b, local_limits())->Ok_0, seq![97u8, 110, 110, 111, 117, 110, 99, 101, 45, 108, 105, 115, 116]) == Some(tiers),
        forall|k: int| 0 <= k < tiers.len() ==> (#[trigger] tiers[k]) is List,
        0 <= t < tiers.len(),
        forall|k: int|
            0 <= k < tiers[t]->List_0.len() ==> text_in(#[trigger] tiers[t]->List_0[k]) is Some,
    ensures
        torrent_of(b)->Ok_0.announce_list.len() == tiers.len(),
        torrent_of(b)->Ok_0.announce_list[t].len() == tiers[t]->List_0.len(),
        0 <= i < tiers[t]->List_0.len() ==> Some(torrent_of(b)->Ok_0.announce_list[t][i])
            == text_in(tiers[t]->List_0[i]),
{
    lemma_plain_tiers(tiers);
    plain_lists_are_read_whole(tiers[t]->List_0);
    assert(torrent_of(b)->Ok_0.announce_list == tiers_of(tiers));
    assert(tiers_of(tiers)[t] == texts_of(tiers[t]->List_0));
    if 0 <= i < tiers[t]->List_0.len() {
        assert(Some(texts_of(tiers[t]->List_0)[i]) == text_in(tiers[t]->List_0[i]));
    }
}

/// What stands around the description of an accepted torrent file is read from the keys that
/// name it, and is missing exactly where the file does not say it.
pub proof fn what_stands_around(b: Seq<u8>)
    requires
        torrent_of(b) is Ok,
    ensures
        ({
            let v = parse_all(b, local_limits())->Ok_0;
            let m = torrent_of(b)->Ok_0;
            &&& m.announce == text_field(v, seq![97u8, 110, 110, 111, 117, 110, 99, 101])
            &&& m.comment == text_field(v, seq![99u8, 111, 109, 109, 101, 110, 116])
            &&& m.created_by == text_field(v, seq![99u8, 114, 101, 97, 116, 101, 100, 32, 98, 121])
            &&& m.encoding == text_field(v, seq![101u8, 110, 99, 111, 100, 105, 110, 103])
            &&& m.creation_date == int_field(v, seq![99u8, 114, 101, 97, 116, 105, 111, 110, 32, 100, 97, 116, 101])
            &&& m.bootstrap == bootstrap_of(v)
            &&& field(v, seq![117u8, 114, 108, 45, 108, 105, 115, 116]) is None ==> m.url_list.len() == 0
            &&& field(v, seq![117u8, 114, 108, 45, 108, 105, 115, 116]) matches Some(u) ==> m.url_list == url_list(u)
            &&& raw_field(b, seq![105u8, 110, 102, 111], local_limits()) == Ok::<
                Option<Seq<u8>>,
                crate::bencode::Error,
            >(Some(m.info_bytes))
        }),
{
}

/// A torrent is in the first version where its description has digests of pieces, and in the
/// second where it says so and has a tree of files. It is refused where it is in neither; in both
/// it is private where either says so, and its files are those of the first.
pub proof fn which_versions_a_torrent_has(b: Seq<u8>)
    requires
        torrent_of(b) is Ok,
    ensures
        ({
            let v = parse_all(b, local_limits())->Ok_0;
            let m = torrent_of(b)->Ok_0;
            &&& field(v, seq![105u8, 110, 102, 111]) is Some
            &&& {
                let info = field(v, seq![105u8, 110, 102, 111])->0;
                let old = field(info, seq![112u8, 105, 101, 99, 101, 115]) is Some;
                let new = int_field(info, seq![109u8, 101, 116, 97, 32, 118, 101, 114, 115, 105, 111, 110]) == Some(2int) && field(
                    info,
                    seq![102u8, 105, 108, 101, 32, 116, 114, 101, 101],
                ) is Some;
                &&& old || new
                &&& m.meta_version is V1 <==> old && !new
                &&& m.meta_version is V2 <==> new && !old
                &&& m.meta_version is Hybrid <==> old && new
                &&& m.info_v2 is Some <==> new
                &&& new ==> info_v2_of(info) == Ok::<InfoV2Model, MetaError>(m.info_v2->0)
                &&& new ==> layers_of(v) == Ok::<Seq<(Seq<u8>, Seq<u8>)>, MetaError>(m.piece_layers)
                &&& !new ==> m.piece_layers.len() == 0
                &&& old ==> info_of(info) is Ok
                &&& old ==> m.info == (InfoModel {
                    private: m.info.private,
                    ..info_of(info)->Ok_0
                })
                &&& m.info.private <==> (int_field(info, seq![112u8, 114, 105, 118, 97, 116, 101]) is Some && int_field(
                    info,
                    seq![112u8, 114, 105, 118, 97, 116, 101],
                ) != Some(0int))
                &&& !old ==> m.info.name == m.info_v2->0.name && m.info.pieces.len() == 0
                    && m.info.piece_length == m.info_v2->0.piece_length && m.info.files.len()
                    == m.info_v2->0.files.len()
            }
        }),
{
    let info = field(top(b), seq![105u8, 110, 102, 111])->0;
    if field(info, seq![112u8, 105, 101, 99, 101, 115]) is None {
        assert(facade_of(info_v2_of(info)->Ok_0).pieces.len() == 0);
    }
}

/// A torrent of the second version only keeps every file, with its length and in its place; the
/// name of the torrent is left out where it stands in front of a path, and the torrent is one file
/// exactly where its only file has that name.
pub proof fn the_second_version_in_the_form_of_the_first(v2: InfoV2Model, i: int)
    requires
        0 <= i < v2.files.len(),
    ensures
        ({
            let f = facade_of(v2);
            let single = v2.files.len() == 1 && v2.files[0].path == seq![v2.name];
            &&& f.name == v2.name
            &&& f.private == v2.private
            &&& f.piece_length == v2.piece_length
            &&& f.files.len() == v2.files.len()
            &&& f.single_file_mode <==> single
            &&& f.files[i].length == v2.files[i].length
            &&& v2.files[i].path == seq![v2.name] + f.files[i].path || v2.files[i].path
                == f.files[i].path
            &&& !single && v2.files[i].path.len() > 0 && v2.files[i].path[0] == v2.name
                ==> v2.files[i].path == seq![v2.name] + f.files[i].path
            &&& single || v2.files[i].path.len() == 0 || v2.files[i].path[0] != v2.name
                ==> v2.files[i].path == f.files[i].path
        }),
{
    let f = facade_of(v2);
    let path = v2.files[i].path;
    if v2.files.len() == 1 && v2.files[0].path.len() == 1 && v2.files[0].path[0] == v2.name {
        assert(v2.files[0].path =~= seq![v2.name]);
    }
    if path.len() > 0 && path[0] == v2.name {
        assert(path =~= seq![v2.name] + path.skip(1));
    }
}

proof fn lemma_path(items: Seq<Bencode>)
    ensures
        path_of(items) is Ok <==> (forall|j: int|
            0 <= j < items.len() ==> (text_in(#[trigger] items[j]) matches Some(t) && !unsafe_name(
                t,
            ))),
        path_of(items) matches Ok(path) ==> path.len() == items.len() && forall|j: int|
            0 <= j < items.len() ==> Some(#[trigger] path[j]) == text_in(items[j]),
    decreases items.len(),
{
    if items.len() > 0 {
        let front = items.drop_last();
        lemma_path(front);
        let ok = |x: Bencode| text_in(x) matches Some(t) && !unsafe_name(t);
        if path_of(items) is Ok {
            assert forall|j: int| 0 <= j < items.len() implies (text_in(
                #[trigger] items[j],
            ) matches Some(t) && !unsafe_name(t)) && Some(path_of(items)->Ok_0[j]) == text_in(
                items[j],
            ) by {
                if j < front.len() {
                    assert(front[j] == items[j]);
                }
            }
        } else if forall|j: int|
            0 <= j < items.len() ==> (text_in(#[trigger] items[j]) matches Some(t) && !unsafe_name(
                t,
            )) {
            assert forall|j: int| 0 <= j < front.len() implies (text_in(
                #[trigger] front[j],
            ) matches Some(t) && !unsafe_name(t)) by {
                assert(front[j] == items[j]);
            }
            assert(text_in(items[items.len() - 1]) is Some);
            assert(false);
        }
    }
}

/// True when `f` is the file that an entry of a list of files says: a length that is not negative
/// and a path of names that stay inside.
pub open spec fn file_stands_in(entry: Bencode, f: FileModel) -> bool {
    &&& int_field(entry, seq![108u8, 101, 110, 103, 116, 104]) == Some(f.length as int)
    &&& list_field(entry, seq![112u8, 97, 116, 104]) matches Some(items) && items.len() == f.path.len() && forall|
        j: int,
    |
        0 <= j < items.len() ==> text_in(items[j]) == Some(#[trigger] f.path[j]) && !unsafe_name(
            f.path[j],
        )
}

proof fn lemma_file(entry: Bencode)
    requires
        int_field(entry, seq![108u8, 101, 110, 103, 116, 104]) matches Some(n) ==> n <= u64::MAX,
    ensures
        file_of(entry) matches Ok(f) ==> file_stands_in(entry, f),
{
    if let Ok(f) = file_of(entry) {
        let items = list_field(entry, seq![112u8, 97, 116, 104])->0;
        lemma_path(items);
        assert forall|j: int| 0 <= j < items.len() implies text_in(items[j]) == Some(
            #[trigger] f.path[j],
        ) && !unsafe_name(f.path[j]) by {
            assert(text_in(items[j]) is Some);
        }
    }
}

/// True when no length in a list of files is beyond what can be counted.
pub open spec fn lengths_fit(items: Seq<Bencode>) -> bool {
    forall|i: int|
        0 <= i < items.len() ==> (int_field(#[trigger] items[i], seq![108u8, 101, 110, 103, 116, 104]) matches Some(n) ==> n
            <= u64::MAX)
}

proof fn lemma_files(items: Seq<Bencode>)
    requires
        files_of(items) is Ok,
        lengths_fit(items),
    ensures
        files_of(items)->Ok_0.len() == items.len(),
        forall|i: int|
            0 <= i < items.len() ==> file_stands_in(
                items[i],
                #[trigger] files_of(items)->Ok_0[i],
            ),
    decreases items.len(),
{
    if items.len() > 0 {
        let front = items.drop_last();
        assert forall|i: int| 0 <= i < front.len() implies (int_field(
            #[trigger] front[i],
            seq![108u8, 101, 110, 103, 116, 104],
        ) matches Some(n) ==> n <= u64::MAX) by {
            assert(front[i] == items[i]);
        }
        lemma_files(front);
        assert(items[items.len() - 1] == items.last());
        lemma_file(items.last());
        assert forall|i: int| 0 <= i < items.len() implies file_stands_in(
            items[i],
            #[trigger] files_of(items)->Ok_0[i],
        ) by {
            if i < front.len() {
                assert(front[i] == items[i]);
                assert(file_stands_in(front[i], files_of(front)->Ok_0[i]));
            }
        }
    }
}

/// An accepted description of the first version is read from the keys that name its parts. With a
/// list of files there is one file for every entry, in their order, with its length and its path;
/// without one there is one file, under the name of the torrent.
pub proof fn what_a_description_says(v: Bencode)
    requires
        info_of(v) is Ok,
        list_field(v, seq![102u8, 105, 108, 101, 115]) matches Some(items) ==> lengths_fit(items),
        int_field(v, seq![108u8, 101, 110, 103, 116, 104]) matches Some(n) ==> n <= u64::MAX,
    ensures
        ({
            let m = info_of(v)->Ok_0;
            &&& text_field(v, seq![110u8, 97, 109, 101]) == Some(m.name)
            &&& !unsafe_name(m.name)
            &&& int_field(v, seq![112u8, 105, 101, 99, 101, 32, 108, 101, 110, 103, 116, 104]) == Some(m.piece_length as int)
            &&& m.piece_length > 0
            &&& bytes_field(v, seq![112u8, 105, 101, 99, 101, 115]) == Some(m.pieces)
            &&& m.pieces.len() > 0 && m.pieces.len() % 20 == 0
            &&& m.private <==> (int_field(v, seq![112u8, 114, 105, 118, 97, 116, 101]) is Some && int_field(v, seq![112u8, 114, 105, 118, 97, 116, 101]) != Some(
                0int,
            ))
            &&& m.single_file_mode <==> list_field(v, seq![102u8, 105, 108, 101, 115]) is None
            &&& list_field(v, seq![102u8, 105, 108, 101, 115]) matches Some(items) ==> m.files.len() == items.len()
                && forall|i: int|
                0 <= i < items.len() ==> file_stands_in(items[i], #[trigger] m.files[i])
            &&& m.single_file_mode ==> m.files.len() == 1 && m.files[0].path == seq![m.name]
                && int_field(v, seq![108u8, 101, 110, 103, 116, 104]) == Some(m.files[0].length as int)
            &&& 0 < files_length(m.files) <= u64::MAX
        }),
{
    let m = info_of(v)->Ok_0;
    if let Some(items) = list_field(v, seq![102u8, 105, 108, 101, 115]) {
        lemma_files(items);
    }
}

proof fn lemma_files_accepted(items: Seq<Bencode>)
    ensures
        files_of(items) is Ok <==> (forall|i: int|
            0 <= i < items.len() ==> file_of(#[trigger] items[i]) is Ok),
    decreases items.len(),
{
    if items.len() > 0 {
        let front = items.drop_last();
        lemma_files_accepted(front);
        if files_of(items) is Ok {
            assert forall|i: int| 0 <= i < items.len() implies file_of(#[trigger] items[i]) is Ok by {
                if i < front.len() {
                    assert(front[i] == items[i]);
                }
            }
        } else if forall|i: int| 0 <= i < items.len() ==> file_of(#[trigger] items[i]) is Ok {
            assert forall|i: int| 0 <= i < front.len() implies file_of(#[trigger] front[i]) is Ok by {
                assert(front[i] == items[i]);
            }
            assert(file_of(items[items.len() - 1]) is Ok);
            assert(false);
        }
    }
}

/// A description of the first version is accepted exactly where it has a piece length that is
/// neither zero nor too large, digests of whole pieces, and a name that stays inside; every file
/// of its list has a length that is not negative and a path of names that stay inside; and its
/// length is neither zero nor too large.
pub proof fn which_descriptions_are_accepted(v: Bencode)
    requires
        v is Dict,
    ensures
        info_of(v) is Ok <==> {
            &&& int_field(v, seq![112u8, 105, 101, 99, 101, 32, 108, 101, 110, 103, 116, 104]) matches Some(n) && 0 < n <= u32::MAX
            &&& bytes_field(v, seq![112u8, 105, 101, 99, 101, 115]) matches Some(p) && p.len() > 0 && p.len() % 20 == 0
            &&& text_field(v, seq![110u8, 97, 109, 101]) matches Some(t) && !unsafe_name(t)
            &&& match list_field(v, seq![102u8, 105, 108, 101, 115]) {
                Some(items) => (forall|i: int|
                    0 <= i < items.len() ==> file_of(#[trigger] items[i]) is Ok) && 0
                    < files_length(files_of(items)->Ok_0) <= u64::MAX,
                None => int_field(v, seq![108u8, 101, 110, 103, 116, 104]) matches Some(n) && n > 0 && (n as u64) > 0,
            }
        },
{
    if let Some(items) = list_field(v, seq![102u8, 105, 108, 101, 115]) {
        lemma_files_accepted(items);
    }
    if let Some(n) = int_field(v, seq![108u8, 101, 110, 103, 116, 104]) {
        let one = seq![FileModel { path: seq![text_field(v, seq![110u8, 97, 109, 101])->0], length: n as u64 }];
        assert(one.drop_last() =~= seq![]);
        reveal_with_fuel(crate::sums::total, 3);
        assert(files_length(one) == (n as u64) as nat);
    }
}

/// A file of a list is accepted exactly where it is a dictionary with a length that is not
/// negative and a path of texts that stay inside.
pub proof fn which_files_are_accepted(entry: Bencode)
    ensures
        file_of(entry) is Ok <==> {
            &&& entry is Dict
            &&& int_field(entry, seq![108u8, 101, 110, 103, 116, 104]) matches Some(n) && n >= 0
            &&& list_field(entry, seq![112u8, 97, 116, 104]) matches Some(items) && forall|j: int|
                0 <= j < items.len() ==> (text_in(#[trigger] items[j]) matches Some(t)
                    && !unsafe_name(t))
        },
{
    if let Some(items) = list_field(entry, seq![112u8, 97, 116, 104]) {
        lemma_path(items);
    }
}

/// A name could lead out exactly where it is empty, a dot or two, or has a slash of either kind.
pub proof fn which_names_stay_inside(s: Seq<char>)
    ensures
        unsafe_name(s) <==> s.len() == 0 || s == seq!['.'] || s == seq!['.', '.'] || (exists|i: int|
            0 <= i < s.len() && ((#[trigger] s[i]) == '/' || s[i] == '\\')),
{
    reveal_strlit(".");
    reveal_strlit("..");
    assert("."@ =~= seq!['.']);
    assert(".."@ =~= seq!['.', '.']);
    if s.contains('/') {
        let i = choose|i: int| 0 <= i < s.len() && s[i] == '/';
        assert(s[i] == '/');
    }
    if s.contains('\\') {
        let i = choose|i: int| 0 <= i < s.len() && s[i] == '\\';
        assert(s[i] == '\\');
    }
}

/// True when the entry at `i` is the last one of a dictionary under `key`.
pub open spec fn last_under<T>(d: Seq<(Seq<u8>, T)>, key: Seq<u8>, i: int) -> bool {
    &&& 0 <= i < d.len()
    &&& d[i].0 == key
    &&& forall|j: int| i < j < d.len() ==> (#[trigger] d[j]).0 != key
}

proof fn lemma_last_under<T>(d: Seq<(Seq<u8>, T)>, key: Seq<u8>, i: int)
    requires
        d.len() > 0,
    ensures
        last_under(d, key, i) <==> if d.last().0 == key {
            i == d.len() - 1
        } else {
            last_under(d.drop_last(), key, i)
        },
{
    let front = d.drop_last();
    assert(d[d.len() - 1] == d.last());
    if last_under(d, key, i) && d.last().0 != key {
        assert forall|j: int| i < j < front.len() implies (#[trigger] front[j]).0 != key by {
            assert(front[j] == d[j]);
        }
    }
    if d.last().0 != key && last_under(front, key, i) {
        assert forall|j: int| i < j < d.len() implies (#[trigger] d[j]).0 != key by {
            if j < front.len() {
                assert(front[j] == d[j]);
            }
        }
        assert(front[i] == d[i]);
    }
}

/// True when a leaf of a tree of files stands below `names`.
pub open spec fn stands_below(v: Bencode, names: Seq<Seq<u8>>, leaf: Bencode) -> bool
    decreases names.len(),
{
    v matches Bencode::Dict(d) && if names.len() == 0 {
        d.len() == 1 && d[0].0.len() == 0 && d[0].1 == leaf
    } else {
        !(d.len() == 1 && d[0].0.len() == 0) && exists|i: int| #[trigger]
            last_under(d, names[0], i) && stands_below(d[i].1, names.drop_first(), leaf)
    }
}

/// The names in text.
pub open spec fn in_text(names: Seq<Seq<u8>>) -> Seq<Seq<char>> {
    Seq::new(names.len(), |i: int| text_of(names[i])->0)
}

/// True when a leaf tells of a file that holds something: its length and the digest of its pieces.
pub open spec fn leaf_tells(leaf: Bencode, f: FileV2Model) -> bool {
    &&& f.length > 0
    &&& int_field(leaf, seq![108u8, 101, 110, 103, 116, 104]) == Some(f.length as int)
    &&& bytes_field(leaf, seq![112u8, 105, 101, 99, 101, 115, 32, 114, 111, 111, 116]) == Some(f.pieces_root@)
}

proof fn lemma_children(d: Seq<(Seq<u8>, Bencode)>)
    requires
        children_of(d) is Ok,
    ensures
        ranked(children_of(d)->Ok_0),
        forall|i: int| 0 <= i < d.len() ==> tree_of((#[trigger] d[i]).1) is Ok && text_of(d[i].0) is Some,
        forall|k: Seq<u8>, t: TreeModel| #[trigger]
            children_of(d)->Ok_0.contains((k, t)) ==> exists|i: int| #[trigger]
                last_under(d, k, i) && tree_of(d[i].1)->Ok_0 == t,
        forall|k: Seq<u8>, i: int| #[trigger]
            last_under(d, k, i) ==> children_of(d)->Ok_0.contains((k, tree_of(d[i].1)->Ok_0)),
    decreases d.len(),
{
    if d.len() > 0 {
        let front = d.drop_last();
        lemma_children(front);
        let c = children_of(front)->Ok_0;
        let key = d.last().0;
        let t = tree_of(d.last().1)->Ok_0;
        let out = children_of(d)->Ok_0;
        ranked_put_keeps_order(c, key, t);
        ranked_put_members(c, key, t);
        assert forall|i: int| 0 <= i < d.len() implies tree_of((#[trigger] d[i]).1) is Ok && text_of(
            d[i].0,
        ) is Some by {
            if i < front.len() {
                assert(front[i] == d[i]);
            }
        }
        assert forall|k: Seq<u8>, x: TreeModel| #[trigger] out.contains((k, x)) implies exists|i: int|
            #[trigger]
            last_under(d, k, i) && tree_of(d[i].1)->Ok_0 == x by {
            if k == key {
                lemma_last_under(d, k, d.len() - 1);
                assert(last_under(d, k, d.len() - 1));
            } else {
                assert(c.contains((k, x)));
                let i = choose|i: int| #[trigger]
                    last_under(front, k, i) && tree_of(front[i].1)->Ok_0 == x;
                lemma_last_under(d, k, i);
                assert(front[i] == d[i]);
            }
        }
        assert forall|k: Seq<u8>, i: int| #[trigger] last_under(d, k, i) implies out.contains(
            (k, tree_of(d[i].1)->Ok_0),
        ) by {
            lemma_last_under(d, k, i);
            if k != key {
                assert(last_under(front, k, i));
                assert(front[i] == d[i]);
                assert(c.contains((k, tree_of(front[i].1)->Ok_0)));
            }
        }
    } else {
        assert forall|k: Seq<u8>, x: TreeModel| !#[trigger] children_of(d)->Ok_0.contains(
            (k, x),
        ) by {}
    }
}

proof fn lemma_flat(c: Seq<(Seq<u8>, TreeModel)>, path: Seq<Seq<char>>)
    requires
        flat_children(c, path) is Ok,
    ensures
        forall|i: int|
            0 <= i < c.len() ==> text_of((#[trigger] c[i]).0) is Some && flat_of(
                c[i].1,
                path.push(text_of(c[i].0)->0),
            ) is Ok,
        forall|f: FileV2Model| #[trigger]
            flat_children(c, path)->Ok_0.contains(f) ==> exists|i: int|
                0 <= i < c.len() && flat_of(
                    (#[trigger] c[i]).1,
                    path.push(text_of(c[i].0)->0),
                )->Ok_0.contains(f),
        forall|f: FileV2Model, i: int|
            0 <= i < c.len() && #[trigger] flat_of(
                c[i].1,
                path.push(text_of(c[i].0)->0),
            )->Ok_0.contains(f) ==> flat_children(c, path)->Ok_0.contains(f),
    decreases c.len(),
{
    if c.len() > 0 {
        let front = c.drop_last();
        lemma_flat(front, path);
        let last = c.len() - 1;
        let deeper = path.push(text_of(c.last().0)->0);
        let a = flat_children(front, path)->Ok_0;
        let b = flat_of(c.last().1, deeper)->Ok_0;
        let all = flat_children(c, path)->Ok_0;
        assert(all == a + b);
        assert(c[last] == c.last());
        assert forall|i: int| 0 <= i < c.len() implies text_of((#[trigger] c[i]).0) is Some
            && flat_of(c[i].1, path.push(text_of(c[i].0)->0)) is Ok by {
            if i < last {
                assert(front[i] == c[i]);
            }
        }
        assert forall|f: FileV2Model| #[trigger] all.contains(f) implies exists|i: int|
            0 <= i < c.len() && flat_of(
                (#[trigger] c[i]).1,
                path.push(text_of(c[i].0)->0),
            )->Ok_0.contains(f) by {
            let at = choose|at: int| 0 <= at < all.len() && all[at] == f;
            if at < a.len() {
                assert(a[at] == f);
                assert(a.contains(f));
                let i = choose|i: int|
                    0 <= i < front.len() && flat_of(
                        (#[trigger] front[i]).1,
                        path.push(text_of(front[i].0)->0),
                    )->Ok_0.contains(f);
                assert(front[i] == c[i]);
            } else {
                assert(b[at - a.len()] == f);
                assert(b.contains(f));
                assert(flat_of(c[last].1, path.push(text_of(c[last].0)->0))->Ok_0.contains(f));
            }
        }
        assert forall|f: FileV2Model, i: int|
            0 <= i < c.len() && #[trigger] flat_of(
                c[i].1,
                path.push(text_of(c[i].0)->0),
            )->Ok_0.contains(f) implies all.contains(f) by {
            if i < last {
                assert(front[i] == c[i]);
                assert(flat_of(front[i].1, path.push(text_of(front[i].0)->0))->Ok_0.contains(f));
                assert(a.contains(f));
                let at = choose|at: int| 0 <= at < a.len() && a[at] == f;
                assert(all[at] == f);
            } else {
                let at = choose|at: int| 0 <= at < b.len() && b[at] == f;
                assert(all[a.len() + at] == f);
            }
        }
    }
}

proof fn lemma_told(v: Bencode, path: Seq<Seq<char>>, f: FileV2Model) -> (r: (
    Seq<Seq<u8>>,
    Bencode,
))
    requires
        tree_of(v) is Ok,
        flat_of(tree_of(v)->Ok_0, path) is Ok,
        flat_of(tree_of(v)->Ok_0, path)->Ok_0.contains(f),
        ints_fit(v),
    ensures
        stands_below(v, r.0, r.1),
        leaf_tells(r.1, f),
        f.path == path + in_text(r.0),
    decreases v,
{
    let d = v->Dict_0;
    if d.len() == 1 && d[0].0.len() == 0 {
        let leaf = d[0].1;
        let all = flat_of(tree_of(v)->Ok_0, path)->Ok_0;
        let at = choose|at: int| 0 <= at < all.len() && all[at] == f;
        assert(all[0] == f);
        if let Some(b) = bytes_field(leaf, seq![112u8, 105, 101, 99, 101, 115, 32, 114, 111, 111, 116]) {
            id32_has_its_bytes(b);
        }
        let none = Seq::<Seq<u8>>::empty();
        assert(path + in_text(none) =~= path);
        assert(stands_below(v, none, leaf));
        (none, leaf)
    } else {
        let c = children_of(d)->Ok_0;
        lemma_children(d);
        lemma_flat(c, path);
        let k = choose|k: int|
            0 <= k < c.len() && flat_of(
                (#[trigger] c[k]).1,
                path.push(text_of(c[k].0)->0),
            )->Ok_0.contains(f);
        assert(c.contains((c[k].0, c[k].1)));
        let i = choose|i: int| #[trigger]
            last_under(d, c[k].0, i) && tree_of(d[i].1)->Ok_0 == c[k].1;
        assert(tree_of(d[i].1) is Ok);
        lemma_ints_below(v, i);
        let deeper = path.push(text_of(c[k].0)->0);
        let (names, leaf) = lemma_told(d[i].1, deeper, f);
        let all = seq![c[k].0] + names;
        assert(all.drop_first() =~= names);
        assert(path + in_text(all) =~= deeper + in_text(names));
        assert(last_under(d, all[0], i) && stands_below(d[i].1, all.drop_first(), leaf));
        (all, leaf)
    }
}

/// True when no length below a value is beyond what can be counted.
pub open spec fn ints_fit(v: Bencode) -> bool {
    forall|names: Seq<Seq<u8>>, leaf: Bencode| #[trigger]
        stands_below(v, names, leaf) ==> (int_field(leaf, seq![108u8, 101, 110, 103, 116, 104]) matches Some(n) ==> n
            <= u64::MAX)
}

proof fn lemma_ints_below(v: Bencode, i: int)
    requires
        ints_fit(v),
        v is Dict,
        !(v->Dict_0.len() == 1 && v->Dict_0[0].0.len() == 0),
        0 <= i < v->Dict_0.len(),
        last_under(v->Dict_0, v->Dict_0[i].0, i),
    ensures
        ints_fit(v->Dict_0[i].1),
{
    let d = v->Dict_0;
    assert forall|names: Seq<Seq<u8>>, leaf: Bencode| #[trigger]
        stands_below(d[i].1, names, leaf) implies (int_field(leaf, seq![108u8, 101, 110, 103, 116, 104]) matches Some(n) ==> n
        <= u64::MAX) by {
        let all = seq![d[i].0] + names;
        assert(all.drop_first() =~= names);
        assert(last_under(d, all[0], i) && stands_below(d[i].1, all.drop_first(), leaf));
        assert(stands_below(v, all, leaf));
    }
}

proof fn lemma_listed(
    v: Bencode,
    path: Seq<Seq<char>>,
    names: Seq<Seq<u8>>,
    leaf: Bencode,
    f: FileV2Model,
)
    requires
        tree_of(v) is Ok,
        flat_of(tree_of(v)->Ok_0, path) is Ok,
        stands_below(v, names, leaf),
        leaf_tells(leaf, f),
        f.path == path + in_text(names),
    ensures
        flat_of(tree_of(v)->Ok_0, path)->Ok_0.contains(f),
    decreases names.len(),
{
    let d = v->Dict_0;
    let all = flat_of(tree_of(v)->Ok_0, path)->Ok_0;
    if names.len() == 0 {
        let b = bytes_field(leaf, seq![112u8, 105, 101, 99, 101, 115, 32, 114, 111, 111, 116])->0;
        id32_has_its_bytes(b);
        crate::meta::hash::id32_is_its_bytes(f.pieces_root);
        assert(f.path =~= path);
        assert(all[0] == f);
    } else {
        let i = choose|i: int| #[trigger]
            last_under(d, names[0], i) && stands_below(d[i].1, names.drop_first(), leaf);
        let c = children_of(d)->Ok_0;
        lemma_children(d);
        lemma_flat(c, path);
        let t = tree_of(d[i].1)->Ok_0;
        assert(c.contains((names[0], t)));
        let k = choose|k: int| 0 <= k < c.len() && c[k] == (names[0], t);
        let deeper = path.push(text_of(c[k].0)->0);
        assert(deeper + in_text(names.drop_first()) =~= path + in_text(names));
        lemma_listed(d[i].1, deeper, names.drop_first(), leaf, f);
        assert(flat_of(c[k].1, path.push(text_of(c[k].0)->0))->Ok_0.contains(f));
    }
}

/// The files of an accepted tree are exactly its leaves that hold something, each under the names
/// that lead to it, with its own length and the digest of its pieces.
pub proof fn what_a_tree_of_files_says(info: Bencode, tree: Bencode, f: FileV2Model)
    requires
        info_v2_of(info) is Ok,
        field(info, seq![102u8, 105, 108, 101, 32, 116, 114, 101, 101]) == Some(tree),
        ints_fit(tree),
    ensures
        info_v2_of(info)->Ok_0.files.contains(f) <==> exists|names: Seq<Seq<u8>>, leaf: Bencode|
            #[trigger]
            stands_below(tree, names, leaf) && leaf_tells(leaf, f) && f.path == in_text(names),
{
    let files = info_v2_of(info)->Ok_0.files;
    let none = Seq::<Seq<char>>::empty();
    assert(files == flat_of(tree_of(tree)->Ok_0, none)->Ok_0);
    if files.contains(f) {
        let (names, leaf) = lemma_told(tree, none, f);
        assert(none + in_text(names) =~= in_text(names));
        assert(stands_below(tree, names, leaf) && leaf_tells(leaf, f) && f.path == in_text(names));
    }
    if exists|names: Seq<Seq<u8>>, leaf: Bencode| #[trigger]
        stands_below(tree, names, leaf) && leaf_tells(leaf, f) && f.path == in_text(names) {
        let (names, leaf) = choose|names: Seq<Seq<u8>>, leaf: Bencode| #[trigger]
            stands_below(tree, names, leaf) && leaf_tells(leaf, f) && f.path == in_text(names);
        assert(none + in_text(names) =~= in_text(names));
        lemma_listed(tree, none, names, leaf, f);
    }
}

/// An accepted description of the second version says so, has a piece length that is a power of
/// two and at least 16384, and a name that stays inside; each is read from the key that names it.
pub proof fn what_a_second_description_says(v: Bencode)
    requires
        info_v2_of(v) is Ok,
    ensures
        ({
            let m = info_v2_of(v)->Ok_0;
            &&& int_field(v, seq![109u8, 101, 116, 97, 32, 118, 101, 114, 115, 105, 111, 110]) == Some(2int)
            &&& int_field(v, seq![112u8, 105, 101, 99, 101, 32, 108, 101, 110, 103, 116, 104]) == Some(m.piece_length as int)
            &&& m.piece_length >= 16384
            &&& exists|k: nat| #[trigger] vstd::arithmetic::power2::pow2(k) == m.piece_length
            &&& text_field(v, seq![110u8, 97, 109, 101]) == Some(m.name)
            &&& !unsafe_name(m.name)
            &&& m.private <==> (int_field(v, seq![112u8, 114, 105, 118, 97, 116, 101]) is Some && int_field(v, seq![112u8, 114, 105, 118, 97, 116, 101]) != Some(
                0int,
            ))
            &&& m.files.len() > 0
            &&& 0 < crate::meta::metainfo::files_v2_length(m.files) <= u64::MAX
        }),
{
    lemma_power(info_v2_of(v)->Ok_0.piece_length as nat);
}

proof fn lemma_power(n: nat)
    ensures
        crate::meta::metainfo::tree::power_of_two(n) <==> exists|k: nat| #[trigger]
            vstd::arithmetic::power2::pow2(k) == n,
    decreases n,
{
    vstd::arithmetic::power2::lemma2_to64();
    if n > 1 && n % 2 == 0 {
        lemma_power(n / 2);
        if crate::meta::metainfo::tree::power_of_two(n / 2) {
            let k = choose|k: nat| #[trigger] vstd::arithmetic::power2::pow2(k) == n / 2;
            vstd::arithmetic::power2::lemma_pow2_unfold(k + 1);
            assert(vstd::arithmetic::power2::pow2(k + 1) == n);
        }
    }
    if exists|k: nat| #[trigger] vstd::arithmetic::power2::pow2(k) == n {
        let k = choose|k: nat| #[trigger] vstd::arithmetic::power2::pow2(k) == n;
        vstd::arithmetic::power2::lemma_pow2_pos(k);
        if k > 0 {
            vstd::arithmetic::power2::lemma_pow2_unfold(k);
            assert(vstd::arithmetic::power2::pow2((k - 1) as nat) == n / 2);
            vstd::arithmetic::power2::lemma_pow2_pos((k - 1) as nat);
        }
    }
    if n == 1 {
        assert(vstd::arithmetic::power2::pow2(0) == n);
    }
}

proof fn lemma_layers(d: Seq<(Seq<u8>, Bencode)>)
    ensures
        layer_entries(d) is Ok <==> (forall|i: int|
            0 <= i < d.len() ==> (#[trigger] d[i]).0.len() == 32 && (d[i].1 matches Bencode::Bytes(b)
                && b.len() % 32 == 0)),
        layer_entries(d) matches Ok(m) ==> ranked(m) && forall|k: Seq<u8>, b: Seq<u8>| #[trigger]
            m.contains((k, b)) <==> exists|i: int| #[trigger]
                last_under(d, k, i) && d[i].1 == Bencode::Bytes(b),
    decreases d.len(),
{
    if d.len() > 0 {
        let front = d.drop_last();
        lemma_layers(front);
        assert(d[d.len() - 1] == d.last());
        if layer_entries(d) is Ok {
            assert forall|i: int| 0 <= i < d.len() implies (#[trigger] d[i]).0.len() == 32 && (
            d[i].1 matches Bencode::Bytes(b) && b.len() % 32 == 0) by {
                if i < front.len() {
                    assert(front[i] == d[i]);
                }
            }
            let c = layer_entries(front)->Ok_0;
            let key = d.last().0;
            let value = d.last().1->Bytes_0;
            let m = layer_entries(d)->Ok_0;
            ranked_put_keeps_order(c, key, value);
            ranked_put_members(c, key, value);
            assert forall|k: Seq<u8>, b: Seq<u8>| #[trigger] m.contains((k, b)) <==> exists|i: int|
                #[trigger]
                last_under(d, k, i) && d[i].1 == Bencode::Bytes(b) by {
                if k == key {
                    lemma_last_under(d, k, d.len() - 1);
                    assert(last_under(d, k, d.len() - 1));
                    if exists|i: int| #[trigger] last_under(d, k, i) && d[i].1 == Bencode::Bytes(b) {
                        let i = choose|i: int| #[trigger]
                            last_under(d, k, i) && d[i].1 == Bencode::Bytes(b);
                        lemma_last_under(d, k, i);
                    }
                } else {
                    assert(m.contains((k, b)) <==> c.contains((k, b)));
                    if c.contains((k, b)) {
                        let i = choose|i: int| #[trigger]
                            last_under(front, k, i) && front[i].1 == Bencode::Bytes(b);
                        lemma_last_under(d, k, i);
                        assert(front[i] == d[i]);
                    }
                    if exists|i: int| #[trigger] last_under(d, k, i) && d[i].1 == Bencode::Bytes(b) {
                        let i = choose|i: int| #[trigger]
                            last_under(d, k, i) && d[i].1 == Bencode::Bytes(b);
                        lemma_last_under(d, k, i);
                        assert(front[i] == d[i]);
                    }
                }
            }
        } else if forall|i: int|
            0 <= i < d.len() ==> (#[trigger] d[i]).0.len() == 32 && (d[i].1 matches Bencode::Bytes(b)
                && b.len() % 32 == 0) {
            assert forall|i: int| 0 <= i < front.len() implies (#[trigger] front[i]).0.len() == 32
                && (front[i].1 matches Bencode::Bytes(b) && b.len() % 32 == 0) by {
                assert(front[i] == d[i]);
            }
            assert(d[d.len() - 1].0.len() == 32);
            assert(false);
        }
    } else if layer_entries(d) is Ok {
        assert forall|k: Seq<u8>, b: Seq<u8>| !#[trigger] layer_entries(d)->Ok_0.contains(
            (k, b),
        ) by {}
    }
}

/// The digests of pieces are those that stand under "piece layers": of two entries for one file
/// the later counts, and none is left out. They are accepted exactly where every key is a digest
/// and every value is made of whole digests.
pub proof fn what_the_layers_say(v: Bencode, k: Seq<u8>, b: Seq<u8>)
    ensures
        field(v, seq![112u8, 105, 101, 99, 101, 32, 108, 97, 121, 101, 114, 115]) is None ==> (layers_of(v) matches Ok(m)
            && m.len() == 0),
        field(v, seq![112u8, 105, 101, 99, 101, 32, 108, 97, 121, 101, 114, 115]) matches Some(x) && !(x is Dict) ==> layers_of(v) is Err,
        field(v, seq![112u8, 105, 101, 99, 101, 32, 108, 97, 121, 101, 114, 115]) matches Some(Bencode::Dict(d)) ==> {
            &&& layers_of(v) is Ok <==> (forall|i: int|
                0 <= i < d.len() ==> (#[trigger] d[i]).0.len() == 32 && (
                d[i].1 matches Bencode::Bytes(x) && x.len() % 32 == 0))
            &&& layers_of(v) matches Ok(m) ==> (m.contains((k, b)) <==> exists|i: int| #[trigger]
                last_under(d, k, i) && d[i].1 == Bencode::Bytes(b))
        },
{
    if let Some(Bencode::Dict(d)) = field(v, seq![112u8, 105, 101, 99, 101, 32, 108, 97, 121, 101, 114, 115]) {
        lemma_layers(d);
    }
}

/// A torrent of the second version only is accepted just where every file that takes more than a
/// piece has the digests of its pieces.
pub proof fn long_files_need_their_digests(v: Bencode, info: Bencode, raw: Seq<u8>)
    requires
        info is Dict,
        field(info, seq![112u8, 105, 101, 99, 101, 115]) is None,
        int_field(info, seq![109u8, 101, 116, 97, 32, 118, 101, 114, 115, 105, 111, 110]) == Some(2int),
        field(info, seq![102u8, 105, 108, 101, 32, 116, 114, 101, 101]) is Some,
        info_v2_of(info) is Ok,
        layers_of(v) is Ok,
    ensures
        ({
            let v2 = info_v2_of(info)->Ok_0;
            let layers = layers_of(v)->Ok_0;
            &&& described(v, info, raw) is Ok <==> (forall|i: int|
                0 <= i < v2.files.len() && (#[trigger] v2.files[i]).length > v2.piece_length
                    ==> exists|j: int|
                    0 <= j < layers.len() && (#[trigger] layers[j]).0 == v2.files[i].pieces_root@)
            &&& described(v, info, raw) is Err ==> described(v, info, raw) == Err::<
                MetaModel,
                MetaError,
            >(MetaError::MissingPieceLayers)
        }),
{
    let v2 = info_v2_of(info)->Ok_0;
    let layers = layers_of(v)->Ok_0;
    if let Some(Bencode::Dict(d)) = field(v, seq![112u8, 105, 101, 99, 101, 32, 108, 97, 121, 101, 114, 115]) {
        lemma_layers(d);
    }
    assert(ranked(layers));
    assert forall|i: int| 0 <= i < v2.files.len() implies (ranked_has(
        layers,
        (#[trigger] v2.files[i]).pieces_root@,
    ) <==> exists|j: int| 0 <= j < layers.len() && (#[trigger] layers[j]).0
        == v2.files[i].pieces_root@) by {
        ranked_has_its_keys(layers, v2.files[i].pieces_root@);
    }
}

proof fn lemma_pushed<T>(s: Seq<T>, last: T, x: T)
    ensures
        s.push(last).contains(x) <==> s.contains(x) || x == last,
{
    let t = s.push(last);
    assert(t[s.len() as int] == last);
    if s.contains(x) {
        let i = choose|i: int| 0 <= i < s.len() && s[i] == x;
        assert(t[i] == x);
    }
    if t.contains(x) {
        let i = choose|i: int| 0 <= i < t.len() && t[i] == x;
        if i < s.len() {
            assert(s[i] == x);
        }
    }
}

/// True when `t` is the normal form of a text of a list that can be the address of a web seed.
pub open spec fn seed_in(items: Seq<Bencode>, t: Seq<char>) -> bool {
    exists|i: int|
        0 <= i < items.len() && (text_in(#[trigger] items[i]) matches Some(raw) && base_of(raw)
            == Ok::<Seq<char>, WebSeedFault>(t))
}

proof fn lemma_seeds(items: Seq<Bencode>)
    ensures
        usable_urls(items).no_duplicates(),
        forall|t: Seq<char>| #[trigger] usable_urls(items).contains(t) <==> seed_in(items, t),
    decreases items.len(),
{
    if items.len() > 0 {
        let front = items.drop_last();
        lemma_seeds(front);
        let before = usable_urls(front);
        let out = usable_urls(items);
        let last = items.len() - 1;
        assert(items[last] == items.last());
        assert forall|t: Seq<char>| #[trigger] out.contains(t) <==> seed_in(items, t) by {
            assert(before.contains(t) <==> seed_in(front, t));
            if seed_in(front, t) {
                let i = choose|i: int|
                    0 <= i < front.len() && (text_in(#[trigger] front[i]) matches Some(raw)
                        && base_of(raw) == Ok::<Seq<char>, WebSeedFault>(t));
                assert(items[i] == front[i]);
            }
            if seed_in(items, t) {
                let i = choose|i: int|
                    0 <= i < items.len() && (text_in(#[trigger] items[i]) matches Some(raw)
                        && base_of(raw) == Ok::<Seq<char>, WebSeedFault>(t));
                if i < last {
                    assert(items[i] == front[i]);
                }
            }
            if let Some(raw) = text_in(items.last()) {
                if let Ok(u) = base_of(raw) {
                    lemma_pushed(before, u, t);
                    assert(text_in(items[last]) == Some(raw));
                    assert(u == t ==> seed_in(items, t));
                }
            }
        }
    }
}

/// The web seeds of a torrent are every address that can be used, each once: of the one text or of
/// the list of texts under the key, and none where anything else stands there.
pub proof fn every_web_seed_is_read(u: Bencode, t: Seq<char>)
    ensures
        url_list(u).no_duplicates(),
        u matches Bencode::List(items) ==> (url_list(u).contains(t) <==> seed_in(items, t)),
        u is Bytes ==> (url_list(u).contains(t) <==> (text_in(u) matches Some(raw) && base_of(raw)
            == Ok::<Seq<char>, WebSeedFault>(t))),
        u is Int || u is Dict ==> url_list(u).len() == 0,
{
    if let Bencode::List(items) = u {
        lemma_seeds(items);
    }
    let one = seq![u];
    lemma_seeds(one);
    assert(one[0] == u);
    if u is Bytes && seed_in(one, t) {
        let i = choose|i: int|
            0 <= i < one.len() && (text_in(#[trigger] one[i]) matches Some(raw) && base_of(raw)
                == Ok::<Seq<char>, WebSeedFault>(t));
        assert(one[i] == u);
    }
}

} // verus!
