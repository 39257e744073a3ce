//! The byte strings that the bencoded formats know by name.

use vstd::prelude::*;

verus! {

/// "id".
pub open spec fn w_id() -> Seq<u8> {
    seq![105u8, 100]
}

/// "id".
pub fn id() -> (r: Vec<u8>)
    ensures
        r@ == w_id(),
{
    let r: Vec<u8> = vec![105u8, 100];
    assert(r@ =~= w_id());
    r
}

/// "info_hash".
pub open spec fn w_info_hash() -> Seq<u8> {
    seq![105u8, 110, 102, 111, 95, 104, 97, 115, 104]
}

/// "info_hash".
pub fn info_hash() -> (r: Vec<u8>)
    ensures
        r@ == w_info_hash(),
{
    let r: Vec<u8> = vec![105u8, 110, 102, 111, 95, 104, 97, 115, 104];
    assert(r@ =~= w_info_hash());
    r
}

/// "want".
pub open spec fn w_want() -> Seq<u8> {
    seq![119u8, 97, 110, 116]
}

/// "want".
pub fn want() -> (r: Vec<u8>)
    ensures
        r@ == w_want(),
{
    let r: Vec<u8> = vec![119u8, 97, 110, 116];
    assert(r@ =~= w_want());
    r
}

/// "n4".
pub open spec fn w_n4() -> Seq<u8> {
    seq![110u8, 52]
}

/// "n4".
pub fn n4() -> (r: Vec<u8>)
    ensures
        r@ == w_n4(),
{
    let r: Vec<u8> = vec![110u8, 52];
    assert(r@ =~= w_n4());
    r
}

/// "n6".
pub open spec fn w_n6() -> Seq<u8> {
    seq![110u8, 54]
}

/// "n6".
pub fn n6() -> (r: Vec<u8>)
    ensures
        r@ == w_n6(),
{
    let r: Vec<u8> = vec![110u8, 54];
    assert(r@ =~= w_n6());
    r
}

/// "a".
pub open spec fn w_a() -> Seq<u8> {
    seq![97u8]
}

/// "a".
pub fn a() -> (r: Vec<u8>)
    ensures
        r@ == w_a(),
{
    let r: Vec<u8> = vec![97u8];
    assert(r@ =~= w_a());
    r
}

/// "q".
pub open spec fn w_q() -> Seq<u8> {
    seq![113u8]
}

/// "q".
pub fn q() -> (r: Vec<u8>)
    ensures
        r@ == w_q(),
{
    let r: Vec<u8> = vec![113u8];
    assert(r@ =~= w_q());
    r
}

/// "t".
pub open spec fn w_t() -> Seq<u8> {
    seq![116u8]
}

/// "t".
pub fn t() -> (r: Vec<u8>)
    ensures
        r@ == w_t(),
{
    let r: Vec<u8> = vec![116u8];
    assert(r@ =~= w_t());
    r
}

/// "y".
pub open spec fn w_y() -> Seq<u8> {
    seq![121u8]
}

/// "y".
pub fn y() -> (r: Vec<u8>)
    ensures
        r@ == w_y(),
{
    let r: Vec<u8> = vec![121u8];
    assert(r@ =~= w_y());
    r
}

/// "r".
pub open spec fn w_r() -> Seq<u8> {
    seq![114u8]
}

/// "r".
pub fn r() -> (r: Vec<u8>)
    ensures
        r@ == w_r(),
{
    let r: Vec<u8> = vec![114u8];
    assert(r@ =~= w_r());
    r
}

/// "e".
pub open spec fn w_e() -> Seq<u8> {
    seq![101u8]
}

/// "e".
pub fn e() -> (r: Vec<u8>)
    ensures
        r@ == w_e(),
{
    let r: Vec<u8> = vec![101u8];
    assert(r@ =~= w_e());
    r
}

/// "ping".
pub open spec fn w_ping() -> Seq<u8> {
    seq![112u8, 105, 110, 103]
}

/// "ping".
pub fn ping() -> (r: Vec<u8>)
    ensures
        r@ == w_ping(),
{
    let r: Vec<u8> = vec![112u8, 105, 110, 103];
    assert(r@ =~= w_ping());
    r
}

/// "find_node".
pub open spec fn w_find_node() -> Seq<u8> {
    seq![102u8, 105, 110, 100, 95, 110, 111, 100, 101]
}

/// "find_node".
pub fn find_node() -> (r: Vec<u8>)
    ensures
        r@ == w_find_node(),
{
    let r: Vec<u8> = vec![102u8, 105, 110, 100, 95, 110, 111, 100, 101];
    assert(r@ =~= w_find_node());
    r
}

/// "get_peers".
pub open spec fn w_get_peers() -> Seq<u8> {
    seq![103u8, 101, 116, 95, 112, 101, 101, 114, 115]
}

/// "get_peers".
pub fn get_peers() -> (r: Vec<u8>)
    ensures
        r@ == w_get_peers(),
{
    let r: Vec<u8> = vec![103u8, 101, 116, 95, 112, 101, 101, 114, 115];
    assert(r@ =~= w_get_peers());
    r
}

/// "announce_peer".
pub open spec fn w_announce_peer() -> Seq<u8> {
    seq![97u8, 110, 110, 111, 117, 110, 99, 101, 95, 112, 101, 101, 114]
}

/// "announce_peer".
pub fn announce_peer() -> (r: Vec<u8>)
    ensures
        r@ == w_announce_peer(),
{
    let r: Vec<u8> = vec![97u8, 110, 110, 111, 117, 110, 99, 101, 95, 112, 101, 101, 114];
    assert(r@ =~= w_announce_peer());
    r
}

/// "implied_port".
pub open spec fn w_implied_port() -> Seq<u8> {
    seq![105u8, 109, 112, 108, 105, 101, 100, 95, 112, 111, 114, 116]
}

/// "implied_port".
pub fn implied_port() -> (r: Vec<u8>)
    ensures
        r@ == w_implied_port(),
{
    let r: Vec<u8> = vec![105u8, 109, 112, 108, 105, 101, 100, 95, 112, 111, 114, 116];
    assert(r@ =~= w_implied_port());
    r
}

/// "port".
pub open spec fn w_port() -> Seq<u8> {
    seq![112u8, 111, 114, 116]
}

/// "port".
pub fn port() -> (r: Vec<u8>)
    ensures
        r@ == w_port(),
{
    let r: Vec<u8> = vec![112u8, 111, 114, 116];
    assert(r@ =~= w_port());
    r
}

/// "token".
pub open spec fn w_token() -> Seq<u8> {
    seq![116u8, 111, 107, 101, 110]
}

/// "token".
pub fn token() -> (r: Vec<u8>)
    ensures
        r@ == w_token(),
{
    let r: Vec<u8> = vec![116u8, 111, 107, 101, 110];
    assert(r@ =~= w_token());
    r
}

/// "values".
pub open spec fn w_values() -> Seq<u8> {
    seq![118u8, 97, 108, 117, 101, 115]
}

/// "values".
pub fn values() -> (r: Vec<u8>)
    ensures
        r@ == w_values(),
{
    let r: Vec<u8> = vec![118u8, 97, 108, 117, 101, 115];
    assert(r@ =~= w_values());
    r
}

/// "nodes".
pub open spec fn w_nodes() -> Seq<u8> {
    seq![110u8, 111, 100, 101, 115]
}

/// "nodes".
pub fn nodes() -> (r: Vec<u8>)
    ensures
        r@ == w_nodes(),
{
    let r: Vec<u8> = vec![110u8, 111, 100, 101, 115];
    assert(r@ =~= w_nodes());
    r
}

/// "nodes6".
pub open spec fn w_nodes6() -> Seq<u8> {
    seq![110u8, 111, 100, 101, 115, 54]
}

/// "nodes6".
pub fn nodes6() -> (r: Vec<u8>)
    ensures
        r@ == w_nodes6(),
{
    let r: Vec<u8> = vec![110u8, 111, 100, 101, 115, 54];
    assert(r@ =~= w_nodes6());
    r
}

/// "target".
pub open spec fn w_target() -> Seq<u8> {
    seq![116u8, 97, 114, 103, 101, 116]
}

/// "target".
pub fn target() -> (r: Vec<u8>)
    ensures
        r@ == w_target(),
{
    let r: Vec<u8> = vec![116u8, 97, 114, 103, 101, 116];
    assert(r@ =~= w_target());
    r
}

/// "missing query".
pub open spec fn w_missing_query() -> Seq<u8> {
    seq![109u8, 105, 115, 115, 105, 110, 103, 32, 113, 117, 101, 114, 121]
}

/// "missing query".
pub fn missing_query() -> (r: Vec<u8>)
    ensures
        r@ == w_missing_query(),
{
    let r: Vec<u8> = vec![109u8, 105, 115, 115, 105, 110, 103, 32, 113, 117, 101, 114, 121];
    assert(r@ =~= w_missing_query());
    r
}

/// "missing arguments".
pub open spec fn w_missing_arguments() -> Seq<u8> {
    seq![109u8, 105, 115, 115, 105, 110, 103, 32, 97, 114, 103, 117, 109, 101, 110, 116, 115]
}

/// "missing arguments".
pub fn missing_arguments() -> (r: Vec<u8>)
    ensures
        r@ == w_missing_arguments(),
{
    let r: Vec<u8> = vec![109u8, 105, 115, 115, 105, 110, 103, 32, 97, 114, 103, 117, 109, 101, 110, 116, 115];
    assert(r@ =~= w_missing_arguments());
    r
}

/// "invalid id".
pub open spec fn w_invalid_id() -> Seq<u8> {
    seq![105u8, 110, 118, 97, 108, 105, 100, 32, 105, 100]
}

/// "invalid id".
pub fn invalid_id() -> (r: Vec<u8>)
    ensures
        r@ == w_invalid_id(),
{
    let r: Vec<u8> = vec![105u8, 110, 118, 97, 108, 105, 100, 32, 105, 100];
    assert(r@ =~= w_invalid_id());
    r
}

/// "invalid target".
pub open spec fn w_invalid_target() -> Seq<u8> {
    seq![105u8, 110, 118, 97, 108, 105, 100, 32, 116, 97, 114, 103, 101, 116]
}

/// "invalid target".
pub fn invalid_target() -> (r: Vec<u8>)
    ensures
        r@ == w_invalid_target(),
{
    let r: Vec<u8> = vec![105u8, 110, 118, 97, 108, 105, 100, 32, 116, 97, 114, 103, 101, 116];
    assert(r@ =~= w_invalid_target());
    r
}

/// "invalid info_hash".
pub open spec fn w_invalid_info_hash() -> Seq<u8> {
    seq![105u8, 110, 118, 97, 108, 105, 100, 32, 105, 110, 102, 111, 95, 104, 97, 115, 104]
}

/// "invalid info_hash".
pub fn invalid_info_hash() -> (r: Vec<u8>)
    ensures
        r@ == w_invalid_info_hash(),
{
    let r: Vec<u8> = vec![105u8, 110, 118, 97, 108, 105, 100, 32, 105, 110, 102, 111, 95, 104, 97, 115, 104];
    assert(r@ =~= w_invalid_info_hash());
    r
}

/// "missing token".
pub open spec fn w_missing_token() -> Seq<u8> {
    seq![109u8, 105, 115, 115, 105, 110, 103, 32, 116, 111, 107, 101, 110]
}

/// "missing token".
pub fn missing_token() -> (r: Vec<u8>)
    ensures
        r@ == w_missing_token(),
{
    let r: Vec<u8> = vec![109u8, 105, 115, 115, 105, 110, 103, 32, 116, 111, 107, 101, 110];
    assert(r@ =~= w_missing_token());
    r
}

/// "invalid token".
pub open spec fn w_invalid_token() -> Seq<u8> {
    seq![105u8, 110, 118, 97, 108, 105, 100, 32, 116, 111, 107, 101, 110]
}

/// "invalid token".
pub fn invalid_token() -> (r: Vec<u8>)
    ensures
        r@ == w_invalid_token(),
{
    let r: Vec<u8> = vec![105u8, 110, 118, 97, 108, 105, 100, 32, 116, 111, 107, 101, 110];
    assert(r@ =~= w_invalid_token());
    r
}

/// "invalid implied_port".
pub open spec fn w_invalid_implied_port() -> Seq<u8> {
    seq![105u8, 110, 118, 97, 108, 105, 100, 32, 105, 109, 112, 108, 105, 101, 100, 95, 112, 111, 114, 116]
}

/// "invalid implied_port".
pub fn invalid_implied_port() -> (r: Vec<u8>)
    ensures
        r@ == w_invalid_implied_port(),
{
    let r: Vec<u8> = vec![105u8, 110, 118, 97, 108, 105, 100, 32, 105, 109, 112, 108, 105, 101, 100, 95, 112, 111, 114, 116];
    assert(r@ =~= w_invalid_implied_port());
    r
}

/// "invalid port".
pub open spec fn w_invalid_port() -> Seq<u8> {
    seq![105u8, 110, 118, 97, 108, 105, 100, 32, 112, 111, 114, 116]
}

/// "invalid port".
pub fn invalid_port() -> (r: Vec<u8>)
    ensures
        r@ == w_invalid_port(),
{
    let r: Vec<u8> = vec![105u8, 110, 118, 97, 108, 105, 100, 32, 112, 111, 114, 116];
    assert(r@ =~= w_invalid_port());
    r
}

/// "method unknown".
pub open spec fn w_method_unknown() -> Seq<u8> {
    seq![109u8, 101, 116, 104, 111, 100, 32, 117, 110, 107, 110, 111, 119, 110]
}

/// "method unknown".
pub fn method_unknown() -> (r: Vec<u8>)
    ensures
        r@ == w_method_unknown(),
{
    let r: Vec<u8> = vec![109u8, 101, 116, 104, 111, 100, 32, 117, 110, 107, 110, 111, 119, 110];
    assert(r@ =~= w_method_unknown());
    r
}

/// "invalid bencode".
pub open spec fn w_invalid_bencode() -> Seq<u8> {
    seq![105u8, 110, 118, 97, 108, 105, 100, 32, 98, 101, 110, 99, 111, 100, 101]
}

/// "invalid bencode".
pub fn invalid_bencode() -> (r: Vec<u8>)
    ensures
        r@ == w_invalid_bencode(),
{
    let r: Vec<u8> = vec![105u8, 110, 118, 97, 108, 105, 100, 32, 98, 101, 110, 99, 111, 100, 101];
    assert(r@ =~= w_invalid_bencode());
    r
}

/// "m".
pub open spec fn w_m() -> Seq<u8> {
    seq![109u8]
}

/// "m".
pub fn m() -> (r: Vec<u8>)
    ensures
        r@ == w_m(),
{
    let r: Vec<u8> = vec![109u8];
    assert(r@ =~= w_m());
    r
}

/// "metadata_size".
pub open spec fn w_metadata_size() -> Seq<u8> {
    seq![109u8, 101, 116, 97, 100, 97, 116, 97, 95, 115, 105, 122, 101]
}

/// "metadata_size".
pub fn metadata_size() -> (r: Vec<u8>)
    ensures
        r@ == w_metadata_size(),
{
    let r: Vec<u8> = vec![109u8, 101, 116, 97, 100, 97, 116, 97, 95, 115, 105, 122, 101];
    assert(r@ =~= w_metadata_size());
    r
}

/// "v".
pub open spec fn w_v() -> Seq<u8> {
    seq![118u8]
}

/// "v".
pub fn v() -> (r: Vec<u8>)
    ensures
        r@ == w_v(),
{
    let r: Vec<u8> = vec![118u8];
    assert(r@ =~= w_v());
    r
}

/// "yourip".
pub open spec fn w_yourip() -> Seq<u8> {
    seq![121u8, 111, 117, 114, 105, 112]
}

/// "yourip".
pub fn yourip() -> (r: Vec<u8>)
    ensures
        r@ == w_yourip(),
{
    let r: Vec<u8> = vec![121u8, 111, 117, 114, 105, 112];
    assert(r@ =~= w_yourip());
    r
}

/// "p".
pub open spec fn w_p() -> Seq<u8> {
    seq![112u8]
}

/// "p".
pub fn p() -> (r: Vec<u8>)
    ensures
        r@ == w_p(),
{
    let r: Vec<u8> = vec![112u8];
    assert(r@ =~= w_p());
    r
}

/// "ipv4".
pub open spec fn w_ipv4() -> Seq<u8> {
    seq![105u8, 112, 118, 52]
}

/// "ipv4".
pub fn ipv4() -> (r: Vec<u8>)
    ensures
        r@ == w_ipv4(),
{
    let r: Vec<u8> = vec![105u8, 112, 118, 52];
    assert(r@ =~= w_ipv4());
    r
}

/// "ipv6".
pub open spec fn w_ipv6() -> Seq<u8> {
    seq![105u8, 112, 118, 54]
}

/// "ipv6".
pub fn ipv6() -> (r: Vec<u8>)
    ensures
        r@ == w_ipv6(),
{
    let r: Vec<u8> = vec![105u8, 112, 118, 54];
    assert(r@ =~= w_ipv6());
    r
}

/// "reqq".
pub open spec fn w_reqq() -> Seq<u8> {
    seq![114u8, 101, 113, 113]
}

/// "reqq".
pub fn reqq() -> (r: Vec<u8>)
    ensures
        r@ == w_reqq(),
{
    let r: Vec<u8> = vec![114u8, 101, 113, 113];
    assert(r@ =~= w_reqq());
    r
}

/// "ut_metadata".
pub open spec fn w_ut_metadata() -> Seq<u8> {
    seq![117u8, 116, 95, 109, 101, 116, 97, 100, 97, 116, 97]
}

/// "ut_metadata".
pub fn ut_metadata() -> (r: Vec<u8>)
    ensures
        r@ == w_ut_metadata(),
{
    let r: Vec<u8> = vec![117u8, 116, 95, 109, 101, 116, 97, 100, 97, 116, 97];
    assert(r@ =~= w_ut_metadata());
    r
}

/// "ut_pex".
pub open spec fn w_ut_pex() -> Seq<u8> {
    seq![117u8, 116, 95, 112, 101, 120]
}

/// "ut_pex".
pub fn ut_pex() -> (r: Vec<u8>)
    ensures
        r@ == w_ut_pex(),
{
    let r: Vec<u8> = vec![117u8, 116, 95, 112, 101, 120];
    assert(r@ =~= w_ut_pex());
    r
}

/// "ut_holepunch".
pub open spec fn w_ut_holepunch() -> Seq<u8> {
    seq![117u8, 116, 95, 104, 111, 108, 101, 112, 117, 110, 99, 104]
}

/// "ut_holepunch".
pub fn ut_holepunch() -> (r: Vec<u8>)
    ensures
        r@ == w_ut_holepunch(),
{
    let r: Vec<u8> = vec![117u8, 116, 95, 104, 111, 108, 101, 112, 117, 110, 99, 104];
    assert(r@ =~= w_ut_holepunch());
    r
}

/// "msg_type".
pub open spec fn w_msg_type() -> Seq<u8> {
    seq![109u8, 115, 103, 95, 116, 121, 112, 101]
}

/// "msg_type".
pub fn msg_type() -> (r: Vec<u8>)
    ensures
        r@ == w_msg_type(),
{
    let r: Vec<u8> = vec![109u8, 115, 103, 95, 116, 121, 112, 101];
    assert(r@ =~= w_msg_type());
    r
}

/// "piece".
pub open spec fn w_piece() -> Seq<u8> {
    seq![112u8, 105, 101, 99, 101]
}

/// "piece".
pub fn piece() -> (r: Vec<u8>)
    ensures
        r@ == w_piece(),
{
    let r: Vec<u8> = vec![112u8, 105, 101, 99, 101];
    assert(r@ =~= w_piece());
    r
}

/// "total_size".
pub open spec fn w_total_size() -> Seq<u8> {
    seq![116u8, 111, 116, 97, 108, 95, 115, 105, 122, 101]
}

/// "total_size".
pub fn total_size() -> (r: Vec<u8>)
    ensures
        r@ == w_total_size(),
{
    let r: Vec<u8> = vec![116u8, 111, 116, 97, 108, 95, 115, 105, 122, 101];
    assert(r@ =~= w_total_size());
    r
}

/// "added".
pub open spec fn w_added() -> Seq<u8> {
    seq![97u8, 100, 100, 101, 100]
}

/// "added".
pub fn added() -> (r: Vec<u8>)
    ensures
        r@ == w_added(),
{
    let r: Vec<u8> = vec![97u8, 100, 100, 101, 100];
    assert(r@ =~= w_added());
    r
}

/// "added.f".
pub open spec fn w_added_f() -> Seq<u8> {
    seq![97u8, 100, 100, 101, 100, 46, 102]
}

/// "added.f".
pub fn added_f() -> (r: Vec<u8>)
    ensures
        r@ == w_added_f(),
{
    let r: Vec<u8> = vec![97u8, 100, 100, 101, 100, 46, 102];
    assert(r@ =~= w_added_f());
    r
}

/// "added6".
pub open spec fn w_added6() -> Seq<u8> {
    seq![97u8, 100, 100, 101, 100, 54]
}

/// "added6".
pub fn added6() -> (r: Vec<u8>)
    ensures
        r@ == w_added6(),
{
    let r: Vec<u8> = vec![97u8, 100, 100, 101, 100, 54];
    assert(r@ =~= w_added6());
    r
}

/// "added6.f".
pub open spec fn w_added6_f() -> Seq<u8> {
    seq![97u8, 100, 100, 101, 100, 54, 46, 102]
}

/// "added6.f".
pub fn added6_f() -> (r: Vec<u8>)
    ensures
        r@ == w_added6_f(),
{
    let r: Vec<u8> = vec![97u8, 100, 100, 101, 100, 54, 46, 102];
    assert(r@ =~= w_added6_f());
    r
}

/// "dropped".
pub open spec fn w_dropped() -> Seq<u8> {
    seq![100u8, 114, 111, 112, 112, 101, 100]
}

/// "dropped".
pub fn dropped() -> (r: Vec<u8>)
    ensures
        r@ == w_dropped(),
{
    let r: Vec<u8> = vec![100u8, 114, 111, 112, 112, 101, 100];
    assert(r@ =~= w_dropped());
    r
}

/// "dropped6".
pub open spec fn w_dropped6() -> Seq<u8> {
    seq![100u8, 114, 111, 112, 112, 101, 100, 54]
}

/// "dropped6".
pub fn dropped6() -> (r: Vec<u8>)
    ensures
        r@ == w_dropped6(),
{
    let r: Vec<u8> = vec![100u8, 114, 111, 112, 112, 101, 100, 54];
    assert(r@ =~= w_dropped6());
    r
}

/// "announce".
pub open spec fn w_announce() -> Seq<u8> {
    seq![97u8, 110, 110, 111, 117, 110, 99, 101]
}

/// "announce".
pub fn announce() -> (r: Vec<u8>)
    ensures
        r@ == w_announce(),
{
    let r: Vec<u8> = vec![97u8, 110, 110, 111, 117, 110, 99, 101];
    assert(r@ =~= w_announce());
    r
}

/// "announce-list".
pub open spec fn w_announce_list() -> Seq<u8> {
    seq![97u8, 110, 110, 111, 117, 110, 99, 101, 45, 108, 105, 115, 116]
}

/// "announce-list".
pub fn announce_list() -> (r: Vec<u8>)
    ensures
        r@ == w_announce_list(),
{
    let r: Vec<u8> = vec![97u8, 110, 110, 111, 117, 110, 99, 101, 45, 108, 105, 115, 116];
    assert(r@ =~= w_announce_list());
    r
}

/// "comment".
pub open spec fn w_comment() -> Seq<u8> {
    seq![99u8, 111, 109, 109, 101, 110, 116]
}

/// "comment".
pub fn comment() -> (r: Vec<u8>)
    ensures
        r@ == w_comment(),
{
    let r: Vec<u8> = vec![99u8, 111, 109, 109, 101, 110, 116];
    assert(r@ =~= w_comment());
    r
}

/// "created by".
pub open spec fn w_created_by() -> Seq<u8> {
    seq![99u8, 114, 101, 97, 116, 101, 100, 32, 98, 121]
}

/// "created by".
pub fn created_by() -> (r: Vec<u8>)
    ensures
        r@ == w_created_by(),
{
    let r: Vec<u8> = vec![99u8, 114, 101, 97, 116, 101, 100, 32, 98, 121];
    assert(r@ =~= w_created_by());
    r
}

/// "creation date".
pub open spec fn w_creation_date() -> Seq<u8> {
    seq![99u8, 114, 101, 97, 116, 105, 111, 110, 32, 100, 97, 116, 101]
}

/// "creation date".
pub fn creation_date() -> (r: Vec<u8>)
    ensures
        r@ == w_creation_date(),
{
    let r: Vec<u8> = vec![99u8, 114, 101, 97, 116, 105, 111, 110, 32, 100, 97, 116, 101];
    assert(r@ =~= w_creation_date());
    r
}

/// "encoding".
pub open spec fn w_encoding() -> Seq<u8> {
    seq![101u8, 110, 99, 111, 100, 105, 110, 103]
}

/// "encoding".
pub fn encoding() -> (r: Vec<u8>)
    ensures
        r@ == w_encoding(),
{
    let r: Vec<u8> = vec![101u8, 110, 99, 111, 100, 105, 110, 103];
    assert(r@ =~= w_encoding());
    r
}

/// "info".
pub open spec fn w_info() -> Seq<u8> {
    seq![105u8, 110, 102, 111]
}

/// "info".
pub fn info() -> (r: Vec<u8>)
    ensures
        r@ == w_info(),
{
    let r: Vec<u8> = vec![105u8, 110, 102, 111];
    assert(r@ =~= w_info());
    r
}

/// "name".
pub open spec fn w_name() -> Seq<u8> {
    seq![110u8, 97, 109, 101]
}

/// "name".
pub fn name() -> (r: Vec<u8>)
    ensures
        r@ == w_name(),
{
    let r: Vec<u8> = vec![110u8, 97, 109, 101];
    assert(r@ =~= w_name());
    r
}

/// "piece length".
pub open spec fn w_piece_length() -> Seq<u8> {
    seq![112u8, 105, 101, 99, 101, 32, 108, 101, 110, 103, 116, 104]
}

/// "piece length".
pub fn piece_length() -> (r: Vec<u8>)
    ensures
        r@ == w_piece_length(),
{
    let r: Vec<u8> = vec![112u8, 105, 101, 99, 101, 32, 108, 101, 110, 103, 116, 104];
    assert(r@ =~= w_piece_length());
    r
}

/// "pieces".
pub open spec fn w_pieces() -> Seq<u8> {
    seq![112u8, 105, 101, 99, 101, 115]
}

/// "pieces".
pub fn pieces() -> (r: Vec<u8>)
    ensures
        r@ == w_pieces(),
{
    let r: Vec<u8> = vec![112u8, 105, 101, 99, 101, 115];
    assert(r@ =~= w_pieces());
    r
}

/// "private".
pub open spec fn w_private() -> Seq<u8> {
    seq![112u8, 114, 105, 118, 97, 116, 101]
}

/// "private".
pub fn private() -> (r: Vec<u8>)
    ensures
        r@ == w_private(),
{
    let r: Vec<u8> = vec![112u8, 114, 105, 118, 97, 116, 101];
    assert(r@ =~= w_private());
    r
}

/// "files".
pub open spec fn w_files() -> Seq<u8> {
    seq![102u8, 105, 108, 101, 115]
}

/// "files".
pub fn files() -> (r: Vec<u8>)
    ensures
        r@ == w_files(),
{
    let r: Vec<u8> = vec![102u8, 105, 108, 101, 115];
    assert(r@ =~= w_files());
    r
}

/// "length".
pub open spec fn w_length() -> Seq<u8> {
    seq![108u8, 101, 110, 103, 116, 104]
}

/// "length".
pub fn length() -> (r: Vec<u8>)
    ensures
        r@ == w_length(),
{
    let r: Vec<u8> = vec![108u8, 101, 110, 103, 116, 104];
    assert(r@ =~= w_length());
    r
}

/// "path".
pub open spec fn w_path() -> Seq<u8> {
    seq![112u8, 97, 116, 104]
}

/// "path".
pub fn path() -> (r: Vec<u8>)
    ensures
        r@ == w_path(),
{
    let r: Vec<u8> = vec![112u8, 97, 116, 104];
    assert(r@ =~= w_path());
    r
}

/// "meta version".
pub open spec fn w_meta_version() -> Seq<u8> {
    seq![109u8, 101, 116, 97, 32, 118, 101, 114, 115, 105, 111, 110]
}

/// "meta version".
pub fn meta_version() -> (r: Vec<u8>)
    ensures
        r@ == w_meta_version(),
{
    let r: Vec<u8> = vec![109u8, 101, 116, 97, 32, 118, 101, 114, 115, 105, 111, 110];
    assert(r@ =~= w_meta_version());
    r
}

/// "file tree".
pub open spec fn w_file_tree() -> Seq<u8> {
    seq![102u8, 105, 108, 101, 32, 116, 114, 101, 101]
}

/// "file tree".
pub fn file_tree() -> (r: Vec<u8>)
    ensures
        r@ == w_file_tree(),
{
    let r: Vec<u8> = vec![102u8, 105, 108, 101, 32, 116, 114, 101, 101];
    assert(r@ =~= w_file_tree());
    r
}

/// "pieces root".
pub open spec fn w_pieces_root() -> Seq<u8> {
    seq![112u8, 105, 101, 99, 101, 115, 32, 114, 111, 111, 116]
}

/// "pieces root".
pub fn pieces_root() -> (r: Vec<u8>)
    ensures
        r@ == w_pieces_root(),
{
    let r: Vec<u8> = vec![112u8, 105, 101, 99, 101, 115, 32, 114, 111, 111, 116];
    assert(r@ =~= w_pieces_root());
    r
}

/// "piece layers".
pub open spec fn w_piece_layers() -> Seq<u8> {
    seq![112u8, 105, 101, 99, 101, 32, 108, 97, 121, 101, 114, 115]
}

/// "piece layers".
pub fn piece_layers() -> (r: Vec<u8>)
    ensures
        r@ == w_piece_layers(),
{
    let r: Vec<u8> = vec![112u8, 105, 101, 99, 101, 32, 108, 97, 121, 101, 114, 115];
    assert(r@ =~= w_piece_layers());
    r
}

/// "url-list".
pub open spec fn w_url_list() -> Seq<u8> {
    seq![117u8, 114, 108, 45, 108, 105, 115, 116]
}

/// "url-list".
pub fn url_list() -> (r: Vec<u8>)
    ensures
        r@ == w_url_list(),
{
    let r: Vec<u8> = vec![117u8, 114, 108, 45, 108, 105, 115, 116];
    assert(r@ =~= w_url_list());
    r
}

/// The empty string.
pub open spec fn w_empty() -> Seq<u8> {
    seq![]
}

/// The empty string.
pub fn empty() -> (r: Vec<u8>)
    ensures
        r@ == w_empty(),
{
    let r: Vec<u8> = vec![];
    assert(r@ =~= w_empty());
    r
}

} // verus!
