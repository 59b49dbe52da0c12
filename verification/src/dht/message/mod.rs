//! KRPC messages of the mainline DHT: their keys, and the messages themselves.
use vstd::prelude::*;

pub mod error;
pub mod announce_peer;
pub mod compact_info;
pub mod put_data;
pub mod request;
pub mod ping;
pub mod find_node;
pub mod get_peers;
pub mod round_trip;

verus! {

/// Length of a node id in bytes.
pub const NODE_ID_LEN: usize = 20;

/// Whether `node_id` has the length of a node id.
pub fn is_valid_node_id(node_id: &[u8]) -> (r: bool)
    ensures
        r == (node_id@.len() == NODE_ID_LEN),
{
    node_id.len() == NODE_ID_LEN
}

/// Key of the transaction id of a message (`t`).
pub open spec fn transaction_id_key() -> Seq<u8> {
    seq![116u8]
}

/// Key of the transaction id of a message (`t`), as bytes.
pub fn transaction_id_key_bytes() -> (r: Vec<u8>)
    ensures
        r@ == transaction_id_key(),
{
    let r = vec![116u8];
    assert(r@ =~= transaction_id_key());
    r
}

/// Key of the kind of a message: request, response or error (`y`).
pub open spec fn message_type_key() -> Seq<u8> {
    seq![121u8]
}

/// Key of the kind of a message: request, response or error (`y`), as bytes.
pub fn message_type_key_bytes() -> (r: Vec<u8>)
    ensures
        r@ == message_type_key(),
{
    let r = vec![121u8];
    assert(r@ =~= message_type_key());
    r
}

/// Key of the method of a request; also the kind of a request (`q`).
pub open spec fn request_type_key() -> Seq<u8> {
    seq![113u8]
}

/// Key of the method of a request; also the kind of a request (`q`), as bytes.
pub fn request_type_key_bytes() -> (r: Vec<u8>)
    ensures
        r@ == request_type_key(),
{
    let r = vec![113u8];
    assert(r@ =~= request_type_key());
    r
}

/// Key of the arguments of a response; also the kind of a response (`r`).
pub open spec fn response_type_key() -> Seq<u8> {
    seq![114u8]
}

/// Key of the arguments of a response; also the kind of a response (`r`), as bytes.
pub fn response_type_key_bytes() -> (r: Vec<u8>)
    ensures
        r@ == response_type_key(),
{
    let r = vec![114u8];
    assert(r@ =~= response_type_key());
    r
}

/// Key of the arguments of an error; also the kind of an error (`e`).
pub open spec fn error_type_key() -> Seq<u8> {
    seq![101u8]
}

/// Key of the arguments of an error; also the kind of an error (`e`), as bytes.
pub fn error_type_key_bytes() -> (r: Vec<u8>)
    ensures
        r@ == error_type_key(),
{
    let r = vec![101u8];
    assert(r@ =~= error_type_key());
    r
}

/// Key of the arguments of a request (`a`).
pub open spec fn request_args_key() -> Seq<u8> {
    seq![97u8]
}

/// Key of the arguments of a request (`a`), as bytes.
pub fn request_args_key_bytes() -> (r: Vec<u8>)
    ensures
        r@ == request_args_key(),
{
    let r = vec![97u8];
    assert(r@ =~= request_args_key());
    r
}

/// Key of the id of the sending node (`id`).
pub open spec fn node_id_key() -> Seq<u8> {
    seq![105u8, 100u8]
}

/// Key of the id of the sending node (`id`), as bytes.
pub fn node_id_key_bytes() -> (r: Vec<u8>)
    ensures
        r@ == node_id_key(),
{
    let r = vec![105u8, 100u8];
    assert(r@ =~= node_id_key());
    r
}

/// Key of the compact nodes of a response (`nodes`).
pub open spec fn nodes_key() -> Seq<u8> {
    seq![110u8, 111u8, 100u8, 101u8, 115u8]
}

/// Key of the compact nodes of a response (`nodes`), as bytes.
pub fn nodes_key_bytes() -> (r: Vec<u8>)
    ensures
        r@ == nodes_key(),
{
    let r = vec![110u8, 111u8, 100u8, 101u8, 115u8];
    assert(r@ =~= nodes_key());
    r
}

/// Key of the peers of an answer to a peers request (`values`).
pub open spec fn values_key() -> Seq<u8> {
    seq![118u8, 97u8, 108u8, 117u8, 101u8, 115u8]
}

/// Key of the peers of an answer to a peers request (`values`), as bytes.
pub fn values_key_bytes() -> (r: Vec<u8>)
    ensures
        r@ == values_key(),
{
    let r = vec![118u8, 97u8, 108u8, 117u8, 101u8, 115u8];
    assert(r@ =~= values_key());
    r
}

/// Key of an info hash (`info_hash`).
pub open spec fn info_hash_key() -> Seq<u8> {
    seq![105u8, 110u8, 102u8, 111u8, 95u8, 104u8, 97u8, 115u8, 104u8]
}

/// Key of an info hash (`info_hash`), as bytes.
pub fn info_hash_key_bytes() -> (r: Vec<u8>)
    ensures
        r@ == info_hash_key(),
{
    let r = vec![105u8, 110u8, 102u8, 111u8, 95u8, 104u8, 97u8, 115u8, 104u8];
    assert(r@ =~= info_hash_key());
    r
}

/// Key of an announce token (`token`).
pub open spec fn token_key() -> Seq<u8> {
    seq![116u8, 111u8, 107u8, 101u8, 110u8]
}

/// Key of an announce token (`token`), as bytes.
pub fn token_key_bytes() -> (r: Vec<u8>)
    ensures
        r@ == token_key(),
{
    let r = vec![116u8, 111u8, 107u8, 101u8, 110u8];
    assert(r@ =~= token_key());
    r
}

/// Key of the id looked for (`target`).
pub open spec fn target_id_key() -> Seq<u8> {
    seq![116u8, 97u8, 114u8, 103u8, 101u8, 116u8]
}

/// Key of the id looked for (`target`), as bytes.
pub fn target_id_key_bytes() -> (r: Vec<u8>)
    ensures
        r@ == target_id_key(),
{
    let r = vec![116u8, 97u8, 114u8, 103u8, 101u8, 116u8];
    assert(r@ =~= target_id_key());
    r
}

/// Key of the port a peer announces (`port`).
pub open spec fn port_key() -> Seq<u8> {
    seq![112u8, 111u8, 114u8, 116u8]
}

/// Key of the port a peer announces (`port`), as bytes.
pub fn port_key_bytes() -> (r: Vec<u8>)
    ensures
        r@ == port_key(),
{
    let r = vec![112u8, 111u8, 114u8, 116u8];
    assert(r@ =~= port_key());
    r
}

/// Key telling to use the source port of an announce (`implied_port`).
pub open spec fn implied_port_key() -> Seq<u8> {
    seq![105u8, 109u8, 112u8, 108u8, 105u8, 101u8, 100u8, 95u8, 112u8, 111u8, 114u8, 116u8]
}

/// Key telling to use the source port of an announce (`implied_port`), as bytes.
pub fn implied_port_key_bytes() -> (r: Vec<u8>)
    ensures
        r@ == implied_port_key(),
{
    let r = vec![105u8, 109u8, 112u8, 108u8, 105u8, 101u8, 100u8, 95u8, 112u8, 111u8, 114u8, 116u8];
    assert(r@ =~= implied_port_key());
    r
}

/// Method name of an announce (`announce_peer`).
pub open spec fn announce_peer_key() -> Seq<u8> {
    seq![97u8, 110u8, 110u8, 111u8, 117u8, 110u8, 99u8, 101u8, 95u8, 112u8, 101u8, 101u8, 114u8]
}

/// Method name of an announce (`announce_peer`), as bytes.
pub fn announce_peer_key_bytes() -> (r: Vec<u8>)
    ensures
        r@ == announce_peer_key(),
{
    let r = vec![97u8, 110u8, 110u8, 111u8, 117u8, 110u8, 99u8, 101u8, 95u8, 112u8, 101u8, 101u8, 114u8];
    assert(r@ =~= announce_peer_key());
    r
}

/// Method name of a ping (`ping`).
pub open spec fn ping_key() -> Seq<u8> {
    seq![112u8, 105u8, 110u8, 103u8]
}

/// Method name of a ping (`ping`), as bytes.
pub fn ping_key_bytes() -> (r: Vec<u8>)
    ensures
        r@ == ping_key(),
{
    let r = vec![112u8, 105u8, 110u8, 103u8];
    assert(r@ =~= ping_key());
    r
}

/// Method name of a node lookup (`find_node`).
pub open spec fn find_node_key() -> Seq<u8> {
    seq![102u8, 105u8, 110u8, 100u8, 95u8, 110u8, 111u8, 100u8, 101u8]
}

/// Method name of a node lookup (`find_node`), as bytes.
pub fn find_node_key_bytes() -> (r: Vec<u8>)
    ensures
        r@ == find_node_key(),
{
    let r = vec![102u8, 105u8, 110u8, 100u8, 95u8, 110u8, 111u8, 100u8, 101u8];
    assert(r@ =~= find_node_key());
    r
}

/// Method name of a peer lookup (`get_peers`).
pub open spec fn get_peers_key() -> Seq<u8> {
    seq![103u8, 101u8, 116u8, 95u8, 112u8, 101u8, 101u8, 114u8, 115u8]
}

/// Method name of a peer lookup (`get_peers`), as bytes.
pub fn get_peers_key_bytes() -> (r: Vec<u8>)
    ensures
        r@ == get_peers_key(),
{
    let r = vec![103u8, 101u8, 116u8, 95u8, 112u8, 101u8, 101u8, 114u8, 115u8];
    assert(r@ =~= get_peers_key());
    r
}

} // verus!
