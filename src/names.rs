//! The names and fixed texts of RRDP documents and of the files that hold them.
use vstd::prelude::*;

verus! {

/// `snapshot`
pub open spec fn snapshot_name() -> Seq<u8> {
    seq![115u8, 110, 97, 112, 115, 104, 111, 116]
}

pub(crate) fn snapshot_name_bytes() -> (r: Vec<u8>)
    ensures
        r@ == snapshot_name(),
{
    let r = vec![115u8, 110, 97, 112, 115, 104, 111, 116];
    assert(r@ =~= snapshot_name());
    r
}

/// `publish`
pub open spec fn publish_name() -> Seq<u8> {
    seq![112u8, 117, 98, 108, 105, 115, 104]
}

pub(crate) fn publish_name_bytes() -> (r: Vec<u8>)
    ensures
        r@ == publish_name(),
{
    let r = vec![112u8, 117, 98, 108, 105, 115, 104];
    assert(r@ =~= publish_name());
    r
}

/// `delta`
pub open spec fn delta_name() -> Seq<u8> {
    seq![100u8, 101, 108, 116, 97]
}

pub(crate) fn delta_name_bytes() -> (r: Vec<u8>)
    ensures
        r@ == delta_name(),
{
    let r = vec![100u8, 101, 108, 116, 97];
    assert(r@ =~= delta_name());
    r
}

/// `withdraw`
pub open spec fn withdraw_name() -> Seq<u8> {
    seq![119u8, 105, 116, 104, 100, 114, 97, 119]
}

pub(crate) fn withdraw_name_bytes() -> (r: Vec<u8>)
    ensures
        r@ == withdraw_name(),
{
    let r = vec![119u8, 105, 116, 104, 100, 114, 97, 119];
    assert(r@ =~= withdraw_name());
    r
}

/// `notification`
pub open spec fn notification_name() -> Seq<u8> {
    seq![110u8, 111, 116, 105, 102, 105, 99, 97, 116, 105, 111, 110]
}

pub(crate) fn notification_name_bytes() -> (r: Vec<u8>)
    ensures
        r@ == notification_name(),
{
    let r = vec![110u8, 111, 116, 105, 102, 105, 99, 97, 116, 105, 111, 110];
    assert(r@ =~= notification_name());
    r
}

/// `xmlns`
pub open spec fn xmlns_name() -> Seq<u8> {
    seq![120u8, 109, 108, 110, 115]
}

pub(crate) fn xmlns_name_bytes() -> (r: Vec<u8>)
    ensures
        r@ == xmlns_name(),
{
    let r = vec![120u8, 109, 108, 110, 115];
    assert(r@ =~= xmlns_name());
    r
}

/// `version`
pub open spec fn version_name() -> Seq<u8> {
    seq![118u8, 101, 114, 115, 105, 111, 110]
}

pub(crate) fn version_name_bytes() -> (r: Vec<u8>)
    ensures
        r@ == version_name(),
{
    let r = vec![118u8, 101, 114, 115, 105, 111, 110];
    assert(r@ =~= version_name());
    r
}

/// `session_id`
pub open spec fn session_id_name() -> Seq<u8> {
    seq![115u8, 101, 115, 115, 105, 111, 110, 95, 105, 100]
}

pub(crate) fn session_id_name_bytes() -> (r: Vec<u8>)
    ensures
        r@ == session_id_name(),
{
    let r = vec![115u8, 101, 115, 115, 105, 111, 110, 95, 105, 100];
    assert(r@ =~= session_id_name());
    r
}

/// `serial`
pub open spec fn serial_name() -> Seq<u8> {
    seq![115u8, 101, 114, 105, 97, 108]
}

pub(crate) fn serial_name_bytes() -> (r: Vec<u8>)
    ensures
        r@ == serial_name(),
{
    let r = vec![115u8, 101, 114, 105, 97, 108];
    assert(r@ =~= serial_name());
    r
}

/// `uri`
pub open spec fn uri_name() -> Seq<u8> {
    seq![117u8, 114, 105]
}

pub(crate) fn uri_name_bytes() -> (r: Vec<u8>)
    ensures
        r@ == uri_name(),
{
    let r = vec![117u8, 114, 105];
    assert(r@ =~= uri_name());
    r
}

/// `hash`
pub open spec fn hash_name() -> Seq<u8> {
    seq![104u8, 97, 115, 104]
}

pub(crate) fn hash_name_bytes() -> (r: Vec<u8>)
    ensures
        r@ == hash_name(),
{
    let r = vec![104u8, 97, 115, 104];
    assert(r@ =~= hash_name());
    r
}

/// `http://www.ripe.net/rpki/rrdp`: the RRDP namespace.
pub open spec fn rrdp_ns() -> Seq<u8> {
    seq![104u8, 116, 116, 112, 58, 47, 47, 119, 119, 119, 46, 114, 105, 112, 101, 46, 110, 101, 116, 47, 114, 112, 107, 105, 47, 114, 114, 100, 112]
}

pub(crate) fn rrdp_ns_bytes() -> (r: Vec<u8>)
    ensures
        r@ == rrdp_ns(),
{
    let r = vec![104u8, 116, 116, 112, 58, 47, 47, 119, 119, 119, 46, 114, 105, 112, 101, 46, 110, 101, 116, 47, 114, 112, 107, 105, 47, 114, 114, 100, 112];
    assert(r@ =~= rrdp_ns());
    r
}

/// `1`: the protocol version.
pub open spec fn rrdp_version() -> Seq<u8> {
    seq![49u8]
}

pub(crate) fn rrdp_version_bytes() -> (r: Vec<u8>)
    ensures
        r@ == rrdp_version(),
{
    let r = vec![49u8];
    assert(r@ =~= rrdp_version());
    r
}

/// `notification.xml`
pub open spec fn notification_file() -> Seq<u8> {
    seq![110u8, 111, 116, 105, 102, 105, 99, 97, 116, 105, 111, 110, 46, 120, 109, 108]
}

pub(crate) fn notification_file_bytes() -> (r: Vec<u8>)
    ensures
        r@ == notification_file(),
{
    let r = vec![110u8, 111, 116, 105, 102, 105, 99, 97, 116, 105, 111, 110, 46, 120, 109, 108];
    assert(r@ =~= notification_file());
    r
}

/// `snapshot.xml`
pub open spec fn snapshot_file() -> Seq<u8> {
    seq![115u8, 110, 97, 112, 115, 104, 111, 116, 46, 120, 109, 108]
}

pub(crate) fn snapshot_file_bytes() -> (r: Vec<u8>)
    ensures
        r@ == snapshot_file(),
{
    let r = vec![115u8, 110, 97, 112, 115, 104, 111, 116, 46, 120, 109, 108];
    assert(r@ =~= snapshot_file());
    r
}

/// `delta.xml`
pub open spec fn delta_file() -> Seq<u8> {
    seq![100u8, 101, 108, 116, 97, 46, 120, 109, 108]
}

pub(crate) fn delta_file_bytes() -> (r: Vec<u8>)
    ensures
        r@ == delta_file(),
{
    let r = vec![100u8, 101, 108, 116, 97, 46, 120, 109, 108];
    assert(r@ =~= delta_file());
    r
}

} // verus!
