//! The RRDP artifacts (snapshots, deltas, notifications) and the repository
//! state machine that advances them.
use vstd::prelude::*;
use vstd::string::StringSliceAdditionalSpecFns;
use crate::session::SessionId;
use crate::sync::{
    Base64, CurrentFile, EncodedHash, FileView, HttpsUri, RsyncUri, base64_decoded, base64_of,
    file_wf,
    hash_text,
};
use crate::index::UriIndex;
use crate::names::{snapshot_name, snapshot_name_bytes, publish_name, publish_name_bytes, delta_name, delta_name_bytes, withdraw_name, withdraw_name_bytes, notification_name, notification_name_bytes, xmlns_name, xmlns_name_bytes, version_name, version_name_bytes, session_id_name, session_id_name_bytes, serial_name, serial_name_bytes, uri_name, uri_name_bytes, hash_name, hash_name_bytes, rrdp_ns, rrdp_ns_bytes, rrdp_version, rrdp_version_bytes, notification_file, notification_file_bytes, snapshot_file, snapshot_file_bytes, delta_file, delta_file_bytes};
use crate::session::{lemma_uuid_text_injective, uuid_read, uuid_text};
use crate::sync::{copy_bytes, decode_base64, file_path, path_join};
use crate::text::{
    append_bytes, bytes_eq, dec_of, decimal, lemma_dec_of_digits, parse_u64, u64_value,
    parses_as_u64, starts,
};
use crate::xml::{
    Attribute, Attributes, AttrsV, DocV, Document, ElemV, Element, attrs_view, decode, doc_is,
    elems_view, encode, first_named, first_value, has_named, lemma_no_first, lemma_take_first, is_name_byte, ser_doc, wf_attrs, wf_doc, wf_elem,
    wf_name,
};

verus! {

//------------ URI index ------------------------------------------------------

/// The files of `s` by URI; where a URI occurs twice, the later file counts.
pub open spec fn uri_index(s: Seq<FileView>) -> Map<Seq<u8>, FileView>
    decreases s.len(),
{
    if s.len() == 0 {
        Map::empty()
    } else {
        uri_index(s.drop_last()).insert(s.last().uri, s.last())
    }
}

/// No later file of `s` has the URI of the file at `i`.
pub open spec fn is_last(s: Seq<FileView>, i: int) -> bool {
    0 <= i < s.len() && forall|j: int| i < j < s.len() ==> #[trigger] s[j].uri != s[i].uri
}

pub open spec fn has_uri(s: Seq<FileView>, u: Seq<u8>) -> bool {
    exists|i: int| 0 <= i < s.len() && #[trigger] s[i].uri == u
}

pub proof fn lemma_uri_index(s: Seq<FileView>)
    ensures
        forall|u: Seq<u8>| #[trigger] uri_index(s).contains_key(u) <==> has_uri(s, u),
        forall|i: int| #[trigger] is_last(s, i) ==> uri_index(s)[s[i].uri] == s[i],
    decreases s.len(),
{
    if s.len() > 0 {
        let t = s.drop_last();
        lemma_uri_index(t);
        assert forall|u: Seq<u8>| #[trigger] uri_index(s).contains_key(u) <==> has_uri(s, u) by {
            assert(uri_index(s) == uri_index(t).insert(s.last().uri, s.last()));
            assert(uri_index(t).contains_key(u) == has_uri(t, u));
            if u == s.last().uri {
                assert(s[s.len() - 1].uri == u);
            } else {
                if has_uri(s, u) {
                    let i = choose|i: int| 0 <= i < s.len() && #[trigger] s[i].uri == u;
                    assert(i != s.len() - 1);
                    assert(t[i].uri == u);
                    assert(has_uri(t, u));
                }
                if has_uri(t, u) {
                    let i = choose|i: int| 0 <= i < t.len() && #[trigger] t[i].uri == u;
                    assert(s[i].uri == u);
                }
            }
        }
        assert forall|i: int| #[trigger] is_last(s, i) implies uri_index(s)[s[i].uri] == s[i] by {
            if i < s.len() - 1 {
                assert(s[s.len() - 1].uri != s[i].uri);
                assert forall|j: int| i < j < t.len() implies #[trigger] t[j].uri != t[i].uri by {
                    assert(s[j].uri != s[i].uri);
                }
                assert(is_last(t, i));
            }
        }
    }
}

//------------ PublishElement ------------------------------------------------

/// A file that a delta adds.
#[derive(Clone, Debug, Eq, PartialEq)]
pub struct PublishElement {
    base64: Base64,
    uri: RsyncUri,
}

impl View for PublishElement {
    type V = (Seq<u8>, Seq<u8>);

    /// The URI and the new content.
    closed spec fn view(&self) -> (Seq<u8>, Seq<u8>) {
        (self.uri@, self.base64@)
    }
}

impl PublishElement {
    pub fn new(base64: Base64, uri: RsyncUri) -> (r: Self)
        ensures
            r@ == (uri@, base64@),
    {
        PublishElement { base64, uri }
    }

    pub fn base64(&self) -> (r: &Base64)
        ensures
            r@ == self@.1,
    {
        &self.base64
    }

    pub fn uri(&self) -> (r: &RsyncUri)
        ensures
            r@ == self@.0,
    {
        &self.uri
    }
}

//------------ UpdateElement -------------------------------------------------

/// A file that a delta replaces: its URI, the digest of the old content and the new content.
#[derive(Clone, Debug, Eq, PartialEq)]
pub struct UpdateElement {
    uri: RsyncUri,
    hash: EncodedHash,
    base64: Base64,
}

impl View for UpdateElement {
    type V = (Seq<u8>, Seq<u8>, Seq<u8>);

    closed spec fn view(&self) -> (Seq<u8>, Seq<u8>, Seq<u8>) {
        (self.uri@, self.hash@, self.base64@)
    }
}

impl UpdateElement {
    pub fn uri(&self) -> (r: &RsyncUri)
        ensures
            r@ == self@.0,
    {
        &self.uri
    }

    pub fn hash(&self) -> (r: &EncodedHash)
        ensures
            r@ == self@.1,
    {
        &self.hash
    }

    pub fn base64(&self) -> (r: &Base64)
        ensures
            r@ == self@.2,
    {
        &self.base64
    }
}

//------------ WithdrawElement -----------------------------------------------

/// A file that a delta removes: its URI and the digest of its content.
#[derive(Clone, Debug, Eq, PartialEq)]
pub struct WithdrawElement {
    uri: RsyncUri,
    hash: EncodedHash,
}

impl View for WithdrawElement {
    type V = (Seq<u8>, Seq<u8>);

    closed spec fn view(&self) -> (Seq<u8>, Seq<u8>) {
        (self.uri@, self.hash@)
    }
}

impl WithdrawElement {
    pub fn uri(&self) -> (r: &RsyncUri)
        ensures
            r@ == self@.0,
    {
        &self.uri
    }

    pub fn hash(&self) -> (r: &EncodedHash)
        ensures
            r@ == self@.1,
    {
        &self.hash
    }
}

//------------ Snapshot ------------------------------------------------------

pub struct SnapshotV {
    pub session: u128,
    pub serial: u64,
    pub objects: Seq<FileView>,
}

pub open spec fn files_view(fs: Seq<CurrentFile>) -> Seq<FileView> {
    fs.map_values(|f: CurrentFile| f@)
}

/// Every file of `s` holds an encoding and a digest of one content.
pub open spec fn files_wf(s: Seq<FileView>) -> bool {
    forall|i: int| 0 <= i < s.len() ==> file_wf(#[trigger] s[i])
}

/// The complete set of published objects at one session and serial.
#[derive(Debug, Eq, PartialEq)]
pub struct Snapshot {
    session: SessionId,
    serial: u64,
    current_objects: Vec<CurrentFile>,
}

impl Snapshot {
    #[verifier::type_invariant]
    spec fn inv(&self) -> bool {
        files_wf(files_view(self.current_objects@))
    }
}

impl Clone for Snapshot {
    fn clone(&self) -> (r: Self)
        ensures
            r@ == self@,
    {
        proof {
            use_type_invariant(self);
        }
        let mut files: Vec<CurrentFile> = Vec::new();
        let mut i: usize = 0;
        while i < self.current_objects.len()
            invariant
                i <= self.current_objects@.len(),
                files_view(files@) == files_view(self.current_objects@).take(i as int),
                files_wf(files_view(self.current_objects@)),
            decreases self.current_objects@.len() - i,
        {
            let f = self.current_objects[i].clone();
            let ghost f0 = files_view(files@);
            files.push(f);
            assert(files_view(files@) =~= f0.push(f@));
            assert(files_view(self.current_objects@).take(i + 1) =~= files_view(
                self.current_objects@,
            ).take(i as int).push(files_view(self.current_objects@)[i as int]));
            i = i + 1;
        }
        assert(files_view(self.current_objects@).take(i as int) =~= files_view(self.current_objects@));
        Snapshot { session: self.session, serial: self.serial, current_objects: files }
    }
}

impl View for Snapshot {
    type V = SnapshotV;

    closed spec fn view(&self) -> SnapshotV {
        SnapshotV {
            session: self.session.id,
            serial: self.serial,
            objects: files_view(self.current_objects@),
        }
    }
}

//------------ DeltaElements -------------------------------------------------

pub struct DeltaElementsV {
    pub publishes: Seq<(Seq<u8>, Seq<u8>)>,
    pub updates: Seq<(Seq<u8>, Seq<u8>, Seq<u8>)>,
    pub withdraws: Seq<(Seq<u8>, Seq<u8>)>,
}

/// The publishes, updates and withdraws of a delta.
#[derive(Clone, Debug, Eq, PartialEq)]
pub struct DeltaElements {
    publishes: Vec<PublishElement>,
    updates: Vec<UpdateElement>,
    withdraws: Vec<WithdrawElement>,
}

impl View for DeltaElements {
    type V = DeltaElementsV;

    closed spec fn view(&self) -> DeltaElementsV {
        DeltaElementsV {
            publishes: self.publishes@.map_values(|p: PublishElement| p@),
            updates: self.updates@.map_values(|u: UpdateElement| u@),
            withdraws: self.withdraws@.map_values(|w: WithdrawElement| w@),
        }
    }
}

pub open spec fn elements_len(e: DeltaElementsV) -> nat {
    e.publishes.len() + e.updates.len() + e.withdraws.len()
}

/// Publishes are exactly the URIs only in `new`, each once, with the new content.
pub open spec fn publishes_ok(
    old: Map<Seq<u8>, FileView>,
    new: Map<Seq<u8>, FileView>,
    ps: Seq<(Seq<u8>, Seq<u8>)>,
) -> bool {
    &&& forall|i: int, j: int| 0 <= i < j < ps.len() ==> #[trigger] ps[i].0 != #[trigger] ps[j].0
    &&& forall|i: int|
        0 <= i < ps.len() ==> {
            let p = #[trigger] ps[i];
            &&& new.contains_key(p.0)
            &&& !old.contains_key(p.0)
            &&& p.1 == new[p.0].base64
        }
    &&& forall|u: Seq<u8>|
        new.contains_key(u) && !old.contains_key(u) ==> exists|i: int|
            0 <= i < ps.len() && #[trigger] ps[i].0 == u
}

/// Updates are exactly the URIs in both whose digests differ, each once, with the
/// old digest and the new content.
pub open spec fn updates_ok(
    old: Map<Seq<u8>, FileView>,
    new: Map<Seq<u8>, FileView>,
    us: Seq<(Seq<u8>, Seq<u8>, Seq<u8>)>,
) -> bool {
    &&& forall|i: int, j: int| 0 <= i < j < us.len() ==> #[trigger] us[i].0 != #[trigger] us[j].0
    &&& forall|i: int|
        0 <= i < us.len() ==> {
            let x = #[trigger] us[i];
            &&& new.contains_key(x.0)
            &&& old.contains_key(x.0)
            &&& old[x.0].hash != new[x.0].hash
            &&& x.1 == old[x.0].hash
            &&& x.2 == new[x.0].base64
        }
    &&& forall|u: Seq<u8>|
        new.contains_key(u) && old.contains_key(u) && old[u].hash != new[u].hash ==> exists|i: int|
            0 <= i < us.len() && #[trigger] us[i].0 == u
}

/// Withdraws are exactly the URIs only in `old`, each once, with the old digest.
pub open spec fn withdraws_ok(
    old: Map<Seq<u8>, FileView>,
    new: Map<Seq<u8>, FileView>,
    ws: Seq<(Seq<u8>, Seq<u8>)>,
) -> bool {
    &&& forall|i: int, j: int| 0 <= i < j < ws.len() ==> #[trigger] ws[i].0 != #[trigger] ws[j].0
    &&& forall|i: int|
        0 <= i < ws.len() ==> {
            let w = #[trigger] ws[i];
            &&& old.contains_key(w.0)
            &&& !new.contains_key(w.0)
            &&& w.1 == old[w.0].hash
        }
    &&& forall|u: Seq<u8>|
        old.contains_key(u) && !new.contains_key(u) ==> exists|i: int|
            0 <= i < ws.len() && #[trigger] ws[i].0 == u
}

/// `e` is the difference from the files `old` to the files `new`, both indexed by URI.
pub open spec fn is_diff(
    old: Map<Seq<u8>, FileView>,
    new: Map<Seq<u8>, FileView>,
    e: DeltaElementsV,
) -> bool {
    publishes_ok(old, new, e.publishes) && updates_ok(old, new, e.updates) && withdraws_ok(
        old,
        new,
        e.withdraws,
    )
}

//------------ Delta ---------------------------------------------------------

pub struct DeltaV {
    pub session: u128,
    pub serial: u64,
    pub elements: DeltaElementsV,
}

/// The difference between the snapshots of two consecutive serials of a session.
#[derive(Clone, Debug, Eq, PartialEq)]
pub struct Delta {
    session: SessionId,
    serial: u64,
    elements: DeltaElements,
}

impl View for Delta {
    type V = DeltaV;

    closed spec fn view(&self) -> DeltaV {
        DeltaV { session: self.session.id, serial: self.serial, elements: self.elements@ }
    }
}

//------------ Order of a diff ----------------------------------------------

/// The updates among the first `k` files of `ov`, in that order: each URI at its last
/// occurrence, where `new` has it with another digest.
pub open spec fn diff_updates(ov: Seq<FileView>, new: Map<Seq<u8>, FileView>, k: int) -> Seq<
    (Seq<u8>, Seq<u8>, Seq<u8>),
>
    decreases k,
{
    if k <= 0 {
        Seq::empty()
    } else {
        let prev = diff_updates(ov, new, k - 1);
        let f = ov[k - 1];
        if is_last(ov, k - 1) && new.contains_key(f.uri) && f.hash != new[f.uri].hash {
            prev.push((f.uri, f.hash, new[f.uri].base64))
        } else {
            prev
        }
    }
}

/// The withdraws among the first `k` files of `ov`, in that order.
pub open spec fn diff_withdraws(ov: Seq<FileView>, new: Map<Seq<u8>, FileView>, k: int) -> Seq<
    (Seq<u8>, Seq<u8>),
>
    decreases k,
{
    if k <= 0 {
        Seq::empty()
    } else {
        let prev = diff_withdraws(ov, new, k - 1);
        let f = ov[k - 1];
        if is_last(ov, k - 1) && !new.contains_key(f.uri) {
            prev.push((f.uri, f.hash))
        } else {
            prev
        }
    }
}

/// The publishes among the first `k` files of `nv`, in that order.
pub open spec fn diff_publishes(nv: Seq<FileView>, old: Map<Seq<u8>, FileView>, k: int) -> Seq<
    (Seq<u8>, Seq<u8>),
>
    decreases k,
{
    if k <= 0 {
        Seq::empty()
    } else {
        let prev = diff_publishes(nv, old, k - 1);
        let f = nv[k - 1];
        if is_last(nv, k - 1) && !old.contains_key(f.uri) {
            prev.push((f.uri, f.base64))
        } else {
            prev
        }
    }
}

/// The delta from the files `old` to the files `new`: updates and withdraws in the order
/// of `old`, publishes in the order of `new`.
pub open spec fn diff_of(old: Seq<FileView>, new: Seq<FileView>) -> DeltaElementsV {
    DeltaElementsV {
        publishes: diff_publishes(new, uri_index(old), new.len() as int),
        updates: diff_updates(old, uri_index(new), old.len() as int),
        withdraws: diff_withdraws(old, uri_index(new), old.len() as int),
    }
}

//------------ Diffing -------------------------------------------------------

pub proof fn lemma_has_last(s: Seq<FileView>, u: Seq<u8>)
    requires
        has_uri(s, u),
    ensures
        exists|k: int| #[trigger] is_last(s, k) && s[k].uri == u,
    decreases s.len(),
{
    if s.last().uri == u {
        assert(is_last(s, s.len() - 1));
    } else {
        let t = s.drop_last();
        let i = choose|i: int| 0 <= i < s.len() && #[trigger] s[i].uri == u;
        assert(t[i].uri == u);
        lemma_has_last(t, u);
        let k = choose|k: int| #[trigger] is_last(t, k) && t[k].uri == u;
        assert forall|j: int| k < j < s.len() implies #[trigger] s[j].uri != s[k].uri by {
            if j < s.len() - 1 {
                assert(t[j].uri != t[k].uri);
            }
        }
        assert(is_last(s, k));
    }
}

spec fn upd_entry_ok(
    io: Map<Seq<u8>, FileView>,
    inew: Map<Seq<u8>, FileView>,
    x: (Seq<u8>, Seq<u8>, Seq<u8>),
) -> bool {
    &&& inew.contains_key(x.0)
    &&& io.contains_key(x.0)
    &&& io[x.0].hash != inew[x.0].hash
    &&& x.1 == io[x.0].hash
    &&& x.2 == inew[x.0].base64
}

spec fn wd_entry_ok(
    io: Map<Seq<u8>, FileView>,
    inew: Map<Seq<u8>, FileView>,
    w: (Seq<u8>, Seq<u8>),
) -> bool {
    &&& io.contains_key(w.0)
    &&& !inew.contains_key(w.0)
    &&& w.1 == io[w.0].hash
}

/// The URI at `k` of `ov` is a last occurrence before `i`.
spec fn last_before(ov: Seq<FileView>, i: int, u: Seq<u8>) -> bool {
    exists|k: int| 0 <= k < i && is_last(ov, k) && #[trigger] ov[k].uri == u
}

/// The updates found among the first `i` files of `ov`.
spec fn upd_inv(
    ov: Seq<FileView>,
    io: Map<Seq<u8>, FileView>,
    inew: Map<Seq<u8>, FileView>,
    us: Seq<(Seq<u8>, Seq<u8>, Seq<u8>)>,
    i: int,
) -> bool {
    &&& forall|a: int, b: int| 0 <= a < b < us.len() ==> #[trigger] us[a].0 != #[trigger] us[b].0
    &&& forall|a: int|
        0 <= a < us.len() ==> upd_entry_ok(io, inew, #[trigger] us[a]) && last_before(ov, i, us[a].0)
    &&& forall|k: int|
        0 <= k < i && #[trigger] is_last(ov, k) && inew.contains_key(ov[k].uri) && io[ov[k].uri].hash
            != inew[ov[k].uri].hash ==> exists|a: int| 0 <= a < us.len() && #[trigger] us[a].0 == ov[k].uri
}

/// The withdraws found among the first `i` files of `ov`.
spec fn wd_inv(
    ov: Seq<FileView>,
    io: Map<Seq<u8>, FileView>,
    inew: Map<Seq<u8>, FileView>,
    ws: Seq<(Seq<u8>, Seq<u8>)>,
    i: int,
) -> bool {
    &&& forall|a: int, b: int| 0 <= a < b < ws.len() ==> #[trigger] ws[a].0 != #[trigger] ws[b].0
    &&& forall|a: int|
        0 <= a < ws.len() ==> wd_entry_ok(io, inew, #[trigger] ws[a]) && last_before(ov, i, ws[a].0)
    &&& forall|k: int|
        0 <= k < i && #[trigger] is_last(ov, k) && !inew.contains_key(ov[k].uri) ==> exists|a: int|
            0 <= a < ws.len() && #[trigger] ws[a].0 == ov[k].uri
}

proof fn lemma_last_before_grow(ov: Seq<FileView>, i: int, u: Seq<u8>)
    requires
        last_before(ov, i, u),
    ensures
        last_before(ov, i + 1, u),
{
    let k = choose|k: int| 0 <= k < i && is_last(ov, k) && #[trigger] ov[k].uri == u;
    assert(0 <= k < i + 1 && is_last(ov, k) && ov[k].uri == u);
}

proof fn lemma_upd_step(
    ov: Seq<FileView>,
    io: Map<Seq<u8>, FileView>,
    inew: Map<Seq<u8>, FileView>,
    us: Seq<(Seq<u8>, Seq<u8>, Seq<u8>)>,
    i: int,
    x: Option<(Seq<u8>, Seq<u8>, Seq<u8>)>,
)
    requires
        0 <= i < ov.len(),
        upd_inv(ov, io, inew, us, i),
        x matches Some(y) ==> is_last(ov, i) && y.0 == ov[i].uri && upd_entry_ok(io, inew, y),
        x is None ==> !(is_last(ov, i) && inew.contains_key(ov[i].uri) && io[ov[i].uri].hash
            != inew[ov[i].uri].hash),
    ensures
        upd_inv(
            ov,
            io,
            inew,
            match x {
                Some(y) => us.push(y),
                None => us,
            },
            i + 1,
        ),
{
    let us1 = match x {
        Some(y) => us.push(y),
        None => us,
    };
    assert forall|a: int| 0 <= a < us.len() implies last_before(ov, i + 1, us[a].0) by {
        lemma_last_before_grow(ov, i, us[a].0);
    }
    if let Some(y) = x {
        assert forall|a: int| 0 <= a < us.len() implies #[trigger] us[a].0 != y.0 by {
            let k = choose|k: int| 0 <= k < i && is_last(ov, k) && #[trigger] ov[k].uri == us[a].0;
            assert(ov[i].uri != ov[k].uri);
        }
        assert(last_before(ov, i + 1, y.0)) by {
            assert(ov[i].uri == y.0);
        }
        assert forall|a: int, b: int| 0 <= a < b < us1.len() implies #[trigger] us1[a].0
            != #[trigger] us1[b].0 by {
            if b == us.len() {
                assert(us1[a] == us[a]);
            } else {
                assert(us1[a] == us[a] && us1[b] == us[b]);
            }
        }
        assert forall|a: int| 0 <= a < us1.len() implies upd_entry_ok(io, inew, #[trigger] us1[a])
            && last_before(ov, i + 1, us1[a].0) by {
            if a < us.len() {
                assert(us1[a] == us[a]);
            }
        }
        assert forall|k: int|
            0 <= k < i + 1 && #[trigger] is_last(ov, k) && inew.contains_key(ov[k].uri)
                && io[ov[k].uri].hash != inew[ov[k].uri].hash implies exists|a: int|
            0 <= a < us1.len() && #[trigger] us1[a].0 == ov[k].uri by {
            if k == i {
                assert(us1[us.len() as int].0 == ov[k].uri);
            } else {
                let a = choose|a: int| 0 <= a < us.len() && #[trigger] us[a].0 == ov[k].uri;
                assert(us1[a] == us[a]);
            }
        }
    }
}

proof fn lemma_wd_step(
    ov: Seq<FileView>,
    io: Map<Seq<u8>, FileView>,
    inew: Map<Seq<u8>, FileView>,
    ws: Seq<(Seq<u8>, Seq<u8>)>,
    i: int,
    x: Option<(Seq<u8>, Seq<u8>)>,
)
    requires
        0 <= i < ov.len(),
        wd_inv(ov, io, inew, ws, i),
        x matches Some(y) ==> is_last(ov, i) && y.0 == ov[i].uri && wd_entry_ok(io, inew, y),
        x is None ==> !(is_last(ov, i) && !inew.contains_key(ov[i].uri)),
    ensures
        wd_inv(
            ov,
            io,
            inew,
            match x {
                Some(y) => ws.push(y),
                None => ws,
            },
            i + 1,
        ),
{
    let ws1 = match x {
        Some(y) => ws.push(y),
        None => ws,
    };
    assert forall|a: int| 0 <= a < ws.len() implies last_before(ov, i + 1, ws[a].0) by {
        lemma_last_before_grow(ov, i, ws[a].0);
    }
    if let Some(y) = x {
        assert forall|a: int| 0 <= a < ws.len() implies #[trigger] ws[a].0 != y.0 by {
            let k = choose|k: int| 0 <= k < i && is_last(ov, k) && #[trigger] ov[k].uri == ws[a].0;
            assert(ov[i].uri != ov[k].uri);
        }
        assert(last_before(ov, i + 1, y.0)) by {
            assert(ov[i].uri == y.0);
        }
        assert forall|a: int, b: int| 0 <= a < b < ws1.len() implies #[trigger] ws1[a].0
            != #[trigger] ws1[b].0 by {
            if b == ws.len() {
                assert(ws1[a] == ws[a]);
            } else {
                assert(ws1[a] == ws[a] && ws1[b] == ws[b]);
            }
        }
        assert forall|a: int| 0 <= a < ws1.len() implies wd_entry_ok(io, inew, #[trigger] ws1[a])
            && last_before(ov, i + 1, ws1[a].0) by {
            if a < ws.len() {
                assert(ws1[a] == ws[a]);
            }
        }
        assert forall|k: int|
            0 <= k < i + 1 && #[trigger] is_last(ov, k) && !inew.contains_key(ov[k].uri) implies exists|
            a: int,
        | 0 <= a < ws1.len() && #[trigger] ws1[a].0 == ov[k].uri by {
            if k == i {
                assert(ws1[ws.len() as int].0 == ov[k].uri);
            } else {
                let a = choose|a: int| 0 <= a < ws.len() && #[trigger] ws[a].0 == ov[k].uri;
                assert(ws1[a] == ws[a]);
            }
        }
    }
}

/// The updates and withdraws from the files `old` to the files `new`.
fn diff_old(
    old: &Vec<CurrentFile>,
    new: &Vec<CurrentFile>,
    old_index: &UriIndex,
    new_index: &UriIndex,
) -> (r: (Vec<UpdateElement>, Vec<WithdrawElement>))
    requires
        old_index.indexes(files_view(old@)),
        new_index.indexes(files_view(new@)),
    ensures
        updates_ok(
            uri_index(files_view(old@)),
            uri_index(files_view(new@)),
            r.0@.map_values(|u: UpdateElement| u@),
        ),
        withdraws_ok(
            uri_index(files_view(old@)),
            uri_index(files_view(new@)),
            r.1@.map_values(|w: WithdrawElement| w@),
        ),
        r.0@.map_values(|u: UpdateElement| u@) == diff_updates(
            files_view(old@),
            uri_index(files_view(new@)),
            old@.len() as int,
        ),
        r.1@.map_values(|w: WithdrawElement| w@) == diff_withdraws(
            files_view(old@),
            uri_index(files_view(new@)),
            old@.len() as int,
        ),
{
    let ghost ov = files_view(old@);
    let ghost nv = files_view(new@);
    let ghost io = uri_index(ov);
    let ghost inew = uri_index(nv);
    proof {
        lemma_uri_index(ov);
        lemma_uri_index(nv);
    }
    let mut updates: Vec<UpdateElement> = Vec::new();
    let mut withdraws: Vec<WithdrawElement> = Vec::new();
    let mut i: usize = 0;
    proof {
        assert(updates@.map_values(|u: UpdateElement| u@) =~= Seq::<(Seq<u8>, Seq<u8>, Seq<u8>)>::empty());
        assert(withdraws@.map_values(|w: WithdrawElement| w@) =~= Seq::<(Seq<u8>, Seq<u8>)>::empty());
    }
    while i < old.len()
        invariant
            i <= old@.len(),
            ov == files_view(old@),
            nv == files_view(new@),
            io == uri_index(ov),
            inew == uri_index(nv),
            forall|u: Seq<u8>| #[trigger] io.contains_key(u) <==> has_uri(ov, u),
            forall|u: Seq<u8>| #[trigger] inew.contains_key(u) <==> has_uri(nv, u),
            forall|k: int| #[trigger] is_last(ov, k) ==> io[ov[k].uri] == ov[k],
            forall|k: int| #[trigger] is_last(nv, k) ==> inew[nv[k].uri] == nv[k],
            old_index.indexes(ov),
            new_index.indexes(nv),
            upd_inv(ov, io, inew, updates@.map_values(|u: UpdateElement| u@), i as int),
            wd_inv(ov, io, inew, withdraws@.map_values(|w: WithdrawElement| w@), i as int),
            updates@.map_values(|u: UpdateElement| u@) == diff_updates(ov, inew, i as int),
            withdraws@.map_values(|w: WithdrawElement| w@) == diff_withdraws(ov, inew, i as int),
        decreases old@.len() - i,
    {
        let ghost us0 = updates@.map_values(|u: UpdateElement| u@);
        let ghost ws0 = withdraws@.map_values(|w: WithdrawElement| w@);
        let ghost mut ux: Option<(Seq<u8>, Seq<u8>, Seq<u8>)> = None;
        let ghost mut wx: Option<(Seq<u8>, Seq<u8>)> = None;
        let last = old_index.is_last_at(old, i);
        if last {
            let of = &old[i];
            assert(ov[i as int] == of@);
            assert(has_uri(ov, of@.uri));
            match new_index.find_last(new, of.uri().as_bytes()) {
                Some(j) => {
                    let nf = &new[j];
                    assert(nv[j as int] == nf@);
                    assert(has_uri(nv, of@.uri));
                    if !bytes_eq(of.hash().as_bytes(), nf.hash().as_bytes()) {
                        let x = UpdateElement {
                            uri: of.uri().clone(),
                            hash: of.hash().clone(),
                            base64: nf.base64().clone(),
                        };
                        proof {
                            ux = Some(x@);
                        }
                        updates.push(x);
                    }
                },
                None => {
                    let w = WithdrawElement { uri: of.uri().clone(), hash: of.hash().clone() };
                    proof {
                        wx = Some(w@);
                    }
                    withdraws.push(w);
                },
            }
        }
        proof {
            if is_last(ov, i as int) {
                assert(io[ov[i as int].uri] == ov[i as int]);
            }
            lemma_upd_step(ov, io, inew, us0, i as int, ux);
            lemma_wd_step(ov, io, inew, ws0, i as int, wx);
            match ux {
                Some(y) => {
                    assert(updates@.map_values(|u: UpdateElement| u@) =~= us0.push(y));
                },
                None => {
                    assert(updates@.map_values(|u: UpdateElement| u@) =~= us0);
                },
            }
            match wx {
                Some(y) => {
                    assert(withdraws@.map_values(|w: WithdrawElement| w@) =~= ws0.push(y));
                },
                None => {
                    assert(withdraws@.map_values(|w: WithdrawElement| w@) =~= ws0);
                },
            }
        }
        i = i + 1;
    }
    proof {
        let us = updates@.map_values(|u: UpdateElement| u@);
        let ws = withdraws@.map_values(|w: WithdrawElement| w@);
        assert forall|u: Seq<u8>|
            inew.contains_key(u) && io.contains_key(u) && io[u].hash != inew[u].hash implies exists|
            a: int,
        | 0 <= a < us.len() && #[trigger] us[a].0 == u by {
            lemma_has_last(ov, u);
            let k = choose|k: int| #[trigger] is_last(ov, k) && ov[k].uri == u;
        }
        assert forall|u: Seq<u8>| io.contains_key(u) && !inew.contains_key(u) implies exists|a: int|
            0 <= a < ws.len() && #[trigger] ws[a].0 == u by {
            lemma_has_last(ov, u);
            let k = choose|k: int| #[trigger] is_last(ov, k) && ov[k].uri == u;
        }
        assert forall|a: int| 0 <= a < us.len() implies #[trigger] upd_entry_ok(io, inew, us[a]) by {}
    }
    (updates, withdraws)
}

spec fn pub_entry_ok(
    io: Map<Seq<u8>, FileView>,
    inew: Map<Seq<u8>, FileView>,
    p: (Seq<u8>, Seq<u8>),
) -> bool {
    &&& inew.contains_key(p.0)
    &&& !io.contains_key(p.0)
    &&& p.1 == inew[p.0].base64
}

/// The publishes found among the first `j` files of `nv`.
spec fn pub_inv(
    nv: Seq<FileView>,
    io: Map<Seq<u8>, FileView>,
    inew: Map<Seq<u8>, FileView>,
    ps: Seq<(Seq<u8>, Seq<u8>)>,
    j: int,
) -> bool {
    &&& forall|a: int, b: int| 0 <= a < b < ps.len() ==> #[trigger] ps[a].0 != #[trigger] ps[b].0
    &&& forall|a: int|
        0 <= a < ps.len() ==> pub_entry_ok(io, inew, #[trigger] ps[a]) && last_before(nv, j, ps[a].0)
    &&& forall|k: int|
        0 <= k < j && #[trigger] is_last(nv, k) && !io.contains_key(nv[k].uri) ==> exists|a: int|
            0 <= a < ps.len() && #[trigger] ps[a].0 == nv[k].uri
}

proof fn lemma_pub_step(
    nv: Seq<FileView>,
    io: Map<Seq<u8>, FileView>,
    inew: Map<Seq<u8>, FileView>,
    ps: Seq<(Seq<u8>, Seq<u8>)>,
    j: int,
    x: Option<(Seq<u8>, Seq<u8>)>,
)
    requires
        0 <= j < nv.len(),
        pub_inv(nv, io, inew, ps, j),
        x matches Some(y) ==> is_last(nv, j) && y.0 == nv[j].uri && pub_entry_ok(io, inew, y),
        x is None ==> !(is_last(nv, j) && !io.contains_key(nv[j].uri)),
    ensures
        pub_inv(
            nv,
            io,
            inew,
            match x {
                Some(y) => ps.push(y),
                None => ps,
            },
            j + 1,
        ),
{
    let ps1 = match x {
        Some(y) => ps.push(y),
        None => ps,
    };
    assert forall|a: int| 0 <= a < ps.len() implies last_before(nv, j + 1, ps[a].0) by {
        lemma_last_before_grow(nv, j, ps[a].0);
    }
    if let Some(y) = x {
        assert forall|a: int| 0 <= a < ps.len() implies #[trigger] ps[a].0 != y.0 by {
            let k = choose|k: int| 0 <= k < j && is_last(nv, k) && #[trigger] nv[k].uri == ps[a].0;
            assert(nv[j].uri != nv[k].uri);
        }
        assert(last_before(nv, j + 1, y.0)) by {
            assert(nv[j].uri == y.0);
        }
        assert forall|a: int, b: int| 0 <= a < b < ps1.len() implies #[trigger] ps1[a].0
            != #[trigger] ps1[b].0 by {
            if b == ps.len() {
                assert(ps1[a] == ps[a]);
            } else {
                assert(ps1[a] == ps[a] && ps1[b] == ps[b]);
            }
        }
        assert forall|a: int| 0 <= a < ps1.len() implies pub_entry_ok(io, inew, #[trigger] ps1[a])
            && last_before(nv, j + 1, ps1[a].0) by {
            if a < ps.len() {
                assert(ps1[a] == ps[a]);
            }
        }
        assert forall|k: int|
            0 <= k < j + 1 && #[trigger] is_last(nv, k) && !io.contains_key(nv[k].uri) implies exists|
            a: int,
        | 0 <= a < ps1.len() && #[trigger] ps1[a].0 == nv[k].uri by {
            if k == j {
                assert(ps1[ps.len() as int].0 == nv[k].uri);
            } else {
                let a = choose|a: int| 0 <= a < ps.len() && #[trigger] ps[a].0 == nv[k].uri;
                assert(ps1[a] == ps[a]);
            }
        }
    }
}

/// The publishes from the files `old` to the files `new`.
fn diff_new(
    old: &Vec<CurrentFile>,
    new: &Vec<CurrentFile>,
    old_index: &UriIndex,
    new_index: &UriIndex,
) -> (r: Vec<PublishElement>)
    requires
        old_index.indexes(files_view(old@)),
        new_index.indexes(files_view(new@)),
    ensures
        publishes_ok(
            uri_index(files_view(old@)),
            uri_index(files_view(new@)),
            r@.map_values(|p: PublishElement| p@),
        ),
        r@.map_values(|p: PublishElement| p@) == diff_publishes(
            files_view(new@),
            uri_index(files_view(old@)),
            new@.len() as int,
        ),
{
    let ghost ov = files_view(old@);
    let ghost nv = files_view(new@);
    let ghost io = uri_index(ov);
    let ghost inew = uri_index(nv);
    proof {
        lemma_uri_index(ov);
        lemma_uri_index(nv);
    }
    let mut publishes: Vec<PublishElement> = Vec::new();
    let mut j: usize = 0;
    proof {
        assert(publishes@.map_values(|p: PublishElement| p@) =~= Seq::<(Seq<u8>, Seq<u8>)>::empty());
    }
    while j < new.len()
        invariant
            j <= new@.len(),
            ov == files_view(old@),
            nv == files_view(new@),
            io == uri_index(ov),
            inew == uri_index(nv),
            forall|u: Seq<u8>| #[trigger] io.contains_key(u) <==> has_uri(ov, u),
            forall|u: Seq<u8>| #[trigger] inew.contains_key(u) <==> has_uri(nv, u),
            forall|k: int| #[trigger] is_last(nv, k) ==> inew[nv[k].uri] == nv[k],
            old_index.indexes(ov),
            new_index.indexes(nv),
            pub_inv(nv, io, inew, publishes@.map_values(|p: PublishElement| p@), j as int),
            publishes@.map_values(|p: PublishElement| p@) == diff_publishes(nv, io, j as int),
        decreases new@.len() - j,
    {
        let ghost ps0 = publishes@.map_values(|p: PublishElement| p@);
        let ghost mut px: Option<(Seq<u8>, Seq<u8>)> = None;
        let last = new_index.is_last_at(new, j);
        if last {
            let nf = &new[j];
            assert(nv[j as int] == nf@);
            assert(has_uri(nv, nf@.uri));
            if old_index.find_last(old, nf.uri().as_bytes()).is_none() {
                let p = PublishElement { base64: nf.base64().clone(), uri: nf.uri().clone() };
                proof {
                    px = Some(p@);
                }
                publishes.push(p);
            }
        }
        proof {
            lemma_pub_step(nv, io, inew, ps0, j as int, px);
            match px {
                Some(y) => {
                    assert(publishes@.map_values(|p: PublishElement| p@) =~= ps0.push(y));
                },
                None => {
                    assert(publishes@.map_values(|p: PublishElement| p@) =~= ps0);
                },
            }
        }
        j = j + 1;
    }
    proof {
        let ps = publishes@.map_values(|p: PublishElement| p@);
        assert forall|u: Seq<u8>| inew.contains_key(u) && !io.contains_key(u) implies exists|a: int|
            0 <= a < ps.len() && #[trigger] ps[a].0 == u by {
            lemma_has_last(nv, u);
            let k = choose|k: int| #[trigger] is_last(nv, k) && nv[k].uri == u;
        }
    }
    publishes
}

impl Snapshot {
    pub fn new(session: SessionId, serial: u64, current_objects: Vec<CurrentFile>) -> (r: Self)
        ensures
            r@ == (SnapshotV {
                session: session.id,
                serial,
                objects: files_view(current_objects@),
            }),
    {
        let mut i: usize = 0;
        while i < current_objects.len()
            invariant
                i <= current_objects@.len(),
                forall|k: int| 0 <= k < i ==> file_wf(#[trigger] files_view(current_objects@)[k]),
            decreases current_objects@.len() - i,
        {
            current_objects[i].is_wf();
            i = i + 1;
        }
        Snapshot { session, serial, current_objects }
    }

    /// Every file of a snapshot holds an encoding and a digest of one content.
    fn files_are_wf(&self)
        ensures
            files_wf(self@.objects),
    {
        proof {
            use_type_invariant(self);
        }
    }

    pub fn session(&self) -> (r: SessionId)
        ensures
            r.id == self@.session,
    {
        self.session
    }

    pub fn serial(&self) -> (r: u64)
        ensures
            r == self@.serial,
    {
        self.serial
    }

    pub fn current_objects(&self) -> (r: &Vec<CurrentFile>)
        ensures
            files_view(r@) == self@.objects,
    {
        &self.current_objects
    }

    /// The delta from this snapshot to `new_snapshot`, which must be the next serial
    /// of the same session.
    pub fn to(&self, new_snapshot: &Snapshot) -> (r: Result<Delta, Error>)
        ensures
            r is Ok <==> new_snapshot@.serial == self@.serial + 1 && new_snapshot@.session
                == self@.session,
            r matches Err(e) ==> e is InvalidDelta,
            r matches Ok(d) ==> {
                &&& d@.session == new_snapshot@.session
                &&& d@.serial == new_snapshot@.serial
                &&& is_diff(uri_index(self@.objects), uri_index(new_snapshot@.objects), d@.elements)
                &&& d@.elements == diff_of(self@.objects, new_snapshot@.objects)
            },
    {
        if new_snapshot.serial == 0 || self.serial != new_snapshot.serial - 1
            || self.session.id != new_snapshot.session.id {
            return Err(Error::InvalidDelta);
        }
        let old_index = UriIndex::build(&self.current_objects);
        let new_index = UriIndex::build(&new_snapshot.current_objects);
        let (updates, withdraws) = diff_old(
            &self.current_objects,
            &new_snapshot.current_objects,
            &old_index,
            &new_index,
        );
        let publishes = diff_new(
            &self.current_objects,
            &new_snapshot.current_objects,
            &old_index,
            &new_index,
        );
        let elements = DeltaElements { publishes, updates, withdraws };
        Ok(Delta { session: new_snapshot.session, serial: new_snapshot.serial, elements })
    }

    pub fn len(&self) -> (r: usize)
        ensures
            r == self@.objects.len(),
    {
        self.current_objects.len()
    }

    pub fn is_empty(&self) -> (r: bool)
        ensures
            r == (self@.objects.len() == 0),
    {
        self.current_objects.len() == 0
    }
}

impl DeltaElements {
    pub fn unwrap(self) -> (r: (Vec<PublishElement>, Vec<UpdateElement>, Vec<WithdrawElement>))
        ensures
            r.0@.map_values(|p: PublishElement| p@) == self@.publishes,
            r.1@.map_values(|u: UpdateElement| u@) == self@.updates,
            r.2@.map_values(|w: WithdrawElement| w@) == self@.withdraws,
    {
        (self.publishes, self.updates, self.withdraws)
    }

    /// The number of elements.
    pub fn len(&self) -> (r: usize)
        requires
            elements_len(self@) <= usize::MAX,
        ensures
            r == elements_len(self@),
    {
        self.publishes.len() + self.updates.len() + self.withdraws.len()
    }

    pub fn is_empty(&self) -> (r: bool)
        ensures
            r == (elements_len(self@) == 0),
    {
        self.publishes.len() == 0 && self.updates.len() == 0 && self.withdraws.len() == 0
    }

    pub fn publishes(&self) -> (r: &Vec<PublishElement>)
        ensures
            r@.map_values(|p: PublishElement| p@) == self@.publishes,
    {
        &self.publishes
    }

    pub fn updates(&self) -> (r: &Vec<UpdateElement>)
        ensures
            r@.map_values(|u: UpdateElement| u@) == self@.updates,
    {
        &self.updates
    }

    pub fn withdraws(&self) -> (r: &Vec<WithdrawElement>)
        ensures
            r@.map_values(|w: WithdrawElement| w@) == self@.withdraws,
    {
        &self.withdraws
    }
}

impl Delta {
    pub fn new(session: SessionId, serial: u64, elements: DeltaElements) -> (r: Self)
        ensures
            r@ == (DeltaV { session: session.id, serial, elements: elements@ }),
    {
        Delta { session, serial, elements }
    }

    pub fn session(&self) -> (r: &SessionId)
        ensures
            r.id == self@.session,
    {
        &self.session
    }

    pub fn serial(&self) -> (r: u64)
        ensures
            r == self@.serial,
    {
        self.serial
    }

    pub fn elements(&self) -> (r: &DeltaElements)
        ensures
            r@ == self@.elements,
    {
        &self.elements
    }

    /// The number of elements: a cheap measure of the size of the delta.
    pub fn len(&self) -> (r: usize)
        requires
            elements_len(self@.elements) <= usize::MAX,
        ensures
            r == elements_len(self@.elements),
    {
        self.elements.len()
    }

    pub fn is_empty(&self) -> (r: bool)
        ensures
            r == (elements_len(self@.elements) == 0),
    {
        self.elements.is_empty()
    }

    pub fn unwrap(self) -> (r: (SessionId, u64, DeltaElements))
        ensures
            r.0.id == self@.session,
            r.1 == self@.serial,
            r.2@ == self@.elements,
    {
        (self.session, self.serial, self.elements)
    }
}

//------------ Applying a delta ---------------------------------------------

/// The digest of the content that Base64 text `b` stands for.
pub open spec fn content_hash(b: Seq<u8>) -> Seq<u8> {
    hash_text(base64_decoded(b)->Some_0)
}

/// The digests of the files of `s`, by URI.
pub open spec fn hash_index(s: Seq<FileView>) -> Map<Seq<u8>, Seq<u8>> {
    uri_index(s).map_values(|f: FileView| f.hash)
}

pub open spec fn publishes_uri(e: DeltaElementsV, u: Seq<u8>) -> bool {
    exists|i: int| 0 <= i < e.publishes.len() && #[trigger] e.publishes[i].0 == u
}

pub open spec fn updates_uri(e: DeltaElementsV, u: Seq<u8>) -> bool {
    exists|i: int| 0 <= i < e.updates.len() && #[trigger] e.updates[i].0 == u
}

pub open spec fn withdraws_uri(e: DeltaElementsV, u: Seq<u8>) -> bool {
    exists|i: int| 0 <= i < e.withdraws.len() && #[trigger] e.withdraws[i].0 == u
}

/// The digests by URI after `e` is applied to `m`: withdrawn URIs leave, published and
/// updated URIs get the digest of their new content, the others stay as they were.
pub open spec fn apply_delta(m: Map<Seq<u8>, Seq<u8>>, e: DeltaElementsV) -> Map<Seq<u8>, Seq<u8>> {
    Map::new(
        |u: Seq<u8>|
            (m.contains_key(u) && !withdraws_uri(e, u)) || publishes_uri(e, u) || updates_uri(e, u),
        |u: Seq<u8>|
            if publishes_uri(e, u) {
                content_hash(
                    e.publishes[choose|i: int| 0 <= i < e.publishes.len() && #[trigger] e.publishes[i].0 == u].1,
                )
            } else if updates_uri(e, u) {
                content_hash(
                    e.updates[choose|i: int| 0 <= i < e.updates.len() && #[trigger] e.updates[i].0 == u].2,
                )
            } else {
                m[u]
            },
    )
}

proof fn lemma_index_value_wf(s: Seq<FileView>, u: Seq<u8>)
    requires
        files_wf(s),
        uri_index(s).contains_key(u),
    ensures
        file_wf(uri_index(s)[u]),
{
    lemma_uri_index(s);
    lemma_has_last(s, u);
    let k = choose|k: int| #[trigger] is_last(s, k) && s[k].uri == u;
    assert(file_wf(s[k]));
}

/// Delta correctness: the delta between two snapshots, applied to the digests by URI
/// of the first, gives the digests by URI of the second.
pub proof fn lemma_delta_applies(old: SnapshotV, new: SnapshotV, e: DeltaElementsV)
    requires
        files_wf(new.objects),
        is_diff(uri_index(old.objects), uri_index(new.objects), e),
    ensures
        apply_delta(hash_index(old.objects), e) == hash_index(new.objects),
{
    let io = uri_index(old.objects);
    let inew = uri_index(new.objects);
    let a = apply_delta(hash_index(old.objects), e);
    let h = hash_index(new.objects);
    assert forall|u: Seq<u8>| #[trigger] a.contains_key(u) <==> h.contains_key(u) by {
        if publishes_uri(e, u) {
            let i = choose|i: int| 0 <= i < e.publishes.len() && #[trigger] e.publishes[i].0 == u;
        }
        if updates_uri(e, u) {
            let i = choose|i: int| 0 <= i < e.updates.len() && #[trigger] e.updates[i].0 == u;
        }
        if withdraws_uri(e, u) {
            let i = choose|i: int| 0 <= i < e.withdraws.len() && #[trigger] e.withdraws[i].0 == u;
        }
        if io.contains_key(u) && !inew.contains_key(u) {
            assert(withdraws_uri(e, u));
        }
        if !io.contains_key(u) && inew.contains_key(u) {
            assert(publishes_uri(e, u));
        }
    }
    assert forall|u: Seq<u8>| #[trigger] a.contains_key(u) implies a[u] == h[u] by {
        if publishes_uri(e, u) {
            let i = choose|i: int| 0 <= i < e.publishes.len() && #[trigger] e.publishes[i].0 == u;
            lemma_index_value_wf(new.objects, u);
        } else if updates_uri(e, u) {
            let i = choose|i: int| 0 <= i < e.updates.len() && #[trigger] e.updates[i].0 == u;
            lemma_index_value_wf(new.objects, u);
        } else {
            assert(io.contains_key(u));
            if !inew.contains_key(u) {
                assert(withdraws_uri(e, u));
            }
            if io[u].hash != inew[u].hash {
                assert(updates_uri(e, u));
            }
        }
    }
    assert(a =~= h);
}

//------------ XML form of the artifacts -------------------------------------

/// The attributes of a document root: namespace, version, session and serial.
pub open spec fn root_attrs(session: u128, serial: u64) -> AttrsV {
    seq![
        (xmlns_name(), rrdp_ns()),
        (version_name(), rrdp_version()),
        (session_id_name(), uuid_text(session)),
        (serial_name(), dec_of(serial as nat)),
    ]
}

pub open spec fn publish_elem(f: FileView) -> ElemV {
    ElemV { name: publish_name(), attrs: seq![(uri_name(), f.uri)], text: f.base64 }
}

pub open spec fn snapshot_doc(s: SnapshotV) -> DocV {
    DocV {
        name: snapshot_name(),
        attrs: root_attrs(s.session, s.serial),
        children: s.objects.map_values(|f: FileView| publish_elem(f)),
    }
}

/// The bytes of the snapshot file for `s`.
pub open spec fn snapshot_xml(s: SnapshotV) -> Seq<u8> {
    ser_doc(snapshot_doc(s))
}

fn attribute(name: Vec<u8>, value: Vec<u8>) -> (r: Attribute)
    ensures
        r.name@ == name@,
        r.value@ == value@,
{
    Attribute { name, value }
}

fn root_attributes(session: SessionId, serial: u64) -> (r: Vec<Attribute>)
    ensures
        attrs_view(r@) == root_attrs(session.id, serial),
{
    let r = vec![
        attribute(xmlns_name_bytes(), rrdp_ns_bytes()),
        attribute(version_name_bytes(), rrdp_version_bytes()),
        attribute(session_id_name_bytes(), session.text()),
        attribute(serial_name_bytes(), decimal(serial)),
    ];
    assert(attrs_view(r@) =~= root_attrs(session.id, serial));
    r
}

proof fn lemma_root_attrs_wf(session: u128, serial: u64)
    ensures
        wf_attrs(root_attrs(session, serial)),
{
    let a = root_attrs(session, serial);
    assert forall|i: int| 0 <= i < a.len() implies wf_name(#[trigger] a[i].0) by {
        let n = a[i].0;
        assert forall|k: int| 0 <= k < n.len() implies is_name_byte(#[trigger] n[k]) by {}
    }
}

proof fn lemma_snapshot_doc_wf(s: SnapshotV)
    ensures
        wf_doc(snapshot_doc(s)),
{
    lemma_root_attrs_wf(s.session, s.serial);
    let d = snapshot_doc(s);
    assert forall|k: int| 0 <= k < snapshot_name().len() implies is_name_byte(
        #[trigger] snapshot_name()[k],
    ) by {}
    assert forall|i: int| 0 <= i < d.children.len() implies wf_elem(
        #[trigger] d.children[i],
    ) by {
        let e = d.children[i];
        assert forall|k: int| 0 <= k < e.name.len() implies is_name_byte(
            #[trigger] e.name[k],
        ) by {}
        assert forall|j: int| 0 <= j < e.attrs.len() implies wf_name(#[trigger] e.attrs[j].0) by {
            let n = e.attrs[j].0;
            assert forall|k: int| 0 <= k < n.len() implies is_name_byte(
                #[trigger] n[k],
            ) by {}
        }
    }
}

/// Snapshots with the same file text are the same snapshot.
proof fn lemma_snapshot_doc_injective(s1: SnapshotV, s2: SnapshotV)
    requires
        files_wf(s1.objects),
        files_wf(s2.objects),
        snapshot_doc(s1) == snapshot_doc(s2),
    ensures
        s1 == s2,
{
    let d1 = snapshot_doc(s1);
    let d2 = snapshot_doc(s2);
    assert(d1.attrs[2].1 == d2.attrs[2].1);
    lemma_uuid_text_injective(s1.session, s2.session);
    assert(d1.attrs[3].1 == d2.attrs[3].1);
    lemma_dec_of_digits(s1.serial as nat);
    lemma_dec_of_digits(s2.serial as nat);
    assert(d1.children.len() == d2.children.len());
    assert forall|i: int| 0 <= i < s1.objects.len() implies s1.objects[i] == s2.objects[i] by {
        assert(d1.children[i] == d2.children[i]);
        assert(d1.children[i].attrs[0].1 == d2.children[i].attrs[0].1);
        assert(file_wf(s1.objects[i]));
        assert(file_wf(s2.objects[i]));
    }
    assert(s1.objects =~= s2.objects);
}

proof fn lemma_first_named_zero(a: AttrsV, n: Seq<u8>, i: int)
    requires
        a.len() > 0,
        a[0].0 == n,
        first_named(a, n, i),
    ensures
        i == 0,
{
    if i > 0 {
        assert(a[0].0 != n);
    }
}

/// The session and serial that the root attributes `a` give: exactly the namespace,
/// version `1`, a session that uuid reads and a serial that is a `u64`, in any order.
pub open spec fn root_fields(a: AttrsV) -> Option<(u128, u64)> {
    let session = first_value(a, session_id_name());
    let serial = first_value(a, serial_name());
    if a.len() == 4 && first_value(a, xmlns_name()) == Some(rrdp_ns()) && first_value(
        a,
        version_name(),
    ) == Some(rrdp_version()) && session is Some && uuid_read(session->Some_0) is Some
        && serial is Some && parses_as_u64(serial->Some_0) {
        Some((uuid_read(session->Some_0)->Some_0, u64_value(serial->Some_0) as u64))
    } else {
        None
    }
}

/// The file that a `publish` element of a snapshot gives: exactly one attribute, `uri`,
/// and text that Base64 decodes.
pub open spec fn file_of_elem(e: ElemV) -> Option<FileView> {
    if e.name == publish_name() && e.attrs.len() == 1 && e.attrs[0].0 == uri_name()
        && base64_decoded(e.text) is Some {
        let c = base64_decoded(e.text)->Some_0;
        Some(FileView { uri: e.attrs[0].1, base64: base64_of(c), hash: hash_text(c) })
    } else {
        None
    }
}

/// The snapshot that a document gives: a `snapshot` root with valid attributes whose
/// children are all valid `publish` elements, in document order.
pub open spec fn snapshot_of_doc(d: DocV) -> Option<SnapshotV> {
    if d.name == snapshot_name() && root_fields(d.attrs) is Some && forall|i: int|
        0 <= i < d.children.len() ==> #[trigger] file_of_elem(d.children[i]) is Some {
        Some(
            SnapshotV {
                session: root_fields(d.attrs)->Some_0.0,
                serial: root_fields(d.attrs)->Some_0.1,
                objects: d.children.map_values(|e: ElemV| file_of_elem(e)->Some_0),
            },
        )
    } else {
        None
    }
}

/// The snapshot that the bytes of a file give, if they are a document that gives one.
pub open spec fn snapshot_read(b: Seq<u8>) -> Option<SnapshotV> {
    if exists|d: DocV| doc_is(b, d) {
        snapshot_of_doc(choose|d: DocV| doc_is(b, d))
    } else {
        None
    }
}

/// Relies on std's `String::from_utf8_lossy` to show a tag name in a message.
#[verifier::external_body]
fn unexpected_tag(name: &[u8]) -> (r: Error)
    ensures
        r is InvalidXml,
{
    Error::InvalidXml(format!("Unexpected tag: {}", String::from_utf8_lossy(name)))
}

fn invalid_xml(msg: &str) -> (r: Error)
    ensures
        r is InvalidXml,
{
    Error::InvalidXml(msg.to_string())
}

impl Snapshot {
    /// The snapshot file: an XML declaration and a `snapshot` element with one
    /// `publish` element per file.
    pub fn write_xml(&self) -> (r: Vec<u8>)
        ensures
            r@ == snapshot_xml(self@),
    {
        let mut children: Vec<Element> = Vec::new();
        let mut i: usize = 0;
        while i < self.current_objects.len()
            invariant
                i <= self.current_objects@.len(),
                elems_view(children@) == self@.objects.take(i as int).map_values(
                    |f: FileView| publish_elem(f),
                ),
            decreases self.current_objects@.len() - i,
        {
            let f = &self.current_objects[i];
            let e = Element {
                name: publish_name_bytes(),
                attrs: vec![attribute(uri_name_bytes(), copy_bytes(f.uri().as_bytes()))],
                text: copy_bytes(f.base64().as_bytes()),
            };
            proof {
                assert(attrs_view(e.attrs@) =~= seq![(uri_name(), f@.uri)]);
                assert(e@ == publish_elem(f@));
            }
            let ghost old_children = elems_view(children@);
            children.push(e);
            proof {
                assert(elems_view(children@) =~= old_children.push(e@));
                assert(self@.objects[i as int] == f@);
                assert(self@.objects.take(i + 1).map_values(|f: FileView| publish_elem(f))
                    =~= self@.objects.take(i as int).map_values(|f: FileView| publish_elem(f)).push(
                    publish_elem(f@),
                ));
            }
            i = i + 1;
        }
        assert(self@.objects.take(i as int) =~= self@.objects);
        let doc = Document {
            name: snapshot_name_bytes(),
            attrs: root_attributes(self.session, self.serial),
            children,
        };
        assert(doc@ =~= snapshot_doc(self@));
        encode(&doc)
    }

    /// Reads a snapshot file. Whatever `write_xml` writes for a snapshot is read back
    /// as that snapshot.
    pub fn from_xml(bytes: &[u8]) -> (r: Result<Snapshot, Error>)
        ensures
            r matches Ok(s) ==> files_wf(s@.objects) && snapshot_read(bytes@) == Some(s@),
            r matches Err(e) ==> e is InvalidXml && snapshot_read(bytes@) is None,
            forall|s: SnapshotV|
                files_wf(s.objects) && #[trigger] snapshot_xml(s) == bytes@ ==> (r matches Ok(t)
                    && t@ == s),
    {
        let ghost target: Option<SnapshotV> = if exists|s: SnapshotV|
            files_wf(s.objects) && #[trigger] snapshot_xml(s) == bytes@ {
            Some(
                choose|s: SnapshotV| files_wf(s.objects) && #[trigger] snapshot_xml(s) == bytes@,
            )
        } else {
            None
        };
        let doc = match decode(bytes) {
            Ok(d) => d,
            Err(_) => {
                proof {
                    if let Some(t) = target {
                        lemma_snapshot_doc_wf(t);
                        assert(doc_is(bytes@, snapshot_doc(t)));
                    }
                }
                return Err(invalid_xml("not a snapshot document"));
            },
        };
        let ghost dv = doc@;
        proof {
            assert(doc_is(bytes@, dv));
            let c = choose|d: DocV| doc_is(bytes@, d);
            assert(c == dv);
            assert(snapshot_read(bytes@) == snapshot_of_doc(dv));
            assert forall|s: SnapshotV|
                files_wf(s.objects) && #[trigger] snapshot_xml(s) == bytes@ implies target == Some(s)
                && doc@ == snapshot_doc(s) by {
                let t = target->Some_0;
                lemma_snapshot_doc_wf(s);
                lemma_snapshot_doc_wf(t);
                assert(doc_is(bytes@, snapshot_doc(s)));
                assert(doc_is(bytes@, snapshot_doc(t)));
                lemma_snapshot_doc_injective(s, t);
            }
            if let Some(t) = target {
                assert(doc@.attrs == root_attrs(t.session, t.serial));
            }
        }
        let Document { name, attrs, children } = doc;
        if !bytes_eq(name.as_slice(), snapshot_name_bytes().as_slice()) {
            return Err(unexpected_tag(name.as_slice()));
        }
        let mut a = Attributes::new(attrs);
        assert(a@ == dv.attrs);
        let (session, serial) = match read_root_attributes(&mut a) {
            Some(t) => t,
            None => {
                return Err(invalid_xml("invalid snapshot attributes"));
            },
        };
        let mut files: Vec<CurrentFile> = Vec::new();
        let mut i: usize = 0;
        while i < children.len()
            invariant
                i <= children@.len(),
                files_wf(files_view(files@)),
                elems_view(children@) == dv.children,
                dv.name == snapshot_name(),
                root_fields(dv.attrs) == Some((session.id, serial)),
                snapshot_read(bytes@) == snapshot_of_doc(dv),
                files_view(files@).len() == i,
                forall|k: int|
                    0 <= k < i ==> #[trigger] file_of_elem(dv.children[k]) == Some(
                        files_view(files@)[k],
                    ),
                forall|s: SnapshotV|
                    files_wf(s.objects) && #[trigger] snapshot_xml(s) == bytes@ ==> target == Some(s),
                target matches Some(t) ==> {
                    &&& elems_view(children@) == t.objects.map_values(|f: FileView| publish_elem(f))
                    &&& files_wf(t.objects)
                    &&& files_view(files@) == t.objects.take(i as int)
                },
            decreases children@.len() - i,
        {
            let c = &children[i];
            assert(dv.children[i as int] == c@);
            if !bytes_eq(c.name.as_slice(), publish_name_bytes().as_slice()) {
                proof {
                    assert(file_of_elem(dv.children[i as int]) is None);
                    if let Some(t) = target {
                        assert(elems_view(children@)[i as int] == publish_elem(t.objects[i as int]));
                        assert(false);
                    }
                }
                return Err(unexpected_tag(c.name.as_slice()));
            }
            let f = match read_publish(c) {
                Some(f) => f,
                None => {
                    proof {
                        assert(file_of_elem(dv.children[i as int]) is None);
                        if let Some(t) = target {
                            assert(elems_view(children@)[i as int] == c@);
                            assert(elems_view(children@)[i as int] == publish_elem(t.objects[i as int]));
                            assert(file_wf(t.objects[i as int]));
                            assert(false);
                        }
                    }
                    return Err(invalid_xml("invalid publish element"));
                },
            };
            let ghost old_files = files_view(files@);
            proof {
                if let Some(t) = target {
                    assert(elems_view(children@)[i as int] == c@);
                    assert(elems_view(children@)[i as int] == publish_elem(t.objects[i as int]));
                    assert(file_wf(t.objects[i as int]));
                    assert(t.objects.take(i + 1) =~= t.objects.take(i as int).push(t.objects[i as int]));
                }
            }
            files.push(f);
            proof {
                assert(files_view(files@) =~= old_files.push(f@));
                assert forall|k: int| 0 <= k < files_view(files@).len() implies file_wf(
                    #[trigger] files_view(files@)[k],
                ) by {
                    if k < old_files.len() {
                        assert(files_view(files@)[k] == old_files[k]);
                    }
                }
                assert forall|k: int| 0 <= k < i + 1 implies #[trigger] file_of_elem(dv.children[k])
                    == Some(files_view(files@)[k]) by {
                    if k < i {
                        assert(files_view(files@)[k] == old_files[k]);
                    }
                }
            }
            i = i + 1;
        }
        proof {
            if let Some(t) = target {
                assert(t.objects.take(i as int) =~= t.objects);
            }
            assert(files_view(files@) =~= dv.children.map_values(|e: ElemV| file_of_elem(e)->Some_0));
        }
        Ok(Snapshot { session, serial, current_objects: files })
    }
}

/// Reads the namespace, version, session and serial of a document root.
fn read_root_attributes(a: &mut Attributes) -> (r: Option<(SessionId, u64)>)
    ensures
        r == match root_fields(old(a)@) {
            Some((session, serial)) => Some((SessionId { id: session }, serial)),
            None => None,
        },
        forall|session: u128, serial: u64|
            #[trigger] root_attrs(session, serial) == old(a)@ ==> r == Some(
                (SessionId { id: session }, serial),
            ),
{
    let ghost a0 = a@;
    proof {
        assert forall|session: u128, serial: u64| #[trigger]
            root_attrs(session, serial) == a0 implies a0.len() == 4 && a0[0].0 == xmlns_name() by {}
    }
    let ns = match a.take_req(xmlns_name_bytes().as_slice()) {
        Ok(v) => v,
        Err(_) => {
            proof {
                lemma_no_first(a0, xmlns_name());
                assert forall|session: u128, serial: u64| #[trigger]
                    root_attrs(session, serial) == a0 implies false by {
                    assert(a0[0].0 == xmlns_name());
                    assert(has_named(a0, xmlns_name()));
                }
            }
            return None;
        },
    };
    let ghost a1 = a@;
    proof {
        let i = choose|i: int| first_named(a0, xmlns_name(), i) && ns@ == a0[i].1 && a1 == a0.remove(i);
        lemma_take_first(a0, xmlns_name(), i);
        assert(first_value(a1, version_name()) == first_value(a0, version_name()));
        assert(first_value(a1, session_id_name()) == first_value(a0, session_id_name()));
        assert(first_value(a1, serial_name()) == first_value(a0, serial_name()));
        assert forall|session: u128, serial: u64| #[trigger]
            root_attrs(session, serial) == a0 implies a1 == root_attrs(session, serial).remove(0)
            && ns@ == rrdp_ns() by {
            let i = choose|i: int| first_named(a0, xmlns_name(), i) && ns@ == a0[i].1 && a1 == a0.remove(i);
            lemma_first_named_zero(a0, xmlns_name(), i);
        }
    }
    if !bytes_eq(ns.as_slice(), rrdp_ns_bytes().as_slice()) {
        return None;
    }
    let version = match a.take_req(version_name_bytes().as_slice()) {
        Ok(v) => v,
        Err(_) => {
            proof {
                lemma_no_first(a1, version_name());
                assert forall|session: u128, serial: u64| #[trigger]
                    root_attrs(session, serial) == a0 implies false by {
                    assert(a1[0].0 == version_name());
                    assert(has_named(a1, version_name()));
                }
            }
            return None;
        },
    };
    let ghost a2 = a@;
    proof {
        let i = choose|i: int| first_named(a1, version_name(), i) && version@ == a1[i].1 && a2 == a1.remove(i);
        lemma_take_first(a1, version_name(), i);
        assert(first_value(a2, session_id_name()) == first_value(a0, session_id_name()));
        assert(first_value(a2, serial_name()) == first_value(a0, serial_name()));
        assert forall|session: u128, serial: u64| #[trigger]
            root_attrs(session, serial) == a0 implies a2 == root_attrs(session, serial).subrange(2, 4)
            && version@ == rrdp_version() by {
            assert(a1[0].0 == version_name());
            let i = choose|i: int| first_named(a1, version_name(), i) && version@ == a1[i].1 && a2 == a1.remove(i);
            lemma_first_named_zero(a1, version_name(), i);
            assert(a2 =~= root_attrs(session, serial).subrange(2, 4));
        }
    }
    if !bytes_eq(version.as_slice(), rrdp_version_bytes().as_slice()) {
        return None;
    }
    let session_text = match a.take_req(session_id_name_bytes().as_slice()) {
        Ok(v) => v,
        Err(_) => {
            proof {
                lemma_no_first(a2, session_id_name());
                assert forall|session: u128, serial: u64| #[trigger]
                    root_attrs(session, serial) == a0 implies false by {
                    assert(a2[0].0 == session_id_name());
                    assert(has_named(a2, session_id_name()));
                }
            }
            return None;
        },
    };
    let ghost a3 = a@;
    proof {
        let i = choose|i: int| first_named(a2, session_id_name(), i) && session_text@ == a2[i].1 && a3 == a2.remove(i);
        lemma_take_first(a2, session_id_name(), i);
        assert(first_value(a3, serial_name()) == first_value(a0, serial_name()));
        assert forall|session: u128, serial: u64| #[trigger]
            root_attrs(session, serial) == a0 implies a3 == root_attrs(session, serial).subrange(3, 4)
            && session_text@ == uuid_text(session) by {
            assert(a2[0].0 == session_id_name());
            let i = choose|i: int| first_named(a2, session_id_name(), i) && session_text@ == a2[i].1 && a3 == a2.remove(i);
            lemma_first_named_zero(a2, session_id_name(), i);
            assert(a3 =~= root_attrs(session, serial).subrange(3, 4));
        }
    }
    let session = match SessionId::parse(session_text.as_slice()) {
        Some(s) => s,
        None => {
            return None;
        },
    };
    let serial_text = match a.take_req(serial_name_bytes().as_slice()) {
        Ok(v) => v,
        Err(_) => {
            proof {
                lemma_no_first(a3, serial_name());
                assert forall|session: u128, serial: u64| #[trigger]
                    root_attrs(session, serial) == a0 implies false by {
                    assert(a3[0].0 == serial_name());
                    assert(has_named(a3, serial_name()));
                }
            }
            return None;
        },
    };
    let ghost a4 = a@;
    proof {
        let i = choose|i: int| first_named(a3, serial_name(), i) && serial_text@ == a3[i].1 && a4 == a3.remove(i);
        lemma_take_first(a3, serial_name(), i);
        assert forall|session: u128, serial: u64| #[trigger]
            root_attrs(session, serial) == a0 implies a4.len() == 0 && serial_text@ == dec_of(serial as nat)
            && parses_as_u64(serial_text@) && u64_value(serial_text@) == serial by {
            assert(a3[0].0 == serial_name());
            let i = choose|i: int| first_named(a3, serial_name(), i) && serial_text@ == a3[i].1 && a4 == a3.remove(i);
            lemma_first_named_zero(a3, serial_name(), i);
            lemma_dec_of_digits(serial as nat);
        }
    }
    let serial = match parse_u64(serial_text.as_slice()) {
        Some(n) => n,
        None => {
            return None;
        },
    };
    if a.exhausted().is_err() {
        return None;
    }
    Some((session, serial))
}

/// Reads a `publish` element of a snapshot into a file.
fn read_publish(e: &Element) -> (r: Option<CurrentFile>)
    ensures
        r matches Some(f) ==> file_wf(f@),
        match file_of_elem(e@) {
            Some(f) => r matches Some(g) && g@ == f,
            None => r is None,
        },
        forall|f: FileView| file_wf(f) && #[trigger] publish_elem(f) == e@ ==> (r matches Some(g) && g@ == f),
{
    if !bytes_eq(e.name.as_slice(), publish_name_bytes().as_slice()) {
        return None;
    }
    let mut a = Attributes::new(copy_attributes(&e.attrs));
    let ghost a0 = a@;
    let uri = match a.take_req(uri_name_bytes().as_slice()) {
        Ok(v) => v,
        Err(_) => {
            proof {
                if e@.attrs.len() == 1 && e@.attrs[0].0 == uri_name() {
                    assert(has_named(a0, uri_name()));
                }
                assert forall|f: FileView| file_wf(f) && #[trigger] publish_elem(f) == e@ implies false by {
                    assert(a0[0].0 == uri_name());
                    assert(has_named(a0, uri_name()));
                }
            }
            return None;
        },
    };
    proof {
        let i = choose|i: int| first_named(a0, uri_name(), i) && uri@ == a0[i].1 && a@ == a0.remove(i);
        if a0.len() == 1 {
            assert(i == 0);
        }
        assert forall|f: FileView| file_wf(f) && #[trigger] publish_elem(f) == e@ implies a@.len() == 0
            && uri@ == f.uri by {
            let i = choose|i: int| first_named(a0, uri_name(), i) && uri@ == a0[i].1 && a@ == a0.remove(i);
            lemma_first_named_zero(a0, uri_name(), i);
        }
    }
    if a.exhausted().is_err() {
        return None;
    }
    let content = match decode_base64(e.text.as_slice()) {
        Ok(c) => c,
        Err(_) => {
            return None;
        },
    };
    let f = CurrentFile::new(RsyncUri::from_bytes(uri.as_slice()), content.as_slice());
    Some(f)
}

fn copy_attributes(a: &Vec<Attribute>) -> (r: Vec<Attribute>)
    ensures
        attrs_view(r@) == attrs_view(a@),
{
    let mut r: Vec<Attribute> = Vec::new();
    let mut i: usize = 0;
    while i < a.len()
        invariant
            i <= a@.len(),
            attrs_view(r@) == attrs_view(a@).take(i as int),
        decreases a@.len() - i,
    {
        let x = attribute(copy_bytes(a[i].name.as_slice()), copy_bytes(a[i].value.as_slice()));
        let ghost old_r = attrs_view(r@);
        r.push(x);
        assert(attrs_view(r@) =~= old_r.push((x.name@, x.value@)));
        assert(attrs_view(a@).take(i + 1) =~= attrs_view(a@).take(i as int).push(attrs_view(a@)[i as int]));
        i = i + 1;
    }
    assert(attrs_view(a@).take(i as int) =~= attrs_view(a@));
    r
}

//------------ FileRef and DeltaRef ------------------------------------------

pub struct FileRefV {
    pub uri: Seq<u8>,
    pub hash: Seq<u8>,
    pub size: nat,
}

/// Where an artifact is published, with the digest and the size of its bytes.
#[derive(Clone, Debug, Eq, PartialEq)]
pub struct FileRef {
    uri: HttpsUri,
    hash: EncodedHash,
    size: usize,
}

impl View for FileRef {
    type V = FileRefV;

    closed spec fn view(&self) -> FileRefV {
        FileRefV { uri: self.uri@, hash: self.hash@, size: self.size as nat }
    }
}

/// The reference to `bytes` published at `uri`.
pub open spec fn file_ref_of(uri: Seq<u8>, bytes: Seq<u8>) -> FileRefV {
    FileRefV { uri, hash: hash_text(bytes), size: bytes.len() }
}

impl FileRef {
    pub fn new(uri: HttpsUri, bytes: &[u8]) -> (r: Self)
        ensures
            r@ == file_ref_of(uri@, bytes@),
    {
        let hash = EncodedHash::from_content(bytes);
        let size = bytes.len();
        FileRef { uri, hash, size }
    }

    pub fn uri(&self) -> (r: &HttpsUri)
        ensures
            r@ == self@.uri,
    {
        &self.uri
    }

    pub fn hash(&self) -> (r: &EncodedHash)
        ensures
            r@ == self@.hash,
    {
        &self.hash
    }

    pub fn size(&self) -> (r: usize)
        ensures
            r == self@.size,
    {
        self.size
    }
}

pub type SnapshotRef = FileRef;

pub struct DeltaRefV {
    pub serial: u64,
    pub file: FileRefV,
}

/// A delta of a notification: its serial and where it is published.
#[derive(Clone, Debug, Eq, PartialEq)]
pub struct DeltaRef {
    serial: u64,
    file_ref: FileRef,
}

impl View for DeltaRef {
    type V = DeltaRefV;

    closed spec fn view(&self) -> DeltaRefV {
        DeltaRefV { serial: self.serial, file: self.file_ref@ }
    }
}

pub open spec fn delta_refs_view(ds: Seq<DeltaRef>) -> Seq<DeltaRefV> {
    ds.map_values(|d: DeltaRef| d@)
}

impl DeltaRef {
    pub fn new(serial: u64, file_ref: FileRef) -> (r: Self)
        ensures
            r@ == (DeltaRefV { serial, file: file_ref@ }),
    {
        DeltaRef { serial, file_ref }
    }

    pub fn serial(&self) -> (r: u64)
        ensures
            r == self@.serial,
    {
        self.serial
    }

    pub fn size(&self) -> (r: usize)
        ensures
            r == self@.file.size,
    {
        self.file_ref.size
    }

    pub fn file_ref(&self) -> (r: &FileRef)
        ensures
            r@ == self@.file,
    {
        &self.file_ref
    }
}

impl AsRef<FileRef> for DeltaRef {
    fn as_ref(&self) -> &FileRef {
        &self.file_ref
    }
}

//------------ Delta XML -----------------------------------------------------

pub open spec fn delta_children(e: DeltaElementsV) -> Seq<ElemV> {
    e.publishes.map_values(
        |p: (Seq<u8>, Seq<u8>)| ElemV { name: publish_name(), attrs: seq![(uri_name(), p.0)], text: p.1 },
    ) + e.updates.map_values(
        |u: (Seq<u8>, Seq<u8>, Seq<u8>)|
            ElemV {
                name: publish_name(),
                attrs: seq![(uri_name(), u.0), (hash_name(), u.1)],
                text: u.2,
            },
    ) + e.withdraws.map_values(
        |w: (Seq<u8>, Seq<u8>)|
            ElemV {
                name: withdraw_name(),
                attrs: seq![(uri_name(), w.0), (hash_name(), w.1)],
                text: Seq::empty(),
            },
    )
}

/// The bytes of the delta file for `d`: publishes, then updates, then withdraws.
pub open spec fn delta_xml(d: DeltaV) -> Seq<u8> {
    ser_doc(
        DocV {
            name: delta_name(),
            attrs: root_attrs(d.session, d.serial),
            children: delta_children(d.elements),
        },
    )
}

impl Delta {
    pub fn write_xml(&self) -> (r: Vec<u8>)
        ensures
            r@ == delta_xml(self@),
    {
        let e = &self.elements;
        let mut children: Vec<Element> = Vec::new();
        let ghost ev = e@;
        let mut i: usize = 0;
        while i < e.publishes.len()
            invariant
                ev == e@,
                i <= e.publishes@.len(),
                elems_view(children@) == delta_children(ev).take(i as int),
            decreases e.publishes@.len() - i,
        {
            let p = &e.publishes[i];
            let x = Element {
                name: publish_name_bytes(),
                attrs: vec![attribute(uri_name_bytes(), copy_bytes(p.uri.as_bytes()))],
                text: copy_bytes(p.base64.as_bytes()),
            };
            let ghost c0 = elems_view(children@);
            children.push(x);
            proof {
                assert(attrs_view(x.attrs@) =~= seq![(uri_name(), p.uri@)]);
                assert(ev.publishes[i as int] == p@);
                assert(elems_view(children@) =~= c0.push(x@));
                assert(delta_children(ev).take(i + 1) =~= delta_children(ev).take(i as int).push(
                    delta_children(ev)[i as int],
                ));
            }
            i = i + 1;
        }
        let np = e.publishes.len();
        let mut i: usize = 0;
        while i < e.updates.len()
            invariant
                ev == e@,
                np == ev.publishes.len(),
                i <= e.updates@.len(),
                elems_view(children@) == delta_children(ev).take(np + i),
            decreases e.updates@.len() - i,
        {
            let u = &e.updates[i];
            let x = Element {
                name: publish_name_bytes(),
                attrs: vec![
                    attribute(uri_name_bytes(), copy_bytes(u.uri.as_bytes())),
                    attribute(hash_name_bytes(), copy_bytes(u.hash.as_bytes())),
                ],
                text: copy_bytes(u.base64.as_bytes()),
            };
            let ghost c0 = elems_view(children@);
            children.push(x);
            proof {
                assert(attrs_view(x.attrs@) =~= seq![(uri_name(), u.uri@), (hash_name(), u.hash@)]);
                assert(ev.updates[i as int] == u@);
                assert(elems_view(children@) =~= c0.push(x@));
                assert(delta_children(ev).take(np + i + 1) =~= delta_children(ev).take(np + i).push(
                    delta_children(ev)[np + i],
                ));
            }
            i = i + 1;
        }
        let nu = e.updates.len();
        let mut i: usize = 0;
        while i < e.withdraws.len()
            invariant
                ev == e@,
                np == ev.publishes.len(),
                nu == ev.updates.len(),
                i <= e.withdraws@.len(),
                elems_view(children@) == delta_children(ev).take(np + nu + i),
            decreases e.withdraws@.len() - i,
        {
            let w = &e.withdraws[i];
            let x = Element {
                name: withdraw_name_bytes(),
                attrs: vec![
                    attribute(uri_name_bytes(), copy_bytes(w.uri.as_bytes())),
                    attribute(hash_name_bytes(), copy_bytes(w.hash.as_bytes())),
                ],
                text: Vec::new(),
            };
            let ghost c0 = elems_view(children@);
            children.push(x);
            proof {
                assert(attrs_view(x.attrs@) =~= seq![(uri_name(), w.uri@), (hash_name(), w.hash@)]);
                assert(ev.withdraws[i as int] == w@);
                assert(x@.text =~= Seq::<u8>::empty());
                assert(elems_view(children@) =~= c0.push(x@));
                assert(delta_children(ev).take(np + nu + i + 1) =~= delta_children(ev).take(
                    np + nu + i,
                ).push(delta_children(ev)[np + nu + i]));
            }
            i = i + 1;
        }
        assert(delta_children(ev).take(np + nu + i) =~= delta_children(ev));
        let doc = Document {
            name: delta_name_bytes(),
            attrs: root_attributes(self.session, self.serial),
            children,
        };
        encode(&doc)
    }
}

//------------ Notification --------------------------------------------------

pub struct NotificationV {
    pub session: u128,
    pub serial: u64,
    pub snapshot: FileRefV,
    pub deltas: Seq<DeltaRefV>,
}

pub open spec fn snapshot_ref_elem(f: FileRefV) -> ElemV {
    ElemV {
        name: snapshot_name(),
        attrs: seq![(uri_name(), f.uri), (hash_name(), f.hash)],
        text: Seq::empty(),
    }
}

pub open spec fn delta_ref_elem(d: DeltaRefV) -> ElemV {
    ElemV {
        name: delta_name(),
        attrs: seq![(serial_name(), dec_of(d.serial as nat)), (uri_name(), d.file.uri), (hash_name(), d.file.hash)],
        text: Seq::empty(),
    }
}

pub open spec fn notification_doc(n: NotificationV) -> DocV {
    DocV {
        name: notification_name(),
        attrs: root_attrs(n.session, n.serial),
        children: seq![snapshot_ref_elem(n.snapshot)] + n.deltas.map_values(
            |d: DeltaRefV| delta_ref_elem(d),
        ),
    }
}

/// The bytes of the notification file for `n`.
pub open spec fn notification_xml(n: NotificationV) -> Seq<u8> {
    ser_doc(notification_doc(n))
}

/// The entry point of a repository: the current snapshot and the deltas that lead to
/// it, newest first.
#[derive(Clone, Debug)]
pub struct Notification {
    session: SessionId,
    serial: u64,
    snapshot: SnapshotRef,
    deltas: Vec<DeltaRef>,
}

impl View for Notification {
    type V = NotificationV;

    closed spec fn view(&self) -> NotificationV {
        NotificationV {
            session: self.session.id,
            serial: self.serial,
            snapshot: self.snapshot@,
            deltas: delta_refs_view(self.deltas@),
        }
    }
}

impl Notification {
    pub fn new(session: SessionId, serial: u64, snapshot: SnapshotRef, deltas: Vec<DeltaRef>) -> (r: Self)
        ensures
            r@ == (NotificationV {
                session: session.id,
                serial,
                snapshot: snapshot@,
                deltas: delta_refs_view(deltas@),
            }),
    {
        Notification { session, serial, snapshot, deltas }
    }

    pub fn write_xml(&self) -> (r: Vec<u8>)
        ensures
            r@ == notification_xml(self@),
    {
        let ghost nv = self@;
        let first = Element {
            name: snapshot_name_bytes(),
            attrs: vec![
                attribute(uri_name_bytes(), copy_bytes(self.snapshot.uri.as_bytes())),
                attribute(hash_name_bytes(), copy_bytes(self.snapshot.hash.as_bytes())),
            ],
            text: Vec::new(),
        };
        proof {
            assert(attrs_view(first.attrs@) =~= seq![(uri_name(), nv.snapshot.uri), (hash_name(), nv.snapshot.hash)]);
            assert(first@.text =~= Seq::<u8>::empty());
        }
        let mut children: Vec<Element> = vec![first];
        assert(elems_view(children@) =~= notification_doc(nv).children.take(1));
        let mut i: usize = 0;
        while i < self.deltas.len()
            invariant
                nv == self@,
                i <= self.deltas@.len(),
                elems_view(children@) == notification_doc(nv).children.take(i + 1),
            decreases self.deltas@.len() - i,
        {
            let d = &self.deltas[i];
            let x = Element {
                name: delta_name_bytes(),
                attrs: vec![
                    attribute(serial_name_bytes(), decimal(d.serial)),
                    attribute(uri_name_bytes(), copy_bytes(d.file_ref.uri.as_bytes())),
                    attribute(hash_name_bytes(), copy_bytes(d.file_ref.hash.as_bytes())),
                ],
                text: Vec::new(),
            };
            let ghost c0 = elems_view(children@);
            children.push(x);
            proof {
                assert(attrs_view(x.attrs@) =~= seq![
                    (serial_name(), dec_of(d@.serial as nat)),
                    (uri_name(), d@.file.uri),
                    (hash_name(), d@.file.hash),
                ]);
                assert(x@.text =~= Seq::<u8>::empty());
                assert(nv.deltas[i as int] == d@);
                assert(elems_view(children@) =~= c0.push(x@));
                let ch = notification_doc(nv).children;
                assert(ch[i + 1] == delta_ref_elem(d@));
                assert(ch.take(i + 2) =~= ch.take(i + 1).push(ch[i + 1]));
            }
            i = i + 1;
        }
        assert(notification_doc(nv).children.take(i + 1) =~= notification_doc(nv).children);
        let doc = Document {
            name: notification_name_bytes(),
            attrs: root_attributes(self.session, self.serial),
            children,
        };
        assert(doc@ =~= notification_doc(nv));
        encode(&doc)
    }
}

//------------ RepoState -----------------------------------------------------

pub struct RepoStateV {
    pub session: u128,
    pub serial: u64,
    pub snapshot: SnapshotV,
    pub new_delta: Option<DeltaV>,
    pub deltas: Seq<DeltaRefV>,
    pub base_uri: Seq<u8>,
    pub base_dir: Seq<u8>,
}

/// The serials of `ds` count down by one from `top`.
pub open spec fn chain_from(ds: Seq<DeltaRefV>, top: int) -> bool {
    forall|i: int| 0 <= i < ds.len() ==> #[trigger] ds[i].serial == top - i
}

/// `uuid/serial/file`: where an artifact of a session and serial lives, relative to the
/// base directory and the base URI.
pub open spec fn artifact_rel(session: u128, serial: u64, file: Seq<u8>) -> Seq<u8> {
    uuid_text(session) + seq![47u8] + dec_of(serial as nat) + seq![47u8] + file
}

/// Each delta of `ds` is published at the place for its serial in `session`.
pub open spec fn refs_in_place(ds: Seq<DeltaRefV>, base_uri: Seq<u8>, session: u128) -> bool {
    forall|i: int|
        0 <= i < ds.len() ==> #[trigger] ds[i].file.uri == base_uri + artifact_rel(
            session,
            ds[i].serial,
            delta_file(),
        )
}

/// The state holds one session: its snapshot is at the state's serial, a pending delta
/// leads to that serial, and the listed deltas count down from the serial before it,
/// each published at the place for its serial.
pub open spec fn state_wf(st: RepoStateV) -> bool {
    &&& refs_in_place(st.deltas, st.base_uri, st.session)
    &&& st.snapshot.session == st.session
    &&& st.snapshot.serial == st.serial
    &&& files_wf(st.snapshot.objects)
    &&& match st.new_delta {
        Some(d) => d.session == st.session && d.serial == st.serial && chain_from(
            st.deltas,
            st.serial - 1,
        ),
        None => chain_from(st.deltas, st.serial as int),
    }
}

/// Two indexes hold the same URIs with the same digests.
pub open spec fn same_files(a: Map<Seq<u8>, FileView>, b: Map<Seq<u8>, FileView>) -> bool {
    &&& forall|u: Seq<u8>| #[trigger] a.contains_key(u) <==> b.contains_key(u)
    &&& forall|u: Seq<u8>| #[trigger] a.contains_key(u) ==> a[u].hash == b[u].hash
}

pub proof fn lemma_diff_empty(a: Map<Seq<u8>, FileView>, b: Map<Seq<u8>, FileView>, e: DeltaElementsV)
    requires
        is_diff(a, b, e),
    ensures
        elements_len(e) == 0 <==> same_files(a, b),
{
    if same_files(a, b) {
        if e.publishes.len() > 0 {
            assert(b.contains_key(e.publishes[0].0));
        }
        if e.updates.len() > 0 {
            assert(a.contains_key(e.updates[0].0));
        }
        if e.withdraws.len() > 0 {
            assert(a.contains_key(e.withdraws[0].0));
        }
    }
    if elements_len(e) == 0 {
        assert forall|u: Seq<u8>| #[trigger] a.contains_key(u) <==> b.contains_key(u) by {
            if a.contains_key(u) && !b.contains_key(u) {
                let i = choose|i: int| 0 <= i < e.withdraws.len() && #[trigger] e.withdraws[i].0 == u;
            }
            if b.contains_key(u) && !a.contains_key(u) {
                let i = choose|i: int| 0 <= i < e.publishes.len() && #[trigger] e.publishes[i].0 == u;
            }
        }
        assert forall|u: Seq<u8>| #[trigger] a.contains_key(u) implies a[u].hash == b[u].hash by {
            if a[u].hash != b[u].hash {
                let i = choose|i: int| 0 <= i < e.updates.len() && #[trigger] e.updates[i].0 == u;
            }
        }
    }
}

/// The state of a repository: its current snapshot, the delta that leads to it if
/// it is not yet saved, and the deltas that the notification lists.
#[derive(Clone, Debug, Eq, PartialEq)]
pub struct RepoState {
    session: SessionId,
    serial: u64,
    snapshot: Snapshot,
    new_delta: Option<Delta>,
    deltas: Vec<DeltaRef>,
    base_uri: HttpsUri,
    base_dir: Vec<u8>,
}

impl View for RepoState {
    type V = RepoStateV;

    closed spec fn view(&self) -> RepoStateV {
        RepoStateV {
            session: self.session.id,
            serial: self.serial,
            snapshot: self.snapshot@,
            new_delta: match self.new_delta {
                Some(d) => Some(d@),
                None => None,
            },
            deltas: delta_refs_view(self.deltas@),
            base_uri: self.base_uri@,
            base_dir: self.base_dir@,
        }
    }
}

impl RepoState {
    pub fn session(&self) -> (r: SessionId)
        ensures
            r.id == self@.session,
    {
        self.session
    }

    pub fn serial(&self) -> (r: u64)
        ensures
            r == self@.serial,
    {
        self.serial
    }

    pub fn deltas(&self) -> (r: &Vec<DeltaRef>)
        ensures
            delta_refs_view(r@) == self@.deltas,
    {
        &self.deltas
    }

    pub fn base_dir(&self) -> (r: &[u8])
        ensures
            r@ == self@.base_dir,
    {
        self.base_dir.as_slice()
    }

    /// A fresh state for the first snapshot of a new session: serial 1, no deltas.
    pub fn new(snapshot: Snapshot, base_uri: HttpsUri, base_dir: &str) -> (r: Self)
        requires
            snapshot@.serial == 1,
        ensures
            r@ == (RepoStateV {
                session: snapshot@.session,
                serial: 1,
                snapshot: snapshot@,
                new_delta: None,
                deltas: Seq::empty(),
                base_uri: base_uri@,
                base_dir: base_dir.spec_bytes(),
            }),
            state_wf(r@),
    {
        snapshot.files_are_wf();
        let session = snapshot.session;
        let deltas: Vec<DeltaRef> = Vec::new();
        let r = RepoState {
            session,
            serial: 1,
            snapshot,
            new_delta: None,
            deltas,
            base_uri,
            base_dir: copy_bytes(base_dir.as_bytes()),
        };
        assert(delta_refs_view(r.deltas@) =~= Seq::<DeltaRefV>::empty());
        r
    }

    /// Moves the state to `new_snapshot`, the next serial of the same session. Where
    /// the files did not change (same URIs, same digests) the state stays as it was.
    pub fn apply(&mut self, new_snapshot: Snapshot) -> (r: Result<(), Error>)
        requires
            state_wf(old(self)@),
        ensures
            state_wf(final(self)@),
            r is Ok <==> old(self)@.new_delta is None && new_snapshot@.serial == old(self)@.serial
                + 1 && new_snapshot@.session == old(self)@.session,
            r matches Err(e) ==> e is InvalidDelta && final(self)@ == old(self)@,
            r is Ok && same_files(
                uri_index(old(self)@.snapshot.objects),
                uri_index(new_snapshot@.objects),
            ) ==> final(self)@ == old(self)@,
            r is Ok && !same_files(
                uri_index(old(self)@.snapshot.objects),
                uri_index(new_snapshot@.objects),
            ) ==> {
                &&& final(self)@.new_delta matches Some(d) && d.session == old(self)@.session
                    && d.serial == new_snapshot@.serial && is_diff(
                    uri_index(old(self)@.snapshot.objects),
                    uri_index(new_snapshot@.objects),
                    d.elements,
                ) && d.elements == diff_of(old(self)@.snapshot.objects, new_snapshot@.objects)
                &&& final(self)@.snapshot == new_snapshot@
                &&& final(self)@.serial == old(self)@.serial + 1
                &&& final(self)@.session == old(self)@.session
                &&& final(self)@.deltas == old(self)@.deltas
                &&& final(self)@.base_uri == old(self)@.base_uri
                &&& final(self)@.base_dir == old(self)@.base_dir
            },
    {
        if self.new_delta.is_some() {
            return Err(Error::InvalidDelta);
        }
        if new_snapshot.serial == 0 || new_snapshot.serial - 1 != self.serial
            || new_snapshot.session.id != self.session.id {
            return Err(Error::InvalidDelta);
        }
        new_snapshot.files_are_wf();
        let delta = match self.snapshot.to(&new_snapshot) {
            Ok(d) => d,
            Err(e) => {
                return Err(e);
            },
        };
        proof {
            lemma_diff_empty(
                uri_index(self@.snapshot.objects),
                uri_index(new_snapshot@.objects),
                delta@.elements,
            );
        }
        if !delta.is_empty() {
            self.snapshot = new_snapshot;
            self.new_delta = Some(delta);
            self.serial = self.serial + 1;
        }
        Ok(())
    }
}

//------------ Saving --------------------------------------------------------

pub open spec fn planned_snapshot_ref(st: RepoStateV) -> FileRefV {
    file_ref_of(st.base_uri + artifact_rel(st.session, st.serial, snapshot_file()), snapshot_xml(st.snapshot))
}

pub open spec fn planned_delta_ref(st: RepoStateV, d: DeltaV) -> DeltaRefV {
    DeltaRefV {
        serial: st.serial,
        file: file_ref_of(st.base_uri + artifact_rel(st.session, st.serial, delta_file()), delta_xml(d)),
    }
}

/// The pending delta, if any, in front of the listed ones.
pub open spec fn all_deltas(st: RepoStateV) -> Seq<DeltaRefV> {
    match st.new_delta {
        Some(d) => seq![planned_delta_ref(st, d)] + st.deltas,
        None => st.deltas,
    }
}

/// How many deltas from the front of `ds` stay within `budget`: a delta stays while
/// the sizes up to and including it add up to less than `budget`.
pub open spec fn kept_by_size(ds: Seq<DeltaRefV>, budget: int) -> nat
    decreases ds.len(),
{
    if ds.len() == 0 {
        0
    } else if (ds[0].file.size as int) < budget {
        1 + kept_by_size(ds.skip(1), budget - ds[0].file.size)
    } else {
        0
    }
}

/// The deltas that the new notification lists: those within the size of the snapshot,
/// and no more than `max_deltas`.
pub open spec fn planned_deltas(st: RepoStateV, max_deltas: usize) -> Seq<DeltaRefV> {
    let all = all_deltas(st);
    let by_size = kept_by_size(all, planned_snapshot_ref(st).size as int);
    all.take(if by_size < max_deltas { by_size as int } else { max_deltas as int })
}

pub open spec fn planned_notification(st: RepoStateV, max_deltas: usize) -> NotificationV {
    NotificationV {
        session: st.session,
        serial: st.serial,
        snapshot: planned_snapshot_ref(st),
        deltas: planned_deltas(st, max_deltas),
    }
}

/// The files that `save` writes, in order: the snapshot, the pending delta if any, and
/// the notification last.
pub open spec fn planned_writes(st: RepoStateV, max_deltas: usize) -> Seq<(Seq<u8>, Seq<u8>)> {
    let snap = seq![
        (
            path_join(st.base_dir, artifact_rel(st.session, st.serial, snapshot_file())),
            snapshot_xml(st.snapshot),
        ),
    ];
    let delta = match st.new_delta {
        Some(d) => seq![
            (path_join(st.base_dir, artifact_rel(st.session, st.serial, delta_file())), delta_xml(d)),
        ],
        None => Seq::empty(),
    };
    snap + delta + seq![
        (
            path_join(st.base_dir, notification_file()),
            notification_xml(planned_notification(st, max_deltas)),
        ),
    ]
}

/// The oldest serial that the new notification lists, if it lists any.
pub open spec fn planned_min_serial(st: RepoStateV, max_deltas: usize) -> Option<u64> {
    let ds = planned_deltas(st, max_deltas);
    if ds.len() > 0 {
        Some(ds.last().serial)
    } else {
        None
    }
}

/// What is kept in the base directory: the current session's directory and the
/// notification file.
pub open spec fn keep_in_base(name: Seq<u8>, session_text: Seq<u8>) -> bool {
    name == session_text || name == notification_file()
}

/// What is kept in the session directory: serial directories from `min_serial` on, and
/// everything whose name is not a serial.
pub open spec fn keep_in_session(name: Seq<u8>, min_serial: u64) -> bool {
    parses_as_u64(name) ==> u64_value(name) >= min_serial
}

/// One file to write.
pub struct FileWrite {
    pub path: Vec<u8>,
    pub content: Vec<u8>,
}

/// What to remove after the notification is written.
pub struct Cleanup {
    pub base_dir: Vec<u8>,
    pub session: Vec<u8>,
    pub session_dir: Vec<u8>,
    pub min_serial: Option<u64>,
}

impl Cleanup {
    /// Whether the child `name` of the base directory stays.
    pub fn keeps_in_base(&self, name: &[u8]) -> (r: bool)
        ensures
            r == keep_in_base(name@, self.session@),
    {
        bytes_eq(name, self.session.as_slice()) || bytes_eq(name, notification_file_bytes().as_slice())
    }

    /// Whether the child `name` of the session directory stays.
    pub fn keeps_in_session(&self, name: &[u8]) -> (r: bool)
        ensures
            r == match self.min_serial {
                Some(m) => keep_in_session(name@, m),
                None => true,
            },
    {
        match self.min_serial {
            Some(m) => match parse_u64(name) {
                Some(n) => n >= m,
                None => true,
            },
            None => true,
        }
    }
}

/// The files that saving a state writes, in order, and the cleanup that follows.
pub struct SavePlan {
    pub writes: Vec<FileWrite>,
    pub notification: Notification,
    pub cleanup: Option<Cleanup>,
}

pub open spec fn writes_view(ws: Seq<FileWrite>) -> Seq<(Seq<u8>, Seq<u8>)> {
    ws.map_values(|w: FileWrite| (w.path@, w.content@))
}

fn artifact_rel_bytes(session_text: &[u8], serial_text: &[u8], file: &[u8]) -> (r: Vec<u8>)
    ensures
        r@ == session_text@ + seq![47u8] + serial_text@ + seq![47u8] + file@,
{
    let mut r = copy_bytes(session_text);
    r.push(47u8);
    append_bytes(&mut r, serial_text);
    r.push(47u8);
    append_bytes(&mut r, file);
    assert(r@ =~= session_text@ + seq![47u8] + serial_text@ + seq![47u8] + file@);
    r
}

impl RepoState {
    /// Saves the state: the snapshot, the pending delta if any, then the notification.
    /// The deltas listed are the pending one and the listed ones, cut first where their
    /// sizes add up to the size of the snapshot, then to `max_deltas`. With `clean`,
    /// other sessions and serial directories older than the oldest listed delta go.
    pub fn save(self, max_deltas: usize, clean: bool) -> (r: SavePlan)
        requires
            state_wf(self@),
        ensures
            writes_view(r.writes@) == planned_writes(self@, max_deltas),
            r.notification@ == planned_notification(self@, max_deltas),
            clean ==> (r.cleanup matches Some(c) && c.base_dir@ == self@.base_dir && c.session@
                == uuid_text(self@.session) && c.session_dir@ == path_join(
                self@.base_dir,
                uuid_text(self@.session) + seq![47u8],
            ) && c.min_serial == planned_min_serial(self@, max_deltas)),
            !clean ==> r.cleanup is None,
    {
        let ghost st = self@;
        let session_text = self.session.text();
        let serial_text = decimal(self.serial);
        let snap_rel = artifact_rel_bytes(
            session_text.as_slice(),
            serial_text.as_slice(),
            snapshot_file_bytes().as_slice(),
        );
        let snapshot_bytes = self.snapshot.write_xml();
        let snapshot_ref = FileRef::new(self.base_uri.resolve(snap_rel.as_slice()), snapshot_bytes.as_slice());
        let snap_size = snapshot_ref.size();
        let mut writes: Vec<FileWrite> = vec![
            FileWrite { path: file_path(self.base_dir.as_slice(), snap_rel.as_slice()), content: snapshot_bytes },
        ];
        let mut deltas = self.deltas;
        proof {
            assert(writes_view(writes@) =~= seq![
                (
                    path_join(st.base_dir, artifact_rel(st.session, st.serial, snapshot_file())),
                    snapshot_xml(st.snapshot),
                ),
            ]);
        }
        match &self.new_delta {
            Some(delta) => {
                let delta_rel = artifact_rel_bytes(
                    session_text.as_slice(),
                    serial_text.as_slice(),
                    delta_file_bytes().as_slice(),
                );
                let delta_bytes = delta.write_xml();
                let file_ref = FileRef::new(self.base_uri.resolve(delta_rel.as_slice()), delta_bytes.as_slice());
                let ghost d0 = delta_refs_view(deltas@);
                deltas.insert(0, DeltaRef::new(self.serial, file_ref));
                assert(delta_refs_view(deltas@) =~= all_deltas(st)) by {
                    assert(delta_refs_view(deltas@) =~= seq![planned_delta_ref(st, delta@)] + d0);
                }
                let ghost w0 = writes_view(writes@);
                writes.push(FileWrite { path: file_path(self.base_dir.as_slice(), delta_rel.as_slice()), content: delta_bytes });
                assert(writes_view(writes@) =~= w0.push(
                    (path_join(st.base_dir, artifact_rel(st.session, st.serial, delta_file())), delta_xml(delta@)),
                ));
            },
            None => {},
        }
        let ghost all = delta_refs_view(deltas@);
        assert(all == all_deltas(st));
        let mut budget: usize = snap_size;
        let mut k: usize = 0;
        assert(all.skip(0) =~= all);
        while k < deltas.len() && deltas[k].size() < budget
            invariant
                k <= deltas@.len(),
                all == delta_refs_view(deltas@),
                kept_by_size(all, snap_size as int) == k + kept_by_size(all.skip(k as int), budget as int),
            decreases deltas@.len() - k,
        {
            proof {
                assert(all.skip(k as int).skip(1) =~= all.skip(k + 1));
                assert(all.skip(k as int)[0] == all[k as int]);
            }
            budget = budget - deltas[k].size();
            k = k + 1;
        }
        proof {
            if k < deltas@.len() {
                assert(all.skip(k as int)[0] == all[k as int]);
            }
        }
        let keep = if k < max_deltas { k } else { max_deltas };
        deltas.truncate(keep);
        assert(delta_refs_view(deltas@) =~= planned_deltas(st, max_deltas));
        let min_serial = if deltas.len() > 0 { Some(deltas[deltas.len() - 1].serial()) } else { None };
        let notification = Notification::new(self.session, self.serial, snapshot_ref, deltas);
        let notification_bytes = notification.write_xml();
        let ghost w1 = writes_view(writes@);
        writes.push(FileWrite {
            path: file_path(self.base_dir.as_slice(), notification_file_bytes().as_slice()),
            content: notification_bytes,
        });
        assert(writes_view(writes@) =~= planned_writes(st, max_deltas));
        let cleanup = if clean {
            let mut dir_name = copy_bytes(session_text.as_slice());
            dir_name.push(47u8);
            Some(Cleanup {
                base_dir: copy_bytes(self.base_dir.as_slice()),
                session: session_text,
                session_dir: file_path(self.base_dir.as_slice(), dir_name.as_slice()),
                min_serial,
            })
        } else {
            None
        };
        SavePlan { writes, notification, cleanup }
    }
}

//------------ Laws of saving -------------------------------------------------

proof fn lemma_kept_by_size_len(ds: Seq<DeltaRefV>, budget: int)
    ensures
        kept_by_size(ds, budget) <= ds.len(),
    decreases ds.len(),
{
    if ds.len() > 0 {
        lemma_kept_by_size_len(ds.skip(1), budget - ds[0].file.size);
    }
}

proof fn lemma_planned_deltas_prefix(st: RepoStateV, max_deltas: usize)
    ensures
        planned_deltas(st, max_deltas).len() <= all_deltas(st).len(),
        forall|i: int|
            0 <= i < planned_deltas(st, max_deltas).len() ==> #[trigger] planned_deltas(st, max_deltas)[i]
                == all_deltas(st)[i],
{
    lemma_kept_by_size_len(all_deltas(st), planned_snapshot_ref(st).size as int);
}

proof fn lemma_all_deltas_chain(st: RepoStateV)
    requires
        state_wf(st),
    ensures
        chain_from(all_deltas(st), st.serial as int),
        refs_in_place(all_deltas(st), st.base_uri, st.session),
{
    let all = all_deltas(st);
    if let Some(d) = st.new_delta {
        assert forall|i: int| 0 <= i < all.len() implies #[trigger] all[i].serial == st.serial - i by {
            if i > 0 {
                assert(all[i] == st.deltas[i - 1]);
            }
        }
        assert forall|i: int| 0 <= i < all.len() implies #[trigger] all[i].file.uri == st.base_uri
            + artifact_rel(st.session, all[i].serial, delta_file()) by {
            if i > 0 {
                assert(all[i] == st.deltas[i - 1]);
            }
        }
    }
}

/// Hash discipline: the notification that `save` writes refers to the snapshot, and to
/// the pending delta where it stays listed, by the digest and size of exactly the
/// bytes written for it, at the URI that corresponds to the path it is written to.
/// The notification itself is written last.
pub proof fn lemma_save_hash_discipline(st: RepoStateV, max_deltas: usize)
    requires
        state_wf(st),
    ensures
        ({
            let w = planned_writes(st, max_deltas);
            let n = planned_notification(st, max_deltas);
            let snap_rel = artifact_rel(st.session, st.serial, snapshot_file());
            let delta_rel = artifact_rel(st.session, st.serial, delta_file());
            &&& w[0].0 == path_join(st.base_dir, snap_rel)
            &&& n.snapshot == file_ref_of(st.base_uri + snap_rel, w[0].1)
            &&& st.new_delta is Some ==> w[1].0 == path_join(st.base_dir, delta_rel)
            &&& st.new_delta is Some && n.deltas.len() > 0 ==> n.deltas[0] == (DeltaRefV {
                serial: st.serial,
                file: file_ref_of(st.base_uri + delta_rel, w[1].1),
            })
            &&& w.last() == (path_join(st.base_dir, notification_file()), notification_xml(n))
        }),
{
    lemma_planned_deltas_prefix(st, max_deltas);
    let w = planned_writes(st, max_deltas);
    let n = planned_notification(st, max_deltas);
    let snap = seq![
        (
            path_join(st.base_dir, artifact_rel(st.session, st.serial, snapshot_file())),
            snapshot_xml(st.snapshot),
        ),
    ];
    let last = seq![(path_join(st.base_dir, notification_file()), notification_xml(n))];
    match st.new_delta {
        Some(d) => {
            let delta = seq![
                (path_join(st.base_dir, artifact_rel(st.session, st.serial, delta_file())), delta_xml(d)),
            ];
            assert(w == snap + delta + last);
            assert(w[0] == snap[0]);
            assert(w[1] == delta[0]);
            assert(w.last() == last[0]);
            if n.deltas.len() > 0 {
                assert(n.deltas[0] == all_deltas(st)[0]);
            }
        },
        None => {
            assert(w == snap + Seq::<(Seq<u8>, Seq<u8>)>::empty() + last);
            assert(w[0] == snap[0]);
            assert(w.last() == last[0]);
        },
    }
}

/// Retention: with `clean`, what stays holds every file that the new notification
/// refers to (the current session's directory, the notification, the serial directory
/// of the snapshot and of each listed delta), and no serial directory older than the
/// oldest listed delta stays.
pub proof fn lemma_retention_keeps_references(st: RepoStateV, max_deltas: usize)
    requires
        state_wf(st),
    ensures
        ({
            let n = planned_notification(st, max_deltas);
            let session_text = uuid_text(st.session);
            &&& keep_in_base(session_text, session_text)
            &&& keep_in_base(notification_file(), session_text)
            &&& n.snapshot.uri == st.base_uri + artifact_rel(st.session, st.serial, snapshot_file())
            &&& forall|i: int|
                0 <= i < n.deltas.len() ==> (#[trigger] n.deltas[i]).file.uri == st.base_uri
                    + artifact_rel(st.session, n.deltas[i].serial, delta_file())
            &&& planned_min_serial(st, max_deltas) matches Some(m) ==> {
                &&& keep_in_session(dec_of(st.serial as nat), m)
                &&& forall|i: int|
                    0 <= i < n.deltas.len() ==> keep_in_session(
                        dec_of((#[trigger] n.deltas[i]).serial as nat),
                        m,
                    )
                &&& forall|name: Seq<u8>|
                    parses_as_u64(name) && u64_value(name) < m ==> !#[trigger] keep_in_session(name, m)
            }
        }),
{
    lemma_all_deltas_chain(st);
    lemma_planned_deltas_prefix(st, max_deltas);
    let n = planned_notification(st, max_deltas);
    let all = all_deltas(st);
    let ds = n.deltas;
    assert forall|i: int| 0 <= i < ds.len() implies #[trigger] ds[i] == all[i] by {}
    assert forall|i: int| 0 <= i < ds.len() implies (#[trigger] ds[i]).file.uri == st.base_uri
        + artifact_rel(st.session, ds[i].serial, delta_file()) by {
        assert(ds[i] == all[i]);
    }
    if let Some(m) = planned_min_serial(st, max_deltas) {
        let last = ds.len() - 1;
        assert(ds[last] == all[last]);
        assert(m == st.serial - last);
        lemma_dec_of_digits(st.serial as nat);
        assert forall|i: int| 0 <= i < ds.len() implies keep_in_session(
            dec_of((#[trigger] ds[i]).serial as nat),
            m,
        ) by {
            assert(ds[i] == all[i]);
            lemma_dec_of_digits(ds[i].serial as nat);
        }
    }
}

//------------ Reconstitution ------------------------------------------------

/// An artifact that a notification lists: its serial (for a delta; 0 for the
/// snapshot), URI, digest, and the path of the file under the base directory.
pub struct Reference {
    pub serial: u64,
    pub uri: Vec<u8>,
    pub hash: Vec<u8>,
    pub path: Vec<u8>,
}

/// What a notification file lists.
pub struct NotificationRefs {
    pub session: SessionId,
    pub serial: u64,
    pub snapshot: Reference,
    pub deltas: Vec<Reference>,
}

/// `r` is the reference to `uri` with digest `hash`, below `base_uri`, whose file is in
/// `base_dir`.
pub open spec fn ref_is(r: Reference, uri: Seq<u8>, hash: Seq<u8>, base_uri: Seq<u8>, base_dir: Seq<u8>) -> bool {
    &&& r.uri@ == uri
    &&& r.hash@ == hash
    &&& starts(uri, base_uri)
    &&& r.path@ == path_join(base_dir, uri.skip(base_uri.len() as int))
}

/// The URIs of the notification `n` lie below `base_uri`.
pub open spec fn notification_below(n: NotificationV, base_uri: Seq<u8>) -> bool {
    &&& starts(n.snapshot.uri, base_uri)
    &&& forall|i: int| 0 <= i < n.deltas.len() ==> starts(#[trigger] n.deltas[i].file.uri, base_uri)
}

/// The URI and digest that a `snapshot` element of a notification gives: exactly the
/// attributes `uri` and `hash`, in any order.
pub open spec fn snapshot_ref_fields(e: ElemV) -> Option<(Seq<u8>, Seq<u8>)> {
    let uri = first_value(e.attrs, uri_name());
    let hash = first_value(e.attrs, hash_name());
    if e.name == snapshot_name() && e.attrs.len() == 2 && uri is Some && hash is Some {
        Some((uri->Some_0, hash->Some_0))
    } else {
        None
    }
}

/// The serial, URI and digest that a `delta` element of a notification gives: exactly
/// the attributes `serial` (a `u64`), `uri` and `hash`, in any order.
pub open spec fn delta_ref_fields(e: ElemV) -> Option<(u64, Seq<u8>, Seq<u8>)> {
    let serial = first_value(e.attrs, serial_name());
    let uri = first_value(e.attrs, uri_name());
    let hash = first_value(e.attrs, hash_name());
    if e.name == delta_name() && e.attrs.len() == 3 && serial is Some && parses_as_u64(
        serial->Some_0,
    ) && uri is Some && hash is Some {
        Some((u64_value(serial->Some_0) as u64, uri->Some_0, hash->Some_0))
    } else {
        None
    }
}

pub struct NotificationFieldsV {
    pub session: u128,
    pub serial: u64,
    pub snapshot: (Seq<u8>, Seq<u8>),
    pub deltas: Seq<(u64, Seq<u8>, Seq<u8>)>,
}

/// What a notification document gives: a `notification` root with valid attributes, a
/// `snapshot` element first, then only `delta` elements, in document order.
pub open spec fn notification_of_doc(d: DocV) -> Option<NotificationFieldsV> {
    if d.name == notification_name() && root_fields(d.attrs) is Some && d.children.len() > 0
        && snapshot_ref_fields(d.children[0]) is Some && forall|i: int|
        1 <= i < d.children.len() ==> #[trigger] delta_ref_fields(d.children[i]) is Some {
        Some(
            NotificationFieldsV {
                session: root_fields(d.attrs)->Some_0.0,
                serial: root_fields(d.attrs)->Some_0.1,
                snapshot: snapshot_ref_fields(d.children[0])->Some_0,
                deltas: d.children.skip(1).map_values(|e: ElemV| delta_ref_fields(e)->Some_0),
            },
        )
    } else {
        None
    }
}

/// What the bytes of a notification file give, if they are a document that gives it.
pub open spec fn notification_read(b: Seq<u8>) -> Option<NotificationFieldsV> {
    if exists|d: DocV| doc_is(b, d) {
        notification_of_doc(choose|d: DocV| doc_is(b, d))
    } else {
        None
    }
}

/// Every URI that `n` lists lies below `base_uri`.
pub open spec fn fields_below(n: NotificationFieldsV, base_uri: Seq<u8>) -> bool {
    &&& starts(n.snapshot.0, base_uri)
    &&& forall|i: int| 0 <= i < n.deltas.len() ==> starts(#[trigger] n.deltas[i].1, base_uri)
}

pub open spec fn refs_fields(refs: NotificationRefs) -> NotificationFieldsV {
    NotificationFieldsV {
        session: refs.session.id,
        serial: refs.serial,
        snapshot: (refs.snapshot.uri@, refs.snapshot.hash@),
        deltas: refs.deltas@.map_values(|x: Reference| (x.serial, x.uri@, x.hash@)),
    }
}

fn make_reference(serial: u64, uri: Vec<u8>, hash: Vec<u8>, base_uri: &HttpsUri, base_dir: &[u8]) -> (r: Option<Reference>)
    ensures
        r matches Some(x) ==> x.serial == serial && ref_is(x, uri@, hash@, base_uri@, base_dir@),
        starts(uri@, base_uri@) ==> r is Some,
{
    match base_uri.relative_to(uri.as_slice()) {
        Some(rel) => {
            let path = file_path(base_dir, rel.as_slice());
            Some(Reference { serial, uri, hash, path })
        },
        None => None,
    }
}

fn read_snapshot_ref(e: &Element, base_uri: &HttpsUri, base_dir: &[u8]) -> (r: Option<Reference>)
    ensures
        match snapshot_ref_fields(e@) {
            Some((u, h)) => if starts(u, base_uri@) {
                r matches Some(x) && x.uri@ == u && x.hash@ == h
            } else {
                r is None
            },
            None => r is None,
        },
        r matches Some(x) ==> ref_is(x, x.uri@, x.hash@, base_uri@, base_dir@),
        forall|f: FileRefV|
            #[trigger] snapshot_ref_elem(f) == e@ && starts(f.uri, base_uri@) ==> (r matches Some(x)
                && ref_is(x, f.uri, f.hash, base_uri@, base_dir@)),
{
    if !bytes_eq(e.name.as_slice(), snapshot_name_bytes().as_slice()) {
        return None;
    }
    let mut a = Attributes::new(copy_attributes(&e.attrs));
    let ghost a0 = a@;
    let uri = match a.take_req(uri_name_bytes().as_slice()) {
        Ok(v) => v,
        Err(_) => {
            proof {
                lemma_no_first(a0, uri_name());
                assert forall|f: FileRefV| #[trigger] snapshot_ref_elem(f) == e@ implies false by {
                    assert(a0[0].0 == uri_name());
                    assert(has_named(a0, uri_name()));
                }
            }
            return None;
        },
    };
    let ghost a1 = a@;
    proof {
        let i = choose|i: int| first_named(a0, uri_name(), i) && uri@ == a0[i].1 && a@ == a0.remove(i);
        lemma_take_first(a0, uri_name(), i);
        assert(first_value(a@, hash_name()) == first_value(a0, hash_name()));
        assert forall|f: FileRefV| #[trigger] snapshot_ref_elem(f) == e@ implies uri@ == f.uri
            && a1 == seq![(hash_name(), f.hash)] by {
            let i = choose|i: int| first_named(a0, uri_name(), i) && uri@ == a0[i].1 && a1 == a0.remove(i);
            lemma_first_named_zero(a0, uri_name(), i);
            assert(a1 =~= seq![(hash_name(), f.hash)]);
        }
    }
    let hash = match a.take_req(hash_name_bytes().as_slice()) {
        Ok(v) => v,
        Err(_) => {
            proof {
                lemma_no_first(a1, hash_name());
                assert forall|f: FileRefV| #[trigger] snapshot_ref_elem(f) == e@ implies false by {
                    assert(a1[0].0 == hash_name());
                    assert(has_named(a1, hash_name()));
                }
            }
            return None;
        },
    };
    proof {
        let i = choose|i: int| first_named(a1, hash_name(), i) && hash@ == a1[i].1 && a@ == a1.remove(i);
        lemma_take_first(a1, hash_name(), i);
        assert forall|f: FileRefV| #[trigger] snapshot_ref_elem(f) == e@ implies hash@ == f.hash
            && a@.len() == 0 by {
            let i = choose|i: int| first_named(a1, hash_name(), i) && hash@ == a1[i].1 && a@ == a1.remove(i);
            lemma_first_named_zero(a1, hash_name(), i);
        }
    }
    if a.exhausted().is_err() {
        return None;
    }
    make_reference(0, uri, hash, base_uri, base_dir)
}

fn read_delta_ref(e: &Element, base_uri: &HttpsUri, base_dir: &[u8]) -> (r: Option<Reference>)
    ensures
        match delta_ref_fields(e@) {
            Some((n, u, h)) => if starts(u, base_uri@) {
                r matches Some(x) && x.serial == n && x.uri@ == u && x.hash@ == h
            } else {
                r is None
            },
            None => r is None,
        },
        r matches Some(x) ==> ref_is(x, x.uri@, x.hash@, base_uri@, base_dir@),
        forall|d: DeltaRefV|
            #[trigger] delta_ref_elem(d) == e@ && starts(d.file.uri, base_uri@) ==> (r matches Some(x)
                && x.serial == d.serial && ref_is(x, d.file.uri, d.file.hash, base_uri@, base_dir@)),
{
    if !bytes_eq(e.name.as_slice(), delta_name_bytes().as_slice()) {
        return None;
    }
    let mut a = Attributes::new(copy_attributes(&e.attrs));
    let ghost a0 = a@;
    let serial_text = match a.take_req(serial_name_bytes().as_slice()) {
        Ok(v) => v,
        Err(_) => {
            proof {
                lemma_no_first(a0, serial_name());
                assert forall|d: DeltaRefV| #[trigger] delta_ref_elem(d) == e@ implies false by {
                    assert(a0[0].0 == serial_name());
                    assert(has_named(a0, serial_name()));
                }
            }
            return None;
        },
    };
    let ghost a1 = a@;
    proof {
        let i = choose|i: int| first_named(a0, serial_name(), i) && serial_text@ == a0[i].1 && a@ == a0.remove(i);
        lemma_take_first(a0, serial_name(), i);
        assert(first_value(a@, uri_name()) == first_value(a0, uri_name()));
        assert(first_value(a@, hash_name()) == first_value(a0, hash_name()));
        assert forall|d: DeltaRefV| #[trigger] delta_ref_elem(d) == e@ implies serial_text@ == dec_of(d.serial as nat)
            && parses_as_u64(serial_text@) && u64_value(serial_text@) == d.serial
            && a1 == seq![(uri_name(), d.file.uri), (hash_name(), d.file.hash)] by {
            let i = choose|i: int| first_named(a0, serial_name(), i) && serial_text@ == a0[i].1 && a1 == a0.remove(i);
            lemma_first_named_zero(a0, serial_name(), i);
            lemma_dec_of_digits(d.serial as nat);
            assert(a1 =~= seq![(uri_name(), d.file.uri), (hash_name(), d.file.hash)]);
        }
    }
    let serial = match parse_u64(serial_text.as_slice()) {
        Some(n) => n,
        None => {
            return None;
        },
    };
    let uri = match a.take_req(uri_name_bytes().as_slice()) {
        Ok(v) => v,
        Err(_) => {
            proof {
                lemma_no_first(a1, uri_name());
                assert forall|d: DeltaRefV| #[trigger] delta_ref_elem(d) == e@ implies false by {
                    assert(a1[0].0 == uri_name());
                    assert(has_named(a1, uri_name()));
                }
            }
            return None;
        },
    };
    let ghost a2 = a@;
    proof {
        let i = choose|i: int| first_named(a1, uri_name(), i) && uri@ == a1[i].1 && a@ == a1.remove(i);
        lemma_take_first(a1, uri_name(), i);
        assert(first_value(a@, hash_name()) == first_value(a1, hash_name()));
        assert forall|d: DeltaRefV| #[trigger] delta_ref_elem(d) == e@ implies uri@ == d.file.uri
            && a2 == seq![(hash_name(), d.file.hash)] by {
            let i = choose|i: int| first_named(a1, uri_name(), i) && uri@ == a1[i].1 && a2 == a1.remove(i);
            lemma_first_named_zero(a1, uri_name(), i);
            assert(a2 =~= seq![(hash_name(), d.file.hash)]);
        }
    }
    let hash = match a.take_req(hash_name_bytes().as_slice()) {
        Ok(v) => v,
        Err(_) => {
            proof {
                lemma_no_first(a2, hash_name());
                assert forall|d: DeltaRefV| #[trigger] delta_ref_elem(d) == e@ implies false by {
                    assert(a2[0].0 == hash_name());
                    assert(has_named(a2, hash_name()));
                }
            }
            return None;
        },
    };
    proof {
        let i = choose|i: int| first_named(a2, hash_name(), i) && hash@ == a2[i].1 && a@ == a2.remove(i);
        lemma_take_first(a2, hash_name(), i);
        assert forall|d: DeltaRefV| #[trigger] delta_ref_elem(d) == e@ implies hash@ == d.file.hash
            && a@.len() == 0 by {
            let i = choose|i: int| first_named(a2, hash_name(), i) && hash@ == a2[i].1 && a@ == a2.remove(i);
            lemma_first_named_zero(a2, hash_name(), i);
        }
    }
    if a.exhausted().is_err() {
        return None;
    }
    make_reference(serial, uri, hash, base_uri, base_dir)
}

proof fn lemma_notification_doc_wf(n: NotificationV)
    ensures
        wf_doc(notification_doc(n)),
{
    lemma_root_attrs_wf(n.session, n.serial);
    let d = notification_doc(n);
    assert forall|k: int| 0 <= k < notification_name().len() implies is_name_byte(
        #[trigger] notification_name()[k],
    ) by {}
    assert forall|i: int| 0 <= i < d.children.len() implies wf_elem(
        #[trigger] d.children[i],
    ) by {
        let e = d.children[i];
        assert forall|k: int| 0 <= k < e.name.len() implies is_name_byte(
            #[trigger] e.name[k],
        ) by {}
        assert forall|j: int| 0 <= j < e.attrs.len() implies wf_name(#[trigger] e.attrs[j].0) by {
            let nm = e.attrs[j].0;
            assert forall|k: int| 0 <= k < nm.len() implies is_name_byte(
                #[trigger] nm[k],
            ) by {}
        }
    }
}

impl RepoState {
    /// Reads a notification file: its session, serial, snapshot and deltas, each with
    /// the path of its file under `base_dir`. Fails where the text is no notification
    /// of version 1 or a URI does not lie below `base_uri`.
    pub fn read_notification(base_uri: &HttpsUri, base_dir: &str, bytes: &[u8]) -> (r: Result<NotificationRefs, Error>)
        ensures
            r is Ok <==> (notification_read(bytes@) matches Some(n) && fields_below(n, base_uri@)),
            r matches Ok(refs) ==> notification_read(bytes@) == Some(refs_fields(refs)),
            r matches Err(e) ==> e is InvalidRepoState,
            r matches Ok(refs) ==> {
                &&& ref_is(refs.snapshot, refs.snapshot.uri@, refs.snapshot.hash@, base_uri@, base_dir.spec_bytes())
                &&& forall|i: int| 0 <= i < refs.deltas@.len() ==> ref_is(
                    #[trigger] refs.deltas@[i],
                    refs.deltas@[i].uri@,
                    refs.deltas@[i].hash@,
                    base_uri@,
                    base_dir.spec_bytes(),
                )
            },
            forall|n: NotificationV|
                #[trigger] notification_xml(n) == bytes@ && notification_below(n, base_uri@) ==> (
                r matches Ok(refs) && {
                    &&& refs.session.id == n.session
                    &&& refs.serial == n.serial
                    &&& ref_is(refs.snapshot, n.snapshot.uri, n.snapshot.hash, base_uri@, base_dir.spec_bytes())
                    &&& refs.deltas@.len() == n.deltas.len()
                    &&& forall|i: int| 0 <= i < n.deltas.len() ==> {
                        &&& (#[trigger] refs.deltas@[i]).serial == n.deltas[i].serial
                        &&& ref_is(refs.deltas@[i], n.deltas[i].file.uri, n.deltas[i].file.hash, base_uri@, base_dir.spec_bytes())
                    }
                }),
    {
        let doc = match decode(bytes) {
            Ok(d) => d,
            Err(_) => {
                proof {
                    assert forall|n: NotificationV| #[trigger] notification_xml(n) == bytes@ implies false by {
                        lemma_notification_doc_wf(n);
                        assert(doc_is(bytes@, notification_doc(n)));
                    }
                }
                return Err(Error::InvalidRepoState);
            },
        };
        let ghost dv = doc@;
        proof {
            assert(doc_is(bytes@, dv));
            let c = choose|d: DocV| doc_is(bytes@, d);
            assert(c == dv);
            assert(notification_read(bytes@) == notification_of_doc(dv));
            assert forall|n: NotificationV| #[trigger] notification_xml(n) == bytes@ implies doc@
                == notification_doc(n) by {
                lemma_notification_doc_wf(n);
                assert(doc_is(bytes@, notification_doc(n)));
            }
        }
        let Document { name, attrs, children } = doc;
        if !bytes_eq(name.as_slice(), notification_name_bytes().as_slice()) {
            return Err(Error::InvalidRepoState);
        }
        let mut a = Attributes::new(attrs);
        let ghost a_init = a@;
        assert(a_init == dv.attrs);
        let (session, serial) = match read_root_attributes(&mut a) {
            Some(t) => t,
            None => {
                proof {
                    assert forall|n: NotificationV| #[trigger] notification_xml(n) == bytes@ implies false by {
                        assert(a_init == root_attrs(n.session, n.serial));
                    }
                }
                return Err(Error::InvalidRepoState);
            },
        };
        if children.len() == 0 {
            proof {
                assert forall|n: NotificationV| #[trigger] notification_xml(n) == bytes@ implies false by {
                    assert(notification_doc(n).children.len() > 0);
                }
            }
            return Err(Error::InvalidRepoState);
        }
        assert(elems_view(children@)[0] == children@[0]@);
        let snapshot = match read_snapshot_ref(&children[0], base_uri, base_dir.as_bytes()) {
            Some(x) => x,
            None => {
                proof {
                    assert forall|n: NotificationV| #[trigger] notification_xml(n) == bytes@
                        && notification_below(n, base_uri@) implies false by {
                        assert(elems_view(children@)[0] == children@[0]@);
                        assert(notification_doc(n).children[0] == snapshot_ref_elem(n.snapshot));
                    }
                }
                return Err(Error::InvalidRepoState);
            },
        };
        proof {
            assert forall|n: NotificationV| #[trigger] notification_xml(n) == bytes@
                && notification_below(n, base_uri@) implies ref_is(snapshot, n.snapshot.uri, n.snapshot.hash, base_uri@, base_dir.spec_bytes())
                && session.id == n.session && serial == n.serial by {
                assert(elems_view(children@)[0] == children@[0]@);
                assert(notification_doc(n).children[0] == snapshot_ref_elem(n.snapshot));
                assert(a_init == root_attrs(n.session, n.serial));
            }
        }
        let mut deltas: Vec<Reference> = Vec::new();
        let mut i: usize = 1;
        while i < children.len()
            invariant
                1 <= i <= children@.len(),
                deltas@.len() == i - 1,
                elems_view(children@) == dv.children,
                dv.name == notification_name(),
                root_fields(dv.attrs) == Some((session.id, serial)),
                notification_read(bytes@) == notification_of_doc(dv),
                snapshot_ref_fields(dv.children[0]) == Some((snapshot.uri@, snapshot.hash@)),
                starts(snapshot.uri@, base_uri@),
                forall|k: int|
                    0 <= k < deltas@.len() ==> #[trigger] delta_ref_fields(dv.children[k + 1]) == Some(
                        (deltas@[k].serial, deltas@[k].uri@, deltas@[k].hash@),
                    ),
                forall|k: int| 0 <= k < deltas@.len() ==> ref_is(
                    #[trigger] deltas@[k],
                    deltas@[k].uri@,
                    deltas@[k].hash@,
                    base_uri@,
                    base_dir.spec_bytes(),
                ),
                forall|n: NotificationV|
                    #[trigger] notification_xml(n) == bytes@ ==> elems_view(children@) == notification_doc(n).children,
                forall|n: NotificationV|
                    #[trigger] notification_xml(n) == bytes@ && notification_below(n, base_uri@) ==> forall|k: int|
                        0 <= k < deltas@.len() ==> {
                            &&& (#[trigger] deltas@[k]).serial == n.deltas[k].serial
                            &&& ref_is(deltas@[k], n.deltas[k].file.uri, n.deltas[k].file.hash, base_uri@, base_dir.spec_bytes())
                        },
            decreases children@.len() - i,
        {
            assert(elems_view(children@)[i as int] == children@[i as int]@);
            let x = match read_delta_ref(&children[i], base_uri, base_dir.as_bytes()) {
                Some(x) => x,
                None => {
                    proof {
                        assert forall|n: NotificationV| #[trigger] notification_xml(n) == bytes@
                            && notification_below(n, base_uri@) implies false by {
                            assert(elems_view(children@)[i as int] == children@[i as int]@);
                            assert(notification_doc(n).children[i as int] == delta_ref_elem(n.deltas[i - 1]));
                            assert(starts(n.deltas[i - 1].file.uri, base_uri@));
                        }
                        let e = dv.children[i as int];
                        if let Some(m) = notification_of_doc(dv) {
                            assert(dv.children.skip(1)[i - 1] == e);
                            assert(m.deltas[i - 1] == delta_ref_fields(e)->Some_0);
                            assert(!starts(m.deltas[i - 1].1, base_uri@));
                        }
                    }
                    return Err(Error::InvalidRepoState);
                },
            };
            let ghost d0 = deltas@;
            deltas.push(x);
            proof {
                assert forall|n: NotificationV| #[trigger] notification_xml(n) == bytes@
                    && notification_below(n, base_uri@) implies forall|k: int|
                        0 <= k < deltas@.len() ==> {
                            &&& (#[trigger] deltas@[k]).serial == n.deltas[k].serial
                            &&& ref_is(deltas@[k], n.deltas[k].file.uri, n.deltas[k].file.hash, base_uri@, base_dir.spec_bytes())
                        } by {
                    assert(elems_view(children@)[i as int] == children@[i as int]@);
                    assert(notification_doc(n).children[i as int] == delta_ref_elem(n.deltas[i - 1]));
                    assert(starts(n.deltas[i - 1].file.uri, base_uri@));
                    assert forall|k: int| 0 <= k < deltas@.len() implies {
                        &&& (#[trigger] deltas@[k]).serial == n.deltas[k].serial
                        &&& ref_is(deltas@[k], n.deltas[k].file.uri, n.deltas[k].file.hash, base_uri@, base_dir.spec_bytes())
                    } by {
                        if k < d0.len() {
                            assert(deltas@[k] == d0[k]);
                        }
                    }
                }
                assert forall|k: int| 0 <= k < deltas@.len() implies ref_is(
                    #[trigger] deltas@[k],
                    deltas@[k].uri@,
                    deltas@[k].hash@,
                    base_uri@,
                    base_dir.spec_bytes(),
                ) by {
                    if k < d0.len() {
                        assert(deltas@[k] == d0[k]);
                    }
                }
            }
            i = i + 1;
        }
        let refs = NotificationRefs { session, serial, snapshot, deltas };
        proof {
            let n = notification_of_doc(dv);
            assert forall|k: int| 1 <= k < dv.children.len() implies #[trigger] delta_ref_fields(
                dv.children[k],
            ) is Some by {
                assert(delta_ref_fields(dv.children[(k - 1) + 1]) is Some);
            }
            assert(refs_fields(refs).deltas =~= dv.children.skip(1).map_values(
                |e: ElemV| delta_ref_fields(e)->Some_0,
            )) by {
                assert forall|k: int| 0 <= k < refs.deltas@.len() implies refs_fields(refs).deltas[k]
                    == delta_ref_fields(dv.children.skip(1)[k])->Some_0 by {
                    assert(dv.children.skip(1)[k] == dv.children[k + 1]);
                }
            }
            assert(n == Some(refs_fields(refs)));
            assert forall|k: int| 0 <= k < refs_fields(refs).deltas.len() implies starts(
                #[trigger] refs_fields(refs).deltas[k].1,
                base_uri@,
            ) by {
                assert(ref_is(refs.deltas@[k], refs.deltas@[k].uri@, refs.deltas@[k].hash@, base_uri@, base_dir.spec_bytes()));
            }
        }
        Ok(refs)
    }
}

/// `f` was read, and its content has the digest `hash`.
pub open spec fn file_matches(f: Option<Vec<u8>>, hash: Seq<u8>) -> bool {
    f is Some && hash_text(f->Some_0@) == hash
}

/// The files read for the references of a notification are all there and unchanged,
/// and the deltas count down from the serial, each at the place for its serial.
pub open spec fn refs_files_ok(base_uri: Seq<u8>, refs: NotificationRefs, files: Seq<Option<Vec<u8>>>) -> bool {
    &&& files.len() == refs.deltas@.len() + 1
    &&& file_matches(files[0], refs.snapshot.hash@)
    &&& forall|k: int|
        0 <= k < refs.deltas@.len() ==> {
            &&& file_matches(files[k + 1], (#[trigger] refs.deltas@[k]).hash@)
            &&& refs.deltas@[k].serial == refs.serial - k
            &&& refs.deltas@[k].uri@ == base_uri + artifact_rel(
                refs.session.id,
                refs.deltas@[k].serial,
                delta_file(),
            )
        }
}

fn content_has_hash(content: &[u8], hash: &[u8]) -> (r: bool)
    ensures
        r == (hash_text(content@) == hash@),
{
    let h = EncodedHash::from_content(content);
    bytes_eq(h.as_bytes(), hash)
}

impl RepoState {
    /// Rebuilds the state that a notification describes, from the files read at the
    /// paths of its references (`files[0]` for the snapshot, then one per delta, `None`
    /// where a file could not be read). Any missing or changed file fails it. So does a
    /// notification that breaks the invariants of one: a snapshot of another session or
    /// serial, deltas whose serials do not count down from the serial, or a delta that is
    /// not at the place `save` gives it. The retention of `save` keeps only those places,
    /// so a state that admitted other ones could lose files that it still lists.
    pub fn reconstitute(
        base_uri: HttpsUri,
        base_dir: &str,
        refs: &NotificationRefs,
        files: Vec<Option<Vec<u8>>>,
    ) -> (r: Result<RepoState, Error>)
        ensures
            r matches Err(e) ==> e is InvalidRepoState,
            r is Ok ==> refs_files_ok(base_uri@, *refs, files@),
            r matches Ok(st) ==> {
                &&& state_wf(st@)
                &&& st@.new_delta is None
                &&& st@.session == refs.session.id
                &&& st@.serial == refs.serial
                &&& st@.base_uri == base_uri@
                &&& st@.base_dir == base_dir.spec_bytes()
                &&& st@.deltas.len() == refs.deltas@.len()
                &&& forall|k: int|
                    0 <= k < refs.deltas@.len() ==> #[trigger] st@.deltas[k] == (DeltaRefV {
                        serial: refs.deltas@[k].serial,
                        file: file_ref_of(refs.deltas@[k].uri@, files@[k + 1]->Some_0@),
                    })
            },
            r matches Ok(st) ==> snapshot_read(files@[0]->Some_0@) == Some(st@.snapshot),
            files@.len() > 0 && files@[0] is Some && snapshot_read(files@[0]->Some_0@) is None
                ==> r is Err,
            forall|s: SnapshotV|
                refs_files_ok(base_uri@, *refs, files@) && files_wf(s.objects) && s.session
                    == refs.session.id && s.serial == refs.serial && #[trigger] snapshot_xml(s)
                    == files@[0]->Some_0@ ==> (r matches Ok(st) && st@.snapshot == s),
    {
        if files.len() == 0 || files.len() - 1 != refs.deltas.len() {
            return Err(Error::InvalidRepoState);
        }
        let snapshot_bytes = match &files[0] {
            Some(b) => b,
            None => {
                return Err(Error::InvalidRepoState);
            },
        };
        if !content_has_hash(snapshot_bytes.as_slice(), refs.snapshot.hash.as_slice()) {
            return Err(Error::InvalidRepoState);
        }
        let snapshot = match Snapshot::from_xml(snapshot_bytes.as_slice()) {
            Ok(s) => s,
            Err(_) => {
                return Err(Error::InvalidRepoState);
            },
        };
        if snapshot.session.id != refs.session.id || snapshot.serial != refs.serial {
            return Err(Error::InvalidRepoState);
        }
        snapshot.files_are_wf();
        let session_text = refs.session.text();
        let mut deltas: Vec<DeltaRef> = Vec::new();
        let mut k: usize = 0;
        while k < refs.deltas.len()
            invariant
                k <= refs.deltas@.len(),
                files@.len() == refs.deltas@.len() + 1,
                session_text@ == uuid_text(refs.session.id),
                delta_refs_view(deltas@).len() == k,
                forall|j: int|
                    0 <= j < k ==> {
                        &&& file_matches(files@[j + 1], (#[trigger] refs.deltas@[j]).hash@)
                        &&& refs.deltas@[j].serial == refs.serial - j
                        &&& refs.deltas@[j].uri@ == base_uri@ + artifact_rel(
                            refs.session.id,
                            refs.deltas@[j].serial,
                            delta_file(),
                        )
                        &&& delta_refs_view(deltas@)[j] == (DeltaRefV {
                            serial: refs.deltas@[j].serial,
                            file: file_ref_of(refs.deltas@[j].uri@, files@[j + 1]->Some_0@),
                        })
                    },
            decreases refs.deltas@.len() - k,
        {
            let d = &refs.deltas[k];
            let b = match &files[k + 1] {
                Some(b) => b,
                None => {
                    return Err(Error::InvalidRepoState);
                },
            };
            if !content_has_hash(b.as_slice(), d.hash.as_slice()) {
                return Err(Error::InvalidRepoState);
            }
            if k as u64 > refs.serial || d.serial != refs.serial - k as u64 {
                return Err(Error::InvalidRepoState);
            }
            let rel = artifact_rel_bytes(
                session_text.as_slice(),
                decimal(d.serial).as_slice(),
                delta_file_bytes().as_slice(),
            );
            let expected = base_uri.resolve(rel.as_slice());
            if !bytes_eq(d.uri.as_slice(), expected.as_bytes()) {
                return Err(Error::InvalidRepoState);
            }
            let ghost d0 = delta_refs_view(deltas@);
            let x = DeltaRef::new(d.serial, FileRef::new(HttpsUri::from_bytes(d.uri.as_slice()), b.as_slice()));
            deltas.push(x);
            proof {
                assert(delta_refs_view(deltas@) =~= d0.push(x@));
            }
            k = k + 1;
        }
        let st = RepoState {
            session: refs.session,
            serial: refs.serial,
            snapshot,
            new_delta: None,
            deltas,
            base_uri,
            base_dir: copy_bytes(base_dir.as_bytes()),
        };
        proof {
            assert(st@.deltas == delta_refs_view(st.deltas@));
            assert forall|i: int| 0 <= i < st@.deltas.len() implies #[trigger] st@.deltas[i].serial
                == st@.serial - i by {
                assert(refs.deltas@[i].serial == refs.serial - i);
            }
            assert forall|i: int| 0 <= i < st@.deltas.len() implies #[trigger] st@.deltas[i].file.uri
                == st@.base_uri + artifact_rel(st@.session, st@.deltas[i].serial, delta_file()) by {
                assert(refs.deltas@[i].serial == refs.serial - i);
            }
        }
        Ok(st)
    }
}

//------------ Error ---------------------------------------------------------

#[derive(Debug)]
pub enum Error {
    InvalidXml(String),
    InvalidDelta,
    InvalidRepoState,
}

} // verus!
