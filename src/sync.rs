//! URIs, content encodings and the files of a source tree.
use vstd::prelude::*;
use vstd::string::StringSliceAdditionalSpecFns;
use base64::Engine;
use crate::text::{append_bytes, concat, hex_of, starts, starts_with};

verus! {

/// The standard Base64 encoding (with padding, no line breaks) of `b`.
pub uninterp spec fn base64_of(b: Seq<u8>) -> Seq<u8>;

/// What the standard Base64 decoder gives for `s`: the bytes it reads, or `None` where
/// it refuses `s`.
pub uninterp spec fn base64_decoded(s: Seq<u8>) -> Option<Seq<u8>>;

/// The SHA-256 digest of `b`.
pub uninterp spec fn sha256_of(b: Seq<u8>) -> Seq<u8>;

/// The lower-case hexadecimal SHA-256 digest of `c`.
pub open spec fn hash_text(c: Seq<u8>) -> Seq<u8> {
    hex_of(sha256_of(c))
}

pub open spec fn rsync_scheme() -> Seq<u8> {
    seq![114u8, 115, 121, 110, 99, 58, 47, 47]
}

pub open spec fn https_scheme() -> Seq<u8> {
    seq![104u8, 116, 116, 112, 115, 58, 47, 47]
}

/// `s` begins with `scheme` and ends with a slash.
pub open spec fn is_base(s: Seq<u8>, scheme: Seq<u8>) -> bool {
    &&& scheme.len() <= s.len()
    &&& s.take(scheme.len() as int) == scheme
    &&& s.len() > 0
    &&& s.last() == 47u8
}

fn rsync_scheme_bytes() -> (r: Vec<u8>)
    ensures
        r@ == rsync_scheme(),
{
    let r = vec![114u8, 115, 121, 110, 99, 58, 47, 47];
    assert(r@ =~= rsync_scheme());
    r
}

fn https_scheme_bytes() -> (r: Vec<u8>)
    ensures
        r@ == https_scheme(),
{
    let r = vec![104u8, 116, 116, 112, 115, 58, 47, 47];
    assert(r@ =~= https_scheme());
    r
}

fn is_base_uri(s: &[u8], scheme: &[u8]) -> (r: bool)
    ensures
        r == is_base(s@, scheme@),
{
    starts_with(s, scheme) && s.len() > 0 && s[s.len() - 1] == 47u8
}

/// A copy of the bytes of `s`.
pub fn copy_bytes(s: &[u8]) -> (r: Vec<u8>)
    ensures
        r@ == s@,
{
    let mut r: Vec<u8> = Vec::new();
    append_bytes(&mut r, s);
    assert(r@ =~= s@);
    r
}

//------------ RsyncUri -----------------------------------------------------

/// An `rsync://` URI, compared byte for byte.
#[derive(Debug, PartialEq, Eq, Hash, PartialOrd, Ord)]
pub struct RsyncUri {
    uri: Vec<u8>,
}

impl View for RsyncUri {
    type V = Seq<u8>;

    closed spec fn view(&self) -> Seq<u8> {
        self.uri@
    }
}

impl Clone for RsyncUri {
    fn clone(&self) -> (r: Self)
        ensures
            r@ == self@,
    {
        RsyncUri { uri: copy_bytes(self.uri.as_slice()) }
    }
}

impl RsyncUri {
    /// A base URI: the text must begin with `rsync://` and end with a slash.
    pub fn base_uri(s: &str) -> (r: Result<Self, Error>)
        ensures
            is_base(s.spec_bytes(), rsync_scheme()) ==> (r matches Ok(u) && u@ == s.spec_bytes()),
            !is_base(s.spec_bytes(), rsync_scheme()) ==> r matches Err(Error::InvalidRsyncBase),
    {
        let b = s.as_bytes();
        let scheme = rsync_scheme_bytes();
        if is_base_uri(b, scheme.as_slice()) {
            Ok(RsyncUri { uri: copy_bytes(b) })
        } else {
            Err(Error::InvalidRsyncBase)
        }
    }

    /// The URI of `rel` below this one: the two texts concatenated.
    pub fn resolve(&self, rel: &[u8]) -> (r: Self)
        ensures
            r@ == self@ + rel@,
    {
        RsyncUri { uri: concat(self.uri.as_slice(), rel) }
    }

    /// A URI with the bytes of `b`, as read from a document.
    pub fn from_bytes(b: &[u8]) -> (r: Self)
        ensures
            r@ == b@,
    {
        RsyncUri { uri: copy_bytes(b) }
    }

    pub fn as_bytes(&self) -> (r: &[u8])
        ensures
            r@ == self@,
    {
        self.uri.as_slice()
    }
}

impl<'a> From<&'a str> for RsyncUri {
    fn from(s: &'a str) -> (r: Self) {
        RsyncUri { uri: copy_bytes(s.as_bytes()) }
    }
}

impl<'a> vstd::std_specs::convert::FromSpecImpl<&'a str> for RsyncUri {
    open spec fn obeys_from_spec() -> bool {
        false
    }

    open spec fn from_spec(s: &'a str) -> Self {
        arbitrary()
    }
}

//------------ HttpsUri -----------------------------------------------------

/// An `https://` URI, compared byte for byte.
#[derive(Debug, PartialEq, Eq, Hash)]
pub struct HttpsUri {
    uri: Vec<u8>,
}

impl View for HttpsUri {
    type V = Seq<u8>;

    closed spec fn view(&self) -> Seq<u8> {
        self.uri@
    }
}

impl Clone for HttpsUri {
    fn clone(&self) -> (r: Self)
        ensures
            r@ == self@,
    {
        HttpsUri { uri: copy_bytes(self.uri.as_slice()) }
    }
}

impl HttpsUri {
    /// A base URI: the text must begin with `https://` and end with a slash.
    pub fn base_uri(s: &str) -> (r: Result<Self, Error>)
        ensures
            is_base(s.spec_bytes(), https_scheme()) ==> (r matches Ok(u) && u@ == s.spec_bytes()),
            !is_base(s.spec_bytes(), https_scheme()) ==> r matches Err(Error::InvalidHttpsBase),
    {
        let b = s.as_bytes();
        let scheme = https_scheme_bytes();
        if is_base_uri(b, scheme.as_slice()) {
            Ok(HttpsUri { uri: copy_bytes(b) })
        } else {
            Err(Error::InvalidHttpsBase)
        }
    }

    /// The URI of `rel` below this one: the two texts concatenated.
    pub fn resolve(&self, rel: &[u8]) -> (r: Self)
        ensures
            r@ == self@ + rel@,
    {
        HttpsUri { uri: concat(self.uri.as_slice(), rel) }
    }

    /// The part of `uri` after this base, where `uri` begins with it literally.
    pub fn relative_to(&self, uri: &[u8]) -> (r: Option<Vec<u8>>)
        ensures
            r is Some <==> self@.len() <= uri@.len() && uri@.take(self@.len() as int) == self@,
            r matches Some(rel) ==> rel@ == uri@.skip(self@.len() as int),
    {
        if starts_with(uri, self.uri.as_slice()) {
            let mut rel: Vec<u8> = Vec::new();
            let mut i: usize = self.uri.len();
            while i < uri.len()
                invariant
                    self@.len() <= i <= uri@.len(),
                    rel@ == uri@.subrange(self@.len() as int, i as int),
                decreases uri@.len() - i,
            {
                rel.push(uri[i]);
                assert(uri@.subrange(self@.len() as int, i + 1) =~= uri@.subrange(
                    self@.len() as int,
                    i as int,
                ).push(uri@[i as int]));
                i = i + 1;
            }
            assert(rel@ =~= uri@.skip(self@.len() as int));
            Some(rel)
        } else {
            None
        }
    }

    /// A URI with the bytes of `b`, as read from a document.
    pub fn from_bytes(b: &[u8]) -> (r: Self)
        ensures
            r@ == b@,
    {
        HttpsUri { uri: copy_bytes(b) }
    }

    pub fn as_bytes(&self) -> (r: &[u8])
        ensures
            r@ == self@,
    {
        self.uri.as_slice()
    }
}

impl<'a> From<&'a str> for HttpsUri {
    fn from(s: &'a str) -> (r: Self) {
        HttpsUri { uri: copy_bytes(s.as_bytes()) }
    }
}

impl<'a> vstd::std_specs::convert::FromSpecImpl<&'a str> for HttpsUri {
    open spec fn obeys_from_spec() -> bool {
        false
    }

    open spec fn from_spec(s: &'a str) -> Self {
        arbitrary()
    }
}

//------------ Base64 --------------------------------------------------------

#[verifier::external_type_specification]
#[verifier::external_body]
pub struct ExDecodeError(base64::DecodeError);

/// Content in its standard Base64 encoding, as the protocol carries it.
#[derive(Debug, PartialEq, Eq)]
pub struct Base64 {
    text: Vec<u8>,
}

impl View for Base64 {
    type V = Seq<u8>;

    closed spec fn view(&self) -> Seq<u8> {
        self.text@
    }
}

impl Clone for Base64 {
    fn clone(&self) -> (r: Self)
        ensures
            r@ == self@,
    {
        Base64 { text: copy_bytes(self.text.as_slice()) }
    }
}

impl Base64 {
    /// Relies on base64's `STANDARD` engine `encode`: padded output of four characters
    /// per started group of three bytes, which its `decode` reads back as the input.
    #[verifier::external_body]
    pub fn from_content(content: &[u8]) -> (r: Self)
        ensures
            r@ == base64_of(content@),
            r@.len() == 4 * ((content@.len() + 2) / 3),
            base64_decoded(r@) == Some(content@),
    {
        Base64 { text: base64::engine::general_purpose::STANDARD.encode(content).into_bytes() }
    }

    /// Takes text that is already Base64.
    pub fn from_b64_str(s: &str) -> (r: Self)
        ensures
            r@ == s.spec_bytes(),
    {
        Base64 { text: copy_bytes(s.as_bytes()) }
    }

    pub fn as_bytes(&self) -> (r: &[u8])
        ensures
            r@ == self@,
    {
        self.text.as_slice()
    }
}

/// Relies on base64's `STANDARD` engine `decode`: it fails exactly where it refuses
/// the text, and otherwise gives the bytes it reads.
#[verifier::external_body]
pub(crate) fn decode_base64(s: &[u8]) -> (r: Result<Vec<u8>, base64::DecodeError>)
    ensures
        r is Ok <==> base64_decoded(s@) is Some,
        r matches Ok(v) ==> base64_decoded(s@) == Some(v@),
{
    base64::engine::general_purpose::STANDARD.decode(s)
}

//------------ EncodedHash ---------------------------------------------------

/// Relies on hex's `encode`: two lower-case digits per byte, high nibble first.
#[verifier::external_body]
fn hex_encode(b: &[u8]) -> (r: Vec<u8>)
    ensures
        r@ == hex_of(b@),
{
    hex::encode(b).into_bytes()
}

/// A lower-case hexadecimal SHA-256 digest.
#[derive(Debug, PartialEq, Eq, Hash)]
pub struct EncodedHash {
    hex: Vec<u8>,
}

impl View for EncodedHash {
    type V = Seq<u8>;

    closed spec fn view(&self) -> Seq<u8> {
        self.hex@
    }
}

impl Clone for EncodedHash {
    fn clone(&self) -> (r: Self)
        ensures
            r@ == self@,
    {
        EncodedHash { hex: copy_bytes(self.hex.as_slice()) }
    }
}

impl EncodedHash {
    pub fn from_content(content: &[u8]) -> (r: Self)
        ensures
            r@ == hash_text(content@),
            r@.len() == 64,
    {
        let digest = Self::sha256(content);
        proof {
            crate::text::lemma_hex_of_len(digest@);
        }
        EncodedHash { hex: hex_encode(digest.as_slice()) }
    }

    /// Relies on ring's `digest::digest` with `digest::SHA256`, whose output is 32 bytes.
    #[verifier::external_body]
    pub fn sha256(object: &[u8]) -> (r: Vec<u8>)
        ensures
            r@ == sha256_of(object@),
            r@.len() == 32,
    {
        ring::digest::digest(&ring::digest::SHA256, object).as_ref().to_vec()
    }

    pub fn as_bytes(&self) -> (r: &[u8])
        ensures
            r@ == self@,
    {
        self.hex.as_slice()
    }
}

//------------ CurrentFile ---------------------------------------------------

/// What a published file holds, by its URI.
pub struct FileView {
    pub uri: Seq<u8>,
    pub base64: Seq<u8>,
    pub hash: Seq<u8>,
}

/// The content that the Base64 text of a file stands for.
pub open spec fn content_of(f: FileView) -> Seq<u8> {
    base64_decoded(f.base64)->Some_0
}

/// The encoding and the digest of a file come from the same content.
pub open spec fn file_wf(f: FileView) -> bool {
    &&& base64_decoded(f.base64) is Some
    &&& f.base64 == base64_of(content_of(f))
    &&& f.hash == hash_text(content_of(f))
}

/// A file of the source tree: its URI, its content in Base64 and the digest of it.
#[derive(Debug, PartialEq, Eq)]
pub struct CurrentFile {
    uri: RsyncUri,
    base64: Base64,
    hash: EncodedHash,
}

impl CurrentFile {
    #[verifier::type_invariant]
    spec fn inv(&self) -> bool {
        file_wf(self@)
    }
}

impl View for CurrentFile {
    type V = FileView;

    closed spec fn view(&self) -> FileView {
        FileView { uri: self.uri@, base64: self.base64@, hash: self.hash@ }
    }
}

impl Clone for CurrentFile {
    fn clone(&self) -> (r: Self)
        ensures
            r@ == self@,
    {
        proof {
            use_type_invariant(self);
        }
        CurrentFile { uri: self.uri.clone(), base64: self.base64.clone(), hash: self.hash.clone() }
    }
}

impl CurrentFile {
    pub fn new(uri: RsyncUri, content: &[u8]) -> (r: Self)
        ensures
            r@ == (FileView { uri: uri@, base64: base64_of(content@), hash: hash_text(content@) }),
            file_wf(r@),
    {
        let base64 = Base64::from_content(content);
        let hash = EncodedHash::from_content(content);
        CurrentFile { uri, base64, hash }
    }

    /// Every file holds an encoding and a digest of one content.
    pub(crate) fn is_wf(&self)
        ensures
            file_wf(self@),
    {
        proof {
            use_type_invariant(self);
        }
    }

    pub fn uri(&self) -> (r: &RsyncUri)
        ensures
            r@ == self@.uri,
    {
        &self.uri
    }

    pub fn base64(&self) -> (r: &Base64)
        ensures
            r@ == self@.base64,
    {
        &self.base64
    }

    pub fn hash(&self) -> (r: &EncodedHash)
        ensures
            r@ == self@.hash,
    {
        &self.hash
    }
}

//------------ Source tree ---------------------------------------------------

/// An entry of a source tree whose name begins with `.` is hidden and not published.
pub open spec fn is_hidden_name(name: Seq<u8>) -> bool {
    name.len() > 0 && name[0] == 46
}

/// Whether the entry `name` of a source tree is hidden.
pub fn is_hidden(name: &[u8]) -> (r: bool)
    ensures
        r == is_hidden_name(name@),
{
    name.len() > 0 && name[0] == 46
}

//------------ Paths ---------------------------------------------------------

/// `base` joined with `name` as a path: an absolute `name` stands alone, otherwise a
/// slash separates the two where `base` does not end in one.
pub open spec fn path_join(base: Seq<u8>, name: Seq<u8>) -> Seq<u8> {
    if name.len() > 0 && name[0] == 47 {
        name
    } else if base.len() == 0 || base.last() == 47 {
        base + name
    } else {
        base + seq![47u8] + name
    }
}

/// The path of `file_name` within the directory `base_path`.
pub fn file_path(base_path: &[u8], file_name: &[u8]) -> (r: Vec<u8>)
    ensures
        r@ == path_join(base_path@, file_name@),
{
    if file_name.len() > 0 && file_name[0] == 47 {
        copy_bytes(file_name)
    } else if base_path.len() == 0 || base_path[base_path.len() - 1] == 47 {
        concat(base_path, file_name)
    } else {
        let mut r = copy_bytes(base_path);
        r.push(47u8);
        append_bytes(&mut r, file_name);
        assert(r@ =~= base_path@ + seq![47u8] + file_name@);
        r
    }
}

/// The part of `path` below `base_path`; `OutsideJail` where `path` does not begin
/// with `base_path`.
pub fn derive_relative_path(base_path: &[u8], path: &[u8]) -> (r: Result<Vec<u8>, Error>)
    ensures
        r is Ok <==> starts(path@, base_path@),
        r matches Ok(rel) ==> rel@ == path@.skip(base_path@.len() as int),
        r matches Err(e) ==> (e matches Error::OutsideJail(p, b) && p@ == path@ && b@ == base_path@),
{
    if !starts_with(path, base_path) {
        return Err(Error::OutsideJail(copy_bytes(path), copy_bytes(base_path)));
    }
    let mut rel: Vec<u8> = Vec::new();
    let mut i: usize = base_path.len();
    while i < path.len()
        invariant
            base_path@.len() <= i <= path@.len(),
            rel@ == path@.subrange(base_path@.len() as int, i as int),
        decreases path@.len() - i,
    {
        rel.push(path[i]);
        assert(path@.subrange(base_path@.len() as int, i + 1) =~= path@.subrange(
            base_path@.len() as int,
            i as int,
        ).push(path@[i as int]));
        i = i + 1;
    }
    assert(rel@ =~= path@.skip(base_path@.len() as int));
    Ok(rel)
}

/// The rsync URI of the file at `path` of a source tree rooted at `base_path`.
pub fn derive_uri(base_path: &[u8], path: &[u8], rsync_base: &RsyncUri) -> (r: Result<RsyncUri, Error>)
    ensures
        r is Ok <==> starts(path@, base_path@),
        r matches Ok(u) ==> u@ == rsync_base@ + path@.skip(base_path@.len() as int),
        r matches Err(e) ==> e is OutsideJail,
{
    let rel = derive_relative_path(base_path, path)?;
    Ok(rsync_base.resolve(rel.as_slice()))
}

//------------ Error ---------------------------------------------------------

#[derive(Debug)]
pub enum Error {
    InvalidRsyncUri,
    InvalidRsyncBase,
    InvalidHttpsBase,
    CannotRead(String),
    UnsupportedFileName(String),
    OutsideJail(Vec<u8>, Vec<u8>),
}

} // verus!
