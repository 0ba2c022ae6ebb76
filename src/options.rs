//! The settings of a publication run, read from text.
use vstd::prelude::*;
use vstd::string::StringSliceAdditionalSpecFns;
use crate::sync::{HttpsUri, RsyncUri, https_scheme, is_base, rsync_scheme};
use crate::text::{parse_u64, parses_as_u64, u64_value};

verus! {

/// Where to read, where to publish, under which URIs, and how much to keep.
pub struct Options {
    pub source: String,
    pub target: String,
    pub rsync: RsyncUri,
    pub https: HttpsUri,
    pub clean: bool,
    pub max_deltas: usize,
}

/// `s` is a decimal number, optionally after a `+`, that fits in a `usize`.
pub open spec fn parses_as_usize(s: Seq<u8>) -> bool {
    parses_as_u64(s) && u64_value(s) <= usize::MAX
}

impl Options {
    /// Reads the settings. The base URIs must have their scheme and end with a slash,
    /// and `max_deltas` must be a decimal number; the first that fails gives the error.
    /// Whether the two directories exist is for the caller to check.
    pub fn from_strs(
        source: &str,
        target: &str,
        rsync: &str,
        https: &str,
        clean: bool,
        max_deltas: &str,
    ) -> (r: Result<Self, Error>)
        ensures
            r is Ok <==> is_base(rsync.spec_bytes(), rsync_scheme()) && is_base(
                https.spec_bytes(),
                https_scheme(),
            ) && parses_as_usize(max_deltas.spec_bytes()),
            r matches Ok(o) ==> {
                &&& o.source@ == source@
                &&& o.target@ == target@
                &&& o.rsync@ == rsync.spec_bytes()
                &&& o.https@ == https.spec_bytes()
                &&& o.clean == clean
                &&& o.max_deltas == u64_value(max_deltas.spec_bytes())
            },
            !is_base(rsync.spec_bytes(), rsync_scheme()) ==> (r matches Err(Error::RsyncBaseUri(s))
                && s@ == rsync@),
            is_base(rsync.spec_bytes(), rsync_scheme()) && !is_base(https.spec_bytes(), https_scheme())
                ==> (r matches Err(Error::HttpsBaseUri(s)) && s@ == https@),
            is_base(rsync.spec_bytes(), rsync_scheme()) && is_base(https.spec_bytes(), https_scheme())
                && !parses_as_usize(max_deltas.spec_bytes()) ==> (r matches Err(
                Error::CannotParseNumber(s),
            ) && s@ == max_deltas@),
    {
        let rsync_uri = match RsyncUri::base_uri(rsync) {
            Ok(u) => u,
            Err(_) => {
                return Err(Error::RsyncBaseUri(rsync.to_owned()));
            },
        };
        let https_uri = match HttpsUri::base_uri(https) {
            Ok(u) => u,
            Err(_) => {
                return Err(Error::HttpsBaseUri(https.to_owned()));
            },
        };
        let n = match parse_u64(max_deltas.as_bytes()) {
            Some(n) => n,
            None => {
                return Err(Error::CannotParseNumber(max_deltas.to_owned()));
            },
        };
        if n as u128 > usize::MAX as u128 {
            return Err(Error::CannotParseNumber(max_deltas.to_owned()));
        }
        Ok(Options {
            source: source.to_owned(),
            target: target.to_owned(),
            rsync: rsync_uri,
            https: https_uri,
            clean,
            max_deltas: n as usize,
        })
    }
}

#[derive(Debug)]
pub enum Error {
    CannotRead(String),
    RsyncBaseUri(String),
    HttpsBaseUri(String),
    CannotParseNumber(String),
    MaxDeltasMustBeOneOrHigher,
}

} // verus!
