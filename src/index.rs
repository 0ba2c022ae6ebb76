//! An index of files by URI, to find the last file with a given URI without a scan.
use vstd::prelude::*;
use std::collections::hash_map::Entry;
use std::collections::HashMap;
use crate::rrdp::{files_view, has_uri, is_last};
use crate::sync::{CurrentFile, FileView};
use crate::text::bytes_eq;

verus! {

broadcast use vstd::std_specs::hash::group_hash_axioms;

/// A polynomial digest of a URI, the key of its bucket.
pub open spec fn uri_key(s: Seq<u8>) -> u64
    decreases s.len(),
{
    if s.len() == 0 {
        0
    } else {
        vstd::wrapping::u64_specs::wrapping_add(
            vstd::wrapping::u64_specs::wrapping_mul(uri_key(s.drop_last()), 31),
            s.last() as u64,
        )
    }
}

fn key_of(b: &[u8]) -> (r: u64)
    ensures
        r == uri_key(b@),
{
    let mut h: u64 = 0;
    let mut i: usize = 0;
    assert(b@.take(0) =~= Seq::<u8>::empty());
    while i < b.len()
        invariant
            i <= b@.len(),
            h == uri_key(b@.take(i as int)),
        decreases b@.len() - i,
    {
        assert(b@.take(i + 1).drop_last() =~= b@.take(i as int));
        h = h.wrapping_mul(31).wrapping_add(b[i] as u64);
        i = i + 1;
    }
    assert(b@.take(i as int) =~= b@);
    h
}

pub open spec fn keys_of(fv: Seq<FileView>) -> Seq<u64> {
    fv.map_values(|f: FileView| uri_key(f.uri))
}

/// The positions below `k` whose key is `h`, in increasing order.
pub open spec fn positions(keys: Seq<u64>, h: u64, k: int) -> Seq<usize>
    decreases k,
{
    if k <= 0 {
        Seq::empty()
    } else if keys[k - 1] == h {
        positions(keys, h, k - 1).push((k - 1) as usize)
    } else {
        positions(keys, h, k - 1)
    }
}

proof fn lemma_positions(keys: Seq<u64>, h: u64, k: int)
    requires
        0 <= k <= keys.len(),
        keys.len() <= usize::MAX,
    ensures
        forall|t: int|
            0 <= t < positions(keys, h, k).len() ==> (#[trigger] positions(keys, h, k)[t] as int) < k
                && keys[positions(keys, h, k)[t] as int] == h,
        forall|s: int, t: int|
            0 <= s < t < positions(keys, h, k).len() ==> #[trigger] positions(keys, h, k)[s]
                < #[trigger] positions(keys, h, k)[t],
        forall|j: int|
            0 <= j < k && #[trigger] keys[j] == h ==> exists|t: int|
                0 <= t < positions(keys, h, k).len() && positions(keys, h, k)[t] == j,
    decreases k,
{
    if k > 0 {
        lemma_positions(keys, h, k - 1);
        let p = positions(keys, h, k - 1);
        if keys[k - 1] == h {
            let q = p.push((k - 1) as usize);
            assert(positions(keys, h, k) == q);
            assert forall|j: int| 0 <= j < k && #[trigger] keys[j] == h implies exists|t: int|
                0 <= t < q.len() && q[t] == j by {
                if j == k - 1 {
                    assert(q[p.len() as int] == j);
                } else {
                    let t = choose|t: int| 0 <= t < p.len() && p[t] == j;
                    assert(q[t] == j);
                }
            }
        } else {
            assert(positions(keys, h, k) == p);
            assert forall|j: int| 0 <= j < k && #[trigger] keys[j] == h implies exists|t: int|
                0 <= t < p.len() && p[t] == j by {
                assert(j < k - 1);
            }
        }
    }
}

/// Files by the key of their URI: each bucket lists, in increasing order, the
/// positions of the files whose URI has that key. The map is keyed by an integer because
/// that is what the specification of `HashMap` can reason about; equal keys are told
/// apart by comparing the URIs themselves.
pub struct UriIndex {
    map: HashMap<u64, Vec<usize>>,
}

impl UriIndex {
    /// This index is the one of the files `fv`.
    pub closed spec fn indexes(&self, fv: Seq<FileView>) -> bool {
        &&& fv.len() <= usize::MAX
        &&& forall|h: u64|
            #[trigger] positions(keys_of(fv), h, fv.len() as int) == if self.map@.contains_key(h) {
                self.map@[h]@
            } else {
                Seq::empty()
            }
    }

    pub fn build(files: &Vec<CurrentFile>) -> (r: Self)
        ensures
            r.indexes(files_view(files@)),
    {
        let ghost fv = files_view(files@);
        let ghost keys = keys_of(fv);
        let mut map: HashMap<u64, Vec<usize>> = HashMap::new();
        let mut k: usize = 0;
        while k < files.len()
            invariant
                k <= files@.len(),
                fv == files_view(files@),
                keys == keys_of(fv),
                forall|h: u64|
                    #[trigger] positions(keys, h, k as int) == if map@.contains_key(h) {
                        map@[h]@
                    } else {
                        Seq::empty()
                    },
            decreases files@.len() - k,
        {
            let h = key_of(files[k].uri().as_bytes());
            assert(keys[k as int] == h);
            let ghost old_map = map@;
            match map.entry(h) {
                Entry::Occupied(mut o) => {
                    o.get_mut().push(k);
                },
                Entry::Vacant(v) => {
                    v.insert(vec![k]);
                },
            }
            proof {
                assert forall|g: u64| #[trigger] positions(keys, g, k + 1) == if map@.contains_key(g) {
                    map@[g]@
                } else {
                    Seq::empty()
                } by {
                    assert(positions(keys, g, k as int) == if old_map.contains_key(g) {
                        old_map[g]@
                    } else {
                        Seq::empty()
                    });
                    if g == h {
                        if old_map.contains_key(g) {
                            assert(map@[g]@ =~= old_map[g]@.push(k));
                        } else {
                            assert(map@[g]@ =~= Seq::<usize>::empty().push(k));
                        }
                    }
                }
            }
            k = k + 1;
        }
        UriIndex { map }
    }

    /// The position of the last file of `files` with URI `uri`.
    pub fn find_last(&self, files: &Vec<CurrentFile>, uri: &[u8]) -> (r: Option<usize>)
        requires
            self.indexes(files_view(files@)),
        ensures
            r matches Some(j) ==> is_last(files_view(files@), j as int) && files_view(files@)[j as int].uri
                == uri@,
            r is None ==> !has_uri(files_view(files@), uri@),
    {
        let ghost fv = files_view(files@);
        let ghost keys = keys_of(fv);
        let h = key_of(uri);
        proof {
            lemma_positions(keys, h, fv.len() as int);
            assert(positions(keys, h, fv.len() as int) == if self.map@.contains_key(h) {
                self.map@[h]@
            } else {
                Seq::empty()
            });
        }
        let bucket = match self.map.get(&h) {
            Some(b) => b,
            None => {
                proof {
                    if has_uri(fv, uri@) {
                        let j = choose|j: int| 0 <= j < fv.len() && #[trigger] fv[j].uri == uri@;
                        assert(keys[j] == h);
                    }
                }
                return None;
            },
        };
        let ghost p = positions(keys, h, fv.len() as int);
        assert(bucket@ == p);
        let mut t: usize = bucket.len();
        while t > 0
            invariant
                t <= p.len(),
                bucket@ == p,
                fv == files_view(files@),
                keys == keys_of(fv),
                h == uri_key(uri@),
                forall|s: int| 0 <= s < p.len() ==> (#[trigger] p[s] as int) < fv.len() && keys[p[s] as int] == h,
                forall|s: int, u: int| 0 <= s < u < p.len() ==> #[trigger] p[s] < #[trigger] p[u],
                forall|j: int| 0 <= j < fv.len() && #[trigger] keys[j] == h ==> exists|s: int|
                    0 <= s < p.len() && p[s] == j,
                forall|s: int| t <= s < p.len() ==> fv[#[trigger] p[s] as int].uri != uri@,
            decreases t,
        {
            let j = bucket[t - 1];
            if bytes_eq(files[j].uri().as_bytes(), uri) {
                proof {
                    assert(fv[j as int].uri == uri@);
                    assert forall|i: int| j < i < fv.len() implies #[trigger] fv[i].uri != fv[j as int].uri by {
                        if fv[i].uri == uri@ {
                            assert(keys[i] == h);
                            let s = choose|s: int| 0 <= s < p.len() && p[s] == i;
                            if s < t - 1 {
                                assert(p[s] < p[t - 1]);
                            }
                        }
                    }
                }
                return Some(j);
            }
            t = t - 1;
        }
        proof {
            if has_uri(fv, uri@) {
                let j = choose|j: int| 0 <= j < fv.len() && #[trigger] fv[j].uri == uri@;
                assert(keys[j] == h);
                let s = choose|s: int| 0 <= s < p.len() && p[s] == j;
            }
        }
        None
    }

    /// Whether no file after position `i` has the URI of the file at `i`.
    pub fn is_last_at(&self, files: &Vec<CurrentFile>, i: usize) -> (r: bool)
        requires
            self.indexes(files_view(files@)),
            i < files@.len(),
        ensures
            r == is_last(files_view(files@), i as int),
    {
        let ghost fv = files_view(files@);
        assert(has_uri(fv, fv[i as int].uri));
        match self.find_last(files, files[i].uri().as_bytes()) {
            Some(j) => {
                proof {
                    if is_last(fv, i as int) && j != i {
                        if j < i {
                            assert(fv[i as int].uri != fv[j as int].uri);
                        } else {
                            assert(fv[j as int].uri != fv[i as int].uri);
                        }
                    }
                }
                j == i
            },
            None => false,
        }
    }
}

} // verus!
