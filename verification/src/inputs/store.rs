//! Content-addressed input store.
//!
//! Inputs are stored under `{store_dir}/{name}-{hash}` where `hash` is the first
//! eight characters of the lowercase hex SHA-256 of `url + ":" + rev`, so the
//! same URL and revision always give the same directory.
use vstd::prelude::*;
use vstd::utf8::encode_utf8;
use crate::digest::{sha256, sha256_digest, hex_encode};
use crate::text::{hex_lower, lemma_hex_lower_len, path_join, join_path, concat_str, char_substring};

verus! {

/// Length of the hash suffix of store directory names.
pub const STORE_HASH_LEN: usize = 8;

/// The hash suffix of an input: the first eight hex digits of SHA-256(`url:rev`).
pub open spec fn input_hash(url: Seq<char>, rev: Seq<char>) -> Seq<char> {
    hex_lower(sha256_digest(encode_utf8(url) + seq![58u8] + encode_utf8(rev))).take(STORE_HASH_LEN as int)
}

/// The store label of an input: `{name}-{hash}`.
pub open spec fn store_label(name: Seq<char>, url: Seq<char>, rev: Seq<char>) -> Seq<char> {
    name + seq!['-'] + input_hash(url, rev)
}

/// Errors of store operations.
#[derive(Debug)]
pub enum StoreError {
    /// A directory could not be created.
    CreateDir { path: String, message: String },
    /// A store entry was not found.
    NotFound(String),
}

/// The input store.
#[derive(Debug, Clone)]
pub struct InputStore {
    store_dir: String,
}

/// Calls `std::path::Path::exists`. Its answer depends on the file system, so nothing is stated of it.
#[verifier::external_body]
pub(crate) fn path_exists(path: &str) -> bool {
    std::path::Path::new(path).exists()
}

/// Computes the hash suffix of a store path.
pub fn compute_input_hash(url: &str, rev: &str) -> (h: String)
    ensures
        h@ == input_hash(url@, rev@),
        h@.len() == STORE_HASH_LEN,
{
    let mut data: Vec<u8> = Vec::new();
    let ub = url.as_bytes();
    let rb = rev.as_bytes();
    let mut i: usize = 0;
    while i < ub.len()
        invariant
            i <= ub@.len(),
            data@ == ub@.take(i as int),
        decreases ub@.len() - i,
    {
        data.push(ub[i]);
        proof {
            assert(ub@.take(i + 1) =~= ub@.take(i as int).push(ub@[i as int]));
        }
        i = i + 1;
    }
    data.push(58u8);
    let mut j: usize = 0;
    proof {
        assert(ub@.take(ub@.len() as int) =~= ub@);
    }
    while j < rb.len()
        invariant
            j <= rb@.len(),
            data@ == ub@ + seq![58u8] + rb@.take(j as int),
        decreases rb@.len() - j,
    {
        data.push(rb[j]);
        proof {
            assert(rb@.take(j + 1) =~= rb@.take(j as int).push(rb@[j as int]));
        }
        j = j + 1;
    }
    proof {
        assert(rb@.take(rb@.len() as int) =~= rb@);
    }
    let digest = sha256(data.as_slice());
    let full = hex_encode(digest.as_slice());
    proof {
        lemma_hex_lower_len(digest@);
    }
    char_substring(full.as_str(), 0, STORE_HASH_LEN)
}

impl InputStore {
    /// The store directory.
    pub closed spec fn spec_store_dir(&self) -> Seq<char> {
        self.store_dir@
    }

    /// The store under a cache directory: `{cache_dir}/inputs/store`.
    pub fn new(cache_dir: &str) -> (s: Self)
        ensures
            s.spec_store_dir() == path_join(path_join(cache_dir@, "inputs"@), "store"@),
    {
        let inputs = "inputs";
        let store = "store";
        proof {
            reveal_strlit("inputs");
            reveal_strlit("store");
        }
        let base = join_path(cache_dir, inputs);
        InputStore { store_dir: join_path(base.as_str(), store) }
    }

    /// A store at the given directory.
    pub fn with_path(store_dir: String) -> (s: Self)
        ensures
            s.spec_store_dir() == store_dir@,
    {
        InputStore { store_dir }
    }

    /// The store directory.
    pub fn store_dir(&self) -> (r: &str)
        ensures
            r@ == self.spec_store_dir(),
    {
        self.store_dir.as_str()
    }

    /// The store label of an input: `{name}-{hash}`.
    pub fn compute_store_label(name: &str, url: &str, rev: &str) -> (label: String)
        ensures
            label@ == store_label(name@, url@, rev@),
            label@.len() == name@.len() + STORE_HASH_LEN + 1,
    {
        let hash = compute_input_hash(url, rev);
        let dash = "-";
        proof {
            reveal_strlit("-");
        }
        let prefix = concat_str(name, dash);
        concat_str(prefix.as_str(), hash.as_str())
    }

    /// The store path of an input: `{store_dir}/{name}-{hash}`.
    pub fn compute_store_path(&self, name: &str, url: &str, rev: &str) -> (p: String)
        ensures
            p@ == path_join(self.spec_store_dir(), store_label(name@, url@, rev@)),
    {
        let label = Self::compute_store_label(name, url, rev);
        join_path(self.store_dir.as_str(), label.as_str())
    }

    /// Whether the store entry of an input exists on disk.
    pub fn entry_exists(&self, name: &str, url: &str, rev: &str) -> bool {
        let path = self.compute_store_path(name, url, rev);
        path_exists(path.as_str())
    }

    /// The path of the store entry of an input, when it exists on disk.
    pub fn get(&self, name: &str, url: &str, rev: &str) -> (r: Option<String>)
        ensures
            r matches Some(p) ==> p@ == path_join(self.spec_store_dir(), store_label(name@, url@, rev@)),
    {
        let path = self.compute_store_path(name, url, rev);
        if path_exists(path.as_str()) {
            Some(path)
        } else {
            None
        }
    }
}

} // verus!
