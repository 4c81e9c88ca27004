//! Peer directories: each peer's log lives in a directory named by the
//! URL-safe, unpadded base64 of its 16-byte id.

use vstd::prelude::*;
use base64::Engine;
use base64::engine::general_purpose::URL_SAFE_NO_PAD;
use crate::fs::paths::{joined, join_path};

verus! {

/// The URL-safe, unpadded base64 text of `bytes`, as the base64 crate encodes it.
pub uninterp spec fn base64_url_encode(bytes: Seq<u8>) -> Seq<char>;

/// The bytes the URL-safe, unpadded base64 text `text` decodes to, as the base64
/// crate decodes it, or `None` where it refuses the text.
pub uninterp spec fn base64_url_decode(text: Seq<char>) -> Option<Seq<u8>>;

/// Calls `URL_SAFE_NO_PAD.encode`. Claimed: the text is the named encoding of
/// the bytes, and decoding it with the same engine gives the bytes back.
#[verifier::external_body]
fn url_safe_encode(bytes: &[u8]) -> (s: String)
    ensures
        s@ == base64_url_encode(bytes@),
        base64_url_decode(s@) == Some(bytes@),
{
    URL_SAFE_NO_PAD.encode(bytes)
}

/// Calls `URL_SAFE_NO_PAD.decode`. Claimed: the result is the named decoding of
/// the text (`None` for any decode error).
#[verifier::external_body]
fn url_safe_decode(text: &str) -> (r: Option<Vec<u8>>)
    ensures
        match r {
            Some(v) => base64_url_decode(text@) == Some(v@),
            None => base64_url_decode(text@) is None,
        },
{
    match URL_SAFE_NO_PAD.decode(text) {
        Ok(v) => Some(v),
        Err(_) => None,
    }
}

/// The peer id a directory name stands for: the name's base64 decoding, when
/// it is exactly 16 bytes.
pub open spec fn peer_from_name_spec(name: Seq<char>) -> Option<Seq<u8>> {
    match base64_url_decode(name) {
        Some(b) => if b.len() == 16 { Some(b) } else { None },
        None => None,
    }
}

/// The directory name of the peer `peer_id`.
pub fn peer_dir_name(peer_id: &[u8; 16]) -> (s: String)
    ensures
        s@ == base64_url_encode(peer_id@),
        peer_from_name_spec(s@) == Some(peer_id@),
{
    url_safe_encode(peer_id.as_slice())
}

/// The directory of the peer `peer_id` under `root`.
pub fn peer_dir(root: &str, peer_id: &[u8; 16]) -> (p: String)
    ensures
        p@ == joined(root@, base64_url_encode(peer_id@)),
{
    let name = peer_dir_name(peer_id);
    join_path(root, name.as_str())
}

/// The peer id a directory name stands for, if it is the base64 of 16 bytes.
pub fn peer_from_name(name: &str) -> (r: Option<[u8; 16]>)
    ensures
        match r {
            Some(a) => peer_from_name_spec(name@) == Some(a@),
            None => peer_from_name_spec(name@) is None,
        },
{
    match url_safe_decode(name) {
        Some(v) => {
            if v.len() == 16 {
                let a: [u8; 16] = [
                    v[0], v[1], v[2], v[3], v[4], v[5], v[6], v[7],
                    v[8], v[9], v[10], v[11], v[12], v[13], v[14], v[15],
                ];
                proof {
                    assert(a@ =~= v@);
                }
                Some(a)
            } else {
                None
            }
        },
        None => None,
    }
}

/// The peer ids of a directory listing, in listing order: one per entry that
/// is a directory whose name decodes to 16 bytes.
pub open spec fn peers_spec(entries: Seq<(String, bool)>) -> Seq<Seq<u8>>
    decreases entries.len(),
{
    if entries.len() == 0 {
        Seq::empty()
    } else {
        let rest = peers_spec(entries.drop_last());
        let (name, is_dir) = entries.last();
        match peer_from_name_spec(name@) {
            Some(id) => if is_dir { rest.push(id) } else { rest },
            None => rest,
        }
    }
}

/// The peer ids of a directory listing given as (name, is-directory) pairs.
pub fn peers_from_entries(entries: &Vec<(String, bool)>) -> (ids: Vec<[u8; 16]>)
    ensures
        ids@.map_values(|a: [u8; 16]| a@) == peers_spec(entries@),
{
    let mut ids: Vec<[u8; 16]> = Vec::new();
    let mut i: usize = 0;
    while i < entries.len()
        invariant
            i <= entries@.len(),
            ids@.map_values(|a: [u8; 16]| a@) == peers_spec(entries@.take(i as int)),
        decreases entries@.len() - i,
    {
        proof {
            assert(entries@.take(i as int + 1).drop_last() =~= entries@.take(i as int));
            assert(entries@.take(i as int + 1).last() == entries@[i as int]);
        }
        let ghost ids0 = ids@;
        if entries[i].1 {
            match peer_from_name(entries[i].0.as_str()) {
                Some(a) => {
                    ids.push(a);
                    proof {
                        assert(ids@.map_values(|a: [u8; 16]| a@) =~= ids0.map_values(
                            |a: [u8; 16]| a@,
                        ).push(a@));
                    }
                },
                None => {},
            }
        }
        i += 1;
    }
    proof {
        assert(entries@.take(entries@.len() as int) =~= entries@);
    }
    ids
}

/// A listing gives exactly the peers whose directories it holds: an id is
/// among them when some entry is a directory named for it, and only then;
/// files and names of other lengths or alphabets are passed over.
pub proof fn law_peers_listed(entries: Seq<(String, bool)>, id: Seq<u8>)
    ensures
        peers_spec(entries).contains(id) <==> exists|i: int| 0 <= i < entries.len() && (#[trigger] entries[i]).1
            && peer_from_name_spec(entries[i].0@) == Some(id),
        peers_spec(entries).len() <= entries.len(),
    decreases entries.len(),
{
    if entries.len() > 0 {
        let d = entries.drop_last();
        law_peers_listed(d, id);
        let rest = peers_spec(d);
        let (name, is_dir) = entries.last();
        if exists|i: int| 0 <= i < d.len() && (#[trigger] d[i]).1 && peer_from_name_spec(d[i].0@) == Some(id) {
            let i = choose|i: int| 0 <= i < d.len() && (#[trigger] d[i]).1 && peer_from_name_spec(d[i].0@) == Some(id);
            assert(entries[i] == d[i]);
        }
        if exists|i: int| 0 <= i < entries.len() && (#[trigger] entries[i]).1 && peer_from_name_spec(entries[i].0@) == Some(id) {
            let i = choose|i: int| 0 <= i < entries.len() && (#[trigger] entries[i]).1 && peer_from_name_spec(entries[i].0@) == Some(id);
            if i < d.len() {
                assert(d[i] == entries[i]);
            } else {
                assert(rest.push(id).contains(id)) by {
                    assert(rest.push(id)[rest.len() as int] == id);
                }
            }
        }
        match peer_from_name_spec(name@) {
            Some(x) => if is_dir {
                assert forall|y: Seq<u8>| rest.push(x).contains(y) <==> rest.contains(y) || y == x by {
                    if rest.push(x).contains(y) {
                        let k = choose|k: int| 0 <= k < rest.push(x).len() && rest.push(x)[k] == y;
                        if k < rest.len() {
                            assert(rest[k] == y);
                        }
                    }
                    if rest.contains(y) {
                        let k = choose|k: int| 0 <= k < rest.len() && rest[k] == y;
                        assert(rest.push(x)[k] == y);
                    }
                    if y == x {
                        assert(rest.push(x)[rest.len() as int] == y);
                    }
                }
            },
            None => {},
        }
    }
}

} // verus!
