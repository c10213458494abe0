//! Where the graph lives, and who a seat is.
//!
//! A command line and a pane that disagree about which directory they mean
//! are two graphs, and the disagreement is silent. So the rule is one
//! function, with the environment handed in.

use vstd::prelude::*;
use vstd::utf8::encode_utf8;
use crate::id::{be_bytes, parse_hex, WorkId};
use crate::text::{chars_of, push_str, string_of, trim, trim_bounds};

verus! {

/// A directory name with `claimdag` joined on, as a path join does it.
pub open spec fn joined(base: Seq<char>) -> Seq<char> {
    if base.len() > 0 && base.last() == '/' {
        base + "claimdag"@
    } else {
        base + "/claimdag"@
    }
}

/// Where the work graph lives: the directory asked for; else the named one
/// (`CLAIMDAG_DIR`) when it is not empty; else `claimdag` under the runtime
/// directory when that is not empty; else `/tmp/claimdag`. Never the current
/// directory.
pub open spec fn chosen_dir(explicit: Option<Seq<char>>, named: Option<Seq<char>>, runtime: Option<Seq<char>>) -> Seq<char> {
    match explicit {
        Some(d) => d,
        None => match named {
            Some(n) if n.len() > 0 => n,
            _ => match runtime {
                Some(r) if r.len() > 0 => joined(r),
                _ => "/tmp/claimdag"@,
            },
        },
    }
}

/// The spec value of an optional string.
pub open spec fn opt_view(o: Option<String>) -> Option<Seq<char>> {
    match o {
        Some(s) => Some(s@),
        None => None,
    }
}

/// The rule for where the graph lives, with the environment passed in.
pub fn dir_from(explicit: Option<String>, named: Option<String>, runtime: Option<String>) -> (r: String)
    ensures
        r@ == chosen_dir(opt_view(explicit), opt_view(named), opt_view(runtime)),
{
    if let Some(dir) = explicit {
        return dir;
    }
    if let Some(raw) = named {
        if !raw.as_str().is_empty() {
            return raw;
        }
    }
    let mut out = String::new();
    match runtime {
        Some(base) => {
            if !base.as_str().is_empty() {
                push_str(&mut out, base.as_str());
                let ends = ends_with_slash(base.as_str());
                if ends {
                    push_str(&mut out, "claimdag");
                } else {
                    push_str(&mut out, "/claimdag");
                }
                return out;
            }
            push_str(&mut out, "/tmp/claimdag");
            out
        },
        None => {
            push_str(&mut out, "/tmp/claimdag");
            out
        },
    }
}

/// Whether a string ends in `/`.
fn ends_with_slash(s: &str) -> (r: bool)
    ensures
        r == (s@.len() > 0 && s@.last() == '/'),
{
    let cs = crate::text::chars_of(s);
    cs.len() > 0 && cs[cs.len() - 1] == '/'
}

/// The name for what `sha2::Sha256::digest` returns for these bytes.
pub uninterp spec fn spec_sha256(data: Seq<u8>) -> Seq<u8>;

/// `sha2::Sha256::digest`: the SHA-256 digest of the bytes, 32 bytes long.
#[verifier::external_body]
fn sha256(data: &[u8]) -> (r: Vec<u8>)
    ensures
        r@ == spec_sha256(data@),
        r@.len() == 32,
{
    <sha2::Sha256 as sha2::Digest>::digest(data).to_vec()
}

proof fn lemma_be64_split(x: u64, b0: u8, b1: u8, b2: u8, b3: u8, b4: u8, b5: u8, b6: u8, b7: u8)
    by (bit_vector)
    requires
        x == ((b0 as u64) << 56u64) | ((b1 as u64) << 48u64) | ((b2 as u64) << 40u64) | ((b3 as u64) << 32u64)
            | ((b4 as u64) << 24u64) | ((b5 as u64) << 16u64) | ((b6 as u64) << 8u64) | (b7 as u64),
    ensures
        ((x >> 56u64) & 0xff) as u8 == b0,
        ((x >> 48u64) & 0xff) as u8 == b1,
        ((x >> 40u64) & 0xff) as u8 == b2,
        ((x >> 32u64) & 0xff) as u8 == b3,
        ((x >> 24u64) & 0xff) as u8 == b4,
        ((x >> 16u64) & 0xff) as u8 == b5,
        ((x >> 8u64) & 0xff) as u8 == b6,
        ((x >> 0u64) & 0xff) as u8 == b7,
{
}

/// The big-endian `u64` in the eight bytes from `p`.
fn be_u64(b: &Vec<u8>, p: usize) -> (x: u64)
    requires
        p + 8 <= b@.len(),
    ensures
        be_bytes(x) == b@.subrange(p as int, p + 8),
{
    let n = b.len();
    assert(p + 8 <= n);
    let b0 = b[p];
    let b1 = b[p + 1];
    let b2 = b[p + 2];
    let b3 = b[p + 3];
    let b4 = b[p + 4];
    let b5 = b[p + 5];
    let b6 = b[p + 6];
    let b7 = b[p + 7];
    let x: u64 = ((b0 as u64) << 56u64) | ((b1 as u64) << 48u64) | ((b2 as u64) << 40u64) | ((b3 as u64) << 32u64)
        | ((b4 as u64) << 24u64) | ((b5 as u64) << 16u64) | ((b6 as u64) << 8u64) | (b7 as u64);
    proof {
        lemma_be64_split(x, b0, b1, b2, b3, b4, b5, b6, b7);
        assert(be_bytes(x)[0] == ((x >> 56u64) & 0xff) as u8);
        assert(be_bytes(x)[1] == ((x >> 48u64) & 0xff) as u8);
        assert(be_bytes(x)[2] == ((x >> 40u64) & 0xff) as u8);
        assert(be_bytes(x)[3] == ((x >> 32u64) & 0xff) as u8);
        assert(be_bytes(x)[4] == ((x >> 24u64) & 0xff) as u8);
        assert(be_bytes(x)[5] == ((x >> 16u64) & 0xff) as u8);
        assert(be_bytes(x)[6] == ((x >> 8u64) & 0xff) as u8);
        assert(be_bytes(x)[7] == ((x >> 0u64) & 0xff) as u8);
        assert(be_bytes(x) =~= b@.subrange(p as int, p + 8));
    }
    x
}

/// The actor a seat derives from its user and host: the leading half of the
/// SHA-256 of `user@host`, as an id.
pub open spec fn derived(user: Seq<char>, host: Seq<char>) -> WorkId {
    let d = spec_sha256(encode_utf8(user + "@"@ + host));
    WorkId { hi: choose|x: u64| be_bytes(x) == d.subrange(0, 8), lo: choose|x: u64| be_bytes(x) == d.subrange(8, 16) }
}

/// The actor a seat derives from its user and host, the same across restarts.
pub fn derive(user: &str, host: &str) -> (r: WorkId)
    ensures
        be_bytes(r.hi) + be_bytes(r.lo) == spec_sha256(encode_utf8(user@ + "@"@ + host@)).take(16),
        r == derived(user@, host@),
{
    let mut text = String::new();
    push_str(&mut text, user);
    push_str(&mut text, "@");
    push_str(&mut text, host);
    let d = sha256(text.as_str().as_bytes());
    let hi = be_u64(&d, 0);
    let lo = be_u64(&d, 8);
    proof {
        assert(be_bytes(hi) + be_bytes(lo) =~= d@.take(16));
        let h2 = choose|x: u64| be_bytes(x) == d@.subrange(0, 8);
        let l2 = choose|x: u64| be_bytes(x) == d@.subrange(8, 16);
        lemma_be64_unique(h2, hi);
        lemma_be64_unique(l2, lo);
    }
    WorkId { hi, lo }
}

/// The user a seat is, when the environment does not say.
pub open spec fn user_or_default(user: Option<Seq<char>>) -> Seq<char> {
    match user {
        Some(u) => u,
        None => "actor"@,
    }
}

/// The actor a seat writes as: the id `named` gives (`CLAIMDAG_ACTOR`), when
/// it is 32 hex characters, else the one derived from user and host.
pub open spec fn chosen_actor(named: Seq<char>, user: Option<Seq<char>>, host: Seq<char>) -> WorkId {
    match parse_hex(named) {
        Some(id) => id,
        None => derived(user_or_default(user), host),
    }
}

/// The actor a seat writes as, with the environment and host name passed in.
pub fn actor_from(named: &str, user: Option<String>, host: &str) -> (r: WorkId)
    ensures
        r == chosen_actor(named@, opt_view(user), host@),
{
    if let Some(id) = WorkId::from_hex(named) {
        return id;
    }
    match user {
        Some(u) => derive(u.as_str(), host),
        None => derive("actor", host),
    }
}

/// A machine's name as the kernel reported it: trimmed, and `localhost`
/// when there was nothing to read or nothing but white space.
pub open spec fn host_or_default(raw: Option<Seq<char>>) -> Seq<char> {
    match raw {
        Some(r) if trim(r).len() > 0 => trim(r),
        _ => "localhost"@,
    }
}

/// This machine's name, from what the kernel reported.
pub fn host_name(raw: Option<String>) -> (r: String)
    ensures
        r@ == host_or_default(opt_view(raw)),
{
    match raw {
        Some(text) => {
            let cs = chars_of(text.as_str());
            let (a, b) = trim_bounds(cs.as_slice());
            if a < b {
                string_of(&cs.as_slice()[a..b])
            } else {
                String::from_str("localhost")
            }
        },
        None => String::from_str("localhost"),
    }
}

proof fn lemma_be64_same(x: u64, y: u64)
    by (bit_vector)
    requires
        ((x >> 56u64) & 0xff) as u8 == ((y >> 56u64) & 0xff) as u8,
        ((x >> 48u64) & 0xff) as u8 == ((y >> 48u64) & 0xff) as u8,
        ((x >> 40u64) & 0xff) as u8 == ((y >> 40u64) & 0xff) as u8,
        ((x >> 32u64) & 0xff) as u8 == ((y >> 32u64) & 0xff) as u8,
        ((x >> 24u64) & 0xff) as u8 == ((y >> 24u64) & 0xff) as u8,
        ((x >> 16u64) & 0xff) as u8 == ((y >> 16u64) & 0xff) as u8,
        ((x >> 8u64) & 0xff) as u8 == ((y >> 8u64) & 0xff) as u8,
        ((x >> 0u64) & 0xff) as u8 == ((y >> 0u64) & 0xff) as u8,
    ensures
        x == y,
{
}

proof fn lemma_be64_unique(x: u64, y: u64)
    requires
        be_bytes(x) == be_bytes(y),
    ensures
        x == y,
{
    assert(be_bytes(x)[0] == ((x >> 56u64) & 0xff) as u8 && be_bytes(y)[0] == ((y >> 56u64) & 0xff) as u8);
    assert(be_bytes(x)[1] == ((x >> 48u64) & 0xff) as u8 && be_bytes(y)[1] == ((y >> 48u64) & 0xff) as u8);
    assert(be_bytes(x)[2] == ((x >> 40u64) & 0xff) as u8 && be_bytes(y)[2] == ((y >> 40u64) & 0xff) as u8);
    assert(be_bytes(x)[3] == ((x >> 32u64) & 0xff) as u8 && be_bytes(y)[3] == ((y >> 32u64) & 0xff) as u8);
    assert(be_bytes(x)[4] == ((x >> 24u64) & 0xff) as u8 && be_bytes(y)[4] == ((y >> 24u64) & 0xff) as u8);
    assert(be_bytes(x)[5] == ((x >> 16u64) & 0xff) as u8 && be_bytes(y)[5] == ((y >> 16u64) & 0xff) as u8);
    assert(be_bytes(x)[6] == ((x >> 8u64) & 0xff) as u8 && be_bytes(y)[6] == ((y >> 8u64) & 0xff) as u8);
    assert(be_bytes(x)[7] == ((x >> 0u64) & 0xff) as u8 && be_bytes(y)[7] == ((y >> 0u64) & 0xff) as u8);
    lemma_be64_same(x, y);
}

} // verus!
