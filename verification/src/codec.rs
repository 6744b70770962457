//! Key codec: byte comparison, timestamp-hash composition and primary keys.
//!
//! The 24-byte `ts_hash` is big-endian `timestamp(4) || hash(20)`, so that
//! lexicographic byte order coincides with `(timestamp, hash)` order. A
//! primary key is `fid_be(4) || postfix(1) || ts_hash(24)`.

use vstd::prelude::*;

use crate::HubError;
use crate::TS_HASH_LENGTH;

verus! {

/// Lexicographic order on byte sequences: -1, 0 or 1.
pub open spec fn bytes_cmp_spec(a: Seq<u8>, b: Seq<u8>) -> int
    decreases a.len(),
{
    if a.len() == 0 && b.len() == 0 {
        0
    } else if a.len() == 0 {
        -1
    } else if b.len() == 0 {
        1
    } else if a[0] < b[0] {
        -1
    } else if a[0] > b[0] {
        1
    } else {
        bytes_cmp_spec(a.skip(1), b.skip(1))
    }
}

/// Compares two byte slices lexicographically, shorter prefixes first.
pub fn bytes_compare(a: &[u8], b: &[u8]) -> (r: i8)
    ensures
        r as int == bytes_cmp_spec(a@, b@),
{
    let mut i: usize = 0;
    proof {
        assert(a@.skip(0) =~= a@);
        assert(b@.skip(0) =~= b@);
    }
    loop
        invariant
            i <= a@.len(),
            i <= b@.len(),
            bytes_cmp_spec(a@, b@) == bytes_cmp_spec(a@.skip(i as int), b@.skip(i as int)),
        decreases a@.len() - i,
    {
        if i >= a.len() && i >= b.len() {
            return 0;
        }
        if i >= a.len() {
            return -1;
        }
        if i >= b.len() {
            return 1;
        }
        let x = a[i];
        let y = b[i];
        proof {
            assert(a@.skip(i as int)[0] == a@[i as int]);
            assert(b@.skip(i as int)[0] == b@[i as int]);
        }
        if x < y {
            return -1;
        }
        if x > y {
            return 1;
        }
        proof {
            assert(a@.skip(i as int).skip(1) =~= a@.skip(i as int + 1));
            assert(b@.skip(i as int).skip(1) =~= b@.skip(i as int + 1));
        }
        i = i + 1;
    }
}

/// Equality: two byte sequences compare as 0 exactly when they are equal.
pub proof fn lemma_cmp_eq(a: Seq<u8>, b: Seq<u8>)
    ensures
        (bytes_cmp_spec(a, b) == 0) <==> (a == b),
    decreases a.len(),
{
    if a.len() == 0 && b.len() == 0 {
        assert(a =~= b);
    } else if a.len() == 0 || b.len() == 0 {
        assert(a.len() != b.len());
    } else if a[0] != b[0] {
    } else {
        lemma_cmp_eq(a.skip(1), b.skip(1));
        if bytes_cmp_spec(a, b) == 0 {
            assert(a.skip(1) =~= b.skip(1));
            assert(a =~= b) by {
                assert(forall|i: int|
                    1 <= i < a.len() ==> a[i] == a.skip(1)[i - 1] && b[i] == b.skip(1)[i - 1]);
            }
        }
        if a == b {
            assert(a.skip(1) =~= b.skip(1));
        }
    }
}

/// Antisymmetry: swapping the arguments negates the comparison.
pub proof fn lemma_cmp_antisym(a: Seq<u8>, b: Seq<u8>)
    ensures
        bytes_cmp_spec(b, a) == -bytes_cmp_spec(a, b),
    decreases a.len(),
{
    if a.len() == 0 && b.len() == 0 {
    } else if a.len() == 0 || b.len() == 0 {
    } else if a[0] != b[0] {
    } else {
        lemma_cmp_antisym(a.skip(1), b.skip(1));
    }
}

/// Transitivity of the strict lexicographic order.
pub proof fn lemma_cmp_trans(a: Seq<u8>, b: Seq<u8>, c: Seq<u8>)
    requires
        bytes_cmp_spec(a, b) < 0,
        bytes_cmp_spec(b, c) < 0,
    ensures
        bytes_cmp_spec(a, c) < 0,
    decreases a.len(),
{
    if a.len() == 0 {
    } else if b.len() == 0 || c.len() == 0 {
    } else if a[0] == b[0] && b[0] == c[0] {
        lemma_cmp_trans(a.skip(1), b.skip(1), c.skip(1));
    }
}

/// `p` is a prefix of `k`.
pub open spec fn has_prefix(k: Seq<u8>, p: Seq<u8>) -> bool {
    p.len() <= k.len() && k.take(p.len() as int) == p
}

/// Tests whether `k` starts with the bytes of `p`.
pub fn starts_with(k: &Vec<u8>, p: &Vec<u8>) -> (r: bool)
    ensures
        r == has_prefix(k@, p@),
{
    if p.len() > k.len() {
        proof {
            assert(!has_prefix(k@, p@));
        }
        return false;
    }
    let mut i: usize = 0;
    while i < p.len()
        invariant
            i <= p@.len(),
            p@.len() <= k@.len(),
            forall|j: int| 0 <= j < i ==> k@[j] == p@[j],
        decreases p@.len() - i,
    {
        if k[i] != p[i] {
            proof {
                assert(k@.take(p@.len() as int)[i as int] == k@[i as int]);
            }
            return false;
        }
        i = i + 1;
    }
    proof {
        assert(k@.take(p@.len() as int) =~= p@);
    }
    true
}

/// Copies a byte vector.
pub fn copy_bytes(v: &Vec<u8>) -> (r: Vec<u8>)
    ensures
        r@ == v@,
{
    let mut out: Vec<u8> = Vec::new();
    let mut i: usize = 0;
    while i < v.len()
        invariant
            i <= v@.len(),
            out@ == v@.take(i as int),
        decreases v@.len() - i,
    {
        out.push(v[i]);
        proof {
            assert(v@.take(i as int).push(v@[i as int]) =~= v@.take(i as int + 1));
        }
        i = i + 1;
    }
    proof {
        assert(v@.take(v@.len() as int) =~= v@);
    }
    out
}

/// The four big-endian bytes of a `u32`.
pub open spec fn u32_be_spec(x: u32) -> Seq<u8> {
    seq![
        (x / 0x1000000) as u8,
        ((x / 0x10000) % 0x100) as u8,
        ((x / 0x100) % 0x100) as u8,
        (x % 0x100) as u8,
    ]
}

/// Writes the big-endian bytes of `x` onto the end of `out`.
pub fn push_u32_be(out: &mut Vec<u8>, x: u32)
    ensures
        final(out)@ == old(out)@ + u32_be_spec(x),
{
    let b0 = (x >> 24) as u8;
    let b1 = (x >> 16) as u8;
    let b2 = (x >> 8) as u8;
    let b3 = x as u8;
    proof {
        assert(b0 == (x / 0x1000000) as u8 && b1 == ((x / 0x10000) % 0x100) as u8 && b2 == ((x
            / 0x100) % 0x100) as u8 && b3 == (x % 0x100) as u8) by (bit_vector)
            requires
                b0 == (x >> 24) as u8 && b1 == (x >> 16) as u8 && b2 == (x >> 8) as u8 && b3
                    == x as u8,
        ;
    }
    out.push(b0);
    out.push(b1);
    out.push(b2);
    out.push(b3);
    proof {
        assert(out@ =~= old(out)@ + u32_be_spec(x));
    }
}

/// The `u32` read back from four big-endian bytes.
pub open spec fn u32_of_be_spec(b: Seq<u8>) -> u32 {
    (((b[0] as u32) << 24) | ((b[1] as u32) << 16) | ((b[2] as u32) << 8) | (b[3] as u32)) as u32
}

/// Writing a `u32` big-endian and reading it back yields the same value.
pub proof fn lemma_u32_be_roundtrip(x: u32)
    ensures
        u32_of_be_spec(u32_be_spec(x)) == x,
{
    let b0 = (x >> 24) as u8;
    let b1 = (x >> 16) as u8;
    let b2 = (x >> 8) as u8;
    let b3 = x as u8;
    assert((((b0 as u32) << 24) | ((b1 as u32) << 16) | ((b2 as u32) << 8) | (b3 as u32)) as u32
        == x) by (bit_vector)
        requires
            b0 == (x >> 24) as u8 && b1 == (x >> 16) as u8 && b2 == (x >> 8) as u8 && b3
                == x as u8,
    ;
    assert(b0 == (x / 0x1000000) as u8 && b1 == ((x / 0x10000) % 0x100) as u8 && b2 == ((x / 0x100)
        % 0x100) as u8 && b3 == (x % 0x100) as u8) by (bit_vector)
        requires
            b0 == (x >> 24) as u8 && b1 == (x >> 16) as u8 && b2 == (x >> 8) as u8 && b3
                == x as u8,
    ;
}

/// Reads a big-endian `u32` at position `pos`.
pub fn read_u32_be(b: &Vec<u8>, pos: usize) -> (r: u32)
    requires
        pos + 4 <= b@.len(),
    ensures
        r == u32_of_be_spec(b@.subrange(pos as int, pos as int + 4)),
{
    let n = b.len();
    assert(pos + 4 <= n);
    let r = ((b[pos] as u32) << 24) | ((b[pos + 1] as u32) << 16) | ((b[pos + 2] as u32) << 8) | (
    b[pos + 3] as u32);
    proof {
        let s = b@.subrange(pos as int, pos as int + 4);
        assert(s[0] == b@[pos as int] && s[1] == b@[pos as int + 1] && s[2] == b@[pos as int + 2]
            && s[3] == b@[pos as int + 3]);
    }
    r
}

/// The eight big-endian bytes of a `u64`.
pub open spec fn u64_be_spec(x: u64) -> Seq<u8> {
    seq![
        (x >> 56) as u8,
        (x >> 48) as u8,
        (x >> 40) as u8,
        (x >> 32) as u8,
        (x >> 24) as u8,
        (x >> 16) as u8,
        (x >> 8) as u8,
        x as u8,
    ]
}

/// The `u64` read back from eight big-endian bytes.
pub open spec fn u64_of_be_spec(b: Seq<u8>) -> u64 {
    (((b[0] as u64) << 56) | ((b[1] as u64) << 48) | ((b[2] as u64) << 40) | ((b[3] as u64) << 32)
        | ((b[4] as u64) << 24) | ((b[5] as u64) << 16) | ((b[6] as u64) << 8) | (
    b[7] as u64)) as u64
}

/// Writing a `u64` big-endian and reading it back yields the same value.
pub proof fn lemma_u64_be_roundtrip(x: u64)
    ensures
        u64_of_be_spec(u64_be_spec(x)) == x,
{
    let b0 = (x >> 56) as u8;
    let b1 = (x >> 48) as u8;
    let b2 = (x >> 40) as u8;
    let b3 = (x >> 32) as u8;
    let b4 = (x >> 24) as u8;
    let b5 = (x >> 16) as u8;
    let b6 = (x >> 8) as u8;
    let b7 = x as u8;
    assert((((b0 as u64) << 56) | ((b1 as u64) << 48) | ((b2 as u64) << 40) | ((b3 as u64) << 32)
        | ((b4 as u64) << 24) | ((b5 as u64) << 16) | ((b6 as u64) << 8) | (b7 as u64)) as u64
        == x) by (bit_vector)
        requires
            b0 == (x >> 56) as u8 && b1 == (x >> 48) as u8 && b2 == (x >> 40) as u8 && b3 == (x
                >> 32) as u8 && b4 == (x >> 24) as u8 && b5 == (x >> 16) as u8 && b6 == (x
                >> 8) as u8 && b7 == x as u8,
    ;
}

/// Writes the big-endian bytes of `x` onto the end of `out`.
pub fn push_u64_be(out: &mut Vec<u8>, x: u64)
    ensures
        final(out)@ == old(out)@ + u64_be_spec(x),
{
    out.push((x >> 56) as u8);
    out.push((x >> 48) as u8);
    out.push((x >> 40) as u8);
    out.push((x >> 32) as u8);
    out.push((x >> 24) as u8);
    out.push((x >> 16) as u8);
    out.push((x >> 8) as u8);
    out.push(x as u8);
    proof {
        assert(out@ =~= old(out)@ + u64_be_spec(x));
    }
}

/// Reads a big-endian `u64` at position `pos`.
pub fn read_u64_be(b: &Vec<u8>, pos: usize) -> (r: u64)
    requires
        pos + 8 <= b@.len(),
    ensures
        r == u64_of_be_spec(b@.subrange(pos as int, pos as int + 8)),
{
    let n = b.len();
    assert(pos + 8 <= n);
    let r = ((b[pos] as u64) << 56) | ((b[pos + 1] as u64) << 48) | ((b[pos + 2] as u64) << 40) | (
    (b[pos + 3] as u64) << 32) | ((b[pos + 4] as u64) << 24) | ((b[pos + 5] as u64) << 16) | ((b[pos
        + 6] as u64) << 8) | (b[pos + 7] as u64);
    proof {
        let s = b@.subrange(pos as int, pos as int + 8);
        assert(s[0] == b@[pos as int] && s[1] == b@[pos as int + 1] && s[2] == b@[pos as int + 2]
            && s[3] == b@[pos as int + 3] && s[4] == b@[pos as int + 4] && s[5] == b@[pos as int
            + 5] && s[6] == b@[pos as int + 6] && s[7] == b@[pos as int + 7]);
    }
    r
}

/// The `ts_hash` of a timestamp and a 20-byte content hash.
pub open spec fn ts_hash_spec(timestamp: u32, hash: Seq<u8>) -> Seq<u8> {
    u32_be_spec(timestamp) + hash
}

/// Composes the 24-byte `ts_hash`: big-endian `timestamp(4) || hash(20)`.
/// Rejects with `bad_request.invalid_param` when the hash is not 20 bytes.
pub fn make_ts_hash(timestamp: u32, hash: &Vec<u8>) -> (r: Result<Vec<u8>, HubError>)
    ensures
        match r {
            Ok(th) => hash@.len() == 20 && th@ == ts_hash_spec(timestamp, hash@) && th@.len()
                == TS_HASH_LENGTH,
            Err(e) => hash@.len() != 20 && e.code@ == "bad_request.invalid_param"@,
        },
{
    if hash.len() != 20 {
        return Err(
            HubError {
                code: "bad_request.invalid_param".to_string(),
                message: "hash must be 20 bytes".to_string(),
            },
        );
    }
    let mut out: Vec<u8> = Vec::new();
    push_u32_be(&mut out, timestamp);
    let mut i: usize = 0;
    while i < hash.len()
        invariant
            i <= hash@.len(),
            out@ == u32_be_spec(timestamp) + hash@.take(i as int),
        decreases hash@.len() - i,
    {
        out.push(hash[i]);
        proof {
            assert(hash@.take(i as int).push(hash@[i as int]) =~= hash@.take(i as int + 1));
        }
        i = i + 1;
    }
    proof {
        assert(hash@.take(hash@.len() as int) =~= hash@);
    }
    Ok(out)
}

/// The primary key of a message: `fid_be(4) || postfix(1) || ts_hash(24)`.
pub open spec fn primary_key_spec(fid: u32, postfix: u8, ts_hash: Seq<u8>) -> Seq<u8> {
    u32_be_spec(fid) + seq![postfix] + ts_hash
}

/// Builds a primary key, or with `ts_hash` absent the 5-byte prefix under
/// which all of a set's messages sort in ascending `(timestamp, hash)` order.
pub fn make_message_primary_key(fid: u32, postfix: u8, ts_hash: Option<&Vec<u8>>) -> (r: Vec<u8>)
    ensures
        match ts_hash {
            Some(th) => r@ == primary_key_spec(fid, postfix, th@),
            None => r@ == u32_be_spec(fid) + seq![postfix],
        },
{
    let mut out: Vec<u8> = Vec::new();
    push_u32_be(&mut out, fid);
    out.push(postfix);
    match ts_hash {
        Some(th) => {
            let mut i: usize = 0;
            while i < th.len()
                invariant
                    i <= th@.len(),
                    out@ == u32_be_spec(fid) + seq![postfix] + th@.take(i as int),
                decreases th@.len() - i,
            {
                out.push(th[i]);
                proof {
                    assert(th@.take(i as int).push(th@[i as int]) =~= th@.take(i as int + 1));
                }
                i = i + 1;
            }
            proof {
                assert(th@.take(th@.len() as int) =~= th@);
                assert(out@ =~= primary_key_spec(fid, postfix, th@));
            }
            out
        },
        None => {
            proof {
                assert(out@ =~= u32_be_spec(fid) + seq![postfix]);
            }
            out
        },
    }
}

} // verus!
