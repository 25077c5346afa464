//! The persisted snapshot file: a versioned header, a SHA-256 checksum over
//! the records section, and the records as length-prefixed byte strings.
//!
//! Layout (integers little-endian):
//! `version: u32 | created_at_ms: u64 | record_count: u64 | checksum: 64 hex
//! digits | records`, where each record is `length: u64 | bytes`.
use vstd::prelude::*;

verus! {

/// The file format version written by this library.
pub const FORMAT_VERSION: u32 = 1;

/// Length of the fixed header in bytes.
pub const HEADER_LEN: usize = 84;

/// The SHA-256 digest of `data`.
pub uninterp spec fn sha256_of(data: Seq<u8>) -> Seq<u8>;

/// Relies on `sha2::Sha256::digest`: the 32-byte SHA-256 digest of the input,
/// a function of the bytes alone.
#[verifier::external_body]
fn sha256(data: &[u8]) -> (r: Vec<u8>)
    ensures
        r@ == sha256_of(data@),
        r@.len() == 32,
{
    <sha2::Sha256 as sha2::Digest>::digest(data).to_vec()
}

/// The lowercase ASCII hex digit for `n < 16`.
pub open spec fn hex_digit(n: u8) -> u8 {
    if n < 10 {
        (n + 48) as u8
    } else {
        (n + 87) as u8
    }
}

/// Two lowercase hex digits per byte, most significant first.
pub open spec fn hex_ascii(b: Seq<u8>) -> Seq<u8>
    decreases b.len(),
{
    if b.len() == 0 {
        Seq::empty()
    } else {
        hex_ascii(b.drop_last()) + seq![hex_digit(b.last() / 16), hex_digit(b.last() % 16)]
    }
}

proof fn lemma_hex_len(b: Seq<u8>)
    ensures
        hex_ascii(b).len() == 2 * b.len(),
    decreases b.len(),
{
    if b.len() > 0 {
        lemma_hex_len(b.drop_last());
    }
}

fn hex_encode(b: &Vec<u8>) -> (r: Vec<u8>)
    ensures
        r@ == hex_ascii(b@),
{
    let mut out: Vec<u8> = Vec::new();
    let mut i: usize = 0;
    while i < b.len()
        invariant
            i <= b@.len(),
            out@ == hex_ascii(b@.subrange(0, i as int)),
        decreases b@.len() - i,
    {
        proof {
            assert(b@.subrange(0, i + 1).drop_last() =~= b@.subrange(0, i as int));
        }
        let x = b[i];
        let hi = x / 16;
        let lo = x % 16;
        out.push(if hi < 10 { hi + 48 } else { hi + 87 });
        out.push(if lo < 10 { lo + 48 } else { lo + 87 });
        proof {
            assert(out@ =~= hex_ascii(b@.subrange(0, i as int)) + seq![hex_digit(hi), hex_digit(lo)]);
        }
        i = i + 1;
    }
    assert(b@.subrange(0, b@.len() as int) =~= b@);
    out
}

/// `x` as 8 little-endian bytes.
pub open spec fn le64(x: u64) -> Seq<u8> {
    seq![
        x as u8,
        (x >> 8) as u8,
        (x >> 16) as u8,
        (x >> 24) as u8,
        (x >> 32) as u8,
        (x >> 40) as u8,
        (x >> 48) as u8,
        (x >> 56) as u8,
    ]
}

/// The integer of 8 little-endian bytes starting at `i`.
pub open spec fn read_le64(s: Seq<u8>, i: int) -> u64 {
    (s[i] as u64) | ((s[i + 1] as u64) << 8) | ((s[i + 2] as u64) << 16) | ((s[i + 3] as u64) << 24) | ((
    s[i + 4] as u64) << 32) | ((s[i + 5] as u64) << 40) | ((s[i + 6] as u64) << 48) | ((s[i + 7] as u64)
        << 56)
}

/// `x` as 4 little-endian bytes.
pub open spec fn le32(x: u32) -> Seq<u8> {
    seq![x as u8, (x >> 8) as u8, (x >> 16) as u8, (x >> 24) as u8]
}

/// The integer of 4 little-endian bytes starting at `i`.
pub open spec fn read_le32(s: Seq<u8>, i: int) -> u32 {
    (s[i] as u32) | ((s[i + 1] as u32) << 8) | ((s[i + 2] as u32) << 16) | ((s[i + 3] as u32) << 24)
}

proof fn lemma_le64_round_trip(x: u64, s: Seq<u8>, i: int)
    requires
        0 <= i,
        i + 8 <= s.len(),
        s.subrange(i, i + 8) == le64(x),
    ensures
        read_le64(s, i) == x,
{
    assert(s[i] == s.subrange(i, i + 8)[0]);
    assert(s[i + 1] == s.subrange(i, i + 8)[1]);
    assert(s[i + 2] == s.subrange(i, i + 8)[2]);
    assert(s[i + 3] == s.subrange(i, i + 8)[3]);
    assert(s[i + 4] == s.subrange(i, i + 8)[4]);
    assert(s[i + 5] == s.subrange(i, i + 8)[5]);
    assert(s[i + 6] == s.subrange(i, i + 8)[6]);
    assert(s[i + 7] == s.subrange(i, i + 8)[7]);
    assert(((x as u8) as u64) | ((((x >> 8) as u8) as u64) << 8) | ((((x >> 16) as u8) as u64) << 16) | ((((x
        >> 24) as u8) as u64) << 24) | ((((x >> 32) as u8) as u64) << 32) | ((((x >> 40) as u8) as u64) << 40)
        | ((((x >> 48) as u8) as u64) << 48) | ((((x >> 56) as u8) as u64) << 56) == x) by (bit_vector);
}

proof fn lemma_le32_round_trip(x: u32, s: Seq<u8>, i: int)
    requires
        0 <= i,
        i + 4 <= s.len(),
        s.subrange(i, i + 4) == le32(x),
    ensures
        read_le32(s, i) == x,
{
    assert(s[i] == s.subrange(i, i + 4)[0]);
    assert(s[i + 1] == s.subrange(i, i + 4)[1]);
    assert(s[i + 2] == s.subrange(i, i + 4)[2]);
    assert(s[i + 3] == s.subrange(i, i + 4)[3]);
    assert(((x as u8) as u32) | ((((x >> 8) as u8) as u32) << 8) | ((((x >> 16) as u8) as u32) << 16) | ((((x
        >> 24) as u8) as u32) << 24) == x) by (bit_vector);
}

fn push_le64(out: &mut Vec<u8>, x: u64)
    ensures
        final(out)@ == old(out)@ + le64(x),
{
    out.push(x as u8);
    out.push((x >> 8) as u8);
    out.push((x >> 16) as u8);
    out.push((x >> 24) as u8);
    out.push((x >> 32) as u8);
    out.push((x >> 40) as u8);
    out.push((x >> 48) as u8);
    out.push((x >> 56) as u8);
    assert(final(out)@ =~= old(out)@ + le64(x));
}

fn get_le64(s: &Vec<u8>, i: usize) -> (r: u64)
    requires
        i + 8 <= s@.len(),
    ensures
        r == read_le64(s@, i as int),
{
    let _n = s.len();
    (s[i] as u64) | ((s[i + 1] as u64) << 8) | ((s[i + 2] as u64) << 16) | ((s[i + 3] as u64) << 24) | ((
    s[i + 4] as u64) << 32) | ((s[i + 5] as u64) << 40) | ((s[i + 6] as u64) << 48) | ((s[i + 7] as u64)
        << 56)
}

/// The records section: each record as its length then its bytes.
pub open spec fn frames(recs: Seq<Seq<u8>>) -> Seq<u8>
    decreases recs.len(),
{
    if recs.len() == 0 {
        Seq::empty()
    } else {
        le64(recs[0].len() as u64) + recs[0] + frames(recs.drop_first())
    }
}

proof fn lemma_frames_push(recs: Seq<Seq<u8>>, r: Seq<u8>)
    ensures
        frames(recs.push(r)) =~= frames(recs) + le64(r.len() as u64) + r,
    decreases recs.len(),
{
    let q = recs.push(r);
    if recs.len() > 0 {
        assert(q.drop_first() =~= recs.drop_first().push(r));
        lemma_frames_push(recs.drop_first(), r);
        assert(q[0] == recs[0]);
        assert(frames(q) == le64(recs[0].len() as u64) + recs[0] + frames(q.drop_first()));
        assert(frames(recs) == le64(recs[0].len() as u64) + recs[0] + frames(recs.drop_first()));
    } else {
        assert(q.drop_first() =~= Seq::<Seq<u8>>::empty());
        assert(q[0] == r);
        assert(frames(q) == le64(r.len() as u64) + r + frames(q.drop_first()));
        assert(frames(recs) =~= Seq::<u8>::empty());
    }
}

/// Reading the records section back from offset `p.len()` of `p + frames(recs)`
/// gives `recs`, when each record's length fits in 64 bits.
#[verifier::rlimit(100)]
proof fn lemma_parse_frames_round_trip(p: Seq<u8>, recs: Seq<Seq<u8>>)
    requires
        forall|k: int| 0 <= k < recs.len() ==> (#[trigger] recs[k]).len() <= u64::MAX,
    ensures
        parse_frames(p + frames(recs), p.len() as int) == Some(recs),
    decreases recs.len(),
{
    let s = p + frames(recs);
    let i = p.len() as int;
    if recs.len() == 0 {
        assert(s =~= p);
        assert(recs =~= Seq::<Seq<u8>>::empty());
    } else {
        let r0 = recs[0];
        let n = r0.len() as u64;
        let rest = recs.drop_first();
        let p2 = p + le64(n) + r0;
        assert(s =~= p2 + frames(rest));
        assert(s.subrange(i, i + 8) =~= le64(n));
        lemma_le64_round_trip(n, s, i);
        assert forall|k: int| 0 <= k < rest.len() implies (#[trigger] rest[k]).len() <= u64::MAX by {
            assert(rest[k] == recs[k + 1]);
        }
        lemma_parse_frames_round_trip(p2, rest);
        assert(p2.len() == i + 8 + n);
        assert(s.subrange(i + 8, i + 8 + n) =~= r0);
        assert(seq![r0] + rest =~= recs);
        assert(parse_frames(s, i) == Some(seq![s.subrange(i + 8, i + 8 + n)] + rest));
    }
}

/// The records of a records section read from offset `i`, or none where it is
/// malformed (a length runs past the end).
pub open spec fn parse_frames(s: Seq<u8>, i: int) -> Option<Seq<Seq<u8>>>
    decreases s.len() - i,
{
    if i < 0 || i >= s.len() {
        Some(Seq::empty())
    } else if s.len() - i < 8 {
        None
    } else {
        let n = read_le64(s, i);
        if s.len() - i - 8 < n {
            None
        } else {
            match parse_frames(s, i + 8 + n) {
                Some(rest) => Some(seq![s.subrange(i + 8, i + 8 + n)] + rest),
                None => None,
            }
        }
    }
}

/// The bytes of a file holding `recs`, created at `created_at_ms`.
pub open spec fn file_bytes(created_at_ms: u64, recs: Seq<Seq<u8>>) -> Seq<u8> {
    le32(FORMAT_VERSION) + le64(created_at_ms) + le64(recs.len() as u64) + hex_ascii(sha256_of(frames(recs)))
        + frames(recs)
}

/// Why a persisted file was not loaded.
#[derive(Debug, Clone, Copy, PartialEq, Eq, Structural)]
pub enum LoadError {
    /// The bytes are not a snapshot file.
    Corrupt,
    /// The file was written by a newer format version.
    VersionTooNew(u32),
    /// The header's record count differs from the records present.
    CountMismatch { declared: u64, actual: u64 },
    /// The records do not match the checksum.
    ChecksumFailed,
}

/// What loading `b` gives: the version, the creation time and the records,
/// or the first failure among: a header too short (Corrupt), a newer version,
/// a records section that does not match the checksum, a malformed records
/// section (Corrupt), a count mismatch. The checksum is checked before the
/// records are read, so any change to the records section fails it.
pub open spec fn decoded(b: Seq<u8>) -> Result<(u32, u64, Seq<Seq<u8>>), LoadError> {
    if b.len() < HEADER_LEN {
        Err(LoadError::Corrupt)
    } else {
        let body = b.subrange(HEADER_LEN as int, b.len() as int);
        let version = read_le32(b, 0);
        let declared = read_le64(b, 12);
        if version > FORMAT_VERSION {
            Err(LoadError::VersionTooNew(version))
        } else if b.subrange(20, HEADER_LEN as int) != hex_ascii(sha256_of(body)) {
            Err(LoadError::ChecksumFailed)
        } else {
            match parse_frames(body, 0) {
                None => Err(LoadError::Corrupt),
                Some(recs) => if recs.len() != declared {
                    Err(LoadError::CountMismatch { declared, actual: recs.len() as u64 })
                } else {
                    Ok((version, read_le64(b, 4), recs))
                },
            }
        }
    }
}

/// A loaded file.
#[derive(Debug)]
pub struct CacheFile {
    pub version: u32,
    pub created_at_ms: u64,
    pub records: Vec<Vec<u8>>,
}

/// The records section for `recs`.
fn encode_frames(recs: &Vec<Vec<u8>>) -> (r: Vec<u8>)
    ensures
        r@ == frames(recs@.map_values(|v: Vec<u8>| v@)),
        forall|k: int| 0 <= k < recs@.len() ==> (#[trigger] recs@[k])@.len() <= u64::MAX,
{
    let ghost rv = recs@.map_values(|v: Vec<u8>| v@);
    let mut out: Vec<u8> = Vec::new();
    let mut i: usize = 0;
    while i < recs.len()
        invariant
            i <= recs@.len(),
            rv == recs@.map_values(|v: Vec<u8>| v@),
            out@ == frames(rv.subrange(0, i as int)),
            forall|k: int| 0 <= k < i ==> (#[trigger] recs@[k])@.len() <= u64::MAX,
        decreases recs@.len() - i,
    {
        let r = &recs[i];
        let rl = r.len();
        assert(rl as int <= u64::MAX) by {
            assert(usize::MAX <= u64::MAX);
        }
        proof {
            assert(rv.subrange(0, i + 1) =~= rv.subrange(0, i as int).push(r@));
            lemma_frames_push(rv.subrange(0, i as int), r@);
        }
        push_le64(&mut out, r.len() as u64);
        let mut j: usize = 0;
        let ghost base = out@;
        while j < r.len()
            invariant
                j <= r@.len(),
                out@ == base + r@.subrange(0, j as int),
            decreases r@.len() - j,
        {
            out.push(r[j]);
            proof {
                assert(r@.subrange(0, j + 1) =~= r@.subrange(0, j as int).push(r[j as int]));
                assert(out@ =~= base + r@.subrange(0, j + 1));
            }
            j = j + 1;
        }
        proof {
            assert(r@.subrange(0, r@.len() as int) =~= r@);
            assert(out@ =~= frames(rv.subrange(0, i + 1)));
        }
        i = i + 1;
    }
    proof {
        assert(rv.subrange(0, recs@.len() as int) =~= rv);
    }
    out
}

/// The file bytes for `records`, created at `created_at_ms`.
pub fn encode_cache_file(created_at_ms: u64, records: &Vec<Vec<u8>>) -> (r: Vec<u8>)
    ensures
        r@ == file_bytes(created_at_ms, records@.map_values(|v: Vec<u8>| v@)),
        decoded(r@) == Ok::<(u32, u64, Seq<Seq<u8>>), LoadError>(
            (FORMAT_VERSION, created_at_ms, records@.map_values(|v: Vec<u8>| v@)),
        ),
{
    let body = encode_frames(records);
    let digest = sha256(body.as_slice());
    let sum = hex_encode(&digest);
    let mut out: Vec<u8> = Vec::new();
    let v = FORMAT_VERSION;
    out.push(v as u8);
    out.push((v >> 8) as u8);
    out.push((v >> 16) as u8);
    out.push((v >> 24) as u8);
    push_le64(&mut out, created_at_ms);
    push_le64(&mut out, records.len() as u64);
    let mut sum_copy = sum;
    out.append(&mut sum_copy);
    let mut body_copy = body;
    let ghost body_v = body_copy@;
    out.append(&mut body_copy);
    proof {
        let rv = records@.map_values(|v: Vec<u8>| v@);
        assert(body_v == frames(rv));
        assert(out@ =~= file_bytes(created_at_ms, rv));
        assert forall|k: int| 0 <= k < rv.len() implies (#[trigger] rv[k]).len() <= u64::MAX by {
            assert(rv[k] == records@[k]@);
        }
        lemma_cache_file_round_trip(created_at_ms, rv);
    }
    out
}

fn copy_range(s: &Vec<u8>, from: usize, to: usize) -> (r: Vec<u8>)
    requires
        from <= to <= s@.len(),
    ensures
        r@ == s@.subrange(from as int, to as int),
{
    let mut out: Vec<u8> = Vec::new();
    let mut i: usize = from;
    while i < to
        invariant
            from <= i <= to,
            to <= s@.len(),
            out@ == s@.subrange(from as int, i as int),
        decreases to - i,
    {
        out.push(s[i]);
        proof {
            assert(s@.subrange(from as int, i + 1) =~= s@.subrange(from as int, i as int).push(s@[i as int]));
        }
        i = i + 1;
    }
    out
}

/// Load a file: the version, creation time and records, or the first failure
/// among a malformed file, a newer version, a count mismatch and a checksum
/// mismatch (see `decoded`).
pub fn decode_cache_file(bytes: &Vec<u8>) -> (r: Result<CacheFile, LoadError>)
    ensures
        match r {
            Ok(f) => decoded(bytes@) == Ok::<(u32, u64, Seq<Seq<u8>>), LoadError>(
                (f.version, f.created_at_ms, f.records@.map_values(|v: Vec<u8>| v@)),
            ),
            Err(e) => decoded(bytes@) == Err::<(u32, u64, Seq<Seq<u8>>), LoadError>(e),
        },
{
    let len = bytes.len();
    if len < HEADER_LEN {
        return Err(LoadError::Corrupt);
    }
    let body = copy_range(bytes, HEADER_LEN, len);
    let version: u32 = (bytes[0] as u32) | ((bytes[1] as u32) << 8) | ((bytes[2] as u32) << 16) | ((bytes[3] as u32) << 24);
    if version > FORMAT_VERSION {
        return Err(LoadError::VersionTooNew(version));
    }
    let digest = sha256(body.as_slice());
    let sum = hex_encode(&digest);
    proof {
        lemma_hex_len(digest@);
    }
    let mut i: usize = 0;
    while i < 64
        invariant
            i <= 64,
            sum@.len() == 64,
            bytes@.len() >= HEADER_LEN,
            sum@ == hex_ascii(sha256_of(body@)),
            body@ == bytes@.subrange(HEADER_LEN as int, bytes@.len() as int),
            version == read_le32(bytes@, 0),
            version <= FORMAT_VERSION,
            forall|j: int| 0 <= j < i ==> bytes@[20 + j] == sum@[j],
        decreases 64 - i,
    {
        if bytes[20 + i] != sum[i] {
            proof {
                assert(bytes@.subrange(20, HEADER_LEN as int)[i as int] != sum@[i as int]);
            }
            return Err(LoadError::ChecksumFailed);
        }
        i = i + 1;
    }
    assert(bytes@.subrange(20, HEADER_LEN as int) =~= sum@);
    let n = body.len();
    let mut records: Vec<Vec<u8>> = Vec::new();
    let mut off: usize = 0;
    while off < n
        invariant
            n == body@.len(),
            off <= n,
            bytes@.len() >= HEADER_LEN,
            body@ == bytes@.subrange(HEADER_LEN as int, bytes@.len() as int),
            version == read_le32(bytes@, 0),
            version <= FORMAT_VERSION,
            bytes@.subrange(20, HEADER_LEN as int) == hex_ascii(sha256_of(body@)),
            parse_frames(body@, 0) == match parse_frames(body@, off as int) {
                Some(rest) => Some(records@.map_values(|v: Vec<u8>| v@) + rest),
                None => None::<Seq<Seq<u8>>>,
            },
        decreases n - off,
    {
        if n - off < 8 {
            return Err(LoadError::Corrupt);
        }
        let k = get_le64(&body, off);
        if ((n - off - 8) as u64) < k {
            return Err(LoadError::Corrupt);
        }
        let end = off + 8 + k as usize;
        let rec = copy_range(&body, off + 8, end);
        let ghost before = records@.map_values(|v: Vec<u8>| v@);
        records.push(rec);
        proof {
            assert(records@.map_values(|v: Vec<u8>| v@) =~= before.push(body@.subrange(off + 8, end as int)));
            match parse_frames(body@, end as int) {
                Some(rest) => {
                    assert(before.push(body@.subrange(off + 8, end as int)) + rest =~= before + (seq![body@.subrange(off + 8, end as int)] + rest));
                },
                None => {},
            }
        }
        off = end;
    }
    proof {
        assert(records@.map_values(|v: Vec<u8>| v@) + Seq::<Seq<u8>>::empty() =~= records@.map_values(|v: Vec<u8>| v@));
    }
    let declared = get_le64(bytes, 12);
    if records.len() as u64 != declared {
        return Err(LoadError::CountMismatch { declared, actual: records.len() as u64 });
    }
    let created = get_le64(bytes, 4);
    Ok(CacheFile { version, created_at_ms: created, records })
}

/// The pieces of the bytes of a file, read back.
#[verifier::rlimit(100)]
proof fn lemma_file_parts(created_at_ms: u64, recs: Seq<Seq<u8>>)
    requires
        sha256_of(frames(recs)).len() == 32,
        recs.len() <= u64::MAX,
    ensures
        ({
            let b = file_bytes(created_at_ms, recs);
            &&& b.len() >= HEADER_LEN
            &&& b.subrange(HEADER_LEN as int, b.len() as int) == frames(recs)
            &&& read_le32(b, 0) == FORMAT_VERSION
            &&& read_le64(b, 4) == created_at_ms
            &&& read_le64(b, 12) == recs.len() as u64
            &&& b.subrange(20, HEADER_LEN as int) == hex_ascii(sha256_of(frames(recs)))
        }),
{
    let body = frames(recs);
    let sum = hex_ascii(sha256_of(body));
    lemma_hex_len(sha256_of(body));
    let h1 = le32(FORMAT_VERSION);
    let h2 = le64(created_at_ms);
    let h3 = le64(recs.len() as u64);
    let b = h1 + h2 + h3 + sum + body;
    assert(b == file_bytes(created_at_ms, recs));
    assert(b.subrange(HEADER_LEN as int, b.len() as int) =~= body);
    assert(b.subrange(0, 4) =~= h1);
    lemma_le32_round_trip(FORMAT_VERSION, b, 0);
    assert(b.subrange(4, 12) =~= h2);
    lemma_le64_round_trip(created_at_ms, b, 4);
    assert(b.subrange(12, 20) =~= h3);
    lemma_le64_round_trip(recs.len() as u64, b, 12);
    assert(b.subrange(20, HEADER_LEN as int) =~= sum);
}

/// Writing records to a file and loading it gives back the same records and
/// creation time, at the current version. (The digest length is what `sha256`
/// guarantees of every digest it returns.)
pub proof fn lemma_cache_file_round_trip(created_at_ms: u64, recs: Seq<Seq<u8>>)
    requires
        sha256_of(frames(recs)).len() == 32,
        recs.len() <= u64::MAX,
        forall|k: int| 0 <= k < recs.len() ==> (#[trigger] recs[k]).len() <= u64::MAX,
    ensures
        decoded(file_bytes(created_at_ms, recs)) == Ok::<(u32, u64, Seq<Seq<u8>>), LoadError>((FORMAT_VERSION, created_at_ms, recs)),
{
    lemma_file_parts(created_at_ms, recs);
    lemma_parse_frames_round_trip(Seq::empty(), recs);
    assert(Seq::<u8>::empty() + frames(recs) =~= frames(recs));
}

proof fn lemma_hex_digit_injective(x: u8, y: u8)
    requires
        x < 16,
        y < 16,
        hex_digit(x) == hex_digit(y),
    ensures
        x == y,
{
}

proof fn lemma_hex_injective(a: Seq<u8>, b: Seq<u8>)
    requires
        hex_ascii(a) == hex_ascii(b),
    ensures
        a == b,
    decreases a.len(),
{
    lemma_hex_len(a);
    lemma_hex_len(b);
    if a.len() > 0 {
        let ha = hex_ascii(a);
        let pa = hex_ascii(a.drop_last());
        let pb = hex_ascii(b.drop_last());
        lemma_hex_len(a.drop_last());
        lemma_hex_len(b.drop_last());
        assert(ha[ha.len() - 2] == hex_digit(a.last() / 16));
        assert(ha[ha.len() - 1] == hex_digit(a.last() % 16));
        assert(ha[ha.len() - 2] == hex_digit(b.last() / 16));
        assert(ha[ha.len() - 1] == hex_digit(b.last() % 16));
        lemma_hex_digit_injective(a.last() / 16, b.last() / 16);
        lemma_hex_digit_injective(a.last() % 16, b.last() % 16);
        assert(a.last() == b.last());
        assert(pa =~= ha.subrange(0, ha.len() - 2));
        assert(pb =~= ha.subrange(0, ha.len() - 2));
        lemma_hex_injective(a.drop_last(), b.drop_last());
        assert(a =~= a.drop_last().push(a.last()));
        assert(b =~= b.drop_last().push(b.last()));
    } else {
        assert(b.len() == 0);
        assert(a =~= b);
    }
}

/// A written file whose records section is then changed, leaving the header
/// alone, fails its checksum, provided SHA-256 gives the changed section a
/// different digest.
pub proof fn lemma_changed_records_fail_checksum(created_at_ms: u64, recs: Seq<Seq<u8>>, changed: Seq<u8>)
    requires
        sha256_of(frames(recs)).len() == 32,
        recs.len() <= u64::MAX,
        changed.len() >= HEADER_LEN,
        changed.subrange(0, HEADER_LEN as int) == file_bytes(created_at_ms, recs).subrange(0, HEADER_LEN as int),
        sha256_of(changed.subrange(HEADER_LEN as int, changed.len() as int)) != sha256_of(frames(recs)),
    ensures
        decoded(changed) == Err::<(u32, u64, Seq<Seq<u8>>), LoadError>(LoadError::ChecksumFailed),
{
    let b = file_bytes(created_at_ms, recs);
    lemma_file_parts(created_at_ms, recs);
    assert(changed.subrange(0, 4) =~= b.subrange(0, 4));
    assert forall|k: int| 0 <= k < HEADER_LEN implies changed[k] == b[k] by {
        assert(changed.subrange(0, HEADER_LEN as int)[k] == b.subrange(0, HEADER_LEN as int)[k]);
    }
    assert(read_le32(changed, 0) == read_le32(b, 0));
    assert(changed.subrange(20, HEADER_LEN as int) =~= b.subrange(20, HEADER_LEN as int));
    let body = changed.subrange(HEADER_LEN as int, changed.len() as int);
    if hex_ascii(sha256_of(body)) == hex_ascii(sha256_of(frames(recs))) {
        lemma_hex_injective(sha256_of(body), sha256_of(frames(recs)));
    }
}

} // verus!
