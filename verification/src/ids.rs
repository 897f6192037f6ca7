//! Stable identifiers.
//!
//! A symbol id must survive edits to the symbol's body, so it is derived from
//! identity (repository, path, kind, qualified name), never from content.

use vstd::bytes::{spec_u32_to_le_bytes, spec_u64_to_le_bytes, u32_to_le_bytes, u64_to_le_bytes};
use vstd::prelude::*;
use vstd::string::*;
use vstd::utf8::encode_utf8;

use crate::model::SymbolKind;
use crate::text::{cat, cat3, chars_of, piece};

verus! {

broadcast use vstd::string::group_string_axioms;

/// The repository that every workspace has from the start.
pub const DEFAULT_REPO_ID: &'static str = "R1";

/// The BLAKE3 hash of `bytes` in lowercase hexadecimal.
pub uninterp spec fn blake3_hex(bytes: Seq<u8>) -> Seq<char>;

/// `blake3::Hasher` over one input, `finalize` and `Hash::to_hex`: the hash in
/// hexadecimal, named `blake3_hex`. It has two digits for each of 32 bytes.
#[verifier::external_body]
fn hash_hex(bytes: &[u8]) -> (r: String)
    ensures
        r@ == blake3_hex(bytes@),
        r@.len() == 64,
{
    let mut h = blake3::Hasher::new();
    h.update(bytes);
    h.finalize().to_hex().to_string()
}

/// The leading `n` digits of the hash of `bytes`.
pub open spec fn short_hash(bytes: Seq<u8>, n: int) -> Seq<char> {
    blake3_hex(bytes).take(n)
}

fn short(bytes: &[u8], n: usize) -> (r: String)
    requires
        n <= 64,
    ensures
        r@ == short_hash(bytes@, n as int),
        r@.len() == n,
{
    let hex = hash_hex(bytes);
    let digits = chars_of(hex.as_str());
    let r = piece(&digits, 0, n);
    assert(r@ =~= hex@.take(n as int));
    r
}

/// `b` put behind `a`.
fn extend(a: &mut Vec<u8>, b: &[u8])
    ensures
        final(a)@ == old(a)@ + b@,
{
    a.extend_from_slice(b);
    assert(a@ =~= old(a)@ + b@);
}

/// What a symbol id is the hash of: every part of the identity, each but the
/// last closed by a zero byte.
pub open spec fn symbol_preimage(
    repo_id: Seq<char>,
    path: Seq<char>,
    kind: SymbolKind,
    fqn: Seq<char>,
    disambiguator: u32,
) -> Seq<u8> {
    encode_utf8("golab.symbol.v2\0"@) + encode_utf8(repo_id) + seq![0u8] + encode_utf8(path)
        + seq![0u8] + encode_utf8(kind.word()) + seq![0u8] + encode_utf8(fqn) + seq![0u8]
        + spec_u32_to_le_bytes(disambiguator)
}

/// The id of a symbol.
pub open spec fn symbol_id_of(
    repo_id: Seq<char>,
    path: Seq<char>,
    kind: SymbolKind,
    fqn: Seq<char>,
    disambiguator: u32,
) -> Seq<char> {
    "s_"@ + short_hash(symbol_preimage(repo_id, path, kind, fqn, disambiguator), 16)
}

/// The id of a symbol, from its identity alone.
pub fn symbol_id(
    repo_id: &str,
    path: &str,
    kind: SymbolKind,
    fqn: &str,
    disambiguator: u32,
) -> (r: String)
    ensures
        r@ == symbol_id_of(repo_id@, path@, kind, fqn@, disambiguator),
{
    let zero: Vec<u8> = vec![0u8];
    assert(zero@ =~= seq![0u8]);
    let mut h: Vec<u8> = Vec::new();
    extend(&mut h, "golab.symbol.v2\0".as_bytes());
    extend(&mut h, repo_id.as_bytes());
    extend(&mut h, zero.as_slice());
    extend(&mut h, path.as_bytes());
    extend(&mut h, zero.as_slice());
    extend(&mut h, kind.as_str().as_bytes());
    extend(&mut h, zero.as_slice());
    extend(&mut h, fqn.as_bytes());
    extend(&mut h, zero.as_slice());
    extend(&mut h, u32_to_le_bytes(disambiguator).as_slice());
    assert(h@ =~= symbol_preimage(repo_id@, path@, kind, fqn@, disambiguator));
    cat("s_", short(h.as_slice(), 16).as_str())
}

/// The id of a file: a symbol whose qualified name is its path.
pub fn file_symbol_id(repo_id: &str, path: &str) -> (r: String)
    ensures
        r@ == symbol_id_of(repo_id@, path@, SymbolKind::File, path@, 0),
{
    symbol_id(repo_id, path, SymbolKind::File, path, 0)
}

/// A short hash of some text.
pub fn content_hash(bytes: &[u8]) -> (r: String)
    ensures
        r@ == short_hash(bytes@, 16),
{
    short(bytes, 16)
}

/// What an object id is the hash of.
pub open spec fn unique_preimage(nanos: u64, n: u64, pid: u32) -> Seq<u8> {
    spec_u64_to_le_bytes(nanos) + spec_u64_to_le_bytes(n) + spec_u32_to_le_bytes(pid)
}

/// The id made at time `nanos` as the `n`-th of process `pid`.
pub open spec fn unique_id_of(prefix: Seq<char>, nanos: u64, n: u64, pid: u32) -> Seq<char> {
    prefix + "_"@ + short_hash(unique_preimage(nanos, n, pid), 12)
}

/// An id for leases, requests and other runtime objects, from the clock, a
/// counter and the process number.
pub fn unique_id(prefix: &str, nanos: u64, n: u64, pid: u32) -> (r: String)
    ensures
        r@ == unique_id_of(prefix@, nanos, n, pid),
{
    let mut h: Vec<u8> = Vec::new();
    extend(&mut h, u64_to_le_bytes(nanos).as_slice());
    extend(&mut h, u64_to_le_bytes(n).as_slice());
    extend(&mut h, u32_to_le_bytes(pid).as_slice());
    assert(h@ =~= unique_preimage(nanos, n, pid));
    cat3(prefix, "_", short(h.as_slice(), 12).as_str())
}

/// `SystemTime::now` and `duration_since` of the standard library: milliseconds
/// since the Unix epoch, or nothing where the clock stands before it. The value
/// rests on the clock.
#[verifier::external_body]
fn millis_since_epoch() -> (r: Option<u128>)
{
    std::time::SystemTime::now().duration_since(std::time::UNIX_EPOCH).ok().map(|d| d.as_millis())
}

/// Milliseconds as the library counts them; zero for a clock before the epoch.
pub open spec fn counted(since: Option<u128>) -> i64 {
    match since {
        Some(d) => d as i64,
        None => 0,
    }
}

/// Milliseconds as the library counts them.
pub fn millis_or_zero(since: Option<u128>) -> (r: i64)
    ensures
        r == counted(since),
{
    match since {
        Some(d) => #[verifier::truncate] (d as i64),
        None => 0,
    }
}

/// The time, in milliseconds since the Unix epoch.
pub fn now_ms() -> (r: i64)
    ensures
        exists|since: Option<u128>| r == #[trigger] counted(since),
{
    millis_or_zero(millis_since_epoch())
}

// ----------------------------------------------------------------------- laws

/// Is the text free of zero characters?
pub open spec fn no_zero(s: Seq<char>) -> bool {
    forall|i: int| 0 <= i < s.len() ==> s[i] != '\0'
}

/// Text without zero characters is encoded without zero bytes.
proof fn lemma_no_zero_bytes(s: Seq<char>)
    requires
        no_zero(s),
    ensures
        forall|i: int| 0 <= i < encode_utf8(s).len() ==> encode_utf8(s)[i] != 0u8,
    decreases s.len(),
{
    if s.len() > 0 {
        assert(no_zero(s.drop_first()));
        lemma_no_zero_bytes(s.drop_first());
        let c = s[0] as u32;
        vstd::utf8::char_is_scalar(s[0]);
        vstd::utf8::char_u32_cast(s[0], c);
        vstd::utf8::char_u32_cast('\0', '\0' as u32);
        assert(c != 0);
        assert(c <= 0x7f ==> ((c & 0x7F) as u8) != 0u8) by (bit_vector)
            requires
                c != 0,
        ;
        assert((0xC0u8 | (((c >> 6) & 0x1F) as u8)) != 0u8) by (bit_vector);
        assert((0xE0u8 | (((c >> 12) & 0x0F) as u8)) != 0u8) by (bit_vector);
        assert((0xF0u8 | (((c >> 18) & 0x07) as u8)) != 0u8) by (bit_vector);
        assert((0x80u8 | ((c & 0x3F) as u8)) != 0u8) by (bit_vector);
        assert((0x80u8 | (((c >> 6) & 0x3F) as u8)) != 0u8) by (bit_vector);
        assert((0x80u8 | (((c >> 12) & 0x3F) as u8)) != 0u8) by (bit_vector);
        let h = vstd::utf8::encode_scalar(c);
        let t = encode_utf8(s.drop_first());
        assert forall|i: int| 0 <= i < h.len() implies h[i] != 0u8 by {
            assert(i == 0 || i == 1 || i == 2 || i == 3);
        }
        assert forall|i: int| 0 <= i < encode_utf8(s).len() implies encode_utf8(s)[i] != 0u8 by {
            assert(encode_utf8(s) == h + t);
            if i >= h.len() {
                assert((h + t)[i] == t[i - h.len()]);
            }
        }
    }
}

/// Two texts closed by a zero byte and followed by something agree only if
/// both parts do.
proof fn lemma_closed_parts(a: Seq<u8>, b: Seq<u8>, x: Seq<u8>, y: Seq<u8>)
    requires
        forall|i: int| 0 <= i < a.len() ==> a[i] != 0u8,
        forall|i: int| 0 <= i < b.len() ==> b[i] != 0u8,
        a + seq![0u8] + x == b + seq![0u8] + y,
    ensures
        a == b,
        x == y,
{
    let l = a + seq![0u8] + x;
    let r = b + seq![0u8] + y;
    if a.len() < b.len() {
        assert(l[a.len() as int] == 0u8);
        assert(r[a.len() as int] == b[a.len() as int]);
    }
    if b.len() < a.len() {
        assert(r[b.len() as int] == 0u8);
        assert(l[b.len() as int] == a[b.len() as int]);
    }
    assert forall|i: int| 0 <= i < a.len() implies a[i] == b[i] by {
        assert(l[i] == a[i] && r[i] == b[i]);
    }
    assert(a =~= b);
    assert(l.len() == a.len() + 1 + x.len());
    assert(r.len() == b.len() + 1 + y.len());
    assert forall|i: int| 0 <= i < x.len() implies x[i] == y[i] by {
        assert(l[a.len() + 1 + i] == x[i] && r[b.len() + 1 + i] == y[i]);
    }
    assert(x =~= y);
}

proof fn lemma_kind_word_no_zero(kind: SymbolKind)
    ensures
        no_zero(kind.word()),
{
    reveal_strlit("service");
    reveal_strlit("file");
    reveal_strlit("module");
    reveal_strlit("class");
    reveal_strlit("interface");
    reveal_strlit("trait");
    reveal_strlit("function");
    reveal_strlit("method");
    reveal_strlit("type");
    reveal_strlit("constant");
    reveal_strlit("macro");
    reveal_strlit("table");
}

/// Concatenation regrouped so that every part is followed by the rest.
proof fn lemma_regroup(
    a: Seq<u8>,
    b: Seq<u8>,
    c: Seq<u8>,
    d: Seq<u8>,
    e: Seq<u8>,
    f: Seq<u8>,
    z: Seq<u8>,
)
    ensures
        (a + b + z + c + z + d + z + e + z + f) == a + (b + z + (c + z + (d + z + (e + z + f)))),
{
    let t = e + z + f;
    assert(a + b + z + c + z + d + z + e + z + f =~= a + b + z + c + z + d + z + t);
    let u = d + z + t;
    assert(a + b + z + c + z + d + z + t =~= a + b + z + c + z + u);
    let v = c + z + u;
    assert(a + b + z + c + z + u =~= a + b + z + v);
    assert(a + b + z + v =~= a + (b + z + v));
}

/// What follows a common head is common.
proof fn lemma_same_tail(head: Seq<u8>, a: Seq<u8>, b: Seq<u8>)
    requires
        head + a == head + b,
    ensures
        a == b,
{
    assert((head + a).skip(head.len() as int) =~= a);
    assert((head + b).skip(head.len() as int) =~= b);
}

/// Texts followed by a zero byte and four bytes more agree only if both parts
/// do.
proof fn lemma_fixed_tail(a: Seq<u8>, b: Seq<u8>, x: Seq<u8>, y: Seq<u8>)
    requires
        x.len() == 4,
        y.len() == 4,
        a + seq![0u8] + x == b + seq![0u8] + y,
    ensures
        a == b,
        x == y,
{
    let l = a + seq![0u8] + x;
    let r = b + seq![0u8] + y;
    assert(l.len() == a.len() + 5);
    assert(r.len() == b.len() + 5);
    assert(l.take(a.len() as int) =~= a);
    assert(r.take(a.len() as int) =~= b);
    assert(l.skip((a.len() + 1) as int) =~= x);
    assert(r.skip((a.len() + 1) as int) =~= y);
}

/// Different identities are hashed from different bytes, so that ids of
/// different symbols differ unless BLAKE3 itself collides on the digits kept.
/// Repository ids and paths hold no zero character.
pub proof fn law_identity_decides(
    r1: Seq<char>,
    p1: Seq<char>,
    k1: SymbolKind,
    f1: Seq<char>,
    d1: u32,
    r2: Seq<char>,
    p2: Seq<char>,
    k2: SymbolKind,
    f2: Seq<char>,
    d2: u32,
)
    requires
        no_zero(r1),
        no_zero(p1),
        no_zero(r2),
        no_zero(p2),
        symbol_preimage(r1, p1, k1, f1, d1) == symbol_preimage(r2, p2, k2, f2, d2),
    ensures
        r1 == r2,
        p1 == p2,
        k1 == k2,
        f1 == f2,
        d1 == d2,
{
    let head = encode_utf8("golab.symbol.v2\0"@);
    let z = seq![0u8];
    let e1 = spec_u32_to_le_bytes(d1);
    let e2 = spec_u32_to_le_bytes(d2);
    let t1 = encode_utf8(f1) + z + e1;
    let t2 = encode_utf8(f2) + z + e2;
    let c1 = encode_utf8(k1.word()) + z + t1;
    let c2 = encode_utf8(k2.word()) + z + t2;
    let b1 = encode_utf8(p1) + z + c1;
    let b2 = encode_utf8(p2) + z + c2;
    let a1 = encode_utf8(r1) + z + b1;
    let a2 = encode_utf8(r2) + z + b2;
    lemma_regroup(
        head,
        encode_utf8(r1),
        encode_utf8(p1),
        encode_utf8(k1.word()),
        encode_utf8(f1),
        e1,
        z,
    );
    lemma_regroup(
        head,
        encode_utf8(r2),
        encode_utf8(p2),
        encode_utf8(k2.word()),
        encode_utf8(f2),
        e2,
        z,
    );
    lemma_same_tail(head, a1, a2);
    lemma_no_zero_bytes(r1);
    lemma_no_zero_bytes(r2);
    lemma_no_zero_bytes(p1);
    lemma_no_zero_bytes(p2);
    lemma_kind_word_no_zero(k1);
    lemma_kind_word_no_zero(k2);
    lemma_no_zero_bytes(k1.word());
    lemma_no_zero_bytes(k2.word());
    lemma_closed_parts(encode_utf8(r1), encode_utf8(r2), b1, b2);
    lemma_closed_parts(encode_utf8(p1), encode_utf8(p2), c1, c2);
    lemma_closed_parts(encode_utf8(k1.word()), encode_utf8(k2.word()), t1, t2);
    vstd::bytes::lemma_auto_spec_u32_to_from_le_bytes();
    lemma_fixed_tail(encode_utf8(f1), encode_utf8(f2), e1, e2);
    vstd::utf8::encode_utf8_decode_utf8(r1);
    vstd::utf8::encode_utf8_decode_utf8(r2);
    vstd::utf8::encode_utf8_decode_utf8(p1);
    vstd::utf8::encode_utf8_decode_utf8(p2);
    vstd::utf8::encode_utf8_decode_utf8(f1);
    vstd::utf8::encode_utf8_decode_utf8(f2);
    vstd::utf8::encode_utf8_decode_utf8(k1.word());
    vstd::utf8::encode_utf8_decode_utf8(k2.word());
    crate::model::law_symbol_kind_words(k1, k2);
}

} // verus!
