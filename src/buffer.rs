//! Byte buffers for reading and writing DNS messages.
//!
//! Every buffer is modelled by the bytes it holds (`data`), a cursor, an
//! optional fixed capacity, and a map from already written name suffixes to
//! their positions (used for name compression).

use vstd::prelude::*;
use vstd::slice::slice_subrange;
use vstd::string::*;
use vstd::utf8::{
    decode_utf8, encode_utf8, encode_utf8_decode_utf8, encode_utf8_valid_utf8, is_ascii_chars,
    is_ascii_chars_encode_utf8, valid_utf8,
};

verus! {

/// Errors raised by buffer operations and by the name codec.
#[derive(Debug, Clone, Copy, PartialEq, Eq, Structural)]
pub enum BufferError {
    /// A position outside the valid range was requested.
    EndOfBuffer,
    /// A label of a name to encode is empty, longer than 63 octets, or holds
    /// a character other than an ASCII letter, digit or hyphen.
    InvalidLabel,
    /// A compression pointer is forward, truncated, or the pointer chain is too long.
    MalformedName,
}

/// Label validation failure, as a standalone error value.
#[derive(Debug, Clone, Copy, PartialEq, Eq, Structural)]
pub enum Error {
    InvalidCharacterInLabel,
}

/// Raised when label bytes are not valid UTF-8 (the decoder replaces such bytes instead).
#[derive(Debug, Clone, Copy, PartialEq, Eq, Structural)]
pub struct InvalidUtf8;

/// Raised when a compression pointer cannot be followed.
#[derive(Debug, Clone, Copy, PartialEq, Eq, Structural)]
pub struct InvalidCompressionPointer;

/// Fixed size of a UDP message buffer.
pub const UDP_BUFFER_SIZE: usize = 512;

/// `d` after writing `bs` at position `p` (overwriting, then extending).
pub open spec fn put_bytes(d: Seq<u8>, p: int, bs: Seq<u8>) -> Seq<u8> {
    if p + bs.len() <= d.len() {
        d.subrange(0, p) + bs + d.subrange(p + bs.len(), d.len() as int)
    } else {
        d.subrange(0, p) + bs
    }
}

/// Whether `n` bytes can be written at cursor `c` of a buffer holding `d`,
/// of fixed capacity `cap` (or growable when `cap` is `None`).
pub open spec fn has_room(d: Seq<u8>, c: int, cap: Option<nat>, n: int) -> bool {
    &&& 0 <= c <= d.len()
    &&& match cap {
        Some(k) => c + n <= k,
        None => c + n <= usize::MAX,
    }
}

/// Big-endian bytes of a 16-bit value.
pub open spec fn u16_bytes(v: int) -> Seq<u8> {
    seq![(v / 256) as u8, (v % 256) as u8]
}

/// Big-endian bytes of a 32-bit value.
pub open spec fn u32_bytes(v: int) -> Seq<u8> {
    seq![(v / 0x1000000) as u8, ((v / 0x10000) % 256) as u8, ((v / 256) % 256) as u8, (v % 256) as u8]
}

/// The big-endian 16-bit value at `p`.
pub open spec fn be16(d: Seq<u8>, p: int) -> int {
    d[p] * 256 + d[p + 1]
}

/// The big-endian 32-bit value at `p`.
pub open spec fn be32(d: Seq<u8>, p: int) -> int {
    d[p] * 0x1000000 + d[p + 1] * 0x10000 + d[p + 2] * 256 + d[p + 3]
}

/// Largest number of compression pointers followed while decoding one name.
pub const MAX_JUMPS: usize = 64;

/// Largest position a compression pointer can hold (14 bits).
pub const MAX_POINTER_TARGET: usize = 0x3FFF;

/// The highest cursor position a write may reach.
pub open spec fn room_bound(cap: Option<nat>) -> int {
    match cap {
        Some(k) => k as int,
        None => usize::MAX as int,
    }
}

/// Writing `a` then `b` is writing `a + b`.
pub proof fn lemma_put_concat(d: Seq<u8>, p: int, a: Seq<u8>, b: Seq<u8>)
    requires
        0 <= p <= d.len(),
    ensures
        put_bytes(put_bytes(d, p, a), p + a.len(), b) == put_bytes(d, p, a + b),
        put_bytes(d, p, a).len() == if p + a.len() <= d.len() {
            d.len() as int
        } else {
            p + a.len()
        },
{
    let d1 = put_bytes(d, p, a);
    assert(d1.subrange(0, p + a.len()) =~= d.subrange(0, p) + a);
    if p + a.len() + b.len() <= d.len() {
        assert(put_bytes(d1, p + a.len(), b) =~= put_bytes(d, p, a + b));
    } else if p + a.len() <= d.len() {
        assert(put_bytes(d1, p + a.len(), b) =~= put_bytes(d, p, a + b));
    } else {
        assert(put_bytes(d1, p + a.len(), b) =~= put_bytes(d, p, a + b));
    }
}

/// Two encodings written one after the other form their concatenation.
pub proof fn lemma_wrote_seq(
    v0: BufferView,
    v1: BufferView,
    v2: BufferView,
    e1: (Seq<u8>, Map<Seq<char>, usize>),
    e2: (Seq<u8>, Map<Seq<char>, usize>),
    r1: Result<(), BufferError>,
    r2: Result<(), BufferError>,
)
    requires
        v0.wf(),
        v0.wrote_encoding(v1, e1, r1),
        r1 is Ok,
        v1.wrote_encoding(v2, e2, r2),
    ensures
        v0.wrote_encoding(v2, (e1.0 + e2.0, e2.1), r2),
{
    assert(v0.room(e1.0.len() as int));
    lemma_put_concat(v0.data, v0.cursor, e1.0, e2.0);
}

/// A plain byte write is an encoding that leaves the suffix map as it was.
pub proof fn lemma_bytes_as_encoding(
    v0: BufferView,
    v1: BufferView,
    bs: Seq<u8>,
    r: Result<(), BufferError>,
)
    requires
        v0.wrote_bytes(v1, bs, r),
    ensures
        v0.wrote_encoding(v1, (bs, v0.labels), r),
{
}

/// Whether `c` may appear in a label: an ASCII letter, digit or hyphen.
pub open spec fn label_char(c: char) -> bool {
    ('a' <= c && c <= 'z') || ('A' <= c && c <= 'Z') || ('0' <= c && c <= '9') || c == '-'
}

/// Number of characters of the label starting at `k`, up to the next dot or the end.
pub open spec fn label_len(n: Seq<char>, k: int) -> nat
    decreases n.len() - k,
{
    if k < 0 || k >= n.len() || n[k] == '.' {
        0
    } else {
        1 + label_len(n, k + 1)
    }
}

/// Whether every label from position `k` on has 1 to 63 allowed characters.
pub open spec fn labels_valid_from(n: Seq<char>, k: int) -> bool
    decreases n.len() - k,
{
    if k < 0 {
        false
    } else if k >= n.len() {
        true
    } else {
        let l = label_len(n, k);
        &&& 1 <= l <= 63
        &&& forall|j: int| k <= j < k + l ==> label_char(#[trigger] n[j])
        &&& k + l < n.len() ==> labels_valid_from(n, k + l + 1)
    }
}

/// Whether `n` can be encoded: empty, or dot-separated labels of 1 to 63
/// ASCII letters, digits or hyphens (a single trailing dot is allowed).
pub open spec fn valid_name(n: Seq<char>) -> bool {
    labels_valid_from(n, 0)
}

/// The octets of an ASCII string.
pub open spec fn ascii_bytes(s: Seq<char>) -> Seq<u8> {
    Seq::new(s.len(), |i: int| #[verifier::truncate] ((s[i] as u32) as u8))
}

/// A compression pointer to position `p`.
pub open spec fn pointer_to(p: int) -> Seq<u8> {
    u16_bytes(0xC000 + p)
}

/// Encoding of the suffix of `n` starting at `k`, written at position `q`,
/// given the recorded suffixes `m`: the bytes and the updated suffix map.
/// A recorded suffix whose position fits in a pointer is replaced by a
/// pointer; otherwise the label is written literally and, when the buffer
/// records suffixes and `q` fits in a pointer, the suffix is recorded at `q`.
pub open spec fn encode_name_from(
    n: Seq<char>,
    k: int,
    m: Map<Seq<char>, usize>,
    q: int,
    remember: bool,
) -> (Seq<u8>, Map<Seq<char>, usize>)
    decreases n.len() - k,
{
    if k < 0 || k >= n.len() {
        (seq![0u8], m)
    } else {
        let key = n.subrange(k, n.len() as int);
        if m.contains_key(key) && m[key] <= MAX_POINTER_TARGET {
            (pointer_to(m[key] as int), m)
        } else {
            let l = label_len(n, k);
            let m2 = if remember && q <= MAX_POINTER_TARGET {
                m.insert(key, q as usize)
            } else {
                m
            };
            let rest = if k + l < n.len() {
                encode_name_from(n, k + l + 1, m2, q + 1 + l, remember)
            } else {
                (seq![0u8], m2)
            };
            (seq![l as u8] + ascii_bytes(n.subrange(k, k + l)) + rest.0, rest.1)
        }
    }
}

/// Encoding of the whole name `n` written at position `q`.
pub open spec fn encode_name(n: Seq<char>, m: Map<Seq<char>, usize>, q: int, remember: bool) -> (
    Seq<u8>,
    Map<Seq<char>, usize>,
) {
    encode_name_from(n, 0, m, q, remember)
}

/// ASCII lowercase of one octet.
pub open spec fn lower_byte(b: u8) -> u8 {
    if 65 <= b <= 90 {
        (b + 32) as u8
    } else {
        b
    }
}

/// ASCII lowercase of a sequence of octets.
pub open spec fn lower_bytes(b: Seq<u8>) -> Seq<u8> {
    Seq::new(b.len(), |i: int| lower_byte(b[i]))
}

/// Lossy UTF-8 decoding of `b`, where invalid sequences become U+FFFD.
pub uninterp spec fn utf8_lossy(b: Seq<u8>) -> Seq<char>;

/// The text of octets `b`: their UTF-8 decoding when valid, else the lossy one.
pub open spec fn decoded_text(b: Seq<u8>) -> Seq<char> {
    if valid_utf8(b) {
        decode_utf8(b)
    } else {
        utf8_lossy(b)
    }
}

/// The text of a label read from the wire: lowercased, then decoded.
pub open spec fn label_text(b: Seq<u8>) -> Seq<char> {
    decoded_text(lower_bytes(b))
}

/// The dotted text of a list of raw labels.
pub open spec fn join_labels(ls: Seq<Seq<u8>>) -> Seq<char>
    decreases ls.len(),
{
    if ls.len() == 0 {
        seq![]
    } else if ls.len() == 1 {
        label_text(ls[0])
    } else {
        join_labels(ls.drop_last()) + seq!['.'] + label_text(ls.last())
    }
}

/// Decoding of the name stored at `p`, following at most `jumps` compression
/// pointers: its raw labels and the position just past its encoding at `p`
/// (past the first pointer, when there is one). A pointer must point strictly
/// backwards and be complete.
pub open spec fn scan_name(d: Seq<u8>, p: int, jumps: nat) -> Result<
    (Seq<Seq<u8>>, int),
    BufferError,
>
    decreases jumps, d.len() - p,
{
    if p < 0 || p >= d.len() {
        Err(BufferError::EndOfBuffer)
    } else if d[p] >= 0xC0 {
        if p + 1 >= d.len() {
            Err(BufferError::MalformedName)
        } else {
            let off = (d[p] - 0xC0) * 256 + d[p + 1];
            if off >= p || jumps == 0 {
                Err(BufferError::MalformedName)
            } else {
                match scan_name(d, off, (jumps - 1) as nat) {
                    Ok(r) => Ok((r.0, p + 2)),
                    Err(e) => Err(e),
                }
            }
        }
    } else if d[p] == 0 {
        Ok((seq![], p + 1))
    } else if p + 1 + d[p] > d.len() {
        Err(BufferError::EndOfBuffer)
    } else {
        match scan_name(d, p + 1 + d[p], jumps) {
            Ok(r) => Ok((seq![d.subrange(p + 1, p + 1 + d[p])] + r.0, r.1)),
            Err(e) => Err(e),
        }
    }
}

/// The name read at `p` of `d`: its dotted, lowercased text and the position after it.
pub open spec fn read_name(d: Seq<u8>, p: int) -> Result<(Seq<char>, int), BufferError> {
    match scan_name(d, p, MAX_JUMPS as nat) {
        Ok(r) => Ok((join_labels(r.0), r.1)),
        Err(e) => Err(e),
    }
}

/// Whether position `p` of `d` holds a complete compression pointer.
pub open spec fn is_pointer_at(d: Seq<u8>, p: int) -> bool {
    0 <= p && p + 1 < d.len() && d[p] >= 0xC0
}

/// The target of the compression pointer at `p`.
pub open spec fn pointer_target(d: Seq<u8>, p: int) -> int {
    (d[p] - 0xC0) * 256 + d[p + 1]
}

/// Whether `n` compression pointers follow one another from `p`, each
/// pointing to the next.
pub open spec fn pointer_chain(d: Seq<u8>, p: int, n: nat) -> bool
    decreases n,
{
    if n == 0 {
        true
    } else {
        is_pointer_at(d, p) && pointer_chain(d, pointer_target(d, p), (n - 1) as nat)
    }
}

/// A pointer that does not point strictly backwards is refused as
/// malformed. Every cycle of pointers holds such a pointer, so no cycle is
/// ever followed.
pub proof fn lemma_forward_pointer_refused(d: Seq<u8>, p: int, jumps: nat)
    requires
        is_pointer_at(d, p),
        pointer_target(d, p) >= p,
    ensures
        scan_name(d, p, jumps) == Err::<(Seq<Seq<u8>>, int), BufferError>(BufferError::MalformedName),
{
}

/// A chain of more pointers than the jump budget is refused as malformed.
pub proof fn lemma_long_chain_refused(d: Seq<u8>, p: int, jumps: nat)
    requires
        pointer_chain(d, p, jumps + 1),
    ensures
        scan_name(d, p, jumps) == Err::<(Seq<Seq<u8>>, int), BufferError>(BufferError::MalformedName),
    decreases jumps,
{
    let t = pointer_target(d, p);
    if t < p && jumps > 0 {
        lemma_long_chain_refused(d, t, (jumps - 1) as nat);
    }
}

/// Pointer-chain bound: decoding a name refuses, as malformed, any chain of
/// more than 64 compression pointers and any pointer that is not strictly
/// backwards (which every cycle contains).
pub proof fn lemma_pointer_chain_bound(d: Seq<u8>, p: int)
    ensures
        pointer_chain(d, p, (MAX_JUMPS + 1) as nat) ==> read_name(d, p) == Err::<(Seq<char>, int), BufferError>(
            BufferError::MalformedName,
        ),
        (is_pointer_at(d, p) && pointer_target(d, p) >= p) ==> read_name(d, p) == Err::<(Seq<char>, int), BufferError>(
            BufferError::MalformedName,
        ),
{
    if pointer_chain(d, p, (MAX_JUMPS + 1) as nat) {
        lemma_long_chain_refused(d, p, MAX_JUMPS as nat);
    }
}

/// ASCII lowercase of a character.
pub open spec fn lower_char(c: char) -> char {
    if 'A' <= c && c <= 'Z' {
        (((c as u32) + 32) as u32) as char
    } else {
        c
    }
}

/// ASCII lowercase of a text.
pub open spec fn lower_chars(s: Seq<char>) -> Seq<char> {
    Seq::new(s.len(), |i: int| lower_char(s[i]))
}

/// The raw labels of the name `n` from position `k` on, as written literally.
pub open spec fn name_labels_from(n: Seq<char>, k: int) -> Seq<Seq<u8>>
    decreases n.len() - k,
{
    if k < 0 || k >= n.len() {
        seq![]
    } else {
        let l = label_len(n, k);
        let rest = if k + l < n.len() {
            name_labels_from(n, k + l + 1)
        } else {
            seq![]
        };
        seq![ascii_bytes(n.subrange(k, k + l))] + rest
    }
}

proof fn lemma_label_len_props(n: Seq<char>, k: int)
    requires
        0 <= k <= n.len(),
    ensures
        k + label_len(n, k) <= n.len(),
        forall|j: int| k <= j < k + label_len(n, k) ==> n[j] != '.',
        k + label_len(n, k) < n.len() ==> n[k + label_len(n, k)] == '.',
    decreases n.len() - k,
{
    if k < n.len() && n[k] != '.' {
        lemma_label_len_props(n, k + 1);
    }
}

proof fn lemma_label_text_ascii(s: Seq<char>)
    requires
        forall|j: int| 0 <= j < s.len() ==> label_char(#[trigger] s[j]),
    ensures
        label_text(ascii_bytes(s)) == lower_chars(s),
{
    let low = lower_chars(s);
    assert(is_ascii_chars(low)) by {
        assert forall|i: int| 0 <= i < low.len() implies '\0' <= #[trigger] low[i] <= '\u{7f}' by {
            assert(label_char(s[i]));
        }
    }
    is_ascii_chars_encode_utf8(low);
    assert forall|i: int| 0 <= i < s.len() implies lower_bytes(ascii_bytes(s))[i] == #[trigger] encode_utf8(low)[i] by {
        assert(label_char(s[i]));
        let c = s[i];
        assert((c as u32) as u8 == c as u8);
        if 'A' <= c && c <= 'Z' {
            let x = ((c as u32) + 32) as u32;
            assert((x as char) as u8 == x as u8);
        }
    }
    assert(lower_bytes(ascii_bytes(s)) =~= encode_utf8(low));
    encode_utf8_valid_utf8(low);
    encode_utf8_decode_utf8(low);
}

proof fn lemma_join_cons(x: Seq<u8>, rest: Seq<Seq<u8>>)
    ensures
        join_labels(seq![x] + rest) == label_text(x) + if rest.len() > 0 {
            seq!['.'] + join_labels(rest)
        } else {
            Seq::<char>::empty()
        },
    decreases rest.len(),
{
    let all = seq![x] + rest;
    if rest.len() == 0 {
        assert(all =~= seq![x]);
        assert(label_text(x) + Seq::<char>::empty() =~= label_text(x));
    } else if rest.len() == 1 {
        assert(all.drop_last() =~= seq![x]);
        assert(all.last() == rest[0]);
        assert(join_labels(rest) == label_text(rest[0]));
        assert(seq![x][0] == x);
        assert(join_labels(seq![x]) == label_text(x));
        assert(join_labels(all) == join_labels(all.drop_last()) + seq!['.'] + label_text(all.last()));
        assert(join_labels(all) == label_text(x) + seq!['.'] + label_text(rest[0]));
        assert(label_text(x) + seq!['.'] + label_text(rest[0]) =~= label_text(x) + (seq!['.'] + label_text(rest[0])));
    } else {
        assert(all.drop_last() =~= seq![x] + rest.drop_last());
        assert(all.last() == rest.last());
        lemma_join_cons(x, rest.drop_last());
        assert(join_labels(rest) == join_labels(rest.drop_last()) + seq!['.'] + label_text(rest.last()));
        assert(join_labels(all) == join_labels(seq![x] + rest.drop_last()) + seq!['.'] + label_text(rest.last()));
        assert(join_labels(all) =~= label_text(x) + (seq!['.'] + join_labels(rest)));
    }
}

/// Writing the name from `k` when no suffix from `k` on can be pointed to
/// lays out its labels literally, and scanning them back gives those labels.
proof fn lemma_literal_scan(
    n: Seq<char>,
    k: int,
    m: Map<Seq<char>, usize>,
    q: int,
    remember: bool,
    d: Seq<u8>,
    jumps: nat,
)
    requires
        0 <= k,
        labels_valid_from(n, k),
        forall|key: Seq<char>| #[trigger] m.contains_key(key) ==> key.len() > n.len() - k,
        0 <= q,
        q + encode_name_from(n, k, m, q, remember).0.len() <= d.len(),
        d.subrange(q, q + encode_name_from(n, k, m, q, remember).0.len()) == encode_name_from(n, k, m, q, remember).0,
    ensures
        scan_name(d, q, jumps) == Ok::<(Seq<Seq<u8>>, int), BufferError>(
            (name_labels_from(n, k), q + encode_name_from(n, k, m, q, remember).0.len()),
        ),
    decreases n.len() - k,
{
    let enc = encode_name_from(n, k, m, q, remember).0;
    assert(d[q] == enc[0]);
    if k < n.len() {
        let key = n.subrange(k, n.len() as int);
        assert(!m.contains_key(key));
        let l = label_len(n, k);
        lemma_label_len_props(n, k);
        let m2 = if remember && q <= MAX_POINTER_TARGET {
            m.insert(key, q as usize)
        } else {
            m
        };
        let lb = ascii_bytes(n.subrange(k, k + l));
        assert(d.subrange(q + 1, q + 1 + l) =~= lb) by {
            assert forall|i: int| 0 <= i < l implies d.subrange(q + 1, q + 1 + l)[i] == lb[i] by {
                assert(d[q + 1 + i] == enc[1 + i]);
            }
        }
        if k + l < n.len() {
            let rest = encode_name_from(n, k + l + 1, m2, q + 1 + l, remember).0;
            assert(enc == seq![l as u8] + lb + rest);
            assert forall|key2: Seq<char>| #[trigger] m2.contains_key(key2) implies key2.len() > n.len() - (k + l + 1) by {
                if m.contains_key(key2) {
                } else {
                    assert(key2 == key);
                }
            }
            assert(d.subrange(q + 1 + l, q + 1 + l + rest.len()) =~= rest) by {
                assert forall|i: int| 0 <= i < rest.len() implies d.subrange(q + 1 + l, q + 1 + l + rest.len())[i] == rest[i] by {
                    assert(d[q + 1 + l + i] == enc[1 + l + i]);
                }
            }
            lemma_literal_scan(n, k + l + 1, m2, q + 1 + l, remember, d, jumps);
        } else {
            assert(enc == seq![l as u8] + lb + seq![0u8]);
            assert(d[q + 1 + l] == enc[1 + l as int]);
        }
    }
}

proof fn lemma_literal_text(n: Seq<char>, k: int)
    requires
        0 <= k <= n.len(),
        labels_valid_from(n, k),
        n.len() == 0 || n[n.len() - 1] != '.',
    ensures
        join_labels(name_labels_from(n, k)) == lower_chars(n.subrange(k, n.len() as int)),
    decreases n.len() - k,
{
    if k == n.len() {
        assert(lower_chars(n.subrange(k, n.len() as int)) =~= Seq::<char>::empty());
    } else {
        let l = label_len(n, k);
        lemma_label_len_props(n, k);
        let label = n.subrange(k, k + l);
        assert forall|j: int| 0 <= j < label.len() implies label_char(#[trigger] label[j]) by {
            assert(label[j] == n[k + j]);
        }
        lemma_label_text_ascii(label);
        if k + l < n.len() {
            let r = name_labels_from(n, k + l + 1);
            assert(k + l + 1 < n.len());
            lemma_literal_text(n, k + l + 1);
            assert(r.len() > 0);
            lemma_join_cons(ascii_bytes(label), r);
            assert(lower_chars(n.subrange(k, n.len() as int)) =~= lower_chars(label) + seq!['.']
                + lower_chars(n.subrange(k + l + 1, n.len() as int)));
        } else {
            lemma_join_cons(ascii_bytes(label), seq![]);
            assert(seq![ascii_bytes(label)] + Seq::<Seq<u8>>::empty() =~= seq![ascii_bytes(label)]);
            assert(label =~= n.subrange(k, n.len() as int));
        }
    }
}

/// Name round trip: a valid name without a trailing dot, written at `q`
/// where none of its suffixes can be pointed to (the buffer records no
/// suffixes, or only longer ones, as a fresh buffer does), reads back from
/// any data that holds its encoding at `q` as the name in lowercase, the
/// cursor ending right after the encoding. Names written one after another
/// into a buffer that records no suffixes therefore read back in order.
pub proof fn lemma_name_round_trip(
    n: Seq<char>,
    m: Map<Seq<char>, usize>,
    q: int,
    remember: bool,
    d: Seq<u8>,
)
    requires
        valid_name(n),
        n.len() == 0 || n[n.len() - 1] != '.',
        forall|key: Seq<char>| #[trigger] m.contains_key(key) ==> key.len() > n.len(),
        0 <= q,
        q + encode_name(n, m, q, remember).0.len() <= d.len(),
        d.subrange(q, q + encode_name(n, m, q, remember).0.len()) == encode_name(n, m, q, remember).0,
    ensures
        read_name(d, q) == Ok::<(Seq<char>, int), BufferError>(
            (lower_chars(n), q + encode_name(n, m, q, remember).0.len()),
        ),
{
    lemma_literal_scan(n, 0, m, q, remember, d, MAX_JUMPS as nat);
    lemma_literal_text(n, 0);
    assert(n.subrange(0, n.len() as int) =~= n);
}

/// Compression: a name whose whole text was already recorded at a position
/// a pointer can hold is written as a two-octet pointer, shorter than the
/// `n.len() + 2` octets of the name written out.
pub proof fn lemma_repeated_name_is_pointer(n: Seq<char>, m: Map<Seq<char>, usize>, q: int, remember: bool)
    requires
        n.len() > 0,
        m.contains_key(n),
        m[n] <= MAX_POINTER_TARGET,
    ensures
        encode_name(n, m, q, remember).0 == pointer_to(m[n] as int),
        encode_name(n, m, q, remember).0.len() < n.len() + 2,
{
    assert(n.subrange(0, n.len() as int) =~= n);
}

/// Relies on `String::from_utf8_lossy`: valid UTF-8 is decoded as it
/// stands, and each invalid sequence is replaced by U+FFFD.
#[verifier::external_body]
pub(crate) fn text_of_octets(b: &[u8]) -> (r: String)
    ensures
        r@ == utf8_lossy(b@),
        valid_utf8(b@) ==> r@ == decode_utf8(b@),
{
    String::from_utf8_lossy(b).into_owned()
}

/// ASCII lowercase of `b`.
pub(crate) fn lower_octets(b: &[u8]) -> (r: Vec<u8>)
    ensures
        r@ == lower_bytes(b@),
{
    let mut out: Vec<u8> = Vec::new();
    let mut i: usize = 0;
    while i < b.len()
        invariant
            i <= b@.len(),
            out@ == lower_bytes(b@.subrange(0, i as int)),
        decreases b@.len() - i,
    {
        let c = b[i];
        if 65 <= c && c <= 90 {
            out.push(c + 32);
        } else {
            out.push(c);
        }
        i = i + 1;
        assert(out@ =~= lower_bytes(b@.subrange(0, i as int)));
    }
    assert(b@.subrange(0, i as int) =~= b@);
    out
}

/// Whether `c` may appear in a label.
pub fn is_label_char(c: char) -> (r: bool)
    ensures
        r == label_char(c),
{
    ('a' <= c && c <= 'z') || ('A' <= c && c <= 'Z') || ('0' <= c && c <= '9') || c == '-'
}

/// Number of characters of the label of `qname` starting at `k`.
fn label_length(qname: &str, n: usize, k: usize) -> (r: usize)
    requires
        n == qname@.len(),
        k <= n,
    ensures
        r == label_len(qname@, k as int),
        k + r <= n,
{
    let mut j = k;
    while j < n && qname.get_char(j) != '.'
        invariant
            k <= j <= n,
            n == qname@.len(),
            label_len(qname@, k as int) == (j - k) + label_len(qname@, j as int),
        decreases n - j,
    {
        j = j + 1;
    }
    j - k
}

/// Whether `qname` can be encoded as a name.
pub fn name_is_valid(qname: &str) -> (r: bool)
    ensures
        r == valid_name(qname@),
{
    let n = qname.unicode_len();
    let mut k: usize = 0;
    while k < n
        invariant
            k <= n,
            n == qname@.len(),
            valid_name(qname@) == labels_valid_from(qname@, k as int),
        decreases n - k,
    {
        let len = label_length(qname, n, k);
        if len == 0 || len > 63 {
            return false;
        }
        let mut j = k;
        while j < k + len
            invariant
                k <= j <= k + len,
                k + len <= n,
                n == qname@.len(),
                k < n,
                len == label_len(qname@, k as int),
                valid_name(qname@) == labels_valid_from(qname@, k as int),
                forall|i: int| k <= i < j ==> label_char(#[trigger] qname@[i]),
            decreases k + len - j,
        {
            if !is_label_char(qname.get_char(j)) {
                return false;
            }
            j = j + 1;
        }
        if k + len < n {
            k = k + len + 1;
        } else {
            k = n;
        }
    }
    true
}

/// The octets of the ASCII label of `qname` from `k` to `k + len`.
fn label_octets(qname: &str, k: usize, end: usize) -> (r: Vec<u8>)
    requires
        k <= end <= qname@.len(),
    ensures
        r@ == ascii_bytes(qname@.subrange(k as int, end as int)),
{
    let mut out: Vec<u8> = Vec::new();
    let mut j = k;
    while j < end
        invariant
            k <= j <= end,
            end <= qname@.len(),
            out@ == ascii_bytes(qname@.subrange(k as int, j as int)),
        decreases end - j,
    {
        let c = qname.get_char(j);
        out.push(#[verifier::truncate] ((c as u32) as u8));
        j = j + 1;
        assert(out@ =~= ascii_bytes(qname@.subrange(k as int, j as int)));
    }
    out
}

/// The abstract state of a buffer.
pub struct BufferView {
    /// The bytes the buffer holds.
    pub data: Seq<u8>,
    /// The cursor position.
    pub cursor: int,
    /// The fixed capacity, or `None` for a growable buffer.
    pub capacity: Option<nat>,
    /// Written name suffixes and their positions.
    pub labels: Map<Seq<char>, usize>,
    /// Whether the buffer records name suffixes.
    pub remembers: bool,
}

impl BufferView {
    /// Internal consistency of the buffer.
    pub open spec fn wf(&self) -> bool {
        &&& 0 <= self.cursor <= self.data.len()
        &&& self.data.len() <= usize::MAX
        &&& match self.capacity {
            Some(k) => self.data.len() == k,
            None => true,
        }
        &&& !self.remembers ==> self.labels == Map::<Seq<char>, usize>::empty()
    }

    /// Whether `n` bytes can be written at the cursor.
    pub open spec fn room(&self, n: int) -> bool {
        has_room(self.data, self.cursor, self.capacity, n)
    }

    /// Whether `other` has the same capacity and label policy.
    pub open spec fn same_kind(&self, other: BufferView) -> bool {
        &&& other.capacity == self.capacity
        &&& other.remembers == self.remembers
    }

    /// Whether `new` is this buffer after writing `bs` at the cursor, with
    /// outcome `r`: the write succeeds exactly when there is room.
    pub open spec fn wrote_bytes(&self, new: BufferView, bs: Seq<u8>, r: Result<(), BufferError>) -> bool {
        &&& new.wf()
        &&& self.same_kind(new)
        &&& new.labels == self.labels
        &&& self.room(bs.len() as int) ==> {
            &&& r is Ok
            &&& new.data == put_bytes(self.data, self.cursor, bs)
            &&& new.cursor == self.cursor + bs.len()
        }
        &&& !self.room(bs.len() as int) ==> r == Err::<(), BufferError>(BufferError::EndOfBuffer)
    }

    /// Whether `new` is this buffer after writing the encoding `enc` (its
    /// bytes and the resulting suffix map) at the cursor, with outcome `r`:
    /// the write succeeds exactly when there is room.
    pub open spec fn wrote_encoding(
        &self,
        new: BufferView,
        enc: (Seq<u8>, Map<Seq<char>, usize>),
        r: Result<(), BufferError>,
    ) -> bool {
        &&& new.wf()
        &&& self.same_kind(new)
        &&& self.room(enc.0.len() as int) ==> {
            &&& r is Ok
            &&& new.data == put_bytes(self.data, self.cursor, enc.0)
            &&& new.cursor == self.cursor + enc.0.len()
            &&& new.labels == enc.1
        }
        &&& !self.room(enc.0.len() as int) ==> r == Err::<(), BufferError>(BufferError::EndOfBuffer)
    }

    /// Whether `new` is this buffer with the cursor moved past `n` bytes,
    /// when that many are readable.
    pub open spec fn read_past(&self, new: BufferView, n: int) -> bool {
        &&& new.wf()
        &&& self.same_kind(new)
        &&& new.data == self.data
        &&& new.labels == self.labels
        &&& self.cursor + n <= self.data.len() ==> new.cursor == self.cursor + n
    }
}

/// A cursor over a byte sequence with primitive reads and writes.
pub trait PacketBuffer: Sized + View<V = BufferView> {
    /// Reads the byte at the cursor and advances it.
    fn read(&mut self) -> (r: Result<u8, BufferError>)
        requires
            old(self)@.wf(),
        ensures
            final(self)@.wf(),
            old(self)@.same_kind(final(self)@),
            final(self)@.data == old(self)@.data,
            final(self)@.labels == old(self)@.labels,
            old(self)@.cursor < old(self)@.data.len() ==> r == Ok::<u8, BufferError>(
                old(self)@.data[old(self)@.cursor],
            ) && final(self)@.cursor == old(self)@.cursor + 1,
            old(self)@.cursor >= old(self)@.data.len() ==> r == Err::<u8, BufferError>(
                BufferError::EndOfBuffer,
            ) && final(self)@.cursor == old(self)@.cursor,
    ;

    /// The byte at an absolute position.
    fn get(&self, pos: usize) -> (r: Result<u8, BufferError>)
        requires
            self@.wf(),
        ensures
            pos < self@.data.len() ==> r == Ok::<u8, BufferError>(self@.data[pos as int]),
            pos >= self@.data.len() ==> r == Err::<u8, BufferError>(BufferError::EndOfBuffer),
    ;

    /// The `len` bytes starting at `start`.
    fn get_range(&self, start: usize, len: usize) -> (r: Result<&[u8], BufferError>)
        requires
            self@.wf(),
        ensures
            start + len <= self@.data.len() ==> r is Ok && r->Ok_0@ == self@.data.subrange(
                start as int,
                start + len,
            ),
            start + len > self@.data.len() ==> r == Err::<&[u8], BufferError>(
                BufferError::EndOfBuffer,
            ),
    ;

    /// Writes a byte at the cursor and advances it.
    fn write(&mut self, val: u8) -> (r: Result<(), BufferError>)
        requires
            old(self)@.wf(),
        ensures
            final(self)@.wf(),
            old(self)@.same_kind(final(self)@),
            final(self)@.labels == old(self)@.labels,
            old(self)@.room(1) ==> r is Ok && final(self)@.data == put_bytes(
                old(self)@.data,
                old(self)@.cursor,
                seq![val],
            ) && final(self)@.cursor == old(self)@.cursor + 1,
            !old(self)@.room(1) ==> r == Err::<(), BufferError>(BufferError::EndOfBuffer)
                && final(self)@.data == old(self)@.data && final(self)@.cursor == old(self)@.cursor,
    ;

    /// Overwrites the byte at an absolute position.
    fn set(&mut self, pos: usize, val: u8) -> (r: Result<(), BufferError>)
        requires
            old(self)@.wf(),
        ensures
            final(self)@.wf(),
            old(self)@.same_kind(final(self)@),
            final(self)@.labels == old(self)@.labels,
            final(self)@.cursor == old(self)@.cursor,
            pos < old(self)@.data.len() ==> r is Ok && final(self)@.data == old(self)@.data.update(pos as int, val),
            pos >= old(self)@.data.len() ==> r == Err::<(), BufferError>(
                BufferError::EndOfBuffer,
            ) && final(self)@.data == old(self)@.data,
    ;

    /// The cursor position.
    fn pos(&self) -> (r: usize)
        requires
            self@.wf(),
        ensures
            r == self@.cursor,
    ;

    /// Moves the cursor to an absolute position (at most the end of the data).
    fn seek(&mut self, pos: usize) -> (r: Result<(), BufferError>)
        requires
            old(self)@.wf(),
        ensures
            final(self)@.wf(),
            old(self)@.same_kind(final(self)@),
            final(self)@.data == old(self)@.data,
            final(self)@.labels == old(self)@.labels,
            pos <= old(self)@.data.len() ==> r is Ok && final(self)@.cursor == pos,
            pos > old(self)@.data.len() ==> r == Err::<(), BufferError>(
                BufferError::EndOfBuffer,
            ) && final(self)@.cursor == old(self)@.cursor,
    ;

    /// Advances the cursor (at most to the end of the data).
    fn step(&mut self, steps: usize) -> (r: Result<(), BufferError>)
        requires
            old(self)@.wf(),
        ensures
            final(self)@.wf(),
            old(self)@.same_kind(final(self)@),
            final(self)@.data == old(self)@.data,
            final(self)@.labels == old(self)@.labels,
            old(self)@.cursor + steps <= old(self)@.data.len() ==> r is Ok && final(self)@.cursor == old(self)@.cursor + steps,
            old(self)@.cursor + steps > old(self)@.data.len() ==> r == Err::<
                (),
                BufferError,
            >(BufferError::EndOfBuffer) && final(self)@.cursor == old(self)@.cursor,
    ;

    /// The position where a name suffix was written, if recorded.
    fn find_label(&self, label: &str) -> (r: Option<usize>)
        requires
            self@.wf(),
        ensures
            r == (if self@.labels.contains_key(label@) {
                Some(self@.labels[label@])
            } else {
                None::<usize>
            }),
    ;

    /// Records the position where a name suffix was written.
    fn save_label(&mut self, label: &str, pos: usize)
        requires
            old(self)@.wf(),
        ensures
            final(self)@.wf(),
            old(self)@.same_kind(final(self)@),
            final(self)@.data == old(self)@.data,
            final(self)@.cursor == old(self)@.cursor,
            final(self)@.labels == (if old(self)@.remembers {
                old(self)@.labels.insert(label@, pos)
            } else {
                old(self)@.labels
            }),
    ;

    /// Reads a big-endian 16-bit value at the cursor.
    fn read_u16(&mut self) -> (r: Result<u16, BufferError>)
        requires
            old(self)@.wf(),
        ensures
            old(self)@.read_past(final(self)@, 2),
            old(self)@.cursor + 2 <= old(self)@.data.len() ==> r == Ok::<u16, BufferError>(
                be16(old(self)@.data, old(self)@.cursor) as u16,
            ),
            old(self)@.cursor + 2 > old(self)@.data.len() ==> r == Err::<u16, BufferError>(
                BufferError::EndOfBuffer,
            ),
    {
        let hi = self.read()?;
        let lo = self.read()?;
        Ok((hi as u16) * 256 + (lo as u16))
    }

    /// Reads a big-endian 32-bit value at the cursor.
    fn read_u32(&mut self) -> (r: Result<u32, BufferError>)
        requires
            old(self)@.wf(),
        ensures
            old(self)@.read_past(final(self)@, 4),
            old(self)@.cursor + 4 <= old(self)@.data.len() ==> r == Ok::<u32, BufferError>(
                be32(old(self)@.data, old(self)@.cursor) as u32,
            ),
            old(self)@.cursor + 4 > old(self)@.data.len() ==> r == Err::<u32, BufferError>(
                BufferError::EndOfBuffer,
            ),
    {
        let b0 = self.read()?;
        let b1 = self.read()?;
        let b2 = self.read()?;
        let b3 = self.read()?;
        Ok((b0 as u32) * 0x1000000 + (b1 as u32) * 0x10000 + (b2 as u32) * 256 + (b3 as u32))
    }

    /// Writes one byte at the cursor.
    fn write_u8(&mut self, val: u8) -> (r: Result<(), BufferError>)
        requires
            old(self)@.wf(),
        ensures
            old(self)@.wrote_bytes(final(self)@, seq![val], r),
    {
        self.write(val)
    }

    /// Overwrites a big-endian 16-bit value at an absolute position.
    fn set_u16(&mut self, pos: usize, val: u16) -> (r: Result<(), BufferError>)
        requires
            old(self)@.wf(),
        ensures
            final(self)@.wf(),
            old(self)@.same_kind(final(self)@),
            final(self)@.labels == old(self)@.labels,
            final(self)@.cursor == old(self)@.cursor,
            pos + 2 <= old(self)@.data.len() ==> r is Ok && final(self)@.data == old(self)@.data.update(
                pos as int,
                (val / 256) as u8,
            ).update(pos + 1, (val % 256) as u8),
            pos + 2 > old(self)@.data.len() ==> r == Err::<(), BufferError>(
                BufferError::EndOfBuffer,
            ) && final(self)@.data == old(self)@.data,
    {
        if pos >= usize::MAX {
            return Err(BufferError::EndOfBuffer);
        }
        if let Err(e) = self.get(pos + 1) {
            return Err(e);
        }
        self.set(pos, (val / 256) as u8)?;
        self.set(pos + 1, (val % 256) as u8)?;
        Ok(())
    }

    /// Writes all of `bytes` at the cursor.
    fn write_all(&mut self, bytes: &[u8]) -> (r: Result<(), BufferError>)
        requires
            old(self)@.wf(),
        ensures
            old(self)@.wrote_bytes(final(self)@, bytes@, r),
    {
        let ghost d0 = self@.data;
        let ghost c0 = self@.cursor;
        let mut i: usize = 0;
        while i < bytes.len()
            invariant
                self@.wf(),
                old(self)@.same_kind(self@),
                self@.labels == old(self)@.labels,
                d0 == old(self)@.data,
                c0 == old(self)@.cursor,
                0 <= c0 <= d0.len(),
                i <= bytes@.len(),
                self@.data == put_bytes(d0, c0, bytes@.subrange(0, i as int)),
                self@.cursor == c0 + i,
                c0 + i <= room_bound(self@.capacity),
            decreases bytes@.len() - i,
        {
            let ghost before = self@.data;
            let res = self.write(bytes[i]);
            if res.is_err() {
                return res;
            }
            proof {
                lemma_put_concat(d0, c0, bytes@.subrange(0, i as int), seq![bytes@[i as int]]);
                assert(bytes@.subrange(0, i as int) + seq![bytes@[i as int]] =~= bytes@.subrange(
                    0,
                    i + 1,
                ));
            }
            i = i + 1;
        }
        assert(bytes@.subrange(0, i as int) =~= bytes@);
        Ok(())
    }

    /// Writes a big-endian 16-bit value at the cursor.
    fn write_u16(&mut self, val: u16) -> (r: Result<(), BufferError>)
        requires
            old(self)@.wf(),
        ensures
            old(self)@.wrote_bytes(final(self)@, u16_bytes(val as int), r),
    {
        let bytes = [(val / 256) as u8, (val % 256) as u8];
        assert(bytes@ =~= u16_bytes(val as int));
        self.write_all(&bytes)
    }

    /// Writes a big-endian 32-bit value at the cursor.
    fn write_u32(&mut self, val: u32) -> (r: Result<(), BufferError>)
        requires
            old(self)@.wf(),
        ensures
            old(self)@.wrote_bytes(final(self)@, u32_bytes(val as int), r),
    {
        let bytes = [
            (val / 0x1000000) as u8,
            ((val / 0x10000) % 256) as u8,
            ((val / 256) % 256) as u8,
            (val % 256) as u8,
        ];
        assert(bytes@ =~= u32_bytes(val as int));
        self.write_all(&bytes)
    }

    /// Writes a name at the cursor, compressing suffixes already written.
    fn write_qname(&mut self, qname: &str) -> (r: Result<(), BufferError>)
        requires
            old(self)@.wf(),
        ensures
            final(self)@.wf(),
            old(self)@.same_kind(final(self)@),
            !valid_name(qname@) ==> r == Err::<(), BufferError>(BufferError::InvalidLabel)
                && final(self)@ == old(self)@,
            valid_name(qname@) ==> old(self)@.wrote_encoding(
                final(self)@,
                encode_name(qname@, old(self)@.labels, old(self)@.cursor, old(self)@.remembers),
                r,
            ),
    {
        if !name_is_valid(qname) {
            return Err(BufferError::InvalidLabel);
        }
        let n = qname.unicode_len();
        let ghost d0 = self@.data;
        let ghost c0 = self@.cursor;
        let ghost rem = self@.remembers;
        let ghost total = encode_name(qname@, self@.labels, c0, rem);
        let ghost mut written: Seq<u8> = seq![];
        let mut k: usize = 0;
        while k < n
            invariant
                self@.wf(),
                old(self)@.same_kind(self@),
                d0 == old(self)@.data,
                c0 == old(self)@.cursor,
                0 <= c0 <= d0.len(),
                rem == old(self)@.remembers,
                total == encode_name(qname@, old(self)@.labels, c0, rem),
                n == qname@.len(),
                k <= n,
                valid_name(qname@),
                labels_valid_from(qname@, k as int),
                total.0 == written + encode_name_from(qname@, k as int, self@.labels, self@.cursor, rem).0,
                total.1 == encode_name_from(qname@, k as int, self@.labels, self@.cursor, rem).1,
                self@.data == put_bytes(d0, c0, written),
                self@.cursor == c0 + written.len(),
                c0 + written.len() <= room_bound(self@.capacity),
            decreases n - k,
        {
            let key = qname.substring_char(k, n);
            let ghost tail = encode_name_from(qname@, k as int, self@.labels, self@.cursor, rem);
            let found = self.find_label(key);
            if let Some(p) = found {
                if p <= MAX_POINTER_TARGET {
                    let ghost before = self@;
                    let res = self.write_u16(0xC000 + p as u16);
                    proof {
                        assert(tail.0 == pointer_to(p as int));
                        if res is Ok {
                            lemma_put_concat(d0, c0, written, tail.0);
                        }
                    }
                    return res;
                }
            }
            let len = label_length(qname, n, k);
            let here = self.pos();
            if here <= MAX_POINTER_TARGET {
                self.save_label(key, here);
            }
            let ghost m2 = self@.labels;
            let ghost rest = if k + len < n {
                encode_name_from(qname@, k + len + 1, m2, here + 1 + len, rem)
            } else {
                (seq![0u8], m2)
            };
            let ghost lbytes = ascii_bytes(qname@.subrange(k as int, k + len));
            assert(tail.0 == seq![len as u8] + lbytes + rest.0);
            let res = self.write_u8(len as u8);
            if res.is_err() {
                return res;
            }
            proof {
                lemma_put_concat(d0, c0, written, seq![len as u8]);
                written = written + seq![len as u8];
            }
            let octets = label_octets(qname, k, k + len);
            let res = self.write_all(octets.as_slice());
            if res.is_err() {
                return res;
            }
            proof {
                lemma_put_concat(d0, c0, written, lbytes);
                assert(total.0 =~= (written + lbytes) + rest.0);
                written = written + lbytes;
            }
            if k + len < n {
                k = k + len + 1;
            } else {
                k = n;
            }
        }
        let res = self.write_u8(0);
        proof {
            if res is Ok {
                lemma_put_concat(d0, c0, written, seq![0u8]);
            }
        }
        res
    }

    /// Whether a length octet is the start of a compression pointer.
    fn is_compression_pointer(&self, len: u8) -> (r: bool)
        ensures
            r == (len >= 0xC0),
    {
        len >= 0xC0
    }

    /// The target of the compression pointer whose first octet `len` sits at `pos`.
    fn calculate_offset(&self, pos: usize, len: u8) -> (r: Result<usize, BufferError>)
        requires
            self@.wf(),
            len >= 0xC0,
        ensures
            pos + 1 < self@.data.len() ==> r == Ok::<usize, BufferError>(
                ((len - 0xC0) * 256 + self@.data[pos + 1]) as usize,
            ),
            pos + 1 >= self@.data.len() ==> r == Err::<usize, BufferError>(
                BufferError::MalformedName,
            ),
    {
        if pos >= usize::MAX {
            return Err(BufferError::MalformedName);
        }
        match self.get(pos + 1) {
            Ok(b2) => Ok(((len - 0xC0) as usize) * 256 + (b2 as usize)),
            Err(_) => Err(BufferError::MalformedName),
        }
    }

    /// Reads the name at the cursor, appending its lowercased dotted text to
    /// `outstr`; the cursor moves past the name's encoding at the cursor.
    fn read_qname(&mut self, outstr: &mut String) -> (r: Result<(), BufferError>)
        requires
            old(self)@.wf(),
        ensures
            final(self)@.wf(),
            old(self)@.same_kind(final(self)@),
            final(self)@.data == old(self)@.data,
            final(self)@.labels == old(self)@.labels,
            match read_name(old(self)@.data, old(self)@.cursor) {
                Ok(res) => {
                    &&& r is Ok
                    &&& final(outstr)@ == old(outstr)@ + res.0
                    &&& final(self)@.cursor == res.1
                },
                Err(e) => r == Err::<(), BufferError>(e),
            },
    {
        let ghost d = self@.data;
        let ghost c0 = self@.cursor;
        let ghost s0 = outstr@;
        let ghost mut acc: Seq<Seq<u8>> = seq![];
        let mut pos = self.pos();
        let mut jumped = false;
        let mut jumps: usize = 0;
        let mut first = true;
        loop
            invariant
                self@.wf(),
                old(self)@.same_kind(self@),
                self@.data == d,
                self@.labels == old(self)@.labels,
                d == old(self)@.data,
                c0 == old(self)@.cursor,
                s0 == old(outstr)@,
                jumps <= MAX_JUMPS,
                pos <= d.len(),
                outstr@ == s0 + join_labels(acc),
                first == (acc.len() == 0),
                !jumped ==> self@.cursor == c0,
                match scan_name(d, pos as int, (MAX_JUMPS - jumps) as nat) {
                    Ok(t) => scan_name(d, c0, MAX_JUMPS as nat) == Ok::<
                        (Seq<Seq<u8>>, int),
                        BufferError,
                    >((acc + t.0, if jumped { self@.cursor } else { t.1 })),
                    Err(e) => scan_name(d, c0, MAX_JUMPS as nat) == Err::<
                        (Seq<Seq<u8>>, int),
                        BufferError,
                    >(e),
                },
            decreases MAX_JUMPS - jumps, d.len() - pos,
        {
            let len = self.get(pos)?;
            if self.is_compression_pointer(len) {
                let offset = self.calculate_offset(pos, len)?;
                if offset >= pos || jumps >= MAX_JUMPS {
                    return Err(BufferError::MalformedName);
                }
                if !jumped {
                    let _ = self.seek(pos + 2);
                    jumped = true;
                }
                jumps = jumps + 1;
                pos = offset;
            } else if len == 0 {
                if !jumped {
                    let _ = self.seek(pos + 1);
                }
                return Ok(());
            } else {
                let ghost t = scan_name(d, pos as int, (MAX_JUMPS - jumps) as nat);
                let bytes = self.get_range(pos + 1, len as usize)?;
                let lowered = lower_octets(bytes);
                let text = text_of_octets(lowered.as_slice());
                if !first {
                    outstr.append(".");
                }
                outstr.append(text.as_str());
                let ghost lb = bytes@;
                let next = pos + 1 + len as usize;
                proof {
                    reveal_strlit(".");
                    assert((acc + seq![lb]).drop_last() =~= acc);
                    match scan_name(d, next as int, (MAX_JUMPS - jumps) as nat) {
                        Ok(t2) => {
                            assert(acc + (seq![lb] + t2.0) =~= (acc + seq![lb]) + t2.0);
                        },
                        Err(_) => {},
                    }
                    acc = acc + seq![lb];
                }
                first = false;
                pos = next;
            }
        }
    }
}

/// The label map described by a list of (suffix, position) entries, later entries winning.
pub open spec fn label_map(entries: Seq<(String, usize)>) -> Map<Seq<char>, usize>
    decreases entries.len(),
{
    if entries.len() == 0 {
        Map::empty()
    } else {
        label_map(entries.drop_last()).insert(entries.last().0@, entries.last().1)
    }
}

proof fn lemma_label_map_skip(entries: Seq<(String, usize)>, i: int, key: Seq<char>)
    requires
        0 <= i <= entries.len(),
        forall|j: int| i <= j < entries.len() ==> entries[j].0@ != key,
    ensures
        label_map(entries).contains_key(key) == label_map(entries.subrange(0, i)).contains_key(
            key,
        ),
        label_map(entries)[key] == label_map(entries.subrange(0, i))[key],
    decreases entries.len() - i,
{
    if i < entries.len() {
        let prefix = entries.drop_last();
        assert(entries.subrange(0, i) =~= prefix.subrange(0, i));
        lemma_label_map_skip(prefix, i, key);
    } else {
        assert(entries.subrange(0, i) =~= entries);
    }
}

/// A growable in-memory buffer, used for encoding and for whole-message decoding.
pub struct VectorPacketBuffer {
    pub buffer: Vec<u8>,
    pub pos: usize,
    pub label_lookup: Vec<(String, usize)>,
}

impl VectorPacketBuffer {
    /// An empty buffer with the cursor at 0 and no recorded labels.
    pub fn new() -> (r: VectorPacketBuffer)
        ensures
            r@.wf(),
            r@.data == Seq::<u8>::empty(),
            r@.cursor == 0,
            r@.labels == Map::<Seq<char>, usize>::empty(),
    {
        VectorPacketBuffer { buffer: Vec::new(), pos: 0, label_lookup: Vec::new() }
    }

    /// A buffer holding `bytes`, with the cursor at 0 and no recorded labels.
    pub fn from_bytes(bytes: Vec<u8>) -> (r: VectorPacketBuffer)
        ensures
            r@.wf(),
            r@.data == bytes@,
            r@.cursor == 0,
            r@.labels == Map::<Seq<char>, usize>::empty(),
    {
        let _n = bytes.len();
        VectorPacketBuffer { buffer: bytes, pos: 0, label_lookup: Vec::new() }
    }
}

impl View for VectorPacketBuffer {
    type V = BufferView;

    open spec fn view(&self) -> BufferView {
        BufferView {
            data: self.buffer@,
            cursor: self.pos as int,
            capacity: None,
            labels: label_map(self.label_lookup@),
            remembers: true,
        }
    }
}

impl PacketBuffer for VectorPacketBuffer {
    fn read(&mut self) -> (r: Result<u8, BufferError>) {
        if self.pos >= self.buffer.len() {
            return Err(BufferError::EndOfBuffer);
        }
        let res = self.buffer[self.pos];
        self.pos = self.pos + 1;
        Ok(res)
    }

    fn get(&self, pos: usize) -> (r: Result<u8, BufferError>) {
        if pos >= self.buffer.len() {
            return Err(BufferError::EndOfBuffer);
        }
        Ok(self.buffer[pos])
    }

    fn get_range(&self, start: usize, len: usize) -> (r: Result<&[u8], BufferError>) {
        if len > self.buffer.len() || start > self.buffer.len() - len {
            return Err(BufferError::EndOfBuffer);
        }
        Ok(slice_subrange(self.buffer.as_slice(), start, start + len))
    }

    fn write(&mut self, val: u8) -> (r: Result<(), BufferError>) {
        if self.pos == usize::MAX {
            return Err(BufferError::EndOfBuffer);
        }
        if self.pos < self.buffer.len() {
            self.buffer.set(self.pos, val);
            assert(self.buffer@ =~= put_bytes(old(self).buffer@, old(self).pos as int, seq![val]));
        } else {
            self.buffer.push(val);
            assert(self.buffer@ =~= put_bytes(old(self).buffer@, old(self).pos as int, seq![val]));
        }
        self.pos = self.pos + 1;
        Ok(())
    }

    fn set(&mut self, pos: usize, val: u8) -> (r: Result<(), BufferError>) {
        if pos >= self.buffer.len() {
            return Err(BufferError::EndOfBuffer);
        }
        self.buffer.set(pos, val);
        Ok(())
    }

    fn pos(&self) -> (r: usize) {
        self.pos
    }

    fn seek(&mut self, pos: usize) -> (r: Result<(), BufferError>) {
        if pos > self.buffer.len() {
            return Err(BufferError::EndOfBuffer);
        }
        self.pos = pos;
        Ok(())
    }

    fn step(&mut self, steps: usize) -> (r: Result<(), BufferError>) {
        if steps > self.buffer.len() - self.pos {
            return Err(BufferError::EndOfBuffer);
        }
        self.pos = self.pos + steps;
        Ok(())
    }

    fn find_label(&self, label: &str) -> (r: Option<usize>) {
        let key = String::from_str(label);
        let mut i = self.label_lookup.len();
        while i > 0
            invariant
                i <= self.label_lookup@.len(),
                key@ == label@,
                forall|j: int|
                    i <= j < self.label_lookup@.len() ==> self.label_lookup@[j].0@ != label@,
            decreases i,
        {
            let entry = &self.label_lookup[i - 1];
            if entry.0 == key {
                proof {
                    lemma_label_map_skip(self.label_lookup@, i as int, label@);
                    let prefix = self.label_lookup@.subrange(0, i as int);
                    assert(prefix.drop_last() =~= self.label_lookup@.subrange(0, i - 1));
                }
                return Some(entry.1);
            }
            i = i - 1;
        }
        proof {
            lemma_label_map_skip(self.label_lookup@, 0, label@);
            assert(self.label_lookup@.subrange(0, 0) =~= Seq::<(String, usize)>::empty());
        }
        None
    }

    fn save_label(&mut self, label: &str, pos: usize) {
        self.label_lookup.push((String::from_str(label), pos));
        assert(self.label_lookup@.drop_last() =~= old(self).label_lookup@);
    }
}

/// A fixed buffer of 512 octets, the size of a UDP message.
pub struct BytePacketBuffer {
    pub buf: [u8; 512],
    pub pos: usize,
}

impl BytePacketBuffer {
    /// A zero-filled buffer with the cursor at 0.
    pub fn new() -> (r: BytePacketBuffer)
        ensures
            r@.wf(),
            r@.data == Seq::new(512, |i: int| 0u8),
            r@.cursor == 0,
    {
        let r = BytePacketBuffer { buf: [0u8; 512], pos: 0 };
        assert(r.buf@ =~= Seq::new(512, |i: int| 0u8));
        r
    }
}

impl View for BytePacketBuffer {
    type V = BufferView;

    open spec fn view(&self) -> BufferView {
        BufferView {
            data: self.buf@,
            cursor: self.pos as int,
            capacity: Some(512),
            labels: Map::empty(),
            remembers: false,
        }
    }
}

impl PacketBuffer for BytePacketBuffer {
    fn read(&mut self) -> (r: Result<u8, BufferError>) {
        if self.pos >= UDP_BUFFER_SIZE {
            return Err(BufferError::EndOfBuffer);
        }
        let res = self.buf[self.pos];
        self.pos = self.pos + 1;
        Ok(res)
    }

    fn get(&self, pos: usize) -> (r: Result<u8, BufferError>) {
        if pos >= UDP_BUFFER_SIZE {
            return Err(BufferError::EndOfBuffer);
        }
        Ok(self.buf[pos])
    }

    fn get_range(&self, start: usize, len: usize) -> (r: Result<&[u8], BufferError>) {
        if len > UDP_BUFFER_SIZE || start > UDP_BUFFER_SIZE - len {
            return Err(BufferError::EndOfBuffer);
        }
        Ok(slice_subrange(self.buf.as_slice(), start, start + len))
    }

    fn write(&mut self, val: u8) -> (r: Result<(), BufferError>) {
        if self.pos >= UDP_BUFFER_SIZE {
            return Err(BufferError::EndOfBuffer);
        }
        self.buf[self.pos] = val;
        assert(self.buf@ =~= put_bytes(old(self).buf@, old(self).pos as int, seq![val]));
        self.pos = self.pos + 1;
        Ok(())
    }

    fn set(&mut self, pos: usize, val: u8) -> (r: Result<(), BufferError>) {
        if pos >= UDP_BUFFER_SIZE {
            return Err(BufferError::EndOfBuffer);
        }
        self.buf[pos] = val;
        Ok(())
    }

    fn pos(&self) -> (r: usize) {
        self.pos
    }

    fn seek(&mut self, pos: usize) -> (r: Result<(), BufferError>) {
        if pos > UDP_BUFFER_SIZE {
            return Err(BufferError::EndOfBuffer);
        }
        self.pos = pos;
        Ok(())
    }

    fn step(&mut self, steps: usize) -> (r: Result<(), BufferError>) {
        if steps > UDP_BUFFER_SIZE - self.pos {
            return Err(BufferError::EndOfBuffer);
        }
        self.pos = self.pos + steps;
        Ok(())
    }

    fn find_label(&self, label: &str) -> (r: Option<usize>) {
        None
    }

    fn save_label(&mut self, label: &str, pos: usize) {
    }
}

} // verus!
