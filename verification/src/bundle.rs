//! Bundle assembly: an ordered, dependency-annotated operation list with a
//! deterministic fingerprint.
//!
//! An atomic bundle chains every operation to its immediate predecessor, so
//! the whole bundle commits as one unit; a non-atomic bundle records no
//! dependencies. The fingerprint digests a canonical, length-prefixed
//! encoding of the operations, the account and the starting sequence number,
//! so identical inputs always produce identical fingerprints.

use vstd::prelude::*;
use crate::digest::{hex_encode, hex_of, sha256, sha256_of};
use crate::errors::CoreError;

verus! {

/// Fixed resource cost charged per bundled operation.
pub const BASE_GAS_PER_OPERATION: u64 = 10_000;

/// One requested operation: a kind tag and an opaque payload.
#[derive(Clone, Debug)]
pub struct OperationRequest {
    pub operation: Vec<u8>,
    pub params: Vec<u8>,
}

/// One operation of an assembled bundle.
#[derive(Clone, Debug)]
pub struct BundleTransaction {
    pub operation: Vec<u8>,
    pub params: Vec<u8>,
    /// Indices of earlier operations this one depends on.
    pub depends_on: Vec<usize>,
}

/// An assembled bundle.
pub struct TransactionBundle {
    pub transactions: Vec<BundleTransaction>,
    pub atomic: bool,
    pub estimated_gas: u64,
    pub bundle_hash: String,
}

/// The dependency set an assembled bundle gives operation `i`.
pub open spec fn spec_deps(atomic: bool, i: int) -> Seq<usize> {
    if atomic && i > 0 {
        seq![(i - 1) as usize]
    } else {
        Seq::empty()
    }
}

/// Every dependency points strictly backwards: no forward or self
/// references, hence no cycles.
pub open spec fn deps_acyclic(txs: Seq<BundleTransaction>) -> bool {
    forall|i: int, j: int|
        0 <= i < txs.len() && 0 <= j < txs[i].depends_on@.len()
            ==> (#[trigger] txs[i].depends_on@[j]) < i
}

/// 8 bytes, big endian.
pub open spec fn enc_u64(n: u64) -> Seq<u8> {
    seq![
        ((n >> 56) & 0xff) as u8,
        ((n >> 48) & 0xff) as u8,
        ((n >> 40) & 0xff) as u8,
        ((n >> 32) & 0xff) as u8,
        ((n >> 24) & 0xff) as u8,
        ((n >> 16) & 0xff) as u8,
        ((n >> 8) & 0xff) as u8,
        (n & 0xff) as u8,
    ]
}

/// A length-prefixed byte string.
pub open spec fn enc_bytes(b: Seq<u8>) -> Seq<u8> {
    enc_u64(b.len() as u64) + b
}

/// One operation: its kind, then its payload, each length-prefixed.
pub open spec fn enc_op(op: (Seq<u8>, Seq<u8>)) -> Seq<u8> {
    enc_bytes(op.0) + enc_bytes(op.1)
}

/// Every operation's encoding, in order.
pub open spec fn enc_ops(ops: Seq<(Seq<u8>, Seq<u8>)>) -> Seq<u8>
    decreases ops.len(),
{
    if ops.len() == 0 {
        Seq::empty()
    } else {
        enc_op(ops[0]) + enc_ops(ops.drop_first())
    }
}

/// The canonical encoding of a bundle's identity: sequence number, account,
/// operation count, then every operation, all length-prefixed.
pub open spec fn canonical_encoding(
    ops: Seq<(Seq<u8>, Seq<u8>)>,
    account: Seq<u8>,
    sequence: u64,
) -> Seq<u8> {
    enc_u64(sequence) + enc_bytes(account) + enc_u64(ops.len() as u64) + enc_ops(ops)
}

/// The fingerprint: a tag and the lowercase hex of the first 8 digest bytes
/// of the canonical encoding.
pub open spec fn spec_fingerprint(
    ops: Seq<(Seq<u8>, Seq<u8>)>,
    account: Seq<u8>,
    sequence: u64,
) -> Seq<char> {
    "bundle_"@ + hex_of(sha256_of(canonical_encoding(ops, account, sequence)).take(8))
}

/// What each operation contributes to the canonical encoding.
pub open spec fn ops_view(ops: Seq<OperationRequest>) -> Seq<(Seq<u8>, Seq<u8>)> {
    ops.map_values(|o: OperationRequest| (o.operation@, o.params@))
}

/// Appends the big-endian bytes of `n`.
fn push_u64(out: &mut Vec<u8>, n: u64)
    ensures
        final(out)@ == old(out)@ + enc_u64(n),
{
    proof {
        assert((n >> 56) & 0xff < 256 && (n >> 48) & 0xff < 256 && (n >> 40) & 0xff < 256 && (n
            >> 32) & 0xff < 256 && (n >> 24) & 0xff < 256 && (n >> 16) & 0xff < 256 && (n >> 8)
            & 0xff < 256 && n & 0xff < 256) by (bit_vector);
    }
    let ghost o0 = out@;
    out.push(((n >> 56) & 0xff) as u8);
    out.push(((n >> 48) & 0xff) as u8);
    out.push(((n >> 40) & 0xff) as u8);
    out.push(((n >> 32) & 0xff) as u8);
    out.push(((n >> 24) & 0xff) as u8);
    out.push(((n >> 16) & 0xff) as u8);
    out.push(((n >> 8) & 0xff) as u8);
    out.push((n & 0xff) as u8);
    proof {
        assert(out@ =~= o0 + enc_u64(n));
    }
}

/// Appending one more operation extends the encoded list at its end.
proof fn lemma_enc_ops_push(ops: Seq<(Seq<u8>, Seq<u8>)>, op: (Seq<u8>, Seq<u8>))
    ensures
        enc_ops(ops.push(op)) == enc_ops(ops) + enc_op(op),
    decreases ops.len(),
{
    if ops.len() == 0 {
        assert(ops.push(op)[0] == op);
        assert(ops.push(op).drop_first() =~= Seq::<(Seq<u8>, Seq<u8>)>::empty());
        assert(enc_ops(Seq::<(Seq<u8>, Seq<u8>)>::empty()) =~= Seq::<u8>::empty());
        assert(enc_ops(ops.push(op)) == enc_op(op) + Seq::<u8>::empty());
        assert(enc_op(op) + Seq::<u8>::empty() =~= Seq::<u8>::empty() + enc_op(op));
    } else {
        assert(ops.push(op)[0] == ops[0]);
        assert(ops.push(op).drop_first() =~= ops.drop_first().push(op));
        lemma_enc_ops_push(ops.drop_first(), op);
        assert(enc_op(ops[0]) + (enc_ops(ops.drop_first()) + enc_op(op)) =~= (enc_op(ops[0])
            + enc_ops(ops.drop_first())) + enc_op(op));
    }
}

/// Encodes the bundle identity canonically.
fn encode_bundle_identity(
    operations: &Vec<OperationRequest>,
    account: &Vec<u8>,
    sequence: u64,
) -> (r: Vec<u8>)
    ensures
        r@ == canonical_encoding(ops_view(operations@), account@, sequence),
{
    let mut out: Vec<u8> = Vec::new();
    push_u64(&mut out, sequence);
    push_u64(&mut out, account.len() as u64);
    out.extend_from_slice(account.as_slice());
    push_u64(&mut out, operations.len() as u64);
    let ghost prefix = enc_u64(sequence) + enc_bytes(account@) + enc_u64(
        ops_view(operations@).len() as u64,
    );
    proof {
        assert(out@ =~= prefix);
        assert(ops_view(operations@).take(0) =~= Seq::<(Seq<u8>, Seq<u8>)>::empty());
        assert(out@ =~= prefix + enc_ops(ops_view(operations@).take(0)));
    }
    let n_ops = operations.len();
    let mut i: usize = 0;
    while i < n_ops
        invariant
            i <= n_ops,
            n_ops == operations@.len(),
            out@ == prefix + enc_ops(ops_view(operations@).take(i as int)),
        decreases n_ops - i,
    {
        let op = &operations[i];
        push_u64(&mut out, op.operation.len() as u64);
        out.extend_from_slice(op.operation.as_slice());
        push_u64(&mut out, op.params.len() as u64);
        out.extend_from_slice(op.params.as_slice());
        proof {
            let v = ops_view(operations@);
            assert(v[i as int] == (operations@[i as int].operation@, operations@[i as int].params@));
            lemma_enc_ops_push(v.take(i as int), v[i as int]);
            assert(v.take(i as int).push(v[i as int]) =~= v.take(i as int + 1));
            assert(out@ =~= prefix + enc_ops(v.take(i as int + 1)));
        }
        i = i + 1;
    }
    proof {
        assert(ops_view(operations@).take(n_ops as int) =~= ops_view(operations@));
        assert(out@ =~= canonical_encoding(ops_view(operations@), account@, sequence));
    }
    out
}

/// Assembles a bundle: an atomic one chains each operation to its immediate
/// predecessor; a non-atomic one records no dependencies. The fingerprint
/// digests the canonical encoding of `(operations, account, sequence)`, and
/// the gas estimate charges a fixed base cost per operation.
pub fn bundle_transactions(
    operations: Vec<OperationRequest>,
    atomic: bool,
    source_account: &Vec<u8>,
    starting_sequence: u64,
) -> (r: TransactionBundle)
    requires
        operations@.len() * BASE_GAS_PER_OPERATION <= u64::MAX,
    ensures
        r.transactions@.len() == operations@.len(),
        forall|i: int|
            0 <= i < operations@.len() ==> {
                &&& (#[trigger] r.transactions@[i]).operation@ == operations@[i].operation@
                &&& r.transactions@[i].params@ == operations@[i].params@
                &&& r.transactions@[i].depends_on@ == spec_deps(atomic, i)
            },
        r.atomic == atomic,
        r.estimated_gas == operations@.len() * BASE_GAS_PER_OPERATION,
        r.bundle_hash@ == spec_fingerprint(
            ops_view(operations@),
            source_account@,
            starting_sequence,
        ),
        deps_acyclic(r.transactions@),
{
    let ghost orig = operations@;
    let encoded = encode_bundle_identity(&operations, source_account, starting_sequence);
    let mut digest = sha256(encoded.as_slice());
    digest.truncate(8);
    proof {
        assert(digest@ =~= sha256_of(encoded@).take(8));
    }
    let tail = hex_encode(digest.as_slice());
    let mut bundle_hash = String::from_str("bundle_");
    bundle_hash.append(tail.as_str());
    let n_ops = operations.len();
    let mut ops = operations;
    let mut txs: Vec<BundleTransaction> = Vec::new();
    let mut i: usize = 0;
    while i < n_ops
        invariant
            i <= n_ops,
            n_ops == orig.len(),
            ops@ == orig.skip(i as int),
            txs@.len() == i,
            forall|k: int|
                0 <= k < i ==> {
                    &&& (#[trigger] txs@[k]).operation@ == orig[k].operation@
                    &&& txs@[k].params@ == orig[k].params@
                    &&& txs@[k].depends_on@ == spec_deps(atomic, k)
                },
        decreases n_ops - i,
    {
        let op = ops.remove(0);
        proof {
            assert(orig.skip(i as int)[0] == orig[i as int]);
            assert(orig.skip(i as int).remove(0) =~= orig.skip(i as int + 1));
        }
        let mut deps: Vec<usize> = Vec::new();
        if atomic && i > 0 {
            deps.push(i - 1);
        }
        proof {
            assert(deps@ =~= spec_deps(atomic, i as int));
        }
        let ghost txs0 = txs@;
        txs.push(BundleTransaction { operation: op.operation, params: op.params, depends_on: deps });
        proof {
            assert forall|k: int|
                0 <= k < i + 1 implies {
                &&& (#[trigger] txs@[k]).operation@ == orig[k].operation@
                &&& txs@[k].params@ == orig[k].params@
                &&& txs@[k].depends_on@ == spec_deps(atomic, k)
            } by {
                if k < i {
                    assert(txs@[k] == txs0[k]);
                }
            }
        }
        i = i + 1;
    }
    let estimated_gas = (n_ops as u64) * BASE_GAS_PER_OPERATION;
    let r = TransactionBundle { transactions: txs, atomic, estimated_gas, bundle_hash };
    proof {
        assert forall|i2: int, j: int|
            0 <= i2 < r.transactions@.len() && 0 <= j < r.transactions@[i2].depends_on@.len()
            implies (#[trigger] r.transactions@[i2].depends_on@[j]) < i2 by {
            assert(r.transactions@[i2].depends_on@ == spec_deps(atomic, i2));
        }
    }
    r
}

/// Checks that every dependency of every operation points strictly
/// backwards; a bundle failing this would hold a forward or cyclic
/// reference.
pub fn validate_dependencies(txs: &Vec<BundleTransaction>) -> (r: bool)
    ensures
        r <==> deps_acyclic(txs@),
{
    let n = txs.len();
    let mut i: usize = 0;
    while i < n
        invariant
            i <= n,
            n == txs@.len(),
            forall|i2: int, j: int|
                0 <= i2 < i && 0 <= j < txs@[i2].depends_on@.len()
                    ==> (#[trigger] txs@[i2].depends_on@[j]) < i2,
        decreases n - i,
    {
        let n_deps = txs[i].depends_on.len();
        let mut j: usize = 0;
        while j < n_deps
            invariant
                j <= n_deps,
                i < n,
                n == txs@.len(),
                n_deps == txs@[i as int].depends_on@.len(),
                forall|j2: int|
                    0 <= j2 < j ==> (#[trigger] txs@[i as int].depends_on@[j2]) < i as int,
            decreases n_deps - j,
        {
            if txs[i].depends_on[j] >= i {
                proof {
                    assert(!deps_acyclic(txs@));
                }
                return false;
            }
            j = j + 1;
        }
        i = i + 1;
    }
    true
}

/// Accepts an externally assembled bundle only when its dependencies are
/// acyclic; rejects it whole otherwise.
pub fn validate_bundle(bundle: TransactionBundle) -> (r: Result<
    TransactionBundle,
    CoreError,
>)
    ensures
        match r {
            Ok(b) => deps_acyclic(b.transactions@) && b == bundle,
            Err(e) => e is BundleDependencyViolation && !deps_acyclic(bundle.transactions@),
        },
{
    if validate_dependencies(&bundle.transactions) {
        Ok(bundle)
    } else {
        Err(CoreError::BundleDependencyViolation)
    }
}

/// The total number of dependency edges in a bundle.
pub open spec fn dependency_edge_count(txs: Seq<BundleTransaction>) -> int
    decreases txs.len(),
{
    if txs.len() == 0 {
        0
    } else {
        dependency_edge_count(txs.drop_last()) + txs.last().depends_on@.len()
    }
}

/// An atomic bundle of `n` operations carries exactly `n - 1` dependency
/// edges, one from each operation to its immediate predecessor — a single
/// linear chain; a non-atomic bundle carries none.
pub proof fn lemma_bundle_dependency_shape(txs: Seq<BundleTransaction>, atomic: bool)
    requires
        forall|i: int|
            0 <= i < txs.len() ==> (#[trigger] txs[i]).depends_on@ == spec_deps(atomic, i),
    ensures
        atomic && txs.len() > 0 ==> dependency_edge_count(txs) == txs.len() - 1,
        !atomic || txs.len() == 0 ==> dependency_edge_count(txs) == 0,
    decreases txs.len(),
{
    if txs.len() > 0 {
        let p = txs.drop_last();
        assert forall|i: int|
            0 <= i < p.len() implies (#[trigger] p[i]).depends_on@ == spec_deps(atomic, i) by {
            assert(p[i] == txs[i]);
        }
        lemma_bundle_dependency_shape(p, atomic);
        assert(txs.last().depends_on@ == spec_deps(atomic, txs.len() - 1));
    }
}

/// Splitting equal concatenations at equal prefix lengths.
proof fn lemma_concat_parts(a: Seq<u8>, b: Seq<u8>, c: Seq<u8>, d: Seq<u8>)
    requires
        a + b == c + d,
        a.len() == c.len(),
    ensures
        a == c,
        b == d,
{
    assert forall|i: int| 0 <= i < a.len() implies a[i] == c[i] by {
        assert((a + b)[i] == a[i]);
        assert((c + d)[i] == c[i]);
    }
    assert(a =~= c);
    assert((a + b).len() == (c + d).len());
    assert((a + b).len() == a.len() + b.len());
    assert((c + d).len() == c.len() + d.len());
    assert(b.len() == d.len());
    assert forall|i: int| 0 <= i < b.len() implies b[i] == d[i] by {
        assert(0 <= i < d.len());
        assert((a + b)[a.len() + i] == b[i]);
        assert((c + d)[c.len() + i] == d[i]);
    }
    assert(b =~= d);
}

/// The big-endian encoding determines the number.
proof fn lemma_enc_u64_injective(x: u64, y: u64)
    requires
        enc_u64(x) == enc_u64(y),
    ensures
        x == y,
{
    assert((x >> 56) & 0xff < 256 && (x >> 48) & 0xff < 256 && (x >> 40) & 0xff < 256 && (x >> 32)
        & 0xff < 256 && (x >> 24) & 0xff < 256 && (x >> 16) & 0xff < 256 && (x >> 8) & 0xff < 256
        && x & 0xff < 256) by (bit_vector);
    assert((y >> 56) & 0xff < 256 && (y >> 48) & 0xff < 256 && (y >> 40) & 0xff < 256 && (y >> 32)
        & 0xff < 256 && (y >> 24) & 0xff < 256 && (y >> 16) & 0xff < 256 && (y >> 8) & 0xff < 256
        && y & 0xff < 256) by (bit_vector);
    assert(enc_u64(x)[0] == enc_u64(y)[0]);
    assert(enc_u64(x)[1] == enc_u64(y)[1]);
    assert(enc_u64(x)[2] == enc_u64(y)[2]);
    assert(enc_u64(x)[3] == enc_u64(y)[3]);
    assert(enc_u64(x)[4] == enc_u64(y)[4]);
    assert(enc_u64(x)[5] == enc_u64(y)[5]);
    assert(enc_u64(x)[6] == enc_u64(y)[6]);
    assert(enc_u64(x)[7] == enc_u64(y)[7]);
    assert(x == y) by (bit_vector)
        requires
            (x >> 56) & 0xff == (y >> 56) & 0xff,
            (x >> 48) & 0xff == (y >> 48) & 0xff,
            (x >> 40) & 0xff == (y >> 40) & 0xff,
            (x >> 32) & 0xff == (y >> 32) & 0xff,
            (x >> 24) & 0xff == (y >> 24) & 0xff,
            (x >> 16) & 0xff == (y >> 16) & 0xff,
            (x >> 8) & 0xff == (y >> 8) & 0xff,
            x & 0xff == y & 0xff,
    ;
}

/// The field lengths of every operation fit a length prefix.
pub open spec fn ops_encodable(ops: Seq<(Seq<u8>, Seq<u8>)>) -> bool {
    forall|i: int|
        0 <= i < ops.len() ==> (#[trigger] ops[i]).0.len() <= u64::MAX && ops[i].1.len()
            <= u64::MAX
}

/// The encoded operation list determines the operations.
proof fn lemma_enc_ops_injective(ops1: Seq<(Seq<u8>, Seq<u8>)>, ops2: Seq<(Seq<u8>, Seq<u8>)>)
    requires
        enc_ops(ops1) == enc_ops(ops2),
        ops1.len() == ops2.len(),
        ops_encodable(ops1),
        ops_encodable(ops2),
    ensures
        ops1 == ops2,
    decreases ops1.len(),
{
    if ops1.len() == 0 {
        assert(ops1 =~= ops2);
    } else {
        let k1 = ops1[0].0;
        let p1 = ops1[0].1;
        let k2 = ops2[0].0;
        let p2 = ops2[0].1;
        let rest1 = enc_ops(ops1.drop_first());
        let rest2 = enc_ops(ops2.drop_first());
        assert(enc_ops(ops1) =~= enc_u64(k1.len() as u64) + (k1 + (enc_u64(p1.len() as u64) + (p1
            + rest1))));
        assert(enc_ops(ops2) =~= enc_u64(k2.len() as u64) + (k2 + (enc_u64(p2.len() as u64) + (p2
            + rest2))));
        lemma_concat_parts(
            enc_u64(k1.len() as u64),
            k1 + (enc_u64(p1.len() as u64) + (p1 + rest1)),
            enc_u64(k2.len() as u64),
            k2 + (enc_u64(p2.len() as u64) + (p2 + rest2)),
        );
        lemma_enc_u64_injective(k1.len() as u64, k2.len() as u64);
        assert(k1.len() == k2.len());
        lemma_concat_parts(
            k1,
            enc_u64(p1.len() as u64) + (p1 + rest1),
            k2,
            enc_u64(p2.len() as u64) + (p2 + rest2),
        );
        lemma_concat_parts(enc_u64(p1.len() as u64), p1 + rest1, enc_u64(p2.len() as u64), p2
            + rest2);
        lemma_enc_u64_injective(p1.len() as u64, p2.len() as u64);
        assert(p1.len() == p2.len());
        lemma_concat_parts(p1, rest1, p2, rest2);
        assert forall|i: int|
            0 <= i < ops1.drop_first().len() implies (#[trigger] ops1.drop_first()[i]).0.len()
            <= u64::MAX && ops1.drop_first()[i].1.len() <= u64::MAX by {
            assert(ops1.drop_first()[i] == ops1[i + 1]);
        }
        assert forall|i: int|
            0 <= i < ops2.drop_first().len() implies (#[trigger] ops2.drop_first()[i]).0.len()
            <= u64::MAX && ops2.drop_first()[i].1.len() <= u64::MAX by {
            assert(ops2.drop_first()[i] == ops2[i + 1]);
        }
        lemma_enc_ops_injective(ops1.drop_first(), ops2.drop_first());
        assert(ops1[0] == ops2[0]);
        assert forall|i: int| 0 <= i < ops1.len() implies ops1[i] == ops2[i] by {
            if i > 0 {
                assert(ops1[i] == ops1.drop_first()[i - 1]);
                assert(ops2[i] == ops2.drop_first()[i - 1]);
            }
        }
        assert(ops1 =~= ops2);
    }
}

/// Two different bundle identities never share a canonical encoding: the
/// encoding pins down the sequence number, the account and every operation,
/// so changing any one of them changes the fingerprint's preimage. That the
/// digest itself separates distinct preimages is what SHA-256 is relied on
/// for.
pub proof fn lemma_canonical_encoding_injective(
    ops1: Seq<(Seq<u8>, Seq<u8>)>,
    acct1: Seq<u8>,
    seq1: u64,
    ops2: Seq<(Seq<u8>, Seq<u8>)>,
    acct2: Seq<u8>,
    seq2: u64,
)
    requires
        canonical_encoding(ops1, acct1, seq1) == canonical_encoding(ops2, acct2, seq2),
        acct1.len() <= u64::MAX,
        acct2.len() <= u64::MAX,
        ops1.len() <= u64::MAX,
        ops2.len() <= u64::MAX,
        ops_encodable(ops1),
        ops_encodable(ops2),
    ensures
        seq1 == seq2,
        acct1 == acct2,
        ops1 == ops2,
{
    let r1 = enc_u64(acct1.len() as u64) + (acct1 + (enc_u64(ops1.len() as u64) + enc_ops(ops1)));
    let r2 = enc_u64(acct2.len() as u64) + (acct2 + (enc_u64(ops2.len() as u64) + enc_ops(ops2)));
    assert(canonical_encoding(ops1, acct1, seq1) =~= enc_u64(seq1) + r1);
    assert(canonical_encoding(ops2, acct2, seq2) =~= enc_u64(seq2) + r2);
    lemma_concat_parts(enc_u64(seq1), r1, enc_u64(seq2), r2);
    lemma_enc_u64_injective(seq1, seq2);
    lemma_concat_parts(
        enc_u64(acct1.len() as u64),
        acct1 + (enc_u64(ops1.len() as u64) + enc_ops(ops1)),
        enc_u64(acct2.len() as u64),
        acct2 + (enc_u64(ops2.len() as u64) + enc_ops(ops2)),
    );
    lemma_enc_u64_injective(acct1.len() as u64, acct2.len() as u64);
    assert(acct1.len() == acct2.len());
    lemma_concat_parts(
        acct1,
        enc_u64(ops1.len() as u64) + enc_ops(ops1),
        acct2,
        enc_u64(ops2.len() as u64) + enc_ops(ops2),
    );
    lemma_concat_parts(enc_u64(ops1.len() as u64), enc_ops(ops1), enc_u64(ops2.len() as u64),
        enc_ops(ops2));
    lemma_enc_u64_injective(ops1.len() as u64, ops2.len() as u64);
    assert(ops1.len() == ops2.len());
    lemma_enc_ops_injective(ops1, ops2);
}

/// The fingerprint is a pure function of its inputs: the same operations,
/// account and sequence always give the same fingerprint.
pub proof fn lemma_fingerprint_deterministic(
    ops: Seq<(Seq<u8>, Seq<u8>)>,
    account: Seq<u8>,
    sequence: u64,
)
    ensures
        spec_fingerprint(ops, account, sequence) == spec_fingerprint(ops, account, sequence),
{
}

} // verus!
