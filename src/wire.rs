//! The canonical byte encoding of registries and revocation commands. The
//! encoding of a revocation command is the payload that controllers sign.
use vstd::prelude::*;
use crate::ids::{ItemId, RegistryId, Did};
use crate::policy::{Policy, PolicyModel, Registry, RegistryModel};

verus! {

broadcast use vstd::array::group_array_axioms;

/// The eight little-endian bytes of `v`.
pub open spec fn le64(v: u64) -> Seq<u8> {
    seq![
        (v & 0xff) as u8,
        ((v >> 8u64) & 0xff) as u8,
        ((v >> 16u64) & 0xff) as u8,
        ((v >> 24u64) & 0xff) as u8,
        ((v >> 32u64) & 0xff) as u8,
        ((v >> 40u64) & 0xff) as u8,
        ((v >> 48u64) & 0xff) as u8,
        ((v >> 56u64) & 0xff) as u8,
    ]
}

/// The integer whose little-endian bytes are `b[0..8]`.
pub open spec fn le64_value(b: Seq<u8>) -> u64 {
    (b[0] as u64) | ((b[1] as u64) << 8u64) | ((b[2] as u64) << 16u64) | ((b[3] as u64) << 24u64)
        | ((b[4] as u64) << 32u64) | ((b[5] as u64) << 40u64) | ((b[6] as u64) << 48u64) | ((
    b[7] as u64) << 56u64)
}

proof fn lemma_le64_bits(v: u64)
    ensures
        (((v & 0xff) as u8) as u64) | ((((v >> 8u64) & 0xff) as u8) as u64) << 8u64
            | ((((v >> 16u64) & 0xff) as u8) as u64) << 16u64 | ((((v >> 24u64) & 0xff) as u8) as u64)
            << 24u64 | ((((v >> 32u64) & 0xff) as u8) as u64) << 32u64 | ((((v >> 40u64)
            & 0xff) as u8) as u64) << 40u64 | ((((v >> 48u64) & 0xff) as u8) as u64) << 48u64
            | ((((v >> 56u64) & 0xff) as u8) as u64) << 56u64 == v,
{
    assert((((v & 0xff) as u8) as u64) | ((((v >> 8u64) & 0xff) as u8) as u64) << 8u64
            | ((((v >> 16u64) & 0xff) as u8) as u64) << 16u64 | ((((v >> 24u64) & 0xff) as u8) as u64)
            << 24u64 | ((((v >> 32u64) & 0xff) as u8) as u64) << 32u64 | ((((v >> 40u64)
            & 0xff) as u8) as u64) << 40u64 | ((((v >> 48u64) & 0xff) as u8) as u64) << 48u64
            | ((((v >> 56u64) & 0xff) as u8) as u64) << 56u64 == v) by (bit_vector);
}

/// Reading back the little-endian bytes of `v` gives `v`.
pub proof fn lemma_le64_round_trip(v: u64)
    ensures
        le64(v).len() == 8,
        le64_value(le64(v)) == v,
{
    lemma_le64_bits(v);
}

/// Eight bytes are the little-endian bytes of the integer they spell.
proof fn lemma_le64_bytes(b: Seq<u8>)
    requires
        b.len() == 8,
    ensures
        b == le64(le64_value(b)),
{
    let (b0, b1, b2, b3, b4, b5, b6, b7) = (b[0], b[1], b[2], b[3], b[4], b[5], b[6], b[7]);
    let v = le64_value(b);
    assert(v == (b0 as u64) | ((b1 as u64) << 8u64) | ((b2 as u64) << 16u64) | ((b3 as u64) << 24u64)
        | ((b4 as u64) << 32u64) | ((b5 as u64) << 40u64) | ((b6 as u64) << 48u64) | ((b7 as u64) << 56u64));
    assert(
        (v == (b0 as u64) | ((b1 as u64) << 8u64) | ((b2 as u64) << 16u64) | ((b3 as u64) << 24u64)
        | ((b4 as u64) << 32u64) | ((b5 as u64) << 40u64) | ((b6 as u64) << 48u64) | ((b7 as u64) << 56u64))
        ==> (b0 == (v & 0xff) as u8 && b1 == ((v >> 8u64) & 0xff) as u8 && b2 == ((v >> 16u64) & 0xff) as u8
            && b3 == ((v >> 24u64) & 0xff) as u8 && b4 == ((v >> 32u64) & 0xff) as u8
            && b5 == ((v >> 40u64) & 0xff) as u8 && b6 == ((v >> 48u64) & 0xff) as u8
            && b7 == ((v >> 56u64) & 0xff) as u8)
    ) by (bit_vector);
    assert(b =~= le64(v));
}

/// Appends the little-endian bytes of `v` to `out`.
pub fn push_le64(out: &mut Vec<u8>, v: u64)
    ensures
        final(out)@ == old(out)@ + le64(v),
{
    out.push((v & 0xff) as u8);
    out.push(((v >> 8u64) & 0xff) as u8);
    out.push(((v >> 16u64) & 0xff) as u8);
    out.push(((v >> 24u64) & 0xff) as u8);
    out.push(((v >> 32u64) & 0xff) as u8);
    out.push(((v >> 40u64) & 0xff) as u8);
    out.push(((v >> 48u64) & 0xff) as u8);
    out.push(((v >> 56u64) & 0xff) as u8);
    assert(final(out)@ =~= old(out)@ + le64(v));
}

/// Reads the little-endian integer stored at `b[off..off + 8]`.
pub fn read_le64(b: &Vec<u8>, off: usize) -> (r: u64)
    requires
        off + 8 <= b@.len(),
    ensures
        r == le64_value(b@.subrange(off as int, off + 8)),
{
    // `off + 8` is bounded by the length of a vector, so it fits in a usize.
    let _len = b.len();
    (b[off] as u64) | ((b[off + 1] as u64) << 8u64) | ((b[off + 2] as u64) << 16u64) | ((b[off
        + 3] as u64) << 24u64) | ((b[off + 4] as u64) << 32u64) | ((b[off + 5] as u64) << 40u64)
        | ((b[off + 6] as u64) << 48u64) | ((b[off + 7] as u64) << 56u64)
}

/// The bytes of the identifiers of `s`, one after the other.
pub open spec fn flat_ids(s: Seq<[u8; 32]>) -> Seq<u8>
    decreases s.len(),
{
    if s.len() == 0 {
        seq![]
    } else {
        flat_ids(s.drop_last()) + s.last()@
    }
}

proof fn lemma_flat_ids_len(s: Seq<[u8; 32]>)
    ensures
        flat_ids(s).len() == 32 * s.len(),
    decreases s.len(),
{
    if s.len() > 0 {
        lemma_flat_ids_len(s.drop_last());
    }
}

proof fn lemma_flat_ids_index(s: Seq<[u8; 32]>, i: int, k: int)
    requires
        0 <= i < s.len(),
        0 <= k < 32,
    ensures
        32 * i + k < flat_ids(s).len(),
        flat_ids(s)[32 * i + k] == s[i][k],
    decreases s.len(),
{
    lemma_flat_ids_len(s);
    lemma_flat_ids_len(s.drop_last());
    assert(32 * i + k < 32 * s.len()) by (nonlinear_arith)
        requires
            0 <= i < s.len(),
            0 <= k < 32,
    ;
    if i < s.len() - 1 {
        lemma_flat_ids_index(s.drop_last(), i, k);
    } else {
        assert(32 * i + k - 32 * (s.len() - 1) == k) by (nonlinear_arith)
            requires
                i == s.len() - 1,
        ;
    }
}

/// Identifier lists of one length with the same bytes are equal.
proof fn lemma_flat_ids_injective(s: Seq<[u8; 32]>, t: Seq<[u8; 32]>)
    requires
        s.len() == t.len(),
        flat_ids(s) == flat_ids(t),
    ensures
        s == t,
{
    assert forall|i: int| 0 <= i < s.len() implies s[i] == t[i] by {
        assert forall|k: int| 0 <= k < 32 implies s[i][k] == t[i][k] by {
            lemma_flat_ids_index(s, i, k);
            lemma_flat_ids_index(t, i, k);
        }
        assert(s[i] =~= t[i]);
    }
    assert(s =~= t);
}

/// Appends the bytes of each identifier of `ids`, in order, to `out`.
pub fn push_ids(out: &mut Vec<u8>, ids: &Vec<[u8; 32]>)
    ensures
        final(out)@ == old(out)@ + flat_ids(ids@),
{
    let mut i: usize = 0;
    while i < ids.len()
        invariant
            0 <= i <= ids.len(),
            out@ == old(out)@ + flat_ids(ids@.subrange(0, i as int)),
        decreases ids.len() - i,
    {
        let id = &ids[i];
        let ghost base = out@;
        let mut k: usize = 0;
        while k < 32
            invariant
                0 <= k <= 32,
                out@ == base + id@.subrange(0, k as int),
            decreases 32 - k,
        {
            out.push(id[k]);
            assert(out@ =~= base + id@.subrange(0, k + 1));
            k = k + 1;
        }
        assert(ids@.subrange(0, i + 1).drop_last() =~= ids@.subrange(0, i as int));
        assert(id@.subrange(0, 32) =~= id@);
        i = i + 1;
    }
    assert(ids@.subrange(0, ids.len() as int) =~= ids@);
}

/// Reads the identifier stored at `b[off..off + 32]`.
fn read_id(b: &Vec<u8>, off: usize) -> (r: [u8; 32])
    requires
        off + 32 <= b@.len(),
    ensures
        r@ == b@.subrange(off as int, off + 32),
{
    let len = b.len();
    let mut a: [u8; 32] = [0u8; 32];
    let mut k: usize = 0;
    while k < 32
        invariant
            0 <= k <= 32,
            off + 32 <= b@.len(),
            b@.len() == len,
            forall|j: int| 0 <= j < k ==> a[j] == b@[off + j],
        decreases 32 - k,
    {
        a[k] = b[off + k];
        k = k + 1;
    }
    assert(a@ =~= b@.subrange(off as int, off + 32));
    a
}

/// Reads `n` identifiers stored one after the other from `b[off..]`.
fn read_ids(b: &Vec<u8>, off: usize, n: usize) -> (r: Vec<[u8; 32]>)
    requires
        off + 32 * n <= b@.len(),
    ensures
        r@.len() == n,
        flat_ids(r@) == b@.subrange(off as int, off + 32 * n),
{
    let len = b.len();
    let mut r: Vec<[u8; 32]> = Vec::new();
    let mut pos: usize = off;
    let mut i: usize = 0;
    while i < n
        invariant
            0 <= i <= n,
            off + 32 * n <= b@.len(),
            b@.len() == len,
            pos == off + 32 * i,
            r@.len() == i,
            flat_ids(r@) == b@.subrange(off as int, pos as int),
        decreases n - i,
    {
        assert(pos + 32 <= off + 32 * n) by (nonlinear_arith)
            requires
                pos == off + 32 * i,
                i < n,
        ;
        let id = read_id(b, pos);
        let ghost before = r@;
        r.push(id);
        assert(r@.drop_last() =~= before);
        assert(b@.subrange(off as int, pos + 32) =~= b@.subrange(off as int, pos as int)
            + b@.subrange(pos as int, pos + 32));
        pos = pos + 32;
        i = i + 1;
    }
    r
}

/// A revocation command: the part of it that controllers sign.
#[derive(Clone, Debug)]
pub struct Revoke {
    /// The registry on which to operate.
    pub registry_id: RegistryId,
    /// The items to revoke; the ledger lists them ascending, each once.
    pub item_ids: Vec<ItemId>,
    /// The version of the registry that the signature is bound to.
    pub last_modified: u64,
}

/// The mathematical value of a [`Revoke`].
pub ghost struct RevokeModel {
    pub registry_id: RegistryId,
    pub item_ids: Seq<ItemId>,
    pub last_modified: u64,
}

impl View for Revoke {
    type V = RevokeModel;

    open spec fn view(&self) -> RevokeModel {
        RevokeModel {
            registry_id: self.registry_id,
            item_ids: self.item_ids@,
            last_modified: self.last_modified,
        }
    }
}

/// The encoding of a revocation command: the registry id, the number of items
/// as a little-endian `u64`, the items, and the version as a little-endian `u64`.
pub open spec fn revoke_bytes(m: RevokeModel) -> Seq<u8> {
    m.registry_id@ + le64(m.item_ids.len() as u64) + flat_ids(m.item_ids) + le64(m.last_modified)
}

/// A command whose item count fits the length field.
pub open spec fn revoke_encodable(m: RevokeModel) -> bool {
    m.item_ids.len() <= u64::MAX
}

/// The tag that stands for `OneOf` in an encoded policy.
pub const ONE_OF_TAG: u8 = 0;

/// The encoding of a registry: the policy's tag, its number of controllers as a
/// little-endian `u64`, the controllers, and one byte for `add_only`.
pub open spec fn registry_bytes(m: RegistryModel) -> Seq<u8> {
    match m.policy {
        PolicyModel::OneOf { controllers } => seq![ONE_OF_TAG] + le64(controllers.len() as u64)
            + flat_ids(controllers) + seq![if m.add_only { 1u8 } else { 0u8 }],
    }
}

/// A registry whose controller count fits the length field.
pub open spec fn registry_encodable(m: RegistryModel) -> bool {
    match m.policy {
        PolicyModel::OneOf { controllers } => controllers.len() <= u64::MAX,
    }
}

/// A command's encoding determines the command: two encodable commands with
/// the same bytes are the same command.
pub proof fn lemma_revoke_bytes_injective(a: RevokeModel, b: RevokeModel)
    requires
        revoke_encodable(a),
        revoke_encodable(b),
        revoke_bytes(a) == revoke_bytes(b),
    ensures
        a == b,
{
    let x = revoke_bytes(a);
    lemma_flat_ids_len(a.item_ids);
    lemma_flat_ids_len(b.item_ids);
    lemma_le64_round_trip(a.item_ids.len() as u64);
    lemma_le64_round_trip(b.item_ids.len() as u64);
    assert(x.subrange(32, 40) =~= le64(a.item_ids.len() as u64));
    assert(revoke_bytes(b).subrange(32, 40) =~= le64(b.item_ids.len() as u64));
    assert(a.item_ids.len() == b.item_ids.len());
    let n = a.item_ids.len() as int;
    assert(x.subrange(0, 32) =~= a.registry_id@);
    assert(revoke_bytes(b).subrange(0, 32) =~= b.registry_id@);
    assert(a.registry_id =~= b.registry_id);
    assert(x.subrange(40, 40 + 32 * n) =~= flat_ids(a.item_ids));
    assert(revoke_bytes(b).subrange(40, 40 + 32 * n) =~= flat_ids(b.item_ids));
    lemma_flat_ids_injective(a.item_ids, b.item_ids);
    lemma_le64_round_trip(a.last_modified);
    lemma_le64_round_trip(b.last_modified);
    assert(x.subrange(40 + 32 * n, 48 + 32 * n) =~= le64(a.last_modified));
    assert(revoke_bytes(b).subrange(40 + 32 * n, 48 + 32 * n) =~= le64(b.last_modified));
}

/// A registry's encoding determines the registry.
pub proof fn lemma_registry_bytes_injective(a: RegistryModel, b: RegistryModel)
    requires
        registry_encodable(a),
        registry_encodable(b),
        registry_bytes(a) == registry_bytes(b),
    ensures
        a == b,
{
    let PolicyModel::OneOf { controllers: ca } = a.policy;
    let PolicyModel::OneOf { controllers: cb } = b.policy;
    let x = registry_bytes(a);
    let y = registry_bytes(b);
    lemma_flat_ids_len(ca);
    lemma_flat_ids_len(cb);
    lemma_le64_round_trip(ca.len() as u64);
    lemma_le64_round_trip(cb.len() as u64);
    assert(x.subrange(1, 9) =~= le64(ca.len() as u64));
    assert(y.subrange(1, 9) =~= le64(cb.len() as u64));
    let n = ca.len() as int;
    assert(x.subrange(9, 9 + 32 * n) =~= flat_ids(ca));
    assert(y.subrange(9, 9 + 32 * n) =~= flat_ids(cb));
    lemma_flat_ids_injective(ca, cb);
    assert(x.last() == y.last());
}

impl Revoke {
    /// The canonical bytes of this command.
    pub fn encode(&self) -> (r: Vec<u8>)
        ensures
            r@ == revoke_bytes(self@),
    {
        let mut out: Vec<u8> = Vec::new();
        let mut k: usize = 0;
        while k < 32
            invariant
                0 <= k <= 32,
                out@ == self.registry_id@.subrange(0, k as int),
            decreases 32 - k,
        {
            out.push(self.registry_id[k]);
            assert(out@ =~= self.registry_id@.subrange(0, k + 1));
            k = k + 1;
        }
        assert(self.registry_id@.subrange(0, 32) =~= self.registry_id@);
        push_le64(&mut out, self.item_ids.len() as u64);
        push_ids(&mut out, &self.item_ids);
        push_le64(&mut out, self.last_modified);
        out
    }

    /// Reads a command back from its encoding. Fails exactly on the byte
    /// strings that encode no command.
    pub fn decode(b: &Vec<u8>) -> (r: Option<Revoke>)
        ensures
            r matches Some(v) ==> revoke_bytes(v@) == b@,
            forall|m: RevokeModel|
                revoke_encodable(m) && #[trigger] revoke_bytes(m) == b@ ==> (r matches Some(v)
                    && v@ == m),
    {
        let len = b.len();
        if len < 48 {
            proof {
                assert forall|m: RevokeModel|
                    revoke_encodable(m) && #[trigger] revoke_bytes(m) == b@ implies false by {
                    lemma_flat_ids_len(m.item_ids);
                }
            }
            return None;
        }
        let n = read_le64(b, 32);
        let rest = len - 48;
        if rest % 32 != 0 || (rest / 32) as u64 != n {
            proof {
                assert forall|m: RevokeModel|
                    revoke_encodable(m) && #[trigger] revoke_bytes(m) == b@ implies false by {
                    lemma_flat_ids_len(m.item_ids);
                    lemma_le64_round_trip(m.item_ids.len() as u64);
                    assert(b@.subrange(32, 40) =~= le64(m.item_ids.len() as u64));
                }
            }
            return None;
        }
        let count = rest / 32;
        let registry_id = read_id(b, 0);
        let item_ids = read_ids(b, 40, count);
        let last_modified = read_le64(b, len - 8);
        let v = Revoke { registry_id, item_ids, last_modified };
        proof {
            lemma_flat_ids_len(item_ids@);
            assert(b@ =~= b@.subrange(0, 32) + b@.subrange(32, 40) + b@.subrange(
                40,
                40 + 32 * count,
            ) + b@.subrange(len - 8, len as int));
            assert(b@.subrange(len - 8, len as int) =~= le64(last_modified)) by {
                lemma_le64_round_trip(last_modified);
                lemma_le64_bytes(b@.subrange(len - 8, len as int));
            }
            assert(b@.subrange(32, 40) =~= le64(n)) by {
                lemma_le64_bytes(b@.subrange(32, 40));
            }
            assert(revoke_bytes(v@) == b@);
            assert forall|m: RevokeModel|
                revoke_encodable(m) && #[trigger] revoke_bytes(m) == b@ implies v@ == m by {
                lemma_flat_ids_len(m.item_ids);
                let mb = revoke_bytes(m);
                assert(mb.subrange(0, 32) =~= m.registry_id@);
                assert(m.registry_id =~= registry_id);
                assert(mb.subrange(40, 40 + 32 * count) =~= flat_ids(m.item_ids));
                lemma_flat_ids_injective(m.item_ids, item_ids@);
                assert(mb.subrange(len - 8, len as int) =~= le64(m.last_modified));
                lemma_le64_round_trip(m.last_modified);
            }
        }
        Some(v)
    }
}

impl Registry {
    /// The canonical bytes of this registry.
    pub fn encode(&self) -> (r: Vec<u8>)
        ensures
            r@ == registry_bytes(self@),
    {
        let Policy::OneOf { controllers } = &self.policy;
        let mut out: Vec<u8> = Vec::new();
        out.push(ONE_OF_TAG);
        push_le64(&mut out, controllers.len() as u64);
        push_ids(&mut out, controllers);
        out.push(if self.add_only { 1u8 } else { 0u8 });
        assert(out@ =~= registry_bytes(self@));
        out
    }

    /// Reads a registry back from its encoding. Fails exactly on the byte
    /// strings that encode no registry.
    pub fn decode(b: &Vec<u8>) -> (r: Option<Registry>)
        ensures
            r matches Some(v) ==> registry_bytes(v@) == b@,
            forall|m: RegistryModel|
                registry_encodable(m) && #[trigger] registry_bytes(m) == b@ ==> (r matches Some(v)
                    && v@ == m),
    {
        let len = b.len();
        if len < 10 || b[0] != ONE_OF_TAG || (b[len - 1] != 0 && b[len - 1] != 1) {
            proof {
                assert forall|m: RegistryModel|
                    registry_encodable(m) && #[trigger] registry_bytes(m) == b@ implies false by {
                    let PolicyModel::OneOf { controllers } = m.policy;
                    lemma_flat_ids_len(controllers);
                    assert(registry_bytes(m)[0] == ONE_OF_TAG);
                    assert(registry_bytes(m).last() == if m.add_only { 1u8 } else { 0u8 });
                }
            }
            return None;
        }
        let n = read_le64(b, 1);
        let rest = len - 10;
        if rest % 32 != 0 || (rest / 32) as u64 != n {
            proof {
                assert forall|m: RegistryModel|
                    registry_encodable(m) && #[trigger] registry_bytes(m) == b@ implies false by {
                    let PolicyModel::OneOf { controllers } = m.policy;
                    lemma_flat_ids_len(controllers);
                    lemma_le64_round_trip(controllers.len() as u64);
                    assert(b@.subrange(1, 9) =~= le64(controllers.len() as u64));
                }
            }
            return None;
        }
        let count = rest / 32;
        let controllers = read_ids(b, 9, count);
        let add_only = b[len - 1] == 1;
        let v = Registry { policy: Policy::OneOf { controllers }, add_only };
        proof {
            lemma_flat_ids_len(controllers@);
            assert(b@.subrange(1, 9) =~= le64(n)) by {
                lemma_le64_bytes(b@.subrange(1, 9));
            }
            assert(b@ =~= seq![b@[0]] + b@.subrange(1, 9) + b@.subrange(9, 9 + 32 * count) + seq![
                b@[len - 1],
            ]);
            assert(registry_bytes(v@) =~= b@);
            assert forall|m: RegistryModel|
                registry_encodable(m) && #[trigger] registry_bytes(m) == b@ implies v@ == m by {
                let PolicyModel::OneOf { controllers: cs } = m.policy;
                lemma_flat_ids_len(cs);
                let mb = registry_bytes(m);
                assert(mb.subrange(9, 9 + 32 * count) =~= flat_ids(cs));
                lemma_flat_ids_injective(cs, controllers@);
                assert(mb.last() == if m.add_only { 1u8 } else { 0u8 });
            }
        }
        Some(v)
    }
}

} // verus!
