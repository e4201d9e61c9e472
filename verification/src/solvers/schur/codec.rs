//! The stored form of an artifact: a magic word, then little-endian numbers.
use vstd::prelude::*;

use crate::solvers::schur::artifact::{
    byte_size, tiles_size, ArtifactView, EdgesView, Portal, SchurArtifact, TileEdges,
};

verus! {

/// First bytes of a stored artifact.
pub open spec fn magic() -> Seq<u8> {
    seq![0x56u8, 0x49u8, 0x53u8, 0x43u8, 0x48u8, 0x55u8, 0x52u8, 0x31u8]
}

/// Why stored bytes are no artifact.
#[derive(Clone, Copy, Debug, PartialEq, Eq, Structural)]
pub enum LoadError {
    /// The bytes end before the artifact does.
    UnexpectedEof,
    /// The bytes do not start with the magic word.
    NotAnArtifact,
}

/// Byte `k` of a number, the least significant first.
pub open spec fn byte_of(v: int, k: nat) -> u8
    decreases k,
{
    if k == 0 {
        (v % 256) as u8
    } else {
        byte_of(v / 256, (k - 1) as nat)
    }
}

/// The first `n` bytes of a number, the least significant first.
pub open spec fn le_bytes(v: int, n: nat) -> Seq<u8> {
    Seq::new(n, |k: int| byte_of(v, k as nat))
}

/// The number whose `n` bytes, the least significant first, start at `i`.
pub open spec fn le_value(b: Seq<u8>, i: int, n: nat) -> int
    decreases n,
{
    if n == 0 {
        0
    } else {
        b[i] + 256 * le_value(b, i + 1, (n - 1) as nat)
    }
}

/// The unsigned reading of a signed number's bits.
pub open spec fn unsigned(v: i32) -> int {
    if v >= 0 {
        v as int
    } else {
        v + 0x1_0000_0000
    }
}

/// The signed reading of an unsigned number's bits.
pub open spec fn signed(v: int) -> i32 {
    if v < 0x8000_0000 {
        v as i32
    } else {
        (v - 0x1_0000_0000) as i32
    }
}

pub open spec fn enc_i32(v: i32) -> Seq<u8> {
    le_bytes(unsigned(v), 4)
}

pub open spec fn enc_portals(p: Seq<Portal>) -> Seq<u8>
    decreases p.len(),
{
    if p.len() == 0 {
        Seq::empty()
    } else {
        enc_portals(p.drop_last()) + enc_i32(p.last().ix) + enc_i32(p.last().iy) + enc_i32(
            p.last().it,
        )
    }
}

pub open spec fn enc_u32s(v: Seq<u32>) -> Seq<u8>
    decreases v.len(),
{
    if v.len() == 0 {
        Seq::empty()
    } else {
        enc_u32s(v.drop_last()) + le_bytes(v.last() as int, 4)
    }
}

pub open spec fn enc_u64s(v: Seq<u64>) -> Seq<u8>
    decreases v.len(),
{
    if v.len() == 0 {
        Seq::empty()
    } else {
        enc_u64s(v.drop_last()) + le_bytes(v.last() as int, 8)
    }
}

pub open spec fn enc_edges(e: EdgesView) -> Seq<u8> {
    le_bytes(e.portals.len() as int, 4) + enc_u32s(e.portals) + enc_u64s(e.w)
}

pub open spec fn enc_tiles(t: Seq<EdgesView>) -> Seq<u8>
    decreases t.len(),
{
    if t.len() == 0 {
        Seq::empty()
    } else {
        enc_tiles(t.drop_last()) + enc_edges(t.last())
    }
}

pub open spec fn enc_header(a: ArtifactView) -> Seq<u8> {
    enc_i32(a.tile) + enc_i32(a.halo) + enc_i32(a.nx) + enc_i32(a.ny) + enc_i32(a.nt) + enc_i32(
        a.tnx,
    ) + enc_i32(a.tny)
}

/// The stored form of an artifact.
pub open spec fn encoded(a: ArtifactView) -> Seq<u8> {
    magic() + enc_header(a) + le_bytes(a.portals.len() as int, 4) + enc_portals(a.portals)
        + le_bytes(a.tiles.len() as int, 4) + enc_tiles(a.tiles)
}

/// The lists of `a` are as long as the stored form can say, and the crossing costs
/// of each tile form a square.
pub open spec fn storable(a: ArtifactView) -> bool {
    &&& a.portals.len() <= u32::MAX
    &&& a.tiles.len() <= u32::MAX
    &&& forall|t: int|
        0 <= t < a.tiles.len() ==> {
            &&& (#[trigger] a.tiles[t]).portals.len() <= u32::MAX
            &&& a.tiles[t].w.len() == a.tiles[t].portals.len() * a.tiles[t].portals.len()
        }
}

/// What is read from some bytes, and where reading goes on; nothing where the
/// bytes end too soon.
pub type Read<T> = Option<(T, int)>;

pub open spec fn dec_u32(b: Seq<u8>, i: int) -> Read<u32> {
    if i + 4 <= b.len() {
        Some((le_value(b, i, 4) as u32, i + 4))
    } else {
        None
    }
}

pub open spec fn dec_portal(b: Seq<u8>, i: int) -> Read<Portal> {
    if i + 12 <= b.len() {
        Some(
            (
                Portal {
                    ix: signed(le_value(b, i, 4)),
                    iy: signed(le_value(b, i + 4, 4)),
                    it: signed(le_value(b, i + 8, 4)),
                },
                i + 12,
            ),
        )
    } else {
        None
    }
}

pub open spec fn dec_portals(b: Seq<u8>, i: int, n: int) -> Read<Seq<Portal>>
    decreases n,
{
    if n <= 0 {
        Some((Seq::empty(), i))
    } else {
        match dec_portals(b, i, n - 1) {
            None => None,
            Some((s, j)) => match dec_portal(b, j) {
                None => None,
                Some((p, k)) => Some((s.push(p), k)),
            },
        }
    }
}

pub open spec fn dec_u32s(b: Seq<u8>, i: int, n: int) -> Read<Seq<u32>>
    decreases n,
{
    if n <= 0 {
        Some((Seq::empty(), i))
    } else {
        match dec_u32s(b, i, n - 1) {
            None => None,
            Some((s, j)) => if j + 4 <= b.len() {
                Some((s.push(le_value(b, j, 4) as u32), j + 4))
            } else {
                None
            },
        }
    }
}

pub open spec fn dec_u64s(b: Seq<u8>, i: int, n: int) -> Read<Seq<u64>>
    decreases n,
{
    if n <= 0 {
        Some((Seq::empty(), i))
    } else {
        match dec_u64s(b, i, n - 1) {
            None => None,
            Some((s, j)) => if j + 8 <= b.len() {
                Some((s.push(le_value(b, j, 8) as u64), j + 8))
            } else {
                None
            },
        }
    }
}

pub open spec fn dec_edges(b: Seq<u8>, i: int) -> Read<EdgesView> {
    match dec_u32(b, i) {
        None => None,
        Some((n, j)) => match dec_u32s(b, j, n as int) {
            None => None,
            Some((portals, k)) => match dec_u64s(b, k, n * n) {
                None => None,
                Some((w, l)) => Some((EdgesView { portals, w }, l)),
            },
        },
    }
}

pub open spec fn dec_tiles(b: Seq<u8>, i: int, n: int) -> Read<Seq<EdgesView>>
    decreases n,
{
    if n <= 0 {
        Some((Seq::empty(), i))
    } else {
        match dec_tiles(b, i, n - 1) {
            None => None,
            Some((s, j)) => match dec_edges(b, j) {
                None => None,
                Some((e, k)) => Some((s.push(e), k)),
            },
        }
    }
}

/// The two lists of an artifact, from byte 36 on.
pub open spec fn dec_lists(b: Seq<u8>) -> Option<(Seq<Portal>, Seq<EdgesView>)> {
    match dec_u32(b, 36) {
        None => None,
        Some((np, i)) => match dec_portals(b, i, np as int) {
            None => None,
            Some((portals, j)) => match dec_u32(b, j) {
                None => None,
                Some((ntl, k)) => match dec_tiles(b, k, ntl as int) {
                    None => None,
                    Some((tiles, l)) => Some((portals, tiles)),
                },
            },
        },
    }
}

/// The artifact that some stored bytes hold. Bytes after its end are ignored.
pub open spec fn decoded(b: Seq<u8>) -> Result<ArtifactView, LoadError> {
    if b.len() < 8 {
        Err(LoadError::UnexpectedEof)
    } else if b.subrange(0, 8) != magic() {
        Err(LoadError::NotAnArtifact)
    } else if b.len() < 36 {
        Err(LoadError::UnexpectedEof)
    } else {
        match dec_lists(b) {
            None => Err(LoadError::UnexpectedEof),
            Some((portals, tiles)) => Ok(
                ArtifactView {
                    tile: signed(le_value(b, 8, 4)),
                    halo: signed(le_value(b, 12, 4)),
                    nx: signed(le_value(b, 16, 4)),
                    ny: signed(le_value(b, 20, 4)),
                    nt: signed(le_value(b, 24, 4)),
                    tnx: signed(le_value(b, 28, 4)),
                    tny: signed(le_value(b, 32, 4)),
                    portals,
                    tiles,
                },
            ),
        }
    }
}

/// `256^n`.
pub open spec fn p256(n: nat) -> int
    decreases n,
{
    if n == 0 {
        1
    } else {
        256 * p256((n - 1) as nat)
    }
}

proof fn lemma_p256()
    ensures
        p256(4) == 0x1_0000_0000,
        p256(8) == 0x1_0000_0000_0000_0000,
{
    reveal_with_fuel(p256, 9);
}

proof fn lemma_p256_mono(i: nat, n: nat)
    requires
        i <= n,
    ensures
        1 <= p256(i) <= p256(n),
    decreases n,
{
    if n > 0 {
        if i < n {
            lemma_p256_mono(i, (n - 1) as nat);
        } else {
            lemma_p256_mono((n - 1) as nat, (n - 1) as nat);
        }
    }
}

proof fn lemma_le_value_range(b: Seq<u8>, i: int, n: nat)
    ensures
        0 <= le_value(b, i, n) < p256(n),
    decreases n,
{
    if n > 0 {
        lemma_le_value_range(b, i + 1, (n - 1) as nat);
    }
}

/// `s` stands in `b` at `i`.
pub open spec fn stands(b: Seq<u8>, i: int, s: Seq<u8>) -> bool {
    &&& 0 <= i
    &&& i + s.len() <= b.len()
    &&& forall|k: int| 0 <= k < s.len() ==> b[i + k] == #[trigger] s[k]
}

proof fn lemma_stands_split(b: Seq<u8>, i: int, s: Seq<u8>, t: Seq<u8>)
    requires
        stands(b, i, s + t),
    ensures
        stands(b, i, s),
        stands(b, i + s.len(), t),
{
    let st = s + t;
    assert forall|k: int| 0 <= k < s.len() implies b[i + k] == #[trigger] s[k] by {
        assert(st[k] == s[k]);
    }
    assert forall|k: int| 0 <= k < t.len() implies b[i + s.len() + k] == #[trigger] t[k] by {
        assert(st[s.len() + k] == t[k]);
        assert(b[i + (s.len() + k)] == st[s.len() + k]);
    }
}

/// Reading the bytes of a number gives the number.
proof fn lemma_le_round_trip(b: Seq<u8>, i: int, v: int, n: nat)
    requires
        0 <= v < p256(n),
        stands(b, i, le_bytes(v, n)),
    ensures
        le_value(b, i, n) == v,
    decreases n,
{
    if n > 0 {
        let m = (n - 1) as nat;
        let s = le_bytes(v, n);
        let t = le_bytes(v / 256, m);
        assert(s[0] == (v % 256) as u8);
        assert(b[i + 0] == s[0]);
        assert forall|k: int| 0 <= k < t.len() implies b[i + 1 + k] == #[trigger] t[k] by {
            assert(s[k + 1] == byte_of(v, (k + 1) as nat));
            assert(byte_of(v, (k + 1) as nat) == byte_of(v / 256, k as nat));
            assert(b[i + (k + 1)] == s[k + 1]);
        }
        lemma_le_round_trip(b, i + 1, v / 256, m);
    }
}

proof fn lemma_i32_round_trip(b: Seq<u8>, i: int, v: i32)
    requires
        stands(b, i, enc_i32(v)),
    ensures
        signed(le_value(b, i, 4)) == v,
{
    lemma_p256();
    lemma_le_round_trip(b, i, unsigned(v), 4);
}

proof fn lemma_portals_round_trip(b: Seq<u8>, i: int, p: Seq<Portal>)
    requires
        stands(b, i, enc_portals(p)),
    ensures
        dec_portals(b, i, p.len() as int) == Some((p, i + enc_portals(p).len())),
    decreases p.len(),
{
    if p.len() == 0 {
        assert(p =~= Seq::<Portal>::empty());
    } else {
        let q = p.drop_last();
        let l = p.last();
        let (x, y, t) = (enc_i32(l.ix), enc_i32(l.iy), enc_i32(l.it));
        lemma_stands_split(b, i, enc_portals(q) + x + y, t);
        lemma_stands_split(b, i, enc_portals(q) + x, y);
        lemma_stands_split(b, i, enc_portals(q), x);
        lemma_portals_round_trip(b, i, q);
        let j = i + enc_portals(q).len();
        lemma_i32_round_trip(b, j, l.ix);
        lemma_i32_round_trip(b, j + 4, l.iy);
        lemma_i32_round_trip(b, j + 8, l.it);
        assert(q.push(l) =~= p);
    }
}

proof fn lemma_u32s_round_trip(b: Seq<u8>, i: int, v: Seq<u32>)
    requires
        stands(b, i, enc_u32s(v)),
    ensures
        dec_u32s(b, i, v.len() as int) == Some((v, i + enc_u32s(v).len())),
    decreases v.len(),
{
    if v.len() == 0 {
        assert(v =~= Seq::<u32>::empty());
    } else {
        let q = v.drop_last();
        lemma_stands_split(b, i, enc_u32s(q), le_bytes(v.last() as int, 4));
        lemma_u32s_round_trip(b, i, q);
        lemma_p256();
        lemma_le_round_trip(b, i + enc_u32s(q).len(), v.last() as int, 4);
        assert(q.push(v.last()) =~= v);
    }
}

proof fn lemma_u64s_round_trip(b: Seq<u8>, i: int, v: Seq<u64>)
    requires
        stands(b, i, enc_u64s(v)),
    ensures
        dec_u64s(b, i, v.len() as int) == Some((v, i + enc_u64s(v).len())),
    decreases v.len(),
{
    if v.len() == 0 {
        assert(v =~= Seq::<u64>::empty());
    } else {
        let q = v.drop_last();
        lemma_stands_split(b, i, enc_u64s(q), le_bytes(v.last() as int, 8));
        lemma_u64s_round_trip(b, i, q);
        lemma_p256();
        lemma_le_round_trip(b, i + enc_u64s(q).len(), v.last() as int, 8);
        assert(q.push(v.last()) =~= v);
    }
}

proof fn lemma_tiles_round_trip(b: Seq<u8>, i: int, t: Seq<EdgesView>)
    requires
        stands(b, i, enc_tiles(t)),
        forall|k: int|
            0 <= k < t.len() ==> {
                &&& (#[trigger] t[k]).portals.len() <= u32::MAX
                &&& t[k].w.len() == t[k].portals.len() * t[k].portals.len()
            },
    ensures
        dec_tiles(b, i, t.len() as int) == Some((t, i + enc_tiles(t).len())),
    decreases t.len(),
{
    if t.len() == 0 {
        assert(t =~= Seq::<EdgesView>::empty());
    } else {
        let q = t.drop_last();
        let e = t.last();
        let n = le_bytes(e.portals.len() as int, 4);
        lemma_stands_split(b, i, enc_tiles(q), enc_edges(e));
        assert forall|k: int| 0 <= k < q.len() implies {
            &&& (#[trigger] q[k]).portals.len() <= u32::MAX
            &&& q[k].w.len() == q[k].portals.len() * q[k].portals.len()
        } by {
            assert(q[k] == t[k]);
        }
        lemma_tiles_round_trip(b, i, q);
        let j = i + enc_tiles(q).len();
        lemma_stands_split(b, j, n + enc_u32s(e.portals), enc_u64s(e.w));
        lemma_stands_split(b, j, n, enc_u32s(e.portals));
        lemma_p256();
        lemma_le_round_trip(b, j, e.portals.len() as int, 4);
        lemma_u32s_round_trip(b, j + 4, e.portals);
        lemma_u64s_round_trip(b, j + 4 + enc_u32s(e.portals).len(), e.w);
        assert(t[t.len() - 1] == e);
        assert(q.push(e) =~= t);
    }
}

/// Reading back what was stored gives the artifact again, whatever follows it.
pub proof fn law_round_trip(a: ArtifactView, rest: Seq<u8>)
    requires
        storable(a),
    ensures
        decoded(encoded(a) + rest) == Ok::<ArtifactView, LoadError>(a),
{
    let b = encoded(a) + rest;
    let np = le_bytes(a.portals.len() as int, 4);
    let ntl = le_bytes(a.tiles.len() as int, 4);
    let h1 = magic() + enc_header(a);
    let h2 = h1 + np;
    let h3 = h2 + enc_portals(a.portals);
    let h4 = h3 + ntl;
    assert(stands(b, 0, encoded(a)));
    lemma_stands_split(b, 0, h4, enc_tiles(a.tiles));
    lemma_stands_split(b, 0, h3, ntl);
    lemma_stands_split(b, 0, h2, enc_portals(a.portals));
    lemma_stands_split(b, 0, h1, np);
    lemma_stands_split(b, 0, magic(), enc_header(a));
    let e1 = enc_i32(a.tile);
    let e2 = e1 + enc_i32(a.halo);
    let e3 = e2 + enc_i32(a.nx);
    let e4 = e3 + enc_i32(a.ny);
    let e5 = e4 + enc_i32(a.nt);
    let e6 = e5 + enc_i32(a.tnx);
    lemma_stands_split(b, 8, e6, enc_i32(a.tny));
    lemma_stands_split(b, 8, e5, enc_i32(a.tnx));
    lemma_stands_split(b, 8, e4, enc_i32(a.nt));
    lemma_stands_split(b, 8, e3, enc_i32(a.ny));
    lemma_stands_split(b, 8, e2, enc_i32(a.nx));
    lemma_stands_split(b, 8, e1, enc_i32(a.halo));
    lemma_i32_round_trip(b, 8, a.tile);
    lemma_i32_round_trip(b, 12, a.halo);
    lemma_i32_round_trip(b, 16, a.nx);
    lemma_i32_round_trip(b, 20, a.ny);
    lemma_i32_round_trip(b, 24, a.nt);
    lemma_i32_round_trip(b, 28, a.tnx);
    lemma_i32_round_trip(b, 32, a.tny);
    assert(b.subrange(0, 8) =~= magic());
    lemma_p256();
    assert(h1.len() == 36);
    lemma_le_round_trip(b, 36, a.portals.len() as int, 4);
    lemma_portals_round_trip(b, 40, a.portals);
    let j: int = 40 + enc_portals(a.portals).len() as int;
    lemma_le_round_trip(b, j, a.tiles.len() as int, 4);
    lemma_tiles_round_trip(b, j + 4, a.tiles);
    assert(decoded(b) == Ok::<ArtifactView, LoadError>(a));
}

proof fn lemma_portals_len(p: Seq<Portal>)
    ensures
        enc_portals(p).len() == 12 * p.len(),
    decreases p.len(),
{
    if p.len() > 0 {
        lemma_portals_len(p.drop_last());
    }
}

proof fn lemma_u32s_len(v: Seq<u32>)
    ensures
        enc_u32s(v).len() == 4 * v.len(),
    decreases v.len(),
{
    if v.len() > 0 {
        lemma_u32s_len(v.drop_last());
    }
}

proof fn lemma_u64s_len(v: Seq<u64>)
    ensures
        enc_u64s(v).len() == 8 * v.len(),
    decreases v.len(),
{
    if v.len() > 0 {
        lemma_u64s_len(v.drop_last());
    }
}

proof fn lemma_tiles_size_prefix(t: Seq<EdgesView>, n: int)
    requires
        0 <= n < t.len(),
    ensures
        tiles_size(t.drop_last(), n) == tiles_size(t, n),
    decreases n,
{
    if n > 0 {
        lemma_tiles_size_prefix(t, n - 1);
    }
}

proof fn lemma_tiles_len(t: Seq<EdgesView>)
    ensures
        enc_tiles(t).len() == tiles_size(t, t.len() as int),
    decreases t.len(),
{
    if t.len() > 0 {
        let e = t.last();
        lemma_tiles_len(t.drop_last());
        lemma_tiles_size_prefix(t, t.len() - 1);
        lemma_u32s_len(e.portals);
        lemma_u64s_len(e.w);
    }
}

/// The stored form takes exactly the size that [`SchurArtifact::size_bytes`] tells.
pub proof fn law_stored_size(a: ArtifactView)
    ensures
        encoded(a).len() == byte_size(a),
{
    lemma_portals_len(a.portals);
    lemma_tiles_len(a.tiles);
}

proof fn lemma_byte_of_next(v: int, k: nat)
    ensures
        byte_of(v, k + 1) == byte_of(v / 256, k),
{
}

/// Appends the lowest `n` bytes of `v`, the least significant first.
fn put_le(out: &mut Vec<u8>, v: u64, n: u32)
    ensures
        final(out)@ == old(out)@ + le_bytes(v as int, n as nat),
{
    let ghost o = out@;
    let mut rest: u64 = v;
    let mut k: u32 = 0;
    while k < n
        invariant
            k <= n,
            out@ =~= o + le_bytes(v as int, k as nat),
            forall|j: nat| #[trigger] byte_of(rest as int, j) == byte_of(v as int, j + k as nat),
        decreases n - k,
    {
        let b: u8 = (rest % 256) as u8;
        assert(byte_of(rest as int, 0) == b);
        out.push(b);
        let ghost r0 = rest as int;
        rest = rest / 256;
        assert forall|j: nat| #[trigger] byte_of(rest as int, j) == byte_of(
            v as int,
            j + (k + 1) as nat,
        ) by {
            lemma_byte_of_next(r0, j);
            assert(byte_of(r0, j + 1) == byte_of(v as int, (j + 1) + k as nat));
        }
        k += 1;
    }
}

/// The unsigned reading of a signed number's bits.
fn to_unsigned(v: i32) -> (r: u64)
    ensures
        r == unsigned(v),
{
    if v >= 0 {
        v as u64
    } else {
        (v as i64 + 0x1_0000_0000) as u64
    }
}

/// The signed reading of an unsigned number's bits.
fn to_signed(v: u64) -> (r: i32)
    requires
        v < 0x1_0000_0000,
    ensures
        r == signed(v as int),
{
    if v < 0x8000_0000 {
        v as i32
    } else {
        (v as i64 - 0x1_0000_0000) as i32
    }
}

fn put_i32(out: &mut Vec<u8>, v: i32)
    ensures
        final(out)@ == old(out)@ + enc_i32(v),
{
    put_le(out, to_unsigned(v), 4);
}

/// The number whose `n` bytes start at `i`.
fn get_le(b: &Vec<u8>, i: usize, n: usize) -> (r: u64)
    requires
        i + n <= b.len(),
        n <= 8,
    ensures
        r == le_value(b@, i as int, n as nat),
        r < p256(n as nat),
{
    let mut acc: u64 = 0;
    let mut k: usize = 0;
    while k < n
        invariant
            k <= n <= 8,
            i + n <= b.len(),
            acc == le_value(b@, i + n - k, k as nat),
        decreases n - k,
    {
        proof {
            lemma_le_value_range(b@, i + n - k, k as nat);
            lemma_p256();
            lemma_p256_mono((k + 1) as nat, 8);
        }
        acc = acc * 256 + b[i + n - 1 - k] as u64;
        k += 1;
    }
    proof {
        lemma_le_value_range(b@, i as int, n as nat);
    }
    acc
}

fn read_i32(b: &Vec<u8>, i: usize) -> (r: i32)
    requires
        i + 4 <= b.len(),
    ensures
        r == signed(le_value(b@, i as int, 4)),
{
    proof {
        lemma_p256();
    }
    to_signed(get_le(b, i, 4))
}

fn read_u32(b: &Vec<u8>, i: usize) -> (r: Option<u32>)
    requires
        i <= b@.len(),
    ensures
        match r {
            None => dec_u32(b@, i as int) is None,
            Some(v) => dec_u32(b@, i as int) == Some((v, i + 4)) && i + 4 <= b.len(),
        },
{
    if b.len() - i < 4 {
        return None;
    }
    let v: u64 = get_le(b, i, 4);
    proof {
        lemma_p256();
    }
    Some(v as u32)
}

fn read_u64(b: &Vec<u8>, i: usize) -> (r: Option<u64>)
    requires
        i <= b@.len(),
    ensures
        match r {
            None => i + 8 > b@.len(),
            Some(v) => v == le_value(b@, i as int, 8) && i + 8 <= b.len(),
        },
{
    if b.len() - i < 8 {
        return None;
    }
    Some(get_le(b, i, 8))
}

fn read_portals(b: &Vec<u8>, i: usize, n: u32) -> (r: Option<(Vec<Portal>, usize)>)
    requires
        i <= b@.len(),
    ensures
        match r {
            None => dec_portals(b@, i as int, n as int) is None,
            Some((p, j)) => dec_portals(b@, i as int, n as int) == Some((p@, j as int)) && j
                <= b@.len(),
        },
{
    let mut out: Vec<Portal> = Vec::new();
    let mut at: usize = i;
    let mut k: u32 = 0;
    while k < n
        invariant
            k <= n,
            at <= b@.len(),
            dec_portals(b@, i as int, k as int) == Some((out@, at as int)),
        decreases n - k,
    {
        if b.len() - at < 12 {
            proof {
                lemma_portals_short(b@, i as int, k + 1, n as int);
            }
            return None;
        }
        let ix: i32 = read_i32(b, at);
        let iy: i32 = read_i32(b, at + 4);
        let it: i32 = read_i32(b, at + 8);
        out.push(Portal { ix, iy, it });
        at += 12;
        k += 1;
    }
    Some((out, at))
}

proof fn lemma_portals_short(b: Seq<u8>, i: int, k: int, n: int)
    requires
        dec_portals(b, i, k) is None,
        k <= n,
    ensures
        dec_portals(b, i, n) is None,
    decreases n,
{
    if k < n {
        lemma_portals_short(b, i, k, n - 1);
    }
}

proof fn lemma_u32s_short(b: Seq<u8>, i: int, k: int, n: int)
    requires
        dec_u32s(b, i, k) is None,
        k <= n,
    ensures
        dec_u32s(b, i, n) is None,
    decreases n,
{
    if k < n {
        lemma_u32s_short(b, i, k, n - 1);
    }
}

proof fn lemma_u64s_short(b: Seq<u8>, i: int, k: int, n: int)
    requires
        dec_u64s(b, i, k) is None,
        k <= n,
    ensures
        dec_u64s(b, i, n) is None,
    decreases n,
{
    if k < n {
        lemma_u64s_short(b, i, k, n - 1);
    }
}

proof fn lemma_tiles_short(b: Seq<u8>, i: int, k: int, n: int)
    requires
        dec_tiles(b, i, k) is None,
        k <= n,
    ensures
        dec_tiles(b, i, n) is None,
    decreases n,
{
    if k < n {
        lemma_tiles_short(b, i, k, n - 1);
    }
}

fn read_edges(b: &Vec<u8>, i: usize) -> (r: Option<(TileEdges, usize)>)
    requires
        i <= b@.len(),
    ensures
        match r {
            None => dec_edges(b@, i as int) is None,
            Some((e, j)) => dec_edges(b@, i as int) == Some((e@, j as int)) && j <= b@.len(),
        },
{
    let n: u32 = match read_u32(b, i) {
        None => {
            return None;
        },
        Some(n) => n,
    };
    let mut at: usize = i + 4;
    let mut portals: Vec<u32> = Vec::new();
    let mut k: u32 = 0;
    while k < n
        invariant
            k <= n,
            at <= b@.len(),
            dec_u32(b@, i as int) == Some((n, i + 4)),
            dec_u32s(b@, i + 4, k as int) == Some((portals@, at as int)),
        decreases n - k,
    {
        match read_u32(b, at) {
            None => {
                proof {
                    lemma_u32s_short(b@, i + 4, k + 1, n as int);
                }
                return None;
            },
            Some(v) => {
                portals.push(v);
                at += 4;
            },
        }
        k += 1;
    }
    let ghost mid = at as int;
    let mut w: Vec<u64> = Vec::new();
    proof {
        assert(0 <= n * n <= u64::MAX) by (nonlinear_arith)
            requires
                0 <= n <= 0xffff_ffff,
        ;
    }
    let total: u64 = (n as u64) * (n as u64);
    let mut l: u64 = 0;
    while l < total
        invariant
            l <= total,
            total == n * n,
            at <= b@.len(),
            dec_u32(b@, i as int) == Some((n, i + 4)),
            dec_u32s(b@, i + 4, n as int) == Some((portals@, mid)),
            dec_u64s(b@, mid, l as int) == Some((w@, at as int)),
        decreases total - l,
    {
        match read_u64(b, at) {
            None => {
                proof {
                    lemma_u64s_short(b@, mid, l + 1, total as int);
                }
                return None;
            },
            Some(v) => {
                w.push(v);
                at += 8;
            },
        }
        l += 1;
    }
    Some((TileEdges { portals, w }, at))
}

/// Whether the bytes start with the magic word.
fn has_magic(b: &Vec<u8>) -> (r: bool)
    requires
        b@.len() >= 8,
    ensures
        r == (b@.subrange(0, 8) == magic()),
{
    let r: bool = b[0] == 0x56 && b[1] == 0x49 && b[2] == 0x53 && b[3] == 0x43 && b[4] == 0x48
        && b[5] == 0x55 && b[6] == 0x52 && b[7] == 0x31;
    proof {
        let m = magic();
        let h = b@.subrange(0, 8);
        if r {
            assert(h =~= m);
        } else {
            assert(h[0] == b@[0] && h[1] == b@[1] && h[2] == b@[2] && h[3] == b@[3] && h[4]
                == b@[4] && h[5] == b@[5] && h[6] == b@[6] && h[7] == b@[7]);
            assert(m[0] == 0x56 && m[1] == 0x49 && m[2] == 0x53 && m[3] == 0x43 && m[4] == 0x48
                && m[5] == 0x55 && m[6] == 0x52 && m[7] == 0x31);
        }
    }
    r
}

impl SchurArtifact {
    /// The stored form of the artifact.
    pub fn save(&self) -> (out: Vec<u8>)
        requires
            self.portals@.len() <= u32::MAX,
            self.tiles@.len() <= u32::MAX,
            forall|t: int|
                0 <= t < self.tiles@.len() ==> (#[trigger] self.tiles@[t]).portals@.len()
                    <= u32::MAX,
        ensures
            out@ == encoded(self@),
    {
        let mut out: Vec<u8> = Vec::new();
        out.push(0x56);
        out.push(0x49);
        out.push(0x53);
        out.push(0x43);
        out.push(0x48);
        out.push(0x55);
        out.push(0x52);
        out.push(0x31);
        assert(out@ =~= magic());
        put_i32(&mut out, self.tile);
        put_i32(&mut out, self.halo);
        put_i32(&mut out, self.nx);
        put_i32(&mut out, self.ny);
        put_i32(&mut out, self.nt);
        put_i32(&mut out, self.tnx);
        put_i32(&mut out, self.tny);
        assert(out@ =~= magic() + enc_header(self@));
        put_le(&mut out, self.portals.len() as u64, 4);
        let ghost h1 = out@;
        let mut k: usize = 0;
        while k < self.portals.len()
            invariant
                k <= self.portals.len(),
                out@ =~= h1 + enc_portals(self.portals@.take(k as int)),
            decreases self.portals.len() - k,
        {
            let p: Portal = self.portals[k];
            proof {
                let t = self.portals@.take(k + 1);
                assert(t.drop_last() =~= self.portals@.take(k as int));
                assert(t.last() == p);
            }
            put_i32(&mut out, p.ix);
            put_i32(&mut out, p.iy);
            put_i32(&mut out, p.it);
            k += 1;
        }
        assert(self.portals@.take(self.portals@.len() as int) =~= self.portals@);
        put_le(&mut out, self.tiles.len() as u64, 4);
        let ghost h2 = out@;
        let ghost tv = self@.tiles;
        let mut t: usize = 0;
        while t < self.tiles.len()
            invariant
                t <= self.tiles.len(),
                tv == self@.tiles,
                tv.len() == self.tiles@.len(),
                forall|t: int|
                    0 <= t < self.tiles@.len() ==> (#[trigger] self.tiles@[t]).portals@.len()
                        <= u32::MAX,
                out@ =~= h2 + enc_tiles(tv.take(t as int)),
            decreases self.tiles.len() - t,
        {
            let e: &TileEdges = &self.tiles[t];
            let ghost h3 = out@;
            put_le(&mut out, e.portals.len() as u64, 4);
            let ghost n4 = le_bytes(e.portals@.len() as int, 4);
            let mut i: usize = 0;
            while i < e.portals.len()
                invariant
                    i <= e.portals.len(),
                    out@ =~= h3 + n4 + enc_u32s(e.portals@.take(i as int)),
                decreases e.portals.len() - i,
            {
                proof {
                    let s = e.portals@.take(i + 1);
                    assert(s.drop_last() =~= e.portals@.take(i as int));
                    assert(s.last() == e.portals@[i as int]);
                }
                put_le(&mut out, e.portals[i] as u64, 4);
                i += 1;
            }
            assert(e.portals@.take(e.portals@.len() as int) =~= e.portals@);
            let mut j: usize = 0;
            while j < e.w.len()
                invariant
                    j <= e.w.len(),
                    out@ =~= h3 + n4 + enc_u32s(e.portals@) + enc_u64s(e.w@.take(j as int)),
                decreases e.w.len() - j,
            {
                proof {
                    let s = e.w@.take(j + 1);
                    assert(s.drop_last() =~= e.w@.take(j as int));
                    assert(s.last() == e.w@[j as int]);
                }
                put_le(&mut out, e.w[j], 8);
                j += 1;
            }
            proof {
                assert(e.w@.take(e.w@.len() as int) =~= e.w@);
                let s = tv.take(t + 1);
                assert(s.drop_last() =~= tv.take(t as int));
                assert(s.last() == e@);
                assert(out@ =~= h3 + enc_edges(e@));
            }
            t += 1;
        }
        assert(tv.take(tv.len() as int) =~= tv);
        assert(out@ =~= encoded(self@));
        out
    }

    /// The artifact that some stored bytes hold.
    pub fn load(b: &Vec<u8>) -> (r: Result<SchurArtifact, LoadError>)
        ensures
            match r {
                Ok(a) => decoded(b@) == Ok::<ArtifactView, LoadError>(a@),
                Err(e) => decoded(b@) == Err::<ArtifactView, LoadError>(e),
            },
    {
        if b.len() < 8 {
            return Err(LoadError::UnexpectedEof);
        }
        if !has_magic(b) {
            return Err(LoadError::NotAnArtifact);
        }
        if b.len() < 36 {
            return Err(LoadError::UnexpectedEof);
        }
        let tile: i32 = read_i32(b, 8);
        let halo: i32 = read_i32(b, 12);
        let nx: i32 = read_i32(b, 16);
        let ny: i32 = read_i32(b, 20);
        let nt: i32 = read_i32(b, 24);
        let tnx: i32 = read_i32(b, 28);
        let tny: i32 = read_i32(b, 32);
        let np: u32 = match read_u32(b, 36) {
            None => {
                return Err(LoadError::UnexpectedEof);
            },
            Some(v) => v,
        };
        let (portals, at) = match read_portals(b, 40, np) {
            None => {
                return Err(LoadError::UnexpectedEof);
            },
            Some(v) => v,
        };
        let ntl: u32 = match read_u32(b, at) {
            None => {
                return Err(LoadError::UnexpectedEof);
            },
            Some(v) => v,
        };
        let ghost first = at + 4;
        let mut pos: usize = at + 4;
        let mut tiles: Vec<TileEdges> = Vec::new();
        let ghost f = |e: TileEdges| e@;
        let mut k: u32 = 0;
        assert(tiles@.map_values(f) =~= Seq::<EdgesView>::empty());
        while k < ntl
            invariant
                k <= ntl,
                pos <= b@.len(),
                f == (|e: TileEdges| e@),
                dec_tiles(b@, first, k as int) == Some((tiles@.map_values(f), pos as int)),
                dec_u32(b@, 36) == Some((np, 40int)),
                dec_portals(b@, 40, np as int) == Some((portals@, at as int)),
                dec_u32(b@, at as int) == Some((ntl, first)),
                b@.len() >= 36,
                b@.subrange(0, 8) == magic(),
            decreases ntl - k,
        {
            match read_edges(b, pos) {
                None => {
                    proof {
                        lemma_tiles_short(b@, first, k + 1, ntl as int);
                    }
                    return Err(LoadError::UnexpectedEof);
                },
                Some((e, next)) => {
                    let ghost was = tiles@;
                    tiles.push(e);
                    assert(tiles@.map_values(f) =~= was.map_values(f).push(e@));
                    pos = next;
                },
            }
            k += 1;
        }
        let a = SchurArtifact { tile, halo, nx, ny, nt, tnx, tny, portals, tiles };
        assert(a@.tiles =~= tiles@.map_values(f));
        Ok(a)
    }
}

/// Numbers are written with the lowest byte first, and the bytes of a number give it back.
pub proof fn law_lowest_byte_comes_first(v: int, n: nat)
    requires
        0 <= v,
        0 < n,
    ensures
        le_bytes(v, n).len() == n,
        le_bytes(v, n)[0] == v % 256,
        le_bytes(v, n).skip(1) == le_bytes(v / 256, (n - 1) as nat),
{
    assert(le_bytes(v, n).skip(1) =~= le_bytes(v / 256, (n - 1) as nat));
}

/// An artifact starts with the eight letters of its format's name.
pub proof fn law_artifact_starts_with_its_name(a: ArtifactView)
    ensures
        encoded(a).len() >= 8,
        encoded(a)[0] == 0x56 && encoded(a)[1] == 0x49 && encoded(a)[2] == 0x53 && encoded(a)[3]
            == 0x43,
        encoded(a)[4] == 0x48 && encoded(a)[5] == 0x55 && encoded(a)[6] == 0x52 && encoded(a)[7]
            == 0x31,
{
}

/// Signed numbers are written as they stand in a machine word: negative ones count down from
/// the largest word.
pub proof fn law_signs_come_back(v: i32)
    ensures
        0 <= unsigned(v) < 0x1_0000_0000,
        signed(unsigned(v)) == v,
        unsigned(v) == v || unsigned(v) == v + 0x1_0000_0000,
{
}

} // verus!
