//! Rigid models: the signature `RMV2`, the format version (6 or 7), the LOD count,
//! a 128-byte block naming the base skeleton as a NUL-terminated string, one header
//! per LOD (five 32-bit words, seven in version 7), then the geometry, kept as
//! bytes. The skeleton block can be patched in place.

use vstd::prelude::*;

use crate::bytes::{
    Cursor, le32, lemma_cstring_round_trip, lemma_u32_round_trip, lemma_u32_split,
    take_cstring, take_u32, u32_bytes, write_bytes, write_u32,
};
use crate::error::PackError;

verus! {

/// The header of one level of detail. The two trailing words exist in version 7
/// only and are zero in version 6.
#[derive(Debug, Clone, Copy, PartialEq, Eq, Structural)]
pub struct LodHeader {
    pub groups_count: u32,
    pub vertices_data_length: u32,
    pub indices_data_length: u32,
    pub start_offset: u32,
    /// The bit pattern of the float zoom factor.
    pub zoom_factor: u32,
    pub extra_1: u32,
    pub extra_2: u32,
}

/// A decoded rigid model.
#[derive(Debug)]
pub struct RigidModel {
    pub version: u32,
    pub skeleton: Vec<u8>,
    pub lods: Vec<LodHeader>,
    pub body: Vec<u8>,
}

pub struct RigidView {
    pub version: u32,
    pub skeleton: Seq<u8>,
    pub lods: Seq<LodHeader>,
    pub body: Seq<u8>,
}

impl View for RigidModel {
    type V = RigidView;

    open spec fn view(&self) -> RigidView {
        RigidView {
            version: self.version,
            skeleton: self.skeleton@,
            lods: self.lods@,
            body: self.body@,
        }
    }
}

pub open spec fn rigid_magic() -> Seq<u8> {
    seq![0x52u8, 0x4Du8, 0x56u8, 0x32u8]
}

/// Words in a LOD header of `version`.
pub open spec fn lod_word_count(version: u32) -> nat {
    if version == 7 {
        7
    } else {
        5
    }
}

pub open spec fn lod_words(h: LodHeader, version: u32) -> Seq<u32> {
    let base = seq![
        h.groups_count,
        h.vertices_data_length,
        h.indices_data_length,
        h.start_offset,
        h.zoom_factor,
    ];
    if version == 7 {
        base + seq![h.extra_1, h.extra_2]
    } else {
        base
    }
}

pub open spec fn lod_of(ws: Seq<u32>, version: u32) -> LodHeader {
    LodHeader {
        groups_count: ws[0],
        vertices_data_length: ws[1],
        indices_data_length: ws[2],
        start_offset: ws[3],
        zoom_factor: ws[4],
        extra_1: if version == 7 {
            ws[5]
        } else {
            0
        },
        extra_2: if version == 7 {
            ws[6]
        } else {
            0
        },
    }
}

pub open spec fn words_bytes(ws: Seq<u32>) -> Seq<u8> {
    ws.map_values(|w: u32| u32_bytes(w)).flatten()
}

pub open spec fn take_words(s: Seq<u8>, n: nat) -> Option<(Seq<u32>, Seq<u8>)>
    decreases n,
{
    if n == 0 {
        Some((Seq::empty(), s))
    } else {
        match take_u32(s) {
            None => None,
            Some((w, r)) => match take_words(r, (n - 1) as nat) {
                None => None,
                Some((ws, r2)) => Some((seq![w] + ws, r2)),
            },
        }
    }
}

pub open spec fn take_lods(s: Seq<u8>, version: u32, n: nat) -> Option<(Seq<LodHeader>, Seq<u8>)>
    decreases n,
{
    if n == 0 {
        Some((Seq::empty(), s))
    } else {
        match take_words(s, lod_word_count(version)) {
            None => None,
            Some((ws, r)) => match take_lods(r, version, (n - 1) as nat) {
                None => None,
                Some((ls, r2)) => Some((seq![lod_of(ws, version)] + ls, r2)),
            },
        }
    }
}

pub open spec fn lods_bytes(ls: Seq<LodHeader>, version: u32) -> Seq<u8> {
    ls.map_values(|h: LodHeader| words_bytes(lod_words(h, version))).flatten()
}

/// What decoding a rigid model gives: `MalformedHeader` for a short buffer, a bad
/// signature or an unknown version, `TruncatedData` when the LOD headers run past
/// the end.
pub open spec fn spec_decode_rigid(b: Seq<u8>) -> Result<RigidView, PackError> {
    if b.len() < 140 || b.take(4) != rigid_magic() {
        Err(PackError::MalformedHeader)
    } else {
        let version = le32(b.skip(4));
        if version != 6 && version != 7 {
            Err(PackError::MalformedHeader)
        } else {
            match take_lods(b.skip(140), version, le32(b.skip(8)) as nat) {
                None => Err(PackError::TruncatedData),
                Some((ls, rest)) => Ok(
                    RigidView {
                        version,
                        skeleton: b.subrange(12, 140),
                        lods: ls,
                        body: rest,
                    },
                ),
            }
        }
    }
}

/// The bytes a rigid model is written as.
pub open spec fn rigid_bytes(m: RigidView) -> Seq<u8> {
    rigid_magic() + u32_bytes(m.version) + u32_bytes(m.lods.len() as u32) + m.skeleton
        + lods_bytes(m.lods, m.version) + m.body
}

/// A model that can be written and read back: a known version, a full skeleton
/// block, a countable LOD list, and no trailing words in version 6.
pub open spec fn valid_rigid(m: RigidView) -> bool {
    &&& (m.version == 6 || m.version == 7)
    &&& m.skeleton.len() == 128
    &&& m.lods.len() <= u32::MAX
    &&& m.version == 6 ==> forall|i: int|
        0 <= i < m.lods.len() ==> (#[trigger] m.lods[i]).extra_1 == 0 && m.lods[i].extra_2 == 0
}

/// The skeleton name stored in a block: the bytes before its first NUL, or the
/// whole block without one.
pub open spec fn name_in_block(b: Seq<u8>) -> Seq<u8> {
    match take_cstring(b) {
        Some((n, _)) => n,
        None => b,
    }
}

proof fn lemma_words_unfold(ws: Seq<u32>)
    requires
        ws.len() > 0,
    ensures
        words_bytes(ws) == u32_bytes(ws[0]) + words_bytes(ws.drop_first()),
{
    let m = ws.map_values(|w: u32| u32_bytes(w));
    assert(m.drop_first() =~= ws.drop_first().map_values(|w: u32| u32_bytes(w)));
}

proof fn lemma_lods_unfold(ls: Seq<LodHeader>, version: u32)
    requires
        ls.len() > 0,
    ensures
        lods_bytes(ls, version) == words_bytes(lod_words(ls[0], version)) + lods_bytes(
            ls.drop_first(),
            version,
        ),
{
    let m = ls.map_values(|h: LodHeader| words_bytes(lod_words(h, version)));
    assert(m.drop_first() =~= ls.drop_first().map_values(
        |h: LodHeader| words_bytes(lod_words(h, version)),
    ));
}

proof fn lemma_words_round_trip(ws: Seq<u32>, rest: Seq<u8>)
    ensures
        take_words(words_bytes(ws) + rest, ws.len()) == Some((ws, rest)),
    decreases ws.len(),
{
    if ws.len() == 0 {
        assert(words_bytes(ws) + rest =~= rest);
        assert(ws =~= Seq::<u32>::empty());
    } else {
        lemma_words_unfold(ws);
        let tail = words_bytes(ws.drop_first()) + rest;
        assert(words_bytes(ws) + rest =~= u32_bytes(ws[0]) + tail);
        lemma_u32_round_trip(ws[0], tail);
        lemma_words_round_trip(ws.drop_first(), rest);
        assert(seq![ws[0]] + ws.drop_first() =~= ws);
    }
}

proof fn lemma_words_split(s: Seq<u8>, n: nat)
    requires
        take_words(s, n) is Some,
    ensures
        match take_words(s, n) {
            Some((ws, rest)) => s == words_bytes(ws) + rest && ws.len() == n,
            None => false,
        },
    decreases n,
{
    if n == 0 {
        assert(s =~= words_bytes(Seq::<u32>::empty()) + s);
    } else {
        lemma_u32_split(s);
        let (w, r) = take_u32(s)->0;
        lemma_words_split(r, (n - 1) as nat);
        let (ws, rest) = take_words(r, (n - 1) as nat)->0;
        let all = seq![w] + ws;
        assert(all.drop_first() =~= ws);
        lemma_words_unfold(all);
        assert(s =~= words_bytes(all) + rest);
    }
}

proof fn lemma_lods_round_trip(ls: Seq<LodHeader>, version: u32, rest: Seq<u8>)
    requires
        version == 6 || version == 7,
        version == 6 ==> forall|i: int|
            0 <= i < ls.len() ==> (#[trigger] ls[i]).extra_1 == 0 && ls[i].extra_2 == 0,
    ensures
        take_lods(lods_bytes(ls, version) + rest, version, ls.len()) == Some((ls, rest)),
    decreases ls.len(),
{
    if ls.len() == 0 {
        assert(lods_bytes(ls, version) + rest =~= rest);
        assert(ls =~= Seq::<LodHeader>::empty());
    } else {
        lemma_lods_unfold(ls, version);
        let ws = lod_words(ls[0], version);
        let tail = lods_bytes(ls.drop_first(), version) + rest;
        assert(lods_bytes(ls, version) + rest =~= words_bytes(ws) + tail);
        lemma_words_round_trip(ws, tail);
        let h = ls[0];
        assert(ws[0] == h.groups_count && ws[1] == h.vertices_data_length && ws[2]
            == h.indices_data_length && ws[3] == h.start_offset && ws[4] == h.zoom_factor);
        if version == 7 {
            assert(ws[5] == h.extra_1 && ws[6] == h.extra_2);
        } else if version == 6 {
            assert(h.extra_1 == 0 && h.extra_2 == 0);
        }
        assert(lod_of(ws, version) == ls[0]);
        assert forall|i: int| 0 <= i < ls.drop_first().len() implies (#[trigger] ls.drop_first()[i])
            == ls[i + 1] by {}
        lemma_lods_round_trip(ls.drop_first(), version, rest);
        assert(seq![ls[0]] + ls.drop_first() =~= ls);
    }
}

proof fn lemma_lods_split(s: Seq<u8>, version: u32, n: nat)
    requires
        take_lods(s, version, n) is Some,
    ensures
        match take_lods(s, version, n) {
            Some((ls, rest)) => s == lods_bytes(ls, version) + rest && ls.len() == n && (version
                == 6 ==> forall|i: int|
                0 <= i < ls.len() ==> (#[trigger] ls[i]).extra_1 == 0 && ls[i].extra_2 == 0),
            None => false,
        },
    decreases n,
{
    if n == 0 {
        assert(s =~= lods_bytes(Seq::<LodHeader>::empty(), version) + s);
    } else {
        let k = lod_word_count(version);
        lemma_words_split(s, k);
        let (ws, r) = take_words(s, k)->0;
        lemma_lods_split(r, version, (n - 1) as nat);
        let (ls, rest) = take_lods(r, version, (n - 1) as nat)->0;
        let h = lod_of(ws, version);
        assert(lod_words(h, version) =~= ws);
        let all = seq![h] + ls;
        assert(all.drop_first() =~= ls);
        lemma_lods_unfold(all, version);
        assert(s =~= lods_bytes(all, version) + rest);
        assert forall|i: int| 0 <= i < all.len() && version == 6 implies (#[trigger] all[i]).extra_1
            == 0 && all[i].extra_2 == 0 by {
            if i > 0 {
                assert(all[i] == ls[i - 1]);
            }
        }
    }
}

/// Writing a valid model and reading the bytes back gives the same model.
pub proof fn lemma_rigid_round_trip(m: RigidView)
    requires
        valid_rigid(m),
    ensures
        spec_decode_rigid(rigid_bytes(m)) == Ok::<RigidView, PackError>(m),
{
    let b = rigid_bytes(m);
    let lb = lods_bytes(m.lods, m.version);
    let t2 = lb + m.body;
    let t1 = m.skeleton + t2;
    let t0 = u32_bytes(m.lods.len() as u32) + t1;
    assert(b =~= rigid_magic() + (u32_bytes(m.version) + t0));
    assert(b.take(4) =~= rigid_magic());
    assert(b.skip(4) =~= u32_bytes(m.version) + t0);
    assert(b.skip(8) =~= t0);
    assert(b.skip(12) =~= t1);
    lemma_u32_round_trip(m.version, t0);
    lemma_u32_round_trip(m.lods.len() as u32, t1);
    assert(b.subrange(12, 140) =~= m.skeleton);
    assert(b.skip(140) =~= t2);
    lemma_lods_round_trip(m.lods, m.version, m.body);
}

/// A successful decode reads the bytes exactly: writing the model reproduces them.
pub proof fn lemma_rigid_decode_exact(b: Seq<u8>)
    requires
        spec_decode_rigid(b) is Ok,
    ensures
        valid_rigid(spec_decode_rigid(b)->Ok_0),
        rigid_bytes(spec_decode_rigid(b)->Ok_0) == b,
{
    let m = spec_decode_rigid(b)->Ok_0;
    let n = le32(b.skip(8));
    let lb = lods_bytes(m.lods, m.version);
    assert(b.skip(140) == lb + m.body && m.lods.len() == n) by {
        lemma_lods_split(b.skip(140), m.version, n as nat);
    }
    assert(b.skip(4) == u32_bytes(m.version) + b.skip(8)) by {
        lemma_u32_split(b.skip(4));
        assert(b.skip(4).skip(4) =~= b.skip(8));
    }
    assert(b.skip(8) == u32_bytes(n) + b.skip(12)) by {
        lemma_u32_split(b.skip(8));
        assert(b.skip(8).skip(4) =~= b.skip(12));
    }
    assert(b.skip(12) == m.skeleton + b.skip(140)) by {
        assert(b.skip(12) =~= b.subrange(12, 140) + b.skip(140));
    }
    assert(b == rigid_magic() + b.skip(4)) by {
        assert(b =~= b.take(4) + b.skip(4));
    }
    let t1 = m.skeleton + (lb + m.body);
    let t0 = u32_bytes(n) + t1;
    assert(b == rigid_magic() + (u32_bytes(m.version) + t0));
    assert(rigid_bytes(m) =~= rigid_magic() + (u32_bytes(m.version) + t0));
    assert(m.lods.len() as u32 == n);
    lemma_lods_split(b.skip(140), m.version, n as nat);
}

fn read_words(cur: &mut Cursor, n: usize) -> (r: Option<Vec<u32>>)
    requires
        old(cur).wf(),
    ensures
        final(cur).wf(),
        final(cur).bytes@ == old(cur).bytes@,
        match take_words(old(cur).rest(), n as nat) {
            Some((ws, rest)) => r is Some && r->0@ == ws && final(cur).rest() == rest,
            None => r is None,
        },
        r is Some ==> r->0@.len() == n,
{
    let ghost whole = take_words(old(cur).rest(), n as nat);
    let mut ws: Vec<u32> = Vec::new();
    let mut i: usize = 0;
    assert forall|xs: Seq<u32>| #![auto] Seq::<u32>::empty() + xs =~= xs by {}
    while i < n
        invariant
            i <= n,
            ws@.len() == i,
            cur.wf(),
            cur.bytes@ == old(cur).bytes@,
            whole == take_words(old(cur).rest(), n as nat),
            whole == match take_words(cur.rest(), (n - i) as nat) {
                Some((xs, rest)) => Some((ws@ + xs, rest)),
                None => None,
            },
        decreases n - i,
    {
        let ghost before = cur.rest();
        match cur.read_u32() {
            Ok(w) => {
                proof {
                    assert forall|xs: Seq<u32>| #![auto] ws@ + (seq![w] + xs) =~= ws@.push(w) + xs by {}
                }
                ws.push(w);
            },
            Err(_) => {
                assert(take_words(before, (n - i) as nat) is None);
                return None;
            },
        }
        i = i + 1;
    }
    assert(ws@ + Seq::<u32>::empty() =~= ws@);
    Some(ws)
}

fn write_words(out: &mut Vec<u8>, ws: &Vec<u32>)
    ensures
        final(out)@ == old(out)@ + words_bytes(ws@),
{
    let ghost start = out@;
    let mut i: usize = 0;
    while i < ws.len()
        invariant
            i <= ws@.len(),
            out@ == start + words_bytes(ws@.take(i as int)),
        decreases ws@.len() - i,
    {
        write_u32(out, ws[i]);
        proof {
            let f = |w: u32| u32_bytes(w);
            assert(ws@.take(i + 1).map_values(f) =~= ws@.take(i as int).map_values(f).push(
                u32_bytes(ws@[i as int]),
            ));
            ws@.take(i as int).map_values(f).lemma_flatten_push(u32_bytes(ws@[i as int]));
        }
        i = i + 1;
    }
    assert(ws@.take(ws@.len() as int) =~= ws@);
}

impl RigidModel {
    /// Reads a rigid model; see `spec_decode_rigid` for the errors.
    pub fn decode(bytes: &[u8]) -> (r: Result<RigidModel, PackError>)
        ensures
            match spec_decode_rigid(bytes@) {
                Ok(m) => r is Ok && r->Ok_0@ == m,
                Err(e) => r == Err::<RigidModel, PackError>(e),
            },
    {
        if bytes.len() < 140 || bytes[0] != 0x52 || bytes[1] != 0x4D || bytes[2] != 0x56 || bytes[3]
            != 0x32 {
            proof {
                if bytes@.len() >= 140 {
                    let h = bytes@.take(4);
                    assert(h[0] == bytes@[0] && h[1] == bytes@[1] && h[2] == bytes@[2] && h[3]
                        == bytes@[3]);
                }
            }
            return Err(PackError::MalformedHeader);
        }
        assert(bytes@.take(4) =~= rigid_magic());
        let mut cur = Cursor { bytes, pos: 4 };
        let version = match cur.read_u32() {
            Ok(v) => v,
            Err(_) => {
                return Err(PackError::MalformedHeader);
            },
        };
        if version != 6 && version != 7 {
            return Err(PackError::MalformedHeader);
        }
        let count = match cur.read_u32() {
            Ok(v) => v,
            Err(_) => {
                return Err(PackError::MalformedHeader);
            },
        };
        let skeleton = match cur.read_bytes(128) {
            Ok(v) => v,
            Err(_) => {
                return Err(PackError::MalformedHeader);
            },
        };
        proof {
            assert(bytes@.skip(4).skip(4) =~= bytes@.skip(8));
            assert(bytes@.skip(8).skip(4) =~= bytes@.skip(12));
            assert(bytes@.skip(12).take(128) =~= bytes@.subrange(12, 140));
            assert(bytes@.skip(12).skip(128) =~= bytes@.skip(140));
        }
        let k: usize = if version == 7 {
            7
        } else {
            5
        };
        let ghost s0 = cur.rest();
        let ghost whole = take_lods(s0, version, count as nat);
        let mut lods: Vec<LodHeader> = Vec::new();
        let mut i: u32 = 0;
        assert forall|xs: Seq<LodHeader>| #![auto] Seq::<LodHeader>::empty() + xs =~= xs by {}
        while i < count
            invariant
                i <= count,
                k == lod_word_count(version),
                bytes@.len() >= 140,
                bytes@.take(4) == rigid_magic(),
                version == le32(bytes@.skip(4)),
                version == 6 || version == 7,
                count == le32(bytes@.skip(8)),
                s0 == bytes@.skip(140),
                skeleton@ == bytes@.subrange(12, 140),
                cur.wf(),
                cur.bytes@ == bytes@,
                whole == take_lods(s0, version, count as nat),
                whole == match take_lods(cur.rest(), version, (count - i) as nat) {
                    Some((xs, rest)) => Some((lods@ + xs, rest)),
                    None => None,
                },
            decreases count - i,
        {
            let ghost before = cur.rest();
            match read_words(&mut cur, k) {
                Some(ws) => {
                    let h = LodHeader {
                        groups_count: ws[0],
                        vertices_data_length: ws[1],
                        indices_data_length: ws[2],
                        start_offset: ws[3],
                        zoom_factor: ws[4],
                        extra_1: if version == 7 {
                            ws[5]
                        } else {
                            0
                        },
                        extra_2: if version == 7 {
                            ws[6]
                        } else {
                            0
                        },
                    };
                    proof {
                        assert(h == lod_of(ws@, version));
                        assert forall|xs: Seq<LodHeader>|
                            #![auto]
                            lods@ + (seq![h] + xs) =~= lods@.push(h) + xs by {}
                    }
                    lods.push(h);
                },
                None => {
                    assert(take_lods(before, version, (count - i) as nat) is None);
                    return Err(PackError::TruncatedData);
                },
            }
            i = i + 1;
        }
        assert(lods@ + Seq::<LodHeader>::empty() =~= lods@);
        let n = cur.remaining();
        let ghost rest0 = cur.rest();
        assert(rest0.take(n as int) =~= rest0);
        let body = match cur.read_bytes(n) {
            Ok(v) => v,
            Err(_) => {
                return Err(PackError::TruncatedData);
            },
        };
        Ok(RigidModel { version, skeleton, lods, body })
    }

    /// Writes the model back in its own version.
    pub fn encode(&self) -> (r: Vec<u8>)
        requires
            valid_rigid(self@),
        ensures
            r@ == rigid_bytes(self@),
    {
        let mut out: Vec<u8> = vec![0x52, 0x4D, 0x56, 0x32];
        write_u32(&mut out, self.version);
        write_u32(&mut out, self.lods.len() as u32);
        write_bytes(&mut out, self.skeleton.as_slice());
        let ghost head = out@;
        let ghost ls = self.lods@;
        let v = self.version;
        let mut i: usize = 0;
        while i < self.lods.len()
            invariant
                ls == self.lods@,
                v == self.version,
                i <= ls.len(),
                out@ == head + lods_bytes(ls.take(i as int), v),
            decreases ls.len() - i,
        {
            let h = self.lods[i];
            let mut ws: Vec<u32> = vec![
                h.groups_count,
                h.vertices_data_length,
                h.indices_data_length,
                h.start_offset,
                h.zoom_factor,
            ];
            if v == 7 {
                ws.push(h.extra_1);
                ws.push(h.extra_2);
            }
            assert(ws@ =~= lod_words(h, v));
            write_words(&mut out, &ws);
            proof {
                let f = |x: LodHeader| words_bytes(lod_words(x, v));
                assert(ls.take(i + 1).map_values(f) =~= ls.take(i as int).map_values(f).push(
                    words_bytes(lod_words(h, v)),
                ));
                ls.take(i as int).map_values(f).lemma_flatten_push(words_bytes(lod_words(h, v)));
            }
            i = i + 1;
        }
        assert(ls.take(ls.len() as int) =~= ls);
        write_bytes(&mut out, self.body.as_slice());
        assert(out@ =~= rigid_bytes(self@));
        out
    }

    /// The name of the base skeleton: the skeleton block up to its first NUL.
    pub fn skeleton_name(&self) -> (r: Vec<u8>)
        ensures
            r@ == name_in_block(self.skeleton@),
    {
        let mut cur = Cursor::new(self.skeleton.as_slice());
        match cur.read_cstring() {
            Ok(name) => name,
            Err(_) => vstd::slice::slice_to_vec(self.skeleton.as_slice()),
        }
    }

    /// Patches the skeleton block in place: `name`, then NUL bytes up to 128.
    pub fn set_skeleton_name(&mut self, name: &[u8])
        requires
            name@.len() < 128,
            forall|j: int| 0 <= j < name@.len() ==> name@[j] != 0,
        ensures
            final(self).skeleton@ == name@ + Seq::new((128 - name@.len()) as nat, |j: int| 0u8),
            final(self).skeleton@.len() == 128,
            name_in_block(final(self).skeleton@) == name@,
            final(self).version == old(self).version,
            final(self).lods@ == old(self).lods@,
            final(self).body@ == old(self).body@,
    {
        let mut block: Vec<u8> = Vec::new();
        write_bytes(&mut block, name);
        let mut i: usize = name.len();
        while i < 128
            invariant
                name@.len() <= i <= 128,
                block@ =~= name@ + Seq::new((i - name@.len()) as nat, |j: int| 0u8),
            decreases 128 - i,
        {
            block.push(0);
            i = i + 1;
        }
        proof {
            let zeros = Seq::new((128 - name@.len()) as nat, |j: int| 0u8);
            let rest = zeros.drop_first();
            assert(block@ =~= name@ + seq![0u8] + rest);
            lemma_cstring_round_trip(name@, rest);
        }
        self.skeleton = block;
    }
}

} // verus!
