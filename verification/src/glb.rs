//! Binary glTF (GLB) packaging: buffer layout and container framing.

use vstd::prelude::*;

use crate::mesh::Mesh;

verus! {

/// Number of bytes needed to bring a length up to the next multiple of four.
pub open spec fn pad_len(len: nat) -> nat {
    ((4 - (len % 4)) % 4) as nat
}

/// `v` followed by `pad_len(v.len())` copies of `pad`.
pub open spec fn aligned4(v: Seq<u8>, pad: u8) -> Seq<u8> {
    v + Seq::new(pad_len(v.len()), |_i: int| pad)
}

/// Pad `v` with `pad` until its length is a multiple of four.
pub fn align4(v: &mut Vec<u8>, pad: u8)
    requires
        old(v).len() + 3 <= usize::MAX,
    ensures
        final(v)@ == aligned4(old(v)@, pad),
        final(v)@.len() % 4 == 0,
{
    let ghost start = v@;
    while v.len() % 4 != 0
        invariant
            start.len() <= v@.len() <= start.len() + pad_len(start.len()),
            v@.len() % 4 == 0 ==> v@.len() == start.len() + pad_len(start.len()),
            v@ == start + Seq::new((v@.len() - start.len()) as nat, |_i: int| pad),
            start.len() + 3 <= usize::MAX,
        decreases start.len() + pad_len(start.len()) - v@.len(),
    {
        v.push(pad);
    }
}


/// The four little-endian bytes of `w`.
pub open spec fn le_bytes(w: u32) -> Seq<u8> {
    seq![
        (w % 0x100) as u8,
        ((w / 0x100) % 0x100) as u8,
        ((w / 0x1_0000) % 0x100) as u8,
        ((w / 0x100_0000) % 0x100) as u8,
    ]
}

/// The little-endian encoding of a sequence of words, one after another.
pub open spec fn le_words(s: Seq<u32>) -> Seq<u8>
    decreases s.len(),
{
    if s.len() == 0 {
        Seq::empty()
    } else {
        le_words(s.drop_last()) + le_bytes(s.last())
    }
}

/// The number that four bytes denote when read little-endian.
pub open spec fn le_value(b: Seq<u8>) -> int {
    b[0] + 0x100 * b[1] + 0x1_0000 * b[2] + 0x100_0000 * b[3]
}

/// Reading the encoding of a word gives the word back.
pub proof fn lemma_le_bytes_roundtrip(w: u32)
    ensures
        le_bytes(w).len() == 4,
        le_value(le_bytes(w)) == w,
{
    let b0 = w % 0x100;
    let b1 = (w / 0x100) % 0x100;
    let b2 = (w / 0x1_0000) % 0x100;
    let b3 = (w / 0x100_0000) % 0x100;
    assert(b0 + 0x100 * b1 + 0x1_0000 * b2 + 0x100_0000 * b3 == w) by (bit_vector)
        requires
            b0 == w % 0x100,
            b1 == (w / 0x100) % 0x100,
            b2 == (w / 0x1_0000) % 0x100,
            b3 == (w / 0x100_0000) % 0x100,
    ;
}

pub proof fn lemma_le_words_len(s: Seq<u32>)
    ensures
        le_words(s).len() == 4 * s.len(),
    decreases s.len(),
{
    if s.len() > 0 {
        lemma_le_words_len(s.drop_last());
    }
}

/// Append the little-endian bytes of `w`.
pub fn push_u32_le(out: &mut Vec<u8>, w: u32)
    ensures
        final(out)@ == old(out)@ + le_bytes(w),
{
    out.push((w % 0x100) as u8);
    out.push(((w / 0x100) % 0x100) as u8);
    out.push(((w / 0x1_0000) % 0x100) as u8);
    out.push(((w / 0x100_0000) % 0x100) as u8);
    assert(out@ =~= old(out)@ + le_bytes(w));
}

/// Append the little-endian bytes of every word of `words`.
pub fn push_words_le(out: &mut Vec<u8>, words: &[u32])
    ensures
        final(out)@ == old(out)@ + le_words(words@),
{
    let ghost start = out@;
    let mut i: usize = 0;
    assert(words@.take(0) =~= Seq::<u32>::empty());
    while i < words.len()
        invariant
            i <= words@.len(),
            out@ == start + le_words(words@.take(i as int)),
        decreases words@.len() - i,
    {
        push_u32_le(out, words[i]);
        assert(words@.take(i + 1).drop_last() =~= words@.take(i as int));
        assert(out@ =~= start + le_words(words@.take(i + 1)));
        i = i + 1;
    }
    assert(words@.take(words@.len() as int) =~= words@);
}


/// GLB magic word, "glTF".
pub const GLB_MAGIC: u32 = 0x4654_6C67;
/// GLB container version.
pub const GLB_VERSION: u32 = 2;
/// Chunk type of the JSON chunk, "JSON".
pub const CHUNK_JSON: u32 = 0x4E4F_534A;
/// Chunk type of the binary chunk, "BIN\0".
pub const CHUNK_BIN: u32 = 0x004E_4942;
/// Buffer-view target for vertex attributes.
pub const ARRAY_BUFFER: u32 = 34962;
/// Buffer-view target for indices.
pub const ELEMENT_ARRAY_BUFFER: u32 = 34963;
/// Accessor component type `f32`.
pub const COMPONENT_FLOAT: u32 = 5126;
/// Accessor component type `u32`.
pub const COMPONENT_UNSIGNED_INT: u32 = 5125;

/// A glTF buffer view: a byte range of the binary chunk.
#[derive(Clone, Copy, Debug, PartialEq, Eq, Structural)]
pub struct BufferView {
    pub byte_offset: usize,
    pub byte_length: usize,
    pub target: u32,
}

/// The element shape of a glTF accessor.
#[derive(Clone, Copy, Debug, PartialEq, Eq, Structural)]
pub enum AccessorKind {
    Vec3,
    Scalar,
}

/// A glTF accessor over one buffer view.
#[derive(Clone, Copy, Debug, PartialEq, Eq, Structural)]
pub struct Accessor {
    pub buffer_view: usize,
    pub component_type: u32,
    pub count: usize,
    pub kind: AccessorKind,
}

/// The accessors of one mesh primitive. The primitive with number `k` is
/// drawn by mesh `k`, node `k` and material `k`.
#[derive(Clone, Copy, Debug, PartialEq, Eq, Structural)]
pub struct Primitive {
    pub position: usize,
    pub normal: usize,
    pub indices: usize,
}

/// The binary chunk of a GLB file together with the buffer views, accessors
/// and primitives that describe it.
pub struct GlbLayout {
    pub bin: Vec<u8>,
    pub views: Vec<BufferView>,
    pub accessors: Vec<Accessor>,
    pub primitives: Vec<Primitive>,
}

/// The three buffer views of a mesh whose bytes start at `off`.
pub open spec fn mesh_views(off: int, m: Mesh) -> Seq<BufferView> {
    let p = m.positions().len() as int;
    let n = m.normals().len() as int;
    let i = m.indices().len() as int;
    seq![
        BufferView { byte_offset: off as usize, byte_length: (4 * p) as usize, target: ARRAY_BUFFER },
        BufferView {
            byte_offset: (off + 4 * p) as usize,
            byte_length: (4 * n) as usize,
            target: ARRAY_BUFFER,
        },
        BufferView {
            byte_offset: (off + 4 * p + 4 * n) as usize,
            byte_length: (4 * i) as usize,
            target: ELEMENT_ARRAY_BUFFER,
        },
    ]
}

/// The three accessors of a mesh whose buffer views start at number `v`.
pub open spec fn mesh_accessors(v: int, m: Mesh) -> Seq<Accessor> {
    seq![
        Accessor {
            buffer_view: v as usize,
            component_type: COMPONENT_FLOAT,
            count: (m.positions().len() / 3) as usize,
            kind: AccessorKind::Vec3,
        },
        Accessor {
            buffer_view: (v + 1) as usize,
            component_type: COMPONENT_FLOAT,
            count: (m.normals().len() / 3) as usize,
            kind: AccessorKind::Vec3,
        },
        Accessor {
            buffer_view: (v + 2) as usize,
            component_type: COMPONENT_UNSIGNED_INT,
            count: m.indices().len() as usize,
            kind: AccessorKind::Scalar,
        },
    ]
}

/// The buffer views cover `0..len` one after another, without gaps or
/// overlaps.
pub open spec fn views_tile(views: Seq<BufferView>, len: nat) -> bool {
    &&& views.len() == 0 ==> len == 0
    &&& views.len() > 0 ==> views[0].byte_offset == 0
    &&& views.len() > 0 ==> views.last().byte_offset + views.last().byte_length == len
    &&& forall|i: int|
        0 <= i < views.len() - 1 ==> #[trigger] views[i + 1].byte_offset == views[i].byte_offset
            + views[i].byte_length
}

/// The bytes a mesh contributes to the binary chunk: positions, normals,
/// indices.
pub open spec fn mesh_bytes(m: Mesh) -> Seq<u8> {
    le_words(m.positions()) + le_words(m.normals()) + le_words(m.indices())
}

/// Append positions, normals and indices as little-endian words; the chunk
/// is realigned to four bytes after the attributes and after the indices.
/// Returns where the normals and the indices begin.
#[verifier::rlimit(40)]
fn append_mesh_bytes(bin: &mut Vec<u8>, pos: &[u32], nrm: &[u32], idx: &[u32]) -> (r: (
    usize,
    usize,
))
    requires
        old(bin)@.len() % 4 == 0,
        old(bin)@.len() + 4 * (pos@.len() + nrm@.len() + idx@.len()) + 3 <= usize::MAX,
    ensures
        final(bin)@ == old(bin)@ + le_words(pos@) + le_words(nrm@) + le_words(idx@),
        r.0 == old(bin)@.len() + 4 * pos@.len(),
        r.1 == old(bin)@.len() + 4 * pos@.len() + 4 * nrm@.len(),
{
    proof {
        lemma_le_words_len(pos@);
        lemma_le_words_len(nrm@);
        lemma_le_words_len(idx@);
    }
    let ghost start = bin@;
    push_words_le(bin, pos);
    let nrm_off = bin.len();
    push_words_le(bin, nrm);
    align4(bin, 0);
    assert(aligned4(start + le_words(pos@) + le_words(nrm@), 0) =~= start + le_words(pos@)
        + le_words(nrm@));
    let idx_off = bin.len();
    push_words_le(bin, idx);
    align4(bin, 0);
    assert(aligned4(start + le_words(pos@) + le_words(nrm@) + le_words(idx@), 0) =~= start
        + le_words(pos@) + le_words(nrm@) + le_words(idx@));
    (nrm_off, idx_off)
}

fn push_views(
    views: &mut Vec<BufferView>,
    p_off: usize,
    p_len: usize,
    n_off: usize,
    n_len: usize,
    i_off: usize,
    i_len: usize,
)
    ensures
        final(views)@ == old(views)@ + seq![
            BufferView { byte_offset: p_off, byte_length: p_len, target: ARRAY_BUFFER },
            BufferView { byte_offset: n_off, byte_length: n_len, target: ARRAY_BUFFER },
            BufferView { byte_offset: i_off, byte_length: i_len, target: ELEMENT_ARRAY_BUFFER },
        ],
{
    views.push(BufferView { byte_offset: p_off, byte_length: p_len, target: ARRAY_BUFFER });
    views.push(BufferView { byte_offset: n_off, byte_length: n_len, target: ARRAY_BUFFER });
    views.push(BufferView { byte_offset: i_off, byte_length: i_len, target: ELEMENT_ARRAY_BUFFER });
    assert(views@ =~= old(views)@ + seq![
            BufferView { byte_offset: p_off, byte_length: p_len, target: ARRAY_BUFFER },
            BufferView { byte_offset: n_off, byte_length: n_len, target: ARRAY_BUFFER },
            BufferView { byte_offset: i_off, byte_length: i_len, target: ELEMENT_ARRAY_BUFFER },
        ]);
}

impl GlbLayout {
    fn push_accessors(&mut self, v0: usize, npos: usize, nnrm: usize, nidx: usize)
        requires
            v0 + 2 <= usize::MAX,
        ensures
            final(self).bin == old(self).bin,
            final(self).views == old(self).views,
            final(self).primitives == old(self).primitives,
            final(self).accessors@ == old(self).accessors@ + seq![
                Accessor { buffer_view: v0, component_type: COMPONENT_FLOAT, count: npos, kind: AccessorKind::Vec3 },
                Accessor { buffer_view: (v0 + 1) as usize, component_type: COMPONENT_FLOAT, count: nnrm, kind: AccessorKind::Vec3 },
                Accessor { buffer_view: (v0 + 2) as usize, component_type: COMPONENT_UNSIGNED_INT, count: nidx, kind: AccessorKind::Scalar },
            ],
    {
        self.accessors.push(
            Accessor { buffer_view: v0, component_type: COMPONENT_FLOAT, count: npos, kind: AccessorKind::Vec3 },
        );
        self.accessors.push(
            Accessor { buffer_view: v0 + 1, component_type: COMPONENT_FLOAT, count: nnrm, kind: AccessorKind::Vec3 },
        );
        self.accessors.push(
            Accessor { buffer_view: v0 + 2, component_type: COMPONENT_UNSIGNED_INT, count: nidx, kind: AccessorKind::Scalar },
        );
        assert(self.accessors@ =~= old(self).accessors@ + seq![
                Accessor { buffer_view: v0, component_type: COMPONENT_FLOAT, count: npos, kind: AccessorKind::Vec3 },
                Accessor { buffer_view: (v0 + 1) as usize, component_type: COMPONENT_FLOAT, count: nnrm, kind: AccessorKind::Vec3 },
                Accessor { buffer_view: (v0 + 2) as usize, component_type: COMPONENT_UNSIGNED_INT, count: nidx, kind: AccessorKind::Scalar },
            ]);
    }

    /// Consistency of the records: the chunk stays four-byte aligned, there
    /// are three views and three accessors per primitive, accessor `a` reads
    /// view `a`, and primitive `k` uses accessors `3k`, `3k + 1`, `3k + 2`.
    pub open spec fn wf(&self) -> bool {
        &&& self.bin@.len() % 4 == 0
        &&& self.views@.len() == 3 * self.primitives@.len()
        &&& self.accessors@.len() == 3 * self.primitives@.len()
        &&& self.views@.len() <= self.bin@.len()
        &&& views_tile(self.views@, self.bin@.len())
        &&& forall|a: int|
            0 <= a < self.accessors@.len() ==> #[trigger] self.accessors@[a].buffer_view == a
        &&& forall|k: int|
            0 <= k < self.primitives@.len() ==> #[trigger] self.primitives@[k] == (Primitive {
                position: (3 * k) as usize,
                normal: (3 * k + 1) as usize,
                indices: (3 * k + 2) as usize,
            })
    }

    /// An empty layout.
    pub fn new() -> (l: GlbLayout)
        ensures
            l.wf(),
            l.bin@ == Seq::<u8>::empty(),
            l.views@ == Seq::<BufferView>::empty(),
            l.accessors@ == Seq::<Accessor>::empty(),
            l.primitives@ == Seq::<Primitive>::empty(),
    {
        GlbLayout { bin: Vec::new(), views: Vec::new(), accessors: Vec::new(), primitives: Vec::new() }
    }

    /// Lay out one mesh. An empty mesh is skipped and `None` comes back;
    /// otherwise its positions, normals and indices are appended to the
    /// binary chunk as little-endian words, three buffer views and three
    /// accessors describe them, and the number of the new primitive comes
    /// back.
    #[verifier::rlimit(40)]
    pub fn add_mesh(&mut self, mesh: &Mesh) -> (r: Option<usize>)
        requires
            old(self).wf(),
            mesh.wf(),
            old(self).bin@.len() + 4 * (mesh.positions().len() + mesh.normals().len()
                + mesh.indices().len()) + 3 <= usize::MAX,
        ensures
            final(self).wf(),
            mesh.vertex_count() == 0 ==> r is None && *final(self) == *old(self),
            mesh.vertex_count() > 0 ==> {
                &&& r == Some(old(self).primitives@.len() as usize)
                &&& final(self).bin@ == old(self).bin@ + mesh_bytes(*mesh)
                &&& final(self).views@ == old(self).views@ + mesh_views(
                    old(self).bin@.len() as int,
                    *mesh,
                )
                &&& final(self).accessors@ == old(self).accessors@ + mesh_accessors(
                    old(self).views@.len() as int,
                    *mesh,
                )
                &&& final(self).primitives@ == old(self).primitives@.push(
                    Primitive {
                        position: old(self).accessors@.len() as usize,
                        normal: (old(self).accessors@.len() + 1) as usize,
                        indices: (old(self).accessors@.len() + 2) as usize,
                    },
                )
            },
    {
        if mesh.is_empty() {
            return None;
        }
        let pos = mesh.pos();
        let nrm = mesh.nrm();
        let idx = mesh.idx();
        let b0 = self.bin.len();
        let v0 = self.views.len();
        let a0 = self.accessors.len();
        let k = self.primitives.len();
        let (nrm_off, idx_off) = append_mesh_bytes(&mut self.bin, pos, nrm, idx);
        assert(self.bin@ =~= old(self).bin@ + mesh_bytes(*mesh));
        proof {
            lemma_le_words_len(pos@);
            lemma_le_words_len(nrm@);
            lemma_le_words_len(idx@);
        }
        push_views(&mut self.views, b0, pos.len() * 4, nrm_off, nrm.len() * 4, idx_off, idx.len() * 4);
        assert(self.views@ =~= old(self).views@ + mesh_views(b0 as int, *mesh));
        assert forall|i: int|
            0 <= i < self.views@.len() - 1 implies #[trigger] self.views@[i + 1].byte_offset
            == self.views@[i].byte_offset + self.views@[i].byte_length by {
            if i + 1 < v0 {
                assert(self.views@[i] == old(self).views@[i]);
                assert(self.views@[i + 1] == old(self).views@[i + 1]);
            } else if i + 1 == v0 {
                assert(self.views@[i] == old(self).views@.last());
            }
        }
        self.push_accessors(v0, pos.len() / 3, nrm.len() / 3, idx.len());
        assert(self.accessors@ =~= old(self).accessors@ + mesh_accessors(v0 as int, *mesh));
        self.primitives.push(Primitive { position: a0, normal: a0 + 1, indices: a0 + 2 });
        assert forall|j: int| 0 <= j < self.primitives@.len() implies #[trigger] self.primitives@[j] == (Primitive {
            position: (3 * j) as usize,
            normal: (3 * j + 1) as usize,
            indices: (3 * j + 2) as usize,
        }) by {
            if j < k {
                assert(self.primitives@[j] == old(self).primitives@[j]);
            }
        }
        Some(k)
    }
}


/// The JSON chunk as stored: the document padded with spaces.
pub open spec fn json_chunk(json: Seq<u8>) -> Seq<u8> {
    aligned4(json, 0x20)
}

/// The binary chunk as stored: the buffer padded with zero bytes.
pub open spec fn bin_chunk(bin: Seq<u8>) -> Seq<u8> {
    aligned4(bin, 0)
}

/// Size of a GLB file holding `json` and `bin`: a 12-byte header and two
/// chunks with 8-byte headers each.
pub open spec fn glb_len(json: Seq<u8>, bin: Seq<u8>) -> int {
    (12 + 8 + json_chunk(json).len() + 8 + bin_chunk(bin).len()) as int
}

/// A GLB file: header (magic, version, total length), the JSON chunk
/// (length, type, data) and the binary chunk (length, type, data). Lengths
/// are written as `u32`, that is modulo 2^32.
pub open spec fn glb_bytes(json: Seq<u8>, bin: Seq<u8>) -> Seq<u8> {
    let jc = json_chunk(json);
    let bc = bin_chunk(bin);
    le_bytes(GLB_MAGIC) + le_bytes(GLB_VERSION) + le_bytes(glb_len(json, bin) as u32) + le_bytes(
        jc.len() as u32,
    ) + le_bytes(CHUNK_JSON) + jc + le_bytes(bc.len() as u32) + le_bytes(CHUNK_BIN) + bc
}

fn extend_bytes(out: &mut Vec<u8>, data: &[u8])
    ensures
        final(out)@ == old(out)@ + data@,
{
    let ghost start = out@;
    let mut i: usize = 0;
    while i < data.len()
        invariant
            i <= data@.len(),
            out@ == start + data@.take(i as int),
        decreases data@.len() - i,
    {
        out.push(data[i]);
        assert(out@ =~= start + data@.take(i + 1));
        i = i + 1;
    }
    assert(data@.take(data@.len() as int) =~= data@);
}

/// Wrap a serialized glTF document and its binary buffer into a GLB file.
pub fn frame_glb(json: Vec<u8>, bin: Vec<u8>) -> (out: Vec<u8>)
    requires
        json@.len() + bin@.len() + 34 <= usize::MAX,
    ensures
        out@ == glb_bytes(json@, bin@),
        out@.len() == glb_len(json@, bin@),
{
    let mut json_chunk = json;
    let mut bin = bin;
    align4(&mut json_chunk, 0x20);
    align4(&mut bin, 0);
    let total = 12 + 8 + json_chunk.len() + 8 + bin.len();
    let mut out: Vec<u8> = Vec::new();
    push_u32_le(&mut out, GLB_MAGIC);
    push_u32_le(&mut out, GLB_VERSION);
    push_u32_le(&mut out, total as u32);
    push_u32_le(&mut out, json_chunk.len() as u32);
    push_u32_le(&mut out, CHUNK_JSON);
    extend_bytes(&mut out, json_chunk.as_slice());
    push_u32_le(&mut out, bin.len() as u32);
    push_u32_le(&mut out, CHUNK_BIN);
    extend_bytes(&mut out, bin.as_slice());
    out
}

/// `a` is `v` followed by fewer than four copies of `pad`, and its length is
/// a multiple of four.
pub open spec fn is_padding_of(a: Seq<u8>, v: Seq<u8>, pad: u8) -> bool {
    &&& a.len() % 4 == 0
    &&& v.len() <= a.len()
    &&& a.len() < v.len() + 4
    &&& a.subrange(0, v.len() as int) == v
    &&& forall|i: int| v.len() <= i < a.len() ==> #[trigger] a[i] == pad
}

/// Padding to four bytes keeps the input bytes in front, appends fewer
/// than four padding bytes, lands on a multiple of four, and changes nothing
/// that is aligned already.
pub proof fn lemma_aligned4(v: Seq<u8>, pad: u8)
    ensures
        is_padding_of(aligned4(v, pad), v, pad),
        v.len() % 4 == 0 ==> aligned4(v, pad) == v,
{
    assert(aligned4(v, pad).subrange(0, v.len() as int) =~= v);
    if v.len() % 4 == 0 {
        assert(aligned4(v, pad) =~= v);
    }
}

/// The little-endian word stored at byte `at` of `b`.
pub open spec fn word_at(b: Seq<u8>, at: int) -> int {
    le_value(b.subrange(at, at + 4))
}

/// What a reader of a GLB file relies on: the header gives magic, version and
/// the file's own length; the JSON chunk header gives the chunk's length and
/// type and is followed by the chunk; the binary chunk header follows with
/// its length and type, and the binary chunk runs to the end of the file.
pub open spec fn self_describing(out: Seq<u8>, jc: Seq<u8>, bc: Seq<u8>) -> bool {
    let jl = jc.len() as int;
    &&& out.len() == 28 + jl + bc.len()
    &&& word_at(out, 0) == GLB_MAGIC
    &&& word_at(out, 4) == GLB_VERSION
    &&& word_at(out, 8) == out.len()
    &&& word_at(out, 12) == jl
    &&& word_at(out, 16) == CHUNK_JSON
    &&& out.subrange(20, 20 + jl) == jc
    &&& word_at(out, 20 + jl) == bc.len()
    &&& word_at(out, 24 + jl) == CHUNK_BIN
    &&& out.subrange(28 + jl, out.len() as int) == bc
}

proof fn lemma_word_in(out: Seq<u8>, at: int, w: u32)
    requires
        0 <= at,
        at + 4 <= out.len(),
        out.subrange(at, at + 4) == le_bytes(w),
    ensures
        word_at(out, at) == w,
{
    lemma_le_bytes_roundtrip(w);
}

/// A GLB file shorter than 4 GiB describes itself, and its chunks are the
/// JSON document padded with spaces and the binary buffer padded with zeros.
#[verifier::rlimit(40)]
pub proof fn lemma_glb_self_describing(json: Seq<u8>, bin: Seq<u8>)
    requires
        glb_len(json, bin) <= u32::MAX,
    ensures
        self_describing(glb_bytes(json, bin), json_chunk(json), bin_chunk(bin)),
        is_padding_of(json_chunk(json), json, 0x20),
        is_padding_of(bin_chunk(bin), bin, 0),
{
    let jc = json_chunk(json);
    let bc = bin_chunk(bin);
    let jl = jc.len() as int;
    let total = glb_len(json, bin);
    let out = glb_bytes(json, bin);
    assert(total as u32 == total);
    assert(jl as u32 == jl);
    assert(bc.len() as u32 == bc.len());
    let h0 = le_bytes(GLB_MAGIC);
    let h1 = le_bytes(GLB_VERSION);
    let h2 = le_bytes(total as u32);
    let h3 = le_bytes(jl as u32);
    let h4 = le_bytes(CHUNK_JSON);
    let h5 = le_bytes(bc.len() as u32);
    let h6 = le_bytes(CHUNK_BIN);
    assert(out == h0 + h1 + h2 + h3 + h4 + jc + h5 + h6 + bc);
    assert(out.len() == total);
    assert(out.subrange(0, 4) =~= h0);
    lemma_word_in(out, 0, GLB_MAGIC);
    assert(out.subrange(4, 8) =~= h1);
    lemma_word_in(out, 4, GLB_VERSION);
    assert(out.subrange(8, 12) =~= h2);
    lemma_word_in(out, 8, total as u32);
    assert(out.subrange(12, 16) =~= h3);
    lemma_word_in(out, 12, jl as u32);
    assert(out.subrange(16, 20) =~= h4);
    lemma_word_in(out, 16, CHUNK_JSON);
    assert(out.subrange(20, 20 + jl) =~= jc);
    assert(out.subrange(20 + jl, 24 + jl) =~= h5);
    lemma_word_in(out, 20 + jl, bc.len() as u32);
    assert(out.subrange(24 + jl, 28 + jl) =~= h6);
    lemma_word_in(out, 24 + jl, CHUNK_BIN);
    assert(out.subrange(28 + jl, out.len() as int) =~= bc);
    lemma_aligned4(json, 0x20);
    lemma_aligned4(bin, 0);
}


/// A consistent layout needs no padding when framed: the binary chunk of
/// the file is exactly the laid-out buffer, and every buffer view lies
/// inside it.
pub proof fn lemma_layout_frames_unpadded(bin: Seq<u8>, views: Seq<BufferView>)
    requires
        bin.len() % 4 == 0,
        views_tile(views, bin.len()),
    ensures
        bin_chunk(bin) == bin,
        forall|i: int|
            0 <= i < views.len() ==> #[trigger] views[i].byte_offset + views[i].byte_length
                <= bin.len(),
{
    lemma_aligned4(bin, 0);
    assert forall|i: int| 0 <= i < views.len() implies #[trigger] views[i].byte_offset
        + views[i].byte_length <= bin.len() by {
        lemma_views_end(views, bin.len(), i);
    }
}

proof fn lemma_views_end(views: Seq<BufferView>, len: nat, i: int)
    requires
        views_tile(views, len),
        0 <= i < views.len(),
    ensures
        views[i].byte_offset + views[i].byte_length <= len,
    decreases views.len() - i,
{
    if i < views.len() - 1 {
        lemma_views_end(views, len, i + 1);
        assert(views[i + 1].byte_offset == views[i].byte_offset + views[i].byte_length);
    }
}


/// The buffer, views, accessors and primitives after laying out the first
/// `m` meshes of `ms` one by one, empty meshes skipped.
pub open spec fn laid_out(ms: Seq<&Mesh>, m: nat) -> (
    Seq<u8>,
    Seq<BufferView>,
    Seq<Accessor>,
    Seq<Primitive>,
)
    decreases m,
{
    if m == 0 {
        (Seq::empty(), Seq::empty(), Seq::empty(), Seq::empty())
    } else {
        let prev = laid_out(ms, (m - 1) as nat);
        let mesh = *ms[m - 1];
        if mesh.vertex_count() == 0 {
            prev
        } else {
            (
                prev.0 + mesh_bytes(mesh),
                prev.1 + mesh_views(prev.0.len() as int, mesh),
                prev.2 + mesh_accessors(prev.1.len() as int, mesh),
                prev.3.push(
                    Primitive {
                        position: prev.2.len() as usize,
                        normal: (prev.2.len() + 1) as usize,
                        indices: (prev.2.len() + 2) as usize,
                    },
                ),
            )
        }
    }
}

/// Number of non-empty meshes among the first `m` of `ms`.
pub open spec fn laid_count(ms: Seq<&Mesh>, m: nat) -> nat
    decreases m,
{
    if m == 0 {
        0
    } else {
        laid_count(ms, (m - 1) as nat) + if ms[m - 1].vertex_count() == 0 {
            0nat
        } else {
            1nat
        }
    }
}

proof fn lemma_laid_out_grows(ms: Seq<&Mesh>, a: nat, b: nat)
    requires
        a <= b <= ms.len(),
        forall|i: int| 0 <= i < ms.len() ==> (#[trigger] ms[i]).wf(),
    ensures
        laid_out(ms, a).0.len() <= laid_out(ms, b).0.len(),
        b > a ==> laid_out(ms, (b - 1) as nat).0.len() + 4 * (ms[b - 1].positions().len()
            + ms[b - 1].normals().len() + ms[b - 1].indices().len()) == laid_out(ms, b).0.len(),
        laid_out(ms, b).3.len() == laid_count(ms, b),
    decreases b,
{
    if b > 0 {
        let mesh = *ms[b - 1];
        lemma_le_words_len(mesh.positions());
        lemma_le_words_len(mesh.normals());
        lemma_le_words_len(mesh.indices());
        if b > a {
            lemma_laid_out_grows(ms, a, (b - 1) as nat);
        } else {
            lemma_laid_out_grows(ms, (b - 1) as nat, (b - 1) as nat);
        }
    }
}

/// Lay out every mesh of `ms` in order, as `add_mesh` one after another
/// does: the binary chunk is the concatenation of the bytes of the
/// non-empty meshes. The slot of mesh `i` is `None` when it is empty and
/// otherwise the number of its primitive.
pub fn layout_meshes(ms: &[&Mesh]) -> (r: (GlbLayout, Vec<Option<usize>>))
    requires
        forall|i: int| 0 <= i < ms@.len() ==> (#[trigger] ms@[i]).wf(),
        laid_out(ms@, ms@.len()).0.len() + 3 <= usize::MAX,
    ensures
        r.0.wf(),
        (r.0.bin@, r.0.views@, r.0.accessors@, r.0.primitives@) == laid_out(ms@, ms@.len()),
        r.1@.len() == ms@.len(),
        forall|i: int|
            0 <= i < ms@.len() ==> #[trigger] r.1@[i] == if ms@[i].vertex_count() == 0 {
                None
            } else {
                Some(laid_count(ms@, i as nat) as usize)
            },
{
    let mut l = GlbLayout::new();
    let mut slots: Vec<Option<usize>> = Vec::new();
    let mut i: usize = 0;
    while i < ms.len()
        invariant
            i <= ms@.len(),
            forall|j: int| 0 <= j < ms@.len() ==> (#[trigger] ms@[j]).wf(),
            laid_out(ms@, ms@.len()).0.len() + 3 <= usize::MAX,
            l.wf(),
            (l.bin@, l.views@, l.accessors@, l.primitives@) == laid_out(ms@, i as nat),
            slots@.len() == i,
            forall|j: int|
                0 <= j < i ==> #[trigger] slots@[j] == if ms@[j].vertex_count() == 0 {
                    None
                } else {
                    Some(laid_count(ms@, j as nat) as usize)
                },
        decreases ms@.len() - i,
    {
        let mesh: &Mesh = ms[i];
        proof {
            lemma_laid_out_grows(ms@, (i + 1) as nat, ms@.len());
            lemma_laid_out_grows(ms@, i as nat, (i + 1) as nat);
            lemma_laid_out_grows(ms@, i as nat, i as nat);
        }
        let slot = l.add_mesh(mesh);
        slots.push(slot);
        i = i + 1;
    }
    (l, slots)
}


/// Word `i` of `s` is stored little-endian in bytes `4i .. 4i + 4`.
pub proof fn lemma_le_words_at(s: Seq<u32>, i: int)
    requires
        0 <= i < s.len(),
    ensures
        le_words(s).len() == 4 * s.len(),
        le_words(s)[4 * i] == (s[i] % 0x100) as u8,
        le_words(s)[4 * i + 1] == ((s[i] / 0x100) % 0x100) as u8,
        le_words(s)[4 * i + 2] == ((s[i] / 0x1_0000) % 0x100) as u8,
        le_words(s)[4 * i + 3] == ((s[i] / 0x100_0000) % 0x100) as u8,
    decreases s.len(),
{
    lemma_le_words_len(s);
    lemma_le_words_len(s.drop_last());
    if i < s.len() - 1 {
        lemma_le_words_at(s.drop_last(), i);
    }
}

/// The buffer views of a laid-out mesh point at its data: in the chunk that
/// results from appending the mesh, the position view holds exactly the
/// little-endian position words, the normal view the normal words and the
/// index view the index words; each view's accessor counts one element per
/// vertex.
pub proof fn lemma_mesh_views_hold_data(bin: Seq<u8>, m: Mesh)
    requires
        m.wf(),
        bin.len() + 4 * (m.positions().len() + m.normals().len() + m.indices().len()) <= usize::MAX,
    ensures
        ({
            let out = bin + mesh_bytes(m);
            let v = mesh_views(bin.len() as int, m);
            &&& out.subrange(v[0].byte_offset as int, v[0].byte_offset + v[0].byte_length)
                == le_words(m.positions())
            &&& out.subrange(v[1].byte_offset as int, v[1].byte_offset + v[1].byte_length)
                == le_words(m.normals())
            &&& out.subrange(v[2].byte_offset as int, v[2].byte_offset + v[2].byte_length)
                == le_words(m.indices())
            &&& v[0].byte_offset == bin.len()
            &&& v[2].byte_offset + v[2].byte_length == out.len()
        }),
        forall|a: int|
            0 <= a < 3 ==> #[trigger] mesh_accessors(0, m)[a].count == m.vertex_count(),
{
    lemma_le_words_len(m.positions());
    lemma_le_words_len(m.normals());
    lemma_le_words_len(m.indices());
    let out = bin + mesh_bytes(m);
    let p = le_words(m.positions());
    let n = le_words(m.normals());
    let i = le_words(m.indices());
    let b = bin.len() as int;
    assert(out.subrange(b, b + p.len()) =~= p);
    assert(out.subrange(b + p.len(), b + p.len() + n.len()) =~= n);
    assert(out.subrange(b + p.len() + n.len(), b + p.len() + n.len() + i.len()) =~= i);
}

} // verus!
