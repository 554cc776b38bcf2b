use sg_wasm::glb::{
    align4, frame_glb, push_u32_le, Accessor, AccessorKind, BufferView, GlbLayout, Primitive,
    ARRAY_BUFFER, COMPONENT_FLOAT, COMPONENT_UNSIGNED_INT, ELEMENT_ARRAY_BUFFER,
};
use sg_wasm::mesh::Mesh;

fn one_triangle() -> Mesh {
    let mut m = Mesh::new();
    m.push_triangle([1, 2, 3], [4, 5, 6], [7, 8, 9], [0, 0, 0x3f80_0000]);
    m
}

#[test]
fn align4_pads_to_multiple_of_four() {
    let mut v = vec![1u8, 2, 3, 4, 5];
    align4(&mut v, 9);
    assert_eq!(v, vec![1, 2, 3, 4, 5, 9, 9, 9]);
}

#[test]
fn align4_leaves_aligned_buffer() {
    let mut v = vec![1u8, 2, 3, 4];
    align4(&mut v, 9);
    assert_eq!(v, vec![1, 2, 3, 4]);
    let mut e: Vec<u8> = Vec::new();
    align4(&mut e, 0x20);
    assert!(e.is_empty());
}

#[test]
fn push_u32_le_is_little_endian() {
    let mut v = vec![0xAAu8];
    push_u32_le(&mut v, 0x0102_0304);
    assert_eq!(v, vec![0xAA, 4, 3, 2, 1]);
}

#[test]
fn frame_minimal_document() {
    let out = frame_glb(b"{}".to_vec(), Vec::new());
    let expected: Vec<u8> = vec![
        0x67, 0x6C, 0x54, 0x46, 2, 0, 0, 0, 32, 0, 0, 0, // header
        4, 0, 0, 0, 0x4A, 0x53, 0x4F, 0x4E, b'{', b'}', b' ', b' ', // JSON chunk
        0, 0, 0, 0, 0x42, 0x49, 0x4E, 0, // empty BIN chunk
    ];
    assert_eq!(out, expected);
}

#[test]
fn frame_declares_its_length_and_pads_bin_with_zeros() {
    let json = b"{\"a\":1}".to_vec(); // 7 bytes -> 8
    let bin = vec![1u8, 2, 3, 4, 5]; // 5 bytes -> 8
    let out = frame_glb(json, bin);
    assert_eq!(out.len(), 12 + 8 + 8 + 8 + 8);
    assert_eq!(u32::from_le_bytes([out[8], out[9], out[10], out[11]]) as usize, out.len());
    assert_eq!(u32::from_le_bytes([out[12], out[13], out[14], out[15]]), 8);
    assert_eq!(&out[20..28], b"{\"a\":1} ");
    assert_eq!(u32::from_le_bytes([out[28], out[29], out[30], out[31]]), 8);
    assert_eq!(&out[36..44], &[1, 2, 3, 4, 5, 0, 0, 0]);
}

#[test]
fn layout_skips_empty_mesh() {
    let mut l = GlbLayout::new();
    assert_eq!(l.add_mesh(&Mesh::new()), None);
    assert!(l.bin.is_empty());
    assert!(l.views.is_empty());
    assert!(l.accessors.is_empty());
    assert!(l.primitives.is_empty());
}

#[test]
fn layout_of_one_triangle() {
    let mut l = GlbLayout::new();
    let m = one_triangle();
    assert_eq!(l.add_mesh(&m), Some(0));
    assert_eq!(l.bin.len(), 84);
    assert_eq!(&l.bin[0..8], &[1, 0, 0, 0, 2, 0, 0, 0]);
    // normals start at 36; the third normal word of the first vertex is 1.0f32
    assert_eq!(&l.bin[44..48], &[0x00, 0x00, 0x80, 0x3f]);
    // indices 0, 1, 2
    assert_eq!(&l.bin[72..84], &[0, 0, 0, 0, 1, 0, 0, 0, 2, 0, 0, 0]);
    assert_eq!(
        l.views,
        vec![
            BufferView { byte_offset: 0, byte_length: 36, target: ARRAY_BUFFER },
            BufferView { byte_offset: 36, byte_length: 36, target: ARRAY_BUFFER },
            BufferView { byte_offset: 72, byte_length: 12, target: ELEMENT_ARRAY_BUFFER },
        ]
    );
    assert_eq!(
        l.accessors,
        vec![
            Accessor { buffer_view: 0, component_type: COMPONENT_FLOAT, count: 3, kind: AccessorKind::Vec3 },
            Accessor { buffer_view: 1, component_type: COMPONENT_FLOAT, count: 3, kind: AccessorKind::Vec3 },
            Accessor { buffer_view: 2, component_type: COMPONENT_UNSIGNED_INT, count: 3, kind: AccessorKind::Scalar },
        ]
    );
    assert_eq!(l.primitives, vec![Primitive { position: 0, normal: 1, indices: 2 }]);
}

#[test]
fn layout_second_mesh_follows_first() {
    let mut l = GlbLayout::new();
    let m = one_triangle();
    assert_eq!(l.add_mesh(&m), Some(0));
    assert_eq!(l.add_mesh(&Mesh::new()), None);
    assert_eq!(l.add_mesh(&m), Some(1));
    assert_eq!(l.bin.len(), 168);
    assert_eq!(l.views[3], BufferView { byte_offset: 84, byte_length: 36, target: ARRAY_BUFFER });
    assert_eq!(l.views[5].byte_offset + l.views[5].byte_length, l.bin.len());
    assert_eq!(l.accessors[4].buffer_view, 4);
    assert_eq!(l.primitives[1], Primitive { position: 3, normal: 4, indices: 5 });
}

#[test]
fn framed_layout_carries_bin_unpadded() {
    let mut l = GlbLayout::new();
    l.add_mesh(&one_triangle());
    let bin = l.bin.clone();
    let out = frame_glb(b"{}".to_vec(), l.bin);
    assert_eq!(out.len(), 28 + 4 + 84);
    assert_eq!(u32::from_le_bytes([out[24], out[25], out[26], out[27]]), 84);
    assert_eq!(&out[32..], &bin[..]);
}

#[test]
fn layout_meshes_concatenates_non_empty() {
    let m = one_triangle();
    let e = Mesh::new();
    let (l, slots) = sg_wasm::glb::layout_meshes(&[&e, &m, &e, &m]);
    assert_eq!(slots, vec![None, Some(0), None, Some(1)]);
    let mut one = GlbLayout::new();
    one.add_mesh(&m);
    let mut twice = one.bin.clone();
    twice.extend_from_slice(&one.bin);
    assert_eq!(l.bin, twice);
    assert_eq!(l.views.len(), 6);
    assert_eq!(l.primitives, vec![
        Primitive { position: 0, normal: 1, indices: 2 },
        Primitive { position: 3, normal: 4, indices: 5 },
    ]);
    let (empty, none) = sg_wasm::glb::layout_meshes(&[]);
    assert!(empty.bin.is_empty() && none.is_empty());
}
