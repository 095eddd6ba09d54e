use mmm_core::packing::{pack_panels, unpack_panels, PackingFormat};
use mmm_core::storage::{OutputStoreSpec, TensorView};

#[test]
fn wrap_derives_panel_strides() {
    let view = TensorView { shape: vec![4, 4], strides: vec![4, 1], item_size: 1, len: 16 };
    let spec = OutputStoreSpec::View { axes: None, mr: 2, nr: 2 };
    let store = spec.wrap(&view);
    assert_eq!(store.row_byte_stride, 4);
    assert_eq!(store.col_byte_stride, 1);
    assert_eq!(store.row_item_stride, 4);
    assert_eq!(store.col_item_stride, 1);
    assert_eq!(store.panel_row_byte_stride, 8);
    assert_eq!(store.panel_col_byte_stride, 2);
    assert_eq!(store.item_size(), 1);
    assert_eq!(store.item_count, 16);
    assert_eq!(store.mr, 2);
}

#[test]
fn explicit_strides_pass_through() {
    let view = TensorView { shape: vec![4, 4], strides: vec![4, 1], item_size: 1, len: 16 };
    let spec = OutputStoreSpec::Strides {
        row_byte_stride: 4,
        row_item_stride: 4,
        col_byte_stride: 1,
        col_item_stride: 1,
        mr: 2,
        nr: 2,
    };
    let store = spec.wrap(&view);
    assert_eq!(store.panel_row_byte_stride, 8);
    assert_eq!(store.panel_col_byte_stride, 2);
}

#[test]
fn tile_at_is_offset_arithmetic() {
    let view = TensorView { shape: vec![4, 4], strides: vec![4, 1], item_size: 1, len: 16 };
    let spec = OutputStoreSpec::View { axes: None, mr: 2, nr: 2 };
    let store = spec.wrap(&view);
    let t = store.tile_c(1, 1);
    assert_eq!(t.offset, 10);
    assert_eq!(t.row_byte_stride, 4);
    assert_eq!(t.col_byte_stride, 1);
    assert_eq!(t.item_size, 1);
}

#[test]
fn full_tile_write_touches_only_its_panel() {
    let view = TensorView { shape: vec![4, 4], strides: vec![4, 1], item_size: 1, len: 16 };
    let spec = OutputStoreSpec::View { axes: None, mr: 2, nr: 2 };
    let store = spec.wrap(&view);
    let mut dst = vec![0u8; 16];
    let tile = vec![10u8, 11, 12, 13];
    store.set_from_tile(&mut dst, 1, 1, 2, 2, &tile);
    let expect = vec![
        0u8, 0, 0, 0, 0, 0, 0, 0, 0, 0, 10, 12, 0, 0, 11, 13,
    ];
    assert_eq!(dst, expect);
}

#[test]
fn boundary_tile_leaves_outside_bytes_untouched() {
    let view = TensorView { shape: vec![4, 4], strides: vec![4, 1], item_size: 1, len: 16 };
    let spec = OutputStoreSpec::View { axes: None, mr: 2, nr: 2 };
    let store = spec.wrap(&view);
    let mut dst = vec![7u8; 16];
    let tile = vec![10u8, 11, 12, 13];
    store.set_from_tile(&mut dst, 1, 1, 1, 1, &tile);
    let mut expect = vec![7u8; 16];
    expect[10] = 10;
    assert_eq!(dst, expect);
}

#[test]
fn four_byte_elements_copy_whole_words() {
    let view = TensorView { shape: vec![2, 2], strides: vec![2, 1], item_size: 4, len: 4 };
    let spec = OutputStoreSpec::View { axes: None, mr: 1, nr: 1 };
    let store = spec.wrap(&view);
    assert_eq!(store.row_byte_stride, 8);
    let mut dst = vec![0u8; 16];
    let tile = vec![1u8, 2, 3, 4];
    store.set_from_tile(&mut dst, 1, 0, 1, 1, &tile);
    let expect = vec![0u8, 0, 0, 0, 0, 0, 0, 0, 1, 2, 3, 4, 0, 0, 0, 0];
    assert_eq!(dst, expect);
}

#[test]
fn pack_len_counts_whole_panels() {
    let fmt = PackingFormat { panel_rows: 2, alignment: 32 };
    assert_eq!(fmt.len(2, 3), 8);
    assert_eq!(fmt.len(4, 4), 16);
    assert_eq!(fmt.len(0, 5), 0);
}

#[test]
fn packing_layout_is_column_major_with_padding() {
    let m = vec![1u8, 2, 3, 4, 5, 6];
    let packed = pack_panels(&m, 3, 2, 2);
    assert_eq!(packed, vec![1u8, 3, 2, 4, 5, 0, 6, 0]);
}

#[test]
fn pack_then_identity_store_round_trips() {
    let m = vec![9u8, 8, 7, 6, 5, 4, 3, 2, 1, 10, 11, 12];
    let rows = 4;
    let k = 3;
    let r = 3;
    let packed = pack_panels(&m, rows, k, r);
    let back = unpack_panels(&packed, rows, k, r);
    assert_eq!(back, m);
}

#[test]
fn round_trip_on_exact_panel_multiple() {
    let m: Vec<u8> = (0u8..32).collect();
    let packed = pack_panels(&m, 8, 4, 4);
    let back = unpack_panels(&packed, 8, 4, 4);
    assert_eq!(back, m);
}

#[test]
fn explicit_axes_can_transpose_the_view() {
    let view = TensorView { shape: vec![4, 4], strides: vec![4, 1], item_size: 1, len: 16 };
    let spec = OutputStoreSpec::View { axes: Some((1, 0)), mr: 2, nr: 2 };
    let store = spec.wrap(&view);
    assert_eq!(store.row_byte_stride, 1);
    assert_eq!(store.col_byte_stride, 4);
}

#[test]
fn default_axes_are_the_last_two() {
    let view = TensorView { shape: vec![2, 4, 4], strides: vec![16, 4, 1], item_size: 1, len: 32 };
    let spec = OutputStoreSpec::View { axes: None, mr: 2, nr: 2 };
    let store = spec.wrap(&view);
    assert_eq!(store.row_byte_stride, 4);
    assert_eq!(store.col_byte_stride, 1);
}
