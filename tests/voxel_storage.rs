use husky_voxel::brick::{Brick, BRICK_VOLUME};
use husky_voxel::error::{ModelLoadError, VoxelError};
use husky_voxel::model::{Model, Modifyable, VoxModel};
use husky_voxel::render::{dispatch_size, VoxelInterface};
use husky_voxel::scene::Scene;
use husky_voxel::vox::{check_chunks_flat, DecodedModel};
use husky_voxel::voxel::Voxel;

fn chunk(id: &[u8], content: &[u8], children: &[u8]) -> Vec<u8> {
    let mut out = Vec::new();
    out.extend_from_slice(id);
    out.extend_from_slice(&(content.len() as u32).to_le_bytes());
    out.extend_from_slice(&(children.len() as u32).to_le_bytes());
    out.extend_from_slice(content);
    out.extend_from_slice(children);
    out
}

/// A MagicaVoxel file with one model; voxel indices are stored one above
/// the in-memory palette index, as the format does.
fn vox_file(size: (u32, u32, u32), voxels: &[(u8, u8, u8, u8)]) -> Vec<u8> {
    let mut size_content = Vec::new();
    size_content.extend_from_slice(&size.0.to_le_bytes());
    size_content.extend_from_slice(&size.1.to_le_bytes());
    size_content.extend_from_slice(&size.2.to_le_bytes());
    let mut xyzi = Vec::new();
    xyzi.extend_from_slice(&(voxels.len() as u32).to_le_bytes());
    for v in voxels {
        xyzi.extend_from_slice(&[v.0, v.1, v.2, v.3 + 1]);
    }
    let mut children = chunk(b"SIZE", &size_content, &[]);
    children.extend(chunk(b"XYZI", &xyzi, &[]));
    let mut out = b"VOX ".to_vec();
    out.extend_from_slice(&150u32.to_le_bytes());
    out.extend(chunk(b"MAIN", &[], &children));
    out
}

#[test]
fn voxel_round_trip_masks_each_channel() {
    let v = Voxel::new(0b1010_0101, 0b1100_1011, 0b0111_1110, 200, 17);
    assert_eq!(v.unpack(), (0b0_0101, 0b00_1011, 0b1_1110, 200, 17));
    let w = Voxel::new(3, 40, 12, 0, 255);
    assert_eq!(w.unpack(), (3, 40, 12, 0, 255));
}

#[test]
fn voxel_packs_at_fixed_offsets() {
    assert_eq!(Voxel::new(1, 0, 0, 0, 0).bits(), 1);
    assert_eq!(Voxel::new(0, 1, 0, 0, 0).bits(), 1 << 5);
    assert_eq!(Voxel::new(0, 0, 1, 0, 0).bits(), 1 << 11);
    assert_eq!(Voxel::new(0, 0, 0, 1, 0).bits(), 1 << 16);
    assert_eq!(Voxel::new(0, 0, 0, 0, 1).bits(), 1 << 24);
    assert_eq!(Voxel::empty().bits(), 0x00ff_ffff);
    assert_eq!(Voxel::new(255, 255, 255, 255, 255).bits(), 0xffff_ffff);
}

#[test]
fn empty_brick_is_filled_with_the_empty_voxel() {
    let b = Brick::empty(1, 2, 3);
    assert_eq!(b.pos, (1, 2, 3));
    assert_eq!(b.data.len(), BRICK_VOLUME);
    assert!(b.data.iter().all(|v| *v == Voxel::empty()));
    assert!(b.is_dirty());
}

#[test]
fn brick_write_then_read() {
    let mut b = Brick::empty(0, 0, 0);
    let v = Voxel::new(1, 2, 3, 4, 5);
    assert_eq!(b.set(63, 0, 17, v), Ok(()));
    assert_eq!(b.get(63, 0, 17), Ok(v));
    assert_eq!(b.data[63 + 17 * 4096], v);
    assert_eq!(b.get(62, 0, 17), Ok(Voxel::empty()));
    assert_eq!(b.get(0, 1, 17), Ok(Voxel::empty()));
}

#[test]
fn brick_out_of_bounds_is_refused() {
    let mut b = Brick::empty(0, 0, 0);
    b.dirty = false;
    assert_eq!(b.get(64, 0, 0), Err(VoxelError::OutOfBounds));
    assert_eq!(b.get(0, 0, u64::MAX), Err(VoxelError::OutOfBounds));
    assert_eq!(b.set(0, 64, 0, Voxel::new(1, 1, 1, 1, 1)), Err(VoxelError::OutOfBounds));
    assert!(!b.is_dirty());
    assert!(b.data.iter().all(|v| *v == Voxel::empty()));
}

#[test]
fn model_set_voxel_finds_the_brick() {
    let mut bricks = vec![Brick::empty(0, 0, 0), Brick::empty(1, 0, 2)];
    for b in bricks.iter_mut() {
        b.dirty = false;
    }
    let mut m = VoxModel::from_bricks(bricks);
    let v = Voxel::new(9, 9, 9, 9, 9);
    assert_eq!(m.set_voxel(65, 3, 130, v), Ok(()));
    assert_eq!(m.get_bricks()[1].get(1, 3, 2), Ok(v));
    assert!(m.get_bricks()[1].is_dirty());
    assert!(!m.get_bricks()[0].is_dirty());
    assert_eq!(m.set_voxel(64, 64, 64, v), Err(VoxelError::OutOfBounds));
    assert!(!m.get_bricks()[0].is_dirty());
}

#[test]
fn loads_two_by_two_by_two_fixture() {
    let voxels = [
        (0, 0, 0, 0),
        (1, 0, 0, 0),
        (0, 1, 0, 0),
        (1, 1, 0, 0),
        (0, 0, 1, 0),
        (1, 0, 1, 0),
        (0, 1, 1, 0),
        (1, 1, 1, 0),
    ];
    let bytes = vox_file((2, 2, 2), &voxels);
    let m = VoxModel::from_bytes(&bytes).expect("fixture loads");
    assert_eq!(m.get_bricks().len(), 1);
    assert_eq!(m.get_bricks()[0].pos, (0, 0, 0));
    for x in 0..2u64 {
        for y in 0..2u64 {
            for z in 0..2u64 {
                let v = m.get_bricks()[0].get(x, y, z).unwrap();
                assert_ne!(v, Voxel::empty());
                assert_eq!(v.unpack().3, 0);
            }
        }
    }
    assert_eq!(m.get_bricks()[0].get(2, 0, 0), Ok(Voxel::empty()));
}

#[test]
fn load_covers_bounding_box_with_bricks() {
    let bytes = vox_file((65, 1, 130), &[(64, 0, 129, 3)]);
    let m = VoxModel::from_bytes(&bytes).unwrap();
    let positions: Vec<(u16, u16, u16)> = m.get_bricks().iter().map(|b| b.pos).collect();
    assert_eq!(
        positions,
        vec![(0, 0, 0), (0, 0, 1), (0, 0, 2), (1, 0, 0), (1, 0, 1), (1, 0, 2)]
    );
    assert_ne!(m.get_bricks()[5].get(0, 0, 1), Ok(Voxel::empty()));
}

#[test]
fn load_rejects_bytes_that_are_no_voxel_file() {
    assert!(matches!(
        VoxModel::from_bytes(b"not a voxel file"),
        Err(VoxelError::ModelLoad(ModelLoadError::ParseError))
    ));
    assert!(matches!(
        VoxModel::from_bytes(&[]),
        Err(VoxelError::ModelLoad(ModelLoadError::ParseError))
    ));
}

#[test]
fn load_rejects_voxel_outside_model() {
    let models = vec![DecodedModel { size: (2, 2, 2), voxels: vec![(0, 0, 0, 0), (2, 0, 0, 0)] }];
    let palette = vec![(10, 20, 30, 255)];
    assert!(matches!(
        VoxModel::from_decoded(&models, &palette),
        Err(VoxelError::ModelLoad(ModelLoadError::ParseError))
    ));
    let bad_index = vec![DecodedModel { size: (2, 2, 2), voxels: vec![(0, 0, 0, 1)] }];
    assert!(matches!(
        VoxModel::from_decoded(&bad_index, &palette),
        Err(VoxelError::ModelLoad(ModelLoadError::ParseError))
    ));
    let too_wide = vec![DecodedModel { size: (257, 1, 1), voxels: vec![] }];
    assert!(matches!(
        VoxModel::from_decoded(&too_wide, &palette),
        Err(VoxelError::ModelLoad(ModelLoadError::ParseError))
    ));
}

#[test]
fn decoded_voxel_takes_palette_colour() {
    let models = vec![DecodedModel { size: (1, 1, 1), voxels: vec![(0, 0, 0, 1)] }];
    let palette = vec![(0, 0, 0, 255), (255, 128, 64, 255)];
    let m = VoxModel::from_decoded(&models, &palette).unwrap();
    assert_eq!(m.get_bricks()[0].get(0, 0, 0), Ok(Voxel::new(255, 128, 64, 0, 0)));
}

#[test]
fn empty_decoded_content_gives_no_bricks() {
    let m = VoxModel::from_decoded(&vec![], &vec![]).unwrap();
    assert_eq!(m.get_bricks().len(), 0);
}

#[test]
fn scene_references_survive_other_removals() {
    let mut scene = VoxelInterface::new().new_scene();
    let refs: Vec<_> = (0..5u16)
        .map(|i| scene.add_model(Model::Editable(VoxModel::from_bricks(vec![Brick::empty(i, 0, 0)]))))
        .collect();
    assert_eq!(scene.remove_model(&refs[2]), Ok(()));
    for (i, r) in refs.iter().enumerate() {
        if i == 2 {
            assert!(!scene.is_live(r));
        } else {
            assert!(scene.is_live(r));
            assert_eq!(scene.get_bricks(r).unwrap()[0].pos, (i as u16, 0, 0));
        }
    }
    let later = scene.add_model(Model::Static(VoxModel::from_bricks(vec![])));
    assert_eq!(later.index(), 5);
    assert!(!scene.is_live(&refs[2]));
}

#[test]
fn removed_reference_is_invalid_everywhere() {
    let mut scene = Scene::new();
    let r = scene.add_model(Model::Editable(VoxModel::from_bricks(vec![Brick::empty(0, 0, 0)])));
    assert_eq!(scene.remove_model(&r), Ok(()));
    assert_eq!(scene.remove_model(&r), Err(VoxelError::InvalidReference));
    assert!(matches!(scene.get_model(&r), Err(VoxelError::InvalidReference)));
    assert!(matches!(scene.get_bricks(&r), Err(VoxelError::InvalidReference)));
    assert_eq!(
        scene.set_voxel(&r, 0, 0, 0, Voxel::new(1, 2, 3, 4, 5)),
        Err(VoxelError::InvalidReference)
    );
}

#[test]
fn scene_set_voxel_errors() {
    let mut scene = Scene::new();
    let fixed = scene.add_model(Model::Static(VoxModel::from_bricks(vec![Brick::empty(0, 0, 0)])));
    let open = scene.add_model(Model::Editable(VoxModel::from_bricks(vec![Brick::empty(0, 0, 0)])));
    let v = Voxel::new(1, 2, 3, 4, 5);
    assert_eq!(scene.set_voxel(&fixed, 0, 0, 0, v), Err(VoxelError::NotModifiable));
    assert_eq!(scene.set_voxel(&open, 0, 0, 64, v), Err(VoxelError::OutOfBounds));
    assert_eq!(scene.set_voxel(&open, 5, 6, 7, v), Ok(()));
    assert_eq!(scene.get_bricks(&open).unwrap()[0].get(5, 6, 7), Ok(v));
    assert_eq!(scene.get_bricks(&fixed).unwrap()[0].get(0, 0, 0), Ok(Voxel::empty()));
}

#[test]
fn dispatch_covers_viewport_with_tiles() {
    assert_eq!(dispatch_size(1280, 704), Ok((40, 22, 1)));
    assert_eq!(dispatch_size(32, 32), Ok((1, 1, 1)));
    assert_eq!(dispatch_size(0, 0), Ok((0, 0, 1)));
    assert_eq!(dispatch_size(1280, 720), Err(VoxelError::DispatchError));
    assert_eq!(dispatch_size(33, 64), Err(VoxelError::DispatchError));
}

#[test]
fn scene_reads_back_written_voxel() {
    let mut scene = Scene::new();
    let r = scene.add_model(Model::Editable(VoxModel::from_bricks(vec![
        Brick::empty(0, 0, 0),
        Brick::empty(0, 1, 0),
    ])));
    let v = Voxel::new(4, 8, 16, 32, 64);
    assert_eq!(scene.get_voxel(&r, 3, 70, 5), Ok(Voxel::empty()));
    assert_eq!(scene.set_voxel(&r, 3, 70, 5, v), Ok(()));
    assert_eq!(scene.get_voxel(&r, 3, 70, 5), Ok(v));
    assert_eq!(scene.get_voxel(&r, 3, 6, 5), Ok(Voxel::empty()));
    assert_eq!(scene.get_voxel(&r, 3, 200, 5), Err(VoxelError::OutOfBounds));
    assert_eq!(scene.remove_model(&r), Ok(()));
    assert_eq!(scene.get_voxel(&r, 3, 70, 5), Err(VoxelError::InvalidReference));
}

fn edit<M: Modifyable>(m: &mut M) -> Result<Voxel, VoxelError> {
    m.set_voxel(1, 2, 3, Voxel::new(7, 7, 7, 7, 7))?;
    m.get_voxel(1, 2, 3)
}

#[test]
fn modifyable_model_reads_and_writes() {
    let mut m = VoxModel::from_bricks(vec![Brick::empty(0, 0, 0)]);
    assert_eq!(edit(&mut m), Ok(Voxel::new(7, 7, 7, 7, 7)));
    let mut outside = VoxModel::from_bricks(vec![Brick::empty(5, 5, 5)]);
    assert_eq!(edit(&mut outside), Err(VoxelError::OutOfBounds));
}

#[test]
fn set_voxel_at_finds_the_owning_model() {
    let mut scene = Scene::new();
    let fixed = scene.add_model(Model::Static(VoxModel::from_bricks(vec![Brick::empty(0, 0, 0)])));
    let open = scene.add_model(Model::Editable(VoxModel::from_bricks(vec![Brick::empty(1, 0, 0)])));
    let v = Voxel::new(1, 2, 3, 4, 5);
    assert_eq!(scene.set_voxel_at(70, 1, 2, v), Ok(()));
    assert_eq!(scene.get_voxel(&open, 70, 1, 2), Ok(v));
    assert_eq!(scene.set_voxel_at(3, 1, 2, v), Err(VoxelError::NotModifiable));
    assert_eq!(scene.get_voxel(&fixed, 3, 1, 2), Ok(Voxel::empty()));
    assert_eq!(scene.set_voxel_at(200, 1, 2, v), Err(VoxelError::OutOfBounds));
    assert_eq!(scene.remove_model(&fixed), Ok(()));
    assert_eq!(scene.set_voxel_at(3, 1, 2, v), Err(VoxelError::OutOfBounds));
}

#[test]
fn fixture_chunks_are_flat() {
    assert!(check_chunks_flat(&vox_file((2, 2, 2), &[(0, 0, 0, 0)])));
    assert!(check_chunks_flat(b"VOX "));
}

#[test]
fn nested_child_chunk_is_refused() {
    let inner = chunk(b"SIZE", &[0; 12], &[]);
    let nested = chunk(b"nGRP", &[], &inner);
    let mut out = b"VOX ".to_vec();
    out.extend_from_slice(&150u32.to_le_bytes());
    out.extend(chunk(b"MAIN", &[], &nested));
    assert!(!check_chunks_flat(&out));
    assert!(matches!(
        VoxModel::from_bytes(&out),
        Err(VoxelError::ModelLoad(ModelLoadError::ParseError))
    ));
}

#[test]
fn deeply_nested_chunks_are_refused_without_decoding() {
    let levels: u32 = 200_000;
    let mut out = b"VOX ".to_vec();
    out.extend_from_slice(&150u32.to_le_bytes());
    for level in 0..levels {
        out.extend_from_slice(b"MAIN");
        out.extend_from_slice(&0u32.to_le_bytes());
        out.extend_from_slice(&(12 * (levels - level - 1)).to_le_bytes());
    }
    assert!(matches!(
        VoxModel::from_bytes(&out),
        Err(VoxelError::ModelLoad(ModelLoadError::ParseError))
    ));
}
