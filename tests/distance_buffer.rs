use husky_voxel::brick::Brick;
use husky_voxel::builder::{SdfBuilder, MAX_BUFFER_BYTES};
use husky_voxel::error::VoxelError;
use husky_voxel::model::{Model, VoxModel};
use husky_voxel::scene::Scene;
use husky_voxel::sdf::{node_bits, root_bits, EMPTY_DISTANCE, RECORD_WORDS, SOLID_DISTANCE};
use husky_voxel::voxel::Voxel;

fn fixture_model() -> Model {
    let mut voxels = Vec::new();
    for x in 0..2u8 {
        for y in 0..2u8 {
            for z in 0..2u8 {
                voxels.push((x, y, z, 0u8));
            }
        }
    }
    let models = vec![husky_voxel::vox::DecodedModel { size: (2, 2, 2), voxels }];
    Model::Static(VoxModel::from_decoded(&models, &vec![(200, 100, 50, 255)]).unwrap())
}

fn bytes_for_records(n: usize) -> u64 {
    (4 * (2 + n * RECORD_WORDS)) as u64
}

#[test]
fn node_bits_tags_children_and_leaves() {
    assert_eq!(node_bits(Some(1), 0), 3);
    assert_eq!(node_bits(Some(5), 0xdead), 11);
    assert_eq!(node_bits(None, 0x3f80_0000), 0x7f00_0000);
    assert_eq!(root_bits(0), 0x8f00_0000);
    assert_eq!(root_bits(7), 3);
}

#[test]
fn builder_caps_buffer_size() {
    let b = SdfBuilder::new(u64::MAX).unwrap();
    assert_eq!(b.max_words, (MAX_BUFFER_BYTES / 4) as usize);
    let small = SdfBuilder::new(128 * 1024 * 1024).unwrap();
    assert_eq!(small.max_words, 32 * 1024 * 1024);
    assert!(matches!(SdfBuilder::new(7), Err(VoxelError::CapacityExceeded)));
    assert!(SdfBuilder::new(8).is_ok());
}

#[test]
fn empty_scene_renders_background() {
    let mut scene = Scene::new();
    let mut b = SdfBuilder::new(MAX_BUFFER_BYTES).unwrap();
    let ups = b.sync(&mut scene).unwrap();
    assert_eq!(ups.len(), 0);
    assert_eq!(b.words().clone(), vec![0x8f00_0000, 0]);
    assert_eq!(b.words()[0] & 1, 0);
    assert_eq!(b.words()[0] >> 1, 0x4780_0000);
}

#[test]
fn fixture_model_gives_child_root() {
    let mut scene = Scene::new();
    let r = scene.add_model(fixture_model());
    let mut b = SdfBuilder::new(MAX_BUFFER_BYTES).unwrap();
    let ups = b.sync(&mut scene).unwrap();
    let w = b.words();
    assert_eq!(w[0] & 1, 1);
    assert_eq!(w[0] >> 1, 1);
    assert_eq!(w[1], 1);
    assert_eq!(w.len(), 2 + RECORD_WORDS);
    assert_eq!(w[2], 0);
    assert_eq!(w[3], 0);
    assert_eq!(w[4], SOLID_DISTANCE);
    assert_eq!(w[4 + 1 + 64 + 4096], SOLID_DISTANCE);
    assert_eq!(w[4 + 2], EMPTY_DISTANCE);
    assert_eq!(ups.len(), 2);
    assert_eq!(ups[0].offset, 2);
    assert_eq!(ups[0].words.len(), RECORD_WORDS);
    assert_eq!(ups[1].offset, 0);
    assert_eq!(ups[1].words, vec![3, 1]);
    assert!(!scene.get_bricks(&r).unwrap()[0].is_dirty());
}

#[test]
fn only_dirty_brick_is_uploaded() {
    let mut scene = Scene::new();
    let bricks: Vec<Brick> = (0..32u16).map(|i| Brick::empty(i % 4, i / 4, 0)).collect();
    let r = scene.add_model(Model::Editable(VoxModel::from_bricks(bricks)));
    let mut b = SdfBuilder::new(MAX_BUFFER_BYTES).unwrap();
    assert_eq!(b.sync(&mut scene).unwrap().len(), 33);
    assert_eq!(b.sync(&mut scene).unwrap().len(), 0);
    let v = Voxel::new(1, 2, 3, 4, 5);
    // brick (2, 1, 0) is brick 6 of the model
    assert_eq!(scene.set_voxel(&r, 2 * 64 + 10, 64 + 1, 0, v), Ok(()));
    let ups = b.sync(&mut scene).unwrap();
    assert_eq!(ups.len(), 1);
    assert_eq!(ups[0].offset, 2 + 6 * RECORD_WORDS);
    assert_eq!(ups[0].words[0], 2 + 65536);
    assert_eq!(ups[0].words[2 + 10 + 64], SOLID_DISTANCE);
    assert_eq!(ups[0].words[2 + 11 + 64], EMPTY_DISTANCE);
    assert_eq!(&b.words()[2 + 6 * RECORD_WORDS..2 + 7 * RECORD_WORDS], &ups[0].words[..]);
    assert_eq!(b.sync(&mut scene).unwrap().len(), 0);
}

#[test]
fn removed_model_record_is_cleared_once() {
    let mut scene = Scene::new();
    let keep = scene.add_model(fixture_model());
    let gone = scene.add_model(fixture_model());
    let mut b = SdfBuilder::new(MAX_BUFFER_BYTES).unwrap();
    assert_eq!(b.sync(&mut scene).unwrap().len(), 3);
    assert_eq!(scene.remove_model(&gone), Ok(()));
    let ups = b.sync(&mut scene).unwrap();
    assert_eq!(ups.len(), 1);
    assert_eq!(ups[0].offset, 2 + RECORD_WORDS);
    assert_eq!(ups[0].words[0], 0);
    assert!(ups[0].words[2..].iter().all(|w| *w == EMPTY_DISTANCE));
    assert_eq!(b.words()[4], SOLID_DISTANCE);
    assert_eq!(b.sync(&mut scene).unwrap().len(), 0);
    assert!(scene.is_live(&keep));
}

#[test]
fn capacity_exceeded_leaves_buffer_unchanged() {
    let mut scene = Scene::new();
    scene.add_model(fixture_model());
    let mut b = SdfBuilder::new(bytes_for_records(1)).unwrap();
    assert_eq!(b.sync(&mut scene).unwrap().len(), 2);
    let before = b.words().clone();
    let r = scene.add_model(fixture_model());
    assert!(matches!(b.sync(&mut scene), Err(VoxelError::CapacityExceeded)));
    assert_eq!(b.words(), &before);
    assert_eq!(b.keys.len(), 1);
    assert!(scene.get_bricks(&r).unwrap()[0].is_dirty());
    assert_eq!(scene.remove_model(&r), Ok(()));
    assert_eq!(b.sync(&mut scene).unwrap().len(), 0);
}

#[test]
fn header_alone_does_not_fit() {
    let mut scene = Scene::new();
    scene.add_model(fixture_model());
    let mut b = SdfBuilder::new(8).unwrap();
    assert!(matches!(b.sync(&mut scene), Err(VoxelError::CapacityExceeded)));
    assert_eq!(b.words().clone(), vec![0x8f00_0000, 0]);
}

#[test]
fn removed_model_frees_its_record() {
    let mut scene = Scene::new();
    let first = scene.add_model(fixture_model());
    let mut b = SdfBuilder::new(bytes_for_records(1)).unwrap();
    assert_eq!(b.sync(&mut scene).unwrap().len(), 2);
    assert_eq!(scene.remove_model(&first), Ok(()));
    let second = scene.add_model(Model::Static(VoxModel::from_bricks(vec![Brick::empty(3, 4, 5)])));
    let ups = b.sync(&mut scene).unwrap();
    assert_eq!(ups.len(), 1);
    assert_eq!(ups[0].offset, 2);
    assert_eq!(ups[0].words[0], 3 + 4 * 65536);
    assert_eq!(ups[0].words[1], 5);
    assert!(ups[0].words[2..].iter().all(|w| *w == EMPTY_DISTANCE));
    assert_eq!(b.words().len(), 2 + RECORD_WORDS);
    assert_eq!(b.keys.len(), 1);
    assert_eq!(b.keys[0].model, second.index());
    assert!(b.keys[0].live);
    let third = scene.add_model(fixture_model());
    assert!(matches!(b.sync(&mut scene), Err(VoxelError::CapacityExceeded)));
    assert!(scene.get_bricks(&third).unwrap()[0].is_dirty());
}

#[test]
fn freed_records_are_reused_before_appending() {
    let mut scene = Scene::new();
    let a = scene.add_model(fixture_model());
    let _b = scene.add_model(fixture_model());
    let mut builder = SdfBuilder::new(MAX_BUFFER_BYTES).unwrap();
    assert_eq!(builder.sync(&mut scene).unwrap().len(), 3);
    assert_eq!(scene.remove_model(&a), Ok(()));
    let bricks: Vec<Brick> = (0..3u16).map(|i| Brick::empty(i, 0, 0)).collect();
    scene.add_model(Model::Static(VoxModel::from_bricks(bricks)));
    let ups = builder.sync(&mut scene).unwrap();
    let mut offsets: Vec<usize> = ups.iter().map(|u| u.offset).collect();
    offsets.sort();
    assert_eq!(offsets, vec![0, 2, 2 + 2 * RECORD_WORDS, 2 + 3 * RECORD_WORDS]);
    assert_eq!(builder.keys.len(), 4);
    assert_eq!(builder.words()[1], 4);
    assert_eq!(builder.sync(&mut scene).unwrap().len(), 0);
}
