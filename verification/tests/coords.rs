use flex_updater_mc::chunk::region_dir_path;
use flex_updater_mc::chunk::AnvilRegionHandler;
use flex_updater_mc::chunk::McDimension;
use flex_updater_mc::text::i64_to_string;
use flex_updater_mc::text::u64_to_string;
use flex_updater_mc::chunk::ChunkPos;
use flex_updater_mc::chunk::RegionPos;

#[test]
fn test_parse_region_filename() {
    assert_eq!(AnvilRegionHandler::parse_region_filename("r.0.0.mca"), Some((0, 0)));
    assert_eq!(AnvilRegionHandler::parse_region_filename("r.-1.2.mca"), Some((-1, 2)));
    assert_eq!(AnvilRegionHandler::parse_region_filename("invalid.mca"), None);
    assert_eq!(AnvilRegionHandler::parse_region_filename("r.0.0.dat"), None);
}

#[test]
fn test_chunk_to_region_coords() {
    assert_eq!(AnvilRegionHandler::chunk_to_region_coords(0, 0), (0, 0));
    assert_eq!(AnvilRegionHandler::chunk_to_region_coords(31, 31), (0, 0));
    assert_eq!(AnvilRegionHandler::chunk_to_region_coords(32, 32), (1, 1));
    assert_eq!(AnvilRegionHandler::chunk_to_region_coords(-1, -1), (-1, -1));
    assert_eq!(AnvilRegionHandler::chunk_to_region_coords(-32, -32), (-1, -1));
    assert_eq!(AnvilRegionHandler::chunk_to_region_coords(-33, -33), (-2, -2));
}

#[test]
fn test_region_to_chunk_coords() {
    let chunks = AnvilRegionHandler::region_to_chunk_coords(0, 0);
    assert_eq!(chunks.len(), 32 * 32);
    assert!(chunks.contains(&(0, 0)));
    assert!(chunks.contains(&(31, 31)));
    assert!(!chunks.contains(&(32, 32)));
}

#[test]
fn test_chunk_pos_region_floored() {
    assert_eq!(ChunkPos::new(-1, -1).region(), RegionPos::new(-1, -1));
    assert_eq!(ChunkPos::new(-33, -33).region(), RegionPos::new(-2, -2));
    assert_eq!(ChunkPos::new(0, 0).region(), RegionPos::new(0, 0));
    assert_eq!(ChunkPos::new(31, 31).region(), RegionPos::new(0, 0));
    assert_eq!(ChunkPos::new(32, 32).region(), RegionPos::new(1, 1));
}

#[test]
fn test_region_offset_is_euclidean() {
    assert_eq!(ChunkPos::new(-1, -1).region_offset(), (31, 31));
    assert_eq!(ChunkPos::new(33, 5).region_offset(), (1, 5));
}

#[test]
fn test_region_file_name_round_trip() {
    let name = RegionPos::new(-7, 12).to_file_name();
    assert_eq!(name, "r.-7.12.mca");
    let parsed = RegionPos::try_parse_file_name(&name).unwrap();
    assert_eq!(parsed, RegionPos::new(-7, 12));
    assert!(RegionPos::try_parse_file_name("level.dat").is_err());
}

#[test]
fn test_expected_region_mapping_across_regions() {
    let inputs = [(0isize, 0isize), (31, 31), (32, 32), (-1, -1)];
    let regions: Vec<RegionPos> = inputs.iter().map(|&(x, z)| ChunkPos::new(x, z).region()).collect();
    assert_eq!(regions[0], RegionPos::new(0, 0));
    assert_eq!(regions[1], RegionPos::new(0, 0));
    assert_eq!(regions[2], RegionPos::new(1, 1));
    assert_eq!(regions[3], RegionPos::new(-1, -1));
    let mut names: Vec<String> = regions.iter().map(|r| r.to_file_name()).collect();
    names.sort();
    names.dedup();
    assert_eq!(names.len(), 3);
}

#[test]
fn test_chunk_at_inverts_offsets() {
    let r = RegionPos::new(1, -2);
    let c = r.chunk_at(5, 31);
    assert_eq!(c, ChunkPos::new(37, -33));
    assert_eq!(c.region(), r);
}

#[test]
fn test_region_dir_per_dimension() {
    assert_eq!(region_dir_path("world", &McDimension::Overworld), "world/region");
    assert_eq!(region_dir_path("world", &McDimension::Nether), "world/DIM-1/region");
    assert_eq!(region_dir_path("world", &McDimension::TheEnd), "world/DIM1/region");
}

#[test]
fn test_decimal_rendering() {
    assert_eq!(u64_to_string(0), "0");
    assert_eq!(u64_to_string(90210), "90210");
    assert_eq!(i64_to_string(-42), "-42");
    assert_eq!(i64_to_string(7), "7");
}
