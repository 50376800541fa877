use iobeam::test_data::{test_data_plan, test_file, TestDataDir, TEST_DATA_FILES};

#[test]
fn small_files_take_the_low_bits_modulo_one_mib() {
    let f = test_file(7, 0x1_0000_0000 + 3 * 1048576 + 42);
    assert_eq!(f.dir, TestDataDir::Small);
    assert_eq!(f.name, "file_007.bin");
    assert_eq!(f.size, 42);
    assert_eq!(f.dir.name(), "small");
}

#[test]
fn medium_files_are_one_to_a_hundred_mib() {
    let f = test_file(105, 103809024 + 5);
    assert_eq!(f.dir, TestDataDir::Med);
    assert_eq!(f.name, "file_05.bin");
    assert_eq!(f.size, 1048576 + 5);
    assert_eq!(f.dir.name(), "med");
}

#[test]
fn large_files_are_one_to_two_gib() {
    let f = test_file(112, u64::MAX);
    assert_eq!(f.dir, TestDataDir::Large);
    assert_eq!(f.name, "file_2.bin");
    assert_eq!(f.size, 1073741824 + 1073741823);
    assert_eq!(f.dir.name(), "large");
}

#[test]
fn the_plan_has_every_file_once() {
    let draws: Vec<u64> = (0..TEST_DATA_FILES as u64).collect();
    let plan = test_data_plan(&draws);
    assert_eq!(plan.len(), 113);
    assert_eq!(plan.iter().filter(|f| f.dir == TestDataDir::Small).count(), 100);
    assert_eq!(plan.iter().filter(|f| f.dir == TestDataDir::Med).count(), 10);
    assert_eq!(plan.iter().filter(|f| f.dir == TestDataDir::Large).count(), 3);
    assert_eq!(plan[99].name, "file_099.bin");
    assert_eq!(plan[100].name, "file_00.bin");
    assert_eq!(plan[110].name, "file_0.bin");
    assert_eq!(plan[101].size, 1048576 + 101);
}
