use std::path::Path;

use cachalot::store::{digest_dir, to_decimal};
use cachalot::{page_path, pages_dir, Config, TypedConfig};

#[test]
fn decimal_is_unpadded_base_ten() {
    assert_eq!(to_decimal(0), "0");
    assert_eq!(to_decimal(7), "7");
    assert_eq!(to_decimal(10), "10");
    assert_eq!(to_decimal(1024), "1024");
    assert_eq!(to_decimal(4095), "4095");
    assert_eq!(
        to_decimal(u128::MAX),
        "340282366920938463463374607431768211455"
    );
}

#[test]
fn page_path_joins_directory_and_page_number() {
    let path = page_path("some/dir", &7);
    assert_eq!(Path::new(&path), Path::new("some/dir").join("7"));
    assert_ne!(path, "some/dir");

    let path = page_path("cache", &1023);
    assert_eq!(Path::new(&path), Path::new("cache").join("1023"));
}

#[test]
fn digest_dir_joins_root_and_digest() {
    let dir = digest_dir(".cachalot", 42);
    assert_eq!(Path::new(&dir), Path::new(".cachalot").join("42"));

    let dir = digest_dir("root", u64::MAX);
    assert_eq!(
        Path::new(&dir),
        Path::new("root").join("18446744073709551615")
    );
}

#[test]
fn default_root() {
    let config = Config::<1024>::new();
    assert_eq!(config.root, ".cachalot");
    assert_eq!(Config::<1024>::DEFAULT_ROOT, ".cachalot");

    let typed = TypedConfig::<u64, 1024>::new();
    assert_eq!(typed.config.root, ".cachalot");
}

#[test]
fn pages_dir_lies_under_the_root() {
    let mut config = TypedConfig::<u64, 1024>::new();
    config.config.root = String::from("my_root");

    let dir = pages_dir("k", &config);
    let name = Path::new(&dir).file_name().unwrap().to_str().unwrap();
    let digest: u64 = name.parse().unwrap();

    assert_eq!(Path::new(&dir).parent().unwrap(), Path::new("my_root"));
    assert_eq!(name, format!("{}", digest));
}

#[test]
fn pages_dir_is_the_same_for_the_same_key() {
    let config = TypedConfig::<u64, 1024>::new();

    assert_eq!(pages_dir("k", &config), pages_dir("k", &config));
    assert_eq!(pages_dir((1u8, "a"), &config), pages_dir((1u8, "a"), &config));
    assert_ne!(pages_dir("k", &config), pages_dir("l", &config));
}

#[test]
fn key_typing() {
    let narrow = TypedConfig::<u32, 1024>::new();
    let wide = TypedConfig::<u64, 1024>::new();

    assert_ne!(pages_dir("k", &narrow), pages_dir("k", &wide));
}

#[test]
fn key_separation_by_page_size() {
    let small = TypedConfig::<u64, 4>::new();
    let large = TypedConfig::<u64, 1024>::new();

    assert_ne!(pages_dir("k", &small), pages_dir("k", &large));
}
