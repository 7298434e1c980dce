use fasttiles::region_name::comes_first;
use fasttiles::region_name::parse_region_name;
use fasttiles::region_name::region_entries;
use fasttiles::region_name::RegionCoords;

fn coords(x: i32, z: i32, legacy: bool) -> RegionCoords {
    RegionCoords { x, z, legacy }
}

fn names(list: &[&str]) -> Vec<String> {
    list.iter().map(|s| s.to_string()).collect()
}

#[test]
fn anvil_name_is_read() {
    assert_eq!(parse_region_name(b"r.0.0.mca"), Some(coords(0, 0, false)));
    assert_eq!(parse_region_name(b"r.12.-7.mca"), Some(coords(12, -7, false)));
    assert_eq!(parse_region_name(b"r.-1.305.mca"), Some(coords(-1, 305, false)));
}

#[test]
fn legacy_name_is_read() {
    assert_eq!(parse_region_name(b"r.3.4.mcr"), Some(coords(3, 4, true)));
    assert_eq!(parse_region_name(b"r.-10.-20.mcr"), Some(coords(-10, -20, true)));
}

#[test]
fn coordinates_reach_the_ends_of_32_bits() {
    assert_eq!(
        parse_region_name(b"r.2147483647.-2147483648.mca"),
        Some(coords(i32::MAX, i32::MIN, false))
    );
    assert_eq!(parse_region_name(b"r.2147483648.0.mca"), None);
    assert_eq!(parse_region_name(b"r.0.-2147483649.mca"), None);
    assert_eq!(parse_region_name(b"r.99999999999999999999.0.mca"), None);
}

#[test]
fn numbers_must_be_in_plain_notation() {
    assert_eq!(parse_region_name(b"r.01.0.mca"), None);
    assert_eq!(parse_region_name(b"r.0.00.mca"), None);
    assert_eq!(parse_region_name(b"r.-0.0.mca"), None);
    assert_eq!(parse_region_name(b"r.+1.0.mca"), None);
    assert_eq!(parse_region_name(b"r.1a.0.mca"), None);
    assert_eq!(parse_region_name(b"r.-.0.mca"), None);
    assert_eq!(parse_region_name(b"r..0.mca"), None);
    assert_eq!(parse_region_name(b"r.0..mca"), None);
    assert_eq!(parse_region_name(b"r. 1.0.mca"), None);
}

#[test]
fn other_names_are_no_region_files() {
    assert_eq!(parse_region_name(b""), None);
    assert_eq!(parse_region_name(b"r"), None);
    assert_eq!(parse_region_name(b"r."), None);
    assert_eq!(parse_region_name(b"r.1"), None);
    assert_eq!(parse_region_name(b"r.1.2"), None);
    assert_eq!(parse_region_name(b"r.1.2."), None);
    assert_eq!(parse_region_name(b"r.1.mca"), None);
    assert_eq!(parse_region_name(b"r.1.2.3.mca"), None);
    assert_eq!(parse_region_name(b"r.1.2.mcx"), None);
    assert_eq!(parse_region_name(b"r.1.2.mc"), None);
    assert_eq!(parse_region_name(b"r.1.2.mcaa"), None);
    assert_eq!(parse_region_name(b"r.1.2.mca.bak"), None);
    assert_eq!(parse_region_name(b"x.1.2.mca"), None);
    assert_eq!(parse_region_name(b"R.1.2.mca"), None);
    assert_eq!(parse_region_name(b"level.dat"), None);
    assert_eq!(parse_region_name("r.1.2.mc\u{e4}".as_bytes()), None);
}

#[test]
fn scan_order_is_by_x_then_z_then_format() {
    assert!(comes_first(&coords(-1, 9, true), &coords(0, 0, false)));
    assert!(comes_first(&coords(0, -1, true), &coords(0, 0, false)));
    assert!(comes_first(&coords(0, 0, false), &coords(0, 0, true)));
    assert!(!comes_first(&coords(0, 0, true), &coords(0, 0, false)));
    assert!(!comes_first(&coords(0, 0, false), &coords(0, 0, false)));
    assert!(!comes_first(&coords(1, 0, false), &coords(0, 5, false)));
}

#[test]
fn entries_are_picked_and_ordered() {
    let listing = names(&[
        "r.1.0.mca",
        "level.dat",
        "r.0.1.mca",
        "r.-1.5.mca",
        "r.0.0.mcr",
        "r.0.0.mca",
        "r.0.-3.mca",
        "r.00.0.mca",
    ]);
    let entries = region_entries(&listing);
    let got: Vec<(&str, RegionCoords)> =
        entries.iter().map(|e| (e.name.as_str(), e.coords)).collect();
    assert_eq!(
        got,
        vec![
            ("r.-1.5.mca", coords(-1, 5, false)),
            ("r.0.-3.mca", coords(0, -3, false)),
            ("r.0.0.mca", coords(0, 0, false)),
            ("r.0.0.mcr", coords(0, 0, true)),
            ("r.0.1.mca", coords(0, 1, false)),
            ("r.1.0.mca", coords(1, 0, false)),
        ]
    );
}

#[test]
fn entries_of_an_empty_directory() {
    assert!(region_entries(&Vec::new()).is_empty());
    assert!(region_entries(&names(&["session.lock", "data"])).is_empty());
}

#[test]
fn a_name_listed_twice_stays_twice() {
    let entries = region_entries(&names(&["r.2.2.mca", "r.1.1.mca", "r.2.2.mca"]));
    let got: Vec<&str> = entries.iter().map(|e| e.name.as_str()).collect();
    assert_eq!(got, vec!["r.1.1.mca", "r.2.2.mca", "r.2.2.mca"]);
}
