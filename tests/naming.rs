use raytracer::naming::{create_unused_filename, to_decimal};

fn names(list: &[&str]) -> Vec<String> {
    list.iter().map(|s| s.to_string()).collect()
}

#[test]
fn decimal_of_numbers() {
    assert_eq!(to_decimal(0), "0");
    assert_eq!(to_decimal(7), "7");
    assert_eq!(to_decimal(10), "10");
    assert_eq!(to_decimal(1234), "1234");
    assert_eq!(to_decimal(u64::MAX), "18446744073709551615");
}

#[test]
fn empty_directory_gives_zero() {
    assert_eq!(create_unused_filename(&names(&[])), "0");
}

#[test]
fn first_gap_is_taken() {
    assert_eq!(create_unused_filename(&names(&["0.png", "1.png", "3.png"])), "2");
    assert_eq!(create_unused_filename(&names(&["1.png", "2.png"])), "0");
}

#[test]
fn all_taken_gives_next_number() {
    assert_eq!(create_unused_filename(&names(&["2.png", "0.png", "1.png"])), "3");
}

#[test]
fn other_files_do_not_count() {
    let existing = names(&["0.jpg", "00.png", "0", "notes.txt", "0.png.bak"]);
    assert_eq!(create_unused_filename(&existing), "0");
}

#[test]
fn many_names_reach_two_digits() {
    let existing: Vec<String> = (0..12).map(|i| format!("{}.png", i)).collect();
    assert_eq!(create_unused_filename(&existing), "12");
}
