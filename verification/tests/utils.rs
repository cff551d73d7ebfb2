use th06nc_data::utils::{archive_key, padding_to_16};

#[test]
fn archive_key_cuts_at_first_dot() {
    assert_eq!(archive_key("th06.dat"), "th06");
    assert_eq!(archive_key("th06.tar.dat"), "th06");
    assert_eq!(archive_key("noext"), "noext");
    assert_eq!(archive_key(".hidden"), "");
    assert_eq!(archive_key(""), "");
    assert_eq!(archive_key("东方.dat"), "东方");
}

#[test]
fn padding_to_16_values() {
    assert_eq!(padding_to_16(0), 0);
    assert_eq!(padding_to_16(1), 15);
    assert_eq!(padding_to_16(15), 1);
    assert_eq!(padding_to_16(16), 0);
    assert_eq!(padding_to_16(17), 15);
    assert_eq!(padding_to_16(u64::MAX), 1);
}
