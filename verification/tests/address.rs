use mini_download_serve::address::display_addr;

#[test]
fn a_server_on_all_addresses_is_shown_as_this_machine() {
    assert_eq!(display_addr("0.0.0.0", 8000), "127.0.0.1:8000");
    assert_eq!(display_addr("::", 80), "127.0.0.1:80");
}

#[test]
fn a_server_on_one_address_is_shown_there() {
    assert_eq!(display_addr("192.168.1.5", 9000), "192.168.1.5:9000");
    assert_eq!(display_addr("::1", 65535), "::1:65535");
    assert_eq!(display_addr("", 0), ":0");
}
