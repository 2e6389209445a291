use dhcp_lease::{lookup_oui, vendor_from_upper};

#[test]
fn lookup_oui_ignores_case_and_separators() {
    assert_eq!(lookup_oui("3c:5a:37:aa:bb:cc"), "Apple");
    assert_eq!(lookup_oui("b8-27-eb-00-11-22"), "Raspberry Pi Foundation");
    assert_eq!(lookup_oui("001a2bffffff"), "Hewlett-Packard");
    assert_eq!(lookup_oui("F0DE61"), "Microsoft");
}

#[test]
fn lookup_oui_of_unknown_or_short_address() {
    assert_eq!(lookup_oui("12:34:56:78:9a:bc"), "Unknown");
    assert_eq!(lookup_oui("3C:5A:3"), "Unknown");
    assert_eq!(lookup_oui(""), "Unknown");
    assert_eq!(lookup_oui("UNKNOWN"), "Unknown");
}

#[test]
fn lookup_oui_with_non_ascii_text_does_not_panic() {
    assert_eq!(lookup_oui("éééééé"), "Unknown");
    assert_eq!(lookup_oui("aé3c5a37"), "Unknown");
}

#[test]
fn vendor_from_upper_takes_the_prefix_as_given() {
    let up: Vec<char> = "A4:C1:38:00".chars().collect();
    assert_eq!(vendor_from_upper(&up), "Dell");
    let low: Vec<char> = "a4:c1:38:00".chars().collect();
    assert_eq!(vendor_from_upper(&low), "Unknown");
}
