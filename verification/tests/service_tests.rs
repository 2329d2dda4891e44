use filedrop::endpoints::{format_ip, list_urls, IpAddress, NetInterface};
use filedrop::listing::{list_files, FileEntry, RawEntry};
use filedrop::page::{assemble_page, Templates};
use filedrop::sizefmt::format_size;
use filedrop::template::{Bindings, Template};
use filedrop::upload::{has_file_part, upload_target};

#[test]
fn size_labels_match_the_documented_values() {
    assert_eq!(format_size(0), "0 B");
    assert_eq!(format_size(5), "5 B");
    assert_eq!(format_size(1023), "1023 B");
    assert_eq!(format_size(1024), "1.00 KiB");
    assert_eq!(format_size(1536), "1.50 KiB");
    assert_eq!(format_size(1048575), "1024.00 KiB");
    assert_eq!(format_size(1572864), "1.50 MiB");
    assert_eq!(format_size(1048576), "1.00 MiB");
}

#[test]
fn snapshot_keeps_regular_files_sorted_by_name() {
    let entries = vec![
        RawEntry { name: "zeta.txt".to_string(), size: 10, is_file: true },
        RawEntry { name: "subdir".to_string(), size: 4096, is_file: false },
        RawEntry { name: "alpha.txt".to_string(), size: 1536, is_file: true },
        RawEntry { name: "midway".to_string(), size: 0, is_file: true },
    ];
    let rows = list_files(&entries);
    let got: Vec<(String, String)> =
        rows.iter().map(|f| (f.name.clone(), f.size.clone())).collect();
    assert_eq!(
        got,
        vec![
            ("alpha.txt".to_string(), "1.50 KiB".to_string()),
            ("midway".to_string(), "0 B".to_string()),
            ("zeta.txt".to_string(), "10 B".to_string()),
        ]
    );
}

#[test]
fn upload_with_empty_or_absent_name_changes_nothing() {
    assert!(upload_target("file", Some("")).is_none());
    assert!(upload_target("file", None).is_none());
    // nothing stored, so a snapshot stays as it was
    let before = list_files(&Vec::new());
    assert!(before.is_empty());
}

#[test]
fn upload_named_a_txt_appears_in_the_next_snapshot() {
    let stored = upload_target("file", Some("a.txt"));
    assert_eq!(stored.unwrap(), "a.txt");
    // the stored file, 5 bytes of "hello", as the next directory read sees it
    let entries = vec![RawEntry { name: "a.txt".to_string(), size: 5, is_file: true }];
    let rows = list_files(&entries);
    assert_eq!(rows.len(), 1);
    assert_eq!(rows[0].name, "a.txt");
    assert_eq!(rows[0].size, "5 B");
}

#[test]
fn upload_ignores_other_fields_and_unsafe_names() {
    assert!(upload_target("avatar", Some("a.txt")).is_none());
    assert!(upload_target("file", Some("../evil")).is_none());
    assert!(upload_target("file", Some("a/b.txt")).is_none());
    assert!(upload_target("file", Some("a\\b.txt")).is_none());
    assert!(upload_target("file", Some(".")).is_none());
    assert!(upload_target("file", Some("..")).is_none());
    assert_eq!(upload_target("file", Some("..safe")).unwrap(), "..safe");
}

#[test]
fn a_request_without_a_file_part_is_malformed() {
    assert!(!has_file_part(&Vec::new()));
    assert!(!has_file_part(&vec!["avatar".to_string(), "note".to_string()]));
    assert!(has_file_part(&vec!["avatar".to_string(), "file".to_string()]));
    // an empty filename still names the part itself
    assert!(has_file_part(&vec!["file".to_string()]));
}

#[test]
fn ip_texts_follow_the_usual_notation() {
    assert_eq!(format_ip(&IpAddress::V4(192, 168, 0, 1)), "192.168.0.1");
    assert_eq!(format_ip(&IpAddress::V4(0, 0, 0, 0)), "0.0.0.0");
    assert_eq!(format_ip(&IpAddress::V6(0, 0, 0, 0, 0, 0, 0, 1)), "::1");
    assert_eq!(format_ip(&IpAddress::V6(0, 0, 0, 0, 0, 0, 0, 0)), "::");
    assert_eq!(
        format_ip(&IpAddress::V6(0xfd00, 0, 0, 0, 0, 0, 0, 1)),
        "fd00::1"
    );
    assert_eq!(
        format_ip(&IpAddress::V6(1, 0, 0, 2, 0, 0, 0, 3)),
        "1:0:0:2::3"
    );
    assert_eq!(
        format_ip(&IpAddress::V6(0x2001, 0xdb8, 0xaaaa, 0xbbbb, 0xcccc, 0xdddd, 0xeeee, 0xffff)),
        "2001:db8:aaaa:bbbb:cccc:dddd:eeee:ffff"
    );
}

#[test]
fn discovery_never_keeps_link_local_ipv6() {
    let interfaces = vec![
        NetInterface {
            name: "eth0".to_string(),
            is_up: true,
            is_loopback: false,
            ips: vec![
                IpAddress::V6(0xfe80, 0, 0, 0, 0, 0, 0, 1),
                IpAddress::V4(192, 168, 1, 5),
                IpAddress::V6(0xfebf, 0, 0, 0, 0, 0, 0, 2),
                IpAddress::V6(0xfd00, 0, 0, 0, 0, 0, 0, 9),
            ],
        },
        NetInterface {
            name: "down0".to_string(),
            is_up: false,
            is_loopback: false,
            ips: vec![IpAddress::V4(10, 0, 0, 1)],
        },
    ];
    let urls = list_urls(&interfaces, 8000);
    assert_eq!(urls.len(), 2);
    for u in &urls {
        match u.ip {
            IpAddress::V6(s0, ..) => assert!(s0 & 0xffc0 != 0xfe80),
            IpAddress::V4(..) => {}
        }
        assert_eq!(u.interface, "eth0");
    }
    assert_eq!(urls[0].url, "http://192.168.1.5:8000");
    assert_eq!(urls[1].url, "http://[fd00::9]:8000");
    // the QR image is a bare SVG fragment, preamble stripped
    for u in &urls {
        assert!(u.qr_code_svg.starts_with("<svg"));
        assert!(!u.qr_code_svg.contains("?>"));
        assert!(u.qr_code_svg.contains("</svg>"));
    }
}

#[test]
fn discovery_sorts_loopback_last_then_name_then_address() {
    let interfaces = vec![
        NetInterface {
            name: "lo".to_string(),
            is_up: true,
            is_loopback: true,
            ips: vec![IpAddress::V4(127, 0, 0, 1)],
        },
        NetInterface {
            name: "wlan0".to_string(),
            is_up: true,
            is_loopback: false,
            ips: vec![IpAddress::V4(10, 0, 0, 7)],
        },
        NetInterface {
            name: "eth0".to_string(),
            is_up: true,
            is_loopback: false,
            ips: vec![IpAddress::V6(0xfd00, 0, 0, 0, 0, 0, 0, 1), IpAddress::V4(10, 0, 0, 3)],
        },
    ];
    let urls = list_urls(&interfaces, 80);
    let order: Vec<(String, String)> =
        urls.iter().map(|u| (u.interface.clone(), u.url.clone())).collect();
    assert_eq!(
        order,
        vec![
            ("eth0".to_string(), "http://10.0.0.3:80".to_string()),
            ("eth0".to_string(), "http://[fd00::1]:80".to_string()),
            ("wlan0".to_string(), "http://10.0.0.7:80".to_string()),
            ("lo".to_string(), "http://127.0.0.1:80".to_string()),
        ]
    );
    assert!(urls[3].is_loopback);
}

const PAGE_DOC: &str = "<html>@{file_listing}|@{qr_code_listing}|@{connection_listing}</html>\n---\n<li>{file_name} ({size})</li>\n---\n<figure>@{svg}</figure>\n---\n<tr><td>{interface}</td><td>{ip}</td></tr>";

fn page_templates() -> Templates {
    let mut parts = Template::many(PAGE_DOC);
    assert_eq!(parts.len(), 4);
    let connection_item = parts.pop().unwrap();
    let qr_code_item = parts.pop().unwrap();
    let file_list_item = parts.pop().unwrap();
    let root = parts.pop().unwrap();
    Templates { root, file_list_item, qr_code_item, connection_item }
}

#[test]
fn page_assembly_renders_rows_and_shell() {
    let templates = page_templates();
    let files = vec![
        FileEntry { name: "a.txt".to_string(), size: "5 B".to_string() },
        FileEntry { name: "b<c".to_string(), size: "1.00 KiB".to_string() },
    ];
    let interfaces = vec![NetInterface {
        name: "eth0".to_string(),
        is_up: true,
        is_loopback: false,
        ips: vec![IpAddress::V4(10, 0, 0, 3)],
    }];
    let urls = list_urls(&interfaces, 8000);
    let html = assemble_page(&templates, &files, &urls).unwrap();
    assert!(html.contains("<li>a.txt (5 B)</li>"));
    assert!(html.contains("<li>b&lt;c (1.00 KiB)</li>"));
    assert!(html.contains("<tr><td>eth0</td><td>10.0.0.3</td></tr>"));
    assert!(html.contains("<figure><svg"));
    assert!(html.starts_with("<html>"));
}

#[test]
fn page_assembly_skips_loopback_rows() {
    let templates = page_templates();
    let interfaces = vec![NetInterface {
        name: "lo".to_string(),
        is_up: true,
        is_loopback: true,
        ips: vec![IpAddress::V4(127, 0, 0, 1)],
    }];
    let urls = list_urls(&interfaces, 8000);
    assert_eq!(urls.len(), 1);
    let html = assemble_page(&templates, &Vec::new(), &urls).unwrap();
    assert_eq!(html, "<html>||</html>\n");
}

#[test]
fn page_assembly_reports_unbound_page_names() {
    let templates = Templates {
        root: Template::one("@{file_listing}@{qr_code_listing}@{connection_listing}@{missing}"),
        file_list_item: Template::one(""),
        qr_code_item: Template::one(""),
        connection_item: Template::one(""),
    };
    let err = assemble_page(&templates, &Vec::new(), &Vec::new()).unwrap_err();
    let filedrop::template::TemplateError::UndefinedVariable(name) = err;
    assert_eq!(name, "missing");
}

#[test]
fn bindings_round_trip_through_page_templates() {
    // one render per endpoint, none for the loopback-only list
    let t = Template::one("{ip}");
    let mut b = Bindings::new();
    b.insert("ip", &format_ip(&IpAddress::V4(8, 8, 8, 8)));
    assert_eq!(t.render(&b).unwrap(), "8.8.8.8");
}
