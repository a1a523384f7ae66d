use fwsite::numbers::parse_u64;
use fwsite::records::{default_string, Firmware, KindleFirmware, SiteError};
use fwsite::versions::{process_meta_versions, process_kindle_versions};
use fwsite::ordering::{get_and_sort_models, sort_models, str_lt, string_eq};
use fwsite::pages::prepare_model_pages;
use fwsite::text::{model_filename, model_link, build_link_list, generate_robots_txt, replace_spaces};
use fwsite::render::{minified_page, render_template_with_base, generate_core_pages};

fn mk_fw(model: &str, incremental: &str, utilities: &str, ux: &str) -> Firmware {
    Firmware {
        build_date: "2024-01-01".to_string(),
        build_date_utc: "2024-01-01 00:00".to_string(),
        codename: "code".to_string(),
        fingerprint: "fp".to_string(),
        incremental: incremental.to_string(),
        model: model.to_string(),
        os_version: "12".to_string(),
        system_ux_version: ux.to_string(),
        system_utilities_version: utilities.to_string(),
        vr_shell_version: "1.0".to_string(),
        name: "pkg".to_string(),
        sha256: "deadbeef".to_string(),
        version: String::new(),
    }
}

fn mk_kfw(model: &str, incremental: &str, name: &str) -> KindleFirmware {
    KindleFirmware {
        incremental: incremental.to_string(),
        model: model.to_string(),
        name: name.to_string(),
        sha256: "deadbeef".to_string(),
        version: String::new(),
    }
}

fn strings(xs: &[&str]) -> Vec<String> {
    xs.iter().map(|s| s.to_string()).collect()
}

#[test]
fn parse_u64_accepts_plain_numerals() {
    assert_eq!(parse_u64("123"), Some(123));
    assert_eq!(parse_u64("0"), Some(0));
    assert_eq!(parse_u64("+123"), Some(123));
    assert_eq!(parse_u64("18446744073709551615"), Some(u64::MAX));
}

#[test]
fn parse_u64_rejects_bad_input() {
    assert_eq!(parse_u64(""), None);
    assert_eq!(parse_u64("+"), None);
    assert_eq!(parse_u64("12a"), None);
    assert_eq!(parse_u64("abc"), None);
    assert_eq!(parse_u64("-1"), None);
    assert_eq!(parse_u64("18446744073709551616"), None);
}

#[test]
fn default_string_is_sentinel() {
    assert_eq!(default_string(), "N/A");
}

#[test]
fn meta_versions_at_and_around_low_threshold() {
    let mut fws = vec![
        mk_fw("Quest 2", "15280600195700000", "utils-50", "ux-60"),
        mk_fw("Quest 2", "15280600195699999", "utils-50", "ux-60"),
        mk_fw("Quest 2", "15280600195700001", "utils-50", "ux-60"),
    ];
    process_meta_versions(&mut fws).unwrap();
    assert_eq!(fws[0].version, "utils-50");
    assert_eq!(fws[1].version, "utils-50");
    assert_eq!(fws[2].version, "Unknown");
}

#[test]
fn meta_versions_at_and_around_high_threshold() {
    let mut fws = vec![
        mk_fw("Quest 2", "15849800124700000", "utils-50", "ux-60"),
        mk_fw("Quest 2", "15849800124699999", "utils-50", "ux-60"),
        mk_fw("Quest 2", "15849800124700001", "utils-50", "ux-60"),
    ];
    process_meta_versions(&mut fws).unwrap();
    assert_eq!(fws[0].version, "ux-60");
    assert_eq!(fws[1].version, "Unknown");
    assert_eq!(fws[2].version, "ux-60");
}

#[test]
fn meta_versions_bad_incremental_is_fatal() {
    let mut fws = vec![
        mk_fw("Quest", "100", "u", "x"),
        mk_fw("Quest", "not-a-number", "u", "x"),
    ];
    let r = process_meta_versions(&mut fws);
    match r {
        Err(SiteError::BadIncremental { index }) => assert_eq!(index, 1),
        _ => panic!("expected a bad-incremental error"),
    }
    assert_eq!(fws[1].version, "");
}

#[test]
fn kindle_versions_take_last_underscore_segment() {
    let mut fws = vec![
        mk_kfw("PW5", "1", "update_kindle_5.12.2"),
        mk_kfw("PW5", "2", "nounderscore"),
        mk_kfw("PW5", "3", "trailing_"),
    ];
    process_kindle_versions(&mut fws);
    assert_eq!(fws[0].version, "5.12.2");
    assert_eq!(fws[1].version, "N/A");
    assert_eq!(fws[2].version, "");
}

#[test]
fn string_helpers_compare_as_expected() {
    assert!(str_lt("Alpha", "Beta"));
    assert!(!str_lt("Beta", "Alpha"));
    assert!(str_lt("Quest", "Quest 2"));
    assert!(!str_lt("Quest", "Quest"));
    assert!(string_eq("Quest 2", "Quest 2"));
    assert!(!string_eq("Quest 2", "Quest"));
}

#[test]
fn models_sort_by_priority_then_lexicographic() {
    let fws = vec![
        mk_fw("Zeta", "1", "u", "x"),
        mk_fw("Quest 2", "2", "u", "x"),
        mk_fw("Alpha", "3", "u", "x"),
        mk_fw("Quest", "4", "u", "x"),
        mk_fw("Zeta", "5", "u", "x"),
    ];
    let order = strings(&["Quest", "Quest 2", "Quest Pro"]);
    let models = get_and_sort_models(&fws, &order);
    assert_eq!(models, strings(&["Quest", "Quest 2", "Alpha", "Zeta"]));
}

#[test]
fn model_sort_is_idempotent() {
    let order = strings(&["KS2", "KS", "PW5"]);
    let input = strings(&["PW5", "AAA", "KS", "AAA", "zzz", "KS2"]);
    let once = sort_models(&input, &order);
    let twice = sort_models(&once, &order);
    assert_eq!(once, twice);
    assert_eq!(once, strings(&["KS2", "KS", "PW5", "AAA", "zzz"]));
}

#[test]
fn filenames_and_links_have_no_spaces() {
    assert_eq!(replace_spaces("Quest 3S"), "Quest_3S");
    assert_eq!(model_filename("Quest 3S"), "Quest_3S_firmware.html");
    assert_eq!(
        model_link("Quest 3S"),
        "<a href='Quest_3S_firmware' class='link link-white'>Quest 3S</a>"
    );
}

#[test]
fn link_list_joins_with_newlines() {
    let models = strings(&["Quest", "Quest 2"]);
    assert_eq!(
        build_link_list(&models),
        "<a href='Quest_firmware' class='link link-white'>Quest</a>\n<a href='Quest_2_firmware' class='link link-white'>Quest 2</a>"
    );
    assert_eq!(build_link_list(&strings(&[])), "");
}

#[test]
fn robots_txt_has_header_and_one_allow_line_per_model() {
    let models = strings(&["Quest 2", "Quest 3S"]);
    let kindle_models = strings(&["KS"]);
    let robots = generate_robots_txt(&models, &kindle_models);
    assert_eq!(
        robots,
        "User-agent: *\nDisallow: /\nAllow: /$\nAllow: /Quest_2_firmware\nAllow: /Quest_3S_firmware\nAllow: /KS_firmware"
    );
    let empty = generate_robots_txt(&strings(&[]), &strings(&[]));
    assert_eq!(empty, "User-agent: *\nDisallow: /\nAllow: /$\n");
}

#[test]
fn model_pages_sort_records_descending() {
    let fws = vec![
        mk_fw("Quest", "5", "u", "x"),
        mk_fw("Quest", "bogus", "u", "x"),
        mk_fw("Quest", "7", "u", "x"),
    ];
    let pages = prepare_model_pages(fws);
    assert_eq!(pages.len(), 1);
    assert_eq!(pages[0].model, "Quest");
    let incs: Vec<&str> = pages[0].records.iter().map(|f| f.incremental.as_str()).collect();
    assert_eq!(incs, vec!["7", "5", "bogus"]);
}

#[test]
fn equal_incrementals_keep_catalog_order() {
    let fws = vec![
        mk_fw("Quest", "7", "first", "x"),
        mk_fw("Quest", "7", "second", "x"),
        mk_fw("Quest", "9", "top", "x"),
    ];
    let pages = prepare_model_pages(fws);
    assert_eq!(pages.len(), 1);
    let utils: Vec<&str> = pages[0]
        .records
        .iter()
        .map(|f| f.system_utilities_version.as_str())
        .collect();
    assert_eq!(utils, vec!["top", "first", "second"]);
}

#[test]
fn quest_2_threshold_page_end_to_end() {
    let mut fws = vec![
        mk_fw("Quest 2", "15280600195700000", "utils-50", "ux-60"),
        mk_fw("Quest 2", "15849800124700000", "utils-50", "ux-60"),
    ];
    process_meta_versions(&mut fws).unwrap();
    let pages = prepare_model_pages(fws);
    assert_eq!(pages.len(), 1);
    assert_eq!(pages[0].filename, "Quest_2_firmware.html");
    assert_eq!(pages[0].title, "Quest 2 Firmware Update Archive");
    assert_eq!(pages[0].records[0].incremental, "15849800124700000");
    assert_eq!(pages[0].records[0].version, "ux-60");
    assert_eq!(pages[0].records[1].incremental, "15280600195700000");
    assert_eq!(pages[0].records[1].version, "utils-50");
}

#[test]
fn minifier_changes_padded_markup() {
    let html = "<html><body><p>  Hello,   world  </p>\n\n  <p>bye</p></body></html>";
    let out = minified_page(html);
    assert_ne!(out, html.as_bytes().to_vec());
    assert!(out.len() < html.len());
    let out_str = String::from_utf8(out).unwrap();
    assert!(out_str.contains("Hello"));
}

fn shell_tera() -> tera::Tera {
    let mut t = tera::Tera::default();
    t.add_raw_template("html_page.html", "<title>{{ title }}</title>{{ body }}")
        .unwrap();
    t
}

#[test]
fn shell_render_inserts_title_and_body() {
    let t = shell_tera();
    let page = render_template_with_base(&t, "T", "B").unwrap();
    assert_eq!(page, "<title>T</title>B");
}

#[test]
fn missing_template_is_a_template_error() {
    let t = tera::Tera::default();
    match render_template_with_base(&t, "T", "B") {
        Err(SiteError::Template { message }) => assert!(!message.is_empty()),
        _ => panic!("expected a template error"),
    }
}

fn full_tera() -> tera::Tera {
    let mut t = shell_tera();
    t.add_raw_template("index_body.html", "{{ meta_links }}|{{ kindle_links }}")
        .unwrap();
    t.add_raw_template("404_body.html", "nothing here").unwrap();
    t
}

#[test]
fn core_pages_carry_names_and_exact_robots() {
    let t = full_tera();
    let models = strings(&["Quest", "Quest 2"]);
    let kindle_models = strings(&["KS"]);
    let cp = generate_core_pages(&t, &models, &kindle_models).unwrap();
    assert_eq!(cp.index_name, "index.html");
    assert_eq!(cp.error_name, "404.html");
    assert_eq!(cp.robots_name, "robots.txt");
    assert_eq!(
        cp.robots,
        "User-agent: *\nDisallow: /\nAllow: /$\nAllow: /Quest_firmware\nAllow: /Quest_2_firmware\nAllow: /KS_firmware"
    );
    assert!(!cp.index.is_empty());
    assert!(!cp.error_page.is_empty());
}

#[test]
fn identical_inputs_give_identical_outputs() {
    let t = full_tera();
    let models = strings(&["Quest", "Quest 2"]);
    let kindle_models = strings(&["KS"]);
    let first = generate_core_pages(&t, &models, &kindle_models).unwrap();
    let second = generate_core_pages(&t, &models, &kindle_models).unwrap();
    assert_eq!(first.index, second.index);
    assert_eq!(first.error_page, second.error_page);
    assert_eq!(first.robots, second.robots);

    let mk = || {
        vec![
            mk_fw("Quest 2", "15280600195700000", "utils-50", "ux-60"),
            mk_fw("Quest", "15849800124700000", "utils-50", "ux-60"),
        ]
    };
    let mut a = mk();
    let mut b = mk();
    process_meta_versions(&mut a).unwrap();
    process_meta_versions(&mut b).unwrap();
    let pa = prepare_model_pages(a);
    let pb = prepare_model_pages(b);
    assert_eq!(pa.len(), pb.len());
    for (x, y) in pa.iter().zip(pb.iter()) {
        assert_eq!(x.model, y.model);
        assert_eq!(x.filename, y.filename);
        assert_eq!(x.title, y.title);
        let xi: Vec<&str> = x.records.iter().map(|f| f.incremental.as_str()).collect();
        let yi: Vec<&str> = y.records.iter().map(|f| f.incremental.as_str()).collect();
        assert_eq!(xi, yi);
    }
}
