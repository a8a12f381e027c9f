use snakify::files::{filter_c_files, C_FILE_GLOB};
use snakify::names::{
    deduce_new_names, fix_irregulars, has_uppercase, non_snake_names, replace_literal,
    select_renames, snake_name,
};
use snakify::pipeline::{after_candidates, after_file_selection, after_rename, plan_renames, Step};
use snakify::symbols::{
    is_symbol_kind, join_filepath_list, join_filepath_list_wide, same_text, sort_longest_first,
    symbol_names, Tag,
};

fn strings(v: &[&str]) -> Vec<String> {
    v.iter().map(|s| s.to_string()).collect()
}

fn tag(name: &str, kind: &str) -> Tag {
    Tag { name: name.to_string(), path: "src/main.c".to_string(), kind: kind.to_string() }
}

fn pair(a: &str, b: &str) -> (String, String) {
    (a.to_string(), b.to_string())
}

#[test]
fn self_ip_becomes_self_ip_snake() {
    assert_eq!(fix_irregulars("selfIP"), "selfIp");
    assert_eq!(snake_name("selfIP"), "self_ip");
}

#[test]
fn new_sn_becomes_new_serial_number() {
    assert_eq!(fix_irregulars("newSN"), "newSerialNumber");
    assert_eq!(snake_name("newSN"), "new_serial_number");
}

#[test]
fn mqtt_client_becomes_mqtt_client_snake() {
    assert_eq!(fix_irregulars("MQTTClient"), "MqttClient");
    assert_eq!(snake_name("MQTTClient"), "mqtt_client");
}

#[test]
fn acronym_replaced_every_time() {
    assert_eq!(fix_irregulars("MQTTtoMQTT"), "MqtttoMqtt");
    assert_eq!(fix_irregulars("MQMQTTTT"), "MQMqttTT");
    assert_eq!(fix_irregulars("plain"), "plain");
}

#[test]
fn literal_replace_is_left_to_right() {
    assert_eq!(replace_literal("aaaa", "aa", "b"), "bb");
    assert_eq!(replace_literal("aaa", "aa", "b"), "ba");
    assert_eq!(replace_literal("", "aa", "b"), "");
    assert_eq!(replace_literal("xyz", "xyzw", "b"), "xyz");
    assert_eq!(replace_literal("héllo wörld", "ö", "oe"), "héllo woerld");
}

#[test]
fn uppercase_detection_is_ascii() {
    assert!(has_uppercase("fooBar"));
    assert!(!has_uppercase("foo_bar"));
    assert!(!has_uppercase(""));
    assert!(!has_uppercase("ÉÀ"));
}

#[test]
fn names_without_uppercase_are_not_candidates() {
    let kept = non_snake_names(strings(&["foo_bar", "fooBar", "x", "Y"]));
    assert_eq!(kept, strings(&["fooBar", "Y"]));
    let pairs = select_renames(strings(&["already_snake", "abc", "ÉÀ"]));
    assert!(pairs.is_empty());
}

#[test]
fn unchanged_targets_are_dropped() {
    let pairs = deduce_new_names(strings(&["my_name", "myName"]));
    assert_eq!(pairs, vec![pair("myName", "my_name")]);
}

#[test]
fn selection_twice_gives_nothing() {
    let first = select_renames(strings(&["MQTTClient", "selfIP", "newSN", "countValue"]));
    assert_eq!(first.len(), 4);
    let targets: Vec<String> = first.iter().map(|p| p.1.clone()).collect();
    assert!(select_renames(targets).is_empty());
}

#[test]
fn sort_puts_longest_first_and_keeps_ties() {
    let sorted = sort_longest_first(strings(&["ip", "selfIP", "abc", "xyz", "a", "longerName"]));
    assert_eq!(sorted, strings(&["longerName", "selfIP", "abc", "xyz", "ip", "a"]));
    assert!(sort_longest_first(Vec::new()).is_empty());
}

#[test]
fn kinds_are_filtered() {
    assert!(is_symbol_kind("variable"));
    assert!(is_symbol_kind("function"));
    assert!(is_symbol_kind("local"));
    assert!(is_symbol_kind("parameter"));
    assert!(!is_symbol_kind("macro"));
    assert!(!is_symbol_kind("Variable"));
    assert!(!is_symbol_kind(""));
    assert!(same_text("abc", "abc"));
    assert!(!same_text("abc", "abd"));
}

#[test]
fn symbol_names_keep_accepted_kinds_longest_first() {
    let tags = vec![
        tag("ip", "variable"),
        tag("LED_PIN", "macro"),
        tag("selfIP", "local"),
        tag("setupWifi", "function"),
        tag("MyStruct", "struct"),
    ];
    assert_eq!(symbol_names(tags), strings(&["setupWifi", "selfIP", "ip"]));
}

#[test]
fn longer_name_renamed_before_contained_one() {
    let tags = vec![tag("IP", "variable"), tag("selfIP", "variable")];
    let pairs = plan_renames(tags);
    assert_eq!(pairs, vec![pair("selfIP", "self_ip"), pair("IP", "ip")]);
}

#[test]
fn plan_orders_pairs_longest_first() {
    let tags = vec![
        tag("aB", "variable"),
        tag("ledState", "parameter"),
        tag("already_fine", "variable"),
        tag("MQTTClient", "function"),
    ];
    let pairs = plan_renames(tags);
    assert_eq!(
        pairs,
        vec![pair("MQTTClient", "mqtt_client"), pair("ledState", "led_state"), pair("aB", "a_b")]
    );
    for w in pairs.windows(2) {
        assert!(w[0].0.chars().count() >= w[1].0.chars().count());
    }
}

#[test]
fn empty_selection_means_nothing_to_fix() {
    assert_eq!(after_file_selection(0), Step::NothingToFix);
    assert_eq!(after_file_selection(3), Step::RunTagger);
    assert!(plan_renames(Vec::new()).is_empty());
    assert_eq!(after_candidates(0), Step::NothingToFix);
    assert_eq!(after_candidates(2), Step::Rename(0));
}

#[test]
fn failed_rename_does_not_stop_the_run() {
    assert_eq!(after_rename(0, 3, false), Step::Rename(1));
    assert_eq!(after_rename(0, 3, true), Step::Rename(1));
    assert_eq!(after_rename(1, 3, false), Step::Rename(2));
    assert_eq!(after_rename(2, 3, false), Step::Done);
    assert_eq!(after_rename(2, 3, true), Step::Done);
}

#[test]
fn file_filter_keeps_sources_and_directories() {
    assert!(filter_c_files(Some("proj/src/main.c"), false));
    assert!(filter_c_files(Some("proj/lib/util.hpp"), false));
    assert!(filter_c_files(Some("proj/sketch.ino"), false));
    assert!(filter_c_files(Some("proj/a.cpp"), false));
    assert!(filter_c_files(Some("proj/a.h"), false));
    assert!(!filter_c_files(Some("proj/readme.md"), false));
    assert!(!filter_c_files(Some("proj/main.cc"), false));
    assert!(!filter_c_files(Some("proj/main.rs"), false));
    assert!(filter_c_files(Some("proj/docs"), true));
    assert!(filter_c_files(None, true));
    assert!(!filter_c_files(None, false));
    assert_eq!(C_FILE_GLOB, "*/**/*.{c,cpp,h,hpp,ino}");
}

#[test]
fn path_list_is_newline_joined() {
    let paths = vec![b"a/x.c".to_vec(), b"b/y.h".to_vec()];
    assert_eq!(join_filepath_list(paths), b"a/x.c\nb/y.h".to_vec());
    assert_eq!(join_filepath_list(vec![b"one.c".to_vec()]), b"one.c".to_vec());
    assert!(join_filepath_list(Vec::new()).is_empty());
}

#[test]
fn wide_path_list_has_two_bytes_per_unit() {
    let paths = vec![vec![97u16, 98], vec![99u16]];
    let bytes = join_filepath_list_wide(paths);
    assert_eq!(bytes.len(), 8);
    let units: Vec<u16> = bytes.chunks(2).map(|c| u16::from_ne_bytes([c[0], c[1]])).collect();
    assert_eq!(units, vec![97u16, 98, 10, 99]);
}
