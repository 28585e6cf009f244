use release_fetch::decode::{DecodeError, FetchError};
use release_fetch::{decode_release, decode_response, Asset};

fn example_body() -> &'static str {
    "{\"id\":1,\"tag_name\":\"v2.0.0\",\"assets\":[{\"url\":\"https://api.example.com/assets/9\",\"browser_download_url\":\"https://dl.example.com/app-2.0.0.zip\",\"id\":9,\"name\":\"app-2.0.0.zip\",\"size\":12345}]}"
}

#[test]
fn url_construction_is_deterministic() {
    let url = release_fetch::latest_release_url("foo", "bar");
    assert_eq!(url, "https://api.github.com/repos/foo/bar/releases/latest");
}

#[test]
fn user_agent_is_fixed_and_nonempty() {
    assert_eq!(release_fetch::client_user_agent(), "pgpad");
    assert!(!release_fetch::client_user_agent().is_empty());
}

#[test]
fn end_to_end_example_decodes() {
    let release = decode_release(example_body()).unwrap();
    assert_eq!(release.id, 1);
    assert_eq!(release.tag_name, "v2.0.0");
    assert_eq!(release.assets.len(), 1);
    let a = &release.assets[0];
    assert_eq!(a.id, 9);
    assert_eq!(a.name, "app-2.0.0.zip");
    assert_eq!(a.size, 12345);
    assert_eq!(a.url, "https://api.example.com/assets/9");
    assert_eq!(a.browser_download_url, "https://dl.example.com/app-2.0.0.zip");
}

#[test]
fn non_success_status_is_a_failure() {
    let r = decode_response(404, example_body());
    assert_eq!(r.err().unwrap(), FetchError::Status(404));
    let r = decode_response(500, "{\"message\":\"oops\"}");
    assert_eq!(r.err().unwrap(), FetchError::Status(500));
}

#[test]
fn success_status_decodes_body() {
    let release = decode_response(200, example_body()).unwrap();
    assert_eq!(release.tag_name, "v2.0.0");
}

#[test]
fn success_status_with_bad_body_is_a_decode_failure() {
    let r = decode_response(200, "{");
    assert_eq!(r.err().unwrap(), FetchError::Decode(DecodeError::Syntax));
}

#[test]
fn missing_tag_name_is_rejected() {
    let r = decode_release("{\"id\":1,\"assets\":[]}");
    assert_eq!(r.err().unwrap(), DecodeError::MissingField);
}

#[test]
fn missing_id_is_rejected() {
    let r = decode_release("{\"tag_name\":\"v1\",\"assets\":[]}");
    assert_eq!(r.err().unwrap(), DecodeError::MissingField);
}

#[test]
fn missing_asset_field_is_rejected() {
    let body = "{\"id\":1,\"tag_name\":\"v1\",\"assets\":[{\"url\":\"https://a.example\",\"browser_download_url\":\"https://b.example\",\"id\":2,\"name\":\"x\"}]}";
    assert_eq!(decode_release(body).err().unwrap(), DecodeError::MissingField);
}

#[test]
fn malformed_url_is_rejected() {
    let body = "{\"id\":1,\"tag_name\":\"v1\",\"assets\":[{\"url\":\"https://a.example\",\"browser_download_url\":\"not a url\",\"id\":2,\"name\":\"x\",\"size\":3}]}";
    assert_eq!(decode_release(body).err().unwrap(), DecodeError::BadUrl);
}

#[test]
fn valid_urls_are_accepted() {
    let body = "{\"id\":1,\"tag_name\":\"v1\",\"assets\":[{\"url\":\"https://a.example/x\",\"browser_download_url\":\"https://b.example/y\",\"id\":2,\"name\":\"x\",\"size\":3}]}";
    let release = decode_release(body).unwrap();
    assert_eq!(release.assets[0].url, "https://a.example/x");
}

#[test]
fn malformed_json_is_rejected() {
    assert_eq!(decode_release("{").err().unwrap(), DecodeError::Syntax);
    assert_eq!(decode_release("").err().unwrap(), DecodeError::Syntax);
    assert_eq!(decode_release("[1,2]trailing").err().unwrap(), DecodeError::Syntax);
}

#[test]
fn non_object_document_is_rejected() {
    assert_eq!(decode_release("[1,2,3]").err().unwrap(), DecodeError::WrongType);
    assert_eq!(decode_release("null").err().unwrap(), DecodeError::WrongType);
}

#[test]
fn empty_assets_list_is_a_valid_release() {
    let release = decode_release("{\"id\":0,\"tag_name\":\"v0\",\"assets\":[]}").unwrap();
    assert_eq!(release.id, 0);
    assert_eq!(release.assets.len(), 0);
}

#[test]
fn unknown_fields_are_ignored() {
    let body = "{\"extra\":{\"a\":[1.5e3,null,true,\"s\"],\"b\":{}},\"id\":7,\"tag_name\":\"v7\",\"assets\":[],\"more\":false}";
    let release = decode_release(body).unwrap();
    assert_eq!(release.id, 7);
    assert_eq!(release.tag_name, "v7");
}

#[test]
fn duplicate_field_is_rejected() {
    let r = decode_release("{\"id\":1,\"id\":2,\"tag_name\":\"v\",\"assets\":[]}");
    assert_eq!(r.err().unwrap(), DecodeError::DuplicateField);
}

#[test]
fn wrong_type_is_rejected() {
    let r = decode_release("{\"id\":1,\"tag_name\":5,\"assets\":[]}");
    assert_eq!(r.err().unwrap(), DecodeError::WrongType);
    let r = decode_release("{\"id\":\"1\",\"tag_name\":\"v\",\"assets\":[]}");
    assert_eq!(r.err().unwrap(), DecodeError::WrongType);
    let r = decode_release("{\"id\":1.5,\"tag_name\":\"v\",\"assets\":[]}");
    assert_eq!(r.err().unwrap(), DecodeError::WrongType);
}

#[test]
fn out_of_range_number_is_rejected() {
    let r = decode_release("{\"id\":99999999999999999999999999,\"tag_name\":\"v\",\"assets\":[]}");
    assert_eq!(r.err().unwrap(), DecodeError::NumberRange);
}

#[test]
fn negative_size_decodes() {
    let body = "{\"id\":1,\"tag_name\":\"v\",\"assets\":[{\"url\":\"https://a.example\",\"browser_download_url\":\"https://b.example\",\"id\":2,\"name\":\"x\",\"size\":-12}]}";
    let release = decode_release(body).unwrap();
    assert_eq!(release.assets[0].size, -12);
}

#[test]
fn string_escapes_decode() {
    let body = "{\"id\":1,\"tag_name\":\"a\\\"b\\\\c\\n\",\"assets\":[]}";
    let release = decode_release(body).unwrap();
    assert_eq!(release.tag_name, "a\"b\\c\n");
}

#[test]
fn unicode_escapes_decode() {
    let body = "{\"id\":1,\"tag_name\":\"\\u0041\\u00e9\\u2764\",\"assets\":[]}";
    let release = decode_release(body).unwrap();
    assert_eq!(release.tag_name, "A\u{e9}\u{2764}");
}

#[test]
fn surrogate_pair_escapes_decode() {
    let body = "{\"id\":1,\"tag_name\":\"\\ud83d\\ude00\",\"assets\":[]}";
    let release = decode_release(body).unwrap();
    assert_eq!(release.tag_name, "\u{1f600}");
}

#[test]
fn lone_surrogate_escape_is_rejected() {
    let r = decode_release("{\"id\":1,\"tag_name\":\"\\ud800\",\"assets\":[]}");
    assert_eq!(r.err().unwrap(), DecodeError::Syntax);
    let r = decode_release("{\"id\":1,\"tag_name\":\"\\udc00\",\"assets\":[]}");
    assert_eq!(r.err().unwrap(), DecodeError::Syntax);
}

#[test]
fn bad_unicode_escape_is_rejected() {
    let r = decode_release("{\"id\":1,\"tag_name\":\"\\uzzzz\",\"assets\":[]}");
    assert_eq!(r.err().unwrap(), DecodeError::Syntax);
}

#[test]
fn null_assets_is_an_empty_list() {
    let release = decode_release("{\"id\":3,\"tag_name\":\"v3\",\"assets\":null}").unwrap();
    assert_eq!(release.id, 3);
    assert_eq!(release.assets.len(), 0);
}

#[test]
fn control_characters_render_and_decode() {
    let release = decode_release("{\"id\":1,\"tag_name\":\"a\\nb\\u0001c\",\"assets\":[]}")
        .unwrap();
    assert_eq!(release.tag_name, "a\nb\u{1}c");
    let text = release_fetch::render_release(&release);
    assert!(text.contains("\\u000a"));
    assert!(text.contains("\\u0001"));
    let again = decode_release(&text).unwrap();
    assert!(release == again);
}

#[test]
fn clone_preserves_equality() {
    let release = decode_release(example_body()).unwrap();
    let copy = release.clone();
    assert!(release == copy);
}

#[test]
fn whitespace_is_tolerated() {
    let body = " { \"id\" : 1 , \"tag_name\" : \"v\" , \"assets\" : [ ] } ";
    let release = decode_release(body).unwrap();
    assert_eq!(release.id, 1);
}

fn sample_asset() -> Asset {
    Asset {
        url: String::from("https://a.example/x"),
        browser_download_url: String::from("https://b.example/y"),
        id: 9,
        name: String::from("app.zip"),
        size: 12345,
    }
}

#[test]
fn equal_assets_compare_equal() {
    assert!(sample_asset() == sample_asset());
}

#[test]
fn changing_any_asset_field_breaks_equality() {
    let mut a = sample_asset();
    a.url = String::from("https://a.example/z");
    assert!(a != sample_asset());
    let mut a = sample_asset();
    a.browser_download_url = String::from("https://b.example/z");
    assert!(a != sample_asset());
    let mut a = sample_asset();
    a.id = 10;
    assert!(a != sample_asset());
    let mut a = sample_asset();
    a.name = String::from("other.zip");
    assert!(a != sample_asset());
    let mut a = sample_asset();
    a.size = 1;
    assert!(a != sample_asset());
}

#[test]
fn release_equality_is_structural() {
    let r1 = decode_release(example_body()).unwrap();
    let r2 = decode_release(example_body()).unwrap();
    assert!(r1 == r2);
    let mut r3 = decode_release(example_body()).unwrap();
    r3.assets[0].size = 1;
    assert!(r1 != r3);
    let mut r4 = decode_release(example_body()).unwrap();
    r4.assets.clear();
    assert!(r1 != r4);
}

#[test]
fn render_then_decode_round_trips() {
    let release = decode_release(example_body()).unwrap();
    let text = release_fetch::render_release(&release);
    let again = decode_release(&text).unwrap();
    assert!(release == again);
}

#[test]
fn render_is_canonical() {
    let release = decode_release(example_body()).unwrap();
    let text = release_fetch::render_release(&release);
    assert_eq!(text, example_body());
}

#[test]
fn render_escapes_strings() {
    let release = decode_release("{\"id\":1,\"tag_name\":\"a\\\"b\",\"assets\":[]}").unwrap();
    assert_eq!(release.tag_name, "a\"b");
    let text = release_fetch::render_release(&release);
    let again = decode_release(&text).unwrap();
    assert!(release == again);
}

#[test]
fn asset_order_is_preserved() {
    let body = "{\"id\":1,\"tag_name\":\"v\",\"assets\":[{\"url\":\"https://a.example\",\"browser_download_url\":\"https://b.example\",\"id\":1,\"name\":\"first\",\"size\":1},{\"url\":\"https://a.example\",\"browser_download_url\":\"https://b.example\",\"id\":2,\"name\":\"second\",\"size\":2},{\"url\":\"https://a.example\",\"browser_download_url\":\"https://b.example\",\"id\":3,\"name\":\"third\",\"size\":3}]}";
    let release = decode_release(body).unwrap();
    let names: Vec<&str> = release.assets.iter().map(|a| a.name.as_str()).collect();
    assert_eq!(names, vec!["first", "second", "third"]);
}
