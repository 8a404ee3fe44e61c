use rbt_model::url::{has_urdf_extension, url_is_urdf_file, url_is_weburl, urdf_file_given};

#[test]
fn url_is_file_test() {
    assert!(!url_is_urdf_file("src/model/urdf/test.txt"));
}

#[test]
fn url_is_weburl_test() {
    assert!(url_is_weburl("http://www.example.com/urdf/test.urdf"));
    assert!(url_is_weburl("https://www.example.com/urdf/test.urdf"));
    assert!(!url_is_weburl("http://www.example.com/urdf/test.txt"));
    assert!(!url_is_weburl("https://www.example.com/urdf/test.txt"));
    assert!(!url_is_weburl("http://www.example.com/urdf/test"));
    assert!(!url_is_weburl("https://www.example.com/urdf/test"));
}

#[test]
fn weburl_needs_scheme_and_extension() {
    assert!(url_is_weburl("https://example.com/robot.URDF"));
    assert!(!url_is_weburl("ftp://example.com/robot.urdf"));
    assert!(!url_is_weburl("www.example.com/robot.urdf"));
    assert!(!url_is_weburl("http:/example.com/robot.urdf"));
    assert!(!url_is_weburl(""));
    assert!(!url_is_weburl("http://"));
}

#[test]
fn urdf_extension_cases() {
    assert!(has_urdf_extension("a.urdf"));
    assert!(has_urdf_extension("dir/b.URDF"));
    assert!(has_urdf_extension(".urdf"));
    assert!(!has_urdf_extension("a.Urdf"));
    assert!(!has_urdf_extension("urdf"));
    assert!(!has_urdf_extension("a.urdf.txt"));
    assert!(!has_urdf_extension(""));
}

#[test]
fn urdf_file_given_existence() {
    assert!(urdf_file_given("./urdf/rm_75_6fb_description/urdf/RM75-6F.urdf", true));
    assert!(!urdf_file_given("./urdf/rm_75_6fb_description/urdf/RM75-6F.urdf", false));
    assert!(!urdf_file_given("src/model/urdf/test.txt", true));
}

#[test]
fn missing_or_foreign_file_is_not_urdf_file() {
    assert!(!url_is_urdf_file("src/model/urdf/test.txt"));
    assert!(!url_is_urdf_file("no/such/dir/robot.urdf"));
    assert!(!url_is_urdf_file("Cargo.toml"));
}
