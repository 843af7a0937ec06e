use chunk_scan::config::Config;
use chunk_scan::link::{
    auth_method_for, channel_of, status_is_success, AccessPoint, AuthMethod, MissingName,
};

fn point(ssid: &str, channel: u8) -> AccessPoint {
    AccessPoint { ssid: ssid.to_string(), channel }
}

#[test]
fn default_config_is_empty() {
    let config = Config::default();
    assert_eq!(config.wifi_ssid, "");
    assert_eq!(config.wifi_psk, "");
}

#[test]
fn network_without_a_name_is_refused() {
    assert_eq!(auth_method_for("", "secret"), Err(MissingName));
    assert_eq!(auth_method_for("", ""), Err(MissingName));
}

#[test]
fn empty_password_means_an_open_network() {
    assert_eq!(auth_method_for("home", ""), Ok(AuthMethod::Open));
}

#[test]
fn password_means_wpa2() {
    assert_eq!(auth_method_for("home", "secret"), Ok(AuthMethod::WPA2Personal));
}

#[test]
fn channel_of_the_first_access_point_with_the_name() {
    let found = vec![point("other", 1), point("home", 6), point("home", 11)];
    assert_eq!(channel_of(&found, "home"), Some(6));
    assert_eq!(channel_of(&found, "other"), Some(1));
}

#[test]
fn channel_is_unknown_when_the_name_was_not_found() {
    let found = vec![point("other", 1)];
    assert_eq!(channel_of(&found, "home"), None);
    assert_eq!(channel_of(&Vec::new(), "home"), None);
}

#[test]
fn success_is_a_status_from_200_to_299() {
    assert!(status_is_success(200));
    assert!(status_is_success(204));
    assert!(status_is_success(299));
    assert!(!status_is_success(199));
    assert!(!status_is_success(300));
    assert!(!status_is_success(404));
    assert!(!status_is_success(0));
}
