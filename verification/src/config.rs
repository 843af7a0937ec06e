use vstd::prelude::*;

verus! {

/// The settings of the device: the wireless network to join.
pub struct Config {
    pub wifi_ssid: &'static str,
    pub wifi_psk: &'static str,
}

impl Default for Config {
    /// Both settings are empty until they are given.
    fn default() -> (config: Config)
        ensures
            config.wifi_ssid@.len() == 0,
            config.wifi_psk@.len() == 0,
    {
        proof {
            reveal_strlit("");
        }
        Config { wifi_ssid: "", wifi_psk: "" }
    }
}

} // verus!
