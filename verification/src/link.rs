use vstd::prelude::*;

verus! {

/// How the station proves itself to the access point.
#[derive(Clone, Copy, Debug, PartialEq, Eq, Structural)]
pub enum AuthMethod {
    /// No authentication: the network is open.
    Open,
    WPA2Personal,
}

/// No network name was given.
#[derive(Clone, Copy, Debug, PartialEq, Eq, Structural)]
pub struct MissingName;

/// An access point that a scan has found.
#[derive(Clone, Debug)]
pub struct AccessPoint {
    pub ssid: String,
    pub channel: u8,
}

/// The authentication to use for the network `ssid` with the password
/// `pass`: none for an empty password, WPA2 otherwise. A network without a
/// name cannot be joined.
pub fn auth_method_for(ssid: &str, pass: &str) -> (choice: Result<AuthMethod, MissingName>)
    ensures
        choice is Err == (ssid@.len() == 0),
        choice matches Ok(method) ==> method == if pass@.len() == 0 {
            AuthMethod::Open
        } else {
            AuthMethod::WPA2Personal
        },
{
    if ssid.is_empty() {
        return Err(MissingName);
    }
    if pass.is_empty() {
        Ok(AuthMethod::Open)
    } else {
        Ok(AuthMethod::WPA2Personal)
    }
}

/// Whether some access point before index `end` has the name `ssid`.
pub open spec fn named_before(found: Seq<AccessPoint>, ssid: Seq<char>, end: int) -> bool {
    exists|i: int| 0 <= i < end && i < found.len() && (#[trigger] found[i]).ssid@ == ssid
}

/// The channel of the first access point found that has the name `ssid`, if
/// there is one.
pub fn channel_of(found: &Vec<AccessPoint>, ssid: &str) -> (channel: Option<u8>)
    ensures
        channel is Some == named_before(found@, ssid@, found@.len() as int),
        channel matches Some(number) ==> exists|i: int|
            0 <= i < found@.len() && (#[trigger] found@[i]).ssid@ == ssid@ && found@[i].channel
                == number && !named_before(found@, ssid@, i),
{
    let wanted = ssid.to_owned();
    let mut i: usize = 0;
    while i < found.len()
        invariant
            i <= found@.len(),
            wanted@ == ssid@,
            !named_before(found@, ssid@, i as int),
        decreases found@.len() - i,
    {
        if found[i].ssid == wanted {
            return Some(found[i].channel);
        }
        i = i + 1;
    }
    None
}

/// Whether an HTTP status stands for success: one of 200 to 299.
pub fn status_is_success(status: u16) -> (ok: bool)
    ensures
        ok == (200 <= status <= 299),
{
    200 <= status && status <= 299
}

} // verus!
