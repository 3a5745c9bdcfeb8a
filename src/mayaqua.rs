use vstd::prelude::*;

verus! {

/// The peer answered, but not as a VPN server.
#[derive(Debug, Clone, Copy, PartialEq, Eq, Structural)]
pub struct ErrServerIsNotVpn;

impl ErrServerIsNotVpn {
    /// The code this error is reported under.
    pub fn message(&self) -> (r: String)
        ensures
            r@ == "ERR_SERVER_IS_NOT_VPN"@,
    {
        "ERR_SERVER_IS_NOT_VPN".to_owned()
    }
}

} // verus!
