//! Platforms on which the LAN cannot be configured from here.
use crate::netcfg::LanProfile;
use vstd::prelude::*;

verus! {

pub const UNSUPPORTED: &'static str = "LAN configuration is only implemented for Linux and Windows";

/// Nothing to list.
pub fn list_wired() -> (result: Vec<LanProfile>)
    ensures
        result@ == Seq::<LanProfile>::empty(),
{
    Vec::new()
}

pub fn set_static(_target: &LanProfile, _address: &[u8; 4], _prefix: u8) -> (result: Result<
    (),
    String,
>)
    ensures
        result is Err,
        result->Err_0@ == UNSUPPORTED@,
{
    Err(UNSUPPORTED.to_owned())
}

pub fn set_dhcp(_target: &LanProfile) -> (result: Result<(), String>)
    ensures
        result is Err,
        result->Err_0@ == UNSUPPORTED@,
{
    Err(UNSUPPORTED.to_owned())
}

} // verus!
