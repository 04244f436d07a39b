//! What is asked of PowerShell, and what its answers say.
//!
//! PowerShell rather than `netsh`: cmdlet output keys are stable, while netsh
//! prints localised field names. Every call needs an elevated process.
use crate::netcfg::LanProfile;
use crate::text;
use vstd::prelude::*;

verus! {

/// Lists physical adapters that are up as `name<TAB>method<TAB>address` lines.
pub const LIST_SCRIPT: &'static str =
    "Get-NetAdapter -Physical | Where-Object { $_.Status -eq 'Up' } | ForEach-Object {\n  $a = Get-NetIPAddress -InterfaceIndex $_.ifIndex -AddressFamily IPv4 -ErrorAction SilentlyContinue | Select-Object -First 1\n  $i = Get-NetIPInterface -InterfaceIndex $_.ifIndex -AddressFamily IPv4 -ErrorAction SilentlyContinue | Select-Object -First 1\n  $addr = if ($a) { \"$($a.IPAddress)/$($a.PrefixLength)\" } else { '' }\n  $method = if ($i -and $i.Dhcp -eq 'Enabled') { 'auto' } else { 'manual' }\n  \"$($_.Name)`t$method`t$addr\"\n}";

/// Prints the alias of the interface with the preferred default route.
pub const DEFAULT_ROUTE_SCRIPT: &'static str =
    "(Get-NetRoute -DestinationPrefix '0.0.0.0/0' -ErrorAction SilentlyContinue | Sort-Object RouteMetric | Select-Object -First 1).InterfaceAlias";

/// What one line of [`LIST_SCRIPT`]'s output says, where it says anything: at
/// least three tab-separated fields and a device that is not blank.
pub open spec fn adapter(line: Seq<char>) -> Option<(Seq<char>, Seq<char>, Seq<char>)> {
    let fields = text::split(line, '\t');
    if fields.len() >= 3 && text::trim(fields[0]).len() > 0 {
        Some((text::trim(fields[0]), text::trim(fields[1]), text::trim(fields[2])))
    } else {
        None
    }
}

/// The adapters on `lines`, in order.
pub open spec fn adapters(lines: Seq<Seq<char>>) -> Seq<(Seq<char>, Seq<char>, Seq<char>)>
    decreases lines.len(),
{
    if lines.len() == 0 {
        Seq::empty()
    } else {
        match adapter(lines.last()) {
            Some(found) => adapters(lines.drop_last()).push(found),
            None => adapters(lines.drop_last()),
        }
    }
}

/// That `profile` is the one for an adapter: its name stands for both device
/// and profile.
pub open spec fn describes(
    profile: LanProfile,
    adapter: (Seq<char>, Seq<char>, Seq<char>),
    default_device: Option<String>,
) -> bool {
    &&& profile.device@ == adapter.0
    &&& profile.profile@ == adapter.0
    &&& profile.method@ == adapter.1
    &&& profile.addresses@ == adapter.2
    &&& profile.carries_default_route == (default_device is Some && default_device->Some_0@
        == adapter.0)
}

/// That `profiles` describes each of the adapters.
pub open spec fn describe_all(
    profiles: Seq<LanProfile>,
    found: Seq<(Seq<char>, Seq<char>, Seq<char>)>,
    default_device: Option<String>,
) -> bool {
    &&& profiles.len() == found.len()
    &&& forall|i: int|
        0 <= i < profiles.len() ==> describes(#[trigger] profiles[i], found[i], default_device)
}

fn trimmed_field(field: &Vec<char>) -> (result: String)
    ensures
        result@ == text::trim(field@),
{
    let (from, to) = text::trim_range(field.as_slice(), 0, field.len());
    assert(field@.subrange(0, field.len() as int) =~= field@);
    text::string_of(field.as_slice(), from, to)
}

/// Lists the adapters that can be reconfigured, from the output of
/// [`LIST_SCRIPT`].
pub fn list_wired(output: &str, default_device: &Option<String>) -> (result: Vec<LanProfile>)
    ensures
        describe_all(result@, adapters(text::lines(output@)), *default_device),
{
    let lines: Vec<Vec<char>> = text::line_list(output);
    let ghost all = text::lines(output@);
    let mut profiles: Vec<LanProfile> = Vec::new();
    let mut at: usize = 0;
    assert(all.take(0) =~= Seq::empty());
    while at < lines.len()
        invariant
            at <= lines.len() == all.len(),
            forall|i: int| 0 <= i < lines.len() ==> (#[trigger] lines[i])@ == all[i],
            describe_all(profiles@, adapters(all.take(at as int)), *default_device),
        decreases lines.len() - at,
    {
        assert(all.take(at + 1).drop_last() =~= all.take(at as int));
        assert(all.take(at + 1).last() == lines[at as int]@);
        let fields: Vec<Vec<char>> = text::split_list(lines[at].as_slice(), '\t');
        if fields.len() >= 3 {
            let device: String = trimmed_field(&fields[0]);
            if !device.as_str().is_empty() {
                let carries_default_route: bool = match default_device {
                    Some(default) => text::same(default.as_str(), device.as_str()),
                    None => false,
                };
                profiles.push(
                    LanProfile {
                        profile: device.clone(),
                        device,
                        method: trimmed_field(&fields[1]),
                        addresses: trimmed_field(&fields[2]),
                        carries_default_route,
                    },
                );
            }
        }
        at = at + 1;
    }
    assert(all.take(all.len() as int) =~= all);
    profiles
}

/// The alias in the output of [`DEFAULT_ROUTE_SCRIPT`], if there is one.
pub fn default_route_device(output: &str) -> (result: Option<String>)
    ensures
        result is None == (text::trim(output@).len() == 0),
        result matches Some(alias) ==> alias@ == text::trim(output@),
{
    let alias: String = text::trimmed(output);
    if alias.as_str().is_empty() {
        None
    } else {
        Some(alias)
    }
}

/// A single-quoted PowerShell literal; an embedded quote is doubled.
pub open spec fn quoted(value: Seq<char>) -> Seq<char> {
    "'"@ + text::replaced(value, '\'', "''"@) + "'"@
}

pub fn quote(value: &str) -> (result: String)
    ensures
        result@ == quoted(value@),
{
    let mut result: String = "'".to_owned();
    result.append(text::replace(value, '\'', "''").as_str());
    result.append("'");
    result
}

/// How PowerShell reads the inside of a single-quoted literal: two quotes in a
/// row are one.
pub open spec fn literal_value(inside: Seq<char>) -> Seq<char>
    decreases inside.len(),
{
    if inside.len() == 0 {
        Seq::empty()
    } else if inside.len() >= 2 && inside.last() == '\'' && inside[inside.len() - 2] == '\'' {
        literal_value(inside.take(inside.len() - 2)).push('\'')
    } else {
        literal_value(inside.drop_last()).push(inside.last())
    }
}

/// A quoted value reads back as the value, and no quote inside it ends the
/// literal: they all stand in pairs.
pub proof fn law_quoted_values_read_back(value: Seq<char>)
    ensures
        literal_value(text::replaced(value, '\'', "''"@)) == value,
    decreases value.len(),
{
    reveal_strlit("''");
    let inside = text::replaced(value, '\'', "''"@);
    if value.len() > 0 {
        let head = value.drop_last();
        let before = text::replaced(head, '\'', "''"@);
        law_quoted_values_read_back(head);
        if value.last() == '\'' {
            assert(inside.take(inside.len() - 2) =~= before);
            assert(head.push('\'') =~= value);
        } else {
            assert(inside.drop_last() =~= before);
            assert(head.push(value.last()) =~= value);
        }
    }
}

/// The script that puts an adapter on a fixed address. No default gateway: the
/// instrument LAN must never take the default route away from the uplink.
pub open spec fn static_script(device: Seq<char>, address: Seq<u8>, prefix: u8) -> Seq<char> {
    "Remove-NetIPAddress -InterfaceAlias "@ + quoted(device)
        + " -AddressFamily IPv4 -Confirm:$false -ErrorAction SilentlyContinue; Remove-NetRoute -InterfaceAlias "@
        + quoted(device)
        + " -DestinationPrefix '0.0.0.0/0' -Confirm:$false -ErrorAction SilentlyContinue; Set-NetIPInterface -InterfaceAlias "@
        + quoted(device)
        + " -AddressFamily IPv4 -Dhcp Disabled; New-NetIPAddress -InterfaceAlias "@ + quoted(device)
        + " -AddressFamily IPv4 -IPAddress "@ + crate::netcfg::dotted(address) + " -PrefixLength "@
        + text::decimal(prefix as nat)
}

pub fn set_static(target: &LanProfile, address: &[u8; 4], prefix: u8) -> (result: String)
    ensures
        result@ == static_script(target.device@, address@, prefix),
{
    let alias: String = quote(target.device.as_str());
    let mut script: String = "Remove-NetIPAddress -InterfaceAlias ".to_owned();
    script.append(alias.as_str());
    script.append(
        " -AddressFamily IPv4 -Confirm:$false -ErrorAction SilentlyContinue; Remove-NetRoute -InterfaceAlias ",
    );
    script.append(alias.as_str());
    script.append(
        " -DestinationPrefix '0.0.0.0/0' -Confirm:$false -ErrorAction SilentlyContinue; Set-NetIPInterface -InterfaceAlias ",
    );
    script.append(alias.as_str());
    script.append(" -AddressFamily IPv4 -Dhcp Disabled; New-NetIPAddress -InterfaceAlias ");
    script.append(alias.as_str());
    script.append(" -AddressFamily IPv4 -IPAddress ");
    script.append(crate::netcfg::print_ipv4(address).as_str());
    script.append(" -PrefixLength ");
    script.append(text::print(prefix as u64).as_str());
    script
}

/// The script that puts an adapter back on DHCP.
pub open spec fn dhcp_script(device: Seq<char>) -> Seq<char> {
    "Remove-NetIPAddress -InterfaceAlias "@ + quoted(device)
        + " -AddressFamily IPv4 -Confirm:$false -ErrorAction SilentlyContinue; Set-NetIPInterface -InterfaceAlias "@
        + quoted(device)
        + " -AddressFamily IPv4 -Dhcp Enabled; Set-DnsClientServerAddress -InterfaceAlias "@
        + quoted(device) + " -ResetServerAddresses"@
}

pub fn set_dhcp(target: &LanProfile) -> (result: String)
    ensures
        result@ == dhcp_script(target.device@),
{
    let alias: String = quote(target.device.as_str());
    let mut script: String = "Remove-NetIPAddress -InterfaceAlias ".to_owned();
    script.append(alias.as_str());
    script.append(
        " -AddressFamily IPv4 -Confirm:$false -ErrorAction SilentlyContinue; Set-NetIPInterface -InterfaceAlias ",
    );
    script.append(alias.as_str());
    script.append(
        " -AddressFamily IPv4 -Dhcp Enabled; Set-DnsClientServerAddress -InterfaceAlias ",
    );
    script.append(alias.as_str());
    script.append(" -ResetServerAddresses");
    script
}

/// What a failed PowerShell call is reported as.
pub fn failure(error_output: &str, status: &str) -> (result: String)
    ensures
        result@ == (if text::trim(error_output@).len() == 0 {
            "powershell failed with "@ + status@ + " (run the app as Administrator)"@
        } else {
            text::trim(error_output@)
        }),
{
    let mut otherwise: String = "powershell failed with ".to_owned();
    otherwise.append(status);
    otherwise.append(" (run the app as Administrator)");
    crate::netcfg::tool_failure(error_output, otherwise)
}

} // verus!
