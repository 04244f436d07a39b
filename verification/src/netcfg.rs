//! Static IP configuration for the instrument LAN: NetworkManager on Linux,
//! PowerShell on Windows.
//!
//! A change here alters host-wide network state, so the interface that carries
//! the default route is refused: a typo there would take the machine off the
//! network with no way back from inside the program.
use crate::text;
use vstd::prelude::*;

pub mod network_manager;
pub mod power_shell;
pub mod unsupported;

verus! {

/// One wired profile and how its IPv4 is configured right now.
#[derive(Debug, Clone, PartialEq)]
pub struct LanProfile {
    pub device: String,
    pub profile: String,
    pub method: String,
    pub addresses: String,
    pub carries_default_route: bool,
}

impl LanProfile {
    /// Device and profile on one line.
    pub fn label(&self) -> (result: String)
        ensures
            result@ == self.device@ + " \u{2014} "@ + self.profile@,
    {
        let mut result: String = self.device.clone();
        result.append(" \u{2014} ");
        result.append(self.profile.as_str());
        result
    }
}

/// An address that may be given to an interface, and what to report once it has
/// been.
#[derive(Debug, Clone, PartialEq)]
pub struct StaticChange {
    pub address: [u8; 4],
    pub prefix: u8,
    pub message: String,
}

/// One octet of a dotted address: up to three digits, at most 255, and no zero
/// in front of another digit.
pub open spec fn is_octet(text: Seq<char>) -> bool {
    &&& 1 <= text.len() <= 3
    &&& text::all_digits(text)
    &&& text::digits_value(text) <= 255
    &&& (text.len() == 1 || text[0] != '0')
}

/// The four octets of a dotted address, where `text` is one.
pub open spec fn ipv4(text: Seq<char>) -> Option<Seq<u8>> {
    let parts = text::split(text, '.');
    if parts.len() == 4 && (forall|i: int| 0 <= i < 4 ==> is_octet(#[trigger] parts[i])) {
        Some(parts.map_values(|part: Seq<char>| text::digits_value(part) as u8))
    } else {
        None
    }
}

/// A dotted address.
pub open spec fn dotted(address: Seq<u8>) -> Seq<char> {
    text::decimal(address[0] as nat) + "."@ + text::decimal(address[1] as nat) + "."@
        + text::decimal(address[2] as nat) + "."@ + text::decimal(address[3] as nat)
}

/// `address/prefix`.
pub open spec fn dotted_with_prefix(address: Seq<u8>, prefix: u8) -> Seq<char> {
    dotted(address) + "/"@ + text::decimal(prefix as nat)
}

/// Loopback, multicast and the unspecified address belong to no interface.
pub open spec fn unassignable(address: Seq<u8>) -> bool {
    ||| address[0] == 127
    ||| 224 <= address[0] <= 239
    ||| (address[0] == 0 && address[1] == 0 && address[2] == 0 && address[3] == 0)
}

/// What `value` says as `a.b.c.d/prefix`, or the reason why it cannot be used.
pub open spec fn cidr(value: Seq<char>) -> Result<(Seq<u8>, u8), Seq<char>> {
    let text = text::trim(value);
    let at = text::find(text, '/');
    let address = text.take(at);
    let prefix = text.skip(at + 1);
    if at >= text.len() {
        Err("address must include a prefix, for example 192.168.1.50/24"@)
    } else {
        match (ipv4(text::trim(address)), text::number(text::trim(prefix), 255)) {
            (None, _) => Err("`"@ + address + "` is not an IPv4 address"@),
            (_, None) => Err("`"@ + prefix + "` is not a prefix length"@),
            (Some(octets), Some(bits)) => if !(1 <= bits <= 32) {
                Err("prefix length must be between 1 and 32"@)
            } else if unassignable(octets) {
                Err(dotted(octets) + " cannot be assigned to an interface"@)
            } else {
                Ok((octets, bits as u8))
            },
        }
    }
}

/// Why the interface of `device` is left alone.
pub open spec fn default_route_refusal(device: Seq<char>) -> Seq<char> {
    device
        + " carries the default route; reconfiguring it from here would cut this machine off the network"@
}

fn read_octet(text: &Vec<char>) -> (result: Option<u8>)
    ensures
        result is Some == is_octet(text@),
        result matches Some(octet) ==> octet == text::digits_value(text@),
{
    if text.len() < 1 || text.len() > 3 || text[0] == '+' || (text.len() > 1 && text[0] == '0') {
        return None;
    }
    match text::parse_number(text.as_slice(), 255) {
        Some(octet) => Some(octet as u8),
        None => None,
    }
}

/// The four octets of a dotted address, where `text` is one.
pub fn read_ipv4(text: &[char]) -> (result: Option<[u8; 4]>)
    ensures
        result is Some == ipv4(text@) is Some,
        result matches Some(octets) ==> octets@ == ipv4(text@)->Some_0,
{
    let parts: Vec<Vec<char>> = text::split_list(text, '.');
    if parts.len() != 4 {
        return None;
    }
    let ghost pieces = text::split(text@, '.');
    match (read_octet(&parts[0]), read_octet(&parts[1]), read_octet(&parts[2]), read_octet(&parts[3])) {
        (Some(a), Some(b), Some(c), Some(d)) => {
            let octets: [u8; 4] = [a, b, c, d];
            assert forall|i: int| 0 <= i < 4 implies is_octet(#[trigger] pieces[i]) by {
                assert(parts[i]@ == pieces[i]);
            }
            assert(octets@ =~= pieces.map_values(
                |part: Seq<char>| text::digits_value(part) as u8,
            ));
            Some(octets)
        },
        _ => {
            assert(!is_octet(pieces[0]) || !is_octet(pieces[1]) || !is_octet(pieces[2])
                || !is_octet(pieces[3]));
            None
        },
    }
}

pub fn print_ipv4(address: &[u8; 4]) -> (result: String)
    ensures
        result@ == dotted(address@),
{
    let mut result: String = text::print(address[0] as u64);
    result.append(".");
    result.append(text::print(address[1] as u64).as_str());
    result.append(".");
    result.append(text::print(address[2] as u64).as_str());
    result.append(".");
    result.append(text::print(address[3] as u64).as_str());
    result
}

/// `address/prefix`, as the platform tools take it.
pub(crate) fn print_with_prefix(address: &[u8; 4], prefix: u8) -> (result: String)
    ensures
        result@ == dotted_with_prefix(address@, prefix),
{
    let mut result: String = print_ipv4(address);
    result.append("/");
    result.append(text::print(prefix as u64).as_str());
    result
}

fn quoted(before: &str, middle: &str, after: &str) -> (result: String)
    ensures
        result@ == before@ + middle@ + after@,
{
    let mut result: String = before.to_owned();
    result.append(middle);
    result.append(after);
    result
}

/// Accepts `a.b.c.d/prefix` only. A bare address is rejected rather than guessed
/// at, because the wrong prefix silently splits the instrument off the subnet.
pub fn validate_cidr(value: &str) -> (result: Result<([u8; 4], u8), String>)
    ensures
        match cidr(value@) {
            Ok((octets, bits)) => result is Ok && result->Ok_0.0@ == octets && result->Ok_0.1
                == bits,
            Err(reason) => result is Err && result->Err_0@ == reason,
        },
{
    let characters: Vec<char> = text::chars_of(value);
    let (from, to) = text::trim_range(characters.as_slice(), 0, characters.len());
    assert(characters@.subrange(0, characters.len() as int) =~= value@);
    let inner: Vec<char> = text::copy_range(characters.as_slice(), from, to);
    let ghost whole = text::trim(value@);
    assert(inner@ == whole);
    let at: usize = text::find_from(inner.as_slice(), 0, '/');
    assert(inner@.skip(0) =~= inner@);
    if at >= inner.len() {
        return Err("address must include a prefix, for example 192.168.1.50/24".to_owned());
    }
    assert(inner@.subrange(0, at as int) =~= whole.take(at as int));
    assert(inner@.subrange(at + 1, inner.len() as int) =~= whole.skip(at + 1));
    let (address_from, address_to) = text::trim_range(inner.as_slice(), 0, at);
    let address: Vec<char> = text::copy_range(inner.as_slice(), address_from, address_to);
    let octets: [u8; 4] = match read_ipv4(address.as_slice()) {
        Some(octets) => octets,
        None => {
            let shown: String = text::string_of(inner.as_slice(), 0, at);
            return Err(quoted("`", shown.as_str(), "` is not an IPv4 address"));
        },
    };
    let (prefix_from, prefix_to) = text::trim_range(inner.as_slice(), at + 1, inner.len());
    let prefix: Vec<char> = text::copy_range(inner.as_slice(), prefix_from, prefix_to);
    let bits: u8 = match text::parse_number(prefix.as_slice(), 255) {
        Some(bits) => bits as u8,
        None => {
            let shown: String = text::string_of(inner.as_slice(), at + 1, inner.len());
            return Err(quoted("`", shown.as_str(), "` is not a prefix length"));
        },
    };
    if bits < 1 || bits > 32 {
        return Err("prefix length must be between 1 and 32".to_owned());
    }
    if octets[0] == 127 || (224 <= octets[0] && octets[0] <= 239) || (octets[0] == 0 && octets[1]
        == 0 && octets[2] == 0 && octets[3] == 0) {
        let mut reason: String = print_ipv4(&octets);
        reason.append(" cannot be assigned to an interface");
        return Err(reason);
    }
    Ok((octets, bits))
}

/// The interface that carries the default route is never reconfigured.
pub fn guard_default_route(target: &LanProfile) -> (result: Result<(), String>)
    ensures
        result is Err == target.carries_default_route,
        result matches Err(reason) ==> reason@ == default_route_refusal(target.device@),
{
    if target.carries_default_route {
        let mut reason: String = target.device.clone();
        reason.append(
            " carries the default route; reconfiguring it from here would cut this machine off the network",
        );
        return Err(reason);
    }
    Ok(())
}

/// Clears a switch of a profile to a fixed address with no gateway, so that the
/// instrument LAN never competes with the uplink for the default route. What
/// comes back is the address to hand to the platform and the line to report
/// once that has worked.
pub fn apply_static(target: &LanProfile, cidr: &str) -> (result: Result<StaticChange, String>)
    ensures
        match self::cidr(cidr@) {
            Err(reason) => result is Err && result->Err_0@ == reason,
            Ok((octets, bits)) => if target.carries_default_route {
                result is Err && result->Err_0@ == default_route_refusal(target.device@)
            } else {
                &&& result is Ok
                &&& result->Ok_0.address@ == octets
                &&& result->Ok_0.prefix == bits
                &&& result->Ok_0.message@ == target.device@ + " set to static "@
                    + dotted_with_prefix(octets, bits)
            },
        },
{
    let (address, prefix) = match validate_cidr(cidr) {
        Ok(pair) => pair,
        Err(reason) => return Err(reason),
    };
    match guard_default_route(target) {
        Ok(_) => {},
        Err(reason) => return Err(reason),
    }
    let shown: String = print_with_prefix(&address, prefix);
    let message: String = quoted(target.device.as_str(), " set to static ", shown.as_str());
    Ok(StaticChange { address, prefix, message })
}

/// Clears putting a profile back on DHCP, for when the static address was a
/// mistake; what comes back is the line to report once that has worked.
pub fn apply_dhcp(target: &LanProfile) -> (result: Result<String, String>)
    ensures
        result is Err == target.carries_default_route,
        result matches Err(reason) ==> reason@ == default_route_refusal(target.device@),
        result matches Ok(message) ==> message@ == target.device@ + " set back to DHCP"@,
{
    match guard_default_route(target) {
        Ok(_) => {},
        Err(reason) => return Err(reason),
    }
    let mut message: String = target.device.clone();
    message.append(" set back to DHCP");
    Ok(message)
}

/// What a platform tool's failure is reported as: its own words, or a stand-in
/// where it said nothing.
pub(crate) fn tool_failure(error_output: &str, otherwise: String) -> (result: String)
    ensures
        result@ == (if text::trim(error_output@).len() == 0 {
            otherwise@
        } else {
            text::trim(error_output@)
        }),
{
    let message: String = text::trimmed(error_output);
    if message.as_str().is_empty() {
        otherwise
    } else {
        message
    }
}

/// The first separator stands behind what holds none.
proof fn lemma_find_behind(before: Seq<char>, separator: char, after: Seq<char>)
    requires
        forall|i: int| 0 <= i < before.len() ==> #[trigger] before[i] != separator,
    ensures
        text::find(before + seq![separator] + after, separator) == before.len(),
    decreases before.len(),
{
    let all = before + seq![separator] + after;
    if before.len() > 0 {
        let rest = before.skip(1);
        assert(before[0] != separator);
        assert(all[0] == before[0]);
        assert(all.skip(1) =~= rest + seq![separator] + after);
        assert forall|i: int| 0 <= i < rest.len() implies #[trigger] rest[i] != separator by {
            assert(rest[i] == before[i + 1]);
        }
        lemma_find_behind(rest, separator, after);
    } else {
        assert(all[0] == separator);
    }
}

/// What holds no separator is one part.
proof fn lemma_find_nothing(text: Seq<char>, separator: char)
    requires
        forall|i: int| 0 <= i < text.len() ==> #[trigger] text[i] != separator,
    ensures
        text::find(text, separator) == text.len(),
    decreases text.len(),
{
    if text.len() > 0 {
        assert(text[0] != separator);
        let rest = text.skip(1);
        assert forall|i: int| 0 <= i < rest.len() implies #[trigger] rest[i] != separator by {
            assert(rest[i] == text[i + 1]);
        }
        lemma_find_nothing(rest, separator);
    }
}

/// A text splits at its first separator.
proof fn lemma_split_behind(before: Seq<char>, separator: char, after: Seq<char>)
    requires
        forall|i: int| 0 <= i < before.len() ==> #[trigger] before[i] != separator,
    ensures
        text::split(before + seq![separator] + after, separator) == seq![before] + text::split(
            after,
            separator,
        ),
{
    let all = before + seq![separator] + after;
    lemma_find_behind(before, separator, after);
    assert(all.take(before.len() as int) =~= before);
    assert(all.skip(before.len() as int + 1) =~= after);
}

/// An octet as it is printed.
proof fn lemma_octet(value: u8)
    ensures
        is_octet(text::decimal(value as nat)),
        forall|i: int|
            0 <= i < text::decimal(value as nat).len() ==> {
                let character = #[trigger] text::decimal(value as nat)[i];
                text::is_digit(character) && character != '.' && character != '/'
            },
{
    let number = value as nat;
    text::law_decimal_reads_back(number);
    reveal_with_fuel(text::decimal, 4);
    let digits = text::decimal(number);
    if number < 10 {
        assert(digits.len() == 1);
    } else if number < 100 {
        assert(digits.len() == 2);
        assert(digits[0] == text::digit_char(number / 10));
    } else {
        assert(digits.len() == 3);
        assert(digits[0] == text::digit_char(number / 10 / 10));
    }
}

/// An address reads back: what is printed of four octets is read as those four.
pub proof fn law_addresses_read_back(address: Seq<u8>)
    requires
        address.len() == 4,
    ensures
        ipv4(dotted(address)) == Some(address),
{
    reveal_strlit(".");
    let a = text::decimal(address[0] as nat);
    let b = text::decimal(address[1] as nat);
    let c = text::decimal(address[2] as nat);
    let d = text::decimal(address[3] as nat);
    lemma_octet(address[0]);
    lemma_octet(address[1]);
    lemma_octet(address[2]);
    lemma_octet(address[3]);
    text::law_decimal_reads_back(address[0] as nat);
    text::law_decimal_reads_back(address[1] as nat);
    text::law_decimal_reads_back(address[2] as nat);
    text::law_decimal_reads_back(address[3] as nat);
    let dot = seq!['.'];
    assert("."@ =~= dot);
    let third = c + dot + d;
    let second = b + dot + third;
    assert(dotted(address) =~= a + dot + second);
    lemma_split_behind(a, '.', second);
    lemma_split_behind(b, '.', third);
    lemma_split_behind(c, '.', d);
    lemma_find_nothing(d, '.');
    let parts = text::split(dotted(address), '.');
    assert(parts =~= seq![a, b, c, d]);
    assert(parts.map_values(|part: Seq<char>| text::digits_value(part) as u8) =~= address);
}

/// Trimming leaves alone what neither starts nor ends with a space.
proof fn lemma_trimmed(text: Seq<char>)
    requires
        text.len() > 0,
        !text::is_space(text[0]),
        !text::is_space(text.last()),
    ensures
        text::trim(text) == text,
{
}

/// An address with its prefix reads back, as long as an interface can have it.
pub proof fn law_networks_read_back(address: Seq<u8>, prefix: u8)
    requires
        address.len() == 4,
        1 <= prefix <= 32,
        !unassignable(address),
    ensures
        cidr(dotted_with_prefix(address, prefix)) == Ok::<(Seq<u8>, u8), Seq<char>>(
            (address, prefix),
        ),
{
    reveal_strlit("/");
    reveal_strlit(".");
    let bits = text::decimal(prefix as nat);
    let before = dotted(address);
    let all = dotted_with_prefix(address, prefix);
    lemma_octet(address[0]);
    lemma_octet(address[1]);
    lemma_octet(address[2]);
    lemma_octet(address[3]);
    lemma_octet(prefix);
    text::law_decimal_reads_back(prefix as nat);
    let a = text::decimal(address[0] as nat);
    let b = text::decimal(address[1] as nat);
    let c = text::decimal(address[2] as nat);
    let d = text::decimal(address[3] as nat);
    assert(before[0] == a[0]);
    assert(before.last() == d.last());
    assert(bits[0] == bits[0] && bits.last() == bits[bits.len() - 1]);
    assert(a[0] == a[0] && d.last() == d[d.len() - 1]);
    assert("/"@ =~= seq!['/']);
    assert forall|i: int| 0 <= i < before.len() implies #[trigger] before[i] != '/' by {
        let first = a + "."@;
        let second = first + b;
        let third = second + "."@;
        let fourth = third + c;
        let fifth = fourth + "."@;
        assert(before =~= fifth + d);
        if i >= fifth.len() {
            assert(before[i] == d[i - fifth.len()]);
        } else if i >= fourth.len() {
            assert(before[i] == "."@[i - fourth.len()]);
        } else if i >= third.len() {
            assert(before[i] == c[i - third.len()]);
        } else if i >= second.len() {
            assert(before[i] == "."@[i - second.len()]);
        } else if i >= first.len() {
            assert(before[i] == b[i - first.len()]);
        } else if i >= a.len() {
            assert(before[i] == "."@[i - a.len()]);
        } else {
            assert(before[i] == a[i]);
        }
    }
    lemma_find_behind(before, '/', bits);
    assert(all =~= before + seq!['/'] + bits);
    assert(all[0] == before[0]);
    assert(all.last() == bits.last());
    lemma_trimmed(all);
    assert(all.take(before.len() as int) =~= before);
    assert(all.skip(before.len() as int + 1) =~= bits);
    lemma_trimmed(before);
    lemma_trimmed(bits);
    law_addresses_read_back(address);
    assert(text::number(bits, 255) == Some(prefix as nat)) by {
        assert(bits[0] != '+');
        assert(text::without_plus(bits) == bits);
    }
}

} // verus!
