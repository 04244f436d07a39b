//! What is asked of `nmcli`, and what its answers say.
use crate::netcfg::LanProfile;
use crate::text;
use vstd::prelude::*;

verus! {

/// A wired device and the profile that is active on it.
#[derive(Debug, Clone, PartialEq)]
pub struct Wired {
    pub device: String,
    pub profile: String,
}

/// `field` with one more character at its end, inside the last of `fields`.
pub open spec fn grow_last(fields: Seq<Seq<char>>, character: char) -> Seq<Seq<char>> {
    fields.update(fields.len() - 1, fields.last().push(character))
}

/// What a terse record has said after `line`: the fields so far, and whether a
/// backslash is waiting for the character that it protects.
pub open spec fn terse_state(line: Seq<char>) -> (Seq<Seq<char>>, bool)
    decreases line.len(),
{
    if line.len() == 0 {
        (seq![Seq::empty()], false)
    } else {
        let (fields, escaped) = terse_state(line.drop_last());
        let character = line.last();
        if escaped {
            (grow_last(fields, character), false)
        } else if character == '\\' {
            (fields, true)
        } else if character == ':' {
            (fields.push(Seq::empty()), false)
        } else {
            (grow_last(fields, character), false)
        }
    }
}

/// The fields of one terse record.
pub open spec fn terse_fields(line: Seq<char>) -> Seq<Seq<char>> {
    terse_state(line).0
}

/// The records of terse output: one per line that is not blank.
pub open spec fn terse_rows(lines: Seq<Seq<char>>) -> Seq<Seq<Seq<char>>>
    decreases lines.len(),
{
    if lines.len() == 0 {
        Seq::empty()
    } else if text::trim(lines.last()).len() == 0 {
        terse_rows(lines.drop_last())
    } else {
        terse_rows(lines.drop_last()).push(terse_fields(lines.last()))
    }
}

/// The texts that rows of strings hold.
pub open spec fn row_texts(rows: Seq<Vec<String>>) -> Seq<Seq<Seq<char>>> {
    rows.map_values(|row: Vec<String>| text::texts(row@))
}

/// How a field is written in terse output: a backslash before each colon and
/// each backslash.
pub open spec fn terse_escaped(field: Seq<char>) -> Seq<char>
    decreases field.len(),
{
    if field.len() == 0 {
        Seq::empty()
    } else if field.last() == ':' || field.last() == '\\' {
        terse_escaped(field.drop_last()).push('\\').push(field.last())
    } else {
        terse_escaped(field.drop_last()).push(field.last())
    }
}

/// How a record is written in terse output.
pub open spec fn terse_record(fields: Seq<Seq<char>>) -> Seq<char>
    decreases fields.len(),
{
    if fields.len() == 0 {
        Seq::empty()
    } else if fields.len() == 1 {
        terse_escaped(fields[0])
    } else {
        terse_record(fields.drop_last()).push(':') + terse_escaped(fields.last())
    }
}

proof fn lemma_escaped_field_reads_back(before: Seq<char>, field: Seq<char>)
    requires
        !terse_state(before).1,
        terse_state(before).0.len() > 0,
        terse_state(before).0.last().len() == 0,
    ensures
        terse_state(before + terse_escaped(field)) == (
            terse_state(before).0.update(terse_state(before).0.len() - 1, field),
            false,
        ),
    decreases field.len(),
{
    let fields = terse_state(before).0;
    if field.len() == 0 {
        assert(before + terse_escaped(field) =~= before);
        assert(field =~= fields.last());
        assert(fields.update(fields.len() - 1, field) =~= fields);
    } else {
        let head = field.drop_last();
        let last = field.last();
        lemma_escaped_field_reads_back(before, head);
        let text = before + terse_escaped(head);
        let so_far = fields.update(fields.len() - 1, head);
        assert(grow_last(so_far, last) =~= fields.update(fields.len() - 1, field)) by {
            assert(head.push(last) =~= field);
        }
        if last == ':' || last == '\\' {
            let protected = text.push('\\');
            assert(protected.drop_last() =~= text);
            assert(terse_state(protected) == (so_far, true));
            let full = protected.push(last);
            assert(full.drop_last() =~= protected);
            assert(before + terse_escaped(field) =~= full);
        } else {
            let full = text.push(last);
            assert(full.drop_last() =~= text);
            assert(before + terse_escaped(field) =~= full);
        }
    }
}

/// Reading a terse record gives back the fields that were written, whatever
/// colons and backslashes they hold.
pub proof fn law_terse_records_read_back(fields: Seq<Seq<char>>)
    requires
        fields.len() > 0,
    ensures
        terse_fields(terse_record(fields)) == fields,
        !terse_state(terse_record(fields)).1,
    decreases fields.len(),
{
    let nothing = Seq::<char>::empty();
    if fields.len() == 1 {
        lemma_escaped_field_reads_back(nothing, fields[0]);
        assert(nothing + terse_escaped(fields[0]) =~= terse_record(fields));
        assert(terse_state(nothing).0.update(0, fields[0]) =~= fields);
    } else {
        let head = fields.drop_last();
        law_terse_records_read_back(head);
        let before = terse_record(head).push(':');
        assert(before.drop_last() =~= terse_record(head));
        assert(terse_state(before) == (head.push(nothing), false));
        lemma_escaped_field_reads_back(before, fields.last());
        assert(head.push(nothing).update(head.len() as int, fields.last()) =~= fields);
    }
}

fn split_record(line: &Vec<char>) -> (result: Vec<String>)
    ensures
        text::texts(result@) == terse_fields(line@),
{
    let mut fields: Vec<String> = Vec::new();
    let mut current: String = String::new();
    let mut escaped: bool = false;
    let mut at: usize = 0;
    assert(line@.take(0) =~= Seq::empty());
    assert(text::texts(fields@).push(current@) =~= seq![Seq::empty()]);
    while at < line.len()
        invariant
            at <= line.len(),
            terse_state(line@.take(at as int)) == (text::texts(fields@).push(current@), escaped),
        decreases line.len() - at,
    {
        let character: char = line[at];
        assert(line@.take(at + 1).drop_last() =~= line@.take(at as int));
        let ghost before = text::texts(fields@);
        if escaped {
            escaped = false;
            current.push(character);
            assert(before.push(current@) =~= grow_last(
                terse_state(line@.take(at as int)).0,
                character,
            ));
        } else if character == '\\' {
            escaped = true;
        } else if character == ':' {
            fields.push(current);
            current = String::new();
            assert(text::texts(fields@) =~= terse_state(line@.take(at as int)).0);
        } else {
            current.push(character);
            assert(before.push(current@) =~= grow_last(
                terse_state(line@.take(at as int)).0,
                character,
            ));
        }
        at = at + 1;
    }
    assert(line@.take(line.len() as int) =~= line@);
    let ghost before = fields@;
    fields.push(current);
    assert(text::texts(fields@) =~= text::texts(before).push(current@));
    fields
}

/// Splits `nmcli -t` output into records, honouring its `\:` and `\\` escapes.
pub fn parse_terse(output: &str) -> (result: Vec<Vec<String>>)
    ensures
        row_texts(result@) == terse_rows(text::lines(output@)),
{
    let lines: Vec<Vec<char>> = text::line_list(output);
    let ghost all = text::lines(output@);
    let mut rows: Vec<Vec<String>> = Vec::new();
    let mut at: usize = 0;
    assert(all.take(0) =~= Seq::empty());
    assert(row_texts(rows@) =~= Seq::empty());
    while at < lines.len()
        invariant
            at <= lines.len() == all.len(),
            forall|i: int| 0 <= i < lines.len() ==> (#[trigger] lines[i])@ == all[i],
            row_texts(rows@) == terse_rows(all.take(at as int)),
        decreases lines.len() - at,
    {
        assert(all.take(at + 1).drop_last() =~= all.take(at as int));
        assert(all.take(at + 1).last() == lines[at as int]@);
        let line: &Vec<char> = &lines[at];
        let (from, to) = text::trim_range(line.as_slice(), 0, line.len());
        assert(line@.subrange(0, line.len() as int) =~= line@);
        if from < to {
            let ghost before = rows@;
            let row: Vec<String> = split_record(line);
            rows.push(row);
            assert(row_texts(rows@) =~= row_texts(before).push(text::texts(row@)));
        }
        at = at + 1;
    }
    assert(all.take(all.len() as int) =~= all);
    rows
}

/// The command that lists devices with their type and active profile.
pub fn device_query() -> (result: Vec<String>)
    ensures
        text::texts(result@) == seq![
            "-t"@,
            "-f"@,
            "DEVICE,TYPE,CONNECTION"@,
            "device"@,
            "status"@,
        ],
{
    let result: Vec<String> = vec![
        "-t".to_owned(),
        "-f".to_owned(),
        "DEVICE,TYPE,CONNECTION".to_owned(),
        "device".to_owned(),
        "status".to_owned(),
    ];
    assert(text::texts(result@) =~= seq![
        "-t"@,
        "-f"@,
        "DEVICE,TYPE,CONNECTION"@,
        "device"@,
        "status"@,
    ]);
    result
}

/// The command that shows how IPv4 is configured on `profile`.
pub fn ipv4_query(profile: &str) -> (result: Vec<String>)
    ensures
        text::texts(result@) == seq![
            "-t"@,
            "-f"@,
            "ipv4.method,ipv4.addresses"@,
            "connection"@,
            "show"@,
            profile@,
        ],
{
    let result: Vec<String> = vec![
        "-t".to_owned(),
        "-f".to_owned(),
        "ipv4.method,ipv4.addresses".to_owned(),
        "connection".to_owned(),
        "show".to_owned(),
        profile.to_owned(),
    ];
    assert(text::texts(result@) =~= seq![
        "-t"@,
        "-f"@,
        "ipv4.method,ipv4.addresses"@,
        "connection"@,
        "show"@,
        profile@,
    ]);
    result
}

/// A device row that can be reconfigured: three fields, wired, with a profile.
pub open spec fn is_wired(row: Seq<Seq<char>>) -> bool {
    row.len() == 3 && row[1] == "ethernet"@ && row[2].len() > 0 && row[2] != "--"@
}

/// The wired rows, in order.
pub open spec fn wired_rows(rows: Seq<Seq<Seq<char>>>) -> Seq<Seq<Seq<char>>>
    decreases rows.len(),
{
    if rows.len() == 0 {
        Seq::empty()
    } else if is_wired(rows.last()) {
        wired_rows(rows.drop_last()).push(rows.last())
    } else {
        wired_rows(rows.drop_last())
    }
}

/// That `wired` lists the devices and profiles of `rows`.
pub open spec fn lists(wired: Seq<Wired>, rows: Seq<Seq<Seq<char>>>) -> bool {
    &&& wired.len() == rows.len()
    &&& forall|i: int|
        0 <= i < wired.len() ==> (#[trigger] wired[i]).device@ == rows[i][0] && wired[i].profile@
            == rows[i][2]
}

/// The wired devices in the output of [`device_query`].
pub fn wired_devices(devices: &str) -> (result: Vec<Wired>)
    ensures
        lists(result@, wired_rows(terse_rows(text::lines(devices@)))),
{
    let rows: Vec<Vec<String>> = parse_terse(devices);
    let ghost all = row_texts(rows@);
    let mut result: Vec<Wired> = Vec::new();
    let mut at: usize = 0;
    assert(all.take(0) =~= Seq::empty());
    while at < rows.len()
        invariant
            at <= rows.len(),
            all == row_texts(rows@),
            lists(result@, wired_rows(all.take(at as int))),
        decreases rows.len() - at,
    {
        assert(all.take(at + 1).drop_last() =~= all.take(at as int));
        assert(all.take(at + 1).last() == text::texts(rows[at as int]@));
        let row: &Vec<String> = &rows[at];
        if row.len() == 3 && text::same(row[1].as_str(), "ethernet") && !row[2].as_str().is_empty()
            && !text::same(row[2].as_str(), "--") {
            result.push(Wired { device: row[0].clone(), profile: row[2].clone() });
        }
        at = at + 1;
    }
    assert(all.take(all.len() as int) =~= all);
    result
}

/// The value of the last line that sets `key`, trimmed; empty where none does.
pub open spec fn setting(lines: Seq<Seq<char>>, key: Seq<char>) -> Seq<char>
    decreases lines.len(),
{
    if lines.len() == 0 {
        Seq::empty()
    } else {
        let line = lines.last();
        let at = text::find(line, ':');
        if at < line.len() && line.take(at) == key {
            text::trim(line.skip(at + 1))
        } else {
            setting(lines.drop_last(), key)
        }
    }
}

/// Method and addresses in the output of [`ipv4_query`].
pub fn ipv4_of(output: &str) -> (result: (String, String))
    ensures
        result.0@ == setting(text::lines(output@), "ipv4.method"@),
        result.1@ == setting(text::lines(output@), "ipv4.addresses"@),
{
    let lines: Vec<Vec<char>> = text::line_list(output);
    let ghost all = text::lines(output@);
    let mut method: String = String::new();
    let mut addresses: String = String::new();
    let mut at: usize = 0;
    assert(all.take(0) =~= Seq::empty());
    proof {
        reveal_strlit("ipv4.method");
        reveal_strlit("ipv4.addresses");
        assert("ipv4.method"@ != "ipv4.addresses"@) by {
            assert("ipv4.method"@.len() != "ipv4.addresses"@.len());
        }
    }
    while at < lines.len()
        invariant
            at <= lines.len() == all.len(),
            forall|i: int| 0 <= i < lines.len() ==> (#[trigger] lines[i])@ == all[i],
            "ipv4.method"@ != "ipv4.addresses"@,
            method@ == setting(all.take(at as int), "ipv4.method"@),
            addresses@ == setting(all.take(at as int), "ipv4.addresses"@),
        decreases lines.len() - at,
    {
        assert(all.take(at + 1).drop_last() =~= all.take(at as int));
        assert(all.take(at + 1).last() == lines[at as int]@);
        let line: &Vec<char> = &lines[at];
        let colon: usize = text::find_from(line.as_slice(), 0, ':');
        assert(line@.skip(0) =~= line@);
        if colon < line.len() {
            let key: String = text::string_of(line.as_slice(), 0, colon);
            let (from, to) = text::trim_range(line.as_slice(), colon + 1, line.len());
            let value: String = text::string_of(line.as_slice(), from, to);
            assert(line@.subrange(0, colon as int) =~= line@.take(colon as int));
            assert(line@.subrange(colon + 1, line.len() as int) =~= line@.skip(colon + 1));
            if text::same(key.as_str(), "ipv4.method") {
                method = value;
            } else if text::same(key.as_str(), "ipv4.addresses") {
                addresses = value;
            }
        }
        at = at + 1;
    }
    assert(all.take(all.len() as int) =~= all);
    (method, addresses)
}

/// The interface on the first route to everywhere among `rows`.
pub open spec fn default_interface(rows: Seq<Seq<char>>) -> Option<Seq<char>>
    decreases rows.len(),
{
    if rows.len() == 0 {
        None
    } else {
        let interface = text::first_word(rows[0]);
        let destination = text::first_word(text::after_first_word(rows[0]));
        if interface.len() > 0 && destination == "00000000"@ {
            Some(interface)
        } else {
            default_interface(rows.skip(1))
        }
    }
}

/// The route table without its heading line.
pub open spec fn without_heading(lines: Seq<Seq<char>>) -> Seq<Seq<char>> {
    if lines.len() == 0 {
        lines
    } else {
        lines.skip(1)
    }
}

/// The interface that carries the IPv4 default route, read out of the kernel's
/// own route table so that the guard does not depend on `nmcli` agreeing.
pub fn default_route_device(table: &str) -> (result: Option<String>)
    ensures
        match default_interface(without_heading(text::lines(table@))) {
            Some(interface) => result is Some && result->Some_0@ == interface,
            None => result is None,
        },
{
    let lines: Vec<Vec<char>> = text::line_list(table);
    let ghost all = text::lines(table@);
    let mut at: usize = 1;
    proof {
        reveal_strlit("00000000");
    }
    if lines.len() == 0 {
        return None;
    }
    while at < lines.len()
        invariant
            1 <= at <= lines.len() == all.len(),
            forall|i: int| 0 <= i < lines.len() ==> (#[trigger] lines[i])@ == all[i],
            default_interface(all.skip(1)) == default_interface(all.skip(at as int)),
            "00000000"@.len() == 8,
            all == text::lines(table@),
        decreases lines.len() - at,
    {
        let line: &Vec<char> = &lines[at];
        let ghost rest = all.skip(at as int);
        assert(rest[0] == line@);
        assert(rest.skip(1) =~= all.skip(at + 1));
        assert(line@.skip(0) =~= line@);
        let (from, to) = text::word_range(line.as_slice(), 0);
        let (next_from, next_to) = text::word_range(line.as_slice(), to);
        let interface: String = text::string_of(line.as_slice(), from, to);
        let destination: String = text::string_of(line.as_slice(), next_from, next_to);
        if !interface.as_str().is_empty() && text::same(destination.as_str(), "00000000") {
            return Some(interface);
        }
        at = at + 1;
    }
    None
}

/// The profile for one wired device, from what was learned about it.
pub open spec fn describes(
    profile: LanProfile,
    wired: Wired,
    details: Option<String>,
    default_device: Option<String>,
) -> bool {
    let (method, addresses) = match details {
        Some(output) => (
            setting(text::lines(output@), "ipv4.method"@),
            setting(text::lines(output@), "ipv4.addresses"@),
        ),
        None => (Seq::empty(), Seq::empty()),
    };
    &&& profile.device@ == wired.device@
    &&& profile.profile@ == wired.profile@
    &&& profile.method@ == method
    &&& profile.addresses@ == addresses
    &&& profile.carries_default_route == (default_device is Some && default_device->Some_0@
        == wired.device@)
}

/// Lists the wired profiles that can be reconfigured: `details` holds the output
/// of [`ipv4_query`] for each of `wired`, or nothing where it failed.
pub fn list_wired(
    wired: &Vec<Wired>,
    details: &Vec<Option<String>>,
    default_device: &Option<String>,
) -> (result: Vec<LanProfile>)
    requires
        details.len() == wired.len(),
    ensures
        result.len() == wired.len(),
        forall|i: int|
            0 <= i < wired.len() ==> describes(
                #[trigger] result[i],
                wired[i],
                details[i],
                *default_device,
            ),
{
    let mut profiles: Vec<LanProfile> = Vec::new();
    let mut at: usize = 0;
    while at < wired.len()
        invariant
            at <= wired.len() == details.len(),
            profiles.len() == at,
            forall|i: int|
                0 <= i < at ==> describes(
                    #[trigger] profiles[i],
                    wired[i],
                    details[i],
                    *default_device,
                ),
        decreases wired.len() - at,
    {
        let (method, addresses) = match &details[at] {
            Some(output) => ipv4_of(output.as_str()),
            None => (String::new(), String::new()),
        };
        let carries_default_route: bool = match default_device {
            Some(device) => text::same(device.as_str(), wired[at].device.as_str()),
            None => false,
        };
        profiles.push(
            LanProfile {
                device: wired[at].device.clone(),
                profile: wired[at].profile.clone(),
                method,
                addresses,
                carries_default_route,
            },
        );
        at = at + 1;
    }
    profiles
}

/// The command that brings `profile` up again so that a change takes hold.
pub open spec fn reactivation(profile: Seq<char>) -> Seq<Seq<char>> {
    seq!["--wait"@, "20"@, "connection"@, "up"@, profile]
}

fn reactivate(profile: &str) -> (result: Vec<String>)
    ensures
        text::texts(result@) == reactivation(profile@),
{
    let result: Vec<String> = vec![
        "--wait".to_owned(),
        "20".to_owned(),
        "connection".to_owned(),
        "up".to_owned(),
        profile.to_owned(),
    ];
    assert(text::texts(result@) =~= reactivation(profile@));
    result
}

/// The commands that put a profile on a fixed address: no gateway, and never
/// the default route.
pub fn set_static(target: &LanProfile, address: &[u8; 4], prefix: u8) -> (result: Vec<Vec<String>>)
    ensures
        row_texts(result@) == seq![
            seq![
                "connection"@,
                "modify"@,
                target.profile@,
                "ipv4.method"@,
                "manual"@,
                "ipv4.addresses"@,
                crate::netcfg::dotted_with_prefix(address@, prefix),
                "ipv4.gateway"@,
                ""@,
                "ipv4.never-default"@,
                "yes"@,
            ],
            reactivation(target.profile@),
        ],
{
    let change: Vec<String> = vec![
        "connection".to_owned(),
        "modify".to_owned(),
        target.profile.clone(),
        "ipv4.method".to_owned(),
        "manual".to_owned(),
        "ipv4.addresses".to_owned(),
        crate::netcfg::print_with_prefix(address, prefix),
        "ipv4.gateway".to_owned(),
        "".to_owned(),
        "ipv4.never-default".to_owned(),
        "yes".to_owned(),
    ];
    assert(text::texts(change@) =~= seq![
        "connection"@,
        "modify"@,
        target.profile@,
        "ipv4.method"@,
        "manual"@,
        "ipv4.addresses"@,
        crate::netcfg::dotted_with_prefix(address@, prefix),
        "ipv4.gateway"@,
        ""@,
        "ipv4.never-default"@,
        "yes"@,
    ]);
    let activate: Vec<String> = reactivate(target.profile.as_str());
    let result: Vec<Vec<String>> = vec![change, activate];
    assert(row_texts(result@) =~= seq![text::texts(change@), text::texts(activate@)]);
    result
}

/// The commands that put a profile back on DHCP.
pub fn set_dhcp(target: &LanProfile) -> (result: Vec<Vec<String>>)
    ensures
        row_texts(result@) == seq![
            seq![
                "connection"@,
                "modify"@,
                target.profile@,
                "ipv4.method"@,
                "auto"@,
                "ipv4.addresses"@,
                ""@,
                "ipv4.gateway"@,
                ""@,
                "ipv4.never-default"@,
                "no"@,
            ],
            reactivation(target.profile@),
        ],
{
    let change: Vec<String> = vec![
        "connection".to_owned(),
        "modify".to_owned(),
        target.profile.clone(),
        "ipv4.method".to_owned(),
        "auto".to_owned(),
        "ipv4.addresses".to_owned(),
        "".to_owned(),
        "ipv4.gateway".to_owned(),
        "".to_owned(),
        "ipv4.never-default".to_owned(),
        "no".to_owned(),
    ];
    assert(text::texts(change@) =~= seq![
        "connection"@,
        "modify"@,
        target.profile@,
        "ipv4.method"@,
        "auto"@,
        "ipv4.addresses"@,
        ""@,
        "ipv4.gateway"@,
        ""@,
        "ipv4.never-default"@,
        "no"@,
    ]);
    let activate: Vec<String> = reactivate(target.profile.as_str());
    let result: Vec<Vec<String>> = vec![change, activate];
    assert(row_texts(result@) =~= seq![text::texts(change@), text::texts(activate@)]);
    result
}

/// What a failed `nmcli` call is reported as.
pub fn failure(error_output: &str, status: &str) -> (result: String)
    ensures
        result@ == (if text::trim(error_output@).len() == 0 {
            "nmcli failed with "@ + status@
        } else {
            text::trim(error_output@)
        }),
{
    let mut otherwise: String = "nmcli failed with ".to_owned();
    otherwise.append(status);
    crate::netcfg::tool_failure(error_output, otherwise)
}

} // verus!
