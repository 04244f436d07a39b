//! The links to the instruments: when to open them, how old their news is, and
//! what they are asked.
//!
//! Times are nanoseconds on a clock of the caller's that does not run back,
//! unless they are said to come from the wall clock.
use crate::double::Double;
use crate::text;
use vstd::prelude::*;

verus! {

/// 15 s: a sensor that has been silent for longer is reopened.
pub const SENSOR_RECONNECT_AFTER: u128 = 15_000_000_000;

/// 10 s: how often a reconnect is tried while a link stays away.
pub const RECONNECT_INTERVAL: u128 = 10_000_000_000;

/// 500 ms: how often the handshake is repeated until the sensor answers.
pub const HANDSHAKE_INTERVAL: u128 = 500_000_000;

/// What asks the sensor to start: `*00WE` and a carriage return.
pub const HANDSHAKE: [u8; 6] = [0x2A, 0x30, 0x30, 0x57, 0x45, 0x0D];

/// How long ago `then` was, on a clock that may have been set back.
pub open spec fn since(then: u128, now: u128) -> u128 {
    if then <= now {
        (now - then) as u128
    } else {
        0
    }
}

pub(crate) fn elapsed(then: u128, now: u128) -> (result: u128)
    ensures
        result == since(then, now),
{
    if then <= now {
        now - then
    } else {
        0
    }
}

/// That three readings are the same numbers.
pub open spec fn same_reading(left: Seq<Double>, right: Seq<Double>) -> bool {
    left[0].equals(right[0]) && left[1].equals(right[1]) && left[2].equals(right[2])
}

/// When the sensor last spoke, and when it last said something new.
#[derive(Debug, Clone, Copy, PartialEq)]
pub struct SensorClock {
    pub last_packet: Option<u128>,
    /// On the wall clock, which goes on while the machine is suspended.
    pub last_packet_wall: Option<u128>,
    pub last_change: Option<u128>,
    pub last_raw: Option<[Double; 3]>,
    /// Whether a second packet has come: from one alone nothing can be told to
    /// stand still.
    pub followed: bool,
}

/// That nothing has been heard.
pub open spec fn unheard(clock: SensorClock) -> bool {
    clock.last_packet is None && clock.last_packet_wall is None && clock.last_change is None
        && clock.last_raw is None && !clock.followed
}

impl Default for SensorClock {
    fn default() -> (result: Self)
        ensures
            unheard(result),
    {
        SensorClock {
            last_packet: None,
            last_packet_wall: None,
            last_change: None,
            last_raw: None,
            followed: false,
        }
    }
}

impl SensorClock {
    /// Age of the newest packet; `None` before the first.
    ///
    /// The larger of what the two clocks say: the monotonic one stands still
    /// while the machine is suspended, and the wall clock may be set back.
    pub open spec fn age_at(self, now: u128, wall: u128) -> Option<u128> {
        match self.last_packet {
            None => None,
            Some(packet) => {
                let monotonic = since(packet, now);
                let on_wall = match self.last_packet_wall {
                    Some(at) => since(at, wall),
                    None => 0,
                };
                Some(
                    if monotonic < on_wall {
                        on_wall
                    } else {
                        monotonic
                    },
                )
            },
        }
    }

    /// How long the counts have stood still; `None` before the second packet.
    pub open spec fn change_age_at(self, now: u128) -> Option<u128> {
        match self.last_change {
            Some(change) => if self.followed {
                Some(since(change, now))
            } else {
                None
            },
            None => None,
        }
    }

    /// The clock after a packet: a reading that differs from the last one
    /// restarts the change clock.
    pub open spec fn after_packet(self, now: u128, wall: u128, raw: [Double; 3]) -> SensorClock {
        let followed = self.last_packet is Some;
        if self.last_raw is Some && same_reading(self.last_raw->Some_0@, raw@) {
            SensorClock { last_packet: Some(now), last_packet_wall: Some(wall), followed, ..self }
        } else {
            SensorClock {
                last_packet: Some(now),
                last_packet_wall: Some(wall),
                last_change: Some(now),
                last_raw: Some(raw),
                followed,
            }
        }
    }

    /// The clock after one packet per entry of `times`, all with one reading.
    pub open spec fn after_packets(
        self,
        times: Seq<(u128, u128)>,
        raw: [Double; 3],
    ) -> SensorClock
        decreases times.len(),
    {
        if times.len() == 0 {
            self
        } else {
            self.after_packets(times.drop_last(), raw).after_packet(
                times.last().0,
                times.last().1,
                raw,
            )
        }
    }

    pub fn sensor_age(&self, now: u128, wall: u128) -> (result: Option<u128>)
        ensures
            result == self.age_at(now, wall),
    {
        match self.last_packet {
            None => None,
            Some(packet) => {
                let monotonic: u128 = elapsed(packet, now);
                let on_wall: u128 = match self.last_packet_wall {
                    Some(at) => elapsed(at, wall),
                    None => 0,
                };
                Some(
                    if monotonic < on_wall {
                        on_wall
                    } else {
                        monotonic
                    },
                )
            },
        }
    }

    pub fn sensor_change_age(&self, now: u128) -> (result: Option<u128>)
        ensures
            result == self.change_age_at(now),
    {
        match self.last_change {
            Some(change) => if self.followed {
                Some(elapsed(change, now))
            } else {
                None
            },
            None => None,
        }
    }

    /// A packet has come with these raw counts. The first one starts the change
    /// clock; after that only a real move restarts it, so that an unchanging
    /// sensor ages out.
    pub fn packet(&mut self, now: u128, wall: u128, raw: [Double; 3])
        ensures
            *final(self) == old(self).after_packet(now, wall, raw),
    {
        self.followed = self.last_packet.is_some();
        self.last_packet = Some(now);
        self.last_packet_wall = Some(wall);
        let unchanged: bool = match &self.last_raw {
            None => false,
            Some(last) => last[0].same(raw[0]) && last[1].same(raw[1]) && last[2].same(raw[2]),
        };
        if !unchanged {
            self.last_raw = Some(raw);
            self.last_change = Some(now);
        }
    }
}

/// A single packet has no age of its own: from a clock that has heard nothing,
/// one packet tells nothing of how long the counts have stood still.
pub proof fn law_one_packet_is_no_change(
    clock: SensorClock,
    first: u128,
    wall: u128,
    raw: [Double; 3],
    now: u128,
)
    requires
        unheard(clock),
    ensures
        clock.change_age_at(now) is None,
        clock.after_packet(first, wall, raw).change_age_at(now) is None,
        clock.after_packet(first, wall, raw).last_change == Some(first),
{
}

/// A sensor that keeps sending one reading goes on ageing: from the second packet
/// on, however many come with it, the counts have stood still since the first.
pub proof fn law_an_unchanging_sensor_ages(
    clock: SensorClock,
    first: u128,
    wall: u128,
    times: Seq<(u128, u128)>,
    raw: [Double; 3],
    now: u128,
)
    requires
        !raw@[0].nan() && !raw@[1].nan() && !raw@[2].nan(),
        !(clock.last_raw is Some && same_reading(clock.last_raw->Some_0@, raw@)),
        times.len() > 0,
    ensures
        clock.after_packet(first, wall, raw).after_packets(times, raw).change_age_at(now) == Some(
            since(first, now),
        ),
{
    lemma_unchanging(clock.after_packet(first, wall, raw), times, raw);
}

proof fn lemma_unchanging(clock: SensorClock, times: Seq<(u128, u128)>, raw: [Double; 3])
    requires
        !raw@[0].nan() && !raw@[1].nan() && !raw@[2].nan(),
        clock.last_raw == Some(raw),
        clock.last_packet is Some,
    ensures
        clock.after_packets(times, raw).last_raw == Some(raw),
        clock.after_packets(times, raw).last_change == clock.last_change,
        clock.after_packets(times, raw).last_packet is Some,
        times.len() > 0 ==> clock.after_packets(times, raw).followed,
    decreases times.len(),
{
    if times.len() > 0 {
        lemma_unchanging(clock, times.drop_last(), raw);
    }
}

/// When the last try of something was.
pub open spec fn interval_over(last: Option<u128>, now: u128, interval: u128) -> bool {
    last is None || since(last->Some_0, now) >= interval
}

fn is_over(last: Option<u128>, now: u128, interval: u128) -> (result: bool)
    ensures
        result == interval_over(last, now, interval),
{
    match last {
        None => true,
        Some(last) => elapsed(last, now) >= interval,
    }
}

/// Whether to send the handshake now.
pub fn handshake_is_due(sensor_ready: bool, last_handshake: Option<u128>, now: u128) -> (result: bool)
    ensures
        result == (!sensor_ready && interval_over(last_handshake, now, HANDSHAKE_INTERVAL)),
{
    !sensor_ready && is_over(last_handshake, now, HANDSHAKE_INTERVAL)
}

/// Whether to reopen the sensor port now: it is wanted, it has been silent for
/// too long, and the last try is long enough ago.
pub fn sensor_reconnect_is_due(
    intended: bool,
    sensor_age: Option<u128>,
    last_reconnect: Option<u128>,
    now: u128,
) -> (result: bool)
    ensures
        result == (intended && (sensor_age is None || sensor_age->Some_0 > SENSOR_RECONNECT_AFTER)
            && interval_over(last_reconnect, now, RECONNECT_INTERVAL)),
{
    let silent: bool = match sensor_age {
        None => true,
        Some(age) => age > SENSOR_RECONNECT_AFTER,
    };
    intended && silent && is_over(last_reconnect, now, RECONNECT_INTERVAL)
}

/// Whether to reopen the controller port now: it is wanted, it is closed, and
/// the last try is long enough ago. The firmware never times out its receive,
/// so reopening the port is the only thing that can zero the coils.
pub fn controller_reconnect_is_due(
    intended: bool,
    open: bool,
    last_reconnect: Option<u128>,
    now: u128,
) -> (result: bool)
    ensures
        result == (intended && !open && interval_over(last_reconnect, now, RECONNECT_INTERVAL)),
{
    intended && !open && is_over(last_reconnect, now, RECONNECT_INTERVAL)
}

/// A link as it is shown.
#[derive(Debug, Clone, Copy, PartialEq, Eq, Structural)]
pub enum LinkState {
    Off,
    Wait,
    On,
}

impl LinkState {
    pub fn from_open(open: bool) -> (result: Self)
        ensures
            result == (if open {
                LinkState::On
            } else {
                LinkState::Off
            }),
    {
        if open {
            LinkState::On
        } else {
            LinkState::Off
        }
    }

    /// The sensor link: on only while it is ready and its data is fresh.
    pub fn of_sensor(open: bool, ready: bool, age: Option<u128>) -> (result: Self)
        ensures
            result == (if !open {
                LinkState::Off
            } else if ready && !crate::control::stale(age) {
                LinkState::On
            } else {
                LinkState::Wait
            }),
    {
        if !open {
            LinkState::Off
        } else if ready && !crate::control::sensor_is_stale(age) {
            LinkState::On
        } else {
            LinkState::Wait
        }
    }
}

/// What a baud rate field says, or why it says nothing.
pub open spec fn baud(value: Seq<char>) -> Result<u32, Seq<char>> {
    match text::number(text::trim(value), u32::MAX as nat) {
        None => Err("must be a positive integer"@),
        Some(rate) => if rate == 0 {
            Err("must be greater than zero"@)
        } else {
            Ok(rate as u32)
        },
    }
}

pub fn parse_baud(value: &str) -> (result: Result<u32, String>)
    ensures
        match baud(value@) {
            Ok(rate) => result is Ok && result->Ok_0 == rate,
            Err(reason) => result is Err && result->Err_0@ == reason,
        },
{
    let value: String = text::trimmed(value);
    match text::read_number(value.as_str(), u32::MAX as u64) {
        None => Err("must be a positive integer".to_owned()),
        Some(rate) => if rate == 0 {
            Err("must be greater than zero".to_owned())
        } else {
            Ok(rate as u32)
        },
    }
}

/// What a port field says, or why it says nothing.
pub open spec fn tcp_port(value: Seq<char>) -> Result<u16, Seq<char>> {
    match text::number(text::trim(value), u16::MAX as nat) {
        None => Err("must be an integer from 1 to 65535"@),
        Some(port) => if port == 0 {
            Err("must be greater than zero"@)
        } else {
            Ok(port as u16)
        },
    }
}

pub fn parse_tcp_port(value: &str) -> (result: Result<u16, String>)
    ensures
        match tcp_port(value@) {
            Ok(port) => result is Ok && result->Ok_0 == port,
            Err(reason) => result is Err && result->Err_0@ == reason,
        },
{
    let value: String = text::trimmed(value);
    match text::read_number(value.as_str(), u16::MAX as u64) {
        None => Err("must be an integer from 1 to 65535".to_owned()),
        Some(port) => if port == 0 {
            Err("must be greater than zero".to_owned())
        } else {
            Ok(port as u16)
        },
    }
}

/// The port name and baud rate to open, or what to report instead. `what` names
/// the link.
pub open spec fn serial_request(what: Seq<char>, port: Seq<char>, rate: Seq<char>) -> Result<
    (Seq<char>, u32),
    Seq<char>,
> {
    match baud(rate) {
        Err(reason) => Err(what + " baud: "@ + reason),
        Ok(baud) => if text::trim(port).len() == 0 {
            Err(what + " port is empty"@)
        } else {
            Ok((text::trim(port), baud))
        },
    }
}

fn glued(first: &str, second: &str, third: &str) -> (result: String)
    ensures
        result@ == first@ + second@ + third@,
{
    let mut result: String = first.to_owned();
    result.append(second);
    result.append(third);
    result
}

/// Checks the fields of a serial link before its port is opened.
pub fn request_serial(what: &str, port: &str, rate: &str) -> (result: Result<(String, u32), String>)
    ensures
        match serial_request(what@, port@, rate@) {
            Ok((name, baud)) => result is Ok && result->Ok_0.0@ == name && result->Ok_0.1 == baud,
            Err(reason) => result is Err && result->Err_0@ == reason,
        },
{
    let baud: u32 = match parse_baud(rate) {
        Ok(baud) => baud,
        Err(reason) => return Err(glued(what, " baud: ", reason.as_str())),
    };
    let name: String = text::trimmed(port);
    if name.as_str().is_empty() {
        let mut reason: String = what.to_owned();
        reason.append(" port is empty");
        return Err(reason);
    }
    Ok((name, baud))
}

/// Checks the fields of the Magson link before it is opened.
pub fn request_magson(host: &str, port: &str) -> (result: Result<(String, u16), String>)
    ensures
        match tcp_port(port@) {
            Err(reason) => result is Err && result->Err_0@ == "Magson port: "@ + reason,
            Ok(number) => if text::trim(host@).len() == 0 {
                result is Err && result->Err_0@ == "Magson IP/host is empty"@
            } else {
                result is Ok && result->Ok_0.0@ == text::trim(host@) && result->Ok_0.1 == number
            },
        },
{
    let number: u16 = match parse_tcp_port(port) {
        Ok(number) => number,
        Err(reason) => {
            let mut message: String = "Magson port: ".to_owned();
            message.append(reason.as_str());
            return Err(message);
        },
    };
    let name: String = text::trimmed(host);
    if name.as_str().is_empty() {
        return Err("Magson IP/host is empty".to_owned());
    }
    Ok((name, number))
}

/// What has gone over the controller link since it was opened.
#[derive(Debug, Clone, Copy, PartialEq, Eq, Structural)]
pub struct LinkStats {
    pub sent: u64,
    pub rejected: u64,
    pub reject_reported: bool,
}

impl Default for LinkStats {
    fn default() -> (result: Self)
        ensures
            result == (LinkStats { sent: 0, rejected: 0, reject_reported: false }),
    {
        LinkStats { sent: 0, rejected: 0, reject_reported: false }
    }
}

impl LinkStats {
    /// A packet has been written.
    pub fn written(&mut self)
        ensures
            *final(self) == (LinkStats {
                sent: if old(self).sent < u64::MAX {
                    (old(self).sent + 1) as u64
                } else {
                    u64::MAX
                },
                ..*old(self)
            }),
    {
        self.sent = self.sent.saturating_add(1);
    }

    /// The controller has rejected `count` packets. Says whether to report it:
    /// once per connection, because at ten a second a bad cable would otherwise
    /// leave room for nothing else.
    pub fn rejections(&mut self, count: u64) -> (report: bool)
        ensures
            report == (count > 0 && !old(self).reject_reported),
            *final(self) == (LinkStats {
                sent: old(self).sent,
                rejected: if old(self).rejected + count <= u64::MAX {
                    (old(self).rejected + count) as u64
                } else {
                    u64::MAX
                },
                reject_reported: old(self).reject_reported || count > 0,
            }),
    {
        if count == 0 {
            return false;
        }
        self.rejected = self.rejected.saturating_add(count);
        let report: bool = !self.reject_reported;
        self.reject_reported = true;
        report
    }
}

/// What comes before in a list of ports: the code points decide, and where one
/// name is the beginning of the other, the shorter one.
pub open spec fn not_after(left: Seq<char>, right: Seq<char>) -> bool
    decreases left.len(),
{
    if left.len() == 0 {
        true
    } else if right.len() == 0 {
        false
    } else if left[0] != right[0] {
        left[0] < right[0]
    } else {
        not_after(left.skip(1), right.skip(1))
    }
}

proof fn lemma_not_after_total(left: Seq<char>, right: Seq<char>)
    ensures
        not_after(left, right) || not_after(right, left),
    decreases left.len(),
{
    if left.len() > 0 && right.len() > 0 && left[0] == right[0] {
        lemma_not_after_total(left.skip(1), right.skip(1));
    }
}

proof fn lemma_not_after_transitive(left: Seq<char>, middle: Seq<char>, right: Seq<char>)
    requires
        not_after(left, middle),
        not_after(middle, right),
    ensures
        not_after(left, right),
    decreases left.len(),
{
    if left.len() > 0 && left[0] == middle[0] && middle[0] == right[0] {
        lemma_not_after_transitive(left.skip(1), middle.skip(1), right.skip(1));
    }
}

fn comes_first(left: &Vec<char>, right: &Vec<char>) -> (result: bool)
    ensures
        result == not_after(left@, right@),
{
    let mut at: usize = 0;
    assert(left@.skip(0) =~= left@);
    assert(right@.skip(0) =~= right@);
    loop
        invariant
            at <= left.len(),
            at <= right.len(),
            not_after(left@, right@) == not_after(left@.skip(at as int), right@.skip(at as int)),
        decreases left.len() - at,
    {
        if at >= left.len() {
            return true;
        }
        if at >= right.len() {
            return false;
        }
        if left[at] != right[at] {
            return left[at] < right[at];
        }
        assert(left@.skip(at as int).skip(1) =~= left@.skip(at + 1));
        assert(right@.skip(at as int).skip(1) =~= right@.skip(at + 1));
        at = at + 1;
    }
}

/// That the names stand in order.
pub open spec fn in_order(names: Seq<Seq<char>>) -> bool {
    forall|i: int, j: int|
        0 <= i <= j < names.len() ==> not_after(#[trigger] names[i], #[trigger] names[j])
}

/// Puts `name` where it belongs among sorted names.
fn insert_sorted(names: &mut Vec<String>, name: String)
    requires
        in_order(text::texts(old(names)@)),
    ensures
        in_order(text::texts(final(names)@)),
        text::texts(final(names)@).to_multiset() == text::texts(old(names)@).to_multiset().insert(
            name@,
        ),
{
    let ghost before = text::texts(names@);
    let characters: Vec<char> = text::chars_of(name.as_str());
    let mut at: usize = 0;
    while at < names.len()
        invariant
            at <= names.len(),
            characters@ == name@,
            before == text::texts(names@),
            in_order(before),
            forall|i: int| 0 <= i < at ==> not_after(#[trigger] before[i], name@),
        ensures
            at <= names.len(),
            at < names.len() ==> !not_after(before[at as int], name@),
        decreases names.len() - at,
    {
        let other: Vec<char> = text::chars_of(names[at].as_str());
        assert(other@ == before[at as int]);
        if !comes_first(&other, &characters) {
            break;
        }
        at = at + 1;
    }
    names.insert(at, name);
    proof {
        let after = text::texts(names@);
        assert(after =~= before.insert(at as int, name@));
        broadcast use vstd::seq_lib::group_to_multiset_ensures;

        assert(before.insert(at as int, name@).to_multiset() =~= before.to_multiset().insert(
            name@,
        ));
        assert forall|i: int, j: int| 0 <= i <= j < after.len() implies not_after(
            #[trigger] after[i],
            #[trigger] after[j],
        ) by {
            lemma_not_after_total(after[i], after[j]);
            if i < at && j > at {
                assert(after[i] == before[i] && after[j] == before[j - 1]);
            } else if i < at && j < at {
                assert(after[i] == before[i] && after[j] == before[j]);
            } else if i > at {
                assert(after[i] == before[i - 1] && after[j] == before[j - 1]);
            } else if i == at && j > at {
                assert(after[j] == before[j - 1]);
                assert(!not_after(before[at as int], name@));
                lemma_not_after_total(before[at as int], name@);
                assert(not_after(before[at as int], before[j - 1]));
                lemma_not_after_transitive(name@, before[at as int], before[j - 1]);
            }
        }
    }
}

/// Lists the ports by their stable names, in order, ahead of the kernel's. A
/// suspend/resume re-enumerates USB and can rename a kernel port; the stable
/// name carries the adapter's serial number.
pub fn stable_first(by_id: &Vec<String>, ports: &Vec<String>) -> (result: Vec<String>)
    ensures
        result.len() == by_id.len() + ports.len(),
        in_order(text::texts(result@).take(by_id.len() as int)),
        text::texts(result@).take(by_id.len() as int).to_multiset() == text::texts(
            by_id@,
        ).to_multiset(),
        text::texts(result@).skip(by_id.len() as int) == text::texts(ports@),
{
    let mut names: Vec<String> = Vec::new();
    let ghost wanted = text::texts(by_id@);
    let mut at: usize = 0;
    proof {
        assert(text::texts(names@) =~= Seq::empty());
        assert(wanted.take(0) =~= Seq::empty());
    }
    while at < by_id.len()
        invariant
            at <= by_id.len(),
            names.len() == at,
            wanted == text::texts(by_id@),
            in_order(text::texts(names@)),
            text::texts(names@).to_multiset() == wanted.take(at as int).to_multiset(),
        decreases by_id.len() - at,
    {
        proof {
            broadcast use vstd::seq_lib::group_to_multiset_ensures;

            assert(wanted.take(at + 1) =~= wanted.take(at as int).push(wanted[at as int]));
        }
        let ghost before = names@;
        insert_sorted(&mut names, by_id[at].clone());
        proof {
            broadcast use vstd::seq_lib::group_to_multiset_ensures;

            assert(text::texts(names@).len() == text::texts(before).len() + 1) by {
                assert(text::texts(names@).to_multiset().len() == text::texts(
                    before,
                ).to_multiset().len() + 1);
            }
        }
        at = at + 1;
    }
    let ghost sorted = text::texts(names@);
    assert(wanted.take(at as int) =~= wanted);
    let mut next: usize = 0;
    while next < ports.len()
        invariant
            next <= ports.len(),
            names.len() == by_id.len() + next,
            sorted.len() == by_id.len(),
            text::texts(names@) == sorted + text::texts(ports@).take(next as int),
        decreases ports.len() - next,
    {
        let ghost before = names@;
        names.push(ports[next].clone());
        assert(text::texts(names@) =~= text::texts(before).push(ports[next as int]@));
        assert(text::texts(ports@).take(next + 1) =~= text::texts(ports@).take(next as int).push(
            ports[next as int]@,
        ));
        next = next + 1;
    }
    assert(text::texts(names@).take(by_id.len() as int) =~= sorted);
    assert(text::texts(names@).skip(by_id.len() as int) =~= text::texts(ports@));
    names
}

} // verus!
