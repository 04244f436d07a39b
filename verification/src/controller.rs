//! The link to the coil controller: what is sent, and the one thing it answers.
use crate::double::Double;
use crate::packet;
use crate::packet::CONTROLLER_PACKET_LEN;
use vstd::prelude::*;

verus! {

/// Why a command is not sent.
pub const NOT_FINITE: &'static str = "controller outputs must be finite";

/// The packet for three coil outputs, refused where one of them is not finite.
pub fn controller_command(output_x: Double, output_y: Double, output_z: Double) -> (result: Result<
    [u8; CONTROLLER_PACKET_LEN],
    String,
>)
    ensures
        result is Ok == (output_x.finite() && output_y.finite() && output_z.finite()),
        result matches Ok(packet) ==> packet::commands(packet@, seq![output_x, output_y, output_z]),
        result matches Err(reason) ==> reason@ == NOT_FINITE@,
{
    if !output_x.is_finite() || !output_y.is_finite() || !output_z.is_finite() {
        return Err(NOT_FINITE.to_owned());
    }
    Ok(packet::build_controller_packet(output_x, output_y, output_z))
}

/// The controller's only reply, `Error` and a carriage return, sent when it
/// rejects a packet. An accepted packet produces no reply at all.
pub const CONTROLLER_ERROR_REPLY: [u8; 6] = [0x45, 0x72, 0x72, 0x6f, 0x72, 0x0d];

/// The bytes of [`CONTROLLER_ERROR_REPLY`].
pub open spec fn error_reply() -> Seq<u8> {
    seq![0x45u8, 0x72u8, 0x72u8, 0x6fu8, 0x72u8, 0x0du8]
}

/// How many replies stand in `bytes`, and the bytes at the end that a later
/// read may still make into one.
pub open spec fn count_replies(bytes: Seq<u8>) -> (nat, Seq<u8>)
    decreases bytes.len(),
{
    if bytes.len() < 6 {
        (0, bytes)
    } else if bytes.take(6) == error_reply() {
        let (count, tail) = count_replies(bytes.skip(6));
        (count + 1, tail)
    } else {
        count_replies(bytes.skip(1))
    }
}

proof fn lemma_count_bound(bytes: Seq<u8>)
    ensures
        count_replies(bytes).0 <= bytes.len(),
        count_replies(bytes).1.len() < 6,
    decreases bytes.len(),
{
    if bytes.len() >= 6 {
        lemma_count_bound(bytes.skip(6));
        lemma_count_bound(bytes.skip(1));
    }
}

/// A reply that is cut in two is still counted once: reading two pieces one
/// after the other counts what reading them at once counts.
pub proof fn law_cut_replies_count_once(bytes: Seq<u8>, more: Seq<u8>)
    ensures
        ({
            let (first, tail) = count_replies(bytes);
            let (second, end) = count_replies(tail + more);
            count_replies(bytes + more) == (first + second, end)
        }),
    decreases bytes.len(),
{
    if bytes.len() >= 6 {
        assert((bytes + more).take(6) =~= bytes.take(6));
        if bytes.take(6) == error_reply() {
            law_cut_replies_count_once(bytes.skip(6), more);
            assert((bytes + more).skip(6) =~= bytes.skip(6) + more);
        } else {
            law_cut_replies_count_once(bytes.skip(1), more);
            assert((bytes + more).skip(1) =~= bytes.skip(1) + more);
        }
    }
}

fn is_reply(bytes: &[u8], at: usize) -> (result: bool)
    requires
        at + 6 <= bytes.len(),
    ensures
        result == (bytes@.subrange(at as int, at + 6) == error_reply()),
{
    let mut index: usize = 0;
    let reply: [u8; 6] = CONTROLLER_ERROR_REPLY;
    assert(reply@ =~= error_reply());
    while index < 6
        invariant
            index <= 6,
            at + 6 <= bytes.len(),
            reply@ == error_reply(),
            forall|i: int| 0 <= i < index ==> bytes@[at + i] == error_reply()[i],
        decreases 6 - index,
    {
        if bytes[at + index] != reply[index] {
            assert(bytes@.subrange(at as int, at + 6)[index as int] != error_reply()[index as int]);
            return false;
        }
        index = index + 1;
    }
    assert(bytes@.subrange(at as int, at + 6) =~= error_reply());
    true
}

/// Counts rejected packets from the controller's return path.
///
/// Nothing else comes back over that link, so the count is the number of
/// commands that the coils never acted on.
#[derive(Debug, Clone)]
pub struct ControllerReplyCounter {
    tail: Vec<u8>,
}

impl View for ControllerReplyCounter {
    type V = Seq<u8>;

    /// The end of what has come in, up to an unfinished reply.
    closed spec fn view(&self) -> Seq<u8> {
        self.tail@
    }
}

impl Default for ControllerReplyCounter {
    fn default() -> (result: Self)
        ensures
            result@ == Seq::<u8>::empty(),
    {
        ControllerReplyCounter { tail: Vec::new() }
    }
}

impl ControllerReplyCounter {
    /// Rejections completed by `bytes`, including any that started in an
    /// earlier call.
    pub fn feed(&mut self, bytes: &[u8]) -> (result: usize)
        ensures
            (result as nat, final(self)@) == count_replies(old(self)@ + bytes@),
            final(self)@.len() < 6,
    {
        let ghost all = self.tail@ + bytes@;
        self.tail.extend_from_slice(bytes);
        assert(self.tail@ =~= all);
        let mut count: usize = 0;
        let mut at: usize = 0;
        assert(all.skip(0) =~= all);
        proof {
            lemma_count_bound(all);
        }
        while self.tail.len() - at >= 6
            invariant
                at <= self.tail.len(),
                self.tail@ == all,
                count <= at,
                count_replies(all) == (
                    count as nat + count_replies(all.skip(at as int)).0,
                    count_replies(all.skip(at as int)).1,
                ),
            decreases self.tail.len() - at,
        {
            let ghost rest = all.skip(at as int);
            assert(rest.take(6) =~= all.subrange(at as int, at + 6));
            assert(rest.skip(6) =~= all.skip(at + 6));
            assert(rest.skip(1) =~= all.skip(at + 1));
            if is_reply(self.tail.as_slice(), at) {
                count = count + 1;
                at = at + 6;
            } else {
                at = at + 1;
            }
        }
        let rest: Vec<u8> = self.tail.split_off(at);
        assert(rest@ =~= all.skip(at as int));
        self.tail = rest;
        count
    }

    pub fn reset(&mut self)
        ensures
            final(self)@ == Seq::<u8>::empty(),
    {
        self.tail = Vec::new();
    }
}

} // verus!
