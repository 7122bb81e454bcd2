//! What a client connection does with what comes in.
use crate::binary64::Binary64;
use crate::order::Side;
use vstd::prelude::*;

verus! {

/// What a client may ask for.
#[derive(Clone, Copy, Debug, PartialEq, Eq, Structural)]
pub enum ClientMessage {
    CreateOrder { price: Binary64, amount: Binary64, side: Side },
}

/// What comes in on a connection.
#[derive(Clone, Copy, Debug, PartialEq, Eq, Structural)]
pub enum Incoming {
    /// A text that is a message.
    Message(ClientMessage),
    /// A text that is none.
    Malformed,
    /// The client closes the connection.
    Close,
    /// Anything else than a text.
    Other,
    /// The connection fails.
    Failure,
}

/// What is to be done about it.
#[derive(Clone, Copy, Debug, PartialEq, Eq, Structural)]
pub enum Action {
    AnnounceOrder { price: Binary64, amount: Binary64, side: Side },
    ReportMalformed,
    AnnounceClose,
    AnnounceIgnored,
    ReportFailure,
}

/// The answer to what came in.
pub open spec fn answer(incoming: Incoming) -> Action {
    match incoming {
        Incoming::Message(ClientMessage::CreateOrder { price, amount, side }) =>
            Action::AnnounceOrder { price, amount, side },
        Incoming::Malformed => Action::ReportMalformed,
        Incoming::Close => Action::AnnounceClose,
        Incoming::Other => Action::AnnounceIgnored,
        Incoming::Failure => Action::ReportFailure,
    }
}

/// Whether the connection ends with what came in.
pub open spec fn ends(incoming: Incoming) -> bool {
    incoming is Close || incoming is Failure
}

/// What to do about what came in, and whether to go on reading.
pub fn respond(incoming: &Incoming) -> (r: (Action, bool))
    ensures
        r.0 == answer(*incoming),
        r.1 == !ends(*incoming),
        match *incoming {
            Incoming::Message(ClientMessage::CreateOrder { price, amount, side }) => r.0
                == (Action::AnnounceOrder { price, amount, side }),
            Incoming::Malformed => r.0 is ReportMalformed,
            Incoming::Close => r.0 is AnnounceClose,
            Incoming::Other => r.0 is AnnounceIgnored,
            Incoming::Failure => r.0 is ReportFailure,
        },
        r.1 <==> !(*incoming is Close) && !(*incoming is Failure),
{
    match incoming {
        Incoming::Message(ClientMessage::CreateOrder { price, amount, side }) => (
            Action::AnnounceOrder { price: *price, amount: *amount, side: *side },
            true,
        ),
        Incoming::Malformed => (Action::ReportMalformed, true),
        Incoming::Close => (Action::AnnounceClose, false),
        Incoming::Other => (Action::AnnounceIgnored, true),
        Incoming::Failure => (Action::ReportFailure, false),
    }
}

/// All that a connection does about a row of things that come in.
pub open spec fn transcript(row: Seq<Incoming>) -> Seq<Action>
    decreases row.len(),
{
    if row.len() == 0 {
        Seq::empty()
    } else if ends(row[0]) {
        seq![answer(row[0])]
    } else {
        seq![answer(row[0])] + transcript(row.drop_first())
    }
}

/// A connection answers each thing that comes in, in turn, up to the first that ends it, which
/// neither a malformed message nor one that is not a text does; nothing after it is answered.
pub proof fn law_answers_until_the_end(row: Seq<Incoming>, last: int)
    requires
        0 <= last < row.len(),
        forall|i: int| 0 <= i < last ==> !ends(#[trigger] row[i]),
        ends(row[last]) || last + 1 == row.len(),
    ensures
        transcript(row).len() == last + 1,
        forall|i: int| 0 <= i <= last ==> #[trigger] transcript(row)[i] == answer(row[i]),
    decreases row.len(),
{
    if !ends(row[0]) {
        let rest = row.drop_first();
        if rest.len() > 0 {
            law_answers_until_the_end(rest, last - 1);
        }
        assert forall|i: int| 0 <= i <= last implies #[trigger] transcript(row)[i] == answer(
            row[i],
        ) by {
            if i > 0 {
                assert(transcript(row)[i] == transcript(rest)[i - 1]);
            }
        }
    }
}

/// Every order that a client asks for is announced, with the price, the amount and the side that
/// the client gave.
pub proof fn law_orders_are_announced_as_asked(price: Binary64, amount: Binary64, side: Side)
    ensures
        ({
            let asked = Incoming::Message(ClientMessage::CreateOrder { price, amount, side });
            &&& answer(asked) is AnnounceOrder
            &&& answer(asked)->price == price
            &&& answer(asked)->amount == amount
            &&& answer(asked)->side == side
        }),
{
}

/// What is done tells what came in: orders are announced for messages alone, and each of the other
/// answers is given to one thing alone. No two messages have the same answer.
pub proof fn law_answers_tell_apart(a: Incoming, b: Incoming)
    ensures
        answer(a) is AnnounceOrder <==> a is Message,
        answer(a) is ReportMalformed <==> a is Malformed,
        answer(a) is AnnounceClose <==> a is Close,
        answer(a) is AnnounceIgnored <==> a is Other,
        answer(a) is ReportFailure <==> a is Failure,
        answer(a) == answer(b) <==> a == b,
{
}

/// The connection goes on after everything but the client's closing it and its failing: after
/// every message, whatever it asks for, after a text that is none and after anything but a text.
pub proof fn law_connection_goes_on(incoming: Incoming)
    ensures
        ends(incoming) <==> incoming is Close || incoming is Failure,
        incoming is Message || incoming is Malformed || incoming is Other ==> !ends(incoming),
{
}

/// Every order that a client asks for before the connection closes or fails is announced as the
/// client asked for it, in its turn.
pub proof fn law_no_order_is_lost(row: Seq<Incoming>, i: int)
    requires
        0 <= i < row.len(),
        forall|j: int| 0 <= j < i ==> !(#[trigger] row[j] is Close) && !(row[j] is Failure),
    ensures
        i < transcript(row).len() <= row.len(),
        row[i] matches Incoming::Message(ClientMessage::CreateOrder { price, amount, side })
            ==> transcript(row)[i] == (Action::AnnounceOrder { price, amount, side }),
        row[i] is Close || row[i] is Failure ==> transcript(row).len() == i + 1,
    decreases row.len(),
{
    let rest = row.drop_first();
    if i > 0 {
        assert(!(row[0] is Close) && !(row[0] is Failure));
        law_no_order_is_lost(rest, i - 1);
        assert(transcript(row)[i] == transcript(rest)[i - 1]);
    } else if !ends(row[0]) && rest.len() > 0 {
        law_no_order_is_lost(rest, 0);
    }
}

} // verus!
