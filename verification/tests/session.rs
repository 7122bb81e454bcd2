use orderbook::binary64::Binary64;
use orderbook::order::Side;
use orderbook::session::{respond, Action, ClientMessage, Incoming};

#[test]
fn orders_are_announced_and_the_connection_goes_on() {
    let price = Binary64::from_bits(9.5f64.to_bits());
    let amount = Binary64::from_bits(3.0f64.to_bits());
    let message = ClientMessage::CreateOrder { price, amount, side: Side::SELL };
    assert_eq!(
        respond(&Incoming::Message(message)),
        (Action::AnnounceOrder { price, amount, side: Side::SELL }, true)
    );
}

#[test]
fn only_a_close_or_a_failure_ends_a_connection() {
    assert_eq!(respond(&Incoming::Malformed), (Action::ReportMalformed, true));
    assert_eq!(respond(&Incoming::Other), (Action::AnnounceIgnored, true));
    assert_eq!(respond(&Incoming::Close), (Action::AnnounceClose, false));
    assert_eq!(respond(&Incoming::Failure), (Action::ReportFailure, false));
}
