//! Plain models of the host-facing data that every call touches: coins,
//! call metadata, and the response (attributes plus requested effects).

use vstd::prelude::*;

verus! {

/// A quantity of one native token: an amount of its smallest unit together
/// with the token's denomination.
#[derive(Clone, Debug, PartialEq, Eq)]
pub struct Coin {
    pub denom: String,
    pub amount: u128,
}

/// The sender of a call and the coins attached to it.
#[derive(Clone, Debug)]
pub struct MessageInfo {
    pub sender: String,
    pub funds: Vec<Coin>,
}

/// An effect a call asks the host to execute after it commits.
#[derive(Clone, Debug)]
pub enum CosmosMsg {
    /// Transfer `amount` from the contract's own balance to `to_address`.
    BankSend { to_address: String, amount: Vec<Coin> },
    /// Register the new token denomination `factory/<sender>/<subdenom>`.
    CreateDenom { sender: String, subdenom: String },
}

/// The successful outcome of a call: key-value attributes for the event log
/// and the effects to execute.
#[derive(Clone, Debug)]
pub struct Response {
    pub attributes: Vec<(String, String)>,
    pub messages: Vec<CosmosMsg>,
}

impl Response {
    /// A response with no attributes and no effects.
    pub fn new() -> (r: Response)
        ensures
            r.attributes@ == Seq::<(String, String)>::empty(),
            r.messages@ == Seq::<CosmosMsg>::empty(),
    {
        Response { attributes: Vec::new(), messages: Vec::new() }
    }

    /// The same response with one more attribute at the end.
    pub fn add_attribute(self, key: String, value: String) -> (r: Response)
        ensures
            r.attributes@ == self.attributes@.push((key, value)),
            r.messages@ == self.messages@,
    {
        let mut attributes = self.attributes;
        attributes.push((key, value));
        Response { attributes, messages: self.messages }
    }

    /// The same response with one more effect at the end.
    pub fn add_message(self, msg: CosmosMsg) -> (r: Response)
        ensures
            r.attributes@ == self.attributes@,
            r.messages@ == self.messages@.push(msg),
    {
        let mut messages = self.messages;
        messages.push(msg);
        Response { attributes: self.attributes, messages }
    }
}

} // verus!
