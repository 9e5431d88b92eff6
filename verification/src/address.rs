//! Where the server tells people to look for it.

use crate::text;
use vstd::prelude::*;
use vstd::string::*;

verus! {

/// The address to go to: that of this machine where the server listens on all of
/// them, otherwise the one that it listens on.
pub open spec fn shown_address(bind: Seq<char>, port: u16) -> Seq<char> {
    (if bind == "0.0.0.0"@ || bind == "::"@ {
        "127.0.0.1"@
    } else {
        bind
    }) + ":"@ + text::decimal_digits(port as nat)
}

/// Writes the address to go to.
pub fn display_addr(bind: &str, port: u16) -> (r: String)
    ensures
        r@ == shown_address(bind@, port),
{
    let host = if text::same_text(bind, "0.0.0.0") || text::same_text(bind, "::") {
        "127.0.0.1"
    } else {
        bind
    };
    let mut s = String::from_str(host);
    s.append(":");
    s.append(text::decimal(port as u64).as_str());
    assert(s@ =~= shown_address(bind@, port));
    s
}

/// The address that is shown ends with a colon and the port. What stands before that
/// is what the server listens on, unless that is every address of this machine: then
/// it is the one by which the machine reaches itself.
pub proof fn law_address_leads_to_the_server(bind: Seq<char>, port: u16) -> (number: Seq<char>)
    ensures
        text::is_number(number, port as int),
        bind == "0.0.0.0"@ || bind == "::"@ ==> shown_address(bind, port) == "127.0.0.1"@
            + seq![':'] + number,
        bind != "0.0.0.0"@ && bind != "::"@ ==> shown_address(bind, port) == bind + seq![':']
            + number,
{
    reveal_strlit(":");
    assert(":"@ =~= seq![':']);
    text::law_decimal_is_a_number(port as u64);
    text::decimal_digits(port as nat)
}

} // verus!
