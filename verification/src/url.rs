//! The address of an item's state on the hub.

use vstd::prelude::*;
use vstd::string::*;

verus! {

/// The path that follows an item's name in the address of its state.
pub open spec fn state_suffix() -> Seq<char> {
    seq!['/', 's', 't', 'a', 't', 'e']
}

/// The address of the state of `item` below `base`: the two are joined by
/// exactly one separator where `base` ends in none or in one.
pub open spec fn state_url(base: Seq<char>, item: Seq<char>) -> Seq<char> {
    if base.len() > 0 && base.last() == '/' {
        base + item + state_suffix()
    } else {
        base + seq!['/'] + item + state_suffix()
    }
}

/// Builds the address of the state of `item` below the hub's base address.
pub fn item_state_url(base: &str, item: &str) -> (url: String)
    ensures
        url@ == state_url(base@, item@),
{
    let length = base.unicode_len();
    let mut url = String::from_str(base);
    if length == 0 || base.get_char(length - 1) != '/' {
        url.append("/");
    }
    url.append(item);
    url.append("/state");
    proof {
        reveal_strlit("/");
        reveal_strlit("/state");
        assert("/"@ =~= seq!['/']);
        assert("/state"@ =~= state_suffix());
    }
    url
}

} // verus!
