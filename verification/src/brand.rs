//! The name of the product whose quotas are metered.

use crate::text::{from_chars, to_chars};
use vstd::prelude::*;

verus! {

/// The name of this package, which begins with that of the product.
pub const PACKAGE: &'static str = "claude_o_meter";

/// The name of the product as it stands in commands and identifiers.
pub open spec fn product() -> Seq<char> {
    "claude_o_meter"@.take(6)
}

/// The name of the product as it stands in a text.
pub open spec fn product_title() -> Seq<char> {
    seq!['C'] + product().skip(1)
}

/// The name of the product as it stands in commands and identifiers.
pub fn product_name() -> (r: String)
    ensures
        r@ == product(),
{
    proof {
        reveal_strlit("claude_o_meter");
    }
    let r = from_chars(&to_chars(PACKAGE), 0, 6);
    assert(r@ =~= product());
    r
}

/// The name of the product as it stands in a text.
pub fn product_heading() -> (r: String)
    ensures
        r@ == product_title(),
{
    proof {
        reveal_strlit("claude_o_meter");
    }
    let mut r = String::new();
    r.push('C');
    r.append(from_chars(&to_chars(PACKAGE), 1, 6).as_str());
    assert(r@ =~= product_title());
    r
}

/// The command to log in again.
pub open spec fn login_command() -> Seq<char> {
    "`"@ + product() + " login`"@
}

/// Appends the command to log in again.
pub fn push_login_command(out: &mut String)
    ensures
        final(out)@ == old(out)@ + login_command(),
{
    out.append("`");
    out.append(product_name().as_str());
    out.append(" login`");
    assert(out@ =~= old(out)@ + login_command());
}

} // verus!
