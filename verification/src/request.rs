//! What the status of a response decides: whether a frame filter is made.

use vstd::prelude::*;
use vstd::string::{StrSliceExecFns, StringExecFns};
use crate::filter::FilterState;
use crate::response::ResponseState;

verus! {

/// The only status on which a response body is read.
pub const STATUS_OK: u16 = 200;

/// The decimal digits, in order.
pub const DIGITS: &'static str = "0123456789";

/// The decimal digit of `d`, for `d` below ten.
pub open spec fn digit(d: nat) -> char {
    DIGITS@[d as int]
}

/// The decimal numeral of `n`, without leading zeros.
pub open spec fn decimal(n: nat) -> Seq<char>
    decreases n,
{
    if n < 10 {
        seq![digit(n)]
    } else {
        decimal(n / 10).push(digit(n % 10))
    }
}

/// What the text of a failure begins with; the status follows.
pub const MESSAGE_HEAD: &'static str = "Server returned status code ";

/// The text of the failure for a response with status `status_code`.
pub open spec fn status_message(status_code: nat) -> Seq<char> {
    MESSAGE_HEAD@ + decimal(status_code)
}

/// The server answered with a status other than `STATUS_OK`.
#[derive(Clone, Copy, Debug, PartialEq, Eq, Structural)]
pub struct StatusError {
    /// The status that the server returned.
    pub status_code: u16,
}

/// The one-character text of a decimal digit.
fn digit_text(d: u16) -> (text: &'static str)
    requires
        d < 10,
    ensures
        text@ == seq![digit(d as nat)],
{
    proof {
        reveal_strlit("0123456789");
    }
    let at: usize = d as usize;
    let text = DIGITS.substring_ascii(at, at + 1);
    assert(text@ =~= seq![digit(d as nat)]);
    text
}

/// Appends the decimal numeral of `n` to `text`.
fn push_decimal(text: &mut String, n: u16)
    ensures
        final(text)@ == old(text)@ + decimal(n as nat),
    decreases n,
{
    if n >= 10 {
        push_decimal(text, n / 10);
    }
    text.append(digit_text(n % 10));
    assert(text@ =~= old(text)@ + decimal(n as nat));
}

impl StatusError {
    /// The text of this failure; it names the status.
    pub fn message(&self) -> (text: String)
        ensures
            text@ == status_message(self.status_code as nat),
    {
        let mut text = String::from_str(MESSAGE_HEAD);
        push_decimal(&mut text, self.status_code);
        text
    }
}

/// Decides on the status of a response whether its body is read: on
/// `STATUS_OK` a fresh frame filter is made, on any other status the
/// request fails with that status and no filter exists.
pub fn open_conversation(status_code: u16, expect_begin_message: bool) -> (result: Result<
    ResponseState,
    StatusError,
>)
    ensures
        match result {
            Ok(state) => status_code == STATUS_OK && state@ == FilterState::initial(
                expect_begin_message,
            ),
            Err(error) => status_code != STATUS_OK && error.status_code == status_code,
        },
{
    if status_code != STATUS_OK {
        return Err(StatusError { status_code });
    }
    Ok(ResponseState::new(expect_begin_message))
}

} // verus!
