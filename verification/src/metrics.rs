//! What the services report of themselves.

use vstd::prelude::*;
use vstd::string::*;

verus! {

/// The class of an HTTP status.
pub open spec fn class_text(status: u16) -> Seq<char> {
    if 100 <= status <= 199 {
        "1xx"@
    } else if 200 <= status <= 299 {
        "2xx"@
    } else if 300 <= status <= 399 {
        "3xx"@
    } else if 400 <= status <= 499 {
        "4xx"@
    } else {
        "5xx"@
    }
}

/// The class of an HTTP status, not the status: one series for each class
/// bounds their number.
pub fn status_class(status: u16) -> (r: &'static str)
    ensures
        r@ == class_text(status),
{
    if 100 <= status && status <= 199 {
        "1xx"
    } else if 200 <= status && status <= 299 {
        "2xx"
    } else if 300 <= status && status <= 399 {
        "3xx"
    } else if 400 <= status && status <= 499 {
        "4xx"
    } else {
        "5xx"
    }
}

/// The class of a status is named by its first digit; what is no status of an
/// answer counts as a failure of the server.
pub proof fn classes_are_named_by_the_first_digit(status: u16)
    ensures
        class_text(status).len() == 3,
        class_text(status).skip(1) == "xx"@,
        100 <= status <= 599 ==> class_text(status)[0] as int == '0' as int + status / 100,
        !(100 <= status <= 599) ==> class_text(status)[0] == '5',
{
    reveal_strlit("1xx");
    reveal_strlit("2xx");
    reveal_strlit("3xx");
    reveal_strlit("4xx");
    reveal_strlit("5xx");
    reveal_strlit("xx");
    assert(class_text(status).skip(1) =~= "xx"@);
}

} // verus!
