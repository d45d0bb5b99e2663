//! What is asked of the service, and what it answers.

use vstd::prelude::*;
use vstd::string::*;

use crate::primes::primes::{law_primes_have_no_divisors, prime, Primes};
use crate::text::{quote, quoted};

verus! {

/// The number in a request.
#[derive(Clone, Copy, Debug, PartialEq, Eq, Structural)]
pub enum Number {
    /// An integer that fits in an i64.
    Signed(i64),
    /// An integer that fits in a u64.
    Unsigned(u64),
    /// A number that is not an integer, or fits in neither.
    Other,
}

/// A request that has been read.
///
/// Fields that are not known are ignored.
#[derive(Debug)]
pub struct Request {
    pub method: String,
    pub number: Number,
}

/// What a request comes to, or what is wrong with it. The request is what
/// reading it has given, or the text of the error.
pub open spec fn verdict(request: Result<Request, String>) -> Result<bool, Seq<char>> {
    match request {
        Err(e) => Err("Unable to deserialize request: "@ + e@),
        Ok(req) => if req.method@ != "isPrime"@ {
            Err("Unrecognized method: "@ + quoted(req.method@))
        } else {
            match req.number {
                Number::Signed(n) => Ok(prime(n as int)),
                Number::Unsigned(n) => Ok(prime(n as int)),
                Number::Other => Ok(false),
            }
        },
    }
}

/// How a verdict is answered.
pub open spec fn answer(v: Result<bool, Seq<char>>) -> Seq<char> {
    match v {
        Ok(is_prime) => "{\"method\":\"isPrime\",\"prime\":"@ + (if is_prime {
            "true"@
        } else {
            "false"@
        }) + "}\n"@,
        Err(e) => "{\"method\":\"isPrime\",\"error\":"@ + quoted(e) + "}\n"@,
    }
}

/// What a `Result` says.
pub open spec fn said(r: Result<bool, String>) -> Result<bool, Seq<char>> {
    match r {
        Ok(b) => Ok(b),
        Err(e) => Err(e@),
    }
}

/// Takes a request that has been read; if valid, determine if it's prime.
///
/// If the request is _malformed_, return an error.
pub fn process_request(request: Result<Request, String>, primes: &mut Primes) -> (r: Result<
    bool,
    String,
>)
    requires
        old(primes).wf(),
    ensures
        said(r) == verdict(request),
        match request {
            Err(e) => r is Err && r->Err_0@ == "Unable to deserialize request: "@ + e@,
            Ok(req) => if req.method@ == "isPrime"@ {
                r is Ok && r->Ok_0 == match req.number {
                    Number::Signed(n) => prime(n as int),
                    Number::Unsigned(n) => prime(n as int),
                    Number::Other => false,
                }
            } else {
                r is Err && r->Err_0@ == "Unrecognized method: "@ + quoted(req.method@)
            },
        },
        final(primes).wf(),
        old(primes)@.is_prefix_of(final(primes)@),
{
    let req = match request {
        Ok(req) => req,
        Err(e) => {
            let mut text = String::from_str("Unable to deserialize request: ");
            text.append(e.as_str());
            return Err(text);
        },
    };
    if req.method != String::from_str("isPrime") {
        let mut text = String::from_str("Unrecognized method: ");
        let method = quote(req.method.as_str());
        text.append(method.as_str());
        return Err(text);
    }
    let n: u64 = match req.number {
        // If it's not an integer, it can't possibly be prime.
        Number::Other => {
            return Ok(false);
        },
        Number::Unsigned(n) => n,
        Number::Signed(n) => {
            // Not only is this an easy false, it also guarantees that n can
            // be safely cast to a u64, which is what our `Primes::is_prime()`
            // method wants.
            if n < 2 {
                return Ok(false);
            }
            n as u64
        },
    };
    Ok(primes.is_prime(n))
}

/// The line to be sent for a result.
pub fn response(result: &Result<bool, String>) -> (r: String)
    ensures
        r@ == answer(said(*result)),
{
    let mut text = String::new();
    match result {
        Ok(is_prime) => {
            text.append("{\"method\":\"isPrime\",\"prime\":");
            if *is_prime {
                text.append("true");
            } else {
                text.append("false");
            }
        },
        Err(e) => {
            text.append("{\"method\":\"isPrime\",\"error\":");
            let error = quote(e.as_str());
            text.append(error.as_str());
        },
    }
    text.append("}\n");
    assert(text@ =~= answer(said(*result)));
    text
}

/// What a client waits for.
pub enum Input {
    /// A line, as it was read; `None` where there are no more.
    Line(Option<Result<Request, String>>),
    /// The client cannot be read from.
    Unread,
}

/// What is done for a client: the line to be sent, if any, and whether to stop
/// listening.
pub struct Action {
    pub write: Option<String>,
    pub done: bool,
}

/// Takes what was read from a client. The connection is closed at its end, at
/// an error, and after a malformed request.
pub fn handle(input: Input, primes: &mut Primes) -> (r: Action)
    requires
        old(primes).wf(),
    ensures
        final(primes).wf(),
        old(primes)@.is_prefix_of(final(primes)@),
        match input {
            Input::Line(Some(request)) => {
                &&& r.write is Some
                &&& r.write->Some_0@ == answer(verdict(request))
                &&& r.done == (verdict(request) is Err)
                &&& request matches Ok(req) ==> (req.method@ == "isPrime"@ ==> {
                    &&& !r.done
                    &&& r.write->Some_0@ == answer(
                        Ok(
                            match req.number {
                                Number::Signed(n) => prime(n as int),
                                Number::Unsigned(n) => prime(n as int),
                                Number::Other => false,
                            },
                        ),
                    )
                })
            },
            _ => r.write is None && r.done,
        },
{
    match input {
        Input::Line(Some(request)) => {
            let result = process_request(request, primes);
            Action { write: Some(response(&result)), done: result.is_err() }
        },
        _ => Action { write: None, done: true },
    }
}

/// A request whose method is the right one is answered by whether its number is
/// at least two and has no divisor from two on below itself, whatever the
/// number; one that is no integer is not prime. Any other request is malformed.
pub proof fn law_requests_are_answered_by_primality(req: Request, e: String)
    ensures
        verdict(Err(e)) is Err,
        req.method@ != "isPrime"@ ==> verdict(Ok(req)) is Err,
        req.method@ == "isPrime"@ ==> match req.number {
            Number::Signed(n) => verdict(Ok(req)) is Ok && (verdict(Ok(req))->Ok_0 <==> n >= 2
                && forall|d: int| 2 <= d < n ==> #[trigger] (n as int % d) != 0),
            Number::Unsigned(n) => verdict(Ok(req)) is Ok && (verdict(Ok(req))->Ok_0 <==> n >= 2
                && forall|d: int| 2 <= d < n ==> #[trigger] (n as int % d) != 0),
            Number::Other => verdict(Ok(req)) == Ok::<bool, Seq<char>>(false),
        },
{
    match req.number {
        Number::Signed(n) => law_primes_have_no_divisors(n as int),
        Number::Unsigned(n) => law_primes_have_no_divisors(n as int),
        Number::Other => {},
    }
}

/// The lines that are sent, letter by letter.
pub proof fn law_lines_that_are_sent(e: Seq<char>)
    ensures
        answer(Ok(true)) == "{\"method\":\"isPrime\",\"prime\":true}\n"@,
        answer(Ok(false)) == "{\"method\":\"isPrime\",\"prime\":false}\n"@,
        answer(Err(e)) == "{\"method\":\"isPrime\",\"error\":"@ + quoted(e) + "}\n"@,
{
    reveal_strlit("{\"method\":\"isPrime\",\"prime\":");
    reveal_strlit("true");
    reveal_strlit("false");
    reveal_strlit("}\n");
    reveal_strlit("{\"method\":\"isPrime\",\"prime\":true}\n");
    reveal_strlit("{\"method\":\"isPrime\",\"prime\":false}\n");
    assert(answer(Ok(true)) =~= "{\"method\":\"isPrime\",\"prime\":true}\n"@);
    assert(answer(Ok(false)) =~= "{\"method\":\"isPrime\",\"prime\":false}\n"@);
}

} // verus!
