//! Numbers are carried as the bit pattern of an IEEE-754 binary64 value. The
//! library decides on the pattern what can be decided there (zero, sign) and
//! leaves arithmetic and decimal notation to a host function that the caller
//! supplies.
use vstd::prelude::*;
use crate::common::expression::Operator;

verus! {

/// A binary64 value by its bits.
#[derive(Debug, Clone, Copy, PartialEq, Eq, Structural, Hash)]
pub struct Number {
    pub bits: u64,
}

/// The bit that holds the sign.
pub const SIGN_BIT: u64 = 0x8000_0000_0000_0000;

/// The bits of positive infinity; every larger pattern of a non-negative
/// sign is not a number.
pub const INFINITY_BITS: u64 = 0x7ff0_0000_0000_0000;

impl Number {
    /// The value with the bits `bits`.
    pub fn new(bits: u64) -> (n: Self)
        ensures
            n.bits == bits,
    {
        Number { bits }
    }

    /// Positive zero.
    pub open spec fn zero() -> Number {
        Number { bits: 0 }
    }

    /// Whether the value is zero of either sign.
    pub open spec fn is_zero(self) -> bool {
        self.bits == 0 || self.bits == SIGN_BIT
    }

    /// Whether the value is greater than zero; positive infinity is, a
    /// pattern that is not a number is not.
    pub open spec fn is_positive(self) -> bool {
        0 < self.bits <= INFINITY_BITS
    }

    /// Positive zero.
    pub fn make_zero() -> (n: Self)
        ensures
            n == Number::zero(),
    {
        Number { bits: 0 }
    }

    /// Whether the value is zero of either sign.
    pub fn zero_valued(&self) -> (b: bool)
        ensures
            b == self.is_zero(),
    {
        self.bits == 0 || self.bits == SIGN_BIT
    }

    /// Whether the value is greater than zero.
    pub fn positive(&self) -> (b: bool)
        ensures
            b == self.is_positive(),
    {
        0 < self.bits && self.bits <= INFINITY_BITS
    }
}

/// What the library asks of its host.
pub enum Request {
    /// The value that a decimal literal denotes.
    Literal(Vec<char>),
    /// The decimal notation of a value.
    Render(Number),
    /// The result of an arithmetic operator on two values.
    Binary(Operator, Number, Number),
    /// The lesser of two values.
    Lesser(Number, Number),
    /// The greater of two values.
    Greater(Number, Number),
    /// The square root of a value.
    Root(Number),
    /// The value of a count.
    Count(u64),
    /// To wait for that many seconds; the value is greater than zero.
    Delay(Number),
}

/// What the host answers: `number` to a request for a value, `text` to a
/// request for notation. The field that was not asked for is not read.
pub struct Reply {
    pub number: Number,
    pub text: Vec<char>,
}

impl Request {
    /// The requests that the library makes: it never asks to wait for a time
    /// that is not greater than zero.
    pub open spec fn proper(self) -> bool {
        match self {
            Request::Delay(n) => n.is_positive(),
            _ => true,
        }
    }
}

/// Holds of every value. A statement that some value exists names the value
/// through it, and a proof points at a value by stating it of that value.
pub open spec fn chosen<T>(x: T) -> bool {
    true
}

/// Whether `host` may be called with every request that the library makes.
pub open spec fn serves<H: Fn(Request) -> Reply>(host: &H) -> bool {
    forall|request: Request| request.proper() ==> #[trigger] host.requires((request,))
}

/// `host` may answer `request` with the value `n`.
pub open spec fn computes<H: Fn(Request) -> Reply>(host: &H, request: Request, n: Number) -> bool {
    exists|reply: Reply| #[trigger] host.ensures((request,), reply) && reply.number == n
}

/// `host` may read the decimal literal `text` as the value `n`.
pub open spec fn reads_literal<H: Fn(Request) -> Reply>(
    host: &H,
    text: Seq<char>,
    n: Number,
) -> bool {
    exists|literal: Vec<char>, reply: Reply|
        literal@ == text && #[trigger] host.ensures((Request::Literal(literal),), reply)
            && reply.number == n
}

/// `host` may write the value `n` as `text`.
pub open spec fn writes_number<H: Fn(Request) -> Reply>(
    host: &H,
    n: Number,
    text: Seq<char>,
) -> bool {
    exists|reply: Reply| #[trigger]
        host.ensures((Request::Render(n),), reply) && reply.text@ == text
}

/// Whether `host` answers every request for a value with one value only.
pub open spec fn single_valued<H: Fn(Request) -> Reply>(host: &H) -> bool {
    forall|request: Request, a: Reply, b: Reply|
        #![trigger host.ensures((request,), a), host.ensures((request,), b)]
        host.ensures((request,), a) && host.ensures((request,), b) ==> a.number == b.number
}

/// A host that answers with one value only gives one value.
pub proof fn computes_once<H: Fn(Request) -> Reply>(host: &H, request: Request, a: Number, b: Number)
    requires
        single_valued(host),
        computes(host, request, a),
        computes(host, request, b),
    ensures
        a == b,
{
    let x = choose|reply: Reply| #[trigger] host.ensures((request,), reply) && reply.number == a;
    let y = choose|reply: Reply| #[trigger] host.ensures((request,), reply) && reply.number == b;
    assert(host.ensures((request,), x) && host.ensures((request,), y));
}

/// Asks `host` for the value of a request.
pub fn ask<H: Fn(Request) -> Reply>(host: &H, request: Request) -> (n: Number)
    requires
        serves(host),
        request.proper(),
    ensures
        computes(host, request, n),
{
    let reply = host(request);
    reply.number
}

/// Asks `host` for the value of a decimal literal.
pub fn ask_literal<H: Fn(Request) -> Reply>(host: &H, literal: Vec<char>) -> (n: Number)
    requires
        serves(host),
    ensures
        reads_literal(host, literal@, n),
{
    let ghost text = literal@;
    let ghost copy = literal;
    let reply = host(Request::Literal(literal));
    assert(copy@ == text && host.ensures((Request::Literal(copy),), reply));
    reply.number
}

/// Asks `host` for the decimal notation of a value.
pub fn ask_notation<H: Fn(Request) -> Reply>(host: &H, n: Number) -> (text: Vec<char>)
    requires
        serves(host),
    ensures
        writes_number(host, n, text@),
{
    let reply = host(Request::Render(n));
    reply.text
}

} // verus!
