//! Quotes, fetch errors, and the fetcher that brings quotes from the provider.
use vstd::prelude::*;

verus! {

/// A snapshot of one symbol's market state at fetch time.
///
/// The numeric fields hold IEEE-754 single-precision values by their bit
/// patterns (`f32::to_bits`), so that they can be stored and compared exactly.
#[derive(Debug)]
pub struct QuoteResponse {
    pub symbol: String,
    pub change: u32,
    pub change_percent: u32,
    pub delayed_price: u32,
    pub close: u32,
}

/// The mathematical value of a quote.
pub struct QuoteView {
    pub symbol: Seq<char>,
    pub change: u32,
    pub change_percent: u32,
    pub delayed_price: u32,
    pub close: u32,
}

impl View for QuoteResponse {
    type V = QuoteView;

    open spec fn view(&self) -> QuoteView {
        QuoteView {
            symbol: self.symbol@,
            change: self.change,
            change_percent: self.change_percent,
            delayed_price: self.delayed_price,
            close: self.close,
        }
    }
}

impl QuoteResponse {
    /// An independent copy of this quote.
    pub fn duplicate(&self) -> (r: QuoteResponse)
        ensures
            r@ == self@,
    {
        QuoteResponse {
            symbol: self.symbol.clone(),
            change: self.change,
            change_percent: self.change_percent,
            delayed_price: self.delayed_price,
            close: self.close,
        }
    }
}

/// Why a quote could not be had.
#[derive(Debug, Clone, Copy, PartialEq, Eq, Structural)]
pub enum FetchError {
    /// The provider could not be reached.
    Network,
    /// The provider's answer did not hold a quote.
    Decode,
    /// The provider answered with this non-success HTTP status.
    Upstream(u16),
    /// A batch asked for more symbols than the configured cap.
    TooManySymbols,
}

/// The outcome of one lookup.
pub type QuoteResult = Result<QuoteResponse, FetchError>;

/// The single-precision value with bit pattern `b` is finite: its exponent
/// field is not all ones (which marks infinities and NaNs).
pub open spec fn finite_bits(b: u32) -> bool {
    (b >> 23u32) & 0xffu32 != 0xffu32
}

/// Every numeric field of the quote is finite.
pub open spec fn quote_finite(q: QuoteView) -> bool {
    finite_bits(q.change) && finite_bits(q.change_percent) && finite_bits(q.delayed_price) && finite_bits(q.close)
}

/// Whether the single-precision value with bit pattern `b` is finite.
pub fn is_finite_bits(b: u32) -> (r: bool)
    ensures
        r == finite_bits(b),
{
    (b >> 23u32) & 0xffu32 != 0xffu32
}

impl QuoteResponse {
    /// Whether every numeric field is finite.
    pub fn is_finite(&self) -> (r: bool)
        ensures
            r == quote_finite(self@),
    {
        is_finite_bits(self.change) && is_finite_bits(self.change_percent) && is_finite_bits(self.delayed_price)
            && is_finite_bits(self.close)
    }
}

/// What a fetch outcome counts as: a quote with a non-finite field is a
/// payload that did not decode; anything else stands as it came.
pub open spec fn accepted(f: Result<QuoteView, FetchError>) -> Result<QuoteView, FetchError> {
    match f {
        Ok(q) => if quote_finite(q) {
            Ok(q)
        } else {
            Err(FetchError::Decode)
        },
        Err(e) => Err(e),
    }
}

/// An independent copy of an outcome.
pub fn copy_result(r: &QuoteResult) -> (c: QuoteResult)
    ensures
        result_view(c) == result_view(*r),
{
    match r {
        Ok(q) => Ok(q.duplicate()),
        Err(e) => Err(*e),
    }
}

/// The mathematical value of an outcome.
pub open spec fn result_view(r: QuoteResult) -> Result<QuoteView, FetchError> {
    match r {
        Ok(q) => Ok(q@),
        Err(e) => Err(e),
    }
}

/// Brings one symbol's quote from the provider; one call is one request.
pub trait Fetcher {
    fn fetch(&mut self, symbol: &str) -> QuoteResult;
}

} // verus!
