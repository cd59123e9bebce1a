//! The entropy stage: what the bit-plane passes need of a binary coder.
//!
//! A sink takes one decision after the other and turns them into a byte
//! stream; a source over such a stream answers with one symbol after the
//! other. Both are seen through what went in: a sink through the decisions it
//! was given, a source through its byte stream and the probabilities it was
//! asked with.

use crate::arith::{arith_decoded, arith_encoded, decoding_inverts_encoding, kept_symbol, probabilities, ArithDecoder, ArithEncoder, Decision};
use crate::error::Result;
use crate::interleave::{gathering_inverts_interleaving, interleaved_decoded, interleaved_encoded, IxecDecoder, IxecEncoder};
use vstd::prelude::*;

verus! {

/// Which coder a compressed segment uses.
#[derive(Debug, Clone, Copy, PartialEq, Eq, Structural)]
pub enum EntropyKind {
    /// Binary arithmetic coder.
    Arithmetic,
    /// Interleaved coder.
    Interleaved,
}

/// The coder of a segment, from the flag of its header.
pub open spec fn coder_of(interleaved: bool) -> EntropyKind {
    if interleaved {
        EntropyKind::Interleaved
    } else {
        EntropyKind::Arithmetic
    }
}

/// The coder of a segment, from the flag of its header.
pub fn coder_for(interleaved: bool) -> (kind: EntropyKind)
    ensures
        kind == coder_of(interleaved),
{
    if interleaved {
        EntropyKind::Interleaved
    } else {
        EntropyKind::Arithmetic
    }
}

/// The byte stream of a sink that was given `decisions`.
pub open spec fn encoded(kind: EntropyKind, decisions: Seq<Decision>) -> Seq<u8> {
    match kind {
        EntropyKind::Arithmetic => arith_encoded(decisions),
        EntropyKind::Interleaved => interleaved_encoded(decisions),
    }
}

/// The symbol of a source over `bytes` that is asked with `p1_num / p1_den`
/// after it was asked with `asked`.
pub open spec fn decoded(
    kind: EntropyKind,
    bytes: Seq<u8>,
    asked: Seq<(u32, u32)>,
    p1_num: u32,
    p1_den: u32,
) -> u8 {
    match kind {
        EntropyKind::Arithmetic => arith_decoded(bytes, asked, p1_num, p1_den),
        EntropyKind::Interleaved => interleaved_decoded(bytes, asked, p1_num, p1_den),
    }
}

/// **A source reads back what a sink was given**, when it is asked with the
/// same probabilities in the same order.
pub proof fn source_reads_back(kind: EntropyKind, decisions: Seq<Decision>, k: int)
    requires
        0 <= k < decisions.len(),
    ensures
        decoded(
            kind,
            encoded(kind, decisions),
            probabilities(decisions.take(k)),
            decisions[k].p1_num,
            decisions[k].p1_den,
        ) == kept_symbol(decisions[k].symbol),
{
    match kind {
        EntropyKind::Arithmetic => {
            decoding_inverts_encoding(decisions, k);
        },
        EntropyKind::Interleaved => {
            gathering_inverts_interleaving(decisions, k);
        },
    }
}

/// The encoding side of the entropy stage.
pub trait BitSink: Sized {
    /// The coder behind the sink.
    spec fn kind(&self) -> EntropyKind;

    /// The decisions the sink was given.
    spec fn log(&self) -> Seq<Decision>;

    /// The sink is in the state that its decisions lead to.
    spec fn wf(&self) -> bool;

    /// Encode one symbol.
    fn put_bit(&mut self, symbol: u8, p1_num: u32, p1_den: u32)
        requires
            old(self).wf(),
        ensures
            final(self).wf(),
            final(self).kind() == old(self).kind(),
            final(self).log() == old(self).log().push(Decision { symbol, p1_num, p1_den }),
    ;

    /// Flush, and return the byte stream.
    fn finish_bits(self) -> (bytes: Vec<u8>)
        requires
            self.wf(),
        ensures
            bytes@ == encoded(self.kind(), self.log()),
    ;
}

/// The decoding side of the entropy stage.
pub trait BitSource: Sized {
    /// The coder behind the source.
    spec fn kind(&self) -> EntropyKind;

    /// The byte stream the source reads.
    spec fn channel(&self) -> Seq<u8>;

    /// The probabilities the source was asked with.
    spec fn asked(&self) -> Seq<(u32, u32)>;

    /// The source is in the state that its questions lead to.
    spec fn wf(&self) -> bool;

    /// Decode one symbol. Never fails.
    fn get_bit(&mut self, p1_num: u32, p1_den: u32) -> (r: Result<u8>)
        requires
            old(self).wf(),
        ensures
            final(self).wf(),
            final(self).kind() == old(self).kind(),
            final(self).channel() == old(self).channel(),
            final(self).asked() == old(self).asked().push((p1_num, p1_den)),
            r is Ok,
            r->Ok_0 <= 1,
            r->Ok_0 == decoded(
                old(self).kind(),
                old(self).channel(),
                old(self).asked(),
                p1_num,
                p1_den,
            ),
    ;
}

impl BitSink for ArithEncoder {
    open spec fn kind(&self) -> EntropyKind {
        EntropyKind::Arithmetic
    }

    open spec fn log(&self) -> Seq<Decision> {
        ArithEncoder::log(*self)
    }

    open spec fn wf(&self) -> bool {
        ArithEncoder::wf(*self)
    }

    fn put_bit(&mut self, symbol: u8, p1_num: u32, p1_den: u32) {
        self.encode_bit(symbol, p1_num, p1_den);
    }

    fn finish_bits(self) -> (bytes: Vec<u8>) {
        self.finish()
    }
}

impl BitSink for IxecEncoder {
    open spec fn kind(&self) -> EntropyKind {
        EntropyKind::Interleaved
    }

    open spec fn log(&self) -> Seq<Decision> {
        IxecEncoder::log(*self)
    }

    open spec fn wf(&self) -> bool {
        IxecEncoder::wf(*self)
    }

    fn put_bit(&mut self, symbol: u8, p1_num: u32, p1_den: u32) {
        self.encode_bit(symbol, p1_num, p1_den);
    }

    fn finish_bits(self) -> (bytes: Vec<u8>) {
        self.finish()
    }
}

impl<'a> BitSource for ArithDecoder<'a> {
    open spec fn kind(&self) -> EntropyKind {
        EntropyKind::Arithmetic
    }

    open spec fn channel(&self) -> Seq<u8> {
        ArithDecoder::channel(*self)
    }

    open spec fn asked(&self) -> Seq<(u32, u32)> {
        ArithDecoder::asked(*self)
    }

    open spec fn wf(&self) -> bool {
        ArithDecoder::wf(*self)
    }

    fn get_bit(&mut self, p1_num: u32, p1_den: u32) -> (r: Result<u8>) {
        self.decode_bit(p1_num, p1_den)
    }
}

impl<'a> BitSource for IxecDecoder<'a> {
    open spec fn kind(&self) -> EntropyKind {
        EntropyKind::Interleaved
    }

    open spec fn channel(&self) -> Seq<u8> {
        IxecDecoder::channel(*self)
    }

    open spec fn asked(&self) -> Seq<(u32, u32)> {
        IxecDecoder::asked(*self)
    }

    open spec fn wf(&self) -> bool {
        IxecDecoder::wf(*self)
    }

    fn get_bit(&mut self, p1_num: u32, p1_den: u32) -> (r: Result<u8>) {
        Ok(self.decode_bit(p1_num, p1_den))
    }
}

/// A sink of either kind.
pub enum EntropySink {
    /// Binary arithmetic coder.
    Arithmetic(ArithEncoder),
    /// Interleaved coder.
    Interleaved(IxecEncoder),
}

/// A source of either kind.
pub enum EntropySource<'a> {
    /// Binary arithmetic coder.
    Arithmetic(ArithDecoder<'a>),
    /// Interleaved coder.
    Interleaved(IxecDecoder<'a>),
}

impl BitSink for EntropySink {
    open spec fn kind(&self) -> EntropyKind {
        match self {
            EntropySink::Arithmetic(_) => EntropyKind::Arithmetic,
            EntropySink::Interleaved(_) => EntropyKind::Interleaved,
        }
    }

    open spec fn log(&self) -> Seq<Decision> {
        match self {
            EntropySink::Arithmetic(e) => ArithEncoder::log(*e),
            EntropySink::Interleaved(e) => IxecEncoder::log(*e),
        }
    }

    open spec fn wf(&self) -> bool {
        match self {
            EntropySink::Arithmetic(e) => ArithEncoder::wf(*e),
            EntropySink::Interleaved(e) => IxecEncoder::wf(*e),
        }
    }

    fn put_bit(&mut self, symbol: u8, p1_num: u32, p1_den: u32) {
        match self {
            EntropySink::Arithmetic(e) => {
                e.encode_bit(symbol, p1_num, p1_den);
            },
            EntropySink::Interleaved(e) => {
                e.encode_bit(symbol, p1_num, p1_den);
            },
        }
    }

    fn finish_bits(self) -> (bytes: Vec<u8>) {
        match self {
            EntropySink::Arithmetic(e) => e.finish(),
            EntropySink::Interleaved(e) => e.finish(),
        }
    }
}

impl<'a> BitSource for EntropySource<'a> {
    open spec fn kind(&self) -> EntropyKind {
        match self {
            EntropySource::Arithmetic(_) => EntropyKind::Arithmetic,
            EntropySource::Interleaved(_) => EntropyKind::Interleaved,
        }
    }

    open spec fn channel(&self) -> Seq<u8> {
        match self {
            EntropySource::Arithmetic(d) => ArithDecoder::channel(*d),
            EntropySource::Interleaved(d) => IxecDecoder::channel(*d),
        }
    }

    open spec fn asked(&self) -> Seq<(u32, u32)> {
        match self {
            EntropySource::Arithmetic(d) => ArithDecoder::asked(*d),
            EntropySource::Interleaved(d) => IxecDecoder::asked(*d),
        }
    }

    open spec fn wf(&self) -> bool {
        match self {
            EntropySource::Arithmetic(d) => ArithDecoder::wf(*d),
            EntropySource::Interleaved(d) => IxecDecoder::wf(*d),
        }
    }

    fn get_bit(&mut self, p1_num: u32, p1_den: u32) -> (r: Result<u8>) {
        match self {
            EntropySource::Arithmetic(d) => d.decode_bit(p1_num, p1_den),
            EntropySource::Interleaved(d) => Ok(d.decode_bit(p1_num, p1_den)),
        }
    }
}

impl EntropyKind {
    /// A fresh sink.
    pub fn make_sink(self) -> (s: EntropySink)
        ensures
            s.wf(),
            s.kind() == self,
            s.log() == Seq::<Decision>::empty(),
    {
        match self {
            EntropyKind::Arithmetic => EntropySink::Arithmetic(ArithEncoder::new()),
            EntropyKind::Interleaved => EntropySink::Interleaved(IxecEncoder::new()),
        }
    }

    /// A fresh source over `channel`. Never fails.
    pub fn make_source<'a>(self, channel: &'a [u8]) -> (r: Result<EntropySource<'a>>)
        ensures
            r is Ok,
            r->Ok_0.wf(),
            r->Ok_0.kind() == self,
            r->Ok_0.channel() == channel@,
            r->Ok_0.asked() == Seq::<(u32, u32)>::empty(),
    {
        match self {
            EntropyKind::Arithmetic => match ArithDecoder::new(channel) {
                Ok(d) => Ok(EntropySource::Arithmetic(d)),
                Err(e) => Err(e),
            },
            EntropyKind::Interleaved => Ok(EntropySource::Interleaved(IxecDecoder::new(channel))),
        }
    }
}

} // verus!
