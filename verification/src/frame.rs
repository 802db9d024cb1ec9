//! Complete frames and the transmissions the parser emits.
use vstd::prelude::*;
use vstd::utf8::*;

use crate::header::HeaderList;
use crate::model::FrameV;
use crate::model::TransView;

verus! {

/// A complete protocol message: command, headers, raw body bytes.
#[derive(Debug)]
pub struct Frame {
    pub command: String,
    pub headers: HeaderList,
    pub body: Vec<u8>,
}

impl View for Frame {
    type V = FrameV;

    open spec fn view(&self) -> FrameV {
        FrameV { command: encode_utf8(self.command@), headers: self.headers@, body: self.body@ }
    }
}

/// The unit the parser returns: a keep-alive or a complete frame.
#[derive(Debug)]
pub enum Transmission {
    HeartBeat,
    CompleteFrame(Frame),
}

impl View for Transmission {
    type V = TransView;

    open spec fn view(&self) -> TransView {
        match self {
            Transmission::HeartBeat => TransView::HeartBeat,
            Transmission::CompleteFrame(f) => TransView::CompleteFrame(f@),
        }
    }
}

} // verus!
