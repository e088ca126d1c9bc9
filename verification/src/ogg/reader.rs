//! A packet as it comes out of an Ogg stream.

use vstd::prelude::*;

verus! {

/// One packet of an Ogg stream, with what its page says of it.
#[derive(Debug, Clone, PartialEq, Eq)]
pub struct OggPacket {
    /// The packet's bytes.
    pub data: Vec<u8>,
    /// The granule position of the page the packet completed on; `-1` where no
    /// packet completed there.
    pub page_granule: i64,
    /// Whether that page closes the stream.
    pub end_of_stream: bool,
}

impl OggPacket {
    /// A packet with its page's granule position and end-of-stream flag.
    pub fn new(data: Vec<u8>, page_granule: i64, end_of_stream: bool) -> (p: Self)
        ensures
            p.data@ == data@,
            p.page_granule == page_granule,
            p.end_of_stream == end_of_stream,
    {
        OggPacket { data, page_granule, end_of_stream }
    }
}

} // verus!
