//! The messages of the mailbox between the processor and the video core:
//! how a request is addressed, and what a response says.

use vstd::prelude::*;

verus! {

/// The tag that ends a message.
pub const TAG_LAST: u32 = 0;

/// The tag that asks for the serial number of the board.
pub const TAG_GET_SERIAL: u32 = 0x1_0004;

/// The code of a message that is a request.
pub const REQUEST: u32 = 0;

/// The channel on which tagged requests go to the video core.
pub const CHANNEL_PROP: u32 = 8;

/// The code of a response to a request that was carried out.
pub const RESPONSE_SUCCESS: u32 = 0x8000_0000;

/// The code of a response to a request that failed.
pub const RESPONSE_ERROR: u32 = 0x8000_0001;

/// Why a response is no answer.
#[derive(Copy, Clone, Debug, PartialEq, Eq, Structural)]
pub enum Error {
    /// The buffer of the response is too short to hold a code.
    BufferTooShort,
    /// The response says that the request failed.
    ResponseError,
    /// The response holds a code that is not known.
    UnknownResponse(u32),
}

/// The words of the request for the serial number of the board.
pub open spec fn serial_request() -> Seq<u32> {
    seq![32u32, REQUEST, TAG_GET_SERIAL, 8u32, 8u32, 0xdead_beefu32, 0xdead_babeu32, TAG_LAST]
}

/// What a response of the given words says: an error where it holds no
/// code, the code of a failure or a code that is not known.
pub open spec fn response_verdict(words: Seq<u32>) -> Result<(), Error> {
    if words.len() <= 1 {
        Err(Error::BufferTooShort)
    } else if words[1] == RESPONSE_SUCCESS {
        Ok(())
    } else if words[1] == RESPONSE_ERROR {
        Err(Error::ResponseError)
    } else {
        Err(Error::UnknownResponse(words[1]))
    }
}

/// The request for the serial number of the board.
pub fn request_serial_number() -> (r: Vec<u32>)
    ensures
        r@ == serial_request(),
{
    let mut r: Vec<u32> = Vec::new();
    r.push(8 * 4);
    r.push(REQUEST);
    r.push(TAG_GET_SERIAL);
    r.push(8);
    r.push(8);
    r.push(0xdead_beef);
    r.push(0xdead_babe);
    r.push(TAG_LAST);
    proof {
        assert(r@ =~= serial_request());
    }
    r
}

/// The word that hands the buffer at `buf_ptr` to the channel `chan`:
/// the bits of both. Where the four lowest bits of the address are zero
/// and the channel fits into them, the word gives both back.
pub fn tag_pointer(buf_ptr: u32, chan: u32) -> (r: u32)
    ensures
        r == buf_ptr | chan,
        buf_ptr % 16 == 0 && chan < 16 ==> r == buf_ptr + chan && r % 16 == chan && r - r % 16
            == buf_ptr,
{
    let r = buf_ptr | chan;
    proof {
        assert(buf_ptr % 16 == 0 && chan < 16 ==> r == buf_ptr + chan && r % 16 == chan && r - r
            % 16 == buf_ptr) by (bit_vector)
            requires
                r == buf_ptr | chan,
        ;
    }
    r
}

/// The channel that the word `resp` read from the mailbox is for: the
/// number in its four lowest bits.
pub fn response_channel(resp: u32) -> (r: u32)
    ensures
        r == resp % 16,
{
    let r = resp & 0xf;
    proof {
        assert(r == resp % 16) by (bit_vector)
            requires
                r == resp & 0xf,
        ;
    }
    r
}

/// The address of the buffer that the word `resp` read from the mailbox
/// hands over: the word with its four lowest bits cleared.
pub fn response_buffer(resp: u32) -> (r: u32)
    ensures
        r == resp - resp % 16,
{
    let r = resp & !0xf;
    proof {
        assert(r == resp - resp % 16) by (bit_vector)
            requires
                r == resp & !0xfu32,
        ;
    }
    r
}

/// What the response in `words` says.
pub fn check_response(words: &Vec<u32>) -> (r: Result<(), Error>)
    ensures
        r == response_verdict(words@),
{
    if words.len() <= 1 {
        Err(Error::BufferTooShort)
    } else {
        let res_code = words[1];
        if res_code == RESPONSE_SUCCESS {
            Ok(())
        } else if res_code == RESPONSE_ERROR {
            Err(Error::ResponseError)
        } else {
            Err(Error::UnknownResponse(res_code))
        }
    }
}

/// The serial number in the response to the request for it: the word at
/// index 6 above the word at index 5.
pub fn serial_number(words: &Vec<u32>) -> (r: u64)
    requires
        words.len() > 6,
    ensures
        r == words[6] * 0x1_0000_0000 + words[5],
{
    let high = words[6] as u64;
    let low = words[5] as u64;
    let shifted = high << 32;
    proof {
        assert(shifted == high * 0x1_0000_0000) by (bit_vector)
            requires
                shifted == high << 32,
                high <= 0xffff_ffff,
        ;
    }
    shifted + low
}

} // verus!
