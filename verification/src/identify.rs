//! Fetching the dictionary from the microcontroller.
use crate::dictionary::Dictionary;
use crate::encoding::{Borrowable, FieldType, MessageDecodeError, Readable, ToFieldType, Writable};
use crate::mcu::{FetchError, McuConnectionError, SendReceiveError};
use crate::messages::{
    find_id, EncodedMessage, FrontTrimmableBuffer, Message, WithoutOid,
};
use std::marker::PhantomData;
use vstd::prelude::*;

verus! {

/// Asks for a part of the dictionary data: `identify offset=%u count=%c`.
#[derive(Debug)]
pub struct Identify;

/// The arguments of [`Identify`].
#[derive(Debug, Clone)]
pub struct IdentifyData {
    pub offset: u32,
    pub count: u8,
}

/// The values of the arguments of [`Identify`].
pub open spec fn identify_values(offset: u32, count: u8) -> Seq<crate::encoding::FieldData> {
    seq![crate::encoding::FieldData::U32(offset), crate::encoding::FieldData::U8(count)]
}

impl Identify {
    /// A request for `count` bytes from `offset` on.
    pub fn encode(offset: u32, count: u8) -> (r: EncodedMessage<Identify>)
        ensures
            r.payload.offset == 0,
            r.payload.content@ == seq![0u8, 0u8] + crate::messages::fields_encode(
                identify_values(offset, count),
            ),
    {
        let mut buf: Vec<u8> = Vec::new();
        buf.push(0);
        buf.push(0);
        offset.write(&mut buf);
        count.write(&mut buf);
        proof {
            reveal_with_fuel(crate::messages::fields_encode, 3);
            let values = identify_values(offset, count);
            assert(values.drop_last() =~= seq![crate::encoding::FieldData::U32(offset)]);
            assert(values.drop_last().drop_last() =~= Seq::empty());
            assert(buf@ =~= seq![0u8, 0u8] + crate::messages::fields_encode(values));
        }
        EncodedMessage {
            payload: FrontTrimmableBuffer { content: buf, offset: 0 },
            _message_kind: PhantomData,
        }
    }
}

impl Message for Identify {
    type Pod<'a> = IdentifyData;

    type PodOwned = IdentifyData;

    open spec fn fixed_id() -> Option<u16> {
        Some(1)
    }

    open spec fn name() -> Seq<char> {
        "identify"@
    }

    open spec fn field_list() -> Seq<crate::messages::Field> {
        seq![("offset"@, FieldType::U32), ("count"@, FieldType::U8)]
    }

    open spec fn pod_values<'a>(pod: IdentifyData) -> Seq<crate::encoding::FieldData> {
        identify_values(pod.offset, pod.count)
    }

    open spec fn owned_values(owned: IdentifyData) -> Seq<crate::encoding::FieldData> {
        identify_values(owned.offset, owned.count)
    }

    fn get_id(dict: Option<&Dictionary>) -> (r: Option<u16>) {
        find_id(Some(1), "identify", dict)
    }

    fn get_name() -> (r: &'static str) {
        "identify"
    }

    fn decode<'a>(input: &mut &'a [u8]) -> (r: Result<IdentifyData, MessageDecodeError>) {
        proof {
            reveal_with_fuel(crate::messages::fields_decode, 3);
            let types = crate::messages::types_of(Self::field_list());
            assert(types =~= seq![FieldType::U32, FieldType::U8]);
            assert(types.drop_last() =~= seq![FieldType::U32]);
            assert(types.drop_last().drop_last() =~= Seq::empty());
        }
        let offset: u32 = match Readable::read(input) {
            Ok(v) => v,
            Err(e) => {
                return Err(e);
            },
        };
        let count: u8 = match Readable::read(input) {
            Ok(v) => v,
            Err(e) => {
                return Err(e);
            },
        };
        let r = IdentifyData { offset, count };
        assert(Seq::empty().push(crate::encoding::FieldData::U32(offset)).push(
            crate::encoding::FieldData::U8(count),
        ) =~= Self::pod_values(r));
        Ok(r)
    }

    fn into_owned<'a>(pod: IdentifyData) -> (r: IdentifyData) {
        pod
    }

    fn fields() -> (r: Vec<(&'static str, FieldType)>) {
        let mut r: Vec<(&'static str, FieldType)> = Vec::new();
        r.push(("offset", <u32 as ToFieldType>::as_field_type()));
        r.push(("count", <u8 as ToFieldType>::as_field_type()));
        assert(crate::messages::borrowed_fields_of(r@) =~= Self::field_list());
        r
    }
}

impl WithoutOid for Identify {

}

/// Brings a part of the dictionary data: `identify_response offset=%u data=%*s`.
#[derive(Debug)]
pub struct IdentifyResponse;

/// The arguments of [`IdentifyResponse`], borrowed.
#[derive(Debug)]
pub struct IdentifyResponseData<'a> {
    pub offset: u32,
    pub data: &'a [u8],
}

/// The arguments of [`IdentifyResponse`].
#[derive(Debug, Clone)]
pub struct IdentifyResponseDataOwned {
    pub offset: u32,
    pub data: Vec<u8>,
}

/// The values of the arguments of [`IdentifyResponse`].
pub open spec fn response_values(offset: u32, data: Seq<u8>) -> Seq<crate::encoding::FieldData> {
    seq![crate::encoding::FieldData::U32(offset), crate::encoding::FieldData::Bytes(data)]
}

impl IdentifyResponse {
    /// A part of the dictionary data, which starts at `offset`.
    pub fn encode(offset: u32, data: &[u8]) -> (r: EncodedMessage<IdentifyResponse>)
        ensures
            r.payload.offset == 0,
            r.payload.content@ == seq![0u8, 0u8] + crate::messages::fields_encode(
                response_values(offset, data@),
            ),
    {
        let mut buf: Vec<u8> = Vec::new();
        buf.push(0);
        buf.push(0);
        offset.write(&mut buf);
        data.write(&mut buf);
        proof {
            reveal_with_fuel(crate::messages::fields_encode, 3);
            let values = response_values(offset, data@);
            assert(values.drop_last() =~= seq![crate::encoding::FieldData::U32(offset)]);
            assert(values.drop_last().drop_last() =~= Seq::empty());
            assert(buf@ =~= seq![0u8, 0u8] + crate::messages::fields_encode(values));
        }
        EncodedMessage {
            payload: FrontTrimmableBuffer { content: buf, offset: 0 },
            _message_kind: PhantomData,
        }
    }
}

impl Message for IdentifyResponse {
    type Pod<'a> = IdentifyResponseData<'a>;

    type PodOwned = IdentifyResponseDataOwned;

    open spec fn fixed_id() -> Option<u16> {
        Some(0)
    }

    open spec fn name() -> Seq<char> {
        "identify_response"@
    }

    open spec fn field_list() -> Seq<crate::messages::Field> {
        seq![("offset"@, FieldType::U32), ("data"@, FieldType::ByteArray)]
    }

    open spec fn pod_values<'a>(pod: IdentifyResponseData<'a>) -> Seq<crate::encoding::FieldData> {
        response_values(pod.offset, pod.data@)
    }

    open spec fn owned_values(owned: IdentifyResponseDataOwned) -> Seq<crate::encoding::FieldData> {
        response_values(owned.offset, owned.data@)
    }

    fn get_id(dict: Option<&Dictionary>) -> (r: Option<u16>) {
        find_id(Some(0), "identify_response", dict)
    }

    fn get_name() -> (r: &'static str) {
        "identify_response"
    }

    fn decode<'a>(input: &mut &'a [u8]) -> (r: Result<
        IdentifyResponseData<'a>,
        MessageDecodeError,
    >) {
        proof {
            reveal_with_fuel(crate::messages::fields_decode, 3);
            let types = crate::messages::types_of(Self::field_list());
            assert(types =~= seq![FieldType::U32, FieldType::ByteArray]);
            assert(types.drop_last() =~= seq![FieldType::U32]);
            assert(types.drop_last().drop_last() =~= Seq::empty());
        }
        let offset: u32 = match Readable::read(input) {
            Ok(v) => v,
            Err(e) => {
                return Err(e);
            },
        };
        let data: &'a [u8] = match Readable::read(input) {
            Ok(v) => v,
            Err(e) => {
                return Err(e);
            },
        };
        let r = IdentifyResponseData { offset, data };
        assert(Seq::empty().push(crate::encoding::FieldData::U32(offset)).push(
            crate::encoding::FieldData::Bytes(data@),
        ) =~= Self::pod_values(r));
        Ok(r)
    }

    fn into_owned<'a>(pod: IdentifyResponseData<'a>) -> (r: IdentifyResponseDataOwned) {
        IdentifyResponseDataOwned {
            offset: pod.offset,
            data: Borrowable::from_borrowed(pod.data),
        }
    }

    fn fields() -> (r: Vec<(&'static str, FieldType)>) {
        let mut r: Vec<(&'static str, FieldType)> = Vec::new();
        r.push(("offset", <u32 as ToFieldType>::as_field_type()));
        r.push(("data", <Vec<u8> as ToFieldType>::as_field_type()));
        assert(crate::messages::borrowed_fields_of(r@) =~= Self::field_list());
        r
    }
}

impl WithoutOid for IdentifyResponse {

}

// ---------------------------------------------------------------------------
// The conversation
// ---------------------------------------------------------------------------

/// How many bytes are asked for at once.
pub const IDENTIFY_COUNT: u8 = 40;

/// For how long errors are put up with, in nanoseconds.
pub const IDENTIFY_PATIENCE: u64 = 10_000_000_000;

/// The data after a reply, and whether it is complete. A reply for another offset changes nothing,
/// and an empty one at the end completes it.
pub open spec fn after_reply(data: Seq<u8>, offset: u32, chunk: Seq<u8>) -> (Seq<u8>, bool) {
    if offset == data.len() {
        (data + chunk, chunk.len() == 0)
    } else {
        (data, false)
    }
}

/// The dictionary data that has been fetched so far.
#[derive(Debug)]
pub struct IdentifyFetch {
    pub data: Vec<u8>,
}

impl IdentifyFetch {
    /// Nothing is there yet.
    pub fn new() -> (r: IdentifyFetch)
        ensures
            r.data@.len() == 0,
    {
        IdentifyFetch { data: Vec::new() }
    }

    /// The request for what comes next. Its offset is the length of the data, of which the lower 32
    /// bits are sent.
    pub fn request(&self) -> (r: EncodedMessage<Identify>)
        ensures
            r.payload.offset == 0,
            r.payload.content@ == seq![0u8, 0u8] + crate::messages::fields_encode(
                identify_values(self.data@.len() as u32, 40),
            ),
    {
        Identify::encode(self.data.len() as u32, IDENTIFY_COUNT)
    }

    /// Takes what came of a request, `elapsed` nanoseconds after the first one. Returns whether the
    /// data is complete. An error counts once the patience is over.
    pub fn step(
        &mut self,
        outcome: Result<IdentifyResponseDataOwned, SendReceiveError>,
        elapsed: u64,
    ) -> (r: Result<bool, McuConnectionError>)
        ensures
            match outcome {
                Ok(reply) => {
                    &&& r matches Ok(complete)
                    &&& (final(self).data@, complete) == after_reply(
                        old(self).data@,
                        reply.offset,
                        reply.data@,
                    )
                },
                Err(e) => {
                    &&& final(self).data@ == old(self).data@
                    &&& if elapsed > 10_000_000_000 {
                        &&& r matches Err(McuConnectionError::DictionaryFetch(f))
                        &&& f matches FetchError::Exchange(g)
                        &&& *g == e
                    } else {
                        r matches Ok(complete) && !complete
                    }
                },
            },
    {
        match outcome {
            Ok(reply) => {
                let mut reply = reply;
                if reply.offset as usize == self.data.len() {
                    let complete = reply.data.len() == 0;
                    self.data.append(&mut reply.data);
                    Ok(complete)
                } else {
                    Ok(false)
                }
            },
            Err(e) => {
                if elapsed > IDENTIFY_PATIENCE {
                    Err(McuConnectionError::DictionaryFetch(FetchError::Exchange(Box::new(e))))
                } else {
                    Ok(false)
                }
            },
        }
    }
}

/// While the microcontroller answers with parts of its data, the fetched data is always a beginning
/// of that data. If it answers with an empty part only at the end, the fetched data is all of it
/// once it is complete.
pub proof fn fetched_data_is_a_beginning(source: Seq<u8>, data: Seq<u8>, offset: u32, n: int)
    requires
        data.len() <= source.len(),
        data == source.take(data.len() as int),
        0 <= n,
        offset + n <= source.len(),
        n == 0 ==> offset == source.len(),
    ensures
        ({
            let (fetched, complete) = after_reply(
                data,
                offset,
                source.subrange(offset as int, offset + n),
            );
            &&& fetched.len() <= source.len()
            &&& fetched == source.take(fetched.len() as int)
            &&& complete ==> fetched == source
        }),
{
    if offset == data.len() {
        let chunk = source.subrange(offset as int, offset + n);
        assert(data + chunk =~= source.take(data.len() + n));
        if n == 0 {
            assert(data + chunk =~= source);
        }
    }
}

// ---------------------------------------------------------------------------
// Inflating
// ---------------------------------------------------------------------------

/// What the zlib stream at the start of some bytes inflates to, if there is one that is complete
/// and sound.
pub uninterp spec fn zlib_inflated(data: Seq<u8>) -> Option<Seq<u8>>;

/// Calls [`std::io::Read::read_to_end`] on a [`flate2::read::ZlibDecoder`] over the bytes. Whether
/// it succeeds, and which bytes it brings then, depends on the bytes alone. Which error it fails
/// with is left unsaid.
#[verifier::external_body]
fn read_zlib(data: &[u8]) -> (r: Result<Vec<u8>, std::io::Error>)
    ensures
        match r {
            Ok(v) => zlib_inflated(data@) == Some(v@),
            Err(_) => zlib_inflated(data@) is None,
        },
{
    let mut buf: Vec<u8> = Vec::new();
    let mut decoder = flate2::read::ZlibDecoder::new(data);
    match std::io::Read::read_to_end(&mut decoder, &mut buf) {
        Ok(_) => Ok(buf),
        Err(e) => Err(e),
    }
}

/// Inflates the dictionary data.
pub fn inflate(data: &[u8]) -> (r: Result<Vec<u8>, McuConnectionError>)
    ensures
        match zlib_inflated(data@) {
            Some(bytes) => r matches Ok(v) && v@ == bytes,
            None => r matches Err(McuConnectionError::DictionaryFetch(f)) && f is Inflate,
        },
{
    match read_zlib(data) {
        Ok(v) => Ok(v),
        Err(e) => Err(McuConnectionError::DictionaryFetch(FetchError::Inflate(e))),
    }
}

// ---------------------------------------------------------------------------
// Progress of the conversation
// ---------------------------------------------------------------------------

/// The arguments of the two messages have the declared types, and are written one behind the other.
pub proof fn identify_arguments_are_as_declared(offset: u32, count: u8, data: Seq<u8>)
    ensures
        crate::messages::value_types(identify_values(offset, count)) == crate::messages::types_of(
            Identify::field_list(),
        ),
        crate::messages::fields_encode(identify_values(offset, count))
            == crate::encoding::vlq_encode(offset) + crate::encoding::vlq_encode(count as u32),
        crate::messages::value_types(response_values(offset, data)) == crate::messages::types_of(
            IdentifyResponse::field_list(),
        ),
        crate::messages::fields_encode(response_values(offset, data))
            == crate::encoding::vlq_encode(offset) + (crate::encoding::vlq_encode(data.len() as u32)
            + data),
{
    reveal_with_fuel(crate::messages::fields_encode, 3);
    let asked = identify_values(offset, count);
    let told = response_values(offset, data);
    assert(crate::messages::value_types(asked) =~= crate::messages::types_of(
        Identify::field_list(),
    ));
    assert(crate::messages::value_types(told) =~= crate::messages::types_of(
        IdentifyResponse::field_list(),
    ));
    assert(asked.drop_last().drop_last() =~= Seq::empty());
    assert(told.drop_last().drop_last() =~= Seq::empty());
    assert(crate::messages::fields_encode(asked) =~= crate::encoding::vlq_encode(offset)
        + crate::encoding::vlq_encode(count as u32));
    assert(crate::messages::fields_encode(told) =~= crate::encoding::vlq_encode(offset) + (
    crate::encoding::vlq_encode(data.len() as u32) + data));
}

/// A reply for just the place that the data has reached makes it longer by exactly its bytes, and
/// completes it if, and only if, it has none. A reply for any other place changes nothing.
pub proof fn reply_in_place_is_appended(data: Seq<u8>, offset: u32, chunk: Seq<u8>)
    ensures
        offset as int == data.len() ==> {
            &&& after_reply(data, offset, chunk).0.len() == data.len() + chunk.len()
            &&& after_reply(data, offset, chunk).0.take(data.len() as int) == data
            &&& after_reply(data, offset, chunk).0.skip(data.len() as int) == chunk
            &&& after_reply(data, offset, chunk).1 <==> chunk.len() == 0
        },
        offset as int != data.len() ==> after_reply(data, offset, chunk) == (data, false),
{
    if offset as int == data.len() {
        let r = after_reply(data, offset, chunk).0;
        assert(r.take(data.len() as int) =~= data);
        assert(r.skip(data.len() as int) =~= chunk);
    }
}

/// What is fetched, and whether it is complete, when each request is answered with the part of the
/// source at the place that it asks for. The parts have the given lengths.
pub open spec fn fetch_run(source: Seq<u8>, data: Seq<u8>, lengths: Seq<nat>) -> (Seq<u8>, bool)
    decreases lengths.len(),
{
    if lengths.len() == 0 {
        (data, false)
    } else {
        let from = data.len() as int;
        let (fetched, complete) = after_reply(
            data,
            from as u32,
            source.subrange(from, from + lengths[0]),
        );
        if complete {
            (fetched, true)
        } else {
            fetch_run(source, fetched, lengths.skip(1))
        }
    }
}

/// The sum of some lengths.
pub open spec fn total(lengths: Seq<nat>) -> nat
    decreases lengths.len(),
{
    if lengths.len() == 0 {
        0
    } else {
        lengths[0] + total(lengths.skip(1))
    }
}

/// A fetch gets ahead with each part, and completes: while the requests are answered with parts
/// that are not empty, up to the end of the source, and with an empty part there, all of the source
/// has been fetched after just these replies, and not before the last of them. This holds of any
/// source whose length fits into 32 bits, in whatever parts it comes, and from wherever the fetch
/// has got to.
pub proof fn fetch_completes(source: Seq<u8>, data: Seq<u8>, lengths: Seq<nat>)
    requires
        source.len() <= u32::MAX,
        data.len() <= source.len(),
        data == source.take(data.len() as int),
        forall|i: int| 0 <= i < lengths.len() ==> #[trigger] lengths[i] > 0,
        data.len() + total(lengths) == source.len(),
    ensures
        fetch_run(source, data, lengths) == (source, false),
        fetch_run(source, data, lengths.push(0)) == (source, true),
    decreases lengths.len(),
{
    let from = data.len() as int;
    let asked = lengths.push(0);
    if lengths.len() == 0 {
        assert(data =~= source);
        reply_in_place_is_appended(data, from as u32, source.subrange(from, from));
        let fetched = after_reply(data, from as u32, source.subrange(from, from)).0;
        assert(fetched =~= fetched.take(from) + fetched.skip(from));
        assert(fetched =~= source);
        assert(asked[0] == 0);
        assert(asked.skip(1) =~= Seq::empty());
    } else {
        let n = lengths[0];
        let chunk = source.subrange(from, from + n);
        let more = lengths.skip(1);
        assert(n > 0);
        reply_in_place_is_appended(data, from as u32, chunk);
        let fetched = after_reply(data, from as u32, chunk).0;
        assert(fetched =~= fetched.take(from) + fetched.skip(from));
        assert(fetched =~= source.take(from + n));
        assert forall|i: int| 0 <= i < more.len() implies #[trigger] more[i] > 0 by {
            assert(more[i] == lengths[i + 1]);
        }
        assert(asked[0] == n);
        assert(asked.skip(1) =~= more.push(0));
        fetch_completes(source, fetched, more);
    }
}

/// The two messages have the fixed IDs 1 and 0, and the names and arguments under which every
/// microcontroller knows them. Their values are their arguments, in order.
pub proof fn identify_messages_are_fixed(
    asked: IdentifyData,
    told: IdentifyResponseData,
    kept: IdentifyResponseDataOwned,
)
    ensures
        Identify::fixed_id() == Some(1u16),
        Identify::name() == "identify"@,
        Identify::field_list() == seq![("offset"@, FieldType::U32), ("count"@, FieldType::U8)],
        Identify::pod_values(asked) == seq![
            crate::encoding::FieldData::U32(asked.offset),
            crate::encoding::FieldData::U8(asked.count),
        ],
        Identify::owned_values(asked) == Identify::pod_values(asked),
        IdentifyResponse::fixed_id() == Some(0u16),
        IdentifyResponse::name() == "identify_response"@,
        IdentifyResponse::field_list() == seq![
            ("offset"@, FieldType::U32),
            ("data"@, FieldType::ByteArray),
        ],
        IdentifyResponse::pod_values(told) == seq![
            crate::encoding::FieldData::U32(told.offset),
            crate::encoding::FieldData::Bytes(told.data@),
        ],
        IdentifyResponse::owned_values(kept) == seq![
            crate::encoding::FieldData::U32(kept.offset),
            crate::encoding::FieldData::Bytes(kept.data@),
        ],
{
}

} // verus!
