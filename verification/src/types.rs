//! The payload of the `CREATE_CLIENT` sub-message, by which a client
//! introduces itself to an agent.
use vstd::prelude::*;
use vstd::array::array_fill_for_copy_types;
use vstd::string::StringSliceAdditionalSpecFns;
use crate::Endianness;
use crate::error::Error;
use crate::micro_cdr::{
    CdrStream, Decoder, Encoder, NATIVE_ENDIANNESS, wire_bytes, lemma_le_bytes_len,
};
use crate::submessage::SubMessageHeader;

verus! {

/// The payload length that the sub-message header of `CREATE_CLIENT` reports.
pub const CREATE_CLIENT_PAYLOAD_SIZE: usize = 16;

/// The four bytes that every client's description starts with: `XRCE`.
pub type XrceCookie = [u8; 4];

/// Major and minor version of the protocol.
pub type XrceVersion = [u8; 2];

/// The vendor of an implementation of the protocol.
pub type XrceVendorId = [u8; 2];

/// The key by which an agent knows a client.
pub type ClientKey = [u8; 4];

/// A named setting that the client asks the agent to apply.
#[derive(Debug, Clone, Copy, PartialEq, Eq)]
pub struct Property<'a> {
    pub name: &'a str,
    pub value: &'a str,
}

/// The properties of a client: as many as the profile it was built for has.
pub type PropertySeq<'a, const N: usize> = [Property<'a>; N];

/// How a client describes itself. `N` is the number of properties that the
/// client's profile has; the wire carries no count.
#[allow(non_camel_case_types)]
#[derive(Debug, Clone, Copy, PartialEq, Eq)]
pub struct CLIENT_Representation<'a, const N: usize> {
    pub xrce_cookie: XrceCookie,
    pub xrce_version: XrceVersion,
    pub xrce_vendor_id: XrceVendorId,
    pub client_key: ClientKey,
    pub session_id: u8,
    pub properties: Option<PropertySeq<'a, N>>,
    pub mtu: u16,
}

/// The payload of the `CREATE_CLIENT` sub-message: how the client describes itself.
#[allow(non_camel_case_types)]
#[derive(Debug, Clone, Copy, PartialEq, Eq)]
pub struct CREATE_CLIENT_Payload<'a, const N: usize>(pub CLIENT_Representation<'a, N>);

impl<'a> Property<'a> {
    /// The stream `s` after the name and the value are written to it.
    pub open spec fn written(self, s: CdrStream) -> CdrStream {
        s.put_string(self.name@).put_string(self.value@)
    }
}

/// The stream `s` after the properties are written to it, in order.
pub open spec fn properties_written(props: Seq<Property>, s: CdrStream) -> CdrStream
    decreases props.len(),
{
    if props.len() == 0 {
        s
    } else {
        properties_written(props.drop_first(), props[0].written(s))
    }
}

/// The stream `s` after `count` properties are read from it.
pub open spec fn after_properties(s: CdrStream, count: nat) -> CdrStream
    decreases count,
{
    if count == 0 {
        s
    } else {
        after_properties(s.skip_string().skip_string(), (count - 1) as nat)
    }
}

/// Once a step has failed, writing properties changes nothing.
pub proof fn lemma_properties_written_failed(props: Seq<Property>, s: CdrStream)
    requires
        !s.ok(),
    ensures
        properties_written(props, s) == s,
    decreases props.len(),
{
    if props.len() > 0 {
        lemma_properties_written_failed(props.drop_first(), props[0].written(s));
    }
}

/// Once a step has failed, reading properties changes nothing.
pub proof fn lemma_after_properties_failed(s: CdrStream, count: nat)
    requires
        !s.ok(),
    ensures
        after_properties(s, count) == s,
    decreases count,
{
    if count > 0 {
        lemma_after_properties_failed(s.skip_string().skip_string(), (count - 1) as nat);
    }
}

/// Reading one property more is reading a property after the others.
pub proof fn lemma_after_properties_next(s: CdrStream, count: nat)
    ensures
        after_properties(s, count + 1) == after_properties(s, count).skip_string().skip_string(),
    decreases count,
{
    reveal_with_fuel(after_properties, 2);
    if count > 0 {
        lemma_after_properties_next(s.skip_string().skip_string(), (count - 1) as nat);
    }
}

impl<'a, const N: usize> CLIENT_Representation<'a, N> {
    /// The thirteen bytes that come before the properties: cookie, version,
    /// vendor id, client key and session id.
    pub open spec fn fixed_part(&self) -> Seq<u8> {
        self.xrce_cookie@ + self.xrce_version@ + self.xrce_vendor_id@ + self.client_key@
            + seq![self.session_id]
    }

    /// The stream `s` after cookie, version, vendor id, client key and
    /// session id are written to it, byte by byte.
    pub open spec fn fixed_written(&self, s: CdrStream) -> CdrStream {
        s.put_u8(self.xrce_cookie@[0]).put_u8(self.xrce_cookie@[1]).put_u8(
            self.xrce_cookie@[2],
        ).put_u8(self.xrce_cookie@[3]).put_u8(self.xrce_version@[0]).put_u8(
            self.xrce_version@[1],
        ).put_u8(self.xrce_vendor_id@[0]).put_u8(self.xrce_vendor_id@[1]).put_u8(
            self.client_key@[0],
        ).put_u8(self.client_key@[1]).put_u8(self.client_key@[2]).put_u8(
            self.client_key@[3],
        ).put_u8(self.session_id)
    }

    /// The stream `s` after the representation is written to it: the fixed
    /// part, a boolean that says whether properties follow, each property's
    /// name and value, and the MTU.
    pub open spec fn written(&self, s: CdrStream) -> CdrStream {
        let t = self.fixed_written(s);
        let u = match self.properties {
            Some(props) => properties_written(props@, t.put_bool(true)),
            None => t.put_bool(false),
        };
        u.put_unsigned(self.mtu as nat, 2)
    }

    /// The stream `s` after the thirteen bytes of the fixed part are read from it.
    pub open spec fn after_fixed(s: CdrStream) -> CdrStream {
        s.skip(1, 1).skip(1, 1).skip(1, 1).skip(1, 1).skip(1, 1).skip(1, 1).skip(1, 1).skip(
            1,
            1,
        ).skip(1, 1).skip(1, 1).skip(1, 1).skip(1, 1).skip(1, 1)
    }

    /// The stream `s` after a representation is read from it.
    pub open spec fn after_read(s: CdrStream) -> CdrStream {
        let t = Self::after_fixed(s);
        let u = t.skip_bool();
        let v = if u.ok() && t.peek_u8() == 1 {
            after_properties(u, N as nat)
        } else {
            u
        };
        v.skip(2, 2)
    }

    /// This representation is the one that starts at the cursor of `s`,
    /// which holds all of it.
    pub open spec fn is_read(&self, s: CdrStream) -> bool {
        let t = Self::after_fixed(s);
        let u = t.skip_bool();
        &&& self.fixed_part() == s.peek(1, 13)
        &&& self.properties is Some <==> t.peek_u8() == 1
        &&& self.properties matches Some(props) ==> forall|i: int|
            0 <= i < N ==> {
                &&& (#[trigger] props@[i]).name.spec_bytes() == after_properties(
                    u,
                    i as nat,
                ).peek_text()
                &&& props@[i].value.spec_bytes() == after_properties(
                    u,
                    i as nat,
                ).skip_string().peek_text()
            }
        &&& self.mtu == (if t.peek_u8() == 1 {
            after_properties(u, N as nat)
        } else {
            u
        }).peek_unsigned(2)
    }
}

impl<'a, const N: usize> CREATE_CLIENT_Payload<'a, N> {
    /// The stream `s` after the sub-message is written to it: the header of
    /// a `CREATE_CLIENT` sub-message, then the representation.
    pub open spec fn written(&self, s: CdrStream) -> CdrStream {
        self.0.written(
            SubMessageHeader::CreateClient(CREATE_CLIENT_PAYLOAD_SIZE as u16).written(s),
        )
    }

    /// The sub-message of a client without properties, as it stands on the wire.
    pub open spec fn plain_encoding(&self, order: Endianness) -> Seq<u8> {
        SubMessageHeader::CreateClient(CREATE_CLIENT_PAYLOAD_SIZE as u16).encoding(order)
            + self.0.fixed_part() + seq![0u8] + wire_bytes(order, self.0.mtu as nat, 2)
    }

    /// Writes cookie, version, vendor id, client key and session id, byte by byte.
    fn serialize_fixed(&self, encoder: &mut Encoder) -> (r: Result<(), Error>)
        requires
            old(encoder).wf(),
        ensures
            final(encoder).wf(),
            final(final(encoder).buf)@ == final(old(encoder).buf)@,
            final(encoder).capacity() == old(encoder).capacity(),
            final(encoder).is_stream(r, self.0.fixed_written(old(encoder).stream())),
    {
        encoder.serialize_u8(self.0.xrce_cookie[0])?;
        encoder.serialize_u8(self.0.xrce_cookie[1])?;
        encoder.serialize_u8(self.0.xrce_cookie[2])?;
        encoder.serialize_u8(self.0.xrce_cookie[3])?;
        encoder.serialize_u8(self.0.xrce_version[0])?;
        encoder.serialize_u8(self.0.xrce_version[1])?;
        encoder.serialize_u8(self.0.xrce_vendor_id[0])?;
        encoder.serialize_u8(self.0.xrce_vendor_id[1])?;
        encoder.serialize_u8(self.0.client_key[0])?;
        encoder.serialize_u8(self.0.client_key[1])?;
        encoder.serialize_u8(self.0.client_key[2])?;
        encoder.serialize_u8(self.0.client_key[3])?;
        encoder.serialize_u8(self.0.session_id)?;
        Ok(())
    }

    /// Writes the name and the value of each property, in order.
    fn serialize_properties(props: &PropertySeq<'a, N>, encoder: &mut Encoder) -> (r: Result<
        (),
        Error,
    >)
        requires
            old(encoder).wf(),
        ensures
            final(encoder).wf(),
            final(final(encoder).buf)@ == final(old(encoder).buf)@,
            final(encoder).capacity() == old(encoder).capacity(),
            final(encoder).is_stream(r, properties_written(props@, old(encoder).stream())),
    {
        let ghost after = properties_written(props@, encoder.stream());
        let mut i: usize = 0;
        assert(props@.skip(0) =~= props@);
        while i < N
            invariant
                i <= N,
                props@.len() == N,
                encoder.wf(),
                final(encoder.buf)@ == final(old(encoder).buf)@,
                encoder.capacity() == old(encoder).capacity(),
                after == properties_written(props@, old(encoder).stream()),
                after == properties_written(props@.skip(i as int), encoder.stream()),
            decreases N - i,
        {
            let ghost cur = encoder.stream();
            proof {
                assert(props@.skip(i as int).drop_first() =~= props@.skip(i as int + 1));
            }
            let property = props[i];
            match encoder.serialize_str(property.name) {
                Ok(()) => {},
                Err(e) => {
                    proof {
                        lemma_properties_written_failed(
                            props@.skip(i as int + 1),
                            property.written(cur),
                        );
                    }
                    return Err(e);
                },
            }
            match encoder.serialize_str(property.value) {
                Ok(()) => {},
                Err(e) => {
                    proof {
                        lemma_properties_written_failed(
                            props@.skip(i as int + 1),
                            property.written(cur),
                        );
                    }
                    return Err(e);
                },
            }
            i = i + 1;
        }
        Ok(())
    }

    /// Writes the representation: the fixed part byte by byte, a boolean
    /// that says whether properties follow, each property's name and value
    /// as strings, and the MTU. Stops at the first field that fails.
    pub fn serialize(&self, encoder: &mut Encoder) -> (r: Result<(), Error>)
        requires
            old(encoder).wf(),
        ensures
            final(encoder).wf(),
            final(final(encoder).buf)@ == final(old(encoder).buf)@,
            final(encoder).capacity() == old(encoder).capacity(),
            final(encoder).is_stream(r, self.0.written(old(encoder).stream())),
    {
        let ghost s = encoder.stream();
        match self.serialize_fixed(encoder) {
            Ok(()) => {},
            Err(e) => {
                proof {
                    self.lemma_written_failed_after(s);
                }
                return Err(e);
            },
        }
        match &self.0.properties {
            Some(props) => {
                match encoder.serialize_bool(true) {
                    Ok(()) => {},
                    Err(e) => {
                        proof {
                            self.lemma_written_failed_after(s);
                        }
                        return Err(e);
                    },
                }
                Self::serialize_properties(props, encoder)?;
            },
            None => {
                encoder.serialize_bool(false)?;
            },
        }
        encoder.serialize_u16(self.0.mtu)?;
        Ok(())
    }

    /// Reads cookie, version, vendor id, client key and session id, byte by byte.
    fn deserialize_fixed(decoder: &mut Decoder<'a>) -> (r: Result<[u8; 13], Error>)
        ensures
            final(decoder).is_stream(
                r,
                CLIENT_Representation::<N>::after_fixed(old(decoder).stream()),
            ),
            r matches Ok(fixed) ==> fixed@ == old(decoder).stream().peek(1, 13),
    {
        let c0 = decoder.deserialize_u8()?;
        let c1 = decoder.deserialize_u8()?;
        let c2 = decoder.deserialize_u8()?;
        let c3 = decoder.deserialize_u8()?;
        let v0 = decoder.deserialize_u8()?;
        let v1 = decoder.deserialize_u8()?;
        let d0 = decoder.deserialize_u8()?;
        let d1 = decoder.deserialize_u8()?;
        let k0 = decoder.deserialize_u8()?;
        let k1 = decoder.deserialize_u8()?;
        let k2 = decoder.deserialize_u8()?;
        let k3 = decoder.deserialize_u8()?;
        let session_id = decoder.deserialize_u8()?;
        let fixed = [c0, c1, c2, c3, v0, v1, d0, d1, k0, k1, k2, k3, session_id];
        Ok(fixed)
    }

    /// Reads the name and the value of `N` properties.
    fn deserialize_properties(decoder: &mut Decoder<'a>) -> (r: Result<PropertySeq<'a, N>, Error>)
        ensures
            final(decoder).is_stream(r, after_properties(old(decoder).stream(), N as nat)),
            r matches Ok(props) ==> forall|i: int|
                0 <= i < N ==> {
                    &&& (#[trigger] props@[i]).name.spec_bytes() == after_properties(
                        old(decoder).stream(),
                        i as nat,
                    ).peek_text()
                    &&& props@[i].value.spec_bytes() == after_properties(
                        old(decoder).stream(),
                        i as nat,
                    ).skip_string().peek_text()
                },
    {
        let ghost u = decoder.stream();
        let blank = Property { name: "", value: "" };
        let mut props: [Property<'a>; N] = array_fill_for_copy_types(blank);
        let mut i: usize = 0;
        while i < N
            invariant
                i <= N,
                u == old(decoder).stream(),
                decoder.stream() == after_properties(u, i as nat),
                after_properties(u, N as nat) == after_properties(
                    decoder.stream(),
                    (N - i) as nat,
                ),
                forall|j: int|
                    0 <= j < i ==> {
                        &&& (#[trigger] props@[j]).name.spec_bytes() == after_properties(
                            u,
                            j as nat,
                        ).peek_text()
                        &&& props@[j].value.spec_bytes() == after_properties(
                            u,
                            j as nat,
                        ).skip_string().peek_text()
                    },
            decreases N - i,
        {
            let ghost cur = decoder.stream();
            proof {
                lemma_after_properties_next(u, i as nat);
            }
            let name = match decoder.read_str() {
                Ok(name) => name,
                Err(e) => {
                    proof {
                        lemma_after_properties_failed(
                            cur.skip_string().skip_string(),
                            (N - i - 1) as nat,
                        );
                    }
                    return Err(e);
                },
            };
            let value = match decoder.read_str() {
                Ok(value) => value,
                Err(e) => {
                    proof {
                        lemma_after_properties_failed(
                            cur.skip_string().skip_string(),
                            (N - i - 1) as nat,
                        );
                    }
                    return Err(e);
                },
            };
            props[i] = Property { name, value };
            i = i + 1;
        }
        Ok(props)
    }

    /// Reads a representation: the fixed part, the boolean that says whether
    /// properties follow, `N` properties if it says so, and the MTU. Stops at
    /// the first field that fails.
    pub fn deserialize(decoder: &mut Decoder<'a>) -> (r: Result<
        CREATE_CLIENT_Payload<'a, N>,
        Error,
    >)
        ensures
            final(decoder).is_stream(
                r,
                CLIENT_Representation::<N>::after_read(old(decoder).stream()),
            ),
            r matches Ok(payload) ==> payload.0.is_read(old(decoder).stream()),
    {
        let ghost s = decoder.stream();
        let fixed = Self::deserialize_fixed(decoder)?;
        let present = decoder.deserialize_bool()?;
        let properties = if present {
            Some(Self::deserialize_properties(decoder)?)
        } else {
            None
        };
        let mtu = decoder.deserialize_u16()?;
        let payload = CREATE_CLIENT_Payload(
            CLIENT_Representation {
                xrce_cookie: [fixed[0], fixed[1], fixed[2], fixed[3]],
                xrce_version: [fixed[4], fixed[5]],
                xrce_vendor_id: [fixed[6], fixed[7]],
                client_key: [fixed[8], fixed[9], fixed[10], fixed[11]],
                session_id: fixed[12],
                properties,
                mtu,
            },
        );
        proof {
            assert(payload.0.fixed_part() =~= s.peek(1, 13));
        }
        Ok(payload)
    }

    /// Writes the sub-message at the start of `buf` in the native byte
    /// order: the header of a `CREATE_CLIENT` sub-message, which reports a
    /// payload of `CREATE_CLIENT_PAYLOAD_SIZE` bytes, then the
    /// representation. Returns the number of bytes written.
    pub fn to_slice(self, buf: &mut [u8]) -> (r: Result<usize, Error>)
        ensures
            final(buf)@.len() == old(buf)@.len(),
            final(buf)@ == self.written(CdrStream::start(old(buf)@, NATIVE_ENDIANNESS)).bytes,
            match r {
                Ok(n) => {
                    &&& self.written(CdrStream::start(old(buf)@, NATIVE_ENDIANNESS)).ok()
                    &&& n == self.written(CdrStream::start(old(buf)@, NATIVE_ENDIANNESS)).offset
                },
                Err(e) => self.written(CdrStream::start(old(buf)@, NATIVE_ENDIANNESS)).fault
                    == Some(e),
            },
            self.0.properties is None ==> if old(buf)@.len() >= 20 {
                r == Ok::<usize, Error>(20) && final(buf)@ == self.plain_encoding(
                    NATIVE_ENDIANNESS,
                ) + old(buf)@.skip(20)
            } else {
                r == Err::<usize, Error>(Error::BufferNotEnough)
            },
    {
        let ghost before = buf@;
        proof {
            if self.0.properties is None {
                self.lemma_plain_written(before, NATIVE_ENDIANNESS);
            }
        }
        let mut ucdr = Encoder::new(buf);
        match SubMessageHeader::CreateClient(CREATE_CLIENT_PAYLOAD_SIZE as u16).serialize(
            &mut ucdr,
        ) {
            Ok(()) => {},
            Err(e) => {
                proof {
                    self.lemma_written_failed(ucdr.stream().fail(e));
                }
                return Err(e);
            },
        }
        match self.serialize(&mut ucdr) {
            Ok(()) => Ok(ucdr.finalize()),
            Err(e) => Err(e),
        }
    }

    /// Reads the representation at the start of `buf` in the native byte order.
    pub fn from_slice(buf: &'a [u8]) -> (r: Result<CREATE_CLIENT_Payload<'a, N>, Error>)
        ensures
            r is Ok <==> CLIENT_Representation::<N>::after_read(
                CdrStream::start(buf@, NATIVE_ENDIANNESS),
            ).ok(),
            r matches Err(e) ==> CLIENT_Representation::<N>::after_read(
                CdrStream::start(buf@, NATIVE_ENDIANNESS),
            ).fault == Some(e),
            r matches Ok(payload) ==> payload.0.is_read(CdrStream::start(buf@, NATIVE_ENDIANNESS)),
    {
        let mut ucdr = Decoder::new(buf);
        Self::deserialize(&mut ucdr)
    }

    /// Once a step has failed, writing a representation changes nothing.
    pub proof fn lemma_written_failed(&self, s: CdrStream)
        requires
            !s.ok(),
        ensures
            self.0.written(s) == s,
    {
        let t = self.0.fixed_written(s);
        if let Some(props) = self.0.properties {
            lemma_properties_written_failed(props@, t.put_bool(true));
        }
    }

    /// Where the fixed part or the boolean after it fails, the rest of the
    /// representation changes nothing.
    proof fn lemma_written_failed_after(&self, s: CdrStream)
        ensures
            !self.0.fixed_written(s).ok() ==> self.0.written(s) == self.0.fixed_written(s),
            self.0.properties is Some && !self.0.fixed_written(s).put_bool(true).ok()
                ==> self.0.written(s) == self.0.fixed_written(s).put_bool(true),
    {
        let t = self.0.fixed_written(s);
        if let Some(props) = self.0.properties {
            if !t.put_bool(true).ok() {
                lemma_properties_written_failed(props@, t.put_bool(true));
            }
        }
    }

    /// The sub-message of a client without properties, written at the start
    /// of a buffer, takes its first twenty bytes, which then hold its
    /// encoding, if the buffer is that long, and finds no room for some
    /// field if it is shorter.
    pub proof fn lemma_plain_written(&self, bytes: Seq<u8>, order: Endianness)
        requires
            self.0.properties is None,
        ensures
            ({
                let s = self.written(CdrStream::start(bytes, order));
                &&& s.ok() <==> bytes.len() >= 20
                &&& !s.ok() ==> s.fault == Some(Error::BufferNotEnough)
                &&& s.ok() ==> s.offset == 20 && s.bytes == self.plain_encoding(order)
                    + bytes.skip(20)
            }),
    {
        lemma_le_bytes_len(16, 2);
        lemma_le_bytes_len(self.0.mtu as nat, 2);
    }
}

} // verus!
