use vstd::prelude::*;
use vstd::bytes::{
    lemma_auto_spec_u32_to_from_le_bytes, spec_u32_from_le_bytes, spec_u32_to_le_bytes,
    u32_from_le_bytes, u32_to_le_bytes,
};
use vstd::slice::slice_subrange;

verus! {

/// An operation request. On the wire a request is a 1-byte variant tag
/// followed by the variant's fields; the single variant `InsertLeaf`
/// (tag 0) carries a length-prefixed byte payload (4-byte little-endian
/// length, then the bytes).
#[derive(Clone, Debug, PartialEq, Eq)]
pub enum MTreeInstruction {
    InsertLeaf { data: Vec<u8> },
}

/// The wire encoding of an `InsertLeaf` request with the given payload.
pub open spec fn encode_instruction_spec(payload: Seq<u8>) -> Seq<u8> {
    seq![0u8] + spec_u32_to_le_bytes(payload.len() as u32) + payload
}

/// What decoding instruction bytes yields: the payload of a well-formed
/// `InsertLeaf` request, or nothing. Decoding is strict: the buffer must
/// hold the tag 0, a length that agrees with the buffer, and no trailing
/// bytes.
pub open spec fn decode_instruction_spec(bytes: Seq<u8>) -> Option<Seq<u8>> {
    if bytes.len() < 5 {
        None
    } else if bytes[0] != 0u8 {
        None
    } else {
        let n = spec_u32_from_le_bytes(bytes.subrange(1, 5)) as int;
        if bytes.len() != 5 + n {
            None
        } else {
            Some(bytes.subrange(5, 5 + n))
        }
    }
}

impl MTreeInstruction {
    /// The payload the request carries.
    pub open spec fn payload(&self) -> Seq<u8> {
        match self {
            MTreeInstruction::InsertLeaf { data } => data@,
        }
    }

    /// Encodes the request in its wire format. The payload length must fit
    /// the 4-byte prefix, and the encoding must fit in memory.
    pub fn encode(&self) -> (out: Vec<u8>)
        requires
            self.payload().len() <= u32::MAX,
            5 + self.payload().len() <= usize::MAX,
        ensures
            out@ == encode_instruction_spec(self.payload()),
    {
        proof {
            lemma_auto_spec_u32_to_from_le_bytes();
        }
        match self {
            MTreeInstruction::InsertLeaf { data } => {
                let mut out: Vec<u8> = Vec::new();
                out.push(0u8);
                let mut lenb: Vec<u8> = u32_to_le_bytes(data.len() as u32);
                out.append(&mut lenb);
                let ghost header: Seq<u8> = out@;
                proof {
                    assert(header =~= seq![0u8] + spec_u32_to_le_bytes(data@.len() as u32));
                }
                let mut i: usize = 0;
                while i < data.len()
                    invariant
                        i <= data@.len(),
                        out@ == header + data@.subrange(0, i as int),
                    decreases data@.len() - i,
                {
                    out.push(data[i]);
                    proof {
                        assert(out@ =~= header + data@.subrange(0, i + 1));
                    }
                    i = i + 1;
                }
                proof {
                    assert(data@.subrange(0, data@.len() as int) =~= data@);
                    assert(out@ =~= encode_instruction_spec(self.payload()));
                }
                out
            },
        }
    }

    /// Decodes a request from its wire format. Rejects a buffer too short
    /// for the tag and length, an unknown tag, or a length that disagrees
    /// with the bytes that follow; nothing else changes on a rejected call.
    pub fn decode(bytes: &[u8]) -> (r: Option<MTreeInstruction>)
        ensures
            match r {
                Some(ins) => decode_instruction_spec(bytes@) == Some(ins.payload()),
                None => decode_instruction_spec(bytes@) is None,
            },
    {
        if bytes.len() < 5 {
            return None;
        }
        let tag: u8 = bytes[0];
        if tag != 0u8 {
            return None;
        }
        let count_bytes: &[u8] = slice_subrange(bytes, 1, 5);
        let count: u32 = u32_from_le_bytes(count_bytes);
        let n: usize = count as usize;
        if bytes.len() - 5 != n {
            return None;
        }
        let mut data: Vec<u8> = Vec::new();
        let mut i: usize = 0;
        while i < n
            invariant
                i <= n,
                bytes@.len() == 5 + n,
                bytes@.len() <= usize::MAX,
                data@ =~= bytes@.subrange(5, 5 + i as int),
            decreases n - i,
        {
            data.push(bytes[5 + i]);
            proof {
                assert(data@ =~= bytes@.subrange(5, 5 + i + 1));
            }
            i = i + 1;
        }
        let ins = MTreeInstruction::InsertLeaf { data };
        proof {
            assert(ins.payload() =~= bytes@.subrange(5, 5 + n as int));
        }
        Some(ins)
    }
}

} // verus!
