//! A stream cipher that the peer defines at the start of a connection.
//!
//! The definition is a list of operations, each one byte, two of them with
//! an operand byte, closed by a zero byte. To encrypt a byte the operations
//! are applied in order; to decrypt, their inverses in reverse order. Some
//! operations depend on the position of the byte in its stream, which each
//! direction counts modulo 256.
use vstd::prelude::*;

verus! {

/// One operation of a cipher.
#[derive(Debug, Clone, Copy, PartialEq, Eq)]
pub enum CipherOperation {
    /// Reverse the order of the bits.
    ReverseBits,
    /// Xor with the operand.
    XOR(u8),
    /// Xor with the position.
    XORPos,
    /// Add the operand, modulo 256.
    Add(u8),
    /// Add the position, modulo 256.
    AddPos,
}

/// Why a cipher definition gives no cipher.
#[derive(Debug, Clone, Copy, PartialEq, Eq)]
pub enum CipherError {
    /// The bytes end before the definition does.
    Incomplete,
    /// This byte stands where an operation should and is none.
    InvalidOperation(u8),
    /// The cipher leaves the bytes as they are.
    NoOp,
}

/// A byte with its bits in reverse order.
pub open spec fn reversed_bits(b: u8) -> u8 {
    (b & 0x01) << 7 | (b & 0x02) << 5 | (b & 0x04) << 3 | (b & 0x08) << 1 | (b & 0x10) >> 1 | (b
        & 0x20) >> 3 | (b & 0x40) >> 5 | (b & 0x80) >> 7
}

/// The byte that one operation makes of `b` at position `pos`.
pub open spec fn applied(op: CipherOperation, pos: u8, b: u8) -> u8 {
    match op {
        CipherOperation::ReverseBits => reversed_bits(b),
        CipherOperation::XOR(key) => b ^ key,
        CipherOperation::XORPos => b ^ pos,
        CipherOperation::Add(key) => b.wrapping_add(key),
        CipherOperation::AddPos => b.wrapping_add(pos),
    }
}

/// The byte of which one operation makes `b` at position `pos`.
pub open spec fn undone(op: CipherOperation, pos: u8, b: u8) -> u8 {
    match op {
        CipherOperation::ReverseBits => reversed_bits(b),
        CipherOperation::XOR(key) => b ^ key,
        CipherOperation::XORPos => b ^ pos,
        CipherOperation::Add(key) => b.wrapping_sub(key),
        CipherOperation::AddPos => b.wrapping_sub(pos),
    }
}

/// The byte `b` at position `pos`, encrypted: the operations applied in
/// order.
pub open spec fn encrypted(cipher: Seq<CipherOperation>, pos: u8, b: u8) -> u8
    decreases cipher.len(),
{
    if cipher.len() == 0 {
        b
    } else {
        applied(cipher.last(), pos, encrypted(cipher.drop_last(), pos, b))
    }
}

/// The byte `b` at position `pos`, decrypted: the operations undone, the
/// last one first.
pub open spec fn decrypted(cipher: Seq<CipherOperation>, pos: u8, b: u8) -> u8
    decreases cipher.len(),
{
    if cipher.len() == 0 {
        b
    } else {
        decrypted(cipher.drop_last(), pos, undone(cipher.last(), pos, b))
    }
}

/// Undoing an operation gives back the byte it was applied to, and the
/// other way round.
pub proof fn lemma_undone_applied(op: CipherOperation, pos: u8, b: u8)
    ensures
        undone(op, pos, applied(op, pos, b)) == b,
        applied(op, pos, undone(op, pos, b)) == b,
{
    match op {
        CipherOperation::ReverseBits => {
            lemma_reversed_bits_twice(b);
        },
        CipherOperation::XOR(key) => {
            assert((b ^ key) ^ key == b) by (bit_vector);
        },
        CipherOperation::XORPos => {
            assert((b ^ pos) ^ pos == b) by (bit_vector);
        },
        CipherOperation::Add(key) => {},
        CipherOperation::AddPos => {},
    }
}

/// Reversing the bits twice gives back the byte.
pub proof fn lemma_reversed_bits_twice(b: u8)
    ensures
        reversed_bits(reversed_bits(b)) == b,
{
    let r = reversed_bits(b);
    assert(r == (b & 0x01) << 7 | (b & 0x02) << 5 | (b & 0x04) << 3 | (b & 0x08) << 1 | (b & 0x10)
        >> 1 | (b & 0x20) >> 3 | (b & 0x40) >> 5 | (b & 0x80) >> 7 ==> ((r & 0x01) << 7 | (r
        & 0x02) << 5 | (r & 0x04) << 3 | (r & 0x08) << 1 | (r & 0x10) >> 1 | (r & 0x20) >> 3 | (r
        & 0x40) >> 5 | (r & 0x80) >> 7) == b) by (bit_vector);
}

/// Decrypting what was encrypted at the same position gives back the byte,
/// and so does encrypting what was decrypted.
pub proof fn lemma_decrypted_encrypted(cipher: Seq<CipherOperation>, pos: u8, b: u8)
    ensures
        decrypted(cipher, pos, encrypted(cipher, pos, b)) == b,
        encrypted(cipher, pos, decrypted(cipher, pos, b)) == b,
    decreases cipher.len(),
{
    if cipher.len() > 0 {
        let head = cipher.drop_last();
        let op = cipher.last();
        lemma_undone_applied(op, pos, encrypted(head, pos, b));
        lemma_decrypted_encrypted(head, pos, b);
        lemma_decrypted_encrypted(head, pos, undone(op, pos, b));
        lemma_undone_applied(op, pos, b);
    }
}

/// Reverses the order of the bits of a byte.
pub fn reverse_bits(b: u8) -> (r: u8)
    ensures
        r == reversed_bits(b),
{
    (b & 0x01) << 7 | (b & 0x02) << 5 | (b & 0x04) << 3 | (b & 0x08) << 1 | (b & 0x10) >> 1 | (b
        & 0x20) >> 3 | (b & 0x40) >> 5 | (b & 0x80) >> 7
}

impl CipherOperation {
    /// Applies the operation to `byte` at position `pos`.
    pub fn apply(&self, pos: u8, byte: u8) -> (r: u8)
        ensures
            r == applied(*self, pos, byte),
    {
        match self {
            CipherOperation::ReverseBits => reverse_bits(byte),
            CipherOperation::XOR(key) => byte ^ *key,
            CipherOperation::XORPos => byte ^ pos,
            CipherOperation::Add(key) => byte.wrapping_add(*key),
            CipherOperation::AddPos => byte.wrapping_add(pos),
        }
    }

    /// Undoes the operation on `byte` at position `pos`.
    pub fn undo(&self, pos: u8, byte: u8) -> (r: u8)
        ensures
            r == undone(*self, pos, byte),
    {
        match self {
            CipherOperation::ReverseBits => reverse_bits(byte),
            CipherOperation::XOR(key) => byte ^ *key,
            CipherOperation::XORPos => byte ^ pos,
            CipherOperation::Add(key) => byte.wrapping_sub(*key),
            CipherOperation::AddPos => byte.wrapping_sub(pos),
        }
    }
}

/// Encrypts `byte` at position `pos`.
pub fn encrypt_at(cipher: &Vec<CipherOperation>, pos: u8, byte: u8) -> (r: u8)
    ensures
        r == encrypted(cipher@, pos, byte),
{
    let mut byte = byte;
    let ghost plain = byte;
    let mut i: usize = 0;
    while i < cipher.len()
        invariant
            i <= cipher.len(),
            byte == encrypted(cipher@.take(i as int), pos, plain),
        decreases cipher.len() - i,
    {
        proof {
            assert(cipher@.take(i + 1).drop_last() == cipher@.take(i as int));
        }
        byte = cipher[i].apply(pos, byte);
        i += 1;
    }
    proof {
        assert(cipher@.take(cipher.len() as int) == cipher@);
    }
    byte
}

/// Decrypts `byte` at position `pos`.
pub fn decrypt_at(cipher: &Vec<CipherOperation>, pos: u8, byte: u8) -> (r: u8)
    ensures
        r == decrypted(cipher@, pos, byte),
{
    let mut byte = byte;
    let ghost secret = byte;
    let mut i: usize = cipher.len();
    proof {
        assert(cipher@.take(cipher.len() as int) == cipher@);
    }
    while i > 0
        invariant
            i <= cipher.len(),
            decrypted(cipher@.take(i as int), pos, byte) == decrypted(cipher@, pos, secret),
        decreases i,
    {
        proof {
            assert(cipher@.take(i as int).drop_last() == cipher@.take(i - 1));
        }
        i -= 1;
        byte = cipher[i].undo(pos, byte);
    }
    byte
}

/// A definition read so far, with `op` in `width` bytes put in front.
pub open spec fn after_operation(
    op: CipherOperation,
    width: nat,
    rest: Result<(Seq<CipherOperation>, nat), CipherError>,
) -> Result<(Seq<CipherOperation>, nat), CipherError> {
    match rest {
        Ok((ops, len)) => Ok((seq![op] + ops, (len + width) as nat)),
        Err(e) => Err(e),
    }
}

/// The cipher that `bytes` begin with the definition of, and the number of
/// bytes that the definition takes. Byte 1 reverses the bits, 2 xors with
/// the byte after it, 3 xors with the position, 4 adds the byte after it, 5
/// adds the position, and 0 closes the definition.
pub open spec fn defined(bytes: Seq<u8>) -> Result<(Seq<CipherOperation>, nat), CipherError>
    decreases bytes.len(),
{
    if bytes.len() == 0 {
        Err(CipherError::Incomplete)
    } else if bytes[0] == 0 {
        Ok((Seq::empty(), 1))
    } else if bytes[0] == 1 {
        after_operation(CipherOperation::ReverseBits, 1, defined(bytes.skip(1)))
    } else if bytes[0] == 2 {
        if bytes.len() < 2 {
            Err(CipherError::Incomplete)
        } else {
            after_operation(CipherOperation::XOR(bytes[1]), 2, defined(bytes.skip(2)))
        }
    } else if bytes[0] == 3 {
        after_operation(CipherOperation::XORPos, 1, defined(bytes.skip(1)))
    } else if bytes[0] == 4 {
        if bytes.len() < 2 {
            Err(CipherError::Incomplete)
        } else {
            after_operation(CipherOperation::Add(bytes[1]), 2, defined(bytes.skip(2)))
        }
    } else if bytes[0] == 5 {
        after_operation(CipherOperation::AddPos, 1, defined(bytes.skip(1)))
    } else {
        Err(CipherError::InvalidOperation(bytes[0]))
    }
}

/// Whether a cipher counts as leaving the bytes as they are: it does so
/// with every byte below 255 at every position below 255.
pub open spec fn is_noop(cipher: Seq<CipherOperation>) -> bool {
    forall|pos: u8, b: u8| pos < 255 && b < 255 ==> #[trigger] encrypted(cipher, pos, b) == b
}

/// Reads the definition of a cipher from the start of `bytes`. Gives the
/// operations and the number of bytes read.
pub fn parse_cipher(bytes: &[u8]) -> (r: Result<(Vec<CipherOperation>, usize), CipherError>)
    ensures
        match r {
            Ok((ops, len)) => defined(bytes@) == Ok::<_, CipherError>((ops@, len as nat)),
            Err(e) => defined(bytes@) == Err::<(Seq<CipherOperation>, nat), _>(e),
        },
{
    let n = bytes.len();
    let mut ops: Vec<CipherOperation> = Vec::new();
    let mut i: usize = 0;
    proof {
        assert(bytes@.skip(0) == bytes@);
    }
    loop
        invariant
            n == bytes.len(),
            i <= n,
            defined(bytes@) == match defined(bytes@.skip(i as int)) {
                Ok((rest, len)) => Ok::<_, CipherError>((ops@ + rest, (len + i) as nat)),
                Err(e) => Err(e),
            },
        decreases n - i,
    {
        let ghost s = bytes@.skip(i as int);
        let ghost before = ops@;
        if i >= n {
            return Err(CipherError::Incomplete);
        }
        let code: u8 = bytes[i];
        proof {
            assert(s[0] == code);
            assert(s.skip(1) == bytes@.skip(i + 1));
            assert forall|op: CipherOperation, rest: Seq<CipherOperation>| #[trigger]
                (before.push(op) + rest) == before + (seq![op] + rest) by {
                assert(before.push(op) + rest =~= before + (seq![op] + rest));
            }
        }
        if code == 0 {
            proof {
                assert(ops@ + Seq::<CipherOperation>::empty() == ops@);
            }
            return Ok((ops, i + 1));
        } else if code == 1 {
            ops.push(CipherOperation::ReverseBits);
            i += 1;
        } else if code == 3 {
            ops.push(CipherOperation::XORPos);
            i += 1;
        } else if code == 5 {
            ops.push(CipherOperation::AddPos);
            i += 1;
        } else if code == 2 || code == 4 {
            if i + 1 >= n {
                return Err(CipherError::Incomplete);
            }
            let operand: u8 = bytes[i + 1];
            proof {
                assert(s[1] == operand);
                assert(s.skip(2) == bytes@.skip(i + 2));
            }
            if code == 2 {
                ops.push(CipherOperation::XOR(operand));
            } else {
                ops.push(CipherOperation::Add(operand));
            }
            i += 2;
        } else {
            return Err(CipherError::InvalidOperation(code));
        }
    }
}

/// Whether the cipher counts as leaving the bytes as they are.
pub fn cipher_is_noop(cipher: &Vec<CipherOperation>) -> (r: bool)
    ensures
        r == is_noop(cipher@),
{
    let mut pos: u8 = 0;
    while pos < 255
        invariant
            pos <= 255,
            forall|p: u8, b: u8| p < pos && b < 255 ==> #[trigger] encrypted(cipher@, p, b) == b,
        decreases 255 - pos,
    {
        let mut byte: u8 = 0;
        while byte < 255
            invariant
                pos < 255,
                byte <= 255,
                forall|b: u8| b < byte ==> #[trigger] encrypted(cipher@, pos, b) == b,
            decreases 255 - byte,
        {
            if encrypt_at(cipher, pos, byte) != byte {
                return false;
            }
            byte += 1;
        }
        pos += 1;
    }
    true
}

/// The state of one direction of an encrypted connection.
pub struct LayerView {
    /// The operations of the cipher.
    pub cipher: Seq<CipherOperation>,
    /// The position of the next byte in the stream, modulo 256.
    pub counter: u8,
}

/// The position `offset` bytes after `start`.
pub open spec fn position(start: u8, offset: int) -> u8 {
    ((start + offset) % 256) as u8
}

/// A stream that starts at position `start`, encrypted byte by byte.
pub open spec fn encrypted_stream(cipher: Seq<CipherOperation>, start: u8, data: Seq<u8>) -> Seq<u8> {
    Seq::new(data.len(), |i: int| encrypted(cipher, position(start, i), data[i]))
}

/// A stream that starts at position `start`, decrypted byte by byte.
pub open spec fn decrypted_stream(cipher: Seq<CipherOperation>, start: u8, data: Seq<u8>) -> Seq<u8> {
    Seq::new(data.len(), |i: int| decrypted(cipher, position(start, i), data[i]))
}

/// Decrypting an encrypted stream from the same position gives back the
/// stream.
pub proof fn lemma_stream_round_trip(cipher: Seq<CipherOperation>, start: u8, data: Seq<u8>)
    ensures
        decrypted_stream(cipher, start, encrypted_stream(cipher, start, data)) == data,
{
    let secret = encrypted_stream(cipher, start, data);
    let back = decrypted_stream(cipher, start, secret);
    assert forall|i: int| 0 <= i < data.len() implies back[i] == data[i] by {
        lemma_decrypted_encrypted(cipher, position(start, i), data[i]);
    }
    assert(back =~= data);
}

/// The receiving direction of an encrypted connection.
pub struct InsecureSocketLayerReader {
    cipher: Vec<CipherOperation>,
    counter: u8,
}

/// The sending direction of an encrypted connection.
pub struct InsecureSocketLayerWriter {
    cipher: Vec<CipherOperation>,
    counter: u8,
}

impl View for InsecureSocketLayerReader {
    type V = LayerView;

    closed spec fn view(&self) -> LayerView {
        LayerView { cipher: self.cipher@, counter: self.counter }
    }
}

impl View for InsecureSocketLayerWriter {
    type V = LayerView;

    closed spec fn view(&self) -> LayerView {
        LayerView { cipher: self.cipher@, counter: self.counter }
    }
}

/// Sets up both directions of a connection from the definition of its
/// cipher, which `definition` begins with. Both start at position 0.
/// A definition that is incomplete or holds a byte that is no operation
/// gives the error that says so; a cipher that leaves the bytes as they are
/// gives `NoOp`.
#[allow(non_snake_case)]
pub fn new_ISL(definition: &[u8]) -> (r: Result<
    (InsecureSocketLayerReader, InsecureSocketLayerWriter),
    CipherError,
>)
    ensures
        match r {
            Ok((reader, writer)) => {
                &&& defined(definition@) matches Ok((ops, _))
                &&& !is_noop(ops)
                &&& reader@ == (LayerView { cipher: ops, counter: 0 })
                &&& writer@ == (LayerView { cipher: ops, counter: 0 })
            },
            Err(e) => match defined(definition@) {
                Ok((ops, _)) => is_noop(ops) && e == CipherError::NoOp,
                Err(d) => e == d,
            },
        },
{
    match parse_cipher(definition) {
        Ok((cipher, _)) => {
            if cipher_is_noop(&cipher) {
                Err(CipherError::NoOp)
            } else {
                let copy = cipher.clone();
                Ok(
                    (
                        InsecureSocketLayerReader { cipher: copy, counter: 0 },
                        InsecureSocketLayerWriter { cipher, counter: 0 },
                    ),
                )
            }
        },
        Err(e) => Err(e),
    }
}

impl InsecureSocketLayerReader {
    /// The position of the next byte to decrypt, modulo 256.
    pub fn counter(&self) -> (r: u8)
        ensures
            r == self@.counter,
    {
        self.counter
    }

    /// Decrypts `byte` as the byte at the current position.
    pub fn decrypt_byte(&self, byte: u8) -> (r: u8)
        ensures
            r == decrypted(self@.cipher, self@.counter, byte),
    {
        decrypt_at(&self.cipher, self.counter, byte)
    }

    /// Decrypts `data` as the next bytes of the stream and moves the
    /// position past them.
    pub fn decrypt(&mut self, data: &[u8]) -> (out: Vec<u8>)
        ensures
            out@ == decrypted_stream(old(self)@.cipher, old(self)@.counter, data@),
            final(self)@.cipher == old(self)@.cipher,
            final(self)@.counter == position(old(self)@.counter, data@.len() as int),
    {
        let mut out: Vec<u8> = Vec::new();
        let mut i: usize = 0;
        while i < data.len()
            invariant
                i <= data.len(),
                self.cipher == old(self).cipher,
                self.counter == position(old(self).counter, i as int),
                out@ == decrypted_stream(old(self)@.cipher, old(self)@.counter, data@.take(i as int)),
            decreases data.len() - i,
        {
            out.push(self.decrypt_byte(data[i]));
            self.counter = self.counter.wrapping_add(1);
            i += 1;
        }
        proof {
            assert(data@.take(data.len() as int) == data@);
        }
        out
    }
}

impl InsecureSocketLayerWriter {
    /// The position of the next byte to encrypt, modulo 256.
    pub fn counter(&self) -> (r: u8)
        ensures
            r == self@.counter,
    {
        self.counter
    }

    /// Encrypts `byte` as the byte at the current position.
    pub fn encrypt_byte(&self, byte: u8) -> (r: u8)
        ensures
            r == encrypted(self@.cipher, self@.counter, byte),
    {
        encrypt_at(&self.cipher, self.counter, byte)
    }

    /// Encrypts `data` as the next bytes of the stream and moves the
    /// position past them.
    pub fn encrypt(&mut self, data: &[u8]) -> (out: Vec<u8>)
        ensures
            out@ == encrypted_stream(old(self)@.cipher, old(self)@.counter, data@),
            final(self)@.cipher == old(self)@.cipher,
            final(self)@.counter == position(old(self)@.counter, data@.len() as int),
    {
        let mut out: Vec<u8> = Vec::new();
        let mut i: usize = 0;
        while i < data.len()
            invariant
                i <= data.len(),
                self.cipher == old(self).cipher,
                self.counter == position(old(self).counter, i as int),
                out@ == encrypted_stream(old(self)@.cipher, old(self)@.counter, data@.take(i as int)),
            decreases data.len() - i,
        {
            out.push(self.encrypt_byte(data[i]));
            self.counter = self.counter.wrapping_add(1);
            i += 1;
        }
        proof {
            assert(data@.take(data.len() as int) == data@);
        }
        out
    }

    /// Moves the position back by `unsent`, the number of encrypted bytes
    /// that did not go out after all.
    pub fn rewind(&mut self, unsent: usize)
        ensures
            final(self)@.cipher == old(self)@.cipher,
            final(self)@.counter == position(old(self)@.counter, -(unsent as int)),
    {
        let back: u8 = (unsent % 256) as u8;
        self.counter = self.counter.wrapping_sub(back);
    }
}

} // verus!
