//! A bit string of at most 32 bits, held in the low bits of a `u32`.

use vstd::prelude::*;

verus! {

/// A variable-length bit string.
///
/// The `length` low-order bits of `buffer` are the string; the bit that was
/// appended first is the most significant of them.
#[derive(Clone, Copy, Debug)]
pub struct Code {
    pub buffer: u32,
    pub length: u8,
}

/// Bit `index` of `value`, counted from the least significant bit; bits past
/// the width of the value are zero.
pub open spec fn bit_of(value: u32, index: int) -> bool {
    0 <= index < 32 && (value >> (index as u32)) & 1 == 1
}

/// What a single-bit input stands for: zero is `0`, everything else is `1`.
pub open spec fn normalized_bit(bit: u8) -> u32 {
    if bit == 0 {
        0
    } else {
        1
    }
}

/// `String::push` of the standard library: the character is added at the end
/// of the text and the rest of the text stays as it was.
#[verifier::external_body]
fn push_char(text: &mut String, c: char)
    ensures
        final(text)@ == old(text)@.push(c),
{
    text.push(c)
}

/// Reads bit `index` of `value`, counted from the least significant bit.
pub fn bit_at(value: u32, index: u8) -> (bit: u8)
    ensures
        bit == if bit_of(value, index as int) {
            1u8
        } else {
            0u8
        },
{
    if index >= 32 {
        0
    } else {
        let shift: u32 = index as u32;
        let low: u32 = (value >> shift) & 1;
        assert(low == 0 || low == 1) by (bit_vector)
            requires
                low == (value >> shift) & 1,
        ;
        if low == 1 {
            1
        } else {
            0
        }
    }
}

impl Code {
    /// The bits of the code in the order in which they were appended.
    pub open spec fn bits(self) -> Seq<bool> {
        Seq::new(self.length as nat, |i: int| bit_of(self.buffer, self.length - 1 - i))
    }

    /// The code holds nothing above its `length` low-order bits.
    pub open spec fn confined(self) -> bool {
        self.length <= 32 && (self.length == 32 || self.buffer >> (self.length as u32) == 0)
    }

    /// The code after `length` bits, given as the low bits of `buffer`, have
    /// been appended.
    pub open spec fn pushed(self, buffer: u32, length: u8) -> Code {
        Code {
            buffer: if length >= 32 {
                buffer
            } else {
                (self.buffer << (length as u32)) | buffer
            },
            length: (self.length + length) as u8,
        }
    }

    /// The text of the code: one binary digit for each of its bits, in the
    /// order in which they were appended.
    pub open spec fn rendered(self) -> Seq<char> {
        Seq::new(
            self.length as nat,
            |i: int|
                if bit_of(self.buffer, self.length - 1 - i) {
                    '1'
                } else {
                    '0'
                },
        )
    }

    /// The empty code.
    pub fn new() -> (code: Self)
        ensures
            code.buffer == 0,
            code.length == 0,
            code.bits() =~= Seq::<bool>::empty(),
    {
        Self { buffer: 0, length: 0 }
    }

    /// A code made of the given raw bits and length, taken as they are.
    pub fn from(buffer: u32, length: u8) -> (code: Self)
        ensures
            code.buffer == buffer,
            code.length == length,
    {
        Self { buffer, length }
    }

    /// Appends the `length` low bits of `buffer`. What was stored before moves
    /// up by `length` positions and stays more significant than what is new.
    ///
    /// The caller keeps the total within 32 bits.
    pub fn push(&mut self, buffer: u32, length: u8)
        requires
            old(self).length + length <= 32,
        ensures
            *final(self) == old(self).pushed(buffer, length),
    {
        if length >= 32 {
            self.buffer = buffer;
        } else {
            self.buffer = (self.buffer << (length as u32)) | buffer;
        }
        self.length = self.length + length;
    }

    /// Writes the code as text: one binary digit for each of its `length`
    /// bits, the bit that was appended first on the left.
    pub fn render(&self) -> (text: String)
        ensures
            text@ == self.rendered(),
    {
        let mut text = String::new();
        let mut i: u8 = 0;
        while i < self.length
            invariant
                i <= self.length,
                text@.len() == i,
                forall|k: int| 0 <= k < i ==> text@[k] == self.rendered()[k],
            decreases self.length - i,
        {
            let digit = if bit_at(self.buffer, self.length - 1 - i) == 1 {
                '1'
            } else {
                '0'
            };
            push_char(&mut text, digit);
            i = i + 1;
        }
        assert(text@ =~= self.rendered());
        text
    }

    /// Appends one bit. Any input other than `0` is appended as `1`.
    pub fn push_bit(&mut self, bit: u8)
        requires
            old(self).length < 32,
        ensures
            *final(self) == old(self).pushed(normalized_bit(bit), 1),
            bit != 0 ==> *final(self) == old(self).pushed(1, 1),
    {
        let normalized: u32 = if bit == 0 {
            0
        } else {
            1
        };
        self.buffer = (self.buffer << 1u32) | normalized;
        self.length = self.length + 1;
    }
}

impl Default for Code {
    fn default() -> (code: Self)
        ensures
            code.buffer == 0,
            code.length == 0,
    {
        Code::new()
    }
}

/// Appending keeps what was stored in front of what is new: the bits of the
/// code after an append are its bits before, followed by the appended bits.
pub proof fn lemma_push_appends(code: Code, buffer: u32, length: u8)
    requires
        code.length + length <= 32,
        (Code { buffer, length }).confined(),
    ensures
        code.pushed(buffer, length).bits() == code.bits() + (Code { buffer, length }).bits(),
{
    let after = code.pushed(buffer, length);
    let added = Code { buffer, length };
    let joined = code.bits() + added.bits();
    assert(after.bits().len() == joined.len());
    assert forall|i: int| 0 <= i < after.length implies after.bits()[i] == joined[i] by {
        let k: u32 = (after.length - 1 - i) as u32;
        let n: u32 = length as u32;
        let a: u32 = code.buffer;
        let b: u32 = buffer;
        if length >= 32 {
            assert(code.length == 0);
        } else if i < code.length {
            assert(joined[i] == bit_of(a, code.length - 1 - i));
            let j: u32 = (code.length - 1 - i) as u32;
            assert(((((a << n) | b) >> k) & 1) == ((a >> j) & 1)) by (bit_vector)
                requires
                    n < 32,
                    k < 32,
                    k == j + n,
                    b >> n == 0,
            ;
        } else {
            assert(joined[i] == added.bits()[i - code.length]);
            assert(((((a << n) | b) >> k) & 1) == ((b >> k) & 1)) by (bit_vector)
                requires
                    n < 32,
                    k < n,
            ;
        }
    }
    assert(after.bits() =~= joined);
}

} // verus!
