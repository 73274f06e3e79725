//! ModHex codec: lossless conversion between bytes and the 16-symbol
//! alphabet `c b d e f g h i j k l n r t u v` (four bits per symbol).
use vstd::prelude::*;

verus! {

/// Position of a character in the ModHex alphabet, or `None` if it is
/// not a ModHex symbol.
pub open spec fn spec_modhex_index(c: char) -> Option<u8> {
    if c == 'c' {
        Some(0u8)
    } else if c == 'b' {
        Some(1u8)
    } else if c == 'd' {
        Some(2u8)
    } else if c == 'e' {
        Some(3u8)
    } else if c == 'f' {
        Some(4u8)
    } else if c == 'g' {
        Some(5u8)
    } else if c == 'h' {
        Some(6u8)
    } else if c == 'i' {
        Some(7u8)
    } else if c == 'j' {
        Some(8u8)
    } else if c == 'k' {
        Some(9u8)
    } else if c == 'l' {
        Some(10u8)
    } else if c == 'n' {
        Some(11u8)
    } else if c == 'r' {
        Some(12u8)
    } else if c == 't' {
        Some(13u8)
    } else if c == 'u' {
        Some(14u8)
    } else if c == 'v' {
        Some(15u8)
    } else {
        None
    }
}

/// The ModHex symbol for a nibble.
pub open spec fn spec_modhex_char(n: u8) -> char
    recommends
        n < 16,
{
    if n == 0 {
        'c'
    } else if n == 1 {
        'b'
    } else if n == 2 {
        'd'
    } else if n == 3 {
        'e'
    } else if n == 4 {
        'f'
    } else if n == 5 {
        'g'
    } else if n == 6 {
        'h'
    } else if n == 7 {
        'i'
    } else if n == 8 {
        'j'
    } else if n == 9 {
        'k'
    } else if n == 10 {
        'l'
    } else if n == 11 {
        'n'
    } else if n == 12 {
        'r'
    } else if n == 13 {
        't'
    } else if n == 14 {
        'u'
    } else {
        'v'
    }
}

/// Bytes denoted by a character sequence: characters are consumed two at a
/// time, the first of each pair giving the high nibble; a non-alphabet
/// character or an odd trailing character ends the output.
pub open spec fn spec_modhex_decode(s: Seq<char>) -> Seq<u8>
    decreases s.len(),
{
    if s.len() < 2 {
        Seq::empty()
    } else {
        match (spec_modhex_index(s[0]), spec_modhex_index(s[1])) {
            (Some(h), Some(l)) => seq![(h * 16 + l) as u8] + spec_modhex_decode(s.skip(2)),
            _ => Seq::empty(),
        }
    }
}

/// Characters denoting a byte sequence: two symbols per byte, high nibble
/// first.
pub open spec fn spec_modhex_encode(b: Seq<u8>) -> Seq<char>
    decreases b.len(),
{
    if b.len() == 0 {
        Seq::empty()
    } else {
        seq![
            spec_modhex_char(b[0] / 16),
            spec_modhex_char(b[0] % 16),
        ] + spec_modhex_encode(b.skip(1))
    }
}

/// Encoding a byte sequence always yields exactly two symbols per byte.
pub proof fn lemma_modhex_encode_len(b: Seq<u8>)
    ensures
        spec_modhex_encode(b).len() == 2 * b.len(),
    decreases b.len(),
{
    if b.len() > 0 {
        lemma_modhex_encode_len(b.skip(1));
    }
}

/// The alphabet index of the symbol of a nibble is that nibble again.
proof fn lemma_modhex_char_index(n: u8)
    requires
        n < 16,
    ensures
        spec_modhex_index(spec_modhex_char(n)) == Some(n),
{
}

/// Round-trip law: decoding an encoded byte sequence restores it exactly,
/// for every byte sequence including the empty one.
pub proof fn lemma_modhex_round_trip(b: Seq<u8>)
    ensures
        spec_modhex_decode(spec_modhex_encode(b)) == b,
    decreases b.len(),
{
    if b.len() == 0 {
        assert(spec_modhex_decode(spec_modhex_encode(b)) =~= b);
    } else {
        let e = spec_modhex_encode(b);
        let h = b[0] / 16;
        let l = b[0] % 16;
        lemma_modhex_char_index(h);
        lemma_modhex_char_index(l);
        lemma_modhex_round_trip(b.skip(1));
        assert(e.skip(2) =~= spec_modhex_encode(b.skip(1)));
        assert(h * 16 + l == b[0]);
        assert(spec_modhex_decode(e) =~= b);
    }
}

/// A ModHex string.
pub struct ModHex<'a>(pub &'a str);

/// ModHex decoder: steps through a character sequence pair by pair.
pub struct ModHexDecoder {
    chars: Vec<char>,
    pos: usize,
}

/// ModHex encoder: steps through a byte sequence emitting two symbols per
/// byte.
pub struct ModHexEncoder {
    bytes: Vec<u8>,
    pos: usize,
    buf: Option<u8>,
}

fn modhex_index(c: char) -> (r: Option<u8>)
    ensures
        r == spec_modhex_index(c),
{
    if c == 'c' {
        Some(0u8)
    } else if c == 'b' {
        Some(1u8)
    } else if c == 'd' {
        Some(2u8)
    } else if c == 'e' {
        Some(3u8)
    } else if c == 'f' {
        Some(4u8)
    } else if c == 'g' {
        Some(5u8)
    } else if c == 'h' {
        Some(6u8)
    } else if c == 'i' {
        Some(7u8)
    } else if c == 'j' {
        Some(8u8)
    } else if c == 'k' {
        Some(9u8)
    } else if c == 'l' {
        Some(10u8)
    } else if c == 'n' {
        Some(11u8)
    } else if c == 'r' {
        Some(12u8)
    } else if c == 't' {
        Some(13u8)
    } else if c == 'u' {
        Some(14u8)
    } else if c == 'v' {
        Some(15u8)
    } else {
        None
    }
}

fn modhex_char(n: u8) -> (r: char)
    requires
        n < 16,
    ensures
        r == spec_modhex_char(n),
{
    if n == 0 {
        'c'
    } else if n == 1 {
        'b'
    } else if n == 2 {
        'd'
    } else if n == 3 {
        'e'
    } else if n == 4 {
        'f'
    } else if n == 5 {
        'g'
    } else if n == 6 {
        'h'
    } else if n == 7 {
        'i'
    } else if n == 8 {
        'j'
    } else if n == 9 {
        'k'
    } else if n == 10 {
        'l'
    } else if n == 11 {
        'n'
    } else if n == 12 {
        'r'
    } else if n == 13 {
        't'
    } else if n == 14 {
        'u'
    } else {
        'v'
    }
}

impl ModHexDecoder {
    /// The characters not yet consumed.
    pub closed spec fn remaining(self) -> Seq<char> {
        self.chars@.skip(self.pos as int)
    }

    /// The position never runs past the input.
    pub closed spec fn wf(self) -> bool {
        self.pos <= self.chars@.len()
    }

    /// Create a new ModHex decoder from a sequence of chars.
    pub fn new(inner: Vec<char>) -> (r: ModHexDecoder)
        ensures
            r.wf(),
            r.remaining() == inner@,
    {
        let r = ModHexDecoder { chars: inner, pos: 0 };
        proof {
            assert(r.remaining() =~= r.chars@);
        }
        r
    }

    /// Decode the next byte: `Some` exactly while the remaining input still
    /// begins with a valid symbol pair.
    pub fn next(&mut self) -> (r: Option<u8>)
        requires
            old(self).wf(),
        ensures
            final(self).wf(),
            match r {
                Some(b) => {
                    &&& spec_modhex_decode(old(self).remaining()).len() > 0
                    &&& b == spec_modhex_decode(old(self).remaining())[0]
                    &&& spec_modhex_decode(final(self).remaining()) == spec_modhex_decode(
                        old(self).remaining(),
                    ).skip(1)
                    &&& final(self).remaining().len() < old(self).remaining().len()
                },
                None => {
                    &&& spec_modhex_decode(old(self).remaining()).len() == 0
                    &&& final(self).remaining().len() <= old(self).remaining().len()
                },
            },
    {
        let n = self.chars.len();
        if n - self.pos < 2 {
            return None;
        }
        let c_high = self.chars[self.pos];
        let c_low = self.chars[self.pos + 1];
        proof {
            assert(old(self).remaining()[0] == c_high);
            assert(old(self).remaining()[1] == c_low);
        }
        match (modhex_index(c_high), modhex_index(c_low)) {
            (Some(h), Some(l)) => {
                self.pos = self.pos + 2;
                proof {
                    assert(self.remaining() =~= old(self).remaining().skip(2));
                    assert(spec_modhex_decode(old(self).remaining()).skip(1) =~= spec_modhex_decode(
                        old(self).remaining().skip(2),
                    ));
                }
                Some(h * 16 + l)
            },
            _ => {
                self.pos = n;
                None
            },
        }
    }
}

impl ModHexEncoder {
    /// The symbols not yet emitted: a buffered low nibble, then the symbols
    /// of the bytes not yet consumed.
    pub closed spec fn remaining(self) -> Seq<char> {
        match self.buf {
            Some(l) => seq![spec_modhex_char(l)] + spec_modhex_encode(self.bytes@.skip(
                self.pos as int,
            )),
            None => spec_modhex_encode(self.bytes@.skip(self.pos as int)),
        }
    }

    /// The position never runs past the input, and any buffered nibble is a
    /// nibble.
    pub closed spec fn wf(self) -> bool {
        &&& self.pos <= self.bytes@.len()
        &&& match self.buf {
            Some(l) => l < 16,
            None => true,
        }
    }

    /// Create a new ModHex encoder from a sequence of bytes.
    pub fn new(inner: Vec<u8>) -> (r: ModHexEncoder)
        ensures
            r.wf(),
            r.remaining() == spec_modhex_encode(inner@),
    {
        let r = ModHexEncoder { bytes: inner, pos: 0, buf: None };
        proof {
            assert(r.bytes@.skip(0) =~= r.bytes@);
        }
        r
    }

    /// Emit the next symbol: `Some` exactly while output is left.
    pub fn next(&mut self) -> (r: Option<char>)
        requires
            old(self).wf(),
        ensures
            final(self).wf(),
            match r {
                Some(c) => {
                    &&& old(self).remaining().len() > 0
                    &&& c == old(self).remaining()[0]
                    &&& final(self).remaining() == old(self).remaining().skip(1)
                },
                None => {
                    &&& old(self).remaining().len() == 0
                    &&& final(self).remaining().len() == 0
                },
            },
    {
        if let Some(l) = self.buf {
            self.buf = None;
            proof {
                assert(self.remaining() =~= old(self).remaining().skip(1));
            }
            return Some(modhex_char(l));
        }
        if self.pos >= self.bytes.len() {
            return None;
        }
        let b = self.bytes[self.pos];
        self.pos = self.pos + 1;
        self.buf = Some(b % 16);
        proof {
            let rest = old(self).bytes@.skip(old(self).pos as int);
            assert(rest[0] == b);
            assert(rest.skip(1) =~= self.bytes@.skip(self.pos as int));
            assert(self.remaining() =~= old(self).remaining().skip(1));
        }
        Some(modhex_char(b / 16))
    }
}

/// Decode a full character sequence at once.
pub fn modhex_decode(chars: &Vec<char>) -> (r: Vec<u8>)
    ensures
        r@ == spec_modhex_decode(chars@),
{
    let mut r: Vec<u8> = Vec::new();
    let mut pos: usize = 0;
    let n = chars.len();
    proof {
        assert(chars@.skip(0) =~= chars@);
        assert(r@ + spec_modhex_decode(chars@) =~= spec_modhex_decode(chars@));
    }
    loop
        invariant
            pos <= n,
            n == chars@.len(),
            spec_modhex_decode(chars@) == r@ + spec_modhex_decode(chars@.skip(pos as int)),
        decreases n - pos,
    {
        if n - pos < 2 {
            proof {
                assert(spec_modhex_decode(chars@) =~= r@);
            }
            return r;
        }
        let c_high = chars[pos];
        let c_low = chars[pos + 1];
        proof {
            assert(chars@.skip(pos as int)[0] == c_high);
            assert(chars@.skip(pos as int)[1] == c_low);
        }
        match (modhex_index(c_high), modhex_index(c_low)) {
            (Some(h), Some(l)) => {
                proof {
                    assert(chars@.skip(pos as int).skip(2) =~= chars@.skip(pos as int + 2));
                    assert(r@.push((h * 16 + l) as u8) + spec_modhex_decode(
                        chars@.skip(pos as int + 2),
                    ) =~= r@ + spec_modhex_decode(chars@.skip(pos as int)));
                }
                r.push(h * 16 + l);
                pos = pos + 2;
            },
            _ => {
                proof {
                    assert(spec_modhex_decode(chars@) =~= r@);
                }
                return r;
            },
        }
    }
}

/// Encode a full byte sequence at once: exactly two symbols per byte.
pub fn modhex_encode(bytes: &Vec<u8>) -> (r: Vec<char>)
    ensures
        r@ == spec_modhex_encode(bytes@),
        r@.len() == 2 * bytes@.len(),
{
    let mut r: Vec<char> = Vec::new();
    let n = bytes.len();
    let mut i: usize = 0;
    proof {
        assert(bytes@.skip(0) =~= bytes@);
    }
    loop
        invariant
            i <= n,
            n == bytes@.len(),
            spec_modhex_encode(bytes@) == r@ + spec_modhex_encode(bytes@.skip(i as int)),
        decreases n - i,
    {
        if i >= n {
            proof {
                assert(spec_modhex_encode(bytes@) =~= r@);
                lemma_modhex_encode_len(bytes@);
            }
            return r;
        }
        let b = bytes[i];
        proof {
            let rest = bytes@.skip(i as int);
            assert(rest[0] == b);
            assert(rest.skip(1) =~= bytes@.skip(i as int + 1));
            assert((r@ + seq![spec_modhex_char(b / 16), spec_modhex_char(b % 16)])
                + spec_modhex_encode(bytes@.skip(i as int + 1)) =~= r@ + spec_modhex_encode(
                bytes@.skip(i as int),
            ));
        }
        r.push(modhex_char(b / 16));
        r.push(modhex_char(b % 16));
        i = i + 1;
    }
}

} // verus!
