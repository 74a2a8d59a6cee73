//! The 32-byte block digest and its lowercase-hex text form.
use vstd::prelude::*;
use vstd::string::*;

verus! {

broadcast use vstd::array::group_array_axioms, vstd::string::group_string_axioms;

/// The lowercase hex digit for a nibble value below 16.
pub open spec fn hex_digit(n: int) -> char {
    if n == 0 {
        '0'
    } else if n == 1 {
        '1'
    } else if n == 2 {
        '2'
    } else if n == 3 {
        '3'
    } else if n == 4 {
        '4'
    } else if n == 5 {
        '5'
    } else if n == 6 {
        '6'
    } else if n == 7 {
        '7'
    } else if n == 8 {
        '8'
    } else if n == 9 {
        '9'
    } else if n == 10 {
        'a'
    } else if n == 11 {
        'b'
    } else if n == 12 {
        'c'
    } else if n == 13 {
        'd'
    } else if n == 14 {
        'e'
    } else {
        'f'
    }
}

/// Canonical lowercase-hex rendering of a byte sequence: two digits per byte.
pub open spec fn hex_of(bytes: Seq<u8>) -> Seq<char>
    decreases bytes.len(),
{
    if bytes.len() == 0 {
        Seq::empty()
    } else {
        seq![hex_digit(bytes[0] as int / 16), hex_digit(bytes[0] as int % 16)] + hex_of(
            bytes.drop_first(),
        )
    }
}

/// A character that the hex decoder accepts (either case).
pub open spec fn is_hex_char(c: char) -> bool {
    ('0' as u32 <= c as u32 && c as u32 <= '9' as u32) || ('a' as u32 <= c as u32 && c as u32
        <= 'f' as u32) || ('A' as u32 <= c as u32 && c as u32 <= 'F' as u32)
}

/// The nibble value of a hex character.
pub open spec fn hex_val(c: char) -> int {
    if '0' as u32 <= c as u32 && c as u32 <= '9' as u32 {
        c as int - '0' as int
    } else if 'a' as u32 <= c as u32 && c as u32 <= 'f' as u32 {
        c as int - 'a' as int + 10
    } else {
        c as int - 'A' as int + 10
    }
}

pub open spec fn all_hex(s: Seq<char>) -> bool {
    forall|i: int| 0 <= i < s.len() ==> is_hex_char(#[trigger] s[i])
}

/// The bytes denoted by an even-length hex character sequence.
pub open spec fn hex_bytes(s: Seq<char>) -> Seq<u8>
    decreases s.len(),
{
    if s.len() < 2 {
        Seq::empty()
    } else {
        seq![(hex_val(s[0]) * 16 + hex_val(s[1])) as u8] + hex_bytes(s.skip(2))
    }
}

pub proof fn lemma_hex_of_len(bytes: Seq<u8>)
    ensures
        hex_of(bytes).len() == 2 * bytes.len(),
    decreases bytes.len(),
{
    if bytes.len() > 0 {
        lemma_hex_of_len(bytes.drop_first());
    }
}

pub proof fn lemma_hex_of_append(a: Seq<u8>, b: Seq<u8>)
    ensures
        hex_of(a + b) == hex_of(a) + hex_of(b),
    decreases a.len(),
{
    if a.len() == 0 {
        assert(a + b =~= b);
        assert(hex_of(a) + hex_of(b) =~= hex_of(b));
    } else {
        lemma_hex_of_append(a.drop_first(), b);
        assert((a + b).drop_first() =~= a.drop_first() + b);
        assert(hex_of(a + b) =~= hex_of(a) + hex_of(b));
    }
}

pub proof fn lemma_hex_of_all_hex(bytes: Seq<u8>)
    ensures
        all_hex(hex_of(bytes)),
    decreases bytes.len(),
{
    if bytes.len() > 0 {
        lemma_hex_of_all_hex(bytes.drop_first());
        assert forall|i: int| 0 <= i < hex_of(bytes).len() implies is_hex_char(
            #[trigger] hex_of(bytes)[i],
        ) by {
            if i >= 2 {
                assert(hex_of(bytes)[i] == hex_of(bytes.drop_first())[i - 2]);
            }
        }
    }
}

/// Decoding inverts encoding: the digits of a byte sequence read back as those bytes.
pub proof fn lemma_hex_roundtrip(bytes: Seq<u8>)
    ensures
        hex_bytes(hex_of(bytes)) == bytes,
    decreases bytes.len(),
{
    if bytes.len() == 0 {
        assert(hex_bytes(hex_of(bytes)) =~= bytes);
    } else {
        lemma_hex_roundtrip(bytes.drop_first());
        let s = hex_of(bytes);
        assert(s.skip(2) =~= hex_of(bytes.drop_first()));
        let b = bytes[0] as int;
        assert(hex_val(hex_digit(b / 16)) == b / 16);
        assert(hex_val(hex_digit(b % 16)) == b % 16);
        assert(hex_val(s[0]) * 16 + hex_val(s[1]) == b);
        assert(hex_bytes(s) =~= bytes);
    }
}

pub proof fn lemma_hex_bytes_len(s: Seq<char>)
    ensures
        hex_bytes(s).len() == s.len() / 2,
    decreases s.len(),
{
    if s.len() >= 2 {
        lemma_hex_bytes_len(s.skip(2));
    }
}

/// The digit pair of byte `k` stands at offsets `2k` and `2k+1`.
pub proof fn lemma_hex_of_index(bytes: Seq<u8>, k: int)
    requires
        0 <= k < bytes.len(),
    ensures
        hex_of(bytes).len() == 2 * bytes.len(),
        hex_of(bytes)[2 * k] == hex_digit(bytes[k] as int / 16),
        hex_of(bytes)[2 * k + 1] == hex_digit(bytes[k] as int % 16),
    decreases k,
{
    lemma_hex_of_len(bytes);
    if k > 0 {
        lemma_hex_of_index(bytes.drop_first(), k - 1);
    }
}

proof fn lemma_hex_digit_inj(m1: int, m2: int)
    requires
        0 <= m1 < 16,
        0 <= m2 < 16,
        hex_digit(m1) == hex_digit(m2),
    ensures
        m1 == m2,
{
}

/// Byte sequences of one length with the same digits are the same bytes.
pub proof fn lemma_hex_of_inj(h1: Seq<u8>, h2: Seq<u8>)
    requires
        h1.len() == h2.len(),
        hex_of(h1) == hex_of(h2),
    ensures
        h1 == h2,
{
    assert forall|k: int| 0 <= k < h1.len() implies h1[k] == h2[k] by {
        lemma_hex_of_index(h1, k);
        lemma_hex_of_index(h2, k);
        lemma_hex_digit_inj(h1[k] as int / 16, h2[k] as int / 16);
        lemma_hex_digit_inj(h1[k] as int % 16, h2[k] as int % 16);
    }
    assert(h1 =~= h2);
}

/// A 256-bit block digest, stored as 32 raw bytes.
#[derive(Clone, Copy, Debug)]
pub struct Hash(pub [u8; 32]);

impl View for Hash {
    type V = Seq<u8>;

    open spec fn view(&self) -> Seq<u8> {
        self.0@
    }
}

/// Appends the lowercase hex digit of a nibble.
pub(crate) fn push_hex_digit(s: &mut String, n: u8)
    requires
        n < 16,
    ensures
        final(s)@ == old(s)@ + seq![hex_digit(n as int)],
{
    proof {
        reveal_strlit("0");
        reveal_strlit("1");
        reveal_strlit("2");
        reveal_strlit("3");
        reveal_strlit("4");
        reveal_strlit("5");
        reveal_strlit("6");
        reveal_strlit("7");
        reveal_strlit("8");
        reveal_strlit("9");
        reveal_strlit("a");
        reveal_strlit("b");
        reveal_strlit("c");
        reveal_strlit("d");
        reveal_strlit("e");
        reveal_strlit("f");
    }
    if n == 0 {
        s.append("0");
    } else if n == 1 {
        s.append("1");
    } else if n == 2 {
        s.append("2");
    } else if n == 3 {
        s.append("3");
    } else if n == 4 {
        s.append("4");
    } else if n == 5 {
        s.append("5");
    } else if n == 6 {
        s.append("6");
    } else if n == 7 {
        s.append("7");
    } else if n == 8 {
        s.append("8");
    } else if n == 9 {
        s.append("9");
    } else if n == 10 {
        s.append("a");
    } else if n == 11 {
        s.append("b");
    } else if n == 12 {
        s.append("c");
    } else if n == 13 {
        s.append("d");
    } else if n == 14 {
        s.append("e");
    } else {
        s.append("f");
    }
    assert(s@ =~= old(s)@ + seq![hex_digit(n as int)]);
}

/// Appends the two hex digits of one byte.
pub fn push_hex_byte(s: &mut String, b: u8)
    ensures
        final(s)@ == old(s)@ + hex_of(seq![b]),
{
    push_hex_digit(s, b / 16);
    push_hex_digit(s, b % 16);
    proof {
        let sb = seq![b];
        assert(sb.drop_first() =~= Seq::<u8>::empty());
        assert(hex_of(Seq::<u8>::empty()) =~= Seq::<char>::empty());
        assert(hex_of(sb) =~= seq![hex_digit(b as int / 16), hex_digit(b as int % 16)]);
        assert(s@ =~= old(s)@ + hex_of(sb));
    }
}

impl Hash {
    /// The canonical 64-character lowercase hex form of this digest.
    pub fn to_hex(&self) -> (r: String)
        ensures
            r@ == hex_of(self@),
    {
        let mut out = String::new();
        let mut i: usize = 0;
        while i < 32
            invariant
                i <= 32,
                out@ == hex_of(self@.subrange(0, i as int)),
            decreases 32 - i,
        {
            let b = self.0[i];
            push_hex_byte(&mut out, b);
            proof {
                let pre = self@.subrange(0, i as int);
                assert(self@.subrange(0, i + 1) =~= pre + seq![b]);
                lemma_hex_of_append(pre, seq![b]);
            }
            i = i + 1;
        }
        proof {
            assert(self@.subrange(0, 32) =~= self@);
        }
        out
    }

    /// The all-zero digest that precedes any real block.
    pub fn zero() -> (r: Hash)
        ensures
            r@ =~= Seq::new(32, |i: int| 0u8),
    {
        Hash([0u8; 32])
    }
}

/// Decodes a hex string into bytes; `None` when the length is odd or a
/// character is not a hex digit, exactly as a strict hex decoder rejects it.
pub fn decode_hex(s: &str) -> (r: Option<Vec<u8>>)
    ensures
        match r {
            Some(v) => s@.len() % 2 == 0 && all_hex(s@) && v@ == hex_bytes(s@),
            None => !(s@.len() % 2 == 0 && all_hex(s@)),
        },
{
    let n = s.unicode_len();
    if n % 2 != 0 {
        return None;
    }
    let mut out: Vec<u8> = Vec::new();
    let mut i: usize = 0;
    while i < n
        invariant
            n == s@.len(),
            n % 2 == 0,
            i % 2 == 0,
            i <= n,
            out@ == hex_bytes(s@.subrange(0, i as int)),
            forall|j: int| 0 <= j < i ==> is_hex_char(#[trigger] s@[j]),
        decreases n - i,
    {
        let c0 = s.get_char(i);
        let c1 = s.get_char(i + 1);
        let v0 = hex_char_val(c0);
        let v1 = hex_char_val(c1);
        match (v0, v1) {
            (Some(a), Some(b)) => {
                out.push(a * 16 + b);
                proof {
                    lemma_hex_bytes_snoc(s@.subrange(0, i as int), s@[i as int], s@[i + 1]);
                    assert(s@.subrange(0, i + 2) =~= s@.subrange(0, i as int) + seq![
                        s@[i as int],
                        s@[i + 1],
                    ]);
                }
                i = i + 2;
            },
            _ => {
                return None;
            },
        }
    }
    proof {
        assert(s@.subrange(0, n as int) =~= s@);
    }
    Some(out)
}

proof fn lemma_hex_bytes_snoc(s: Seq<char>, c0: char, c1: char)
    requires
        s.len() % 2 == 0,
    ensures
        hex_bytes(s + seq![c0, c1]) == hex_bytes(s) + seq![(hex_val(c0) * 16 + hex_val(c1)) as u8],
    decreases s.len(),
{
    if s.len() == 0 {
        let t = seq![c0, c1];
        assert(s + t =~= t);
        assert(t.skip(2) =~= Seq::<char>::empty());
        assert(hex_bytes(Seq::<char>::empty()) =~= Seq::<u8>::empty());
        assert(hex_bytes(s) =~= Seq::<u8>::empty());
        assert(t[0] == c0 && t[1] == c1);
        assert(hex_bytes(t) =~= seq![(hex_val(c0) * 16 + hex_val(c1)) as u8] + hex_bytes(t.skip(2)));
        assert(hex_bytes(s + t) =~= hex_bytes(s) + seq![(hex_val(c0) * 16 + hex_val(c1)) as u8]);
    } else {
        lemma_hex_bytes_snoc(s.skip(2), c0, c1);
        assert((s + seq![c0, c1]).skip(2) =~= s.skip(2) + seq![c0, c1]);
        assert(hex_bytes(s + seq![c0, c1]) =~= hex_bytes(s) + seq![
            (hex_val(c0) * 16 + hex_val(c1)) as u8,
        ]);
    }
}

/// The nibble value of one character, or `None` when it is not a hex digit.
fn hex_char_val(c: char) -> (r: Option<u8>)
    ensures
        match r {
            Some(v) => is_hex_char(c) && v as int == hex_val(c) && v < 16,
            None => !is_hex_char(c),
        },
{
    let u = c as u32;
    if '0' as u32 <= u && u <= '9' as u32 {
        Some((u - '0' as u32) as u8)
    } else if 'a' as u32 <= u && u <= 'f' as u32 {
        Some((u - 'a' as u32 + 10) as u8)
    } else if 'A' as u32 <= u && u <= 'F' as u32 {
        Some((u - 'A' as u32 + 10) as u8)
    } else {
        None
    }
}

} // verus!
