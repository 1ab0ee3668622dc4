use vstd::bytes::{
    lemma_auto_spec_u64_to_from_le_bytes, spec_u64_from_le_bytes, spec_u64_to_le_bytes,
    u64_from_le_bytes, u64_to_le_bytes,
};
use vstd::prelude::*;

verus! {

/// A lowercase hexadecimal digit for a value below sixteen.
pub open spec fn hex_digit(n: int) -> u8 {
    if n < 10 {
        (48 + n) as u8
    } else {
        (87 + n) as u8
    }
}

/// The value of a hexadecimal digit byte; negative for a non-digit.
pub open spec fn hex_val(c: u8) -> int {
    if 48 <= c <= 57 {
        c - 48
    } else if 97 <= c <= 102 {
        c - 87
    } else {
        -1
    }
}

/// Two hexadecimal digits for one byte, high nibble first.
pub open spec fn spec_hex_byte(b: u8) -> Seq<u8> {
    seq![hex_digit(b as int / 16), hex_digit(b as int % 16)]
}

/// The hexadecimal text of a byte sequence.
pub open spec fn spec_hex_bytes(bs: Seq<u8>) -> Seq<u8>
    decreases bs.len(),
{
    if bs.len() == 0 {
        Seq::empty()
    } else {
        spec_hex_byte(bs[0]).add(spec_hex_bytes(bs.subrange(1, bs.len() as int)))
    }
}

/// Read hexadecimal text back into bytes; None on a non-digit or odd length.
pub open spec fn spec_unhex_bytes(s: Seq<u8>) -> Option<Seq<u8>>
    decreases s.len(),
{
    if s.len() == 0 {
        Some(Seq::empty())
    } else if s.len() >= 2 && hex_val(s[0]) >= 0 && hex_val(s[1]) >= 0 {
        match spec_unhex_bytes(s.subrange(2, s.len() as int)) {
            None => None,
            Some(bs) => Some(seq![(hex_val(s[0]) * 16 + hex_val(s[1])) as u8].add(bs)),
        }
    } else {
        None
    }
}

pub proof fn lemma_hex_bytes_len(bs: Seq<u8>)
    ensures
        spec_hex_bytes(bs).len() == 2 * bs.len(),
    decreases bs.len(),
{
    if bs.len() > 0 {
        lemma_hex_bytes_len(bs.subrange(1, bs.len() as int));
    }
}

/// Hexadecimal text reads back as the bytes it was written from.
pub proof fn lemma_hex_bytes_roundtrip(bs: Seq<u8>)
    ensures
        spec_unhex_bytes(spec_hex_bytes(bs)) == Some(bs),
    decreases bs.len(),
{
    if bs.len() == 0 {
        assert(spec_hex_bytes(bs) =~= Seq::<u8>::empty());
    } else {
        let tail = bs.subrange(1, bs.len() as int);
        lemma_hex_bytes_roundtrip(tail);
        let s = spec_hex_bytes(bs);
        let b = bs[0];
        assert(s[0] == hex_digit(b as int / 16) && s[1] == hex_digit(b as int % 16));
        assert(hex_val(hex_digit(b as int / 16)) == b as int / 16);
        assert(hex_val(hex_digit(b as int % 16)) == b as int % 16);
        assert(s.subrange(2, s.len() as int) =~= spec_hex_bytes(tail));
        assert((hex_val(s[0]) * 16 + hex_val(s[1])) as u8 == b);
        assert(seq![b].add(tail) =~= bs);
    }
}

/// Sixteen hexadecimal digits for a 64-bit value, low byte first.
pub open spec fn spec_hex_u64(x: u64) -> Seq<u8> {
    spec_hex_bytes(spec_u64_to_le_bytes(x))
}

/// Read sixteen hexadecimal digits back into a 64-bit value.
pub open spec fn spec_unhex_u64(s: Seq<u8>) -> Option<u64> {
    if s.len() == 16 {
        match spec_unhex_bytes(s) {
            None => None,
            Some(bs) => Some(spec_u64_from_le_bytes(bs)),
        }
    } else {
        None
    }
}

pub proof fn lemma_hex_u64_roundtrip(x: u64)
    ensures
        spec_hex_u64(x).len() == 16,
        spec_unhex_u64(spec_hex_u64(x)) == Some(x),
{
    lemma_auto_spec_u64_to_from_le_bytes();
    lemma_hex_bytes_len(spec_u64_to_le_bytes(x));
    lemma_hex_bytes_roundtrip(spec_u64_to_le_bytes(x));
}

/// Append the sixteen-digit hexadecimal text of a 64-bit value.
pub fn push_hex_u64(out: &mut Vec<u8>, x: u64)
    ensures
        final(out)@ == old(out)@.add(spec_hex_u64(x)),
{
    let bytes = u64_to_le_bytes(x);
    let ghost bs = bytes@;
    let mut i: usize = 0;
    proof {
        assert(bs.subrange(0, 8) =~= bs);
    }
    while i < bytes.len()
        invariant
            bytes@ == bs,
            bs.len() == 8,
            0 <= i <= 8,
            old(out)@.add(spec_hex_bytes(bs)) == out@.add(
                spec_hex_bytes(bs.subrange(i as int, 8)),
            ),
        decreases 8 - i,
    {
        let b = bytes[i];
        let ghost rest = bs.subrange(i as int, 8);
        let ghost out0 = out@;
        let hi = b / 16;
        let lo = b % 16;
        out.push(if hi < 10 { 48 + hi } else { 87 + hi });
        out.push(if lo < 10 { 48 + lo } else { 87 + lo });
        proof {
            assert(rest[0] == b);
            assert(rest.subrange(1, rest.len() as int) =~= bs.subrange(i as int + 1, 8));
            assert(out@ =~= out0.add(spec_hex_byte(b)));
            assert(out0.add(spec_hex_byte(b).add(spec_hex_bytes(bs.subrange(i as int + 1, 8))))
                =~= out0.add(spec_hex_byte(b)).add(spec_hex_bytes(bs.subrange(i as int + 1, 8))));
        }
        i = i + 1;
    }
    proof {
        assert(bs.subrange(8, 8) =~= Seq::<u8>::empty());
        assert(out@.add(Seq::<u8>::empty()) =~= out@);
    }
}

/// Read the sixteen-digit hexadecimal text at off back into a 64-bit value,
/// exactly as the specification reader does.
pub fn read_hex_u64(s: &Vec<u8>, off: usize) -> (r: Option<u64>)
    requires
        off + 16 <= s@.len(),
    ensures
        r == spec_unhex_u64(s@.subrange(off as int, off as int + 16)),
{
    let total = s.len();
    let ghost win = s@.subrange(off as int, off as int + 16);
    let mut bytes: Vec<u8> = Vec::new();
    let mut i: usize = 0;
    proof {
        assert(win.subrange(0, 16) =~= win);
        assert forall|bs: Seq<u8>| #[trigger] Seq::<u8>::empty().add(bs) == bs by {
            assert(Seq::<u8>::empty().add(bs) =~= bs);
        }
    }
    while i < 8
        invariant
            off + 16 <= s@.len(),
            total == s@.len(),
            win == s@.subrange(off as int, off as int + 16),
            0 <= i <= 8,
            bytes@.len() == i,
            spec_unhex_bytes(win) == match spec_unhex_bytes(
                win.subrange(2 * i as int, 16),
            ) {
                None => None::<Seq<u8>>,
                Some(bs) => Some(bytes@.add(bs)),
            },
        decreases 8 - i,
    {
        proof {
            assert(off as int + 2 * (i as int) + 1 < s@.len());
        }
        let c1 = s[off + 2 * i];
        let c2 = s[off + 2 * i + 1];
        let v1: i64 = if 48 <= c1 && c1 <= 57 {
            (c1 - 48) as i64
        } else if 97 <= c1 && c1 <= 102 {
            (c1 - 87) as i64
        } else {
            -1
        };
        let v2: i64 = if 48 <= c2 && c2 <= 57 {
            (c2 - 48) as i64
        } else if 97 <= c2 && c2 <= 102 {
            (c2 - 87) as i64
        } else {
            -1
        };
        proof {
            assert(win[2 * i as int] == c1);
            assert(win[2 * i as int + 1] == c2);
            assert(v1 as int == hex_val(c1));
            assert(v2 as int == hex_val(c2));
        }
        if v1 < 0 || v2 < 0 {
            proof {
                assert(spec_unhex_bytes(win.subrange(2 * i as int, 16)) is None);
            }
            return None;
        }
        let ghost bytes0 = bytes@;
        bytes.push((v1 * 16 + v2) as u8);
        proof {
            let rest = win.subrange(2 * i as int, 16);
            assert(rest[0] == c1 && rest[1] == c2);
            assert(rest.subrange(2, rest.len() as int) =~= win.subrange(2 * (i as int + 1), 16));
            assert(bytes@ =~= bytes0.push((hex_val(c1) * 16 + hex_val(c2)) as u8));
            assert forall|bs: Seq<u8>|
                spec_unhex_bytes(win.subrange(2 * (i as int + 1), 16)) == Some(bs) implies bytes0.add(
                seq![(hex_val(c1) * 16 + hex_val(c2)) as u8].add(bs),
            ) =~= bytes@.add(bs) by {}
        }
        i = i + 1;
    }
    proof {
        assert(win.subrange(16, 16) =~= Seq::<u8>::empty());
        assert(bytes@.add(Seq::<u8>::empty()) =~= bytes@);
        assert(win.len() == 16);
    }
    let x = u64_from_le_bytes(bytes.as_slice());
    Some(x)
}

} // verus!
