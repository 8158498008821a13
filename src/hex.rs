use vstd::prelude::*;

verus! {

/// The lower-case ASCII hex digit of a value below 16.
pub open spec fn hex_digit(v: nat) -> u8 {
    if v < 10 {
        (48 + v) as u8
    } else {
        (87 + v) as u8
    }
}

/// Two hex digits per byte, high nibble first.
pub open spec fn hex_digits(b: Seq<u8>) -> Seq<u8>
    decreases b.len(),
{
    if b.len() == 0 {
        Seq::empty()
    } else {
        hex_digits(b.drop_last()) + seq![hex_digit(b.last() as nat / 16), hex_digit(b.last() as nat % 16)]
    }
}

/// The text of a byte string: "0x" followed by its hex digits.
pub open spec fn hex_text(b: Seq<u8>) -> Seq<u8> {
    seq![48u8, 120u8] + hex_digits(b)
}

fn digit(v: u8) -> (r: u8)
    requires
        v < 16,
    ensures
        r == hex_digit(v as nat),
{
    if v < 10 {
        48 + v
    } else {
        87 + v
    }
}

/// The "0x"-prefixed lower-case hex text of a byte string, as ASCII bytes.
pub fn hex_encode(b: &Vec<u8>) -> (r: Vec<u8>)
    ensures
        r@ == hex_text(b@),
{
    let mut r: Vec<u8> = Vec::new();
    r.push(48u8);
    r.push(120u8);
    let mut i: usize = 0;
    assert(b@.subrange(0, 0) =~= Seq::<u8>::empty());
    assert(r@ =~= hex_text(b@.subrange(0, 0)));
    while i < b.len()
        invariant
            i <= b@.len(),
            r@ == hex_text(b@.subrange(0, i as int)),
        decreases b@.len() - i,
    {
        let x = b[i];
        r.push(digit(x / 16));
        r.push(digit(x % 16));
        assert(b@.subrange(0, i + 1).drop_last() =~= b@.subrange(0, i as int));
        assert(r@ =~= hex_text(b@.subrange(0, i + 1)));
        i = i + 1;
    }
    assert(b@.subrange(0, i as int) =~= b@);
    r
}

} // verus!
