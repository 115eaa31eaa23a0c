use vstd::prelude::*;

verus! {

/// The buffer with every carriage return and line feed removed and all other
/// bytes kept in order.
pub open spec fn strip_newlines_spec(s: Seq<u8>) -> Seq<u8>
    decreases s.len(),
{
    if s.len() == 0 {
        Seq::<u8>::empty()
    } else {
        let rest = strip_newlines_spec(s.drop_last());
        if s.last() == 0x0D || s.last() == 0x0A {
            rest
        } else {
            rest.push(s.last())
        }
    }
}

/// Drops carriage returns and line feeds from a buffer: the filtering step a
/// newline-skipping reader applies to each chunk it pulls from its source.
pub fn strip_newlines(input: &[u8]) -> (r: Vec<u8>)
    ensures
        r@ == strip_newlines_spec(input@),
{
    let mut out: Vec<u8> = Vec::new();
    let mut i: usize = 0;
    while i < input.len()
        invariant
            i <= input@.len(),
            out@ == strip_newlines_spec(input@.take(i as int)),
        decreases input@.len() - i,
    {
        let b = input[i];
        proof {
            assert(input@.take(i as int + 1).drop_last() =~= input@.take(i as int));
            assert(input@.take(i as int + 1).last() == input@[i as int]);
        }
        if b != 0x0D && b != 0x0A {
            out.push(b);
        }
        i = i + 1;
    }
    proof {
        assert(input@.take(i as int) =~= input@);
    }
    out
}

} // verus!
