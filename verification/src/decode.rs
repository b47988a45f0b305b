//! Small decoders over byte slices, shared by the bencode and wire formats.

use vstd::prelude::*;

verus! {

/// Why one of the small decoders failed.
#[derive(Debug, PartialEq, Eq)]
pub enum Error {
    EmptyInput,
    NoDelimeter(u8),
    Char(Mismatch<u8>),
}

/// The byte that was expected and the one that was found instead.
#[allow(dead_code)]
#[derive(Debug, PartialEq, Eq)]
pub struct Mismatch<T> {
    expect: T,
    got: T,
}

impl<T> Mismatch<T> {
    /// The value that was expected.
    pub closed spec fn expected(self) -> T {
        self.expect
    }

    /// The value that was found.
    pub closed spec fn found(self) -> T {
        self.got
    }
}

/// The index of the first occurrence of `d` in `s`, if any.
pub open spec fn find_first(s: Seq<u8>, d: u8) -> Option<int>
    decreases s.len(),
{
    if s.len() == 0 {
        None
    } else if s[0] == d {
        Some(0)
    } else {
        match find_first(s.skip(1), d) {
            Some(i) => Some(i + 1),
            None => None,
        }
    }
}

/// `find_first` gives the least index at which `d` occurs, and `None` exactly
/// when `d` does not occur.
pub proof fn lemma_find_first(s: Seq<u8>, d: u8)
    ensures
        match find_first(s, d) {
            Some(i) => 0 <= i < s.len() && s[i] == d && forall|j: int| 0 <= j < i ==> s[j] != d,
            None => forall|j: int| 0 <= j < s.len() ==> s[j] != d,
        },
    decreases s.len(),
{
    if s.len() > 0 && s[0] != d {
        lemma_find_first(s.skip(1), d);
        assert forall|j: int| 1 <= j < s.len() implies s[j] == s.skip(1)[j - 1] by {}
    }
}

/// The first index `i` with `s[i] == d` and no earlier occurrence is what
/// `find_first` returns.
pub proof fn lemma_find_first_at(s: Seq<u8>, d: u8, i: int)
    requires
        0 <= i < s.len(),
        s[i] == d,
        forall|j: int| 0 <= j < i ==> s[j] != d,
    ensures
        find_first(s, d) == Some(i),
{
    lemma_find_first(s, d);
    match find_first(s, d) {
        Some(k) => {
            if k < i {
                assert(s[k] != d);
            }
            if k > i {
                assert(s[i] != d);
            }
        },
        None => {
            assert(s[i] != d);
        },
    }
}

/// The number a big-endian four-byte prefix of `s` stands for.
pub open spec fn be_u32(s: Seq<u8>) -> int
    recommends
        s.len() >= 4,
{
    s[0] * 16777216 + s[1] * 65536 + s[2] * 256 + s[3]
}

/// Consumes the byte `expect` at the front of `input`.
pub fn char(input: &[u8], expect: u8) -> (r: Result<&[u8], Error>)
    ensures
        input@.len() == 0 ==> r == Err::<&[u8], Error>(Error::EmptyInput),
        input@.len() > 0 && input@[0] == expect ==> (r matches Ok(rest) && rest@ == input@.skip(1)),
        input@.len() > 0 && input@[0] != expect ==> (r matches Err(Error::Char(m)) && m.expected()
            == expect && m.found() == input@[0]),
{
    if input.len() == 0 {
        return Err(Error::EmptyInput);
    }
    let got = input[0];
    if got == expect {
        Ok(&input[1..input.len()])
    } else {
        Err(Error::Char(Mismatch { expect, got }))
    }
}

/// Splits `input` at the first `delimeter`: what follows it, and what comes
/// before it.
pub fn till(input: &[u8], delimeter: u8) -> (r: Result<(&[u8], &[u8]), Error>)
    ensures
        match find_first(input@, delimeter) {
            Some(i) => r matches Ok((rest, before)) && rest@ == input@.skip(i + 1) && before@
                == input@.take(i),
            None => r == Err::<(&[u8], &[u8]), Error>(Error::NoDelimeter(delimeter)),
        },
{
    let mut i: usize = 0;
    while i < input.len()
        invariant
            i <= input@.len(),
            forall|j: int| 0 <= j < i ==> input@[j] != delimeter,
        decreases input@.len() - i,
    {
        if input[i] == delimeter {
            proof {
                lemma_find_first_at(input@, delimeter, i as int);
            }
            return Ok((&input[i + 1..input.len()], &input[0..i]));
        }
        i = i + 1;
    }
    proof {
        lemma_find_first(input@, delimeter);
        if find_first(input@, delimeter) is Some {
            let k = find_first(input@, delimeter)->0;
            assert(input@[k] != delimeter);
        }
    }
    Err(Error::NoDelimeter(delimeter))
}

/// Lifts two conversions, one for the value and one for the error, to a
/// conversion of a decoder's result that keeps the rest of the input.
pub fn wrap<Input, Out, NewOut, Fail, NewFail, F: FnOnce(Out) -> NewOut, G: FnOnce(Fail) -> NewFail>(
    ok: F,
    err: G,
) -> (w: impl FnOnce(Result<(Input, Out), Fail>) -> Result<(Input, NewOut), NewFail>)
    requires
        forall|x: Out| #[trigger] call_requires(ok, (x,)),
        forall|e: Fail| #[trigger] call_requires(err, (e,)),
    ensures
        forall|r: Result<(Input, Out), Fail>| #[trigger] call_requires(w, (r,)),
        forall|r: Result<(Input, Out), Fail>, out: Result<(Input, NewOut), NewFail>|
            #[trigger] call_ensures(w, (r,), out) ==> match r {
                Ok((input, x)) => out matches Ok((i2, y)) && i2 == input && call_ensures(ok, (x,), y),
                Err(e) => out matches Err(f) && call_ensures(err, (e,), f),
            },
{
    move |result: Result<(Input, Out), Fail>| -> (out: Result<(Input, NewOut), NewFail>)
        ensures
            match result {
                Ok((input, x)) => out matches Ok((i2, y)) && i2 == input && call_ensures(ok, (x,), y),
                Err(e) => out matches Err(f) && call_ensures(err, (e,), f),
            },
        {
            match result {
                Ok((input, x)) => Ok((input, ok(x))),
                Err(e) => Err(err(e)),
            }
        }
}

/// Reads a big-endian `u32` from the first four bytes of `input`.
pub fn u32(input: &[u8]) -> (r: Option<(&[u8], u32)>)
    ensures
        input@.len() < 4 ==> r is None,
        input@.len() >= 4 ==> (r matches Some((rest, n)) && rest@ == input@.skip(4) && n
            == be_u32(input@)),
{
    if input.len() < 4 {
        None
    } else {
        let n: u32 = (input[0] as u32) * 16777216 + (input[1] as u32) * 65536 + (input[2] as u32)
            * 256 + (input[3] as u32);
        Some((&input[4..input.len()], n))
    }
}

/// The four big-endian bytes of `n`.
pub open spec fn be_bytes(n: u32) -> Seq<u8> {
    seq![(n / 16777216) as u8, ((n / 65536) % 256) as u8, ((n / 256) % 256) as u8, (n % 256) as u8]
}

/// The big-endian bytes of `n`, whatever follows them, are read back as `n`.
pub proof fn lemma_be_bytes(n: u32, rest: Seq<u8>)
    ensures
        (be_bytes(n) + rest).len() >= 4,
        be_u32(be_bytes(n) + rest) == n,
        (be_bytes(n) + rest).skip(4) == rest,
{
    let s = be_bytes(n) + rest;
    assert(s[0] == (n / 16777216) as u8);
    assert(s[1] == ((n / 65536) % 256) as u8);
    assert(s[2] == ((n / 256) % 256) as u8);
    assert(s[3] == (n % 256) as u8);
    assert((n / 16777216) * 16777216 + ((n / 65536) % 256) * 65536 + ((n / 256) % 256) * 256 + (n
        % 256) == n);
    assert(s.skip(4) =~= rest);
}

/// Appends the four big-endian bytes of `n` to `out`.
pub fn push_be_u32(out: &mut Vec<u8>, n: u32)
    ensures
        final(out)@ == old(out)@ + be_bytes(n),
{
    out.push((n / 16777216) as u8);
    out.push(((n / 65536) % 256) as u8);
    out.push(((n / 256) % 256) as u8);
    out.push((n % 256) as u8);
    proof {
        assert(out@ =~= old(out)@ + be_bytes(n));
    }
}

/// Whether `decoder`, applied to `inputs[0]`, then to what it leaves of it,
/// and so on, gave `outs` one after the other and left `inputs[i + 1]` after
/// the `i`th.
pub open spec fn decoded_in_turn<Out, Fail, D: Fn(&[u8]) -> Result<(&[u8], Out), Fail>>(
    decoder: D,
    inputs: Seq<&[u8]>,
    outs: Seq<Out>,
) -> bool {
    &&& inputs.len() == outs.len() + 1
    &&& forall|i: int|
        0 <= i < outs.len() ==> #[trigger] call_ensures(decoder, (inputs[i],), Ok((inputs[i + 1], outs[i])))
}

/// Whether applying `decoder` again and again from `input`, each time to
/// what it left, can reach `t`.
pub open spec fn reaches<Out, Fail, D: Fn(&[u8]) -> Result<(&[u8], Out), Fail>>(
    decoder: D,
    input: &[u8],
    t: &[u8],
) -> bool {
    exists|inputs: Seq<&[u8]>, outs: Seq<Out>|
        #![trigger decoded_in_turn(decoder, inputs, outs)]
        decoded_in_turn(decoder, inputs, outs) && inputs[0] == input && inputs.last() == t
}

/// Whether `decoder` can be applied again and again from `input`: on every
/// input that the run from `input` reaches it can be called, and when it
/// succeeds there it leaves fewer bytes than it was given.
pub open spec fn decodes_forward<Out, Fail, D: Fn(&[u8]) -> Result<(&[u8], Out), Fail>>(
    decoder: D,
    input: &[u8],
) -> bool {
    &&& forall|t: &[u8]| #[trigger] reaches(decoder, input, t) ==> call_requires(decoder, (t,))
    &&& forall|t: &[u8], r: Result<(&[u8], Out), Fail>|
        #[trigger] reaches(decoder, input, t) && #[trigger] call_ensures(decoder, (t,), r) ==> (
        r matches Ok((rest, _)) ==> rest@.len() < t@.len())
}

/// Lifts a decoder to one that applies it again and again, each time to
/// what it left, until it fails; it gives what is left, every value
/// decoded, in order, and the error that stopped it. It can be applied to
/// any input from which the decoder keeps consuming whenever it succeeds.
pub fn many<Out, Fail, D: Fn(&[u8]) -> Result<(&[u8], Out), Fail>>(decoder: D) -> (m: impl Fn(
    &[u8],
) -> (&[u8], Vec<Out>, Fail))
    ensures
        forall|s: &[u8]| decodes_forward(decoder, s) ==> #[trigger] call_requires(m, (s,)),
        forall|s: &[u8], res: (&[u8], Vec<Out>, Fail)|
            #[trigger] call_ensures(m, (s,), res) ==> exists|inputs: Seq<&[u8]>|
                #![trigger decoded_in_turn(decoder, inputs, res.1@)]
                decoded_in_turn(decoder, inputs, res.1@) && inputs[0] == s && inputs.last() == res.0
                    && call_ensures(decoder, (res.0,), Err(res.2)),
{
    move |input: &[u8]| -> (res: (&[u8], Vec<Out>, Fail))
        requires
            decodes_forward(decoder, input),
        ensures
            exists|inputs: Seq<&[u8]>|
                #![trigger decoded_in_turn(decoder, inputs, res.1@)]
                decoded_in_turn(decoder, inputs, res.1@) && inputs[0] == input && inputs.last() == res.0
                    && call_ensures(decoder, (res.0,), Err(res.2)),
        {
            let mut rest = input;
            let mut out: Vec<Out> = Vec::new();
            let ghost mut inputs: Seq<&[u8]> = seq![input];
            loop
                invariant
                    decodes_forward(decoder, input),
                    decoded_in_turn(decoder, inputs, out@),
                    inputs[0] == input,
                    inputs.last() == rest,
                decreases rest@.len(),
            {
                proof {
                    assert(decoded_in_turn(decoder, inputs, out@));
                    assert(reaches(decoder, input, rest));
                }
                match decoder(rest) {
                    Ok((next, x)) => {
                        proof {
                            inputs = inputs.push(next);
                        }
                        out.push(x);
                        rest = next;
                    },
                    Err(e) => {
                        let res = (rest, out, e);
                        proof {
                            assert(decoded_in_turn(decoder, inputs, res.1@));
                            assert(inputs[0] == input);
                            assert(call_ensures(decoder, (res.0,), Err(res.2)));
                        }
                        return res;
                    },
                }
            }
        }
}

} // verus!
