//! Line ending transforms, the cornerstone of this library. A transform takes the input one byte
//! at a time and writes zero, one or two bytes for it, so that it needs no state to handle a CRLF
//! pair split between two buffers: a CR is always dropped on sight.
use vstd::prelude::*;

verus! {

pub const LF_CHAR: u8 = 0x0a;

pub const CR_CHAR: u8 = 0x0d;

/// Enumeration of possible transforms.
#[derive(Debug, Clone, Copy, PartialEq, Eq, Hash, Structural)]
pub enum TransformMode {
    /// Windows line ending.
    Crlf,
    /// Unix line ending.
    Lf,
}

/// What the LF transform writes for `b`: nothing for CR, else `b` itself.
pub open spec fn lf_bytes(b: u8) -> Seq<u8> {
    if b == CR_CHAR {
        seq![]
    } else {
        seq![b]
    }
}

/// What the CRLF transform writes for `b`: nothing for CR, CR and LF for LF, else `b` itself.
pub open spec fn crlf_bytes(b: u8) -> Seq<u8> {
    if b == CR_CHAR {
        seq![]
    } else if b == LF_CHAR {
        seq![CR_CHAR, LF_CHAR]
    } else {
        seq![b]
    }
}

/// What transform `mode` writes for `b`.
pub open spec fn mode_bytes(mode: TransformMode, b: u8) -> Seq<u8> {
    match mode {
        TransformMode::Lf => lf_bytes(b),
        TransformMode::Crlf => crlf_bytes(b),
    }
}

/// The whole output of transform `mode` on the stream `s`: what it writes for each byte, in
/// order.
pub open spec fn transformed(mode: TransformMode, s: Seq<u8>) -> Seq<u8>
    decreases s.len(),
{
    if s.len() == 0 {
        seq![]
    } else {
        transformed(mode, s.drop_last()) + mode_bytes(mode, s.last())
    }
}

/// Transforming a stream in two parts gives the two outputs one after the other: a chunk
/// boundary, wherever it falls, does not change the output.
pub proof fn lemma_transformed_concat(mode: TransformMode, a: Seq<u8>, b: Seq<u8>)
    ensures
        transformed(mode, a + b) == transformed(mode, a) + transformed(mode, b),
    decreases b.len(),
{
    if b.len() == 0 {
        assert(a + b =~= a);
        assert(transformed(mode, a) + transformed(mode, b) =~= transformed(mode, a));
    } else {
        lemma_transformed_concat(mode, a, b.drop_last());
        assert((a + b).drop_last() =~= a + b.drop_last());
        assert((a + b).last() == b.last());
        assert(transformed(mode, a + b) =~= transformed(mode, a) + transformed(mode, b));
    }
}

/// Transforming one more byte appends what is written for it.
pub proof fn lemma_transformed_push(mode: TransformMode, s: Seq<u8>, b: u8)
    ensures
        transformed(mode, s.push(b)) == transformed(mode, s) + mode_bytes(mode, b),
{
    assert(s.push(b).drop_last() =~= s);
}

/// The output is at most twice as long as the input.
pub proof fn lemma_transformed_len(mode: TransformMode, s: Seq<u8>)
    ensures
        transformed(mode, s).len() <= 2 * s.len(),
    decreases s.len(),
{
    if s.len() > 0 {
        lemma_transformed_len(mode, s.drop_last());
    }
}

/// The bytes of `s` other than CR and LF, in order.
pub open spec fn line_content(s: Seq<u8>) -> Seq<u8> {
    s.filter(|b: u8| b != CR_CHAR && b != LF_CHAR)
}

/// The output of the LF transform holds no CR byte.
pub proof fn lemma_lf_output_has_no_cr(s: Seq<u8>)
    ensures
        forall|i: int|
            0 <= i < transformed(TransformMode::Lf, s).len() ==> #[trigger] transformed(
                TransformMode::Lf,
                s,
            )[i] != CR_CHAR,
    decreases s.len(),
{
    if s.len() > 0 {
        lemma_lf_output_has_no_cr(s.drop_last());
        let prev = transformed(TransformMode::Lf, s.drop_last());
        let out = transformed(TransformMode::Lf, s);
        assert forall|i: int| 0 <= i < out.len() implies #[trigger] out[i] != CR_CHAR by {
            if i < prev.len() {
                assert(out[i] == prev[i]);
            }
        }
    }
}

/// In the output of the CRLF transform, every LF byte comes right after a CR byte.
pub proof fn lemma_crlf_output_lf_follows_cr(s: Seq<u8>)
    ensures
        forall|i: int|
            0 <= i < transformed(TransformMode::Crlf, s).len() && #[trigger] transformed(
                TransformMode::Crlf,
                s,
            )[i] == LF_CHAR ==> i > 0 && transformed(TransformMode::Crlf, s)[i - 1] == CR_CHAR,
    decreases s.len(),
{
    if s.len() > 0 {
        lemma_crlf_output_lf_follows_cr(s.drop_last());
        let prev = transformed(TransformMode::Crlf, s.drop_last());
        let out = transformed(TransformMode::Crlf, s);
        assert forall|i: int| 0 <= i < out.len() && #[trigger] out[i] == LF_CHAR implies i > 0 && out[i
            - 1] == CR_CHAR by {
            if i < prev.len() {
                assert(out[i] == prev[i]);
                assert(out[i - 1] == prev[i - 1]);
            }
        }
    }
}

/// The LF transform turns what the CRLF transform wrote for `b` into what it would have
/// written for `b` itself.
proof fn lemma_lf_of_crlf_bytes(b: u8)
    ensures
        transformed(TransformMode::Lf, crlf_bytes(b)) == lf_bytes(b),
{
    reveal_with_fuel(transformed, 3);
    if b == LF_CHAR {
        let t = crlf_bytes(b);
        assert(t.drop_last() =~= seq![CR_CHAR]);
        assert(t.drop_last().drop_last() =~= Seq::<u8>::empty());
        assert(transformed(TransformMode::Lf, t) =~= lf_bytes(b));
    } else if b != CR_CHAR {
        assert(crlf_bytes(b).drop_last() =~= Seq::<u8>::empty());
        assert(transformed(TransformMode::Lf, crlf_bytes(b)) =~= lf_bytes(b));
    } else {
        assert(transformed(TransformMode::Lf, crlf_bytes(b)) =~= lf_bytes(b));
    }
}

/// The LF transform after the CRLF transform gives what the LF transform alone gives, so its
/// output holds no CR byte: a second pass to LF changes nothing that the first did not.
pub proof fn lemma_lf_after_crlf(s: Seq<u8>)
    ensures
        transformed(TransformMode::Lf, transformed(TransformMode::Crlf, s)) == transformed(
            TransformMode::Lf,
            s,
        ),
        forall|i: int|
            0 <= i < transformed(TransformMode::Lf, transformed(TransformMode::Crlf, s)).len()
                ==> #[trigger] transformed(TransformMode::Lf, transformed(TransformMode::Crlf, s))[i]
                != CR_CHAR,
    decreases s.len(),
{
    if s.len() > 0 {
        lemma_lf_after_crlf(s.drop_last());
        lemma_transformed_concat(
            TransformMode::Lf,
            transformed(TransformMode::Crlf, s.drop_last()),
            crlf_bytes(s.last()),
        );
        lemma_lf_of_crlf_bytes(s.last());
    }
    lemma_lf_output_has_no_cr(s);
}

/// The LF transform leaves a stream with no CR byte as it is.
pub proof fn lemma_lf_keeps_stream_without_cr(s: Seq<u8>)
    requires
        forall|i: int| 0 <= i < s.len() ==> s[i] != CR_CHAR,
    ensures
        transformed(TransformMode::Lf, s) == s,
    decreases s.len(),
{
    if s.len() > 0 {
        lemma_lf_keeps_stream_without_cr(s.drop_last());
        assert(s.drop_last().push(s.last()) =~= s);
    }
}

/// On a stream with no CR byte, the CRLF transform and then the LF transform give back the
/// stream.
pub proof fn lemma_round_trip_without_cr(s: Seq<u8>)
    requires
        forall|i: int| 0 <= i < s.len() ==> s[i] != CR_CHAR,
    ensures
        transformed(TransformMode::Lf, transformed(TransformMode::Crlf, s)) == s,
{
    lemma_lf_after_crlf(s);
    lemma_lf_keeps_stream_without_cr(s);
}

/// Either transform keeps the bytes other than CR and LF, in order.
pub proof fn lemma_content_kept(mode: TransformMode, s: Seq<u8>)
    ensures
        line_content(transformed(mode, s)) == line_content(s),
    decreases s.len(),
{
    let keep = |b: u8| b != CR_CHAR && b != LF_CHAR;
    if s.len() > 0 {
        lemma_content_kept(mode, s.drop_last());
        let b = s.last();
        Seq::filter_distributes_over_add(transformed(mode, s.drop_last()), mode_bytes(mode, b), keep);
        Seq::filter_distributes_over_add(s.drop_last(), seq![b], keep);
        assert(s.drop_last() + seq![b] =~= s);
        reveal_with_fuel(Seq::filter, 3);
        let m = mode_bytes(mode, b);
        if m.len() == 2 {
            assert(m.drop_last() =~= seq![CR_CHAR]);
            assert(m.drop_last().drop_last() =~= Seq::<u8>::empty());
        } else if m.len() == 1 {
            assert(m.drop_last() =~= Seq::<u8>::empty());
        }
        assert(seq![b].drop_last() =~= Seq::<u8>::empty());
        assert(m.filter(keep) =~= seq![b].filter(keep));
    } else {
        assert(line_content(transformed(mode, s)) =~= line_content(s));
    }
}

/// Trait used for transformation of the input. It works on buffers due to the memory consumption
/// and performance reasons.
pub trait Transform: Sized {
    /// The bytes that the transform writes for the input byte `byte`.
    spec fn emits(&self, byte: u8) -> Seq<u8>;

    /// Transforms the input to the output. Most of the time it just copies the byte at index
    /// `in_ptr` from the input to the index `out_ptr` of the output. The function also returns
    /// the position of the first next writable byte in the output buffer, that is, one behind the
    /// last written one. The output must have room for two bytes at `out_ptr`.
    fn transform_buffer(&mut self, in_ptr: usize, out_ptr: usize, input: &[u8], output: &mut [u8]) -> (r:
        usize)
        requires
            in_ptr < input@.len(),
            out_ptr + 2 <= old(output)@.len(),
        ensures
            r == out_ptr + old(self).emits(input@[in_ptr as int]).len(),
            final(output)@ == old(output)@.subrange(0, out_ptr as int) + old(self).emits(
                input@[in_ptr as int],
            ) + old(output)@.subrange(r as int, old(output)@.len() as int),
            *final(self) == *old(self),
    ;
}

/// The transform to LF line endings.
#[derive(Debug, Clone, Copy, PartialEq, Eq)]
pub struct Lf;

impl Lf {
    pub fn new() -> (r: Self) {
        Lf
    }
}

impl Transform for Lf {
    open spec fn emits(&self, byte: u8) -> Seq<u8> {
        lf_bytes(byte)
    }

    fn transform_buffer(&mut self, in_ptr: usize, out_ptr: usize, input: &[u8], output: &mut [u8]) -> (r:
        usize) {
        let ghost before = output@;
        let mut ptr = out_ptr;
        if input[in_ptr] != CR_CHAR {
            output[ptr] = input[in_ptr];
            ptr += 1;
        }
        assert(output@ =~= before.subrange(0, out_ptr as int) + lf_bytes(input@[in_ptr as int])
            + before.subrange(ptr as int, before.len() as int));
        ptr
    }
}

/// The transform to CRLF line endings.
#[derive(Debug, Clone, Copy, PartialEq, Eq)]
pub struct Crlf;

impl Crlf {
    pub fn new() -> (r: Self) {
        Crlf
    }
}

impl Transform for Crlf {
    open spec fn emits(&self, byte: u8) -> Seq<u8> {
        crlf_bytes(byte)
    }

    fn transform_buffer(&mut self, in_ptr: usize, out_ptr: usize, input: &[u8], output: &mut [u8]) -> (r:
        usize) {
        let ghost before = output@;
        let mut ptr = out_ptr;
        if input[in_ptr] != CR_CHAR {
            if input[in_ptr] == LF_CHAR {
                output[ptr] = CR_CHAR;
                ptr += 1;
            }
            output[ptr] = input[in_ptr];
            ptr += 1;
        }
        assert(output@ =~= before.subrange(0, out_ptr as int) + crlf_bytes(input@[in_ptr as int])
            + before.subrange(ptr as int, before.len() as int));
        ptr
    }
}

impl Transform for TransformMode {
    open spec fn emits(&self, byte: u8) -> Seq<u8> {
        mode_bytes(*self, byte)
    }

    fn transform_buffer(&mut self, in_ptr: usize, out_ptr: usize, input: &[u8], output: &mut [u8]) -> (r:
        usize) {
        match self {
            TransformMode::Lf => {
                let mut lf = Lf::new();
                lf.transform_buffer(in_ptr, out_ptr, input, output)
            },
            TransformMode::Crlf => {
                let mut crlf = Crlf::new();
                crlf.transform_buffer(in_ptr, out_ptr, input, output)
            },
        }
    }
}

} // verus!
