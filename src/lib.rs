//! Changes line endings of a byte stream to LF or CRLF, and checks on the way that the stream is
//! in the expected encoding.
//!
//! The input is taken in chunks of at most `BUFFER_SIZE` bytes. A [`Processor`] checks and
//! transforms one chunk at a time, so that a caller which reads and writes a stream never holds
//! more than a chunk of it; [`process`] runs it over an input held in memory.
use vstd::prelude::*;

pub mod encodings;
pub mod transforms;

pub use encodings::{Encoding, EncodingChecker};
pub use transforms::{Transform, TransformMode};

use encodings::{encoding_name, lemma_run_concat, lemma_run_push, run, Checker};
use transforms::{lemma_transformed_concat, lemma_transformed_len, lemma_transformed_push, transformed};

verus! {

/// The size of one chunk of the input.
pub const BUFFER_SIZE: usize = 4096;

/// The I/O error of std, carried by [`ParseError::IoError`]; nothing is read from it.
#[verifier::external_type_specification]
#[verifier::external_body]
pub struct ExIoError(std::io::Error);

/// Configuration for processing. Two things can be set: encoding of input and type of line
/// ending.
#[derive(Debug, Clone, Copy, PartialEq, Eq)]
pub struct Config {
    encoding_checker: Encoding,
    transform_mode: TransformMode,
}

impl Config {
    /// The encoding that the input is checked against.
    pub closed spec fn spec_encoding(&self) -> Encoding {
        self.encoding_checker
    }

    /// The line ending that the output gets.
    pub closed spec fn spec_transform(&self) -> TransformMode {
        self.transform_mode
    }

    /// Creates default instance of the config (no encoding check, LF).
    pub fn new() -> (r: Self)
        ensures
            r.spec_encoding() == Encoding::Ignore,
            r.spec_transform() == TransformMode::Lf,
    {
        Config { encoding_checker: Encoding::Ignore, transform_mode: TransformMode::Lf }
    }

    /// Changes the encoding.
    pub fn encoding(self, encoding: Encoding) -> (r: Self)
        ensures
            r.spec_encoding() == encoding,
            r.spec_transform() == self.spec_transform(),
    {
        Config { encoding_checker: encoding, ..self }
    }

    /// Changes the transformation.
    pub fn transform(self, transform: TransformMode) -> (r: Self)
        ensures
            r.spec_encoding() == self.spec_encoding(),
            r.spec_transform() == transform,
    {
        Config { transform_mode: transform, ..self }
    }
}

impl Default for Config {
    fn default() -> (r: Self)
        ensures
            r.spec_encoding() == Encoding::Ignore,
            r.spec_transform() == TransformMode::Lf,
    {
        Config::new()
    }
}

/// Error which can occur during processing.
#[derive(Debug)]
pub enum ParseError {
    /// The input is in invalid encoding. This enum variant also holds the name of expected
    /// encoding.
    InvalidEncoding(String),
    /// An I/O error occurred.
    IoError(std::io::Error),
}


/// One run of processing over a stream: the checker of the configured encoding, in the state
/// that the input seen so far has brought it to, and the transform. It is made at the start of
/// the run and fed the chunks of the input in order.
pub struct Processor {
    checker: Checker,
    transform: TransformMode,
    encoding: Encoding,
}

impl Processor {
    /// The checker, in the state reached on the input seen so far.
    pub closed spec fn spec_checker(&self) -> Checker {
        self.checker
    }

    /// The transform applied.
    pub closed spec fn spec_transform(&self) -> TransformMode {
        self.transform
    }

    /// The encoding checked, named in errors.
    pub closed spec fn spec_encoding(&self) -> Encoding {
        self.encoding
    }

    /// Starts a run with the given configuration.
    pub fn new(config: Config) -> (r: Self)
        ensures
            r.spec_checker() == Checker::fresh(config.spec_encoding()),
            r.spec_transform() == config.spec_transform(),
            r.spec_encoding() == config.spec_encoding(),
    {
        Processor {
            checker: config.encoding_checker.checker(),
            transform: config.transform_mode,
            encoding: config.encoding_checker,
        }
    }

    /// Checks and transforms the next chunk of the input. The transformed bytes are written to
    /// the front of `write_buffer`, and their number is returned. Where the checker refuses a
    /// byte of the chunk, the error names the encoding, and the run must not go on.
    pub fn process_chunk(&mut self, chunk: &[u8], write_buffer: &mut [u8]) -> (r: Result<
        usize,
        ParseError,
    >)
        requires
            2 * chunk@.len() <= old(write_buffer)@.len(),
        ensures
            final(self).spec_transform() == old(self).spec_transform(),
            final(self).spec_encoding() == old(self).spec_encoding(),
            final(write_buffer)@.len() == old(write_buffer)@.len(),
            r is Ok <==> run(old(self).spec_checker(), chunk@) is Some,
            r is Ok ==> {
                &&& final(self).spec_checker() == run(old(self).spec_checker(), chunk@)->0
                &&& r->Ok_0 <= final(write_buffer)@.len()
                &&& final(write_buffer)@.subrange(0, r->Ok_0 as int) == transformed(
                    old(self).spec_transform(),
                    chunk@,
                )
            },
            r is Err ==> (r->Err_0 is InvalidEncoding && r->Err_0->InvalidEncoding_0@
                == encoding_name(old(self).spec_encoding())),
    {
        let ghost start = self.checker;
        let ghost mode = self.transform;
        let mut out_ptr: usize = 0;
        let mut in_ptr: usize = 0;
        while in_ptr < chunk.len()
            invariant
                in_ptr <= chunk@.len(),
                2 * chunk@.len() <= write_buffer@.len(),
                write_buffer@.len() == old(write_buffer)@.len(),
                start == old(self).checker,
                mode == old(self).transform,
                self.transform == mode,
                self.encoding == old(self).encoding,
                out_ptr <= 2 * in_ptr,
                run(start, chunk@.subrange(0, in_ptr as int)) == Some(self.checker),
                out_ptr == transformed(mode, chunk@.subrange(0, in_ptr as int)).len(),
                write_buffer@.subrange(0, out_ptr as int) == transformed(
                    mode,
                    chunk@.subrange(0, in_ptr as int),
                ),
            decreases chunk@.len() - in_ptr,
        {
            let ghost seen = chunk@.subrange(0, in_ptr as int);
            assert(chunk@.subrange(0, in_ptr + 1) =~= seen.push(chunk@[in_ptr as int]));
            proof {
                lemma_run_push(start, seen, chunk@[in_ptr as int]);
                lemma_transformed_push(mode, seen, chunk@[in_ptr as int]);
                lemma_transformed_len(mode, seen);
            }
            if !self.checker.feed(chunk[in_ptr]) {
                proof {
                    let taken = chunk@.subrange(0, in_ptr + 1);
                    lemma_run_concat(start, taken, chunk@.subrange(in_ptr + 1, chunk@.len() as int));
                    assert(taken + chunk@.subrange(in_ptr + 1, chunk@.len() as int) =~= chunk@);
                }
                return Err(ParseError::InvalidEncoding(self.encoding.name()));
            }
            let ghost before = write_buffer@;
            out_ptr = self.transform.transform_buffer(in_ptr, out_ptr, chunk, write_buffer);
            assert(write_buffer@.subrange(0, out_ptr as int) =~= before.subrange(
                0,
                out_ptr - transforms::mode_bytes(mode, chunk@[in_ptr as int]).len(),
            ) + transforms::mode_bytes(mode, chunk@[in_ptr as int]));
            in_ptr += 1;
        }
        assert(chunk@.subrange(0, in_ptr as int) =~= chunk@);
        Ok(out_ptr)
    }
}


/// Where the chunk of the input that starts at `pos` ends, in an input of `len` bytes.
pub open spec fn chunk_end(pos: int, len: int) -> int {
    if len - pos < BUFFER_SIZE {
        len
    } else {
        pos + BUFFER_SIZE
    }
}

/// The entry point of *loe*. It processes the given input, chunk by chunk, and appends the
/// result to the given output. Its behavior is dependent on given config.
///
/// Where the input is not in the expected encoding, the error names the encoding, and the
/// output holds what the chunks before the offending one gave.
pub fn process(input: &[u8], output: &mut Vec<u8>, config: Config) -> (r: Result<(), ParseError>)
    ensures
        r is Ok <==> run(Checker::fresh(config.spec_encoding()), input@) is Some,
        r is Ok ==> final(output)@ == old(output)@ + transformed(config.spec_transform(), input@),
        r is Err ==> {
            &&& r->Err_0 is InvalidEncoding
            &&& r->Err_0->InvalidEncoding_0@ == encoding_name(config.spec_encoding())
            &&& exists|k: int|
                #![trigger input@.subrange(0, k)]
                {
                    &&& 0 <= k < input@.len()
                    &&& k % (BUFFER_SIZE as int) == 0
                    &&& run(Checker::fresh(config.spec_encoding()), input@.subrange(0, k)) is Some
                    &&& run(
                        Checker::fresh(config.spec_encoding()),
                        input@.subrange(0, chunk_end(k, input@.len() as int)),
                    ) is None
                    &&& final(output)@ == old(output)@ + transformed(
                        config.spec_transform(),
                        input@.subrange(0, k),
                    )
                }
        },
{
    let ghost start = Checker::fresh(config.spec_encoding());
    let ghost mode = config.spec_transform();
    let mut processor = Processor::new(config);
    let mut write_buffer: Vec<u8> = vec![0u8; 2 * BUFFER_SIZE];
    let mut pos: usize = 0;
    while pos < input.len()
        invariant
            pos <= input@.len(),
            pos as int % (BUFFER_SIZE as int) == 0 || pos == input@.len(),
            start == Checker::fresh(config.spec_encoding()),
            mode == config.spec_transform(),
            write_buffer@.len() == 2 * BUFFER_SIZE,
            processor.spec_transform() == mode,
            processor.spec_encoding() == config.spec_encoding(),
            run(start, input@.subrange(0, pos as int)) == Some(processor.spec_checker()),
            output@ == old(output)@ + transformed(mode, input@.subrange(0, pos as int)),
        decreases input@.len() - pos,
    {
        let end: usize = if input.len() - pos < BUFFER_SIZE {
            input.len()
        } else {
            pos + BUFFER_SIZE
        };
        let chunk = &input[pos..end];
        let ghost seen = input@.subrange(0, pos as int);
        assert(seen + chunk@ =~= input@.subrange(0, end as int));
        proof {
            lemma_run_concat(start, seen, chunk@);
            lemma_transformed_concat(mode, seen, chunk@);
        }
        match processor.process_chunk(chunk, write_buffer.as_mut_slice()) {
            Ok(n) => {
                let ghost before = output@;
                output.extend_from_slice(&write_buffer[0..n]);
                assert(output@ =~= before + transformed(mode, chunk@));
            },
            Err(e) => {
                proof {
                    lemma_run_concat(
                        start,
                        input@.subrange(0, end as int),
                        input@.subrange(end as int, input@.len() as int),
                    );
                    assert(input@.subrange(0, end as int) + input@.subrange(
                        end as int,
                        input@.len() as int,
                    ) =~= input@);
                    assert(chunk_end(pos as int, input@.len() as int) == end);
                }
                return Err(e);
            },
        }
        pos = end;
    }
    assert(input@.subrange(0, pos as int) =~= input@);
    Ok(())
}

} // verus!
