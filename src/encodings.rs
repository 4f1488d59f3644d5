//! Encoding checkers: state machines to which the input is fed byte by byte, and which tell
//! whether what they have seen so far can still be text in the expected encoding.
use vstd::prelude::*;

verus! {

/// Enumeration of core-supported encodings.
#[derive(Debug, Clone, Copy, PartialEq, Eq, Hash, Structural)]
pub enum Encoding {
    /// Special flag which disables any encoding checking on the input.
    Ignore,
    /// Ascii encoding, that is, each byte has to be less than 128.
    Ascii,
    /// Valid UTF-8 encoding.
    Utf8,
}

/// The human-readable name of an encoding, as it is reported in errors.
pub open spec fn encoding_name(e: Encoding) -> Seq<char> {
    match e {
        Encoding::Utf8 => "UTF-8"@,
        Encoding::Ascii => "Ascii"@,
        Encoding::Ignore => "<none>"@,
    }
}

impl Encoding {
    /// The human-readable name of the encoding.
    pub fn name(&self) -> (r: String)
        ensures
            r@ == encoding_name(*self),
    {
        match self {
            Encoding::Utf8 => "UTF-8".to_owned(),
            Encoding::Ascii => "Ascii".to_owned(),
            Encoding::Ignore => "<none>".to_owned(),
        }
    }

    /// A fresh checker for this encoding, which has not been fed yet.
    pub fn checker(self) -> (r: Checker)
        ensures
            r == Checker::fresh(self),
    {
        Checker { encoding: self, utf8: Utf8::new() }
    }
}

/// Trait used for encoding checking. It behaves like a state machine to which bytes are fed.
/// If the passed byte causes the checker to enter an invalid state, `feed` returns false as the
/// indication; the checker must not be fed after that.
pub trait EncodingChecker: Sized {
    /// Whether the checker, in its present state, takes `byte`.
    spec fn accepts(&self, byte: u8) -> bool;

    /// The state of the checker after it took `byte`.
    spec fn next(&self, byte: u8) -> Self;

    /// The only method of the checker. It gets the current byte of the input and returns if it
    /// is still valid encoding.
    fn feed(&mut self, byte: u8) -> (r: bool)
        ensures
            r == old(self).accepts(byte),
            r ==> *final(self) == old(self).next(byte),
    ;
}

/// The state of checker `c` after it was fed all of `s` in order, or `None` where it refused
/// one of the bytes.
pub open spec fn run<C: EncodingChecker>(c: C, s: Seq<u8>) -> Option<C>
    decreases s.len(),
{
    if s.len() == 0 {
        Some(c)
    } else {
        match run(c, s.drop_last()) {
            Some(d) => if d.accepts(s.last()) {
                Some(d.next(s.last()))
            } else {
                None
            },
            None => None,
        }
    }
}

/// Feeding `a + b` is feeding `a`, then `b`.
pub proof fn lemma_run_concat<C: EncodingChecker>(c: C, a: Seq<u8>, b: Seq<u8>)
    ensures
        run(c, a + b) == match run(c, a) {
            Some(d) => run(d, b),
            None => None,
        },
    decreases b.len(),
{
    if b.len() == 0 {
        assert(a + b =~= a);
    } else {
        lemma_run_concat(c, a, b.drop_last());
        assert((a + b).drop_last() =~= a + b.drop_last());
        assert((a + b).last() == b.last());
    }
}

/// Feeding one more byte.
pub proof fn lemma_run_push<C: EncodingChecker>(c: C, s: Seq<u8>, b: u8)
    ensures
        run(c, s.push(b)) == match run(c, s) {
            Some(d) => if d.accepts(b) {
                Some(d.next(b))
            } else {
                None
            },
            None => None,
        },
{
    assert(s.push(b).drop_last() =~= s);
}

/// Checker which takes every byte.
#[derive(Debug, Clone, Copy, PartialEq, Eq)]
pub struct Ignore;

impl Ignore {
    pub fn new() -> (r: Self) {
        Ignore
    }
}

impl EncodingChecker for Ignore {
    open spec fn accepts(&self, byte: u8) -> bool {
        true
    }

    open spec fn next(&self, byte: u8) -> Self {
        *self
    }

    fn feed(&mut self, _byte: u8) -> (r: bool) {
        true
    }
}

/// Checker which takes the bytes below 128.
#[derive(Debug, Clone, Copy, PartialEq, Eq)]
pub struct Ascii;

impl Ascii {
    pub fn new() -> (r: Self) {
        Ascii
    }
}

impl EncodingChecker for Ascii {
    open spec fn accepts(&self, byte: u8) -> bool {
        byte < 128
    }

    open spec fn next(&self, byte: u8) -> Self {
        *self
    }

    fn feed(&mut self, byte: u8) -> (r: bool) {
        byte < 128
    }
}

/// A continuation byte of UTF-8, `10xxxxxx`.
pub open spec fn is_continuation(b: u8) -> bool {
    0x80 <= b < 0xc0
}

/// The length of the UTF-8 sequence that `b` starts (`0xxxxxxx`, `110xxxxx`, `1110xxxx`,
/// `11110xxx`), or 0 where `b` starts none.
pub open spec fn sequence_len(b: u8) -> nat {
    if b < 0x80 {
        1
    } else if 0xc0 <= b < 0xe0 {
        2
    } else if 0xe0 <= b < 0xf0 {
        3
    } else if 0xf0 <= b < 0xf8 {
        4
    } else {
        0
    }
}

/// One step of the UTF-8 automaton: from `owed` continuation bytes still due, the number due
/// after `b`, or `None` where `b` cannot come next.
pub open spec fn utf8_step(owed: nat, b: u8) -> Option<nat> {
    if owed == 0 {
        if sequence_len(b) == 0 {
            None
        } else {
            Some((sequence_len(b) - 1) as nat)
        }
    } else if is_continuation(b) {
        Some((owed - 1) as nat)
    } else {
        None
    }
}

/// Structurally valid UTF-8: a series of sequences, each a leading byte followed by as many
/// continuation bytes as it announces. Overlong forms and surrogates are not told apart.
pub open spec fn well_formed_utf8(s: Seq<u8>) -> bool
    decreases s.len(),
{
    if s.len() == 0 {
        true
    } else {
        let k = sequence_len(s[0]);
        &&& 0 < k <= s.len()
        &&& forall|i: int| 1 <= i < k ==> is_continuation(#[trigger] s[i])
        &&& well_formed_utf8(s.subrange(k as int, s.len() as int))
    }
}

/// Checker of (structurally) valid UTF-8.
#[derive(Debug, Clone, Copy, PartialEq, Eq)]
pub struct Utf8 {
    /// `None` between code points; `Some(c)` when `c + 1` continuation bytes are still due.
    counter: Option<u8>,
}

impl Utf8 {
    /// The number of continuation bytes still due.
    pub closed spec fn owed(&self) -> nat {
        match self.counter {
            Some(c) => (c + 1) as nat,
            None => 0,
        }
    }

    /// The state in which `owed` continuation bytes are due.
    pub closed spec fn owing(owed: nat) -> Utf8 {
        Utf8 { counter: if owed == 0 { None } else { Some((owed - 1) as u8) } }
    }

    pub fn new() -> (r: Self)
        ensures
            r == Utf8::owing(0),
    {
        Utf8 { counter: None }
    }

    pub proof fn lemma_owing(owed: nat)
        requires
            owed <= 256,
        ensures
            Utf8::owing(owed).owed() == owed,
    {
    }

    pub proof fn lemma_owed(self)
        ensures
            Utf8::owing(self.owed()) == self,
            self.owed() <= 256,
    {
    }
}

impl EncodingChecker for Utf8 {
    open spec fn accepts(&self, byte: u8) -> bool {
        utf8_step(self.owed(), byte) is Some
    }

    open spec fn next(&self, byte: u8) -> Self {
        Utf8::owing(utf8_step(self.owed(), byte)->0)
    }

    fn feed(&mut self, byte: u8) -> (r: bool) {
        proof {
            self.lemma_owed();
            assert(byte & 0xc0 == 0x80 <==> 0x80 <= byte < 0xc0) by (bit_vector);
            assert(byte & 0x80 == 0 <==> byte < 0x80) by (bit_vector);
            assert(byte & 0xe0 == 0xc0 <==> 0xc0 <= byte < 0xe0) by (bit_vector);
            assert(byte & 0xf0 == 0xe0 <==> 0xe0 <= byte < 0xf0) by (bit_vector);
            assert(byte & 0xf8 == 0xf0 <==> 0xf0 <= byte < 0xf8) by (bit_vector);
        }
        let counter = match self.counter {
            Some(counter) => {
                if byte & 0xc0 == 0x80 {
                    if counter == 0 {
                        None
                    } else {
                        Some(counter - 1)
                    }
                } else {
                    return false;
                }
            },
            None => {
                if byte & 0x80 == 0 {
                    None
                } else if byte & 0xe0 == 0xc0 {
                    Some(0)
                } else if byte & 0xf0 == 0xe0 {
                    Some(1)
                } else if byte & 0xf8 == 0xf0 {
                    Some(2)
                } else {
                    return false;
                }
            },
        };
        self.counter = counter;
        true
    }
}

/// A checker for any of the supported encodings.
#[derive(Debug, Clone, Copy, PartialEq, Eq)]
pub struct Checker {
    encoding: Encoding,
    utf8: Utf8,
}

impl Checker {
    /// The encoding checked.
    pub closed spec fn encoding(&self) -> Encoding {
        self.encoding
    }

    /// A checker of `e` that has not been fed yet.
    pub closed spec fn fresh(e: Encoding) -> Checker {
        Checker { encoding: e, utf8: Utf8::owing(0) }
    }
}

impl EncodingChecker for Checker {
    closed spec fn accepts(&self, byte: u8) -> bool {
        match self.encoding {
            Encoding::Ignore => Ignore.accepts(byte),
            Encoding::Ascii => Ascii.accepts(byte),
            Encoding::Utf8 => self.utf8.accepts(byte),
        }
    }

    closed spec fn next(&self, byte: u8) -> Self {
        match self.encoding {
            Encoding::Utf8 => Checker { utf8: self.utf8.next(byte), ..*self },
            _ => *self,
        }
    }

    fn feed(&mut self, byte: u8) -> (r: bool) {
        match self.encoding {
            Encoding::Ignore => {
                let mut ignore = Ignore::new();
                ignore.feed(byte)
            },
            Encoding::Ascii => {
                let mut ascii = Ascii::new();
                ascii.feed(byte)
            },
            Encoding::Utf8 => self.utf8.feed(byte),
        }
    }
}


/// The checker for `Ignore` takes every stream.
pub proof fn lemma_ignore_checker(s: Seq<u8>)
    ensures
        run(Checker::fresh(Encoding::Ignore), s) == Some(Checker::fresh(Encoding::Ignore)),
    decreases s.len(),
{
    if s.len() > 0 {
        lemma_ignore_checker(s.drop_last());
    }
}

/// The checker for `Ascii` stays as it is on a stream of bytes below 128, and refuses any other.
proof fn lemma_ascii_run(s: Seq<u8>)
    ensures
        run(Checker::fresh(Encoding::Ascii), s) == if forall|i: int| 0 <= i < s.len() ==> s[i] < 128 {
            Some(Checker::fresh(Encoding::Ascii))
        } else {
            None
        },
    decreases s.len(),
{
    if s.len() > 0 {
        lemma_ascii_run(s.drop_last());
        if forall|i: int| 0 <= i < s.len() ==> s[i] < 128 {
            assert forall|i: int| 0 <= i < s.drop_last().len() implies s.drop_last()[i] < 128 by {
                assert(s.drop_last()[i] == s[i]);
            }
        } else if forall|i: int| 0 <= i < s.drop_last().len() ==> s.drop_last()[i] < 128 {
            let w = choose|i: int| !(0 <= i < s.len() ==> s[i] < 128);
            if w < s.len() - 1 {
                assert(s.drop_last()[w] == s[w]);
            }
        }
    }
}

/// The `Ascii` checker takes a stream exactly when every byte of it is below 128, and it refuses
/// the first byte of 128 or more at its very position, not later.
pub proof fn lemma_ascii_checker(s: Seq<u8>)
    ensures
        run(Checker::fresh(Encoding::Ascii), s) is Some <==> forall|i: int|
            0 <= i < s.len() ==> s[i] < 128,
        forall|i: int|
            0 <= i < s.len() && s[i] >= 128 && (forall|j: int| 0 <= j < i ==> s[j] < 128) ==> {
                &&& run(Checker::fresh(Encoding::Ascii), #[trigger] s.subrange(0, i)) is Some
                &&& run(Checker::fresh(Encoding::Ascii), s.subrange(0, i + 1)) is None
            },
{
    lemma_ascii_run(s);
    assert forall|i: int|
        0 <= i < s.len() && s[i] >= 128 && (forall|j: int| 0 <= j < i ==> s[j] < 128) implies {
        &&& run(Checker::fresh(Encoding::Ascii), #[trigger] s.subrange(0, i)) is Some
        &&& run(Checker::fresh(Encoding::Ascii), s.subrange(0, i + 1)) is None
    } by {
        lemma_ascii_run(s.subrange(0, i));
        lemma_ascii_run(s.subrange(0, i + 1));
        assert(s.subrange(0, i + 1)[i] == s[i]);
    }
}

/// The checker for `Utf8` follows its UTF-8 state.
proof fn lemma_utf8_checker_run(u: Utf8, s: Seq<u8>)
    ensures
        run(Checker { encoding: Encoding::Utf8, utf8: u }, s) == match run(u, s) {
            Some(v) => Some(Checker { encoding: Encoding::Utf8, utf8: v }),
            None => None,
        },
    decreases s.len(),
{
    if s.len() > 0 {
        lemma_utf8_checker_run(u, s.drop_last());
    }
}

/// A series of continuation bytes, no longer than the number due, lowers that number by its
/// length.
proof fn lemma_utf8_continuations(owed: nat, cs: Seq<u8>)
    requires
        owed <= 3,
        cs.len() <= owed,
        forall|i: int| 0 <= i < cs.len() ==> is_continuation(cs[i]),
    ensures
        run(Utf8::owing(owed), cs) == Some(Utf8::owing((owed - cs.len()) as nat)),
    decreases cs.len(),
{
    if cs.len() > 0 {
        lemma_utf8_continuations(owed, cs.drop_last());
        assert(is_continuation(cs[cs.len() - 1]));
        Utf8::lemma_owing((owed - cs.len() + 1) as nat);
    }
}

/// The UTF-8 state after a leading byte and some of the continuation bytes it announces.
proof fn lemma_utf8_partial(p: Seq<u8>, lead: u8, cs: Seq<u8>)
    requires
        run(Utf8::owing(0), p) == Some(Utf8::owing(0)),
        sequence_len(lead) > 0,
        cs.len() < sequence_len(lead),
        forall|i: int| 0 <= i < cs.len() ==> is_continuation(cs[i]),
    ensures
        run(Utf8::owing(0), p.push(lead) + cs) == Some(
            Utf8::owing((sequence_len(lead) - 1 - cs.len()) as nat),
        ),
{
    Utf8::lemma_owing(0);
    lemma_run_push(Utf8::owing(0), p, lead);
    lemma_run_concat(Utf8::owing(0), p.push(lead), cs);
    lemma_utf8_continuations((sequence_len(lead) - 1) as nat, cs);
}

/// The UTF-8 state comes back to "between code points" after a well-formed stream.
proof fn lemma_utf8_well_formed_run(s: Seq<u8>)
    requires
        well_formed_utf8(s),
    ensures
        run(Utf8::owing(0), s) == Some(Utf8::owing(0)),
    decreases s.len(),
{
    if s.len() > 0 {
        let k = sequence_len(s[0]) as int;
        let cs = s.subrange(1, k);
        let rest = s.subrange(k, s.len() as int);
        assert forall|i: int| 0 <= i < cs.len() implies is_continuation(cs[i]) by {
            assert(cs[i] == s[i + 1]);
        }
        assert(run(Utf8::owing(0), Seq::<u8>::empty()) == Some(Utf8::owing(0)));
        lemma_utf8_partial(Seq::<u8>::empty(), s[0], cs);
        assert(Seq::<u8>::empty().push(s[0]) + cs =~= s.subrange(0, k));
        lemma_utf8_well_formed_run(rest);
        lemma_run_concat(Utf8::owing(0), s.subrange(0, k), rest);
        assert(s.subrange(0, k) + rest =~= s);
    }
}

/// The `Utf8` checker takes every byte of a well-formed UTF-8 stream, and ends between code
/// points.
pub proof fn lemma_utf8_accepts_well_formed(s: Seq<u8>)
    requires
        well_formed_utf8(s),
    ensures
        run(Checker::fresh(Encoding::Utf8), s) == Some(Checker::fresh(Encoding::Utf8)),
{
    lemma_utf8_well_formed_run(s);
    lemma_utf8_checker_run(Utf8::owing(0), s);
}

/// After a well-formed UTF-8 stream, the `Utf8` checker refuses at once a byte that starts no
/// sequence: a stray continuation byte or an invalid leading byte.
pub proof fn lemma_utf8_rejects_bad_lead(p: Seq<u8>, b: u8)
    requires
        well_formed_utf8(p),
        sequence_len(b) == 0,
    ensures
        run(Checker::fresh(Encoding::Utf8), p) is Some,
        run(Checker::fresh(Encoding::Utf8), p.push(b)) is None,
{
    lemma_utf8_well_formed_run(p);
    lemma_utf8_checker_run(Utf8::owing(0), p);
    lemma_utf8_checker_run(Utf8::owing(0), p.push(b));
    lemma_run_push(Utf8::owing(0), p, b);
    Utf8::lemma_owing(0);
}

/// After a well-formed UTF-8 stream, a leading byte and fewer continuation bytes than it
/// announces, the `Utf8` checker refuses at once a byte that is no continuation byte.
pub proof fn lemma_utf8_rejects_truncated(p: Seq<u8>, lead: u8, cs: Seq<u8>, b: u8)
    requires
        well_formed_utf8(p),
        sequence_len(lead) >= 2,
        cs.len() < sequence_len(lead) - 1,
        forall|i: int| 0 <= i < cs.len() ==> is_continuation(cs[i]),
        !is_continuation(b),
    ensures
        run(Checker::fresh(Encoding::Utf8), p.push(lead) + cs) is Some,
        run(Checker::fresh(Encoding::Utf8), (p.push(lead) + cs).push(b)) is None,
{
    let t = p.push(lead) + cs;
    let owed = (sequence_len(lead) - 1 - cs.len()) as nat;
    lemma_utf8_well_formed_run(p);
    lemma_utf8_partial(p, lead, cs);
    lemma_utf8_checker_run(Utf8::owing(0), t);
    lemma_utf8_checker_run(Utf8::owing(0), t.push(b));
    lemma_run_push(Utf8::owing(0), t, b);
    Utf8::lemma_owing(owed);
}

} // verus!
