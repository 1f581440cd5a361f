//! A front end for a small expression language: a lexer, a parser with
//! operator precedence, and a code generator that lowers expressions into a
//! control-flow graph in static-single-assignment form, driven one top-level
//! unit at a time.
//!
//! The executable parts are [`lexer`], [`parser`], [`ir`], [`ir_gen`],
//! [`registry`], [`scope`], [`driver`], [`source`] (the canonical text of an
//! expression) and [`messages`]. What they compute is said by [`lexer`],
//! [`grammar`] and [`lowering`].
//!
//! What is proved of them, beyond their contracts:
//!
//! - Reading is idempotent over the canonical text:
//!   [`soundness::lemma_reread`], with [`source::lemma_source_round_trip`]
//!   and [`printer::lemma_round_trip`] for expressions that were not read.
//! - Of two operators in a row the one that binds more tightly takes the
//!   operand between them: [`printer::lemma_precedence`].
//! - A second body for a function is refused, a declaration is not:
//!   [`lowering::lemma_redefinition_refused`],
//!   [`lowering::lemma_declaration_allows_definition`],
//!   [`driver::lemma_driver_refuses_redefinition`].
//! - An expression compiles exactly where its names are bound, its
//!   operators known and its calls well formed, from whatever builder:
//!   [`validity::lemma_lowers_where_valid`].
//! - Every function that compiles is in static-single-assignment form:
//!   [`merges::lemma_compiled_ssa`].
//! - Every function that compiles computes its body, in every arithmetic:
//!   [`correctness::lemma_compiled_computes`], over the meaning of
//!   expressions and of functions in [`semantics`].
//! - A conditional branches on whether its condition is greater than zero,
//!   and a loop evaluates to zero: [`shape`].
//! - Every step of the driver but the last shortens the input, so that
//!   [`driver::Driver::run`] comes to an end: [`driver::lemma_step_shortens`].
use vstd::prelude::*;
use vstd::string::StringSliceAdditionalSpecFns;

pub mod ast;
pub mod correctness;
pub mod driver;
pub mod grammar;
pub mod ir;
pub mod ir_gen;
pub mod lexer;
pub mod lowering;
pub mod merges;
pub mod messages;
pub mod parser;
pub mod printer;
pub mod registry;
pub mod scope;
pub mod semantics;
pub mod shape;
pub mod soundness;
pub mod source;
pub mod strings;
pub mod validity;
pub mod wellformed;

verus! {

/// One of two alternatives.
pub enum Either<L, R> {
    Left(L),
    Right(R),
}

/// Capacity in bytes of a [`SmalLCStr`], terminating NUL included.
pub const SMALL_STR_SIZE: usize = 16;

/// Whether the byte 0 occurs in `bytes`.
pub open spec fn contains_nul(bytes: Seq<u8>) -> bool {
    exists|i: int| 0 <= i < bytes.len() && bytes[i] == 0
}

/// The content of a small C string holding `bytes`: the bytes themselves,
/// followed by zeros up to the capacity.
pub open spec fn nul_padded(bytes: Seq<u8>) -> Seq<u8> {
    Seq::new(SMALL_STR_SIZE as nat, |i: int| if i < bytes.len() { bytes[i] } else { 0u8 })
}

/// A short NUL-terminated string stored inline.
#[derive(Debug, PartialEq)]
pub struct SmalLCStr([u8; SMALL_STR_SIZE]);

impl SmalLCStr {
    /// The whole buffer, padding included.
    pub closed spec fn bytes(&self) -> Seq<u8> {
        self.0@
    }

    /// The bytes before the first NUL.
    pub open spec fn content(&self) -> Seq<u8> {
        self.bytes().take(first_nul(self.bytes()))
    }

    /// The buffer holds at least one NUL.
    pub open spec fn well_formed(&self) -> bool {
        contains_nul(self.bytes())
    }

    /// Copies `src` into an inline buffer; `None` where `src` holds a NUL or
    /// does not leave room for the terminator.
    #[verifier::rlimit(50)]
    pub fn new(src: &[u8]) -> (r: Option<SmalLCStr>)
        ensures
            r is Some <==> !contains_nul(src@) && src@.len() < SMALL_STR_SIZE,
            r is Some ==> r.unwrap().bytes() == nul_padded(src@),
            r is Some ==> r.unwrap().well_formed() && r.unwrap().content() == src@,
    {
        let len = src.len();
        let mut i: usize = 0;
        while i < len
            invariant
                len == src@.len(),
                i <= len,
                forall|j: int| 0 <= j < i ==> src@[j] != 0,
            decreases len - i,
        {
            if src[i] == 0 {
                return None;
            }
            i += 1;
        }
        if len >= SMALL_STR_SIZE {
            return None;
        }
        let mut buf: [u8; SMALL_STR_SIZE] = [0u8; SMALL_STR_SIZE];
        let mut k: usize = 0;
        while k < len
            invariant
                len == src@.len(),
                len < SMALL_STR_SIZE,
                k <= len,
                forall|j: int| 0 <= j < k ==> buf@[j] == src@[j],
                forall|j: int| k <= j < SMALL_STR_SIZE ==> buf@[j] == 0,
            decreases len - k,
        {
            buf[k] = src[k];
            k += 1;
        }
        let r = SmalLCStr(buf);
        proof {
            assert(buf@ =~= nul_padded(src@));
            assert(buf@[len as int] == 0);
            lemma_first_nul(buf@);
            assert(first_nul(buf@) == len) by {
                if first_nul(buf@) < len {
                    assert(src@[first_nul(buf@)] == 0);
                }
            }
            assert(r.content() =~= src@);
        }
        Some(r)
    }

    /// The buffer, NUL terminator included.
    pub fn as_ptr(&self) -> (r: &[u8; SMALL_STR_SIZE])
        ensures
            r@ == self.bytes(),
    {
        &self.0
    }
}

/// Whether `bytes` fit a small string: they hold no NUL, and leave room for
/// the terminator.
pub open spec fn fits_small_str(bytes: Seq<u8>) -> bool {
    !contains_nul(bytes) && bytes.len() < SMALL_STR_SIZE
}

/// A buffer of zeros with the first `n` of `bytes` written to its start.
pub closed spec fn padded_buffer(bytes: Seq<u8>, n: nat) -> [u8; SMALL_STR_SIZE]
    decreases n,
{
    if n == 0 {
        vstd::array::spec_array_fill_for_copy_type::<u8, SMALL_STR_SIZE>(0u8)
    } else {
        vstd::array::spec_array_update(
            padded_buffer(bytes, (n - 1) as nat),
            n - 1,
            bytes[n - 1],
        )
    }
}

/// The small string that holds `bytes`.
pub closed spec fn small_str_of(bytes: Seq<u8>) -> SmalLCStr {
    SmalLCStr(padded_buffer(bytes, bytes.len()))
}

proof fn lemma_padded_buffer(bytes: Seq<u8>, n: nat)
    requires
        n <= bytes.len() < SMALL_STR_SIZE,
    ensures
        padded_buffer(bytes, n)@ == nul_padded(bytes.take(n as int)),
    decreases n,
{
    broadcast use vstd::array::group_array_axioms;

    if n == 0 {
        assert(padded_buffer(bytes, n)@ =~= nul_padded(bytes.take(n as int)));
    } else {
        lemma_padded_buffer(bytes, (n - 1) as nat);
        assert(padded_buffer(bytes, n)@ =~= nul_padded(bytes.take(n as int)));
    }
}

/// The small string of bytes that fit is the bytes, padded with NUL.
pub proof fn lemma_small_str_of(bytes: Seq<u8>)
    requires
        fits_small_str(bytes),
    ensures
        small_str_of(bytes).bytes() == nul_padded(bytes),
        small_str_of(bytes).well_formed(),
        small_str_of(bytes).content() == bytes,
{
    lemma_padded_buffer(bytes, bytes.len());
    assert(bytes.take(bytes.len() as int) =~= bytes);
    let all = nul_padded(bytes);
    assert(all[bytes.len() as int] == 0);
    lemma_first_nul(all);
    assert(first_nul(all) == bytes.len()) by {
        if first_nul(all) < bytes.len() {
            assert(bytes[first_nul(all)] == 0);
        }
    }
    assert(small_str_of(bytes).content() =~= bytes);
}

impl<'a> TryFrom<&'a str> for SmalLCStr {
    type Error = ();

    fn try_from(src: &'a str) -> (r: Result<SmalLCStr, ()>) {
        match SmalLCStr::new(src.as_bytes()) {
            Some(s) => {
                proof {
                    let other = small_str_of(src.spec_bytes());
                    lemma_small_str_of(src.spec_bytes());
                    assert(s.0@ =~= other.0@);
                    assert(s.0 == other.0);
                }
                Ok(s)
            },
            None => Err(()),
        }
    }
}

impl<'a> vstd::std_specs::convert::TryFromSpecImpl<&'a str> for SmalLCStr {
    open spec fn obeys_try_from_spec() -> bool {
        true
    }

    open spec fn try_from_spec(src: &'a str) -> Result<SmalLCStr, ()> {
        if fits_small_str(src.spec_bytes()) {
            Ok(small_str_of(src.spec_bytes()))
        } else {
            Err(())
        }
    }
}

/// The least index at which `bytes` holds a NUL, or its length.
pub open spec fn first_nul(bytes: Seq<u8>) -> int
    decreases bytes.len(),
{
    if bytes.len() == 0 || bytes[0] == 0 {
        0
    } else {
        1 + first_nul(bytes.skip(1))
    }
}

/// `first_nul` is in range; no byte before it is a NUL, and the byte at it
/// is one, unless it is the length.
pub proof fn lemma_first_nul(bytes: Seq<u8>)
    ensures
        0 <= first_nul(bytes) <= bytes.len(),
        forall|j: int| 0 <= j < first_nul(bytes) ==> bytes[j] != 0,
        first_nul(bytes) < bytes.len() ==> bytes[first_nul(bytes)] == 0,
    decreases bytes.len(),
{
    if bytes.len() == 0 || bytes[0] == 0 {
    } else {
        lemma_first_nul(bytes.skip(1));
        assert forall|j: int| 0 <= j < first_nul(bytes) implies bytes[j] != 0 by {
            if j > 0 {
                assert(bytes.skip(1)[j - 1] == bytes[j]);
            }
        }
    }
}

} // verus!
