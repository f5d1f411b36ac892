//! The keyed generator: a state machine that decides what is fed to the hash
//! and when it is finalised, and the output buffer of the Skein stream.
//!
//! The hash primitives themselves (the Keccak sponge, Skein-512 with its
//! Threefish stream, scrypt) are run by the caller: each method here says
//! exactly which bytes to absorb, or whether to finalise, and the generator's
//! `absorbed()` records the whole input stream.

use crate::error::{PassacreError, PassacreErrorKind};
use vstd::prelude::*;

verus! {

#[derive(Clone, Copy, Debug, PartialEq, Eq, Structural)]
pub enum Algorithm {
    Keccak,
    Skein,
}

impl Algorithm {
    pub fn of_c_uint(which: u32) -> (r: Result<Algorithm, PassacreError>)
        ensures
            which == 0 ==> r == Ok::<Algorithm, PassacreError>(Algorithm::Keccak),
            which == 1 ==> r == Ok::<Algorithm, PassacreError>(Algorithm::Skein),
            which > 1 ==> (r matches Err(e) && e.kind == PassacreErrorKind::UserError),
    {
        match which {
            0 => Ok(Algorithm::Keccak),
            1 => Ok(Algorithm::Skein),
            _ => Err(PassacreErrorKind::UserError.to_error()),
        }
    }
}

#[derive(Clone, Copy, Debug, PartialEq, Eq, Structural)]
pub enum State {
    Initialized,
    KdfSelected,
    AbsorbedPassword,
    AbsorbedNulls,
    Squeezing,
}

/// Key stretching applied to the password, salted with the username.
#[derive(Clone, Copy, Debug, PartialEq, Eq, Structural)]
pub enum Kdf {
    Scrypt { n: u64, r: u32, p: u32 },
}

/// Size of the stretched secret, and of a persistence buffer.
pub const SCRYPT_BUFFER_SIZE: usize = 64;

/// Size of one round of zero padding.
pub const NULL_ROUND_BYTES: usize = 1024;

/// The byte between username, password and site.
pub const DELIMITER: u8 = 0x3a;

/// What a persistence buffer holds before the stretched secret is known.
pub const PERSISTENCE_SENTINEL: u8 = 0x78;

pub open spec fn filled(len: nat, b: u8) -> Seq<u8> {
    Seq::new(len, |i: int| b)
}

/// The bytes absorbed for a secret: the stretched secret where a KDF ran,
/// else the username and a delimiter (only for a non-empty username) and the
/// password; then a delimiter and the site.
pub open spec fn secret_input(
    username: Seq<u8>,
    password: Seq<u8>,
    site: Seq<u8>,
    stretched: Option<Seq<u8>>,
) -> Seq<u8> {
    let head = match stretched {
        Some(k) => k,
        None => if username.len() == 0 {
            password
        } else {
            username + seq![DELIMITER] + password
        },
    };
    head + seq![DELIMITER] + site
}

pub struct PassacreGenerator {
    algorithm: Algorithm,
    state: State,
    kdf: Option<Kdf>,
    persistence_buffer: Option<Vec<u8>>,
    absorbed: Ghost<Seq<u8>>,
}

impl PassacreGenerator {
    pub closed spec fn spec_state(self) -> State {
        self.state
    }

    pub closed spec fn spec_algorithm(self) -> Algorithm {
        self.algorithm
    }

    pub closed spec fn spec_kdf(self) -> Option<Kdf> {
        self.kdf
    }

    pub closed spec fn spec_persistence(self) -> Option<Seq<u8>> {
        match self.persistence_buffer {
            Some(b) => Some(b@),
            None => None,
        }
    }

    /// Every byte handed to the hash so far, in order.
    pub closed spec fn absorbed(self) -> Seq<u8> {
        self.absorbed@
    }

    pub fn new(algorithm: Algorithm) -> (r: PassacreGenerator)
        ensures
            r.spec_state() == State::Initialized,
            r.spec_algorithm() == algorithm,
            r.spec_kdf() is None,
            r.spec_persistence() is None,
            r.absorbed() == Seq::<u8>::empty(),
    {
        PassacreGenerator {
            algorithm,
            state: State::Initialized,
            kdf: None,
            persistence_buffer: None,
            absorbed: Ghost(Seq::empty()),
        }
    }

    pub fn algorithm(&self) -> (r: Algorithm)
        ensures
            r == self.spec_algorithm(),
    {
        self.algorithm
    }

    pub fn state(&self) -> (r: State)
        ensures
            r == self.spec_state(),
    {
        self.state
    }

    pub fn kdf(&self) -> (r: Option<Kdf>)
        ensures
            r == self.spec_kdf(),
    {
        self.kdf
    }

    pub fn persistence_buffer(&self) -> (r: Option<&Vec<u8>>)
        ensures
            match r {
                Some(b) => self.spec_persistence() == Some(b@),
                None => self.spec_persistence() is None,
            },
    {
        match &self.persistence_buffer {
            Some(b) => Some(b),
            None => None,
        }
    }

    /// Selects scrypt; legal only before anything else. A persistence buffer,
    /// where given, is overwritten with `SCRYPT_BUFFER_SIZE` sentinel bytes
    /// until the stretched secret replaces them.
    pub fn use_scrypt(&mut self, n: u64, r: u32, p: u32, persistence_buffer: Option<Vec<u8>>) -> (res:
        Result<(), PassacreError>)
        ensures
            res is Err <==> old(self).spec_state() != State::Initialized,
            res is Err ==> res->Err_0.kind == PassacreErrorKind::UserError && *final(self) == *old(
                self,
            ),
            res is Ok ==> {
                &&& final(self).spec_state() == State::KdfSelected
                &&& final(self).spec_kdf() == Some(Kdf::Scrypt { n, r, p })
                &&& final(self).spec_persistence() == match persistence_buffer {
                    Some(_) => Some(filled(SCRYPT_BUFFER_SIZE as nat, PERSISTENCE_SENTINEL)),
                    None => None,
                }
                &&& final(self).spec_algorithm() == old(self).spec_algorithm()
                &&& final(self).absorbed() == old(self).absorbed()
            },
    {
        if self.state != State::Initialized {
            return Err(PassacreErrorKind::UserError.to_error());
        }
        self.kdf = Some(Kdf::Scrypt { n, r, p });
        self.persistence_buffer = match persistence_buffer {
            Some(_) => Some(filled_vec(SCRYPT_BUFFER_SIZE, PERSISTENCE_SENTINEL)),
            None => None,
        };
        self.state = State::KdfSelected;
        Ok(())
    }

    /// Absorbs the secret and moves to `AbsorbedPassword`; legal in
    /// `Initialized` and `KdfSelected`. Where a KDF was selected the caller
    /// has run it over `(password, username)` and passes its
    /// `SCRYPT_BUFFER_SIZE`-byte result as `stretched`; it also goes to the
    /// persistence buffer. Returns the bytes to absorb.
    pub fn absorb_username_password_site(
        &mut self,
        username: &[u8],
        password: &[u8],
        site: &[u8],
        stretched: Option<&[u8]>,
    ) -> (res: Result<Vec<u8>, PassacreError>)
        ensures
            res is Err <==> {
                ||| (old(self).spec_state() != State::Initialized && old(self).spec_state()
                    != State::KdfSelected)
                ||| (old(self).spec_kdf() is Some) != (stretched is Some)
                ||| (stretched matches Some(k) && k@.len() != SCRYPT_BUFFER_SIZE)
            },
            res is Err ==> res->Err_0.kind == PassacreErrorKind::UserError && *final(self) == *old(
                self,
            ),
            res matches Ok(bytes) ==> {
                &&& bytes@ == secret_input(
                    username@,
                    password@,
                    site@,
                    match stretched {
                        Some(k) => Some(k@),
                        None => None,
                    },
                )
                &&& final(self).absorbed() == old(self).absorbed() + bytes@
                &&& final(self).spec_state() == State::AbsorbedPassword
                &&& final(self).spec_kdf() == old(self).spec_kdf()
                &&& final(self).spec_algorithm() == old(self).spec_algorithm()
                &&& final(self).spec_persistence() == match (
                    old(self).spec_persistence(),
                    stretched,
                ) {
                    (Some(_), Some(k)) => Some(k@),
                    _ => old(self).spec_persistence(),
                }
            },
    {
        if self.state != State::Initialized && self.state != State::KdfSelected {
            return Err(PassacreErrorKind::UserError.to_error());
        }
        let mut bytes: Vec<u8> = Vec::new();
        match (self.kdf, stretched) {
            (Some(_), Some(k)) => {
                if k.len() != SCRYPT_BUFFER_SIZE {
                    return Err(PassacreErrorKind::UserError.to_error());
                }
                append_bytes(&mut bytes, k);
                if self.persistence_buffer.is_some() {
                    let mut copy: Vec<u8> = Vec::new();
                    append_bytes(&mut copy, k);
                    self.persistence_buffer = Some(copy);
                }
            },
            (None, None) => {
                if username.len() != 0 {
                    append_bytes(&mut bytes, username);
                    bytes.push(DELIMITER);
                }
                append_bytes(&mut bytes, password);
            },
            _ => {
                return Err(PassacreErrorKind::UserError.to_error());
            },
        }
        bytes.push(DELIMITER);
        append_bytes(&mut bytes, site);
        proof {
            let head = match stretched {
                Some(k) => k@,
                None => if username@.len() == 0 {
                    password@
                } else {
                    username@ + seq![DELIMITER] + password@
                },
            };
            assert(bytes@ =~= head + seq![DELIMITER] + site@);
        }
        self.absorbed = Ghost(self.absorbed@ + bytes@);
        self.state = State::AbsorbedPassword;
        Ok(bytes)
    }

    /// Records `n_rounds` rounds of `NULL_ROUND_BYTES` zero bytes, which the
    /// caller absorbs; legal after the secret, and repeatable. A different
    /// round count gives a different input stream, hence a different secret.
    pub fn absorb_null_rounds(&mut self, n_rounds: usize) -> (res: Result<(), PassacreError>)
        ensures
            res is Err <==> (old(self).spec_state() != State::AbsorbedPassword && old(
                self,
            ).spec_state() != State::AbsorbedNulls),
            res is Err ==> res->Err_0.kind == PassacreErrorKind::UserError && *final(self) == *old(
                self,
            ),
            res is Ok ==> {
                &&& final(self).absorbed() == old(self).absorbed() + filled(
                    (n_rounds * NULL_ROUND_BYTES) as nat,
                    0,
                )
                &&& final(self).spec_state() == State::AbsorbedNulls
                &&& final(self).spec_kdf() == old(self).spec_kdf()
                &&& final(self).spec_algorithm() == old(self).spec_algorithm()
                &&& final(self).spec_persistence() == old(self).spec_persistence()
            },
    {
        if self.state != State::AbsorbedPassword && self.state != State::AbsorbedNulls {
            return Err(PassacreErrorKind::UserError.to_error());
        }
        self.absorbed = Ghost(
            self.absorbed@ + filled((n_rounds as nat * NULL_ROUND_BYTES as nat) as nat, 0),
        );
        self.state = State::AbsorbedNulls;
        Ok(())
    }

    /// Moves to `Squeezing`; legal once the secret is absorbed. Returns
    /// whether the hash must be finalised first, which is so exactly on the
    /// first call.
    pub fn squeeze(&mut self) -> (res: Result<bool, PassacreError>)
        ensures
            res is Err <==> (old(self).spec_state() == State::Initialized || old(
                self,
            ).spec_state() == State::KdfSelected),
            res is Err ==> res->Err_0.kind == PassacreErrorKind::UserError && *final(self) == *old(
                self,
            ),
            res matches Ok(finalize) ==> {
                &&& finalize == (old(self).spec_state() != State::Squeezing)
                &&& final(self).spec_state() == State::Squeezing
                &&& final(self).absorbed() == old(self).absorbed()
                &&& final(self).spec_kdf() == old(self).spec_kdf()
                &&& final(self).spec_algorithm() == old(self).spec_algorithm()
                &&& final(self).spec_persistence() == old(self).spec_persistence()
            },
    {
        match self.state {
            State::AbsorbedPassword | State::AbsorbedNulls => {
                self.state = State::Squeezing;
                Ok(true)
            },
            State::Squeezing => Ok(false),
            _ => Err(PassacreErrorKind::UserError.to_error()),
        }
    }
}

/// `len` copies of `b`.
pub fn filled_vec(len: usize, b: u8) -> (r: Vec<u8>)
    ensures
        r@ == filled(len as nat, b),
{
    let mut r: Vec<u8> = Vec::new();
    let mut i: usize = 0;
    while i < len
        invariant
            i <= len,
            r@ =~= filled(i as nat, b),
        decreases len - i,
    {
        r.push(b);
        i = i + 1;
    }
    r
}

fn append_bytes(dst: &mut Vec<u8>, src: &[u8])
    ensures
        final(dst)@ == old(dst)@ + src@,
{
    let mut i: usize = 0;
    while i < src.len()
        invariant
            i <= src@.len(),
            dst@ =~= old(dst)@ + src@.subrange(0, i as int),
        decreases src@.len() - i,
    {
        dst.push(src[i]);
        i = i + 1;
    }
    assert(src@.subrange(0, src@.len() as int) =~= src@);
}

/// The bytes of a run of blocks, in order.
pub open spec fn concat_blocks(bs: Seq<Vec<u8>>) -> Seq<u8>
    decreases bs.len(),
{
    if bs.len() == 0 {
        Seq::empty()
    } else {
        bs[0]@ + concat_blocks(bs.drop_first())
    }
}

/// Size of one Skein-512 block.
pub const SKEIN_512_BLOCK_BYTES: usize = 64;

/// The unread tail of the last block of the Skein output stream. Each call to
/// `squeeze` takes the next bytes of the stream (the tail, then fresh blocks
/// that the caller generates) and hands them out in reverse order.
pub struct SkeinPrng {
    buffer: Vec<u8>,
    bytes_remaining: usize,
}

impl SkeinPrng {
    pub closed spec fn wf(self) -> bool {
        &&& self.buffer@.len() == SKEIN_512_BLOCK_BYTES
        &&& self.bytes_remaining <= SKEIN_512_BLOCK_BYTES
    }

    /// The bytes of the stream not yet handed out.
    pub closed spec fn pending(self) -> Seq<u8> {
        self.buffer@.subrange(
            SKEIN_512_BLOCK_BYTES - self.bytes_remaining,
            SKEIN_512_BLOCK_BYTES as int,
        )
    }

    pub open spec fn spec_blocks_needed(self, n: nat) -> nat {
        if n <= self.pending().len() {
            0
        } else {
            ((n - self.pending().len()) + SKEIN_512_BLOCK_BYTES - 1) as nat
                / SKEIN_512_BLOCK_BYTES as nat
        }
    }

    pub fn new() -> (r: SkeinPrng)
        ensures
            r.wf(),
            r.pending() == Seq::<u8>::empty(),
    {
        SkeinPrng { buffer: filled_vec(SKEIN_512_BLOCK_BYTES, 0), bytes_remaining: 0 }
    }

    /// How many fresh blocks `squeeze(n, ..)` needs.
    pub fn blocks_needed(&self, n: usize) -> (r: usize)
        requires
            self.wf(),
        ensures
            r == self.spec_blocks_needed(n as nat),
    {
        if n <= self.bytes_remaining {
            0
        } else {
            let rest = n - self.bytes_remaining;
            rest / SKEIN_512_BLOCK_BYTES + if rest % SKEIN_512_BLOCK_BYTES == 0 {
                0
            } else {
                1
            }
        }
    }

    /// The next `n` bytes of the stream, reversed.
    pub fn squeeze(&mut self, n: usize, blocks: &Vec<Vec<u8>>) -> (r: Vec<u8>)
        requires
            old(self).wf(),
            blocks@.len() == old(self).spec_blocks_needed(n as nat),
            forall|i: int|
                0 <= i < blocks@.len() ==> #[trigger] blocks@[i]@.len() == SKEIN_512_BLOCK_BYTES,
        ensures
            final(self).wf(),
            r@ == (old(self).pending() + concat_blocks(blocks@)).take(n as int).reverse(),
            final(self).pending() == (old(self).pending() + concat_blocks(blocks@)).skip(n as int),
    {
        let ghost held = self.pending().len();
        let ghost nb = blocks@.len();
        let ghost stream = self.pending() + concat_blocks(blocks@);
        proof {
            lemma_concat_blocks_len(blocks@, 0);
            assert(blocks@.subrange(0, nb as int) =~= blocks@);
            if n > held {
                let k = (n - held) as nat;
                assert(held + 64 * ((k + 63) / 64) >= n) by (nonlinear_arith)
                    requires
                        k == n - held,
                ;
                assert((k + 63) / 64 >= 1 ==> 64 * ((k + 63) / 64 - 1) < k) by (nonlinear_arith);
            }
        }
        let mut out: Vec<u8> = Vec::new();
        let mut b: usize = 0;
        while out.len() < n
            invariant
                self.wf(),
                b <= nb,
                nb == blocks@.len(),
                out@.len() <= n,
                forall|i: int|
                    0 <= i < blocks@.len() ==> #[trigger] blocks@[i]@.len()
                        == SKEIN_512_BLOCK_BYTES,
                out@ + self.pending() + concat_blocks(blocks@.subrange(b as int, nb as int))
                    == stream,
                stream.len() == held + 64 * nb,
                stream.len() >= n,
                b > 0 ==> out@.len() + self.pending().len() + 64 > held + 64 * b,
            decreases n - out@.len(),
        {
            proof {
                lemma_concat_blocks_len(blocks@, b as int);
            }
            if self.bytes_remaining == 0 {
                let ghost rest = blocks@.subrange(b as int, nb as int);
                assert(b < nb) by (nonlinear_arith)
                    requires
                        out@.len() < n,
                        n <= stream.len(),
                        out@.len() + 64 * (nb - b) == stream.len(),
                        b <= nb,
                ;
                assert(rest.drop_first() =~= blocks@.subrange(b as int + 1, nb as int));
                let mut fresh: Vec<u8> = Vec::new();
                append_bytes(&mut fresh, blocks[b].as_slice());
                self.buffer = fresh;
                self.bytes_remaining = SKEIN_512_BLOCK_BYTES;
                b = b + 1;
                assert(self.pending() =~= blocks@[b as int - 1]@);
            }
            let ghost before = self.pending();
            let pos = SKEIN_512_BLOCK_BYTES - self.bytes_remaining;
            out.push(self.buffer[pos]);
            self.bytes_remaining = self.bytes_remaining - 1;
            assert(self.pending() =~= before.drop_first());
            assert(out@ + self.pending() =~= out@.drop_last() + before);
        }
        proof {
            lemma_concat_blocks_len(blocks@, b as int);
            if b < nb {
                assert(false) by (nonlinear_arith)
                    requires
                        out@.len() == n,
                        out@.len() + self.pending().len() + 64 * (nb - b) == held + 64 * nb,
                        b > 0 ==> out@.len() + self.pending().len() + 64 > held + 64 * b,
                        b < nb,
                        n > held ==> 64 * (nb - 1) < n - held,
                        n <= held ==> nb == 0,
                        self.pending().len() <= 64,
                ;
            }
            assert(blocks@.subrange(b as int, nb as int) =~= Seq::<Vec<u8>>::empty());
            assert(out@ =~= stream.take(n as int));
            assert(self.pending() =~= stream.skip(n as int));
        }
        reversed(&out)
    }
}

proof fn lemma_concat_blocks_len(bs: Seq<Vec<u8>>, b: int)
    requires
        0 <= b <= bs.len(),
        forall|i: int| 0 <= i < bs.len() ==> #[trigger] bs[i]@.len() == SKEIN_512_BLOCK_BYTES,
    ensures
        concat_blocks(bs.subrange(b, bs.len() as int)).len() == 64 * (bs.len() - b),
    decreases bs.len() - b,
{
    let rest = bs.subrange(b, bs.len() as int);
    if b < bs.len() {
        assert(rest.drop_first() =~= bs.subrange(b + 1, bs.len() as int));
        lemma_concat_blocks_len(bs, b + 1);
    }
}

fn reversed(v: &Vec<u8>) -> (r: Vec<u8>)
    ensures
        r@ == v@.reverse(),
{
    let mut r: Vec<u8> = Vec::new();
    let mut i: usize = v.len();
    while i > 0
        invariant
            i <= v@.len(),
            r@.len() == v@.len() - i,
            forall|j: int| 0 <= j < r@.len() ==> r@[j] == v@[v@.len() - 1 - j],
        decreases i,
    {
        i = i - 1;
        r.push(v[i]);
    }
    assert(r@ =~= v@.reverse());
    r
}

/// Derivation is deterministic: equal usernames, passwords, sites and
/// stretched secrets give equal bytes to absorb, so generators of one
/// algorithm fed the same inputs hold the same input stream.
pub proof fn secret_input_deterministic(
    username1: Seq<u8>,
    password1: Seq<u8>,
    site1: Seq<u8>,
    stretched1: Option<Seq<u8>>,
    username2: Seq<u8>,
    password2: Seq<u8>,
    site2: Seq<u8>,
    stretched2: Option<Seq<u8>>,
)
    requires
        username1 == username2,
        password1 == password2,
        site1 == site2,
        stretched1 == stretched2,
    ensures
        secret_input(username1, password1, site1, stretched1) == secret_input(
            username2,
            password2,
            site2,
            stretched2,
        ),
{
}

/// Padding rounds are part of the derivation's input: from any absorbed
/// stream, `k` rounds and `k + 1` rounds of zero padding leave different
/// inputs to the hash.
pub proof fn null_rounds_change_input(absorbed: Seq<u8>, k: nat)
    ensures
        absorbed + filled(k * NULL_ROUND_BYTES as nat, 0) != absorbed + filled(
            (k + 1) * NULL_ROUND_BYTES as nat,
            0,
        ),
{
    assert((k + 1) * 1024 == k * 1024 + 1024) by (nonlinear_arith);
    assert((absorbed + filled(k * NULL_ROUND_BYTES as nat, 0)).len() != (absorbed + filled(
        (k + 1) * NULL_ROUND_BYTES as nat,
        0,
    )).len());
}

} // verus!
