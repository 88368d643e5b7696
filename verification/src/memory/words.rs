//! Transfers of bytes through a port that moves one machine word at a time.

use vstd::prelude::*;
use crate::memory::{memory_bytes, reads_memory, MemoryError, MemoryReader};

verus! {

/// The size of a machine word, in bytes.
pub const WORD_SIZE: usize = 8;

/// The address of the word that holds the byte at `addr`.
pub open spec fn word_base(addr: int) -> int {
    addr - addr % (WORD_SIZE as int)
}

/// The place in its word of the byte at `addr`.
pub open spec fn word_skew(addr: int) -> int {
    addr % (WORD_SIZE as int)
}

/// How many of `remaining` bytes, the first of them at `addr`, lie in the
/// word of the first.
pub open spec fn word_span(addr: int, remaining: int) -> int {
    if remaining < WORD_SIZE - word_skew(addr) {
        remaining
    } else {
        WORD_SIZE - word_skew(addr)
    }
}

/// The address of the word that holds the byte at `addr`, and the place of
/// the byte in that word.
pub fn split_address(addr: usize) -> (r: (usize, usize))
    ensures
        r.0 == word_base(addr as int),
        r.1 == word_skew(addr as int),
        r.1 < WORD_SIZE,
        r.0 + r.1 == addr,
        r.0 % WORD_SIZE == 0,
{
    let skew: usize = addr % WORD_SIZE;
    (addr - skew, skew)
}

/// Copies from `word`, from the place `skew` on, into `buf` from the index
/// `done` on: as many bytes as the word has from there, or as `buf` still
/// lacks. Returns their number.
pub fn take_from_word(word: &[u8; 8], skew: usize, buf: &mut [u8], done: usize) -> (n: usize)
    requires
        skew < WORD_SIZE,
        done <= old(buf)@.len(),
    ensures
        n == word_span(skew as int, old(buf)@.len() - done),
        final(buf)@.len() == old(buf)@.len(),
        forall|i: int| 0 <= i < done ==> final(buf)@[i] == old(buf)@[i],
        forall|i: int| done <= i < done + n ==> final(buf)@[i] == word@[skew + i - done],
        forall|i: int| done + n <= i < old(buf)@.len() ==> final(buf)@[i] == old(buf)@[i],
{
    let left: usize = buf.len() - done;
    let n: usize = if left < WORD_SIZE - skew {
        left
    } else {
        WORD_SIZE - skew
    };
    let mut k: usize = 0;
    while k < n
        invariant
            k <= n,
            skew + n <= WORD_SIZE,
            done + n <= buf.len(),
            buf@.len() == old(buf)@.len(),
            forall|i: int| 0 <= i < done ==> buf@[i] == old(buf)@[i],
            forall|i: int| done <= i < done + k ==> buf@[i] == word@[skew + i - done],
            forall|i: int| done + k <= i < old(buf)@.len() ==> buf@[i] == old(buf)@[i],
        decreases n - k,
    {
        buf[done + k] = word[skew + k];
        k += 1;
    }
    n
}

/// The word `word` with `n` of its bytes, from the place `skew` on, replaced
/// by those of `src` from the index `done` on.
pub open spec fn overlay(word: Seq<u8>, skew: int, src: Seq<u8>, done: int, n: int) -> Seq<u8> {
    Seq::new(
        word.len(),
        |k: int|
            if skew <= k < skew + n {
                src[done + k - skew]
            } else {
                word[k]
            },
    )
}

/// Lays bytes of `src`, from the index `done` on, over `word` from the place
/// `skew` on: as many as the word has room for from there, or as `src` still
/// has. Returns the new word and their number.
pub fn put_into_word(word: &[u8; 8], skew: usize, src: &[u8], done: usize) -> (r: ([u8; 8], usize))
    requires
        skew < WORD_SIZE,
        done <= src@.len(),
    ensures
        r.1 == word_span(skew as int, src@.len() - done),
        r.0@ == overlay(word@, skew as int, src@, done as int, r.1 as int),
{
    let left: usize = src.len() - done;
    let n: usize = if left < WORD_SIZE - skew {
        left
    } else {
        WORD_SIZE - skew
    };
    let mut out: [u8; 8] = *word;
    let mut k: usize = 0;
    while k < n
        invariant
            k <= n,
            skew + n <= WORD_SIZE,
            done + n <= src.len(),
            out@ == overlay(word@, skew as int, src@, done as int, k as int),
        decreases n - k,
    {
        out[skew + k] = src[done + k];
        proof {
            assert(out@ =~= overlay(word@, skew as int, src@, done as int, k + 1));
        }
        k += 1;
    }
    proof {
        assert(word@ =~= overlay(word@, skew as int, src@, done as int, 0));
    }
    (out, n)
}

/// A way to read and write the words of a process, one at a time.
pub trait WordPort: Sized {
    /// Whether the port may answer a peek at `address` with `answer`, the
    /// bytes of the word or an error, and be `after` then. A port that says
    /// nothing may answer anything.
    open spec fn may_peek(
        &self,
        after: Self,
        address: usize,
        answer: Result<Seq<u8>, MemoryError>,
    ) -> bool {
        true
    }

    /// Whether the port may answer a poke of the word with the bytes `word`
    /// at `address` with `answer`, and be `after` then. A port that says
    /// nothing may answer anything.
    open spec fn may_poke(
        &self,
        after: Self,
        address: usize,
        word: Seq<u8>,
        answer: Result<(), MemoryError>,
    ) -> bool {
        true
    }

    /// Reads the word at `address`, which lies on a word boundary.
    fn peek(&mut self, address: usize) -> (r: Result<[u8; 8], MemoryError>)
        ensures
            old(self).may_peek(*final(self), address, peek_answer(r)),
    ;

    /// Writes the word at `address`, which lies on a word boundary.
    fn poke(&mut self, address: usize, word: [u8; 8]) -> (r: Result<(), MemoryError>)
        ensures
            old(self).may_poke(*final(self), address, word@, r),
    ;
}

/// The answer to a peek: the bytes of the word, or the error.
pub open spec fn peek_answer(r: Result<[u8; 8], MemoryError>) -> Result<Seq<u8>, MemoryError> {
    match r {
        Ok(word) => Ok(word@),
        Err(e) => Err(e),
    }
}

/// One call of a port, with its answer.
pub enum PortCall {
    /// A peek at `address`.
    Peek { address: usize, answer: Result<Seq<u8>, MemoryError> },
    /// A poke of `word` at `address`.
    Poke { address: usize, word: Seq<u8>, outcome: Result<(), MemoryError> },
}

/// The port may go from `before` to `after` by answering the call as the
/// call says.
pub open spec fn stepped<P: WordPort>(before: P, call: PortCall, after: P) -> bool {
    match call {
        PortCall::Peek { address, answer } => before.may_peek(after, address, answer),
        PortCall::Poke { address, word, outcome } => before.may_poke(after, address, word, outcome),
    }
}

/// The port went through these states by these calls: each call took it
/// from one state to the next.
#[verifier::opaque]
pub open spec fn chain<P: WordPort>(states: Seq<P>, calls: Seq<PortCall>) -> bool {
    &&& states.len() == calls.len() + 1
    &&& forall|k: int|
        0 <= k < calls.len() ==> stepped(states[k], #[trigger] calls[k], states[k + 1])
}

/// The port went from `before` to `after` by these calls, one after the
/// other, and by no others.
pub open spec fn ran<P: WordPort>(before: P, calls: Seq<PortCall>, after: P) -> bool {
    exists|states: Seq<P>| #[trigger]
        chain(states, calls) && states[0] == before && states[calls.len() as int] == after
}

/// A port that went through states by calls and then answers one more call
/// has gone through one more state.
pub proof fn lemma_chain_push<P: WordPort>(states: Seq<P>, calls: Seq<PortCall>, call: PortCall, after: P)
    requires
        chain(states, calls),
        stepped(states[calls.len() as int], call, after),
    ensures
        chain(states.push(after), calls.push(call)),
        states.len() == calls.len() + 1,
        states.push(after)[0] == states[0],
        states.push(after)[calls.len() as int + 1] == after,
{
    reveal(chain);
    let more = states.push(after);
    let all = calls.push(call);
    assert forall|k: int| 0 <= k < all.len() implies stepped(
        more[k],
        #[trigger] all[k],
        more[k + 1],
    ) by {
        if k < calls.len() {
            assert(all[k] == calls[k]);
            assert(stepped(states[k], calls[k], states[k + 1]));
        }
    }
}

/// Each of the calls that a port ran is one that it may answer as the call
/// says, in some state.
pub proof fn lemma_ran_steps<P: WordPort>(before: P, calls: Seq<PortCall>, after: P, k: int)
    requires
        ran(before, calls, after),
        0 <= k < calls.len(),
    ensures
        exists|pre: P, post: P| #[trigger] stepped(pre, calls[k], post),
{
    reveal(chain);
    let states = choose|states: Seq<P>| #[trigger]
        chain(states, calls) && states[0] == before && states[calls.len() as int] == after;
    assert(stepped(states[k], calls[k], states[k + 1]));
}

/// A port that made no call is as it was.
pub proof fn lemma_chain_start<P: WordPort>(port: P)
    ensures
        chain(seq![port], Seq::<PortCall>::empty()),
{
    reveal(chain);
}

/// The port made the last of the calls that it ran from some state.
pub proof fn lemma_ran_last<P: WordPort>(before: P, calls: Seq<PortCall>, after: P)
    requires
        ran(before, calls, after),
        calls.len() > 0,
    ensures
        exists|mid: P| #[trigger] stepped(mid, calls.last(), after),
{
    reveal(chain);
    let states = choose|states: Seq<P>| #[trigger]
        chain(states, calls) && states[0] == before && states[calls.len() as int] == after;
    let mid = states[calls.len() - 1];
    assert(stepped(states[calls.len() - 1], calls[calls.len() - 1], states[calls.len() - 1 + 1]));
    assert(stepped(mid, calls.last(), after));
}

/// Every call leaves a port of this type as it was, whatever it answers.
pub open spec fn is_steady<P: WordPort>() -> bool {
    forall|before: P, call: PortCall, after: P| #[trigger]
        stepped(before, call, after) ==> after == before
}

/// A steady port is in its first state through all its calls.
proof fn lemma_chain_same<P: WordPort>(states: Seq<P>, calls: Seq<PortCall>, k: int)
    requires
        is_steady::<P>(),
        chain(states, calls),
        0 <= k <= calls.len(),
    ensures
        states[k] == states[0],
    decreases k,
{
    if k > 0 {
        lemma_chain_same(states, calls, k - 1);
        reveal(chain);
        assert(stepped(states[k - 1], calls[k - 1], states[k - 1 + 1]));
    }
}

/// A steady port is as it was after the calls that it ran.
pub proof fn lemma_ran_keeps_port<P: WordPort>(before: P, calls: Seq<PortCall>, after: P)
    requires
        is_steady::<P>(),
        ran(before, calls, after),
    ensures
        after == before,
{
    let states = choose|states: Seq<P>| #[trigger]
        chain(states, calls) && states[0] == before && states[calls.len() as int] == after;
    lemma_chain_same(states, calls, calls.len() as int);
}

/// The number of words that hold bytes of the `len` bytes from `address` on.
#[verifier::opaque]
pub open spec fn word_count(address: int, len: int) -> int {
    if len <= 0 {
        0
    } else {
        (word_base(address + len - 1) - word_base(address)) / (WORD_SIZE as int) + 1
    }
}

/// The address of the word with the index `k` among the words that hold the
/// bytes from `address` on.
pub open spec fn word_address(address: int, k: int) -> int {
    word_base(address) + k * WORD_SIZE
}

/// The peeks of a read at `address` that were answered with `words`: one for
/// each word, at the addresses of the words that hold the bytes from
/// `address` on, in rising order.
pub open spec fn read_peeks(address: int, words: Seq<Seq<u8>>) -> Seq<PortCall> {
    Seq::new(
        words.len(),
        |k: int| PortCall::Peek { address: word_address(address, k) as usize, answer: Ok(words[k]) },
    )
}

/// The byte with the index `i` of a read at `address`, taken out of the
/// words that hold the bytes from `address` on.
#[verifier::opaque]
pub open spec fn byte_of_words(address: int, words: Seq<Seq<u8>>, i: int) -> u8 {
    words[(address + i - word_base(address)) / (WORD_SIZE as int)][word_skew(address + i)]
}

/// How a read of `len` bytes at `address` into `buf` went, with a port that
/// was `before` and is `after`. A read that ended well peeked each word that
/// holds bytes of the range once, from the lowest on, and made no other call;
/// every byte of `buf` is the byte at its place in the word that was given
/// for it. A read that failed peeked words in that order until a peek gave
/// the error.
pub open spec fn read_went<P: WordPort>(
    before: P,
    after: P,
    address: int,
    len: int,
    buf: Seq<u8>,
    r: Result<usize, MemoryError>,
) -> bool {
    match r {
        Ok(n) => n == len && exists|words: Seq<Seq<u8>>|
            {
                &&& words.len() == word_count(address, len)
                &&& #[trigger] ran(before, read_peeks(address, words), after)
                &&& forall|k: int| 0 <= k < words.len() ==> (#[trigger] words[k]).len() == WORD_SIZE
                &&& forall|i: int| 0 <= i < len ==> #[trigger] buf[i] == byte_of_words(address, words, i)
            },
        Err(e) => exists|words: Seq<Seq<u8>>|
            {
                &&& words.len() < word_count(address, len)
                &&& #[trigger] ran(
                    before,
                    read_peeks(address, words).push(
                        PortCall::Peek {
                            address: word_address(address, words.len() as int) as usize,
                            answer: Err(e),
                        },
                    ),
                    after,
                )
            },
    }
}

/// No word holds bytes of an empty range.
pub proof fn lemma_no_words(address: int)
    ensures
        word_count(address, 0) == 0,
{
    reveal(word_count);
}

/// The number of words that hold bytes of a range, by the numbers of the
/// words of its first and of its last byte.
pub proof fn lemma_word_count(address: int, len: int)
    requires
        0 <= address,
        0 < len,
    ensures
        word_count(address, len) == (address + len - 1) / 8 - address / 8 + 1,
        word_base(address) == 8 * (address / 8),
{
    reveal(word_count);
    let x = address + len - 1;
    assert(word_base(x) == 8 * (x / 8));
    assert(word_base(address) == 8 * (address / 8));
    assert((8 * (x / 8) - 8 * (address / 8)) / 8 == x / 8 - address / 8);
}

/// The next word of a transfer that has come `done` bytes forward and moves
/// `n` bytes next: it is the word of the byte that comes next, one more word
/// is done with after it, and the transfer is at its end or at the start of
/// a word then.
pub proof fn lemma_next_word(address: int, done: int, len: int, n: int)
    requires
        0 <= address,
        0 <= done < len,
        done == 0 || word_skew(address + done) == 0,
        n == word_span(word_skew(address + done), len - done),
    ensures
        word_address(address, word_count(address, done)) == word_base(address + done),
        word_count(address, done + n) == word_count(address, done) + 1,
        word_count(address, done) < word_count(address, len),
        0 <= word_count(address, done),
        0 < n,
        done + n <= len,
        done + n == len || word_skew(address + done + n) == 0,
        is_partial(address, len, word_base(address + done)) == !(word_skew(address + done) == 0
            && len - done >= WORD_SIZE),
{
    let a = address + done;
    let skew = a % 8;
    assert(word_skew(skew) == skew);
    assert(0 < n <= 8 - skew);
    assert(word_base(a) == 8 * (a / 8));
    lemma_word_count(address, len);
    lemma_word_count(address, done + n);
    assert((a + n - 1) / 8 == a / 8);
    assert((address + len - 1) / 8 >= a / 8);
    if done == 0 {
        lemma_no_words(address);
    } else {
        lemma_word_count(address, done);
        assert((a - 1) / 8 == a / 8 - 1);
    }
}

/// The bytes that a transfer has read are those of the words it peeked, after
/// one more word as before it.
pub proof fn lemma_bytes_step(
    address: int,
    done: int,
    n: int,
    held: Seq<Seq<u8>>,
    word: Seq<u8>,
    before: Seq<u8>,
    after: Seq<u8>,
)
    requires
        0 <= address,
        0 <= done,
        0 < n <= WORD_SIZE - word_skew(address + done),
        done == 0 || word_skew(address + done) == 0,
        held.len() == word_count(address, done),
        done + n <= after.len(),
        forall|i: int| 0 <= i < done ==> #[trigger] before[i] == byte_of_words(address, held, i),
        forall|i: int| 0 <= i < done ==> #[trigger] after[i] == before[i],
        forall|i: int|
            done <= i < done + n ==> #[trigger] after[i] == word[word_skew(address + done) + i
                - done],
    ensures
        forall|i: int|
            0 <= i < done + n ==> #[trigger] after[i] == byte_of_words(
                address,
                held.push(word),
                i,
            ),
{
    reveal(byte_of_words);
    let words = held.push(word);
    let skew = word_skew(address + done);
    let a = address + done;
    assert(word_base(address) == 8 * (address / 8));
    if done == 0 {
        lemma_no_words(address);
    } else {
        lemma_word_count(address, done);
        assert((a - 1) / 8 == a / 8 - 1);
    }
    assert(held.len() == a / 8 - address / 8);
    assert forall|i: int| 0 <= i < done + n implies #[trigger] after[i] == byte_of_words(
        address,
        words,
        i,
    ) by {
        let k = (address + i - word_base(address)) / 8;
        assert(k == (address + i) / 8 - address / 8);
        if i < done {
            assert(after[i] == before[i]);
            assert(before[i] == byte_of_words(address, held, i));
            assert((address + i) / 8 < a / 8);
            assert(k < held.len());
            assert(words[k] == held[k]);
        } else {
            assert((address + i) / 8 == a / 8);
            assert(k == held.len());
            assert(word_skew(address + i) == skew + i - done);
            assert(words[k] == word);
        }
    }
}

/// Fills `buf` with the bytes at `address`, word by word: for each word that
/// holds bytes of the range, from the lowest on, the port is asked once for
/// the word, and the bytes that lie in the range are copied out of the
/// answer. The first error of the port ends the transfer and is returned.
/// See [`read_went`].
pub fn read_words<P: WordPort>(port: &mut P, address: usize, buf: &mut [u8]) -> (r: Result<
    usize,
    MemoryError,
>)
    requires
        address + old(buf)@.len() <= usize::MAX,
    ensures
        final(buf)@.len() == old(buf)@.len(),
        read_went(*old(port), *final(port), address as int, old(buf)@.len() as int, final(buf)@, r),
{
    let len: usize = buf.len();
    let mut done: usize = 0;
    let ghost mut words: Seq<Seq<u8>> = Seq::empty();
    let ghost mut states: Seq<P> = seq![*port];
    proof {
        lemma_chain_start(*port);
        lemma_no_words(address as int);
        assert(read_peeks(address as int, words) =~= Seq::<PortCall>::empty());
    }
    while done < len
        invariant
            done <= len,
            len == buf.len(),
            buf@.len() == old(buf)@.len(),
            address + len <= usize::MAX,
            done == 0 || done == len || word_skew(address + done) == 0,
            words.len() == word_count(address as int, done as int),
            chain(states, read_peeks(address as int, words)),
            states.len() == words.len() + 1,
            states[0] == *old(port),
            states[words.len() as int] == *port,
            forall|k: int| 0 <= k < words.len() ==> (#[trigger] words[k]).len() == WORD_SIZE,
            forall|i: int|
                0 <= i < done ==> #[trigger] buf@[i] == byte_of_words(address as int, words, i),
        decreases len - done,
    {
        let (base, skew) = split_address(address + done);
        let ghost calls = read_peeks(address as int, words);
        proof {
            lemma_next_word(
                address as int,
                done as int,
                len as int,
                word_span(skew as int, len - done),
            );
        }
        match port.peek(base) {
            Err(e) => {
                proof {
                    let call = PortCall::Peek { address: base, answer: Err(e) };
                    lemma_chain_push(states, calls, call, *port);
                    let all = states.push(*port);
                    assert(chain(all, calls.push(call)) && all[0] == *old(port) && all[calls.push(
                        call,
                    ).len() as int] == *port);
                    assert(ran(*old(port), calls.push(call), *port));
                }
                return Err(e);
            },
            Ok(word) => {
                let ghost before = buf@;
                let ghost held = words;
                let n: usize = take_from_word(&word, skew, buf, done);
                proof {
                    let call = PortCall::Peek { address: base, answer: Ok(word@) };
                    lemma_chain_push(states, calls, call, *port);
                    states = states.push(*port);
                    words = words.push(word@);
                    assert(read_peeks(address as int, words) =~= calls.push(call));
                    lemma_bytes_step(
                        address as int,
                        done as int,
                        n as int,
                        held,
                        word@,
                        before,
                        buf@,
                    );
                    assert forall|k: int| 0 <= k < words.len() implies (#[trigger] words[k]).len()
                        == WORD_SIZE by {
                        if k < held.len() {
                            assert(words[k] == held[k]);
                        }
                    }
                }
                done += n;
            },
        }
    }
    proof {
        let calls = read_peeks(address as int, words);
        assert(chain(states, calls) && states[0] == *old(port) && states[calls.len() as int]
            == *port);
        assert(ran(*old(port), calls, *port));
    }
    Ok(len)
}

/// The word that is written at the address `base` when `src` is written at
/// `address` and the word held the bytes `held` before: the bytes of `src`
/// where the range lies, and those of `held` elsewhere.
pub open spec fn merged(held: Seq<u8>, address: int, src: Seq<u8>, base: int) -> Seq<u8> {
    Seq::new(
        WORD_SIZE as nat,
        |j: int|
            if address <= base + j < address + src.len() {
                src[base + j - address]
            } else {
                held[j]
            },
    )
}

/// The word at the address `base` holds bytes that do not lie in the `len`
/// bytes from `address` on.
pub open spec fn is_partial(address: int, len: int, base: int) -> bool {
    !(address <= base && base + WORD_SIZE <= address + len)
}

/// The calls that write the word with the index `k` of a write of `src` at
/// `address`: a peek, answered with `held`, if the range does not cover the
/// word, and then the poke of the merged word, answered with `answer`.
pub open spec fn word_calls(
    address: int,
    src: Seq<u8>,
    held: Seq<u8>,
    k: int,
    answer: Result<(), MemoryError>,
) -> Seq<PortCall> {
    let base = word_address(address, k);
    let poke = PortCall::Poke {
        address: base as usize,
        word: merged(held, address, src, base),
        outcome: answer,
    };
    if is_partial(address, src.len() as int, base) {
        seq![PortCall::Peek { address: base as usize, answer: Ok(held) }, poke]
    } else {
        seq![poke]
    }
}

/// The calls that write the first `n` words of a write of `src` at
/// `address`, where the words that were peeked held `held`: those of each
/// word in turn, from the lowest on, each poke answered well.
pub open spec fn write_calls(address: int, src: Seq<u8>, held: Seq<Seq<u8>>, n: nat) -> Seq<PortCall>
    decreases n,
{
    if n == 0 {
        Seq::empty()
    } else {
        write_calls(address, src, held, (n - 1) as nat) + word_calls(
            address,
            src,
            held[n - 1],
            n - 1,
            Ok(()),
        )
    }
}

/// The calls of a write that failed at the word with the index `k`: a peek
/// that gave the error, or the calls of the word with the poke giving it.
pub open spec fn failing_calls(
    address: int,
    src: Seq<u8>,
    held: Seq<u8>,
    k: int,
    e: MemoryError,
    calls: Seq<PortCall>,
) -> bool {
    ||| is_partial(address, src.len() as int, word_address(address, k)) && calls == seq![
        PortCall::Peek { address: word_address(address, k) as usize, answer: Err(e) },
    ]
    ||| calls == word_calls(address, src, held, k, Err(e))
}

/// How a write of `src` at `address` went, with a port that was `before` and
/// is `after`. A write that ended well made the calls of each word that holds
/// bytes of the range, from the lowest on, and no other call: a word that the
/// range covers was poked with the bytes of `src`; a word that it covers in
/// part was peeked and then poked with the bytes of `src` laid over the
/// answer. A write that failed made these calls until one gave the error.
pub open spec fn write_went<P: WordPort>(
    before: P,
    after: P,
    address: int,
    src: Seq<u8>,
    r: Result<usize, MemoryError>,
) -> bool {
    match r {
        Ok(n) => n == src.len() && exists|held: Seq<Seq<u8>>|
            {
                &&& held.len() == word_count(address, src.len() as int)
                &&& forall|k: int| 0 <= k < held.len() ==> (#[trigger] held[k]).len() == WORD_SIZE
                &&& #[trigger] ran(before, write_calls(address, src, held, held.len()), after)
            },
        Err(e) => exists|held: Seq<Seq<u8>>, last: Seq<u8>, calls: Seq<PortCall>|
            {
                &&& held.len() < word_count(address, src.len() as int)
                &&& forall|k: int| 0 <= k < held.len() ==> (#[trigger] held[k]).len() == WORD_SIZE
                &&& #[trigger] failing_calls(address, src, last, held.len() as int, e, calls)
                &&& #[trigger] ran(before, write_calls(address, src, held, held.len()) + calls, after)
            },
    }
}

/// The calls of the first words depend on what these words held alone.
proof fn lemma_write_calls_keep(
    address: int,
    src: Seq<u8>,
    a: Seq<Seq<u8>>,
    b: Seq<Seq<u8>>,
    n: nat,
)
    requires
        n <= a.len(),
        n <= b.len(),
        forall|k: int| 0 <= k < n ==> a[k] == b[k],
    ensures
        write_calls(address, src, a, n) == write_calls(address, src, b, n),
    decreases n,
{
    if n > 0 {
        lemma_write_calls_keep(address, src, a, b, (n - 1) as nat);
    }
}

/// Writes `src` at `address`, word by word, from the lowest word on. A word
/// that `src` covers is made of its bytes and handed to the port. For a word
/// that it covers in part, the port is asked for the word, the bytes of `src`
/// are laid over the answer, and the result is handed to the port. The first
/// error of the port ends the transfer and is returned. See [`write_went`].
pub fn write_words<P: WordPort>(port: &mut P, address: usize, src: &[u8]) -> (r: Result<
    usize,
    MemoryError,
>)
    requires
        address + src@.len() <= usize::MAX,
    ensures
        write_went(*old(port), *final(port), address as int, src@, r),
{
    let len: usize = src.len();
    let mut done: usize = 0;
    let ghost mut held: Seq<Seq<u8>> = Seq::empty();
    let ghost mut states: Seq<P> = seq![*port];
    let ghost mut calls: Seq<PortCall> = Seq::empty();
    proof {
        lemma_chain_start(*port);
        lemma_no_words(address as int);
    }
    while done < len
        invariant
            done <= len,
            len == src.len(),
            address + len <= usize::MAX,
            done == 0 || done == len || word_skew(address + done) == 0,
            held.len() == word_count(address as int, done as int),
            forall|k: int| 0 <= k < held.len() ==> (#[trigger] held[k]).len() == WORD_SIZE,
            calls == write_calls(address as int, src@, held, held.len()),
            chain(states, calls),
            states.len() == calls.len() + 1,
            states[0] == *old(port),
            states[calls.len() as int] == *port,
        decreases len - done,
    {
        let (base, skew) = split_address(address + done);
        let ghost k = held.len() as int;
        proof {
            lemma_next_word(
                address as int,
                done as int,
                len as int,
                word_span(skew as int, len - done),
            );
        }
        let whole: bool = skew == 0 && len - done >= WORD_SIZE;
        let word: [u8; 8] = if whole {
            [0u8; 8]
        } else {
            match port.peek(base) {
                Err(e) => {
                    proof {
                        let call = PortCall::Peek { address: base, answer: Err(e) };
                        let failing = seq![call];
                        lemma_chain_push(states, calls, call, *port);
                        assert(calls.push(call) =~= calls + failing);
                        assert(failing_calls(address as int, src@, Seq::empty(), k, e, failing));
                        let all = states.push(*port);
                        assert(chain(all, calls + failing) && all[0] == *old(port) && all[(calls
                            + failing).len() as int] == *port);
                        assert(ran(*old(port), calls + failing, *port));
                    }
                    return Err(e);
                },
                Ok(word) => word,
            }
        };
        let ghost before_states = states;
        let ghost before_calls = calls;
        proof {
            if !whole {
                let peek = PortCall::Peek { address: base, answer: Ok(word@) };
                lemma_chain_push(states, calls, peek, *port);
                states = states.push(*port);
                calls = calls.push(peek);
            }
        }
        let (new_word, n) = put_into_word(&word, skew, src, done);
        proof {
            assert(new_word@ =~= merged(word@, address as int, src@, base as int));
        }
        let answer = port.poke(base, new_word);
        proof {
            let these = word_calls(address as int, src@, word@, k, answer);
            let poke = PortCall::Poke { address: base, word: new_word@, outcome: answer };
            lemma_chain_push(states, calls, poke, *port);
            states = states.push(*port);
            calls = calls.push(poke);
            assert(calls =~= before_calls + these);
        }
        match answer {
            Err(e) => {
                proof {
                    let these = word_calls(address as int, src@, word@, k, Err(e));
                    assert(failing_calls(address as int, src@, word@, k, e, these));
                    assert(chain(states, before_calls + these) && states[0] == *old(port)
                        && states[(before_calls + these).len() as int] == *port);
                    assert(ran(*old(port), before_calls + these, *port));
                }
                return Err(e);
            },
            Ok(unit) => {
                proof {
                    assert(unit == ());
                    let before = held;
                    held = held.push(word@);
                    lemma_write_calls_keep(address as int, src@, before, held, before.len());
                    assert(write_calls(address as int, src@, held, held.len()) == before_calls
                        + word_calls(address as int, src@, word@, k, Ok(())));
                    assert forall|j: int| 0 <= j < held.len() implies (#[trigger] held[j]).len()
                        == WORD_SIZE by {
                        if j < before.len() {
                            assert(held[j] == before[j]);
                        }
                    }
                }
            },
        }
        done += n;
    }
    proof {
        assert(chain(states, calls) && states[0] == *old(port) && states[calls.len() as int]
            == *port);
        assert(ran(*old(port), calls, *port));
    }
    Ok(len)
}

/// The word at the address `base` in a memory that holds the byte `mem(a)` at
/// every address `a`.
pub open spec fn word_of(mem: spec_fn(int) -> u8, base: int) -> Seq<u8> {
    Seq::new(WORD_SIZE as nat, |k: int| mem(base + k))
}

/// What the port answers to a peek are the words of the memory `mem`.
pub open spec fn peeks_memory<P: WordPort>(mem: spec_fn(int) -> u8) -> bool {
    forall|before: P, after: P, a: usize, word: Seq<u8>| #[trigger]
        before.may_peek(after, a, Ok(word)) ==> word == word_of(mem, a as int)
}

/// Where the port answers with the words of a memory, what [`read_words`]
/// puts into the buffer are the bytes that the memory holds from `address`
/// on.
pub proof fn lemma_read_is_memory<P: WordPort>(
    before: P,
    after: P,
    mem: spec_fn(int) -> u8,
    address: usize,
    buf: Seq<u8>,
    r: Result<usize, MemoryError>,
)
    requires
        peeks_memory::<P>(mem),
        address + buf.len() <= usize::MAX,
        r is Ok,
        read_went(before, after, address as int, buf.len() as int, buf, r),
    ensures
        buf == memory_bytes(mem, address as int, address + buf.len()),
{
    let len = buf.len() as int;
    let words = choose|words: Seq<Seq<u8>>|
        {
            &&& words.len() == word_count(address as int, len)
            &&& #[trigger] ran(before, read_peeks(address as int, words), after)
            &&& forall|k: int| 0 <= k < words.len() ==> (#[trigger] words[k]).len() == WORD_SIZE
            &&& forall|i: int|
                0 <= i < len ==> #[trigger] buf[i] == byte_of_words(address as int, words, i)
        };
    let calls = read_peeks(address as int, words);
    reveal(byte_of_words);
    assert forall|i: int| 0 <= i < len implies buf[i] == mem(address + i) by {
        let k = (address + i - word_base(address as int)) / 8;
        lemma_word_count(address as int, len);
        assert(k == (address + i) / 8 - address / 8);
        assert((address + i) / 8 <= (address + len - 1) / 8);
        assert(0 <= k < words.len());
        lemma_ran_steps(before, calls, after, k);
        let (pre, post) = choose|pre: P, post: P| #[trigger] stepped(pre, calls[k], post);
        assert(pre.may_peek(post, word_address(address as int, k) as usize, Ok(words[k])));
        assert(words[k] == word_of(mem, word_address(address as int, k)));
        assert(buf[i] == byte_of_words(address as int, words, i));
    }
    assert(buf =~= memory_bytes(mem, address as int, address + buf.len()));
}

/// Word by word or in one transfer, a read brings the same bytes: where a
/// port answers with the words of a memory and a reader brings the bytes of
/// the same memory, what [`read_words`] puts into the buffer through the port
/// is what the reader answers, for the same address and as many bytes.
pub proof fn lemma_read_agrees<P: WordPort, M: MemoryReader>(
    port: P,
    port_after: P,
    reader: M,
    reader_after: M,
    mem: spec_fn(int) -> u8,
    address: usize,
    buf: Seq<u8>,
    r: Result<usize, MemoryError>,
    bytes: Seq<u8>,
)
    requires
        peeks_memory::<P>(mem),
        reads_memory::<M>(mem),
        address + buf.len() <= usize::MAX,
        r is Ok,
        read_went(port, port_after, address as int, buf.len() as int, buf, r),
        reader.may_answer(reader_after, address, buf.len(), Ok(bytes)),
        bytes.len() == buf.len(),
    ensures
        buf == bytes,
{
    lemma_read_is_memory(port, port_after, mem, address, buf, r);
}

/// Two peeks, at the word that lies five bytes below `address` and at the
/// next, that were answered with the words `first` and `second`.
pub open spec fn two_peeks(address: int, first: Seq<u8>, second: Seq<u8>) -> Seq<PortCall> {
    Seq::empty().push(
        PortCall::Peek { address: (address - 5) as usize, answer: Ok(first) },
    ).push(PortCall::Peek { address: (address + 3) as usize, answer: Ok(second) })
}

/// Ten bytes that start at the sixth byte of a word lie in two words: the
/// word that holds the first byte, and the next.
pub proof fn lemma_two_words(address: int, words: Seq<Seq<u8>>)
    requires
        0 <= address,
        address + 10 <= usize::MAX,
        word_skew(address) == 5,
        words.len() == word_count(address, 10),
    ensures
        words.len() == 2,
        read_peeks(address, words) == two_peeks(address, words[0], words[1]),
{
    lemma_word_count(address, 10);
    assert((address + 9) / 8 == address / 8 + 1);
    assert(word_address(address, 0) == address - 5);
    assert(word_address(address, 1) == address + 3);
    assert(read_peeks(address, words) =~= two_peeks(address, words[0], words[1]));
}

/// A read of ten bytes that starts at the sixth byte of a word and ends well
/// has made two calls, both of them peeks: one at the word that holds the
/// first byte, and one at the next. The buffer holds the last three bytes of
/// the first answer and then the first seven of the second.
pub proof fn lemma_two_peeks<P: WordPort>(
    before: P,
    after: P,
    address: usize,
    buf: Seq<u8>,
    r: Result<usize, MemoryError>,
)
    requires
        word_skew(address as int) == 5,
        address + 10 <= usize::MAX,
        buf.len() == 10,
        r is Ok,
        read_went(before, after, address as int, 10, buf, r),
    ensures
        exists|first: Seq<u8>, second: Seq<u8>|
            {
                &&& first.len() == WORD_SIZE
                &&& second.len() == WORD_SIZE
                &&& #[trigger] ran(before, two_peeks(address as int, first, second), after)
                &&& buf == first.subrange(5, 8) + second.subrange(0, 7)
            },
{
    let a = address as int;
    let words = choose|words: Seq<Seq<u8>>|
        {
            &&& words.len() == word_count(a, 10)
            &&& #[trigger] ran(before, read_peeks(a, words), after)
            &&& forall|k: int| 0 <= k < words.len() ==> (#[trigger] words[k]).len() == WORD_SIZE
            &&& forall|i: int| 0 <= i < 10 ==> #[trigger] buf[i] == byte_of_words(a, words, i)
        };
    lemma_two_words(a, words);
    let first = words[0];
    let second = words[1];
    assert(ran(before, two_peeks(a, first, second), after));
    reveal(byte_of_words);
    let joined = first.subrange(5, 8) + second.subrange(0, 7);
    assert forall|i: int| 0 <= i < 10 implies buf[i] == joined[i] by {
        assert(buf[i] == byte_of_words(a, words, i));
        assert(word_base(a) == a - 5);
        if i < 3 {
            assert((a + i - (a - 5)) / 8 == 0);
            assert(word_skew(a + i) == 5 + i);
        } else {
            assert((a + i - (a - 5)) / 8 == 1);
            assert(word_skew(a + i) == i - 3);
        }
    }
    assert(buf =~= joined);
}

/// The memory `mem` after `src` is written at `address`: the bytes of `src`
/// from `address` on, and the bytes of `mem` elsewhere.
pub open spec fn written(mem: spec_fn(int) -> u8, address: int, src: Seq<u8>) -> spec_fn(int) -> u8 {
    |a: int|
        if address <= a < address + src.len() {
            src[a - address]
        } else {
            mem(a)
        }
}

/// A word of a memory with the bytes of `src` laid over it is the word that
/// the memory holds there after `src` is written at `address`.
pub proof fn lemma_merged_is_written(mem: spec_fn(int) -> u8, address: int, src: Seq<u8>, base: int)
    ensures
        merged(word_of(mem, base), address, src, base) == word_of(written(mem, address, src), base),
{
    assert(merged(word_of(mem, base), address, src, base) =~= word_of(
        written(mem, address, src),
        base,
    ));
}

/// A word that the range covers is made of the bytes of `src` alone, whatever
/// it held.
pub proof fn lemma_merged_whole(held: Seq<u8>, other: Seq<u8>, address: int, src: Seq<u8>, base: int)
    requires
        !is_partial(address, src.len() as int, base),
    ensures
        merged(held, address, src, base) == merged(other, address, src, base),
{
    assert(merged(held, address, src, base) =~= merged(other, address, src, base));
}

/// The words that hold bytes of a range lie within the address space if the
/// range does.
pub proof fn lemma_word_in_space(address: int, len: int, k: int)
    requires
        0 <= address,
        0 <= k < word_count(address, len),
    ensures
        0 <= word_address(address, k) <= address + len - 1,
{
    reveal(word_count);
    if len > 0 {
        lemma_word_count(address, len);
    }
}

/// Every poke among the calls of a write is that of the merged word of one
/// of the words of the range, and comes right after the peek of that word if
/// the range covers the word in part.
proof fn lemma_write_calls_poke(address: int, src: Seq<u8>, held: Seq<Seq<u8>>, n: nat, j: int)
    requires
        n <= held.len(),
        0 <= j < write_calls(address, src, held, n).len(),
        write_calls(address, src, held, n)[j] is Poke,
    ensures
        exists|k: int|
            {
                &&& 0 <= k < n
                &&& write_calls(address, src, held, n)[j] == (PortCall::Poke {
                    address: word_address(address, k) as usize,
                    word: merged(#[trigger] held[k], address, src, word_address(address, k)),
                    outcome: Ok(()),
                })
                &&& is_partial(address, src.len() as int, word_address(address, k)) ==> j > 0
                    && write_calls(address, src, held, n)[j - 1] == (PortCall::Peek {
                    address: word_address(address, k) as usize,
                    answer: Ok(held[k]),
                })
            },
    decreases n,
{
    let before = write_calls(address, src, held, (n - 1) as nat);
    let these = word_calls(address, src, held[n - 1], n - 1, Ok(()));
    let all = write_calls(address, src, held, n);
    assert(all == before + these);
    if j < before.len() {
        assert(all[j] == before[j]);
        lemma_write_calls_poke(address, src, held, (n - 1) as nat, j);
        let k = choose|k: int|
            {
                &&& 0 <= k < n - 1
                &&& before[j] == (PortCall::Poke {
                    address: word_address(address, k) as usize,
                    word: merged(#[trigger] held[k], address, src, word_address(address, k)),
                    outcome: Ok(()),
                })
                &&& is_partial(address, src.len() as int, word_address(address, k)) ==> j > 0
                    && before[j - 1] == (PortCall::Peek {
                    address: word_address(address, k) as usize,
                    answer: Ok(held[k]),
                })
            };
        if j > 0 {
            assert(all[j - 1] == before[j - 1]);
        }
        assert(merged(held[k], address, src, word_address(address, k)).len() == WORD_SIZE);
    } else {
        let k = n - 1;
        assert(all[j] == these[j - before.len()]);
        if is_partial(address, src.len() as int, word_address(address, k)) {
            assert(j - before.len() == 1);
            assert(all[j - 1] == these[0]);
        }
        assert(merged(held[k], address, src, word_address(address, k)).len() == WORD_SIZE);
    }
}

/// Where the port answers peeks with the words of a memory, every word that
/// a write that went well handed to the port is the word that the memory
/// holds at that address after `src` is written at `address`.
pub proof fn lemma_write_is_memory<P: WordPort>(
    before: P,
    after: P,
    mem: spec_fn(int) -> u8,
    address: usize,
    src: Seq<u8>,
    held: Seq<Seq<u8>>,
)
    requires
        peeks_memory::<P>(mem),
        address + src.len() <= usize::MAX,
        held.len() == word_count(address as int, src.len() as int),
        ran(before, write_calls(address as int, src, held, held.len()), after),
    ensures
        forall|j: int|
            0 <= j < write_calls(address as int, src, held, held.len()).len() ==> (
            #[trigger] write_calls(address as int, src, held, held.len())[j] matches PortCall::Poke {
                address: a,
                word,
                outcome,
            } ==> word == word_of(written(mem, address as int, src), a as int)),
{
    let calls = write_calls(address as int, src, held, held.len());
    assert forall|j: int| 0 <= j < calls.len() implies (#[trigger] calls[j] matches PortCall::Poke {
        address: a,
        word,
        outcome,
    } ==> word == word_of(written(mem, address as int, src), a as int)) by {
        if calls[j] is Poke {
            lemma_write_calls_poke(address as int, src, held, held.len(), j);
            let k = choose|k: int|
                {
                    &&& 0 <= k < held.len()
                    &&& calls[j] == (PortCall::Poke {
                        address: word_address(address as int, k) as usize,
                        word: merged(
                            #[trigger] held[k],
                            address as int,
                            src,
                            word_address(address as int, k),
                        ),
                        outcome: Ok(()),
                    })
                    &&& is_partial(address as int, src.len() as int, word_address(address as int, k))
                        ==> j > 0 && calls[j - 1] == (PortCall::Peek {
                        address: word_address(address as int, k) as usize,
                        answer: Ok(held[k]),
                    })
                };
            let base = word_address(address as int, k);
            lemma_word_in_space(address as int, src.len() as int, k);
            lemma_merged_is_written(mem, address as int, src, base);
            if is_partial(address as int, src.len() as int, base) {
                lemma_ran_steps(before, calls, after, j - 1);
                let (pre, post) = choose|pre: P, post: P| #[trigger] stepped(pre, calls[j - 1], post);
                assert(pre.may_peek(post, base as usize, Ok(held[k])));
                assert(held[k] == word_of(mem, base));
            } else {
                lemma_merged_whole(held[k], word_of(mem, base), address as int, src, base);
            }
        }
    }
}

/// A read leaves a steady port as it was.
pub proof fn lemma_read_keeps_port<P: WordPort>(
    before: P,
    after: P,
    address: int,
    len: int,
    buf: Seq<u8>,
    r: Result<usize, MemoryError>,
)
    requires
        is_steady::<P>(),
        read_went(before, after, address, len, buf, r),
    ensures
        after == before,
{
    match r {
        Ok(_) => {
            let words = choose|words: Seq<Seq<u8>>|
                {
                    &&& words.len() == word_count(address, len)
                    &&& #[trigger] ran(before, read_peeks(address, words), after)
                };
            lemma_ran_keeps_port(before, read_peeks(address, words), after);
        },
        Err(e) => {
            let words = choose|words: Seq<Seq<u8>>|
                {
                    &&& words.len() < word_count(address, len)
                    &&& #[trigger] ran(
                        before,
                        read_peeks(address, words).push(
                            PortCall::Peek {
                                address: word_address(address, words.len() as int) as usize,
                                answer: Err(e),
                            },
                        ),
                        after,
                    )
                };
            lemma_ran_keeps_port(
                before,
                read_peeks(address, words).push(
                    PortCall::Peek {
                        address: word_address(address, words.len() as int) as usize,
                        answer: Err(e),
                    },
                ),
                after,
            );
        },
    }
}

/// A write leaves a steady port as it was.
pub proof fn lemma_write_keeps_port<P: WordPort>(
    before: P,
    after: P,
    address: int,
    src: Seq<u8>,
    r: Result<usize, MemoryError>,
)
    requires
        is_steady::<P>(),
        write_went(before, after, address, src, r),
    ensures
        after == before,
{
    match r {
        Ok(_) => {
            let held = choose|held: Seq<Seq<u8>>|
                {
                    &&& held.len() == word_count(address, src.len() as int)
                    &&& #[trigger] ran(before, write_calls(address, src, held, held.len()), after)
                };
            lemma_ran_keeps_port(before, write_calls(address, src, held, held.len()), after);
        },
        Err(e) => {
            let (held, last, calls) = choose|
                held: Seq<Seq<u8>>,
                last: Seq<u8>,
                calls: Seq<PortCall>,
            |
                {
                    &&& #[trigger] failing_calls(address, src, last, held.len() as int, e, calls)
                    &&& #[trigger] ran(
                        before,
                        write_calls(address, src, held, held.len()) + calls,
                        after,
                    )
                };
            lemma_ran_keeps_port(
                before,
                write_calls(address, src, held, held.len()) + calls,
                after,
            );
        },
    }
}

} // verus!
