//! Fixed-size chunking of byte strings: 20-byte piece hashes and 6-byte
//! compact peer entries are both fixed-width records packed back to back.

use vstd::prelude::*;

verus! {

broadcast use vstd::std_specs::vec::group_vec_axioms;

/// The concatenation of a sequence of byte chunks, in order.
pub open spec fn concat_chunks(chunks: Seq<Seq<u8>>) -> Seq<u8>
    decreases chunks.len(),
{
    if chunks.len() == 0 {
        Seq::empty()
    } else {
        chunks[0] + concat_chunks(chunks.drop_first())
    }
}

pub proof fn lemma_concat_chunks_push(chunks: Seq<Seq<u8>>, c: Seq<u8>)
    ensures
        concat_chunks(chunks.push(c)) == concat_chunks(chunks) + c,
    decreases chunks.len(),
{
    if chunks.len() == 0 {
        assert(chunks.push(c)[0] == c);
        assert(chunks.push(c).drop_first() =~= Seq::<Seq<u8>>::empty());
        assert(concat_chunks(Seq::<Seq<u8>>::empty()) == Seq::<u8>::empty());
        assert(concat_chunks(chunks.push(c)) =~= c + Seq::<u8>::empty());
        assert(concat_chunks(chunks) + c =~= c + Seq::<u8>::empty());
    } else {
        assert(chunks.push(c).drop_first() =~= chunks.drop_first().push(c));
        lemma_concat_chunks_push(chunks.drop_first(), c);
        assert(chunks.push(c)[0] == chunks[0]);
        assert(concat_chunks(chunks.push(c))
            =~= chunks[0] + (concat_chunks(chunks.drop_first()) + c));
        assert(chunks[0] + (concat_chunks(chunks.drop_first()) + c)
            =~= (chunks[0] + concat_chunks(chunks.drop_first())) + c);
    }
}

/// A byte string whose length is not a whole number of chunks.
#[derive(Debug, Clone, Copy, PartialEq, Eq, Structural)]
pub struct ChunkError {
    pub length: usize,
    pub chunk_size: usize,
}

/// Splits `bytes` into consecutive records of exactly `chunk_size` bytes.
/// Fails precisely when the length is not a multiple of the chunk size.
#[verifier::loop_isolation(false)]
pub fn split_chunks(bytes: &Vec<u8>, chunk_size: usize) -> (r: Result<Vec<Vec<u8>>, ChunkError>)
    requires
        chunk_size > 0,
    ensures
        (r is Ok <==> bytes@.len() as int % (chunk_size as int) == 0),
        (r matches Ok(chunks) ==> {
            &&& chunks@.len() == bytes@.len() as int / (chunk_size as int)
            &&& forall|i: int| 0 <= i < chunks@.len()
                ==> (#[trigger] chunks@[i])@ == bytes@.subrange(
                    i * (chunk_size as int), (i + 1) * (chunk_size as int))
        }),
        (r matches Err(e) ==> e == (ChunkError { length: bytes.len(), chunk_size })),
{
    let n = bytes.len();
    if n % chunk_size != 0 {
        return Err(ChunkError { length: n, chunk_size });
    }
    let count = n / chunk_size;
    let mut chunks: Vec<Vec<u8>> = Vec::new();
    let mut ci: usize = 0;
    while ci < count
        invariant
            ci <= count,
            chunks@.len() == ci,
            forall|i: int| 0 <= i < ci
                ==> (#[trigger] chunks@[i])@ == bytes@.subrange(
                    i * (chunk_size as int), (i + 1) * (chunk_size as int)),
        decreases count - ci,
    {
        proof {
            assert((ci + 1) * (chunk_size as int) <= count * (chunk_size as int))
                by (nonlinear_arith)
                requires ci + 1 <= count, chunk_size > 0,
            ;
            assert(count * (chunk_size as int) == n as int) by {
                vstd::arithmetic::div_mod::lemma_fundamental_div_mod(
                    n as int, chunk_size as int);
                vstd::arithmetic::mul::lemma_mul_is_commutative(
                    chunk_size as int, n as int / (chunk_size as int));
            }
            assert((ci + 1) * (chunk_size as int)
                == ci * (chunk_size as int) + (chunk_size as int)) by (nonlinear_arith);
            assert(ci * (chunk_size as int) >= 0) by (nonlinear_arith)
                requires ci >= 0, chunk_size > 0,
            ;
        }
        let base = ci * chunk_size;
        let mut chunk: Vec<u8> = Vec::new();
        let mut j: usize = 0;
        while j < chunk_size
            invariant
                j <= chunk_size,
                base == ci * chunk_size,
                base + chunk_size <= n,
                chunk@ == bytes@.subrange(base as int, base as int + j as int),
            decreases chunk_size - j,
        {
            chunk.push(bytes[base + j]);
            proof {
                assert(bytes@.subrange(base as int, base as int + j as int).push(
                    bytes@[base as int + j as int])
                    =~= bytes@.subrange(base as int, base as int + j as int + 1));
            }
            j = j + 1;
        }
        proof {
            assert(chunk@ == bytes@.subrange(
                ci as int * (chunk_size as int), (ci as int + 1) * (chunk_size as int)));
        }
        chunks.push(chunk);
        ci = ci + 1;
    }
    Ok(chunks)
}

/// Concatenates chunks back into one byte string, in order. Total: it is
/// the exact inverse of `split_chunks` on any successful split.
#[verifier::loop_isolation(false)]
pub fn join_chunks(chunks: &Vec<Vec<u8>>) -> (r: Vec<u8>)
    ensures
        r@ == concat_chunks(chunks@.map_values(|c: Vec<u8>| c@)),
{
    let ghost model = chunks@.map_values(|c: Vec<u8>| c@);
    let mut out: Vec<u8> = Vec::new();
    let mut i: usize = 0;
    while i < chunks.len()
        invariant
            i <= chunks@.len(),
            out@ == concat_chunks(model.take(i as int)),
        decreases chunks@.len() - i,
    {
        proof {
            assert(model.take(i as int).push(model[i as int]) =~= model.take(i as int + 1));
            lemma_concat_chunks_push(model.take(i as int), model[i as int]);
        }
        let chunk = &chunks[i];
        let ghost pre = out@;
        let mut j: usize = 0;
        while j < chunk.len()
            invariant
                j <= chunk@.len(),
                chunk@ == chunks@[i as int]@,
                i < chunks@.len(),
                out@ == pre + chunk@.take(j as int),
            decreases chunk@.len() - j,
        {
            out.push(chunk[j]);
            proof {
                assert(pre + chunk@.take(j as int) + seq![chunk@[j as int]]
                    =~= pre + chunk@.take(j as int + 1));
            }
            j = j + 1;
        }
        proof {
            assert(chunk@.take(chunk@.len() as int) =~= chunk@);
            assert(model[i as int] == chunk@);
            assert(out@ == concat_chunks(model.take(i as int + 1)));
        }
        i = i + 1;
    }
    proof {
        assert(model.take(model.len() as int) =~= model);
    }
    out
}

/// Joining the chunks of any whole-chunk split reproduces the original
/// bytes: `join_chunks(split_chunks(b, n)) == b` whenever `n` divides
/// `b`'s length. The hypotheses are exactly what `split_chunks` ensures.
pub proof fn lemma_join_of_split(b: Seq<u8>, n: int, chunks: Seq<Seq<u8>>)
    requires
        n > 0,
        b.len() as int % n == 0,
        chunks.len() == b.len() as int / n,
        forall|i: int| 0 <= i < chunks.len()
            ==> #[trigger] chunks[i] == b.subrange(i * n, (i + 1) * n),
    ensures
        concat_chunks(chunks) == b,
    decreases chunks.len(),
{
    if chunks.len() == 0 {
        assert(b.len() == (b.len() as int / n) * n) by {
            vstd::arithmetic::div_mod::lemma_fundamental_div_mod(b.len() as int, n);
        }
        assert(b.len() == 0);
        assert(concat_chunks(chunks) =~= b);
    } else {
        let q = b.len() as int / n;
        assert(b.len() == q * n) by {
            vstd::arithmetic::div_mod::lemma_fundamental_div_mod(b.len() as int, n);
        }
        assert(q >= 1);
        assert(b.len() >= n) by (nonlinear_arith)
            requires b.len() == q * n, q >= 1, n > 0,
        ;
        let rest = b.subrange(n, b.len() as int);
        assert(rest.len() == b.len() - n);
        assert(rest.len() == (q - 1) * n) by (nonlinear_arith)
            requires b.len() == q * n, q >= 1, n > 0, rest.len() == b.len() - n,
        ;
        assert(rest.len() as int % n == 0 && rest.len() as int / n == q - 1) by {
            vstd::arithmetic::div_mod::lemma_fundamental_div_mod_converse(
                rest.len() as int, n, q - 1, 0);
        }
        let tail = chunks.drop_first();
        assert forall|i: int| 0 <= i < tail.len()
            implies #[trigger] tail[i] == rest.subrange(i * n, (i + 1) * n) by {
            assert((i + 1) * n == i * n + n) by (nonlinear_arith);
            assert((i + 2) * n == i * n + 2 * n) by (nonlinear_arith);
            assert(i * n >= 0) by (nonlinear_arith)
                requires i >= 0, n > 0,
            ;
            assert((i + 2) * n <= q * n) by (nonlinear_arith)
                requires i + 2 <= q, n > 0,
            ;
            assert(tail[i] == chunks[i + 1]);
            assert(chunks[i + 1] == b.subrange((i + 1) * n, (i + 2) * n));
            assert(rest.subrange(i * n, (i + 1) * n)
                =~= b.subrange((i + 1) * n, (i + 2) * n));
        }
        lemma_join_of_split(rest, n, tail);
        assert(chunks[0] == b.subrange(0, n));
        assert(concat_chunks(chunks) == chunks[0] + concat_chunks(tail));
        assert(b.subrange(0, n) + rest =~= b);
    }
}

} // verus!
