//! A sequence of 20-byte digests held as one byte string.

use crate::error::MetainfoError;
use vstd::prelude::*;

verus! {

/// Bytes in one digest.
pub const DIGEST_LEN: usize = 20;

/// The digests of the pieces, in order.
#[derive(Debug, Clone, PartialEq, Eq)]
pub struct Hashes(pub Vec<[u8; 20]>);

/// The digests joined into one byte string, in order.
pub open spec fn join_digests(digests: Seq<[u8; 20]>) -> Seq<u8>
    decreases digests.len(),
{
    if digests.len() == 0 {
        Seq::empty()
    } else {
        join_digests(digests.drop_last()) + digests.last()@
    }
}

impl View for Hashes {
    type V = Seq<u8>;

    /// The byte string that backs the digests.
    open spec fn view(&self) -> Seq<u8> {
        join_digests(self.0@)
    }
}

/// The joined digests are 20 bytes each, and digest `i` stands at `20 * i`.
pub proof fn lemma_join_digests(digests: Seq<[u8; 20]>, i: int)
    requires
        0 <= i < digests.len(),
    ensures
        join_digests(digests).len() == 20 * digests.len(),
        join_digests(digests).subrange(20 * i, 20 * i + 20) == digests[i]@,
    decreases digests.len(),
{
    lemma_join_len(digests);
    lemma_join_len(digests.drop_last());
    if i == digests.len() - 1 {
        assert(join_digests(digests).subrange(20 * i, 20 * i + 20) =~= digests[i]@);
    } else {
        lemma_join_digests(digests.drop_last(), i);
        assert(join_digests(digests).subrange(20 * i, 20 * i + 20) =~= join_digests(
            digests.drop_last(),
        ).subrange(20 * i, 20 * i + 20));
    }
}

/// The joined digests are 20 bytes each.
pub proof fn lemma_join_len(digests: Seq<[u8; 20]>)
    ensures
        join_digests(digests).len() == 20 * digests.len(),
    decreases digests.len(),
{
    if digests.len() > 0 {
        lemma_join_len(digests.drop_last());
    }
}

impl Hashes {
    /// Cuts a byte string into digests of 20 bytes. A length that is no
    /// multiple of 20 is refused; nothing is cut off or filled up.
    pub fn from_bytes(bytes: &[u8]) -> (r: Result<Hashes, MetainfoError>)
        ensures
            bytes@.len() % 20 == 0 ==> (r matches Ok(h) && h@ == bytes@ && h.0@.len() * 20
                == bytes@.len() && forall|i: int|
                0 <= i < h.0@.len() ==> (#[trigger] h.0@[i])@ == bytes@.subrange(20 * i, 20 * i + 20)),
            bytes@.len() % 20 != 0 ==> r == Err::<Hashes, _>(
                MetainfoError::InvalidDigestSequenceLength,
            ),
    {
        if bytes.len() % DIGEST_LEN != 0 {
            return Err(MetainfoError::InvalidDigestSequenceLength);
        }
        let count: usize = bytes.len() / DIGEST_LEN;
        let mut digests: Vec<[u8; 20]> = Vec::new();
        let mut i: usize = 0;
        while i < count
            invariant
                i <= count,
                count * 20 == bytes.len(),
                digests@.len() == i,
                join_digests(digests@) == bytes@.take(20 * i),
            decreases count - i,
        {
            let mut digest: [u8; 20] = [0u8; 20];
            let mut j: usize = 0;
            while j < DIGEST_LEN
                invariant
                    j <= 20,
                    i < count,
                    count * 20 == bytes.len(),
                    forall|m: int| 0 <= m < j ==> digest@[m] == bytes@[20 * i + m],
                decreases 20 - j,
            {
                digest[j] = bytes[DIGEST_LEN * i + j];
                j += 1;
            }
            proof {
                assert(digests@.push(digest).drop_last() =~= digests@);
                assert(bytes@.take(20 * (i + 1)) =~= bytes@.take(20 * i) + digest@);
            }
            digests.push(digest);
            i += 1;
        }
        proof {
            assert(bytes@.take(20 * count) =~= bytes@);
            assert forall|i: int| 0 <= i < digests@.len() implies (#[trigger] digests@[i])@
                == bytes@.subrange(20 * i, 20 * i + 20) by {
                lemma_join_digests(digests@, i);
            }
        }
        Ok(Hashes(digests))
    }

    /// The digests joined back into one byte string.
    pub fn to_bytes(&self) -> (out: Vec<u8>)
        ensures
            out@ == self@,
            out@.len() == 20 * self.0@.len(),
    {
        let mut out: Vec<u8> = Vec::new();
        let mut i: usize = 0;
        while i < self.0.len()
            invariant
                i <= self.0@.len(),
                out@ == join_digests(self.0@.take(i as int)),
            decreases self.0@.len() - i,
        {
            let mut j: usize = 0;
            let ghost before = out@;
            while j < DIGEST_LEN
                invariant
                    j <= 20,
                    i < self.0@.len(),
                    out@ == before + self.0@[i as int]@.take(j as int),
                decreases 20 - j,
            {
                out.push(self.0[i][j]);
                assert(out@ =~= before + self.0@[i as int]@.take(j + 1));
                j += 1;
            }
            proof {
                assert(self.0@[i as int]@.take(20) =~= self.0@[i as int]@);
                assert(self.0@.take(i + 1).drop_last() =~= self.0@.take(i as int));
            }
            i += 1;
        }
        proof {
            assert(self.0@.take(self.0@.len() as int) =~= self.0@);
            lemma_join_len(self.0@);
        }
        out
    }

    /// How many digests there are.
    pub fn len(&self) -> (n: usize)
        ensures
            n == self.0@.len(),
    {
        self.0.len()
    }
}

} // verus!
