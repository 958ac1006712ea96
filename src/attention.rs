//! The attention key/value cache: a fixed number of sequence positions, each
//! holding one key vector and one value vector per head, filled in order.
//! The element type is left to the caller.
use vstd::prelude::*;

verus! {

/// Why an append was refused.
#[derive(Debug, Clone, Copy, PartialEq, Eq, Structural)]
pub enum KVCacheError {
    /// Every position is filled.
    KVCacheFull { max_len: usize },
    /// A key or value vector does not hold `k_size` elements.
    KVDimMismatch { k_size: usize },
}

/// Key and value buffers of logical shape `[max_seq_len, num_heads, head_dim]`
/// and the next position to write.
pub struct KVCache<T> {
    k_cache: Vec<T>,
    v_cache: Vec<T>,
    current_pos: usize,
    max_seq_len: usize,
    num_heads: usize,
    head_dim: usize,
}

impl<T: Copy> KVCache<T> {
    pub closed spec fn keys(&self) -> Seq<T> {
        self.k_cache@
    }

    pub closed spec fn values(&self) -> Seq<T> {
        self.v_cache@
    }

    /// Number of filled positions.
    pub closed spec fn pos(&self) -> nat {
        self.current_pos as nat
    }

    /// Number of positions.
    pub closed spec fn capacity(&self) -> nat {
        self.max_seq_len as nat
    }

    pub closed spec fn heads(&self) -> nat {
        self.num_heads as nat
    }

    pub closed spec fn dim(&self) -> nat {
        self.head_dim as nat
    }

    /// Elements per position: heads times head size.
    pub open spec fn stride(&self) -> nat {
        self.heads() * self.dim()
    }

    pub open spec fn wf(&self) -> bool {
        &&& self.keys().len() == self.capacity() * self.stride()
        &&& self.values().len() == self.capacity() * self.stride()
        &&& self.pos() <= self.capacity()
        &&& self.capacity() * self.stride() <= usize::MAX
    }

    /// An empty cache of `max_seq_len` positions, every element `fill`.
    pub fn new(max_seq_len: usize, num_heads: usize, head_dim: usize, fill: T) -> (r: KVCache<T>)
        requires
            max_seq_len * num_heads * head_dim <= usize::MAX,
        ensures
            r.wf(),
            r.pos() == 0,
            r.capacity() == max_seq_len,
            r.heads() == num_heads,
            r.dim() == head_dim,
            r.keys() == Seq::new(r.keys().len(), |i: int| fill),
            r.values() == Seq::new(r.values().len(), |i: int| fill),
    {
        proof {
            assert(max_seq_len * (num_heads * head_dim) == max_seq_len * num_heads * head_dim)
                by (nonlinear_arith);
            assert(0 <= num_heads * head_dim) by (nonlinear_arith);
            if max_seq_len > 0 {
                assert(num_heads * head_dim <= max_seq_len * (num_heads * head_dim))
                    by (nonlinear_arith)
                    requires
                        max_seq_len > 0,
                ;
            }
        }
        let total_size = if max_seq_len == 0 {
            0
        } else {
            max_seq_len * (num_heads * head_dim)
        };
        let mut k_cache: Vec<T> = Vec::with_capacity(total_size);
        let mut v_cache: Vec<T> = Vec::with_capacity(total_size);
        let mut i: usize = 0;
        while i < total_size
            invariant
                i <= total_size,
                k_cache@ == Seq::new(i as nat, |j: int| fill),
                v_cache@ == Seq::new(i as nat, |j: int| fill),
            decreases total_size - i,
        {
            k_cache.push(fill);
            v_cache.push(fill);
            i = i + 1;
            proof {
                assert(k_cache@ =~= Seq::new(i as nat, |j: int| fill));
                assert(v_cache@ =~= Seq::new(i as nat, |j: int| fill));
            }
        }
        KVCache { k_cache, v_cache, current_pos: 0, max_seq_len, num_heads, head_dim }
    }

    /// Writes one key vector and one value vector (each `heads * head_dim`
    /// long) at the next position and advances it.
    pub fn append_kv(&mut self, k: &[T], v: &[T]) -> (r: Result<(), KVCacheError>)
        requires
            old(self).wf(),
        ensures
            append_outcome(*old(self), k@, v@, *final(self), r),
    {
        if self.current_pos >= self.max_seq_len {
            return Err(KVCacheError::KVCacheFull { max_len: self.max_seq_len });
        }
        proof {
            assert(self.num_heads * self.head_dim <= self.max_seq_len * (self.num_heads * self.head_dim))
                by (nonlinear_arith)
                requires
                    self.max_seq_len > 0,
            ;
        }
        let expected_len = self.num_heads * self.head_dim;
        if k.len() != expected_len || v.len() != expected_len {
            return Err(KVCacheError::KVDimMismatch { k_size: expected_len });
        }
        let stride = expected_len;
        proof {
            assert((self.current_pos + 1) * stride <= self.max_seq_len * stride) by (nonlinear_arith)
                requires
                    self.current_pos + 1 <= self.max_seq_len,
            ;
            assert((self.current_pos + 1) * stride == self.current_pos * stride + stride) by (nonlinear_arith);
        }
        let start_idx = self.current_pos * stride;
        let ghost old_k = self.k_cache@;
        let ghost old_v = self.v_cache@;
        let mut i: usize = 0;
        while i < stride
            invariant
                i <= stride,
                stride == expected_len,
                k@.len() == stride,
                v@.len() == stride,
                start_idx + stride <= self.k_cache@.len(),
                start_idx + stride <= usize::MAX,
                self.k_cache@.len() == old_k.len(),
                self.v_cache@.len() == old_v.len(),
                old_k.len() == old_v.len(),
                forall|j: int| 0 <= j < start_idx ==> self.k_cache@[j] == old_k[j],
                forall|j: int| 0 <= j < start_idx ==> self.v_cache@[j] == old_v[j],
                forall|j: int| start_idx + i <= j < old_k.len() ==> self.k_cache@[j] == old_k[j],
                forall|j: int| start_idx + i <= j < old_v.len() ==> self.v_cache@[j] == old_v[j],
                forall|j: int| 0 <= j < i ==> self.k_cache@[start_idx + j] == k@[j],
                forall|j: int| 0 <= j < i ==> self.v_cache@[start_idx + j] == v@[j],
                self.current_pos == old(self).current_pos,
                self.max_seq_len == old(self).max_seq_len,
                self.num_heads == old(self).num_heads,
                self.head_dim == old(self).head_dim,
                self.current_pos < self.max_seq_len,
            decreases stride - i,
        {
            self.k_cache.set(start_idx + i, k[i]);
            self.v_cache.set(start_idx + i, v[i]);
            i = i + 1;
        }
        self.current_pos = self.current_pos + 1;
        proof {
            let s = start_idx as int;
            let n = stride as int;
            assert(self.k_cache@ =~= old_k.subrange(0, s) + k@ + old_k.subrange(s + n, old_k.len() as int));
            assert(self.v_cache@ =~= old_v.subrange(0, s) + v@ + old_v.subrange(s + n, old_v.len() as int));
        }
        Ok(())
    }

    /// The key vector of `head` at `position`. Positions up to the write
    /// cursor itself may be read.
    pub fn get_k_slice(&self, position: usize, head: usize) -> (r: &[T])
        requires
            self.wf(),
            position <= self.pos(),
            position < self.capacity(),
            head < self.heads(),
        ensures
            r@ == self.keys().subrange(
                position * self.stride() + head * self.dim(),
                position * self.stride() + head * self.dim() + self.dim(),
            ),
    {
        proof {
            lemma_slot_in_range(position as nat, head as nat, self.capacity(), self.heads(), self.dim());
        }
        let start_pos = position * (self.num_heads * self.head_dim) + head * self.head_dim;
        &self.k_cache.as_slice()[start_pos..start_pos + self.head_dim]
    }

    /// The value vector of `head` at `position`, a filled position.
    pub fn get_v_slice(&self, position: usize, head: usize) -> (r: &[T])
        requires
            self.wf(),
            position < self.pos(),
            head < self.heads(),
        ensures
            r@ == self.values().subrange(
                position * self.stride() + head * self.dim(),
                position * self.stride() + head * self.dim() + self.dim(),
            ),
    {
        proof {
            lemma_slot_in_range(position as nat, head as nat, self.capacity(), self.heads(), self.dim());
        }
        let start_pos = position * (self.num_heads * self.head_dim) + head * self.head_dim;
        &self.v_cache.as_slice()[start_pos..start_pos + self.head_dim]
    }
}

proof fn lemma_slot_in_range(p: nat, h: nat, cap: nat, heads: nat, dim: nat)
    requires
        p < cap,
        h < heads,
    ensures
        p * (heads * dim) + h * dim + dim <= cap * (heads * dim),
        heads * dim <= cap * (heads * dim),
        p * (heads * dim) <= cap * (heads * dim),
        h * dim <= heads * dim,
{
    assert(heads * dim <= cap * (heads * dim)) by (nonlinear_arith)
        requires
            p < cap,
    ;
    assert(p * (heads * dim) <= cap * (heads * dim)) by (nonlinear_arith)
        requires
            p < cap,
    ;
    assert(h * dim + dim <= heads * dim) by (nonlinear_arith)
        requires
            h < heads,
    ;
    assert(p * (heads * dim) + heads * dim <= cap * (heads * dim)) by (nonlinear_arith)
        requires
            p < cap,
    ;
}

/// The outcome of `append_kv(k, v)` on cache `before`: refused with a full
/// cache, then with vectors of the wrong length, each leaving the cache as
/// it was; otherwise the vectors are written at the cursor, which advances.
pub open spec fn append_outcome<T: Copy>(
    before: KVCache<T>,
    k: Seq<T>,
    v: Seq<T>,
    after: KVCache<T>,
    r: Result<(), KVCacheError>,
) -> bool {
    &&& after.wf()
    &&& after.capacity() == before.capacity()
    &&& after.heads() == before.heads()
    &&& after.dim() == before.dim()
    &&& if before.pos() >= before.capacity() {
        r == Err::<(), KVCacheError>(KVCacheError::KVCacheFull { max_len: before.capacity() as usize })
            && after == before
    } else if k.len() != before.stride() || v.len() != before.stride() {
        r == Err::<(), KVCacheError>(KVCacheError::KVDimMismatch { k_size: before.stride() as usize })
            && after == before
    } else {
        let s = before.pos() * before.stride();
        &&& r is Ok
        &&& after.pos() == before.pos() + 1
        &&& after.keys() == before.keys().subrange(0, s as int) + k + before.keys().subrange(
            (s + before.stride()) as int,
            before.keys().len() as int,
        )
        &&& after.values() == before.values().subrange(0, s as int) + v + before.values().subrange(
            (s + before.stride()) as int,
            before.values().len() as int,
        )
    }
}

/// A cache of capacity `C` accepts exactly `C` appends of well-sized
/// vectors: each of the first `C` succeeds, the cursor then equals `C`, and
/// the next append is refused as full.
pub proof fn append_fills_capacity<T: Copy>(
    states: Seq<KVCache<T>>,
    keys: Seq<Seq<T>>,
    values: Seq<Seq<T>>,
    results: Seq<Result<(), KVCacheError>>,
)
    requires
        states.len() == states[0].capacity() + 2,
        keys.len() == states[0].capacity() + 1,
        values.len() == states[0].capacity() + 1,
        results.len() == states[0].capacity() + 1,
        states[0].wf(),
        states[0].pos() == 0,
        forall|i: int|
            0 <= i <= states[0].capacity() ==> (#[trigger] keys[i]).len() == states[0].stride()
                && values[i].len() == states[0].stride(),
        forall|i: int|
            0 <= i <= states[0].capacity() ==> append_outcome(
                #[trigger] states[i],
                keys[i],
                values[i],
                states[i + 1],
                results[i],
            ),
    ensures
        forall|i: int| 0 <= i < states[0].capacity() ==> #[trigger] results[i] is Ok,
        states[states[0].capacity() as int].pos() == states[0].capacity(),
        results[states[0].capacity() as int] == Err::<(), KVCacheError>(
            KVCacheError::KVCacheFull { max_len: states[0].capacity() as usize },
        ),
{
    let c = states[0].capacity();
    lemma_appends_prefix(states, keys, values, results, c);
    assert(append_outcome(
        states[c as int],
        keys[c as int],
        values[c as int],
        states[(c + 1) as int],
        results[c as int],
    ));
}

proof fn lemma_appends_prefix<T: Copy>(
    states: Seq<KVCache<T>>,
    keys: Seq<Seq<T>>,
    values: Seq<Seq<T>>,
    results: Seq<Result<(), KVCacheError>>,
    i: nat,
)
    requires
        states.len() == states[0].capacity() + 2,
        keys.len() == states[0].capacity() + 1,
        values.len() == states[0].capacity() + 1,
        results.len() == states[0].capacity() + 1,
        states[0].wf(),
        states[0].pos() == 0,
        forall|i: int|
            0 <= i <= states[0].capacity() ==> (#[trigger] keys[i]).len() == states[0].stride()
                && values[i].len() == states[0].stride(),
        forall|i: int|
            0 <= i <= states[0].capacity() ==> append_outcome(
                #[trigger] states[i],
                keys[i],
                values[i],
                states[i + 1],
                results[i],
            ),
        i <= states[0].capacity(),
    ensures
        states[i as int].pos() == i,
        states[i as int].capacity() == states[0].capacity(),
        states[i as int].heads() == states[0].heads(),
        states[i as int].dim() == states[0].dim(),
        forall|j: int| 0 <= j < i ==> #[trigger] results[j] is Ok,
    decreases i,
{
    if i > 0 {
        let p = (i - 1) as nat;
        lemma_appends_prefix(states, keys, values, results, p);
        assert(append_outcome(
            states[p as int],
            keys[p as int],
            values[p as int],
            states[(p + 1) as int],
            results[p as int],
        ));
        assert(keys[p as int].len() == states[0].stride());
    }
}

} // verus!
