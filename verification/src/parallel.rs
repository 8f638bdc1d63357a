//! The data-parallel execution strategy: an explicit tri-state policy,
//! the override-variable convention, and order-preserving batch
//! encoding on a worker pool.

use vstd::prelude::*;

use rayon::iter::IntoParallelRefIterator;
use rayon::iter::ParallelIterator;

use crate::encoding::Encoding;
use crate::encoding::rows_match;
use crate::pipeline::TokenizerImpl;
use crate::stages::Decoder;
use crate::stages::Model;
use crate::stages::Normalizer;
use crate::stages::PostProcessor;
use crate::stages::PreTokenizer;
use crate::vocab::bytes_equal;

verus! {

/// Policy deciding serial vs. data-parallel execution for batch
/// operations: unset (defer to the environment's override variable),
/// force-serial, or force-parallel. Orthogonal to correctness: results
/// are always materialized back into input order.
#[derive(Debug, Clone, Copy, PartialEq, Eq, Structural)]
pub enum ExecutionStrategy {
    Unset,
    ForceSerial,
    ForceParallel,
}

/// A byte lowered to ASCII lower case.
pub open spec fn ascii_lower(c: u8) -> u8 {
    if 65 <= c <= 90 {
        (c + 32) as u8
    } else {
        c
    }
}

/// The text lowered to ASCII lower case.
pub open spec fn lower_bytes(s: Seq<u8>) -> Seq<u8> {
    s.map_values(|c: u8| ascii_lower(c))
}

/// Whether an override-variable value turns parallelism off: one of
/// the words `off`, `false`, `disable`, `no` or `0`, case-insensitive.
pub open spec fn disables_parallel(s: Seq<u8>) -> bool {
    ||| lower_bytes(s) == seq![111u8, 102u8, 102u8]
    ||| lower_bytes(s) == seq![102u8, 97u8, 108u8, 115u8, 101u8]
    ||| lower_bytes(s) == seq![100u8, 105u8, 115u8, 97u8, 98u8, 108u8, 101u8]
    ||| lower_bytes(s) == seq![110u8, 111u8]
    ||| lower_bytes(s) == seq![48u8]
}

/// What a set override variable asks for: parallel, unless its value
/// is an explicit disable word.
pub open spec fn spec_parallel_from_env_value(s: Seq<u8>) -> bool {
    !disables_parallel(s)
}

/// Whether batch operations run on the worker pool: the explicit
/// policy wins; when unset, a present override value decides; absent
/// both, execution is serial.
pub open spec fn spec_parallel_available(policy: ExecutionStrategy, env: Option<Seq<u8>>) -> bool {
    match policy {
        ExecutionStrategy::ForceSerial => false,
        ExecutionStrategy::ForceParallel => true,
        ExecutionStrategy::Unset => match env {
            Option::Some(v) => spec_parallel_from_env_value(v),
            Option::None => false,
        },
    }
}

/// Parses the value of the parallelism override variable.
pub fn parallel_from_env_value(value: &Vec<u8>) -> (r: bool)
    ensures
        r == spec_parallel_from_env_value(value@),
{
    let mut lowered: Vec<u8> = Vec::new();
    let mut i: usize = 0;
    proof {
        assert(lowered@ =~= lower_bytes(value@).take(0));
    }
    while i < value.len()
        invariant
            0 <= i <= value@.len(),
            lowered@ == lower_bytes(value@).take(i as int),
        decreases value@.len() - i,
    {
        let c = value[i];
        let lc = if c >= 65 && c <= 90 {
            c + 32
        } else {
            c
        };
        lowered.push(lc);
        proof {
            assert(lower_bytes(value@).take(i as int + 1) =~= lower_bytes(value@).take(
                i as int,
            ).push(ascii_lower(value@[i as int])));
        }
        i += 1;
    }
    proof {
        assert(lowered@ =~= lower_bytes(value@));
    }
    let w_off = vec![111u8, 102u8, 102u8];
    let w_false = vec![102u8, 97u8, 108u8, 115u8, 101u8];
    let w_disable = vec![100u8, 105u8, 115u8, 97u8, 98u8, 108u8, 101u8];
    let w_no = vec![110u8, 111u8];
    let w_zero = vec![48u8];
    proof {
        assert(w_off@ =~= seq![111u8, 102u8, 102u8]);
        assert(w_false@ =~= seq![102u8, 97u8, 108u8, 115u8, 101u8]);
        assert(w_disable@ =~= seq![100u8, 105u8, 115u8, 97u8, 98u8, 108u8, 101u8]);
        assert(w_no@ =~= seq![110u8, 111u8]);
        assert(w_zero@ =~= seq![48u8]);
    }
    let disabled = bytes_equal(&lowered, &w_off) || bytes_equal(&lowered, &w_false)
        || bytes_equal(&lowered, &w_disable) || bytes_equal(&lowered, &w_no) || bytes_equal(
        &lowered,
        &w_zero,
    );
    !disabled
}

/// Decides, immediately before a batch operation starts, whether it
/// runs on the worker pool.
pub fn get_parallel_available(policy: ExecutionStrategy, env_value: Option<&Vec<u8>>) -> (r: bool)
    ensures
        r == spec_parallel_available(
            policy,
            match env_value {
                Option::Some(v) => Option::Some(v@),
                Option::None => Option::None,
            },
        ),
{
    match policy {
        ExecutionStrategy::ForceSerial => false,
        ExecutionStrategy::ForceParallel => true,
        ExecutionStrategy::Unset => match env_value {
            Option::Some(v) => parallel_from_env_value(v),
            Option::None => false,
        },
    }
}

/// Relies on rayon's `par_iter().map(..).collect()`: an indexed
/// parallel map whose collect materializes results in input order;
/// every element is computed by the library's own verified `encode`,
/// so each carries exactly what `encode`'s contract gives it — a
/// well-formed record whose rows, when no post-processor is set, are
/// the spec rows of its own input.
#[verifier::external_body]
fn par_encode_batch<
    M: Model + Sync,
    N: Normalizer + Sync,
    PT: PreTokenizer + Sync,
    PP: PostProcessor + Sync,
    D: Decoder + Sync,
>(t: &TokenizerImpl<M, N, PT, PP, D>, inputs: &Vec<Vec<u8>>) -> (r: Vec<Encoding>)
    requires
        t.wf(),
    ensures
        r@.len() == inputs@.len(),
        forall|i: int| 0 <= i < r@.len() ==> (#[trigger] r@[i]).wf(),
        t.post_processor is None ==> forall|nref: Option<&N>, i: int|
            t.same_normalizer(nref) && 0 <= i < r@.len() ==> rows_match(
                r@[i],
                t.spec_encode_rows(
                    inputs@[i]@,
                    #[trigger] t.vocab_extension.spec_split(inputs@[i]@, nref),
                    0,
                ),
            ),
        t.post_processor is Some ==> forall|nref: Option<&N>, i: int|
            t.same_normalizer(nref) && 0 <= i < r@.len() ==> #[trigger] t.processed_from(
                inputs@[i]@,
                r@[i],
                nref,
            ),
{
    inputs.par_iter().map(|x| t.encode(x)).collect()
}

impl<
    M: Model + Sync,
    N: Normalizer + Sync,
    PT: PreTokenizer + Sync,
    PP: PostProcessor + Sync,
    D: Decoder + Sync,
> TokenizerImpl<M, N, PT, PP, D> {
    /// Encodes a batch of inputs, consulting the policy immediately
    /// before starting. The output is positionally aligned with the
    /// inputs whichever way the batch runs, and (when no post-processor
    /// is set) element `i` holds exactly the spec rows of input `i` —
    /// the policy affects scheduling only, never values or order. The
    /// second component reports, for diagnostics, whether the worker
    /// pool was used.
    pub fn encode_batch(
        &self,
        inputs: &Vec<Vec<u8>>,
        policy: ExecutionStrategy,
        env_value: Option<&Vec<u8>>,
    ) -> (r: (Vec<Encoding>, bool))
        requires
            self.wf(),
        ensures
            r.0@.len() == inputs@.len(),
            forall|i: int| 0 <= i < r.0@.len() ==> (#[trigger] r.0@[i]).wf(),
            self.post_processor is None ==> forall|nref: Option<&N>, i: int|
                self.same_normalizer(nref) && 0 <= i < r.0@.len() ==> rows_match(
                    r.0@[i],
                    self.spec_encode_rows(
                        inputs@[i]@,
                        #[trigger] self.vocab_extension.spec_split(inputs@[i]@, nref),
                        0,
                    ),
                ),
            self.post_processor is Some ==> forall|nref: Option<&N>, i: int|
                self.same_normalizer(nref) && 0 <= i < r.0@.len() ==> #[trigger] self.processed_from(
                    inputs@[i]@,
                    r.0@[i],
                    nref,
                ),
            r.1 == spec_parallel_available(
                policy,
                match env_value {
                    Option::Some(v) => Option::Some(v@),
                    Option::None => Option::None,
                },
            ),
    {
        let parallel = get_parallel_available(policy, env_value);
        if parallel {
            (par_encode_batch(self, inputs), true)
        } else {
            let mut out: Vec<Encoding> = Vec::new();
            let mut i: usize = 0;
            while i < inputs.len()
                invariant
                    self.wf(),
                    0 <= i <= inputs@.len(),
                    out@.len() == i,
                    forall|j: int| 0 <= j < out@.len() ==> (#[trigger] out@[j]).wf(),
                    self.post_processor is None ==> forall|nref: Option<&N>, j: int|
                        self.same_normalizer(nref) && 0 <= j < out@.len() ==> rows_match(
                            out@[j],
                            self.spec_encode_rows(
                                inputs@[j]@,
                                #[trigger] self.vocab_extension.spec_split(inputs@[j]@, nref),
                                0,
                            ),
                        ),
                    self.post_processor is Some ==> forall|nref: Option<&N>, j: int|
                        self.same_normalizer(nref) && 0 <= j < out@.len()
                            ==> #[trigger] self.processed_from(inputs@[j]@, out@[j], nref),
                decreases inputs@.len() - i,
            {
                let e = self.encode(&inputs[i]);
                out.push(e);
                i += 1;
            }
            (out, false)
        }
    }
}

} // verus!
