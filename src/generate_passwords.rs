use vstd::prelude::*;
use rand::Rng;
use crate::error::HashassinError;
use crate::text::push_char;

verus! {

/// Relies on rand's `Rng::random_range` over the thread-local generator: a
/// value drawn from `lo` to `hi` inclusive. The range is not empty, so the
/// call does not panic.
#[verifier::external_body]
fn random_in(lo: u8, hi: u8) -> (r: u8)
    requires
        lo <= hi,
    ensures
        lo <= r <= hi,
{
    rand::rng().random_range(lo..=hi)
}

/// Whether every character is printable ASCII, codes 32 to 126.
pub open spec fn printable(s: Seq<char>) -> bool {
    forall|i: int| 0 <= i < s.len() ==> 32 <= (#[trigger] s[i]) as u32 <= 126
}

/// A random password of `length` printable ASCII characters.
pub fn generate_random_string(length: u8) -> (r: String)
    ensures
        r@.len() == length,
        printable(r@),
{
    let mut s = String::new();
    let mut i: u8 = 0;
    while i < length
        invariant
            i <= length,
            s@.len() == i,
            printable(s@),
        decreases length - i,
    {
        let c = random_in(32, 126);
        push_char(&mut s, c as char);
        i += 1;
    }
    s
}

/// The number of passwords each worker makes: `num` shared as evenly as
/// possible among `min(threads, num)` workers, the first ones taking one more.
pub open spec fn share(threads: nat, num: nat, i: int) -> nat {
    let w = if threads <= num { threads } else { num };
    (num / w + if i < num % w { 1nat } else { 0nat }) as nat
}

/// The sum of a list of counts.
pub open spec fn total(v: Seq<usize>) -> nat
    decreases v.len(),
{
    if v.len() == 0 {
        0
    } else {
        total(v.drop_last()) + v.last() as nat
    }
}

/// Splits the work of making `num` passwords among at most `threads`
/// workers: one count per worker, every count at least one, all of them
/// together exactly `num`. Zero threads is refused as `InvalidThreadCount`.
pub fn plan_password_workers(threads: usize, num: usize) -> (r: Result<Vec<usize>, HashassinError>)
    ensures
        threads == 0 <==> r is Err,
        r is Err ==> r->Err_0 is InvalidThreadCount,
        r matches Ok(v) ==> {
            &&& v@.len() == if threads <= num { threads } else { num }
            &&& total(v@) == num
            &&& forall|i: int| 0 <= i < v@.len() ==> #[trigger] v@[i] == share(threads as nat, num as nat, i)
            &&& forall|i: int| 0 <= i < v@.len() ==> v@[i] >= 1
        },
{
    if threads == 0 {
        return Err(HashassinError::InvalidThreadCount);
    }
    let workers = if threads <= num { threads } else { num };
    let mut v: Vec<usize> = Vec::new();
    if workers == 0 {
        return Ok(v);
    }
    let base = num / workers;
    let extra = num % workers;
    let mut i: usize = 0;
    while i < workers
        invariant
            workers > 0,
            workers == if threads <= num { threads } else { num },
            base == num / workers,
            extra == num % workers,
            i <= workers,
            v@.len() == i,
            forall|j: int| 0 <= j < i ==> #[trigger] v@[j] == share(threads as nat, num as nat, j),
            total(v@) == i * base + if i <= extra { i as nat } else { extra as nat },
        decreases workers - i,
    {
        let ghost before = v@;
        proof {
            if i < extra {
                assert(workers > 1);
                assert(base < usize::MAX) by (nonlinear_arith)
                    requires
                        base == num / workers,
                        workers > 1,
                        num <= usize::MAX,
                ;
            }
        }
        let c = if i < extra { base + 1 } else { base };
        proof {
            assert(base * workers <= num) by (nonlinear_arith)
                requires
                    base == num / workers,
                    workers > 0,
            ;
        }
        v.push(c);
        proof {
            assert(v@.drop_last() =~= before);
            assert((i + 1) * base == i * base + base) by (nonlinear_arith);
        }
        i += 1;
    }
    proof {
        assert(workers * base + extra == num) by (nonlinear_arith)
            requires
                base == num / workers,
                extra == num % workers,
                workers > 0,
        ;
        assert(forall|j: int| 0 <= j < v@.len() ==> v@[j] >= 1) by {
            assert(base >= 1) by (nonlinear_arith)
                requires
                    base == num / workers,
                    workers <= num,
                    workers > 0,
            ;
        }
    }
    Ok(v)
}

} // verus!
