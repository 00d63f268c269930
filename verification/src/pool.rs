//! Thread pools that encoding runs on.

use rayon::ThreadPool;
use vstd::prelude::*;

use crate::jobs::engine::{jpeg_worker_count, jpeg_workers};
use crate::text::{decimal, digits_value, law_decimal_digits_read_as_the_number, push_decimal};

verus! {

/// `rayon::ThreadPool`, a pool of workers.
#[verifier::external_type_specification]
#[verifier::external_body]
pub struct ExThreadPool(ThreadPool);

/// Number of workers of a pool.
pub uninterp spec fn pool_size(pool: ThreadPool) -> nat;

/// Name of a worker's thread, by the worker's number in its pool.
pub uninterp spec fn thread_name_of(pool: ThreadPool, index: int) -> Seq<char>;

/// Whether the threads of a pool are named by a prefix and their numbers.
pub open spec fn names_workers(pool: ThreadPool, prefix: Seq<char>) -> bool {
    forall|index: int|
        0 <= index < pool_size(pool) ==> #[trigger] thread_name_of(pool, index) == prefix + decimal(
            index as nat,
        )
}

/// `rayon::ThreadPool::current_num_threads` returns the number of workers of
/// the pool.
pub assume_specification[ rayon::ThreadPool::current_num_threads ](pool: &ThreadPool) -> (workers:
    usize)
    ensures
        workers == pool_size(*pool),
;

/// The name of a worker.
pub fn worker_name(prefix: &'static str, index: usize) -> (name: String)
    ensures
        name@ == prefix@ + decimal(index as nat),
{
    let mut name = String::from_str(prefix);
    push_decimal(&mut name, index as u64);
    name
}

/// Wraps `rayon::ThreadPoolBuilder::build` with a number of workers, each named
/// by [`worker_name`]. A pool of a requested size has that size, as long as it is
/// small enough for every platform, and its threads have those names, which a NUL
/// would make impossible. Whether a pool can be had depends on the machine, and
/// so does the error that is returned where none can.
#[verifier::external_body]
pub(crate) fn build_pool(workers: usize, prefix: &'static str) -> (pool: Result<ThreadPool, String>)
    requires
        workers >= 1,
        !prefix@.contains('\0'),
    ensures
        pool matches Ok(built) ==> (workers <= 0xFF ==> pool_size(built) == workers),
        pool matches Ok(built) ==> forall|index: int|
            0 <= index < pool_size(built) ==> #[trigger] thread_name_of(built, index) == prefix@
                + decimal(index as nat),
{
    rayon::ThreadPoolBuilder::new()
        .num_threads(workers)
        .thread_name(move |index| worker_name(prefix, index))
        .build()
        .map_err(|error| error.to_string())
}

/// The pool that a fixed limit on processing threads asks for, or the error of
/// the machine where it has none to give.
pub fn build_processing_pool(worker_threads: usize) -> (pool: Result<ThreadPool, String>)
    requires
        worker_threads >= 1,
    ensures
        pool matches Ok(built) ==> (worker_threads <= 0xFF ==> pool_size(built) == worker_threads)
            && names_workers(built, "viewr-processing-"@),
{
    proof {
        reveal_strlit("viewr-processing-");
    }
    build_pool(worker_threads, "viewr-processing-")
}

/// The pool that cache objects are encoded on: bounded, and separate from the
/// pool that develops RAW files. Where the machine has none to give, its error is
/// returned.
pub fn build_jpeg_pool(available: usize) -> (pool: Result<ThreadPool, String>)
    ensures
        pool matches Ok(built) ==> pool_size(built) == jpeg_worker_count(available as int)
            && names_workers(built, "viewr-jpeg-"@),
{
    proof {
        reveal_strlit("viewr-jpeg-");
    }
    build_pool(jpeg_workers(available), "viewr-jpeg-")
}

/// A worker's name is the prefix followed by the digits of its number.
pub proof fn law_workers_are_named_by_number(prefix: &'static str, index: usize, name: String)
    requires
        call_ensures(worker_name, (prefix, index), name),
    ensures
        name@.len() > prefix@.len(),
        name@.take(prefix@.len() as int) == prefix@,
        digits_value(name@.skip(prefix@.len() as int)) == index,
{
    law_decimal_digits_read_as_the_number(index as nat, 0);
    assert(name@.take(prefix@.len() as int) =~= prefix@);
    assert(name@.skip(prefix@.len() as int) =~= decimal(index as nat));
}

/// A pool that was built has the workers that were asked for, as far as every platform
/// has them: a processing pool its limit, and the encoding pool the threads of the
/// host, but one at least and ten at most. Its workers are named by what they do.
pub proof fn law_pools_have_the_workers_asked_for(
    limit: usize,
    processing: Result<ThreadPool, String>,
    available: usize,
    encoding: Result<ThreadPool, String>,
    index: int,
)
    requires
        limit >= 1,
        call_ensures(build_processing_pool, (limit,), processing),
        call_ensures(build_jpeg_pool, (available,), encoding),
    ensures
        processing matches Ok(pool) ==> {
            &&& limit <= 255 ==> pool_size(pool) == limit
            &&& 0 <= index < pool_size(pool) ==> thread_name_of(pool, index).take(17)
                == "viewr-processing-"@ && digits_value(thread_name_of(pool, index).skip(17))
                == index
        },
        encoding matches Ok(pool) ==> {
            &&& available == 0 ==> pool_size(pool) == 1
            &&& 1 <= available <= 10 ==> pool_size(pool) == available
            &&& available > 10 ==> pool_size(pool) == 10
            &&& 0 <= index < pool_size(pool) ==> thread_name_of(pool, index).take(11)
                == "viewr-jpeg-"@ && digits_value(thread_name_of(pool, index).skip(11)) == index
        },
{
    reveal_strlit("viewr-processing-");
    reveal_strlit("viewr-jpeg-");
    if let Ok(pool) = processing {
        if 0 <= index < pool_size(pool) {
            let name = thread_name_of(pool, index);
            law_decimal_digits_read_as_the_number(index as nat, 0);
            assert(name == "viewr-processing-"@ + decimal(index as nat));
            assert(name.take(17) =~= "viewr-processing-"@);
            assert(name.skip(17) =~= decimal(index as nat));
        }
    }
    if let Ok(pool) = encoding {
        if 0 <= index < pool_size(pool) {
            let name = thread_name_of(pool, index);
            law_decimal_digits_read_as_the_number(index as nat, 0);
            assert(name == "viewr-jpeg-"@ + decimal(index as nat));
            assert(name.take(11) =~= "viewr-jpeg-"@);
            assert(name.skip(11) =~= decimal(index as nat));
        }
    }
}

} // verus!
