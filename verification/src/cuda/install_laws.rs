//! Where an installation is looked for, how paths are put together, and which devices read host
//! memory.

use vstd::prelude::*;

use crate::cuda::install::{
    cccl_include_path, cuda_path, include_path, join, reads_host_memory, supports_zero_copy_host,
    Found, Platform, ZeroCopyCache, CACHED_DEVICES,
};

verus! {

/// The environment decides where it says anything, on every platform. On Linux the place of the
/// distribution comes before the optional one, and both before that of a compiler alone; on
/// Windows there is one place, and elsewhere none.
pub proof fn law_environment_decides_first(
    variable: Option<&str>,
    platform: Platform,
    found: Found,
    r: Option<String>,
)
    requires
        call_ensures(cuda_path, (variable, platform, found), r),
    ensures
        variable matches Some(path) ==> r is Some && (r->0)@ == path@,
        variable is None && platform is Other ==> r is None,
        variable is None && platform is Windows ==> r is Some && (r->0)@
            == "C:/Program Files/NVIDIA GPU Computing Toolkit/CUDA/"@,
        variable is None && platform is Linux ==> {
            &&& r is None <==> !found.usr_local_cuda && !found.opt_cuda && !found.usr_bin_nvcc
            &&& found.usr_local_cuda ==> (r->0)@ == "/usr/local/cuda"@
            &&& !found.usr_local_cuda && found.opt_cuda ==> (r->0)@ == "/opt/cuda"@
            &&& !found.usr_local_cuda && !found.opt_cuda && found.usr_bin_nvcc ==> (r->0)@
                == "/usr"@
        },
{
}

/// Whether a path needs no separator before its next part: it is empty, it ends in one, or it
/// is the letter of a drive with its colon.
pub open spec fn open_ended(platform: Platform, base: Seq<char>) -> bool {
    ||| base.len() == 0
    ||| base[base.len() - 1] == '/'
    ||| platform is Windows && base[base.len() - 1] == '\\'
    ||| {
        &&& platform is Windows && base.len() == 2 && base[1] == ':'
        &&& ('a' <= base[0] && base[0] <= 'z') || ('A' <= base[0] && base[0] <= 'Z')
    }
}

/// A path with one more part begins with the path and ends with the part. Between them is
/// nothing, or one separator of the platform exactly if the path needs one.
pub proof fn law_parts_are_separated_once(
    platform: Platform,
    base: &str,
    part: &str,
    r: String,
)
    requires
        call_ensures(join, (platform, base, part), r),
    ensures
        open_ended(platform, base@) ==> r@ == base@ + part@,
        !open_ended(platform, base@) ==> {
            &&& r@.len() == base@.len() + 1 + part@.len()
            &&& r@.take(base@.len() as int) =~= base@
            &&& r@[base@.len() as int] == (if platform is Windows {
                '\\'
            } else {
                '/'
            })
            &&& r@.skip((base@.len() + 1) as int) =~= part@
        },
{
    reveal_strlit("/");
    reveal_strlit("\\");
}

/// Headers are in the part `include` of an installation, and those of the core libraries in the
/// part `cccl` of that.
pub proof fn law_headers_are_included(
    platform: Platform,
    cuda_path: &str,
    r: String,
    joined: String,
    core: String,
)
    requires
        call_ensures(include_path, (platform, cuda_path), r),
        call_ensures(join, (platform, cuda_path, "include"), joined),
        call_ensures(cccl_include_path, (platform, cuda_path), core),
    ensures
        r@ == joined@,
        r@.len() >= 7 && r@.skip(r@.len() - 7) =~= seq!['i', 'n', 'c', 'l', 'u', 'd', 'e'],
        core@.len() == r@.len() + 5,
        core@.take(r@.len() as int) =~= r@,
        core@.skip((r@.len() + 1) as int) =~= seq!['c', 'c', 'c', 'l'],
{
    reveal_strlit("include");
    reveal_strlit("cccl");
    reveal_strlit("/");
    reveal_strlit("\\");
    assert(r@[r@.len() - 1] == 'e');
}

/// A device reads host memory exactly if both of its attributes are there and not zero.
pub proof fn law_host_memory_takes_both_attributes(
    pageable: Option<i32>,
    host_page_tables: Option<i32>,
    r: bool,
)
    requires
        call_ensures(reads_host_memory, (pageable, host_page_tables), r),
    ensures
        !r <==> {
            ||| pageable is None
            ||| host_page_tables is None
            ||| pageable == Some(0i32)
            ||| host_page_tables == Some(0i32)
        },
{
}

/// An answer that is kept is found again for its device, as long as there is room for it. There
/// is for the first sixteen devices. No other answer changes.
pub proof fn law_answers_are_kept(
    cache: &mut ZeroCopyCache,
    device_index: usize,
    answer: bool,
    other: usize,
    stored: (),
    r: Option<bool>,
    was: Option<bool>,
    s: Option<bool>,
)
    requires
        other != device_index,
        call_ensures(ZeroCopyCache::lookup, (&*old(cache), other), was),
        call_ensures(ZeroCopyCache::store, (cache, device_index, answer), stored),
        call_ensures(ZeroCopyCache::lookup, (&*final(cache), device_index), r),
        call_ensures(ZeroCopyCache::lookup, (&*final(cache), other), s),
    ensures
        device_index < 16 ==> r == Some(answer),
        device_index >= 16 ==> r is None,
        s == was,
{
}

/// At first no answer is kept.
pub proof fn law_no_answer_is_kept_at_first(
    cache: ZeroCopyCache,
    device_index: usize,
    r: Option<bool>,
)
    requires
        forall|i: int| 0 <= i < CACHED_DEVICES ==> (#[trigger] cache.answers@[i]) is None,
        call_ensures(ZeroCopyCache::lookup, (&cache, device_index), r),
    ensures
        r is None,
{
}

/// A device is asked only if no answer is kept for it. It reads host memory exactly if it says
/// that it does and that it does so through the tables of the host, and that answer is kept from
/// then on, as long as there is room for it. No other answer changes.
pub proof fn law_devices_are_asked_once<F: FnOnce() -> (Option<i32>, Option<i32>)>(
    cache: &mut ZeroCopyCache,
    device_index: usize,
    ask: F,
    other: usize,
    known: Option<bool>,
    was: Option<bool>,
    r: bool,
    kept: Option<bool>,
    now: Option<bool>,
)
    requires
        other != device_index,
        known is None ==> ask.requires(()),
        call_ensures(ZeroCopyCache::lookup, (&*old(cache), device_index), known),
        call_ensures(ZeroCopyCache::lookup, (&*old(cache), other), was),
        call_ensures(supports_zero_copy_host::<F>, (cache, device_index, ask), r),
        call_ensures(ZeroCopyCache::lookup, (&*final(cache), device_index), kept),
        call_ensures(ZeroCopyCache::lookup, (&*final(cache), other), now),
    ensures
        known matches Some(answer) ==> r == answer,
        known is None ==> exists|attributes: (Option<i32>, Option<i32>)|
            #[trigger] ask.ensures((), attributes) && r == (attributes.0 is Some
                && attributes.0->0 != 0 && attributes.1 is Some && attributes.1->0 != 0),
        device_index < 16 ==> kept == Some(r),
        now == was,
{
    if known is None {
        let attributes = choose|attributes: (Option<i32>, Option<i32>)| #[trigger]
            ask.ensures((), attributes) && r == crate::cuda::install::walks_host_tables(
                attributes.0,
                attributes.1,
            );
        assert(ask.ensures((), attributes));
    }
}

} // verus!
